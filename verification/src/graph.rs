//! Directed graphs of `petgraph`, whose node weights are `usize`s.
//!
//! A graph is seen as the weight of each node, by index, and for each node
//! the targets of its outgoing edges and the sources of its incoming edges,
//! each list with the most recently added edge first, as `petgraph` keeps
//! them.

use vstd::prelude::*;
use petgraph::graph::{DiGraph, NodeIndex};
use petgraph::visit::{Bfs, Dfs, Walker};
use petgraph::Direction;

verus! {

#[verifier::external_type_specification]
#[verifier::external_body]
#[verifier::reject_recursive_types(N)]
#[verifier::reject_recursive_types(E)]
#[verifier::reject_recursive_types(Ty)]
#[verifier::reject_recursive_types(Ix)]
pub struct ExGraph<N, E, Ty, Ix>(petgraph::graph::Graph<N, E, Ty, Ix>);

#[verifier::external_type_specification]
#[verifier::external_body]
pub struct ExDirected(petgraph::Directed);

/// What a graph holds: the node weights, the outgoing and the incoming
/// neighbors of each node (most recent edge first).
pub uninterp spec fn graph_view(g: DiGraph<usize, ()>) -> (
    Seq<usize>,
    Seq<Seq<usize>>,
    Seq<Seq<usize>>,
);

/// How many edges a graph has.
pub uninterp spec fn graph_edge_count(g: DiGraph<usize, ()>) -> nat;

/// The node weights.
pub open spec fn weights(g: DiGraph<usize, ()>) -> Seq<usize> {
    graph_view(g).0
}

/// The targets of each node's outgoing edges, most recent first.
pub open spec fn outs(g: DiGraph<usize, ()>) -> Seq<Seq<usize>> {
    graph_view(g).1
}

/// The sources of each node's incoming edges, most recent first.
pub open spec fn ins(g: DiGraph<usize, ()>) -> Seq<Seq<usize>> {
    graph_view(g).2
}

/// Every node has its two lists, and every listed node exists.
pub open spec fn graph_wf(g: DiGraph<usize, ()>) -> bool {
    let n = weights(g).len();
    &&& n <= u32::MAX
    &&& outs(g).len() == n
    &&& ins(g).len() == n
    &&& forall|a: int, i: int|
        #![trigger outs(g)[a][i]]
        0 <= a < n && 0 <= i < outs(g)[a].len() ==> outs(g)[a][i] < n
    &&& forall|a: int, i: int|
        #![trigger ins(g)[a][i]]
        0 <= a < n && 0 <= i < ins(g)[a].len() ==> ins(g)[a][i] < n
}

/// Whether a node is not `a`.
pub open spec fn other_than(a: usize) -> spec_fn(usize) -> bool {
    |x: usize| x != a
}

/// A node list after node `a` is removed: `a` leaves it and `last`, the
/// node that takes `a`'s index, is renumbered.
pub open spec fn without_node(list: Seq<usize>, a: usize, last: usize) -> Seq<usize> {
    list.filter(other_than(a)).map_values(
        |x: usize|
            if x == last {
                a
            } else {
                x
            },
    )
}

/// After node `a` of `n + 1` nodes is removed, every listed node is below `n`.
pub proof fn lemma_without_node_bounded(list: Seq<usize>, a: usize, n: usize)
    requires
        a <= n,
        forall|i: int| 0 <= i < list.len() ==> list[i] <= n,
    ensures
        forall|k: int|
            0 <= k < without_node(list, a, n).len() ==> #[trigger] without_node(list, a, n)[k] < n,
{
    let pred = other_than(a);
    let f = list.filter(pred);
    assert(without_node(list, a, n).len() == f.len());
    assert forall|k: int| 0 <= k < without_node(list, a, n).len() implies #[trigger] without_node(
        list,
        a,
        n,
    )[k] < n by {
        list.lemma_filter_pred(pred, k);
        assert(f.contains(f[k]));
        list.lemma_filter_contains_rev(pred, f[k]);
        let j = choose|j: int| 0 <= j < list.len() && list[j] == f[k];
        assert(f[k] <= n);
    }
}

/// The lists of every node after node `a` is removed from a graph of
/// `n + 1` nodes, the last of which (`n`) takes `a`'s index.
pub open spec fn lists_without(lists: Seq<Seq<usize>>, a: usize, n: usize) -> Seq<Seq<usize>> {
    Seq::new(
        n as nat,
        |p: int|
            without_node(
                if p == a {
                    lists[n as int]
                } else {
                    lists[p]
                },
                a,
                n,
            ),
    )
}

/// `b` can be reached from `a` in at most `steps` edges.
pub open spec fn reaches_within(outs: Seq<Seq<usize>>, a: usize, b: usize, steps: nat) -> bool
    decreases steps,
{
    a == b || (steps > 0 && 0 <= a < outs.len() && exists|i: int|
        0 <= i < outs[a as int].len() && reaches_within(
            outs,
            #[trigger] outs[a as int][i],
            b,
            (steps - 1) as nat,
        ))
}

/// `b` can be reached from `a` along edges.
pub open spec fn reaches(outs: Seq<Seq<usize>>, a: usize, b: usize) -> bool {
    exists|steps: nat| reaches_within(outs, a, b, steps)
}

/// The outgoing neighbors of `n`, none for a node that does not exist.
pub open spec fn succs(outs: Seq<Seq<usize>>, n: usize) -> Seq<usize> {
    if n < outs.len() {
        outs[n as int]
    } else {
        Seq::empty()
    }
}

/// `stack` with each of `ns` not in `seen` pushed, in order.
pub open spec fn push_unseen(ns: Seq<usize>, stack: Seq<usize>, seen: Set<usize>) -> Seq<usize>
    decreases ns.len(),
{
    if ns.len() == 0 {
        stack
    } else {
        let s = push_unseen(ns.drop_last(), stack, seen);
        if seen.contains(ns.last()) {
            s
        } else {
            s.push(ns.last())
        }
    }
}

/// How many edges leave the nodes, counted over all outgoing lists.
pub open spec fn out_total(outs: Seq<Seq<usize>>) -> nat
    decreases outs.len(),
{
    if outs.len() == 0 {
        0
    } else {
        out_total(outs.drop_last()) + outs.last().len()
    }
}

/// A depth-first walk, as `petgraph`'s `Dfs` makes it: take the top of the
/// stack; if it was not visited yet, visit it (it comes next), and push its
/// neighbors that are not visited, in their order; at most `fuel` steps.
pub open spec fn dfs_walk(outs: Seq<Seq<usize>>, stack: Seq<usize>, seen: Set<usize>, fuel: nat) -> Seq<usize>
    decreases fuel,
{
    if fuel == 0 || stack.len() == 0 {
        Seq::empty()
    } else {
        let n = stack.last();
        let rest = stack.drop_last();
        if seen.contains(n) {
            dfs_walk(outs, rest, seen, (fuel - 1) as nat)
        } else {
            let seen2 = seen.insert(n);
            seq![n] + dfs_walk(outs, push_unseen(succs(outs, n), rest, seen2), seen2, (fuel - 1) as nat)
        }
    }
}

/// The order in which `petgraph`'s `Dfs` from `start` visits the nodes:
/// every node is pushed at most once per edge into it, so one step more than
/// there are edges finishes the walk.
pub open spec fn dfs_preorder(outs: Seq<Seq<usize>>, start: usize) -> Seq<usize> {
    dfs_walk(outs, seq![start], Set::empty(), out_total(outs) + 1)
}

/// `queue` and `seen` after each of `ns` not yet seen is marked seen and
/// queued at the back, in order.
pub open spec fn enqueue_unseen(ns: Seq<usize>, queue: Seq<usize>, seen: Set<usize>) -> (Seq<usize>, Set<usize>)
    decreases ns.len(),
{
    if ns.len() == 0 {
        (queue, seen)
    } else {
        let (q, s) = enqueue_unseen(ns.drop_last(), queue, seen);
        if s.contains(ns.last()) {
            (q, s)
        } else {
            (q.push(ns.last()), s.insert(ns.last()))
        }
    }
}

/// A breadth-first walk, as `petgraph`'s `Bfs` makes it: take the front of
/// the queue (it comes next) and queue its neighbors not seen yet, in their
/// order, marking them seen; at most `fuel` steps.
pub open spec fn bfs_walk(outs: Seq<Seq<usize>>, queue: Seq<usize>, seen: Set<usize>, fuel: nat) -> Seq<usize>
    decreases fuel,
{
    if fuel == 0 || queue.len() == 0 {
        Seq::empty()
    } else {
        let n = queue[0];
        let (q, s) = enqueue_unseen(succs(outs, n), queue.drop_first(), seen);
        seq![n] + bfs_walk(outs, q, s, (fuel - 1) as nat)
    }
}

/// The order in which `petgraph`'s `Bfs` from `start` visits the nodes:
/// each node is queued at most once, so as many steps as there are nodes
/// finish the walk.
pub open spec fn bfs_order(outs: Seq<Seq<usize>>, start: usize) -> Seq<usize> {
    bfs_walk(outs, seq![start], set![start], outs.len())
}

/// The outgoing edges of the nodes not in `seen`, counted.
pub open spec fn unvisited_out(outs: Seq<Seq<usize>>, seen: Set<usize>) -> nat
    decreases outs.len(),
{
    if outs.len() == 0 {
        0
    } else {
        unvisited_out(outs.drop_last(), seen) + if seen.contains((outs.len() - 1) as usize) {
            0nat
        } else {
            outs.last().len()
        }
    }
}

/// With nothing visited, every edge is counted.
proof fn lemma_unvisited_none(outs: Seq<Seq<usize>>)
    ensures
        unvisited_out(outs, Set::empty()) == out_total(outs),
    decreases outs.len(),
{
    if outs.len() > 0 {
        lemma_unvisited_none(outs.drop_last());
    }
}

/// The count depends only on which existing nodes were visited.
proof fn lemma_unvisited_agree(outs: Seq<Seq<usize>>, s1: Set<usize>, s2: Set<usize>)
    requires
        forall|u: usize| u < outs.len() ==> (s1.contains(u) <==> s2.contains(u)),
    ensures
        unvisited_out(outs, s1) == unvisited_out(outs, s2),
    decreases outs.len(),
{
    if outs.len() > 0 {
        assert forall|u: usize| u < outs.drop_last().len() implies (s1.contains(u) <==> s2.contains(u)) by {
            assert(u < outs.len());
        }
        lemma_unvisited_agree(outs.drop_last(), s1, s2);
        assert(s1.contains((outs.len() - 1) as usize) <==> s2.contains((outs.len() - 1) as usize));
    }
}

/// Visiting node `n` takes its edges out of the count.
proof fn lemma_unvisited_visit(outs: Seq<Seq<usize>>, seen: Set<usize>, n: usize)
    requires
        !seen.contains(n),
        outs.len() <= usize::MAX,
    ensures
        n < outs.len() ==> unvisited_out(outs, seen.insert(n)) + outs[n as int].len() == unvisited_out(outs, seen),
        n >= outs.len() ==> unvisited_out(outs, seen.insert(n)) == unvisited_out(outs, seen),
    decreases outs.len(),
{
    if outs.len() > 0 {
        let m = (outs.len() - 1) as usize;
        if n == m {
            assert forall|u: usize| u < outs.drop_last().len() implies (seen.insert(n).contains(u)
                <==> seen.contains(u)) by {
                assert(u != n);
            }
            lemma_unvisited_agree(outs.drop_last(), seen.insert(n), seen);
        } else {
            lemma_unvisited_visit(outs.drop_last(), seen, n);
            if n < m {
                assert(outs.drop_last()[n as int] == outs[n as int]);
            }
        }
    }
}

/// What `push_unseen` pushes: the stack keeps its nodes, gains those of
/// `ns` not in `seen`, and grows by at most `ns.len()`.
proof fn lemma_push_unseen(ns: Seq<usize>, stack: Seq<usize>, seen: Set<usize>)
    ensures
        push_unseen(ns, stack, seen).len() <= stack.len() + ns.len(),
        forall|x: usize|
            #[trigger] push_unseen(ns, stack, seen).contains(x) <==> (stack.contains(x) || (
            ns.contains(x) && !seen.contains(x))),
    decreases ns.len(),
{
    if ns.len() > 0 {
        lemma_push_unseen(ns.drop_last(), stack, seen);
        let s = push_unseen(ns.drop_last(), stack, seen);
        assert forall|x: usize| #[trigger] push_unseen(ns, stack, seen).contains(x) <==> (
        stack.contains(x) || (ns.contains(x) && !seen.contains(x))) by {
            if ns.contains(x) && !ns.drop_last().contains(x) {
                let k = choose|k: int| 0 <= k < ns.len() && ns[k] == x;
                if k < ns.len() - 1 {
                    assert(ns.drop_last()[k] == x);
                }
            }
            if ns.drop_last().contains(x) {
                let k = choose|k: int| 0 <= k < ns.drop_last().len() && ns.drop_last()[k] == x;
                assert(ns[k] == x);
            }
            if !seen.contains(ns.last()) {
                assert(s.push(ns.last()).contains(x) <==> (s.contains(x) || x == ns.last())) by {
                    if s.push(ns.last()).contains(x) {
                        let k = choose|k: int| 0 <= k < s.push(ns.last()).len() && s.push(ns.last())[k] == x;
                        if k < s.len() {
                            assert(s[k] == x);
                        }
                    }
                    if s.contains(x) {
                        let k = choose|k: int| 0 <= k < s.len() && s[k] == x;
                        assert(s.push(ns.last())[k] == x);
                    }
                    if x == ns.last() {
                        assert(s.push(ns.last())[s.len() as int] == x);
                    }
                }
            }
        }
    }
}

/// A node reached from `s` leads on to its neighbors.
proof fn lemma_reaches_step(outs: Seq<Seq<usize>>, s: usize, n: usize, i: int, k: nat)
    requires
        reaches_within(outs, s, n, k),
        n < outs.len(),
        0 <= i < outs[n as int].len(),
    ensures
        reaches_within(outs, s, outs[n as int][i], k + 1),
    decreases k,
{
    let m = outs[n as int][i];
    if s == n {
        assert(reaches_within(outs, m, m, 0));
        assert(reaches_within(outs, s, m, 1));
        lemma_reaches_more(outs, s, m, 1, k + 1);
    } else {
        let j = choose|j: int|
            0 <= j < outs[s as int].len() && reaches_within(outs, #[trigger] outs[s as int][j], n, (k - 1) as nat);
        lemma_reaches_step(outs, outs[s as int][j], n, i, (k - 1) as nat);
        assert(reaches_within(outs, outs[s as int][j], m, k));
    }
}

/// A bound on the number of steps can be raised.
proof fn lemma_reaches_more(outs: Seq<Seq<usize>>, a: usize, b: usize, k1: nat, k2: nat)
    requires
        reaches_within(outs, a, b, k1),
        k1 <= k2,
    ensures
        reaches_within(outs, a, b, k2),
    decreases k1,
{
    if a != b {
        let j = choose|j: int|
            0 <= j < outs[a as int].len() && reaches_within(outs, #[trigger] outs[a as int][j], b, (k1 - 1) as nat);
        lemma_reaches_more(outs, outs[a as int][j], b, (k1 - 1) as nat, (k2 - 1) as nat);
        assert(reaches_within(outs, outs[a as int][j], b, (k2 - 1) as nat));
    }
}

/// A set of nodes closed under edges holds everything reachable from its
/// members.
proof fn lemma_closed_reach(outs: Seq<Seq<usize>>, w: Seq<usize>, a: usize, b: usize, k: nat)
    requires
        w.contains(a),
        forall|u: usize, i: int|
            #![trigger w.contains(u), outs[u as int][i]]
            w.contains(u) && u < outs.len() && 0 <= i < outs[u as int].len() ==> w.contains(outs[u as int][i]),
        reaches_within(outs, a, b, k),
    ensures
        w.contains(b),
    decreases k,
{
    if a != b {
        let j = choose|j: int|
            0 <= j < outs[a as int].len() && reaches_within(outs, #[trigger] outs[a as int][j], b, (k - 1) as nat);
        assert(w.contains(outs[a as int][j]));
        lemma_closed_reach(outs, w, outs[a as int][j], b, (k - 1) as nat);
    }
}

/// The walk has steps enough for what is left, and every successor of a
/// visited node is visited or waits on the stack.
pub open spec fn dfs_ready(outs: Seq<Seq<usize>>, stack: Seq<usize>, seen: Set<usize>, fuel: nat) -> bool {
    &&& fuel >= stack.len() + unvisited_out(outs, seen)
    &&& forall|u: usize, i: int|
        #![trigger seen.contains(u), outs[u as int][i]]
        seen.contains(u) && u < outs.len() && 0 <= i < outs[u as int].len() ==> seen.contains(
            outs[u as int][i],
        ) || stack.contains(outs[u as int][i])
}

/// A depth-first walk visits nodes not visited before, each once, all of
/// them reached from `s0` where the stack's nodes are; with enough steps it
/// leaves every node of the stack visited and the visited nodes closed under
/// edges.
proof fn lemma_dfs_walk(outs: Seq<Seq<usize>>, stack: Seq<usize>, seen: Set<usize>, fuel: nat, s0: usize)
    requires
        outs.len() <= usize::MAX,
        forall|y: usize| #[trigger] stack.contains(y) ==> reaches(outs, s0, y),
    ensures
        dfs_walk(outs, stack, seen, fuel).no_duplicates(),
        forall|x: usize| #[trigger] dfs_walk(outs, stack, seen, fuel).contains(x) ==> !seen.contains(x)
            && reaches(outs, s0, x),
        dfs_ready(outs, stack, seen, fuel) ==> forall|x: usize| #[trigger] stack.contains(x) ==> seen.contains(x)
            || dfs_walk(outs, stack, seen, fuel).contains(x),
        dfs_ready(outs, stack, seen, fuel) ==> forall|u: usize, i: int|
            #![trigger dfs_walk(outs, stack, seen, fuel).contains(u), outs[u as int][i]]
            #![trigger seen.contains(u), outs[u as int][i]]
            (seen.contains(u) || dfs_walk(outs, stack, seen, fuel).contains(u)) && u < outs.len() && 0 <= i
                < outs[u as int].len() ==> seen.contains(outs[u as int][i]) || dfs_walk(outs, stack, seen, fuel).contains(
                outs[u as int][i],
            ),
    decreases fuel,
{
    let w = dfs_walk(outs, stack, seen, fuel);
    if fuel == 0 || stack.len() == 0 {
        assert(w.len() == 0);
        if dfs_ready(outs, stack, seen, fuel) {
            assert(stack.len() == 0);
            assert forall|x: usize| !stack.contains(x) && !w.contains(x) by {}
        }
    } else {
        let n = stack.last();
        let rest = stack.drop_last();
        assert(stack.contains(n));
        assert forall|x: usize|
            #![trigger stack.contains(x)]
            #![trigger rest.contains(x)]
            stack.contains(x) <==> (rest.contains(x) || x == n) by {
            if stack.contains(x) {
                let k = choose|k: int| 0 <= k < stack.len() && stack[k] == x;
                if k < stack.len() - 1 {
                    assert(rest[k] == x);
                }
            }
            if rest.contains(x) {
                let k = choose|k: int| 0 <= k < rest.len() && rest[k] == x;
                assert(stack[k] == x);
            }
        }
        if seen.contains(n) {
            assert(w == dfs_walk(outs, rest, seen, (fuel - 1) as nat));
            if dfs_ready(outs, stack, seen, fuel) {
                assert forall|u: usize, i: int|
                    #![trigger seen.contains(u), outs[u as int][i]]
                    seen.contains(u) && u < outs.len() && 0 <= i < outs[u as int].len() implies seen.contains(
                        outs[u as int][i],
                    ) || rest.contains(outs[u as int][i]) by {
                    assert(seen.contains(outs[u as int][i]) || stack.contains(outs[u as int][i]));
                }
                assert(dfs_ready(outs, rest, seen, (fuel - 1) as nat));
            }
            lemma_dfs_walk(outs, rest, seen, (fuel - 1) as nat, s0);
        } else {
            let seen2 = seen.insert(n);
            let stack2 = push_unseen(succs(outs, n), rest, seen2);
            lemma_push_unseen(succs(outs, n), rest, seen2);
            assert forall|y: usize| #[trigger] stack2.contains(y) implies reaches(outs, s0, y) by {
                if !rest.contains(y) {
                    let i = choose|i: int| 0 <= i < succs(outs, n).len() && succs(outs, n)[i] == y;
                    let k = choose|k: nat| reaches_within(outs, s0, n, k);
                    lemma_reaches_step(outs, s0, n, i, k);
                    assert(reaches_within(outs, s0, y, k + 1));
                }
            }
            lemma_dfs_walk(outs, stack2, seen2, (fuel - 1) as nat, s0);
            let w2 = dfs_walk(outs, stack2, seen2, (fuel - 1) as nat);
            assert(w == seq![n] + w2);
            assert forall|x: usize| #[trigger] w.contains(x) <==> (x == n || w2.contains(x)) by {
                if w.contains(x) {
                    let k = choose|k: int| 0 <= k < w.len() && w[k] == x;
                    if k > 0 {
                        assert(w2[k - 1] == x);
                    }
                }
                if w2.contains(x) {
                    let k = choose|k: int| 0 <= k < w2.len() && w2[k] == x;
                    assert(w[k + 1] == x);
                }
                if x == n {
                    assert(w[0] == x);
                }
            }
            assert forall|a: int, b: int| 0 <= a < w.len() && 0 <= b < w.len() && a != b implies w[a]
                != w[b] by {
                if a > 0 && b > 0 {
                    assert(w[a] == w2[a - 1] && w[b] == w2[b - 1]);
                } else if a == 0 {
                    assert(w2.contains(w[b]));
                } else {
                    assert(w2.contains(w[a]));
                }
            }
            if dfs_ready(outs, stack, seen, fuel) {
                lemma_unvisited_visit(outs, seen, n);
                assert forall|u: usize, i: int|
                    #![trigger seen2.contains(u), outs[u as int][i]]
                    seen2.contains(u) && u < outs.len() && 0 <= i < outs[u as int].len() implies seen2.contains(
                        outs[u as int][i],
                    ) || stack2.contains(outs[u as int][i]) by {
                    let v = outs[u as int][i];
                    if u == n {
                        assert(succs(outs, n)[i] == v);
                        assert(succs(outs, n).contains(v));
                    } else {
                        assert(seen.contains(u));
                        assert(seen.contains(v) || stack.contains(v));
                    }
                }
                assert(dfs_ready(outs, stack2, seen2, (fuel - 1) as nat));
                assert forall|x: usize| #[trigger] stack.contains(x) implies seen.contains(x) || w.contains(x) by {
                    if x != n {
                        assert(rest.contains(x));
                        assert(stack2.contains(x));
                    }
                }
                assert forall|u: usize, i: int|
                    #![trigger w.contains(u), outs[u as int][i]]
                    #![trigger seen.contains(u), outs[u as int][i]]
                    (seen.contains(u) || w.contains(u)) && u < outs.len() && 0 <= i < outs[u as int].len()
                        implies seen.contains(outs[u as int][i]) || w.contains(outs[u as int][i]) by {
                    let v = outs[u as int][i];
                    assert(seen2.contains(u) || w2.contains(u));
                    assert(seen2.contains(v) || w2.contains(v));
                }
            }
        }
    }
}

/// The depth-first order from `start` starts there, lists each node once,
/// and lists exactly the nodes reachable from `start`.
proof fn lemma_dfs_preorder(outs: Seq<Seq<usize>>, start: usize)
    requires
        start < outs.len() <= usize::MAX,
    ensures
        dfs_preorder(outs, start).len() >= 1,
        dfs_preorder(outs, start)[0] == start,
        dfs_preorder(outs, start).no_duplicates(),
        forall|n: usize| dfs_preorder(outs, start).contains(n) <==> reaches(outs, start, n),
{
    let stack = seq![start];
    let seen = Set::<usize>::empty();
    let fuel = out_total(outs) + 1;
    let w = dfs_preorder(outs, start);
    assert(reaches_within(outs, start, start, 0));
    assert forall|y: usize| #[trigger] stack.contains(y) implies reaches(outs, start, y) by {
        assert(stack[0] == start);
    }
    lemma_unvisited_none(outs);
    lemma_dfs_walk(outs, stack, seen, fuel, start);
    assert(stack.contains(start));
    assert(w.contains(start));
    assert(w.len() >= 1);
    assert(w[0] == start);
    assert forall|n: usize| #[trigger] w.contains(n) <==> reaches(outs, start, n) by {
        if reaches(outs, start, n) {
            let k = choose|k: nat| reaches_within(outs, start, n, k);
            lemma_closed_reach(outs, w, start, n, k);
        }
    }
}

/// How many of the nodes below `n` are not in `seen`.
pub open spec fn count_unseen(n: nat, seen: Set<usize>) -> nat
    decreases n,
{
    if n == 0 {
        0
    } else {
        count_unseen((n - 1) as nat, seen) + if seen.contains((n - 1) as usize) {
            0nat
        } else {
            1nat
        }
    }
}

/// Marking an unseen node below `n` seen lowers the count by one.
proof fn lemma_count_unseen_insert(n: nat, seen: Set<usize>, x: usize)
    requires
        x < n <= usize::MAX + 1,
        !seen.contains(x),
    ensures
        count_unseen(n, seen.insert(x)) + 1 == count_unseen(n, seen),
    decreases n,
{
    if x < n - 1 {
        lemma_count_unseen_insert((n - 1) as nat, seen, x);
    } else {
        lemma_count_unseen_agree((n - 1) as nat, seen.insert(x), seen);
    }
}

/// The count depends only on the nodes below `n`.
proof fn lemma_count_unseen_agree(n: nat, s1: Set<usize>, s2: Set<usize>)
    requires
        n <= usize::MAX + 1,
        forall|u: usize| u < n ==> (s1.contains(u) <==> s2.contains(u)),
    ensures
        count_unseen(n, s1) == count_unseen(n, s2),
    decreases n,
{
    if n > 0 {
        assert(s1.contains((n - 1) as usize) <==> s2.contains((n - 1) as usize));
        lemma_count_unseen_agree((n - 1) as nat, s1, s2);
    }
}

/// With nothing seen, every node below `n` counts.
proof fn lemma_count_unseen_none(n: nat)
    ensures
        count_unseen(n, Set::empty()) == n,
    decreases n,
{
    if n > 0 {
        lemma_count_unseen_none((n - 1) as nat);
    }
}

/// What `enqueue_unseen` does: the queue keeps its nodes and gains, each
/// once, those of `ns` not seen; all of `ns` becomes seen.
proof fn lemma_enqueue_unseen(ns: Seq<usize>, queue: Seq<usize>, seen: Set<usize>, n: nat)
    requires
        n <= usize::MAX + 1,
        forall|k: int| 0 <= k < ns.len() ==> ns[k] < n,
        queue.no_duplicates(),
        forall|x: usize| #[trigger] queue.contains(x) ==> seen.contains(x),
    ensures
        ({
            let (q, s) = enqueue_unseen(ns, queue, seen);
            &&& q.no_duplicates()
            &&& forall|x: usize| #[trigger] q.contains(x) ==> s.contains(x)
            &&& forall|x: usize| #[trigger] s.contains(x) <==> (seen.contains(x) || ns.contains(x))
            &&& forall|x: usize|
                #[trigger] q.contains(x) <==> (queue.contains(x) || (ns.contains(x) && !seen.contains(x)))
            &&& q.len() + count_unseen(n, s) == queue.len() + count_unseen(n, seen)
        }),
    decreases ns.len(),
{
    if ns.len() > 0 {
        let init = ns.drop_last();
        lemma_enqueue_unseen(init, queue, seen, n);
        let (q0, s0) = enqueue_unseen(init, queue, seen);
        let x = ns.last();
        assert(ns[ns.len() - 1] == x);
        assert forall|y: usize| #[trigger] ns.contains(y) <==> (init.contains(y) || y == x) by {
            if ns.contains(y) {
                let k = choose|k: int| 0 <= k < ns.len() && ns[k] == y;
                if k < ns.len() - 1 {
                    assert(init[k] == y);
                }
            }
            if init.contains(y) {
                let k = choose|k: int| 0 <= k < init.len() && init[k] == y;
                assert(ns[k] == y);
            }
        }
        if !s0.contains(x) {
            let q1 = q0.push(x);
            assert forall|y: usize| #[trigger] q1.contains(y) <==> (q0.contains(y) || y == x) by {
                if q1.contains(y) {
                    let k = choose|k: int| 0 <= k < q1.len() && q1[k] == y;
                    if k < q0.len() {
                        assert(q0[k] == y);
                    }
                }
                if q0.contains(y) {
                    let k = choose|k: int| 0 <= k < q0.len() && q0[k] == y;
                    assert(q1[k] == y);
                }
                if y == x {
                    assert(q1[q0.len() as int] == y);
                }
            }
            assert forall|a: int, b: int| 0 <= a < q1.len() && 0 <= b < q1.len() && a != b implies q1[a]
                != q1[b] by {
                if a < q0.len() && b < q0.len() {
                } else if a < q0.len() {
                    assert(q0.contains(q1[a]));
                } else {
                    assert(q0.contains(q1[b]));
                }
            }
            assert(x < n);
            lemma_count_unseen_insert(n, s0, x);
        }
    }
}

/// A breadth-first walk lists each node once, nodes queued or not seen
/// before, all reached from `s0` where the queue's nodes are; with enough
/// steps the nodes it lists, with those seen and already expanded, are
/// closed under edges.
proof fn lemma_bfs_walk(outs: Seq<Seq<usize>>, queue: Seq<usize>, seen: Set<usize>, fuel: nat, s0: usize)
    requires
        outs.len() <= usize::MAX,
        forall|a: int, i: int|
            #![trigger outs[a][i]]
            0 <= a < outs.len() && 0 <= i < outs[a].len() ==> outs[a][i] < outs.len(),
        queue.no_duplicates(),
        forall|x: usize| #[trigger] queue.contains(x) ==> seen.contains(x) && reaches(outs, s0, x),
    ensures
        bfs_walk(outs, queue, seen, fuel).no_duplicates(),
        forall|x: usize| #[trigger] bfs_walk(outs, queue, seen, fuel).contains(x) ==> (queue.contains(x)
            || !seen.contains(x)) && reaches(outs, s0, x),
        bfs_ready(outs, queue, seen, fuel) ==> forall|u: usize, i: int|
            #![trigger bfs_walk(outs, queue, seen, fuel).contains(u), outs[u as int][i]]
            #![trigger seen.contains(u), outs[u as int][i]]
            ((seen.contains(u) && !queue.contains(u)) || bfs_walk(outs, queue, seen, fuel).contains(u))
                && u < outs.len() && 0 <= i < outs[u as int].len() ==> (seen.contains(outs[u as int][i])
                && !queue.contains(outs[u as int][i])) || bfs_walk(outs, queue, seen, fuel).contains(
                outs[u as int][i],
            ),
    decreases fuel,
{
    let w = bfs_walk(outs, queue, seen, fuel);
    if fuel == 0 || queue.len() == 0 {
        assert(w.len() == 0);
        if bfs_ready(outs, queue, seen, fuel) {
            assert(queue.len() == 0);
            assert forall|x: usize| !queue.contains(x) && !w.contains(x) by {}
        }
    } else {
        let n = queue[0];
        let rest = queue.drop_first();
        assert(queue.contains(n));
        assert forall|x: usize|
            #![trigger queue.contains(x)]
            #![trigger rest.contains(x)]
            queue.contains(x) <==> (rest.contains(x) || x == n) by {
            if queue.contains(x) {
                let k = choose|k: int| 0 <= k < queue.len() && queue[k] == x;
                if k > 0 {
                    assert(rest[k - 1] == x);
                }
            }
            if rest.contains(x) {
                let k = choose|k: int| 0 <= k < rest.len() && rest[k] == x;
                assert(queue[k + 1] == x);
            }
        }
        assert(!rest.contains(n)) by {
            if rest.contains(n) {
                let k = choose|k: int| 0 <= k < rest.len() && rest[k] == n;
                assert(queue[k + 1] == queue[0]);
            }
        }
        assert forall|a: int, b: int| 0 <= a < rest.len() && 0 <= b < rest.len() && a != b implies rest[a]
            != rest[b] by {
            assert(rest[a] == queue[a + 1] && rest[b] == queue[b + 1]);
        }
        let ns = succs(outs, n);
        assert forall|k: int| 0 <= k < ns.len() implies ns[k] < outs.len() by {
            assert(outs[n as int][k] < outs.len());
        }
        lemma_enqueue_unseen(ns, rest, seen, outs.len());
        let (q, s) = enqueue_unseen(ns, rest, seen);
        assert forall|x: usize| #[trigger] q.contains(x) implies s.contains(x) && reaches(outs, s0, x) by {
            if !rest.contains(x) {
                let i = choose|i: int| 0 <= i < ns.len() && ns[i] == x;
                let k = choose|k: nat| reaches_within(outs, s0, n, k);
                lemma_reaches_step(outs, s0, n, i, k);
                assert(reaches_within(outs, s0, x, k + 1));
            }
        }
        lemma_bfs_walk(outs, q, s, (fuel - 1) as nat, s0);
        let w2 = bfs_walk(outs, q, s, (fuel - 1) as nat);
        assert(w == seq![n] + w2);
        assert forall|x: usize| #[trigger] w.contains(x) <==> (x == n || w2.contains(x)) by {
            if w.contains(x) {
                let k = choose|k: int| 0 <= k < w.len() && w[k] == x;
                if k > 0 {
                    assert(w2[k - 1] == x);
                }
            }
            if w2.contains(x) {
                let k = choose|k: int| 0 <= k < w2.len() && w2[k] == x;
                assert(w[k + 1] == x);
            }
            if x == n {
                assert(w[0] == x);
            }
        }
        assert(!q.contains(n));
        assert(!w2.contains(n));
        assert forall|a: int, b: int| 0 <= a < w.len() && 0 <= b < w.len() && a != b implies w[a]
            != w[b] by {
            if a > 0 && b > 0 {
                assert(w[a] == w2[a - 1] && w[b] == w2[b - 1]);
            } else if a == 0 {
                assert(w2.contains(w[b]));
            } else {
                assert(w2.contains(w[a]));
            }
        }
        if bfs_ready(outs, queue, seen, fuel) {
            assert forall|u: usize, i: int|
                #![trigger s.contains(u), outs[u as int][i]]
                s.contains(u) && !q.contains(u) && u < outs.len() && 0 <= i < outs[u as int].len() implies s.contains(
                    outs[u as int][i],
                ) by {
                let v = outs[u as int][i];
                if u == n {
                    assert(ns[i] == v);
                    assert(ns.contains(v));
                } else {
                    assert(seen.contains(u));
                    assert(!queue.contains(u));
                    assert(seen.contains(v));
                }
            }
            assert(bfs_ready(outs, q, s, (fuel - 1) as nat));
            assert forall|u: usize, i: int|
                #![trigger w.contains(u), outs[u as int][i]]
                #![trigger seen.contains(u), outs[u as int][i]]
                ((seen.contains(u) && !queue.contains(u)) || w.contains(u)) && u < outs.len() && 0 <= i
                    < outs[u as int].len() implies (seen.contains(outs[u as int][i]) && !queue.contains(
                    outs[u as int][i],
                )) || w.contains(outs[u as int][i]) by {
                let v = outs[u as int][i];
                assert((s.contains(u) && !q.contains(u)) || w2.contains(u));
                assert((s.contains(v) && !q.contains(v)) || w2.contains(v));
                if s.contains(v) && !q.contains(v) && !w2.contains(v) && v != n {
                    assert(seen.contains(v));
                    assert(!rest.contains(v));
                }
            }
        }
    }
}

/// The walk has steps enough for what is left, and every successor of a
/// node seen and taken off the queue has been seen.
pub open spec fn bfs_ready(outs: Seq<Seq<usize>>, queue: Seq<usize>, seen: Set<usize>, fuel: nat) -> bool {
    &&& fuel >= queue.len() + count_unseen(outs.len(), seen)
    &&& forall|u: usize, i: int|
        #![trigger seen.contains(u), outs[u as int][i]]
        seen.contains(u) && !queue.contains(u) && u < outs.len() && 0 <= i < outs[u as int].len()
            ==> seen.contains(outs[u as int][i])
}

/// The breadth-first order from `start` starts there, lists each node once,
/// and lists exactly the nodes reachable from `start`.
proof fn lemma_bfs_order(outs: Seq<Seq<usize>>, start: usize)
    requires
        start < outs.len() <= usize::MAX,
        forall|a: int, i: int|
            #![trigger outs[a][i]]
            0 <= a < outs.len() && 0 <= i < outs[a].len() ==> outs[a][i] < outs.len(),
    ensures
        bfs_order(outs, start).len() >= 1,
        bfs_order(outs, start)[0] == start,
        bfs_order(outs, start).no_duplicates(),
        forall|n: usize| bfs_order(outs, start).contains(n) <==> reaches(outs, start, n),
{
    let queue = seq![start];
    let seen = set![start];
    let w = bfs_order(outs, start);
    assert(reaches_within(outs, start, start, 0));
    assert forall|y: usize| #[trigger] queue.contains(y) implies seen.contains(y) && reaches(outs, start, y) by {
        assert(queue[0] == start);
    }
    lemma_count_unseen_none(outs.len());
    lemma_count_unseen_insert(outs.len(), Set::empty(), start);
    assert(Set::<usize>::empty().insert(start) == seen);
    lemma_bfs_walk(outs, queue, seen, outs.len(), start);
    assert(w[0] == start);
    assert(w.contains(start));
    assert forall|u: usize, i: int|
        #![trigger w.contains(u), outs[u as int][i]]
        w.contains(u) && u < outs.len() && 0 <= i < outs[u as int].len() implies w.contains(outs[u as int][i]) by {
        assert(queue.contains(start));
        if seen.contains(outs[u as int][i]) {
            assert(outs[u as int][i] == start);
        }
    }
    assert forall|n: usize| #[trigger] w.contains(n) <==> reaches(outs, start, n) by {
        if reaches(outs, start, n) {
            let k = choose|k: nat| reaches_within(outs, start, n, k);
            lemma_closed_reach(outs, w, start, n, k);
        }
    }
}

/// `Graph::new`: a graph with no nodes and no edges.
#[verifier::external_body]
pub(crate) fn graph_new() -> (g: DiGraph<usize, ()>)
    ensures
        graph_view(g) == (
            Seq::<usize>::empty(),
            Seq::<Seq<usize>>::empty(),
            Seq::<Seq<usize>>::empty(),
        ),
        graph_edge_count(g) == 0,
{
    DiGraph::new()
}

/// `Graph::node_count`: how many nodes the graph has.
#[verifier::external_body]
pub(crate) fn graph_node_count(g: &DiGraph<usize, ()>) -> (n: usize)
    ensures
        n == weights(*g).len(),
{
    g.node_count()
}

/// `Graph::edge_count`: how many edges the graph has.
#[verifier::external_body]
pub(crate) fn graph_edges(g: &DiGraph<usize, ()>) -> (n: usize)
    ensures
        n == graph_edge_count(*g),
{
    g.edge_count()
}

/// `Graph::add_node`: the new node gets the next index and no edges. It
/// panics when that index would be `u32::MAX`, which `requires` rules out.
#[verifier::external_body]
pub(crate) fn graph_add_node(g: &mut DiGraph<usize, ()>, weight: usize) -> (i: usize)
    requires
        weights(*old(g)).len() < u32::MAX,
    ensures
        i == weights(*old(g)).len(),
        graph_view(*final(g)) == (
            weights(*old(g)).push(weight),
            outs(*old(g)).push(Seq::<usize>::empty()),
            ins(*old(g)).push(Seq::<usize>::empty()),
        ),
        graph_edge_count(*final(g)) == graph_edge_count(*old(g)),
{
    g.add_node(weight).index()
}

/// `Graph::add_edge` from `a` to `b`: `b` goes first in `a`'s outgoing
/// list and `a` first in `b`'s incoming list. It panics on a node that does
/// not exist and at `u32::MAX` edges, which `requires` rules out.
#[verifier::external_body]
pub(crate) fn graph_add_edge(g: &mut DiGraph<usize, ()>, a: usize, b: usize)
    requires
        a < weights(*old(g)).len(),
        b < weights(*old(g)).len(),
        graph_edge_count(*old(g)) < u32::MAX,
    ensures
        weights(*final(g)) == weights(*old(g)),
        outs(*final(g)) == outs(*old(g)).update(a as int, seq![b] + outs(*old(g))[a as int]),
        ins(*final(g)) == ins(*old(g)).update(b as int, seq![a] + ins(*old(g))[b as int]),
        graph_edge_count(*final(g)) == graph_edge_count(*old(g)) + 1,
{
    g.add_edge(NodeIndex::new(a), NodeIndex::new(b), ());
}

/// `Graph::neighbors_directed`: the targets of `a`'s outgoing edges, or the
/// sources of its incoming ones, most recently added first.
#[verifier::external_body]
pub(crate) fn graph_neighbors(g: &DiGraph<usize, ()>, a: usize, outgoing: bool) -> (r: Vec<
    usize,
>)
    requires
        a < weights(*g).len(),
    ensures
        r@ == (if outgoing {
            outs(*g)[a as int]
        } else {
            ins(*g)[a as int]
        }),
{
    let dir = if outgoing {
        Direction::Outgoing
    } else {
        Direction::Incoming
    };
    g.neighbors_directed(NodeIndex::new(a), dir).map(|n| n.index()).collect()
}

/// `Graph::node_weight`: the weight of node `a`, if it exists.
#[verifier::external_body]
pub(crate) fn graph_node_weight(g: &DiGraph<usize, ()>, a: usize) -> (r: Option<usize>)
    requires
        a < u32::MAX,
    ensures
        r == (if a < weights(*g).len() {
            Some(weights(*g)[a as int])
        } else {
            None
        }),
{
    g.node_weight(NodeIndex::new(a)).copied()
}

/// `Graph::remove_node`: when `a` exists, its edges go, the last node takes
/// its index, and its weight is returned; otherwise nothing changes.
#[verifier::external_body]
pub(crate) fn graph_remove_node(g: &mut DiGraph<usize, ()>, a: usize) -> (r: Option<usize>)
    requires
        graph_wf(*old(g)),
        a < u32::MAX,
    ensures
        a >= weights(*old(g)).len() ==> r is None && *final(g) == *old(g),
        a < weights(*old(g)).len() ==> ({
            let n = (weights(*old(g)).len() - 1) as usize;
            let w = weights(*old(g));
            &&& r == Some(w[a as int])
            &&& weights(*final(g)) == (if a == n {
                w.drop_last()
            } else {
                w.update(a as int, w[n as int]).drop_last()
            })
            &&& outs(*final(g)) == lists_without(outs(*old(g)), a, n)
            &&& ins(*final(g)) == lists_without(ins(*old(g)), a, n)
            &&& graph_edge_count(*final(g)) <= graph_edge_count(*old(g))
        }),
{
    g.remove_node(NodeIndex::new(a))
}

/// `Dfs::new` from `start`, walked to the end: the nodes in the order the
/// search first discovers them, `dfs_preorder`.
#[verifier::external_body]
fn dfs_walk_of(g: &DiGraph<usize, ()>, start: usize) -> (r: Vec<usize>)
    requires
        start < weights(*g).len(),
    ensures
        r@ == dfs_preorder(outs(*g), start),
{
    Dfs::new(g, NodeIndex::new(start)).iter(g).map(|n| n.index()).collect()
}

/// The depth-first order from `start`: it starts at `start`, lists each node
/// once, and lists exactly the nodes reachable from `start`.
pub(crate) fn graph_dfs(g: &DiGraph<usize, ()>, start: usize) -> (r: Vec<usize>)
    requires
        start < weights(*g).len(),
        graph_wf(*g),
    ensures
        r@ == dfs_preorder(outs(*g), start),
        r@.len() >= 1,
        r@[0] == start,
        r@.no_duplicates(),
        forall|n: usize| r@.contains(n) <==> reaches(outs(*g), start, n),
{
    let r = dfs_walk_of(g, start);
    proof {
        lemma_dfs_preorder(outs(*g), start);
    }
    r
}

/// `Bfs::new` from `start`, walked to the end: the nodes in breadth-first
/// order, `bfs_order`.
#[verifier::external_body]
fn bfs_walk_of(g: &DiGraph<usize, ()>, start: usize) -> (r: Vec<usize>)
    requires
        start < weights(*g).len(),
    ensures
        r@ == bfs_order(outs(*g), start),
{
    Bfs::new(g, NodeIndex::new(start)).iter(g).map(|n| n.index()).collect()
}

/// The breadth-first order from `start`: it starts at `start`, lists each
/// node once, and lists exactly the nodes reachable from `start`.
pub(crate) fn graph_bfs(g: &DiGraph<usize, ()>, start: usize) -> (r: Vec<usize>)
    requires
        start < weights(*g).len(),
        graph_wf(*g),
    ensures
        r@ == bfs_order(outs(*g), start),
        r@.len() >= 1,
        r@[0] == start,
        r@.no_duplicates(),
        forall|n: usize| r@.contains(n) <==> reaches(outs(*g), start, n),
{
    let r = bfs_walk_of(g, start);
    proof {
        lemma_bfs_order(outs(*g), start);
    }
    r
}

} // verus!
