//! Forests of items kept in a `petgraph` graph: every item is a node, with
//! an edge from each parent to each of its children.
//!
//! The graph's node weights are the positions of the items in a list kept
//! beside it, so that any item type fits.

use vstd::prelude::*;
use petgraph::graph::DiGraph;
use crate::graph::{
    graph_add_edge, lemma_without_node_bounded, other_than, graph_add_node, graph_bfs, graph_edge_count, graph_neighbors,
    graph_node_weight, graph_new, graph_remove_node, graph_wf, lists_without, weights, outs,
    ins, bfs_order,
};
use crate::pathing::pack::MarkerPath;

verus! {

/// Trees of items: the roots, and the graph joining parents to children.
pub struct Trees<N> {
    pub roots: Vec<usize>,
    graph: DiGraph<usize, ()>,
    items: Vec<N>,
}

/// The first parent of node `a` (the most recently joined), if any.
pub open spec fn first_parent(parents: Seq<Seq<usize>>, a: usize) -> Option<usize> {
    if a < parents.len() && parents[a as int].len() > 0 {
        Some(parents[a as int][0])
    } else {
        None
    }
}

/// Following first parents up from `a` stops within `fuel` steps.
pub open spec fn climb_ends(parents: Seq<Seq<usize>>, a: usize, fuel: nat) -> bool
    decreases fuel,
{
    match first_parent(parents, a) {
        None => true,
        Some(p) => fuel > 0 && climb_ends(parents, p, (fuel - 1) as nat),
    }
}

/// `a` and the nodes met following first parents up from it, at most
/// `fuel` of them.
pub open spec fn climb(parents: Seq<Seq<usize>>, a: usize, fuel: nat) -> Seq<usize>
    decreases fuel,
{
    match first_parent(parents, a) {
        Some(p) => if fuel > 0 {
            seq![a] + climb(parents, p, (fuel - 1) as nat)
        } else {
            seq![a]
        },
        None => seq![a],
    }
}

/// Each step of `path` goes from a node to one of its children.
pub open spec fn follows(children: Seq<Seq<usize>>, path: Seq<usize>) -> bool
    decreases path.len(),
{
    if path.len() <= 1 {
        true
    } else {
        let a = path[path.len() - 2];
        &&& follows(children, path.drop_last())
        &&& a < children.len()
        &&& children[a as int].contains(path.last())
    }
}

/// The graph after edges from `a` to each of `targets`, in order.
pub open spec fn with_edges_from(
    children: Seq<Seq<usize>>,
    parents: Seq<Seq<usize>>,
    a: usize,
    targets: Seq<usize>,
) -> (Seq<Seq<usize>>, Seq<Seq<usize>>)
    decreases targets.len(),
{
    if targets.len() == 0 {
        (children, parents)
    } else {
        let (c, p) = with_edges_from(children, parents, a, targets.drop_last());
        let t = targets.last();
        (c.update(a as int, seq![t] + c[a as int]), p.update(t as int, seq![a] + p[t as int]))
    }
}

impl<N> Trees<N> {
    /// The roots, in the order they were added.
    pub closed spec fn roots_view(&self) -> Seq<usize> {
        self.roots@
    }

    /// The weight (item position) of each node.
    pub closed spec fn nodes(&self) -> Seq<usize> {
        weights(self.graph)
    }

    /// The children of each node, the most recently joined first.
    pub closed spec fn children_view(&self) -> Seq<Seq<usize>> {
        outs(self.graph)
    }

    /// The parents of each node, the most recently joined first.
    pub closed spec fn parents_view(&self) -> Seq<Seq<usize>> {
        ins(self.graph)
    }

    /// How many edges the graph has.
    pub closed spec fn edge_count(&self) -> nat {
        graph_edge_count(self.graph)
    }

    /// The items, by position.
    pub closed spec fn items_view(&self) -> Seq<N> {
        self.items@
    }

    /// The graph is well formed.
    pub closed spec fn graph_ok(&self) -> bool {
        graph_wf(self.graph)
    }

    /// The item of node `a`.
    pub open spec fn item_of(&self, a: int) -> N {
        self.items_view()[self.nodes()[a] as int]
    }

    /// The graph is well formed and every node's item exists.
    pub open spec fn wf(&self) -> bool {
        &&& self.graph_ok()
        &&& forall|a: int|
            0 <= a < self.nodes().len() ==> #[trigger] self.nodes()[a] < self.items_view().len()
    }

    /// No items.
    pub fn new() -> (t: Trees<N>)
        ensures
            t.wf(),
            t.roots_view().len() == 0,
            t.nodes().len() == 0,
            t.items_view().len() == 0,
            t.edge_count() == 0,
    {
        Trees { roots: Vec::new(), graph: graph_new(), items: Vec::new() }
    }

    /// The item of node `idx`, if there is such a node.
    pub fn get(&self, idx: usize) -> (r: Option<&N>)
        requires
            self.wf(),
            idx < u32::MAX,
        ensures
            idx < self.nodes().len() ==> (r matches Some(x) && *x == self.item_of(idx as int)),
            idx >= self.nodes().len() ==> r is None,
    {
        match graph_node_weight(&self.graph, idx) {
            Some(w) => Some(&self.items[w]),
            None => None,
        }
    }

    /// `idx` and the nodes above it, each time following the most recently
    /// joined parent, up to a node without one.
    pub fn path_to(&self, idx: usize) -> (r: Vec<usize>)
        requires
            self.wf(),
            idx < u32::MAX,
            exists|fuel: nat| climb_ends(self.parents_view(), idx, fuel),
        ensures
            forall|fuel: nat|
                climb_ends(self.parents_view(), idx, fuel) ==> r@ == climb(
                    self.parents_view(),
                    idx,
                    fuel,
                ),
    {
        let ghost ps = self.parents_view();
        let ghost fuel = choose|fuel: nat| climb_ends(ps, idx, fuel);
        let mut path: Vec<usize> = Vec::new();
        path.push(idx);
        let mut current = self.first_parent_of(idx);
        let ghost mut f: nat = fuel;
        let ghost mut at: usize = idx;
        proof {
            lemma_climb_any_fuel(ps, idx);
        }
        while current.is_some()
            invariant
                self.wf(),
                ps == self.parents_view(),
                climb_ends(ps, at, f),
                current == first_parent(ps, at),
                forall|g: nat|
                    climb_ends(ps, idx, g) ==> climb(ps, idx, g) == path@.drop_last() + climb(
                        ps,
                        at,
                        f,
                    ),
                path@.len() >= 1,
                path@.last() == at,
                forall|g: nat, h: nat|
                    climb_ends(ps, at, g) && climb_ends(ps, at, h) ==> climb(ps, at, g) == climb(
                        ps,
                        at,
                        h,
                    ),
            decreases f,
        {
            let p = current.unwrap();
            proof {
                assert(climb(ps, at, f) == seq![at] + climb(ps, p, (f - 1) as nat));
                lemma_climb_any_fuel(ps, p);
                assert forall|g: nat| climb_ends(ps, idx, g) implies climb(ps, idx, g) == path@
                    + climb(ps, p, (f - 1) as nat) by {
                    assert(path@.drop_last().push(at) =~= path@);
                    assert(path@.drop_last() + (seq![at] + climb(ps, p, (f - 1) as nat)) =~= path@
                        + climb(ps, p, (f - 1) as nat));
                }
            }
            let ghost before = path@;
            path.push(p);
            proof {
                assert(path@.drop_last() =~= before);
                at = p;
                f = (f - 1) as nat;
            }
            current = self.first_parent_of(p);
        }
        proof {
            assert(climb(ps, at, f) == seq![at]);
            assert forall|g: nat| climb_ends(ps, idx, g) implies climb(ps, idx, g) == path@ by {
                assert(path@.drop_last() + seq![at] =~= path@);
            }
        }
        path
    }

    /// The first parent of `a`, if it has one.
    fn first_parent_of(&self, a: usize) -> (r: Option<usize>)
        requires
            self.wf(),
            a < u32::MAX,
        ensures
            r == first_parent(self.parents_view(), a),
    {
        match graph_node_weight(&self.graph, a) {
            None => None,
            Some(_) => {
                let ps = graph_neighbors(&self.graph, a, false);
                if ps.len() > 0 {
                    proof {
                        assert(ps@[0] < self.nodes().len());
                    }
                    Some(ps[0])
                } else {
                    None
                }
            },
        }
    }

    /// Walks down from the first node of `path` through each next one,
    /// which must be a child of the one before; gives the last node and its
    /// item, or `None` when a step is not to a child or there is no node.
    pub fn find(&self, path: &[usize]) -> (r: Option<(usize, &N)>)
        requires
            self.wf(),
            forall|i: int| 0 <= i < path@.len() ==> path@[i] < u32::MAX,
        ensures
            ({
                let ok = path@.len() > 0 && follows(self.children_view(), path@) && path@.last()
                    < self.nodes().len();
                &&& ok ==> (r matches Some((n, x)) && n == path@.last() && *x == self.item_of(
                    n as int,
                ))
                &&& !ok ==> r is None
            }),
    {
        if path.len() == 0 {
            return None;
        }
        let mut current = path[0];
        let mut i: usize = 1;
        while i < path.len()
            invariant
                self.wf(),
                forall|k: int| 0 <= k < path@.len() ==> path@[k] < u32::MAX,
                1 <= i <= path@.len(),
                current == path@[i - 1],
                follows(self.children_view(), path@.take(i as int)),
            decreases path@.len() - i,
        {
            let next = path[i];
            let found = match graph_node_weight(&self.graph, current) {
                None => false,
                Some(_) => {
                    let children = graph_neighbors(&self.graph, current, true);
                    let c = contains_node(&children, next);
                    assert(c ==> current < self.children_view().len()
                        && self.children_view()[current as int].contains(next));
                    c
                },
            };
            if !found {
                proof {
                    assert(!follows(self.children_view(), path@)) by {
                        let t = path@.take(i + 1);
                        assert(t.drop_last() =~= path@.take(i as int));
                        assert(t[t.len() - 2] == current);
                        assert(t.last() == next);
                        if follows(self.children_view(), path@) {
                            lemma_follows_prefix(self.children_view(), path@, i + 1);
                        }
                    }
                }
                return None;
            }
            proof {
                lemma_follows_step(self.children_view(), path@, i as int);
            }
            current = next;
            i = i + 1;
        }
        assert(path@.take(path@.len() as int) =~= path@);
        match graph_node_weight(&self.graph, current) {
            Some(w) => Some((current, &self.items[w])),
            None => None,
        }
    }

    /// `find`, giving the item to change: the path is followed as `find`
    /// does, and a change made through the item changes that item alone.
    pub fn find_mut(&mut self, path: &[usize]) -> (r: Option<(usize, &mut N)>)
        requires
            old(self).wf(),
            forall|i: int| 0 <= i < path@.len() ==> path@[i] < u32::MAX,
        ensures
            final(self).wf(),
            ({
                let ok = path@.len() > 0 && follows(old(self).children_view(), path@) && path@.last()
                    < old(self).nodes().len();
                &&& ok ==> (r matches Some((n, x)) && n == path@.last() && *x == old(self).item_of(
                    n as int,
                ) && final(self).roots_view() == old(self).roots_view() && final(self).nodes()
                    == old(self).nodes() && final(self).children_view() == old(self).children_view()
                    && final(self).parents_view() == old(self).parents_view()
                    && final(self).items_view() == old(self).items_view().update(
                    old(self).nodes()[n as int] as int,
                    *final(x),
                ))
                &&& !ok ==> r is None && *final(self) == *old(self)
            }),
    {
        let n = match self.find(path) {
            Some((n, _)) => n,
            None => {
                return None;
            },
        };
        match graph_node_weight(&self.graph, n) {
            Some(w) => Some((n, &mut self.items[w])),
            None => None,
        }
    }

    /// Gives `a` the children of `b` as well, drops `b` from the roots, and
    /// removes `b` from the graph; the last node then takes `b`'s index.
    pub fn merge(&mut self, a: usize, b: usize)
        requires
            old(self).wf(),
            a < old(self).nodes().len(),
            b < old(self).nodes().len(),
            old(self).edge_count() + old(self).children_view()[b as int].len() < u32::MAX,
        ensures
            final(self).wf(),
            final(self).items_view() == old(self).items_view(),
            final(self).roots_view() == old(self).roots_view().filter(other_than(b)),
            ({
                let n = (old(self).nodes().len() - 1) as usize;
                let w = old(self).nodes();
                let mid = with_edges_from(
                    old(self).children_view(),
                    old(self).parents_view(),
                    a,
                    old(self).children_view()[b as int],
                );
                &&& final(self).nodes() == (if b == n {
                    w.drop_last()
                } else {
                    w.update(b as int, w[n as int]).drop_last()
                })
                &&& final(self).children_view() == lists_without(mid.0, b, n)
                &&& final(self).parents_view() == lists_without(mid.1, b, n)
            }),
    {
        let targets = graph_neighbors(&self.graph, b, true);
        let ghost c0 = self.children_view();
        let ghost p0 = self.parents_view();
        let ghost e0 = self.edge_count();
        let mut i: usize = 0;
        while i < targets.len()
            invariant
                i <= targets@.len(),
                targets@ == c0[b as int],
                a < self.nodes().len(),
                b < self.nodes().len(),
                self.nodes() == old(self).nodes(),
                self.items_view() == old(self).items_view(),
                self.roots_view() == old(self).roots_view(),
                self.wf(),
                self.edge_count() == e0 + i,
                e0 + targets@.len() < u32::MAX,
                (self.children_view(), self.parents_view()) == with_edges_from(
                    c0,
                    p0,
                    a,
                    targets@.take(i as int),
                ),
                graph_wf(old(self).graph),
                c0 == old(self).children_view(),
                p0 == old(self).parents_view(),
            decreases targets@.len() - i,
        {
            let t = targets[i];
            proof {
                assert(t < self.nodes().len());
                assert(targets@.take(i + 1).drop_last() =~= targets@.take(i as int));
                assert(targets@.take(i + 1).last() == t);
            }
            graph_add_edge(&mut self.graph, a, t);
            i = i + 1;
        }
        assert(targets@.take(targets@.len() as int) =~= targets@);
        let mut kept: Vec<usize> = Vec::new();
        let mut j: usize = 0;
        while j < self.roots.len()
            invariant
                j <= self.roots_view().len(),
                self.roots_view() == old(self).roots_view(),
                kept@ == self.roots_view().take(j as int).filter(other_than(b)),
            decreases self.roots_view().len() - j,
        {
            let x = self.roots[j];
            proof {
                assert(self.roots_view().take(j + 1).drop_last() =~= self.roots_view().take(j as int));
            }
            if x != b {
                kept.push(x);
            }
            proof {
                reveal(Seq::filter);
                assert(kept@ =~= self.roots_view().take(j + 1).filter(other_than(b)));
            }
            j = j + 1;
        }
        assert(self.roots_view().take(self.roots_view().len() as int) =~= self.roots_view());
        self.roots = kept;
        let ghost mid = self.graph;
        graph_remove_node(&mut self.graph, b);
        proof {
            let n = (old(self).nodes().len() - 1) as usize;
            lemma_removal_keeps_wf(mid, self.graph, b);
            assert forall|x: int| 0 <= x < self.nodes().len() implies #[trigger] self.nodes()[x]
                < self.items_view().len() by {
                if x == b && b != n {
                    assert(self.nodes()[x] == old(self).nodes()[n as int]);
                } else {
                    assert(self.nodes()[x] == old(self).nodes()[x]);
                }
            }
        }
    }

    /// The children of `start` with their items, the most recently joined
    /// first.
    pub fn children(&self, start: usize) -> (r: Vec<(usize, &N)>)
        requires
            self.wf(),
            start < u32::MAX,
        ensures
            start >= self.nodes().len() ==> r@.len() == 0,
            start < self.nodes().len() ==> {
                let cs = self.children_view()[start as int];
                &&& r@.len() == cs.len()
                &&& forall|i: int|
                    0 <= i < r@.len() ==> r@[i].0 == cs[i] && *r@[i].1 == self.item_of(
                        cs[i] as int,
                    )
            },
    {
        match graph_node_weight(&self.graph, start) {
            None => Vec::new(),
            Some(_) => {
                let ids = graph_neighbors(&self.graph, start, true);
                self.with_items(&ids)
            },
        }
    }

    /// Nodes of the graph with their items.
    fn with_items(&self, ids: &Vec<usize>) -> (r: Vec<(usize, &N)>)
        requires
            self.wf(),
            forall|i: int| 0 <= i < ids@.len() ==> ids@[i] < self.nodes().len(),
        ensures
            r@.len() == ids@.len(),
            forall|i: int|
                0 <= i < r@.len() ==> r@[i].0 == ids@[i] && *r@[i].1 == self.item_of(
                    ids@[i] as int,
                ),
    {
        let mut out: Vec<(usize, &N)> = Vec::new();
        let mut i: usize = 0;
        while i < ids.len()
            invariant
                self.wf(),
                forall|k: int| 0 <= k < ids@.len() ==> ids@[k] < self.nodes().len(),
                i <= ids@.len(),
                out@.len() == i,
                forall|k: int|
                    0 <= k < i ==> out@[k].0 == ids@[k] && *out@[k].1 == self.item_of(
                        ids@[k] as int,
                    ),
            decreases ids@.len() - i,
        {
            let id = ids[i];
            let w = match graph_node_weight(&self.graph, id) {
                Some(w) => w,
                None => {
                    assert(false);
                    0
                },
            };
            out.push((id, &self.items[w]));
            i = i + 1;
        }
        out
    }

    /// `start` and every node reachable from it, with their items, in
    /// breadth-first order.
    pub fn recurse(&self, start: usize) -> (r: Vec<(usize, &N)>)
        requires
            self.wf(),
            start < self.nodes().len(),
        ensures
            ({
                let order = bfs_order(self.children_view(), start);
                &&& r@.len() == order.len()
                &&& forall|i: int|
                    0 <= i < r@.len() ==> r@[i].0 == order[i] && *r@[i].1 == self.item_of(
                        order[i] as int,
                    )
            }),
    {
        let order = graph_bfs(&self.graph, start);
        proof {
            assert forall|i: int| 0 <= i < order@.len() implies order@[i] < self.nodes().len() by {
                assert(order@.contains(order@[i]));
                lemma_reached_in_graph(self.children_view(), start, order@[i], self.nodes().len());
            }
        }
        self.with_items(&order)
    }
}

/// Removing a node from a well-formed graph leaves it well formed.
proof fn lemma_removal_keeps_wf(g0: DiGraph<usize, ()>, g1: DiGraph<usize, ()>, b: usize)
    requires
        graph_wf(g0),
        b < weights(g0).len(),
        ({
            let n = (weights(g0).len() - 1) as usize;
            &&& weights(g1).len() == n
            &&& outs(g1) == lists_without(outs(g0), b, n)
            &&& ins(g1) == lists_without(ins(g0), b, n)
        }),
    ensures
        graph_wf(g1),
{
    let n = (weights(g0).len() - 1) as usize;
    assert forall|a: int, i: int| 0 <= a < n && 0 <= i < outs(g1)[a].len() implies #[trigger] outs(
        g1,
    )[a][i] < n by {
        let src = if a == b {
            n as int
        } else {
            a
        };
        assert forall|j: int| 0 <= j < outs(g0)[src].len() implies outs(g0)[src][j] <= n by {
            assert(outs(g0)[src][j] < weights(g0).len());
        }
        lemma_without_node_bounded(outs(g0)[src], b, n);
    }
    assert forall|a: int, i: int| 0 <= a < n && 0 <= i < ins(g1)[a].len() implies #[trigger] ins(
        g1,
    )[a][i] < n by {
        let src = if a == b {
            n as int
        } else {
            a
        };
        assert forall|j: int| 0 <= j < ins(g0)[src].len() implies ins(g0)[src][j] <= n by {
            assert(ins(g0)[src][j] < weights(g0).len());
        }
        lemma_without_node_bounded(ins(g0)[src], b, n);
    }
}

/// A path that follows children and takes one more step to a child still
/// follows children.
proof fn lemma_follows_step(children: Seq<Seq<usize>>, path: Seq<usize>, i: int)
    requires
        1 <= i < path.len(),
        follows(children, path.take(i)),
        path[i - 1] < children.len(),
        children[path[i - 1] as int].contains(path[i]),
    ensures
        follows(children, path.take(i + 1)),
{
    assert(path.take(i + 1).drop_last() =~= path.take(i));
}

/// Every prefix of a path that follows children follows them too.
proof fn lemma_follows_prefix(children: Seq<Seq<usize>>, path: Seq<usize>, i: int)
    requires
        0 <= i <= path.len(),
        follows(children, path),
    ensures
        follows(children, path.take(i)),
    decreases path.len() - i,
{
    if i < path.len() {
        assert(path.drop_last().take(i) =~= path.take(i));
        lemma_follows_prefix(children, path.drop_last(), i);
    } else {
        assert(path.take(i) =~= path);
    }
}

/// Whether `x` is among the nodes.
fn contains_node(ids: &Vec<usize>, x: usize) -> (r: bool)
    ensures
        r == ids@.contains(x),
{
    let mut i: usize = 0;
    while i < ids.len()
        invariant
            i <= ids@.len(),
            forall|k: int| 0 <= k < i ==> ids@[k] != x,
        decreases ids@.len() - i,
    {
        if ids[i] == x {
            return true;
        }
        i = i + 1;
    }
    false
}

/// Once the climb from `a` ends, more fuel gives the same climb.
proof fn lemma_climb_any_fuel(ps: Seq<Seq<usize>>, a: usize)
    ensures
        forall|g: nat, h: nat|
            climb_ends(ps, a, g) && climb_ends(ps, a, h) ==> climb(ps, a, g) == climb(ps, a, h),
{
    assert forall|g: nat, h: nat| climb_ends(ps, a, g) && climb_ends(ps, a, h) implies climb(
        ps,
        a,
        g,
    ) == climb(ps, a, h) by {
        lemma_climb_fuel(ps, a, g, h);
    }
}

proof fn lemma_climb_fuel(ps: Seq<Seq<usize>>, a: usize, g: nat, h: nat)
    requires
        climb_ends(ps, a, g),
        climb_ends(ps, a, h),
    ensures
        climb(ps, a, g) == climb(ps, a, h),
    decreases g,
{
    match first_parent(ps, a) {
        Some(p) => {
            lemma_climb_fuel(ps, p, (g - 1) as nat, (h - 1) as nat);
        },
        None => {},
    }
}

/// Every node reachable in a well-formed graph is one of its nodes.
proof fn lemma_reached_in_graph(cs: Seq<Seq<usize>>, a: usize, b: usize, n: nat)
    requires
        a < n,
        cs.len() == n,
        forall|x: int, i: int| #![trigger cs[x][i]] 0 <= x < n && 0 <= i < cs[x].len() ==> cs[x][i] < n,
        crate::graph::reaches(cs, a, b),
    ensures
        b < n,
{
    let steps = choose|steps: nat| crate::graph::reaches_within(cs, a, b, steps);
    lemma_reached_within(cs, a, b, n, steps);
}

proof fn lemma_reached_within(cs: Seq<Seq<usize>>, a: usize, b: usize, n: nat, steps: nat)
    requires
        a < n,
        cs.len() == n,
        forall|x: int, i: int| #![trigger cs[x][i]] 0 <= x < n && 0 <= i < cs[x].len() ==> cs[x][i] < n,
        crate::graph::reaches_within(cs, a, b, steps),
    ensures
        b < n,
    decreases steps,
{
    if a != b {
        let i = choose|i: int|
            0 <= i < cs[a as int].len() && crate::graph::reaches_within(
                cs,
                #[trigger] cs[a as int][i],
                b,
                (steps - 1) as nat,
            );
        lemma_reached_within(cs, cs[a as int][i], b, n, (steps - 1) as nat);
    }
}

/// A path stays followable when children are only added.
proof fn lemma_follows_grow(c0: Seq<Seq<usize>>, c1: Seq<Seq<usize>>, path: Seq<usize>)
    requires
        c0.len() <= c1.len(),
        forall|a: int, x: usize| 0 <= a < c0.len() && c0[a].contains(x) ==> c1[a].contains(x),
        follows(c0, path),
    ensures
        follows(c1, path),
    decreases path.len(),
{
    if path.len() > 1 {
        lemma_follows_grow(c0, c1, path.drop_last());
    }
}

/// The current path of a builder leads, from its first node down through
/// children, to the current parent: following it finds the item inserted last
/// under it.
pub proof fn law_builder_path_is_followed<N>(b: TreeBuilder<N>)
    requires
        b.wf(),
    ensures
        follows(b.trees_view().children_view(), b.parents_view()),
        b.parents_view().len() > 0 ==> b.parents_view().last() < b.trees_view().nodes().len(),
{
}

/// Every node has at most one parent, added before it.
pub open spec fn parents_before(parents: Seq<Seq<usize>>) -> bool {
    forall|b: int|
        #![trigger parents[b]]
        0 <= b < parents.len() ==> parents[b].len() <= 1 && (parents[b].len() == 1 ==> parents[b][0]
            < b)
}

/// Climbing from `a` ends within `fuel` steps when `fuel` is at least `a`.
proof fn lemma_climb_ends(ps: Seq<Seq<usize>>, a: usize, fuel: nat)
    requires
        parents_before(ps),
        a <= fuel,
    ensures
        climb_ends(ps, a, fuel),
    decreases fuel,
{
    match first_parent(ps, a) {
        Some(p) => {
            assert(ps[a as int].len() == 1);
            lemma_climb_ends(ps, p, (fuel - 1) as nat);
        },
        None => {},
    }
}

/// In trees made by a `TreeBuilder`, climbing from any node by first
/// parents ends: `path_to` can be called on every node.
pub proof fn law_builder_climbs_end<N>(b: TreeBuilder<N>, idx: usize)
    requires
        b.wf(),
    ensures
        exists|fuel: nat| climb_ends(b.trees_view().parents_view(), idx, fuel),
{
    lemma_climb_ends(b.trees_view().parents_view(), idx, idx as nat);
}

/// Every parent that a node lists has the node among its children.
pub open spec fn links_consistent(children: Seq<Seq<usize>>, parents: Seq<Seq<usize>>) -> bool {
    forall|b: int, j: int|
        #![trigger parents[b][j]]
        0 <= b < parents.len() && 0 <= j < parents[b].len() ==> parents[b][j] < children.len()
            && children[parents[b][j] as int].contains(b as usize)
}

/// The path that `climb` gives, read from its top down, goes from parent to
/// child at every step.
proof fn lemma_climb_follows(cs: Seq<Seq<usize>>, ps: Seq<Seq<usize>>, a: usize, fuel: nat)
    requires
        links_consistent(cs, ps),
        climb_ends(ps, a, fuel),
    ensures
        follows(cs, climb(ps, a, fuel).reverse()),
        climb(ps, a, fuel).len() >= 1,
        climb(ps, a, fuel)[0] == a,
        first_parent(ps, climb(ps, a, fuel).last()) is None,
    decreases fuel,
{
    match first_parent(ps, a) {
        Some(p) => {
            lemma_climb_follows(cs, ps, p, (fuel - 1) as nat);
            let up = climb(ps, p, (fuel - 1) as nat);
            assert(climb(ps, a, fuel) == seq![a] + up);
            let r = up.reverse().push(a);
            assert(climb(ps, a, fuel).reverse() =~= r);
            assert(r.drop_last() =~= up.reverse());
            assert(r[r.len() - 2] == up[0]);
            assert(ps[a as int][0] == p);
            assert(cs[p as int].contains(a));
            assert((seq![a] + up).last() == up.last());
        },
        None => {
            assert(climb(ps, a, fuel).reverse() =~= seq![a]);
        },
    }
}

/// In trees made by a `TreeBuilder`, the path that `path_to` gives, read
/// from its top down, is found again by `find`: it starts at a node without
/// a parent, goes from parent to child at every step, and ends at the node.
pub proof fn law_path_to_found<N>(b: TreeBuilder<N>, idx: usize, fuel: nat)
    requires
        b.wf(),
        climb_ends(b.trees_view().parents_view(), idx, fuel),
    ensures
        ({
            let path = climb(b.trees_view().parents_view(), idx, fuel);
            &&& path[0] == idx
            &&& first_parent(b.trees_view().parents_view(), path.last()) is None
            &&& follows(b.trees_view().children_view(), path.reverse())
            &&& path.reverse().len() > 0 && path.reverse().last() == idx
        }),
{
    let ps = b.trees_view().parents_view();
    lemma_climb_follows(b.trees_view().children_view(), ps, idx, fuel);
    let path = climb(ps, idx, fuel);
    assert(path.reverse().last() == path[0]);
}

/// Builds trees: each item goes under the current parent, or becomes a root
/// when there is none, and becomes the current parent.
pub struct TreeBuilder<N> {
    pub trees: Trees<N>,
    parents: Vec<usize>,
}

impl<N> TreeBuilder<N> {
    /// The trees built so far.
    pub closed spec fn trees_view(&self) -> Trees<N> {
        self.trees
    }

    /// The nodes from the top down to the current parent.
    pub closed spec fn parents_view(&self) -> Seq<usize> {
        self.parents@
    }

    /// The trees are well formed, the parents are nodes, and each parent is
    /// a child of the one before it.
    pub open spec fn wf(&self) -> bool {
        &&& self.trees_view().wf()
        &&& forall|k: int|
            0 <= k < self.parents_view().len() ==> #[trigger] self.parents_view()[k]
                < self.trees_view().nodes().len()
        &&& follows(self.trees_view().children_view(), self.parents_view())
        &&& links_consistent(self.trees_view().children_view(), self.trees_view().parents_view())
        &&& parents_before(self.trees_view().parents_view())
    }

    /// A builder with no items.
    pub fn new() -> (b: TreeBuilder<N>)
        ensures
            b.wf(),
            b.parents_view().len() == 0,
            b.trees_view().nodes().len() == 0,
            b.trees_view().roots_view().len() == 0,
            b.trees_view().edge_count() == 0,
    {
        TreeBuilder { trees: Trees::new(), parents: Vec::new() }
    }

    /// Inserts an item under the current parent, or as a new root when there
    /// is none, and makes it the current parent. Gives its node.
    pub fn insert(&mut self, item: N) -> (id: usize)
        requires
            old(self).wf(),
            old(self).trees_view().nodes().len() < u32::MAX,
            old(self).trees_view().edge_count() < u32::MAX,
        ensures
            final(self).wf(),
            id == old(self).trees_view().nodes().len(),
            final(self).trees_view().nodes() == old(self).trees_view().nodes().push(
                old(self).trees_view().items_view().len() as usize,
            ),
            final(self).trees_view().items_view() == old(self).trees_view().items_view().push(item),
            final(self).parents_view() == old(self).parents_view().push(id),
            old(self).parents_view().len() > 0 ==> {
                let p = old(self).parents_view().last();
                &&& final(self).trees_view().roots_view() == old(self).trees_view().roots_view()
                &&& final(self).trees_view().children_view() == old(
                    self,
                ).trees_view().children_view().push(Seq::empty()).update(
                    p as int,
                    seq![id] + old(self).trees_view().children_view()[p as int],
                )
                &&& final(self).trees_view().parents_view() == old(
                    self,
                ).trees_view().parents_view().push(seq![p])
                &&& final(self).trees_view().edge_count() == old(self).trees_view().edge_count() + 1
            },
            old(self).parents_view().len() == 0 ==> {
                &&& final(self).trees_view().roots_view() == old(self).trees_view().roots_view().push(id)
                &&& final(self).trees_view().children_view() == old(
                    self,
                ).trees_view().children_view().push(Seq::empty())
                &&& final(self).trees_view().parents_view() == old(
                    self,
                ).trees_view().parents_view().push(Seq::empty())
                &&& final(self).trees_view().edge_count() == old(self).trees_view().edge_count()
            },
    {
        let position = self.trees.items.len();
        let id = graph_add_node(&mut self.trees.graph, position);
        self.trees.items.push(item);
        if self.parents.len() > 0 {
            let p = self.parents[self.parents.len() - 1];
            assert(p < self.trees.nodes().len());
            graph_add_edge(&mut self.trees.graph, p, id);
        } else {
            self.trees.roots.push(id);
        }
        self.parents.push(id);
        proof {
            assert forall|a: int| 0 <= a < self.trees.nodes().len() implies #[trigger] self.trees.nodes()[a]
                < self.trees.items_view().len() by {
                if a < old(self).trees_view().nodes().len() {
                    assert(self.trees.nodes()[a] == old(self).trees_view().nodes()[a]);
                }
            }
            assert forall|k: int| 0 <= k < self.parents_view().len() implies #[trigger] self.parents_view()[k]
                < self.trees.nodes().len() by {
                if k < old(self).parents_view().len() {
                    assert(self.parents_view()[k] == old(self).parents_view()[k]);
                }
            }
            let c0 = old(self).trees_view().children_view();
            let c1 = self.trees.children_view();
            let ps = old(self).parents_view();
            assert forall|a: int, x: usize| 0 <= a < c0.len() && c0[a].contains(x) implies c1[a].contains(
                x,
            ) by {
                let j = choose|j: int| 0 <= j < c0[a].len() && c0[a][j] == x;
                if ps.len() > 0 && a == ps.last() as int {
                    assert(c1[a] == seq![id] + c0[a]);
                    assert(c1[a][j + 1] == x);
                } else {
                    assert(c1[a] == c0[a]);
                }
            }
            lemma_follows_grow(c0, c1, ps);
            let p0 = old(self).trees_view().parents_view();
            let p1 = self.trees.parents_view();
            assert forall|bb: int| 0 <= bb < p1.len() implies #[trigger] p1[bb].len() <= 1 && (
            p1[bb].len() == 1 ==> p1[bb][0] < bb) by {
                if bb < p0.len() {
                    assert(p1[bb] == p0[bb]);
                }
            }
            assert forall|bb: int, j: int|
                0 <= bb < p1.len() && 0 <= j < p1[bb].len() implies #[trigger] p1[bb][j] < c1.len()
                && c1[p1[bb][j] as int].contains(bb as usize) by {
                if bb < p0.len() {
                    assert(p1[bb] == p0[bb]);
                    assert(p0[bb][j] < c0.len() && c0[p0[bb][j] as int].contains(bb as usize));
                    let x = p0[bb][j] as int;
                    let k = choose|k: int| 0 <= k < c0[x].len() && c0[x][k] == bb as usize;
                    if ps.len() > 0 && x == ps.last() as int {
                        assert(c1[x][k + 1] == bb as usize);
                    } else {
                        assert(c1[x] == c0[x]);
                    }
                } else {
                    assert(bb == id as int);
                    assert(ps.len() > 0);
                    assert(p1[bb] == seq![ps.last()]);
                    assert(c1[ps.last() as int][0] == id);
                }
            }
            assert(self.parents_view().drop_last() == ps);
            if ps.len() > 0 {
                assert(c1[ps.last() as int][0] == id);
                assert(self.parents_view()[self.parents_view().len() - 2] == ps.last());
            }
        }
        id
    }

    /// Leaves the most recent parent (`new_root`), then inserts an item
    /// under the parent that is left, or as a new root when none is, and
    /// makes it the current parent.
    pub fn insert_root(&mut self, item: N) -> (id: usize)
        requires
            old(self).wf(),
            old(self).trees_view().nodes().len() < u32::MAX,
            old(self).trees_view().edge_count() < u32::MAX,
        ensures
            final(self).wf(),
            id == old(self).trees_view().nodes().len(),
            final(self).trees_view().items_view() == old(self).trees_view().items_view().push(item),
            final(self).trees_view().nodes().len() == old(self).trees_view().nodes().len() + 1,
            ({
                let left = if old(self).parents_view().len() > 0 {
                    old(self).parents_view().drop_last()
                } else {
                    old(self).parents_view()
                };
                &&& final(self).parents_view() == left.push(id)
                &&& left.len() == 0 ==> final(self).trees_view().roots_view() == old(
                    self,
                ).trees_view().roots_view().push(id)
                &&& left.len() == 0 ==> final(self).trees_view().edge_count() == old(
                    self,
                ).trees_view().edge_count()
                &&& left.len() > 0 ==> final(self).trees_view().roots_view() == old(
                    self,
                ).trees_view().roots_view()
                &&& left.len() > 0 ==> final(self).trees_view().edge_count() == old(
                    self,
                ).trees_view().edge_count() + 1
            }),
    {
        self.new_root();
        self.insert(item)
    }

    /// Moves up the tree, removing the most recent parent from the list.
    pub fn new_root(&mut self)
        requires
            old(self).wf(),
        ensures
            final(self).wf(),
            final(self).trees_view() == old(self).trees_view(),
            final(self).parents_view() == (if old(self).parents_view().len() > 0 {
                old(self).parents_view().drop_last()
            } else {
                old(self).parents_view()
            }),
    {
        self.parents.pop();
    }

    /// Leaves the current parent; the one above it becomes the parent.
    pub fn up(&mut self)
        requires
            old(self).wf(),
        ensures
            final(self).wf(),
            final(self).trees_view() == old(self).trees_view(),
            final(self).parents_view() == (if old(self).parents_view().len() > 0 {
                old(self).parents_view().drop_last()
            } else {
                old(self).parents_view()
            }),
    {
        self.parents.pop();
    }

    /// The nodes from the top down to the current parent.
    pub fn path(&self) -> (p: MarkerPath)
        ensures
            p.0@ == self.parents_view(),
    {
        let mut v: Vec<usize> = Vec::new();
        let mut i: usize = 0;
        while i < self.parents.len()
            invariant
                i <= self.parents@.len(),
                v@ == self.parents@.take(i as int),
            decreases self.parents@.len() - i,
        {
            v.push(self.parents[i]);
            i = i + 1;
            assert(v@ =~= self.parents@.take(i as int));
        }
        assert(self.parents@.take(self.parents@.len() as int) =~= self.parents@);
        MarkerPath(v)
    }

    /// The finished trees.
    pub fn build(self) -> (t: Trees<N>)
        requires
            self.wf(),
        ensures
            t == self.trees_view(),
            t.wf(),
    {
        self.trees
    }
}

} // verus!
