//! The shape of a marker pack: a rooted tree kept in a `slab_tree::Tree`.
//!
//! Nodes are numbered in the order they were added, the root being 0; the
//! markers themselves are kept by the pack, indexed by the same numbers.

use vstd::prelude::*;

verus! {

/// For each node, in the order of their numbers: its parent and its children
/// in the order they were appended.
pub type Links = Seq<(Option<usize>, Seq<usize>)>;

/// A `slab_tree::Tree` whose nodes carry their own numbers, together with the
/// slab ids of the nodes by number.
#[verifier::external_body]
pub(crate) struct PackTree {
    tree: slab_tree::Tree<usize>,
    ids: Vec<slab_tree::NodeId>,
}

/// The parent and the children of every node of a `PackTree`.
pub uninterp spec fn pack_tree_links(t: PackTree) -> Seq<(Option<usize>, Seq<usize>)>;

/// The links describe a tree rooted at node 0 in which every node was added
/// after its parent, and children lists are in increasing order.
pub open spec fn links_wf(l: Links) -> bool {
    &&& 1 <= l.len() <= usize::MAX
    &&& l[0].0 is None
    &&& forall|i: int|
        #![trigger l[i]]
        0 < i < l.len() ==> (l[i].0 matches Some(p) && p < i && l[p as int].1.contains(i as usize))
    &&& forall|p: int, j: int|
        #![trigger l[p].1[j]]
        0 <= p < l.len() && 0 <= j < l[p].1.len() ==> l[p].1[j] < l.len() && l[l[p].1[j] as int].0
            == Some(p as usize)
    &&& forall|p: int, j: int, k: int|
        #![trigger l[p].1[j], l[p].1[k]]
        0 <= p < l.len() && 0 <= j < k < l[p].1.len() ==> l[p].1[j] < l[p].1[k]
}

/// The ancestors of node `i`, nearest first, ending with the root.
pub open spec fn ancestor_chain(l: Links, i: int) -> Seq<usize>
    decreases i,
{
    if 0 <= i < l.len() {
        match l[i].0 {
            Some(p) => if p < i {
                seq![p] + ancestor_chain(l, p as int)
            } else {
                Seq::<usize>::empty()
            },
            None => Seq::<usize>::empty(),
        }
    } else {
        Seq::<usize>::empty()
    }
}

/// Node `n` is `a` or lies below it.
pub open spec fn descends_from(l: Links, a: int, n: int) -> bool
    decreases n,
{
    if n == a {
        true
    } else if 0 <= n < l.len() {
        match l[n].0 {
            Some(p) => if p < n {
                descends_from(l, a, p as int)
            } else {
                false
            },
            None => false,
        }
    } else {
        false
    }
}

/// Node `i`, then, child by child in order, each child and the nodes below
/// it: the depth-first pre-order from `i`.
pub open spec fn pre_order_from(l: Links, i: int) -> Seq<usize>
    decreases l.len() - i, 1int, 0int,
{
    if 0 <= i < l.len() {
        seq![i as usize] + pre_order_children(l, i, 0)
    } else {
        Seq::<usize>::empty()
    }
}

/// The pre-orders of the children of `p` from its `k`-th child on, one after
/// the other.
pub open spec fn pre_order_children(l: Links, p: int, k: int) -> Seq<usize>
    decreases l.len() - p, 0int, l[p].1.len() - k,
{
    if 0 <= p < l.len() && 0 <= k < l[p].1.len() {
        let c = l[p].1[k] as int;
        let here = if p < c < l.len() {
            pre_order_from(l, c)
        } else {
            Seq::<usize>::empty()
        };
        here + pre_order_children(l, p, k + 1)
    } else {
        Seq::<usize>::empty()
    }
}

impl PackTree {
    /// `Tree::new` followed by `Tree::set_root`: a tree holding only its root,
    /// node 0.
    #[verifier::external_body]
    pub(crate) fn new() -> (t: PackTree)
        ensures
            pack_tree_links(t) == seq![(None::<usize>, Seq::<usize>::empty())],
    {
        let mut tree = slab_tree::Tree::new();
        let root = tree.set_root(0usize);
        PackTree { tree, ids: vec![root] }
    }

    /// The number of nodes.
    #[verifier::external_body]
    pub(crate) fn len(&self) -> (n: usize)
        ensures
            n == pack_tree_links(*self).len(),
    {
        self.ids.len()
    }

    /// `NodeMut::append`: the new node, numbered after all others, becomes the
    /// last child of `parent`.
    #[verifier::external_body]
    pub(crate) fn append(&mut self, parent: usize) -> (id: usize)
        requires
            parent < pack_tree_links(*old(self)).len(),
            pack_tree_links(*old(self)).len() < usize::MAX,
        ensures
            id == pack_tree_links(*old(self)).len(),
            pack_tree_links(*final(self)) == pack_tree_links(*old(self)).update(
                parent as int,
                (
                    pack_tree_links(*old(self))[parent as int].0,
                    pack_tree_links(*old(self))[parent as int].1.push(id),
                ),
            ).push((Some(parent), Seq::<usize>::empty())),
    {
        let id = self.ids.len();
        let node = self.tree.get_mut(self.ids[parent]).unwrap().append(id).node_id();
        self.ids.push(node);
        id
    }

    /// `NodeRef::children`: the children of node `i` in order.
    #[verifier::external_body]
    pub(crate) fn children(&self, i: usize) -> (r: Vec<usize>)
        requires
            i < pack_tree_links(*self).len(),
        ensures
            r@ == pack_tree_links(*self)[i as int].1,
    {
        self.tree.get(self.ids[i]).unwrap().children().map(|n| *n.data()).collect()
    }

    /// `NodeRef::ancestors`: the ancestors of node `i`, nearest first.
    #[verifier::external_body]
    pub(crate) fn ancestors(&self, i: usize) -> (r: Vec<usize>)
        requires
            i < pack_tree_links(*self).len(),
            links_wf(pack_tree_links(*self)),
        ensures
            r@ == ancestor_chain(pack_tree_links(*self), i as int),
    {
        self.tree.get(self.ids[i]).unwrap().ancestors().map(|n| *n.data()).collect()
    }

    /// `NodeRef::traverse_pre_order`: node `i` first, then, child by child in
    /// the order they were appended, each child's own pre-order.
    #[verifier::external_body]
    fn traverse_pre_order(&self, i: usize) -> (r: Vec<usize>)
        requires
            i < pack_tree_links(*self).len(),
            links_wf(pack_tree_links(*self)),
        ensures
            r@ == pre_order_from(pack_tree_links(*self), i as int),
    {
        self.tree.get(self.ids[i]).unwrap().traverse_pre_order().map(|n| *n.data()).collect()
    }

    /// The pre-order from node `i`: it starts at `i`, lists each node once,
    /// and lists exactly the nodes below `i` and `i` itself.
    pub(crate) fn pre_order(&self, i: usize) -> (r: Vec<usize>)
        requires
            i < pack_tree_links(*self).len(),
            links_wf(pack_tree_links(*self)),
        ensures
            r@ == pre_order_from(pack_tree_links(*self), i as int),
            r@.len() >= 1,
            r@[0] == i,
            r@.no_duplicates(),
            forall|n: usize|
                r@.contains(n) <==> (n < pack_tree_links(*self).len() && descends_from(
                    pack_tree_links(*self),
                    i as int,
                    n as int,
                )),
    {
        let r = self.traverse_pre_order(i);
        proof {
            lemma_pre_order(pack_tree_links(*self), i as int);
        }
        r
    }
}

/// A node lies below its ancestors: its number is at least theirs.
pub proof fn lemma_descends_above(l: Links, a: int, n: int)
    requires
        links_wf(l),
        descends_from(l, a, n),
    ensures
        a <= n,
    decreases n,
{
    if n != a {
        let p = l[n].0->Some_0;
        lemma_descends_above(l, a, p as int);
    }
}

/// What lies below a node below `a` lies below `a`.
pub proof fn lemma_descends_trans(l: Links, a: int, b: int, n: int)
    requires
        links_wf(l),
        descends_from(l, a, b),
        descends_from(l, b, n),
    ensures
        descends_from(l, a, n),
    decreases n,
{
    if n != b {
        let p = l[n].0->Some_0;
        lemma_descends_trans(l, a, b, p as int);
    }
}

/// Two nodes above a common node lie one below the other.
pub proof fn lemma_descends_chain(l: Links, a: int, b: int, n: int)
    requires
        links_wf(l),
        descends_from(l, a, n),
        descends_from(l, b, n),
    ensures
        descends_from(l, a, b) || descends_from(l, b, a),
    decreases n,
{
    if n != a && n != b {
        let p = l[n].0->Some_0;
        lemma_descends_chain(l, a, b, p as int);
    }
}

/// A node strictly below `i` lies below one of `i`'s children.
pub proof fn lemma_below_a_child(l: Links, i: int, n: int)
    requires
        links_wf(l),
        0 <= i < l.len(),
        descends_from(l, i, n),
        n != i,
    ensures
        exists|j: int| 0 <= j < l[i].1.len() && descends_from(l, #[trigger] l[i].1[j] as int, n),
    decreases n,
{
    let p = l[n].0->Some_0;
    if p as int == i {
        assert(l[i].1.contains(n as usize));
        let j = choose|j: int| 0 <= j < l[i].1.len() && l[i].1[j] == n as usize;
        assert(descends_from(l, l[i].1[j] as int, n));
    } else {
        lemma_below_a_child(l, i, p as int);
        let j = choose|j: int| 0 <= j < l[i].1.len() && descends_from(l, #[trigger] l[i].1[j] as int, p as int);
        assert(descends_from(l, l[i].1[j] as int, n));
    }
}

/// Child `k` of `p` lies above `p` and below nothing else of `p`'s children.
proof fn lemma_child(l: Links, p: int, k: int)
    requires
        links_wf(l),
        0 <= p < l.len(),
        0 <= k < l[p].1.len(),
    ensures
        p < l[p].1[k] < l.len(),
        l[l[p].1[k] as int].0 == Some(p as usize),
{
    let c = l[p].1[k] as int;
    assert(l[c].0 == Some(p as usize));
    if c == 0 {
        assert(l[0].0 is None);
    }
}

/// The pre-order from `i` lists each node once, exactly those below `i` and
/// `i` itself, starting with `i`.
pub proof fn lemma_pre_order(l: Links, i: int)
    requires
        links_wf(l),
        0 <= i < l.len(),
    ensures
        pre_order_from(l, i).len() >= 1,
        pre_order_from(l, i)[0] == i,
        pre_order_from(l, i).no_duplicates(),
        forall|n: usize|
            #![trigger pre_order_from(l, i).contains(n)]
            #![trigger descends_from(l, i, n as int)]
            pre_order_from(l, i).contains(n) <==> (n < l.len() && descends_from(l, i, n as int)),
    decreases l.len() - i, 1int, 0int,
{
    let s = pre_order_from(l, i);
    let rest = pre_order_children(l, i, 0);
    lemma_pre_order_children(l, i, 0);
    assert(s == seq![i as usize] + rest);
    assert(s[0] == i);
    assert forall|n: usize| s.contains(n) <==> (n < l.len() && descends_from(l, i, n as int)) by {
        if s.contains(n) {
            let q = choose|q: int| 0 <= q < s.len() && s[q] == n;
            if q > 0 {
                assert(rest[q - 1] == n);
                assert(rest.contains(n));
                let j = choose|j: int|
                    0 <= j < l[i].1.len() && descends_from(l, #[trigger] l[i].1[j] as int, n as int);
                lemma_child(l, i, j);
                assert(descends_from(l, i, i));
                assert(descends_from(l, i, l[i].1[j] as int));
                lemma_descends_trans(l, i, l[i].1[j] as int, n as int);
            }
        }
        if n < l.len() && descends_from(l, i, n as int) && n != i {
            lemma_below_a_child(l, i, n as int);
            assert(rest.contains(n));
            let q = choose|q: int| 0 <= q < rest.len() && rest[q] == n;
            assert(s[q + 1] == n);
        }
        if n == i {
            assert(s[0] == n);
        }
    }
    assert forall|a: int, b: int| 0 <= a < s.len() && 0 <= b < s.len() && a != b implies s[a]
        != s[b] by {
        if a > 0 && b > 0 {
            assert(s[a] == rest[a - 1] && s[b] == rest[b - 1]);
        } else if a == 0 {
            assert(rest.contains(s[b]));
            let c = choose|j: int| 0 <= j < l[i].1.len() && descends_from(l, #[trigger] l[i].1[j] as int, s[b] as int);
            lemma_child(l, i, c);
            lemma_descends_above(l, l[i].1[c] as int, s[b] as int);
        } else {
            assert(rest.contains(s[a]));
            let c = choose|j: int| 0 <= j < l[i].1.len() && descends_from(l, #[trigger] l[i].1[j] as int, s[a] as int);
            lemma_child(l, i, c);
            lemma_descends_above(l, l[i].1[c] as int, s[a] as int);
        }
    }
}

/// The pre-orders of `p`'s children from the `k`-th on list each node once,
/// exactly those below one of these children.
pub proof fn lemma_pre_order_children(l: Links, p: int, k: int)
    requires
        links_wf(l),
        0 <= p < l.len(),
        0 <= k,
    ensures
        pre_order_children(l, p, k).no_duplicates(),
        forall|n: usize|
            pre_order_children(l, p, k).contains(n) <==> (n < l.len() && exists|j: int|
                k <= j < l[p].1.len() && descends_from(l, #[trigger] l[p].1[j] as int, n as int)),
    decreases l.len() - p, 0int, l[p].1.len() - k,
{
    let s = pre_order_children(l, p, k);
    if k >= l[p].1.len() {
        assert(s.len() == 0);
    } else {
        let c = l[p].1[k] as int;
        lemma_child(l, p, k);
        lemma_pre_order(l, c);
        lemma_pre_order_children(l, p, k + 1);
        let here = pre_order_from(l, c);
        let rest = pre_order_children(l, p, k + 1);
        assert(s == here + rest);
        assert forall|n: usize| s.contains(n) <==> (n < l.len() && exists|j: int|
            k <= j < l[p].1.len() && descends_from(l, #[trigger] l[p].1[j] as int, n as int)) by {
            if s.contains(n) {
                let q = choose|q: int| 0 <= q < s.len() && s[q] == n;
                if q < here.len() {
                    assert(here.contains(n));
                    assert(descends_from(l, l[p].1[k] as int, n as int));
                } else {
                    assert(rest[q - here.len()] == n);
                    assert(rest.contains(n));
                }
            }
            if n < l.len() && exists|j: int|
                k <= j < l[p].1.len() && descends_from(l, #[trigger] l[p].1[j] as int, n as int) {
                let j = choose|j: int|
                    k <= j < l[p].1.len() && descends_from(l, #[trigger] l[p].1[j] as int, n as int);
                if j == k {
                    assert(here.contains(n));
                    let q = choose|q: int| 0 <= q < here.len() && here[q] == n;
                    assert(s[q] == n);
                } else {
                    assert(rest.contains(n));
                    let q = choose|q: int| 0 <= q < rest.len() && rest[q] == n;
                    assert(s[q + here.len()] == n);
                }
            }
        }
        assert forall|a: int, b: int| 0 <= a < s.len() && 0 <= b < s.len() && a != b implies s[a]
            != s[b] by {
            if a < here.len() && b < here.len() {
                assert(s[a] == here[a] && s[b] == here[b]);
            } else if a >= here.len() && b >= here.len() {
                assert(s[a] == rest[a - here.len()] && s[b] == rest[b - here.len()]);
            } else {
                let (x, y) = if a < here.len() { (a, b) } else { (b, a) };
                assert(here.contains(s[x]));
                assert(rest.contains(s[y]));
                if s[x] == s[y] {
                    let n = s[x];
                    let j = choose|j: int|
                        k + 1 <= j < l[p].1.len() && descends_from(l, #[trigger] l[p].1[j] as int, n as int);
                    let d = l[p].1[j] as int;
                    lemma_child(l, p, j);
                    assert(l[p].1[k] < l[p].1[j]);
                    lemma_descends_chain(l, c, d, n as int);
                    if descends_from(l, c, d) {
                        lemma_descends_above(l, c, p);
                    } else {
                        lemma_descends_above(l, d, c);
                    }
                }
            }
        }
    }
}

/// Appending a node keeps the links well formed.
pub proof fn lemma_append_wf(l: Links, parent: usize)
    requires
        links_wf(l),
        parent < l.len(),
        l.len() < usize::MAX,
    ensures
        ({
            let id = l.len() as usize;
            links_wf(
                l.update(parent as int, (l[parent as int].0, l[parent as int].1.push(id))).push(
                    (Some(parent), Seq::<usize>::empty()),
                ),
            )
        }),
{
    let id = l.len() as usize;
    let m = l.update(parent as int, (l[parent as int].0, l[parent as int].1.push(id))).push(
        (Some(parent), Seq::<usize>::empty()),
    );
    assert forall|i: int|
        #![trigger m[i]]
        0 < i < m.len() implies (m[i].0 matches Some(p) && p < i && m[p as int].1.contains(
        i as usize,
    )) by {
        if i < l.len() {
            let p = l[i].0->Some_0;
            assert(l[p as int].1.contains(i as usize));
            let j = choose|j: int| 0 <= j < l[p as int].1.len() && l[p as int].1[j] == i as usize;
            if p == parent {
                assert(m[p as int].1[j] == i as usize);
            } else {
                assert(m[p as int].1[j] == i as usize);
            }
        } else {
            assert(m[parent as int].1[l[parent as int].1.len() as int] == id);
        }
    }
    assert forall|p: int, j: int|
        #![trigger m[p].1[j]]
        0 <= p < m.len() && 0 <= j < m[p].1.len() implies m[p].1[j] < m.len() && m[m[p].1[j] as int].0
        == Some(p as usize) by {
        if p < l.len() && j < l[p].1.len() {
            assert(m[p].1[j] == l[p].1[j]);
            assert(l[p].1[j] < l.len() && l[l[p].1[j] as int].0 == Some(p as usize));
            assert(m[l[p].1[j] as int].0 == l[l[p].1[j] as int].0);
        } else if p < l.len() {
            assert(p == parent);
            assert(j == l[p].1.len());
            assert(m[p].1[j] == id);
            assert(m[id as int].0 == Some(parent));
        } else {
            assert(m[p].1.len() == 0);
        }
    }
    assert forall|p: int, j: int, k: int|
        #![trigger m[p].1[j], m[p].1[k]]
        0 <= p < m.len() && 0 <= j < k < m[p].1.len() implies m[p].1[j] < m[p].1[k] by {
        if p < l.len() && k < l[p].1.len() {
            assert(m[p].1[j] == l[p].1[j]);
            assert(m[p].1[k] == l[p].1[k]);
        } else if p < l.len() {
            assert(p == parent);
            assert(k == l[p].1.len());
            assert(m[p].1[j] == l[p].1[j]);
            assert(l[p].1[j] < l.len());
            assert(m[p].1[k] == id);
        } else {
            assert(m[p].1.len() == 0);
        }
    }
}

} // verus!
