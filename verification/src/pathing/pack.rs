//! A marker pack: the tree of marker categories read from a pack's XML files,
//! with the POIs and trails attached to them.

use vstd::prelude::*;
use std::collections::HashSet;
use crate::pathing::pack_tree::{
    PackTree, Links, pack_tree_links, links_wf, ancestor_chain, descends_from, lemma_append_wf,
    pre_order_from, pre_order_children,
};
use crate::pathing::model::{MarkerKind, Behavior, MarkerXml, PoiXml, TrailXml, opt_view};
use crate::pathing::name::{MarkerName, FullMarkerId, PackId, names_equal, join_dotted};
use crate::pathing::trail::TrailData;
use crate::text::{
    split_on, split_spec, strings_view, owned, same_text, lemma_split_nonempty, push_str, push_decimal,
    decimal,
};

verus! {

broadcast use vstd::std_specs::hash::group_hash_axioms;

/// A point of interest attached to a marker. The coordinates are the text of
/// the POI's attributes.
#[derive(Clone, Debug, PartialEq, Eq)]
pub struct Poi {
    pub map_id: Option<u32>,
    pub xpos: Option<String>,
    pub ypos: Option<String>,
    pub zpos: Option<String>,
    pub icon_file: Option<String>,
}

/// A trail attached to a marker: its map, its points (bits of x, y, z) and
/// the texture to draw it with.
#[derive(Clone, Debug, PartialEq, Eq)]
pub struct Route {
    pub map_id: u32,
    pub path: Vec<[u32; 3]>,
    pub texture_file: String,
}

/// A marker category of a pack, with what was attached to it.
#[derive(Debug)]
pub struct Marker {
    pub name: String,
    pub label: String,
    pub kind: MarkerKind,
    pub depth: usize,
    pub behavior: Option<Behavior>,
    pub poi_tip: Option<String>,
    pub poi_description: Option<String>,
    pub map_ids: HashSet<u32>,
    pub icon_file: Option<String>,
    pub texture: Option<String>,
    /// Associated trails
    pub trails: Vec<Route>,
    /// Associated POIs
    pub pois: Vec<Poi>,
}

impl Marker {
    /// Fills what this marker leaves unset from `other`, and adds `other`'s
    /// maps to its own.
    pub fn merge(&mut self, other: Marker)
        ensures
            final(self).name == old(self).name,
            final(self).label == old(self).label,
            final(self).kind == old(self).kind,
            final(self).depth == old(self).depth,
            final(self).trails == old(self).trails,
            final(self).pois == old(self).pois,
            final(self).behavior == (if old(self).behavior is None {
                other.behavior
            } else {
                old(self).behavior
            }),
            final(self).poi_tip == (if old(self).poi_tip is None {
                other.poi_tip
            } else {
                old(self).poi_tip
            }),
            final(self).poi_description == (if old(self).poi_description is None {
                other.poi_description
            } else {
                old(self).poi_description
            }),
            final(self).icon_file == (if old(self).icon_file is None {
                other.icon_file
            } else {
                old(self).icon_file
            }),
            final(self).texture == (if old(self).texture is None {
                other.texture
            } else {
                old(self).texture
            }),
            final(self).map_ids@ == old(self).map_ids@.union(other.map_ids@),
    {
        let Marker {
            name: _,
            label: _,
            kind: _,
            depth: _,
            behavior,
            poi_tip,
            poi_description,
            map_ids,
            icon_file,
            texture,
            trails: _,
            pois: _,
        } = other;
        if self.behavior.is_none() {
            self.behavior = behavior;
        }
        if self.poi_tip.is_none() {
            self.poi_tip = poi_tip;
        }
        if self.poi_description.is_none() {
            self.poi_description = poi_description;
        }
        if self.icon_file.is_none() {
            self.icon_file = icon_file;
        }
        if self.texture.is_none() {
            self.texture = texture;
        }
        let ghost start = self.map_ids@;
        let ghost whole = map_ids@;
        let ghost mid = *self;
        let ghost mut done = Set::<u32>::empty();
        for x in it: map_ids.iter()
            invariant
                self.name == mid.name,
                self.label == mid.label,
                self.kind == mid.kind,
                self.depth == mid.depth,
                self.behavior == mid.behavior,
                self.poi_tip == mid.poi_tip,
                self.poi_description == mid.poi_description,
                self.icon_file == mid.icon_file,
                self.texture == mid.texture,
                self.trails == mid.trails,
                self.pois == mid.pois,
                whole == map_ids@,
                it.seq().unref().to_set() == whole,
                done == it.seq().take(it.index()).unref().to_set(),
                self.map_ids@ == start.union(done),
                it.index() == it.seq().len() ==> done == whole,
        {
            self.map_ids.insert(*x);
            proof {
                done = done.insert(*x);
            }
            assert(it.seq()[it.index()] == x);
            assert(it.seq().take(it.index() + 1).unref() =~= it.seq().take(it.index()).unref().push(
                *x,
            ));
            assert(it.seq().take(it.index()).unref().push(*x).to_set() =~= it.seq().take(
                it.index(),
            ).unref().to_set().insert(*x)) by {
                it.seq().take(it.index()).unref().lemma_push_to_set_commute(*x);
            }
            assert(done =~= it.seq().take(it.index() + 1).unref().to_set());
            assert(self.map_ids@ =~= start.union(done));
            assert(it.seq().take(it.seq().len() as int) =~= it.seq());
        }
    }
}

/// The number of a marker in its pack.
#[derive(Hash, Copy, Clone, Debug, PartialEq, Eq)]
pub struct MarkerId(pub usize);

/// The numbers of the markers from the top of a pack down to one of them.
#[derive(Hash, Clone, Default, Debug, PartialEq, Eq)]
pub struct MarkerPath(pub Vec<usize>);

/// How one number of a path is written: `NodeIndex(` and the number in
/// decimal, then `)`.
pub open spec fn node_text(n: usize) -> Seq<char> {
    "NodeIndex("@ + decimal(n as nat) + ")"@
}

/// A path written as its numbers joined by `.`.
pub open spec fn path_text(p: Seq<usize>) -> Seq<char>
    decreases p.len(),
{
    if p.len() == 0 {
        Seq::empty()
    } else if p.len() == 1 {
        node_text(p[0])
    } else {
        path_text(p.drop_last()) + "."@ + node_text(p.last())
    }
}

impl MarkerPath {
    /// The path as it is displayed: each number as `NodeIndex(n)`, joined
    /// by `.`.
    pub fn to_string(&self) -> (r: String)
        ensures
            r@ == path_text(self.0@),
    {
        let mut r = String::new();
        let mut i: usize = 0;
        while i < self.0.len()
            invariant
                i <= self.0@.len(),
                r@ == path_text(self.0@.take(i as int)),
            decreases self.0@.len() - i,
        {
            let ghost before = r@;
            if i > 0 {
                push_str(&mut r, ".");
            }
            push_str(&mut r, "NodeIndex(");
            push_decimal(&mut r, self.0[i]);
            push_str(&mut r, ")");
            proof {
                reveal_strlit(".");
                reveal_strlit("NodeIndex(");
                reveal_strlit(")");
                let t = self.0@.take(i + 1);
                assert(t.drop_last() =~= self.0@.take(i as int));
                if i == 0 {
                    assert(r@ =~= node_text(t[0]));
                } else {
                    assert(r@ =~= before + "."@ + node_text(t.last()));
                }
            }
            i = i + 1;
        }
        assert(self.0@.take(i as int) =~= self.0@);
        r
    }
}

/// A marker pack: a tree whose root is named after the pack and whose other
/// nodes are its marker categories.
pub struct MarkerPack {
    tree: PackTree,
    markers: Vec<Marker>,
}

/// The points of `path` whose flag in `keep` is set, in order.
pub open spec fn kept_points(path: Seq<[u32; 3]>, keep: Seq<bool>) -> Seq<[u32; 3]>
    decreases path.len(),
{
    if path.len() == 0 {
        Seq::empty()
    } else {
        let rest = kept_points(path.drop_last(), keep);
        if path.len() - 1 < keep.len() && keep[path.len() - 1] {
            rest.push(path.last())
        } else {
            rest
        }
    }
}

/// Node `n` lies under one of the first `j` top-level markers.
pub open spec fn under_roots(l: Links, j: int, n: int) -> bool {
    exists|t: int| 0 <= t < j && #[trigger] descends_from(l, l[0].1[t] as int, n)
}

/// The names of the markers, by number.
pub open spec fn names_of(ms: Seq<Marker>) -> Seq<Seq<char>> {
    ms.map_values(|m: Marker| m.name@)
}

/// Two children of one node never have the same name.
pub open spec fn siblings_distinct(l: Links, names: Seq<Seq<char>>) -> bool {
    forall|p: int, j: int, k: int|
        #![trigger l[p].1[j], l[p].1[k]]
        0 <= p < l.len() && 0 <= j < k < l[p].1.len() ==> names[l[p].1[j] as int]
            != names[l[p].1[k] as int]
}

/// The names from the top of the pack down to node `i` (empty for the root).
pub open spec fn path_names(l: Links, names: Seq<Seq<char>>, i: int) -> Seq<Seq<char>>
    decreases i,
{
    if 0 < i < l.len() {
        match l[i].0 {
            Some(p) => if p < i {
                path_names(l, names, p as int).push(names[i])
            } else {
                Seq::<Seq<char>>::empty()
            },
            None => Seq::<Seq<char>>::empty(),
        }
    } else {
        Seq::<Seq<char>>::empty()
    }
}

/// The name of node `i`: the path of names below the root, or, for the root
/// itself, the pack's name.
pub open spec fn name_of_spec(l: Links, names: Seq<Seq<char>>, i: int) -> Seq<Seq<char>> {
    if i == 0 {
        seq![names[0]]
    } else {
        path_names(l, names, i)
    }
}

/// The node that a name designates: the root when the name is the pack's,
/// otherwise the node of that name, if any.
pub open spec fn find_spec(l: Links, names: Seq<Seq<char>>, name: Seq<Seq<char>>) -> Option<
    usize,
> {
    if name_of_spec(l, names, 0) == name {
        Some(0)
    } else if exists|n: usize| 0 < n < l.len() && name_of_spec(l, names, n as int) == name {
        Some(choose|n: usize| 0 < n < l.len() && name_of_spec(l, names, n as int) == name)
    } else {
        None
    }
}

impl MarkerPack {
    /// The shape of the pack.
    pub closed spec fn links(&self) -> Links {
        pack_tree_links(self.tree)
    }

    /// The markers, by number.
    pub closed spec fn markers(&self) -> Seq<Marker> {
        self.markers@
    }

    /// The pack is a well-formed tree with one marker per node, and no two
    /// children of a node share a name.
    pub open spec fn wf(&self) -> bool {
        &&& links_wf(self.links())
        &&& self.markers().len() == self.links().len()
        &&& siblings_distinct(self.links(), names_of(self.markers()))
    }

    /// The name of node `i`.
    pub open spec fn name_of_view(&self, i: int) -> Seq<Seq<char>> {
        name_of_spec(self.links(), names_of(self.markers()), i)
    }

    /// The pack's name: the name of its root.
    pub fn id(&self) -> (r: &String)
        requires
            self.wf(),
        ensures
            r@ == self.markers()[0].name@,
    {
        &self.markers[0].name
    }

    /// Keeps, of the points of trail `trail` of marker `marker`, those whose
    /// flag in `keep` is set (a point without a flag is dropped); nothing
    /// else changes. A marker or trail that does not exist leaves the pack
    /// as it is.
    pub fn retain_trail_points(&mut self, marker: usize, trail: usize, keep: &Vec<bool>)
        requires
            old(self).wf(),
        ensures
            final(self).wf(),
            final(self).links() == old(self).links(),
            final(self).markers().len() == old(self).markers().len(),
            ({
                let m0 = old(self).markers();
                let m1 = final(self).markers();
                if marker < m0.len() && trail < m0[marker as int].trails@.len() {
                    let o = m0[marker as int];
                    let n = m1[marker as int];
                    &&& forall|k: int| 0 <= k < m0.len() && k != marker ==> #[trigger] m1[k] == m0[k]
                    &&& same_identity(n, o)
                    &&& n.pois == o.pois
                    &&& n.map_ids == o.map_ids
                    &&& n.trails@.len() == o.trails@.len()
                    &&& forall|t: int|
                        0 <= t < o.trails@.len() && t != trail ==> #[trigger] n.trails@[t]
                            == o.trails@[t]
                    &&& n.trails@[trail as int].map_id == o.trails@[trail as int].map_id
                    &&& n.trails@[trail as int].texture_file == o.trails@[trail as int].texture_file
                    &&& n.trails@[trail as int].path@ == kept_points(
                        o.trails@[trail as int].path@,
                        keep@,
                    )
                } else {
                    m1 == m0
                }
            }),
    {
        if marker >= self.markers.len() || trail >= self.markers[marker].trails.len() {
            return;
        }
        let ghost m0 = self.markers@;
        let mut mk = self.markers.remove(marker);
        let ghost mk0 = mk;
        let mut rt = mk.trails.remove(trail);
        let ghost rt0 = rt;
        let mut path: Vec<[u32; 3]> = Vec::new();
        let mut j: usize = 0;
        while j < rt.path.len()
            invariant
                j <= rt.path@.len(),
                rt == rt0,
                path@ == kept_points(rt0.path@.take(j as int), keep@),
            decreases rt.path@.len() - j,
        {
            assert(rt0.path@.take(j + 1).drop_last() =~= rt0.path@.take(j as int));
            if j < keep.len() && keep[j] {
                path.push(rt.path[j]);
            }
            j = j + 1;
        }
        assert(rt0.path@.take(j as int) =~= rt0.path@);
        rt.path = path;
        mk.trails.insert(trail, rt);
        self.markers.insert(marker, mk);
        proof {
            let m1 = self.markers@;
            assert(m1.len() == m0.len());
            assert forall|k: int| 0 <= k < m0.len() && k != marker implies #[trigger] m1[k] == m0[k] by {
                if k < marker {
                } else {
                }
            }
            assert forall|t: int| 0 <= t < mk0.trails@.len() && t != trail implies #[trigger] m1[marker as int].trails@[t]
                == mk0.trails@[t] by {
            }
            assert(names_of(m1) =~= names_of(m0));
        }
    }

    /// The number of nodes, the root included.
    pub fn len(&self) -> (n: usize)
        requires
            self.wf(),
        ensures
            n == self.links().len(),
    {
        self.tree.len()
    }

    /// The marker numbered `id`, if there is one.
    pub fn get(&self, id: usize) -> (r: Option<&Marker>)
        requires
            self.wf(),
        ensures
            id < self.links().len() ==> r == Some(&self.markers()[id as int]),
            id >= self.links().len() ==> r is None,
    {
        if id < self.markers.len() {
            Some(&self.markers[id])
        } else {
            None
        }
    }

    /// The top-level markers of the pack, in order.
    pub fn roots(&self) -> (r: Vec<usize>)
        requires
            self.wf(),
        ensures
            r@ == self.links()[0].1,
    {
        self.tree.children(0)
    }

    /// The markers directly below `id`, in order.
    pub fn iter(&self, id: usize) -> (r: Vec<usize>)
        requires
            self.wf(),
            id < self.links().len(),
        ensures
            r@ == self.links()[id as int].1,
    {
        self.tree.children(id)
    }

    /// `id` first, then every marker below it, each once: depth first, the
    /// children of a marker in the order they were added.
    pub fn recurse(&self, id: usize) -> (r: Vec<usize>)
        requires
            self.wf(),
            id < self.links().len(),
        ensures
            r@ == pre_order_from(self.links(), id as int),
            r@.len() >= 1,
            r@[0] == id,
            r@.no_duplicates(),
            forall|n: usize|
                r@.contains(n) <==> (n < self.links().len() && descends_from(
                    self.links(),
                    id as int,
                    n as int,
                )),
    {
        self.tree.pre_order(id)
    }

    /// Every marker under the pack's top-level markers, with its dotted name:
    /// for each top-level marker, it and the markers below it, depth first.
    pub fn listing(&self) -> (r: Vec<(usize, String)>)
        requires
            self.wf(),
        ensures
            r@.map_values(|e: (usize, String)| e.0) == pre_order_children(self.links(), 0, 0),
            forall|k: int|
                0 <= k < r@.len() ==> (#[trigger] r@[k]).0 < self.links().len() && r@[k].1@
                    == join_dotted(self.name_of_view(r@[k].0 as int)),
            forall|n: usize|
                (exists|k: int| 0 <= k < r@.len() && #[trigger] r@[k].0 == n) <==> (n
                    < self.links().len() && under_roots(self.links(), self.links()[0].1.len() as int, n as int)),
    {
        let roots = self.roots();
        let ghost l = self.links();
        let mut r: Vec<(usize, String)> = Vec::new();
        let mut i: usize = 0;
        while i < roots.len()
            invariant
                self.wf(),
                l == self.links(),
                roots@ == l[0].1,
                i <= roots@.len(),
                forall|k: int|
                    0 <= k < r@.len() ==> (#[trigger] r@[k]).0 < l.len() && r@[k].1@ == join_dotted(
                        self.name_of_view(r@[k].0 as int),
                    ),
                forall|n: usize|
                    (exists|k: int| 0 <= k < r@.len() && #[trigger] r@[k].0 == n) <==> (n < l.len()
                        && under_roots(l, i as int, n as int)),
                r@.map_values(|e: (usize, String)| e.0) + pre_order_children(l, 0, i as int)
                    == pre_order_children(l, 0, 0),
            decreases roots@.len() - i,
        {
            assert(roots@[i as int] < l.len());
            let below = self.recurse(roots[i]);
            let ghost r0 = r@;
            let mut m: usize = 0;
            while m < below.len()
                invariant
                    self.wf(),
                    l == self.links(),
                    roots@ == l[0].1,
                    i < roots@.len(),
                    m <= below@.len(),
                    forall|n: usize|
                        below@.contains(n) <==> (n < l.len() && descends_from(
                            l,
                            roots@[i as int] as int,
                            n as int,
                        )),
                    r@.len() == r0.len() + m,
                    forall|k: int| 0 <= k < r0.len() ==> r@[k] == r0[k],
                    forall|k: int| 0 <= k < m ==> (#[trigger] r@[r0.len() + k]).0 == below@[k],
                    forall|k: int|
                        0 <= k < r@.len() ==> (#[trigger] r@[k]).0 < l.len() && r@[k].1@
                            == join_dotted(self.name_of_view(r@[k].0 as int)),
                decreases below@.len() - m,
            {
                let n = below[m];
                assert(below@.contains(n));
                let name = self.name_of(n).to_dotted();
                r.push((n, name));
                m = m + 1;
            }
            proof {
                let f = |e: (usize, String)| e.0;
                let c = l[0].1[i as int] as int;
                assert(l[c].0 == Some(0usize));
                assert(0 < c < l.len());
                assert(pre_order_children(l, 0, i as int) == pre_order_from(l, c)
                    + pre_order_children(l, 0, i + 1));
                assert(r@.map_values(f) =~= r0.map_values(f) + below@) by {
                    assert forall|k: int| 0 <= k < r@.len() implies r@.map_values(f)[k] == (
                    r0.map_values(f) + below@)[k] by {
                        if k >= r0.len() {
                            assert(r@[r0.len() + (k - r0.len())].0 == below@[k - r0.len()]);
                        }
                    }
                }
                assert(r0.map_values(f) + pre_order_children(l, 0, i as int) =~= r@.map_values(f)
                    + pre_order_children(l, 0, i + 1));
            }
            proof {
                assert forall|n: usize|
                    #![trigger under_roots(l, i + 1, n as int)]
                    (exists|k: int| 0 <= k < r@.len() && #[trigger] r@[k].0 == n) <==> (n < l.len()
                        && under_roots(l, i + 1, n as int)) by {
                    if exists|k: int| 0 <= k < r@.len() && #[trigger] r@[k].0 == n {
                        let k = choose|k: int| 0 <= k < r@.len() && #[trigger] r@[k].0 == n;
                        if k < r0.len() {
                            assert(r0[k].0 == n);
                        } else {
                            assert(r@[r0.len() + (k - r0.len())].0 == below@[k - r0.len()]);
                            assert(below@.contains(n));
                            assert(descends_from(l, l[0].1[i as int] as int, n as int));
                        }
                        if k < r0.len() {
                            assert(exists|k2: int| 0 <= k2 < r0.len() && #[trigger] r0[k2].0 == n);
                            assert(under_roots(l, i as int, n as int));
                            let t = choose|t: int|
                                0 <= t < i && #[trigger] descends_from(l, l[0].1[t] as int, n as int);
                            assert(descends_from(l, l[0].1[t] as int, n as int));
                        }
                    }
                    if n < l.len() && under_roots(l, i + 1, n as int) {
                        if under_roots(l, i as int, n as int) {
                            let k = choose|k: int| 0 <= k < r0.len() && #[trigger] r0[k].0 == n;
                            assert(r@[k].0 == n);
                        } else {
                            let t = choose|t: int|
                                0 <= t < i + 1 && #[trigger] descends_from(l, l[0].1[t] as int, n as int);
                            assert(t == i);
                            assert(below@.contains(n));
                            let k = choose|k: int| 0 <= k < below@.len() && below@[k] == n;
                            assert(r@[r0.len() + k].0 == n);
                        }
                    }
                }
            }
            i = i + 1;
        }
        proof {
            assert(pre_order_children(l, 0, i as int) =~= Seq::<usize>::empty());
            assert(r@.map_values(|e: (usize, String)| e.0) + Seq::<usize>::empty() =~= r@.map_values(
                |e: (usize, String)| e.0,
            ));
        }
        r
    }

    /// The name of the marker `id`.
    pub fn name_of(&self, id: usize) -> (r: MarkerName)
        requires
            self.wf(),
            id < self.links().len(),
        ensures
            r@ == self.name_of_view(id as int),
    {
        let chain = self.tree.ancestors(id);
        proof {
            lemma_chain(self.links(), id as int);
        }
        let ghost l = self.links();
        let ghost names = names_of(self.markers());
        let mut name: Vec<String> = Vec::new();
        let n = chain.len();
        if n > 0 {
            let mut k: usize = n - 1;
            assert(chain@[k as int] == 0);
            while k > 0
                invariant
                    0 < n == chain@.len(),
                    k < n,
                    chain@ == ancestor_chain(l, id as int),
                    chain_ok(l, chain@),
                    strings_view(name@) == path_names(l, names, chain@[k as int] as int),
                    l == self.links(),
                    names == names_of(self.markers()),
                    self.markers().len() == l.len(),
                decreases k,
            {
                k = k - 1;
                let c = chain[k];
                proof {
                    lemma_chain_step(l, names, chain@, k as int);
                }
                let part = owned(self.markers[c].name.as_str());
                let ghost before = name@;
                name.push(part);
                proof {
                    assert(strings_view(name@) =~= strings_view(before).push(part@));
                    assert(names[c as int] == self.markers()[c as int].name@);
                }
            }
        }
        let last = owned(self.markers[id].name.as_str());
        let ghost before = name@;
        name.push(last);
        proof {
            assert(strings_view(name@) =~= strings_view(before).push(last@));
            assert(names[id as int] == self.markers()[id as int].name@);
            if id == 0 {
                assert(strings_view(name@) =~= seq![names[0]]);
            } else {
                let p = chain@[0];
                assert(path_names(l, names, id as int) == path_names(l, names, p as int).push(
                    names[id as int],
                ));
            }
        }
        MarkerName(name)
    }

    /// The full identifier of marker `id`: the pack's name and the marker's.
    pub fn full_id(&self, id: usize) -> (r: FullMarkerId)
        requires
            self.wf(),
            id < self.links().len(),
        ensures
            r.pack_id.0@ == self.markers()[0].name@,
            r.marker_name@ == self.name_of_view(id as int),
    {
        FullMarkerId {
            pack_id: PackId(owned(self.markers[0].name.as_str())),
            marker_name: self.name_of(id),
        }
    }

    /// Whether `id` or a marker below it is shown on map `map_id`.
    pub fn contains_map_id(&self, id: usize, map_id: u32) -> (r: bool)
        requires
            self.wf(),
            id < self.links().len(),
        ensures
            r == exists|n: usize|
                n < self.links().len() && descends_from(self.links(), id as int, n as int)
                    && #[trigger] self.markers()[n as int].map_ids@.contains(map_id),
    {
        let order = self.tree.pre_order(id);
        let mut i: usize = 0;
        while i < order.len()
            invariant
                self.wf(),
                i <= order@.len(),
                forall|n: usize|
                    order@.contains(n) <==> (n < self.links().len() && descends_from(
                        self.links(),
                        id as int,
                        n as int,
                    )),
                forall|j: int|
                    0 <= j < i ==> !self.markers()[#[trigger] order@[j] as int].map_ids@.contains(
                        map_id,
                    ),
            decreases order@.len() - i,
        {
            let n = order[i];
            assert(order@.contains(n));
            if self.markers[n].map_ids.contains(&map_id) {
                return true;
            }
            i = i + 1;
        }
        proof {
            assert forall|n: usize|
                n < self.links().len() && descends_from(self.links(), id as int, n as int)
                    implies !#[trigger] self.markers()[n as int].map_ids@.contains(map_id) by {
                assert(order@.contains(n));
                let j = choose|j: int| 0 <= j < order@.len() && order@[j] == n;
                assert(!self.markers()[order@[j] as int].map_ids@.contains(map_id));
            }
        }
        false
    }

    /// The node that `name` designates: the root if `name` is the pack's
    /// name, otherwise the marker of that name, if any.
    pub fn find_by_name(&self, name: &MarkerName) -> (r: Option<usize>)
        requires
            self.wf(),
        ensures
            r == find_spec(self.links(), names_of(self.markers()), name@),
    {
        let order = self.tree.pre_order(0);
        let mut i: usize = 0;
        while i < order.len()
            invariant
                self.wf(),
                i <= order@.len(),
                order@.len() >= 1,
                order@[0] == 0,
                order@.no_duplicates(),
                forall|n: usize|
                    order@.contains(n) <==> (n < self.links().len() && descends_from(
                        self.links(),
                        0,
                        n as int,
                    )),
                forall|j: int|
                    0 <= j < i ==> self.name_of_view(#[trigger] order@[j] as int) != name@,
            decreases order@.len() - i,
        {
            let n = order[i];
            assert(order@.contains(n));
            let candidate = self.name_of(n);
            if names_equal(&candidate.0, &name.0) {
                proof {
                    let l = self.links();
                    let names = names_of(self.markers());
                    lemma_names_unique(l, names);
                    if n != 0 {
                        assert(i != 0);
                        assert(self.name_of_view(order@[0] as int) != name@);
                        assert(name_of_spec(l, names, n as int) == name@);
                        let m = choose|m: usize| 0 < m < l.len() && name_of_spec(l, names, m as int) == name@;
                        assert(path_names(l, names, m as int) == path_names(l, names, n as int));
                    }
                }
                return Some(n);
            }
            i = i + 1;
        }
        proof {
            assert(self.name_of_view(order@[0] as int) != name@);
            assert forall|n: usize|
                0 < n < self.links().len() implies #[trigger] name_of_spec(
                self.links(),
                names_of(self.markers()),
                n as int,
            ) != name@ by {
                lemma_descends_from_root(self.links(), n as int);
                assert(order@.contains(n));
                let j = choose|j: int| 0 <= j < order@.len() && order@[j] == n;
                assert(self.name_of_view(order@[j] as int) != name@);
            }
            assert(!exists|n: usize|
                0 < n < self.links().len() && name_of_spec(
                    self.links(),
                    names_of(self.markers()),
                    n as int,
                ) == name@);
        }
        None
    }

    /// Attaches a POI to the marker its id designates, adding its map to the
    /// marker's; a POI whose marker is unknown is dropped.
    fn attach_poi(&mut self, poi: PoiXml)
        requires
            old(self).wf(),
        ensures
            final(self).wf(),
            final(self).links() == old(self).links(),
            final(self).markers().len() == old(self).markers().len(),
            forall|k: int|
                0 <= k < old(self).markers().len() ==> ({
                    let o = #[trigger] old(self).markers()[k];
                    let m = final(self).markers()[k];
                    let hit = tag_target(old(self).links(), names_of(old(self).markers()), poi.id@)
                        == Some(k as usize);
                    &&& same_identity(m, o)
                    &&& m.pois@ == (if hit {
                        o.pois@.push(poi_of(poi))
                    } else {
                        o.pois@
                    })
                    &&& hit ==> ({
                        let q = m.pois@.last();
                        &&& q.map_id == poi.map_id
                        &&& q.xpos == poi.xpos
                        &&& q.ypos == poi.ypos
                        &&& q.zpos == poi.zpos
                        &&& q.icon_file == poi.icon_file
                    })
                    &&& m.map_ids@ == (if hit && poi.map_id is Some {
                        o.map_ids@.insert(poi.map_id->Some_0)
                    } else {
                        o.map_ids@
                    })
                    &&& m.trails@ == o.trails@
                }),
    {
        let ghost old_markers = self.markers@;
        let parts = split_on(poi.id.as_str(), '.');
        let name = MarkerName(parts);
        match self.find_by_name(&name) {
            Some(n) => {
                assert(n < self.markers@.len()) by {
                    lemma_find_in_range(self.links(), names_of(self.markers()), name@);
                }
                let PoiXml { id: _, map_id, xpos, ypos, zpos, icon_file } = poi;
                if let Some(mid) = map_id {
                    self.markers[n].map_ids.insert(mid);
                }
                self.markers[n].pois.push(Poi { map_id, xpos, ypos, zpos, icon_file });
                proof {
                    assert(names_of(self.markers@) =~= names_of(old_markers));
                }
            },
            None => {},
        }
    }

    /// Attaches a trail to the marker its id designates, when the trail's
    /// file was read: the trail's map joins the marker's, and a route is
    /// added if a texture is known, the trail's own or else the marker's.
    fn attach_trail(&mut self, trail: TrailXml, entries: &Vec<(String, TrailData)>)
        requires
            old(self).wf(),
        ensures
            final(self).wf(),
            final(self).links() == old(self).links(),
            final(self).markers().len() == old(self).markers().len(),
            forall|k: int|
                0 <= k < old(self).markers().len() ==> ({
                    let o = #[trigger] old(self).markers()[k];
                    let m = final(self).markers()[k];
                    let hit = tag_target(old(self).links(), names_of(old(self).markers()), trail.id@)
                        == Some(k as usize);
                    let d = trail_lookup(entries@, trail.trail_file@);
                    &&& same_identity(m, o)
                    &&& m.pois@ == o.pois@
                    &&& m.map_ids@ == (if hit && d is Some {
                        o.map_ids@.insert(d->Some_0.map_id)
                    } else {
                        o.map_ids@
                    })
                    &&& routes_view(m.trails@) == (if hit && route_of(
                        trail,
                        entries@,
                        opt_view(o.texture),
                    ) is Some {
                        routes_view(o.trails@).push(
                            route_of(trail, entries@, opt_view(o.texture))->Some_0,
                        )
                    } else {
                        routes_view(o.trails@)
                    })
                }),
    {
        let ghost old_markers = self.markers@;
        let found = find_trail_data(entries, trail.trail_file.as_str());
        let i = match found {
            Some(i) => i,
            None => {
                return;
            },
        };
        let parts = split_on(trail.id.as_str(), '.');
        let name = MarkerName(parts);
        let n = match self.find_by_name(&name) {
            Some(n) => n,
            None => {
                return;
            },
        };
        assert(n < self.markers@.len()) by {
            lemma_find_in_range(self.links(), names_of(self.markers()), name@);
        }
        let map_id = entries[i].1.map_id;
        self.markers[n].map_ids.insert(map_id);
        proof {
            assert(names_of(self.markers@) =~= names_of(old_markers));
        }
        let texture = match trail.texture_file {
            Some(t) => t,
            None => match &self.markers[n].texture {
                Some(t) => owned(t.as_str()),
                None => {
                    return;
                },
            },
        };
        let path = copy_path(&entries[i].1.path);
        let route = Route { map_id, path, texture_file: texture };
        let ghost before = self.markers@[n as int].trails@;
        self.markers[n].trails.push(route);
        proof {
            assert(names_of(self.markers@) =~= names_of(old_markers));
            assert(routes_view(self.markers@[n as int].trails@) =~= routes_view(before).push(
                route_view(route),
            ));
        }
    }

    /// The first child of `parent` named `name`, if any.
    fn child_named(&self, parent: usize, name: &str) -> (r: Option<usize>)
        requires
            self.wf(),
            parent < self.links().len(),
        ensures
            r == first_named(self.links()[parent as int].1, names_of(self.markers()), name@),
            r matches Some(c) ==> c < self.links().len() && self.links()[parent as int].1.contains(c),
    {
        let children = self.tree.children(parent);
        let ghost l = self.links();
        let ghost names = names_of(self.markers());
        let mut j: usize = 0;
        let mut found: Option<usize> = None;
        assert(children@.skip(0) =~= children@);
        while found.is_none() && j < children.len()
            invariant
                children@ == l[parent as int].1,
                l == self.links(),
                names == names_of(self.markers()),
                self.wf(),
                parent < l.len(),
                j <= children@.len(),
                found is None ==> first_named(children@, names, name@) == first_named(
                    children@.skip(j as int),
                    names,
                    name@,
                ),
                found matches Some(c) ==> first_named(children@, names, name@) == Some(c)
                    && c < l.len(),
            decreases children@.len() - j,
        {
            let c = children[j];
            assert(children@.skip(j as int)[0] == c);
            assert(children@.skip(j as int).drop_first() =~= children@.skip(j + 1));
            assert(l[parent as int].1[j as int] < l.len());
            assert(names[c as int] == self.markers()[c as int].name@);
            if same_text(self.markers[c].name.as_str(), name) {
                found = Some(c);
            }
            j = j + 1;
        }
        if found.is_none() {
            assert(children@.skip(j as int).len() == 0);
        } else {
            proof {
                lemma_first_named_member(children@, names, name@);
            }
        }
        found
    }
}

/// The marker that a POI or trail tag's dotted id designates.
pub open spec fn tag_target(l: Links, names: Seq<Seq<char>>, id: Seq<char>) -> Option<usize> {
    find_spec(l, names, split_spec(id, '.'))
}

/// The fields of a marker that attaching POIs and trails leaves alone.
pub open spec fn same_identity(a: Marker, b: Marker) -> bool {
    &&& a.name == b.name
    &&& a.label == b.label
    &&& a.kind == b.kind
    &&& a.depth == b.depth
    &&& a.behavior == b.behavior
    &&& a.poi_tip == b.poi_tip
    &&& a.poi_description == b.poi_description
    &&& a.icon_file == b.icon_file
    &&& a.texture == b.texture
}

/// The POI that a `<POI>` tag becomes.
pub open spec fn poi_of(p: PoiXml) -> Poi {
    Poi { map_id: p.map_id, xpos: p.xpos, ypos: p.ypos, zpos: p.zpos, icon_file: p.icon_file }
}

/// A POI attached to a marker keeps every part of its `<POI>` tag: its map
/// id, its x, y and z text and its icon file.
pub proof fn law_poi_keeps_its_tag(p: PoiXml)
    ensures
        poi_of(p).map_id == p.map_id,
        poi_of(p).xpos == p.xpos,
        poi_of(p).ypos == p.ypos,
        poi_of(p).zpos == p.zpos,
        poi_of(p).icon_file == p.icon_file,
{
}

/// A route as values: its map, its points and its texture.
pub open spec fn route_view(r: Route) -> (u32, Seq<[u32; 3]>, Seq<char>) {
    (r.map_id, r.path@, r.texture_file@)
}

/// The routes as values, in order.
pub open spec fn routes_view(rs: Seq<Route>) -> Seq<(u32, Seq<[u32; 3]>, Seq<char>)> {
    rs.map_values(|r: Route| route_view(r))
}

/// The route that a `<Trail>` tag gives a marker whose own texture is
/// `texture`: none when its trail file was not read or no texture is known.
pub open spec fn route_of(
    t: TrailXml,
    entries: Seq<(String, TrailData)>,
    texture: Option<Seq<char>>,
) -> Option<(u32, Seq<[u32; 3]>, Seq<char>)> {
    let tex = if t.texture_file is Some {
        opt_view(t.texture_file)
    } else {
        texture
    };
    match trail_lookup(entries, t.trail_file@) {
        Some(d) => match tex {
            Some(x) => Some((d.map_id, d.path@, x)),
            None => None,
        },
        None => None,
    }
}

/// The POIs that the tags attach to marker `k`, in order.
pub open spec fn pois_for(tags: Seq<PoiXml>, l: Links, names: Seq<Seq<char>>, k: int) -> Seq<Poi>
    decreases tags.len(),
{
    if tags.len() == 0 {
        Seq::<Poi>::empty()
    } else {
        let rest = pois_for(tags.drop_last(), l, names, k);
        if tag_target(l, names, tags.last().id@) == Some(k as usize) {
            rest.push(poi_of(tags.last()))
        } else {
            rest
        }
    }
}

/// The map ids that the POI tags add to marker `k`.
pub open spec fn poi_map_ids(tags: Seq<PoiXml>, l: Links, names: Seq<Seq<char>>, k: int) -> Set<u32>
    decreases tags.len(),
{
    if tags.len() == 0 {
        Set::<u32>::empty()
    } else {
        let rest = poi_map_ids(tags.drop_last(), l, names, k);
        let t = tags.last();
        if tag_target(l, names, t.id@) == Some(k as usize) && t.map_id is Some {
            rest.insert(t.map_id->Some_0)
        } else {
            rest
        }
    }
}

/// The map ids that the trail tags add to marker `k`: the map of each trail
/// whose file was read, whether or not it has a texture.
pub open spec fn trail_map_ids(
    tags: Seq<TrailXml>,
    entries: Seq<(String, TrailData)>,
    l: Links,
    names: Seq<Seq<char>>,
    k: int,
) -> Set<u32>
    decreases tags.len(),
{
    if tags.len() == 0 {
        Set::<u32>::empty()
    } else {
        let rest = trail_map_ids(tags.drop_last(), entries, l, names, k);
        let t = tags.last();
        match trail_lookup(entries, t.trail_file@) {
            Some(d) => if tag_target(l, names, t.id@) == Some(k as usize) {
                rest.insert(d.map_id)
            } else {
                rest
            },
            None => rest,
        }
    }
}

/// The routes that the trail tags attach to marker `k`, in order.
pub open spec fn routes_for(
    tags: Seq<TrailXml>,
    entries: Seq<(String, TrailData)>,
    l: Links,
    names: Seq<Seq<char>>,
    k: int,
    texture: Option<Seq<char>>,
) -> Seq<(u32, Seq<[u32; 3]>, Seq<char>)>
    decreases tags.len(),
{
    if tags.len() == 0 {
        Seq::empty()
    } else {
        let rest = routes_for(tags.drop_last(), entries, l, names, k, texture);
        let t = tags.last();
        if tag_target(l, names, t.id@) == Some(k as usize) {
            match route_of(t, entries, texture) {
                Some(r) => rest.push(r),
                None => rest,
            }
        } else {
            rest
        }
    }
}

/// The index of the entry that `trail_lookup` finds, if any.
fn find_trail_data(entries: &Vec<(String, TrailData)>, key: &str) -> (r: Option<usize>)
    ensures
        match r {
            Some(i) => i < entries@.len() && trail_lookup(entries@, key@) == Some(
                entries@[i as int].1,
            ),
            None => trail_lookup(entries@, key@) is None,
        },
{
    let mut i: usize = entries.len();
    assert(entries@.take(i as int) =~= entries@);
    while i > 0
        invariant
            i <= entries@.len(),
            trail_lookup(entries@, key@) == trail_lookup(entries@.take(i as int), key@),
        decreases i,
    {
        i = i - 1;
        let ghost t = entries@.take(i + 1);
        assert(t.last() == entries@[i as int]);
        assert(t.drop_last() =~= entries@.take(i as int));
        if same_text(entries[i].0.as_str(), key) {
            return Some(i);
        }
    }
    None
}

/// A copy of the points of a trail.
fn copy_path(p: &Vec<[u32; 3]>) -> (r: Vec<[u32; 3]>)
    ensures
        r@ == p@,
{
    let mut r: Vec<[u32; 3]> = Vec::new();
    let mut i: usize = 0;
    while i < p.len()
        invariant
            i <= p@.len(),
            r@ == p@.take(i as int),
        decreases p@.len() - i,
    {
        let x: [u32; 3] = p[i];
        r.push(x);
        i = i + 1;
        assert(r@ =~= p@.take(i as int));
    }
    assert(p@.take(p@.len() as int) =~= p@);
    r
}

/// The nodes reached from the root by following, part after part, the first
/// child with each name; `None` as soon as a part names no child.
pub open spec fn walk_names(l: Links, names: Seq<Seq<char>>, parts: Seq<Seq<char>>) -> Option<
    Seq<usize>,
>
    decreases parts.len(),
{
    if parts.len() == 0 {
        Some(Seq::<usize>::empty())
    } else {
        match walk_names(l, names, parts.drop_last()) {
            Some(p) => {
                let cur: usize = if p.len() == 0 {
                    0
                } else {
                    p.last()
                };
                match first_named(l[cur as int].1, names, parts.last()) {
                    Some(c) => Some(p.push(c)),
                    None => None,
                }
            },
            None => None,
        }
    }
}

impl MarkerPack {
    /// Follows the dotted `id` down from the root, part by part, and gives
    /// the nodes passed, or `None` when a part names no child.
    fn walk(&self, id: &str) -> (r: Option<Vec<usize>>)
        requires
            self.wf(),
        ensures
            match r {
                Some(p) => walk_names(
                    self.links(),
                    names_of(self.markers()),
                    split_spec(id@, '.'),
                ) == Some(p@),
                None => walk_names(
                    self.links(),
                    names_of(self.markers()),
                    split_spec(id@, '.'),
                ) is None,
            },
    {
        let parts = split_on(id, '.');
        let ghost l = self.links();
        let ghost names = names_of(self.markers());
        let ghost all = strings_view(parts@);
        let mut path: Vec<usize> = Vec::new();
        let mut cur: usize = 0;
        let mut i: usize = 0;
        assert(all.take(0) =~= Seq::<Seq<char>>::empty());
        while i < parts.len()
            invariant
                self.wf(),
                l == self.links(),
                names == names_of(self.markers()),
                all == strings_view(parts@),
                all == split_spec(id@, '.'),
                i <= parts@.len(),
                walk_names(l, names, all.take(i as int)) == Some(path@),
                cur < l.len(),
                cur == (if path@.len() == 0 {
                    0
                } else {
                    path@.last()
                }),
            decreases parts@.len() - i,
        {
            let ghost t = all.take(i + 1);
            assert(t.drop_last() =~= all.take(i as int));
            assert(t.last() == parts@[i as int]@);
            match self.child_named(cur, parts[i].as_str()) {
                Some(c) => {
                    path.push(c);
                    cur = c;
                },
                None => {
                    proof {
                        assert(walk_names(l, names, t) is None);
                        lemma_walk_none_extends(l, names, all, i + 1, all.len() as int);
                        assert(all.take(all.len() as int) =~= all);
                    }
                    return None;
                },
            }
            i = i + 1;
        }
        assert(all.take(parts@.len() as int) =~= all);
        Some(path)
    }
}

impl MarkerPath {
    /// The nodes along the dotted `id`, from the top of the pack down, or
    /// `None` when some part of it names no marker there.
    pub fn from_string(pack: &MarkerPack, id: &str) -> (r: Option<MarkerPath>)
        requires
            pack.wf(),
        ensures
            match r {
                Some(p) => walk_names(
                    pack.links(),
                    names_of(pack.markers()),
                    split_spec(id@, '.'),
                ) == Some(p.0@),
                None => walk_names(
                    pack.links(),
                    names_of(pack.markers()),
                    split_spec(id@, '.'),
                ) is None,
            },
    {
        match pack.walk(id) {
            Some(p) => Some(MarkerPath(p)),
            None => None,
        }
    }
}

impl MarkerName {
    /// When the dotted `id` leads down the pack, a name made of its first
    /// part, repeated once for every part; `None` when some part names no
    /// marker there.
    pub fn from_string(pack: &MarkerPack, id: &str) -> (r: Option<MarkerName>)
        requires
            pack.wf(),
        ensures
            match r {
                Some(n) => {
                    let parts = split_spec(id@, '.');
                    &&& walk_names(pack.links(), names_of(pack.markers()), parts) is Some
                    &&& n@ == Seq::new(parts.len(), |k: int| parts[0])
                },
                None => walk_names(
                    pack.links(),
                    names_of(pack.markers()),
                    split_spec(id@, '.'),
                ) is None,
            },
    {
        let parts = split_on(id, '.');
        proof {
            lemma_split_nonempty(id@, '.');
        }
        match pack.walk(id) {
            Some(p) => {
                let ghost all = strings_view(parts@);
                let mut name: Vec<String> = Vec::new();
                let mut i: usize = 0;
                while i < parts.len()
                    invariant
                        all == strings_view(parts@),
                        all.len() >= 1,
                        i <= parts@.len(),
                        strings_view(name@) == Seq::new(i as nat, |k: int| all[0]),
                    decreases parts@.len() - i,
                {
                    let ghost before = name@;
                    let first = owned(parts[0].as_str());
                    name.push(first);
                    assert(name@ =~= before.push(first));
                    assert(strings_view(name@) =~= strings_view(before).push(first@));
                    assert(strings_view(name@) =~= Seq::new((i + 1) as nat, |k: int| all[0]));
                    i = i + 1;
                }
                Some(MarkerName(name))
            },
            None => None,
        }
    }
}

/// The first of the nodes `cs` whose name is `name`.
pub open spec fn first_named(cs: Seq<usize>, names: Seq<Seq<char>>, name: Seq<char>) -> Option<usize>
    decreases cs.len(),
{
    if cs.len() == 0 {
        None
    } else if names[cs[0] as int] == name {
        Some(cs[0])
    } else {
        first_named(cs.drop_first(), names, name)
    }
}

/// The trail data most recently stored under `key`.
pub open spec fn trail_lookup(entries: Seq<(String, TrailData)>, key: Seq<char>) -> Option<TrailData>
    decreases entries.len(),
{
    if entries.len() == 0 {
        None
    } else if entries.last().0@ == key {
        Some(entries.last().1)
    } else {
        trail_lookup(entries.drop_last(), key)
    }
}

/// A marker made from a `<MarkerCategory>` tag, with nothing attached yet.
pub open spec fn marker_from_xml(m: Marker, xml: MarkerXml) -> bool {
    &&& m.name == xml.name
    &&& m.label == xml.label
    &&& m.kind == xml.kind
    &&& m.depth == xml.depth
    &&& m.behavior == xml.behavior
    &&& m.poi_tip == xml.poi_tip
    &&& m.poi_description == xml.poi_description
    &&& m.map_ids@ == xml.map_ids@
    &&& m.icon_file == xml.icon_file
    &&& m.texture == xml.texture
    &&& m.trails@.len() == 0
    &&& m.pois@.len() == 0
}

/// The number that a marker named `name` gets under the current parent: the
/// first child of that name if there is one, otherwise the next number.
pub open spec fn marker_id_for(b: MarkerPackBuilder, name: Seq<char>) -> usize {
    let parent = b.parents().last();
    let l = b.pack_view().links();
    match first_named(l[parent as int].1, names_of(b.pack_view().markers()), name) {
        Some(c) => c,
        None => l.len() as usize,
    }
}

/// `b1` is `b0` after a `<MarkerCategory>` tag: the marker is found under the
/// current parent or appended to it, and becomes the current parent.
pub open spec fn marker_added(b0: MarkerPackBuilder, b1: MarkerPackBuilder, xml: MarkerXml) -> bool {
    let parent = b0.parents().last();
    let l = b0.pack_view().links();
    let names = names_of(b0.pack_view().markers());
    let id = marker_id_for(b0, xml.name@);
    &&& match first_named(l[parent as int].1, names, xml.name@) {
        Some(c) => b1.pack_view() == b0.pack_view(),
        None => {
            &&& b1.pack_view().links() == l.update(
                parent as int,
                (l[parent as int].0, l[parent as int].1.push(id)),
            ).push((Some(parent), Seq::<usize>::empty()))
            &&& b1.pack_view().markers().len() == l.len() + 1
            &&& b1.pack_view().markers().drop_last() == b0.pack_view().markers()
            &&& marker_from_xml(b1.pack_view().markers().last(), xml)
        },
    }
    &&& b1.parents() == b0.parents().push(id)
    &&& b1.poi_tags() == b0.poi_tags()
    &&& b1.trail_tags() == b0.trail_tags()
    &&& b1.trail_entries() == b0.trail_entries()
}

/// `b` is a new builder for a pack named `pack_id`: only its root, named
/// after the pack, with nothing attached, and no tags.
pub open spec fn fresh_builder(pack_id: Seq<char>, b: MarkerPackBuilder) -> bool {
    &&& b.wf()
    &&& b.pack_view().links() == seq![(None::<usize>, Seq::<usize>::empty())]
    &&& b.pack_view().markers().len() == 1
    &&& b.pack_view().markers()[0].name@ == pack_id
    &&& b.pack_view().markers()[0].label@ == Seq::<char>::empty()
    &&& b.pack_view().markers()[0].kind == MarkerKind::Category
    &&& b.pack_view().markers()[0].map_ids@ == Set::<u32>::empty()
    &&& b.pack_view().markers()[0].trails@.len() == 0
    &&& b.pack_view().markers()[0].pois@.len() == 0
    &&& b.parents() == seq![0usize]
    &&& b.poi_tags().len() == 0
    &&& b.trail_tags().len() == 0
    &&& b.trail_entries().len() == 0
}

/// `r` is the pack that `b` builds: the same tree, each marker with the
/// POIs, map ids and routes that the tags attach to it.
pub open spec fn built_from(b: MarkerPackBuilder, r: MarkerPack) -> bool {
    &&& r.wf()
    &&& r.links() == b.pack_view().links()
    &&& r.markers().len() == b.pack_view().markers().len()
    &&& forall|k: int|
        0 <= k < r.markers().len() ==> ({
            let o = #[trigger] b.pack_view().markers()[k];
            let m = r.markers()[k];
            let l = b.pack_view().links();
            let names = names_of(b.pack_view().markers());
            &&& same_identity(m, o)
            &&& m.pois@ == o.pois@ + pois_for(b.poi_tags(), l, names, k)
            &&& m.map_ids@ == o.map_ids@ + poi_map_ids(b.poi_tags(), l, names, k) + trail_map_ids(
                b.trail_tags(),
                b.trail_entries(),
                l,
                names,
                k,
            )
            &&& routes_view(m.trails@) == routes_view(o.trails@) + routes_for(
                b.trail_tags(),
                b.trail_entries(),
                l,
                names,
                k,
                opt_view(o.texture),
            )
        })
}

/// Builds a marker pack from the tags of its XML files, in the order they
/// are read. POIs and trails are attached to their markers by `build`, once
/// all markers are known.
pub struct MarkerPackBuilder {
    pub pack: MarkerPack,
    parents: Vec<usize>,
    poi_tags: Vec<PoiXml>,
    trail_tags: Vec<TrailXml>,
    trail_data: Vec<(String, TrailData)>,
}

impl MarkerPackBuilder {
    /// The pack built so far.
    pub closed spec fn pack_view(&self) -> MarkerPack {
        self.pack
    }

    /// The markers from the root down to the one that new markers go under.
    pub closed spec fn parents(&self) -> Seq<usize> {
        self.parents@
    }

    /// The POI tags read so far.
    pub closed spec fn poi_tags(&self) -> Seq<PoiXml> {
        self.poi_tags@
    }

    /// The trail tags read so far.
    pub closed spec fn trail_tags(&self) -> Seq<TrailXml> {
        self.trail_tags@
    }

    /// The trail files read so far, by file name, latest last.
    pub closed spec fn trail_entries(&self) -> Seq<(String, TrailData)> {
        self.trail_data@
    }

    /// The pack is well formed and the parents lead from the root down.
    pub open spec fn wf(&self) -> bool {
        &&& self.pack_view().wf()
        &&& self.parents().len() >= 1
        &&& self.parents()[0] == 0
        &&& forall|j: int|
            0 <= j < self.parents().len() ==> #[trigger] self.parents()[j]
                < self.pack_view().links().len()
    }

    /// The pack built so far.
    pub fn pack(&self) -> (r: &MarkerPack)
        ensures
            *r == self.pack_view(),
    {
        &self.pack
    }

    /// A builder for a pack named `pack_id`: its root marker only.
    pub fn new(pack_id: String) -> (b: MarkerPackBuilder)
        ensures
            fresh_builder(pack_id@, b),
    {
        let tree = PackTree::new();
        let root = Marker {
            name: pack_id,
            label: String::new(),
            kind: MarkerKind::Category,
            depth: 0,
            behavior: None,
            poi_tip: None,
            poi_description: None,
            map_ids: HashSet::new(),
            icon_file: None,
            texture: None,
            trails: Vec::new(),
            pois: Vec::new(),
        };
        let mut markers = Vec::new();
        markers.push(root);
        let mut parents = Vec::new();
        parents.push(0usize);
        let b = MarkerPackBuilder {
            pack: MarkerPack { tree, markers },
            parents,
            poi_tags: Vec::new(),
            trail_tags: Vec::new(),
            trail_data: Vec::new(),
        };
        assert(b.pack_view().links()[0].1.len() == 0);
        b
    }

    /// Keeps a POI tag until `build`.
    pub fn add_poi(&mut self, poi: PoiXml)
        requires
            old(self).wf(),
        ensures
            final(self).wf(),
            final(self).pack_view() == old(self).pack_view(),
            final(self).parents() == old(self).parents(),
            final(self).poi_tags() == old(self).poi_tags().push(poi),
            final(self).trail_tags() == old(self).trail_tags(),
            final(self).trail_entries() == old(self).trail_entries(),
    {
        self.poi_tags.push(poi);
    }

    /// Keeps a trail tag until `build`.
    pub fn add_trail_tag(&mut self, trail: TrailXml)
        requires
            old(self).wf(),
        ensures
            final(self).wf(),
            final(self).pack_view() == old(self).pack_view(),
            final(self).parents() == old(self).parents(),
            final(self).poi_tags() == old(self).poi_tags(),
            final(self).trail_tags() == old(self).trail_tags().push(trail),
            final(self).trail_entries() == old(self).trail_entries(),
    {
        self.trail_tags.push(trail);
    }

    /// Keeps the data of a trail file under its path; a later file of the
    /// same path replaces an earlier one.
    pub fn add_trail_data(&mut self, file_path: String, data: TrailData)
        requires
            old(self).wf(),
        ensures
            final(self).wf(),
            final(self).pack_view() == old(self).pack_view(),
            final(self).parents() == old(self).parents(),
            final(self).poi_tags() == old(self).poi_tags(),
            final(self).trail_tags() == old(self).trail_tags(),
            final(self).trail_entries() == old(self).trail_entries().push((file_path, data)),
    {
        self.trail_data.push((file_path, data));
    }

    /// Goes back to the root: the next markers are top-level ones.
    pub fn new_root(&mut self)
        requires
            old(self).wf(),
        ensures
            final(self).wf(),
            final(self).pack_view() == old(self).pack_view(),
            final(self).parents() == seq![0usize],
            final(self).poi_tags() == old(self).poi_tags(),
            final(self).trail_tags() == old(self).trail_tags(),
            final(self).trail_entries() == old(self).trail_entries(),
    {
        self.parents.clear();
        self.parents.push(0);
    }

    /// Goes up one level, never above the root.
    pub fn up(&mut self)
        requires
            old(self).wf(),
        ensures
            final(self).wf(),
            final(self).pack_view() == old(self).pack_view(),
            old(self).parents().len() > 1 ==> final(self).parents() == old(self).parents().drop_last(),
            old(self).parents().len() <= 1 ==> final(self).parents() == old(self).parents(),
            final(self).poi_tags() == old(self).poi_tags(),
            final(self).trail_tags() == old(self).trail_tags(),
            final(self).trail_entries() == old(self).trail_entries(),
    {
        if self.parents.len() > 1 {
            self.parents.pop();
        }
    }

    /// Adds a marker under the current parent, unless the parent already has
    /// a child of that name, and makes it the current parent. Returns its
    /// number.
    pub fn add_marker(&mut self, xml: MarkerXml) -> (id: usize)
        requires
            old(self).wf(),
            old(self).pack_view().links().len() < usize::MAX,
        ensures
            final(self).wf(),
            id == marker_id_for(*old(self), xml.name@),
            marker_added(*old(self), *final(self), xml),
    {
        let parent = self.parents[self.parents.len() - 1];
        assert(self.parents@.last() == parent);
        let ghost l = self.pack.links();
        let ghost names = names_of(self.pack.markers());
        let found = self.pack.child_named(parent, xml.name.as_str());
        let id = match found {
            Some(c) => c,
            None => {
                proof {
                    lemma_first_named_none(l[parent as int].1, names, xml.name@);
                    lemma_append_wf(l, parent);
                }
                let id = self.pack.tree.append(parent);
                let m = Marker {
                    name: xml.name,
                    label: xml.label,
                    kind: xml.kind,
                    depth: xml.depth,
                    behavior: xml.behavior,
                    poi_tip: xml.poi_tip,
                    poi_description: xml.poi_description,
                    map_ids: xml.map_ids,
                    icon_file: xml.icon_file,
                    texture: xml.texture,
                    trails: Vec::new(),
                    pois: Vec::new(),
                };
                let ghost old_markers = self.pack.markers@;
                self.pack.markers.push(m);
                proof {
                    assert(self.pack.markers@.drop_last() =~= old_markers);
                    let nl = self.pack.links();
                    let nn = names_of(self.pack.markers());
                    assert(nn =~= names.push(xml.name@));
                    assert forall|p: int, a: int, b: int|
                        #![trigger nl[p].1[a], nl[p].1[b]]
                        0 <= p < nl.len() && 0 <= a < b < nl[p].1.len() implies nn[nl[p].1[a] as int]
                        != nn[nl[p].1[b] as int] by {
                        if p < l.len() && b < l[p].1.len() {
                            assert(nl[p].1[a] == l[p].1[a]);
                            assert(nl[p].1[b] == l[p].1[b]);
                            assert(l[p].1[a] < l.len());
                            assert(l[p].1[b] < l.len());
                            assert(names[l[p].1[a] as int] != names[l[p].1[b] as int]);
                        } else if p < l.len() {
                            assert(p == parent);
                            assert(nl[p].1[b] == id);
                            assert(nl[p].1[a] == l[p].1[a]);
                            assert(l[p].1[a] < l.len());
                            assert(l[parent as int].1.contains(l[p].1[a]));
                            assert(names[l[p].1[a] as int] != xml.name@);
                        }
                    }
                }
                id
            },
        };
        self.parents.push(id);
        id
    }

    /// Attaches the POIs and trails read so far to their markers, in the
    /// order they were read, and gives the finished pack. A tag whose marker
    /// is unknown, or whose trail file was not read, is dropped.
    pub fn build(self) -> (r: MarkerPack)
        requires
            self.wf(),
        ensures
            built_from(self, r),
    {
        let MarkerPackBuilder { mut pack, parents: _, mut poi_tags, mut trail_tags, trail_data } =
            self;
        let ghost l = pack.links();
        let ghost names = names_of(pack.markers());
        let ghost orig = pack.markers();
        let ghost all_pois = poi_tags@;
        let ghost all_trails = trail_tags@;
        let ghost mut i: int = 0;
        assert(all_pois.skip(0) =~= all_pois);
        while poi_tags.len() > 0
            invariant
                pack.wf(),
                pack.links() == l,
                names_of(pack.markers()) == names,
                pack.markers().len() == orig.len(),
                0 <= i <= all_pois.len(),
                poi_tags@ == all_pois.skip(i),
                forall|k: int|
                    0 <= k < orig.len() ==> ({
                        let o = #[trigger] orig[k];
                        let m = pack.markers()[k];
                        &&& same_identity(m, o)
                        &&& m.pois@ == o.pois@ + pois_for(all_pois.take(i), l, names, k)
                        &&& m.map_ids@ == o.map_ids@ + poi_map_ids(all_pois.take(i), l, names, k)
                        &&& m.trails@ == o.trails@
                    }),
            decreases poi_tags@.len(),
        {
            let poi = poi_tags.remove(0);
            let ghost before = pack.markers();
            pack.attach_poi(poi);
            proof {
                assert(all_pois[i] == poi);
                let t = all_pois.take(i + 1);
                assert(t.drop_last() =~= all_pois.take(i));
                assert(t.last() == poi);
                assert(poi_tags@ =~= all_pois.skip(i + 1));
                assert forall|k: int| 0 <= k < orig.len() implies ({
                    let o = #[trigger] orig[k];
                    let m = pack.markers()[k];
                    &&& same_identity(m, o)
                    &&& m.pois@ == o.pois@ + pois_for(t, l, names, k)
                    &&& m.map_ids@ == o.map_ids@ + poi_map_ids(t, l, names, k)
                    &&& m.trails@ == o.trails@
                }) by {
                    let o = orig[k];
                    let b = before[k];
                    let m = pack.markers()[k];
                    let p0 = pois_for(all_pois.take(i), l, names, k);
                    let s0 = poi_map_ids(all_pois.take(i), l, names, k);
                    if tag_target(l, names, poi.id@) == Some(k as usize) {
                        assert(m.pois@ =~= o.pois@ + p0.push(poi_of(poi)));
                        if poi.map_id is Some {
                            assert(m.map_ids@ =~= o.map_ids@ + s0.insert(poi.map_id->Some_0));
                        }
                    }
                }
                i = i + 1;
            }
        }
        assert(all_pois.take(i) =~= all_pois);
        let ghost mid = pack.markers();
        let ghost mut j: int = 0;
        let ghost entries = trail_data@;
        assert(all_trails.skip(0) =~= all_trails);
        while trail_tags.len() > 0
            invariant
                pack.wf(),
                pack.links() == l,
                names_of(pack.markers()) == names,
                pack.markers().len() == orig.len(),
                0 <= j <= all_trails.len(),
                trail_tags@ == all_trails.skip(j),
                trail_data@ == entries,
                forall|k: int|
                    0 <= k < orig.len() ==> ({
                        let o = #[trigger] mid[k];
                        let m = pack.markers()[k];
                        &&& same_identity(m, o)
                        &&& m.pois@ == o.pois@
                        &&& m.map_ids@ == o.map_ids@ + trail_map_ids(
                            all_trails.take(j),
                            entries,
                            l,
                            names,
                            k,
                        )
                        &&& routes_view(m.trails@) == routes_view(o.trails@) + routes_for(
                            all_trails.take(j),
                            entries,
                            l,
                            names,
                            k,
                            opt_view(o.texture),
                        )
                    }),
            decreases trail_tags@.len(),
        {
            let trail = trail_tags.remove(0);
            let ghost before = pack.markers();
            pack.attach_trail(trail, &trail_data);
            proof {
                assert(all_trails[j] == trail);
                let t = all_trails.take(j + 1);
                assert(t.drop_last() =~= all_trails.take(j));
                assert(t.last() == trail);
                assert(trail_tags@ =~= all_trails.skip(j + 1));
                assert forall|k: int| 0 <= k < orig.len() implies ({
                    let o = #[trigger] mid[k];
                    let m = pack.markers()[k];
                    &&& same_identity(m, o)
                    &&& m.pois@ == o.pois@
                    &&& m.map_ids@ == o.map_ids@ + trail_map_ids(t, entries, l, names, k)
                    &&& routes_view(m.trails@) == routes_view(o.trails@) + routes_for(
                        t,
                        entries,
                        l,
                        names,
                        k,
                        opt_view(o.texture),
                    )
                }) by {
                    let o = mid[k];
                    let m = pack.markers()[k];
                    let s0 = trail_map_ids(all_trails.take(j), entries, l, names, k);
                    let r0 = routes_for(all_trails.take(j), entries, l, names, k, opt_view(o.texture));
                    assert(before[k].texture == o.texture);
                    if tag_target(l, names, trail.id@) == Some(k as usize) {
                        if trail_lookup(entries, trail.trail_file@) is Some {
                            assert(m.map_ids@ =~= o.map_ids@ + s0.insert(
                                trail_lookup(entries, trail.trail_file@)->Some_0.map_id,
                            ));
                        }
                        if route_of(trail, entries, opt_view(o.texture)) is Some {
                            assert(routes_view(m.trails@) =~= routes_view(o.trails@) + r0.push(
                                route_of(trail, entries, opt_view(o.texture))->Some_0,
                            ));
                        }
                    }
                }
                j = j + 1;
            }
        }
        assert(all_trails.take(j) =~= all_trails);
        proof {
            assert forall|k: int| 0 <= k < orig.len() implies ({
                let o = #[trigger] orig[k];
                let m = pack.markers()[k];
                &&& same_identity(m, o)
                &&& m.pois@ == o.pois@ + pois_for(all_pois, l, names, k)
                &&& m.map_ids@ == o.map_ids@ + poi_map_ids(all_pois, l, names, k) + trail_map_ids(
                    all_trails,
                    entries,
                    l,
                    names,
                    k,
                )
                &&& routes_view(m.trails@) == routes_view(o.trails@) + routes_for(
                    all_trails,
                    entries,
                    l,
                    names,
                    k,
                    opt_view(o.texture),
                )
            }) by {
                assert(mid[k].trails@ == orig[k].trails@);
                assert(mid[k].texture == orig[k].texture);
            }
        }
        pack
    }
}

/// What `first_named` finds is one of the nodes.
pub proof fn lemma_first_named_member(cs: Seq<usize>, names: Seq<Seq<char>>, name: Seq<char>)
    ensures
        first_named(cs, names, name) matches Some(c) ==> cs.contains(c),
    decreases cs.len(),
{
    if cs.len() > 0 && names[cs[0] as int] != name {
        lemma_first_named_member(cs.drop_first(), names, name);
        if first_named(cs, names, name) is Some {
            let c = first_named(cs, names, name)->Some_0;
            let k = choose|k: int| 0 <= k < cs.drop_first().len() && cs.drop_first()[k] == c;
            assert(cs[k + 1] == c);
        }
    } else if cs.len() > 0 {
        assert(cs[0] == cs[0]);
    }
}

/// Once a prefix of the parts leads nowhere, every longer prefix does too.
pub proof fn lemma_walk_none_extends(
    l: Links,
    names: Seq<Seq<char>>,
    all: Seq<Seq<char>>,
    j: int,
    m: int,
)
    requires
        0 <= j <= m <= all.len(),
        walk_names(l, names, all.take(j)) is None,
    ensures
        walk_names(l, names, all.take(m)) is None,
    decreases m - j,
{
    if m > j {
        lemma_walk_none_extends(l, names, all, j, m - 1);
        assert(all.take(m).drop_last() =~= all.take(m - 1));
    }
}

/// When no node of `cs` has the name, none of them does.
pub proof fn lemma_first_named_none(cs: Seq<usize>, names: Seq<Seq<char>>, name: Seq<char>)
    requires
        first_named(cs, names, name) is None,
    ensures
        forall|c: usize| cs.contains(c) ==> names[c as int] != name,
    decreases cs.len(),
{
    if cs.len() > 0 {
        lemma_first_named_none(cs.drop_first(), names, name);
        assert forall|c: usize| cs.contains(c) implies names[c as int] != name by {
            let j = choose|j: int| 0 <= j < cs.len() && cs[j] == c;
            if j > 0 {
                assert(cs.drop_first()[j - 1] == c);
            }
        }
    }
}

/// Facts about the ancestors of a node in a well-formed tree: they lead from
/// its parent up to the root, each the parent of the one before.
pub proof fn lemma_chain(l: Links, i: int)
    requires
        links_wf(l),
        0 <= i < l.len(),
    ensures
        i == 0 ==> ancestor_chain(l, i).len() == 0,
        i > 0 ==> ({
            let c = ancestor_chain(l, i);
            &&& c.len() >= 1
            &&& c.last() == 0
            &&& l[i].0 == Some(c[0])
            &&& c[0] < i
        }),
        forall|j: int| 0 <= j < ancestor_chain(l, i).len() ==> #[trigger] ancestor_chain(l, i)[j] < l.len(),
        forall|j: int|
            0 <= j < ancestor_chain(l, i).len() - 1 ==> ancestor_chain(l, i)[j] > 0 && l[
                #[trigger] ancestor_chain(l, i)[j] as int
            ].0 == Some(ancestor_chain(l, i)[j + 1]) && ancestor_chain(l, i)[j + 1]
                < ancestor_chain(l, i)[j],
    decreases i,
{
    if i > 0 {
        assert(l[i].0 is Some);
        let p = l[i].0->Some_0;
        lemma_chain(l, p as int);
        let c = ancestor_chain(l, i);
        let cp = ancestor_chain(l, p as int);
        assert(c == seq![p] + cp);
        assert forall|j: int| 0 <= j < c.len() implies #[trigger] c[j] < l.len() by {
            if j > 0 {
                assert(c[j] == cp[j - 1]);
            }
        }
        assert forall|j: int| 0 <= j < c.len() - 1 implies c[j] > 0 && l[#[trigger] c[j] as int].0
            == Some(c[j + 1]) && c[j + 1] < c[j] by {
            if j == 0 {
                assert(c[0] == p);
                if p == 0 {
                    assert(cp.len() == 0);
                }
                assert(c[1] == cp[0]);
            } else {
                assert(c[j] == cp[j - 1]);
                assert(c[j + 1] == cp[j]);
            }
        }
        if p == 0 {
            assert(c.last() == 0);
        } else {
            assert(c.last() == cp.last());
        }
    }
}

/// Consecutive ancestors are each other's parents, all below the root but the last.
pub open spec fn chain_ok(l: Links, c: Seq<usize>) -> bool {
    &&& forall|j: int| 0 <= j < c.len() ==> #[trigger] c[j] < l.len()
    &&& forall|j: int|
        0 <= j < c.len() - 1 ==> c[j] > 0 && l[#[trigger] c[j] as int].0 == Some(c[j + 1]) && c[j
            + 1] < c[j]
}

proof fn lemma_chain_step(l: Links, names: Seq<Seq<char>>, c: Seq<usize>, k: int)
    requires
        chain_ok(l, c),
        0 <= k < c.len() - 1,
    ensures
        path_names(l, names, c[k] as int) == path_names(l, names, c[k + 1] as int).push(
            names[c[k] as int],
        ),
{
    assert(c[k] > 0 && l[c[k] as int].0 == Some(c[k + 1]) && c[k + 1] < c[k]);
    assert(c[k] < l.len());
}

/// Every node lies below the root.
pub proof fn lemma_descends_from_root(l: Links, n: int)
    requires
        links_wf(l),
        0 <= n < l.len(),
    ensures
        descends_from(l, 0, n),
    decreases n,
{
    if n > 0 {
        let p = l[n].0->Some_0;
        lemma_descends_from_root(l, p as int);
    }
}

/// Nodes below the root have non-empty paths.
pub proof fn lemma_path_nonempty(l: Links, names: Seq<Seq<char>>, i: int)
    requires
        links_wf(l),
        0 < i < l.len(),
    ensures
        path_names(l, names, i).len() >= 1,
        path_names(l, names, i).last() == names[i],
{
    let p = l[i].0->Some_0;
    assert(path_names(l, names, i) == path_names(l, names, p as int).push(names[i]));
}

/// In a tree whose siblings have distinct names, no two nodes below the root
/// have the same name.
pub proof fn lemma_names_unique(l: Links, names: Seq<Seq<char>>)
    requires
        links_wf(l),
        siblings_distinct(l, names),
    ensures
        forall|m: int, n: int|
            0 < m < l.len() && 0 < n < l.len() && #[trigger] path_names(l, names, m)
                == #[trigger] path_names(l, names, n) ==> m == n,
{
    assert forall|m: int, n: int|
        0 < m < l.len() && 0 < n < l.len() && #[trigger] path_names(l, names, m)
            == #[trigger] path_names(l, names, n) implies m == n by {
        lemma_names_unique_at(l, names, m, n);
    }
}

proof fn lemma_names_unique_at(l: Links, names: Seq<Seq<char>>, m: int, n: int)
    requires
        links_wf(l),
        siblings_distinct(l, names),
        0 < m < l.len(),
        0 < n < l.len(),
        path_names(l, names, m) == path_names(l, names, n),
    ensures
        m == n,
    decreases m,
{
    let pm = l[m].0->Some_0;
    let pn = l[n].0->Some_0;
    let a = path_names(l, names, pm as int);
    let b = path_names(l, names, pn as int);
    assert(path_names(l, names, m) == a.push(names[m]));
    assert(path_names(l, names, n) == b.push(names[n]));
    assert(a =~= path_names(l, names, m).drop_last());
    assert(b =~= path_names(l, names, n).drop_last());
    assert(path_names(l, names, m).last() == names[m]);
    assert(path_names(l, names, n).last() == names[n]);
    assert(names[m] == names[n]);
    if pm == 0 && pn != 0 {
        lemma_path_nonempty(l, names, pn as int);
        assert(a.len() == 0);
    } else if pm != 0 && pn == 0 {
        lemma_path_nonempty(l, names, pm as int);
        assert(b.len() == 0);
    } else if pm != 0 && pn != 0 {
        lemma_names_unique_at(l, names, pm as int, pn as int);
    }
    assert(pm == pn);
    if m != n {
        let cs = l[pm as int].1;
        assert(cs.contains(m as usize));
        assert(cs.contains(n as usize));
        let j = choose|j: int| 0 <= j < cs.len() && cs[j] == m as usize;
        let k = choose|k: int| 0 <= k < cs.len() && cs[k] == n as usize;
        assert(j != k);
        assert(names[cs[j] as int] == names[m]);
        assert(names[cs[k] as int] == names[n]);
        if j < k {
            assert(names[l[pm as int].1[j] as int] != names[l[pm as int].1[k] as int]);
        } else {
            assert(names[l[pm as int].1[k] as int] != names[l[pm as int].1[j] as int]);
        }
        assert(false);
    }
}

/// What `find_spec` gives is a node of the tree.
pub proof fn lemma_find_in_range(l: Links, names: Seq<Seq<char>>, name: Seq<Seq<char>>)
    requires
        links_wf(l),
    ensures
        find_spec(l, names, name) matches Some(n) ==> n < l.len(),
{
}

/// Looking a marker up by its own name finds it again, unless that name is
/// also the pack's (a top-level marker named like the pack), which designates
/// the pack's root.
pub proof fn law_find_by_name_of(pack: MarkerPack, i: int)
    requires
        pack.wf(),
        0 <= i < pack.links().len(),
        i == 0 || pack.name_of_view(i) != pack.name_of_view(0),
    ensures
        find_spec(pack.links(), names_of(pack.markers()), pack.name_of_view(i)) == Some(i as usize),
{
    let l = pack.links();
    let names = names_of(pack.markers());
    if i > 0 {
        lemma_names_unique(l, names);
        assert(0 < (i as usize) < l.len() && name_of_spec(l, names, (i as usize) as int)
            == pack.name_of_view(i));
        let n = choose|n: usize| 0 < n < l.len() && name_of_spec(l, names, n as int)
            == pack.name_of_view(i);
        assert(path_names(l, names, n as int) == path_names(l, names, i));
    }
}

/// A `<POI>` tag whose marker does not exist adds nothing when the pack is
/// built: the POIs and map ids of every marker are those of the build
/// without it, wherever it came among the tags.
pub proof fn law_unknown_poi_ignored(
    pre: Seq<PoiXml>,
    q: PoiXml,
    post: Seq<PoiXml>,
    l: Links,
    names: Seq<Seq<char>>,
    k: int,
)
    requires
        tag_target(l, names, q.id@) is None,
    ensures
        pois_for(pre + seq![q] + post, l, names, k) == pois_for(pre + post, l, names, k),
        poi_map_ids(pre + seq![q] + post, l, names, k) == poi_map_ids(pre + post, l, names, k),
    decreases post.len(),
{
    if post.len() == 0 {
        assert((pre + seq![q] + post).drop_last() =~= pre);
        assert(pre + post =~= pre);
    } else {
        law_unknown_poi_ignored(pre, q, post.drop_last(), l, names, k);
        assert((pre + seq![q] + post).drop_last() =~= pre + seq![q] + post.drop_last());
        assert((pre + post).drop_last() =~= pre + post.drop_last());
    }
}

/// A `<Trail>` tag whose marker does not exist, or whose trail file was not
/// read, adds nothing when the pack is built: the routes and map ids of every
/// marker are those of the build without it, wherever it came among the tags.
pub proof fn law_unusable_trail_ignored(
    pre: Seq<TrailXml>,
    t: TrailXml,
    post: Seq<TrailXml>,
    entries: Seq<(String, TrailData)>,
    l: Links,
    names: Seq<Seq<char>>,
    k: int,
    texture: Option<Seq<char>>,
)
    requires
        tag_target(l, names, t.id@) is None || trail_lookup(entries, t.trail_file@) is None,
    ensures
        trail_map_ids(pre + seq![t] + post, entries, l, names, k) == trail_map_ids(
            pre + post,
            entries,
            l,
            names,
            k,
        ),
        routes_for(pre + seq![t] + post, entries, l, names, k, texture) == routes_for(
            pre + post,
            entries,
            l,
            names,
            k,
            texture,
        ),
    decreases post.len(),
{
    if post.len() == 0 {
        assert((pre + seq![t] + post).drop_last() =~= pre);
        assert(pre + post =~= pre);
    } else {
        law_unusable_trail_ignored(pre, t, post.drop_last(), entries, l, names, k, texture);
        assert((pre + seq![t] + post).drop_last() =~= pre + seq![t] + post.drop_last());
        assert((pre + post).drop_last() =~= pre + post.drop_last());
    }
}

/// A marker that `find_by_name` finds is named as asked.
pub proof fn law_found_is_named(pack: MarkerPack, name: Seq<Seq<char>>)
    requires
        pack.wf(),
    ensures
        find_spec(pack.links(), names_of(pack.markers()), name) matches Some(x) ==> x < pack.links().len()
            && pack.name_of_view(x as int) == name,
{
    lemma_find_in_range(pack.links(), names_of(pack.markers()), name);
}

} // verus!
