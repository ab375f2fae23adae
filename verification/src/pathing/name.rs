//! Names of markers: the dotted path of category names inside a pack, and
//! the pack they belong to.

use vstd::prelude::*;
use crate::text::{strings_view, same_text, owned, push_char, chars_of};

verus! {

/// A marker's name: the category names from the top of its pack down to it.
#[derive(Hash, Clone, Default, Debug, PartialEq, Eq)]
pub struct MarkerName(pub Vec<String>);

impl View for MarkerName {
    type V = Seq<Seq<char>>;

    open spec fn view(&self) -> Seq<Seq<char>> {
        strings_view(self.0@)
    }
}

/// `p` is a prefix of `s`.
pub open spec fn is_prefix_of(p: Seq<Seq<char>>, s: Seq<Seq<char>>) -> bool {
    p.len() <= s.len() && s.take(p.len() as int) == p
}

/// `a` lies strictly below `b`: `b` is a proper prefix of `a`.
pub open spec fn name_below(a: Seq<Seq<char>>, b: Seq<Seq<char>>) -> bool {
    a.len() != b.len() && is_prefix_of(b, a)
}

/// Whether `p` is a prefix of `s`, compared name by name.
pub fn names_start_with(s: &Vec<String>, p: &Vec<String>) -> (r: bool)
    ensures
        r == is_prefix_of(strings_view(p@), strings_view(s@)),
{
    if p.len() > s.len() {
        return false;
    }
    let mut i: usize = 0;
    while i < p.len()
        invariant
            p@.len() <= s@.len(),
            i <= p@.len(),
            forall|j: int| 0 <= j < i ==> #[trigger] p@[j]@ == s@[j]@,
        decreases p@.len() - i,
    {
        if !same_text(s[i].as_str(), p[i].as_str()) {
            assert(strings_view(s@).take(p@.len() as int)[i as int] != strings_view(p@)[i as int]);
            return false;
        }
        i = i + 1;
    }
    assert(strings_view(s@).take(p@.len() as int) =~= strings_view(p@));
    true
}

/// Whether two names are equal, compared name by name.
pub fn names_equal(a: &Vec<String>, b: &Vec<String>) -> (r: bool)
    ensures
        r == (strings_view(a@) == strings_view(b@)),
{
    if a.len() != b.len() {
        assert(strings_view(a@).len() != strings_view(b@).len());
        return false;
    }
    let r = names_start_with(a, b);
    assert(strings_view(a@).take(b@.len() as int) =~= strings_view(a@));
    r
}

impl MarkerName {
    /// Returns true when this name lies below `other`.
    pub fn child_of(&self, other: &MarkerName) -> (r: bool)
        ensures
            r == name_below(self@, other@),
    {
        self.0.len() != other.0.len() && names_start_with(&self.0, &other.0)
    }

    /// Returns true when `other` lies below this name.
    pub fn parent_of(&self, other: &MarkerName) -> (r: bool)
        ensures
            r == name_below(other@, self@),
    {
        self.0.len() != other.0.len() && names_start_with(&other.0, &self.0)
    }

    /// The name written with dots between the parts, as it is displayed.
    pub fn to_dotted(&self) -> (r: String)
        ensures
            r@ == join_dotted(self@),
    {
        let mut r = String::new();
        let mut i: usize = 0;
        while i < self.0.len()
            invariant
                i <= self.0@.len(),
                r@ == join_dotted(self@.take(i as int)),
            decreases self.0@.len() - i,
        {
            let ghost before = r@;
            if i > 0 {
                push_char(&mut r, '.');
            }
            let cs = chars_of(self.0[i].as_str());
            let mut k: usize = 0;
            let ghost start = r@;
            while k < cs.len()
                invariant
                    k <= cs@.len(),
                    cs@ == self.0@[i as int]@,
                    r@ == start + cs@.take(k as int),
                decreases cs@.len() - k,
            {
                push_char(&mut r, cs[k]);
                proof {
                    assert(cs@.take(k + 1) =~= cs@.take(k as int).push(cs@[k as int]));
                    assert(r@ =~= start + cs@.take(k + 1));
                }
                k = k + 1;
            }
            proof {
                assert(cs@.take(cs@.len() as int) =~= cs@);
                assert(self@.take(i + 1).drop_last() =~= self@.take(i as int));
                assert(self@.take(i + 1).last() == self.0@[i as int]@);
                if i > 0 {
                    assert(r@ =~= before + seq!['.'] + self.0@[i as int]@);
                } else {
                    assert(self@.take(1) =~= seq![self.0@[0]@]);
                    assert(r@ =~= self.0@[0]@);
                }
            }
            i = i + 1;
        }
        proof {
            assert(self@.take(self.0@.len() as int) =~= self@);
        }
        r
    }
}

/// The parts joined with a `.` between each two.
pub open spec fn join_dotted(parts: Seq<Seq<char>>) -> Seq<char>
    decreases parts.len(),
{
    if parts.len() == 0 {
        Seq::<char>::empty()
    } else if parts.len() == 1 {
        parts[0]
    } else {
        join_dotted(parts.drop_last()) + seq!['.'] + parts.last()
    }
}

/// The identifier of a marker pack: its file name.
#[derive(Hash, Clone, Default, Debug, PartialEq, Eq)]
pub struct PackId(pub String);

impl PackId {
    /// The full identifier of a marker of this pack.
    pub fn with_marker(&self, marker_name: MarkerName) -> (r: FullMarkerId)
        ensures
            r.pack_id.0@ == self.0@,
            r.marker_name@ == marker_name@,
    {
        FullMarkerId { pack_id: PackId(owned(self.0.as_str())), marker_name }
    }
}

/// A marker together with the pack it belongs to.
#[derive(Hash, Clone, Default, Debug, PartialEq, Eq)]
pub struct FullMarkerId {
    pub pack_id: PackId,
    pub marker_name: MarkerName,
}

impl FullMarkerId {
    /// Same pack, and `other` lies below this marker.
    pub fn parent_of(&self, other: &Self) -> (r: bool)
        ensures
            r == full_parent_of(*self, *other),
    {
        same_text(self.pack_id.0.as_str(), other.pack_id.0.as_str())
            && self.marker_name.parent_of(&other.marker_name)
    }

    /// Same pack, and this marker lies below `other`.
    pub fn child_of(&self, other: &Self) -> (r: bool)
        ensures
            r == full_child_of(*self, *other),
    {
        same_text(self.pack_id.0.as_str(), other.pack_id.0.as_str())
            && self.marker_name.child_of(&other.marker_name)
    }
}

/// `b` is in the same pack as `a` and lies below it.
pub open spec fn full_parent_of(a: FullMarkerId, b: FullMarkerId) -> bool {
    a.pack_id.0@ == b.pack_id.0@ && name_below(b.marker_name@, a.marker_name@)
}

/// `a` is in the same pack as `b` and lies below it.
pub open spec fn full_child_of(a: FullMarkerId, b: FullMarkerId) -> bool {
    a.pack_id.0@ == b.pack_id.0@ && name_below(a.marker_name@, b.marker_name@)
}

/// `a` is a parent of `b` exactly when `b` is a child of `a`.
pub proof fn law_parent_child_converse(a: FullMarkerId, b: FullMarkerId)
    ensures
        full_parent_of(a, b) == full_child_of(b, a),
{
}

/// No marker is its own parent.
pub proof fn law_parent_irreflexive(a: FullMarkerId)
    ensures
        !full_parent_of(a, a),
{
}

/// Being a parent is transitive.
pub proof fn law_parent_transitive(a: FullMarkerId, b: FullMarkerId, c: FullMarkerId)
    requires
        full_parent_of(a, b),
        full_parent_of(b, c),
    ensures
        full_parent_of(a, c),
{
    law_below_transitive(c.marker_name@, b.marker_name@, a.marker_name@);
}

/// No name lies below itself.
pub proof fn law_below_irreflexive(a: Seq<Seq<char>>)
    ensures
        !name_below(a, a),
{
}

/// Lying below is asymmetric.
pub proof fn law_below_asymmetric(a: Seq<Seq<char>>, b: Seq<Seq<char>>)
    requires
        name_below(a, b),
    ensures
        !name_below(b, a),
{
}

/// Lying below is transitive.
pub proof fn law_below_transitive(a: Seq<Seq<char>>, b: Seq<Seq<char>>, c: Seq<Seq<char>>)
    requires
        name_below(a, b),
        name_below(b, c),
    ensures
        name_below(a, c),
{
    assert(a.take(c.len() as int) =~= a.take(b.len() as int).take(c.len() as int));
}

} // verus!
