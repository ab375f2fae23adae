//! The columns of the marker list: the entries of one column (the children
//! of a marker, each a separator or a button that shows whether the marker
//! is enabled), the number of the next column, and which columns go when
//! a new one is shown.

use vstd::prelude::*;
use crate::pathing::enabled::{EnabledMarkers, id_view};
use crate::pathing::model::MarkerKind;
use crate::pathing::name::{FullMarkerId, PackId};
use crate::pathing::pack::MarkerPack;
use crate::text::owned;

verus! {

/// One entry of a column.
pub enum ColumnEntry {
    /// A separator, with its label.
    Separator(String),
    /// A button for a marker, checked when the marker is enabled.
    Button { marker: usize, checked: bool },
}

/// The entries of the column that lists the children of marker `id` of the
/// pack `pack_id`, in order: a separator for a separator marker, otherwise
/// a button that is checked exactly when that marker is enabled.
pub fn column_entries(pack: &MarkerPack, pack_id: &PackId, id: usize, enabled: &EnabledMarkers) -> (r: Vec<ColumnEntry>)
    requires
        pack.wf(),
        id < pack.links().len(),
        enabled.wf(),
    ensures
        r@.len() == pack.links()[id as int].1.len(),
        forall|k: int|
            0 <= k < r@.len() ==> {
                let c = pack.links()[id as int].1[k];
                let m = pack.markers()[c as int];
                match #[trigger] r@[k] {
                    ColumnEntry::Separator(label) => m.kind == MarkerKind::Separator && label@
                        == m.label@,
                    ColumnEntry::Button { marker, checked } => m.kind != MarkerKind::Separator
                        && marker == c && checked == enabled@.contains(
                        (pack_id.0@, pack.name_of_view(c as int)),
                    ),
                }
            },
{
    let children = pack.iter(id);
    let mut r: Vec<ColumnEntry> = Vec::new();
    let mut k: usize = 0;
    while k < children.len()
        invariant
            pack.wf(),
            enabled.wf(),
            id < pack.links().len(),
            children@ == pack.links()[id as int].1,
            k <= children@.len(),
            r@.len() == k,
            forall|j: int|
                0 <= j < k ==> {
                    let c = pack.links()[id as int].1[j];
                    let m = pack.markers()[c as int];
                    match #[trigger] r@[j] {
                        ColumnEntry::Separator(label) => m.kind == MarkerKind::Separator && label@
                            == m.label@,
                        ColumnEntry::Button { marker, checked } => m.kind != MarkerKind::Separator
                            && marker == c && checked == enabled@.contains(
                            (pack_id.0@, pack.name_of_view(c as int)),
                        ),
                    }
                },
        decreases children@.len() - k,
    {
        let c = children[k];
        assert(c < pack.links().len());
        let m = match pack.get(c) {
            Some(m) => m,
            None => {
                assert(false);
                return r;
            },
        };
        let separator = match m.kind {
            MarkerKind::Separator => true,
            _ => false,
        };
        let entry = if separator {
            ColumnEntry::Separator(owned(m.label.as_str()))
        } else {
            let full = FullMarkerId { pack_id: PackId(owned(pack_id.0.as_str())), marker_name: pack.name_of(c) };
            let checked = enabled.contains(&full);
            proof {
                assert(id_view(full) == (pack_id.0@, pack.name_of_view(c as int)));
            }
            ColumnEntry::Button { marker: c, checked }
        };
        r.push(entry);
        k = k + 1;
    }
    r
}

/// The columns to take away before a new one is shown after column
/// `column_id`: that column and every higher one, in the order given.
pub fn columns_to_remove(existing: &Vec<usize>, column_id: usize) -> (r: Vec<usize>)
    ensures
        r@ == existing@.filter(|c: usize| c >= column_id),
{
    let ghost pred = |c: usize| c >= column_id;
    let mut r: Vec<usize> = Vec::new();
    let mut i: usize = 0;
    while i < existing.len()
        invariant
            i <= existing@.len(),
            pred == (|c: usize| c >= column_id),
            r@ == existing@.take(i as int).filter(pred),
        decreases existing@.len() - i,
    {
        proof {
            let t = existing@.take(i + 1);
            assert(t.drop_last() =~= existing@.take(i as int));
            assert(t.last() == existing@[i as int]);
            reveal_with_fuel(Seq::filter, 1);
        }
        if existing[i] >= column_id {
            r.push(existing[i]);
        }
        i = i + 1;
    }
    assert(existing@.take(i as int) =~= existing@);
    r
}

/// The number of the column shown after column `column_id`.
pub fn next_column(column_id: usize) -> (r: usize)
    requires
        column_id < usize::MAX,
    ensures
        r == column_id + 1,
{
    column_id + 1
}

} // verus!
