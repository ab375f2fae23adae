//! The files inside a marker pack archive, sorted by their extension.

use vstd::prelude::*;
use crate::text::{split_on, split_spec, same_text, lemma_split_nonempty, chars_of};

verus! {

/// What a file of a pack holds, going by its extension.
#[derive(Clone, Copy, Debug, PartialEq, Eq)]
pub enum EntryKind {
    /// Marker categories, POIs and trail tags (`.xml`).
    Xml,
    /// An image (`.png`).
    Png,
    /// The points of a trail (`.trl`).
    Trail,
    /// Anything else, which is skipped.
    Other,
}

/// The text after the last `.` of a file name, or the whole name if it has none.
pub open spec fn extension_of(file_path: Seq<char>) -> Seq<char> {
    split_spec(file_path, '.').last()
}

/// The kind of file that an extension names; the comparison is exact.
pub open spec fn kind_of(ext: Seq<char>) -> EntryKind {
    if ext == "xml"@ {
        EntryKind::Xml
    } else if ext == "png"@ {
        EntryKind::Png
    } else if ext == "trl"@ {
        EntryKind::Trail
    } else {
        EntryKind::Other
    }
}

/// The kind of a file of a pack, by the text after the last `.` of its name.
pub fn entry_kind(file_path: &str) -> (k: EntryKind)
    ensures
        k == kind_of(extension_of(file_path@)),
{
    let parts = split_on(file_path, '.');
    proof {
        lemma_split_nonempty(file_path@, '.');
    }
    let ext = parts[parts.len() - 1].as_str();
    proof {
        reveal_strlit("xml");
        reveal_strlit("png");
        reveal_strlit("trl");
    }
    if same_text(ext, "xml") {
        EntryKind::Xml
    } else if same_text(ext, "png") {
        EntryKind::Png
    } else if same_text(ext, "trl") {
        EntryKind::Trail
    } else {
        EntryKind::Other
    }
}


/// The position of the last `.` in `s`, if there is one.
pub open spec fn last_dot(s: Seq<char>) -> Option<int>
    decreases s.len(),
{
    if s.len() == 0 {
        None
    } else if s.last() == '.' {
        Some(s.len() - 1)
    } else {
        last_dot(s.drop_last())
    }
}

/// The extension of a file name, as `Path::extension` gives it: the text
/// after the last `.`, unless there is no `.` or the only one is the first
/// character.
pub open spec fn file_extension(name: Seq<char>) -> Option<Seq<char>> {
    match last_dot(name) {
        Some(i) => if i > 0 && name != ".."@ {
            Some(name.subrange(i + 1, name.len() as int))
        } else {
            None
        },
        None => None,
    }
}

/// A file holds a marker pack when its extension is `taco` or `zip`.
pub open spec fn is_pack_file_spec(name: Seq<char>) -> bool {
    file_extension(name) == Some("taco"@) || file_extension(name) == Some("zip"@)
}

/// With no `.` from `k` on, the last `.` of `s` is that of its first `k` characters.
proof fn lemma_last_dot_prefix(s: Seq<char>, k: int)
    requires
        0 <= k <= s.len(),
        forall|j: int| k <= j < s.len() ==> s[j] != '.',
    ensures
        last_dot(s) == last_dot(s.take(k)),
    decreases s.len() - k,
{
    if k < s.len() {
        assert(s.drop_last().take(k) =~= s.take(k));
        lemma_last_dot_prefix(s.drop_last(), k);
    } else {
        assert(s.take(k) =~= s);
    }
}

/// Whether `cs` from `start` on is exactly `lit`.
fn tail_is(cs: &Vec<char>, start: usize, lit: &str) -> (r: bool)
    requires
        start <= cs@.len(),
    ensures
        r == (cs@.subrange(start as int, cs@.len() as int) == lit@),
{
    let l = chars_of(lit);
    if cs.len() - start != l.len() {
        return false;
    }
    let end = cs.len();
    let mut i: usize = 0;
    while i < l.len()
        invariant
            l@ == lit@,
            end == cs@.len(),
            start + l@.len() == end,
            i <= l@.len(),
            forall|j: int| 0 <= j < i ==> cs@[start + j] == l@[j],
        decreases l@.len() - i,
    {
        if cs[start + i] != l[i] {
            assert(cs@.subrange(start as int, cs@.len() as int)[i as int] != l@[i as int]);
            return false;
        }
        i = i + 1;
    }
    assert(cs@.subrange(start as int, cs@.len() as int) =~= l@);
    true
}

/// Whether a file, by its name, holds a marker pack: its extension is
/// `taco` or `zip`.
pub fn is_pack_file(name: &str) -> (r: bool)
    ensures
        r == is_pack_file_spec(name@),
{
    let cs = chars_of(name);
    let mut i: usize = cs.len();
    while i > 0 && cs[i - 1] != '.'
        invariant
            cs@ == name@,
            i <= cs@.len(),
            forall|j: int| i <= j < cs@.len() ==> cs@[j] != '.',
        decreases i,
    {
        i = i - 1;
    }
    proof {
        lemma_last_dot_prefix(cs@, i as int);
        reveal_strlit("taco");
        reveal_strlit("zip");
        reveal_strlit("..");
        if i > 0 {
            assert(cs@.take(i as int).drop_last() =~= cs@.take(i - 1));
        } else {
            assert(cs@.take(0) =~= Seq::<char>::empty());
        }
    }
    if i <= 1 {
        // No `.`, or only a leading one.
        proof {
            if i == 1 {
                assert(last_dot(cs@) == Some(0int));
            }
        }
        return false;
    }
    let dot = i - 1;
    if cs.len() == 2 && cs[0] == '.' && cs[1] == '.' {
        proof {
            assert(cs@ =~= ".."@);
        }
        return false;
    }
    proof {
        assert(last_dot(cs@) == Some(dot as int));
        assert(cs@ != ".."@ ) by {
            if cs@ == ".."@ {
                assert(cs@.len() == 2 && cs@[0] == '.' && cs@[1] == '.');
            }
        }
    }
    tail_is(&cs, i, "taco") || tail_is(&cs, i, "zip")
}

} // verus!
