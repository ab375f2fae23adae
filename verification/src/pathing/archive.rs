//! Reading a marker pack from the bytes of its zip archive: each file of the
//! archive is sorted by its extension, XML files are read into the pack's
//! tree, trail files are kept for the trails that name them, and the pack is
//! built once every file was read.

use vstd::prelude::*;
use std::io::Cursor;
use zip::ZipArchive;
use zip::result::ZipError;
use crate::pathing::entry::{EntryKind, entry_kind, extension_of, kind_of};
use crate::pathing::pack::{MarkerPack, MarkerPackBuilder, built_from, fresh_builder};
use crate::pathing::trail::{TrailData, read, le_u32_at, point_count, point_at};
use crate::pathing::xml::{XmlError, parse_xml, xml_read_ok, xml_read_err};

verus! {

#[verifier::external_type_specification]
#[verifier::external_body]
#[verifier::reject_recursive_types(R)]
pub struct ExZipArchive<R>(ZipArchive<R>);

#[verifier::external_type_specification]
#[verifier::external_body]
pub struct ExZipError(ZipError);

#[verifier::external_type_specification]
#[verifier::external_body]
#[verifier::reject_recursive_types(T)]
pub struct ExCursor<T>(Cursor<T>);

/// Whether `zip` reads `archive` as a zip archive (`ZipArchive::new`).
pub uninterp spec fn zip_opens(archive: Seq<u8>) -> bool;

/// How many files `zip` finds in `archive` (`ZipArchive::len`).
pub uninterp spec fn zip_file_count(archive: Seq<u8>) -> nat;

/// The name of file `i` of `archive`, as `zip` reads it
/// (`ZipArchive::by_index`, `ZipFile::name`); `None` where `zip` cannot find
/// the file.
pub uninterp spec fn zip_name_at(archive: Seq<u8>, i: nat) -> Option<Seq<char>>;

/// The bytes that reading file `i` of `archive` to its end gives
/// (`ZipArchive::by_index`, `Read::read_to_end`), with whether the reading
/// reached the end without an error; where it stopped at an error, the bytes
/// read before it. Empty and `false` where `zip` cannot find the file.
pub uninterp spec fn zip_read_at(archive: Seq<u8>, i: nat) -> (Seq<u8>, bool);

/// A zip archive read from `bytes`.
pub struct PackArchive<'a> {
    archive: ZipArchive<Cursor<&'a [u8]>>,
    bytes: &'a [u8],
}

impl<'a> View for PackArchive<'a> {
    type V = Seq<u8>;

    /// The bytes of the archive.
    closed spec fn view(&self) -> Seq<u8> {
        self.bytes@
    }
}

/// `ZipArchive::new` over the bytes: `Ok` exactly when `zip` reads them as
/// an archive.
#[verifier::external_body]
fn open_archive<'a>(bytes: &'a [u8]) -> (r: Result<PackArchive<'a>, ZipError>)
    ensures
        r is Ok == zip_opens(bytes@),
        r matches Ok(a) ==> a@ == bytes@,
{
    ZipArchive::new(Cursor::new(bytes)).map(|archive| PackArchive { archive, bytes })
}

/// `ZipArchive::len`: how many files the archive holds.
#[verifier::external_body]
fn archive_len(a: &PackArchive) -> (n: usize)
    ensures
        n == zip_file_count(a@),
{
    a.archive.len()
}

/// `ZipArchive::by_index`, then the file's name; the archive finds each
/// file the same way every time.
#[verifier::external_body]
fn archive_name(a: &mut PackArchive, i: usize) -> (r: Result<String, ZipError>)
    ensures
        final(a)@ == old(a)@,
        match r {
            Ok(name) => zip_name_at(old(a)@, i as nat) == Some(name@),
            Err(_) => zip_name_at(old(a)@, i as nat) is None,
        },
{
    Ok(a.archive.by_index(i)?.name().to_string())
}

/// `ZipArchive::by_index`, then `Read::read_to_end` on the file: the bytes
/// read (those before an error, where one stopped the reading) and whether
/// the reading reached the end without an error.
#[verifier::external_body]
fn archive_data(a: &mut PackArchive, i: usize) -> (r: (Vec<u8>, bool))
    ensures
        final(a)@ == old(a)@,
        (r.0@, r.1) == zip_read_at(old(a)@, i as nat),
{
    let mut data = Vec::new();
    let ok = match a.archive.by_index(i) {
        Ok(mut file) => std::io::Read::read_to_end(&mut file, &mut data).is_ok(),
        Err(_) => false,
    };
    (data, ok)
}

/// Why a pack could not be read.
#[derive(Debug)]
pub enum PackError {
    /// The bytes are not a zip archive.
    Archive,
    /// File `i` of the archive could not be found, or the contents of the
    /// image file `i` could not be read.
    Entry(usize),
    /// The contents of the XML file `i` could not be read to their end.
    XmlRead(usize),
    /// The XML file `i` would make the pack's tree too large to count.
    TooLarge(usize),
    /// The XML file `i` is not a document that `quick_xml` can read.
    Xml(usize, XmlError),
}

/// `t` is what a trail file of at least 8 bytes holds.
pub open spec fn trail_of(data: Seq<u8>, t: TrailData) -> bool {
    &&& t.version == le_u32_at(data, 0)
    &&& t.map_id == le_u32_at(data, 4)
    &&& t.path@.len() == point_count(data.len())
    &&& forall|k: int| 0 <= k < t.path@.len() ==> #[trigger] t.path@[k] == point_at(data, k)
}

/// What a trail file named `name` holding `data` does to the builder: one of
/// at least 8 bytes is kept under its name, a shorter one is skipped.
pub open spec fn trail_read(b0: MarkerPackBuilder, b1: MarkerPackBuilder, name: Seq<char>, data: Seq<u8>) -> bool {
    if data.len() < 8 {
        b1 == b0
    } else {
        &&& b1.pack_view() == b0.pack_view()
        &&& b1.parents() == b0.parents()
        &&& b1.poi_tags() == b0.poi_tags()
        &&& b1.trail_tags() == b0.trail_tags()
        &&& b1.trail_entries().len() == b0.trail_entries().len() + 1
        &&& b1.trail_entries().drop_last() == b0.trail_entries()
        &&& b1.trail_entries().last().0@ == name
        &&& trail_of(data, b1.trail_entries().last().1)
    }
}

/// What file `j` of `archive` does to the builder, by the extension of its
/// name: an XML file, read to its end, is read into it; a trail file is kept
/// from the bytes that could be read; an image must be readable and leaves
/// the builder as it is; any other file is not read and leaves it as it is.
pub open spec fn file_read(b0: MarkerPackBuilder, b1: MarkerPackBuilder, archive: Seq<u8>, j: nat) -> bool {
    match zip_name_at(archive, j) {
        None => false,
        Some(name) => match kind_of(extension_of(name)) {
            EntryKind::Xml => zip_read_at(archive, j).1 && xml_read_ok(b0, b1, zip_read_at(archive, j).0),
            EntryKind::Png => zip_read_at(archive, j).1 && b1 == b0,
            EntryKind::Trail => trail_read(b0, b1, name, zip_read_at(archive, j).0),
            EntryKind::Other => b1 == b0,
        },
    }
}

/// `bs` are the builder before each of the first `i` files of `archive` and
/// after the last of them, starting from `b0`; each of these files was read.
pub open spec fn files_read(b0: MarkerPackBuilder, bs: Seq<MarkerPackBuilder>, archive: Seq<u8>, i: nat) -> bool {
    &&& bs.len() == i + 1
    &&& bs[0] == b0
    &&& forall|j: nat| j < i ==> #[trigger] file_read(bs[j as int], bs[j + 1int], archive, j)
}

/// A new builder for `pack_name` after the first `i` files of `archive`.
pub open spec fn read_up_to(pack_name: Seq<char>, archive: Seq<u8>, i: nat, b: MarkerPackBuilder) -> bool {
    exists|b0: MarkerPackBuilder, bs: Seq<MarkerPackBuilder>|
        #![trigger files_read(b0, bs, archive, i)]
        fresh_builder(pack_name, b0) && files_read(b0, bs, archive, i) && bs[i as int] == b
}

/// The files before file `i` of `archive` were read.
pub open spec fn read_before(pack_name: Seq<char>, archive: Seq<u8>, i: nat) -> bool {
    exists|b: MarkerPackBuilder| #[trigger] read_up_to(pack_name, archive, i, b)
}

/// File `i` of `archive` is named with the extension of an XML file.
pub open spec fn xml_file_at(archive: Seq<u8>, i: nat) -> bool {
    zip_name_at(archive, i) matches Some(name) && kind_of(extension_of(name)) == EntryKind::Xml
}

/// File `i` of `archive` cannot be found, or is an image whose contents
/// cannot be read to their end.
pub open spec fn entry_unreadable(archive: Seq<u8>, i: nat) -> bool {
    match zip_name_at(archive, i) {
        None => true,
        Some(name) => kind_of(extension_of(name)) == EntryKind::Png && !zip_read_at(archive, i).1,
    }
}

/// File `i` of `archive` is an XML file, readable to its end, too large to
/// read into the tree that the files before it made.
pub open spec fn stopped_too_large(pack_name: Seq<char>, archive: Seq<u8>, i: nat) -> bool {
    &&& xml_file_at(archive, i)
    &&& zip_read_at(archive, i).1
    &&& exists|b: MarkerPackBuilder|
        #![trigger read_up_to(pack_name, archive, i, b)]
        read_up_to(pack_name, archive, i, b) && b.pack_view().links().len() + zip_read_at(
            archive,
            i,
        ).0.len() >= usize::MAX
}

/// File `i` of `archive` is an XML file, readable to its end, in which
/// `quick_xml` reports an error, read after the files before it.
pub open spec fn stopped_at_xml(pack_name: Seq<char>, archive: Seq<u8>, i: nat) -> bool {
    &&& xml_file_at(archive, i)
    &&& zip_read_at(archive, i).1
    &&& exists|b: MarkerPackBuilder|
        #![trigger read_up_to(pack_name, archive, i, b)]
        read_up_to(pack_name, archive, i, b) && xml_fails(b, zip_read_at(archive, i).0)
}

/// `quick_xml` reports an error in `input` before its end, reading it into
/// a builder that starts as `b`.
pub open spec fn xml_fails(b: MarkerPackBuilder, input: Seq<u8>) -> bool {
    exists|b1: MarkerPackBuilder| #[trigger] xml_read_err(b, b1, input)
}

/// Reads a marker pack named `pack_name` from the bytes of its zip archive:
/// the files in archive order, each by the text after the last `.` of its
/// name (XML files into the tree, trail files kept, images checked, the rest
/// skipped unread), then the pack is built. The first file that cannot be
/// read stops the reading.
pub fn read_marker_pack(pack_name: String, archive: &[u8]) -> (r: Result<MarkerPack, PackError>)
    ensures
        r matches Err(PackError::Archive) <==> !zip_opens(archive@),
        r matches Ok(p) ==> zip_opens(archive@) && exists|b: MarkerPackBuilder|
            #![trigger read_up_to(pack_name@, archive@, zip_file_count(archive@), b)]
            read_up_to(pack_name@, archive@, zip_file_count(archive@), b) && built_from(b, p),
        r matches Err(PackError::Entry(i)) ==> zip_opens(archive@) && i < zip_file_count(archive@)
            && entry_unreadable(archive@, i as nat) && read_before(pack_name@, archive@, i as nat),
        r matches Err(PackError::XmlRead(i)) ==> zip_opens(archive@) && i < zip_file_count(archive@)
            && xml_file_at(archive@, i as nat) && !zip_read_at(archive@, i as nat).1
            && read_before(pack_name@, archive@, i as nat),
        r matches Err(PackError::TooLarge(i)) ==> zip_opens(archive@) && i < zip_file_count(archive@)
            && stopped_too_large(pack_name@, archive@, i as nat),
        r matches Err(PackError::Xml(i, _)) ==> zip_opens(archive@) && i < zip_file_count(archive@)
            && stopped_at_xml(pack_name@, archive@, i as nat),
{
    let ghost name0 = pack_name@;
    let mut a = match open_archive(archive) {
        Ok(a) => a,
        Err(_) => {
            return Err(PackError::Archive);
        },
    };
    let n = archive_len(&a);
    let mut builder = MarkerPackBuilder::new(pack_name);
    let ghost b0 = builder;
    let ghost mut bs: Seq<MarkerPackBuilder> = seq![builder];
    let mut i: usize = 0;
    while i < n
        invariant
            zip_opens(archive@),
            a@ == archive@,
            n == zip_file_count(archive@),
            i <= n,
            fresh_builder(name0, b0),
            name0 == pack_name@,
            builder.wf(),
            files_read(b0, bs, archive@, i as nat),
            bs[i as int] == builder,
        decreases n - i,
    {
        let ghost before = builder;
        let ghost k = i as nat;
        proof {
            assert(read_up_to(name0, archive@, k, builder));
        }
        let name = match archive_name(&mut a, i) {
            Ok(name) => name,
            Err(_) => {
                return Err(PackError::Entry(i));
            },
        };
        let ghost nm = name@;
        let kind = entry_kind(name.as_str());
        match kind {
            EntryKind::Xml => {
                let (data, whole) = archive_data(&mut a, i);
                let ghost dt = data@;
                if !whole {
                    return Err(PackError::XmlRead(i));
                }
                let len = builder.pack().len();
                if len >= usize::MAX - data.len() {
                    proof {
                        assert(stopped_too_large(name0, archive@, k));
                    }
                    return Err(PackError::TooLarge(i));
                }
                match parse_xml(&mut builder, data.as_slice()) {
                    Ok(()) => {},
                    Err(e) => {
                        proof {
                            assert(xml_read_err(before, builder, dt));
                            assert(xml_fails(before, dt));
                            assert(stopped_at_xml(name0, archive@, k));
                        }
                        return Err(PackError::Xml(i, e));
                    },
                }
            },
            EntryKind::Png => {
                let (_data, whole) = archive_data(&mut a, i);
                if !whole {
                    return Err(PackError::Entry(i));
                }
            },
            EntryKind::Trail => {
                let (data, _) = archive_data(&mut a, i);
                let ghost dt = data@;
                match read(data.as_slice()) {
                    Ok(t) => {
                        let ghost tt = t;
                        let ghost ns = name;
                        builder.add_trail_data(name, t);
                        proof {
                            assert(builder.trail_entries().last() == (ns, tt));
                            assert(builder.trail_entries().drop_last() =~= before.trail_entries());
                            assert(trail_of(dt, tt));
                            assert(trail_read(before, builder, nm, dt));
                        }
                    },
                    Err(_) => {},
                }
            },
            EntryKind::Other => {},
        }
        proof {
            assert(file_read(before, builder, archive@, k));
            let bs1 = bs.push(builder);
            assert forall|j: nat| j < k + 1 implies #[trigger] file_read(
                bs1[j as int],
                bs1[j + 1int],
                archive@,
                j,
            ) by {
                if j < k {
                    assert(bs1[j as int] == bs[j as int] && bs1[j + 1int] == bs[j + 1int]);
                    assert(file_read(bs[j as int], bs[j + 1int], archive@, j));
                } else {
                    assert(bs1[j as int] == before && bs1[j + 1int] == builder);
                }
            }
            bs = bs1;
        }
        i = i + 1;
    }
    proof {
        assert(read_up_to(name0, archive@, i as nat, builder));
    }
    Ok(builder.build())
}

} // verus!
