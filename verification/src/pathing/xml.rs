//! Reading the XML files of a marker pack into a `MarkerPackBuilder`.
//!
//! `quick_xml` splits a document into events; what each event does to the
//! builder is decided here.

use vstd::prelude::*;
use vstd::utf8::{decode_utf8, valid_utf8};
use quick_xml::events::{BytesStart, Event};
use quick_xml::Reader;
use crate::pathing::model::{
    MarkerXml, PoiXml, TrailXml, TagError, XmlAttr, marker_attrs, marker_xml_attrs, poi_attrs,
    poi_xml_attrs, trail_attrs, opt_view, opt_lowercase,
};
use crate::pathing::pack::{MarkerPackBuilder, marker_added};
use crate::text::{lowercase_of, same_text, string_from_utf8, to_lowercase};

verus! {

broadcast use vstd::std_specs::hash::group_hash_axioms;

#[verifier::external_type_specification]
#[verifier::external_body]
#[verifier::reject_recursive_types(R)]
pub struct ExXmlReader<R>(Reader<R>);

#[verifier::external_type_specification]
#[verifier::external_body]
pub struct ExXmlError(quick_xml::Error);

/// An element of a document: its raw name, and its attributes in order
/// (raw key and value; `None` for one that `quick_xml` could not read).
#[derive(Clone, Debug)]
pub struct Element {
    pub name: Vec<u8>,
    pub attrs: Vec<Option<XmlAttr>>,
}

/// An event of a document, read into plain values.
#[derive(Clone, Debug)]
pub enum XmlItem {
    /// An opening tag.
    Start(Element),
    /// A self-closing tag.
    Empty(Element),
    /// A closing tag.
    End,
    /// The end of the document.
    Eof,
    /// Anything else: text, comments, declarations, ...
    Other,
}

/// The `k`-th event (counting from 0) that a `quick_xml::Reader` over
/// `input`, with `trim_text(trim)` and otherwise its default configuration,
/// gives; `None` where it reports an error.
pub uninterp spec fn xml_item_at(input: Seq<u8>, trim: bool, k: nat) -> Option<XmlItem>;

/// A document being read: a `quick_xml::Reader` over `input`, and how many
/// events it has given. Only `XmlStream::new` and `XmlStream::next` touch
/// the fields, so `count` is always the number of events read so far.
pub struct XmlStream<'a> {
    reader: Reader<&'a [u8]>,
    input: &'a [u8],
    trim: bool,
    count: usize,
}

impl<'a> View for XmlStream<'a> {
    type V = (Seq<u8>, bool, nat);

    /// The document, whether text is trimmed, and how many events were read.
    closed spec fn view(&self) -> (Seq<u8>, bool, nat) {
        (self.input@, self.trim, self.count as nat)
    }
}

/// A document that `quick_xml` could not read, and where it stopped.
#[derive(Debug)]
pub struct XmlError {
    pub position: u64,
    pub error: quick_xml::Error,
}

/// `Reader::from_reader` on the bytes of a document.
#[verifier::external_body]
fn xml_reader<'a>(input: &'a [u8]) -> Reader<&'a [u8]> {
    Reader::from_reader(input)
}

/// `Config::trim_text(true)` on the reader's configuration: whitespace around
/// text is dropped, and text of whitespace only gives no event.
#[verifier::external_body]
fn trim_text(reader: &mut Reader<&[u8]>) {
    reader.config_mut().trim_text(true)
}

/// `Reader::read_event`: the next event of the document, its element (if
/// any) read into plain values. A reader reads a document the same way every
/// time, so the event is the one `xml_item_at` names for the events read so
/// far; the stream's document, trimming and count are left as they are.
#[verifier::external_body]
fn read_item<'a>(s: &mut XmlStream<'a>) -> (r: Result<XmlItem, quick_xml::Error>)
    ensures
        final(s)@ == old(s)@,
        match r {
            Ok(item) => xml_item_at(old(s)@.0, old(s)@.1, old(s)@.2) == Some(item),
            Err(_) => xml_item_at(old(s)@.0, old(s)@.1, old(s)@.2) is None,
        },
{
    let el = |e: BytesStart| Element {
        name: e.name().0.to_vec(),
        attrs: e.attributes().map(|a| a.ok().map(|a| XmlAttr { key: a.key.0.to_vec(), value: a.value.to_vec() })).collect(),
    };
    match s.reader.read_event() {
        Ok(Event::Start(e)) => Ok(XmlItem::Start(el(e))),
        Ok(Event::Empty(e)) => Ok(XmlItem::Empty(el(e))),
        Ok(Event::End(_)) => Ok(XmlItem::End),
        Ok(Event::Eof) => Ok(XmlItem::Eof),
        Ok(_) => Ok(XmlItem::Other),
        Err(e) => Err(e),
    }
}

/// `Reader::buffer_position`: how far the reader got. Nothing is stated of it.
#[verifier::external_body]
fn buffer_position(s: &XmlStream) -> u64 {
    s.reader.buffer_position()
}

impl<'a> XmlStream<'a> {
    /// A reader at the start of `input`, trimming text when `trim`.
    pub fn new(input: &'a [u8], trim: bool) -> (s: XmlStream<'a>)
        ensures
            s@ == (input@, trim, 0nat),
    {
        let mut reader = xml_reader(input);
        if trim {
            trim_text(&mut reader);
        }
        XmlStream { reader, input, trim, count: 0 }
    }

    /// The next event: the one `xml_item_at` names, or `Err` where it names
    /// none.
    pub fn next(&mut self) -> (r: Result<XmlItem, quick_xml::Error>)
        requires
            old(self)@.2 < usize::MAX,
        ensures
            final(self)@ == (old(self)@.0, old(self)@.1, old(self)@.2 + 1),
            match r {
                Ok(item) => xml_item_at(old(self)@.0, old(self)@.1, old(self)@.2) == Some(item),
                Err(_) => xml_item_at(old(self)@.0, old(self)@.1, old(self)@.2) is None,
            },
    {
        let r = read_item(self);
        self.count = self.count + 1;
        r
    }

    /// How far the reader got.
    pub(crate) fn position(&self) -> u64 {
        buffer_position(self)
    }
}

/// A tag of the marker format, read from an element.
pub enum Tag {
    OverlayData,
    Marker(MarkerXml),
    POIs,
    Poi(PoiXml),
    Trail(TrailXml),
    /// Any other element, by its lower-cased name.
    UnknownField(String),
}

/// The lower-cased name of an element, when its bytes are UTF-8.
pub open spec fn tag_name(name: Seq<u8>) -> Option<Seq<char>> {
    if valid_utf8(name) {
        Some(lowercase_of(decode_utf8(name)))
    } else {
        None
    }
}

/// The names of the tags the format knows.
pub open spec fn known_tag(n: Seq<char>) -> bool {
    n == "overlaydata"@ || n == "markercategory"@ || n == "pois"@ || n == "poi"@ || n == "trail"@
}

/// What reading an element gives: its name, compared without regard to case,
/// says which tag it is, and its attributes fill the tag.
pub open spec fn tag_read(name: Seq<u8>, attrs: Seq<Option<XmlAttr>>, r: Result<Tag, TagError>) -> bool {
    &&& tag_name(name) is None ==> r == Err::<Tag, TagError>(TagError::NameNotUtf8)
    &&& tag_name(name) == Some("overlaydata"@) ==> r == Ok::<Tag, TagError>(Tag::OverlayData)
    &&& tag_name(name) == Some("markercategory"@) ==> (r matches Ok(Tag::Marker(m))
        && marker_xml_attrs(m) == marker_attrs(attrs) && m.depth == 0 && m.behavior is None
        && m.poi_tip is None && m.poi_description is None && m.map_ids@ == Set::<u32>::empty())
    &&& tag_name(name) == Some("pois"@) ==> r == Ok::<Tag, TagError>(Tag::POIs)
    &&& tag_name(name) == Some("poi"@) ==> {
        &&& poi_attrs(attrs).0 is None ==> r == Err::<Tag, TagError>(TagError::PoiMissingType)
        &&& poi_attrs(attrs).0 is Some ==> (r matches Ok(Tag::Poi(p)) && poi_xml_attrs(p)
            == poi_attrs(attrs))
    }
    &&& tag_name(name) == Some("trail"@) ==> {
        let t = trail_attrs(attrs);
        &&& t.0 is None ==> r == Err::<Tag, TagError>(TagError::TrailMissingType)
        &&& t.0 is Some && t.1 is None ==> r == Err::<Tag, TagError>(TagError::TrailMissingData)
        &&& t.0 is Some && t.1 is Some ==> (r matches Ok(Tag::Trail(tr)) && Some(tr.id@) == t.0
            && tr.trail_file@ == lowercase_of(t.1->Some_0) && opt_view(tr.texture_file)
            == opt_lowercase(t.2))
    }
    &&& tag_name(name) is Some && !known_tag(tag_name(name)->Some_0) ==> (r matches Ok(
        Tag::UnknownField(f),
    ) && Some(f@) == tag_name(name))
}

/// What applying `tag` does to the builder.
pub open spec fn tag_applied(b0: MarkerPackBuilder, b1: MarkerPackBuilder, tag: Tag) -> bool {
    match tag {
        Tag::OverlayData => {
            &&& b1.pack_view() == b0.pack_view()
            &&& b1.parents() == seq![0usize]
            &&& b1.poi_tags() == b0.poi_tags()
            &&& b1.trail_tags() == b0.trail_tags()
            &&& b1.trail_entries() == b0.trail_entries()
        },
        Tag::Marker(m) => marker_added(b0, b1, m),
        Tag::Poi(p) => {
            &&& b1.pack_view() == b0.pack_view()
            &&& b1.parents() == b0.parents()
            &&& b1.poi_tags() == b0.poi_tags().push(p)
            &&& b1.trail_tags() == b0.trail_tags()
            &&& b1.trail_entries() == b0.trail_entries()
        },
        Tag::Trail(t) => {
            &&& b1.pack_view() == b0.pack_view()
            &&& b1.parents() == b0.parents()
            &&& b1.poi_tags() == b0.poi_tags()
            &&& b1.trail_tags() == b0.trail_tags().push(t)
            &&& b1.trail_entries() == b0.trail_entries()
        },
        _ => b1 == b0,
    }
}

impl Tag {
    /// Reads an element: its name, compared without regard to case, says
    /// which tag it is, and its attributes fill the tag.
    pub fn from_element(name: &[u8], attrs: &Vec<Option<XmlAttr>>) -> (r: Result<Tag, TagError>)
        ensures
            tag_read(name@, attrs@, r),
    {
        let tag = match string_from_utf8(name) {
            Some(s) => s,
            None => {
                return Err(TagError::NameNotUtf8);
            },
        };
        let lower = to_lowercase(tag.as_str());
        proof {
            reveal_strlit("overlaydata");
            reveal_strlit("markercategory");
            reveal_strlit("pois");
            reveal_strlit("poi");
            reveal_strlit("trail");
            assert("overlaydata"@.len() == 11);
            assert("markercategory"@.len() == 14);
            assert("pois"@.len() == 4);
            assert("poi"@.len() == 3);
            assert("trail"@.len() == 5);
            assert("pois"@ != "trail"@ && "pois"@[0] == 'p' && "trail"@[0] == 't');
        }
        if same_text(lower.as_str(), "overlaydata") {
            Ok(Tag::OverlayData)
        } else if same_text(lower.as_str(), "markercategory") {
            match MarkerXml::from_attrs(attrs) {
                Ok(m) => Ok(Tag::Marker(m)),
                Err(e) => Err(e),
            }
        } else if same_text(lower.as_str(), "pois") {
            Ok(Tag::POIs)
        } else if same_text(lower.as_str(), "poi") {
            match PoiXml::from_attrs(attrs) {
                Ok(p) => Ok(Tag::Poi(p)),
                Err(e) => Err(e),
            }
        } else if same_text(lower.as_str(), "trail") {
            match TrailXml::from_attrs(attrs) {
                Ok(t) => Ok(Tag::Trail(t)),
                Err(e) => Err(e),
            }
        } else {
            Ok(Tag::UnknownField(lower))
        }
    }

    /// What the tag does to the builder: `<OverlayData>` starts again at the
    /// root, `<MarkerCategory>` adds or finds a marker and goes into it,
    /// `<POI>` and `<Trail>` are kept for `build`, and the rest change
    /// nothing.
    pub fn apply(self, builder: &mut MarkerPackBuilder)
        requires
            old(builder).wf(),
            old(builder).pack_view().links().len() < usize::MAX,
        ensures
            final(builder).wf(),
            tag_applied(*old(builder), *final(builder), self),
    {
        match self {
            Tag::OverlayData => {
                builder.new_root();
            },
            Tag::Marker(marker) => {
                builder.add_marker(marker);
            },
            Tag::POIs => {},
            Tag::Poi(poi) => {
                builder.add_poi(poi);
            },
            Tag::Trail(trail) => {
                builder.add_trail_tag(trail);
            },
            Tag::UnknownField(_) => {},
        }
    }
}

/// What every step of reading a document keeps: the builder stays well
/// formed, tags are only added, trail files are untouched, and the tree
/// grows by at most one node per step.
pub open spec fn read_so_far(b0: MarkerPackBuilder, b1: MarkerPackBuilder, steps: int) -> bool {
    &&& b1.wf()
    &&& b0.poi_tags().is_prefix_of(b1.poi_tags())
    &&& b0.trail_tags().is_prefix_of(b1.trail_tags())
    &&& b1.trail_entries() == b0.trail_entries()
    &&& b0.pack_view().links().len() <= b1.pack_view().links().len() <= b0.pack_view().links().len()
        + steps
}

/// `b1` is `b0` gone up one level, never above the root.
pub open spec fn went_up(b0: MarkerPackBuilder, b1: MarkerPackBuilder) -> bool {
    &&& b1.pack_view() == b0.pack_view()
    &&& b0.parents().len() > 1 ==> b1.parents() == b0.parents().drop_last()
    &&& b0.parents().len() <= 1 ==> b1.parents() == b0.parents()
    &&& b1.poi_tags() == b0.poi_tags()
    &&& b1.trail_tags() == b0.trail_tags()
    &&& b1.trail_entries() == b0.trail_entries()
}

/// What an element does: it is read as a tag, which is applied (and, for a
/// self-closing element, left again); an element that cannot be read as a
/// tag changes nothing.
pub open spec fn element_read(b0: MarkerPackBuilder, b1: MarkerPackBuilder, e: Element, close: bool) -> bool {
    exists|t: Result<Tag, TagError>|
        #[trigger] tag_read(e.name@, e.attrs@, t) && match t {
            Ok(tag) => if close {
                exists|bm: MarkerPackBuilder| #[trigger] tag_applied(b0, bm, tag) && went_up(bm, b1)
            } else {
                tag_applied(b0, b1, tag)
            },
            Err(_) => b1 == b0,
        }
}

/// What one event of a document does to the builder.
pub open spec fn item_read(b0: MarkerPackBuilder, b1: MarkerPackBuilder, item: XmlItem) -> bool {
    match item {
        XmlItem::Start(e) => element_read(b0, b1, e, false),
        XmlItem::Empty(e) => element_read(b0, b1, e, true),
        XmlItem::End => went_up(b0, b1),
        _ => b1 == b0,
    }
}

/// `bs` are the builder before each of the first `k` events of `input` and
/// after the last of them, starting from `b0`; none of the events is an error
/// or the end of the document.
pub open spec fn items_chain(b0: MarkerPackBuilder, bs: Seq<MarkerPackBuilder>, input: Seq<u8>, k: nat) -> bool {
    &&& bs.len() == k + 1
    &&& bs[0] == b0
    &&& forall|j: nat|
        #![trigger xml_item_at(input, true, j)]
        j < k ==> match xml_item_at(input, true, j) {
            Some(item) => !(item is Eof) && item_read(bs[j as int], bs[j + 1int], item),
            None => false,
        }
}

/// `b` is `b0` after the first `k` events of `input` (text trimmed),
/// none of which is an error or the end of the document.
pub open spec fn items_read(b0: MarkerPackBuilder, b: MarkerPackBuilder, input: Seq<u8>, k: nat) -> bool {
    exists|bs: Seq<MarkerPackBuilder>| #[trigger] items_chain(b0, bs, input, k) && bs[k as int] == b
}

/// `b1` is `b0` after a whole document was read: its events up to the end
/// (or, at most, one more than it has bytes), then back to the root.
pub open spec fn xml_read_ok(b0: MarkerPackBuilder, b1: MarkerPackBuilder, input: Seq<u8>) -> bool {
    exists|k: nat, bm: MarkerPackBuilder|
        #![trigger items_read(b0, bm, input, k)]
        k <= input.len() + 1 && items_read(b0, bm, input, k) && (k == input.len() + 1
            || xml_item_at(input, true, k) == Some(XmlItem::Eof)) && tag_applied(
            bm,
            b1,
            Tag::OverlayData,
        )
}

/// `b1` is `b0` after the events of the document before the first one that
/// `quick_xml` reports as an error.
pub open spec fn xml_read_err(b0: MarkerPackBuilder, b1: MarkerPackBuilder, input: Seq<u8>) -> bool {
    exists|k: nat|
        #![trigger items_read(b0, b1, input, k)]
        k <= input.len() && items_read(b0, b1, input, k) && xml_item_at(input, true, k) is None
}

/// Reads one XML file of a pack into the builder, event by event: an opening
/// tag is read and applied, a self-closing one is read, applied and closed
/// again, a closing tag goes up a level; tags that cannot be read are
/// skipped. At the end of the document the builder goes back to the root.
/// Where `quick_xml` reports an error the reading stops with `Err`.
/// `quick_xml` takes at least one byte for every event before the end, so
/// reading stops after at most one event more than the document has bytes.
pub fn parse_xml(builder: &mut MarkerPackBuilder, input: &[u8]) -> (r: Result<(), XmlError>)
    requires
        old(builder).wf(),
        old(builder).pack_view().links().len() + input@.len() < usize::MAX,
    ensures
        read_so_far(*old(builder), *final(builder), input@.len() + 1int),
        r is Ok ==> final(builder).parents() == seq![0usize],
        r is Ok ==> xml_read_ok(*old(builder), *final(builder), input@),
        r is Err ==> xml_read_err(*old(builder), *final(builder), input@),
{
    let mut stream = XmlStream::new(input, true);
    let ghost b0 = *builder;
    let ghost mut bs: Seq<MarkerPackBuilder> = seq![*builder];
    let mut steps: usize = 0;
    while steps <= input.len()
        invariant
            b0 == *old(builder),
            b0.wf(),
            b0.pack_view().links().len() + input@.len() < usize::MAX,
            steps <= input@.len() + 1,
            read_so_far(b0, *builder, steps as int),
            stream@ == (input@, true, steps as nat),
            items_chain(b0, bs, input@, steps as nat),
            bs[steps as int] == *builder,
        decreases input@.len() + 1 - steps,
    {
        let ghost before = *builder;
        let ghost k = steps as nat;
        let res = stream.next();
        let ghost rr = res;
        let ghost mut it: XmlItem = XmlItem::Other;
        match res {
            Ok(XmlItem::Start(element)) => {
                let ghost e = element;
                proof {
                    it = XmlItem::Start(e);
                }
                let t = Tag::from_element(element.name.as_slice(), &element.attrs);
                match t {
                    Ok(tag) => {
                        let ghost tg = tag;
                        tag.apply(builder);
                        proof {
                            assert(tag_applied(before, *builder, tg));
                        }
                    },
                    Err(_) => {},
                }
                proof {
                    assert(tag_read(e.name@, e.attrs@, t));
                    assert(item_read(before, *builder, XmlItem::Start(e)));
                }
            },
            Ok(XmlItem::Empty(element)) => {
                let ghost e = element;
                proof {
                    it = XmlItem::Empty(e);
                }
                let t = Tag::from_element(element.name.as_slice(), &element.attrs);
                match t {
                    Ok(tag) => {
                        let ghost tg = tag;
                        tag.apply(builder);
                        let ghost mid = *builder;
                        builder.up();
                        proof {
                            assert(tag_applied(before, mid, tg));
                            assert(went_up(mid, *builder));
                        }
                    },
                    Err(_) => {},
                }
                proof {
                    assert(tag_read(e.name@, e.attrs@, t));
                    assert(item_read(before, *builder, XmlItem::Empty(e)));
                }
            },
            Ok(XmlItem::End) => {
                proof {
                    it = XmlItem::End;
                }
                builder.up();
            },
            Ok(XmlItem::Eof) => {
                builder.new_root();
                proof {
                    assert(items_chain(b0, bs, input@, k));
                    assert(items_read(b0, before, input@, k));
                }
                return Ok(());
            },
            Ok(XmlItem::Other) => {},
            Err(error) => {
                let position = stream.position();
                proof {
                    assert(items_chain(b0, bs, input@, k));
                    assert(items_read(b0, *builder, input@, k));
                }
                return Err(XmlError { position, error });
            },
        }
        proof {
            assert(b0.poi_tags().is_prefix_of(builder.poi_tags()));
            assert(xml_item_at(input@, true, k) == Some(it));
            assert(item_read(before, *builder, it));
            assert(!(it is Eof));
            let bs1 = bs.push(*builder);
            assert forall|j: nat| j < k + 1 implies match #[trigger] xml_item_at(input@, true, j) {
                Some(item) => !(item is Eof) && item_read(bs1[j as int], bs1[j + 1int], item),
                None => false,
            } by {
                if j < k {
                    assert(bs1[j as int] == bs[j as int] && bs1[j + 1int] == bs[j + 1int]);
                } else {
                    assert(bs1[j as int] == before && bs1[j + 1int] == *builder);
                }
            }
            bs = bs1;
        }
        steps = steps + 1;
    }
    let ghost last = *builder;
    builder.new_root();
    proof {
        assert(items_chain(b0, bs, input@, steps as nat));
        assert(items_read(b0, last, input@, steps as nat));
    }
    Ok(())
}

} // verus!
