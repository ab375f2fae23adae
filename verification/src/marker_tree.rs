//! The marker categories of a folder of XML files, kept as a
//! `petgraph` graph: each category is a node, with an edge to each of its
//! sub-categories.

use vstd::prelude::*;
use vstd::utf8::{decode_utf8, valid_utf8};
use std::collections::{HashMap, HashSet, VecDeque};
use std::collections::hash_map::Entry;
use petgraph::graph::DiGraph;
use crate::graph::{
    graph_add_edge, graph_add_node, graph_dfs, graph_edge_count, graph_neighbors, graph_new,
    graph_wf, weights, outs, ins, dfs_preorder, graph_node_count, graph_edges,
};
use crate::bytes::{read_le_u32, u32_at};
use crate::pathing::model::XmlAttr;
use crate::pathing::xml::{Element, XmlError, XmlItem, XmlStream, xml_item_at};
use crate::text::{
    lowercase_of, lossy_utf8, owned, push_char, push_str, same_text, string_from_utf8,
    to_lowercase, utf8_lossy,
};

verus! {

broadcast use vstd::std_specs::hash::group_hash_axioms;

/// Why a file or a tag could not be read.
#[derive(Debug)]
pub enum ReadError {
    EmptyCategory,
    /// A value too short for the number it should hold.
    IoErr,
    /// A document that `quick_xml` could not read.
    Xml(XmlError),
    FieldErr { field: String, message: String },
    UnknownField(String),
    AttrErr,
    Utf8Error,
}

/// A point of interest's position; the coordinates are the bits of `f32`s.
#[derive(Clone, Copy, Debug, PartialEq, Eq)]
pub struct Position {
    pub x: u32,
    pub y: u32,
    pub z: u32,
}

/// A `<POI>` tag. Its coordinates are the bits of `f32`s.
#[derive(Clone, Debug, PartialEq, Eq)]
pub struct Poi {
    pub map_id: Option<u32>,
    pub x: u32,
    pub y: u32,
    pub z: u32,
    pub id: String,
    pub guid: String,
}

/// A `<Trail>` tag.
#[derive(Clone, Debug, PartialEq, Eq)]
pub struct Trail {
    pub id: String,
    pub trail_data: String,
    pub texture: String,
    pub guid: Option<String>,
}

/// A `<MarkerCategory>` tag with every attribute the format knows; the
/// single-precision values are the bits of their `f32`s.
#[derive(Clone, Debug, PartialEq, Eq)]
pub struct MarkerCategory {
    pub id: String,
    pub display_name: String,
    pub is_separator: bool,
    pub fade_near: Option<u32>,
    pub fade_far: Option<u32>,
    pub icon_path: Option<String>,
    pub icon_size: Option<u32>,
    pub map_display_size: Option<u32>,
    pub show_on_ingame: bool,
    pub show_on_map: bool,
    pub show_on_minimap: bool,
    pub height_offset: Option<u32>,
    pub min_size: Option<u32>,
    pub achievement_id: Option<u32>,
    pub achievement_bit: Option<u8>,
    pub bounce: Option<String>,
    pub bounce_height: Option<u32>,
    pub autotrigger: bool,
    pub triggerrange: Option<u32>,
    pub tip_name: Option<String>,
    pub tip_description: Option<String>,
    pub behavior: Option<u8>,
    pub copy: Option<String>,
    pub copy_message: Option<String>,
    pub reset_length: Option<u32>,
    pub toggle_category: Option<String>,
    pub profession: Option<String>,
}

/// The key, lower-cased, and the text of an attribute, when both are UTF-8.
pub open spec fn attr_pair(a: Option<XmlAttr>) -> Option<(Seq<char>, Seq<char>)> {
    match a {
        None => None,
        Some(at) => if valid_utf8(at.key@) && valid_utf8(at.value@) {
            Some((lowercase_of(decode_utf8(at.key@)), decode_utf8(at.value@)))
        } else {
            None
        },
    }
}

/// A POI as values: map id, x, y, z, type and GUID.
pub type PoiView = (Option<u32>, u32, u32, u32, Seq<char>, Seq<char>);

/// The POI of a `<POI>` tag read so far; a later attribute overrides an
/// earlier one. `mapid` is the little-endian number in the first four raw
/// bytes of its value (none when there are fewer); `x`, `y` and `z` are read
/// the same way, and one with fewer than four bytes is an error.
pub open spec fn poi_from(attrs: Seq<Option<XmlAttr>>) -> Result<PoiView, ()>
    decreases attrs.len(),
{
    if attrs.len() == 0 {
        Ok((None, 0, 0, 0, Seq::empty(), Seq::empty()))
    } else {
        match poi_from(attrs.drop_last()) {
            Err(e) => Err(e),
            Ok(p) => {
                let a = attrs.last();
                match attr_pair(a) {
                    None => Ok(p),
                    Some((k, v)) => {
                        let raw = a->Some_0.value@;
                        let long = raw.len() >= 4;
                        if k == "mapid"@ {
                            Ok(
                                (
                                    if long {
                                        Some(u32_at(raw, 0))
                                    } else {
                                        None
                                    },
                                    p.1,
                                    p.2,
                                    p.3,
                                    p.4,
                                    p.5,
                                ),
                            )
                        } else if k == "x"@ {
                            if long {
                                Ok((p.0, u32_at(raw, 0), p.2, p.3, p.4, p.5))
                            } else {
                                Err(())
                            }
                        } else if k == "y"@ {
                            if long {
                                Ok((p.0, p.1, u32_at(raw, 0), p.3, p.4, p.5))
                            } else {
                                Err(())
                            }
                        } else if k == "z"@ {
                            if long {
                                Ok((p.0, p.1, p.2, u32_at(raw, 0), p.4, p.5))
                            } else {
                                Err(())
                            }
                        } else if k == "type"@ {
                            Ok((p.0, p.1, p.2, p.3, v, p.5))
                        } else if k == "guid"@ {
                            Ok((p.0, p.1, p.2, p.3, p.4, v))
                        } else {
                            Ok(p)
                        }
                    },
                }
            },
        }
    }
}

/// A POI as values.
pub open spec fn poi_view(p: Poi) -> PoiView {
    (p.map_id, p.x, p.y, p.z, p.id@, p.guid@)
}

/// Reads an attribute's key (lower-cased) and value when both are UTF-8.
fn attr_text(a: &Option<XmlAttr>) -> (r: Option<(String, String)>)
    ensures
        match r {
            Some((k, v)) => attr_pair(*a) == Some((k@, v@)),
            None => attr_pair(*a) is None,
        },
{
    match a {
        None => None,
        Some(at) => match string_from_utf8(at.key.as_slice()) {
            None => None,
            Some(key) => match string_from_utf8(at.value.as_slice()) {
                None => None,
                Some(value) => Some((to_lowercase(key.as_str()), value)),
            },
        },
    }
}

impl Poi {
    /// Reads a `<POI>` tag's attributes in order. Attributes that could not
    /// be read, or whose key or value is not UTF-8, are skipped.
    pub fn from_attrs(attrs: &Vec<Option<XmlAttr>>) -> (r: Result<Poi, ReadError>)
        ensures
            match poi_from(attrs@) {
                Ok(p) => r matches Ok(q) && poi_view(q) == p,
                Err(_) => r matches Err(ReadError::IoErr),
            },
    {
        let mut map_id: Option<u32> = None;
        let mut x: u32 = 0;
        let mut y: u32 = 0;
        let mut z: u32 = 0;
        let mut id = String::new();
        let mut guid = String::new();
        let mut i: usize = 0;
        proof {
            reveal_strlit("mapid");
            reveal_strlit("x");
            reveal_strlit("y");
            reveal_strlit("z");
            reveal_strlit("type");
            reveal_strlit("guid");
        }
        while i < attrs.len()
            invariant
                i <= attrs@.len(),
                poi_from(attrs@.take(i as int)) == Ok::<PoiView, ()>(
                    (map_id, x, y, z, id@, guid@),
                ),
            decreases attrs@.len() - i,
        {
            proof {
                assert(attrs@.take(i + 1).drop_last() =~= attrs@.take(i as int));
                assert(attrs@.take(i + 1).last() == attrs@[i as int]);
            }
            match attr_text(&attrs[i]) {
                None => {},
                Some((key, value)) => {
                    let raw = match &attrs[i] {
                        Some(at) => at.value.as_slice(),
                        None => {
                            assert(false);
                            return Err(ReadError::IoErr);
                        },
                    };
                    let long = raw.len() >= 4;
                    if same_text(key.as_str(), "mapid") {
                        map_id = if long {
                            Some(read_le_u32(raw, 0))
                        } else {
                            None
                        };
                    } else if same_text(key.as_str(), "x") {
                        if !long {
                            proof {
                                lemma_poi_error_stays(attrs@, i as int + 1);
                            }
                            return Err(ReadError::IoErr);
                        }
                        x = read_le_u32(raw, 0);
                    } else if same_text(key.as_str(), "y") {
                        if !long {
                            proof {
                                lemma_poi_error_stays(attrs@, i as int + 1);
                            }
                            return Err(ReadError::IoErr);
                        }
                        y = read_le_u32(raw, 0);
                    } else if same_text(key.as_str(), "z") {
                        if !long {
                            proof {
                                lemma_poi_error_stays(attrs@, i as int + 1);
                            }
                            return Err(ReadError::IoErr);
                        }
                        z = read_le_u32(raw, 0);
                    } else if same_text(key.as_str(), "type") {
                        id = value;
                    } else if same_text(key.as_str(), "guid") {
                        guid = value;
                    }
                },
            }
            i = i + 1;
        }
        assert(attrs@.take(attrs@.len() as int) =~= attrs@);
        Ok(Poi { map_id, x, y, z, id, guid })
    }
}

/// Once an attribute of a POI is an error, the whole tag is.
proof fn lemma_poi_error_stays(attrs: Seq<Option<XmlAttr>>, j: int)
    requires
        0 <= j <= attrs.len(),
        poi_from(attrs.take(j)) is Err,
    ensures
        poi_from(attrs) is Err,
    decreases attrs.len() - j,
{
    if j < attrs.len() {
        assert(attrs.take(j + 1).drop_last() =~= attrs.take(j));
        lemma_poi_error_stays(attrs, j + 1);
    } else {
        assert(attrs.take(j) =~= attrs);
    }
}

/// Whether a category holds others, is a leaf, or only separates.
#[derive(Clone, Copy, Debug, Default, PartialEq, Eq)]
pub enum MarkerKind {
    #[default]
    Category,
    Leaf,
    Separator,
}

/// When a marker that was used shows up again. The reset time of
/// `ReappearAfterTime` is the bits of its `f32`.
#[derive(Clone, Copy, Debug, PartialEq, Eq)]
pub enum Behavior {
    AlwaysVisible,
    ReappearOnMapChange,
    ReappearDaily,
    DisappearOnUse,
    ReappearAfterTime(u32),
    ReappearMapReset,
    ReappearInstanceChange,
    ReappearDailyPerCharacter,
}

/// The behavior that a category's code and reset length give.
pub open spec fn behavior_of(code: Option<u8>, reset_length: Option<u32>) -> Option<Behavior> {
    match code {
        None => None,
        Some(c) => if c == 0 {
            Some(Behavior::AlwaysVisible)
        } else if c == 1 {
            Some(Behavior::ReappearOnMapChange)
        } else if c == 2 {
            Some(Behavior::ReappearDaily)
        } else if c == 3 {
            Some(Behavior::DisappearOnUse)
        } else if c == 4 {
            Some(Behavior::ReappearAfterTime(reset_length->Some_0))
        } else if c == 5 {
            Some(Behavior::ReappearMapReset)
        } else if c == 6 {
            Some(Behavior::ReappearInstanceChange)
        } else if c == 7 {
            Some(Behavior::ReappearDailyPerCharacter)
        } else {
            None
        },
    }
}

/// The code that the marker format gives each behavior.
pub open spec fn behavior_code(b: Behavior) -> u8 {
    match b {
        Behavior::AlwaysVisible => 0,
        Behavior::ReappearOnMapChange => 1,
        Behavior::ReappearDaily => 2,
        Behavior::DisappearOnUse => 3,
        Behavior::ReappearAfterTime(_) => 4,
        Behavior::ReappearMapReset => 5,
        Behavior::ReappearInstanceChange => 6,
        Behavior::ReappearDailyPerCharacter => 7,
    }
}

/// The reset length that a behavior carries.
pub open spec fn reset_of(b: Behavior) -> Option<u32> {
    match b {
        Behavior::ReappearAfterTime(t) => Some(t),
        _ => None,
    }
}

/// A category's code gives the behavior the format assigns to it: the code
/// of every behavior (with its reset length) gives that behavior back, a
/// code that gives a behavior is that behavior's code, and codes above 7, or
/// no code, give none.
pub proof fn law_behavior_codes(b: Behavior, code: u8, reset: Option<u32>)
    ensures
        behavior_of(Some(behavior_code(b)), reset_of(b)) == Some(b),
        (code != 4 || reset is Some) ==> (behavior_of(Some(code), reset) matches Some(b2)
            ==> behavior_code(b2) == code && (code == 4 ==> reset_of(b2) == reset)),
        code > 7 ==> behavior_of(Some(code), reset) is None,
        behavior_of(None, reset) is None,
{
}

impl Behavior {
    /// The behavior a category asks for; codes above 7 ask for none. Code 4
    /// needs a reset length.
    pub fn from_category(category: MarkerCategory) -> (r: Option<Behavior>)
        requires
            category.behavior == Some(4u8) ==> category.reset_length is Some,
        ensures
            r == behavior_of(category.behavior, category.reset_length),
            r matches Some(b) ==> category.behavior == Some(behavior_code(b)),
            r matches Some(Behavior::ReappearAfterTime(t)) ==> category.reset_length == Some(t),
            category.behavior matches Some(c) && c <= 7 ==> r is Some,
    {
        match category.behavior {
            Some(behavior) => match behavior {
                0 => Some(Behavior::AlwaysVisible),
                1 => Some(Behavior::ReappearOnMapChange),
                2 => Some(Behavior::ReappearDaily),
                3 => Some(Behavior::DisappearOnUse),
                4 => match category.reset_length {
                    Some(length) => Some(Behavior::ReappearAfterTime(length)),
                    None => None,
                },
                5 => Some(Behavior::ReappearMapReset),
                6 => Some(Behavior::ReappearInstanceChange),
                7 => Some(Behavior::ReappearDailyPerCharacter),
                _ => None,
            },
            None => None,
        }
    }
}

/// A marker category in the tree. Its id is the dotted path of names from
/// the top of the tree.
#[derive(Debug)]
pub struct Marker {
    pub id: String,
    pub label: String,
    pub kind: MarkerKind,
    pub depth: usize,
    pub behavior: Option<Behavior>,
    pub poi_tip: Option<String>,
    pub poi_description: Option<String>,
    pub trail_file: Option<String>,
}

/// What a `<MarkerCategory>` tag's attributes set: id, label, kind.
pub type MarkerAttrs = (Seq<char>, Seq<char>, MarkerKind);

/// The attributes of a `<MarkerCategory>` tag read in order; a later one
/// overrides an earlier one. `isseparator` makes a separator when its value
/// is `true` in any case.
pub open spec fn marker_attrs(attrs: Seq<Option<XmlAttr>>) -> MarkerAttrs
    decreases attrs.len(),
{
    if attrs.len() == 0 {
        (Seq::empty(), Seq::empty(), MarkerKind::Category)
    } else {
        let m = marker_attrs(attrs.drop_last());
        match attr_pair(attrs.last()) {
            None => m,
            Some((k, v)) => if k == "name"@ {
                (v, m.1, m.2)
            } else if k == "displayname"@ {
                (m.0, v, m.2)
            } else if k == "isseparator"@ && lowercase_of(v) == "true"@ {
                (m.0, m.1, MarkerKind::Separator)
            } else {
                m
            },
        }
    }
}

/// `m` with the id and depth it gets below `parent`, and the parent's
/// behavior when it has none.
pub open spec fn below_parent(m: Marker, parent: Marker) -> Marker {
    Marker {
        id: m.id,
        depth: (parent.depth + 1) as usize,
        behavior: if m.behavior is Some {
            m.behavior
        } else {
            parent.behavior
        },
        ..m
    }
}

impl Marker {
    /// A marker with an id, a label and a kind, and nothing else set.
    pub fn new(id: String, label: String, kind: MarkerKind) -> (m: Marker)
        ensures
            m.id == id,
            m.label == label,
            m.kind == kind,
            m.depth == 0,
            m.behavior is None,
            m.poi_tip is None,
            m.poi_description is None,
            m.trail_file is None,
    {
        Marker {
            id,
            label,
            kind,
            depth: 0,
            behavior: None,
            poi_tip: None,
            poi_description: None,
            trail_file: None,
        }
    }

    /// Places the marker below `parent`: its id becomes the parent's id, a
    /// dot and its own id; its depth is one more than the parent's; it takes
    /// the parent's behavior when it has none.
    pub fn copy_from_parent(&mut self, parent: &Marker)
        requires
            parent.depth < usize::MAX,
        ensures
            final(self).id@ == parent.id@ + seq!['.'] + old(self).id@,
            *final(self) == (Marker { id: final(self).id, ..below_parent(*old(self), *parent) }),
    {
        let mut id = owned(parent.id.as_str());
        push_char(&mut id, '.');
        push_str(&mut id, self.id.as_str());
        self.id = id;
        self.depth = parent.depth + 1;
        if self.behavior.is_none() {
            self.behavior = parent.behavior;
        }
    }

    /// Reads a `<MarkerCategory>` tag's attributes. Attributes that could not
    /// be read, or whose key or value is not UTF-8, are skipped; reading
    /// always succeeds.
    pub fn from_attrs(attrs: &Vec<Option<XmlAttr>>) -> (r: Result<Marker, ReadError>)
        ensures
            r matches Ok(m) && (m.id@, m.label@, m.kind) == marker_attrs(attrs@) && m.depth == 0
                && m.behavior is None && m.poi_tip is None && m.poi_description is None
                && m.trail_file is None,
    {
        let mut this = Marker::new(String::new(), String::new(), MarkerKind::Category);
        proof {
            reveal_strlit("name");
            reveal_strlit("displayname");
            reveal_strlit("isseparator");
            reveal_strlit("true");
        }
        let mut i: usize = 0;
        while i < attrs.len()
            invariant
                i <= attrs@.len(),
                (this.id@, this.label@, this.kind) == marker_attrs(attrs@.take(i as int)),
                this.depth == 0,
                this.behavior is None,
                this.poi_tip is None,
                this.poi_description is None,
                this.trail_file is None,
            decreases attrs@.len() - i,
        {
            proof {
                assert(attrs@.take(i + 1).drop_last() =~= attrs@.take(i as int));
                assert(attrs@.take(i + 1).last() == attrs@[i as int]);
            }
            match attr_text(&attrs[i]) {
                None => {},
                Some((key, value)) => {
                    if same_text(key.as_str(), "name") {
                        this.id = value;
                    } else if same_text(key.as_str(), "displayname") {
                        this.label = value;
                    } else if same_text(key.as_str(), "isseparator") {
                        let lower = to_lowercase(value.as_str());
                        if same_text("true", lower.as_str()) {
                            this.kind = MarkerKind::Separator;
                        }
                    }
                },
            }
            i = i + 1;
        }
        assert(attrs@.take(attrs@.len() as int) =~= attrs@);
        Ok(this)
    }
}

/// The id of a marker: the dotted path of category names.
#[derive(Hash, Clone, Debug, PartialEq, Eq)]
pub struct MarkerID(pub String);

impl MarkerID {
    /// The id's text.
    pub fn as_str(&self) -> (r: &str)
        ensures
            r@ == self.0@,
    {
        self.0.as_str()
    }
}

impl From<String> for MarkerID {
    fn from(value: String) -> (r: MarkerID) {
        MarkerID(value)
    }
}

impl vstd::std_specs::convert::FromSpecImpl<String> for MarkerID {
    open spec fn obeys_from_spec() -> bool {
        true
    }

    open spec fn from_spec(v: String) -> MarkerID {
        MarkerID(v)
    }
}

/// A tag of a category file.
#[derive(Debug)]
pub enum Tag {
    OverlayData,
    Marker(Marker),
    POIs,
    POI(Poi),
    Route,
    UnknownField(String),
}

/// What reading an element gives: its exact name says which tag it is, and
/// its attributes fill the tag.
pub open spec fn element_tag(name: Seq<u8>, attrs: Seq<Option<XmlAttr>>, r: Result<Tag, ReadError>) -> bool {
    &&& (name_text(name) == Some("OverlayData"@) ==> (r matches Ok(Tag::OverlayData)))
    &&& (name_text(name) == Some("MarkerCategory"@) ==> (r matches Ok(Tag::Marker(m)) && (
        m.id@,
        m.label@,
        m.kind,
    ) == marker_attrs(attrs) && m.depth == 0 && m.behavior is None && m.poi_tip is None
        && m.poi_description is None && m.trail_file is None))
    &&& (name_text(name) == Some("POIs"@) ==> (r matches Ok(Tag::POIs)))
    &&& (name_text(name) == Some("POI"@) ==> match poi_from(attrs) {
        Ok(p) => r matches Ok(Tag::POI(q)) && poi_view(q) == p,
        Err(_) => r matches Err(ReadError::IoErr),
    })
    &&& (!(name_text(name) == Some("OverlayData"@) || name_text(name) == Some("MarkerCategory"@)
        || name_text(name) == Some("POIs"@) || name_text(name) == Some("POI"@)) ==> (
    r matches Ok(Tag::UnknownField(f)) && f@ == lossy_utf8(name)))
}

/// The element name's text, when it is UTF-8.
pub open spec fn name_text(name: Seq<u8>) -> Option<Seq<char>> {
    if valid_utf8(name) {
        Some(decode_utf8(name))
    } else {
        None
    }
}

impl Tag {
    /// Reads an element by its exact name; any other element is an unknown
    /// field, named by its bytes read as UTF-8 with replacement characters.
    pub fn from_element(name: &[u8], attrs: &Vec<Option<XmlAttr>>) -> (r: Result<Tag, ReadError>)
        ensures
            element_tag(name@, attrs@, r),
    {
        proof {
            reveal_strlit("OverlayData");
            reveal_strlit("MarkerCategory");
            reveal_strlit("POIs");
            reveal_strlit("POI");
            assert("POIs"@.len() == 4 && "POI"@.len() == 3);
            assert("OverlayData"@.len() == 11 && "MarkerCategory"@.len() == 14);
        }
        let text = string_from_utf8(name);
        match text {
            Some(t) => {
                if same_text(t.as_str(), "OverlayData") {
                    return Ok(Tag::OverlayData);
                } else if same_text(t.as_str(), "MarkerCategory") {
                    return match Marker::from_attrs(attrs) {
                        Ok(m) => Ok(Tag::Marker(m)),
                        Err(e) => Err(e),
                    };
                } else if same_text(t.as_str(), "POIs") {
                    return Ok(Tag::POIs);
                } else if same_text(t.as_str(), "POI") {
                    return match Poi::from_attrs(attrs) {
                        Ok(p) => Ok(Tag::POI(p)),
                        Err(e) => Err(e),
                    };
                }
            },
            None => {},
        }
        Ok(Tag::UnknownField(utf8_lossy(name)))
    }
}

/// The keys of a list of keyed entries, as text.
pub open spec fn keys_of<T>(entries: Seq<(String, T)>) -> Seq<Seq<char>> {
    entries.map_values(|e: (String, T)| e.0@)
}

/// The position of the last entry with `key`, if any.
pub open spec fn latest(keys: Seq<Seq<char>>, key: Seq<char>) -> Option<int>
    decreases keys.len(),
{
    if keys.len() == 0 {
        None
    } else if keys.last() == key {
        Some(keys.len() - 1)
    } else {
        latest(keys.drop_last(), key)
    }
}

proof fn lemma_latest_in_range(keys: Seq<Seq<char>>, key: Seq<char>)
    ensures
        latest(keys, key) matches Some(i) ==> 0 <= i < keys.len() && keys[i] == key,
    decreases keys.len(),
{
    if keys.len() > 0 && keys.last() != key {
        lemma_latest_in_range(keys.drop_last(), key);
    }
}

/// Pushing an entry makes it the latest for its key and leaves the others.
proof fn lemma_latest_push(keys: Seq<Seq<char>>, k: Seq<char>, key: Seq<char>)
    ensures
        latest(keys.push(k), key) == (if k == key {
            Some(keys.len() as int)
        } else {
            latest(keys, key)
        }),
{
    assert(keys.push(k).drop_last() =~= keys);
}

/// The position of the last entry whose key is `key`.
fn find_latest<T>(entries: &Vec<(String, T)>, key: &str) -> (r: Option<usize>)
    ensures
        match r {
            Some(i) => latest(keys_of(entries@), key@) == Some(i as int),
            None => latest(keys_of(entries@), key@) is None,
        },
{
    let ghost keys = keys_of(entries@);
    let mut i: usize = entries.len();
    assert(keys.take(i as int) =~= keys);
    while i > 0
        invariant
            i <= entries@.len(),
            keys == keys_of(entries@),
            latest(keys, key@) == latest(keys.take(i as int), key@),
        decreases i,
    {
        i = i - 1;
        let ghost t = keys.take(i + 1);
        assert(t.drop_last() =~= keys.take(i as int));
        assert(t.last() == entries@[i as int].0@);
        if same_text(entries[i].0.as_str(), key) {
            return Some(i);
        }
    }
    None
}

/// The markers that some nodes carry, in order, skipping nodes without one.
pub open spec fn present(m: Map<usize, Marker>, ids: Seq<usize>) -> Seq<Marker>
    decreases ids.len(),
{
    if ids.len() == 0 {
        Seq::empty()
    } else {
        let rest = present(m, ids.drop_last());
        if m.contains_key(ids.last()) {
            rest.push(m[ids.last()])
        } else {
            rest
        }
    }
}

/// The markers of a folder of category files, as a graph of categories.
pub struct MarkerTree {
    roots: HashSet<usize>,
    indexes: Vec<(String, usize)>,
    markers: HashMap<usize, Marker>,
    graph: DiGraph<usize, ()>,
    pois: Vec<(String, Vec<Position>)>,
}

impl MarkerTree {
    /// The nodes that have no parent.
    pub closed spec fn roots_view(&self) -> Set<usize> {
        self.roots@
    }

    /// The node of each marker id, the latest entry for an id counting.
    pub closed spec fn index_entries(&self) -> Seq<(String, usize)> {
        self.indexes@
    }

    /// The marker of each node.
    pub closed spec fn markers_view(&self) -> Map<usize, Marker> {
        self.markers@
    }

    /// The weights of the graph's nodes.
    pub closed spec fn nodes(&self) -> Seq<usize> {
        weights(self.graph)
    }

    /// The sub-categories of each node, the most recently added first.
    pub closed spec fn children_view(&self) -> Seq<Seq<usize>> {
        outs(self.graph)
    }

    /// The categories above each node, the most recently added first.
    pub closed spec fn parents_view(&self) -> Seq<Seq<usize>> {
        ins(self.graph)
    }

    /// How many edges the graph has.
    pub closed spec fn edge_count(&self) -> nat {
        graph_edge_count(self.graph)
    }

    /// The graph is well formed.
    pub closed spec fn graph_ok(&self) -> bool {
        graph_wf(self.graph)
    }

    /// The positions of each id's POIs, the latest entry for an id counting.
    pub closed spec fn poi_entries(&self) -> Seq<(String, Vec<Position>)> {
        self.pois@
    }

    /// The node of a marker id.
    pub open spec fn index_of(&self, id: Seq<char>) -> Option<usize> {
        match latest(keys_of(self.index_entries()), id) {
            Some(i) => Some(self.index_entries()[i].1),
            None => None,
        }
    }

    /// The positions of an id's POIs.
    pub open spec fn pois_of(&self, id: Seq<char>) -> Option<Seq<Position>> {
        match latest(keys_of(self.poi_entries()), id) {
            Some(i) => Some(self.poi_entries()[i].1@),
            None => None,
        }
    }

    /// Edges join nodes of the graph, and ids lead to nodes of the graph.
    pub open spec fn wf(&self) -> bool {
        &&& self.graph_ok()
        &&& forall|k: int|
            0 <= k < self.index_entries().len() ==> #[trigger] self.index_entries()[k].1
                < self.nodes().len()
    }

    /// An empty tree.
    pub fn new() -> (t: MarkerTree)
        ensures
            t.wf(),
            t.roots_view() == Set::<usize>::empty(),
            t.index_entries().len() == 0,
            t.markers_view() == Map::<usize, Marker>::empty(),
            t.nodes().len() == 0,
            t.edge_count() == 0,
            t.poi_entries().len() == 0,
    {
        MarkerTree {
            roots: HashSet::new(),
            indexes: Vec::new(),
            markers: HashMap::new(),
            graph: graph_new(),
            pois: Vec::new(),
        }
    }

    /// The node of a marker id, if the id is known.
    fn find_index(&self, id: &str) -> (r: Option<usize>)
        requires
            self.wf(),
        ensures
            r == self.index_of(id@),
            r matches Some(n) ==> n < self.nodes().len(),
    {
        match find_latest(&self.indexes, id) {
            Some(i) => {
                proof {
                    lemma_latest_in_range(keys_of(self.indexes@), id@);
                    assert(latest(keys_of(self.index_entries()), id@) == Some(i as int));
                }
                Some(self.indexes[i].1)
            },
            None => None,
        }
    }

    /// The positions of the POIs of a marker id, if it has any.
    pub fn get_pois(&self, id: &str) -> (r: Option<&Vec<Position>>)
        ensures
            match self.pois_of(id@) {
                Some(ps) => r matches Some(v) && v@ == ps,
                None => r is None,
            },
    {
        match find_latest(&self.pois, id) {
            Some(i) => {
                proof {
                    lemma_latest_in_range(keys_of(self.pois@), id@);
                    assert(latest(keys_of(self.poi_entries()), id@) == Some(i as int));
                }
                Some(&self.pois[i].1)
            },
            None => None,
        }
    }

    /// The marker of a known id.
    pub fn get(&self, id: &str) -> (r: Option<&Marker>)
        requires
            self.wf(),
            self.index_of(id@) is Some,
        ensures
            ({
                let n = self.index_of(id@)->Some_0;
                if self.markers_view().contains_key(n) {
                    r matches Some(m) && *m == self.markers_view()[n]
                } else {
                    r is None
                }
            }),
    {
        let n = match self.find_index(id) {
            Some(n) => n,
            None => {
                return None;
            },
        };
        self.markers.get(&n)
    }

    /// The marker of a known id, to change: a change made through it
    /// changes that marker alone.
    pub fn get_mut(&mut self, id: &str) -> (r: Option<&mut Marker>)
        requires
            old(self).wf(),
            old(self).index_of(id@) is Some,
        ensures
            final(self).roots_view() == old(self).roots_view(),
            final(self).index_entries() == old(self).index_entries(),
            final(self).poi_entries() == old(self).poi_entries(),
            final(self).nodes() == old(self).nodes(),
            final(self).children_view() == old(self).children_view(),
            final(self).parents_view() == old(self).parents_view(),
            ({
                let n = old(self).index_of(id@)->Some_0;
                if old(self).markers_view().contains_key(n) {
                    r matches Some(m) && *m == old(self).markers_view()[n]
                        && final(self).markers_view() == old(self).markers_view().insert(n, *final(m))
                } else {
                    r is None && final(self).markers_view() == old(self).markers_view()
                }
            }),
    {
        let n = match self.find_index(id) {
            Some(n) => n,
            None => {
                return None;
            },
        };
        match self.markers.entry(n) {
            Entry::Occupied(e) => Some(e.into_mut()),
            Entry::Vacant(_) => None,
        }
    }

    /// The markers of some nodes, in order, skipping nodes without one.
    fn markers_at(&self, ids: &Vec<usize>) -> (r: Vec<&Marker>)
        ensures
            r@.len() == present(self.markers_view(), ids@).len(),
            forall|k: int|
                0 <= k < r@.len() ==> *r@[k] == present(self.markers_view(), ids@)[k],
    {
        let mut out: Vec<&Marker> = Vec::new();
        let mut i: usize = 0;
        while i < ids.len()
            invariant
                i <= ids@.len(),
                out@.len() == present(self.markers_view(), ids@.take(i as int)).len(),
                forall|k: int|
                    0 <= k < out@.len() ==> *out@[k] == present(
                        self.markers_view(),
                        ids@.take(i as int),
                    )[k],
            decreases ids@.len() - i,
        {
            proof {
                assert(ids@.take(i + 1).drop_last() =~= ids@.take(i as int));
                assert(ids@.take(i + 1).last() == ids@[i as int]);
            }
            match self.markers.get(&ids[i]) {
                Some(m) => {
                    out.push(m);
                },
                None => {},
            }
            i = i + 1;
        }
        assert(ids@.take(ids@.len() as int) =~= ids@);
        out
    }

    /// The markers of the nodes without a parent, in no particular order.
    pub fn roots(&self) -> (r: Vec<&Marker>)
        ensures
            exists|order: Seq<usize>|
                #![trigger present(self.markers_view(), order)]
                order.no_duplicates() && order.to_set() == self.roots_view() && r@.len() == present(
                    self.markers_view(),
                    order,
                ).len() && forall|k: int|
                    0 <= k < r@.len() ==> *r@[k] == present(self.markers_view(), order)[k],
    {
        let mut ids: Vec<usize> = Vec::new();
        let ghost mut seen = Set::<usize>::empty();
        for x in it: self.roots.iter()
            invariant
                it.seq().unref().to_set() == self.roots@,
                it.seq().unref().no_duplicates(),
                ids@ == it.seq().take(it.index()).unref(),
                it.index() == it.seq().len() ==> ids@ == it.seq().unref(),
        {
            ids.push(*x);
            assert(ids@ =~= it.seq().take(it.index() + 1).unref());
            assert(it.seq().take(it.seq().len() as int) =~= it.seq());
        }
        let r = self.markers_at(&ids);
        assert(present(self.markers_view(), ids@) == present(self.markers_view(), ids@));
        r
    }

    /// The markers directly below a known id, the most recently added first.
    pub fn iter(&self, start: &str) -> (r: Vec<&Marker>)
        requires
            self.wf(),
            self.index_of(start@) is Some,
        ensures
            ({
                let ids = self.children_view()[self.index_of(start@)->Some_0 as int];
                &&& r@.len() == present(self.markers_view(), ids).len()
                &&& forall|k: int|
                    0 <= k < r@.len() ==> *r@[k] == present(self.markers_view(), ids)[k]
            }),
    {
        let n = match self.find_index(start) {
            Some(n) => n,
            None => {
                return Vec::new();
            },
        };
        let ids = graph_neighbors(&self.graph, n, true);
        self.markers_at(&ids)
    }

    /// A known id's marker and every marker below it, in the order of a
    /// depth-first search.
    pub fn iter_recursive(&self, start: &str) -> (r: Vec<&Marker>)
        requires
            self.wf(),
            self.index_of(start@) is Some,
        ensures
            ({
                let ids = dfs_preorder(self.children_view(), self.index_of(start@)->Some_0);
                &&& r@.len() == present(self.markers_view(), ids).len()
                &&& forall|k: int|
                    0 <= k < r@.len() ==> *r@[k] == present(self.markers_view(), ids)[k]
            }),
    {
        let n = match self.find_index(start) {
            Some(n) => n,
            None => {
                return Vec::new();
            },
        };
        let ids = graph_dfs(&self.graph, n);
        self.markers_at(&ids)
    }
}

/// Builds a `MarkerTree` from the tags of category files, in the order they
/// are read.
pub struct MarkerTreeBuilder {
    tree: MarkerTree,
    /// How many marker ids have a node of their own.
    count: usize,
    /// The categories from the one new markers go under up to the top.
    parent_id: VecDeque<usize>,
}

/// `m1` is `m0` placed below `parent`.
pub open spec fn placed_below(m1: Marker, m0: Marker, parent: Marker) -> bool {
    &&& m1.id@ == parent.id@ + seq!['.'] + m0.id@
    &&& m1 == (Marker { id: m1.id, ..below_parent(m0, parent) })
}

/// Every marker's depth is below the number of nodes.
pub open spec fn depths_bounded(t: MarkerTree) -> bool {
    forall|k: usize| #[trigger]
        t.markers_view().contains_key(k) ==> t.markers_view()[k].depth < t.nodes().len()
}

/// `b1` is `b0` after `marker` was added: its node is the one its id already
/// has, or a new one; it goes under the current parent (taking what it leaves
/// unset from it) or becomes a top category, and becomes the current parent.
pub open spec fn marker_placed(b0: MarkerTreeBuilder, b1: MarkerTreeBuilder, marker: Marker) -> bool {
    let t0 = b0.tree_view();
    let t1 = b1.tree_view();
    let known = t0.index_of(marker.id@);
    let n: usize = match known {
        Some(i) => i,
        None => b0.count_view(),
    };
    &&& b1.count_view() == (if known is Some {
        b0.count_view()
    } else {
        (b0.count_view() + 1) as usize
    })
    &&& t1.nodes() == t0.nodes().push(n)
    &&& b1.parents() == seq![n] + b0.parents()
    &&& t1.poi_entries() == t0.poi_entries()
    &&& t1.markers_view().dom() == t0.markers_view().dom().insert(n)
    &&& forall|k: usize|
        k != n && #[trigger] t0.markers_view().contains_key(k) ==> t1.markers_view()[k]
            == t0.markers_view()[k]
    &&& keys_of(t1.index_entries()) == keys_of(t0.index_entries()).push(t1.markers_view()[n].id@)
    &&& t1.index_entries().last().1 == n
    &&& t1.index_entries().drop_last() == t0.index_entries()
    &&& if b0.parents().len() > 0 {
        let p = b0.parents()[0];
        &&& t1.children_view() == t0.children_view().push(Seq::empty()).update(
            p as int,
            seq![n] + t0.children_view()[p as int],
        )
        &&& t1.parents_view() == t0.parents_view().push(Seq::empty()).update(
            n as int,
            seq![p] + t0.parents_view().push(Seq::empty())[n as int],
        )
        &&& t1.edge_count() == t0.edge_count() + 1
        &&& t1.roots_view() == t0.roots_view()
        &&& placed_below(t1.markers_view()[n], marker, t0.markers_view()[p])
    } else {
        &&& t1.children_view() == t0.children_view().push(Seq::empty())
        &&& t1.parents_view() == t0.parents_view().push(Seq::empty())
        &&& t1.edge_count() == t0.edge_count()
        &&& t1.roots_view() == t0.roots_view().insert(n)
        &&& t1.markers_view()[n] == marker
    }
}

/// `b1` is `b0` with `pos` recorded as the last position of the POIs named
/// `id`; nothing else changes.
pub open spec fn poi_recorded(
    b0: MarkerTreeBuilder,
    b1: MarkerTreeBuilder,
    id: Seq<char>,
    pos: Position,
) -> bool {
    &&& b1.count_view() == b0.count_view()
    &&& b1.parents() == b0.parents()
    &&& b1.tree_view().roots_view() == b0.tree_view().roots_view()
    &&& b1.tree_view().index_entries() == b0.tree_view().index_entries()
    &&& b1.tree_view().markers_view() == b0.tree_view().markers_view()
    &&& b1.tree_view().nodes() == b0.tree_view().nodes()
    &&& b1.tree_view().children_view() == b0.tree_view().children_view()
    &&& b1.tree_view().parents_view() == b0.tree_view().parents_view()
    &&& b1.tree_view().edge_count() == b0.tree_view().edge_count()
    &&& forall|k: Seq<char>|
        #![trigger b1.tree_view().pois_of(k)]
        b1.tree_view().pois_of(k) == (if k == id {
            Some(
                match b0.tree_view().pois_of(id) {
                    Some(ps) => ps,
                    None => Seq::empty(),
                }.push(pos),
            )
        } else {
            b0.tree_view().pois_of(k)
        })
}

impl MarkerTreeBuilder {
    /// The tree built so far.
    pub closed spec fn tree_view(&self) -> MarkerTree {
        self.tree
    }

    /// How many marker ids have a node of their own.
    pub closed spec fn count_view(&self) -> usize {
        self.count
    }

    /// The categories from the current parent up to the top.
    pub closed spec fn parents(&self) -> Seq<usize> {
        self.parent_id@
    }

    /// The tree is well formed, numbers handed out stay below the count and
    /// the node count, and every parent has its marker.
    pub open spec fn wf(&self) -> bool {
        let t = self.tree_view();
        &&& t.wf()
        &&& self.count_view() <= t.nodes().len()
        &&& forall|k: int|
            0 <= k < t.index_entries().len() ==> #[trigger] t.index_entries()[k].1
                < self.count_view()
        &&& forall|k: int|
            0 <= k < self.parents().len() ==> #[trigger] self.parents()[k] < self.count_view()
                && t.markers_view().contains_key(self.parents()[k])
    }

    /// Whether a file of `len` bytes fits: reading it adds at most one node
    /// and one edge per byte, and both counts must stay below `u32::MAX`.
    pub fn has_room(&self, len: usize) -> (r: bool)
        ensures
            r == (self.tree_view().nodes().len() + len < u32::MAX
                && self.tree_view().edge_count() + len < u32::MAX),
    {
        let nodes = graph_node_count(&self.tree.graph);
        let edges = graph_edges(&self.tree.graph);
        nodes < u32::MAX as usize && len < u32::MAX as usize - nodes && edges < u32::MAX as usize
            && len < u32::MAX as usize - edges
    }

    /// A builder with an empty tree.
    pub fn new() -> (b: MarkerTreeBuilder)
        ensures
            b.wf(),
            depths_bounded(b.tree_view()),
            b.count_view() == 0,
            b.parents().len() == 0,
            b.tree_view().roots_view() == Set::<usize>::empty(),
            b.tree_view().index_entries().len() == 0,
            b.tree_view().markers_view() == Map::<usize, Marker>::empty(),
            b.tree_view().nodes().len() == 0,
            b.tree_view().edge_count() == 0,
            b.tree_view().poi_entries().len() == 0,
    {
        MarkerTreeBuilder { tree: MarkerTree::new(), count: 0, parent_id: VecDeque::new() }
    }

    /// The node for a marker id: the one it already has, or the next number.
    fn get_or_create_index(&mut self, marker_id: &str) -> (n: usize)
        requires
            old(self).wf(),
            old(self).tree_view().nodes().len() < u32::MAX,
        ensures
            final(self).tree_view() == old(self).tree_view(),
            final(self).parents() == old(self).parents(),
            match old(self).tree_view().index_of(marker_id@) {
                Some(i) => n == i && final(self).count_view() == old(self).count_view(),
                None => n == old(self).count_view() && final(self).count_view()
                    == old(self).count_view() + 1,
            },
    {
        match self.tree.find_index(marker_id) {
            Some(n) => n,
            None => {
                let i = self.count;
                self.count = self.count + 1;
                i
            },
        }
    }

    /// Adds a marker under the current parent, or as a top category when
    /// there is none, and makes it the current parent. Its node is the one
    /// its id (as given, before it is placed below its parent) already has,
    /// or a new one; the graph gets a new node for it either way.
    pub fn add_marker(&mut self, marker: Marker)
        requires
            old(self).wf(),
            old(self).tree_view().nodes().len() < u32::MAX,
            old(self).tree_view().edge_count() < u32::MAX,
            old(self).parents().len() > 0 ==> old(self).tree_view().markers_view()[old(
                self,
            ).parents()[0]].depth < usize::MAX,
        ensures
            final(self).wf(),
            ({
                let t0 = old(self).tree_view();
                let t1 = final(self).tree_view();
                let known = t0.index_of(marker.id@);
                let n: usize = match known {
                    Some(i) => i,
                    None => old(self).count_view(),
                };
                &&& final(self).count_view() == (if known is Some {
                    old(self).count_view()
                } else {
                    (old(self).count_view() + 1) as usize
                })
                &&& t1.nodes() == t0.nodes().push(n)
                &&& final(self).parents() == seq![n] + old(self).parents()
                &&& t1.poi_entries() == t0.poi_entries()
                &&& t1.markers_view().dom() == t0.markers_view().dom().insert(n)
                &&& forall|k: usize|
                    k != n && #[trigger] t0.markers_view().contains_key(k) ==> t1.markers_view()[k]
                        == t0.markers_view()[k]
                &&& keys_of(t1.index_entries()) == keys_of(t0.index_entries()).push(
                    t1.markers_view()[n].id@,
                )
                &&& t1.index_entries().last().1 == n
                &&& t1.index_entries().drop_last() == t0.index_entries()
                &&& if old(self).parents().len() > 0 {
                    let p = old(self).parents()[0];
                    &&& t1.children_view() == t0.children_view().push(Seq::empty()).update(
                        p as int,
                        seq![n] + t0.children_view()[p as int],
                    )
                    &&& t1.parents_view() == t0.parents_view().push(Seq::empty()).update(
                        n as int,
                        seq![p] + t0.parents_view().push(Seq::empty())[n as int],
                    )
                    &&& t1.edge_count() == t0.edge_count() + 1
                    &&& t1.roots_view() == t0.roots_view()
                    &&& placed_below(t1.markers_view()[n], marker, t0.markers_view()[p])
                } else {
                    &&& t1.children_view() == t0.children_view().push(Seq::empty())
                    &&& t1.parents_view() == t0.parents_view().push(Seq::empty())
                    &&& t1.edge_count() == t0.edge_count()
                    &&& t1.roots_view() == t0.roots_view().insert(n)
                    &&& t1.markers_view()[n] == marker
                }
            }),
            depths_bounded(old(self).tree_view()) && marker.depth <= old(
                self,
            ).tree_view().nodes().len() ==> depths_bounded(final(self).tree_view()),
    {
        let ghost t0 = self.tree;
        let ghost c0 = self.count;
        let n = self.get_or_create_index(marker.id.as_str());
        proof {
            lemma_latest_in_range(keys_of(t0.index_entries()), marker.id@);
            if t0.index_of(marker.id@) is Some {
                let i = latest(keys_of(t0.index_entries()), marker.id@)->Some_0;
                assert(t0.index_entries()[i].1 < c0);
            }
            assert(n < self.count);
            assert(self.count <= t0.nodes().len() + 1);
        }
        graph_add_node(&mut self.tree.graph, n);
        let mut marker = marker;
        let ghost m0 = marker;
        if self.parent_id.len() > 0 {
            let p = self.parent_id[0];
            assert(self.parent_id@[0] == p);
            assert(old(self).parents()[0] == p);
            assert(p < c0);
            graph_add_edge(&mut self.tree.graph, p, n);
            match self.tree.markers.get(&p) {
                Some(parent) => {
                    marker.copy_from_parent(parent);
                },
                None => {
                    assert(false);
                },
            }
        } else {
            self.tree.roots.insert(n);
        }
        self.parent_id.push_front(n);
        let id = owned(marker.id.as_str());
        let ghost m1 = marker;
        self.tree.markers.insert(n, marker);
        let ghost before = self.tree.indexes@;
        self.tree.indexes.push((id, n));
        proof {
            assert(keys_of(self.tree.indexes@) =~= keys_of(before).push(m1.id@));
            assert(self.tree.indexes@.drop_last() =~= before);
            let t1 = self.tree;
            assert forall|k: int| 0 <= k < t1.index_entries().len() implies #[trigger] t1.index_entries()[k].1
                < self.count by {
                if k < before.len() {
                    assert(t1.index_entries()[k] == before[k]);
                    assert(t0.index_entries()[k] == before[k]);
                    assert(before[k].1 < c0);
                }
            }
            assert forall|k: int| 0 <= k < self.parent_id@.len() implies #[trigger] self.parent_id@[k]
                < self.count && t1.markers_view().contains_key(self.parent_id@[k]) by {
                if k > 0 {
                    assert(self.parent_id@[k] == old(self).parents()[k - 1]);
                    assert(old(self).parents()[k - 1] < c0);
                    assert(t0.markers_view().contains_key(old(self).parents()[k - 1]));
                }
            }
            if depths_bounded(t0) && m0.depth <= t0.nodes().len() {
                assert forall|k: usize| #[trigger] t1.markers_view().contains_key(k) implies t1.markers_view()[k].depth
                    < t1.nodes().len() by {
                    if k != n {
                        assert(t0.markers_view().contains_key(k));
                    }
                }
            }
        }
    }

    /// Records the position of a POI under the id it names.
    pub fn add_poi(&mut self, id: String, x: u32, y: u32, z: u32)
        requires
            old(self).wf(),
        ensures
            final(self).wf(),
            final(self).count_view() == old(self).count_view(),
            final(self).parents() == old(self).parents(),
            final(self).tree_view().roots_view() == old(self).tree_view().roots_view(),
            final(self).tree_view().index_entries() == old(self).tree_view().index_entries(),
            final(self).tree_view().markers_view() == old(self).tree_view().markers_view(),
            final(self).tree_view().nodes() == old(self).tree_view().nodes(),
            final(self).tree_view().children_view() == old(self).tree_view().children_view(),
            final(self).tree_view().parents_view() == old(self).tree_view().parents_view(),
            final(self).tree_view().edge_count() == old(self).tree_view().edge_count(),
            forall|k: Seq<char>|
                #![trigger final(self).tree_view().pois_of(k)]
                final(self).tree_view().pois_of(k) == (if k == id@ {
                    Some(
                        match old(self).tree_view().pois_of(id@) {
                            Some(ps) => ps,
                            None => Seq::empty(),
                        }.push(Position { x, y, z }),
                    )
                } else {
                    old(self).tree_view().pois_of(k)
                }),
    {
        let position = Position { x, y, z };
        let ghost before = self.tree.pois@;
        let ghost t0 = self.tree;
        match find_latest(&self.tree.pois, id.as_str()) {
            Some(i) => {
                proof {
                    lemma_latest_in_range(keys_of(before), id@);
                }
                self.tree.pois[i].1.push(position);
                proof {
                    let after = self.tree.pois@;
                    assert(keys_of(after) =~= keys_of(before));
                    assert forall|k: Seq<char>| #[trigger] self.tree.pois_of(k) == (if k == id@ {
                        Some(old(self).tree_view().pois_of(id@)->Some_0.push(position))
                    } else {
                        old(self).tree_view().pois_of(k)
                    }) by {
                        lemma_latest_in_range(keys_of(before), k);
                    }
                }
            },
            None => {
                let mut ps: Vec<Position> = Vec::new();
                ps.push(position);
                self.tree.pois.push((id, ps));
                proof {
                    let after = self.tree.pois@;
                    assert(keys_of(after) =~= keys_of(before).push(id@));
                    assert forall|k: Seq<char>| #[trigger] self.tree.pois_of(k) == (if k == id@ {
                        Some(Seq::<Position>::empty().push(position))
                    } else {
                        old(self).tree_view().pois_of(k)
                    }) by {
                        lemma_latest_push(keys_of(before), id@, k);
                        lemma_latest_in_range(keys_of(before), k);
                        if k != id@ && latest(keys_of(before), k) is Some {
                            let i = latest(keys_of(before), k)->Some_0;
                            assert(after[i] == before[i]);
                        }
                    }
                }
            },
        }
        proof {
            assert(self.tree.indexes@ == t0.indexes@);
            assert(self.tree.graph == t0.graph);
            assert(self.tree.markers@ == t0.markers@);
            assert(self.tree.roots@ == t0.roots@);
            assert(self.tree_view().index_entries() == old(self).tree_view().index_entries());
            assert(self.tree_view().nodes() == old(self).tree_view().nodes());
            assert(self.tree_view().graph_ok() == old(self).tree_view().graph_ok());
            assert(self.tree_view().markers_view() == old(self).tree_view().markers_view());
            assert(self.parents() == old(self).parents());
            assert(self.count_view() == old(self).count_view());
            assert(self.tree_view().wf());
        }
    }

    /// Leaves the current category; the one above becomes the parent.
    pub fn up(&mut self)
        requires
            old(self).wf(),
        ensures
            final(self).wf(),
            final(self).tree_view() == old(self).tree_view(),
            final(self).count_view() == old(self).count_view(),
            final(self).parents() == (if old(self).parents().len() > 0 {
                old(self).parents().drop_first()
            } else {
                old(self).parents()
            }),
    {
        let ghost before = self.parent_id@;
        self.parent_id.pop_front();
        proof {
            if before.len() > 0 {
                assert(self.parent_id@ =~= before.drop_first());
                assert forall|k: int| 0 <= k < self.parent_id@.len() implies #[trigger] self.parent_id@[k]
                    < self.count && self.tree.markers_view().contains_key(self.parent_id@[k]) by {
                    assert(self.parent_id@[k] == before[k + 1]);
                }
            }
        }
    }

    /// Leaves every category: the next marker is a top one.
    pub fn new_root(&mut self)
        requires
            old(self).wf(),
        ensures
            final(self).wf(),
            final(self).tree_view() == old(self).tree_view(),
            final(self).count_view() == old(self).count_view(),
            final(self).parents().len() == 0,
    {
        self.parent_id.clear();
    }

    /// What a tag does: `<OverlayData>` leaves every category, a
    /// `<MarkerCategory>` adds a marker, a `<POI>` records its position, and
    /// the rest change nothing.
    pub fn add_tag(&mut self, tag: Tag)
        requires
            old(self).wf(),
            depths_bounded(old(self).tree_view()),
            old(self).tree_view().nodes().len() < u32::MAX,
            old(self).tree_view().edge_count() < u32::MAX,
            tag matches Tag::Marker(m) ==> m.depth == 0,
        ensures
            final(self).wf(),
            depths_bounded(final(self).tree_view()),
            final(self).tree_view().nodes().len() <= old(self).tree_view().nodes().len() + 1,
            final(self).tree_view().edge_count() <= old(self).tree_view().edge_count() + 1,
            tag_added(*old(self), *final(self), tag),
    {
        match tag {
            Tag::OverlayData => {
                self.new_root();
            },
            Tag::Marker(marker) => {
                proof {
                    if self.parents().len() > 0 {
                        assert(self.tree_view().markers_view().contains_key(self.parents()[0]));
                    }
                }
                self.add_marker(marker);
            },
            Tag::POIs => {},
            Tag::POI(poi) => {
                self.add_poi(poi.id, poi.x, poi.y, poi.z);
            },
            Tag::Route => {},
            Tag::UnknownField(_) => {},
        }
    }

    /// The finished tree.
    pub fn build(self) -> (t: MarkerTree)
        requires
            self.wf(),
        ensures
            t == self.tree_view(),
            t.wf(),
    {
        self.tree
    }
}

/// What a tag does to the builder: `<OverlayData>` leaves every category, a
/// `<MarkerCategory>` adds a marker, a `<POI>` records its position, and the
/// rest change nothing.
pub open spec fn tag_added(b0: MarkerTreeBuilder, b1: MarkerTreeBuilder, tag: Tag) -> bool {
    match tag {
        Tag::OverlayData => {
            &&& b1.tree_view() == b0.tree_view()
            &&& b1.count_view() == b0.count_view()
            &&& b1.parents().len() == 0
        },
        Tag::Marker(m) => marker_placed(b0, b1, m),
        Tag::POI(p) => poi_recorded(b0, b1, p.id@, Position { x: p.x, y: p.y, z: p.z }),
        _ => b1 == b0,
    }
}

/// `b1` is `b0` after leaving the current category.
pub open spec fn left_category(b0: MarkerTreeBuilder, b1: MarkerTreeBuilder) -> bool {
    &&& b1.tree_view() == b0.tree_view()
    &&& b1.count_view() == b0.count_view()
    &&& b1.parents() == (if b0.parents().len() > 0 {
        b0.parents().drop_first()
    } else {
        b0.parents()
    })
}

/// What an element does: it is read as a tag, which is added (and, for a
/// self-closing element, left again); an element that cannot be read as a
/// tag changes nothing.
pub open spec fn category_element_read(
    b0: MarkerTreeBuilder,
    b1: MarkerTreeBuilder,
    e: Element,
    close: bool,
) -> bool {
    exists|t: Result<Tag, ReadError>|
        #[trigger] element_tag(e.name@, e.attrs@, t) && match t {
            Ok(tag) => if close {
                exists|bm: MarkerTreeBuilder| #[trigger] tag_added(b0, bm, tag) && left_category(bm, b1)
            } else {
                tag_added(b0, b1, tag)
            },
            Err(_) => b1 == b0,
        }
}

/// What one event of a category file does to the builder.
pub open spec fn category_item_read(b0: MarkerTreeBuilder, b1: MarkerTreeBuilder, item: XmlItem) -> bool {
    match item {
        XmlItem::Start(e) => category_element_read(b0, b1, e, false),
        XmlItem::Empty(e) => category_element_read(b0, b1, e, true),
        XmlItem::End => left_category(b0, b1),
        _ => b1 == b0,
    }
}

/// `bs` are the builder before each of the first `k` events of `input` and
/// after the last of them, starting from `b0`; none of the events is an error
/// or the end of the document.
pub open spec fn category_chain(b0: MarkerTreeBuilder, bs: Seq<MarkerTreeBuilder>, input: Seq<u8>, k: nat) -> bool {
    &&& bs.len() == k + 1
    &&& bs[0] == b0
    &&& forall|j: nat|
        #![trigger xml_item_at(input, false, j)]
        j < k ==> match xml_item_at(input, false, j) {
            Some(item) => !(item is Eof) && category_item_read(bs[j as int], bs[j + 1int], item),
            None => false,
        }
}

/// `b` is `b0` after the first `k` events of `input` (text not trimmed),
/// none of which is an error or the end of the document.
pub open spec fn category_items_read(b0: MarkerTreeBuilder, b: MarkerTreeBuilder, input: Seq<u8>, k: nat) -> bool {
    exists|bs: Seq<MarkerTreeBuilder>| #[trigger] category_chain(b0, bs, input, k) && bs[k as int] == b
}

/// Reads one category file into the builder, event by event: an opening
/// tag is read and added, a self-closing one is read, added and left again,
/// a closing tag leaves the current category; tags that cannot be read are
/// skipped. At the end of the document no category is current any more.
/// Where `quick_xml` reports an error the reading stops with `Err`.
/// `quick_xml` takes at least one byte for every event before the end, so
/// reading stops after at most one event more than the document has bytes.
pub fn read_file(tree: &mut MarkerTreeBuilder, input: &[u8]) -> (r: Result<(), ReadError>)
    requires
        old(tree).wf(),
        depths_bounded(old(tree).tree_view()),
        old(tree).tree_view().nodes().len() + input@.len() < u32::MAX,
        old(tree).tree_view().edge_count() + input@.len() < u32::MAX,
    ensures
        final(tree).wf(),
        depths_bounded(final(tree).tree_view()),
        r is Ok ==> final(tree).parents().len() == 0,
        r is Ok ==> exists|k: nat, bm: MarkerTreeBuilder|
            #![trigger category_items_read(*old(tree), bm, input@, k)]
            k <= input@.len() + 1 && category_items_read(*old(tree), bm, input@, k) && (k
                == input@.len() + 1 || xml_item_at(input@, false, k) == Some(XmlItem::Eof))
                && tag_added(bm, *final(tree), Tag::OverlayData),
        r is Err ==> exists|k: nat|
            #![trigger category_items_read(*old(tree), *final(tree), input@, k)]
            k <= input@.len() && category_items_read(*old(tree), *final(tree), input@, k)
                && xml_item_at(input@, false, k) is None && r matches Err(ReadError::Xml(_)),
{
    let mut stream = XmlStream::new(input, false);
    let ghost b0 = *tree;
    let ghost n0 = tree.tree_view().nodes().len();
    let ghost e0 = tree.tree_view().edge_count();
    let ghost mut bs: Seq<MarkerTreeBuilder> = seq![*tree];
    let mut steps: usize = 0;
    while steps <= input.len()
        invariant
            b0 == *old(tree),
            tree.wf(),
            depths_bounded(tree.tree_view()),
            n0 + input@.len() < u32::MAX,
            e0 + input@.len() < u32::MAX,
            input@.len() < usize::MAX,
            steps <= input@.len() + 1,
            tree.tree_view().nodes().len() <= n0 + steps,
            tree.tree_view().edge_count() <= e0 + steps,
            stream@ == (input@, false, steps as nat),
            category_chain(b0, bs, input@, steps as nat),
            bs[steps as int] == *tree,
        decreases input@.len() + 1 - steps,
    {
        let ghost before = *tree;
        let ghost k = steps as nat;
        let res = stream.next();
        let ghost rr = res;
        let ghost mut it: XmlItem = XmlItem::Other;
        match res {
            Ok(XmlItem::Start(element)) => {
                let ghost e = element;
                proof {
                    it = XmlItem::Start(e);
                }
                let t = Tag::from_element(element.name.as_slice(), &element.attrs);
                match t {
                    Ok(tag) => {
                        let ghost tg = tag;
                        tree.add_tag(tag);
                        proof {
                            assert(tag_added(before, *tree, tg));
                        }
                    },
                    Err(_) => {},
                }
                proof {
                    assert(element_tag(e.name@, e.attrs@, t));
                    assert(category_item_read(before, *tree, XmlItem::Start(e)));
                }
            },
            Ok(XmlItem::Empty(element)) => {
                let ghost e = element;
                proof {
                    it = XmlItem::Empty(e);
                }
                let t = Tag::from_element(element.name.as_slice(), &element.attrs);
                match t {
                    Ok(tag) => {
                        let ghost tg = tag;
                        tree.add_tag(tag);
                        let ghost mid = *tree;
                        tree.up();
                        proof {
                            assert(tag_added(before, mid, tg));
                            assert(left_category(mid, *tree));
                        }
                    },
                    Err(_) => {},
                }
                proof {
                    assert(element_tag(e.name@, e.attrs@, t));
                    assert(category_item_read(before, *tree, XmlItem::Empty(e)));
                }
            },
            Ok(XmlItem::End) => {
                proof {
                    it = XmlItem::End;
                }
                tree.up();
            },
            Ok(XmlItem::Eof) => {
                tree.new_root();
                proof {
                    assert(category_chain(b0, bs, input@, k));
                    assert(category_items_read(b0, before, input@, k));
                }
                return Ok(());
            },
            Ok(XmlItem::Other) => {},
            Err(error) => {
                let position = stream.position();
                proof {
                    assert(category_chain(b0, bs, input@, k));
                    assert(category_items_read(b0, *tree, input@, k));
                }
                return Err(ReadError::Xml(XmlError { position, error }));
            },
        }
        proof {
            assert(xml_item_at(input@, false, k) == Some(it));
            assert(category_item_read(before, *tree, it));
            assert(!(it is Eof));
            let bs1 = bs.push(*tree);
            assert forall|j: nat| j < k + 1 implies match #[trigger] xml_item_at(input@, false, j) {
                Some(item) => !(item is Eof) && category_item_read(bs1[j as int], bs1[j + 1int], item),
                None => false,
            } by {
                if j < k {
                    assert(bs1[j as int] == bs[j as int] && bs1[j + 1int] == bs[j + 1int]);
                } else {
                    assert(bs1[j as int] == before && bs1[j + 1int] == *tree);
                }
            }
            bs = bs1;
        }
        steps = steps + 1;
    }
    let ghost last = *tree;
    tree.new_root();
    proof {
        assert(category_chain(b0, bs, input@, steps as nat));
        assert(category_items_read(b0, last, input@, steps as nat));
    }
    Ok(())
}

} // verus!
