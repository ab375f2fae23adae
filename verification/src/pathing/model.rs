//! The tags of the marker XML format and how their attributes are read.

use vstd::prelude::*;
use vstd::utf8::{decode_utf8, valid_utf8};
use std::collections::HashSet;
use crate::text::{lowercase_of, parse_u32, parse_u32_spec, same_text, string_from_utf8, to_lowercase, trim_ascii, trim_ascii_spec};

verus! {

broadcast use vstd::std_specs::hash::group_hash_axioms;

/// One attribute of an XML element, as raw bytes.
#[derive(Clone, Debug, PartialEq, Eq)]
pub struct XmlAttr {
    pub key: Vec<u8>,
    pub value: Vec<u8>,
}

/// What a `typed_path::Utf8WindowsPathBuf` holding `s` becomes after
/// `with_unix_encoding`, as text.
pub uninterp spec fn unix_path_of(s: Seq<char>) -> Seq<char>;

/// Reads `s` as a Windows path and re-encodes it as a Unix path with
/// `typed_path`; the result is `unix_path_of` the input.
#[verifier::external_body]
pub(crate) fn windows_path_to_unix(s: &str) -> (r: String)
    ensures
        r@ == unix_path_of(s@),
{
    let path: typed_path::Utf8WindowsPathBuf = typed_path::Utf8PathBuf::from(s);
    path.with_unix_encoding().into_string()
}

/// Whether a category is a folder of markers or only a visual separator.
#[derive(Clone, Copy, Debug, Default, PartialEq, Eq)]
pub enum MarkerKind {
    #[default]
    Category,
    Separator,
}

/// When a marker that was used shows up again. The reset time of
/// `ReappearAfterTime` is kept as the bits of its IEEE-754 single.
#[derive(Clone, Copy, Debug, PartialEq, Eq)]
pub enum Behavior {
    AlwaysVisible,
    ReappearOnMapChange,
    ReappearDaily,
    DisappearOnUse,
    ReappearAfterTime(u32),
    ReappearMapReset,
    ReappearInstanceChange,
    ReappearDailyPerCharacter,
}

/// A `<POI>` tag. The coordinates are kept as the text of their attributes;
/// reading them as numbers is left to the caller.
#[derive(Clone, Debug)]
pub struct PoiXml {
    pub id: String,
    pub map_id: Option<u32>,
    pub xpos: Option<String>,
    pub ypos: Option<String>,
    pub zpos: Option<String>,
    pub icon_file: Option<String>,
}

/// A `<Trail>` tag.
#[derive(Clone, Debug)]
pub struct TrailXml {
    pub id: String,
    pub trail_file: String,
    pub texture_file: Option<String>,
}

/// A `<MarkerCategory>` tag.
#[derive(Debug)]
pub struct MarkerXml {
    pub name: String,
    pub label: String,
    pub kind: MarkerKind,
    pub depth: usize,
    pub behavior: Option<Behavior>,
    pub poi_tip: Option<String>,
    pub poi_description: Option<String>,
    pub map_ids: HashSet<u32>,
    pub icon_file: Option<String>,
    pub texture: Option<String>,
}

/// Why a tag could not be read.
#[derive(Clone, Copy, Debug, PartialEq, Eq)]
pub enum TagError {
    /// The element's name is not UTF-8.
    NameNotUtf8,
    /// A POI without a `type` attribute.
    PoiMissingType,
    /// A trail without a `type` attribute.
    TrailMissingType,
    /// A trail without a `trailData` attribute.
    TrailMissingData,
}

/// The text of an optional string.
pub open spec fn opt_view(o: Option<String>) -> Option<Seq<char>> {
    match o {
        Some(s) => Some(s@),
        None => None,
    }
}

/// The key of an attribute, lower-cased, and its value, when both are UTF-8.
pub open spec fn attr_text(a: Option<XmlAttr>, trim: bool) -> Option<(Seq<char>, Seq<char>)> {
    match a {
        None => None,
        Some(at) => {
            let v = if trim {
                trim_ascii_spec(at.value@)
            } else {
                at.value@
            };
            if valid_utf8(at.key@) && valid_utf8(v) {
                Some((lowercase_of(decode_utf8(at.key@)), decode_utf8(v)))
            } else {
                None
            }
        },
    }
}

/// What a `<MarkerCategory>` tag's attributes set: name, label, kind, icon
/// file and texture.
pub type MarkerAttrs = (Seq<char>, Seq<char>, MarkerKind, Option<Seq<char>>, Option<Seq<char>>);

/// The attributes of a `<MarkerCategory>` tag read in order; a later
/// attribute overrides an earlier one.
pub open spec fn marker_attrs(attrs: Seq<Option<XmlAttr>>) -> MarkerAttrs
    decreases attrs.len(),
{
    if attrs.len() == 0 {
        (Seq::<char>::empty(), Seq::<char>::empty(), MarkerKind::Category, None, None)
    } else {
        let v = marker_attrs(attrs.drop_last());
        match attr_text(attrs.last(), false) {
            None => v,
            Some((k, val)) => if k == "name"@ {
                (val, v.1, v.2, v.3, v.4)
            } else if k == "displayname"@ {
                (v.0, val, v.2, v.3, v.4)
            } else if k == "isseparator"@ {
                if lowercase_of(val) == "true"@ || lowercase_of(val) == "1"@ {
                    (v.0, v.1, MarkerKind::Separator, v.3, v.4)
                } else {
                    v
                }
            } else if k == "iconfile"@ {
                (v.0, v.1, v.2, Some(unix_path_of(lowercase_of(val))), v.4)
            } else if k == "texture"@ {
                (v.0, v.1, v.2, v.3, Some(lowercase_of(val)))
            } else {
                v
            },
        }
    }
}

/// The parts of a `MarkerXml` that its attributes decide.
pub open spec fn marker_xml_attrs(m: MarkerXml) -> MarkerAttrs {
    (m.name@, m.label@, m.kind, opt_view(m.icon_file), opt_view(m.texture))
}

/// What a `<POI>` tag's attributes set: type, map id, x, y and z text, icon file.
pub type PoiAttrs = (
    Option<Seq<char>>,
    Option<u32>,
    Option<Seq<char>>,
    Option<Seq<char>>,
    Option<Seq<char>>,
    Option<Seq<char>>,
);

/// The attributes of a `<POI>` tag read in order, values trimmed of ASCII
/// whitespace; a later attribute overrides an earlier one.
pub open spec fn poi_attrs(attrs: Seq<Option<XmlAttr>>) -> PoiAttrs
    decreases attrs.len(),
{
    if attrs.len() == 0 {
        (None, None, None, None, None, None)
    } else {
        let v = poi_attrs(attrs.drop_last());
        match attr_text(attrs.last(), true) {
            None => v,
            Some((k, val)) => if k == "mapid"@ {
                (v.0, parse_u32_spec(val), v.2, v.3, v.4, v.5)
            } else if k == "xpos"@ {
                (v.0, v.1, Some(val), v.3, v.4, v.5)
            } else if k == "ypos"@ {
                (v.0, v.1, v.2, Some(val), v.4, v.5)
            } else if k == "zpos"@ {
                (v.0, v.1, v.2, v.3, Some(val), v.5)
            } else if k == "type"@ {
                (Some(val), v.1, v.2, v.3, v.4, v.5)
            } else if k == "iconfile"@ {
                (v.0, v.1, v.2, v.3, v.4, Some(unix_path_of(val)))
            } else {
                v
            },
        }
    }
}

/// The parts of a `PoiXml`, as text.
pub open spec fn poi_xml_attrs(p: PoiXml) -> PoiAttrs {
    (Some(p.id@), p.map_id, opt_view(p.xpos), opt_view(p.ypos), opt_view(p.zpos), opt_view(p.icon_file))
}

/// What a `<Trail>` tag's attributes set: type, trail data file, texture.
pub type TrailAttrs = (Option<Seq<char>>, Option<Seq<char>>, Option<Seq<char>>);

/// The attributes of a `<Trail>` tag read in order, values trimmed of ASCII
/// whitespace; a later attribute overrides an earlier one.
pub open spec fn trail_attrs(attrs: Seq<Option<XmlAttr>>) -> TrailAttrs
    decreases attrs.len(),
{
    if attrs.len() == 0 {
        (None, None, None)
    } else {
        let v = trail_attrs(attrs.drop_last());
        match attr_text(attrs.last(), true) {
            None => v,
            Some((k, val)) => if k == "type"@ {
                (Some(val), v.1, v.2)
            } else if k == "traildata"@ {
                (v.0, Some(val), v.2)
            } else if k == "texture"@ {
                (v.0, v.1, Some(val))
            } else {
                v
            },
        }
    }
}

/// The lower-cased text of an optional string.
pub open spec fn opt_lowercase(o: Option<Seq<char>>) -> Option<Seq<char>> {
    match o {
        Some(x) => Some(lowercase_of(x)),
        None => None,
    }
}

/// Reads an attribute's key (lower-cased) and value when both are UTF-8.
fn read_attr(a: &Option<XmlAttr>, trim: bool) -> (r: Option<(String, String)>)
    ensures
        match r {
            Some((k, v)) => attr_text(*a, trim) == Some((k@, v@)),
            None => attr_text(*a, trim) is None,
        },
{
    match a {
        None => None,
        Some(at) => {
            let key = string_from_utf8(at.key.as_slice());
            match key {
                None => None,
                Some(key) => {
                    let value = if trim {
                        let t = trim_ascii(at.value.as_slice());
                        string_from_utf8(t.as_slice())
                    } else {
                        string_from_utf8(at.value.as_slice())
                    };
                    match value {
                        None => None,
                        Some(value) => Some((to_lowercase(key.as_str()), value)),
                    }
                },
            }
        },
    }
}

impl MarkerXml {
    /// Reads a `<MarkerCategory>` tag's attributes. Attributes that could not
    /// be read, or whose key or value is not UTF-8, are skipped.
    pub fn from_attrs(attrs: &Vec<Option<XmlAttr>>) -> (r: Result<MarkerXml, TagError>)
        ensures
            r matches Ok(m) && marker_xml_attrs(m) == marker_attrs(attrs@) && m.depth == 0
                && m.behavior is None && m.poi_tip is None && m.poi_description is None
                && m.map_ids@ == Set::<u32>::empty(),
            r matches Ok(m) ==> {
                &&& m.name@ == (match last_attr(attrs@, "name"@, false) {
                    Some(v) => v,
                    None => Seq::<char>::empty(),
                })
                &&& m.label@ == (match last_attr(attrs@, "displayname"@, false) {
                    Some(v) => v,
                    None => Seq::<char>::empty(),
                })
                &&& (m.kind == MarkerKind::Separator <==> exists|j: int|
                    0 <= j < attrs@.len() && #[trigger] separator_attr(attrs@[j]))
                &&& opt_view(m.icon_file) == (match last_attr(attrs@, "iconfile"@, false) {
                    Some(v) => Some(unix_path_of(lowercase_of(v))),
                    None => None,
                })
                &&& opt_view(m.texture) == opt_lowercase(last_attr(attrs@, "texture"@, false))
            },
    {
        proof {
            law_marker_parts_by_key(attrs@);
        }
        let mut this = MarkerXml {
            name: String::new(),
            label: String::new(),
            kind: MarkerKind::Category,
            depth: 0,
            behavior: None,
            poi_tip: None,
            poi_description: None,
            map_ids: HashSet::new(),
            icon_file: None,
            texture: None,
        };
        let mut i: usize = 0;
        while i < attrs.len()
            invariant
                i <= attrs@.len(),
                marker_xml_attrs(this) == marker_attrs(attrs@.take(i as int)),
                this.depth == 0,
                this.behavior is None,
                this.poi_tip is None,
                this.poi_description is None,
                this.map_ids@ == Set::<u32>::empty(),
            decreases attrs@.len() - i,
        {
            proof {
                assert(attrs@.take(i + 1).drop_last() =~= attrs@.take(i as int));
                assert(attrs@.take(i + 1).last() == attrs@[i as int]);
            }
            match read_attr(&attrs[i], false) {
                None => {},
                Some((key, value)) => {
                    if same_text(key.as_str(), "name") {
                        this.name = value;
                    } else if same_text(key.as_str(), "displayname") {
                        this.label = value;
                    } else if same_text(key.as_str(), "isseparator") {
                        let lv = to_lowercase(value.as_str());
                        if same_text(lv.as_str(), "true") || same_text(lv.as_str(), "1") {
                            this.kind = MarkerKind::Separator;
                        }
                    } else if same_text(key.as_str(), "iconfile") {
                        let lv = to_lowercase(value.as_str());
                        this.icon_file = Some(windows_path_to_unix(lv.as_str()));
                    } else if same_text(key.as_str(), "texture") {
                        this.texture = Some(to_lowercase(value.as_str()));
                    }
                },
            }
            i = i + 1;
        }
        assert(attrs@.take(attrs@.len() as int) =~= attrs@);
        Ok(this)
    }
}

impl PoiXml {
    /// Reads a `<POI>` tag's attributes, values trimmed of ASCII whitespace.
    /// A POI needs a `type`.
    pub fn from_attrs(attrs: &Vec<Option<XmlAttr>>) -> (r: Result<PoiXml, TagError>)
        ensures
            poi_attrs(attrs@).0 is None ==> r == Err::<PoiXml, TagError>(TagError::PoiMissingType),
            poi_attrs(attrs@).0 is Some ==> (r matches Ok(p) && poi_xml_attrs(p) == poi_attrs(attrs@)),
            r matches Ok(p) ==> {
                &&& Some(p.id@) == last_attr(attrs@, "type"@, true)
                &&& p.map_id == last_map_id(attrs@)
                &&& opt_view(p.xpos) == last_attr(attrs@, "xpos"@, true)
                &&& opt_view(p.ypos) == last_attr(attrs@, "ypos"@, true)
                &&& opt_view(p.zpos) == last_attr(attrs@, "zpos"@, true)
                &&& opt_view(p.icon_file) == (match last_attr(attrs@, "iconfile"@, true) {
                    Some(v) => Some(unix_path_of(v)),
                    None => None,
                })
            },
    {
        proof {
            law_poi_parts_by_key(attrs@);
        }
        let mut id: Option<String> = None;
        let mut map_id: Option<u32> = None;
        let mut xpos: Option<String> = None;
        let mut ypos: Option<String> = None;
        let mut zpos: Option<String> = None;
        let mut icon_file: Option<String> = None;
        let mut i: usize = 0;
        while i < attrs.len()
            invariant
                i <= attrs@.len(),
                (opt_view(id), map_id, opt_view(xpos), opt_view(ypos), opt_view(zpos), opt_view(
                    icon_file,
                )) == poi_attrs(attrs@.take(i as int)),
            decreases attrs@.len() - i,
        {
            proof {
                assert(attrs@.take(i + 1).drop_last() =~= attrs@.take(i as int));
                assert(attrs@.take(i + 1).last() == attrs@[i as int]);
            }
            match read_attr(&attrs[i], true) {
                None => {},
                Some((key, value)) => {
                    if same_text(key.as_str(), "mapid") {
                        map_id = parse_u32(value.as_str());
                    } else if same_text(key.as_str(), "xpos") {
                        xpos = Some(value);
                    } else if same_text(key.as_str(), "ypos") {
                        ypos = Some(value);
                    } else if same_text(key.as_str(), "zpos") {
                        zpos = Some(value);
                    } else if same_text(key.as_str(), "type") {
                        id = Some(value);
                    } else if same_text(key.as_str(), "iconfile") {
                        icon_file = Some(windows_path_to_unix(value.as_str()));
                    }
                },
            }
            i = i + 1;
        }
        assert(attrs@.take(attrs@.len() as int) =~= attrs@);
        match id {
            None => Err(TagError::PoiMissingType),
            Some(id) => Ok(PoiXml { id, map_id, xpos, ypos, zpos, icon_file }),
        }
    }
}

impl TrailXml {
    /// Reads a `<Trail>` tag's attributes, values trimmed of ASCII whitespace.
    /// A trail needs a `type` and a `trailData`; the data file and the texture
    /// are lower-cased.
    pub fn from_attrs(attrs: &Vec<Option<XmlAttr>>) -> (r: Result<TrailXml, TagError>)
        ensures
            trail_attrs(attrs@).0 is None ==> r == Err::<TrailXml, TagError>(
                TagError::TrailMissingType,
            ),
            trail_attrs(attrs@).0 is Some && trail_attrs(attrs@).1 is None ==> r == Err::<
                TrailXml,
                TagError,
            >(TagError::TrailMissingData),
            trail_attrs(attrs@).0 is Some && trail_attrs(attrs@).1 is Some ==> (r matches Ok(t)
                && Some(t.id@) == trail_attrs(attrs@).0 && t.trail_file@ == lowercase_of(
                trail_attrs(attrs@).1->Some_0,
            ) && opt_view(t.texture_file) == opt_lowercase(trail_attrs(attrs@).2)),
            r matches Ok(t) ==> {
                &&& Some(t.id@) == last_attr(attrs@, "type"@, true)
                &&& last_attr(attrs@, "traildata"@, true) matches Some(d) && t.trail_file@ == lowercase_of(d)
                &&& opt_view(t.texture_file) == opt_lowercase(last_attr(attrs@, "texture"@, true))
            },
    {
        proof {
            law_trail_parts_by_key(attrs@);
        }
        let mut id: Option<String> = None;
        let mut trail_file: Option<String> = None;
        let mut texture_file: Option<String> = None;
        let mut i: usize = 0;
        while i < attrs.len()
            invariant
                i <= attrs@.len(),
                (opt_view(id), opt_view(trail_file), opt_view(texture_file)) == trail_attrs(
                    attrs@.take(i as int),
                ),
            decreases attrs@.len() - i,
        {
            proof {
                assert(attrs@.take(i + 1).drop_last() =~= attrs@.take(i as int));
                assert(attrs@.take(i + 1).last() == attrs@[i as int]);
            }
            match read_attr(&attrs[i], true) {
                None => {},
                Some((key, value)) => {
                    if same_text(key.as_str(), "type") {
                        id = Some(value);
                    } else if same_text(key.as_str(), "traildata") {
                        trail_file = Some(value);
                    } else if same_text(key.as_str(), "texture") {
                        texture_file = Some(value);
                    }
                },
            }
            i = i + 1;
        }
        assert(attrs@.take(attrs@.len() as int) =~= attrs@);
        match id {
            None => Err(TagError::TrailMissingType),
            Some(id) => match trail_file {
                None => Err(TagError::TrailMissingData),
                Some(file) => {
                    let texture_file = match texture_file {
                        Some(t) => Some(to_lowercase(t.as_str())),
                        None => None,
                    };
                    Ok(TrailXml { id, trail_file: to_lowercase(file.as_str()), texture_file })
                },
            },
        }
    }
}

/// The value of the last attribute of `attrs` whose key, lower-cased, is
/// `key`; `None` when no attribute has that key.
pub open spec fn last_attr(attrs: Seq<Option<XmlAttr>>, key: Seq<char>, trim: bool) -> Option<Seq<char>>
    decreases attrs.len(),
{
    if attrs.len() == 0 {
        None
    } else {
        match attr_text(attrs.last(), trim) {
            Some((k, v)) => if k == key {
                Some(v)
            } else {
                last_attr(attrs.drop_last(), key, trim)
            },
            None => last_attr(attrs.drop_last(), key, trim),
        }
    }
}

/// The number that the last `mapid` attribute gives, if it parses.
pub open spec fn last_map_id(attrs: Seq<Option<XmlAttr>>) -> Option<u32> {
    match last_attr(attrs, "mapid"@, true) {
        Some(v) => parse_u32_spec(v),
        None => None,
    }
}

/// Each part of a `<POI>` tag comes from its own attribute alone: the type,
/// the x, y and z text and the icon file are the (trimmed) values of the last
/// attribute of that name, and the map id is the number of the last `MapID`;
/// no attribute sets another's part.
pub proof fn law_poi_parts_by_key(attrs: Seq<Option<XmlAttr>>)
    ensures
        poi_attrs(attrs).0 == last_attr(attrs, "type"@, true),
        poi_attrs(attrs).1 == last_map_id(attrs),
        poi_attrs(attrs).2 == last_attr(attrs, "xpos"@, true),
        poi_attrs(attrs).3 == last_attr(attrs, "ypos"@, true),
        poi_attrs(attrs).4 == last_attr(attrs, "zpos"@, true),
        poi_attrs(attrs).5 == (match last_attr(attrs, "iconfile"@, true) {
            Some(v) => Some(unix_path_of(v)),
            None => None,
        }),
    decreases attrs.len(),
{
    reveal_strlit("type");
    reveal_strlit("mapid");
    reveal_strlit("xpos");
    reveal_strlit("ypos");
    reveal_strlit("zpos");
    reveal_strlit("iconfile");
    assert("type"@ != "mapid"@) by { assert("type"@.len() != "mapid"@.len()); }
    assert("type"@ != "xpos"@) by { assert("type"@[0] != "xpos"@[0]); }
    assert("type"@ != "ypos"@) by { assert("type"@[0] != "ypos"@[0]); }
    assert("type"@ != "zpos"@) by { assert("type"@[0] != "zpos"@[0]); }
    assert("type"@ != "iconfile"@) by { assert("type"@.len() != "iconfile"@.len()); }
    assert("mapid"@ != "xpos"@) by { assert("mapid"@.len() != "xpos"@.len()); }
    assert("mapid"@ != "ypos"@) by { assert("mapid"@.len() != "ypos"@.len()); }
    assert("mapid"@ != "zpos"@) by { assert("mapid"@.len() != "zpos"@.len()); }
    assert("mapid"@ != "iconfile"@) by { assert("mapid"@.len() != "iconfile"@.len()); }
    assert("xpos"@ != "ypos"@) by { assert("xpos"@[0] != "ypos"@[0]); }
    assert("xpos"@ != "zpos"@) by { assert("xpos"@[0] != "zpos"@[0]); }
    assert("xpos"@ != "iconfile"@) by { assert("xpos"@.len() != "iconfile"@.len()); }
    assert("ypos"@ != "zpos"@) by { assert("ypos"@[0] != "zpos"@[0]); }
    assert("ypos"@ != "iconfile"@) by { assert("ypos"@.len() != "iconfile"@.len()); }
    assert("zpos"@ != "iconfile"@) by { assert("zpos"@.len() != "iconfile"@.len()); }
    if attrs.len() > 0 {
        law_poi_parts_by_key(attrs.drop_last());
    }
}

/// Each part of a `<Trail>` tag comes from its own attribute alone: the
/// type, the trail data file and the texture are the (trimmed) values of the
/// last attribute of that name.
pub proof fn law_trail_parts_by_key(attrs: Seq<Option<XmlAttr>>)
    ensures
        trail_attrs(attrs).0 == last_attr(attrs, "type"@, true),
        trail_attrs(attrs).1 == last_attr(attrs, "traildata"@, true),
        trail_attrs(attrs).2 == last_attr(attrs, "texture"@, true),
    decreases attrs.len(),
{
    reveal_strlit("type");
    reveal_strlit("traildata");
    reveal_strlit("texture");
    assert("type"@ != "traildata"@) by { assert("type"@.len() != "traildata"@.len()); }
    assert("type"@ != "texture"@) by { assert("type"@.len() != "texture"@.len()); }
    assert("traildata"@ != "texture"@) by { assert("traildata"@.len() != "texture"@.len()); }
    if attrs.len() > 0 {
        law_trail_parts_by_key(attrs.drop_last());
    }
}

/// Attribute `a` marks a category as a separator: `IsSeparator` set to
/// `true` or `1`, in any case.
pub open spec fn separator_attr(a: Option<XmlAttr>) -> bool {
    attr_text(a, false) matches Some((k, v)) && k == "isseparator"@ && (lowercase_of(v) == "true"@
        || lowercase_of(v) == "1"@)
}

/// Each part of a `<MarkerCategory>` tag comes from its own attribute alone:
/// the name and label are the values of the last attribute of that name
/// (empty without one), the icon file and texture those of the last such
/// attribute, lower-cased; the category is a separator exactly when some
/// attribute marks it as one.
pub proof fn law_marker_parts_by_key(attrs: Seq<Option<XmlAttr>>)
    ensures
        marker_attrs(attrs).0 == (match last_attr(attrs, "name"@, false) {
            Some(v) => v,
            None => Seq::<char>::empty(),
        }),
        marker_attrs(attrs).1 == (match last_attr(attrs, "displayname"@, false) {
            Some(v) => v,
            None => Seq::<char>::empty(),
        }),
        marker_attrs(attrs).2 == (if exists|j: int| 0 <= j < attrs.len() && #[trigger] separator_attr(attrs[j]) {
            MarkerKind::Separator
        } else {
            MarkerKind::Category
        }),
        marker_attrs(attrs).3 == (match last_attr(attrs, "iconfile"@, false) {
            Some(v) => Some(unix_path_of(lowercase_of(v))),
            None => None,
        }),
        marker_attrs(attrs).4 == opt_lowercase(last_attr(attrs, "texture"@, false)),
    decreases attrs.len(),
{
    reveal_strlit("name");
    reveal_strlit("displayname");
    reveal_strlit("isseparator");
    reveal_strlit("iconfile");
    reveal_strlit("texture");
    assert("name"@ != "displayname"@) by { assert("name"@.len() != "displayname"@.len()); }
    assert("name"@ != "isseparator"@) by { assert("name"@.len() != "isseparator"@.len()); }
    assert("name"@ != "iconfile"@) by { assert("name"@.len() != "iconfile"@.len()); }
    assert("name"@ != "texture"@) by { assert("name"@.len() != "texture"@.len()); }
    assert("displayname"@ != "isseparator"@) by { assert("displayname"@[0] != "isseparator"@[0]); }
    assert("displayname"@ != "iconfile"@) by { assert("displayname"@.len() != "iconfile"@.len()); }
    assert("displayname"@ != "texture"@) by { assert("displayname"@.len() != "texture"@.len()); }
    assert("isseparator"@ != "iconfile"@) by { assert("isseparator"@.len() != "iconfile"@.len()); }
    assert("isseparator"@ != "texture"@) by { assert("isseparator"@.len() != "texture"@.len()); }
    assert("iconfile"@ != "texture"@) by { assert("iconfile"@.len() != "texture"@.len()); }
    if attrs.len() > 0 {
        let init = attrs.drop_last();
        law_marker_parts_by_key(init);
        let any_init = exists|j: int| 0 <= j < init.len() && #[trigger] separator_attr(init[j]);
        let any_all = exists|j: int| 0 <= j < attrs.len() && #[trigger] separator_attr(attrs[j]);
        if any_init {
            let j = choose|j: int| 0 <= j < init.len() && #[trigger] separator_attr(init[j]);
            assert(attrs[j] == init[j]);
        }
        if any_all && !separator_attr(attrs.last()) {
            let j = choose|j: int| 0 <= j < attrs.len() && #[trigger] separator_attr(attrs[j]);
            assert(j < attrs.len() - 1);
            assert(init[j] == attrs[j]);
        }
        if separator_attr(attrs.last()) {
            assert(separator_attr(attrs[attrs.len() - 1]));
        }
    }
}

} // verus!
