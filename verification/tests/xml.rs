use orrient::pathing::entry::{entry_kind, is_pack_file, EntryKind};
use orrient::pathing::model::{MarkerKind, MarkerXml, PoiXml, TagError, TrailXml, XmlAttr};
use orrient::pathing::name::MarkerName;
use orrient::pathing::pack::{MarkerPack, MarkerPackBuilder};
use orrient::pathing::trail::{read, TrailError};
use orrient::pathing::xml::{parse_xml, Tag};

fn attr(key: &str, value: &str) -> Option<XmlAttr> {
    Some(XmlAttr { key: key.as_bytes().to_vec(), value: value.as_bytes().to_vec() })
}

fn dotted(pack: &MarkerPack, node: usize) -> String {
    pack.name_of(node).0.join(".")
}

const TEST_1: &str = r#"
<OverlayData>
  <MarkerCategory name="A" DisplayName="Item A">
    <MarkerCategory name="B" DisplayName="Item A.B">
      <MarkerCategory name="C" DisplayName="Item A.B" />
      <MarkerCategory name="D" DisplayName="Item A.B" />
    </MarkerCategory>
  </MarkerCategory>
  <POIs>
    <POI MapID="15" xpos="100.0" ypos="100.0" zpos="-100.0" type="A" GUID="none"/>
    <POI MapID="15" xpos="200.0" ypos="200.0" zpos="-200.0" type="A.B" GUID="none"/>
  </POIs>
</OverlayData>
"#;

const TEST_2: &str = r#"
<OverlayData>
  <MarkerCategory name="A" DisplayName="Item A">
    <MarkerCategory name="E" DisplayName="Item A.E">
      <MarkerCategory name="F" DisplayName="Item A.E.F" />
    </MarkerCategory>
  </MarkerCategory>
  <POIs>
    <POI MapID="15" xpos="300.0" ypos="300.0" zpos="-300.0" type="A.E" GUID="none"/>
    <POI MapID="15" xpos="400.0" ypos="400.0" zpos="-400.0" type="A.E" GUID="none"/>
  </POIs>
</OverlayData>
"#;

const TEST_3: &str = r#"
<OverlayData>
  <MarkerCategory name="G" DisplayName="Item G">
    <MarkerCategory name="H" DisplayName="Item G.B" />
    <MarkerCategory name="I" DisplayName="Item G.I">
      <MarkerCategory name="J" DisplayName="Item G.I.J" />
      <MarkerCategory name="K" DisplayName="Item G.I.K" />
      <MarkerCategory name="L" DisplayName="Item G.I.L" />
    </MarkerCategory>
  </MarkerCategory>
  <POIs>
    <POI MapID="15" xpos="500.0" ypos="500.0" zpos="-500.0" type="G.K" GUID="none"/>
    <POI MapID="15" xpos="600.0" ypos="600.0" zpos="-600.0" type="G.L" GUID="none"/>
  </POIs>
</OverlayData>
"#;

fn sample_pack() -> MarkerPack {
    let mut b = MarkerPackBuilder::new("test.taco".to_string());
    for doc in [TEST_1, TEST_2, TEST_3] {
        assert!(parse_xml(&mut b, doc.as_bytes()).is_ok());
    }
    b.build()
}

fn node(pack: &MarkerPack, dotted: &str) -> usize {
    let name = MarkerName(dotted.split('.').map(|s| s.to_string()).collect());
    pack.find_by_name(&name).unwrap()
}

#[test]
fn xml_files_build_the_tree() {
    let pack = sample_pack();
    let names: Vec<String> =
        pack.recurse(node(&pack, "A")).into_iter().map(|n| dotted(&pack, n)).collect();
    assert_eq!(names, vec!["A", "A.B", "A.B.C", "A.B.D", "A.E", "A.E.F"]);
    let names: Vec<String> =
        pack.recurse(node(&pack, "G")).into_iter().map(|n| dotted(&pack, n)).collect();
    assert_eq!(names, vec!["G", "G.H", "G.I", "G.I.J", "G.I.K", "G.I.L"]);
    let roots: Vec<String> = pack.roots().into_iter().map(|n| dotted(&pack, n)).collect();
    assert_eq!(roots, vec!["A", "G"]);
    assert_eq!(pack.get(node(&pack, "A.E.F")).unwrap().label, "Item A.E.F");
}

#[test]
fn xml_files_attach_pois() {
    let pack = sample_pack();
    let a = pack.get(node(&pack, "A")).unwrap();
    assert_eq!(a.pois.len(), 1);
    assert_eq!(a.pois[0].map_id, Some(15));
    assert_eq!(a.pois[0].xpos.as_deref(), Some("100.0"));
    assert_eq!(a.pois[0].zpos.as_deref(), Some("-100.0"));
    let ae = pack.get(node(&pack, "A.E")).unwrap();
    assert_eq!(ae.pois.len(), 2);
    assert_eq!(ae.pois[1].xpos.as_deref(), Some("400.0"));
    assert!(ae.map_ids.contains(&15));
    // "G.K" and "G.L" name no marker (K and L sit under G.I), so those
    // POIs are dropped.
    let gil = pack.get(node(&pack, "G.I.L")).unwrap();
    assert!(gil.pois.is_empty());
    assert!(!pack.contains_map_id(node(&pack, "G"), 15));
    assert!(pack.contains_map_id(node(&pack, "A"), 15));
    assert!(!pack.contains_map_id(node(&pack, "A.B.C"), 15));
}

#[test]
fn parse_xml_leaves_the_builder_at_the_root() {
    let mut b = MarkerPackBuilder::new("p".to_string());
    assert!(parse_xml(&mut b, b"<MarkerCategory name=\"A\"><MarkerCategory name=\"B\">".as_ref())
        .is_ok());
    let c = b.add_marker(MarkerXml {
        name: "C".to_string(),
        label: String::new(),
        kind: MarkerKind::Category,
        depth: 0,
        behavior: None,
        poi_tip: None,
        poi_description: None,
        map_ids: Default::default(),
        icon_file: None,
        texture: None,
    });
    assert_eq!(b.pack.roots(), vec![1, c]);
}

#[test]
fn parse_xml_reports_unreadable_documents() {
    let mut b = MarkerPackBuilder::new("p".to_string());
    let r = parse_xml(&mut b, b"<a></b>".as_ref());
    assert!(r.is_err());
}

#[test]
fn parse_xml_skips_tags_that_cannot_be_read() {
    let mut b = MarkerPackBuilder::new("p".to_string());
    let doc = r#"<OverlayData><POIs><POI MapID="1"/><Trail texture="x"/><Other/></POIs></OverlayData>"#;
    assert!(parse_xml(&mut b, doc.as_bytes()).is_ok());
    let pack = b.build();
    assert_eq!(pack.len(), 1);
}

#[test]
fn tag_names_ignore_case() {
    let attrs = vec![attr("NAME", "A"), attr("DisplayName", "Item"), attr("IsSeparator", "TRUE")];
    match Tag::from_element(b"markerCATEGORY", &attrs).unwrap() {
        Tag::Marker(m) => {
            assert_eq!(m.name, "A");
            assert_eq!(m.label, "Item");
            assert_eq!(m.kind, MarkerKind::Separator);
        }
        _ => panic!("not a marker"),
    }
    assert!(matches!(Tag::from_element(b"OVERLAYDATA", &vec![]), Ok(Tag::OverlayData)));
    assert!(matches!(Tag::from_element(b"POIs", &vec![]), Ok(Tag::POIs)));
    match Tag::from_element(b"Route", &vec![]) {
        Ok(Tag::UnknownField(f)) => assert_eq!(f, "route"),
        _ => panic!("not unknown"),
    }
}

#[test]
fn tag_errors() {
    assert_eq!(Tag::from_element(&[0xff, 0xfe], &vec![]).err(), Some(TagError::NameNotUtf8));
    assert_eq!(
        Tag::from_element(b"POI", &vec![attr("MapID", "3")]).err(),
        Some(TagError::PoiMissingType)
    );
    assert_eq!(
        Tag::from_element(b"Trail", &vec![attr("trailData", "a.trl")]).err(),
        Some(TagError::TrailMissingType)
    );
    assert_eq!(
        Tag::from_element(b"Trail", &vec![attr("type", "A")]).err(),
        Some(TagError::TrailMissingData)
    );
}

#[test]
fn poi_attributes() {
    let attrs = vec![
        attr("type", " A.B "),
        attr("MapID", " 42 "),
        attr("xpos", "1.5"),
        None,
        Some(XmlAttr { key: b"ypos".to_vec(), value: vec![0xff] }),
        attr("iconFile", "Data\\Icons\\x.png"),
    ];
    let p: PoiXml = PoiXml::from_attrs(&attrs).unwrap();
    assert_eq!(p.id, "A.B");
    assert_eq!(p.map_id, Some(42));
    assert_eq!(p.xpos.as_deref(), Some("1.5"));
    assert_eq!(p.ypos, None);
    assert_eq!(p.zpos, None);
    assert_eq!(p.icon_file.as_deref(), Some("Data/Icons/x.png"));
    let bad = PoiXml::from_attrs(&vec![attr("type", "A"), attr("mapid", "12a")]).unwrap();
    assert_eq!(bad.map_id, None);
}

#[test]
fn trail_attributes_are_lower_cased() {
    let attrs = vec![attr("type", "A"), attr("trailData", " Trails/Path.TRL "), attr("texture", "Tex.PNG")];
    let t: TrailXml = TrailXml::from_attrs(&attrs).unwrap();
    assert_eq!(t.id, "A");
    assert_eq!(t.trail_file, "trails/path.trl");
    assert_eq!(t.texture_file.as_deref(), Some("tex.png"));
}

#[test]
fn marker_attributes() {
    let attrs = vec![
        attr("name", "N"),
        attr("iconFile", "Data\\Icon.PNG"),
        attr("texture", "T.png"),
        attr("isseparator", "0"),
        attr("name", "M"),
    ];
    let m = MarkerXml::from_attrs(&attrs).unwrap();
    assert_eq!(m.name, "M");
    assert_eq!(m.kind, MarkerKind::Category);
    assert_eq!(m.icon_file.as_deref(), Some("data/icon.png"));
    assert_eq!(m.texture.as_deref(), Some("t.png"));
    let sep = MarkerXml::from_attrs(&vec![attr("IsSeparator", "1")]).unwrap();
    assert_eq!(sep.kind, MarkerKind::Separator);
}

#[test]
fn entry_kinds_go_by_the_last_extension() {
    assert_eq!(entry_kind("markers/a.xml"), EntryKind::Xml);
    assert_eq!(entry_kind("a.b.png"), EntryKind::Png);
    assert_eq!(entry_kind("trails/x.trl"), EntryKind::Trail);
    assert_eq!(entry_kind("a.XML"), EntryKind::Other);
    assert_eq!(entry_kind("xml"), EntryKind::Xml);
    assert_eq!(entry_kind("readme"), EntryKind::Other);
    assert_eq!(entry_kind("dir.xml/"), EntryKind::Other);
}

#[test]
fn trail_files() {
    assert_eq!(read(&[1, 0, 0, 0, 2, 0, 0]), Err(TrailError::MissingHeader));
    let mut bytes = vec![2, 0, 0, 0, 0x10, 0x27, 0, 0];
    bytes.extend_from_slice(&1.0f32.to_le_bytes());
    bytes.extend_from_slice(&2.0f32.to_le_bytes());
    bytes.extend_from_slice(&(-3.0f32).to_le_bytes());
    bytes.extend_from_slice(&[9, 9, 9]);
    let t = read(&bytes).unwrap();
    assert_eq!(t.version, 2);
    assert_eq!(t.map_id, 10000);
    assert_eq!(t.path, vec![[1.0f32.to_bits(), 2.0f32.to_bits(), (-3.0f32).to_bits()]]);
    let empty = read(&[0; 8]).unwrap();
    assert!(empty.path.is_empty());
}

#[test]
fn pack_files_are_taco_or_zip_archives() {
    assert!(is_pack_file("tekkit.taco"));
    assert!(is_pack_file("pack.v2.zip"));
    assert!(is_pack_file("..taco"));
    assert!(!is_pack_file(".taco"));
    assert!(!is_pack_file("taco"));
    assert!(!is_pack_file("pack.TACO"));
    assert!(!is_pack_file("pack.taco.bak"));
    assert!(!is_pack_file("pack."));
    assert!(!is_pack_file(".."));
    assert!(!is_pack_file(""));
    // The same answers as the standard library's reading of an extension.
    for name in ["a.taco", ".zip", "..zip", "x.zip", "y.", "z", "w.tacos"] {
        let ext = std::path::Path::new(name).extension().and_then(|e| e.to_str());
        assert_eq!(is_pack_file(name), matches!(ext, Some("taco") | Some("zip")), "{name}");
    }
}
