use orrient::marker_tree::{
    read_file, Behavior, Marker, MarkerCategory, MarkerID, MarkerKind, MarkerTree,
    MarkerTreeBuilder, Poi, Position, ReadError, Tag,
};
use orrient::pathing::model::XmlAttr;

fn category(id: &str, label: &str) -> Marker {
    Marker::new(id.to_string(), label.to_string(), MarkerKind::Category)
}

//     A            G
//    / \          / \
//   B   E        H   I
//  / \   \         / | \
// C   D   F       J  K  L
fn fake_markers() -> MarkerTree {
    let mut markers = MarkerTreeBuilder::new();
    markers.add_marker(category("A", "A Name"));
    markers.add_marker(category("B", "B Name"));
    markers.add_marker(category("C", "C Name"));
    markers.up();
    markers.add_marker(category("D", "D Name"));
    markers.up();
    markers.up();
    markers.add_marker(category("E", "E Name"));
    markers.add_marker(category("F", "F Name"));

    markers.new_root();
    markers.add_marker(category("G", "G Name"));
    markers.add_marker(category("H", "H Name"));
    markers.up();
    markers.add_marker(category("I", "I Name"));
    markers.add_marker(category("J", "J Name"));
    markers.up();
    markers.add_marker(category("K", "K Name"));
    markers.up();
    markers.add_marker(category("L", "L Name"));
    markers.build()
}

#[test]
fn lib_test_iter() {
    let markers = fake_markers();
    let mut iter = markers.iter_recursive("A").into_iter();

    //     A
    //    / \
    //   B   E
    //  / \   \
    // C   D   F
    assert_eq!(iter.next().unwrap().id, "A");
    assert_eq!(iter.next().unwrap().id, "A.B");
    assert_eq!(iter.next().unwrap().id, "A.B.C");
    assert_eq!(iter.next().unwrap().id, "A.B.D");
    assert_eq!(iter.next().unwrap().id, "A.E");
    assert_eq!(iter.next().unwrap().id, "A.E.F");
    assert!(iter.next().is_none());

    //   G
    //  / \
    // H   I
    //   / | \
    //  J  K  L
    let mut iter = markers.iter_recursive("G").into_iter();
    assert_eq!(iter.next().unwrap().id, "G");
    assert_eq!(iter.next().unwrap().id, "G.H");
    assert_eq!(iter.next().unwrap().id, "G.I");
    assert_eq!(iter.next().unwrap().id, "G.I.J");
    assert_eq!(iter.next().unwrap().id, "G.I.K");
    assert_eq!(iter.next().unwrap().id, "G.I.L");
    assert!(iter.next().is_none());

    let mut iter = markers.iter_recursive("A.B").into_iter();
    assert_eq!(iter.next().unwrap().id, "A.B");
    assert_eq!(iter.next().unwrap().id, "A.B.C");
    assert_eq!(iter.next().unwrap().id, "A.B.D");
    assert!(iter.next().is_none());

    let mut iter = markers.iter_recursive("A.B.C").into_iter();
    assert_eq!(iter.next().unwrap().id, "A.B.C");
    assert!(iter.next().is_none());
}

#[test]
fn children_come_most_recent_first() {
    let markers = fake_markers();
    let ids: Vec<&str> = markers.iter("G.I").into_iter().map(|m| m.id.as_str()).collect();
    assert_eq!(ids, vec!["G.I.L", "G.I.K", "G.I.J"]);
    let mut roots: Vec<&str> = markers.roots().into_iter().map(|m| m.id.as_str()).collect();
    roots.sort();
    assert_eq!(roots, vec!["A", "G"]);
    assert_eq!(markers.get("A.E").unwrap().label, "E Name");
    assert_eq!(markers.get("G.I.K").unwrap().depth, 2);
}

#[test]
fn children_inherit_behavior_and_depth() {
    let mut b = MarkerTreeBuilder::new();
    let mut top = category("T", "Top");
    top.behavior = Some(Behavior::ReappearDaily);
    b.add_marker(top);
    b.add_marker(category("S", "Sub"));
    let mut own = category("O", "Own");
    own.behavior = Some(Behavior::DisappearOnUse);
    b.add_marker(own);
    let t = b.build();
    let s = t.get("T.S").unwrap();
    assert_eq!(s.depth, 1);
    assert_eq!(s.behavior, Some(Behavior::ReappearDaily));
    let o = t.get("T.S.O").unwrap();
    assert_eq!(o.depth, 2);
    assert_eq!(o.behavior, Some(Behavior::DisappearOnUse));
}

#[test]
fn pois_are_kept_by_id() {
    let mut b = MarkerTreeBuilder::new();
    b.add_poi("A".to_string(), 1, 2, 3);
    b.add_poi("B".to_string(), 4, 5, 6);
    b.add_poi("A".to_string(), 7, 8, 9);
    let t = b.build();
    assert_eq!(
        t.get_pois("A").unwrap(),
        &vec![Position { x: 1, y: 2, z: 3 }, Position { x: 7, y: 8, z: 9 }]
    );
    assert_eq!(t.get_pois("B").unwrap().len(), 1);
    assert!(t.get_pois("C").is_none());
}

fn attr(key: &str, value: &[u8]) -> Option<XmlAttr> {
    Some(XmlAttr { key: key.as_bytes().to_vec(), value: value.to_vec() })
}

#[test]
fn poi_numbers_are_raw_little_endian() {
    let p: Poi = Poi::from_attrs(&vec![
        attr("MapID", b"15"),
        attr("x", b"abcd"),
        attr("y", &[0, 0, 0x80, 0x3f]),
        attr("type", b"A.B"),
        attr("GUID", b"abc"),
    ])
    .unwrap();
    assert_eq!(p.map_id, None);
    assert_eq!(p.x, u32::from_le_bytes(*b"abcd"));
    // A value that is not UTF-8 is skipped, whatever its key.
    assert_eq!(p.y, 0);
    assert_eq!(p.id, "A.B");
    assert_eq!(p.guid, "abc");
    let q = Poi::from_attrs(&vec![attr("mapid", &[15, 0, 0, 0, 9])]).unwrap();
    assert_eq!(q.map_id, Some(15));
    assert!(matches!(Poi::from_attrs(&vec![attr("y", b"1.0")]), Err(ReadError::IoErr)));
    let skipped = Poi::from_attrs(&vec![Some(XmlAttr { key: b"z".to_vec(), value: vec![0xff] })]);
    assert_eq!(skipped.unwrap().z, 0);
}

#[test]
fn category_attributes() {
    let m = Marker::from_attrs(&vec![
        attr("Name", b"N"),
        attr("DisplayName", b"Label"),
        attr("IsSeparator", b"TRUE"),
    ])
    .unwrap();
    assert_eq!(m.id, "N");
    assert_eq!(m.label, "Label");
    assert_eq!(m.kind, MarkerKind::Separator);
    let n = Marker::from_attrs(&vec![attr("isseparator", b"1")]).unwrap();
    assert_eq!(n.kind, MarkerKind::Category);
}

#[test]
fn tags_need_their_exact_names() {
    assert!(matches!(Tag::from_element(b"OverlayData", &vec![]), Ok(Tag::OverlayData)));
    assert!(matches!(Tag::from_element(b"POIs", &vec![]), Ok(Tag::POIs)));
    match Tag::from_element(b"overlaydata", &vec![]) {
        Ok(Tag::UnknownField(f)) => assert_eq!(f, "overlaydata"),
        _ => panic!("expected an unknown field"),
    }
    match Tag::from_element(&[b'a', 0xff], &vec![]) {
        Ok(Tag::UnknownField(f)) => assert_eq!(f, "a\u{fffd}"),
        _ => panic!("expected an unknown field"),
    }
}

#[test]
fn behavior_codes() {
    let mut c = MarkerCategory {
        id: String::new(),
        display_name: String::new(),
        is_separator: false,
        fade_near: None,
        fade_far: None,
        icon_path: None,
        icon_size: None,
        map_display_size: None,
        show_on_ingame: false,
        show_on_map: false,
        show_on_minimap: false,
        height_offset: None,
        min_size: None,
        achievement_id: None,
        achievement_bit: None,
        bounce: None,
        bounce_height: None,
        autotrigger: false,
        triggerrange: None,
        tip_name: None,
        tip_description: None,
        behavior: None,
        copy: None,
        copy_message: None,
        reset_length: None,
        toggle_category: None,
        profession: None,
    };
    assert_eq!(Behavior::from_category(c.clone()), None);
    c.behavior = Some(3);
    assert_eq!(Behavior::from_category(c.clone()), Some(Behavior::DisappearOnUse));
    c.behavior = Some(4);
    c.reset_length = Some(60.0f32.to_bits());
    assert_eq!(
        Behavior::from_category(c.clone()),
        Some(Behavior::ReappearAfterTime(60.0f32.to_bits()))
    );
    c.behavior = Some(8);
    assert_eq!(Behavior::from_category(c), None);
}

#[test]
fn category_files_are_read_into_the_tree() {
    let mut b = MarkerTreeBuilder::new();
    let doc = br#"<OverlayData>
  <MarkerCategory name="A" DisplayName="Item A">
    <MarkerCategory name="B" DisplayName="Item A.B"/>
  </MarkerCategory>
  <POIs><POI type="A.B" GUID="g"/></POIs>
</OverlayData>"#;
    assert!(read_file(&mut b, doc).is_ok());
    let t = b.build();
    let ids: Vec<&str> = t.iter_recursive("A").into_iter().map(|m| m.id.as_str()).collect();
    assert_eq!(ids, vec!["A", "A.B"]);
    assert_eq!(t.get_pois("A.B").unwrap(), &vec![Position { x: 0, y: 0, z: 0 }]);
    let mut bad = MarkerTreeBuilder::new();
    assert!(matches!(read_file(&mut bad, b"<a></b>"), Err(ReadError::Xml(_))));
}

#[test]
fn marker_ids() {
    let id = MarkerID::from("A.B".to_string());
    assert_eq!(id.as_str(), "A.B");
}

#[test]
fn room_is_left_for_small_files() {
    let b = MarkerTreeBuilder::new();
    assert!(b.has_room(0));
    assert!(b.has_room(1000));
    assert!(!b.has_room(u32::MAX as usize));
}

#[test]
fn get_mut_changes_one_marker() {
    let mut markers = fake_markers();
    markers.get_mut("A.B").unwrap().label = "changed".to_string();
    assert_eq!(markers.get("A.B").unwrap().label, "changed");
    assert_eq!(markers.get("A").unwrap().label, "A Name");
}
