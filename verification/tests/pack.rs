use std::collections::HashSet;

use orrient::pathing::column::{column_entries, columns_to_remove, next_column, ColumnEntry};
use orrient::pathing::enabled::{EnabledMarkers, MarkerEvent};
use orrient::pathing::model::{MarkerKind, MarkerXml, PoiXml, TrailXml};
use orrient::pathing::name::{FullMarkerId, MarkerName, PackId};
use orrient::pathing::pack::{Marker, MarkerPack, MarkerPackBuilder, MarkerPath, Poi, Route};
use orrient::pathing::spawn::find_marker;
use orrient::pathing::trail::TrailData;

fn marker(name: &str) -> MarkerXml {
    MarkerXml {
        name: name.to_string(),
        label: String::new(),
        kind: MarkerKind::Category,
        depth: 0,
        behavior: None,
        poi_tip: None,
        poi_description: None,
        map_ids: HashSet::new(),
        icon_file: None,
        texture: None,
    }
}

fn id(items: &[&str]) -> FullMarkerId {
    FullMarkerId {
        pack_id: PackId("pack".to_string()),
        marker_name: MarkerName(items.iter().map(|i| i.to_string()).collect::<Vec<_>>()),
    }
}

fn poi(id: &str, map_id: Option<u32>) -> PoiXml {
    PoiXml {
        id: id.to_string(),
        map_id,
        xpos: Some("1.0".to_string()),
        ypos: Some("2.0".to_string()),
        zpos: Some("3.0".to_string()),
        icon_file: None,
    }
}

fn dotted(pack: &MarkerPack, node: usize) -> String {
    pack.name_of(node).0.join(".")
}

/// The tree of the pack's sample files:
///     A            G
///    / \          / \
///   B   E        H   I
///  / \   \         / | \
/// C   D   F       J  K  L
fn sample() -> MarkerPackBuilder {
    let mut b = MarkerPackBuilder::new("test.taco".to_string());
    b.add_marker(marker("A"));
    b.add_marker(marker("B"));
    b.add_marker(marker("C"));
    b.up();
    b.add_marker(marker("D"));
    b.up();
    b.up();
    b.add_marker(marker("E"));
    b.add_marker(marker("F"));
    b.new_root();
    b.add_marker(marker("G"));
    b.add_marker(marker("H"));
    b.up();
    b.add_marker(marker("I"));
    b.add_marker(marker("J"));
    b.up();
    b.add_marker(marker("K"));
    b.up();
    b.add_marker(marker("L"));
    b
}

#[test]
fn test_path_from_string() {
    let mut builder = MarkerPackBuilder::new("pack".to_string());
    let n_1 = builder.add_marker(marker("one"));
    let _n_2 = builder.add_marker(marker("two"));
    builder.up();
    let n_3 = builder.add_marker(marker("three"));
    let n_4 = builder.add_marker(marker("four"));
    assert_eq!(
        MarkerPath::from_string(&builder.pack, "one.three.four").unwrap(),
        MarkerPath(vec![n_1, n_3, n_4])
    );
}

#[test]
fn test_parent_of() {
    assert!(id(&["a", "b"]).parent_of(&id(&["a", "b", "c"])));
    assert!(!id(&["a", "b", "c"]).parent_of(&id(&["a", "b"])));
    assert!(!id(&["a", "b", "c"]).parent_of(&id(&["a", "b", "c"])));
    assert!(!id(&["a", "b"]).parent_of(&id(&["a", "d", "c"])));
}

#[test]
fn test_child_of() {
    assert!(id(&["a", "b", "c"]).child_of(&id(&["a", "b"])));
    assert!(!id(&["a", "b"]).child_of(&id(&["a", "b", "c"])));
    assert!(!id(&["a", "b", "c"]).child_of(&id(&["a", "b", "c"])));
    assert!(!id(&["a", "b", "c"]).child_of(&id(&["a", "d"])));
}

#[test]
fn parent_of_needs_the_same_pack() {
    let mut other = id(&["a"]);
    other.pack_id = PackId("other".to_string());
    assert!(!other.parent_of(&id(&["a", "b"])));
    assert!(!id(&["a", "b"]).child_of(&other));
}

#[test]
fn path_from_string_fails_on_unknown_part() {
    let mut builder = MarkerPackBuilder::new("pack".to_string());
    builder.add_marker(marker("one"));
    builder.add_marker(marker("two"));
    assert_eq!(MarkerPath::from_string(&builder.pack, "one.three"), None);
    assert_eq!(MarkerPath::from_string(&builder.pack, "two"), None);
    assert_eq!(MarkerPath::from_string(&builder.pack, ""), None);
    assert_eq!(MarkerPath::from_string(&builder.pack, "one.two"), Some(MarkerPath(vec![1, 2])));
}

#[test]
fn name_from_string_repeats_the_first_part() {
    let mut builder = MarkerPackBuilder::new("pack".to_string());
    builder.add_marker(marker("one"));
    builder.add_marker(marker("two"));
    let name = MarkerName::from_string(&builder.pack, "one.two").unwrap();
    assert_eq!(name, MarkerName(vec!["one".to_string(), "one".to_string()]));
    assert_eq!(MarkerName::from_string(&builder.pack, "one.three"), None);
}

#[test]
fn adding_a_marker_twice_finds_it_again() {
    let mut builder = MarkerPackBuilder::new("pack".to_string());
    let a = builder.add_marker(marker("A"));
    builder.new_root();
    let again = builder.add_marker(marker("A"));
    assert_eq!(a, again);
    assert_eq!(builder.pack.len(), 2);
    builder.up();
    builder.up();
    builder.up();
    let b = builder.add_marker(marker("B"));
    assert_eq!(b, 2);
    assert_eq!(builder.pack.roots(), vec![1, 2]);
}

#[test]
fn recurse_is_pre_order_in_insertion_order() {
    let pack = sample().build();
    let a = pack.find_by_name(&MarkerName(vec!["A".to_string()])).unwrap();
    let names: Vec<String> = pack.recurse(a).into_iter().map(|n| dotted(&pack, n)).collect();
    assert_eq!(names, vec!["A", "A.B", "A.B.C", "A.B.D", "A.E", "A.E.F"]);

    let g = pack.find_by_name(&MarkerName(vec!["G".to_string()])).unwrap();
    let names: Vec<String> = pack.recurse(g).into_iter().map(|n| dotted(&pack, n)).collect();
    assert_eq!(names, vec!["G", "G.H", "G.I", "G.I.J", "G.I.K", "G.I.L"]);

    let ab = pack.find_by_name(&MarkerName(vec!["A".to_string(), "B".to_string()])).unwrap();
    let names: Vec<String> = pack.recurse(ab).into_iter().map(|n| dotted(&pack, n)).collect();
    assert_eq!(names, vec!["A.B", "A.B.C", "A.B.D"]);

    let abc = pack
        .find_by_name(&MarkerName(vec!["A".to_string(), "B".to_string(), "C".to_string()]))
        .unwrap();
    assert_eq!(pack.recurse(abc), vec![abc]);
}

#[test]
fn roots_iter_and_names() {
    let pack = sample().build();
    let roots: Vec<String> = pack.roots().into_iter().map(|n| dotted(&pack, n)).collect();
    assert_eq!(roots, vec!["A", "G"]);
    let a = pack.roots()[0];
    let children: Vec<String> = pack.iter(a).into_iter().map(|n| dotted(&pack, n)).collect();
    assert_eq!(children, vec!["A.B", "A.E"]);
    assert_eq!(pack.id(), "test.taco");
    assert_eq!(pack.name_of(0), MarkerName(vec!["test.taco".to_string()]));
    let full = pack.full_id(a);
    assert_eq!(full.pack_id, PackId("test.taco".to_string()));
    assert_eq!(full.marker_name, MarkerName(vec!["A".to_string()]));
    assert!(pack.get(pack.len()).is_none());
    assert_eq!(pack.get(a).unwrap().name, "A");
}

#[test]
fn find_by_name_of_the_pack_is_the_root() {
    let pack = sample().build();
    assert_eq!(pack.find_by_name(&MarkerName(vec!["test.taco".to_string()])), Some(0));
    assert_eq!(pack.find_by_name(&MarkerName(vec!["B".to_string()])), None);
    assert_eq!(pack.find_by_name(&MarkerName(vec![])), None);
}

#[test]
fn build_attaches_pois_to_their_markers() {
    let mut b = sample();
    b.add_poi(poi("A", Some(15)));
    b.add_poi(poi("A.B", Some(15)));
    b.add_poi(poi("A.E", Some(16)));
    b.add_poi(poi("A.E", None));
    b.add_poi(poi("Z", Some(99)));
    let pack = b.build();
    let a = pack.find_by_name(&MarkerName(vec!["A".to_string()])).unwrap();
    let ae = pack.find_by_name(&MarkerName(vec!["A".to_string(), "E".to_string()])).unwrap();
    let marker_a: &Marker = pack.get(a).unwrap();
    assert_eq!(marker_a.pois.len(), 1);
    assert_eq!(
        marker_a.pois[0],
        Poi {
            map_id: Some(15),
            xpos: Some("1.0".to_string()),
            ypos: Some("2.0".to_string()),
            zpos: Some("3.0".to_string()),
            icon_file: None
        }
    );
    assert!(marker_a.map_ids.contains(&15));
    let marker_ae = pack.get(ae).unwrap();
    assert_eq!(marker_ae.pois.len(), 2);
    assert_eq!(marker_ae.pois[1].map_id, None);
    assert_eq!(marker_ae.map_ids.len(), 1);
    assert!(marker_ae.map_ids.contains(&16));
    assert!(pack.contains_map_id(a, 16));
    assert!(!pack.contains_map_id(a, 99));
    for n in 0..pack.len() {
        assert!(!pack.get(n).unwrap().map_ids.contains(&99));
    }
}

#[test]
fn build_attaches_trails_with_a_texture() {
    let mut b = MarkerPackBuilder::new("pack".to_string());
    let mut textured = marker("T");
    textured.texture = Some("marker.png".to_string());
    let t = b.add_marker(textured);
    b.up();
    let plain = b.add_marker(marker("P"));
    b.add_trail_data(
        "old.trl".to_string(),
        TrailData { version: 0, map_id: 5, path: vec![[9, 9, 9]] },
    );
    b.add_trail_data(
        "t.trl".to_string(),
        TrailData { version: 0, map_id: 7, path: vec![[1, 2, 3], [4, 5, 6]] },
    );
    b.add_trail_data(
        "old.trl".to_string(),
        TrailData { version: 0, map_id: 8, path: vec![] },
    );
    b.add_trail_tag(TrailXml {
        id: "T".to_string(),
        trail_file: "t.trl".to_string(),
        texture_file: None,
    });
    b.add_trail_tag(TrailXml {
        id: "T".to_string(),
        trail_file: "old.trl".to_string(),
        texture_file: Some("own.png".to_string()),
    });
    b.add_trail_tag(TrailXml {
        id: "P".to_string(),
        trail_file: "t.trl".to_string(),
        texture_file: None,
    });
    b.add_trail_tag(TrailXml {
        id: "P".to_string(),
        trail_file: "missing.trl".to_string(),
        texture_file: Some("x.png".to_string()),
    });
    let pack = b.build();
    let mt = pack.get(t).unwrap();
    assert_eq!(mt.trails.len(), 2);
    assert_eq!(
        mt.trails[0],
        Route { map_id: 7, path: vec![[1, 2, 3], [4, 5, 6]], texture_file: "marker.png".to_string() }
    );
    assert_eq!(
        mt.trails[1],
        Route { map_id: 8, path: vec![], texture_file: "own.png".to_string() }
    );
    assert!(mt.map_ids.contains(&7) && mt.map_ids.contains(&8) && !mt.map_ids.contains(&5));
    let mp = pack.get(plain).unwrap();
    assert!(mp.trails.is_empty());
    assert_eq!(mp.map_ids.iter().copied().collect::<Vec<_>>(), vec![7]);
}

#[test]
fn merge_fills_what_is_unset() {
    let mut a = Marker {
        name: "a".to_string(),
        label: "A".to_string(),
        kind: MarkerKind::Category,
        depth: 1,
        behavior: None,
        poi_tip: Some("tip".to_string()),
        poi_description: None,
        map_ids: [1u32, 2].into_iter().collect(),
        icon_file: None,
        texture: Some("mine.png".to_string()),
        trails: vec![],
        pois: vec![],
    };
    let b = Marker {
        name: "b".to_string(),
        label: "B".to_string(),
        kind: MarkerKind::Separator,
        depth: 3,
        behavior: None,
        poi_tip: Some("other tip".to_string()),
        poi_description: Some("desc".to_string()),
        map_ids: [2u32, 3].into_iter().collect(),
        icon_file: Some("icon.png".to_string()),
        texture: Some("theirs.png".to_string()),
        trails: vec![],
        pois: vec![],
    };
    a.merge(b);
    assert_eq!(a.name, "a");
    assert_eq!(a.kind, MarkerKind::Category);
    assert_eq!(a.depth, 1);
    assert_eq!(a.poi_tip.as_deref(), Some("tip"));
    assert_eq!(a.poi_description.as_deref(), Some("desc"));
    assert_eq!(a.icon_file.as_deref(), Some("icon.png"));
    assert_eq!(a.texture.as_deref(), Some("mine.png"));
    let mut ids: Vec<u32> = a.map_ids.into_iter().collect();
    ids.sort();
    assert_eq!(ids, vec![1, 2, 3]);
}

#[test]
fn marker_names_and_dotted_form() {
    let name = MarkerName(vec!["a".to_string(), "b".to_string()]);
    assert_eq!(name.to_dotted(), "a.b");
    let full = PackId("pack".to_string()).with_marker(name.clone());
    assert_eq!(full, id(&["a", "b"]));
    assert!(MarkerName(vec!["a".to_string()]).parent_of(&name));
    assert!(name.child_of(&MarkerName(vec!["a".to_string()])));
    assert!(!name.child_of(&name));
}

#[test]
fn listing_names_every_marker_under_the_roots() {
    let pack = sample().build();
    let listed = pack.listing();
    let names: Vec<String> = listed.iter().map(|(_, name)| name.clone()).collect();
    assert_eq!(
        names,
        vec![
            "A", "A.B", "A.B.C", "A.B.D", "A.E", "A.E.F", "G", "G.H", "G.I", "G.I.J", "G.I.K",
            "G.I.L"
        ]
    );
    for (idx, name) in &listed {
        assert_eq!(&dotted(&pack, *idx), name);
    }
    let empty = MarkerPackBuilder::new("empty".to_string()).build();
    assert!(empty.listing().is_empty());
}

#[test]
fn every_marker_is_found_by_its_own_name() {
    let pack = sample().build();
    for idx in 0..pack.len() {
        assert_eq!(pack.find_by_name(&pack.name_of(idx)), Some(idx));
    }
    // A top-level marker named like the pack: its name designates the root.
    let mut b = MarkerPackBuilder::new("same".to_string());
    let same = b.add_marker(marker("same"));
    let pack = b.build();
    assert_eq!(pack.name_of(same), pack.name_of(0));
    assert_eq!(pack.find_by_name(&pack.name_of(same)), Some(0));
}

#[test]
fn marker_paths_are_written_as_node_indices() {
    assert_eq!(MarkerPath(vec![0, 12, 3]).to_string(), "NodeIndex(0).NodeIndex(12).NodeIndex(3)");
    assert_eq!(MarkerPath(vec![]).to_string(), "");
    let idx = petgraph::graph::NodeIndex::<u32>::new(1234567);
    assert_eq!(MarkerPath(vec![1234567]).to_string(), format!("{idx:?}"));
}

#[test]
fn a_poi_of_an_unknown_marker_changes_no_build() {
    let with = {
        let mut b = sample();
        b.add_poi(poi("A", Some(1)));
        b.add_poi(poi("Nowhere.X", Some(2)));
        b.add_poi(poi("G.I", Some(3)));
        b.build()
    };
    let without = {
        let mut b = sample();
        b.add_poi(poi("A", Some(1)));
        b.add_poi(poi("G.I", Some(3)));
        b.build()
    };
    for idx in 0..with.len() {
        let (m, n) = (with.get(idx).unwrap(), without.get(idx).unwrap());
        assert_eq!(m.pois, n.pois);
        assert_eq!(m.map_ids, n.map_ids);
    }
    assert_eq!(sample().pack().len(), sample().pack.len());
}

#[test]
fn a_column_lists_children_with_separators_and_checks() {
    let mut b = MarkerPackBuilder::new("p".to_string());
    let top = b.add_marker(marker("top"));
    let one = b.add_marker(marker("one"));
    b.up();
    let mut sep = marker("sep");
    sep.kind = MarkerKind::Separator;
    sep.label = "----".to_string();
    b.add_marker(sep);
    b.up();
    let two = b.add_marker(marker("two"));
    let pack = b.build();
    let pid = PackId("p".to_string());
    let mut enabled = EnabledMarkers::new();
    enabled.apply(MarkerEvent::Enable(FullMarkerId {
        pack_id: pid.clone(),
        marker_name: MarkerName(vec!["top".to_string(), "two".to_string()]),
    }));
    let entries = column_entries(&pack, &pid, top, &enabled);
    assert_eq!(entries.len(), 3);
    assert!(matches!(entries[0], ColumnEntry::Button { marker, checked: false } if marker == one));
    assert!(matches!(&entries[1], ColumnEntry::Separator(l) if l == "----"));
    assert!(matches!(entries[2], ColumnEntry::Button { marker, checked: true } if marker == two));
}

#[test]
fn a_marker_is_found_by_its_full_id() {
    let packs = vec![
        (PackId("other.taco".to_string()), MarkerPackBuilder::new("other.taco".to_string()).build()),
        (PackId("pack".to_string()), sample().build()),
    ];
    let (p, node) = find_marker(&packs, &id(&["A", "B"])).unwrap();
    assert_eq!(p, 1);
    assert_eq!(dotted(&packs[1].1, node), "A.B");
    assert_eq!(find_marker(&packs, &id(&["A", "X"])), None);
    let elsewhere = FullMarkerId {
        pack_id: PackId("missing".to_string()),
        marker_name: MarkerName(vec!["A".to_string()]),
    };
    assert_eq!(find_marker(&packs, &elsewhere), None);
}

#[test]
fn setting_a_column_removes_it_and_those_after_it() {
    assert_eq!(columns_to_remove(&vec![0, 3, 1, 2, 5], 2), vec![3, 2, 5]);
    assert_eq!(columns_to_remove(&vec![0, 1], 2), Vec::<usize>::new());
    assert_eq!(columns_to_remove(&vec![], 0), Vec::<usize>::new());
}

#[test]
fn the_new_column_follows_the_one_set() {
    assert_eq!(next_column(0), 1);
    assert_eq!(next_column(4), 5);
}
