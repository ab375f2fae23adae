use std::collections::HashSet;

use orrient::pathing::enabled::{EnabledMarkers, MarkerEvent};
use orrient::pathing::model::{Behavior, MarkerKind};
use orrient::pathing::name::{FullMarkerId, MarkerName, PackId};
use orrient::pathing::pack::{Marker, Poi, Route};
use orrient::pathing::spawn::{poi_commands, poi_spawns, trail_spawns, PoiCommand};

fn full(name: &str) -> FullMarkerId {
    FullMarkerId {
        pack_id: PackId("pack".to_string()),
        marker_name: MarkerName(vec!["root".to_string(), name.to_string()]),
    }
}

fn poi(map_id: Option<u32>, icon: Option<&str>) -> Poi {
    Poi {
        map_id,
        xpos: Some("1".to_string()),
        ypos: Some("2".to_string()),
        zpos: Some("3".to_string()),
        icon_file: icon.map(|s| s.to_string()),
    }
}

fn marker(behavior: Option<Behavior>, icon: Option<&str>, pois: Vec<Poi>) -> Marker {
    Marker {
        name: "m".to_string(),
        label: "M".to_string(),
        kind: MarkerKind::Category,
        depth: 0,
        behavior,
        poi_tip: None,
        poi_description: None,
        map_ids: HashSet::new(),
        icon_file: icon.map(|s| s.to_string()),
        texture: None,
        trails: Vec::new(),
        pois,
    }
}

#[test]
fn enable_spawns_and_disable_despawns() {
    let enabled = EnabledMarkers::new();
    let r = poi_commands(&enabled, &MarkerEvent::Enable(full("a")));
    assert_eq!(r.len(), 1);
    assert!(matches!(&r[0], PoiCommand::Spawn(id) if *id == full("a")));
    let r = poi_commands(&enabled, &MarkerEvent::Disable(full("b")));
    assert_eq!(r.len(), 1);
    assert!(matches!(&r[0], PoiCommand::Despawn(id) if *id == full("b")));
}

#[test]
fn disable_all_despawns_every_enabled_marker() {
    let mut enabled = EnabledMarkers::new();
    enabled.apply(MarkerEvent::Enable(full("a")));
    enabled.apply(MarkerEvent::Enable(full("b")));
    enabled.apply(MarkerEvent::Enable(full("a")));
    let r = poi_commands(&enabled, &MarkerEvent::DisableAll);
    assert_eq!(r.len(), 2);
    let mut names = Vec::new();
    for c in &r {
        match c {
            PoiCommand::Despawn(id) => names.push(id.marker_name.0[1].clone()),
            PoiCommand::Spawn(_) => panic!("spawn on disable all"),
        }
    }
    names.sort();
    assert_eq!(names, vec!["a".to_string(), "b".to_string()]);

    let empty = EnabledMarkers::new();
    assert!(poi_commands(&empty, &MarkerEvent::DisableAll).is_empty());
}

#[test]
fn spawns_only_pois_of_the_current_map() {
    let m = marker(
        None,
        Some("marker.png"),
        vec![
            poi(Some(15), None),
            poi(Some(16), Some("other.png")),
            poi(None, None),
            poi(Some(15), Some("own.png")),
        ],
    );
    let r = poi_spawns(&m, 15);
    assert_eq!(r.len(), 2);
    assert_eq!(r[0].poi, 0);
    assert_eq!(r[0].icon_file.as_deref(), Some("marker.png"));
    assert!(!r[0].disappear_nearby);
    assert_eq!(r[1].poi, 3);
    assert_eq!(r[1].icon_file.as_deref(), Some("own.png"));
    assert!(poi_spawns(&m, 99).is_empty());
}

#[test]
fn pois_without_any_icon_have_none() {
    let m = marker(None, None, vec![poi(Some(1), None)]);
    let r = poi_spawns(&m, 1);
    assert_eq!(r.len(), 1);
    assert_eq!(r[0].icon_file, None);
}

#[test]
fn daily_and_single_use_pois_vanish_nearby() {
    for (b, vanish) in [
        (Some(Behavior::ReappearDaily), true),
        (Some(Behavior::DisappearOnUse), true),
        (Some(Behavior::AlwaysVisible), false),
        (Some(Behavior::ReappearAfterTime(0)), false),
        (None, false),
    ] {
        let m = marker(b, None, vec![poi(Some(1), None)]);
        let r = poi_spawns(&m, 1);
        assert_eq!(r[0].disappear_nearby, vanish);
    }
}

#[test]
fn trails_of_the_current_map_are_drawn_last_point_first() {
    let mut m = marker(None, None, Vec::new());
    m.trails = vec![
        Route { map_id: 15, path: vec![[1, 2, 3], [4, 5, 6], [7, 8, 9]], texture_file: "a.png".to_string() },
        Route { map_id: 16, path: vec![[0, 0, 1]], texture_file: "b.png".to_string() },
        Route { map_id: 15, path: Vec::new(), texture_file: "c.png".to_string() },
    ];
    let r = trail_spawns(&m, 15);
    assert_eq!(r.len(), 2);
    assert_eq!(r[0].trail, 0);
    assert_eq!(r[0].path, vec![[7, 8, 9], [4, 5, 6], [1, 2, 3]]);
    assert_eq!(r[0].texture_file, "a.png");
    assert_eq!(r[1].trail, 2);
    assert!(r[1].path.is_empty());
    assert_eq!(r[1].texture_file, "c.png");
    assert!(trail_spawns(&m, 1).is_empty());
}
