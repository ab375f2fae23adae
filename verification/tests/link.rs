use orrient::input::{
    input_events, input_map, key_input, Action, ActionEvent, ActionGate, ButtonState, Hotkey,
    Hotkeys, Key, KeyCode, KeyEvent,
};
use orrient::link::{GW2Context, Identity, IdentityDef, Profession};
use orrient::mumblelink;
use orrient::pacer::{LinkPacer, LinkRead, LinkStep, Pacing};
use orrient::pathing::enabled::{EnabledMarkers, MarkerEvent};
use orrient::pathing::name::{FullMarkerId, MarkerName, PackId};
use orrient::ui::{action_ui_event, first_context, frame_update, map_state, GameState, UiEvent};

fn block() -> [u8; 256] {
    let mut b = [0u8; 256];
    b[0..4].copy_from_slice(&[127, 0, 0, 1]);
    b[28..32].copy_from_slice(&15u32.to_le_bytes());
    b[32..36].copy_from_slice(&2u32.to_le_bytes());
    b[36..40].copy_from_slice(&3u32.to_le_bytes());
    b[40..44].copy_from_slice(&4u32.to_le_bytes());
    b[44..48].copy_from_slice(&5u32.to_le_bytes());
    b[48..52].copy_from_slice(&0b0100_1001u32.to_le_bytes());
    b[52..54].copy_from_slice(&362u16.to_le_bytes());
    b[54..56].copy_from_slice(&338u16.to_le_bytes());
    b[56..60].copy_from_slice(&1.5f32.to_le_bytes());
    b[60..64].copy_from_slice(&(-20.25f32).to_le_bytes());
    b[64..68].copy_from_slice(&30.5f32.to_le_bytes());
    b[68..72].copy_from_slice(&100.0f32.to_le_bytes());
    b[72..76].copy_from_slice(&200.0f32.to_le_bytes());
    b[76..80].copy_from_slice(&2.0f32.to_le_bytes());
    b[80..84].copy_from_slice(&4321u32.to_le_bytes());
    b[84] = 7;
    b
}

#[test]
fn context_block_is_read_field_by_field() {
    let c = GW2Context::from_bytes(block());
    assert_eq!(c.server_address, [127, 0, 0, 1]);
    assert_eq!(c.map_id, 15);
    assert_eq!(c.map_type, 2);
    assert_eq!(c.shard_id, 3);
    assert_eq!(c.instance, 4);
    assert_eq!(c.build_id, 5);
    assert_eq!(c.compass_width, 362);
    assert_eq!(c.compass_height, 338);
    assert_eq!(f32::from_bits(c.compress_rotation), 1.5);
    assert_eq!(f32::from_bits(c.player_x), -20.25);
    assert_eq!(f32::from_bits(c.player_y), 30.5);
    assert_eq!(f32::from_bits(c.map_center_x), 100.0);
    assert_eq!(f32::from_bits(c.map_center_y), 200.0);
    assert_eq!(f32::from_bits(c.map_scale), 2.0);
    assert_eq!(c.process_id, 4321);
    assert_eq!(c.mount_index, 7);
}

#[test]
fn ui_state_flags() {
    let c = GW2Context::from_bytes(block());
    assert!(c.map_open());
    assert!(!c.compass_top_right());
    assert!(!c.compass_rotation_enabled());
    assert!(c.game_focused());
    assert!(!c.in_competitive_gamemode());
    assert!(!c.textbox_focused());
    assert!(c.in_combat());
}

#[test]
fn relay_context_round_trip_of_its_fields() {
    let mut b = [0u8; 256];
    b[0..4].copy_from_slice(&9u32.to_le_bytes());
    b[4..8].copy_from_slice(&[10, 0, 0, 2]);
    b[32..36].copy_from_slice(&50u32.to_le_bytes());
    b[56..58].copy_from_slice(&100u16.to_le_bytes());
    b[88] = 3;
    let c = mumblelink::GW2Context::from_bytes(b);
    assert_eq!(c.unknown, 9);
    assert_eq!(c.server_address, [10, 0, 0, 2]);
    assert_eq!(c.map_id, 50);
    assert_eq!(c.compass_width, 100);
    assert_eq!(c.mount_index, 3);
    let out = c.into_bytes();
    assert_eq!(&out[0..4], &9u32.to_le_bytes());
    assert_eq!(&out[4..8], &[2, 0, 0, 10]);
    assert_eq!(&out[8..12], &50u32.to_le_bytes());
    assert_eq!(&out[32..34], &100u16.to_le_bytes());
    assert_eq!(out[64], 3);
    assert!(out[65..].iter().all(|b| *b == 0));
}

#[test]
fn professions() {
    assert_eq!(Profession::from_u8(0), Profession::Unknown);
    assert_eq!(Profession::from_u8(1), Profession::Guardian);
    assert_eq!(Profession::from_u8(6), Profession::Elementalist);
    assert_eq!(Profession::from_u8(9), Profession::Revenant);
    assert_eq!(Profession::from_u8(10), Profession::Unknown);
    let identity = Identity {
        name: "Char".to_string(),
        profession: 7,
        spec: 40,
        race: 2,
        map_id: 15,
        team_color_id: 9,
        commander: true,
        fov: 0.873f32.to_bits(),
        uisz: 1,
    };
    let def = IdentityDef::from_identity(identity);
    assert_eq!(def.profession, Profession::Mesmer);
    assert_eq!(def.name, "Char");
    assert_eq!(def.map_id, 15);
    assert_eq!(f32::from_bits(def.fov), 0.873);
}

#[test]
fn keys_map_to_actions() {
    assert_eq!(input_map(&KeyCode::Tab), Some(Action::Menu));
    assert_eq!(input_map(&KeyCode::Escape), Some(Action::Close));
    assert_eq!(input_map(&KeyCode::ControlLeft), Some(Action::Modifier));
    assert_eq!(input_map(&KeyCode::Backquote), None);
    let events = input_events(
        &vec![KeyCode::Tab, KeyCode::Backquote, KeyCode::ControlLeft],
        &vec![KeyCode::Escape],
    );
    assert_eq!(
        events,
        vec![
            ActionEvent::pressed(Action::Menu),
            ActionEvent::pressed(Action::Modifier),
            ActionEvent::released(Action::Close),
        ]
    );
    assert!(events[0].is_pressed());
    assert!(!events[2].is_pressed());
    assert_eq!(Key::BackQuote.into_bevy_key(), KeyCode::Backquote);
    assert_eq!(Key::ControlRight.into_bevy_key(), KeyCode::Unidentified);
    assert_eq!(
        key_input(KeyEvent::KeyRelease(Key::Tab)),
        Some((KeyCode::Tab, ButtonState::Released))
    );
    assert_eq!(key_input(KeyEvent::Other), None);
}

#[test]
fn actions_pass_while_the_modifier_is_down() {
    let mut gate = ActionGate::new();
    assert!(!gate.forward(&ActionEvent::pressed(Action::Menu)));
    assert!(gate.forward(&ActionEvent::pressed(Action::Modifier)));
    assert!(gate.forward(&ActionEvent::pressed(Action::Menu)));
    assert!(gate.forward(&ActionEvent::released(Action::Close)));
    assert!(gate.forward(&ActionEvent::released(Action::Modifier)));
    assert!(!gate.forward(&ActionEvent::pressed(Action::Close)));
}

#[test]
fn hotkeys_need_ctrl() {
    let mut h = Hotkeys::new();
    assert_eq!(h.on_event(KeyEvent::KeyPress(Key::Comma)), None);
    assert_eq!(h.on_event(KeyEvent::KeyPress(Key::ControlRight)), None);
    assert_eq!(h.on_event(KeyEvent::KeyPress(Key::Comma)), Some(Hotkey::Toggle));
    assert_eq!(h.on_event(KeyEvent::KeyRelease(Key::Comma)), None);
    assert_eq!(h.on_event(KeyEvent::KeyPress(Key::Dot)), Some(Hotkey::Save));
    assert_eq!(h.on_event(KeyEvent::KeyRelease(Key::ControlLeft)), None);
    assert_eq!(h.on_event(KeyEvent::KeyPress(Key::Dot)), None);
}

#[test]
fn pacer_connects_then_follows_new_frames() {
    let mut p = LinkPacer::new(Pacing::Halve);
    assert_eq!(p.step(LinkRead::Failed), LinkStep { send: false, wait_ms: 1000 });
    assert_eq!(p.step(LinkRead::Frame(0)), LinkStep { send: false, wait_ms: 1000 });
    assert_eq!(p.step(LinkRead::Frame(5)), LinkStep { send: false, wait_ms: 0 });
    assert!(p.connected);
    assert_eq!(p.step(LinkRead::Frame(6)), LinkStep { send: true, wait_ms: 0 });
    for _ in 0..3 {
        assert_eq!(p.step(LinkRead::Frame(6)), LinkStep { send: false, wait_ms: 0 });
    }
    assert_eq!(p.step(LinkRead::Frame(6)), LinkStep { send: false, wait_ms: 1 });
    assert_eq!(p.step(LinkRead::Frame(5)), LinkStep { send: false, wait_ms: 2 });
    assert_eq!(p.step(LinkRead::Failed), LinkStep { send: false, wait_ms: 2 });
    assert_eq!(p.step(LinkRead::Frame(7)), LinkStep { send: true, wait_ms: 1 });
    assert_eq!(p.last_ui_tick, 7);
    assert_eq!(p.fast_count, 0);
}

#[test]
fn pacer_step_down_and_steady() {
    let mut p = LinkPacer::new(Pacing::StepDown);
    p.connected = true;
    p.tick_rate = 10;
    assert_eq!(p.step(LinkRead::Frame(1)), LinkStep { send: true, wait_ms: 9 });
    let mut h = LinkPacer::new(Pacing::Halve);
    h.connected = true;
    h.tick_rate = 10;
    assert_eq!(h.step(LinkRead::Frame(1)), LinkStep { send: true, wait_ms: 5 });
    let mut s = LinkPacer::new(Pacing::Steady);
    assert_eq!(s.step(LinkRead::Frame(3)), LinkStep { send: false, wait_ms: 0 });
    assert_eq!(s.step(LinkRead::Frame(3)), LinkStep { send: true, wait_ms: 8 });
    assert_eq!(s.step(LinkRead::Frame(1)), LinkStep { send: true, wait_ms: 8 });
    assert_eq!(s.step(LinkRead::Failed), LinkStep { send: false, wait_ms: 0 });
}

fn full(name: &str) -> FullMarkerId {
    FullMarkerId { pack_id: PackId("p".to_string()), marker_name: MarkerName(vec![name.to_string()]) }
}

#[test]
fn enabled_markers_follow_events() {
    let mut m = EnabledMarkers::new();
    m.apply(MarkerEvent::Enable(full("a")));
    m.apply(MarkerEvent::Enable(full("a")));
    m.apply(MarkerEvent::Enable(full("b")));
    assert!(m.contains(&full("a")) && m.contains(&full("b")));
    m.apply(MarkerEvent::Disable(full("a")));
    assert!(!m.contains(&full("a")) && m.contains(&full("b")));
    m.apply(MarkerEvent::Disable(full("c")));
    assert!(m.contains(&full("b")));
    m.apply(MarkerEvent::DisableAll);
    assert!(!m.contains(&full("b")));
}

#[test]
fn frames_raise_ui_events() {
    let previous = GW2Context::from_bytes(block());
    let mut current = previous;
    let same = frame_update(&previous, &current, previous.map_id);
    assert_eq!(same.events.len(), 3);
    assert_eq!(same.map_id, None);
    assert_eq!(same.events[2], UiEvent::MapScale(2.0f32.to_bits()));
    current.compass_width = 10;
    current.ui_state = 0;
    let changed = frame_update(&previous, &current, 20);
    assert_eq!(changed.events[0], UiEvent::CompassSize(10, 338));
    assert_eq!(changed.events[1], UiEvent::MapOpen(false));
    assert_eq!(
        changed.events[2],
        UiEvent::MapPosition(100.0f32.to_bits(), 200.0f32.to_bits())
    );
    assert_eq!(changed.events[3], UiEvent::PlayerPosition((-20.25f32).to_bits(), 30.5f32.to_bits()));
    assert_eq!(changed.map_id, Some(20));
    let first = first_context(&previous);
    assert_eq!((first.compass_width, first.compass_height), (0, 0));
    assert_eq!(frame_update(&first, &previous, 15).events[0], UiEvent::CompassSize(362, 338));
    assert_eq!(action_ui_event(&ActionEvent::pressed(Action::Menu)), Some(UiEvent::ToggleUI));
    assert_eq!(action_ui_event(&ActionEvent::pressed(Action::Close)), Some(UiEvent::CloseUi));
    assert_eq!(action_ui_event(&ActionEvent::released(Action::Menu)), None);
    assert_eq!(map_state(true), GameState::WorldMap);
    assert_eq!(map_state(false), GameState::InGame);
}

#[test]
fn a_run_of_events_keeps_the_last_word_on_each_marker() {
    let mut m = EnabledMarkers::new();
    m.apply(MarkerEvent::Enable(full("z")));
    let events = vec![
        MarkerEvent::Enable(full("a")),
        MarkerEvent::Enable(full("b")),
        MarkerEvent::Disable(full("a")),
        MarkerEvent::DisableAll,
        MarkerEvent::Enable(full("b")),
        MarkerEvent::Enable(full("c")),
        MarkerEvent::Disable(full("c")),
    ];
    m.apply_all(&events);
    assert!(!m.contains(&full("a")));
    assert!(m.contains(&full("b")));
    assert!(!m.contains(&full("c")));
    assert!(!m.contains(&full("z")));
}

#[test]
fn a_gate_that_starts_down_forwards_until_the_modifier_is_released() {
    let mut gate = ActionGate { modifier_pressed: true };
    assert!(gate.forward(&ActionEvent::pressed(Action::Menu)));
    assert!(gate.forward(&ActionEvent::released(Action::Modifier)));
    assert!(!gate.forward(&ActionEvent::pressed(Action::Close)));
    assert!(!gate.modifier_pressed);
}

#[test]
fn a_new_link_sends_only_newer_frames() {
    let mut p = LinkPacer::new(Pacing::Halve);
    let mut sent = Vec::new();
    for t in [0, 3, 3, 5, 4, 7] {
        if p.step(LinkRead::Frame(t)).send {
            sent.push(t);
        }
    }
    assert_eq!(sent, vec![3, 5, 7]);
}
