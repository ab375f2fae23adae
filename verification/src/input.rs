//! Keyboard input shared by the overlay and the link: raw key events, the
//! actions they map to, which actions are forwarded, and the Ctrl hotkeys.

use vstd::prelude::*;

verus! {

/// A key as the global keyboard hook reports it; keys the logic does not
/// look at are `Other`.
#[derive(Clone, Copy, Debug, PartialEq, Eq)]
pub enum Key {
    Escape,
    BackQuote,
    Tab,
    ControlLeft,
    ControlRight,
    Comma,
    Dot,
    Other,
}

/// An event of the global keyboard hook.
#[derive(Clone, Copy, Debug, PartialEq, Eq)]
pub enum KeyEvent {
    KeyPress(Key),
    KeyRelease(Key),
    /// Mouse and wheel events.
    Other,
}

/// A key as the overlay's input state knows it.
#[derive(Clone, Copy, Debug, PartialEq, Eq)]
pub enum KeyCode {
    Escape,
    Backquote,
    Tab,
    ControlLeft,
    Unidentified,
}

/// Whether a key or button went down or up.
#[derive(Clone, Copy, Debug, PartialEq, Eq)]
pub enum ButtonState {
    Pressed,
    Released,
}

/// What a key means to the overlay.
#[derive(Clone, Copy, Debug, PartialEq, Eq)]
pub enum Action {
    Modifier,
    Menu,
    Close,
    Overlay,
}

/// An action that went down or up.
#[derive(Clone, Copy, Debug, PartialEq, Eq)]
pub struct ActionEvent {
    pub action: Action,
    pub state: ButtonState,
}

/// The overlay's key for a hooked key.
pub open spec fn bevy_key_of(key: Key) -> KeyCode {
    match key {
        Key::Escape => KeyCode::Escape,
        Key::BackQuote => KeyCode::Backquote,
        Key::Tab => KeyCode::Tab,
        Key::ControlLeft => KeyCode::ControlLeft,
        _ => KeyCode::Unidentified,
    }
}

impl Key {
    /// The overlay's key for a hooked key: Escape, BackQuote, Tab and the
    /// left Ctrl are known, every other key is unidentified.
    pub fn into_bevy_key(self) -> (k: KeyCode)
        ensures
            k == bevy_key_of(self),
    {
        match self {
            Key::Escape => KeyCode::Escape,
            Key::BackQuote => KeyCode::Backquote,
            Key::Tab => KeyCode::Tab,
            Key::ControlLeft => KeyCode::ControlLeft,
            _ => KeyCode::Unidentified,
        }
    }
}

/// The key change that a hooked event makes to the overlay's input state.
pub fn key_input(event: KeyEvent) -> (r: Option<(KeyCode, ButtonState)>)
    ensures
        r == match event {
            KeyEvent::KeyPress(k) => Some((bevy_key_of(k), ButtonState::Pressed)),
            KeyEvent::KeyRelease(k) => Some((bevy_key_of(k), ButtonState::Released)),
            KeyEvent::Other => None,
        },
{
    match event {
        KeyEvent::KeyPress(k) => Some((k.into_bevy_key(), ButtonState::Pressed)),
        KeyEvent::KeyRelease(k) => Some((k.into_bevy_key(), ButtonState::Released)),
        KeyEvent::Other => None,
    }
}

/// The action a key stands for, if any.
pub open spec fn action_of(key: KeyCode) -> Option<Action> {
    match key {
        KeyCode::Tab => Some(Action::Menu),
        KeyCode::Escape => Some(Action::Close),
        KeyCode::ControlLeft => Some(Action::Modifier),
        _ => None,
    }
}

/// The key that stands for an action, if any.
pub open spec fn action_key(a: Action) -> Option<KeyCode> {
    match a {
        Action::Menu => Some(KeyCode::Tab),
        Action::Close => Some(KeyCode::Escape),
        Action::Modifier => Some(KeyCode::ControlLeft),
        Action::Overlay => None,
    }
}

/// Each action has at most one key, and a key stands for an action exactly
/// when it is that action's key: Tab the menu, Escape closing, the left Ctrl
/// the modifier; no key stands for the overlay action.
pub proof fn law_actions_by_key(k: KeyCode, a: Action)
    ensures
        action_of(k) == Some(a) <==> action_key(a) == Some(k),
{
}

/// The hooked key that an overlay key comes from, if any.
pub open spec fn hooked_key_for(code: KeyCode) -> Option<Key> {
    match code {
        KeyCode::Escape => Some(Key::Escape),
        KeyCode::Backquote => Some(Key::BackQuote),
        KeyCode::Tab => Some(Key::Tab),
        KeyCode::ControlLeft => Some(Key::ControlLeft),
        KeyCode::Unidentified => None,
    }
}

/// A hooked key that the overlay knows keeps its identity, and every other
/// key becomes unidentified: the overlay key of `k` comes from `k` alone.
pub proof fn law_bevy_keys(k: Key, code: KeyCode)
    ensures
        hooked_key_for(code) == Some(k) ==> bevy_key_of(k) == code,
        bevy_key_of(k) != KeyCode::Unidentified ==> hooked_key_for(bevy_key_of(k)) == Some(k),
        hooked_key_for(bevy_key_of(k)) is None ==> bevy_key_of(k) == KeyCode::Unidentified,
{
}

/// The action a key stands for: Tab opens the menu, Escape closes, the left
/// Ctrl is the modifier.
pub fn input_map(value: &KeyCode) -> (r: Option<Action>)
    ensures
        r == action_of(*value),
{
    match value {
        KeyCode::Tab => Some(Action::Menu),
        KeyCode::Escape => Some(Action::Close),
        KeyCode::ControlLeft => Some(Action::Modifier),
        _ => None,
    }
}

impl ActionEvent {
    /// The action going down.
    pub fn pressed(action: Action) -> (e: ActionEvent)
        ensures
            e == (ActionEvent { action, state: ButtonState::Pressed }),
    {
        ActionEvent { action, state: ButtonState::Pressed }
    }

    /// The action going up.
    pub fn released(action: Action) -> (e: ActionEvent)
        ensures
            e == (ActionEvent { action, state: ButtonState::Released }),
    {
        ActionEvent { action, state: ButtonState::Released }
    }

    /// Whether the action went down.
    pub fn is_pressed(&self) -> (r: bool)
        ensures
            r == (self.state == ButtonState::Pressed),
    {
        match self.state {
            ButtonState::Pressed => true,
            ButtonState::Released => false,
        }
    }
}

/// The action events for some keys that changed, in order, skipping keys
/// that stand for no action.
pub open spec fn events_for(keys: Seq<KeyCode>, state: ButtonState) -> Seq<ActionEvent>
    decreases keys.len(),
{
    if keys.len() == 0 {
        Seq::empty()
    } else {
        let rest = events_for(keys.drop_last(), state);
        match action_of(keys.last()) {
            Some(a) => rest.push(ActionEvent { action: a, state }),
            None => rest,
        }
    }
}

fn push_events(out: &mut Vec<ActionEvent>, keys: &Vec<KeyCode>, state: ButtonState)
    ensures
        final(out)@ == old(out)@ + events_for(keys@, state),
{
    let ghost start = out@;
    let mut i: usize = 0;
    while i < keys.len()
        invariant
            i <= keys@.len(),
            out@ == start + events_for(keys@.take(i as int), state),
        decreases keys@.len() - i,
    {
        proof {
            assert(keys@.take(i + 1).drop_last() =~= keys@.take(i as int));
            assert(keys@.take(i + 1).last() == keys@[i as int]);
        }
        match input_map(&keys[i]) {
            Some(a) => {
                let ghost before = out@;
                out.push(ActionEvent { action: a, state });
                assert(out@ =~= start + events_for(keys@.take(i + 1), state));
            },
            None => {},
        }
        i = i + 1;
    }
    assert(keys@.take(keys@.len() as int) =~= keys@);
}

/// The action events for one frame of input: those of the keys just
/// pressed, then those of the keys just released.
pub fn input_events(just_pressed: &Vec<KeyCode>, just_released: &Vec<KeyCode>) -> (r: Vec<
    ActionEvent,
>)
    ensures
        r@ == events_for(just_pressed@, ButtonState::Pressed) + events_for(
            just_released@,
            ButtonState::Released,
        ),
{
    let mut out: Vec<ActionEvent> = Vec::new();
    push_events(&mut out, just_pressed, ButtonState::Pressed);
    push_events(&mut out, just_released, ButtonState::Released);
    assert(out@ =~= events_for(just_pressed@, ButtonState::Pressed) + events_for(
        just_released@,
        ButtonState::Released,
    ));
    out
}

/// Whether the modifier is down after a run of action events: it went down
/// and has not gone up since.
pub open spec fn modifier_down(events: Seq<ActionEvent>) -> bool
    decreases events.len(),
{
    if events.len() == 0 {
        false
    } else if events.last().action == Action::Modifier {
        events.last().state == ButtonState::Pressed
    } else {
        modifier_down(events.drop_last())
    }
}

/// Decides which action events the link sends on: the modifier's own
/// events always, other actions only while the modifier is down.
pub struct ActionGate {
    pub modifier_pressed: bool,
}

impl ActionGate {
    /// A gate with the modifier up.
    pub fn new() -> (g: ActionGate)
        ensures
            !g.modifier_pressed,
    {
        ActionGate { modifier_pressed: false }
    }

    /// Whether to send the event on; a modifier event also records whether
    /// the modifier is now down.
    pub fn forward(&mut self, event: &ActionEvent) -> (send: bool)
        ensures
            (final(self).modifier_pressed, send) == gate_step(old(self).modifier_pressed, *event),
    {
        match (event.action, event.state) {
            (Action::Modifier, ButtonState::Pressed) => {
                self.modifier_pressed = true;
                true
            },
            (Action::Modifier, ButtonState::Released) => {
                self.modifier_pressed = false;
                true
            },
            _ => self.modifier_pressed,
        }
    }
}

/// One step of an `ActionGate`: whether the modifier is down afterwards,
/// and whether the event is sent on.
pub open spec fn gate_step(pressed: bool, event: ActionEvent) -> (bool, bool) {
    if event.action == Action::Modifier {
        (event.state == ButtonState::Pressed, true)
    } else {
        (pressed, pressed)
    }
}

/// Whether an `ActionGate` that started with the modifier up holds it down
/// after a run of events.
pub open spec fn gate_after(events: Seq<ActionEvent>) -> bool
    decreases events.len(),
{
    if events.len() == 0 {
        false
    } else {
        gate_step(gate_after(events.drop_last()), events.last()).0
    }
}

/// Whatever events came before, an action other than the modifier is sent
/// on exactly when the modifier is down, and the modifier's own events
/// always are.
pub proof fn law_gate_tracks_modifier(events: Seq<ActionEvent>, next: ActionEvent)
    ensures
        gate_after(events) == modifier_down(events),
        next.action != Action::Modifier ==> gate_step(gate_after(events), next).1 == modifier_down(
            events,
        ),
        next.action == Action::Modifier ==> gate_step(gate_after(events), next).1,
    decreases events.len(),
{
    if events.len() > 0 {
        law_gate_tracks_modifier(events.drop_last(), events.last());
    }
}

/// Whether the modifier is down after a run of action events, from `m0`:
/// the state the last modifier event left, or `m0` if there was none.
pub open spec fn modifier_down_from(m0: bool, events: Seq<ActionEvent>) -> bool
    decreases events.len(),
{
    if events.len() == 0 {
        m0
    } else if events.last().action == Action::Modifier {
        events.last().state == ButtonState::Pressed
    } else {
        modifier_down_from(m0, events.drop_last())
    }
}

/// The state of an `ActionGate` that started at `m0`, after a run of events.
pub open spec fn gate_from(m0: bool, events: Seq<ActionEvent>) -> bool
    decreases events.len(),
{
    if events.len() == 0 {
        m0
    } else {
        gate_step(gate_from(m0, events.drop_last()), events.last()).0
    }
}

/// A modifier gate, over a series of events, keeps what the last modifier
/// event left (or its first state when there was none), and sends each event
/// on exactly when it is a modifier event or the modifier was down before it.
pub proof fn law_gate_run(m0: bool, events: Seq<ActionEvent>)
    ensures
        gate_from(m0, events) == modifier_down_from(m0, events),
        forall|i: int|
            0 <= i < events.len() ==> #[trigger] gate_step(gate_from(m0, events.take(i)), events[i]).1
                == (events[i].action == Action::Modifier || modifier_down_from(m0, events.take(i))),
    decreases events.len(),
{
    if events.len() > 0 {
        let init = events.drop_last();
        law_gate_run(m0, init);
        assert forall|i: int|
            0 <= i < events.len() implies #[trigger] gate_step(gate_from(m0, events.take(i)), events[i]).1
                == (events[i].action == Action::Modifier || modifier_down_from(m0, events.take(i))) by {
            if i < init.len() {
                assert(events.take(i) =~= init.take(i));
                assert(events[i] == init[i]);
            } else {
                assert(events.take(i) =~= init);
            }
        }
    }
}

/// A hotkey of the link: Ctrl+Comma toggles, Ctrl+Dot saves.
#[derive(Clone, Copy, Debug, PartialEq, Eq)]
pub enum Hotkey {
    Toggle,
    Save,
}

/// Whether a key is one of the Ctrl keys.
pub open spec fn is_ctrl(key: Key) -> bool {
    key == Key::ControlLeft || key == Key::ControlRight
}

/// One step of the hotkey listener: whether Ctrl is held afterwards, and the
/// hotkey the event completes, if any.
pub open spec fn hotkey_step(held: bool, event: KeyEvent) -> (bool, Option<Hotkey>) {
    if held {
        match event {
            KeyEvent::KeyPress(Key::Comma) => (true, Some(Hotkey::Toggle)),
            KeyEvent::KeyPress(Key::Dot) => (true, Some(Hotkey::Save)),
            KeyEvent::KeyRelease(k) => (!is_ctrl(k), None),
            _ => (true, None),
        }
    } else {
        match event {
            KeyEvent::KeyPress(k) => (is_ctrl(k), None),
            _ => (false, None),
        }
    }
}

/// A hotkey is given exactly on a press of Comma (Toggle) or Dot (Save)
/// while Ctrl is held; every other event, and every event while Ctrl is up,
/// gives none.
pub proof fn law_hotkeys_only_comma_dot(held: bool, event: KeyEvent)
    ensures
        hotkey_step(held, event).1 == Some(Hotkey::Toggle) <==> (held && event == KeyEvent::KeyPress(
            Key::Comma,
        )),
        hotkey_step(held, event).1 == Some(Hotkey::Save) <==> (held && event == KeyEvent::KeyPress(
            Key::Dot,
        )),
        hotkey_step(held, event).1 is None <==> !(held && (event == KeyEvent::KeyPress(Key::Comma)
            || event == KeyEvent::KeyPress(Key::Dot))),
{
}

/// Listens for the link's hotkeys in the raw key events.
pub struct Hotkeys {
    pub mod_held: bool,
}

impl Hotkeys {
    /// A listener with Ctrl up.
    pub fn new() -> (h: Hotkeys)
        ensures
            !h.mod_held,
    {
        Hotkeys { mod_held: false }
    }

    /// Takes one key event; gives the hotkey it completes, if any.
    pub fn on_event(&mut self, event: KeyEvent) -> (r: Option<Hotkey>)
        ensures
            (final(self).mod_held, r) == hotkey_step(old(self).mod_held, event),
            r == Some(Hotkey::Toggle) <==> (old(self).mod_held && event == KeyEvent::KeyPress(Key::Comma)),
            r == Some(Hotkey::Save) <==> (old(self).mod_held && event == KeyEvent::KeyPress(Key::Dot)),
            r is None <==> !(old(self).mod_held && (event == KeyEvent::KeyPress(Key::Comma) || event
                == KeyEvent::KeyPress(Key::Dot))),
    {
        if self.mod_held {
            match event {
                KeyEvent::KeyPress(Key::Comma) => Some(Hotkey::Toggle),
                KeyEvent::KeyPress(Key::Dot) => Some(Hotkey::Save),
                KeyEvent::KeyRelease(Key::ControlLeft) | KeyEvent::KeyRelease(Key::ControlRight) => {
                    self.mod_held = false;
                    None
                },
                _ => None,
            }
        } else {
            match event {
                KeyEvent::KeyPress(Key::ControlLeft) | KeyEvent::KeyPress(Key::ControlRight) => {
                    self.mod_held = true;
                    None
                },
                _ => None,
            }
        }
    }
}

/// Whether Ctrl is held after a run of events, from the listener's view:
/// the last Ctrl event is a press.
pub open spec fn ctrl_down(events: Seq<KeyEvent>) -> bool
    decreases events.len(),
{
    if events.len() == 0 {
        false
    } else {
        match events.last() {
            KeyEvent::KeyPress(k) => if is_ctrl(k) {
                true
            } else {
                ctrl_down(events.drop_last())
            },
            KeyEvent::KeyRelease(k) => if is_ctrl(k) {
                false
            } else {
                ctrl_down(events.drop_last())
            },
            KeyEvent::Other => ctrl_down(events.drop_last()),
        }
    }
}

/// Whether Ctrl is held after a run of events, from a listener with Ctrl up.
pub open spec fn held_after(events: Seq<KeyEvent>) -> bool
    decreases events.len(),
{
    if events.len() == 0 {
        false
    } else {
        hotkey_step(held_after(events.drop_last()), events.last()).0
    }
}

/// Over a run of events from a listener with Ctrl up, the last event gives
/// Toggle exactly when it is a press of Comma after a Ctrl key went down and
/// stayed down, Save likewise for Dot, and nothing otherwise.
pub proof fn law_hotkeys_in_a_run(events: Seq<KeyEvent>)
    requires
        events.len() > 0,
    ensures
        ({
            let down = ctrl_down(events.drop_last());
            let r = hotkey_step(held_after(events.drop_last()), events.last()).1;
            &&& r == Some(Hotkey::Toggle) <==> (down && events.last() == KeyEvent::KeyPress(Key::Comma))
            &&& r == Some(Hotkey::Save) <==> (down && events.last() == KeyEvent::KeyPress(Key::Dot))
            &&& r is None <==> !(down && (events.last() == KeyEvent::KeyPress(Key::Comma)
                || events.last() == KeyEvent::KeyPress(Key::Dot)))
        }),
{
    law_hotkeys_track_ctrl(events.drop_last());
    law_hotkeys_only_comma_dot(held_after(events.drop_last()), events.last());
}

/// The listener holds Ctrl exactly when the last Ctrl event was a press, so
/// Comma and Dot are hotkeys exactly while a Ctrl key is down.
pub proof fn law_hotkeys_track_ctrl(events: Seq<KeyEvent>)
    ensures
        held_after(events) == ctrl_down(events),
    decreases events.len(),
{
    if events.len() > 0 {
        law_hotkeys_track_ctrl(events.drop_last());
    }
}

} // verus!
