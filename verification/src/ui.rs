//! What the overlay does with the link's messages: the UI events a new frame
//! of MumbleLink data raises, and those the player's actions raise.

use vstd::prelude::*;
use crate::input::{Action, ActionEvent, ButtonState};
use crate::link::{GW2Context, ui_flag};

verus! {

/// The overlay's top-level state.
#[derive(Clone, Copy, Debug, PartialEq, Eq, Hash)]
pub enum AppState {
    ParsingMarkerPacks,
    WaitingForMumbleLink,
    Running,
}

/// Where the player is, while the overlay runs.
#[derive(Clone, Copy, Debug, PartialEq, Eq, Hash)]
pub enum GameState {
    Loading,
    WorldMap,
    ChangingMaps,
    InGame,
}

/// What the UI is told. Positions and the scale are the bits of `f32`s.
#[derive(Clone, Copy, Debug, PartialEq, Eq)]
pub enum UiEvent {
    ToggleUI,
    CloseUi,
    CompassSize(u32, u32),
    PlayerPosition(u32, u32),
    MapPosition(u32, u32),
    MapScale(u32),
    MapOpen(bool),
}

/// What a new frame changes: the UI events it raises, in order, and the map
/// the player is now on when that changed.
pub struct FrameUpdate {
    pub events: Vec<UiEvent>,
    pub map_id: Option<u32>,
}

/// The UI events of a new frame, given the previous frame's context.
pub open spec fn frame_events(previous: GW2Context, current: GW2Context) -> Seq<UiEvent> {
    let size = if previous.compass_width != current.compass_width || previous.compass_height
        != current.compass_height {
        seq![UiEvent::CompassSize(current.compass_width as u32, current.compass_height as u32)]
    } else {
        Seq::empty()
    };
    let open = if ui_flag(previous.ui_state, 0) != ui_flag(current.ui_state, 0) {
        seq![UiEvent::MapOpen(ui_flag(current.ui_state, 0))]
    } else {
        Seq::empty()
    };
    size + open + seq![
        UiEvent::MapPosition(current.map_center_x, current.map_center_y),
        UiEvent::PlayerPosition(current.player_x, current.player_y),
        UiEvent::MapScale(current.map_scale),
    ]
}

/// Reacts to a new frame: a changed compass size and a map opened or closed
/// are reported, the map center, the player's position and the map scale
/// always are. The map the player is on, from the frame's identity, is
/// reported when it differs from the map id of the previous context.
pub fn frame_update(previous: &GW2Context, current: &GW2Context, identity_map_id: u32) -> (r:
    FrameUpdate)
    ensures
        r.events@ == frame_events(*previous, *current),
        r.map_id == (if previous.map_id != identity_map_id {
            Some(identity_map_id)
        } else {
            None
        }),
{
    let mut events: Vec<UiEvent> = Vec::new();
    if previous.compass_width != current.compass_width || previous.compass_height
        != current.compass_height {
        events.push(
            UiEvent::CompassSize(current.compass_width as u32, current.compass_height as u32),
        );
    }
    let was_open = previous.map_open();
    let is_open = current.map_open();
    if was_open != is_open {
        events.push(UiEvent::MapOpen(is_open));
    }
    events.push(UiEvent::MapPosition(current.map_center_x, current.map_center_y));
    events.push(UiEvent::PlayerPosition(current.player_x, current.player_y));
    events.push(UiEvent::MapScale(current.map_scale));
    assert(events@ =~= frame_events(*previous, *current));
    let map_id = if previous.map_id != identity_map_id {
        Some(identity_map_id)
    } else {
        None
    };
    FrameUpdate { events, map_id }
}

/// The UI event a player's action raises: pressing Menu toggles the UI,
/// pressing Close closes it; nothing else does anything.
pub fn action_ui_event(event: &ActionEvent) -> (r: Option<UiEvent>)
    ensures
        r == (if event.state == ButtonState::Pressed && event.action == Action::Menu {
            Some(UiEvent::ToggleUI)
        } else if event.state == ButtonState::Pressed && event.action == Action::Close {
            Some(UiEvent::CloseUi)
        } else {
            None
        }),
{
    match (event.action, event.state) {
        (Action::Menu, ButtonState::Pressed) => Some(UiEvent::ToggleUI),
        (Action::Close, ButtonState::Pressed) => Some(UiEvent::CloseUi),
        _ => None,
    }
}

/// The state the overlay goes to when the world map opens or closes.
pub fn map_state(map_open: bool) -> (s: GameState)
    ensures
        s == (if map_open {
            GameState::WorldMap
        } else {
            GameState::InGame
        }),
{
    if map_open {
        GameState::WorldMap
    } else {
        GameState::InGame
    }
}

/// The context kept as "previous" when the link first connects: the frame's
/// own, with the compass size cleared so that the next frame reports it.
pub fn first_context(current: &GW2Context) -> (c: GW2Context)
    ensures
        c == (GW2Context { compass_width: 0, compass_height: 0, ..*current }),
{
    GW2Context { compass_width: 0, compass_height: 0, ..*current }
}

/// A frame whose compass size and map state equal the previous one raises
/// only the three position events.
pub proof fn law_quiet_frame(previous: GW2Context, current: GW2Context)
    requires
        previous.compass_width == current.compass_width,
        previous.compass_height == current.compass_height,
        ui_flag(previous.ui_state, 0) == ui_flag(current.ui_state, 0),
    ensures
        frame_events(previous, current).len() == 3,
{
}

/// The first frame after connecting always reports the compass size, unless
/// the compass has no size.
pub proof fn law_first_frame_reports_compass(current: GW2Context, next: GW2Context)
    requires
        next.compass_width != 0 || next.compass_height != 0,
    ensures
        frame_events(
            GW2Context { compass_width: 0, compass_height: 0, ..current },
            next,
        )[0] == UiEvent::CompassSize(next.compass_width as u32, next.compass_height as u32),
{
}

} // verus!
