//! Values shared with the game through the MumbleLink shared-memory block.

use vstd::prelude::*;
use crate::bytes::{read_le_u16, read_le_u32, u16_at, u32_at};

verus! {

/// A character's profession, as reported in the MumbleLink identity.
#[derive(Clone, Copy, Debug, PartialEq, Eq)]
pub enum Profession {
    Unknown,
    Guardian,
    Warrior,
    Engineer,
    Ranger,
    Thief,
    Elementalist,
    Mesmer,
    Necromancer,
    Revenant,
}

/// The profession that the game's numeric code stands for.
pub open spec fn profession_of(value: u8) -> Profession {
    if value == 1 {
        Profession::Guardian
    } else if value == 2 {
        Profession::Warrior
    } else if value == 3 {
        Profession::Engineer
    } else if value == 4 {
        Profession::Ranger
    } else if value == 5 {
        Profession::Thief
    } else if value == 6 {
        Profession::Elementalist
    } else if value == 7 {
        Profession::Mesmer
    } else if value == 8 {
        Profession::Necromancer
    } else if value == 9 {
        Profession::Revenant
    } else {
        Profession::Unknown
    }
}

/// The game's numeric code for a profession.
pub open spec fn profession_code(p: Profession) -> u8 {
    match p {
        Profession::Unknown => 0,
        Profession::Guardian => 1,
        Profession::Warrior => 2,
        Profession::Engineer => 3,
        Profession::Ranger => 4,
        Profession::Thief => 5,
        Profession::Elementalist => 6,
        Profession::Mesmer => 7,
        Profession::Necromancer => 8,
        Profession::Revenant => 9,
    }
}

impl Profession {
    /// Decodes the profession code; codes outside 1..=9 are `Unknown`.
    pub fn from_u8(value: u8) -> (p: Profession)
        ensures
            p == profession_of(value),
    {
        match value {
            1 => Profession::Guardian,
            2 => Profession::Warrior,
            3 => Profession::Engineer,
            4 => Profession::Ranger,
            5 => Profession::Thief,
            6 => Profession::Elementalist,
            7 => Profession::Mesmer,
            8 => Profession::Necromancer,
            9 => Profession::Revenant,
            _ => Profession::Unknown,
        }
    }
}

/// Decoding a profession's own code gives that profession back.
pub proof fn law_profession_code_roundtrip(p: Profession)
    ensures
        profession_of(profession_code(p)) == p,
{
}

/// A code that decodes to a known profession is that profession's code.
pub proof fn law_profession_of_known_code(value: u8)
    ensures
        profession_of(value) != Profession::Unknown ==> profession_code(profession_of(value)) == value,
        profession_of(value) == Profession::Unknown <==> (value == 0 || value > 9),
{
}

/// The game's context block of the MumbleLink data, as laid out by the game:
/// the server's IPv4 address, 24 reserved bytes, then the fields in order,
/// little-endian. The single-precision fields are kept as their bits.
#[derive(Clone, Copy, Debug, PartialEq, Eq)]
pub struct GW2Context {
    pub server_address: [u8; 4],
    pub map_id: u32,
    pub map_type: u32,
    pub shard_id: u32,
    pub instance: u32,
    pub build_id: u32,
    pub ui_state: u32,
    pub compass_width: u16,
    pub compass_height: u16,
    /// Bits of an `f32`.
    pub compress_rotation: u32,
    /// Bits of an `f32`.
    pub player_x: u32,
    /// Bits of an `f32`.
    pub player_y: u32,
    /// Bits of an `f32`.
    pub map_center_x: u32,
    /// Bits of an `f32`.
    pub map_center_y: u32,
    /// Bits of an `f32`.
    pub map_scale: u32,
    pub process_id: u32,
    pub mount_index: u8,
}

/// The context that the 256 bytes of the block describe.
pub open spec fn context_of(b: Seq<u8>) -> GW2Context {
    GW2Context {
        server_address: [b[0], b[1], b[2], b[3]],
        map_id: u32_at(b, 28),
        map_type: u32_at(b, 32),
        shard_id: u32_at(b, 36),
        instance: u32_at(b, 40),
        build_id: u32_at(b, 44),
        ui_state: u32_at(b, 48),
        compass_width: u16_at(b, 52),
        compass_height: u16_at(b, 54),
        compress_rotation: u32_at(b, 56),
        player_x: u32_at(b, 60),
        player_y: u32_at(b, 64),
        map_center_x: u32_at(b, 68),
        map_center_y: u32_at(b, 72),
        map_scale: u32_at(b, 76),
        process_id: u32_at(b, 80),
        mount_index: b[84],
    }
}

/// Whether bit `k` of the UI state is set.
pub open spec fn ui_flag(ui_state: u32, k: u32) -> bool {
    ui_state & (1u32 << k) != 0
}

impl GW2Context {
    /// Reads the context block. The block is long enough for every field,
    /// so reading always succeeds.
    pub fn from_bytes(value: [u8; 256]) -> (c: GW2Context)
        ensures
            c == context_of(value@),
    {
        let b = value.as_slice();
        GW2Context {
            server_address: [b[0], b[1], b[2], b[3]],
            map_id: read_le_u32(b, 28),
            map_type: read_le_u32(b, 32),
            shard_id: read_le_u32(b, 36),
            instance: read_le_u32(b, 40),
            build_id: read_le_u32(b, 44),
            ui_state: read_le_u32(b, 48),
            compass_width: read_le_u16(b, 52),
            compass_height: read_le_u16(b, 54),
            compress_rotation: read_le_u32(b, 56),
            player_x: read_le_u32(b, 60),
            player_y: read_le_u32(b, 64),
            map_center_x: read_le_u32(b, 68),
            map_center_y: read_le_u32(b, 72),
            map_scale: read_le_u32(b, 76),
            process_id: read_le_u32(b, 80),
            mount_index: b[84],
        }
    }

    /// Whether the world map is open (bit 0 of the UI state).
    pub fn map_open(&self) -> (r: bool)
        ensures
            r == ui_flag(self.ui_state, 0),
    {
        assert(1u32 << 0u32 == 1u32) by (bit_vector);
        self.ui_state & 0b00000001 != 0
    }

    /// Whether the compass is at the top right (bit 1).
    pub fn compass_top_right(&self) -> (r: bool)
        ensures
            r == ui_flag(self.ui_state, 1),
    {
        assert(1u32 << 1u32 == 2u32) by (bit_vector);
        self.ui_state & 0b00000010 != 0
    }

    /// Whether the compass rotates (bit 2).
    pub fn compass_rotation_enabled(&self) -> (r: bool)
        ensures
            r == ui_flag(self.ui_state, 2),
    {
        assert(1u32 << 2u32 == 4u32) by (bit_vector);
        self.ui_state & 0b00000100 != 0
    }

    /// Whether the game has the focus (bit 3).
    pub fn game_focused(&self) -> (r: bool)
        ensures
            r == ui_flag(self.ui_state, 3),
    {
        assert(1u32 << 3u32 == 8u32) by (bit_vector);
        self.ui_state & 0b00001000 != 0
    }

    /// Whether the player is in a competitive game mode (bit 4).
    pub fn in_competitive_gamemode(&self) -> (r: bool)
        ensures
            r == ui_flag(self.ui_state, 4),
    {
        assert(1u32 << 4u32 == 16u32) by (bit_vector);
        self.ui_state & 0b00010000 != 0
    }

    /// Whether a text box has the focus (bit 5).
    pub fn textbox_focused(&self) -> (r: bool)
        ensures
            r == ui_flag(self.ui_state, 5),
    {
        assert(1u32 << 5u32 == 32u32) by (bit_vector);
        self.ui_state & 0b00100000 != 0
    }

    /// Whether the player is in combat (bit 6).
    pub fn in_combat(&self) -> (r: bool)
        ensures
            r == ui_flag(self.ui_state, 6),
    {
        assert(1u32 << 6u32 == 64u32) by (bit_vector);
        self.ui_state & 0b01000000 != 0
    }
}

/// The identity block of the MumbleLink data, as the game writes it in JSON.
/// The field of view is kept as the bits of its `f32`.
#[derive(Clone, Debug, PartialEq, Eq)]
pub struct Identity {
    pub name: String,
    pub profession: u8,
    pub spec: u8,
    pub race: u8,
    pub map_id: u32,
    pub team_color_id: usize,
    pub commander: bool,
    /// Bits of an `f32`.
    pub fov: u32,
    pub uisz: u8,
}

/// The identity with the profession decoded.
#[derive(Clone, Debug, PartialEq, Eq)]
pub struct IdentityDef {
    pub name: String,
    pub profession: Profession,
    pub spec: u8,
    pub race: u8,
    pub map_id: u32,
    pub team_color_id: usize,
    pub commander: bool,
    /// Bits of an `f32`.
    pub fov: u32,
    pub uisz: u8,
}

impl IdentityDef {
    /// The identity with its profession code decoded; the other fields are
    /// kept as they are.
    pub fn from_identity(identity: Identity) -> (r: IdentityDef)
        ensures
            r.name == identity.name,
            r.profession == profession_of(identity.profession),
            r.spec == identity.spec,
            r.race == identity.race,
            r.map_id == identity.map_id,
            r.team_color_id == identity.team_color_id,
            r.commander == identity.commander,
            r.fov == identity.fov,
            r.uisz == identity.uisz,
    {
        IdentityDef {
            name: identity.name,
            profession: Profession::from_u8(identity.profession),
            spec: identity.spec,
            race: identity.race,
            map_id: identity.map_id,
            team_color_id: identity.team_color_id,
            commander: identity.commander,
            fov: identity.fov,
            uisz: identity.uisz,
        }
    }
}

} // verus!
