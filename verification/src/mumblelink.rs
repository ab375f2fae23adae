//! The MumbleLink relay: the game's context block as the relay reads and
//! writes it, and the Ctrl hotkeys it listens for.

use vstd::prelude::*;
use vstd::bytes::{spec_u16_to_le_bytes, spec_u32_to_le_bytes};
use crate::bytes::{read_le_u16, read_le_u32, u16_at, u32_at, write_le_u16, write_le_u32};

verus! {

/// The context block as the relay sees it: a leading `u32`, the server's
/// IPv4 address, 24 reserved bytes, then the fields in order, little-endian.
/// The single-precision fields are kept as their bits.
#[derive(Clone, Copy, Debug, PartialEq, Eq)]
pub struct GW2Context {
    pub unknown: u32,
    pub server_address: [u8; 4],
    pub map_id: u32,
    pub map_type: u32,
    pub shard_id: u32,
    pub instance: u32,
    pub build_id: u32,
    pub ui_state: u32,
    pub compass_width: u16,
    pub compass_height: u16,
    /// Bits of an `f32`.
    pub compress_rotation: u32,
    /// Bits of an `f32`.
    pub player_x: u32,
    /// Bits of an `f32`.
    pub player_y: u32,
    /// Bits of an `f32`.
    pub map_center_x: u32,
    /// Bits of an `f32`.
    pub map_center_y: u32,
    /// Bits of an `f32`.
    pub map_scale: u32,
    pub process_id: u32,
    pub mount_index: u8,
}

/// The context that the 256 bytes of the block describe.
pub open spec fn context_of(b: Seq<u8>) -> GW2Context {
    GW2Context {
        unknown: u32_at(b, 0),
        server_address: [b[4], b[5], b[6], b[7]],
        map_id: u32_at(b, 32),
        map_type: u32_at(b, 36),
        shard_id: u32_at(b, 40),
        instance: u32_at(b, 44),
        build_id: u32_at(b, 48),
        ui_state: u32_at(b, 52),
        compass_width: u16_at(b, 56),
        compass_height: u16_at(b, 58),
        compress_rotation: u32_at(b, 60),
        player_x: u32_at(b, 64),
        player_y: u32_at(b, 68),
        map_center_x: u32_at(b, 72),
        map_center_y: u32_at(b, 76),
        map_scale: u32_at(b, 80),
        process_id: u32_at(b, 84),
        mount_index: b[88],
    }
}

/// `n` zero bytes.
pub open spec fn zeros(n: nat) -> Seq<u8> {
    Seq::new(n, |i: int| 0u8)
}

/// The bytes that writing a context gives: each field little-endian, one
/// after the other with no reserved gap, the address as the big-endian
/// number of its octets, and zeros after the last field.
pub open spec fn context_bytes(c: GW2Context) -> Seq<u8> {
    let a = c.server_address;
    spec_u32_to_le_bytes(c.unknown) + seq![a[3], a[2], a[1], a[0]] + spec_u32_to_le_bytes(c.map_id)
        + spec_u32_to_le_bytes(c.map_type) + spec_u32_to_le_bytes(c.shard_id)
        + spec_u32_to_le_bytes(c.instance) + spec_u32_to_le_bytes(c.build_id)
        + spec_u32_to_le_bytes(c.ui_state) + spec_u16_to_le_bytes(c.compass_width)
        + spec_u16_to_le_bytes(c.compass_height) + spec_u32_to_le_bytes(c.compress_rotation)
        + spec_u32_to_le_bytes(c.player_x) + spec_u32_to_le_bytes(c.player_y)
        + spec_u32_to_le_bytes(c.map_center_x) + spec_u32_to_le_bytes(c.map_center_y)
        + spec_u32_to_le_bytes(c.map_scale) + spec_u32_to_le_bytes(c.process_id) + seq![
        c.mount_index,
    ] + zeros(191)
}

/// `b` is a written block of `c`: 256 bytes holding, from the start and with
/// no gap, the leading `u32`, the address octets last to first, then each
/// field in the order of the struct, little-endian, the mount index at byte
/// 64, and zeros after it.
pub open spec fn block_holds(b: Seq<u8>, c: GW2Context) -> bool {
    &&& b.len() == 256
    &&& u32_at(b, 0) == c.unknown
    &&& b.subrange(4, 8) == seq![c.server_address[3], c.server_address[2], c.server_address[1], c.server_address[0]]
    &&& u32_at(b, 8) == c.map_id
    &&& u32_at(b, 12) == c.map_type
    &&& u32_at(b, 16) == c.shard_id
    &&& u32_at(b, 20) == c.instance
    &&& u32_at(b, 24) == c.build_id
    &&& u32_at(b, 28) == c.ui_state
    &&& u16_at(b, 32) == c.compass_width
    &&& u16_at(b, 34) == c.compass_height
    &&& u32_at(b, 36) == c.compress_rotation
    &&& u32_at(b, 40) == c.player_x
    &&& u32_at(b, 44) == c.player_y
    &&& u32_at(b, 48) == c.map_center_x
    &&& u32_at(b, 52) == c.map_center_y
    &&& u32_at(b, 56) == c.map_scale
    &&& u32_at(b, 60) == c.process_id
    &&& b[64] == c.mount_index
    &&& forall|i: int| 65 <= i < 256 ==> b[i] == 0
}

/// Writing a context puts every field at its place: read back from there, in
/// the written layout, each byte range gives the field again.
pub proof fn law_written_fields(c: GW2Context)
    ensures
        block_holds(context_bytes(c), c),
{
    vstd::bytes::lemma_auto_spec_u32_to_from_le_bytes();
    vstd::bytes::lemma_auto_spec_u16_to_from_le_bytes();
    let b = context_bytes(c);
    assert(b.len() == 256);
    assert(b.subrange(0, 4) =~= spec_u32_to_le_bytes(c.unknown));
    assert(b.subrange(8, 12) =~= spec_u32_to_le_bytes(c.map_id));
    assert(b.subrange(12, 16) =~= spec_u32_to_le_bytes(c.map_type));
    assert(b.subrange(16, 20) =~= spec_u32_to_le_bytes(c.shard_id));
    assert(b.subrange(20, 24) =~= spec_u32_to_le_bytes(c.instance));
    assert(b.subrange(24, 28) =~= spec_u32_to_le_bytes(c.build_id));
    assert(b.subrange(28, 32) =~= spec_u32_to_le_bytes(c.ui_state));
    assert(b.subrange(36, 40) =~= spec_u32_to_le_bytes(c.compress_rotation));
    assert(b.subrange(40, 44) =~= spec_u32_to_le_bytes(c.player_x));
    assert(b.subrange(44, 48) =~= spec_u32_to_le_bytes(c.player_y));
    assert(b.subrange(48, 52) =~= spec_u32_to_le_bytes(c.map_center_x));
    assert(b.subrange(52, 56) =~= spec_u32_to_le_bytes(c.map_center_y));
    assert(b.subrange(56, 60) =~= spec_u32_to_le_bytes(c.map_scale));
    assert(b.subrange(60, 64) =~= spec_u32_to_le_bytes(c.process_id));
    assert(b.subrange(32, 34) =~= spec_u16_to_le_bytes(c.compass_width));
    assert(b.subrange(34, 36) =~= spec_u16_to_le_bytes(c.compass_height));
    assert(b.subrange(4, 8) =~= seq![c.server_address[3], c.server_address[2], c.server_address[1], c.server_address[0]]);
}

/// Reading gives back what writing put, once the 24 reserved bytes that the
/// game keeps after the address are put back: every field is read from the
/// place it was written to, and the address octets come back last to first.
pub proof fn law_read_what_was_written(c: GW2Context)
    ensures
        ({
            let w = context_bytes(c);
            let a = c.server_address;
            context_of(w.subrange(0, 8) + zeros(24) + w.subrange(8, 232)) == GW2Context {
                server_address: [a[3], a[2], a[1], a[0]],
                ..c
            }
        }),
{
    law_written_fields(c);
    let w = context_bytes(c);
    let b = w.subrange(0, 8) + zeros(24) + w.subrange(8, 232);
    assert(b.len() == 256);
    assert(b.subrange(0, 4) =~= w.subrange(0, 4));
    assert(b.subrange(32, 36) =~= w.subrange(8, 12));
    assert(b.subrange(36, 40) =~= w.subrange(12, 16));
    assert(b.subrange(40, 44) =~= w.subrange(16, 20));
    assert(b.subrange(44, 48) =~= w.subrange(20, 24));
    assert(b.subrange(48, 52) =~= w.subrange(24, 28));
    assert(b.subrange(52, 56) =~= w.subrange(28, 32));
    assert(b.subrange(60, 64) =~= w.subrange(36, 40));
    assert(b.subrange(64, 68) =~= w.subrange(40, 44));
    assert(b.subrange(68, 72) =~= w.subrange(44, 48));
    assert(b.subrange(72, 76) =~= w.subrange(48, 52));
    assert(b.subrange(76, 80) =~= w.subrange(52, 56));
    assert(b.subrange(80, 84) =~= w.subrange(56, 60));
    assert(b.subrange(84, 88) =~= w.subrange(60, 64));
    assert(b.subrange(56, 58) =~= w.subrange(32, 34));
    assert(b.subrange(58, 60) =~= w.subrange(34, 36));
    assert(b.subrange(4, 8) =~= w.subrange(4, 8));
    assert(b[4] == w.subrange(4, 8)[0] && b[5] == w.subrange(4, 8)[1]);
    assert(b[6] == w.subrange(4, 8)[2] && b[7] == w.subrange(4, 8)[3]);
    assert(b[88] == w[64]);
}

/// The relay's block is the game's block behind one leading `u32`: every
/// field the relay reads is the field the overlay reads from the rest of the
/// block.
pub proof fn law_relay_reads_as_game(b: Seq<u8>)
    requires
        b.len() == 256,
    ensures
        ({
            let r = context_of(b);
            let g = crate::link::context_of(b.subrange(4, 256));
            &&& r.server_address == g.server_address
            &&& r.map_id == g.map_id
            &&& r.map_type == g.map_type
            &&& r.shard_id == g.shard_id
            &&& r.instance == g.instance
            &&& r.build_id == g.build_id
            &&& r.ui_state == g.ui_state
            &&& r.compress_rotation == g.compress_rotation
            &&& r.player_x == g.player_x
            &&& r.player_y == g.player_y
            &&& r.map_center_x == g.map_center_x
            &&& r.map_center_y == g.map_center_y
            &&& r.map_scale == g.map_scale
            &&& r.process_id == g.process_id
            &&& r.compass_width == g.compass_width
            &&& r.compass_height == g.compass_height
            &&& r.mount_index == g.mount_index
        }),
{
    let t = b.subrange(4, 256);
    assert(t.subrange(28, 32) =~= b.subrange(32, 36));
    assert(t.subrange(32, 36) =~= b.subrange(36, 40));
    assert(t.subrange(36, 40) =~= b.subrange(40, 44));
    assert(t.subrange(40, 44) =~= b.subrange(44, 48));
    assert(t.subrange(44, 48) =~= b.subrange(48, 52));
    assert(t.subrange(48, 52) =~= b.subrange(52, 56));
    assert(t.subrange(56, 60) =~= b.subrange(60, 64));
    assert(t.subrange(60, 64) =~= b.subrange(64, 68));
    assert(t.subrange(64, 68) =~= b.subrange(68, 72));
    assert(t.subrange(68, 72) =~= b.subrange(72, 76));
    assert(t.subrange(72, 76) =~= b.subrange(76, 80));
    assert(t.subrange(76, 80) =~= b.subrange(80, 84));
    assert(t.subrange(80, 84) =~= b.subrange(84, 88));
    assert(t.subrange(52, 54) =~= b.subrange(56, 58));
    assert(t.subrange(54, 56) =~= b.subrange(58, 60));
    assert(t[0] == b[4] && t[1] == b[5] && t[2] == b[6] && t[3] == b[7]);
    assert(t[84] == b[88]);
}

/// Writing `w` at the end of what was written so far keeps the rest zero.
proof fn lemma_write_after(acc: Seq<u8>, w: Seq<u8>, rest: nat)
    requires
        acc.len() + rest == 256,
        w.len() <= rest,
    ensures
        (acc + zeros(rest)).subrange(0, acc.len() as int) + w + (acc + zeros(rest)).subrange(
            (acc.len() + w.len()) as int,
            256,
        ) =~= (acc + w) + zeros((rest - w.len()) as nat),
{
}

/// Writes the next `u32` of the block.
fn put_u32(buf: &mut [u8; 256], at: usize, n: u32, Ghost(acc): Ghost<Seq<u8>>)
    requires
        at == acc.len(),
        at + 4 <= 256,
        old(buf)@ == acc + zeros((256 - at) as nat),
    ensures
        final(buf)@ == (acc + spec_u32_to_le_bytes(n)) + zeros((256 - at - 4) as nat),
{
    proof {
        vstd::bytes::lemma_auto_spec_u32_to_from_le_bytes();
        lemma_write_after(acc, spec_u32_to_le_bytes(n), (256 - at) as nat);
    }
    write_le_u32(buf, at, n);
}

/// Writes the next `u16` of the block.
fn put_u16(buf: &mut [u8; 256], at: usize, n: u16, Ghost(acc): Ghost<Seq<u8>>)
    requires
        at == acc.len(),
        at + 2 <= 256,
        old(buf)@ == acc + zeros((256 - at) as nat),
    ensures
        final(buf)@ == (acc + spec_u16_to_le_bytes(n)) + zeros((256 - at - 2) as nat),
{
    proof {
        vstd::bytes::lemma_auto_spec_u16_to_from_le_bytes();
        lemma_write_after(acc, spec_u16_to_le_bytes(n), (256 - at) as nat);
    }
    write_le_u16(buf, at, n);
}

impl GW2Context {
    /// Reads the context block. The block is long enough for every field,
    /// so reading always succeeds.
    pub fn from_bytes(value: [u8; 256]) -> (c: GW2Context)
        ensures
            c == context_of(value@),
    {
        let b = value.as_slice();
        GW2Context {
            unknown: read_le_u32(b, 0),
            server_address: [b[4], b[5], b[6], b[7]],
            map_id: read_le_u32(b, 32),
            map_type: read_le_u32(b, 36),
            shard_id: read_le_u32(b, 40),
            instance: read_le_u32(b, 44),
            build_id: read_le_u32(b, 48),
            ui_state: read_le_u32(b, 52),
            compass_width: read_le_u16(b, 56),
            compass_height: read_le_u16(b, 58),
            compress_rotation: read_le_u32(b, 60),
            player_x: read_le_u32(b, 64),
            player_y: read_le_u32(b, 68),
            map_center_x: read_le_u32(b, 72),
            map_center_y: read_le_u32(b, 76),
            map_scale: read_le_u32(b, 80),
            process_id: read_le_u32(b, 84),
            mount_index: b[88],
        }
    }

    /// Writes the context into a fresh block. Every field fits, so writing
    /// always succeeds.
    pub fn into_bytes(self) -> (r: [u8; 256])
        ensures
            r@ == context_bytes(self),
            block_holds(r@, self),
    {
        proof {
            law_written_fields(self);
        }
        let mut buf = [0u8; 256];
        assert(buf@ =~= Seq::<u8>::empty() + zeros(256));
        let a = self.server_address;
        // The address as one number, most significant octet first, is the
        // little-endian reading of its octets in reverse.
        let reversed = [a[3], a[2], a[1], a[0]];
        let bits = read_le_u32(reversed.as_slice(), 0);
        proof {
            vstd::bytes::lemma_auto_spec_u32_to_from_le_bytes();
            assert(reversed@.subrange(0, 4) =~= seq![a[3], a[2], a[1], a[0]]);
            assert(spec_u32_to_le_bytes(bits) == seq![a[3], a[2], a[1], a[0]]);
        }
        let ghost mut acc = Seq::<u8>::empty();
        put_u32(&mut buf, 0, self.unknown, Ghost(acc));
        proof { acc = acc + spec_u32_to_le_bytes(self.unknown); }
        put_u32(&mut buf, 4, bits, Ghost(acc));
        proof { acc = acc + spec_u32_to_le_bytes(bits); }
        put_u32(&mut buf, 8, self.map_id, Ghost(acc));
        proof { acc = acc + spec_u32_to_le_bytes(self.map_id); }
        put_u32(&mut buf, 12, self.map_type, Ghost(acc));
        proof { acc = acc + spec_u32_to_le_bytes(self.map_type); }
        put_u32(&mut buf, 16, self.shard_id, Ghost(acc));
        proof { acc = acc + spec_u32_to_le_bytes(self.shard_id); }
        put_u32(&mut buf, 20, self.instance, Ghost(acc));
        proof { acc = acc + spec_u32_to_le_bytes(self.instance); }
        put_u32(&mut buf, 24, self.build_id, Ghost(acc));
        proof { acc = acc + spec_u32_to_le_bytes(self.build_id); }
        put_u32(&mut buf, 28, self.ui_state, Ghost(acc));
        proof {
            acc = acc + spec_u32_to_le_bytes(self.ui_state);
            vstd::bytes::lemma_auto_spec_u16_to_from_le_bytes();
        }
        put_u16(&mut buf, 32, self.compass_width, Ghost(acc));
        proof { acc = acc + spec_u16_to_le_bytes(self.compass_width); }
        put_u16(&mut buf, 34, self.compass_height, Ghost(acc));
        proof { acc = acc + spec_u16_to_le_bytes(self.compass_height); }
        put_u32(&mut buf, 36, self.compress_rotation, Ghost(acc));
        proof { acc = acc + spec_u32_to_le_bytes(self.compress_rotation); }
        put_u32(&mut buf, 40, self.player_x, Ghost(acc));
        proof { acc = acc + spec_u32_to_le_bytes(self.player_x); }
        put_u32(&mut buf, 44, self.player_y, Ghost(acc));
        proof { acc = acc + spec_u32_to_le_bytes(self.player_y); }
        put_u32(&mut buf, 48, self.map_center_x, Ghost(acc));
        proof { acc = acc + spec_u32_to_le_bytes(self.map_center_x); }
        put_u32(&mut buf, 52, self.map_center_y, Ghost(acc));
        proof { acc = acc + spec_u32_to_le_bytes(self.map_center_y); }
        put_u32(&mut buf, 56, self.map_scale, Ghost(acc));
        proof { acc = acc + spec_u32_to_le_bytes(self.map_scale); }
        put_u32(&mut buf, 60, self.process_id, Ghost(acc));
        proof { acc = acc + spec_u32_to_le_bytes(self.process_id); }
        let ghost before = buf@;
        buf[64] = self.mount_index;
        proof {
            assert(buf@ =~= (acc + seq![self.mount_index]) + zeros(191));
            assert(acc + seq![self.mount_index] + zeros(191) =~= context_bytes(self));
        }
        buf
    }
}

} // verus!
