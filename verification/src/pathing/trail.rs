//! The binary trail files (`.trl`) of a marker pack.
//!
//! A trail file is a little-endian `u32` version, a `u32` map id, then points
//! of three little-endian IEEE-754 singles each. Points are kept here as the
//! bits of their coordinates.

use vstd::prelude::*;
use vstd::bytes::{spec_u32_from_le_bytes, u32_from_le_bytes};
use vstd::slice::slice_subrange;

verus! {

/// The data read from a trail file. Each point is the bits of its x, y and z.
#[derive(Clone, Debug, PartialEq, Eq)]
pub struct TrailData {
    pub version: u32,
    pub map_id: u32,
    pub path: Vec<[u32; 3]>,
}

/// Why a trail file could not be read.
#[derive(Clone, Copy, Debug, PartialEq, Eq)]
pub enum TrailError {
    /// The file ends before its version and map id.
    MissingHeader,
}

/// The little-endian `u32` at `at`.
pub open spec fn le_u32_at(b: Seq<u8>, at: int) -> u32 {
    spec_u32_from_le_bytes(b.subrange(at, at + 4))
}

/// The number of whole points after the header; trailing bytes that do not
/// make a whole point are ignored.
pub open spec fn point_count(len: nat) -> nat {
    if len < 8 {
        0
    } else {
        ((len - 8) as nat / 12) as nat
    }
}

/// Point `k` of a trail file.
pub open spec fn point_at(b: Seq<u8>, k: int) -> [u32; 3] {
    [le_u32_at(b, 8 + 12 * k), le_u32_at(b, 12 + 12 * k), le_u32_at(b, 16 + 12 * k)]
}

fn u32_at(b: &[u8], at: usize) -> (r: u32)
    requires
        at + 4 <= b@.len(),
    ensures
        r == le_u32_at(b@, at as int),
{
    let total = b.len();
    assert(at + 4 <= total);
    u32_from_le_bytes(slice_subrange(b, at, at + 4))
}

/// Reads a trail file: its version, its map id and every whole point after
/// them, in order.
pub fn read(input: &[u8]) -> (r: Result<TrailData, TrailError>)
    ensures
        input@.len() < 8 ==> r == Err::<TrailData, TrailError>(TrailError::MissingHeader),
        input@.len() >= 8 ==> (r matches Ok(t) && t.version == le_u32_at(input@, 0) && t.map_id
            == le_u32_at(input@, 4) && t.path@.len() == point_count(input@.len()) && forall|k: int|
            0 <= k < t.path@.len() ==> #[trigger] t.path@[k] == point_at(input@, k)),
{
    if input.len() < 8 {
        return Err(TrailError::MissingHeader);
    }
    let version = u32_at(input, 0);
    let map_id = u32_at(input, 4);
    let mut path: Vec<[u32; 3]> = Vec::new();
    let total = input.len();
    let n = (total - 8) / 12;
    let mut k: usize = 0;
    while k < n
        invariant
            input@.len() >= 8,
            total == input@.len(),
            n == point_count(input@.len()),
            k <= n,
            path@.len() == k,
            forall|j: int| 0 <= j < k ==> #[trigger] path@[j] == point_at(input@, j),
        decreases n - k,
    {
        let ghost len = input@.len() as int;
        assert(12 * n <= len - 8);
        assert(12 * k + 12 <= 12 * n);
        assert(8 + 12 * k + 12 <= input@.len());
        let at = 8 + 12 * k;
        let p = [u32_at(input, at), u32_at(input, at + 4), u32_at(input, at + 8)];
        path.push(p);
        k = k + 1;
    }
    Ok(TrailData { version, map_id, path })
}

} // verus!
