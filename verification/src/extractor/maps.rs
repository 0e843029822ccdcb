//! Map tiles: which grids ignore deep-water fatigue, the `.tilelist` file
//! (magic, version, build, then the bit string of converted tiles, most
//! significant bit first) and the camera file names.

use vstd::prelude::*;
use crate::bytes::{le_bytes_u32, push_all, push_u32_le};
use crate::text::{hex_fixed, push_hex_fixed, push_str, string_of};

verus! {

/// The magic of a `.map` and `.tilelist` file: `MAPS`.
pub const MAP_MAGIC: [u8; 4] = [0x4d, 0x41, 0x50, 0x53];
/// The version of the map file format.
pub const MAP_VERSION_MAGIC: u32 = 10;

/// The grids where deep water causes no fatigue: Vashj'ir (map 0, x 39..=40
/// with y 24..=26, and x 41..=46 with y 18..=26) and Thousand Needles (map
/// 1, x 43 with y 39 or 40).
pub open spec fn spec_deep_water_ignored(map_id: u32, x: u32, y: u32) -> bool {
    if map_id == 0 {
        (39 <= x <= 40 && 24 <= y <= 26) || (41 <= x <= 46 && 18 <= y <= 26)
    } else if map_id == 1 {
        x == 43 && (y == 39 || y == 40)
    } else {
        false
    }
}

/// Whether grid `x`, `y` of map `map_id` ignores deep-water fatigue.
pub fn is_deep_water_ignored(map_id: u32, x: u32, y: u32) -> (r: bool)
    ensures
        r == spec_deep_water_ignored(map_id, x, y),
{
    if map_id == 0 {
        return (39 <= x && x <= 40 && 24 <= y && y <= 26) || (41 <= x && x <= 46 && 18 <= y && y <= 26);
    }
    if map_id == 1 {
        return x == 43 && (y == 39 || y == 40);
    }
    false
}

/// The character of a tile flag: `1` or `0`.
pub open spec fn tile_char(b: bool) -> u8 {
    if b { 0x31 } else { 0x30 }
}

/// The bit string of `tiles`: one character per tile, the last tile first.
pub open spec fn spec_tiles_string(tiles: Seq<bool>) -> Seq<u8> {
    Seq::new(tiles.len(), |k: int| tile_char(tiles[tiles.len() - 1 - k]))
}

/// The tiles as a bit string, most significant (last) bit first.
pub fn tiles_to_string(existing_tiles: &[bool]) -> (r: Vec<u8>)
    ensures
        r@ == spec_tiles_string(existing_tiles@),
{
    let n = existing_tiles.len();
    let mut out: Vec<u8> = Vec::new();
    let mut k: usize = 0;
    while k < n
        invariant
            n == existing_tiles@.len(),
            k <= n,
            out@ == spec_tiles_string(existing_tiles@).take(k as int),
        decreases n - k,
    {
        let b = existing_tiles[n - 1 - k];
        out.push(if b { 0x31u8 } else { 0x30u8 });
        k += 1;
        assert(out@ =~= spec_tiles_string(existing_tiles@).take(k as int));
    }
    assert(spec_tiles_string(existing_tiles@).take(n as int) =~= spec_tiles_string(existing_tiles@));
    out
}

/// The `.tilelist` content: magic, format version and build (both
/// little-endian), then the tiles' bit string.
pub open spec fn spec_tile_list(build: u32, tiles: Seq<bool>) -> Seq<u8> {
    MAP_MAGIC@ + le_bytes_u32(MAP_VERSION_MAGIC) + le_bytes_u32(build) + spec_tiles_string(tiles)
}

/// The `.tilelist` file of a map.
pub fn tile_list_bytes(build: u32, existing_tiles: &[bool]) -> (r: Vec<u8>)
    ensures
        r@ == spec_tile_list(build, existing_tiles@),
{
    let mut out: Vec<u8> = Vec::new();
    let magic = MAP_MAGIC;
    push_all(&mut out, &magic);
    push_u32_le(&mut out, MAP_VERSION_MAGIC);
    push_u32_le(&mut out, build);
    let bits = tiles_to_string(existing_tiles);
    push_all(&mut out, bits.as_slice());
    assert(out@ =~= spec_tile_list(build, existing_tiles@));
    out
}

/// The file name of a camera: `FILE`, eight upper-case hex digits of the
/// file id, `.xxx`.
pub open spec fn spec_camera_file_name(file_data_id: u32) -> Seq<char> {
    "FILE"@ + hex_fixed(file_data_id as nat, 8, true) + ".xxx"@
}

/// The output file name of camera file `file_data_id`.
pub fn camera_file_name(file_data_id: u32) -> (r: String)
    ensures
        r@ == spec_camera_file_name(file_data_id),
{
    let mut out: Vec<char> = Vec::new();
    push_str(&mut out, "FILE");
    push_hex_fixed(&mut out, file_data_id as u64, 8, true);
    push_str(&mut out, ".xxx");
    let r = string_of(out.as_slice());
    assert(r@ =~= spec_camera_file_name(file_data_id));
    r
}

} // verus!
