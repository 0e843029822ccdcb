//! ADT and WDT chunk layouts: the integer fields of `MCNK`, `MH2O`
//! (liquid instances, attributes, exists bitmaps), `MFBO`, `MPHD`, `MAIN`
//! and `MAID`, each read at its byte offset from the chunk header.

use vstd::prelude::*;
use crate::extractor::loadlib::{FileData, wrap};

verus! {

/// Cells per grid side.
pub const ADT_CELLS_PER_GRID: usize = 16;
/// Vertices per cell side.
pub const ADT_CELL_SIZE: usize = 8;
/// Vertices per grid side.
pub const ADT_GRID_SIZE: usize = 128;
/// Tiles per WDT side.
pub const WDT_MAP_SIZE: usize = 64;

/// Liquid kind (the `SoundBank` of `LiquidType.db2`): water.
pub const LIQUID_TYPE_WATER: u8 = 0;
/// Liquid kind: ocean.
pub const LIQUID_TYPE_OCEAN: u8 = 1;
/// Liquid kind: magma.
pub const LIQUID_TYPE_MAGMA: u8 = 2;
/// Liquid kind: slime.
pub const LIQUID_TYPE_SLIME: u8 = 3;

/// Liquid vertex format: height and depth.
pub const LVF_HEIGHT_DEPTH: u16 = 0;
/// Liquid vertex format: height and texture coordinates.
pub const LVF_HEIGHT_TEXTURE_COORD: u16 = 1;
/// Liquid vertex format: depth only.
pub const LVF_DEPTH: u16 = 2;
/// Liquid vertex format: height, depth and texture coordinates.
pub const LVF_HEIGHT_DEPTH_TEXTURE_COORD: u16 = 3;
/// Liquid vertex format 4.
pub const LVF_UNK4: u16 = 4;
/// Liquid vertex format 5.
pub const LVF_UNK5: u16 = 5;

/// `MCNK` field reads; `at` is the chunk header's offset.
#[derive(Clone, Copy)]
pub struct Mcnk<'a> {
    pub file: &'a FileData,
    pub at: usize,
}

impl<'a> Mcnk<'a> {
    /// The `MCNK` chunk at `at` of `file`.
    pub fn new(file: &'a FileData, at: usize) -> (r: Mcnk<'a>)
        ensures
            r.file == file,
            r.at == at,
    {
        Mcnk { file, at }
    }

    /// `flags` (at +8).
    pub fn flags(self) -> (r: u32)
        requires
            self.at + 8 <= usize::MAX,
        ensures
            r == self.file.u32_spec(self.at + 8),
    {
        self.file.u32_at(self.at + 8)
    }

    /// `ix` (at +12).
    pub fn ix(self) -> (r: u32)
        requires
            self.at + 12 <= usize::MAX,
        ensures
            r == self.file.u32_spec(self.at + 12),
    {
        self.file.u32_at(self.at + 12)
    }

    /// `iy` (at +16).
    pub fn iy(self) -> (r: u32)
        requires
            self.at + 16 <= usize::MAX,
        ensures
            r == self.file.u32_spec(self.at + 16),
    {
        self.file.u32_at(self.at + 16)
    }

    /// The high-resolution hole mask: the 8 bytes at +28.
    pub fn high_res_holes(self) -> (r: [u8; 8])
        requires
            self.at + 28 <= usize::MAX,
        ensures
            forall|k: int| 0 <= k < 8 ==> r@[k] == crate::extractor::loadlib::fbyte(self.file@, wrap(self.at + 28, k)),
    {
        let at = self.at + 28;
        let r = [
            self.file.u8_at(at),
            self.file.u8_at(at.wrapping_add(1)),
            self.file.u8_at(at.wrapping_add(2)),
            self.file.u8_at(at.wrapping_add(3)),
            self.file.u8_at(at.wrapping_add(4)),
            self.file.u8_at(at.wrapping_add(5)),
            self.file.u8_at(at.wrapping_add(6)),
            self.file.u8_at(at.wrapping_add(7)),
        ];
        assert(wrap(at as int, 0) == at);
        r
    }

    /// `areaid` (at +60).
    pub fn areaid(self) -> (r: u32)
        requires
            self.at + 60 <= usize::MAX,
        ensures
            r == self.file.u32_spec(self.at + 60),
    {
        self.file.u32_at(self.at + 60)
    }

    /// `holes` (at +68).
    pub fn holes(self) -> (r: u32)
        requires
            self.at + 68 <= usize::MAX,
        ensures
            r == self.file.u32_spec(self.at + 68),
    {
        self.file.u32_at(self.at + 68)
    }

    /// `sizeMCLQ` (at +108).
    pub fn size_mclq(self) -> (r: u32)
        requires
            self.at + 108 <= usize::MAX,
        ensures
            r == self.file.u32_spec(self.at + 108),
    {
        self.file.u32_at(self.at + 108)
    }
}

/// A liquid instance of `MH2O` (24 bytes).
#[derive(Debug, Clone, Copy, PartialEq, Eq)]
pub struct LiquidInstance {
    pub liquid_type: u16,
    pub liquid_vertex_format: u16,
    pub offset_x: u8,
    pub offset_y: u8,
    pub width: u8,
    pub height: u8,
    pub offset_exists_bitmap: u32,
    pub offset_vertex_data: u32,
}

impl LiquidInstance {
    /// The x offset; 0 for a vertex format of 42 or more (a liquid object).
    pub fn get_offset_x(&self) -> (r: u8)
        ensures
            r == (if self.liquid_vertex_format < 42 { self.offset_x } else { 0 }),
    {
        if self.liquid_vertex_format < 42 { self.offset_x } else { 0 }
    }

    /// The y offset; 0 for a liquid object.
    pub fn get_offset_y(&self) -> (r: u8)
        ensures
            r == (if self.liquid_vertex_format < 42 { self.offset_y } else { 0 }),
    {
        if self.liquid_vertex_format < 42 { self.offset_y } else { 0 }
    }

    /// The width; 8 for a liquid object.
    pub fn get_width(&self) -> (r: u8)
        ensures
            r == (if self.liquid_vertex_format < 42 { self.width } else { 8 }),
    {
        if self.liquid_vertex_format < 42 { self.width } else { 8 }
    }

    /// The height; 8 for a liquid object.
    pub fn get_height(&self) -> (r: u8)
        ensures
            r == (if self.liquid_vertex_format < 42 { self.height } else { 8 }),
    {
        if self.liquid_vertex_format < 42 { self.height } else { 8 }
    }
}

/// The fishable and deep masks of one `MH2O` cell.
#[derive(Debug, Clone, Copy, PartialEq, Eq)]
pub struct LiquidAttributes {
    pub fishable: u64,
    pub deep: u64,
}

/// `MH2O` reads; `base` is 8 bytes past the chunk header (every `MH2O`
/// offset counts from there).
#[derive(Clone, Copy)]
pub struct Mh2o<'a> {
    pub file: &'a FileData,
    pub base: usize,
}

/// The three header words of cell `x`, `y` of an `MH2O` at `base`:
/// instance offset, used flag, attribute offset.
pub open spec fn mh2o_header_at(base: int, x: int, y: int) -> int {
    base + (x * 16 + y) * 12
}

impl<'a> Mh2o<'a> {
    /// The `MH2O` chunk whose header is at `at`.
    pub fn new(file: &'a FileData, at: usize) -> (r: Mh2o<'a>)
        requires
            at + 8 <= usize::MAX,
        ensures
            r.file == file,
            r.base == at + 8,
    {
        Mh2o { file, base: at + 8 }
    }

    fn header(self, x: usize, y: usize) -> (r: (u32, u32, u32))
        requires
            x < 16,
            y < 16,
            self.base + 16 * 16 * 12 <= usize::MAX,
        ensures
            r.0 == self.file.u32_spec(mh2o_header_at(self.base as int, x as int, y as int)),
            r.1 == self.file.u32_spec(mh2o_header_at(self.base as int, x as int, y as int) + 4),
            r.2 == self.file.u32_spec(mh2o_header_at(self.base as int, x as int, y as int) + 8),
    {
        let at = self.base + (x * ADT_CELLS_PER_GRID + y) * 12;
        (self.file.u32_at(at), self.file.u32_at(at + 4), self.file.u32_at(at + 8))
    }

    /// The liquid instance of cell `x`, `y`: `None` when the cell is
    /// unused or has no instance offset.
    pub fn get_liquid_instance(self, x: usize, y: usize) -> (r: Option<LiquidInstance>)
        requires
            x < 16,
            y < 16,
            self.base + 0x1_0000_0000 + 24 <= usize::MAX,
        ensures
            ({
                let h = mh2o_header_at(self.base as int, x as int, y as int);
                let off = self.file.u32_spec(h);
                let used = self.file.u32_spec(h + 4);
                match r {
                    None => used == 0 || off == 0,
                    Some(i) => used != 0 && off != 0 && {
                        let at = self.base + off;
                        &&& i.liquid_type == self.file.u16_spec(at)
                        &&& i.liquid_vertex_format == self.file.u16_spec(at + 2)
                        &&& i.offset_x == crate::extractor::loadlib::fbyte(self.file@, at + 12)
                        &&& i.offset_y == crate::extractor::loadlib::fbyte(self.file@, at + 13)
                        &&& i.width == crate::extractor::loadlib::fbyte(self.file@, at + 14)
                        &&& i.height == crate::extractor::loadlib::fbyte(self.file@, at + 15)
                        &&& i.offset_exists_bitmap == self.file.u32_spec(at + 16)
                        &&& i.offset_vertex_data == self.file.u32_spec(at + 20)
                    },
                }
            }),
    {
        let (offset_instances, used, _) = self.header(x, y);
        if used == 0 || offset_instances == 0 {
            return None;
        }
        let at = self.base + offset_instances as usize;
        Some(LiquidInstance {
            liquid_type: self.file.u16_at(at),
            liquid_vertex_format: self.file.u16_at(at + 2),
            offset_x: self.file.u8_at(at + 12),
            offset_y: self.file.u8_at(at + 13),
            width: self.file.u8_at(at + 14),
            height: self.file.u8_at(at + 15),
            offset_exists_bitmap: self.file.u32_at(at + 16),
            offset_vertex_data: self.file.u32_at(at + 20),
        })
    }

    /// The attributes of cell `x`, `y`: zero when the cell is unused, all
    /// ones when it is used without an attribute offset, else the two
    /// masks at that offset.
    pub fn get_liquid_attributes(self, x: usize, y: usize) -> (r: LiquidAttributes)
        requires
            x < 16,
            y < 16,
            self.base + 0x1_0000_0000 + 16 <= usize::MAX,
        ensures
            ({
                let h = mh2o_header_at(self.base as int, x as int, y as int);
                let used = self.file.u32_spec(h + 4);
                let off = self.file.u32_spec(h + 8);
                if used == 0 {
                    r == LiquidAttributes { fishable: 0, deep: 0 }
                } else if off == 0 {
                    r == LiquidAttributes { fishable: u64::MAX, deep: u64::MAX }
                } else {
                    r.fishable == self.file.u64_spec(self.base + off)
                        && r.deep == self.file.u64_spec(self.base + off + 8)
                }
            }),
    {
        let (_, used, offset_attributes) = self.header(x, y);
        if used != 0 {
            if offset_attributes != 0 {
                let at = self.base + offset_attributes as usize;
                return LiquidAttributes { fishable: self.file.u64_at(at), deep: self.file.u64_at(at + 8) };
            }
            return LiquidAttributes { fishable: u64::MAX, deep: u64::MAX };
        }
        LiquidAttributes { fishable: 0, deep: 0 }
    }

    /// The liquid type of `h` given its vertex format: 2 (magma) for the
    /// depth-only format, else the instance's type.
    pub fn get_liquid_type(h: &LiquidInstance, vertex_format: u16) -> (r: u16)
        ensures
            r == (if vertex_format == LVF_DEPTH { 2 } else { h.liquid_type }),
    {
        if vertex_format == LVF_DEPTH {
            return 2;
        }
        h.liquid_type
    }

    /// The exists bitmap of `h`: all ones without a bitmap offset.
    pub fn get_liquid_exists_bitmap(self, h: &LiquidInstance) -> (r: u64)
        requires
            self.base + 0x1_0000_0000 + 8 <= usize::MAX,
        ensures
            r == (if h.offset_exists_bitmap != 0 { self.file.u64_spec(self.base + h.offset_exists_bitmap) } else { u64::MAX as nat }),
    {
        if h.offset_exists_bitmap != 0 {
            self.file.u64_at(self.base + h.offset_exists_bitmap as usize)
        } else {
            u64::MAX
        }
    }
}

/// `MFBO`: the `max` then the `min` plane, nine `i16` each, after the
/// header at `at`.
pub fn mfbo_planes(file: &FileData, at: usize) -> (r: ([i16; 9], [i16; 9]))
    requires
        at + 8 + 36 <= usize::MAX,
    ensures
        forall|k: int| 0 <= k < 9 ==> r.0@[k] as int == file.i16_spec(at + 8 + k * 2) && r.1@[k] as int == file.i16_spec(at + 26 + k * 2),
{
    let mut max: [i16; 9] = [0; 9];
    let mut min: [i16; 9] = [0; 9];
    let mut i: usize = 0;
    while i < 9
        invariant
            i <= 9,
            at + 8 + 36 <= usize::MAX,
            forall|k: int| 0 <= k < i ==> max@[k] as int == file.i16_spec(at + 8 + k * 2) && min@[k] as int == file.i16_spec(at + 26 + k * 2),
        decreases 9 - i,
    {
        max.set(i, file.i16_at(at + 8 + i * 2));
        min.set(i, file.i16_at(at + 8 + 18 + i * 2));
        i += 1;
    }
    (max, min)
}

/// `MPHD` flags (after the header at `at`).
pub fn mphd_flags(file: &FileData, at: usize) -> (r: u32)
    requires
        at + 8 <= usize::MAX,
    ensures
        r == file.u32_spec(at + 8),
{
    file.u32_at(at + 8)
}

/// The `MAIN` flag of tile `y`, `x`.
pub fn main_flag(file: &FileData, at: usize, y: usize, x: usize) -> (r: u32)
    requires
        y < 64,
        x < 64,
        at + 8 + 64 * 64 * 8 <= usize::MAX,
    ensures
        r == file.u32_spec(at + 8 + (y * 64 + x) * 8),
{
    file.u32_at(at + 8 + (y * WDT_MAP_SIZE + x) * 8)
}

/// The root ADT file id of tile `y`, `x` in `MAID`.
pub fn maid_root_adt(file: &FileData, at: usize, y: usize, x: usize) -> (r: u32)
    requires
        y < 64,
        x < 64,
        at + 8 + 64 * 64 * 32 <= usize::MAX,
    ensures
        r == file.u32_spec(at + 8 + (y * 64 + x) * 32),
{
    file.u32_at(at + 8 + (y * WDT_MAP_SIZE + x) * 32)
}

/// The high-resolution row of a low-resolution hole nibble `q` (four
/// quadrants across): each set quadrant bit `k` sets bits `2k` and `2k+1`.
pub open spec fn hole_row(q: u16) -> u8 {
    ((if q & 1 != 0 { 0x03u8 } else { 0u8 }) | (if q & 2 != 0 { 0x0Cu8 } else { 0u8 })
        | (if q & 4 != 0 { 0x30u8 } else { 0u8 }) | (if q & 8 != 0 { 0xC0u8 } else { 0u8 })) as u8
}

/// The low-resolution quadrant bits under high-resolution row `i`.
pub open spec fn hole_nibble(low: u16, i: int) -> u16 {
    ((low >> ((i / 2) * 4) as u16) & 0xF) as u16
}

fn hole_row_exec(q: u16) -> (r: u8)
    ensures
        r == hole_row(q),
{
    (if q & 1 != 0 { 0x03u8 } else { 0u8 }) | (if q & 2 != 0 { 0x0Cu8 } else { 0u8 })
        | (if q & 4 != 0 { 0x30u8 } else { 0u8 }) | (if q & 8 != 0 { 0xC0u8 } else { 0u8 })
}

/// Expands the 4x4 low-resolution hole mask into the 8x8 high-resolution
/// one, ORing into `hi_res_holes`; true when any high-resolution hole is
/// set afterwards.
pub fn transform_to_high_res(low_res_holes: u16, hi_res_holes: &mut [u8; 8]) -> (r: bool)
    ensures
        forall|i: int| 0 <= i < 8 ==> #[trigger] final(hi_res_holes)@[i] == (old(hi_res_holes)@[i] | hole_row(hole_nibble(low_res_holes, i))),
        r == exists|i: int| 0 <= i < 8 && #[trigger] final(hi_res_holes)@[i] != 0,
{
    let mut i: usize = 0;
    while i < 8
        invariant
            i <= 8,
            forall|k: int| 0 <= k < i ==> #[trigger] hi_res_holes@[k] == (old(hi_res_holes)@[k] | hole_row(hole_nibble(low_res_holes, k))),
            forall|k: int| i <= k < 8 ==> #[trigger] hi_res_holes@[k] == old(hi_res_holes)@[k],
        decreases 8 - i,
    {
        let shift: u16 = ((i / 2) * 4) as u16;
        let q: u16 = (low_res_holes >> shift) & 0xF;
        assert(q == hole_nibble(low_res_holes, i as int));
        let row = hole_row_exec(q);
        let cur = hi_res_holes[i];
        hi_res_holes.set(i, cur | row);
        i += 1;
    }
    let mut any = false;
    let mut k: usize = 0;
    while k < 8
        invariant
            k <= 8,
            any == exists|j: int| 0 <= j < k && #[trigger] hi_res_holes@[j] != 0,
        decreases 8 - k,
    {
        if hi_res_holes[k] != 0 {
            any = true;
        }
        k += 1;
    }
    any
}

} // verus!
