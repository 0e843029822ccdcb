//! Chunked client files (ADT, WDT): the scan that finds the interesting
//! chunks of a file and the sub-chunks inside each, and the lookups by name.
//!
//! The top-level scan walks byte by byte, accepts only the ten interesting
//! FourCCs, keeps a chunk whose size is at most the file size, and always
//! advances by `size + 8` (32-bit wrapping) after an interesting header. The
//! sub-chunk scan starts 8 bytes into the chunk and runs while the position
//! is below `offset + size`, keeping sub-chunks smaller than the chunk.
//! Reads past the end of the file give zero.

use vstd::prelude::*;
use crate::text::chars_of;

verus! {

/// `FILE_FORMAT_VERSION`: the version an `MVER` chunk must carry.
pub const FILE_FORMAT_VERSION: u32 = 18;

/// The ten interesting FourCCs, as the little-endian value of their four
/// bytes on disk (where they are stored reversed: `REVM` for `MVER`).
pub open spec fn is_interesting(code: nat) -> bool {
    code == 0x4d564552 || code == 0x4d41494e || code == 0x4d48324f || code == 0x4d434e4b || code == 0x4d435654
        || code == 0x4d574d4f || code == 0x4d434c51 || code == 0x4d46424f || code == 0x4d504844 || code == 0x4d414944
}

/// The byte at `p` of `d`; zero outside it.
pub open spec fn fbyte(d: Seq<u8>, p: int) -> u8 {
    if 0 <= p < d.len() { d[p] } else { 0 }
}

/// The little-endian 32-bit value of the four bytes at `p` (zero-filled).
pub open spec fn fu32(d: Seq<u8>, p: int) -> nat {
    fbyte(d, p) as nat + 0x100 * fbyte(d, p + 1) as nat + 0x1_0000 * fbyte(d, p + 2) as nat
        + 0x100_0000 * fbyte(d, p + 3) as nat
}

/// The readable name of the FourCC at `p`: its four bytes reversed.
pub open spec fn fcc_name(d: Seq<u8>, p: int) -> Seq<char> {
    seq![fbyte(d, p + 3) as char, fbyte(d, p + 2) as char, fbyte(d, p + 1) as char, fbyte(d, p) as char]
}

/// How far the scan moves past an interesting header of size `size`:
/// `size + 8` in 32-bit wrapping arithmetic.
pub open spec fn step(size: nat) -> int {
    ((size + 8) % 0x1_0000_0000) as int
}

/// A sub-chunk: where its header stands, its name and its size.
pub struct SubView {
    pub name: Seq<char>,
    pub offset: int,
    pub size: nat,
}

/// A top-level chunk with its sub-chunks.
pub struct ChunkView {
    pub name: Seq<char>,
    pub offset: int,
    pub size: nat,
    pub subs: Seq<SubView>,
}

/// What is left to scan from `p` up to `end`.
pub open spec fn left(p: int, end: int) -> int {
    if p > end { 0 } else { end - p + 1 }
}

/// The sub-chunks found from `p` in the chunk at `o` of payload size
/// `size`, in order.
pub open spec fn sub_scan(d: Seq<u8>, o: int, size: nat, p: int) -> Seq<SubView>
    decreases left(p, o + size),
{
    if p >= o + size {
        Seq::empty()
    } else if is_interesting(fu32(d, p)) {
        let ss = fu32(d, p + 4);
        if step(ss) == 0 {
            Seq::empty()
        } else {
            let rest = sub_scan(d, o, size, p + step(ss));
            if ss < size {
                seq![SubView { name: fcc_name(d, p), offset: p, size: ss }] + rest
            } else {
                rest
            }
        }
    } else {
        sub_scan(d, o, size, p + 1)
    }
}

/// The sub-chunk scan of the chunk at `o` ends: no interesting header on
/// its path has the size whose step is zero.
pub open spec fn sub_scan_ends(d: Seq<u8>, o: int, size: nat, p: int) -> bool
    decreases left(p, o + size),
{
    if p >= o + size {
        true
    } else if is_interesting(fu32(d, p)) {
        let ss = fu32(d, p + 4);
        step(ss) != 0 && sub_scan_ends(d, o, size, p + step(ss))
    } else {
        sub_scan_ends(d, o, size, p + 1)
    }
}

/// The chunks found from `p`, in file order.
pub open spec fn top_scan(d: Seq<u8>, p: int) -> Seq<ChunkView>
    decreases left(p, d.len() as int),
{
    if p < 0 || p + 8 > d.len() {
        Seq::empty()
    } else if is_interesting(fu32(d, p)) {
        let size = fu32(d, p + 4);
        if step(size) == 0 {
            Seq::empty()
        } else {
            let rest = top_scan(d, p + step(size));
            if size <= d.len() {
                seq![ChunkView { name: fcc_name(d, p), offset: p, size, subs: sub_scan(d, p, size, p + 8) }] + rest
            } else {
                rest
            }
        }
    } else {
        top_scan(d, p + 1)
    }
}

/// The scan of `d` from `p` ends: no interesting header on the path of
/// the top-level scan, or of the sub-chunk scan of a kept chunk, carries
/// the size `0xFFFF_FFF8`, whose step of zero would repeat forever.
pub open spec fn scan_ends(d: Seq<u8>, p: int) -> bool
    decreases left(p, d.len() as int),
{
    if p < 0 || p + 8 > d.len() {
        true
    } else if is_interesting(fu32(d, p)) {
        let size = fu32(d, p + 4);
        step(size) != 0 && (size <= d.len() ==> sub_scan_ends(d, p, size, p + 8)) && scan_ends(d, p + step(size))
    } else {
        scan_ends(d, p + 1)
    }
}

/// The chunks of `d` named `name`, in file order.
pub open spec fn named(chunks: Seq<ChunkView>, name: Seq<char>) -> Seq<ChunkView> {
    chunks.filter(|c: ChunkView| c.name == name)
}

/// The sub-chunks of a chunk named `name`, in order.
pub open spec fn sub_named(subs: Seq<SubView>, name: Seq<char>) -> Seq<SubView> {
    subs.filter(|c: SubView| c.name == name)
}

/// Raw file bytes with zero-filled out-of-range little-endian reads.
#[derive(Debug, Clone)]
pub struct FileData {
    bytes: Vec<u8>,
}

/// `p + k` in `usize` wrapping arithmetic.
pub open spec fn wrap(p: int, k: int) -> int {
    if p + k > usize::MAX { p + k - usize::MAX - 1 } else { p + k }
}

impl View for FileData {
    type V = Seq<u8>;

    closed spec fn view(&self) -> Seq<u8> {
        self.bytes@
    }
}

impl FileData {
    /// The bytes `bytes`.
    pub fn new(bytes: Vec<u8>) -> (r: FileData)
        ensures
            r@ == bytes@,
    {
        FileData { bytes }
    }

    fn byte(&self, pos: usize) -> (r: u8)
        ensures
            r == fbyte(self@, pos as int),
    {
        if pos < self.bytes.len() {
            self.bytes[pos]
        } else {
            0
        }
    }

    /// The number of bytes.
    pub fn len(&self) -> (r: usize)
        ensures
            r == self@.len(),
    {
        self.bytes.len()
    }

    /// The byte at `pos` (zero past the end).
    pub fn u8_at(&self, pos: usize) -> (r: u8)
        ensures
            r == fbyte(self@, pos as int),
    {
        self.byte(pos)
    }

    /// The four bytes from `pos` (positions wrap at `usize::MAX`).
    pub fn fcc_at(&self, pos: usize) -> (r: [u8; 4])
        ensures
            r@ == seq![fbyte(self@, pos as int), fbyte(self@, wrap(pos as int, 1)), fbyte(self@, wrap(pos as int, 2)), fbyte(self@, wrap(pos as int, 3))],
    {
        let r = [self.byte(pos), self.byte(pos.wrapping_add(1)), self.byte(pos.wrapping_add(2)), self.byte(pos.wrapping_add(3))];
        assert(r@ =~= seq![fbyte(self@, pos as int), fbyte(self@, wrap(pos as int, 1)), fbyte(self@, wrap(pos as int, 2)), fbyte(self@, wrap(pos as int, 3))]);
        r
    }

    /// The little-endian `u16` at `pos`.
    pub fn u16_at(&self, pos: usize) -> (r: u16)
        ensures
            r == self.u16_spec(pos as int),
    {
        let lo = self.byte(pos) as u16;
        let hi = self.byte(pos.wrapping_add(1)) as u16;
        lo + hi * 256
    }

    /// The `i16` whose bits are the `u16` at `pos`.
    pub fn i16_at(&self, pos: usize) -> (r: i16)
        ensures
            r as int == self.i16_spec(pos as int),
    {
        let u = self.u16_at(pos);
        if u < 0x8000 {
            u as i16
        } else {
            (u as i32 - 0x1_0000) as i16
        }
    }

    /// The little-endian `u16` at `pos`, as a number.
    pub open spec fn u16_spec(&self, pos: int) -> nat {
        fbyte(self@, pos) as nat + 0x100 * fbyte(self@, wrap(pos, 1)) as nat
    }

    /// The `i16` at `pos`, as a number.
    pub open spec fn i16_spec(&self, pos: int) -> int {
        if self.u16_spec(pos) < 0x8000 { self.u16_spec(pos) as int } else { self.u16_spec(pos) - 0x1_0000 }
    }

    /// The little-endian `u64` at `pos`, as a number.
    pub open spec fn u64_spec(&self, pos: int) -> nat {
        self.u32_spec(pos) + 0x1_0000_0000 * self.u32_spec(wrap(pos, 4))
    }

    /// The little-endian `u32` at `pos`, as a number.
    pub open spec fn u32_spec(&self, pos: int) -> nat {
        fbyte(self@, pos) as nat + 0x100 * fbyte(self@, wrap(pos, 1)) as nat + 0x1_0000 * fbyte(self@, wrap(pos, 2)) as nat
            + 0x100_0000 * fbyte(self@, wrap(pos, 3)) as nat
    }

    /// The little-endian `u32` at `pos`.
    pub fn u32_at(&self, pos: usize) -> (r: u32)
        ensures
            r == self.u32_spec(pos as int),
    {
        let b0 = self.byte(pos) as u32;
        let b1 = self.byte(pos.wrapping_add(1)) as u32;
        let b2 = self.byte(pos.wrapping_add(2)) as u32;
        let b3 = self.byte(pos.wrapping_add(3)) as u32;
        b0 + b1 * 0x100 + b2 * 0x1_0000 + b3 * 0x100_0000
    }

    /// The little-endian `u64` at `pos`: the `u32` there, then the one four
    /// bytes on (positions wrap).
    pub fn u64_at(&self, pos: usize) -> (r: u64)
        ensures
            r == self.u64_spec(pos as int),
    {
        let lo = self.u32_at(pos) as u64;
        let hi = self.u32_at(pos.wrapping_add(4)) as u64;
        lo + hi * 0x1_0000_0000
    }
}

/// A sub-chunk found inside a chunk.
#[derive(Debug, Clone, Copy)]
pub struct SubChunk {
    /// Where its header stands in the file.
    pub offset: usize,
    /// Its payload size.
    pub size: u32,
}

/// A chunk of the file: where its header stands, its payload size and its
/// sub-chunks in file order.
#[derive(Debug, Clone)]
pub struct FileChunk {
    pub offset: usize,
    pub size: u32,
    subchunks: Vec<(Vec<char>, SubChunk)>,
}

/// A sub-chunk as plain values.
pub open spec fn sub_view(e: (Vec<char>, SubChunk)) -> SubView {
    SubView { name: e.0@, offset: e.1.offset as int, size: e.1.size as nat }
}

/// Sub-chunks as plain values.
pub open spec fn subs_view(v: Seq<(Vec<char>, SubChunk)>) -> Seq<SubView> {
    v.map_values(|e: (Vec<char>, SubChunk)| sub_view(e))
}

impl View for FileChunk {
    type V = ChunkView;

    closed spec fn view(&self) -> ChunkView {
        ChunkView { name: Seq::empty(), offset: self.offset as int, size: self.size as nat, subs: subs_view(self.subchunks@) }
    }
}

/// A chunk as plain values, with its name.
pub open spec fn chunk_view(e: (Vec<char>, FileChunk)) -> ChunkView {
    ChunkView { name: e.0@, offset: e.1@.offset, size: e.1@.size, subs: e.1@.subs }
}

/// Chunks as plain values.
pub open spec fn chunks_view(v: Seq<(Vec<char>, FileChunk)>) -> Seq<ChunkView> {
    v.map_values(|e: (Vec<char>, FileChunk)| chunk_view(e))
}

/// A parsed ADT or WDT file.
#[derive(Debug, Clone)]
pub struct ChunkedFile {
    pub data: FileData,
    chunks: Vec<(Vec<char>, FileChunk)>,
}

fn byte_at(d: &[u8], p: u64) -> (r: u8)
    ensures
        r == fbyte(d@, p as int),
{
    if p < d.len() as u64 {
        d[p as usize]
    } else {
        0
    }
}

fn u32_at(d: &[u8], p: u64) -> (r: u32)
    requires
        p + 3 <= u64::MAX,
    ensures
        r == fu32(d@, p as int),
{
    let b0 = byte_at(d, p) as u32;
    let b1 = byte_at(d, p + 1) as u32;
    let b2 = byte_at(d, p + 2) as u32;
    let b3 = byte_at(d, p + 3) as u32;
    b0 + b1 * 0x100 + b2 * 0x1_0000 + b3 * 0x100_0000
}

fn interesting(code: u32) -> (r: bool)
    ensures
        r == is_interesting(code as nat),
{
    code == 0x4d564552 || code == 0x4d41494e || code == 0x4d48324f || code == 0x4d434e4b || code == 0x4d435654
        || code == 0x4d574d4f || code == 0x4d434c51 || code == 0x4d46424f || code == 0x4d504844 || code == 0x4d414944
}

fn name_at(d: &[u8], p: u64) -> (r: Vec<char>)
    requires
        p + 3 <= u64::MAX,
    ensures
        r@ == fcc_name(d@, p as int),
{
    let r = vec![byte_at(d, p + 3) as char, byte_at(d, p + 2) as char, byte_at(d, p + 1) as char, byte_at(d, p) as char];
    assert(r@ =~= fcc_name(d@, p as int));
    r
}

/// The sub-chunks of the chunk at `o` with payload size `size`.
fn parse_sub_chunks(d: &[u8], o: usize, size: u32) -> (r: Vec<(Vec<char>, SubChunk)>)
    requires
        o < d@.len(),
        size <= d@.len(),
        d@.len() <= isize::MAX,
        sub_scan_ends(d@, o as int, size as nat, o + 8),
    ensures
        subs_view(r@) == sub_scan(d@, o as int, size as nat, o + 8),
{
    let end: u64 = o as u64 + size as u64;
    let mut ptr: u64 = o as u64 + 8;
    let mut out: Vec<(Vec<char>, SubChunk)> = Vec::new();
    while ptr < end
        invariant
            o < d@.len(),
            size <= d@.len(),
            d@.len() <= isize::MAX,
            end == o + size,
            ptr <= end + 0x1_0000_0000,
            sub_scan_ends(d@, o as int, size as nat, ptr as int),
            subs_view(out@) + sub_scan(d@, o as int, size as nat, ptr as int) == sub_scan(d@, o as int, size as nat, o + 8),
        decreases left(ptr as int, end as int),
    {
        let ghost before = out@;
        let code = u32_at(d, ptr);
        if interesting(code) {
            let subsize = u32_at(d, ptr + 4);
            let s: u64 = (subsize as u64 + 8) % 0x1_0000_0000;
            assert(s as int == step(subsize as nat));
            assert(sub_scan(d@, o as int, size as nat, ptr as int) == (if subsize < size {
                seq![SubView { name: fcc_name(d@, ptr as int), offset: ptr as int, size: subsize as nat }] + sub_scan(d@, o as int, size as nat, ptr + s)
            } else {
                sub_scan(d@, o as int, size as nat, ptr + s)
            }));
            if subsize < size {
                let name = name_at(d, ptr);
                out.push((name, SubChunk { offset: ptr as usize, size: subsize }));
                proof {
                    assert(subs_view(out@) =~= subs_view(before).push(sub_view(out@.last())));
                    assert(subs_view(before) + sub_scan(d@, o as int, size as nat, ptr as int)
                        =~= subs_view(out@) + sub_scan(d@, o as int, size as nat, ptr + s));
                }
            }
            ptr = ptr + s;
        } else {
            assert(sub_scan(d@, o as int, size as nat, ptr as int) == sub_scan(d@, o as int, size as nat, ptr + 1));
            ptr = ptr + 1;
        }
    }
    proof {
        assert(subs_view(out@) + Seq::<SubView>::empty() =~= subs_view(out@));
    }
    out
}

/// The chunks whose name is `name`, as positions in `v`.
fn positions_named(v: &Vec<(Vec<char>, FileChunk)>, name: &[char]) -> (r: Vec<usize>)
    ensures
        r@.len() == named(chunks_view(v@), name@).len(),
        forall|k: int| 0 <= k < r@.len() ==> #[trigger] r@[k] < v@.len() && chunk_view(v@[r@[k] as int]) == named(chunks_view(v@), name@)[k],
{
    let ghost cv = chunks_view(v@);
    let mut out: Vec<usize> = Vec::new();
    let mut i: usize = 0;
    while i < v.len()
        invariant
            i <= v@.len(),
            cv == chunks_view(v@),
            out@.len() == named(cv.take(i as int), name@).len(),
            forall|k: int| 0 <= k < out@.len() ==> #[trigger] out@[k] < i && chunk_view(v@[out@[k] as int]) == named(cv.take(i as int), name@)[k],
        decreases v@.len() - i,
    {
        proof {
            lemma_named_step(cv, name@, i as int);
        }
        let ghost prev = out@;
        assert(cv[i as int] == chunk_view(v@[i as int]));
        if crate::text::chars_eq(v[i].0.as_slice(), name) {
            out.push(i);
            assert(named(cv.take(i + 1), name@) == named(cv.take(i as int), name@).push(cv[i as int]));
        } else {
            assert(named(cv.take(i + 1), name@) == named(cv.take(i as int), name@));
        }
        assert forall|k: int| 0 <= k < out@.len() implies out@[k] < i + 1 && chunk_view(v@[out@[k] as int]) == named(cv.take(i + 1), name@)[k] by {
            if k < prev.len() {
                assert(out@[k] == prev[k]);
                assert(prev[k] < i && chunk_view(v@[prev[k] as int]) == named(cv.take(i as int), name@)[k]);
            } else {
                assert(k == prev.len());
                assert(out@[k] == i);
            }
        }
        i += 1;
    }
    assert(cv.take(i as int) =~= cv);
    out
}

impl ChunkedFile {
    /// The chunks of the file, in file order, as plain values.
    pub closed spec fn chunks_spec(&self) -> Seq<ChunkView> {
        chunks_view(self.chunks@)
    }

    /// The bytes of the file.
    pub closed spec fn bytes_view(&self) -> Seq<u8> {
        self.data@
    }

    /// The scan of the bytes, and the version check: exactly one `MVER`
    /// chunk, carrying version 18. `None` when the check fails.
    pub fn from_bytes(bytes: Vec<u8>) -> (r: Option<ChunkedFile>)
        requires
            scan_ends(bytes@, 0),
            bytes@.len() <= isize::MAX,
        ensures
            match r {
                Some(f) => f.bytes_view() == bytes@ && f.chunks_spec() == top_scan(bytes@, 0) && version_ok(bytes@),
                None => !version_ok(bytes@),
            },
    {
        let chunks = parse_chunks(bytes.as_slice());
        let file = ChunkedFile { data: FileData::new(bytes), chunks };
        if file.prepare_loaded_data() {
            Some(file)
        } else {
            None
        }
    }

    fn prepare_loaded_data(&self) -> (r: bool)
        requires
            self.chunks_spec() == top_scan(self.data@, 0),
            self.data@.len() <= isize::MAX,
        ensures
            r == version_ok(self.data@),
    {
        let mver = chars_of("MVER");
        let idx = positions_named(&self.chunks, mver.as_slice());
        if idx.len() != 1 {
            proof {
                reveal_strlit("MVER");
            }
            return false;
        }
        assert(idx@[0] < self.chunks@.len());
        let c = &self.chunks[idx[0]].1;
        proof {
            reveal_strlit("MVER");
            lemma_top_scan_offsets(self.data@, 0);
            lemma_named_in(top_scan(self.data@, 0), mver@, 0);
        }
        let v = self.data.u32_at(c.offset + 8);
        v == FILE_FORMAT_VERSION
    }

    /// The chunk named `name`, only when exactly one chunk has this name.
    pub fn get_chunk(&self, name: &str) -> (r: Option<&FileChunk>)
        ensures
            match r {
                Some(c) => named(self.chunks_spec(), name@).len() == 1
                    && c@.offset == named(self.chunks_spec(), name@)[0].offset
                    && c@.size == named(self.chunks_spec(), name@)[0].size
                    && c@.subs == named(self.chunks_spec(), name@)[0].subs,
                None => named(self.chunks_spec(), name@).len() != 1,
            },
    {
        let n = chars_of(name);
        let idx = positions_named(&self.chunks, n.as_slice());
        if idx.len() != 1 {
            return None;
        }
        assert(idx@[0] < self.chunks@.len());
        Some(&self.chunks[idx[0]].1)
    }

    /// Every chunk named `name`, in file order.
    pub fn chunks_named(&self, name: &str) -> (r: Vec<&FileChunk>)
        ensures
            r@.len() == named(self.chunks_spec(), name@).len(),
            forall|k: int| 0 <= k < r@.len() ==> {
                &&& r@[k]@.offset == named(self.chunks_spec(), name@)[k].offset
                &&& r@[k]@.size == named(self.chunks_spec(), name@)[k].size
                &&& r@[k]@.subs == named(self.chunks_spec(), name@)[k].subs
            },
    {
        let n = chars_of(name);
        let idx = positions_named(&self.chunks, n.as_slice());
        let mut out: Vec<&FileChunk> = Vec::new();
        let mut k: usize = 0;
        while k < idx.len()
            invariant
                k <= idx@.len(),
                out@.len() == k,
                idx@.len() == named(self.chunks_spec(), name@).len(),
                forall|j: int| 0 <= j < idx@.len() ==> #[trigger] idx@[j] < self.chunks@.len() && chunk_view(self.chunks@[idx@[j] as int]) == named(self.chunks_spec(), name@)[j],
                forall|j: int| 0 <= j < k ==> {
                    &&& out@[j]@.offset == named(self.chunks_spec(), name@)[j].offset
                    &&& out@[j]@.size == named(self.chunks_spec(), name@)[j].size
                    &&& out@[j]@.subs == named(self.chunks_spec(), name@)[j].subs
                },
            decreases idx@.len() - k,
        {
            assert(idx@[k as int] < self.chunks@.len());
            out.push(&self.chunks[idx[k]].1);
            k += 1;
        }
        out
    }
}

/// The bytes carry exactly one `MVER` chunk, and its version is 18.
pub open spec fn version_ok(d: Seq<u8>) -> bool {
    let m = named(top_scan(d, 0), "MVER"@);
    m.len() == 1 && fu32(d, m[0].offset + 8) == FILE_FORMAT_VERSION
}

impl FileChunk {
    /// The sub-chunk named `name`, only when exactly one has this name.
    pub fn get_sub_chunk(&self, name: &str) -> (r: Option<SubChunk>)
        ensures
            match r {
                Some(c) => sub_named(self@.subs, name@).len() == 1
                    && c.offset == sub_named(self@.subs, name@)[0].offset
                    && c.size == sub_named(self@.subs, name@)[0].size,
                None => sub_named(self@.subs, name@).len() != 1,
            },
    {
        let n = chars_of(name);
        let ghost sv = subs_view(self.subchunks@);
        let mut found: Option<SubChunk> = None;
        let mut count: usize = 0;
        let mut i: usize = 0;
        while i < self.subchunks.len()
            invariant
                i <= self.subchunks@.len(),
                sv == subs_view(self.subchunks@),
                count == sub_named(sv.take(i as int), n@).len(),
                count <= i,
                count >= 1 ==> (found matches Some(c) && c.offset == sub_named(sv.take(i as int), n@)[0].offset
                    && c.size == sub_named(sv.take(i as int), n@)[0].size),
            decreases self.subchunks@.len() - i,
        {
            proof {
                assert(sv.take(i + 1).drop_last() =~= sv.take(i as int));
                reveal(Seq::filter);
            }
            if crate::text::chars_eq(self.subchunks[i].0.as_slice(), n.as_slice()) {
                if count == 0 {
                    found = Some(self.subchunks[i].1);
                }
                count += 1;
            }
            proof {
                if count >= 1 {
                    lemma_filter_prefix_first(sv, n@, i as int);
                }
            }
            i += 1;
        }
        assert(sv.take(i as int) =~= sv);
        if count == 1 {
            found
        } else {
            None
        }
    }
}

proof fn lemma_filter_prefix_first(sv: Seq<SubView>, name: Seq<char>, i: int)
    requires
        0 <= i < sv.len(),
        sub_named(sv.take(i + 1), name).len() >= 1,
    ensures
        sub_named(sv.take(i), name).len() >= 1 ==> sub_named(sv.take(i + 1), name)[0] == sub_named(sv.take(i), name)[0],
        sub_named(sv.take(i), name).len() == 0 ==> sub_named(sv.take(i + 1), name)[0] == sv[i],
{
    assert(sv.take(i + 1).drop_last() =~= sv.take(i));
    reveal(Seq::filter);
}

/// Every chunk the scan finds has its whole 8-byte header inside the file.
pub proof fn lemma_top_scan_offsets(d: Seq<u8>, p: int)
    ensures
        forall|k: int| 0 <= k < top_scan(d, p).len() ==> 0 <= (#[trigger] top_scan(d, p)[k]).offset && top_scan(d, p)[k].offset + 8 <= d.len(),
    decreases left(p, d.len() as int),
{
    if p < 0 || p + 8 > d.len() {
    } else if is_interesting(fu32(d, p)) {
        let size = fu32(d, p + 4);
        if step(size) != 0 {
            lemma_top_scan_offsets(d, p + step(size));
            let rest = top_scan(d, p + step(size));
            let t = top_scan(d, p);
            assert(t == (if size <= d.len() {
                seq![ChunkView { name: fcc_name(d, p), offset: p, size, subs: sub_scan(d, p, size, p + 8) }] + rest
            } else {
                rest
            }));
            assert forall|k: int| 0 <= k < t.len() implies 0 <= (#[trigger] t[k]).offset && t[k].offset + 8 <= d.len() by {
                if size <= d.len() {
                    if k > 0 {
                        assert(t[k] == rest[k - 1]);
                    }
                } else {
                    assert(t[k] == rest[k]);
                }
            }
        }
    } else {
        lemma_top_scan_offsets(d, p + 1);
        assert(top_scan(d, p) == top_scan(d, p + 1));
    }
}

proof fn lemma_named_in(cs: Seq<ChunkView>, name: Seq<char>, k: int)
    requires
        0 <= k < named(cs, name).len(),
    ensures
        exists|j: int| 0 <= j < cs.len() && named(cs, name)[k] == #[trigger] cs[j],
    decreases cs.len(),
{
    reveal(Seq::filter);
    let sub = named(cs.drop_last(), name);
    if cs.len() > 0 {
        if k < sub.len() {
            lemma_named_in(cs.drop_last(), name, k);
            let j = choose|j: int| 0 <= j < cs.drop_last().len() && sub[k] == #[trigger] cs.drop_last()[j];
            assert(cs[j] == cs.drop_last()[j]);
        } else {
            assert(named(cs, name)[k] == cs[cs.len() - 1]);
        }
    }
}

proof fn lemma_named_step(cv: Seq<ChunkView>, name: Seq<char>, i: int)
    requires
        0 <= i < cv.len(),
    ensures
        named(cv.take(i + 1), name) == (if cv[i].name == name { named(cv.take(i), name).push(cv[i]) } else { named(cv.take(i), name) }),
{
    assert(cv.take(i + 1).drop_last() =~= cv.take(i));
    reveal(Seq::filter);
}

/// The chunk scan of `d`.
fn parse_chunks(d: &[u8]) -> (r: Vec<(Vec<char>, FileChunk)>)
    requires
        scan_ends(d@, 0),
        d@.len() <= isize::MAX,
    ensures
        chunks_view(r@) == top_scan(d@, 0),
{
    let data_size = d.len() as u64;
    let mut ptr: u64 = 0;
    let mut out: Vec<(Vec<char>, FileChunk)> = Vec::new();
    while ptr + 8 <= data_size
        invariant
            data_size == d@.len(),
            d@.len() <= isize::MAX,
            ptr <= data_size + 0x1_0000_0000,
            scan_ends(d@, ptr as int),
            chunks_view(out@) + top_scan(d@, ptr as int) == top_scan(d@, 0),
        decreases left(ptr as int, data_size as int),
    {
        let ghost before = out@;
        let code = u32_at(d, ptr);
        if interesting(code) {
            let size = u32_at(d, ptr + 4);
            let s: u64 = (size as u64 + 8) % 0x1_0000_0000;
            assert(s as int == step(size as nat));
            assert(scan_ends(d@, ptr as int) == (step(size as nat) != 0 && (size <= d@.len() ==> sub_scan_ends(d@, ptr as int, size as nat, ptr + 8)) && scan_ends(d@, ptr + s)));
            assert(top_scan(d@, ptr as int) == (if size <= d@.len() {
                seq![ChunkView { name: fcc_name(d@, ptr as int), offset: ptr as int, size: size as nat, subs: sub_scan(d@, ptr as int, size as nat, ptr + 8) }] + top_scan(d@, ptr + s)
            } else {
                top_scan(d@, ptr + s)
            }));
            if size as u64 <= data_size {
                let name = name_at(d, ptr);
                let subs = parse_sub_chunks(d, ptr as usize, size);
                let chunk = FileChunk { offset: ptr as usize, size, subchunks: subs };
                assert(chunk@.subs == sub_scan(d@, ptr as int, size as nat, ptr + 8));
                out.push((name, chunk));
                proof {
                    assert(chunks_view(out@) =~= chunks_view(before).push(chunk_view(out@.last())));
                    assert(chunks_view(before) + top_scan(d@, ptr as int)
                        =~= chunks_view(out@) + top_scan(d@, ptr + s));
                }
            }
            ptr = ptr + s;
        } else {
            assert(top_scan(d@, ptr as int) == top_scan(d@, ptr + 1));
            ptr = ptr + 1;
        }
    }
    proof {
        assert(chunks_view(out@) + Seq::<ChunkView>::empty() =~= chunks_view(out@));
    }
    out
}

fn sub_scan_ends_exec(d: &[u8], o: usize, size: u32) -> (r: bool)
    requires
        o < d@.len(),
        size <= d@.len(),
        d@.len() <= isize::MAX,
    ensures
        r == sub_scan_ends(d@, o as int, size as nat, o + 8),
{
    let end: u64 = o as u64 + size as u64;
    let mut ptr: u64 = o as u64 + 8;
    while ptr < end
        invariant
            o < d@.len(),
            size <= d@.len(),
            d@.len() <= isize::MAX,
            end == o + size,
            ptr <= end + 0x1_0000_0000,
            sub_scan_ends(d@, o as int, size as nat, ptr as int) == sub_scan_ends(d@, o as int, size as nat, o + 8),
        decreases left(ptr as int, end as int),
    {
        let code = u32_at(d, ptr);
        if interesting(code) {
            let subsize = u32_at(d, ptr + 4);
            let s: u64 = (subsize as u64 + 8) % 0x1_0000_0000;
            assert(s as int == step(subsize as nat));
            if s == 0 {
                return false;
            }
            ptr = ptr + s;
        } else {
            ptr = ptr + 1;
        }
    }
    true
}

/// Whether the chunk scan of `bytes` ends (see [`scan_ends`]).
pub fn chunk_scan_ends(bytes: &[u8]) -> (r: bool)
    requires
        bytes@.len() <= isize::MAX,
    ensures
        r == scan_ends(bytes@, 0),
{
    let data_size = bytes.len() as u64;
    let mut ptr: u64 = 0;
    while ptr + 8 <= data_size
        invariant
            data_size == bytes@.len(),
            bytes@.len() <= isize::MAX,
            ptr <= data_size + 0x1_0000_0000,
            scan_ends(bytes@, ptr as int) == scan_ends(bytes@, 0),
        decreases left(ptr as int, data_size as int),
    {
        let code = u32_at(bytes, ptr);
        if interesting(code) {
            let size = u32_at(bytes, ptr + 4);
            let s: u64 = (size as u64 + 8) % 0x1_0000_0000;
            assert(s as int == step(size as nat));
            if s == 0 {
                return false;
            }
            if size as u64 <= data_size && !sub_scan_ends_exec(bytes, ptr as usize, size) {
                return false;
            }
            ptr = ptr + s;
        } else {
            ptr = ptr + 1;
        }
    }
    true
}

} // verus!
