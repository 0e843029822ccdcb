//! BLTE containers as served by the CDN: `EKey` computation/verification and
//! decoding of the `N` (raw) and `Z` (zlib) frame modes.
//!
//! `HeaderSize` counts from the `BLTE` signature, then `0x0F` and a 24-bit
//! frame count, then 24-byte frame records `{EncodedSize BE, ContentSize BE,
//! MD5}`. The `EKey` of a blob is the MD5 of its header (signature through
//! frame table) when it has frames, else the MD5 of the whole blob; each
//! frame's MD5 is checked as well so a verified blob is fully covered.
//! Encrypted (`E`) frames are not decoded.

use vstd::prelude::*;
use flate2::read::ZlibDecoder;
use std::io::Read;
use crate::bytes::{be_value, key_at, prefix_eq};
use crate::client::util::{Key, be_uint, md5, md5_digest};

verus! {

/// One frame of a blob.
#[derive(Debug, Clone, Copy, PartialEq, Eq)]
pub struct Frame {
    pub encoded_size: u32,
    /// 0 for the implicit frame of a frameless blob (size unknown).
    pub content_size: u32,
    pub hash: Option<Key>,
}

/// Parsed header: offset of the first frame's data and the frames.
#[derive(Debug, Clone, PartialEq, Eq)]
pub struct Layout {
    pub data_start: usize,
    pub frames: Vec<Frame>,
    /// `true` when the blob has a frame table (`HeaderSize != 0`).
    pub framed: bool,
}

/// Why a frame cannot be decoded.
#[derive(Debug, Clone, Copy, PartialEq, Eq)]
pub enum FrameError {
    /// No mode byte.
    Empty,
    /// The zlib stream is invalid.
    Zlib,
    /// An encrypted (`E`) frame.
    Encrypted,
    /// Another mode byte.
    UnsupportedMode(u8),
}

/// Why a blob is refused.
#[derive(Debug, Clone, Copy, PartialEq, Eq)]
pub enum BlteError {
    /// Missing `BLTE` signature.
    Signature,
    /// `HeaderSize` below 12 or beyond the blob.
    HeaderTruncated,
    /// The flags byte is not `0x0F`.
    Flags,
    /// `HeaderSize` does not match the frame count.
    FrameCount,
    /// The `EKey` does not match.
    EKeyMismatch,
    /// Frame `i` extends past the blob.
    FrameExceedsBlob(usize),
    /// Frame `i` does not match its MD5.
    FrameHash(usize),
    /// Bytes follow the last frame.
    TrailingBytes,
    /// Frame `i` cannot be decoded.
    Frame(usize, FrameError),
    /// Frame `i` decoded to another size than its record says.
    ContentSize(usize),
}

/// A frame as plain values.
pub type FrameModel = (u32, u32, Option<Seq<u8>>);

/// The model of a frame.
pub open spec fn frame_view(f: Frame) -> FrameModel {
    (
        f.encoded_size,
        f.content_size,
        match f.hash {
            Some(h) => Some(h@),
            None => None,
        },
    )
}

/// The models of a list of frames.
pub open spec fn frames_view(v: Seq<Frame>) -> Seq<FrameModel> {
    v.map_values(|f: Frame| frame_view(f))
}

/// A layout as plain values: `(data start, frames, framed)`.
pub type LayoutModel = (int, Seq<FrameModel>, bool);

/// The model of a layout.
pub open spec fn layout_view(l: Layout) -> LayoutModel {
    (l.data_start as int, frames_view(l.frames@), l.framed)
}

/// The frame record `r` (24 bytes).
pub open spec fn frame_record(r: Seq<u8>) -> FrameModel {
    (be_value(r.subrange(0, 4)) as u32, be_value(r.subrange(4, 8)) as u32, Some(r.subrange(8, 24)))
}

/// What [`parse_layout`] returns.
pub open spec fn spec_layout(blob: Seq<u8>) -> Result<LayoutModel, BlteError> {
    if blob.len() < 8 || blob.subrange(0, 4) != seq![0x42u8, 0x4Cu8, 0x54u8, 0x45u8] {
        Err(BlteError::Signature)
    } else {
        let header_size = be_value(blob.subrange(4, 8)) as int;
        if header_size == 0 {
            Ok((8, seq![((blob.len() - 8) as u32, 0u32, None::<Seq<u8>>)], false))
        } else if !(blob.len() >= header_size && header_size >= 12) {
            Err(BlteError::HeaderTruncated)
        } else if blob[8] != 0x0F {
            Err(BlteError::Flags)
        } else {
            let count = be_value(blob.subrange(9, 12)) as int;
            if 12 + count * 24 != header_size {
                Err(BlteError::FrameCount)
            } else {
                Ok((
                    header_size,
                    Seq::new(count as nat, |i: int| frame_record(blob.subrange(12 + 24 * i, 36 + 24 * i))),
                    true,
                ))
            }
        }
    }
}

/// The model of a layout result.
pub open spec fn layout_result_view(r: Result<Layout, BlteError>) -> Result<LayoutModel, BlteError> {
    match r {
        Ok(l) => Ok(layout_view(l)),
        Err(e) => Err(e),
    }
}

proof fn lemma_be_small(s: Seq<u8>)
    requires
        s.len() <= 4,
    ensures
        be_value(s) < 0x1_0000_0000,
{
    crate::bytes::lemma_be_value_bound(s);
    reveal_with_fuel(crate::bytes::byte_bound, 5);
    if s.len() < 4 {
        crate::client::util::lemma_byte_bound_monotone(s.len(), 4);
    }
}

/// Parses the header of a blob.
pub fn parse_layout(blob: &[u8]) -> (r: Result<Layout, BlteError>)
    ensures
        layout_result_view(r) == spec_layout(blob@),
{
    let len = blob.len();
    if len < 8 || !(blob[0] == 0x42 && blob[1] == 0x4C && blob[2] == 0x54 && blob[3] == 0x45) {
        proof {
            if len >= 8 {
                let sig = blob@.subrange(0, 4);
                assert(sig[0] == blob@[0] && sig[1] == blob@[1] && sig[2] == blob@[2] && sig[3] == blob@[3]);
            }
        }
        return Err(BlteError::Signature);
    }
    assert(blob@.subrange(0, 4) =~= seq![0x42u8, 0x4Cu8, 0x54u8, 0x45u8]);
    proof {
        lemma_be_small(blob@.subrange(4, 8));
    }
    let header_size = be_uint(&blob[4..8]) as usize;
    if header_size == 0 {
        let mut frames: Vec<Frame> = Vec::new();
        frames.push(Frame { encoded_size: #[verifier::truncate] ((len - 8) as u32), content_size: 0, hash: None });
        let l = Layout { data_start: 8, frames, framed: false };
        assert(frames_view(l.frames@) =~= seq![((blob@.len() - 8) as u32, 0u32, None::<Seq<u8>>)]);
        return Ok(l);
    }
    if !(len >= header_size && header_size >= 12) {
        return Err(BlteError::HeaderTruncated);
    }
    if blob[8] != 0x0F {
        return Err(BlteError::Flags);
    }
    proof {
        lemma_be_small(blob@.subrange(9, 12));
    }
    let count = be_uint(&blob[9..12]) as usize;
    if count > (header_size - 12) / 24 || 12 + count * 24 != header_size {
        proof {
            if count > (header_size - 12) / 24 {
                assert(12 + count * 24 > header_size) by (nonlinear_arith)
                    requires count > (header_size - 12) / 24, header_size >= 12;
            }
        }
        return Err(BlteError::FrameCount);
    }
    let mut frames: Vec<Frame> = Vec::new();
    let mut i: usize = 0;
    while i < count
        invariant
            i <= count,
            12 + count * 24 == header_size,
            header_size <= blob@.len(),
            frames_view(frames@) == Seq::new(i as nat, |k: int| frame_record(blob@.subrange(12 + 24 * k, 36 + 24 * k))),
        decreases count - i,
    {
        proof {
            assert(36 + 24 * i <= 12 + count * 24) by (nonlinear_arith)
                requires i < count;
        }
        let at = 12 + 24 * i;
        let ghost r = blob@.subrange(at as int, at + 24);
        proof {
            assert(blob@.subrange(at as int, at + 4) =~= r.subrange(0, 4));
            assert(blob@.subrange(at + 4, at + 8) =~= r.subrange(4, 8));
            assert(blob@.subrange(at + 8, at + 24) =~= r.subrange(8, 24));
            lemma_be_small(r.subrange(0, 4));
            lemma_be_small(r.subrange(4, 8));
        }
        let f = Frame {
            encoded_size: be_uint(&blob[at..at + 4]) as u32,
            content_size: be_uint(&blob[at + 4..at + 8]) as u32,
            hash: Some(key_at(blob, at + 8)),
        };
        assert(frame_view(f) == frame_record(r));
        let ghost old_frames = frames@;
        frames.push(f);
        assert(frames_view(frames@) =~= frames_view(old_frames).push(frame_view(f)));
        assert(r == blob@.subrange(12 + 24 * i, 36 + 24 * i));
        i += 1;
        assert(frames_view(frames@) =~= Seq::new(i as nat, |k: int| frame_record(blob@.subrange(12 + 24 * k, 36 + 24 * k))));
    }
    Ok(Layout { data_start: header_size, frames, framed: true })
}

/// The bytes the `EKey` covers: the header of a framed blob, else the blob.
pub open spec fn keyed_bytes(blob: Seq<u8>, l: LayoutModel) -> Seq<u8> {
    if l.2 {
        blob.subrange(0, l.0)
    } else {
        blob
    }
}

/// What [`encoded_key`] returns.
pub open spec fn spec_encoded_key(blob: Seq<u8>) -> Result<Seq<u8>, BlteError> {
    match spec_layout(blob) {
        Err(e) => Err(e),
        Ok(l) => Ok(md5_digest(keyed_bytes(blob, l))),
    }
}

/// The `EKey` of a blob (MD5 of the header, or of the whole frameless blob).
pub fn encoded_key(blob: &[u8]) -> (r: Result<Key, BlteError>)
    ensures
        match r {
            Ok(k) => spec_encoded_key(blob@) == Ok::<Seq<u8>, BlteError>(k@),
            Err(e) => spec_encoded_key(blob@) == Err::<Seq<u8>, BlteError>(e),
        },
{
    let layout = parse_layout(blob)?;
    if layout.framed {
        proof {
            assert(layout.data_start <= blob@.len()) by {
                assert(spec_layout(blob@) is Ok);
            }
        }
        Ok(md5(&blob[0..layout.data_start]))
    } else {
        Ok(md5(blob))
    }
}

/// Frames `i..` of a blob starting at byte `pos` each fit the blob and match
/// their hash; the result is the end of the last frame.
pub open spec fn frames_end(blob: Seq<u8>, frames: Seq<FrameModel>, i: int, pos: int) -> Result<int, BlteError>
    decreases frames.len() - i,
{
    if i >= frames.len() || i < 0 {
        Ok(pos)
    } else {
        let end = pos + frames[i].0;
        if end > blob.len() {
            Err(BlteError::FrameExceedsBlob(i as usize))
        } else if frames[i].2 is Some && md5_digest(blob.subrange(pos, end)) != frames[i].2.unwrap() {
            Err(BlteError::FrameHash(i as usize))
        } else {
            frames_end(blob, frames, i + 1, end)
        }
    }
}

/// What [`verify`] returns.
pub open spec fn spec_verify(blob: Seq<u8>, ekey: Seq<u8>) -> Result<(), BlteError> {
    match spec_layout(blob) {
        Err(e) => Err(e),
        Ok(l) => if md5_digest(keyed_bytes(blob, l)) != ekey {
            Err(BlteError::EKeyMismatch)
        } else {
            match frames_end(blob, l.1, 0, l.0) {
                Err(e) => Err(e),
                Ok(end) => if end == blob.len() {
                    Ok(())
                } else {
                    Err(BlteError::TrailingBytes)
                },
            }
        },
    }
}

proof fn lemma_layout_bounds(blob: Seq<u8>)
    requires
        spec_layout(blob) is Ok,
    ensures
        spec_layout(blob).unwrap().0 <= blob.len(),
        spec_layout(blob).unwrap().0 >= 8,
{
}

/// Checks that `blob` is exactly the entry `ekey` names: header MD5, frame
/// hashes and total length.
#[verifier::loop_isolation(false)]
pub fn verify(blob: &[u8], ekey: &Key) -> (r: Result<(), BlteError>)
    ensures
        r == spec_verify(blob@, ekey@),
{
    let layout = parse_layout(blob)?;
    let ghost l = layout_view(layout);
    proof {
        lemma_layout_bounds(blob@);
    }
    let actual = if layout.framed {
        md5(&blob[0..layout.data_start])
    } else {
        md5(blob)
    };
    assert(actual@ == md5_digest(keyed_bytes(blob@, l)));
    if !prefix_eq(&actual, ekey, 16) {
        assert(actual@.subrange(0, 16) =~= actual@);
        assert(ekey@.subrange(0, 16) =~= ekey@);
        return Err(BlteError::EKeyMismatch);
    }
    assert(actual@.subrange(0, 16) =~= actual@);
    assert(ekey@.subrange(0, 16) =~= ekey@);
    let len = blob.len();
    let mut pos = layout.data_start;
    let mut i: usize = 0;
    while i < layout.frames.len()
        invariant
            i <= layout.frames@.len(),
            pos <= len,
            len == blob@.len(),
            l.1 == frames_view(layout.frames@),
            frames_end(blob@, l.1, 0, l.0) == frames_end(blob@, l.1, i as int, pos as int),
        decreases layout.frames@.len() - i,
    {
        let frame = layout.frames[i];
        assert(l.1[i as int] == frame_view(frame));
        if frame.encoded_size as usize > len - pos {
            return Err(BlteError::FrameExceedsBlob(i));
        }
        let end = pos + frame.encoded_size as usize;
        if let Some(hash) = frame.hash {
            let h = md5(&blob[pos..end]);
            if !prefix_eq(&h, &hash, 16) {
                assert(h@.subrange(0, 16) =~= h@);
                assert(hash@.subrange(0, 16) =~= hash@);
                return Err(BlteError::FrameHash(i));
            }
            assert(h@.subrange(0, 16) =~= h@);
            assert(hash@.subrange(0, 16) =~= hash@);
        }
        pos = end;
        i += 1;
    }
    if pos != len {
        return Err(BlteError::TrailingBytes);
    }
    Ok(())
}

/// The content of a zlib stream, `None` when the stream is invalid.
pub uninterp spec fn zlib_decoded(data: Seq<u8>) -> Option<Seq<u8>>;

/// `flate2::read::ZlibDecoder` read to the end: the decoded content when the
/// stream is valid, as named by [`zlib_decoded`].
#[verifier::external_body]
fn zlib_decode(data: &[u8]) -> (r: Option<Vec<u8>>)
    ensures
        match r {
            Some(v) => zlib_decoded(data@) == Some(v@),
            None => zlib_decoded(data@) is None,
        },
{
    let mut out = Vec::new();
    match ZlibDecoder::new(data).read_to_end(&mut out) {
        Ok(_) => Some(out),
        Err(_) => None,
    }
}

/// The content of one frame.
pub open spec fn spec_decode_frame(frame: Seq<u8>) -> Result<Seq<u8>, FrameError> {
    if frame.len() == 0 {
        Err(FrameError::Empty)
    } else if frame[0] == 0x4E {
        Ok(frame.drop_first())
    } else if frame[0] == 0x5A {
        match zlib_decoded(frame.drop_first()) {
            Some(c) => Ok(c),
            None => Err(FrameError::Zlib),
        }
    } else if frame[0] == 0x45 {
        Err(FrameError::Encrypted)
    } else {
        Err(FrameError::UnsupportedMode(frame[0]))
    }
}

/// Appends the content of one frame to `out`.
fn decode_frame(frame: &[u8], out: &mut Vec<u8>) -> (r: Result<(), FrameError>)
    ensures
        match spec_decode_frame(frame@) {
            Ok(c) => r is Ok && final(out)@ == old(out)@ + c,
            Err(e) => r == Err::<(), FrameError>(e),
        },
{
    if frame.len() == 0 {
        return Err(FrameError::Empty);
    }
    let mode = frame[0];
    let payload = &frame[1..frame.len()];
    assert(payload@ =~= frame@.drop_first());
    if mode == 0x4E {
        let mut i: usize = 0;
        let ghost start = out@;
        while i < payload.len()
            invariant
                i <= payload@.len(),
                out@ == start + payload@.take(i as int),
            decreases payload@.len() - i,
        {
            out.push(payload[i]);
            i += 1;
            assert(out@ =~= start + payload@.take(i as int));
        }
        assert(payload@.take(i as int) =~= payload@);
        Ok(())
    } else if mode == 0x5A {
        match zlib_decode(payload) {
            Some(content) => {
                let mut i: usize = 0;
                let ghost start = out@;
                while i < content.len()
                    invariant
                        i <= content@.len(),
                        out@ == start + content@.take(i as int),
                    decreases content@.len() - i,
                {
                    out.push(content[i]);
                    i += 1;
                    assert(out@ =~= start + content@.take(i as int));
                }
                assert(content@.take(i as int) =~= content@);
                Ok(())
            },
            None => Err(FrameError::Zlib),
        }
    } else if mode == 0x45 {
        Err(FrameError::Encrypted)
    } else {
        Err(FrameError::UnsupportedMode(mode))
    }
}

/// Frames `i..` decoded after `acc`, starting at byte `pos`.
pub open spec fn frames_content(
    blob: Seq<u8>,
    frames: Seq<FrameModel>,
    framed: bool,
    i: int,
    pos: int,
    acc: Seq<u8>,
) -> Result<Seq<u8>, BlteError>
    decreases frames.len() - i,
{
    if i >= frames.len() || i < 0 {
        Ok(acc)
    } else {
        let end = pos + frames[i].0;
        if end > blob.len() {
            Err(BlteError::FrameExceedsBlob(i as usize))
        } else {
            match spec_decode_frame(blob.subrange(pos, end)) {
                Err(e) => Err(BlteError::Frame(i as usize, e)),
                Ok(c) => if framed && c.len() != frames[i].1 {
                    Err(BlteError::ContentSize(i as usize))
                } else {
                    frames_content(blob, frames, framed, i + 1, end, acc + c)
                },
            }
        }
    }
}

/// What [`decode`] returns.
pub open spec fn spec_decode(blob: Seq<u8>) -> Result<Seq<u8>, BlteError> {
    match spec_layout(blob) {
        Err(e) => Err(e),
        Ok(l) => frames_content(blob, l.1, l.2, 0, l.0, Seq::empty()),
    }
}

/// Decodes the blob's content.
#[verifier::loop_isolation(false)]
pub fn decode(blob: &[u8]) -> (r: Result<Vec<u8>, BlteError>)
    ensures
        match r {
            Ok(v) => spec_decode(blob@) == Ok::<Seq<u8>, BlteError>(v@),
            Err(e) => spec_decode(blob@) == Err::<Seq<u8>, BlteError>(e),
        },
{
    let layout = parse_layout(blob)?;
    let ghost l = layout_view(layout);
    proof {
        lemma_layout_bounds(blob@);
    }
    let len = blob.len();
    let mut out: Vec<u8> = Vec::new();
    let mut pos = layout.data_start;
    let mut i: usize = 0;
    while i < layout.frames.len()
        invariant
            i <= layout.frames@.len(),
            pos <= len,
            len == blob@.len(),
            l.1 == frames_view(layout.frames@),
            l.2 == layout.framed,
            frames_content(blob@, l.1, l.2, 0, l.0, Seq::empty()) == frames_content(blob@, l.1, l.2, i as int, pos as int, out@),
        decreases layout.frames@.len() - i,
    {
        let frame = layout.frames[i];
        assert(l.1[i as int] == frame_view(frame));
        if frame.encoded_size as usize > len - pos {
            return Err(BlteError::FrameExceedsBlob(i));
        }
        let end = pos + frame.encoded_size as usize;
        let start_len = out.len();
        let ghost before = out@;
        match decode_frame(&blob[pos..end], &mut out) {
            Ok(()) => {},
            Err(e) => {
                return Err(BlteError::Frame(i, e));
            },
        }
        if layout.framed && out.len() - start_len != frame.content_size as usize {
            return Err(BlteError::ContentSize(i));
        }
        pos = end;
        i += 1;
    }
    Ok(out)
}

/// Where frame `i` starts: the data start plus the encoded sizes of the
/// frames before it.
pub open spec fn frame_start(frames: Seq<FrameModel>, data_start: int, i: int) -> int
    decreases i,
{
    if i <= 0 {
        data_start
    } else {
        frame_start(frames, data_start, i - 1) + frames[i - 1].0
    }
}

/// Frame `k` matches its hash, when it has one.
pub open spec fn frame_hash_ok(blob: Seq<u8>, frames: Seq<FrameModel>, data_start: int, k: int) -> bool {
    frames[k].2 matches Some(h) ==> md5_digest(
        blob.subrange(frame_start(frames, data_start, k), frame_start(frames, data_start, k + 1)),
    ) == h
}

proof fn lemma_frame_start_grows(frames: Seq<FrameModel>, d: int, a: int, b: int)
    requires
        0 <= a <= b,
    ensures
        frame_start(frames, d, a) <= frame_start(frames, d, b),
    decreases b - a,
{
    if a < b {
        lemma_frame_start_grows(frames, d, a, b - 1);
    }
}

proof fn lemma_frames_end(blob: Seq<u8>, frames: Seq<FrameModel>, d: int, i: int)
    requires
        0 <= i <= frames.len(),
        frame_start(frames, d, i) <= blob.len(),
    ensures
        frames_end(blob, frames, i, frame_start(frames, d, i)) matches Ok(e) ==> e == frame_start(frames, d, frames.len() as int),
        frames_end(blob, frames, i, frame_start(frames, d, i)) is Ok <==> frame_start(frames, d, frames.len() as int) <= blob.len()
            && forall|k: int| i <= k < frames.len() ==> #[trigger] frame_hash_ok(blob, frames, d, k),
    decreases frames.len() - i,
{
    if i < frames.len() {
        assert(frame_start(frames, d, i + 1) == frame_start(frames, d, i) + frames[i].0);
        lemma_frame_start_grows(frames, d, i + 1, frames.len() as int);
        if frame_start(frames, d, i + 1) <= blob.len() {
            lemma_frames_end(blob, frames, d, i + 1);
        }
        let ok_rest = forall|k: int| i + 1 <= k < frames.len() ==> #[trigger] frame_hash_ok(blob, frames, d, k);
        let ok_all = forall|k: int| i <= k < frames.len() ==> #[trigger] frame_hash_ok(blob, frames, d, k);
        if ok_all {
            assert(frame_hash_ok(blob, frames, d, i));
            assert(ok_rest);
        }
        if ok_rest && frame_hash_ok(blob, frames, d, i) {
            assert forall|k: int| i <= k < frames.len() implies #[trigger] frame_hash_ok(blob, frames, d, k) by {}
        }
    }
}

/// When a blob checks out against `ekey`: its layout reads, the MD5 of its
/// header (of the whole blob when it has no frame table) is `ekey`, the
/// frames run from the end of the header to exactly the end of the blob,
/// and every frame with a hash matches it.
pub proof fn lemma_verify_rule(blob: Seq<u8>, ekey: Seq<u8>)
    ensures
        spec_verify(blob, ekey) is Ok <==> (spec_layout(blob) matches Ok(l) && md5_digest(keyed_bytes(blob, l)) == ekey
            && frame_start(l.1, l.0, l.1.len() as int) == blob.len() && forall|k: int|
            0 <= k < l.1.len() ==> #[trigger] frame_hash_ok(blob, l.1, l.0, k)),
{
    if let Ok(l) = spec_layout(blob) {
        lemma_layout_bounds(blob);
        assert(frame_start(l.1, l.0, 0) == l.0);
        lemma_frames_end(blob, l.1, l.0, 0);
    }
}

} // verus!
