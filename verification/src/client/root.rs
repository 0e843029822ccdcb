//! Minimal `WoW` ROOT (`TSFM`) reader: the `CKeys` of given `FileDataIds`.
//!
//! * `TSFM` (8.2+): optional versioned header, then groups `{u32 count, u32
//!   content flags, u32 locale flags}` (17-byte header for version 2), `count`
//!   delta coded `FileDataIds`, `count` `CKeys` and, without `0x10000000` in
//!   the content flags, `count` name hashes;
//! * headerless (6.0+): the same group header and deltas followed by `count`
//!   interleaved `{CKey, name hash}` records.

use vstd::prelude::*;
use std::collections::HashSet;
use crate::bytes::{key_at, le_value, read_u32_le, lemma_le_value_bound, byte_bound};
use crate::client::util::Key;

verus! {

broadcast use vstd::std_specs::hash::group_hash_axioms;

/// Content flag of groups without name hashes.
pub const NO_NAME_HASH: u32 = 0x1000_0000;

/// A ROOT record of a wanted file.
#[derive(Debug, Clone, Copy, PartialEq, Eq)]
pub struct RootRecord {
    pub file_data_id: u32,
    pub locale_flags: u32,
    pub content_flags: u32,
    pub ckey: Key,
}

/// Why a ROOT file is refused.
#[derive(Debug, Clone, Copy, PartialEq, Eq)]
pub enum RootError {
    /// A 32-bit field at this offset runs past the end.
    Truncated(usize),
    /// A group runs past the end of the file.
    GroupPastEnd,
}

/// A record as plain values: `(FileDataId, locale flags, content flags, CKey)`.
pub type RecordModel = (u32, u32, u32, Seq<u8>);

/// The model of a record.
pub open spec fn record_view(r: RootRecord) -> RecordModel {
    (r.file_data_id, r.locale_flags, r.content_flags, r.ckey@)
}

/// The little-endian `u32` at `pos`.
pub open spec fn u32_at(d: Seq<u8>, pos: int) -> Result<u32, RootError> {
    if 0 <= pos && pos + 4 <= d.len() {
        Ok(le_value(d.subrange(pos, pos + 4)) as u32)
    } else {
        Err(RootError::Truncated(pos as usize))
    }
}

/// The file starts with `TSFM`.
pub open spec fn is_tsfm(d: Seq<u8>) -> bool {
    d.len() >= 4 && d[0] == 0x54 && d[1] == 0x53 && d[2] == 0x46 && d[3] == 0x4d
}

/// Where the groups start and the size of a group header.
pub open spec fn root_start(d: Seq<u8>) -> Result<(int, int), RootError> {
    if is_tsfm(d) {
        match u32_at(d, 4) {
            Err(e) => Err(e),
            Ok(hs) => match u32_at(d, 8) {
                Err(e) => Err(e),
                Ok(version) => if (version == 1 || version == 2) && 4 <= hs < 64 {
                    Ok((hs as int, if version == 2 { 17int } else { 12int }))
                } else {
                    Ok((12, 12))
                },
            },
        }
    } else {
        Ok((0, 12))
    }
}

/// Content and locale flags of the group at `pos`.
pub open spec fn group_flags(d: Seq<u8>, pos: int, gh: int) -> Result<(u32, u32), RootError> {
    if gh == 17 {
        match u32_at(d, pos + 8) {
            Err(e) => Err(e),
            Ok(a) => match u32_at(d, pos + 12) {
                Err(e) => Err(e),
                Ok(b) => match u32_at(d, pos + 4) {
                    Err(e) => Err(e),
                    Ok(locale) => {
                        let extra: u32 = if pos + 16 < d.len() { d[pos + 16] as u32 } else { 0 };
                        Ok((a | b | (extra << 17u32), locale))
                    },
                },
            },
        }
    } else {
        match u32_at(d, pos + 4) {
            Err(e) => Err(e),
            Ok(content) => match u32_at(d, pos + 8) {
                Err(e) => Err(e),
                Ok(locale) => Ok((content, locale)),
            },
        }
    }
}

/// The wanted records of one group from id `i` on, `fdid` being the id the
/// next delta adds to, appended to `acc`.
pub open spec fn group_records(
    d: Seq<u8>,
    ids: int,
    ckeys: int,
    stride: int,
    count: int,
    i: int,
    fdid: u32,
    flags: (u32, u32),
    wanted: Set<u32>,
    acc: Seq<RecordModel>,
) -> Seq<RecordModel>
    decreases count - i,
{
    if i < 0 || i >= count {
        acc
    } else {
        let f = vstd::wrapping::u32_specs::wrapping_add(fdid, le_value(d.subrange(ids + i * 4, ids + i * 4 + 4)) as u32);
        let next = if wanted.contains(f) {
            acc.push((f, flags.1, flags.0, d.subrange(ckeys + i * stride, ckeys + i * stride + 16)))
        } else {
            acc
        };
        group_records(d, ids, ckeys, stride, count, i + 1, vstd::wrapping::u32_specs::wrapping_add(f, 1), flags, wanted, next)
    }
}

/// Where the group at `pos` ends.
pub open spec fn group_end(pos: int, gh: int, count: int, stride: int, tsfm: bool, content: u32) -> int {
    let end = pos + gh + count * 4 + count * stride;
    if tsfm && content & NO_NAME_HASH == 0 {
        end + count * 8
    } else {
        end
    }
}

/// The groups from `pos` on, their wanted records appended to `acc`.
pub open spec fn root_groups(d: Seq<u8>, pos: int, gh: int, tsfm: bool, wanted: Set<u32>, acc: Seq<RecordModel>) -> Result<Seq<RecordModel>, RootError>
    decreases d.len() - pos,
{
    if pos < 0 || pos >= d.len() || gh < 12 {
        Ok(acc)
    } else {
        match u32_at(d, pos) {
            Err(e) => Err(e),
            Ok(count) => match group_flags(d, pos, gh) {
                Err(e) => Err(e),
                Ok(flags) => {
                    let stride: int = if tsfm { 16 } else { 24 };
                    let end = group_end(pos, gh, count as int, stride, tsfm, flags.0);
                    if end > d.len() {
                        Err(RootError::GroupPastEnd)
                    } else {
                        let ids = pos + gh;
                        let ckeys = ids + count * 4;
                        root_groups(
                            d,
                            end,
                            gh,
                            tsfm,
                            wanted,
                            group_records(d, ids, ckeys, stride, count as int, 0, 0, flags, wanted, acc),
                        )
                    }
                },
            },
        }
    }
}

/// What [`find`] yields: the records of the wanted ids, in file order.
pub open spec fn spec_find(d: Seq<u8>, wanted: Set<u32>) -> Result<Seq<RecordModel>, RootError> {
    match root_start(d) {
        Err(e) => Err(e),
        Ok((start, gh)) => root_groups(d, start, gh, is_tsfm(d), wanted, Seq::empty()),
    }
}

fn u32_at_exec(data: &[u8], pos: usize) -> (r: Result<u32, RootError>)
    ensures
        r == u32_at(data@, pos as int),
{
    if pos > data.len() || data.len() - pos < 4 {
        return Err(RootError::Truncated(pos));
    }
    proof {
        lemma_le_value_bound(data@.subrange(pos as int, pos + 4));
        reveal_with_fuel(byte_bound, 5);
    }
    Ok(read_u32_le(data, pos))
}

/// Every record of the wanted `FileDataIds`, in file order.
pub fn find(data: &[u8], wanted: &HashSet<u32>) -> (r: Result<Vec<RootRecord>, RootError>)
    requires
        data@.len() <= isize::MAX,
    ensures
        match (r, spec_find(data@, wanted@)) {
            (Ok(v), Ok(s)) => v@.map_values(|x: RootRecord| record_view(x)) == s,
            (Err(e), Err(se)) => e == se,
            _ => false,
        },
{
    let n = data.len();
    let tsfm = n >= 4 && data[0] == 0x54 && data[1] == 0x53 && data[2] == 0x46 && data[3] == 0x4d;
    let mut pos: usize;
    let gh: usize;
    if tsfm {
        let hs = match u32_at_exec(data, 4) {
            Ok(v) => v,
            Err(e) => return Err(e),
        };
        let version = match u32_at_exec(data, 8) {
            Ok(v) => v,
            Err(e) => return Err(e),
        };
        if (version == 1 || version == 2) && 4 <= hs && hs < 64 {
            pos = hs as usize;
            gh = if version == 2 { 17 } else { 12 };
        } else {
            pos = 12;
            gh = 12;
        }
    } else {
        pos = 0;
        gh = 12;
    }
    assert(root_start(data@) == Ok::<(int, int), RootError>((pos as int, gh as int)));
    let stride: usize = if tsfm { 16 } else { 24 };
    let mut out: Vec<RootRecord> = Vec::new();
    assert(out@.map_values(|x: RootRecord| record_view(x)) =~= Seq::<RecordModel>::empty());
    while pos < n
        invariant
            n == data@.len(),
            n <= isize::MAX,
            gh == 12 || gh == 17,
            stride == (if tsfm { 16usize } else { 24usize }),
            tsfm == is_tsfm(data@),
            spec_find(data@, wanted@) == root_groups(
                data@,
                pos as int,
                gh as int,
                tsfm,
                wanted@,
                out@.map_values(|x: RootRecord| record_view(x)),
            ),
        decreases n - pos,
    {
        let count = match u32_at_exec(data, pos) {
            Ok(v) => v,
            Err(e) => return Err(e),
        };
        let (content, locale) = if gh == 17 {
            let a = match u32_at_exec(data, pos + 8) {
                Ok(v) => v,
                Err(e) => return Err(e),
            };
            let b = match u32_at_exec(data, pos + 12) {
                Ok(v) => v,
                Err(e) => return Err(e),
            };
            let l = match u32_at_exec(data, pos + 4) {
                Ok(v) => v,
                Err(e) => return Err(e),
            };
            let extra: u32 = if pos + 16 < n { data[pos + 16] as u32 } else { 0 };
            (a | b | (extra << 17u32), l)
        } else {
            let c = match u32_at_exec(data, pos + 4) {
                Ok(v) => v,
                Err(e) => return Err(e),
            };
            let l = match u32_at_exec(data, pos + 8) {
                Ok(v) => v,
                Err(e) => return Err(e),
            };
            (c, l)
        };
        assert(group_flags(data@, pos as int, gh as int) == Ok::<(u32, u32), RootError>((content, locale)));
        let cnt = count as u64;
        let mut end: u64 = pos as u64 + gh as u64 + cnt * 4 + cnt * stride as u64;
        if tsfm && content & NO_NAME_HASH == 0 {
            end = end + cnt * 8;
        }
        assert(end == group_end(pos as int, gh as int, count as int, stride as int, tsfm, content));
        if end > n as u64 {
            return Err(RootError::GroupPastEnd);
        }
        let ids = pos + gh;
        let ckeys = ids + (count as usize) * 4;
        let ghost flags = (content, locale);
        let mut fdid: u32 = 0;
        let mut i: usize = 0;
        let ghost acc0 = out@.map_values(|x: RootRecord| record_view(x));
        while i < count as usize
            invariant
                n == data@.len(),
                ids == pos + gh,
                ckeys == ids + (count as int) * 4,
                ckeys + (count as int) * (stride as int) <= n,
                stride == 16 || stride == 24,
                flags == (content, locale),
                i <= count,
                group_records(data@, ids as int, ckeys as int, stride as int, count as int, 0, 0, flags, wanted@, acc0)
                    == group_records(
                    data@,
                    ids as int,
                    ckeys as int,
                    stride as int,
                    count as int,
                    i as int,
                    fdid,
                    flags,
                    wanted@,
                    out@.map_values(|x: RootRecord| record_view(x)),
                ),
            decreases count - i,
        {
            proof {
                assert(i * 4 + 4 <= count * 4) by (nonlinear_arith)
                    requires i < count;
                assert(i * stride + 16 <= count * stride) by (nonlinear_arith)
                    requires i < count, stride >= 16;
            }
            let delta = read_u32_le(data, ids + i * 4);
            proof {
                lemma_le_value_bound(data@.subrange(ids + i * 4, ids + i * 4 + 4));
                reveal_with_fuel(byte_bound, 5);
            }
            let f = fdid.wrapping_add(delta);
            assert(f == vstd::wrapping::u32_specs::wrapping_add(fdid, le_value(data@.subrange(ids + i * 4, ids + i * 4 + 4)) as u32));
            let want = wanted.contains(&f);
            assert(want == wanted@.contains(f));
            if want {
                let ckey = key_at(data, ckeys + i * stride);
                let rec = RootRecord { file_data_id: f, locale_flags: locale, content_flags: content, ckey };
                let ghost before = out@;
                out.push(rec);
                assert(out@.map_values(|x: RootRecord| record_view(x)) =~= before.map_values(|x: RootRecord| record_view(x)).push(record_view(rec)));
            }
            fdid = f.wrapping_add(1);
            i += 1;
        }
        pos = end as usize;
    }
    Ok(out)
}

proof fn lemma_group_records_prefix(
    d: Seq<u8>,
    ids: int,
    ckeys: int,
    stride: int,
    count: int,
    i: int,
    fdid: u32,
    flags: (u32, u32),
    wanted: Set<u32>,
    acc: Seq<RecordModel>,
)
    ensures
        group_records(d, ids, ckeys, stride, count, i, fdid, flags, wanted, acc).len() >= acc.len(),
        group_records(d, ids, ckeys, stride, count, i, fdid, flags, wanted, acc).take(acc.len() as int) == acc,
    decreases count - i,
{
    if !(i < 0 || i >= count) {
        let f = vstd::wrapping::u32_specs::wrapping_add(fdid, le_value(d.subrange(ids + i * 4, ids + i * 4 + 4)) as u32);
        let next = if wanted.contains(f) {
            acc.push((f, flags.1, flags.0, d.subrange(ckeys + i * stride, ckeys + i * stride + 16)))
        } else {
            acc
        };
        lemma_group_records_prefix(d, ids, ckeys, stride, count, i + 1, vstd::wrapping::u32_specs::wrapping_add(f, 1), flags, wanted, next);
        let r = group_records(d, ids, ckeys, stride, count, i + 1, vstd::wrapping::u32_specs::wrapping_add(f, 1), flags, wanted, next);
        assert(r.take(acc.len() as int) =~= next.take(next.len() as int).take(acc.len() as int));
        assert(next.take(acc.len() as int) =~= acc);
    } else {
        assert(acc.take(acc.len() as int) =~= acc);
    }
}

proof fn lemma_root_groups_prefix(d: Seq<u8>, pos: int, gh: int, tsfm: bool, wanted: Set<u32>, acc: Seq<RecordModel>)
    ensures
        root_groups(d, pos, gh, tsfm, wanted, acc) matches Ok(r) ==> r.len() >= acc.len() && r.take(acc.len() as int) == acc,
    decreases d.len() - pos,
{
    if pos < 0 || pos >= d.len() || gh < 12 {
        assert(acc.take(acc.len() as int) =~= acc);
    } else {
        if let Ok(count) = u32_at(d, pos) {
            if let Ok(flags) = group_flags(d, pos, gh) {
                let stride: int = if tsfm { 16 } else { 24 };
                let end = group_end(pos, gh, count as int, stride, tsfm, flags.0);
                if end <= d.len() {
                    let ids = pos + gh;
                    let ckeys = ids + count * 4;
                    let acc2 = group_records(d, ids, ckeys, stride, count as int, 0, 0, flags, wanted, acc);
                    lemma_group_records_prefix(d, ids, ckeys, stride, count as int, 0, 0, flags, wanted, acc);
                    assert(end > pos);
                    lemma_root_groups_prefix(d, end, gh, tsfm, wanted, acc2);
                    if let Ok(r) = root_groups(d, end, gh, tsfm, wanted, acc2) {
                        assert(r.take(acc.len() as int) =~= r.take(acc2.len() as int).take(acc.len() as int));
                    }
                }
            }
        }
    }
}

/// Version-2 TSFM ROOT files: the groups start at the header size and each
/// group header is 17 bytes. For the first group (at the header size, with
/// at least one record) whose first `FileDataId` is wanted, the first record
/// found carries that id, the locale at group offset 4, the content flags
/// `u32@8 | u32@12 | byte@16 << 17`, and the `CKey` that follows the
/// group's ids (at offset `17 + 4 * count`).
pub proof fn lemma_find_v2_first_record(d: Seq<u8>, wanted: Set<u32>, hs: u32, count: u32)
    requires
        is_tsfm(d),
        u32_at(d, 8) == Ok::<u32, RootError>(2),
        u32_at(d, 4) == Ok::<u32, RootError>(hs),
        4 <= hs < 64,
        u32_at(d, hs as int) == Ok::<u32, RootError>(count),
        count >= 1,
        wanted.contains(le_value(d.subrange(hs + 17, hs + 21)) as u32),
    ensures
        spec_find(d, wanted) matches Ok(recs) ==> {
            let pos = hs as int;
            let c = count as int;
            &&& recs.len() >= 1
            &&& recs[0] == (
                le_value(d.subrange(pos + 17, pos + 21)) as u32,
                le_value(d.subrange(pos + 4, pos + 8)) as u32,
                (le_value(d.subrange(pos + 8, pos + 12)) as u32 | le_value(d.subrange(pos + 12, pos + 16)) as u32 | ((
                d[pos + 16] as u32) << 17u32)),
                d.subrange(pos + 17 + 4 * c, pos + 17 + 4 * c + 16),
            )
        },
{
    let pos = hs as int;
    let c = count;
    assert(root_start(d) == Ok::<(int, int), RootError>((pos, 17)));
    if let Ok(recs) = spec_find(d, wanted) {
        assert(pos < d.len());
        if let Ok(flags) = group_flags(d, pos, 17) {
            let end = group_end(pos, 17, c as int, 16, true, flags.0);
            assert(end <= d.len());
            let ids = pos + 17;
            let ckeys = ids + c * 4;
            let first = le_value(d.subrange(ids, ids + 4)) as u32;
            lemma_le_value_bound(d.subrange(ids, ids + 4));
            reveal_with_fuel(byte_bound, 5);
            assert(vstd::wrapping::u32_specs::wrapping_add(0, first) == first);
            let rec0 = (first, flags.1, flags.0, d.subrange(ckeys, ckeys + 16));
            let acc1 = seq![rec0];
            assert(Seq::<RecordModel>::empty().push(rec0) == acc1);
            lemma_group_records_prefix(d, ids, ckeys, 16, c as int, 1, vstd::wrapping::u32_specs::wrapping_add(first, 1), flags, wanted, acc1);
            let acc2 = group_records(d, ids, ckeys, 16, c as int, 0, 0, flags, wanted, Seq::empty());
            assert(acc2.take(1)[0] == rec0);
            lemma_root_groups_prefix(d, end, 17, true, wanted, acc2);
            assert(recs.take(acc2.len() as int)[0] == acc2[0]);
        }
    }
}

/// Version-1 TSFM ROOT files: the groups start at the header size and each
/// group header is 12 bytes `{count, content flags, locale}`; for a first
/// group with at least one record whose first `FileDataId` is wanted, the
/// first record found carries that id, the locale at group offset 8, the
/// content flags at offset 4, and the `CKey` after the ids (offset
/// `12 + 4 * count`).
pub proof fn lemma_find_v1_first_record(d: Seq<u8>, wanted: Set<u32>, hs: u32, count: u32)
    requires
        is_tsfm(d),
        u32_at(d, 8) == Ok::<u32, RootError>(1),
        u32_at(d, 4) == Ok::<u32, RootError>(hs),
        4 <= hs < 64,
        u32_at(d, hs as int) == Ok::<u32, RootError>(count),
        count >= 1,
        wanted.contains(le_value(d.subrange(hs + 12, hs + 16)) as u32),
    ensures
        spec_find(d, wanted) matches Ok(recs) ==> {
            let pos = hs as int;
            let c = count as int;
            &&& recs.len() >= 1
            &&& recs[0] == (
                le_value(d.subrange(pos + 12, pos + 16)) as u32,
                le_value(d.subrange(pos + 8, pos + 12)) as u32,
                le_value(d.subrange(pos + 4, pos + 8)) as u32,
                d.subrange(pos + 12 + 4 * c, pos + 12 + 4 * c + 16),
            )
        },
{
    let pos = hs as int;
    let c = count;
    assert(root_start(d) == Ok::<(int, int), RootError>((pos, 12)));
    if let Ok(recs) = spec_find(d, wanted) {
        assert(pos < d.len());
        if let Ok(flags) = group_flags(d, pos, 12) {
            let end = group_end(pos, 12, c as int, 16, true, flags.0);
            assert(end <= d.len());
            let ids = pos + 12;
            let ckeys = ids + c * 4;
            let first = le_value(d.subrange(ids, ids + 4)) as u32;
            lemma_le_value_bound(d.subrange(ids, ids + 4));
            reveal_with_fuel(byte_bound, 5);
            assert(vstd::wrapping::u32_specs::wrapping_add(0, first) == first);
            let rec0 = (first, flags.1, flags.0, d.subrange(ckeys, ckeys + 16));
            let acc1 = seq![rec0];
            assert(Seq::<RecordModel>::empty().push(rec0) == acc1);
            lemma_group_records_prefix(d, ids, ckeys, 16, c as int, 1, vstd::wrapping::u32_specs::wrapping_add(first, 1), flags, wanted, acc1);
            let acc2 = group_records(d, ids, ckeys, 16, c as int, 0, 0, flags, wanted, Seq::empty());
            assert(acc2.take(1)[0] == rec0);
            lemma_root_groups_prefix(d, end, 12, true, wanted, acc2);
            assert(recs.take(acc2.len() as int)[0] == acc2[0]);
        }
    }
}

/// ROOT files without a `TSFM` header: the groups start at byte 0, each
/// group header is 12 bytes `{count, content flags, locale}`, and each
/// record after the ids is a 16-byte `CKey` and an 8-byte name hash; the
/// first record of the first group, when wanted, carries that group's
/// first id, locale, content flags and `CKey`.
pub proof fn lemma_find_headerless_first_record(d: Seq<u8>, wanted: Set<u32>, count: u32)
    requires
        !is_tsfm(d),
        u32_at(d, 0) == Ok::<u32, RootError>(count),
        count >= 1,
        wanted.contains(le_value(d.subrange(12, 16)) as u32),
    ensures
        spec_find(d, wanted) matches Ok(recs) ==> {
            let c = count as int;
            &&& recs.len() >= 1
            &&& recs[0] == (
                le_value(d.subrange(12, 16)) as u32,
                le_value(d.subrange(8, 12)) as u32,
                le_value(d.subrange(4, 8)) as u32,
                d.subrange(12 + 4 * c, 12 + 4 * c + 16),
            )
        },
{
    let c = count;
    assert(root_start(d) == Ok::<(int, int), RootError>((0, 12)));
    if let Ok(recs) = spec_find(d, wanted) {
        assert(0 < d.len());
        if let Ok(flags) = group_flags(d, 0, 12) {
            let end = group_end(0, 12, c as int, 24, false, flags.0);
            assert(end <= d.len());
            let ids = 12int;
            let ckeys = ids + c * 4;
            let first = le_value(d.subrange(ids, ids + 4)) as u32;
            lemma_le_value_bound(d.subrange(ids, ids + 4));
            reveal_with_fuel(byte_bound, 5);
            assert(vstd::wrapping::u32_specs::wrapping_add(0, first) == first);
            let rec0 = (first, flags.1, flags.0, d.subrange(ckeys, ckeys + 16));
            let acc1 = seq![rec0];
            assert(Seq::<RecordModel>::empty().push(rec0) == acc1);
            lemma_group_records_prefix(d, ids, ckeys, 24, c as int, 1, vstd::wrapping::u32_specs::wrapping_add(first, 1), flags, wanted, acc1);
            let acc2 = group_records(d, ids, ckeys, 24, c as int, 0, 0, flags, wanted, Seq::empty());
            assert(acc2.take(1)[0] == rec0);
            lemma_root_groups_prefix(d, end, 12, false, wanted, acc2);
            assert(recs.take(acc2.len() as int)[0] == acc2[0]);
        }
    }
}

} // verus!
