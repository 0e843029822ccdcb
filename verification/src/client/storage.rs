//! Bookkeeping of the local CASC storage: where a new blob goes, the
//! journal of stored blobs (26-byte records after an 8-byte magic) and its
//! replay against the archives on disk, archive file names, and the index
//! entries of the stored blobs.
//!
//! Archives are `Data/data/data.NNN`; every blob is stored behind its
//! 0x1E-byte encoded header, and an archive is never grown past the
//! maximum archive size.

use vstd::prelude::*;
use std::collections::HashMap;
use crate::bytes::{
    le_bytes_u16, le_bytes_u32, le_value, lemma_le_bytes_u16_value, lemma_le_bytes_value, push_all, push_u16_le,
    push_u32_le, read_u32_le,
};
use crate::client::header::HEADER_SIZE;
use crate::client::idx::{bucket, spec_bucket, IdxEntry};
use crate::client::fetch::{key_number, location_key};
use crate::client::util::Key;
use crate::text::{decimal_padded, parse_u64, parse_u64_spec, push_decimal_padded, string_of, chars_of};

verus! {

broadcast use vstd::std_specs::hash::group_hash_axioms;

/// Name of the journal file in `Data/data`.
pub const JOURNAL_NAME: &'static str = ".wcd-journal";

/// Size of one journal record: key, archive, offset, size.
pub const RECORD: usize = 26;

/// Largest archive.
pub const MAX_ARCHIVE_SIZE: u64 = 0x4000_0000;

/// The magic that starts the journal: `WCDJRNL1`.
pub open spec fn journal_magic() -> Seq<u8> {
    seq![0x57u8, 0x43u8, 0x44u8, 0x4Au8, 0x52u8, 0x4Eu8, 0x4Cu8, 0x31u8]
}

/// The journal magic.
pub fn journal_magic_bytes() -> (r: Vec<u8>)
    ensures
        r@ == journal_magic(),
{
    let r = vec![0x57u8, 0x43, 0x44, 0x4A, 0x52, 0x4E, 0x4C, 0x31];
    assert(r@ =~= journal_magic());
    r
}

/// Where a stored blob is.
#[derive(Debug, Clone, Copy, PartialEq, Eq, Structural)]
pub struct Location {
    pub archive: u16,
    pub offset: u32,
    /// Encoded size, the 0x1E-byte header included.
    pub size: u32,
}

impl Location {
    /// `(archive << 30) | offset`, the offset the index files store.
    pub fn storage_offset(self) -> (r: u64)
        ensures
            r == ((self.archive as u64) << 30u64) | (self.offset as u64),
            self.offset < 0x4000_0000 ==> r == self.archive * 0x4000_0000 + self.offset,
    {
        let a = self.archive as u64;
        let o = self.offset as u64;
        let r = (a << 30u64) | o;
        assert(o < 0x4000_0000 ==> r == a * 0x4000_0000 + o) by (bit_vector)
            requires
                a < 0x1_0000,
                r == (a << 30u64) | o,
        ;
        r
    }
}

/// The journal record of a blob: key, then archive, offset and size,
/// little-endian.
pub open spec fn record_bytes(key: Seq<u8>, loc: Location) -> Seq<u8> {
    key + le_bytes_u16(loc.archive) + le_bytes_u32(loc.offset) + le_bytes_u32(loc.size)
}

/// The journal record of a blob.
pub fn journal_record(ekey: &Key, loc: Location) -> (r: Vec<u8>)
    ensures
        r@ == record_bytes(ekey@, loc),
        r@.len() == RECORD,
{
    let mut r: Vec<u8> = Vec::new();
    push_all(&mut r, ekey);
    push_u16_le(&mut r, loc.archive);
    push_u32_le(&mut r, loc.offset);
    push_u32_le(&mut r, loc.size);
    r
}

/// The record at `at`, read back: key and location.
pub open spec fn record_at(raw: Seq<u8>, at: int) -> (Seq<u8>, Location) {
    (
        raw.subrange(at, at + 16),
        Location {
            archive: le_value(raw.subrange(at + 16, at + 18)) as u16,
            offset: le_value(raw.subrange(at + 18, at + 22)) as u32,
            size: le_value(raw.subrange(at + 22, at + 26)) as u32,
        },
    )
}

fn read_record(raw: &[u8], at: usize) -> (r: (Key, Location))
    requires
        at + 26 <= raw@.len(),
    ensures
        r.0@ == record_at(raw@, at as int).0,
        r.1 == record_at(raw@, at as int).1,
{
    let _n = raw.len();
    let key = crate::bytes::key_at(raw, at);
    let ghost s = raw@.subrange(at + 16, at + 18);
    assert(s.drop_first().drop_first() =~= Seq::<u8>::empty());
    proof {
        reveal_with_fuel(le_value, 3);
    }
    let archive = (raw[at + 16] as u16) + 256 * (raw[at + 17] as u16);
    let offset = read_u32_le(raw, at + 18);
    let size = read_u32_le(raw, at + 22);
    (key, Location { archive, offset, size })
}

/// A record reads back as the key and location written.
pub proof fn lemma_record_round_trip(key: Seq<u8>, loc: Location)
    requires
        key.len() == 16,
    ensures
        record_bytes(key, loc).len() == RECORD,
        record_at(record_bytes(key, loc), 0) == (key, loc),
{
    let r = record_bytes(key, loc);
    lemma_le_bytes_u16_value(loc.archive);
    lemma_le_bytes_value(loc.offset);
    lemma_le_bytes_value(loc.size);
    assert(r.subrange(0, 16) =~= key);
    assert(r.subrange(16, 18) =~= le_bytes_u16(loc.archive));
    assert(r.subrange(18, 22) =~= le_bytes_u32(loc.offset));
    assert(r.subrange(22, 26) =~= le_bytes_u32(loc.size));
}

/// The result of replaying the journal.
pub struct Replay {
    /// The records whose bytes are on disk, filed by the number of their key
    /// (a later record of a key replaces an earlier one).
    pub entries: HashMap<u128, (Key, Location)>,
    /// The end of the last stored blob of each archive.
    pub ends: HashMap<u16, u64>,
    /// Whether records were dropped: torn, or beyond an archive's length.
    pub dropped: bool,
}

/// The length of archive `a` on disk (zero when it is missing).
pub open spec fn archive_len(lengths: Map<u16, u64>, a: u16) -> u64 {
    if lengths.contains_key(a) {
        lengths[a]
    } else {
        0
    }
}

/// The number of whole records in the journal `raw`.
pub open spec fn whole_records(raw: Seq<u8>) -> int {
    if raw.len() <= 8 {
        0
    } else {
        (raw.len() - 8) / 26
    }
}

/// The replay of the first `i` records: accepted records, ends, whether a
/// record was dropped for lying beyond its archive's length.
pub open spec fn replay_upto(raw: Seq<u8>, lengths: Map<u16, u64>, i: int) -> (
    Seq<(Seq<u8>, Location)>,
    Map<u16, u64>,
    bool,
)
    decreases i,
{
    if i <= 0 {
        (Seq::empty(), Map::empty(), false)
    } else {
        let (entries, ends, dropped) = replay_upto(raw, lengths, i - 1);
        let (key, loc) = record_at(raw, 8 + 26 * (i - 1));
        let end = loc.offset + loc.size;
        if end > archive_len(lengths, loc.archive) {
            (entries, ends, true)
        } else {
            let prev: int = if ends.contains_key(loc.archive) {
                ends[loc.archive] as int
            } else {
                0
            };
            let top = if prev >= end {
                prev
            } else {
                end
            };
            (entries.push((key, loc)), ends.insert(loc.archive, top as u64), dropped)
        }
    }
}

/// The replay of the journal `raw` against the archive lengths: every
/// whole record after the magic, then `dropped` also when a torn record
/// ends the journal.
pub open spec fn spec_replay(raw: Seq<u8>, lengths: Map<u16, u64>) -> (
    Seq<(Seq<u8>, Location)>,
    Map<u16, u64>,
    bool,
) {
    let (entries, ends, dropped) = replay_upto(raw, lengths, whole_records(raw));
    let torn = raw.len() > 8 && (raw.len() - 8) % 26 != 0;
    (entries, ends, dropped || torn)
}

/// The entries of a replay, keys by their bytes.
pub open spec fn entries_view(v: Seq<(Key, Location)>) -> Seq<(Seq<u8>, Location)> {
    v.map_values(|e: (Key, Location)| (e.0@, e.1))
}

/// A record with its key as bytes.
pub open spec fn record_view(e: (Key, Location)) -> (Seq<u8>, Location) {
    (e.0@, e.1)
}

/// The records of `recs` filed by the number of their key, a later record
/// of a key replacing an earlier one.
pub open spec fn latest(recs: Seq<(Seq<u8>, Location)>) -> Map<u128, (Seq<u8>, Location)>
    decreases recs.len(),
{
    if recs.len() == 0 {
        Map::empty()
    } else {
        latest(recs.drop_last()).insert(key_number(recs.last().0), recs.last())
    }
}

/// The entries of a replay map, keys by their bytes.
pub open spec fn map_view(m: Map<u128, (Key, Location)>) -> Map<u128, (Seq<u8>, Location)> {
    m.map_values(|e: (Key, Location)| record_view(e))
}

/// Replays the journal `raw` against the lengths of the archives on disk
/// (`archive_lengths`; a missing archive has length zero).
pub fn replay(raw: &[u8], archive_lengths: &HashMap<u16, u64>) -> (r: Replay)
    ensures
        map_view(r.entries@) == latest(spec_replay(raw@, archive_lengths@).0),
        r.ends@ == spec_replay(raw@, archive_lengths@).1,
        r.dropped == spec_replay(raw@, archive_lengths@).2,
{
    let n = raw.len();
    let count: usize = if n <= 8 { 0 } else { (n - 8) / 26 };
    let mut entries: HashMap<u128, (Key, Location)> = HashMap::new();
    let mut ends: HashMap<u16, u64> = HashMap::new();
    let mut dropped = false;
    let mut i: usize = 0;
    let ghost mut trace: Seq<(Seq<u8>, Location)> = Seq::empty();
    assert(map_view(entries@) =~= latest(trace));
    while i < count
        invariant
            i <= count,
            n == raw@.len(),
            count == whole_records(raw@),
            (trace, ends@, dropped) == replay_upto(raw@, archive_lengths@, i as int),
            map_view(entries@) == latest(trace),
        decreases count - i,
    {
        let at = 8 + 26 * i;
        let (key, loc) = read_record(raw, at);
        let end = loc.offset as u64 + loc.size as u64;
        let len = match archive_lengths.get(&loc.archive) {
            Some(l) => *l,
            None => 0,
        };
        let ghost prev_entries = entries@;
        let ghost prev_trace = trace;
        if end > len {
            dropped = true;
        } else {
            let prev = match ends.get(&loc.archive) {
                Some(e) => *e,
                None => 0,
            };
            let top = if prev >= end { prev } else { end };
            ends.insert(loc.archive, top);
            let num = location_key(&key);
            entries.insert(num, (key, loc));
            proof {
                trace = prev_trace.push((key@, loc));
                assert(trace.drop_last() =~= prev_trace);
                assert(map_view(entries@) =~= latest(trace));
            }
        }
        i += 1;
    }
    if n > 8 && (n - 8) % 26 != 0 {
        dropped = true;
    }
    Replay { entries, ends, dropped }
}

/// The journal of `records`, in order: the magic, then their records.
pub open spec fn journal_bytes(records: Seq<(Seq<u8>, Location)>) -> Seq<u8>
    decreases records.len(),
{
    if records.len() == 0 {
        journal_magic()
    } else {
        journal_bytes(records.drop_last()) + record_bytes(records.last().0, records.last().1)
    }
}

/// The journal holding `records`, in order.
pub fn journal_of(records: &Vec<(Key, Location)>) -> (r: Vec<u8>)
    ensures
        r@ == journal_bytes(entries_view(records@)),
{
    let mut out = journal_magic_bytes();
    let mut i: usize = 0;
    while i < records.len()
        invariant
            i <= records@.len(),
            out@ == journal_bytes(entries_view(records@).take(i as int)),
        decreases records@.len() - i,
    {
        let (k, l) = records[i];
        let r = journal_record(&k, l);
        push_all(&mut out, r.as_slice());
        proof {
            let t = entries_view(records@).take(i + 1);
            assert(t.drop_last() =~= entries_view(records@).take(i as int));
            assert(t.last() == (k@, l));
        }
        i += 1;
    }
    assert(entries_view(records@).take(i as int) =~= entries_view(records@));
    out
}

/// `(archive, offset)` of a record orders the rewritten journal.
pub open spec fn record_le(a: (Key, Location), b: (Key, Location)) -> bool {
    a.1.archive < b.1.archive || (a.1.archive == b.1.archive && a.1.offset <= b.1.offset)
}

/// `slice::sort_by_key` on `(archive, offset)` (std, a stable sort): the
/// same records, ordered by archive, then offset.
#[verifier::external_body]
fn sort_records(v: &mut Vec<(Key, Location)>)
    ensures
        final(v)@.to_multiset() == old(v)@.to_multiset(),
        forall|i: int, j: int| 0 <= i < j < final(v)@.len() ==> record_le(#[trigger] final(v)@[i], #[trigger] final(v)@[j]),
{
    v.sort_by_key(|e| (e.1.archive, e.1.offset));
}

/// The rewritten journal of the stored blobs: their records ordered by
/// archive and offset, after the magic.
pub fn rewritten_journal(records: Vec<(Key, Location)>) -> (r: Vec<u8>)
    ensures
        exists|sorted: Seq<(Key, Location)>|
            sorted.to_multiset() == records@.to_multiset() && (forall|i: int, j: int|
                0 <= i < j < sorted.len() ==> record_le(#[trigger] sorted[i], #[trigger] sorted[j]))
                && r@ == journal_bytes(entries_view(sorted)),
{
    let mut v = records;
    sort_records(&mut v);
    journal_of(&v)
}

/// Why a blob cannot be appended.
#[derive(Debug, Clone, Copy, PartialEq, Eq, Structural)]
pub enum StorageError {
    /// The storage was opened to repair its indices only.
    ReadOnly,
    /// The blob and its header do not fit in one archive.
    TooLarge,
}

impl StorageError {
    /// The message of the error.
    pub fn message(&self) -> (r: &'static str)
        ensures
            r@ == match *self {
                StorageError::ReadOnly => "storage opened for index repair only"@,
                StorageError::TooLarge => "entry larger than an archive"@,
            },
    {
        match self {
            StorageError::ReadOnly => "storage opened for index repair only",
            StorageError::TooLarge => "entry larger than an archive",
        }
    }
}

/// Where a new blob goes.
#[derive(Debug, Clone, Copy, PartialEq, Eq, Structural)]
pub struct Placement {
    pub location: Location,
    /// Whether a new archive (empty, created) receives it.
    pub new_archive: bool,
    /// The archive's length after the blob.
    pub new_len: u64,
}

/// Where a blob of `blte_len` bytes goes when the newest archive is
/// `current` (number and length), or the reason it cannot be stored.
pub open spec fn spec_place(current: Option<(u16, u64)>, blte_len: int, max: u64, read_only: bool) -> Result<
    Placement,
    StorageError,
> {
    let total = blte_len + 0x1E;
    if read_only {
        Err(StorageError::ReadOnly)
    } else if total > max {
        Err(StorageError::TooLarge)
    } else {
        let fresh = match current {
            None => true,
            Some((_, len)) => len + total > max,
        };
        let (archive, len): (u16, u64) = match current {
            None => (0, 0),
            Some((a, l)) => if fresh {
                ((a + 1) as u16, 0)
            } else {
                (a, l)
            },
        };
        Ok(
            Placement {
                location: Location { archive, offset: len as u32, size: total as u32 },
                new_archive: fresh,
                new_len: (len + total) as u64,
            },
        )
    }
}

/// Where a blob of `blte_len` bytes goes: in the newest archive when it
/// fits, else at the start of the next one.
pub fn place(current: Option<(u16, u64)>, blte_len: usize, max: u64, read_only: bool) -> (r: Result<Placement, StorageError>)
    requires
        blte_len <= isize::MAX,
        current matches Some((a, len)) ==> len + blte_len + 0x1E <= u64::MAX && (len + blte_len + 0x1E > max
            ==> a < u16::MAX),
    ensures
        r == spec_place(current, blte_len as int, max, read_only),
{
    if read_only {
        return Err(StorageError::ReadOnly);
    }
    let total: u64 = blte_len as u64 + HEADER_SIZE as u64;
    if total > max {
        return Err(StorageError::TooLarge);
    }
    let fresh = match current {
        None => true,
        Some((_, len)) => len > max - total,
    };
    let (archive, len): (u16, u64) = if fresh {
        match current {
            None => (0, 0),
            Some((a, _)) => (a + 1, 0),
        }
    } else {
        match current {
            Some((a, l)) => (a, l),
            None => (0, 0),
        }
    };
    Ok(
        Placement {
            location: Location {
                archive,
                offset: #[verifier::truncate] (len as u32),
                size: #[verifier::truncate] (total as u32),
            },
            new_archive: fresh,
            new_len: len + total,
        },
    )
}

/// An archive is never grown past the maximum: a blob that is placed ends
/// within `max`, either behind the end of the newest archive (whose
/// length grows by the blob and its header) or at the start of the next
/// archive.
pub proof fn lemma_place_within_archive(current: Option<(u16, u64)>, blte_len: int, max: u64, read_only: bool)
    requires
        0 <= blte_len,
        current matches Some((a, len)) ==> len + blte_len + 0x1E <= u64::MAX,
    ensures
        spec_place(current, blte_len, max, read_only) matches Ok(p) ==> {
            &&& p.new_len <= max
            &&& p.new_archive ==> p.new_len == blte_len + 0x1E
            &&& !p.new_archive ==> (current matches Some((a, len)) && p.location.archive == a && p.new_len == len
                + blte_len + 0x1E)
        },
{
}

/// `data.NNN`: the file name of archive `a`.
pub open spec fn spec_archive_name(a: u16) -> Seq<char> {
    "data."@ + decimal_padded(a as nat, 3)
}

/// The file name of archive `a`.
pub fn archive_name(a: u16) -> (r: String)
    ensures
        r@ == spec_archive_name(a),
{
    let mut out: Vec<char> = Vec::new();
    crate::text::push_str(&mut out, "data.");
    push_decimal_padded(&mut out, a as u64, 3);
    string_of(out.as_slice())
}

/// The archive number a file name names: `data.` then a `u16`.
pub open spec fn spec_archive_number(name: Seq<char>) -> Option<u16> {
    if name.len() >= 5 && name.take(5) == "data."@ {
        match parse_u64_spec(name.skip(5)) {
            Some(n) => if n <= u16::MAX {
                Some(n as u16)
            } else {
                None
            },
            None => None,
        }
    } else {
        None
    }
}

/// The archive number of a file name, if it names an archive.
pub fn archive_number(name: &str) -> (r: Option<u16>)
    ensures
        r == spec_archive_number(name@),
{
    let cs = chars_of(name);
    let prefix = chars_of("data.");
    proof {
        reveal_strlit("data.");
    }
    if cs.len() < 5 {
        return None;
    }
    let mut i: usize = 0;
    while i < 5
        invariant
            i <= 5,
            cs@.len() >= 5,
            cs@ == name@,
            prefix@ == "data."@,
            prefix@.len() == 5,
            forall|j: int| 0 <= j < i ==> cs@[j] == prefix@[j],
        decreases 5 - i,
    {
        if cs[i] != prefix[i] {
            assert(cs@.take(5)[i as int] != "data."@[i as int]);
            return None;
        }
        i += 1;
    }
    assert(cs@.take(5) =~= "data."@);
    let rest = crate::text::slice_chars(cs.as_slice(), 5, cs.len());
    assert(rest@ =~= name@.skip(5));
    match parse_u64(rest.as_slice()) {
        Some(n) => if n <= 0xFFFF {
            Some(n as u16)
        } else {
            None
        },
        None => None,
    }
}

/// The entries of bucket `b`, in order.
pub open spec fn bucket_entries(entries: Seq<(Key, Location)>, b: u8) -> Seq<(Seq<u8>, u64, u32)>
    decreases entries.len(),
{
    if entries.len() == 0 {
        Seq::empty()
    } else {
        let e = entries.last();
        let rest = bucket_entries(entries.drop_last(), b);
        if spec_bucket(e.0@) == b {
            rest.push((e.0@.take(9), ((e.1.archive as u64) << 30u64) | (e.1.offset as u64), e.1.size))
        } else {
            rest
        }
    }
}

/// An index entry as plain values.
pub open spec fn idx_entry_view(e: IdxEntry) -> (Seq<u8>, u64, u32) {
    (e.key@, e.storage_offset, e.size)
}

fn key_prefix(k: &Key) -> (r: [u8; 9])
    ensures
        r@ == k@.take(9),
{
    let r = [k[0], k[1], k[2], k[3], k[4], k[5], k[6], k[7], k[8]];
    assert(r@ =~= k@.take(9));
    r
}

/// The index entries of the stored blobs, grouped by bucket (16 buckets),
/// each bucket in the order of `entries`.
pub fn index_buckets(entries: &Vec<(Key, Location)>) -> (r: Vec<Vec<IdxEntry>>)
    ensures
        r@.len() == 16,
        forall|b: int| 0 <= b < 16 ==> (#[trigger] r@[b])@.map_values(|e: IdxEntry| idx_entry_view(e))
            == bucket_entries(entries@, b as u8),
{
    let mut buckets: Vec<Vec<IdxEntry>> = Vec::new();
    let mut b: usize = 0;
    while b < 16
        invariant
            b <= 16,
            buckets@.len() == b,
            forall|c: int| 0 <= c < b ==> (#[trigger] buckets@[c])@.len() == 0,
        decreases 16 - b,
    {
        buckets.push(Vec::new());
        b += 1;
    }
    assert forall|c: int| 0 <= c < 16 implies (#[trigger] buckets@[c])@.map_values(|e: IdxEntry| idx_entry_view(e))
        == bucket_entries(entries@.take(0), c as u8) by {
        assert(entries@.take(0) =~= Seq::<(Key, Location)>::empty());
        assert(buckets@[c]@.map_values(|e: IdxEntry| idx_entry_view(e)) =~= Seq::<(Seq<u8>, u64, u32)>::empty());
    }
    let mut i: usize = 0;
    while i < entries.len()
        invariant
            i <= entries@.len(),
            buckets@.len() == 16,
            forall|c: int| 0 <= c < 16 ==> (#[trigger] buckets@[c])@.map_values(|e: IdxEntry| idx_entry_view(e))
                == bucket_entries(entries@.take(i as int), c as u8),
        decreases entries@.len() - i,
    {
        let (k, l) = entries[i];
        let bk = bucket(&k);
        proof {
            let x: u8 = crate::client::idx::xor_all(k@.take(9));
            assert(bk == (x & 0x0f) ^ (x >> 4u8));
            assert((x & 0x0f) ^ (x >> 4u8) < 16) by (bit_vector);
        }
        let e = IdxEntry { key: key_prefix(&k), storage_offset: l.storage_offset(), size: l.size };
        let ghost old_buckets = buckets@;
        let mut list = Vec::new();
        std::mem::swap(&mut list, &mut buckets[bk as usize]);
        let ghost before = list@;
        list.push(e);
        buckets.set(bk as usize, list);
        proof {
            let t = entries@.take(i + 1);
            assert(t.drop_last() =~= entries@.take(i as int));
            assert(t.last() == (k, l));
            assert forall|c: int| 0 <= c < 16 implies (#[trigger] buckets@[c])@.map_values(|e: IdxEntry| idx_entry_view(e))
                == bucket_entries(entries@.take(i + 1), c as u8) by {
                if c == bk as int {
                    assert(buckets@[c]@ == before.push(e));
                    assert(before.push(e).map_values(|e: IdxEntry| idx_entry_view(e)) =~= before.map_values(
                        |e: IdxEntry| idx_entry_view(e),
                    ).push(idx_entry_view(e)));
                } else {
                    assert(buckets@[c] == old_buckets[c]);
                }
            }
        }
        i += 1;
    }
    assert(entries@.take(i as int) =~= entries@);
    buckets
}


proof fn lemma_journal_len(recs: Seq<(Seq<u8>, Location)>)
    requires
        forall|i: int| 0 <= i < recs.len() ==> (#[trigger] recs[i]).0.len() == 16,
    ensures
        journal_bytes(recs).len() == 8 + 26 * recs.len(),
    decreases recs.len(),
{
    if recs.len() > 0 {
        let p = recs.drop_last();
        assert forall|i: int| 0 <= i < p.len() implies (#[trigger] p[i]).0.len() == 16 by {
            assert(p[i] == recs[i]);
        }
        lemma_journal_len(p);
        assert(recs.last() == recs[recs.len() - 1]);
    }
}

proof fn lemma_journal_record(recs: Seq<(Seq<u8>, Location)>, i: int)
    requires
        0 <= i < recs.len(),
        forall|k: int| 0 <= k < recs.len() ==> (#[trigger] recs[k]).0.len() == 16,
    ensures
        journal_bytes(recs).subrange(8 + 26 * i, 8 + 26 * i + 26) == record_bytes(recs[i].0, recs[i].1),
    decreases recs.len(),
{
    let p = recs.drop_last();
    assert forall|k: int| 0 <= k < p.len() implies (#[trigger] p[k]).0.len() == 16 by {
        assert(p[k] == recs[k]);
    }
    lemma_journal_len(p);
    let jp = journal_bytes(p);
    let last = recs.last();
    assert(last == recs[recs.len() - 1]);
    let rb = record_bytes(last.0, last.1);
    assert(journal_bytes(recs) == jp + rb);
    if i == recs.len() - 1 {
        assert((jp + rb).subrange(8 + 26 * i, 8 + 26 * i + 26) =~= rb);
    } else {
        lemma_journal_record(p, i);
        assert(p[i] == recs[i]);
        assert((jp + rb).subrange(8 + 26 * i, 8 + 26 * i + 26) =~= jp.subrange(8 + 26 * i, 8 + 26 * i + 26));
    }
}

proof fn lemma_record_at_sub(raw: Seq<u8>, at: int, rb: Seq<u8>)
    requires
        0 <= at,
        at + 26 <= raw.len(),
        raw.subrange(at, at + 26) == rb,
    ensures
        record_at(raw, at) == record_at(rb, 0),
{
    assert(raw.subrange(at, at + 16) =~= rb.subrange(0, 16));
    assert(raw.subrange(at + 16, at + 18) =~= rb.subrange(16, 18));
    assert(raw.subrange(at + 18, at + 22) =~= rb.subrange(18, 22));
    assert(raw.subrange(at + 22, at + 26) =~= rb.subrange(22, 26));
}

/// Every record of `recs` lies within its archive.
pub open spec fn records_on_disk(recs: Seq<(Seq<u8>, Location)>, lengths: Map<u16, u64>) -> bool {
    forall|i: int|
        0 <= i < recs.len() ==> (#[trigger] recs[i]).0.len() == 16 && recs[i].1.offset + recs[i].1.size
            <= archive_len(lengths, recs[i].1.archive)
}

proof fn lemma_replay_prefix(recs: Seq<(Seq<u8>, Location)>, lengths: Map<u16, u64>, i: int)
    requires
        0 <= i <= recs.len(),
        records_on_disk(recs, lengths),
    ensures
        replay_upto(journal_bytes(recs), lengths, i).0 == recs.take(i),
        !replay_upto(journal_bytes(recs), lengths, i).2,
    decreases i,
{
    if i > 0 {
        lemma_replay_prefix(recs, lengths, i - 1);
        let j = journal_bytes(recs);
        assert(forall|k: int| 0 <= k < recs.len() ==> (#[trigger] recs[k]).0.len() == 16);
        lemma_journal_len(recs);
        lemma_journal_record(recs, i - 1);
        let r = recs[i - 1];
        lemma_record_at_sub(j, 8 + 26 * (i - 1), record_bytes(r.0, r.1));
        lemma_record_round_trip(r.0, r.1);
        assert(record_at(j, 8 + 26 * (i - 1)) == (r.0, r.1));
        assert(recs.take(i - 1).push(r) =~= recs.take(i));
    }
}

/// The journal of stored records replays as those records: for records
/// whose blobs lie within their archives, replaying the journal written
/// for them gives them back, in order, and drops nothing.
pub proof fn lemma_journal_replay(recs: Seq<(Seq<u8>, Location)>, lengths: Map<u16, u64>)
    requires
        records_on_disk(recs, lengths),
    ensures
        spec_replay(journal_bytes(recs), lengths).0 == recs,
        !spec_replay(journal_bytes(recs), lengths).2,
{
    assert(forall|k: int| 0 <= k < recs.len() ==> (#[trigger] recs[k]).0.len() == 16);
    lemma_journal_len(recs);
    let j = journal_bytes(recs);
    if recs.len() > 0 {
        assert(whole_records(j) == recs.len()) by (nonlinear_arith)
            requires
                j.len() == 8 + 26 * recs.len(),
                recs.len() > 0,
                whole_records(j) == (j.len() - 8) / 26,
        ;
    } else {
        assert(whole_records(j) == 0);
    }
    lemma_replay_prefix(recs, lengths, recs.len() as int);
    assert(recs.take(recs.len() as int) =~= recs);
    assert((j.len() - 8) % 26 == 0) by (nonlinear_arith)
        requires
            j.len() == 8 + 26 * recs.len(),
    ;
}

/// A later record of a key replaces an earlier one: the record kept for the
/// key of `recs[i]` is `recs[i]` itself when no later record has that key.
pub proof fn lemma_latest_is_last(recs: Seq<(Seq<u8>, Location)>, i: int)
    requires
        0 <= i < recs.len(),
        forall|j: int| i < j < recs.len() ==> key_number(#[trigger] recs[j].0) != key_number(recs[i].0),
    ensures
        latest(recs).contains_key(key_number(recs[i].0)),
        latest(recs)[key_number(recs[i].0)] == recs[i],
    decreases recs.len(),
{
    let p = recs.drop_last();
    if i < recs.len() - 1 {
        assert forall|j: int| i < j < p.len() implies key_number(#[trigger] p[j].0) != key_number(p[i].0) by {
            assert(p[j] == recs[j]);
        }
        lemma_latest_is_last(p, i);
        assert(p[i] == recs[i]);
        assert(recs.last() == recs[recs.len() - 1]);
    }
}

} // verus!
