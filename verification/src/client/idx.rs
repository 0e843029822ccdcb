//! Local index files `Data/data/BBVVVVVVVV.idx` (index version 2,
//! `IndexVersion == 7`), in the layout the game client validates:
//!
//! * guarded block 1: `u32 size = 0x10`, `u32 hashlittle(header, 0)`, then the
//!   header `{u16 7, u8 bucket, u8 0, 4 size bytes, 5 offset bytes, 9 key bytes,
//!   30 offset bits, u64 LE 0xFF_C000_0000}` and 8 bytes of padding;
//! * guarded block 2: `u32 size`, `u32 hash` = `hashlittle2` primary value
//!   chained over the 18-byte entries, entries sorted by key: 9-byte `EKey`
//!   prefix, 5-byte big-endian storage offset `(archive << 30) | offset`,
//!   4-byte LE size;
//! * a zero-filled update section of at least [`UPDATE_SECTION_MIN`] bytes,
//!   then zero padding to a 64 KiB multiple.
//!
//! The bucket of a key is `x = xor(key[0..9])`, `(x & 0x0F) ^ (x >> 4)`.

use vstd::prelude::*;
use crate::bytes::{le_bytes_u32, push_all, push_u32_le};
use crate::jenkins::{hashlittle, hashlittle2, spec_hashlittle, spec_hashlittle2};
use crate::order::{bytes_le, bytes_lt, compare_bytes, lemma_lt_exclusive, lemma_lt_irreflexive, lemma_lt_total, lemma_lt_transitive};
use crate::text::{hex_fixed, push_hex_fixed, chars_of, string_of};

verus! {

pub const BUCKETS: u8 = 16;

pub const OFFSET_BITS: u8 = 30;

/// Minimum size of the (empty) update section that follows the entries.
pub const UPDATE_SECTION_MIN: usize = 0x7800;

/// XOR of the bytes of `s`.
pub open spec fn xor_all(s: Seq<u8>) -> u8
    decreases s.len(),
{
    if s.len() == 0 {
        0
    } else {
        xor_all(s.drop_last()) ^ s.last()
    }
}

/// The bucket of a key: `x = xor(key[0..9])`, `(x & 0x0F) ^ (x >> 4)`.
pub open spec fn spec_bucket(k: Seq<u8>) -> u8 {
    let x = xor_all(k.take(9));
    (x & 0x0f) ^ (x >> 4u8)
}

/// The bucket of a key (at least 9 bytes long).
pub fn bucket(ekey: &[u8]) -> (r: u8)
    requires
        ekey@.len() >= 9,
    ensures
        r == spec_bucket(ekey@),
{
    let mut x: u8 = 0;
    let mut i: usize = 0;
    while i < 9
        invariant
            i <= 9,
            ekey@.len() >= 9,
            x == xor_all(ekey@.take(i as int)),
        decreases 9 - i,
    {
        assert(ekey@.take(i + 1).drop_last() =~= ekey@.take(i as int));
        x = x ^ ekey[i];
        i += 1;
    }
    (x & 0x0f) ^ (x >> 4u8)
}

/// One entry of an index file.
#[derive(Debug, Clone, Copy, PartialEq, Eq, PartialOrd, Ord)]
pub struct IdxEntry {
    pub key: [u8; 9],
    pub storage_offset: u64,
    pub size: u32,
}

/// The `BBVVVVVVVV.idx` file name of a bucket and version.
pub open spec fn spec_file_name(bucket: u8, version: u32) -> Seq<char> {
    hex_fixed(bucket as nat, 2, false) + hex_fixed(version as nat, 8, false) + ".idx"@
}

/// `BBVVVVVVVV.idx` file name.
pub fn file_name(bucket: u8, version: u32) -> (r: String)
    ensures
        r@ == spec_file_name(bucket, version),
{
    let mut out: Vec<char> = Vec::new();
    push_hex_fixed(&mut out, bucket as u64, 2, false);
    push_hex_fixed(&mut out, version as u64, 8, false);
    let ext = chars_of(".idx");
    let ghost mid = out@;
    let mut i: usize = 0;
    while i < ext.len()
        invariant
            i <= ext@.len(),
            out@ == mid + ext@.take(i as int),
        decreases ext@.len() - i,
    {
        out.push(ext[i]);
        i += 1;
        assert(out@ =~= mid + ext@.take(i as int));
    }
    assert(ext@.take(i as int) =~= ext@);
    string_of(out.as_slice())
}

/// An entry as plain values: `(key, storage offset, size)`.
pub type IdxModel = (Seq<u8>, u64, u32);

/// The model of an entry.
pub open spec fn idx_view(e: IdxEntry) -> IdxModel {
    (e.key@, e.storage_offset, e.size)
}

/// The model of an entry held as a tuple.
pub open spec fn triple_view(e: ([u8; 9], u64, u32)) -> IdxModel {
    (e.0@, e.1, e.2)
}

/// The models of a list of tuples.
pub open spec fn triples_view(v: Seq<([u8; 9], u64, u32)>) -> Seq<IdxModel> {
    v.map_values(|e: ([u8; 9], u64, u32)| triple_view(e))
}

/// The order of entries: by key, then offset, then size.
pub open spec fn entry_lt(a: IdxModel, b: IdxModel) -> bool {
    bytes_lt(a.0, b.0) || (a.0 == b.0 && (a.1 < b.1 || (a.1 == b.1 && a.2 < b.2)))
}

/// The entries an index file holds for the entries it was built from: one
/// per key, in strictly increasing key order, each an input entry and the
/// least input entry of its key.
pub open spec fn canonical(input: Seq<IdxModel>, kept: Seq<IdxModel>) -> bool {
    &&& forall|i: int, j: int| 0 <= i < j < kept.len() ==> bytes_lt(#[trigger] kept[i].0, #[trigger] kept[j].0)
    &&& forall|i: int| 0 <= i < kept.len() ==> input.contains(#[trigger] kept[i])
    &&& forall|p: int| 0 <= p < input.len() ==> #[trigger] covered(input, kept, p)
}

/// Input entry `p` has a kept entry of its key that is not above it.
pub open spec fn covered(input: Seq<IdxModel>, kept: Seq<IdxModel>, p: int) -> bool {
    exists|j: int| 0 <= j < kept.len() && kept[j].0 == input[p].0 && !entry_lt(input[p], kept[j])
}

/// The five low bytes of `x`, big-endian.
pub open spec fn be5(x: u64) -> Seq<u8> {
    seq![(x >> 32u64) as u8, (x >> 24u64) as u8, (x >> 16u64) as u8, (x >> 8u64) as u8, x as u8]
}

/// The 18 bytes of an entry.
pub open spec fn entry_bytes(e: IdxModel) -> Seq<u8> {
    e.0 + be5(e.1) + le_bytes_u32(e.2)
}

/// The entries' bytes, in order.
pub open spec fn block_bytes(s: Seq<IdxModel>) -> Seq<u8>
    decreases s.len(),
{
    if s.len() == 0 {
        Seq::empty()
    } else {
        block_bytes(s.drop_last()) + entry_bytes(s.last())
    }
}

/// The `hashlittle2` state chained over the entries from `(0, 0)`.
pub open spec fn block_hash(s: Seq<IdxModel>) -> (u32, u32)
    decreases s.len(),
{
    if s.len() == 0 {
        (0, 0)
    } else {
        let (c, b) = block_hash(s.drop_last());
        spec_hashlittle2(entry_bytes(s.last()), c, b)
    }
}

/// The 16-byte header of a bucket's index file.
pub open spec fn idx_header(bucket: u8) -> Seq<u8> {
    seq![7u8, 0, bucket, 0, 4, 5, 9, 30, 0, 0, 0, 0xc0, 0xff, 0, 0, 0]
}

/// `n` rounded up past the update section to a 64 KiB multiple.
pub open spec fn padded_len(n: int) -> int {
    let m = n + 0x7800;
    (m / 0x10000 + if m % 0x10000 != 0 { 1int } else { 0int }) * 0x10000
}

/// The bytes of the index file of `bucket` holding `kept`, before padding.
pub open spec fn idx_body(bucket: u8, kept: Seq<IdxModel>) -> Seq<u8> {
    le_bytes_u32(16) + le_bytes_u32(spec_hashlittle(idx_header(bucket), 0)) + idx_header(bucket) + Seq::new(
        8,
        |i: int| 0u8,
    ) + le_bytes_u32((18 * kept.len()) as u32) + le_bytes_u32(block_hash(kept).0) + block_bytes(kept)
}

/// The index file of `bucket` holding `kept`.
pub open spec fn idx_file(bucket: u8, kept: Seq<IdxModel>) -> Seq<u8> {
    let body = idx_body(bucket, kept);
    body + Seq::new((padded_len(body.len() as int) - body.len()) as nat, |i: int| 0u8)
}

/// `slice::sort_unstable` on `(key, offset, size)` tuples (std): the same
/// tuples, in the lexicographic order of the tuples (arrays compare
/// lexicographically, then the numbers).
#[verifier::external_body]
fn sort_triples(v: &mut Vec<([u8; 9], u64, u32)>)
    ensures
        final(v)@.len() == old(v)@.len(),
        triples_view(final(v)@).to_multiset() == triples_view(old(v)@).to_multiset(),
        forall|i: int, j: int|
            0 <= i < j < final(v)@.len() ==> !entry_lt(triple_view(#[trigger] final(v)@[j]), triple_view(#[trigger] final(v)@[i])),
{
    v.sort_unstable();
}

proof fn lemma_not_lt_le(a: IdxModel, b: IdxModel)
    requires
        !entry_lt(b, a),
    ensures
        bytes_le(a.0, b.0),
{
    lemma_lt_total(a.0, b.0);
}

/// The first entry of each run of equal keys of a sorted list.
fn dedup_sorted(s: &Vec<([u8; 9], u64, u32)>) -> (r: Vec<([u8; 9], u64, u32)>)
    requires
        forall|i: int, j: int| 0 <= i < j < s@.len() ==> !entry_lt(triple_view(#[trigger] s@[j]), triple_view(#[trigger] s@[i])),
    ensures
        canonical(triples_view(s@), triples_view(r@)),
        r@.len() <= s@.len(),
{
    let ghost sv = triples_view(s@);
    let mut out: Vec<([u8; 9], u64, u32)> = Vec::new();
    let ghost mut from: Seq<int> = Seq::empty();
    let mut i: usize = 0;
    while i < s.len()
        invariant
            i <= s@.len(),
            sv == triples_view(s@),
            forall|a: int, b: int| 0 <= a < b < s@.len() ==> !entry_lt(triple_view(#[trigger] s@[b]), triple_view(#[trigger] s@[a])),
            out@.len() <= i,
            from.len() == out@.len(),
            forall|k: int| 0 <= k < from.len() ==> 0 <= #[trigger] from[k] < i && triples_view(out@)[k] == sv[from[k]],
            out@.len() > 0 ==> from[out@.len() - 1] < i,
            forall|a: int, b: int| 0 <= a < b < out@.len() ==> bytes_lt(#[trigger] triples_view(out@)[a].0, #[trigger] triples_view(out@)[b].0),
            forall|p: int| 0 <= p < i ==> #[trigger] covered(sv, triples_view(out@), p),
            i > 0 ==> out@.len() > 0 && triples_view(out@)[out@.len() - 1].0 == sv[i - 1].0,
        decreases s@.len() - i,
    {
        let e = s[i];
        assert(sv[i as int] == triple_view(e));
        let same = if out.len() == 0 {
            false
        } else {
            let last = out.len() - 1;
            compare_bytes(&out[last].0, &e.0) == 0
        };
        let ghost ov = triples_view(out@);
        if same {
            proof {
                let last = out@.len() - 1;
                assert(ov[last] == triple_view(out@[last]));
                let q = from[last];
                assert(!entry_lt(sv[i as int], sv[q]));
                assert forall|p: int| 0 <= p < i + 1 implies #[trigger] covered(sv, triples_view(out@), p) by {
                    if p == i {
                        assert(ov[last].0 == sv[p].0 && !entry_lt(sv[p], ov[last]));
                    }
                }
            }
        } else {
            out.push(e);
            proof {
                let n = out@.len() - 1;
                let nv = triples_view(out@);
                assert(nv =~= ov.push(triple_view(e)));
                from = from.push(i as int);
                lemma_lt_irreflexive(sv[i as int].0);
                assert(!entry_lt(sv[i as int], nv[n]));
                if n > 0 {
                    let q = from[n - 1];
                    assert(nv[n - 1] == sv[q]);
                    assert(!entry_lt(sv[i as int], sv[q]));
                    lemma_not_lt_le(sv[q], sv[i as int]);
                    assert(ov[n - 1].0 != sv[i as int].0);
                    assert(bytes_lt(nv[n - 1].0, nv[n].0));
                    assert forall|a: int, b: int| 0 <= a < b < nv.len() implies bytes_lt(#[trigger] nv[a].0, #[trigger] nv[b].0) by {
                        if b == n && a < n - 1 {
                            lemma_lt_transitive(nv[a].0, nv[n - 1].0, nv[n].0);
                        }
                    }
                }
                assert forall|p: int| 0 <= p < i + 1 implies #[trigger] covered(sv, nv, p) by {
                    if p == i {
                        assert(nv[n].0 == sv[p].0 && !entry_lt(sv[p], nv[n]));
                    } else {
                        assert(covered(sv, ov, p));
                        let j = choose|j: int| 0 <= j < ov.len() && ov[j].0 == sv[p].0 && !entry_lt(sv[p], ov[j]);
                        assert(nv[j] == ov[j]);
                    }
                }
            }
        }
        i += 1;
    }
    proof {
        let ov = triples_view(out@);
        assert forall|k: int| 0 <= k < ov.len() implies sv.contains(#[trigger] ov[k]) by {
            assert(ov[k] == sv[from[k]]);
        }
    }
    out
}

/// `canonical` depends only on which entries the input holds.
proof fn lemma_canonical_perm(ev: Seq<IdxModel>, sv: Seq<IdxModel>, kv: Seq<IdxModel>)
    requires
        ev.to_multiset() == sv.to_multiset(),
        canonical(sv, kv),
    ensures
        canonical(ev, kv),
{
    sv.to_multiset_ensures();
    ev.to_multiset_ensures();
    assert forall|k: int| 0 <= k < kv.len() implies ev.contains(#[trigger] kv[k]) by {
        assert(sv.contains(kv[k]));
        assert(sv.to_multiset().count(kv[k]) > 0);
    }
    assert forall|p: int| 0 <= p < ev.len() implies #[trigger] covered(ev, kv, p) by {
        assert(ev.contains(ev[p]));
        assert(ev.to_multiset().count(ev[p]) > 0);
        assert(sv.contains(ev[p]));
        let q = choose|q: int| 0 <= q < sv.len() && sv[q] == ev[p];
        assert(covered(sv, kv, q));
    }
}

/// The entries an index file holds: sorted, one per key.
fn kept_entries(entries: &[IdxEntry]) -> (r: Vec<([u8; 9], u64, u32)>)
    ensures
        canonical(entries@.map_values(|e: IdxEntry| idx_view(e)), triples_view(r@)),
        r@.len() <= entries@.len(),
{
    let ghost ev = entries@.map_values(|e: IdxEntry| idx_view(e));
    let mut v: Vec<([u8; 9], u64, u32)> = Vec::new();
    let mut i: usize = 0;
    while i < entries.len()
        invariant
            i <= entries@.len(),
            ev == entries@.map_values(|e: IdxEntry| idx_view(e)),
            triples_view(v@) == ev.take(i as int),
        decreases entries@.len() - i,
    {
        let e = entries[i];
        let ghost before = v@;
        v.push((e.key, e.storage_offset, e.size));
        assert(triples_view(v@) =~= ev.take(i + 1)) by {
            assert(triples_view(v@) =~= triples_view(before).push(idx_view(e)));
        }
        i += 1;
    }
    assert(ev.take(i as int) =~= ev);
    sort_triples(&mut v);
    let kept = dedup_sorted(&v);
    proof {
        lemma_canonical_perm(ev, triples_view(v@), triples_view(kept@));
    }
    kept
}

/// The bytes of the index file of `bucket` holding `kept`.
fn write_idx(bucket: u8, kept: &Vec<([u8; 9], u64, u32)>) -> (r: Vec<u8>)
    requires
        kept@.len() * 18 + 0x20000 <= usize::MAX,
    ensures
        r@ == idx_file(bucket, triples_view(kept@)),
{
    let ghost kv = triples_view(kept@);
    let header: [u8; 16] = [7, 0, bucket, 0, 4, 5, 9, 30, 0, 0, 0, 0xc0, 0xff, 0, 0, 0];
    assert(header@ =~= idx_header(bucket));
    let mut out: Vec<u8> = Vec::new();
    push_u32_le(&mut out, 16);
    push_u32_le(&mut out, hashlittle(&header, 0));
    push_all(&mut out, &header);
    push_all(&mut out, &[0u8; 8]);
    let mut block: Vec<u8> = Vec::new();
    let mut high: u32 = 0;
    let mut low: u32 = 0;
    let mut k: usize = 0;
    assert(kv.take(0) =~= Seq::<IdxModel>::empty());
    while k < kept.len()
        invariant
            k <= kept@.len(),
            kept@.len() * 18 + 0x20000 <= usize::MAX,
            kv == triples_view(kept@),
            block@ == block_bytes(kv.take(k as int)),
            block@.len() == 18 * k,
            (high, low) == block_hash(kv.take(k as int)),
        decreases kept@.len() - k,
    {
        let e = kept[k];
        let start = block.len();
        push_all(&mut block, &e.0);
        let off = e.1;
        let five: [u8; 5] = [
            #[verifier::truncate] ((off >> 32u64) as u8),
            #[verifier::truncate] ((off >> 24u64) as u8),
            #[verifier::truncate] ((off >> 16u64) as u8),
            #[verifier::truncate] ((off >> 8u64) as u8),
            #[verifier::truncate] (off as u8),
        ];
        push_all(&mut block, &five);
        push_u32_le(&mut block, e.2);
        let ghost t = kv.take(k + 1);
        proof {
            assert(t.drop_last() =~= kv.take(k as int));
            assert(t.last() == triple_view(e));
            assert(five@ =~= be5(off));
            assert(block@.subrange(start as int, block@.len() as int) =~= entry_bytes(triple_view(e)));
        }
        hashlittle2(&block[start..block.len()], &mut high, &mut low);
        k += 1;
    }
    assert(kv.take(k as int) =~= kv);
    push_u32_le(&mut out, #[verifier::truncate] (block.len() as u32));
    push_u32_le(&mut out, high);
    push_all(&mut out, block.as_slice());
    let ghost body = out@;
    assert(body =~= idx_body(bucket, kv));
    let m = out.len() + 0x7800;
    let target = (m / 0x10000 + if m % 0x10000 != 0 { 1 } else { 0 }) * 0x10000;
    assert(target == padded_len(body.len() as int));
    assert(target >= out.len()) by (nonlinear_arith)
        requires target == (m / 0x10000 + if m % 0x10000 != 0 { 1int } else { 0int }) * 0x10000, m == out@.len() + 0x7800;
    while out.len() < target
        invariant
            out@.len() <= target,
            out@ == body + Seq::new((out@.len() - body.len()) as nat, |i: int| 0u8),
            body.len() <= out@.len(),
        decreases target - out@.len(),
    {
        out.push(0);
        assert(out@ =~= body + Seq::new((out@.len() - body.len()) as nat, |i: int| 0u8));
    }
    assert(out@ =~= idx_file(bucket, kv));
    out
}

/// Serializes one bucket's index file: the entries sorted, one per key
/// (the least entry of each key), behind the header block.
pub fn build(bucket: u8, entries: &[IdxEntry]) -> (r: Vec<u8>)
    requires
        entries@.len() * 18 + 0x20000 <= usize::MAX,
    ensures
        exists|kept: Seq<IdxModel>|
            canonical(entries@.map_values(|e: IdxEntry| idx_view(e)), kept) && r@ == idx_file(bucket, kept),
{
    let kept = kept_entries(entries);
    let r = write_idx(bucket, &kept);
    assert(canonical(entries@.map_values(|e: IdxEntry| idx_view(e)), triples_view(kept@)) && r@ == idx_file(bucket, triples_view(kept@)));
    r
}

proof fn lemma_block_bytes(s: Seq<IdxModel>)
    requires
        forall|k: int| 0 <= k < s.len() ==> (#[trigger] s[k]).0.len() == 9,
    ensures
        block_bytes(s).len() == 18 * s.len(),
        forall|k: int| 0 <= k < s.len() ==> block_bytes(s).subrange(18 * k, 18 * k + 18) == entry_bytes(#[trigger] s[k]),
    decreases s.len(),
{
    if s.len() > 0 {
        let p = s.drop_last();
        assert forall|k: int| 0 <= k < p.len() implies (#[trigger] p[k]).0.len() == 9 by {
            assert(p[k] == s[k]);
        }
        lemma_block_bytes(p);
        let bp = block_bytes(p);
        let e = entry_bytes(s.last());
        assert(s.last() == s[s.len() - 1]);
        assert(e.len() == 18);
        assert forall|k: int| 0 <= k < s.len() implies block_bytes(s).subrange(18 * k, 18 * k + 18) == entry_bytes(
            #[trigger] s[k],
        ) by {
            if k < p.len() {
                assert(p[k] == s[k]);
                assert((bp + e).subrange(18 * k, 18 * k + 18) =~= bp.subrange(18 * k, 18 * k + 18));
            } else {
                assert((bp + e).subrange(18 * k, 18 * k + 18) =~= e);
            }
        }
    }
}

/// The layout of an index file holding `kept` (keys of 9 bytes): its
/// length is the 0x28 header bytes, 18 per entry and at least 0x7800 update
/// bytes rounded up to 64 KiB; bytes 8..16 start the header (version 7,
/// the bucket, 4 size, 5 offset and 9 key bytes, 30 offset bits); the
/// little-endian `u32` at 0x20 is the entries' byte count; from 0x28 each
/// entry takes its 18 bytes (key, big-endian 5-byte storage offset,
/// little-endian size) in order; everything after them is zero.
pub proof fn lemma_idx_file_layout(bucket: u8, kept: Seq<IdxModel>)
    requires
        forall|k: int| 0 <= k < kept.len() ==> (#[trigger] kept[k]).0.len() == 9,
        18 * kept.len() <= u32::MAX,
    ensures
        ({
            let f = idx_file(bucket, kept);
            let n: int = 18 * (kept.len() as int);
            &&& f.len() == padded_len(0x28 + n)
            &&& f.subrange(8, 16) == seq![7u8, 0, bucket, 0, 4, 5, 9, 30]
            &&& crate::bytes::le_value(f.subrange(0x20, 0x24)) == n
            &&& forall|k: int| 0 <= k < kept.len() ==> f.subrange(0x28 + 18 * k, 0x28 + 18 * k + 18) == entry_bytes(
                #[trigger] kept[k],
            )
            &&& forall|i: int| 0x28 + n <= i < f.len() ==> f[i] == 0
        }),
{
    lemma_block_bytes(kept);
    let n: int = 18 * (kept.len() as int);
    let body = idx_body(bucket, kept);
    let pre = le_bytes_u32(16) + le_bytes_u32(spec_hashlittle(idx_header(bucket), 0)) + idx_header(bucket) + Seq::new(
        8,
        |i: int| 0u8,
    ) + le_bytes_u32(n as u32) + le_bytes_u32(block_hash(kept).0);
    assert(body =~= pre + block_bytes(kept));
    assert(pre.len() == 0x28);
    let f = idx_file(bucket, kept);
    let pad = Seq::new((padded_len(body.len() as int) - body.len()) as nat, |i: int| 0u8);
    assert(padded_len(body.len() as int) >= body.len());
    assert(f == body + pad);
    assert(f.subrange(8, 16) =~= seq![7u8, 0, bucket, 0, 4, 5, 9, 30]);
    assert(f.subrange(0x20, 0x24) =~= le_bytes_u32(n as u32));
    crate::bytes::lemma_le_bytes_value(n as u32);
    assert forall|k: int| 0 <= k < kept.len() implies f.subrange(0x28 + 18 * k, 0x28 + 18 * k + 18) == entry_bytes(
        #[trigger] kept[k],
    ) by {
        assert(f.subrange(0x28 + 18 * k, 0x28 + 18 * k + 18) =~= block_bytes(kept).subrange(18 * k, 18 * k + 18));
    }
    assert forall|i: int| 0x28 + n <= i < f.len() implies f[i] == 0 by {
        assert(f[i] == pad[i - body.len()]);
    }
}

/// Some entry of `s` has key `k`.
pub open spec fn has_key_in(s: Seq<IdxModel>, k: Seq<u8>) -> bool {
    exists|p: int| 0 <= p < s.len() && (#[trigger] s[p]).0 == k
}

/// The index file [`build`] writes, in terms of its input: it holds one
/// record per distinct input key (the kept keys are exactly the input keys,
/// in strictly increasing order), laid out as [`lemma_idx_file_layout`]
/// says, so with `d` distinct keys its length is `0x28 + 18 * d` plus the
/// update section rounded up to 64 KiB and the `u32` at 0x20 is `18 * d`.
pub proof fn lemma_idx_build_layout(bucket: u8, input: Seq<IdxModel>, kept: Seq<IdxModel>)
    requires
        canonical(input, kept),
        forall|p: int| 0 <= p < input.len() ==> (#[trigger] input[p]).0.len() == 9,
        18 * kept.len() <= u32::MAX,
    ensures
        forall|k: Seq<u8>| #[trigger] has_key_in(input, k) <==> has_key_in(kept, k),
        forall|i: int, j: int| 0 <= i < j < kept.len() ==> bytes_lt(#[trigger] kept[i].0, #[trigger] kept[j].0),
        ({
            let f = idx_file(bucket, kept);
            let n: int = 18 * (kept.len() as int);
            &&& f.len() == padded_len(0x28 + n)
            &&& f.subrange(8, 16) == seq![7u8, 0, bucket, 0, 4, 5, 9, 30]
            &&& crate::bytes::le_value(f.subrange(0x20, 0x24)) == n
            &&& forall|k: int| 0 <= k < kept.len() ==> f.subrange(0x28 + 18 * k, 0x28 + 18 * k + 18) == entry_bytes(
                #[trigger] kept[k],
            )
            &&& forall|i: int| 0x28 + n <= i < f.len() ==> f[i] == 0
        }),
{
    assert forall|j: int| 0 <= j < kept.len() implies (#[trigger] kept[j]).0.len() == 9 by {
        assert(input.contains(kept[j]));
        let p = choose|p: int| 0 <= p < input.len() && input[p] == kept[j];
        assert(input[p].0.len() == 9);
    }
    lemma_idx_file_layout(bucket, kept);
    assert forall|k: Seq<u8>| #[trigger] has_key_in(input, k) <==> has_key_in(kept, k) by {
        if exists|p: int| 0 <= p < input.len() && (#[trigger] input[p]).0 == k {
            let p = choose|p: int| 0 <= p < input.len() && (#[trigger] input[p]).0 == k;
            assert(covered(input, kept, p));
        }
        if exists|j: int| 0 <= j < kept.len() && (#[trigger] kept[j]).0 == k {
            let j = choose|j: int| 0 <= j < kept.len() && (#[trigger] kept[j]).0 == k;
            assert(input.contains(kept[j]));
            let p = choose|p: int| 0 <= p < input.len() && input[p] == kept[j];
            assert(input[p].0 == k);
        }
    }
}

} // verus!
