//! CDN archive indices (`data/xx/yy/<archive>.index`, also the `file-index`):
//! 4 KiB-style blocks of `{EKey, u32 BE size, u32 BE offset}` entries, a
//! table of contents (last key of each block, then the first 8 bytes of each
//! block's MD5) and a 28-byte footer `{toc hash[8], version = 1, 0, 0, block
//! size KiB, offset bytes, size bytes, key bytes, checksum bytes = 8, u32 LE
//! entry count, footer hash[8]}`.
//!
//! Checked like the Agent: the footer hash is `MD5(footer[8..20] + 8 zero
//! bytes)[..8]`, the archive name is `MD5(footer)`, every block matches its
//! table-of-contents hash.

use vstd::prelude::*;
use crate::bytes::{all_zero, be_value, is_zero_key, key_at, le_value, prefix_eq, read_u32_le, lemma_be_value_bound, byte_bound};
use crate::client::util::{Key, be_uint, md5, md5_digest};

verus! {

const FOOTER_SIZE: usize = 28;

/// One entry of an archive index.
#[derive(Debug, Clone, Copy, PartialEq, Eq)]
pub struct IndexEntry {
    pub ekey: Key,
    pub size: u32,
    /// Offset in the archive; 0 for a `file-index` (offset bytes = 0).
    pub offset: u32,
}

/// Why an index file is refused.
#[derive(Debug, Clone, Copy, PartialEq, Eq)]
pub enum IndexError {
    /// Shorter than its footer.
    TooShort,
    /// The footer does not hash to its own checksum.
    FooterChecksum,
    /// The footer does not hash to the archive name.
    WrongName,
    /// Not version 1 with 16-byte keys and 8-byte checksums.
    UnsupportedVersion,
    /// Size field not 4 bytes or offset field wider than 4 bytes.
    UnsupportedWidths,
    /// The body is not a whole number of blocks with their table of contents.
    BlockLayout,
    /// Block `b` does not match its table-of-contents hash.
    BlockChecksum(usize),
    /// The blocks hold another number of entries than the footer says.
    CountMismatch,
}

/// An entry as plain values: `(EKey, size, offset)`.
pub type EntryModel = (Seq<u8>, u32, u32);

/// The model of an index entry.
pub open spec fn entry_view(e: IndexEntry) -> EntryModel {
    (e.ekey@, e.size, e.offset)
}

/// The models of a list of entries.
pub open spec fn entries_view(v: Seq<IndexEntry>) -> Seq<EntryModel> {
    v.map_values(|e: IndexEntry| entry_view(e))
}

/// The entry encoded by the `elen` bytes `e` (`EKey`, 4-byte size, then the
/// offset bytes).
pub open spec fn entry_of(e: Seq<u8>, elen: int) -> EntryModel {
    (e.subrange(0, 16), be_value(e.subrange(16, 20)) as u32, be_value(e.subrange(20, elen)) as u32)
}

/// Entries of one block from byte `p` on: stops after `room` entries, at
/// the first all-zero key, or when no whole entry is left.
pub open spec fn page_entries(page: Seq<u8>, elen: int, p: int, room: int) -> Seq<EntryModel>
    decreases page.len() - p,
{
    if elen <= 0 || p < 0 || room <= 0 || p + elen > page.len() {
        Seq::empty()
    } else {
        let e = page.subrange(p, p + elen);
        if all_zero(e.subrange(0, 16)) {
            Seq::empty()
        } else {
            seq![entry_of(e, elen)] + page_entries(page, elen, p + elen, room - 1)
        }
    }
}

/// Block `b` of the body.
pub open spec fn block_of(data: Seq<u8>, block: int, b: int) -> Seq<u8> {
    data.subrange(b * block, (b + 1) * block)
}

/// The 8-byte table-of-contents hash of block `b`.
pub open spec fn toc_hash(data: Seq<u8>, hashes_at: int, b: int) -> Seq<u8> {
    data.subrange(hashes_at + b * 8, hashes_at + b * 8 + 8)
}

/// Blocks `b..nblocks`, appended to `acc`: each must match its hash.
pub open spec fn blocks_spec(
    data: Seq<u8>,
    block: int,
    nblocks: int,
    hashes_at: int,
    elen: int,
    count: int,
    b: int,
    acc: Seq<EntryModel>,
) -> Result<Seq<EntryModel>, IndexError>
    decreases nblocks - b,
{
    if b >= nblocks || b < 0 || elen <= 0 {
        Ok(acc)
    } else if md5_digest(block_of(data, block, b)).subrange(0, 8) != toc_hash(data, hashes_at, b) {
        Err(IndexError::BlockChecksum(b as usize))
    } else {
        blocks_spec(
            data,
            block,
            nblocks,
            hashes_at,
            elen,
            count,
            b + 1,
            acc + page_entries(block_of(data, block, b), elen, 0, count - acc.len()),
        )
    }
}

/// The footer of `data`.
pub open spec fn footer_of(data: Seq<u8>) -> Seq<u8> {
    data.subrange(data.len() - 28, data.len() as int)
}

/// Whether the footer's own checksum is right.
pub open spec fn footer_checksum_ok(f: Seq<u8>) -> bool {
    md5_digest(f.subrange(8, 20) + Seq::new(8, |i: int| 0u8)).subrange(0, 8) == f.subrange(20, 28)
}

/// What [`parse`] returns for `data` and the optional archive name.
pub open spec fn spec_parse(data: Seq<u8>, name: Option<Seq<u8>>) -> Result<Seq<EntryModel>, IndexError> {
    if data.len() < 28 {
        Err(IndexError::TooShort)
    } else {
        let f = footer_of(data);
        let (version, block_kb, offset_bytes, size_bytes, key_bytes, checksum_bytes) = (
            f[8],
            f[11] as int,
            f[12] as int,
            f[13] as int,
            f[14] as int,
            f[15] as int,
        );
        let count = le_value(f.subrange(16, 20)) as int;
        let block = block_kb * 1024;
        let body = data.len() - 28;
        let per_block = block + key_bytes + checksum_bytes;
        if !footer_checksum_ok(f) {
            Err(IndexError::FooterChecksum)
        } else if name is Some && md5_digest(f) != name.unwrap() {
            Err(IndexError::WrongName)
        } else if !(version == 1 && key_bytes == 16 && checksum_bytes == 8) {
            Err(IndexError::UnsupportedVersion)
        } else if !(size_bytes == 4 && offset_bytes <= 4) {
            Err(IndexError::UnsupportedWidths)
        } else if !(block > 0 && body % per_block == 0) {
            Err(IndexError::BlockLayout)
        } else {
            let nblocks = body / per_block;
            let hashes_at = nblocks * block + nblocks * key_bytes;
            match blocks_spec(data, block, nblocks, hashes_at, 20 + offset_bytes, count, 0, Seq::empty()) {
                Err(e) => Err(e),
                Ok(entries) => if entries.len() == count {
                    Ok(entries)
                } else {
                    Err(IndexError::CountMismatch)
                },
            }
        }
    }
}

/// The result of [`parse`] as plain values.
pub open spec fn result_view(r: Result<Vec<IndexEntry>, IndexError>) -> Result<Seq<EntryModel>, IndexError> {
    match r {
        Ok(v) => Ok(entries_view(v@)),
        Err(e) => Err(e),
    }
}

proof fn lemma_page_entries_len(page: Seq<u8>, elen: int, p: int, room: int)
    ensures
        page_entries(page, elen, p, room).len() <= if room < 0 { 0 } else { room },
    decreases page.len() - p,
{
    if elen <= 0 || p < 0 || room <= 0 || p + elen > page.len() {
    } else {
        let e = page.subrange(p, p + elen);
        if !all_zero(e.subrange(0, 16)) {
            lemma_page_entries_len(page, elen, p + elen, room - 1);
        }
    }
}

proof fn lemma_be4(s: Seq<u8>)
    requires
        s.len() <= 4,
    ensures
        be_value(s) < 0x1_0000_0000,
{
    lemma_be_value_bound(s);
    lemma_byte_bound_le4(s.len());
}

proof fn lemma_byte_bound_le4(n: nat)
    requires
        n <= 4,
    ensures
        byte_bound(n) <= 0x1_0000_0000,
{
    reveal_with_fuel(byte_bound, 5);
    if n < 4 {
        crate::client::util::lemma_byte_bound_monotone(n, 4);
    }
}

/// Reads the entries of one block into `out`.
fn read_page(
    data: &[u8],
    start: usize,
    block: usize,
    elen: usize,
    count: usize,
    out: &mut Vec<IndexEntry>,
)
    requires
        elen >= 20,
        elen <= 24,
        start + block <= data@.len(),
        old(out)@.len() <= count,
    ensures
        entries_view(final(out)@) == entries_view(old(out)@) + page_entries(
            data@.subrange(start as int, start + block),
            elen as int,
            0,
            count - old(out)@.len(),
        ),
        final(out)@.len() <= count,
{
    let ghost page = data@.subrange(start as int, start + block);
    let ghost base = entries_view(out@);
    let ghost room0 = count - out@.len();
    let n = data.len();
    let mut q: usize = 0;
    loop
        invariant
            elen >= 20,
            elen <= 24,
            n == data@.len(),
            start + block <= data@.len(),
            q <= block,
            out@.len() <= count,
            base + page_entries(page, elen as int, 0, room0)
                == entries_view(out@) + page_entries(page, elen as int, q as int, count - out@.len()),
            page == data@.subrange(start as int, start + block),
        ensures
            entries_view(out@) == base + page_entries(page, elen as int, 0, room0),
            out@.len() <= count,
        decreases block - q,
    {
        if out.len() == count || elen > block - q {
            assert(page_entries(page, elen as int, q as int, count - out@.len()) =~= Seq::<EntryModel>::empty());
            assert(entries_view(out@) + Seq::<EntryModel>::empty() =~= entries_view(out@));
            break;
        }
        let pos = start + q;
        let ghost e = page.subrange(q as int, q + elen);
        assert(data@.subrange(pos as int, pos + 16) =~= e.subrange(0, 16));
        if is_zero_key(data, pos) {
            assert(page_entries(page, elen as int, q as int, count - out@.len()) =~= Seq::<EntryModel>::empty());
            assert(entries_view(out@) + Seq::<EntryModel>::empty() =~= entries_view(out@));
            break;
        }
        let ekey = key_at(data, pos);
        let size = be_uint(&data[pos + 16..pos + 20]);
        let offset = be_uint(&data[pos + 20..pos + elen]);
        proof {
            assert(data@.subrange(pos + 16, pos + 20) =~= e.subrange(16, 20));
            assert(data@.subrange(pos + 20, pos + elen) =~= e.subrange(20, elen as int));
            lemma_be4(e.subrange(16, 20));
            lemma_be4(e.subrange(20, elen as int));
        }
        let entry = IndexEntry { ekey, size: size as u32, offset: offset as u32 };
        assert(entry_view(entry) == entry_of(e, elen as int));
        let ghost before = entries_view(out@);
        let ghost rest = page_entries(page, elen as int, q + elen, count - out@.len() - 1);
        out.push(entry);
        assert(entries_view(out@) =~= before.push(entry_view(entry)));
        assert(before + (seq![entry_view(entry)] + rest) =~= before.push(entry_view(entry)) + rest);
        q += elen;
    }
}

/// Parses an index file. `name` is the archive key the file must hash to.
#[verifier::loop_isolation(false)]
pub fn parse(data: &[u8], name: Option<&Key>) -> (r: Result<Vec<IndexEntry>, IndexError>)
    ensures
        result_view(r) == spec_parse(
            data@,
            match name {
                Some(k) => Some(k@),
                None => None,
            },
        ),
{
    let len = data.len();
    if len < FOOTER_SIZE {
        return Err(IndexError::TooShort);
    }
    let footer = &data[len - FOOTER_SIZE..len];
    assert(footer@ =~= footer_of(data@));
    let mut check: Vec<u8> = Vec::new();
    let mut i: usize = 8;
    while i < 20
        invariant
            8 <= i <= 20,
            footer@.len() == 28,
            check@ == footer@.subrange(8, i as int),
        decreases 20 - i,
    {
        check.push(footer[i]);
        i += 1;
        assert(check@ =~= footer@.subrange(8, i as int));
    }
    let mut i: usize = 0;
    while i < 8
        invariant
            i <= 8,
            footer@.len() == 28,
            check@ == footer@.subrange(8, 20) + Seq::new(i as nat, |k: int| 0u8),
        decreases 8 - i,
    {
        check.push(0);
        i += 1;
        assert(check@ =~= footer@.subrange(8, 20) + Seq::new(i as nat, |k: int| 0u8));
    }
    let digest = md5(check.as_slice());
    if !prefix_eq(&digest, &footer[20..28], 8) {
        proof {
            assert(digest@.subrange(0, 8) =~= md5_digest(check@).subrange(0, 8));
            assert(footer@.subrange(20, 28).subrange(0, 8) =~= footer@.subrange(20, 28));
        }
        return Err(IndexError::FooterChecksum);
    }
    proof {
        assert(footer@.subrange(20, 28).subrange(0, 8) =~= footer@.subrange(20, 28));
    }
    if let Some(n) = name {
        let h = md5(footer);
        if !prefix_eq(&h, n, 16) {
            proof {
                assert(h@.subrange(0, 16) =~= h@);
                assert(n@.subrange(0, 16) =~= n@);
            }
            return Err(IndexError::WrongName);
        }
        proof {
            assert(h@.subrange(0, 16) =~= h@);
            assert(n@.subrange(0, 16) =~= n@);
        }
    }
    let version = footer[8];
    let block_kb = footer[11] as usize;
    let offset_bytes = footer[12] as usize;
    let size_bytes = footer[13] as usize;
    let key_bytes = footer[14] as usize;
    let checksum_bytes = footer[15] as usize;
    if !(version == 1 && key_bytes == 16 && checksum_bytes == 8) {
        return Err(IndexError::UnsupportedVersion);
    }
    if !(size_bytes == 4 && offset_bytes <= 4) {
        return Err(IndexError::UnsupportedWidths);
    }
    let count = read_u32_le(footer, 16) as usize;
    let block = block_kb * 1024;
    let body = len - FOOTER_SIZE;
    let per_block = block + key_bytes + checksum_bytes;
    if !(block > 0 && body % per_block == 0) {
        return Err(IndexError::BlockLayout);
    }
    let blocks = body / per_block;
    proof {
        assert(body == blocks * per_block) by (nonlinear_arith)
            requires body % per_block == 0, blocks == body / per_block, per_block > 0;
        assert(blocks * block + blocks * 16 + blocks * 8 == blocks * per_block) by (nonlinear_arith)
            requires per_block == block + 24;
        assert(blocks * block >= 0 && blocks * 16 >= 0) by (nonlinear_arith)
            requires block > 0;
    }
    let hashes_at = blocks * block + blocks * key_bytes;
    let elen = 20 + offset_bytes;
    let mut out: Vec<IndexEntry> = Vec::new();
    assert(entries_view(out@) =~= Seq::<EntryModel>::empty());
    let mut b: usize = 0;
    while b < blocks
        invariant
            b <= blocks,
            body == blocks * per_block,
            per_block == block + 24,
            block > 0,
            body + 28 == data@.len(),
            hashes_at == blocks * block + blocks * 16,
            blocks * block + blocks * 16 + blocks * 8 == body,
            20 <= elen <= 24,
            out@.len() <= count,
            blocks_spec(data@, block as int, blocks as int, hashes_at as int, elen as int, count as int, 0, Seq::empty())
                == blocks_spec(data@, block as int, blocks as int, hashes_at as int, elen as int, count as int, b as int, entries_view(out@)),
        decreases blocks - b,
    {
        proof {
            assert((b + 1) * block <= blocks * block) by (nonlinear_arith)
                requires b < blocks, block > 0;
            assert(hashes_at + b * 8 + 8 <= hashes_at + blocks * 8) by (nonlinear_arith)
                requires b < blocks;
            assert((b + 1) * block == b * block + block) by (nonlinear_arith);
            assert(b * 8 + 8 <= blocks * 8);
        }
        let start = b * block;
        let page = &data[start..start + block];
        let ph = md5(page);
        let toc = &data[hashes_at + b * 8..hashes_at + b * 8 + 8];
        if !prefix_eq(&ph, toc, 8) {
            proof {
                assert(toc@.subrange(0, 8) =~= toc@);
                assert(page@ =~= block_of(data@, block as int, b as int));
                assert(toc@ =~= toc_hash(data@, hashes_at as int, b as int));
                assert(md5_digest(block_of(data@, block as int, b as int)).subrange(0, 8) != toc_hash(data@, hashes_at as int, b as int));
                assert(blocks_spec(data@, block as int, blocks as int, hashes_at as int, elen as int, count as int, b as int, entries_view(out@))
                    == Err::<Seq<EntryModel>, IndexError>(IndexError::BlockChecksum(b)));
            }
            return Err(IndexError::BlockChecksum(b));
        }
        proof {
            assert(toc@.subrange(0, 8) =~= toc@);
            assert(page@ =~= block_of(data@, block as int, b as int));
            assert(toc@ =~= toc_hash(data@, hashes_at as int, b as int));
        }
        read_page(data, start, block, elen, count, &mut out);
        b += 1;
    }
    if out.len() != count {
        return Err(IndexError::CountMismatch);
    }
    Ok(out)
}

/// `x` as four big-endian bytes.
pub open spec fn be4(x: u32) -> Seq<u8> {
    seq![(x / 0x100_0000) as u8, ((x / 0x1_0000) % 0x100) as u8, ((x / 0x100) % 0x100) as u8, (x % 0x100) as u8]
}

/// The 24 bytes of an entry: key, big-endian size, big-endian offset.
pub open spec fn entry_bytes(e: EntryModel) -> Seq<u8> {
    e.0 + be4(e.1) + be4(e.2)
}

/// `s` cut or zero-padded to `n` bytes (`Vec::resize` with 0).
pub open spec fn resized(s: Seq<u8>, n: int) -> Seq<u8> {
    if s.len() >= n {
        s.take(n)
    } else {
        s + Seq::new((n - s.len()) as nat, |i: int| 0u8)
    }
}

/// Sixteen zero bytes.
pub open spec fn zero_key() -> Seq<u8> {
    Seq::new(16, |i: int| 0u8)
}

/// The packing of entries into blocks of `block` bytes: the finished
/// blocks, their last keys, the open block and the last key. An entry that
/// would not fit closes the open block (zero-padded) first.
pub open spec fn pack(es: Seq<EntryModel>, block: int) -> (Seq<Seq<u8>>, Seq<Seq<u8>>, Seq<u8>, Seq<u8>)
    decreases es.len(),
{
    if es.len() == 0 {
        (Seq::empty(), Seq::empty(), Seq::empty(), zero_key())
    } else {
        let (bs, ks, cur, last) = pack(es.drop_last(), block);
        let e = es.last();
        if cur.len() + 24 > block {
            (bs.push(resized(cur, block)), ks.push(last), entry_bytes(e), e.0)
        } else {
            (bs, ks, cur + entry_bytes(e), e.0)
        }
    }
}

/// The blocks of an index and their last keys.
pub open spec fn index_blocks(es: Seq<EntryModel>, block: int) -> (Seq<Seq<u8>>, Seq<Seq<u8>>) {
    let (bs, ks, cur, last) = pack(es, block);
    (bs.push(resized(cur, block)), ks.push(last))
}

/// The first 8 bytes of a block's MD5.
pub open spec fn block_hash(b: Seq<u8>) -> Seq<u8> {
    md5_digest(b).subrange(0, 8)
}

/// The 8-byte hashes of blocks.
pub open spec fn block_hashes(bs: Seq<Seq<u8>>) -> Seq<Seq<u8>> {
    bs.map_values(|b: Seq<u8>| block_hash(b))
}

/// The table of contents: the last keys, then the block hashes.
pub open spec fn toc_of(es: Seq<EntryModel>, block: int) -> Seq<u8> {
    let (bs, ks) = index_blocks(es, block);
    ks.flatten() + block_hashes(bs).flatten()
}

/// The footer before its own checksum: TOC hash, version 1, block size,
/// field widths (4, 4, 16, 8) and the entry count (little-endian).
pub open spec fn footer_head(es: Seq<EntryModel>, block_kb: u8) -> Seq<u8> {
    md5_digest(toc_of(es, block_kb * 1024)).subrange(0, 8) + seq![1u8, 0u8, 0u8, block_kb, 4u8, 4u8, 16u8, 8u8]
        + crate::bytes::le_bytes_u32(es.len() as u32)
}

/// The whole footer: its head and the checksum of bytes 8..20 with eight
/// zero bytes.
pub open spec fn footer_spec(es: Seq<EntryModel>, block_kb: u8) -> Seq<u8> {
    let h = footer_head(es, block_kb);
    h + md5_digest(h.subrange(8, 20) + Seq::new(8, |i: int| 0u8)).subrange(0, 8)
}

/// The index file of `es` with blocks of `block_kb` KiB, and its archive
/// name (the footer's MD5).
pub open spec fn spec_build(es: Seq<EntryModel>, block_kb: u8) -> (Seq<u8>, Seq<u8>) {
    let (bs, ks) = index_blocks(es, block_kb * 1024);
    let f = footer_spec(es, block_kb);
    (bs.flatten() + toc_of(es, block_kb * 1024) + f, md5_digest(f))
}

fn push_be4(out: &mut Vec<u8>, x: u32)
    ensures
        final(out)@ == old(out)@ + be4(x),
{
    out.push((x / 0x100_0000) as u8);
    out.push(((x / 0x1_0000) % 0x100) as u8);
    out.push(((x / 0x100) % 0x100) as u8);
    out.push((x % 0x100) as u8);
    assert(final(out)@ =~= old(out)@ + be4(x));
}

fn resize_zero(v: &mut Vec<u8>, n: usize)
    ensures
        final(v)@ == resized(old(v)@, n as int),
{
    if v.len() >= n {
        v.truncate(n);
        assert(v@ =~= resized(old(v)@, n as int));
    } else {
        while v.len() < n
            invariant
                old(v)@.len() < n,
                old(v)@.len() <= v@.len() <= n,
                v@ == old(v)@ + Seq::new((v@.len() - old(v)@.len()) as nat, |i: int| 0u8),
            decreases n - v@.len(),
        {
            let ghost before = v@;
            v.push(0);
            assert(v@ =~= old(v)@ + Seq::new((v@.len() - old(v)@.len()) as nat, |i: int| 0u8));
        }
        assert(v@ =~= resized(old(v)@, n as int));
    }
}

/// The views of byte vectors.
pub open spec fn bytes_views(v: Seq<Vec<u8>>) -> Seq<Seq<u8>> {
    v.map_values(|b: Vec<u8>| b@)
}

/// The views of keys.
pub open spec fn keys_views(v: Seq<Key>) -> Seq<Seq<u8>> {
    v.map_values(|k: Key| k@)
}

/// Writes an archive index of `entries` with blocks of `block_kb` KiB and
/// returns it with its archive name.
pub fn build(entries: &[IndexEntry], block_kb: u8) -> (r: (Vec<u8>, Key))
    ensures
        r.0@ == spec_build(entries_view(entries@), block_kb).0,
        r.1@ == spec_build(entries_view(entries@), block_kb).1,
        digests_known(entries_view(entries@), block_kb),
{
    let ghost es = entries_view(entries@);
    let block = block_kb as usize * 1024;
    let mut blocks: Vec<Vec<u8>> = Vec::new();
    let mut last_keys: Vec<Key> = Vec::new();
    let mut current: Vec<u8> = Vec::new();
    let mut last: Key = [0u8; 16];
    assert(last@ =~= zero_key());
    let mut i: usize = 0;
    while i < entries.len()
        invariant
            i <= entries@.len(),
            block == block_kb * 1024,
            es == entries_view(entries@),
            (bytes_views(blocks@), keys_views(last_keys@), current@, last@) == pack(es.take(i as int), block as int),
        decreases entries@.len() - i,
    {
        let e = entries[i];
        proof {
            assert(es.take(i + 1).drop_last() =~= es.take(i as int));
            assert(es.take(i + 1).last() == entry_view(e));
        }
        let ghost cur0 = current@;
        if current.len() + 24 > block {
            resize_zero(&mut current, block);
            let ghost b0 = bytes_views(blocks@);
            let ghost k0 = keys_views(last_keys@);
            blocks.push(current);
            last_keys.push(last);
            assert(bytes_views(blocks@) =~= b0.push(resized(cur0, block as int)));
            assert(keys_views(last_keys@) =~= k0.push(last@));
            current = Vec::new();
        }
        let ghost before = current@;
        crate::bytes::push_all(&mut current, &e.ekey);
        push_be4(&mut current, e.size);
        push_be4(&mut current, e.offset);
        assert(current@ =~= before + entry_bytes(entry_view(e)));
        last = e.ekey;
        i += 1;
    }
    assert(es.take(i as int) =~= es);
    resize_zero(&mut current, block);
    let ghost b0 = bytes_views(blocks@);
    let ghost k0 = keys_views(last_keys@);
    blocks.push(current);
    last_keys.push(last);
    assert(bytes_views(blocks@) =~= b0.push(resized(pack(es, block as int).2, block as int)));
    assert(keys_views(last_keys@) =~= k0.push(last@));
    let ghost bv = bytes_views(blocks@);
    let ghost kv = keys_views(last_keys@);
    assert((bv, kv) == index_blocks(es, block as int));
    let mut out: Vec<u8> = Vec::new();
    let mut b: usize = 0;
    while b < blocks.len()
        invariant
            b <= blocks@.len(),
            bv == bytes_views(blocks@),
            out@ == bv.take(b as int).flatten(),
        decreases blocks@.len() - b,
    {
        crate::bytes::push_all(&mut out, blocks[b].as_slice());
        assert(bv.take(b + 1) =~= bv.take(b as int).push(blocks@[b as int]@));
        proof {
            bv.take(b as int).lemma_flatten_push(blocks@[b as int]@);
        }
        b += 1;
    }
    assert(bv.take(b as int) =~= bv);
    let mut toc: Vec<u8> = Vec::new();
    let mut k: usize = 0;
    while k < last_keys.len()
        invariant
            k <= last_keys@.len(),
            kv == keys_views(last_keys@),
            toc@ == kv.take(k as int).flatten(),
        decreases last_keys@.len() - k,
    {
        crate::bytes::push_all(&mut toc, &last_keys[k]);
        assert(kv.take(k + 1) =~= kv.take(k as int).push(last_keys@[k as int]@));
        proof {
            kv.take(k as int).lemma_flatten_push(last_keys@[k as int]@);
        }
        k += 1;
    }
    assert(kv.take(k as int) =~= kv);
    let ghost hv = block_hashes(bv);
    let ghost keys_part = toc@;
    let mut h: usize = 0;
    while h < blocks.len()
        invariant
            h <= blocks@.len(),
            bv == bytes_views(blocks@),
            hv == block_hashes(bv),
            toc@ == keys_part + hv.take(h as int).flatten(),
            forall|j: int| 0 <= j < h ==> (#[trigger] md5_digest(bv[j])).len() == 16,
        decreases blocks@.len() - h,
    {
        let d = md5(blocks[h].as_slice());
        crate::bytes::push_all(&mut toc, &d[0..8]);
        assert(d@.subrange(0, 8) == hv[h as int]);
        assert(hv.take(h + 1) =~= hv.take(h as int).push(hv[h as int]));
        proof {
            hv.take(h as int).lemma_flatten_push(hv[h as int]);
        }
        assert(toc@ =~= keys_part + hv.take(h + 1).flatten());
        h += 1;
    }
    assert(hv.take(h as int) =~= hv);
    assert(toc@ == toc_of(es, block as int));
    crate::bytes::push_all(&mut out, toc.as_slice());
    let th = md5(toc.as_slice());
    let mut footer: Vec<u8> = Vec::new();
    crate::bytes::push_all(&mut footer, &th[0..8]);
    let fixed: [u8; 8] = [1, 0, 0, block_kb, 4, 4, 16, 8];
    crate::bytes::push_all(&mut footer, &fixed);
    crate::bytes::push_u32_le(&mut footer, entries.len() as u32);
    assert(entries@.len() == es.len());
    assert(footer@ =~= footer_head(es, block_kb));
    let mut check: Vec<u8> = Vec::new();
    crate::bytes::push_all(&mut check, &footer[8..20]);
    let zeros: [u8; 8] = [0; 8];
    crate::bytes::push_all(&mut check, &zeros);
    assert(check@ =~= footer@.subrange(8, 20) + Seq::new(8, |i: int| 0u8));
    assert(check@ =~= footer@.subrange(8, 20) + zeros8());
    let ch = md5(check.as_slice());
    crate::bytes::push_all(&mut footer, &ch[0..8]);
    assert(footer@ =~= footer_spec(es, block_kb));
    crate::bytes::push_all(&mut out, footer.as_slice());
    let name = md5(footer.as_slice());
    (out, name)
}

/// The bytes of a run of entries, one after the other.
pub open spec fn run_bytes(g: Seq<EntryModel>) -> Seq<u8>
    decreases g.len(),
{
    if g.len() == 0 {
        Seq::empty()
    } else {
        run_bytes(g.drop_last()) + entry_bytes(g.last())
    }
}

/// The entries of each block, as [`pack`] places them: the closed blocks'
/// runs and the open one.
pub open spec fn pack_groups(es: Seq<EntryModel>, block: int) -> (Seq<Seq<EntryModel>>, Seq<EntryModel>)
    decreases es.len(),
{
    if es.len() == 0 {
        (Seq::empty(), Seq::empty())
    } else {
        let (gs, open) = pack_groups(es.drop_last(), block);
        if 24 * open.len() + 24 > block {
            (gs.push(open), seq![es.last()])
        } else {
            (gs, open.push(es.last()))
        }
    }
}

/// Keys of 16 bytes that are not all zero.
pub open spec fn keys_ok(es: Seq<EntryModel>) -> bool {
    forall|i: int| 0 <= i < es.len() ==> (#[trigger] es[i]).0.len() == 16 && !all_zero(es[i].0)
}

proof fn lemma_run_bytes_len(g: Seq<EntryModel>)
    requires
        forall|i: int| 0 <= i < g.len() ==> (#[trigger] g[i]).0.len() == 16,
    ensures
        run_bytes(g).len() == 24 * g.len(),
    decreases g.len(),
{
    if g.len() > 0 {
        lemma_run_bytes_len(g.drop_last());
    }
}

proof fn lemma_run_bytes_at(g: Seq<EntryModel>, j: int)
    requires
        forall|i: int| 0 <= i < g.len() ==> (#[trigger] g[i]).0.len() == 16,
        0 <= j < g.len(),
    ensures
        run_bytes(g).subrange(24 * j, 24 * j + 24) == entry_bytes(g[j]),
    decreases g.len(),
{
    lemma_run_bytes_len(g.drop_last());
    let a = run_bytes(g.drop_last());
    let b = entry_bytes(g.last());
    if j < g.len() - 1 {
        lemma_run_bytes_at(g.drop_last(), j);
        assert((a + b).subrange(24 * j, 24 * j + 24) =~= a.subrange(24 * j, 24 * j + 24));
    } else {
        assert((a + b).subrange(24 * j, 24 * j + 24) =~= b);
    }
}

proof fn lemma_be4_value(x: u32)
    ensures
        be_value(be4(x)) == x,
{
    let s = be4(x);
    reveal_with_fuel(be_value, 5);
    assert(s.drop_last().drop_last().drop_last().drop_last() =~= Seq::<u8>::empty());
    assert(s.drop_last().drop_last().drop_last() =~= seq![s[0]]);
    assert(s.drop_last().drop_last() =~= seq![s[0], s[1]]);
    assert(s.drop_last() =~= seq![s[0], s[1], s[2]]);
    let a = (x / 0x100_0000) as int;
    let b = ((x / 0x1_0000) % 0x100) as int;
    let c = ((x / 0x100) % 0x100) as int;
    let d = (x % 0x100) as int;
    assert(((a * 256 + b) * 256 + c) * 256 + d == x as int) by (nonlinear_arith)
        requires
            a == x as int / 0x100_0000,
            b == (x as int / 0x1_0000) % 0x100,
            c == (x as int / 0x100) % 0x100,
            d == x as int % 0x100,
            0 <= x < 0x1_0000_0000,
    {
    }
}

proof fn lemma_entry_round_trip(e: EntryModel)
    requires
        e.0.len() == 16,
    ensures
        entry_of(entry_bytes(e), 24) == e,
        entry_bytes(e).len() == 24,
        entry_bytes(e).subrange(0, 16) == e.0,
{
    let b = entry_bytes(e);
    assert(b.subrange(0, 16) =~= e.0);
    assert(b.subrange(16, 20) =~= be4(e.1));
    assert(b.subrange(20, 24) =~= be4(e.2));
    lemma_be4_value(e.1);
    lemma_be4_value(e.2);
}

/// A block holding run `g` (zero-padded) reads back as `g` from entry `j`
/// on, when there is room for the rest of the run.
proof fn lemma_page_run(g: Seq<EntryModel>, block: int, j: int, room: int)
    requires
        keys_ok(g),
        24 * g.len() <= block,
        0 <= j <= g.len(),
        room >= g.len() - j,
    ensures
        page_entries(resized(run_bytes(g), block), 24, 24 * j, room) == g.subrange(j, g.len() as int),
    decreases g.len() - j,
{
    let page = resized(run_bytes(g), block);
    assert forall|i: int| 0 <= i < g.len() implies (#[trigger] g[i]).0.len() == 16 by {}
    lemma_run_bytes_len(g);
    assert(page.len() == block);
    if j == g.len() {
        if room > 0 && 24 * j + 24 <= page.len() {
            let e = page.subrange(24 * j, 24 * j + 24);
            assert forall|k: int| 0 <= k < 16 implies #[trigger] e.subrange(0, 16)[k] == 0 by {
                assert(e.subrange(0, 16)[k] == page[24 * j + k]);
            }
        }
        assert(g.subrange(j, g.len() as int) =~= Seq::<EntryModel>::empty());
    } else {
        let e = page.subrange(24 * j, 24 * j + 24);
        lemma_run_bytes_at(g, j);
        assert(e =~= run_bytes(g).subrange(24 * j, 24 * j + 24));
        lemma_entry_round_trip(g[j]);
        assert(!all_zero(e.subrange(0, 16)));
        lemma_page_run(g, block, j + 1, room - 1);
        assert(g.subrange(j, g.len() as int) =~= seq![g[j]] + g.subrange(j + 1, g.len() as int));
    }
}

/// The blocks that runs of entries make.
pub open spec fn group_blocks(gs: Seq<Seq<EntryModel>>, block: int) -> Seq<Seq<u8>> {
    gs.map_values(|g: Seq<EntryModel>| resized(run_bytes(g), block))
}

/// The last key of each run.
pub open spec fn group_last_keys(gs: Seq<Seq<EntryModel>>) -> Seq<Seq<u8>> {
    gs.map_values(|g: Seq<EntryModel>| g.last().0)
}

/// Every run fits a block and is not empty.
pub open spec fn runs_fit(gs: Seq<Seq<EntryModel>>, block: int) -> bool {
    forall|i: int| 0 <= i < gs.len() ==> 24 * (#[trigger] gs[i]).len() <= block && gs[i].len() > 0
}

proof fn lemma_pack(es: Seq<EntryModel>, block: int)
    requires
        block >= 24,
        keys_ok(es),
    ensures
        ({
            let (bs, ks, cur, last) = pack(es, block);
            let (gs, open) = pack_groups(es, block);
            &&& bs == group_blocks(gs, block)
            &&& ks == group_last_keys(gs)
            &&& cur == run_bytes(open)
            &&& last == (if es.len() == 0 { zero_key() } else { es.last().0 })
            &&& (es.len() > 0 ==> open.len() > 0 && open.last() == es.last())
            &&& gs.flatten() + open == es
            &&& runs_fit(gs, block)
            &&& 24 * open.len() <= block
            &&& keys_ok(open)
            &&& forall|i: int| 0 <= i < gs.len() ==> keys_ok(#[trigger] gs[i])
        }),
    decreases es.len(),
{
    if es.len() > 0 {
        let p = es.drop_last();
        assert(keys_ok(p)) by {
            assert forall|i: int| 0 <= i < p.len() implies (#[trigger] p[i]).0.len() == 16 && !all_zero(p[i].0) by {
                assert(p[i] == es[i]);
            }
        }
        lemma_pack(p, block);
        let (bs, ks, cur, last) = pack(p, block);
        let (gs, open) = pack_groups(p, block);
        let e = es.last();
        assert(e == es[es.len() - 1]);
        assert forall|i: int| 0 <= i < open.len() implies (#[trigger] open[i]).0.len() == 16 by {}
        lemma_run_bytes_len(open);
        if 24 * open.len() + 24 > block {
            let gs2 = gs.push(open);
            assert(open.len() > 0);
            assert(bs.push(resized(cur, block)) =~= group_blocks(gs2, block));
            assert(ks.push(last) =~= group_last_keys(gs2));
            assert(run_bytes(seq![e]) =~= entry_bytes(e)) by {
                assert(seq![e].drop_last() =~= Seq::<EntryModel>::empty());
                assert(run_bytes(seq![e].drop_last()) == Seq::<u8>::empty());
                assert(Seq::<u8>::empty() + entry_bytes(e) =~= entry_bytes(e));
            }
            gs.lemma_flatten_push(open);
            assert(gs2.flatten() + seq![e] =~= es);
            assert(runs_fit(gs2, block)) by {
                assert forall|i: int| 0 <= i < gs2.len() implies 24 * (#[trigger] gs2[i]).len() <= block && gs2[i].len() > 0 by {
                    if i < gs.len() {
                        assert(gs2[i] == gs[i]);
                    }
                }
            }
            assert forall|i: int| 0 <= i < gs2.len() implies keys_ok(#[trigger] gs2[i]) by {
                if i < gs.len() {
                    assert(gs2[i] == gs[i]);
                }
            }
            assert(keys_ok(seq![e]));
        } else {
            let open2 = open.push(e);
            assert(open2.drop_last() =~= open);
            assert(run_bytes(open2) == cur + entry_bytes(e));
            assert(es =~= p.push(e));
            assert(gs.flatten() + open2 =~= (gs.flatten() + open).push(e));
            assert(keys_ok(open2)) by {
                assert forall|i: int| 0 <= i < open2.len() implies (#[trigger] open2[i]).0.len() == 16 && !all_zero(open2[i].0) by {
                    if i < open.len() {
                        assert(open2[i] == open[i]);
                    }
                }
            }
        }
    }
}

proof fn lemma_uniform_flatten(ss: Seq<Seq<u8>>, l: int)
    requires
        l >= 0,
        forall|i: int| 0 <= i < ss.len() ==> (#[trigger] ss[i]).len() == l,
    ensures
        ss.flatten().len() == ss.len() * l,
        forall|i: int| 0 <= i < ss.len() ==> ss.flatten().subrange(i * l, i * l + l) == #[trigger] ss[i],
    decreases ss.len(),
{
    if ss.len() > 0 {
        let p = ss.drop_last();
        lemma_uniform_flatten(p, l);
        assert(ss =~= p.push(ss.last()));
        p.lemma_flatten_push(ss.last());
        let a = p.flatten();
        let n = ss.len();
        assert(n * l == (n - 1) * l + l) by (nonlinear_arith);
        assert forall|i: int| 0 <= i < ss.len() implies ss.flatten().subrange(i * l, i * l + l) == #[trigger] ss[i] by {
            if i < n - 1 {
                assert(i * l + l <= (n - 1) * l) by (nonlinear_arith)
                    requires
                        i < n - 1,
                        l >= 0,
                {
                }
                assert(i * l >= 0) by (nonlinear_arith)
                    requires
                        i >= 0,
                        l >= 0,
                {
                }
                assert((a + ss.last()).subrange(i * l, i * l + l) =~= a.subrange(i * l, i * l + l));
                assert(ss[i] == p[i]);
            } else {
                assert((a + ss.last()).subrange(i * l, i * l + l) =~= ss.last());
            }
        }
    }
}

proof fn lemma_blocks_read_back(
    data: Seq<u8>,
    block: int,
    nb: int,
    hashes_at: int,
    count: int,
    all: Seq<Seq<EntryModel>>,
    b: int,
)
    requires
        block >= 24,
        0 <= b <= nb,
        nb == all.len(),
        forall|i: int| 0 <= i < nb ==> block_of(data, block, i) == resized(run_bytes(#[trigger] all[i]), block),
        forall|i: int| 0 <= i < nb ==> md5_digest(#[trigger] block_of(data, block, i)).subrange(0, 8) == toc_hash(data, hashes_at, i),
        forall|i: int| 0 <= i < nb ==> keys_ok(#[trigger] all[i]) && 24 * all[i].len() <= block,
        count == all.flatten().len(),
    ensures
        blocks_spec(data, block, nb, hashes_at, 24, count, b, all.take(b).flatten()) == Ok::<Seq<EntryModel>, IndexError>(all.flatten()),
    decreases nb - b,
{
    if b == nb {
        assert(all.take(b) =~= all);
    } else {
        let acc = all.take(b).flatten();
        assert(all.take(b + 1) =~= all.take(b).push(all[b]));
        all.take(b).lemma_flatten_push(all[b]);
        vstd::seq_lib::lemma_flatten_concat(all.take(b + 1), all.skip(b + 1));
        assert(all.take(b + 1) + all.skip(b + 1) =~= all);
        assert(block_of(data, block, b) == resized(run_bytes(all[b]), block));
        lemma_page_run(all[b], block, 0, count - acc.len());
        assert(all[b].subrange(0, all[b].len() as int) =~= all[b]);
        lemma_blocks_read_back(data, block, nb, hashes_at, count, all, b + 1);
    }
}

/// Eight zero bytes.
pub open spec fn zeros8() -> Seq<u8> {
    Seq::new(8, |i: int| 0u8)
}

/// The MD5 digests that building the index of `es` computes (of each
/// block, of the table of contents and of the footer's checked bytes) are
/// 16 bytes long.
pub open spec fn digests_known(es: Seq<EntryModel>, block_kb: u8) -> bool {
    let (bs, ks) = index_blocks(es, block_kb * 1024);
    &&& forall|i: int| 0 <= i < bs.len() ==> (#[trigger] md5_digest(bs[i])).len() == 16
    &&& md5_digest(toc_of(es, block_kb * 1024)).len() == 16
    &&& md5_digest(footer_head(es, block_kb).subrange(8, 20) + zeros8()).len() == 16
}

/// Reading back what [`build`] writes gives the entries written: parsing
/// the index of `es` (blocks of at least 1 KiB, keys of 16 bytes none all
/// zero, at most `u32::MAX` entries) under its own archive name yields
/// `es`.
pub proof fn lemma_index_round_trip(es: Seq<EntryModel>, block_kb: u8)
    requires
        block_kb >= 1,
        es.len() <= u32::MAX,
        keys_ok(es),
        digests_known(es, block_kb),
    ensures
        spec_parse(spec_build(es, block_kb).0, Some(spec_build(es, block_kb).1)) == Ok::<Seq<EntryModel>, IndexError>(es),
{
    let block = block_kb * 1024;
    lemma_pack(es, block);
    let (bs0, ks0, cur, last) = pack(es, block);
    let (gs, open) = pack_groups(es, block);
    let all = gs.push(open);
    let (bs, ks) = index_blocks(es, block);
    let nb = all.len() as int;
    assert(bs =~= group_blocks(all, block));
    assert(bs.len() == nb && ks.len() == nb);
    gs.lemma_flatten_push(open);
    assert(all.flatten() == es);
    // the runs
    assert forall|i: int| 0 <= i < nb implies keys_ok(#[trigger] all[i]) && 24 * all[i].len() <= block by {
        if i < gs.len() {
            assert(all[i] == gs[i]);
        }
    }
    // block sizes
    assert forall|i: int| 0 <= i < nb implies (#[trigger] bs[i]).len() == block by {
        assert(bs[i] == resized(run_bytes(all[i]), block));
        assert forall|k: int| 0 <= k < all[i].len() implies (#[trigger] all[i][k]).0.len() == 16 by {}
        lemma_run_bytes_len(all[i]);
    }
    lemma_uniform_flatten(bs, block);
    // keys
    assert forall|i: int| 0 <= i < nb implies (#[trigger] ks[i]).len() == 16 by {
        if i < gs.len() {
            assert(ks[i] == gs[i].last().0);
            assert(keys_ok(gs[i]));
            assert(gs[i].last() == gs[i][gs[i].len() - 1]);
        } else {
            assert(ks[i] == last);
            if es.len() > 0 {
                assert(es.last() == es[es.len() - 1]);
            }
        }
    }
    lemma_uniform_flatten(ks, 16);
    // hashes
    let hs = block_hashes(bs);
    assert forall|i: int| 0 <= i < nb implies (#[trigger] hs[i]).len() == 8 by {
        assert(hs[i] == md5_digest(bs[i]).subrange(0, 8));
        assert(md5_digest(bs[i]).len() == 16);
    }
    lemma_uniform_flatten(hs, 8);
    let toc = toc_of(es, block);
    assert(toc == ks.flatten() + hs.flatten());
    // footer
    let h = footer_head(es, block_kb);
    let f = footer_spec(es, block_kb);
    assert(h.len() == 20);
    assert(f.len() == 28);
    let data = spec_build(es, block_kb).0;
    assert(data == bs.flatten() + toc + f);
    let body = nb * block + nb * 16 + nb * 8;
    assert(data.len() == body + 28);
    assert(footer_of(data) =~= f);
    assert(f[8] == 1 && f[11] == block_kb && f[12] == 4 && f[13] == 4 && f[14] == 16 && f[15] == 8);
    assert(f.subrange(16, 20) =~= crate::bytes::le_bytes_u32(es.len() as u32));
    crate::bytes::lemma_le_bytes_value(es.len() as u32);
    assert(f.subrange(8, 20) + Seq::new(8, |i: int| 0u8) =~= h.subrange(8, 20) + zeros8());
    assert(f.subrange(20, 28) =~= md5_digest(h.subrange(8, 20) + zeros8()).subrange(0, 8));
    assert(footer_checksum_ok(f));
    // layout
    let per_block = block + 16 + 8;
    assert(body == nb * per_block) by (nonlinear_arith)
        requires
            body == nb * block + nb * 16 + nb * 8,
            per_block == block + 24,
    {
    }
    vstd::arithmetic::div_mod::lemma_mod_multiples_basic(nb, per_block);
    vstd::arithmetic::div_mod::lemma_div_multiples_vanish(nb, per_block);
    assert(per_block * nb == nb * per_block) by (nonlinear_arith);
    let hashes_at = nb * block + nb * 16;
    assert forall|i: int| 0 <= i < nb implies block_of(data, block, i) == resized(run_bytes(#[trigger] all[i]), block) by {
        assert((i + 1) * block == i * block + block) by (nonlinear_arith);
        assert(i * block + block <= nb * block) by (nonlinear_arith)
            requires
                i < nb,
                block >= 0,
        {
        }
        assert(i * block >= 0) by (nonlinear_arith)
            requires
                i >= 0,
                block >= 0,
        {
        }
        assert(data.subrange(i * block, (i + 1) * block) =~= bs.flatten().subrange(i * block, i * block + block));
        assert(bs[i] == resized(run_bytes(all[i]), block));
    }
    assert forall|i: int| 0 <= i < nb implies md5_digest(#[trigger] block_of(data, block, i)).subrange(0, 8) == toc_hash(data, hashes_at, i) by {
        assert(block_of(data, block, i) == resized(run_bytes(all[i]), block));
        assert(bs[i] == resized(run_bytes(all[i]), block));
        assert(i * 8 + 8 <= nb * 8) by (nonlinear_arith)
            requires
                i < nb,
        {
        }
        assert(i * 8 >= 0) by (nonlinear_arith)
            requires
                i >= 0,
        {
        }
        assert(data.subrange(hashes_at + i * 8, hashes_at + i * 8 + 8) =~= hs.flatten().subrange(i * 8, i * 8 + 8));
        assert(hs[i] == md5_digest(bs[i]).subrange(0, 8));
    }
    lemma_blocks_read_back(data, block, nb, hashes_at, es.len() as int, all, 0);
    assert(all.take(0) =~= Seq::<Seq<EntryModel>>::empty());
}

} // verus!
