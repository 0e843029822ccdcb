//! ENCODING manifest: `CKey` -> (`EKey`, content size) and `EKey` -> encoded
//! size.
//!
//! A 22-byte big-endian header (`"EN"`, version 1, key sizes, page sizes in
//! KiB, page counts, `ESpec` block size), the `ESpec` string block, the `CKey`
//! page table (`{first key, page MD5}`) and pages, then the `EKey` spec page
//! table and pages. Every page is checked against its MD5. Content and encoded
//! sizes are 40-bit big-endian values.

use vstd::prelude::*;
use crate::bytes::{all_zero, be_value, is_zero_key, key_at, prefix_eq, lemma_be_value_bound};
use crate::client::util::{Key, be_uint, md5, md5_digest};
use crate::order::{bytes_le, bytes_lt, compare_bytes, lemma_lt_exclusive, lemma_le_lt, lemma_lt_le, lemma_le_transitive, lemma_lt_total};

verus! {

/// One `CKey` record: the content key, its first encoded key and the size of
/// the content.
#[derive(Debug, Clone, Copy, PartialEq, Eq)]
pub struct CKeyEntry {
    pub ckey: Key,
    /// First `EKey` of the entry (the one the client uses).
    pub ekey: Key,
    pub content_size: u64,
}

/// Why an ENCODING file is refused.
#[derive(Debug, Clone, Copy, PartialEq, Eq)]
pub enum EncodingError {
    /// Not `"EN"` version 1, or shorter than the header.
    BadSignature,
    /// Keys other than 16 bytes.
    UnsupportedKeySizes,
    /// The tables and pages run past the end of the file.
    Truncated,
    /// Page `i` of a table does not hash to its record.
    PageChecksum(usize),
    /// Page `i` of a table does not start with the first key of its record.
    PageFirstKey(usize),
    /// A `CKey` record runs past the end of its page.
    EntryCrossesPage,
    /// The `CKey` records are not in key order.
    NotSorted,
}

/// A `CKey` record as plain values: `(CKey, EKey, content size)`.
pub type CKeyModel = (Seq<u8>, Seq<u8>, u64);

/// An `EKey` record as plain values: `(EKey, encoded size)`.
pub type EKeyModel = (Seq<u8>, u64);

/// The model of a `CKey` record.
pub open spec fn ckey_view(e: CKeyEntry) -> CKeyModel {
    (e.ckey@, e.ekey@, e.content_size)
}

/// The models of a list of `CKey` records.
pub open spec fn ckeys_view(v: Seq<CKeyEntry>) -> Seq<CKeyModel> {
    v.map_values(|e: CKeyEntry| ckey_view(e))
}

/// The models of a list of `(EKey, encoded size)` pairs.
pub open spec fn pairs_view(v: Seq<(Key, u64)>) -> Seq<EKeyModel> {
    v.map_values(|p: (Key, u64)| (p.0@, p.1))
}

/// The records are in non-decreasing `CKey` order.
pub open spec fn ckeys_sorted(s: Seq<CKeyModel>) -> bool {
    forall|i: int, j: int| 0 <= i < j < s.len() ==> bytes_le(#[trigger] s[i].0, #[trigger] s[j].0)
}

/// The pairs are in order: by key, then by size.
pub open spec fn pairs_sorted(s: Seq<EKeyModel>) -> bool {
    forall|i: int, j: int|
        0 <= i < j < s.len() ==> bytes_lt(#[trigger] s[i].0, #[trigger] s[j].0) || (s[i].0 == s[j].0 && s[i].1 <= s[j].1)
}

/// The first record of `k`.
pub open spec fn first_record(s: Seq<CKeyModel>, k: Seq<u8>) -> Option<CKeyModel> {
    if exists|i: int| 0 <= i < s.len() && #[trigger] s[i].0 == k && (forall|j: int| 0 <= j < i ==> s[j].0 != k) {
        Some(s[choose|i: int| 0 <= i < s.len() && #[trigger] s[i].0 == k && (forall|j: int| 0 <= j < i ==> s[j].0 != k)])
    } else {
        None
    }
}

/// The least size paired with `k`.
pub open spec fn least_size(s: Seq<EKeyModel>, k: Seq<u8>) -> Option<u64> {
    if exists|i: int| 0 <= i < s.len() && #[trigger] s[i].0 == k && (forall|j: int| 0 <= j < s.len() && s[j].0 == k ==> s[i].1 <= s[j].1) {
        Some(s[choose|i: int| 0 <= i < s.len() && #[trigger] s[i].0 == k && (forall|j: int| 0 <= j < s.len() && s[j].0 == k ==> s[i].1 <= s[j].1)].1)
    } else {
        None
    }
}

/// `"EN"`, version 1, and room for the header.
pub open spec fn signature_ok(d: Seq<u8>) -> bool {
    d.len() >= 22 && d[0] == 0x45 && d[1] == 0x4e && d[2] == 1
}

/// Size in bytes of a `CKey` page.
pub open spec fn ckey_page_size(d: Seq<u8>) -> int {
    be_value(d.subrange(5, 7)) as int * 1024
}

/// Size in bytes of an `EKey` page.
pub open spec fn ekey_page_size(d: Seq<u8>) -> int {
    be_value(d.subrange(7, 9)) as int * 1024
}

/// Number of `CKey` pages.
pub open spec fn ckey_page_count(d: Seq<u8>) -> int {
    be_value(d.subrange(9, 13)) as int
}

/// Number of `EKey` pages.
pub open spec fn ekey_page_count(d: Seq<u8>) -> int {
    be_value(d.subrange(13, 17)) as int
}

/// Where the `CKey` page table starts (after the `ESpec` block).
pub open spec fn ckey_table_at(d: Seq<u8>) -> int {
    22 + be_value(d.subrange(18, 22)) as int
}

/// Where the `CKey` pages start.
pub open spec fn ckey_data_at(d: Seq<u8>) -> int {
    ckey_table_at(d) + ckey_page_count(d) * 32
}

/// Where the `EKey` page table starts.
pub open spec fn ekey_table_at(d: Seq<u8>) -> int {
    ckey_data_at(d) + ckey_page_count(d) * ckey_page_size(d)
}

/// Where the `EKey` pages start.
pub open spec fn ekey_data_at(d: Seq<u8>) -> int {
    ekey_table_at(d) + ekey_page_count(d) * 32
}

/// Where the `EKey` pages end.
pub open spec fn layout_end(d: Seq<u8>) -> int {
    ekey_data_at(d) + ekey_page_count(d) * ekey_page_size(d)
}

/// Checks page `i` against its table record `{first key, MD5}`; the first key
/// sits at `key_offset` in the page.
pub open spec fn page_check(table: Seq<u8>, i: int, page: Seq<u8>, key_offset: int) -> Option<EncodingError> {
    let record = table.subrange(i * 32, i * 32 + 32);
    if md5_digest(page) != record.subrange(16, 32) {
        Some(EncodingError::PageChecksum(i as usize))
    } else if !(key_offset + 16 <= page.len() && page.subrange(key_offset, key_offset + 16)
        == record.subrange(0, 16)) {
        Some(EncodingError::PageFirstKey(i as usize))
    } else {
        None
    }
}

/// The `CKey` record at byte `p` of a page, whose key count is `page[p]`.
pub open spec fn ckey_record(page: Seq<u8>, p: int) -> CKeyModel {
    (page.subrange(p + 6, p + 22), page.subrange(p + 22, p + 38), be_value(page.subrange(p + 1, p + 6)) as u64)
}

/// The records of a `CKey` page from byte `p` on, appended to `acc`: they
/// stop at a zero key count or when no record header is left; `None` when a
/// record runs past the page.
pub open spec fn ckey_run(page: Seq<u8>, p: int, acc: Seq<CKeyModel>) -> Option<Seq<CKeyModel>>
    decreases page.len() - p,
{
    if p < 0 || p + 22 > page.len() || page[p] == 0 {
        Some(acc)
    } else if p + 22 + page[p] * 16 > page.len() {
        None
    } else {
        ckey_run(page, p + 22 + page[p] * 16, acc.push(ckey_record(page, p)))
    }
}

/// The pairs of an `EKey` page from byte `p` on, appended to `acc`: 25-byte
/// records `{EKey, spec index, 40-bit size}` up to the first zero key.
pub open spec fn ekey_run(page: Seq<u8>, p: int, acc: Seq<EKeyModel>) -> Seq<EKeyModel>
    decreases page.len() - p,
{
    if p < 0 || p + 25 > page.len() || all_zero(page.subrange(p, p + 16)) {
        acc
    } else {
        ekey_run(page, p + 25, acc.push((page.subrange(p, p + 16), be_value(page.subrange(p + 20, p + 25)) as u64)))
    }
}

/// Page `i` of a run of pages of `size` bytes starting at `at`.
pub open spec fn page_of(d: Seq<u8>, at: int, size: int, i: int) -> Seq<u8> {
    d.subrange(at + i * size, at + (i + 1) * size)
}

/// The `CKey` pages `i..n`, appended to `acc`.
pub open spec fn ckey_pages(d: Seq<u8>, i: int, acc: Seq<CKeyModel>) -> Result<Seq<CKeyModel>, EncodingError>
    decreases ckey_page_count(d) - i,
{
    if i < 0 || i >= ckey_page_count(d) {
        Ok(acc)
    } else {
        let table = d.subrange(ckey_table_at(d), ckey_data_at(d));
        let page = page_of(d, ckey_data_at(d), ckey_page_size(d), i);
        match page_check(table, i, page, 6) {
            Some(e) => Err(e),
            None => match ckey_run(page, 0, acc) {
                None => Err(EncodingError::EntryCrossesPage),
                Some(next) => ckey_pages(d, i + 1, next),
            },
        }
    }
}

/// The `EKey` pages `i..n`, appended to `acc`.
pub open spec fn ekey_pages(d: Seq<u8>, i: int, acc: Seq<EKeyModel>) -> Result<Seq<EKeyModel>, EncodingError>
    decreases ekey_page_count(d) - i,
{
    if i < 0 || i >= ekey_page_count(d) {
        Ok(acc)
    } else {
        let table = d.subrange(ekey_table_at(d), ekey_data_at(d));
        let page = page_of(d, ekey_data_at(d), ekey_page_size(d), i);
        match page_check(table, i, page, 0) {
            Some(e) => Err(e),
            None => ekey_pages(d, i + 1, ekey_run(page, 0, acc)),
        }
    }
}

/// The header is accepted and the tables fit in the file.
pub open spec fn layout_ok(d: Seq<u8>) -> bool {
    signature_ok(d) && d[3] == 16 && d[4] == 16 && layout_end(d) <= d.len()
}

/// The inputs on which splitting the pages into chunks would be asked for
/// chunks of zero bytes: a page size of zero that is reached.
pub open spec fn zero_page_size_reached(d: Seq<u8>) -> bool {
    layout_ok(d) && (ckey_page_size(d) == 0 || (ckey_pages(d, 0, Seq::empty()) is Ok && ekey_page_size(
        d,
    ) == 0))
}

/// The `CKey` records of all `CKey` pages, each page checked first.
fn read_ckey_pages(data: &[u8], table_c: usize, data_c: usize, ckey_count: usize, ckey_page: usize) -> (r: Result<
    Vec<CKeyEntry>,
    EncodingError,
>)
    requires
        layout_ok(data@),
        ckey_page == ckey_page_size(data@),
        ckey_page > 0,
        ckey_count == ckey_page_count(data@),
        table_c == ckey_table_at(data@),
        data_c == ckey_data_at(data@),
        data_c + ckey_count * ckey_page <= data@.len(),
    ensures
        match (r, ckey_pages(data@, 0, Seq::empty())) {
            (Ok(v), Ok(c)) => ckeys_view(v@) == c,
            (Err(e), Err(s)) => e == s,
            _ => false,
        },
{
    let ghost d = data@;
    let len = data.len();
    let ctable = &data[table_c..data_c];
    let mut ckeys: Vec<CKeyEntry> = Vec::new();
    let mut i: usize = 0;
    assert(ckeys_view(ckeys@) =~= Seq::<CKeyModel>::empty());
    while i < ckey_count
        invariant
            d == data@,
            layout_ok(d),
            ckey_page == ckey_page_size(d),
            ckey_page > 0,
            ckey_count == ckey_page_count(d),
            table_c == ckey_table_at(d),
            data_c == ckey_data_at(d),
            ctable@ == d.subrange(table_c as int, data_c as int),
            data_c + ckey_count * ckey_page <= d.len(),
            len == d.len(),
            i <= ckey_count,
            ckey_pages(d, 0, Seq::empty()) == ckey_pages(d, i as int, ckeys_view(ckeys@)),
        decreases ckey_count - i,
    {
        proof {
            lemma_page_in_run(ckey_count as int, ckey_page as int, i as int);
        }
        let start = data_c + i * ckey_page;
        let page = &data[start..start + ckey_page];
        assert(page@ =~= page_of(d, data_c as int, ckey_page as int, i as int));
        if let Some(e) = check_page(ctable, i, page, 6) {
            return Err(e);
        }
        if !read_ckey_page(page, &mut ckeys) {
            return Err(EncodingError::EntryCrossesPage);
        }
        i += 1;
    }
    assert(ckey_pages(d, i as int, ckeys_view(ckeys@)) == Ok::<Seq<CKeyModel>, EncodingError>(ckeys_view(ckeys@)));
    Ok(ckeys)
}

/// Whether [`Encoding::parse`] may be called on `data`: `false` exactly
/// when the layout is accepted and a page size of zero is reached (the
/// `CKey` page size, or the `EKey` page size once the `CKey` pages were read
/// without error).
pub fn page_sizes_usable(data: &[u8]) -> (r: bool)
    ensures
        r == !zero_page_size_reached(data@),
{
    let len = data.len();
    if !(len >= 22 && data[0] == 0x45 && data[1] == 0x4e && data[2] == 1) {
        return true;
    }
    if !(data[3] == 16 && data[4] == 16) {
        return true;
    }
    let ckey_kib = be_uint(&data[5..7]);
    let ekey_kib = be_uint(&data[7..9]);
    let ckey_count = be_uint(&data[9..13]);
    let ekey_count = be_uint(&data[13..17]);
    let espec = be_uint(&data[18..22]);
    proof {
        lemma_be_value_bound(data@.subrange(5, 7));
        lemma_be_value_bound(data@.subrange(7, 9));
        lemma_be_value_bound(data@.subrange(9, 13));
        lemma_be_value_bound(data@.subrange(13, 17));
        lemma_be_value_bound(data@.subrange(18, 22));
        reveal_with_fuel(crate::bytes::byte_bound, 5);
    }
    let ckey_page = ckey_kib * 1024;
    let ekey_page = ekey_kib * 1024;
    let ghost d = data@;
    assert(ckey_page == ckey_page_size(d));
    assert(ekey_page == ekey_page_size(d));
    assert(ckey_count == ckey_page_count(d));
    assert(ekey_count == ekey_page_count(d));
    assert(ckey_count * 32 <= 0x20_0000_0000) by (nonlinear_arith)
        requires ckey_count < 0x1_0000_0000;
    assert(ekey_count * 32 <= 0x20_0000_0000) by (nonlinear_arith)
        requires ekey_count < 0x1_0000_0000;
    assert(ckey_count * ckey_page <= 0x1_0000_0000 * 0x400_0000) by (nonlinear_arith)
        requires ckey_count < 0x1_0000_0000, ckey_page <= 0x400_0000;
    assert(ekey_count * ekey_page <= 0x1_0000_0000 * 0x400_0000) by (nonlinear_arith)
        requires ekey_count < 0x1_0000_0000, ekey_page <= 0x400_0000;
    let table_c = 22 + espec;
    let data_c = table_c + ckey_count * 32;
    let end = data_c + ckey_count * ckey_page + ekey_count * 32 + ekey_count * ekey_page;
    assert(end == layout_end(d));
    if end > len as u64 {
        return true;
    }
    if ckey_page == 0 {
        return false;
    }
    if ekey_page != 0 {
        return true;
    }
    match read_ckey_pages(data, table_c as usize, data_c as usize, ckey_count as usize, ckey_page as usize) {
        Ok(_) => false,
        Err(_) => true,
    }
}

/// What [`Encoding::parse`] yields: the `CKey` records in file order and the
/// `EKey` pairs in file order.
pub open spec fn spec_parse(d: Seq<u8>) -> Result<(Seq<CKeyModel>, Seq<EKeyModel>), EncodingError> {
    if !signature_ok(d) {
        Err(EncodingError::BadSignature)
    } else if !(d[3] == 16 && d[4] == 16) {
        Err(EncodingError::UnsupportedKeySizes)
    } else if layout_end(d) > d.len() {
        Err(EncodingError::Truncated)
    } else {
        match ckey_pages(d, 0, Seq::empty()) {
            Err(e) => Err(e),
            Ok(c) => match ekey_pages(d, 0, Seq::empty()) {
                Err(e) => Err(e),
                Ok(k) => if ckeys_sorted(c) {
                    Ok((c, k))
                } else {
                    Err(EncodingError::NotSorted)
                },
            },
        }
    }
}

/// A parsed ENCODING manifest.
#[derive(Debug)]
pub struct Encoding {
    /// Sorted by `CKey` (pages are sorted and in order).
    ckeys: Vec<CKeyEntry>,
    /// `(EKey, encoded size)` sorted by `EKey`.
    ekeys: Vec<(Key, u64)>,
}

impl Encoding {
    /// The `CKey` records, in `CKey` order.
    pub closed spec fn ckeys(&self) -> Seq<CKeyModel> {
        ckeys_view(self.ckeys@)
    }

    /// The `(EKey, encoded size)` pairs, in `EKey` order.
    pub closed spec fn ekeys(&self) -> Seq<EKeyModel> {
        pairs_view(self.ekeys@)
    }

    #[verifier::type_invariant]
    spec fn sorted(&self) -> bool {
        ckeys_sorted(ckeys_view(self.ckeys@)) && pairs_sorted(pairs_view(self.ekeys@))
    }

    /// Parses and checks an ENCODING file. The `CKey` records come in file
    /// order; the `EKey` pairs are those of the file, sorted by key.
    pub fn parse(data: &[u8]) -> (r: Result<Self, EncodingError>)
        requires
            !zero_page_size_reached(data@),
        ensures
            match (r, spec_parse(data@)) {
                (Ok(e), Ok((c, k))) => e.ckeys() == c && e.ekeys().to_multiset() == k.to_multiset()
                    && pairs_sorted(e.ekeys()),
                (Err(e), Err(s)) => e == s,
                _ => false,
            },
    {
        let len = data.len();
        if !(len >= 22 && data[0] == 0x45 && data[1] == 0x4e && data[2] == 1) {
            return Err(EncodingError::BadSignature);
        }
        if !(data[3] == 16 && data[4] == 16) {
            return Err(EncodingError::UnsupportedKeySizes);
        }
        let ckey_kib = be_uint(&data[5..7]);
        let ekey_kib = be_uint(&data[7..9]);
        let ckey_count = be_uint(&data[9..13]);
        let ekey_count = be_uint(&data[13..17]);
        let espec = be_uint(&data[18..22]);
        proof {
            lemma_be_value_bound(data@.subrange(5, 7));
            lemma_be_value_bound(data@.subrange(7, 9));
            lemma_be_value_bound(data@.subrange(9, 13));
            lemma_be_value_bound(data@.subrange(13, 17));
            lemma_be_value_bound(data@.subrange(18, 22));
            reveal_with_fuel(crate::bytes::byte_bound, 5);
        }
        let ckey_page = ckey_kib * 1024;
        let ekey_page = ekey_kib * 1024;
        let ghost d = data@;
        assert(ckey_page == ckey_page_size(d));
        assert(ekey_page == ekey_page_size(d));
        assert(ckey_count == ckey_page_count(d));
        assert(ekey_count == ekey_page_count(d));
        assert(ckey_count * 32 <= 0x20_0000_0000) by (nonlinear_arith)
            requires ckey_count < 0x1_0000_0000;
        assert(ekey_count * 32 <= 0x20_0000_0000) by (nonlinear_arith)
            requires ekey_count < 0x1_0000_0000;
        assert(ckey_count * ckey_page <= 0x1_0000_0000 * 0x400_0000) by (nonlinear_arith)
            requires ckey_count < 0x1_0000_0000, ckey_page <= 0x400_0000;
        assert(ekey_count * ekey_page <= 0x1_0000_0000 * 0x400_0000) by (nonlinear_arith)
            requires ekey_count < 0x1_0000_0000, ekey_page <= 0x400_0000;
        let table_c = 22 + espec;
        let data_c = table_c + ckey_count * 32;
        let table_e = data_c + ckey_count * ckey_page;
        let data_e = table_e + ekey_count * 32;
        let end = data_e + ekey_count * ekey_page;
        if end > len as u64 {
            return Err(EncodingError::Truncated);
        }
        assert(end == layout_end(d));
        let table_c = table_c as usize;
        let data_c = data_c as usize;
        let table_e = table_e as usize;
        let data_e = data_e as usize;
        let ckey_page = ckey_page as usize;
        let ekey_page = ekey_page as usize;
        let ckey_count = ckey_count as usize;
        let ekey_count = ekey_count as usize;
        let ckeys = match read_ckey_pages(data, table_c, data_c, ckey_count, ckey_page) {
            Ok(v) => v,
            Err(e) => return Err(e),
        };
        let etable = &data[table_e..data_e];
        let mut ekeys: Vec<(Key, u64)> = Vec::new();
        assert(pairs_view(ekeys@) =~= Seq::<EKeyModel>::empty());
        let mut i: usize = 0;
        while i < ekey_count
            invariant
                d == data@,
                layout_ok(d),
                ekey_page == ekey_page_size(d),
                ekey_page > 0,
                ekey_count == ekey_page_count(d),
                table_e == ekey_table_at(d),
                data_e == ekey_data_at(d),
                etable@ == d.subrange(table_e as int, data_e as int),
                data_e + ekey_count * ekey_page <= d.len(),
                len == d.len(),
                ckey_pages(d, 0, Seq::empty()) == Ok::<Seq<CKeyModel>, EncodingError>(ckeys_view(ckeys@)),
                i <= ekey_count,
                ekey_pages(d, 0, Seq::empty()) == ekey_pages(d, i as int, pairs_view(ekeys@)),
            decreases ekey_count - i,
        {
            proof {
                lemma_page_in_run(ekey_count as int, ekey_page as int, i as int);
            }
            let start = data_e + i * ekey_page;
            let page = &data[start..start + ekey_page];
            assert(page@ =~= page_of(d, data_e as int, ekey_page as int, i as int));
            if let Some(e) = check_page(etable, i, page, 0) {
                return Err(e);
            }
            read_ekey_page(page, &mut ekeys);
            i += 1;
        }
        if !check_sorted(&ckeys) {
            return Err(EncodingError::NotSorted);
        }
        sort_pairs(&mut ekeys);
        Ok(Encoding { ckeys, ekeys })
    }

    /// [`Encoding::parse`] where it may be called: `None` exactly when a
    /// page size of zero is reached (see [`page_sizes_usable`]), else what
    /// `parse` returns.
    pub fn parse_checked(data: &[u8]) -> (r: Option<Result<Self, EncodingError>>)
        ensures
            r is None <==> zero_page_size_reached(data@),
            r matches Some(x) ==> match (x, spec_parse(data@)) {
                (Ok(e), Ok((c, k))) => e.ckeys() == c && e.ekeys().to_multiset() == k.to_multiset()
                    && pairs_sorted(e.ekeys()),
                (Err(e), Err(s)) => e == s,
                _ => false,
            },
    {
        if page_sizes_usable(data) {
            Some(Encoding::parse(data))
        } else {
            None
        }
    }

    /// The record of `ckey`, if the manifest has one (the first of them).
    pub fn find(&self, ckey: &Key) -> (r: Option<&CKeyEntry>)
        ensures
            match first_record(self.ckeys(), ckey@) {
                Some(m) => r matches Some(e) && ckey_view(*e) == m,
                None => r is None,
            },
    {
        proof {
            use_type_invariant(self);
        }
        let ghost cv = self.ckeys();
        let n = self.ckeys.len();
        let mut lo: usize = 0;
        let mut hi: usize = n;
        while lo < hi
            invariant
                lo <= hi <= n,
                n == self.ckeys@.len(),
                cv == ckeys_view(self.ckeys@),
                ckeys_sorted(cv),
                forall|i: int| 0 <= i < lo ==> bytes_lt(#[trigger] cv[i].0, ckey@),
                forall|i: int| hi <= i < n ==> bytes_le(ckey@, #[trigger] cv[i].0),
            decreases hi - lo,
        {
            let mid = lo + (hi - lo) / 2;
            let c = compare_bytes(&self.ckeys[mid].ckey, ckey);
            assert(cv[mid as int].0 == self.ckeys@[mid as int].ckey@);
            if c < 0 {
                assert forall|i: int| 0 <= i < mid + 1 implies bytes_lt(#[trigger] cv[i].0, ckey@) by {
                    if i < mid {
                        lemma_le_lt(cv[i].0, cv[mid as int].0, ckey@);
                    }
                }
                lo = mid + 1;
            } else {
                proof {
                    if c > 0 {
                        lemma_lt_total(ckey@, cv[mid as int].0);
                        lemma_lt_exclusive(cv[mid as int].0, ckey@);
                        if bytes_lt(cv[mid as int].0, ckey@) {
                            crate::order::lemma_lt_transitive(cv[mid as int].0, ckey@, cv[mid as int].0);
                            crate::order::lemma_lt_irreflexive(cv[mid as int].0);
                        }
                    }
                }
                assert forall|i: int| mid <= i < n implies bytes_le(ckey@, #[trigger] cv[i].0) by {
                    if i > mid {
                        lemma_le_transitive(ckey@, cv[mid as int].0, cv[i].0);
                    }
                }
                hi = mid;
            }
        }
        if lo < n {
            assert(cv[lo as int].0 == self.ckeys@[lo as int].ckey@);
            if compare_bytes(&self.ckeys[lo].ckey, ckey) == 0 {
                proof {
                    assert forall|j: int| 0 <= j < lo implies cv[j].0 != ckey@ by {
                        lemma_lt_exclusive(cv[j].0, ckey@);
                    }
                    let w = choose|w: int| 0 <= w < cv.len() && #[trigger] cv[w].0 == ckey@ && (forall|j: int| 0 <= j < w ==> cv[j].0 != ckey@);
                    if w < lo {
                        lemma_lt_exclusive(cv[w].0, ckey@);
                    } else if w > lo {
                        assert(cv[lo as int].0 == ckey@);
                    }
                }
                return Some(&self.ckeys[lo]);
            }
        }
        proof {
            assert forall|i: int| 0 <= i < cv.len() implies #[trigger] cv[i].0 != ckey@ by {
                if i < lo {
                    lemma_lt_exclusive(cv[i].0, ckey@);
                } else if cv[i].0 == ckey@ {
                    assert(lo < n);
                    assert(bytes_le(ckey@, cv[lo as int].0));
                    assert(cv[lo as int].0 != ckey@);
                    if lo < i {
                        lemma_le_transitive(cv[lo as int].0, cv[i].0, cv[lo as int].0);
                        assert(cv[lo as int].0 == ckey@ || bytes_lt(ckey@, cv[lo as int].0));
                        assert(bytes_le(cv[lo as int].0, ckey@));
                        lemma_lt_exclusive(ckey@, cv[lo as int].0);
                        if bytes_lt(ckey@, cv[lo as int].0) && bytes_lt(cv[lo as int].0, ckey@) {
                            crate::order::lemma_lt_transitive(ckey@, cv[lo as int].0, ckey@);
                            crate::order::lemma_lt_irreflexive(ckey@);
                        }
                    }
                }
            }
        }
        None
    }

    /// The encoded size of `ekey`, if the manifest lists it (the least of
    /// its sizes).
    pub fn encoded_size(&self, ekey: &Key) -> (r: Option<u64>)
        ensures
            r == least_size(self.ekeys(), ekey@),
    {
        proof {
            use_type_invariant(self);
        }
        let ghost ev = self.ekeys();
        let n = self.ekeys.len();
        let mut lo: usize = 0;
        let mut hi: usize = n;
        while lo < hi
            invariant
                lo <= hi <= n,
                n == self.ekeys@.len(),
                ev == pairs_view(self.ekeys@),
                pairs_sorted(ev),
                forall|i: int| 0 <= i < lo ==> bytes_lt(#[trigger] ev[i].0, ekey@),
                forall|i: int| hi <= i < n ==> bytes_le(ekey@, #[trigger] ev[i].0),
            decreases hi - lo,
        {
            let mid = lo + (hi - lo) / 2;
            let c = compare_bytes(&self.ekeys[mid].0, ekey);
            assert(ev[mid as int].0 == self.ekeys@[mid as int].0@);
            if c < 0 {
                assert forall|i: int| 0 <= i < mid + 1 implies bytes_lt(#[trigger] ev[i].0, ekey@) by {
                    if i < mid {
                        lemma_le_lt(ev[i].0, ev[mid as int].0, ekey@);
                    }
                }
                lo = mid + 1;
            } else {
                assert forall|i: int| mid <= i < n implies bytes_le(ekey@, #[trigger] ev[i].0) by {
                    if i > mid {
                        lemma_le_transitive(ekey@, ev[mid as int].0, ev[i].0);
                    }
                }
                hi = mid;
            }
        }
        if lo < n {
            assert(ev[lo as int].0 == self.ekeys@[lo as int].0@);
            if compare_bytes(&self.ekeys[lo].0, ekey) == 0 {
                proof {
                    assert forall|j: int| 0 <= j < ev.len() && ev[j].0 == ekey@ implies ev[lo as int].1 <= ev[j].1 by {
                        if j < lo {
                            lemma_lt_exclusive(ev[j].0, ekey@);
                        } else if j > lo {
                            assert(bytes_lt(ev[lo as int].0, ev[j].0) || (ev[lo as int].0 == ev[j].0 && ev[lo as int].1 <= ev[j].1));
                            crate::order::lemma_lt_irreflexive(ekey@);
                        }
                    }
                    let w = choose|w: int| 0 <= w < ev.len() && #[trigger] ev[w].0 == ekey@ && (forall|j: int| 0 <= j < ev.len() && ev[j].0 == ekey@ ==> ev[w].1 <= ev[j].1);
                    assert(ev[w].1 <= ev[lo as int].1);
                    assert(ev[lo as int].1 <= ev[w].1);
                }
                return Some(self.ekeys[lo].1);
            }
        }
        proof {
            assert forall|i: int| 0 <= i < ev.len() implies #[trigger] ev[i].0 != ekey@ by {
                if i < lo {
                    lemma_lt_exclusive(ev[i].0, ekey@);
                } else if ev[i].0 == ekey@ {
                    assert(lo < n);
                    assert(ev[lo as int].0 != ekey@);
                    if lo < i {
                        assert(bytes_lt(ev[lo as int].0, ev[i].0) || ev[lo as int].0 == ev[i].0);
                        assert(bytes_le(ekey@, ev[lo as int].0));
                        lemma_lt_exclusive(ekey@, ev[lo as int].0);
                        if bytes_lt(ekey@, ev[lo as int].0) && bytes_lt(ev[lo as int].0, ekey@) {
                            crate::order::lemma_lt_transitive(ekey@, ev[lo as int].0, ekey@);
                            crate::order::lemma_lt_irreflexive(ekey@);
                        }
                    }
                }
            }
        }
        None
    }

    /// Number of `CKey` records.
    pub fn len(&self) -> (r: usize)
        ensures
            r == self.ckeys().len(),
    {
        self.ckeys.len()
    }
}

proof fn lemma_page_in_run(n: int, size: int, i: int)
    requires
        0 <= i < n,
        size > 0,
    ensures
        i * size + size <= n * size,
        (i + 1) * size == i * size + size,
        i * size >= 0,
{
    assert(i * size + size <= n * size) by (nonlinear_arith)
        requires 0 <= i < n, size > 0;
    assert((i + 1) * size == i * size + size) by (nonlinear_arith);
    assert(i * size >= 0) by (nonlinear_arith)
        requires 0 <= i, size > 0;
}

/// Checks page `index` against its table record.
fn check_page(table: &[u8], index: usize, page: &[u8], key_offset: usize) -> (r: Option<EncodingError>)
    requires
        index * 32 + 32 <= table@.len(),
        key_offset <= 6,
    ensures
        r == page_check(table@, index as int, page@, key_offset as int),
{
    let tl = table.len();
    assert(index * 32 + 32 <= tl);
    let at = index * 32;
    let digest = md5(page);
    let record = &table[at..at + 32];
    assert(record@ =~= table@.subrange(at as int, at + 32));
    if !prefix_eq(&digest, &record[16..32], 16) {
        assert(digest@.subrange(0, 16) =~= digest@);
        assert(record@.subrange(16, 32).subrange(0, 16) =~= record@.subrange(16, 32));
        return Some(EncodingError::PageChecksum(index));
    }
    assert(digest@.subrange(0, 16) =~= digest@);
    assert(record@.subrange(16, 32).subrange(0, 16) =~= record@.subrange(16, 32));
    if page.len() < key_offset + 16 {
        return Some(EncodingError::PageFirstKey(index));
    }
    if !prefix_eq(&page[key_offset..key_offset + 16], &record[0..16], 16) {
        assert(page@.subrange(key_offset as int, key_offset + 16).subrange(0, 16) =~= page@.subrange(key_offset as int, key_offset + 16));
        assert(record@.subrange(0, 16).subrange(0, 16) =~= record@.subrange(0, 16));
        return Some(EncodingError::PageFirstKey(index));
    }
    assert(page@.subrange(key_offset as int, key_offset + 16).subrange(0, 16) =~= page@.subrange(key_offset as int, key_offset + 16));
    assert(record@.subrange(0, 16).subrange(0, 16) =~= record@.subrange(0, 16));
    None
}

/// Appends the records of a `CKey` page; `false` when one runs past the page.
fn read_ckey_page(page: &[u8], out: &mut Vec<CKeyEntry>) -> (ok: bool)
    ensures
        ok ==> ckey_run(page@, 0, ckeys_view(old(out)@)) == Some(ckeys_view(final(out)@)),
        !ok ==> ckey_run(page@, 0, ckeys_view(old(out)@)) is None,
{
    let n = page.len();
    let mut p: usize = 0;
    loop
        invariant
            n == page@.len(),
            p <= n,
            ckey_run(page@, 0, ckeys_view(old(out)@)) == ckey_run(page@, p as int, ckeys_view(out@)),
        decreases n - p,
    {
        if n - p < 22 {
            return true;
        }
        let count = page[p] as usize;
        if count == 0 {
            return true;
        }
        let len = 22 + count * 16;
        if len > n - p {
            return false;
        }
        let content_size = be_uint(&page[p + 1..p + 6]);
        let ckey = key_at(page, p + 6);
        let ekey = key_at(page, p + 22);
        let entry = CKeyEntry { ckey, ekey, content_size };
        proof {
            assert(page@.subrange(p + 1, p + 6).len() == 5);
            assert(ckey_view(entry) == ckey_record(page@, p as int));
        }
        let ghost before = out@;
        out.push(entry);
        assert(ckeys_view(out@) =~= ckeys_view(before).push(ckey_view(entry)));
        p += len;
    }
}

/// Appends the pairs of an `EKey` page.
fn read_ekey_page(page: &[u8], out: &mut Vec<(Key, u64)>)
    ensures
        pairs_view(final(out)@) == ekey_run(page@, 0, pairs_view(old(out)@)),
{
    let n = page.len();
    let mut p: usize = 0;
    loop
        invariant
            n == page@.len(),
            p <= n,
            ekey_run(page@, 0, pairs_view(old(out)@)) == ekey_run(page@, p as int, pairs_view(out@)),
        decreases n - p,
    {
        if n - p < 25 || is_zero_key(page, p) {
            return;
        }
        let ekey = key_at(page, p);
        let size = be_uint(&page[p + 20..p + 25]);
        let ghost before = out@;
        out.push((ekey, size));
        assert(pairs_view(out@) =~= pairs_view(before).push((page@.subrange(p as int, p + 16), be_value(page@.subrange(p + 20, p + 25)) as u64)));
        p += 25;
    }
}

/// Whether the records are in non-decreasing `CKey` order.
fn check_sorted(v: &Vec<CKeyEntry>) -> (r: bool)
    ensures
        r == ckeys_sorted(ckeys_view(v@)),
{
    let n = v.len();
    if n == 0 {
        return true;
    }
    let mut i: usize = 1;
    while i < n
        invariant
            1 <= i <= n,
            n == v@.len(),
            ckeys_sorted(ckeys_view(v@.subrange(0, i as int))),
        decreases n - i,
    {
        let c = compare_bytes(&v[i - 1].ckey, &v[i].ckey);
        if c > 0 {
            proof {
                lemma_lt_exclusive(v@[i as int].ckey@, v@[i - 1].ckey@);
                lemma_lt_total(v@[i - 1].ckey@, v@[i as int].ckey@);
                if bytes_lt(v@[i - 1].ckey@, v@[i as int].ckey@) {
                    crate::order::lemma_lt_transitive(v@[i as int].ckey@, v@[i - 1].ckey@, v@[i as int].ckey@);
                    crate::order::lemma_lt_irreflexive(v@[i as int].ckey@);
                }
                assert(ckeys_view(v@)[i - 1].0 == v@[i - 1].ckey@);
                assert(ckeys_view(v@)[i as int].0 == v@[i as int].ckey@);
                assert(!bytes_le(ckeys_view(v@)[i - 1].0, ckeys_view(v@)[i as int].0));
            }
            return false;
        }
        proof {
            let s = ckeys_view(v@.subrange(0, i + 1));
            assert forall|a: int, b: int| 0 <= a < b < s.len() implies bytes_le(#[trigger] s[a].0, #[trigger] s[b].0) by {
                let t = ckeys_view(v@.subrange(0, i as int));
                assert(s[a].0 == v@[a].ckey@);
                assert(s[b].0 == v@[b].ckey@);
                if b < i {
                    assert(t[a].0 == v@[a].ckey@);
                    assert(t[b].0 == v@[b].ckey@);
                } else if a < i - 1 {
                    assert(t[a].0 == v@[a].ckey@);
                    assert(t[i - 1].0 == v@[i - 1].ckey@);
                    lemma_le_transitive(v@[a].ckey@, v@[i - 1].ckey@, v@[b].ckey@);
                }
            }
        }
        i += 1;
    }
    assert(v@.subrange(0, n as int) =~= v@);
    true
}

/// `slice::sort_unstable` on `(EKey, size)` pairs: std sorts in place, keeping
/// the same pairs, in the lexicographic order of the key arrays (then the
/// sizes); the contract states the permutation and the key order.
#[verifier::external_body]
fn sort_pairs(v: &mut Vec<(Key, u64)>)
    ensures
        pairs_view(final(v)@).to_multiset() == pairs_view(old(v)@).to_multiset(),
        pairs_sorted(pairs_view(final(v)@)),
{
    v.sort_unstable();
}

} // verus!
