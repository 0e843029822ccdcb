//! DB2 (WDC4) files as the extractor reads them: header validation, the
//! rewrite of section keys that are known, the size and section checks of a
//! regular table, and its copy table and strings.
//!
//! A file starts with a 72-byte header, then one 40-byte header per
//! section, 4 bytes per field, the column metadata and the extra data of
//! pallet and common columns. Sections whose key (`tact_id`) is not known
//! are skipped.

use vstd::prelude::*;
use crate::bytes::{le_value, read_u32_le};
use crate::text::{
    decimal, hex_fixed, lossy_string, push_decimal, push_decimal_wide, push_hex_fixed, push_str, string_of,
    utf8_lossy,
};

verus! {

/// The key id written in place of every known section key: "TRINITY".
pub const DUMMY_KNOWN_TACT_ID: u64 = 0x5452_494E_4954_5900;

/// `WDC4`, read as a little-endian number.
pub const WDC4_SIGNATURE: u32 = 0x3443_4457;

/// Size of the file header.
pub const HEADER_SIZE: usize = 72;

/// Size of one section header.
pub const SECTION_HEADER_SIZE: usize = 40;

/// Size of one field entry.
pub const FIELD_ENTRY_SIZE: usize = 4;

/// Size of one column's metadata.
pub const COLUMN_META_SIZE: usize = 24;

/// Column compressions.
pub const COMPRESSION_NONE: u32 = 0;
pub const COMPRESSION_IMMEDIATE: u32 = 1;
pub const COMPRESSION_COMMON_DATA: u32 = 2;
pub const COMPRESSION_PALLET: u32 = 3;
pub const COMPRESSION_PALLET_ARRAY: u32 = 4;
pub const COMPRESSION_SIGNED_IMMEDIATE: u32 = 5;

/// What the extractor expects of one of its tables.
#[derive(Debug, Clone, Copy)]
pub struct Db2Meta {
    /// Name used in messages (`"Map.db2"`).
    pub name: &'static str,
    pub file_data_id: u32,
    pub layout_hash: u32,
    /// Number of fields in the file.
    pub field_count: u32,
}

/// The header fields used here.
#[derive(Debug, Clone, Copy, PartialEq, Eq, Structural)]
pub struct Header {
    pub record_count: u32,
    pub field_count: u32,
    pub record_size: u32,
    pub string_table_size: u32,
    pub layout_hash: u32,
    pub flags: u16,
    pub total_field_count: u32,
    pub packed_data_offset: u32,
    pub parent_lookup_count: u32,
    pub column_meta_size: u32,
    pub section_count: u32,
}

/// A section header.
#[derive(Debug, Clone, Copy, PartialEq, Eq, Structural)]
pub struct Section {
    pub tact_id: u64,
    pub file_offset: u32,
    pub record_count: u32,
    pub string_table_size: u32,
    pub id_table_size: u32,
    pub parent_lookup_data_size: u32,
    pub copy_table_count: u32,
}

/// The metadata fields of a column used here.
#[derive(Debug, Clone, Copy, PartialEq, Eq, Structural)]
pub struct ColumnMeta {
    pub bit_offset: u16,
    pub additional_data_size: u32,
    pub compression: u32,
    /// Bit offset of the value in the packed data (immediate and pallet
    /// columns).
    pub packed_bit_offset: u32,
}

/// Everything read before the records.
#[derive(Debug, Clone)]
pub struct Headers {
    pub header: Header,
    pub sections: Vec<Section>,
    pub columns: Vec<ColumnMeta>,
    /// Where the header blocks end.
    pub end: usize,
}

/// Why a file is refused.
#[derive(Debug, Clone, Copy, PartialEq, Eq, Structural)]
pub enum Db2Error {
    /// Shorter than a header.
    ShortHeader,
    /// Not `WDC4`: the four bytes found.
    Signature { b0: u8, b1: u8, b2: u8, b3: u8 },
    LayoutHash { expected: u32, got: u32 },
    ParentLookups { got: u32 },
    FieldCount { expected: u32, got: u32 },
    UnexpectedParentLookup,
    SectionHeaders,
    FieldInfo,
    FieldMetadata,
    /// The extra data of a column of this compression runs past the end.
    AdditionalData { compression: u32, field: usize },
    /// A table with an offset map.
    Sparse,
    EncryptedCount { section: usize },
    Size { expected: u128, got: u64 },
    IdTableSize { section: usize, expected: u64, got: u32 },
    CopyTable { section: usize },
}

/// Little-endian `u16` at `at`.
pub open spec fn le16(b: Seq<u8>, at: int) -> u16 {
    le_value(b.subrange(at, at + 2)) as u16
}

/// Little-endian `u32` at `at`.
pub open spec fn le32(b: Seq<u8>, at: int) -> u32 {
    le_value(b.subrange(at, at + 4)) as u32
}

/// Little-endian `u64` at `at`: two little-endian halves.
pub open spec fn le64(b: Seq<u8>, at: int) -> u64 {
    (le32(b, at) + le32(b, at + 4) * 0x1_0000_0000) as u64
}

/// The header at the start of `b`.
pub open spec fn header_at(b: Seq<u8>) -> Header {
    Header {
        record_count: le32(b, 4),
        field_count: le32(b, 8),
        record_size: le32(b, 12),
        string_table_size: le32(b, 16),
        layout_hash: le32(b, 24),
        flags: le16(b, 40),
        total_field_count: le32(b, 44),
        packed_data_offset: le32(b, 48),
        parent_lookup_count: le32(b, 52),
        column_meta_size: le32(b, 56),
        section_count: le32(b, 68),
    }
}

/// The section header at `at`.
pub open spec fn section_at(b: Seq<u8>, at: int) -> Section {
    Section {
        tact_id: le64(b, at),
        file_offset: le32(b, at + 8),
        record_count: le32(b, at + 12),
        string_table_size: le32(b, at + 16),
        id_table_size: le32(b, at + 24),
        parent_lookup_data_size: le32(b, at + 28),
        copy_table_count: le32(b, at + 36),
    }
}

/// The column metadata at `at`.
pub open spec fn column_at(b: Seq<u8>, at: int) -> ColumnMeta {
    ColumnMeta {
        bit_offset: le16(b, at),
        additional_data_size: le32(b, at + 4),
        compression: le32(b, at + 8),
        packed_bit_offset: le32(b, at + 12),
    }
}

/// The `n` section headers after the file header.
pub open spec fn sections_of(b: Seq<u8>, n: nat) -> Seq<Section> {
    Seq::new(n, |i: int| section_at(b, 72 + 40 * i))
}

/// The `n` column metadata entries from `at`.
pub open spec fn columns_of(b: Seq<u8>, at: int, n: nat) -> Seq<ColumnMeta> {
    Seq::new(n, |i: int| column_at(b, at + 24 * i))
}

/// The compressions whose columns carry extra data, in the order it is
/// stored: pallet, pallet array, common.
pub open spec fn extra_kind(k: int) -> u32 {
    if k == 0 {
        COMPRESSION_PALLET
    } else if k == 1 {
        COMPRESSION_PALLET_ARRAY
    } else {
        COMPRESSION_COMMON_DATA
    }
}

/// The end of the extra data from `pos`, scanning kind `k` from column `i`
/// on, or the column whose data runs past `len`.
pub open spec fn extra_scan(cols: Seq<ColumnMeta>, k: int, i: int, pos: int, len: int) -> Result<int, Db2Error>
    decreases 3 - k, cols.len() - i,
{
    if k < 0 || k >= 3 {
        Ok(pos)
    } else if i < 0 || i >= cols.len() {
        extra_scan(cols, k + 1, 0, pos, len)
    } else if cols[i].compression != extra_kind(k) || cols[i].additional_data_size == 0 {
        extra_scan(cols, k, i + 1, pos, len)
    } else if pos + cols[i].additional_data_size > len {
        Err(Db2Error::AdditionalData { compression: extra_kind(k), field: i as usize })
    } else {
        extra_scan(cols, k, i + 1, pos + cols[i].additional_data_size, len)
    }
}

/// The headers of a file as plain values: header, sections, columns, end.
pub type HeadersModel = (Header, Seq<Section>, Seq<ColumnMeta>, int);

/// The model of read headers.
pub open spec fn headers_view(h: Headers) -> HeadersModel {
    (h.header, h.sections@, h.columns@, h.end as int)
}

/// What reading the headers of `b` gives, checked against `meta` when there
/// is one.
pub open spec fn spec_headers(b: Seq<u8>, meta: Option<Db2Meta>) -> Result<HeadersModel, Db2Error> {
    let h = header_at(b);
    let p1 = 72 + 40 * h.section_count;
    let p2 = p1 + 4 * h.field_count;
    let p3 = p2 + h.column_meta_size;
    let n = if h.total_field_count <= h.column_meta_size / 24 {
        h.total_field_count as nat
    } else {
        (h.column_meta_size / 24) as nat
    };
    if b.len() < 72 {
        Err(Db2Error::ShortHeader)
    } else if le32(b, 0) != WDC4_SIGNATURE {
        Err(Db2Error::Signature { b0: b[0], b1: b[1], b2: b[2], b3: b[3] })
    } else if meta is Some && h.layout_hash != meta->0.layout_hash {
        Err(Db2Error::LayoutHash { expected: meta->0.layout_hash, got: h.layout_hash })
    } else if h.parent_lookup_count > 1 {
        Err(Db2Error::ParentLookups { got: h.parent_lookup_count })
    } else if meta is Some && h.total_field_count != meta->0.field_count {
        Err(Db2Error::FieldCount { expected: meta->0.field_count, got: h.total_field_count })
    } else if meta is Some && h.parent_lookup_count != 0 {
        Err(Db2Error::UnexpectedParentLookup)
    } else if h.section_count != 0 && p1 > b.len() {
        Err(Db2Error::SectionHeaders)
    } else if p2 > b.len() {
        Err(Db2Error::FieldInfo)
    } else if h.column_meta_size == 0 {
        Ok((h, sections_of(b, h.section_count as nat), Seq::empty(), p2))
    } else if p3 > b.len() {
        Err(Db2Error::FieldMetadata)
    } else {
        match extra_scan(columns_of(b, p2, n), 0, 0, p3, b.len() as int) {
            Err(e) => Err(e),
            Ok(end) => Ok((h, sections_of(b, h.section_count as nat), columns_of(b, p2, n), end)),
        }
    }
}

fn read_u16_le(data: &[u8], at: usize) -> (r: u16)
    requires
        at + 2 <= data@.len(),
    ensures
        r == le16(data@, at as int),
{
    let b0 = data[at] as u16;
    let b1 = data[at + 1] as u16;
    let ghost s = data@.subrange(at as int, at + 2);
    assert(s.drop_first().drop_first() =~= Seq::<u8>::empty());
    reveal_with_fuel(le_value, 3);
    assert(le_value(s) == b0 + 256 * b1);
    b0 + 256 * b1
}

fn read_u64_le(data: &[u8], at: usize) -> (r: u64)
    requires
        at + 8 <= data@.len(),
    ensures
        r == le64(data@, at as int),
{
    let _n = data.len();
    let lo = read_u32_le(data, at) as u64;
    let hi = read_u32_le(data, at + 4) as u64;
    lo + hi * 0x1_0000_0000
}

fn section_from(data: &[u8], at: usize) -> (r: Section)
    requires
        at + 40 <= data@.len(),
    ensures
        r == section_at(data@, at as int),
{
    let _n = data.len();
    Section {
        tact_id: read_u64_le(data, at),
        file_offset: read_u32_le(data, at + 8),
        record_count: read_u32_le(data, at + 12),
        string_table_size: read_u32_le(data, at + 16),
        id_table_size: read_u32_le(data, at + 24),
        parent_lookup_data_size: read_u32_le(data, at + 28),
        copy_table_count: read_u32_le(data, at + 36),
    }
}

fn column_from(data: &[u8], at: usize) -> (r: ColumnMeta)
    requires
        at + 24 <= data@.len(),
    ensures
        r == column_at(data@, at as int),
{
    let _n = data.len();
    ColumnMeta {
        bit_offset: read_u16_le(data, at),
        additional_data_size: read_u32_le(data, at + 4),
        compression: read_u32_le(data, at + 8),
        packed_bit_offset: read_u32_le(data, at + 12),
    }
}

fn header_from(data: &[u8]) -> (r: Header)
    requires
        72 <= data@.len(),
    ensures
        r == header_at(data@),
{
    Header {
        record_count: read_u32_le(data, 4),
        field_count: read_u32_le(data, 8),
        record_size: read_u32_le(data, 12),
        string_table_size: read_u32_le(data, 16),
        layout_hash: read_u32_le(data, 24),
        flags: read_u16_le(data, 40),
        total_field_count: read_u32_le(data, 44),
        packed_data_offset: read_u32_le(data, 48),
        parent_lookup_count: read_u32_le(data, 52),
        column_meta_size: read_u32_le(data, 56),
        section_count: read_u32_le(data, 68),
    }
}

fn extra_kind_of(k: usize) -> (r: u32)
    ensures
        r == extra_kind(k as int),
{
    if k == 0 {
        COMPRESSION_PALLET
    } else if k == 1 {
        COMPRESSION_PALLET_ARRAY
    } else {
        COMPRESSION_COMMON_DATA
    }
}

/// Reads and checks the header blocks of `bytes`.
#[verifier::loop_isolation(false)]
pub fn read_headers(bytes: &[u8], meta: Option<&Db2Meta>) -> (r: Result<Headers, Db2Error>)
    ensures
        match (r, spec_headers(bytes@, match meta { Some(m) => Some(*m), None => None })) {
            (Ok(h), Ok(m)) => headers_view(h) == m,
            (Err(e), Err(s)) => e == s,
            _ => false,
        },
{
    let ghost mv = match meta { Some(m) => Some(*m), None => None };
    let len = bytes.len();
    if len < HEADER_SIZE {
        return Err(Db2Error::ShortHeader);
    }
    let signature = read_u32_le(bytes, 0);
    let header = header_from(bytes);
    if signature != WDC4_SIGNATURE {
        return Err(Db2Error::Signature { b0: bytes[0], b1: bytes[1], b2: bytes[2], b3: bytes[3] });
    }
    if let Some(m) = meta {
        if header.layout_hash != m.layout_hash {
            return Err(Db2Error::LayoutHash { expected: m.layout_hash, got: header.layout_hash });
        }
    }
    if header.parent_lookup_count > 1 {
        return Err(Db2Error::ParentLookups { got: header.parent_lookup_count });
    }
    if let Some(m) = meta {
        if header.total_field_count != m.field_count {
            return Err(Db2Error::FieldCount { expected: m.field_count, got: header.total_field_count });
        }
        if header.parent_lookup_count != 0 {
            return Err(Db2Error::UnexpectedParentLookup);
        }
    }
    let p1: u64 = 72 + 40 * (header.section_count as u64);
    if header.section_count != 0 && p1 > len as u64 {
        return Err(Db2Error::SectionHeaders);
    }
    let mut sections: Vec<Section> = Vec::new();
    let mut i: u32 = 0;
    while i < header.section_count
        invariant
            header.section_count == 0 || p1 <= len,
            p1 == 72 + 40 * header.section_count,
            len == bytes@.len(),
            i <= header.section_count,
            sections@ == sections_of(bytes@, header.section_count as nat).take(i as int),
        decreases header.section_count - i,
    {
        let at = 72 + 40 * (i as usize);
        sections.push(section_from(bytes, at));
        i += 1;
        assert(sections@ =~= sections_of(bytes@, header.section_count as nat).take(i as int));
    }
    assert(sections@ =~= sections_of(bytes@, header.section_count as nat));
    let p2: u64 = p1 + 4 * (header.field_count as u64);
    if p2 > len as u64 {
        return Err(Db2Error::FieldInfo);
    }
    if header.column_meta_size == 0 {
        return Ok(Headers { header, sections, columns: Vec::new(), end: p2 as usize });
    }
    let p3: u64 = p2 + header.column_meta_size as u64;
    if p3 > len as u64 {
        return Err(Db2Error::FieldMetadata);
    }
    let per = header.column_meta_size / 24;
    let n: u32 = if header.total_field_count <= per { header.total_field_count } else { per };
    let ghost cv = columns_of(bytes@, p2 as int, n as nat);
    let mut columns: Vec<ColumnMeta> = Vec::new();
    let mut c: u32 = 0;
    while c < n
        invariant
            p3 <= len,
            len == bytes@.len(),
            p3 == p2 + header.column_meta_size,
            n <= header.column_meta_size / 24,
            c <= n,
            cv == columns_of(bytes@, p2 as int, n as nat),
            columns@ == cv.take(c as int),
        decreases n - c,
    {
        let at = (p2 as usize) + 24 * (c as usize);
        columns.push(column_from(bytes, at));
        c += 1;
        assert(columns@ =~= cv.take(c as int));
    }
    assert(columns@ =~= cv);
    let mut pos: u64 = p3;
    let mut k: usize = 0;
    while k < 3
        invariant
            k <= 3,
            pos <= len,
            len == bytes@.len(),
            columns@ == cv,
            extra_scan(cv, 0, 0, p3 as int, len as int) == extra_scan(cv, k as int, 0, pos as int, len as int),
        decreases 3 - k,
    {
        let kind = extra_kind_of(k);
        let mut j: usize = 0;
        while j < columns.len()
            invariant
                k < 3,
                kind == extra_kind(k as int),
                j <= columns@.len(),
                pos <= len,
                len == bytes@.len(),
                columns@ == cv,
                extra_scan(cv, 0, 0, p3 as int, len as int) == extra_scan(cv, k as int, j as int, pos as int, len as int),
            decreases columns@.len() - j,
        {
            let column = columns[j];
            if column.compression == kind && column.additional_data_size != 0 {
                let size = column.additional_data_size as u64;
                if size > len as u64 - pos {
                    assert(cv[j as int] == column);
                    assert(extra_scan(cv, k as int, j as int, pos as int, len as int) == Err::<int, Db2Error>(
                        Db2Error::AdditionalData { compression: kind, field: j },
                    ));
                    return Err(Db2Error::AdditionalData { compression: kind, field: j });
                }
                pos = pos + size;
            }
            j += 1;
        }
        k += 1;
    }
    Ok(Headers { header, sections, columns, end: pos as usize })
}

/// The character of a byte (Latin-1).
pub open spec fn byte_char(b: u8) -> char {
    b as char
}

/// The name of the extra data of a compression.
pub open spec fn extra_name(compression: u32) -> Seq<char> {
    if compression == COMPRESSION_PALLET {
        "pallet values"@
    } else if compression == COMPRESSION_PALLET_ARRAY {
        "pallet array values"@
    } else {
        "common values"@
    }
}

/// The message of `e` for the file named `f`.
pub open spec fn db2_message(e: Db2Error, f: Seq<char>) -> Seq<char> {
    match e {
        Db2Error::ShortHeader => "Failed to read header"@,
        Db2Error::Signature { b0, b1, b2, b3 } => "Incorrect file signature in "@ + f + ", expected 'WDC4', got "@
            + seq![byte_char(b0), byte_char(b1), byte_char(b2), byte_char(b3)],
        Db2Error::LayoutHash { expected, got } => "Incorrect layout hash in "@ + f + ", expected 0x"@
            + hex_fixed(expected as nat, 8, true) + ", got 0x"@ + hex_fixed(got as nat, 8, true)
            + " (possibly wrong client version)"@,
        Db2Error::ParentLookups { got } => "Too many parent lookups in "@ + f
            + ", only one is allowed, got "@ + decimal(got as nat),
        Db2Error::FieldCount { expected, got } => "Incorrect number of fields in "@ + f + ", expected "@
            + decimal(expected as nat) + ", got "@ + decimal(got as nat),
        Db2Error::UnexpectedParentLookup => "Unexpected parent lookup found in "@ + f,
        Db2Error::SectionHeaders => "Unable to read section headers from "@ + f,
        Db2Error::FieldInfo => "Unable to read field information from "@ + f,
        Db2Error::FieldMetadata => "Unable to read field metadata from "@ + f,
        Db2Error::AdditionalData { compression, field } => "Unable to read field "@ + extra_name(compression)
            + " from "@ + f + " for field "@ + decimal(field as nat),
        Db2Error::Sparse => f + ": sparse (offset map) tables are not supported by the extractor"@,
        Db2Error::EncryptedCount { section } => "Unable to read number of encrypted records in "@ + f
            + " for section "@ + decimal(section as nat),
        Db2Error::Size { expected, got } => f + " failed size consistency check, expected "@
            + decimal(expected as nat) + ", got "@ + decimal(got as nat),
        Db2Error::IdTableSize { section, expected, got } => "Unexpected id table size in "@ + f
            + " for section "@ + decimal(section as nat) + ", expected "@ + decimal(expected as nat)
            + ", got "@ + decimal(got as nat),
        Db2Error::CopyTable { section } => "Unable to read section catalog data from "@ + f
            + " for section "@ + decimal(section as nat),
    }
}

impl Db2Error {
    /// The message of the error for the file named `file_name`.
    pub fn message(&self, file_name: &str) -> (r: String)
        ensures
            r@ == db2_message(*self, file_name@),
    {
        let mut out: Vec<char> = Vec::new();
        match *self {
            Db2Error::ShortHeader => {
                push_str(&mut out, "Failed to read header");
            },
            Db2Error::Signature { b0, b1, b2, b3 } => {
                push_str(&mut out, "Incorrect file signature in ");
                push_str(&mut out, file_name);
                push_str(&mut out, ", expected 'WDC4', got ");
                out.push(b0 as char);
                out.push(b1 as char);
                out.push(b2 as char);
                out.push(b3 as char);
            },
            Db2Error::LayoutHash { expected, got } => {
                push_str(&mut out, "Incorrect layout hash in ");
                push_str(&mut out, file_name);
                push_str(&mut out, ", expected 0x");
                push_hex_fixed(&mut out, expected as u64, 8, true);
                push_str(&mut out, ", got 0x");
                push_hex_fixed(&mut out, got as u64, 8, true);
                push_str(&mut out, " (possibly wrong client version)");
            },
            Db2Error::ParentLookups { got } => {
                push_str(&mut out, "Too many parent lookups in ");
                push_str(&mut out, file_name);
                push_str(&mut out, ", only one is allowed, got ");
                push_decimal(&mut out, got as u64);
            },
            Db2Error::FieldCount { expected, got } => {
                push_str(&mut out, "Incorrect number of fields in ");
                push_str(&mut out, file_name);
                push_str(&mut out, ", expected ");
                push_decimal(&mut out, expected as u64);
                push_str(&mut out, ", got ");
                push_decimal(&mut out, got as u64);
            },
            Db2Error::UnexpectedParentLookup => {
                push_str(&mut out, "Unexpected parent lookup found in ");
                push_str(&mut out, file_name);
            },
            Db2Error::SectionHeaders => {
                push_str(&mut out, "Unable to read section headers from ");
                push_str(&mut out, file_name);
            },
            Db2Error::FieldInfo => {
                push_str(&mut out, "Unable to read field information from ");
                push_str(&mut out, file_name);
            },
            Db2Error::FieldMetadata => {
                push_str(&mut out, "Unable to read field metadata from ");
                push_str(&mut out, file_name);
            },
            Db2Error::AdditionalData { compression, field } => {
                push_str(&mut out, "Unable to read field ");
                if compression == COMPRESSION_PALLET {
                    push_str(&mut out, "pallet values");
                } else if compression == COMPRESSION_PALLET_ARRAY {
                    push_str(&mut out, "pallet array values");
                } else {
                    push_str(&mut out, "common values");
                }
                push_str(&mut out, " from ");
                push_str(&mut out, file_name);
                push_str(&mut out, " for field ");
                push_decimal(&mut out, field as u64);
            },
            Db2Error::Sparse => {
                push_str(&mut out, file_name);
                push_str(&mut out, ": sparse (offset map) tables are not supported by the extractor");
            },
            Db2Error::EncryptedCount { section } => {
                push_str(&mut out, "Unable to read number of encrypted records in ");
                push_str(&mut out, file_name);
                push_str(&mut out, " for section ");
                push_decimal(&mut out, section as u64);
            },
            Db2Error::Size { expected, got } => {
                push_str(&mut out, file_name);
                push_str(&mut out, " failed size consistency check, expected ");
                push_decimal_wide(&mut out, expected);
                push_str(&mut out, ", got ");
                push_decimal(&mut out, got);
            },
            Db2Error::IdTableSize { section, expected, got } => {
                push_str(&mut out, "Unexpected id table size in ");
                push_str(&mut out, file_name);
                push_str(&mut out, " for section ");
                push_decimal(&mut out, section as u64);
                push_str(&mut out, ", expected ");
                push_decimal(&mut out, expected);
                push_str(&mut out, ", got ");
                push_decimal(&mut out, got as u64);
            },
            Db2Error::CopyTable { section } => {
                push_str(&mut out, "Unable to read section catalog data from ");
                push_str(&mut out, file_name);
                push_str(&mut out, " for section ");
                push_decimal(&mut out, section as u64);
            },
        }
        let r = string_of(out.as_slice());
        assert(r@ =~= db2_message(*self, file_name@));
        r
    }
}

/// Reads and checks the header blocks of `bytes`; an error is its message
/// for the file named `file_name`.
pub fn check_headers(bytes: &[u8], file_name: &str, meta: Option<&Db2Meta>) -> (r: Result<Headers, String>)
    ensures
        match (r, spec_headers(bytes@, match meta { Some(m) => Some(*m), None => None })) {
            (Ok(h), Ok(m)) => headers_view(h) == m,
            (Err(s), Err(e)) => s@ == db2_message(e, file_name@),
            _ => false,
        },
{
    match read_headers(bytes, meta) {
        Ok(h) => Ok(h),
        Err(e) => Err(e.message(file_name)),
    }
}


/// The bytes of [`DUMMY_KNOWN_TACT_ID`], little-endian.
pub open spec fn dummy_bytes() -> Seq<u8> {
    seq![0x00u8, 0x59u8, 0x54u8, 0x49u8, 0x4Eu8, 0x49u8, 0x52u8, 0x54u8]
}

/// A key id that needs no key: none, or the dummy id.
pub open spec fn tact_id_known(tact_id: u64) -> bool {
    tact_id == 0 || tact_id == DUMMY_KNOWN_TACT_ID
}

/// `b` with the key id of every marked section header replaced by the dummy
/// id.
pub open spec fn tact_rewritten(b: Seq<u8>, marks: Seq<bool>) -> Seq<u8> {
    Seq::new(
        b.len(),
        |j: int|
            if j >= 72 && (j - 72) % 40 < 8 && (j - 72) / 40 < marks.len() && marks[(j - 72) / 40] {
                dummy_bytes()[(j - 72) % 40]
            } else {
                b[j]
            },
    )
}

/// `marks[i]`: section `i` has a key id and `has_tact_key` answered that its
/// key is known.
pub open spec fn rewrite_marks<F: Fn(u64) -> bool>(f: F, sections: Seq<Section>, marks: Seq<bool>) -> bool {
    &&& marks.len() == sections.len()
    &&& forall|i: int|
        0 <= i < sections.len() ==> if sections[i].tact_id == 0 {
            !marks[i]
        } else {
            f.ensures((sections[i].tact_id,), #[trigger] marks[i])
        }
}

/// The file `bytes` with the key id of every section whose key is known
/// (`has_tact_key`) replaced by [`DUMMY_KNOWN_TACT_ID`]; the rest is copied
/// as it is.
pub fn rewrite_known_tact_ids<F: Fn(u64) -> bool>(bytes: &[u8], headers: &Headers, has_tact_key: F) -> (r: Vec<u8>)
    requires
        72 + 40 * headers.sections@.len() <= bytes@.len(),
        forall|k: u64| has_tact_key.requires((k,)),
    ensures
        exists|marks: Seq<bool>| rewrite_marks(has_tact_key, headers.sections@, marks) && r@ == tact_rewritten(bytes@, marks),
{
    let mut out: Vec<u8> = Vec::new();
    crate::bytes::push_all(&mut out, bytes);
    assert(out@ =~= bytes@);
    let dummy: [u8; 8] = [0x00, 0x59, 0x54, 0x49, 0x4E, 0x49, 0x52, 0x54];
    assert(dummy@ =~= dummy_bytes());
    let n = headers.sections.len();
    let blen = bytes.len();
    let ghost mut marks: Seq<bool> = Seq::empty();
    let mut i: usize = 0;
    while i < n
        invariant
            i <= n,
            n == headers.sections@.len(),
            72 + 40 * n <= bytes@.len(),
            blen == bytes@.len(),
            out@.len() == bytes@.len(),
            dummy@ == dummy_bytes(),
            forall|k: u64| has_tact_key.requires((k,)),
            marks.len() == i,
            forall|m: int|
                0 <= m < i ==> if headers.sections@[m].tact_id == 0 {
                    !marks[m]
                } else {
                    has_tact_key.ensures((headers.sections@[m].tact_id,), #[trigger] marks[m])
                },
            out@ == tact_rewritten(bytes@, marks),
        decreases n - i,
    {
        let tact = headers.sections[i].tact_id;
        let mut hit = false;
        if tact != 0 {
            hit = has_tact_key(tact);
        }
        let ghost before = out@;
        if hit {
            let at = 72 + 40 * i;
            let mut k: usize = 0;
            while k < 8
                invariant
                    k <= 8,
                    at == 72 + 40 * i,
                    i < n,
                    72 + 40 * n <= bytes@.len(),
                    dummy@ == dummy_bytes(),
                    out@.len() == before.len(),
                    before.len() == bytes@.len(),
                    forall|j: int| 0 <= j < out@.len() && !(at <= j < at + k) ==> #[trigger] out@[j] == before[j],
                    forall|j: int| at <= j < at + k ==> #[trigger] out@[j] == dummy_bytes()[j - at],
                decreases 8 - k,
            {
                out.set(at + k, dummy[k]);
                k += 1;
            }
        }
        proof {
            let next = marks.push(hit);
            assert forall|j: int| 0 <= j < out@.len() implies #[trigger] out@[j] == tact_rewritten(bytes@, next)[j] by {
                if j >= 72 && (j - 72) / 40 == i && (j - 72) % 40 < 8 {
                    assert(j - 72 == 40 * i + (j - 72) % 40);
                } else {
                    assert(tact_rewritten(bytes@, next)[j] == tact_rewritten(bytes@, marks)[j]);
                }
            }
            assert(out@ =~= tact_rewritten(bytes@, next));
            marks = next;
        }
        i += 1;
    }
    out
}


/// Where the encrypted record id lists that follow the header blocks end,
/// counting from section `i` at `pos`, or the section whose count runs past
/// the end of `b`.
pub open spec fn enc_scan(b: Seq<u8>, secs: Seq<Section>, i: int, pos: int) -> Result<int, Db2Error>
    decreases secs.len() - i,
{
    if i < 0 || i >= secs.len() {
        Ok(pos)
    } else if secs[i].tact_id == 0 {
        enc_scan(b, secs, i + 1, pos)
    } else if pos + 4 > b.len() {
        Err(Db2Error::EncryptedCount { section: i as usize })
    } else {
        enc_scan(b, secs, i + 1, pos + 4 + 4 * le32(b, pos))
    }
}

/// Total size of the copy tables of `secs`.
pub open spec fn copy_bytes(secs: Seq<Section>) -> int
    decreases secs.len(),
{
    if secs.len() == 0 {
        0
    } else {
        copy_bytes(secs.drop_last()) + 8 * secs.last().copy_table_count
    }
}

/// Total size of the parent lookup data of `secs`.
pub open spec fn parent_bytes(secs: Seq<Section>) -> int
    decreases secs.len(),
{
    if secs.len() == 0 {
        0
    } else {
        parent_bytes(secs.drop_last()) + secs.last().parent_lookup_data_size
    }
}

/// The size a regular table with these headers has, when its id lists end
/// at `pos`: records, strings, id list, copy tables, parent lookups.
pub open spec fn expected_size(h: Header, secs: Seq<Section>, pos: int) -> int {
    pos + h.record_size * h.record_count + h.string_table_size + 4 * h.record_count + copy_bytes(secs)
        + parent_bytes(secs)
}

/// Where the copy table of a section starts.
pub open spec fn copy_at(s: Section, record_size: u32) -> int {
    s.file_offset + s.record_count * record_size + s.string_table_size + s.id_table_size
}

/// The records of section `i`: `(i, 0)`, `(i, 1)`, ...
pub open spec fn section_locations(i: int, n: nat) -> Seq<(usize, u32)> {
    Seq::new(n, |r: int| (i as usize, r as u32))
}

/// `n` copy rows `(new id, source id)` at `at`.
pub open spec fn copy_rows(b: Seq<u8>, at: int, n: nat) -> Seq<(u32, u32)> {
    Seq::new(n, |c: int| (le32(b, at + 8 * c), le32(b, at + 8 * c + 4)))
}

/// Record locations and copy rows of the first `i` sections, skipping
/// those whose key is not known, or the first section that is refused.
pub open spec fn sections_read(
    b: Seq<u8>,
    record_size: u32,
    secs: Seq<Section>,
    known: Seq<bool>,
    i: int,
) -> Result<(Seq<(usize, u32)>, Seq<(u32, u32)>), Db2Error>
    decreases i,
{
    if i <= 0 {
        Ok((Seq::empty(), Seq::empty()))
    } else {
        match sections_read(b, record_size, secs, known, i - 1) {
            Err(e) => Err(e),
            Ok(acc) => {
                let s = secs[i - 1];
                if !known[i - 1] {
                    Ok(acc)
                } else if s.id_table_size != 4 * s.record_count {
                    Err(
                        Db2Error::IdTableSize {
                            section: (i - 1) as usize,
                            expected: (4 * s.record_count) as u64,
                            got: s.id_table_size,
                        },
                    )
                } else if s.copy_table_count > 0 && copy_at(s, record_size) + 8 * s.copy_table_count > b.len() {
                    Err(Db2Error::CopyTable { section: (i - 1) as usize })
                } else {
                    Ok(
                        (
                            acc.0 + section_locations(i - 1, s.record_count as nat),
                            acc.1 + copy_rows(b, copy_at(s, record_size), s.copy_table_count as nat),
                        ),
                    )
                }
            },
        }
    }
}

/// A loaded table as plain values: file, headers, which sections are read,
/// record locations `(section, index in section)`, copy rows.
pub type Db2Model = (Seq<u8>, HeadersModel, Seq<bool>, Seq<(usize, u32)>, Seq<(u32, u32)>);

/// What loading the regular table `b` with headers `hm` gives, where
/// `known[i]` says whether the key of section `i` is known.
pub open spec fn spec_table(b: Seq<u8>, hm: HeadersModel, known: Seq<bool>) -> Result<Db2Model, Db2Error> {
    let h = hm.0;
    if h.flags % 2 != 0 {
        Err(Db2Error::Sparse)
    } else {
        match enc_scan(b, hm.1, 0, hm.3) {
            Err(e) => Err(e),
            Ok(pos) => {
                let expected = expected_size(h, hm.1, pos);
                if b.len() != expected {
                    Err(Db2Error::Size { expected: expected as u128, got: b.len() as u64 })
                } else {
                    match sections_read(b, h.record_size, hm.1, known, hm.1.len() as int) {
                        Err(e) => Err(e),
                        Ok(acc) => Ok((b, hm, known, acc.0, acc.1)),
                    }
                }
            },
        }
    }
}

/// `known[i]`: whether the key of section `i` is known, where `has_tact_key`
/// answers for the keys that are not known without it.
pub open spec fn known_marks<F: Fn(u64) -> bool>(f: F, secs: Seq<Section>, known: Seq<bool>) -> bool {
    &&& known.len() == secs.len()
    &&& forall|i: int|
        0 <= i < secs.len() ==> if tact_id_known(secs[i].tact_id) {
            #[trigger] known[i]
        } else {
            f.ensures((secs[i].tact_id,), known[i])
        }
}

/// The name of a table's file in messages: `FileDataId: <id>`.
pub open spec fn file_name_of(file_data_id: u32) -> Seq<char> {
    "FileDataId: "@ + decimal(file_data_id as nat)
}

/// A loaded regular table.
pub struct Db2Table {
    bytes: Vec<u8>,
    headers: Headers,
    known: Vec<bool>,
    locations: Vec<(usize, u32)>,
    copies: Vec<(u32, u32)>,
}

/// Whether section `i` of `secs` is read: `tact_known(i)`.
pub fn tact_known<F: Fn(u64) -> bool>(sections: &Vec<Section>, has_tact_key: F) -> (r: Vec<bool>)
    requires
        forall|k: u64| has_tact_key.requires((k,)),
    ensures
        known_marks(has_tact_key, sections@, r@),
{
    let mut known: Vec<bool> = Vec::new();
    let mut i: usize = 0;
    while i < sections.len()
        invariant
            i <= sections@.len(),
            forall|k: u64| has_tact_key.requires((k,)),
            known@.len() == i,
            forall|j: int|
                0 <= j < i ==> if tact_id_known(sections@[j].tact_id) {
                    #[trigger] known@[j]
                } else {
                    has_tact_key.ensures((sections@[j].tact_id,), known@[j])
                },
        decreases sections@.len() - i,
    {
        let t = sections[i].tact_id;
        let k = if t == 0 || t == DUMMY_KNOWN_TACT_ID {
            true
        } else {
            has_tact_key(t)
        };
        known.push(k);
        i += 1;
    }
    known
}

fn file_name(file_data_id: u32) -> (r: String)
    ensures
        r@ == file_name_of(file_data_id),
{
    let mut out: Vec<char> = Vec::new();
    push_str(&mut out, "FileDataId: ");
    push_decimal(&mut out, file_data_id as u64);
    string_of(out.as_slice())
}

proof fn lemma_extra_scan_bound(cols: Seq<ColumnMeta>, k: int, i: int, pos: int, len: int)
    requires
        pos <= len,
    ensures
        extra_scan(cols, k, i, pos, len) matches Ok(e) ==> e <= len,
    decreases 3 - k, cols.len() - i,
{
    if k < 0 || k >= 3 {
    } else if i < 0 || i >= cols.len() {
        lemma_extra_scan_bound(cols, k + 1, 0, pos, len);
    } else if cols[i].compression != extra_kind(k) || cols[i].additional_data_size == 0 {
        lemma_extra_scan_bound(cols, k, i + 1, pos, len);
    } else if pos + cols[i].additional_data_size > len {
    } else {
        lemma_extra_scan_bound(cols, k, i + 1, pos + cols[i].additional_data_size, len);
    }
}

/// Read headers end inside the file.
proof fn lemma_headers_end(b: Seq<u8>, meta: Option<Db2Meta>)
    ensures
        spec_headers(b, meta) matches Ok(hm) ==> hm.3 <= b.len() && hm.1.len() <= 0xFFFF_FFFF,
{
    let h = header_at(b);
    let p2 = 72 + 40 * h.section_count + 4 * h.field_count;
    let p3 = p2 + h.column_meta_size;
    let n = if h.total_field_count <= h.column_meta_size / 24 {
        h.total_field_count as nat
    } else {
        (h.column_meta_size / 24) as nat
    };
    if p3 <= b.len() {
        lemma_extra_scan_bound(columns_of(b, p2, n), 0, 0, p3, b.len() as int);
    }
}

/// Once a section is refused, so is the table.
proof fn lemma_sections_err(b: Seq<u8>, rs: u32, secs: Seq<Section>, known: Seq<bool>, j: int, k: int)
    requires
        0 <= j <= k,
        sections_read(b, rs, secs, known, j) is Err,
    ensures
        sections_read(b, rs, secs, known, k) == sections_read(b, rs, secs, known, j),
    decreases k - j,
{
    if k > j {
        lemma_sections_err(b, rs, secs, known, j, k - 1);
    }
}

proof fn lemma_copy_bytes_step(secs: Seq<Section>, i: int)
    requires
        0 <= i < secs.len(),
    ensures
        copy_bytes(secs.take(i + 1)) == copy_bytes(secs.take(i)) + 8 * secs[i].copy_table_count,
        parent_bytes(secs.take(i + 1)) == parent_bytes(secs.take(i)) + secs[i].parent_lookup_data_size,
        0 <= copy_bytes(secs.take(i)),
        0 <= parent_bytes(secs.take(i)),
{
    assert(secs.take(i + 1).drop_last() =~= secs.take(i));
    lemma_sizes_nonneg(secs.take(i));
}

proof fn lemma_sizes_nonneg(secs: Seq<Section>)
    ensures
        0 <= copy_bytes(secs) <= secs.len() * 0x8_0000_0000,
        0 <= parent_bytes(secs) <= secs.len() * 0x1_0000_0000,
    decreases secs.len(),
{
    if secs.len() > 0 {
        lemma_sizes_nonneg(secs.drop_last());
    }
}

impl Db2Table {
    /// The model of the table.
    pub closed spec fn view(&self) -> Db2Model {
        (self.bytes@, headers_view(self.headers), self.known@, self.locations@, self.copies@)
    }

    #[verifier::type_invariant]
    closed spec fn wf(&self) -> bool {
        &&& self.known@.len() == self.headers.sections@.len()
        &&& self.headers.sections@.len() <= 0xFFFF_FFFF
        &&& forall|k: int| 0 <= k < self.locations@.len() ==> (#[trigger] self.locations@[k]).0 < self.headers.sections@.len()
    }

    /// Checks a regular table whose header blocks are `headers`, reading
    /// the sections marked in `known`.
    #[verifier::loop_isolation(false)]
    pub fn from_headers(bytes: Vec<u8>, headers: Headers, known: Vec<bool>) -> (r: Result<Self, Db2Error>)
        requires
            headers.end <= bytes@.len(),
            headers.sections@.len() <= 0xFFFF_FFFF,
            known@.len() == headers.sections@.len(),
        ensures
            match (r, spec_table(bytes@, headers_view(headers), known@)) {
                (Ok(t), Ok(m)) => t.view() == m,
                (Err(e), Err(s)) => e == s,
                _ => false,
            },
    {
        let ghost b = bytes@;
        let ghost hm = headers_view(headers);
        let ghost secs = headers.sections@;
        let len = bytes.len();
        let header = headers.header;
        if header.flags % 2 != 0 {
            return Err(Db2Error::Sparse);
        }
        let n = headers.sections.len();
        // Encrypted record id lists.
        let mut pos: u128 = headers.end as u128;
        let mut i: usize = 0;
        while i < n
            invariant
                i <= n,
                n == secs.len(),
                secs == headers.sections@,
                len == b.len(),
                b == bytes@,
                pos <= len + 0x5_0000_0000,
                enc_scan(b, secs, 0, hm.3) == enc_scan(b, secs, i as int, pos as int),
            decreases n - i,
        {
            let s = headers.sections[i];
            if s.tact_id != 0 {
                if pos + 4 > len as u128 {
                    return Err(Db2Error::EncryptedCount { section: i });
                }
                let count = read_u32_le(bytes.as_slice(), pos as usize) as u128;
                pos = pos + 4 + 4 * count;
            }
            i += 1;
        }
        // Copy tables and parent lookups.
        let mut copy_size: u128 = 0;
        let mut parent_size: u128 = 0;
        let mut i: usize = 0;
        while i < n
            invariant
                i <= n,
                n == secs.len(),
                secs == headers.sections@,
                copy_size == copy_bytes(secs.take(i as int)),
                parent_size == parent_bytes(secs.take(i as int)),
                copy_size <= i * 0x8_0000_0000,
                parent_size <= i * 0x1_0000_0000,
            decreases n - i,
        {
            proof {
                lemma_copy_bytes_step(secs, i as int);
            }
            let s = headers.sections[i];
            copy_size = copy_size + 8 * (s.copy_table_count as u128);
            parent_size = parent_size + s.parent_lookup_data_size as u128;
            i += 1;
        }
        assert(secs.take(n as int) =~= secs);
        let rs = header.record_size as u128;
        let rc = header.record_count as u128;
        assert(rs * rc <= 0xFFFF_FFFF * 0xFFFF_FFFF) by (nonlinear_arith)
            requires
                rs <= 0xFFFF_FFFF,
                rc <= 0xFFFF_FFFF,
        ;
        let expected: u128 = pos + rs * rc + header.string_table_size as u128 + 4 * rc + copy_size + parent_size;
        if len as u128 != expected {
            return Err(Db2Error::Size { expected, got: len as u64 });
        }
        // Sections.
        let mut locations: Vec<(usize, u32)> = Vec::new();
        let mut copies: Vec<(u32, u32)> = Vec::new();
        let mut i: usize = 0;
        while i < n
            invariant
                i <= n,
                n == secs.len(),
                secs == headers.sections@,
                known@.len() == n,
                len == b.len(),
                b == bytes@,
                rs == header.record_size,
                sections_read(b, header.record_size, secs, known@, i as int) == Ok::<(Seq<(usize, u32)>, Seq<(u32, u32)>), Db2Error>((locations@, copies@)),
                forall|k: int| 0 <= k < locations@.len() ==> (#[trigger] locations@[k]).0 < n,
            decreases n - i,
        {
            let s = headers.sections[i];
            if !known[i] {
                i += 1;
                continue;
            }
            if s.id_table_size as u64 != 4 * (s.record_count as u64) {
                proof {
                    lemma_sections_err(b, header.record_size, secs, known@, i + 1, n as int);
                }
                return Err(Db2Error::IdTableSize { section: i, expected: 4 * (s.record_count as u64), got: s.id_table_size });
            }
            let ghost locs0 = locations@;
            let mut r: u32 = 0;
            while r < s.record_count
                invariant
                    r <= s.record_count,
                    i < n,
                    locations@ == locs0 + section_locations(i as int, r as nat),
                    forall|k: int| 0 <= k < locs0.len() ==> (#[trigger] locs0[k]).0 < n,
                    forall|k: int| 0 <= k < locations@.len() ==> (#[trigger] locations@[k]).0 < n,
                decreases s.record_count - r,
            {
                locations.push((i, r));
                r += 1;
                assert(locations@ =~= locs0 + section_locations(i as int, r as nat));
            }
            let rcs = s.record_count as u128;
            assert(rcs * rs <= 0xFFFF_FFFF * 0xFFFF_FFFF) by (nonlinear_arith)
                requires
                    rs <= 0xFFFF_FFFF,
                    rcs <= 0xFFFF_FFFF,
            ;
            let at0: u128 = s.file_offset as u128 + rcs * rs + s.string_table_size as u128 + s.id_table_size as u128;
            assert(at0 == copy_at(s, header.record_size)) by (nonlinear_arith)
                requires
                    at0 == s.file_offset + rcs * rs + s.string_table_size + s.id_table_size,
                    rcs == s.record_count,
                    rs == header.record_size,
            ;
            let ghost copies0 = copies@;
            let mut c: u32 = 0;
            while c < s.copy_table_count
                invariant
                    c <= s.copy_table_count,
                    len == b.len(),
                    b == bytes@,
                    at0 == copy_at(s, header.record_size),
                    c > 0 ==> at0 + 8 * c <= len,
                    copies@ == copies0 + copy_rows(b, at0 as int, c as nat),
                decreases s.copy_table_count - c,
            {
                let at = at0 + 8 * (c as u128);
                if at + 8 > len as u128 {
                    proof {
                        assert(at0 + 8 * s.copy_table_count > len);
                        lemma_sections_err(b, header.record_size, secs, known@, i + 1, n as int);
                    }
                    return Err(Db2Error::CopyTable { section: i });
                }
                let new_id = read_u32_le(bytes.as_slice(), at as usize);
                let source = read_u32_le(bytes.as_slice(), (at + 4) as usize);
                copies.push((new_id, source));
                c += 1;
                assert(copies@ =~= copies0 + copy_rows(b, at0 as int, c as nat));
            }
            i += 1;
        }
        assert(sections_read(b, header.record_size, secs, known@, n as int) == Ok::<(Seq<(usize, u32)>, Seq<(u32, u32)>), Db2Error>((locations@, copies@)));
        Ok(Db2Table { bytes, headers, known, locations, copies })
    }

    /// Loads the regular table `bytes` described by `meta`: the header
    /// checks, then [`Db2Table::from_headers`] with the sections whose key
    /// is known (`has_tact_key`); an error is its message for the file.
    pub fn load<F: Fn(u64) -> bool>(bytes: Vec<u8>, meta: &Db2Meta, has_tact_key: F) -> (r: Result<Self, String>)
        requires
            forall|k: u64| has_tact_key.requires((k,)),
        ensures
            match spec_headers(bytes@, Some(*meta)) {
                Err(e) => r matches Err(s) && s@ == db2_message(e, file_name_of(meta.file_data_id)),
                Ok(hm) => exists|known: Seq<bool>|
                    known_marks(has_tact_key, hm.1, known) && match (r, spec_table(bytes@, hm, known)) {
                        (Ok(t), Ok(m)) => t.view() == m,
                        (Err(s), Err(e)) => s@ == db2_message(e, file_name_of(meta.file_data_id)),
                        _ => false,
                    },
            },
    {
        let name = file_name(meta.file_data_id);
        let headers = match read_headers(bytes.as_slice(), Some(meta)) {
            Ok(h) => h,
            Err(e) => return Err(e.message(name.as_str())),
        };
        proof {
            lemma_headers_end(bytes@, Some(*meta));
        }
        let known = tact_known(&headers.sections, has_tact_key);
        let ghost kv = known@;
        match Self::from_headers(bytes, headers, known) {
            Ok(t) => Ok(t),
            Err(e) => Err(e.message(name.as_str())),
        }
    }

    /// The copy rows `(new id, source id)` of the read sections, in file
    /// order.
    pub fn copies(&self) -> (r: &Vec<(u32, u32)>)
        ensures
            r@ == self.view().4,
    {
        &self.copies
    }

    /// The record locations `(section, index in section)`, in file order.
    pub fn locations(&self) -> (r: &Vec<(usize, u32)>)
        ensures
            r@ == self.view().3,
    {
        &self.locations
    }
}


/// Byte `at` of `b`, or zero past its end.
pub open spec fn byte_or_zero(b: Seq<u8>, at: int) -> u8 {
    if 0 <= at < b.len() {
        b[at]
    } else {
        0
    }
}

/// Byte `pos` of the records of sections `i..`, back to back; the records
/// of a section that is not read are zero.
pub open spec fn records_byte(b: Seq<u8>, secs: Seq<Section>, known: Seq<bool>, rs: u32, i: int, pos: int) -> u8
    decreases secs.len() - i,
{
    if i < 0 || i >= secs.len() {
        0
    } else if pos < secs[i].record_count * rs {
        if !known[i] {
            0
        } else {
            byte_or_zero(b, secs[i].file_offset + pos)
        }
    } else {
        records_byte(b, secs, known, rs, i + 1, pos - secs[i].record_count * rs)
    }
}

/// Byte `pos` of the string tables of sections `i..`, back to back; the
/// strings of a section that is not read are zero.
pub open spec fn strings_byte(b: Seq<u8>, secs: Seq<Section>, known: Seq<bool>, rs: u32, i: int, pos: int) -> u8
    decreases secs.len() - i,
{
    if i < 0 || i >= secs.len() {
        0
    } else if pos < secs[i].string_table_size {
        if !known[i] {
            0
        } else {
            byte_or_zero(b, secs[i].file_offset + secs[i].record_count * rs + pos)
        }
    } else {
        strings_byte(b, secs, known, rs, i + 1, pos - secs[i].string_table_size)
    }
}

/// Total size of the string tables of sections `i..`.
pub open spec fn strings_total(secs: Seq<Section>, i: int) -> int
    decreases secs.len() - i,
{
    if i < 0 || i >= secs.len() {
        0
    } else {
        secs[i].string_table_size + strings_total(secs, i + 1)
    }
}

/// Size of the records of all sections, as the header gives it.
pub open spec fn records_total(m: Db2Model) -> int {
    m.1.0.record_size * m.1.0.record_count
}

/// Byte `pos` of the table's data: every section's records back to back,
/// then every section's string table.
pub open spec fn data_byte_of(m: Db2Model, pos: int) -> u8 {
    if pos >= records_total(m) {
        strings_byte(m.0, m.1.1, m.2, m.1.0.record_size, 0, pos - records_total(m))
    } else {
        records_byte(m.0, m.1.1, m.2, m.1.0.record_size, 0, pos)
    }
}

/// Past this position the data holds only zeros.
pub open spec fn data_len(m: Db2Model) -> int {
    records_total(m) + strings_total(m.1.1, 0)
}

/// The bytes of the data from `pos` up to the first zero.
pub open spec fn cstring_at(m: Db2Model, pos: int) -> Seq<u8>
    decreases data_len(m) - pos,
{
    if pos < 0 || pos >= data_len(m) || data_byte_of(m, pos) == 0 {
        Seq::empty()
    } else {
        seq![data_byte_of(m, pos)] + cstring_at(m, pos + 1)
    }
}

/// Offset of field `field` inside a record.
pub open spec fn field_offset_of(m: Db2Model, field: int) -> int {
    let cols = m.1.2;
    if field < 0 || field >= cols.len() {
        0
    } else if cols[field].compression == COMPRESSION_NONE {
        (cols[field].bit_offset / 8) as int
    } else if cols[field].compression == COMPRESSION_IMMEDIATE || cols[field].compression
        == COMPRESSION_SIGNED_IMMEDIATE || cols[field].compression == COMPRESSION_PALLET
        || cols[field].compression == COMPRESSION_PALLET_ARRAY {
        (cols[field].packed_bit_offset / 8) as int + m.1.0.packed_data_offset
    } else {
        0xFFFF
    }
}

/// Size of the records of the first `k` sections.
pub open spec fn records_before(secs: Seq<Section>, rs: u32, k: int) -> int
    decreases k,
{
    if k <= 0 {
        0
    } else {
        records_before(secs, rs, k - 1) + secs[k - 1].record_count * rs
    }
}

/// Where record `idx` starts in the data.
pub open spec fn record_start(m: Db2Model, idx: int) -> int {
    let (section, r) = m.3[idx];
    records_before(m.1.1, m.1.0.record_size, section as int) + r * m.1.0.record_size
}

proof fn lemma_strings_total_bound(secs: Seq<Section>, i: int)
    requires
        0 <= i <= secs.len(),
    ensures
        0 <= strings_total(secs, i) <= (secs.len() - i) * 0x1_0000_0000,
    decreases secs.len() - i,
{
    if i < secs.len() {
        lemma_strings_total_bound(secs, i + 1);
    }
}

proof fn lemma_strings_byte_zero(b: Seq<u8>, secs: Seq<Section>, known: Seq<bool>, rs: u32, i: int, pos: int)
    ensures
        strings_byte(b, secs, known, rs, i, pos) != 0 ==> pos < strings_total(secs, i),
        strings_total(secs, i) >= 0,
    decreases secs.len() - i,
{
    if 0 <= i < secs.len() {
        lemma_strings_byte_zero(b, secs, known, rs, i + 1, pos - secs[i].string_table_size);
    }
}

impl Db2Table {
    fn data_byte(&self, pos: u128) -> (r: u8)
        ensures
            r == data_byte_of(self.view(), pos as int),
    {
        proof {
            use_type_invariant(self);
        }
        let ghost m = self.view();
        let header = self.headers.header;
        let rs = header.record_size as u128;
        let rc = header.record_count as u128;
        assert(rs * rc <= 0xFFFF_FFFF * 0xFFFF_FFFF) by (nonlinear_arith)
            requires
                rs <= 0xFFFF_FFFF,
                rc <= 0xFFFF_FFFF,
        ;
        let total = rs * rc;
        assert(records_total(m) == header.record_size * header.record_count);
        assert(total == records_total(m)) by (nonlinear_arith)
            requires
                total == rs * rc,
                rs == header.record_size,
                rc == header.record_count,
                records_total(m) == header.record_size * header.record_count,
        ;
        let in_strings = pos >= total;
        let mut p: u128 = if in_strings { pos - total } else { pos };
        let n = self.headers.sections.len();
        let mut i: usize = 0;
        while i < n
            invariant
                i <= n,
                n == m.1.1.len(),
                m == self.view(),
                self.known@.len() == n,
                rs == header.record_size,
                header == m.1.0,
                data_byte_of(m, pos as int) == if in_strings {
                    strings_byte(m.0, m.1.1, m.2, header.record_size, i as int, p as int)
                } else {
                    records_byte(m.0, m.1.1, m.2, header.record_size, i as int, p as int)
                },
            decreases n - i,
        {
            let s = self.headers.sections[i];
            let rcs = s.record_count as u128;
            assert(rcs * rs <= 0xFFFF_FFFF * 0xFFFF_FFFF) by (nonlinear_arith)
                requires
                    rs <= 0xFFFF_FFFF,
                    rcs <= 0xFFFF_FFFF,
            ;
            let records = rcs * rs;
            assert(records == s.record_count * header.record_size) by (nonlinear_arith)
                requires
                    records == rcs * rs,
                    rcs == s.record_count,
                    rs == header.record_size,
            ;
            let size = if in_strings { s.string_table_size as u128 } else { records };
            if p < size {
                if !self.known[i] {
                    return 0;
                }
                let base: u128 = s.file_offset as u128 + if in_strings { records } else { 0 };
                let at = base + p;
                if at < self.bytes.len() as u128 {
                    return self.bytes[at as usize];
                }
                return 0;
            }
            p = p - size;
            i += 1;
        }
        0
    }

    /// Where record `idx` starts in the data.
    fn record_start(&self, idx: usize) -> (r: u128)
        requires
            idx < self.view().3.len(),
        ensures
            r == record_start(self.view(), idx as int),
            r <= 0x1_0000_0000_0000_0000_0000_0000,
    {
        proof {
            use_type_invariant(self);
        }
        let ghost m = self.view();
        let (section, in_section) = self.locations[idx];
        let rs = self.headers.header.record_size as u128;
        let mut acc: u128 = 0;
        let mut k: usize = 0;
        while k < section
            invariant
                k <= section,
                section < m.1.1.len(),
                m.1.1.len() <= 0xFFFF_FFFF,
                m == self.view(),
                rs == m.1.0.record_size,
                acc == records_before(m.1.1, m.1.0.record_size, k as int),
                acc <= k * 0x1_0000_0000_0000_0000,
            decreases section - k,
        {
            let rcs = self.headers.sections[k].record_count as u128;
            assert(rcs * rs <= 0xFFFF_FFFF * 0xFFFF_FFFF) by (nonlinear_arith)
                requires
                    rs <= 0xFFFF_FFFF,
                    rcs <= 0xFFFF_FFFF,
            ;
            acc = acc + rcs * rs;
            k += 1;
        }
        let ins = in_section as u128;
        assert(ins * rs <= 0xFFFF_FFFF * 0xFFFF_FFFF) by (nonlinear_arith)
            requires
                rs <= 0xFFFF_FFFF,
                ins <= 0xFFFF_FFFF,
        ;
        let own = ins * rs;
        acc + own
    }

    /// Offset of field `field` inside a record.
    fn field_offset(&self, field: usize) -> (r: u128)
        ensures
            r == field_offset_of(self.view(), field as int),
    {
        if field >= self.headers.columns.len() {
            return 0;
        }
        let column = self.headers.columns[field];
        if column.compression == COMPRESSION_NONE {
            (column.bit_offset / 8) as u128
        } else if column.compression == COMPRESSION_IMMEDIATE || column.compression == COMPRESSION_SIGNED_IMMEDIATE
            || column.compression == COMPRESSION_PALLET || column.compression == COMPRESSION_PALLET_ARRAY {
            (column.packed_bit_offset / 8) as u128 + self.headers.header.packed_data_offset as u128
        } else {
            0xFFFF
        }
    }

    /// The string of field `field` of record `idx`, whose stored offset
    /// (read from the record) is `string_offset`: the bytes of the data at
    /// record start + field offset + `string_offset` up to the first zero;
    /// an offset of zero is no string.
    pub fn get_string(&self, idx: usize, field: usize, string_offset: u32) -> (r: String)
        requires
            idx < self.view().3.len(),
        ensures
            string_offset == 0 ==> r@ == Seq::<char>::empty(),
            string_offset != 0 ==> r@ == utf8_lossy(
                cstring_at(
                    self.view(),
                    record_start(self.view(), idx as int) + field_offset_of(self.view(), field as int) + string_offset,
                ),
            ),
    {
        if string_offset == 0 {
            return String::new();
        }
        let ghost m = self.view();
        let start: u128 = self.record_start(idx) + self.field_offset(field) + string_offset as u128;
        let mut pos: u128 = start;
        let mut out: Vec<u8> = Vec::new();
        proof {
            use_type_invariant(self);
            lemma_strings_total_bound(m.1.1, 0);
            let h = m.1.0;
            assert(records_total(m) <= 0xFFFF_FFFF * 0xFFFF_FFFF) by (nonlinear_arith)
                requires
                    records_total(m) == h.record_size * h.record_count,
                    h.record_size <= 0xFFFF_FFFF,
                    h.record_count <= 0xFFFF_FFFF,
            ;
        }
        loop
            invariant_except_break
                m == self.view(),
                start <= pos,
                pos == start || pos <= data_len(m),
                data_len(m) <= 0x2_0000_0000_0000_0000,
                cstring_at(m, start as int) == out@ + cstring_at(m, pos as int),
            ensures
                cstring_at(m, start as int) == out@,
            decreases data_len(m) - pos,
        {
            let b = self.data_byte(pos);
            if b == 0 {
                assert(cstring_at(m, pos as int) == Seq::<u8>::empty());
                assert(out@ + Seq::<u8>::empty() =~= out@);
                break;
            }
            proof {
                let h = m.1.0;
                lemma_strings_byte_zero(m.0, m.1.1, m.2, h.record_size, 0, pos - records_total(m));
                assert(records_total(m) >= 0) by (nonlinear_arith)
                    requires
                        records_total(m) == h.record_size * h.record_count,
                ;
                assert(pos < data_len(m));
                assert(cstring_at(m, pos as int) == seq![b] + cstring_at(m, pos + 1));
                assert(out@.push(b) + cstring_at(m, pos + 1) =~= out@ + (seq![b] + cstring_at(m, pos + 1)));
            }
            out.push(b);
            pos = pos + 1;
        }
        lossy_string(out.as_slice())
    }
}

} // verus!
