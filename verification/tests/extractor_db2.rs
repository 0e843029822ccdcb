use wow_tools::extractor::db2::{
    check_headers, read_headers, rewrite_known_tact_ids, Db2Error, Db2Meta, Db2Table, DUMMY_KNOWN_TACT_ID,
    HEADER_SIZE, SECTION_HEADER_SIZE,
};

/// A regular WDC4 file builder with uncompressed 32-bit fields.
struct Wdc4Builder {
    layout_hash: u32,
    field_count: u32,
    /// Each section: tact id, records (id, fields), strings, copies.
    sections: Vec<SectionSpec>,
}

#[derive(Default, Clone)]
struct SectionSpec {
    tact_id: u64,
    records: Vec<(u32, Vec<u32>)>,
    strings: Vec<u8>,
    copies: Vec<(u32, u32)>,
    zero_data: bool,
}

fn push(out: &mut Vec<u8>, v: u32) {
    out.extend_from_slice(&v.to_le_bytes());
}

impl Wdc4Builder {
    fn build(&self) -> Vec<u8> {
        let fields = self.field_count as usize;
        let record_size = 4 * fields;
        let record_count: usize = self.sections.iter().map(|s| s.records.len()).sum();
        let string_size: usize = self.sections.iter().map(|s| s.strings.len()).sum();
        let encrypted = self.sections.iter().filter(|s| s.tact_id != 0).count();
        let mut out = Vec::new();
        push(&mut out, 0x3443_4457);
        push(&mut out, record_count as u32);
        push(&mut out, self.field_count);
        push(&mut out, record_size as u32);
        push(&mut out, string_size as u32);
        push(&mut out, 0xAABB_CCDD); // table hash
        push(&mut out, self.layout_hash);
        push(&mut out, 0); // min id
        push(&mut out, 0); // max id
        push(&mut out, 0); // locale
        out.extend_from_slice(&0x4u16.to_le_bytes()); // flags: has id list
        out.extend_from_slice(&(-1i16).to_le_bytes()); // index field
        push(&mut out, self.field_count); // total field count
        push(&mut out, record_size as u32); // packed data offset
        push(&mut out, 0); // parent lookup count
        push(&mut out, (fields * 24) as u32); // column meta size
        push(&mut out, 0); // common
        push(&mut out, 0); // pallet
        push(&mut out, self.sections.len() as u32);
        let sections_at = out.len();
        out.resize(out.len() + 40 * self.sections.len(), 0);
        for f in 0..fields {
            out.extend_from_slice(&0i16.to_le_bytes()); // shift
            out.extend_from_slice(&((f * 4) as u16).to_le_bytes());
        }
        for f in 0..fields {
            out.extend_from_slice(&((f * 32) as u16).to_le_bytes());
            out.extend_from_slice(&32u16.to_le_bytes());
            push(&mut out, 0); // additional data size
            push(&mut out, 0); // compression none
            out.extend_from_slice(&[0; 12]);
        }
        for _ in 0..encrypted {
            push(&mut out, 0); // encrypted id count
        }
        for (i, s) in self.sections.iter().enumerate() {
            let file_offset = out.len();
            let data_start = out.len();
            for (_, values) in &s.records {
                for v in values {
                    push(&mut out, *v);
                }
            }
            out.extend_from_slice(&s.strings);
            for (id, _) in &s.records {
                push(&mut out, *id);
            }
            if s.zero_data {
                out[data_start..].fill(0);
            }
            for (new, src) in &s.copies {
                push(&mut out, *new);
                push(&mut out, *src);
            }
            let at = sections_at + i * 40;
            let mut hdr = Vec::new();
            hdr.extend_from_slice(&s.tact_id.to_le_bytes());
            push(&mut hdr, file_offset as u32);
            push(&mut hdr, s.records.len() as u32);
            push(&mut hdr, s.strings.len() as u32);
            push(&mut hdr, 0);
            push(&mut hdr, 4 * s.records.len() as u32);
            push(&mut hdr, 0);
            push(&mut hdr, 0);
            push(&mut hdr, s.copies.len() as u32);
            out[at..at + 40].copy_from_slice(&hdr);
        }
        out
    }
}

const META: Db2Meta = Db2Meta {
    name: "Test.db2",
    file_data_id: 42,
    layout_hash: 0x1234_5678,
    field_count: 2,
};

const KEY: u64 = 0x1122_3344_5566_7788;

fn rd_u64(b: &[u8], at: usize) -> u64 {
    u64::from_le_bytes(b[at..at + 8].try_into().unwrap())
}

/// Field 0 is a string offset relative to the field itself.
fn two_record_file() -> Vec<u8> {
    let strings = b"\0Azeroth\0Kalimdor\0".to_vec();
    Wdc4Builder {
        layout_hash: META.layout_hash,
        field_count: 2,
        sections: vec![SectionSpec {
            records: vec![(0, vec![17, 7]), (1, vec![17, 9])],
            strings,
            copies: vec![(530, 1), (531, 99)],
            ..SectionSpec::default()
        }],
    }
    .build()
}

fn encrypted_file(zero: bool) -> Vec<u8> {
    Wdc4Builder {
        layout_hash: META.layout_hash,
        field_count: 2,
        sections: vec![
            SectionSpec {
                records: vec![(5, vec![0, 50])],
                ..SectionSpec::default()
            },
            SectionSpec {
                tact_id: KEY,
                records: vec![(6, vec![0, 60])],
                copies: vec![(7, 6)],
                zero_data: zero,
                ..SectionSpec::default()
            },
        ],
    }
    .build()
}

#[test]
fn rejects_layout_hash_field_count_and_size_mismatch() {
    let bytes = two_record_file();
    let wrong_hash = Db2Meta {
        layout_hash: 1,
        ..META
    };
    let err = Db2Table::load(bytes.clone(), &wrong_hash, |_| false)
        .err()
        .unwrap();
    assert!(
        err.starts_with("Incorrect layout hash in FileDataId: 42"),
        "{err}"
    );
    let wrong_fields = Db2Meta {
        field_count: 3,
        ..META
    };
    let err = Db2Table::load(bytes.clone(), &wrong_fields, |_| false)
        .err()
        .unwrap();
    assert_eq!(
        err,
        "Incorrect number of fields in FileDataId: 42, expected 3, got 2"
    );
    let mut longer = bytes;
    longer.push(0);
    let err = Db2Table::load(longer, &META, |_| false).err().unwrap();
    assert!(err.contains("failed size consistency check"), "{err}");
}

#[test]
fn signature_check_matches_cpp_message() {
    let mut bytes = two_record_file();
    bytes[0..4].copy_from_slice(b"WDC3");
    let err = check_headers(&bytes, "FileDataId: 1", None).err().unwrap();
    assert_eq!(
        err,
        "Incorrect file signature in FileDataId: 1, expected 'WDC4', got WDC3"
    );
    assert_eq!(
        check_headers(&[0; 10], "x", None).err().unwrap(),
        "Failed to read header"
    );
}

#[test]
fn extraction_rewrites_only_known_tact_ids() {
    for (known, expected) in [(true, DUMMY_KNOWN_TACT_ID), (false, KEY)] {
        let bytes = encrypted_file(!known);
        let headers = check_headers(&bytes, "FileDataId: 42", None).unwrap();
        let out = rewrite_known_tact_ids(&bytes, &headers, |k| known && k == KEY);
        assert_eq!(out.len(), bytes.len());
        let second = HEADER_SIZE + SECTION_HEADER_SIZE;
        assert_eq!(rd_u64(&out, second), expected);
        assert_eq!(rd_u64(&out, HEADER_SIZE), 0);
        assert_eq!(out[second + 8..], bytes[second + 8..]);
    }
}

#[test]
fn loads_ids_numeric_fields_strings_and_copies() {
    let table = Db2Table::load(two_record_file(), &META, |_| false).expect("valid table");
    assert_eq!(table.locations(), &vec![(0, 0), (0, 1)]);
    // Field 0 of both records holds the string offset 17.
    assert_eq!(table.get_string(0, 0, 17), "Azeroth");
    assert_eq!(table.get_string(1, 0, 17), "Kalimdor");
    assert_eq!(table.get_string(1, 0, 0), "");
    assert_eq!(table.copies(), &vec![(530, 1), (531, 99)]);
}

#[test]
fn unknown_key_section_has_no_records_or_copies() {
    let table = Db2Table::load(encrypted_file(true), &META, |_| false).unwrap();
    assert_eq!(table.locations(), &vec![(0, 0)]);
    assert!(table.copies().is_empty());
}

#[test]
fn known_key_section_is_read() {
    let table = Db2Table::load(encrypted_file(false), &META, |k| k == KEY).unwrap();
    assert_eq!(table.locations(), &vec![(0, 0), (1, 0)]);
    assert_eq!(table.copies(), &vec![(7, 6)]);
}

#[test]
fn headers_of_a_regular_file() {
    let bytes = two_record_file();
    let headers = read_headers(&bytes, Some(&META)).unwrap();
    assert_eq!(headers.header.record_count, 2);
    assert_eq!(headers.header.record_size, 8);
    assert_eq!(headers.sections.len(), 1);
    assert_eq!(headers.columns.len(), 2);
    assert_eq!(headers.columns[1].bit_offset, 32);
    // Header, one section header, two field entries, two column entries.
    assert_eq!(headers.end, 72 + 40 + 8 + 48);
}

#[test]
fn db2_error_messages() {
    assert_eq!(
        Db2Error::LayoutHash { expected: 0x1234_5678, got: 0xAB }.message("FileDataId: 7"),
        "Incorrect layout hash in FileDataId: 7, expected 0x12345678, got 0x000000AB (possibly wrong client version)"
    );
    assert_eq!(
        Db2Error::AdditionalData { compression: 4, field: 3 }.message("f"),
        "Unable to read field pallet array values from f for field 3"
    );
    assert_eq!(
        Db2Error::Size { expected: 100, got: 101 }.message("f"),
        "f failed size consistency check, expected 100, got 101"
    );
    assert_eq!(
        Db2Error::IdTableSize { section: 1, expected: 8, got: 4 }.message("f"),
        "Unexpected id table size in f for section 1, expected 8, got 4"
    );
}

#[test]
fn short_copy_table_is_refused() {
    let mut bytes = two_record_file();
    // Claim a third copy row in the section header; the size check fails first.
    let at = HEADER_SIZE + 36;
    bytes[at] = 3;
    let err = Db2Table::load(bytes, &META, |_| false).err().unwrap();
    assert!(err.contains("failed size consistency check"), "{err}");
}
