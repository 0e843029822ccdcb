use wow_tools::client::build_info::{render, BuildInfoRow, HEADER};
use wow_tools::client::header::{encoded_header, HEADER_SIZE};
use wow_tools::client::idx::{bucket, build, file_name, IdxEntry, UPDATE_SECTION_MIN};
use wow_tools::client::util::parse_key;

/// Two real headers from an Agent-written `data.005` (archive 5).
#[test]
fn matches_real_agent_headers() {
    let cases = [
        (
            0x000e_010f_u64,
            189_106u32,
            "0000000000000007a12fa058723f9ca8b2e2020000008a09f5dd74051219",
        ),
        (
            0x0010_e3c1,
            24_971,
            "000000000000004b4ccef6c82b5d5ed98b610000000000b768308477e0ea",
        ),
    ];
    for (offset, total, expected) in cases {
        let bytes: Vec<u8> = (0..expected.len())
            .step_by(2)
            .map(|i| u8::from_str_radix(&expected[i..i + 2], 16).unwrap())
            .collect();
        // Recover the 9-byte EKey prefix from the reversed field.
        let mut ekey = [0x77u8; 16];
        for i in 0..9 {
            ekey[i] = bytes[15 - i];
        }
        let h = encoded_header(&ekey, total - HEADER_SIZE as u32, (5 << 30) | offset);
        assert_eq!(h.as_slice(), bytes.as_slice(), "offset {offset:#x}");
    }
}

#[test]
fn header_layout() {
    let ekey = parse_key("53a60f42b994c2ca732fa86aeb4f2f8a").unwrap();
    let h = encoded_header(&ekey, 100, 0);
    assert_eq!(&h[..7], &[0; 7]);
    assert_eq!(h[15], 0x53);
    assert_eq!(h[7], 0x73, "ninth key byte");
    assert_eq!(u32::from_le_bytes(h[16..20].try_into().unwrap()), 130);
    assert_eq!(&h[20..22], &[0, 0]);
}

#[test]
fn bucket_function() {
    // xor of the prefix = 0x5A -> 0xA ^ 0x5 = 0xF
    let mut key = [0u8; 16];
    key[0] = 0x5A;
    assert_eq!(bucket(&key), 0x0F);
    key[1] = 0x5A;
    assert_eq!(bucket(&key), 0);
    key[9] = 0xFF; // beyond the 9-byte prefix
    assert_eq!(bucket(&key), 0);
}

#[test]
fn idx_layout() {
    let e = IdxEntry {
        key: [1; 9],
        storage_offset: (3 << 30) | 0x1234,
        size: 99,
    };
    let data = build(2, &[e, e]);
    assert_eq!(data.len(), 0x1_0000);
    // entries end at 0x28 + 36; the update section must still fit after them
    assert!(data.len() - (0x28 + 36) >= UPDATE_SECTION_MIN);
    assert_eq!(&data[8..16], &[7, 0, 2, 0, 4, 5, 9, 30]);
    assert_eq!(&data[16..24], &[0, 0, 0, 0xC0, 0xFF, 0, 0, 0]);
    assert_eq!(u32::from_le_bytes(data[0x20..0x24].try_into().unwrap()), 18);
    assert_eq!(&data[0x28..0x31], &[1; 9]);
    assert_eq!(&data[0x31..0x36], &[0, 0xC0, 0, 0x12, 0x34]);
    assert_eq!(file_name(0x0f, 1), "0f00000001.idx");
}

#[test]
fn update_section_is_never_truncated() {
    // Entries that end just below a 64 KiB boundary (as in a real bucket of
    // the 3.4.3 client) must push the file to the next boundary.
    let e = IdxEntry {
        key: [2; 9],
        storage_offset: 0,
        size: 1,
    };
    let n = (0x1_0000 - 0x28 - 100) / 18;
    let mut entries = Vec::new();
    for i in 0..n {
        let mut k = e;
        k.key[..4].copy_from_slice(&(i as u32).to_be_bytes());
        entries.push(k);
    }
    let data = build(0, &entries);
    let end = 0x28 + n * 18;
    assert_eq!(
        data.len(),
        (end + UPDATE_SECTION_MIN).div_ceil(0x1_0000) * 0x1_0000
    );
    assert!(data[end..].iter().all(|&b| b == 0));
}

#[test]
fn idx_entries_come_out_sorted_and_unique() {
    let mk = |k: u8, off: u64| IdxEntry { key: [k; 9], storage_offset: off, size: 1 };
    let data = build(1, &[mk(3, 30), mk(1, 10), mk(3, 31), mk(2, 20)]);
    assert_eq!(u32::from_le_bytes(data[0x20..0x24].try_into().unwrap()), 3 * 18);
    assert_eq!(data[0x28], 1);
    assert_eq!(data[0x28 + 18], 2);
    assert_eq!(data[0x28 + 36], 3);
    assert_eq!(data[0x28 + 36 + 13], 30, "the smallest offset of a repeated key is kept");
    assert_eq!(file_name(0, 0x1234), "0000001234.idx");
}

fn row() -> BuildInfoRow {
    BuildInfoRow {
        branch: "eu".into(),
        build_key: "c91609c69ed2ab39d44039390a1be969".into(),
        cdn_key: "a838aeb3cda2e027e9c96bd9953944b3".into(),
        cdn_path: "tpr/wow".into(),
        cdn_hosts: "level3.blizzard.com".into(),
        cdn_servers: "http://level3.blizzard.com/?maxhosts=8".into(),
        tags: "Windows x86_64 EU? esES speech?:Windows x86_64 EU? esES text?".into(),
        version: "3.4.3.54261".into(),
        product: "wow_classic".into(),
    }
}

#[test]
fn renders_agent_layout() {
    let text = render(None, &row());
    assert_eq!(
        text.lines().nth(1).unwrap(),
        "eu|1|c91609c69ed2ab39d44039390a1be969|a838aeb3cda2e027e9c96bd9953944b3|||tpr/wow|level3.blizzard.com|http://level3.blizzard.com/?maxhosts=8|Windows x86_64 EU? esES speech?:Windows x86_64 EU? esES text?|||3.4.3.54261||wow_classic"
    );
    assert!(text.ends_with('\n'));
}

#[test]
fn keeps_other_products() {
    let existing = format!(
        "{HEADER}\nus|1|a|b|||p|h|s|t|||1.2.3||wow_classic_era\nus|1|a|b|||p|h|s|t|||0||wow_classic\n"
    );
    let text = render(Some(&existing), &row());
    assert_eq!(text.lines().count(), 3);
    assert!(text.contains("wow_classic_era"));
    assert_eq!(text.matches("|wow_classic\n").count(), 1);
    // A foreign header is replaced.
    assert_eq!(render(Some("A|B\n1|2\n"), &row()).lines().count(), 2);
}
