use wow_tools::client::util::{be_uint, cdn_path, hex, human_size, md5, parse_key};

#[test]
fn key_hex_round_trip() {
    let text = "c91609c69ed2ab39d44039390a1be969";
    let key = parse_key(text).unwrap();
    assert_eq!(key[0], 0xc9);
    assert_eq!(hex(&key), text);
    assert!(parse_key("c91609").is_none());
    assert!(parse_key("z91609c69ed2ab39d44039390a1be969").is_none());
}

#[test]
fn helpers() {
    assert_eq!(be_uint(&[0x01, 0x02, 0x03]), 0x0001_0203);
    assert_eq!(
        cdn_path("config", "c91609c69ed2ab39d44039390a1be969"),
        "config/c9/16/c91609c69ed2ab39d44039390a1be969"
    );
    assert_eq!(human_size(512), "512 B");
    assert_eq!(human_size(3 * 1024 * 1024), "3.00 MiB");
    assert_eq!(hex(&md5(b"abc")), "900150983cd24fb0d6963f7d28e17f72");
}

#[test]
fn any_key_reads_back_from_its_hex() {
    for seed in [0u8, 1, 0x7f, 0xff] {
        let mut key = [0u8; 16];
        for (i, b) in key.iter_mut().enumerate() {
            *b = seed.wrapping_mul(31).wrapping_add(i as u8 * 17);
        }
        assert_eq!(parse_key(&hex(&key)), Some(key));
    }
    assert_eq!(parse_key("  C91609C69ED2AB39D44039390A1BE969\n").unwrap()[0], 0xc9);
}

#[test]
fn human_size_matches_two_decimal_formatting() {
    let units = ["B", "KiB", "MiB", "GiB", "TiB"];
    for bytes in [0u64, 1, 1023, 1024, 1536, 1_048_575, 1_048_576, 123_456_789, 5_000_000_000, u64::MAX / 3] {
        let mut v = bytes as f64;
        let mut u = 0;
        while v >= 1024.0 && u < units.len() - 1 {
            v /= 1024.0;
            u += 1;
        }
        let expected = if u == 0 { format!("{bytes} B") } else { format!("{v:.2} {}", units[u]) };
        assert_eq!(human_size(bytes), expected, "{bytes}");
    }
}

#[test]
fn md5_wrapper_hashes_its_input() {
    assert_ne!(md5(b"abc"), md5(b"abd"));
    assert_eq!(hex(&md5(b"")), "d41d8cd98f00b204e9800998ecf8427e");
}

#[test]
fn cdn_path_splits_at_bytes() {
    assert_eq!(cdn_path("data", "\u{e9}1234"), "data/\u{e9}/12/\u{e9}1234");
    assert_eq!(cdn_path("patch", "abcd"), "patch/ab/cd/abcd");
}

#[test]
fn parsed_key_hex_is_the_lowered_text() {
    let text = "  C91609C69ED2ab39D44039390A1BE969\n";
    let k = parse_key(text).unwrap();
    assert_eq!(hex(&k), text.trim().to_ascii_lowercase());
}

#[test]
fn hex_writes_two_lower_case_digits_per_byte() {
    assert_eq!(hex(&[0xc9, 0x16]), "c916");
    assert_eq!(hex(&[0x0a, 0xff, 0x00]), "0aff00");
    assert_eq!(hex(&[]), "");
}
