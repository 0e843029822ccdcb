use md5::{Digest, Md5};
use wow_tools::client::cdn_index::{build, parse, IndexEntry};
use wow_tools::client::encoding::Encoding;
use wow_tools::client::util::Key;

fn entries(n: usize) -> Vec<IndexEntry> {
    (0..n)
        .map(|i| {
            let mut ekey = [0u8; 16];
            ekey[..4].copy_from_slice(&(i as u32 + 1).to_be_bytes());
            IndexEntry {
                ekey,
                size: 100 + i as u32,
                offset: i as u32 * 1000,
            }
        })
        .collect()
}

#[test]
fn round_trip_multi_block() {
    let e = entries(400); // 170 entries per 4 KiB block -> 3 blocks
    let (data, name) = build(&e, 4);
    assert_eq!(parse(&data, Some(&name)).unwrap(), e);
    assert!(parse(&data, Some(&[0; 16])).is_err(), "wrong archive name");
}

#[test]
fn corruption_is_detected() {
    let (data, _) = build(&entries(10), 4);
    let mut broken = data.clone();
    broken[5] ^= 1;
    assert!(parse(&broken, None).is_err(), "block hash");
    let mut broken = data.clone();
    let n = broken.len();
    broken[n - 10] ^= 1;
    assert!(parse(&broken, None).is_err(), "footer hash");
}

#[test]
fn empty_and_single_block_indices_read_back() {
    for n in [0usize, 1, 170, 171] {
        let e = entries(n);
        let (data, name) = build(&e, 4);
        assert_eq!(parse(&data, Some(&name)).unwrap(), e, "{n} entries");
    }
    assert!(parse(&[0; 10], None).is_err());
}

fn md5(data: &[u8]) -> Key {
    Md5::digest(data).into()
}

/// An ENCODING file with `per_page` records per 1 KiB page.
fn encoding_file(entries: &[(Key, Key, u64, u64)], per_page: usize) -> Vec<u8> {
    let espec = b"z\0";
    let mut ckey_pages = Vec::new();
    for chunk in entries.chunks(per_page) {
        let mut p = Vec::new();
        for (ckey, ekey, size, _) in chunk {
            p.push(1);
            p.extend_from_slice(&size.to_be_bytes()[3..]);
            p.extend_from_slice(ckey);
            p.extend_from_slice(ekey);
        }
        p.resize(1024, 0);
        ckey_pages.push((chunk[0].0, p));
    }
    let mut sorted_e: Vec<_> = entries.iter().map(|e| (e.1, e.3)).collect();
    sorted_e.sort_unstable();
    let mut ekey_pages = Vec::new();
    for chunk in sorted_e.chunks(per_page) {
        let mut p = Vec::new();
        for (ekey, esize) in chunk {
            p.extend_from_slice(ekey);
            p.extend_from_slice(&0u32.to_be_bytes());
            p.extend_from_slice(&esize.to_be_bytes()[3..]);
        }
        p.resize(1024, 0);
        ekey_pages.push((chunk[0].0, p));
    }
    let mut out = b"EN".to_vec();
    out.extend_from_slice(&[1, 16, 16]);
    out.extend_from_slice(&1u16.to_be_bytes());
    out.extend_from_slice(&1u16.to_be_bytes());
    out.extend_from_slice(&(ckey_pages.len() as u32).to_be_bytes());
    out.extend_from_slice(&(ekey_pages.len() as u32).to_be_bytes());
    out.push(0);
    out.extend_from_slice(&(espec.len() as u32).to_be_bytes());
    out.extend_from_slice(espec);
    for pages in [&ckey_pages, &ekey_pages] {
        for (first, page) in pages {
            out.extend_from_slice(first);
            out.extend_from_slice(&md5(page));
        }
        for (_, page) in pages {
            out.extend_from_slice(page);
        }
    }
    out
}

fn encoding_entries() -> Vec<(Key, Key, u64, u64)> {
    (0u8..60)
        .map(|i| {
            let mut ckey = [0u8; 16];
            ckey[0] = i * 4 + 1;
            let mut ekey = [0xEE; 16];
            ekey[0] = 255 - i;
            (
                ckey,
                ekey,
                u64::from(i) * 1000 + 0x1_0000_0000,
                u64::from(i) + 7,
            )
        })
        .collect()
}

#[test]
fn lookups_across_pages() {
    let e = encoding_entries();
    let enc = Encoding::parse(&encoding_file(&e, 20)).unwrap();
    assert_eq!(enc.len(), 60);
    for (ckey, ekey, size, esize) in &e {
        let found = enc.find(ckey).unwrap();
        assert_eq!(&found.ekey, ekey);
        assert_eq!(found.content_size, *size, "40-bit sizes");
        assert_eq!(enc.encoded_size(ekey), Some(*esize));
    }
    assert!(enc.find(&[0; 16]).is_none());
    assert!(enc.encoded_size(&[1; 16]).is_none());
}

#[test]
fn page_hash_is_checked() {
    let mut data = encoding_file(&encoding_entries(), 20);
    let last = data.len() - 1;
    data[last - 600] ^= 0xFF;
    assert!(Encoding::parse(&data).is_err());
    assert!(Encoding::parse(b"XX").is_err());
}

#[test]
fn zero_page_sizes_are_caught_before_parsing() {
    let good = encoding_file(&encoding_entries(), 20);
    assert!(matches!(Encoding::parse_checked(&good), Some(Ok(_))));
    // EKey pages of zero bytes behind valid CKey pages: no parse.
    let mut zero_e = good.clone();
    zero_e[7] = 0;
    zero_e[8] = 0;
    assert!(Encoding::parse_checked(&zero_e).is_none());
    // The same with a broken CKey page: the page error comes first.
    let ckey_pages = u32::from_be_bytes(good[9..13].try_into().unwrap()) as usize;
    let mut broken = zero_e.clone();
    broken[22 + 2 + ckey_pages * 32 + 10] ^= 0xFF;
    assert!(matches!(Encoding::parse_checked(&broken), Some(Err(_))));
    // CKey pages of zero bytes: no parse.
    let mut zero_c = good.clone();
    zero_c[5] = 0;
    zero_c[6] = 0;
    assert!(Encoding::parse_checked(&zero_c).is_none());
    assert!(matches!(Encoding::parse_checked(b"XX"), Some(Err(_))));
}
