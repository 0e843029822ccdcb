use wow_tools::client::manifest::{DownloadManifest, InstallManifest, Tag};
use wow_tools::client::tags::{any_entry_with_all, TagQuery};

fn put_tags(out: &mut Vec<u8>, tags: &[Tag]) {
    for t in tags {
        out.extend_from_slice(t.name.as_bytes());
        out.push(0);
        out.extend_from_slice(&t.kind.to_be_bytes());
        out.extend_from_slice(&t.mask);
    }
}

/// Tag whose mask has the given entry indices set.
fn tag(name: &str, kind: u16, entries: usize, set: &[usize]) -> Tag {
    let mut mask = vec![0u8; entries.div_ceil(8)];
    for &i in set {
        mask[i / 8] |= 0x80 >> (i % 8);
    }
    Tag {
        name: name.to_owned(),
        kind,
        mask,
    }
}

fn install(t: &[Tag], entries: &[(&str, [u8; 16], u32)]) -> Vec<u8> {
    let mut out = b"IN\x01\x10".to_vec();
    out.extend_from_slice(&(t.len() as u16).to_be_bytes());
    out.extend_from_slice(&(entries.len() as u32).to_be_bytes());
    put_tags(&mut out, t);
    for (name, ckey, size) in entries {
        out.extend_from_slice(name.as_bytes());
        out.push(0);
        out.extend_from_slice(ckey);
        out.extend_from_slice(&size.to_be_bytes());
    }
    out
}

/// Version-3 download manifest with checksums and one flag byte.
fn download(t: &[Tag], entries: &[([u8; 16], u64)]) -> Vec<u8> {
    let mut out = b"DL\x03\x10\x01".to_vec();
    out.extend_from_slice(&(entries.len() as u32).to_be_bytes());
    out.extend_from_slice(&(t.len() as u16).to_be_bytes());
    out.push(1);
    out.extend_from_slice(&[0, 0, 0, 0]);
    for (ekey, size) in entries {
        out.extend_from_slice(ekey);
        out.extend_from_slice(&size.to_be_bytes()[3..]);
        out.push(0xFE);
        out.extend_from_slice(&[9, 9, 9, 9]);
        out.push(0x55);
    }
    put_tags(&mut out, t);
    out
}

#[test]
fn install_round_trip() {
    let t = vec![tag("Windows", 1, 3, &[0, 2]), tag("OSX", 1, 3, &[1])];
    let data = install(
        &t,
        &[
            ("WowClassic.exe", [1; 16], 100),
            (
                "World of Warcraft Classic.app\\Contents\\PkgInfo",
                [2; 16],
                8,
            ),
            ("Utils\\x.dll", [3; 16], 5),
        ],
    );
    let m = InstallManifest::parse(&data).unwrap();
    assert_eq!(m.tags, t);
    assert_eq!(m.entries.len(), 3);
    assert_eq!(m.entries[1].size, 8);
    assert_eq!(m.entries[2].ckey, [3; 16]);
    assert!(m.tags[0].has(2) && !m.tags[0].has(1) && !m.tags[0].has(99));
    assert!(InstallManifest::parse(&data[..data.len() - 1]).is_err());
}

#[test]
fn download_round_trip() {
    let t = vec![tag("enUS", 3, 2, &[1])];
    let data = download(&t, &[([7; 16], 0x12_3456_789A), ([8; 16], 30)]);
    let m = DownloadManifest::parse(&data).unwrap();
    assert_eq!(m.entries[0].size, 0x12_3456_789A);
    assert_eq!(m.entries[0].priority, -2);
    assert_eq!(m.entries[1].ekey, [8; 16]);
    assert_eq!(m.tags, t);
    assert!(DownloadManifest::parse(b"IN").is_err());
}

#[test]
fn download_v1_layout() {
    // Version 1 (the 54261 manifest): no flag bytes, no checksum.
    let mut out = b"DL\x01\x10\x00".to_vec();
    out.extend_from_slice(&1u32.to_be_bytes());
    out.extend_from_slice(&1u16.to_be_bytes());
    out.extend_from_slice(&[5; 16]);
    out.extend_from_slice(&[0, 0, 0, 0x10, 0]);
    out.push(0);
    out.extend_from_slice(b"text\0\x00\x05\x80");
    let m = DownloadManifest::parse(&out).unwrap();
    assert_eq!(m.entries[0].size, 0x1000);
    assert!(m.tags[0].has(0));
    assert_eq!(m.tags[0].kind, 5);
}

fn tags() -> Vec<Tag> {
    // entries: 0 win x64 all-locales text+speech, 1 win x64 deDE speech,
    // 2 win x64 esES text, 3 OSX x64, 4 win arm64, 5 win x64 deDE text
    vec![
        tag("Windows", 1, 6, &[0, 1, 2, 4, 5]),
        tag("OSX", 1, 6, &[3]),
        tag("arm64", 2, 6, &[4]),
        tag("x86_64", 2, 6, &[0, 1, 2, 3, 5]),
        tag("deDE", 3, 6, &[0, 1, 3, 4, 5]),
        tag("esES", 3, 6, &[0, 2, 3, 4]),
        tag("EU", 4, 6, &[0, 1, 2, 3, 4, 5]),
        tag("speech", 5, 6, &[0, 1, 3, 4]),
        tag("text", 5, 6, &[0, 2, 3, 4, 5]),
    ]
}

#[test]
fn agent_string_semantics() {
    let q = TagQuery::parse_agent(
        "Windows x86_64 EU? acct-ESP? geoip-ES? esES speech?:Windows x86_64 EU? esES text?",
    );
    assert_eq!(q.sets.len(), 2);
    assert_eq!(q.sets[0][2], "EU");
    let sel = q.select(&tags(), 6);
    assert_eq!(sel, [true, false, true, false, false, false]);

    // Different speech and text locales: (deDE AND speech) OR (esES AND text).
    let q = TagQuery::parse_agent("Windows x86_64 deDE speech:Windows x86_64 esES text");
    assert_eq!(
        q.select(&tags(), 6),
        [true, true, true, false, false, false],
        "deDE text (entry 5) is not selected"
    );
}

#[test]
fn or_within_a_type() {
    let q = TagQuery::parse_agent("Windows x86_64 arm64 deDE");
    assert_eq!(q.select(&tags(), 6), [true, true, false, false, true, true]);
    // No known tags: everything matches (blizzget's all-ones mask).
    assert!(
        TagQuery::parse_agent("foo")
            .select(&tags(), 6)
            .iter()
            .all(|&s| s)
    );
    assert!(
        TagQuery::parse_agent("")
            .select(&tags(), 6)
            .iter()
            .all(|&s| !s)
    );
}

#[test]
fn platform_combinations() {
    let t = tags();
    assert!(any_entry_with_all(&t, 6, &["Windows", "arm64"]));
    assert!(!any_entry_with_all(&t, 6, &["OSX", "arm64"]));
    assert!(!any_entry_with_all(&t, 6, &["Linux"]));
}

#[test]
fn truncated_manifests_are_refused() {
    assert!(InstallManifest::parse(b"IN\x01\x10\x00\x00\x00\x00\x00\x01").is_err());
    assert!(InstallManifest::parse(b"IN\x02\x10").is_err());
    let t = vec![tag("enUS", 3, 1, &[0])];
    let data = download(&t, &[([7; 16], 5)]);
    assert!(DownloadManifest::parse(&data[..data.len() - 1]).is_err());
}
