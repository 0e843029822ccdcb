use std::collections::HashSet;
use wow_tools::client::fetch::location_key;
use wow_tools::client::plan::{content_needed, manifest_ekey, pending, Kind, ManifestKeyError};
use md5::{Digest, Md5};
use wow_tools::client::cli::{Arch, Os, Selection};
use wow_tools::client::config::ConfigFile;
use wow_tools::client::encoding::Encoding;
use wow_tools::client::manifest::{DownloadManifest, InstallManifest, Tag};
use wow_tools::client::plan::{build, Manifests};
use wow_tools::client::util::{hex, md5, Key};

fn put_tags(out: &mut Vec<u8>, tags: &[Tag]) {
    for t in tags {
        out.extend_from_slice(t.name.as_bytes());
        out.push(0);
        out.extend_from_slice(&t.kind.to_be_bytes());
        out.extend_from_slice(&t.mask);
    }
}

fn tag(name: &str, kind: u16, entries: usize, set: &[usize]) -> Tag {
    let mut mask = vec![0u8; entries.div_ceil(8)];
    for &i in set {
        mask[i / 8] |= 0x80 >> (i % 8);
    }
    Tag {
        name: name.to_owned(),
        kind,
        mask,
    }
}

fn install(t: &[Tag], entries: &[(&str, [u8; 16], u32)]) -> Vec<u8> {
    let mut out = b"IN\x01\x10".to_vec();
    out.extend_from_slice(&(t.len() as u16).to_be_bytes());
    out.extend_from_slice(&(entries.len() as u32).to_be_bytes());
    put_tags(&mut out, t);
    for (name, ckey, size) in entries {
        out.extend_from_slice(name.as_bytes());
        out.push(0);
        out.extend_from_slice(ckey);
        out.extend_from_slice(&size.to_be_bytes());
    }
    out
}

fn download(t: &[Tag], entries: &[([u8; 16], u64)]) -> Vec<u8> {
    let mut out = b"DL\x03\x10\x01".to_vec();
    out.extend_from_slice(&(entries.len() as u32).to_be_bytes());
    out.extend_from_slice(&(t.len() as u16).to_be_bytes());
    out.push(1);
    out.extend_from_slice(&[0, 0, 0, 0]);
    for (ekey, size) in entries {
        out.extend_from_slice(ekey);
        out.extend_from_slice(&size.to_be_bytes()[3..]);
        out.push(0xFE);
        out.extend_from_slice(&[9, 9, 9, 9]);
        out.push(0x55);
    }
    put_tags(&mut out, t);
    out
}

fn page_hash(data: &[u8]) -> Key {
    Md5::digest(data).into()
}

/// An ENCODING file with `per_page` records per 1 KiB page.
fn encoding_file(entries: &[(Key, Key, u64, u64)], per_page: usize) -> Vec<u8> {
    let espec = b"z\0";
    let mut ckey_pages = Vec::new();
    for chunk in entries.chunks(per_page) {
        let mut p = Vec::new();
        for (ckey, ekey, size, _) in chunk {
            p.push(1);
            p.extend_from_slice(&size.to_be_bytes()[3..]);
            p.extend_from_slice(ckey);
            p.extend_from_slice(ekey);
        }
        p.resize(1024, 0);
        ckey_pages.push((chunk[0].0, p));
    }
    let mut sorted_e: Vec<_> = entries.iter().map(|e| (e.1, e.3)).collect();
    sorted_e.sort_unstable();
    let mut ekey_pages = Vec::new();
    for chunk in sorted_e.chunks(per_page) {
        let mut p = Vec::new();
        for (ekey, esize) in chunk {
            p.extend_from_slice(ekey);
            p.extend_from_slice(&0u32.to_be_bytes());
            p.extend_from_slice(&esize.to_be_bytes()[3..]);
        }
        p.resize(1024, 0);
        ekey_pages.push((chunk[0].0, p));
    }
    let mut out = b"EN".to_vec();
    out.extend_from_slice(&[1, 16, 16]);
    out.extend_from_slice(&1u16.to_be_bytes());
    out.extend_from_slice(&1u16.to_be_bytes());
    out.extend_from_slice(&(ckey_pages.len() as u32).to_be_bytes());
    out.extend_from_slice(&(ekey_pages.len() as u32).to_be_bytes());
    out.push(0);
    out.extend_from_slice(&(espec.len() as u32).to_be_bytes());
    out.extend_from_slice(espec);
    for pages in [&ckey_pages, &ekey_pages] {
        for (first, page) in pages {
            out.extend_from_slice(first);
            out.extend_from_slice(&page_hash(page));
        }
        for (_, page) in pages {
            out.extend_from_slice(page);
        }
    }
    out
}

fn manifests() -> Manifests {
    // install: 0 WowClassic.exe (Windows x86_64), 1 mac binary (OSX x86_64)
    let exe = md5(b"exe");
    let mac = md5(b"mac");
    let install_tags = vec![
        tag("OSX", 1, 2, &[1]),
        tag("Windows", 1, 2, &[0]),
        tag("x86_64", 2, 2, &[0, 1]),
        tag("esES", 3, 2, &[0, 1]),
        tag("enUS", 3, 2, &[0, 1]),
        tag("EU", 4, 2, &[0, 1]),
        tag("speech", 5, 2, &[0, 1]),
        tag("text", 5, 2, &[0, 1]),
    ];
    let inst = install(
        &install_tags,
        &[("WowClassic.exe", exe, 3), ("Mac\\bin", mac, 3)],
    );
    // download: 0 common, 1 esES speech, 2 enUS text, 3 exe blob
    let dl_tags = vec![
        tag("Windows", 1, 4, &[0, 1, 2, 3]),
        tag("x86_64", 2, 4, &[0, 1, 2, 3]),
        tag("esES", 3, 4, &[0, 1, 3]),
        tag("enUS", 3, 4, &[0, 2, 3]),
        tag("EU", 4, 4, &[0, 1, 2, 3]),
        tag("speech", 5, 4, &[0, 1, 3]),
        tag("text", 5, 4, &[0, 2, 3]),
    ];
    let dl = download(
        &dl_tags,
        &[
            ([1; 16], 100),
            ([2; 16], 200),
            ([3; 16], 300),
            ([0xE0; 16], 40),
        ],
    );
    let mut enc = vec![
        (exe, [0xE0; 16], 3, 40),
        (mac, [0xE1; 16], 3, 41),
        ([0x0A; 16], [0xA0; 16], 5, 50),
    ];
    enc.sort_unstable();
    let build_config = format!(
        "root = {}\ninstall = {} {}\ninstall-size = 1 11\nencoding = {} {}\nencoding-size = 9 99\nvfs-1 = {} {}\nvfs-1-size = 1 7\n",
        hex(&[0x0A; 16]),
        hex(&[0x0B; 16]),
        hex(&[0xB0; 16]),
        hex(&[0x0C; 16]),
        hex(&[0xC0; 16]),
        hex(&[0x0D; 16]),
        hex(&[0xD0; 16])
    );
    Manifests {
        build_config: ConfigFile::parse(build_config.as_bytes()).unwrap(),
        cdn_config: ConfigFile::default(),
        encoding: Encoding::parse(&encoding_file(&enc, 10)).unwrap(),
        install: InstallManifest::parse(&inst).unwrap(),
        download: DownloadManifest::parse(&dl).unwrap(),
    }
}

fn selection(os: Os, locale: &str) -> Selection {
    Selection::new(os, Arch::X86_64, locale, None, None, Some("EU")).unwrap()
}

#[test]
fn windows_eses_plan() {
    let plan = build(&manifests(), &selection(Os::Windows, "esES")).unwrap();
    let keys: Vec<u8> = plan.needed.iter().map(|n| n.ekey[0]).collect();
    // core: root (via ENCODING), install, encoding, vfs-1; install exe;
    // download: common + esES speech (exe blob already counted).
    assert_eq!(keys, [0xA0, 0xB0, 0xC0, 0xD0, 0xE0, 1, 2]);
    assert_eq!(plan.needed[0].size, 50);
    assert_eq!(plan.needed[1].size, 11);
    assert_eq!(
        plan.needed[4].size, 40,
        "install blob size from the download manifest"
    );
    assert_eq!(plan.download_selected, 3);
    assert_eq!(plan.install_files.len(), 1);
    assert_eq!(plan.total_bytes(), 50 + 11 + 99 + 7 + 40 + 100 + 200);
    assert!(plan.summary().contains("7 files"));
}

#[test]
fn macos_arm64_is_rejected() {
    let m = manifests();
    let sel = Selection::new(Os::MacOs, Arch::Arm64, "enUS", None, None, None).unwrap();
    let err = build(&m, &sel).unwrap_err().message(&sel);
    assert!(err.contains("universal binary"), "{err}");
    let plan = build(&m, &selection(Os::MacOs, "enUS")).unwrap();
    assert_eq!(plan.install_files[0].0.name, "Mac\\bin");
}

#[test]
fn manifest_keys_and_pending_files() {
    let m = manifests();
    // `install` names its EKey directly; `root` only through ENCODING.
    assert_eq!(manifest_ekey(&m.build_config, &m.encoding, "install"), Ok([0xB0; 16]));
    assert_eq!(manifest_ekey(&m.build_config, &m.encoding, "root"), Ok([0xA0; 16]));
    assert_eq!(manifest_ekey(&m.build_config, &m.encoding, "download"), Err(ManifestKeyError::Missing));
    let plan = build(&m, &selection(Os::Windows, "esES")).unwrap();
    let stored: HashSet<u128> = [location_key(&[0xA0; 16]), location_key(&[1; 16])].into_iter().collect();
    let core: Vec<u8> = pending(&plan.needed, true, &stored).iter().map(|n| n.ekey[0]).collect();
    assert_eq!(core, [0xB0, 0xC0, 0xD0]);
    let rest: Vec<u8> = pending(&plan.needed, false, &stored).iter().map(|n| n.ekey[0]).collect();
    assert_eq!(rest, [0xE0, 2]);
    let n = content_needed(&m.encoding, &md5(b"mac")).unwrap();
    assert_eq!((n.ekey, n.size, n.kind), ([0xE1; 16], 41, Kind::Download));
    assert!(content_needed(&m.encoding, &[9; 16]).is_none());
}
