use std::collections::{HashMap, HashSet};

use wow_tools::client::download::{apply_limits, install_path, is_executable};
use wow_tools::client::fetch::{location_key, make_jobs, ArchiveLocation, Job, MAX_SPAN};
use wow_tools::client::plan::{Kind, Needed};
use wow_tools::client::root::{find, NO_NAME_HASH};

fn needed(k: u8) -> Needed {
    Needed {
        ekey: [k; 16],
        size: 10,
        kind: Kind::Download,
    }
}

#[test]
fn coalesces_adjacent_ranges() {
    let loc = |archive, offset, size| ArchiveLocation {
        archive,
        offset,
        size,
    };
    let mut locations = HashMap::new();
    locations.insert(location_key(&[1; 16]), loc(3, 1000, 100));
    locations.insert(location_key(&[2; 16]), loc(3, 0, 1000)); // adjacent, sorted before [1]
    locations.insert(location_key(&[3; 16]), loc(3, 1100 + 70_000, 10)); // gap > 64 KiB
    locations.insert(location_key(&[4; 16]), loc(0, 5, 5));
    let n: Vec<Needed> = [1, 2, 3, 4, 5].map(needed).to_vec();
    let jobs = make_jobs(&n, &locations);
    assert_eq!(jobs.len(), 4);
    assert_eq!(
        jobs[0],
        Job::Range {
            archive: 3,
            start: 0,
            end: 1100,
            entries: vec![([2; 16], 0, 1000), ([1; 16], 1000, 100)],
        }
    );
    assert!(matches!(&jobs[1], Job::Range { start: 71_100, .. }));
    assert!(matches!(&jobs[2], Job::Range { archive: 0, .. }));
    assert_eq!(
        jobs[3],
        Job::Loose {
            ekey: [5; 16],
            size: 10
        }
    );
}

#[test]
fn span_limit_splits() {
    let mut locations = HashMap::new();
    for i in 0..20u8 {
        locations.insert(
            location_key(&[i; 16]),
            ArchiveLocation {
                archive: 0,
                offset: u32::from(i) * 1_000_000,
                size: 1_000_000,
            },
        );
    }
    let n: Vec<Needed> = (0..20).map(needed).collect();
    let jobs = make_jobs(&n, &locations);
    assert_eq!(jobs.len(), 3, "20 MB in spans of at most 8 MiB");
    for j in &jobs {
        let Job::Range { start, end, .. } = j else {
            panic!()
        };
        assert!(end - start <= MAX_SPAN);
    }
}

#[test]
fn a_single_large_entry_keeps_its_own_range() {
    let mut locations = HashMap::new();
    locations.insert(location_key(&[1; 16]), ArchiveLocation { archive: 2, offset: 0, size: 20_000_000 });
    locations.insert(location_key(&[2; 16]), ArchiveLocation { archive: 2, offset: 20_000_000, size: 10 });
    let jobs = make_jobs(&[needed(1), needed(2)], &locations);
    assert_eq!(jobs.len(), 2);
    assert!(matches!(&jobs[0], Job::Range { start: 0, end: 20_000_000, .. }));
    assert!(matches!(&jobs[1], Job::Range { start: 20_000_000, end: 20_000_010, .. }));
}

#[test]
fn install_paths() {
    let dir = "/x/_classic_";
    let mut dirs = Vec::new();
    assert_eq!(
        install_path(dir, "Utils\\icudtl.dat", &mut dirs).unwrap(),
        "/x/_classic_/Utils/icudtl.dat"
    );
    assert_eq!(
        install_path(dir, "UTILS\\LOCALES\\KO.PAK", &mut dirs).unwrap(),
        "/x/_classic_/Utils/LOCALES/KO.PAK",
        "directory case merged like on Windows"
    );
    assert_eq!(
        install_path(dir, "Utils\\locales\\it.pak", &mut dirs).unwrap(),
        "/x/_classic_/Utils/LOCALES/it.pak"
    );
    assert!(install_path(dir, "..\\evil", &mut dirs).is_err());
    assert!(install_path(dir, "/etc/passwd", &mut dirs).is_err());
    assert!(is_executable(
        "World of Warcraft Classic.app\\Contents\\MacOS\\World of Warcraft Classic"
    ));
    assert!(!is_executable("WowClassic.exe"));
}

#[test]
fn limits() {
    let n = |k: u8, size| Needed {
        ekey: [k; 16],
        size,
        kind: Kind::Download,
    };
    let rest = vec![n(1, 10), n(2, 10), n(3, 10)];
    assert_eq!(apply_limits(rest.clone(), &[], None, None).len(), 3);
    assert_eq!(apply_limits(rest.clone(), &[], Some(2), None).len(), 2);
    assert_eq!(apply_limits(rest.clone(), &[], None, Some(15)).len(), 2);
    let out = apply_limits(rest, &[n(9, 1), n(2, 10)], Some(1), None);
    let keys: Vec<u8> = out.iter().map(|x| x.ekey[0]).collect();
    assert_eq!(keys, [9, 2, 1], "extras first, duplicates skipped");
}

/// `(locale flags, content flags, [(fdid, ckey byte)])`.
type Group = (u32, u32, Vec<(u32, u8)>);

/// Version-1 `TSFM` root with the given groups.
fn root_file(groups: &[Group]) -> Vec<u8> {
    let mut out = b"TSFM".to_vec();
    for v in [24u32, 1, 0, 0, 0] {
        out.extend_from_slice(&v.to_le_bytes());
    }
    for (locale, flags, files) in groups {
        out.extend_from_slice(&(files.len() as u32).to_le_bytes());
        out.extend_from_slice(&flags.to_le_bytes());
        out.extend_from_slice(&locale.to_le_bytes());
        let mut prev: Option<u32> = None;
        for (id, _) in files {
            let delta = prev.map_or(*id, |p| id - p - 1);
            out.extend_from_slice(&delta.to_le_bytes());
            prev = Some(*id);
        }
        for (_, k) in files {
            out.extend_from_slice(&[*k; 16]);
        }
        if flags & NO_NAME_HASH == 0 {
            out.extend(std::iter::repeat_n(0xAB, files.len() * 8));
        }
    }
    out
}

#[test]
fn finds_records() {
    let data = root_file(&[
        (2, 0, vec![(10, 1), (1_349_477, 2)]),
        (0x80, NO_NAME_HASH, vec![(5, 3), (1_349_477, 4)]),
    ]);
    let wanted: HashSet<u32> = [1_349_477, 5].into();
    let found = find(&data, &wanted).unwrap();
    assert_eq!(found.len(), 3);
    assert_eq!(found[0].ckey, [2; 16]);
    assert_eq!(found[0].locale_flags, 2);
    assert_eq!(found[1].file_data_id, 5);
    assert_eq!(found[2].ckey, [4; 16]);
    assert!(
        find(
            b"TSFM\x18\0\0\0\x01\0\0\0\0\0\0\0\0\0\0\0\0\0\0\0\x09\0\0\0",
            &wanted
        )
        .is_err()
    );
}

#[test]
fn headerless_interleaved_layout() {
    // One group: count 2, content flags, locale enUS, deltas, {CKey, hash} x2.
    let mut data = Vec::new();
    for v in [2u32, 0x80, 2, 1_349_476, 0] {
        data.extend_from_slice(&v.to_le_bytes());
    }
    for k in [7u8, 8] {
        data.extend_from_slice(&[k; 16]);
        data.extend_from_slice(&[0xAB; 8]);
    }
    let found = find(&data, &[1_349_477u32].into()).unwrap();
    assert_eq!(found.len(), 1);
    assert_eq!(found[0].ckey, [8; 16]);
    assert_eq!(found[0].content_flags, 0x80);
}

#[test]
fn every_needed_key_is_fetched_once() {
    let mut locations = HashMap::new();
    for i in 0..10u8 {
        if i % 3 != 0 {
            locations.insert(
                location_key(&[i; 16]),
                ArchiveLocation { archive: u16::from(i % 2), offset: u32::from(i) * 100_000, size: 5_000 },
            );
        }
    }
    let needed: Vec<Needed> = (0..10u8)
        .map(|i| Needed { ekey: [i; 16], size: 10, kind: Kind::Download })
        .collect();
    let jobs = make_jobs(&needed, &locations);
    let mut keys: Vec<[u8; 16]> = Vec::new();
    for j in &jobs {
        match j {
            Job::Range { entries, .. } => keys.extend(entries.iter().map(|e| e.0)),
            Job::Loose { ekey, .. } => keys.push(*ekey),
        }
    }
    keys.sort();
    let mut want: Vec<[u8; 16]> = needed.iter().map(|n| n.ekey).collect();
    want.sort();
    assert_eq!(keys, want);
}
