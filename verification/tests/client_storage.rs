use std::collections::HashMap;

use wow_tools::client::fetch::location_key;
use wow_tools::client::util::Key;
use wow_tools::client::idx::bucket;
use wow_tools::client::storage::{
    archive_name, archive_number, index_buckets, journal_magic_bytes, journal_of, journal_record, place, replay,
    rewritten_journal, Location, StorageError, MAX_ARCHIVE_SIZE,
};

fn key(b: u8) -> [u8; 16] {
    let mut k = [0u8; 16];
    for (i, x) in k.iter_mut().enumerate() {
        *x = b.wrapping_add(i as u8);
    }
    k
}

#[test]
fn record_layout_is_little_endian() {
    let loc = Location { archive: 0x0102, offset: 0x0304_0506, size: 0x0708_090A };
    let r = journal_record(&key(1), loc);
    assert_eq!(r.len(), 26);
    assert_eq!(&r[..16], &key(1));
    assert_eq!(&r[16..], &[0x02, 0x01, 0x06, 0x05, 0x04, 0x03, 0x0A, 0x09, 0x08, 0x07]);
}

#[test]
fn storage_offset_packs_archive_and_offset() {
    let loc = Location { archive: 3, offset: 0x10, size: 40 };
    assert_eq!(loc.storage_offset(), (3u64 << 30) | 0x10);
}

/// Records filed by the number of their key, later ones replacing earlier ones.
fn by_number(records: &[(Key, Location)]) -> HashMap<u128, (Key, Location)> {
    records.iter().map(|r| (location_key(&r.0), *r)).collect()
}

#[test]
fn later_records_replace_earlier_ones() {
    let records = vec![
        (key(1), Location { archive: 0, offset: 0, size: 10 }),
        (key(1), Location { archive: 0, offset: 10, size: 20 }),
    ];
    let lengths: HashMap<u16, u64> = [(0, 30)].into_iter().collect();
    let r = replay(&journal_of(&records), &lengths);
    assert_eq!(r.entries.len(), 1);
    assert_eq!(r.entries[&location_key(&key(1))], records[1]);
}

#[test]
fn journal_replays_its_records() {
    let records = vec![
        (key(1), Location { archive: 0, offset: 0, size: 100 }),
        (key(2), Location { archive: 0, offset: 100, size: 50 }),
        (key(3), Location { archive: 1, offset: 0, size: 30 }),
    ];
    let journal = journal_of(&records);
    assert_eq!(&journal[..8], b"WCDJRNL1");
    assert_eq!(journal.len(), 8 + 3 * 26);
    let lengths: HashMap<u16, u64> = [(0, 150), (1, 30)].into_iter().collect();
    let r = replay(&journal, &lengths);
    assert_eq!(r.entries, by_number(&records));
    assert!(!r.dropped);
    assert_eq!(r.ends.get(&0), Some(&150));
    assert_eq!(r.ends.get(&1), Some(&30));
}

#[test]
fn replay_drops_torn_and_missing_records() {
    let records = vec![
        (key(1), Location { archive: 0, offset: 0, size: 100 }),
        (key(2), Location { archive: 0, offset: 100, size: 50 }),
    ];
    let mut journal = journal_of(&records);
    // The second blob is only partly on disk.
    let lengths: HashMap<u16, u64> = [(0, 120)].into_iter().collect();
    let r = replay(&journal, &lengths);
    assert_eq!(r.entries, by_number(&records[..1]));
    assert!(r.dropped);
    assert_eq!(r.ends.get(&0), Some(&100));
    // A torn tail.
    journal.extend_from_slice(&[1, 2, 3]);
    let lengths: HashMap<u16, u64> = [(0, 150)].into_iter().collect();
    let r = replay(&journal, &lengths);
    assert_eq!(r.entries, by_number(&records));
    assert!(r.dropped);
    // Only the magic.
    let r = replay(&journal_magic_bytes(), &lengths);
    assert!(r.entries.is_empty() && !r.dropped);
}

#[test]
fn rewritten_journal_is_ordered_by_place() {
    let a = (key(1), Location { archive: 1, offset: 0, size: 30 });
    let b = (key(2), Location { archive: 0, offset: 100, size: 50 });
    let c = (key(3), Location { archive: 0, offset: 0, size: 100 });
    let out = rewritten_journal(vec![a, b, c]);
    assert_eq!(out, journal_of(&vec![c, b, a]));
}

#[test]
fn placement_of_new_blobs() {
    // First blob: a new archive 0.
    let p = place(None, 100, MAX_ARCHIVE_SIZE, false).unwrap();
    assert_eq!(p.location, Location { archive: 0, offset: 0, size: 130 });
    assert!(p.new_archive);
    assert_eq!(p.new_len, 130);
    // Fits behind the current end.
    let p = place(Some((0, 130)), 70, 300, false).unwrap();
    assert_eq!(p.location, Location { archive: 0, offset: 130, size: 100 });
    assert!(!p.new_archive);
    assert_eq!(p.new_len, 230);
    // Does not fit: the next archive.
    let p = place(Some((0, 230)), 70, 300, false).unwrap();
    assert_eq!(p.location, Location { archive: 1, offset: 0, size: 100 });
    assert!(p.new_archive);
    assert_eq!(place(None, 300, 300, false), Err(StorageError::TooLarge));
    assert_eq!(place(None, 1, 300, true), Err(StorageError::ReadOnly));
    assert_eq!(StorageError::TooLarge.message(), "entry larger than an archive");
}

#[test]
fn archive_names() {
    assert_eq!(archive_name(0), "data.000");
    assert_eq!(archive_name(42), "data.042");
    assert_eq!(archive_name(1234), "data.1234");
    assert_eq!(archive_number("data.007"), Some(7));
    assert_eq!(archive_number("data.65535"), Some(65535));
    assert_eq!(archive_number("data.65536"), None);
    assert_eq!(archive_number("data."), None);
    assert_eq!(archive_number("other.001"), None);
    assert_eq!(archive_number(".wcd-journal"), None);
}

#[test]
fn index_entries_are_grouped_by_bucket() {
    let entries = vec![
        (key(1), Location { archive: 0, offset: 0, size: 100 }),
        (key(2), Location { archive: 1, offset: 8, size: 50 }),
        (key(1), Location { archive: 2, offset: 16, size: 30 }),
    ];
    let buckets = index_buckets(&entries);
    assert_eq!(buckets.len(), 16);
    let b1 = bucket(&key(1)) as usize;
    let b2 = bucket(&key(2)) as usize;
    assert_ne!(b1, b2);
    assert_eq!(buckets[b1].len(), 2);
    assert_eq!(buckets[b1][0].key, key(1)[..9]);
    assert_eq!(buckets[b1][1].storage_offset, (2u64 << 30) | 16);
    assert_eq!(buckets[b2].len(), 1);
    assert_eq!(buckets[b2][0].size, 50);
    let total: usize = buckets.iter().map(Vec::len).sum();
    assert_eq!(total, 3);
}
