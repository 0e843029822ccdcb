//! INSTALL (`IN`) and DOWNLOAD (`DL`) manifests with their tag bitmasks.
//!
//! * install: `IN`, version, hash size, `u16` tag count, `u32` entry count,
//!   tags, then entries `{name\0, CKey, u32 size}`.
//! * download: `DL`, version, `EKey` size, checksum flag, `u32` entry count,
//!   `u16` tag count, [v2+: flag byte count], [v3+: 4 more bytes], entries
//!   `{EKey, u40 encoded size, u8 priority, [u32 checksum], [flags]}`, then tags.
//!
//! A tag is `{name\0, u16 type, bitmask}` with one bit per entry, most
//! significant bit first. All integers are big-endian.

use vstd::prelude::*;
use crate::bytes::{be_value, key_at, lemma_be_value_bound, byte_bound};
use crate::client::util::{Key, be_uint};
use crate::text::{lossy_string, utf8_lossy};

verus! {

/// A tag: its name, its type and one bit per manifest entry.
#[derive(Debug, Clone, PartialEq, Eq)]
pub struct Tag {
    pub name: String,
    pub kind: u16,
    pub mask: Vec<u8>,
}

/// A tag as plain values: `(name, type, mask)`.
pub type TagModel = (Seq<char>, u16, Seq<u8>);

/// The model of a tag.
pub open spec fn tag_view(t: Tag) -> TagModel {
    (t.name@, t.kind, t.mask@)
}

/// The models of a list of tags.
pub open spec fn tags_view(v: Seq<Tag>) -> Seq<TagModel> {
    v.map_values(|t: Tag| tag_view(t))
}

/// Whether the mask marks entry `index` (most significant bit first).
pub open spec fn mask_has(mask: Seq<u8>, index: int) -> bool {
    0 <= index && index / 8 < mask.len() && mask[index / 8] & (0x80u8 >> ((index % 8) as u8)) != 0
}

impl Tag {
    /// Whether entry `index` carries this tag.
    pub fn has(&self, index: usize) -> (r: bool)
        ensures
            r == mask_has(self.mask@, index as int),
    {
        let byte = index / 8;
        if byte >= self.mask.len() {
            return false;
        }
        let shift = (index % 8) as u8;
        self.mask[byte] & (0x80u8 >> shift) != 0
    }
}

/// One install-manifest entry.
#[derive(Debug, Clone, PartialEq, Eq)]
pub struct InstallEntry {
    /// Relative path with `\` separators, as in the manifest.
    pub name: String,
    pub ckey: Key,
    pub size: u32,
}

/// An install entry as plain values: `(name, CKey, size)`.
pub type InstallModel = (Seq<char>, Seq<u8>, u32);

/// The model of an install entry.
pub open spec fn install_view(e: InstallEntry) -> InstallModel {
    (e.name@, e.ckey@, e.size)
}

/// A parsed install manifest.
#[derive(Debug, Clone, PartialEq, Eq)]
pub struct InstallManifest {
    pub tags: Vec<Tag>,
    pub entries: Vec<InstallEntry>,
}

/// One download-manifest entry.
#[derive(Debug, Clone, Copy, PartialEq, Eq)]
pub struct DownloadEntry {
    pub ekey: Key,
    /// Encoded (BLTE) size.
    pub size: u64,
    pub priority: i8,
}

/// A download entry as plain values: `(EKey, size, priority)`.
pub type DownloadModel = (Seq<u8>, u64, i8);

/// The model of a download entry.
pub open spec fn download_view(e: DownloadEntry) -> DownloadModel {
    (e.ekey@, e.size, e.priority)
}

/// A parsed download manifest.
#[derive(Debug, Clone, PartialEq, Eq)]
pub struct DownloadManifest {
    pub tags: Vec<Tag>,
    pub entries: Vec<DownloadEntry>,
}

/// Why a manifest is refused.
#[derive(Debug, Clone, Copy, PartialEq, Eq)]
pub enum ManifestError {
    /// Does not start with `IN`.
    NotInstall,
    /// Does not start with `DL`.
    NotDownload,
    /// Keys of another size than 16 bytes.
    KeySize(usize),
    /// A field at this offset runs past the end.
    Truncated(usize),
    /// The string at this offset has no terminating zero.
    Unterminated(usize),
}

/// `n` bytes at `pos`, and the position after them.
pub open spec fn read_bytes(d: Seq<u8>, pos: int, n: int) -> Result<(Seq<u8>, int), ManifestError> {
    if pos + n <= d.len() {
        Ok((d.subrange(pos, pos + n), pos + n))
    } else {
        Err(ManifestError::Truncated(pos as usize))
    }
}

/// A big-endian integer of `n` bytes at `pos`.
pub open spec fn read_uint(d: Seq<u8>, pos: int, n: int) -> Result<(nat, int), ManifestError> {
    match read_bytes(d, pos, n) {
        Ok((b, p)) => Ok((be_value(b), p)),
        Err(e) => Err(e),
    }
}

/// The first zero byte at or after `p`.
pub open spec fn zero_from(d: Seq<u8>, p: int) -> Option<int>
    decreases d.len() - p,
{
    if p < 0 || p >= d.len() {
        None
    } else if d[p] == 0 {
        Some(p)
    } else {
        zero_from(d, p + 1)
    }
}

/// A zero-terminated string at `pos`, decoded like `from_utf8_lossy`.
pub open spec fn read_cstr(d: Seq<u8>, pos: int) -> Result<(Seq<char>, int), ManifestError> {
    match zero_from(d, pos) {
        None => Err(ManifestError::Unterminated(pos as usize)),
        Some(z) => Ok((utf8_lossy(d.subrange(pos, z)), z + 1)),
    }
}

/// Bytes of a mask with one bit per entry.
pub open spec fn mask_len(entries: nat) -> nat {
    entries / 8 + if entries % 8 != 0 { 1nat } else { 0nat }
}

/// One tag at `pos`.
pub open spec fn read_tag(d: Seq<u8>, pos: int, mlen: int) -> Result<(TagModel, int), ManifestError> {
    match read_cstr(d, pos) {
        Err(e) => Err(e),
        Ok((name, p1)) => match read_uint(d, p1, 2) {
            Err(e) => Err(e),
            Ok((kind, p2)) => match read_bytes(d, p2, mlen) {
                Err(e) => Err(e),
                Ok((mask, p3)) => Ok(((name, kind as u16, mask), p3)),
            },
        },
    }
}

/// `count` tags from `pos`, appended to `acc`.
pub open spec fn read_tags(d: Seq<u8>, pos: int, count: nat, mlen: int, acc: Seq<TagModel>) -> Result<(Seq<TagModel>, int), ManifestError>
    decreases count,
{
    if count == 0 {
        Ok((acc, pos))
    } else {
        match read_tag(d, pos, mlen) {
            Err(e) => Err(e),
            Ok((t, p)) => read_tags(d, p, (count - 1) as nat, mlen, acc.push(t)),
        }
    }
}

/// One install entry at `pos`.
pub open spec fn read_install_entry(d: Seq<u8>, pos: int) -> Result<(InstallModel, int), ManifestError> {
    match read_cstr(d, pos) {
        Err(e) => Err(e),
        Ok((name, p1)) => match read_bytes(d, p1, 16) {
            Err(e) => Err(e),
            Ok((ckey, p2)) => match read_uint(d, p2, 4) {
                Err(e) => Err(e),
                Ok((size, p3)) => Ok(((name, ckey, size as u32), p3)),
            },
        },
    }
}

/// `count` install entries from `pos`, appended to `acc`.
pub open spec fn read_install_entries(d: Seq<u8>, pos: int, count: nat, acc: Seq<InstallModel>) -> Result<(Seq<InstallModel>, int), ManifestError>
    decreases count,
{
    if count == 0 {
        Ok((acc, pos))
    } else {
        match read_install_entry(d, pos) {
            Err(e) => Err(e),
            Ok((e, p)) => read_install_entries(d, p, (count - 1) as nat, acc.push(e)),
        }
    }
}

/// What [`InstallManifest::parse`] yields: `(tags, entries)`.
pub open spec fn spec_install(d: Seq<u8>) -> Result<(Seq<TagModel>, Seq<InstallModel>), ManifestError> {
    if d.len() < 2 {
        Err(ManifestError::Truncated(0))
    } else if !(d[0] == 0x49 && d[1] == 0x4e) {
        Err(ManifestError::NotInstall)
    } else if d.len() < 3 {
        Err(ManifestError::Truncated(2))
    } else if d.len() < 4 {
        Err(ManifestError::Truncated(3))
    } else if d[3] != 16 {
        Err(ManifestError::KeySize(d[3] as usize))
    } else if d.len() < 6 {
        Err(ManifestError::Truncated(4))
    } else if d.len() < 10 {
        Err(ManifestError::Truncated(6))
    } else {
        let tag_count = be_value(d.subrange(4, 6));
        let entry_count = be_value(d.subrange(6, 10));
        match read_tags(d, 10, tag_count, mask_len(entry_count) as int, Seq::empty()) {
            Err(e) => Err(e),
            Ok((tags, p)) => match read_install_entries(d, p, entry_count, Seq::empty()) {
                Err(e) => Err(e),
                Ok((entries, _)) => Ok((tags, entries)),
            },
        }
    }
}

/// One download entry at `pos`, with `extra` bytes of checksum and flags
/// after it.
pub open spec fn read_download_entry(d: Seq<u8>, pos: int, checksum: bool, flags: int) -> Result<(DownloadModel, int), ManifestError> {
    match read_bytes(d, pos, 16) {
        Err(e) => Err(e),
        Ok((ekey, p1)) => match read_uint(d, p1, 5) {
            Err(e) => Err(e),
            Ok((size, p2)) => match read_uint(d, p2, 1) {
                Err(e) => Err(e),
                Ok((prio, p3)) => {
                    let p4 = if checksum {
                        read_bytes(d, p3, 4)
                    } else {
                        Ok((Seq::empty(), p3))
                    };
                    match p4 {
                        Err(e) => Err(e),
                        Ok((_, p4)) => match read_bytes(d, p4, flags) {
                            Err(e) => Err(e),
                            Ok((_, p5)) => Ok(((ekey, size as u64, (prio as u8) as i8), p5)),
                        },
                    }
                },
            },
        },
    }
}

/// `count` download entries from `pos`, appended to `acc`.
pub open spec fn read_download_entries(d: Seq<u8>, pos: int, count: nat, checksum: bool, flags: int, acc: Seq<DownloadModel>) -> Result<(Seq<DownloadModel>, int), ManifestError>
    decreases count,
{
    if count == 0 {
        Ok((acc, pos))
    } else {
        match read_download_entry(d, pos, checksum, flags) {
            Err(e) => Err(e),
            Ok((e, p)) => read_download_entries(d, p, (count - 1) as nat, checksum, flags, acc.push(e)),
        }
    }
}

/// The flag byte count of a download manifest (version 2 on) and where the
/// entries start.
pub open spec fn download_preamble(d: Seq<u8>) -> Result<(int, int), ManifestError> {
    let version = d[2];
    if version >= 2 {
        if d.len() < 12 {
            Err(ManifestError::Truncated(11))
        } else if version >= 3 {
            if d.len() < 16 {
                Err(ManifestError::Truncated(12))
            } else {
                Ok((d[11] as int, 16))
            }
        } else {
            Ok((d[11] as int, 12))
        }
    } else {
        Ok((0, 11))
    }
}

/// What [`DownloadManifest::parse`] yields: `(tags, entries)`.
pub open spec fn spec_download(d: Seq<u8>) -> Result<(Seq<TagModel>, Seq<DownloadModel>), ManifestError> {
    if d.len() < 2 {
        Err(ManifestError::Truncated(0))
    } else if !(d[0] == 0x44 && d[1] == 0x4c) {
        Err(ManifestError::NotDownload)
    } else if d.len() < 3 {
        Err(ManifestError::Truncated(2))
    } else if d.len() < 4 {
        Err(ManifestError::Truncated(3))
    } else if d[3] != 16 {
        Err(ManifestError::KeySize(d[3] as usize))
    } else if d.len() < 5 {
        Err(ManifestError::Truncated(4))
    } else if d.len() < 9 {
        Err(ManifestError::Truncated(5))
    } else if d.len() < 11 {
        Err(ManifestError::Truncated(9))
    } else {
        let checksum = d[4] != 0;
        let entry_count = be_value(d.subrange(5, 9));
        let tag_count = be_value(d.subrange(9, 11));
        match download_preamble(d) {
            Err(e) => Err(e),
            Ok((flags, start)) => match read_download_entries(d, start, entry_count, checksum, flags, Seq::empty()) {
                Err(e) => Err(e),
                Ok((entries, p)) => match read_tags(d, p, tag_count, mask_len(entry_count) as int, Seq::empty()) {
                    Err(e) => Err(e),
                    Ok((tags, _)) => Ok((tags, entries)),
                },
            },
        }
    }
}

fn cstr(data: &[u8], pos: usize) -> (r: Result<(String, usize), ManifestError>)
    requires
        pos <= data@.len(),
    ensures
        match (r, read_cstr(data@, pos as int)) {
            (Ok((s, p)), Ok((sv, sp))) => s@ == sv && p == sp && p <= data@.len(),
            (Err(e), Err(se)) => e == se,
            _ => false,
        },
{
    let n = data.len();
    let mut z = pos;
    while z < n && data[z] != 0
        invariant
            pos <= z <= n,
            n == data@.len(),
            zero_from(data@, pos as int) == zero_from(data@, z as int),
        decreases n - z,
    {
        z += 1;
    }
    if z == n {
        return Err(ManifestError::Unterminated(pos));
    }
    let s = lossy_string(&data[pos..z]);
    Ok((s, z + 1))
}

fn tag_at(data: &[u8], pos: usize, mlen: usize) -> (r: Result<(Tag, usize), ManifestError>)
    requires
        pos <= data@.len(),
    ensures
        match (r, read_tag(data@, pos as int, mlen as int)) {
            (Ok((t, p)), Ok((tv, sp))) => tag_view(t) == tv && p == sp && p <= data@.len(),
            (Err(e), Err(se)) => e == se,
            _ => false,
        },
{
    let (name, p1) = match cstr(data, pos) {
        Ok(x) => x,
        Err(e) => return Err(e),
    };
    if data.len() - p1 < 2 {
        return Err(ManifestError::Truncated(p1));
    }
    let kind = be_uint(&data[p1..p1 + 2]);
    proof {
        lemma_be_value_bound(data@.subrange(p1 as int, p1 + 2));
        reveal_with_fuel(byte_bound, 3);
    }
    let p2 = p1 + 2;
    if data.len() - p2 < mlen {
        return Err(ManifestError::Truncated(p2));
    }
    let mut mask: Vec<u8> = Vec::new();
    let mut k: usize = 0;
    let n = data.len();
    while k < mlen
        invariant
            n == data@.len(),
            k <= mlen,
            p2 + mlen <= data@.len(),
            mask@ == data@.subrange(p2 as int, p2 + k),
        decreases mlen - k,
    {
        mask.push(data[p2 + k]);
        k += 1;
        assert(mask@ =~= data@.subrange(p2 as int, p2 + k));
    }
    Ok((Tag { name, kind: kind as u16, mask }, p2 + mlen))
}

fn tags_at(data: &[u8], pos: usize, count: usize, mlen: usize) -> (r: Result<(Vec<Tag>, usize), ManifestError>)
    requires
        pos <= data@.len(),
    ensures
        match (r, read_tags(data@, pos as int, count as nat, mlen as int, Seq::empty())) {
            (Ok((t, p)), Ok((tv, sp))) => tags_view(t@) == tv && p == sp && p <= data@.len(),
            (Err(e), Err(se)) => e == se,
            _ => false,
        },
{
    let mut out: Vec<Tag> = Vec::new();
    let mut p = pos;
    let mut i: usize = 0;
    assert(tags_view(out@) =~= Seq::<TagModel>::empty());
    while i < count
        invariant
            i <= count,
            p <= data@.len(),
            read_tags(data@, pos as int, count as nat, mlen as int, Seq::empty()) == read_tags(
                data@,
                p as int,
                (count - i) as nat,
                mlen as int,
                tags_view(out@),
            ),
        decreases count - i,
    {
        let (t, q) = match tag_at(data, p, mlen) {
            Ok(x) => x,
            Err(e) => return Err(e),
        };
        let ghost before = out@;
        out.push(t);
        assert(tags_view(out@) =~= tags_view(before).push(tag_view(t)));
        p = q;
        i += 1;
    }
    Ok((out, p))
}

impl InstallManifest {
    /// Parses an install manifest.
    #[verifier::loop_isolation(false)]
    pub fn parse(data: &[u8]) -> (r: Result<Self, ManifestError>)
        ensures
            match (r, spec_install(data@)) {
                (Ok(m), Ok((tv, ev))) => tags_view(m.tags@) == tv && m.entries@.map_values(|e: InstallEntry| install_view(e)) == ev,
                (Err(e), Err(se)) => e == se,
                _ => false,
            },
    {
        let n = data.len();
        if n < 2 {
            return Err(ManifestError::Truncated(0));
        }
        if !(data[0] == 0x49 && data[1] == 0x4e) {
            return Err(ManifestError::NotInstall);
        }
        if n < 3 {
            return Err(ManifestError::Truncated(2));
        }
        if n < 4 {
            return Err(ManifestError::Truncated(3));
        }
        if data[3] != 16 {
            return Err(ManifestError::KeySize(data[3] as usize));
        }
        if n < 6 {
            return Err(ManifestError::Truncated(4));
        }
        if n < 10 {
            return Err(ManifestError::Truncated(6));
        }
        let tag_count = be_uint(&data[4..6]);
        let entry_count = be_uint(&data[6..10]);
        proof {
            lemma_be_value_bound(data@.subrange(4, 6));
            lemma_be_value_bound(data@.subrange(6, 10));
            reveal_with_fuel(byte_bound, 5);
        }
        let mlen = (entry_count / 8 + if entry_count % 8 != 0 { 1 } else { 0 }) as usize;
        assert(mlen == mask_len(entry_count as nat));
        let (tags, p) = match tags_at(data, 10, tag_count as usize, mlen) {
            Ok(x) => x,
            Err(e) => return Err(e),
        };
        let count = entry_count as usize;
        let mut entries: Vec<InstallEntry> = Vec::new();
        let mut q = p;
        let mut i: usize = 0;
        let ghost tv = tags_view(tags@);
        assert(entries@.map_values(|e: InstallEntry| install_view(e)) =~= Seq::<InstallModel>::empty());
        while i < count
            invariant
                i <= count,
                q <= data@.len(),
                read_tags(data@, 10, tag_count as nat, mlen as int, Seq::empty()) == Ok::<(Seq<TagModel>, int), ManifestError>((tv, p as int)),
                count == entry_count,
                read_install_entries(data@, p as int, count as nat, Seq::empty()) == read_install_entries(
                    data@,
                    q as int,
                    (count - i) as nat,
                    entries@.map_values(|e: InstallEntry| install_view(e)),
                ),
            decreases count - i,
        {
            let (name, p1) = match cstr(data, q) {
                Ok(x) => x,
                Err(e) => return Err(e),
            };
            if data.len() - p1 < 16 {
                return Err(ManifestError::Truncated(p1));
            }
            let ckey = key_at(data, p1);
            let p2 = p1 + 16;
            if data.len() - p2 < 4 {
                return Err(ManifestError::Truncated(p2));
            }
            let size = be_uint(&data[p2..p2 + 4]);
            proof {
                lemma_be_value_bound(data@.subrange(p2 as int, p2 + 4));
                reveal_with_fuel(byte_bound, 5);
            }
            let e = InstallEntry { name, ckey, size: size as u32 };
            let ghost before = entries@;
            entries.push(e);
            assert(entries@.map_values(|e: InstallEntry| install_view(e)) =~= before.map_values(|e: InstallEntry| install_view(e)).push(install_view(e)));
            q = p2 + 4;
            i += 1;
        }
        Ok(InstallManifest { tags, entries })
    }
}

impl DownloadManifest {
    /// Parses a download manifest.
    #[verifier::loop_isolation(false)]
    pub fn parse(data: &[u8]) -> (r: Result<Self, ManifestError>)
        ensures
            match (r, spec_download(data@)) {
                (Ok(m), Ok((tv, ev))) => tags_view(m.tags@) == tv && m.entries@.map_values(|e: DownloadEntry| download_view(e)) == ev,
                (Err(e), Err(se)) => e == se,
                _ => false,
            },
    {
        let n = data.len();
        if n < 2 {
            return Err(ManifestError::Truncated(0));
        }
        if !(data[0] == 0x44 && data[1] == 0x4c) {
            return Err(ManifestError::NotDownload);
        }
        if n < 3 {
            return Err(ManifestError::Truncated(2));
        }
        if n < 4 {
            return Err(ManifestError::Truncated(3));
        }
        if data[3] != 16 {
            return Err(ManifestError::KeySize(data[3] as usize));
        }
        if n < 5 {
            return Err(ManifestError::Truncated(4));
        }
        if n < 9 {
            return Err(ManifestError::Truncated(5));
        }
        if n < 11 {
            return Err(ManifestError::Truncated(9));
        }
        let checksum = data[4] != 0;
        let entry_count = be_uint(&data[5..9]);
        let tag_count = be_uint(&data[9..11]);
        proof {
            lemma_be_value_bound(data@.subrange(5, 9));
            lemma_be_value_bound(data@.subrange(9, 11));
            reveal_with_fuel(byte_bound, 5);
        }
        let version = data[2];
        let mut flags: usize = 0;
        let mut start: usize = 11;
        if version >= 2 {
            if n < 12 {
                return Err(ManifestError::Truncated(11));
            }
            flags = data[11] as usize;
            start = 12;
            if version >= 3 {
                if n < 16 {
                    return Err(ManifestError::Truncated(12));
                }
                start = 16;
            }
        }
        assert(download_preamble(data@) == Ok::<(int, int), ManifestError>((flags as int, start as int)));
        let count = entry_count as usize;
        let mut entries: Vec<DownloadEntry> = Vec::new();
        let mut q = start;
        let mut i: usize = 0;
        assert(entries@.map_values(|e: DownloadEntry| download_view(e)) =~= Seq::<DownloadModel>::empty());
        while i < count
            invariant
                i <= count,
                q <= data@.len(),
                n == data@.len(),
                count == entry_count,
                read_download_entries(data@, start as int, count as nat, checksum, flags as int, Seq::empty())
                    == read_download_entries(
                    data@,
                    q as int,
                    (count - i) as nat,
                    checksum,
                    flags as int,
                    entries@.map_values(|e: DownloadEntry| download_view(e)),
                ),
            decreases count - i,
        {
            if n - q < 16 {
                return Err(ManifestError::Truncated(q));
            }
            let ekey = key_at(data, q);
            let p1 = q + 16;
            if n - p1 < 5 {
                return Err(ManifestError::Truncated(p1));
            }
            let size = be_uint(&data[p1..p1 + 5]);
            let p2 = p1 + 5;
            if n - p2 < 1 {
                return Err(ManifestError::Truncated(p2));
            }
            let prio = data[p2];
            proof {
                reveal_with_fuel(be_value, 2);
                assert(data@.subrange(p2 as int, p2 + 1).drop_last() =~= Seq::<u8>::empty());
            }
            let mut p3 = p2 + 1;
            if checksum {
                if n - p3 < 4 {
                    return Err(ManifestError::Truncated(p3));
                }
                p3 = p3 + 4;
            }
            if n - p3 < flags {
                return Err(ManifestError::Truncated(p3));
            }
            let e = DownloadEntry { ekey, size, priority: #[verifier::truncate] (prio as i8) };
            let ghost before = entries@;
            entries.push(e);
            assert(entries@.map_values(|e: DownloadEntry| download_view(e)) =~= before.map_values(|e: DownloadEntry| download_view(e)).push(download_view(e)));
            q = p3 + flags;
            i += 1;
        }
        let mlen = (entry_count / 8 + if entry_count % 8 != 0 { 1 } else { 0 }) as usize;
        assert(mlen == mask_len(entry_count as nat));
        let (tags, _) = match tags_at(data, q, tag_count as usize, mlen) {
            Ok(x) => x,
            Err(e) => return Err(e),
        };
        Ok(DownloadManifest { tags, entries })
    }
}

/// Bytes per download entry: `EKey`, 40-bit size, priority, the checksum
/// when there is one, and `flags` flag bytes.
pub open spec fn download_entry_width(checksum: bool, flags: int) -> int {
    16 + 5 + 1 + (if checksum { 4int } else { 0int }) + flags
}

/// The download entry stored at byte `q`.
pub open spec fn download_entry_at(d: Seq<u8>, q: int) -> DownloadModel {
    (d.subrange(q, q + 16), be_value(d.subrange(q + 16, q + 21)) as u64, d[q + 21] as i8)
}

proof fn lemma_read_download_entries(
    d: Seq<u8>,
    pos: int,
    count: nat,
    checksum: bool,
    flags: int,
    acc: Seq<DownloadModel>,
)
    requires
        flags >= 0,
        pos >= 0,
    ensures
        read_download_entries(d, pos, count, checksum, flags, acc) matches Ok((res, p)) ==> {
            let w = download_entry_width(checksum, flags);
            &&& res.len() == acc.len() + count
            &&& res.take(acc.len() as int) == acc
            &&& p == pos + count * w
            &&& forall|k: int| 0 <= k < count ==> #[trigger] res[acc.len() + k] == download_entry_at(d, pos + k * w)
        },
    decreases count,
{
    let w = download_entry_width(checksum, flags);
    if count > 0 {
        if let Ok((e, p1)) = read_download_entry(d, pos, checksum, flags) {
            assert(pos + 22 <= d.len());
            let b = d.subrange(pos + 21, pos + 22);
            assert(b.len() == 1);
            assert(b.last() == d[pos + 21]);
            assert(b.drop_last() =~= Seq::<u8>::empty());
            assert(be_value(b.drop_last()) == 0);
            assert(be_value(b) == d[pos + 21]);
            assert(e == download_entry_at(d, pos));
            assert(p1 == pos + w);
            let acc2 = acc.push(e);
            lemma_read_download_entries(d, p1, (count - 1) as nat, checksum, flags, acc2);
            if let Ok((res, p)) = read_download_entries(d, pos, count, checksum, flags, acc) {
                assert(res.take(acc2.len() as int) == acc2);
                assert(res.take(acc.len() as int) =~= acc2.take(acc.len() as int));
                assert(acc2.take(acc.len() as int) =~= acc);
                assert(p == pos + w + (count - 1) * w);
                assert(pos + w + (count - 1) * w == pos + count * w) by (nonlinear_arith);
                assert forall|k: int| 0 <= k < count implies #[trigger] res[acc.len() + k] == download_entry_at(d, pos + k * w) by {
                    if k == 0 {
                        assert(res[acc.len() as int] == res.take(acc2.len() as int)[acc.len() as int]);
                    } else {
                        assert(res[acc2.len() + (k - 1)] == download_entry_at(d, p1 + (k - 1) * w));
                        assert(p1 + (k - 1) * w == pos + k * w) by (nonlinear_arith)
                            requires p1 == pos + w;
                    }
                }
            }
        }
    }
}

/// Where the entries of a download manifest are read: with version `v`
/// (byte 2), the flag byte count is byte 11 from version 2 on (none before),
/// the entries start at byte 16 from version 3 on, at 12 for version 2 and
/// at 11 before; entry `i` is read at `start + i * width`, `width` being the
/// 16-byte `EKey`, the 5-byte size, the priority byte, 4 checksum bytes when
/// byte 4 is not zero, and the flag bytes. There are as many entries as the
/// big-endian count at bytes 5..9 says.
pub proof fn lemma_download_entries_layout(d: Seq<u8>)
    ensures
        spec_download(d) matches Ok((tags, entries)) ==> {
            let v = d[2];
            let flags: int = if v >= 2 { d[11] as int } else { 0 };
            let start: int = if v >= 3 { 16 } else if v == 2 { 12 } else { 11 };
            let w = download_entry_width(d[4] != 0, flags);
            &&& entries.len() == be_value(d.subrange(5, 9))
            &&& forall|i: int| 0 <= i < entries.len() ==> #[trigger] entries[i] == download_entry_at(d, start + i * w)
        },
{
    if let Ok((tags, entries)) = spec_download(d) {
        if let Ok((flags, start)) = download_preamble(d) {
            let count = be_value(d.subrange(5, 9));
            lemma_read_download_entries(d, start, count, d[4] != 0, flags, Seq::empty());
            let w = download_entry_width(d[4] != 0, flags);
            if let Ok((res, p)) = read_download_entries(d, start, count, d[4] != 0, flags, Seq::empty()) {
                assert forall|i: int| 0 <= i < res.len() implies #[trigger] res[i] == download_entry_at(d, start + i * w) by {
                    assert(res[0 + i] == download_entry_at(d, start + i * w));
                }
            }
        }
    }
}

} // verus!
