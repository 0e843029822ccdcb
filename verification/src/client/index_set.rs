//! The `Data/indices` set the Battle.net Agent keeps next to a CASC install:
//! the `.index` of every CDN config `archives` and `patch-archives` entry,
//! plus `archive-group`, `patch-archive-group`, `file-index` and
//! `patch-file-index` (the first key of each variable), all named
//! `<key>.index`.
//!
//! CDN paths: `data/xx/yy/<key>.index` for archives and `file-index`,
//! `patch/xx/yy/<key>.index` for patch archives and `patch-file-index`.

use vstd::prelude::*;
use std::collections::HashSet;
use crate::client::config::{ConfigFile, VarModel, config_key, var_named};
use crate::client::util::{Key, hex, hex_of, is_key_text, key_of_hex, parse_key};
use crate::client::fetch::{key_number, location_key};
use crate::client::plan::lemma_key_number_injective;
use crate::text::{chars_eq, chars_of, push_decimal, decimal, string_of, trim};

verus! {

/// CDN directory an index is served from.
#[derive(Debug, Clone, Copy, PartialEq, Eq)]
pub enum CdnKind {
    Data,
    Patch,
}

impl CdnKind {
    /// The CDN directory: `data` or `patch`.
    pub fn dir(self) -> (r: &'static str)
        ensures
            r@ == match self {
                CdnKind::Data => "data"@,
                CdnKind::Patch => "patch"@,
            },
    {
        match self {
            CdnKind::Data => "data",
            CdnKind::Patch => "patch",
        }
    }
}

/// The indices of a CDN config.
#[derive(Debug, Clone, PartialEq, Eq)]
pub struct IndexSet {
    pub archives: Vec<Key>,
    pub patch_archives: Vec<Key>,
    pub file_index: Option<Key>,
    pub patch_file_index: Option<Key>,
    pub archive_group: Option<Key>,
    pub patch_archive_group: Option<Key>,
}

/// Why a CDN config gives no index set.
#[derive(Debug, Clone, PartialEq, Eq)]
pub enum IndexSetError {
    /// A value of a key list is not a key.
    BadKey { variable: String, value: String },
    /// The config has no `archives`.
    NoArchives,
}

/// The values of variable `name` (none when it is absent).
pub open spec fn values_of(vars: Seq<VarModel>, name: Seq<char>) -> Seq<Seq<char>> {
    match var_named(vars, name) {
        Some(i) => vars[i].1,
        None => Seq::empty(),
    }
}

/// The keys of a list of values, or the first value that is not a key.
pub open spec fn keys_of(values: Seq<Seq<char>>) -> Result<Seq<Seq<u8>>, Seq<char>>
    decreases values.len(),
{
    if values.len() == 0 {
        Ok(Seq::empty())
    } else {
        match keys_of(values.drop_last()) {
            Err(v) => Err(v),
            Ok(ks) => if is_key_text(values.last()) {
                Ok(ks.push(key_of_hex(trim(values.last()))))
            } else {
                Err(values.last())
            },
        }
    }
}

/// An index set as plain values.
pub struct IndexSetModel {
    pub archives: Seq<Seq<u8>>,
    pub patch_archives: Seq<Seq<u8>>,
    pub file_index: Option<Seq<u8>>,
    pub patch_file_index: Option<Seq<u8>>,
    pub archive_group: Option<Seq<u8>>,
    pub patch_archive_group: Option<Seq<u8>>,
}

/// The model of an optional key.
pub open spec fn opt_key(k: Option<Key>) -> Option<Seq<u8>> {
    match k {
        Some(k) => Some(k@),
        None => None,
    }
}

/// The models of a list of keys.
pub open spec fn keys_view(v: Seq<Key>) -> Seq<Seq<u8>> {
    v.map_values(|k: Key| k@)
}

/// The model of an index set.
pub open spec fn set_view(s: IndexSet) -> IndexSetModel {
    IndexSetModel {
        archives: keys_view(s.archives@),
        patch_archives: keys_view(s.patch_archives@),
        file_index: opt_key(s.file_index),
        patch_file_index: opt_key(s.patch_file_index),
        archive_group: opt_key(s.archive_group),
        patch_archive_group: opt_key(s.patch_archive_group),
    }
}

/// What [`IndexSet::from_cdn_config`] yields: the key lists (the first bad
/// value is an error, `archives` first), the optional single keys, and an
/// error when there are no archives.
pub open spec fn spec_from_config(vars: Seq<VarModel>) -> Result<IndexSetModel, (Seq<char>, Seq<char>)> {
    match keys_of(values_of(vars, "archives"@)) {
        Err(v) => Err(("archives"@, v)),
        Ok(archives) => match keys_of(values_of(vars, "patch-archives"@)) {
            Err(v) => Err(("patch-archives"@, v)),
            Ok(patch_archives) => Ok(
                IndexSetModel {
                    archives,
                    patch_archives,
                    file_index: config_key(vars, "file-index"@, 0),
                    patch_file_index: config_key(vars, "patch-file-index"@, 0),
                    archive_group: config_key(vars, "archive-group"@, 0),
                    patch_archive_group: config_key(vars, "patch-archive-group"@, 0),
                },
            ),
        },
    }
}

fn keys(cfg: &ConfigFile, name: &str) -> (r: Result<Vec<Key>, IndexSetError>)
    ensures
        match (r, keys_of(values_of(cfg.vars(), name@))) {
            (Ok(v), Ok(ks)) => keys_view(v@) == ks,
            (Err(IndexSetError::BadKey { variable, value }), Err(bad)) => variable@ == name@ && value@ == bad,
            _ => false,
        },
{
    let mut out: Vec<Key> = Vec::new();
    let values = match cfg.values(name) {
        Some(v) => v,
        None => {
            assert(keys_view(out@) =~= Seq::<Seq<u8>>::empty());
            return Ok(out);
        },
    };
    let ghost vv = values@.map_values(|s: String| s@);
    assert(vv == values_of(cfg.vars(), name@));
    let mut i: usize = 0;
    assert(keys_view(out@) =~= Seq::<Seq<u8>>::empty());
    assert(vv.take(0) =~= Seq::<Seq<char>>::empty());
    while i < values.len()
        invariant
            i <= values@.len(),
            vv == values@.map_values(|s: String| s@),
            vv == values_of(cfg.vars(), name@),
            keys_of(vv.take(i as int)) == Ok::<Seq<Seq<u8>>, Seq<char>>(keys_view(out@)),
        decreases values@.len() - i,
    {
        assert(vv.take(i + 1).drop_last() =~= vv.take(i as int));
        assert(vv[i as int] == values@[i as int]@);
        match parse_key(values[i].as_str()) {
            Some(k) => {
                let ghost before = out@;
                out.push(k);
                assert(keys_view(out@) =~= keys_view(before).push(k@));
            },
            None => {
                let variable = string_of(chars_of(name).as_slice());
                let value = string_of(chars_of(values[i].as_str()).as_slice());
                proof {
                    assert(keys_of(vv.take(i + 1)) == Err::<Seq<Seq<u8>>, Seq<char>>(vv[i as int]));
                    lemma_keys_of_err_prefix(vv, i as int + 1);
                }
                return Err(IndexSetError::BadKey { variable, value });
            },
        }
        i += 1;
    }
    assert(vv.take(i as int) =~= vv);
    Ok(out)
}

/// An error in a prefix of the values is the error of all of them.
proof fn lemma_keys_of_err_prefix(vv: Seq<Seq<char>>, n: int)
    requires
        0 <= n <= vv.len(),
        keys_of(vv.take(n)) is Err,
    ensures
        keys_of(vv) == keys_of(vv.take(n)),
    decreases vv.len() - n,
{
    if n < vv.len() {
        assert(vv.take(n + 1).drop_last() =~= vv.take(n));
        lemma_keys_of_err_prefix(vv, n + 1);
    } else {
        assert(vv.take(n) =~= vv);
    }
}

/// `list` without the entries whose key occurs earlier.
pub open spec fn first_by_key(list: Seq<(Seq<u8>, CdnKind)>) -> Seq<(Seq<u8>, CdnKind)>
    decreases list.len(),
{
    if list.len() == 0 {
        list
    } else {
        let rest = list.drop_last();
        if has_key(rest, list.last().0) {
            first_by_key(rest)
        } else {
            first_by_key(rest).push(list.last())
        }
    }
}

/// Some pair of `list` has key `k`.
pub open spec fn has_key(list: Seq<(Seq<u8>, CdnKind)>, k: Seq<u8>) -> bool {
    exists|j: int| 0 <= j < list.len() && #[trigger] list[j].0 == k
}

/// The keys paired with one kind.
pub open spec fn tagged(ks: Seq<Seq<u8>>, kind: CdnKind) -> Seq<(Seq<u8>, CdnKind)> {
    ks.map_values(|k: Seq<u8>| (k, kind))
}

/// The keys of the pairs.
pub open spec fn pair_keys(ps: Seq<(Seq<u8>, CdnKind)>) -> Seq<Seq<u8>> {
    ps.map_values(|p: (Seq<u8>, CdnKind)| p.0)
}

/// The index file names of the keys.
pub open spec fn names_of(ks: Seq<Seq<u8>>) -> Seq<Seq<char>> {
    ks.map_values(|k: Seq<u8>| index_name(k))
}

/// The optional key as a list.
pub open spec fn opt_list(k: Option<Seq<u8>>) -> Seq<Seq<u8>> {
    match k {
        Some(k) => seq![k],
        None => Seq::empty(),
    }
}

/// The indices fetched from the CDN before deduplication, in fetch order.
pub open spec fn download_list(s: IndexSetModel) -> Seq<(Seq<u8>, CdnKind)> {
    tagged(s.archives + opt_list(s.file_index), CdnKind::Data) + tagged(s.patch_archives + opt_list(s.patch_file_index), CdnKind::Patch)
}

/// `list` without the names that occur earlier.
pub open spec fn first_names(list: Seq<Seq<char>>) -> Seq<Seq<char>>
    decreases list.len(),
{
    if list.len() == 0 {
        list
    } else {
        let rest = list.drop_last();
        if rest.contains(list.last()) {
            first_names(rest)
        } else {
            first_names(rest).push(list.last())
        }
    }
}

/// The file name of an index: lower-case hex key and `.index`.
pub open spec fn index_name(k: Seq<u8>) -> Seq<char> {
    hex_of(k) + ".index"@
}

/// The models of a list of `(key, kind)` pairs.
pub open spec fn pairs_view(v: Seq<(Key, CdnKind)>) -> Seq<(Seq<u8>, CdnKind)> {
    v.map_values(|p: (Key, CdnKind)| (p.0@, p.1))
}

/// `seen` holds exactly the numbers of the keys of `out`.
pub open spec fn seen_keys(seen: Set<u128>, out: Seq<(Key, CdnKind)>) -> bool {
    forall|x: u128| #[trigger] seen.contains(x) <==> exists|j: int| 0 <= j < out.len() && key_number(#[trigger] out[j].0@) == x
}

fn push_unique(seen: &mut HashSet<u128>, out: &mut Vec<(Key, CdnKind)>, k: Key, kind: CdnKind)
    requires
        seen_keys(old(seen)@, old(out)@),
    ensures
        seen_keys(final(seen)@, final(out)@),
        has_key(pairs_view(old(out)@), k@) ==> final(out)@ == old(out)@,
        !has_key(pairs_view(old(out)@), k@) ==> final(out)@ == old(out)@.push((k, kind)),
{
    let ghost pv = pairs_view(out@);
    let ghost before = out@;
    let ghost seen0 = seen@;
    let num = location_key(&k);
    let fresh = seen.insert(num);
    proof {
        if has_key(pv, k@) {
            let j = choose|j: int| 0 <= j < pv.len() && #[trigger] pv[j].0 == k@;
            assert(pv[j].0 == before[j].0@);
            assert(seen0.contains(key_number(before[j].0@)));
        } else {
            if seen0.contains(num) {
                let j = choose|j: int| 0 <= j < before.len() && key_number(#[trigger] before[j].0@) == num;
                lemma_key_number_injective(before[j].0@, k@);
                assert(pv[j].0 == k@);
            }
        }
    }
    if fresh {
        out.push((k, kind));
        proof {
            assert forall|x: u128| #[trigger] seen@.contains(x) <==> exists|j: int| 0 <= j < out@.len() && key_number(
                #[trigger] out@[j].0@,
            ) == x by {
                if seen@.contains(x) && x != num {
                    let j = choose|j: int| 0 <= j < before.len() && key_number(#[trigger] before[j].0@) == x;
                    assert(out@[j] == before[j]);
                }
                if x == num {
                    assert(out@[before.len() as int].0 == k);
                }
                if exists|j: int| 0 <= j < out@.len() && key_number(#[trigger] out@[j].0@) == x {
                    let j = choose|j: int| 0 <= j < out@.len() && key_number(#[trigger] out@[j].0@) == x;
                    if j < before.len() {
                        assert(out@[j] == before[j]);
                    }
                }
            }
        }
    }
}

/// The pairs of `list` in order, without those whose key occurs earlier.
fn dedup_pairs(all: &Vec<(Key, CdnKind)>) -> (r: Vec<(Key, CdnKind)>)
    ensures
        pairs_view(r@) == first_by_key(pairs_view(all@)),
{
    let ghost list = pairs_view(all@);
    let mut out: Vec<(Key, CdnKind)> = Vec::new();
    let mut seen: HashSet<u128> = HashSet::new();
    let mut j: usize = 0;
    assert(list.take(0) =~= Seq::<(Seq<u8>, CdnKind)>::empty());
    assert(seen@ =~= Set::<u128>::empty());
    assert(pairs_view(out@) =~= Seq::<(Seq<u8>, CdnKind)>::empty());
    while j < all.len()
        invariant
            j <= all@.len(),
            list == pairs_view(all@),
            pairs_view(out@) == first_by_key(list.take(j as int)),
            forall|k: Seq<u8>| #[trigger] has_key(pairs_view(out@), k) == has_key(list.take(j as int), k),
            seen_keys(seen@, out@),
        decreases all@.len() - j,
    {
        let (k, kind) = all[j];
        let ghost before = out@;
        let ghost t = list.take(j + 1);
        assert(t.drop_last() =~= list.take(j as int));
        assert(t.last() == (k@, kind));
        push_unique(&mut seen, &mut out, k, kind);
        proof {
            if !has_key(pairs_view(before), k@) {
                assert(pairs_view(out@) =~= pairs_view(before).push((k@, kind)));
            }
            assert forall|x: Seq<u8>| #[trigger] has_key(pairs_view(out@), x) == has_key(t, x) by {
                let rest = t.drop_last();
                let pb = pairs_view(before);
                let po = pairs_view(out@);
                assert(has_key(pb, x) == has_key(list.take(j as int), x));
                assert(rest == list.take(j as int));
                if has_key(t, x) {
                    let q = choose|q: int| 0 <= q < t.len() && #[trigger] t[q].0 == x;
                    if q < rest.len() {
                        assert(rest[q].0 == x);
                        assert(has_key(rest, x));
                        assert(has_key(pb, x));
                        let m = choose|m: int| 0 <= m < pb.len() && #[trigger] pb[m].0 == x;
                        if !has_key(pb, k@) {
                            assert(po[m] == pb[m]);
                        }
                        assert(po[m].0 == x);
                    } else if !has_key(pb, k@) {
                        assert(po[before.len() as int].0 == x);
                    } else {
                        assert(x == k@);
                    }
                }
                if has_key(po, x) {
                    let m = choose|m: int| 0 <= m < po.len() && #[trigger] po[m].0 == x;
                    if m < before.len() {
                        assert(pb[m] == po[m]);
                        assert(pb[m].0 == x);
                        assert(has_key(pb, x));
                        assert(has_key(rest, x));
                        let q = choose|q: int| 0 <= q < rest.len() && #[trigger] rest[q].0 == x;
                        assert(t[q].0 == x);
                    } else {
                        assert(t[j as int].0 == x);
                    }
                }
            }
        }
        j += 1;
    }
    assert(list.take(j as int) =~= list);
    out
}

impl IndexSet {
    /// The index set of a CDN config.
    pub fn from_cdn_config(cfg: &ConfigFile) -> (r: Result<Self, IndexSetError>)
        ensures
            match (r, spec_from_config(cfg.vars())) {
                (Ok(s), Ok(m)) => set_view(s) == m && m.archives.len() > 0,
                (Err(IndexSetError::NoArchives), Ok(m)) => m.archives.len() == 0,
                (Err(IndexSetError::BadKey { variable, value }), Err((n, v))) => variable@ == n && value@ == v,
                _ => false,
            },
    {
        let archives = match keys(cfg, "archives") {
            Ok(v) => v,
            Err(e) => return Err(e),
        };
        let patch_archives = match keys(cfg, "patch-archives") {
            Ok(v) => v,
            Err(e) => return Err(e),
        };
        let set = IndexSet {
            archives,
            patch_archives,
            file_index: cfg.key("file-index", 0),
            patch_file_index: cfg.key("patch-file-index", 0),
            archive_group: cfg.key("archive-group", 0),
            patch_archive_group: cfg.key("patch-archive-group", 0),
        };
        if set.archives.len() == 0 {
            return Err(IndexSetError::NoArchives);
        }
        Ok(set)
    }

    /// Indices fetched from the CDN, deduplicated, in fetch order.
    pub fn downloads(&self) -> (r: Vec<(Key, CdnKind)>)
        ensures
            pairs_view(r@) == first_by_key(download_list(set_view(*self))),
    {
        let mut all: Vec<(Key, CdnKind)> = Vec::new();
        let ghost data = keys_view(self.archives@) + opt_list(opt_key(self.file_index));
        let mut i: usize = 0;
        while i < self.archives.len()
            invariant
                i <= self.archives@.len(),
                data == keys_view(self.archives@) + opt_list(opt_key(self.file_index)),
                pairs_view(all@) == tagged(data.take(i as int), CdnKind::Data),
            decreases self.archives@.len() - i,
        {
            let ghost before = all@;
            all.push((self.archives[i], CdnKind::Data));
            assert(data.take(i + 1) =~= data.take(i as int).push(self.archives@[i as int]@));
            assert(pairs_view(all@) =~= pairs_view(before).push((self.archives@[i as int]@, CdnKind::Data)));
            assert(tagged(data.take(i + 1), CdnKind::Data) =~= tagged(data.take(i as int), CdnKind::Data).push((self.archives@[i as int]@, CdnKind::Data)));
            i += 1;
        }
        match self.file_index {
            Some(k) => {
                let ghost before = all@;
                all.push((k, CdnKind::Data));
                assert(pairs_view(all@) =~= pairs_view(before).push((k@, CdnKind::Data)));
            },
            None => {},
        }
        assert(pairs_view(all@) =~= tagged(data, CdnKind::Data));
        let ghost part1 = pairs_view(all@);
        let ghost patch = keys_view(self.patch_archives@) + opt_list(opt_key(self.patch_file_index));
        let mut i: usize = 0;
        assert(tagged(patch.take(0), CdnKind::Patch) =~= Seq::<(Seq<u8>, CdnKind)>::empty());
        while i < self.patch_archives.len()
            invariant
                i <= self.patch_archives@.len(),
                patch == keys_view(self.patch_archives@) + opt_list(opt_key(self.patch_file_index)),
                pairs_view(all@) == part1 + tagged(patch.take(i as int), CdnKind::Patch),
            decreases self.patch_archives@.len() - i,
        {
            let ghost before = all@;
            all.push((self.patch_archives[i], CdnKind::Patch));
            assert(patch.take(i + 1) =~= patch.take(i as int).push(self.patch_archives@[i as int]@));
            assert(pairs_view(all@) =~= pairs_view(before).push((self.patch_archives@[i as int]@, CdnKind::Patch)));
            assert(tagged(patch.take(i + 1), CdnKind::Patch) =~= tagged(patch.take(i as int), CdnKind::Patch).push((self.patch_archives@[i as int]@, CdnKind::Patch)));
            i += 1;
        }
        match self.patch_file_index {
            Some(k) => {
                let ghost before = all@;
                all.push((k, CdnKind::Patch));
                assert(pairs_view(all@) =~= pairs_view(before).push((k@, CdnKind::Patch)));
            },
            None => {},
        }
        assert(pairs_view(all@) =~= download_list(set_view(*self)));
        dedup_pairs(&all)
    }

    /// Every `Data/indices` file name of the set: the downloads, then the
    /// groups, each name once.
    pub fn file_names(&self) -> (r: Vec<String>)
        ensures
            crate::client::tables::strings_view(r@) == first_names(
                names_of(pair_keys(first_by_key(download_list(set_view(*self)))) + opt_list(set_view(*self).archive_group)
                    + opt_list(set_view(*self).patch_archive_group)),
            ),
    {
        let dl = self.downloads();
        let ghost dk = pair_keys(pairs_view(dl@));
        let mut keys: Vec<Key> = Vec::new();
        let mut i: usize = 0;
        while i < dl.len()
            invariant
                i <= dl@.len(),
                dk == pair_keys(pairs_view(dl@)),
                keys_view(keys@) == dk.take(i as int),
            decreases dl@.len() - i,
        {
            let ghost before = keys@;
            keys.push(dl[i].0);
            assert(keys_view(keys@) =~= keys_view(before).push(dl@[i as int].0@));
            assert(dk.take(i + 1) =~= dk.take(i as int).push(dl@[i as int].0@));
            i += 1;
        }
        assert(dk.take(i as int) =~= dk);
        let ghost k1 = keys@;
        match self.archive_group {
            Some(k) => keys.push(k),
            None => {},
        }
        assert(keys_view(keys@) =~= keys_view(k1) + opt_list(opt_key(self.archive_group)));
        let ghost k2 = keys@;
        match self.patch_archive_group {
            Some(k) => keys.push(k),
            None => {},
        }
        assert(keys_view(keys@) =~= keys_view(k2) + opt_list(opt_key(self.patch_archive_group)));
        let ghost names = names_of(keys_view(keys@));
        assert(keys_view(keys@) =~= dk + opt_list(opt_key(self.archive_group)) + opt_list(opt_key(self.patch_archive_group)));
        let suffix = chars_of(".index");
        let mut out: Vec<String> = Vec::new();
        let mut j: usize = 0;
        assert(names.take(0) =~= Seq::<Seq<char>>::empty());
        while j < keys.len()
            invariant
                j <= keys@.len(),
                names == names_of(keys_view(keys@)),
                suffix@ == ".index"@,
                crate::client::tables::strings_view(out@) == first_names(names.take(j as int)),
            decreases keys@.len() - j,
        {
            let h = hex(&keys[j]);
            let mut cs = chars_of(h.as_str());
            let ghost h0 = cs@;
            let mut m: usize = 0;
            while m < suffix.len()
                invariant
                    m <= suffix@.len(),
                    cs@ == h0 + suffix@.take(m as int),
                decreases suffix@.len() - m,
            {
                cs.push(suffix[m]);
                m += 1;
                assert(cs@ =~= h0 + suffix@.take(m as int));
            }
            assert(suffix@.take(m as int) =~= suffix@);
            assert(names[j as int] == cs@);
            let ghost t = names.take(j + 1);
            assert(t.drop_last() =~= names.take(j as int));
            let mut seen = false;
            let mut q: usize = 0;
            while q < out.len()
                invariant
                    q <= out@.len(),
                    seen == (exists|x: int| 0 <= x < q && #[trigger] out@[x]@ == cs@),
                decreases out@.len() - q,
            {
                let other = chars_of(out[q].as_str());
                if chars_eq(other.as_slice(), cs.as_slice()) {
                    seen = true;
                }
                q += 1;
            }
            proof {
                let ov = crate::client::tables::strings_view(out@);
                lemma_first_names_members(names.take(j as int));
                if seen {
                    let x = choose|x: int| 0 <= x < q && #[trigger] out@[x]@ == cs@;
                    assert(ov[x] == cs@);
                    assert(ov.contains(cs@));
                } else {
                    assert(!ov.contains(cs@)) by {
                        if ov.contains(cs@) {
                            let x = choose|x: int| 0 <= x < ov.len() && ov[x] == cs@;
                            assert(out@[x]@ == cs@);
                        }
                    }
                }
            }
            if !seen {
                let s = string_of(cs.as_slice());
                let ghost before = out@;
                out.push(s);
                assert(crate::client::tables::strings_view(out@) =~= crate::client::tables::strings_view(before).push(cs@));
            }
            j += 1;
        }
        assert(names.take(j as int) =~= names);
        out
    }
}

/// A name occurs in the deduplicated list exactly when it occurs in the list.
proof fn lemma_first_names_members(list: Seq<Seq<char>>)
    ensures
        forall|x: Seq<char>| first_names(list).contains(x) <==> list.contains(x),
    decreases list.len(),
{
    if list.len() > 0 {
        let rest = list.drop_last();
        lemma_first_names_members(rest);
        assert forall|x: Seq<char>| first_names(list).contains(x) <==> list.contains(x) by {
            if list.contains(x) && x != list.last() {
                let i = choose|i: int| 0 <= i < list.len() && list[i] == x;
                assert(rest[i] == x);
            }
            if rest.contains(x) {
                let i = choose|i: int| 0 <= i < rest.len() && rest[i] == x;
                assert(list[i] == x);
            }
            if first_names(list).contains(x) && !rest.contains(list.last()) {
                let f = first_names(rest);
                let i = choose|i: int| 0 <= i < f.len() + 1 && f.push(list.last())[i] == x;
                if i < f.len() {
                    assert(f[i] == x);
                }
            }
            if !rest.contains(list.last()) && x == list.last() {
                assert(first_names(list)[first_names(rest).len() as int] == x);
            }
            if list.contains(x) && x == list.last() && rest.contains(x) {
                assert(first_names(rest).contains(x));
            }
            if first_names(rest).contains(x) && !rest.contains(list.last()) {
                let f = first_names(rest);
                let i = choose|i: int| 0 <= i < f.len() && f[i] == x;
                assert(f.push(list.last())[i] == x);
            }
        }
    }
}

/// Counts of a completed run that ensures the index set.
#[derive(Debug, Default, Clone, Copy, PartialEq, Eq)]
pub struct Report {
    pub archives: usize,
    pub patch_archives: usize,
    pub file_indices: usize,
    pub groups: usize,
    /// Files that were missing or invalid and have been written now.
    pub written: usize,
}

/// The text of a report.
pub open spec fn report_text(r: Report) -> Seq<char> {
    decimal(r.archives as nat) + " archive, "@ + decimal(r.patch_archives as nat) + " patch-archive, "@
        + decimal(r.file_indices as nat) + " file-index and "@ + decimal(r.groups as nat)
        + " group indices ("@ + decimal(r.written as nat) + " newly written)"@
}

fn push_str(out: &mut Vec<char>, s: &str)
    ensures
        final(out)@ == old(out)@ + s@,
{
    let cs = chars_of(s);
    let ghost start = out@;
    let mut i: usize = 0;
    while i < cs.len()
        invariant
            i <= cs@.len(),
            out@ == start + cs@.take(i as int),
        decreases cs@.len() - i,
    {
        out.push(cs[i]);
        i += 1;
        assert(out@ =~= start + cs@.take(i as int));
    }
    assert(cs@.take(i as int) =~= cs@);
}

impl Report {
    /// `N archive, N patch-archive, N file-index and N group indices (N newly written)`.
    pub fn text(&self) -> (r: String)
        ensures
            r@ == report_text(*self),
    {
        let mut out: Vec<char> = Vec::new();
        push_decimal(&mut out, self.archives as u64);
        push_str(&mut out, " archive, ");
        push_decimal(&mut out, self.patch_archives as u64);
        push_str(&mut out, " patch-archive, ");
        push_decimal(&mut out, self.file_indices as u64);
        push_str(&mut out, " file-index and ");
        push_decimal(&mut out, self.groups as u64);
        push_str(&mut out, " group indices (");
        push_decimal(&mut out, self.written as u64);
        push_str(&mut out, " newly written)");
        let r = string_of(out.as_slice());
        assert(r@ =~= report_text(*self));
        r
    }
}

} // verus!
