//! What to download for a selection: manifests + tags -> the set of `EKeys`
//! to store and the loose install files, with their sizes.
//!
//! The build's own manifests (ENCODING, install, download, ...) are stored
//! first, then the install-manifest files (loose game binaries) selected by
//! the tags, then every download-manifest entry selected by the same tags;
//! each key once, at its first place.

use vstd::prelude::*;
use std::collections::{HashMap, HashSet};
use crate::bytes::{be_value, lemma_be_value_bound, lemma_be_value_injective};
use crate::client::cli::{Selection, arch_tag, os_tag, spec_agent_tags};
use crate::client::config::{ConfigFile, VarModel, config_key, texts_view, var_names};
use crate::client::encoding::{CKeyModel, EKeyModel, Encoding, first_record, least_size};
use crate::client::fetch::{key_number, location_key};
use crate::client::index_set::values_of;
use crate::client::manifest::{
    DownloadManifest, DownloadModel, InstallEntry, InstallManifest, InstallModel, TagModel, install_view,
    download_view, tags_view,
};
use crate::client::tags::{TagQuery, any_entry_with_all, selected, spec_any_entry_with_all, spec_parse_agent, query_view};
use crate::client::util::{Key, human_size, spec_human_size};
use crate::text::{chars_eq, chars_of, decimal, parse_u64, parse_u64_spec, push_decimal, string_of, push_str};

verus! {

broadcast use vstd::std_specs::hash::group_hash_axioms;

/// Why a key is stored.
#[derive(Debug, Clone, Copy, PartialEq, Eq, Structural)]
pub enum Kind {
    Core,
    Install,
    Download,
}

/// A key to store.
#[derive(Debug, Clone, Copy, PartialEq, Eq)]
pub struct Needed {
    pub ekey: Key,
    /// Encoded size (0 if unknown).
    pub size: u64,
    pub kind: Kind,
}

/// The decoded manifests of the build.
pub struct Manifests {
    pub build_config: ConfigFile,
    pub cdn_config: ConfigFile,
    pub encoding: Encoding,
    pub install: InstallManifest,
    pub download: DownloadManifest,
}

/// What to store for a selection.
#[derive(Debug, Clone)]
pub struct Plan {
    /// Unique `EKeys`: core first, then install files, then download entries
    /// in manifest (priority) order.
    pub needed: Vec<Needed>,
    pub install_files: Vec<(InstallEntry, Key)>,
    pub download_selected: usize,
}

/// Why no plan is made.
#[derive(Debug, Clone, PartialEq, Eq)]
pub enum PlanError {
    /// The build ships no client for this platform and architecture.
    NoClient,
    /// A selected install file is not in ENCODING.
    NotInEncoding(String),
}

/// A needed key as plain values: `(EKey, size, kind)`.
pub type NeededModel = (Seq<u8>, u64, Kind);

/// The model of a needed key.
pub open spec fn needed_view(n: Needed) -> NeededModel {
    (n.ekey@, n.size, n.kind)
}

/// The models of needed keys.
pub open spec fn needed_views(v: Seq<Needed>) -> Seq<NeededModel> {
    v.map_values(|n: Needed| needed_view(n))
}

/// Some entry of `s` has key `k`.
pub open spec fn has_ekey(s: Seq<NeededModel>, k: Seq<u8>) -> bool {
    exists|j: int| 0 <= j < s.len() && #[trigger] s[j].0 == k
}

/// `s` without the entries whose key occurs earlier.
pub open spec fn first_by_ekey(s: Seq<NeededModel>) -> Seq<NeededModel>
    decreases s.len(),
{
    if s.len() == 0 {
        s
    } else if has_ekey(s.drop_last(), s.last().0) {
        first_by_ekey(s.drop_last())
    } else {
        first_by_ekey(s.drop_last()).push(s.last())
    }
}

/// The variable names that name stored manifests.
pub open spec fn core_names() -> Seq<Seq<char>> {
    seq!["encoding"@, "root"@, "install"@, "download"@, "size"@, "patch-index"@]
}

/// A build config variable whose file is stored: a core name, or `vfs-*`
/// but not `*-size`.
pub open spec fn is_core_name(n: Seq<char>) -> bool {
    core_names().contains(n) || (n.len() >= 4 && n.subrange(0, 4) == "vfs-"@ && !(n.len() >= 5
        && n.subrange(n.len() - 5, n.len() as int) == "-size"@))
}

/// The `EKey` of a stored manifest: its second key, or the ENCODING record
/// of its first key.
pub open spec fn core_ekey(vars: Seq<VarModel>, ckeys: Seq<CKeyModel>, name: Seq<char>) -> Option<Seq<u8>> {
    match config_key(vars, name, 1) {
        Some(k) => Some(k),
        None => match config_key(vars, name, 0) {
            Some(c) => match first_record(ckeys, c) {
                Some(r) => Some(r.1),
                None => None,
            },
            None => None,
        },
    }
}

/// The size of a stored manifest: the second value of `<name>-size` when it
/// is a number, else its ENCODING size, else 0.
pub open spec fn core_size(vars: Seq<VarModel>, ekeys: Seq<EKeyModel>, name: Seq<char>, ekey: Seq<u8>) -> u64 {
    let v = values_of(vars, name + "-size"@);
    match if v.len() > 1 { parse_u64_spec(v[1]) } else { None } {
        Some(n) => n,
        None => match least_size(ekeys, ekey) {
            Some(n) => n,
            None => 0,
        },
    }
}

/// The stored manifest a variable names, if any: `(name, EKey, size)`.
#[verifier::opaque]
pub open spec fn core_item(all: Seq<VarModel>, ckeys: Seq<CKeyModel>, ekeys: Seq<EKeyModel>, name: Seq<char>) -> Option<(Seq<char>, Seq<u8>, u64)> {
    if is_core_name(name) {
        match core_ekey(all, ckeys, name) {
            Some(e) => Some((name, e, core_size(all, ekeys, name, e))),
            None => None,
        }
    } else {
        None
    }
}

/// The stored manifests among the variables `vars[..n]`: `(name, EKey, size)`.
pub open spec fn spec_core_files(all: Seq<VarModel>, ckeys: Seq<CKeyModel>, ekeys: Seq<EKeyModel>, n: int) -> Seq<(Seq<char>, Seq<u8>, u64)>
    decreases n,
{
    if n <= 0 {
        Seq::empty()
    } else {
        let rest = spec_core_files(all, ckeys, ekeys, n - 1);
        match core_item(all, ckeys, ekeys, all[n - 1].0) {
            Some(x) => rest.push(x),
            None => rest,
        }
    }
}

fn is_core_name_exec(n: &[char]) -> (r: bool)
    ensures
        r == is_core_name(n@),
{
    let names = vec!["encoding", "root", "install", "download", "size", "patch-index"];
    let ghost nv = names@.map_values(|w: &str| w@);
    assert(nv =~= core_names());
    let mut i: usize = 0;
    let mut hit = false;
    while i < names.len()
        invariant
            i <= names@.len(),
            nv == names@.map_values(|w: &str| w@),
            nv == core_names(),
            hit == (exists|j: int| 0 <= j < i && #[trigger] nv[j] == n@),
        decreases names@.len() - i,
    {
        let w = chars_of(names[i]);
        assert(nv[i as int] == w@);
        if chars_eq(w.as_slice(), n) {
            hit = true;
        }
        i += 1;
    }
    if hit {
        return true;
    }
    let len = n.len();
    if len < 4 {
        return false;
    }
    let vfs = chars_of("vfs-");
    let size = chars_of("-size");
    let head = crate::text::slice_chars(n, 0, 4);
    if !chars_eq(head.as_slice(), vfs.as_slice()) {
        return false;
    }
    if len < 5 {
        return true;
    }
    let tail = crate::text::slice_chars(n, len - 5, len);
    !chars_eq(tail.as_slice(), size.as_slice())
}

/// The models of `(name, EKey, size)` triples.
pub open spec fn core_view(v: Seq<(String, Key, u64)>) -> Seq<(Seq<char>, Seq<u8>, u64)> {
    v.map_values(|t: (String, Key, u64)| (t.0@, t.1@, t.2))
}

/// The models of install entries.
pub open spec fn install_views(v: Seq<InstallEntry>) -> Seq<InstallModel> {
    v.map_values(|e: InstallEntry| install_view(e))
}

/// The models of download entries.
pub open spec fn download_views(v: Seq<crate::client::manifest::DownloadEntry>) -> Seq<DownloadModel> {
    v.map_values(|e: crate::client::manifest::DownloadEntry| download_view(e))
}

/// The models of install files with their keys.
pub open spec fn files_view(v: Seq<(InstallEntry, Key)>) -> Seq<(InstallModel, Seq<u8>)> {
    v.map_values(|f: (InstallEntry, Key)| (install_view(f.0), f.1@))
}

/// Core files as needed keys.
pub open spec fn core_cands(c: Seq<(Seq<char>, Seq<u8>, u64)>) -> Seq<NeededModel> {
    c.map_values(|c: (Seq<char>, Seq<u8>, u64)| (c.1, c.2, Kind::Core))
}

/// Install files as needed keys.
pub open spec fn file_cands(f: Seq<(InstallModel, Seq<u8>, u64)>) -> Seq<NeededModel> {
    f.map_values(|f: (InstallModel, Seq<u8>, u64)| (f.1, f.2, Kind::Install))
}

/// Install files with their keys.
pub open spec fn file_pairs(f: Seq<(InstallModel, Seq<u8>, u64)>) -> Seq<(InstallModel, Seq<u8>)> {
    f.map_values(|f: (InstallModel, Seq<u8>, u64)| (f.0, f.1))
}

/// Download entries as needed keys.
pub open spec fn dl_cands(d: Seq<DownloadModel>) -> Seq<NeededModel> {
    d.map_values(|d: DownloadModel| (d.0, d.1, Kind::Download))
}

/// The `EKey` and size of the stored manifest `name`, if it has an `EKey`.
fn core_entry(build_config: &ConfigFile, encoding: &Encoding, name: &str) -> (r: Option<(Key, u64)>)
    ensures
        match core_ekey(build_config.vars(), encoding.ckeys(), name@) {
            Some(e) => r matches Some((k, s)) && k@ == e && s == core_size(build_config.vars(), encoding.ekeys(), name@, e),
            None => r is None,
        },
{
    let ekey = match build_config.key(name, 1) {
        Some(k) => k,
        None => match build_config.key(name, 0) {
            Some(c) => match encoding.find(&c) {
                Some(e) => e.ekey,
                None => return None,
            },
            None => return None,
        },
    };
    let mut sn = chars_of(name);
    let suffix = chars_of("-size");
    let ghost s0 = sn@;
    let mut k: usize = 0;
    while k < suffix.len()
        invariant
            k <= suffix@.len(),
            sn@ == s0 + suffix@.take(k as int),
        decreases suffix@.len() - k,
    {
        sn.push(suffix[k]);
        k += 1;
        assert(sn@ =~= s0 + suffix@.take(k as int));
    }
    assert(suffix@.take(k as int) =~= suffix@);
    let size_name = string_of(sn.as_slice());
    let listed = match build_config.values(size_name.as_str()) {
        Some(v) => if v.len() > 1 {
            assert(v@.map_values(|s: String| s@)[1] == v@[1]@);
            parse_u64(chars_of(v[1].as_str()).as_slice())
        } else {
            None
        },
        None => None,
    };
    let size = match listed {
        Some(n) => n,
        None => match encoding.encoded_size(&ekey) {
            Some(n) => n,
            None => 0,
        },
    };
    Some((ekey, size))
}

fn core_item_exec(build_config: &ConfigFile, encoding: &Encoding, name: &str) -> (r: Option<(Key, u64)>)
    ensures
        match core_item(build_config.vars(), encoding.ckeys(), encoding.ekeys(), name@) {
            Some(x) => r matches Some((k, s)) && x == (name@, k@, s),
            None => r is None,
        },
{
    proof {
        reveal(core_item);
    }
    let nc = chars_of(name);
    if is_core_name_exec(nc.as_slice()) {
        core_entry(build_config, encoding, name)
    } else {
        None
    }
}

/// `EKeys` (and sizes) of the build's own manifests, in config order.
pub fn core_files(build_config: &ConfigFile, encoding: &Encoding) -> (r: Vec<(String, Key, u64)>)
    ensures
        core_view(r@) == spec_core_files(
            build_config.vars(),
            encoding.ckeys(),
            encoding.ekeys(),
            build_config.vars().len() as int,
        ),
{
    let names = build_config.names();
    let ghost vars = build_config.vars();
    assert(texts_view(names@).len() == names@.len());
    assert(var_names(vars).len() == vars.len());
    let mut out: Vec<(String, Key, u64)> = Vec::new();
    let mut i: usize = 0;
    assert(core_view(out@) =~= Seq::<(Seq<char>, Seq<u8>, u64)>::empty());
    while i < names.len()
        invariant
            i <= names@.len(),
            names@.len() == vars.len(),
            vars == build_config.vars(),
            texts_view(names@) == var_names(vars),
            core_view(out@) == spec_core_files(vars, encoding.ckeys(), encoding.ekeys(), i as int),
        decreases names@.len() - i,
    {
        let name = names[i];
        let nc = chars_of(name);
        assert(vars[i as int].0 == name@) by {
            assert(texts_view(names@)[i as int] == name@);
            assert(var_names(vars)[i as int] == vars[i as int].0);
        }
        match core_item_exec(build_config, encoding, name) {
            Some((e, size)) => {
                let ghost before = out@;
                let entry = (string_of(nc.as_slice()), e, size);
                out.push(entry);
                assert(core_view(out@) =~= core_view(before).push((name@, e@, size)));
            },
            None => {},
        }
        i += 1;
    }
    out
}

/// Rejects platform/architecture pairs the build does not ship (no
/// install-manifest entry carries both tags).
pub fn check_platform(install: &InstallManifest, selection: &Selection) -> (r: Result<(), PlanError>)
    ensures
        r is Ok <==> spec_any_entry_with_all(
            tags_view(install.tags@),
            install.entries@.len() as int,
            seq![os_tag(selection.os), arch_tag(selection.arch)],
        ),
        r is Err ==> r == Err::<(), PlanError>(PlanError::NoClient),
{
    let names = vec![selection.os.tag(), selection.arch.tag()];
    assert(names@.map_values(|n: &str| n@) =~= seq![os_tag(selection.os), arch_tag(selection.arch)]);
    if any_entry_with_all(install.tags.as_slice(), install.entries.len(), names.as_slice()) {
        Ok(())
    } else {
        Err(PlanError::NoClient)
    }
}

/// The entries of `s` whose index `keep` marks, in order.
pub open spec fn pick<T>(s: Seq<T>, keep: Seq<bool>) -> Seq<T>
    decreases s.len(),
{
    if s.len() == 0 {
        s
    } else if s.len() - 1 < keep.len() && keep[s.len() - 1] {
        pick(s.drop_last(), keep).push(s.last())
    } else {
        pick(s.drop_last(), keep)
    }
}

/// The size of the last download entry of `k`.
pub open spec fn last_dl_size(d: Seq<DownloadModel>, k: Seq<u8>) -> Option<u64>
    decreases d.len(),
{
    if d.len() == 0 {
        None
    } else if d.last().0 == k {
        Some(d.last().1)
    } else {
        last_dl_size(d.drop_last(), k)
    }
}

/// The size of an install file's key: from the download manifest, else
/// from ENCODING, else 0.
pub open spec fn install_size(dents: Seq<DownloadModel>, ekeys: Seq<EKeyModel>, k: Seq<u8>) -> u64 {
    match last_dl_size(dents, k) {
        Some(s) => s,
        None => match least_size(ekeys, k) {
            Some(s) => s,
            None => 0,
        },
    }
}

/// The selected install files with their keys, or the name of the first one
/// ENCODING does not list.
pub open spec fn install_pass(files: Seq<InstallModel>, ckeys: Seq<CKeyModel>, ekeys: Seq<EKeyModel>, dents: Seq<DownloadModel>) -> Result<Seq<(InstallModel, Seq<u8>, u64)>, Seq<char>>
    decreases files.len(),
{
    if files.len() == 0 {
        Ok(Seq::empty())
    } else {
        match install_pass(files.drop_last(), ckeys, ekeys, dents) {
            Err(n) => Err(n),
            Ok(acc) => match first_record(ckeys, files.last().1) {
                None => Err(files.last().0),
                Some(r) => Ok(acc.push((files.last(), r.1, install_size(dents, ekeys, r.1)))),
            },
        }
    }
}

/// The plan as plain values: `(needed, install files with keys, selected
/// download entries)`.
pub type PlanModel = (Seq<NeededModel>, Seq<(InstallModel, Seq<u8>)>, nat);

/// The model of a plan.
pub open spec fn plan_view(p: Plan) -> PlanModel {
    (
        needed_views(p.needed@),
        files_view(p.install_files@),
        p.download_selected as nat,
    )
}

/// The selection of a manifest's entries by a query.
pub open spec fn selection_of(tags: Seq<TagModel>, q: Seq<Seq<Seq<char>>>, n: int) -> Seq<bool> {
    Seq::new(n as nat, |i: int| selected(tags, q, i))
}

/// What [`build`] yields for the models of the manifests.
pub open spec fn spec_build(m: &Manifests, s: Selection) -> Result<PlanModel, Option<Seq<char>>> {
    let itags = tags_view(m.install.tags@);
    let ients = install_views(m.install.entries@);
    let dtags = tags_view(m.download.tags@);
    let dents = download_views(m.download.entries@);
    if !spec_any_entry_with_all(itags, ients.len() as int, seq![os_tag(s.os), arch_tag(s.arch)]) {
        Err(None)
    } else {
        let q = spec_parse_agent(spec_agent_tags(os_tag(s.os), arch_tag(s.arch), s.region@, s.speech@, s.text@));
        let isel = pick(ients, selection_of(itags, q, ients.len() as int));
        let dsel = pick(dents, selection_of(dtags, q, dents.len() as int));
        match install_pass(isel, m.encoding.ckeys(), m.encoding.ekeys(), dents) {
            Err(name) => Err(Some(name)),
            Ok(files) => {
                let core = spec_core_files(m.build_config.vars(), m.encoding.ckeys(), m.encoding.ekeys(), m.build_config.vars().len() as int);
                let cands = core_cands(core) + file_cands(files) + dl_cands(dsel);
                Ok((first_by_ekey(cands), file_pairs(files), dsel.len()))
            },
        }
    }
}

/// The dedup state: `needed` is `cands` without repeated keys, `seen` holds
/// the numbers of their keys.
pub open spec fn dedup_state(seen: Set<u128>, needed: Seq<Needed>, cands: Seq<NeededModel>) -> bool {
    &&& needed_views(needed) == first_by_ekey(cands)
    &&& forall|k: Seq<u8>| #[trigger] has_ekey(needed_views(needed), k) == has_ekey(cands, k)
    &&& forall|x: u128| #[trigger] seen.contains(x) <==> exists|j: int| 0 <= j < needed.len() && key_number(#[trigger] needed[j].ekey@) == x
}

pub(crate) proof fn lemma_key_number_injective(a: Seq<u8>, b: Seq<u8>)
    requires
        a.len() == 16,
        b.len() == 16,
        key_number(a) == key_number(b),
    ensures
        a == b,
{
    lemma_be_value_bound(a);
    lemma_be_value_bound(b);
    reveal_with_fuel(crate::bytes::byte_bound, 17);
    lemma_be_value_injective(a, b);
}

fn push_needed(seen: &mut HashSet<u128>, needed: &mut Vec<Needed>, n: Needed, Ghost(cands): Ghost<Seq<NeededModel>>)
    requires
        dedup_state(old(seen)@, old(needed)@, cands),
    ensures
        dedup_state(final(seen)@, final(needed)@, cands.push(needed_view(n))),
{
    let num = location_key(&n.ekey);
    let ghost before = needed@;
    let ghost seen0 = seen@;
    let fresh = seen.insert(num);
    let ghost c2 = cands.push(needed_view(n));
    assert(c2.drop_last() =~= cands);
    if fresh {
        needed.push(n);
        proof {
            assert(!has_ekey(cands, n.ekey@)) by {
                if has_ekey(cands, n.ekey@) {
                    assert(has_ekey(needed_views(before), n.ekey@));
                    let j = choose|j: int| 0 <= j < needed_views(before).len() && #[trigger] needed_views(before)[j].0 == n.ekey@;
                    assert(needed_views(before)[j].0 == before[j].ekey@);
                    assert(seen0.contains(key_number(before[j].ekey@)));
                }
            }
            assert(needed_views(needed@) =~= needed_views(before).push(needed_view(n)));
            assert forall|k: Seq<u8>| #[trigger] has_ekey(needed_views(needed@), k) == has_ekey(c2, k) by {
                let nv = needed_views(needed@);
                if has_ekey(nv, k) {
                    let j = choose|j: int| 0 <= j < nv.len() && #[trigger] nv[j].0 == k;
                    if j < before.len() {
                        assert(needed_views(before)[j] == nv[j]);
                        assert(has_ekey(needed_views(before), k));
                        assert(has_ekey(cands, k));
                        let q = choose|q: int| 0 <= q < cands.len() && #[trigger] cands[q].0 == k;
                        assert(c2[q].0 == k);
                    } else {
                        assert(c2[cands.len() as int].0 == k);
                    }
                }
                if has_ekey(c2, k) {
                    let q = choose|q: int| 0 <= q < c2.len() && #[trigger] c2[q].0 == k;
                    if q < cands.len() {
                        assert(cands[q].0 == k);
                        assert(has_ekey(cands, k));
                        assert(has_ekey(needed_views(before), k));
                        let j = choose|j: int| 0 <= j < needed_views(before).len() && #[trigger] needed_views(before)[j].0 == k;
                        assert(nv[j].0 == k);
                    } else {
                        assert(nv[before.len() as int].0 == k);
                    }
                }
            }
            assert forall|x: u128| #[trigger] seen@.contains(x) <==> exists|j: int| 0 <= j < needed@.len() && key_number(#[trigger] needed@[j].ekey@) == x by {
                if seen@.contains(x) && x != num {
                    assert(seen0.contains(x));
                    let j = choose|j: int| 0 <= j < before.len() && key_number(#[trigger] before[j].ekey@) == x;
                    assert(needed@[j] == before[j]);
                }
                if x == num {
                    assert(needed@[before.len() as int] == n);
                }
                if exists|j: int| 0 <= j < needed@.len() && key_number(#[trigger] needed@[j].ekey@) == x {
                    let j = choose|j: int| 0 <= j < needed@.len() && key_number(#[trigger] needed@[j].ekey@) == x;
                    if j < before.len() {
                        assert(needed@[j] == before[j]);
                        assert(seen0.contains(x));
                    }
                }
            }
        }
    } else {
        proof {
            assert(seen0.contains(num));
            let j = choose|j: int| 0 <= j < before.len() && key_number(#[trigger] before[j].ekey@) == num;
            lemma_key_number_injective(before[j].ekey@, n.ekey@);
            assert(needed_views(before)[j].0 == n.ekey@);
            assert(has_ekey(needed_views(before), n.ekey@));
            assert(has_ekey(cands, n.ekey@));
            assert(seen@ =~= seen0);
            assert forall|k: Seq<u8>| #[trigger] has_ekey(needed_views(needed@), k) == has_ekey(c2, k) by {
                if has_ekey(c2, k) {
                    let q = choose|q: int| 0 <= q < c2.len() && #[trigger] c2[q].0 == k;
                    if q < cands.len() {
                        assert(cands[q].0 == k);
                        assert(has_ekey(cands, k));
                    }
                }
                if has_ekey(cands, k) {
                    let q = choose|q: int| 0 <= q < cands.len() && #[trigger] cands[q].0 == k;
                    assert(c2[q].0 == k);
                }
            }
        }
    }
}

/// The plan for a selection: the platform must be shipped, every selected
/// install file must be in ENCODING.
#[verifier::loop_isolation(false)]
pub fn build(m: &Manifests, selection: &Selection) -> (r: Result<Plan, PlanError>)
    ensures
        match (r, spec_build(m, *selection)) {
            (Ok(p), Ok(pm)) => plan_view(p) == pm,
            (Err(PlanError::NoClient), Err(None)) => true,
            (Err(PlanError::NotInEncoding(n)), Err(Some(sn))) => n@ == sn,
            _ => false,
        },
{
    match check_platform(&m.install, selection) {
        Ok(()) => {},
        Err(e) => return Err(e),
    }
    let query = TagQuery::parse_agent(selection.agent_tags().as_str());
    let ghost q = query_view(query);
    let ghost ients = install_views(m.install.entries@);
    let ghost dents = download_views(m.download.entries@);
    let mut seen: HashSet<u128> = HashSet::new();
    let mut needed: Vec<Needed> = Vec::new();
    let ghost mut cands: Seq<NeededModel> = Seq::empty();
    assert(needed_views(needed@) =~= Seq::<NeededModel>::empty());
    assert(seen@ =~= Set::<u128>::empty());
    let core = core_files(&m.build_config, &m.encoding);
    let ghost cv = core_view(core@);
    let mut i: usize = 0;
    while i < core.len()
        invariant
            i <= core@.len(),
            cv == core_view(core@),
            cands == core_cands(cv.take(i as int)),
            dedup_state(seen@, needed@, cands),
        decreases core@.len() - i,
    {
        let n = Needed { ekey: core[i].1, size: core[i].2, kind: Kind::Core };
        push_needed(&mut seen, &mut needed, n, Ghost(cands));
        proof {
            assert(cv[i as int] == (core@[i as int].0@, core@[i as int].1@, core@[i as int].2));
            assert(core_cands(cv.take(i + 1)) =~= cands.push(needed_view(n)));
            cands = cands.push(needed_view(n));
        }
        i += 1;
    }
    assert(cv.take(i as int) =~= cv);
    let dl_selected = query.select(m.download.tags.as_slice(), m.download.entries.len());
    let mut dl_sizes: HashMap<u128, u64> = HashMap::new();
    let mut i: usize = 0;
    while i < m.download.entries.len()
        invariant
            i <= m.download.entries@.len(),
            dents == download_views(m.download.entries@),
            forall|k: Seq<u8>| k.len() == 16 ==> match #[trigger] last_dl_size(dents.take(i as int), k) {
                Some(s) => dl_sizes@.contains_key(key_number(k)) && dl_sizes@[key_number(k)] == s,
                None => !dl_sizes@.contains_key(key_number(k)),
            },
        decreases m.download.entries@.len() - i,
    {
        let e = m.download.entries[i];
        let num = location_key(&e.ekey);
        let ghost old_map = dl_sizes@;
        dl_sizes.insert(num, e.size);
        proof {
            assert forall|k: Seq<u8>| k.len() == 16 implies match #[trigger] last_dl_size(dents.take(i + 1), k) {
                Some(s) => dl_sizes@.contains_key(key_number(k)) && dl_sizes@[key_number(k)] == s,
                None => !dl_sizes@.contains_key(key_number(k)),
            } by {
                let t = dents.take(i + 1);
                assert(t.drop_last() =~= dents.take(i as int));
                assert(t.last() == download_view(e));
                assert(last_dl_size(t, k) == if t.last().0 == k { Some(t.last().1) } else { last_dl_size(dents.take(i as int), k) });
                if k != e.ekey@ && key_number(k) == num {
                    lemma_key_number_injective(k, e.ekey@);
                }
                if k != e.ekey@ {
                    assert(key_number(k) != num);
                    assert(dl_sizes@.contains_key(key_number(k)) == old_map.contains_key(key_number(k)));
                }
            }
        }
        i += 1;
    }
    assert(dents.take(i as int) =~= dents);
    let in_selected = query.select(m.install.tags.as_slice(), m.install.entries.len());
    let mut install_files: Vec<(InstallEntry, Key)> = Vec::new();
    let ghost mut files: Seq<(InstallModel, Seq<u8>, u64)> = Seq::empty();
    let ghost isel_all = selection_of(tags_view(m.install.tags@), q, ients.len() as int);
    assert(in_selected@ =~= isel_all);
    let mut i: usize = 0;
    let ghost icands0 = cands;
    while i < m.install.entries.len()
        invariant
            i <= m.install.entries@.len(),
            ients == install_views(m.install.entries@),
            in_selected@ == isel_all,
            isel_all.len() == ients.len(),
            install_pass(pick(ients.take(i as int), isel_all), m.encoding.ckeys(), m.encoding.ekeys(), dents) == Ok::<Seq<(InstallModel, Seq<u8>, u64)>, Seq<char>>(files),
            files_view(install_files@) == file_pairs(files),
            cands == icands0 + file_cands(files),
            dedup_state(seen@, needed@, cands),
            forall|k: Seq<u8>| k.len() == 16 ==> match #[trigger] last_dl_size(dents, k) {
                Some(s) => dl_sizes@.contains_key(key_number(k)) && dl_sizes@[key_number(k)] == s,
                None => !dl_sizes@.contains_key(key_number(k)),
            },
        decreases m.install.entries@.len() - i,
    {
        let ghost t = ients.take(i + 1);
        assert(t.drop_last() =~= ients.take(i as int));
        assert(t.last() == install_view(m.install.entries@[i as int]));
        if !in_selected[i] {
            assert(pick(t, isel_all) == pick(ients.take(i as int), isel_all));
        }
        if in_selected[i] {
            let entry = &m.install.entries[i];
            assert(pick(t, isel_all) == pick(ients.take(i as int), isel_all).push(t.last()));
            assert(pick(t, isel_all).drop_last() =~= pick(ients.take(i as int), isel_all));
            let enc = match m.encoding.find(&entry.ckey) {
                Some(e) => e,
                None => {
                    proof {
                        let pk = pick(t, isel_all);
                        assert(pk == pick(ients.take(i as int), isel_all).push(t.last()));
                        assert(pk.drop_last() =~= pick(ients.take(i as int), isel_all));
                        assert(install_pass(pk, m.encoding.ckeys(), m.encoding.ekeys(), dents) == Err::<Seq<(InstallModel, Seq<u8>, u64)>, Seq<char>>(entry.name@));
                        lemma_install_pass_err(ients, isel_all, m.encoding.ckeys(), m.encoding.ekeys(), dents, i as int + 1);
                    }
                    return Err(PlanError::NotInEncoding(entry.name.clone()));
                },
            };
            let ek = enc.ekey;
            let size = match dl_sizes.get(&location_key(&ek)) {
                Some(s) => *s,
                None => match m.encoding.encoded_size(&ek) {
                    Some(s) => s,
                    None => 0,
                },
            };
            assert(size == install_size(dents, m.encoding.ekeys(), ek@));
            let n = Needed { ekey: ek, size, kind: Kind::Install };
            push_needed(&mut seen, &mut needed, n, Ghost(cands));
            let copy = InstallEntry { name: entry.name.clone(), ckey: entry.ckey, size: entry.size };
            let ghost fb = install_files@;
            install_files.push((copy, ek));
            proof {
                let f = (install_view(*entry), ek@, size);
                assert(install_view(copy) == install_view(*entry));
                assert(files_view(install_files@) =~= files_view(fb).push((f.0, f.1)));
                assert(file_pairs(files.push(f)) =~= file_pairs(files).push((f.0, f.1)));
                assert(icands0 + file_cands(files.push(f)) =~= cands.push(needed_view(n)));
                cands = cands.push(needed_view(n));
                files = files.push(f);
            }
        }
        i += 1;
    }
    assert(ients.take(i as int) =~= ients);
    let mut download_selected: usize = 0;
    let ghost dsel_all = selection_of(tags_view(m.download.tags@), q, dents.len() as int);
    assert(dl_selected@ =~= dsel_all);
    let ghost dcands0 = cands;
    let mut i: usize = 0;
    while i < m.download.entries.len()
        invariant
            i <= m.download.entries@.len(),
            dents == download_views(m.download.entries@),
            dl_selected@ == dsel_all,
            dsel_all.len() == dents.len(),
            download_selected == pick(dents.take(i as int), dsel_all).len(),
            download_selected <= i,
            cands == dcands0 + dl_cands(pick(dents.take(i as int), dsel_all)),
            dedup_state(seen@, needed@, cands),
        decreases m.download.entries@.len() - i,
    {
        let ghost t = dents.take(i + 1);
        assert(t.drop_last() =~= dents.take(i as int));
        assert(t.last() == download_view(m.download.entries@[i as int]));
        if !dl_selected[i] {
            assert(pick(t, dsel_all) == pick(dents.take(i as int), dsel_all));
        }
        proof {
            lemma_pick_len(t, dsel_all);
        }
        if dl_selected[i] {
            let e = m.download.entries[i];
            let n = Needed { ekey: e.ekey, size: e.size, kind: Kind::Download };
            push_needed(&mut seen, &mut needed, n, Ghost(cands));
            proof {
                assert(pick(t, dsel_all) == pick(dents.take(i as int), dsel_all).push(download_view(e)));
                assert(dcands0 + dl_cands(pick(t, dsel_all)) =~= cands.push(needed_view(n)));
                cands = cands.push(needed_view(n));
            }
            download_selected = download_selected + 1;
        }
        i += 1;
    }
    assert(dents.take(i as int) =~= dents);
    Ok(Plan { needed, install_files, download_selected })
}

proof fn lemma_pick_len<T>(s: Seq<T>, keep: Seq<bool>)
    ensures
        pick(s, keep).len() <= s.len(),
    decreases s.len(),
{
    if s.len() > 0 {
        lemma_pick_len(s.drop_last(), keep);
    }
}

proof fn lemma_install_pass_err(
    files: Seq<InstallModel>,
    sel: Seq<bool>,
    ckeys: Seq<CKeyModel>,
    ekeys: Seq<EKeyModel>,
    dents: Seq<DownloadModel>,
    n: int,
)
    requires
        0 <= n <= files.len(),
        install_pass(pick(files.take(n), sel), ckeys, ekeys, dents) is Err,
    ensures
        install_pass(pick(files, sel), ckeys, ekeys, dents) == install_pass(pick(files.take(n), sel), ckeys, ekeys, dents),
    decreases files.len() - n,
{
    if n < files.len() {
        let s = files.take(n + 1);
        assert(s.drop_last() =~= files.take(n));
        if n < sel.len() && sel[n] {
            assert(pick(s, sel) == pick(files.take(n), sel).push(s.last()));
            assert(pick(s, sel).drop_last() =~= pick(files.take(n), sel));
        } else {
            assert(pick(s, sel) == pick(files.take(n), sel));
        }
        lemma_install_pass_err(files, sel, ckeys, ekeys, dents, n + 1);
    } else {
        assert(files.take(n) =~= files);
    }
}

/// Total size of the needed keys of a kind (all kinds when `kind` is `None`).
pub open spec fn size_of(s: Seq<NeededModel>, kind: Option<Kind>) -> nat
    decreases s.len(),
{
    if s.len() == 0 {
        0
    } else {
        size_of(s.drop_last(), kind) + if kind is None || kind == Some(s.last().2) { s.last().1 as nat } else { 0 }
    }
}

/// Number of needed keys of a kind.
pub open spec fn count_of(s: Seq<NeededModel>, kind: Kind) -> nat
    decreases s.len(),
{
    if s.len() == 0 {
        0
    } else {
        count_of(s.drop_last(), kind) + if s.last().2 == kind { 1nat } else { 0 }
    }
}

/// Total decoded size of the install files.
pub open spec fn install_bytes(f: Seq<(InstallModel, Seq<u8>)>) -> nat
    decreases f.len(),
{
    if f.len() == 0 {
        0
    } else {
        install_bytes(f.drop_last()) + f.last().0.2 as nat
    }
}

proof fn lemma_size_of_le(s: Seq<NeededModel>, kind: Kind)
    ensures
        size_of(s, Some(kind)) <= size_of(s, None),
        count_of(s, kind) <= s.len(),
    decreases s.len(),
{
    if s.len() > 0 {
        lemma_size_of_le(s.drop_last(), kind);
    }
}

fn sum_kind(needed: &Vec<Needed>, kind: Option<Kind>) -> (r: (u64, usize))
    requires
        size_of(needed_views(needed@), None) <= u64::MAX,
    ensures
        r.0 == size_of(needed_views(needed@), kind),
        kind matches Some(k) ==> r.1 == count_of(needed_views(needed@), k),
{
    let ghost nv = needed_views(needed@);
    let mut total: u64 = 0;
    let mut count: usize = 0;
    let mut i: usize = 0;
    while i < needed.len()
        invariant
            i <= needed@.len(),
            nv == needed_views(needed@),
            size_of(nv, None) <= u64::MAX,
            total == size_of(nv.take(i as int), kind),
            kind matches Some(k) ==> count == count_of(nv.take(i as int), k),
            count <= i,
        decreases needed@.len() - i,
    {
        let n = needed[i];
        let ghost t = nv.take(i + 1);
        assert(t.drop_last() =~= nv.take(i as int));
        assert(t.last() == needed_view(n));
        proof {
            lemma_size_prefix(nv, i + 1, kind);
        }
        let hit = match kind {
            Some(k) => n.kind == k,
            None => true,
        };
        if hit {
            total = total + n.size;
            count = count + 1;
        }
        i += 1;
    }
    assert(nv.take(i as int) =~= nv);
    (total, count)
}

proof fn lemma_size_prefix(s: Seq<NeededModel>, n: int, kind: Option<Kind>)
    requires
        0 <= n <= s.len(),
    ensures
        size_of(s.take(n), kind) <= size_of(s, None),
    decreases s.len() - n,
{
    if n < s.len() {
        lemma_size_prefix(s, n + 1, kind);
        assert(s.take(n + 1).drop_last() =~= s.take(n));
        lemma_kind_le_all(s.take(n + 1), kind);
        lemma_kind_le_all(s.take(n), kind);
        lemma_all_prefix(s.take(n + 1));
    } else {
        assert(s.take(n) =~= s);
        lemma_kind_le_all(s, kind);
    }
}

proof fn lemma_kind_le_all(s: Seq<NeededModel>, kind: Option<Kind>)
    ensures
        size_of(s, kind) <= size_of(s, None),
    decreases s.len(),
{
    if s.len() > 0 {
        lemma_kind_le_all(s.drop_last(), kind);
    }
}

proof fn lemma_all_prefix(s: Seq<NeededModel>)
    ensures
        s.len() > 0 ==> size_of(s.drop_last(), None) <= size_of(s, None),
{
}

impl Plan {
    /// Total encoded size of the needed keys.
    pub fn total_bytes(&self) -> (r: u64)
        requires
            size_of(needed_views(self.needed@), None) <= u64::MAX,
        ensures
            r == size_of(needed_views(self.needed@), None),
    {
        sum_kind(&self.needed, None).0
    }

    /// One-line description of the plan.
    pub fn summary(&self) -> (r: String)
        requires
            size_of(needed_views(self.needed@), None) <= u64::MAX,
            install_bytes(files_view(self.install_files@)) <= u64::MAX,
        ensures
            r@ == spec_summary(plan_view(*self)),
    {
        let ghost nv = needed_views(self.needed@);
        let total = sum_kind(&self.needed, None).0;
        let (core_bytes, core_count) = sum_kind(&self.needed, Some(Kind::Core));
        let (inst_bytes, inst_count) = sum_kind(&self.needed, Some(Kind::Install));
        let ghost fv = files_view(self.install_files@);
        let mut loose: u64 = 0;
        let mut i: usize = 0;
        while i < self.install_files.len()
            invariant
                i <= self.install_files@.len(),
                fv == files_view(self.install_files@),
                install_bytes(fv) <= u64::MAX,
                loose == install_bytes(fv.take(i as int)),
            decreases self.install_files@.len() - i,
        {
            let ghost t = fv.take(i + 1);
            assert(t.drop_last() =~= fv.take(i as int));
            assert(t.last().0.2 == self.install_files@[i as int].0.size);
            proof {
                lemma_install_prefix(fv, i + 1);
            }
            loose = loose + self.install_files[i].0.size as u64;
            i += 1;
        }
        assert(fv.take(i as int) =~= fv);
        let mut out: Vec<char> = Vec::new();
        push_decimal(&mut out, self.needed.len() as u64);
        push_str(&mut out, " files, ");
        push_str(&mut out, human_size(total).as_str());
        push_str(&mut out, " to download (");
        push_decimal(&mut out, self.download_selected as u64);
        push_str(&mut out, " download-manifest entries selected, ");
        push_decimal(&mut out, core_count as u64);
        push_str(&mut out, " build manifests ");
        push_str(&mut out, human_size(core_bytes).as_str());
        push_str(&mut out, ", ");
        push_decimal(&mut out, inst_count as u64);
        push_str(&mut out, " extra install blobs ");
        push_str(&mut out, human_size(inst_bytes).as_str());
        push_str(&mut out, "); ");
        push_decimal(&mut out, self.install_files.len() as u64);
        push_str(&mut out, " loose install files (");
        push_str(&mut out, human_size(loose).as_str());
        push_str(&mut out, " decoded)");
        let r = string_of(out.as_slice());
        assert(r@ =~= spec_summary(plan_view(*self)));
        r
    }
}

proof fn lemma_install_prefix(f: Seq<(InstallModel, Seq<u8>)>, n: int)
    requires
        0 <= n <= f.len(),
    ensures
        install_bytes(f.take(n)) <= install_bytes(f),
    decreases f.len() - n,
{
    if n < f.len() {
        lemma_install_prefix(f, n + 1);
        assert(f.take(n + 1).drop_last() =~= f.take(n));
    } else {
        assert(f.take(n) =~= f);
    }
}


/// The one-line description of a plan.
pub open spec fn spec_summary(p: PlanModel) -> Seq<char> {
    let n = p.0;
    decimal(n.len()) + " files, "@ + spec_human_size(size_of(n, None) as u64) + " to download ("@
        + decimal(p.2) + " download-manifest entries selected, "@ + decimal(count_of(n, Kind::Core))
        + " build manifests "@ + spec_human_size(size_of(n, Some(Kind::Core)) as u64) + ", "@
        + decimal(count_of(n, Kind::Install)) + " extra install blobs "@ + spec_human_size(
        size_of(n, Some(Kind::Install)) as u64,
    ) + "); "@ + decimal(p.1.len()) + " loose install files ("@ + spec_human_size(
        install_bytes(p.1) as u64,
    ) + " decoded)"@
}


/// The command-line name of a platform.
pub open spec fn os_name(os: crate::client::cli::Os) -> Seq<char> {
    match os {
        crate::client::cli::Os::Windows => "windows"@,
        crate::client::cli::Os::MacOs => "macos"@,
    }
}

/// The command-line name of an architecture.
pub open spec fn arch_name(arch: crate::client::cli::Arch) -> Seq<char> {
    match arch {
        crate::client::cli::Arch::X86_64 => "x86_64"@,
        crate::client::cli::Arch::Arm64 => "arm64"@,
    }
}

/// The message of a plan error met with `selection`: the platform the build
/// does not ship (with the universal-binary hint for macOS), or the install
/// file missing from ENCODING.
pub open spec fn plan_error_text(e: PlanError, selection: Selection) -> Seq<char> {
    match e {
        PlanError::NoClient => "build "@ + crate::client::product::VERSIONS_NAME@ + " ships no "@ + os_name(
            selection.os,
        ) + seq![' '] + arch_name(selection.arch) + " client"@ + if selection.os == crate::client::cli::Os::MacOs {
            " (the macOS client is a universal binary: use --arch x86_64, it runs natively on Apple Silicon)"@
        } else {
            Seq::empty()
        },
        PlanError::NotInEncoding(name) => "install file "@ + name@ + " is not in ENCODING"@,
    }
}

impl PlanError {
    /// The message of the error, for the selection it was met with.
    pub fn message(&self, selection: &Selection) -> (r: String)
        ensures
            r@ == plan_error_text(*self, *selection),
    {
        let mut out: Vec<char> = Vec::new();
        match self {
            PlanError::NoClient => {
                push_str(&mut out, "build ");
                push_str(&mut out, crate::client::product::VERSIONS_NAME);
                push_str(&mut out, " ships no ");
                push_str(&mut out, selection.os.name());
                out.push(' ');
                push_str(&mut out, selection.arch.name());
                push_str(&mut out, " client");
                match selection.os {
                    crate::client::cli::Os::MacOs => push_str(
                        &mut out,
                        " (the macOS client is a universal binary: use --arch x86_64, it runs natively on Apple Silicon)",
                    ),
                    crate::client::cli::Os::Windows => {},
                }
            },
            PlanError::NotInEncoding(name) => {
                push_str(&mut out, "install file ");
                push_str(&mut out, name.as_str());
                push_str(&mut out, " is not in ENCODING");
            },
        }
        let r = string_of(out.as_slice());
        assert(r@ =~= plan_error_text(*self, *selection));
        r
    }
}

/// Why the `EKey` of a build manifest is unknown.
#[derive(Debug, Clone, Copy, PartialEq, Eq, Structural)]
pub enum ManifestKeyError {
    /// The build config has no key for it.
    Missing,
    /// Its content key has no ENCODING record.
    NotInEncoding,
}

/// The `EKey` of the build manifest `name`: its second key in the build
/// config, else the ENCODING record of its first key.
pub open spec fn spec_manifest_ekey(vars: Seq<VarModel>, ckeys: Seq<CKeyModel>, name: Seq<char>) -> Result<
    Seq<u8>,
    ManifestKeyError,
> {
    match config_key(vars, name, 1) {
        Some(k) => Ok(k),
        None => match config_key(vars, name, 0) {
            None => Err(ManifestKeyError::Missing),
            Some(c) => match first_record(ckeys, c) {
                Some(r) => Ok(r.1),
                None => Err(ManifestKeyError::NotInEncoding),
            },
        },
    }
}

/// The `EKey` of the build manifest `name` (see [`spec_manifest_ekey`]).
pub fn manifest_ekey(build_config: &ConfigFile, encoding: &Encoding, name: &str) -> (r: Result<Key, ManifestKeyError>)
    ensures
        match (r, spec_manifest_ekey(build_config.vars(), encoding.ckeys(), name@)) {
            (Ok(k), Ok(s)) => k@ == s,
            (Err(e), Err(s)) => e == s,
            _ => false,
        },
{
    match build_config.key(name, 1) {
        Some(k) => Ok(k),
        None => match build_config.key(name, 0) {
            None => Err(ManifestKeyError::Missing),
            Some(c) => match encoding.find(&c) {
                Some(e) => Ok(e.ekey),
                None => Err(ManifestKeyError::NotInEncoding),
            },
        },
    }
}

/// The keys of `needed` of one side (the build's own manifests when `core`,
/// everything else otherwise) that are not stored yet, by key number.
pub open spec fn spec_pending(needed: Seq<Needed>, core: bool, stored: Set<u128>) -> Seq<Needed> {
    needed.filter(|n: Needed| (n.kind == Kind::Core) == core && !stored.contains(key_number(n.ekey@)))
}

/// The needed keys of one side still to fetch (see [`spec_pending`]).
pub fn pending(needed: &Vec<Needed>, core: bool, stored: &HashSet<u128>) -> (r: Vec<Needed>)
    ensures
        r@ == spec_pending(needed@, core, stored@),
{
    let ghost f = |n: Needed| (n.kind == Kind::Core) == core && !stored@.contains(key_number(n.ekey@));
    let mut out: Vec<Needed> = Vec::new();
    let mut i: usize = 0;
    while i < needed.len()
        invariant
            i <= needed@.len(),
            f == (|n: Needed| (n.kind == Kind::Core) == core && !stored@.contains(key_number(n.ekey@))),
            out@ == needed@.take(i as int).filter(f),
        decreases needed@.len() - i,
    {
        let n = needed[i];
        let is_core = match n.kind {
            Kind::Core => true,
            _ => false,
        };
        let num = location_key(&n.ekey);
        assert(needed@.take(i + 1).drop_last() =~= needed@.take(i as int));
        if is_core == core && !stored.contains(&num) {
            out.push(n);
        }
        i += 1;
        proof {
            reveal(Seq::filter);
        }
    }
    assert(needed@.take(i as int) =~= needed@);
    out
}

/// The key to store for a content key found in ROOT: its ENCODING `EKey`
/// with its encoded size (0 when unknown), fetched with the download files;
/// `None` when ENCODING has no record of it.
pub open spec fn spec_content_needed(ckeys: Seq<CKeyModel>, ekeys: Seq<EKeyModel>, ckey: Seq<u8>) -> Option<
    NeededModel,
> {
    match first_record(ckeys, ckey) {
        Some(r) => Some(
            (
                r.1,
                match least_size(ekeys, r.1) {
                    Some(s) => s,
                    None => 0,
                },
                Kind::Download,
            ),
        ),
        None => None,
    }
}

/// The key to store for a content key found in ROOT (see
/// [`spec_content_needed`]).
pub fn content_needed(encoding: &Encoding, ckey: &Key) -> (r: Option<Needed>)
    ensures
        match spec_content_needed(encoding.ckeys(), encoding.ekeys(), ckey@) {
            Some(m) => r matches Some(n) && needed_view(n) == m,
            None => r is None,
        },
{
    match encoding.find(ckey) {
        Some(e) => {
            let size = match encoding.encoded_size(&e.ekey) {
                Some(s) => s,
                None => 0,
            };
            Some(Needed { ekey: e.ekey, size, kind: Kind::Download })
        },
        None => None,
    }
}

/// Each key once, at its first place: [`first_by_ekey`] keeps no key
/// twice, keeps every key of `s`, and keeps of each key the first entry of
/// `s` with it, in the order of `s`.
pub proof fn lemma_first_by_ekey(s: Seq<NeededModel>)
    ensures
        ({
            let f = first_by_ekey(s);
            &&& forall|a: int, b: int| 0 <= a < b < f.len() ==> (#[trigger] f[a]).0 != (#[trigger] f[b]).0
            &&& forall|k: Seq<u8>| #[trigger] has_ekey(f, k) == has_ekey(s, k)
            &&& forall|a: int| 0 <= a < f.len() ==> exists|i: int|
                0 <= i < s.len() && s[i] == #[trigger] f[a] && forall|j: int| 0 <= j < i ==> s[j].0 != f[a].0
        }),
    decreases s.len(),
{
    if s.len() > 0 {
        let p = s.drop_last();
        lemma_first_by_ekey(p);
        let fp = first_by_ekey(p);
        let f = first_by_ekey(s);
        let x = s.last();
        assert(x == s[s.len() - 1]);
        assert forall|k: Seq<u8>| #[trigger] has_ekey(p, k) ==> has_ekey(s, k) by {
            if has_ekey(p, k) {
                let j = choose|j: int| 0 <= j < p.len() && #[trigger] p[j].0 == k;
                assert(s[j] == p[j]);
            }
        }
        assert forall|k: Seq<u8>| #[trigger] has_ekey(s, k) ==> has_ekey(p, k) || x.0 == k by {
            if has_ekey(s, k) {
                let j = choose|j: int| 0 <= j < s.len() && #[trigger] s[j].0 == k;
                if j < p.len() {
                    assert(p[j] == s[j]);
                }
            }
        }
        assert forall|a: int| 0 <= a < fp.len() implies exists|i: int|
            0 <= i < s.len() && s[i] == #[trigger] fp[a] && forall|j: int| 0 <= j < i ==> s[j].0 != fp[a].0 by {
            let i = choose|i: int| 0 <= i < p.len() && p[i] == #[trigger] fp[a] && forall|j: int| 0 <= j < i ==> p[j].0 != fp[a].0;
            assert(s[i] == p[i]);
            assert forall|j: int| 0 <= j < i implies s[j].0 != fp[a].0 by {
                assert(s[j] == p[j]);
            }
        }
        if !has_ekey(p, x.0) {
            assert(f == fp.push(x));
            assert forall|a: int, b: int| 0 <= a < b < f.len() implies (#[trigger] f[a]).0 != (#[trigger] f[b]).0 by {
                if b == fp.len() {
                    assert(f[a] == fp[a]);
                    if fp[a].0 == x.0 {
                        assert(has_ekey(fp, x.0));
                    }
                } else {
                    assert(f[a] == fp[a] && f[b] == fp[b]);
                }
            }
            assert forall|k: Seq<u8>| #[trigger] has_ekey(f, k) == has_ekey(s, k) by {
                if has_ekey(f, k) {
                    let j = choose|j: int| 0 <= j < f.len() && #[trigger] f[j].0 == k;
                    if j < fp.len() {
                        assert(fp[j] == f[j]);
                        assert(has_ekey(fp, k));
                    } else {
                        assert(s[s.len() - 1].0 == k);
                    }
                }
                if has_ekey(s, k) {
                    if has_ekey(p, k) {
                        assert(has_ekey(fp, k));
                        let j = choose|j: int| 0 <= j < fp.len() && #[trigger] fp[j].0 == k;
                        assert(f[j] == fp[j]);
                    } else {
                        assert(f[fp.len() as int].0 == k);
                    }
                }
            }
            assert forall|a: int| 0 <= a < f.len() implies exists|i: int|
                0 <= i < s.len() && s[i] == #[trigger] f[a] && forall|j: int| 0 <= j < i ==> s[j].0 != f[a].0 by {
                if a < fp.len() {
                    assert(f[a] == fp[a]);
                } else {
                    assert(f[a] == x);
                    assert forall|j: int| 0 <= j < s.len() - 1 implies s[j].0 != x.0 by {
                        assert(p[j] == s[j]);
                        if s[j].0 == x.0 {
                            assert(has_ekey(p, x.0));
                        }
                    }
                    assert(s[s.len() - 1] == f[a]);
                }
            }
        } else {
            assert(f == fp);
            assert forall|k: Seq<u8>| #[trigger] has_ekey(f, k) == has_ekey(s, k) by {
                if has_ekey(s, k) && !has_ekey(p, k) {
                    assert(x.0 == k);
                }
            }
        }
    }
}

/// The keys a plan stores are distinct, each the first of its key among the
/// build's manifests, then the selected install files, then the selected
/// download entries.
pub proof fn lemma_plan_keys_once(m: &Manifests, s: Selection)
    ensures
        spec_build(m, s) matches Ok(pm) ==> forall|a: int, b: int|
            0 <= a < b < pm.0.len() ==> (#[trigger] pm.0[a]).0 != (#[trigger] pm.0[b]).0,
{
    if let Ok(pm) = spec_build(m, s) {
        let itags = tags_view(m.install.tags@);
        let ients = install_views(m.install.entries@);
        let dtags = tags_view(m.download.tags@);
        let dents = download_views(m.download.entries@);
        let q = spec_parse_agent(spec_agent_tags(os_tag(s.os), arch_tag(s.arch), s.region@, s.speech@, s.text@));
        let isel = pick(ients, selection_of(itags, q, ients.len() as int));
        let dsel = pick(dents, selection_of(dtags, q, dents.len() as int));
        if let Ok(files) = install_pass(isel, m.encoding.ckeys(), m.encoding.ekeys(), dents) {
            let core = spec_core_files(m.build_config.vars(), m.encoding.ckeys(), m.encoding.ekeys(), m.build_config.vars().len() as int);
            lemma_first_by_ekey(core_cands(core) + file_cands(files) + dl_cands(dsel));
        }
    }
}

/// The names of the build's own manifests that are stored: exactly
/// `encoding`, `root`, `install`, `download`, `size`, `patch-index`, and
/// `vfs-*` names that are not `*-size`.
pub proof fn lemma_core_names(n: Seq<char>)
    ensures
        is_core_name(n) <==> (n == "encoding"@ || n == "root"@ || n == "install"@ || n == "download"@ || n == "size"@
            || n == "patch-index"@ || (n.len() >= 4 && n.subrange(0, 4) == "vfs-"@ && !(n.len() >= 5 && n.subrange(
            n.len() - 5,
            n.len() as int,
        ) == "-size"@))),
{
    let c = core_names();
    assert(c[0] == "encoding"@ && c[1] == "root"@ && c[2] == "install"@ && c[3] == "download"@ && c[4] == "size"@
        && c[5] == "patch-index"@);
    if c.contains(n) {
        let i = choose|i: int| 0 <= i < c.len() && c[i] == n;
        assert(0 <= i < 6);
    }
    if n == "encoding"@ {
        assert(c[0] == n);
    }
    if n == "root"@ {
        assert(c[1] == n);
    }
    if n == "install"@ {
        assert(c[2] == n);
    }
    if n == "download"@ {
        assert(c[3] == n);
    }
    if n == "size"@ {
        assert(c[4] == n);
    }
    if n == "patch-index"@ {
        assert(c[5] == n);
    }
}

proof fn lemma_core_files_keep(all: Seq<VarModel>, ckeys: Seq<CKeyModel>, ekeys: Seq<EKeyModel>, i: int, n: int)
    requires
        0 <= i < n,
        core_item(all, ckeys, ekeys, all[i].0) is Some,
    ensures
        spec_core_files(all, ckeys, ekeys, n).contains(core_item(all, ckeys, ekeys, all[i].0).unwrap()),
    decreases n,
{
    let rest = spec_core_files(all, ckeys, ekeys, n - 1);
    let x = core_item(all, ckeys, ekeys, all[i].0).unwrap();
    if i == n - 1 {
        assert(spec_core_files(all, ckeys, ekeys, n) == rest.push(x));
        assert(rest.push(x)[rest.len() as int] == x);
    } else {
        lemma_core_files_keep(all, ckeys, ekeys, i, n - 1);
        let j = choose|j: int| 0 <= j < rest.len() && rest[j] == x;
        match core_item(all, ckeys, ekeys, all[n - 1].0) {
            Some(y) => {
                assert(rest.push(y)[j] == x);
            },
            None => {},
        }
    }
}

/// The download manifest is among the core files: when a build config
/// variable is named `download` and its `EKey` is known (its second key, or
/// the ENCODING record of its first), the core files hold an entry named
/// `download` with that `EKey`.
pub proof fn lemma_download_is_core(all: Seq<VarModel>, ckeys: Seq<CKeyModel>, ekeys: Seq<EKeyModel>, i: int)
    requires
        0 <= i < all.len(),
        all[i].0 == "download"@,
        core_ekey(all, ckeys, "download"@) is Some,
    ensures
        exists|j: int|
            0 <= j < spec_core_files(all, ckeys, ekeys, all.len() as int).len() && (#[trigger] spec_core_files(
                all,
                ckeys,
                ekeys,
                all.len() as int,
            )[j]).0 == "download"@ && spec_core_files(all, ckeys, ekeys, all.len() as int)[j].1 == core_ekey(
                all,
                ckeys,
                "download"@,
            ).unwrap(),
{
    reveal(core_item);
    lemma_core_names("download"@);
    lemma_core_files_keep(all, ckeys, ekeys, i, all.len() as int);
}

} // verus!
