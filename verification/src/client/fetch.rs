//! Grouping the keys to fetch into jobs: adjacent entries of one archive are
//! merged into one HTTP range request (gaps up to 64 KiB, spans up to 8 MiB);
//! keys in no archive are fetched as loose files.

use vstd::prelude::*;
use vstd::multiset::Multiset;
use std::collections::HashMap;
use crate::bytes::{be_value, byte_bound, lemma_be_value_bound};
use crate::client::plan::Needed;
use crate::client::util::Key;

verus! {

broadcast use vstd::std_specs::hash::group_hash_axioms;

/// Largest gap between two entries merged into one range.
pub const MAX_GAP: u64 = 65536;

/// Largest span of a merged range.
pub const MAX_SPAN: u64 = 8388608;

/// Where an encoded file lies in the CDN archives.
#[derive(Debug, Clone, Copy, PartialEq, Eq)]
pub struct ArchiveLocation {
    pub archive: u16,
    pub offset: u32,
    pub size: u32,
}

/// A fetch job.
#[derive(Debug, Clone, PartialEq, Eq)]
pub enum Job {
    /// Bytes `start..end` of archive `archive`, holding `entries`
    /// (`EKey`, offset, size).
    Range { archive: u16, start: u64, end: u64, entries: Vec<(Key, u64, u64)> },
    /// A file in no archive, fetched by its own key.
    Loose { ekey: Key, size: u64 },
}

/// An archive entry to fetch as plain values: `(EKey, offset, size)`.
pub type FetchEntry = (Seq<u8>, u64, u64);

/// A job as plain values.
pub enum JobModel {
    Range { archive: u16, start: u64, end: u64, entries: Seq<FetchEntry> },
    Loose { ekey: Seq<u8>, size: u64 },
}

/// The models of archive entries.
pub open spec fn entries_view(v: Seq<(Key, u64, u64)>) -> Seq<FetchEntry> {
    v.map_values(|e: (Key, u64, u64)| (e.0@, e.1, e.2))
}

/// The model of a job.
pub open spec fn job_view(j: Job) -> JobModel {
    match j {
        Job::Range { archive, start, end, entries } => JobModel::Range {
            archive,
            start,
            end,
            entries: entries_view(entries@),
        },
        Job::Loose { ekey, size } => JobModel::Loose { ekey: ekey@, size },
    }
}

/// The models of a list of jobs.
pub open spec fn jobs_view(v: Seq<Job>) -> Seq<JobModel> {
    v.map_values(|j: Job| job_view(j))
}

/// The number under which a key is filed in a location map: its 16 bytes
/// read big-endian.
pub open spec fn key_number(k: Seq<u8>) -> u128 {
    be_value(k) as u128
}

/// Keys by archive as they are first needed: the archives in order of first
/// need, the entries of each archive in need order, and the loose jobs.
pub open spec fn group(needed: Seq<Needed>, locs: Map<u128, ArchiveLocation>) -> (Seq<u16>, Seq<Seq<FetchEntry>>, Seq<JobModel>)
    decreases needed.len(),
{
    if needed.len() == 0 {
        (Seq::empty(), Seq::empty(), Seq::empty())
    } else {
        let (archives, groups, loose) = group(needed.drop_last(), locs);
        let n = needed.last();
        let k = key_number(n.ekey@);
        if locs.contains_key(k) {
            let loc = locs[k];
            let e = (n.ekey@, loc.offset as u64, loc.size as u64);
            if archives.contains(loc.archive) {
                let s = archives.index_of(loc.archive);
                (archives, groups.update(s, groups[s].push(e)), loose)
            } else {
                (archives.push(loc.archive), groups.push(seq![e]), loose)
            }
        } else {
            (archives, groups, loose.push(JobModel::Loose { ekey: n.ekey@, size: n.size }))
        }
    }
}

/// `s` with `e` inserted after every entry whose offset is not above `e`'s.
pub open spec fn insert_by_offset(s: Seq<FetchEntry>, e: FetchEntry) -> Seq<FetchEntry>
    decreases s.len(),
{
    if s.len() == 0 || s.last().1 <= e.1 {
        s.push(e)
    } else {
        insert_by_offset(s.drop_last(), e).push(s.last())
    }
}

/// `s` stably sorted by offset.
pub open spec fn sort_by_offset(s: Seq<FetchEntry>) -> Seq<FetchEntry>
    decreases s.len(),
{
    if s.len() == 0 {
        s
    } else {
        insert_by_offset(sort_by_offset(s.drop_last()), s.last())
    }
}

/// Whether an entry at `offset` of `size` bytes joins the range
/// `start..end`: it starts at or after `end`, at most a gap away, and the
/// range stays within the span limit.
pub open spec fn joins(start: u64, end: u64, offset: u64, size: u64) -> bool {
    offset >= end && offset - end <= MAX_GAP && offset + size - start <= MAX_SPAN
}

/// The range jobs of archive `archive` from its offset-sorted entries `es[i..]`,
/// with `cur` the open range `(start, end, entries)`, appended to `acc`.
pub open spec fn coalesce(
    archive: u16,
    es: Seq<FetchEntry>,
    i: int,
    cur: Option<(u64, u64, Seq<FetchEntry>)>,
    acc: Seq<JobModel>,
) -> Seq<JobModel>
    decreases es.len() - i,
{
    if i < 0 || i >= es.len() {
        match cur {
            Some((start, end, ents)) => acc.push(JobModel::Range { archive, start, end, entries: ents }),
            None => acc,
        }
    } else {
        let (k, offset, size) = es[i];
        match cur {
            Some((start, end, ents)) => if joins(start, end, offset, size) {
                coalesce(archive, es, i + 1, Some((start, (offset + size) as u64, ents.push(es[i]))), acc)
            } else {
                coalesce(
                    archive,
                    es,
                    i + 1,
                    Some((offset, (offset + size) as u64, seq![es[i]])),
                    acc.push(JobModel::Range { archive, start, end, entries: ents }),
                )
            },
            None => coalesce(archive, es, i + 1, Some((offset, (offset + size) as u64, seq![es[i]])), acc),
        }
    }
}

/// The range jobs of the archives `i..`, appended to `acc`.
pub open spec fn ranges(archives: Seq<u16>, groups: Seq<Seq<FetchEntry>>, i: int, acc: Seq<JobModel>) -> Seq<JobModel>
    decreases archives.len() - i,
{
    if i < 0 || i >= archives.len() {
        acc
    } else {
        ranges(archives, groups, i + 1, coalesce(archives[i], sort_by_offset(groups[i]), 0, None, acc))
    }
}

/// What [`make_jobs`] returns: the range jobs of each archive in order of
/// first need, then the loose jobs in need order.
pub open spec fn spec_make_jobs(needed: Seq<Needed>, locs: Map<u128, ArchiveLocation>) -> Seq<JobModel> {
    let (archives, groups, loose) = group(needed, locs);
    ranges(archives, groups, 0, Seq::empty()) + loose
}

/// A job's byte range is well formed: a range starts no later than it
/// ends, and one of more than one entry spans at most [`MAX_SPAN`] bytes.
pub open spec fn span_ok(j: JobModel) -> bool {
    match j {
        JobModel::Range { start, end, entries, .. } => start <= end && (entries.len() == 1 || end - start <= MAX_SPAN),
        JobModel::Loose { .. } => true,
    }
}

/// Every entry's offset and size fit in 32 bits.
pub open spec fn small_entries(es: Seq<FetchEntry>) -> bool {
    forall|k: int| 0 <= k < es.len() ==> (#[trigger] es[k]).1 < 0x1_0000_0000 && es[k].2 < 0x1_0000_0000
}

proof fn lemma_insert_small(s: Seq<FetchEntry>, e: FetchEntry)
    requires
        small_entries(s),
        e.1 < 0x1_0000_0000 && e.2 < 0x1_0000_0000,
    ensures
        small_entries(insert_by_offset(s, e)),
        insert_by_offset(s, e).len() == s.len() + 1,
    decreases s.len(),
{
    if s.len() == 0 || s.last().1 <= e.1 {
    } else {
        lemma_insert_small(s.drop_last(), e);
        let t = insert_by_offset(s.drop_last(), e);
        assert forall|k: int| 0 <= k < t.push(s.last()).len() implies (#[trigger] t.push(s.last())[k]).1 < 0x1_0000_0000
            && t.push(s.last())[k].2 < 0x1_0000_0000 by {
            if k < t.len() {
                assert(t.push(s.last())[k] == t[k]);
            }
        }
    }
}

proof fn lemma_sort_small(s: Seq<FetchEntry>)
    requires
        small_entries(s),
    ensures
        small_entries(sort_by_offset(s)),
        sort_by_offset(s).len() == s.len(),
    decreases s.len(),
{
    if s.len() > 0 {
        assert(small_entries(s.drop_last())) by {
            assert forall|k: int| 0 <= k < s.drop_last().len() implies (#[trigger] s.drop_last()[k]).1 < 0x1_0000_0000
                && s.drop_last()[k].2 < 0x1_0000_0000 by {
                assert(s.drop_last()[k] == s[k]);
            }
        }
        lemma_sort_small(s.drop_last());
        lemma_insert_small(sort_by_offset(s.drop_last()), s.last());
    }
}

/// Every group's entries fit in 32 bits.
pub open spec fn small_groups(gs: Seq<Seq<FetchEntry>>) -> bool {
    forall|s: int| 0 <= s < gs.len() ==> small_entries(#[trigger] gs[s])
}

proof fn lemma_group_small(needed: Seq<Needed>, locs: Map<u128, ArchiveLocation>)
    ensures
        small_groups(group(needed, locs).1),
        group(needed, locs).0.len() == group(needed, locs).1.len(),
    decreases needed.len(),
{
    if needed.len() > 0 {
        lemma_group_small(needed.drop_last(), locs);
        let (archives, groups, loose) = group(needed.drop_last(), locs);
        let n = needed.last();
        let k = key_number(n.ekey@);
        if locs.contains_key(k) {
            let loc = locs[k];
            let e = (n.ekey@, loc.offset as u64, loc.size as u64);
            if archives.contains(loc.archive) {
                let si = archives.index_of(loc.archive);
                let g2 = groups.update(si, groups[si].push(e));
                assert forall|t: int| 0 <= t < g2.len() implies small_entries(#[trigger] g2[t]) by {
                    if t == si {
                        assert forall|m: int| 0 <= m < g2[t].len() implies (#[trigger] g2[t][m]).1 < 0x1_0000_0000
                            && g2[t][m].2 < 0x1_0000_0000 by {
                            if m < groups[si].len() {
                                assert(g2[t][m] == groups[si][m]);
                            }
                        }
                    }
                }
            } else {
                let g2 = groups.push(seq![e]);
                assert forall|t: int| 0 <= t < g2.len() implies small_entries(#[trigger] g2[t]) by {
                    if t < groups.len() {
                        assert(g2[t] == groups[t]);
                    }
                }
            }
        }
    }
}

/// Every job of `js` has a well-formed span.
pub open spec fn spans_ok(js: Seq<JobModel>) -> bool {
    forall|k: int| 0 <= k < js.len() ==> span_ok(#[trigger] js[k])
}

/// The open range of a coalescing pass is well formed.
pub open spec fn cur_ok(cur: Option<(u64, u64, Seq<FetchEntry>)>) -> bool {
    match cur {
        Some((start, end, ents)) => start <= end && (ents.len() == 1 || end - start <= MAX_SPAN),
        None => true,
    }
}

proof fn lemma_push_spans(js: Seq<JobModel>, j: JobModel)
    requires
        spans_ok(js),
        span_ok(j),
    ensures
        spans_ok(js.push(j)),
{
    assert forall|k: int| 0 <= k < js.push(j).len() implies span_ok(#[trigger] js.push(j)[k]) by {
        if k < js.len() {
            assert(js.push(j)[k] == js[k]);
        }
    }
}

proof fn lemma_coalesce_spans(
    archive: u16,
    es: Seq<FetchEntry>,
    i: int,
    cur: Option<(u64, u64, Seq<FetchEntry>)>,
    acc: Seq<JobModel>,
)
    requires
        0 <= i,
        small_entries(es),
        cur_ok(cur),
        spans_ok(acc),
    ensures
        spans_ok(coalesce(archive, es, i, cur, acc)),
    decreases es.len() - i,
{
    if i >= es.len() {
        match cur {
            Some((start, end, ents)) => {
                lemma_push_spans(acc, JobModel::Range { archive, start, end, entries: ents });
            },
            None => {},
        }
    } else {
        let (k, offset, size) = es[i];
        match cur {
            Some((start, end, ents)) => if joins(start, end, offset, size) {
                lemma_coalesce_spans(archive, es, i + 1, Some((start, (offset + size) as u64, ents.push(es[i]))), acc);
            } else {
                lemma_push_spans(acc, JobModel::Range { archive, start, end, entries: ents });
                lemma_coalesce_spans(
                    archive,
                    es,
                    i + 1,
                    Some((offset, (offset + size) as u64, seq![es[i]])),
                    acc.push(JobModel::Range { archive, start, end, entries: ents }),
                );
            },
            None => {
                lemma_coalesce_spans(archive, es, i + 1, Some((offset, (offset + size) as u64, seq![es[i]])), acc);
            },
        }
    }
}

proof fn lemma_ranges_spans(archives: Seq<u16>, groups: Seq<Seq<FetchEntry>>, i: int, acc: Seq<JobModel>)
    requires
        0 <= i,
        archives.len() == groups.len(),
        small_groups(groups),
        spans_ok(acc),
    ensures
        spans_ok(ranges(archives, groups, i, acc)),
    decreases archives.len() - i,
{
    if i < archives.len() {
        lemma_sort_small(groups[i]);
        lemma_coalesce_spans(archives[i], sort_by_offset(groups[i]), 0, None, acc);
        lemma_ranges_spans(archives, groups, i + 1, coalesce(archives[i], sort_by_offset(groups[i]), 0, None, acc));
    }
}

/// Coalescing never makes an oversized request: every range job of
/// [`make_jobs`] starts no later than it ends, and one that merges more
/// than one entry spans at most [`MAX_SPAN`] bytes.
pub proof fn lemma_make_jobs_spans(needed: Seq<Needed>, locs: Map<u128, ArchiveLocation>)
    ensures
        spans_ok(spec_make_jobs(needed, locs)),
{
    lemma_group_small(needed, locs);
    let (archives, groups, loose) = group(needed, locs);
    lemma_ranges_spans(archives, groups, 0, Seq::empty());
    let rs = ranges(archives, groups, 0, Seq::empty());
    lemma_loose_only(needed, locs);
    assert forall|k: int| 0 <= k < (rs + loose).len() implies span_ok(#[trigger] (rs + loose)[k]) by {
        if k < rs.len() {
            assert((rs + loose)[k] == rs[k]);
        } else {
            assert((rs + loose)[k] == loose[k - rs.len()]);
        }
    }
}

proof fn lemma_loose_only(needed: Seq<Needed>, locs: Map<u128, ArchiveLocation>)
    ensures
        forall|k: int| 0 <= k < group(needed, locs).2.len() ==> (#[trigger] group(needed, locs).2[k]) is Loose,
    decreases needed.len(),
{
    if needed.len() > 0 {
        lemma_loose_only(needed.drop_last(), locs);
        let (archives, groups, loose) = group(needed.drop_last(), locs);
        let g = group(needed, locs).2;
        assert forall|k: int| 0 <= k < g.len() implies (#[trigger] g[k]) is Loose by {
            if k < loose.len() {
                assert(g[k] == loose[k]);
            }
        }
    }
}

/// The number under which `k` is filed in a location map.
pub fn location_key(k: &Key) -> (r: u128)
    ensures
        r == key_number(k@),
{
    let mut acc: u128 = 0;
    let mut i: usize = 0;
    while i < 16
        invariant
            i <= 16,
            acc == be_value(k@.take(i as int)),
        decreases 16 - i,
    {
        proof {
            lemma_be_value_bound(k@.take(i as int));
            lemma_byte_bound_15(i as nat);
        }
        assert(k@.take(i + 1).drop_last() =~= k@.take(i as int));
        acc = acc * 256 + k[i] as u128;
        i += 1;
    }
    proof {
        assert(k@.take(16) =~= k@);
        lemma_be_value_bound(k@);
        lemma_byte_bound_15(16);
    }
    acc
}

proof fn lemma_byte_bound_15(n: nat)
    requires
        n <= 16,
    ensures
        n < 16 ==> byte_bound(n) <= 0x1_0000_0000_0000_0000_0000_0000_0000_00,
        byte_bound(n) <= 0x1_0000_0000_0000_0000_0000_0000_0000_0000,
{
    reveal_with_fuel(byte_bound, 17);
    assert(byte_bound(15) == 0x1_0000_0000_0000_0000_0000_0000_0000_00);
    assert(byte_bound(16) == 0x1_0000_0000_0000_0000_0000_0000_0000_0000);
    if n < 16 {
        crate::client::util::lemma_byte_bound_monotone(n, 15);
    } else {
        crate::client::util::lemma_byte_bound_monotone(n, 16);
    }
}

proof fn lemma_insert_at(s: Seq<FetchEntry>, e: FetchEntry, pos: int)
    requires
        0 <= pos <= s.len(),
        pos == 0 || s[pos - 1].1 <= e.1,
        forall|k: int| pos <= k < s.len() ==> #[trigger] s[k].1 > e.1,
    ensures
        insert_by_offset(s, e) == s.insert(pos, e),
    decreases s.len(),
{
    if s.len() == 0 {
        assert(s.insert(pos, e) =~= seq![e]);
    } else if s.last().1 <= e.1 {
        assert(pos == s.len());
        assert(s.insert(pos, e) =~= s.push(e));
    } else {
        lemma_insert_at(s.drop_last(), e, pos);
        assert(s.drop_last().insert(pos, e).push(s.last()) =~= s.insert(pos, e));
    }
}

proof fn lemma_insert_keeps_bounds(s: Seq<FetchEntry>, e: FetchEntry)
    requires
        forall|k: int| 0 <= k < s.len() ==> (#[trigger] s[k]).1 < 0x1_0000_0000 && s[k].2 < 0x1_0000_0000,
        e.1 < 0x1_0000_0000 && e.2 < 0x1_0000_0000,
    ensures
        forall|k: int| 0 <= k < insert_by_offset(s, e).len() ==> (#[trigger] insert_by_offset(s, e)[k]).1 < 0x1_0000_0000
            && insert_by_offset(s, e)[k].2 < 0x1_0000_0000,
    decreases s.len(),
{
    let r = insert_by_offset(s, e);
    if s.len() > 0 && s.last().1 > e.1 {
        lemma_insert_keeps_bounds(s.drop_last(), e);
        let t = insert_by_offset(s.drop_last(), e);
        assert forall|k: int| 0 <= k < r.len() implies (#[trigger] r[k]).1 < 0x1_0000_0000 && r[k].2 < 0x1_0000_0000 by {
            if k < t.len() {
                assert(r[k] == t[k]);
            }
        }
    } else {
        assert forall|k: int| 0 <= k < r.len() implies (#[trigger] r[k]).1 < 0x1_0000_0000 && r[k].2 < 0x1_0000_0000 by {
            if k < s.len() {
                assert(r[k] == s[k]);
            }
        }
    }
}

proof fn lemma_sort_keeps_bounds(s: Seq<FetchEntry>)
    requires
        forall|k: int| 0 <= k < s.len() ==> (#[trigger] s[k]).1 < 0x1_0000_0000 && s[k].2 < 0x1_0000_0000,
    ensures
        forall|k: int| 0 <= k < sort_by_offset(s).len() ==> (#[trigger] sort_by_offset(s)[k]).1 < 0x1_0000_0000
            && sort_by_offset(s)[k].2 < 0x1_0000_0000,
    decreases s.len(),
{
    if s.len() > 0 {
        lemma_sort_keeps_bounds(s.drop_last());
        lemma_insert_keeps_bounds(sort_by_offset(s.drop_last()), s.last());
    }
}

/// A copy of `es`, stably sorted by offset.
fn sorted_by_offset(es: &Vec<(Key, u64, u64)>) -> (r: Vec<(Key, u64, u64)>)
    ensures
        entries_view(r@) == sort_by_offset(entries_view(es@)),
{
    let mut out: Vec<(Key, u64, u64)> = Vec::new();
    let mut j: usize = 0;
    assert(entries_view(es@.take(0)) =~= Seq::<FetchEntry>::empty());
    assert(entries_view(out@) =~= Seq::<FetchEntry>::empty());
    while j < es.len()
        invariant
            j <= es@.len(),
            entries_view(out@) == sort_by_offset(entries_view(es@.take(j as int))),
        decreases es@.len() - j,
    {
        let e = es[j];
        let mut pos = out.len();
        while pos > 0 && out[pos - 1].1 > e.1
            invariant
                pos <= out@.len(),
                forall|k: int| pos <= k < out@.len() ==> #[trigger] out@[k].1 > e.1,
            decreases pos,
        {
            pos -= 1;
        }
        let ghost before = out@;
        out.insert(pos, e);
        proof {
            let v = entries_view(before);
            let ev = (e.0@, e.1, e.2);
            assert forall|k: int| pos <= k < v.len() implies #[trigger] v[k].1 > ev.1 by {
                assert(v[k].1 == before[k].1);
            }
            if pos > 0 {
                assert(v[pos - 1].1 == before[pos - 1].1);
            }
            lemma_insert_at(v, ev, pos as int);
            assert(entries_view(out@) =~= v.insert(pos as int, ev));
            let t = entries_view(es@.take(j + 1));
            assert(t.drop_last() =~= entries_view(es@.take(j as int)));
            assert(t.last() == ev);
        }
        j += 1;
    }
    assert(es@.take(j as int) =~= es@);
    out
}

/// The model of an open range.
pub open spec fn open_view(c: Option<(u64, u64, Vec<(Key, u64, u64)>)>) -> Option<(u64, u64, Seq<FetchEntry>)> {
    match c {
        Some((s, e, v)) => Some((s, e, entries_view(v@))),
        None => None,
    }
}

/// Appends the range jobs of one archive's offset-sorted entries to `jobs`.
fn coalesce_into(archive: u16, es: &Vec<(Key, u64, u64)>, jobs: &mut Vec<Job>)
    requires
        forall|k: int| 0 <= k < es@.len() ==> (#[trigger] es@[k]).1 < 0x1_0000_0000 && es@[k].2 < 0x1_0000_0000,
    ensures
        jobs_view(final(jobs)@) == coalesce(archive, entries_view(es@), 0, None, jobs_view(old(jobs)@)),
{
    let ghost ev = entries_view(es@);
    let mut current: Option<(u64, u64, Vec<(Key, u64, u64)>)> = None;
    let mut i: usize = 0;
    while i < es.len()
        invariant
            i <= es@.len(),
            ev == entries_view(es@),
            forall|k: int| 0 <= k < es@.len() ==> (#[trigger] es@[k]).1 < 0x1_0000_0000 && es@[k].2 < 0x1_0000_0000,
            current matches Some((s, e, _)) ==> s <= e,
            coalesce(archive, ev, 0, None, jobs_view(old(jobs)@)) == coalesce(
                archive,
                ev,
                i as int,
                open_view(current),
                jobs_view(jobs@),
            ),
        decreases es@.len() - i,
    {
        let (ekey, offset, size) = es[i];
        assert(ev[i as int] == (ekey@, offset, size));
        let entry = (ekey, offset, size);
        match current {
            Some((start, end, mut ents)) => {
                if offset >= end && offset - end <= MAX_GAP && offset + size - start <= MAX_SPAN {
                    let ghost before = ents@;
                    ents.push(entry);
                    assert(entries_view(ents@) =~= entries_view(before).push(ev[i as int]));
                    current = Some((start, offset + size, ents));
                } else {
                    let ghost before = jobs@;
                    let job = Job::Range { archive, start, end, entries: ents };
                    jobs.push(job);
                    assert(jobs_view(jobs@) =~= jobs_view(before).push(job_view(job)));
                    let v = vec![entry];
                    assert(entries_view(v@) =~= seq![ev[i as int]]);
                    current = Some((offset, offset + size, v));
                }
            },
            None => {
                let v = vec![entry];
                assert(entries_view(v@) =~= seq![ev[i as int]]);
                current = Some((offset, offset + size, v));
            },
        }
        i += 1;
    }
    match current {
        Some((start, end, entries)) => {
            let ghost before = jobs@;
            let job = Job::Range { archive, start, end, entries };
            jobs.push(job);
            assert(jobs_view(jobs@) =~= jobs_view(before).push(job_view(job)));
        },
        None => {},
    }
}

/// Groups `needed` keys into range jobs per archive (archives in order of
/// first need, entries of an archive by offset) followed by loose jobs for
/// the keys that `locations` does not place in an archive. `locations` is
/// keyed by [`location_key`].
pub fn make_jobs(needed: &[Needed], locations: &HashMap<u128, ArchiveLocation>) -> (r: Vec<Job>)
    ensures
        jobs_view(r@) == spec_make_jobs(needed@, locations@),
{
    let mut archives: Vec<u16> = Vec::new();
    let mut groups: Vec<Vec<(Key, u64, u64)>> = Vec::new();
    let mut slots: HashMap<u16, usize> = HashMap::new();
    let mut loose: Vec<Job> = Vec::new();
    let mut i: usize = 0;
    while i < needed.len()
        invariant
            i <= needed@.len(),
            archives@.len() == groups@.len(),
            archives@.no_duplicates(),
            forall|a: u16| #[trigger] slots@.contains_key(a) <==> archives@.contains(a),
            forall|s: int| 0 <= s < archives@.len() ==> slots@[#[trigger] archives@[s]] == s,
            forall|s: int, k: int| 0 <= s < groups@.len() && 0 <= k < groups@[s]@.len() ==>
                (#[trigger] groups@[s]@[k]).1 < 0x1_0000_0000 && groups@[s]@[k].2 < 0x1_0000_0000,
            group(needed@.take(i as int), locations@) == (
                archives@,
                groups@.map_values(|g: Vec<(Key, u64, u64)>| entries_view(g@)),
                jobs_view(loose@),
            ),
        decreases needed@.len() - i,
    {
        let n = needed[i];
        proof {
            assert(needed@.take(i + 1).drop_last() =~= needed@.take(i as int));
        }
        let k = location_key(&n.ekey);
        match locations.get(&k) {
            Some(loc) => {
                let entry = (n.ekey, loc.offset as u64, loc.size as u64);
                match slots.get(&loc.archive) {
                    Some(s) => {
                        let s = *s;
                        let ghost before = groups@;
                        groups[s].push(entry);
                        proof {
                            let gv = groups@.map_values(|g: Vec<(Key, u64, u64)>| entries_view(g@));
                            let bv = before.map_values(|g: Vec<(Key, u64, u64)>| entries_view(g@));
                            assert(archives@.contains(loc.archive));
                            let w = choose|w: int| 0 <= w < archives@.len() && archives@[w] == loc.archive;
                            assert(slots@[archives@[w]] == w);
                            assert(w == s as int);
                            assert(archives@[archives@.index_of(loc.archive)] == loc.archive);
                            assert(entries_view(groups@[s as int]@) =~= entries_view(before[s as int]@).push((n.ekey@, loc.offset as u64, loc.size as u64)));
                            assert(gv =~= bv.update(s as int, bv[s as int].push((n.ekey@, loc.offset as u64, loc.size as u64))));
                        }
                    },
                    None => {
                        let ghost before = groups@;
                        let ghost old_arch = archives@;
                        let ghost old_slots = slots@;
                        assert(!old_arch.contains(loc.archive));
                        slots.insert(loc.archive, archives.len());
                        archives.push(loc.archive);
                        let v = vec![entry];
                        assert(entries_view(v@) =~= seq![(n.ekey@, loc.offset as u64, loc.size as u64)]);
                        groups.push(v);
                        proof {
                            let gv = groups@.map_values(|g: Vec<(Key, u64, u64)>| entries_view(g@));
                            let bv = before.map_values(|g: Vec<(Key, u64, u64)>| entries_view(g@));
                            assert(gv =~= bv.push(seq![(n.ekey@, loc.offset as u64, loc.size as u64)]));
                            assert forall|a: u16| #[trigger] slots@.contains_key(a) <==> archives@.contains(a) by {
                                if a == loc.archive {
                                    assert(archives@[archives@.len() - 1] == a);
                                } else {
                                    assert(slots@.contains_key(a) == old_slots.contains_key(a));
                                    if old_arch.contains(a) {
                                        let w = choose|w: int| 0 <= w < old_arch.len() && old_arch[w] == a;
                                        assert(archives@[w] == a);
                                    }
                                    if archives@.contains(a) {
                                        let w = choose|w: int| 0 <= w < archives@.len() && archives@[w] == a;
                                        assert(w < old_arch.len());
                                        assert(old_arch[w] == a);
                                    }
                                }
                            }
                            assert forall|s: int| 0 <= s < archives@.len() implies slots@[#[trigger] archives@[s]] == s by {
                                if s < old_arch.len() {
                                    assert(archives@[s] == old_arch[s]);
                                    assert(old_arch.contains(old_arch[s]));
                                }
                            }
                            assert forall|x: int, y: int| 0 <= x < archives@.len() && 0 <= y < archives@.len() && x != y
                                implies archives@[x] != archives@[y] by {
                                if x < old_arch.len() && y < old_arch.len() {
                                } else if x < old_arch.len() {
                                    assert(old_arch.contains(old_arch[x]));
                                } else if y < old_arch.len() {
                                    assert(old_arch.contains(old_arch[y]));
                                }
                            }
                        }
                    },
                }
            },
            None => {
                let ghost before = loose@;
                let job = Job::Loose { ekey: n.ekey, size: n.size };
                loose.push(job);
                assert(jobs_view(loose@) =~= jobs_view(before).push(job_view(job)));
            },
        }
        i += 1;
    }
    assert(needed@.take(i as int) =~= needed@);
    let mut jobs: Vec<Job> = Vec::new();
    let ghost gv = groups@.map_values(|g: Vec<(Key, u64, u64)>| entries_view(g@));
    assert(jobs_view(jobs@) =~= Seq::<JobModel>::empty());
    let mut g: usize = 0;
    while g < groups.len()
        invariant
            g <= groups@.len(),
            archives@.len() == groups@.len(),
            gv == groups@.map_values(|g: Vec<(Key, u64, u64)>| entries_view(g@)),
            forall|s: int, k: int| 0 <= s < groups@.len() && 0 <= k < groups@[s]@.len() ==>
                (#[trigger] groups@[s]@[k]).1 < 0x1_0000_0000 && groups@[s]@[k].2 < 0x1_0000_0000,
            ranges(archives@, gv, 0, Seq::empty()) == ranges(archives@, gv, g as int, jobs_view(jobs@)),
        decreases groups@.len() - g,
    {
        let sorted = sorted_by_offset(&groups[g]);
        proof {
            assert forall|k: int| 0 <= k < entries_view(groups@[g as int]@).len() implies (#[trigger] entries_view(groups@[g as int]@)[k]).1 < 0x1_0000_0000
                && entries_view(groups@[g as int]@)[k].2 < 0x1_0000_0000 by {
                assert(groups@[g as int]@[k].1 < 0x1_0000_0000);
            }
            lemma_sort_keeps_bounds(entries_view(groups@[g as int]@));
            assert forall|k: int| 0 <= k < sorted@.len() implies (#[trigger] sorted@[k]).1 < 0x1_0000_0000 && sorted@[k].2 < 0x1_0000_0000 by {
                assert(entries_view(sorted@)[k].1 == sorted@[k].1);
                assert(entries_view(sorted@)[k].2 == sorted@[k].2);
            }
        }
        coalesce_into(archives[g], &sorted, &mut jobs);
        g += 1;
    }
    let ghost before = jobs@;
    let ghost rest = loose@;
    jobs.append(&mut loose);
    assert(jobs_view(jobs@) =~= jobs_view(before) + jobs_view(rest));
    jobs
}


/// The keys of entries, as a multiset.
pub open spec fn keys_ms(es: Seq<FetchEntry>) -> Multiset<Seq<u8>>
    decreases es.len(),
{
    if es.len() == 0 {
        Multiset::empty()
    } else {
        keys_ms(es.drop_last()).insert(es.last().0)
    }
}

/// The keys a job fetches, as a multiset.
pub open spec fn job_ms(j: JobModel) -> Multiset<Seq<u8>> {
    match j {
        JobModel::Range { entries, .. } => keys_ms(entries),
        JobModel::Loose { ekey, .. } => Multiset::empty().insert(ekey),
    }
}

/// The keys jobs fetch, as a multiset.
pub open spec fn jobs_ms(js: Seq<JobModel>) -> Multiset<Seq<u8>>
    decreases js.len(),
{
    if js.len() == 0 {
        Multiset::empty()
    } else {
        jobs_ms(js.drop_last()).add(job_ms(js.last()))
    }
}

/// The keys of groups of entries, as a multiset.
pub open spec fn groups_ms(gs: Seq<Seq<FetchEntry>>) -> Multiset<Seq<u8>>
    decreases gs.len(),
{
    if gs.len() == 0 {
        Multiset::empty()
    } else {
        groups_ms(gs.drop_last()).add(keys_ms(gs.last()))
    }
}

/// The keys of needed files, as a multiset.
pub open spec fn needed_ms(ns: Seq<Needed>) -> Multiset<Seq<u8>>
    decreases ns.len(),
{
    if ns.len() == 0 {
        Multiset::empty()
    } else {
        needed_ms(ns.drop_last()).insert(ns.last().ekey@)
    }
}

proof fn lemma_keys_ms_concat(a: Seq<FetchEntry>, b: Seq<FetchEntry>)
    ensures
        keys_ms(a + b) == keys_ms(a).add(keys_ms(b)),
    decreases b.len(),
{
    broadcast use vstd::multiset::group_multiset_axioms;
    if b.len() == 0 {
        assert(a + b =~= a);
        assert(keys_ms(a).add(Multiset::empty()) =~= keys_ms(a));
    } else {
        lemma_keys_ms_concat(a, b.drop_last());
        assert((a + b).drop_last() =~= a + b.drop_last());
        assert((a + b).last() == b.last());
        assert(keys_ms(a + b) =~= keys_ms(a).add(keys_ms(b)));
    }
}

proof fn lemma_jobs_ms_concat(a: Seq<JobModel>, b: Seq<JobModel>)
    ensures
        jobs_ms(a + b) == jobs_ms(a).add(jobs_ms(b)),
    decreases b.len(),
{
    broadcast use vstd::multiset::group_multiset_axioms;
    if b.len() == 0 {
        assert(a + b =~= a);
        assert(jobs_ms(a).add(Multiset::empty()) =~= jobs_ms(a));
    } else {
        lemma_jobs_ms_concat(a, b.drop_last());
        assert((a + b).drop_last() =~= a + b.drop_last());
        assert((a + b).last() == b.last());
        assert(jobs_ms(a + b) =~= jobs_ms(a).add(jobs_ms(b)));
    }
}

proof fn lemma_groups_ms_concat(a: Seq<Seq<FetchEntry>>, b: Seq<Seq<FetchEntry>>)
    ensures
        groups_ms(a + b) == groups_ms(a).add(groups_ms(b)),
    decreases b.len(),
{
    broadcast use vstd::multiset::group_multiset_axioms;
    if b.len() == 0 {
        assert(a + b =~= a);
        assert(groups_ms(a).add(Multiset::empty()) =~= groups_ms(a));
    } else {
        lemma_groups_ms_concat(a, b.drop_last());
        assert((a + b).drop_last() =~= a + b.drop_last());
        assert((a + b).last() == b.last());
        assert(groups_ms(a + b) =~= groups_ms(a).add(groups_ms(b)));
    }
}

proof fn lemma_insert_ms(s: Seq<FetchEntry>, e: FetchEntry)
    ensures
        keys_ms(insert_by_offset(s, e)) == keys_ms(s).insert(e.0),
    decreases s.len(),
{
    broadcast use vstd::multiset::group_multiset_axioms;
    if s.len() == 0 || s.last().1 <= e.1 {
        assert(s.push(e).drop_last() =~= s);
    } else {
        lemma_insert_ms(s.drop_last(), e);
        let t = insert_by_offset(s.drop_last(), e);
        assert(t.push(s.last()).drop_last() =~= t);
        assert(keys_ms(t.push(s.last())) =~= keys_ms(s).insert(e.0));
    }
}

proof fn lemma_sort_ms(s: Seq<FetchEntry>)
    ensures
        keys_ms(sort_by_offset(s)) == keys_ms(s),
    decreases s.len(),
{
    if s.len() > 0 {
        lemma_sort_ms(s.drop_last());
        lemma_insert_ms(sort_by_offset(s.drop_last()), s.last());
    }
}

/// The keys of the entries still open in a range.
pub open spec fn open_ms(cur: Option<(u64, u64, Seq<FetchEntry>)>) -> Multiset<Seq<u8>> {
    match cur {
        Some((_, _, ents)) => keys_ms(ents),
        None => Multiset::empty(),
    }
}

proof fn lemma_coalesce_ms(
    archive: u16,
    es: Seq<FetchEntry>,
    i: int,
    cur: Option<(u64, u64, Seq<FetchEntry>)>,
    acc: Seq<JobModel>,
)
    requires
        0 <= i <= es.len(),
    ensures
        jobs_ms(coalesce(archive, es, i, cur, acc)) == jobs_ms(acc).add(open_ms(cur)).add(
            keys_ms(es.subrange(i, es.len() as int)),
        ),
    decreases es.len() - i,
{
    broadcast use vstd::multiset::group_multiset_axioms;
    let rest = es.subrange(i, es.len() as int);
    if i >= es.len() {
        assert(rest =~= Seq::<FetchEntry>::empty());
        match cur {
            Some((start, end, ents)) => {
                let j = JobModel::Range { archive, start, end, entries: ents };
                assert(acc.push(j).drop_last() =~= acc);
                assert(jobs_ms(acc.push(j)) =~= jobs_ms(acc).add(open_ms(cur)).add(keys_ms(rest)));
            },
            None => {
                assert(jobs_ms(acc) =~= jobs_ms(acc).add(open_ms(cur)).add(keys_ms(rest)));
            },
        }
    } else {
        let x = es[i];
        let tail = es.subrange(i + 1, es.len() as int);
        assert(rest =~= seq![x] + tail);
        lemma_keys_ms_concat(seq![x], tail);
        assert(seq![x].drop_last() =~= Seq::<FetchEntry>::empty());
        assert(keys_ms(Seq::<FetchEntry>::empty()) == Multiset::<Seq<u8>>::empty());
        assert(seq![x].last() == x);
        assert(keys_ms(seq![x]) == keys_ms(seq![x].drop_last()).insert(seq![x].last().0));
        assert(keys_ms(seq![x]) =~= Multiset::empty().insert(x.0));
        let (k, offset, size) = x;
        match cur {
            Some((start, end, ents)) => {
                if joins(start, end, offset, size) {
                    let next = Some((start, (offset + size) as u64, ents.push(x)));
                    lemma_coalesce_ms(archive, es, i + 1, next, acc);
                    assert(ents.push(x).drop_last() =~= ents);
                    assert(jobs_ms(acc).add(open_ms(next)).add(keys_ms(tail)) =~= jobs_ms(acc).add(open_ms(cur)).add(
                        keys_ms(rest),
                    ));
                } else {
                    let j = JobModel::Range { archive, start, end, entries: ents };
                    let next = Some((offset, (offset + size) as u64, seq![x]));
                    lemma_coalesce_ms(archive, es, i + 1, next, acc.push(j));
                    assert(acc.push(j).drop_last() =~= acc);
                    assert(jobs_ms(acc.push(j)).add(open_ms(next)).add(keys_ms(tail)) =~= jobs_ms(acc).add(
                        open_ms(cur),
                    ).add(keys_ms(rest)));
                }
            },
            None => {
                let next = Some((offset, (offset + size) as u64, seq![x]));
                lemma_coalesce_ms(archive, es, i + 1, next, acc);
                assert(jobs_ms(acc).add(open_ms(next)).add(keys_ms(tail)) =~= jobs_ms(acc).add(open_ms(cur)).add(
                    keys_ms(rest),
                ));
            },
        }
    }
}

proof fn lemma_ranges_ms(archives: Seq<u16>, groups: Seq<Seq<FetchEntry>>, i: int, acc: Seq<JobModel>)
    requires
        archives.len() == groups.len(),
        0 <= i <= archives.len(),
    ensures
        jobs_ms(ranges(archives, groups, i, acc)) == jobs_ms(acc).add(
            groups_ms(groups.subrange(i, groups.len() as int)),
        ),
    decreases archives.len() - i,
{
    broadcast use vstd::multiset::group_multiset_axioms;
    let rest = groups.subrange(i, groups.len() as int);
    if i >= archives.len() {
        assert(rest =~= Seq::<Seq<FetchEntry>>::empty());
        assert(jobs_ms(acc) =~= jobs_ms(acc).add(groups_ms(rest)));
    } else {
        let sorted = sort_by_offset(groups[i]);
        let next = coalesce(archives[i], sorted, 0, None, acc);
        lemma_coalesce_ms(archives[i], sorted, 0, None, acc);
        assert(sorted.subrange(0, sorted.len() as int) =~= sorted);
        lemma_sort_ms(groups[i]);
        lemma_ranges_ms(archives, groups, i + 1, next);
        let tail = groups.subrange(i + 1, groups.len() as int);
        assert(rest =~= seq![groups[i]] + tail);
        lemma_groups_ms_concat(seq![groups[i]], tail);
        assert(seq![groups[i]].drop_last() =~= Seq::<Seq<FetchEntry>>::empty());
        assert(groups_ms(Seq::<Seq<FetchEntry>>::empty()) == Multiset::<Seq<u8>>::empty());
        assert(seq![groups[i]].last() == groups[i]);
        assert(groups_ms(seq![groups[i]]) == groups_ms(seq![groups[i]].drop_last()).add(keys_ms(seq![groups[i]].last())));
        assert(groups_ms(seq![groups[i]]) =~= Multiset::empty().add(keys_ms(groups[i])));
        assert(jobs_ms(next).add(groups_ms(tail)) =~= jobs_ms(acc).add(groups_ms(rest)));
    }
}

proof fn lemma_groups_ms_update(groups: Seq<Seq<FetchEntry>>, s: int, e: FetchEntry)
    requires
        0 <= s < groups.len(),
    ensures
        groups_ms(groups.update(s, groups[s].push(e))) == groups_ms(groups).insert(e.0),
    decreases groups.len(),
{
    broadcast use vstd::multiset::group_multiset_axioms;
    let u = groups.update(s, groups[s].push(e));
    assert(groups[s].push(e).drop_last() =~= groups[s]);
    if s == groups.len() - 1 {
        assert(u.drop_last() =~= groups.drop_last());
        assert(groups_ms(u) =~= groups_ms(groups).insert(e.0));
    } else {
        lemma_groups_ms_update(groups.drop_last(), s, e);
        assert(u.drop_last() =~= groups.drop_last().update(s, groups[s].push(e)));
        assert(u.last() == groups.last());
        assert(groups_ms(u) =~= groups_ms(groups).insert(e.0));
    }
}

proof fn lemma_group_ms(needed: Seq<Needed>, locs: Map<u128, ArchiveLocation>)
    ensures
        group(needed, locs).0.len() == group(needed, locs).1.len(),
        groups_ms(group(needed, locs).1).add(jobs_ms(group(needed, locs).2)) == needed_ms(needed),
    decreases needed.len(),
{
    broadcast use vstd::multiset::group_multiset_axioms;
    if needed.len() > 0 {
        lemma_group_ms(needed.drop_last(), locs);
        let (archives, groups, loose) = group(needed.drop_last(), locs);
        let n = needed.last();
        let k = key_number(n.ekey@);
        if locs.contains_key(k) {
            let loc = locs[k];
            let e = (n.ekey@, loc.offset as u64, loc.size as u64);
            if archives.contains(loc.archive) {
                let s = archives.index_of(loc.archive);
                lemma_groups_ms_update(groups, s, e);
                assert(groups_ms(groups.update(s, groups[s].push(e))).add(jobs_ms(loose)) =~= needed_ms(needed));
            } else {
                let g2 = groups.push(seq![e]);
                assert(g2.drop_last() =~= groups);
                assert(seq![e].drop_last() =~= Seq::<FetchEntry>::empty());
                assert(keys_ms(Seq::<FetchEntry>::empty()) == Multiset::<Seq<u8>>::empty());
                assert(seq![e].last() == e);
                assert(keys_ms(seq![e]) == keys_ms(seq![e].drop_last()).insert(seq![e].last().0));
                assert(g2.last() == seq![e]);
                assert(groups_ms(g2) == groups_ms(groups).add(keys_ms(seq![e])));
                assert(needed_ms(needed) == needed_ms(needed.drop_last()).insert(e.0));
                assert(groups_ms(g2).add(jobs_ms(loose)) =~= needed_ms(needed));
            }
        } else {
            let j = JobModel::Loose { ekey: n.ekey@, size: n.size };
            assert(loose.push(j).drop_last() =~= loose);
            assert(groups_ms(groups).add(jobs_ms(loose.push(j))) =~= needed_ms(needed));
        }
    }
}

/// Every needed file is fetched exactly once: the keys of the jobs of
/// [`make_jobs`], range entries and loose files together, are the needed
/// keys, each as often as it is needed.
pub proof fn lemma_make_jobs_cover(needed: Seq<Needed>, locs: Map<u128, ArchiveLocation>)
    ensures
        jobs_ms(spec_make_jobs(needed, locs)) == needed_ms(needed),
{
    broadcast use vstd::multiset::group_multiset_axioms;
    let (archives, groups, loose) = group(needed, locs);
    lemma_group_ms(needed, locs);
    lemma_ranges_ms(archives, groups, 0, Seq::empty());
    assert(groups.subrange(0, groups.len() as int) =~= groups);
    lemma_jobs_ms_concat(ranges(archives, groups, 0, Seq::empty()), loose);
    assert(jobs_ms(Seq::<JobModel>::empty()).add(groups_ms(groups)) =~= groups_ms(groups));
}

/// Each entry of `es` starts where the one before it ends, or at most
/// [`MAX_GAP`] bytes later.
pub open spec fn chained(es: Seq<FetchEntry>) -> bool {
    forall|k: int|
        0 <= k < es.len() - 1 ==> es[k].1 + es[k].2 <= (#[trigger] es[k + 1]).1 && es[k + 1].1 <= es[k].1 + es[k].2
            + MAX_GAP
}

/// A range job covers its entries exactly: it has some, they are chained
/// (so in offset order), and it runs from the first's offset to the end of
/// the last. A loose job has no shape to keep.
pub open spec fn range_shape(j: JobModel) -> bool {
    match j {
        JobModel::Range { start, end, entries, .. } => entries.len() > 0 && start == entries[0].1 && end
            == entries.last().1 + entries.last().2 && chained(entries),
        JobModel::Loose { .. } => true,
    }
}

/// The loose jobs of `needed`: those without a location, in need order.
pub open spec fn loose_jobs(needed: Seq<Needed>, locs: Map<u128, ArchiveLocation>) -> Seq<JobModel>
    decreases needed.len(),
{
    if needed.len() == 0 {
        Seq::empty()
    } else {
        let n = needed.last();
        if locs.contains_key(key_number(n.ekey@)) {
            loose_jobs(needed.drop_last(), locs)
        } else {
            loose_jobs(needed.drop_last(), locs).push(JobModel::Loose { ekey: n.ekey@, size: n.size })
        }
    }
}

/// Every job is a well-shaped range.
pub open spec fn shaped_ranges(js: Seq<JobModel>) -> bool {
    forall|k: int| 0 <= k < js.len() ==> (#[trigger] js[k]) is Range && range_shape(js[k])
}

/// The open range of a coalescing pass covers its entries exactly.
pub open spec fn cur_shaped(cur: Option<(u64, u64, Seq<FetchEntry>)>) -> bool {
    match cur {
        Some((start, end, ents)) => range_shape(JobModel::Range { archive: 0, start, end, entries: ents }),
        None => true,
    }
}

proof fn lemma_push_shaped(js: Seq<JobModel>, j: JobModel)
    requires
        shaped_ranges(js),
        j is Range,
        range_shape(j),
    ensures
        shaped_ranges(js.push(j)),
{
    assert forall|k: int| 0 <= k < js.push(j).len() implies (#[trigger] js.push(j)[k]) is Range && range_shape(js.push(j)[k]) by {
        if k < js.len() {
            assert(js.push(j)[k] == js[k]);
        }
    }
}

proof fn lemma_coalesce_shape(
    archive: u16,
    es: Seq<FetchEntry>,
    i: int,
    cur: Option<(u64, u64, Seq<FetchEntry>)>,
    acc: Seq<JobModel>,
)
    requires
        0 <= i,
        small_entries(es),
        cur_shaped(cur),
        shaped_ranges(acc),
    ensures
        shaped_ranges(coalesce(archive, es, i, cur, acc)),
    decreases es.len() - i,
{
    if i >= es.len() {
        match cur {
            Some((start, end, ents)) => {
                lemma_push_shaped(acc, JobModel::Range { archive, start, end, entries: ents });
            },
            None => {},
        }
    } else {
        let (k, offset, size) = es[i];
        assert(offset < 0x1_0000_0000 && size < 0x1_0000_0000);
        let single = seq![es[i]];
        assert(single.last() == es[i] && single[0] == es[i]);
        assert(cur_shaped(Some((offset, (offset + size) as u64, single))));
        match cur {
            Some((start, end, ents)) => if joins(start, end, offset, size) {
                let more = ents.push(es[i]);
                assert(more.last() == es[i]);
                assert(more[0] == ents[0]);
                assert forall|q: int| 0 <= q < more.len() - 1 implies more[q].1 + more[q].2 <= (#[trigger] more[q
                    + 1]).1 && more[q + 1].1 <= more[q].1 + more[q].2 + MAX_GAP by {
                    if q < ents.len() - 1 {
                        assert(more[q] == ents[q] && more[q + 1] == ents[q + 1]);
                    } else {
                        assert(more[q] == ents.last());
                    }
                }
                lemma_coalesce_shape(archive, es, i + 1, Some((start, (offset + size) as u64, more)), acc);
            } else {
                lemma_push_shaped(acc, JobModel::Range { archive, start, end, entries: ents });
                lemma_coalesce_shape(
                    archive,
                    es,
                    i + 1,
                    Some((offset, (offset + size) as u64, single)),
                    acc.push(JobModel::Range { archive, start, end, entries: ents }),
                );
            },
            None => {
                lemma_coalesce_shape(archive, es, i + 1, Some((offset, (offset + size) as u64, single)), acc);
            },
        }
    }
}

proof fn lemma_ranges_shape(archives: Seq<u16>, groups: Seq<Seq<FetchEntry>>, i: int, acc: Seq<JobModel>)
    requires
        0 <= i,
        archives.len() == groups.len(),
        small_groups(groups),
        shaped_ranges(acc),
    ensures
        shaped_ranges(ranges(archives, groups, i, acc)),
    decreases archives.len() - i,
{
    if i < archives.len() {
        lemma_sort_small(groups[i]);
        lemma_coalesce_shape(archives[i], sort_by_offset(groups[i]), 0, None, acc);
        lemma_ranges_shape(archives, groups, i + 1, coalesce(archives[i], sort_by_offset(groups[i]), 0, None, acc));
    }
}

proof fn lemma_group_loose(needed: Seq<Needed>, locs: Map<u128, ArchiveLocation>)
    ensures
        group(needed, locs).2 == loose_jobs(needed, locs),
    decreases needed.len(),
{
    if needed.len() > 0 {
        lemma_group_loose(needed.drop_last(), locs);
    }
}

/// The shape of the fetch plan: first range jobs, each covering its
/// entries exactly (chained in offset order with gaps of at most
/// [`MAX_GAP`], from the first entry's offset to the last entry's end), then
/// one loose job for every needed key without a location, in need order.
pub proof fn lemma_make_jobs_shape(needed: Seq<Needed>, locs: Map<u128, ArchiveLocation>)
    ensures
        ({
            let js = spec_make_jobs(needed, locs);
            let l = loose_jobs(needed, locs);
            &&& js.len() >= l.len()
            &&& js.subrange(js.len() - l.len(), js.len() as int) == l
            &&& shaped_ranges(js.subrange(0, js.len() - l.len()))
        }),
{
    lemma_group_small(needed, locs);
    lemma_group_loose(needed, locs);
    let (archives, groups, loose) = group(needed, locs);
    lemma_ranges_shape(archives, groups, 0, Seq::empty());
    let rs = ranges(archives, groups, 0, Seq::empty());
    let js = rs + loose;
    assert(js.subrange(js.len() - loose.len(), js.len() as int) =~= loose);
    assert(js.subrange(0, js.len() - loose.len()) =~= rs);
}

/// Entry `e` is the location of its key in `locs`, in archive `archive`.
pub open spec fn entry_at(locs: Map<u128, ArchiveLocation>, archive: u16, e: FetchEntry) -> bool {
    let k = key_number(e.0);
    locs.contains_key(k) && locs[k].archive == archive && e.1 == locs[k].offset as u64 && e.2 == locs[k].size as u64
}

/// Every entry of `es` is its key's location in `archive`.
pub open spec fn all_at(locs: Map<u128, ArchiveLocation>, archive: u16, es: Seq<FetchEntry>) -> bool {
    forall|m: int| 0 <= m < es.len() ==> entry_at(locs, archive, #[trigger] es[m])
}

/// A job fetches keys where they are: a range job the locations of its
/// entries' keys in its archive, a loose job a key without a location.
pub open spec fn job_placed(locs: Map<u128, ArchiveLocation>, j: JobModel) -> bool {
    match j {
        JobModel::Range { archive, entries, .. } => all_at(locs, archive, entries),
        JobModel::Loose { ekey, .. } => !locs.contains_key(key_number(ekey)),
    }
}

/// Every job of `js` is placed.
pub open spec fn jobs_placed(locs: Map<u128, ArchiveLocation>, js: Seq<JobModel>) -> bool {
    forall|k: int| 0 <= k < js.len() ==> job_placed(locs, #[trigger] js[k])
}

proof fn lemma_group_placed(needed: Seq<Needed>, locs: Map<u128, ArchiveLocation>)
    ensures
        group(needed, locs).0.len() == group(needed, locs).1.len(),
        forall|s: int| 0 <= s < group(needed, locs).1.len() ==> all_at(locs, group(needed, locs).0[s], #[trigger] group(needed, locs).1[s]),
        jobs_placed(locs, group(needed, locs).2),
    decreases needed.len(),
{
    if needed.len() > 0 {
        lemma_group_placed(needed.drop_last(), locs);
        let (archives, groups, loose) = group(needed.drop_last(), locs);
        let (a2, g2, l2) = group(needed, locs);
        let n = needed.last();
        let k = key_number(n.ekey@);
        if locs.contains_key(k) {
            let loc = locs[k];
            let e = (n.ekey@, loc.offset as u64, loc.size as u64);
            assert(entry_at(locs, loc.archive, e));
            if archives.contains(loc.archive) {
                let si = archives.index_of(loc.archive);
                assert(archives[si] == loc.archive);
                assert forall|t: int| 0 <= t < g2.len() implies all_at(locs, a2[t], #[trigger] g2[t]) by {
                    if t == si {
                        assert forall|m: int| 0 <= m < g2[t].len() implies entry_at(locs, a2[t], #[trigger] g2[t][m]) by {
                            if m < groups[si].len() {
                                assert(g2[t][m] == groups[si][m]);
                            }
                        }
                    } else {
                        assert(g2[t] == groups[t]);
                    }
                }
            } else {
                assert forall|t: int| 0 <= t < g2.len() implies all_at(locs, a2[t], #[trigger] g2[t]) by {
                    if t < groups.len() {
                        assert(g2[t] == groups[t]);
                        assert(a2[t] == archives[t]);
                    } else {
                        assert(g2[t][0] == e);
                    }
                }
            }
        } else {
            assert forall|t: int| 0 <= t < l2.len() implies job_placed(locs, #[trigger] l2[t]) by {
                if t < loose.len() {
                    assert(l2[t] == loose[t]);
                }
            }
        }
    }
}

proof fn lemma_insert_placed(locs: Map<u128, ArchiveLocation>, a: u16, s: Seq<FetchEntry>, e: FetchEntry)
    requires
        all_at(locs, a, s),
        entry_at(locs, a, e),
    ensures
        all_at(locs, a, insert_by_offset(s, e)),
    decreases s.len(),
{
    if !(s.len() == 0 || s.last().1 <= e.1) {
        let p = s.drop_last();
        assert forall|m: int| 0 <= m < p.len() implies entry_at(locs, a, #[trigger] p[m]) by {
            assert(p[m] == s[m]);
        }
        lemma_insert_placed(locs, a, p, e);
        let t = insert_by_offset(p, e);
        assert forall|m: int| 0 <= m < t.push(s.last()).len() implies entry_at(locs, a, #[trigger] t.push(s.last())[m]) by {
            if m < t.len() {
                assert(t.push(s.last())[m] == t[m]);
            } else {
                assert(s.last() == s[s.len() - 1]);
            }
        }
    } else {
        assert forall|m: int| 0 <= m < s.push(e).len() implies entry_at(locs, a, #[trigger] s.push(e)[m]) by {
            if m < s.len() {
                assert(s.push(e)[m] == s[m]);
            }
        }
    }
}

proof fn lemma_sort_at(locs: Map<u128, ArchiveLocation>, a: u16, s: Seq<FetchEntry>)
    requires
        all_at(locs, a, s),
    ensures
        all_at(locs, a, sort_by_offset(s)),
    decreases s.len(),
{
    if s.len() > 0 {
        let p = s.drop_last();
        assert forall|m: int| 0 <= m < p.len() implies entry_at(locs, a, #[trigger] p[m]) by {
            assert(p[m] == s[m]);
        }
        lemma_sort_at(locs, a, p);
        assert(s.last() == s[s.len() - 1]);
        lemma_insert_placed(locs, a, sort_by_offset(p), s.last());
    }
}

proof fn lemma_push_placed(locs: Map<u128, ArchiveLocation>, js: Seq<JobModel>, j: JobModel)
    requires
        jobs_placed(locs, js),
        job_placed(locs, j),
    ensures
        jobs_placed(locs, js.push(j)),
{
    assert forall|k: int| 0 <= k < js.push(j).len() implies job_placed(locs, #[trigger] js.push(j)[k]) by {
        if k < js.len() {
            assert(js.push(j)[k] == js[k]);
        }
    }
}

proof fn lemma_coalesce_placed(
    locs: Map<u128, ArchiveLocation>,
    archive: u16,
    es: Seq<FetchEntry>,
    i: int,
    cur: Option<(u64, u64, Seq<FetchEntry>)>,
    acc: Seq<JobModel>,
)
    requires
        0 <= i,
        all_at(locs, archive, es),
        cur matches Some((_, _, ents)) ==> all_at(locs, archive, ents),
        jobs_placed(locs, acc),
    ensures
        jobs_placed(locs, coalesce(archive, es, i, cur, acc)),
    decreases es.len() - i,
{
    if i >= es.len() {
        match cur {
            Some((start, end, ents)) => {
                lemma_push_placed(locs, acc, JobModel::Range { archive, start, end, entries: ents });
            },
            None => {},
        }
    } else {
        let (k, offset, size) = es[i];
        let single = seq![es[i]];
        assert(single[0] == es[i]);
        assert(all_at(locs, archive, single));
        match cur {
            Some((start, end, ents)) => if joins(start, end, offset, size) {
                let more = ents.push(es[i]);
                assert forall|m: int| 0 <= m < more.len() implies entry_at(locs, archive, #[trigger] more[m]) by {
                    if m < ents.len() {
                        assert(more[m] == ents[m]);
                    }
                }
                lemma_coalesce_placed(locs, archive, es, i + 1, Some((start, (offset + size) as u64, more)), acc);
            } else {
                lemma_push_placed(locs, acc, JobModel::Range { archive, start, end, entries: ents });
                lemma_coalesce_placed(
                    locs,
                    archive,
                    es,
                    i + 1,
                    Some((offset, (offset + size) as u64, single)),
                    acc.push(JobModel::Range { archive, start, end, entries: ents }),
                );
            },
            None => {
                lemma_coalesce_placed(locs, archive, es, i + 1, Some((offset, (offset + size) as u64, single)), acc);
            },
        }
    }
}

proof fn lemma_ranges_placed(
    locs: Map<u128, ArchiveLocation>,
    archives: Seq<u16>,
    groups: Seq<Seq<FetchEntry>>,
    i: int,
    acc: Seq<JobModel>,
)
    requires
        0 <= i,
        archives.len() == groups.len(),
        forall|s: int| 0 <= s < groups.len() ==> all_at(locs, archives[s], #[trigger] groups[s]),
        jobs_placed(locs, acc),
    ensures
        jobs_placed(locs, ranges(archives, groups, i, acc)),
    decreases archives.len() - i,
{
    if i < archives.len() {
        lemma_sort_at(locs, archives[i], groups[i]);
        lemma_coalesce_placed(locs, archives[i], sort_by_offset(groups[i]), 0, None, acc);
        lemma_ranges_placed(locs, archives, groups, i + 1, coalesce(archives[i], sort_by_offset(groups[i]), 0, None, acc));
    }
}

/// Where each needed key is fetched: every range job holds only keys that
/// have a location, each at that location (its archive, offset and size),
/// and every loose job is a key without a location. With
/// [`lemma_make_jobs_cover`] (each needed key as often as it is needed) and
/// [`lemma_make_jobs_shape`] (ranges first, then the loose jobs in need
/// order), a needed key is fetched in exactly one job when the needed keys
/// are distinct.
pub proof fn lemma_make_jobs_placed(needed: Seq<Needed>, locs: Map<u128, ArchiveLocation>)
    ensures
        jobs_placed(locs, spec_make_jobs(needed, locs)),
{
    lemma_group_placed(needed, locs);
    let (archives, groups, loose) = group(needed, locs);
    lemma_ranges_placed(locs, archives, groups, 0, Seq::empty());
    let rs = ranges(archives, groups, 0, Seq::empty());
    assert forall|k: int| 0 <= k < (rs + loose).len() implies job_placed(locs, #[trigger] (rs + loose)[k]) by {
        if k < rs.len() {
            assert((rs + loose)[k] == rs[k]);
        } else {
            assert((rs + loose)[k] == loose[k - rs.len()]);
        }
    }
}

proof fn lemma_needed_count(ns: Seq<Needed>, k: Seq<u8>)
    requires
        forall|a: int, b: int| 0 <= a < b < ns.len() ==> (#[trigger] ns[a]).ekey@ != (#[trigger] ns[b]).ekey@,
    ensures
        needed_ms(ns).count(k) == (if exists|j: int| 0 <= j < ns.len() && (#[trigger] ns[j]).ekey@ == k { 1nat } else { 0nat }),
    decreases ns.len(),
{
    broadcast use vstd::multiset::group_multiset_axioms;
    if ns.len() > 0 {
        let p = ns.drop_last();
        assert forall|a: int, b: int| 0 <= a < b < p.len() implies (#[trigger] p[a]).ekey@ != (#[trigger] p[b]).ekey@ by {
            assert(p[a] == ns[a] && p[b] == ns[b]);
        }
        lemma_needed_count(p, k);
        let last = ns.last();
        assert(last == ns[ns.len() - 1]);
        if last.ekey@ == k {
            if exists|j: int| 0 <= j < p.len() && (#[trigger] p[j]).ekey@ == k {
                let j = choose|j: int| 0 <= j < p.len() && (#[trigger] p[j]).ekey@ == k;
                assert(ns[j] == p[j]);
            }
        } else {
            if exists|j: int| 0 <= j < ns.len() && (#[trigger] ns[j]).ekey@ == k {
                let j = choose|j: int| 0 <= j < ns.len() && (#[trigger] ns[j]).ekey@ == k;
                assert(j < p.len());
                assert(p[j] == ns[j]);
            }
            if exists|j: int| 0 <= j < p.len() && (#[trigger] p[j]).ekey@ == k {
                let j = choose|j: int| 0 <= j < p.len() && (#[trigger] p[j]).ekey@ == k;
                assert(ns[j] == p[j]);
            }
        }
    }
}

/// One job per key: when the needed keys are distinct, the jobs of
/// [`make_jobs`] fetch each needed key exactly once, and nothing else.
pub proof fn lemma_make_jobs_once(needed: Seq<Needed>, locs: Map<u128, ArchiveLocation>, k: Seq<u8>)
    requires
        forall|a: int, b: int| 0 <= a < b < needed.len() ==> (#[trigger] needed[a]).ekey@ != (#[trigger] needed[b]).ekey@,
    ensures
        jobs_ms(spec_make_jobs(needed, locs)).count(k) == (if exists|j: int| 0 <= j < needed.len() && (#[trigger] needed[j]).ekey@ == k {
            1nat
        } else {
            0nat
        }),
{
    lemma_make_jobs_cover(needed, locs);
    lemma_needed_count(needed, k);
}

} // verus!
