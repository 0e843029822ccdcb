//! Tag selection over install/download manifests, and the Agent's `Tags`
//! string (`.build.info`).
//!
//! The Agent stores its selection as tag sets separated by `:`, each a
//! space-separated list where a trailing `?` marks an optional tag (e.g.
//! `Windows x86_64 EU? esES speech?:Windows x86_64 EU? esES text?`).
//!
//! Each set is evaluated per tag *type*: an entry matches a set when, for
//! every tag type that has tags in the set, it carries at least one of them
//! (`OR` inside a type, `AND` across types); the selection is the `OR` of the
//! sets. Names that are not tags of the manifest (`acct-ESP?`, `geoip-ES?`)
//! are ignored.

use vstd::prelude::*;
use crate::client::manifest::{Tag, TagModel, mask_has, tag_view, tags_view};
use crate::client::tables::strings_view;
use crate::text::{
    chars_eq, chars_of, pieces_view, split_char, split_on, split_words, string_of, trim_end_char,
    trim_end_matching, words,
};

verus! {

/// A parsed Agent `Tags` string: the tag sets, each a list of tag names.
#[derive(Debug, Clone, PartialEq, Eq)]
pub struct TagQuery {
    pub sets: Vec<Vec<String>>,
}

/// The names of one set: each word without its trailing `?`s, empty ones
/// dropped.
pub open spec fn set_names(ws: Seq<Seq<char>>) -> Seq<Seq<char>>
    decreases ws.len(),
{
    if ws.len() == 0 {
        Seq::empty()
    } else {
        let t = trim_end_char(ws.last(), '?');
        if t.len() == 0 {
            set_names(ws.drop_last())
        } else {
            set_names(ws.drop_last()).push(t)
        }
    }
}

/// The non-empty sets of the `:`-separated pieces.
pub open spec fn query_sets(pieces: Seq<Seq<char>>) -> Seq<Seq<Seq<char>>>
    decreases pieces.len(),
{
    if pieces.len() == 0 {
        Seq::empty()
    } else {
        let set = set_names(words(pieces.last()));
        if set.len() == 0 {
            query_sets(pieces.drop_last())
        } else {
            query_sets(pieces.drop_last()).push(set)
        }
    }
}

/// The sets of an Agent `Tags` string.
pub open spec fn spec_parse_agent(text: Seq<char>) -> Seq<Seq<Seq<char>>> {
    query_sets(split_char(text, ':'))
}

/// The model of a query: its sets of names.
pub open spec fn query_view(q: TagQuery) -> Seq<Seq<Seq<char>>> {
    q.sets@.map_values(|s: Vec<String>| strings_view(s@))
}

/// The first tag named `name`.
pub open spec fn tag_named(tags: Seq<TagModel>, name: Seq<char>) -> Option<int> {
    if exists|i: int| 0 <= i < tags.len() && #[trigger] tags[i].0 == name && (forall|j: int| 0 <= j < i ==> tags[j].0 != name) {
        Some(choose|i: int| 0 <= i < tags.len() && #[trigger] tags[i].0 == name && (forall|j: int| 0 <= j < i ==> tags[j].0 != name))
    } else {
        None
    }
}

/// The tags (by index) that the names of a set name, in set order.
pub open spec fn known_tags(tags: Seq<TagModel>, set: Seq<Seq<char>>) -> Seq<int>
    decreases set.len(),
{
    if set.len() == 0 {
        Seq::empty()
    } else {
        match tag_named(tags, set.last()) {
            Some(t) => known_tags(tags, set.drop_last()).push(t),
            None => known_tags(tags, set.drop_last()),
        }
    }
}

/// Entry `i` carries, for the type of every tag in `k`, some tag of `k` of
/// that type.
pub open spec fn every_type_hit(tags: Seq<TagModel>, k: Seq<int>, i: int) -> bool {
    forall|a: int| 0 <= a < k.len() ==> #[trigger] type_hit(tags, k, a, i)
}

/// Entry `i` carries some tag of `k` of the type of `k[a]`.
pub open spec fn type_hit(tags: Seq<TagModel>, k: Seq<int>, a: int, i: int) -> bool {
    exists|b: int| 0 <= b < k.len() && tags[k[b]].1 == tags[k[a]].1 && mask_has(tags[k[b]].2, i)
}

/// Entry `i` matches the set.
pub open spec fn set_matches(tags: Seq<TagModel>, set: Seq<Seq<char>>, i: int) -> bool {
    every_type_hit(tags, known_tags(tags, set), i)
}

/// Entry `i` matches one of the sets.
pub open spec fn selected(tags: Seq<TagModel>, sets: Seq<Seq<Seq<char>>>, i: int) -> bool {
    exists|s: int| 0 <= s < sets.len() && set_matches(tags, #[trigger] sets[s], i)
}

/// Tag indices as integers.
pub open spec fn indices(s: Seq<usize>) -> Seq<int> {
    s.map_values(|x: usize| x as int)
}

/// The first tag named `name`.
fn find_tag(tags: &[Tag], name: &[char]) -> (r: Option<usize>)
    ensures
        match r {
            Some(t) => tag_named(tags_view(tags@), name@) == Some(t as int),
            None => tag_named(tags_view(tags@), name@) is None,
        },
{
    let ghost tv = tags_view(tags@);
    let mut i: usize = 0;
    while i < tags.len()
        invariant
            i <= tags@.len(),
            tv == tags_view(tags@),
            forall|j: int| 0 <= j < i ==> tv[j].0 != name@,
        decreases tags@.len() - i,
    {
        let n = chars_of(tags[i].name.as_str());
        assert(tv[i as int].0 == n@);
        if chars_eq(n.as_slice(), name) {
            proof {
                let w = choose|w: int| 0 <= w < tv.len() && #[trigger] tv[w].0 == name@ && (forall|j: int| 0 <= j < w ==> tv[j].0 != name@);
                assert(tv[i as int].0 == name@);
                if w < i {
                } else if w > i {
                    assert(tv[i as int].0 != name@);
                }
            }
            return Some(i);
        }
        i += 1;
    }
    None
}

/// Whether entry `i` carries, for the type of every tag in `found`, some
/// tag of `found` of that type.
fn hits_every_type(tags: &[Tag], found: &Vec<usize>, i: usize) -> (r: bool)
    requires
        forall|a: int| 0 <= a < found@.len() ==> #[trigger] found@[a] < tags@.len(),
    ensures
        r == every_type_hit(tags_view(tags@), indices(found@), i as int),
{
    let ghost tv = tags_view(tags@);
    let ghost k = indices(found@);
    let mut a: usize = 0;
    while a < found.len()
        invariant
            a <= found@.len(),
            tv == tags_view(tags@),
            k == indices(found@),
            forall|x: int| 0 <= x < found@.len() ==> #[trigger] found@[x] < tags@.len(),
            forall|x: int| 0 <= x < a ==> #[trigger] type_hit(tv, k, x, i as int),
        decreases found@.len() - a,
    {
        let kind = tags[found[a]].kind;
        let mut b: usize = 0;
        let mut hit = false;
        while b < found.len() && !hit
            invariant
                b <= found@.len(),
                a < found@.len(),
                tv == tags_view(tags@),
                k == indices(found@),
                kind == tv[k[a as int]].1,
                forall|x: int| 0 <= x < found@.len() ==> #[trigger] found@[x] < tags@.len(),
                hit ==> exists|y: int| 0 <= y < k.len() && tv[k[y]].1 == tv[k[a as int]].1 && mask_has(tv[k[y]].2, i as int),
                !hit ==> forall|y: int| 0 <= y < b ==> !(tv[#[trigger] k[y]].1 == tv[k[a as int]].1 && mask_has(tv[k[y]].2, i as int)),
            decreases found@.len() - b, if hit { 0int } else { 1int },
        {
            let t = &tags[found[b]];
            assert(tv[k[b as int]] == tag_view(*t));
            if t.kind == kind && t.has(i) {
                hit = true;
            } else {
                b += 1;
            }
        }
        if !hit {
            assert(!type_hit(tv, k, a as int, i as int));
            return false;
        }
        assert(type_hit(tv, k, a as int, i as int));
        a += 1;
    }
    true
}

impl TagQuery {
    /// Parses an Agent `Tags` string.
    pub fn parse_agent(text: &str) -> (r: Self)
        ensures
            query_view(r) == spec_parse_agent(text@),
    {
        let cs = chars_of(text);
        let pieces = split_on(cs.as_slice(), ':');
        let ghost pv = pieces_view(pieces@);
        let mut sets: Vec<Vec<String>> = Vec::new();
        let mut i: usize = 0;
        assert(sets@.map_values(|s: Vec<String>| strings_view(s@)) =~= query_sets(pv.take(0)));
        while i < pieces.len()
            invariant
                i <= pieces@.len(),
                pv == pieces_view(pieces@),
                sets@.map_values(|s: Vec<String>| strings_view(s@)) == query_sets(pv.take(i as int)),
            decreases pieces@.len() - i,
        {
            let ws = split_words(pieces[i].as_slice());
            let ghost wv = pieces_view(ws@);
            let mut set: Vec<String> = Vec::new();
            let mut j: usize = 0;
            assert(strings_view(set@) =~= set_names(wv.take(0)));
            while j < ws.len()
                invariant
                    j <= ws@.len(),
                    wv == pieces_view(ws@),
                    strings_view(set@) == set_names(wv.take(j as int)),
                decreases ws@.len() - j,
            {
                let t = trim_end_matching(ws[j].as_slice(), '?');
                assert(wv.take(j + 1).drop_last() =~= wv.take(j as int));
                assert(wv[j as int] == ws@[j as int]@);
                if t.len() > 0 {
                    let s = string_of(t.as_slice());
                    let ghost before = set@;
                    set.push(s);
                    assert(strings_view(set@) =~= strings_view(before).push(s@));
                }
                j += 1;
            }
            assert(wv.take(j as int) =~= wv);
            assert(pv.take(i + 1).drop_last() =~= pv.take(i as int));
            assert(pv[i as int] == pieces@[i as int]@);
            if set.len() > 0 {
                let ghost before = sets@;
                sets.push(set);
                assert(sets@.map_values(|s: Vec<String>| strings_view(s@)) =~= before.map_values(|s: Vec<String>| strings_view(s@)).push(strings_view(set@)));
            }
            i += 1;
        }
        assert(pv.take(i as int) =~= pv);
        TagQuery { sets }
    }

    /// Selection bitmap over `entries` entries of a manifest with `tags`.
    pub fn select(&self, tags: &[Tag], entries: usize) -> (r: Vec<bool>)
        ensures
            r@.len() == entries,
            forall|i: int| 0 <= i < entries ==> #[trigger] r@[i] == selected(tags_view(tags@), query_view(*self), i),
    {
        let ghost tv = tags_view(tags@);
        let ghost qv = query_view(*self);
        let mut sel: Vec<bool> = Vec::new();
        let mut i: usize = 0;
        while i < entries
            invariant
                i <= entries,
                sel@.len() == i,
                forall|x: int| 0 <= x < i ==> !#[trigger] sel@[x],
            decreases entries - i,
        {
            sel.push(false);
            i += 1;
        }
        let mut s: usize = 0;
        while s < self.sets.len()
            invariant
                s <= self.sets@.len(),
                tv == tags_view(tags@),
                qv == query_view(*self),
                sel@.len() == entries,
                forall|x: int| 0 <= x < entries ==> #[trigger] sel@[x] == (exists|y: int| 0 <= y < s && set_matches(tv, #[trigger] qv[y], x)),
            decreases self.sets@.len() - s,
        {
            let set = &self.sets[s];
            assert(qv[s as int] == strings_view(set@));
            let mut found: Vec<usize> = Vec::new();
            let mut a: usize = 0;
            assert(indices(found@) =~= known_tags(tv, strings_view(set@).take(0)));
            while a < set.len()
                invariant
                    a <= set@.len(),
                    tv == tags_view(tags@),
                    indices(found@) == known_tags(tv, strings_view(set@).take(a as int)),
                    forall|x: int| 0 <= x < found@.len() ==> #[trigger] found@[x] < tags@.len(),
                decreases set@.len() - a,
            {
                let name = chars_of(set[a].as_str());
                let ghost sv = strings_view(set@);
                assert(sv.take(a + 1).drop_last() =~= sv.take(a as int));
                assert(sv.take(a + 1).last() == name@);
                match find_tag(tags, name.as_slice()) {
                    Some(t) => {
                        proof {
                            let w = choose|w: int| 0 <= w < tv.len() && #[trigger] tv[w].0 == name@ && (forall|j: int| 0 <= j < w ==> tv[j].0 != name@);
                        }
                        let ghost before = found@;
                        found.push(t);
                        assert(indices(found@) =~= indices(before).push(t as int));
                    },
                    None => {},
                }
                a += 1;
            }
            assert(strings_view(set@).take(a as int) =~= strings_view(set@));
            let mut i: usize = 0;
            while i < entries
                invariant
                    i <= entries,
                    s < self.sets@.len(),
                    tv == tags_view(tags@),
                    qv == query_view(*self),
                    qv[s as int] == strings_view(set@),
                    indices(found@) == known_tags(tv, strings_view(set@)),
                    forall|x: int| 0 <= x < found@.len() ==> #[trigger] found@[x] < tags@.len(),
                    sel@.len() == entries,
                    forall|x: int| 0 <= x < i ==> #[trigger] sel@[x] == (exists|y: int| 0 <= y < s + 1 && set_matches(tv, #[trigger] qv[y], x)),
                    forall|x: int| i <= x < entries ==> #[trigger] sel@[x] == (exists|y: int| 0 <= y < s && set_matches(tv, #[trigger] qv[y], x)),
                decreases entries - i,
            {
                let hit = hits_every_type(tags, &found, i);
                proof {
                    assert(hit == set_matches(tv, qv[s as int], i as int));
                }
                if !sel[i] && hit {
                    sel.set(i, true);
                }
                proof {
                    let x = i as int;
                    if sel@[x] {
                        if hit {
                            assert(set_matches(tv, qv[s as int], x));
                        }
                    }
                    if exists|y: int| 0 <= y < s + 1 && set_matches(tv, #[trigger] qv[y], x) {
                        let y = choose|y: int| 0 <= y < s + 1 && set_matches(tv, #[trigger] qv[y], x);
                        if y < s {
                            assert(exists|y2: int| 0 <= y2 < s && set_matches(tv, #[trigger] qv[y2], x));
                        }
                    }
                }
                i += 1;
            }
            s += 1;
        }
        sel
    }
}

/// Whether every one of `names` is a tag and some entry carries all of them
/// (used to reject platform and architecture combinations the build does
/// not ship).
pub open spec fn spec_any_entry_with_all(tags: Seq<TagModel>, entries: int, names: Seq<Seq<char>>) -> bool {
    &&& forall|n: int| 0 <= n < names.len() ==> tag_named(tags, #[trigger] names[n]) is Some
    &&& exists|i: int| 0 <= i < entries && #[trigger] carries_all(tags, names, i)
}

/// Entry `i` carries the first tag of each of `names`.
pub open spec fn carries_all(tags: Seq<TagModel>, names: Seq<Seq<char>>, i: int) -> bool {
    forall|n: int| 0 <= n < names.len() ==> mask_has(tags[tag_named(tags, #[trigger] names[n]).unwrap()].2, i)
}

/// Whether any entry carries every one of `names`.
pub fn any_entry_with_all(tags: &[Tag], entries: usize, names: &[&str]) -> (r: bool)
    ensures
        r == spec_any_entry_with_all(tags_view(tags@), entries as int, names@.map_values(|n: &str| n@)),
{
    let ghost tv = tags_view(tags@);
    let ghost nv = names@.map_values(|n: &str| n@);
    let mut wanted: Vec<usize> = Vec::new();
    let mut k: usize = 0;
    while k < names.len()
        invariant
            k <= names@.len(),
            tv == tags_view(tags@),
            nv == names@.map_values(|n: &str| n@),
            wanted@.len() == k,
            forall|n: int| 0 <= n < k ==> tag_named(tv, #[trigger] nv[n]) == Some(wanted@[n] as int),
            forall|n: int| 0 <= n < k ==> #[trigger] wanted@[n] < tags@.len(),
        decreases names@.len() - k,
    {
        let name = chars_of(names[k]);
        assert(nv[k as int] == name@);
        match find_tag(tags, name.as_slice()) {
            Some(t) => {
                proof {
                    let w = choose|w: int| 0 <= w < tv.len() && #[trigger] tv[w].0 == name@ && (forall|j: int| 0 <= j < w ==> tv[j].0 != name@);
                }
                wanted.push(t);
            },
            None => {
                return false;
            },
        }
        k += 1;
    }
    let mut i: usize = 0;
    while i < entries
        invariant
            i <= entries,
            tv == tags_view(tags@),
            nv == names@.map_values(|n: &str| n@),
            wanted@.len() == nv.len(),
            forall|n: int| 0 <= n < nv.len() ==> tag_named(tv, #[trigger] nv[n]) == Some(wanted@[n] as int),
            forall|n: int| 0 <= n < nv.len() ==> #[trigger] wanted@[n] < tags@.len(),
            forall|x: int| 0 <= x < i ==> !#[trigger] carries_all(tv, nv, x),
        decreases entries - i,
    {
        let mut n: usize = 0;
        let mut all = true;
        while n < wanted.len() && all
            invariant
                n <= wanted@.len(),
                wanted@.len() == nv.len(),
                tv == tags_view(tags@),
                forall|m: int| 0 <= m < nv.len() ==> tag_named(tv, #[trigger] nv[m]) == Some(wanted@[m] as int),
                forall|m: int| 0 <= m < nv.len() ==> #[trigger] wanted@[m] < tags@.len(),
                all ==> forall|m: int| 0 <= m < n ==> mask_has(tv[tag_named(tv, #[trigger] nv[m]).unwrap()].2, i as int),
                !all ==> n < nv.len() && !mask_has(tv[tag_named(tv, nv[n as int]).unwrap()].2, i as int),
            decreases wanted@.len() - n, if all { 1int } else { 0int },
        {
            assert(tv[wanted@[n as int] as int] == tag_view(tags@[wanted@[n as int] as int]));
            if !tags[wanted[n]].has(i) {
                all = false;
            } else {
                n += 1;
            }
        }
        if all {
            assert(carries_all(tv, nv, i as int));
            return true;
        }
        i += 1;
    }
    false
}

/// `tag_named` is the first tag with the name: when there is one, it has
/// the name and no earlier tag has it; when there is none, no tag has it.
pub proof fn lemma_tag_named(tags: Seq<TagModel>, name: Seq<char>)
    ensures
        tag_named(tags, name) matches Some(t) ==> 0 <= t < tags.len() && tags[t].0 == name && forall|j: int|
            0 <= j < t ==> tags[j].0 != name,
        tag_named(tags, name) is None ==> forall|j: int| 0 <= j < tags.len() ==> tags[j].0 != name,
{
    if tag_named(tags, name) is None {
        assert forall|j: int| 0 <= j < tags.len() implies tags[j].0 != name by {
            if tags[j].0 == name {
                let first = choose|m: int| 0 <= m <= j && tags[m].0 == name && forall|q: int| 0 <= q < m ==> tags[q].0 != name;
                assert(exists|m: int| 0 <= m <= j && tags[m].0 == name && forall|q: int| 0 <= q < m ==> tags[q].0 != name) by {
                    lemma_first_with_name(tags, name, j);
                }
                assert(tags[first].0 == name);
            }
        }
    }
}

proof fn lemma_first_with_name(tags: Seq<TagModel>, name: Seq<char>, j: int)
    requires
        0 <= j < tags.len(),
        tags[j].0 == name,
    ensures
        exists|m: int| 0 <= m <= j && tags[m].0 == name && forall|q: int| 0 <= q < m ==> tags[q].0 != name,
    decreases j,
{
    if exists|q: int| 0 <= q < j && tags[q].0 == name {
        let q = choose|q: int| 0 <= q < j && tags[q].0 == name;
        lemma_first_with_name(tags, name, q);
    } else {
        assert(forall|q: int| 0 <= q < j ==> tags[q].0 != name);
    }
}

/// The tags a set names: every one is the first tag of some name of the
/// set, and the first tag of every name of the set that names a tag is
/// among them (names that are not tags are ignored).
pub proof fn lemma_known_tags(tags: Seq<TagModel>, set: Seq<Seq<char>>)
    ensures
        forall|a: int| 0 <= a < known_tags(tags, set).len() ==> exists|n: int| 0 <= n < set.len() && tag_named(
            tags,
            #[trigger] set[n],
        ) == Some(#[trigger] known_tags(tags, set)[a]),
        forall|n: int| 0 <= n < set.len() && (#[trigger] tag_named(tags, set[n])) is Some ==> exists|a: int|
            0 <= a < known_tags(tags, set).len() && known_tags(tags, set)[a] == tag_named(tags, set[n]).unwrap(),
    decreases set.len(),
{
    if set.len() > 0 {
        let p = set.drop_last();
        lemma_known_tags(tags, p);
        let kp = known_tags(tags, p);
        let k = known_tags(tags, set);
        assert forall|a: int| 0 <= a < k.len() implies exists|n: int| 0 <= n < set.len() && tag_named(
            tags,
            #[trigger] set[n],
        ) == Some(#[trigger] k[a]) by {
            if a < kp.len() {
                assert(k[a] == kp[a]);
                let n = choose|n: int| 0 <= n < p.len() && tag_named(tags, #[trigger] p[n]) == Some(kp[a]);
                assert(set[n] == p[n]);
            } else {
                assert(set[set.len() - 1] == set.last());
            }
        }
        assert forall|n: int| 0 <= n < set.len() && (#[trigger] tag_named(tags, set[n])) is Some implies exists|a: int|
            0 <= a < k.len() && k[a] == tag_named(tags, set[n]).unwrap() by {
            if n < p.len() {
                assert(set[n] == p[n]);
                assert(tag_named(tags, p[n]) is Some);
                let a = choose|a: int| 0 <= a < kp.len() && kp[a] == tag_named(tags, p[n]).unwrap();
                assert(k[a] == kp[a]);
            } else {
                assert(set[n] == set.last());
                assert(k[kp.len() as int] == tag_named(tags, set.last()).unwrap());
            }
        }
    }
}

/// The selection rule: an entry is selected exactly when some set, read as
/// the tags it names ([`lemma_known_tags`]), has for every one of those
/// tags a tag of the same type that the entry carries ([`every_type_hit`]:
/// `OR` inside a type, `AND` across types; `OR` across sets); a set that
/// names no tag selects every entry.
pub proof fn lemma_select_rule(tags: Seq<TagModel>, sets: Seq<Seq<Seq<char>>>, i: int)
    ensures
        selected(tags, sets, i) <==> exists|s: int|
            0 <= s < sets.len() && every_type_hit(tags, known_tags(tags, #[trigger] sets[s]), i),
        forall|s: int| 0 <= s < sets.len() && known_tags(tags, #[trigger] sets[s]).len() == 0 ==> selected(tags, sets, i),
{
    assert forall|s: int| 0 <= s < sets.len() && known_tags(tags, #[trigger] sets[s]).len() == 0 implies selected(
        tags,
        sets,
        i,
    ) by {
        assert(set_matches(tags, sets[s], i));
    }
}

/// Whether some entry carries all of `names`: exactly when every name is
/// the name of a tag (its first such tag is [`tag_named`], see
/// [`lemma_tag_named`]) and some entry carries, for each name, that first
/// tag ([`carries_all`]).
pub proof fn lemma_any_entry_with_all(tags: Seq<TagModel>, entries: int, names: Seq<Seq<char>>)
    ensures
        spec_any_entry_with_all(tags, entries, names) <==> (forall|n: int|
            0 <= n < names.len() ==> (#[trigger] tag_named(tags, names[n])) is Some) && exists|i: int|
            0 <= i < entries && #[trigger] carries_all(tags, names, i),
{
}

} // verus!
