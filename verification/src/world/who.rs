//! The `who` query: which connected players a request lists, by race and
//! class masks, level range, zones, name, guild and words, and under the
//! faction and GM-visibility gates.

use vstd::prelude::*;
use crate::text::{chars_of, find_chars, first_occurrence, lowercase, unicode_lower};
use crate::world::presence::{ObjectGuid, PlayerPresenceSnapshotLikeCpp};
use crate::world::social::{GM_LEVEL_IN_WHO_LIST_LIKE_CPP, SEC_PLAYER_LIKE_CPP};

verus! {

/// Most rows a who answer carries.
pub const MAX_WHO_LIKE_CPP: usize = 49;
/// Most zones a request may name (the client's own limit).
pub const MAX_WHO_AREAS_LIKE_CPP: usize = 10;
/// Most words a request may carry (the client's own limit).
pub const MAX_WHO_WORDS_LIKE_CPP: usize = 4;
/// The highest level the client asks for.
pub const MAX_LEVEL_LIKE_CPP: i32 = 123;
/// The highest level a character can have.
pub const STRONG_MAX_LEVEL_LIKE_CPP: i32 = 255;

/// The bit of `race` in a race mask, if the race has one.
pub open spec fn spec_race_bit(race: u8) -> Option<u32> {
    if (1 <= race <= 11) || race == 22 || (24 <= race <= 32) {
        Some((race - 1) as u32)
    } else if race == 34 {
        Some(11)
    } else if race == 35 {
        Some(12)
    } else if race == 36 {
        Some(13)
    } else if race == 37 {
        Some(14)
    } else if race == 52 {
        Some(16)
    } else if race == 70 {
        Some(15)
    } else {
        None
    }
}

/// The race-mask bit of `race`.
pub fn race_bit_like_cpp(race: u8) -> (r: Option<u32>)
    ensures
        r == spec_race_bit(race),
{
    if (1 <= race && race <= 11) || race == 22 || (24 <= race && race <= 32) {
        Some((race - 1) as u32)
    } else if race == 34 {
        Some(11)
    } else if race == 35 {
        Some(12)
    } else if race == 36 {
        Some(13)
    } else if race == 37 {
        Some(14)
    } else if race == 52 {
        Some(16)
    } else if race == 70 {
        Some(15)
    } else {
        None
    }
}

/// Bit `bit` of `raw` is set.
pub open spec fn has_bit(raw: i64, bit: u32) -> bool {
    raw & (1i64 << bit) != 0
}

/// `raw` (a signed race mask) holds `race`.
pub open spec fn spec_race_mask_has(raw: i64, race: u8) -> bool {
    match spec_race_bit(race) {
        Some(bit) => bit < 64 && has_bit(raw, bit),
        None => false,
    }
}

/// Whether the race mask `raw` holds `race`.
pub fn race_mask_has_race_like_cpp(raw: i64, race: u8) -> (r: bool)
    ensures
        r == spec_race_mask_has(raw, race),
{
    match race_bit_like_cpp(race) {
        Some(bit) => bit < 64 && raw & (1i64 << bit) != 0,
        None => false,
    }
}

/// The request as the client sends it.
#[derive(Clone, Debug, PartialEq, Eq)]
pub struct WhoRequest {
    pub min_level: i32,
    pub max_level: i32,
    pub class_filter: i32,
    pub race_filter: i64,
    pub name: String,
    pub guild: String,
    pub words: Vec<String>,
    pub areas: Vec<i32>,
}

/// The request facts the scan uses: strings lowered, the level cap widened.
#[derive(Clone, Debug, PartialEq, Eq)]
pub struct WhoFilterLikeCpp {
    pub min_level: i32,
    pub max_level: i32,
    pub class_filter: i32,
    pub race_filter: i64,
    pub areas: Vec<i32>,
    pub name: String,
    pub guild: String,
    pub words: Vec<String>,
}

/// The views of a list of strings.
pub open spec fn strings_view(v: Seq<String>) -> Seq<Seq<char>> {
    v.map_values(|s: String| s@)
}

/// The lowercase forms of a list of texts.
pub open spec fn lowered_all(v: Seq<Seq<char>>) -> Seq<Seq<char>> {
    v.map_values(|s: Seq<char>| unicode_lower(s))
}

/// A who filter as plain values.
pub struct WhoFilterView {
    pub min_level: i32,
    pub max_level: i32,
    pub class_filter: i32,
    pub race_filter: i64,
    pub areas: Seq<i32>,
    pub name: Seq<char>,
    pub guild: Seq<char>,
    pub words: Seq<Seq<char>>,
}

impl View for WhoFilterLikeCpp {
    type V = WhoFilterView;

    open spec fn view(&self) -> WhoFilterView {
        WhoFilterView {
            min_level: self.min_level,
            max_level: self.max_level,
            class_filter: self.class_filter,
            race_filter: self.race_filter,
            areas: self.areas@,
            name: self.name@,
            guild: self.guild@,
            words: strings_view(self.words@),
        }
    }
}

/// The filter a request makes: a level cap at or above the client's
/// maximum becomes the strong maximum; name, guild and words are lowered.
pub open spec fn spec_filter_of(request: WhoRequest) -> WhoFilterView {
    WhoFilterView {
        min_level: request.min_level,
        max_level: if request.max_level >= MAX_LEVEL_LIKE_CPP { STRONG_MAX_LEVEL_LIKE_CPP } else { request.max_level },
        class_filter: request.class_filter,
        race_filter: request.race_filter,
        areas: request.areas@,
        name: unicode_lower(request.name@),
        guild: unicode_lower(request.guild@),
        words: lowered_all(strings_view(request.words@)),
    }
}

impl WhoFilterLikeCpp {
    /// The filter of `request`.
    pub fn from_request_like_cpp(request: &WhoRequest) -> (f: WhoFilterLikeCpp)
        ensures
            f@ == spec_filter_of(*request),
    {
        let max_level = if request.max_level >= MAX_LEVEL_LIKE_CPP { STRONG_MAX_LEVEL_LIKE_CPP } else { request.max_level };
        let mut words: Vec<String> = Vec::new();
        let n = request.words.len();
        let mut i: usize = 0;
        while i < n
            invariant
                n == request.words@.len(),
                i <= n,
                words@.len() == i,
                strings_view(words@) == lowered_all(strings_view(request.words@)).take(i as int),
            decreases n - i,
        {
            let w = lowercase(request.words[i].as_str());
            assert(strings_view(request.words@)[i as int] == request.words@[i as int]@);
            assert(lowered_all(strings_view(request.words@))[i as int] == unicode_lower(request.words@[i as int]@));
            let ghost prev = words@;
            words.push(w);
            proof {
                let target = lowered_all(strings_view(request.words@)).take(i + 1);
                assert forall|k: int| 0 <= k < i + 1 implies #[trigger] strings_view(words@)[k] == target[k] by {
                    if k < i {
                        assert(words@[k] == prev[k]);
                        assert(strings_view(prev)[k] == prev[k]@);
                    }
                }
                assert(strings_view(words@) =~= target);
            }
            i += 1;
        }
        assert(lowered_all(strings_view(request.words@)).take(n as int) =~= lowered_all(strings_view(request.words@)));
        let mut areas: Vec<i32> = Vec::new();
        let mut j: usize = 0;
        while j < request.areas.len()
            invariant
                j <= request.areas@.len(),
                areas@ == request.areas@.take(j as int),
            decreases request.areas@.len() - j,
        {
            areas.push(request.areas[j]);
            j += 1;
            assert(areas@ =~= request.areas@.take(j as int));
        }
        assert(request.areas@.take(j as int) =~= request.areas@);
        WhoFilterLikeCpp {
            min_level: request.min_level,
            max_level,
            class_filter: request.class_filter,
            race_filter: request.race_filter,
            areas,
            name: lowercase(request.name.as_str()),
            guild: lowercase(request.guild.as_str()),
            words,
        }
    }
}

/// The observing session's facts.
#[derive(Clone, Copy, Debug, PartialEq, Eq, Structural)]
pub struct WhoObserverLikeCpp {
    pub guid: ObjectGuid,
    pub race: u8,
    pub security: u8,
}

/// `needle` occurs in `hay` (`str::contains`).
pub open spec fn text_contains(hay: Seq<char>, needle: Seq<char>) -> bool {
    first_occurrence(hay, needle) is Some
}

/// Whether `hay` contains `needle`.
fn contains_text(hay: &[char], needle: &[char]) -> (r: bool)
    ensures
        r == text_contains(hay@, needle@),
{
    find_chars(hay, needle).is_some()
}

/// Some word of `words` is not empty and occurs in the name or the guild.
pub open spec fn some_word_shows(words: Seq<Seq<char>>, name: Seq<char>, guild: Seq<char>) -> bool {
    exists|i: int| 0 <= i < words.len() && #[trigger] word_shows(words[i], name, guild)
}

/// `word` is not empty and occurs in `name` or `guild`.
pub open spec fn word_shows(word: Seq<char>, name: Seq<char>, guild: Seq<char>) -> bool {
    word.len() > 0 && (text_contains(name, word) || text_contains(guild, word))
}

/// The class of `class` passes the class mask `mask` (a negative mask
/// passes every class).
pub open spec fn class_passes(mask: i32, class: u8) -> bool {
    mask < 0 || (class < 32 && mask & (1i32 << class) != 0)
}

/// Every gate of a who row: the target is in the world, on the observer's
/// team, not above the who-list security, visible to the observer (itself,
/// GM-visible, or to a GM of at least its security), within the level
/// range, of a class and race the masks hold, in a named zone if any are
/// named, and its lowered name contains the name filter, its lowered guild
/// name the guild filter, and some word occurs in either when words are
/// given.
pub open spec fn spec_who_matches(
    filter: WhoFilterView,
    observer: WhoObserverLikeCpp,
    observer_team: u32,
    target: PlayerPresenceSnapshotLikeCpp,
    target_team: u32,
    target_security: u8,
    guild_lower: Seq<char>,
) -> bool {
    let name = unicode_lower(target.player_name@);
    &&& target.is_in_world
    &&& target_team == observer_team
    &&& target_security <= GM_LEVEL_IN_WHO_LIST_LIKE_CPP
    &&& (observer.guid == target.guid || target.is_gm_visible
        || (observer.security != SEC_PLAYER_LIKE_CPP && target_security <= observer.security))
    &&& filter.min_level <= target.level <= filter.max_level
    &&& class_passes(filter.class_filter, target.class)
    &&& spec_race_mask_has(filter.race_filter, target.race)
    &&& (filter.areas.len() == 0 || filter.areas.contains(target.zone_id as i32))
    &&& (filter.name.len() == 0 || text_contains(name, filter.name))
    &&& (filter.guild.len() == 0 || text_contains(guild_lower, filter.guild))
    &&& (filter.words.len() == 0 || some_word_shows(filter.words, name, guild_lower))
}

fn class_ok(mask: i32, class: u8) -> (r: bool)
    ensures
        r == class_passes(mask, class),
{
    if mask < 0 {
        return true;
    }
    class < 32 && mask & (1i32 << class) != 0
}

fn area_listed(areas: &Vec<i32>, zone: i32) -> (r: bool)
    ensures
        r == areas@.contains(zone),
{
    let mut i: usize = 0;
    while i < areas.len()
        invariant
            i <= areas@.len(),
            forall|k: int| 0 <= k < i ==> areas@[k] != zone,
        decreases areas@.len() - i,
    {
        if areas[i] == zone {
            assert(areas@[i as int] == zone);
            return true;
        }
        i += 1;
    }
    false
}

fn words_show(words: &Vec<String>, name: &[char], guild: &[char]) -> (r: bool)
    ensures
        r == some_word_shows(strings_view(words@), name@, guild@),
{
    let ghost ws = strings_view(words@);
    let mut i: usize = 0;
    while i < words.len()
        invariant
            i <= words@.len(),
            ws == strings_view(words@),
            forall|k: int| 0 <= k < i ==> !word_shows(#[trigger] ws[k], name@, guild@),
        decreases words@.len() - i,
    {
        let w = chars_of(words[i].as_str());
        assert(ws[i as int] == w@);
        if w.len() > 0 && (contains_text(name, w.as_slice()) || contains_text(guild, w.as_slice())) {
            assert(word_shows(ws[i as int], name@, guild@));
            return true;
        }
        i += 1;
    }
    false
}

/// Whether `target` is a row of the who answer for `observer`.
pub fn who_target_matches_like_cpp(
    filter: &WhoFilterLikeCpp,
    observer: &WhoObserverLikeCpp,
    observer_team: u32,
    target: &PlayerPresenceSnapshotLikeCpp,
    target_team: u32,
    target_security: u8,
    target_guild_name_lower: &str,
) -> (r: bool)
    ensures
        r == spec_who_matches(filter@, *observer, observer_team, *target, target_team, target_security, target_guild_name_lower@),
        filter.areas@.len() > 0 && !filter.areas@.contains(target.zone_id as i32) ==> !r,
        r ==> target.is_in_world && target_team == observer_team && filter.min_level <= target.level <= filter.max_level,
        r ==> target_security <= GM_LEVEL_IN_WHO_LIST_LIKE_CPP,
        r ==> observer.guid == target.guid || target.is_gm_visible || (observer.security != SEC_PLAYER_LIKE_CPP
            && target_security <= observer.security),
        r ==> filter.class_filter < 0 || (target.class < 32 && filter.class_filter & (1i32 << target.class) != 0),
        r && filter.name@.len() > 0 ==> first_occurrence(unicode_lower(target.player_name@), filter.name@) is Some,
        r && filter.guild@.len() > 0 ==> first_occurrence(target_guild_name_lower@, filter.guild@) is Some,
{
    proof {
        lemma_who_zone_gate(filter@, *observer, observer_team, *target, target_team, target_security, target_guild_name_lower@, 0);
    }
    if !target.is_in_world {
        return false;
    }
    if target_team != observer_team {
        return false;
    }
    if target_security > GM_LEVEL_IN_WHO_LIST_LIKE_CPP {
        return false;
    }
    if observer.guid != target.guid && !target.is_gm_visible
        && (observer.security == SEC_PLAYER_LIKE_CPP || target_security > observer.security) {
        return false;
    }
    let level = target.level as i32;
    if level < filter.min_level || level > filter.max_level {
        return false;
    }
    if !class_ok(filter.class_filter, target.class) {
        return false;
    }
    if !race_mask_has_race_like_cpp(filter.race_filter, target.race) {
        return false;
    }
    if filter.areas.len() != 0 && !area_listed(&filter.areas, target.zone_id as i32) {
        return false;
    }
    let name = chars_of(lowercase(target.player_name.as_str()).as_str());
    let guild = chars_of(target_guild_name_lower);
    let name_filter = chars_of(filter.name.as_str());
    if !(name_filter.len() == 0 || contains_text(name.as_slice(), name_filter.as_slice())) {
        return false;
    }
    let guild_filter = chars_of(filter.guild.as_str());
    if guild_filter.len() != 0 && !contains_text(guild.as_slice(), guild_filter.as_slice()) {
        return false;
    }
    if filter.words.len() != 0 {
        if !words_show(&filter.words, name.as_slice(), guild.as_slice()) {
            return false;
        }
    }
    true
}

/// Positions as integers.
pub open spec fn positions(v: Seq<usize>) -> Seq<int> {
    v.map_values(|k: usize| k as int)
}

/// A connected player as the who scan sees it, with its team.
#[derive(Clone, Debug)]
pub struct WhoCandidate {
    pub presence: PlayerPresenceSnapshotLikeCpp,
    pub team: u32,
}

/// The positions, in order, of the first `n` candidates that pass every
/// gate (other sessions count as plain players without a guild).
pub open spec fn matching_rows(
    filter: WhoFilterView,
    observer: WhoObserverLikeCpp,
    observer_team: u32,
    cands: Seq<WhoCandidate>,
    n: int,
) -> Seq<int>
    decreases n,
{
    if n <= 0 {
        Seq::empty()
    } else {
        let before = matching_rows(filter, observer, observer_team, cands, n - 1);
        if spec_who_matches(filter, observer, observer_team, cands[n - 1].presence, cands[n - 1].team, SEC_PLAYER_LIKE_CPP, Seq::empty()) {
            before.push(n - 1)
        } else {
            before
        }
    }
}

/// The rows of a who answer: `None` when the request names more zones or
/// words than the client can send (it is dropped unanswered); else the
/// first 49 matching candidates, in scan order.
pub open spec fn spec_who_rows(
    request: WhoRequest,
    observer: WhoObserverLikeCpp,
    observer_team: u32,
    cands: Seq<WhoCandidate>,
) -> Option<Seq<int>> {
    if request.areas@.len() > MAX_WHO_AREAS_LIKE_CPP || request.words@.len() > MAX_WHO_WORDS_LIKE_CPP {
        None
    } else {
        let all = matching_rows(spec_filter_of(request), observer, observer_team, cands, cands.len() as int);
        Some(if all.len() <= MAX_WHO_LIKE_CPP { all } else { all.take(MAX_WHO_LIKE_CPP as int) })
    }
}

proof fn lemma_matching_rows_grow(
    filter: WhoFilterView,
    observer: WhoObserverLikeCpp,
    observer_team: u32,
    cands: Seq<WhoCandidate>,
    a: int,
    b: int,
)
    requires
        0 <= a <= b,
    ensures
        matching_rows(filter, observer, observer_team, cands, a).len() <= matching_rows(filter, observer, observer_team, cands, b).len(),
        matching_rows(filter, observer, observer_team, cands, b).take(
            matching_rows(filter, observer, observer_team, cands, a).len() as int,
        ) == matching_rows(filter, observer, observer_team, cands, a),
    decreases b - a,
{
    if a < b {
        lemma_matching_rows_grow(filter, observer, observer_team, cands, a, b - 1);
        let ra = matching_rows(filter, observer, observer_team, cands, a);
        let rb1 = matching_rows(filter, observer, observer_team, cands, b - 1);
        let rb = matching_rows(filter, observer, observer_team, cands, b);
        assert(rb.take(ra.len() as int) =~= rb1.take(ra.len() as int));
    } else {
        let ra = matching_rows(filter, observer, observer_team, cands, a);
        assert(ra.take(ra.len() as int) =~= ra);
    }
}

/// The who answer for `request` over `cands`, as candidate positions, with
/// the filter the request makes.
pub fn who_rows(
    request: &WhoRequest,
    observer: &WhoObserverLikeCpp,
    observer_team: u32,
    cands: &[WhoCandidate],
) -> (r: Option<Vec<usize>>)
    ensures
        match r {
            None => spec_who_rows(*request, *observer, observer_team, cands@) is None,
            Some(rows) => spec_who_rows(*request, *observer, observer_team, cands@)
                == Some(positions(rows@)),
        },
{
    if request.areas.len() > MAX_WHO_AREAS_LIKE_CPP || request.words.len() > MAX_WHO_WORDS_LIKE_CPP {
        return None;
    }
    let filter = WhoFilterLikeCpp::from_request_like_cpp(request);
    let ghost all = matching_rows(filter@, *observer, observer_team, cands@, cands@.len() as int);
    let mut rows: Vec<usize> = Vec::new();
    let n = cands.len();
    let mut i: usize = 0;
    while i < n
        invariant_except_break
            n == cands@.len(),
            i <= n,
            positions(rows@) == matching_rows(filter@, *observer, observer_team, cands@, i as int),
            rows@.len() < MAX_WHO_LIKE_CPP,
            all == matching_rows(filter@, *observer, observer_team, cands@, n as int),
        ensures
            positions(rows@) == (if all.len() <= MAX_WHO_LIKE_CPP { all } else { all.take(MAX_WHO_LIKE_CPP as int) }),
        decreases n - i,
    {
        let c = &cands[i];
        let ghost before = rows@;
        proof {
            reveal_strlit("");
        }
        assert(""@ =~= Seq::<char>::empty());
        if who_target_matches_like_cpp(&filter, observer, observer_team, &c.presence, c.team, SEC_PLAYER_LIKE_CPP, "") {
            rows.push(i);
            assert(positions(rows@) =~= positions(before).push(i as int));
        }
        assert(positions(rows@) =~= matching_rows(filter@, *observer, observer_team, cands@, i + 1));
        i += 1;
        if rows.len() >= MAX_WHO_LIKE_CPP {
            proof {
                lemma_matching_rows_grow(filter@, *observer, observer_team, cands@, i as int, n as int);
            }
            break;
        }
    }
    Some(rows)
}

/// Every row of a who answer is a candidate that passes every gate, rows
/// come in scan order without repeats, and there are at most 49.
pub proof fn lemma_who_rows_gated(
    request: WhoRequest,
    observer: WhoObserverLikeCpp,
    observer_team: u32,
    cands: Seq<WhoCandidate>,
)
    ensures
        spec_who_rows(request, observer, observer_team, cands) matches Some(rows) ==> {
            &&& rows.len() <= MAX_WHO_LIKE_CPP
            &&& forall|k: int| 0 <= k < rows.len() ==> 0 <= #[trigger] rows[k] < cands.len()
                && spec_who_matches(spec_filter_of(request), observer, observer_team, cands[rows[k]].presence,
                    cands[rows[k]].team, SEC_PLAYER_LIKE_CPP, Seq::empty())
            &&& forall|a: int, b: int| 0 <= a < b < rows.len() ==> rows[a] < rows[b]
        },
{
    let f = spec_filter_of(request);
    lemma_matching_rows_props(f, observer, observer_team, cands, cands.len() as int);
}

proof fn lemma_matching_rows_props(
    filter: WhoFilterView,
    observer: WhoObserverLikeCpp,
    observer_team: u32,
    cands: Seq<WhoCandidate>,
    n: int,
)
    requires
        0 <= n <= cands.len(),
    ensures
        ({
            let rows = matching_rows(filter, observer, observer_team, cands, n);
            &&& forall|k: int| 0 <= k < rows.len() ==> 0 <= #[trigger] rows[k] < n
                && spec_who_matches(filter, observer, observer_team, cands[rows[k]].presence, cands[rows[k]].team,
                    SEC_PLAYER_LIKE_CPP, Seq::empty())
            &&& forall|a: int, b: int| 0 <= a < b < rows.len() ==> rows[a] < rows[b]
        }),
    decreases n,
{
    if n > 0 {
        lemma_matching_rows_props(filter, observer, observer_team, cands, n - 1);
    }
}

/// The zone gate of a who query: when the query names zones, a target in
/// none of them is never listed; when it names none, or when the target's
/// zone and another zone are both named, moving the target to the other
/// zone does not change whether it is listed.
pub proof fn lemma_who_zone_gate(
    filter: WhoFilterView,
    observer: WhoObserverLikeCpp,
    observer_team: u32,
    target: PlayerPresenceSnapshotLikeCpp,
    target_team: u32,
    target_security: u8,
    guild_lower: Seq<char>,
    zone: u32,
)
    ensures
        filter.areas.len() > 0 && !filter.areas.contains(target.zone_id as i32) ==> !spec_who_matches(
            filter,
            observer,
            observer_team,
            target,
            target_team,
            target_security,
            guild_lower,
        ),
        (filter.areas.len() == 0 || (filter.areas.contains(target.zone_id as i32) && filter.areas.contains(zone as i32)))
            ==> spec_who_matches(filter, observer, observer_team, target, target_team, target_security, guild_lower)
            == spec_who_matches(
            filter,
            observer,
            observer_team,
            PlayerPresenceSnapshotLikeCpp { zone_id: zone, ..target },
            target_team,
            target_security,
            guild_lower,
        ),
{
}

} // verus!
