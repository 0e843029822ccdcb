//! Connected-presence projection read by the social and `who` handlers:
//! identity, level, zone, AFK/DND flags, GM mode and GM visibility of one
//! connected player, published as one owned snapshot.

use vstd::prelude::*;

verus! {

/// `PLAYER_EXTRA_GM_INVISIBLE`: the extra-flags bit of a GM who made
/// himself invisible.
pub const PLAYER_EXTRA_GM_INVISIBLE_LIKE_CPP: u32 = 0x0010;

/// A 128-bit object identifier, as its two halves.
#[derive(Clone, Copy, Debug, PartialEq, Eq, Structural)]
pub struct ObjectGuid {
    pub high: i64,
    pub low: i64,
}

impl ObjectGuid {
    /// The identifier with halves `high` and `low`.
    pub fn new(high: i64, low: i64) -> (g: ObjectGuid)
        ensures
            g.high == high,
            g.low == low,
    {
        ObjectGuid { high, low }
    }
}

/// One registration of a connected character: its identifier and the
/// generation that tells a re-login apart.
#[derive(Clone, Copy, Debug, PartialEq, Eq, Structural)]
pub struct PlayerRegistration {
    pub guid: ObjectGuid,
    pub generation: u64,
}

/// Owned presence facts of one connected incarnation.
#[derive(Clone, Debug, PartialEq, Eq)]
pub struct PlayerPresenceSnapshotLikeCpp {
    pub registration: PlayerRegistration,
    pub guid: ObjectGuid,
    pub player_name: String,
    pub account_id: u32,
    pub battlenet_account_id: u32,
    /// The recruiter's account of the session.
    pub recruiter_id: u32,
    pub race: u8,
    pub class: u8,
    pub sex: u8,
    pub level: u8,
    pub zone_id: u32,
    /// On a map and not loading, as the who list sees it.
    pub is_in_world: bool,
    pub is_afk: bool,
    pub is_dnd: bool,
    /// GM mode on.
    pub is_game_master: bool,
    /// The GM-invisible extra flag is clear.
    pub is_gm_visible: bool,
    /// The guild of the character; `None` without one.
    pub guild_id: Option<u64>,
}

/// Who a registered character is (set at login).
#[derive(Clone, Debug)]
pub struct PlayerIdentity {
    pub player_name: String,
    pub account_id: u32,
    pub battlenet_account_id: u32,
    pub recruiter_id: u32,
    pub race: u8,
    pub class: u8,
    pub sex: u8,
}

/// Where a registered character stands, as the directory publishes it.
#[derive(Clone, Copy, Debug)]
pub struct PlayerPlacement {
    pub map_id: u32,
    pub instance_id: u32,
    pub level: u8,
    pub is_in_world: bool,
}

/// The facts that only the character object on its map holds.
#[derive(Clone, Copy, Debug)]
pub struct CanonicalPlayer {
    pub is_afk: bool,
    pub is_dnd: bool,
    pub is_game_master: bool,
    pub extra_flags: u32,
    pub zone_id: u32,
    pub guild_id: Option<u64>,
}

/// One directory entry.
#[derive(Clone, Debug)]
pub struct PlayerRegistryEntry {
    pub guid: ObjectGuid,
    pub generation: u64,
    pub identity: PlayerIdentity,
    pub placement: PlayerPlacement,
}

/// A character object as a map holds it.
#[derive(Clone, Copy, Debug)]
pub struct MapResident {
    pub guid: ObjectGuid,
    pub map_id: u32,
    pub instance_id: u32,
    pub player: CanonicalPlayer,
}

/// The connected-player directory: one entry per character identifier,
/// in registration order, and the character objects that the maps hold.
pub struct PlayerRegistry {
    entries: Vec<PlayerRegistryEntry>,
    residents: Vec<MapResident>,
}

/// The index of the first entry of `guid`, if any.
pub open spec fn entry_index(entries: Seq<PlayerRegistryEntry>, guid: ObjectGuid) -> Option<int> {
    if exists|i: int| 0 <= i < entries.len() && #[trigger] entries[i].guid == guid {
        Some(choose|i: int| 0 <= i < entries.len() && #[trigger] entries[i].guid == guid
            && forall|j: int| 0 <= j < i ==> #[trigger] entries[j].guid != guid)
    } else {
        None
    }
}

/// The first character object that map `map_id`/`instance_id` holds for
/// `guid`, if any.
pub open spec fn resident_at(residents: Seq<MapResident>, guid: ObjectGuid, map_id: u32, instance_id: u32) -> Option<int> {
    if exists|i: int| 0 <= i < residents.len() && #[trigger] resides(residents[i], guid, map_id, instance_id) {
        Some(choose|i: int| 0 <= i < residents.len() && #[trigger] resides(residents[i], guid, map_id, instance_id)
            && forall|j: int| 0 <= j < i ==> !resides(#[trigger] residents[j], guid, map_id, instance_id))
    } else {
        None
    }
}

/// `r` is the object of `guid` on map `map_id`/`instance_id`.
pub open spec fn resides(r: MapResident, guid: ObjectGuid, map_id: u32, instance_id: u32) -> bool {
    r.guid == guid && r.map_id == map_id && r.instance_id == instance_id
}

/// The snapshot of `entry` with the facts of its character object `p`.
pub open spec fn snapshot_of(entry: PlayerRegistryEntry, p: CanonicalPlayer, s: PlayerPresenceSnapshotLikeCpp) -> bool {
    &&& s.registration == PlayerRegistration { guid: entry.guid, generation: entry.generation }
    &&& s.guid == entry.guid
    &&& s.player_name@ == entry.identity.player_name@
    &&& s.account_id == entry.identity.account_id
    &&& s.battlenet_account_id == entry.identity.battlenet_account_id
    &&& s.recruiter_id == entry.identity.recruiter_id
    &&& s.race == entry.identity.race
    &&& s.class == entry.identity.class
    &&& s.sex == entry.identity.sex
    &&& s.level == entry.placement.level
    &&& s.zone_id == p.zone_id
    &&& s.is_in_world == entry.placement.is_in_world
    &&& s.is_afk == p.is_afk
    &&& s.is_dnd == p.is_dnd
    &&& s.is_game_master == p.is_game_master
    &&& s.is_gm_visible == (p.extra_flags & PLAYER_EXTRA_GM_INVISIBLE_LIKE_CPP == 0)
    &&& s.guild_id == p.guild_id
}

/// The character object of the entry at index `e`, on the map its
/// placement names.
pub open spec fn canonical_of(entries: Seq<PlayerRegistryEntry>, residents: Seq<MapResident>, e: int) -> Option<int> {
    resident_at(residents, entries[e].guid, entries[e].placement.map_id, entries[e].placement.instance_id)
}

impl PlayerRegistry {
    /// The directory entries, in registration order.
    pub closed spec fn entries_view(&self) -> Seq<PlayerRegistryEntry> {
        self.entries@
    }

    /// The character objects that the maps hold.
    pub closed spec fn residents_view(&self) -> Seq<MapResident> {
        self.residents@
    }

    /// An empty directory.
    pub fn new() -> (r: PlayerRegistry)
        ensures
            r.entries_view().len() == 0,
            r.residents_view().len() == 0,
    {
        PlayerRegistry { entries: Vec::new(), residents: Vec::new() }
    }

    /// Registers `entry`, replacing the entry of the same identifier.
    pub fn register_or_replace(&mut self, entry: PlayerRegistryEntry)
        ensures
            final(self).entries_view() == {
                match entry_index(old(self).entries_view(), entry.guid) {
                    Some(i) => old(self).entries_view().update(i, entry),
                    None => old(self).entries_view().push(entry),
                }
            },
            final(self).residents_view() == old(self).residents_view(),
    {
        let n = self.entries.len();
        let mut i: usize = 0;
        while i < n
            invariant
                n == self.entries@.len(),
                self.entries@ == old(self).entries@,
                self.residents@ == old(self).residents@,
                forall|j: int| 0 <= j < i ==> #[trigger] self.entries@[j].guid != entry.guid,
            decreases n - i,
        {
            if self.entries[i].guid == entry.guid {
                proof {
                    let w = choose|k: int| 0 <= k < self.entries@.len() && #[trigger] self.entries@[k].guid == entry.guid
                        && forall|j: int| 0 <= j < k ==> #[trigger] self.entries@[j].guid != entry.guid;
                    assert(w == i) by {
                        if w > i {
                            assert(self.entries@[i as int].guid != entry.guid);
                        }
                    }
                }
                self.entries.set(i, entry);
                return;
            }
            i += 1;
        }
        self.entries.push(entry);
    }

    /// Puts the character object `resident` on its map.
    pub fn place(&mut self, resident: MapResident)
        ensures
            final(self).entries_view() == old(self).entries_view(),
            final(self).residents_view() == old(self).residents_view().push(resident),
    {
        self.residents.push(resident);
    }

    fn canonical_at(&self, guid: ObjectGuid, map_id: u32, instance_id: u32) -> (r: Option<CanonicalPlayer>)
        ensures
            match resident_at(self.residents_view(), guid, map_id, instance_id) {
                Some(i) => r == Some(self.residents_view()[i].player),
                None => r is None,
            },
    {
        let n = self.residents.len();
        let mut i: usize = 0;
        while i < n
            invariant
                n == self.residents@.len(),
                forall|j: int| 0 <= j < i ==> !resides(#[trigger] self.residents@[j], guid, map_id, instance_id),
            decreases n - i,
        {
            let r = self.residents[i];
            if r.guid == guid && r.map_id == map_id && r.instance_id == instance_id {
                proof {
                    assert(resides(self.residents@[i as int], guid, map_id, instance_id));
                    let w = choose|k: int| 0 <= k < self.residents@.len() && #[trigger] resides(self.residents@[k], guid, map_id, instance_id)
                        && forall|j: int| 0 <= j < k ==> !resides(#[trigger] self.residents@[j], guid, map_id, instance_id);
                    assert(w == i) by {
                        if w > i {
                            assert(!resides(self.residents@[i as int], guid, map_id, instance_id));
                        }
                    }
                }
                return Some(r.player);
            }
            i += 1;
        }
        None
    }

    fn presence_snapshot(&self, e: usize) -> (r: Option<PlayerPresenceSnapshotLikeCpp>)
        requires
            e < self.entries_view().len(),
        ensures
            match canonical_of(self.entries_view(), self.residents_view(), e as int) {
                Some(k) => r matches Some(s) && snapshot_of(self.entries_view()[e as int], self.residents_view()[k].player, s),
                None => r is None,
            },
    {
        let entry = &self.entries[e];
        let p = match self.canonical_at(entry.guid, entry.placement.map_id, entry.placement.instance_id) {
            Some(p) => p,
            None => return None,
        };
        Some(PlayerPresenceSnapshotLikeCpp {
            registration: PlayerRegistration { guid: entry.guid, generation: entry.generation },
            guid: entry.guid,
            player_name: entry.identity.player_name.clone(),
            account_id: entry.identity.account_id,
            battlenet_account_id: entry.identity.battlenet_account_id,
            recruiter_id: entry.identity.recruiter_id,
            race: entry.identity.race,
            class: entry.identity.class,
            sex: entry.identity.sex,
            level: entry.placement.level,
            zone_id: p.zone_id,
            is_in_world: entry.placement.is_in_world,
            is_afk: p.is_afk,
            is_dnd: p.is_dnd,
            is_game_master: p.is_game_master,
            is_gm_visible: p.extra_flags & PLAYER_EXTRA_GM_INVISIBLE_LIKE_CPP == 0,
            guild_id: p.guild_id,
        })
    }

    /// The presence facts of the current incarnation of `guid`: `None` when
    /// no entry holds it or its map holds no character object for it.
    pub fn presence_snapshot_like_cpp(&self, guid: ObjectGuid) -> (r: Option<PlayerPresenceSnapshotLikeCpp>)
        ensures
            match entry_index(self.entries_view(), guid) {
                None => r is None,
                Some(e) => match canonical_of(self.entries_view(), self.residents_view(), e) {
                    Some(k) => r matches Some(s) && snapshot_of(self.entries_view()[e], self.residents_view()[k].player, s),
                    None => r is None,
                },
            },
    {
        let n = self.entries.len();
        let mut i: usize = 0;
        while i < n
            invariant
                n == self.entries@.len(),
                forall|j: int| 0 <= j < i ==> #[trigger] self.entries@[j].guid != guid,
            decreases n - i,
        {
            if self.entries[i].guid == guid {
                proof {
                    let w = choose|k: int| 0 <= k < self.entries@.len() && #[trigger] self.entries@[k].guid == guid
                        && forall|j: int| 0 <= j < k ==> #[trigger] self.entries@[j].guid != guid;
                    assert(w == i) by {
                        if w > i {
                            assert(self.entries@[i as int].guid != guid);
                        }
                    }
                }
                return self.presence_snapshot(i);
            }
            i += 1;
        }
        None
    }

    /// A snapshot of every connected incarnation whose map holds its
    /// character object, in directory order.
    pub fn presence_snapshots_like_cpp(&self) -> (r: Vec<PlayerPresenceSnapshotLikeCpp>)
        ensures
            r@.len() == snapshot_count(self.entries_view(), self.residents_view(), self.entries_view().len() as int),
            forall|e: int| #![trigger canonical_of(self.entries_view(), self.residents_view(), e)]
                0 <= e < self.entries_view().len() && canonical_of(self.entries_view(), self.residents_view(), e) is Some ==> {
                    let k = snapshot_count(self.entries_view(), self.residents_view(), e);
                    snapshot_of(
                        self.entries_view()[e],
                        self.residents_view()[canonical_of(self.entries_view(), self.residents_view(), e)->0].player,
                        r@[k],
                    )
                },
    {
        let ghost es = self.entries@;
        let ghost rs = self.residents@;
        let mut out: Vec<PlayerPresenceSnapshotLikeCpp> = Vec::new();
        let n = self.entries.len();
        let mut i: usize = 0;
        while i < n
            invariant
                n == es.len(),
                es == self.entries_view(),
                rs == self.residents_view(),
                i <= n,
                out@.len() == snapshot_count(es, rs, i as int),
                forall|e: int| #![trigger canonical_of(es, rs, e)]
                    0 <= e < i && canonical_of(es, rs, e) is Some ==>
                        snapshot_of(es[e], rs[canonical_of(es, rs, e)->0].player, out@[snapshot_count(es, rs, e)]),
            decreases n - i,
        {
            proof { lemma_snapshot_count_le(es, rs, i as int); }
            let ghost prev = out@;
            match self.presence_snapshot(i) {
                Some(s) => {
                    out.push(s);
                },
                None => {},
            }
            proof {
                assert forall|e: int| #![trigger canonical_of(es, rs, e)]
                    0 <= e < i + 1 && canonical_of(es, rs, e) is Some implies
                        snapshot_of(es[e], rs[canonical_of(es, rs, e)->0].player, out@[snapshot_count(es, rs, e)]) by {
                    if e < i {
                        lemma_snapshot_count_mono(es, rs, e + 1, i as int);
                        lemma_snapshot_count_le(es, rs, e);
                        assert(snapshot_count(es, rs, e + 1) == snapshot_count(es, rs, e) + 1);
                        assert(out@[snapshot_count(es, rs, e)] == prev[snapshot_count(es, rs, e)]);
                    } else {
                        assert(snapshot_count(es, rs, e) == prev.len());
                    }
                }
            }
            i += 1;
        }
        out
    }
}

/// How many of the first `n` entries have a character object on their map.
pub open spec fn snapshot_count(entries: Seq<PlayerRegistryEntry>, residents: Seq<MapResident>, n: int) -> int
    decreases n,
{
    if n <= 0 {
        0
    } else {
        snapshot_count(entries, residents, n - 1) + if canonical_of(entries, residents, n - 1) is Some { 1int } else { 0int }
    }
}

proof fn lemma_snapshot_count_mono(entries: Seq<PlayerRegistryEntry>, residents: Seq<MapResident>, a: int, b: int)
    requires
        0 <= a <= b,
    ensures
        snapshot_count(entries, residents, a) <= snapshot_count(entries, residents, b),
    decreases b - a,
{
    if a < b {
        lemma_snapshot_count_mono(entries, residents, a, b - 1);
    }
}

proof fn lemma_snapshot_count_le(entries: Seq<PlayerRegistryEntry>, residents: Seq<MapResident>, n: int)
    requires
        n >= 0,
    ensures
        0 <= snapshot_count(entries, residents, n) <= n,
    decreases n,
{
    if n > 0 {
        lemma_snapshot_count_le(entries, residents, n - 1);
    }
}

/// No two entries hold the same character identifier.
pub open spec fn unique_guids(entries: Seq<PlayerRegistryEntry>) -> bool {
    forall|a: int, b: int| 0 <= a < b < entries.len() ==> (#[trigger] entries[a]).guid != (#[trigger] entries[b]).guid
}

/// Registering keeps one entry per character identifier: registering into
/// a directory without repeated identifiers (as every directory built by
/// `new` and `register_or_replace` is) gives one without repeated
/// identifiers, whose entry for the registered identifier is the new one.
pub proof fn lemma_register_keeps_unique(entries: Seq<PlayerRegistryEntry>, entry: PlayerRegistryEntry)
    requires
        unique_guids(entries),
    ensures
        ({
            let after = match entry_index(entries, entry.guid) {
                Some(i) => entries.update(i, entry),
                None => entries.push(entry),
            };
            &&& unique_guids(after)
            &&& entry_index(after, entry.guid) matches Some(j) && after[j] == entry
        }),
{
    match entry_index(entries, entry.guid) {
        Some(i) => {
            let after = entries.update(i, entry);
            assert(entries[i].guid == entry.guid);
            assert forall|a: int, b: int| 0 <= a < b < after.len() implies (#[trigger] after[a]).guid != (
            #[trigger] after[b]).guid by {
                assert(entries[a].guid != entries[b].guid);
            }
            assert(after[i].guid == entry.guid);
            lemma_entry_index_of(after, i);
        },
        None => {
            let after = entries.push(entry);
            assert forall|a: int, b: int| 0 <= a < b < after.len() implies (#[trigger] after[a]).guid != (
            #[trigger] after[b]).guid by {
                if b == entries.len() {
                    assert(after[a] == entries[a]);
                    assert(entries[a].guid != entry.guid);
                } else {
                    assert(after[a] == entries[a] && after[b] == entries[b]);
                }
            }
            assert(after[entries.len() as int] == entry);
            lemma_entry_index_of(after, entries.len() as int);
        },
    }
}

/// In a directory without repeated identifiers, the entry of the
/// identifier held at index `e` is the one at `e`: the snapshot of that
/// identifier ([`PlayerRegistry::presence_snapshot_like_cpp`]) is the one
/// the full list ([`PlayerRegistry::presence_snapshots_like_cpp`]) holds
/// for `e`.
pub proof fn lemma_entry_index_of(entries: Seq<PlayerRegistryEntry>, e: int)
    requires
        unique_guids(entries),
        0 <= e < entries.len(),
    ensures
        entry_index(entries, entries[e].guid) == Some(e),
{
    let g = entries[e].guid;
    assert(entries[e].guid == g);
    let w = choose|i: int| 0 <= i < entries.len() && #[trigger] entries[i].guid == g
        && forall|j: int| 0 <= j < i ==> #[trigger] entries[j].guid != g;
    assert(forall|j: int| 0 <= j < e ==> #[trigger] entries[j].guid != g);
    if w != e {
        if w < e {
            assert(entries[w].guid != entries[e].guid);
        } else {
            assert(entries[e].guid != entries[w].guid);
        }
    }
}

} // verus!
