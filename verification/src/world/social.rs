//! Friend-list presence: what a friend entry shows of a connected player,
//! who hears a login or logout, and the checks of the add-friend and
//! add-ignore requests.
//!
//! The faction team of a race is resolved by the session layer; the gates
//! take it as a plain value (`player_team`, `lister_team`, ...).

use vstd::prelude::*;
use crate::text::{char_to_uppercase, char_upper, chars_of, lower_each, lower_each_char, push_chars, slice_chars, string_of};
use crate::world::presence::{ObjectGuid, PlayerPresenceSnapshotLikeCpp};

verus! {

/// Friend status: offline.
pub const FRIEND_STATUS_OFFLINE_LIKE_CPP: u8 = 0x00;
/// Friend status: online.
pub const FRIEND_STATUS_ONLINE_LIKE_CPP: u8 = 0x01;
/// Friend status: away.
pub const FRIEND_STATUS_AFK_LIKE_CPP: u8 = 0x02;
/// Friend status: do not disturb.
pub const FRIEND_STATUS_DND_LIKE_CPP: u8 = 0x04;
/// Friend status: recruit-a-friend link.
pub const FRIEND_STATUS_RAF_LIKE_CPP: u8 = 0x08;

/// Social flag of a friend entry.
pub const SOCIAL_FLAG_FRIEND_LIKE_CPP: u32 = 0x01;
/// Social flag of an ignore entry.
pub const SOCIAL_FLAG_IGNORED_LIKE_CPP: u32 = 0x02;
/// Every social flag.
pub const SOCIAL_FLAG_ALL_LIKE_CPP: u32 = 0x07;

/// Most friends a list shows.
pub const SOCIALMGR_FRIEND_LIMIT_LIKE_CPP: u32 = 50;
/// Most ignored players a list shows.
pub const SOCIALMGR_IGNORE_LIMIT_LIKE_CPP: u32 = 50;

/// Highest account security that still appears in who lists and friend
/// lists (administrator).
pub const GM_LEVEL_IN_WHO_LIST_LIKE_CPP: u8 = 3;
/// Account security of a plain player.
pub const SEC_PLAYER_LIKE_CPP: u8 = 0;

/// Longest contact note, in characters.
pub const CONTACT_NOTE_MAX_CHARS: usize = 48;

/// The facts read from the observing player and session.
#[derive(Clone, Copy, Debug, PartialEq, Eq, Structural)]
pub struct SocialObserverLikeCpp {
    pub guid: ObjectGuid,
    pub race: u8,
    /// Account security of the observing session.
    pub security: u8,
    pub account_id: u32,
    pub recruiter_id: u32,
}

/// What a friend entry shows.
#[derive(Clone, Debug, PartialEq, Eq, Default)]
pub struct FriendInfoLikeCpp {
    pub status: u8,
    pub area: u32,
    pub level: u32,
    pub class: u32,
    pub note: String,
}

/// The answers of the friend and ignore requests.
#[derive(Clone, Copy, Debug, PartialEq, Eq, Structural)]
pub enum FriendsResult {
    NotFound,
    Self_,
    Enemy,
    Already,
    ListFull,
    AddedOnline,
    AddedOffline,
    Removed,
    IgnoreNotFound,
    IgnoreSelf,
    IgnoreAlready,
    IgnoreFull,
    IgnoreAdded,
    IgnoreRemoved,
}

/// `target` is visible to an observer `observer_guid` of security
/// `observer_security`: always to itself; to everyone when GM-visible;
/// otherwise only to a GM of at least the target's security.
pub open spec fn spec_visible_globally(
    target: PlayerPresenceSnapshotLikeCpp,
    target_security: u8,
    observer_guid: ObjectGuid,
    observer_security: u8,
) -> bool {
    if target.guid == observer_guid {
        true
    } else if target.is_gm_visible {
        true
    } else if observer_security != SEC_PLAYER_LIKE_CPP {
        target_security <= observer_security
    } else {
        false
    }
}

/// Whether `target` is visible to the observer.
pub fn is_visible_globally_for_like_cpp(
    target: &PlayerPresenceSnapshotLikeCpp,
    target_security: u8,
    observer_guid: ObjectGuid,
    observer_security: u8,
) -> (r: bool)
    ensures
        r == spec_visible_globally(*target, target_security, observer_guid, observer_security),
{
    if target.guid == observer_guid {
        return true;
    }
    if target.is_gm_visible {
        return true;
    }
    if observer_security != SEC_PLAYER_LIKE_CPP {
        return target_security <= observer_security;
    }
    false
}

/// The status bits of a visible friend: DND wins over AFK; a plain online
/// friend carries the recruit-a-friend bit when either account recruited
/// the other.
pub open spec fn spec_live_status(observer: SocialObserverLikeCpp, target: PlayerPresenceSnapshotLikeCpp) -> u8 {
    if target.is_dnd {
        FRIEND_STATUS_DND_LIKE_CPP
    } else if target.is_afk {
        FRIEND_STATUS_AFK_LIKE_CPP
    } else if target.recruiter_id == observer.account_id || target.account_id == observer.recruiter_id {
        FRIEND_STATUS_ONLINE_LIKE_CPP | FRIEND_STATUS_RAF_LIKE_CPP
    } else {
        FRIEND_STATUS_ONLINE_LIKE_CPP
    }
}

/// A friend entry with nothing shown but `note`.
pub open spec fn blank_info(info: FriendInfoLikeCpp, note: Seq<char>) -> bool {
    info.status == FRIEND_STATUS_OFFLINE_LIKE_CPP && info.area == 0 && info.level == 0 && info.class == 0
        && info.note@ == note
}

/// The friend entry of `target` for `observer`. An offline target shows
/// nothing, not even the note; an online one keeps the note, and shows its
/// live status, zone, level and class only when it is on the observer's
/// team and visible to it (the target counts as a plain player).
pub fn friend_info_like_cpp(
    observer: &SocialObserverLikeCpp,
    observer_team: u32,
    target: Option<&PlayerPresenceSnapshotLikeCpp>,
    target_team: u32,
    note_when_online: &str,
) -> (info: FriendInfoLikeCpp)
    ensures
        match target {
            None => blank_info(info, Seq::empty()),
            Some(t) => if target_team == observer_team
                && spec_visible_globally(*t, SEC_PLAYER_LIKE_CPP, observer.guid, observer.security) {
                &&& info.status == spec_live_status(*observer, *t)
                &&& info.area == t.zone_id
                &&& info.level == t.level
                &&& info.class == t.class
                &&& info.note@ == note_when_online@
            } else {
                blank_info(info, note_when_online@)
            },
        },
{
    let target = match target {
        Some(t) => t,
        None => {
            return FriendInfoLikeCpp { status: FRIEND_STATUS_OFFLINE_LIKE_CPP, area: 0, level: 0, class: 0, note: String::new() };
        },
    };
    let note = string_of(chars_of(note_when_online).as_slice());
    let target_security = SEC_PLAYER_LIKE_CPP;
    if target_team != observer_team
        || !is_visible_globally_for_like_cpp(target, target_security, observer.guid, observer.security) {
        return FriendInfoLikeCpp { status: FRIEND_STATUS_OFFLINE_LIKE_CPP, area: 0, level: 0, class: 0, note };
    }
    let status = if target.is_dnd {
        FRIEND_STATUS_DND_LIKE_CPP
    } else if target.is_afk {
        FRIEND_STATUS_AFK_LIKE_CPP
    } else if target.recruiter_id == observer.account_id || target.account_id == observer.recruiter_id {
        FRIEND_STATUS_ONLINE_LIKE_CPP | FRIEND_STATUS_RAF_LIKE_CPP
    } else {
        FRIEND_STATUS_ONLINE_LIKE_CPP
    };
    FriendInfoLikeCpp { status, area: target.zone_id, level: target.level as u32, class: target.class as u32, note }
}

/// The gates of a login or logout announcement: `lister` (connected, with
/// `player` on its friend list) hears of `player` only when `player` is not
/// above the who-list security level, both are on one team, and `player`
/// is visible to the lister.
pub open spec fn spec_lister_receives(
    player: PlayerPresenceSnapshotLikeCpp,
    player_security: u8,
    player_team: u32,
    lister: PlayerPresenceSnapshotLikeCpp,
    lister_security: u8,
    lister_team: u32,
) -> bool {
    player_security <= GM_LEVEL_IN_WHO_LIST_LIKE_CPP && lister_team == player_team
        && spec_visible_globally(player, player_security, lister.guid, lister_security)
}

/// Whether `lister` hears the announcement of `player`.
pub fn friend_lister_receives_broadcast_like_cpp(
    player: &PlayerPresenceSnapshotLikeCpp,
    player_security: u8,
    player_team: u32,
    lister: &PlayerPresenceSnapshotLikeCpp,
    lister_security: u8,
    lister_team: u32,
) -> (r: bool)
    ensures
        r == spec_lister_receives(*player, player_security, player_team, *lister, lister_security, lister_team),
{
    if player_security > GM_LEVEL_IN_WHO_LIST_LIKE_CPP {
        return false;
    }
    if lister_team != player_team {
        return false;
    }
    is_visible_globally_for_like_cpp(player, player_security, lister.guid, lister_security)
}

/// Whether the contact of social flags `flags` at position `i` of a stored
/// list is shown: the first fifty friends and the first fifty ignored
/// players are, counting in list order.
pub open spec fn contact_shown(flags: Seq<u32>, i: int) -> bool {
    (flags[i] & SOCIAL_FLAG_FRIEND_LIKE_CPP == 0 || flag_count(flags, i + 1, SOCIAL_FLAG_FRIEND_LIKE_CPP) <= SOCIALMGR_FRIEND_LIMIT_LIKE_CPP)
        && (flags[i] & SOCIAL_FLAG_IGNORED_LIKE_CPP == 0 || flag_count(flags, i + 1, SOCIAL_FLAG_IGNORED_LIKE_CPP) <= SOCIALMGR_IGNORE_LIMIT_LIKE_CPP)
}

/// How many of the first `n` contacts carry flag `bit`.
pub open spec fn flag_count(flags: Seq<u32>, n: int, bit: u32) -> nat
    decreases n,
{
    if n <= 0 {
        0
    } else {
        flag_count(flags, n - 1, bit) + if flags[n - 1] & bit != 0 { 1nat } else { 0nat }
    }
}

proof fn lemma_flag_count_le(flags: Seq<u32>, n: int, bit: u32)
    requires
        n >= 0,
    ensures
        flag_count(flags, n, bit) <= n,
    decreases n,
{
    if n > 0 {
        lemma_flag_count_le(flags, n - 1, bit);
    }
}

/// Which stored contacts the contact list shows, by position.
pub fn contacts_shown(flags: &[u32]) -> (r: Vec<bool>)
    ensures
        r@.len() == flags@.len(),
        forall|i: int| 0 <= i < flags@.len() ==> r@[i] == contact_shown(flags@, i),
{
    let mut out: Vec<bool> = Vec::new();
    let mut friends: u64 = 0;
    let mut ignored: u64 = 0;
    let n = flags.len();
    let mut i: usize = 0;
    while i < n
        invariant
            n == flags@.len(),
            i <= n,
            out@.len() == i,
            friends == flag_count(flags@, i as int, SOCIAL_FLAG_FRIEND_LIKE_CPP),
            ignored == flag_count(flags@, i as int, SOCIAL_FLAG_IGNORED_LIKE_CPP),
            forall|k: int| 0 <= k < i ==> out@[k] == contact_shown(flags@, k),
        decreases n - i,
    {
        proof {
            lemma_flag_count_le(flags@, i as int, SOCIAL_FLAG_FRIEND_LIKE_CPP);
            lemma_flag_count_le(flags@, i as int, SOCIAL_FLAG_IGNORED_LIKE_CPP);
        }
        let f = flags[i];
        let mut shown = true;
        if f & SOCIAL_FLAG_FRIEND_LIKE_CPP != 0 {
            friends += 1;
            if friends > SOCIALMGR_FRIEND_LIMIT_LIKE_CPP as u64 {
                shown = false;
            }
        }
        if f & SOCIAL_FLAG_IGNORED_LIKE_CPP != 0 {
            ignored += 1;
            if ignored > SOCIALMGR_IGNORE_LIMIT_LIKE_CPP as u64 {
                shown = false;
            }
        }
        out.push(shown);
        i += 1;
    }
    out
}

/// The note a contact keeps: its first 48 characters.
pub fn contact_note(notes: &str) -> (r: String)
    ensures
        r@ == (if notes@.len() <= CONTACT_NOTE_MAX_CHARS { notes@ } else { notes@.subrange(0, CONTACT_NOTE_MAX_CHARS as int) }),
{
    let cs = chars_of(notes);
    if cs.len() <= CONTACT_NOTE_MAX_CHARS {
        return string_of(cs.as_slice());
    }
    string_of(crate::text::slice_chars(cs.as_slice(), 0, CONTACT_NOTE_MAX_CHARS).as_slice())
}

/// What an add-friend request for a found character answers before the
/// entry is stored: `Some(answer)` refuses it, `None` lets it be stored.
pub open spec fn spec_add_friend_refusal(
    my_guid: ObjectGuid,
    my_team: u32,
    friend_guid: ObjectGuid,
    friend_team: u32,
    already_present: bool,
    relationship_count: i64,
) -> Option<FriendsResult> {
    if friend_guid == my_guid {
        Some(FriendsResult::Self_)
    } else if my_team != friend_team {
        Some(FriendsResult::Enemy)
    } else if already_present {
        Some(FriendsResult::Already)
    } else if relationship_count >= SOCIALMGR_FRIEND_LIMIT_LIKE_CPP {
        Some(FriendsResult::ListFull)
    } else {
        None
    }
}

/// The checks of an add-friend request, in their order: self, enemy
/// faction, already listed, list full.
pub fn add_friend_refusal(
    my_guid: ObjectGuid,
    my_team: u32,
    friend_guid: ObjectGuid,
    friend_team: u32,
    already_present: bool,
    relationship_count: i64,
) -> (r: Option<FriendsResult>)
    ensures
        r == spec_add_friend_refusal(my_guid, my_team, friend_guid, friend_team, already_present, relationship_count),
{
    if friend_guid == my_guid {
        return Some(FriendsResult::Self_);
    }
    if my_team != friend_team {
        return Some(FriendsResult::Enemy);
    }
    if already_present {
        return Some(FriendsResult::Already);
    }
    if relationship_count >= SOCIALMGR_FRIEND_LIMIT_LIKE_CPP as i64 {
        return Some(FriendsResult::ListFull);
    }
    None
}

/// What an add-ignore request for a found character answers before the
/// entry is stored.
pub open spec fn spec_add_ignore_refusal(
    my_guid: ObjectGuid,
    ignore_guid: ObjectGuid,
    already_present: bool,
    relationship_count: i64,
) -> Option<FriendsResult> {
    if ignore_guid == my_guid {
        Some(FriendsResult::IgnoreSelf)
    } else if already_present {
        Some(FriendsResult::IgnoreAlready)
    } else if relationship_count >= SOCIALMGR_IGNORE_LIMIT_LIKE_CPP {
        Some(FriendsResult::IgnoreFull)
    } else {
        None
    }
}

/// The checks of an add-ignore request, in their order: self, already
/// listed, list full (no faction check).
pub fn add_ignore_refusal(
    my_guid: ObjectGuid,
    ignore_guid: ObjectGuid,
    already_present: bool,
    relationship_count: i64,
) -> (r: Option<FriendsResult>)
    ensures
        r == spec_add_ignore_refusal(my_guid, ignore_guid, already_present, relationship_count),
{
    if ignore_guid == my_guid {
        return Some(FriendsResult::IgnoreSelf);
    }
    if already_present {
        return Some(FriendsResult::IgnoreAlready);
    }
    if relationship_count >= SOCIALMGR_IGNORE_LIMIT_LIKE_CPP as i64 {
        return Some(FriendsResult::IgnoreFull);
    }
    None
}

/// The answer once a friend was stored: online when the new friend is
/// connected and visible to the requester (the friend counts as a plain
/// player).
pub fn added_friend_result(
    friend: Option<&PlayerPresenceSnapshotLikeCpp>,
    my_guid: ObjectGuid,
    my_security: u8,
) -> (r: FriendsResult)
    ensures
        r == (match friend {
            Some(f) => if spec_visible_globally(*f, SEC_PLAYER_LIKE_CPP, my_guid, my_security) {
                FriendsResult::AddedOnline
            } else {
                FriendsResult::AddedOffline
            },
            None => FriendsResult::AddedOffline,
        }),
{
    match friend {
        Some(f) => if is_visible_globally_for_like_cpp(f, SEC_PLAYER_LIKE_CPP, my_guid, my_security) {
            FriendsResult::AddedOnline
        } else {
            FriendsResult::AddedOffline
        },
        None => FriendsResult::AddedOffline,
    }
}

/// A player name as the friend and ignore requests look it up: every
/// character lower-cased, then the first character upper-cased; `None` when
/// nothing is left.
pub open spec fn normalized_player_name(name: Seq<char>) -> Option<Seq<char>> {
    let lowered = lower_each(name);
    if lowered.len() == 0 {
        None
    } else {
        Some(char_upper(lowered[0]) + lowered.drop_first())
    }
}

/// Normalizes a requested player name (see [`normalized_player_name`]).
pub fn normalize_player_name_like_cpp(name: &str) -> (r: Option<String>)
    ensures
        match r {
            Some(n) => normalized_player_name(name@) == Some(n@),
            None => normalized_player_name(name@) is None,
        },
{
    let cs = chars_of(name);
    let lowered = lower_each_char(cs.as_slice());
    if lowered.len() == 0 {
        return None;
    }
    let mut out = char_to_uppercase(lowered[0]);
    let rest = slice_chars(lowered.as_slice(), 1, lowered.len());
    push_chars(&mut out, rest.as_slice());
    assert(rest@ =~= lowered@.drop_first());
    Some(string_of(out.as_slice()))
}

} // verus!
