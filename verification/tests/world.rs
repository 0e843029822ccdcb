use wow_tools::world::presence::{
    CanonicalPlayer, MapResident, ObjectGuid, PlayerIdentity, PlayerPlacement, PlayerPresenceSnapshotLikeCpp,
    PlayerRegistration, PlayerRegistry, PlayerRegistryEntry,
};
use wow_tools::world::social::{
    add_friend_refusal, normalize_player_name_like_cpp, add_ignore_refusal, contact_note, contacts_shown, friend_info_like_cpp,
    friend_lister_receives_broadcast_like_cpp, is_visible_globally_for_like_cpp, FriendInfoLikeCpp, FriendsResult,
    SocialObserverLikeCpp, FRIEND_STATUS_AFK_LIKE_CPP, FRIEND_STATUS_DND_LIKE_CPP, FRIEND_STATUS_OFFLINE_LIKE_CPP,
    FRIEND_STATUS_ONLINE_LIKE_CPP, FRIEND_STATUS_RAF_LIKE_CPP, GM_LEVEL_IN_WHO_LIST_LIKE_CPP,
};
use wow_tools::world::who::{
    race_bit_like_cpp, race_mask_has_race_like_cpp, who_rows, who_target_matches_like_cpp, WhoCandidate,
    WhoFilterLikeCpp, WhoObserverLikeCpp, WhoRequest,
};

const ALLIANCE_HUMAN: u8 = 1;
const HORDE_ORC: u8 = 2;
const CLASS_WARRIOR: u8 = 1;
const CLASS_MAGE: u8 = 8;
const SELF_COUNTER: i64 = 1;
/// Team ids as the session layer resolves them from the race.
const ALLIANCE: u32 = 469;
const HORDE: u32 = 67;

fn team(race: u8) -> u32 {
    if race == HORDE_ORC { HORDE } else { ALLIANCE }
}

fn player_guid(counter: i64) -> ObjectGuid {
    ObjectGuid::new(0, counter)
}

fn snapshot_like_cpp(counter: i64, name: &str, race: u8, class: u8, level: u8) -> PlayerPresenceSnapshotLikeCpp {
    let guid = player_guid(counter);
    PlayerPresenceSnapshotLikeCpp {
        registration: PlayerRegistration { guid, generation: 1 },
        guid,
        player_name: name.to_owned(),
        account_id: counter as u32,
        battlenet_account_id: 0,
        recruiter_id: 0,
        race,
        class,
        sex: 0,
        level,
        zone_id: 0,
        is_in_world: true,
        is_afk: false,
        is_dnd: false,
        is_game_master: false,
        is_gm_visible: true,
        guild_id: None,
    }
}

fn observer_like_cpp(security: u8) -> SocialObserverLikeCpp {
    SocialObserverLikeCpp {
        guid: player_guid(SELF_COUNTER),
        race: ALLIANCE_HUMAN,
        security,
        account_id: 1,
        recruiter_id: 0,
    }
}

fn info(observer: &SocialObserverLikeCpp, target: Option<&PlayerPresenceSnapshotLikeCpp>, note: &str) -> FriendInfoLikeCpp {
    friend_info_like_cpp(observer, team(observer.race), target, target.map_or(0, |t| team(t.race)), note)
}

#[test]
fn friend_info_offline_target_is_all_zero_and_drops_the_note() {
    let info = info(&observer_like_cpp(0), None, "raid");
    assert_eq!(info, FriendInfoLikeCpp::default());
}

#[test]
fn friend_info_online_same_team_target_reports_live_status_area_level_class_and_note() {
    let mut target = snapshot_like_cpp(2, "Jaina", ALLIANCE_HUMAN, CLASS_MAGE, 80);
    target.zone_id = 4395;
    let info = info(&observer_like_cpp(0), Some(&target), "raid");
    assert_eq!(
        info,
        FriendInfoLikeCpp {
            status: FRIEND_STATUS_ONLINE_LIKE_CPP,
            area: 4395,
            level: 80,
            class: u32::from(CLASS_MAGE),
            note: "raid".into(),
        }
    );
}

#[test]
fn friend_info_dnd_wins_over_afk_and_neither_carries_raf() {
    let mut target = snapshot_like_cpp(2, "Jaina", ALLIANCE_HUMAN, CLASS_MAGE, 80);
    target.is_afk = true;
    assert_eq!(info(&observer_like_cpp(0), Some(&target), "").status, FRIEND_STATUS_AFK_LIKE_CPP);
    target.is_dnd = true;
    assert_eq!(info(&observer_like_cpp(0), Some(&target), "").status, FRIEND_STATUS_DND_LIKE_CPP);
}

#[test]
fn friend_info_sets_raf_bit_for_either_recruiter_relation() {
    let mut target = snapshot_like_cpp(2, "Jaina", ALLIANCE_HUMAN, CLASS_MAGE, 80);
    let mut observer = observer_like_cpp(0);
    target.recruiter_id = observer.account_id;
    assert_eq!(
        info(&observer, Some(&target), "").status,
        FRIEND_STATUS_ONLINE_LIKE_CPP | FRIEND_STATUS_RAF_LIKE_CPP
    );
    target.recruiter_id = 0;
    observer.recruiter_id = target.account_id;
    assert_eq!(
        info(&observer, Some(&target), "").status,
        FRIEND_STATUS_ONLINE_LIKE_CPP | FRIEND_STATUS_RAF_LIKE_CPP
    );
}

#[test]
fn friend_info_enemy_team_target_keeps_the_note_but_stays_offline() {
    let target = snapshot_like_cpp(2, "Thrall", HORDE_ORC, CLASS_WARRIOR, 80);
    let info = info(&observer_like_cpp(0), Some(&target), "enemy");
    assert_eq!(
        info,
        FriendInfoLikeCpp {
            note: "enemy".into(),
            ..FriendInfoLikeCpp::default()
        }
    );
}

#[test]
fn friend_info_gm_invisible_target_is_offline_for_players_and_online_for_gms() {
    let mut target = snapshot_like_cpp(2, "Gamemaster", ALLIANCE_HUMAN, CLASS_MAGE, 80);
    target.is_gm_visible = false;
    assert_eq!(info(&observer_like_cpp(0), Some(&target), "").status, FRIEND_STATUS_OFFLINE_LIKE_CPP);
    assert_eq!(info(&observer_like_cpp(1), Some(&target), "").status, FRIEND_STATUS_ONLINE_LIKE_CPP);
}

#[test]
fn is_visible_globally_for_follows_cpp_branches() {
    let mut target = snapshot_like_cpp(2, "Gamemaster", ALLIANCE_HUMAN, CLASS_MAGE, 80);
    let observer = player_guid(SELF_COUNTER);
    assert!(is_visible_globally_for_like_cpp(&target, 0, observer, 0));
    target.is_gm_visible = false;
    assert!(is_visible_globally_for_like_cpp(&target, 3, target.guid, 0));
    assert!(!is_visible_globally_for_like_cpp(&target, 1, observer, 0));
    assert!(is_visible_globally_for_like_cpp(&target, 1, observer, 1));
    assert!(!is_visible_globally_for_like_cpp(&target, 2, observer, 1));
}

fn gate(player: &PlayerPresenceSnapshotLikeCpp, ps: u8, lister: &PlayerPresenceSnapshotLikeCpp, ls: u8) -> bool {
    friend_lister_receives_broadcast_like_cpp(player, ps, team(player.race), lister, ls, team(lister.race))
}

#[test]
fn lister_gate_same_team_visible_player_receives() {
    let player = snapshot_like_cpp(1, "Socialtest", ALLIANCE_HUMAN, CLASS_WARRIOR, 80);
    let lister = snapshot_like_cpp(2, "Jaina", ALLIANCE_HUMAN, CLASS_MAGE, 80);
    assert!(gate(&player, 0, &lister, 0));
}

#[test]
fn lister_gate_enemy_team_lister_is_skipped() {
    let player = snapshot_like_cpp(1, "Socialtest", ALLIANCE_HUMAN, CLASS_WARRIOR, 80);
    let lister = snapshot_like_cpp(2, "Thrall", HORDE_ORC, CLASS_WARRIOR, 80);
    assert!(!gate(&player, 0, &lister, 0));
}

#[test]
fn lister_gate_gm_invisible_player_skips_player_listers_but_reaches_equal_or_higher_gms() {
    let mut player = snapshot_like_cpp(1, "Gamemaster", ALLIANCE_HUMAN, CLASS_WARRIOR, 80);
    player.is_gm_visible = false;
    let lister = snapshot_like_cpp(2, "Jaina", ALLIANCE_HUMAN, CLASS_MAGE, 80);
    assert!(!gate(&player, 2, &lister, 0));
    assert!(gate(&player, 2, &lister, 2));
    assert!(!gate(&player, 2, &lister, 1));
}

#[test]
fn lister_gate_player_above_gm_in_who_list_level_is_never_announced() {
    let player = snapshot_like_cpp(1, "Console", ALLIANCE_HUMAN, CLASS_WARRIOR, 80);
    let lister = snapshot_like_cpp(2, "Jaina", ALLIANCE_HUMAN, CLASS_MAGE, 80);
    assert!(!gate(&player, GM_LEVEL_IN_WHO_LIST_LIKE_CPP + 1, &lister, 0));
}

#[test]
fn add_friend_and_ignore_checks_run_in_order() {
    let me = player_guid(1);
    let other = player_guid(2);
    assert_eq!(add_friend_refusal(me, ALLIANCE, me, HORDE, true, 99), Some(FriendsResult::Self_));
    assert_eq!(add_friend_refusal(me, ALLIANCE, other, HORDE, true, 99), Some(FriendsResult::Enemy));
    assert_eq!(add_friend_refusal(me, ALLIANCE, other, ALLIANCE, true, 99), Some(FriendsResult::Already));
    assert_eq!(add_friend_refusal(me, ALLIANCE, other, ALLIANCE, false, 50), Some(FriendsResult::ListFull));
    assert_eq!(add_friend_refusal(me, ALLIANCE, other, ALLIANCE, false, 49), None);
    assert_eq!(add_ignore_refusal(me, me, false, 0), Some(FriendsResult::IgnoreSelf));
    assert_eq!(add_ignore_refusal(me, other, true, 0), Some(FriendsResult::IgnoreAlready));
    assert_eq!(add_ignore_refusal(me, other, false, 50), Some(FriendsResult::IgnoreFull));
    assert_eq!(add_ignore_refusal(me, other, false, 0), None);
}

#[test]
fn contact_list_shows_fifty_of_each_kind() {
    let mut flags = vec![1u32; 52];
    flags.push(2);
    flags.push(3);
    let shown = contacts_shown(&flags);
    assert!(shown[..50].iter().all(|&s| s));
    assert!(!shown[50] && !shown[51]);
    assert!(shown[52]);
    assert!(!shown[53], "a friend beyond the limit is hidden even when also ignored");
    assert_eq!(contact_note(&"n".repeat(60)).len(), 48);
    assert_eq!(contact_note("é short"), "é short");
}

#[test]
fn race_bits_follow_cpp_get_race_bit_table() {
    assert_eq!(race_bit_like_cpp(1), Some(0));
    assert_eq!(race_bit_like_cpp(11), Some(10));
    assert_eq!(race_bit_like_cpp(22), Some(21));
    assert_eq!(race_bit_like_cpp(32), Some(31));
    assert_eq!(race_bit_like_cpp(34), Some(11));
    assert_eq!(race_bit_like_cpp(35), Some(12));
    assert_eq!(race_bit_like_cpp(36), Some(13));
    assert_eq!(race_bit_like_cpp(37), Some(14));
    assert_eq!(race_bit_like_cpp(70), Some(15));
    assert_eq!(race_bit_like_cpp(52), Some(16));
    assert_eq!(race_bit_like_cpp(0), None);
    assert_eq!(race_bit_like_cpp(23), None);
}

#[test]
fn race_mask_all_ones_has_every_valid_race_and_rejects_invalid_ones() {
    assert!(race_mask_has_race_like_cpp(-1, HORDE_ORC));
    assert!(race_mask_has_race_like_cpp(1 << 1, HORDE_ORC));
    assert!(!race_mask_has_race_like_cpp(1 << 0, HORDE_ORC));
    assert!(!race_mask_has_race_like_cpp(-1, 23));
}

fn any_request_like_cpp() -> WhoRequest {
    WhoRequest {
        min_level: 0,
        max_level: 100,
        class_filter: -1,
        race_filter: -1,
        name: String::new(),
        guild: String::new(),
        words: Vec::new(),
        areas: Vec::new(),
    }
}

#[test]
fn filter_widens_max_level_at_or_above_cpp_max_level_and_lowers_strings() {
    let mut packet = any_request_like_cpp();
    packet.max_level = 123;
    packet.name = "JaInA".into();
    packet.guild = "Kirin TOR".into();
    packet.words = vec!["MaGe".into()];
    packet.areas = vec![1519];

    let filter = WhoFilterLikeCpp::from_request_like_cpp(&packet);

    assert_eq!(filter.max_level, 255);
    assert_eq!(filter.name, "jaina");
    assert_eq!(filter.guild, "kirin tor");
    assert_eq!(filter.words, vec!["mage".to_owned()]);
    assert_eq!(filter.areas, vec![1519]);
}

#[test]
fn filter_keeps_max_level_below_cpp_max_level() {
    let mut packet = any_request_like_cpp();
    packet.max_level = 122;
    assert_eq!(WhoFilterLikeCpp::from_request_like_cpp(&packet).max_level, 122);
}

fn filter_like_cpp() -> WhoFilterLikeCpp {
    WhoFilterLikeCpp::from_request_like_cpp(&any_request_like_cpp())
}

fn who_observer(security: u8) -> WhoObserverLikeCpp {
    WhoObserverLikeCpp {
        guid: player_guid(1),
        race: ALLIANCE_HUMAN,
        security,
    }
}

fn matches(
    filter: &WhoFilterLikeCpp,
    observer: &WhoObserverLikeCpp,
    target: &PlayerPresenceSnapshotLikeCpp,
    target_security: u8,
    guild: &str,
) -> bool {
    who_target_matches_like_cpp(filter, observer, team(observer.race), target, team(target.race), target_security, guild)
}

#[test]
fn matching_target_passes_every_gate() {
    let target = snapshot_like_cpp(2, "Jaina", ALLIANCE_HUMAN, CLASS_MAGE, 80);
    assert!(matches(&filter_like_cpp(), &who_observer(0), &target, 0, ""));
}

#[test]
fn enemy_faction_is_hidden_without_two_side_who_list() {
    let target = snapshot_like_cpp(2, "Thrall", HORDE_ORC, CLASS_WARRIOR, 80);
    assert!(!matches(&filter_like_cpp(), &who_observer(0), &target, 0, ""));
}

#[test]
fn level_range_is_inclusive_on_both_ends() {
    let target = snapshot_like_cpp(2, "Jaina", ALLIANCE_HUMAN, CLASS_MAGE, 40);
    let mut filter = filter_like_cpp();
    filter.min_level = 40;
    filter.max_level = 40;
    assert!(matches(&filter, &who_observer(0), &target, 0, ""));
    filter.min_level = 41;
    assert!(!matches(&filter, &who_observer(0), &target, 0, ""));
    filter.min_level = 0;
    filter.max_level = 39;
    assert!(!matches(&filter, &who_observer(0), &target, 0, ""));
}

#[test]
fn class_mask_filters_and_negative_mask_means_any_class() {
    let target = snapshot_like_cpp(2, "Jaina", ALLIANCE_HUMAN, CLASS_MAGE, 80);
    let mut filter = filter_like_cpp();
    filter.class_filter = 1 << CLASS_MAGE;
    assert!(matches(&filter, &who_observer(0), &target, 0, ""));
    filter.class_filter = 1 << CLASS_WARRIOR;
    assert!(!matches(&filter, &who_observer(0), &target, 0, ""));
    filter.class_filter = -1;
    assert!(matches(&filter, &who_observer(0), &target, 0, ""));
}

#[test]
fn race_mask_filters_same_faction_races() {
    // Dwarf (3) is Alliance like the observer, so only the race mask decides.
    let target = snapshot_like_cpp(2, "Muradin", 3, CLASS_WARRIOR, 80);
    let mut filter = filter_like_cpp();
    filter.race_filter = 1 << 2;
    assert!(matches(&filter, &who_observer(0), &target, 0, ""));
    filter.race_filter = 1 << 0;
    assert!(!matches(&filter, &who_observer(0), &target, 0, ""));
}

#[test]
fn name_and_words_match_case_insensitive_substrings() {
    let target = snapshot_like_cpp(2, "Jainaproudmoore", ALLIANCE_HUMAN, CLASS_MAGE, 80);
    let mut filter = filter_like_cpp();
    filter.name = "proud".into();
    assert!(matches(&filter, &who_observer(0), &target, 0, ""));
    filter.name = "thrall".into();
    assert!(!matches(&filter, &who_observer(0), &target, 0, ""));

    filter.name.clear();
    filter.words = vec![String::new(), "moore".into()];
    assert!(matches(&filter, &who_observer(0), &target, 0, ""));
    filter.words = vec!["orgrimmar".into()];
    assert!(!matches(&filter, &who_observer(0), &target, 0, ""));
    // An all-empty word list (client sends empty words) hides everyone, as in C++.
    filter.words = vec![String::new()];
    assert!(!matches(&filter, &who_observer(0), &target, 0, ""));
}

#[test]
fn guild_filter_matches_only_a_supplied_guild_name() {
    let target = snapshot_like_cpp(2, "Jaina", ALLIANCE_HUMAN, CLASS_MAGE, 80);
    let mut filter = filter_like_cpp();
    filter.guild = "kirin".into();
    assert!(matches(&filter, &who_observer(0), &target, 0, "kirin tor"));
    // Represented gap: rows carry no guild name, so a guild filter matches nobody.
    assert!(!matches(&filter, &who_observer(0), &target, 0, ""));
}

#[test]
fn gm_invisible_target_is_hidden_from_players_but_shown_to_higher_gms_and_to_itself() {
    let mut target = snapshot_like_cpp(2, "Gamemaster", ALLIANCE_HUMAN, CLASS_MAGE, 80);
    target.is_gm_visible = false;
    let filter = filter_like_cpp();
    assert!(!matches(&filter, &who_observer(0), &target, 1, ""));
    assert!(matches(&filter, &who_observer(1), &target, 1, ""));
    assert!(!matches(&filter, &who_observer(1), &target, 2, ""));
    let self_observer = WhoObserverLikeCpp {
        guid: target.guid,
        race: ALLIANCE_HUMAN,
        security: 0,
    };
    assert!(matches(&filter, &self_observer, &target, 1, ""));
}

#[test]
fn target_above_gm_level_in_who_list_is_hidden() {
    let target = snapshot_like_cpp(2, "Console", ALLIANCE_HUMAN, CLASS_MAGE, 80);
    assert!(!matches(&filter_like_cpp(), &who_observer(3), &target, GM_LEVEL_IN_WHO_LIST_LIKE_CPP + 1, ""));
}

#[test]
fn loading_player_is_not_in_the_who_list() {
    let mut target = snapshot_like_cpp(2, "Jaina", ALLIANCE_HUMAN, CLASS_MAGE, 80);
    target.is_in_world = false;
    assert!(!matches(&filter_like_cpp(), &who_observer(0), &target, 0, ""));
}

#[test]
fn who_answer_caps_at_forty_nine_rows_and_drops_oversized_requests() {
    let cands: Vec<WhoCandidate> = (0..60)
        .map(|i| {
            let race = if i % 3 == 0 { HORDE_ORC } else { ALLIANCE_HUMAN };
            WhoCandidate { presence: snapshot_like_cpp(10 + i, "P", race, CLASS_MAGE, 80), team: team(race) }
        })
        .collect();
    let rows = who_rows(&any_request_like_cpp(), &who_observer(0), ALLIANCE, &cands).unwrap();
    assert_eq!(rows.len(), 40);
    assert!(rows.iter().all(|&r| r % 3 != 0));
    let many: Vec<WhoCandidate> = (0..60)
        .map(|i| WhoCandidate { presence: snapshot_like_cpp(10 + i, "P", ALLIANCE_HUMAN, CLASS_MAGE, 80), team: ALLIANCE })
        .collect();
    let rows = who_rows(&any_request_like_cpp(), &who_observer(0), ALLIANCE, &many).unwrap();
    assert_eq!(rows, (0..49).collect::<Vec<usize>>());
    let mut big = any_request_like_cpp();
    big.areas = vec![1; 11];
    assert!(who_rows(&big, &who_observer(0), ALLIANCE, &many).is_none());
    let mut wordy = any_request_like_cpp();
    wordy.words = vec!["a".into(); 5];
    assert!(who_rows(&wordy, &who_observer(0), ALLIANCE, &many).is_none());
}

#[test]
fn presence_snapshots_come_from_the_directory_and_the_map() {
    let mut registry = PlayerRegistry::new();
    let entry = |counter: i64, name: &str, in_world: bool| PlayerRegistryEntry {
        guid: player_guid(counter),
        generation: 7,
        identity: PlayerIdentity {
            player_name: name.to_owned(),
            account_id: 100 + counter as u32,
            battlenet_account_id: 5,
            recruiter_id: 0,
            race: ALLIANCE_HUMAN,
            class: CLASS_MAGE,
            sex: 1,
        },
        placement: PlayerPlacement { map_id: 0, instance_id: 0, level: 70, is_in_world: in_world },
    };
    registry.register_or_replace(entry(1, "Alpha", true));
    registry.register_or_replace(entry(2, "Beta", false));
    registry.place(MapResident {
        guid: player_guid(1),
        map_id: 0,
        instance_id: 0,
        player: CanonicalPlayer { is_afk: true, is_dnd: false, is_game_master: false, extra_flags: 0x10, zone_id: 12, guild_id: Some(3) },
    });
    let s = registry.presence_snapshot_like_cpp(player_guid(1)).unwrap();
    assert_eq!(s.player_name, "Alpha");
    assert_eq!(s.registration, PlayerRegistration { guid: player_guid(1), generation: 7 });
    assert!(s.is_afk && !s.is_gm_visible);
    assert_eq!((s.zone_id, s.level, s.guild_id), (12, 70, Some(3)));
    assert!(registry.presence_snapshot_like_cpp(player_guid(2)).is_none(), "not on its map");
    assert!(registry.presence_snapshot_like_cpp(player_guid(3)).is_none());
    assert_eq!(registry.presence_snapshots_like_cpp().len(), 1);
    registry.register_or_replace(entry(1, "Alpha2", true));
    assert_eq!(registry.presence_snapshot_like_cpp(player_guid(1)).unwrap().player_name, "Alpha2");
}

#[test]
fn requested_names_are_lowered_then_capitalized() {
    assert_eq!(normalize_player_name_like_cpp("alICE").as_deref(), Some("Alice"));
    assert_eq!(normalize_player_name_like_cpp("éLODIE").as_deref(), Some("Élodie"));
    assert_eq!(normalize_player_name_like_cpp("ßA").as_deref(), Some("SSa"));
    assert_eq!(normalize_player_name_like_cpp("x").as_deref(), Some("X"));
    assert_eq!(normalize_player_name_like_cpp(""), None);
}
