use palpo::sync::{
    changed_state, heroes, left_room_skipped, left_state_wanted, long_poll_wait_ms, member_state_wanted,
    merge_presence, plan_changed_state, state_unchanged, trim_timeline, PresenceContent, StateSync,
};

fn s(v: &[&str]) -> Vec<String> {
    v.iter().map(|x| x.to_string()).collect()
}

#[test]
fn timeline_is_trimmed_to_limit() {
    assert_eq!(trim_timeline(vec![1, 2, 3, 4], 3), (vec![1, 2, 3], true));
    assert_eq!(trim_timeline(vec![1, 2, 3], 3), (vec![1, 2, 3], false));
    assert_eq!(trim_timeline(Vec::<u8>::new(), 0), (vec![], false));
}

#[test]
fn state_sync_plans() {
    assert!(state_unchanged(true, Some(5), 5));
    assert!(state_unchanged(true, None, 5));
    assert!(!state_unchanged(true, Some(4), 5));
    assert!(!state_unchanged(false, Some(5), 5));
    assert_eq!(plan_changed_state(0, false, Some(3)), StateSync::Full);
    assert_eq!(plan_changed_state(9, true, None), StateSync::Full);
    assert_eq!(plan_changed_state(9, false, Some(3)), StateSync::Incremental);
    assert_eq!(plan_changed_state(9, false, None), StateSync::Nothing);
}

#[test]
fn lazy_loaded_members() {
    assert!(member_state_wanted(false, false, false, false));
    assert!(!member_state_wanted(true, false, false, false));
    assert!(member_state_wanted(true, false, true, false));
    assert!(member_state_wanted(true, false, false, true));
    assert!(member_state_wanted(true, true, false, false));
    assert!(left_state_wanted(true, false, true, false, false));
    assert!(!left_state_wanted(true, false, true, true, false));
    assert!(!left_state_wanted(false, false, false, false, false));
    assert!(left_state_wanted(false, true, true, true, false));
}

#[test]
fn heroes_are_distinct_and_exclude_sender() {
    let cands = s(&["@a:x", "@me:x", "@b:x", "@a:x", "@c:x"]);
    assert_eq!(heroes(2, 1, &cands, "@me:x"), s(&["@a:x", "@b:x", "@c:x"]));
    assert_eq!(heroes(5, 1, &cands, "@me:x"), Vec::<String>::new());
    assert_eq!(heroes(5, 0, &cands, "@me:x").len(), 3);
}

#[test]
fn incremental_state_sends_changes() {
    let current = vec![(1, "$a".to_string()), (2, "$b2".to_string()), (3, "$c".to_string())];
    let since = vec![(1, "$a".to_string()), (2, "$b1".to_string())];
    assert_eq!(changed_state(&current, &since, false), vec![(2, "$b2".to_string()), (3, "$c".to_string())]);
    assert_eq!(changed_state(&current, &since, true), current);
    assert_eq!(changed_state(&current, &current, false), vec![]);
}

#[test]
fn left_rooms_before_last_sync_are_skipped() {
    assert!(left_room_skipped(5, None));
    assert!(left_room_skipped(4, Some(5)));
    assert!(!left_room_skipped(5, Some(5)));
}

fn presence(p: &str, msg: Option<&str>, ago: Option<u64>) -> PresenceContent {
    PresenceContent {
        presence: p.to_string(),
        status_msg: msg.map(|m| m.to_string()),
        last_active_ago: ago,
        display_name: None,
        avatar_url: Some("mxc://x/old".to_string()),
        currently_active: Some(false),
    }
}

#[test]
fn later_presence_wins_where_given() {
    let mut newer = presence("online", None, Some(5));
    newer.avatar_url = None;
    newer.currently_active = Some(true);
    let merged = merge_presence(presence("offline", Some("away"), Some(100)), newer);
    assert_eq!(merged.presence, "online");
    assert_eq!(merged.status_msg.as_deref(), Some("away"));
    assert_eq!(merged.last_active_ago, Some(5));
    assert_eq!(merged.avatar_url.as_deref(), Some("mxc://x/old"));
    assert_eq!(merged.currently_active, Some(true));
    assert_eq!(merged.display_name, None);
}

#[test]
fn empty_sync_waits_at_most_thirty_seconds() {
    assert_eq!(long_poll_wait_ms(false, true, Some(10_000)), Some(10_000));
    assert_eq!(long_poll_wait_ms(false, true, Some(30_999)), Some(30_999));
    assert_eq!(long_poll_wait_ms(false, true, Some(31_000)), Some(30_000));
    assert_eq!(long_poll_wait_ms(false, true, None), Some(0));
    assert_eq!(long_poll_wait_ms(true, true, Some(10_000)), None);
    assert_eq!(long_poll_wait_ms(false, false, Some(10_000)), None);
}
