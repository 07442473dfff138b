use palpo::incoming::{merged_validity, new_extremities, trusted_keys_accepted, KEY_MARGIN_MS, MAX_KEY_VALIDITY_MS};
use palpo::relations::{knock_servers, room_version_supported};
use palpo::sliding_sync::{forget_sync_request_connection, remembered, SlidingSyncCache};
use palpo::store::{FailureLog, SessionStore};
use palpo::uiaa::{get_uiaa_request, set_uiaa_request};
use palpo::sync::{device_list_changes, device_lists_left, lazy_members_to_send, since_ahead, timeline_header, MemberChange, TimelineHeader};
use palpo::timeline::{users_to_count, PushAction};

fn strings(items: &[&str]) -> Vec<String> {
    items.iter().map(|s| s.to_string()).collect()
}

#[test]
fn extremities_drop_referenced_events_and_take_the_new_one() {
    let old = strings(&["$a", "$b", "$c"]);
    let prev = strings(&["$b"]);
    let mut got = new_extremities(&old, &prev, "$d", false);
    got.sort();
    assert_eq!(got, strings(&["$a", "$c", "$d"]));
}

#[test]
fn soft_failed_event_is_no_extremity() {
    let old = strings(&["$a", "$b"]);
    let prev = strings(&["$a", "$b"]);
    let got = new_extremities(&old, &prev, "$x", true);
    assert!(got.is_empty());
}

#[test]
fn extremity_already_present_is_not_repeated() {
    let old = strings(&["$a"]);
    let prev: Vec<String> = Vec::new();
    let mut got = new_extremities(&old, &prev, "$a", false);
    got.sort();
    assert_eq!(got, strings(&["$a"]));
}

#[test]
fn counts_rise_for_everyone_but_the_sender() {
    let users = vec![
        ("@alice:x".to_string(), vec![PushAction::Notify, PushAction::Highlight(true)]),
        ("@bob:x".to_string(), vec![PushAction::Notify]),
        ("@carol:x".to_string(), vec![PushAction::Highlight(false), PushAction::Other]),
        ("@dave:x".to_string(), vec![PushAction::Highlight(true)]),
    ];
    let (notifies, highlights) = users_to_count(&users, "@alice:x");
    assert_eq!(notifies, strings(&["@bob:x"]));
    assert_eq!(highlights, strings(&["@dave:x"]));
}

#[test]
fn trusted_keys_must_last_half_an_hour() {
    let now: u64 = 1_000_000;
    assert_eq!(KEY_MARGIN_MS, 1_800_000);
    assert!(trusted_keys_accepted(now + KEY_MARGIN_MS, now));
    assert!(!trusted_keys_accepted(now + KEY_MARGIN_MS - 1, now));
    assert!(!trusted_keys_accepted(now, now));
}

#[test]
fn merged_validity_takes_the_earlier_of_the_two() {
    let now: u64 = 1_000;
    assert_eq!(merged_validity(5_000, 9_000, now), 5_000);
    assert_eq!(merged_validity(9_000, 5_000, now), 5_000);
    assert_eq!(merged_validity(u64::MAX, u64::MAX - 10, now), now + MAX_KEY_VALIDITY_MS);
}

#[test]
fn since_ahead_of_current() {
    assert!(since_ahead(11, 10));
    assert!(!since_ahead(10, 10));
    assert!(!since_ahead(-1, 10));
}

#[test]
fn timeline_header_cases() {
    assert_eq!(
        timeline_header(Some(42), false, true, 0, 40),
        TimelineHeader { limited: true, prev_batch: Some(42), send_counts: true }
    );
    assert_eq!(
        timeline_header(None, false, false, 30, 40),
        TimelineHeader { limited: false, prev_batch: None, send_counts: false }
    );
    assert_eq!(
        timeline_header(None, true, false, 41, 40),
        TimelineHeader { limited: true, prev_batch: None, send_counts: true }
    );
}

#[test]
fn knock_skips_our_own_server() {
    let servers = strings(&["a.org", "ours.org", "b.org", "ours.org"]);
    assert_eq!(knock_servers(&servers, "ours.org"), strings(&["a.org", "b.org"]));
    let only_ours = strings(&["ours.org"]);
    assert!(knock_servers(&only_ours, "ours.org").is_empty());
}

#[test]
fn knock_room_version_must_be_supported() {
    let supported = strings(&["7", "8", "9", "10"]);
    assert!(room_version_supported("9", &supported));
    assert!(!room_version_supported("6", &supported));
    assert!(!room_version_supported("9", &Vec::new()));
}

#[test]
fn session_store_reads_back_what_was_written() {
    let mut store: SessionStore<u32> = SessionStore::new();
    assert!(store.get("@u:x", "DEV", "s1").is_none());
    store.insert("@u:x", "DEV", "s1", 1);
    store.insert("@u:x", "DEV", "s2", 2);
    store.insert("@u:x", "OTHER", "s1", 3);
    store.insert("@u:x", "DEV", "s1", 4);
    assert_eq!(store.get("@u:x", "DEV", "s1"), Some(&4));
    assert_eq!(store.get("@u:x", "DEV", "s2"), Some(&2));
    assert_eq!(store.get("@u:x", "OTHER", "s1"), Some(&3));
    assert!(store.contains_key("@u:x", "DEV", "s2"));
    assert_eq!(store.remove("@u:x", "DEV", "s2"), Some(2));
    assert_eq!(store.remove("@u:x", "DEV", "s2"), None);
    assert!(!store.contains_key("@u:x", "DEV", "s2"));
    assert_eq!(store.get("@u:x", "DEV", "s1"), Some(&4));
}

#[test]
fn uiaa_requests_are_kept_per_session() {
    let mut requests: SessionStore<String> = SessionStore::new();
    set_uiaa_request(&mut requests, "@u:x", "DEV", "abc", "{\"a\":1}");
    set_uiaa_request(&mut requests, "@u:x", "DEV", "def", "{}");
    assert_eq!(get_uiaa_request(&requests, "@u:x", "DEV", "abc"), Some("{\"a\":1}".to_string()));
    assert_eq!(get_uiaa_request(&requests, "@u:x", "DEV2", "abc"), None);
    set_uiaa_request(&mut requests, "@u:x", "DEV", "abc", "{\"b\":2}");
    assert_eq!(get_uiaa_request(&requests, "@u:x", "DEV", "abc"), Some("{\"b\":2}".to_string()));
    assert_eq!(get_uiaa_request(&requests, "@u:x", "DEV", "def"), Some("{}".to_string()));
}

#[test]
fn sliding_sync_connections_are_remembered_until_forgotten() {
    let mut connections: SessionStore<SlidingSyncCache> = SessionStore::new();
    assert!(!remembered(&connections, "@u:x", "DEV", "c1"));
    connections.insert("@u:x", "DEV", "c1", SlidingSyncCache::new());
    assert!(remembered(&connections, "@u:x", "DEV", "c1"));
    assert!(!remembered(&connections, "@u:x", "DEV", "c2"));
    forget_sync_request_connection(&mut connections, "@u:x", "DEV", "c1");
    assert!(!remembered(&connections, "@u:x", "DEV", "c1"));
    forget_sync_request_connection(&mut connections, "@u:x", "DEV", "c1");
    assert!(!remembered(&connections, "@u:x", "DEV", "c1"));
}

#[test]
fn failure_log_counts_and_backs_off() {
    let mut log = FailureLog::new();
    let ids = strings(&["ed25519:a", "ed25519:b"]);
    let other = strings(&["ed25519:a"]);
    assert_eq!(log.get(&ids), None);
    assert!(!log.signatures_backing_off(&ids, 1_000));
    log.record(&ids, 1_000);
    assert_eq!(log.get(&ids), Some((1_000, 1)));
    assert_eq!(log.get(&other), None);
    assert!(log.signatures_backing_off(&ids, 1_000 + 29_999));
    assert!(!log.signatures_backing_off(&ids, 1_000 + 30_000));
    log.record(&ids, 50_000);
    assert_eq!(log.get(&ids), Some((50_000, 2)));
    assert!(log.signatures_backing_off(&ids, 50_000 + 119_999));
    assert!(!log.signatures_backing_off(&ids, 50_000 + 120_000));
    assert!(log.signatures_backing_off(&ids, 10));
}

#[test]
fn failed_events_back_off_for_five_minutes_a_try() {
    let mut log = FailureLog::new();
    let ev = strings(&["$bad"]);
    log.record(&ev, 0);
    assert!(log.events_backing_off(&ev, 299_999));
    assert!(!log.events_backing_off(&ev, 300_000));
    log.record(&ev, 0);
    assert!(log.events_backing_off(&ev, 1_199_999));
    assert!(!log.events_backing_off(&ev, 1_200_000));
}

#[test]
fn lazy_loading_sends_each_needed_member_once() {
    let events = vec![
        ("@a:x".to_string(), false, true),
        ("@b:x".to_string(), true, true),
        ("@a:x".to_string(), false, true),
        ("@c:x".to_string(), false, false),
        ("@d:x".to_string(), false, true),
        ("@e:x".to_string(), false, true),
    ];
    let loaded = strings(&["@d:x"]);
    assert_eq!(lazy_members_to_send(&events, &loaded, false), strings(&["@a:x", "@e:x"]));
    assert_eq!(lazy_members_to_send(&events, &loaded, true), strings(&["@a:x", "@b:x", "@e:x"]));
}

#[test]
fn device_lists_follow_membership_changes() {
    let members = vec![
        ("@me:x".to_string(), MemberChange::Join, true),
        ("@a:x".to_string(), MemberChange::Join, true),
        ("@b:x".to_string(), MemberChange::Join, false),
        ("@c:x".to_string(), MemberChange::Leave, true),
        ("@d:x".to_string(), MemberChange::Other, true),
    ];
    let joined = strings(&["@me:x", "@z:x"]);
    let (updates, left) = device_list_changes(&members, "@me:x", false, &joined);
    assert_eq!(updates, strings(&["@a:x"]));
    assert_eq!(left, strings(&["@c:x"]));
    let (updates, _) = device_list_changes(&members, "@me:x", true, &joined);
    assert_eq!(updates, strings(&["@a:x", "@z:x"]));
}

#[test]
fn device_lists_left_when_no_encrypted_room_is_shared() {
    let users = vec![
        ("@a:x".to_string(), vec![false, true]),
        ("@b:x".to_string(), vec![false, false]),
        ("@c:x".to_string(), vec![]),
    ];
    assert_eq!(device_lists_left(&users), strings(&["@b:x", "@c:x"]));
}

#[test]
fn extremities_move_to_the_newest_event() {
    let first = new_extremities(&strings(&["$a"]), &strings(&["$a"]), "$b", false);
    assert_eq!(first, strings(&["$b"]));
    let second = new_extremities(&first, &strings(&["$b"]), "$c", false);
    assert_eq!(second, strings(&["$c"]));
    let soft = new_extremities(&second, &strings(&["$c"]), "$d", true);
    assert!(soft.is_empty());
}
