use palpo::sliding_sync::{
    merge_extensions, merge_list, remembered, update_known_rooms, update_sync_known_rooms,
    update_sync_request_with_cache, ExtensionsConfig, IncludeOldRooms, KnownRooms, SyncFilters, SyncList,
};
use palpo::store::SessionStore;
use palpo::timeline::{add_to_thread, BundledThread};

fn s(v: &[&str]) -> Vec<String> {
    v.iter().map(|x| x.to_string()).collect()
}

fn filters(is_dm: Option<bool>, spaces: &[&str], name: Option<&str>) -> SyncFilters {
    SyncFilters {
        is_dm,
        spaces: s(spaces),
        is_encrypted: None,
        is_invite: Some(false),
        room_types: vec![],
        not_room_types: s(&["m.space"]),
        room_name_like: name.map(|n| n.to_string()),
        tags: vec![],
        not_tags: vec![],
    }
}

fn list(sort: &[&str], limit: Option<u64>, f: Option<SyncFilters>) -> SyncList {
    SyncList {
        sort: s(sort),
        required_state: vec![],
        timeline_limit: limit,
        include_old_rooms: None,
        filters: f,
        bump_event_types: vec![],
    }
}

#[test]
fn request_lists_fill_in_from_cache() {
    let mut cached = list(&["by_recency"], Some(10), Some(filters(Some(true), &["!s:x"], Some("abc"))));
    cached.required_state = vec![("m.room.name".to_string(), "".to_string())];
    cached.include_old_rooms = Some(IncludeOldRooms { timeline_limit: Some(1), required_state: vec![] });
    let given = list(&[], None, Some(filters(None, &[], Some("xyz"))));
    let merged = merge_list(given, cached);
    assert_eq!(merged.sort, s(&["by_recency"]));
    assert_eq!(merged.timeline_limit, Some(10));
    assert_eq!(merged.required_state, vec![("m.room.name".to_string(), "".to_string())]);
    assert_eq!(merged.include_old_rooms.as_ref().unwrap().timeline_limit, Some(1));
    let f = merged.filters.unwrap();
    assert_eq!(f.is_dm, Some(true));
    assert_eq!(f.spaces, s(&["!s:x"]));
    assert_eq!(f.room_name_like.as_deref(), Some("xyz"));
}

#[test]
fn given_settings_win() {
    let cached = list(&["by_name"], Some(10), None);
    let given = list(&["by_recency"], Some(3), Some(filters(Some(false), &[], None)));
    let merged = merge_list(given, cached);
    assert_eq!(merged.sort, s(&["by_recency"]));
    assert_eq!(merged.timeline_limit, Some(3));
    assert_eq!(merged.filters.unwrap().is_dm, Some(false));
    let merged = merge_list(list(&[], None, None), list(&[], None, None));
    assert!(merged.filters.is_none());
}

#[test]
fn extensions_fill_in_from_cache() {
    let cached = ExtensionsConfig {
        e2ee: Some(true),
        to_device: Some(true),
        account_data: None,
        account_data_lists: Some(s(&["all"])),
        account_data_rooms: None,
    };
    let given = ExtensionsConfig { e2ee: Some(false), to_device: None, account_data: Some(true), account_data_lists: None, account_data_rooms: None };
    let m = merge_extensions(given, cached);
    assert_eq!((m.e2ee, m.to_device, m.account_data), (Some(false), Some(true), Some(true)));
    assert_eq!(m.account_data_lists, Some(s(&["all"])));
    assert_eq!(m.account_data_rooms, None);
}

#[test]
fn known_rooms_are_updated() {
    let mut known = vec![("!a:x".to_string(), 5), ("!b:x".to_string(), 6)];
    update_known_rooms(&mut known, &s(&["!b:x", "!c:x"]), 9);
    known.sort();
    assert_eq!(known, vec![("!a:x".to_string(), 0), ("!b:x".to_string(), 9), ("!c:x".to_string(), 9)]);
}

#[test]
fn thread_summaries() {
    let t = add_to_thread(None, "$1");
    assert_eq!((t.latest_event, t.count, t.current_user_participated), ("$1", 1, true));
    let t = add_to_thread(Some(BundledThread { latest_event: "$1", count: 4, current_user_participated: false }), "$2");
    assert_eq!((t.latest_event, t.count, t.current_user_participated), ("$2", 5, false));
}

fn sorted_rooms(mut v: Vec<(String, i64)>) -> Vec<(String, i64)> {
    v.sort();
    v
}

#[test]
fn known_rooms_per_list() {
    let mut known = KnownRooms::new();
    assert!(known.rooms("a").is_empty());
    known.update("a", &s(&["!1:x", "!2:x"]), 5);
    known.update("b", &s(&["!9:x"]), 6);
    known.update("a", &s(&["!2:x", "!3:x"]), 7);
    assert_eq!(
        sorted_rooms(known.rooms("a")),
        vec![("!1:x".to_string(), 0), ("!2:x".to_string(), 7), ("!3:x".to_string(), 7)]
    );
    assert_eq!(known.rooms("b"), vec![("!9:x".to_string(), 6)]);
}

#[test]
fn sync_known_rooms_start_and_keep_the_connection() {
    let mut connections = SessionStore::new();
    update_sync_known_rooms(&mut connections, "@u:x", "DEV", "c", "list", &s(&["!1:x"]), 3);
    assert!(remembered(&connections, "@u:x", "DEV", "c"));
    update_sync_known_rooms(&mut connections, "@u:x", "DEV", "c", "list", &s(&["!2:x"]), 4);
    let cache = connections.get("@u:x", "DEV", "c").unwrap();
    assert!(cache.lists.is_empty());
    assert_eq!(
        sorted_rooms(cache.known_rooms.rooms("list")),
        vec![("!1:x".to_string(), 0), ("!2:x".to_string(), 4)]
    );
    assert!(!remembered(&connections, "@u:x", "DEV", "other"));
}

fn no_ext() -> ExtensionsConfig {
    ExtensionsConfig { e2ee: None, to_device: None, account_data: None, account_data_lists: None, account_data_rooms: None }
}

#[test]
fn a_request_fills_in_from_the_one_before_on_its_connection() {
    let mut connections = SessionStore::new();
    let first = vec![
        ("a".to_string(), list(&["by_recency"], Some(10), Some(filters(Some(true), &["!s:x"], None)))),
        ("b".to_string(), list(&["by_name"], None, None)),
    ];
    let ext = ExtensionsConfig { e2ee: Some(true), ..no_ext() };
    let known = update_sync_request_with_cache(&mut connections, "@u:x", "DEV", Some("c"), first, ext);
    assert!(known.rooms("a").is_empty());
    update_sync_known_rooms(&mut connections, "@u:x", "DEV", "c", "a", &s(&["!r:x"]), 7);
    let second = vec![("a".to_string(), list(&[], Some(3), None)), ("z".to_string(), list(&["x"], None, None))];
    let known = update_sync_request_with_cache(&mut connections, "@u:x", "DEV", Some("c"), second, no_ext());
    assert_eq!(known.rooms("a"), vec![("!r:x".to_string(), 7)]);
    let cache = connections.get("@u:x", "DEV", "c").unwrap();
    let ids: Vec<String> = cache.lists.iter().map(|(id, _)| id.clone()).collect();
    assert_eq!(ids, s(&["a", "b", "z"]));
    let a = &cache.lists[0].1;
    assert_eq!(a.sort, s(&["by_recency"]));
    assert_eq!(a.timeline_limit, Some(3));
    assert_eq!(a.filters.as_ref().unwrap().spaces, s(&["!s:x"]));
    assert_eq!(cache.lists[1].1.sort, s(&["by_name"]));
    assert_eq!(cache.extensions.e2ee, Some(true));
}

#[test]
fn a_request_without_connection_id_is_not_cached() {
    let mut connections: SessionStore<palpo::sliding_sync::SlidingSyncCache> = SessionStore::new();
    let known = update_sync_request_with_cache(&mut connections, "@u:x", "DEV", None, vec![("a".to_string(), list(&[], None, None))], no_ext());
    assert!(known.rooms("a").is_empty());
    assert!(!remembered(&connections, "@u:x", "DEV", "a"));
}
