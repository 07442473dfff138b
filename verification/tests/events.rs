use palpo::incoming::state_after_event;
use palpo::auth_chain::{get_auth_chain, AuthChainError, AuthNode};
use palpo::graph::{lexicographical_topological_sort, SortKey};
use palpo::incoming::{
    auth_events_distinct, cached_keys_usable, capped_validity, check_state_ids, contains_all_ids,
    event_backing_off, origin_server_ts, prev_event_action, record_failure, signature_backing_off,
    PrevEventAction, StateIdsError, TimestampError,
};
use palpo::timeline::{carry_direct_rooms, next_depth, notify_and_highlight, prev_events, sender_ignored, PushAction};

fn key(power: usize, ts: u64) -> SortKey {
    SortKey { power_level: power, origin_server_ts: ts }
}

fn ids(v: &[&str]) -> Vec<String> {
    v.iter().map(|s| s.to_string()).collect()
}

#[test]
fn topological_sort_follows_edges_then_keys() {
    // 0 is the root; 1 and 2 refer to 0; 3 refers to 1 and 2.
    let graph = vec![vec![], vec![0], vec![0], vec![1, 2]];
    let keys = vec![key(100, 1), key(50, 5), key(50, 3), key(0, 9)];
    let order = lexicographical_topological_sort(&graph, &keys, &ids(&["$a", "$b", "$c", "$d"]));
    assert_eq!(order, vec![0, 2, 1, 3]);
}

#[test]
fn topological_sort_breaks_ties_by_id() {
    let graph = vec![vec![], vec![], vec![]];
    let keys = vec![key(10, 5), key(10, 5), key(20, 9)];
    let order = lexicographical_topological_sort(&graph, &keys, &ids(&["$z", "$y", "$x"]));
    assert_eq!(order, vec![2, 1, 0]);
}

#[test]
fn topological_sort_leaves_out_unsatisfiable_events() {
    // Node 1 refers to an event outside the graph.
    let graph = vec![vec![], vec![7]];
    let keys = vec![key(0, 0), key(0, 0)];
    let order = lexicographical_topological_sort(&graph, &keys, &ids(&["$a", "$b"]));
    assert_eq!(order, vec![0]);
}

fn node(in_room: bool, auth: Vec<usize>) -> Option<AuthNode> {
    Some(AuthNode { in_room, auth_events: auth })
}

#[test]
fn auth_chain_collects_reachable_events() {
    let events = vec![node(true, vec![1, 2]), node(true, vec![2]), node(true, vec![]), node(true, vec![0])];
    let mut chain = get_auth_chain(&events, 3).unwrap();
    chain.sort();
    assert_eq!(chain, vec![0, 1, 2]);
}

#[test]
fn auth_chain_skips_unknown_events() {
    let events = vec![node(true, vec![1]), None];
    assert_eq!(get_auth_chain(&events, 0).unwrap(), vec![1]);
}

#[test]
fn auth_chain_refuses_foreign_events() {
    let events = vec![node(true, vec![1]), node(false, vec![])];
    assert!(matches!(get_auth_chain(&events, 0), Err(AuthChainError::EventFromOtherRoom)));
}

#[test]
fn bad_event_backoff_grows_quadratically() {
    // Five minutes times tries squared.
    assert!(event_backing_off(299_999, 1));
    assert!(!event_backing_off(300_000, 1));
    assert!(event_backing_off(1_199_999, 2));
    assert!(!event_backing_off(1_200_000, 2));
    // Capped at a day.
    assert!(!event_backing_off(86_400_000, 1000));
    assert!(event_backing_off(86_399_999, 1000));
    // Signatures: thirty seconds times tries squared.
    assert!(signature_backing_off(119_999, 2));
    assert!(!signature_backing_off(120_000, 2));
    assert_eq!(record_failure(None, 5), (5, 1));
    assert_eq!(record_failure(Some((1, 3)), 9), (9, 4));
}

#[test]
fn previous_event_actions() {
    assert_eq!(prev_event_action(true, 0, Some(10), 0), PrevEventAction::Skip);
    assert_eq!(prev_event_action(false, 5, Some(10), 0), PrevEventAction::Stop);
    assert_eq!(prev_event_action(false, 4, None, 0), PrevEventAction::Skip);
    assert_eq!(prev_event_action(false, 0, Some(1), 2), PrevEventAction::Skip);
    assert_eq!(prev_event_action(false, 0, Some(2), 2), PrevEventAction::Handle);
}

#[test]
fn origin_timestamps() {
    assert_eq!(origin_server_ts(None), Err(TimestampError::Missing));
    assert_eq!(origin_server_ts(Some(None)), Err(TimestampError::NotInteger));
    assert_eq!(origin_server_ts(Some(Some(-1))), Err(TimestampError::BeforeEpoch));
    assert_eq!(origin_server_ts(Some(Some(1234))), Ok(1234));
}

#[test]
fn auth_event_keys_must_differ() {
    let ok = vec![("m.room.create".to_string(), "".to_string()), ("m.room.member".to_string(), "@a:x".to_string())];
    assert!(auth_events_distinct(&ok));
    let dup = vec![("m.room.member".to_string(), "@a:x".to_string()), ("m.room.member".to_string(), "@a:x".to_string())];
    assert!(!auth_events_distinct(&dup));
}

#[test]
fn state_ids_answer_checks() {
    let good = vec![(1, "$create".to_string()), (2, "$m".to_string())];
    assert_eq!(check_state_ids(&good, 1, "$create"), Ok(()));
    assert_eq!(check_state_ids(&good, 1, "$other"), Err(StateIdsError::WrongCreateEvent));
    assert_eq!(check_state_ids(&good, 3, "$create"), Err(StateIdsError::WrongCreateEvent));
    let dup = vec![(1, "$create".to_string()), (1, "$x".to_string())];
    assert_eq!(check_state_ids(&dup, 1, "$create"), Err(StateIdsError::Duplicate));
}

#[test]
fn signing_key_checks() {
    let wanted = ids(&["ed25519:a", "ed25519:old"]);
    assert!(contains_all_ids(&wanted, &ids(&["ed25519:a"]), &ids(&["ed25519:old"])));
    assert!(!contains_all_ids(&wanted, &ids(&["ed25519:a"]), &ids(&[])));
    assert!(cached_keys_usable(true, 1_800_001, 0));
    assert!(!cached_keys_usable(true, 1_800_000, 0));
    assert!(!cached_keys_usable(false, u64::MAX, 0));
    assert_eq!(capped_validity(10, 0), 10);
    assert_eq!(capped_validity(u64::MAX, 1), 604_800_001);
}

#[test]
fn new_event_parents_and_depth() {
    let ext: Vec<u32> = (0..30).collect();
    assert_eq!(prev_events(ext), (0..20).collect::<Vec<u32>>());
    assert_eq!(prev_events(vec![1, 2]), vec![1, 2]);
    assert_eq!(next_depth(&vec![]), 1);
    assert_eq!(next_depth(&vec![3, 9, 4]), 10);
}

#[test]
fn push_actions() {
    assert_eq!(notify_and_highlight(&vec![PushAction::Notify, PushAction::Highlight(true)]), (true, true));
    assert_eq!(notify_and_highlight(&vec![PushAction::Highlight(false), PushAction::Other]), (false, false));
}

#[test]
fn direct_chats_follow_room_upgrade() {
    let mut lists = vec![ids(&["!old:x", "!a:x"]), ids(&["!b:x"])];
    assert!(carry_direct_rooms(&mut lists, "!old:x", "!new:x"));
    assert_eq!(lists, vec![ids(&["!old:x", "!a:x", "!new:x"]), ids(&["!b:x"])]);
    assert!(!carry_direct_rooms(&mut lists, "!none:x", "!new2:x"));
    assert!(sender_ignored(&ids(&["@spam:x"]), "@spam:x"));
    assert!(!sender_ignored(&ids(&["@spam:x"]), "@ok:x"));
}

#[test]
fn state_after_a_state_event() {
    let mut state = vec![(1, "$create".to_string()), (2, "$old".to_string())];
    state_after_event(&mut state, Some(2), "$new");
    assert_eq!(state, vec![(1, "$create".to_string()), (2, "$new".to_string())]);
    state_after_event(&mut state, Some(3), "$t");
    assert_eq!(state, vec![(1, "$create".to_string()), (2, "$new".to_string()), (3, "$t".to_string())]);
    state_after_event(&mut state, None, "$msg");
    assert_eq!(state.len(), 3);
}
