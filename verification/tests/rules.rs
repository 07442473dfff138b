use palpo::identifiers::{parse_with_server_name, room_id_is_local, room_id_is_remote};
use palpo::relations::strips_event_id;
use palpo::state_event::{allowed_to_send_state_event, MemberFacts, StateEventFacts, StateEventRefusal};

fn member(is_join: bool, target_joined: bool, authoriser: Option<(bool, bool)>) -> StateEventFacts {
    StateEventFacts::Member { content: Some(MemberFacts { is_join, target_joined, authoriser }), state_key_is_user: true }
}

#[test]
fn state_events_clients_may_send() {
    assert_eq!(allowed_to_send_state_event(&StateEventFacts::Create), Err(StateEventRefusal::CreateImmutable));
    assert_eq!(
        allowed_to_send_state_event(&StateEventFacts::Encryption { encryption_allowed: false }),
        Err(StateEventRefusal::EncryptionDisabled)
    );
    assert_eq!(allowed_to_send_state_event(&StateEventFacts::Encryption { encryption_allowed: true }), Ok(()));
    assert_eq!(
        allowed_to_send_state_event(&StateEventFacts::JoinRules { admin_room: true, makes_public: Some(true) }),
        Err(StateEventRefusal::AdminRoomPublic)
    );
    assert_eq!(allowed_to_send_state_event(&StateEventFacts::JoinRules { admin_room: true, makes_public: None }), Ok(()));
    assert_eq!(allowed_to_send_state_event(&StateEventFacts::JoinRules { admin_room: false, makes_public: Some(true) }), Ok(()));
    assert_eq!(
        allowed_to_send_state_event(&StateEventFacts::HistoryVisibility { admin_room: true, makes_world_readable: Some(true) }),
        Err(StateEventRefusal::AdminRoomWorldReadable)
    );
    assert_eq!(allowed_to_send_state_event(&StateEventFacts::Other), Ok(()));
}

#[test]
fn canonical_aliases() {
    let check = |a: Option<Vec<(bool, bool)>>| allowed_to_send_state_event(&StateEventFacts::CanonicalAlias { aliases: a });
    assert_eq!(check(None), Err(StateEventRefusal::InvalidAliases));
    assert_eq!(check(Some(vec![])), Ok(()));
    assert_eq!(check(Some(vec![(true, true), (true, true)])), Ok(()));
    assert_eq!(check(Some(vec![(true, false), (false, true)])), Err(StateEventRefusal::AliasNotExisting));
    assert_eq!(check(Some(vec![(true, true), (false, false)])), Err(StateEventRefusal::AliasNotLocal));
}

#[test]
fn membership_events() {
    assert_eq!(
        allowed_to_send_state_event(&StateEventFacts::Member { content: None, state_key_is_user: true }),
        Err(StateEventRefusal::InvalidMemberContent)
    );
    assert_eq!(
        allowed_to_send_state_event(&StateEventFacts::Member {
            content: Some(MemberFacts { is_join: true, target_joined: false, authoriser: None }),
            state_key_is_user: false
        }),
        Err(StateEventRefusal::InvalidStateKey)
    );
    assert_eq!(allowed_to_send_state_event(&member(false, false, None)), Ok(()));
    assert_eq!(allowed_to_send_state_event(&member(false, false, Some((true, true)))), Err(StateEventRefusal::AuthorisedNonJoin));
    assert_eq!(allowed_to_send_state_event(&member(true, true, Some((true, true)))), Err(StateEventRefusal::AlreadyJoined));
    assert_eq!(allowed_to_send_state_event(&member(true, false, Some((false, true)))), Err(StateEventRefusal::AuthoriserNotLocal));
    assert_eq!(allowed_to_send_state_event(&member(true, false, Some((true, false)))), Err(StateEventRefusal::AuthoriserNotInRoom));
    assert_eq!(allowed_to_send_state_event(&member(true, false, Some((true, true)))), Ok(()));
}

#[test]
fn local_and_remote_ids() {
    assert!(room_id_is_local("!r:x.org", "x.org"));
    assert!(!room_id_is_remote("!r:x.org", "x.org"));
    assert!(room_id_is_remote("!r:y.org", "x.org"));
    assert!(!room_id_is_local("!r", "x.org"));
    assert!(!room_id_is_remote("!r", "x.org"));
    let u = parse_with_server_name("@a:y.org", "x.org").unwrap();
    assert!(u.is_remote("x.org"));
    assert!(!u.is_remote("y.org"));
}

#[test]
fn event_ids_left_out_over_federation() {
    assert!(!strips_event_id("1"));
    assert!(!strips_event_id("2"));
    assert!(strips_event_id("3"));
    assert!(strips_event_id("10"));
}
