use palpo::admin::escape_html;
use palpo::space::{
    get_parent_children_via, get_stripped_space_child_events, is_accessible_child, summary_to_chunk, AccessFacts,
    CachedSpaceHierarchySummary, Identifier, RawChildState, SpaceChildState, SpaceHierarchyParentSummary,
    SpaceRoomJoinRule,
};

fn child(key: &str, via: &[&str], suggested: bool) -> RawChildState {
    RawChildState {
        json: format!("{{\"state_key\":\"{}\"}}", key),
        parsed: Some(SpaceChildState {
            state_key: key.to_string(),
            via: via.iter().map(|s| s.to_string()).collect(),
            suggested,
        }),
    }
}

fn broken() -> RawChildState {
    RawChildState { json: "{}".to_string(), parsed: None }
}

fn parent(children: Vec<RawChildState>) -> SpaceHierarchyParentSummary {
    SpaceHierarchyParentSummary {
        canonical_alias: Some("#space:x".to_string()),
        name: Some("Space".to_string()),
        num_joined_members: 3,
        room_id: "!space:x".to_string(),
        topic: Some("a topic".to_string()),
        world_readable: true,
        guest_can_join: false,
        avatar_url: None,
        join_rule: SpaceRoomJoinRule::Public,
        room_type: Some("m.space".to_string()),
        children_state: children,
        allowed_room_ids: vec!["!allowed:x".to_string()],
    }
}

fn keys(listed: &[(String, Vec<String>)]) -> Vec<String> {
    listed.iter().map(|(k, _)| k.clone()).collect()
}

#[test]
fn suggested_children_are_a_subsequence_of_all_children() {
    let p = parent(vec![
        child("!a:x", &["x"], true),
        broken(),
        child("!b:x", &["y"], false),
        child("!c:x", &["x", "z"], true),
    ]);
    let all = get_parent_children_via(&p, false);
    let suggested = get_parent_children_via(&p, true);
    assert_eq!(keys(&all), vec!["!a:x", "!b:x", "!c:x"]);
    assert_eq!(keys(&suggested), vec!["!a:x", "!c:x"]);
    assert_eq!(suggested[1].1, vec!["x".to_string(), "z".to_string()]);
}

#[test]
fn all_suggested_lists_the_same_children() {
    let p = parent(vec![child("!a:x", &["x"], true), broken(), child("!c:x", &["x"], true)]);
    assert_eq!(keys(&get_parent_children_via(&p, false)), keys(&get_parent_children_via(&p, true)));
}

#[test]
fn chunk_copies_every_field() {
    let cached = CachedSpaceHierarchySummary { summary: parent(vec![child("!a:x", &["x"], true)]) };
    let chunk = cached.into_chunk();
    assert_eq!(chunk.canonical_alias.as_deref(), Some("#space:x"));
    assert_eq!(chunk.name.as_deref(), Some("Space"));
    assert_eq!(chunk.num_joined_members, 3);
    assert_eq!(chunk.room_id, "!space:x");
    assert_eq!(chunk.topic.as_deref(), Some("a topic"));
    assert!(chunk.world_readable);
    assert!(!chunk.guest_can_join);
    assert!(chunk.avatar_url.is_none());
    assert!(matches!(chunk.join_rule, SpaceRoomJoinRule::Public));
    assert_eq!(chunk.room_type.as_deref(), Some("m.space"));
    assert_eq!(chunk.children_state.len(), 1);
    let direct = summary_to_chunk(parent(Vec::new()));
    assert_eq!(direct.topic.as_deref(), Some("a topic"));
    assert!(direct.children_state.is_empty());
}

#[test]
fn stripped_children_need_a_room_id_and_servers() {
    let kept = get_stripped_space_child_events(vec![
        ("!a:x".to_string(), child("!a:x", &["x"], false)),
        ("not-a-room".to_string(), child("not-a-room", &["x"], false)),
        ("!b:x".to_string(), child("!b:x", &[], false)),
        ("!c:x".to_string(), broken()),
    ]);
    assert_eq!(kept.len(), 2);
    assert_eq!(kept[0].parsed.as_ref().map(|c| c.state_key.clone()), Some("!a:x".to_string()));
    assert!(kept[1].parsed.is_none());
}

#[test]
fn accessibility_of_children() {
    let none = AccessFacts { acl_allows: true, joined: false, invited: false, in_allowed_rooms: vec![false, true] };
    assert!(is_accessible_child(&SpaceRoomJoinRule::Restricted, &Identifier::UserId("@u:x"), &none));
    assert!(!is_accessible_child(&SpaceRoomJoinRule::Invite, &Identifier::UserId("@u:x"), &none));
    let denied = AccessFacts { acl_allows: false, joined: true, invited: false, in_allowed_rooms: vec![] };
    assert!(!is_accessible_child(&SpaceRoomJoinRule::Public, &Identifier::ServerName("x"), &denied));
    assert!(is_accessible_child(&SpaceRoomJoinRule::Invite, &Identifier::UserId("@u:x"), &denied));
}

#[test]
fn escaped_html_reads_back() {
    let s = "a < b && c > d; &amp; stays text";
    let e = escape_html(s);
    assert!(!e.contains('<') && !e.contains('>'));
    assert_eq!(e.replace("&lt;", "<").replace("&gt;", ">").replace("&amp;", "&"), s);
}
