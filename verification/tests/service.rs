use palpo::sending::{take_receipt, EduBatch};
use palpo::admin::{admin_argv, code_block_lines, escape_html, is_admin_command};
use palpo::alias::{add_server, add_servers, take_alias_answer, AliasResolution};
use palpo::appservice::{Namespace, NamespaceRegex, RegistrationInfo};
use palpo::auth::{AuthArgs, MissingToken};
use palpo::identifiers::parse_with_server_name;
use palpo::media::{delete_media_request, event_mxc_urls, get_media_path, mxc_from_json_text, thumbnail_properties, DeleteMediaError, DeleteMediaRequest};
use palpo::sending::{
    select_events, split_events, status_after_failure, status_after_success, transaction_path,
    transaction_path_for_digest, OutgoingKind, Selection, SendingEventType, TransactionStatus,
};
use palpo::typing::RoomTyping;
use palpo::uiaa::{flow_completed, take_submission, trim, AuthData, AuthOutcome, AuthType};

fn strings(v: &[&str]) -> Vec<String> {
    v.iter().map(|s| s.to_string()).collect()
}

#[test]
fn html_is_escaped() {
    assert_eq!(escape_html("a < b && c > d"), "a &lt; b &amp;&amp; c &gt; d");
    assert_eq!(escape_html("plain"), "plain");
    let s = "<&>&amp;";
    assert_eq!(escape_html(s), s.replace('&', "&amp;").replace('<', "&lt;").replace('>', "&gt;"));
}

#[test]
fn admin_command_lines() {
    assert_eq!(admin_argv("@palpo:x  list_users   now"), strings(&["@palpo:x", "list-users", "now"]));
    assert_eq!(admin_argv("@palpo:x help create_user"), strings(&["@palpo:x", "create-user", "--help"]));
    assert_eq!(admin_argv("   "), Vec::<String>::new());
}

#[test]
fn admin_commands_are_recognized() {
    assert!(is_admin_command("@palpo:x.org: list", "@a:x.org", "x.org", false, true));
    assert!(is_admin_command("@palpo:x.org list", "@a:x.org", "x.org", false, true));
    assert!(is_admin_command("@palpo:x.org:", "@a:x.org", "x.org", false, true));
    assert!(is_admin_command("@palpo:x.org", "@a:x.org", "x.org", false, true));
    assert!(!is_admin_command("@palpo:x.orgs", "@a:x.org", "x.org", false, true));
    assert!(!is_admin_command("@palpo:x.org list", "@a:x.org", "x.org", false, false));
    assert!(!is_admin_command("@palpo:x.org list", "@palpo:x.org", "x.org", false, true));
    assert!(is_admin_command("@palpo:x.org list", "@palpo:x.org", "x.org", true, true));
}

fn args(token: Option<&str>, header: Option<&str>) -> AuthArgs {
    AuthArgs {
        user_id: None,
        device_id: None,
        access_token: token.map(|t| t.to_string()),
        authorization: header.map(|h| h.to_string()),
        from_appservice: false,
    }
}

#[test]
fn access_tokens() {
    assert_eq!(args(None, Some("Bearer abc")).require_access_token(), Ok("abc"));
    assert_eq!(args(Some("q"), Some("Bearer abc")).require_access_token(), Ok("abc"));
    assert_eq!(args(Some("q"), None).require_access_token(), Ok("q"));
    assert_eq!(args(Some("q"), Some("Basic abc")).require_access_token(), Err(MissingToken::InvalidBearer));
    assert_eq!(args(None, None).require_access_token(), Err(MissingToken::NotFound));
    assert_eq!(MissingToken::NotFound.message(), "Token not found.");
}

#[test]
fn media_paths_and_thumbnails() {
    assert_eq!(get_media_path("/data", "abc"), "/data/media/abc");
    assert_eq!(get_media_path("/data/", "abc"), "/data/media/abc");
    assert_eq!(get_media_path("", "abc"), "media/abc");
    assert_eq!(thumbnail_properties(10, 10), Some((32, 32, true)));
    assert_eq!(thumbnail_properties(96, 90), Some((96, 96, true)));
    assert_eq!(thumbnail_properties(300, 200), Some((320, 240, false)));
    assert_eq!(thumbnail_properties(640, 480), Some((640, 480, false)));
    assert_eq!(thumbnail_properties(800, 600), Some((800, 600, false)));
    assert_eq!(thumbnail_properties(801, 600), None);
}

#[test]
fn alias_servers() {
    let mut servers = strings(&["a"]);
    add_server(&mut servers, "a".to_string());
    add_server(&mut servers, "b".to_string());
    assert_eq!(servers, strings(&["a", "b"]));
    add_servers(&mut servers, strings(&["c", "a", "c", "d"]));
    assert_eq!(servers, strings(&["a", "b", "c", "d"]));
}

#[test]
fn alias_answers() {
    let mut st = AliasResolution { room_id: None, servers: Vec::new() };
    assert!(!take_alias_answer(&mut st, "s1".to_string(), None));
    assert!(!take_alias_answer(&mut st, "s2".to_string(), Some(("!r:x".to_string(), vec![]))));
    assert!(take_alias_answer(&mut st, "s3".to_string(), Some(("!other:x".to_string(), strings(&["s2", "s4"])))));
    assert_eq!(st.room_id.as_deref(), Some("!r:x"));
    assert_eq!(st.servers, strings(&["s2", "s3", "s4"]));
}

#[test]
fn sending_schedule() {
    assert_eq!(select_events(None, 0), (Some(TransactionStatus::Running), Selection::SendNew));
    assert_eq!(select_events(Some(TransactionStatus::Running), 0).1, Selection::Wait);
    // Two failures: back off 120 seconds.
    let failed = Some(TransactionStatus::Failed(2, 1_000));
    assert_eq!(select_events(failed, 120_999).1, Selection::Wait);
    assert_eq!(select_events(failed, 121_000), (Some(TransactionStatus::Retrying(2)), Selection::Retry));
    assert_eq!(status_after_failure(Some(TransactionStatus::Running), 9), Some(TransactionStatus::Failed(1, 9)));
    assert_eq!(status_after_failure(Some(TransactionStatus::Retrying(2)), 9), Some(TransactionStatus::Failed(3, 9)));
    assert_eq!(status_after_success(Some(TransactionStatus::Running), false), None);
}

#[test]
fn transaction_paths() {
    let server = OutgoingKind::Normal("x.org".to_string());
    let service = OutgoingKind::Appservice("bridge".to_string());
    let push = OutgoingKind::Push("@u:x".to_string(), "key".to_string());
    assert_eq!(transaction_path(&server, "T").as_deref(), Some("federation/v1/send/T"));
    assert_eq!(transaction_path(&service, "T").as_deref(), Some("/app/v1/transactions/T"));
    assert_eq!(transaction_path(&push, "T"), None);
    // [0xfb, 0xff] is "-_8" in URL-safe base64 without padding.
    assert_eq!(transaction_path_for_digest(&server, &vec![0xfb, 0xff]).as_deref(), Some("federation/v1/send/-_8"));
    assert_eq!(transaction_path_for_digest(&service, &vec![0, 0, 0]).as_deref(), Some("/app/v1/transactions/AAAA"));
}

#[test]
fn events_split_by_destination() {
    let events = vec![
        SendingEventType::Pdu("$a".to_string()),
        SendingEventType::Edu(vec![1, 2]),
        SendingEventType::Pdu("$b".to_string()),
    ];
    let (p, e) = split_events(&OutgoingKind::Normal("x".to_string()), &events);
    assert_eq!(p, strings(&["$a", "$b"]));
    assert_eq!(e, vec![vec![1u8, 2]]);
    let (p, e) = split_events(&OutgoingKind::Appservice("s".to_string()), &events);
    assert_eq!(p, strings(&["$a", "$b"]));
    assert!(e.is_empty());
}

#[test]
fn typing_notices() {
    let mut room = RoomTyping::new();
    room.add_typing("@a:x", 100);
    room.add_typing("@b:x", 50);
    room.add_typing("@a:x", 200);
    let all = room.all_typings();
    assert_eq!(all, vec![("@a:x".to_string(), 200), ("@b:x".to_string(), 50)]);
    assert!(room.expire(60));
    assert!(!room.expire(60));
    assert_eq!(room.all_typings(), vec![("@a:x".to_string(), 200)]);
    room.remove_typing("@a:x");
    assert!(room.all_typings().is_empty());
}

#[test]
fn typing_users_come_in_id_order() {
    let mut room = RoomTyping::new();
    room.add_typing("@zed:x", 1);
    room.add_typing("@alice:x", 2);
    room.add_typing("@mallory:x", 3);
    room.add_typing("@Bob:x", 4);
    room.add_typing("@alice:x", 5);
    let names: Vec<String> = room.all_typings().into_iter().map(|(u, _)| u).collect();
    assert_eq!(names, vec!["@Bob:x", "@alice:x", "@mallory:x", "@zed:x"]);
    room.remove_typing("@mallory:x");
    assert_eq!(room.all_typings(), vec![("@Bob:x".to_string(), 4), ("@alice:x".to_string(), 5), ("@zed:x".to_string(), 1)]);
}

#[test]
fn interactive_auth() {
    assert_eq!(trim("  tok \n"), "tok");
    assert_eq!(trim("\u{3000}x y\u{2028}"), "x y");
    assert_eq!(trim("   "), "");
    let token = Some("secret".to_string());
    let mut done = Vec::new();
    assert_eq!(take_submission(&AuthData::RegistrationToken(" secret ".to_string()), &token, &mut done), AuthOutcome::Accepted);
    assert_eq!(done, vec![AuthType::RegistrationToken]);
    assert_eq!(take_submission(&AuthData::RegistrationToken("nope".to_string()), &token, &mut done), AuthOutcome::InvalidToken);
    assert_eq!(take_submission(&AuthData::RegistrationToken("secret".to_string()), &None, &mut done), AuthOutcome::InvalidToken);
    assert_eq!(take_submission(&AuthData::Other, &token, &mut done), AuthOutcome::Accepted);
    assert_eq!(done, vec![AuthType::RegistrationToken]);
    let flows = vec![vec![AuthType::Password, AuthType::Terms], vec![AuthType::RegistrationToken, AuthType::Dummy]];
    assert!(!flow_completed(&flows, &done));
    assert_eq!(take_submission(&AuthData::Dummy, &token, &mut done), AuthOutcome::Accepted);
    assert!(flow_completed(&flows, &done));
    assert!(flow_completed(&vec![vec![]], &vec![]));
    let mut pw = Vec::new();
    assert_eq!(take_submission(&AuthData::Password, &None, &mut pw), AuthOutcome::Accepted);
    assert!(pw.is_empty());
    assert!(!flow_completed(&vec![vec![AuthType::Password]], &pw));
    assert!(!flow_completed(&vec![], &done));
}

fn ns(exclusive: bool, regex: &str) -> Namespace {
    Namespace { exclusive, regex: regex.to_string() }
}

#[test]
fn appservice_namespaces() {
    let users = NamespaceRegex::from_namespaces(&vec![ns(true, "^@bridge_.*:x\\.org$"), ns(false, "^@shared_.*")]).unwrap();
    assert!(users.is_match("@bridge_a:x.org"));
    assert!(users.is_exclusive_match("@bridge_a:x.org"));
    assert!(users.is_match("@shared_b:y.org"));
    assert!(!users.is_exclusive_match("@shared_b:y.org"));
    assert!(!users.is_match("@alice:x.org"));
    assert!(NamespaceRegex::from_namespaces(&vec![ns(true, "(")]).is_err());
    let empty = NamespaceRegex::from_namespaces(&vec![]).unwrap();
    assert!(!empty.is_match("anything"));
}

#[test]
fn appservice_interest() {
    let reg = RegistrationInfo {
        id: "bridge".to_string(),
        sender_localpart: "bridgebot".to_string(),
        users: NamespaceRegex::from_namespaces(&vec![ns(true, "^@bridge_.*")]).unwrap(),
        aliases: NamespaceRegex::from_namespaces(&vec![ns(true, "^#bridge_.*")]).unwrap(),
        rooms: NamespaceRegex::from_namespaces(&vec![]).unwrap(),
    };
    let alice = parse_with_server_name("@alice:x.org", "x.org").unwrap();
    let puppet = parse_with_server_name("@bridge_1:x.org", "x.org").unwrap();
    let remote_puppet = parse_with_server_name("@bridge_1:y.org", "x.org").unwrap();
    let bot = parse_with_server_name("@bridgebot:x.org", "x.org").unwrap();
    assert!(reg.is_user_match(&puppet));
    assert!(reg.is_user_match(&bot));
    assert!(!reg.is_user_match(&alice));
    assert!(reg.wants_event("x.org", true, &alice, &None, &vec![], "!r:x.org"));
    assert!(!reg.wants_event("x.org", false, &alice, &None, &vec![], "!r:x.org"));
    assert!(reg.wants_event("x.org", false, &puppet, &None, &vec![], "!r:x.org"));
    assert!(!reg.wants_event("x.org", false, &remote_puppet, &None, &vec![], "!r:x.org"));
    assert!(reg.wants_event("x.org", false, &alice, &Some(bot), &vec![], "!r:x.org"));
    assert!(reg.wants_event("x.org", false, &alice, &None, &strings(&["#bridge_room:x.org"]), "!r:x.org"));
    assert!(reg.appservice_in_room(false, &strings(&["@alice:x.org", "@bridge_2:x.org"])));
    assert!(!reg.appservice_in_room(false, &strings(&["@alice:x.org"])));
    assert!(reg.appservice_in_room(true, &vec![]));
}

#[test]
fn receipt_edus_fill_a_batch() {
    let mut batch = EduBatch { count: 0, max_sn: 5 };
    assert!(!take_receipt(&mut batch, 9, false));
    assert_eq!(batch, EduBatch { count: 0, max_sn: 9 });
    for i in 0..19 {
        assert!(!take_receipt(&mut batch, i, true));
    }
    assert!(take_receipt(&mut batch, 3, true));
    assert_eq!(batch, EduBatch { count: 20, max_sn: 18 });
}

#[test]
fn media_deletion_requests() {
    assert!(matches!(delete_media_request(Some("mxc://x/a".into()), None), Ok(DeleteMediaRequest::Mxc(m)) if m == "mxc://x/a"));
    assert!(matches!(delete_media_request(None, Some("$e".into())), Ok(DeleteMediaRequest::Event(e)) if e == "$e"));
    assert!(matches!(delete_media_request(Some("m".into()), Some("e".into())), Err(DeleteMediaError::BothGiven)));
    assert!(matches!(delete_media_request(None, None), Err(DeleteMediaError::NeitherGiven)));
}

#[test]
fn mxc_urls_of_an_event() {
    assert_eq!(mxc_from_json_text("\"mxc://x.org/abc\"").as_deref(), Some("mxc://x.org/abc"));
    assert_eq!(mxc_from_json_text("\"https://x.org/abc\""), None);
    assert_eq!(mxc_from_json_text("42"), None);
    let urls = event_mxc_urls(Some("\"mxc://x/1\""), Some("\"http://no\""), Some("\"mxc://x/3\""));
    assert_eq!(urls, strings(&["mxc://x/1", "mxc://x/3"]));
    assert!(event_mxc_urls(None, None, None).is_empty());
}

#[test]
fn admin_code_blocks() {
    let body = strings(&["```", "!a:x", "#b:x", " ``` "]);
    assert_eq!(code_block_lines(&body), Some(strings(&["!a:x", "#b:x"])));
    assert_eq!(code_block_lines(&strings(&["```text", "```"])), Some(vec![]));
    assert_eq!(code_block_lines(&strings(&["```"])), None);
    assert_eq!(code_block_lines(&strings(&["no", "```"])), None);
    assert_eq!(code_block_lines(&strings(&["```", "x", "``"])), None);
}
