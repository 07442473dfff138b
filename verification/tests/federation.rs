use palpo::acl::{acl_check, glob_match, AclContent};
use palpo::destination::{
    add_port_to_hostname, after_srv, ip_literal, after_well_known, next_backoff_mins, origin_action, start_lookup,
    well_known_cache_ms, AfterSrv, DestType, FedDest, Lookup, OriginAction,
};
use palpo::relations::{relations_limit, relations_page, user_can_perform_restricted_join, JoinRuleKind, RelatedEvent, RestrictedJoinError};
use palpo::visibility::{
    server_can_see_event, servers_route_via, user_can_see_event, user_can_see_state_events, HistoryVisibility,
    UserCanSeeEvent,
};

fn named(h: &str, p: &str) -> FedDest {
    FedDest::Named(h.to_string(), p.to_string())
}

#[test]
fn destinations_are_written_as_urls() {
    assert_eq!(named("matrix.org", ":8448").into_https_string(), "https://matrix.org:8448");
    let v4 = FedDest::Literal { ip: "198.51.100.3".to_string(), v6: false, port: 8448 };
    assert_eq!(v4.into_uri_string(), "198.51.100.3:8448");
    let v6 = FedDest::Literal { ip: "2001:db8::4:5".to_string(), v6: true, port: 443 };
    assert_eq!(v6.into_https_string(), "https://[2001:db8::4:5]:443");
    let v6 = FedDest::Literal { ip: "2001:db8::4:5".to_string(), v6: true, port: 7 };
    assert_eq!(v6.hostname(), "2001:db8::4:5");
    assert_eq!(v6.port(), Some(7));
    assert_eq!(named("h", ":8448").port(), Some(8448));
    assert_eq!(named("h", ":x").port(), None);
}

#[test]
fn default_port_is_added() {
    assert_eq!(add_port_to_hostname("example.org"), named("example.org", ":8448"));
    assert_eq!(add_port_to_hostname("example.org:80"), named("example.org", ":80"));
}

#[test]
fn well_known_backoff_doubles_up_to_an_hour() {
    assert_eq!(next_backoff_mins(None), 1);
    assert_eq!(next_backoff_mins(Some(1)), 2);
    assert_eq!(next_backoff_mins(Some(16)), 32);
    assert_eq!(next_backoff_mins(Some(32)), 60);
    assert_eq!(next_backoff_mins(Some(60)), 60);
}

#[test]
fn well_known_cache_time() {
    assert_eq!(well_known_cache_ms(None), 86_400_000);
    assert_eq!(well_known_cache_ms(Some((true, Some(5)))), 0);
    assert_eq!(well_known_cache_ms(Some((false, Some(5)))), 5);
    assert_eq!(well_known_cache_ms(Some((false, Some(999_999_999_999)))), 172_800_000);
    assert_eq!(well_known_cache_ms(Some((false, None))), 86_400_000);
}

#[test]
fn resolution_steps() {
    match start_lookup("1.2.3.4", None, false, None) {
        Lookup::Done(d, DestType::IsIpOrHasPort) => assert_eq!(d.into_uri_string(), "1.2.3.4:8448"),
        other => panic!("{other:?}"),
    }
    match start_lookup("example.org:443", None, false, None) {
        Lookup::Done(d, DestType::IsIpOrHasPort) => assert_eq!(d, named("example.org", ":443")),
        other => panic!("{other:?}"),
    }
    assert!(matches!(start_lookup("example.org", None, false, None), Lookup::AskWellKnown));
    match start_lookup("example.org", Some("delegated.org".to_string()), true, Some(4)) {
        Lookup::Srv { host, then } => {
            assert_eq!(host, "delegated.org");
            assert_eq!(then, AfterSrv::Backoff(8));
        }
        other => panic!("{other:?}"),
    }
    match after_well_known("example.org", Some(("m.example.org".to_string(), 77)), None) {
        Lookup::Srv { host, then } => {
            assert_eq!(host, "m.example.org");
            assert_eq!(then, AfterSrv::Delegated { expires: 77 });
        }
        other => panic!("{other:?}"),
    }
    match after_well_known("example.org", Some(("m.example.org:9".to_string(), 77)), None) {
        Lookup::Done(d, DestType::WellKnown { expires: 77 }) => assert_eq!(d, named("m.example.org", ":9")),
        other => panic!("{other:?}"),
    }
    match after_well_known("example.org", None, None) {
        Lookup::Srv { host, then } => {
            assert_eq!(host, "example.org");
            assert_eq!(then, AfterSrv::Backoff(1));
        }
        other => panic!("{other:?}"),
    }
}

#[test]
fn after_srv_lookup() {
    let (d, t) = after_srv("m.org".to_string(), Some((Some(8443), 50)), AfterSrv::Backoff(2), 1000);
    assert_eq!(d, named("m.org", ":8443"));
    assert_eq!(t, DestType::Srv { srv_expires: 50, well_known_retry: 121_000, well_known_backoff_mins: 2 });
    let (d, t) = after_srv("m.org".to_string(), None, AfterSrv::Backoff(2), 1000);
    assert_eq!(d, named("m.org", ":8448"));
    assert_eq!(t, DestType::LookupFailed { well_known_retry: 121_000, well_known_backoff_mins: 2 });
    let (_, t) = after_srv("m.org".to_string(), Some((None, 50)), AfterSrv::Delegated { expires: 9 }, 0);
    assert_eq!(t, DestType::WellKnownSrv { srv_expires: 50, well_known_expires: 9, well_known_host: "m.org".to_string() });
    let (_, t) = after_srv("m.org".to_string(), None, AfterSrv::Delegated { expires: 9 }, 0);
    assert_eq!(t, DestType::WellKnown { expires: 9 });
}

#[test]
fn cached_destinations() {
    let resolve = |of, only, b| OriginAction::Resolve { of_well_known_host: of, only_srv: only, backoff_mins: b };
    assert_eq!(origin_action(&None, 5), resolve(false, false, None));
    assert_eq!(origin_action(&Some(DestType::IsIpOrHasPort), 5), OriginAction::UseCached);
    assert_eq!(origin_action(&Some(DestType::WellKnown { expires: 4 }), 5), resolve(false, false, None));
    assert_eq!(origin_action(&Some(DestType::WellKnown { expires: 5 }), 5), OriginAction::UseCached);
    let wks = DestType::WellKnownSrv { srv_expires: 4, well_known_expires: 10, well_known_host: "h".to_string() };
    assert_eq!(origin_action(&Some(wks), 5), resolve(true, true, None));
    let srv = DestType::Srv { srv_expires: 4, well_known_retry: 10, well_known_backoff_mins: 3 };
    assert_eq!(origin_action(&Some(srv), 5), resolve(false, true, Some(3)));
    let failed = DestType::LookupFailed { well_known_retry: 1, well_known_backoff_mins: 8 };
    assert_eq!(origin_action(&Some(failed), 5), resolve(false, false, Some(8)));
}

fn glob(p: &str, s: &str) -> bool {
    glob_match(&p.chars().collect(), &s.chars().collect())
}

#[test]
fn glob_patterns() {
    assert!(glob("*", ""));
    assert!(glob("*", "anything"));
    assert!(glob("*.example.org", "a.example.org"));
    assert!(!glob("*.example.org", "example.org"));
    assert!(glob("?.org", "a.org"));
    assert!(!glob("?.org", "ab.org"));
    assert!(glob("a*b*c", "aXXbYYc"));
    assert!(!glob("a*b*c", "aXXbYY"));
    assert!(glob("", ""));
    assert!(!glob("", "a"));
}

fn acl(allow: &[&str], deny: &[&str], ip: bool) -> AclContent {
    AclContent {
        allow_ip_literals: ip,
        allow: allow.iter().map(|s| s.to_string()).collect(),
        deny: deny.iter().map(|s| s.to_string()).collect(),
    }
}

#[test]
fn server_acls() {
    let a = acl(&["*"], &["evil.org", "*.evil.org"], false);
    assert!(a.is_allowed("good.org"));
    assert!(a.is_allowed("good.org:8448"));
    assert!(!a.is_allowed("evil.org"));
    assert!(!a.is_allowed("sub.evil.org:443"));
    assert!(!a.is_allowed("1.2.3.4"));
    assert!(!a.is_allowed("[::1]:8448"));
    assert!(acl(&["*"], &[], true).is_allowed("1.2.3.4"));
    assert!(acl_check(&None, "x.org"));
    assert!(acl_check(&Some(None), "x.org"));
    assert!(acl_check(&Some(Some(acl(&[], &["*"], false))), "x.org"));
    assert!(!acl_check(&Some(Some(acl(&["a.org"], &[], false))), "x.org"));
}

#[test]
fn history_visibility() {
    assert!(server_can_see_event(HistoryVisibility::Shared, &vec![]));
    assert!(!server_can_see_event(HistoryVisibility::Invited, &vec![(false, true)]));
    assert!(server_can_see_event(HistoryVisibility::Invited, &vec![(false, false), (true, false)]));
    assert!(server_can_see_event(HistoryVisibility::Joined, &vec![(false, true)]));
    assert!(!server_can_see_event(HistoryVisibility::Unknown, &vec![(true, true)]));
    assert!(user_can_see_event(HistoryVisibility::WorldReadable, false, false, false, false));
    assert!(!user_can_see_event(HistoryVisibility::Shared, false, true, true, true));
    assert!(user_can_see_event(HistoryVisibility::Joined, false, false, false, true));
    assert_eq!(user_can_see_state_events(true, HistoryVisibility::Joined, None), UserCanSeeEvent::Always);
    assert_eq!(user_can_see_state_events(false, HistoryVisibility::WorldReadable, None), UserCanSeeEvent::Always);
    assert_eq!(user_can_see_state_events(false, HistoryVisibility::Shared, Some(42)), UserCanSeeEvent::Until(42));
    assert_eq!(user_can_see_state_events(false, HistoryVisibility::Shared, None), UserCanSeeEvent::Never);
    assert_eq!(UserCanSeeEvent::Always.as_until_sn(), i64::MAX);
    assert_eq!(UserCanSeeEvent::Until(7).as_until_sn(), 7);
    assert_eq!(UserCanSeeEvent::Never.as_until_sn(), 0);
}

fn strings(v: &[&str]) -> Vec<String> {
    v.iter().map(|s| s.to_string()).collect()
}

#[test]
fn route_via_servers() {
    let servers = strings(&["a", "b", "c", "d", "e", "f"]);
    assert_eq!(servers_route_via(None, servers.clone()), Vec::<String>::new());
    let users = vec![("p".to_string(), 100), ("q".to_string(), 100), ("r".to_string(), 0)];
    assert_eq!(servers_route_via(Some(users), servers.clone()), strings(&["q", "a", "b", "c", "d"]));
    let weak = vec![("p".to_string(), 49)];
    assert_eq!(servers_route_via(Some(weak), servers.clone()), strings(&["a", "b", "c", "d", "e"]));
    assert_eq!(servers_route_via(Some(vec![("p".to_string(), 50)]), strings(&["a"])), strings(&["p", "a"]));
}

#[test]
fn relation_pages() {
    assert_eq!(relations_limit(None), 10);
    assert_eq!(relations_limit(Some(5)), 5);
    assert_eq!(relations_limit(Some(500)), 100);
    assert_eq!(relations_limit(Some(u32::MAX as usize + 1)), 10);
    let ev = |sn, f, v| RelatedEvent { sn, passes_filter: f, visible: v };
    let events = vec![ev(9, true, true), ev(8, false, true), ev(7, true, false), ev(6, true, true)];
    assert_eq!(relations_page(&events, false), (vec![9, 6], Some(6)));
    assert_eq!(relations_page(&events, true), (vec![6, 9], Some(6)));
    assert_eq!(relations_page(&vec![], true), (vec![], None));
}

#[test]
fn restricted_joins() {
    let rule = |rules, rooms: Vec<bool>| Some(JoinRuleKind::Restricted { rules, joined_allowed_rooms: rooms });
    assert_eq!(user_can_perform_restricted_join("7", false, &rule(1, vec![true])), Ok(false));
    assert_eq!(user_can_perform_restricted_join("8", true, &rule(1, vec![true])), Ok(false));
    assert_eq!(user_can_perform_restricted_join("8", false, &None), Ok(false));
    assert_eq!(user_can_perform_restricted_join("8", false, &rule(0, vec![])), Ok(false));
    assert_eq!(user_can_perform_restricted_join("10", false, &rule(2, vec![false, true])), Ok(true));
    assert_eq!(
        user_can_perform_restricted_join("8", false, &rule(1, vec![false])),
        Err(RestrictedJoinError::NotInRequiredRoom)
    );
}

fn literal(ip: &str, v6: bool, port: u16) -> FedDest {
    FedDest::Literal { ip: ip.to_string(), v6, port }
}

#[test]
fn ip_literals_as_destinations() {
    assert_eq!(ip_literal("1.2.3.4"), Some(literal("1.2.3.4", false, 8448)));
    assert_eq!(ip_literal("1.2.3.4:80"), Some(literal("1.2.3.4", false, 80)));
    assert_eq!(ip_literal("2001:db8::1"), Some(literal("2001:db8::1", true, 8448)));
    assert_eq!(ip_literal("[2001:db8::1]"), Some(literal("2001:db8::1", true, 8448)));
    assert_eq!(ip_literal("[2001:db8::1]:443"), Some(literal("2001:db8::1", true, 443)));
    assert_eq!(ip_literal("[2001:db8::1]:+443"), None);
    assert_eq!(ip_literal("1.2.3.4:99999"), None);
    assert_eq!(ip_literal("example.org"), None);
    assert_eq!(ip_literal("example.org:80"), None);
    assert_eq!(ip_literal("[2001:db8::4:5]:0080"), Some(literal("2001:db8::4:5", true, 80)));
}

#[test]
fn bracketed_ipv6_without_port_uses_default_port() {
    match start_lookup("[2001:db8::1]", None, false, None) {
        Lookup::Done(d, DestType::IsIpOrHasPort) => {
            assert_eq!(d, literal("2001:db8::1", true, 8448));
            assert_eq!(d.into_https_string(), "https://[2001:db8::1]:8448");
        }
        other => panic!("{other:?}"),
    }
    match after_well_known("example.org", Some(("[::1]:9".to_string(), 5)), None) {
        Lookup::Done(d, DestType::WellKnown { expires: 5 }) => assert_eq!(d, literal("::1", true, 9)),
        other => panic!("{other:?}"),
    }
}
