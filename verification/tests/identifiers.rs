use palpo::admin::{parse_local_user_id, parse_user_id, UserIdError};
use palpo::identifiers::{
    is_ipv6, is_port, is_room_id, is_server_name, parse_port, parse_with_server_name, IdError,
};

fn chars(s: &str) -> Vec<char> {
    s.chars().collect()
}

#[test]
fn server_names_accepted() {
    for s in ["example.org", "example.org:8448", "1.2.3.4", "1.2.3.4:80", "[::1]", "[::1]:8448", "localhost", "a-b.c"] {
        assert!(is_server_name(&chars(s)), "{s}");
    }
}

#[test]
fn server_names_refused() {
    for s in ["", "exa mple.org", "example.org:", "example.org:99999", "example.org:port", "[::1", "[1.2.3]", "ex_ample.org"] {
        assert!(!is_server_name(&chars(s)), "{s}");
    }
}

#[test]
fn ipv6_literals() {
    assert!(is_ipv6(&chars("::")));
    assert!(is_ipv6(&chars("2001:db8::4:5")));
    assert!(is_ipv6(&chars("1:2:3:4:5:6:7:8")));
    assert!(is_ipv6(&chars("::ffff:1.2.3.4")));
    assert!(!is_ipv6(&chars("1:2:3:4:5:6:7:8:9")));
    assert!(!is_ipv6(&chars("1::2::3")));
    assert!(!is_ipv6(&chars("12345::")));
    assert!(!is_ipv6(&chars("1:2:3:4:5:6:7::8")));
}

#[test]
fn ports_read_like_u16() {
    assert_eq!(parse_port(&chars("8448")), Some(8448));
    assert_eq!(parse_port(&chars("+80")), Some(80));
    assert_eq!(parse_port(&chars("65535")), Some(65535));
    assert_eq!(parse_port(&chars("65536")), None);
    assert_eq!(parse_port(&chars("")), None);
    assert_eq!(parse_port(&chars("+")), None);
    assert_eq!(parse_port(&chars("-1")), None);
    assert!(is_port(&chars("0")));
    for s in ["0", "1", "443", "8448", "65535", "+7"] {
        assert_eq!(parse_port(&chars(s)), s.parse::<u16>().ok(), "{s}");
    }
}

#[test]
fn full_user_id_is_kept() {
    let u = parse_with_server_name("@alice:example.org", "other.org").unwrap();
    assert_eq!(u.as_str(), "@alice:example.org");
    assert_eq!(u.localpart(), "alice");
    assert_eq!(u.server_name(), "example.org");
    assert!(u.is_local("example.org"));
    assert!(!u.is_local("other.org"));
}

#[test]
fn bare_localpart_gets_server() {
    let u = parse_with_server_name("bob", "example.org").unwrap();
    assert_eq!(u.as_str(), "@bob:example.org");
    assert_eq!(u.server_name(), "example.org");
    assert_eq!(u.localpart(), "bob");
}

#[test]
fn user_id_errors() {
    assert!(matches!(parse_with_server_name("@alice", "x.org"), Err(IdError::MissingColon)));
    assert!(matches!(parse_with_server_name("@alice:", "x.org"), Err(IdError::InvalidServerName)));
    assert!(matches!(parse_with_server_name("@:x.org", "x.org"), Err(IdError::Empty)));
    assert!(matches!(parse_with_server_name("", "x.org"), Err(IdError::Empty)));
    assert!(matches!(parse_with_server_name("al ice", "x.org"), Err(IdError::InvalidCharacters)));
    assert!(matches!(parse_with_server_name("a:b", "x.org"), Err(IdError::InvalidCharacters)));
    let long = format!("@{}:x.org", "a".repeat(300));
    assert!(matches!(parse_with_server_name(&long, "x.org"), Err(IdError::MaximumLengthExceeded)));
}

#[test]
fn historical_localpart_accepted() {
    let u = parse_with_server_name("@Alice!:x.org", "x.org").unwrap();
    assert_eq!(u.localpart(), "Alice!");
}

#[test]
fn admin_user_ids_are_lowercased() {
    let u = parse_user_id("@Alice:Example.org", "example.org").unwrap();
    assert_eq!(u.as_str(), "@alice:example.org");
    let u = parse_user_id("BOB", "example.org").unwrap();
    assert_eq!(u.as_str(), "@bob:example.org");
}

#[test]
fn local_user_ids() {
    assert!(parse_local_user_id("carol", "example.org").is_ok());
    assert!(matches!(parse_local_user_id("@carol:other.org", "example.org"), Err(UserIdError::NotLocal)));
    assert!(matches!(
        parse_local_user_id("@carol", "example.org"),
        Err(UserIdError::Invalid(IdError::MissingColon))
    ));
}

#[test]
fn room_ids() {
    assert!(is_room_id("!abc:example.org"));
    assert!(is_room_id("!abc:example.org:8448"));
    assert!(!is_room_id("abc:example.org"));
    assert!(!is_room_id("!abc"));
    assert!(!is_room_id("!abc:bad server"));
}
