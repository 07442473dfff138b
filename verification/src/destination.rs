//! Resolving where a server's federation traffic goes: the steps of the
//! server name resolution (IP literal, explicit port, `.well-known`
//! delegation, SRV records), how long each answer is cached, and how the
//! resulting destination is written.
//!
//! Network lookups are made by the caller; each step here takes what the
//! last lookup answered and says what to do next. Times are milliseconds on
//! the caller's monotonic clock.
use vstd::prelude::*;
use vstd::string::StringExecFns;

use crate::identifiers::{
    all_dec, dec_value, first_index_of, ipv4, ipv6, is_ipv4, is_ipv6, parse_port, port, port_digits, sub_chars,
};
use crate::text::{chars_of, push_char, string_from_chars};

verus! {

/// The port federation uses where none is given.
pub const DEFAULT_PORT: u16 = 8448;

/// Where federation requests for a server are sent.
#[derive(Debug, PartialEq, Eq)]
pub enum FedDest {
    /// An IP address and a port. `ip` is the address as the standard library
    /// writes it; `v6` says whether it is an IPv6 address.
    Literal { ip: String, v6: bool, port: u16 },
    /// A host name and what follows it: empty, or `:` and a port.
    Named(String, String),
}

/// The decimal digit `d`.
pub open spec fn digit_char(d: nat) -> char {
    (('0' as u32) + d) as char
}

/// `n` in decimal, as integers are written.
pub open spec fn decimal(n: nat) -> Seq<char>
    decreases n,
{
    if n < 10 {
        seq![digit_char(n)]
    } else {
        decimal(n / 10).push(digit_char(n % 10))
    }
}

/// The view of a destination: host and suffix, or address and port.
pub open spec fn socket_text(ip: Seq<char>, v6: bool, port: u16) -> Seq<char> {
    if v6 {
        seq!['['] + ip + seq![']', ':'] + decimal(port as nat)
    } else {
        ip + seq![':'] + decimal(port as nat)
    }
}

/// How a destination is written as host and port (`host:port`, with an IPv6
/// address in brackets).
pub open spec fn uri_text(d: FedDest) -> Seq<char> {
    match d {
        FedDest::Literal { ip, v6, port } => socket_text(ip@, v6, port),
        FedDest::Named(host, port) => host@ + port@,
    }
}

fn decimal_chars(n: u16) -> (r: Vec<char>)
    ensures
        r@ == decimal(n as nat),
    decreases n,
{
    if n < 10 {
        let mut v: Vec<char> = Vec::new();
        let c = (('0' as u32) + (n as u32)) as u8 as char;
        proof {
            assert(c == digit_char(n as nat)) by {
                assert(('0' as u32) + (n as u32) < 128);
            }
        }
        v.push(c);
        proof {
            assert(v@ =~= seq![digit_char(n as nat)]);
        }
        v
    } else {
        let mut v = decimal_chars(n / 10);
        let d = n % 10;
        let c = (('0' as u32) + (d as u32)) as u8 as char;
        proof {
            assert(c == digit_char((n % 10) as nat)) by {
                assert(('0' as u32) + (d as u32) < 128);
            }
        }
        v.push(c);
        v
    }
}

/// Writes `host:port`, with an IPv6 address in brackets.
fn push_socket(out: &mut String, ip: &String, v6: bool, port: u16)
    ensures
        final(out)@ == old(out)@ + socket_text(ip@, v6, port),
{
    let ghost start = out@;
    if v6 {
        push_char(out, '[');
    }
    out.append(ip.as_str());
    if v6 {
        push_char(out, ']');
    }
    push_char(out, ':');
    let digits = decimal_chars(port);
    let text = string_from_chars(&digits);
    out.append(text.as_str());
    proof {
        if v6 {
            assert(out@ =~= start + socket_text(ip@, v6, port));
        } else {
            assert(out@ =~= start + socket_text(ip@, v6, port));
        }
    }
}

impl FedDest {
    /// The destination as an `https://` URL prefix.
    pub fn into_https_string(self) -> (r: String)
        ensures
            r@ == "https://"@ + uri_text(self),
    {
        let mut out = String::new();
        out.append("https://");
        proof {
            reveal_strlit("https://");
        }
        match &self {
            FedDest::Literal { ip, v6, port } => {
                push_socket(&mut out, ip, *v6, *port);
            },
            FedDest::Named(host, port) => {
                out.append(host.as_str());
                out.append(port.as_str());
            },
        }
        assert(out@ =~= "https://"@ + uri_text(self));
        out
    }

    /// The destination as host and port.
    pub fn into_uri_string(self) -> (r: String)
        ensures
            r@ == uri_text(self),
    {
        let mut out = String::new();
        match &self {
            FedDest::Literal { ip, v6, port } => {
                push_socket(&mut out, ip, *v6, *port);
            },
            FedDest::Named(host, port) => {
                out.append(host.as_str());
                out.append(port.as_str());
            },
        }
        assert(out@ =~= uri_text(self));
        out
    }

    /// The host: the address (without brackets) or the host name.
    pub fn hostname(&self) -> (r: String)
        ensures
            r@ == (match self {
                FedDest::Literal { ip, .. } => ip@,
                FedDest::Named(host, _) => host@,
            }),
    {
        let mut out = String::new();
        match self {
            FedDest::Literal { ip, .. } => out.append(ip.as_str()),
            FedDest::Named(host, _) => out.append(host.as_str()),
        }
        assert(out@ =~= (match self {
            FedDest::Literal { ip, .. } => ip@,
            FedDest::Named(host, _) => host@,
        }));
        out
    }

    /// The port: that of an address, or what follows the first character of
    /// a host name's suffix, where it reads as a port.
    pub fn port(&self) -> (r: Option<u16>)
        requires
            self matches FedDest::Named(_, p) ==> p@.len() > 0 && (p@[0] as u32) < 0x80,
        ensures
            r == (match self {
                FedDest::Literal { port, .. } => Some(*port),
                FedDest::Named(_, p) => if port(p@.skip(1)) {
                    Some(dec_value(port_digits(p@.skip(1))) as u16)
                } else {
                    None
                },
            }),
    {
        match self {
            FedDest::Literal { port, .. } => Some(*port),
            FedDest::Named(_, p) => {
                let cs = chars_of(p.as_str());
                let rest = sub_chars(&cs, 1, cs.len());
                assert(rest@ == p@.skip(1));
                parse_port(&rest)
            },
        }
    }
}

/// A host name with the port it names, or the default port: split at the
/// first `:`, which stays with the port.
pub open spec fn with_default_port(s: Seq<char>) -> (Seq<char>, Seq<char>) {
    let c = first_index_of(s, ':') as int;
    if c == s.len() {
        (s, ":8448"@)
    } else {
        (s.take(c), s.skip(c))
    }
}

/// The host and suffix of a destination given by name.
pub open spec fn named_parts(d: FedDest) -> (Seq<char>, Seq<char>) {
    match d {
        FedDest::Named(h, p) => (h@, p@),
        FedDest::Literal { ip, .. } => (ip@, Seq::empty()),
    }
}

/// A destination by name, with the default port where `s` names none.
pub fn add_port_to_hostname(s: &str) -> (r: FedDest)
    ensures
        r is Named,
        named_parts(r) == with_default_port(s@),
{
    proof {
        reveal_strlit(":8448");
    }
    let cs = chars_of(s);
    let c = crate::identifiers::first_index_exact(&cs, ':');
    if c == cs.len() {
        let mut port = String::new();
        port.append(":8448");
        let mut host = String::new();
        host.append(s);
        assert(host@ =~= s@);
        assert(port@ =~= ":8448"@);
        FedDest::Named(host, port)
    } else {
        let host = string_from_chars(&sub_chars(&cs, 0, c));
        let port = string_from_chars(&sub_chars(&cs, c, cs.len()));
        assert(host@ =~= s@.take(c as int));
        assert(port@ =~= s@.skip(c as int));
        FedDest::Named(host, port)
    }
}

/// How long a `.well-known` lookup that failed is not retried, in minutes:
/// twice the last wait, at most an hour; a minute after a first failure.
pub fn next_backoff_mins(last: Option<u16>) -> (r: u16)
    requires
        last matches Some(m) ==> m <= 32767,
    ensures
        r == (match last {
            Some(m) => if 2 * m < 60 {
                (2 * m) as u16
            } else {
                60u16
            },
            None => 1u16,
        }),
        1 <= r <= 60 || (last matches Some(m) && m == 0 && r == 0),
{
    match last {
        Some(m) => {
            let d = m * 2;
            if d < 60 {
                d
            } else {
                60
            }
        },
        None => 1,
    }
}

/// The wait (in milliseconds) before the `.well-known` file of a server is
/// asked for again: as the answer's cache control says (nothing where it
/// forbids storing or caching, its maximum age but at most 48 hours), else
/// 24 hours.
pub fn well_known_cache_ms(cache_control: Option<(bool, Option<u64>)>) -> (r: u64)
    ensures
        r == (match cache_control {
            Some((forbids_cache, max_age_ms)) => if forbids_cache {
                0
            } else {
                match max_age_ms {
                    Some(a) => if a < 172_800_000 {
                        a
                    } else {
                        172_800_000u64
                    },
                    None => 86_400_000u64,
                }
            },
            None => 86_400_000u64,
        }),
{
    match cache_control {
        Some((forbids_cache, max_age_ms)) => {
            if forbids_cache {
                0
            } else {
                match max_age_ms {
                    Some(a) => if a < 172_800_000 {
                        a
                    } else {
                        172_800_000
                    },
                    None => 86_400_000,
                }
            }
        },
        None => 86_400_000,
    }
}

/// How a resolved destination was found, and when each part of it is to be
/// looked up again.
#[derive(Debug, PartialEq, Eq)]
pub enum DestType {
    /// Found by SRV record of the host a `.well-known` file delegated to.
    WellKnownSrv { srv_expires: u64, well_known_expires: u64, well_known_host: String },
    /// Found in a `.well-known` file.
    WellKnown { expires: u64 },
    /// Found by SRV record after the `.well-known` lookup failed.
    Srv { srv_expires: u64, well_known_retry: u64, well_known_backoff_mins: u16 },
    /// An IP literal, or a name with a port: nothing to look up.
    IsIpOrHasPort,
    /// Every lookup failed.
    LookupFailed { well_known_retry: u64, well_known_backoff_mins: u16 },
}

/// What to do for a server whose destination may be cached.
#[derive(Debug, PartialEq, Eq)]
pub enum OriginAction {
    /// The cached destination is still good.
    UseCached,
    /// Resolve again: from the SRV lookup alone when only that expired (of
    /// the cached `.well-known` host where `of_well_known_host`), with the
    /// last `.well-known` backoff.
    Resolve { of_well_known_host: bool, only_srv: bool, backoff_mins: Option<u16> },
}

/// Whether the cached destination of a server can be used at `now`, and if
/// not, how to resolve it again.
pub fn origin_action(cached: &Option<DestType>, now: u64) -> (r: OriginAction)
    ensures
        r == (match cached {
            None => OriginAction::Resolve { of_well_known_host: false, only_srv: false, backoff_mins: None },
            Some(DestType::IsIpOrHasPort) => OriginAction::UseCached,
            Some(DestType::LookupFailed { well_known_retry, well_known_backoff_mins }) => if *well_known_retry
                < now {
                OriginAction::Resolve {
                    of_well_known_host: false,
                    only_srv: false,
                    backoff_mins: Some(*well_known_backoff_mins),
                }
            } else {
                OriginAction::UseCached
            },
            Some(DestType::WellKnown { expires }) => if *expires < now {
                OriginAction::Resolve { of_well_known_host: false, only_srv: false, backoff_mins: None }
            } else {
                OriginAction::UseCached
            },
            Some(DestType::WellKnownSrv { srv_expires, well_known_expires, .. }) => if *well_known_expires
                < now {
                OriginAction::Resolve { of_well_known_host: false, only_srv: false, backoff_mins: None }
            } else if *srv_expires < now {
                OriginAction::Resolve {
                    of_well_known_host: true,
                    only_srv: true,
                    backoff_mins: None,
                }
            } else {
                OriginAction::UseCached
            },
            Some(DestType::Srv { srv_expires, well_known_retry, well_known_backoff_mins }) => if *well_known_retry
                < now {
                OriginAction::Resolve {
                    of_well_known_host: false,
                    only_srv: false,
                    backoff_mins: Some(*well_known_backoff_mins),
                }
            } else if *srv_expires < now {
                OriginAction::Resolve {
                    of_well_known_host: false,
                    only_srv: true,
                    backoff_mins: Some(*well_known_backoff_mins),
                }
            } else {
                OriginAction::UseCached
            },
        }),
{
    match cached {
        None => OriginAction::Resolve { of_well_known_host: false, only_srv: false, backoff_mins: None },
        Some(DestType::IsIpOrHasPort) => OriginAction::UseCached,
        Some(DestType::LookupFailed { well_known_retry, well_known_backoff_mins }) => {
            if *well_known_retry < now {
                OriginAction::Resolve {
                    of_well_known_host: false,
                    only_srv: false,
                    backoff_mins: Some(*well_known_backoff_mins),
                }
            } else {
                OriginAction::UseCached
            }
        },
        Some(DestType::WellKnown { expires }) => {
            if *expires < now {
                OriginAction::Resolve { of_well_known_host: false, only_srv: false, backoff_mins: None }
            } else {
                OriginAction::UseCached
            }
        },
        Some(DestType::WellKnownSrv { srv_expires, well_known_expires, .. }) => {
            if *well_known_expires < now {
                OriginAction::Resolve { of_well_known_host: false, only_srv: false, backoff_mins: None }
            } else if *srv_expires < now {
                OriginAction::Resolve {
                    of_well_known_host: true,
                    only_srv: true,
                    backoff_mins: None,
                }
            } else {
                OriginAction::UseCached
            }
        },
        Some(DestType::Srv { srv_expires, well_known_retry, well_known_backoff_mins }) => {
            if *well_known_retry < now {
                OriginAction::Resolve {
                    of_well_known_host: false,
                    only_srv: false,
                    backoff_mins: Some(*well_known_backoff_mins),
                }
            } else if *srv_expires < now {
                OriginAction::Resolve {
                    of_well_known_host: false,
                    only_srv: true,
                    backoff_mins: Some(*well_known_backoff_mins),
                }
            } else {
                OriginAction::UseCached
            }
        },
    }
}

/// The next step in finding where a server's federation traffic goes.
#[derive(Debug)]
pub enum Lookup {
    /// Found.
    Done(FedDest, DestType),
    /// Ask the server for its `.well-known` file.
    AskWellKnown,
    /// Look up the SRV records of `host`; `then` says how the answer is
    /// cached.
    Srv { host: String, then: AfterSrv },
}

/// How the answer of an SRV lookup is cached.
#[derive(Debug, PartialEq, Eq, Structural, Clone, Copy)]
pub enum AfterSrv {
    /// The `.well-known` lookup failed (or was not made); retry it after
    /// this many minutes.
    Backoff(u16),
    /// The host was delegated to by a `.well-known` file that expires then.
    Delegated { expires: u64 },
}

/// `s` split before its first `:`.
pub open spec fn split_at_colon(s: Seq<char>) -> (Seq<char>, Seq<char>) {
    let c = first_index_of(s, ':') as int;
    (s.take(c), s.skip(c))
}

fn split_named(s: &str) -> (r: FedDest)
    requires
        s@.contains(':'),
    ensures
        r is Named,
        named_parts(r) == split_at_colon(s@),
{
    let cs = chars_of(s);
    let c = crate::identifiers::first_index_exact(&cs, ':');
    let host = string_from_chars(&sub_chars(&cs, 0, c));
    let port = string_from_chars(&sub_chars(&cs, c, cs.len()));
    assert(host@ =~= s@.take(c as int));
    assert(port@ =~= s@.skip(c as int));
    FedDest::Named(host, port)
}

fn has_colon(s: &str) -> (r: bool)
    ensures
        r == s@.contains(':'),
{
    crate::text::contains_char(s, ':')
}

/// A port as an address with a port reads it: one or more decimal digits,
/// at most 65535.
pub open spec fn socket_port(s: Seq<char>) -> bool {
    s.len() > 0 && all_dec(s) && dec_value(s) <= 65535
}

/// An IP literal as a destination gives it: the address (as written), whether
/// it is IPv6, and the port (8448 where none is given). It is an IPv4
/// address, alone or with `:port`; an IPv6 address, alone, in brackets, or
/// in brackets with `:port`.
pub open spec fn ip_literal_of(s: Seq<char>) -> Option<(Seq<char>, bool, u16)> {
    if ipv4(s) {
        Some((s, false, DEFAULT_PORT))
    } else if ipv6(s) {
        Some((s, true, DEFAULT_PORT))
    } else if s.len() > 0 && s[0] == '[' {
        let e = first_index_of(s, ']') as int;
        let inner = s.subrange(1, e);
        if e < s.len() && ipv6(inner) {
            if e + 1 == s.len() {
                Some((inner, true, DEFAULT_PORT))
            } else if s[e + 1] == ':' && socket_port(s.skip(e + 2)) {
                Some((inner, true, dec_value(s.skip(e + 2)) as u16))
            } else {
                None
            }
        } else {
            None
        }
    } else {
        let c = first_index_of(s, ':') as int;
        if c < s.len() && ipv4(s.take(c)) && socket_port(s.skip(c + 1)) {
            Some((s.take(c), false, dec_value(s.skip(c + 1)) as u16))
        } else {
            None
        }
    }
}

/// Whether `d` is the literal destination `lit` gives.
pub open spec fn is_literal_of(d: FedDest, lit: (Seq<char>, bool, u16)) -> bool {
    d matches FedDest::Literal { ip, v6, port } && ip@ == lit.0 && v6 == lit.1 && port == lit.2
}

fn read_socket_port(cs: &Vec<char>, start: usize) -> (r: Option<u16>)
    requires
        start <= cs@.len(),
    ensures
        match r {
            Some(p) => socket_port(cs@.skip(start as int)) && p == dec_value(cs@.skip(start as int)),
            None => !socket_port(cs@.skip(start as int)),
        },
{
    let rest = sub_chars(cs, start, cs.len());
    assert(rest@ == cs@.skip(start as int));
    if rest.len() > 0 && rest[0] == '+' {
        proof {
            assert(!crate::identifiers::is_dec(rest@[0]));
        }
        return None;
    }
    assert(port_digits(rest@) == rest@);
    parse_port(&rest)
}

/// Reads a destination as an IP literal: see `ip_literal_of`.
pub fn ip_literal(s: &str) -> (r: Option<FedDest>)
    ensures
        match ip_literal_of(s@) {
            Some(lit) => r matches Some(d) && is_literal_of(d, lit),
            None => r is None,
        },
{
    let cs = chars_of(s);
    if is_ipv4(&cs) {
        return Some(FedDest::Literal { ip: crate::text::to_owned_string(s), v6: false, port: DEFAULT_PORT });
    }
    if is_ipv6(&cs) {
        return Some(FedDest::Literal { ip: crate::text::to_owned_string(s), v6: true, port: DEFAULT_PORT });
    }
    if cs.len() > 0 && cs[0] == '[' {
        let e = crate::identifiers::first_index_exact(&cs, ']');
        proof {
            crate::identifiers::lemma_first_index_of(cs@, ']');
        }
        if e == cs.len() || e < 1 {
            return None;
        }
        let inner = sub_chars(&cs, 1, e);
        if !is_ipv6(&inner) {
            return None;
        }
        let ip = string_from_chars(&inner);
        if e + 1 == cs.len() {
            return Some(FedDest::Literal { ip, v6: true, port: DEFAULT_PORT });
        }
        if cs[e + 1] != ':' {
            return None;
        }
        return match read_socket_port(&cs, e + 2) {
            Some(p) => Some(FedDest::Literal { ip, v6: true, port: p }),
            None => None,
        };
    }
    let c = crate::identifiers::first_index_exact(&cs, ':');
    if c == cs.len() {
        return None;
    }
    let host = sub_chars(&cs, 0, c);
    assert(host@ == cs@.take(c as int));
    if !is_ipv4(&host) {
        return None;
    }
    match read_socket_port(&cs, c + 1) {
        Some(p) => Some(FedDest::Literal { ip: string_from_chars(&host), v6: false, port: p }),
        None => None,
    }
}

/// The first step of resolving `destination`: with `only_srv`, the SRV
/// lookup alone (of `well_known_host` where given); else an IP literal (with
/// its port, or 8448) or a name with a port is used as it is, and anything
/// else needs the `.well-known` file.
pub fn start_lookup(
    destination: &str,
    well_known_host: Option<String>,
    only_srv: bool,
    backoff_mins: Option<u16>,
) -> (r: Lookup)
    requires
        backoff_mins matches Some(m) ==> m <= 32767,
    ensures
        only_srv ==> (r matches Lookup::Srv { host, then } && host@ == (match well_known_host {
            Some(h) => h@,
            None => destination@,
        }) && then == AfterSrv::Backoff(next_backoff_spec(backoff_mins))),
        !only_srv && ip_literal_of(destination@) is Some ==> (r matches Lookup::Done(d, t) && t
            == DestType::IsIpOrHasPort && is_literal_of(d, ip_literal_of(destination@)->0)),
        !only_srv && ip_literal_of(destination@) is None && destination@.contains(':') ==> (r matches Lookup::Done(
            d,
            t,
        ) && t == DestType::IsIpOrHasPort && d is Named && named_parts(d) == split_at_colon(destination@)),
        !only_srv && ip_literal_of(destination@) is None && !destination@.contains(':') ==> r
            == Lookup::AskWellKnown,
{
    if only_srv {
        let host = match well_known_host {
            Some(h) => h,
            None => crate::text::to_owned_string(destination),
        };
        return Lookup::Srv { host, then: AfterSrv::Backoff(next_backoff_mins(backoff_mins)) };
    }
    match ip_literal(destination) {
        Some(l) => Lookup::Done(l, DestType::IsIpOrHasPort),
        None => {
            if has_colon(destination) {
                Lookup::Done(split_named(destination), DestType::IsIpOrHasPort)
            } else {
                Lookup::AskWellKnown
            }
        },
    }
}

/// The backoff after a failed `.well-known` lookup, as `next_backoff_mins`
/// computes it.
pub open spec fn next_backoff_spec(last: Option<u16>) -> u16 {
    match last {
        Some(m) => if 2 * m < 60 {
            (2 * m) as u16
        } else {
            60u16
        },
        None => 1u16,
    }
}

/// The step after the `.well-known` request: the delegated host (with the
/// time its answer expires) is used as it is where it is an IP literal
/// or names a port, else its SRV records are looked
/// up; without an answer, the SRV records of `destination` are.
pub fn after_well_known(
    destination: &str,
    answer: Option<(String, u64)>,
    backoff_mins: Option<u16>,
) -> (r: Lookup)
    requires
        backoff_mins matches Some(m) ==> m <= 32767,
    ensures
        answer is None ==> (r matches Lookup::Srv { host, then } && host@ == destination@ && then
            == AfterSrv::Backoff(next_backoff_spec(backoff_mins))),
        answer matches Some((d, t)) ==> {
            &&& ip_literal_of(d@) is Some ==> (r matches Lookup::Done(n, k) && k
                == DestType::WellKnown { expires: t } && is_literal_of(n, ip_literal_of(d@)->0))
            &&& ip_literal_of(d@) is None && d@.contains(':') ==> (r matches Lookup::Done(n, k) && k
                == DestType::WellKnown { expires: t } && n is Named && named_parts(n) == split_at_colon(d@))
            &&& ip_literal_of(d@) is None && !d@.contains(':') ==> (r matches Lookup::Srv { host, then }
                && host@ == d@ && then == AfterSrv::Delegated { expires: t })
        },
{
    match answer {
        None => Lookup::Srv {
            host: crate::text::to_owned_string(destination),
            then: AfterSrv::Backoff(next_backoff_mins(backoff_mins)),
        },
        Some((delegated, expires)) => match ip_literal(delegated.as_str()) {
            Some(l) => Lookup::Done(l, DestType::WellKnown { expires }),
            None => {
                if has_colon(delegated.as_str()) {
                    Lookup::Done(split_named(delegated.as_str()), DestType::WellKnown { expires })
                } else {
                    Lookup::Srv { host: delegated, then: AfterSrv::Delegated { expires } }
                }
            },
        },
    }
}

/// The destination after the SRV lookup of `host`: the host with the port of
/// the SRV record that was found (`found` holds that port and when the
/// record expires), else the host with its own or the default port; and how
/// it is cached. A failed `.well-known` lookup is retried `backoff` minutes
/// after `now`.
pub fn after_srv(host: String, found: Option<(Option<u16>, u64)>, then: AfterSrv, now: u64) -> (r: (FedDest, DestType))
    requires
        then matches AfterSrv::Backoff(b) ==> now + 60_000 * b <= u64::MAX,
    ensures
        r.0 is Named,
        named_parts(r.0) == (match found {
            Some((Some(p), _)) => (host@, seq![':'] + decimal(p as nat)),
            _ => with_default_port(host@),
        }),
        (match then {
            AfterSrv::Backoff(b) => match found {
                Some((_, e)) => r.1 == DestType::Srv {
                    srv_expires: e,
                    well_known_retry: (now + 60_000 * b) as u64,
                    well_known_backoff_mins: b,
                },
                None => r.1 == DestType::LookupFailed {
                    well_known_retry: (now + 60_000 * b) as u64,
                    well_known_backoff_mins: b,
                },
            },
            AfterSrv::Delegated { expires } => match found {
                Some((_, e)) => r.1 matches DestType::WellKnownSrv { srv_expires, well_known_expires, well_known_host }
                    && srv_expires == e && well_known_expires == expires && well_known_host@ == host@,
                None => r.1 == DestType::WellKnown { expires },
            },
        }),
{
    let dest = match found {
        Some((Some(p), _)) => {
            let mut port = String::new();
            push_char(&mut port, ':');
            let digits = decimal_chars(p);
            let text = string_from_chars(&digits);
            port.append(text.as_str());
            assert(port@ =~= seq![':'] + decimal(p as nat));
            FedDest::Named(crate::text::to_owned_string(host.as_str()), port)
        },
        _ => add_port_to_hostname(host.as_str()),
    };
    let kind = match then {
        AfterSrv::Backoff(b) => {
            let retry = now + 60_000 * (b as u64);
            match found {
                Some((_, e)) => DestType::Srv { srv_expires: e, well_known_retry: retry, well_known_backoff_mins: b },
                None => DestType::LookupFailed { well_known_retry: retry, well_known_backoff_mins: b },
            }
        },
        AfterSrv::Delegated { expires } => match found {
            Some((_, e)) => DestType::WellKnownSrv { srv_expires: e, well_known_expires: expires, well_known_host: host },
            None => DestType::WellKnown { expires },
        },
    };
    (dest, kind)
}

} // verus!
