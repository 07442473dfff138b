//! Server access control lists of rooms: glob patterns of server names that
//! are allowed or denied to take part in a room.
use vstd::prelude::*;

use crate::identifiers::{first_index_of, ipv4, sub_chars};
use crate::sync::strs;
use crate::text::chars_of;

verus! {

/// Whether the glob pattern `p` matches all of `s`: `*` stands for any run
/// of characters, `?` for any one character, anything else for itself.
pub open spec fn glob(p: Seq<char>, s: Seq<char>) -> bool
    decreases p.len() + s.len(),
{
    if p.len() == 0 {
        s.len() == 0
    } else if p[0] == '*' {
        glob(p.drop_first(), s) || (s.len() > 0 && glob(p, s.drop_first()))
    } else if s.len() == 0 {
        false
    } else {
        (p[0] == '?' || p[0] == s[0]) && glob(p.drop_first(), s.drop_first())
    }
}

/// Whether the glob pattern `p` matches `s`.
pub fn glob_match(p: &Vec<char>, s: &Vec<char>) -> (r: bool)
    ensures
        r == glob(p@, s@),
{
    let m = p.len();
    let n = s.len();
    // `next[j]`: whether the rest of the pattern matches the text from `j`.
    let mut next: Vec<bool> = Vec::new();
    let mut j: usize = 0;
    proof {
        assert(p@.skip(m as int).len() == 0);
    }
    while j < n
        invariant
            0 <= j <= n,
            n == s@.len(),
            m == p@.len(),
            next@.len() == j,
            forall|k: int| 0 <= k < j ==> next@[k] == glob(p@.skip(m as int), s@.skip(k)),
        decreases n - j,
    {
        next.push(false);
        j = j + 1;
    }
    next.push(true);
    assert(s@.skip(n as int).len() == 0);
    let mut i: usize = m;
    while i > 0
        invariant
            0 <= i <= m,
            n == s@.len(),
            m == p@.len(),
            next@.len() == n + 1,
            forall|k: int| 0 <= k <= n ==> next@[k] == glob(p@.skip(i as int), s@.skip(k)),
        decreases i,
    {
        let pi = p[i - 1];
        let ghost pp = p@.skip(i - 1);
        proof {
            assert(pp.drop_first() =~= p@.skip(i as int));
            assert(pp[0] == pi);
        }
        let mut cur: Vec<bool> = Vec::new();
        let mut k: usize = 0;
        while k < n
            invariant
                0 <= k <= n,
                cur@.len() == k,
            decreases n - k,
        {
            cur.push(false);
            k = k + 1;
        }
        let last = pi == '*' && next[n];
        cur.push(last);
        proof {
            assert(s@.skip(n as int).len() == 0);
            assert(last == glob(pp, s@.skip(n as int)));
        }
        let mut jj: usize = n;
        while jj > 0
            invariant
                0 <= jj <= n,
                n == s@.len(),
                cur@.len() == n + 1,
                next@.len() == n + 1,
                pp == p@.skip(i - 1),
                pp.len() > 0,
                pp[0] == pi,
                pp.drop_first() == p@.skip(i as int),
                forall|k: int| 0 <= k <= n ==> next@[k] == glob(p@.skip(i as int), s@.skip(k)),
                forall|k: int| jj <= k <= n ==> cur@[k] == glob(pp, s@.skip(k)),
            decreases jj,
        {
            let j = jj - 1;
            let ghost ss = s@.skip(j as int);
            proof {
                assert(ss.drop_first() =~= s@.skip(j + 1));
                assert(ss[0] == s@[j as int]);
            }
            let v = if pi == '*' {
                next[j] || cur[j + 1]
            } else {
                (pi == '?' || pi == s[j]) && next[j + 1]
            };
            proof {
                assert(v == glob(pp, ss));
            }
            cur.set(j, v);
            jj = j;
        }
        next = cur;
        i = i - 1;
    }
    proof {
        assert(p@.skip(0) =~= p@);
        assert(s@.skip(0) =~= s@);
    }
    next[0]
}

/// The host of a server name: a bracketed IPv6 address up to its `]`, else
/// what comes before the first `:`.
pub open spec fn server_host(s: Seq<char>) -> Seq<char> {
    if s.contains(']') {
        s.take(first_index_of(s, ']') + 1int)
    } else {
        s.take(first_index_of(s, ':') as int)
    }
}

/// Whether a server name is an IP address: its host is an IPv4 address, or
/// it starts with `[`.
pub open spec fn is_ip_literal(s: Seq<char>) -> bool {
    ipv4(server_host(s)) || (s.len() > 0 && s[0] == '[')
}

/// The server ACL of a room.
#[derive(Debug)]
pub struct AclContent {
    pub allow_ip_literals: bool,
    pub allow: Vec<String>,
    pub deny: Vec<String>,
}

/// Whether some pattern of `patterns` matches `host`.
pub open spec fn any_glob(patterns: Seq<Seq<char>>, host: Seq<char>) -> bool {
    exists|i: int| 0 <= i < patterns.len() && glob(#[trigger] patterns[i], host)
}

/// Whether the ACL lets a server take part: not an IP address unless those
/// are allowed, no deny pattern matching its host, and an allow pattern
/// matching it.
pub open spec fn acl_allows(acl: AclContent, server: Seq<char>) -> bool {
    &&& acl.allow_ip_literals || !is_ip_literal(server)
    &&& !any_glob(strs(acl.deny@), server_host(server))
    &&& any_glob(strs(acl.allow@), server_host(server))
}

fn host_chars(cs: &Vec<char>) -> (r: Vec<char>)
    ensures
        r@ == server_host(cs@),
{
    let b = crate::identifiers::first_index_exact(cs, ']');
    proof {
        crate::identifiers::lemma_first_index_of(cs@, ']');
    }
    if b < cs.len() {
        assert(cs@.contains(']')) by {
            assert(cs@[b as int] == ']');
        }
        sub_chars(cs, 0, b + 1)
    } else {
        proof {
            crate::identifiers::lemma_first_index_of(cs@, ']');
            if cs@.contains(']') {
                let k = choose|k: int| 0 <= k < cs@.len() && cs@[k] == ']';
            }
        }
        let c = crate::identifiers::first_index_exact(cs, ':');
        sub_chars(cs, 0, c)
    }
}

fn any_pattern_matches(patterns: &Vec<String>, host: &Vec<char>) -> (r: bool)
    ensures
        r == any_glob(strs(patterns@), host@),
{
    let mut i: usize = 0;
    while i < patterns.len()
        invariant
            0 <= i <= patterns@.len(),
            forall|k: int| 0 <= k < i ==> !glob(#[trigger] strs(patterns@)[k], host@),
        decreases patterns@.len() - i,
    {
        let p = chars_of(patterns[i].as_str());
        if glob_match(&p, host) {
            assert(glob(strs(patterns@)[i as int], host@));
            return true;
        }
        i = i + 1;
    }
    false
}

impl AclContent {
    /// Whether the ACL lets the server named `server` take part in the room.
    pub fn is_allowed(&self, server: &str) -> (r: bool)
        ensures
            r == acl_allows(*self, server@),
    {
        let cs = chars_of(server);
        let host = host_chars(&cs);
        let v4 = crate::identifiers::is_ipv4(&host);
        let literal = v4 || (cs.len() > 0 && cs[0] == '[');
        if !self.allow_ip_literals && literal {
            return false;
        }
        !any_pattern_matches(&self.deny, &host) && any_pattern_matches(&self.allow, &host)
    }
}

/// Whether a server may send a room's events here: always where the room
/// has no ACL (`None`), or an ACL that cannot be read (`Some(None)`), or one
/// that allows nobody (taken as broken); else as the ACL says.
pub fn acl_check(acl: &Option<Option<AclContent>>, server: &str) -> (r: bool)
    ensures
        r == (match acl {
            Some(Some(c)) => c.allow@.len() == 0 || acl_allows(*c, server@),
            _ => true,
        }),
{
    match acl {
        Some(Some(c)) => c.allow.len() == 0 || c.is_allowed(server),
        _ => true,
    }
}

/// The pattern `*` matches every name.
pub proof fn lemma_star_matches_all(s: Seq<char>)
    ensures
        glob(seq!['*'], s),
    decreases s.len(),
{
    let star = seq!['*'];
    assert(star.drop_first() =~= Seq::<char>::empty());
    assert(star[0] == '*');
    if s.len() > 0 {
        lemma_star_matches_all(s.drop_first());
    } else {
        assert(glob(star.drop_first(), s));
    }
}

/// A pattern without wildcards matches exactly itself.
pub proof fn lemma_plain_pattern(p: Seq<char>, s: Seq<char>)
    requires
        forall|i: int| 0 <= i < p.len() ==> p[i] != '*' && p[i] != '?',
    ensures
        glob(p, s) <==> p == s,
    decreases p.len() + s.len(),
{
    if p.len() > 0 && s.len() > 0 {
        let p1 = p.drop_first();
        assert forall|i: int| 0 <= i < p1.len() implies p1[i] != '*' && p1[i] != '?' by {
            assert(p1[i] == p[i + 1]);
        }
        lemma_plain_pattern(p1, s.drop_first());
        if p == s {
            assert(p1 =~= s.drop_first());
        }
        if p[0] == s[0] && p1 == s.drop_first() {
            assert forall|i: int| 0 <= i < p.len() implies p[i] == s[i] by {
                if i > 0 {
                    assert(p[i] == p1[i - 1]);
                    assert(s[i] == s.drop_first()[i - 1]);
                }
            }
            assert(p =~= s);
        }
    } else if p.len() > 0 {
        assert(p != s);
    } else if s.len() > 0 {
        assert(p != s);
    } else {
        assert(p =~= s);
    }
}

} // verus!
