//! The grammar of Matrix identifiers: server names (with IPv4 and IPv6
//! literals) and user ids.
use vstd::prelude::*;
use vstd::string::StrSliceExecFns;
use vstd::string::StringExecFns;

use crate::text::{chars_of, to_owned_string};

verus! {

/// An ASCII decimal digit.
pub open spec fn is_dec(c: char) -> bool {
    '0' <= c <= '9'
}

/// An ASCII hexadecimal digit, either case.
pub open spec fn is_hex(c: char) -> bool {
    ||| '0' <= c <= '9'
    ||| 'a' <= c <= 'f'
    ||| 'A' <= c <= 'F'
}

/// The pieces of `s` between occurrences of `sep` (one piece when `sep` does
/// not occur; an empty `s` is one empty piece).
pub open spec fn split_on(s: Seq<char>, sep: char) -> Seq<Seq<char>>
    decreases s.len(),
{
    if s.len() == 0 {
        seq![Seq::empty()]
    } else {
        let rest = split_on(s.drop_last(), sep);
        if s.last() == sep {
            rest.push(Seq::empty())
        } else {
            rest.update(rest.len() - 1, rest.last().push(s.last()))
        }
    }
}

/// The decimal value of a string of digits.
pub open spec fn dec_value(s: Seq<char>) -> nat
    decreases s.len(),
{
    if s.len() == 0 {
        0
    } else {
        dec_value(s.drop_last()) * 10 + (s.last() as nat - '0' as nat) as nat
    }
}

/// One group of an IPv6 address: one to four hex digits.
pub open spec fn hex_group(s: Seq<char>) -> bool {
    1 <= s.len() <= 4 && forall|i: int| 0 <= i < s.len() ==> is_hex(s[i])
}

/// One octet of an IPv4 address: one to three decimal digits, at most 255,
/// with no leading zero unless it is the only digit.
pub open spec fn octet(s: Seq<char>) -> bool {
    &&& 1 <= s.len() <= 3
    &&& forall|i: int| 0 <= i < s.len() ==> is_dec(s[i])
    &&& dec_value(s) <= 255
    &&& (s.len() == 1 || s[0] != '0')
}

/// A dotted-quad IPv4 address.
pub open spec fn ipv4(s: Seq<char>) -> bool {
    let parts = split_on(s, '.');
    parts.len() == 4 && forall|i: int| 0 <= i < 4 ==> octet(#[trigger] parts[i])
}

/// How many 16-bit groups a colon-separated list of groups stands for (an
/// IPv4 address at its end counts two, where allowed); `None` when the list is
/// not well-formed. The empty list stands for none.
pub open spec fn group_count(s: Seq<char>, allow_v4: bool) -> Option<nat> {
    if s.len() == 0 {
        Some(0)
    } else {
        let parts = split_on(s, ':');
        let n = parts.len();
        if forall|i: int| 0 <= i < n - 1 ==> hex_group(#[trigger] parts[i]) {
            if hex_group(parts[n - 1]) {
                Some(n)
            } else if allow_v4 && ipv4(parts[n - 1]) {
                Some((n + 1) as nat)
            } else {
                None
            }
        } else {
            None
        }
    }
}

/// Whether `s` has `::` at position `i`.
pub open spec fn double_colon_at(s: Seq<char>, i: int) -> bool {
    0 <= i && i + 1 < s.len() && s[i] == ':' && s[i + 1] == ':'
}

/// Whether position `p` holds the first `::` of `s`.
pub open spec fn first_double_colon(s: Seq<char>, p: int) -> bool {
    double_colon_at(s, p) && forall|j: int| 0 <= j < p ==> !double_colon_at(s, j)
}

/// Whether the groups before and after a `::` at `p` leave room for it to
/// stand for at least one zero group.
pub open spec fn around_gap(s: Seq<char>, p: int) -> bool {
    let head = group_count(s.take(p), false);
    let tail = group_count(s.skip(p + 2), true);
    head is Some && tail is Some && head->0 + tail->0 <= 7
}

/// A textual IPv6 address as the standard library reads it: eight groups, or
/// fewer around one `::` standing for at least one zero group; an IPv4
/// address may stand for the last two groups.
pub open spec fn ipv6(s: Seq<char>) -> bool {
    if exists|i: int| #[trigger] double_colon_at(s, i) {
        exists|p: int| #[trigger] first_double_colon(s, p) && around_gap(s, p)
    } else {
        group_count(s, true) == Some(8nat)
    }
}

/// An ASCII letter or digit, `-` or `.`: what a host name is made of.
pub open spec fn is_host_char(c: char) -> bool {
    ||| '0' <= c <= '9'
    ||| 'a' <= c <= 'z'
    ||| 'A' <= c <= 'Z'
    ||| c == '-'
    ||| c == '.'
}

/// Every character of `t` is a decimal digit.
pub open spec fn all_dec(t: Seq<char>) -> bool {
    forall|i: int| 0 <= i < t.len() ==> is_dec(#[trigger] t[i])
}

/// The digits of a port: what follows an optional leading `+`.
pub open spec fn port_digits(s: Seq<char>) -> Seq<char> {
    if s.len() > 0 && s[0] == '+' {
        s.skip(1)
    } else {
        s
    }
}

/// A port as `u16::from_str` reads it: an optional `+`, then one or more
/// digits, at most 65535.
pub open spec fn port(s: Seq<char>) -> bool {
    let d = port_digits(s);
    d.len() > 0 && all_dec(d) && dec_value(d) <= 65535
}

/// Whether `e` is the first position of `c` in `s`, or the length of `s`
/// where `c` does not occur.
pub open spec fn first_at(s: Seq<char>, c: char, e: int) -> bool {
    &&& 0 <= e <= s.len()
    &&& e < s.len() ==> s[e] == c
    &&& forall|j: int| 0 <= j < e ==> s[j] != c
}

/// What may follow the host of a server name that ends before `end`:
/// nothing, or `:` and a port.
pub open spec fn port_suffix(s: Seq<char>, end: int) -> bool {
    end == s.len() || (0 <= end < s.len() && s[end] == ':' && port(s.skip(end + 1)))
}

/// The host of a server name with its optional port, where `e` is the first
/// `]` (for a bracketed IPv6 literal) or the first `:` (otherwise).
pub open spec fn host_then_port(s: Seq<char>, e: int) -> bool {
    if s[0] == '[' {
        e < s.len() && ipv6(s.subrange(1, e)) && port_suffix(s, e + 1)
    } else {
        (forall|i: int| 0 <= i < e ==> is_host_char(s[i])) && port_suffix(s, e)
    }
}

/// A server name: a host (a bracketed IPv6 address, or host-name
/// characters), optionally followed by `:` and a port.
pub open spec fn server_name(s: Seq<char>) -> bool {
    s.len() > 0 && exists|e: int| #[trigger] first_at(s, host_stop(s), e) && host_then_port(s, e)
}

/// The character that ends the host part: `]` after a bracketed literal,
/// `:` otherwise.
pub open spec fn host_stop(s: Seq<char>) -> char {
    if s.len() > 0 && s[0] == '[' {
        ']'
    } else {
        ':'
    }
}

proof fn lemma_first_at_unique(s: Seq<char>, c: char, e1: int, e2: int)
    requires
        first_at(s, c, e1),
        first_at(s, c, e2),
    ensures
        e1 == e2,
{
    if e1 < e2 {
        assert(s[e1] != c);
    } else if e2 < e1 {
        assert(s[e2] != c);
    }
}

proof fn lemma_split_on_len(s: Seq<char>, sep: char)
    ensures
        split_on(s, sep).len() >= 1,
    decreases s.len(),
{
    if s.len() > 0 {
        lemma_split_on_len(s.drop_last(), sep);
    }
}

/// Splits `s` at every `sep`.
fn split_chars(s: &Vec<char>, sep: char) -> (r: Vec<Vec<char>>)
    ensures
        r@.len() == split_on(s@, sep).len(),
        forall|i: int| 0 <= i < r@.len() ==> (#[trigger] r@[i])@ == split_on(s@, sep)[i],
{
    let mut parts: Vec<Vec<char>> = Vec::new();
    parts.push(Vec::new());
    let mut i: usize = 0;
    assert(s@.take(0) =~= Seq::<char>::empty());
    while i < s.len()
        invariant
            0 <= i <= s@.len(),
            parts@.len() == split_on(s@.take(i as int), sep).len(),
            parts@.len() >= 1,
            forall|k: int| 0 <= k < parts@.len() ==> (#[trigger] parts@[k])@ == split_on(s@.take(i as int), sep)[k],
        decreases s@.len() - i,
    {
        let c = s[i];
        let ghost prev = split_on(s@.take(i as int), sep);
        proof {
            assert(s@.take(i + 1).drop_last() == s@.take(i as int));
            assert(s@.take(i + 1).last() == c);
        }
        if c == sep {
            parts.push(Vec::new());
            proof {
                assert forall|k: int| 0 <= k < parts@.len() implies (#[trigger] parts@[k])@ == split_on(
                    s@.take(i + 1),
                    sep,
                )[k] by {
                    if k == parts@.len() - 1 {
                        assert(parts@[k]@ =~= Seq::<char>::empty());
                    }
                }
            }
        } else {
            let mut last = parts.pop().unwrap();
            last.push(c);
            parts.push(last);
            proof {
                assert forall|k: int| 0 <= k < parts@.len() implies (#[trigger] parts@[k])@ == split_on(
                    s@.take(i + 1),
                    sep,
                )[k] by {
                    if k == parts@.len() - 1 {
                        assert(parts@[k]@ =~= prev.last().push(c));
                    }
                }
            }
        }
        i = i + 1;
    }
    assert(s@.take(s@.len() as int) == s@);
    parts
}

fn is_hex_char(c: char) -> (r: bool)
    ensures
        r == is_hex(c),
{
    ('0' <= c && c <= '9') || ('a' <= c && c <= 'f') || ('A' <= c && c <= 'F')
}

fn is_hex_group(s: &Vec<char>) -> (r: bool)
    ensures
        r == hex_group(s@),
{
    if s.len() < 1 || s.len() > 4 {
        return false;
    }
    let mut i: usize = 0;
    while i < s.len()
        invariant
            0 <= i <= s@.len(),
            forall|j: int| 0 <= j < i ==> is_hex(s@[j]),
        decreases s@.len() - i,
    {
        if !is_hex_char(s[i]) {
            return false;
        }
        i = i + 1;
    }
    true
}

/// The value of a run of at most `max` digits, if every character is a digit.
fn digits_value(s: &Vec<char>, start: usize, max: usize) -> (r: Option<u32>)
    requires
        start <= s@.len(),
        s@.len() - start <= max,
        max <= 5,
    ensures
        r is Some <==> forall|i: int| start <= i < s@.len() ==> is_dec(s@[i]),
        r matches Some(v) ==> v == dec_value(s@.skip(start as int)),
{
    let mut v: u32 = 0;
    let mut i: usize = start;
    assert(s@.skip(start as int).take(0) =~= Seq::<char>::empty());
    while i < s.len()
        invariant
            start <= i <= s@.len(),
            s@.len() - start <= max,
            max <= 5,
            forall|j: int| start <= j < i ==> is_dec(s@[j]),
            v == dec_value(s@.skip(start as int).take(i - start)),
            v < pow10((i - start) as nat),
        decreases s@.len() - i,
    {
        let c = s[i];
        if !('0' <= c && c <= '9') {
            return None;
        }
        proof {
            let t = s@.skip(start as int);
            assert(t.take(i + 1 - start).drop_last() == t.take(i - start));
            assert(t.take(i + 1 - start).last() == c);
            lemma_pow10_bound((i - start) as nat);
        }
        v = v * 10 + (c as u32 - '0' as u32);
        i = i + 1;
    }
    assert(s@.skip(start as int).take(s@.len() - start) == s@.skip(start as int));
    Some(v)
}

/// Ten to the `n`.
pub open spec fn pow10(n: nat) -> nat
    decreases n,
{
    if n == 0 {
        1
    } else {
        10 * pow10((n - 1) as nat)
    }
}

proof fn lemma_pow10_bound(n: nat)
    requires
        n <= 4,
    ensures
        pow10(n) <= 10000,
        pow10(n + 1) == 10 * pow10(n),
{
    reveal_with_fuel(pow10, 6);
}

fn is_octet(s: &Vec<char>) -> (r: bool)
    ensures
        r == octet(s@),
{
    if s.len() < 1 || s.len() > 3 {
        return false;
    }
    assert(s@.skip(0) == s@);
    match digits_value(s, 0, 3) {
        None => false,
        Some(v) => v <= 255 && (s.len() == 1 || s[0] != '0'),
    }
}

/// Whether `s` is a dotted-quad IPv4 address.
pub fn is_ipv4(s: &Vec<char>) -> (r: bool)
    ensures
        r == ipv4(s@),
{
    let parts = split_chars(s, '.');
    if parts.len() != 4 {
        return false;
    }
    let mut i: usize = 0;
    while i < 4
        invariant
            0 <= i <= 4,
            parts@.len() == 4,
            split_on(s@, '.').len() == 4,
            forall|k: int| 0 <= k < 4 ==> (#[trigger] parts@[k])@ == split_on(s@, '.')[k],
            forall|k: int| 0 <= k < i ==> octet(#[trigger] split_on(s@, '.')[k]),
        decreases 4 - i,
    {
        if !is_octet(&parts[i]) {
            return false;
        }
        i = i + 1;
    }
    true
}

fn count_groups(s: &Vec<char>, allow_v4: bool) -> (r: Option<u128>)
    ensures
        r is Some <==> group_count(s@, allow_v4) is Some,
        r matches Some(v) ==> v == group_count(s@, allow_v4)->0,
{
    if s.len() == 0 {
        return Some(0);
    }
    let parts = split_chars(s, ':');
    let n = parts.len();
    proof {
        lemma_split_on_len(s@, ':');
    }
    let mut i: usize = 0;
    while i + 1 < n
        invariant
            0 <= i < n,
            n == parts@.len(),
            n == split_on(s@, ':').len(),
            forall|k: int| 0 <= k < n ==> (#[trigger] parts@[k])@ == split_on(s@, ':')[k],
            forall|k: int| 0 <= k < i ==> hex_group(#[trigger] split_on(s@, ':')[k]),
        decreases n - i,
    {
        if !is_hex_group(&parts[i]) {
            return None;
        }
        i = i + 1;
    }
    if is_hex_group(&parts[n - 1]) {
        Some(n as u128)
    } else if allow_v4 && is_ipv4(&parts[n - 1]) {
        Some(n as u128 + 1)
    } else {
        None
    }
}

/// The characters of `s` from `a` up to `b`.
pub fn sub_chars(s: &Vec<char>, a: usize, b: usize) -> (r: Vec<char>)
    requires
        a <= b <= s@.len(),
    ensures
        r@ == s@.subrange(a as int, b as int),
{
    let mut out: Vec<char> = Vec::new();
    let mut i: usize = a;
    while i < b
        invariant
            a <= i <= b,
            b <= s@.len(),
            out@ == s@.subrange(a as int, i as int),
        decreases b - i,
    {
        out.push(s[i]);
        assert(s@.subrange(a as int, i + 1) == s@.subrange(a as int, i as int).push(s@[i as int]));
        i = i + 1;
    }
    out
}

fn find_double_colon(s: &Vec<char>) -> (r: Option<usize>)
    ensures
        r is None <==> !exists|i: int| #[trigger] double_colon_at(s@, i),
        r matches Some(p) ==> first_double_colon(s@, p as int),
{
    let mut i: usize = 0;
    while i < s.len()
        invariant
            0 <= i <= s@.len(),
            forall|j: int| 0 <= j < i ==> !double_colon_at(s@, j),
        decreases s@.len() - i,
    {
        if i + 1 < s.len() && s[i] == ':' && s[i + 1] == ':' {
            assert(double_colon_at(s@, i as int));
            return Some(i);
        }
        i = i + 1;
    }
    None
}

/// Whether `s` is an IPv6 address as the standard library reads it.
pub fn is_ipv6(s: &Vec<char>) -> (r: bool)
    ensures
        r == ipv6(s@),
{
    match find_double_colon(s) {
        Some(p) => {
            let n = s.len();
            assert(double_colon_at(s@, p as int));
            assert(p + 2 <= n);
            let head = sub_chars(s, 0, p);
            let tail = sub_chars(s, p + 2, s.len());
            assert(head@ == s@.take(p as int));
            assert(tail@ == s@.skip(p + 2));
            let ok = match (count_groups(&head, false), count_groups(&tail, true)) {
                (Some(h), Some(t)) => h <= 7 && t <= 7 - h,
                _ => false,
            };
            proof {
                let hg = group_count(s@.take(p as int), false);
                let tg = group_count(s@.skip(p + 2), true);
                assert(ok == (hg is Some && tg is Some && hg->0 + tg->0 <= 7));
                assert(ok == around_gap(s@, p as int));
                if ok {
                    assert(first_double_colon(s@, p as int));
                } else {
                    assert forall|q: int| #[trigger] first_double_colon(s@, q) implies !around_gap(s@, q) by {
                        if q < p {
                            assert(!double_colon_at(s@, q));
                        } else if q > p {
                            assert(!double_colon_at(s@, p as int));
                        }
                    }
                }
            }
            ok
        },
        None => match count_groups(s, true) {
            Some(v) => v == 8,
            None => false,
        },
    }
}

/// Whether `s` is a port as `u16::from_str` reads it.
pub fn is_port(s: &Vec<char>) -> (r: bool)
    ensures
        r == port(s@),
{
    parse_port(s).is_some()
}

/// Reads a port as `u16::from_str` does: an optional `+` and decimal digits,
/// at most 65535.
pub fn parse_port(s: &Vec<char>) -> (r: Option<u16>)
    ensures
        r is Some <==> port(s@),
        r matches Some(v) ==> v == dec_value(port_digits(s@)),
{
    let start: usize = if s.len() > 0 && s[0] == '+' {
        1
    } else {
        0
    };
    let ghost digits = port_digits(s@);
    assert(digits == s@.skip(start as int));
    if start >= s.len() {
        assert(digits.len() == 0);
        return None;
    }
    let mut v: u32 = 0;
    let mut i: usize = start;
    assert(digits.take(0) =~= Seq::<char>::empty());
    while i < s.len()
        invariant
            start <= i <= s@.len(),
            digits == s@.skip(start as int),
            digits == port_digits(s@),
            forall|j: int| start <= j < i ==> is_dec(s@[j]),
            v == (if dec_value(digits.take(i - start)) > 65535 {
                65536
            } else {
                dec_value(digits.take(i - start))
            }),
        decreases s@.len() - i,
    {
        let c = s[i];
        if !('0' <= c && c <= '9') {
            assert(digits[i - start] == c);
            assert(!all_dec(digits));
            return None;
        }
        proof {
            assert(digits.take(i + 1 - start).drop_last() == digits.take(i - start));
            assert(digits.take(i + 1 - start).last() == c);
        }
        let d = c as u32 - '0' as u32;
        if v > 65535 {
            v = 65536;
        } else {
            v = v * 10 + d;
            if v > 65535 {
                v = 65536;
            }
        }
        i = i + 1;
    }
    assert(digits.take(s@.len() - start) == digits);
    assert(all_dec(digits)) by {
        assert forall|k: int| 0 <= k < digits.len() implies is_dec(#[trigger] digits[k]) by {
            assert(digits[k] == s@[k + start]);
        }
    }
    if v <= 65535 {
        Some(v as u16)
    } else {
        None
    }
}

fn is_host_name_char(c: char) -> (r: bool)
    ensures
        r == is_host_char(c),
{
    ('0' <= c && c <= '9') || ('a' <= c && c <= 'z') || ('A' <= c && c <= 'Z') || c == '-' || c == '.'
}

/// The first position of `c` in `s`, or the length of `s`.
fn first_index(s: &Vec<char>, c: char) -> (r: usize)
    ensures
        first_at(s@, c, r as int),
{
    let mut i: usize = 0;
    while i < s.len()
        invariant
            0 <= i <= s@.len(),
            forall|j: int| 0 <= j < i ==> s@[j] != c,
        decreases s@.len() - i,
    {
        if s[i] == c {
            return i;
        }
        i = i + 1;
    }
    i
}

/// Whether `s` is a server name.
pub fn is_server_name(s: &Vec<char>) -> (r: bool)
    ensures
        r == server_name(s@),
{
    if s.len() == 0 {
        return false;
    }
    let stop = if s[0] == '[' {
        ']'
    } else {
        ':'
    };
    assert(stop == host_stop(s@));
    let e = first_index(s, stop);
    let ok = host_then_port_at(s, e);
    proof {
        if ok {
            assert(first_at(s@, stop, e as int));
        } else {
            assert forall|q: int| #[trigger] first_at(s@, stop, q) implies !host_then_port(s@, q) by {
                lemma_first_at_unique(s@, stop, q, e as int);
            }
        }
    }
    ok
}

fn port_suffix_at(s: &Vec<char>, end: usize) -> (r: bool)
    requires
        end <= s@.len(),
    ensures
        r == port_suffix(s@, end as int),
{
    if end == s.len() {
        return true;
    }
    if s[end] != ':' {
        return false;
    }
    let rest = sub_chars(s, end + 1, s.len());
    assert(rest@ == s@.skip(end + 1));
    is_port(&rest)
}

fn host_then_port_at(s: &Vec<char>, e: usize) -> (r: bool)
    requires
        s@.len() > 0,
        e <= s@.len(),
        s@[0] == '[' ==> e >= 1 || e == s@.len(),
    ensures
        r == host_then_port(s@, e as int),
{
    if s[0] == '[' {
        if e == s.len() {
            return false;
        }
        let inner = sub_chars(s, 1, e);
        if !is_ipv6(&inner) {
            return false;
        }
        port_suffix_at(s, e + 1)
    } else {
        let mut i: usize = 0;
        while i < e
            invariant
                0 <= i <= e,
                e <= s@.len(),
                s@.len() > 0,
                s@[0] != '[',
                forall|j: int| 0 <= j < i ==> is_host_char(s@[j]),
            decreases e - i,
        {
            if !is_host_name_char(s[i]) {
                assert(!is_host_char(s@[i as int]));
                return false;
            }
            i = i + 1;
        }
        port_suffix_at(s, e)
    }
}

/// The first position of `c` in `s`, or the length of `s`.
pub open spec fn first_index_of(s: Seq<char>, c: char) -> nat
    decreases s.len(),
{
    if s.len() == 0 {
        0
    } else if s[0] == c {
        0
    } else {
        1 + first_index_of(s.drop_first(), c)
    }
}

/// The first position of `c` in `s` is where `c` first occurs, or the
/// length of `s`.
pub proof fn lemma_first_index_of(s: Seq<char>, c: char)
    ensures
        first_at(s, c, first_index_of(s, c) as int),
    decreases s.len(),
{
    if s.len() > 0 && s[0] != c {
        let t = s.drop_first();
        lemma_first_index_of(t, c);
        let k = first_index_of(t, c) as int;
        assert forall|j: int| 0 <= j < k + 1 implies s[j] != c by {
            if j > 0 {
                assert(s[j] == t[j - 1]);
            }
        }
        if k + 1 < s.len() {
            assert(s[k + 1] == t[k]);
        }
    }
}

proof fn lemma_utf8_len_bounds(s: Seq<char>)
    ensures
        s.len() <= vstd::utf8::encode_utf8(s).len() <= 4 * s.len(),
    decreases s.len(),
{
    if s.len() > 0 {
        lemma_utf8_len_bounds(s.drop_first());
    }
}

/// A character allowed in a fully conforming user id localpart.
pub open spec fn conforming_char(c: char) -> bool {
    ||| '0' <= c <= '9'
    ||| 'a' <= c <= 'z'
    ||| c == '-'
    ||| c == '.'
    ||| c == '='
    ||| c == '_'
    ||| c == '/'
    ||| c == '+'
}

/// A character that not even a historical user id localpart may hold:
/// controls, space, `:` and anything beyond printable ASCII.
pub open spec fn forbidden_char(c: char) -> bool {
    (c as u32) < 0x21 || c == ':' || (c as u32) > 0x7e
}

/// Why an identifier is refused.
#[derive(Debug, PartialEq, Eq, Structural, Clone, Copy)]
pub enum IdError {
    /// Longer than 255 bytes.
    MaximumLengthExceeded,
    /// Does not start with the identifier's sigil.
    MissingLeadingSigil,
    /// Has no `:` before the server name.
    MissingColon,
    /// The part after the first `:` is no server name.
    InvalidServerName,
    /// The localpart is empty.
    Empty,
    /// The localpart holds a character that no user id may hold.
    InvalidCharacters,
}

/// Checks a user id localpart: whether it is fully conforming (`Ok(true)`),
/// historical but accepted (`Ok(false)`), or refused.
pub open spec fn localpart_check(s: Seq<char>) -> Result<bool, IdError> {
    if s.len() == 0 {
        Err(IdError::Empty)
    } else if forall|i: int| 0 <= i < s.len() ==> conforming_char(#[trigger] s[i]) {
        Ok(true)
    } else if exists|i: int| 0 <= i < s.len() && forbidden_char(#[trigger] s[i]) {
        Err(IdError::InvalidCharacters)
    } else {
        Ok(false)
    }
}

/// What parsing a user id gives, where `server` is the server a bare
/// localpart belongs to: a full id (`@localpart:server`) is checked as it
/// stands; a bare localpart is checked and completed with `server`.
pub open spec fn user_id_with_server(id: Seq<char>, server: Seq<char>) -> Result<Seq<char>, IdError> {
    if id.len() > 0 && id[0] == '@' {
        let c = first_index_of(id, ':') as int;
        if vstd::utf8::encode_utf8(id).len() > 255 {
            Err(IdError::MaximumLengthExceeded)
        } else if c == id.len() {
            Err(IdError::MissingColon)
        } else if !server_name(id.skip(c + 1)) {
            Err(IdError::InvalidServerName)
        } else {
            match localpart_check(id.subrange(1, c)) {
                Err(e) => Err(e),
                Ok(_) => Ok(id),
            }
        }
    } else {
        match localpart_check(id) {
            Err(e) => Err(e),
            Ok(_) => Ok(seq!['@'] + id + seq![':'] + server),
        }
    }
}

/// The server part of a user id: what follows its first `:`.
pub open spec fn server_part(id: Seq<char>) -> Seq<char> {
    id.skip(first_index_of(id, ':') + 1int)
}

/// A parsed user id, `@localpart:server`.
pub struct OwnedUserId {
    full: String,
    colon: usize,
}

impl View for OwnedUserId {
    type V = Seq<char>;

    closed spec fn view(&self) -> Seq<char> {
        self.full@
    }
}

impl OwnedUserId {
    #[verifier::type_invariant]
    spec fn well_formed(self) -> bool {
        &&& self.colon == first_index_of(self.full@, ':')
        &&& self.colon < self.full@.len()
        &&& self.full@[0] == '@'
    }

    /// The whole id.
    pub fn as_str(&self) -> (r: &str)
        ensures
            r@ == self@,
    {
        self.full.as_str()
    }

    /// The server the user belongs to.
    pub fn server_name(&self) -> (r: String)
        ensures
            r@ == server_part(self@),
    {
        proof {
            use_type_invariant(self);
        }
        let cs = chars_of(self.full.as_str());
        let n = cs.len();
        assert(self.colon < n);
        let part = sub_chars(&cs, self.colon + 1, n);
        crate::text::string_from_chars(&part)
    }

    /// The localpart: what stands between the sigil and the first `:`.
    pub fn localpart(&self) -> (r: String)
        ensures
            r@ == self@.subrange(1, first_index_of(self@, ':') as int),
    {
        proof {
            use_type_invariant(self);
        }
        let cs = chars_of(self.full.as_str());
        let part = sub_chars(&cs, 1, self.colon);
        crate::text::string_from_chars(&part)
    }

    /// Whether the user belongs to the server named `server`.
    pub fn is_local(&self, server: &str) -> (r: bool)
        ensures
            r == (server_part(self@) == server@),
    {
        let mine = self.server_name();
        crate::text::str_eq(mine.as_str(), server)
    }
}

pub(crate) fn first_index_exact(s: &Vec<char>, c: char) -> (r: usize)
    ensures
        r == first_index_of(s@, c),
        r <= s@.len(),
{
    let r = first_index(s, c);
    proof {
        lemma_first_index_of(s@, c);
        lemma_first_at_unique(s@, c, r as int, first_index_of(s@, c) as int);
    }
    r
}

fn check_localpart(s: &Vec<char>) -> (r: Result<bool, IdError>)
    ensures
        r == localpart_check(s@),
{
    if s.len() == 0 {
        return Err(IdError::Empty);
    }
    let mut conforming = true;
    let mut forbidden = false;
    let mut i: usize = 0;
    while i < s.len()
        invariant
            0 <= i <= s@.len(),
            conforming == forall|j: int| 0 <= j < i ==> conforming_char(#[trigger] s@[j]),
            forbidden == exists|j: int| 0 <= j < i && forbidden_char(#[trigger] s@[j]),
        decreases s@.len() - i,
    {
        let c = s[i];
        let ok = ('0' <= c && c <= '9') || ('a' <= c && c <= 'z') || c == '-' || c == '.' || c == '='
            || c == '_' || c == '/' || c == '+';
        let bad = (c as u32) < 0x21 || c == ':' || (c as u32) > 0x7e;
        proof {
            assert(ok == conforming_char(s@[i as int]));
            assert(bad == forbidden_char(s@[i as int]));
            if !conforming {
                let w = choose|j: int| 0 <= j < i && !conforming_char(#[trigger] s@[j]);
                assert(!conforming_char(s@[w]));
            }
        }
        conforming = conforming && ok;
        forbidden = forbidden || bad;
        i = i + 1;
    }
    if conforming {
        Ok(true)
    } else if forbidden {
        Err(IdError::InvalidCharacters)
    } else {
        Ok(false)
    }
}

/// Parses a user id; a bare localpart is taken to belong to `server_name`.
pub fn parse_with_server_name(id: &str, server_name: &str) -> (r: Result<OwnedUserId, IdError>)
    ensures
        match user_id_with_server(id@, server_name@) {
            Ok(full) => r matches Ok(u) && u@ == full,
            Err(e) => r == Err::<OwnedUserId, IdError>(e),
        },
{
    let cs = chars_of(id);
    if cs.len() > 0 && cs[0] == '@' {
        proof {
            lemma_utf8_len_bounds(id@);
        }
        if cs.len() > 255 || id.len() > 255 {
            return Err(IdError::MaximumLengthExceeded);
        }
        let c = first_index_exact(&cs, ':');
        if c == cs.len() {
            return Err(IdError::MissingColon);
        }
        let server = sub_chars(&cs, c + 1, cs.len());
        assert(server@ == cs@.skip(c + 1));
        if !is_server_name(&server) {
            return Err(IdError::InvalidServerName);
        }
        let local = sub_chars(&cs, 1, c);
        match check_localpart(&local) {
            Err(e) => Err(e),
            Ok(_) => Ok(OwnedUserId { full: to_owned_string(id), colon: c }),
        }
    } else {
        match check_localpart(&cs) {
            Err(e) => Err(e),
            Ok(_) => {
                let mut full = String::new();
                full.append("@");
                full.append(id);
                full.append(":");
                full.append(server_name);
                let ghost f = seq!['@'] + id@ + seq![':'] + server_name@;
                proof {
                    reveal_strlit("@");
                    reveal_strlit(":");
                    assert(full@ =~= f);
                    assert(f[id@.len() + 1int] == ':');
                }
                let fc = chars_of(full.as_str());
                let colon = first_index_exact(&fc, ':');
                proof {
                    lemma_first_index_of(f, ':');
                    assert forall|j: int| 0 <= j < id@.len() implies id@[j] != ':' by {
                        if id@[j] == ':' {
                            assert(forbidden_char(id@[j]));
                            assert(!conforming_char(id@[j]));
                        }
                    }
                    assert(colon <= id@.len() + 1);
                }
                Ok(OwnedUserId { full, colon })
            },
        }
    }
}

/// A room id: at most 255 bytes, the sigil `!`, and a server name after the
/// first `:`.
pub open spec fn room_id(s: Seq<char>) -> bool {
    let c = first_index_of(s, ':') as int;
    &&& vstd::utf8::encode_utf8(s).len() <= 255
    &&& s.len() > 0 && s[0] == '!'
    &&& c < s.len()
    &&& server_name(s.skip(c + 1))
}

/// Whether `s` is a room id.
pub fn is_room_id(s: &str) -> (r: bool)
    ensures
        r == room_id(s@),
{
    let cs = chars_of(s);
    proof {
        lemma_utf8_len_bounds(s@);
    }
    if cs.len() > 255 || s.len() > 255 {
        return false;
    }
    if cs.len() == 0 || cs[0] != '!' {
        return false;
    }
    let c = first_index_exact(&cs, ':');
    if c == cs.len() {
        return false;
    }
    let server = sub_chars(&cs, c + 1, cs.len());
    assert(server@ == cs@.skip(c + 1));
    is_server_name(&server)
}

/// A bare localpart, once accepted, names a user of the server it was
/// completed with.
pub proof fn lemma_bare_localpart_is_local(id: Seq<char>, server: Seq<char>)
    requires
        !(id.len() > 0 && id[0] == '@'),
        user_id_with_server(id, server) is Ok,
    ensures
        server_part(user_id_with_server(id, server)->Ok_0) == server,
{
    let f = seq!['@'] + id + seq![':'] + server;
    assert(user_id_with_server(id, server)->Ok_0 == f);
    assert forall|j: int| 0 <= j < id.len() implies id[j] != ':' by {
        if id[j] == ':' {
            assert(forbidden_char(id[j]));
            assert(!conforming_char(id[j]));
        }
    }
    assert(first_at(f, ':', id.len() + 1int)) by {
        assert forall|j: int| 0 <= j < id.len() + 1 implies f[j] != ':' by {
            if j > 0 {
                assert(f[j] == id[j - 1]);
            }
        }
    }
    lemma_first_index_of(f, ':');
    lemma_first_at_unique(f, ':', id.len() + 1int, first_index_of(f, ':') as int);
    assert(f.skip(id.len() + 2int) =~= server);
}

/// A user id given in full is accepted as it stands or refused, never
/// completed with the default server.
pub proof fn lemma_full_id_unchanged(id: Seq<char>, server: Seq<char>)
    requires
        id.len() > 0 && id[0] == '@',
        user_id_with_server(id, server) is Ok,
    ensures
        user_id_with_server(id, server)->Ok_0 == id,
{
}

/// The server a room id names, where what follows its first `:` is a
/// server name.
pub open spec fn room_server(room_id: Seq<char>) -> Option<Seq<char>> {
    let c = first_index_of(room_id, ':') as int;
    if c < room_id.len() && server_name(room_id.skip(c + 1)) {
        Some(room_id.skip(c + 1))
    } else {
        None
    }
}

fn room_server_of(room_id: &str) -> (r: Option<Vec<char>>)
    ensures
        match room_server(room_id@) {
            Some(s) => r matches Some(v) && v@ == s,
            None => r is None,
        },
{
    let cs = chars_of(room_id);
    let c = first_index_exact(&cs, ':');
    if c == cs.len() {
        return None;
    }
    let part = sub_chars(&cs, c + 1, cs.len());
    assert(part@ == cs@.skip(c + 1));
    if is_server_name(&part) {
        Some(part)
    } else {
        None
    }
}

/// Whether a room id names this server (`server`); a room id that names no
/// server is neither local nor remote.
pub fn room_id_is_local(room_id: &str, server: &str) -> (r: bool)
    ensures
        r == (room_server(room_id@) matches Some(s) && s == server@),
{
    match room_server_of(room_id) {
        Some(v) => {
            let sv = chars_of(server);
            crate::identifiers::chars_equal(&v, &sv)
        },
        None => false,
    }
}

/// Whether a room id names another server than `server`.
pub fn room_id_is_remote(room_id: &str, server: &str) -> (r: bool)
    ensures
        r == (room_server(room_id@) matches Some(s) && s != server@),
{
    match room_server_of(room_id) {
        Some(v) => {
            let sv = chars_of(server);
            !crate::identifiers::chars_equal(&v, &sv)
        },
        None => false,
    }
}

fn chars_equal(a: &Vec<char>, b: &Vec<char>) -> (r: bool)
    ensures
        r == (a@ == b@),
{
    if a.len() != b.len() {
        return false;
    }
    let mut i: usize = 0;
    while i < a.len()
        invariant
            0 <= i <= a@.len(),
            a@.len() == b@.len(),
            forall|k: int| 0 <= k < i ==> a@[k] == b@[k],
        decreases a@.len() - i,
    {
        if a[i] != b[i] {
            return false;
        }
        i = i + 1;
    }
    assert(a@ =~= b@);
    true
}

impl OwnedUserId {
    /// Whether the user belongs to another server than `server`.
    pub fn is_remote(&self, server: &str) -> (r: bool)
        ensures
            r == (server_part(self@) != server@),
    {
        !self.is_local(server)
    }
}

} // verus!
