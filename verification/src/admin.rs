//! Text handling for the admin room: escaping command output, and turning a
//! chat message into the argument list of an admin command.
use vstd::prelude::*;
use vstd::string::StrSliceExecFns;
use vstd::string::StringExecFns;

use crate::identifiers::{parse_with_server_name, server_part, user_id_with_server, IdError, OwnedUserId};
use crate::text::{chars_of, push_char, starts_with, str_eq, string_from_chars};

verus! {

/// What a character becomes in escaped HTML.
pub open spec fn escape_char(c: char) -> Seq<char> {
    if c == '&' {
        "&amp;"@
    } else if c == '<' {
        "&lt;"@
    } else if c == '>' {
        "&gt;"@
    } else {
        seq![c]
    }
}

/// `s` with `&`, `<` and `>` escaped, character by character.
pub open spec fn escaped(s: Seq<char>) -> Seq<char>
    decreases s.len(),
{
    if s.len() == 0 {
        Seq::empty()
    } else {
        escaped(s.drop_last()) + escape_char(s.last())
    }
}

/// `s` with every `c` replaced by `t`.
pub open spec fn replace_char(s: Seq<char>, c: char, t: Seq<char>) -> Seq<char>
    decreases s.len(),
{
    if s.len() == 0 {
        Seq::empty()
    } else {
        replace_char(s.drop_last(), c, t) + (if s.last() == c {
            t
        } else {
            seq![s.last()]
        })
    }
}

/// Escapes `&`, `<` and `>` so that `s` can be shown as HTML text.
pub fn escape_html(s: &str) -> (r: String)
    ensures
        r@ == escaped(s@),
{
    let n = s.unicode_len();
    let mut out = String::new();
    let mut i: usize = 0;
    while i < n
        invariant
            0 <= i <= n,
            n == s@.len(),
            out@ == escaped(s@.take(i as int)),
        decreases n - i,
    {
        let c = s.get_char(i);
        if c == '&' {
            out.append("&amp;");
        } else if c == '<' {
            out.append("&lt;");
        } else if c == '>' {
            out.append("&gt;");
        } else {
            push_char(&mut out, c);
            assert(out@ == escaped(s@.take(i as int)) + seq![c]);
        }
        assert(s@.take(i + 1).drop_last() == s@.take(i as int));
        i = i + 1;
    }
    assert(s@.take(n as int) == s@);
    out
}

proof fn lemma_replace_concat(a: Seq<char>, b: Seq<char>, c: char, t: Seq<char>)
    ensures
        replace_char(a + b, c, t) == replace_char(a, c, t) + replace_char(b, c, t),
    decreases b.len(),
{
    if b.len() == 0 {
        assert(a + b == a);
    } else {
        lemma_replace_concat(a, b.drop_last(), c, t);
        assert((a + b).drop_last() == a + b.drop_last());
    }
}

proof fn lemma_replace_single(x: char, c: char, t: Seq<char>)
    ensures
        replace_char(seq![x], c, t) == (if x == c {
            t
        } else {
            seq![x]
        }),
{
    assert(seq![x].drop_last() =~= Seq::<char>::empty());
    assert(replace_char(Seq::<char>::empty(), c, t) == Seq::<char>::empty());
    assert(Seq::<char>::empty() + t =~= t);
    assert(Seq::<char>::empty() + seq![x] =~= seq![x]);
}

proof fn lemma_replace_absent(s: Seq<char>, c: char, t: Seq<char>)
    requires
        !s.contains(c),
    ensures
        replace_char(s, c, t) == s,
    decreases s.len(),
{
    if s.len() > 0 {
        assert(!s.drop_last().contains(c)) by {
            if s.drop_last().contains(c) {
                let k = choose|k: int| 0 <= k < s.drop_last().len() && s.drop_last()[k] == c;
                assert(s[k] == c);
            }
        }
        lemma_replace_absent(s.drop_last(), c, t);
        assert(s.drop_last().push(s.last()) == s);
    }
}

/// Escaping character by character is what replacing `&`, then `<`, then `>`
/// in turn gives.
pub proof fn lemma_escape_is_three_replacements(s: Seq<char>)
    ensures
        escaped(s) == replace_char(
            replace_char(replace_char(s, '&', "&amp;"@), '<', "&lt;"@),
            '>',
            "&gt;"@,
        ),
    decreases s.len(),
{
    reveal_strlit("&amp;");
    reveal_strlit("&lt;");
    reveal_strlit("&gt;");
    if s.len() > 0 {
        let p = s.drop_last();
        let x = s.last();
        lemma_escape_is_three_replacements(p);
        assert(s == p + seq![x]);
        lemma_replace_concat(p, seq![x], '&', "&amp;"@);
        lemma_replace_single(x, '&', "&amp;"@);
        let a1 = replace_char(p, '&', "&amp;"@);
        let b1 = replace_char(seq![x], '&', "&amp;"@);
        lemma_replace_concat(a1, b1, '<', "&lt;"@);
        let a2 = replace_char(a1, '<', "&lt;"@);
        let b2 = replace_char(b1, '<', "&lt;"@);
        lemma_replace_concat(a2, b2, '>', "&gt;"@);
        let b3 = replace_char(b2, '>', "&gt;"@);
        if x == '&' {
            assert(!"&amp;"@.contains('<'));
            assert(!"&amp;"@.contains('>'));
            lemma_replace_absent("&amp;"@, '<', "&lt;"@);
            lemma_replace_absent("&amp;"@, '>', "&gt;"@);
        } else {
            lemma_replace_single(x, '<', "&lt;"@);
            if x == '<' {
                assert(!"&lt;"@.contains('>'));
                lemma_replace_absent("&lt;"@, '>', "&gt;"@);
            } else {
                lemma_replace_single(x, '>', "&gt;"@);
            }
        }
        assert(b3 == escape_char(x));
    }
}

/// Escaped HTML read back from left to right: `&amp;`, `&lt;` and `&gt;`
/// each become the character they stand for, and every other character
/// stays.
pub open spec fn unescaped(e: Seq<char>) -> Seq<char>
    decreases e.len(),
{
    if e.len() == 0 {
        Seq::empty()
    } else if e.len() >= 5 && e.take(5) == "&amp;"@ {
        seq!['&'] + unescaped(e.skip(5))
    } else if e.len() >= 4 && e.take(4) == "&lt;"@ {
        seq!['<'] + unescaped(e.skip(4))
    } else if e.len() >= 4 && e.take(4) == "&gt;"@ {
        seq!['>'] + unescaped(e.skip(4))
    } else {
        seq![e[0]] + unescaped(e.skip(1))
    }
}

proof fn lemma_escaped_concat(a: Seq<char>, b: Seq<char>)
    ensures
        escaped(a + b) == escaped(a) + escaped(b),
    decreases b.len(),
{
    if b.len() == 0 {
        assert(a + b == a);
    } else {
        lemma_escaped_concat(a, b.drop_last());
        assert((a + b).drop_last() == a + b.drop_last());
    }
}

proof fn lemma_escaped_front(s: Seq<char>)
    requires
        s.len() > 0,
    ensures
        escaped(s) == escape_char(s[0]) + escaped(s.drop_first()),
{
    assert(s == seq![s[0]] + s.drop_first());
    lemma_escaped_concat(seq![s[0]], s.drop_first());
    let one = seq![s[0]];
    assert(one.drop_last() =~= Seq::<char>::empty());
    assert(one.last() == s[0]);
    assert(escaped(one) == escaped(one.drop_last()) + escape_char(one.last()));
    assert(Seq::<char>::empty() + escape_char(s[0]) =~= escape_char(s[0]));
}

proof fn lemma_unescape_entity(x: char, rest: Seq<char>)
    ensures
        unescaped(escape_char(x) + rest) == seq![x] + unescaped(rest),
{
    reveal_strlit("&amp;");
    reveal_strlit("&lt;");
    reveal_strlit("&gt;");
    let e = escape_char(x) + rest;
    if x == '&' {
        assert(e.take(5) =~= "&amp;"@);
        assert(e.skip(5) =~= rest);
    } else if x == '<' {
        if e.len() >= 5 {
            assert(e.take(5)[1] != "&amp;"@[1]);
        }
        assert(e.take(4) =~= "&lt;"@);
        assert(e.skip(4) =~= rest);
    } else if x == '>' {
        if e.len() >= 5 {
            assert(e.take(5)[1] != "&amp;"@[1]);
        }
        assert(e.take(4)[1] != "&lt;"@[1]);
        assert(e.take(4) =~= "&gt;"@);
        assert(e.skip(4) =~= rest);
    } else {
        assert(e[0] == x);
        if e.len() >= 5 {
            assert(e.take(5)[0] != "&amp;"@[0]);
        }
        if e.len() >= 4 {
            assert(e.take(4)[0] != "&lt;"@[0]);
            assert(e.take(4)[0] != "&gt;"@[0]);
        }
        assert(e.skip(1) =~= rest);
    }
}

/// `s` with each occurrence of the (nonempty) pattern `pat` replaced by
/// `rep`, the occurrences found from left to right without overlap: what
/// `str::replace` does.
pub open spec fn replace_str(s: Seq<char>, pat: Seq<char>, rep: Seq<char>) -> Seq<char>
    recommends
        pat.len() > 0,
    decreases s.len(),
{
    if s.len() == 0 || pat.len() == 0 {
        s
    } else if s.len() >= pat.len() && s.take(pat.len() as int) == pat {
        rep + replace_str(s.skip(pat.len() as int), pat, rep)
    } else {
        seq![s[0]] + replace_str(s.skip(1), pat, rep)
    }
}

proof fn lemma_replace_at_pattern(r: Seq<char>, pat: Seq<char>, rep: Seq<char>)
    requires
        pat.len() > 0,
    ensures
        replace_str(pat + r, pat, rep) == rep + replace_str(r, pat, rep),
{
    let s = pat + r;
    assert(s.take(pat.len() as int) =~= pat);
    assert(s.skip(pat.len() as int) =~= r);
}

proof fn lemma_replace_past(seg: Seq<char>, r: Seq<char>, pat: Seq<char>, rep: Seq<char>)
    requires
        seg.len() > 0,
        pat.len() > 0,
        !seg.drop_first().contains(pat[0]),
        seg[0] != pat[0] || (seg.len() >= 2 && pat.len() >= 2 && seg[1] != pat[1]),
    ensures
        replace_str(seg + r, pat, rep) == seg + replace_str(r, pat, rep),
    decreases seg.len(),
{
    let s = seg + r;
    if s.len() >= pat.len() {
        if seg[0] != pat[0] {
            assert(s.take(pat.len() as int)[0] != pat[0]);
        } else {
            assert(s.take(pat.len() as int)[1] != pat[1]);
        }
    }
    assert(s.skip(1) =~= seg.drop_first() + r);
    let tail = seg.drop_first();
    if tail.len() > 0 {
        assert(tail[0] == seg[1]);
        assert(tail[0] != pat[0]) by {
            assert(tail.contains(tail[0]));
        }
        assert(!tail.drop_first().contains(pat[0])) by {
            if tail.drop_first().contains(pat[0]) {
                let k = choose|k: int| 0 <= k < tail.drop_first().len() && tail.drop_first()[k] == pat[0];
                assert(tail[k + 1] == pat[0]);
            }
        }
        lemma_replace_past(tail, r, pat, rep);
    } else {
        assert(tail + r =~= r);
    }
    assert(seq![seg[0]] + (tail + replace_str(r, pat, rep)) =~= seg + replace_str(r, pat, rep));
}

/// Text run through the first of the three replacements that read escaped
/// HTML back (`&lt;` to `<`), one input character at a time.
pub open spec fn after_lt(s: Seq<char>) -> Seq<char>
    decreases s.len(),
{
    if s.len() == 0 {
        Seq::empty()
    } else {
        (if s[0] == '<' {
            seq!['<']
        } else {
            escape_char(s[0])
        }) + after_lt(s.drop_first())
    }
}

/// The same after the second replacement (`&gt;` to `>`).
pub open spec fn after_gt(s: Seq<char>) -> Seq<char>
    decreases s.len(),
{
    if s.len() == 0 {
        Seq::empty()
    } else {
        (if s[0] == '<' || s[0] == '>' {
            seq![s[0]]
        } else {
            escape_char(s[0])
        }) + after_gt(s.drop_first())
    }
}

proof fn lemma_replace_lt(s: Seq<char>)
    ensures
        replace_str(escaped(s), "&lt;"@, "<"@) == after_lt(s),
    decreases s.len(),
{
    reveal_strlit("&amp;");
    reveal_strlit("&lt;");
    reveal_strlit("&gt;");
    reveal_strlit("<");
    if s.len() == 0 {
        assert(escaped(s) =~= Seq::<char>::empty());
    } else {
        let t = s.drop_first();
        lemma_escaped_front(s);
        lemma_replace_lt(t);
        let x = s[0];
        let seg = escape_char(x);
        if x == '<' {
            lemma_replace_at_pattern(escaped(t), "&lt;"@, "<"@);
        } else {
            assert(!seg.drop_first().contains('&')) by {
                if seg.drop_first().contains('&') {
                    let k = choose|k: int| 0 <= k < seg.drop_first().len() && seg.drop_first()[k] == '&';
                    assert(seg[k + 1] == '&');
                }
            }
            lemma_replace_past(seg, escaped(t), "&lt;"@, "<"@);
        }
    }
}

proof fn lemma_replace_gt(s: Seq<char>)
    ensures
        replace_str(after_lt(s), "&gt;"@, ">"@) == after_gt(s),
    decreases s.len(),
{
    reveal_strlit("&amp;");
    reveal_strlit("&gt;");
    reveal_strlit(">");
    if s.len() > 0 {
        let t = s.drop_first();
        lemma_replace_gt(t);
        let x = s[0];
        let seg = if x == '<' {
            seq!['<']
        } else {
            escape_char(x)
        };
        if x == '>' {
            lemma_replace_at_pattern(after_lt(t), "&gt;"@, ">"@);
        } else {
            assert(!seg.drop_first().contains('&')) by {
                if seg.drop_first().contains('&') {
                    let k = choose|k: int| 0 <= k < seg.drop_first().len() && seg.drop_first()[k] == '&';
                    assert(seg[k + 1] == '&');
                }
            }
            lemma_replace_past(seg, after_lt(t), "&gt;"@, ">"@);
        }
    }
}

proof fn lemma_replace_amp(s: Seq<char>)
    ensures
        replace_str(after_gt(s), "&amp;"@, "&"@) == s,
    decreases s.len(),
{
    reveal_strlit("&amp;");
    reveal_strlit("&");
    if s.len() == 0 {
        assert(replace_str(after_gt(s), "&amp;"@, "&"@) =~= s);
    } else {
        let t = s.drop_first();
        lemma_replace_amp(t);
        let x = s[0];
        let seg = if x == '<' || x == '>' {
            seq![x]
        } else {
            escape_char(x)
        };
        if x == '&' {
            lemma_replace_at_pattern(after_gt(t), "&amp;"@, "&"@);
        } else {
            assert(seg =~= seq![x]);
            assert(seg.drop_first() =~= Seq::<char>::empty());
            lemma_replace_past(seg, after_gt(t), "&amp;"@, "&"@);
        }
        assert(s =~= seq![x] + t);
    }
}

/// Escaping can be undone: the escaped text holds no `<` and no `>`;
/// reading its entities back gives the input again, and so does replacing
/// `&lt;` by `<`, then `&gt;` by `>`, then `&amp;` by `&` (`str::replace`
/// three times).
pub proof fn lemma_escape_round_trip(s: Seq<char>)
    ensures
        !escaped(s).contains('<'),
        !escaped(s).contains('>'),
        unescaped(escaped(s)) == s,
        replace_str(replace_str(replace_str(escaped(s), "&lt;"@, "<"@), "&gt;"@, ">"@), "&amp;"@, "&"@) == s,
    decreases s.len(),
{
    lemma_replace_lt(s);
    lemma_replace_gt(s);
    lemma_replace_amp(s);
    reveal_strlit("&amp;");
    reveal_strlit("&lt;");
    reveal_strlit("&gt;");
    if s.len() == 0 {
        assert(escaped(s) =~= Seq::<char>::empty());
    } else {
        let t = s.drop_first();
        lemma_escape_round_trip(t);
        lemma_escaped_front(s);
        lemma_unescape_entity(s[0], escaped(t));
        assert(s =~= seq![s[0]] + t);
        let head = escape_char(s[0]);
        assert(!head.contains('<') && !head.contains('>')) by {
            if head.contains('<') {
                let k = choose|k: int| 0 <= k < head.len() && head[k] == '<';
                assert(head[k] == '<');
            }
            if head.contains('>') {
                let k = choose|k: int| 0 <= k < head.len() && head[k] == '>';
                assert(head[k] == '>');
            }
        }
        assert forall|c: char| (c == '<' || c == '>') implies !escaped(s).contains(c) by {
            if escaped(s).contains(c) {
                let k = choose|k: int| 0 <= k < escaped(s).len() && escaped(s)[k] == c;
                if k < head.len() {
                    assert((head + escaped(t))[k] == head[k]);
                    assert(head.contains(c));
                } else {
                    assert((head + escaped(t))[k] == escaped(t)[k - head.len()]);
                    assert(escaped(t).contains(c));
                }
            }
        }
    }
}

/// Unicode white space, as `char::is_whitespace` tells it.
pub open spec fn is_whitespace(c: char) -> bool {
    let u = c as int;
    ||| 0x09 <= u <= 0x0D
    ||| u == 0x20
    ||| u == 0x85
    ||| u == 0xA0
    ||| u == 0x1680
    ||| 0x2000 <= u <= 0x200A
    ||| u == 0x2028
    ||| u == 0x2029
    ||| u == 0x202F
    ||| u == 0x205F
    ||| u == 0x3000
}

/// The words of `s`: its maximal runs of characters that are not white space.
pub open spec fn split_whitespace(s: Seq<char>) -> Seq<Seq<char>>
    decreases s.len(),
{
    if s.len() == 0 {
        Seq::empty()
    } else {
        let words = split_whitespace(s.drop_last());
        let c = s.last();
        if is_whitespace(c) {
            words
        } else if s.len() >= 2 && !is_whitespace(s[s.len() - 2]) {
            words.update(words.len() - 1, words.last().push(c))
        } else {
            words.push(seq![c])
        }
    }
}

/// The argument list of an admin command: the message's words, with
/// `help <command>` turned into `<command> --help`, and underscores in the
/// command name turned into dashes.
pub open spec fn spec_admin_argv(command_line: Seq<char>) -> Seq<Seq<char>> {
    let words = split_whitespace(command_line);
    let words = if words.len() > 1 && words[1] == "help"@ {
        words.remove(1).push("--help"@)
    } else {
        words
    };
    if words.len() > 1 && words[1].contains('_') {
        words.update(1, replace_char(words[1], '_', "-"@))
    } else {
        words
    }
}

pub(crate) fn is_ws(c: char) -> (r: bool)
    ensures
        r == is_whitespace(c),
{
    let u = c as u32;
    (0x09 <= u && u <= 0x0D) || u == 0x20 || u == 0x85 || u == 0xA0 || u == 0x1680 || (0x2000 <= u && u
        <= 0x200A) || u == 0x2028 || u == 0x2029 || u == 0x202F || u == 0x205F || u == 0x3000
}

fn chars_eq(a: &Vec<char>, b: &Vec<char>) -> (r: bool)
    ensures
        r == (a@ == b@),
{
    if a.len() != b.len() {
        return false;
    }
    let mut i: usize = 0;
    while i < a.len()
        invariant
            0 <= i <= a@.len(),
            a@.len() == b@.len(),
            forall|j: int| 0 <= j < i ==> a@[j] == b@[j],
        decreases a@.len() - i,
    {
        if a[i] != b[i] {
            return false;
        }
        i = i + 1;
    }
    assert(a@ =~= b@);
    true
}

/// The views of a list of character lists.
pub open spec fn words_view(ws: Seq<Vec<char>>) -> Seq<Seq<char>> {
    ws.map_values(|w: Vec<char>| w@)
}

fn split_words(s: &str) -> (r: Vec<Vec<char>>)
    ensures
        words_view(r@) == split_whitespace(s@),
{
    let cs = chars_of(s);
    let mut words: Vec<Vec<char>> = Vec::new();
    let mut i: usize = 0;
    while i < cs.len()
        invariant
            0 <= i <= cs@.len(),
            cs@ == s@,
            words_view(words@) == split_whitespace(cs@.take(i as int)),
        decreases cs@.len() - i,
    {
        let c = cs[i];
        let ghost prefix = cs@.take(i + 1);
        proof {
            assert(prefix.drop_last() == cs@.take(i as int));
            assert(prefix.last() == c);
        }
        if is_ws(c) {
        } else if i >= 1 && !is_ws(cs[i - 1]) {
            proof {
                assert(prefix[prefix.len() - 2] == cs@[i - 1]);
                lemma_split_nonempty_after_word(cs@.take(i as int));
            }
            let mut last = words.pop().unwrap();
            last.push(c);
            words.push(last);
            proof {
                assert(words_view(words@) =~= split_whitespace(prefix));
            }
        } else {
            let mut w: Vec<char> = Vec::new();
            w.push(c);
            words.push(w);
            proof {
                assert(w@ == seq![c]);
                assert(words_view(words@) =~= split_whitespace(prefix));
            }
        }
        i = i + 1;
    }
    assert(cs@.take(cs@.len() as int) == cs@);
    words
}

proof fn lemma_split_nonempty_after_word(s: Seq<char>)
    requires
        s.len() >= 1,
        !is_whitespace(s.last()),
    ensures
        split_whitespace(s).len() >= 1,
    decreases s.len(),
{
    let w = split_whitespace(s.drop_last());
    if s.len() >= 2 && !is_whitespace(s[s.len() - 2]) {
        assert(s.drop_last().last() == s[s.len() - 2]);
        lemma_split_nonempty_after_word(s.drop_last());
    }
}

fn replace_underscores(w: &Vec<char>) -> (r: Vec<char>)
    ensures
        r@ == replace_char(w@, '_', "-"@),
{
    proof {
        reveal_strlit("-");
    }
    let mut out: Vec<char> = Vec::new();
    let mut i: usize = 0;
    while i < w.len()
        invariant
            0 <= i <= w@.len(),
            out@ == replace_char(w@.take(i as int), '_', "-"@),
            "-"@ == seq!['-'],
        decreases w@.len() - i,
    {
        let c = w[i];
        if c == '_' {
            out.push('-');
        } else {
            out.push(c);
        }
        proof {
            assert(w@.take(i + 1).drop_last() == w@.take(i as int));
            assert(out@ =~= replace_char(w@.take(i + 1), '_', "-"@));
        }
        i = i + 1;
    }
    assert(w@.take(w@.len() as int) == w@);
    out
}

fn has_underscore(w: &Vec<char>) -> (r: bool)
    ensures
        r == w@.contains('_'),
{
    let mut i: usize = 0;
    while i < w.len()
        invariant
            0 <= i <= w@.len(),
            forall|j: int| 0 <= j < i ==> w@[j] != '_',
        decreases w@.len() - i,
    {
        if w[i] == '_' {
            assert(w@[i as int] == '_');
            return true;
        }
        i = i + 1;
    }
    false
}

/// Splits an admin-room message into the argument list of an admin command
/// (the first word, `@palpo:<server>:`, stands for the program name).
pub fn admin_argv(command_line: &str) -> (r: Vec<String>)
    ensures
        r@.len() == spec_admin_argv(command_line@).len(),
        forall|i: int| 0 <= i < r@.len() ==> (#[trigger] r@[i])@ == spec_admin_argv(command_line@)[i],
{
    let mut words = split_words(command_line);
    let help = chars_of("help");
    let dashed_help = chars_of("--help");
    let ghost w0 = words_view(words@);
    if words.len() > 1 && chars_eq(&words[1], &help) {
        words.remove(1);
        words.push(dashed_help);
        proof {
            assert(words_view(words@) =~= w0.remove(1).push("--help"@));
        }
    }
    let ghost w1 = words_view(words@);
    if words.len() > 1 && has_underscore(&words[1]) {
        let dashed = replace_underscores(&words[1]);
        words.set(1, dashed);
        proof {
            assert(words_view(words@) =~= w1.update(1, replace_char(w1[1], '_', "-"@)));
        }
    }
    assert(words_view(words@) =~= spec_admin_argv(command_line@));
    let mut out: Vec<String> = Vec::new();
    let mut i: usize = 0;
    while i < words.len()
        invariant
            0 <= i <= words@.len(),
            out@.len() == i,
            words_view(words@) == spec_admin_argv(command_line@),
            forall|k: int| 0 <= k < i ==> (#[trigger] out@[k])@ == words@[k]@,
        decreases words@.len() - i,
    {
        out.push(string_from_chars(&words[i]));
        i = i + 1;
    }
    out
}

/// What `str::to_lowercase` makes of a string.
pub uninterp spec fn lowercase(s: Seq<char>) -> Seq<char>;

/// Every character is ASCII.
pub open spec fn all_ascii(s: Seq<char>) -> bool {
    forall|i: int| 0 <= i < s.len() ==> (s[i] as u32) < 128
}

/// A character with the ASCII capitals `A` to `Z` made `a` to `z`.
pub open spec fn ascii_lower_char(c: char) -> char {
    if 65 <= (c as u32) <= 90 {
        ((c as u32) + 32) as char
    } else {
        c
    }
}

/// `s` with its ASCII capitals made small.
pub open spec fn ascii_lower(s: Seq<char>) -> Seq<char> {
    s.map_values(|c: char| ascii_lower_char(c))
}

/// No character is an ASCII capital `A` to `Z`.
pub open spec fn no_ascii_capital(s: Seq<char>) -> bool {
    forall|i: int| 0 <= i < s.len() ==> !(65 <= (#[trigger] s[i] as u32) <= 90)
}

proof fn lemma_ascii_lower_no_capital(s: Seq<char>)
    ensures
        no_ascii_capital(ascii_lower(s)),
{
    assert forall|i: int| 0 <= i < ascii_lower(s).len() implies !(65 <= (#[trigger] ascii_lower(s)[i] as u32) <= 90) by {
        let c = s[i];
        assert(ascii_lower(s)[i] == ascii_lower_char(c));
        if 65 <= (c as u32) <= 90 {
            assert((((c as u32) + 32) as char) as u32 == (c as u32) + 32);
        }
    }
}

/// What a user id given to an admin command becomes once lowercased: for
/// ASCII text its capitals made small, and otherwise what `str::to_lowercase`
/// makes of it.
pub open spec fn lowered(s: Seq<char>) -> Seq<char> {
    if all_ascii(s) {
        ascii_lower(s)
    } else {
        lowercase(s)
    }
}

/// `str::to_lowercase`: the string with every character replaced by its
/// Unicode lowercase mapping. Its result is named; of ASCII text the contract
/// states what std's documentation shows (and `to_ascii_lowercase` beside
/// it): the capitals `A` to `Z` become `a` to `z` and every other character
/// stays. Of any text it states that the result holds no ASCII capital
/// (each character is replaced by its lowercase mapping, and no lowercase
/// mapping is an ASCII capital). What else it does to non-ASCII characters
/// is left unsaid.
#[verifier::external_body]
fn to_lowercase(s: &str) -> (r: String)
    ensures
        r@ == lowercase(s@),
        all_ascii(s@) ==> r@ == ascii_lower(s@),
        no_ascii_capital(r@),
{
    s.to_lowercase()
}

/// Why an admin command refuses a user id.
#[derive(Debug, PartialEq, Eq, Structural, Clone, Copy)]
pub enum UserIdError {
    /// Not a valid user id.
    Invalid(IdError),
    /// A valid user id of another server.
    NotLocal,
}

/// Parses a user id given to an admin command: lowercased (ASCII capitals
/// made small), and taken to belong to `server_name` where it is a bare
/// localpart.
pub fn parse_user_id(user_id: &str, server_name: &str) -> (r: Result<OwnedUserId, IdError>)
    ensures
        match user_id_with_server(lowered(user_id@), server_name@) {
            Ok(full) => r matches Ok(u) && u@ == full,
            Err(e) => r == Err::<OwnedUserId, IdError>(e),
        },
        r is Ok ==> no_ascii_capital(lowered(user_id@)),
{
    let lowered = to_lowercase(user_id);
    proof {
        lemma_ascii_lower_no_capital(user_id@);
    }
    parse_with_server_name(lowered.as_str(), server_name)
}

/// Parses a user id given to an admin command, which must belong to this
/// server (`server_name`).
pub fn parse_local_user_id(user_id: &str, server_name: &str) -> (r: Result<OwnedUserId, UserIdError>)
    ensures
        match user_id_with_server(lowered(user_id@), server_name@) {
            Ok(full) => if server_part(full) == server_name@ {
                r matches Ok(u) && u@ == full
            } else {
                r == Err::<OwnedUserId, UserIdError>(UserIdError::NotLocal)
            },
            Err(e) => r == Err::<OwnedUserId, UserIdError>(UserIdError::Invalid(e)),
        },
        r is Ok ==> no_ascii_capital(lowered(user_id@)),
{
    match parse_user_id(user_id, server_name) {
        Err(e) => Err(UserIdError::Invalid(e)),
        Ok(u) => {
            if u.is_local(server_name) {
                Ok(u)
            } else {
                Err(UserIdError::NotLocal)
            }
        },
    }
}

/// The id of the server's own admin user on `server_name`.
pub open spec fn server_user(server_name: Seq<char>) -> Seq<char> {
    "@palpo:"@ + server_name
}

/// Whether a message body addresses the admin user: it is the admin user's
/// id, alone or followed by `:`, or followed by `: ` or a space and more.
pub open spec fn addresses_admin(body: Seq<char>, user: Seq<char>) -> bool {
    let colon_space = user + ": "@;
    let space = user + " "@;
    ||| body.len() >= colon_space.len() && body.take(colon_space.len() as int) == colon_space
    ||| body.len() >= space.len() && body.take(space.len() as int) == space
    ||| body == user + ":"@
    ||| body == user
}

/// Whether a message appended to a room is an admin command to run: it
/// addresses the admin user, it is sent in the admin room, and it does not
/// come from the admin user itself (unless an emergency password lets an
/// administrator act as that user).
pub fn is_admin_command(
    body: &str,
    sender: &str,
    server_name: &str,
    emergency_password_set: bool,
    in_admin_room: bool,
) -> (r: bool)
    ensures
        r == (addresses_admin(body@, server_user(server_name@)) && !(sender@ == server_user(server_name@)
            && !emergency_password_set) && in_admin_room),
{
    let mut user = String::new();
    user.append("@palpo:");
    user.append(server_name);
    let mut colon_space = user.clone();
    colon_space.append(": ");
    let mut space = user.clone();
    space.append(" ");
    let mut colon = user.clone();
    colon.append(":");
    proof {
        reveal_strlit("@palpo:");
        reveal_strlit(": ");
        reveal_strlit(" ");
        reveal_strlit(":");
    }
    let to_admin = starts_with(body, colon_space.as_str()) || starts_with(body, space.as_str()) || str_eq(
        body,
        colon.as_str(),
    ) || str_eq(body, user.as_str());
    let from_admin = str_eq(sender, user.as_str()) && !emergency_password_set;
    to_admin && !from_admin && in_admin_room
}

/// The lines inside the code block an admin command's body must be: at
/// least two lines, the first starting with three backticks and the last
/// being three backticks (surrounding white space aside). `None` when the
/// body is no such block.
pub open spec fn code_block(body: Seq<Seq<char>>) -> Option<Seq<Seq<char>>> {
    let fence = "```"@;
    if body.len() >= 2 && crate::uiaa::trimmed(body[0]).len() >= 3 && crate::uiaa::trimmed(body[0]).take(3) == fence
        && crate::uiaa::trimmed(body.last()) == fence {
        Some(body.subrange(1, body.len() - 1))
    } else {
        None
    }
}

/// The lines of the code block in an admin command's body.
pub fn code_block_lines(body: &Vec<String>) -> (r: Option<Vec<String>>)
    ensures
        match code_block(body@.map_values(|l: String| l@)) {
            Some(lines) => r matches Some(v) && v@.map_values(|l: String| l@) == lines,
            None => r is None,
        },
{
    let ghost bv = body@.map_values(|l: String| l@);
    proof {
        reveal_strlit("```");
    }
    if body.len() < 2 {
        return None;
    }
    let first = crate::uiaa::trim(body[0].as_str());
    let last = crate::uiaa::trim(body[body.len() - 1].as_str());
    assert(bv[0] == body@[0]@);
    assert(bv.last() == body@[body@.len() - 1]@);
    if !starts_with(first.as_str(), "```") || !str_eq(last.as_str(), "```") {
        return None;
    }
    let mut lines: Vec<String> = Vec::new();
    let mut i: usize = 1;
    while i < body.len() - 1
        invariant
            1 <= i <= body@.len() - 1,
            body@.len() >= 2,
            bv == body@.map_values(|l: String| l@),
            lines@.map_values(|l: String| l@) == bv.subrange(1, i as int),
        decreases body@.len() - 1 - i,
    {
        let ghost before = lines@.map_values(|l: String| l@);
        let line = body[i].clone();
        assert(line@ == bv[i as int]);
        lines.push(line);
        assert(lines@.map_values(|l: String| l@) =~= before.push(bv[i as int]));
        assert(bv.subrange(1, i + 1) =~= bv.subrange(1, i as int).push(bv[i as int]));
        i = i + 1;
    }
    Some(lines)
}

} // verus!
