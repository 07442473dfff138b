//! User-interactive authentication: which stages a submission completes,
//! and when a flow is done.
use vstd::prelude::*;
use vstd::string::StrSliceExecFns;

use crate::admin::{is_whitespace, is_ws};
use crate::store::SessionStore;
use crate::text::{string_from_chars, to_owned_string};

verus! {

/// A stage of user-interactive authentication.
#[derive(Debug, PartialEq, Eq, Structural, Clone, Copy)]
pub enum AuthType {
    Password,
    ReCaptcha,
    EmailIdentity,
    Msisdn,
    Sso,
    Dummy,
    RegistrationToken,
    Terms,
    /// A stage this server does not know.
    Other,
}

/// What a client submitted for a stage.
#[derive(Debug)]
pub enum AuthData {
    /// A password (checked against the user's before this step).
    Password,
    /// A registration token.
    RegistrationToken(String),
    /// The dummy stage.
    Dummy,
    /// Anything else.
    Other,
}

/// The number of white-space characters at the start of `s`.
pub open spec fn leading_ws(s: Seq<char>) -> nat
    decreases s.len(),
{
    if s.len() > 0 && is_whitespace(s[0]) {
        1 + leading_ws(s.drop_first())
    } else {
        0
    }
}

/// The number of white-space characters at the end of `s`.
pub open spec fn trailing_ws(s: Seq<char>) -> nat
    decreases s.len(),
{
    if s.len() > 0 && is_whitespace(s.last()) {
        1 + trailing_ws(s.drop_last())
    } else {
        0
    }
}

/// `s` without its leading and trailing white space (`str::trim`).
pub open spec fn trimmed(s: Seq<char>) -> Seq<char> {
    let t = s.skip(leading_ws(s) as int);
    t.take(t.len() - trailing_ws(t))
}

proof fn lemma_leading_ws(s: Seq<char>, i: int)
    requires
        0 <= i <= s.len(),
        forall|j: int| 0 <= j < i ==> is_whitespace(s[j]),
        i == s.len() || !is_whitespace(s[i]),
    ensures
        leading_ws(s) == i,
    decreases i,
{
    if i > 0 {
        let t = s.drop_first();
        assert forall|j: int| 0 <= j < i - 1 implies is_whitespace(t[j]) by {
            assert(t[j] == s[j + 1]);
        }
        if i - 1 < t.len() {
            assert(t[i - 1] == s[i]);
        }
        lemma_leading_ws(t, i - 1);
    }
}

proof fn lemma_trailing_ws(s: Seq<char>, k: int)
    requires
        0 <= k <= s.len(),
        forall|j: int| k <= j < s.len() ==> is_whitespace(s[j]),
        k == 0 || !is_whitespace(s[k - 1]),
    ensures
        trailing_ws(s) == s.len() - k,
    decreases s.len() - k,
{
    if k < s.len() {
        let t = s.drop_last();
        assert forall|j: int| k <= j < t.len() implies is_whitespace(t[j]) by {
            assert(t[j] == s[j]);
        }
        if k > 0 {
            assert(t[k - 1] == s[k - 1]);
        }
        lemma_trailing_ws(t, k);
    }
}

/// `s` without leading and trailing white space.
pub fn trim(s: &str) -> (r: String)
    ensures
        r@ == trimmed(s@),
{
    let n = s.unicode_len();
    let mut a: usize = 0;
    while a < n && is_ws(s.get_char(a))
        invariant
            0 <= a <= n,
            n == s@.len(),
            forall|j: int| 0 <= j < a ==> is_whitespace(s@[j]),
        decreases n - a,
    {
        a = a + 1;
    }
    proof {
        lemma_leading_ws(s@, a as int);
    }
    let ghost t = s@.skip(a as int);
    let mut b: usize = n;
    while b > a && is_ws(s.get_char(b - 1))
        invariant
            a <= b <= n,
            n == s@.len(),
            forall|j: int| b <= j < n ==> is_whitespace(s@[j]),
        decreases b - a,
    {
        b = b - 1;
    }
    proof {
        assert forall|j: int| b - a <= j < t.len() implies is_whitespace(t[j]) by {
            assert(t[j] == s@[j + a]);
        }
        if b > a {
            assert(t[b - a - 1] == s@[b - 1]);
        }
        lemma_trailing_ws(t, b - a);
    }
    let mut out: Vec<char> = Vec::new();
    let mut i: usize = a;
    while i < b
        invariant
            a <= i <= b <= n,
            n == s@.len(),
            out@ == s@.subrange(a as int, i as int),
        decreases b - i,
    {
        out.push(s.get_char(i));
        assert(s@.subrange(a as int, i + 1) =~= s@.subrange(a as int, i as int).push(s@[i as int]));
        i = i + 1;
    }
    assert(out@ =~= t.take(t.len() - trailing_ws(t)));
    string_from_chars(&out)
}

/// What a submission does to the completed stages.
#[derive(Debug, PartialEq, Eq, Structural, Clone, Copy)]
pub enum AuthOutcome {
    /// Taken in; see whether a flow is complete.
    Accepted,
    /// The registration token is not the server's.
    InvalidToken,
}

/// Takes in a submission: a registration token that (without surrounding
/// white space) is the server's completes that stage, another one is
/// refused; a password is only checked against the user's (before this
/// step) and records no stage; the dummy stage completes itself; anything
/// else completes nothing.
pub fn take_submission(auth: &AuthData, registration_token: &Option<String>, completed: &mut Vec<AuthType>) -> (r:
    AuthOutcome)
    ensures
        match auth {
            AuthData::RegistrationToken(t) => if registration_token matches Some(rt) && trimmed(t@) == rt@ {
                r == AuthOutcome::Accepted && final(completed)@ == old(completed)@.push(AuthType::RegistrationToken)
            } else {
                r == AuthOutcome::InvalidToken && final(completed)@ == old(completed)@
            },
            AuthData::Password => r == AuthOutcome::Accepted && final(completed)@ == old(completed)@,
            AuthData::Dummy => r == AuthOutcome::Accepted && final(completed)@ == old(completed)@.push(
                AuthType::Dummy,
            ),
            AuthData::Other => r == AuthOutcome::Accepted && final(completed)@ == old(completed)@,
        },
{
    match auth {
        AuthData::RegistrationToken(t) => {
            let token = trim(t.as_str());
            let ok = match registration_token {
                Some(rt) => crate::text::str_eq(token.as_str(), rt.as_str()),
                None => false,
            };
            if ok {
                completed.push(AuthType::RegistrationToken);
                AuthOutcome::Accepted
            } else {
                AuthOutcome::InvalidToken
            }
        },
        AuthData::Password => AuthOutcome::Accepted,
        AuthData::Dummy => {
            completed.push(AuthType::Dummy);
            AuthOutcome::Accepted
        },
        AuthData::Other => AuthOutcome::Accepted,
    }
}

/// Whether every stage of a flow is completed.
pub open spec fn flow_done(flow: Seq<AuthType>, completed: Seq<AuthType>) -> bool {
    forall|s: int| 0 <= s < flow.len() ==> completed.contains(#[trigger] flow[s])
}

/// Whether some flow has all its stages completed.
pub open spec fn some_flow_done(flows: Seq<Vec<AuthType>>, completed: Seq<AuthType>) -> bool {
    exists|f: int| 0 <= f < flows.len() && flow_done(#[trigger] flows[f]@, completed)
}

fn has_stage(completed: &Vec<AuthType>, stage: AuthType) -> (r: bool)
    ensures
        r == completed@.contains(stage),
{
    let mut i: usize = 0;
    while i < completed.len()
        invariant
            0 <= i <= completed@.len(),
            forall|j: int| 0 <= j < i ==> completed@[j] != stage,
        decreases completed@.len() - i,
    {
        if completed[i] == stage {
            return true;
        }
        i = i + 1;
    }
    false
}

/// Whether authentication succeeded: some flow has every one of its stages
/// completed.
pub fn flow_completed(flows: &Vec<Vec<AuthType>>, completed: &Vec<AuthType>) -> (r: bool)
    ensures
        r == some_flow_done(flows@, completed@),
{
    let mut f: usize = 0;
    while f < flows.len()
        invariant
            0 <= f <= flows@.len(),
            forall|g: int| 0 <= g < f ==> !flow_done(#[trigger] flows@[g]@, completed@),
        decreases flows@.len() - f,
    {
        let flow = &flows[f];
        let mut s: usize = 0;
        let mut all = true;
        while s < flow.len()
            invariant
                0 <= s <= flow@.len(),
                all ==> forall|k: int| 0 <= k < s ==> completed@.contains(#[trigger] flow@[k]),
                !all ==> exists|k: int| 0 <= k < flow@.len() && !completed@.contains(#[trigger] flow@[k]),
            decreases flow@.len() - s,
        {
            if !has_stage(completed, flow[s]) {
                all = false;
            }
            s = s + 1;
        }
        if all {
            assert(flow_done(flows@[f as int]@, completed@));
            return true;
        }
        f = f + 1;
    }
    false
}

/// Keeps the request body (JSON text) of a user's interactive-authentication
/// session on a device, in place of any kept before; the other sessions stay
/// as they were.
pub fn set_uiaa_request(requests: &mut SessionStore<String>, user_id: &str, device_id: &str, session: &str, request: &str)
    ensures
        final(requests)@.dom() == old(requests)@.dom().insert((user_id@, device_id@, session@)),
        final(requests)@[(user_id@, device_id@, session@)]@ == request@,
        forall|k: (Seq<char>, Seq<char>, Seq<char>)|
            k != (user_id@, device_id@, session@) && #[trigger] old(requests)@.dom().contains(k) ==> final(requests)@[k]
                == old(requests)@[k],
{
    requests.insert(user_id, device_id, session, to_owned_string(request));
}

/// The request body kept for a user's interactive-authentication session on
/// a device, if any.
pub fn get_uiaa_request(requests: &SessionStore<String>, user_id: &str, device_id: &str, session: &str) -> (r: Option<
    String,
>)
    ensures
        requests@.dom().contains((user_id@, device_id@, session@)) ==> r is Some && r->0@ == requests@[(
            user_id@,
            device_id@,
            session@,
        )]@,
        !requests@.dom().contains((user_id@, device_id@, session@)) ==> r is None,
{
    match requests.get(user_id, device_id, session) {
        Some(s) => Some(to_owned_string(s.as_str())),
        None => None,
    }
}

} // verus!
