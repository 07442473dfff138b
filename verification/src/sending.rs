//! Scheduling of outgoing transactions (to other servers, application
//! services and push gateways): which events go out together, and how a
//! destination that failed is backed off.
use base64::Engine;
use vstd::prelude::*;
use vstd::string::StringExecFns;

use crate::text::str_eq;

verus! {

/// Where outgoing events go.
pub enum OutgoingKind {
    /// An application service, by id.
    Appservice(String),
    /// A push gateway: the user and the pusher's key.
    Push(String, String),
    /// Another homeserver, by server name.
    Normal(String),
}

/// One outgoing event: a PDU by event id, or a serialized EDU.
pub enum SendingEventType {
    Pdu(String),
    Edu(Vec<u8>),
}

/// The state of the transaction to one destination. Times are milliseconds of
/// a monotonic clock.
#[derive(Clone, Copy, Debug, PartialEq, Eq, Structural)]
pub enum TransactionStatus {
    /// A transaction is in flight.
    Running,
    /// The last transaction failed: how many times in a row, and when.
    Failed(u32, u64),
    /// The failed transaction is being sent again: how many times it failed.
    Retrying(u32),
}

/// A destination as plain values.
pub enum KindView {
    Appservice(Seq<char>),
    Push(Seq<char>, Seq<char>),
    Normal(Seq<char>),
}

impl View for OutgoingKind {
    type V = KindView;

    open spec fn view(&self) -> KindView {
        match self {
            OutgoingKind::Appservice(id) => KindView::Appservice(id@),
            OutgoingKind::Push(u, k) => KindView::Push(u@, k@),
            OutgoingKind::Normal(s) => KindView::Normal(s@),
        }
    }
}

/// An outgoing event as plain values.
pub enum EventView {
    Pdu(Seq<char>),
    Edu(Seq<u8>),
}

impl View for SendingEventType {
    type V = EventView;

    open spec fn view(&self) -> EventView {
        match self {
            SendingEventType::Pdu(id) => EventView::Pdu(id@),
            SendingEventType::Edu(b) => EventView::Edu(b@),
        }
    }
}

/// The same destination.
pub open spec fn same_kind(a: OutgoingKind, b: OutgoingKind) -> bool {
    a@ == b@
}

impl OutgoingKind {
    /// The name under which requests of this kind are stored.
    pub fn name(&self) -> (r: &'static str)
        ensures
            r@ == (match self {
                OutgoingKind::Appservice(_) => "appservice"@,
                OutgoingKind::Push(_, _) => "push"@,
                OutgoingKind::Normal(_) => "normal"@,
            }),
    {
        match self {
            OutgoingKind::Appservice(_) => "appservice",
            OutgoingKind::Push(_, _) => "push",
            OutgoingKind::Normal(_) => "normal",
        }
    }

    /// A copy of the destination.
    pub fn duplicate(&self) -> (r: Self)
        ensures
            same_kind(*self, r),
    {
        match self {
            OutgoingKind::Appservice(id) => OutgoingKind::Appservice(id.clone()),
            OutgoingKind::Push(u, k) => OutgoingKind::Push(u.clone(), k.clone()),
            OutgoingKind::Normal(s) => OutgoingKind::Normal(s.clone()),
        }
    }

    /// Whether two destinations are the same.
    pub fn same_as(&self, other: &Self) -> (r: bool)
        ensures
            r == same_kind(*self, *other),
    {
        match (self, other) {
            (OutgoingKind::Appservice(x), OutgoingKind::Appservice(y)) => str_eq(x.as_str(), y.as_str()),
            (OutgoingKind::Push(u, k), OutgoingKind::Push(v, l)) => str_eq(u.as_str(), v.as_str()) && str_eq(
                k.as_str(),
                l.as_str(),
            ),
            (OutgoingKind::Normal(x), OutgoingKind::Normal(y)) => str_eq(x.as_str(), y.as_str()),
            _ => false,
        }
    }
}

/// What happens to events handed to a destination.
#[derive(Clone, Copy, Debug, PartialEq, Eq, Structural)]
pub enum Selection {
    /// A transaction is running, or the destination is backing off: the
    /// events wait in the queue.
    Wait,
    /// The failed transaction is sent again.
    Retry,
    /// The new events are sent.
    SendNew,
}

/// Seconds a destination that failed `tries` times in a row is left alone:
/// thirty times the square of the failures, at most a day.
pub open spec fn backoff_secs(tries: u32) -> int {
    let b = 30 * tries * tries;
    if b > 86400 {
        86400
    } else {
        b
    }
}

/// The decision on new events for a destination, and its status afterwards.
pub open spec fn spec_select(status: Option<TransactionStatus>, now: u64) -> (Option<TransactionStatus>, Selection) {
    match status {
        None => (Some(TransactionStatus::Running), Selection::SendNew),
        Some(TransactionStatus::Running) => (status, Selection::Wait),
        Some(TransactionStatus::Retrying(_)) => (status, Selection::Wait),
        Some(TransactionStatus::Failed(tries, at)) => {
            let elapsed = if now >= at {
                now - at
            } else {
                0
            };
            if elapsed < backoff_secs(tries) * 1000 {
                (status, Selection::Wait)
            } else {
                (Some(TransactionStatus::Retrying(tries)), Selection::Retry)
            }
        },
    }
}

/// At most one transaction is in flight per destination: new events are
/// sent only to an idle destination (no status), which then has one
/// running; while a transaction runs or a failed one is being sent again the
/// events wait and the status stays; a failed destination is never sent new
/// events: its events wait until the backoff has passed, and then the failed
/// transaction (not a new one) is sent again.
pub proof fn lemma_one_transaction_in_flight(status: Option<TransactionStatus>, now: u64)
    ensures
        (spec_select(status, now).1 == Selection::SendNew) <==> status is None,
        status is None ==> spec_select(status, now).0 == Some(TransactionStatus::Running),
        (status == Some(TransactionStatus::Running) || (status is Some && status->0 is Retrying)) ==> spec_select(
            status,
            now,
        ) == (status, Selection::Wait),
        (spec_select(status, now).1 == Selection::Retry) ==> (status is Some && status->0 is Failed),
        status is Some && status->0 is Failed && now >= status->0->Failed_1 && now - status->0->Failed_1
            >= 86_400_000 ==> spec_select(status, now) == (
            Some(TransactionStatus::Retrying(status->0->Failed_0)),
            Selection::Retry,
        ),
        status is Some && status->0 is Failed && status->0->Failed_0 >= 1 && (now < status->0->Failed_1 || now
            - status->0->Failed_1 < 30_000) ==> spec_select(status, now) == (status, Selection::Wait),
{
    if let Some(TransactionStatus::Failed(t, _)) = status {
        if t >= 1 {
            assert(30 * t * t >= 30) by (nonlinear_arith)
                requires
                    t >= 1,
            ;
        }
    }
}

/// Decides what to do with new events for a destination whose transaction
/// status is `status` (`None` when nothing is in flight), at time `now`.
pub fn select_events(status: Option<TransactionStatus>, now: u64) -> (r: (Option<TransactionStatus>, Selection))
    requires
        status matches Some(TransactionStatus::Failed(tries, _)) ==> 30 * tries * tries <= u64::MAX,
    ensures
        r == spec_select(status, now),
{
    match status {
        None => (Some(TransactionStatus::Running), Selection::SendNew),
        Some(TransactionStatus::Running) => (status, Selection::Wait),
        Some(TransactionStatus::Retrying(_)) => (status, Selection::Wait),
        Some(TransactionStatus::Failed(tries, at)) => {
            let t = tries as u64;
            assert(30 * t * t <= u64::MAX);
            assert(30 * t <= u64::MAX) by (nonlinear_arith)
                requires
                    30 * t * t <= u64::MAX,
                    0 <= t,
            {
                if t >= 1 {
                    assert(30 * t <= 30 * t * t);
                }
            }
            let mut min_elapsed: u64 = 30 * t * t;
            if min_elapsed > 86400 {
                min_elapsed = 86400;
            }
            let elapsed = if now >= at {
                now - at
            } else {
                0
            };
            if elapsed < min_elapsed * 1000 {
                (status, Selection::Wait)
            } else {
                (Some(TransactionStatus::Retrying(tries)), Selection::Retry)
            }
        },
    }
}

/// The status after a transaction succeeded: it stays while queued events are
/// sent next, and goes away when none are.
pub fn status_after_success(status: Option<TransactionStatus>, more_queued: bool) -> (r: Option<TransactionStatus>)
    ensures
        r == (if more_queued {
            status
        } else {
            None
        }),
{
    if more_queued {
        status
    } else {
        None
    }
}

/// The status after a transaction failed at time `now`: one more failure is
/// counted. A destination with no transaction in flight keeps its status.
pub fn status_after_failure(status: Option<TransactionStatus>, now: u64) -> (r: Option<TransactionStatus>)
    requires
        status matches Some(TransactionStatus::Retrying(n)) ==> n < u32::MAX,
    ensures
        r == (match status {
            Some(TransactionStatus::Running) => Some(TransactionStatus::Failed(1, now)),
            Some(TransactionStatus::Retrying(n)) => Some(TransactionStatus::Failed((n + 1) as u32, now)),
            _ => status,
        }),
{
    match status {
        Some(TransactionStatus::Running) => Some(TransactionStatus::Failed(1, now)),
        Some(TransactionStatus::Retrying(n)) => Some(TransactionStatus::Failed(n + 1, now)),
        _ => status,
    }
}

/// A stored outgoing request, as its row holds it.
pub struct StoredRequest {
    pub id: i64,
    pub kind: String,
    pub appservice_id: Option<String>,
    pub user_id: Option<String>,
    pub pushkey: Option<String>,
    pub server_id: Option<String>,
    pub pdu_id: Option<String>,
    pub edu_json: Option<Vec<u8>>,
}

/// The destination a stored row names, if its kind and fields agree.
pub open spec fn stored_kind(r: StoredRequest) -> Option<KindView> {
    if r.kind@ == "appservice"@ {
        match r.appservice_id {
            Some(id) => Some(KindView::Appservice(id@)),
            None => None,
        }
    } else if r.kind@ == "push"@ {
        match (r.user_id, r.pushkey) {
            (Some(u), Some(k)) => Some(KindView::Push(u@, k@)),
            _ => None,
        }
    } else if r.kind@ == "normal"@ {
        match r.server_id {
            Some(sv) => Some(KindView::Normal(sv@)),
            None => None,
        }
    } else {
        None
    }
}

/// The event a stored row holds: its EDU if it has one, else its PDU.
pub open spec fn stored_event(r: StoredRequest) -> Option<EventView> {
    match r.edu_json {
        Some(b) => Some(EventView::Edu(b@)),
        None => match r.pdu_id {
            Some(id) => Some(EventView::Pdu(id@)),
            None => None,
        },
    }
}

/// Reads a stored request back; `None` when its row is incomplete or of an
/// unknown kind.
pub fn parse_stored_request(r: &StoredRequest) -> (res: Option<(i64, OutgoingKind, SendingEventType)>)
    ensures
        match (stored_kind(*r), stored_event(*r)) {
            (Some(k), Some(e)) => res matches Some(t) && t.0 == r.id && t.1@ == k && t.2@ == e,
            _ => res is None,
        },
{
    let kind = if str_eq(r.kind.as_str(), "appservice") {
        match &r.appservice_id {
            Some(id) => OutgoingKind::Appservice(id.clone()),
            None => return None,
        }
    } else if str_eq(r.kind.as_str(), "push") {
        match (&r.user_id, &r.pushkey) {
            (Some(u), Some(k)) => OutgoingKind::Push(u.clone(), k.clone()),
            _ => return None,
        }
    } else if str_eq(r.kind.as_str(), "normal") {
        match &r.server_id {
            Some(sv) => OutgoingKind::Normal(sv.clone()),
            None => return None,
        }
    } else {
        return None;
    };
    let event = if let Some(value) = &r.edu_json {
        SendingEventType::Edu(value.clone())
    } else if let Some(pdu_id) = &r.pdu_id {
        SendingEventType::Pdu(pdu_id.clone())
    } else {
        return None;
    };
    Some((r.id, kind, event))
}

/// How many requests to one destination are resent together at start-up.
pub open spec fn initial_batch_limit() -> nat {
    31
}

/// The first `n` elements of `s` (all of them when it has fewer).
pub open spec fn capped<A>(s: Seq<A>, n: nat) -> Seq<A> {
    if s.len() <= n {
        s
    } else {
        s.take(n as int)
    }
}

/// The events of the requests to destination `k`, in order.
pub open spec fn events_to(reqs: Seq<(i64, KindView, EventView)>, k: KindView) -> Seq<EventView>
    decreases reqs.len(),
{
    if reqs.len() == 0 {
        Seq::empty()
    } else {
        let rest = events_to(reqs.drop_last(), k);
        if reqs.last().1 == k {
            rest.push(reqs.last().2)
        } else {
            rest
        }
    }
}

/// The destinations of the requests, each once, in order of first appearance.
pub open spec fn destinations(reqs: Seq<(i64, KindView, EventView)>) -> Seq<KindView>
    decreases reqs.len(),
{
    if reqs.len() == 0 {
        Seq::empty()
    } else {
        let rest = destinations(reqs.drop_last());
        if rest.contains(reqs.last().1) {
            rest
        } else {
            rest.push(reqs.last().1)
        }
    }
}

/// The ids of the requests beyond the first `initial_batch_limit()` of their
/// destination, in order: those are dropped.
pub open spec fn dropped_ids(reqs: Seq<(i64, KindView, EventView)>) -> Seq<i64>
    decreases reqs.len(),
{
    if reqs.len() == 0 {
        Seq::empty()
    } else {
        let rest = dropped_ids(reqs.drop_last());
        if events_to(reqs.drop_last(), reqs.last().1).len() >= initial_batch_limit() {
            rest.push(reqs.last().0)
        } else {
            rest
        }
    }
}

/// A list of requests as plain values.
pub open spec fn requests_view(reqs: Seq<(i64, OutgoingKind, SendingEventType)>) -> Seq<(i64, KindView, EventView)> {
    reqs.map_values(|r: (i64, OutgoingKind, SendingEventType)| (r.0, r.1@, r.2@))
}

/// A list of events as plain values.
pub open spec fn events_view(es: Seq<SendingEventType>) -> Seq<EventView> {
    es.map_values(|e: SendingEventType| e@)
}

fn duplicate_event(e: &SendingEventType) -> (r: SendingEventType)
    ensures
        r@ == e@,
{
    match e {
        SendingEventType::Pdu(id) => SendingEventType::Pdu(id.clone()),
        SendingEventType::Edu(b) => SendingEventType::Edu(b.clone()),
    }
}

/// Groups the requests left over from before a restart by destination: each
/// destination (in order of first appearance) gets its first
/// `initial_batch_limit()` events, in order; the ids of the requests beyond
/// that are returned to be deleted.
pub fn group_initial_requests(reqs: &Vec<(i64, OutgoingKind, SendingEventType)>) -> (r: (
    Vec<(OutgoingKind, Vec<SendingEventType>)>,
    Vec<i64>,
))
    ensures
        r.0@.len() == destinations(requests_view(reqs@)).len(),
        forall|j: int|
            0 <= j < r.0@.len() ==> {
                &&& (#[trigger] r.0@[j]).0@ == destinations(requests_view(reqs@))[j]
                &&& events_view(r.0@[j].1@) == capped(
                    events_to(requests_view(reqs@), r.0@[j].0@),
                    initial_batch_limit(),
                )
            },
        r.1@ == dropped_ids(requests_view(reqs@)),
{
    let ghost rv = requests_view(reqs@);
    let mut groups: Vec<(OutgoingKind, Vec<SendingEventType>)> = Vec::new();
    let mut dropped: Vec<i64> = Vec::new();
    let mut i: usize = 0;
    while i < reqs.len()
        invariant
            0 <= i <= reqs@.len(),
            rv == requests_view(reqs@),
            groups@.len() == destinations(rv.take(i as int)).len(),
            forall|j: int|
                0 <= j < groups@.len() ==> {
                    &&& (#[trigger] groups@[j]).0@ == destinations(rv.take(i as int))[j]
                    &&& events_view(groups@[j].1@) == capped(events_to(rv.take(i as int), groups@[j].0@), 31)
                },
            dropped@ == dropped_ids(rv.take(i as int)),
        decreases reqs@.len() - i,
    {
        let ghost prefix = rv.take(i as int);
        let ghost next = rv.take(i + 1);
        let (id, kind, event) = &reqs[i];
        proof {
            assert(next.drop_last() == prefix);
            assert(next.last() == (*id, kind@, event@));
            lemma_destinations_distinct(prefix);
        }
        let found = find_group(&groups, kind);
        if let Some(g) = found {
            proof {
                assert(groups@[g as int].0@ == kind@);
                assert(destinations(next) == destinations(prefix));
            }
            if groups[g].1.len() > 30 {
                dropped.push(*id);
                proof {
                    assert(events_view(groups@[g as int].1@) == capped(events_to(prefix, groups@[g as int].0@), 31));
                    assert(events_view(groups@[g as int].1@).len() == groups@[g as int].1@.len());
                    assert(events_to(prefix, kind@).len() >= 31);
                    assert forall|j: int| 0 <= j < groups@.len() implies events_view(
                        (#[trigger] groups@[j]).1@,
                    ) == capped(events_to(next, groups@[j].0@), 31) by {
                        lemma_events_to_take_full(prefix, next, groups@[j].0@);
                    }
                }
            } else {
                let ghost old_groups = groups@;
                let (k, mut es) = groups.remove(g);
                es.push(duplicate_event(event));
                groups.insert(g, (k, es));
                proof {
                    assert(events_view(old_groups[g as int].1@) == capped(events_to(prefix, old_groups[g as int].0@), 31));
                    assert(events_view(old_groups[g as int].1@).len() == old_groups[g as int].1@.len());
                    assert(events_to(prefix, kind@).len() < 31);
                    assert(groups@.len() == old_groups.len());
                    assert forall|j: int| 0 <= j < groups@.len() implies {
                        &&& (#[trigger] groups@[j]).0@ == destinations(next)[j]
                        &&& events_view(groups@[j].1@) == capped(events_to(next, groups@[j].0@), 31)
                    } by {
                        if j == g {
                            assert(groups@[j].0@ == kind@);
                            assert(events_view(groups@[j].1@) =~= events_view(old_groups[j].1@).push(event@));
                            assert(events_to(next, kind@) == events_to(prefix, kind@).push(event@));
                            assert(capped(events_to(next, kind@), 31) == capped(events_to(prefix, kind@), 31).push(event@));
                        } else {
                            assert(groups@[j] == old_groups[j]);
                            assert(old_groups[j].0@ != kind@) by {
                                assert(destinations(prefix)[j] != destinations(prefix)[g as int]);
                            }
                            assert(events_to(next, old_groups[j].0@) == events_to(prefix, old_groups[j].0@));
                        }
                    }
                }
            }
        } else {
            let mut es: Vec<SendingEventType> = Vec::new();
            es.push(duplicate_event(event));
            let ghost old_groups = groups@;
            groups.push((kind.duplicate(), es));
            proof {
                assert(!destinations(prefix).contains(kind@)) by {
                    if destinations(prefix).contains(kind@) {
                        let j = choose|j: int| 0 <= j < destinations(prefix).len() && destinations(prefix)[j] == kind@;
                        assert(old_groups[j].0@ == kind@);
                    }
                }
                lemma_events_to_absent(prefix, kind@);
                assert(destinations(next) == destinations(prefix).push(kind@));
                assert forall|j: int| 0 <= j < groups@.len() implies {
                    &&& (#[trigger] groups@[j]).0@ == destinations(next)[j]
                    &&& events_view(groups@[j].1@) == capped(events_to(next, groups@[j].0@), 31)
                } by {
                    if j == old_groups.len() {
                        assert(events_view(groups@[j].1@) =~= seq![event@]);
                        assert(events_to(next, kind@) =~= seq![event@]);
                    } else {
                        assert(groups@[j] == old_groups[j]);
                        assert(old_groups[j].0@ != kind@) by {
                            assert(destinations(prefix)[j] == old_groups[j].0@);
                            assert(destinations(prefix).contains(old_groups[j].0@));
                        }
                        assert(events_to(next, old_groups[j].0@) == events_to(prefix, old_groups[j].0@));
                    }
                }
            }
        }
        i = i + 1;
    }
    assert(rv.take(reqs@.len() as int) == rv);
    (groups, dropped)
}

fn find_group(groups: &Vec<(OutgoingKind, Vec<SendingEventType>)>, kind: &OutgoingKind) -> (r: Option<usize>)
    ensures
        r matches Some(g) ==> g < groups@.len() && groups@[g as int].0@ == kind@,
        r is None ==> forall|j: int| 0 <= j < groups@.len() ==> (#[trigger] groups@[j]).0@ != kind@,
{
    let mut g: usize = 0;
    while g < groups.len()
        invariant
            0 <= g <= groups@.len(),
            forall|j: int| 0 <= j < g ==> (#[trigger] groups@[j]).0@ != kind@,
        decreases groups@.len() - g,
    {
        if groups[g].0.same_as(kind) {
            return Some(g);
        }
        g = g + 1;
    }
    None
}

proof fn lemma_destinations_distinct(reqs: Seq<(i64, KindView, EventView)>)
    ensures
        forall|a: int, b: int|
            0 <= a < destinations(reqs).len() && 0 <= b < destinations(reqs).len() && a != b
                ==> destinations(reqs)[a] != destinations(reqs)[b],
        forall|k: KindView| #[trigger] events_to(reqs, k).len() > 0 ==> destinations(reqs).contains(k),
    decreases reqs.len(),
{
    if reqs.len() > 0 {
        let p = reqs.drop_last();
        let k0 = reqs.last().1;
        lemma_destinations_distinct(p);
        let dp = destinations(p);
        let d = destinations(reqs);
        if !dp.contains(k0) {
            assert(d == dp.push(k0));
            assert forall|a: int, b: int| 0 <= a < d.len() && 0 <= b < d.len() && a != b implies d[a] != d[b] by {
                if a == dp.len() {
                    assert(d[b] == dp[b]);
                } else if b == dp.len() {
                    assert(d[a] == dp[a]);
                } else {
                    assert(d[a] == dp[a] && d[b] == dp[b]);
                }
            }
            assert forall|k: KindView| events_to(reqs, k).len() > 0 implies d.contains(k) by {
                if k == k0 {
                    assert(d[dp.len() as int] == k0);
                } else {
                    assert(events_to(reqs, k) == events_to(p, k));
                    assert(events_to(p, k).len() > 0);
                    assert(dp.contains(k));
                    let i = choose|i: int| 0 <= i < dp.len() && dp[i] == k;
                    assert(d[i] == k);
                }
            }
        } else {
            assert(d == dp);
            assert forall|k: KindView| events_to(reqs, k).len() > 0 implies d.contains(k) by {
                if k != k0 {
                    assert(events_to(reqs, k) == events_to(p, k));
                }
            }
        }
    }
}

proof fn lemma_events_to_absent(reqs: Seq<(i64, KindView, EventView)>, k: KindView)
    requires
        !destinations(reqs).contains(k),
    ensures
        events_to(reqs, k).len() == 0,
{
    lemma_destinations_distinct(reqs);
}

proof fn lemma_events_to_take_full(
    prefix: Seq<(i64, KindView, EventView)>,
    next: Seq<(i64, KindView, EventView)>,
    k: KindView,
)
    requires
        next.len() == prefix.len() + 1,
        next.drop_last() == prefix,
        events_to(prefix, next.last().1).len() >= 31,
    ensures
        capped(events_to(next, k), 31) == capped(events_to(prefix, k), 31),
{
    if next.last().1 == k {
        assert(events_to(next, k).take(31) =~= events_to(prefix, k).take(31));
    }
}

/// What `base64`'s URL-safe engine without padding makes of some bytes.
pub uninterp spec fn base64_url_nopad(bytes: Seq<u8>) -> Seq<char>;

/// `base64::engine::general_purpose::URL_SAFE_NO_PAD.encode`: the bytes in
/// the URL-safe base64 alphabet, without padding. Its result is named, not
/// described.
#[verifier::external_body]
fn encode_url_safe_no_pad(bytes: &Vec<u8>) -> (r: String)
    ensures
        r@ == base64_url_nopad(bytes@),
{
    base64::engine::general_purpose::URL_SAFE_NO_PAD.encode(bytes)
}

/// The path a transaction is sent to, given its id: the application service
/// API's transaction endpoint, or the federation send endpoint (push
/// gateways have none).
pub open spec fn transaction_path_of(kind: KindView, txn_id: Seq<char>) -> Option<Seq<char>> {
    match kind {
        KindView::Appservice(_) => Some("/app/v1/transactions/"@ + txn_id),
        KindView::Normal(_) => Some("federation/v1/send/"@ + txn_id),
        KindView::Push(_, _) => None,
    }
}

/// The path a transaction with the given id is sent to.
pub fn transaction_path(kind: &OutgoingKind, txn_id: &str) -> (r: Option<String>)
    ensures
        match transaction_path_of(kind@, txn_id@) {
            Some(p) => r matches Some(s) && s@ == p,
            None => r is None,
        },
{
    proof {
        reveal_strlit("/app/v1/transactions/");
        reveal_strlit("federation/v1/send/");
    }
    match kind {
        OutgoingKind::Appservice(_) => {
            let mut s = String::new();
            s.append("/app/v1/transactions/");
            s.append(txn_id);
            Some(s)
        },
        OutgoingKind::Normal(_) => {
            let mut s = String::new();
            s.append("federation/v1/send/");
            s.append(txn_id);
            Some(s)
        },
        OutgoingKind::Push(_, _) => None,
    }
}

/// The path of the transaction whose events hash to `digest`: its id is the
/// digest in URL-safe base64 without padding.
pub fn transaction_path_for_digest(kind: &OutgoingKind, digest: &Vec<u8>) -> (r: Option<String>)
    ensures
        match transaction_path_of(kind@, base64_url_nopad(digest@)) {
            Some(p) => r matches Some(s) && s@ == p,
            None => r is None,
        },
{
    let txn_id = encode_url_safe_no_pad(digest);
    transaction_path(kind, txn_id.as_str())
}

/// The event ids and EDUs of a transaction, as plain values.
pub open spec fn pdus_of(events: Seq<SendingEventType>) -> Seq<Seq<char>>
    decreases events.len(),
{
    if events.len() == 0 {
        Seq::empty()
    } else {
        let prev = pdus_of(events.drop_last());
        match events.last() {
            SendingEventType::Pdu(id) => prev.push(id@),
            SendingEventType::Edu(_) => prev,
        }
    }
}

/// The EDUs of a transaction, in order.
pub open spec fn edus_of(events: Seq<SendingEventType>) -> Seq<Seq<u8>>
    decreases events.len(),
{
    if events.len() == 0 {
        Seq::empty()
    } else {
        let prev = edus_of(events.drop_last());
        match events.last() {
            SendingEventType::Pdu(_) => prev,
            SendingEventType::Edu(b) => prev.push(b@),
        }
    }
}

/// What a transaction carries, by destination: application services and
/// push gateways get the PDUs alone, servers get PDUs and EDUs.
pub fn split_events(kind: &OutgoingKind, events: &Vec<SendingEventType>) -> (r: (Vec<String>, Vec<Vec<u8>>))
    ensures
        r.0@.map_values(|s: String| s@) == pdus_of(events@),
        r.1@.map_values(|b: Vec<u8>| b@) == (match kind {
            OutgoingKind::Normal(_) => edus_of(events@),
            _ => Seq::empty(),
        }),
{
    let keep_edus = match kind {
        OutgoingKind::Normal(_) => true,
        _ => false,
    };
    let mut pdus: Vec<String> = Vec::new();
    let mut edus: Vec<Vec<u8>> = Vec::new();
    let mut i: usize = 0;
    assert(events@.take(0) =~= Seq::<SendingEventType>::empty());
    assert(pdus@.map_values(|s: String| s@) =~= Seq::<Seq<char>>::empty());
    assert(edus@.map_values(|b: Vec<u8>| b@) =~= Seq::<Seq<u8>>::empty());
    while i < events.len()
        invariant
            0 <= i <= events@.len(),
            keep_edus == (kind is Normal),
            pdus@.map_values(|s: String| s@) == pdus_of(events@.take(i as int)),
            edus@.map_values(|b: Vec<u8>| b@) == (if keep_edus {
                edus_of(events@.take(i as int))
            } else {
                Seq::empty()
            }),
        decreases events@.len() - i,
    {
        proof {
            assert(events@.take(i + 1).drop_last() =~= events@.take(i as int));
            assert(events@.take(i + 1).last() == events@[i as int]);
        }
        match &events[i] {
            SendingEventType::Pdu(id) => {
                let ghost before = pdus@.map_values(|s: String| s@);
                pdus.push(id.clone());
                assert(pdus@.map_values(|s: String| s@) =~= before.push(id@));
            },
            SendingEventType::Edu(b) => {
                if keep_edus {
                    let ghost before = edus@.map_values(|b: Vec<u8>| b@);
                    let copy = copy_bytes(b);
                    edus.push(copy);
                    assert(edus@.map_values(|b: Vec<u8>| b@) =~= before.push(b@));
                }
            },
        }
        i = i + 1;
    }
    assert(events@.take(events@.len() as int) =~= events@);
    (pdus, edus)
}

fn copy_bytes(b: &Vec<u8>) -> (r: Vec<u8>)
    ensures
        r@ == b@,
{
    let mut out: Vec<u8> = Vec::new();
    let mut i: usize = 0;
    while i < b.len()
        invariant
            0 <= i <= b@.len(),
            out@ == b@.take(i as int),
        decreases b@.len() - i,
    {
        out.push(b[i]);
        assert(b@.take(i + 1) =~= b@.take(i as int).push(b@[i as int]));
        i = i + 1;
    }
    assert(b@.take(b@.len() as int) =~= b@);
    out
}

/// The most EDUs one transaction to a server carries from read receipts.
pub const MAX_RECEIPT_EDUS: usize = 20;

/// The EDUs gathered so far for a transaction to a server: how many, and the
/// greatest sequence number of the events seen.
#[derive(Debug, PartialEq, Eq, Structural, Clone, Copy)]
pub struct EduBatch {
    pub count: usize,
    pub max_sn: i64,
}

/// Takes in the read receipt of an event with sequence number `sn`: the
/// greatest sequence number is kept; a receipt of a local user becomes an
/// EDU. Says whether the batch is full (twenty EDUs) and gathering stops.
pub fn take_receipt(batch: &mut EduBatch, sn: i64, from_local_user: bool) -> (r: bool)
    requires
        old(batch).count < MAX_RECEIPT_EDUS,
    ensures
        final(batch).max_sn == (if sn > old(batch).max_sn {
            sn
        } else {
            old(batch).max_sn
        }),
        final(batch).count == (if from_local_user {
            old(batch).count + 1
        } else {
            old(batch).count as int
        }),
        r == (final(batch).count >= MAX_RECEIPT_EDUS),
{
    if sn > batch.max_sn {
        batch.max_sn = sn;
    }
    if !from_local_user {
        return false;
    }
    batch.count = batch.count + 1;
    batch.count >= MAX_RECEIPT_EDUS
}

} // verus!
