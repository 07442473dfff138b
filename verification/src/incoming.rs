//! Decisions taken on events that arrive over federation: backing off from
//! events and signatures that failed before, which previous events are
//! handled, the checks on an event's timestamp and auth events, the state at
//! an event, and when a server's signing keys are fresh enough.
//!
//! Times are milliseconds.
use vstd::prelude::*;

use crate::sync::strs;
use crate::text::str_eq;

verus! {

/// The longest a failed event or signature is backed off from: a day.
pub const MAX_BACKOFF_MS: u64 = 86_400_000;

/// How long (in milliseconds) to wait before trying again something that
/// failed `tries` times: `base_ms` times the square of the tries, at most a
/// day.
pub open spec fn backoff_ms(base_ms: nat, tries: nat) -> nat {
    let d = base_ms * tries * tries;
    if d > MAX_BACKOFF_MS {
        MAX_BACKOFF_MS as nat
    } else {
        d
    }
}

proof fn lemma_mul_bounded(x: int, y: int, xm: int, ym: int)
    requires
        0 <= x <= xm,
        0 <= y <= ym,
    ensures
        0 <= x * y <= xm * ym,
{
    assert(0 <= x * y <= xm * ym) by (nonlinear_arith)
        requires
            0 <= x <= xm,
            0 <= y <= ym,
    ;
}

fn backoff(base_ms: u64, tries: u32) -> (r: u64)
    requires
        base_ms <= 300_000,
    ensures
        r == backoff_ms(base_ms as nat, tries as nat),
{
    let b = base_ms as u128;
    let t = tries as u128;
    proof {
        lemma_mul_bounded(b as int, t as int, 300_000, 0xffff_ffff);
    }
    let bt = b * t;
    proof {
        lemma_mul_bounded(bt as int, t as int, 300_000int * 0xffff_ffff, 0xffff_ffff);
    }
    let d = bt * t;
    if d > MAX_BACKOFF_MS as u128 {
        MAX_BACKOFF_MS
    } else {
        d as u64
    }
}

/// Whether a previous event that failed `tries` times, the last time
/// `elapsed_ms` ago, is still backed off from: five minutes times the square
/// of the tries, at most a day. The wait in seconds must fit in 64 bits.
pub fn event_backing_off(elapsed_ms: u64, tries: u32) -> (r: bool)
    requires
        300 * tries * tries <= u64::MAX,
    ensures
        r == (elapsed_ms < backoff_ms(300_000, tries as nat)),
{
    elapsed_ms < backoff(300_000, tries)
}

/// Whether the signing keys for a set of signatures that failed `tries`
/// times, the last time `elapsed_ms` ago, are still backed off from: thirty
/// seconds times the square of the tries, at most a day. The wait in seconds
/// must fit in 64 bits.
pub fn signature_backing_off(elapsed_ms: u64, tries: u32) -> (r: bool)
    requires
        30 * tries * tries <= u64::MAX,
    ensures
        r == (elapsed_ms < backoff_ms(30_000, tries as nat)),
{
    elapsed_ms < backoff(30_000, tries)
}

/// Records another failure at `now`: the first one, or one more than before.
pub fn record_failure(previous: Option<(u64, u32)>, now: u64) -> (r: (u64, u32))
    requires
        previous matches Some((_, t)) ==> t < u32::MAX,
    ensures
        r == (match previous {
            Some((_, t)) => (now, (t + 1) as u32),
            None => (now, 1u32),
        }),
{
    match previous {
        Some((_, t)) => (now, t + 1),
        None => (now, 1),
    }
}

/// The backoff grows with each failure, up to a day.
pub proof fn lemma_backoff_grows(base_ms: nat, tries: nat)
    ensures
        backoff_ms(base_ms, tries) <= backoff_ms(base_ms, tries + 1),
        backoff_ms(base_ms, tries) <= MAX_BACKOFF_MS,
{
    assert(base_ms * tries * tries <= base_ms * (tries + 1) * (tries + 1)) by (nonlinear_arith);
}

/// What to do with the next previous event of an incoming event.
#[derive(Debug, PartialEq, Eq, Structural, Clone, Copy)]
pub enum PrevEventAction {
    /// Leave this one out and go on with the next.
    Skip,
    /// Stop handling previous events.
    Stop,
    /// Handle it.
    Handle,
}

/// What to do with the next previous event: leave it while it is backed off
/// from; stop after five failures; leave it where it was not fetched or is
/// older than the room's first event; else handle it.
pub fn prev_event_action(
    backing_off: bool,
    errors: u32,
    fetched_origin_ts: Option<u64>,
    first_event_ts: u64,
) -> (r: PrevEventAction)
    ensures
        r == (if backing_off {
            PrevEventAction::Skip
        } else if errors >= 5 {
            PrevEventAction::Stop
        } else {
            match fetched_origin_ts {
                None => PrevEventAction::Skip,
                Some(ts) => if ts < first_event_ts {
                    PrevEventAction::Skip
                } else {
                    PrevEventAction::Handle
                },
            }
        }),
{
    if backing_off {
        PrevEventAction::Skip
    } else if errors >= 5 {
        PrevEventAction::Stop
    } else {
        match fetched_origin_ts {
            None => PrevEventAction::Skip,
            Some(ts) => if ts < first_event_ts {
                PrevEventAction::Skip
            } else {
                PrevEventAction::Handle
            },
        }
    }
}

/// Why the timestamp of an incoming event is refused.
#[derive(Debug, PartialEq, Eq, Structural, Clone, Copy)]
pub enum TimestampError {
    /// The event has no `origin_server_ts`.
    Missing,
    /// It is not an integer.
    NotInteger,
    /// It lies before the Unix epoch.
    BeforeEpoch,
}

/// The `origin_server_ts` of an incoming event: absent (`None`), not an
/// integer (`Some(None)`), or the integer it holds.
pub fn origin_server_ts(field: Option<Option<i64>>) -> (r: Result<u64, TimestampError>)
    ensures
        r == (match field {
            None => Err(TimestampError::Missing),
            Some(None) => Err(TimestampError::NotInteger),
            Some(Some(ts)) => if ts < 0 {
                Err(TimestampError::BeforeEpoch)
            } else {
                Ok(ts as u64)
            },
        }),
{
    match field {
        None => Err(TimestampError::Missing),
        Some(None) => Err(TimestampError::NotInteger),
        Some(Some(ts)) => if ts < 0 {
            Err(TimestampError::BeforeEpoch)
        } else {
            Ok(ts as u64)
        },
    }
}

/// Whether no two entries of `keys` are equal.
pub open spec fn all_distinct<T>(keys: Seq<T>) -> bool {
    forall|i: int, j: int| 0 <= i < j < keys.len() ==> keys[i] != keys[j]
}

/// The (type, state key) pairs of a list, as characters.
pub open spec fn pairs_view(v: Seq<(String, String)>) -> Seq<(Seq<char>, Seq<char>)> {
    v.map_values(|p: (String, String)| (p.0@, p.1@))
}

/// The auth events of an incoming event, by (type, state key), are accepted
/// where no pair occurs twice.
pub fn auth_events_distinct(keys: &Vec<(String, String)>) -> (r: bool)
    ensures
        r == all_distinct(pairs_view(keys@)),
{
    let ghost v = pairs_view(keys@);
    let mut i: usize = 0;
    while i < keys.len()
        invariant
            0 <= i <= keys@.len(),
            v == pairs_view(keys@),
            forall|a: int, b: int| 0 <= a < b < i ==> v[a] != v[b],
        decreases keys@.len() - i,
    {
        let mut j: usize = 0;
        while j < i
            invariant
                0 <= j <= i < keys@.len(),
                v == pairs_view(keys@),
                forall|a: int| 0 <= a < j ==> v[a] != v[i as int],
            decreases i - j,
        {
            if str_eq(keys[j].0.as_str(), keys[i].0.as_str()) && str_eq(keys[j].1.as_str(), keys[i].1.as_str()) {
                assert(v[j as int] == v[i as int]);
                return false;
            }
            j = j + 1;
        }
        i = i + 1;
    }
    true
}

/// The state map (field id to event id) built from a list of entries,
/// later entries replacing earlier ones of the same field.
pub open spec fn state_map(entries: Seq<(i64, Seq<char>)>) -> Map<i64, Seq<char>>
    decreases entries.len(),
{
    if entries.len() == 0 {
        Map::empty()
    } else {
        state_map(entries.drop_last()).insert(entries.last().0, entries.last().1)
    }
}

/// Why the state a server answered for an event is refused.
#[derive(Debug, PartialEq, Eq, Structural, Clone, Copy)]
pub enum StateIdsError {
    /// Two state events of the answer have the same type and state key.
    Duplicate,
    /// The answer's create event is not the room's.
    WrongCreateEvent,
}

/// The fields of a list of state entries.
pub open spec fn fields_of(entries: Seq<(i64, Seq<char>)>) -> Seq<i64> {
    entries.map_values(|e: (i64, Seq<char>)| e.0)
}

/// Checks the state a server answered for an event (each entry: the field
/// id of the event's type and state key, and the event id): no field may
/// occur twice, and the create event must be the room's (`create_event`,
/// stored under `create_field`).
pub fn check_state_ids(entries: &Vec<(i64, String)>, create_field: i64, create_event: &str) -> (r: Result<
    (),
    StateIdsError,
>)
    ensures
        r == (if !all_distinct(fields_of(crate::sync::entries_view(entries@))) {
            Err(StateIdsError::Duplicate)
        } else if state_map(crate::sync::entries_view(entries@)).get(create_field) != Some(create_event@) {
            Err(StateIdsError::WrongCreateEvent)
        } else {
            Ok(())
        }),
{
    let ghost v = crate::sync::entries_view(entries@);
    let ghost f = fields_of(v);
    let mut i: usize = 0;
    let mut create: Option<usize> = None;
    assert(v.take(0) =~= Seq::<(i64, Seq<char>)>::empty());
    while i < entries.len()
        invariant
            0 <= i <= entries@.len(),
            v == crate::sync::entries_view(entries@),
            f == fields_of(v),
            forall|a: int, b: int| 0 <= a < b < i ==> f[a] != f[b],
            match create {
                Some(k) => k < i && v[k as int].0 == create_field && state_map(v.take(i as int)).get(create_field)
                    == Some(v[k as int].1),
                None => !state_map(v.take(i as int)).dom().contains(create_field),
            },
        decreases entries@.len() - i,
    {
        let mut j: usize = 0;
        while j < i
            invariant
                0 <= j <= i < entries@.len(),
                v == crate::sync::entries_view(entries@),
                f == fields_of(v),
                forall|a: int| 0 <= a < j ==> f[a] != f[i as int],
            decreases i - j,
        {
            if entries[j].0 == entries[i].0 {
                assert(f[j as int] == f[i as int]);
                return Err(StateIdsError::Duplicate);
            }
            j = j + 1;
        }
        proof {
            assert(v.take(i + 1).drop_last() =~= v.take(i as int));
            assert(v.take(i + 1).last() == v[i as int]);
        }
        if entries[i].0 == create_field {
            create = Some(i);
        }
        i = i + 1;
    }
    assert(v.take(entries@.len() as int) =~= v);
    match create {
        Some(k) => {
            if str_eq(entries[k].1.as_str(), create_event) {
                Ok(())
            } else {
                Err(StateIdsError::WrongCreateEvent)
            }
        },
        None => Err(StateIdsError::WrongCreateEvent),
    }
}

/// Whether a list of key ids holds `id`.
fn holds_key_id(key_ids: &Vec<String>, id: &str) -> (r: bool)
    ensures
        r == strs(key_ids@).contains(id@),
{
    let mut i: usize = 0;
    while i < key_ids.len()
        invariant
            0 <= i <= key_ids@.len(),
            forall|j: int| 0 <= j < i ==> key_ids@[j]@ != id@,
        decreases key_ids@.len() - i,
    {
        if str_eq(key_ids[i].as_str(), id) {
            assert(strs(key_ids@)[i as int] == id@);
            return true;
        }
        i = i + 1;
    }
    proof {
        if strs(key_ids@).contains(id@) {
            let k = choose|k: int| 0 <= k < strs(key_ids@).len() && strs(key_ids@)[k] == id@;
            assert(key_ids@[k]@ == id@);
        }
    }
    false
}

/// Whether the signing keys at hand hold every key a set of signatures
/// names, current or old.
pub fn contains_all_ids(signature_ids: &Vec<String>, verify_keys: &Vec<String>, old_verify_keys: &Vec<String>) -> (r:
    bool)
    ensures
        r == forall|i: int|
            0 <= i < signature_ids@.len() ==> strs(verify_keys@).contains(#[trigger] signature_ids@[i]@) || strs(
                old_verify_keys@,
            ).contains(signature_ids@[i]@),
{
    let mut i: usize = 0;
    while i < signature_ids.len()
        invariant
            0 <= i <= signature_ids@.len(),
            forall|k: int|
                0 <= k < i ==> strs(verify_keys@).contains(#[trigger] signature_ids@[k]@) || strs(
                    old_verify_keys@,
                ).contains(signature_ids@[k]@),
        decreases signature_ids@.len() - i,
    {
        if !holds_key_id(verify_keys, signature_ids[i].as_str()) && !holds_key_id(
            old_verify_keys,
            signature_ids[i].as_str(),
        ) {
            return false;
        }
        i = i + 1;
    }
    true
}

/// How long cached signing keys must stay valid to be used: half an hour.
pub const KEY_MARGIN_MS: u64 = 1_800_000;

/// The longest signing keys are held valid: seven days.
pub const MAX_KEY_VALIDITY_MS: u64 = 604_800_000;

/// Whether cached signing keys answer a request at `now`: they hold every
/// key asked for and stay valid for more than half an hour.
pub fn cached_keys_usable(contains_all: bool, valid_until_ts: u64, now: u64) -> (r: bool)
    requires
        now + KEY_MARGIN_MS <= u64::MAX,
    ensures
        r == (contains_all && valid_until_ts > now + KEY_MARGIN_MS),
{
    contains_all && valid_until_ts > now + KEY_MARGIN_MS
}

/// The validity of keys a server sent, cut to at most seven days from
/// `now`.
pub fn capped_validity(valid_until_ts: u64, now: u64) -> (r: u64)
    requires
        now + MAX_KEY_VALIDITY_MS <= u64::MAX,
    ensures
        r == (if valid_until_ts < now + MAX_KEY_VALIDITY_MS {
            valid_until_ts
        } else {
            (now + MAX_KEY_VALIDITY_MS) as u64
        }),
{
    let cap = now + MAX_KEY_VALIDITY_MS;
    if valid_until_ts < cap {
        valid_until_ts
    } else {
        cap
    }
}

proof fn lemma_state_map_entries(v: Seq<(i64, Seq<char>)>)
    requires
        all_distinct(fields_of(v)),
    ensures
        forall|i: int| 0 <= i < v.len() ==> #[trigger] state_map(v).dom().contains(v[i].0) && state_map(v)[v[i].0]
            == v[i].1,
        forall|k: i64| #[trigger] state_map(v).dom().contains(k) ==> exists|i: int| 0 <= i < v.len() && v[i].0 == k,
    decreases v.len(),
{
    if v.len() > 0 {
        let rest = v.drop_last();
        let n = v.len() - 1;
        assert(all_distinct(fields_of(rest))) by {
            assert forall|i: int, j: int| 0 <= i < j < fields_of(rest).len() implies fields_of(rest)[i] != fields_of(
                rest,
            )[j] by {
                assert(fields_of(rest)[i] == fields_of(v)[i] && fields_of(rest)[j] == fields_of(v)[j]);
            }
        }
        lemma_state_map_entries(rest);
        assert forall|i: int| 0 <= i < v.len() implies #[trigger] state_map(v).dom().contains(v[i].0)
            && state_map(v)[v[i].0] == v[i].1 by {
            if i < n {
                assert(rest[i] == v[i]);
                assert(state_map(rest).dom().contains(rest[i].0));
                assert(fields_of(v)[i] != fields_of(v)[n]);
            }
        }
        assert forall|k: i64| #[trigger] state_map(v).dom().contains(k) implies exists|i: int|
            0 <= i < v.len() && v[i].0 == k by {
            if k != v[n].0 {
                assert(state_map(rest).dom().contains(k));
                let i = choose|i: int| 0 <= i < rest.len() && rest[i].0 == k;
                assert(v[i] == rest[i]);
            } else {
                assert(v[n].0 == k);
            }
        }
    }
}

fn position_of_field(state: &Vec<(i64, String)>, f: i64) -> (r: usize)
    ensures
        r <= state@.len(),
        r < state@.len() ==> state@[r as int].0 == f,
        forall|k: int| 0 <= k < r ==> state@[k].0 != f,
{
    let mut i: usize = 0;
    while i < state.len()
        invariant
            0 <= i <= state@.len(),
            forall|k: int| 0 <= k < i ==> state@[k].0 != f,
        decreases state@.len() - i,
    {
        if state[i].0 == f {
            return i;
        }
        i = i + 1;
    }
    i
}

/// The state after an event: the state at it, with the event in its own
/// slot (`field`) where it is a state event. Fields are never repeated.
pub fn state_after_event(state: &mut Vec<(i64, String)>, field: Option<i64>, event: &str)
    requires
        all_distinct(fields_of(crate::sync::entries_view(old(state)@))),
    ensures
        all_distinct(fields_of(crate::sync::entries_view(final(state)@))),
        state_map(crate::sync::entries_view(final(state)@)) == (match field {
            Some(f) => state_map(crate::sync::entries_view(old(state)@)).insert(f, event@),
            None => state_map(crate::sync::entries_view(old(state)@)),
        }),
{
    let f = match field {
        Some(f) => f,
        None => return,
    };
    let ghost old_v = crate::sync::entries_view(state@);
    let i = position_of_field(state, f);
    let entry = (f, crate::text::to_owned_string(event));
    if i < state.len() {
        state.set(i, entry);
        proof {
            let nv = crate::sync::entries_view(state@);
            assert(nv =~= old_v.update(i as int, (f, event@)));
            assert(fields_of(nv) =~= fields_of(old_v));
            lemma_state_map_entries(old_v);
            lemma_state_map_entries(nv);
            let m = state_map(old_v).insert(f, event@);
            assert forall|k: i64| #[trigger] state_map(nv).dom().contains(k) == m.dom().contains(k) by {
                if k == f {
                    assert(state_map(nv).dom().contains(nv[i as int].0));
                }
                if m.dom().contains(k) && k != f {
                    let j = choose|j: int| 0 <= j < old_v.len() && old_v[j].0 == k;
                    assert(nv[j].0 == k);
                    assert(state_map(nv).dom().contains(nv[j].0));
                }
                if state_map(nv).dom().contains(k) {
                    let j = choose|j: int| 0 <= j < nv.len() && nv[j].0 == k;
                    if j != i as int {
                        assert(old_v[j] == nv[j]);
                        assert(state_map(old_v).dom().contains(old_v[j].0));
                    }
                }
            }
            assert forall|k: i64| #[trigger] m.dom().contains(k) implies state_map(nv)[k] == m[k] by {
                if k == f {
                    assert(state_map(nv).dom().contains(nv[i as int].0));
                } else {
                    let j = choose|j: int| 0 <= j < old_v.len() && old_v[j].0 == k;
                    assert(j != i as int);
                    assert(nv[j] == old_v[j]);
                    assert(state_map(nv).dom().contains(nv[j].0));
                    assert(state_map(old_v).dom().contains(old_v[j].0));
                }
            }
            assert(state_map(nv) =~= m);
        }
    } else {
        state.push(entry);
        proof {
            let nv = crate::sync::entries_view(state@);
            assert(nv =~= old_v.push((f, event@)));
            assert(nv.drop_last() =~= old_v);
            assert forall|a: int, b: int| 0 <= a < b < fields_of(nv).len() implies fields_of(nv)[a] != fields_of(
                nv,
            )[b] by {
                if b < old_v.len() {
                    assert(fields_of(nv)[a] == fields_of(old_v)[a] && fields_of(nv)[b] == fields_of(old_v)[b]);
                } else {
                    assert(state@[a].0 != f);
                }
            }
        }
    }
}

/// Whether keys a trusted server returned for another server are taken in:
/// they must stay valid at least half an hour past `now`, as they were asked
/// for.
pub fn trusted_keys_accepted(valid_until_ts: u64, now: u64) -> (r: bool)
    requires
        now + KEY_MARGIN_MS <= u64::MAX,
    ensures
        r == (valid_until_ts >= now + KEY_MARGIN_MS),
{
    valid_until_ts >= now + KEY_MARGIN_MS
}

/// The validity of the merged keys after taking in keys valid until
/// `valid_until_ts` (cut to seven days from `now`): the earlier of the two.
pub fn merged_validity(current: u64, valid_until_ts: u64, now: u64) -> (r: u64)
    requires
        now + MAX_KEY_VALIDITY_MS <= u64::MAX,
    ensures
        r == (if current < capped(valid_until_ts, now) {
            current
        } else {
            capped(valid_until_ts, now)
        }),
{
    let k = capped_validity(valid_until_ts, now);
    if current < k {
        current
    } else {
        k
    }
}

/// A validity cut to seven days from `now`.
pub open spec fn capped(valid_until_ts: u64, now: u64) -> u64 {
    if valid_until_ts < now + MAX_KEY_VALIDITY_MS {
        valid_until_ts
    } else {
        (now + MAX_KEY_VALIDITY_MS) as u64
    }
}

/// The set of forward extremities after an event is added.
pub open spec fn extremities_after(
    extremities: Set<Seq<char>>,
    prev_events: Set<Seq<char>>,
    event: Seq<char>,
    soft_failed: bool,
) -> Set<Seq<char>> {
    let kept = extremities.difference(prev_events);
    if soft_failed {
        kept
    } else {
        kept.insert(event)
    }
}

/// An event that is taken in (not soft failed) is a forward extremity
/// afterwards; once a later event names it as a previous event it is one no
/// longer, and the later event (taken in too) is. A soft-failed event never
/// becomes an extremity that it was not already.
pub proof fn lemma_extremity_replaced(
    extremities: Set<Seq<char>>,
    prev1: Set<Seq<char>>,
    e1: Seq<char>,
    prev2: Set<Seq<char>>,
    e2: Seq<char>,
)
    requires
        prev2.contains(e1),
        e1 != e2,
    ensures
        extremities_after(extremities, prev1, e1, false).contains(e1),
        !extremities_after(extremities_after(extremities, prev1, e1, false), prev2, e2, false).contains(e1),
        extremities_after(extremities_after(extremities, prev1, e1, false), prev2, e2, false).contains(e2),
        extremities_after(extremities, prev1, e1, true).contains(e1) ==> extremities.contains(e1),
{
}

/// The forward extremities of a room after an event is added: the old ones
/// that the event does not name as previous events, and the event itself
/// unless it was soft failed.
pub fn new_extremities(extremities: &Vec<String>, prev_events: &Vec<String>, event: &str, soft_failed: bool) -> (r:
    Vec<String>)
    requires
        all_distinct(strs(extremities@)),
    ensures
        all_distinct(strs(r@)),
        forall|x: Seq<char>|
            #[trigger] strs(r@).contains(x) <==> ((strs(extremities@).contains(x) && !strs(prev_events@).contains(x))
                || (!soft_failed && x == event@)),
        strs(r@).to_set() == extremities_after(
            strs(extremities@).to_set(),
            strs(prev_events@).to_set(),
            event@,
            soft_failed,
        ),
{
    let r = new_extremities_list(extremities, prev_events, event, soft_failed);
    assert(strs(r@).to_set() =~= extremities_after(
        strs(extremities@).to_set(),
        strs(prev_events@).to_set(),
        event@,
        soft_failed,
    ));
    r
}

fn new_extremities_list(extremities: &Vec<String>, prev_events: &Vec<String>, event: &str, soft_failed: bool) -> (r:
    Vec<String>)
    requires
        all_distinct(strs(extremities@)),
    ensures
        all_distinct(strs(r@)),
        forall|x: Seq<char>|
            #[trigger] strs(r@).contains(x) <==> ((strs(extremities@).contains(x) && !strs(prev_events@).contains(x))
                || (!soft_failed && x == event@)),
{
    let ghost ev = strs(extremities@);
    let mut out: Vec<String> = Vec::new();
    let mut i: usize = 0;
    while i < extremities.len()
        invariant
            0 <= i <= extremities@.len(),
            ev == strs(extremities@),
            all_distinct(ev),
            all_distinct(strs(out@)),
            forall|k: int| 0 <= k < out@.len() ==> exists|j: int| 0 <= j < i && #[trigger] out@[k]@ == ev[j],
            forall|x: Seq<char>|
                #[trigger] strs(out@).contains(x) <==> (ev.take(i as int).contains(x) && !strs(prev_events@).contains(x)),
        decreases extremities@.len() - i,
    {
        let e = &extremities[i];
        let ghost before = out@;
        proof {
            assert(ev.take(i + 1) =~= ev.take(i as int).push(ev[i as int]));
        }
        if !holds_key_id(prev_events, e.as_str()) {
            out.push(e.clone());
            proof {
                assert(strs(out@) =~= strs(before).push(e@));
                assert forall|a: int, b: int| 0 <= a < b < strs(out@).len() implies strs(out@)[a] != strs(out@)[b] by {
                    if b == before.len() {
                        let j = choose|j: int| 0 <= j < i && #[trigger] before[a]@ == ev[j];
                        assert(strs(out@)[a] == before[a]@);
                        assert(ev[j] != ev[i as int]);
                    } else {
                        assert(strs(out@)[a] == strs(before)[a] && strs(out@)[b] == strs(before)[b]);
                    }
                }
                assert forall|k: int| 0 <= k < out@.len() implies exists|j: int| 0 <= j < i + 1 && #[trigger] out@[k]@
                    == ev[j] by {
                    if k < before.len() {
                        let j = choose|j: int| 0 <= j < i && #[trigger] before[k]@ == ev[j];
                        assert(out@[k] == before[k]);
                    } else {
                        assert(out@[k]@ == ev[i as int]);
                    }
                }
                assert forall|x: Seq<char>| #[trigger] strs(out@).contains(x) <==> (ev.take(i + 1).contains(x)
                    && !strs(prev_events@).contains(x)) by {
                    lemma_push_contains(strs(before), e@, x);
                    lemma_push_contains(ev.take(i as int), ev[i as int], x);
                }
            }
        } else {
            proof {
                assert forall|x: Seq<char>| #[trigger] strs(out@).contains(x) <==> (ev.take(i + 1).contains(x)
                    && !strs(prev_events@).contains(x)) by {
                    lemma_push_contains(ev.take(i as int), ev[i as int], x);
                }
            }
        }
        i = i + 1;
    }
    assert(ev.take(extremities@.len() as int) =~= ev);
    if !soft_failed && !holds_key_id(&out, event) {
        let ghost before = out@;
        out.push(crate::text::to_owned_string(event));
        proof {
            assert(strs(out@) =~= strs(before).push(event@));
            assert forall|a: int, b: int| 0 <= a < b < strs(out@).len() implies strs(out@)[a] != strs(out@)[b] by {
                if b == before.len() {
                    assert(strs(out@)[a] == strs(before)[a]);
                    assert(strs(before).contains(strs(before)[a]));
                } else {
                    assert(strs(out@)[a] == strs(before)[a] && strs(out@)[b] == strs(before)[b]);
                }
            }
            assert forall|x: Seq<char>| #[trigger] strs(out@).contains(x) <==> ((ev.contains(x) && !strs(
                prev_events@,
            ).contains(x)) || (!soft_failed && x == event@)) by {
                lemma_push_contains(strs(before), event@, x);
            }
        }
    }
    out
}

proof fn lemma_push_contains(s: Seq<Seq<char>>, y: Seq<char>, x: Seq<char>)
    ensures
        s.push(y).contains(x) <==> (s.contains(x) || x == y),
{
    if s.push(y).contains(x) {
        let k = choose|k: int| 0 <= k < s.push(y).len() && s.push(y)[k] == x;
        if k < s.len() {
            assert(s[k] == x);
        }
    }
    if s.contains(x) {
        let k = choose|k: int| 0 <= k < s.len() && s[k] == x;
        assert(s.push(y)[k] == x);
    }
    if x == y {
        assert(s.push(y)[s.len() as int] == x);
    }
}

} // verus!
