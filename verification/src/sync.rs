//! The decisions of a client `/sync`: how much of the timeline is sent, which
//! room state goes with it, who the room's heroes are, how presence updates
//! merge, and how long an empty answer waits.
use vstd::prelude::*;

use crate::text::{str_eq, to_owned_string};

verus! {

/// The timeline of a room, fetched with one event more than `limit`: at most
/// `limit` events are kept, and the answer says whether some were left out.
pub fn trim_timeline<T>(pdus: Vec<T>, limit: usize) -> (r: (Vec<T>, bool))
    ensures
        r.1 == (pdus@.len() > limit),
        r.0@ == (if pdus@.len() > limit {
            pdus@.drop_last()
        } else {
            pdus@
        }),
{
    let mut pdus = pdus;
    if pdus.len() > limit {
        pdus.pop();
        (pdus, true)
    } else {
        (pdus, false)
    }
}

/// Whether a room's state needs no update in this sync: nothing new in the
/// timeline, and the state is the one of the last sync (or none was seen).
pub fn state_unchanged(timeline_empty: bool, since_frame: Option<i64>, current_frame: i64) -> (r: bool)
    ensures
        r == (timeline_empty && (since_frame == Some(current_frame) || since_frame is None)),
{
    timeline_empty && (match since_frame {
        Some(f) => f == current_frame,
        None => true,
    })
}

/// How the state of a room with changes is sent.
#[derive(Debug, PartialEq, Eq, Structural, Clone, Copy)]
pub enum StateSync {
    /// The whole current state, as for a first sync.
    Full,
    /// What changed since the state of the last sync.
    Incremental,
    /// Nothing: there is no state to compare with.
    Nothing,
}

/// How the state of a room with changes is sent: in full on a first sync or
/// after the user joined, else as a difference where there is a state to
/// compare with.
pub fn plan_changed_state(since_sn: i64, joined_since_last_sync: bool, since_frame: Option<i64>) -> (r: StateSync)
    ensures
        r == (if since_sn == 0 || joined_since_last_sync {
            StateSync::Full
        } else if since_frame is Some {
            StateSync::Incremental
        } else {
            StateSync::Nothing
        }),
{
    if since_sn == 0 || joined_since_last_sync {
        StateSync::Full
    } else if since_frame.is_some() {
        StateSync::Incremental
    } else {
        StateSync::Nothing
    }
}

/// Whether the member event of a user goes into the state of a first sync:
/// always without lazy loading or with full state, else only for the senders
/// in the timeline and the syncing user.
pub fn member_state_wanted(lazy_load: bool, full_state: bool, in_timeline: bool, is_sender: bool) -> (r: bool)
    ensures
        r == (!lazy_load || full_state || in_timeline || is_sender),
{
    !lazy_load || full_state || in_timeline || is_sender
}

/// The characters of each string.
pub open spec fn strs(v: Seq<String>) -> Seq<Seq<char>> {
    v.map_values(|s: String| s@)
}

/// The heroes picked from `candidates`, in order: each user once, never the
/// syncing user.
pub open spec fn pick_heroes(candidates: Seq<Seq<char>>, sender: Seq<char>) -> Seq<Seq<char>>
    decreases candidates.len(),
{
    if candidates.len() == 0 {
        Seq::empty()
    } else {
        let prev = pick_heroes(candidates.drop_last(), sender);
        let x = candidates.last();
        if prev.contains(x) || x == sender {
            prev
        } else {
            prev.push(x)
        }
    }
}

fn contains_str(v: &Vec<String>, s: &String) -> (r: bool)
    ensures
        r == strs(v@).contains(s@),
{
    let mut i: usize = 0;
    while i < v.len()
        invariant
            0 <= i <= v@.len(),
            forall|j: int| 0 <= j < i ==> v@[j]@ != s@,
        decreases v@.len() - i,
    {
        if str_eq(v[i].as_str(), s.as_str()) {
            assert(strs(v@)[i as int] == s@);
            return true;
        }
        i = i + 1;
    }
    proof {
        if strs(v@).contains(s@) {
            let k = choose|k: int| 0 <= k < strs(v@).len() && strs(v@)[k] == s@;
            assert(v@[k]@ == s@);
        }
    }
    false
}

/// The heroes of a small room (at most five joined and invited members): the
/// users of the member events that still join or invite, in order, each once
/// and without the syncing user. A larger room has none.
pub fn heroes(joined: u64, invited: u64, candidates: &Vec<String>, sender: &str) -> (r: Vec<String>)
    ensures
        strs(r@) == (if joined + invited <= 5 {
            pick_heroes(strs(candidates@), sender@)
        } else {
            Seq::empty()
        }),
{
    let mut out: Vec<String> = Vec::new();
    if !(joined <= 5 && invited <= 5 - joined) {
        assert(strs(out@) =~= Seq::<Seq<char>>::empty());
        return out;
    }
    let mut i: usize = 0;
    assert(strs(candidates@).take(0) =~= Seq::<Seq<char>>::empty());
    while i < candidates.len()
        invariant
            0 <= i <= candidates@.len(),
            strs(out@) == pick_heroes(strs(candidates@).take(i as int), sender@),
        decreases candidates@.len() - i,
    {
        let x = &candidates[i];
        let ghost cs = strs(candidates@);
        proof {
            assert(cs.take(i + 1).drop_last() =~= cs.take(i as int));
            assert(cs.take(i + 1).last() == x@);
        }
        if !contains_str(&out, x) && !str_eq(x.as_str(), sender) {
            let ghost before = strs(out@);
            out.push(x.clone());
            proof {
                assert(strs(out@) =~= before.push(x@));
            }
        }
        i = i + 1;
    }
    assert(strs(candidates@).take(candidates@.len() as int) =~= strs(candidates@));
    out
}

/// Heroes are never repeated and never the syncing user, and every candidate
/// other than the syncing user is one of them.
pub proof fn lemma_heroes_distinct(candidates: Seq<Seq<char>>, sender: Seq<char>)
    ensures
        forall|i: int, j: int|
            0 <= i < j < pick_heroes(candidates, sender).len() ==> pick_heroes(candidates, sender)[i]
                != pick_heroes(candidates, sender)[j],
        !pick_heroes(candidates, sender).contains(sender),
        forall|x: Seq<char>| #[trigger] candidates.contains(x) && x != sender ==> pick_heroes(candidates, sender).contains(x),
        forall|x: Seq<char>| #[trigger] pick_heroes(candidates, sender).contains(x) ==> candidates.contains(x),
    decreases candidates.len(),
{
    if candidates.len() > 0 {
        let rest = candidates.drop_last();
        lemma_heroes_distinct(rest, sender);
        let prev = pick_heroes(rest, sender);
        let last = candidates.last();
        assert forall|x: Seq<char>| #[trigger] candidates.contains(x) && x != sender implies pick_heroes(
            candidates,
            sender,
        ).contains(x) by {
            let k = choose|k: int| 0 <= k < candidates.len() && candidates[k] == x;
            if k < candidates.len() - 1 {
                assert(rest[k] == x);
                assert(rest.contains(x));
            }
            if !prev.contains(last) && last != sender {
                assert(prev.push(last)[prev.len() as int] == last);
                if prev.contains(x) {
                    let m = choose|m: int| 0 <= m < prev.len() && prev[m] == x;
                    assert(prev.push(last)[m] == x);
                }
            }
        }
        assert forall|x: Seq<char>| #[trigger] pick_heroes(candidates, sender).contains(x) implies candidates.contains(
            x,
        ) by {
            let h = pick_heroes(candidates, sender);
            let k = choose|k: int| 0 <= k < h.len() && h[k] == x;
            if k < prev.len() {
                assert(prev[k] == x);
                assert(prev.contains(x));
                let m = choose|m: int| 0 <= m < rest.len() && rest[m] == x;
                assert(candidates[m] == x);
            } else {
                assert(candidates[candidates.len() - 1] == x);
            }
        }
        if !prev.contains(last) && last != sender {
            let h = prev.push(last);
            assert forall|i: int, j: int| 0 <= i < j < h.len() implies h[i] != h[j] by {
                if j == prev.len() {
                    assert(prev[i] == h[i]);
                    if h[i] == h[j] {
                        assert(prev.contains(last));
                    }
                }
            }
            assert(!h.contains(sender)) by {
                if h.contains(sender) {
                    let k = choose|k: int| 0 <= k < h.len() && h[k] == sender;
                    if k < prev.len() {
                        assert(prev[k] == sender);
                        assert(prev.contains(sender));
                    }
                }
            }
        }
    }
}

/// The state entries (field, event) of `current` that go into an incremental
/// sync: all of them with full state, else those that `since` does not hold.
pub open spec fn changed_entries(current: Seq<(i64, Seq<char>)>, since: Seq<(i64, Seq<char>)>, full_state: bool) -> Seq<
    (i64, Seq<char>),
>
    decreases current.len(),
{
    if current.len() == 0 {
        Seq::empty()
    } else {
        let prev = changed_entries(current.drop_last(), since, full_state);
        if full_state || !since.contains(current.last()) {
            prev.push(current.last())
        } else {
            prev
        }
    }
}

/// The (field, event) pairs of a state map.
pub open spec fn entries_view(v: Seq<(i64, String)>) -> Seq<(i64, Seq<char>)> {
    v.map_values(|e: (i64, String)| (e.0, e.1@))
}

fn holds_entry(since: &Vec<(i64, String)>, field: i64, event: &String) -> (r: bool)
    ensures
        r == entries_view(since@).contains((field, event@)),
{
    let mut i: usize = 0;
    while i < since.len()
        invariant
            0 <= i <= since@.len(),
            forall|j: int| 0 <= j < i ==> entries_view(since@)[j] != (field, event@),
        decreases since@.len() - i,
    {
        if since[i].0 == field && str_eq(since[i].1.as_str(), event.as_str()) {
            assert(entries_view(since@)[i as int] == (field, event@));
            return true;
        }
        i = i + 1;
    }
    false
}

/// The state entries of `current` that an incremental sync sends: every one
/// with full state, else those that differ from the state of the last sync.
pub fn changed_state(current: &Vec<(i64, String)>, since: &Vec<(i64, String)>, full_state: bool) -> (r: Vec<(i64, String)>)
    ensures
        entries_view(r@) == changed_entries(entries_view(current@), entries_view(since@), full_state),
{
    let mut out: Vec<(i64, String)> = Vec::new();
    let mut i: usize = 0;
    assert(entries_view(current@).take(0) =~= Seq::<(i64, Seq<char>)>::empty());
    assert(entries_view(out@) =~= Seq::<(i64, Seq<char>)>::empty());
    while i < current.len()
        invariant
            0 <= i <= current@.len(),
            entries_view(out@) == changed_entries(entries_view(current@).take(i as int), entries_view(since@), full_state),
        decreases current@.len() - i,
    {
        let field = current[i].0;
        let event = &current[i].1;
        let ghost cv = entries_view(current@);
        proof {
            assert(cv.take(i + 1).drop_last() =~= cv.take(i as int));
            assert(cv.take(i + 1).last() == (field, event@));
        }
        if full_state || !holds_entry(since, field, event) {
            let ghost before = entries_view(out@);
            out.push((field, event.clone()));
            proof {
                assert(entries_view(out@) =~= before.push((field, event@)));
            }
        }
        i = i + 1;
    }
    assert(entries_view(current@).take(current@.len() as int) =~= entries_view(current@));
    out
}

/// With full state, an incremental sync sends the whole current state.
pub proof fn lemma_full_state_sends_all(current: Seq<(i64, Seq<char>)>, since: Seq<(i64, Seq<char>)>)
    ensures
        changed_entries(current, since, true) == current,
    decreases current.len(),
{
    if current.len() > 0 {
        lemma_full_state_sends_all(current.drop_last(), since);
        assert(current.drop_last().push(current.last()) =~= current);
    }
}

/// Against an identical earlier state, an incremental sync without full
/// state sends nothing.
pub proof fn lemma_same_state_sends_nothing(current: Seq<(i64, Seq<char>)>, since: Seq<(i64, Seq<char>)>)
    requires
        forall|k: int| 0 <= k < current.len() ==> since.contains(#[trigger] current[k]),
    ensures
        changed_entries(current, since, false) == Seq::<(i64, Seq<char>)>::empty(),
    decreases current.len(),
{
    if current.len() > 0 {
        let rest = current.drop_last();
        assert forall|k: int| 0 <= k < rest.len() implies since.contains(#[trigger] rest[k]) by {
            assert(rest[k] == current[k]);
        }
        lemma_same_state_sends_nothing(rest, since);
        assert(since.contains(current[current.len() - 1]));
    }
}

/// Whether a room the user left is left out of the sync: when there was no
/// earlier state, or the user left before it.
pub fn left_room_skipped(left_frame: i64, since_frame: Option<i64>) -> (r: bool)
    ensures
        r == (since_frame is None || left_frame < since_frame->0),
{
    match since_frame {
        None => true,
        Some(f) => left_frame < f,
    }
}

/// Whether a state entry of a left room is sent: it changed since the last
/// sync (or full state is asked for), and it is not a member event held back
/// by lazy loading.
pub fn left_state_wanted(
    changed: bool,
    full_state: bool,
    lazy_load: bool,
    is_member_event: bool,
    is_sender: bool,
) -> (r: bool)
    ensures
        r == ((full_state || changed) && (!lazy_load || !is_member_event || full_state || is_sender)),
{
    (full_state || changed) && (!lazy_load || !is_member_event || full_state || is_sender)
}

/// What a presence event says of a user.
#[derive(Debug)]
pub struct PresenceContent {
    pub presence: String,
    pub status_msg: Option<String>,
    pub last_active_ago: Option<u64>,
    pub display_name: Option<String>,
    pub avatar_url: Option<String>,
    pub currently_active: Option<bool>,
}

/// Merges a later presence event of a user into the one already collected:
/// the later state wins, and each optional detail is the later one where it
/// is given, else the earlier one.
pub fn merge_presence(current: PresenceContent, newer: PresenceContent) -> (r: PresenceContent)
    ensures
        r.presence == newer.presence,
        r.status_msg == (if newer.status_msg is Some {
            newer.status_msg
        } else {
            current.status_msg
        }),
        r.last_active_ago == (if newer.last_active_ago is Some {
            newer.last_active_ago
        } else {
            current.last_active_ago
        }),
        r.display_name == (if newer.display_name is Some {
            newer.display_name
        } else {
            current.display_name
        }),
        r.avatar_url == (if newer.avatar_url is Some {
            newer.avatar_url
        } else {
            current.avatar_url
        }),
        r.currently_active == (if newer.currently_active is Some {
            newer.currently_active
        } else {
            current.currently_active
        }),
{
    let PresenceContent { presence, status_msg, last_active_ago, display_name, avatar_url, currently_active } =
        newer;
    PresenceContent {
        presence,
        status_msg: match status_msg {
            Some(m) => Some(m),
            None => current.status_msg,
        },
        last_active_ago: match last_active_ago {
            Some(a) => Some(a),
            None => current.last_active_ago,
        },
        display_name: match display_name {
            Some(n) => Some(n),
            None => current.display_name,
        },
        avatar_url: match avatar_url {
            Some(u) => Some(u),
            None => current.avatar_url,
        },
        currently_active: match currently_active {
            Some(c) => Some(c),
            None => current.currently_active,
        },
    }
}

/// How long (in milliseconds) an empty sync waits for news: the client's
/// timeout, cut to thirty seconds when its whole seconds exceed thirty; no
/// wait when full state was asked for or the answer is not empty.
pub fn long_poll_wait_ms(full_state: bool, response_empty: bool, timeout_ms: Option<u64>) -> (r: Option<u64>)
    ensures
        r == (if !full_state && response_empty {
            let t = if timeout_ms is Some {
                timeout_ms->0
            } else {
                0
            };
            Some(if t / 1000 > 30 {
                30000u64
            } else {
                t
            })
        } else {
            None::<u64>
        }),
{
    if !full_state && response_empty {
        let t = match timeout_ms {
            Some(t) => t,
            None => 0,
        };
        Some(if t / 1000 > 30 {
            30000
        } else {
            t
        })
    } else {
        None
    }
}

/// Whether a room is answered with an empty entry: the client's `since`
/// lies past the server's current sequence number.
pub fn since_ahead(since_sn: i64, current_sn: i64) -> (r: bool)
    ensures
        r == (since_sn > current_sn),
{
    since_sn > current_sn
}

/// The header of a joined room's timeline in a sync.
#[derive(Debug, PartialEq, Eq, Structural, Clone, Copy)]
pub struct TimelineHeader {
    /// Whether events were left out (or the user joined since the last sync).
    pub limited: bool,
    /// The token before the first event sent, if any.
    pub prev_batch: Option<i64>,
    /// Whether the notification and highlight counts are sent.
    pub send_counts: bool,
}

/// The header of a joined room's timeline: limited where events were left
/// out or the user joined since the last sync; the previous batch is the
/// first event's sequence number; the counts are sent where there are new
/// events or the user read notifications since the last sync.
pub fn timeline_header(
    first_sn: Option<i64>,
    limited: bool,
    joined_since_last_sync: bool,
    last_notification_read: i64,
    since_sn: i64,
) -> (r: TimelineHeader)
    ensures
        r == (TimelineHeader {
            limited: limited || joined_since_last_sync,
            prev_batch: first_sn,
            send_counts: first_sn is Some || last_notification_read > since_sn,
        }),
{
    TimelineHeader {
        limited: limited || joined_since_last_sync,
        prev_batch: first_sn,
        send_counts: first_sn.is_some() || last_notification_read > since_sn,
    }
}

/// The senders of an incremental sync's timeline whose member events are
/// sent for lazy loading, in order, with the users whose member state is
/// known to the client afterwards. Each event comes as its sender, whether
/// the sender's member event was sent to this device before, and whether the
/// room has a member event for the sender; a sender already loaded is
/// skipped, and otherwise its member event goes out where it was not sent
/// before (or redundant members are asked for) and the room has one.
pub open spec fn lazy_run(events: Seq<(Seq<char>, bool, bool)>, loaded: Set<Seq<char>>, send_redundant: bool) -> (
    Seq<Seq<char>>,
    Set<Seq<char>>,
)
    decreases events.len(),
{
    if events.len() == 0 {
        (Seq::empty(), loaded)
    } else {
        let (out, known) = lazy_run(events.drop_last(), loaded, send_redundant);
        let (u, sent_before, has_member) = events.last();
        if !known.contains(u) && (!sent_before || send_redundant) && has_member {
            (out.push(u), known.insert(u))
        } else {
            (out, known)
        }
    }
}

/// A timeline's events as plain values.
pub open spec fn lazy_events(events: Seq<(String, bool, bool)>) -> Seq<(Seq<char>, bool, bool)> {
    events.map_values(|e: (String, bool, bool)| (e.0@, e.1, e.2))
}

/// The senders whose member events an incremental sync adds for lazy
/// loading, in order (see `lazy_run`); `loaded` holds the users whose member
/// events the changed state already carries.
pub fn lazy_members_to_send(events: &Vec<(String, bool, bool)>, loaded: &Vec<String>, send_redundant: bool) -> (r: Vec<
    String,
>)
    ensures
        strs(r@) == lazy_run(lazy_events(events@), strs(loaded@).to_set(), send_redundant).0,
{
    let ghost ev = lazy_events(events@);
    let ghost start = strs(loaded@).to_set();
    let mut out: Vec<String> = Vec::new();
    let mut i: usize = 0;
    assert(ev.take(0) =~= Seq::<(Seq<char>, bool, bool)>::empty());
    assert(strs(out@).to_set() =~= Set::<Seq<char>>::empty());
    assert(start.union(Set::<Seq<char>>::empty()) =~= start);
    while i < events.len()
        invariant
            0 <= i <= events@.len(),
            ev == lazy_events(events@),
            start == strs(loaded@).to_set(),
            strs(out@) == lazy_run(ev.take(i as int), start, send_redundant).0,
            lazy_run(ev.take(i as int), start, send_redundant).1 == start.union(strs(out@).to_set()),
        decreases events@.len() - i,
    {
        let u = &events[i].0;
        let sent_before = events[i].1;
        let has_member = events[i].2;
        let known = contains_str(loaded, u) || contains_str(&out, u);
        let ghost before = out@;
        proof {
            assert(ev.take(i + 1).drop_last() =~= ev.take(i as int));
            assert(ev.take(i + 1).last() == (u@, sent_before, has_member));
            assert(start.union(strs(before).to_set()).contains(u@) == known) by {
                if strs(loaded@).contains(u@) {
                    assert(start.contains(u@));
                }
                if strs(before).contains(u@) {
                    assert(strs(before).to_set().contains(u@));
                }
            }
        }
        if !known && (!sent_before || send_redundant) && has_member {
            out.push(to_owned_string(u.as_str()));
            proof {
                assert(strs(out@) =~= strs(before).push(u@));
                strs(before).lemma_push_to_set_commute(u@);
                assert(strs(out@).to_set() =~= strs(before).to_set().insert(u@));
                assert(start.union(strs(out@).to_set()) =~= start.union(strs(before).to_set()).insert(u@));
            }
        }
        i = i + 1;
    }
    assert(ev.take(i as int) =~= ev);
    out
}

/// A user's membership as a member state event of an incremental sync
/// gives it.
#[derive(Debug, PartialEq, Eq, Structural, Clone, Copy)]
pub enum MemberChange {
    Join,
    Leave,
    Other,
}

/// The users whose device lists a sync reports as changed, in order: each
/// member state event's user (never the syncing user) that joined and shares
/// a room with the syncing user.
pub open spec fn joined_device_updates(members: Seq<(Seq<char>, MemberChange, bool)>, sender: Seq<char>) -> Seq<
    Seq<char>,
>
    decreases members.len(),
{
    if members.len() == 0 {
        Seq::empty()
    } else {
        let prev = joined_device_updates(members.drop_last(), sender);
        let (u, change, shares_room) = members.last();
        if u != sender && change == MemberChange::Join && shares_room {
            prev.push(u)
        } else {
            prev
        }
    }
}

/// The users of the member state events that left, in order, never the
/// syncing user.
pub open spec fn left_members(members: Seq<(Seq<char>, MemberChange, bool)>, sender: Seq<char>) -> Seq<Seq<char>>
    decreases members.len(),
{
    if members.len() == 0 {
        Seq::empty()
    } else {
        let prev = left_members(members.drop_last(), sender);
        let (u, change, _) = members.last();
        if u != sender && change == MemberChange::Leave {
            prev.push(u)
        } else {
            prev
        }
    }
}

/// Member state events as plain values.
pub open spec fn member_changes(members: Seq<(String, MemberChange, bool)>) -> Seq<(Seq<char>, MemberChange, bool)> {
    members.map_values(|m: (String, MemberChange, bool)| (m.0@, m.1, m.2))
}

/// The device-list changes of a joined room in an incremental sync: from
/// each member state event (its user, its membership, and whether the user
/// shares a room with the syncing user), the users that joined go to the
/// device-list updates and those that left to the left users; where the
/// syncing user joined since the last sync, every joined user of the room
/// but the syncing user goes to the updates too. Returns the updates and
/// the left users.
pub fn device_list_changes(
    members: &Vec<(String, MemberChange, bool)>,
    sender: &str,
    joined_since_last_sync: bool,
    joined_users: &Vec<String>,
) -> (r: (Vec<String>, Vec<String>))
    ensures
        strs(r.0@) == joined_device_updates(member_changes(members@), sender@) + (if joined_since_last_sync {
            strs(joined_users@).filter(|u: Seq<char>| u != sender@)
        } else {
            Seq::empty()
        }),
        strs(r.1@) == left_members(member_changes(members@), sender@),
{
    let ghost mv = member_changes(members@);
    let mut updates: Vec<String> = Vec::new();
    let mut left: Vec<String> = Vec::new();
    let mut i: usize = 0;
    assert(mv.take(0) =~= Seq::<(Seq<char>, MemberChange, bool)>::empty());
    while i < members.len()
        invariant
            0 <= i <= members@.len(),
            mv == member_changes(members@),
            strs(updates@) == joined_device_updates(mv.take(i as int), sender@),
            strs(left@) == left_members(mv.take(i as int), sender@),
        decreases members@.len() - i,
    {
        let u = &members[i].0;
        let change = members[i].1;
        let shares_room = members[i].2;
        proof {
            assert(mv.take(i + 1).drop_last() =~= mv.take(i as int));
            assert(mv.take(i + 1).last() == (u@, change, shares_room));
        }
        let is_sender = str_eq(u.as_str(), sender);
        if !is_sender {
            match change {
                MemberChange::Join => {
                    if shares_room {
                        let ghost before = updates@;
                        updates.push(to_owned_string(u.as_str()));
                        assert(strs(updates@) =~= strs(before).push(u@));
                    }
                },
                MemberChange::Leave => {
                    let ghost before = left@;
                    left.push(to_owned_string(u.as_str()));
                    assert(strs(left@) =~= strs(before).push(u@));
                },
                MemberChange::Other => {},
            }
        }
        i = i + 1;
    }
    assert(mv.take(i as int) =~= mv);
    let ghost from_members = strs(updates@);
    if joined_since_last_sync {
        let ghost jv = strs(joined_users@);
        let ghost keep = |u: Seq<char>| u != sender@;
        let mut j: usize = 0;
        assert(jv.take(0).filter(keep) =~= Seq::<Seq<char>>::empty());
        assert(from_members + jv.take(0).filter(keep) =~= from_members);
        while j < joined_users.len()
            invariant
                0 <= j <= joined_users@.len(),
                jv == strs(joined_users@),
                keep == (|u: Seq<char>| u != sender@),
                strs(updates@) == from_members + jv.take(j as int).filter(keep),
            decreases joined_users@.len() - j,
        {
            let ghost before = updates@;
            proof {
                assert(jv.take(j + 1).drop_last() =~= jv.take(j as int));
                reveal(Seq::filter);
                assert(jv.take(j + 1).last() == joined_users@[j as int]@);
            }
            if !str_eq(joined_users[j].as_str(), sender) {
                updates.push(to_owned_string(joined_users[j].as_str()));
                proof {
                    assert(strs(updates@) =~= strs(before).push(joined_users@[j as int]@));
                    assert(jv.take(j + 1).filter(keep) == jv.take(j as int).filter(keep).push(joined_users@[j as int]@));
                    assert(from_members + jv.take(j + 1).filter(keep) =~= (from_members + jv.take(j as int).filter(keep)).push(
                        joined_users@[j as int]@,
                    ));
                }
            } else {
                proof {
                    assert(jv.take(j + 1).filter(keep) == jv.take(j as int).filter(keep));
                }
            }
            j = j + 1;
        }
        assert(jv.take(j as int) =~= jv);
    } else {
        assert(from_members + Seq::<Seq<char>>::empty() =~= from_members);
    }
    (updates, left)
}

/// The users of `users` (each with whether each room it shares with the
/// syncing user is encrypted) that share no encrypted room with the syncing
/// user any more, in order.
pub open spec fn sharing_no_encrypted_room(users: Seq<(Seq<char>, Seq<bool>)>) -> Seq<Seq<char>>
    decreases users.len(),
{
    if users.len() == 0 {
        Seq::empty()
    } else {
        let prev = sharing_no_encrypted_room(users.drop_last());
        if users.last().1.contains(true) {
            prev
        } else {
            prev.push(users.last().0)
        }
    }
}

/// Users with their shared rooms' encryption, as plain values.
pub open spec fn shared_encryption(users: Seq<(String, Vec<bool>)>) -> Seq<(Seq<char>, Seq<bool>)> {
    users.map_values(|u: (String, Vec<bool>)| (u.0@, u.1@))
}

/// The users whose device lists a sync reports as left: of the users of the
/// rooms the syncing user left and the users who left its rooms, those that
/// share no encrypted room with it any more.
pub fn device_lists_left(users: &Vec<(String, Vec<bool>)>) -> (r: Vec<String>)
    ensures
        strs(r@) == sharing_no_encrypted_room(shared_encryption(users@)),
{
    let ghost uv = shared_encryption(users@);
    let mut out: Vec<String> = Vec::new();
    let mut i: usize = 0;
    assert(uv.take(0) =~= Seq::<(Seq<char>, Seq<bool>)>::empty());
    while i < users.len()
        invariant
            0 <= i <= users@.len(),
            uv == shared_encryption(users@),
            strs(out@) == sharing_no_encrypted_room(uv.take(i as int)),
        decreases users@.len() - i,
    {
        proof {
            assert(uv.take(i + 1).drop_last() =~= uv.take(i as int));
            assert(uv.take(i + 1).last() == (users@[i as int].0@, users@[i as int].1@));
        }
        let flags = &users[i].1;
        let mut encrypted = false;
        let mut j: usize = 0;
        while j < flags.len()
            invariant
                0 <= j <= flags@.len(),
                encrypted == flags@.take(j as int).contains(true),
            decreases flags@.len() - j,
        {
            let ghost t0 = flags@.take(j as int);
            let ghost t1 = flags@.take(j + 1);
            proof {
                assert(t1 =~= t0.push(flags@[j as int]));
                if t0.contains(true) {
                    let k = choose|k: int| 0 <= k < t0.len() && t0[k] == true;
                    assert(t1[k] == true);
                }
            }
            if flags[j] {
                encrypted = true;
                assert(t1[j as int]);
            } else {
                proof {
                    if t1.contains(true) {
                        let k = choose|k: int| 0 <= k < t1.len() && t1[k] == true;
                        assert(t0[k] == true);
                    }
                }
            }
            j = j + 1;
        }
        assert(flags@.take(j as int) =~= flags@);
        if !encrypted {
            let ghost before = out@;
            out.push(to_owned_string(users[i].0.as_str()));
            assert(strs(out@) =~= strs(before).push(users@[i as int].0@));
        }
        i = i + 1;
    }
    assert(uv.take(i as int) =~= uv);
    out
}

} // verus!
