//! Decisions taken when an event is built and appended to a room's timeline:
//! its depth and parents, who is notified, and how a user's room lists carry
//! over to an upgraded room.
use vstd::prelude::*;

use crate::sync::strs;
use crate::text::str_eq;

verus! {

/// How many forward extremities a new event names as its parents.
pub const MAX_PREV_EVENTS: usize = 20;

/// The parents of a new event: the first twenty forward extremities.
pub fn prev_events<T>(extremities: Vec<T>) -> (r: Vec<T>)
    ensures
        r@ == extremities@.take(if extremities@.len() < MAX_PREV_EVENTS {
            extremities@.len() as int
        } else {
            MAX_PREV_EVENTS as int
        }),
{
    let mut out = extremities;
    out.truncate(MAX_PREV_EVENTS);
    out
}

/// The greatest of some depths, or zero for none.
pub open spec fn max_depth(depths: Seq<u64>) -> nat
    decreases depths.len(),
{
    if depths.len() == 0 {
        0
    } else {
        let m = max_depth(depths.drop_last());
        if depths.last() > m {
            depths.last() as nat
        } else {
            m
        }
    }
}

/// The depth of a new event: one more than the deepest of its parents that
/// could be found (one for none).
pub fn next_depth(parent_depths: &Vec<u64>) -> (r: u64)
    requires
        forall|i: int| 0 <= i < parent_depths@.len() ==> parent_depths@[i] < u64::MAX,
    ensures
        r == max_depth(parent_depths@) + 1,
{
    let mut m: u64 = 0;
    let mut i: usize = 0;
    assert(parent_depths@.take(0) =~= Seq::<u64>::empty());
    while i < parent_depths.len()
        invariant
            0 <= i <= parent_depths@.len(),
            m == max_depth(parent_depths@.take(i as int)),
            m < u64::MAX,
            forall|k: int| 0 <= k < parent_depths@.len() ==> parent_depths@[k] < u64::MAX,
        decreases parent_depths@.len() - i,
    {
        proof {
            assert(parent_depths@.take(i + 1).drop_last() =~= parent_depths@.take(i as int));
        }
        if parent_depths[i] > m {
            m = parent_depths[i];
        }
        i = i + 1;
    }
    assert(parent_depths@.take(parent_depths@.len() as int) =~= parent_depths@);
    m + 1
}

/// A new event is deeper than each of its parents.
pub proof fn lemma_depth_exceeds_parents(depths: Seq<u64>)
    ensures
        forall|i: int| 0 <= i < depths.len() ==> depths[i] < max_depth(depths) + 1,
    decreases depths.len(),
{
    if depths.len() > 0 {
        lemma_depth_exceeds_parents(depths.drop_last());
        assert forall|i: int| 0 <= i < depths.len() implies depths[i] < max_depth(depths) + 1 by {
            if i < depths.len() - 1 {
                assert(depths.drop_last()[i] == depths[i]);
            }
        }
    }
}

/// What a push rule asks for an event.
#[derive(Debug, PartialEq, Eq, Structural, Clone, Copy)]
pub enum PushAction {
    /// Notify the user.
    Notify,
    /// Set the highlight tweak to the given value.
    Highlight(bool),
    /// Anything else (sounds, other tweaks).
    Other,
}

/// Whether the actions for a user ask to notify them, and to highlight the
/// event.
pub fn notify_and_highlight(actions: &Vec<PushAction>) -> (r: (bool, bool))
    ensures
        r.0 == actions@.contains(PushAction::Notify),
        r.1 == actions@.contains(PushAction::Highlight(true)),
{
    let mut notify = false;
    let mut highlight = false;
    let mut i: usize = 0;
    while i < actions.len()
        invariant
            0 <= i <= actions@.len(),
            notify == exists|k: int| 0 <= k < i && actions@[k] == PushAction::Notify,
            highlight == exists|k: int| 0 <= k < i && actions@[k] == PushAction::Highlight(true),
        decreases actions@.len() - i,
    {
        let a = actions[i];
        match a {
            PushAction::Notify => {
                notify = true;
            },
            PushAction::Highlight(true) => {
                highlight = true;
            },
            _ => {},
        }
        i = i + 1;
    }
    (notify, highlight)
}

/// The room lists of a user's direct chats after joining `room`, the upgrade
/// of `predecessor`: each list that holds the predecessor gains the room.
pub open spec fn carried_direct(lists: Seq<Seq<Seq<char>>>, predecessor: Seq<char>, room: Seq<char>) -> Seq<
    Seq<Seq<char>>,
> {
    lists.map_values(|l: Seq<Seq<char>>| if l.contains(predecessor) {
        l.push(room)
    } else {
        l
    })
}

/// The room lists of direct chats, as characters.
pub open spec fn lists_view(lists: Seq<Vec<String>>) -> Seq<Seq<Seq<char>>> {
    lists.map_values(|l: Vec<String>| strs(l@))
}

fn contains_room(list: &Vec<String>, room: &str) -> (r: bool)
    ensures
        r == strs(list@).contains(room@),
{
    let mut i: usize = 0;
    while i < list.len()
        invariant
            0 <= i <= list@.len(),
            forall|j: int| 0 <= j < i ==> list@[j]@ != room@,
        decreases list@.len() - i,
    {
        if str_eq(list[i].as_str(), room) {
            assert(strs(list@)[i as int] == room@);
            return true;
        }
        i = i + 1;
    }
    proof {
        if strs(list@).contains(room@) {
            let k = choose|k: int| 0 <= k < strs(list@).len() && strs(list@)[k] == room@;
            assert(list@[k]@ == room@);
        }
    }
    false
}

/// Carries a user's direct chat flag over from `predecessor` to `room`, its
/// upgrade: every room list that holds the predecessor gains the room. Says
/// whether any list changed (and so must be stored again).
pub fn carry_direct_rooms(lists: &mut Vec<Vec<String>>, predecessor: &str, room: &str) -> (r: bool)
    ensures
        lists_view(final(lists)@) == carried_direct(lists_view(old(lists)@), predecessor@, room@),
        r == exists|i: int| 0 <= i < old(lists)@.len() && #[trigger] lists_view(old(lists)@)[i].contains(predecessor@),
{
    let ghost before = lists_view(lists@);
    let mut source: Vec<Vec<String>> = Vec::new();
    std::mem::swap(&mut source, lists);
    let ghost src = source@;
    let mut out: Vec<Vec<String>> = Vec::new();
    let mut updated = false;
    let mut i: usize = 0;
    while i < source.len()
        invariant
            0 <= i <= source@.len(),
            source@ == src,
            lists_view(src) == before,
            out@.len() == i,
            forall|k: int| 0 <= k < i ==> #[trigger] lists_view(out@)[k] == carried_direct(before, predecessor@, room@)[k],
            updated == exists|k: int| 0 <= k < i && #[trigger] before[k].contains(predecessor@),
        decreases source@.len() - i,
    {
        let mut list = source[i].clone();
        proof {
            assert(strs(list@) == strs(source@[i as int]@)) by {
                assert(list@ == source@[i as int]@);
            }
        }
        let ghost lv = strs(list@);
        assert(lv == before[i as int]);
        if contains_room(&list, predecessor) {
            list.push(crate::text::to_owned_string(room));
            proof {
                assert(strs(list@) =~= lv.push(room@));
            }
            updated = true;
        }
        let ghost prev_out = out@;
        let ghost done = strs(list@);
        assert(done == carried_direct(before, predecessor@, room@)[i as int]);
        out.push(list);
        proof {
            assert(lists_view(out@)[i as int] == done);
            if before[i as int].contains(predecessor@) {
                assert(updated);
            }
            assert forall|k: int| 0 <= k < i + 1 implies #[trigger] lists_view(out@)[k] == carried_direct(
                before,
                predecessor@,
                room@,
            )[k] by {
                if k < i {
                    assert(out@[k] == prev_out[k]);
                    assert(lists_view(prev_out)[k] == carried_direct(before, predecessor@, room@)[k]);
                }
            }
        }
        i = i + 1;
    }
    proof {
        assert(lists_view(out@) =~= carried_direct(before, predecessor@, room@));
    }
    *lists = out;
    updated
}

/// Whether an invite comes from a user the invited user ignores.
pub fn sender_ignored(ignored: &Vec<String>, sender: &str) -> (r: bool)
    ensures
        r == strs(ignored@).contains(sender@),
{
    contains_room(ignored, sender)
}

/// The summary of a thread kept on its root event.
#[derive(Debug)]
pub struct BundledThread<T> {
    /// The newest event of the thread.
    pub latest_event: T,
    /// How many events the thread has.
    pub count: u64,
    /// Whether the user took part in it.
    pub current_user_participated: bool,
}

/// The thread summary after `latest` joins the thread: one more event, with
/// `latest` as the newest; a new thread counts one event, taken part in.
pub fn add_to_thread<T>(existing: Option<BundledThread<T>>, latest: T) -> (r: BundledThread<T>)
    requires
        existing matches Some(t) ==> t.count < u64::MAX,
    ensures
        r.latest_event == latest,
        match existing {
            Some(t) => r.count == t.count + 1 && r.current_user_participated == t.current_user_participated,
            None => r.count == 1 && r.current_user_participated,
        },
{
    match existing {
        Some(t) => BundledThread {
            latest_event: latest,
            count: t.count + 1,
            current_user_participated: t.current_user_participated,
        },
        None => BundledThread { latest_event: latest, count: 1, current_user_participated: true },
    }
}

/// The users whose counts rise for a new event, from each user of the
/// room with what the push rules ask for them: never the sender; notified
/// users, and highlighted users, in order.
pub open spec fn counted_users(users: Seq<(Seq<char>, Seq<PushAction>)>, sender: Seq<char>, highlight: bool) -> Seq<
    Seq<char>,
>
    decreases users.len(),
{
    if users.len() == 0 {
        Seq::empty()
    } else {
        let prev = counted_users(users.drop_last(), sender, highlight);
        let (u, actions) = users.last();
        let wanted = if highlight {
            actions.contains(PushAction::Highlight(true))
        } else {
            actions.contains(PushAction::Notify)
        };
        if u != sender && wanted {
            prev.push(u)
        } else {
            prev
        }
    }
}

/// The users of a room with their push actions, as plain values.
pub open spec fn users_view(users: Seq<(String, Vec<PushAction>)>) -> Seq<(Seq<char>, Seq<PushAction>)> {
    users.map_values(|u: (String, Vec<PushAction>)| (u.0@, u.1@))
}

/// Whose notification count, and whose highlight count, rise for a new
/// event: every user of the room but the sender whose push rules ask to
/// notify them, and to highlight the event.
pub fn users_to_count(users: &Vec<(String, Vec<PushAction>)>, sender: &str) -> (r: (Vec<String>, Vec<String>))
    ensures
        strs(r.0@) == counted_users(users_view(users@), sender@, false),
        strs(r.1@) == counted_users(users_view(users@), sender@, true),
{
    let ghost uv = users_view(users@);
    let mut notifies: Vec<String> = Vec::new();
    let mut highlights: Vec<String> = Vec::new();
    let mut i: usize = 0;
    assert(uv.take(0) =~= Seq::<(Seq<char>, Seq<PushAction>)>::empty());
    while i < users.len()
        invariant
            0 <= i <= users@.len(),
            uv == users_view(users@),
            strs(notifies@) == counted_users(uv.take(i as int), sender@, false),
            strs(highlights@) == counted_users(uv.take(i as int), sender@, true),
        decreases users@.len() - i,
    {
        let user = &users[i].0;
        proof {
            assert(uv.take(i + 1).drop_last() =~= uv.take(i as int));
            assert(uv.take(i + 1).last() == (user@, users@[i as int].1@));
        }
        if !str_eq(user.as_str(), sender) {
            let (notify, highlight) = notify_and_highlight(&users[i].1);
            if notify {
                let ghost before = strs(notifies@);
                notifies.push(user.clone());
                assert(strs(notifies@) =~= before.push(user@));
            }
            if highlight {
                let ghost before = strs(highlights@);
                highlights.push(user.clone());
                assert(strs(highlights@) =~= before.push(user@));
            }
        }
        i = i + 1;
    }
    assert(uv.take(users@.len() as int) =~= uv);
    (notifies, highlights)
}

} // verus!
