//! Who may see a room's events: users and servers by the room's history
//! visibility, and which servers a room is routed through.
use vstd::prelude::*;

verus! {

/// Who may read a room's history.
#[derive(Debug, PartialEq, Eq, Structural, Clone, Copy)]
pub enum HistoryVisibility {
    /// Anyone.
    WorldReadable,
    /// Members, also of the history before they joined.
    Shared,
    /// Members, from the time they were invited.
    Invited,
    /// Members, from the time they joined.
    Joined,
    /// A setting this server does not know.
    Unknown,
}

/// Whether a server may see an event, by the history visibility at the
/// event: always where readable by the world or by members; else where one
/// of its users (each given by whether it was invited, and joined, at the
/// event) was invited, or joined, as the setting asks.
pub fn server_can_see_event(visibility: HistoryVisibility, members: &Vec<(bool, bool)>) -> (r: bool)
    ensures
        r == (match visibility {
            HistoryVisibility::WorldReadable | HistoryVisibility::Shared => true,
            HistoryVisibility::Invited => exists|i: int| 0 <= i < members@.len() && (#[trigger] members@[i]).0,
            HistoryVisibility::Joined => exists|i: int| 0 <= i < members@.len() && (#[trigger] members@[i]).1,
            HistoryVisibility::Unknown => false,
        }),
{
    match visibility {
        HistoryVisibility::WorldReadable | HistoryVisibility::Shared => true,
        HistoryVisibility::Invited | HistoryVisibility::Joined => {
            let want_joined = visibility == HistoryVisibility::Joined;
            let mut i: usize = 0;
            while i < members.len()
                invariant
                    0 <= i <= members@.len(),
                    want_joined == (visibility == HistoryVisibility::Joined),
                    visibility == HistoryVisibility::Invited || visibility == HistoryVisibility::Joined,
                    forall|k: int|
                        0 <= k < i ==> !(if want_joined {
                            (#[trigger] members@[k]).1
                        } else {
                            members@[k].0
                        }),
                decreases members@.len() - i,
            {
                let (invited, joined) = members[i];
                if (want_joined && joined) || (!want_joined && invited) {
                    assert(members@[i as int] == (invited, joined));
                    return true;
                }
                i = i + 1;
            }
            false
        },
        HistoryVisibility::Unknown => false,
    }
}

/// Whether a user may see an event, by the history visibility at the event:
/// always where readable by the world; where readable by members, if the
/// user is joined now; else where the user was invited, or joined (at the
/// event or just before), as the setting asks.
pub fn user_can_see_event(
    visibility: HistoryVisibility,
    joined_now: bool,
    invited_at_event: bool,
    joined_at_event: bool,
    joined_before_event: bool,
) -> (r: bool)
    ensures
        r == (match visibility {
            HistoryVisibility::WorldReadable => true,
            HistoryVisibility::Shared => joined_now,
            HistoryVisibility::Invited => invited_at_event,
            HistoryVisibility::Joined => joined_at_event || joined_before_event,
            HistoryVisibility::Unknown => false,
        }),
{
    match visibility {
        HistoryVisibility::WorldReadable => true,
        HistoryVisibility::Shared => joined_now,
        HistoryVisibility::Invited => invited_at_event,
        HistoryVisibility::Joined => joined_at_event || joined_before_event,
        HistoryVisibility::Unknown => false,
    }
}

/// Up to which event a user may see a room's state events.
#[derive(Debug, PartialEq, Eq, Structural, Clone, Copy)]
pub enum UserCanSeeEvent {
    /// All of them.
    Always,
    /// Those up to the user's leave event (by its sequence number).
    Until(i64),
    /// None.
    Never,
}

impl UserCanSeeEvent {
    /// The last sequence number the user may see.
    pub fn as_until_sn(&self) -> (r: i64)
        ensures
            r == (match *self {
                UserCanSeeEvent::Always => i64::MAX,
                UserCanSeeEvent::Until(sn) => sn,
                UserCanSeeEvent::Never => 0,
            }),
    {
        match self {
            UserCanSeeEvent::Always => i64::MAX,
            UserCanSeeEvent::Until(sn) => *sn,
            UserCanSeeEvent::Never => 0,
        }
    }
}

/// Up to which event a user may see a room's state: all of it when joined
/// or when the room is readable by the world; else up to the user's leave
/// event, if any; else none.
pub fn user_can_see_state_events(joined: bool, visibility: HistoryVisibility, leave_sn: Option<i64>) -> (r:
    UserCanSeeEvent)
    ensures
        r == (if joined || visibility == HistoryVisibility::WorldReadable {
            UserCanSeeEvent::Always
        } else {
            match leave_sn {
                Some(sn) => UserCanSeeEvent::Until(sn),
                None => UserCanSeeEvent::Never,
            }
        }),
{
    if joined || visibility == HistoryVisibility::WorldReadable {
        UserCanSeeEvent::Always
    } else {
        match leave_sn {
            Some(sn) => UserCanSeeEvent::Until(sn),
            None => UserCanSeeEvent::Never,
        }
    }
}

/// The position of the last greatest power level among `powers`.
pub open spec fn last_max_index(powers: Seq<i64>) -> int
    decreases powers.len(),
{
    if powers.len() <= 1 {
        0
    } else {
        let k = last_max_index(powers.drop_last());
        if powers.last() >= powers[k] {
            powers.len() - 1
        } else {
            k
        }
    }
}

/// The user a room's route starts with has the greatest power of all.
pub proof fn lemma_last_max_index(powers: Seq<i64>)
    requires
        powers.len() > 0,
    ensures
        0 <= last_max_index(powers) < powers.len(),
        forall|i: int| 0 <= i < powers.len() ==> #[trigger] powers[i] <= powers[last_max_index(powers)],
    decreases powers.len(),
{
    if powers.len() > 1 {
        lemma_last_max_index(powers.drop_last());
        let k = last_max_index(powers.drop_last());
        assert forall|i: int| 0 <= i < powers.len() implies #[trigger] powers[i] <= powers[last_max_index(powers)] by {
            if i < powers.len() - 1 {
                assert(powers.drop_last()[i] == powers[i]);
            }
        }
    }
}

/// The servers a room is routed through: the first five servers of the
/// room, with the server of the most powerful user (the last of the users
/// with the greatest power, where that is at least 50) put first, five at
/// most in all.
pub open spec fn route_via(users: Seq<(Seq<char>, i64)>, servers: Seq<Seq<char>>) -> Seq<Seq<char>> {
    let base = servers.take(if servers.len() < 5 {
        servers.len() as int
    } else {
        5
    });
    let powers = users.map_values(|u: (Seq<char>, i64)| u.1);
    if users.len() > 0 && users[last_max_index(powers)].1 >= 50 {
        let with_top = seq![users[last_max_index(powers)].0] + base;
        with_top.take(if with_top.len() < 5 {
            with_top.len() as int
        } else {
            5
        })
    } else {
        base
    }
}

/// The servers a room is routed through, from the users of its power levels
/// (each the server of the user and the user's power, in the order of the
/// users) and the room's servers. With no power levels, there are none.
pub fn servers_route_via(power_levels: Option<Vec<(String, i64)>>, servers: Vec<String>) -> (r: Vec<String>)
    ensures
        r@.map_values(|s: String| s@) == (match power_levels {
            Some(users) => route_via(users@.map_values(|u: (String, i64)| (u.0@, u.1)), servers@.map_values(|s: String| s@)),
            None => Seq::empty(),
        }),
{
    let users = match power_levels {
        Some(u) => u,
        None => {
            let out: Vec<String> = Vec::new();
            assert(out@.map_values(|s: String| s@) =~= Seq::<Seq<char>>::empty());
            return out;
        },
    };
    let ghost uv = users@.map_values(|u: (String, i64)| (u.0@, u.1));
    let ghost sv = servers@.map_values(|s: String| s@);
    let mut base = servers;
    base.truncate(5);
    proof {
        let n = if sv.len() < 5 { sv.len() as int } else { 5 };
        assert(base@.map_values(|s: String| s@) =~= sv.take(n));
    }
    if users.len() == 0 {
        return base;
    }
    let mut best: usize = 0;
    let mut i: usize = 1;
    let ghost powers = uv.map_values(|u: (Seq<char>, i64)| u.1);
    assert(powers.take(1).drop_last() =~= Seq::<i64>::empty());
    while i < users.len()
        invariant
            1 <= i <= users@.len(),
            uv == users@.map_values(|u: (String, i64)| (u.0@, u.1)),
            powers == uv.map_values(|u: (Seq<char>, i64)| u.1),
            best as int == last_max_index(powers.take(i as int)),
            best < i,
        decreases users@.len() - i,
    {
        proof {
            assert(powers.take(i + 1).drop_last() =~= powers.take(i as int));
            assert(powers.take(i + 1).last() == users@[i as int].1);
            assert(powers.take(i + 1)[best as int] == users@[best as int].1);
            assert(powers.take(i as int).len() == i);
        }
        if users[i].1 >= users[best].1 {
            best = i;
        }
        i = i + 1;
    }
    assert(powers.take(users@.len() as int) =~= powers);
    if users[best].1 >= 50 {
        let top = crate::text::to_owned_string(users[best].0.as_str());
        let ghost bv = base@.map_values(|s: String| s@);
        base.insert(0, top);
        base.truncate(5);
        proof {
            let w = seq![uv[best as int].0] + bv;
            let n = if w.len() < 5 { w.len() as int } else { 5 };
            assert(base@.map_values(|s: String| s@) =~= w.take(n));
        }
        base
    } else {
        base
    }
}

} // verus!
