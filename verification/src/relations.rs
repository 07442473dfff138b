//! Paging through the events that relate to an event, and who may join a
//! restricted room.
use vstd::prelude::*;

verus! {

/// How many related events a page holds: the limit asked for (where it fits
/// in 32 bits), else ten; at most a hundred.
pub fn relations_limit(limit: Option<usize>) -> (r: usize)
    ensures
        r == (match limit {
            Some(u) => if u <= u32::MAX {
                if u < 100 {
                    u
                } else {
                    100
                }
            } else {
                10
            },
            None => 10,
        }),
        r <= 100,
{
    let l: usize = match limit {
        Some(u) => if u <= 0xffff_ffff {
            u
        } else {
            10
        },
        None => 10,
    };
    if l < 100 {
        l
    } else {
        100
    }
}

/// A related event as stored, newest first: its sequence number, whether it
/// passes the page's filters, and whether the user may see it.
#[derive(Debug, PartialEq, Eq, Structural, Clone, Copy)]
pub struct RelatedEvent {
    pub sn: i64,
    pub passes_filter: bool,
    pub visible: bool,
}

/// The sequence numbers of the related events that pass the filters and are
/// visible, in stored order.
pub open spec fn shown(events: Seq<RelatedEvent>) -> Seq<i64>
    decreases events.len(),
{
    if events.len() == 0 {
        Seq::empty()
    } else {
        let prev = shown(events.drop_last());
        let e = events.last();
        if e.passes_filter && e.visible {
            prev.push(e.sn)
        } else {
            prev
        }
    }
}

/// A page of related events: the shown events (oldest first when paging
/// forwards, as stored otherwise), and the token of the next page: the last
/// shown event as stored.
pub fn relations_page(events: &Vec<RelatedEvent>, forward: bool) -> (r: (Vec<i64>, Option<i64>))
    ensures
        r.0@ == (if forward {
            shown(events@).reverse()
        } else {
            shown(events@)
        }),
        r.1 == (if shown(events@).len() > 0 {
            Some(shown(events@).last())
        } else {
            None::<i64>
        }),
{
    let mut kept: Vec<i64> = Vec::new();
    let mut i: usize = 0;
    assert(events@.take(0) =~= Seq::<RelatedEvent>::empty());
    while i < events.len()
        invariant
            0 <= i <= events@.len(),
            kept@ == shown(events@.take(i as int)),
        decreases events@.len() - i,
    {
        let e = events[i];
        proof {
            assert(events@.take(i + 1).drop_last() =~= events@.take(i as int));
            assert(events@.take(i + 1).last() == e);
        }
        if e.passes_filter && e.visible {
            kept.push(e.sn);
        }
        i = i + 1;
    }
    assert(events@.take(events@.len() as int) =~= events@);
    let next = if kept.len() > 0 {
        Some(kept[kept.len() - 1])
    } else {
        None
    };
    if forward {
        let mut out: Vec<i64> = Vec::new();
        let mut k: usize = kept.len();
        while k > 0
            invariant
                0 <= k <= kept@.len(),
                out@ == kept@.subrange(k as int, kept@.len() as int).reverse(),
            decreases k,
        {
            k = k - 1;
            out.push(kept[k]);
            assert(out@ =~= kept@.subrange(k as int, kept@.len() as int).reverse());
        }
        assert(kept@.subrange(0, kept@.len() as int) =~= kept@);
        (out, next)
    } else {
        (kept, next)
    }
}

/// Whether a room version knows restricted join rules: not versions one to
/// seven.
pub open spec fn supports_restricted(version: Seq<char>) -> bool {
    !(version == "1"@ || version == "2"@ || version == "3"@ || version == "4"@ || version == "5"@ || version
        == "6"@ || version == "7"@)
}

/// The join rule of a room, as far as restricted joins go.
#[derive(Debug)]
pub enum JoinRuleKind {
    /// Restricted (or knock-restricted), with, for each allow rule that names
    /// a room, whether the user is joined to it; other rules count as none.
    Restricted { rules: usize, joined_allowed_rooms: Vec<bool> },
    /// Any other join rule.
    Other,
}

/// Why a restricted join is refused.
#[derive(Debug, PartialEq, Eq, Structural, Clone, Copy)]
pub enum RestrictedJoinError {
    /// The user is in none of the rooms that would let them in.
    NotInRequiredRoom,
}

fn any_true(v: &Vec<bool>) -> (r: bool)
    ensures
        r == v@.contains(true),
{
    let mut i: usize = 0;
    while i < v.len()
        invariant
            0 <= i <= v@.len(),
            forall|k: int| 0 <= k < i ==> !v@[k],
        decreases v@.len() - i,
    {
        if v[i] {
            assert(v@[i as int]);
            return true;
        }
        i = i + 1;
    }
    false
}

/// Whether a user can join a room by a restricted join rule: not in room
/// versions one to seven, not when already joined, not without such a rule
/// (or with one that allows nothing); yes when joined to a room an allow
/// rule names; refused otherwise.
pub fn user_can_perform_restricted_join(version: &str, already_joined: bool, rule: &Option<JoinRuleKind>) -> (r:
    Result<bool, RestrictedJoinError>)
    ensures
        r == (if !supports_restricted(version@) || already_joined {
            Ok(false)
        } else {
            match rule {
                Some(JoinRuleKind::Restricted { rules, joined_allowed_rooms }) => if *rules == 0 {
                    Ok(false)
                } else if joined_allowed_rooms@.contains(true) {
                    Ok(true)
                } else {
                    Err(RestrictedJoinError::NotInRequiredRoom)
                },
                _ => Ok(false),
            }
        }),
{
    proof {
        reveal_strlit("1");
        reveal_strlit("2");
        reveal_strlit("3");
        reveal_strlit("4");
        reveal_strlit("5");
        reveal_strlit("6");
        reveal_strlit("7");
    }
    let old = crate::text::str_eq(version, "1") || crate::text::str_eq(version, "2") || crate::text::str_eq(
        version,
        "3",
    ) || crate::text::str_eq(version, "4") || crate::text::str_eq(version, "5") || crate::text::str_eq(
        version,
        "6",
    ) || crate::text::str_eq(version, "7");
    if old || already_joined {
        return Ok(false);
    }
    match rule {
        Some(JoinRuleKind::Restricted { rules, joined_allowed_rooms }) => {
            if *rules == 0 {
                return Ok(false);
            }
            if any_true(joined_allowed_rooms) {
                return Ok(true);
            }
            Err(RestrictedJoinError::NotInRequiredRoom)
        },
        _ => Ok(false),
    }
}

/// Whether an event sent over federation leaves out its `event_id`: in
/// every room version but the first two, where the id is not derived from
/// the event.
pub fn strips_event_id(version: &str) -> (r: bool)
    ensures
        r == !(version@ == "1"@ || version@ == "2"@),
{
    proof {
        reveal_strlit("1");
        reveal_strlit("2");
    }
    !(crate::text::str_eq(version, "1") || crate::text::str_eq(version, "2"))
}

/// The servers asked to help with a knock, in order: every server named but
/// this one (`our_server`).
pub fn knock_servers(servers: &Vec<String>, our_server: &str) -> (r: Vec<String>)
    ensures
        r@.map_values(|s: String| s@) == servers@.map_values(|s: String| s@).filter(|s: Seq<char>| s != our_server@),
{
    let ghost sv = servers@.map_values(|s: String| s@);
    let ghost keep = |s: Seq<char>| s != our_server@;
    let mut out: Vec<String> = Vec::new();
    let mut i: usize = 0;
    assert(sv.take(0).filter(keep) =~= Seq::<Seq<char>>::empty());
    while i < servers.len()
        invariant
            0 <= i <= servers@.len(),
            sv == servers@.map_values(|s: String| s@),
            keep == (|s: Seq<char>| s != our_server@),
            out@.map_values(|s: String| s@) == sv.take(i as int).filter(keep),
        decreases servers@.len() - i,
    {
        proof {
            assert(sv.take(i + 1).drop_last() =~= sv.take(i as int));
            reveal(Seq::filter);
        }
        let ghost before = out@.map_values(|s: String| s@);
        if !crate::text::str_eq(servers[i].as_str(), our_server) {
            out.push(servers[i].clone());
            assert(out@.map_values(|s: String| s@) =~= before.push(sv[i as int]));
        }
        i = i + 1;
    }
    assert(sv.take(servers@.len() as int) =~= sv);
    out
}

/// Whether this server can take part in a room of `version`: one of the
/// versions it supports.
pub fn room_version_supported(version: &str, supported: &Vec<String>) -> (r: bool)
    ensures
        r == supported@.map_values(|s: String| s@).contains(version@),
{
    let mut i: usize = 0;
    while i < supported.len()
        invariant
            0 <= i <= supported@.len(),
            forall|j: int| 0 <= j < i ==> supported@[j]@ != version@,
        decreases supported@.len() - i,
    {
        if crate::text::str_eq(supported[i].as_str(), version) {
            assert(supported@.map_values(|s: String| s@)[i as int] == version@);
            return true;
        }
        i = i + 1;
    }
    proof {
        let sv = supported@.map_values(|s: String| s@);
        if sv.contains(version@) {
            let k = choose|k: int| 0 <= k < sv.len() && sv[k] == version@;
            assert(supported@[k]@ == version@);
        }
    }
    false
}

} // verus!
