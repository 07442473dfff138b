//! The connection cache of sliding sync: a request fills in what it leaves
//! out from the one before it on the same connection, and the rooms each
//! list has sent are remembered.
use vstd::prelude::*;

use crate::store::SessionStore;
use crate::sync::strs;
use crate::text::{str_eq, to_owned_string};

verus! {

/// The filters of a sliding sync list.
#[derive(Debug)]
pub struct SyncFilters {
    pub is_dm: Option<bool>,
    pub spaces: Vec<String>,
    pub is_encrypted: Option<bool>,
    pub is_invite: Option<bool>,
    pub room_types: Vec<String>,
    pub not_room_types: Vec<String>,
    pub room_name_like: Option<String>,
    pub tags: Vec<String>,
    pub not_tags: Vec<String>,
}

/// What a list asks of rooms that were upgraded.
#[derive(Debug)]
pub struct IncludeOldRooms {
    pub timeline_limit: Option<u64>,
    pub required_state: Vec<(String, String)>,
}

/// A sliding sync list as a request gives it.
#[derive(Debug)]
pub struct SyncList {
    pub sort: Vec<String>,
    pub required_state: Vec<(String, String)>,
    pub timeline_limit: Option<u64>,
    pub include_old_rooms: Option<IncludeOldRooms>,
    pub filters: Option<SyncFilters>,
    pub bump_event_types: Vec<String>,
}

/// `given` where it holds anything, else `cached`.
pub open spec fn or_cached<T>(given: Vec<T>, cached: Vec<T>) -> Vec<T> {
    if given@.len() == 0 {
        cached
    } else {
        given
    }
}

/// `given` where it is set, else `cached`.
pub open spec fn opt_or<T>(given: Option<T>, cached: Option<T>) -> Option<T> {
    if given is Some {
        given
    } else {
        cached
    }
}

fn pick_vec<T>(given: Vec<T>, cached: Vec<T>) -> (r: Vec<T>)
    ensures
        r == or_cached(given, cached),
{
    if given.len() == 0 {
        cached
    } else {
        given
    }
}

fn pick_opt<T>(given: Option<T>, cached: Option<T>) -> (r: Option<T>)
    ensures
        r == opt_or(given, cached),
{
    match given {
        Some(g) => Some(g),
        None => cached,
    }
}

/// The filters a request's list ends with: each field the request's where
/// set (or not empty), else the cached one.
pub open spec fn merged_filters(given: SyncFilters, cached: SyncFilters) -> SyncFilters {
    SyncFilters {
        is_dm: opt_or(given.is_dm, cached.is_dm),
        spaces: or_cached(given.spaces, cached.spaces),
        is_encrypted: opt_or(given.is_encrypted, cached.is_encrypted),
        is_invite: opt_or(given.is_invite, cached.is_invite),
        room_types: or_cached(given.room_types, cached.room_types),
        not_room_types: or_cached(given.not_room_types, cached.not_room_types),
        room_name_like: opt_or(given.room_name_like, cached.room_name_like),
        tags: or_cached(given.tags, cached.tags),
        not_tags: or_cached(given.not_tags, cached.not_tags),
    }
}

/// The list a request's list ends with once merged with the cached list of
/// the same id.
pub open spec fn merged_list(given: SyncList, cached: SyncList) -> SyncList {
    SyncList {
        sort: or_cached(given.sort, cached.sort),
        required_state: or_cached(given.required_state, cached.required_state),
        timeline_limit: opt_or(given.timeline_limit, cached.timeline_limit),
        include_old_rooms: opt_or(given.include_old_rooms, cached.include_old_rooms),
        filters: match (given.filters, cached.filters) {
            (Some(g), Some(c)) => Some(merged_filters(g, c)),
            (g, c) => opt_or(g, c),
        },
        bump_event_types: or_cached(given.bump_event_types, cached.bump_event_types),
    }
}

/// The extension settings a request ends with once merged with the cached
/// ones.
pub open spec fn merged_extensions(given: ExtensionsConfig, cached: ExtensionsConfig) -> ExtensionsConfig {
    ExtensionsConfig {
        e2ee: opt_or(given.e2ee, cached.e2ee),
        to_device: opt_or(given.to_device, cached.to_device),
        account_data: opt_or(given.account_data, cached.account_data),
        account_data_lists: opt_or(given.account_data_lists, cached.account_data_lists),
        account_data_rooms: opt_or(given.account_data_rooms, cached.account_data_rooms),
    }
}

/// Fills in the filters a request leaves unset from the cached ones.
pub fn merge_filters(given: SyncFilters, cached: SyncFilters) -> (r: SyncFilters)
    ensures
        r == merged_filters(given, cached),
        r.is_dm == opt_or(given.is_dm, cached.is_dm),
        r.spaces == or_cached(given.spaces, cached.spaces),
        r.is_encrypted == opt_or(given.is_encrypted, cached.is_encrypted),
        r.is_invite == opt_or(given.is_invite, cached.is_invite),
        r.room_types == or_cached(given.room_types, cached.room_types),
        r.not_room_types == or_cached(given.not_room_types, cached.not_room_types),
        r.room_name_like == opt_or(given.room_name_like, cached.room_name_like),
        r.tags == or_cached(given.tags, cached.tags),
        r.not_tags == or_cached(given.not_tags, cached.not_tags),
{
    SyncFilters {
        is_dm: pick_opt(given.is_dm, cached.is_dm),
        spaces: pick_vec(given.spaces, cached.spaces),
        is_encrypted: pick_opt(given.is_encrypted, cached.is_encrypted),
        is_invite: pick_opt(given.is_invite, cached.is_invite),
        room_types: pick_vec(given.room_types, cached.room_types),
        not_room_types: pick_vec(given.not_room_types, cached.not_room_types),
        room_name_like: pick_opt(given.room_name_like, cached.room_name_like),
        tags: pick_vec(given.tags, cached.tags),
        not_tags: pick_vec(given.not_tags, cached.not_tags),
    }
}

/// Fills in what a request's list leaves out from the list of the same id
/// cached for the connection: the sort, required state and bump event types
/// where empty, the timeline limit and old-room settings where unset, and
/// the filters (merged field by field where both have them). The result is
/// what the cache keeps for the list.
pub fn merge_list(given: SyncList, cached: SyncList) -> (r: SyncList)
    ensures
        r == merged_list(given, cached),
        r.sort == or_cached(given.sort, cached.sort),
        r.required_state == or_cached(given.required_state, cached.required_state),
        r.timeline_limit == opt_or(given.timeline_limit, cached.timeline_limit),
        r.include_old_rooms == opt_or(given.include_old_rooms, cached.include_old_rooms),
        r.bump_event_types == or_cached(given.bump_event_types, cached.bump_event_types),
        match (given.filters, cached.filters) {
            (Some(g), Some(c)) => r.filters matches Some(f) && {
                &&& f.is_dm == opt_or(g.is_dm, c.is_dm)
                &&& f.spaces == or_cached(g.spaces, c.spaces)
                &&& f.is_encrypted == opt_or(g.is_encrypted, c.is_encrypted)
                &&& f.is_invite == opt_or(g.is_invite, c.is_invite)
                &&& f.room_types == or_cached(g.room_types, c.room_types)
                &&& f.not_room_types == or_cached(g.not_room_types, c.not_room_types)
                &&& f.room_name_like == opt_or(g.room_name_like, c.room_name_like)
                &&& f.tags == or_cached(g.tags, c.tags)
                &&& f.not_tags == or_cached(g.not_tags, c.not_tags)
            },
            (g, c) => r.filters == opt_or(g, c),
        },
{
    let filters = match (given.filters, cached.filters) {
        (Some(g), Some(c)) => Some(merge_filters(g, c)),
        (None, Some(c)) => Some(c),
        (g, None) => g,
    };
    SyncList {
        sort: pick_vec(given.sort, cached.sort),
        required_state: pick_vec(given.required_state, cached.required_state),
        timeline_limit: pick_opt(given.timeline_limit, cached.timeline_limit),
        include_old_rooms: pick_opt(given.include_old_rooms, cached.include_old_rooms),
        filters,
        bump_event_types: pick_vec(given.bump_event_types, cached.bump_event_types),
    }
}

/// Which extensions a sliding sync asks for.
#[derive(Debug)]
pub struct ExtensionsConfig {
    pub e2ee: Option<bool>,
    pub to_device: Option<bool>,
    pub account_data: Option<bool>,
    pub account_data_lists: Option<Vec<String>>,
    pub account_data_rooms: Option<Vec<String>>,
}

/// Fills in the extension settings a request leaves unset from those cached
/// for the connection; the result is what the cache keeps.
pub fn merge_extensions(given: ExtensionsConfig, cached: ExtensionsConfig) -> (r: ExtensionsConfig)
    ensures
        r == merged_extensions(given, cached),
        r.e2ee == opt_or(given.e2ee, cached.e2ee),
        r.to_device == opt_or(given.to_device, cached.to_device),
        r.account_data == opt_or(given.account_data, cached.account_data),
        r.account_data_lists == opt_or(given.account_data_lists, cached.account_data_lists),
        r.account_data_rooms == opt_or(given.account_data_rooms, cached.account_data_rooms),
{
    ExtensionsConfig {
        e2ee: pick_opt(given.e2ee, cached.e2ee),
        to_device: pick_opt(given.to_device, cached.to_device),
        account_data: pick_opt(given.account_data, cached.account_data),
        account_data_lists: pick_opt(given.account_data_lists, cached.account_data_lists),
        account_data_rooms: pick_opt(given.account_data_rooms, cached.account_data_rooms),
    }
}

/// The room ids of a list of known rooms.
pub open spec fn known_ids(known: Seq<(String, i64)>) -> Seq<Seq<char>> {
    known.map_values(|e: (String, i64)| e.0@)
}

/// No room occurs twice.
pub open spec fn ids_distinct(ids: Seq<Seq<char>>) -> bool {
    forall|i: int, j: int| 0 <= i < j < ids.len() ==> ids[i] != ids[j]
}

/// Records the rooms a list sent in this sync: they are known since
/// `since`; the rooms known before that the list did not send are known
/// since zero (sent again in full next time).
pub fn update_known_rooms(known: &mut Vec<(String, i64)>, sent: &Vec<String>, since: i64)
    requires
        ids_distinct(known_ids(old(known)@)),
        ids_distinct(strs(sent@)),
    ensures
        ids_distinct(known_ids(final(known)@)),
        forall|k: int|
            0 <= k < final(known)@.len() ==> (if strs(sent@).contains(#[trigger] final(known)@[k].0@) {
                final(known)@[k].1 == since
            } else {
                final(known)@[k].1 == 0 && known_ids(old(known)@).contains(final(known)@[k].0@)
            }),
        forall|r: Seq<char>|
            #[trigger] known_ids(final(known)@).contains(r) <==> (strs(sent@).contains(r) || known_ids(
                old(known)@,
            ).contains(r)),
{
    let ghost old_known = known@;
    let mut out: Vec<(String, i64)> = Vec::new();
    let mut i: usize = 0;
    while i < known.len()
        invariant
            0 <= i <= known@.len(),
            known@ == old_known,
            ids_distinct(known_ids(old_known)),
            out@.len() == i,
            forall|k: int| 0 <= k < i ==> (#[trigger] out@[k]).0@ == old_known[k].0@,
            forall|k: int|
                0 <= k < i ==> (#[trigger] out@[k]).1 == (if strs(sent@).contains(old_known[k].0@) {
                    since
                } else {
                    0
                }),
        decreases known@.len() - i,
    {
        let id = known[i].0.clone();
        let in_sent = contains_id(sent, id.as_str());
        let v: i64 = if in_sent {
            since
        } else {
            0
        };
        out.push((id, v));
        i = i + 1;
    }
    assert(known_ids(out@) =~= known_ids(old_known)) by {
        assert forall|k: int| 0 <= k < out@.len() implies known_ids(out@)[k] == known_ids(old_known)[k] by {
            assert(out@[k].0@ == old_known[k].0@);
        }
    }
    let ghost first = out@;
    let mut j: usize = 0;
    while j < sent.len()
        invariant
            0 <= j <= sent@.len(),
            ids_distinct(strs(sent@)),
            ids_distinct(known_ids(out@)),
            first.len() <= out@.len(),
            out@.subrange(0, first.len() as int) == first,
            known_ids(first) == known_ids(old_known),
            forall|k: int|
                0 <= k < first.len() ==> (#[trigger] first[k]).1 == (if strs(sent@).contains(first[k].0@) {
                    since
                } else {
                    0
                }),
            forall|k: int| first.len() <= k < out@.len() ==> (#[trigger] out@[k]).1 == since && strs(sent@).take(
                j as int,
            ).contains(out@[k].0@),
            forall|r: Seq<char>|
                #[trigger] known_ids(out@).contains(r) <==> (strs(sent@).take(j as int).contains(r) || known_ids(
                    old_known,
                ).contains(r)),
        decreases sent@.len() - j,
    {
        let id = sent[j].clone();
        let present = contains_known(&out, id.as_str());
        let ghost before = out@;
        if !present {
            out.push((id, since));
        }
        proof {
            let sv = strs(sent@);
            let t0 = sv.take(j as int);
            let t1 = sv.take(j + 1);
            assert(t1 =~= t0.push(sv[j as int]));
            assert(sv[j as int] == sent@[j as int]@);
            if !present {
                assert(known_ids(out@) =~= known_ids(before).push(sent@[j as int]@));
                assert(out@.subrange(0, first.len() as int) =~= before.subrange(0, first.len() as int));
                assert forall|a: int, b: int| 0 <= a < b < known_ids(out@).len() implies known_ids(out@)[a]
                    != known_ids(out@)[b] by {
                    if b == before.len() {
                        assert(known_ids(out@)[a] == known_ids(before)[a]);
                        assert(known_ids(before).contains(known_ids(before)[a]));
                    } else {
                        assert(known_ids(out@)[a] == known_ids(before)[a]);
                        assert(known_ids(out@)[b] == known_ids(before)[b]);
                    }
                }
                assert forall|r: Seq<char>| #[trigger] known_ids(out@).contains(r) <==> (t1.contains(r)
                    || known_ids(old_known).contains(r)) by {
                    if known_ids(out@).contains(r) {
                        let k = choose|k: int| 0 <= k < known_ids(out@).len() && known_ids(out@)[k] == r;
                        if k < before.len() {
                            assert(known_ids(before)[k] == r);
                            assert(known_ids(before).contains(r));
                            if t0.contains(r) {
                                let m = choose|m: int| 0 <= m < t0.len() && t0[m] == r;
                                assert(t1[m] == r);
                            }
                        } else {
                            assert(t1[j as int] == r);
                        }
                    }
                    if t1.contains(r) {
                        let m = choose|m: int| 0 <= m < t1.len() && t1[m] == r;
                        if m < j {
                            assert(t0[m] == r);
                            assert(t0.contains(r));
                            assert(known_ids(before).contains(r));
                            let k = choose|k: int| 0 <= k < known_ids(before).len() && known_ids(before)[k] == r;
                            assert(known_ids(out@)[k] == r);
                        } else {
                            assert(known_ids(out@)[before.len() as int] == r);
                        }
                    }
                    if known_ids(old_known).contains(r) {
                        assert(known_ids(before).contains(r));
                        let k = choose|k: int| 0 <= k < known_ids(before).len() && known_ids(before)[k] == r;
                        assert(known_ids(out@)[k] == r);
                    }
                }
                assert forall|k: int| first.len() <= k < out@.len() implies (#[trigger] out@[k]).1 == since
                    && t1.contains(out@[k].0@) by {
                    if k < before.len() {
                        assert(out@[k] == before[k]);
                        let m = choose|m: int| 0 <= m < t0.len() && t0[m] == before[k].0@;
                        assert(t1[m] == before[k].0@);
                    } else {
                        assert(t1[j as int] == out@[k].0@);
                    }
                }
            } else {
                assert forall|r: Seq<char>| #[trigger] known_ids(out@).contains(r) <==> (t1.contains(r)
                    || known_ids(old_known).contains(r)) by {
                    if t1.contains(r) {
                        let m = choose|m: int| 0 <= m < t1.len() && t1[m] == r;
                        if m < j {
                            assert(t0[m] == r);
                            assert(t0.contains(r));
                        }
                    }
                    if t0.contains(r) {
                        let m = choose|m: int| 0 <= m < t0.len() && t0[m] == r;
                        assert(t1[m] == r);
                    }
                }
                assert forall|k: int| first.len() <= k < out@.len() implies (#[trigger] out@[k]).1 == since
                    && t1.contains(out@[k].0@) by {
                    let m = choose|m: int| 0 <= m < t0.len() && t0[m] == out@[k].0@;
                    assert(t1[m] == out@[k].0@);
                }
            }
        }
        j = j + 1;
    }
    proof {
        let sv = strs(sent@);
        assert(sv.take(sent@.len() as int) =~= sv);
        assert forall|k: int| 0 <= k < out@.len() implies (if sv.contains(#[trigger] out@[k].0@) {
            out@[k].1 == since
        } else {
            out@[k].1 == 0 && known_ids(old_known).contains(out@[k].0@)
        }) by {
            if k < first.len() {
                assert(out@[k] == out@.subrange(0, first.len() as int)[k]);
                assert(known_ids(first)[k] == known_ids(old_known)[k]);
                assert(known_ids(old_known).contains(known_ids(old_known)[k]));
            }
        }
    }
    *known = out;
}

fn contains_id(sent: &Vec<String>, id: &str) -> (r: bool)
    ensures
        r == strs(sent@).contains(id@),
{
    let mut i: usize = 0;
    while i < sent.len()
        invariant
            0 <= i <= sent@.len(),
            forall|k: int| 0 <= k < i ==> sent@[k]@ != id@,
        decreases sent@.len() - i,
    {
        if str_eq(sent[i].as_str(), id) {
            assert(strs(sent@)[i as int] == id@);
            return true;
        }
        i = i + 1;
    }
    proof {
        if strs(sent@).contains(id@) {
            let k = choose|k: int| 0 <= k < strs(sent@).len() && strs(sent@)[k] == id@;
            assert(sent@[k]@ == id@);
        }
    }
    false
}

fn contains_known(known: &Vec<(String, i64)>, id: &str) -> (r: bool)
    ensures
        r == known_ids(known@).contains(id@),
{
    let mut i: usize = 0;
    while i < known.len()
        invariant
            0 <= i <= known@.len(),
            forall|k: int| 0 <= k < i ==> known@[k].0@ != id@,
        decreases known@.len() - i,
    {
        if str_eq(known[i].0.as_str(), id) {
            assert(known_ids(known@)[i as int] == id@);
            return true;
        }
        i = i + 1;
    }
    proof {
        if known_ids(known@).contains(id@) {
            let k = choose|k: int| 0 <= k < known_ids(known@).len() && known_ids(known@)[k] == id@;
            assert(known@[k].0@ == id@);
        }
    }
    false
}

/// A list of known rooms as plain values.
pub open spec fn plain_known(known: Seq<(String, i64)>) -> Seq<(Seq<char>, i64)> {
    known.map_values(|e: (String, i64)| (e.0@, e.1))
}

/// The room ids of a plain list of known rooms.
pub open spec fn plain_ids(known: Seq<(Seq<char>, i64)>) -> Seq<Seq<char>> {
    known.map_values(|e: (Seq<char>, i64)| e.0)
}

/// `after` is what recording the rooms `sent` at `since` makes of the known
/// rooms `before` of a list: each room once; the sent rooms known since
/// `since`; the rooms known before and not sent known since zero; no others.
pub open spec fn known_rooms_updated(
    before: Seq<(Seq<char>, i64)>,
    after: Seq<(Seq<char>, i64)>,
    sent: Seq<Seq<char>>,
    since: i64,
) -> bool {
    &&& ids_distinct(plain_ids(after))
    &&& forall|k: int|
        0 <= k < after.len() ==> (if sent.contains(#[trigger] after[k].0) {
            after[k].1 == since
        } else {
            after[k].1 == 0 && plain_ids(before).contains(after[k].0)
        })
    &&& forall|r: Seq<char>| #[trigger] plain_ids(after).contains(r) <==> (sent.contains(r) || plain_ids(before).contains(r))
}

/// The known rooms of each list, by list id.
pub open spec fn known_map(lists: Seq<(String, Vec<(String, i64)>)>) -> Map<Seq<char>, Seq<(Seq<char>, i64)>>
    decreases lists.len(),
{
    if lists.len() == 0 {
        Map::empty()
    } else {
        known_map(lists.drop_last()).insert(lists.last().0@, plain_known(lists.last().1@))
    }
}

/// No list id occurs twice.
pub open spec fn list_ids_distinct(lists: Seq<(String, Vec<(String, i64)>)>) -> bool {
    forall|i: int, j: int| 0 <= i < j < lists.len() ==> lists[i].0@ != lists[j].0@
}

proof fn lemma_known_map_entries(lists: Seq<(String, Vec<(String, i64)>)>)
    requires
        list_ids_distinct(lists),
    ensures
        forall|i: int|
            0 <= i < lists.len() ==> #[trigger] known_map(lists).dom().contains(lists[i].0@) && known_map(lists)[lists[i].0@]
                == plain_known(lists[i].1@),
        forall|k: Seq<char>| #[trigger]
            known_map(lists).dom().contains(k) ==> exists|i: int| 0 <= i < lists.len() && lists[i].0@ == k,
    decreases lists.len(),
{
    if lists.len() > 0 {
        let rest = lists.drop_last();
        assert(list_ids_distinct(rest)) by {
            assert forall|i: int, j: int| 0 <= i < j < rest.len() implies rest[i].0@ != rest[j].0@ by {
                assert(rest[i] == lists[i] && rest[j] == lists[j]);
            }
        }
        lemma_known_map_entries(rest);
        let n = lists.len() - 1;
        assert forall|i: int| 0 <= i < lists.len() implies #[trigger] known_map(lists).dom().contains(lists[i].0@)
            && known_map(lists)[lists[i].0@] == plain_known(lists[i].1@) by {
            if i < n {
                assert(rest[i] == lists[i]);
                assert(known_map(rest).dom().contains(rest[i].0@));
                assert(lists[i].0@ != lists[n].0@);
            }
        }
        assert forall|k: Seq<char>| #[trigger] known_map(lists).dom().contains(k) implies exists|i: int|
            0 <= i < lists.len() && lists[i].0@ == k by {
            if k != lists[n].0@ {
                assert(known_map(rest).dom().contains(k));
                let j = choose|j: int| 0 <= j < rest.len() && rest[j].0@ == k;
                assert(lists[j] == rest[j]);
            } else {
                assert(lists[n].0@ == k);
            }
        }
    }
}

proof fn lemma_known_map_is(lists: Seq<(String, Vec<(String, i64)>)>, m: Map<Seq<char>, Seq<(Seq<char>, i64)>>)
    requires
        list_ids_distinct(lists),
        forall|i: int|
            0 <= i < lists.len() ==> #[trigger] m.dom().contains(lists[i].0@) && m[lists[i].0@] == plain_known(lists[i].1@),
        forall|k: Seq<char>| #[trigger] m.dom().contains(k) ==> exists|i: int| 0 <= i < lists.len() && lists[i].0@ == k,
    ensures
        known_map(lists) == m,
{
    lemma_known_map_entries(lists);
    assert forall|k: Seq<char>| #[trigger] known_map(lists).dom().contains(k) == m.dom().contains(k) by {
        if m.dom().contains(k) {
            let j = choose|j: int| 0 <= j < lists.len() && lists[j].0@ == k;
            assert(known_map(lists).dom().contains(lists[j].0@));
        }
        if known_map(lists).dom().contains(k) {
            let j = choose|j: int| 0 <= j < lists.len() && lists[j].0@ == k;
            assert(m.dom().contains(lists[j].0@));
        }
    }
    assert forall|k: Seq<char>| #[trigger] m.dom().contains(k) implies known_map(lists)[k] == m[k] by {
        let j = choose|j: int| 0 <= j < lists.len() && lists[j].0@ == k;
        assert(known_map(lists).dom().contains(lists[j].0@));
    }
    assert(known_map(lists) =~= m);
}

fn copy_known(src: &Vec<(String, i64)>) -> (r: Vec<(String, i64)>)
    ensures
        plain_known(r@) == plain_known(src@),
        known_ids(r@) == known_ids(src@),
{
    let mut out: Vec<(String, i64)> = Vec::new();
    let mut j: usize = 0;
    while j < src.len()
        invariant
            0 <= j <= src@.len(),
            out@.len() == j,
            forall|k: int| 0 <= k < j ==> (#[trigger] out@[k]).0@ == src@[k].0@ && out@[k].1 == src@[k].1,
        decreases src@.len() - j,
    {
        out.push((to_owned_string(src[j].0.as_str()), src[j].1));
        j = j + 1;
    }
    assert(plain_known(out@) =~= plain_known(src@));
    assert(known_ids(out@) =~= known_ids(src@));
    out
}

proof fn lemma_known_map_by_views(a: Seq<(String, Vec<(String, i64)>)>, b: Seq<(String, Vec<(String, i64)>)>)
    requires
        a.len() == b.len(),
        forall|k: int| 0 <= k < a.len() ==> (#[trigger] a[k]).0@ == b[k].0@ && plain_known(a[k].1@) == plain_known(b[k].1@),
    ensures
        known_map(a) == known_map(b),
    decreases a.len(),
{
    if a.len() > 0 {
        assert forall|k: int| 0 <= k < a.drop_last().len() implies (#[trigger] a.drop_last()[k]).0@
            == b.drop_last()[k].0@ && plain_known(a.drop_last()[k].1@) == plain_known(b.drop_last()[k].1@) by {
            assert(a.drop_last()[k] == a[k] && b.drop_last()[k] == b[k]);
        }
        lemma_known_map_by_views(a.drop_last(), b.drop_last());
        assert(a.last() == a[a.len() - 1] && b.last() == b[b.len() - 1]);
    }
}

/// The rooms each list of a sliding-sync connection has sent, with the
/// sequence number each is known since.
pub struct KnownRooms {
    lists: Vec<(String, Vec<(String, i64)>)>,
}

impl View for KnownRooms {
    type V = Map<Seq<char>, Seq<(Seq<char>, i64)>>;

    closed spec fn view(&self) -> Map<Seq<char>, Seq<(Seq<char>, i64)>> {
        known_map(self.lists@)
    }
}

/// The known rooms of a list, none where the list is not known.
pub open spec fn rooms_of(known: Map<Seq<char>, Seq<(Seq<char>, i64)>>, list_id: Seq<char>) -> Seq<(Seq<char>, i64)> {
    if known.dom().contains(list_id) {
        known[list_id]
    } else {
        Seq::empty()
    }
}

impl KnownRooms {
    #[verifier::type_invariant]
    spec fn well_formed(self) -> bool {
        &&& list_ids_distinct(self.lists@)
        &&& forall|i: int| 0 <= i < self.lists@.len() ==> ids_distinct(known_ids(#[trigger] self.lists@[i].1@))
    }

    /// No list has sent anything yet.
    pub fn new() -> (r: Self)
        ensures
            r@ == Map::<Seq<char>, Seq<(Seq<char>, i64)>>::empty(),
    {
        KnownRooms { lists: Vec::new() }
    }

    /// A copy.
    pub fn duplicate(&self) -> (r: Self)
        ensures
            r@ == self@,
    {
        proof {
            use_type_invariant(self);
        }
        let mut out: Vec<(String, Vec<(String, i64)>)> = Vec::new();
        let mut i: usize = 0;
        while i < self.lists.len()
            invariant
                0 <= i <= self.lists@.len(),
                list_ids_distinct(self.lists@),
                forall|k: int| 0 <= k < self.lists@.len() ==> ids_distinct(known_ids(#[trigger] self.lists@[k].1@)),
                out@.len() == i,
                forall|k: int|
                    0 <= k < i ==> (#[trigger] out@[k]).0@ == self.lists@[k].0@ && plain_known(out@[k].1@)
                        == plain_known(self.lists@[k].1@) && known_ids(out@[k].1@) == known_ids(self.lists@[k].1@),
            decreases self.lists@.len() - i,
        {
            let id = to_owned_string(self.lists[i].0.as_str());
            let rooms = copy_known(&self.lists[i].1);
            out.push((id, rooms));
            i = i + 1;
        }
        proof {
            lemma_known_map_by_views(out@, self.lists@);
            assert forall|a: int, b: int| 0 <= a < b < out@.len() implies out@[a].0@ != out@[b].0@ by {
                assert(self.lists@[a].0@ != self.lists@[b].0@);
            }
            assert forall|k: int| 0 <= k < out@.len() implies ids_distinct(known_ids(#[trigger] out@[k].1@)) by {
                assert(ids_distinct(known_ids(self.lists@[k].1@)));
            }
        }
        KnownRooms { lists: out }
    }

    fn find(&self, list_id: &str) -> (r: Option<usize>)
        ensures
            match r {
                Some(i) => i < self.lists@.len() && self.lists@[i as int].0@ == list_id@,
                None => forall|i: int| 0 <= i < self.lists@.len() ==> (#[trigger] self.lists@[i]).0@ != list_id@,
            },
    {
        let mut i: usize = 0;
        while i < self.lists.len()
            invariant
                0 <= i <= self.lists@.len(),
                forall|j: int| 0 <= j < i ==> (#[trigger] self.lists@[j]).0@ != list_id@,
            decreases self.lists@.len() - i,
        {
            if str_eq(self.lists[i].0.as_str(), list_id) {
                return Some(i);
            }
            i = i + 1;
        }
        None
    }

    /// The rooms a list has sent, each with the sequence number it is known
    /// since.
    pub fn rooms(&self, list_id: &str) -> (r: Vec<(String, i64)>)
        ensures
            plain_known(r@) == rooms_of(self@, list_id@),
    {
        proof {
            use_type_invariant(self);
            lemma_known_map_entries(self.lists@);
        }
        match self.find(list_id) {
            Some(i) => copy_known(&self.lists[i].1),
            None => {
                proof {
                    if self@.dom().contains(list_id@) {
                        let j = choose|j: int| 0 <= j < self.lists@.len() && self.lists@[j].0@ == list_id@;
                        assert(self.lists@[j].0@ != list_id@);
                    }
                }
                let out: Vec<(String, i64)> = Vec::new();
                assert(plain_known(out@) =~= Seq::<(Seq<char>, i64)>::empty());
                out
            },
        }
    }

    /// Records the rooms a list sent in this sync (see `update_known_rooms`);
    /// the other lists stay as they were.
    pub fn update(&mut self, list_id: &str, sent: &Vec<String>, since: i64)
        requires
            ids_distinct(strs(sent@)),
        ensures
            final(self)@.dom() == old(self)@.dom().insert(list_id@),
            forall|q: Seq<char>|
                q != list_id@ && #[trigger] old(self)@.dom().contains(q) ==> final(self)@[q] == old(self)@[q],
            known_rooms_updated(rooms_of(old(self)@, list_id@), final(self)@[list_id@], strs(sent@), since),
    {
        proof {
            use_type_invariant(&*self);
            lemma_known_map_entries(self.lists@);
        }
        let ghost before = self@;
        let ghost old_lists = self.lists@;
        let pos = self.find(list_id);
        let mut lists: Vec<(String, Vec<(String, i64)>)> = Vec::new();
        std::mem::swap(&mut lists, &mut self.lists);
        let (name, mut known) = match pos {
            Some(i) => {
                let e = lists.remove(i);
                proof {
                    old_lists.remove_ensures(i as int);
                }
                e
            },
            None => (to_owned_string(list_id), Vec::new()),
        };
        let ghost prior = known@;
        proof {
            match pos {
                Some(i) => {
                    assert(prior == old_lists[i as int].1@);
                    assert(plain_known(prior) == rooms_of(before, list_id@));
                },
                None => {
                    if before.dom().contains(list_id@) {
                        let j = choose|j: int| 0 <= j < old_lists.len() && old_lists[j].0@ == list_id@;
                        assert(old_lists[j].0@ != list_id@);
                    }
                    assert(plain_known(prior) =~= rooms_of(before, list_id@));
                    assert(known_ids(prior) =~= Seq::<Seq<char>>::empty());
                },
            }
        }
        update_known_rooms(&mut known, sent, since);
        let ghost mid = lists@;
        lists.push((name, known));
        proof {
            let after = plain_known(known@);
            assert(known_ids(known@) =~= plain_ids(after));
            assert(known_ids(prior) =~= plain_ids(plain_known(prior)));
            assert forall|k: int| 0 <= k < after.len() implies (if strs(sent@).contains(#[trigger] after[k].0) {
                after[k].1 == since
            } else {
                after[k].1 == 0 && plain_ids(plain_known(prior)).contains(after[k].0)
            }) by {
                assert(after[k] == (known@[k].0@, known@[k].1));
            }
            assert(known_rooms_updated(plain_known(prior), after, strs(sent@), since));
            let m = before.insert(list_id@, after);
            let n = lists@.len() - 1;
            assert(lists@[n].0@ == list_id@);
            assert forall|k: int| 0 <= k < mid.len() implies #[trigger] mid[k] == old_lists[if pos matches Some(
                i,
            ) && k >= i {
                k + 1
            } else {
                k
            }] by {}
            assert forall|a: int, b: int| 0 <= a < b < lists@.len() implies lists@[a].0@ != lists@[b].0@ by {
                let ia = if pos matches Some(i) && a >= i { a + 1 } else { a };
                assert(lists@[a] == mid[a]);
                assert(mid[a] == old_lists[ia]);
                if b < n {
                    let ib = if pos matches Some(i) && b >= i { b + 1 } else { b };
                    assert(lists@[b] == mid[b]);
                    assert(mid[b] == old_lists[ib]);
                } else {
                    assert(old_lists[ia].0@ != list_id@);
                }
            }
            assert forall|k: int| 0 <= k < lists@.len() implies ids_distinct(known_ids(#[trigger] lists@[k].1@)) by {
                if k < n {
                    let ik = if pos matches Some(i) && k >= i { k + 1 } else { k };
                    assert(lists@[k] == mid[k]);
                    assert(mid[k] == old_lists[ik]);
                }
            }
            assert forall|k: int| 0 <= k < lists@.len() implies #[trigger] m.dom().contains(lists@[k].0@)
                && m[lists@[k].0@] == plain_known(lists@[k].1@) by {
                if k < n {
                    let ik = if pos matches Some(i) && k >= i { k + 1 } else { k };
                    assert(lists@[k] == mid[k]);
                    assert(mid[k] == old_lists[ik]);
                    assert(before.dom().contains(old_lists[ik].0@));
                    assert(old_lists[ik].0@ != list_id@);
                }
            }
            assert forall|q: Seq<char>| #[trigger] m.dom().contains(q) implies exists|k: int|
                0 <= k < lists@.len() && lists@[k].0@ == q by {
                if q == list_id@ {
                    assert(lists@[n].0@ == q);
                } else {
                    let j = choose|j: int| 0 <= j < old_lists.len() && old_lists[j].0@ == q;
                    match pos {
                        Some(i) => {
                            assert(j != i as int);
                            if j < i {
                                assert(lists@[j] == old_lists[j]);
                            } else {
                                assert(lists@[j - 1] == old_lists[j]);
                            }
                        },
                        None => {
                            assert(lists@[j] == old_lists[j]);
                        },
                    }
                }
            }
            lemma_known_map_is(lists@, m);
        }
        self.lists = lists;
    }
}

/// What the server remembers of a sliding-sync connection: the lists the
/// last request gave (as merged), the rooms each list has sent, and the
/// extension settings.
pub struct SlidingSyncCache {
    pub lists: Vec<(String, SyncList)>,
    pub known_rooms: KnownRooms,
    pub extensions: ExtensionsConfig,
}

/// No extension setting given.
pub open spec fn no_extensions() -> ExtensionsConfig {
    ExtensionsConfig {
        e2ee: None,
        to_device: None,
        account_data: None,
        account_data_lists: None,
        account_data_rooms: None,
    }
}

/// Where the first list of id `id` stands among `lists`, or -1.
pub open spec fn list_position(lists: Seq<(String, SyncList)>, id: Seq<char>) -> int
    decreases lists.len(),
{
    if lists.len() == 0 {
        -1
    } else if lists[0].0@ == id {
        0
    } else {
        let k = list_position(lists.drop_first(), id);
        if k < 0 {
            -1
        } else {
            k + 1
        }
    }
}

proof fn lemma_list_position(lists: Seq<(String, SyncList)>, id: Seq<char>)
    ensures
        -1 <= list_position(lists, id) < lists.len(),
        list_position(lists, id) >= 0 ==> lists[list_position(lists, id)].0@ == id,
        forall|j: int| 0 <= j < lists.len() && j < list_position(lists, id) ==> (#[trigger] lists[j]).0@ != id,
        list_position(lists, id) < 0 ==> forall|j: int| 0 <= j < lists.len() ==> (#[trigger] lists[j]).0@ != id,
    decreases lists.len(),
{
    if lists.len() > 0 && lists[0].0@ != id {
        let rest = lists.drop_first();
        lemma_list_position(rest, id);
        assert forall|j: int| 0 < j < lists.len() implies #[trigger] lists[j] == rest[j - 1] by {}
    }
}

/// The cached lists once a request's list `(id, list)` is taken in: merged
/// with the first cached list of that id (see `merge_list`), or added after
/// the others.
pub open spec fn store_list(cached: Seq<(String, SyncList)>, id: String, list: SyncList) -> Seq<(String, SyncList)> {
    let k = list_position(cached, id@);
    if k >= 0 {
        cached.update(k, (cached[k].0, merged_list(list, cached[k].1)))
    } else {
        cached.push((id, list))
    }
}

/// The cached lists once a request's lists are taken in, in order.
pub open spec fn store_lists(cached: Seq<(String, SyncList)>, given: Seq<(String, SyncList)>) -> Seq<
    (String, SyncList),
>
    decreases given.len(),
{
    if given.len() == 0 {
        cached
    } else {
        store_list(store_lists(cached, given.drop_last()), given.last().0, given.last().1)
    }
}

fn find_list(lists: &Vec<(String, SyncList)>, id: &str) -> (r: Option<usize>)
    ensures
        match r {
            Some(i) => i as int == list_position(lists@, id@),
            None => list_position(lists@, id@) < 0,
        },
{
    proof {
        lemma_list_position(lists@, id@);
    }
    let mut i: usize = 0;
    while i < lists.len()
        invariant
            0 <= i <= lists@.len(),
            forall|j: int| 0 <= j < i ==> (#[trigger] lists@[j]).0@ != id@,
            -1 <= list_position(lists@, id@) < lists@.len(),
            list_position(lists@, id@) >= 0 ==> lists@[list_position(lists@, id@)].0@ == id@,
            forall|j: int| 0 <= j < lists@.len() && j < list_position(lists@, id@) ==> (#[trigger] lists@[j]).0@ != id@,
            list_position(lists@, id@) < 0 ==> forall|j: int| 0 <= j < lists@.len() ==> (#[trigger] lists@[j]).0@ != id@,
        decreases lists@.len() - i,
    {
        if str_eq(lists[i].0.as_str(), id) {
            proof {
                let k = list_position(lists@, id@);
                if k < 0 {
                    assert(lists@[i as int].0@ != id@);
                } else if k < i {
                    assert(lists@[k].0@ != id@);
                } else if k > i {
                    assert(lists@[i as int].0@ != id@);
                }
            }
            return Some(i);
        }
        i = i + 1;
    }
    proof {
        let k = list_position(lists@, id@);
        if k >= 0 {
            assert(lists@[k].0@ != id@);
        }
    }
    None
}

impl SlidingSyncCache {
    /// The cache of a new connection: nothing remembered yet.
    pub fn new() -> (r: Self)
        ensures
            r.lists@.len() == 0,
            r.known_rooms@ == Map::<Seq<char>, Seq<(Seq<char>, i64)>>::empty(),
            r.extensions == no_extensions(),
    {
        SlidingSyncCache {
            lists: Vec::new(),
            known_rooms: KnownRooms::new(),
            extensions: ExtensionsConfig {
                e2ee: None,
                to_device: None,
                account_data: None,
                account_data_lists: None,
                account_data_rooms: None,
            },
        }
    }
}

/// Whether the server remembers a user's sliding-sync connection on a device.
pub fn remembered(connections: &SessionStore<SlidingSyncCache>, user_id: &str, device_id: &str, conn_id: &str) -> (r:
    bool)
    ensures
        r == connections@.dom().contains((user_id@, device_id@, conn_id@)),
{
    connections.contains_key(user_id, device_id, conn_id)
}

/// Forgets a user's sliding-sync connection on a device; the others stay.
pub fn forget_sync_request_connection(
    connections: &mut SessionStore<SlidingSyncCache>,
    user_id: &str,
    device_id: &str,
    conn_id: &str,
)
    ensures
        final(connections)@ == old(connections)@.remove((user_id@, device_id@, conn_id@)),
{
    let _ = connections.remove(user_id, device_id, conn_id);
}

/// Records the rooms a list of a user's sliding-sync connection sent in this
/// sync, starting the connection's cache where it is new: the list's known
/// rooms are updated as `update_known_rooms` says, and everything else the
/// server remembers stays.
pub fn update_sync_known_rooms(
    connections: &mut SessionStore<SlidingSyncCache>,
    user_id: &str,
    device_id: &str,
    conn_id: &str,
    list_id: &str,
    new_cached_rooms: &Vec<String>,
    global_since_sn: i64,
)
    requires
        ids_distinct(strs(new_cached_rooms@)),
    ensures
        ({
            let key = (user_id@, device_id@, conn_id@);
            let before = if old(connections)@.dom().contains(key) {
                old(connections)@[key].known_rooms@
            } else {
                Map::empty()
            };
            let after = final(connections)@[key];
            &&& final(connections)@.dom() == old(connections)@.dom().insert(key)
            &&& forall|q: (Seq<char>, Seq<char>, Seq<char>)|
                q != key && #[trigger] old(connections)@.dom().contains(q) ==> final(connections)@[q] == old(
                    connections,
                )@[q]
            &&& after.known_rooms@.dom() == before.dom().insert(list_id@)
            &&& forall|q: Seq<char>|
                q != list_id@ && #[trigger] before.dom().contains(q) ==> after.known_rooms@[q] == before[q]
            &&& known_rooms_updated(
                rooms_of(before, list_id@),
                after.known_rooms@[list_id@],
                strs(new_cached_rooms@),
                global_since_sn,
            )
            &&& old(connections)@.dom().contains(key) ==> after.lists == old(connections)@[key].lists
                && after.extensions == old(connections)@[key].extensions
            &&& !old(connections)@.dom().contains(key) ==> after.lists@.len() == 0
        }),
{
    let ghost key = (user_id@, device_id@, conn_id@);
    let ghost start = connections@;
    let mut cache = match connections.remove(user_id, device_id, conn_id) {
        Some(c) => c,
        None => SlidingSyncCache::new(),
    };
    cache.known_rooms.update(list_id, new_cached_rooms, global_since_sn);
    let ghost done = cache;
    connections.insert(user_id, device_id, conn_id, cache);
    proof {
        assert(connections@ == start.remove(key).insert(key, done));
        assert(connections@.dom() =~= start.dom().insert(key));
    }
}

/// Takes a sliding-sync request into the cache of its connection (none
/// without a connection id): each list the request gives is merged with the
/// cached list of the same id (`merge_list`) and kept, the extension settings
/// are merged with the cached ones (`merge_extensions`) and kept, and the
/// rooms each list has sent are handed back. A new connection starts with an
/// empty cache. The request carries on with the lists and settings the cache
/// now holds.
pub fn update_sync_request_with_cache(
    connections: &mut SessionStore<SlidingSyncCache>,
    user_id: &str,
    device_id: &str,
    conn_id: Option<&str>,
    lists: Vec<(String, SyncList)>,
    extensions: ExtensionsConfig,
) -> (r: KnownRooms)
    ensures
        conn_id is None ==> final(connections)@ == old(connections)@ && r@ == Map::<
            Seq<char>,
            Seq<(Seq<char>, i64)>,
        >::empty(),
        conn_id is Some ==> ({
            let key = (user_id@, device_id@, conn_id->0@);
            let had = old(connections)@.dom().contains(key);
            let after = final(connections)@[key];
            &&& final(connections)@.dom() == old(connections)@.dom().insert(key)
            &&& forall|q: (Seq<char>, Seq<char>, Seq<char>)|
                q != key && #[trigger] old(connections)@.dom().contains(q) ==> final(connections)@[q] == old(
                    connections,
                )@[q]
            &&& after.lists@ == store_lists(
                if had {
                    old(connections)@[key].lists@
                } else {
                    Seq::empty()
                },
                lists@,
            )
            &&& after.extensions == merged_extensions(
                extensions,
                if had {
                    old(connections)@[key].extensions
                } else {
                    no_extensions()
                },
            )
            &&& after.known_rooms@ == (if had {
                old(connections)@[key].known_rooms@
            } else {
                Map::empty()
            })
            &&& r@ == after.known_rooms@
        }),
{
    let conn = match conn_id {
        Some(c) => c,
        None => {
            return KnownRooms::new();
        },
    };
    let ghost key = (user_id@, device_id@, conn@);
    let ghost start = connections@;
    let cache = match connections.remove(user_id, device_id, conn) {
        Some(c) => c,
        None => SlidingSyncCache::new(),
    };
    let ghost first = cache;
    proof {
        if !start.dom().contains(key) {
            assert(first.lists@ =~= Seq::<(String, SyncList)>::empty());
        }
    }
    let SlidingSyncCache { lists: mut cached_lists, known_rooms, extensions: cached_extensions } = cache;
    let ghost start_lists = cached_lists@;
    let ghost all = lists@;
    let mut given = lists;
    let n = given.len();
    let mut i: usize = 0;
    while given.len() > 0
        invariant
            all.len() == n,
            i + given@.len() == all.len(),
            given@ == all.skip(i as int),
            cached_lists@ == store_lists(start_lists, all.take(i as int)),
        decreases given@.len(),
    {
        let ghost before = cached_lists@;
        let (id, list) = given.remove(0);
        proof {
            assert(given@ =~= all.skip(i + 1));
            assert(all.take(i + 1).drop_last() =~= all.take(i as int));
            assert(all.take(i + 1).last() == all[i as int]);
            assert(all[i as int] == (id, list));
        }
        proof {
            lemma_list_position(before, id@);
        }
        match find_list(&cached_lists, id.as_str()) {
            Some(j) => {
                let (cached_id, cached_list) = cached_lists.remove(j);
                let merged = merge_list(list, cached_list);
                proof {
                    before.remove_ensures(j as int);
                    before.remove(j as int).insert_ensures(j as int, (cached_id, merged));
                }
                cached_lists.insert(j, (cached_id, merged));
                proof {
                    assert(cached_lists@ =~= before.update(
                        j as int,
                        (before[j as int].0, merged_list(list, before[j as int].1)),
                    ));
                }
            },
            None => {
                cached_lists.push((id, list));
            },
        }
        i = i + 1;
    }
    proof {
        assert(all.take(i as int) =~= all);
    }
    let merged_ext = merge_extensions(extensions, cached_extensions);
    let known = known_rooms.duplicate();
    let cache = SlidingSyncCache { lists: cached_lists, known_rooms, extensions: merged_ext };
    let ghost done = cache;
    connections.insert(user_id, device_id, conn, cache);
    proof {
        assert(connections@ == start.remove(key).insert(key, done));
        assert(connections@.dom() =~= start.dom().insert(key));
        assert(connections@[key] == done);
        assert(done.lists@ == store_lists(first.lists@, all));
        assert(done.known_rooms == first.known_rooms);
        assert(done.extensions == merged_extensions(extensions, first.extensions));
    }
    known
}

} // verus!
