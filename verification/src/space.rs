//! Space hierarchies: which child rooms of a space a requester may see, and
//! how a room's summary is reported.
use vstd::prelude::*;

use crate::sync::strs;

verus! {

/// The join rule of a room as reported in a space hierarchy.
#[derive(Debug)]
pub enum SpaceRoomJoinRule {
    Invite,
    Knock,
    Private,
    Restricted,
    KnockRestricted,
    Public,
    Custom(String),
}

/// Who asks for a room: a user of this server, or a remote server.
pub enum Identifier<'a> {
    UserId(&'a str),
    ServerName(&'a str),
}

/// What the server knows about the requester and a room when deciding
/// whether the room is shown: whether the room's ACL lets the requesting
/// server in (asked only of servers), whether the requesting user is joined to
/// or invited into the room (asked only of users), and, for each room named in
/// the room's restricted join rule, whether the requester (user or server) is
/// in it.
pub struct AccessFacts {
    pub acl_allows: bool,
    pub joined: bool,
    pub invited: bool,
    pub in_allowed_rooms: Vec<bool>,
}

/// Whether a room is shown to the requester.
pub open spec fn spec_is_accessible_child(
    join_rule: SpaceRoomJoinRule,
    is_server: bool,
    facts: AccessFacts,
) -> bool {
    if is_server && !facts.acl_allows {
        false
    } else if !is_server && (facts.joined || facts.invited) {
        true
    } else {
        match join_rule {
            SpaceRoomJoinRule::Public | SpaceRoomJoinRule::Knock | SpaceRoomJoinRule::KnockRestricted => true,
            SpaceRoomJoinRule::Restricted => facts.in_allowed_rooms@.contains(true),
            _ => false,
        }
    }
}

/// A user joined to or invited into a child room always sees it, whatever
/// its join rule; a server the room's ACL denies never does; a public room is
/// shown to every user and to every server the ACL lets in; an invite-only
/// or private room is shown to no one else; and a restricted room to anyone
/// else (the ACL permitting) exactly when they are in one of its allowed
/// rooms.
pub proof fn lemma_member_sees_child(join_rule: SpaceRoomJoinRule, facts: AccessFacts)
    ensures
        facts.joined || facts.invited ==> spec_is_accessible_child(join_rule, false, facts),
        !facts.acl_allows ==> !spec_is_accessible_child(join_rule, true, facts),
        join_rule == SpaceRoomJoinRule::Public ==> spec_is_accessible_child(join_rule, false, facts),
        join_rule == SpaceRoomJoinRule::Public && facts.acl_allows ==> spec_is_accessible_child(
            join_rule,
            true,
            facts,
        ),
        (join_rule == SpaceRoomJoinRule::Invite || join_rule == SpaceRoomJoinRule::Private) ==> (
        spec_is_accessible_child(join_rule, false, facts) <==> (facts.joined || facts.invited)),
        (join_rule == SpaceRoomJoinRule::Invite || join_rule == SpaceRoomJoinRule::Private) ==> !spec_is_accessible_child(
            join_rule,
            true,
            facts,
        ),
        join_rule == SpaceRoomJoinRule::Restricted && !facts.joined && !facts.invited ==> (spec_is_accessible_child(
            join_rule,
            false,
            facts,
        ) <==> facts.in_allowed_rooms@.contains(true)),
        join_rule == SpaceRoomJoinRule::Restricted && facts.acl_allows ==> (spec_is_accessible_child(
            join_rule,
            true,
            facts,
        ) <==> facts.in_allowed_rooms@.contains(true)),
{
}

/// A server denied by the room's ACL never sees it; a user joined to or
/// invited into it always does; otherwise public and knockable rooms are
/// shown, a restricted room is shown to requesters in one of its allowed
/// rooms, and invite-only, private and custom rooms are not.
pub fn is_accessible_child(join_rule: &SpaceRoomJoinRule, identifier: &Identifier, facts: &AccessFacts) -> (r:
    bool)
    ensures
        r == spec_is_accessible_child(*join_rule, identifier is ServerName, *facts),
{
    if let Identifier::ServerName(_) = identifier {
        if !facts.acl_allows {
            return false;
        }
    }
    if let Identifier::UserId(_) = identifier {
        if facts.joined {
            return true;
        }
        if facts.invited {
            return true;
        }
    }
    match join_rule {
        SpaceRoomJoinRule::Public | SpaceRoomJoinRule::Knock | SpaceRoomJoinRule::KnockRestricted => true,
        SpaceRoomJoinRule::Restricted => {
            let mut i: usize = 0;
            while i < facts.in_allowed_rooms.len()
                invariant
                    0 <= i <= facts.in_allowed_rooms@.len(),
                    forall|j: int| 0 <= j < i ==> !facts.in_allowed_rooms@[j],
                    *join_rule is Restricted,
                    identifier is ServerName ==> facts.acl_allows,
                    identifier is UserId ==> !facts.joined && !facts.invited,
                decreases facts.in_allowed_rooms@.len() - i,
            {
                if facts.in_allowed_rooms[i] {
                    assert(facts.in_allowed_rooms@[i as int]);
                    assert(facts.in_allowed_rooms@.contains(true));
                    return true;
                }
                i = i + 1;
            }
            false
        },
        _ => false,
    }
}

/// The parts of an `m.space.child` state event that the hierarchy uses: the
/// child room (the state key), the servers to reach it through, and whether
/// it is suggested.
pub struct SpaceChildState {
    pub state_key: String,
    pub via: Vec<String>,
    pub suggested: bool,
}

/// A stripped `m.space.child` event as stored in a summary: its JSON text, and
/// its content when that text holds a well-formed child event.
pub struct RawChildState {
    pub json: String,
    pub parsed: Option<SpaceChildState>,
}

/// The summary of a room in a space hierarchy, as servers exchange it.
pub struct SpaceHierarchyParentSummary {
    pub canonical_alias: Option<String>,
    pub name: Option<String>,
    pub num_joined_members: u64,
    pub room_id: String,
    pub topic: Option<String>,
    pub world_readable: bool,
    pub guest_can_join: bool,
    pub avatar_url: Option<String>,
    pub join_rule: SpaceRoomJoinRule,
    pub room_type: Option<String>,
    pub children_state: Vec<RawChildState>,
    pub allowed_room_ids: Vec<String>,
}

/// The summary of a room as a client is given it.
pub struct SpaceHierarchyRoomsChunk {
    pub canonical_alias: Option<String>,
    pub name: Option<String>,
    pub num_joined_members: u64,
    pub room_id: String,
    pub topic: Option<String>,
    pub world_readable: bool,
    pub guest_can_join: bool,
    pub avatar_url: Option<String>,
    pub join_rule: SpaceRoomJoinRule,
    pub room_type: Option<String>,
    pub children_state: Vec<RawChildState>,
}

/// A summary held in the space cache.
pub struct CachedSpaceHierarchySummary {
    pub summary: SpaceHierarchyParentSummary,
}

/// Whether the cache knows a room, and whether the requester may see it.
pub enum SummaryAccessibility {
    Accessible(SpaceHierarchyParentSummary),
    Inaccessible,
}

/// The client form of a summary: every field but the allowed rooms, unchanged.
pub fn summary_to_chunk(summary: SpaceHierarchyParentSummary) -> (r: SpaceHierarchyRoomsChunk)
    ensures
        r.canonical_alias == summary.canonical_alias,
        r.name == summary.name,
        r.num_joined_members == summary.num_joined_members,
        r.room_id == summary.room_id,
        r.topic == summary.topic,
        r.world_readable == summary.world_readable,
        r.guest_can_join == summary.guest_can_join,
        r.avatar_url == summary.avatar_url,
        r.join_rule == summary.join_rule,
        r.room_type == summary.room_type,
        r.children_state == summary.children_state,
{
    let SpaceHierarchyParentSummary {
        canonical_alias,
        name,
        num_joined_members,
        room_id,
        topic,
        world_readable,
        guest_can_join,
        avatar_url,
        join_rule,
        room_type,
        children_state,
        ..
    } = summary;
    SpaceHierarchyRoomsChunk {
        canonical_alias,
        name,
        num_joined_members,
        room_id,
        topic,
        world_readable,
        guest_can_join,
        avatar_url,
        join_rule,
        room_type,
        children_state,
    }
}

impl CachedSpaceHierarchySummary {
    /// The client form of a cached summary: every field of the summary but
    /// the allowed rooms, unchanged.
    pub fn into_chunk(self) -> (r: SpaceHierarchyRoomsChunk)
        ensures
            r.canonical_alias == self.summary.canonical_alias,
            r.name == self.summary.name,
            r.num_joined_members == self.summary.num_joined_members,
            r.room_id == self.summary.room_id,
            r.topic == self.summary.topic,
            r.world_readable == self.summary.world_readable,
            r.guest_can_join == self.summary.guest_can_join,
            r.avatar_url == self.summary.avatar_url,
            r.join_rule == self.summary.join_rule,
            r.room_type == self.summary.room_type,
            r.children_state == self.summary.children_state,
    {
        summary_to_chunk(self.summary)
    }
}

/// The children that are listed: every well-formed child state, or with
/// `suggested_only` only the suggested ones.
pub open spec fn listed_children(children: Seq<RawChildState>, suggested_only: bool) -> Seq<SpaceChildState>
    decreases children.len(),
{
    if children.len() == 0 {
        Seq::empty()
    } else {
        let rest = listed_children(children.drop_last(), suggested_only);
        match children.last().parsed {
            Some(c) => if !suggested_only || c.suggested {
                rest.push(c)
            } else {
                rest
            },
            None => rest,
        }
    }
}

/// The listed children as plain values: each child's room id with the
/// servers to reach it through.
pub open spec fn children_via(children: Seq<RawChildState>, suggested_only: bool) -> Seq<(Seq<char>, Seq<Seq<char>>)> {
    listed_children(children, suggested_only).map_values(|c: SpaceChildState| (c.state_key@, strs(c.via@)))
}

/// What `get_parent_children_via` returns, as plain values.
pub open spec fn pairs_view(pairs: Seq<(String, Vec<String>)>) -> Seq<(Seq<char>, Seq<Seq<char>>)> {
    pairs.map_values(|p: (String, Vec<String>)| (p.0@, strs(p.1@)))
}

/// The children of a space with the servers to reach each through, in order:
/// child states that are not well-formed are skipped, and with
/// `suggested_only` so are children not marked suggested.
pub fn get_parent_children_via(parent: &SpaceHierarchyParentSummary, suggested_only: bool) -> (r: Vec<(
    String,
    Vec<String>,
)>)
    ensures
        r@.len() == listed_children(parent.children_state@, suggested_only).len(),
        forall|i: int|
            0 <= i < r@.len() ==> {
                &&& (#[trigger] r@[i]).0@ == listed_children(parent.children_state@, suggested_only)[i].state_key@
                &&& r@[i].1@ == listed_children(parent.children_state@, suggested_only)[i].via@
            },
        pairs_view(r@) == children_via(parent.children_state@, suggested_only),
{
    let cs = &parent.children_state;
    let mut out: Vec<(String, Vec<String>)> = Vec::new();
    let mut i: usize = 0;
    while i < cs.len()
        invariant
            0 <= i <= cs@.len(),
            out@.len() == listed_children(cs@.take(i as int), suggested_only).len(),
            forall|k: int|
                0 <= k < out@.len() ==> {
                    &&& (#[trigger] out@[k]).0@ == listed_children(cs@.take(i as int), suggested_only)[k].state_key@
                    &&& out@[k].1@ == listed_children(cs@.take(i as int), suggested_only)[k].via@
                },
        decreases cs@.len() - i,
    {
        proof {
            assert(cs@.take(i + 1).drop_last() == cs@.take(i as int));
            assert(cs@.take(i + 1).last() == cs@[i as int]);
        }
        if let Some(c) = &cs[i].parsed {
            if !suggested_only || c.suggested {
                out.push((c.state_key.clone(), c.via.clone()));
            }
        }
        i = i + 1;
    }
    assert(cs@.take(cs@.len() as int) == cs@);
    assert(pairs_view(out@) =~= children_via(cs@, suggested_only));
    out
}

/// `idx` places each item of `small` at a position of `big` holding the same
/// item, with positions strictly increasing.
pub open spec fn embeds<A>(idx: Seq<int>, small: Seq<A>, big: Seq<A>) -> bool {
    &&& idx.len() == small.len()
    &&& forall|i: int| 0 <= i < idx.len() ==> 0 <= #[trigger] idx[i] < big.len() && big[idx[i]] == small[i]
    &&& forall|i: int, j: int| 0 <= i < j < idx.len() ==> idx[i] < idx[j]
}

/// `small` is `big` with some items left out, the rest in the same order.
pub open spec fn is_subsequence<A>(small: Seq<A>, big: Seq<A>) -> bool {
    exists|idx: Seq<int>| embeds(idx, small, big)
}

/// Every well-formed child state is marked suggested.
pub open spec fn all_parsed_suggested(children: Seq<RawChildState>) -> bool {
    forall|i: int| 0 <= i < children.len() ==> (#[trigger] children[i].parsed matches Some(c) ==> c.suggested)
}

proof fn lemma_suggested_embedding(children: Seq<RawChildState>) -> (idx: Seq<int>)
    ensures
        embeds(idx, listed_children(children, true), listed_children(children, false)),
    decreases children.len(),
{
    if children.len() == 0 {
        Seq::empty()
    } else {
        let idx0 = lemma_suggested_embedding(children.drop_last());
        let big0 = listed_children(children.drop_last(), false);
        match children.last().parsed {
            Some(c) => {
                if c.suggested {
                    let idx = idx0.push(big0.len() as int);
                    assert(forall|i: int| 0 <= i < idx0.len() ==> #[trigger] idx[i] == idx0[i]);
                    idx
                } else {
                    idx0
                }
            },
            None => idx0,
        }
    }
}

proof fn lemma_suggested_lengths(children: Seq<RawChildState>)
    ensures
        listed_children(children, true).len() <= listed_children(children, false).len(),
        !all_parsed_suggested(children) ==> listed_children(children, true).len() < listed_children(
            children,
            false,
        ).len(),
        all_parsed_suggested(children) ==> listed_children(children, true) == listed_children(children, false),
    decreases children.len(),
{
    if children.len() > 0 {
        let init = children.drop_last();
        lemma_suggested_lengths(init);
        assert forall|i: int| 0 <= i < init.len() implies #[trigger] init[i] == children[i] by {}
        if !all_parsed_suggested(children) && all_parsed_suggested(init) {
            let k = choose|k: int|
                0 <= k < children.len() && !(#[trigger] children[k].parsed matches Some(c) ==> c.suggested);
            if k < init.len() {
                assert(init[k] == children[k]);
            }
        }
        if all_parsed_suggested(children) {
            assert forall|i: int| 0 <= i < init.len() implies (#[trigger] init[i].parsed matches Some(c)
                ==> c.suggested) by {
                assert(init[i] == children[i]);
            }
            assert(children.last() == children[children.len() - 1]);
        }
    }
}

/// Listing only the suggested children of a space keeps the full listing's
/// order: the suggested listing is a subsequence of the full one, and the two
/// are equal exactly when every well-formed child state is marked suggested.
/// The same holds of the room ids and servers `get_parent_children_via`
/// returns (`children_via`).
pub proof fn lemma_suggested_children_subsequence(children: Seq<RawChildState>)
    ensures
        is_subsequence(listed_children(children, true), listed_children(children, false)),
        (listed_children(children, true) == listed_children(children, false)) <==> all_parsed_suggested(children),
        is_subsequence(children_via(children, true), children_via(children, false)),
        (children_via(children, true) == children_via(children, false)) <==> all_parsed_suggested(children),
{
    let idx = lemma_suggested_embedding(children);
    let small = listed_children(children, true);
    let big = listed_children(children, false);
    assert(embeds(idx, small, big));
    lemma_suggested_lengths(children);
    let vs = children_via(children, true);
    let vb = children_via(children, false);
    assert forall|i: int| 0 <= i < idx.len() implies 0 <= #[trigger] idx[i] < vb.len() && vb[idx[i]] == vs[i] by {
        assert(big[idx[i]] == small[i]);
    }
    assert(embeds(idx, vs, vb));
    if all_parsed_suggested(children) {
        assert(vs == vb);
    } else {
        assert(vs.len() != vb.len());
    }
}

/// Whether a space child event of the current state is listed: its state
/// key is a room id, and its content (where it reads as a space child) names
/// servers to join through.
pub open spec fn stripped_child_kept(state_key: Seq<char>, child: RawChildState) -> bool {
    crate::identifiers::room_id(state_key) && !(child.parsed matches Some(c) && c.via@.len() == 0)
}

/// The kept children, in order.
pub open spec fn kept_children(children: Seq<(String, RawChildState)>) -> Seq<RawChildState>
    decreases children.len(),
{
    if children.len() == 0 {
        Seq::empty()
    } else {
        let prev = kept_children(children.drop_last());
        let (key, child) = children.last();
        if stripped_child_kept(key@, child) {
            prev.push(child)
        } else {
            prev
        }
    }
}

/// The space child events of a room's current state (each with its state
/// key) that are listed: those whose state key is a room id and whose
/// content does not name an empty list of servers.
pub fn get_stripped_space_child_events(children: Vec<(String, RawChildState)>) -> (r: Vec<RawChildState>)
    ensures
        r@ == kept_children(children@),
{
    let mut out: Vec<RawChildState> = Vec::new();
    let mut rest = children;
    let total = rest.len();
    let ghost all = rest@;
    let mut kept_rev: Vec<(String, RawChildState)> = Vec::new();
    // Walk from the back so that each element can be moved out.
    while rest.len() > 0
        invariant
            all == rest@ + kept_rev@.reverse(),
        decreases rest@.len(),
    {
        let ghost before_rest = rest@;
        let ghost before_kept = kept_rev@;
        let x = rest.pop().unwrap();
        kept_rev.push(x);
        proof {
            assert(before_rest == rest@.push(x));
            assert(kept_rev@.reverse() =~= seq![x] + before_kept.reverse());
            assert(all =~= rest@ + kept_rev@.reverse());
        }
    }
    assert(all =~= kept_rev@.reverse());
    let mut i: usize = 0;
    let ghost n = kept_rev@.len();
    assert(all.take(0) =~= Seq::<(String, RawChildState)>::empty());
    assert(all.skip(0) =~= all);
    while kept_rev.len() > 0
        invariant
            kept_rev@.reverse() == all.skip(i as int),
            i == n - kept_rev@.len(),
            n == all.len(),
            n == total,
            out@ == kept_children(all.take(i as int)),
        decreases kept_rev@.len(),
    {
        let ghost before = kept_rev@;
        let (key, child) = kept_rev.pop().unwrap();
        proof {
            assert(before == kept_rev@.push((key, child)));
            assert(before.reverse() =~= seq![(key, child)] + kept_rev@.reverse());
            assert(all.skip(i as int)[0] == (key, child));
            assert(all[i as int] == (key, child));
            assert(all.take(i + 1).drop_last() =~= all.take(i as int));
            assert(all.take(i + 1).last() == (key, child));
        }
        let keep = crate::identifiers::is_room_id(key.as_str()) && match &child.parsed {
            Some(c) => c.via.len() != 0,
            None => true,
        };
        if keep {
            out.push(child);
        }
        let ghost prev_skip = all.skip(i as int);
        i = i + 1;
        proof {
            assert(all.skip(i as int) =~= prev_skip.drop_first());
            assert((seq![(key, child)] + kept_rev@.reverse()).drop_first() =~= kept_rev@.reverse());
        }
    }
    assert(all.take(n as int) =~= all);
    out
}

} // verus!
