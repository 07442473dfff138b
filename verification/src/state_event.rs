//! Which state events a client may send: the checks made before a state
//! event from a client is built, on what the caller found out about the room
//! and the event's content.
use vstd::prelude::*;

verus! {

/// What the checks of one state event need to know, by the event's type.
#[derive(Debug)]
pub enum StateEventFacts {
    /// `m.room.create`.
    Create,
    /// `m.room.encryption`, and whether this server allows encryption.
    Encryption { encryption_allowed: bool },
    /// `m.room.join_rules`: whether the room is the admin room, and whether
    /// the content asks for a public room (`None` where it does not read).
    JoinRules { admin_room: bool, makes_public: Option<bool> },
    /// `m.room.history_visibility`: whether the room is the admin room, and
    /// whether the content makes the history world readable (`None` where it
    /// does not read).
    HistoryVisibility { admin_room: bool, makes_world_readable: Option<bool> },
    /// `m.room.canonical_alias`: for each alias (the alternative ones, then
    /// the main one), whether it is of this server and whether it already
    /// leads to this room; `None` where the content does not read.
    CanonicalAlias { aliases: Option<Vec<(bool, bool)>> },
    /// `m.room.member`: the content (`None` where it does not read), and
    /// whether the state key is a user id.
    Member { content: Option<MemberFacts>, state_key_is_user: bool },
    /// Any other type.
    Other,
}

/// What the checks of a membership event need to know.
#[derive(Debug, Clone, Copy)]
pub struct MemberFacts {
    /// Whether the membership is `join`.
    pub is_join: bool,
    /// Whether the user the event is about is joined already.
    pub target_joined: bool,
    /// The user a restricted join is authorised by, if named: whether that
    /// user is of this server, and joined to the room.
    pub authoriser: Option<(bool, bool)>,
}

/// Why a state event is refused.
#[derive(Debug, PartialEq, Eq, Structural, Clone, Copy)]
pub enum StateEventRefusal {
    /// The create event cannot change.
    CreateImmutable,
    /// Encryption is disabled on this server.
    EncryptionDisabled,
    /// The admin room cannot be made public.
    AdminRoomPublic,
    /// The admin room's history cannot be made world readable.
    AdminRoomWorldReadable,
    /// The content of a canonical alias event does not read.
    InvalidAliases,
    /// A canonical alias is of another server.
    AliasNotLocal,
    /// A canonical alias does not lead to this room yet.
    AliasNotExisting,
    /// The content of a membership event does not read.
    InvalidMemberContent,
    /// The state key of a membership event is no user id.
    InvalidStateKey,
    /// A join is authorised for a membership that is not a join.
    AuthorisedNonJoin,
    /// The user is joined already and needs no authorisation.
    AlreadyJoined,
    /// The authorising user is of another server.
    AuthoriserNotLocal,
    /// The authorising user is not in the room.
    AuthoriserNotInRoom,
}

/// The first canonical alias that is refused, and why.
pub open spec fn alias_refusal(aliases: Seq<(bool, bool)>) -> Option<StateEventRefusal>
    decreases aliases.len(),
{
    if aliases.len() == 0 {
        None
    } else if !aliases[0].0 {
        Some(StateEventRefusal::AliasNotLocal)
    } else if !aliases[0].1 {
        Some(StateEventRefusal::AliasNotExisting)
    } else {
        alias_refusal(aliases.drop_first())
    }
}

/// Why a membership event is refused, if it is.
pub open spec fn member_refusal(content: Option<MemberFacts>, state_key_is_user: bool) -> Option<StateEventRefusal> {
    match content {
        None => Some(StateEventRefusal::InvalidMemberContent),
        Some(m) => if !state_key_is_user {
            Some(StateEventRefusal::InvalidStateKey)
        } else {
            match m.authoriser {
                None => None,
                Some((local, joined)) => if !m.is_join {
                    Some(StateEventRefusal::AuthorisedNonJoin)
                } else if m.target_joined {
                    Some(StateEventRefusal::AlreadyJoined)
                } else if !local {
                    Some(StateEventRefusal::AuthoriserNotLocal)
                } else if !joined {
                    Some(StateEventRefusal::AuthoriserNotInRoom)
                } else {
                    None
                },
            }
        },
    }
}

/// Why a state event is refused, if it is.
pub open spec fn state_event_refusal(facts: StateEventFacts) -> Option<StateEventRefusal> {
    match facts {
        StateEventFacts::Create => Some(StateEventRefusal::CreateImmutable),
        StateEventFacts::Encryption { encryption_allowed } => if encryption_allowed {
            None
        } else {
            Some(StateEventRefusal::EncryptionDisabled)
        },
        StateEventFacts::JoinRules { admin_room, makes_public } => if admin_room && makes_public == Some(true) {
            Some(StateEventRefusal::AdminRoomPublic)
        } else {
            None
        },
        StateEventFacts::HistoryVisibility { admin_room, makes_world_readable } => if admin_room
            && makes_world_readable == Some(true) {
            Some(StateEventRefusal::AdminRoomWorldReadable)
        } else {
            None
        },
        StateEventFacts::CanonicalAlias { aliases } => match aliases {
            None => Some(StateEventRefusal::InvalidAliases),
            Some(a) => alias_refusal(a@),
        },
        StateEventFacts::Member { content, state_key_is_user } => member_refusal(content, state_key_is_user),
        StateEventFacts::Other => None,
    }
}

fn check_aliases(aliases: &Vec<(bool, bool)>) -> (r: Result<(), StateEventRefusal>)
    ensures
        match alias_refusal(aliases@) {
            Some(e) => r == Err::<(), StateEventRefusal>(e),
            None => r is Ok,
        },
{
    let mut i: usize = 0;
    assert(aliases@.skip(0) =~= aliases@);
    while i < aliases.len()
        invariant
            0 <= i <= aliases@.len(),
            alias_refusal(aliases@) == alias_refusal(aliases@.skip(i as int)),
        decreases aliases@.len() - i,
    {
        let (local, here) = aliases[i];
        proof {
            assert(aliases@.skip(i as int)[0] == aliases@[i as int]);
            assert(aliases@.skip(i as int).drop_first() =~= aliases@.skip(i + 1));
        }
        if !local {
            return Err(StateEventRefusal::AliasNotLocal);
        }
        if !here {
            return Err(StateEventRefusal::AliasNotExisting);
        }
        i = i + 1;
    }
    assert(aliases@.skip(i as int).len() == 0);
    Ok(())
}

/// Whether a client may send a state event: not a new create event; an
/// encryption event only where encryption is allowed; the admin room never
/// made public or world readable; canonical aliases only of this server and
/// already leading to the room; membership events with readable content, a
/// user id as state key, and an authorised join only for a join of a user
/// not yet joined, authorised by a user of this server who is in the room.
pub fn allowed_to_send_state_event(facts: &StateEventFacts) -> (r: Result<(), StateEventRefusal>)
    ensures
        match state_event_refusal(*facts) {
            Some(e) => r == Err::<(), StateEventRefusal>(e),
            None => r is Ok,
        },
{
    match facts {
        StateEventFacts::Create => Err(StateEventRefusal::CreateImmutable),
        StateEventFacts::Encryption { encryption_allowed } => {
            if *encryption_allowed {
                Ok(())
            } else {
                Err(StateEventRefusal::EncryptionDisabled)
            }
        },
        StateEventFacts::JoinRules { admin_room, makes_public } => {
            if *admin_room && *makes_public == Some(true) {
                Err(StateEventRefusal::AdminRoomPublic)
            } else {
                Ok(())
            }
        },
        StateEventFacts::HistoryVisibility { admin_room, makes_world_readable } => {
            if *admin_room && *makes_world_readable == Some(true) {
                Err(StateEventRefusal::AdminRoomWorldReadable)
            } else {
                Ok(())
            }
        },
        StateEventFacts::CanonicalAlias { aliases } => match aliases {
            None => Err(StateEventRefusal::InvalidAliases),
            Some(a) => check_aliases(a),
        },
        StateEventFacts::Member { content, state_key_is_user } => match content {
            None => Err(StateEventRefusal::InvalidMemberContent),
            Some(m) => {
                if !*state_key_is_user {
                    return Err(StateEventRefusal::InvalidStateKey);
                }
                match m.authoriser {
                    None => Ok(()),
                    Some((local, joined)) => {
                        if !m.is_join {
                            Err(StateEventRefusal::AuthorisedNonJoin)
                        } else if m.target_joined {
                            Err(StateEventRefusal::AlreadyJoined)
                        } else if !local {
                            Err(StateEventRefusal::AuthoriserNotLocal)
                        } else if !joined {
                            Err(StateEventRefusal::AuthoriserNotInRoom)
                        } else {
                            Ok(())
                        }
                    },
                }
            },
        },
        StateEventFacts::Other => Ok(()),
    }
}

} // verus!
