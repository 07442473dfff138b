//! Application service namespaces: the regular expressions a registration
//! claims users, aliases and rooms with, and which events an application
//! service is sent.
use vstd::prelude::*;

use crate::identifiers::{parse_with_server_name, server_part, user_id_with_server, OwnedUserId};
use crate::sync::strs;
use crate::text::str_eq;

verus! {

#[verifier::external_type_specification]
#[verifier::external_body]
pub struct ExRegexSet(regex::RegexSet);

#[verifier::external_type_specification]
#[verifier::external_body]
pub struct ExRegexError(regex::Error);

/// The patterns a compiled `regex::RegexSet` was built from.
pub uninterp spec fn regex_set_patterns(set: regex::RegexSet) -> Seq<Seq<char>>;

/// Whether `regex::RegexSet::new` builds a set from these patterns.
pub uninterp spec fn regex_set_builds(patterns: Seq<Seq<char>>) -> bool;

/// Whether the regular expression `pattern` matches somewhere in `haystack`.
pub uninterp spec fn regex_matches(pattern: Seq<char>, haystack: Seq<char>) -> bool;

/// Whether some pattern of `patterns` matches somewhere in `haystack`.
pub open spec fn any_matches(patterns: Seq<Seq<char>>, haystack: Seq<char>) -> bool {
    exists|i: int| 0 <= i < patterns.len() && regex_matches(#[trigger] patterns[i], haystack)
}

/// `regex::RegexSet::new`: compiles the patterns into one set, or fails
/// (when one of them is no valid expression, or the set grows too big). The
/// set keeps the patterns it was built from.
#[verifier::external_body]
fn new_regex_set(patterns: &Vec<String>) -> (r: Result<regex::RegexSet, regex::Error>)
    ensures
        r is Ok <==> regex_set_builds(strs(patterns@)),
        r matches Ok(set) ==> regex_set_patterns(set) == strs(patterns@),
{
    regex::RegexSet::new(patterns.iter())
}

/// `regex::RegexSet::is_match`: true if and only if one of the regexes of
/// the set matches the haystack.
#[verifier::external_body]
fn set_is_match(set: &regex::RegexSet, haystack: &str) -> (r: bool)
    ensures
        r == (exists|i: int| 0 <= i < regex_set_patterns(*set).len() && regex_matches(#[trigger] regex_set_patterns(*set)[i], haystack@)),
{
    set.is_match(haystack)
}

/// A namespace of a registration: a regular expression, and whether the
/// application service claims what it matches for itself alone.
#[derive(Debug)]
pub struct Namespace {
    pub exclusive: bool,
    pub regex: String,
}

/// The expressions of the namespaces that are (or are not) exclusive, in
/// order.
pub open spec fn patterns_of(namespaces: Seq<Namespace>, exclusive: bool) -> Seq<Seq<char>>
    decreases namespaces.len(),
{
    if namespaces.len() == 0 {
        Seq::empty()
    } else {
        let prev = patterns_of(namespaces.drop_last(), exclusive);
        if namespaces.last().exclusive == exclusive {
            prev.push(namespaces.last().regex@)
        } else {
            prev
        }
    }
}

/// Why a registration cannot be used.
#[derive(Debug)]
pub enum NamespaceError {
    /// A namespace holds an expression that does not compile.
    InvalidRegex(regex::Error),
}

/// The compiled expressions of the namespaces of one kind.
#[derive(Debug)]
pub struct NamespaceRegex {
    pub exclusive: Option<regex::RegexSet>,
    pub non_exclusive: Option<regex::RegexSet>,
}

/// The patterns a compiled set (if any) holds.
pub open spec fn set_patterns(set: Option<regex::RegexSet>) -> Seq<Seq<char>> {
    match set {
        Some(s) => regex_set_patterns(s),
        None => Seq::empty(),
    }
}

/// Whether a set of patterns builds where it is not empty.
pub open spec fn builds_or_empty(patterns: Seq<Seq<char>>) -> bool {
    patterns.len() == 0 || regex_set_builds(patterns)
}

fn compile(patterns: &Vec<String>) -> (r: Result<Option<regex::RegexSet>, regex::Error>)
    ensures
        r is Ok <==> builds_or_empty(strs(patterns@)),
        r matches Ok(set) ==> set_patterns(set) == strs(patterns@),
{
    if patterns.len() == 0 {
        assert(strs(patterns@) =~= Seq::<Seq<char>>::empty());
        Ok(None)
    } else {
        match new_regex_set(patterns) {
            Ok(set) => Ok(Some(set)),
            Err(e) => Err(e),
        }
    }
}

impl NamespaceRegex {
    /// Compiles the namespaces of one kind: the exclusive ones into one set,
    /// the others into another (no set where there are none).
    pub fn from_namespaces(namespaces: &Vec<Namespace>) -> (r: Result<NamespaceRegex, NamespaceError>)
        ensures
            r is Ok <==> builds_or_empty(patterns_of(namespaces@, true)) && builds_or_empty(
                patterns_of(namespaces@, false),
            ),
            r matches Ok(n) ==> set_patterns(n.exclusive) == patterns_of(namespaces@, true) && set_patterns(
                n.non_exclusive,
            ) == patterns_of(namespaces@, false),
    {
        let mut exclusive: Vec<String> = Vec::new();
        let mut non_exclusive: Vec<String> = Vec::new();
        let mut i: usize = 0;
        assert(namespaces@.take(0) =~= Seq::<Namespace>::empty());
        while i < namespaces.len()
            invariant
                0 <= i <= namespaces@.len(),
                strs(exclusive@) == patterns_of(namespaces@.take(i as int), true),
                strs(non_exclusive@) == patterns_of(namespaces@.take(i as int), false),
            decreases namespaces@.len() - i,
        {
            let ns = &namespaces[i];
            proof {
                assert(namespaces@.take(i + 1).drop_last() =~= namespaces@.take(i as int));
                assert(namespaces@.take(i + 1).last() == *ns);
            }
            let copy = crate::text::to_owned_string(ns.regex.as_str());
            if ns.exclusive {
                let ghost before = strs(exclusive@);
                exclusive.push(copy);
                assert(strs(exclusive@) =~= before.push(ns.regex@));
            } else {
                let ghost before = strs(non_exclusive@);
                non_exclusive.push(copy);
                assert(strs(non_exclusive@) =~= before.push(ns.regex@));
            }
            i = i + 1;
        }
        assert(namespaces@.take(namespaces@.len() as int) =~= namespaces@);
        let ex = match compile(&exclusive) {
            Ok(s) => s,
            Err(e) => return Err(NamespaceError::InvalidRegex(e)),
        };
        let ne = match compile(&non_exclusive) {
            Ok(s) => s,
            Err(e) => return Err(NamespaceError::InvalidRegex(e)),
        };
        Ok(NamespaceRegex { exclusive: ex, non_exclusive: ne })
    }

    /// Whether a namespace claims `haystack` for this application service
    /// alone.
    pub fn is_exclusive_match(&self, haystack: &str) -> (r: bool)
        ensures
            r == any_matches(set_patterns(self.exclusive), haystack@),
    {
        match &self.exclusive {
            Some(set) => set_is_match(set, haystack),
            None => false,
        }
    }

    /// Whether any namespace claims `haystack`.
    pub fn is_match(&self, haystack: &str) -> (r: bool)
        ensures
            r == (any_matches(set_patterns(self.exclusive), haystack@) || any_matches(
                set_patterns(self.non_exclusive),
                haystack@,
            )),
    {
        if self.is_exclusive_match(haystack) {
            return true;
        }
        match &self.non_exclusive {
            Some(set) => set_is_match(set, haystack),
            None => false,
        }
    }
}

/// Whether the expression of some namespace (of every kind, or exclusive
/// only) matches `haystack`.
pub open spec fn some_namespace_matches(namespaces: Seq<Namespace>, haystack: Seq<char>, exclusive_only: bool) -> bool {
    exists|i: int|
        0 <= i < namespaces.len() && (!exclusive_only || namespaces[i].exclusive) && regex_matches(
            #[trigger] namespaces[i].regex@,
            haystack,
        )
}

proof fn lemma_some_namespace_step(namespaces: Seq<Namespace>, haystack: Seq<char>, exclusive_only: bool)
    requires
        namespaces.len() > 0,
    ensures
        some_namespace_matches(namespaces, haystack, exclusive_only) == (some_namespace_matches(
            namespaces.drop_last(),
            haystack,
            exclusive_only,
        ) || ((!exclusive_only || namespaces.last().exclusive) && regex_matches(namespaces.last().regex@, haystack))),
{
    let rest = namespaces.drop_last();
    if some_namespace_matches(namespaces, haystack, exclusive_only) {
        let k = choose|k: int|
            0 <= k < namespaces.len() && (!exclusive_only || namespaces[k].exclusive) && regex_matches(
                #[trigger] namespaces[k].regex@,
                haystack,
            );
        if k < rest.len() {
            assert(rest[k] == namespaces[k]);
        }
    }
    if some_namespace_matches(rest, haystack, exclusive_only) {
        let k = choose|k: int|
            0 <= k < rest.len() && (!exclusive_only || rest[k].exclusive) && regex_matches(
                #[trigger] rest[k].regex@,
                haystack,
            );
        assert(rest[k] == namespaces[k]);
    }
    assert(namespaces[namespaces.len() - 1] == namespaces.last());
}

proof fn lemma_push_matches(patterns: Seq<Seq<char>>, p: Seq<char>, haystack: Seq<char>)
    ensures
        any_matches(patterns.push(p), haystack) == (any_matches(patterns, haystack) || regex_matches(p, haystack)),
{
    let q = patterns.push(p);
    if any_matches(q, haystack) {
        let k = choose|k: int| 0 <= k < q.len() && regex_matches(#[trigger] q[k], haystack);
        if k < patterns.len() {
            assert(q[k] == patterns[k]);
        }
    }
    if any_matches(patterns, haystack) {
        let k = choose|k: int| 0 <= k < patterns.len() && regex_matches(#[trigger] patterns[k], haystack);
        assert(q[k] == patterns[k]);
    }
    assert(q[patterns.len() as int] == p);
}

/// Compiled namespaces claim exactly what one of the namespaces they were
/// built from matches, and exclusively what one of the exclusive ones does.
pub proof fn lemma_namespaces_match(namespaces: Seq<Namespace>, haystack: Seq<char>)
    ensures
        (any_matches(patterns_of(namespaces, true), haystack) || any_matches(patterns_of(namespaces, false), haystack))
            == some_namespace_matches(namespaces, haystack, false),
        any_matches(patterns_of(namespaces, true), haystack) == some_namespace_matches(namespaces, haystack, true),
    decreases namespaces.len(),
{
    if namespaces.len() > 0 {
        let rest = namespaces.drop_last();
        let last = namespaces.last();
        lemma_namespaces_match(rest, haystack);
        lemma_some_namespace_step(namespaces, haystack, false);
        lemma_some_namespace_step(namespaces, haystack, true);
        lemma_push_matches(patterns_of(rest, true), last.regex@, haystack);
        lemma_push_matches(patterns_of(rest, false), last.regex@, haystack);
    }
}

/// A registered application service, with its compiled namespaces.
#[derive(Debug)]
pub struct RegistrationInfo {
    /// The service's id.
    pub id: String,
    /// The localpart of the service's own user.
    pub sender_localpart: String,
    pub users: NamespaceRegex,
    pub aliases: NamespaceRegex,
    pub rooms: NamespaceRegex,
}

/// Whether a namespace set claims `haystack`.
pub open spec fn claims(n: NamespaceRegex, haystack: Seq<char>) -> bool {
    any_matches(set_patterns(n.exclusive), haystack) || any_matches(set_patterns(n.non_exclusive), haystack)
}

/// Whether some string of `list` is claimed by `n`.
pub open spec fn claims_any(n: NamespaceRegex, list: Seq<Seq<char>>) -> bool {
    exists|i: int| 0 <= i < list.len() && claims(n, #[trigger] list[i])
}

impl RegistrationInfo {
    /// Whether a user belongs to the service: claimed by its user namespaces,
    /// or its own user.
    pub fn is_user_match(&self, user: &OwnedUserId) -> (r: bool)
        ensures
            r == (claims(self.users, user@) || self.sender_localpart@ == user@.subrange(
                1,
                crate::identifiers::first_index_of(user@, ':') as int,
            )),
    {
        if self.users.is_match(user.as_str()) {
            return true;
        }
        let local = user.localpart();
        str_eq(self.sender_localpart.as_str(), local.as_str())
    }

    /// Whether a user exclusively belongs to the service: claimed by its
    /// exclusive user namespaces, or its own user.
    pub fn is_exclusive_user_match(&self, user: &OwnedUserId) -> (r: bool)
        ensures
            r == (any_matches(set_patterns(self.users.exclusive), user@) || self.sender_localpart@
                == user@.subrange(1, crate::identifiers::first_index_of(user@, ':') as int)),
    {
        if self.users.is_exclusive_match(user.as_str()) {
            return true;
        }
        let local = user.localpart();
        str_eq(self.sender_localpart.as_str(), local.as_str())
    }

    fn claims_any_of(n: &NamespaceRegex, list: &Vec<String>) -> (r: bool)
        ensures
            r == claims_any(*n, strs(list@)),
    {
        let mut i: usize = 0;
        while i < list.len()
            invariant
                0 <= i <= list@.len(),
                forall|j: int| 0 <= j < i ==> !claims(*n, #[trigger] strs(list@)[j]),
            decreases list@.len() - i,
        {
            if n.is_match(list[i].as_str()) {
                assert(claims(*n, strs(list@)[i as int]));
                return true;
            }
            i = i + 1;
        }
        false
    }

    /// Whether the service is in a room: its own user (`bridge_joined`) is
    /// joined, or one of the room's users is claimed by its user namespaces.
    pub fn appservice_in_room(&self, bridge_joined: bool, room_users: &Vec<String>) -> (r: bool)
        ensures
            r == (bridge_joined || claims_any(self.users, strs(room_users@))),
    {
        bridge_joined || Self::claims_any_of(&self.users, room_users)
    }

    /// Whether a new event of a room goes to this service: the service is in
    /// the room; or the event is a membership event of the service's own user
    /// (`member_target`: the user a membership event is about); or the room
    /// has an alias (local, canonical or alternative) or id the service
    /// claims; or the sender, or the user of a membership event, is a user of
    /// this server that the service claims.
    pub fn wants_event(
        &self,
        our_server: &str,
        in_room: bool,
        sender: &OwnedUserId,
        member_target: &Option<OwnedUserId>,
        aliases: &Vec<String>,
        room_id: &str,
    ) -> (r: bool)
        ensures
            r == {
                let own = user_id_with_server(self.sender_localpart@, our_server@);
                let target_claimed = match member_target {
                    Some(t) => server_part(t@) == our_server@ && (claims(self.users, t@)
                        || self.sender_localpart@ == t@.subrange(
                        1,
                        crate::identifiers::first_index_of(t@, ':') as int,
                    )),
                    None => false,
                };
                ||| in_room
                ||| (member_target matches Some(t) && own matches Ok(o) && t@ == o)
                ||| claims_any(self.aliases, strs(aliases@))
                ||| claims(self.rooms, room_id@)
                ||| (server_part(sender@) == our_server@ && (claims(self.users, sender@)
                    || self.sender_localpart@ == sender@.subrange(
                    1,
                    crate::identifiers::first_index_of(sender@, ':') as int,
                )))
                ||| target_claimed
            },
    {
        if in_room {
            return true;
        }
        if let Some(t) = member_target {
            if let Ok(own) = parse_with_server_name(self.sender_localpart.as_str(), our_server) {
                if str_eq(t.as_str(), own.as_str()) {
                    return true;
                }
            }
        }
        if Self::claims_any_of(&self.aliases, aliases) || self.rooms.is_match(room_id) {
            return true;
        }
        if sender.is_local(our_server) && self.is_user_match(sender) {
            return true;
        }
        match member_target {
            Some(t) => t.is_local(our_server) && self.is_user_match(t),
            None => false,
        }
    }
}

} // verus!
