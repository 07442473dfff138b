//! Resolving a room alias through other servers: which servers are asked,
//! and how their answers are gathered.
use vstd::prelude::*;

use crate::sync::strs;
use crate::text::str_eq;

verus! {

/// `list` with `s` added at the end where it is not in it yet.
pub open spec fn with_server(list: Seq<Seq<char>>, s: Seq<char>) -> Seq<Seq<char>> {
    if list.contains(s) {
        list
    } else {
        list.push(s)
    }
}

/// `list` with each of `new` added in turn where not in it yet.
pub open spec fn with_servers(list: Seq<Seq<char>>, new: Seq<Seq<char>>) -> Seq<Seq<char>>
    decreases new.len(),
{
    if new.len() == 0 {
        list
    } else {
        with_server(with_servers(list, new.drop_last()), new.last())
    }
}

fn contains_server(list: &Vec<String>, s: &String) -> (r: bool)
    ensures
        r == strs(list@).contains(s@),
{
    let mut i: usize = 0;
    while i < list.len()
        invariant
            0 <= i <= list@.len(),
            forall|j: int| 0 <= j < i ==> list@[j]@ != s@,
        decreases list@.len() - i,
    {
        if str_eq(list[i].as_str(), s.as_str()) {
            assert(strs(list@)[i as int] == s@);
            return true;
        }
        i = i + 1;
    }
    proof {
        if strs(list@).contains(s@) {
            let k = choose|k: int| 0 <= k < strs(list@).len() && strs(list@)[k] == s@;
            assert(list@[k]@ == s@);
        }
    }
    false
}

/// Adds a server to the list of those that can help with a room, unless it
/// is there already.
pub fn add_server(servers: &mut Vec<String>, server: String)
    ensures
        strs(final(servers)@) == with_server(strs(old(servers)@), server@),
{
    if !contains_server(servers, &server) {
        let ghost before = strs(servers@);
        let ghost sv = server@;
        servers.push(server);
        assert(strs(servers@) =~= before.push(sv));
    }
}

/// Adds each of `new` to the list of servers, unless it is there already.
pub fn add_servers(servers: &mut Vec<String>, new: Vec<String>)
    ensures
        strs(final(servers)@) == with_servers(strs(old(servers)@), strs(new@)),
{
    let ghost start = strs(servers@);
    let ghost all = strs(new@);
    let mut i: usize = 0;
    assert(all.take(0) =~= Seq::<Seq<char>>::empty());
    while i < new.len()
        invariant
            0 <= i <= new@.len(),
            all == strs(new@),
            strs(servers@) == with_servers(start, all.take(i as int)),
        decreases new@.len() - i,
    {
        let s = new[i].clone();
        proof {
            assert(all.take(i + 1).drop_last() =~= all.take(i as int));
            assert(all.take(i + 1).last() == s@);
        }
        add_server(servers, s);
        i = i + 1;
    }
    assert(all.take(new@.len() as int) =~= all);
}

/// The list of servers never holds one twice when it did not before.
pub proof fn lemma_with_servers_distinct(list: Seq<Seq<char>>, new: Seq<Seq<char>>)
    requires
        forall|i: int, j: int| 0 <= i < j < list.len() ==> list[i] != list[j],
    ensures
        forall|i: int, j: int|
            0 <= i < j < with_servers(list, new).len() ==> with_servers(list, new)[i] != with_servers(
                list,
                new,
            )[j],
        forall|x: Seq<char>| #[trigger] with_servers(list, new).contains(x) <==> (list.contains(x) || new.contains(x)),
    decreases new.len(),
{
    if new.len() > 0 {
        let rest = new.drop_last();
        lemma_with_servers_distinct(list, rest);
        let prev = with_servers(list, rest);
        let s = new.last();
        if !prev.contains(s) {
            let q = prev.push(s);
            assert forall|i: int, j: int| 0 <= i < j < q.len() implies q[i] != q[j] by {
                if j == prev.len() {
                    assert(q[i] == prev[i]);
                    if q[i] == q[j] {
                        assert(prev.contains(s));
                    }
                } else {
                    assert(q[i] == prev[i] && q[j] == prev[j]);
                }
            }
        }
        assert forall|x: Seq<char>| #[trigger] with_servers(list, new).contains(x) <==> (list.contains(x)
            || new.contains(x)) by {
            if new.contains(x) && !rest.contains(x) {
                let k = choose|k: int| 0 <= k < new.len() && new[k] == x;
                if k < rest.len() {
                    assert(rest[k] == x);
                }
                assert(x == s);
                if !prev.contains(s) {
                    assert(prev.push(s)[prev.len() as int] == s);
                }
            }
            if rest.contains(x) {
                let k = choose|k: int| 0 <= k < rest.len() && rest[k] == x;
                assert(new[k] == x);
            }
            if !prev.contains(s) {
                let q = prev.push(s);
                if q.contains(x) {
                    let k = choose|k: int| 0 <= k < q.len() && q[k] == x;
                    if k < prev.len() {
                        assert(prev[k] == x);
                    } else {
                        assert(new[new.len() - 1] == x);
                    }
                }
                if prev.contains(x) {
                    let k = choose|k: int| 0 <= k < prev.len() && prev[k] == x;
                    assert(q[k] == x);
                }
            }
        }
    }
}

/// What has been learnt so far of a room alias from the servers asked.
pub struct AliasResolution {
    /// The room id of the first answer.
    pub room_id: Option<String>,
    /// The servers that can help with the room.
    pub servers: Vec<String>,
}

/// Takes in the answer of `server` (the room id and the servers it names;
/// none where the request failed). Says whether to stop asking: once a
/// server names other servers.
pub fn take_alias_answer(state: &mut AliasResolution, server: String, answer: Option<(String, Vec<String>)>) -> (r: bool)
    ensures
        match answer {
            None => !r && final(state).room_id == old(state).room_id && final(state).servers@ == old(state).servers@,
            Some((room_id, named)) => {
                &&& final(state).room_id == (if old(state).room_id is Some {
                    old(state).room_id
                } else {
                    Some(room_id)
                })
                &&& r == (named@.len() > 0)
                &&& strs(final(state).servers@) == (if named@.len() > 0 {
                    with_servers(with_server(strs(old(state).servers@), server@), strs(named@))
                } else {
                    with_server(strs(old(state).servers@), server@)
                })
            },
        },
{
    match answer {
        None => false,
        Some((room_id, named)) => {
            if state.room_id.is_none() {
                state.room_id = Some(room_id);
            }
            add_server(&mut state.servers, server);
            if named.len() > 0 {
                add_servers(&mut state.servers, named);
                true
            } else {
                false
            }
        },
    }
}

} // verus!
