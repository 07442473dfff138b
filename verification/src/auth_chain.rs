//! The auth chain of an event: every event reachable from it through auth
//! references.
use vstd::prelude::*;

verus! {

/// What is known of one event when walking auth references: whether it
/// belongs to the room being walked, and the events (by index) it cites as
/// auth events. An event whose data could not be loaded has no `AuthNode`.
pub struct AuthNode {
    pub in_room: bool,
    pub auth_events: Vec<usize>,
}

/// The walk reached an event of another room.
#[derive(Clone, Copy, Debug, PartialEq, Eq, Structural)]
pub enum AuthChainError {
    EventFromOtherRoom,
}

/// `v` is cited as an auth event by `u`, whose data is known.
pub open spec fn cites(events: Seq<Option<AuthNode>>, u: int, v: int) -> bool {
    &&& 0 <= u < events.len()
    &&& 0 <= v < events.len()
    &&& events[u] matches Some(node)
    &&& node.auth_events@.contains(v as usize)
}

/// `path` is a walk from `start` to `v` along auth citations, of one step or more.
pub open spec fn auth_path(events: Seq<Option<AuthNode>>, start: int, v: int, path: Seq<int>) -> bool {
    &&& path.len() >= 2
    &&& path[0] == start
    &&& path.last() == v
    &&& forall|i: int| 0 <= i < path.len() - 1 ==> cites(events, #[trigger] path[i], path[i + 1])
}

/// `v` is in the auth chain of `start`: some walk of one step or more leads to it.
pub open spec fn in_auth_chain(events: Seq<Option<AuthNode>>, start: int, v: int) -> bool {
    exists|path: Seq<int>| #[trigger] auth_path(events, start, v, path)
}

/// `v` is `start` or in its auth chain.
pub open spec fn walked(events: Seq<Option<AuthNode>>, start: int, v: int) -> bool {
    v == start || in_auth_chain(events, start, v)
}

/// `v` is known and belongs to another room.
pub open spec fn foreign(events: Seq<Option<AuthNode>>, v: int) -> bool {
    &&& 0 <= v < events.len()
    &&& match events[v] {
        Some(node) => !node.in_room,
        None => false,
    }
}

/// Every cited index names an event of the list.
pub open spec fn citations_in_range(events: Seq<Option<AuthNode>>) -> bool {
    forall|u: int, j: int|
        0 <= u < events.len() && events[u] is Some && 0 <= j < events[u]->0.auth_events@.len()
            ==> #[trigger] events[u]->0.auth_events@[j] < events.len()
}

/// Walks the auth references of `start` (depth first, each event expanded
/// once) and returns every event reached, each once. Fails when it reaches an
/// event — `start` included — whose data is known and which belongs to
/// another room.
pub fn get_auth_chain(events: &Vec<Option<AuthNode>>, start: usize) -> (r: Result<
    Vec<usize>,
    AuthChainError,
>)
    requires
        start < events@.len(),
        citations_in_range(events@),
    ensures
        r is Err <==> exists|v: int|
            #![trigger walked(events@, start as int, v)]
            walked(events@, start as int, v) && foreign(events@, v),
        r matches Ok(chain) ==> chain@.no_duplicates() && forall|v: int|
            in_auth_chain(events@, start as int, v) <==> 0 <= v < events@.len() && chain@.contains(
                v as usize,
            ),
{
    let n = events.len();
    let ghost ev = events@;
    let ghost s = start as int;
    let mut found: Vec<bool> = Vec::new();
    let mut i: usize = 0;
    while i < n
        invariant
            0 <= i <= n,
            found@.len() == i,
            forall|k: int| 0 <= k < i ==> !found@[k],
        decreases n - i,
    {
        found.push(false);
        i = i + 1;
    }
    let mut chain: Vec<usize> = Vec::new();
    let mut todo: Vec<usize> = Vec::new();
    todo.push(start);
    let ghost mut done: Set<int> = Set::empty();
    assert(todo@[0] == start);
    while todo.len() > 0
        invariant
            n == ev.len(),
            ev == events@,
            s == start as int,
            0 <= s < n,
            citations_in_range(ev),
            found@.len() == n,
            chain@.no_duplicates(),
            chain@.len() <= n,
            forall|v: int| 0 <= v < n ==> (found@[v] <==> chain@.contains(v as usize)),
            forall|j: int| 0 <= j < chain@.len() ==> chain@[j] < n,
            forall|j: int| 0 <= j < todo@.len() ==> todo@[j] < n,
            forall|v: int| 0 <= v < n && found@[v] ==> in_auth_chain(ev, s, v),
            forall|j: int| 0 <= j < todo@.len() ==> (todo@[j] == start || found@[todo@[j] as int]),
            forall|u: int| done.contains(u) ==> (u == s || (0 <= u < n && found@[u])),
            forall|u: int|
                0 <= u < n && (u == s || found@[u]) ==> (done.contains(u) || todo@.contains(u as usize)),
            forall|u: int|
                #![trigger done.contains(u)]
                done.contains(u) ==> {
                    &&& (ev[u] matches Some(node) ==> node.in_room)
                    &&& forall|v: int| cites(ev, u, v) ==> found@[v]
                },
        decreases n - chain@.len(), todo@.len(),
    {
        let ghost full_todo = todo@;
        let u = todo.pop().unwrap();
        let ghost before_todo = todo@;
        let ghost before_chain = chain@;
        assert(full_todo == before_todo.push(u));
        match &events[u] {
            None => {},
            Some(node) => {
                if !node.in_room {
                    proof {
                        assert(full_todo[full_todo.len() - 1] == u);
                        assert(walked(ev, s, u as int));
                        assert(foreign(ev, u as int));
                    }
                    return Err(AuthChainError::EventFromOtherRoom);
                }
                let edges = &node.auth_events;
                let mut j: usize = 0;
                while j < edges.len()
                    invariant
                        n == ev.len(),
                        ev == events@,
                        s == start as int,
                        0 <= s < n,
                        u < n,
                        citations_in_range(ev),
                        ev[u as int] matches Some(nd) && nd.auth_events@ == edges@,
                        u as int == s || found@[u as int],
                        found@.len() == n,
                        chain@.no_duplicates(),
                        chain@.len() <= n,
                        forall|v: int| 0 <= v < n ==> (found@[v] <==> chain@.contains(v as usize)),
                        forall|k: int| 0 <= k < chain@.len() ==> chain@[k] < n,
                        forall|k: int| 0 <= k < todo@.len() ==> todo@[k] < n,
                        forall|v: int| 0 <= v < n && found@[v] ==> in_auth_chain(ev, s, v),
                        forall|k: int| 0 <= k < todo@.len() ==> (todo@[k] == start || found@[todo@[k] as int]),
                        todo@.len() >= before_todo.len(),
                        chain@.len() - before_chain.len() == todo@.len() - before_todo.len(),
                        todo@.subrange(0, before_todo.len() as int) == before_todo,
                        forall|w: int| done.contains(w) ==> (w == s || (0 <= w < n && found@[w])),
                        forall|w: int|
                            0 <= w < n && (w == s || found@[w]) ==> (done.contains(w) || w == u
                                || todo@.contains(w as usize)),
                        forall|w: int|
                            #![trigger done.contains(w)]
                            done.contains(w) ==> {
                                &&& (ev[w] matches Some(nd) ==> nd.in_room)
                                &&& forall|v: int| cites(ev, w, v) ==> found@[v]
                            },
                        forall|k: int| 0 <= k < j ==> found@[#[trigger] edges@[k] as int],
                        0 <= j <= edges@.len(),
                    decreases edges@.len() - j,
                {
                    let v = edges[j];
                    assert(v < n) by {
                        assert(ev[u as int]->0.auth_events@[j as int] == v);
                    }
                    if !found[v] {
                        proof {
                            assert(cites(ev, u as int, v as int));
                            if u as int == s {
                                let p = seq![s, v as int];
                                assert(auth_path(ev, s, v as int, p));
                            } else {
                                let p = choose|p: Seq<int>| #[trigger] auth_path(ev, s, u as int, p);
                                let q = p.push(v as int);
                                assert forall|i: int| 0 <= i < q.len() - 1 implies cites(ev, #[trigger] q[i], q[i + 1]) by {
                                    if i < p.len() - 1 {
                                        assert(cites(ev, p[i], p[i + 1]));
                                    }
                                }
                                assert(auth_path(ev, s, v as int, q));
                            }
                        }
                        let ghost old_chain = chain@;
                        let ghost old_todo = todo@;
                        found.set(v, true);
                        chain.push(v);
                        todo.push(v);
                        proof {
                            assert(!old_chain.contains(v));
                            lemma_chain_bounded(chain@, n);
                            assert forall|w: int| 0 <= w < n implies (found@[w] <==> chain@.contains(w as usize)) by {
                                if w != v as int && chain@.contains(w as usize) {
                                    let k = choose|k: int| 0 <= k < chain@.len() && chain@[k] == w as usize;
                                    assert(k < old_chain.len());
                                    assert(old_chain[k] == w as usize);
                                }
                                if old_chain.contains(w as usize) {
                                    let k = choose|k: int| 0 <= k < old_chain.len() && old_chain[k] == w as usize;
                                    assert(chain@[k] == w as usize);
                                }
                                if w == v as int {
                                    assert(chain@[chain@.len() - 1] == v);
                                }
                            }
                            assert forall|w: int|
                                0 <= w < n && (w == s || found@[w]) implies (done.contains(w) || w == u
                                    || todo@.contains(w as usize)) by {
                                if w == v as int {
                                    assert(todo@[todo@.len() - 1] == v);
                                } else if old_todo.contains(w as usize) {
                                    let k = choose|k: int| 0 <= k < old_todo.len() && old_todo[k] == w as usize;
                                    assert(todo@[k] == w as usize);
                                }
                            }
                            assert(todo@.subrange(0, before_todo.len() as int) == old_todo.subrange(0, before_todo.len() as int));
                        }
                    }
                    j = j + 1;
                }
                proof {
                    assert forall|v: int| cites(ev, u as int, v) implies found@[v] by {
                        let nd = ev[u as int]->0;
                        let k = choose|k: int| 0 <= k < nd.auth_events@.len() && nd.auth_events@[k] == v as usize;
                        assert(found@[edges@[k] as int]);
                    }
                }
            },
        }
        proof {
            done = done.insert(u as int);
            assert forall|w: int|
                0 <= w < n && (w == s || found@[w]) implies (done.contains(w) || todo@.contains(w as usize)) by {
                if !done.contains(w) && w != u as int {
                    if before_todo.contains(w as usize) {
                        let k = choose|k: int| 0 <= k < before_todo.len() && before_todo[k] == w as usize;
                        assert(todo@[k] == w as usize);
                    }
                }
            }
        }
    }
    proof {
        assert(walk_closed(ev, s, found@)) by {
            assert forall|u: int, w: int|
                (u == s || (0 <= u < found@.len() && found@[u])) && cites(ev, u, w) implies 0 <= w < found@.len()
                    && found@[w] by {
                assert(done.contains(u));
            }
        }
        assert forall|v: int| in_auth_chain(ev, s, v) implies 0 <= v < n && chain@.contains(v as usize) by {
            let p = choose|p: Seq<int>| #[trigger] auth_path(ev, s, v, p);
            lemma_closed_reach(ev, s, p, found@);
        }
        assert forall|v: int| walked(ev, s, v) && foreign(ev, v) implies false by {
            if v != s {
                let p = choose|p: Seq<int>| #[trigger] auth_path(ev, s, v, p);
                lemma_closed_reach(ev, s, p, found@);
                assert(done.contains(v));
            } else {
                assert(done.contains(s));
            }
        }
    }
    Ok(chain)
}

proof fn lemma_chain_bounded(chain: Seq<usize>, n: usize)
    requires
        chain.no_duplicates(),
        forall|j: int| 0 <= j < chain.len() ==> chain[j] < n,
    ensures
        chain.len() <= n,
{
    let st = chain.to_set();
    chain.unique_seq_to_set();
    let all = Set::new(|u: usize| u < n);
    lemma_below_len(n);
    assert(st.subset_of(all));
    vstd::set_lib::lemma_len_subset(st, all);
}

proof fn lemma_below_len(n: usize)
    ensures
        Set::new(|u: usize| u < n).finite(),
        Set::new(|u: usize| u < n).len() == n,
    decreases n,
{
    if n == 0 {
        assert(Set::new(|u: usize| u < n) =~= Set::<usize>::empty());
    } else {
        lemma_below_len((n - 1) as usize);
        assert(Set::new(|u: usize| u < n) =~= Set::new(|u: usize| u < (n - 1) as usize).insert(
            (n - 1) as usize,
        ));
    }
}

/// Whatever `start` or a found event cites is found.
pub open spec fn walk_closed(events: Seq<Option<AuthNode>>, start: int, found: Seq<bool>) -> bool {
    forall|u: int, w: int|
        #![trigger cites(events, u, w)]
        (u == start || (0 <= u < found.len() && found[u])) && cites(events, u, w) ==> 0 <= w < found.len() && found[w]
}

proof fn lemma_closed_reach(events: Seq<Option<AuthNode>>, start: int, path: Seq<int>, found: Seq<bool>)
    requires
        path.len() >= 1,
        path[0] == start,
        forall|i: int| 0 <= i < path.len() - 1 ==> cites(events, #[trigger] path[i], path[i + 1]),
        citations_in_range(events),
        found.len() == events.len(),
        0 <= start < events.len(),
        walk_closed(events, start, found),
    ensures
        0 <= path.last() < events.len(),
        path.len() >= 2 ==> found[path.last()],
    decreases path.len(),
{
    if path.len() >= 2 {
        let prefix = path.drop_last();
        assert forall|i: int| 0 <= i < prefix.len() - 1 implies cites(events, #[trigger] prefix[i], prefix[i + 1]) by {
            assert(cites(events, path[i], path[i + 1]));
        }
        lemma_closed_reach(events, start, prefix, found);
        let u = prefix.last();
        assert(cites(events, path[path.len() - 2], path[path.len() - 1]));
    }
}

} // verus!
