//! Who is typing in a room, and until when.
use vstd::prelude::*;

use crate::graph::{chars_less, lemma_seq_less_irreflexive, lemma_seq_less_total, lemma_seq_less_transitive, seq_less};
use crate::text::{chars_of, str_eq};

verus! {

/// The users typing in a room, each with the time (milliseconds since the
/// epoch) their typing notice runs out, kept in increasing order of user id.
pub struct RoomTyping {
    users: Vec<(String, u64)>,
}

impl View for RoomTyping {
    type V = Map<Seq<char>, u64>;

    closed spec fn view(&self) -> Map<Seq<char>, u64> {
        typing_map(self.users@)
    }
}

/// The map of typing users held by a list of entries.
pub open spec fn typing_map(entries: Seq<(String, u64)>) -> Map<Seq<char>, u64>
    decreases entries.len(),
{
    if entries.len() == 0 {
        Map::empty()
    } else {
        typing_map(entries.drop_last()).insert(entries.last().0@, entries.last().1)
    }
}

/// No user occurs twice.
pub open spec fn users_distinct(entries: Seq<(String, u64)>) -> bool {
    forall|i: int, j: int| 0 <= i < j < entries.len() ==> entries[i].0@ != entries[j].0@
}

/// The users come in strictly increasing order of their ids.
pub open spec fn users_sorted(entries: Seq<(String, u64)>) -> bool {
    forall|i: int, j: int| 0 <= i < j < entries.len() ==> seq_less(#[trigger] entries[i].0@, #[trigger] entries[j].0@)
}

proof fn lemma_sorted_distinct(entries: Seq<(String, u64)>)
    requires
        users_sorted(entries),
    ensures
        users_distinct(entries),
{
    assert forall|i: int, j: int| 0 <= i < j < entries.len() implies entries[i].0@ != entries[j].0@ by {
        assert(seq_less(entries[i].0@, entries[j].0@));
        lemma_seq_less_irreflexive(entries[i].0@);
    }
}

proof fn lemma_typing_map_entries(entries: Seq<(String, u64)>)
    requires
        users_distinct(entries),
    ensures
        forall|i: int| 0 <= i < entries.len() ==> #[trigger] typing_map(entries).dom().contains(entries[i].0@)
            && typing_map(entries)[entries[i].0@] == entries[i].1,
        forall|u: Seq<char>| #[trigger] typing_map(entries).dom().contains(u) ==> exists|i: int|
            0 <= i < entries.len() && entries[i].0@ == u,
    decreases entries.len(),
{
    if entries.len() > 0 {
        let rest = entries.drop_last();
        assert(users_distinct(rest)) by {
            assert forall|i: int, j: int| 0 <= i < j < rest.len() implies rest[i].0@ != rest[j].0@ by {
                assert(rest[i] == entries[i] && rest[j] == entries[j]);
            }
        }
        lemma_typing_map_entries(rest);
        let n = entries.len() - 1;
        assert forall|i: int| 0 <= i < entries.len() implies #[trigger] typing_map(entries).dom().contains(
            entries[i].0@,
        ) && typing_map(entries)[entries[i].0@] == entries[i].1 by {
            if i < n {
                assert(rest[i] == entries[i]);
                assert(typing_map(rest).dom().contains(rest[i].0@));
                assert(entries[i].0@ != entries[n].0@);
            }
        }
        assert forall|u: Seq<char>| #[trigger] typing_map(entries).dom().contains(u) implies exists|i: int|
            0 <= i < entries.len() && entries[i].0@ == u by {
            if u != entries[n].0@ {
                assert(typing_map(rest).dom().contains(u));
                let k = choose|k: int| 0 <= k < rest.len() && rest[k].0@ == u;
                assert(entries[k] == rest[k]);
            } else {
                assert(entries[n].0@ == u);
            }
        }
    }
}

proof fn lemma_map_of_distinct(entries: Seq<(String, u64)>, m: Map<Seq<char>, u64>)
    requires
        users_distinct(entries),
        forall|i: int| 0 <= i < entries.len() ==> #[trigger] m.dom().contains(entries[i].0@) && m[entries[i].0@]
            == entries[i].1,
        forall|u: Seq<char>| #[trigger] m.dom().contains(u) ==> exists|i: int| 0 <= i < entries.len() && entries[i].0@ == u,
    ensures
        typing_map(entries) == m,
{
    lemma_typing_map_entries(entries);
    assert forall|u: Seq<char>| #[trigger] typing_map(entries).dom().contains(u) == m.dom().contains(u) by {
        if m.dom().contains(u) {
            let k = choose|k: int| 0 <= k < entries.len() && entries[k].0@ == u;
            assert(typing_map(entries).dom().contains(entries[k].0@));
        }
        if typing_map(entries).dom().contains(u) {
            let k = choose|k: int| 0 <= k < entries.len() && entries[k].0@ == u;
            assert(m.dom().contains(entries[k].0@));
        }
    }
    assert forall|u: Seq<char>| #[trigger] m.dom().contains(u) implies typing_map(entries)[u] == m[u] by {
        let k = choose|k: int| 0 <= k < entries.len() && entries[k].0@ == u;
        assert(m[entries[k].0@] == entries[k].1);
        assert(typing_map(entries).dom().contains(entries[k].0@));
    }
    assert(typing_map(entries) =~= m);
}

impl RoomTyping {
    #[verifier::type_invariant]
    spec fn sorted(self) -> bool {
        users_sorted(self.users@)
    }

    /// Nobody is typing.
    pub fn new() -> (r: RoomTyping)
        ensures
            r@ == Map::<Seq<char>, u64>::empty(),
    {
        RoomTyping { users: Vec::new() }
    }

    /// The users typing, each with the time their notice runs out, in
    /// increasing order of user id.
    pub fn all_typings(&self) -> (r: Vec<(String, u64)>)
        ensures
            typing_map(r@) == self@,
            users_distinct(r@),
            users_sorted(r@),
    {
        proof {
            use_type_invariant(self);
            lemma_sorted_distinct(self.users@);
        }
        let mut out: Vec<(String, u64)> = Vec::new();
        let mut i: usize = 0;
        while i < self.users.len()
            invariant
                0 <= i <= self.users@.len(),
                users_distinct(self.users@),
                users_sorted(self.users@),
                out@ == self.users@.take(i as int),
            decreases self.users@.len() - i,
        {
            let e = (self.users[i].0.clone(), self.users[i].1);
            out.push(e);
            assert(out@ =~= self.users@.take(i + 1));
            i = i + 1;
        }
        assert(out@ =~= self.users@);
        out
    }

    /// Marks a user as typing until `timeout`.
    pub fn add_typing(&mut self, user: &str, timeout: u64)
        ensures
            final(self)@ == old(self)@.insert(user@, timeout),
    {
        proof {
            use_type_invariant(&*self);
            lemma_sorted_distinct(self.users@);
        }
        let ghost before = self@;
        let ghost old_users = self.users@;
        let mut users: Vec<(String, u64)> = Vec::new();
        std::mem::swap(&mut users, &mut self.users);
        proof {
            lemma_typing_map_entries(old_users);
        }
        let (i, found) = find_slot(&users, user);
        let name = crate::text::to_owned_string(user);
        let m = Ghost(before.insert(user@, timeout));
        if found {
            users.set(i, (name, timeout));
            proof {
                assert forall|a: int, b: int| 0 <= a < b < users@.len() implies seq_less(
                    #[trigger] users@[a].0@,
                    #[trigger] users@[b].0@,
                ) by {
                    assert(seq_less(old_users[a].0@, old_users[b].0@));
                }
                lemma_sorted_distinct(users@);
                assert forall|k: int| 0 <= k < users@.len() implies #[trigger] m@.dom().contains(users@[k].0@)
                    && m@[users@[k].0@] == users@[k].1 by {
                    if k != i as int {
                        assert(users@[k] == old_users[k]);
                        assert(before.dom().contains(old_users[k].0@));
                        assert(old_users[k].0@ != old_users[i as int].0@);
                    }
                }
                assert forall|u: Seq<char>| #[trigger] m@.dom().contains(u) implies exists|k: int|
                    0 <= k < users@.len() && users@[k].0@ == u by {
                    if u == user@ {
                        assert(users@[i as int].0@ == u);
                    } else {
                        assert(before.dom().contains(u));
                        let k = choose|k: int| 0 <= k < old_users.len() && old_users[k].0@ == u;
                        assert(users@[k] == old_users[k]);
                    }
                }
                lemma_map_of_distinct(users@, m@);
            }
        } else {
            users.insert(i, (name, timeout));
            proof {
                old_users.insert_ensures(i as int, (name, timeout));
                assert forall|a: int, b: int| 0 <= a < b < users@.len() implies seq_less(
                    #[trigger] users@[a].0@,
                    #[trigger] users@[b].0@,
                ) by {
                    if b < i {
                        assert(seq_less(old_users[a].0@, old_users[b].0@));
                    } else if b == i {
                        assert(users@[a] == old_users[a]);
                    } else if a < i {
                        assert(users@[b] == old_users[b - 1]);
                        assert(seq_less(old_users[a].0@, user@));
                        assert(seq_less(user@, old_users[i as int].0@));
                        if b - 1 > i {
                            assert(seq_less(old_users[i as int].0@, old_users[b - 1].0@));
                            lemma_seq_less_transitive(user@, old_users[i as int].0@, old_users[b - 1].0@);
                        }
                        lemma_seq_less_transitive(old_users[a].0@, user@, old_users[b - 1].0@);
                    } else if a == i {
                        assert(users@[b] == old_users[b - 1]);
                        if b - 1 > i {
                            assert(seq_less(old_users[i as int].0@, old_users[b - 1].0@));
                            lemma_seq_less_transitive(user@, old_users[i as int].0@, old_users[b - 1].0@);
                        }
                    } else {
                        assert(users@[a] == old_users[a - 1] && users@[b] == old_users[b - 1]);
                        assert(seq_less(old_users[a - 1].0@, old_users[b - 1].0@));
                    }
                }
                lemma_sorted_distinct(users@);
                assert forall|k: int| 0 <= k < users@.len() implies #[trigger] m@.dom().contains(users@[k].0@)
                    && m@[users@[k].0@] == users@[k].1 by {
                    if k < i {
                        assert(users@[k] == old_users[k]);
                        assert(before.dom().contains(old_users[k].0@));
                        lemma_seq_less_irreflexive(user@);
                    } else if k > i {
                        assert(users@[k] == old_users[k - 1]);
                        assert(before.dom().contains(old_users[k - 1].0@));
                        lemma_seq_less_irreflexive(user@);
                        if k - 1 > i {
                            assert(seq_less(old_users[i as int].0@, old_users[k - 1].0@));
                            lemma_seq_less_transitive(user@, old_users[i as int].0@, old_users[k - 1].0@);
                        }
                    }
                }
                assert forall|u: Seq<char>| #[trigger] m@.dom().contains(u) implies exists|k: int|
                    0 <= k < users@.len() && users@[k].0@ == u by {
                    if u == user@ {
                        assert(users@[i as int].0@ == u);
                    } else {
                        assert(before.dom().contains(u));
                        let k = choose|k: int| 0 <= k < old_users.len() && old_users[k].0@ == u;
                        if k < i {
                            assert(users@[k] == old_users[k]);
                        } else {
                            assert(users@[k + 1] == old_users[k]);
                        }
                    }
                }
                lemma_map_of_distinct(users@, m@);
            }
        }
        self.users = users;
    }

    /// Marks a user as no longer typing.
    pub fn remove_typing(&mut self, user: &str)
        ensures
            final(self)@ == old(self)@.remove(user@),
    {
        proof {
            use_type_invariant(&*self);
            lemma_sorted_distinct(self.users@);
        }
        let ghost before = self@;
        let ghost old_users = self.users@;
        let mut users: Vec<(String, u64)> = Vec::new();
        std::mem::swap(&mut users, &mut self.users);
        proof {
            lemma_typing_map_entries(old_users);
        }
        let kept = keep_where(users, user, 0, false);
        proof {
            let m = before.remove(user@);
            assert forall|k: int| 0 <= k < kept@.len() implies #[trigger] m.dom().contains(kept@[k].0@)
                && m[kept@[k].0@] == kept@[k].1 by {
                assert(old_users.contains(kept@[k]));
                let j = choose|j: int| 0 <= j < old_users.len() && old_users[j] == kept@[k];
                assert(before.dom().contains(old_users[j].0@));
            }
            assert forall|u: Seq<char>| #[trigger] m.dom().contains(u) implies exists|k: int|
                0 <= k < kept@.len() && kept@[k].0@ == u by {
                let j = choose|j: int| 0 <= j < old_users.len() && old_users[j].0@ == u;
                assert(old_users[j].0@ != user@);
                let k = choose|k: int| 0 <= k < kept@.len() && kept@[k] == old_users[j];
            }
            lemma_sorted_distinct(kept@);
            lemma_map_of_distinct(kept@, m);
        }
        self.users = kept;
    }

    /// Drops the typing notices that ran out before `now`; says whether any
    /// was dropped.
    pub fn expire(&mut self, now: u64) -> (r: bool)
        ensures
            final(self)@ == old(self)@.restrict(old(self)@.dom().filter(|u: Seq<char>| old(self)@[u] >= now)),
            r == exists|u: Seq<char>| #[trigger] old(self)@.dom().contains(u) && old(self)@[u] < now,
    {
        proof {
            use_type_invariant(&*self);
            lemma_sorted_distinct(self.users@);
        }
        let ghost before = self@;
        let ghost old_users = self.users@;
        let n = self.users.len();
        let mut users: Vec<(String, u64)> = Vec::new();
        std::mem::swap(&mut users, &mut self.users);
        proof {
            lemma_typing_map_entries(old_users);
        }
        let kept = keep_where(users, "", now, true);
        let dropped = kept.len() < n;
        proof {
            let m = before.restrict(before.dom().filter(|u: Seq<char>| before[u] >= now));
            assert forall|k: int| 0 <= k < kept@.len() implies #[trigger] m.dom().contains(kept@[k].0@)
                && m[kept@[k].0@] == kept@[k].1 by {
                assert(old_users.contains(kept@[k]));
                let j = choose|j: int| 0 <= j < old_users.len() && old_users[j] == kept@[k];
                assert(before.dom().contains(old_users[j].0@));
            }
            assert forall|u: Seq<char>| #[trigger] m.dom().contains(u) implies exists|k: int|
                0 <= k < kept@.len() && kept@[k].0@ == u by {
                let j = choose|j: int| 0 <= j < old_users.len() && old_users[j].0@ == u;
                let k = choose|k: int| 0 <= k < kept@.len() && kept@[k] == old_users[j];
            }
            lemma_sorted_distinct(kept@);
            lemma_map_of_distinct(kept@, m);
            if dropped {
                let j = choose|j: int| 0 <= j < old_users.len() && old_users[j].1 < now;
                assert(before.dom().contains(old_users[j].0@));
            } else {
                assert forall|u: Seq<char>| #[trigger] before.dom().contains(u) implies !(before[u] < now) by {
                    let j = choose|j: int| 0 <= j < old_users.len() && old_users[j].0@ == u;
                }
            }
        }
        self.users = kept;
        dropped
    }
}

/// Where `user` stands in the ordered list: every user before the slot comes
/// before `user`; the slot holds `user` when it is found, and otherwise a
/// user after it (or the end of the list).
fn find_slot(users: &Vec<(String, u64)>, user: &str) -> (r: (usize, bool))
    requires
        users_sorted(users@),
    ensures
        r.0 <= users@.len(),
        forall|k: int| 0 <= k < r.0 ==> seq_less(#[trigger] users@[k].0@, user@),
        r.1 ==> r.0 < users@.len() && users@[r.0 as int].0@ == user@,
        !r.1 && r.0 < users@.len() ==> seq_less(user@, users@[r.0 as int].0@),
{
    let key = chars_of(user);
    let mut i: usize = 0;
    while i < users.len()
        invariant
            0 <= i <= users@.len(),
            key@ == user@,
            forall|k: int| 0 <= k < i ==> seq_less(#[trigger] users@[k].0@, user@),
        decreases users@.len() - i,
    {
        let here = chars_of(users[i].0.as_str());
        if !chars_less(&here, &key) {
            if str_eq(users[i].0.as_str(), user) {
                return (i, true);
            }
            proof {
                lemma_seq_less_total(users@[i as int].0@, user@);
            }
            return (i, false);
        }
        i = i + 1;
    }
    (i, false)
}

/// Whether an entry stays: not the user removed, or (when expiring) a
/// notice that has not run out.
pub open spec fn stays(e: (String, u64), user: Seq<char>, now: u64, expiring: bool) -> bool {
    if expiring {
        e.1 >= now
    } else {
        e.0@ != user
    }
}

/// The entries that stay, in order.
#[verifier::rlimit(40)]
fn keep_where(users: Vec<(String, u64)>, user: &str, now: u64, expiring: bool) -> (r: Vec<(String, u64)>)
    requires
        users_sorted(users@),
    ensures
        users_sorted(r@),
        r@.len() <= users@.len(),
        forall|k: int| 0 <= k < r@.len() ==> users@.contains(#[trigger] r@[k]),
        forall|k: int| 0 <= k < r@.len() ==> stays(#[trigger] r@[k], user@, now, expiring),
        forall|j: int|
            0 <= j < users@.len() && stays(#[trigger] users@[j], user@, now, expiring) ==> exists|k: int|
                0 <= k < r@.len() && r@[k] == users@[j],
        r@.len() == users@.len() ==> forall|j: int| 0 <= j < users@.len() ==> stays(#[trigger] users@[j], user@, now, expiring),
        r@.len() < users@.len() ==> exists|j: int| 0 <= j < users@.len() && !stays(#[trigger] users@[j], user@, now, expiring),
{
    let ghost all = users@;
    let mut out: Vec<(String, u64)> = Vec::new();
    let mut i: usize = 0;
    while i < users.len()
        invariant
            0 <= i <= users@.len(),
            users@ == all,
            users_sorted(all),
            out@.len() <= i,
            forall|k: int| 0 <= k < out@.len() ==> exists|j: int| 0 <= j < i && all[j] == #[trigger] out@[k],
            forall|k: int| 0 <= k < out@.len() ==> stays(#[trigger] out@[k], user@, now, expiring),
            forall|j: int| 0 <= j < i && stays(#[trigger] all[j], user@, now, expiring) ==> exists|k: int|
                0 <= k < out@.len() && out@[k] == all[j],
            users_sorted(out@),
            out@.len() == i ==> forall|j: int| 0 <= j < i ==> stays(#[trigger] all[j], user@, now, expiring),
            out@.len() < i ==> exists|j: int| 0 <= j < i && !stays(#[trigger] all[j], user@, now, expiring),
        decreases users@.len() - i,
    {
        let keep = if expiring {
            users[i].1 >= now
        } else {
            !str_eq(users[i].0.as_str(), user)
        };
        if keep {
            let e = (users[i].0.clone(), users[i].1);
            let ghost prev = out@;
            out.push(e);
            proof {
                assert(out@[prev.len() as int] == all[i as int]);
                assert forall|a: int, b: int| 0 <= a < b < out@.len() implies seq_less(
                    #[trigger] out@[a].0@,
                    #[trigger] out@[b].0@,
                ) by {
                    if b < prev.len() {
                        assert(out@[a] == prev[a] && out@[b] == prev[b]);
                        assert(seq_less(prev[a].0@, prev[b].0@));
                    } else {
                        let ja = choose|ja: int| 0 <= ja < i && all[ja] == #[trigger] prev[a];
                        assert(out@[a] == prev[a]);
                        assert(seq_less(all[ja].0@, all[i as int].0@));
                    }
                }
                assert forall|k: int| 0 <= k < out@.len() implies exists|j: int| 0 <= j < i + 1 && all[j] == #[trigger] out@[k] by {
                    if k < prev.len() {
                        let j = choose|j: int| 0 <= j < i && all[j] == #[trigger] prev[k];
                        assert(out@[k] == prev[k]);
                    } else {
                        assert(all[i as int] == out@[k]);
                    }
                }
                assert forall|j: int| 0 <= j < i + 1 && stays(#[trigger] all[j], user@, now, expiring) implies exists|k: int|
                    0 <= k < out@.len() && out@[k] == all[j] by {
                    if j < i {
                        let k = choose|k: int| 0 <= k < prev.len() && prev[k] == all[j];
                        assert(out@[k] == prev[k]);
                    } else {
                        assert(out@[prev.len() as int] == all[j]);
                    }
                }
            }
        } else {
            assert(!stays(all[i as int], user@, now, expiring));
        }
        i = i + 1;
    }
    assert forall|k: int| 0 <= k < out@.len() implies users@.contains(#[trigger] out@[k]) by {
        let j = choose|j: int| 0 <= j < i && all[j] == #[trigger] out@[k];
        assert(users@[j] == out@[k]);
    }
    out
}

} // verus!
