//! Values the server keeps in memory per user, device and session (or
//! connection) id: the request bodies of interactive authentication
//! sessions, and the state of sliding-sync connections; and the failures
//! recorded per set of ids (events, or the signatures of an event) that the
//! server backs off from.
use vstd::prelude::*;

use crate::incoming::{backoff_ms, event_backing_off, record_failure, signature_backing_off};
use crate::sync::strs;
use crate::text::{str_eq, to_owned_string};

verus! {

/// A user, a device and a session or connection id, as plain text.
pub type SessionKey = (Seq<char>, Seq<char>, Seq<char>);

/// The key of a stored entry.
pub open spec fn entry_key<V>(e: (String, String, String, V)) -> SessionKey {
    (e.0@, e.1@, e.2@)
}

/// The map held by a list of entries.
pub open spec fn store_map<V>(entries: Seq<(String, String, String, V)>) -> Map<SessionKey, V>
    decreases entries.len(),
{
    if entries.len() == 0 {
        Map::empty()
    } else {
        store_map(entries.drop_last()).insert(entry_key(entries.last()), entries.last().3)
    }
}

/// No key occurs twice.
pub open spec fn keys_distinct<V>(entries: Seq<(String, String, String, V)>) -> bool {
    forall|i: int, j: int| 0 <= i < j < entries.len() ==> entry_key(entries[i]) != entry_key(entries[j])
}

proof fn lemma_store_map_entries<V>(entries: Seq<(String, String, String, V)>)
    requires
        keys_distinct(entries),
    ensures
        forall|i: int|
            0 <= i < entries.len() ==> #[trigger] store_map(entries).dom().contains(entry_key(entries[i]))
                && store_map(entries)[entry_key(entries[i])] == entries[i].3,
        forall|k: SessionKey| #[trigger]
            store_map(entries).dom().contains(k) ==> exists|i: int| 0 <= i < entries.len() && entry_key(entries[i]) == k,
    decreases entries.len(),
{
    if entries.len() > 0 {
        let rest = entries.drop_last();
        assert(keys_distinct(rest)) by {
            assert forall|i: int, j: int| 0 <= i < j < rest.len() implies entry_key(rest[i]) != entry_key(rest[j]) by {
                assert(rest[i] == entries[i] && rest[j] == entries[j]);
            }
        }
        lemma_store_map_entries(rest);
        let n = entries.len() - 1;
        assert forall|i: int| 0 <= i < entries.len() implies #[trigger] store_map(entries).dom().contains(
            entry_key(entries[i]),
        ) && store_map(entries)[entry_key(entries[i])] == entries[i].3 by {
            if i < n {
                assert(rest[i] == entries[i]);
                assert(store_map(rest).dom().contains(entry_key(rest[i])));
                assert(entry_key(entries[i]) != entry_key(entries[n]));
            }
        }
        assert forall|k: SessionKey| #[trigger] store_map(entries).dom().contains(k) implies exists|i: int|
            0 <= i < entries.len() && entry_key(entries[i]) == k by {
            if k != entry_key(entries[n]) {
                assert(store_map(rest).dom().contains(k));
                let j = choose|j: int| 0 <= j < rest.len() && entry_key(rest[j]) == k;
                assert(entries[j] == rest[j]);
            } else {
                assert(entry_key(entries[n]) == k);
            }
        }
    }
}

proof fn lemma_store_map_is<V>(entries: Seq<(String, String, String, V)>, m: Map<SessionKey, V>)
    requires
        keys_distinct(entries),
        forall|i: int|
            0 <= i < entries.len() ==> #[trigger] m.dom().contains(entry_key(entries[i])) && m[entry_key(entries[i])]
                == entries[i].3,
        forall|k: SessionKey| #[trigger] m.dom().contains(k) ==> exists|i: int| 0 <= i < entries.len() && entry_key(entries[i]) == k,
    ensures
        store_map(entries) == m,
{
    lemma_store_map_entries(entries);
    assert forall|k: SessionKey| #[trigger] store_map(entries).dom().contains(k) == m.dom().contains(k) by {
        if m.dom().contains(k) {
            let j = choose|j: int| 0 <= j < entries.len() && entry_key(entries[j]) == k;
            assert(store_map(entries).dom().contains(entry_key(entries[j])));
        }
        if store_map(entries).dom().contains(k) {
            let j = choose|j: int| 0 <= j < entries.len() && entry_key(entries[j]) == k;
            assert(m.dom().contains(entry_key(entries[j])));
        }
    }
    assert forall|k: SessionKey| #[trigger] m.dom().contains(k) implies store_map(entries)[k] == m[k] by {
        let j = choose|j: int| 0 <= j < entries.len() && entry_key(entries[j]) == k;
        assert(m[entry_key(entries[j])] == entries[j].3);
        assert(store_map(entries).dom().contains(entry_key(entries[j])));
    }
    assert(store_map(entries) =~= m);
}

/// Values kept per user, device and session id.
pub struct SessionStore<V> {
    entries: Vec<(String, String, String, V)>,
}

impl<V> View for SessionStore<V> {
    type V = Map<SessionKey, V>;

    closed spec fn view(&self) -> Map<SessionKey, V> {
        store_map(self.entries@)
    }
}

impl<V> SessionStore<V> {
    #[verifier::type_invariant]
    spec fn distinct(self) -> bool {
        keys_distinct(self.entries@)
    }

    /// An empty store.
    pub fn new() -> (r: Self)
        ensures
            r@ == Map::<SessionKey, V>::empty(),
    {
        SessionStore { entries: Vec::new() }
    }

    fn find(&self, user: &str, device: &str, id: &str) -> (r: Option<usize>)
        ensures
            match r {
                Some(i) => i < self.entries@.len() && entry_key(self.entries@[i as int]) == (user@, device@, id@),
                None => forall|i: int|
                    0 <= i < self.entries@.len() ==> entry_key(#[trigger] self.entries@[i]) != (user@, device@, id@),
            },
    {
        let mut i: usize = 0;
        while i < self.entries.len()
            invariant
                0 <= i <= self.entries@.len(),
                forall|j: int| 0 <= j < i ==> entry_key(#[trigger] self.entries@[j]) != (user@, device@, id@),
            decreases self.entries@.len() - i,
        {
            let e = &self.entries[i];
            if str_eq(e.0.as_str(), user) && str_eq(e.1.as_str(), device) && str_eq(e.2.as_str(), id) {
                return Some(i);
            }
            i = i + 1;
        }
        None
    }

    /// Whether a value is kept for the key.
    pub fn contains_key(&self, user: &str, device: &str, id: &str) -> (r: bool)
        ensures
            r == self@.dom().contains((user@, device@, id@)),
    {
        proof {
            use_type_invariant(self);
            lemma_store_map_entries(self.entries@);
        }
        match self.find(user, device, id) {
            Some(_) => true,
            None => {
                proof {
                    if self@.dom().contains((user@, device@, id@)) {
                        let j = choose|j: int|
                            0 <= j < self.entries@.len() && entry_key(self.entries@[j]) == (user@, device@, id@);
                        assert(entry_key(self.entries@[j]) != (user@, device@, id@));
                    }
                }
                false
            },
        }
    }

    /// The value kept for the key, if any.
    pub fn get(&self, user: &str, device: &str, id: &str) -> (r: Option<&V>)
        ensures
            self@.dom().contains((user@, device@, id@)) ==> r == Some(&self@[(user@, device@, id@)]),
            !self@.dom().contains((user@, device@, id@)) ==> r is None,
    {
        proof {
            use_type_invariant(self);
            lemma_store_map_entries(self.entries@);
        }
        match self.find(user, device, id) {
            Some(i) => Some(&self.entries[i].3),
            None => {
                proof {
                    if self@.dom().contains((user@, device@, id@)) {
                        let j = choose|j: int|
                            0 <= j < self.entries@.len() && entry_key(self.entries@[j]) == (user@, device@, id@);
                        assert(entry_key(self.entries@[j]) != (user@, device@, id@));
                    }
                }
                None
            },
        }
    }

    /// Keeps `value` for the key, in place of any value kept before.
    pub fn insert(&mut self, user: &str, device: &str, id: &str, value: V)
        ensures
            final(self)@ == old(self)@.insert((user@, device@, id@), value),
    {
        proof {
            use_type_invariant(&*self);
            lemma_store_map_entries(self.entries@);
        }
        let ghost before = self@;
        let ghost old_entries = self.entries@;
        let ghost k = (user@, device@, id@);
        let pos = self.find(user, device, id);
        let mut entries: Vec<(String, String, String, V)> = Vec::new();
        std::mem::swap(&mut entries, &mut self.entries);
        let entry = (to_owned_string(user), to_owned_string(device), to_owned_string(id), value);
        let ghost m = before.insert(k, value);
        match pos {
            Some(i) => {
                entries.set(i, entry);
                proof {
                    assert forall|a: int, b: int| 0 <= a < b < entries@.len() implies entry_key(entries@[a])
                        != entry_key(entries@[b]) by {
                        if a != i as int && b != i as int {
                            assert(entries@[a] == old_entries[a] && entries@[b] == old_entries[b]);
                        } else if a == i as int {
                            assert(entries@[b] == old_entries[b]);
                        } else {
                            assert(entries@[a] == old_entries[a]);
                        }
                    }
                    assert forall|j: int| 0 <= j < entries@.len() implies #[trigger] m.dom().contains(
                        entry_key(entries@[j]),
                    ) && m[entry_key(entries@[j])] == entries@[j].3 by {
                        if j != i as int {
                            assert(entries@[j] == old_entries[j]);
                            assert(before.dom().contains(entry_key(old_entries[j])));
                        }
                    }
                    assert forall|q: SessionKey| #[trigger] m.dom().contains(q) implies exists|j: int|
                        0 <= j < entries@.len() && entry_key(entries@[j]) == q by {
                        if q == k {
                            assert(entry_key(entries@[i as int]) == q);
                        } else {
                            assert(before.dom().contains(q));
                            let j = choose|j: int| 0 <= j < old_entries.len() && entry_key(old_entries[j]) == q;
                            assert(entries@[j] == old_entries[j]);
                        }
                    }
                    lemma_store_map_is(entries@, m);
                }
            },
            None => {
                entries.push(entry);
                proof {
                    assert forall|a: int, b: int| 0 <= a < b < entries@.len() implies entry_key(entries@[a])
                        != entry_key(entries@[b]) by {
                        assert(entries@[a] == old_entries[a]);
                        if b < old_entries.len() {
                            assert(entries@[b] == old_entries[b]);
                        }
                    }
                    assert(entries@.drop_last() =~= old_entries);
                }
            },
        }
        self.entries = entries;
    }

    /// Forgets the value kept for the key, handing it back.
    pub fn remove(&mut self, user: &str, device: &str, id: &str) -> (r: Option<V>)
        ensures
            final(self)@ == old(self)@.remove((user@, device@, id@)),
            old(self)@.dom().contains((user@, device@, id@)) ==> r == Some(old(self)@[(user@, device@, id@)]),
            !old(self)@.dom().contains((user@, device@, id@)) ==> r is None,
    {
        proof {
            use_type_invariant(&*self);
            lemma_store_map_entries(self.entries@);
        }
        let ghost before = self@;
        let ghost old_entries = self.entries@;
        let ghost k = (user@, device@, id@);
        let pos = self.find(user, device, id);
        match pos {
            Some(i) => {
                let mut entries: Vec<(String, String, String, V)> = Vec::new();
                std::mem::swap(&mut entries, &mut self.entries);
                let gone = entries.remove(i);
                proof {
                    old_entries.remove_ensures(i as int);
                    let m = before.remove(k);
                    assert forall|a: int, b: int| 0 <= a < b < entries@.len() implies entry_key(entries@[a])
                        != entry_key(entries@[b]) by {
                        let ia = if a < i { a } else { a + 1 };
                        let ib = if b < i { b } else { b + 1 };
                        assert(entries@[a] == old_entries[ia] && entries@[b] == old_entries[ib]);
                    }
                    assert forall|j: int| 0 <= j < entries@.len() implies #[trigger] m.dom().contains(
                        entry_key(entries@[j]),
                    ) && m[entry_key(entries@[j])] == entries@[j].3 by {
                        let oj = if j < i { j } else { j + 1 };
                        assert(entries@[j] == old_entries[oj]);
                        assert(before.dom().contains(entry_key(old_entries[oj])));
                    }
                    assert forall|q: SessionKey| #[trigger] m.dom().contains(q) implies exists|j: int|
                        0 <= j < entries@.len() && entry_key(entries@[j]) == q by {
                        let j = choose|j: int| 0 <= j < old_entries.len() && entry_key(old_entries[j]) == q;
                        assert(j != i as int);
                        if j < i {
                            assert(entries@[j] == old_entries[j]);
                        } else {
                            assert(entries@[j - 1] == old_entries[j]);
                        }
                    }
                    lemma_store_map_is(entries@, m);
                }
                self.entries = entries;
                Some(gone.3)
            },
            None => {
                proof {
                    if before.dom().contains(k) {
                        let j = choose|j: int| 0 <= j < old_entries.len() && entry_key(old_entries[j]) == k;
                        assert(entry_key(old_entries[j]) != k);
                    }
                    assert(before.remove(k) =~= before);
                }
                None
            },
        }
    }
}

/// The failures recorded for a list of ids: when the last one happened
/// (milliseconds since the epoch) and how many there were.
pub open spec fn log_map(entries: Seq<(Vec<String>, u64, u32)>) -> Map<Seq<Seq<char>>, (u64, u32)>
    decreases entries.len(),
{
    if entries.len() == 0 {
        Map::empty()
    } else {
        log_map(entries.drop_last()).insert(strs(entries.last().0@), (entries.last().1, entries.last().2))
    }
}

/// No list of ids occurs twice.
pub open spec fn ids_lists_distinct(entries: Seq<(Vec<String>, u64, u32)>) -> bool {
    forall|i: int, j: int| 0 <= i < j < entries.len() ==> strs(entries[i].0@) != strs(entries[j].0@)
}

proof fn lemma_log_map_entries(entries: Seq<(Vec<String>, u64, u32)>)
    requires
        ids_lists_distinct(entries),
    ensures
        forall|i: int|
            0 <= i < entries.len() ==> #[trigger] log_map(entries).dom().contains(strs(entries[i].0@))
                && log_map(entries)[strs(entries[i].0@)] == (entries[i].1, entries[i].2),
        forall|k: Seq<Seq<char>>| #[trigger]
            log_map(entries).dom().contains(k) ==> exists|i: int| 0 <= i < entries.len() && strs(entries[i].0@) == k,
    decreases entries.len(),
{
    if entries.len() > 0 {
        let rest = entries.drop_last();
        assert(ids_lists_distinct(rest)) by {
            assert forall|i: int, j: int| 0 <= i < j < rest.len() implies strs(rest[i].0@) != strs(rest[j].0@) by {
                assert(rest[i] == entries[i] && rest[j] == entries[j]);
            }
        }
        lemma_log_map_entries(rest);
        let n = entries.len() - 1;
        assert forall|i: int| 0 <= i < entries.len() implies #[trigger] log_map(entries).dom().contains(
            strs(entries[i].0@),
        ) && log_map(entries)[strs(entries[i].0@)] == (entries[i].1, entries[i].2) by {
            if i < n {
                assert(rest[i] == entries[i]);
                assert(log_map(rest).dom().contains(strs(rest[i].0@)));
                assert(strs(entries[i].0@) != strs(entries[n].0@));
            }
        }
        assert forall|k: Seq<Seq<char>>| #[trigger] log_map(entries).dom().contains(k) implies exists|i: int|
            0 <= i < entries.len() && strs(entries[i].0@) == k by {
            if k != strs(entries[n].0@) {
                assert(log_map(rest).dom().contains(k));
                let j = choose|j: int| 0 <= j < rest.len() && strs(rest[j].0@) == k;
                assert(entries[j] == rest[j]);
            } else {
                assert(strs(entries[n].0@) == k);
            }
        }
    }
}

proof fn lemma_log_map_is(entries: Seq<(Vec<String>, u64, u32)>, m: Map<Seq<Seq<char>>, (u64, u32)>)
    requires
        ids_lists_distinct(entries),
        forall|i: int|
            0 <= i < entries.len() ==> #[trigger] m.dom().contains(strs(entries[i].0@)) && m[strs(entries[i].0@)] == (
                entries[i].1,
                entries[i].2,
            ),
        forall|k: Seq<Seq<char>>| #[trigger] m.dom().contains(k) ==> exists|i: int| 0 <= i < entries.len() && strs(entries[i].0@) == k,
    ensures
        log_map(entries) == m,
{
    lemma_log_map_entries(entries);
    assert forall|k: Seq<Seq<char>>| #[trigger] log_map(entries).dom().contains(k) == m.dom().contains(k) by {
        if m.dom().contains(k) {
            let j = choose|j: int| 0 <= j < entries.len() && strs(entries[j].0@) == k;
            assert(log_map(entries).dom().contains(strs(entries[j].0@)));
        }
        if log_map(entries).dom().contains(k) {
            let j = choose|j: int| 0 <= j < entries.len() && strs(entries[j].0@) == k;
            assert(m.dom().contains(strs(entries[j].0@)));
        }
    }
    assert forall|k: Seq<Seq<char>>| #[trigger] m.dom().contains(k) implies log_map(entries)[k] == m[k] by {
        let j = choose|j: int| 0 <= j < entries.len() && strs(entries[j].0@) == k;
        assert(m[strs(entries[j].0@)] == (entries[j].1, entries[j].2));
        assert(log_map(entries).dom().contains(strs(entries[j].0@)));
    }
    assert(log_map(entries) =~= m);
}

fn same_ids(a: &Vec<String>, b: &Vec<String>) -> (r: bool)
    ensures
        r == (strs(a@) == strs(b@)),
{
    if a.len() != b.len() {
        assert(strs(a@).len() != strs(b@).len());
        return false;
    }
    let mut i: usize = 0;
    while i < a.len()
        invariant
            0 <= i <= a@.len(),
            a@.len() == b@.len(),
            forall|k: int| 0 <= k < i ==> a@[k]@ == b@[k]@,
        decreases a@.len() - i,
    {
        if !str_eq(a[i].as_str(), b[i].as_str()) {
            assert(strs(a@)[i as int] != strs(b@)[i as int]);
            return false;
        }
        i = i + 1;
    }
    assert(strs(a@) =~= strs(b@));
    true
}

fn copy_ids(ids: &Vec<String>) -> (r: Vec<String>)
    ensures
        strs(r@) == strs(ids@),
{
    let mut out: Vec<String> = Vec::new();
    let mut i: usize = 0;
    while i < ids.len()
        invariant
            0 <= i <= ids@.len(),
            out@.len() == i,
            forall|k: int| 0 <= k < i ==> out@[k]@ == ids@[k]@,
        decreases ids@.len() - i,
    {
        out.push(to_owned_string(ids[i].as_str()));
        i = i + 1;
    }
    assert(strs(out@) =~= strs(ids@));
    out
}

/// The failures the server backs off from, per list of ids (the id of an
/// event, as a list of one, or the ids of the signatures of an event): when the last one happened and
/// how many there were.
pub struct FailureLog {
    entries: Vec<(Vec<String>, u64, u32)>,
}

impl View for FailureLog {
    type V = Map<Seq<Seq<char>>, (u64, u32)>;

    closed spec fn view(&self) -> Map<Seq<Seq<char>>, (u64, u32)> {
        log_map(self.entries@)
    }
}

impl FailureLog {
    #[verifier::type_invariant]
    spec fn distinct(self) -> bool {
        ids_lists_distinct(self.entries@)
    }

    /// Nothing has failed yet.
    pub fn new() -> (r: Self)
        ensures
            r@ == Map::<Seq<Seq<char>>, (u64, u32)>::empty(),
    {
        FailureLog { entries: Vec::new() }
    }

    fn find(&self, ids: &Vec<String>) -> (r: Option<usize>)
        ensures
            match r {
                Some(i) => i < self.entries@.len() && strs(self.entries@[i as int].0@) == strs(ids@),
                None => forall|i: int|
                    0 <= i < self.entries@.len() ==> strs(#[trigger] self.entries@[i].0@) != strs(ids@),
            },
    {
        let mut i: usize = 0;
        while i < self.entries.len()
            invariant
                0 <= i <= self.entries@.len(),
                forall|j: int| 0 <= j < i ==> strs(#[trigger] self.entries@[j].0@) != strs(ids@),
            decreases self.entries@.len() - i,
        {
            if same_ids(&self.entries[i].0, ids) {
                return Some(i);
            }
            i = i + 1;
        }
        None
    }

    /// The last failure recorded for `ids` and the number of failures, if any.
    pub fn get(&self, ids: &Vec<String>) -> (r: Option<(u64, u32)>)
        ensures
            self@.dom().contains(strs(ids@)) ==> r == Some(self@[strs(ids@)]),
            !self@.dom().contains(strs(ids@)) ==> r is None,
    {
        proof {
            use_type_invariant(self);
            lemma_log_map_entries(self.entries@);
        }
        match self.find(ids) {
            Some(i) => Some((self.entries[i].1, self.entries[i].2)),
            None => {
                proof {
                    if self@.dom().contains(strs(ids@)) {
                        let j = choose|j: int| 0 <= j < self.entries@.len() && strs(self.entries@[j].0@) == strs(ids@);
                        assert(strs(self.entries@[j].0@) != strs(ids@));
                    }
                }
                None
            },
        }
    }

    /// Records a failure for `ids` at `now`: the first one, or one more than
    /// before.
    pub fn record(&mut self, ids: &Vec<String>, now: u64)
        requires
            old(self)@.dom().contains(strs(ids@)) ==> old(self)@[strs(ids@)].1 < u32::MAX,
        ensures
            final(self)@ == old(self)@.insert(
                strs(ids@),
                if old(self)@.dom().contains(strs(ids@)) {
                    (now, (old(self)@[strs(ids@)].1 + 1) as u32)
                } else {
                    (now, 1u32)
                },
            ),
    {
        proof {
            use_type_invariant(&*self);
            lemma_log_map_entries(self.entries@);
        }
        let ghost before = self@;
        let ghost old_entries = self.entries@;
        let ghost k = strs(ids@);
        let previous = self.get(ids);
        let (t, n) = record_failure(previous, now);
        let ghost m = before.insert(k, (t, n));
        let pos = self.find(ids);
        let mut entries: Vec<(Vec<String>, u64, u32)> = Vec::new();
        std::mem::swap(&mut entries, &mut self.entries);
        let entry = (copy_ids(ids), t, n);
        match pos {
            Some(i) => {
                entries.set(i, entry);
                proof {
                    assert forall|a: int, b: int| 0 <= a < b < entries@.len() implies strs(entries@[a].0@) != strs(
                        entries@[b].0@,
                    ) by {
                        if a != i as int && b != i as int {
                            assert(entries@[a] == old_entries[a] && entries@[b] == old_entries[b]);
                        } else if a == i as int {
                            assert(entries@[b] == old_entries[b]);
                        } else {
                            assert(entries@[a] == old_entries[a]);
                        }
                    }
                    assert forall|j: int| 0 <= j < entries@.len() implies #[trigger] m.dom().contains(
                        strs(entries@[j].0@),
                    ) && m[strs(entries@[j].0@)] == (entries@[j].1, entries@[j].2) by {
                        if j != i as int {
                            assert(entries@[j] == old_entries[j]);
                            assert(before.dom().contains(strs(old_entries[j].0@)));
                        }
                    }
                    assert forall|q: Seq<Seq<char>>| #[trigger] m.dom().contains(q) implies exists|j: int|
                        0 <= j < entries@.len() && strs(entries@[j].0@) == q by {
                        if q == k {
                            assert(strs(entries@[i as int].0@) == q);
                        } else {
                            assert(before.dom().contains(q));
                            let j = choose|j: int| 0 <= j < old_entries.len() && strs(old_entries[j].0@) == q;
                            assert(entries@[j] == old_entries[j]);
                        }
                    }
                    lemma_log_map_is(entries@, m);
                }
            },
            None => {
                entries.push(entry);
                proof {
                    assert forall|a: int, b: int| 0 <= a < b < entries@.len() implies strs(entries@[a].0@) != strs(
                        entries@[b].0@,
                    ) by {
                        assert(entries@[a] == old_entries[a]);
                        if b < old_entries.len() {
                            assert(entries@[b] == old_entries[b]);
                        }
                    }
                    assert(entries@.drop_last() =~= old_entries);
                }
            },
        }
        self.entries = entries;
    }

    /// Whether the server still backs off from the signing keys of `ids` at
    /// `now`: a failure was recorded, and thirty seconds times the square of
    /// the failures (at most a day) have not passed since the last one. A
    /// failure recorded after `now` counts as just happened.
    pub fn signatures_backing_off(&self, ids: &Vec<String>, now: u64) -> (r: bool)
        requires
            self@.dom().contains(strs(ids@)) ==> 30 * self@[strs(ids@)].1 * self@[strs(ids@)].1 <= u64::MAX,
        ensures
            r == (self@.dom().contains(strs(ids@)) && {
                let (time, tries) = self@[strs(ids@)];
                (if now >= time { now - time } else { 0 }) < backoff_ms(30_000, tries as nat)
            }),
    {
        match self.get(ids) {
            Some((time, tries)) => {
                let elapsed = if now >= time {
                    now - time
                } else {
                    0
                };
                signature_backing_off(elapsed, tries)
            },
            None => false,
        }
    }

    /// Whether the server still backs off from fetching the event of `ids`
    /// (its id, as a list of one) at `now`: a failure was recorded, and five
    /// minutes times the square of the failures (at most a day) have not
    /// passed since the last one. A failure recorded after `now` counts as
    /// just happened.
    pub fn events_backing_off(&self, ids: &Vec<String>, now: u64) -> (r: bool)
        requires
            self@.dom().contains(strs(ids@)) ==> 300 * self@[strs(ids@)].1 * self@[strs(ids@)].1 <= u64::MAX,
        ensures
            r == (self@.dom().contains(strs(ids@)) && {
                let (time, tries) = self@[strs(ids@)];
                (if now >= time { now - time } else { 0 }) < backoff_ms(300_000, tries as nat)
            }),
    {
        match self.get(ids) {
            Some((time, tries)) => {
                let elapsed = if now >= time {
                    now - time
                } else {
                    0
                };
                event_backing_off(elapsed, tries)
            },
            None => false,
        }
    }
}

} // verus!
