//! The set of entries that makes up a room state (or a change to one).
use vstd::prelude::*;

use crate::compressed::{encoding, lemma_encoding_roundtrip, CompressedStateEvent};

verus! {

broadcast use vstd::seq_lib::group_seq_properties;

/// Strict lexicographic order on byte strings (a proper prefix comes first).
pub open spec fn bytes_less(a: Seq<u8>, b: Seq<u8>) -> bool
    decreases a.len(),
{
    if a.len() == 0 {
        b.len() > 0
    } else if b.len() == 0 {
        false
    } else if a[0] != b[0] {
        a[0] < b[0]
    } else {
        bytes_less(a.drop_first(), b.drop_first())
    }
}

/// `a` is stored before `b`: its sixteen stored bytes come first in byte order.
pub open spec fn stored_before(a: CompressedStateEvent, b: CompressedStateEvent) -> bool {
    bytes_less(encoding(a.field_id, a.point_id), encoding(b.field_id, b.point_id))
}

/// The entries come in strictly increasing order of their stored bytes.
pub open spec fn in_stored_order(s: Seq<CompressedStateEvent>) -> bool {
    forall|i: int, j: int| 0 <= i < j < s.len() ==> stored_before(#[trigger] s[i], #[trigger] s[j])
}

proof fn lemma_bytes_less_irreflexive(a: Seq<u8>)
    ensures
        !bytes_less(a, a),
    decreases a.len(),
{
    if a.len() > 0 {
        lemma_bytes_less_irreflexive(a.drop_first());
    }
}

proof fn lemma_bytes_less_transitive(a: Seq<u8>, b: Seq<u8>, c: Seq<u8>)
    requires
        bytes_less(a, b),
        bytes_less(b, c),
    ensures
        bytes_less(a, c),
    decreases a.len(),
{
    if a.len() > 0 && b.len() > 0 && c.len() > 0 && a[0] == b[0] && b[0] == c[0] {
        lemma_bytes_less_transitive(a.drop_first(), b.drop_first(), c.drop_first());
    }
}

proof fn lemma_bytes_less_total(a: Seq<u8>, b: Seq<u8>)
    requires
        a != b,
    ensures
        bytes_less(a, b) || bytes_less(b, a),
    decreases a.len(),
{
    if a.len() > 0 && b.len() > 0 && a[0] == b[0] {
        if a.drop_first() == b.drop_first() {
            assert(a =~= seq![a[0]] + a.drop_first());
            assert(b =~= seq![b[0]] + b.drop_first());
        }
        lemma_bytes_less_total(a.drop_first(), b.drop_first());
    } else if a.len() == 0 && b.len() == 0 {
        assert(a =~= b);
    }
}

proof fn lemma_stored_before_total(a: CompressedStateEvent, b: CompressedStateEvent)
    requires
        a != b,
    ensures
        stored_before(a, b) || stored_before(b, a),
{
    lemma_encoding_roundtrip(a.field_id, a.point_id);
    lemma_encoding_roundtrip(b.field_id, b.point_id);
    lemma_bytes_less_total(encoding(a.field_id, a.point_id), encoding(b.field_id, b.point_id));
}

proof fn lemma_ordered_no_duplicates(s: Seq<CompressedStateEvent>)
    requires
        in_stored_order(s),
    ensures
        s.no_duplicates(),
{
    assert forall|i: int, j: int| 0 <= i < s.len() && 0 <= j < s.len() && i != j implies s[i] != s[j] by {
        if i < j {
            assert(stored_before(s[i], s[j]));
        } else {
            assert(stored_before(s[j], s[i]));
        }
        lemma_bytes_less_irreflexive(encoding(s[i].field_id, s[i].point_id));
    }
}

fn bytes_less_exec(a: &Vec<u8>, b: &Vec<u8>) -> (r: bool)
    ensures
        r == bytes_less(a@, b@),
{
    let mut i: usize = 0;
    assert(a@.skip(0) == a@ && b@.skip(0) == b@);
    while i < a.len() && i < b.len()
        invariant
            0 <= i <= a@.len(),
            i <= b@.len(),
            bytes_less(a@, b@) == bytes_less(a@.skip(i as int), b@.skip(i as int)),
        decreases a@.len() - i,
    {
        if a[i] != b[i] {
            assert(a@.skip(i as int)[0] == a@[i as int]);
            assert(b@.skip(i as int)[0] == b@[i as int]);
            return a[i] < b[i];
        }
        assert(a@.skip(i as int).drop_first() == a@.skip(i + 1));
        assert(b@.skip(i as int).drop_first() == b@.skip(i + 1));
        i = i + 1;
    }
    i == a.len() && i < b.len()
}

fn stored_before_exec(a: &CompressedStateEvent, b: &CompressedStateEvent) -> (r: bool)
    ensures
        r == stored_before(*a, *b),
{
    let x = a.as_bytes();
    let y = b.as_bytes();
    bytes_less_exec(&x, &y)
}

/// A set of state entries, kept as a list in increasing order of their
/// stored bytes, so that no entry occurs twice.
pub struct CompressedState {
    entries: Vec<CompressedStateEvent>,
}

impl View for CompressedState {
    type V = Set<CompressedStateEvent>;

    closed spec fn view(&self) -> Set<CompressedStateEvent> {
        self.entries@.to_set()
    }
}

/// Every state set is finite.
pub broadcast proof fn lemma_state_finite(s: &CompressedState)
    ensures
        #[trigger] s@.finite(),
{
    vstd::seq_lib::seq_to_set_is_finite(s.entries@);
}

impl CompressedState {
    #[verifier::type_invariant]
    closed spec fn ordered(&self) -> bool {
        in_stored_order(self.entries@)
    }

    /// The entries in the order in which they are kept.
    pub closed spec fn seq(&self) -> Seq<CompressedStateEvent> {
        self.entries@
    }

    /// The empty set.
    pub fn new() -> (r: Self)
        ensures
            r@ == Set::<CompressedStateEvent>::empty(),
            r.seq() == Seq::<CompressedStateEvent>::empty(),
    {
        let r = CompressedState { entries: Vec::new() };
        assert(r@ =~= Set::<CompressedStateEvent>::empty());
        r
    }

    /// The entries, each once, in increasing order of their stored bytes.
    pub fn entries(&self) -> (r: &Vec<CompressedStateEvent>)
        ensures
            r@ == self.seq(),
            r@.no_duplicates(),
            in_stored_order(r@),
            r@.to_set() == self@,
    {
        proof {
            use_type_invariant(self);
            lemma_ordered_no_duplicates(self.entries@);
        }
        &self.entries
    }

    /// The number of entries.
    pub fn len(&self) -> (r: usize)
        ensures
            r == self@.len(),
            self@.finite(),
    {
        proof {
            use_type_invariant(self);
            lemma_ordered_no_duplicates(self.entries@);
            self.entries@.unique_seq_to_set();
        }
        self.entries.len()
    }

    /// Whether `e` is in the set.
    pub fn contains(&self, e: &CompressedStateEvent) -> (r: bool)
        ensures
            r == self@.contains(*e),
    {
        let mut i: usize = 0;
        while i < self.entries.len()
            invariant
                0 <= i <= self.entries@.len(),
                forall|j: int| 0 <= j < i ==> self.entries@[j] != *e,
            decreases self.entries@.len() - i,
        {
            if self.entries[i] == *e {
                assert(self.entries@.contains(*e));
                return true;
            }
            i = i + 1;
        }
        false
    }

    /// Adds `e`; true when it was not there before.
    pub fn insert(&mut self, e: CompressedStateEvent) -> (r: bool)
        ensures
            final(self)@ == old(self)@.insert(e),
            r == !old(self)@.contains(e),
    {
        proof {
            use_type_invariant(&*self);
        }
        if self.contains(&e) {
            return false;
        }
        let ghost before = self.entries@;
        let mut i: usize = 0;
        while i < self.entries.len()
            invariant
                self.entries@ == before,
                in_stored_order(before),
                !before.contains(e),
                0 <= i <= before.len(),
                forall|k: int| 0 <= k < i ==> stored_before(#[trigger] before[k], e),
            ensures
                self.entries@ == before,
                0 <= i <= before.len(),
                forall|k: int| 0 <= k < i ==> stored_before(#[trigger] before[k], e),
                i < before.len() ==> stored_before(e, before[i as int]),
            decreases before.len() - i,
        {
            if !stored_before_exec(&self.entries[i], &e) {
                proof {
                    assert(before[i as int] != e);
                    lemma_stored_before_total(before[i as int], e);
                }
                break;
            }
            i = i + 1;
        }
        let mut v: Vec<CompressedStateEvent> = Vec::new();
        std::mem::swap(&mut v, &mut self.entries);
        v.insert(i, e);
        proof {
            before.insert_ensures(i as int, e);
            assert(i < before.len() ==> stored_before(e, before[i as int]));
            assert forall|a: int, b: int| 0 <= a < b < v@.len() implies stored_before(
                #[trigger] v@[a],
                #[trigger] v@[b],
            ) by {
                if b < i {
                    assert(stored_before(before[a], before[b]));
                } else if b == i {
                    assert(v@[a] == before[a]);
                } else {
                    assert(v@[b] == before[b - 1]);
                    let eb = encoding(before[b - 1].field_id, before[b - 1].point_id);
                    let ee = encoding(e.field_id, e.point_id);
                    let ei = encoding(before[i as int].field_id, before[i as int].point_id);
                    if b - 1 > i {
                        assert(stored_before(before[i as int], before[b - 1]));
                        lemma_bytes_less_transitive(ee, ei, eb);
                    }
                    if a < i {
                        assert(v@[a] == before[a]);
                        lemma_bytes_less_transitive(encoding(before[a].field_id, before[a].point_id), ee, eb);
                    } else if a > i {
                        assert(v@[a] == before[a - 1]);
                        assert(stored_before(before[a - 1], before[b - 1]));
                    }
                }
            }
            assert forall|x| v@.to_set().contains(x) <==> before.to_set().insert(e).contains(x) by {
                if before.to_set().insert(e).contains(x) {
                    if x == e {
                        assert(v@[i as int] == x);
                    } else {
                        let k = choose|k: int| 0 <= k < before.len() && before[k] == x;
                        if k < i {
                            assert(v@[k] == x);
                        } else {
                            assert(v@[k + 1] == x);
                        }
                    }
                }
                if v@.to_set().contains(x) {
                    let k = choose|k: int| 0 <= k < v@.len() && v@[k] == x;
                    if k < i {
                        assert(before[k] == x);
                    } else if k > i {
                        assert(before[k - 1] == x);
                    }
                }
            }
            assert(v@.to_set() =~= before.to_set().insert(e));
        }
        self.entries = v;
        true
    }

    /// Removes `e`; true when it was there.
    pub fn remove(&mut self, e: &CompressedStateEvent) -> (r: bool)
        ensures
            final(self)@ == old(self)@.remove(*e),
            r == old(self)@.contains(*e),
    {
        proof {
            use_type_invariant(&*self);
            lemma_ordered_no_duplicates(self.entries@);
        }
        let ghost before = self.entries@;
        let mut i: usize = 0;
        while i < self.entries.len()
            invariant
                self.entries@ == before,
                old(self)@ == before.to_set(),
                before.no_duplicates(),
                in_stored_order(before),
                0 <= i <= before.len(),
                forall|j: int| 0 <= j < i ==> before[j] != *e,
            decreases before.len() - i,
        {
            if self.entries[i] == *e {
                let mut v: Vec<CompressedStateEvent> = Vec::new();
                std::mem::swap(&mut v, &mut self.entries);
                let mut rest = v.split_off(i);
                rest.remove(0);
                v.append(&mut rest);
                proof {
                    let after = before.subrange(0, i as int) + before.subrange(i + 1, before.len() as int);
                    assert(v@ =~= after);
                    assert forall|x| after.to_set().contains(x) <==> before.to_set().remove(*e).contains(x) by {
                        if before.to_set().remove(*e).contains(x) {
                            let k = choose|k: int| 0 <= k < before.len() && before[k] == x;
                            if k < i {
                                assert(after[k] == x);
                            } else {
                                assert(k != i);
                                assert(after[k - 1] == x);
                            }
                        }
                        if after.to_set().contains(x) {
                            let k = choose|k: int| 0 <= k < after.len() && after[k] == x;
                            if k < i {
                                assert(before[k] == x);
                                assert(k != i);
                            } else {
                                assert(before[k + 1] == x);
                            }
                        }
                    }
                    assert(after.to_set() =~= before.to_set().remove(*e));
                    assert(before.to_set().contains(*e)) by {
                        assert(before[i as int] == *e);
                    }
                    assert(in_stored_order(after)) by {
                        assert forall|a: int, b: int| 0 <= a < b < after.len() implies stored_before(
                            #[trigger] after[a],
                            #[trigger] after[b],
                        ) by {
                            let ia = if a < i { a } else { a + 1 };
                            let ib = if b < i { b } else { b + 1 };
                            assert(after[a] == before[ia]);
                            assert(after[b] == before[ib]);
                            assert(stored_before(before[ia], before[ib]));
                        }
                    }
                    assert(after.no_duplicates()) by {
                        assert forall|a: int, b: int| 0 <= a < after.len() && 0 <= b < after.len() && a != b
                            implies after[a] != after[b] by {
                            let ia = if a < i { a } else { a + 1 };
                            let ib = if b < i { b } else { b + 1 };
                            assert(after[a] == before[ia]);
                            assert(after[b] == before[ib]);
                        }
                    }
                }
                self.entries = v;
                return true;
            }
            i = i + 1;
        }
        assert(self@ =~= old(self)@.remove(*e));
        false
    }

    /// A copy of the set.
    pub fn duplicate(&self) -> (r: Self)
        ensures
            r@ == self@,
    {
        proof {
            use_type_invariant(self);
        }
        CompressedState { entries: self.entries.clone() }
    }

    /// The entries of `self` that are not in `other`.
    pub fn difference(&self, other: &Self) -> (r: Self)
        ensures
            r@ == self@.difference(other@),
    {
        proof {
            use_type_invariant(self);
        }
        let mut out = CompressedState::new();
        let mut i: usize = 0;
        while i < self.entries.len()
            invariant
                0 <= i <= self.entries@.len(),
                out@ == self.entries@.subrange(0, i as int).to_set().difference(other@),
            decreases self.entries@.len() - i,
        {
            let e = self.entries[i];
            if !other.contains(&e) {
                out.insert(e);
            }
            proof {
                assert(self.entries@.subrange(0, i + 1) == self.entries@.subrange(0, i as int).push(e));
            }
            i = i + 1;
        }
        assert(self.entries@.subrange(0, self.entries@.len() as int) == self.entries@);
        out
    }

    /// Adds every entry of `other`.
    pub fn extend(&mut self, other: &Self)
        ensures
            final(self)@ == old(self)@.union(other@),
    {
        let ghost start = self@;
        let es = other.entries();
        let mut i: usize = 0;
        while i < es.len()
            invariant
                0 <= i <= es@.len(),
                es@.to_set() == other@,
                self@ == start.union(es@.subrange(0, i as int).to_set()),
            decreases es@.len() - i,
        {
            let e = es[i];
            self.insert(e);
            proof {
                assert(es@.subrange(0, i + 1) == es@.subrange(0, i as int).push(e));
            }
            i = i + 1;
        }
        assert(es@.subrange(0, es@.len() as int) == es@);
    }
}

} // verus!
