//! Ordering of an event graph for state resolution.
//!
//! Each event points at the events it refers to (its edges). Events are emitted
//! oldest first: an event becomes ready once every event it refers to has been
//! emitted, and among the ready events the one with the highest power level,
//! then the earliest timestamp, then the smallest event id goes first.
use vstd::prelude::*;

verus! {

/// Strict lexicographic order on character sequences (a proper prefix comes first).
pub open spec fn seq_less(a: Seq<char>, b: Seq<char>) -> bool
    decreases a.len(),
{
    if a.len() == 0 {
        b.len() > 0
    } else if b.len() == 0 {
        false
    } else if a[0] != b[0] {
        (a[0] as int) < (b[0] as int)
    } else {
        seq_less(a.drop_first(), b.drop_first())
    }
}

/// What an event is ordered by: its sender's power level and its timestamp,
/// as returned for it by the caller's key function.
#[derive(Clone, Copy, Debug, PartialEq, Eq, Structural)]
pub struct SortKey {
    pub power_level: usize,
    pub origin_server_ts: u64,
}

/// Event `a` goes before event `b`: higher power level first, then earlier
/// timestamp, then smaller event id.
pub open spec fn goes_before(ka: SortKey, ida: Seq<char>, kb: SortKey, idb: Seq<char>) -> bool {
    ||| ka.power_level > kb.power_level
    ||| ka.power_level == kb.power_level && ka.origin_server_ts < kb.origin_server_ts
    ||| ka.power_level == kb.power_level && ka.origin_server_ts == kb.origin_server_ts && seq_less(ida, idb)
}

/// Event `v` may be emitted after the events `done`: it is an event of the
/// graph, not yet emitted, and every event it refers to has been emitted. An
/// edge to an event outside the graph is never satisfied.
pub open spec fn ready(graph: Seq<Vec<usize>>, done: Seq<usize>, v: int) -> bool {
    &&& 0 <= v < graph.len()
    &&& !done.contains(v as usize)
    &&& forall|j: int| 0 <= j < graph[v]@.len() ==> done.contains(#[trigger] graph[v]@[j])
}

/// `order` is what the sort emits: each event was ready when emitted and went
/// before every other ready event, and once the order ends no event is ready.
pub open spec fn sorted_order(
    graph: Seq<Vec<usize>>,
    keys: Seq<SortKey>,
    ids: Seq<Seq<char>>,
    order: Seq<usize>,
) -> bool {
    &&& forall|k: int|
        #![trigger order[k]]
        0 <= k < order.len() ==> {
            &&& ready(graph, order.take(k), order[k] as int)
            &&& forall|v: int|
                ready(graph, order.take(k), v) && v != order[k] ==> goes_before(
                    keys[order[k] as int],
                    ids[order[k] as int],
                    keys[v],
                    ids[v],
                )
        }
    &&& forall|v: int| !ready(graph, order, v)
}

/// Lexicographic comparison of two character lists.
pub(crate) fn chars_less(a: &Vec<char>, b: &Vec<char>) -> (r: bool)
    ensures
        r == seq_less(a@, b@),
{
    let mut i: usize = 0;
    assert(a@.skip(0) == a@ && b@.skip(0) == b@);
    while i < a.len() && i < b.len()
        invariant
            0 <= i <= a@.len(),
            i <= b@.len(),
            a@.take(i as int) == b@.take(i as int),
            seq_less(a@, b@) == seq_less(a@.skip(i as int), b@.skip(i as int)),
        decreases a@.len() - i,
    {
        if a[i] != b[i] {
            let r = a[i] < b[i];
            assert(a@.skip(i as int)[0] == a@[i as int]);
            assert(b@.skip(i as int)[0] == b@[i as int]);
            return r;
        }
        assert(a@.skip(i as int).drop_first() == a@.skip(i + 1));
        assert(b@.skip(i as int).drop_first() == b@.skip(i + 1));
        assert(a@.take(i + 1) == a@.take(i as int).push(a@[i as int]));
        assert(b@.take(i + 1) == b@.take(i as int).push(b@[i as int]));
        i = i + 1;
    }
    i == a.len() && i < b.len()
}

fn key_before(ka: SortKey, ida: &Vec<char>, kb: SortKey, idb: &Vec<char>) -> (r: bool)
    ensures
        r == goes_before(ka, ida@, kb, idb@),
{
    if ka.power_level != kb.power_level {
        ka.power_level > kb.power_level
    } else if ka.origin_server_ts != kb.origin_server_ts {
        ka.origin_server_ts < kb.origin_server_ts
    } else {
        chars_less(ida, idb)
    }
}

pub(crate) proof fn lemma_seq_less_irreflexive(a: Seq<char>)
    ensures
        !seq_less(a, a),
    decreases a.len(),
{
    if a.len() > 0 {
        lemma_seq_less_irreflexive(a.drop_first());
    }
}

pub(crate) proof fn lemma_seq_less_transitive(a: Seq<char>, b: Seq<char>, c: Seq<char>)
    requires
        seq_less(a, b),
        seq_less(b, c),
    ensures
        seq_less(a, c),
    decreases a.len(),
{
    if a.len() > 0 && b.len() > 0 && c.len() > 0 && a[0] == b[0] && b[0] == c[0] {
        lemma_seq_less_transitive(a.drop_first(), b.drop_first(), c.drop_first());
    }
}

pub(crate) proof fn lemma_seq_less_total(a: Seq<char>, b: Seq<char>)
    requires
        a != b,
    ensures
        seq_less(a, b) || seq_less(b, a),
    decreases a.len(),
{
    if a.len() > 0 && b.len() > 0 && a[0] == b[0] {
        if a.drop_first() == b.drop_first() {
            assert(a =~= seq![a[0]] + a.drop_first());
            assert(b =~= seq![b[0]] + b.drop_first());
        }
        lemma_seq_less_total(a.drop_first(), b.drop_first());
    } else if a.len() > 0 && b.len() > 0 {
        assert((a[0] as int) != (b[0] as int));
    } else if a.len() == 0 && b.len() == 0 {
        assert(a =~= b);
    }
}

proof fn lemma_seq_less_asymmetric(a: Seq<char>, b: Seq<char>)
    requires
        seq_less(a, b),
    ensures
        !seq_less(b, a),
{
    if seq_less(b, a) {
        lemma_seq_less_transitive(a, b, a);
        lemma_seq_less_irreflexive(a);
    }
}

/// The events of a graph, each given by its id.
pub open spec fn ids_view(ids: Seq<String>) -> Seq<Seq<char>> {
    ids.map_values(|s: String| s@)
}

fn is_ready(graph: &Vec<Vec<usize>>, done: &Vec<bool>, order: Ghost<Seq<usize>>, v: usize) -> (r: bool)
    requires
        v < graph@.len(),
        done@.len() == graph@.len(),
        forall|u: int| 0 <= u < done@.len() ==> (done@[u] <==> order@.contains(u as usize)),
        forall|u: int| 0 <= u < order@.len() ==> order@[u] < graph@.len(),
    ensures
        r == ready(graph@, order@, v as int),
{
    if done[v] {
        return false;
    }
    let edges = &graph[v];
    let mut j: usize = 0;
    while j < edges.len()
        invariant
            0 <= j <= edges@.len(),
            edges@ == graph@[v as int]@,
            done@.len() == graph@.len(),
            forall|u: int| 0 <= u < done@.len() ==> (done@[u] <==> order@.contains(u as usize)),
            forall|u: int| 0 <= u < order@.len() ==> order@[u] < graph@.len(),
            forall|i: int| 0 <= i < j ==> order@.contains(#[trigger] edges@[i]),
        decreases edges@.len() - j,
    {
        let t = edges[j];
        if t >= done.len() || !done[t] {
            proof {
                let o: Seq<usize> = order@;
                if o.contains(t) {
                    let k = choose|k: int| 0 <= k < o.len() && o[k] == t;
                    assert(o[k] < graph@.len());
                }
                assert(edges@[j as int] == t);
            }
            return false;
        }
        j = j + 1;
    }
    true
}

/// Sorts the event graph (node `i` refers to the nodes in `graph[i]`; ids
/// outside the graph are numbers past its end) into the order in which its
/// events are resolved: see `sorted_order`. The result lists nodes by index.
pub fn lexicographical_topological_sort(graph: &Vec<Vec<usize>>, keys: &Vec<SortKey>, ids: &Vec<String>) -> (r:
    Vec<usize>)
    requires
        graph@.len() == keys@.len(),
        graph@.len() == ids@.len(),
        forall|i: int, j: int| 0 <= i < j < ids@.len() ==> ids@[i]@ != ids@[j]@,
    ensures
        sorted_order(graph@, keys@, ids_view(ids@), r@),
{
    let n = graph.len();
    let ghost idv = ids_view(ids@);
    let mut names: Vec<Vec<char>> = Vec::new();
    let mut i: usize = 0;
    while i < n
        invariant
            0 <= i <= n,
            n == ids@.len(),
            names@.len() == i,
            idv == ids_view(ids@),
            forall|k: int| 0 <= k < i ==> (#[trigger] names@[k])@ == idv[k],
        decreases n - i,
    {
        let c = crate::text::chars_of(ids[i].as_str());
        names.push(c);
        i = i + 1;
    }
    let mut done: Vec<bool> = Vec::new();
    let mut i: usize = 0;
    while i < n
        invariant
            0 <= i <= n,
            done@.len() == i,
            forall|k: int| 0 <= k < i ==> !done@[k],
        decreases n - i,
    {
        done.push(false);
        i = i + 1;
    }
    let mut sorted: Vec<usize> = Vec::new();
    loop
        invariant
            n == graph@.len(),
            n == keys@.len(),
            n == names@.len(),
            idv == ids_view(ids@),
            idv.len() == n,
            forall|k: int| 0 <= k < n ==> (#[trigger] names@[k])@ == idv[k],
            forall|a: int, b: int| 0 <= a < n && 0 <= b < n && a != b ==> idv[a] != idv[b],
            done@.len() == n,
            forall|u: int| 0 <= u < n ==> (done@[u] <==> sorted@.contains(u as usize)),
            forall|u: int| 0 <= u < sorted@.len() ==> sorted@[u] < n,
            sorted@.no_duplicates(),
            forall|k: int|
                #![trigger sorted@[k]]
                0 <= k < sorted@.len() ==> {
                    &&& ready(graph@, sorted@.take(k), sorted@[k] as int)
                    &&& forall|v: int|
                        ready(graph@, sorted@.take(k), v) && v != sorted@[k] ==> goes_before(
                            keys@[sorted@[k] as int],
                            idv[sorted@[k] as int],
                            keys@[v],
                            idv[v],
                        )
                },
        decreases n - sorted@.len(),
    {
        let mut best: Option<usize> = None;
        let mut v: usize = 0;
        while v < n
            invariant
                0 <= v <= n,
                n == graph@.len(),
                n == keys@.len(),
                n == names@.len(),
                idv.len() == n,
                forall|k: int| 0 <= k < n ==> (#[trigger] names@[k])@ == idv[k],
                forall|a: int, b: int| 0 <= a < n && 0 <= b < n && a != b ==> idv[a] != idv[b],
                done@.len() == n,
                forall|u: int| 0 <= u < n ==> (done@[u] <==> sorted@.contains(u as usize)),
                forall|u: int| 0 <= u < sorted@.len() ==> sorted@[u] < n,
                best matches Some(b) ==> b < v && ready(graph@, sorted@, b as int),
                best is None ==> forall|u: int| 0 <= u < v ==> !ready(graph@, sorted@, u),
                best matches Some(b) ==> forall|u: int|
                    0 <= u < v && ready(graph@, sorted@, u) && u != b ==> goes_before(
                        keys@[b as int],
                        idv[b as int],
                        keys@[u],
                        idv[u],
                    ),
            decreases n - v,
        {
            if is_ready(graph, &done, Ghost(sorted@), v) {
                match best {
                    None => {
                        best = Some(v);
                    },
                    Some(b) => {
                        let before = key_before(keys[v], &names[v], keys[b], &names[b]);
                        proof {
                            let kv = keys@[v as int];
                            let kb = keys@[b as int];
                            if before {
                                assert forall|u: int|
                                    0 <= u < v && ready(graph@, sorted@, u) && u != v implies goes_before(
                                    kv,
                                    idv[v as int],
                                    keys@[u],
                                    idv[u],
                                ) by {
                                    if u != b {
                                        lemma_goes_before_transitive(
                                            kv,
                                            idv[v as int],
                                            kb,
                                            idv[b as int],
                                            keys@[u],
                                            idv[u],
                                        );
                                    }
                                }
                            } else {
                                assert(idv[v as int] != idv[b as int]);
                                lemma_goes_before_total(kb, idv[b as int], kv, idv[v as int]);
                            }
                        }
                        if before {
                            best = Some(v);
                        }
                    },
                }
            }
            v = v + 1;
        }
        match best {
            None => {
                return sorted;
            },
            Some(b) => {
                let ghost old_sorted = sorted@;
                sorted.push(b);
                done.set(b, true);
                proof {
                    assert(sorted@.take(old_sorted.len() as int) == old_sorted);
                    assert forall|k: int| 0 <= k < old_sorted.len() implies sorted@.take(k) == old_sorted.take(k) by {}
                    assert forall|u: int| 0 <= u < n implies (done@[u] <==> sorted@.contains(u as usize)) by {
                        if u == b {
                            assert(sorted@[old_sorted.len() as int] == b);
                        } else if old_sorted.contains(u as usize) {
                            let k = choose|k: int| 0 <= k < old_sorted.len() && old_sorted[k] == u;
                            assert(sorted@[k] == u);
                        } else if sorted@.contains(u as usize) {
                            let k = choose|k: int| 0 <= k < sorted@.len() && sorted@[k] == u;
                            assert(k < old_sorted.len());
                            assert(old_sorted[k] == u);
                        }
                    }
                    // the emitted nodes are distinct nodes of the graph, so at most n of them
                    assert(!old_sorted.contains(b));
                    assert(sorted@ == old_sorted.push(b));
                    let st = sorted@.to_set();
                    sorted@.unique_seq_to_set();
                    lemma_nodes_below_len(n);
                    assert(st.subset_of(Set::new(|u: usize| u < n)));
                    vstd::set_lib::lemma_len_subset(st, Set::new(|u: usize| u < n));
                }
            },
        }
    }
}

proof fn lemma_nodes_below_len(n: usize)
    ensures
        Set::new(|u: usize| u < n).finite(),
        Set::new(|u: usize| u < n).len() == n,
    decreases n,
{
    if n == 0 {
        assert(Set::new(|u: usize| u < n) =~= Set::<usize>::empty());
    } else {
        lemma_nodes_below_len((n - 1) as usize);
        assert(Set::new(|u: usize| u < n) =~= Set::new(|u: usize| u < (n - 1) as usize).insert(
            (n - 1) as usize,
        ));
    }
}

proof fn lemma_goes_before_transitive(
    ka: SortKey,
    ia: Seq<char>,
    kb: SortKey,
    ib: Seq<char>,
    kc: SortKey,
    ic: Seq<char>,
)
    requires
        goes_before(ka, ia, kb, ib),
        goes_before(kb, ib, kc, ic),
    ensures
        goes_before(ka, ia, kc, ic),
{
    if ka.power_level == kb.power_level && kb.power_level == kc.power_level
        && ka.origin_server_ts == kb.origin_server_ts && kb.origin_server_ts == kc.origin_server_ts {
        lemma_seq_less_transitive(ia, ib, ic);
    }
}

proof fn lemma_goes_before_total(ka: SortKey, ia: Seq<char>, kb: SortKey, ib: Seq<char>)
    requires
        ia != ib,
        !goes_before(kb, ib, ka, ia),
    ensures
        goes_before(ka, ia, kb, ib),
{
    lemma_seq_less_total(ia, ib);
}

/// The sort emits each event once, and only after every event it refers to.
pub proof fn lemma_sorted_respects_edges(
    graph: Seq<Vec<usize>>,
    keys: Seq<SortKey>,
    ids: Seq<Seq<char>>,
    order: Seq<usize>,
)
    requires
        sorted_order(graph, keys, ids, order),
    ensures
        order.no_duplicates(),
        forall|k: int, j: int|
            #![trigger graph[order[k] as int]@[j]]
            0 <= k < order.len() && 0 <= j < graph[order[k] as int]@.len() ==> order.take(k).contains(
                graph[order[k] as int]@[j],
            ),
{
    assert forall|a: int, b: int| 0 <= a < order.len() && 0 <= b < order.len() && a != b implies order[a]
        != order[b] by {
        let (lo, hi) = if a < b { (a, b) } else { (b, a) };
        assert(ready(graph, order.take(hi), order[hi] as int));
        assert(order.take(hi)[lo] == order[lo]);
    }
    assert forall|k: int, j: int|
        #![trigger graph[order[k] as int]@[j]]
        0 <= k < order.len() && 0 <= j < graph[order[k] as int]@.len() implies order.take(k).contains(
        graph[order[k] as int]@[j],
    ) by {
        assert(ready(graph, order.take(k), order[k] as int));
    }
}

/// The order is fully determined by the graph, the keys and the (distinct)
/// event ids: any two orders that both satisfy `sorted_order` are equal, so
/// every server that resolves the same graph resolves it the same way.
pub proof fn lemma_sorted_order_unique(
    graph: Seq<Vec<usize>>,
    keys: Seq<SortKey>,
    ids: Seq<Seq<char>>,
    o1: Seq<usize>,
    o2: Seq<usize>,
)
    requires
        graph.len() == keys.len(),
        graph.len() == ids.len(),
        forall|a: int, b: int| 0 <= a < ids.len() && 0 <= b < ids.len() && a != b ==> ids[a] != ids[b],
        sorted_order(graph, keys, ids, o1),
        sorted_order(graph, keys, ids, o2),
    ensures
        o1 == o2,
{
    let m = if o1.len() < o2.len() { o1.len() as int } else { o2.len() as int };
    assert forall|k: int| 0 <= k <= m implies o1.take(k) == o2.take(k) by {
        lemma_prefixes_agree(graph, keys, ids, o1, o2, k);
    }
    if o1.len() < o2.len() {
        let k = o1.len() as int;
        assert(o1.take(k) == o1);
        assert(ready(graph, o2.take(k), o2[k] as int));
        assert(!ready(graph, o1, o2[k] as int));
    } else if o2.len() < o1.len() {
        let k = o2.len() as int;
        assert(o2.take(k) == o2);
        assert(ready(graph, o1.take(k), o1[k] as int));
        assert(!ready(graph, o2, o1[k] as int));
    } else {
        assert(o1.take(m) == o1 && o2.take(m) == o2);
    }
}

proof fn lemma_prefixes_agree(
    graph: Seq<Vec<usize>>,
    keys: Seq<SortKey>,
    ids: Seq<Seq<char>>,
    o1: Seq<usize>,
    o2: Seq<usize>,
    k: int,
)
    requires
        graph.len() == keys.len(),
        graph.len() == ids.len(),
        forall|a: int, b: int| 0 <= a < ids.len() && 0 <= b < ids.len() && a != b ==> ids[a] != ids[b],
        sorted_order(graph, keys, ids, o1),
        sorted_order(graph, keys, ids, o2),
        0 <= k <= o1.len(),
        k <= o2.len(),
    ensures
        o1.take(k) == o2.take(k),
    decreases k,
{
    if k > 0 {
        lemma_prefixes_agree(graph, keys, ids, o1, o2, k - 1);
        let p = k - 1;
        let a = o1[p] as int;
        let b = o2[p] as int;
        assert(ready(graph, o1.take(p), a));
        assert(ready(graph, o2.take(p), b));
        if a != b {
            assert(goes_before(keys[a], ids[a], keys[b], ids[b]));
            assert(goes_before(keys[b], ids[b], keys[a], ids[a]));
            assert(ids[a] != ids[b]);
            if keys[a].power_level == keys[b].power_level && keys[a].origin_server_ts
                == keys[b].origin_server_ts {
                lemma_seq_less_asymmetric(ids[a], ids[b]);
            }
        }
        assert(o1.take(k) == o1.take(p).push(o1[p]));
        assert(o2.take(k) == o2.take(p).push(o2[p]));
    }
}

} // verus!
