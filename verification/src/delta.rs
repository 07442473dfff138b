//! Layered storage of room states.
//!
//! A state frame is stored as a change (entries appended, entries disposed)
//! to a parent frame. The bottom layer holds a full state. When a layer would
//! grow too large, or the stack too deep, the change is folded into the layer
//! below, so that every frame stays cheap to load.
use vstd::prelude::*;

use crate::compressed::CompressedStateEvent;
use crate::state_set::{CompressedState, lemma_state_finite};

verus! {

broadcast use {lemma_state_finite, vstd::seq_lib::group_seq_properties};

/// The state obtained by adding `appended` to `base` and then taking
/// `disposed` away, as a frame is loaded on top of its parent.
pub open spec fn apply_diff(
    base: Set<CompressedStateEvent>,
    appended: Set<CompressedStateEvent>,
    disposed: Set<CompressedStateEvent>,
) -> Set<CompressedStateEvent> {
    base.union(appended).difference(disposed)
}

/// A change fits a base state when it appends only entries the base lacks and
/// disposes only entries the base has.
pub open spec fn diff_fits(
    base: Set<CompressedStateEvent>,
    appended: Set<CompressedStateEvent>,
    disposed: Set<CompressedStateEvent>,
) -> bool {
    &&& appended.disjoint(base)
    &&& disposed.subset_of(base)
}

/// Entries disposed by a parent layer, plus those its child disposes that the
/// parent did not itself append.
pub open spec fn merged_disposed_before(
    parent_appended: Set<CompressedStateEvent>,
    parent_disposed: Set<CompressedStateEvent>,
    disposed: Set<CompressedStateEvent>,
) -> Set<CompressedStateEvent> {
    parent_disposed.union(disposed.difference(parent_appended))
}

/// What the parent layer appends once a child change is folded into it.
pub open spec fn merged_appended(
    parent_appended: Set<CompressedStateEvent>,
    parent_disposed: Set<CompressedStateEvent>,
    appended: Set<CompressedStateEvent>,
    disposed: Set<CompressedStateEvent>,
) -> Set<CompressedStateEvent> {
    parent_appended.difference(disposed).union(
        appended.difference(merged_disposed_before(parent_appended, parent_disposed, disposed)),
    )
}

/// What the parent layer disposes once a child change is folded into it.
pub open spec fn merged_disposed(
    parent_appended: Set<CompressedStateEvent>,
    parent_disposed: Set<CompressedStateEvent>,
    appended: Set<CompressedStateEvent>,
    disposed: Set<CompressedStateEvent>,
) -> Set<CompressedStateEvent> {
    merged_disposed_before(parent_appended, parent_disposed, disposed).difference(appended)
}

/// One loaded layer: its frame id, the full state it stands for, and the
/// change it records against the layer below it.
pub struct FrameInfo {
    pub frame_id: i64,
    pub full_state: CompressedState,
    pub appended: CompressedState,
    pub disposed: CompressedState,
}

/// A layer as sets.
pub struct FrameView {
    pub frame_id: i64,
    pub full_state: Set<CompressedStateEvent>,
    pub appended: Set<CompressedStateEvent>,
    pub disposed: Set<CompressedStateEvent>,
}

impl View for FrameInfo {
    type V = FrameView;

    open spec fn view(&self) -> FrameView {
        FrameView {
            frame_id: self.frame_id,
            full_state: self.full_state@,
            appended: self.appended@,
            disposed: self.disposed@,
        }
    }
}

/// A stack of layers, bottom first, as sets.
pub open spec fn frames_view(frames: Seq<FrameInfo>) -> Seq<FrameView> {
    frames.map_values(|f: FrameInfo| f@)
}

/// The state below layer `i`: empty for the bottom layer.
pub open spec fn base_of(frames: Seq<FrameView>, i: int) -> Set<CompressedStateEvent> {
    if i == 0 {
        Set::empty()
    } else {
        frames[i - 1].full_state
    }
}

/// Every layer's full state is its change applied to the state below it, and
/// every change fits the state it applies to.
pub open spec fn stack_consistent(frames: Seq<FrameView>) -> bool {
    forall|i: int|
        0 <= i < frames.len() ==> {
            &&& diff_fits(base_of(frames, i), #[trigger] frames[i].appended, frames[i].disposed)
            &&& frames[i].full_state == apply_diff(
                base_of(frames, i),
                frames[i].appended,
                frames[i].disposed,
            )
        }
}

/// A change to be stored, and the frame it is stored against (none for a
/// bottom layer).
pub struct StateDiff {
    pub parent_id: Option<i64>,
    pub appended: CompressedState,
    pub disposed: CompressedState,
}

/// A stored change as sets.
pub struct StateDiffView {
    pub parent_id: Option<i64>,
    pub appended: Set<CompressedStateEvent>,
    pub disposed: Set<CompressedStateEvent>,
}

impl View for StateDiff {
    type V = StateDiffView;

    open spec fn view(&self) -> StateDiffView {
        StateDiffView { parent_id: self.parent_id, appended: self.appended@, disposed: self.disposed@ }
    }
}

/// Where and how a change is stored, given the stack of layers it applies to
/// (bottom first). A stack of more than three layers is always folded; a
/// change with `n` entries is folded into a parent layer with `p` entries when
/// `n * n >= 2 * diff_to_sibling * p`; otherwise it is stored on top of the
/// parent. Each fold makes `n` the new `diff_to_sibling`.
pub open spec fn spec_calc_delta(
    appended: Set<CompressedStateEvent>,
    disposed: Set<CompressedStateEvent>,
    diff_to_sibling: int,
    parents: Seq<FrameView>,
) -> StateDiffView
    decreases parents.len(),
{
    let diff_sum = (appended.len() + disposed.len()) as int;
    if parents.len() == 0 {
        StateDiffView { parent_id: None, appended, disposed }
    } else {
        let parent = parents.last();
        let parent_diff = parent.appended.len() + parent.disposed.len();
        if parents.len() > 3 || diff_sum * diff_sum >= 2 * diff_to_sibling * parent_diff {
            spec_calc_delta(
                merged_appended(parent.appended, parent.disposed, appended, disposed),
                merged_disposed(parent.appended, parent.disposed, appended, disposed),
                diff_sum,
                parents.drop_last(),
            )
        } else {
            StateDiffView { parent_id: Some(parent.frame_id), appended, disposed }
        }
    }
}

/// The number of entries in all changes of a stack.
pub open spec fn stack_size(parents: Seq<FrameView>) -> int
    decreases parents.len(),
{
    if parents.len() == 0 {
        0
    } else {
        stack_size(parents.drop_last()) + parents.last().appended.len()
            + parents.last().disposed.len()
    }
}

proof fn lemma_merged_sizes(
    pa: Set<CompressedStateEvent>,
    pd: Set<CompressedStateEvent>,
    a: Set<CompressedStateEvent>,
    d: Set<CompressedStateEvent>,
)
    requires
        pa.finite(),
        pd.finite(),
        a.finite(),
        d.finite(),
    ensures
        merged_appended(pa, pd, a, d).finite(),
        merged_disposed(pa, pd, a, d).finite(),
        merged_appended(pa, pd, a, d).len() + merged_disposed(pa, pd, a, d).len() <= pa.len()
            + pd.len() + a.len() + d.len(),
{
    let r1 = merged_disposed_before(pa, pd, d);
    vstd::set_lib::lemma_len_difference(d, pa);
    vstd::set_lib::lemma_len_union(pd, d.difference(pa));
    vstd::set_lib::lemma_len_difference(pa, d);
    vstd::set_lib::lemma_len_union(pa.difference(d), a.difference(r1));
    vstd::set_lib::lemma_set_difference_len(a, r1);
    vstd::set_lib::lemma_set_difference_len(r1, a);
    assert(r1.intersect(a) =~= a.intersect(r1));
}

/// Folding a change into the layer below it leaves the resulting state as it
/// was, and the folded change still fits the state below that layer.
pub proof fn lemma_merge_keeps_state(
    base: Set<CompressedStateEvent>,
    parent_appended: Set<CompressedStateEvent>,
    parent_disposed: Set<CompressedStateEvent>,
    appended: Set<CompressedStateEvent>,
    disposed: Set<CompressedStateEvent>,
)
    requires
        diff_fits(base, parent_appended, parent_disposed),
        diff_fits(apply_diff(base, parent_appended, parent_disposed), appended, disposed),
    ensures
        ({
            let n = merged_appended(parent_appended, parent_disposed, appended, disposed);
            let r = merged_disposed(parent_appended, parent_disposed, appended, disposed);
            &&& diff_fits(base, n, r)
            &&& apply_diff(base, n, r) == apply_diff(
                apply_diff(base, parent_appended, parent_disposed),
                appended,
                disposed,
            )
        }),
{
    let n = merged_appended(parent_appended, parent_disposed, appended, disposed);
    let r = merged_disposed(parent_appended, parent_disposed, appended, disposed);
    let mid = apply_diff(base, parent_appended, parent_disposed);
    assert(n.disjoint(base));
    assert(r.subset_of(base));
    assert(apply_diff(base, n, r) =~= apply_diff(mid, appended, disposed));
}

/// The state a stored change stands for, loaded on top of layer `k` of the
/// stack (bottom first; `k == 0` means no parent) reached through
/// `spec_calc_delta`: it is the state the change was computed for.
pub open spec fn stored_at(parents: Seq<FrameView>, r: StateDiffView, k: int) -> bool {
    &&& 0 <= k <= parents.len()
    &&& (if k == 0 {
        r.parent_id is None
    } else {
        r.parent_id == Some(parents[k - 1].frame_id)
    })
}

/// Storing a change through `spec_calc_delta` loses nothing: the change is
/// stored against some layer of the stack (or as a new bottom layer), it fits
/// that layer's state, and applying it there gives exactly the state that the
/// unmerged change gives on top of the whole stack.
pub proof fn lemma_calc_delta_reconstructs(
    appended: Set<CompressedStateEvent>,
    disposed: Set<CompressedStateEvent>,
    diff_to_sibling: int,
    parents: Seq<FrameView>,
)
    requires
        stack_consistent(parents),
        diff_fits(base_of(parents, parents.len() as int), appended, disposed),
    ensures
        ({
            let r = spec_calc_delta(appended, disposed, diff_to_sibling, parents);
            exists|k: int|
                #![trigger base_of(parents, k)]
                stored_at(parents, r, k) && diff_fits(base_of(parents, k), r.appended, r.disposed)
                    && apply_diff(base_of(parents, k), r.appended, r.disposed) == apply_diff(
                    base_of(parents, parents.len() as int),
                    appended,
                    disposed,
                )
        }),
    decreases parents.len(),
{
    let r = spec_calc_delta(appended, disposed, diff_to_sibling, parents);
    let len = parents.len() as int;
    let target = apply_diff(base_of(parents, len), appended, disposed);
    if len == 0 {
        assert(stored_at(parents, r, 0));
        assert(base_of(parents, 0) == Set::<CompressedStateEvent>::empty());
    } else {
        let parent = parents.last();
        let diff_sum = (appended.len() + disposed.len()) as int;
        let parent_diff = parent.appended.len() + parent.disposed.len();
        let rest = parents.drop_last();
        assert(diff_fits(base_of(parents, len - 1), parents[len - 1].appended, parents[len - 1].disposed));
        if len > 3 || diff_sum * diff_sum >= 2 * diff_to_sibling * parent_diff {
            let base = base_of(parents, len - 1);
            lemma_merge_keeps_state(base, parent.appended, parent.disposed, appended, disposed);
            let n = merged_appended(parent.appended, parent.disposed, appended, disposed);
            let m = merged_disposed(parent.appended, parent.disposed, appended, disposed);
            assert forall|i: int| 0 <= i < rest.len() implies base_of(rest, i) == base_of(parents, i) by {}
            assert(stack_consistent(rest)) by {
                assert forall|i: int| 0 <= i < rest.len() implies {
                    &&& diff_fits(base_of(rest, i), #[trigger] rest[i].appended, rest[i].disposed)
                    &&& rest[i].full_state == apply_diff(base_of(rest, i), rest[i].appended, rest[i].disposed)
                } by {
                    assert(rest[i] == parents[i]);
                    assert(base_of(rest, i) == base_of(parents, i));
                    assert(diff_fits(base_of(parents, i), parents[i].appended, parents[i].disposed));
                }
            }
            assert(base_of(rest, rest.len() as int) == base);
            lemma_calc_delta_reconstructs(n, m, diff_sum, rest);
            let k = choose|k: int|
                #![trigger base_of(rest, k)]
                stored_at(rest, r, k) && diff_fits(base_of(rest, k), r.appended, r.disposed)
                    && apply_diff(base_of(rest, k), r.appended, r.disposed) == apply_diff(
                    base_of(rest, rest.len() as int),
                    n,
                    m,
                );
            assert(base_of(rest, k) == base_of(parents, k));
            if k > 0 {
                assert(rest[k - 1] == parents[k - 1]);
            }
            assert(stored_at(parents, r, k));
        } else {
            assert(stored_at(parents, r, len));
        }
    }
}

/// A stored change sits at most four layers deep: whatever the stack, it
/// is stored against one of its three lowest layers (or as a bottom layer),
/// so a stack of more than three layers is always folded, never built on.
pub proof fn lemma_calc_delta_depth(
    appended: Set<CompressedStateEvent>,
    disposed: Set<CompressedStateEvent>,
    diff_to_sibling: int,
    parents: Seq<FrameView>,
)
    ensures
        exists|k: int|
            0 <= k <= 3 && #[trigger] stored_at(parents, spec_calc_delta(appended, disposed, diff_to_sibling, parents), k),
    decreases parents.len(),
{
    let r = spec_calc_delta(appended, disposed, diff_to_sibling, parents);
    let len = parents.len() as int;
    if len == 0 {
        assert(stored_at(parents, r, 0));
    } else {
        let parent = parents.last();
        let diff_sum = (appended.len() + disposed.len()) as int;
        let parent_diff = parent.appended.len() + parent.disposed.len();
        let rest = parents.drop_last();
        if len > 3 || diff_sum * diff_sum >= 2 * diff_to_sibling * parent_diff {
            let n = merged_appended(parent.appended, parent.disposed, appended, disposed);
            let m = merged_disposed(parent.appended, parent.disposed, appended, disposed);
            lemma_calc_delta_depth(n, m, diff_sum, rest);
            let k = choose|k: int| 0 <= k <= 3 && #[trigger] stored_at(rest, r, k);
            if k > 0 {
                assert(rest[k - 1] == parents[k - 1]);
            }
            assert(stored_at(parents, r, k));
        } else {
            assert(stored_at(parents, r, len));
        }
    }
}

proof fn lemma_stack_size_nonneg(parents: Seq<FrameView>)
    ensures
        stack_size(parents) >= 0,
    decreases parents.len(),
{
    if parents.len() > 0 {
        lemma_stack_size_nonneg(parents.drop_last());
    }
}

/// Folds a child change into its parent layer's change: an entry the child
/// disposes is dropped from the parent's appended entries if it was appended
/// there, and disposed otherwise; an entry the child appends is dropped from
/// the disposed entries if it was disposed, and appended otherwise.
pub fn merge_into_parent(
    parent_appended: &CompressedState,
    parent_disposed: &CompressedState,
    appended: &CompressedState,
    disposed: &CompressedState,
) -> (r: (CompressedState, CompressedState))
    ensures
        r.0@ == merged_appended(parent_appended@, parent_disposed@, appended@, disposed@),
        r.1@ == merged_disposed(parent_appended@, parent_disposed@, appended@, disposed@),
{
    let ghost pa = parent_appended@;
    let ghost pd = parent_disposed@;
    let ghost r1 = merged_disposed_before(pa, pd, disposed@);
    let mut parent_new = parent_appended.duplicate();
    let mut parent_removed = parent_disposed.duplicate();
    let ds = disposed.entries();
    let mut i: usize = 0;
    while i < ds.len()
        invariant
            0 <= i <= ds@.len(),
            ds@.no_duplicates(),
            ds@.to_set() == disposed@,
            parent_new@ == pa.difference(ds@.subrange(0, i as int).to_set()),
            parent_removed@ == pd.union(ds@.subrange(0, i as int).to_set().difference(pa)),
        decreases ds@.len() - i,
    {
        let removed = ds[i];
        proof {
            assert(!ds@.subrange(0, i as int).contains(removed)) by {
                if ds@.subrange(0, i as int).contains(removed) {
                    let k = choose|k: int| 0 <= k < i && ds@.subrange(0, i as int)[k] == removed;
                    assert(ds@[k] == ds@[i as int]);
                }
            }
        }
        if !parent_new.remove(&removed) {
            parent_removed.insert(removed);
        }
        proof {
            assert(ds@.subrange(0, i + 1) == ds@.subrange(0, i as int).push(removed));
            assert(parent_new@ =~= pa.difference(ds@.subrange(0, i + 1).to_set()));
            assert(parent_removed@ =~= pd.union(ds@.subrange(0, i + 1).to_set().difference(pa)));
        }
        i = i + 1;
    }
    assert(ds@.subrange(0, ds@.len() as int) == ds@);
    assert(parent_removed@ == r1);
    let as_ = appended.entries();
    let mut j: usize = 0;
    while j < as_.len()
        invariant
            0 <= j <= as_@.len(),
            as_@.no_duplicates(),
            as_@.to_set() == appended@,
            parent_removed@ == r1.difference(as_@.subrange(0, j as int).to_set()),
            parent_new@ == pa.difference(disposed@).union(
                as_@.subrange(0, j as int).to_set().difference(r1),
            ),
        decreases as_@.len() - j,
    {
        let new = as_[j];
        proof {
            assert(!as_@.subrange(0, j as int).contains(new)) by {
                if as_@.subrange(0, j as int).contains(new) {
                    let k = choose|k: int| 0 <= k < j && as_@.subrange(0, j as int)[k] == new;
                    assert(as_@[k] == as_@[j as int]);
                }
            }
        }
        if !parent_removed.remove(&new) {
            parent_new.insert(new);
        }
        proof {
            assert(as_@.subrange(0, j + 1) == as_@.subrange(0, j as int).push(new));
            assert(parent_removed@ =~= r1.difference(as_@.subrange(0, j + 1).to_set()));
            assert(parent_new@ =~= pa.difference(disposed@).union(
                as_@.subrange(0, j + 1).to_set().difference(r1),
            ));
        }
        j = j + 1;
    }
    assert(as_@.subrange(0, as_@.len() as int) == as_@);
    (parent_new, parent_removed)
}

/// Decides where a new change is stored (the storing itself is the caller's):
/// see `spec_calc_delta`. The bound on the number of entries keeps the size
/// comparison free of overflow.
pub fn calc_state_delta(
    appended: CompressedState,
    disposed: CompressedState,
    diff_to_sibling: usize,
    parent_states: Vec<FrameInfo>,
) -> (r: StateDiff)
    requires
        appended@.len() + disposed@.len() + stack_size(frames_view(parent_states@)) <= u32::MAX,
    ensures
        r@ == spec_calc_delta(
            appended@,
            disposed@,
            diff_to_sibling as int,
            frames_view(parent_states@),
        ),
    decreases parent_states@.len(),
{
    let ghost frames = frames_view(parent_states@);
    let mut parent_states = parent_states;
    proof {
        lemma_stack_size_nonneg(frames);
    }
    let diff_sum: usize = appended.len() + disposed.len();
    if parent_states.len() == 0 {
        return StateDiff { parent_id: None, appended, disposed };
    }
    let depth = parent_states.len();
    let parent = parent_states.pop().unwrap();
    proof {
        assert(frames_view(parent_states@) =~= frames.drop_last());
        assert(frames.last() == parent@);
    }
    proof {
        lemma_stack_size_nonneg(frames.drop_last());
    }
    let parent_diff: usize = parent.appended.len() + parent.disposed.len();
    let wide_sum = diff_sum as u128;
    proof {
        let sib = diff_to_sibling as u128;
        let pd = parent_diff as u128;
        assert(wide_sum * wide_sum <= 0xffff_ffffu128 * 0xffff_ffffu128) by (nonlinear_arith)
            requires
                wide_sum <= 0xffff_ffffu128,
        ;
        assert(2 * sib * pd <= 2 * 0xffff_ffff_ffff_ffffu128 * 0xffff_ffffu128) by (nonlinear_arith)
            requires
                sib <= 0xffff_ffff_ffff_ffffu128,
                pd <= 0xffff_ffffu128,
        ;
    }
    if depth > 3 || wide_sum * wide_sum >= 2 * (diff_to_sibling as u128) * (parent_diff as u128) {
        let (parent_new, parent_removed) = merge_into_parent(
            &parent.appended,
            &parent.disposed,
            &appended,
            &disposed,
        );
        proof {
            lemma_merged_sizes(parent.appended@, parent.disposed@, appended@, disposed@);
        }
        calc_state_delta(parent_new, parent_removed, diff_sum, parent_states)
    } else {
        StateDiff { parent_id: Some(parent.frame_id), appended, disposed }
    }
}

/// The layer for `frame_id`, loaded on top of its parent layer (or as a
/// bottom layer, whose full state is what it appends).
pub fn frame_info_on(
    parent: Option<&FrameInfo>,
    frame_id: i64,
    appended: CompressedState,
    disposed: CompressedState,
) -> (r: FrameInfo)
    ensures
        r.frame_id == frame_id,
        r.appended@ == appended@,
        r.disposed@ == disposed@,
        r.full_state@ == (match parent {
            Some(p) => apply_diff(p.full_state@, appended@, disposed@),
            None => appended@,
        }),
{
    match parent {
        Some(p) => {
            let mut full_state = p.full_state.duplicate();
            full_state.extend(&appended);
            let ds = disposed.entries();
            let ghost grown = full_state@;
            let mut i: usize = 0;
            while i < ds.len()
                invariant
                    0 <= i <= ds@.len(),
                    ds@.to_set() == disposed@,
                    full_state@ == grown.difference(ds@.subrange(0, i as int).to_set()),
                decreases ds@.len() - i,
            {
                let e = ds[i];
                full_state.remove(&e);
                proof {
                    assert(ds@.subrange(0, i + 1) == ds@.subrange(0, i as int).push(e));
                    assert(full_state@ =~= grown.difference(ds@.subrange(0, i + 1).to_set()));
                }
                i = i + 1;
            }
            assert(ds@.subrange(0, ds@.len() as int) == ds@);
            FrameInfo { frame_id, full_state, appended, disposed }
        },
        None => {
            let full_state = appended.duplicate();
            FrameInfo { frame_id, full_state, appended, disposed }
        },
    }
}

/// The change that turns the parent state into `new_state`: the entries it
/// lacks, and the entries it has that `new_state` does not. With no parent the
/// whole new state is appended.
pub fn state_diff(parent_full: Option<&CompressedState>, new_state: CompressedState) -> (r: (
    CompressedState,
    CompressedState,
))
    ensures
        ({
            let base = match parent_full {
                Some(p) => p@,
                None => Set::empty(),
            };
            &&& r.0@ == new_state@.difference(base)
            &&& r.1@ == base.difference(new_state@)
            &&& diff_fits(base, r.0@, r.1@)
            &&& apply_diff(base, r.0@, r.1@) == new_state@
        }),
{
    match parent_full {
        Some(p) => {
            let appended = new_state.difference(p);
            let disposed = p.difference(&new_state);
            assert(apply_diff(p@, appended@, disposed@) =~= new_state@);
            (appended, disposed)
        },
        None => {
            let disposed = CompressedState::new();
            assert(apply_diff(Set::empty(), new_state@, disposed@) =~= new_state@);
            assert(new_state@.difference(Set::<CompressedStateEvent>::empty()) =~= new_state@);
            (new_state, disposed)
        },
    }
}

/// The entries of `state` that fill `field_id`.
pub open spec fn entries_of_field(state: Set<CompressedStateEvent>, field_id: i64) -> Set<
    CompressedStateEvent,
> {
    state.filter(|e: CompressedStateEvent| e.field_id == field_id)
}

/// A state fills each field at most once.
pub open spec fn one_entry_per_field(state: Set<CompressedStateEvent>) -> bool {
    forall|a: CompressedStateEvent, b: CompressedStateEvent|
        #![trigger state.contains(a), state.contains(b)]
        state.contains(a) && state.contains(b) && a.field_id == b.field_id ==> a == b
}

/// An entry of the state that fills the same field as `entry`, found by the
/// leading bytes of its encoding, if there is one.
pub fn find_field_entry(state: &CompressedState, field_id: i64) -> (r: Option<CompressedStateEvent>)
    ensures
        r is None <==> entries_of_field(state@, field_id) == Set::<CompressedStateEvent>::empty(),
        r matches Some(e) ==> state@.contains(e) && e.field_id == field_id,
{
    let es = state.entries();
    let mut i: usize = 0;
    while i < es.len()
        invariant
            0 <= i <= es@.len(),
            es@.to_set() == state@,
            forall|j: int| 0 <= j < i ==> es@[j].field_id != field_id,
        decreases es@.len() - i,
    {
        let e = es[i];
        let hit = e.starts_with_field(field_id);
        proof {
            crate::compressed::lemma_field_prefix(e.field_id, e.point_id, field_id);
        }
        if hit {
            assert(state@.contains(e));
            assert(entries_of_field(state@, field_id).contains(e));
            return Some(e);
        }
        i = i + 1;
    }
    assert(entries_of_field(state@, field_id) =~= Set::<CompressedStateEvent>::empty()) by {
        assert forall|e: CompressedStateEvent| state@.contains(e) implies e.field_id != field_id by {
            let k = choose|k: int| 0 <= k < es@.len() && es@[k] == e;
        }
    }
    None
}

/// The change that puts `entry` into the parent state in place of the entry
/// that filled its field before; `None` when the parent state already holds
/// exactly `entry` for that field, so that nothing changes.
pub fn state_change_for_entry(parent_full: Option<&CompressedState>, entry: CompressedStateEvent) -> (r:
    Option<(CompressedState, CompressedState)>)
    ensures
        ({
            let base = match parent_full {
                Some(p) => p@,
                None => Set::empty(),
            };
            &&& r is None ==> base.contains(entry)
            &&& r matches Some(c) ==> {
                &&& c.0@ == set![entry]
                &&& c.1@.subset_of(entries_of_field(base, entry.field_id))
                &&& c.1@.len() <= 1
                &&& (c.1@ == Set::<CompressedStateEvent>::empty() <==> entries_of_field(base, entry.field_id)
                    == Set::<CompressedStateEvent>::empty())
                &&& !c.1@.contains(entry)
            }
            &&& one_entry_per_field(base) ==> (r is None <==> base.contains(entry))
        }),
{
    let replaces = match parent_full {
        Some(p) => find_field_entry(p, entry.field_id),
        None => None,
    };
    let ghost base = match parent_full {
        Some(p) => p@,
        None => Set::<CompressedStateEvent>::empty(),
    };
    proof {
        if parent_full is None {
            assert(entries_of_field(base, entry.field_id) =~= Set::<CompressedStateEvent>::empty());
        }
    }
    match replaces {
        Some(old_entry) => {
            if old_entry == entry {
                return None;
            }
            let mut appended = CompressedState::new();
            appended.insert(entry);
            let mut disposed = CompressedState::new();
            disposed.insert(old_entry);
            proof {
                assert(appended@ =~= set![entry]);
                assert(disposed@ =~= set![old_entry]);
                assert(entries_of_field(base, entry.field_id).contains(old_entry));
                if one_entry_per_field(base) && base.contains(entry) {
                    assert(base.contains(old_entry));
                }
            }
            Some((appended, disposed))
        },
        None => {
            let mut appended = CompressedState::new();
            appended.insert(entry);
            let disposed = CompressedState::new();
            proof {
                assert(appended@ =~= set![entry]);
                if base.contains(entry) {
                    assert(entries_of_field(base, entry.field_id).contains(entry));
                }
            }
            Some((appended, disposed))
        },
    }
}

} // verus!
