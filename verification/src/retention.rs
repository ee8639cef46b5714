//! What compaction leaves behind: how much it retains, and that it settles.
use crate::array::{Array, Values};
use crate::buffers::buffer_bytes;
use crate::compact::{
    applies, compacts, could_compact, covers_bytes, has_dangling, is_kept, is_referenced,
    is_remapped, is_wasteful, kept_buffers, kept_capacity, lemma_compacts, lemma_kept, lemma_told,
    plans, refers, shares, told_capacities, told_ids, total_capacity, Compaction,
    COMPACT_MAX_SKIP_BUFFERS, COMPACT_MIN_CAPACITY,
};
use crate::deep::{compacts_to, holds_views, rebuilt, settled};
use crate::indices::{positions, IndexSeq};
use crate::layout::laid_out;
use crate::selection::{runs_of, stretch_runs, takes};
use crate::take::selects;
use crate::views::{
    held_bytes, is_inline, referenced_bytes, view_buffer, view_len, view_valid, views_valid,
};
use arrow_buffer::Buffer;
use vstd::prelude::*;

verus! {

/// The capacities of the buffers at the first `k` of these positions together.
pub open spec fn capacity_at(capacities: Seq<usize>, kept: Seq<usize>, k: nat) -> int
    decreases k,
{
    if k == 0 {
        0
    } else {
        capacity_at(capacities, kept, (k - 1) as nat) + capacities[kept[k - 1] as int]
    }
}

/// What the buffers that a plan keeps have allocated.
pub open spec fn retained(capacities: Seq<usize>, plan: Compaction) -> int {
    match plan {
        Compaction::Prune { kept, remap } => capacity_at(capacities, kept@, kept@.len()),
        _ => total_capacity(capacities, capacities.len()),
    }
}

proof fn lemma_capacity_at(capacities: Seq<usize>, kept: Seq<usize>, last: usize, k: nat)
    requires
        k <= kept.len(),
    ensures
        capacity_at(capacities, kept.push(last), k) == capacity_at(capacities, kept, k),
    decreases k,
{
    if k > 0 {
        lemma_capacity_at(capacities, kept, last, (k - 1) as nat);
    }
}

pub(crate) proof fn lemma_kept_capacity(
    views: Seq<u128>,
    capacities: Seq<usize>,
    ids: Seq<usize>,
    k: nat,
)
    requires
        k <= usize::MAX,
    ensures
        ({
            let kept = kept_buffers(views, ids, k);
            &&& kept_capacity(views, capacities, ids, k) == capacity_at(
                capacities,
                kept,
                kept.len(),
            )
            &&& kept.len() == k ==> kept_capacity(views, capacities, ids, k) == total_capacity(
                capacities,
                k,
            )
        }),
    decreases k,
{
    if k > 0 {
        let before = kept_buffers(views, ids, (k - 1) as nat);
        lemma_kept_capacity(views, capacities, ids, (k - 1) as nat);
        lemma_kept(views, ids, (k - 1) as nat);
        if is_kept(views, ids, k - 1) {
            lemma_capacity_at(capacities, before, (k - 1) as usize, before.len());
        }
    }
}

/// Unless the bytes are copied, the buffers that are kept have allocated at most twice what the
/// views refer to, or a bounded amount more than that.
pub proof fn law_retention_is_bounded(
    views: Seq<u128>,
    capacities: Seq<usize>,
    ids: Seq<usize>,
    plan: Compaction,
)
    requires
        plans(views, capacities, ids, plan),
        capacities.len() <= usize::MAX,
        !has_dangling(views, capacities.len() as int),
        referenced_bytes(views, views.len()) <= usize::MAX,
    ensures
        ({
            let used = referenced_bytes(views, views.len());
            plan is Copy || retained(capacities, plan) <= 2 * used || retained(capacities, plan)
                <= used + COMPACT_MIN_CAPACITY
        }),
{
    lemma_kept_capacity(views, capacities, ids, capacities.len());
}

/// Buffers are dropped only where there are fewer to keep, and those that are kept are the
/// allocations that views refer to, each once.
pub proof fn law_pruning_keeps_what_is_referenced(
    views: Seq<u128>,
    capacities: Seq<usize>,
    ids: Seq<usize>,
    kept: Vec<usize>,
    remap: Vec<u32>,
)
    requires
        plans(views, capacities, ids, (Compaction::Prune { kept, remap })),
        capacities.len() <= usize::MAX,
    ensures
        kept@.len() < capacities.len(),
        forall|p: int|
            0 <= p < kept@.len() ==> #[trigger] kept@[p] < capacities.len() && is_referenced(
                views,
                views.len() as int,
                kept@[p] as int,
            ),
        forall|p: int, q: int|
            0 <= p < q < kept@.len() ==> ids[#[trigger] kept@[p] as int]
                != ids[#[trigger] kept@[q] as int],
        forall|i: int|
            0 <= i < capacities.len() && is_referenced(views, views.len() as int, i)
                ==> ids[kept@[#[trigger] remap@[i] as int] as int] == ids[i],
{
    lemma_kept(views, ids, capacities.len());
    assert forall|p: int, q: int| 0 <= p < q < kept@.len() implies ids[#[trigger] kept@[p] as int]
        != ids[#[trigger] kept@[q] as int] by {
        assert(is_kept(views, ids, kept@[p] as int));
        assert(is_kept(views, ids, kept@[q] as int));
        let _ = ids[kept@[p] as int];
    }
}

/// How many buffers a plan keeps.
pub open spec fn buffers_kept(capacities: Seq<usize>, plan: Compaction) -> nat {
    match plan {
        Compaction::Prune { kept, remap } => kept@.len(),
        _ => capacities.len(),
    }
}

/// No more buffers are kept than there are views.
proof fn lemma_kept_count(views: Seq<u128>, ids: Seq<usize>, k: nat)
    requires
        k <= usize::MAX,
    ensures
        kept_buffers(views, ids, k).len() <= views.len(),
{
    broadcast use vstd::seq_lib::seq_to_set_is_finite;

    let kept = kept_buffers(views, ids, k);
    let positions = Seq::new(kept.len(), |p: int| kept[p] as int);
    let targets = Seq::new(views.len(), |j: int| view_buffer(views[j]));
    lemma_kept(views, ids, k);
    assert(positions.no_duplicates()) by {
        assert forall|p: int, q: int| 0 <= p < q < kept.len() implies positions[p]
            != positions[q] by {
            assert(kept[p] < kept[q]);
        }
    }
    assert(positions.to_set().subset_of(targets.to_set())) by {
        assert forall|i: int| positions.to_set().contains(i) implies targets.to_set().contains(
            i,
        ) by {
            let p = choose|p: int| 0 <= p < positions.len() && positions[p] == i;
            assert(is_kept(views, ids, kept[p] as int));
            let j = choose|j: int| 0 <= j < views.len() && refers(#[trigger] views[j], i);
            assert(targets[j] == i);
        }
    }
    positions.unique_seq_to_set();
    targets.lemma_cardinality_of_set();
    vstd::set_lib::lemma_len_subset(positions.to_set(), targets.to_set());
}

/// Unless the bytes are copied, the list of buffers that is kept is short, or no longer than the
/// views are many: it cannot grow from one selection to the next.
pub proof fn law_buffer_list_is_bounded(
    views: Seq<u128>,
    capacities: Seq<usize>,
    ids: Seq<usize>,
    plan: Compaction,
)
    requires
        plans(views, capacities, ids, plan),
        capacities.len() <= usize::MAX,
        !has_dangling(views, capacities.len() as int),
        referenced_bytes(views, views.len()) <= usize::MAX,
    ensures
        plan is Copy || buffers_kept(capacities, plan) <= COMPACT_MAX_SKIP_BUFFERS || buffers_kept(
            capacities,
            plan,
        ) <= views.len(),
{
    lemma_kept_count(views, ids, capacities.len());
}

/// Another buffer index does not change how many bytes views refer to.
proof fn lemma_remapped_bytes(
    views: Seq<u128>,
    remap: Seq<u32>,
    new_views: Seq<u128>,
    k: nat,
)
    requires
        k <= views.len() == new_views.len(),
        forall|j: int|
            0 <= j < views.len() ==> is_remapped(views[j], remap, #[trigger] new_views[j]),
    ensures
        referenced_bytes(new_views, k) == referenced_bytes(views, k),
    decreases k,
{
    if k > 0 {
        lemma_remapped_bytes(views, remap, new_views, (k - 1) as nat);
        assert(is_remapped(views[k - 1], remap, new_views[k - 1]));
    }
}

/// Where each buffer is kept, all of them are.
pub(crate) proof fn lemma_all_kept(views: Seq<u128>, ids: Seq<usize>, k: nat)
    requires
        forall|i: int| 0 <= i < k ==> #[trigger] is_kept(views, ids, i),
    ensures
        kept_buffers(views, ids, k).len() == k,
    decreases k,
{
    if k > 0 {
        lemma_all_kept(views, ids, (k - 1) as nat);
        assert(is_kept(views, ids, k - 1));
    }
}

proof fn lemma_capacity_of_kept(
    capacities: Seq<usize>,
    kept: Seq<usize>,
    kept_capacities: Seq<usize>,
    k: nat,
)
    requires
        k <= kept.len() == kept_capacities.len(),
        forall|p: int|
            0 <= p < kept.len() ==> #[trigger] kept_capacities[p] == capacities[kept[p] as int],
    ensures
        total_capacity(kept_capacities, k) == capacity_at(capacities, kept, k),
    decreases k,
{
    if k > 0 {
        lemma_capacity_of_kept(capacities, kept, kept_capacities, (k - 1) as nat);
    }
}

/// The plan for what pruning leaves, where each allocation keeps its capacity, is to leave it.
proof fn lemma_pruned_is_left(
    views: Seq<u128>,
    capacities: Seq<usize>,
    ids: Seq<usize>,
    kept: Vec<usize>,
    remap: Vec<u32>,
    new_views: Seq<u128>,
    new_capacities: Seq<usize>,
    new_ids: Seq<usize>,
)
    requires
        capacities.len() <= usize::MAX,
        plans(views, capacities, ids, (Compaction::Prune { kept, remap })),
        new_views.len() == views.len(),
        forall|j: int|
            0 <= j < views.len() ==> is_remapped(views[j], remap@, #[trigger] new_views[j]),
        new_capacities.len() == kept@.len(),
        forall|p: int|
            0 <= p < kept@.len() ==> #[trigger] new_capacities[p] == capacities[kept@[p] as int],
        new_ids.len() == kept@.len(),
        forall|p: int, q: int|
            0 <= p < q < kept@.len() ==> #[trigger] new_ids[p] != #[trigger] new_ids[q],
    ensures
        plans(new_views, new_capacities, new_ids, Compaction::Unchanged),
{
    let count = kept@.len();
    law_pruning_keeps_what_is_referenced(views, capacities, ids, kept, remap);
    lemma_kept(views, ids, capacities.len());
    lemma_kept_capacity(views, capacities, ids, capacities.len());
    lemma_remapped_bytes(views, remap@, new_views, views.len());
    assert forall|p: int| 0 <= p < count implies #[trigger] is_kept(new_views, new_ids, p) by {
        let i = kept@[p] as int;
        assert(is_referenced(views, views.len() as int, i));
        let j = choose|j: int| 0 <= j < views.len() && refers(#[trigger] views[j], i);
        assert(is_remapped(views[j], remap@, new_views[j]));
        let place = remap@[i] as int;
        assert(ids[kept@[place] as int] == ids[kept@[p] as int]);
        assert(place == p);
        assert(refers(new_views[j], p));
    }
    lemma_all_kept(new_views, new_ids, count);
    lemma_kept_capacity(new_views, new_capacities, new_ids, count);
    lemma_capacity_of_kept(capacities, kept@, new_capacities, count);
}

/// What pruning leaves is left alone: a second compaction changes nothing.
pub proof fn law_pruning_settles(
    views: Seq<u128>,
    capacities: Seq<usize>,
    ids: Seq<usize>,
    kept: Vec<usize>,
    remap: Vec<u32>,
    new_views: Seq<u128>,
    new_capacities: Seq<usize>,
    new_ids: Seq<usize>,
    plan: Compaction,
)
    requires
        capacities.len() <= usize::MAX,
        plans(views, capacities, ids, (Compaction::Prune { kept, remap })),
        new_views.len() == views.len(),
        forall|j: int|
            0 <= j < views.len() ==> is_remapped(views[j], remap@, #[trigger] new_views[j]),
        new_capacities.len() == kept@.len(),
        forall|p: int|
            0 <= p < kept@.len() ==> #[trigger] new_capacities[p] == capacities[kept@[p] as int],
        new_ids.len() == kept@.len(),
        forall|p: int, q: int|
            0 <= p < q < kept@.len() ==> #[trigger] new_ids[p] != #[trigger] new_ids[q],
        plans(new_views, new_capacities, new_ids, plan),
    ensures
        plan is Unchanged,
{
    lemma_pruned_is_left(
        views,
        capacities,
        ids,
        kept,
        remap,
        new_views,
        new_capacities,
        new_ids,
    );
}

/// Views of the same lengths refer to as many bytes.
proof fn lemma_same_lengths(views: Seq<u128>, new_views: Seq<u128>, k: nat)
    requires
        k <= views.len() == new_views.len(),
        forall|j: int|
            0 <= j < views.len() ==> view_len(#[trigger] new_views[j]) == view_len(views[j]),
    ensures
        referenced_bytes(new_views, k) == referenced_bytes(views, k),
    decreases k,
{
    if k > 0 {
        lemma_same_lengths(views, new_views, (k - 1) as nat);
        assert(view_len(new_views[k - 1]) == view_len(views[k - 1]));
    }
}

/// Buffers hold no more than they have allocated.
proof fn lemma_held(buffers: Seq<Buffer>, capacities: Seq<usize>, k: nat)
    requires
        k <= buffers.len(),
        covers_bytes(buffers, capacities),
    ensures
        held_bytes(buffers, k) <= total_capacity(capacities, k),
    decreases k,
{
    if k > 0 {
        lemma_held(buffers, capacities, (k - 1) as nat);
        assert(capacities[k - 1] >= buffer_bytes(buffers[k - 1]).len());
    }
}

/// Buffers that are kept hold no more than they had allocated.
proof fn lemma_held_by_kept(
    buffers: Seq<Buffer>,
    capacities: Seq<usize>,
    kept: Seq<usize>,
    kept_handles: Seq<Buffer>,
    k: nat,
)
    requires
        k <= kept.len() == kept_handles.len(),
        covers_bytes(buffers, capacities),
        forall|p: int| 0 <= p < kept.len() ==> #[trigger] kept[p] < buffers.len(),
        forall|p: int|
            0 <= p < kept.len() ==> buffer_bytes(#[trigger] kept_handles[p]) == buffer_bytes(
                buffers[kept[p] as int],
            ),
    ensures
        held_bytes(kept_handles, k) <= capacity_at(capacities, kept, k),
    decreases k,
{
    if k > 0 {
        lemma_held_by_kept(buffers, capacities, kept, kept_handles, (k - 1) as nat);
        let from = kept[k - 1] as int;
        assert(capacities[from] >= buffer_bytes(buffers[from]).len());
        assert(buffer_bytes(kept_handles[k - 1]) == buffer_bytes(buffers[from]));
    }
}

/// The buffers hold at most twice what the views refer to, or a bounded amount more than that. That
/// says nothing of views that refer to more than the machine can address.
pub open spec fn is_lean(views: Seq<u128>, buffers: Seq<Buffer>) -> bool {
    let used = referenced_bytes(views, views.len());
    let held = held_bytes(buffers, buffers.len());
    used > usize::MAX || held <= 2 * used || held <= used + COMPACT_MIN_CAPACITY
}

/// The list of buffers is short, or no longer than the views are many. That says nothing of views
/// that refer to more than one buffer of a copy can hold.
pub open spec fn is_short(views: Seq<u128>, buffers: Seq<Buffer>) -> bool {
    ||| referenced_bytes(views, views.len()) > i32::MAX
    ||| buffers.len() <= COMPACT_MAX_SKIP_BUFFERS
    ||| buffers.len() <= views.len()
}

/// The views and buffers that a compaction leaves.
pub open spec fn left_by(
    views: Seq<u128>,
    buffers: Seq<Buffer>,
    compact: Option<(Vec<u128>, Vec<Buffer>)>,
) -> (Seq<u128>, Seq<Buffer>) {
    match compact {
        Some((v, b)) => (v@, b@),
        None => (views, buffers),
    }
}

/// Whatever the allocator did, what compaction leaves holds little beyond what its views refer to,
/// in few buffers.
pub proof fn law_compaction_bounds_what_is_held(
    views: Seq<u128>,
    buffers: Seq<Buffer>,
    compact: Option<(Vec<u128>, Vec<Buffer>)>,
)
    requires
        buffers.len() <= usize::MAX,
        views_valid(views, buffers),
        compacts(views, buffers, compact),
    ensures
        ({
            let (v, b) = left_by(views, buffers, compact);
            &&& referenced_bytes(v, v.len()) == referenced_bytes(views, views.len())
            &&& is_lean(v, b)
            &&& is_short(v, b)
        }),
{
    let used = referenced_bytes(views, views.len());
    lemma_told(views, buffers, compact);
    let (capacities, ids, plan) = choose|capacities: Seq<usize>, ids: Seq<usize>, plan: Compaction|
        covers_bytes(buffers, capacities) && shares(buffers, ids) && #[trigger] plans(
            views,
            capacities,
            ids,
            plan,
        ) && applies(plan, views, buffers, compact);
    lemma_compacts(views, buffers, compact);
    if let Some((v, b)) = compact {
        lemma_same_lengths(views, v@, views.len());
    }
    lemma_not_dangling(views, buffers);
    lemma_held(buffers, capacities, buffers.len());
    if used <= usize::MAX {
        law_retention_is_bounded(views, capacities, ids, plan);
        law_buffer_list_is_bounded(views, capacities, ids, plan);
        if let Compaction::Prune { kept, remap } = plan {
            let (v, b) = compact->0;
            lemma_kept(views, ids, buffers.len());
            lemma_held_by_kept(buffers, capacities, kept@, b@, kept@.len());
        }
    }
}

/// Unless the bytes are copied, what the buffers that are left told to have allocated is at most
/// twice what the views refer to, or a bounded amount more than that.
pub proof fn law_compaction_bounds_what_is_allocated(
    views: Seq<u128>,
    buffers: Seq<Buffer>,
    compact: Option<(Vec<u128>, Vec<Buffer>)>,
)
    requires
        buffers.len() <= usize::MAX,
        views_valid(views, buffers),
        compacts(views, buffers, compact),
        referenced_bytes(views, views.len()) <= usize::MAX,
    ensures
        exists|capacities: Seq<usize>, ids: Seq<usize>, plan: Compaction|
            {
                let used = referenced_bytes(views, views.len());
                &&& told_capacities(buffers, capacities)
                &&& told_ids(buffers, ids)
                &&& #[trigger] plans(views, capacities, ids, plan)
                &&& applies(plan, views, buffers, compact)
                &&& plan is Copy || retained(capacities, plan) <= 2 * used || retained(
                    capacities,
                    plan,
                ) <= used + COMPACT_MIN_CAPACITY
            },
{
    let (capacities, ids, plan) = choose|capacities: Seq<usize>, ids: Seq<usize>, plan: Compaction|
        told_capacities(buffers, capacities) && told_ids(buffers, ids) && #[trigger] plans(
            views,
            capacities,
            ids,
            plan,
        ) && applies(plan, views, buffers, compact);
    lemma_not_dangling(views, buffers);
    law_retention_is_bounded(views, capacities, ids, plan);
}

/// Views that can be answered do not dangle.
proof fn lemma_not_dangling(views: Seq<u128>, buffers: Seq<Buffer>)
    requires
        views_valid(views, buffers),
    ensures
        !has_dangling(views, buffers.len() as int),
{
    assert forall|j: int|
        0 <= j < views.len() && !is_inline(#[trigger] views[j]) implies view_buffer(views[j])
        < buffers.len() by {
        assert(view_valid(views[j], buffers));
    }
}

/// Where there is enough to be worth a scan, no more buffers are left than there are views: two
/// rows leave at most two.
pub proof fn law_compaction_bounds_the_buffer_list(
    views: Seq<u128>,
    buffers: Seq<Buffer>,
    compact: Option<(Vec<u128>, Vec<Buffer>)>,
)
    requires
        buffers.len() <= usize::MAX,
        views_valid(views, buffers),
        compacts(views, buffers, compact),
        referenced_bytes(views, views.len()) <= i32::MAX,
        buffers.len() > COMPACT_MAX_SKIP_BUFFERS || held_bytes(buffers, buffers.len())
            > COMPACT_MIN_CAPACITY,
    ensures
        left_by(views, buffers, compact).1.len() <= views.len(),
{
    lemma_told(views, buffers, compact);
    let (capacities, ids, plan) = choose|capacities: Seq<usize>, ids: Seq<usize>, plan: Compaction|
        covers_bytes(buffers, capacities) && shares(buffers, ids) && #[trigger] plans(
            views,
            capacities,
            ids,
            plan,
        ) && applies(plan, views, buffers, compact);
    lemma_not_dangling(views, buffers);
    lemma_held(buffers, capacities, buffers.len());
    lemma_kept_count(views, ids, buffers.len());
}

/// Every view array that compaction reaches in `a` keeps to `rule`.
pub open spec fn throughout(a: Array, rule: spec_fn(Seq<u128>, Seq<Buffer>) -> bool) -> bool
    decreases a,
{
    holds_views(a) ==> match a.values {
        Values::Views { views, buffers } => rule(views@, buffers@),
        Values::List { offsets, child } => throughout(*child, rule),
        Values::ListView { offsets, sizes, child } => throughout(*child, rule),
        Values::FixedSizeList { size, child } => throughout(*child, rule),
        Values::Struct { columns } => forall|k: int|
            0 <= k < columns@.len() ==> throughout(*#[trigger] columns@[k], rule),
        Values::Union { type_ids, slots, children } => forall|k: int|
            0 <= k < children@.len() ==> throughout(*#[trigger] children@[k], rule),
        _ => true,
    }
}

/// What is left alone by a compaction keeps to `rule`, and so does what it makes.
spec fn compaction_gives(rule: spec_fn(Seq<u128>, Seq<Buffer>) -> bool) -> bool {
    forall|views: Seq<u128>, buffers: Seq<Buffer>, compact: Option<(Vec<u128>, Vec<Buffer>)>|
        buffers.len() <= usize::MAX && views_valid(views, buffers) && #[trigger] compacts(
            views,
            buffers,
            compact,
        ) ==> rule(left_by(views, buffers, compact).0, left_by(views, buffers, compact).1)
}

/// What compaction leaves alone keeps to what compactions give.
proof fn lemma_settled_keeps(a: &Array, rule: spec_fn(Seq<u128>, Seq<Buffer>) -> bool)
    requires
        a.wf(),
        settled(*a),
        compaction_gives(rule),
    ensures
        throughout(*a, rule),
    decreases a,
{
    if holds_views(*a) {
        match &a.values {
            Values::Views { views, buffers } => {
                assert(buffers@.len() == buffers.len());
                assert(compacts(views@, buffers@, None));
            },
            Values::List { offsets, child } => lemma_settled_keeps(child, rule),
            Values::ListView { offsets, sizes, child } => lemma_settled_keeps(child, rule),
            Values::FixedSizeList { size, child } => lemma_settled_keeps(child, rule),
            Values::Struct { columns } => {
                assert forall|k: int| 0 <= k < columns@.len() implies throughout(
                    *#[trigger] columns@[k],
                    rule,
                ) by {
                    lemma_settled_keeps(&*columns@[k], rule);
                }
            },
            Values::Union { type_ids, slots, children } => {
                assert forall|k: int| 0 <= k < children@.len() implies throughout(
                    *#[trigger] children@[k],
                    rule,
                ) by {
                    lemma_settled_keeps(&*children@[k], rule);
                }
            },
            _ => {},
        }
    }
}

/// What compaction rebuilds keeps to what compactions give.
proof fn lemma_rebuilt_keeps(a: &Array, r: &Array, rule: spec_fn(Seq<u128>, Seq<Buffer>) -> bool)
    requires
        a.wf(),
        rebuilt(*a, *r),
        compaction_gives(rule),
    ensures
        throughout(*r, rule),
    decreases a,
{
    match (&a.values, &r.values) {
        (Values::Views { views, buffers }, Values::Views { views: v, buffers: b }) => {
            assert(buffers@.len() == buffers.len());
            assert(compacts(views@, buffers@, Some((*v, *b))));
        },
        (Values::List { offsets, child }, Values::List { offsets: o, child: c }) => {
            lemma_rebuilt_keeps(child, c, rule);
        },
        (
            Values::ListView { offsets, sizes, child },
            Values::ListView { offsets: o, sizes: s, child: c },
        ) => {
            lemma_rebuilt_keeps(child, c, rule);
        },
        (
            Values::FixedSizeList { size, child },
            Values::FixedSizeList { size: s, child: c },
        ) => {
            lemma_rebuilt_keeps(child, c, rule);
        },
        (Values::Struct { columns }, Values::Struct { columns: c }) => {
            assert forall|k: int| 0 <= k < c@.len() implies throughout(
                *#[trigger] c@[k],
                rule,
            ) by {
                assert(columns@[k].wf());
                if rebuilt(*columns@[k], *c@[k]) {
                    lemma_rebuilt_keeps(&*columns@[k], &*c@[k], rule);
                } else {
                    lemma_settled_keeps(&*columns@[k], rule);
                }
            }
        },
        (
            Values::Union { type_ids, slots, children },
            Values::Union { type_ids: t, slots: s, children: c },
        ) => {
            assert forall|k: int| 0 <= k < c@.len() implies throughout(
                *#[trigger] c@[k],
                rule,
            ) by {
                assert(children@[k].wf());
                if rebuilt(*children@[k], *c@[k]) {
                    lemma_rebuilt_keeps(&*children@[k], &*c@[k], rule);
                } else {
                    lemma_settled_keeps(&*children@[k], rule);
                }
            }
        },
        _ => {},
    }
}

/// Every view array that compaction reaches in `a` is lean, and its list of buffers short.
pub open spec fn is_lean_throughout(a: Array) -> bool {
    throughout(a, |views: Seq<u128>, buffers: Seq<Buffer>| is_lean_and_short(views, buffers))
}

/// What [`law_compaction_bounds_what_is_held`] gives.
pub open spec fn is_lean_and_short(views: Seq<u128>, buffers: Seq<Buffer>) -> bool {
    is_lean(views, buffers) && is_short(views, buffers)
}

/// What compaction gives is lean.
proof fn lemma_compacted_is_lean(a: &Array, r: &Array)
    requires
        a.wf(),
        compacts_to(*a, *r),
    ensures
        is_lean_throughout(*r),
{
    let rule = |views: Seq<u128>, buffers: Seq<Buffer>| is_lean_and_short(views, buffers);
    assert forall|
        views: Seq<u128>,
        buffers: Seq<Buffer>,
        compact: Option<(Vec<u128>, Vec<Buffer>)>,
    |
        buffers.len() <= usize::MAX && views_valid(views, buffers) && #[trigger] compacts(
            views,
            buffers,
            compact,
        ) implies rule(
        left_by(views, buffers, compact).0,
        left_by(views, buffers, compact).1,
    ) by {
        law_compaction_bounds_what_is_held(views, buffers, compact);
    }
    if rebuilt(*a, *r) {
        lemma_rebuilt_keeps(a, r, rule);
    } else {
        lemma_settled_keeps(a, rule);
    }
}

/// Compaction leaves no view array, however deep it stands, with much beyond what it refers to.
pub proof fn law_compaction_bounds_retention_at_any_depth(a: Array, r: Array)
    requires
        a.wf(),
        compacts_to(a, r),
    ensures
        is_lean_throughout(r),
{
    lemma_compacted_is_lean(&a, &r);
}

/// A selection retains little at any depth, whatever the array that it was made from retained.
pub proof fn law_selection_retains_little(values: Array, indices: Array, taken: Array)
    requires
        selects(values, indices, taken),
    ensures
        is_lean_throughout(taken),
{
    let ix = positions(indices);
    let mid = choose|mid: Array| #[trigger]
        takes(values, ix, mid) && laid_out(values, ix, indices.bits(), mid)
            && compacts_to(mid, taken);
    law_compaction_bounds_retention_at_any_depth(mid, taken);
}

/// The values of runs that were taken retain little too.
pub proof fn law_run_values_retain_little(
    a: Array,
    ix: IndexSeq,
    index_bits: Option<Seq<bool>>,
    r: Array,
)
    requires
        a.values is Runs,
        ix.len() > 0,
        laid_out(a, ix, index_bits, r),
    ensures
        r.values is Runs,
        is_lean_throughout(*r.values->Runs_values),
{
    if let (Values::Runs { end_type, ends, offset, values }, Values::Runs { values: v, .. }) = (
        &a.values,
        &r.values,
    ) {
        let runs = runs_of(ends@, *offset as int, ix);
        let heads = IndexSeq::all_of(stretch_runs(runs, ix.len()));
        let mid = choose|mid: Array| #[trigger]
            takes(**values, heads, mid) && laid_out(**values, heads, None, mid)
                && compacts_to(mid, **v);
        lemma_compacted_is_lean(&mid, v);
    }
}

/// Where views refer to bytes, one of them does not stand in itself.
proof fn lemma_some_view_refers(views: Seq<u128>, k: nat)
    requires
        k <= views.len(),
        referenced_bytes(views, k) > 0,
    ensures
        exists|j: int| 0 <= j < k && !is_inline(#[trigger] views[j]),
    decreases k,
{
    if k > 0 && is_inline(views[k - 1]) {
        lemma_some_view_refers(views, (k - 1) as nat);
    }
}

/// The plan for a copy that is not wasteful is to leave it.
proof fn lemma_copied_is_left(
    views: Seq<u128>,
    buffers: Seq<Buffer>,
    compact: (Vec<u128>, Vec<Buffer>),
    capacities: Seq<usize>,
    ids: Seq<usize>,
)
    requires
        applies(Compaction::Copy, views, buffers, Some(compact)),
        referenced_bytes(views, views.len()) <= i32::MAX,
        covers_bytes(compact.1@, capacities),
        !is_wasteful(
            total_capacity(capacities, capacities.len()),
            referenced_bytes(views, views.len()) as int,
        ),
        ids.len() == capacities.len(),
    ensures
        plans(compact.0@, capacities, ids, Compaction::Unchanged),
{
    let v = compact.0@;
    let b = compact.1@;
    lemma_same_lengths(views, v, views.len());
    if b.len() == 1 {
        lemma_some_view_refers(v, v.len());
        let j = choose|j: int| 0 <= j < v.len() && !is_inline(#[trigger] v[j]);
        assert(view_valid(v[j], b));
        assert(refers(v[j], 0));
        assert(is_kept(v, ids, 0));
        lemma_all_kept(v, ids, 1);
        lemma_kept_capacity(v, capacities, ids, 1);
    }
}

/// What was copied is left alone: a second compaction changes nothing, unless the allocator gave
/// the copy so much more than it needs that it is wasteful again.
pub proof fn law_copying_settles(
    views: Seq<u128>,
    buffers: Seq<Buffer>,
    compact: (Vec<u128>, Vec<Buffer>),
    capacities: Seq<usize>,
    ids: Seq<usize>,
    plan: Compaction,
)
    requires
        applies(Compaction::Copy, views, buffers, Some(compact)),
        referenced_bytes(views, views.len()) <= i32::MAX,
        covers_bytes(compact.1@, capacities),
        !is_wasteful(
            total_capacity(capacities, capacities.len()),
            referenced_bytes(views, views.len()) as int,
        ),
        ids.len() == capacities.len(),
        plans(compact.0@, capacities, ids, plan),
    ensures
        plan is Unchanged,
{
    lemma_copied_is_left(views, buffers, compact, capacities, ids);
}

/// What compaction makes of views and buffers can be left as it is: so it is where allocations keep
/// their capacities and copies are allocated to size.
proof fn lemma_compacted_is_left(
    views: Seq<u128>,
    buffers: Seq<Buffer>,
    compact: (Vec<u128>, Vec<Buffer>),
)
    requires
        buffers.len() <= usize::MAX,
        views_valid(views, buffers),
        could_compact(views, buffers, Some(compact)),
        referenced_bytes(views, views.len()) <= i32::MAX,
    ensures
        could_compact(compact.0@, compact.1@, None),
{
    let (capacities, ids, plan) = choose|capacities: Seq<usize>, ids: Seq<usize>, plan: Compaction|
        covers_bytes(buffers, capacities) && shares(buffers, ids) && #[trigger] plans(
            views,
            capacities,
            ids,
            plan,
        ) && applies(plan, views, buffers, Some(compact));
    let (v, b) = (compact.0@, compact.1@);
    let new_ids = Seq::new(b.len(), |p: int| p as usize);
    match plan {
        Compaction::Prune { kept, remap } => {
            let new_capacities = Seq::new(b.len(), |p: int| capacities[kept@[p] as int]);
            lemma_kept(views, ids, buffers.len());
            assert(covers_bytes(b, new_capacities)) by {
                assert forall|p: int| 0 <= p < b.len() implies #[trigger] new_capacities[p]
                    >= buffer_bytes(b[p]).len() by {
                    let from = kept@[p] as int;
                    assert(from < buffers.len());
                    assert(capacities[from] >= buffer_bytes(buffers[from]).len());
                }
            }
            assert(shares(b, new_ids));
            lemma_pruned_is_left(
                views,
                capacities,
                ids,
                kept,
                remap,
                v,
                new_capacities,
                new_ids,
            );
            assert(applies(Compaction::Unchanged, v, b, None));
        },
        Compaction::Copy => {
            let new_capacities = Seq::new(b.len(), |p: int| buffer_bytes(b[p]).len() as usize);
            if b.len() == 1 {
                assert(held_bytes(b, 0) == 0);
                assert(held_bytes(b, 1) == buffer_bytes(b[0]).len());
                assert(total_capacity(new_capacities, 0) == 0);
                assert(total_capacity(new_capacities, 1) == new_capacities[0]);
            }
            assert(covers_bytes(b, new_capacities));
            assert(shares(b, new_ids));
            lemma_copied_is_left(views, buffers, compact, new_capacities, new_ids);
            assert(applies(Compaction::Unchanged, v, b, None));
        },
        Compaction::Unchanged => {},
    }
}

/// The views and buffers can be left as they are: there are capacities and allocations for which
/// they would be. That says nothing of views that refer to more than one buffer of a copy can hold.
pub open spec fn could_be_left(views: Seq<u128>, buffers: Seq<Buffer>) -> bool {
    referenced_bytes(views, views.len()) <= i32::MAX ==> could_compact(views, buffers, None)
}

/// What compaction gives could be left as it is at any depth: there are capacities and allocations
/// of its buffers for which a second compaction changes nothing.
pub proof fn law_compaction_could_settle_at_any_depth(a: Array, r: Array)
    requires
        a.wf(),
        compacts_to(a, r),
    ensures
        throughout(r, |views: Seq<u128>, buffers: Seq<Buffer>| could_be_left(views, buffers)),
{
    let rule = |views: Seq<u128>, buffers: Seq<Buffer>| could_be_left(views, buffers);
    assert forall|
        views: Seq<u128>,
        buffers: Seq<Buffer>,
        compact: Option<(Vec<u128>, Vec<Buffer>)>,
    |
        buffers.len() <= usize::MAX && views_valid(views, buffers) && #[trigger] compacts(
            views,
            buffers,
            compact,
        ) implies rule(
        left_by(views, buffers, compact).0,
        left_by(views, buffers, compact).1,
    ) by {
        lemma_told(views, buffers, compact);
        law_compaction_bounds_what_is_held(views, buffers, compact);
        if let Some(made) = compact {
            if referenced_bytes(views, views.len()) <= i32::MAX {
                lemma_compacted_is_left(views, buffers, made);
            }
        }
    }
    if rebuilt(a, r) {
        lemma_rebuilt_keeps(&a, &r, rule);
    } else {
        lemma_settled_keeps(&a, rule);
    }
}

} // verus!
