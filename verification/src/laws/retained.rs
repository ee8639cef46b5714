//! What calls keep alive, read off the views and buffers that come out.
use crate::array::{Array, ArrayRef, Values};
use crate::buffers::buffer_bytes;
use crate::compact::{
    allocation_id, applies, compact_byte_view, has_dangling, is_kept, is_referenced, is_told_id,
    kept_buffers, kept_capacity, lemma_compacts, lemma_kept, lemma_told, plan_compaction, plans,
    refers, retains_little, tells_capacity, tells_same, told_capacities, told_ids, total_capacity,
    Compaction,
};
use crate::datatype::type_contains_views;
use crate::deep::{
    compacts_to, deep_compact_data, deep_compact_views, holds_views, lemma_compacts_to,
};
use crate::laws::numbers::null_at;
use crate::laws::slots::{lemma_same_shown, lemma_same_slot, same_shown, same_slot};
use crate::retention::{
    capacity_at, is_lean_and_short, is_lean_throughout,
    law_compaction_bounds_retention_at_any_depth, law_compaction_bounds_what_is_held,
    law_selection_retains_little, lemma_all_kept, lemma_kept_capacity, throughout,
};
use crate::take::{take, TakeOptions};
use crate::views::{
    held_bytes, is_inline, referenced_bytes, view_buffer, view_len, view_valid, views_valid,
};
use arrow_buffer::Buffer;
use vstd::prelude::*;

verus! {

/// The bytes that the first `k` views have outside themselves: a value of up to 12 bytes stands in
/// its view.
pub open spec fn shown_outside(views: Seq<u128>, k: nat) -> int
    decreases k,
{
    if k == 0 {
        0
    } else {
        let len = views[k - 1] as int % 0x1_0000_0000;
        shown_outside(views, (k - 1) as nat) + if len > 12 {
            len
        } else {
            0
        }
    }
}

/// The bytes of the first `k` buffers.
pub open spec fn bytes_of(buffers: Seq<Buffer>, k: nat) -> int
    decreases k,
{
    if k == 0 {
        0
    } else {
        bytes_of(buffers, (k - 1) as nat) + buffer_bytes(buffers[k - 1]).len()
    }
}

/// The buffers hold at most twice what the views show outside themselves, or a mebibyte more than
/// that; and they are at most sixteen, or no more than the views. The first is said of what the
/// machine can address, the second of what one buffer of a copy can hold.
pub open spec fn retains_little_beyond(views: Seq<u128>, buffers: Seq<Buffer>) -> bool {
    let shown = shown_outside(views, views.len());
    let held = bytes_of(buffers, buffers.len());
    &&& shown > usize::MAX || held <= 2 * shown || held <= shown + 1_048_576
    &&& shown > i32::MAX || buffers.len() <= 16 || buffers.len() <= views.len()
}

/// Every view array in `a` keeps to `rule`, however deep it stands in lists, list views, lists of
/// one size, maps, structs and unions.
pub open spec fn every_view_array(
    a: Array,
    rule: spec_fn(Seq<u128>, Seq<Buffer>) -> bool,
) -> bool
    decreases a,
{
    match a.values {
        Values::Views { views, buffers } => rule(views@, buffers@),
        Values::List { offsets, child } => every_view_array(*child, rule),
        Values::ListView { offsets, sizes, child } => every_view_array(*child, rule),
        Values::FixedSizeList { size, child } => every_view_array(*child, rule),
        Values::Struct { columns } => forall|k: int|
            0 <= k < columns@.len() ==> every_view_array(*#[trigger] columns@[k], rule),
        Values::Union { type_ids, slots, children } => forall|k: int|
            0 <= k < children@.len() ==> every_view_array(*#[trigger] children@[k], rule),
        _ => true,
    }
}

/// Every view array in `a` retains little beyond what it shows.
pub open spec fn retains_little_at_any_depth(a: Array) -> bool {
    every_view_array(
        a,
        |views: Seq<u128>, buffers: Seq<Buffer>| retains_little_beyond(views, buffers),
    )
}

/// The sums of what views show and of what buffers hold.
proof fn lemma_sums(views: Seq<u128>, buffers: Seq<Buffer>, j: nat, k: nat)
    requires
        j <= views.len(),
        k <= buffers.len(),
    ensures
        referenced_bytes(views, j) == shown_outside(views, j),
        held_bytes(buffers, k) == bytes_of(buffers, k),
    decreases j + k,
{
    if j > 0 {
        lemma_sums(views, buffers, (j - 1) as nat, k);
    }
    if k > 0 {
        lemma_sums(views, buffers, j, (k - 1) as nat);
    }
}

/// View arrays that are lean and short retain little.
proof fn lemma_little(views: Seq<u128>, buffers: Seq<Buffer>)
    requires
        is_lean_and_short(views, buffers),
    ensures
        retains_little_beyond(views, buffers),
{
    lemma_sums(views, buffers, views.len(), buffers.len());
}

/// No view array is out of reach of a rule that holds throughout.
proof fn lemma_everywhere(
    a: &Array,
    rule: spec_fn(Seq<u128>, Seq<Buffer>) -> bool,
    wider: spec_fn(Seq<u128>, Seq<Buffer>) -> bool,
)
    requires
        a.wf(),
        throughout(*a, rule),
        forall|views: Seq<u128>, buffers: Seq<Buffer>|
            rule(views, buffers) ==> #[trigger] wider(views, buffers),
    ensures
        every_view_array(*a, wider),
    decreases a,
{
    match &a.values {
        Values::Views { views, buffers } => {
            assert(holds_views(*a));
            assert(rule(views@, buffers@));
            assert(wider(views@, buffers@));
        },
        Values::List { offsets, child } => {
            assert(holds_views(**child) ==> holds_views(*a));
            lemma_everywhere(child, rule, wider);
        },
        Values::ListView { offsets, sizes, child } => {
            assert(holds_views(**child) ==> holds_views(*a));
            lemma_everywhere(child, rule, wider);
        },
        Values::FixedSizeList { size, child } => {
            assert(holds_views(**child) ==> holds_views(*a));
            lemma_everywhere(child, rule, wider);
        },
        Values::Struct { columns } => {
            assert forall|k: int| 0 <= k < columns@.len() implies every_view_array(
                *#[trigger] columns@[k],
                wider,
            ) by {
                let fields = a.data_type->Struct_0@;
                assert(columns@[k].data_type == fields[k].data_type);
                assert(holds_views(*columns@[k]) ==> holds_views(*a));
                assert(throughout(*columns@[k], rule));
                lemma_everywhere(&*columns@[k], rule, wider);
            }
        },
        Values::Union { type_ids, slots, children } => {
            assert forall|k: int| 0 <= k < children@.len() implies every_view_array(
                *#[trigger] children@[k],
                wider,
            ) by {
                let fields = a.union_fields();
                assert(children@[k].data_type == fields[k].1.data_type);
                assert(holds_views(*children@[k]) ==> holds_views(*a));
                assert(throughout(*children@[k], rule));
                lemma_everywhere(&*children@[k], rule, wider);
            }
        },
        _ => {},
    }
}

/// What is lean throughout retains little at any depth.
pub proof fn lemma_little_at_any_depth(a: &Array)
    requires
        a.wf(),
        is_lean_throughout(*a),
    ensures
        retains_little_at_any_depth(*a),
{
    let rule = |views: Seq<u128>, buffers: Seq<Buffer>| is_lean_and_short(views, buffers);
    let wider = |views: Seq<u128>, buffers: Seq<Buffer>| retains_little_beyond(views, buffers);
    assert forall|views: Seq<u128>, buffers: Seq<Buffer>| rule(views, buffers) implies
        #[trigger] wider(views, buffers) by {
        lemma_little(views, buffers);
    }
    lemma_everywhere(a, rule, wider);
}

/// Compacting an array leaves none of its view arrays, however deep it stands and whatever the type
/// is said to hold, with much beyond what it shows. It changes no slot.
pub proof fn law_compaction_leaves_little_in_every_view_array(array: ArrayRef, compact: ArrayRef)
    requires
        array.wf(),
        call_ensures(deep_compact_views, (array,), compact),
    ensures
        retains_little_at_any_depth(*compact),
        compact.wf(),
        compact.data_type == array.data_type,
        compact.len == array.len,
        forall|i: int|
            0 <= i < array.len ==> null_at(compact.nulls, i) == #[trigger] null_at(array.nulls, i),
        forall|i: int| 0 <= i < array.len ==> #[trigger] same_slot(*array, i, *compact, i),
{
    let (a, r): (&Array, &Array) = (&*array, &*compact);
    law_compaction_bounds_retention_at_any_depth(*a, *r);
    lemma_compacts_to(&*array, &*compact);
    lemma_little_at_any_depth(&*compact);
    assert forall|i: int| 0 <= i < array.len implies #[trigger] same_slot(
        *array,
        i,
        *compact,
        i,
    ) by {
        assert(compact.row(i) == array.row(i));
        lemma_same_slot(&*array, i, &*compact, i);
    }
    assert(compact.bits() == array.bits());
}

/// What is taken leaves none of its view arrays with much beyond what it shows, whatever the array
/// retained that it was taken from.
pub proof fn law_take_leaves_little_in_every_view_array(
    values: &Array,
    indices: &Array,
    options: Option<TakeOptions>,
    taken: ArrayRef,
)
    requires
        call_ensures(take, (values, indices, options), Ok(taken)),
    ensures
        retains_little_at_any_depth(*taken),
{
    let r: &Array = &*taken;
    law_selection_retains_little(*values, *indices, *r);
    lemma_little_at_any_depth(&*taken);
}

/// Compacting gives nothing only where every view array retains little already, and what it gives
/// retains little, with the same slots.
pub proof fn law_compacted_data_retains_little(array: &Array, compact: Option<Array>)
    requires
        array.wf(),
        call_ensures(deep_compact_data, (array,), compact),
    ensures
        compact is None ==> retains_little_at_any_depth(*array),
        compact matches Some(c) ==> {
            &&& retains_little_at_any_depth(c)
            &&& c.wf()
            &&& c.data_type == array.data_type
            &&& c.len == array.len
            &&& forall|i: int| 0 <= i < array.len ==> #[trigger] same_slot(*array, i, c, i)
        },
{
    match compact {
        None => {
            law_compaction_bounds_retention_at_any_depth(*array, *array);
            lemma_little_at_any_depth(array);
        },
        Some(c) => {
            assert(compacts_to(*array, c));
            law_compaction_bounds_retention_at_any_depth(*array, c);
            lemma_compacts_to(array, &c);
            lemma_little_at_any_depth(&c);
            assert forall|i: int| 0 <= i < array.len implies #[trigger] same_slot(
                *array,
                i,
                c,
                i,
            ) by {
                assert(c.row(i) == array.row(i));
                lemma_same_slot(array, i, &c, i);
            }
        },
    }
}

/// The first `k` of these together.
pub open spec fn sum_of(sizes: Seq<usize>, k: nat) -> int
    decreases k,
{
    if k == 0 {
        0
    } else {
        sum_of(sizes, (k - 1) as nat) + sizes[k - 1]
    }
}

proof fn lemma_sum_of(sizes: Seq<usize>, k: nat)
    ensures
        total_capacity(sizes, k) == sum_of(sizes, k),
    decreases k,
{
    if k > 0 {
        lemma_sum_of(sizes, (k - 1) as nat);
    }
}

/// Sums of larger sizes are larger.
proof fn lemma_sum_bound(sizes: Seq<usize>, bounds: Seq<usize>, k: nat)
    requires
        forall|i: int| 0 <= i < k ==> #[trigger] sizes[i] <= bounds[i],
    ensures
        sum_of(sizes, k) <= sum_of(bounds, k),
    decreases k,
{
    if k > 0 {
        lemma_sum_bound(sizes, bounds, (k - 1) as nat);
        assert(sizes[k - 1] <= bounds[k - 1]);
    }
}

/// What the buffers have allocated is worth no scan where there are none, or where they are at most
/// sixteen and have at most a mebibyte together.
pub open spec fn is_worth_no_scan(capacities: Seq<usize>) -> bool {
    capacities.len() == 0 || (capacities.len() <= 16 && sum_of(capacities, capacities.len())
        <= 1_048_576)
}

/// Exactly that much is said to be little.
pub proof fn law_little_is_a_mebibyte_in_sixteen_buffers(capacities: &Vec<usize>, small: bool)
    requires
        call_ensures(retains_little, (capacities,), small),
    ensures
        small == is_worth_no_scan(capacities@),
{
    lemma_sum_of(capacities@, capacities@.len());
}

/// Some view shows a value that stands in buffer `i`.
pub open spec fn shows_buffer(views: Seq<u128>, i: int) -> bool {
    exists|j: int|
        {
            &&& 0 <= j < views.len()
            &&& (#[trigger] views[j]) as int % 0x1_0000_0000 > 12
            &&& (views[j] as int / 0x1_0000_0000_0000_0000) % 0x1_0000_0000 == i
        }
}

/// Views show values in buffers that are there.
pub open spec fn shows_only(views: Seq<u128>, count: int) -> bool {
    forall|j: int|
        0 <= j < views.len() && (#[trigger] views[j]) as int % 0x1_0000_0000 > 12 ==> (
        views[j] as int / 0x1_0000_0000_0000_0000) % 0x1_0000_0000 < count
}

proof fn lemma_shows_buffer(views: Seq<u128>, i: int)
    ensures
        is_referenced(views, views.len() as int, i) == shows_buffer(views, i),
{
    if is_referenced(views, views.len() as int, i) {
        let j = choose|j: int| 0 <= j < views.len() && refers(#[trigger] views[j], i);
        assert(views[j] as int % 0x1_0000_0000 > 12);
    }
    if shows_buffer(views, i) {
        let j = choose|j: int|
            {
                &&& 0 <= j < views.len()
                &&& (#[trigger] views[j]) as int % 0x1_0000_0000 > 12
                &&& (views[j] as int / 0x1_0000_0000_0000_0000) % 0x1_0000_0000 == i
            };
        assert(refers(views[j], i));
    }
}

/// What is retained is at most twice what is shown, or a mebibyte more than that.
pub open spec fn is_little_beyond(retained: int, shown: int) -> bool {
    retained <= 2 * shown || retained <= shown + 1_048_576
}

/// The capacities of the buffers at these positions.
pub open spec fn at_positions(capacities: Seq<usize>, kept: Seq<usize>) -> Seq<usize> {
    Seq::new(kept.len(), |p: int| capacities[kept[p] as int])
}

/// What is planned. Buffers are left where they are worth no scan, where a view shows a buffer that
/// is not there, and where more is shown than can be addressed; otherwise only where each of them
/// is shown, each is another allocation, and they retain little beyond what is shown. Bytes are
/// copied only where the buffers retain more than that. Buffers are dropped where some of them are
/// not shown or are allocations of others: those that are kept are shown, each is another
/// allocation, they retain little beyond what is shown, and each buffer that is shown finds its own
/// allocation among them.
pub proof fn law_plans_keep_what_is_shown(
    views: &Vec<u128>,
    capacities: &Vec<usize>,
    ids: &Vec<usize>,
    plan: Compaction,
)
    requires
        ids@.len() == capacities@.len(),
        call_ensures(plan_compaction, (views, capacities, ids), plan),
    ensures
        ({
            let n = capacities@.len();
            let shown = shown_outside(views@, views@.len());
            let total = sum_of(capacities@, n);
            let exempt = is_worth_no_scan(capacities@) || !shows_only(views@, n as int) || shown
                > usize::MAX;
            &&& exempt ==> plan is Unchanged
            &&& plan is Unchanged && !exempt ==> {
                &&& is_little_beyond(total, shown)
                &&& forall|i: int| 0 <= i < n ==> #[trigger] shows_buffer(views@, i)
                &&& forall|i: int, j: int|
                    0 <= i < j < n ==> #[trigger] ids@[i] != #[trigger] ids@[j]
            }
            &&& plan is Copy ==> !is_little_beyond(total, shown)
            &&& plan matches Compaction::Prune { kept, remap } ==> {
                &&& kept@.len() < n
                &&& forall|p: int|
                    0 <= p < kept@.len() ==> #[trigger] kept@[p] < n && shows_buffer(
                        views@,
                        kept@[p] as int,
                    )
                &&& forall|p: int, q: int|
                    0 <= p < q < kept@.len() ==> #[trigger] kept@[p] < #[trigger] kept@[q]
                        && ids@[kept@[p] as int] != ids@[kept@[q] as int]
                &&& remap@.len() == n
                &&& forall|i: int|
                    0 <= i < n && #[trigger] shows_buffer(views@, i) ==> remap@[i] < kept@.len()
                        && ids@[kept@[remap@[i] as int] as int] == ids@[i]
                &&& is_little_beyond(
                    sum_of(at_positions(capacities@, kept@), kept@.len()),
                    shown,
                )
            }
        }),
{
    let n = capacities@.len();
    let kept = kept_buffers(views@, ids@, n);
    assert(n == capacities.len());
    lemma_sums(views@, Seq::empty(), views@.len(), 0);
    lemma_sum_of(capacities@, n);
    lemma_kept(views@, ids@, n);
    lemma_kept_capacity(views@, capacities@, ids@, n);
    lemma_capacity_sum(capacities@, kept, kept.len());
    lemma_kept_sum(views@, capacities@, ids@, n);
    assert forall|i: int| #[trigger] shows_buffer(views@, i) == is_referenced(
        views@,
        views@.len() as int,
        i,
    ) by {
        lemma_shows_buffer(views@, i);
    }
    assert(shows_only(views@, n as int) == !has_dangling(views@, n as int)) by {
        if !shows_only(views@, n as int) {
            let j = choose|j: int|
                0 <= j < views@.len() && (#[trigger] views@[j]) as int % 0x1_0000_0000 > 12 && !((
                views@[j] as int / 0x1_0000_0000_0000_0000) % 0x1_0000_0000 < n);
            assert(!is_inline(views@[j]) && view_buffer(views@[j]) >= n);
        }
    }
    if kept.len() == n {
        assert forall|i: int| 0 <= i < n implies #[trigger] is_kept(views@, ids@, i) by {
            lemma_full(views@, ids@, n, i);
        }
        assert forall|i: int| 0 <= i < n implies #[trigger] shows_buffer(views@, i) by {
            assert(is_kept(views@, ids@, i));
        }
        assert forall|i: int, j: int| 0 <= i < j < n implies #[trigger] ids@[i]
            != #[trigger] ids@[j] by {
            assert(is_kept(views@, ids@, i) && is_kept(views@, ids@, j));
        }
    }
    if let Compaction::Prune { kept: k, remap } = plan {
        assert forall|p: int| 0 <= p < k@.len() implies #[trigger] k@[p] < n && shows_buffer(
            views@,
            k@[p] as int,
        ) by {
            assert(is_kept(views@, ids@, k@[p] as int));
        }
        assert forall|p: int, q: int| 0 <= p < q < k@.len() implies #[trigger] k@[p]
            < #[trigger] k@[q] && ids@[k@[p] as int] != ids@[k@[q] as int] by {
            assert(is_kept(views@, ids@, k@[p] as int));
            assert(is_kept(views@, ids@, k@[q] as int));
            let _ = ids@[k@[p] as int];
        }
        assert forall|i: int| 0 <= i < n && #[trigger] shows_buffer(views@, i) implies remap@[i]
            < k@.len() && ids@[k@[remap@[i] as int] as int] == ids@[i] by {
            assert(is_referenced(views@, views@.len() as int, i));
            let _ = remap@[i];
        }
    }
}

/// Where as many are kept as there are, each is.
proof fn lemma_full(views: Seq<u128>, ids: Seq<usize>, k: nat, i: int)
    requires
        k <= usize::MAX,
        kept_buffers(views, ids, k).len() == k,
        0 <= i < k,
    ensures
        is_kept(views, ids, i),
    decreases k,
{
    lemma_kept(views, ids, (k - 1) as nat);
    if i < k - 1 {
        lemma_full(views, ids, (k - 1) as nat, i);
    }
}

proof fn lemma_capacity_sum(capacities: Seq<usize>, kept: Seq<usize>, k: nat)
    requires
        k <= kept.len(),
    ensures
        capacity_at(capacities, kept, k) == sum_of(at_positions(capacities, kept), k),
    decreases k,
{
    if k > 0 {
        lemma_capacity_sum(capacities, kept, (k - 1) as nat);
    }
}

/// What is kept has no more than all together.
proof fn lemma_kept_sum(views: Seq<u128>, capacities: Seq<usize>, ids: Seq<usize>, k: nat)
    ensures
        0 <= kept_capacity(views, capacities, ids, k) <= sum_of(capacities, k),
    decreases k,
{
    if k > 0 {
        lemma_kept_sum(views, capacities, ids, (k - 1) as nat);
    }
}

/// Compacting views changes none of the values that they show, nor any view that its value stands
/// in, and leaves little beyond those.
pub proof fn law_compacted_views_show_the_same(
    views: &Vec<u128>,
    buffers: &Vec<Buffer>,
    compact: Option<(Vec<u128>, Vec<Buffer>)>,
)
    requires
        views_valid(views@, buffers@),
        call_ensures(compact_byte_view, (views, buffers), compact),
    ensures
        compact is None ==> retains_little_beyond(views@, buffers@),
        compact matches Some((v, b)) ==> {
            &&& retains_little_beyond(v@, b@)
            &&& v@.len() == views@.len()
            &&& forall|j: int|
                0 <= j < views@.len() ==> #[trigger] same_shown(views@[j], buffers@, v@[j], b@)
            &&& forall|j: int|
                0 <= j < views@.len() && views@[j] as int % 0x1_0000_0000 <= 12
                    ==> #[trigger] v@[j] == views@[j]
        },
{
    assert(buffers@.len() == buffers.len());
    law_compaction_bounds_what_is_held(views@, buffers@, compact);
    lemma_told(views@, buffers@, compact);
    lemma_compacts(views@, buffers@, compact);
    match compact {
        None => lemma_little(views@, buffers@),
        Some((v, b)) => {
            lemma_little(v@, b@);
            assert forall|j: int| 0 <= j < views@.len() implies #[trigger] same_shown(
                views@[j],
                buffers@,
                v@[j],
                b@,
            ) by {
                assert(view_len(v@[j]) == view_len(views@[j]));
                assert(view_valid(views@[j], buffers@));
                lemma_same_shown(views@[j], buffers@, v@[j], b@);
            }
        },
    }
}

/// Views whose buffers cannot have allocated more than is worth a scan are left alone.
pub proof fn law_small_view_arrays_are_left_alone(
    views: &Vec<u128>,
    buffers: &Vec<Buffer>,
    bounds: Seq<usize>,
    compact: Option<(Vec<u128>, Vec<Buffer>)>,
)
    requires
        call_ensures(compact_byte_view, (views, buffers), compact),
        bounds.len() == buffers@.len(),
        is_worth_no_scan(bounds),
        forall|k: int, capacity: usize|
            0 <= k < buffers@.len() && #[trigger] call_ensures(
                Buffer::capacity,
                (&buffers@[k],),
                capacity,
            ) ==> capacity <= bounds[k],
    ensures
        compact is None,
{
    let (capacities, ids, plan) = choose|capacities: Seq<usize>, ids: Seq<usize>, plan: Compaction|
        told_capacities(buffers@, capacities) && told_ids(buffers@, ids) && #[trigger] plans(
            views@,
            capacities,
            ids,
            plan,
        ) && applies(plan, views@, buffers@, compact);
    assert forall|k: int| 0 <= k < capacities.len() implies #[trigger] capacities[k]
        <= bounds[k] by {
        assert(tells_capacity(buffers@[k], capacities[k]));
    }
    lemma_sum_bound(capacities, bounds, capacities.len());
    lemma_sum_of(capacities, capacities.len());
}

/// Views are left alone where each buffer is shown, no two tell to be the same, and what they
/// cannot have allocated more than is little beyond what is shown.
pub proof fn law_view_arrays_that_retain_little_are_left_alone(
    views: &Vec<u128>,
    buffers: &Vec<Buffer>,
    bounds: Seq<usize>,
    compact: Option<(Vec<u128>, Vec<Buffer>)>,
)
    requires
        call_ensures(compact_byte_view, (views, buffers), compact),
        bounds.len() == buffers@.len(),
        is_little_beyond(sum_of(bounds, bounds.len()), shown_outside(views@, views@.len())),
        forall|k: int| 0 <= k < buffers@.len() ==> #[trigger] shows_buffer(views@, k),
        forall|k: int, capacity: usize|
            0 <= k < buffers@.len() && #[trigger] call_ensures(
                Buffer::capacity,
                (&buffers@[k],),
                capacity,
            ) ==> capacity <= bounds[k],
        forall|j: int, k: int|
            0 <= j < k < buffers@.len() ==> !#[trigger] call_ensures(
                Buffer::ptr_eq,
                (&buffers@[j], &buffers@[k]),
                true,
            ),
    ensures
        compact is None,
{
    let (capacities, ids, plan) = choose|capacities: Seq<usize>, ids: Seq<usize>, plan: Compaction|
        told_capacities(buffers@, capacities) && told_ids(buffers@, ids) && #[trigger] plans(
            views@,
            capacities,
            ids,
            plan,
        ) && applies(plan, views@, buffers@, compact);
    let n = capacities.len();
    assert(n == buffers.len());
    assert forall|k: int| 0 <= k < n implies #[trigger] capacities[k] <= bounds[k] by {
        assert(tells_capacity(buffers@[k], capacities[k]));
    }
    lemma_sum_bound(capacities, bounds, n);
    lemma_kept_sum(views@, capacities, ids, n);
    lemma_sums(views@, Seq::empty(), views@.len(), 0);
    assert forall|k: int| 0 <= k < n implies #[trigger] ids[k] == k by {
        assert(is_told_id(buffers@, k, ids[k] as int));
        if ids[k] < k {
            assert(tells_same(buffers@[ids[k] as int], buffers@[k], true));
        }
    }
    assert forall|k: int| 0 <= k < n implies #[trigger] is_kept(views@, ids, k) by {
        assert(shows_buffer(views@, k));
        lemma_shows_buffer(views@, k);
    }
    lemma_all_kept(views@, ids, n);
}

/// The allocation of a buffer is that of the first before it that is said to be the same, or its
/// own.
pub proof fn law_allocations_go_by_the_first(same: &Vec<bool>, id: usize)
    requires
        call_ensures(allocation_id, (same,), id),
    ensures
        id <= same@.len(),
        id < same@.len() ==> same@[id as int],
        forall|j: int| 0 <= j < id ==> !#[trigger] same@[j],
{
}

/// Arrays in whose type no views are found are left alone.
pub proof fn law_arrays_without_views_are_left_alone(
    array: ArrayRef,
    compact: ArrayRef,
    data: Option<Array>,
)
    requires
        call_ensures(type_contains_views, (&*array.data_type,), false),
        call_ensures(deep_compact_views, (array,), compact),
        call_ensures(deep_compact_data, (&*array,), data),
    ensures
        *compact == *array,
        data is None,
{
}

} // verus!
