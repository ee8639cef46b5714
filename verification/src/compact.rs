//! Bounding what an array of views keeps alive beyond what its views refer to.
use crate::buffers::buffer_bytes;
use crate::views::{
    collect_garbage, held_bytes, is_inline, lemma_with_buffer, pack_view, referenced_bytes,
    same_values, unpack_view, view_buffer, view_bytes, view_len, view_offset, view_prefix,
    view_valid, views_valid, MAX_INLINE_VIEW_LEN,
};
use arrow_buffer::Buffer;
use vstd::prelude::*;

verus! {

/// Up to this many bytes, what is retained costs less than a scan of the views.
pub const COMPACT_MIN_CAPACITY: usize = 1_048_576;

/// A list of buffers this short has not been growing from one selection to the next.
pub const COMPACT_MAX_SKIP_BUFFERS: usize = 16;

/// What to do with the buffers of a view array.
#[derive(Debug, PartialEq, Eq)]
pub enum Compaction {
    /// Leave them.
    Unchanged,
    /// Copy the bytes that the views refer to.
    Copy,
    /// Keep the buffers at these positions, and let the views of buffer `i` refer to the one that
    /// is kept at `remap[i]`.
    Prune { kept: Vec<usize>, remap: Vec<u32> },
}

/// The first `k` capacities together.
pub open spec fn total_capacity(capacities: Seq<usize>, k: nat) -> int
    decreases k,
{
    if k == 0 {
        0
    } else {
        total_capacity(capacities, (k - 1) as nat) + capacities[k - 1]
    }
}

/// Too little is retained to be worth a scan.
pub open spec fn is_small(capacities: Seq<usize>) -> bool {
    capacities.len() == 0 || (total_capacity(capacities, capacities.len()) <= COMPACT_MIN_CAPACITY
        && capacities.len() <= COMPACT_MAX_SKIP_BUFFERS)
}

/// The view refers to buffer `i`.
pub open spec fn refers(view: u128, i: int) -> bool {
    !is_inline(view) && view_buffer(view) == i
}

/// One of the first `n` views refers to buffer `i`.
pub open spec fn is_referenced(views: Seq<u128>, n: int, i: int) -> bool {
    exists|j: int| 0 <= j < n && refers(#[trigger] views[j], i)
}

/// A view refers to a buffer that is not there.
pub open spec fn has_dangling(views: Seq<u128>, buffers: int) -> bool {
    exists|j: int|
        0 <= j < views.len() && !is_inline(#[trigger] views[j]) && view_buffer(views[j]) >= buffers
}

/// Buffer `i` is the first of its allocation that a view refers to.
pub open spec fn is_kept(views: Seq<u128>, ids: Seq<usize>, i: int) -> bool {
    &&& is_referenced(views, views.len() as int, i)
    &&& forall|j: int|
        0 <= j < i && is_referenced(views, views.len() as int, j) ==> #[trigger] ids[j] != ids[i]
}

/// Which of the first `k` buffers are kept.
pub open spec fn kept_buffers(views: Seq<u128>, ids: Seq<usize>, k: nat) -> Seq<usize>
    decreases k,
{
    if k == 0 {
        Seq::empty()
    } else if is_kept(views, ids, k - 1) {
        kept_buffers(views, ids, (k - 1) as nat).push((k - 1) as usize)
    } else {
        kept_buffers(views, ids, (k - 1) as nat)
    }
}

/// The capacities of those together.
pub open spec fn kept_capacity(
    views: Seq<u128>,
    capacities: Seq<usize>,
    ids: Seq<usize>,
    k: nat,
) -> int
    decreases k,
{
    if k == 0 {
        0
    } else {
        kept_capacity(views, capacities, ids, (k - 1) as nat) + if is_kept(views, ids, k - 1) {
            capacities[k - 1] as int
        } else {
            0
        }
    }
}

/// What is kept beyond what is referred to is large, both against that and by itself.
pub open spec fn is_wasteful(kept: int, used: int) -> bool {
    kept > 2 * used && kept - used > COMPACT_MIN_CAPACITY
}

/// There is nothing to do, or nothing that can be done: too little is retained, a view dangles, or
/// the views refer to more than the machine can address.
pub open spec fn is_left(views: Seq<u128>, capacities: Seq<usize>) -> bool {
    ||| is_small(capacities)
    ||| has_dangling(views, capacities.len() as int)
    ||| referenced_bytes(views, views.len()) > usize::MAX
}

/// The compaction for buffers of these capacities, of which those with the same id are one
/// allocation.
pub open spec fn plans(
    views: Seq<u128>,
    capacities: Seq<usize>,
    ids: Seq<usize>,
    plan: Compaction,
) -> bool {
    let n = capacities.len();
    let kept = kept_buffers(views, ids, n);
    if is_left(views, capacities) {
        plan is Unchanged
    } else if is_wasteful(
        kept_capacity(views, capacities, ids, n),
        referenced_bytes(views, views.len()) as int,
    ) {
        plan is Copy
    } else if kept.len() == n {
        plan is Unchanged
    } else {
        &&& plan matches Compaction::Prune { kept: k, remap }
        &&& k@ == kept
        &&& remap@.len() == n
        &&& forall|i: int|
            0 <= i < n && is_referenced(views, views.len() as int, i) ==> {
                &&& #[trigger] remap@[i] < kept.len()
                &&& ids[kept[remap@[i] as int] as int] == ids[i]
            }
    }
}

/// Whether too little is retained to be worth a scan.
pub fn retains_little(capacities: &Vec<usize>) -> (small: bool)
    ensures
        small == is_small(capacities@),
{
    let mut total: u128 = 0;
    let mut k: usize = 0;
    while k < capacities.len()
        invariant
            k <= capacities@.len(),
            total == total_capacity(capacities@, k as nat),
            total <= k * usize::MAX,
        decreases capacities@.len() - k,
    {
        assert(total + capacities@[k as int] <= (k + 1) * usize::MAX) by (nonlinear_arith)
            requires
                total <= k * usize::MAX,
                capacities@[k as int] <= usize::MAX,
        ;
        assert((k + 1) * usize::MAX <= u128::MAX) by (nonlinear_arith)
            requires
                k + 1 <= usize::MAX,
                usize::MAX <= 0xffff_ffff_ffff_ffff,
        ;
        total += capacities[k] as u128;
        k += 1;
    }
    capacities.len() == 0 || (total <= COMPACT_MIN_CAPACITY as u128 && capacities.len()
        <= COMPACT_MAX_SKIP_BUFFERS)
}

/// The bytes that views have in `count` buffers, and which of those they refer to; nothing where a
/// view dangles.
fn scan_views(views: &Vec<u128>, count: usize) -> (scan: Option<(u128, Vec<bool>)>)
    ensures
        scan is None <==> has_dangling(views@, count as int),
        scan matches Some((used, referenced)) ==> {
            &&& used == referenced_bytes(views@, views@.len())
            &&& referenced@.len() == count
            &&& forall|i: int|
                0 <= i < count ==> #[trigger] referenced@[i] == is_referenced(
                    views@,
                    views@.len() as int,
                    i,
                )
        },
{
    let mut used: u128 = 0;
    let mut referenced: Vec<bool> = Vec::with_capacity(count);
    let mut k: usize = 0;
    while k < count
        invariant
            k <= count,
            referenced@.len() == k,
            forall|i: int| 0 <= i < k ==> !#[trigger] referenced@[i],
        decreases count - k,
    {
        referenced.push(false);
        k += 1;
    }
    let mut j: usize = 0;
    while j < views.len()
        invariant
            j <= views@.len(),
            used == referenced_bytes(views@, j as nat),
            used <= j * 0x1_0000_0000,
            referenced@.len() == count,
            forall|t: int|
                0 <= t < j && !is_inline(#[trigger] views@[t]) ==> view_buffer(views@[t]) < count,
            forall|i: int|
                0 <= i < count ==> #[trigger] referenced@[i] == is_referenced(
                    views@,
                    j as int,
                    i,
                ),
        decreases views@.len() - j,
    {
        let (len, _prefix, buffer, _offset) = unpack_view(views[j]);
        let ghost before = referenced@;
        if len > MAX_INLINE_VIEW_LEN {
            used += len as u128;
            if buffer as usize >= count {
                return None;
            }
            referenced.set(buffer as usize, true);
        }
        proof {
            assert forall|i: int| 0 <= i < count implies #[trigger] referenced@[i]
                == is_referenced(views@, j + 1, i) by {
                assert(before[i] == is_referenced(views@, j as int, i));
                if is_referenced(views@, j as int, i) {
                    let t = choose|t: int| 0 <= t < j && refers(#[trigger] views@[t], i);
                    assert(refers(views@[t], i));
                }
                if refers(views@[j as int], i) {
                    assert(is_referenced(views@, j + 1, i));
                }
                if is_referenced(views@, j + 1, i) && !refers(views@[j as int], i) {
                    let t = choose|t: int| 0 <= t < j + 1 && refers(#[trigger] views@[t], i);
                    assert(t < j);
                }
            }
        }
        j += 1;
    }
    Some((used, referenced))
}

/// Decides on a compaction. Where buffers share an allocation, so do their ids.
pub fn plan_compaction(views: &Vec<u128>, capacities: &Vec<usize>, ids: &Vec<usize>) -> (plan:
    Compaction)
    requires
        ids@.len() == capacities@.len(),
        forall|i: int| 0 <= i < ids@.len() ==> #[trigger] ids@[i] < ids@.len(),
    ensures
        plans(views@, capacities@, ids@, plan),
{
    let count: usize = capacities.len();
    if retains_little(capacities) {
        return Compaction::Unchanged;
    }
    let (used, referenced) = match scan_views(views, count) {
        Some(scan) => scan,
        None => {
            return Compaction::Unchanged;
        },
    };
    if used > usize::MAX as u128 {
        return Compaction::Unchanged;
    }
    let mut kept: Vec<usize> = Vec::new();
    let mut capacity: u128 = 0;
    let mut places: Vec<Option<u32>> = Vec::with_capacity(count);
    let mut k: usize = 0;
    while k < count
        invariant
            k <= count,
            places@.len() == k,
            forall|id: int| 0 <= id < k ==> #[trigger] places@[id] is None,
        decreases count - k,
    {
        places.push(None);
        k += 1;
    }
    let mut remap: Vec<u32> = Vec::with_capacity(count);
    let mut i: usize = 0;
    while i < count
        invariant
            count == capacities@.len(),
            count == ids@.len(),
            forall|j: int| 0 <= j < count ==> #[trigger] ids@[j] < count,
            referenced@.len() == count,
            forall|j: int|
                0 <= j < count ==> #[trigger] referenced@[j] == is_referenced(
                    views@,
                    views@.len() as int,
                    j,
                ),
            i <= count,
            kept@ == kept_buffers(views@, ids@, i as nat),
            kept@.len() <= i,
            capacity == kept_capacity(views@, capacities@, ids@, i as nat),
            capacity <= i * usize::MAX,
            remap@.len() == i,
            forall|j: int|
                0 <= j < i && referenced@[j] ==> {
                    &&& #[trigger] remap@[j] < kept@.len()
                    &&& ids@[kept@[remap@[j] as int] as int] == ids@[j]
                },
            places@.len() == count,
            forall|id: int|
                0 <= id < count ==> (#[trigger] places@[id] matches Some(p) ==> p < kept@.len()
                    && ids@[kept@[p as int] as int] == id),
            forall|j: int|
                0 <= j < i && referenced@[j] ==> places@[#[trigger] ids@[j] as int] is Some,
            forall|p: int|
                0 <= p < kept@.len() ==> #[trigger] kept@[p] < i && referenced@[kept@[p] as int],
        decreases count - i,
    {
        assert(ids@[i as int] < count);
        assert(capacity + capacities@[i as int] <= (i + 1) * usize::MAX) by (nonlinear_arith)
            requires
                capacity <= i * usize::MAX,
                capacities@[i as int] <= usize::MAX,
        ;
        assert((i + 1) * usize::MAX <= u128::MAX) by (nonlinear_arith)
            requires
                i + 1 <= usize::MAX,
                usize::MAX <= 0xffff_ffff_ffff_ffff,
        ;
        if referenced[i] {
            proof {
                let t = choose|t: int|
                    0 <= t < views@.len() && refers(#[trigger] views@[t], i as int);
                assert(i <= u32::MAX);
            }
            match places[ids[i]] {
                Some(place) => {
                    proof {
                        let j = kept@[place as int] as int;
                        assert(ids@[j] == ids@[i as int]);
                        assert(!is_kept(views@, ids@, i as int));
                    }
                    remap.push(place);
                },
                None => {
                    assert(is_kept(views@, ids@, i as int));
                    let place: u32 = kept.len() as u32;
                    capacity += capacities[i] as u128;
                    kept.push(i);
                    places.set(ids[i], Some(place));
                    remap.push(place);
                },
            }
        } else {
            remap.push(u32::MAX);
        }
        i += 1;
    }
    if capacity > 2 * used && capacity - used > COMPACT_MIN_CAPACITY as u128 {
        Compaction::Copy
    } else if kept.len() == count {
        Compaction::Unchanged
    } else {
        Compaction::Prune { kept, remap }
    }
}

/// The buffer says that this much was allocated for it.
pub open spec fn tells_capacity(buffer: Buffer, capacity: usize) -> bool {
    call_ensures(Buffer::capacity, (&buffer,), capacity)
}

/// The buffer says whether another is the same bytes in memory.
pub open spec fn tells_same(buffer: Buffer, other: Buffer, same: bool) -> bool {
    call_ensures(Buffer::ptr_eq, (&buffer, &other), same)
}

/// The capacities are what the buffers said.
pub open spec fn told_capacities(buffers: Seq<Buffer>, capacities: Seq<usize>) -> bool {
    &&& capacities.len() == buffers.len()
    &&& forall|i: int|
        0 <= i < buffers.len() ==> tells_capacity(buffers[i], #[trigger] capacities[i])
}

/// The id of each buffer is the first that said to be the same, or its own.
pub open spec fn told_ids(buffers: Seq<Buffer>, ids: Seq<usize>) -> bool {
    &&& ids.len() == buffers.len()
    &&& forall|i: int| 0 <= i < buffers.len() ==> is_told_id(buffers, i, #[trigger] ids[i] as int)
}

/// `id` is the first before `i` that said to be the same as buffer `i`, or `i` where none did.
pub open spec fn is_told_id(buffers: Seq<Buffer>, i: int, id: int) -> bool {
    &&& 0 <= id <= i
    &&& id < i ==> tells_same(buffers[id], buffers[i], true)
    &&& forall|j: int| 0 <= j < id ==> tells_same(#[trigger] buffers[j], buffers[i], false)
}

/// The first that is set, or how many there are where none is.
pub open spec fn is_first_set(flags: Seq<bool>, k: int) -> bool {
    &&& 0 <= k <= flags.len()
    &&& k < flags.len() ==> flags[k]
    &&& forall|j: int| 0 <= j < k ==> !#[trigger] flags[j]
}

/// Which of the buffers before it a buffer shares its allocation with, by what each of them said:
/// the first, or the buffer itself where none did.
pub fn allocation_id(same: &Vec<bool>) -> (id: usize)
    ensures
        is_first_set(same@, id as int),
{
    let mut j: usize = 0;
    while j < same.len() && !same[j]
        invariant
            j <= same@.len(),
            forall|k: int| 0 <= k < j ==> !#[trigger] same@[k],
        decreases same@.len() - j,
    {
        j += 1;
    }
    j
}

/// For each buffer, the first that says to be the same bytes in memory.
fn allocation_ids(buffers: &Vec<Buffer>) -> (ids: Vec<usize>)
    ensures
        told_ids(buffers@, ids@),
{
    let mut ids: Vec<usize> = Vec::with_capacity(buffers.len());
    let mut i: usize = 0;
    while i < buffers.len()
        invariant
            i <= buffers@.len(),
            ids@.len() == i,
            forall|j: int| 0 <= j < i ==> is_told_id(buffers@, j, #[trigger] ids@[j] as int),
        decreases buffers@.len() - i,
    {
        let mut same: Vec<bool> = Vec::with_capacity(i);
        let mut j: usize = 0;
        while j < i
            invariant
                j <= i < buffers@.len(),
                same@.len() == j,
                forall|k: int|
                    0 <= k < j ==> tells_same(buffers@[k], buffers@[i as int], #[trigger] same@[k]),
            decreases i - j,
        {
            same.push(buffers[j].ptr_eq(&buffers[i]));
            j += 1;
        }
        let id: usize = allocation_id(&same);
        proof {
            assert forall|k: int| 0 <= k < id implies tells_same(
                #[trigger] buffers@[k],
                buffers@[i as int],
                false,
            ) by {
                assert(!same@[k]);
            }
            assert(id < i ==> same@[id as int]);
        }
        ids.push(id);
        i += 1;
    }
    ids
}

/// Buffers with the same id hold the same bytes.
pub open spec fn shares(buffers: Seq<Buffer>, ids: Seq<usize>) -> bool {
    &&& ids.len() == buffers.len()
    &&& forall|i: int|
        0 <= i < buffers.len() ==> #[trigger] ids[i] <= i && buffer_bytes(buffers[ids[i] as int])
            == buffer_bytes(buffers[i])
}

/// `new_view` is `view`, but for the buffer that it refers to.
pub open spec fn is_remapped(view: u128, remap: Seq<u32>, new_view: u128) -> bool {
    if is_inline(view) {
        new_view == view
    } else {
        &&& view_len(new_view) == view_len(view)
        &&& view_prefix(new_view) == view_prefix(view)
        &&& view_buffer(new_view) == remap[view_buffer(view)]
        &&& view_offset(new_view) == view_offset(view)
    }
}

/// What a plan makes of views and buffers.
pub open spec fn applies(
    plan: Compaction,
    views: Seq<u128>,
    buffers: Seq<Buffer>,
    compact: Option<(Vec<u128>, Vec<Buffer>)>,
) -> bool {
    match plan {
        Compaction::Unchanged => compact is None,
        Compaction::Copy => {
            &&& compact matches Some((v, b))
            &&& same_values(views, buffers, v@, b@)
            &&& held_bytes(b@, b@.len()) == referenced_bytes(views, views.len())
            &&& referenced_bytes(views, views.len()) == 0 ==> b@.len() == 0
            &&& referenced_bytes(views, views.len()) <= i32::MAX ==> b@.len() <= 1
        },
        Compaction::Prune { kept, remap } => {
            &&& compact matches Some((v, b))
            &&& v@.len() == views.len()
            &&& forall|j: int|
                0 <= j < views.len() ==> is_remapped(views[j], remap@, #[trigger] v@[j])
            &&& b@.len() == kept@.len()
            &&& forall|k: int|
                0 <= k < kept@.len() ==> buffer_bytes(#[trigger] b@[k]) == buffer_bytes(
                    buffers[kept@[k] as int],
                )
        },
    }
}

/// Each capacity covers the bytes of its buffer.
pub open spec fn covers_bytes(buffers: Seq<Buffer>, capacities: Seq<usize>) -> bool {
    &&& capacities.len() == buffers.len()
    &&& forall|i: int|
        0 <= i < buffers.len() ==> #[trigger] capacities[i] >= buffer_bytes(buffers[i]).len()
}

/// The compaction is the one that is planned for the capacities and allocations that the buffers
/// told.
pub open spec fn compacts(
    views: Seq<u128>,
    buffers: Seq<Buffer>,
    compact: Option<(Vec<u128>, Vec<Buffer>)>,
) -> bool {
    exists|capacities: Seq<usize>, ids: Seq<usize>, plan: Compaction|
        told_capacities(buffers, capacities) && told_ids(buffers, ids) && #[trigger] plans(
            views,
            capacities,
            ids,
            plan,
        ) && applies(plan, views, buffers, compact)
}

/// The compaction is the one that is planned for capacities and allocations that the buffers could
/// have.
pub open spec fn could_compact(
    views: Seq<u128>,
    buffers: Seq<Buffer>,
    compact: Option<(Vec<u128>, Vec<Buffer>)>,
) -> bool {
    exists|capacities: Seq<usize>, ids: Seq<usize>, plan: Compaction|
        covers_bytes(buffers, capacities) && shares(buffers, ids) && #[trigger] plans(
            views,
            capacities,
            ids,
            plan,
        ) && applies(plan, views, buffers, compact)
}

/// What buffers tell is what they could have.
pub proof fn lemma_told(
    views: Seq<u128>,
    buffers: Seq<Buffer>,
    compact: Option<(Vec<u128>, Vec<Buffer>)>,
)
    requires
        compacts(views, buffers, compact),
    ensures
        could_compact(views, buffers, compact),
{
    let (capacities, ids, plan) = choose|capacities: Seq<usize>, ids: Seq<usize>, plan: Compaction|
        told_capacities(buffers, capacities) && told_ids(buffers, ids) && #[trigger] plans(
            views,
            capacities,
            ids,
            plan,
        ) && applies(plan, views, buffers, compact);
    assert(covers_bytes(buffers, capacities)) by {
        assert forall|i: int| 0 <= i < buffers.len() implies #[trigger] capacities[i]
            >= buffer_bytes(buffers[i]).len() by {
            assert(tells_capacity(buffers[i], capacities[i]));
        }
    }
    assert(shares(buffers, ids)) by {
        assert forall|i: int| 0 <= i < buffers.len() implies #[trigger] ids[i] <= i
            && buffer_bytes(buffers[ids[i] as int]) == buffer_bytes(buffers[i]) by {
            assert(is_told_id(buffers, i, ids[i] as int));
        }
    }
}

/// The kept buffers are among the first `k`, in their order.
pub proof fn lemma_kept(views: Seq<u128>, ids: Seq<usize>, k: nat)
    requires
        k <= usize::MAX,
    ensures
        kept_buffers(views, ids, k).len() <= k,
        forall|p: int, q: int|
            0 <= p < q < kept_buffers(views, ids, k).len() ==> #[trigger] kept_buffers(
                views,
                ids,
                k,
            )[p] < #[trigger] kept_buffers(views, ids, k)[q],
        forall|p: int|
            0 <= p < kept_buffers(views, ids, k).len() ==> #[trigger] kept_buffers(
                views,
                ids,
                k,
            )[p] < k && is_kept(views, ids, kept_buffers(views, ids, k)[p] as int),
    decreases k,
{
    if k > 0 {
        lemma_kept(views, ids, (k - 1) as nat);
    }
}

/// A compaction does not change what the views show.
pub proof fn lemma_compacts(
    views: Seq<u128>,
    buffers: Seq<Buffer>,
    compact: Option<(Vec<u128>, Vec<Buffer>)>,
)
    requires
        buffers.len() <= usize::MAX,
        could_compact(views, buffers, compact),
        views_valid(views, buffers),
    ensures
        compact matches Some((v, b)) ==> same_values(views, buffers, v@, b@),
{
    let (capacities, ids, plan) = choose|capacities: Seq<usize>, ids: Seq<usize>, plan: Compaction|
        covers_bytes(buffers, capacities) && shares(buffers, ids) && #[trigger] plans(
            views,
            capacities,
            ids,
            plan,
        ) && applies(plan, views, buffers, compact);
    if let Compaction::Prune { kept, remap } = plan {
        let (v, b) = compact->0;
        lemma_kept(views, ids, buffers.len());
        assert forall|j: int| 0 <= j < views.len() implies {
            &&& view_len(#[trigger] v@[j]) == view_len(views[j])
            &&& is_inline(views[j]) ==> v@[j] == views[j]
            &&& view_valid(v@[j], b@)
            &&& view_bytes(v@[j], b@) == view_bytes(views[j], buffers)
        } by {
            assert(is_remapped(views[j], remap@, v@[j]));
            assert(view_valid(views[j], buffers));
            if !is_inline(views[j]) {
                let i = view_buffer(views[j]);
                assert(refers(views[j], i));
                assert(is_referenced(views, views.len() as int, i));
                let place = remap@[i] as int;
                let from = kept@[place] as int;
                assert(ids[from] == ids[i]);
                assert(buffer_bytes(b@[place]) == buffer_bytes(buffers[from]));
                assert(buffer_bytes(buffers[ids[i] as int]) == buffer_bytes(buffers[i]));
                assert(buffer_bytes(buffers[ids[from] as int]) == buffer_bytes(buffers[from]));
            }
        }
    }
}

/// Lets each view refer to the buffer that stands in for its own.
fn remap_views(views: &Vec<u128>, remap: &Vec<u32>) -> (new_views: Vec<u128>)
    requires
        !has_dangling(views@, remap@.len() as int),
    ensures
        new_views@.len() == views@.len(),
        forall|j: int|
            0 <= j < views@.len() ==> is_remapped(views@[j], remap@, #[trigger] new_views@[j]),
{
    let mut new_views: Vec<u128> = Vec::with_capacity(views.len());
    let mut j: usize = 0;
    while j < views.len()
        invariant
            !has_dangling(views@, remap@.len() as int),
            j <= views@.len(),
            new_views@.len() == j,
            forall|t: int|
                0 <= t < j ==> is_remapped(views@[t], remap@, #[trigger] new_views@[t]),
        decreases views@.len() - j,
    {
        let view: u128 = views[j];
        let (len, prefix, buffer, offset) = unpack_view(view);
        if len > MAX_INLINE_VIEW_LEN {
            assert(!is_inline(views@[j as int]));
            let place: u32 = remap[buffer as usize];
            let new_view: u128 = pack_view(len, prefix, place, offset);
            proof {
                lemma_with_buffer(view, new_view, place as int);
            }
            new_views.push(new_view);
        } else {
            new_views.push(view);
        }
        j += 1;
    }
    new_views
}

/// Drops the buffers that no view refers to and those that occur twice, or copies what the views
/// refer to where even the rest would hold too much besides. Gives nothing where the views and
/// buffers stay as they are.
pub fn compact_byte_view(views: &Vec<u128>, buffers: &Vec<Buffer>) -> (compact: Option<
    (Vec<u128>, Vec<Buffer>),
>)
    requires
        views_valid(views@, buffers@) || has_dangling(views@, buffers@.len() as int),
    ensures
        compacts(views@, buffers@, compact),
{
    let mut capacities: Vec<usize> = Vec::with_capacity(buffers.len());
    let mut k: usize = 0;
    while k < buffers.len()
        invariant
            k <= buffers@.len(),
            capacities@.len() == k,
            forall|i: int|
                0 <= i < k ==> tells_capacity(buffers@[i], #[trigger] capacities@[i]),
        decreases buffers@.len() - k,
    {
        capacities.push(buffers[k].capacity());
        k += 1;
    }
    let ids = allocation_ids(buffers);
    let plan = plan_compaction(views, &capacities, &ids);
    let ghost chosen = plan;
    match plan {
        Compaction::Unchanged => {
            assert(applies(chosen, views@, buffers@, None));
            None
        },
        Compaction::Copy => {
            let compact = Some(collect_garbage(views, buffers));
            assert(applies(chosen, views@, buffers@, compact));
            compact
        },
        Compaction::Prune { kept, remap } => {
            proof {
                lemma_kept(views@, ids@, buffers@.len());
            }
            let new_views = remap_views(views, &remap);
            let mut new_buffers: Vec<Buffer> = Vec::with_capacity(kept.len());
            let mut k: usize = 0;
            while k < kept.len()
                invariant
                    k <= kept@.len(),
                    forall|p: int| 0 <= p < kept@.len() ==> #[trigger] kept@[p] < buffers@.len(),
                    new_buffers@.len() == k,
                    forall|p: int|
                        0 <= p < k ==> buffer_bytes(#[trigger] new_buffers@[p]) == buffer_bytes(
                            buffers@[kept@[p] as int],
                        ),
                decreases kept@.len() - k,
            {
                new_buffers.push(buffers[kept[k]].clone());
                k += 1;
            }
            let compact = Some((new_views, new_buffers));
            assert(applies(chosen, views@, buffers@, compact));
            compact
        },
    }
}

} // verus!
