//! Where there is room for what is asked for, taking succeeds.
use crate::array::{field_position, fields_wf, has_field, Array, ArrayRef, Offsets, Values};
use crate::datatype::IntType;
use crate::error::TakeError;
use crate::indices::{addressable, index_value, positions, IndexSeq};
use crate::inverse::lemma_children_fit;
use crate::laws::lemma_within_limit;
use crate::laws::calls::{asks_for_check, lemma_positions, lemma_within_bounds};
use crate::laws::numbers::{holds_numbers, keeps_to, lemma_index_numbers, null_at, number_at};
use crate::laws::slots::{in_run, lemma_in_run, offset_at};
use crate::list::{lemma_fixed_spans, lemma_fixed_total};
use crate::run::{lemma_largest, lemma_stretch_runs};
use crate::selection::{
    cut_spans, dense_picks, fixed_spans, gathered, in_bounds, largest, lemma_cut_spans,
    lemma_spread, lemma_spread_all, occurrences, offsets_of, runs_of, spans_wf, spread,
    stretch_runs, take_error, total, Span,
};
use crate::slices::{
    are_edges, are_slices, copy_error, cut_slices, dense_slices, fixed_slices, is_staircase,
    lemma_no_copy_fails, lemma_pieces, lemma_run_slices, lemma_runs_step, lemma_slices,
    lemma_touched, part_at, parts_of, pieces_of, run_slices, single_slices, slots_of, touched_runs,
    view_slices,
};
use crate::take::{take, TakeOptions};
use crate::union::lemma_offsets_of;
use crate::validity::valid_in;
use vstd::prelude::*;

verus! {

/// The largest offset of this width.
pub open spec fn reach(offsets: Offsets) -> int {
    match offsets {
        Offsets::Small(_) => i32::MAX as int,
        Offsets::Large(_) => i64::MAX as int,
    }
}

/// The largest run end of this type.
pub open spec fn run_reach(kind: IntType) -> int {
    match kind {
        IntType::Int16 => i16::MAX as int,
        IntType::Int32 => i32::MAX as int,
        _ => i64::MAX as int,
    }
}

/// None of the `len` parts between offsets is wider than `width`.
pub open spec fn no_wider(offsets: Offsets, len: int, width: nat) -> bool {
    forall|i: int|
        0 <= i < len ==> offset_at(offsets, i + 1) - #[trigger] offset_at(offsets, i) <= width
}

/// None of the `len` sizes is larger than `width`.
pub open spec fn no_larger(sizes: Offsets, len: int, width: nat) -> bool {
    forall|i: int| 0 <= i < len ==> #[trigger] offset_at(sizes, i) <= width
}

/// There is room for any `n` slots of `a`: at no depth do the offsets, run ends or slots of what
/// they hold pass what their type can count. Where some of what is asked for is null, neither runs
/// nor unions are looked at. List views have their items copied only where they are `copied`
/// themselves.
pub open spec fn has_room(a: Array, n: nat, copied: bool, nulls: bool) -> bool
    decreases a,
{
    match a.values {
        Values::Bytes { offsets, data } => exists|width: nat| #[trigger]
            no_wider(offsets, a.len as int, width) && n * width <= reach(offsets),
        Values::List { offsets, child } => exists|width: nat| #[trigger]
            no_wider(offsets, a.len as int, width) && n * width <= reach(offsets) && has_room(
                *child,
                n * width,
                true,
                false,
            ),
        Values::ListView { offsets, sizes, child } => copied ==> exists|width: nat| #[trigger]
            no_larger(sizes, a.len as int, width) && n * width <= reach(offsets) && has_room(
                *child,
                n * width,
                true,
                false,
            ),
        Values::FixedSizeList { size, child } => has_room(*child, n * size as nat, copied, nulls),
        Values::Struct { columns } => forall|k: int|
            0 <= k < columns@.len() ==> has_room(*#[trigger] columns@[k], n, copied, nulls),
        Values::Runs { end_type, ends, offset, values } => !nulls && n <= run_reach(end_type)
            && has_room(*values, n, copied, false),
        Values::Union { type_ids, slots, children } => {
            &&& !nulls
            &&& slots is Some ==> n <= i32::MAX
            &&& forall|k: int|
                0 <= k < children@.len() ==> has_room(*#[trigger] children@[k], n, copied, false)
        },
        _ => true,
    }
}

/// Spans that are no longer than `width` have no more than `k` times that in total.
proof fn lemma_total_width(spans: Seq<Span>, width: nat, n: nat, k: nat)
    requires
        k <= spans.len(),
        k <= n,
        forall|i: int| 0 <= i < spans.len() ==> (#[trigger] spans[i]).len <= width,
    ensures
        total(spans, k) <= k * width,
        total(spans, k) <= n * width,
    decreases k,
{
    if k > 0 {
        lemma_total_width(spans, width, n, (k - 1) as nat);
        assert(spans[k - 1].len <= width);
        assert((k - 1) * width + width == k * width) by (nonlinear_arith);
    } else {
        assert(0 * width == 0) by (nonlinear_arith);
    }
    assert(k * width <= n * width) by (nonlinear_arith)
        requires
            k <= n,
    ;
}

/// What offsets give to each position is no wider than the widest part.
proof fn lemma_cut_width(
    bits: Option<Seq<bool>>,
    offsets: Offsets,
    len: nat,
    end: nat,
    ix: IndexSeq,
    width: nat,
    n: nat,
)
    requires
        offsets.cuts(len, end),
        ix.wf(),
        ix.below(len as int),
        ix.len() <= n,
        no_wider(offsets, len as int, width),
    ensures
        total(cut_spans(bits, offsets, ix), ix.len()) <= n * width,
        spans_wf(cut_spans(bits, offsets, ix)),
        are_slices(cut_spans(bits, offsets, ix), end as int),
{
    let spans = cut_spans(bits, offsets, ix);
    lemma_cut_spans(bits, offsets, len, end, ix);
    assert forall|i: int| 0 <= i < spans.len() implies (#[trigger] spans[i]).len <= width by {
        if ix.valid[i] && valid_in(bits, ix.raw[i] as int) {
            assert(ix.raw[i] < len);
            let _ = offset_at(offsets, ix.raw[i] as int);
        }
    }
    lemma_total_width(spans, width, n, ix.len());
}

/// As many stretches as slots at most.
proof fn lemma_stretch_count(runs: Seq<int>, k: nat)
    requires
        k <= runs.len(),
    ensures
        stretch_runs(runs, k).len() <= k,
    decreases k,
{
    if k > 0 {
        lemma_stretch_count(runs, (k - 1) as nat);
    }
}

/// No more offsets stand beside an id than there are.
proof fn lemma_beside_count(ids: Seq<i8>, id: i8, k: nat)
    requires
        k <= ids.len(),
    ensures
        occurrences(ids, id, k) <= k,
    decreases k,
{
    if k > 0 {
        lemma_beside_count(ids, id, (k - 1) as nat);
    }
}

/// Offsets that stand beside an id are among those that do.
proof fn lemma_beside_within(ids: Seq<i8>, offsets: Seq<i32>, id: i8, len: int, k: nat)
    requires
        k <= ids.len() == offsets.len(),
        forall|i: int|
            0 <= i < ids.len() && ids[i] == id ==> 0 <= #[trigger] offsets[i] < len,
    ensures
        IndexSeq::all_of(offsets_of(ids, offsets, id, k)).below(len),
    decreases k,
{
    if k > 0 {
        lemma_beside_within(ids, offsets, id, len, (k - 1) as nat);
        let before = IndexSeq::all_of(offsets_of(ids, offsets, id, (k - 1) as nat));
        let ix = IndexSeq::all_of(offsets_of(ids, offsets, id, k));
        assert forall|p: int| 0 <= p < ix.raw.len() && ix.valid[p] implies #[trigger] ix.raw[p]
            < len by {
            if p < before.raw.len() {
                assert(before.valid[p]);
                assert(before.raw[p] < len);
            } else {
                assert(offsets[k - 1] < len);
            }
        }
    }
}

/// What a dense union asks of each child lies within it, and is no more than is asked of the union.
proof fn lemma_dense_within(a: &Array, ix: IndexSeq)
    requires
        a.wf(),
        a.values is Union,
        a.values->slots is Some,
        ix.wf(),
        ix == IndexSeq::all_of(ix.raw),
        ix.below(a.len as int),
    ensures
        ({
            let ids = gathered(a.values->type_ids@, ix, 0);
            let offsets = gathered(a.values->slots->0@, ix, 0);
            let picks = dense_picks(a.union_fields(), ids, offsets);
            &&& forall|i: int| 0 <= i < ids.len() ==> has_field(a.union_fields(), #[trigger] ids[i])
            &&& forall|i: int|
                0 <= i < ids.len() ==> occurrences(ids, #[trigger] ids[i], i as nat) <= ix.len()
            &&& forall|k: int|
                0 <= k < a.values->children@.len() ==> {
                    &&& picks[k].below((#[trigger] a.values->children@[k]).len as int)
                    &&& picks[k].len() <= ix.len()
                }
        }),
{
    let fields = a.union_fields();
    let type_ids = a.values->type_ids@;
    let slots = a.values->slots->0@;
    let children = a.values->children@;
    let ids = gathered(type_ids, ix, 0);
    let offsets = gathered(slots, ix, 0);
    let picks = dense_picks(fields, ids, offsets);
    assert forall|i: int| 0 <= i < ix.len() implies {
        &&& #[trigger] ids[i] == type_ids[ix.raw[i] as int]
        &&& offsets[i] == slots[ix.raw[i] as int]
        &&& 0 <= offsets[i] < children[field_position(fields, ids[i])].len
        &&& has_field(fields, ids[i])
    } by {
        assert(ix.valid[i]);
        assert(ix.raw[i] < a.len);
        assert(has_field(fields, type_ids[ix.raw[i] as int]));
        assert(0 <= slots[ix.raw[i] as int]);
    }
    assert forall|i: int| 0 <= i < ids.len() implies occurrences(ids, #[trigger] ids[i], i as nat)
        <= ix.len() by {
        lemma_beside_count(ids, ids[i], i as nat);
    }
    assert forall|k: int| 0 <= k < children.len() implies picks[k].below(
        (#[trigger] children[k]).len as int,
    ) && picks[k].len() <= ix.len() by {
        let id = fields[k].0;
        assert forall|i: int| 0 <= i < ids.len() && ids[i] == id implies 0 <= #[trigger] offsets[i]
            < children[k].len by {
            let place = field_position(fields, ids[i]);
            assert(has_field(fields, ids[i]));
            assert(fields[place].0 == fields[k].0);
            assert(fields_wf(fields));
            assert(place == k);
        }
        lemma_beside_within(ids, offsets, id, children[k].len as int, ids.len());
        lemma_offsets_of(ids, offsets, id, ids.len());
        lemma_beside_count(ids, id, ids.len());
        assert(picks[k] == IndexSeq::all_of(offsets_of(ids, offsets, id, ids.len())));
    }
}

/// Slices of lists of one size have that many items for each slot.
proof fn lemma_fixed_slices_total(size: int, spans: Seq<Span>, k: nat)
    requires
        k <= spans.len(),
    ensures
        total(fixed_slices(size, spans), k) == total(spans, k) * size,
    decreases k,
{
    if k > 0 {
        lemma_fixed_slices_total(size, spans, (k - 1) as nat);
        let before = total(spans, (k - 1) as nat);
        let last = spans[k - 1].len;
        assert((before + last) * size == before * size + last * size) by (nonlinear_arith);
    } else {
        assert(0 * size == 0) by (nonlinear_arith);
    }
}

/// Slices of lists of one size mark items that are there.
proof fn lemma_fixed_slices(size: int, len: int, spans: Seq<Span>)
    requires
        0 <= size,
        are_slices(spans, len),
    ensures
        are_slices(fixed_slices(size, spans), len * size),
{
    let coarse = fixed_slices(size, spans);
    assert forall|i: int| 0 <= i < coarse.len() implies {
        &&& (#[trigger] coarse[i]).present
        &&& 0 <= coarse[i].start
        &&& 0 <= coarse[i].len
        &&& coarse[i].start + coarse[i].len <= len * size
    } by {
        let start = spans[i].start;
        let count = spans[i].len;
        assert(spans[i].present);
        assert(0 <= start * size && 0 <= count * size && start * size + count * size <= len * size)
            by (nonlinear_arith)
            requires
                0 <= start,
                0 <= count,
                start + count <= len,
                0 <= size,
        ;
    }
}

/// Slices of one slot each.
proof fn lemma_single_slices(raw: Seq<usize>, len: int)
    requires
        IndexSeq::all_of(raw).below(len),
    ensures
        are_slices(single_slices(raw), len),
        total(single_slices(raw), raw.len()) == raw.len(),
{
    let spans = single_slices(raw);
    let ix = IndexSeq::all_of(raw);
    assert forall|i: int| 0 <= i < spans.len() implies {
        &&& (#[trigger] spans[i]).present
        &&& 0 <= spans[i].start
        &&& 0 <= spans[i].len
        &&& spans[i].start + spans[i].len <= len
    } by {
        assert(ix.valid[i]);
        assert(ix.raw[i] < len);
    }
    lemma_single_total(raw, raw.len());
}

proof fn lemma_single_total(raw: Seq<usize>, k: nat)
    requires
        k <= raw.len(),
    ensures
        total(single_slices(raw), k) == k,
    decreases k,
{
    if k > 0 {
        lemma_single_total(raw, (k - 1) as nat);
    }
}

/// Slices can be copied where there is room for their slots.
pub proof fn lemma_copy_has_room(a: &Array, spans: Seq<Span>, n: nat)
    requires
        a.wf(),
        are_slices(spans, a.len as int),
        total(spans, spans.len()) <= n,
        has_room(*a, n, true, false),
    ensures
        copy_error(*a, spans) is None,
    decreases a,
{
    let ix = slots_of(spans);
    lemma_slices(spans, a.len as int);
    lemma_spread(spans, a.len as int, spans.len());
    lemma_spread_all(spans, spans.len());
    match &a.values {
        Values::Bytes { offsets, data } => {
            let width = choose|width: nat| #[trigger]
                no_wider(*offsets, a.len as int, width) && n * width <= reach(*offsets);
            lemma_cut_width(None, *offsets, a.len as nat, data@.len(), ix, width, n);
            lemma_within_limit(cut_spans(None, *offsets, ix), offsets.limit(), ix.len());
        },
        Values::List { offsets, child } => {
            let width = choose|width: nat| #[trigger]
                no_wider(*offsets, a.len as int, width) && n * width <= reach(*offsets) && has_room(
                    **child,
                    n * width,
                    true,
                    false,
                );
            let fine = cut_spans(None, *offsets, ix);
            let coarse = cut_slices(*offsets, spans);
            let edge = Seq::new((a.len + 1) as nat, |i: int| offsets.at(i));
            lemma_cut_width(None, *offsets, a.len as nat, child.len as nat, ix, width, n);
            lemma_within_limit(fine, offsets.limit(), ix.len());
            assert(are_edges(edge));
            assert(parts_of(edge, spans, fine)) by {
                assert forall|p: int| 0 <= p < fine.len() implies #[trigger] fine[p]
                    == part_at(edge, ix.raw[p] as int) by {
                    assert(ix.valid[p]);
                }
            }
            assert(pieces_of(edge, spans, coarse)) by {
                assert forall|i: int| 0 <= i < spans.len() implies #[trigger] coarse[i] == (Span {
                    start: edge[spans[i].start],
                    len: edge[spans[i].start + spans[i].len] - edge[spans[i].start],
                    present: true,
                }) by {
                    assert(spans[i].present);
                }
            }
            lemma_pieces(edge, spans, fine, coarse);
            assert(are_slices(coarse, child.len as int)) by {
                assert forall|i: int| 0 <= i < coarse.len() implies {
                    &&& (#[trigger] coarse[i]).present
                    &&& 0 <= coarse[i].start
                    &&& 0 <= coarse[i].len
                    &&& coarse[i].start + coarse[i].len <= child.len
                } by {
                    assert(coarse[i].start + coarse[i].len <= edge[edge.len() - 1]);
                }
            }
            lemma_slices(coarse, child.len as int);
            lemma_slices(fine, child.len as int);
            lemma_spread(coarse, child.len as int, coarse.len());
            lemma_spread(fine, child.len as int, fine.len());
            lemma_copy_has_room(child, coarse, n * width);
        },
        Values::ListView { offsets, sizes, child } => {
            let width = choose|width: nat| #[trigger]
                no_larger(*sizes, a.len as int, width) && n * width <= reach(*offsets) && has_room(
                    **child,
                    n * width,
                    true,
                    false,
                );
            let parts = view_slices(*offsets, *sizes, ix);
            assert forall|i: int| 0 <= i < parts.len() implies {
                &&& (#[trigger] parts[i]).present
                &&& 0 <= parts[i].start
                &&& 0 <= parts[i].len <= width
                &&& parts[i].start + parts[i].len <= child.len
            } by {
                assert(ix.valid[i]);
                let raw = ix.raw[i] as int;
                assert(raw < a.len);
                assert(0 <= offsets.at(raw));
                let _ = offset_at(*sizes, raw);
            }
            lemma_total_width(parts, width, n, ix.len());
            lemma_within_limit(parts, offsets.limit(), ix.len());
            lemma_copy_has_room(child, parts, n * width);
        },
        Values::FixedSizeList { size, child } => {
            let size = *size as int;
            let count = total(spans, spans.len());
            lemma_fixed_slices(size, a.len as int, spans);
            lemma_fixed_slices_total(size, spans, spans.len());
            assert(count * size <= n * size) by (nonlinear_arith)
                requires
                    count <= n,
                    0 <= size,
            ;
            lemma_copy_has_room(child, fixed_slices(size, spans), n * size as nat);
        },
        Values::Struct { columns } => {
            let slices = Seq::new(columns@.len(), |k: int| spans);
            assert forall|k: int| 0 <= k < columns@.len() implies copy_error(
                *#[trigger] columns@[k],
                slices[k],
            ) is None by {
                assert(columns@[k].len == a.len);
                lemma_copy_has_room(&*columns@[k], spans, n);
            }
            lemma_no_copy_fails(columns@, slices, columns@.len());
        },
        Values::Runs { end_type, ends, offset, values } => {
            let parts = run_slices(ends@, *offset as int, spans);
            let tags = touched_runs(ends@, *offset as int, spans, spans.len());
            lemma_run_slices(ends@, *offset as int, a.len as int, spans);
            lemma_touched(ends@, *offset as int, a.len as int, spans, spans.len());
            lemma_steps_below(tags, tags.len());
            lemma_copy_has_room(values, parts, n);
        },
        Values::Union { type_ids, slots: None, children } => {
            let slices = Seq::new(children@.len(), |k: int| spans);
            assert forall|k: int| 0 <= k < children@.len() implies copy_error(
                *#[trigger] children@[k],
                slices[k],
            ) is None by {
                assert(children@[k].len == a.len);
                lemma_copy_has_room(&*children@[k], spans, n);
            }
            lemma_no_copy_fails(children@, slices, children@.len());
        },
        Values::Union { type_ids, slots: Some(slots), children } => {
            let ids = gathered(type_ids@, ix, 0);
            let offsets = gathered(slots@, ix, 0);
            let parts = dense_slices(a.union_fields(), ids, offsets);
            let picks = dense_picks(a.union_fields(), ids, offsets);
            lemma_dense_within(a, ix);
            assert forall|k: int| 0 <= k < children@.len() implies copy_error(
                *#[trigger] children@[k],
                parts[k],
            ) is None by {
                assert(picks[k].below(children@[k].len as int));
                assert(parts[k] == single_slices(picks[k].raw));
                lemma_single_slices(picks[k].raw, children@[k].len as int);
                lemma_copy_has_room(&*children@[k], parts[k], n);
            }
            lemma_no_copy_fails(children@, parts, children@.len());
        },
        _ => {},
    }
}

/// A staircase does not rise above its length.
proof fn lemma_steps_below(tags: Seq<int>, k: nat)
    requires
        is_staircase(tags),
        k <= tags.len(),
    ensures
        k > 0 ==> tags[k - 1] < k,
    decreases k,
{
    if k > 1 {
        lemma_steps_below(tags, (k - 1) as nat);
        assert(tags[k - 1] == tags[k - 2] || tags[k - 1] == tags[k - 2] + 1);
    }
}

/// Positions can be taken where there is room for as many slots.
pub proof fn lemma_take_has_room(a: &Array, ix: IndexSeq, n: nat, nulls: bool)
    requires
        a.wf(),
        ix.wf(),
        ix.below(a.len as int),
        ix.len() <= n,
        !nulls ==> ix == IndexSeq::all_of(ix.raw),
        has_room(*a, n, false, nulls),
    ensures
        take_error(*a, ix) is None,
    decreases a,
{
    if ix.len() > 0 {
        match &a.values {
            Values::Bytes { offsets, data } => {
                let width = choose|width: nat| #[trigger]
                    no_wider(*offsets, a.len as int, width) && n * width <= reach(*offsets);
                lemma_cut_width(a.bits(), *offsets, a.len as nat, data@.len(), ix, width, n);
                lemma_within_limit(cut_spans(a.bits(), *offsets, ix), offsets.limit(), ix.len());
            },
            Values::List { offsets, child } => {
                let width = choose|width: nat| #[trigger]
                    no_wider(*offsets, a.len as int, width) && n * width <= reach(*offsets)
                        && has_room(**child, n * width, true, false);
                let spans = cut_spans(a.bits(), *offsets, ix);
                lemma_cut_width(a.bits(), *offsets, a.len as nat, child.len as nat, ix, width, n);
                lemma_within_limit(spans, offsets.limit(), ix.len());
                lemma_copy_has_room(child, spans, n * width);
            },
            Values::FixedSizeList { size, child } => {
                let size = *size as int;
                let spans = fixed_spans(size, ix);
                lemma_fixed_spans(size, a.len as int, ix);
                lemma_fixed_total(size, ix, ix.len());
                lemma_spread(spans, child.len as int, ix.len());
                assert(ix.len() * size <= n * size) by (nonlinear_arith)
                    requires
                        ix.len() <= n,
                        0 <= size,
                ;
                if !nulls {
                    assert forall|i: int| 0 <= i < spans.len() implies (
                    #[trigger] spans[i]).present by {
                        assert(ix.valid[i]);
                    }
                    lemma_spread_all(spans, ix.len());
                }
                lemma_take_has_room(child, spread(spans, ix.len()), n * size as nat, nulls);
            },
            Values::Struct { columns } => {
                let picks = Seq::new(columns@.len(), |k: int| ix);
                assert forall|k: int| 0 <= k < columns@.len() implies in_bounds(
                    *#[trigger] columns@[k],
                    picks[k],
                ) && take_error(*columns@[k], picks[k]) is None by {
                    assert(columns@[k].len == a.len);
                    lemma_take_has_room(&*columns@[k], ix, n, nulls);
                }
                lemma_children_fit(columns@, picks, columns@.len());
            },
            Values::Runs { end_type, ends, offset, values } => {
                let runs = runs_of(ends@, *offset as int, ix);
                assert forall|i: int| 0 <= i < runs.len() implies 0 <= #[trigger] runs[i]
                    < values.len by {
                    assert(ix.valid[i]);
                    assert(ix.raw[i] < a.len);
                    lemma_runs_step(ends@, *offset + a.len, *offset + ix.raw[i]);
                }
                lemma_stretch_runs(runs, values.len as int, ix.len());
                lemma_stretch_count(runs, ix.len());
                lemma_take_has_room(
                    values,
                    IndexSeq::all_of(stretch_runs(runs, ix.len())),
                    n,
                    false,
                );
            },
            Values::Union { type_ids, slots: None, children } => {
                let picks = Seq::new(children@.len(), |k: int| ix);
                assert forall|k: int| 0 <= k < children@.len() implies in_bounds(
                    *#[trigger] children@[k],
                    picks[k],
                ) && take_error(*children@[k], picks[k]) is None by {
                    assert(children@[k].len == a.len);
                    lemma_take_has_room(&*children@[k], ix, n, false);
                }
                lemma_children_fit(children@, picks, children@.len());
                let ids = gathered(type_ids@, ix, 0);
                assert forall|i: int| 0 <= i < ids.len() implies has_field(
                    a.union_fields(),
                    #[trigger] ids[i],
                ) by {
                    assert(ix.valid[i]);
                    assert(ix.raw[i] < a.len);
                    assert(has_field(a.union_fields(), type_ids@[ix.raw[i] as int]));
                }
            },
            Values::Union { type_ids, slots: Some(slots), children } => {
                let ids = gathered(type_ids@, ix, 0);
                let picks = dense_picks(a.union_fields(), ids, gathered(slots@, ix, 0));
                lemma_dense_within(a, ix);
                assert forall|k: int| 0 <= k < children@.len() implies in_bounds(
                    *#[trigger] children@[k],
                    picks[k],
                ) && take_error(*children@[k], picks[k]) is None by {
                    assert(picks[k].below(children@[k].len as int));
                    lemma_take_has_room(&*children@[k], picks[k], n, false);
                }
                lemma_children_fit(children@, picks, children@.len());
            },
            _ => {},
        }
    }
}

/// Taking succeeds where the indices that are not null are slots of the values and there is room
/// for as many slots as there are indices, with the check or without it. Where there are nulls
/// among the indices, that leaves runs and unions out.
pub proof fn law_take_succeeds_where_there_is_room(
    values: &Array,
    indices: &Array,
    options: Option<TakeOptions>,
    result: Result<ArrayRef, TakeError>,
    nulls: bool,
)
    requires
        values.wf(),
        indices.wf(),
        holds_numbers(*indices),
        call_ensures(take, (values, indices, options), result),
        forall|i: int| 0 <= i < indices.len ==> #[trigger] keeps_to(*indices, i, values.len as int),
        nulls || forall|i: int| 0 <= i < indices.len ==> !#[trigger] null_at(indices.nulls, i),
        has_room(*values, indices.len as nat, false, nulls),
    ensures
        result is Ok,
{
    let ix = positions(*indices);
    lemma_positions(*indices);
    lemma_within_bounds(*indices, values.len);
    if !nulls {
        assert forall|i: int| 0 <= i < ix.len() implies ix.valid[i] by {
            assert(!null_at(indices.nulls, i));
        }
        assert(ix =~= IndexSeq::all_of(ix.raw));
    }
    lemma_take_has_room(values, ix, indices.len as nat, nulls);
}

/// One of the slots that are asked for is in run `p`.
pub open spec fn asks_for_run(ends: Seq<i64>, offset: int, indices: Array, p: int) -> bool {
    exists|i: int|
        0 <= i < indices.len && #[trigger] in_run(ends, p, offset + number_at(indices, i))
}

/// Taking from run-end encoded arrays, with the number under a null asked for like any other. Where
/// a number is no slot of the array, the largest is the error. Otherwise it succeeds, whether
/// or not numbers repeat, unless they are more than a run end can count or the values of the runs
/// that they ask for cannot be taken.
pub proof fn law_runs_are_taken_up_to_the_run_end_limit(
    values: &Array,
    indices: &Array,
    options: Option<TakeOptions>,
    result: Result<ArrayRef, TakeError>,
)
    requires
        values.wf(),
        values.values is Runs,
        indices.wf(),
        holds_numbers(*indices),
        indices.len > 0,
        !asks_for_check(options),
        call_ensures(take, (values, indices, options), result),
        forall|i: int|
            0 <= i < indices.len ==> 0 <= #[trigger] number_at(*indices, i) <= usize::MAX,
    ensures
        ({
            let within = forall|i: int|
                0 <= i < indices.len ==> #[trigger] number_at(*indices, i) < values.len;
            let count = indices.len as int;
            let limit = run_reach(values.values->end_type);
            &&& !within ==> exists|i: int|
                {
                    &&& 0 <= i < indices.len
                    &&& result == Err::<ArrayRef, TakeError>(
                        TakeError::RunOutOfBounds {
                            position: #[trigger] number_at(*indices, i) as usize,
                            len: values.len,
                        },
                    )
                    &&& forall|j: int|
                        0 <= j < indices.len ==> #[trigger] number_at(*indices, j) <= number_at(
                            *indices,
                            i,
                        )
                }
            &&& within && count > limit ==> result == Err::<ArrayRef, TakeError>(
                TakeError::RunEndOverflow(indices.len),
            )
            &&& within && count <= limit && has_room(
                *values.values->Runs_values,
                count as nat,
                false,
                false,
            ) ==> result is Ok
            &&& within && count <= limit && (forall|heads: Seq<usize>|
                heads.len() <= count && (forall|p: int|
                    0 <= p < heads.len() ==> asks_for_run(
                        values.values->ends@,
                        values.values->offset as int,
                        *indices,
                        #[trigger] heads[p] as int,
                    )) ==> #[trigger] take_error(
                    *values.values->Runs_values,
                    IndexSeq::all_of(heads),
                ) is None) ==> result is Ok
        }),
{
    let ix = positions(*indices);
    let asked = IndexSeq::all_of(ix.raw);
    lemma_positions(*indices);
    lemma_index_numbers(*indices);
    assert forall|i: int| 0 <= i < indices.len implies #[trigger] ix.raw[i] == number_at(
        *indices,
        i,
    ) by {
        assert(0 <= number_at(*indices, i) <= usize::MAX);
    }
    assert(addressable(*indices)) by {
        assert forall|i: int|
            0 <= i < indices.len && valid_in(indices.bits(), i) implies 0 <= #[trigger] index_value(
            *indices,
            i,
        ) <= usize::MAX by {
            assert(0 <= number_at(*indices, i) <= usize::MAX);
        }
    }
    let end_type = values.values->end_type;
    let ends = values.values->ends@;
    let offset = values.values->offset as int;
    let inner: &Array = &*values.values->Runs_values;
    let runs = runs_of(ends, offset, ix);
    assert(runs_of(ends, offset, asked) =~= runs);
    assert(take_error(*values, asked) == take_error(*values, ix));
    let within = forall|i: int|
        0 <= i < indices.len ==> #[trigger] number_at(*indices, i) < values.len;
    if within {
        assert(asked.below(values.len as int)) by {
            assert forall|i: int| 0 <= i < asked.raw.len() && asked.valid[i] implies
                #[trigger] asked.raw[i] < values.len by {
                assert(ix.raw[i] == number_at(*indices, i));
                assert(number_at(*indices, i) < values.len);
            }
        }
        let count = indices.len as nat;
        if count <= run_reach(end_type) {
            if has_room(*inner, count, false, false) {
                lemma_take_has_room(values, asked, count, false);
            }
            let heads = stretch_runs(runs, ix.len());
            lemma_stretch_count(runs, ix.len());
            assert forall|p: int| 0 <= p < heads.len() implies asks_for_run(
                ends,
                offset,
                *indices,
                #[trigger] heads[p] as int,
            ) by {
                let i = lemma_stretch_origin(runs, ix.len(), p);
                assert(asked.raw[i] < values.len) by {
                    assert(asked.valid[i]);
                }
                lemma_runs_step(ends, offset + values.len, offset + ix.raw[i]);
                lemma_in_run(ends, offset + values.len, offset + ix.raw[i]);
                assert(0 <= runs[i] < ends.len());
                assert(in_run(ends, heads[p] as int, offset + number_at(*indices, i)));
            }
            if forall|heads: Seq<usize>|
                heads.len() <= count && (forall|p: int|
                    0 <= p < heads.len() ==> asks_for_run(
                        ends,
                        offset,
                        *indices,
                        #[trigger] heads[p] as int,
                    )) ==> #[trigger] take_error(*inner, IndexSeq::all_of(heads)) is None {
                assert(take_error(*inner, IndexSeq::all_of(heads)) is None);
            }
        }
    } else {
        let j = choose|j: int|
            0 <= j < indices.len && !(#[trigger] number_at(*indices, j) < values.len);
        assert(ix.raw[j] == number_at(*indices, j));
        assert(asked.valid[j] && asked.raw[j] >= values.len);
        assert(!asked.below(values.len as int));
        lemma_largest(ix.raw, ix.len());
        let i = choose|i: int|
            0 <= i < ix.len() && #[trigger] ix.raw[i] == largest(ix.raw, ix.len());
        assert(ix.raw[i] == number_at(*indices, i));
        assert forall|t: int| 0 <= t < indices.len implies #[trigger] number_at(*indices, t)
            <= number_at(*indices, i) by {
            assert(ix.raw[t] == number_at(*indices, t));
            assert(ix.raw[t] <= largest(ix.raw, ix.len()));
        }
    }
}

/// The run of each stretch is that of some slot.
proof fn lemma_stretch_origin(runs: Seq<int>, k: nat, p: int) -> (i: int)
    requires
        k <= runs.len(),
        0 <= p < stretch_runs(runs, k).len(),
    ensures
        0 <= i < k,
        stretch_runs(runs, k)[p] == runs[i] as usize,
    decreases k,
{
    let before = stretch_runs(runs, (k - 1) as nat);
    if p < before.len() {
        lemma_stretch_origin(runs, (k - 1) as nat, p)
    } else {
        k - 1
    }
}

/// Unions can be taken from by null indices too, where the number under each null is a slot: dense
/// ones where there is room for as many slots, sparse ones where there is room in each child for as
/// many slots and nulls.
pub proof fn law_unions_are_taken_where_there_is_room(
    values: &Array,
    indices: &Array,
    options: Option<TakeOptions>,
    result: Result<ArrayRef, TakeError>,
)
    requires
        values.wf(),
        values.values is Union,
        indices.wf(),
        holds_numbers(*indices),
        call_ensures(take, (values, indices, options), result),
        forall|i: int|
            0 <= i < indices.len ==> 0 <= #[trigger] number_at(*indices, i) < values.len,
        values.values->slots is Some ==> has_room(*values, indices.len as nat, false, false),
        values.values->slots is None ==> forall|k: int|
            0 <= k < values.values->children@.len() ==> has_room(
                *#[trigger] values.values->children@[k],
                indices.len as nat,
                false,
                true,
            ),
    ensures
        result is Ok,
{
    let ix = positions(*indices);
    let asked = IndexSeq::all_of(ix.raw);
    let n = indices.len as nat;
    lemma_positions(*indices);
    assert forall|i: int| 0 <= i < indices.len implies #[trigger] keeps_to(
        *indices,
        i,
        values.len as int,
    ) by {
        assert(0 <= number_at(*indices, i) < values.len);
    }
    lemma_within_bounds(*indices, values.len);
    assert forall|i: int| 0 <= i < ix.len() implies #[trigger] ix.raw[i] < values.len by {
        assert(0 <= number_at(*indices, i) < values.len);
    }
    let type_ids = values.values->type_ids@;
    let children = values.values->children@;
    let ids = gathered(type_ids, ix, 0);
    assert(gathered(type_ids, asked, 0) =~= ids);
    match &values.values->slots {
        Some(slots) => {
            assert(gathered(slots@, asked, 0) =~= gathered(slots@, ix, 0));
            assert(take_error(*values, asked) == take_error(*values, ix));
            lemma_take_has_room(values, asked, n, false);
        },
        None => {
            let picks = Seq::new(children.len(), |k: int| ix);
            assert forall|k: int| 0 <= k < children.len() implies in_bounds(
                *#[trigger] children[k],
                picks[k],
            ) && take_error(*children[k], picks[k]) is None by {
                assert(children[k].len == values.len);
                lemma_take_has_room(&*children[k], ix, n, true);
            }
            lemma_children_fit(children, picks, children.len());
            assert forall|i: int| 0 <= i < ids.len() implies has_field(
                values.union_fields(),
                #[trigger] ids[i],
            ) by {
                assert(ix.raw[i] < values.len);
                assert(has_field(values.union_fields(), type_ids[ix.raw[i] as int]));
            }
        },
    }
}

} // verus!
