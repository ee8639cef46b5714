//! Taking back: why positions that do not repeat never fail, and an inverse permutation restores.
use crate::array::{field_position, fields_wf, has_field, Array, ArrayRef, Offsets, Values};
use crate::datatype::DataType;
use crate::deep::{compacts_to, rebuilt};
use crate::empty::is_empty_like;
use crate::indices::{addressable, index_type, index_value, positions, strays, IndexSeq};
use crate::laws::{all_valid, lemma_no_bounds_error, lemma_within_limit};
use crate::layout::{copied, counts, laid_out};
use crate::selection::{
    children_error, cut_spans, dense_picks, fixed_spans, gathered, has_bitmap, in_bounds,
    lemma_cut_spans, lemma_spread, lemma_spread_all, lemma_total_monotone, marked_valid,
    occurrences, offsets_of, picked, runs_of, span_positions, spans_wf, spans_within, spread,
    stretch_runs, take_error, takes, total, Span,
};
use crate::slices::{
    are_edges, are_slices, copy_error, cut_slices, dense_slices, fixed_slices, lemma_no_copy_fails,
    lemma_slices, pieces_of, run_slices, single_slices, slots_of, view_slices,
};
use crate::take::{may_take, selection_error, selects, TakeOptions};
use crate::union::lemma_offsets_of;
use crate::validity::{only_with_nulls, valid_in};
use vstd::prelude::*;
use vstd::set_lib::{lemma_int_range, lemma_len_subset, set_int_range};

verus! {

/// No two slots of a dense union in `a` share a slot of a child, and of what lists hold the same is
/// true, and that no two list views share an item.
pub open spec fn packed(a: Array) -> bool
    decreases a,
{
    match a.values {
        Values::List { offsets, child } => holds_apart(*child),
        Values::FixedSizeList { size, child } => packed(*child),
        Values::Struct { columns } => forall|k: int|
            0 <= k < columns@.len() ==> packed(*#[trigger] columns@[k]),
        Values::Union { type_ids, slots, children } => {
            &&& forall|k: int| 0 <= k < children@.len() ==> packed(*#[trigger] children@[k])
            &&& slots matches Some(s) ==> apart(type_ids@, s@)
        },
        _ => true,
    }
}

/// No two slots of a dense union in `a` share a slot of a child, and no two list views an item.
pub open spec fn holds_apart(a: Array) -> bool
    decreases a,
{
    match a.values {
        Values::List { offsets, child } => holds_apart(*child),
        Values::ListView { offsets, sizes, child } => {
            unshared(offsets, sizes) && holds_apart(*child)
        },
        Values::FixedSizeList { size, child } => holds_apart(*child),
        Values::Struct { columns } => forall|k: int|
            0 <= k < columns@.len() ==> holds_apart(*#[trigger] columns@[k]),
        Values::Union { type_ids, slots, children } => {
            &&& forall|k: int| 0 <= k < children@.len() ==> holds_apart(*#[trigger] children@[k])
            &&& slots matches Some(s) ==> apart(type_ids@, s@)
        },
        _ => true,
    }
}

/// Offsets and sizes that mark parts of a child which do not overlap, none of them beyond what an
/// offset can reach.
pub open spec fn unshared(offsets: Offsets, sizes: Offsets) -> bool {
    &&& forall|i: int|
        0 <= i < offsets.spec_len() ==> #[trigger] offsets.at(i) + sizes.at(i) <= offsets.limit()
    &&& forall|i: int, j: int|
        0 <= i < j < offsets.spec_len() ==> {
            ||| sizes.at(i) == 0
            ||| sizes.at(j) == 0
            ||| #[trigger] offsets.at(i) + sizes.at(i) <= #[trigger] offsets.at(j)
            ||| offsets.at(j) + sizes.at(j) <= offsets.at(i)
        }
}

/// Offsets that stand beside the same id differ.
pub open spec fn apart(ids: Seq<i8>, offsets: Seq<i32>) -> bool {
    forall|i: int, j: int|
        0 <= i < j < ids.len() && ids[i] == ids[j] ==> #[trigger] offsets[i]
            != #[trigger] offsets[j]
}

/// The values of runs in `a` can be taken as often as `ix` asks for them. Runs alone repeat what is
/// asked for once: slots of one run that no longer follow each other become runs of their own.
pub open spec fn runs_fit(a: Array, ix: IndexSeq) -> bool
    decreases a,
{
    ix.len() > 0 ==> match a.values {
        Values::List { offsets, child } => copied_runs_fit(
            *child,
            cut_spans(a.bits(), offsets, ix),
        ),
        Values::FixedSizeList { size, child } => runs_fit(
            *child,
            spread(fixed_spans(size as int, ix), ix.len()),
        ),
        Values::Struct { columns } => forall|k: int|
            0 <= k < columns@.len() ==> runs_fit(*#[trigger] columns@[k], ix),
        Values::Runs { end_type, ends, offset, values } => take_error(
            *values,
            IndexSeq::all_of(stretch_runs(runs_of(ends@, offset as int, ix), ix.len())),
        ) is None,
        Values::Union { type_ids, slots: None, children } => forall|k: int|
            0 <= k < children@.len() ==> runs_fit(*#[trigger] children@[k], ix),
        Values::Union { type_ids, slots: Some(slots), children } => {
            let picks = dense_picks(
                a.union_fields(),
                gathered(type_ids@, ix, 0),
                gathered(slots@, ix, 0),
            );
            forall|k: int|
                0 <= k < children@.len() ==> runs_fit(*#[trigger] children@[k], picks[k])
        },
        _ => true,
    }
}

/// The values of runs in `a` can be copied as often as slices touch them.
pub open spec fn copied_runs_fit(a: Array, spans: Seq<Span>) -> bool
    decreases a,
{
    let ix = slots_of(spans);
    match a.values {
        Values::List { offsets, child } => copied_runs_fit(*child, cut_slices(offsets, spans)),
        Values::ListView { offsets, sizes, child } => copied_runs_fit(
            *child,
            view_slices(offsets, sizes, ix),
        ),
        Values::FixedSizeList { size, child } => copied_runs_fit(
            *child,
            fixed_slices(size as int, spans),
        ),
        Values::Struct { columns } => forall|k: int|
            0 <= k < columns@.len() ==> copied_runs_fit(*#[trigger] columns@[k], spans),
        Values::Runs { end_type, ends, offset, values } => copy_error(
            *values,
            run_slices(ends@, offset as int, spans),
        ) is None,
        Values::Union { type_ids, slots: None, children } => forall|k: int|
            0 <= k < children@.len() ==> copied_runs_fit(*#[trigger] children@[k], spans),
        Values::Union { type_ids, slots: Some(slots), children } => {
            let parts = dense_slices(
                a.union_fields(),
                gathered(type_ids@, ix, 0),
                gathered(slots@, ix, 0),
            );
            forall|k: int|
                0 <= k < children@.len() ==> copied_runs_fit(*#[trigger] children@[k], parts[k])
        },
        _ => true,
    }
}

/// Runs in arrays of this type, if there are any, are runs of values of one width, which can be
/// repeated without limit.
pub open spec fn runs_are_of_one_width(dt: DataType) -> bool
    decreases dt,
{
    match dt {
        DataType::List(f) => runs_are_of_one_width(*f.data_type),
        DataType::LargeList(f) => runs_are_of_one_width(*f.data_type),
        DataType::ListView(f) => runs_are_of_one_width(*f.data_type),
        DataType::LargeListView(f) => runs_are_of_one_width(*f.data_type),
        DataType::MapType(f, _) => runs_are_of_one_width(*f.data_type),
        DataType::FixedSizeList(f, _) => runs_are_of_one_width(*f.data_type),
        DataType::Struct(fields) => forall|k: int|
            0 <= k < fields@.len() ==> runs_are_of_one_width(*(#[trigger] fields@[k]).data_type),
        DataType::Union(fields, _) => forall|k: int|
            0 <= k < fields@.len() ==> runs_are_of_one_width(*(#[trigger] fields@[k]).1.data_type),
        DataType::RunEndEncoded(_, v) => {
            *v.data_type is Null || *v.data_type is Boolean || *v.data_type is Primitive
                || *v.data_type is Utf8View || *v.data_type is BinaryView
                || *v.data_type is FixedSizeBinary || *v.data_type is Dictionary
        },
        _ => true,
    }
}

/// Runs of values of one width fit, whatever is asked for.
pub proof fn lemma_one_width_fits(a: &Array, ix: IndexSeq)
    requires
        a.wf(),
        runs_are_of_one_width(*a.data_type),
    ensures
        runs_fit(*a, ix),
    decreases a,
{
    match &a.values {
        Values::List { offsets, child } => {
            lemma_one_width_copies_fit(child, cut_spans(a.bits(), *offsets, ix));
        },
        Values::FixedSizeList { size, child } => {
            lemma_one_width_fits(child, spread(fixed_spans(*size as int, ix), ix.len()));
        },
        Values::Struct { columns } => {
            assert forall|k: int| 0 <= k < columns@.len() implies runs_fit(
                *#[trigger] columns@[k],
                ix,
            ) by {
                lemma_one_width_fits(&*columns@[k], ix);
            }
        },
        Values::Runs { end_type, ends, offset, values } => {
            let runs = runs_of(ends@, *offset as int, ix);
            let heads = IndexSeq::all_of(stretch_runs(runs, ix.len()));
            assert(values.wf());
            assert(take_error(**values, heads) is None);
        },
        Values::Union { type_ids, slots: None, children } => {
            assert forall|k: int| 0 <= k < children@.len() implies runs_fit(
                *#[trigger] children@[k],
                ix,
            ) by {
                lemma_one_width_fits(&*children@[k], ix);
            }
        },
        Values::Union { type_ids, slots: Some(slots), children } => {
            let picks = dense_picks(
                a.union_fields(),
                gathered(type_ids@, ix, 0),
                gathered(slots@, ix, 0),
            );
            assert forall|k: int| 0 <= k < children@.len() implies runs_fit(
                *#[trigger] children@[k],
                picks[k],
            ) by {
                lemma_one_width_fits(&*children@[k], picks[k]);
            }
        },
        _ => {},
    }
}

/// The same where they are copied.
proof fn lemma_one_width_copies_fit(a: &Array, spans: Seq<Span>)
    requires
        a.wf(),
        runs_are_of_one_width(*a.data_type),
    ensures
        copied_runs_fit(*a, spans),
    decreases a,
{
    let ix = slots_of(spans);
    match &a.values {
        Values::List { offsets, child } => {
            lemma_one_width_copies_fit(child, cut_slices(*offsets, spans));
        },
        Values::ListView { offsets, sizes, child } => {
            lemma_one_width_copies_fit(child, view_slices(*offsets, *sizes, ix));
        },
        Values::FixedSizeList { size, child } => {
            lemma_one_width_copies_fit(child, fixed_slices(*size as int, spans));
        },
        Values::Struct { columns } => {
            assert forall|k: int| 0 <= k < columns@.len() implies copied_runs_fit(
                *#[trigger] columns@[k],
                spans,
            ) by {
                lemma_one_width_copies_fit(&*columns@[k], spans);
            }
        },
        Values::Runs { end_type, ends, offset, values } => {
            let parts = run_slices(ends@, *offset as int, spans);
            assert(values.wf());
            assert(copy_error(**values, parts) is None);
        },
        Values::Union { type_ids, slots: None, children } => {
            assert forall|k: int| 0 <= k < children@.len() implies copied_runs_fit(
                *#[trigger] children@[k],
                spans,
            ) by {
                lemma_one_width_copies_fit(&*children@[k], spans);
            }
        },
        Values::Union { type_ids, slots: Some(slots), children } => {
            let parts = dense_slices(
                a.union_fields(),
                gathered(type_ids@, ix, 0),
                gathered(slots@, ix, 0),
            );
            assert forall|k: int| 0 <= k < children@.len() implies copied_runs_fit(
                *#[trigger] children@[k],
                parts[k],
            ) by {
                lemma_one_width_copies_fit(&*children@[k], parts[k]);
            }
        },
        _ => {},
    }
}

/// Positions below `end` that do not repeat are at most `end` many.
proof fn lemma_pigeonhole(raw: Seq<usize>, end: int)
    requires
        0 <= end,
        raw.no_duplicates(),
        forall|i: int| 0 <= i < raw.len() ==> #[trigger] raw[i] < end,
    ensures
        raw.len() <= end,
{
    broadcast use vstd::seq_lib::seq_to_set_is_finite;

    let places = Seq::new(raw.len(), |i: int| raw[i] as int);
    assert(places.no_duplicates()) by {
        assert forall|i: int, j: int| 0 <= i < places.len() && 0 <= j < places.len() && i
            != j implies places[i] != places[j] by {
            assert(raw[i] != raw[j]);
        }
    }
    lemma_int_range(0, end);
    assert(places.to_set().subset_of(set_int_range(0, end))) by {
        assert forall|x: int| places.to_set().contains(x) implies set_int_range(0, end).contains(
            x,
        ) by {
            let i = choose|i: int| 0 <= i < places.len() && places[i] == x;
            assert(raw[i] < end);
        }
    }
    places.unique_seq_to_set();
    lemma_len_subset(places.to_set(), set_int_range(0, end));
}

/// No two spans overlap.
spec fn disjoint(spans: Seq<Span>) -> bool {
    forall|i: int, j: int|
        0 <= i < j < spans.len() ==> {
            ||| (#[trigger] spans[i]).len == 0
            ||| (#[trigger] spans[j]).len == 0
            ||| spans[i].start + spans[i].len <= spans[j].start
            ||| spans[j].start + spans[j].len <= spans[i].start
        }
}

/// Each position lies in one of the spans.
proof fn lemma_in_span(spans: Seq<Span>, end: int, k: nat, p: int) -> (i: int)
    requires
        spans_wf(spans),
        spans_within(spans, end),
        forall|j: int| 0 <= j < spans.len() ==> (#[trigger] spans[j]).present,
        end <= usize::MAX,
        k <= spans.len(),
        0 <= p < spread(spans, k).raw.len(),
    ensures
        0 <= i < k,
        spans[i].start <= spread(spans, k).raw[p] < spans[i].start + spans[i].len,
    decreases k,
{
    let before = spread(spans, (k - 1) as nat);
    let next = span_positions(spans[k - 1]);
    if p < before.raw.len() {
        assert(spread(spans, k).raw[p] == before.raw[p]);
        lemma_in_span(spans, end, (k - 1) as nat, p)
    } else {
        assert(spread(spans, k).raw[p] == next.raw[p - before.raw.len()]);
        assert(spans[k - 1].present);
        k - 1
    }
}

/// Spans that do not overlap give positions that do not repeat, and no more of them than fit.
proof fn lemma_disjoint_spread(spans: Seq<Span>, end: int, k: nat)
    requires
        spans_wf(spans),
        spans_within(spans, end),
        disjoint(spans),
        forall|j: int| 0 <= j < spans.len() ==> (#[trigger] spans[j]).present,
        0 <= end <= usize::MAX,
        k <= spans.len(),
    ensures
        spread(spans, k).raw.no_duplicates(),
        total(spans, k) <= end,
    decreases k,
{
    let raw = spread(spans, k).raw;
    if k > 0 {
        lemma_disjoint_spread(spans, end, (k - 1) as nat);
        let before = spread(spans, (k - 1) as nat).raw;
        let next = span_positions(spans[k - 1]).raw;
        assert(spans[k - 1].present);
        assert forall|p: int, q: int| 0 <= p < q < raw.len() implies raw[p] != raw[q] by {
            if q < before.len() {
                assert(raw[p] == before[p] && raw[q] == before[q]);
            } else if p < before.len() {
                let i = lemma_in_span(spans, end, (k - 1) as nat, p);
                assert(raw[p] == before[p]);
                assert(raw[q] == next[q - before.len()]);
                assert(spans[i].present);
            } else {
                assert(raw[p] == next[p - before.len()]);
                assert(raw[q] == next[q - before.len()]);
            }
        }
    }
    lemma_spread(spans, end, k);
    lemma_spread_all(spans, k);
    assert forall|p: int| 0 <= p < raw.len() implies #[trigger] raw[p] < end by {
        assert(spread(spans, k).valid[p]);
    }
    lemma_pigeonhole(raw, end);
}

/// Positions that are all there, lie below `len`, and do not repeat.
pub open spec fn asks_once(ix: IndexSeq, len: int) -> bool {
    &&& ix == IndexSeq::all_of(ix.raw)
    &&& ix.raw.no_duplicates()
    &&& ix.below(len)
}

/// Slots that are asked for once have parts of the child that do not overlap.
proof fn lemma_cut_once(
    bits: Option<Seq<bool>>,
    offsets: Offsets,
    len: nat,
    end: nat,
    ix: IndexSeq,
)
    requires
        offsets.cuts(len, end),
        end <= usize::MAX,
        asks_once(ix, len as int),
    ensures
        ({
            let spans = cut_spans(bits, offsets, ix);
            &&& spans_wf(spans)
            &&& total(spans, ix.len()) <= offsets.at(len as int)
            &&& are_slices(spans, end as int)
            &&& disjoint(spans)
        }),
{
    let spans = cut_spans(bits, offsets, ix);
    let last = offsets.at(len as int);
    assert(0 <= offsets.at(0) <= last);
    lemma_cut_spans(bits, offsets, len, last as nat, ix);
    assert forall|i: int| 0 <= i < spans.len() implies {
        &&& (#[trigger] spans[i]).present
        &&& 0 <= spans[i].start
        &&& 0 <= spans[i].len
        &&& spans[i].start + spans[i].len <= end
    } by {
        assert(spans[i].start + spans[i].len <= last);
    }
    assert forall|i: int, j: int| 0 <= i < j < spans.len() implies {
        ||| (#[trigger] spans[i]).len == 0
        ||| (#[trigger] spans[j]).len == 0
        ||| spans[i].start + spans[i].len <= spans[j].start
        ||| spans[j].start + spans[j].len <= spans[i].start
    } by {
        let x = ix.raw[i] as int;
        let y = ix.raw[j] as int;
        assert(x != y);
        if x < y {
            assert(offsets.at(x + 1) <= offsets.at(y));
        } else {
            assert(offsets.at(y + 1) <= offsets.at(x));
        }
    }
    lemma_disjoint_spread(spans, last, ix.len());
}

/// The same of parts of one size.
proof fn lemma_fixed_once(size: int, len: int, ix: IndexSeq)
    requires
        0 <= size,
        0 <= len,
        len * size <= usize::MAX,
        asks_once(ix, len),
    ensures
        asks_once(spread(fixed_spans(size, ix), ix.len()), len * size),
{
    let spans = fixed_spans(size, ix);
    assert(0 <= len * size) by (nonlinear_arith)
        requires
            0 <= len,
            0 <= size,
    ;
    assert forall|i: int| 0 <= i < spans.len() implies (#[trigger] spans[i]).present && 0
        <= spans[i].start && spans[i].start + spans[i].len <= len * size by {
        let raw = ix.raw[i] as int;
        assert(ix.valid[i]);
        assert(0 <= raw * size && raw * size + size <= len * size) by (nonlinear_arith)
            requires
                0 <= raw < len,
                0 <= size,
        ;
    }
    assert forall|i: int, j: int| 0 <= i < j < spans.len() implies {
        ||| (#[trigger] spans[i]).len == 0
        ||| (#[trigger] spans[j]).len == 0
        ||| spans[i].start + spans[i].len <= spans[j].start
        ||| spans[j].start + spans[j].len <= spans[i].start
    } by {
        let x = ix.raw[i] as int;
        let y = ix.raw[j] as int;
        assert(x != y);
        assert(x * size + size <= y * size || y * size + size <= x * size) by (nonlinear_arith)
            requires
                x != y,
                0 <= size,
        ;
        assert(ix.valid[i] && ix.valid[j]);
    }
    lemma_disjoint_spread(spans, len * size, ix.len());
    lemma_spread(spans, len * size, ix.len());
    lemma_spread_all(spans, ix.len());
}

/// One of the first `k` offsets stands beside `id` and is `value`.
spec fn stands_beside(ids: Seq<i8>, offsets: Seq<i32>, id: i8, k: nat, value: usize) -> bool {
    exists|i: int| 0 <= i < k && ids[i] == id && #[trigger] offsets[i] == value
}

/// Offsets that differ beside an id give positions that do not repeat.
proof fn lemma_offsets_once(ids: Seq<i8>, offsets: Seq<i32>, id: i8, k: nat)
    requires
        k <= ids.len() == offsets.len(),
        apart(ids, offsets),
        forall|i: int| 0 <= i < offsets.len() ==> 0 <= #[trigger] offsets[i],
    ensures
        offsets_of(ids, offsets, id, k).no_duplicates(),
        forall|p: int|
            0 <= p < offsets_of(ids, offsets, id, k).len() ==> stands_beside(
                ids,
                offsets,
                id,
                k,
                #[trigger] offsets_of(ids, offsets, id, k)[p],
            ),
    decreases k,
{
    if k > 0 {
        lemma_offsets_once(ids, offsets, id, (k - 1) as nat);
        let before = offsets_of(ids, offsets, id, (k - 1) as nat);
        let beside = offsets_of(ids, offsets, id, k);
        assert forall|p: int| 0 <= p < beside.len() implies stands_beside(
            ids,
            offsets,
            id,
            k,
            #[trigger] beside[p],
        ) by {
            if p < before.len() {
                assert(stands_beside(ids, offsets, id, (k - 1) as nat, before[p]));
            } else {
                assert(offsets[k - 1] == beside[p]);
            }
        }
        assert forall|p: int, q: int| 0 <= p < q < beside.len() implies beside[p]
            != beside[q] by {
            if q < before.len() {
                assert(before[p] != before[q]);
            } else {
                assert(stands_beside(ids, offsets, id, (k - 1) as nat, before[p]));
                let i = choose|i: int|
                    0 <= i < k - 1 && ids[i] == id && #[trigger] offsets[i] == before[p];
                assert(offsets[i] != offsets[k - 1]);
            }
        }
    }
}

/// Children that can each be taken from can be taken from together.
pub(crate) proof fn lemma_children_fit(children: Seq<ArrayRef>, picks: Seq<IndexSeq>, k: nat)
    requires
        k <= children.len(),
        forall|j: int|
            0 <= j < children.len() ==> in_bounds(*#[trigger] children[j], picks[j]) && take_error(
                *children[j],
                picks[j],
            ) is None,
    ensures
        children_error(children, picks, k) is None,
    decreases k,
{
    if k > 0 {
        lemma_children_fit(children, picks, (k - 1) as nat);
        assert(in_bounds(*children[k - 1], picks[k - 1]));
    }
}

/// What a dense union asks of its children for slots that are asked for once.
proof fn lemma_dense_once(a: &Array, ix: IndexSeq)
    requires
        a.wf(),
        a.values is Union,
        a.values->slots is Some,
        apart(a.values->type_ids@, a.values->slots->0@),
        asks_once(ix, a.len as int),
    ensures
        ({
            let ids = gathered(a.values->type_ids@, ix, 0);
            let offsets = gathered(a.values->slots->0@, ix, 0);
            let picks = dense_picks(a.union_fields(), ids, offsets);
            &&& forall|i: int| 0 <= i < ids.len() ==> has_field(a.union_fields(), #[trigger] ids[i])
            &&& forall|i: int|
                0 <= i < ids.len() ==> occurrences(ids, #[trigger] ids[i], i as nat) <= i32::MAX
            &&& forall|k: int|
                0 <= k < a.values->children@.len() ==> asks_once(
                    picks[k],
                    (#[trigger] a.values->children@[k]).len as int,
                )
        }),
{
    let fields = a.union_fields();
    let type_ids = a.values->type_ids@;
    let slots = a.values->slots->0@;
    let children = a.values->children@;
    let ids = gathered(type_ids, ix, 0);
    let offsets = gathered(slots, ix, 0);
    let picks = dense_picks(fields, ids, offsets);
    assert forall|i: int| 0 <= i < ix.len() implies {
        &&& ix.raw[i] < a.len
        &&& #[trigger] ids[i] == type_ids[ix.raw[i] as int]
        &&& offsets[i] == slots[ix.raw[i] as int]
        &&& 0 <= offsets[i] < children[field_position(fields, ids[i])].len
        &&& has_field(fields, ids[i])
    } by {
        assert(ix.valid[i]);
        assert(ix.raw[i] < a.len);
        assert(has_field(fields, type_ids[ix.raw[i] as int]));
        assert(0 <= slots[ix.raw[i] as int]);
    }
    assert forall|i: int| 0 <= i < offsets.len() implies 0 <= #[trigger] offsets[i] by {
        assert(ids[i] == type_ids[ix.raw[i] as int]);
    }
    assert(apart(ids, offsets)) by {
        assert forall|i: int, j: int| 0 <= i < j < ids.len() && ids[i] == ids[j] implies
            #[trigger] offsets[i] != #[trigger] offsets[j] by {
            let x = ix.raw[i] as int;
            let y = ix.raw[j] as int;
            assert(x != y);
            assert(ids[i] == type_ids[x] && ids[j] == type_ids[y]);
            assert(slots[x] != slots[y]);
        }
    }
    assert forall|i: int| 0 <= i < ids.len() implies occurrences(ids, #[trigger] ids[i], i as nat)
        <= i32::MAX by {
        let beside = offsets_of(ids, offsets, ids[i], (i + 1) as nat);
        lemma_offsets_of(ids, offsets, ids[i], (i + 1) as nat);
        lemma_offsets_once(ids, offsets, ids[i], (i + 1) as nat);
        assert forall|p: int| 0 <= p < beside.len() implies #[trigger] beside[p] < 0x8000_0000 by {
            assert(stands_beside(ids, offsets, ids[i], (i + 1) as nat, beside[p]));
        }
        lemma_pigeonhole(beside, 0x8000_0000);
    }
    assert forall|k: int| 0 <= k < children.len() implies asks_once(
        picks[k],
        (#[trigger] children[k]).len as int,
    ) by {
        let id = fields[k].0;
        let beside = offsets_of(ids, offsets, id, ids.len());
        lemma_offsets_once(ids, offsets, id, ids.len());
        assert(picks[k] == IndexSeq::all_of(beside));
        assert forall|p: int| 0 <= p < beside.len() implies #[trigger] beside[p]
            < children[k].len by {
            assert(stands_beside(ids, offsets, id, ids.len(), beside[p]));
            let j = choose|j: int|
                0 <= j < ids.len() && ids[j] == id && #[trigger] offsets[j] == beside[p];
            let place = field_position(fields, ids[j]);
            assert(has_field(fields, ids[j]));
            assert(fields[place].0 == fields[k].0);
            assert(fields_wf(fields));
            assert(place == k);
        }
    }
}

/// Slices that do not overlap mark each slot once.
proof fn lemma_slices_once(spans: Seq<Span>, len: int)
    requires
        are_slices(spans, len),
        disjoint(spans),
        0 <= len <= usize::MAX,
    ensures
        asks_once(slots_of(spans), len),
        slots_of(spans).wf(),
{
    lemma_slices(spans, len);
    lemma_disjoint_spread(spans, len, spans.len());
    lemma_spread(spans, len, spans.len());
    lemma_spread_all(spans, spans.len());
}

/// What slices that do not overlap mark between edges does not overlap.
proof fn lemma_pieces_disjoint(edge: Seq<int>, spans: Seq<Span>, coarse: Seq<Span>)
    requires
        are_edges(edge),
        are_slices(spans, edge.len() - 1),
        disjoint(spans),
        pieces_of(edge, spans, coarse),
    ensures
        disjoint(coarse),
        are_slices(coarse, edge[edge.len() - 1]),
{
    assert forall|i: int| 0 <= i < coarse.len() implies {
        &&& (#[trigger] coarse[i]).present
        &&& 0 <= coarse[i].start
        &&& 0 <= coarse[i].len
        &&& coarse[i].start + coarse[i].len <= edge[edge.len() - 1]
    } by {
        assert(spans[i].present);
        assert(edge[0] <= edge[spans[i].start] <= edge[spans[i].start + spans[i].len]
            <= edge[edge.len() - 1]);
    }
    assert forall|i: int, j: int| 0 <= i < j < coarse.len() implies {
        ||| (#[trigger] coarse[i]).len == 0
        ||| (#[trigger] coarse[j]).len == 0
        ||| coarse[i].start + coarse[i].len <= coarse[j].start
        ||| coarse[j].start + coarse[j].len <= coarse[i].start
    } by {
        assert(spans[i].present && spans[j].present);
        let x = spans[i];
        let y = spans[j];
        if x.len > 0 && y.len > 0 {
            if x.start + x.len <= y.start {
                assert(edge[x.start + x.len] <= edge[y.start]);
            } else {
                assert(edge[y.start + y.len] <= edge[x.start]);
            }
        }
    }
}

/// Slices that do not overlap can be copied from an array that holds its parts apart, as far as its
/// runs fit.
proof fn lemma_copy_never_fails(a: &Array, spans: Seq<Span>)
    requires
        a.wf(),
        holds_apart(*a),
        are_slices(spans, a.len as int),
        disjoint(spans),
        copied_runs_fit(*a, spans),
    ensures
        copy_error(*a, spans) is None,
    decreases a,
{
    let ix = slots_of(spans);
    lemma_slices_once(spans, a.len as int);
    match &a.values {
        Values::Bytes { offsets, data } => {
            assert(data@.len() == data.len());
            lemma_cut_once(None, *offsets, a.len as nat, data@.len(), ix);
            lemma_within_limit(cut_spans(None, *offsets, ix), offsets.limit(), ix.len());
        },
        Values::List { offsets, child } => {
            lemma_cut_once(None, *offsets, a.len as nat, child.len as nat, ix);
            lemma_within_limit(cut_spans(None, *offsets, ix), offsets.limit(), ix.len());
            let edge = Seq::new((a.len + 1) as nat, |i: int| offsets.at(i));
            let coarse = cut_slices(*offsets, spans);
            assert(are_edges(edge));
            assert(pieces_of(edge, spans, coarse)) by {
                assert forall|i: int| 0 <= i < spans.len() implies #[trigger] coarse[i] == (Span {
                    start: edge[spans[i].start],
                    len: edge[spans[i].start + spans[i].len] - edge[spans[i].start],
                    present: true,
                }) by {
                    assert(spans[i].present);
                }
            }
            lemma_pieces_disjoint(edge, spans, coarse);
            lemma_wider(coarse, edge[edge.len() - 1], child.len as int);
            lemma_copy_never_fails(child, coarse);
        },
        Values::ListView { offsets, sizes, child } => {
            let parts = view_slices(*offsets, *sizes, ix);
            lemma_views_once(*offsets, *sizes, a.len as nat, child.len as nat, ix);
            lemma_within_limit(parts, offsets.limit(), ix.len());
            lemma_copy_never_fails(child, parts);
        },
        Values::FixedSizeList { size, child } => {
            lemma_fixed_apart(*size as int, a.len as int, spans);
            lemma_copy_never_fails(child, fixed_slices(*size as int, spans));
        },
        Values::Struct { columns } => {
            let slices = Seq::new(columns@.len(), |k: int| spans);
            assert forall|k: int| 0 <= k < columns@.len() implies copy_error(
                *#[trigger] columns@[k],
                slices[k],
            ) is None by {
                assert(columns@[k].len == a.len);
                lemma_copy_never_fails(&*columns@[k], spans);
            }
            lemma_no_copy_fails(columns@, slices, columns@.len());
        },
        Values::Runs { end_type, ends, offset, values } => {
            assert forall|i: int| 0 <= i < ix.len() implies #[trigger] ix.raw[i] < a.len by {
                assert(ix.valid[i]);
            }
            lemma_pigeonhole(ix.raw, a.len as int);
            if a.len > 0 {
                assert(ends@[ends@.len() - 1] <= end_type.max_value());
            }
        },
        Values::Union { type_ids, slots: None, children } => {
            let slices = Seq::new(children@.len(), |k: int| spans);
            assert forall|k: int| 0 <= k < children@.len() implies copy_error(
                *#[trigger] children@[k],
                slices[k],
            ) is None by {
                assert(children@[k].len == a.len);
                lemma_copy_never_fails(&*children@[k], spans);
            }
            lemma_no_copy_fails(children@, slices, children@.len());
        },
        Values::Union { type_ids, slots: Some(slots), children } => {
            let ids = gathered(type_ids@, ix, 0);
            let offsets = gathered(slots@, ix, 0);
            let parts = dense_slices(a.union_fields(), ids, offsets);
            let picks = dense_picks(a.union_fields(), ids, offsets);
            lemma_dense_once(a, ix);
            assert forall|k: int| 0 <= k < children@.len() implies copy_error(
                *#[trigger] children@[k],
                parts[k],
            ) is None by {
                assert(asks_once(picks[k], children@[k].len as int));
                lemma_single_once(picks[k], children@[k].len as int);
                assert(parts[k] == single_slices(picks[k].raw));
                lemma_copy_never_fails(&*children@[k], parts[k]);
            }
            lemma_no_copy_fails(children@, parts, children@.len());
        },
        _ => {},
    }
}

/// Slices of fewer slots are slices of more.
proof fn lemma_wider(spans: Seq<Span>, len: int, more: int)
    requires
        are_slices(spans, len),
        len <= more,
    ensures
        are_slices(spans, more),
{
    assert forall|i: int| 0 <= i < spans.len() implies {
        &&& (#[trigger] spans[i]).present
        &&& 0 <= spans[i].start
        &&& 0 <= spans[i].len
        &&& spans[i].start + spans[i].len <= more
    } by {
        assert(spans[i].start + spans[i].len <= len);
    }
}

/// Slots that are asked for once are slices that do not overlap.
proof fn lemma_single_once(ix: IndexSeq, len: int)
    requires
        asks_once(ix, len),
    ensures
        are_slices(single_slices(ix.raw), len),
        disjoint(single_slices(ix.raw)),
{
    let spans = single_slices(ix.raw);
    assert forall|i: int| 0 <= i < spans.len() implies {
        &&& (#[trigger] spans[i]).present
        &&& 0 <= spans[i].start
        &&& 0 <= spans[i].len
        &&& spans[i].start + spans[i].len <= len
    } by {
        assert(ix.valid[i]);
        assert(ix.raw[i] < len);
    }
    assert forall|i: int, j: int| 0 <= i < j < spans.len() implies {
        ||| (#[trigger] spans[i]).len == 0
        ||| (#[trigger] spans[j]).len == 0
        ||| spans[i].start + spans[i].len <= spans[j].start
        ||| spans[j].start + spans[j].len <= spans[i].start
    } by {
        assert(ix.raw[i] != ix.raw[j]);
    }
}

/// List views that do not share items, each asked for once, mark parts that do not overlap and that
/// offsets can reach.
proof fn lemma_views_once(offsets: Offsets, sizes: Offsets, len: nat, end: nat, ix: IndexSeq)
    requires
        offsets.spans(sizes, len, end),
        unshared(offsets, sizes),
        end <= usize::MAX,
        asks_once(ix, len as int),
    ensures
        ({
            let parts = view_slices(offsets, sizes, ix);
            &&& spans_wf(parts)
            &&& are_slices(parts, end as int)
            &&& disjoint(parts)
            &&& total(parts, ix.len()) <= offsets.limit()
        }),
{
    let parts = view_slices(offsets, sizes, ix);
    let bound: int = if offsets.limit() < end {
        offsets.limit()
    } else {
        end as int
    };
    assert forall|i: int| 0 <= i < parts.len() implies {
        &&& (#[trigger] parts[i]).present
        &&& 0 <= parts[i].start
        &&& 0 <= parts[i].len
        &&& parts[i].start + parts[i].len <= bound
    } by {
        assert(ix.valid[i]);
        let raw = ix.raw[i] as int;
        assert(raw < len);
        assert(0 <= offsets.at(raw));
    }
    assert forall|i: int, j: int| 0 <= i < j < parts.len() implies {
        ||| (#[trigger] parts[i]).len == 0
        ||| (#[trigger] parts[j]).len == 0
        ||| parts[i].start + parts[i].len <= parts[j].start
        ||| parts[j].start + parts[j].len <= parts[i].start
    } by {
        assert(ix.valid[i] && ix.valid[j]);
        let x = ix.raw[i] as int;
        let y = ix.raw[j] as int;
        assert(x < len && y < len && x != y);
        assert(offsets.at(x) >= 0 && offsets.at(y) >= 0);
    }
    lemma_slices(parts, bound);
    lemma_wider(parts, bound, end as int);
    lemma_disjoint_spread(parts, bound, ix.len());
}

/// Slices of lists of one size that do not overlap mark items that do not.
proof fn lemma_fixed_apart(size: int, len: int, spans: Seq<Span>)
    requires
        0 <= size,
        0 <= len <= usize::MAX,
        len * size <= usize::MAX,
        are_slices(spans, len),
        disjoint(spans),
    ensures
        are_slices(fixed_slices(size, spans), len * size),
        disjoint(fixed_slices(size, spans)),
{
    let coarse = fixed_slices(size, spans);
    let edge = Seq::new((len + 1) as nat, |i: int| i * size);
    assert(0 * size == 0) by (nonlinear_arith);
    assert(are_edges(edge)) by {
        assert forall|i: int, j: int| 0 <= i <= j < edge.len() implies #[trigger] edge[i]
            <= #[trigger] edge[j] by {
            assert(i * size <= j * size) by (nonlinear_arith)
                requires
                    i <= j,
                    0 <= size,
            ;
        }
    }
    assert(pieces_of(edge, spans, coarse)) by {
        assert forall|i: int| 0 <= i < spans.len() implies #[trigger] coarse[i] == (Span {
            start: edge[spans[i].start],
            len: edge[spans[i].start + spans[i].len] - edge[spans[i].start],
            present: true,
        }) by {
            assert(spans[i].present);
            let start = spans[i].start;
            let count = spans[i].len;
            assert((start + count) * size - start * size == count * size) by (nonlinear_arith);
        }
    }
    lemma_pieces_disjoint(edge, spans, coarse);
}

/// Positions that do not repeat can be taken from a packed array, as far as its runs fit.
pub proof fn lemma_once_never_fails(a: &Array, ix: IndexSeq)
    requires
        a.wf(),
        packed(*a),
        asks_once(ix, a.len as int),
        runs_fit(*a, ix),
    ensures
        take_error(*a, ix) is None,
    decreases a,
{
    if ix.len() > 0 {
        match &a.values {
            Values::Bytes { offsets, data } => {
                assert(data@.len() == data.len());
                lemma_cut_once(a.bits(), *offsets, a.len as nat, data@.len(), ix);
                lemma_within_limit(
                    cut_spans(a.bits(), *offsets, ix),
                    offsets.limit(),
                    ix.len(),
                );
            },
            Values::List { offsets, child } => {
                let spans = cut_spans(a.bits(), *offsets, ix);
                lemma_cut_once(a.bits(), *offsets, a.len as nat, child.len as nat, ix);
                lemma_within_limit(spans, offsets.limit(), ix.len());
                lemma_copy_never_fails(child, spans);
            },
            Values::FixedSizeList { size, child } => {
                lemma_fixed_once(*size as int, a.len as int, ix);
                lemma_once_never_fails(child, spread(fixed_spans(*size as int, ix), ix.len()));
            },
            Values::Struct { columns } => {
                let picks = Seq::new(columns@.len(), |k: int| ix);
                assert forall|k: int| 0 <= k < columns@.len() implies in_bounds(
                    *#[trigger] columns@[k],
                    picks[k],
                ) && take_error(*columns@[k], picks[k]) is None by {
                    assert(columns@[k].len == a.len);
                    lemma_once_never_fails(&*columns@[k], ix);
                }
                lemma_children_fit(columns@, picks, columns@.len());
            },
            Values::Runs { end_type, ends, offset, values } => {
                assert forall|i: int| 0 <= i < ix.len() implies #[trigger] ix.raw[i] < a.len by {
                    assert(ix.valid[i]);
                }
                lemma_pigeonhole(ix.raw, a.len as int);
                assert(ends@[ends@.len() - 1] <= end_type.max_value());
            },
            Values::Union { type_ids, slots: None, children } => {
                let picks = Seq::new(children@.len(), |k: int| ix);
                assert forall|k: int| 0 <= k < children@.len() implies in_bounds(
                    *#[trigger] children@[k],
                    picks[k],
                ) && take_error(*children@[k], picks[k]) is None by {
                    assert(children@[k].len == a.len);
                    lemma_once_never_fails(&*children@[k], ix);
                }
                lemma_children_fit(children@, picks, children@.len());
                let ids = gathered(type_ids@, ix, 0);
                assert forall|i: int| 0 <= i < ids.len() implies has_field(
                    a.union_fields(),
                    #[trigger] ids[i],
                ) by {
                    assert(ix.valid[i]);
                    assert(ix.raw[i] < a.len);
                    assert(has_field(a.union_fields(), type_ids@[ix.raw[i] as int]));
                }
            },
            Values::Union { type_ids, slots: Some(slots), children } => {
                let ids = gathered(type_ids@, ix, 0);
                let picks = dense_picks(a.union_fields(), ids, gathered(slots@, ix, 0));
                lemma_dense_once(a, ix);
                assert forall|k: int| 0 <= k < children@.len() implies in_bounds(
                    *#[trigger] children@[k],
                    picks[k],
                ) && take_error(*children@[k], picks[k]) is None by {
                    assert(asks_once(picks[k], children@[k].len as int));
                    lemma_once_never_fails(&*children@[k], picks[k]);
                }
                lemma_children_fit(children@, picks, children@.len());
            },
            _ => {},
        }
    }
}

/// Arrays that hold nothing are packed.
proof fn lemma_empty_is_packed(a: &Array, r: &Array)
    requires
        is_empty_like(*a, *r),
    ensures
        packed(*r),
        holds_apart(*r),
    decreases a,
{
    match (&a.values, &r.values) {
        (Values::List { offsets, child }, Values::List { offsets: o, child: c }) => {
            lemma_empty_is_packed(child, c);
        },
        (
            Values::ListView { offsets, sizes, child },
            Values::ListView { offsets: o, sizes: s, child: c },
        ) => {
            lemma_empty_is_packed(child, c);
        },
        (
            Values::FixedSizeList { size, child },
            Values::FixedSizeList { size: s, child: c },
        ) => {
            lemma_empty_is_packed(child, c);
        },
        (Values::Struct { columns }, Values::Struct { columns: c }) => {
            assert forall|k: int| 0 <= k < c@.len() implies packed(*#[trigger] c@[k])
                && holds_apart(*c@[k]) by {
                assert(is_empty_like(*columns@[k], *c@[k]));
                lemma_empty_is_packed(&*columns@[k], &*c@[k]);
            }
        },
        (
            Values::Union { type_ids, slots, children },
            Values::Union { type_ids: t, slots: s, children: c },
        ) => {
            assert forall|k: int| 0 <= k < c@.len() implies packed(*#[trigger] c@[k])
                && holds_apart(*c@[k]) by {
                assert(is_empty_like(*children@[k], *c@[k]));
                lemma_empty_is_packed(&*children@[k], &*c@[k]);
            }
        },
        _ => {},
    }
}

/// An id occurs more often up to a later place where it stood in between.
proof fn lemma_occurrences_rise(ids: Seq<i8>, i: int, j: nat)
    requires
        0 <= i < j <= ids.len(),
    ensures
        occurrences(ids, ids[i], i as nat) < occurrences(ids, ids[i], j),
    decreases j,
{
    if i < j - 1 {
        lemma_occurrences_rise(ids, i, (j - 1) as nat);
    }
}

/// Offsets that count ids differ beside the same one.
proof fn lemma_counts_apart(ids: Seq<i8>, offsets: Seq<i32>)
    requires
        counts(ids, offsets),
    ensures
        apart(ids, offsets),
{
    assert forall|i: int, j: int| 0 <= i < j < ids.len() && ids[i] == ids[j] implies
        #[trigger] offsets[i] != #[trigger] offsets[j] by {
        lemma_occurrences_rise(ids, i, j as nat);
    }
}

/// What was copied holds its parts apart.
proof fn lemma_copied_is_apart(a: &Array, spans: Seq<Span>, r: &Array)
    requires
        r.wf(),
        copied(*a, spans, *r),
    ensures
        holds_apart(*r),
    decreases a,
{
    let ix = slots_of(spans);
    match (&a.values, &r.values) {
        (Values::List { offsets, child }, Values::List { offsets: o, child: c }) => {
            lemma_copied_is_apart(child, cut_slices(*offsets, spans), c);
        },
        (
            Values::ListView { offsets, sizes, child },
            Values::ListView { offsets: o, sizes: s, child: c },
        ) => {
            let parts = view_slices(*offsets, *sizes, ix);
            assert(o.spans(*s, r.len as nat, c.len as nat));
            assert forall|i: int| 0 <= i < parts.len() implies 0 <= (#[trigger] parts[i]).len by {
                assert(s.at(i) == parts[i].len);
            }
            assert forall|i: int| 0 <= i < ix.len() implies #[trigger] o.at(i) + s.at(i)
                <= o.limit() by {
                assert(s.at(i) == parts[i].len);
                lemma_total_monotone(parts, (i + 1) as nat, parts.len());
            }
            assert forall|i: int, j: int| 0 <= i < j < ix.len() implies #[trigger] o.at(i) + s.at(i)
                <= #[trigger] o.at(j) by {
                assert(s.at(i) == parts[i].len);
                lemma_total_monotone(parts, (i + 1) as nat, j as nat);
            }
            lemma_copied_is_apart(child, parts, c);
        },
        (
            Values::FixedSizeList { size, child },
            Values::FixedSizeList { size: s, child: c },
        ) => {
            lemma_copied_is_apart(child, fixed_slices(*size as int, spans), c);
        },
        (Values::Struct { columns }, Values::Struct { columns: c }) => {
            assert forall|k: int| 0 <= k < c@.len() implies holds_apart(*#[trigger] c@[k]) by {
                assert(copied(*columns@[k], spans, *c@[k]));
                lemma_copied_is_apart(&*columns@[k], spans, &*c@[k]);
            }
        },
        (
            Values::Union { type_ids, slots: None, children },
            Values::Union { type_ids: t, slots: s, children: c },
        ) => {
            assert forall|k: int| 0 <= k < c@.len() implies holds_apart(*#[trigger] c@[k]) by {
                assert(copied(*children@[k], spans, *c@[k]));
                lemma_copied_is_apart(&*children@[k], spans, &*c@[k]);
            }
        },
        (
            Values::Union { type_ids, slots: Some(slots), children },
            Values::Union { type_ids: t, slots: Some(s), children: c },
        ) => {
            let ids = gathered(type_ids@, ix, 0);
            let parts = dense_slices(a.union_fields(), ids, gathered(slots@, ix, 0));
            assert forall|k: int| 0 <= k < c@.len() implies holds_apart(*#[trigger] c@[k]) by {
                assert(copied(*children@[k], parts[k], *c@[k]));
                lemma_copied_is_apart(&*children@[k], parts[k], &*c@[k]);
            }
            lemma_counts_apart(ids, s@);
        },
        _ => {},
    }
}

/// What was taken is packed.
pub proof fn lemma_taken_is_packed(
    a: &Array,
    ix: IndexSeq,
    index_bits: Option<Seq<bool>>,
    r: &Array,
)
    requires
        laid_out(*a, ix, index_bits, *r),
    ensures
        packed(*r),
    decreases a,
{
    if ix.len() == 0 {
        lemma_empty_is_packed(a, r);
    } else {
        match (&a.values, &r.values) {
            (Values::List { offsets, child }, Values::List { offsets: o, child: c }) => {
                lemma_copied_is_apart(child, cut_spans(a.bits(), *offsets, ix), c);
            },
            (
                Values::FixedSizeList { size, child },
                Values::FixedSizeList { size: s, child: c },
            ) => {
                let asked = spread(fixed_spans(*size as int, ix), ix.len());
                lemma_taken_is_packed(
                    child,
                    asked,
                    only_with_nulls(Some(asked.valid)),
                    c,
                );
            },
            (Values::Struct { columns }, Values::Struct { columns: c }) => {
                assert forall|k: int| 0 <= k < c@.len() implies packed(*#[trigger] c@[k]) by {
                    assert(laid_out(*columns@[k], ix, index_bits, *c@[k]));
                    lemma_taken_is_packed(&*columns@[k], ix, index_bits, &*c@[k]);
                }
            },
            (
                Values::Union { type_ids, slots: None, children },
                Values::Union { type_ids: t, slots: s, children: c },
            ) => {
                assert forall|k: int| 0 <= k < c@.len() implies packed(*#[trigger] c@[k]) by {
                    assert(laid_out(*children@[k], ix, index_bits, *c@[k]));
                    lemma_taken_is_packed(&*children@[k], ix, index_bits, &*c@[k]);
                }
            },
            (
                Values::Union { type_ids, slots: Some(slots), children },
                Values::Union { type_ids: t, slots: Some(s), children: c },
            ) => {
                let ids = gathered(type_ids@, ix, 0);
                let picks = dense_picks(a.union_fields(), ids, gathered(slots@, ix, 0));
                assert forall|k: int| 0 <= k < c@.len() implies packed(*#[trigger] c@[k]) by {
                    assert(laid_out(*children@[k], picks[k], None, *c@[k]));
                    lemma_taken_is_packed(&*children@[k], picks[k], None, &*c@[k]);
                }
                lemma_counts_apart(ids, s@);
            },
            _ => {},
        }
    }
}

/// Compaction keeps parts apart.
proof fn lemma_compacted_is_apart(a: &Array, r: &Array)
    requires
        holds_apart(*a),
        compacts_to(*a, *r),
    ensures
        holds_apart(*r),
    decreases a,
{
    if rebuilt(*a, *r) {
        match (&a.values, &r.values) {
            (Values::List { offsets, child }, Values::List { offsets: o, child: c }) => {
                lemma_compacted_is_apart(child, c);
            },
            (
                Values::ListView { offsets, sizes, child },
                Values::ListView { offsets: o, sizes: s, child: c },
            ) => {
                lemma_compacted_is_apart(child, c);
                assert(forall|i: int| #[trigger] o.at(i) == offsets.at(i));
                assert(forall|i: int| #[trigger] s.at(i) == sizes.at(i));
            },
            (
                Values::FixedSizeList { size, child },
                Values::FixedSizeList { size: s, child: c },
            ) => {
                lemma_compacted_is_apart(child, c);
            },
            (Values::Struct { columns }, Values::Struct { columns: c }) => {
                assert forall|k: int| 0 <= k < c@.len() implies holds_apart(*#[trigger] c@[k]) by {
                    assert(holds_apart(*columns@[k]));
                    lemma_compacted_is_apart(&*columns@[k], &*c@[k]);
                }
            },
            (
                Values::Union { type_ids, slots, children },
                Values::Union { type_ids: t, slots: s, children: c },
            ) => {
                assert forall|k: int| 0 <= k < c@.len() implies holds_apart(*#[trigger] c@[k]) by {
                    assert(holds_apart(*children@[k]));
                    lemma_compacted_is_apart(&*children@[k], &*c@[k]);
                }
            },
            _ => {},
        }
    }
}

/// Compaction keeps an array packed.
proof fn lemma_compacted_is_packed(a: &Array, r: &Array)
    requires
        packed(*a),
        compacts_to(*a, *r),
    ensures
        packed(*r),
    decreases a,
{
    if rebuilt(*a, *r) {
        match (&a.values, &r.values) {
            (Values::List { offsets, child }, Values::List { offsets: o, child: c }) => {
                lemma_compacted_is_apart(child, c);
            },
            (
                Values::FixedSizeList { size, child },
                Values::FixedSizeList { size: s, child: c },
            ) => {
                lemma_compacted_is_packed(child, c);
            },
            (Values::Struct { columns }, Values::Struct { columns: c }) => {
                assert forall|k: int| 0 <= k < c@.len() implies packed(*#[trigger] c@[k]) by {
                    assert(packed(*columns@[k]));
                    lemma_compacted_is_packed(&*columns@[k], &*c@[k]);
                }
            },
            (
                Values::Union { type_ids, slots, children },
                Values::Union { type_ids: t, slots: s, children: c },
            ) => {
                assert forall|k: int| 0 <= k < c@.len() implies packed(*#[trigger] c@[k]) by {
                    assert(packed(*children@[k]));
                    lemma_compacted_is_packed(&*children@[k], &*c@[k]);
                }
            },
            _ => {},
        }
    }
}

/// `restored` has the type of `values`, the same rows, and the same slots marked null.
pub open spec fn restores(values: Array, restored: Array) -> bool {
    &&& restored.data_type == values.data_type
    &&& restored.rows() == values.rows()
    &&& forall|i: int|
        0 <= i < values.len ==> #[trigger] valid_in(restored.bits(), i) == valid_in(
            values.bits(),
            i,
        )
}

/// Taking by `back` undoes taking by `there`.
pub open spec fn inverts(there: IndexSeq, back: IndexSeq) -> bool {
    &&& back.len() == there.len()
    &&& forall|i: int|
        0 <= i < back.len() ==> #[trigger] back.raw[i] < there.len()
            && there.raw[back.raw[i] as int] == i
}

/// Taking by a permutation and then by its inverse gives back the rows, and the second selection
/// cannot fail but for runs in it whose values do not fit.
pub proof fn law_inverse_permutation_restores(
    values: Array,
    there: Array,
    taken: Array,
    back: Array,
    options: Option<TakeOptions>,
)
    requires
        values.wf(),
        back.wf(),
        index_type(back) is Some,
        addressable(back),
        all_valid(there),
        all_valid(back),
        there.len == values.len,
        inverts(positions(there), positions(back)),
        selects(values, there, taken),
        runs_fit(taken, positions(back)),
    ensures
        may_take(taken, back, options),
        selection_error(taken, back, options) is None,
        forall|restored: Array| #[trigger]
            selects(taken, back, restored) ==> restores(values, restored),
{
    let outer = positions(there);
    let ix = positions(back);
    let mid = choose|mid: Array| #[trigger]
        takes(values, outer, mid) && laid_out(values, outer, there.bits(), mid) && compacts_to(
            mid,
            taken,
        );
    lemma_taken_is_packed(&values, outer, there.bits(), &mid);
    lemma_compacted_is_packed(&mid, &taken);
    assert forall|i: int| 0 <= i < ix.len() implies #[trigger] ix.valid[i] by {
        assert(valid_in(back.bits(), i));
    }
    assert(ix =~= IndexSeq::all_of(ix.raw));
    assert(ix.raw.no_duplicates()) by {
        assert forall|i: int, j: int| 0 <= i < ix.raw.len() && 0 <= j < ix.raw.len() && i
            != j implies ix.raw[i] != ix.raw[j] by {
            assert(outer.raw[ix.raw[i] as int] == i);
            assert(outer.raw[ix.raw[j] as int] == j);
        }
    }
    assert forall|i: int| 0 <= i < back.len implies !#[trigger] strays(back, i, taken.len) by {
        assert(valid_in(back.bits(), i));
        assert(0 <= index_value(back, i) <= usize::MAX);
        assert(ix.raw[i] < outer.len());
    }
    lemma_no_bounds_error(back, taken.len, back.len as nat);
    lemma_once_never_fails(&taken, ix);
    assert(has_bitmap(taken) == has_bitmap(values)) by {
        assert(taken.data_type == values.data_type);
    }
    assert forall|restored: Array| #[trigger] selects(taken, back, restored) implies restores(
        values,
        restored,
    ) by {
        assert forall|i: int| 0 <= i < values.len implies #[trigger] restored.row(i) == values.row(
            i,
        ) by {
            let via = ix.raw[i] as int;
            assert(restored.row(i) == picked(taken, via, ix.valid[i]));
            assert(valid_in(there.bits(), via));
            assert(taken.row(via) == picked(values, outer.raw[via] as int, outer.valid[via]));
        }
        assert forall|i: int| 0 <= i < values.len implies #[trigger] valid_in(restored.bits(), i)
            == valid_in(values.bits(), i) by {
            let via = ix.raw[i] as int;
            assert(valid_in(restored.bits(), i) == marked_valid(taken, via, ix.valid[i]));
            assert(valid_in(there.bits(), via));
            assert(valid_in(taken.bits(), via) == marked_valid(
                values,
                outer.raw[via] as int,
                outer.valid[via],
            ));
        }
        assert(restored.rows() =~= values.rows());
    }
}

/// Where the values hold no runs, or only runs of values of one width, the second selection never
/// fails.
pub proof fn law_inverse_permutation_never_fails(
    values: Array,
    there: Array,
    taken: Array,
    back: Array,
    options: Option<TakeOptions>,
)
    requires
        values.wf(),
        back.wf(),
        index_type(back) is Some,
        addressable(back),
        all_valid(there),
        all_valid(back),
        there.len == values.len,
        inverts(positions(there), positions(back)),
        selects(values, there, taken),
        runs_are_of_one_width(*values.data_type),
    ensures
        may_take(taken, back, options),
        selection_error(taken, back, options) is None,
        forall|restored: Array| #[trigger]
            selects(taken, back, restored) ==> restores(values, restored),
{
    lemma_one_width_fits(&taken, positions(back));
    law_inverse_permutation_restores(values, there, taken, back, options);
}

} // verus!
