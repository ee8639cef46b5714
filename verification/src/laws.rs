//! What holds of selections as a whole.
//!
//! The laws of this module speak of the rows that arrays hold. Those of the modules below speak of
//! calls: what goes in and what comes out, read off numbers, bits, bytes and offsets.
use crate::array::{Array, ArrayRef, Values};
use crate::deep::{
    compacts_to, holds_views, is_made_of, lemma_children_settled, lemma_compacts_to,
    lemma_frame_rebuilt, lemma_rebuilt_children, may_give, reached, rebuilt, settled,
};
use crate::empty::is_empty_like;
use crate::error::TakeError;
use crate::flat::{lemma_only_with_nulls, taken_validity};
use crate::indices::{
    addressable, bounds_error, index_type, index_value, lemma_bounds_error, positions, strays,
    IndexSeq,
};
use crate::layout::laid_out;
use crate::selection::{
    children_error, cut_spans, dense_picks, first_beyond, gathered, has_bitmap, in_bounds,
    lemma_cut_spans, lemma_total_monotone, marked_valid, occurrences, picked, spans_wf, take_error,
    takes, total, Span,
};
use crate::take::{lemma_checked, may_take, selection_error, selects, TakeOptions};
use crate::union::lemma_offsets_of;
use crate::validity::valid_in;
use vstd::prelude::*;

pub mod batches;
pub mod calls;
pub mod kernels;
pub mod names;
pub mod numbers;
pub mod parts;
pub mod retained;
pub mod room;
pub mod shapes;
pub mod slots;

verus! {

/// Slots of this kind of array can be null, or are.
pub open spec fn has_nulls_of_its_own(a: Array) -> bool {
    !(a.values is Runs || a.values is Union)
}

/// Each index that is there gives the row at its position.
pub proof fn law_index_gives_row(values: Array, indices: Array, taken: Array, i: int)
    requires
        selects(values, indices, taken),
        0 <= i < indices.len,
        positions(indices).valid[i],
    ensures
        taken.row(i) == values.row(positions(indices).raw[i] as int),
{
    assert(taken.row(i) == picked(values, positions(indices).raw[i] as int, true));
}

/// A null index gives a null, except from runs and unions.
pub proof fn law_null_index_gives_null(values: Array, indices: Array, taken: Array, i: int)
    requires
        selects(values, indices, taken),
        has_nulls_of_its_own(values),
        0 <= i < indices.len,
        !positions(indices).valid[i],
    ensures
        taken.row(i) is Null,
{
    assert(taken.row(i) == picked(values, positions(indices).raw[i] as int, false));
}

/// The result has one slot for each index, and the type of the values.
pub proof fn law_shape(values: Array, indices: Array, taken: Array)
    requires
        selects(values, indices, taken),
    ensures
        taken.wf(),
        taken.len == indices.len,
        taken.data_type == values.data_type,
        taken.rows().len() == indices.len,
{
}

/// Arrays whose slots are of one width can always be taken from, and so can null arrays and list
/// views.
pub proof fn law_one_width_never_fails(a: Array, ix: IndexSeq)
    requires
        a.values is Null || a.values is Native || a.values is Boolean || a.values is Views
            || a.values is ListView || a.values is FixedSizeBinary || a.values is Dictionary,
    ensures
        take_error(a, ix) is None,
{
}

/// Strings and binaries can be taken where the bytes of the result are not too many for its
/// offsets.
pub proof fn law_bytes_that_fit_never_fail(a: Array, ix: IndexSeq)
    requires
        a.wf(),
        a.values is Bytes,
        ix.wf(),
        ix.below(a.len as int),
        total(cut_spans(a.bits(), a.values->Bytes_offsets, ix), ix.len())
            <= a.values->Bytes_offsets.limit(),
    ensures
        take_error(a, ix) is None,
{
    if let Values::Bytes { offsets, data } = a.values {
        lemma_cut_spans(a.bits(), offsets, a.len as nat, data@.len(), ix);
        lemma_within_limit(cut_spans(a.bits(), offsets, ix), offsets.limit(), ix.len());
    }
}

/// No total is beyond a limit that the last one keeps to.
pub proof fn lemma_within_limit(spans: Seq<Span>, limit: int, k: nat)
    requires
        spans_wf(spans),
        k <= spans.len(),
        total(spans, spans.len()) <= limit,
    ensures
        first_beyond(spans, limit, k) is None,
    decreases k,
{
    lemma_total_monotone(spans, k, spans.len());
    if k > 0 {
        lemma_within_limit(spans, limit, (k - 1) as nat);
    }
}

/// Taking every slot in order changes nothing.
pub proof fn law_identity(a: Array, r: Array)
    requires
        takes(a, IndexSeq::all_of(Seq::new(a.len as nat, |i: int| i as usize)), r),
    ensures
        r.rows() == a.rows(),
{
    let ix = IndexSeq::all_of(Seq::new(a.len as nat, |i: int| i as usize));
    assert forall|i: int| 0 <= i < a.len implies #[trigger] r.row(i) == a.row(i) by {
        assert(r.row(i) == picked(a, ix.raw[i] as int, ix.valid[i]));
    }
    assert(r.rows() =~= a.rows());
}

/// The positions that are asked for by way of a first selection.
pub open spec fn compose(first: IndexSeq, second: IndexSeq) -> IndexSeq {
    IndexSeq {
        raw: Seq::new(
            second.len(),
            |i: int|
                if second.valid[i] {
                    first.raw[second.raw[i] as int]
                } else {
                    0
                },
        ),
        valid: Seq::new(
            second.len(),
            |i: int| second.valid[i] && first.valid[second.raw[i] as int],
        ),
    }
}

/// Taking from what was taken is taking once, by way of the first positions. From runs and
/// unions, that holds where no position is null.
pub proof fn law_composition(
    a: Array,
    first: IndexSeq,
    between: Array,
    second: IndexSeq,
    twice: Array,
    once: Array,
)
    requires
        a.wf(),
        first.wf(),
        second.wf(),
        second.below(between.len as int),
        takes(a, first, between),
        takes(between, second, twice),
        takes(a, compose(first, second), once),
        has_nulls_of_its_own(a) || (first == IndexSeq::all_of(first.raw) && second
            == IndexSeq::all_of(second.raw)),
    ensures
        twice.rows() == once.rows(),
{
    let ix = compose(first, second);
    assert(has_nulls_of_its_own(between) == has_nulls_of_its_own(a)) by {
        assert(between.data_type == a.data_type);
    }
    assert forall|i: int| 0 <= i < second.len() implies #[trigger] twice.row(i) == once.row(i) by {
        let via = second.raw[i] as int;
        assert(twice.row(i) == picked(between, via, second.valid[i]));
        assert(once.row(i) == picked(a, ix.raw[i] as int, ix.valid[i]));
        if second.valid[i] {
            assert(between.row(via) == picked(a, first.raw[via] as int, first.valid[via]));
        }
    }
    assert(twice.rows() =~= once.rows());
}

/// No index is null.
pub open spec fn all_valid(indices: Array) -> bool {
    forall|i: int| 0 <= i < indices.len ==> #[trigger] valid_in(indices.bits(), i)
}

/// Indices can be taken like any other array: taking by indices that were taken is taking from what
/// was taken. From runs and unions, that holds where no index is null.
pub proof fn law_indices_compose(
    values: Array,
    first: Array,
    between: Array,
    second: Array,
    composed: Array,
    twice: Array,
    once: Array,
)
    requires
        values.wf(),
        first.wf(),
        index_type(first) is Some,
        positions(second).below(first.len as int),
        selects(values, first, between),
        selects(first, second, composed),
        selects(between, second, twice),
        selects(values, composed, once),
        has_nulls_of_its_own(values) || (all_valid(first) && all_valid(second)),
    ensures
        twice.rows() == once.rows(),
        forall|i: int|
            0 <= i < second.len ==> #[trigger] valid_in(twice.bits(), i) == valid_in(
                once.bits(),
                i,
            ),
{
    let outer = positions(first);
    let inner = positions(second);
    let direct = positions(composed);
    assert(has_nulls_of_its_own(between) == has_nulls_of_its_own(values) && has_bitmap(between)
        == has_bitmap(values)) by {
        assert(between.data_type == values.data_type);
    }
    assert(composed.values is Native && first.values is Native);
    assert forall|i: int| 0 <= i < second.len implies twice.row(i) == once.row(i)
        && #[trigger] valid_in(twice.bits(), i) == valid_in(once.bits(), i) by {
        let via = inner.raw[i] as int;
        let there = inner.valid[i];
        assert(twice.row(i) == picked(between, via, there));
        assert(once.row(i) == picked(values, direct.raw[i] as int, direct.valid[i]));
        assert(composed.row(i) == picked(first, via, there));
        assert(valid_in(composed.bits(), i) == marked_valid(first, via, there));
        assert(valid_in(twice.bits(), i) == marked_valid(between, via, there));
        assert(valid_in(once.bits(), i) == marked_valid(
            values,
            direct.raw[i] as int,
            direct.valid[i],
        ));
        if there {
            assert(between.row(via) == picked(values, outer.raw[via] as int, outer.valid[via]));
            assert(valid_in(between.bits(), via) == marked_valid(
                values,
                outer.raw[via] as int,
                outer.valid[via],
            ));
            if outer.valid[via] {
                assert(composed.row(i) == first.row(via));
                assert(index_value(composed, i) == index_value(first, via));
            }
        } else {
            assert(!valid_in(second.bits(), i));
        }
    }
    assert forall|i: int| 0 <= i < second.len implies #[trigger] twice.row(i) == once.row(i) by {
        let _ = valid_in(twice.bits(), i);
    }
    assert(twice.rows() =~= once.rows());
}

/// Indices that were taken are as good as those that they were taken from: they can be addressed,
/// and lead to slots of the same values.
pub proof fn law_composed_indices_stay_in_bounds(
    values: Array,
    first: Array,
    second: Array,
    composed: Array,
)
    requires
        first.wf(),
        index_type(first) is Some,
        addressable(first),
        in_bounds(values, positions(first)),
        positions(second).below(first.len as int),
        selects(first, second, composed),
    ensures
        index_type(composed) == index_type(first),
        addressable(composed),
        in_bounds(values, positions(composed)),
        may_take(values, composed, None),
{
    let outer = positions(first);
    let inner = positions(second);
    let direct = positions(composed);
    assert(composed.values is Native && first.values is Native);
    assert forall|i: int| 0 <= i < composed.len && valid_in(composed.bits(), i) implies {
        let via = inner.raw[i] as int;
        &&& 0 <= via < first.len
        &&& outer.valid[via]
        &&& #[trigger] index_value(composed, i) == index_value(first, via)
    } by {
        let via = inner.raw[i] as int;
        assert(valid_in(composed.bits(), i) == marked_valid(first, via, inner.valid[i]));
        assert(composed.row(i) == picked(first, via, inner.valid[i]));
        assert(composed.row(i) == first.row(via));
    }
    assert forall|i: int|
        0 <= i < composed.len && valid_in(composed.bits(), i) implies 0 <= #[trigger] index_value(
        composed,
        i,
    ) <= usize::MAX by {
        let via = inner.raw[i] as int;
        assert(0 <= index_value(first, via) <= usize::MAX);
    }
    if !(values.values is Null || values.values is Runs) {
        assert forall|i: int| 0 <= i < direct.raw.len() && direct.valid[i] implies
            #[trigger] direct.raw[i] < values.len by {
            assert(valid_in(composed.bits(), i));
            let via = inner.raw[i] as int;
            assert(index_value(composed, i) == index_value(first, via));
            assert(outer.raw[via] < values.len);
        }
    }
}

/// The columns of a struct can be taken from where each of them can.
proof fn lemma_no_column_fails(columns: Seq<ArrayRef>, ix: IndexSeq, k: nat)
    requires
        k <= columns.len(),
        forall|j: int| 0 <= j < columns.len() ==> in_bounds(*#[trigger] columns[j], ix),
    ensures
        children_error(columns, Seq::new(columns.len(), |j: int| ix), k) is None <==> forall|j: int|
            0 <= j < k ==> take_error(*#[trigger] columns[j], ix) is None,
    decreases k,
{
    if k > 0 {
        lemma_no_column_fails(columns, ix, (k - 1) as nat);
        assert(in_bounds(*columns[k - 1], ix));
    }
}

/// A struct is taken from column by column: it succeeds where each column does, and the columns of
/// the result are what is taken from each. A struct of the result is null where it was or where its
/// position is not there.
pub proof fn law_struct_is_taken_by_column(
    a: Array,
    ix: IndexSeq,
    index_bits: Option<Seq<bool>>,
    r: Array,
)
    requires
        a.wf(),
        a.values is Struct,
        ix.wf(),
        ix.below(a.len as int),
        ix.len() > 0,
    ensures
        take_error(a, ix) is None <==> forall|k: int|
            0 <= k < a.values->columns@.len() ==> take_error(
                *#[trigger] a.values->columns@[k],
                ix,
            ) is None,
        laid_out(a, ix, index_bits, r) ==> {
            &&& r.values is Struct
            &&& r.values->columns@.len() == a.values->columns@.len()
            &&& forall|k: int|
                0 <= k < a.values->columns@.len() ==> {
                    &&& takes(*a.values->columns@[k], ix, *#[trigger] r.values->columns@[k])
                    &&& laid_out(*a.values->columns@[k], ix, index_bits, *r.values->columns@[k])
                }
            &&& forall|i: int|
                0 <= i < ix.len() ==> #[trigger] valid_in(r.bits(), i) == (ix.valid[i] && valid_in(
                    a.bits(),
                    ix.raw[i] as int,
                ))
        },
{
    let columns = a.values->columns@;
    assert forall|k: int| 0 <= k < columns.len() implies in_bounds(*#[trigger] columns[k], ix) by {
        assert(columns[k].len == a.len);
    }
    lemma_no_column_fails(columns, ix, columns.len());
    let validity = taken_validity(a.bits(), ix);
    lemma_only_with_nulls(Some(validity), ix.len() as int);
    if laid_out(a, ix, index_bits, r) {
        assert forall|i: int| 0 <= i < ix.len() implies #[trigger] valid_in(r.bits(), i) == (
        ix.valid[i] && valid_in(a.bits(), ix.raw[i] as int)) by {
            assert(valid_in(Some(validity), i) == validity[i]);
        }
    }
}

/// A dense union that was taken counts its offsets by type id, and its children have the slots that
/// its rows refer to and no others.
pub proof fn law_dense_union_keeps_no_unused_slots(
    a: Array,
    ix: IndexSeq,
    index_bits: Option<Seq<bool>>,
    r: Array,
)
    requires
        a.wf(),
        a.values is Union,
        a.values->slots is Some,
        laid_out(a, ix, index_bits, r),
    ensures
        r.values is Union,
        r.values->slots is Some,
        r.values->type_ids@ == gathered(a.values->type_ids@, ix, 0),
        r.values->slots->0@.len() == ix.len(),
        forall|i: int|
            0 <= i < ix.len() ==> #[trigger] r.values->slots->0@[i] == occurrences(
                r.values->type_ids@,
                r.values->type_ids@[i],
                i as nat,
            ),
        r.values->children@.len() == a.values->children@.len(),
        forall|k: int|
            0 <= k < a.values->children@.len() ==> (#[trigger] r.values->children@[k]).len
                == occurrences(r.values->type_ids@, a.union_fields()[k].0, ix.len()),
{
    let ids = gathered(a.values->type_ids@, ix, 0);
    let offsets = gathered(a.values->slots->0@, ix, 0);
    let picks = dense_picks(a.union_fields(), ids, offsets);
    if ix.len() == 0 {
        assert(r.values->type_ids@ =~= ids);
    }
    assert forall|k: int| 0 <= k < a.values->children@.len() implies (
    #[trigger] r.values->children@[k]).len == occurrences(
        r.values->type_ids@,
        a.union_fields()[k].0,
        ix.len(),
    ) by {
        lemma_offsets_of(ids, offsets, a.union_fields()[k].0, ids.len());
        if ix.len() == 0 {
            assert(is_empty_like(*a.values->children@[k], *r.values->children@[k]));
        } else {
            assert(takes(*a.values->children@[k], picks[k], *r.values->children@[k]));
        }
    }
}

/// Whether an array that nests others changes, and how, is put together from what compaction gives
/// for each of its children.
pub proof fn law_compaction_is_put_together_from_children(a: Array, compact: Option<Array>)
    requires
        a.wf(),
        holds_views(a),
        !(a.values is Views),
    ensures
        may_give(a, compact) <==> exists|parts: Seq<Option<Array>>|
            #[trigger] is_made_of(a, parts, compact) && forall|k: int|
                0 <= k < parts.len() ==> may_give(*reached(a)[k], #[trigger] parts[k]),
{
    if may_give(a, compact) {
        match compact {
            None => {
                let parts = Seq::new(reached(a).len(), |k: int| None::<Array>);
                assert(is_made_of(a, parts, compact));
                assert forall|k: int| 0 <= k < parts.len() implies may_give(
                    *reached(a)[k],
                    #[trigger] parts[k],
                ) by {
                    assert(settled(*reached(a)[k]));
                }
            },
            Some(d) => {
                lemma_rebuilt_children(&a, &d);
                let parts = Seq::new(
                    reached(a).len(),
                    |k: int|
                        if rebuilt(*reached(a)[k], *reached(d)[k]) {
                            Some(*reached(d)[k])
                        } else {
                            None
                        },
                );
                let k = choose|k: int|
                    0 <= k < reached(a).len() && rebuilt(
                        *reached(a)[k],
                        *#[trigger] reached(d)[k],
                    );
                assert(parts[k] is Some);
                assert(is_made_of(a, parts, compact));
            },
        }
    }
    if exists|parts: Seq<Option<Array>>|
        #[trigger] is_made_of(a, parts, compact) && forall|k: int|
            0 <= k < parts.len() ==> may_give(*reached(a)[k], #[trigger] parts[k]) {
        let parts = choose|parts: Seq<Option<Array>>|
            #[trigger] is_made_of(a, parts, compact) && forall|k: int|
                0 <= k < parts.len() ==> may_give(*reached(a)[k], #[trigger] parts[k]);
        match compact {
            None => {
                assert forall|k: int| 0 <= k < reached(a).len() implies settled(
                    *#[trigger] reached(a)[k],
                ) by {
                    assert(may_give(*reached(a)[k], parts[k]));
                }
                lemma_children_settled(&a);
            },
            Some(d) => {
                assert forall|k: int| 0 <= k < reached(a).len() implies compacts_to(
                    *reached(a)[k],
                    *#[trigger] reached(d)[k],
                ) by {
                    assert(may_give(*reached(a)[k], parts[k]));
                }
                let k = choose|k: int| 0 <= k < parts.len() && #[trigger] parts[k] is Some;
                assert(rebuilt(*reached(a)[k], *reached(d)[k]));
                lemma_frame_rebuilt(&a, &d);
            },
        }
    }
}

/// Positions in a row give what each part of them gives, one after the other.
pub proof fn law_concatenation(
    a: Array,
    left: IndexSeq,
    right: IndexSeq,
    taken_left: Array,
    taken_right: Array,
    taken: Array,
)
    requires
        left.wf(),
        right.wf(),
        takes(a, left, taken_left),
        takes(a, right, taken_right),
        takes(
            a,
            (IndexSeq { raw: left.raw + right.raw, valid: left.valid + right.valid }),
            taken,
        ),
    ensures
        taken.rows() == taken_left.rows() + taken_right.rows(),
{
    let ix = IndexSeq { raw: left.raw + right.raw, valid: left.valid + right.valid };
    assert forall|i: int| 0 <= i < ix.len() implies #[trigger] taken.rows()[i] == (
    taken_left.rows() + taken_right.rows())[i] by {
        assert(taken.row(i) == picked(a, ix.raw[i] as int, ix.valid[i]));
        if i < left.len() {
            assert(taken_left.row(i) == picked(a, left.raw[i] as int, left.valid[i]));
        } else {
            let j = i - left.len();
            assert(taken_right.row(j) == picked(a, right.raw[j] as int, right.valid[j]));
        }
    }
    assert(taken.rows() =~= taken_left.rows() + taken_right.rows());
}

/// With the check, indices within bounds can be taken, whatever else is known of them.
pub proof fn law_check_admits_indices_in_bounds(values: Array, indices: Array)
    requires
        indices.wf(),
        index_type(indices) is Some,
        addressable(indices),
        forall|i: int| 0 <= i < indices.len ==> !#[trigger] strays(indices, i, values.len),
    ensures
        in_bounds(values, positions(indices)),
        may_take(values, indices, None),
        selection_error(values, indices, Some(TakeOptions { check_bounds: true }))
            == selection_error(values, indices, None),
{
    lemma_bounds_error(indices, values.len, indices.len as nat, indices.len as nat);
    lemma_no_bounds_error(indices, values.len, indices.len as nat);
    lemma_checked(values, indices);
}

/// Where no index is out of bounds, none is reported.
pub proof fn lemma_no_bounds_error(indices: Array, len: usize, k: nat)
    requires
        forall|i: int| 0 <= i < k ==> !#[trigger] strays(indices, i, len),
    ensures
        bounds_error(indices, len, k) is None,
    decreases k,
{
    if k > 0 {
        lemma_no_bounds_error(indices, len, (k - 1) as nat);
        assert(!strays(indices, k - 1, len));
    }
}

/// With the check, the first index out of bounds is the error, and nothing is asked of the caller.
pub proof fn law_check_reports_first_index_out_of_bounds(values: Array, indices: Array, i: int)
    requires
        indices.wf(),
        index_type(indices) is Some,
        0 <= i < indices.len,
        strays(indices, i, values.len),
        forall|j: int| 0 <= j < i ==> !#[trigger] strays(indices, j, values.len),
    ensures
        may_take(values, indices, Some(TakeOptions { check_bounds: true })),
        selection_error(values, indices, Some(TakeOptions { check_bounds: true })) == Some(
            TakeError::OutOfBounds { index: index_value(indices, i) as i128, len: values.len },
        ),
{
    lemma_no_bounds_error(indices, values.len, i as nat);
    lemma_bounds_error(indices, values.len, (i + 1) as nat, indices.len as nat);
}

/// Compaction changes neither the shape nor the rows of an array, and not the array at all where
/// its type holds no views.
pub proof fn law_compaction_keeps_rows(a: Array, r: Array)
    requires
        a.wf(),
        compacts_to(a, r),
    ensures
        r.wf(),
        r.data_type == a.data_type,
        r.bits() == a.bits(),
        r.rows() == a.rows(),
        !holds_views(a) ==> r == a,
{
    lemma_compacts_to(&a, &r);
    assert(r.rows() =~= a.rows());
}

} // verus!
