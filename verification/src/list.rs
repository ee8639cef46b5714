//! Taking from lists whose items are copied.
use crate::array::{
    is_list, lemma_list_row, list_child, list_extent, rows_from, Array, ArrayRef, Offsets, Values,
};
use crate::buffers::share;
use crate::bytes::cut_offsets;
use crate::copy::copy_slices;
use crate::error::TakeError;
use crate::flat::{
    lemma_only_with_nulls, lemma_taken_nulls, take_nulls, take_validity, taken_nulls,
    taken_validity,
};
use crate::indices::{IndexSeq, Indices};
use crate::layout::arranged;
use crate::selection::{
    cut_spans, fixed_spans, lemma_cut_spans, lemma_spread, lemma_spread_all, lemma_spread_at,
    lemma_total_monotone, picked, span_positions, spans_wf, spans_within, spread, take_error, takes,
    total, Span,
};
use crate::slices::{lemma_copy_nothing, spans_of, Slice};
use crate::take::take_impl;
use crate::validity::{bits_of, drop_if_all_valid, only_with_nulls, slot_valid, valid_in};
use arrow_buffer::NullBuffer;
use std::sync::Arc;
use vstd::prelude::*;

verus! {

/// What is taken of the child for each position; nothing for a null.
fn cut_pieces(
    offsets: &Offsets,
    len: usize,
    end: usize,
    nulls: &Option<NullBuffer>,
    indices: &Indices,
) -> (pieces: Vec<Slice>)
    requires
        offsets.cuts(len as nat, end as nat),
        bits_of(*nulls) matches Some(b) ==> b.len() == len,
        indices.wf(),
        indices@.below(len as int),
    ensures
        spans_of(pieces@) == cut_spans(bits_of(*nulls), *offsets, indices@),
{
    let ghost spans = cut_spans(bits_of(*nulls), *offsets, indices@);
    let mut pieces: Vec<Slice> = Vec::with_capacity(indices.len());
    let mut i: usize = 0;
    while i < indices.values.len()
        invariant
            offsets.cuts(len as nat, end as nat),
            bits_of(*nulls) matches Some(b) ==> b.len() == len,
            indices.wf(),
            indices@.below(len as int),
            spans == cut_spans(bits_of(*nulls), *offsets, indices@),
            i <= indices@.len(),
            pieces@.len() == i,
            forall|j: int| 0 <= j < i ==> #[trigger] spans_of(pieces@)[j] == spans[j],
        decreases indices@.len() - i,
    {
        let raw: usize = indices.values[i];
        let ghost before = pieces@;
        if indices.is_valid(i) && slot_valid(nulls, raw) {
            assert(0 <= offsets.at(0) <= offsets.at(raw as int) <= offsets.at(raw + 1)
                <= offsets.at(len as int) <= end);
            let start: usize = offsets.get(raw) as usize;
            let stop: usize = offsets.get(raw + 1) as usize;
            pieces.push(Slice { start, len: stop - start });
        } else {
            pieces.push(Slice { start: 0, len: 0 });
        }
        proof {
            assert forall|j: int| 0 <= j < i + 1 implies #[trigger] spans_of(pieces@)[j]
                == spans[j] by {
                if j < i {
                    assert(spans_of(before)[j] == spans[j]);
                }
            }
        }
        i += 1;
    }
    assert(spans_of(pieces@) =~= spans);
    pieces
}

/// What lists hold whose items were taken span by span.
pub(crate) proof fn lemma_list_rows(a: Array, spans: Seq<Span>, ix: IndexSeq, r: Array)
    requires
        a.wf(),
        r.wf(),
        is_list(a),
        is_list(r),
        ix.wf(),
        ix.below(a.len as int),
        r.len == ix.len(),
        spans.len() == ix.len(),
        spans_wf(spans),
        spans_within(spans, list_child(a).len as int),
        takes(list_child(a), spread(spans, ix.len()), list_child(r)),
        forall|i: int|
            0 <= i < ix.len() ==> #[trigger] valid_in(r.bits(), i) == (ix.valid[i] && valid_in(
                a.bits(),
                ix.raw[i] as int,
            )),
        forall|i: int|
            0 <= i < ix.len() && valid_in(r.bits(), i) ==> {
                &&& (#[trigger] spans[i]).present
                &&& list_extent(a, ix.raw[i] as int) == (spans[i].start, spans[i].len)
                &&& list_extent(r, i) == (total(spans, i as nat), spans[i].len)
            },
    ensures
        forall|i: int|
            0 <= i < ix.len() ==> #[trigger] r.row(i) == picked(a, ix.raw[i] as int, ix.valid[i]),
{
    let end = list_child(a).len as int;
    assert forall|i: int| 0 <= i < ix.len() implies #[trigger] r.row(i) == picked(
        a,
        ix.raw[i] as int,
        ix.valid[i],
    ) by {
        let raw = ix.raw[i] as int;
        if valid_in(r.bits(), i) {
            let span = spans[i];
            lemma_list_row(a, raw);
            lemma_list_row(r, i);
            let rows = rows_from(list_child(a), span.start, span.len);
            let new_rows = rows_from(list_child(r), total(spans, i as nat), span.len);
            assert forall|j: int| 0 <= j < span.len implies rows[j] == new_rows[j] by {
                lemma_spread_at(spans, end, ix.len(), i, j);
                lemma_spread(spans, end, ix.len());
                let p = total(spans, i as nat) + j;
                assert(list_child(r).row(p) == picked(
                    list_child(a),
                    spread(spans, ix.len()).raw[p] as int,
                    true,
                ));
            }
            assert(rows =~= new_rows);
        }
    }
}

/// Takes from lists or maps. The items of what is taken are copied one list after the other; a null
/// has none.
pub fn take_list(array: &Array, offsets: &Offsets, child: &ArrayRef, indices: &Indices) -> (result:
    Result<Array, TakeError>)
    requires
        array.wf(),
        array.values == (Values::List { offsets: *offsets, child: *child }),
        indices.wf(),
        indices@.below(array.len as int),
    ensures
        result matches Ok(taken) ==> {
            &&& take_error(*array, indices@) is None
            &&& takes(*array, indices@, taken)
            &&& arranged(*array, indices@, bits_of(indices.nulls), taken)
        },
        result matches Err(e) ==> take_error(*array, indices@) == Some(e),
{
    let len: usize = indices.len();
    let ghost ix = indices@;
    let ghost spans = cut_spans(array.bits(), *offsets, ix);
    proof {
        lemma_cut_spans(array.bits(), *offsets, array.len as nat, child.len as nat, ix);
        lemma_taken_nulls(array.bits(), *indices, array.len as int);
        lemma_only_with_nulls(
            taken_nulls(array.bits(), bits_of(indices.nulls), ix),
            ix.len() as int,
        );
        lemma_spread(spans, child.len as int, ix.len());
        lemma_spread_all(spans, ix.len());
    }
    let cuts = match cut_offsets(offsets, array.len, &array.nulls, indices) {
        Ok(cuts) => cuts,
        Err(e) => {
            return Err(e);
        },
    };
    let pieces = cut_pieces(offsets, array.len, child.len, &array.nulls, indices);
    proof {
        assert forall|i: int| 0 <= i < spans.len() implies {
            &&& (#[trigger] spans[i]).present
            &&& 0 <= spans[i].start
            &&& 0 <= spans[i].len
            &&& spans[i].start + spans[i].len <= child.len
        } by {
            assert(spans[i].len >= 0);
        }
        if ix.len() == 0 {
            assert(spans =~= Seq::empty());
            lemma_copy_nothing(child);
        }
    }
    let items = match copy_slices(child, &pieces) {
        Ok(items) => items,
        Err(e) => {
            return Err(e);
        },
    };
    let taken = Array {
        data_type: share(&array.data_type),
        len,
        nulls: drop_if_all_valid(take_nulls(&array.nulls, indices)),
        values: Values::List { offsets: cuts, child: Arc::new(items) },
    };
    proof {
        assert forall|i: int, j: int| 0 <= i <= j <= len implies #[trigger] cuts.at(i)
            <= #[trigger] cuts.at(j) by {
            lemma_total_monotone(spans, i as nat, j as nat);
        }
        assert forall|i: int| 0 <= i < ix.len() implies #[trigger] valid_in(taken.bits(), i) == (
        ix.valid[i] && valid_in(array.bits(), ix.raw[i] as int)) by {
            assert(valid_in(taken_nulls(array.bits(), bits_of(indices.nulls), ix), i) == (
            ix.valid[i] && valid_in(array.bits(), ix.raw[i] as int)));
        }
        assert(taken.wf());
        assert forall|i: int| 0 <= i < ix.len() && valid_in(taken.bits(), i) implies {
            &&& (#[trigger] spans[i]).present
            &&& list_extent(*array, ix.raw[i] as int) == (spans[i].start, spans[i].len)
            &&& list_extent(taken, i) == (total(spans, i as nat), spans[i].len)
        } by {
            assert(cuts.at(i) == total(spans, i as nat));
            assert(cuts.at(i + 1) == total(spans, (i + 1) as nat));
        }
        lemma_list_rows(*array, spans, ix, taken);
    }
    Ok(taken)
}

/// The fixed spans of positions that are there lie within the child.
pub(crate) proof fn lemma_fixed_spans(size: int, len: int, ix: IndexSeq)
    requires
        0 <= size,
        ix.wf(),
        ix.below(len),
    ensures
        spans_wf(fixed_spans(size, ix)),
        spans_within(fixed_spans(size, ix), len * size),
{
    let spans = fixed_spans(size, ix);
    assert forall|i: int| 0 <= i < spans.len() && (#[trigger] spans[i]).present implies 0
        <= spans[i].start && spans[i].start + spans[i].len <= len * size by {
        let raw = ix.raw[i] as int;
        assert(0 <= raw * size && raw * size + size <= len * size) by (nonlinear_arith)
            requires
                0 <= raw < len,
                0 <= size,
        ;
    }
}

/// Spans of one size have `k` times that in total.
pub(crate) proof fn lemma_fixed_total(size: int, ix: IndexSeq, k: nat)
    requires
        k <= ix.len(),
    ensures
        total(fixed_spans(size, ix), k) == k * size,
    decreases k,
{
    if k == 0 {
        assert(k * size == 0) by (nonlinear_arith)
            requires
                k == 0,
        ;
    } else {
        lemma_fixed_total(size, ix, (k - 1) as nat);
        assert((k - 1) * size + size == k * size) by (nonlinear_arith);
    }
}

/// The positions in the child of everything that is taken from `len` lists of `size` items. A list
/// that is not asked for takes up as many positions that are not there.
pub fn take_value_indices_from_fixed_size_list(len: usize, size: usize, indices: &Indices) -> (
    positions: Indices)
    requires
        len * size <= usize::MAX,
        indices.wf(),
        indices@.below(len as int),
    ensures
        positions.wf(),
        positions@ == spread(fixed_spans(size as int, indices@), indices@.len()),
        bits_of(positions.nulls) == only_with_nulls(Some(positions@.valid)),
{
    let ghost ix = indices@;
    let ghost spans = fixed_spans(size as int, ix);
    let mut values: Vec<usize> = Vec::new();
    let mut valid: Vec<bool> = Vec::new();
    let mut i: usize = 0;
    while i < indices.values.len()
        invariant
            len * size <= usize::MAX,
            indices.wf(),
            ix == indices@,
            ix.below(len as int),
            spans == fixed_spans(size as int, ix),
            i <= ix.len(),
            values@ == spread(spans, i as nat).raw,
            valid@ == spread(spans, i as nat).valid,
        decreases ix.len() - i,
    {
        let ghost values_before = values@;
        let ghost valid_before = valid@;
        let ghost span = spans[i as int];
        let present: bool = indices.is_valid(i);
        let mut start: usize = 0;
        if present {
            let raw: usize = indices.values[i];
            assert(raw * size + size <= len * size && 0 <= raw * size) by (nonlinear_arith)
                requires
                    0 <= raw < len,
            ;
            start = raw * size;
        }
        let mut j: usize = 0;
        while j < size
            invariant
                j <= size,
                span.len == size,
                span.present == present,
                present ==> span.start == start && start + size <= usize::MAX,
                values@ =~= values_before + span_positions(span).raw.subrange(0, j as int),
                valid@ =~= valid_before + span_positions(span).valid.subrange(0, j as int),
            decreases size - j,
        {
            if present {
                values.push(start + j);
            } else {
                values.push(0);
            }
            valid.push(present);
            j += 1;
        }
        assert(values@ =~= values_before + span_positions(span).raw);
        assert(valid@ =~= valid_before + span_positions(span).valid);
        i += 1;
    }
    proof {
        lemma_fixed_spans(size as int, len as int, ix);
        lemma_spread(spans, len * size, ix.len());
    }
    Indices::from_parts(values, valid)
}

/// Takes from lists of `size` items each.
pub fn take_fixed_size_list(array: &Array, size: usize, child: &ArrayRef, indices: &Indices) -> (
    result: Result<Array, TakeError>)
    requires
        array.wf(),
        array.values == (Values::FixedSizeList { size, child: *child }),
        indices.wf(),
        indices@.below(array.len as int),
    ensures
        result matches Ok(taken) ==> {
            &&& take_error(*array, indices@) is None
            &&& takes(*array, indices@, taken)
            &&& arranged(*array, indices@, bits_of(indices.nulls), taken)
        },
        result matches Err(e) ==> take_error(*array, indices@) == Some(e),
    decreases array, 0nat,
{
    let ghost ix = indices@;
    let ghost spans = fixed_spans(size as int, ix);
    proof {
        lemma_fixed_spans(size as int, array.len as int, ix);
        lemma_spread(spans, child.len as int, ix.len());
        lemma_fixed_total(size as int, ix, ix.len());
        lemma_only_with_nulls(Some(taken_validity(array.bits(), ix)), ix.len() as int);
    }
    let positions = take_value_indices_from_fixed_size_list(array.len, size, indices);
    let items = match take_impl(child, &positions) {
        Ok(items) => items,
        Err(e) => {
            return Err(e);
        },
    };
    let taken = Array {
        data_type: share(&array.data_type),
        len: indices.len(),
        nulls: drop_if_all_valid(Some(take_validity(&array.nulls, indices))),
        values: Values::FixedSizeList { size, child: Arc::new(items) },
    };
    proof {
        assert forall|i: int| 0 <= i < ix.len() implies #[trigger] valid_in(taken.bits(), i) == (
        ix.valid[i] && valid_in(array.bits(), ix.raw[i] as int)) by {
            assert(valid_in(Some(taken_validity(array.bits(), ix)), i) == (ix.valid[i] && valid_in(
                array.bits(),
                ix.raw[i] as int,
            )));
        }
        assert(taken.wf());
        assert forall|i: int| 0 <= i < ix.len() && valid_in(taken.bits(), i) implies {
            &&& (#[trigger] spans[i]).present
            &&& list_extent(*array, ix.raw[i] as int) == (spans[i].start, spans[i].len)
            &&& list_extent(taken, i) == (total(spans, i as nat), spans[i].len)
        } by {
            lemma_fixed_total(size as int, ix, i as nat);
        }
        lemma_list_rows(*array, spans, ix, taken);
    }
    Ok(taken)
}

} // verus!
