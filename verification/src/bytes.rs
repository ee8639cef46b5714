//! Taking from strings and binaries.
use crate::array::{Array, Offsets, Values};
use crate::buffers::share;
use crate::error::TakeError;
use crate::flat::{lemma_taken_nulls, take_nulls, taken_nulls};
use crate::indices::Indices;
use crate::layout::{arranged, holds_bytes};
use crate::selection::{
    cut_spans, first_beyond, holds_span, lemma_cut_spans, lemma_first_beyond, lemma_total_monotone,
    overflow_error, picked, spans_wf, takes, total,
};
use crate::validity::{bits_of, slot_valid, valid_in};
use arrow_buffer::NullBuffer;
use vstd::prelude::*;
use vstd::slice::slice_subrange;

verus! {

/// New offsets for the parts of a child that are taken, or the error where they would pass what
/// their type can hold.
pub fn cut_offsets(
    offsets: &Offsets,
    len: usize,
    nulls: &Option<NullBuffer>,
    indices: &Indices,
) -> (result: Result<Offsets, TakeError>)
    requires
        offsets.cuts(len as nat, offsets.at(len as int) as nat),
        bits_of(*nulls) matches Some(b) ==> b.len() == len,
        indices.wf(),
        indices@.below(len as int),
    ensures
        result matches Ok(cuts) ==> {
            let spans = cut_spans(bits_of(*nulls), *offsets, indices@);
            &&& overflow_error(spans, offsets.limit()) is None
            &&& cuts is Small <==> offsets is Small
            &&& cuts.spec_len() == indices@.len() + 1
            &&& forall|i: int|
                0 <= i <= indices@.len() ==> #[trigger] cuts.at(i) == total(spans, i as nat)
        },
        result matches Err(e) ==> overflow_error(
            cut_spans(bits_of(*nulls), *offsets, indices@),
            offsets.limit(),
        ) == Some(e),
{
    let ghost ix = indices@;
    let ghost spans = cut_spans(bits_of(*nulls), *offsets, ix);
    let limit: i64 = offsets.largest();
    let mut cuts = offsets.fresh(indices.len());
    let mut reach: u64 = 0;
    cuts.push(0);
    let mut i: usize = 0;
    while i < indices.values.len()
        invariant
            offsets.cuts(len as nat, offsets.at(len as int) as nat),
            bits_of(*nulls) matches Some(b) ==> b.len() == len,
            indices.wf(),
            ix == indices@,
            ix.below(len as int),
            spans == cut_spans(bits_of(*nulls), *offsets, ix),
            limit == offsets.limit(),
            i <= ix.len(),
            reach == total(spans, i as nat),
            reach <= limit,
            first_beyond(spans, limit as int, i as nat) is None,
            cuts is Small <==> offsets is Small,
            cuts.spec_len() == i + 1,
            forall|j: int| 0 <= j <= i ==> #[trigger] cuts.at(j) == total(spans, j as nat),
        decreases ix.len() - i,
    {
        let raw: usize = indices.values[i];
        if indices.is_valid(i) && slot_valid(nulls, raw) {
            assert(offsets.at(0) <= offsets.at(raw as int) <= offsets.at(raw + 1));
            reach += (offsets.get(raw + 1) - offsets.get(raw)) as u64;
        }
        assert(reach == total(spans, (i + 1) as nat));
        if reach > limit as u64 {
            proof {
                lemma_first_beyond(spans, limit as int, (i + 1) as nat, ix.len());
            }
            return Err(TakeError::OffsetOverflow(reach));
        }
        cuts.push(reach as i64);
        i += 1;
    }
    Ok(cuts)
}

/// Takes from strings or binaries. The bytes of what is taken follow each other; where `skip` marks
/// a null there are none.
pub(crate) fn gather_bytes(
    array: &Array,
    offsets: &Offsets,
    data: &Vec<u8>,
    skip: &Option<NullBuffer>,
    indices: &Indices,
) -> (result: Result<Array, TakeError>)
    requires
        array.wf(),
        array.values == (Values::Bytes { offsets: *offsets, data: *data }),
        bits_of(*skip) == array.bits() || bits_of(*skip) is None,
        indices.wf(),
        indices@.below(array.len as int),
    ensures
        result matches Ok(taken) ==> {
            let spans = cut_spans(bits_of(*skip), *offsets, indices@);
            &&& overflow_error(spans, offsets.limit()) is None
            &&& takes(*array, indices@, taken)
            &&& taken.bits() == taken_nulls(array.bits(), bits_of(indices.nulls), indices@)
            &&& holds_bytes(data@, spans, taken)
        },
        result matches Err(e) ==> overflow_error(
            cut_spans(bits_of(*skip), *offsets, indices@),
            offsets.limit(),
        ) == Some(e),
{
    let len: usize = indices.len();
    let ghost ix = indices@;
    let ghost spans = cut_spans(bits_of(*skip), *offsets, ix);
    let cuts = match cut_offsets(offsets, array.len, skip, indices) {
        Ok(cuts) => cuts,
        Err(e) => {
            return Err(e);
        },
    };
    let nulls = take_nulls(&array.nulls, indices);
    proof {
        lemma_cut_spans(bits_of(*skip), *offsets, array.len as nat, data@.len(), ix);
        lemma_taken_nulls(array.bits(), *indices, array.len as int);
    }
    let mut bytes: Vec<u8> = Vec::new();
    let mut i: usize = 0;
    while i < len
        invariant
            array.wf(),
            array.values == (Values::Bytes { offsets: *offsets, data: *data }),
            bits_of(*skip) == array.bits() || bits_of(*skip) is None,
            indices.wf(),
            ix == indices@,
            ix.below(array.len as int),
            spans == cut_spans(bits_of(*skip), *offsets, ix),
            spans_wf(spans),
            len == ix.len(),
            i <= len,
            bytes@.len() == total(spans, i as nat),
            forall|j: int| 0 <= j < i ==> holds_span(bytes@, data@, spans, j),
        decreases len - i,
    {
        let raw: usize = indices.values[i];
        let ghost before = bytes@;
        if indices.is_valid(i) && slot_valid(skip, raw) {
            assert(0 <= offsets.at(0) <= offsets.at(raw as int) <= offsets.at(raw + 1)
                <= offsets.at(array.len as int) <= data.len());
            let start: usize = offsets.get(raw) as usize;
            let end: usize = offsets.get(raw + 1) as usize;
            bytes.extend_from_slice(slice_subrange(data.as_slice(), start, end));
            assert(bytes@ =~= before + data@.subrange(start as int, end as int));
        }
        proof {
            assert forall|j: int| 0 <= j < i + 1 implies holds_span(bytes@, data@, spans, j) by {
                if j < i {
                    lemma_total_monotone(spans, (j + 1) as nat, i as nat);
                    lemma_total_monotone(spans, 0, j as nat);
                    assert(holds_span(before, data@, spans, j));
                    assert(bytes@.subrange(total(spans, j as nat), total(spans, (j + 1) as nat))
                        =~= before.subrange(total(spans, j as nat), total(spans, (j + 1) as nat)));
                } else {
                    lemma_total_monotone(spans, 0, i as nat);
                    assert(bytes@.subrange(total(spans, i as nat), total(spans, (i + 1) as nat))
                        =~= data@.subrange(spans[j].start, spans[j].start + spans[j].len));
                }
            }
        }
        i += 1;
    }
    let taken = Array {
        data_type: share(&array.data_type),
        len,
        nulls,
        values: Values::Bytes { offsets: cuts, data: bytes },
    };
    proof {
        assert forall|i: int, j: int| 0 <= i <= j <= len implies #[trigger] cuts.at(i)
            <= #[trigger] cuts.at(j) by {
            lemma_total_monotone(spans, i as nat, j as nat);
        }
        assert forall|i: int| 0 <= i < len implies #[trigger] taken.row(i) == picked(
            *array,
            ix.raw[i] as int,
            ix.valid[i],
        ) by {
            assert(valid_in(taken.bits(), i) == (ix.valid[i] && valid_in(
                array.bits(),
                ix.raw[i] as int,
            )));
            assert(holds_span(bytes@, data@, spans, i));
            assert(cuts.at(i) == total(spans, i as nat));
            assert(cuts.at(i + 1) == total(spans, (i + 1) as nat));
        }
    }
    Ok(taken)
}

/// Takes from strings or binaries. The bytes of what is taken follow each other; a null has none.
pub fn take_bytes(
    array: &Array,
    offsets: &Offsets,
    data: &Vec<u8>,
    indices: &Indices,
) -> (result: Result<Array, TakeError>)
    requires
        array.wf(),
        array.values == (Values::Bytes { offsets: *offsets, data: *data }),
        indices.wf(),
        indices@.below(array.len as int),
    ensures
        result matches Ok(taken) ==> {
            let spans = cut_spans(array.bits(), *offsets, indices@);
            &&& overflow_error(spans, offsets.limit()) is None
            &&& takes(*array, indices@, taken)
            &&& arranged(*array, indices@, bits_of(indices.nulls), taken)
        },
        result matches Err(e) ==> overflow_error(
            cut_spans(array.bits(), *offsets, indices@),
            offsets.limit(),
        ) == Some(e),
{
    gather_bytes(array, offsets, data, &array.nulls, indices)
}

} // verus!
