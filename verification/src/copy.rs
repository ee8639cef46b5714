//! Copying slices of an array, one after the other.
use crate::array::{
    covers, field_position, fields_wf, has_field, list_extent, run_at, runs_wf, Array, ArrayRef,
    Offsets, Values,
};
use crate::buffers::share;
use crate::bytes::{cut_offsets, gather_bytes};
use crate::datatype::{DataType, Field, IntType};
use crate::error::TakeError;
use crate::fixed::take_fixed_size_binary;
use crate::flat::{lemma_taken_nulls, take_native, take_nulls, taken_nulls};
use crate::indices::Indices;
use crate::layout::copied;
use crate::list::{lemma_fixed_spans, lemma_fixed_total, lemma_list_rows};
use crate::primitive::{take_boolean, take_byte_view, take_dict, take_primitive};
use crate::run::{lemma_covers, lemma_stretches, physical_indices};
use crate::selection::{
    cut_spans, dense_picks, first_beyond, fixed_spans, gathered, lemma_first_beyond, lemma_spread,
    lemma_spread_all, lemma_spread_at, lemma_total_monotone, offsets_of, picked, span_positions,
    spans_wf, spans_within, spread, starts_run, stretch_ends, takes, total, Span,
};
use crate::slices::{
    are_edges, are_slices, copies_error, copy_error, cut_slices, dense_slices, fixed_slices,
    lemma_copies_error, lemma_locate, lemma_pieces, lemma_run_slices, lemma_runs_rise, lemma_single,
    lemma_slices, lemma_steps, lemma_touched, lemma_touched_at, part_at, parts_of, pieces_of,
    run_slices, single_slices, slots_of, spans_of, touched_runs, view_slices, Slice,
};
use crate::union::{
    count_offsets, lemma_dense_taken, lemma_sparse_taken, lemma_struct_taken, offsets_beside,
};
use crate::validity::valid_in;
use std::sync::Arc;
use vstd::prelude::*;

verus! {

/// The slots that slices mark.
fn expand(slices: &Vec<Slice>, len: usize) -> (indices: Indices)
    requires
        are_slices(spans_of(slices@), len as int),
    ensures
        indices.wf(),
        indices.nulls is None,
        indices@ == slots_of(spans_of(slices@)),
        indices@.below(len as int),
{
    let ghost spans = spans_of(slices@);
    let mut values: Vec<usize> = Vec::new();
    let mut i: usize = 0;
    while i < slices.len()
        invariant
            spans == spans_of(slices@),
            are_slices(spans, len as int),
            i <= slices@.len(),
            values@ == spread(spans, i as nat).raw,
        decreases slices@.len() - i,
    {
        let slice: Slice = slices[i];
        let ghost before = values@;
        assert(spans[i as int].present);
        let mut j: usize = 0;
        while j < slice.len
            invariant
                j <= slice.len,
                slice.start + slice.len <= usize::MAX,
                values@ =~= before + Seq::new(j as nat, |x: int| (slice.start + x) as usize),
            decreases slice.len - j,
        {
            values.push(slice.start + j);
            j += 1;
        }
        assert(values@ =~= before + span_positions(spans[i as int]).raw);
        i += 1;
    }
    proof {
        lemma_slices(spans, len as int);
        lemma_spread(spans, len as int, spans.len());
        lemma_spread_all(spans, spans.len());
    }
    Indices::all_of(values)
}

/// Validity that was copied marks what was valid.
proof fn lemma_copied_nulls(a: &Array, indices: &Indices, r: &Array)
    requires
        a.wf(),
        indices.wf(),
        indices.nulls is None,
        indices@.below(a.len as int),
        r.bits() == taken_nulls(a.bits(), None, indices@),
    ensures
        r.bits() matches Some(b) ==> b.len() == indices@.len(),
        forall|i: int|
            0 <= i < indices@.len() ==> #[trigger] valid_in(r.bits(), i) == (indices@.valid[i]
                && valid_in(a.bits(), indices@.raw[i] as int)),
{
    lemma_taken_nulls(a.bits(), *indices, a.len as int);
}

/// Copies lists or maps: what stands between the offsets at the ends of each slice.
fn copy_list(
    array: &Array,
    offsets: &Offsets,
    child: &ArrayRef,
    slices: &Vec<Slice>,
    indices: &Indices,
) -> (result: Result<Array, TakeError>)
    requires
        array.wf(),
        array.values == (Values::List { offsets: *offsets, child: *child }),
        are_slices(spans_of(slices@), array.len as int),
        indices.wf(),
        indices.nulls is None,
        indices@ == slots_of(spans_of(slices@)),
        indices@.below(array.len as int),
    ensures
        result matches Ok(copy) ==> {
            let spans = spans_of(slices@);
            &&& copy_error(*array, spans) is None
            &&& takes(*array, slots_of(spans), copy)
            &&& copied(*array, spans, copy)
        },
        result matches Err(e) ==> copy_error(*array, spans_of(slices@)) == Some(e),
    decreases array, 0nat,
{
    let ghost ix = indices@;
    let ghost spans = spans_of(slices@);
    let ghost fine = cut_spans(None, *offsets, ix);
    let ghost coarse = cut_slices(*offsets, spans);
    let ghost edge = Seq::new((array.len + 1) as nat, |i: int| offsets.at(i));
    let cuts = match cut_offsets(offsets, array.len, &None, indices) {
        Ok(cuts) => cuts,
        Err(e) => {
            return Err(e);
        },
    };
    proof {
        lemma_slices(spans, array.len as int);
        lemma_spread_all(spans, spans.len());
        assert(are_edges(edge));
        assert(parts_of(edge, spans, fine)) by {
            assert forall|p: int| 0 <= p < fine.len() implies #[trigger] fine[p]
                == part_at(edge, slots_of(spans).raw[p] as int) by {
                assert(ix.valid[p]);
            }
        }
        assert(pieces_of(edge, spans, coarse)) by {
            assert forall|i: int| 0 <= i < spans.len() implies #[trigger] coarse[i] == (Span {
                start: edge[spans[i].start],
                len: edge[spans[i].start + spans[i].len] - edge[spans[i].start],
                present: true,
            }) by {
                assert(spans[i].present);
            }
        }
        lemma_pieces(edge, spans, fine, coarse);
        lemma_slices(fine, edge[edge.len() - 1]);
    }
    let mut pieces: Vec<Slice> = Vec::with_capacity(slices.len());
    let mut k: usize = 0;
    while k < slices.len()
        invariant
            spans == spans_of(slices@),
            are_slices(spans, array.len as int),
            offsets.cuts(array.len as nat, child.len as nat),
            coarse == cut_slices(*offsets, spans),
            k <= slices@.len(),
            pieces@.len() == k,
            forall|j: int| 0 <= j < k ==> is_slice(#[trigger] pieces@[j], coarse[j]),
        decreases slices@.len() - k,
    {
        let slice: Slice = slices[k];
        assert(spans[k as int].present);
        assert(0 <= offsets.at(0) <= offsets.at(slice.start as int) <= offsets.at(
            slice.start + slice.len,
        ) <= offsets.at(array.len as int) <= child.len);
        let start: usize = offsets.get(slice.start) as usize;
        let stop: usize = offsets.get(slice.start + slice.len) as usize;
        pieces.push(Slice { start, len: stop - start });
        k += 1;
    }
    proof {
        lemma_are_spans(pieces@, coarse);
        assert(are_slices(coarse, child.len as int)) by {
            assert forall|i: int| 0 <= i < coarse.len() implies {
                &&& (#[trigger] coarse[i]).present
                &&& 0 <= coarse[i].start
                &&& 0 <= coarse[i].len
                &&& coarse[i].start + coarse[i].len <= child.len
            } by {
                assert(coarse[i].start + coarse[i].len <= edge[edge.len() - 1]);
            }
        }
    }
    let items = match copy_slices(child, &pieces) {
        Ok(items) => items,
        Err(e) => {
            return Err(e);
        },
    };
    let copy = Array {
        data_type: share(&array.data_type),
        len: indices.len(),
        nulls: take_nulls(&array.nulls, indices),
        values: Values::List { offsets: cuts, child: Arc::new(items) },
    };
    proof {
        lemma_copied_nulls(array, indices, &copy);
        lemma_spread(fine, child.len as int, fine.len());
        assert forall|i: int, j: int| 0 <= i <= j <= ix.len() implies #[trigger] cuts.at(i)
            <= #[trigger] cuts.at(j) by {
            lemma_total_monotone(fine, i as nat, j as nat);
        }
        assert(copy.wf());
        assert forall|i: int| 0 <= i < ix.len() && valid_in(copy.bits(), i) implies {
            &&& (#[trigger] fine[i]).present
            &&& list_extent(*array, ix.raw[i] as int) == (fine[i].start, fine[i].len)
            &&& list_extent(copy, i) == (total(fine, i as nat), fine[i].len)
        } by {
            assert(cuts.at(i) == total(fine, i as nat));
            assert(cuts.at(i + 1) == total(fine, (i + 1) as nat));
        }
        lemma_list_rows(*array, fine, ix, copy);
    }
    Ok(copy)
}

/// The slice marks the span.
spec fn is_slice(slice: Slice, span: Span) -> bool {
    span == (Span { start: slice.start as int, len: slice.len as int, present: true })
}

/// Slices that each mark a span mark all of them.
proof fn lemma_are_spans(slices: Seq<Slice>, spans: Seq<Span>)
    requires
        slices.len() == spans.len(),
        forall|j: int| 0 <= j < slices.len() ==> is_slice(#[trigger] slices[j], spans[j]),
    ensures
        spans_of(slices) == spans,
{
    assert forall|j: int| 0 <= j < slices.len() implies spans_of(slices)[j] == spans[j] by {
        assert(is_slice(slices[j], spans[j]));
    }
    assert(spans_of(slices) =~= spans);
}

/// Copies slices of an array, one after the other.
pub fn copy_slices(array: &Array, slices: &Vec<Slice>) -> (result: Result<Array, TakeError>)
    requires
        array.wf(),
        are_slices(spans_of(slices@), array.len as int),
    ensures
        result matches Ok(copy) ==> {
            let spans = spans_of(slices@);
            &&& copy_error(*array, spans) is None
            &&& takes(*array, slots_of(spans), copy)
            &&& copied(*array, spans, copy)
        },
        result matches Err(e) ==> copy_error(*array, spans_of(slices@)) == Some(e),
    decreases array, 1nat,
{
    let indices = expand(slices, array.len);
    match &array.values {
        Values::Null => Ok(
            Array {
                data_type: share(&array.data_type),
                len: indices.len(),
                nulls: None,
                values: Values::Null,
            },
        ),
        Values::Native(values) => Ok(take_primitive(array, values, &indices)),
        Values::Boolean(values) => Ok(take_boolean(array, values, &indices)),
        Values::Bytes { offsets, data } => gather_bytes(array, offsets, data, &None, &indices),
        Values::Views { views, buffers } => Ok(take_byte_view(array, views, buffers, &indices)),
        Values::List { offsets, child } => copy_list(array, offsets, child, slices, &indices),
        Values::ListView { offsets, sizes, child } => copy_list_view(
            array,
            offsets,
            sizes,
            child,
            slices,
            &indices,
        ),
        Values::FixedSizeList { size, child } => copy_fixed_size_list(
            array,
            *size,
            child,
            slices,
            &indices,
        ),
        Values::FixedSizeBinary { size, data } => take_fixed_size_binary(
            array,
            data,
            *size as i32,
            &indices,
        ),
        Values::Struct { columns } => copy_struct(array, columns, slices, &indices),
        Values::Dictionary { key_type, keys, dictionary } => Ok(
            take_dict(array, *key_type, keys, dictionary, &indices),
        ),
        Values::Runs { end_type, ends, offset, values } => copy_runs(
            array,
            *end_type,
            ends,
            *offset,
            values,
            slices,
            &indices,
        ),
        Values::Union { type_ids, slots, children } => match &*array.data_type {
            DataType::Union(fields, _) => match slots {
                None => copy_sparse_union(array, fields, type_ids, children, slices, &indices),
                Some(slots) => copy_dense_union(
                    array,
                    fields,
                    type_ids,
                    slots,
                    children,
                    slices,
                    &indices,
                ),
            },
            _ => Err(TakeError::UnknownTypeId),
        },
    }
}

/// Copies list views: the items of each, one after the other.
fn copy_list_view(
    array: &Array,
    offsets: &Offsets,
    sizes: &Offsets,
    child: &ArrayRef,
    slices: &Vec<Slice>,
    indices: &Indices,
) -> (result: Result<Array, TakeError>)
    requires
        array.wf(),
        array.values == (Values::ListView { offsets: *offsets, sizes: *sizes, child: *child }),
        are_slices(spans_of(slices@), array.len as int),
        indices.wf(),
        indices.nulls is None,
        indices@ == slots_of(spans_of(slices@)),
        indices@.below(array.len as int),
    ensures
        result matches Ok(copy) ==> {
            let spans = spans_of(slices@);
            &&& copy_error(*array, spans) is None
            &&& takes(*array, slots_of(spans), copy)
            &&& copied(*array, spans, copy)
        },
        result matches Err(e) ==> copy_error(*array, spans_of(slices@)) == Some(e),
    decreases array, 0nat,
{
    let ghost ix = indices@;
    let ghost spans = spans_of(slices@);
    let ghost parts = view_slices(*offsets, *sizes, ix);
    let limit: i64 = offsets.largest();
    let mut new_offsets = offsets.fresh(indices.len());
    let mut pieces: Vec<Slice> = Vec::with_capacity(indices.len());
    let mut reach: u64 = 0;
    proof {
        lemma_spread_all(spans, spans.len());
        assert(offsets.spans(*sizes, array.len as nat, child.len as nat));
        assert forall|i: int| 0 <= i < parts.len() implies {
            &&& (#[trigger] parts[i]).present
            &&& 0 <= parts[i].start
            &&& 0 <= parts[i].len
            &&& parts[i].start + parts[i].len <= child.len
        } by {
            assert(ix.valid[i]);
            assert(ix.raw[i] < array.len);
            assert(0 <= offsets.at(ix.raw[i] as int));
        }
        lemma_slices(parts, child.len as int);
    }
    let mut i: usize = 0;
    while i < indices.values.len()
        invariant
            array.wf(),
            array.values == (Values::ListView {
                offsets: *offsets,
                sizes: *sizes,
                child: *child,
            }),
            ix == indices@,
            ix == slots_of(spans_of(slices@)),
            parts == view_slices(*offsets, *sizes, ix),
            are_slices(parts, child.len as int),
            forall|j: int| 0 <= j < ix.len() ==> #[trigger] ix.raw[j] < array.len,
            limit == offsets.limit(),
            i <= ix.len(),
            reach == total(parts, i as nat),
            reach <= limit,
            first_beyond(parts, limit as int, i as nat) is None,
            new_offsets is Small <==> offsets is Small,
            new_offsets.spec_len() == i,
            forall|j: int| 0 <= j < i ==> #[trigger] new_offsets.at(j) == total(parts, j as nat),
            pieces@.len() == i,
            forall|j: int| 0 <= j < i ==> is_slice(#[trigger] pieces@[j], parts[j]),
        decreases ix.len() - i,
    {
        let raw: usize = indices.values[i];
        assert(ix.raw[i as int] < array.len);
        assert(parts[i as int].present);
        assert(offsets.spans(*sizes, array.len as nat, child.len as nat));
        assert(0 <= offsets.at(raw as int) && 0 <= sizes.at(raw as int));
        let start: usize = offsets.get(raw) as usize;
        let size: usize = sizes.get(raw) as usize;
        new_offsets.push(reach as i64);
        pieces.push(Slice { start, len: size });
        reach += size as u64;
        assert(reach == total(parts, (i + 1) as nat));
        if reach > limit as u64 {
            proof {
                lemma_first_beyond(parts, limit as int, (i + 1) as nat, ix.len());
            }
            return Err(TakeError::OffsetOverflow(reach));
        }
        i += 1;
    }
    proof {
        lemma_are_spans(pieces@, parts);
    }
    let items = match copy_slices(child, &pieces) {
        Ok(items) => items,
        Err(e) => {
            return Err(e);
        },
    };
    let new_sizes = sizes.take(indices);
    let copy = Array {
        data_type: share(&array.data_type),
        len: indices.len(),
        nulls: take_nulls(&array.nulls, indices),
        values: Values::ListView {
            offsets: new_offsets,
            sizes: new_sizes,
            child: Arc::new(items),
        },
    };
    proof {
        lemma_copied_nulls(array, indices, &copy);
        lemma_spread(parts, child.len as int, parts.len());
        assert forall|i: int| 0 <= i < ix.len() implies {
            &&& 0 <= #[trigger] new_offsets.at(i)
            &&& 0 <= #[trigger] new_sizes.at(i)
            &&& new_sizes.at(i) == parts[i].len
            &&& new_offsets.at(i) + new_sizes.at(i) <= items.len
        } by {
            assert(ix.raw[i] < array.len);
            assert(parts[i].present);
            lemma_total_monotone(parts, 0, i as nat);
            lemma_total_monotone(parts, (i + 1) as nat, parts.len());
        }
        assert(copy.wf());
        assert forall|i: int| 0 <= i < ix.len() && valid_in(copy.bits(), i) implies {
            &&& (#[trigger] parts[i]).present
            &&& list_extent(*array, ix.raw[i] as int) == (parts[i].start, parts[i].len)
            &&& list_extent(copy, i) == (total(parts, i as nat), parts[i].len)
        } by {
            assert(new_offsets.at(i) == total(parts, i as nat));
            assert(new_sizes.at(i) == parts[i].len);
        }
        lemma_list_rows(*array, parts, ix, copy);
    }
    Ok(copy)
}

/// Copies lists of `size` items each.
fn copy_fixed_size_list(
    array: &Array,
    size: usize,
    child: &ArrayRef,
    slices: &Vec<Slice>,
    indices: &Indices,
) -> (result: Result<Array, TakeError>)
    requires
        array.wf(),
        array.values == (Values::FixedSizeList { size, child: *child }),
        are_slices(spans_of(slices@), array.len as int),
        indices.wf(),
        indices.nulls is None,
        indices@ == slots_of(spans_of(slices@)),
        indices@.below(array.len as int),
    ensures
        result matches Ok(copy) ==> {
            let spans = spans_of(slices@);
            &&& copy_error(*array, spans) is None
            &&& takes(*array, slots_of(spans), copy)
            &&& copied(*array, spans, copy)
        },
        result matches Err(e) ==> copy_error(*array, spans_of(slices@)) == Some(e),
    decreases array, 0nat,
{
    let ghost ix = indices@;
    let ghost spans = spans_of(slices@);
    let ghost fine = fixed_spans(size as int, ix);
    let ghost coarse = fixed_slices(size as int, spans);
    proof {
        lemma_fixed_pieces(size as int, array.len as int, spans);
    }
    let mut pieces: Vec<Slice> = Vec::with_capacity(slices.len());
    let mut k: usize = 0;
    while k < slices.len()
        invariant
            spans == spans_of(slices@),
            are_slices(spans, array.len as int),
            array.len * size <= usize::MAX,
            coarse == fixed_slices(size as int, spans),
            k <= slices@.len(),
            pieces@.len() == k,
            forall|j: int| 0 <= j < k ==> is_slice(#[trigger] pieces@[j], coarse[j]),
        decreases slices@.len() - k,
    {
        let slice: Slice = slices[k];
        assert(spans[k as int].present);
        assert(0 <= slice.start * size <= array.len * size && 0 <= slice.len * size <= array.len
            * size) by (nonlinear_arith)
            requires
                slice.start + slice.len <= array.len,
        ;
        pieces.push(Slice { start: slice.start * size, len: slice.len * size });
        k += 1;
    }
    proof {
        lemma_are_spans(pieces@, coarse);
    }
    let items = match copy_slices(child, &pieces) {
        Ok(items) => items,
        Err(e) => {
            return Err(e);
        },
    };
    let copy = Array {
        data_type: share(&array.data_type),
        len: indices.len(),
        nulls: take_nulls(&array.nulls, indices),
        values: Values::FixedSizeList { size, child: Arc::new(items) },
    };
    proof {
        lemma_copied_nulls(array, indices, &copy);
        lemma_fixed_spans(size as int, array.len as int, ix);
        lemma_spread(fine, child.len as int, ix.len());
        lemma_fixed_total(size as int, ix, ix.len());
        assert(copy.wf());
        assert forall|i: int| 0 <= i < ix.len() && valid_in(copy.bits(), i) implies {
            &&& (#[trigger] fine[i]).present
            &&& list_extent(*array, ix.raw[i] as int) == (fine[i].start, fine[i].len)
            &&& list_extent(copy, i) == (total(fine, i as nat), fine[i].len)
        } by {
            lemma_fixed_total(size as int, ix, i as nat);
        }
        lemma_list_rows(*array, fine, ix, copy);
    }
    Ok(copy)
}

/// Slices of lists of one size mark the items that their slots do.
proof fn lemma_fixed_pieces(size: int, len: int, spans: Seq<Span>)
    requires
        0 <= size,
        0 <= len <= usize::MAX,
        len * size <= usize::MAX,
        are_slices(spans, len),
    ensures
        are_slices(fixed_slices(size, spans), len * size),
        slots_of(fixed_slices(size, spans)) == spread(
            fixed_spans(size, slots_of(spans)),
            slots_of(spans).len(),
        ),
{
    let ix = slots_of(spans);
    let fine = fixed_spans(size, ix);
    let coarse = fixed_slices(size, spans);
    let edge = Seq::new((len + 1) as nat, |i: int| i * size);
    lemma_slices(spans, len);
    lemma_spread(spans, len, spans.len());
    lemma_spread_all(spans, spans.len());
    assert(0 * size == 0) by (nonlinear_arith);
    assert(are_edges(edge)) by {
        assert forall|i: int, j: int| 0 <= i <= j < edge.len() implies #[trigger] edge[i]
            <= #[trigger] edge[j] by {
            assert(i * size <= j * size) by (nonlinear_arith)
                requires
                    i <= j,
                    0 <= size,
            ;
        }
    }
    assert(parts_of(edge, spans, fine)) by {
        assert forall|p: int| 0 <= p < fine.len() implies #[trigger] fine[p]
            == part_at(edge, ix.raw[p] as int) by {
            assert(ix.valid[p]);
            let raw = ix.raw[p] as int;
            assert(raw < len);
            assert((raw + 1) * size - raw * size == size) by (nonlinear_arith);
        }
    }
    assert(pieces_of(edge, spans, coarse)) by {
        assert forall|i: int| 0 <= i < spans.len() implies #[trigger] coarse[i] == (Span {
            start: edge[spans[i].start],
            len: edge[spans[i].start + spans[i].len] - edge[spans[i].start],
            present: true,
        }) by {
            assert(spans[i].present);
            let start = spans[i].start;
            let count = spans[i].len;
            assert((start + count) * size - start * size == count * size) by (nonlinear_arith);
        }
    }
    lemma_pieces(edge, spans, fine, coarse);
}

/// Copies the same slices of each child.
fn copy_children(children: &Vec<ArrayRef>, slices: &Vec<Slice>) -> (result: Result<
    Vec<ArrayRef>,
    TakeError,
>)
    requires
        forall|k: int|
            0 <= k < children@.len() ==> (#[trigger] children@[k]).wf() && are_slices(
                spans_of(slices@),
                children@[k].len as int,
            ),
    ensures
        result matches Ok(copies) ==> {
            let spans = spans_of(slices@);
            &&& copies_error(
                children@,
                Seq::new(children@.len(), |k: int| spans),
                children@.len(),
            ) is None
            &&& copies@.len() == children@.len()
            &&& forall|k: int|
                0 <= k < children@.len() ==> takes(
                    *children@[k],
                    slots_of(spans),
                    *#[trigger] copies@[k],
                ) && copied(*children@[k], spans, *copies@[k])
        },
        result matches Err(e) ==> copies_error(
            children@,
            Seq::new(children@.len(), |k: int| spans_of(slices@)),
            children@.len(),
        ) == Some(e),
    decreases children@, 0nat,
{
    let ghost spans = spans_of(slices@);
    let ghost parts = Seq::new(children@.len(), |k: int| spans_of(slices@));
    let mut copies: Vec<ArrayRef> = Vec::with_capacity(children.len());
    let mut k: usize = 0;
    while k < children.len()
        invariant
            forall|j: int|
                0 <= j < children@.len() ==> (#[trigger] children@[j]).wf() && are_slices(
                    spans_of(slices@),
                    children@[j].len as int,
                ),
            spans == spans_of(slices@),
            parts == Seq::new(children@.len(), |j: int| spans_of(slices@)),
            k <= children@.len(),
            copies_error(children@, parts, k as nat) is None,
            copies@.len() == k,
            forall|j: int|
                0 <= j < k ==> takes(*children@[j], slots_of(spans), *#[trigger] copies@[j])
                    && copied(*children@[j], spans, *copies@[j]),
        decreases children@.len() - k,
    {
        assert(children@[k as int].wf());
        match copy_slices(&children[k], slices) {
            Ok(copy) => {
                copies.push(Arc::new(copy));
            },
            Err(e) => {
                proof {
                    lemma_copies_error(children@, parts, (k + 1) as nat, children@.len());
                }
                return Err(e);
            },
        }
        k += 1;
    }
    Ok(copies)
}

/// Copies structs: the same slices of each column.
fn copy_struct(
    array: &Array,
    columns: &Vec<ArrayRef>,
    slices: &Vec<Slice>,
    indices: &Indices,
) -> (result: Result<Array, TakeError>)
    requires
        array.wf(),
        array.values == (Values::Struct { columns: *columns }),
        are_slices(spans_of(slices@), array.len as int),
        indices.wf(),
        indices.nulls is None,
        indices@ == slots_of(spans_of(slices@)),
        indices@.below(array.len as int),
    ensures
        result matches Ok(copy) ==> {
            let spans = spans_of(slices@);
            &&& copy_error(*array, spans) is None
            &&& takes(*array, slots_of(spans), copy)
            &&& copied(*array, spans, copy)
        },
        result matches Err(e) ==> copy_error(*array, spans_of(slices@)) == Some(e),
    decreases array, 0nat,
{
    let copies = match copy_children(columns, slices) {
        Ok(copies) => copies,
        Err(e) => {
            return Err(e);
        },
    };
    let copy = Array {
        data_type: share(&array.data_type),
        len: indices.len(),
        nulls: take_nulls(&array.nulls, indices),
        values: Values::Struct { columns: copies },
    };
    proof {
        lemma_copied_nulls(array, indices, &copy);
        lemma_struct_taken(array, indices@, &copy);
    }
    Ok(copy)
}

/// Copies a sparse union: the same slices of each child.
fn copy_sparse_union(
    array: &Array,
    fields: &Vec<(i8, Arc<Field>)>,
    type_ids: &Vec<i8>,
    children: &Vec<ArrayRef>,
    slices: &Vec<Slice>,
    indices: &Indices,
) -> (result: Result<Array, TakeError>)
    requires
        array.wf(),
        array.values == (Values::Union { type_ids: *type_ids, slots: None, children: *children }),
        array.union_fields() == fields@,
        are_slices(spans_of(slices@), array.len as int),
        indices.wf(),
        indices.nulls is None,
        indices@ == slots_of(spans_of(slices@)),
        indices@.below(array.len as int),
    ensures
        result matches Ok(copy) ==> {
            let spans = spans_of(slices@);
            &&& copy_error(*array, spans) is None
            &&& takes(*array, slots_of(spans), copy)
            &&& copied(*array, spans, copy)
        },
        result matches Err(e) ==> copy_error(*array, spans_of(slices@)) == Some(e),
    decreases array, 0nat,
{
    let ghost ix = indices@;
    let ids = take_native(type_ids, indices, 0);
    let copies = match copy_children(children, slices) {
        Ok(copies) => copies,
        Err(e) => {
            return Err(e);
        },
    };
    let copy = Array {
        data_type: share(&array.data_type),
        len: indices.len(),
        nulls: None,
        values: Values::Union { type_ids: ids, slots: None, children: copies },
    };
    proof {
        lemma_known_ids(array, indices);
        lemma_sparse_taken(array, ix, &copy);
    }
    Ok(copy)
}

/// The ids of slots that are there belong to fields.
proof fn lemma_known_ids(a: &Array, indices: &Indices)
    requires
        a.wf(),
        a.values is Union,
        indices.wf(),
        indices.nulls is None,
        indices@.below(a.len as int),
    ensures
        ({
            let ids = gathered(a.values->type_ids@, indices@, 0);
            &&& forall|i: int|
                0 <= i < ids.len() ==> has_field(a.union_fields(), #[trigger] ids[i])
            &&& forall|i: int| 0 <= i < ids.len() ==> 0 <= #[trigger] ids[i]
        }),
{
    let ix = indices@;
    let ids = gathered(a.values->type_ids@, ix, 0);
    assert forall|i: int| 0 <= i < ids.len() implies has_field(
        a.union_fields(),
        #[trigger] ids[i],
    ) && 0 <= ids[i] by {
        assert(ix.valid[i]);
        assert(ix.raw[i] < a.len);
        assert(has_field(a.union_fields(), a.values->type_ids@[ix.raw[i] as int]));
    }
}

/// Copies of each child of a dense union the slots beside its id, one by one.
fn copy_dense_children(
    fields: &Vec<(i8, Arc<Field>)>,
    children: &Vec<ArrayRef>,
    ids: &Vec<i8>,
    offsets: &Vec<i32>,
) -> (result: Result<Vec<ArrayRef>, TakeError>)
    requires
        fields@.len() == children@.len(),
        fields_wf(fields@),
        ids@.len() == offsets@.len(),
        forall|i: int| 0 <= i < ids@.len() ==> has_field(fields@, #[trigger] ids@[i]),
        forall|i: int|
            0 <= i < offsets@.len() ==> 0 <= #[trigger] offsets@[i] < children@[field_position(
                fields@,
                ids@[i],
            )].len,
        forall|k: int| 0 <= k < children@.len() ==> (#[trigger] children@[k]).wf(),
    ensures
        result matches Ok(copies) ==> {
            let parts = dense_slices(fields@, ids@, offsets@);
            &&& copies_error(children@, parts, children@.len()) is None
            &&& copies@.len() == children@.len()
            &&& forall|k: int|
                0 <= k < children@.len() ==> takes(
                    *children@[k],
                    slots_of(parts[k]),
                    *#[trigger] copies@[k],
                ) && copied(*children@[k], parts[k], *copies@[k])
        },
        result matches Err(e) ==> copies_error(
            children@,
            dense_slices(fields@, ids@, offsets@),
            children@.len(),
        ) == Some(e),
    decreases children@, 0nat,
{
    let ghost parts = dense_slices(fields@, ids@, offsets@);
    let mut copies: Vec<ArrayRef> = Vec::with_capacity(children.len());
    let mut k: usize = 0;
    while k < children.len()
        invariant
            fields@.len() == children@.len(),
            fields_wf(fields@),
            ids@.len() == offsets@.len(),
            forall|i: int| 0 <= i < ids@.len() ==> has_field(fields@, #[trigger] ids@[i]),
            forall|i: int|
                0 <= i < offsets@.len() ==> 0 <= #[trigger] offsets@[i] < children@[field_position(
                    fields@,
                    ids@[i],
                )].len,
            forall|j: int| 0 <= j < children@.len() ==> (#[trigger] children@[j]).wf(),
            parts == dense_slices(fields@, ids@, offsets@),
            k <= children@.len(),
            copies_error(children@, parts, k as nat) is None,
            copies@.len() == k,
            forall|j: int|
                0 <= j < k ==> takes(*children@[j], slots_of(parts[j]), *#[trigger] copies@[j])
                    && copied(*children@[j], parts[j], *copies@[j]),
        decreases children@.len() - k,
    {
        let id: i8 = fields[k].0;
        let beside = offsets_beside(ids, offsets, id);
        let pieces = single_pieces(&beside);
        proof {
            lemma_beside(fields@, children@, ids@, offsets@, k as int, ids@.len());
            assert(are_slices(parts[k as int], children@[k as int].len as int));
        }
        match copy_slices(&children[k], &pieces) {
            Ok(copy) => {
                copies.push(Arc::new(copy));
            },
            Err(e) => {
                proof {
                    lemma_copies_error(children@, parts, (k + 1) as nat, children@.len());
                }
                return Err(e);
            },
        }
        k += 1;
    }
    Ok(copies)
}

/// A slice of one slot at each offset.
fn single_pieces(offsets: &Vec<usize>) -> (pieces: Vec<Slice>)
    ensures
        spans_of(pieces@) == single_slices(offsets@),
{
    let mut pieces: Vec<Slice> = Vec::with_capacity(offsets.len());
    let mut i: usize = 0;
    while i < offsets.len()
        invariant
            i <= offsets@.len(),
            pieces@.len() == i,
            forall|j: int|
                0 <= j < i ==> is_slice(#[trigger] pieces@[j], single_slices(offsets@)[j]),
        decreases offsets@.len() - i,
    {
        pieces.push(Slice { start: offsets[i], len: 1 });
        i += 1;
    }
    proof {
        lemma_are_spans(pieces@, single_slices(offsets@));
    }
    pieces
}

/// Offsets beside the id of a field lead to slots of its child.
proof fn lemma_beside(
    fields: Seq<(i8, Arc<Field>)>,
    children: Seq<ArrayRef>,
    ids: Seq<i8>,
    offsets: Seq<i32>,
    k: int,
    n: nat,
)
    requires
        0 <= k < fields.len() == children.len(),
        fields_wf(fields),
        n <= ids.len() == offsets.len(),
        forall|i: int| 0 <= i < ids.len() ==> has_field(fields, #[trigger] ids[i]),
        forall|i: int|
            0 <= i < offsets.len() ==> 0 <= #[trigger] offsets[i] < children[field_position(
                fields,
                ids[i],
            )].len,
    ensures
        are_slices(
            single_slices(offsets_of(ids, offsets, fields[k].0, n)),
            children[k].len as int,
        ),
    decreases n,
{
    if n > 0 {
        lemma_beside(fields, children, ids, offsets, k, (n - 1) as nat);
        let before = single_slices(offsets_of(ids, offsets, fields[k].0, (n - 1) as nat));
        let now = single_slices(offsets_of(ids, offsets, fields[k].0, n));
        if ids[n - 1] == fields[k].0 {
            assert(has_field(fields, ids[n - 1]));
            let place = field_position(fields, ids[n - 1]);
            assert(fields[place].0 == fields[k].0);
            assert(place == k);
            assert(0 <= offsets[n - 1] < children[k].len);
        }
        assert forall|i: int| 0 <= i < now.len() implies {
            &&& (#[trigger] now[i]).present
            &&& 0 <= now[i].start
            &&& 0 <= now[i].len
            &&& now[i].start + now[i].len <= children[k].len
        } by {
            if i < before.len() {
                assert(now[i] == before[i]);
                assert(before[i].present);
            }
        }
    }
}

/// Copies a dense union: of each child the slots that are referred to, one by one.
fn copy_dense_union(
    array: &Array,
    fields: &Vec<(i8, Arc<Field>)>,
    type_ids: &Vec<i8>,
    slots: &Vec<i32>,
    children: &Vec<ArrayRef>,
    slices: &Vec<Slice>,
    indices: &Indices,
) -> (result: Result<Array, TakeError>)
    requires
        array.wf(),
        array.values matches Values::Union { type_ids: t, slots: Some(s), children: c } && t
            == *type_ids && s == *slots && c == *children,
        array.union_fields() == fields@,
        are_slices(spans_of(slices@), array.len as int),
        indices.wf(),
        indices.nulls is None,
        indices@ == slots_of(spans_of(slices@)),
        indices@.below(array.len as int),
    ensures
        result matches Ok(copy) ==> {
            let spans = spans_of(slices@);
            &&& copy_error(*array, spans) is None
            &&& takes(*array, slots_of(spans), copy)
            &&& copied(*array, spans, copy)
        },
        result matches Err(e) ==> copy_error(*array, spans_of(slices@)) == Some(e),
    decreases array, 0nat,
{
    let ghost ix = indices@;
    let ids = take_native(type_ids, indices, 0);
    let offsets = take_native(slots, indices, 0);
    let ghost parts = dense_slices(fields@, ids@, offsets@);
    proof {
        lemma_known_ids(array, indices);
        assert forall|i: int| 0 <= i < offsets@.len() implies 0 <= #[trigger] offsets@[i]
            < children@[field_position(fields@, ids@[i])].len by {
            assert(ix.valid[i]);
            assert(ix.raw[i] < array.len);
            assert(0 <= slots@[ix.raw[i] as int]);
        }
    }
    let copies = match copy_dense_children(fields, children, &ids, &offsets) {
        Ok(copies) => copies,
        Err(e) => {
            return Err(e);
        },
    };
    let new_slots = match count_offsets(&ids) {
        Some(new_slots) => new_slots,
        None => {
            return Err(TakeError::UnionOffset);
        },
    };
    let copy = Array {
        data_type: share(&array.data_type),
        len: indices.len(),
        nulls: None,
        values: Values::Union { type_ids: ids, slots: Some(new_slots), children: copies },
    };
    proof {
        let picks = dense_picks(fields@, ids@, offsets@);
        assert forall|k: int| 0 <= k < children@.len() implies takes(
            *children@[k],
            picks[k],
            *#[trigger] copies@[k],
        ) by {
            let beside = offsets_of(ids@, offsets@, fields@[k].0, ids@.len());
            lemma_single(beside, beside.len());
            assert(beside.subrange(0, beside.len() as int) =~= beside);
            assert(slots_of(parts[k]) == picks[k]);
        }
        lemma_dense_taken(array, ix, &copy);
    }
    Ok(copy)
}

/// Copies a run-end encoded array. A run that a slice cuts off ends with it.
fn copy_runs(
    array: &Array,
    end_type: IntType,
    ends: &Vec<i64>,
    offset: usize,
    values: &ArrayRef,
    slices: &Vec<Slice>,
    indices: &Indices,
) -> (result: Result<Array, TakeError>)
    requires
        array.wf(),
        array.values == (Values::Runs { end_type, ends: *ends, offset, values: *values }),
        are_slices(spans_of(slices@), array.len as int),
        indices.wf(),
        indices.nulls is None,
        indices@ == slots_of(spans_of(slices@)),
        indices@.below(array.len as int),
    ensures
        result matches Ok(copy) ==> {
            let spans = spans_of(slices@);
            &&& copy_error(*array, spans) is None
            &&& takes(*array, slots_of(spans), copy)
            &&& copied(*array, spans, copy)
        },
        result matches Err(e) ==> copy_error(*array, spans_of(slices@)) == Some(e),
    decreases array, 0nat,
{
    let len: usize = indices.len();
    let ghost ix = indices@;
    let ghost spans = spans_of(slices@);
    let ghost parts = run_slices(ends@, offset as int, spans);
    let ghost tags = touched_runs(ends@, offset as int, spans, spans.len());
    if len as u64 > end_type.largest() {
        return Err(TakeError::RunEndOverflow(len));
    }
    proof {
        lemma_slices(spans, array.len as int);
        lemma_spread(spans, array.len as int, spans.len());
        lemma_spread_all(spans, spans.len());
        assert forall|i: int| 0 <= i < ix.len() implies #[trigger] ix.raw[i] < array.len by {
            assert(ix.valid[i]);
        }
        assert forall|m: nat| m <= spans.len() implies #[trigger] touched_runs(
            ends@,
            offset as int,
            spans,
            m,
        ).len() == total(spans, m) by {
            lemma_touched(ends@, offset as int, array.len as int, spans, m);
        }
        lemma_touched(ends@, offset as int, array.len as int, spans, spans.len());
        lemma_run_slices(ends@, offset as int, array.len as int, spans);
        lemma_slices(parts, values.len as int);
    }
    let physical = match physical_indices(ends, offset, array.len, &indices.values) {
        Ok(physical) => physical,
        Err(position) => {
            return Err(TakeError::RunOutOfBounds { position, len: array.len });
        },
    };
    proof {
        assert forall|i: int| 0 <= i < len implies #[trigger] physical@[i] == run_at(
            ends@,
            offset + ix.raw[i],
        ) by {
            lemma_covers(ends@, physical@[i] as int, offset + ix.raw[i]);
        }
    }
    let mut pieces: Vec<Slice> = Vec::with_capacity(slices.len());
    let mut stops: Vec<i64> = Vec::new();
    let mut p: usize = 0;
    let mut k: usize = 0;
    while k < slices.len()
        invariant
            spans == spans_of(slices@),
            runs_wf(ends@, offset + array.len),
            are_slices(spans, array.len as int),
            spans_wf(spans),
            spans_within(spans, array.len as int),
            parts == run_slices(ends@, offset as int, spans),
            are_slices(parts, values.len as int),
            tags == touched_runs(ends@, offset as int, spans, spans.len()),
            tags.len() == len,
            len == total(spans, spans.len()),
            len <= i64::MAX,
            forall|m: nat|
                m <= spans.len() ==> #[trigger] touched_runs(ends@, offset as int, spans, m).len()
                    == total(spans, m),
            ix == slots_of(spans),
            ix.len() == len,
            physical@.len() == len,
            forall|i: int|
                0 <= i < len ==> #[trigger] physical@[i] == run_at(ends@, offset + ix.raw[i]),
            k <= slices@.len(),
            p == total(spans, k as nat),
            pieces@.len() == k,
            forall|j: int| 0 <= j < k ==> is_slice(#[trigger] pieces@[j], parts[j]),
            stops@ == stretch_ends(tags, p as nat),
            p > 0 ==> stops@.len() > 0,
        decreases slices@.len() - k,
    {
        let slice: Slice = slices[k];
        let ghost span = spans[k as int];
        assert(span.present && span.len == slice.len && span.start == slice.start);
        let base: usize = p;
        proof {
            lemma_total_monotone(spans, (k + 1) as nat, spans.len());
        }
        let mut j: usize = 0;
        while j < slice.len
            invariant
                0 <= k < spans.len(),
                span == spans[k as int],
                span.len == slice.len,
                span.start == slice.start,
                runs_wf(ends@, offset + array.len),
                are_slices(spans, array.len as int),
                spans_wf(spans),
                spans_within(spans, array.len as int),
                parts == run_slices(ends@, offset as int, spans),
                tags == touched_runs(ends@, offset as int, spans, spans.len()),
                tags.len() == len,
                len <= i64::MAX,
                forall|m: nat|
                    m <= spans.len() ==> #[trigger] touched_runs(
                        ends@,
                        offset as int,
                        spans,
                        m,
                    ).len() == total(spans, m),
                ix == slots_of(spans),
                ix.len() == len,
                physical@.len() == len,
                forall|i: int|
                    0 <= i < len ==> #[trigger] physical@[i] == run_at(ends@, offset + ix.raw[i]),
                base == total(spans, k as nat),
                base + slice.len <= len,
                j <= slice.len,
                p == base + j,
                stops@ == stretch_ends(tags, p as nat),
                p > 0 ==> stops@.len() > 0,
            decreases slice.len - j,
        {
            proof {
                lemma_spread_at(spans, array.len as int, spans.len(), k as int, j as int);
                lemma_touched_at(
                    ends@,
                    offset as int,
                    spans,
                    spans.len(),
                    k as int,
                    j as int,
                );
                if j > 0 {
                    lemma_spread_at(spans, array.len as int, spans.len(), k as int, j - 1);
                    lemma_touched_at(
                        ends@,
                        offset as int,
                        spans,
                        spans.len(),
                        k as int,
                        j - 1,
                    );
                    assert(starts_run(tags, p as int) == (physical@[p as int] != physical@[p - 1]));
                } else if p > 0 {
                    lemma_slice_starts(ends@, offset as int, array.len as int, spans, k as int);
                }
            }
            if j == 0 || physical[p] != physical[p - 1] {
                assert(starts_run(tags, p as int));
            } else {
                assert(!starts_run(tags, p as int));
                stops.pop();
            }
            stops.push((p + 1) as i64);
            p += 1;
            j += 1;
        }
        if slice.len == 0 {
            pieces.push(Slice { start: 0, len: 0 });
        } else {
            proof {
                lemma_spread_at(spans, array.len as int, spans.len(), k as int, 0);
                lemma_spread_at(spans, array.len as int, spans.len(), k as int, span.len - 1);
                assert(parts[k as int].present);
                let start = offset + span.start;
                lemma_runs_rise(ends@, offset + array.len, start, start + span.len - 1);
                assert(physical@[base as int] == run_at(ends@, start));
                assert(physical@[p - 1] == run_at(ends@, start + span.len - 1));
            }
            let first: usize = physical[base];
            let last: usize = physical[p - 1];
            pieces.push(Slice { start: first, len: last - first + 1 });
        }
        k += 1;
    }
    proof {
        lemma_are_spans(pieces@, parts);
    }
    let new_values = match copy_slices(values, &pieces) {
        Ok(new_values) => new_values,
        Err(e) => {
            return Err(e);
        },
    };
    let copy = Array {
        data_type: share(&array.data_type),
        len,
        nulls: None,
        values: Values::Runs { end_type, ends: stops, offset: 0, values: Arc::new(new_values) },
    };
    proof {
        lemma_steps(tags, len as nat);
        assert forall|i: int| 0 <= i < tags.len() implies 0 <= #[trigger] tags[i]
            <= usize::MAX by {
            lemma_steps(tags, (i + 1) as nat);
        }
        lemma_stretches(tags, len as nat);
        lemma_spread(parts, values.len as int, parts.len());
        assert(copy.wf());
        assert forall|i: int| 0 <= i < ix.len() implies #[trigger] copy.row(i) == picked(
            *array,
            ix.raw[i] as int,
            ix.valid[i],
        ) by {
            let q = run_at(stops@, i);
            assert(covers(stops@, q, i));
            let (s, j) = lemma_locate(spans, spans.len(), i);
            lemma_touched_at(ends@, offset as int, spans, spans.len(), s, j);
            lemma_spread_at(spans, array.len as int, spans.len(), s, j);
            let start = offset + spans[s].start;
            lemma_runs_rise(ends@, offset + array.len, start, start + j);
            lemma_runs_rise(
                ends@,
                offset + array.len,
                start + j,
                start + spans[s].len - 1,
            );
            lemma_spread_at(
                parts,
                values.len as int,
                parts.len(),
                s,
                run_at(ends@, start + j) - run_at(ends@, start),
            );
            assert(q == tags[i]);
            assert(new_values.row(q) == picked(**values, slots_of(parts).raw[q] as int, true));
            assert(valid_in(array.bits(), ix.raw[i] as int));
        }
    }
    Ok(copy)
}

/// The first slot of a slice starts a run, whatever came before.
proof fn lemma_slice_starts(ends: Seq<i64>, offset: int, len: int, spans: Seq<Span>, k: int)
    requires
        runs_wf(ends, offset + len),
        0 <= offset,
        are_slices(spans, len),
        0 <= k < spans.len(),
        spans[k].len > 0,
        total(spans, k as nat) > 0,
    ensures
        starts_run(
            touched_runs(ends, offset, spans, spans.len()),
            total(spans, k as nat),
        ),
{
    let tags = touched_runs(ends, offset, spans, spans.len());
    lemma_slices(spans, len);
    assert forall|m: nat| m <= spans.len() implies #[trigger] touched_runs(
        ends,
        offset,
        spans,
        m,
    ).len() == total(spans, m) by {
        lemma_touched(ends, offset, len, spans, m);
    }
    lemma_touched(ends, offset, len, spans, k as nat);
    lemma_touched_at(ends, offset, spans, spans.len(), k, 0);
    let p = total(spans, k as nat);
    let (s, j) = lemma_locate(spans, k as nat, p - 1);
    lemma_touched_at(ends, offset, spans, spans.len(), s, j);
    lemma_touched_at(ends, offset, spans, k as nat, s, j);
    assert(tags[p - 1] == touched_runs(ends, offset, spans, k as nat)[p - 1]);
    assert(tags[p] == total(run_slices(ends, offset, spans), k as nat));
}

} // verus!
