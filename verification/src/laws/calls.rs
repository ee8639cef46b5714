//! What calls of [`take`] give, read off the arrays that go in and come out.
use crate::array::{field_position, fields_wf, Array, ArrayRef, Offsets, Values};
use crate::datatype::{DataType, PrimitiveType};
use crate::error::TakeError;
use crate::indices::{
    addressable, bounds_error, index_type, index_value, lemma_bounds_error, positions, strays,
};
use crate::laws::{lemma_no_bounds_error, lemma_within_limit};
use crate::laws::numbers::{holds_numbers, keeps_to, lemma_index_numbers, null_at, number_at};
use crate::laws::room::reach;
use crate::laws::slots::{absent, lemma_absent, lemma_same_slot, offset_at, same_slot};
use crate::selection::{
    cut_spans, first_beyond, lemma_cut_spans, marked_valid, picked, takes, total, Span,
};
use crate::take::{arrays_error, take, take_arrays, TakeOptions};
use crate::validity::valid_in;
use arrow_buffer::NullBuffer;
use vstd::prelude::*;

verus! {

/// What an index array stands for, read off its slots.
pub proof fn lemma_positions(indices: Array)
    requires
        indices.wf(),
        holds_numbers(indices),
    ensures
        index_type(indices) is Some,
        positions(indices).wf(),
        positions(indices).len() == indices.len,
        forall|i: int|
            0 <= i < indices.len ==> #[trigger] positions(indices).valid[i] == !null_at(
                indices.nulls,
                i,
            ),
        forall|i: int|
            0 <= i < indices.len && 0 <= number_at(indices, i) <= usize::MAX
                ==> #[trigger] positions(indices).raw[i] == number_at(indices, i),
{
    lemma_index_numbers(indices);
    assert forall|i: int| 0 <= i < indices.len implies #[trigger] positions(indices).valid[i]
        == !null_at(indices.nulls, i) by {
        let _ = valid_in(indices.bits(), i);
    }
    assert forall|i: int|
        0 <= i < indices.len && 0 <= number_at(indices, i)
            <= usize::MAX implies #[trigger] positions(indices).raw[i] == number_at(
        indices,
        i,
    ) by {
        let _ = index_value(indices, i);
    }
}

/// Slots of this kind of array are marked as null in a bitmap, or not at all.
pub open spec fn marks_nulls(a: Array) -> bool {
    match a.values {
        Values::Null | Values::Runs { .. } | Values::Union { .. } => false,
        _ => true,
    }
}

/// `taken` holds what `indices` ask of `values`: one slot for each index, of the type of the
/// values. An index that holds the number `n` gives what slot `n` holds, and is marked as null
/// where that is. A null index gives nothing, except from runs and unions, whose slots are always
/// something: runs and dense unions give what stands at the number under the null, and sparse
/// unions nothing in the variant there.
pub open spec fn fetched(values: Array, indices: Array, taken: Array) -> bool {
    &&& taken.wf()
    &&& taken.data_type == values.data_type
    &&& taken.len == indices.len
    &&& forall|i: int|
        0 <= i < indices.len && !null_at(indices.nulls, i) && 0 <= number_at(indices, i)
            < values.len ==> #[trigger] same_slot(values, number_at(indices, i), taken, i)
    &&& forall|i: int|
        0 <= i < indices.len && null_at(indices.nulls, i) && !(values.values is Runs
            || values.values is Union) ==> #[trigger] absent(taken, i)
    &&& marks_nulls(values) ==> forall|i: int|
        0 <= i < indices.len && (null_at(indices.nulls, i) || 0 <= number_at(indices, i)
            < values.len) ==> #[trigger] null_at(taken.nulls, i) == (null_at(indices.nulls, i)
            || null_at(values.nulls, number_at(indices, i)))
    &&& values.values is Runs || (values.values is Union && values.values->slots is Some)
        ==> forall|i: int|
        0 <= i < indices.len && null_at(indices.nulls, i) && 0 <= number_at(indices, i)
            < values.len ==> #[trigger] same_slot(values, number_at(indices, i), taken, i)
    &&& values.values is Union ==> forall|i: int|
        0 <= i < indices.len && 0 <= number_at(indices, i) < values.len
            ==> #[trigger] taken.values->type_ids@[i] == values.values->type_ids@[number_at(
            indices,
            i,
        )]
    &&& values.values is Union ==> forall|i: int|
        0 <= i < indices.len && null_at(indices.nulls, i) && values.len <= number_at(indices, i)
            <= usize::MAX ==> #[trigger] taken.values->type_ids@[i] == 0
    &&& values.values is Union && values.values->slots is None ==> forall|i: int, k: int|
        0 <= i < indices.len && null_at(indices.nulls, i) && 0 <= k
            < taken.values->children@.len() && values.data_type->Union_0@[k].0
            == taken.values->type_ids@[i] && marks_nulls(*taken.values->children@[k])
            ==> #[trigger] absent(*taken.values->children@[k], i)
}

/// Taking gives what the indices ask of the values.
pub proof fn law_take_gives_the_slots_asked_for(
    values: &Array,
    indices: &Array,
    options: Option<TakeOptions>,
    taken: ArrayRef,
)
    requires
        values.wf(),
        indices.wf(),
        holds_numbers(*indices),
        call_ensures(take, (values, indices, options), Ok(taken)),
    ensures
        fetched(*values, *indices, *taken),
{
    lemma_fetched(values, indices, &*taken);
}

/// What is selected is what the indices ask for.
pub proof fn lemma_fetched(values: &Array, indices: &Array, taken: &Array)
    requires
        values.wf(),
        indices.wf(),
        holds_numbers(*indices),
        takes(*values, positions(*indices), *taken),
    ensures
        fetched(*values, *indices, *taken),
{
    let ix = positions(*indices);
    lemma_positions(*indices);
    assert forall|i: int|
        0 <= i < indices.len && !null_at(indices.nulls, i) && 0 <= number_at(*indices, i)
            < values.len implies #[trigger] same_slot(
        *values,
        number_at(*indices, i),
        *taken,
        i,
    ) by {
        let n = number_at(*indices, i);
        assert(ix.valid[i] && ix.raw[i] == n);
        assert(taken.row(i) == picked(*values, n, true));
        lemma_same_slot(values, n, taken, i);
    }
    assert forall|i: int|
        0 <= i < indices.len && null_at(indices.nulls, i) && !(values.values is Runs
            || values.values is Union) implies #[trigger] absent(*taken, i) by {
        assert(!ix.valid[i]);
        assert(taken.row(i) == picked(*values, ix.raw[i] as int, false));
        lemma_absent(taken, i);
    }
    if marks_nulls(*values) {
        assert forall|i: int|
            0 <= i < indices.len && (null_at(indices.nulls, i) || 0 <= number_at(*indices, i)
                < values.len) implies #[trigger] null_at(taken.nulls, i) == (null_at(
            indices.nulls,
            i,
        ) || null_at(values.nulls, number_at(*indices, i))) by {
            assert(ix.valid[i] == !null_at(indices.nulls, i));
            assert(valid_in(taken.bits(), i) == marked_valid(
                *values,
                ix.raw[i] as int,
                ix.valid[i],
            ));
            if ix.valid[i] {
                assert(ix.raw[i] == number_at(*indices, i));
            }
        }
    }
    if values.values is Runs || (values.values is Union && values.values->slots is Some) {
        assert forall|i: int|
            0 <= i < indices.len && null_at(indices.nulls, i) && 0 <= number_at(*indices, i)
                < values.len implies #[trigger] same_slot(
            *values,
            number_at(*indices, i),
            *taken,
            i,
        ) by {
            let n = number_at(*indices, i);
            assert(!ix.valid[i] && ix.raw[i] == n);
            assert(taken.row(i) == picked(*values, n, false));
            lemma_same_slot(values, n, taken, i);
        }
    }
    if values.values is Union {
        assert forall|i: int|
            0 <= i < indices.len && 0 <= number_at(*indices, i)
                < values.len implies #[trigger] taken.values->type_ids@[i]
            == values.values->type_ids@[number_at(*indices, i)] by {
            let n = number_at(*indices, i);
            assert(ix.raw[i] == n);
            assert(taken.row(i) == picked(*values, n, ix.valid[i]));
            assert(taken.row(i)->Union_0 == taken.values->type_ids@[i]);
        }
        assert forall|i: int|
            0 <= i < indices.len && null_at(indices.nulls, i) && values.len <= number_at(
                *indices,
                i,
            ) <= usize::MAX implies #[trigger] taken.values->type_ids@[i] == 0 by {
            assert(!ix.valid[i] && ix.raw[i] == number_at(*indices, i));
            assert(taken.row(i) == picked(*values, ix.raw[i] as int, false));
            assert(taken.row(i)->Union_0 == taken.values->type_ids@[i]);
        }
        if values.values->slots is None {
            let fields = values.union_fields();
            let children = taken.values->children@;
            assert forall|i: int, k: int|
                0 <= i < indices.len && null_at(indices.nulls, i) && 0 <= k < children.len()
                    && fields[k].0 == taken.values->type_ids@[i] && marks_nulls(
                    *children[k],
                ) implies #[trigger] absent(*children[k], i) by {
                let raw = ix.raw[i] as int;
                assert(!ix.valid[i]);
                assert(taken.row(i) == picked(*values, raw, false));
                let id = taken.values->type_ids@[i];
                assert(taken.row(i)->Union_0 == id);
                let place = field_position(fields, id);
                assert(fields_wf(fields));
                assert(fields[place].0 == id);
                assert(place == k);
                assert(*taken.row(i)->Union_1 == children[k].row(i));
                let child = values.values->children@[k];
                assert(child.data_type == children[k].data_type);
                assert(child.wf() && children[k].wf());
                assert(marks_nulls(*child));
                assert(picked(*child, raw, false) is Null);
                lemma_absent(&*children[k], i);
            }
        }
    }
}

/// Indices that are no integers are an error that names their type, whatever else is asked.
pub proof fn law_take_refuses_other_indices(
    values: &Array,
    indices: &Array,
    options: Option<TakeOptions>,
    result: Result<ArrayRef, TakeError>,
)
    requires
        call_ensures(take, (values, indices, options), result),
        !(*indices.data_type matches DataType::Primitive(PrimitiveType::Int(_))),
    ensures
        result == Err::<ArrayRef, TakeError>(TakeError::NotIntegers(indices.data_type)),
{
}

/// The options ask for bounds to be checked.
pub open spec fn asks_for_check(options: Option<TakeOptions>) -> bool {
    options matches Some(o) && o.check_bounds
}

/// With the check, the first index that is not null and no slot of the values is the error.
pub proof fn law_take_reports_the_first_index_out_of_bounds(
    values: &Array,
    indices: &Array,
    options: Option<TakeOptions>,
    result: Result<ArrayRef, TakeError>,
    i: int,
)
    requires
        indices.wf(),
        holds_numbers(*indices),
        asks_for_check(options),
        call_ensures(take, (values, indices, options), result),
        0 <= i < indices.len,
        !keeps_to(*indices, i, values.len as int),
        forall|j: int| 0 <= j < i ==> #[trigger] keeps_to(*indices, j, values.len as int),
    ensures
        result == Err::<ArrayRef, TakeError>(
            TakeError::OutOfBounds { index: number_at(*indices, i) as i128, len: values.len },
        ),
{
    lemma_index_numbers(*indices);
    assert forall|j: int| 0 <= j < i implies !#[trigger] strays(*indices, j, values.len) by {
        assert(keeps_to(*indices, j, values.len as int));
        let _ = index_value(*indices, j);
        let _ = valid_in(indices.bits(), j);
    }
    assert(index_value(*indices, i) == number_at(*indices, i));
    assert(valid_in(indices.bits(), i));
    lemma_no_bounds_error(*indices, values.len, i as nat);
    lemma_bounds_error(*indices, values.len, (i + 1) as nat, indices.len as nat);
}

/// Where every index that is not null is a slot of the values, the check makes no difference: the
/// call with it succeeds where the one without does, and fails as that one does.
pub proof fn law_check_makes_no_difference_within_bounds(
    values: &Array,
    indices: &Array,
    options: (Option<TakeOptions>, Option<TakeOptions>),
    results: (Result<ArrayRef, TakeError>, Result<ArrayRef, TakeError>),
)
    requires
        indices.wf(),
        holds_numbers(*indices),
        forall|i: int| 0 <= i < indices.len ==> #[trigger] keeps_to(*indices, i, values.len as int),
        call_ensures(take, (values, indices, options.0), results.0),
        call_ensures(take, (values, indices, options.1), results.1),
    ensures
        results.0 is Ok <==> results.1 is Ok,
        results.0 is Err ==> results.0 == results.1,
{
    lemma_within_bounds(*indices, values.len);
}

/// Indices within bounds are reported neither by the check nor as too large.
pub proof fn lemma_within_bounds(indices: Array, len: usize)
    requires
        indices.wf(),
        holds_numbers(indices),
        forall|i: int| 0 <= i < indices.len ==> #[trigger] keeps_to(indices, i, len as int),
    ensures
        bounds_error(indices, len, indices.len as nat) is None,
        addressable(indices),
        positions(indices).below(len as int),
{
    lemma_positions(indices);
    lemma_index_numbers(indices);
    let ix = positions(indices);
    assert forall|i: int| 0 <= i < indices.len implies !#[trigger] strays(indices, i, len) by {
        assert(keeps_to(indices, i, len as int));
        let _ = index_value(indices, i);
        let _ = valid_in(indices.bits(), i);
    }
    lemma_no_bounds_error(indices, len, indices.len as nat);
    assert forall|i: int|
        0 <= i < indices.len && valid_in(indices.bits(), i) implies 0 <= #[trigger] index_value(
        indices,
        i,
    ) <= usize::MAX by {
        assert(keeps_to(indices, i, len as int));
    }
    assert forall|i: int| 0 <= i < ix.raw.len() && ix.valid[i] implies #[trigger] ix.raw[i]
        < len by {
        assert(keeps_to(indices, i, len as int));
    }
}

/// Without the check, an index that is not null and that no position can be is an error.
pub proof fn law_take_refuses_numbers_that_are_no_positions(
    values: &Array,
    indices: &Array,
    options: Option<TakeOptions>,
    result: Result<ArrayRef, TakeError>,
    i: int,
)
    requires
        indices.wf(),
        holds_numbers(*indices),
        !asks_for_check(options),
        call_ensures(take, (values, indices, options), result),
        0 <= i < indices.len,
        !null_at(indices.nulls, i),
        !(0 <= number_at(*indices, i) <= usize::MAX),
    ensures
        result == Err::<ArrayRef, TakeError>(TakeError::IndexTooLarge),
{
    lemma_index_numbers(*indices);
    assert(index_value(*indices, i) == number_at(*indices, i));
    assert(valid_in(indices.bits(), i));
}

/// Arrays are taken from one by one: all succeed where each does, the results are those of each,
/// and the error is that of the first that fails.
pub proof fn law_arrays_are_taken_one_by_one(
    arrays: &[ArrayRef],
    indices: &Array,
    options: Option<TakeOptions>,
    each: Seq<Result<ArrayRef, TakeError>>,
    result: Result<Vec<ArrayRef>, TakeError>,
)
    requires
        indices.wf(),
        forall|k: int| 0 <= k < arrays@.len() ==> (#[trigger] arrays@[k]).wf(),
        call_ensures(take_arrays, (arrays, indices, options), result),
        each.len() == arrays@.len(),
        forall|k: int|
            0 <= k < each.len() ==> call_ensures(
                take,
                (&*arrays@[k], indices, options),
                #[trigger] each[k],
            ),
    ensures
        result is Ok <==> forall|k: int| 0 <= k < each.len() ==> #[trigger] each[k] is Ok,
        result matches Ok(taken) ==> taken@.len() == arrays@.len() && forall|k: int|
            0 <= k < arrays@.len() && holds_numbers(*indices) ==> fetched(
                *arrays@[k],
                *indices,
                *#[trigger] taken@[k],
            ),
        result matches Err(e) ==> exists|k: int|
            {
                &&& 0 <= k < each.len()
                &&& #[trigger] each[k] == Err::<ArrayRef, TakeError>(e)
                &&& forall|j: int| 0 <= j < k ==> #[trigger] each[j] is Ok
            },
{
    lemma_first_array_fails(arrays@, *indices, options, each, arrays@.len());
    if let Ok(taken) = result {
        assert forall|k: int| 0 <= k < arrays@.len() && holds_numbers(*indices) implies fetched(
            *arrays@[k],
            *indices,
            *#[trigger] taken@[k],
        ) by {
            assert(arrays@[k].wf());
            lemma_fetched(&*arrays@[k], indices, &*taken@[k]);
        }
    }
}

/// The error among arrays is that of the first call that fails.
pub proof fn lemma_first_array_fails(
    arrays: Seq<ArrayRef>,
    indices: Array,
    options: Option<TakeOptions>,
    each: Seq<Result<ArrayRef, TakeError>>,
    k: nat,
)
    requires
        k <= each.len() == arrays.len(),
        forall|j: int|
            0 <= j < each.len() ==> call_ensures(
                take,
                (&*arrays[j], &indices, options),
                #[trigger] each[j],
            ),
    ensures
        arrays_error(arrays, indices, options, k) is None <==> forall|j: int|
            0 <= j < k ==> #[trigger] each[j] is Ok,
        arrays_error(arrays, indices, options, k) matches Some(e) ==> exists|j: int|
            {
                &&& 0 <= j < k
                &&& #[trigger] each[j] == Err::<ArrayRef, TakeError>(e)
                &&& forall|t: int| 0 <= t < j ==> #[trigger] each[t] is Ok
            },
    decreases k,
{
    if k > 0 {
        lemma_first_array_fails(arrays, indices, options, each, (k - 1) as nat);
        let last = each[k - 1];
        assert(call_ensures(take, (&*arrays[k - 1], &indices, options), last));
    }
}

/// How many bytes or items the first `k` indices ask for: those between two offsets for each index
/// that is not null and leads to a slot that is not.
pub open spec fn asked_for(
    offsets: Offsets,
    nulls: Option<NullBuffer>,
    indices: Array,
    k: nat,
) -> int
    decreases k,
{
    if k == 0 {
        0
    } else {
        let n = number_at(indices, k - 1);
        asked_for(offsets, nulls, indices, (k - 1) as nat) + if null_at(indices.nulls, k - 1)
            || null_at(nulls, n) {
            0
        } else {
            offset_at(offsets, n + 1) - offset_at(offsets, n)
        }
    }
}

/// The totals of what is asked for are those of the parts that offsets mark.
pub proof fn lemma_asked_for(values: Array, offsets: Offsets, indices: Array, k: nat)
    requires
        indices.wf(),
        holds_numbers(indices),
        k <= indices.len,
        forall|i: int| 0 <= i < indices.len ==> #[trigger] keeps_to(indices, i, values.len as int),
        values.bits() matches Some(b) ==> b.len() == values.len,
    ensures
        total(cut_spans(values.bits(), offsets, positions(indices)), k) == asked_for(
            offsets,
            values.nulls,
            indices,
            k,
        ),
    decreases k,
{
    if k > 0 {
        lemma_asked_for(values, offsets, indices, (k - 1) as nat);
        lemma_positions(indices);
        let ix = positions(indices);
        assert(keeps_to(indices, k - 1, values.len as int));
        assert(ix.valid[k - 1] == !null_at(indices.nulls, k - 1));
        if ix.valid[k - 1] {
            assert(ix.raw[k - 1] == number_at(indices, k - 1));
        }
    }
}

/// The first total beyond a limit is that of some number of spans, and no fewer pass it.
pub proof fn lemma_first_total(spans: Seq<Span>, limit: int, k: nat)
    requires
        k <= spans.len(),
    ensures
        first_beyond(spans, limit, k) is None <==> forall|j: nat|
            j <= k ==> j == 0 || #[trigger] total(spans, j) <= limit,
        first_beyond(spans, limit, k) matches Some(t) ==> exists|j: nat|
            {
                &&& 0 < j <= k
                &&& t == #[trigger] total(spans, j)
                &&& t > limit
                &&& forall|m: nat| 0 < m < j ==> #[trigger] total(spans, m) <= limit
            },
    decreases k,
{
    if k > 0 {
        lemma_first_total(spans, limit, (k - 1) as nat);
        if first_beyond(spans, limit, (k - 1) as nat) is None && total(spans, k) > limit {
            assert forall|m: nat| 0 < m < k implies #[trigger] total(spans, m) <= limit by {
                assert(m <= k - 1);
            }
        }
    }
}

/// Strings and binaries can be taken if and only if the bytes that are asked for are no more than
/// the offsets can count. Where they are, the error is the first total that is.
pub proof fn law_bytes_are_taken_up_to_the_offsets_limit(
    values: &Array,
    indices: &Array,
    options: Option<TakeOptions>,
    result: Result<ArrayRef, TakeError>,
)
    requires
        values.wf(),
        values.values is Bytes,
        indices.wf(),
        holds_numbers(*indices),
        call_ensures(take, (values, indices, options), result),
        forall|i: int| 0 <= i < indices.len ==> #[trigger] keeps_to(*indices, i, values.len as int),
    ensures
        result is Ok <==> asked_for(
            values.values->Bytes_offsets,
            values.nulls,
            *indices,
            indices.len as nat,
        ) <= reach(values.values->Bytes_offsets),
        result matches Err(e) ==> exists|k: nat|
            {
                let asked = #[trigger] asked_for(
                    values.values->Bytes_offsets,
                    values.nulls,
                    *indices,
                    k,
                );
                &&& 0 < k <= indices.len
                &&& asked > reach(values.values->Bytes_offsets)
                &&& e == TakeError::OffsetOverflow(asked as u64)
                &&& forall|m: nat|
                    0 < m < k ==> #[trigger] asked_for(
                        values.values->Bytes_offsets,
                        values.nulls,
                        *indices,
                        m,
                    ) <= reach(values.values->Bytes_offsets)
            },
{
    let offsets = values.values->Bytes_offsets;
    let ix = positions(*indices);
    let spans = cut_spans(values.bits(), offsets, ix);
    let limit = offsets.limit();
    lemma_positions(*indices);
    lemma_within_bounds(*indices, values.len);
    let end = values.values->Bytes_data@.len();
    lemma_cut_spans(values.bits(), offsets, values.len as nat, end, ix);
    lemma_first_total(spans, limit, ix.len());
    assert forall|k: nat| k <= ix.len() implies #[trigger] total(spans, k) == asked_for(
        offsets,
        values.nulls,
        *indices,
        k,
    ) by {
        lemma_asked_for(*values, offsets, *indices, k);
    }
    if asked_for(offsets, values.nulls, *indices, indices.len as nat) <= limit {
        assert(total(spans, ix.len()) <= limit);
        lemma_within_limit(spans, limit, ix.len());
    } else {
        assert(total(spans, ix.len()) > limit);
    }
    if let Err(e) = result {
        let k = choose|k: nat|
            {
                &&& 0 < k <= ix.len()
                &&& first_beyond(spans, limit, ix.len())->0 == #[trigger] total(spans, k)
                &&& total(spans, k) > limit
                &&& forall|m: nat| 0 < m < k ==> #[trigger] total(spans, m) <= limit
            };
        assert(total(spans, k) == asked_for(offsets, values.nulls, *indices, k));
        assert forall|m: nat| 0 < m < k implies #[trigger] asked_for(
            offsets,
            values.nulls,
            *indices,
            m,
        ) <= limit by {
            assert(total(spans, m) <= limit);
        }
    }
}

/// Null arrays can be taken from by any numbers that are positions, whether or not they are slots.
pub proof fn law_null_arrays_are_taken_from_anywhere(
    values: &Array,
    indices: &Array,
    options: Option<TakeOptions>,
    result: Result<ArrayRef, TakeError>,
)
    requires
        values.wf(),
        values.values is Null,
        indices.wf(),
        holds_numbers(*indices),
        !asks_for_check(options),
        call_ensures(take, (values, indices, options), result),
        forall|i: int| 0 <= i < indices.len ==> #[trigger] keeps_to(*indices, i, usize::MAX + 1),
    ensures
        result is Ok,
{
    lemma_positions(*indices);
    lemma_index_numbers(*indices);
    assert forall|i: int|
        0 <= i < indices.len && valid_in(indices.bits(), i) implies 0 <= #[trigger] index_value(
        *indices,
        i,
    ) <= usize::MAX by {
        assert(keeps_to(*indices, i, usize::MAX + 1));
    }
}

/// Nothing is checked unless it is asked for.
pub proof fn law_default_options_ask_for_no_check(options: TakeOptions)
    requires
        call_ensures(TakeOptions::default, (), options),
    ensures
        !asks_for_check(Some(options)),
{
}

} // verus!
