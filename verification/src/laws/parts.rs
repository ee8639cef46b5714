//! What the parts of a selection give, and how its errors read.
use crate::array::Array;
use crate::copy::copy_slices;
use crate::datatype::{contains_views, type_contains_views, DataType};
use crate::empty::new_empty_array;
use crate::error::TakeError;
use crate::fixed::take_fixed_size_binary;
use crate::indices::{IndexSeq, Indices};
use crate::laws::numbers::null_at;
use crate::laws::room::{has_room, lemma_copy_has_room, lemma_take_has_room};
use crate::laws::shapes::{holds_nothing, lemma_holds_nothing};
use crate::laws::slots::{absent, lemma_absent, lemma_same_slot, same_slot};
use crate::list::{lemma_fixed_spans, lemma_fixed_total, take_value_indices_from_fixed_size_list};
use crate::selection::{fixed_spans, lemma_spread, lemma_spread_all, lemma_spread_at, picked, total};
use crate::slices::{are_slices, lemma_slices, slots_of, spans_of, Slice};
use crate::take::{first_out_of_bounds, is_first_beyond, take_impl};
use crate::text::{decimal, digit};
use crate::validity::{bits_of, valid_in};
use vstd::prelude::*;

verus! {

/// Position `i` is null, or one of `len` slots.
pub open spec fn is_slot(indices: Indices, i: int, len: int) -> bool {
    null_at(indices.nulls, i) || indices.values@[i] < len
}

/// What positions stand for, read off them.
proof fn lemma_indices(indices: Indices, len: int)
    requires
        indices.wf(),
        forall|i: int| 0 <= i < indices.values@.len() ==> #[trigger] is_slot(indices, i, len),
    ensures
        indices@.wf(),
        indices@.below(len),
        forall|i: int|
            0 <= i < indices.values@.len() ==> #[trigger] indices@.valid[i] == !null_at(
                indices.nulls,
                i,
            ),
{
    let ix = indices@;
    assert forall|i: int| 0 <= i < indices.values@.len() implies #[trigger] indices@.valid[i]
        == !null_at(indices.nulls, i) by {
        assert(ix.valid[i] == valid_in(bits_of(indices.nulls), i));
    }
    assert forall|i: int| 0 <= i < ix.raw.len() && ix.valid[i] implies #[trigger] ix.raw[i]
        < len by {
        assert(is_slot(indices, i, len));
    }
}

/// The kernels give the slots at the positions, with the same exceptions for runs and unions, and
/// succeed where there is room.
pub proof fn law_kernels_give_the_slots_asked_for(
    array: &Array,
    indices: &Indices,
    result: Result<Array, TakeError>,
    nulls: bool,
)
    requires
        array.wf(),
        indices.wf(),
        forall|i: int|
            0 <= i < indices.values@.len() ==> #[trigger] is_slot(*indices, i, array.len as int),
        call_ensures(take_impl, (array, indices), result),
        nulls || forall|i: int|
            0 <= i < indices.values@.len() ==> !#[trigger] null_at(indices.nulls, i),
    ensures
        has_room(*array, indices.values@.len(), false, nulls) ==> result is Ok,
        result matches Ok(taken) ==> {
            &&& taken.wf()
            &&& taken.data_type == array.data_type
            &&& taken.len == indices.values@.len()
            &&& forall|i: int|
                0 <= i < indices.values@.len() && !null_at(indices.nulls, i)
                    ==> #[trigger] same_slot(*array, indices.values@[i] as int, taken, i)
            &&& forall|i: int|
                0 <= i < indices.values@.len() && null_at(indices.nulls, i) && !(
                array.values is Runs || array.values is Union) ==> #[trigger] absent(taken, i)
        },
{
    let ix = indices@;
    lemma_indices(*indices, array.len as int);
    if has_room(*array, ix.len(), false, nulls) {
        if !nulls {
            assert forall|i: int| 0 <= i < ix.len() implies ix.valid[i] by {
                assert(!null_at(indices.nulls, i));
            }
            assert(ix =~= IndexSeq::all_of(ix.raw));
        }
        lemma_take_has_room(array, ix, ix.len(), nulls);
    }
    if let Ok(taken) = result {
        assert forall|i: int|
            0 <= i < indices.values@.len() && !null_at(
                indices.nulls,
                i,
            ) implies #[trigger] same_slot(*array, indices.values@[i] as int, taken, i) by {
            assert(ix.valid[i]);
            assert(is_slot(*indices, i, array.len as int));
            assert(taken.row(i) == picked(*array, ix.raw[i] as int, true));
            lemma_same_slot(array, ix.raw[i] as int, &taken, i);
        }
        assert forall|i: int|
            0 <= i < indices.values@.len() && null_at(indices.nulls, i) && !(array.values is Runs
                || array.values is Union) implies #[trigger] absent(taken, i) by {
            assert(!ix.valid[i]);
            assert(taken.row(i) == picked(*array, ix.raw[i] as int, false));
            lemma_absent(&taken, i);
        }
    }
}

/// The first position that is not null and no slot is found, and none where each is one. Null
/// arrays have no slots to miss, and runs answer for themselves.
pub proof fn law_the_first_position_out_of_bounds_is_found(
    array: &Array,
    indices: &Indices,
    stray: Option<usize>,
)
    requires
        indices.wf(),
        call_ensures(first_out_of_bounds, (array, indices), stray),
    ensures
        array.values is Null || array.values is Runs ==> stray is None,
        !(array.values is Null || array.values is Runs) ==> (stray is None <==> forall|i: int|
            0 <= i < indices.values@.len() ==> #[trigger] is_slot(*indices, i, array.len as int)),
        stray matches Some(position) ==> exists|i: int|
            {
                &&& 0 <= i < indices.values@.len()
                &&& !#[trigger] is_slot(*indices, i, array.len as int)
                &&& indices.values@[i] == position
                &&& forall|j: int| 0 <= j < i ==> #[trigger] is_slot(*indices, j, array.len as int)
            },
{
    let ix = indices@;
    assert forall|i: int| 0 <= i < indices.values@.len() implies #[trigger] is_slot(
        *indices,
        i,
        array.len as int,
    ) == (ix.valid[i] ==> ix.raw[i] < array.len) by {
        assert(ix.valid[i] == valid_in(bits_of(indices.nulls), i));
    }
    match stray {
        None => {
            if !(array.values is Null || array.values is Runs) {
                assert forall|i: int| 0 <= i < indices.values@.len() implies #[trigger] is_slot(
                    *indices,
                    i,
                    array.len as int,
                ) by {
                    let _ = ix.raw[i];
                }
            }
        },
        Some(position) => {
            let i = choose|i: int| #[trigger]
                is_first_beyond(ix, array.len as int, i) && ix.raw[i] == position;
            assert(!is_slot(*indices, i, array.len as int));
            assert forall|j: int| 0 <= j < i implies #[trigger] is_slot(
                *indices,
                j,
                array.len as int,
            ) by {
                let _ = ix.raw[j];
            }
        },
    }
}

/// How many slots the first `k` slices have.
pub open spec fn slots_in(slices: Seq<Slice>, k: nat) -> int
    decreases k,
{
    if k == 0 {
        0
    } else {
        slots_in(slices, (k - 1) as nat) + slices[k - 1].len
    }
}

pub proof fn lemma_slots_in(slices: Seq<Slice>, k: nat)
    requires
        k <= slices.len(),
    ensures
        total(spans_of(slices), k) == slots_in(slices, k),
    decreases k,
{
    if k > 0 {
        lemma_slots_in(slices, (k - 1) as nat);
    }
}

/// A slice lies within `len` slots.
pub open spec fn lies_within(slice: Slice, len: int) -> bool {
    slice.start + slice.len <= len
}

/// Copying gives the slots of the slices, one after the other and nothing else, and succeeds where
/// there is room for them.
pub proof fn law_copies_are_the_slices(
    array: &Array,
    slices: &Vec<Slice>,
    result: Result<Array, TakeError>,
)
    requires
        array.wf(),
        forall|i: int|
            0 <= i < slices@.len() ==> lies_within(#[trigger] slices@[i], array.len as int),
        call_ensures(copy_slices, (array, slices), result),
    ensures
        has_room(*array, slots_in(slices@, slices@.len()) as nat, true, false) ==> result is Ok,
        result matches Ok(copy) ==> {
            &&& copy.wf()
            &&& copy.data_type == array.data_type
            &&& copy.len == slots_in(slices@, slices@.len())
            &&& forall|i: int, j: int|
                0 <= i < slices@.len() && 0 <= j < slices@[i].len ==> #[trigger] same_slot(
                    *array,
                    slices@[i].start + j,
                    copy,
                    slots_in(slices@, i as nat) + j,
                )
        },
{
    let spans = spans_of(slices@);
    let len = array.len as int;
    assert(are_slices(spans, len)) by {
        assert forall|i: int| 0 <= i < spans.len() implies {
            &&& (#[trigger] spans[i]).present
            &&& 0 <= spans[i].start
            &&& 0 <= spans[i].len
            &&& spans[i].start + spans[i].len <= len
        } by {
            assert(lies_within(slices@[i], len));
        }
    }
    lemma_slices(spans, len);
    lemma_spread(spans, len, spans.len());
    lemma_spread_all(spans, spans.len());
    lemma_slots_in(slices@, slices@.len());
    if has_room(*array, slots_in(slices@, slices@.len()) as nat, true, false) {
        lemma_copy_has_room(array, spans, total(spans, spans.len()) as nat);
    }
    if let Ok(copy) = result {
        assert forall|i: int, j: int|
            0 <= i < slices@.len() && 0 <= j < slices@[i].len implies #[trigger] same_slot(
            *array,
            slices@[i].start + j,
            copy,
            slots_in(slices@, i as nat) + j,
        ) by {
            lemma_slots_in(slices@, i as nat);
            lemma_spread_at(spans, len, spans.len(), i, j);
            let p = total(spans, i as nat) + j;
            let ix = slots_of(spans);
            assert(lies_within(slices@[i], len));
            assert(ix.valid[p] && ix.raw[p] == slices@[i].start + j);
            assert(copy.row(p) == picked(*array, ix.raw[p] as int, true));
            lemma_same_slot(array, slices@[i].start + j, &copy, p);
        }
    }
}

/// The positions of items in lists of one size: for list `n`, as many in a row as it has items,
/// from `n` times that on; for a null, as many nulls.
pub proof fn law_lists_of_one_size_ask_for_all_their_items(
    len: usize,
    size: usize,
    indices: &Indices,
    asked: Indices,
    i: int,
    k: int,
)
    requires
        len * size <= usize::MAX,
        indices.wf(),
        forall|j: int|
            0 <= j < indices.values@.len() ==> #[trigger] is_slot(*indices, j, len as int),
        call_ensures(take_value_indices_from_fixed_size_list, (len, size, indices), asked),
        0 <= i < indices.values@.len(),
        0 <= k < size,
    ensures
        asked.values@.len() == indices.values@.len() * size,
        0 <= i * size + k < asked.values@.len(),
        null_at(asked.nulls, i * size + k) == null_at(indices.nulls, i),
        !null_at(indices.nulls, i) ==> asked.values@[i * size + k] == indices.values@[i] * size + k,
{
    let ix = indices@;
    let spans = fixed_spans(size as int, ix);
    lemma_indices(*indices, len as int);
    lemma_fixed_spans(size as int, len as int, ix);
    lemma_fixed_total(size as int, ix, ix.len());
    lemma_fixed_total(size as int, ix, i as nat);
    lemma_spread(spans, len * size, ix.len());
    lemma_spread_at(spans, len * size, ix.len(), i, k);
    let p = i * size + k;
    assert(asked@.valid[p] == valid_in(bits_of(asked.nulls), p));
    assert(ix.valid[i] == !null_at(indices.nulls, i));
    assert(asked@.raw[p] == asked.values@[p]);
}

/// Values of a negative size are refused, and of any other taken.
pub proof fn law_negative_sizes_are_refused(
    array: &Array,
    data: &Vec<u8>,
    size: i32,
    indices: &Indices,
    result: Result<Array, TakeError>,
)
    requires
        call_ensures(take_fixed_size_binary, (array, data, size, indices), result),
    ensures
        size < 0 ==> result == Err::<Array, TakeError>(TakeError::NegativeSize(size)),
        size >= 0 ==> result is Ok,
{
}

/// An empty array is of the type of another and holds nothing.
pub proof fn law_empty_arrays_hold_nothing(array: &Array, empty: Array)
    requires
        call_ensures(new_empty_array, (array,), empty),
    ensures
        empty.wf(),
        empty.data_type == array.data_type,
        empty.nulls is None,
        holds_nothing(empty),
{
    lemma_holds_nothing(array, &empty);
}

/// Views are found in a type that nests another where they are found in that, and nowhere else but
/// in views themselves: not in dictionaries, which are shared as a whole, and not in the values of
/// runs, which are compacted as they are taken.
pub proof fn law_views_are_found_in_what_is_nested(
    dt: &DataType,
    found: bool,
    nested: Seq<&DataType>,
    each: Seq<bool>,
)
    requires
        call_ensures(type_contains_views, (dt,), found),
        each.len() == nested.len(),
        forall|k: int|
            0 <= k < nested.len() ==> call_ensures(
                type_contains_views,
                (nested[k],),
                #[trigger] each[k],
            ),
        match *dt {
            DataType::List(f) | DataType::LargeList(f) | DataType::ListView(f)
            | DataType::LargeListView(f) | DataType::FixedSizeList(f, _)
            | DataType::MapType(f, _) => nested.len() == 1 && *nested[0] == *f.data_type,
            DataType::Struct(fields) => nested.len() == fields@.len() && forall|k: int|
                0 <= k < fields@.len() ==> *#[trigger] nested[k] == *fields@[k].data_type,
            DataType::Union(fields, _) => nested.len() == fields@.len() && forall|k: int|
                0 <= k < fields@.len() ==> *#[trigger] nested[k] == *fields@[k].1.data_type,
            _ => nested.len() == 0,
        },
    ensures
        found <==> {
            ||| *dt is Utf8View
            ||| *dt is BinaryView
            ||| exists|k: int| 0 <= k < each.len() && #[trigger] each[k]
        },
{
    match dt {
        DataType::Struct(fields) => {
            if found {
                let k = choose|k: int|
                    0 <= k < fields@.len() && contains_views(
                        *(#[trigger] fields@[k]).data_type,
                    );
                assert(*nested[k] == *fields@[k].data_type);
                assert(each[k]);
            }
            if exists|k: int| 0 <= k < each.len() && #[trigger] each[k] {
                let k = choose|k: int| 0 <= k < each.len() && #[trigger] each[k];
                assert(contains_views(*fields@[k].data_type)) by {
                    assert(*nested[k] == *fields@[k].data_type);
                }
            }
        },
        DataType::Union(fields, _) => {
            if found {
                let k = choose|k: int|
                    0 <= k < fields@.len() && contains_views(
                        *(#[trigger] fields@[k]).1.data_type,
                    );
                assert(*nested[k] == *fields@[k].1.data_type);
                assert(each[k]);
            }
            if exists|k: int| 0 <= k < each.len() && #[trigger] each[k] {
                let k = choose|k: int| 0 <= k < each.len() && #[trigger] each[k];
                assert(contains_views(*fields@[k].1.data_type)) by {
                    assert(*nested[k] == *fields@[k].1.data_type);
                }
            }
        },
        _ => {
            if nested.len() == 1 {
                let _ = each[0];
            }
        },
    }
}

/// The number that digits read as.
pub open spec fn digits_value(text: Seq<char>) -> int
    decreases text.len(),
{
    if text.len() == 0 {
        0
    } else {
        10 * digits_value(text.drop_last()) + (text.last() as int - '0' as int)
    }
}

/// The text is digits only, and does not start with a zero unless that is all.
pub open spec fn are_digits(text: Seq<char>) -> bool {
    &&& text.len() > 0
    &&& forall|i: int| 0 <= i < text.len() ==> '0' <= #[trigger] text[i] <= '9'
    &&& text.len() > 1 ==> text[0] != '0'
}

/// The text is how `n` is written.
pub open spec fn reads_as(text: Seq<char>, n: int) -> bool {
    if n >= 0 {
        are_digits(text) && digits_value(text) == n
    } else {
        &&& text.len() > 0
        &&& text[0] == '-'
        &&& are_digits(text.subrange(1, text.len() as int))
        &&& digits_value(text.subrange(1, text.len() as int)) == -n
    }
}

/// A number in decimal reads as that number.
pub proof fn lemma_reads_as(n: int)
    ensures
        reads_as(decimal(n), n),
        n > 0 ==> decimal(n)[0] != '0',
    decreases
            (if n < 0 {
                1 - n
            } else {
                n
            }),
{
    if n < 0 {
        lemma_reads_as(-n);
        let text = decimal(n);
        assert(text.subrange(1, text.len() as int) =~= decimal(-n));
    } else if n < 10 {
        let text = decimal(n);
        assert(text =~= seq![digit(n)]);
        assert(text.drop_last() =~= Seq::empty());
        assert(digits_value(text.drop_last()) == 0);
    } else {
        lemma_reads_as(n / 10);
        let text = decimal(n);
        let front = decimal(n / 10);
        assert(text.drop_last() =~= front);
        assert(text.last() == digit(n % 10));
        assert(text[0] == front[0]);
    }
}

/// What errors say, with their numbers written out.
pub proof fn law_errors_say_what_failed(error: &TakeError, message: String)
    requires
        call_ensures(TakeError::message, (error,), message),
    ensures
        match *error {
            TakeError::NotIntegers(dt) => {
                let start = "Invalid argument error: Take only supported for integers, got "@;
                start.is_prefix_of(message@)
            },
            TakeError::IndexTooLarge => message@ == "Compute error: Cast to usize failed"@,
            TakeError::OutOfBounds { index, len } => exists|a: Seq<char>, b: Seq<char>|
                {
                    &&& #[trigger] reads_as(a, index as int)
                    &&& #[trigger] reads_as(b, len as int)
                    &&& message@
                        == "Compute error: Array index out of bounds, cannot get item at index "@
                        + a + " from "@ + b + " entries"@
                },
            TakeError::OffsetOverflow(reach) => exists|a: Seq<char>|
                #[trigger] reads_as(a, reach as int) && message@ == "Offset overflow error: "@ + a,
            TakeError::NegativeSize(size) => exists|a: Seq<char>|
                {
                    &&& #[trigger] reads_as(a, size as int)
                    &&& message@ == "Invalid argument error: Cannot convert size '"@ + a
                        + "' to usize"@
                },
            TakeError::RunOutOfBounds { position, len } => exists|a: Seq<char>, b: Seq<char>|
                {
                    &&& #[trigger] reads_as(a, position as int)
                    &&& #[trigger] reads_as(b, len as int)
                    &&& message@ == "Invalid argument error: Logical index "@ + a
                        + " is out of bounds for RunArray of length "@ + b
                },
            TakeError::RunEndOverflow(len) => exists|a: Seq<char>|
                {
                    &&& #[trigger] reads_as(a, len as int)
                    &&& message@ == "Compute error: Run end overflow at "@ + a
                },
            TakeError::UnknownTypeId => {
                message@
                    == "Invalid argument error: Type Ids values must match one of the field type ids"@
            },
            TakeError::UnionOffset => {
                message@
                    == "Invalid argument error: Offsets must be non-negative and within the length of the Array"@
            },
            TakeError::NoColumns => {
                message@
                    == "Invalid argument error: must either specify a row count or at least one column"@
            },
            TakeError::UnexpectedNulls(column) => {
                message@ == "Invalid argument error: Column '"@ + column@
                    + "' is declared as non-nullable but contains null values"@
            },
        },
{
    match error {
        TakeError::OutOfBounds { index, len } => {
            lemma_reads_as(*index as int);
            lemma_reads_as(*len as int);
        },
        TakeError::OffsetOverflow(reach) => lemma_reads_as(*reach as int),
        TakeError::NegativeSize(size) => lemma_reads_as(*size as int),
        TakeError::RunOutOfBounds { position, len } => {
            lemma_reads_as(*position as int);
            lemma_reads_as(*len as int);
        },
        TakeError::RunEndOverflow(len) => lemma_reads_as(*len as int),
        _ => {},
    }
}

} // verus!
