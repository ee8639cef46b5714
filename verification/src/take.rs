//! Taking from arrays of any kind.
use crate::array::{Array, ArrayRef, Values};
use crate::buffers::share;
use crate::bytes::take_bytes;
use crate::datatype::{DataType, PrimitiveType};
use crate::deep::{compacts_to, deep_compact_views, lemma_compacts_to};
use crate::empty::new_empty_array;
use crate::error::TakeError;
use crate::fixed::take_fixed_size_binary;
use crate::indices::{
    addressable, bounds_error, check_bounds, index_type, positions, strays, to_indices, IndexSeq,
    Indices,
};
use crate::layout::laid_out;
use crate::list::{take_fixed_size_list, take_list};
use crate::primitive::{take_boolean, take_byte_view, take_dict, take_list_view, take_primitive};
use crate::run::take_run;
use crate::selection::{in_bounds, marked_valid, picked, take_error, takes};
use crate::union::{take_dense_union, take_sparse_union, take_struct};
use crate::validity::{bits_of, valid_in};
use std::sync::Arc;
use vstd::prelude::*;

verus! {

/// Takes from an array, by the kernel for its kind.
pub fn take_impl(array: &Array, indices: &Indices) -> (result: Result<Array, TakeError>)
    requires
        array.wf(),
        indices.wf(),
        in_bounds(*array, indices@),
    ensures
        result matches Ok(taken) ==> {
            &&& take_error(*array, indices@) is None
            &&& takes(*array, indices@, taken)
            &&& laid_out(*array, indices@, bits_of(indices.nulls), taken)
        },
        result matches Err(e) ==> take_error(*array, indices@) == Some(e),
    decreases array, 1nat,
{
    if indices.len() == 0 {
        return Ok(new_empty_array(array));
    }
    match &array.values {
        Values::Null => Ok(
            Array {
                data_type: share(&array.data_type),
                len: indices.len(),
                nulls: None,
                values: Values::Null,
            },
        ),
        Values::Native(values) => Ok(take_primitive(array, values, indices)),
        Values::Boolean(values) => Ok(take_boolean(array, values, indices)),
        Values::Bytes { offsets, data } => take_bytes(array, offsets, data, indices),
        Values::Views { views, buffers } => Ok(take_byte_view(array, views, buffers, indices)),
        Values::List { offsets, child } => take_list(array, offsets, child, indices),
        Values::ListView { offsets, sizes, child } => Ok(
            take_list_view(array, offsets, sizes, child, indices),
        ),
        Values::FixedSizeList { size, child } => take_fixed_size_list(
            array,
            *size,
            child,
            indices,
        ),
        Values::FixedSizeBinary { size, data } => take_fixed_size_binary(
            array,
            data,
            *size as i32,
            indices,
        ),
        Values::Struct { columns } => take_struct(array, columns, indices),
        Values::Dictionary { key_type, keys, dictionary } => Ok(
            take_dict(array, *key_type, keys, dictionary, indices),
        ),
        Values::Runs { end_type, ends, offset, values } => take_run(
            array,
            *end_type,
            ends,
            *offset,
            values,
            indices,
        ),
        Values::Union { type_ids, slots, children } => match &*array.data_type {
            DataType::Union(fields, _) => match slots {
                None => take_sparse_union(array, fields, type_ids, children, indices),
                Some(slots) => take_dense_union(
                    array,
                    fields,
                    type_ids,
                    slots,
                    children,
                    indices,
                ),
            },
            _ => Err(TakeError::UnknownTypeId),
        },
    }
}

/// `i` is the first position that is there and lies beyond `len` slots.
pub open spec fn is_first_beyond(ix: IndexSeq, len: int, i: int) -> bool {
    &&& 0 <= i < ix.len()
    &&& ix.valid[i]
    &&& ix.raw[i] >= len
    &&& forall|j: int| 0 <= j < i && ix.valid[j] ==> #[trigger] ix.raw[j] < len
}

/// The first position that cannot be taken from an array, if there is one.
pub fn first_out_of_bounds(array: &Array, indices: &Indices) -> (stray: Option<usize>)
    requires
        indices.wf(),
    ensures
        stray is None <==> in_bounds(*array, indices@),
        stray matches Some(position) ==> exists|i: int| #[trigger]
            is_first_beyond(indices@, array.len as int, i) && indices@.raw[i] == position,
{
    match &array.values {
        Values::Null => None,
        Values::Runs { .. } => None,
        _ => {
            let mut i: usize = 0;
            while i < indices.values.len()
                invariant
                    !(array.values is Null || array.values is Runs),
                    indices.wf(),
                    i <= indices@.len(),
                    forall|j: int|
                        0 <= j < i && indices@.valid[j] ==> #[trigger] indices@.raw[j] < array.len,
                decreases indices@.len() - i,
            {
                if indices.is_valid(i) && indices.values[i] >= array.len {
                    assert(indices@.valid[i as int] && indices@.raw[i as int] >= array.len);
                    assert(is_first_beyond(indices@, array.len as int, i as int));
                    return Some(indices.values[i]);
                }
                i += 1;
            }
            None
        },
    }
}

/// Options that define how [`take`] behaves.
#[derive(Clone, Copy, Debug, PartialEq, Eq, Structural)]
pub struct TakeOptions {
    /// Check that the indices are within bounds before taking. An index that is not is then an
    /// error; without the check, the caller answers for the indices.
    pub check_bounds: bool,
}

impl Default for TakeOptions {
    fn default() -> (options: TakeOptions)
        ensures
            !options.check_bounds,
    {
        TakeOptions { check_bounds: false }
    }
}

/// Bounds are to be checked.
pub open spec fn checks_bounds(options: Option<TakeOptions>) -> bool {
    options matches Some(o) && o.check_bounds
}

/// Where bounds are not checked, the indices must keep to them.
pub open spec fn may_take(values: Array, indices: Array, options: Option<TakeOptions>) -> bool {
    index_type(indices) is Some && addressable(indices) && !checks_bounds(options) ==> in_bounds(
        values,
        positions(indices),
    )
}

/// The error that [`take`] fails with, if it does.
pub open spec fn selection_error(
    values: Array,
    indices: Array,
    options: Option<TakeOptions>,
) -> Option<TakeError> {
    let bounds = bounds_error(indices, values.len, indices.len as nat);
    if index_type(indices) is None {
        Some(TakeError::NotIntegers(indices.data_type))
    } else if checks_bounds(options) && bounds is Some {
        bounds
    } else if !addressable(indices) {
        Some(TakeError::IndexTooLarge)
    } else {
        take_error(values, positions(indices))
    }
}

/// `taken` is what is taken at the indices, laid out as its kernel does, with its views compacted.
pub open spec fn selects(values: Array, indices: Array, taken: Array) -> bool {
    &&& takes(values, positions(indices), taken)
    &&& exists|mid: Array| #[trigger]
        takes(values, positions(indices), mid) && laid_out(
            values,
            positions(indices),
            indices.bits(),
            mid,
        ) && compacts_to(mid, taken)
}

/// Whether the array holds integers.
fn holds_integers(indices: &Array) -> (integers: bool)
    ensures
        integers == (index_type(*indices) is Some),
{
    match &*indices.data_type {
        DataType::Primitive(PrimitiveType::Int(_)) => true,
        _ => false,
    }
}

/// Takes the slots of `values` at the `indices`, in their order. A null index gives a null.
pub fn take(values: &Array, indices: &Array, options: Option<TakeOptions>) -> (result: Result<
    ArrayRef,
    TakeError,
>)
    requires
        values.wf(),
        indices.wf(),
        may_take(*values, *indices, options),
    ensures
        result matches Ok(taken) ==> selection_error(*values, *indices, options) is None && selects(
            *values,
            *indices,
            *taken,
        ),
        result matches Err(e) ==> selection_error(*values, *indices, options) == Some(e),
{
    let options = match options {
        Some(options) => options,
        None => TakeOptions::default(),
    };
    if !holds_integers(indices) {
        return Err(TakeError::NotIntegers(share(&indices.data_type)));
    }
    if options.check_bounds {
        match check_bounds(values.len, indices) {
            Ok(_) => {},
            Err(e) => {
                return Err(e);
            },
        }
    }
    let asked = match to_indices(indices) {
        Ok(asked) => asked,
        Err(e) => {
            return Err(e);
        },
    };
    proof {
        if options.check_bounds {
            lemma_checked(*values, *indices);
        }
    }
    match take_impl(values, &asked) {
        Ok(mid) => {
            let mid = Arc::new(mid);
            let taken = deep_compact_views(share(&mid));
            proof {
                lemma_keeps_takes(values, asked@, &mid, &taken);
            }
            Ok(taken)
        },
        Err(e) => Err(e),
    }
}

/// Indices within bounds stand for positions within bounds.
pub proof fn lemma_checked(values: Array, indices: Array)
    requires
        indices.wf(),
        index_type(indices) is Some,
        addressable(indices),
        forall|i: int| 0 <= i < indices.len ==> !#[trigger] strays(indices, i, values.len),
    ensures
        in_bounds(values, positions(indices)),
{
    let ix = positions(indices);
    assert forall|i: int| 0 <= i < ix.raw.len() && ix.valid[i] implies #[trigger] ix.raw[i]
        < values.len by {
        assert(!strays(indices, i, values.len));
    }
}

/// Compaction keeps what was taken.
pub(crate) proof fn lemma_keeps_takes(values: &Array, ix: IndexSeq, mid: &Array, taken: &Array)
    requires
        takes(*values, ix, *mid),
        compacts_to(*mid, *taken),
    ensures
        takes(*values, ix, *taken),
{
    lemma_compacts_to(mid, taken);
    assert forall|i: int| 0 <= i < ix.len() implies #[trigger] taken.row(i) == picked(
        *values,
        ix.raw[i] as int,
        ix.valid[i],
    ) by {
        assert(mid.row(i) == picked(*values, ix.raw[i] as int, ix.valid[i]));
    }
    assert forall|i: int| 0 <= i < ix.len() implies #[trigger] valid_in(taken.bits(), i)
        == marked_valid(*values, ix.raw[i] as int, ix.valid[i]) by {
        assert(valid_in(mid.bits(), i) == marked_valid(*values, ix.raw[i] as int, ix.valid[i]));
    }
}

/// The error of the first of `k` arrays that cannot be taken from.
pub open spec fn arrays_error(
    arrays: Seq<ArrayRef>,
    indices: Array,
    options: Option<TakeOptions>,
    k: nat,
) -> Option<TakeError>
    decreases k,
{
    if k == 0 {
        None
    } else {
        match arrays_error(arrays, indices, options, (k - 1) as nat) {
            Some(e) => Some(e),
            None => selection_error(*arrays[k - 1], indices, options),
        }
    }
}

/// The first error among arrays stays the first.
proof fn lemma_arrays_error(
    arrays: Seq<ArrayRef>,
    indices: Array,
    options: Option<TakeOptions>,
    i: nat,
    j: nat,
)
    requires
        i <= j,
        arrays_error(arrays, indices, options, i) is Some,
    ensures
        arrays_error(arrays, indices, options, j) == arrays_error(arrays, indices, options, i),
    decreases j,
{
    if i < j {
        lemma_arrays_error(arrays, indices, options, i, (j - 1) as nat);
    }
}

/// Takes the same indices from each array.
pub fn take_arrays(arrays: &[ArrayRef], indices: &Array, options: Option<TakeOptions>) -> (result:
    Result<Vec<ArrayRef>, TakeError>)
    requires
        indices.wf(),
        forall|k: int|
            0 <= k < arrays@.len() ==> (#[trigger] arrays@[k]).wf() && may_take(
                *arrays@[k],
                *indices,
                options,
            ),
    ensures
        result matches Ok(taken) ==> {
            &&& arrays_error(arrays@, *indices, options, arrays@.len()) is None
            &&& taken@.len() == arrays@.len()
            &&& forall|k: int|
                0 <= k < arrays@.len() ==> selects(*arrays@[k], *indices, *#[trigger] taken@[k])
        },
        result matches Err(e) ==> arrays_error(arrays@, *indices, options, arrays@.len()) == Some(
            e,
        ),
{
    let mut taken: Vec<ArrayRef> = Vec::with_capacity(arrays.len());
    let mut k: usize = 0;
    while k < arrays.len()
        invariant
            indices.wf(),
            forall|j: int|
                0 <= j < arrays@.len() ==> (#[trigger] arrays@[j]).wf() && may_take(
                    *arrays@[j],
                    *indices,
                    options,
                ),
            k <= arrays@.len(),
            arrays_error(arrays@, *indices, options, k as nat) is None,
            taken@.len() == k,
            forall|j: int|
                0 <= j < k ==> selects(*arrays@[j], *indices, *#[trigger] taken@[j]),
        decreases arrays@.len() - k,
    {
        match take(&arrays[k], indices, options) {
            Ok(array) => {
                taken.push(array);
            },
            Err(e) => {
                proof {
                    lemma_arrays_error(
                        arrays@,
                        *indices,
                        options,
                        (k + 1) as nat,
                        arrays@.len(),
                    );
                }
                return Err(e);
            },
        }
        k += 1;
    }
    Ok(taken)
}

} // verus!
