//! Taking from binaries of one size.
use crate::array::{Array, Values};
use crate::buffers::{null_bits, share};
use crate::error::TakeError;
use crate::flat::{lemma_taken_nulls, take_nulls};
use crate::indices::{IndexSeq, Indices};
use crate::layout::arranged;
use crate::selection::{picked, takes};
use crate::validity::{bits_of, has_null, lemma_unset_count, valid_in};
use arrow_buffer::NullBuffer;
use vstd::prelude::*;
use vstd::slice::slice_subrange;

verus! {

/// The first `k` pieces, one after the other.
pub open spec fn joined(piece: spec_fn(int) -> Seq<u8>, k: nat) -> Seq<u8>
    decreases k,
{
    if k == 0 {
        Seq::empty()
    } else {
        joined(piece, (k - 1) as nat) + piece(k - 1)
    }
}

/// The `size` bytes of slot `raw`.
pub open spec fn slot_bytes(data: Seq<u8>, size: int, raw: int) -> Seq<u8> {
    data.subrange(raw * size, raw * size + size)
}

/// `size` zeros.
pub open spec fn zeros(size: int) -> Seq<u8> {
    Seq::new(size as nat, |j: int| 0u8)
}

/// The bytes at each position, whether or not it is there; zeros where it leads out of the data.
pub open spec fn chunk_at(data: Seq<u8>, len: int, size: int, ix: IndexSeq) -> spec_fn(int) -> Seq<
    u8,
> {
    |i: int|
        if ix.raw[i] < len {
            slot_bytes(data, size, ix.raw[i] as int)
        } else {
            zeros(size)
        }
}

/// The bytes at each position that is there; zeros at the others.
pub open spec fn present_chunk_at(data: Seq<u8>, size: int, ix: IndexSeq) -> spec_fn(int) -> Seq<
    u8,
> {
    |i: int|
        if ix.valid[i] {
            slot_bytes(data, size, ix.raw[i] as int)
        } else {
            zeros(size)
        }
}

/// The sizes that are handled as arrays of bytes.
pub open spec fn is_array_size(size: int) -> bool {
    size == 1 || size == 2 || size == 4 || size == 8 || size == 16
}

/// The bytes that are taken for each position.
pub open spec fn fixed_chunk_at(data: Seq<u8>, len: int, size: int, ix: IndexSeq) -> spec_fn(
    int,
) -> Seq<u8> {
    if is_array_size(size) {
        chunk_at(data, len, size, ix)
    } else {
        present_chunk_at(data, size, ix)
    }
}

/// Slots do not reach beyond the data.
pub(crate) proof fn lemma_slot(raw: int, len: int, size: int)
    requires
        0 <= raw < len,
        0 <= size,
    ensures
        0 <= raw * size,
        raw * size + size == (raw + 1) * size,
        raw * size + size <= len * size,
{
    assert(0 <= raw * size) by (nonlinear_arith)
        requires
            0 <= raw,
            0 <= size,
    ;
    assert(raw * size + size == (raw + 1) * size) by (nonlinear_arith);
    assert((raw + 1) * size <= len * size) by (nonlinear_arith)
        requires
            raw + 1 <= len,
            0 <= size,
    ;
}

/// Pieces of one size stand at multiples of it.
pub(crate) proof fn lemma_joined(piece: spec_fn(int) -> Seq<u8>, size: int, k: nat)
    requires
        0 <= size,
        forall|i: int| 0 <= i < k ==> (#[trigger] piece(i)).len() == size,
    ensures
        joined(piece, k).len() == k * size,
        forall|i: int| 0 <= i < k ==> #[trigger] slot_bytes(joined(piece, k), size, i) == piece(i),
    decreases k,
{
    if k == 0 {
        assert(k * size == 0) by (nonlinear_arith)
            requires
                k == 0,
        ;
    } else {
        let before = (k - 1) as nat;
        lemma_joined(piece, size, before);
        lemma_slot(k - 1, k as int, size);
        assert(piece(k - 1).len() == size);
        assert forall|i: int| 0 <= i < k implies #[trigger] slot_bytes(
            joined(piece, k),
            size,
            i,
        ) == piece(i) by {
            if i < k - 1 {
                lemma_slot(i, k - 1, size);
                assert(slot_bytes(joined(piece, k), size, i) =~= slot_bytes(
                    joined(piece, before),
                    size,
                    i,
                ));
            } else {
                assert(slot_bytes(joined(piece, k), size, i) =~= piece(i));
            }
        }
    }
}

/// Appends slot `raw`.
fn append_slot(taken: &mut Vec<u8>, data: &Vec<u8>, len: usize, size: usize, raw: usize)
    requires
        data@.len() == len * size,
        raw < len,
    ensures
        final(taken)@ == old(taken)@ + slot_bytes(data@, size as int, raw as int),
{
    proof {
        lemma_slot(raw as int, len as int, size as int);
        assert(data.len() == data@.len());
    }
    let start: usize = raw * size;
    taken.extend_from_slice(slice_subrange(data.as_slice(), start, start + size));
    assert(taken@ =~= old(taken)@ + slot_bytes(data@, size as int, raw as int));
}

/// Appends `size` zeros.
fn append_zeros(taken: &mut Vec<u8>, size: usize)
    ensures
        final(taken)@ == old(taken)@ + zeros(size as int),
{
    let mut j: usize = 0;
    while j < size
        invariant
            j <= size,
            taken@ =~= old(taken)@ + zeros(j as int),
        decreases size - j,
    {
        taken.push(0);
        j += 1;
    }
}

/// Takes from `len` chunks of bytes as from values of one width.
pub fn take_fixed_size(data: &Vec<u8>, len: usize, size: usize, indices: &Indices) -> (taken: Vec<
    u8,
>)
    requires
        data@.len() == len * size,
        indices.wf(),
        indices@.below(len as int),
    ensures
        taken@ == joined(chunk_at(data@, len as int, size as int, indices@), indices@.len()),
{
    let mut taken: Vec<u8> = Vec::new();
    let mut i: usize = 0;
    while i < indices.values.len()
        invariant
            data@.len() == len * size,
            i <= indices@.len(),
            taken@ == joined(chunk_at(data@, len as int, size as int, indices@), i as nat),
        decreases indices@.len() - i,
    {
        let raw: usize = indices.values[i];
        if raw < len {
            append_slot(&mut taken, data, len, size, raw);
        } else {
            append_zeros(&mut taken, size);
        }
        i += 1;
    }
    taken
}

/// Takes from `len` chunks of bytes of a size that no fixed width covers.
pub fn take_fixed_size_binary_buffer_dynamic_length(
    data: &Vec<u8>,
    len: usize,
    size: usize,
    indices: &Indices,
) -> (taken: Vec<u8>)
    requires
        data@.len() == len * size,
        indices.wf(),
        indices@.below(len as int),
    ensures
        taken@ == joined(present_chunk_at(data@, size as int, indices@), indices@.len()),
{
    let mut taken: Vec<u8> = Vec::new();
    let mut i: usize = 0;
    while i < indices.values.len()
        invariant
            data@.len() == len * size,
            indices.wf(),
            indices@.below(len as int),
            i <= indices@.len(),
            taken@ == joined(present_chunk_at(data@, size as int, indices@), i as nat),
        decreases indices@.len() - i,
    {
        if indices.is_valid(i) {
            assert(indices@.raw[i as int] < len);
            append_slot(&mut taken, data, len, size, indices.values[i]);
        } else {
            append_zeros(&mut taken, size);
        }
        i += 1;
    }
    taken
}

/// Where either bitmap has a null.
pub open spec fn union_nulls(a: Option<Seq<bool>>, b: Option<Seq<bool>>) -> Option<Seq<bool>> {
    if !has_null(a) && !has_null(b) {
        None
    } else {
        match (a, b) {
            (Some(x), Some(y)) => Some(Seq::new(x.len(), |i: int| x[i] && y[i])),
            (Some(x), None) => Some(x),
            (None, _) => b,
        }
    }
}

/// The bitmap with the nulls of both.
fn join_nulls(a: &Option<NullBuffer>, b: &Option<NullBuffer>) -> (both: Option<NullBuffer>)
    requires
        a is Some && b is Some ==> bits_of(*a)->0.len() == bits_of(*b)->0.len(),
    ensures
        bits_of(both) == union_nulls(bits_of(*a), bits_of(*b)),
{
    proof {
        if let Some(n) = a {
            lemma_unset_count(null_bits(*n));
        }
        if let Some(n) = b {
            lemma_unset_count(null_bits(*n));
        }
    }
    NullBuffer::union(a.as_ref(), b.as_ref())
}

/// Takes from binaries of `size` bytes, or fails where that is negative.
pub fn take_fixed_size_binary(array: &Array, data: &Vec<u8>, size: i32, indices: &Indices) -> (
    result: Result<Array, TakeError>)
    requires
        size >= 0 ==> array.wf() && array.values == (Values::FixedSizeBinary {
            size: size as usize,
            data: *data,
        }),
        indices.wf(),
        indices@.below(array.len as int),
    ensures
        result is Err <==> size < 0,
        result matches Err(e) ==> e == TakeError::NegativeSize(size),
        result matches Ok(taken) ==> {
            &&& takes(*array, indices@, taken)
            &&& arranged(*array, indices@, bits_of(indices.nulls), taken)
        },
{
    if size < 0 {
        return Err(TakeError::NegativeSize(size));
    }
    let ghost ix = indices@;
    let width: usize = size as usize;
    let bytes = if width == 1 || width == 2 || width == 4 || width == 8 || width == 16 {
        take_fixed_size(data, array.len, width, indices)
    } else {
        take_fixed_size_binary_buffer_dynamic_length(data, array.len, width, indices)
    };
    proof {
        lemma_taken_nulls(array.bits(), *indices, array.len as int);
    }
    let value_nulls = take_nulls(&array.nulls, indices);
    let nulls = join_nulls(&value_nulls, &indices.nulls);
    let taken = Array {
        data_type: share(&array.data_type),
        len: indices.len(),
        nulls,
        values: Values::FixedSizeBinary { size: width, data: bytes },
    };
    proof {
        let piece = fixed_chunk_at(data@, array.len as int, size as int, ix);
        assert forall|i: int| 0 <= i < ix.len() implies (#[trigger] piece(i)).len() == size by {
            if ix.raw[i] < array.len {
                lemma_slot(ix.raw[i] as int, array.len as int, size as int);
            }
        }
        lemma_joined(piece, size as int, ix.len());
        assert forall|i: int| 0 <= i < ix.len() implies #[trigger] valid_in(taken.bits(), i) == (
        ix.valid[i] && valid_in(array.bits(), ix.raw[i] as int)) by {
            assert(valid_in(bits_of(value_nulls), i) == (ix.valid[i] && valid_in(
                array.bits(),
                ix.raw[i] as int,
            )));
            assert(ix.valid[i] == valid_in(bits_of(indices.nulls), i));
        }
        assert forall|i: int| 0 <= i < ix.len() implies #[trigger] taken.row(i) == picked(
            *array,
            ix.raw[i] as int,
            ix.valid[i],
        ) by {
            assert(valid_in(taken.bits(), i) == (ix.valid[i] && valid_in(
                array.bits(),
                ix.raw[i] as int,
            )));
            assert(slot_bytes(bytes@, size as int, i) == piece(i));
        }
    }
    Ok(taken)
}

} // verus!
