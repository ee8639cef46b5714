//! Taking from values, bits and bitmaps.

use crate::buffers::{bit_at, boolean_bits, freeze, mutable_bytes, null_bits};
use crate::indices::{IndexSeq, Indices};
use crate::selection::gathered;
use crate::validity::{
    any_null, bits_of, copy_nulls, drop_if_all_valid, has_null, only_with_nulls, slot_valid,
    some_unset, valid_in,
};
use arrow_buffer::{bit_util, BooleanBuffer, MutableBuffer, NullBuffer};
use vstd::prelude::*;

verus! {

/// The bits at each position; unset where the position is not there.
pub open spec fn taken_bits(bits: Seq<bool>, ix: IndexSeq) -> Seq<bool> {
    Seq::new(ix.len(), |i: int| ix.valid[i] && bits[ix.raw[i] as int])
}

/// The bits behind a reference.
spec fn bits_in(values: &BooleanBuffer) -> Seq<bool> {
    boolean_bits(*values)
}

/// The validity of what is taken. A bitmap without nulls has no say, and the bitmap of the
/// indices is then the result's.
pub open spec fn taken_nulls(
    bits: Option<Seq<bool>>,
    index_bits: Option<Seq<bool>>,
    ix: IndexSeq,
) -> Option<Seq<bool>> {
    if has_null(bits) {
        only_with_nulls(Some(taken_bits(bits->0, ix)))
    } else {
        index_bits
    }
}

/// A slot is valid where its position is there and was valid.
pub proof fn lemma_taken_nulls(bits: Option<Seq<bool>>, indices: Indices, len: int)
    requires
        indices.wf(),
        indices@.below(len),
        bits matches Some(b) ==> b.len() == len,
    ensures
        taken_nulls(bits, bits_of(indices.nulls), indices@) matches Some(b) ==> b.len()
            == indices@.len(),
        forall|i: int|
            0 <= i < indices@.len() ==> #[trigger] valid_in(
                taken_nulls(bits, bits_of(indices.nulls), indices@),
                i,
            ) == (indices@.valid[i] && valid_in(bits, indices@.raw[i] as int)),
{
    let ix = indices@;
    let taken = taken_nulls(bits, bits_of(indices.nulls), ix);
    assert forall|i: int| 0 <= i < ix.len() implies #[trigger] valid_in(taken, i) == (ix.valid[i]
        && valid_in(bits, ix.raw[i] as int)) by {
        let raw = ix.raw[i] as int;
        if has_null(bits) {
            let b = taken_bits(bits->0, ix);
            assert(b[i] == (ix.valid[i] && valid_in(bits, raw)));
            if !has_null(Some(b)) {
                assert(!some_unset(b));
            }
        } else if ix.valid[i] {
            assert(valid_in(bits, raw));
        }
    }
}

/// Takes from values of one width. A position that is not there may lie anywhere; where it leads
/// out of `values`, the result holds `zero`.
pub fn take_native<T: Copy>(values: &[T], indices: &Indices, zero: T) -> (taken: Vec<T>)
    requires
        indices.wf(),
        indices@.below(values@.len() as int),
    ensures
        taken@ == gathered(values@, indices@, zero),
{
    let mut taken: Vec<T> = Vec::with_capacity(indices.len());
    let mut i: usize = 0;
    while i < indices.values.len()
        invariant
            i <= indices@.len(),
            taken@.len() == i,
            forall|j: int| 0 <= j < i ==> taken@[j] == gathered(values@, indices@, zero)[j],
        decreases indices@.len() - i,
    {
        let raw: usize = indices.values[i];
        if raw < values.len() {
            taken.push(values[raw]);
        } else {
            taken.push(zero);
        }
        i += 1;
    }
    taken
}

/// Takes from bits.
pub fn take_bits(values: &BooleanBuffer, indices: &Indices) -> (taken: BooleanBuffer)
    requires
        indices.wf(),
        indices@.below(boolean_bits(*values).len() as int),
    ensures
        boolean_bits(taken) == taken_bits(boolean_bits(*values), indices@),
{
    let len: usize = indices.len();
    let ghost ix = indices@;
    let ghost bits = boolean_bits(*values);
    if any_null(&indices.nulls) {
        let mut output = MutableBuffer::new_null(len);
        let mut i: usize = 0;
        proof {
            assert forall|j: int| 0 <= j < len implies !bit_at(mutable_bytes(output), j) by {
                let mask = 1u8 << ((j % 8) as u8);
                assert(0u8 & mask == 0u8) by (bit_vector);
            }
        }
        while i < len
            invariant
                i <= len,
                len == ix.len(),
                ix == indices@,
                bits == boolean_bits(*values),
                indices.wf(),
                ix.below(bits.len() as int),
                mutable_bytes(output).len() == (len + 7) / 8,
                forall|j: int|
                    0 <= j < len ==> #[trigger] bit_at(mutable_bytes(output), j) == (j < i
                        && taken_bits(bits, ix)[j]),
            decreases len - i,
        {
            if indices.is_valid(i) {
                let raw: usize = indices.values[i];
                assert(ix.raw[i as int] == raw);
                if values.value(raw) {
                    bit_util::set_bit(output.as_slice_mut(), i);
                }
            }
            i += 1;
        }
        let taken = BooleanBuffer::new(freeze(output), 0, len);
        assert(boolean_bits(taken) =~= taken_bits(bits, ix));
        taken
    } else {
        proof {
            assert forall|i: int| 0 <= i < len implies ix.valid[i] && #[trigger] ix.raw[i]
                < bits.len() by {
                assert(valid_in(bits_of(indices.nulls), i));
            }
        }
        let bit = |i: usize| -> (bit: bool)
            requires
                i < indices@.len(),
                indices@.valid[i as int],
                indices@.raw[i as int] < bits_in(values).len(),
            ensures
                bit == taken_bits(bits_in(values), indices@)[i as int],
        {
            values.value(indices.values[i])
        };
        let taken = BooleanBuffer::collect_bool(len, bit);
        assert forall|i: int| 0 <= i < len implies #[trigger] boolean_bits(taken)[i] == taken_bits(
            bits,
            ix,
        )[i] by {
            let _ = boolean_bits(taken)[i as usize as int];
        }
        assert(boolean_bits(taken) =~= taken_bits(bits, ix));
        taken
    }
}

/// The validity of what is taken from an array with the bitmap `values`.
pub fn take_nulls(values: &Option<NullBuffer>, indices: &Indices) -> (taken: Option<NullBuffer>)
    requires
        indices.wf(),
        bits_of(*values) matches Some(b) ==> indices@.below(b.len() as int),
    ensures
        bits_of(taken) == taken_nulls(bits_of(*values), bits_of(indices.nulls), indices@),
{
    if any_null(values) {
        match values {
            Some(nulls) => drop_if_all_valid(
                Some(NullBuffer::new(take_bits(nulls.inner(), indices))),
            ),
            None => None,
        }
    } else {
        copy_nulls(&indices.nulls)
    }
}

/// Which positions are there and were valid.
pub open spec fn taken_validity(bits: Option<Seq<bool>>, ix: IndexSeq) -> Seq<bool> {
    Seq::new(ix.len(), |i: int| ix.valid[i] && valid_in(bits, ix.raw[i] as int))
}

/// The bits behind an optional bitmap.
spec fn null_bits_in(nulls: &Option<NullBuffer>) -> Option<Seq<bool>> {
    bits_of(*nulls)
}

/// The bitmap of which positions are there and were valid.
pub fn take_validity(nulls: &Option<NullBuffer>, indices: &Indices) -> (taken: NullBuffer)
    requires
        indices.wf(),
        bits_of(*nulls) matches Some(b) ==> indices@.below(b.len() as int),
    ensures
        null_bits(taken) == taken_validity(bits_of(*nulls), indices@),
{
    let len: usize = indices.len();
    let ghost validity = taken_validity(bits_of(*nulls), indices@);
    let bit = |i: usize| -> (bit: bool)
        requires
            indices.wf(),
            i < indices@.len(),
            null_bits_in(nulls) matches Some(b) ==> indices@.below(b.len() as int),
        ensures
            bit == taken_validity(null_bits_in(nulls), indices@)[i as int],
    {
        indices.is_valid(i) && slot_valid(nulls, indices.values[i])
    };
    let bits = BooleanBuffer::collect_bool(len, bit);
    assert forall|i: int| 0 <= i < len implies #[trigger] boolean_bits(bits)[i] == validity[i] by {
        let _ = boolean_bits(bits)[i as usize as int];
    }
    assert(boolean_bits(bits) =~= validity);
    NullBuffer::new(bits)
}

/// Leaving out a bitmap without nulls does not change which slots are valid.
pub proof fn lemma_only_with_nulls(bits: Option<Seq<bool>>, len: int)
    requires
        bits matches Some(b) ==> b.len() == len,
    ensures
        only_with_nulls(bits) matches Some(b) ==> b.len() == len,
        forall|i: int|
            0 <= i < len ==> #[trigger] valid_in(only_with_nulls(bits), i) == valid_in(bits, i),
{
    assert forall|i: int| 0 <= i < len implies #[trigger] valid_in(only_with_nulls(bits), i)
        == valid_in(bits, i) by {
        if let Some(b) = bits {
            if !b[i] {
                assert(some_unset(b));
            }
        }
    }
}

} // verus!
