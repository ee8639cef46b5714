//! What the kernels that copy values, bits and bitmaps give, and what stands under a null.
use crate::array::{Array, ArrayRef, Native, Values};
use crate::buffers::{boolean_bits, null_bits};
use crate::fixed::{
    chunk_at, lemma_joined, lemma_slot, present_chunk_at, slot_bytes, take_fixed_size,
    take_fixed_size_binary_buffer_dynamic_length,
};
use crate::flat::{lemma_taken_nulls, take_bits, take_native, take_nulls, take_validity};
use crate::indices::{index_value, positions, Indices};
use crate::laws::calls::lemma_positions;
use crate::laws::numbers::{holds_numbers, lemma_index_numbers, null_at, position_under};
use crate::laws::parts::is_slot;
use crate::laws::shapes::lemma_laid_out;
use crate::laws::slots::same_bits;
use crate::layout::counts;
use crate::selection::occurrences;
use crate::take::{take, TakeOptions};
use crate::union::count_offsets;
use crate::validity::{any_null, bits_of, copy_nulls, drop_if_all_valid, slot_valid, valid_in};
use arrow_buffer::{BooleanBuffer, NullBuffer};
use vstd::prelude::*;

verus! {

/// Values are taken at their positions; a position beyond them gives `zero`.
pub proof fn law_values_are_taken_at_positions<T: Copy>(
    values: &[T],
    indices: &Indices,
    zero: T,
    taken: Vec<T>,
)
    requires
        call_ensures(take_native::<T>, (values, indices, zero), taken),
    ensures
        taken@.len() == indices.values@.len(),
        forall|i: int|
            0 <= i < taken@.len() ==> #[trigger] taken@[i] == if indices.values@[i]
                < values@.len() {
                values@[indices.values@[i] as int]
            } else {
                zero
            },
{
}

/// Bits are taken at their positions, and unset under a null.
pub proof fn law_bits_are_taken_at_positions(
    values: &BooleanBuffer,
    indices: &Indices,
    taken: BooleanBuffer,
)
    requires
        indices.wf(),
        call_ensures(take_bits, (values, indices), taken),
    ensures
        boolean_bits(taken).len() == indices.values@.len(),
        forall|i: int|
            0 <= i < indices.values@.len() ==> #[trigger] boolean_bits(taken)[i] == (!null_at(
                indices.nulls,
                i,
            ) && boolean_bits(*values)[indices.values@[i] as int]),
{
    lemma_valid(indices);
}

/// Which positions are there.
proof fn lemma_valid(indices: &Indices)
    ensures
        forall|i: int|
            0 <= i < indices.values@.len() ==> #[trigger] indices@.valid[i] == !null_at(
                indices.nulls,
                i,
            ),
{
    assert forall|i: int| 0 <= i < indices.values@.len() implies #[trigger] indices@.valid[i]
        == !null_at(indices.nulls, i) by {
        assert(indices@.valid[i] == valid_in(bits_of(indices.nulls), i));
    }
}

/// What is taken is null where the position is, and where it leads to a null.
pub proof fn law_nulls_are_taken_at_positions(
    values: &Option<NullBuffer>,
    indices: &Indices,
    taken: Option<NullBuffer>,
    validity: NullBuffer,
    len: int,
)
    requires
        indices.wf(),
        forall|i: int| 0 <= i < indices.values@.len() ==> #[trigger] is_slot(*indices, i, len),
        *values matches Some(n) ==> null_bits(n).len() == len,
        call_ensures(take_nulls, (values, indices), taken),
        call_ensures(take_validity, (values, indices), validity),
    ensures
        taken matches Some(n) ==> null_bits(n).len() == indices.values@.len(),
        forall|i: int|
            0 <= i < indices.values@.len() ==> #[trigger] null_at(taken, i) == (null_at(
                indices.nulls,
                i,
            ) || null_at(*values, indices.values@[i] as int)),
        null_bits(validity).len() == indices.values@.len(),
        forall|i: int|
            0 <= i < indices.values@.len() ==> #[trigger] null_bits(validity)[i] == !(null_at(
                indices.nulls,
                i,
            ) || null_at(*values, indices.values@[i] as int)),
{
    lemma_valid(indices);
    assert(indices@.below(len)) by {
        assert forall|i: int|
            0 <= i < indices@.raw.len() && indices@.valid[i] implies #[trigger] indices@.raw[i]
            < len by {
            assert(is_slot(*indices, i, len));
        }
    }
    lemma_taken_nulls(bits_of(*values), *indices, len);
    assert forall|i: int| 0 <= i < indices.values@.len() implies #[trigger] null_at(taken, i) == (
    null_at(indices.nulls, i) || null_at(*values, indices.values@[i] as int)) by {
        assert(valid_in(bits_of(taken), i) == (indices@.valid[i] && valid_in(
            bits_of(*values),
            indices@.raw[i] as int,
        )));
    }
}

/// What is said of bitmaps is what they mark.
pub proof fn law_bitmaps_mark_nulls(
    nulls: &Option<NullBuffer>,
    any: bool,
    copy: Option<NullBuffer>,
    kept: Option<NullBuffer>,
    slot: usize,
    valid: bool,
    len: int,
)
    requires
        *nulls matches Some(n) ==> null_bits(n).len() == len,
        call_ensures(any_null, (nulls,), any),
        call_ensures(copy_nulls, (nulls,), copy),
        call_ensures(drop_if_all_valid, (*nulls,), kept),
        call_ensures(slot_valid, (nulls, slot), valid),
    ensures
        any <==> exists|i: int| 0 <= i < len && #[trigger] null_at(*nulls, i),
        copy is Some <==> nulls is Some,
        copy matches Some(c) ==> null_bits(c) == null_bits(nulls->0),
        kept is Some <==> any,
        kept matches Some(c) ==> null_bits(c) == null_bits(nulls->0),
        valid == !null_at(*nulls, slot as int),
{
    if any {
        let bits = null_bits(nulls->0);
        let i = choose|i: int| 0 <= i < bits.len() && !#[trigger] bits[i];
        assert(null_at(*nulls, i));
    }
    if exists|i: int| 0 <= i < len && #[trigger] null_at(*nulls, i) {
        let i = choose|i: int| 0 <= i < len && #[trigger] null_at(*nulls, i);
        let bits = null_bits(nulls->0);
        assert(!bits[i]);
    }
}

/// Positions with flags are null where the flag is unset, and positions without are all there.
pub proof fn law_positions_are_as_given(
    values: Vec<usize>,
    valid: Vec<bool>,
    flagged: Indices,
    all: Indices,
)
    requires
        values@.len() == valid@.len(),
        call_ensures(Indices::from_parts, (values, valid), flagged),
        call_ensures(Indices::all_of, (values,), all),
    ensures
        flagged.values@ == values@,
        forall|i: int|
            0 <= i < values@.len() ==> #[trigger] null_at(flagged.nulls, i) == !valid@[i],
        all.values@ == values@,
        all.nulls is None,
{
    lemma_valid(&flagged);
    assert(flagged@.raw == flagged.values@);
    assert(all@.raw == all.values@);
    assert forall|i: int| 0 <= i < values@.len() implies #[trigger] null_at(flagged.nulls, i)
        == !valid@[i] by {
        assert(flagged@.valid[i] == !null_at(flagged.nulls, i));
    }
}

/// Bytes of one size are taken at their positions. Sizes that stand in one word give what stands at
/// a position that is null too, where it leads to something; the others give zeros there.
pub proof fn law_bytes_of_one_size_are_taken_at_positions(
    data: &Vec<u8>,
    len: usize,
    size: usize,
    indices: &Indices,
    words: Vec<u8>,
    bytes: Vec<u8>,
    i: int,
    k: int,
)
    requires
        data@.len() == len * size,
        indices.wf(),
        forall|j: int|
            0 <= j < indices.values@.len() ==> #[trigger] is_slot(*indices, j, len as int),
        call_ensures(take_fixed_size, (data, len, size, indices), words),
        call_ensures(
            take_fixed_size_binary_buffer_dynamic_length,
            (data, len, size, indices),
            bytes,
        ),
        0 <= i < indices.values@.len(),
        0 <= k < size,
    ensures
        words@.len() == indices.values@.len() * size,
        bytes@.len() == indices.values@.len() * size,
        0 <= i * size + k < words@.len(),
        words@[i * size + k] == if indices.values@[i] < len {
            data@[indices.values@[i] * size + k]
        } else {
            0
        },
        bytes@[i * size + k] == if !null_at(indices.nulls, i) {
            data@[indices.values@[i] * size + k]
        } else {
            0
        },
{
    let ix = indices@;
    let n = ix.len();
    let width = size as int;
    lemma_valid(indices);
    assert forall|j: int| 0 <= j < n implies (#[trigger] chunk_at(data@, len as int, width, ix)(
        j,
    )).len() == width by {
        if ix.raw[j] < len {
            lemma_slot(ix.raw[j] as int, len as int, width);
        }
    }
    assert forall|j: int| 0 <= j < n implies (#[trigger] present_chunk_at(data@, width, ix)(
        j,
    )).len() == width by {
        assert(is_slot(*indices, j, len as int));
        if ix.valid[j] {
            lemma_slot(ix.raw[j] as int, len as int, width);
        }
    }
    lemma_joined(chunk_at(data@, len as int, width, ix), width, n);
    lemma_joined(present_chunk_at(data@, width, ix), width, n);
    lemma_slot(i, n as int, width);
    assert(is_slot(*indices, i, len as int));
    assert(slot_bytes(words@, width, i) == chunk_at(data@, len as int, width, ix)(i));
    assert(slot_bytes(bytes@, width, i) == present_chunk_at(data@, width, ix)(i));
    assert(slot_bytes(words@, width, i)[k] == words@[i * width + k]);
    assert(slot_bytes(bytes@, width, i)[k] == bytes@[i * width + k]);
    if ix.raw[i] < len {
        lemma_slot(ix.raw[i] as int, len as int, width);
        assert(slot_bytes(data@, width, ix.raw[i] as int)[k] == data@[ix.raw[i] * width + k]);
    }
}

/// The `i`th id is the next after the `j`th of its kind.
pub open spec fn follows(ids: Seq<i8>, j: int, i: int) -> bool {
    &&& 0 <= j < i < ids.len()
    &&& ids[j] == ids[i]
    &&& forall|t: int| j < t < i ==> #[trigger] ids[t] != ids[i]
}

/// Offsets count from zero for each id, by one from each occurrence to the next. They are given
/// where no id can occur too often for them.
pub proof fn law_offsets_count_occurrences(ids: &Vec<i8>, result: Option<Vec<i32>>)
    requires
        call_ensures(count_offsets, (ids,), result),
    ensures
        ids@.len() <= i32::MAX ==> result is Some,
        result matches Some(offsets) ==> {
            &&& offsets@.len() == ids@.len()
            &&& forall|i: int|
                0 <= i < ids@.len() && (forall|j: int| 0 <= j < i ==> #[trigger] ids@[j] != ids@[i])
                    ==> #[trigger] offsets@[i] == 0
            &&& forall|j: int, i: int|
                #[trigger] follows(ids@, j, i) ==> offsets@[i] == offsets@[j] + 1
        },
{
    if ids@.len() <= i32::MAX && result is None {
        let i = choose|i: int|
            0 <= i < ids@.len() && occurrences(ids@, #[trigger] ids@[i], i as nat) > i32::MAX;
        lemma_occurrences(ids@, ids@[i], 0, i as nat);
    }
    if let Some(offsets) = result {
        assert(counts(ids@, offsets@));
        assert forall|i: int|
            0 <= i < ids@.len() && (forall|j: int|
                0 <= j < i ==> #[trigger] ids@[j] != ids@[i]) implies #[trigger] offsets@[i]
            == 0 by {
            lemma_occurrences(ids@, ids@[i], 0, i as nat);
        }
        assert forall|j: int, i: int| #[trigger] follows(ids@, j, i) implies offsets@[i]
            == offsets@[j] + 1 by {
            lemma_occurrences(ids@, ids@[i], (j + 1) as nat, i as nat);
            assert(occurrences(ids@, ids@[i], (j + 1) as nat) == occurrences(
                ids@,
                ids@[i],
                j as nat,
            ) + 1);
            let _ = offsets@[j];
            let _ = offsets@[i];
        }
    }
}

/// Between `from` and `to`, an id occurs at most as often as there are ids, and not at all where
/// none of them is it.
pub proof fn lemma_occurrences(ids: Seq<i8>, id: i8, from: nat, to: nat)
    requires
        from <= to <= ids.len(),
    ensures
        occurrences(ids, id, to) <= occurrences(ids, id, from) + (to - from),
        (forall|t: int| from <= t < to ==> #[trigger] ids[t] != id) ==> occurrences(ids, id, to)
            == occurrences(ids, id, from),
    decreases to,
{
    if from < to {
        lemma_occurrences(ids, id, from, (to - 1) as nat);
    }
}

/// All the bits at `i` are unset.
pub open spec fn all_unset(values: Native, i: int) -> bool {
    match values {
        Native::W8(v) => v@[i] == 0,
        Native::W16(v) => v@[i] == 0,
        Native::W32(v) => v@[i] == 0,
        Native::W64(v) => v@[i] == 0,
        Native::W128(v) => v@[i] == 0,
        Native::W256(v) => v@[i] == (0u128, 0u128),
    }
}

/// What stands at each index of values or keys that were taken, null or not: the bits at the
/// position that the number there stands for, or none set where it leads nowhere.
pub proof fn law_bits_under_nulls(
    values: &Array,
    indices: &Array,
    options: Option<TakeOptions>,
    taken: ArrayRef,
    i: int,
)
    requires
        values.wf(),
        indices.wf(),
        holds_numbers(*indices),
        call_ensures(take, (values, indices, options), Ok(taken)),
        0 <= i < indices.len,
    ensures
        ({
            let position = position_under(*indices, i);
            &&& values.values matches Values::Native(v) ==> {
                &&& taken.values matches Values::Native(w)
                &&& position < values.len ==> same_bits(v, position, w, i)
                &&& position >= values.len ==> all_unset(w, i)
            }
            &&& values.values matches Values::Dictionary { keys: v, .. } ==> {
                &&& taken.values matches Values::Dictionary { keys: w, .. }
                &&& position < values.len ==> same_bits(v, position, w, i)
                &&& position >= values.len ==> all_unset(w, i)
            }
            &&& values.values is Boolean && null_at(indices.nulls, i) ==> {
                &&& taken.values matches Values::Boolean(w)
                &&& !boolean_bits(w)[i]
            }
        }),
{
    let r: &Array = &*taken;
    let mid = lemma_laid_out(values, indices, r);
    let ix = positions(*indices);
    lemma_positions(*indices);
    lemma_index_numbers(*indices);
    assert(ix.raw[i] == position_under(*indices, i)) by {
        let _ = index_value(*indices, i);
    }
    assert(ix.valid[i] == !null_at(indices.nulls, i));
    if values.values is Native || values.values is Dictionary || values.values is Boolean {
        assert(mid == *r);
        match (&values.values, &r.values) {
            (Values::Native(v), Values::Native(w)) => {
                assert(w.at(i) == if ix.raw[i] < v.spec_len() {
                    v.at(ix.raw[i] as int)
                } else {
                    (0, 0)
                });
            },
            (Values::Dictionary { keys: v, .. }, Values::Dictionary { keys: w, .. }) => {
                assert(w.at(i) == if ix.raw[i] < v.spec_len() {
                    v.at(ix.raw[i] as int)
                } else {
                    (0, 0)
                });
            },
            _ => {},
        }
    }
}

} // verus!
