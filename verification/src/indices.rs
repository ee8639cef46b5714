//! Which slots to take, and in what order.
use crate::array::{Array, Native, Values};
use crate::buffers::boolean_bits;
use crate::datatype::{DataType, IntType, PrimitiveType};
use crate::error::TakeError;
use crate::validity::{
    bits_of, copy_nulls, drop_if_all_valid, only_with_nulls, slot_valid, some_unset, valid_in,
};
use arrow_buffer::{BooleanBuffer, NullBuffer};
use vstd::prelude::*;

verus! {

/// Positions to take from. A slot may be null; its position is then no more than a leftover.
#[derive(Debug)]
pub struct Indices {
    pub values: Vec<usize>,
    pub nulls: Option<NullBuffer>,
}

/// The positions, and which of them are there.
#[verifier::ext_equal]
pub struct IndexSeq {
    pub raw: Seq<usize>,
    pub valid: Seq<bool>,
}

impl IndexSeq {
    pub open spec fn len(self) -> nat {
        self.raw.len()
    }

    pub open spec fn wf(self) -> bool {
        self.valid.len() == self.raw.len()
    }

    /// Positions that are all there.
    pub open spec fn all_of(raw: Seq<usize>) -> IndexSeq {
        IndexSeq { raw, valid: Seq::new(raw.len(), |i: int| true) }
    }

    /// Every position that is there lies below `len`.
    pub open spec fn below(self, len: int) -> bool {
        forall|i: int| 0 <= i < self.raw.len() && self.valid[i] ==> #[trigger] self.raw[i] < len
    }
}

impl View for Indices {
    type V = IndexSeq;

    open spec fn view(&self) -> IndexSeq {
        IndexSeq {
            raw: self.values@,
            valid: Seq::new(self.values@.len(), |i: int| valid_in(bits_of(self.nulls), i)),
        }
    }
}

impl Indices {
    /// A bitmap has as many bits as there are positions.
    pub open spec fn wf(&self) -> bool {
        bits_of(self.nulls) matches Some(b) ==> b.len() == self.values@.len()
    }

    /// Positions that are all there.
    pub fn all_of(values: Vec<usize>) -> (indices: Indices)
        ensures
            indices.wf(),
            indices.nulls is None,
            indices@ == IndexSeq::all_of(values@),
    {
        let indices = Indices { values, nulls: None };
        assert(indices@ =~= IndexSeq::all_of(values@));
        indices
    }

    /// Positions of which those are there that `valid` marks. Where it marks all, there is no
    /// bitmap.
    pub fn from_parts(values: Vec<usize>, valid: Vec<bool>) -> (indices: Indices)
        requires
            values@.len() == valid@.len(),
        ensures
            indices.wf(),
            indices@ == (IndexSeq { raw: values@, valid: valid@ }),
            bits_of(indices.nulls) == only_with_nulls(Some(valid@)),
    {
        let len: usize = values.len();
        let flag = |i: usize| -> (bit: bool)
            requires
                i < valid@.len(),
            ensures
                bit == valid@[i as int],
        {
            valid[i]
        };
        let bits = BooleanBuffer::collect_bool(len, flag);
        let indices = Indices { values, nulls: drop_if_all_valid(Some(NullBuffer::new(bits))) };
        assert forall|i: int| 0 <= i < len implies boolean_bits(bits)[i] == valid@[i] by {
            let _ = boolean_bits(bits)[i as usize as int];
        }
        assert(boolean_bits(bits) =~= valid@);
        assert forall|i: int| 0 <= i < len implies indices@.valid[i] == valid@[i] by {
            if !valid@[i] {
                assert(some_unset(valid@));
            }
        }
        assert(indices@.valid =~= valid@);
        indices
    }

    pub fn len(&self) -> (len: usize)
        ensures
            len == self@.len(),
    {
        self.values.len()
    }

    /// Whether position `i` is there.
    pub fn is_valid(&self, i: usize) -> (valid: bool)
        requires
            self.wf(),
            i < self@.len(),
        ensures
            valid == self@.valid[i as int],
    {
        slot_valid(&self.nulls, i)
    }
}

/// The integer type of an index array.
pub open spec fn index_type(indices: Array) -> Option<IntType> {
    match *indices.data_type {
        DataType::Primitive(PrimitiveType::Int(t)) => Some(t),
        _ => None,
    }
}

/// Index `i` of an index array, as an integer.
pub open spec fn index_value(indices: Array, i: int) -> int {
    index_type(indices)->0.value_of(indices.values->Native_0.at(i).0)
}

/// An index as an unsigned integer. A negative one, which only a null slot may hold, wraps around
/// at the width that positions are handled in.
pub open spec fn wrapped(kind: IntType, value: int) -> int {
    if value >= 0 {
        value
    } else if kind is Int64 {
        value + 0x1_0000_0000_0000_0000
    } else {
        value + 0x1_0000_0000
    }
}

/// The position that an index stands for. What is left in a null slot and cannot be addressed
/// stands for the first.
pub open spec fn position(kind: IntType, value: int) -> usize {
    if wrapped(kind, value) <= usize::MAX {
        wrapped(kind, value) as usize
    } else {
        0
    }
}

/// The positions that an index array stands for.
pub open spec fn positions(indices: Array) -> IndexSeq {
    IndexSeq {
        raw: Seq::new(
            indices.len as nat,
            |i: int| position(index_type(indices)->0, index_value(indices, i)),
        ),
        valid: Seq::new(indices.len as nat, |i: int| valid_in(indices.bits(), i)),
    }
}

/// Every index that is there is a number that the machine can address.
pub open spec fn addressable(indices: Array) -> bool {
    forall|i: int|
        0 <= i < indices.len && valid_in(indices.bits(), i) ==> 0 <= #[trigger] index_value(
            indices,
            i,
        ) <= usize::MAX
}

/// Index `i` is there and is not one of `len` slots.
pub open spec fn strays(indices: Array, i: int, len: usize) -> bool {
    valid_in(indices.bits(), i) && !(0 <= index_value(indices, i) < len)
}

/// The error for the first of `k` indices that is out of bounds.
pub open spec fn bounds_error(indices: Array, len: usize, k: nat) -> Option<TakeError>
    decreases k,
{
    if k == 0 {
        None
    } else {
        match bounds_error(indices, len, (k - 1) as nat) {
            Some(e) => Some(e),
            None => if strays(indices, k - 1, len) {
                Some(TakeError::OutOfBounds { index: index_value(indices, k - 1) as i128, len })
            } else {
                None
            },
        }
    }
}

/// The first error stays the first; without one, no index is out of bounds.
pub proof fn lemma_bounds_error(indices: Array, len: usize, i: nat, j: nat)
    requires
        i <= j,
    ensures
        bounds_error(indices, len, i) is Some ==> bounds_error(indices, len, j) == bounds_error(
            indices,
            len,
            i,
        ),
        bounds_error(indices, len, j) is None ==> forall|k: int|
            0 <= k < j ==> !#[trigger] strays(indices, k, len),
    decreases j,
{
    if i < j {
        lemma_bounds_error(indices, len, i, (j - 1) as nat);
    } else if j > 0 {
        lemma_bounds_error(indices, len, (j - 1) as nat, (j - 1) as nat);
    }
}

/// Index `i`, read from the bits that it is kept in.
fn index_at(kind: IntType, values: &Native, i: usize) -> (value: i128)
    requires
        i < values.spec_len(),
        values.width() == kind.width(),
    ensures
        value == kind.value_of(values.at(i as int).0),
        -0x8000_0000_0000_0000 <= value <= 0xffff_ffff_ffff_ffff,
        value < 0 && !(kind is Int64) ==> -0x8000_0000 <= value,
{
    let bits: u64 = match values {
        Native::W8(v) => v[i] as u64,
        Native::W16(v) => v[i] as u64,
        Native::W32(v) => v[i] as u64,
        Native::W64(v) => v[i],
        _ => 0,
    };
    kind.decode(bits)
}

/// Checks that every index that is there is one of `len` slots.
pub fn check_bounds(len: usize, indices: &Array) -> (result: Result<(), TakeError>)
    requires
        indices.wf(),
        index_type(*indices) is Some,
    ensures
        result is Ok <==> bounds_error(*indices, len, indices.len as nat) is None,
        result matches Err(e) ==> bounds_error(*indices, len, indices.len as nat) == Some(e),
        result is Ok <==> forall|i: int|
            0 <= i < indices.len ==> !#[trigger] strays(*indices, i, len),
{
    if let (DataType::Primitive(PrimitiveType::Int(kind)), Values::Native(values)) = (
        &*indices.data_type,
        &indices.values,
    ) {
        let mut i: usize = 0;
        while i < indices.len
            invariant
                indices.wf(),
                index_type(*indices) == Some(*kind),
                indices.values == Values::Native(*values),
                i <= indices.len,
                bounds_error(*indices, len, i as nat) is None,
            decreases indices.len - i,
        {
            if slot_valid(&indices.nulls, i) {
                let index: i128 = index_at(*kind, values, i);
                if index < 0 || index >= len as i128 {
                    assert(strays(*indices, i as int, len));
                    proof {
                        lemma_bounds_error(*indices, len, (i + 1) as nat, indices.len as nat);
                    }
                    return Err(TakeError::OutOfBounds { index, len });
                }
            }
            i += 1;
        }
    }
    proof {
        lemma_bounds_error(*indices, len, indices.len as nat, indices.len as nat);
    }
    Ok(())
}

/// The positions that an index array stands for.
pub fn to_indices(indices: &Array) -> (result: Result<Indices, TakeError>)
    requires
        indices.wf(),
        index_type(*indices) is Some,
    ensures
        result is Ok <==> addressable(*indices),
        result matches Ok(p) ==> p.wf() && p@ == positions(*indices) && bits_of(p.nulls)
            == indices.bits(),
        result matches Err(e) ==> e is IndexTooLarge,
{
    let mut raw: Vec<usize> = Vec::new();
    if let (DataType::Primitive(PrimitiveType::Int(kind)), Values::Native(values)) = (
        &*indices.data_type,
        &indices.values,
    ) {
        let mut i: usize = 0;
        while i < indices.len
            invariant
                indices.wf(),
                index_type(*indices) == Some(*kind),
                indices.values == Values::Native(*values),
                i <= indices.len,
                raw@.len() == i,
                forall|j: int|
                    0 <= j < i && valid_in(indices.bits(), j) ==> 0 <= #[trigger] index_value(
                        *indices,
                        j,
                    ) <= usize::MAX,
                forall|j: int| 0 <= j < i ==> #[trigger] raw@[j] == positions(*indices).raw[j],
            decreases indices.len - i,
        {
            let value: i128 = index_at(*kind, values, i);
            assert(value == index_value(*indices, i as int));
            if slot_valid(&indices.nulls, i) && (value < 0 || value > usize::MAX as i128) {
                return Err(TakeError::IndexTooLarge);
            }
            let position: i128 = if value >= 0 {
                value
            } else if *kind == IntType::Int64 {
                value + 0x1_0000_0000_0000_0000
            } else {
                value + 0x1_0000_0000
            };
            if position > usize::MAX as i128 {
                raw.push(0);
            } else {
                raw.push(position as usize);
            }
            i += 1;
        }
    }
    let taken = Indices { values: raw, nulls: copy_nulls(&indices.nulls) };
    assert(taken@ =~= positions(*indices));
    Ok(taken)
}

} // verus!
