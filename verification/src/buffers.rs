//! The bitmaps and byte buffers that arrays are made of.
//!
//! `arrow_buffer` owns the memory. What it holds is opaque here, so each type has a name for its
//! contents, and each method that the kernels call has a contract over those names. Everything
//! else in this module is proved from these contracts.
use arrow_buffer::{bit_util, BooleanBuffer, Buffer, MutableBuffer, NullBuffer};
use std::sync::Arc;
use vstd::prelude::*;

verus! {

/// `arrow_buffer::Buffer`: an immutable, shared run of bytes.
#[verifier::external_type_specification]
#[verifier::external_body]
pub struct ExBuffer(Buffer);

/// `arrow_buffer::MutableBuffer`: bytes under construction.
#[verifier::external_type_specification]
#[verifier::external_body]
pub struct ExMutableBuffer(MutableBuffer);

/// `arrow_buffer::BooleanBuffer`: a slice of a packed bitmap.
#[verifier::external_type_specification]
#[verifier::external_body]
pub struct ExBooleanBuffer(BooleanBuffer);

/// `arrow_buffer::NullBuffer`: a bitmap of validity, a set bit marking a value that is not null.
#[verifier::external_type_specification]
#[verifier::external_body]
pub struct ExNullBuffer(NullBuffer);

/// The bytes of a `Buffer`.
pub uninterp spec fn buffer_bytes(buffer: Buffer) -> Seq<u8>;

/// The bytes of a `MutableBuffer`.
pub uninterp spec fn mutable_bytes(buffer: MutableBuffer) -> Seq<u8>;

/// The bits of a `BooleanBuffer`, within its offset and length.
pub uninterp spec fn boolean_bits(buffer: BooleanBuffer) -> Seq<bool>;

/// The validity bits of a `NullBuffer`, within its offset and length.
pub uninterp spec fn null_bits(nulls: NullBuffer) -> Seq<bool>;

/// Bit `i` of a packed bitmap, the least significant bit of each byte first.
pub open spec fn bit_at(bytes: Seq<u8>, i: int) -> bool {
    bytes[i / 8] & (1u8 << ((i % 8) as u8)) != 0
}

/// How many of `bits` are unset.
pub open spec fn unset_count(bits: Seq<bool>) -> nat
    decreases bits.len(),
{
    if bits.len() == 0 {
        0
    } else {
        unset_count(bits.drop_last()) + if bits.last() {
            0nat
        } else {
            1nat
        }
    }
}

/// `NullBuffer::null_count`: the number of unset bits.
pub assume_specification[ NullBuffer::null_count ](nulls: &NullBuffer) -> (count: usize)
    ensures
        count == unset_count(null_bits(*nulls)),
;

/// `NullBuffer::is_valid`: the bit at `idx`; it panics past the end.
pub assume_specification[ NullBuffer::is_valid ](nulls: &NullBuffer, idx: usize) -> (valid: bool)
    requires
        idx < null_bits(*nulls).len(),
    ensures
        valid == null_bits(*nulls)[idx as int],
;

/// `NullBuffer::inner`: the same bits as a `BooleanBuffer`.
pub assume_specification[ NullBuffer::inner ](nulls: &NullBuffer) -> (buffer: &BooleanBuffer)
    ensures
        boolean_bits(*buffer) == null_bits(*nulls),
;

/// `NullBuffer::new`: the given bits, read as validity.
pub assume_specification[ NullBuffer::new ](buffer: BooleanBuffer) -> (nulls: NullBuffer)
    ensures
        null_bits(nulls) == boolean_bits(buffer),
;

/// `NullBuffer::clone`: a handle on the same bits.
pub assume_specification[ <NullBuffer as Clone>::clone ](nulls: &NullBuffer) -> (copy: NullBuffer)
    ensures
        null_bits(copy) == null_bits(*nulls),
;

/// `NullBuffer::union`: a slot is valid where it is valid on both sides; `None` where neither
/// side has a null. It panics on two bitmaps of different lengths unless both are all valid.
pub assume_specification[ NullBuffer::union ](
    lhs: Option<&NullBuffer>,
    rhs: Option<&NullBuffer>,
) -> (both: Option<NullBuffer>)
    requires
        lhs is Some && rhs is Some ==> null_bits(*lhs->0).len() == null_bits(*rhs->0).len(),
    ensures
        both is Some <==> (lhs is Some && unset_count(null_bits(*lhs->0)) > 0) || (rhs is Some
            && unset_count(null_bits(*rhs->0)) > 0),
        both matches Some(n) ==> null_bits(n) == match (lhs, rhs) {
            (Some(l), Some(r)) => Seq::new(
                null_bits(*l).len(),
                |i: int| null_bits(*l)[i] && null_bits(*r)[i],
            ),
            (Some(l), None) => null_bits(*l),
            (None, Some(r)) => null_bits(*r),
            (None, None) => null_bits(n),
        },
;

/// `BooleanBuffer::value`: the bit at `idx`; it panics past the end.
pub assume_specification[ BooleanBuffer::value ](buffer: &BooleanBuffer, idx: usize) -> (bit: bool)
    requires
        idx < boolean_bits(*buffer).len(),
    ensures
        bit == boolean_bits(*buffer)[idx as int],
;

/// `BooleanBuffer::new`: `bit_len` bits of a packed bitmap, from bit `bit_offset` on; it panics
/// where the bitmap is too short.
pub assume_specification[ BooleanBuffer::new ](
    buffer: Buffer,
    bit_offset: usize,
    bit_len: usize,
) -> (bits: BooleanBuffer)
    requires
        bit_offset + bit_len <= 8 * buffer_bytes(buffer).len(),
        bit_offset + bit_len <= usize::MAX,
    ensures
        boolean_bits(bits) == Seq::new(
            bit_len as nat,
            |i: int| bit_at(buffer_bytes(buffer), bit_offset + i),
        ),
;

/// `BooleanBuffer::collect_bool`: bit `i` is what `f` answers on `i`.
pub assume_specification<F: FnMut(usize) -> bool>[ BooleanBuffer::collect_bool::<F> ](
    len: usize,
    f: F,
) -> (bits: BooleanBuffer)
    requires
        forall|i: usize| i < len ==> call_requires(f, (i,)),
    ensures
        boolean_bits(bits).len() == len,
        forall|i: usize| i < len ==> call_ensures(f, (i,), #[trigger] boolean_bits(bits)[i as int]),
;

/// `MutableBuffer::new_null`: zeroed bytes, enough for `len` bits.
pub assume_specification[ MutableBuffer::new_null ](len: usize) -> (buffer: MutableBuffer)
    ensures
        mutable_bytes(buffer) == Seq::new(((len + 7) / 8) as nat, |k: int| 0u8),
;

/// `MutableBuffer::as_slice_mut`: the bytes, to be written through.
pub assume_specification[ MutableBuffer::as_slice_mut ](buffer: &mut MutableBuffer) -> (slice:
    &mut [u8])
    ensures
        slice@ == mutable_bytes(*old(buffer)),
        mutable_bytes(*final(buffer)) == final(slice)@,
;

/// `bit_util::set_bit`: sets bit `i` and no other; it panics past the end.
pub assume_specification[ bit_util::set_bit ](data: &mut [u8], i: usize)
    requires
        i / 8 < old(data)@.len(),
    ensures
        final(data)@.len() == old(data)@.len(),
        forall|j: int|
            0 <= j < 8 * old(data)@.len() ==> #[trigger] bit_at(final(data)@, j) == (j == i
                || bit_at(old(data)@, j)),
;

/// `Buffer::from(MutableBuffer)`: the same bytes, now immutable.
#[verifier::external_body]
pub(crate) fn freeze(buffer: MutableBuffer) -> (frozen: Buffer)
    ensures
        buffer_bytes(frozen) == mutable_bytes(buffer),
{
    buffer.into()
}

/// `Buffer::clone`: a handle on the same bytes.
pub assume_specification[ <Buffer as Clone>::clone ](buffer: &Buffer) -> (copy: Buffer)
    ensures
        buffer_bytes(copy) == buffer_bytes(*buffer),
;

/// `Buffer::ptr_eq`: whether both are the same bytes in memory. Two buffers that are share their
/// contents; which buffers are is up to how they were allocated, and nothing else is said of it.
pub assume_specification[ Buffer::ptr_eq ](buffer: &Buffer, other: &Buffer) -> (same: bool)
    ensures
        same ==> buffer_bytes(*buffer) == buffer_bytes(*other),
;

/// `Buffer::capacity`: what was allocated for the memory that the buffer is a part of, which is at
/// least its bytes. How much more is up to the allocator, and nothing is said of it.
pub assume_specification[ Buffer::capacity ](buffer: &Buffer) -> (capacity: usize)
    ensures
        capacity >= buffer_bytes(*buffer).len(),
;

/// `Arc::clone`: another handle on the same value.
#[verifier::external_body]
pub(crate) fn share<T>(value: &Arc<T>) -> (shared: Arc<T>)
    ensures
        shared == *value,
{
    Arc::clone(value)
}

} // verus!
