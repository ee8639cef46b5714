//! What the bits of index arrays stand for.
use crate::array::{Array, Native, Values};
use crate::buffers::null_bits;
use crate::datatype::{DataType, IntType, PrimitiveType};
use crate::error::TakeError;
use crate::indices::{
    addressable, bounds_error, check_bounds, index_type, index_value, lemma_bounds_error, strays,
    to_indices, Indices,
};
use crate::laws::lemma_no_bounds_error;
use crate::validity::{bits_of, valid_in};
use arrow_buffer::NullBuffer;
use vstd::prelude::*;

verus! {

/// A bitmap marks slot `i` as null.
pub open spec fn null_at(nulls: Option<NullBuffer>, i: int) -> bool {
    match nulls {
        Some(n) => !null_bits(n)[i],
        None => false,
    }
}

/// The number at position `i`: its bits, read as the machine reads an integer of this type.
pub open spec fn machine_number(kind: IntType, values: Native, i: int) -> int {
    match (kind, values) {
        (IntType::Int8, Native::W8(v)) => (v@[i] as i8) as int,
        (IntType::Int16, Native::W16(v)) => (v@[i] as i16) as int,
        (IntType::Int32, Native::W32(v)) => (v@[i] as i32) as int,
        (IntType::Int64, Native::W64(v)) => (v@[i] as i64) as int,
        (IntType::UInt8, Native::W8(v)) => v@[i] as int,
        (IntType::UInt16, Native::W16(v)) => v@[i] as int,
        (IntType::UInt32, Native::W32(v)) => v@[i] as int,
        (IntType::UInt64, Native::W64(v)) => v@[i] as int,
        _ => arbitrary(),
    }
}

/// The array is of one of the integer types.
pub open spec fn holds_numbers(a: Array) -> bool {
    &&& *a.data_type matches DataType::Primitive(PrimitiveType::Int(_))
    &&& a.values is Native
}

/// The number in slot `i` of an array of integers.
pub open spec fn number_at(a: Array, i: int) -> int {
    match (*a.data_type, a.values) {
        (DataType::Primitive(PrimitiveType::Int(kind)), Values::Native(values)) => {
            machine_number(kind, values, i)
        },
        _ => arbitrary(),
    }
}

/// Decoding reads bits as the machine does, whatever the width.
pub proof fn law_decoding_reads_numbers(kind: IntType, bits: u64, value: i128)
    requires
        call_ensures(IntType::decode, (kind, bits), value),
    ensures
        kind is Int8 && bits <= u8::MAX ==> value == (bits as u8) as i8,
        kind is Int16 && bits <= u16::MAX ==> value == (bits as u16) as i16,
        kind is Int32 && bits <= u32::MAX ==> value == (bits as u32) as i32,
        kind is Int64 ==> value == bits as i64,
        kind is UInt8 || kind is UInt16 || kind is UInt32 || kind is UInt64 ==> value == bits,
{
    assert(bits <= 0xffu64 ==> ((bits as u8) as i8) as int == if bits < 0x80u64 {
        bits as int
    } else {
        bits - 0x100
    }) by (bit_vector);
    assert(bits <= 0xffffu64 ==> ((bits as u16) as i16) as int == if bits < 0x8000u64 {
        bits as int
    } else {
        bits - 0x1_0000
    }) by (bit_vector);
    assert(bits <= 0xffff_ffffu64 ==> ((bits as u32) as i32) as int == if bits < 0x8000_0000u64 {
        bits as int
    } else {
        bits - 0x1_0000_0000
    }) by (bit_vector);
    assert((bits as i64) as int == if bits < 0x8000_0000_0000_0000u64 {
        bits as int
    } else {
        bits - 0x1_0000_0000_0000_0000
    }) by (bit_vector);
}

/// Every number of a signed type comes back from its two's complement.
pub proof fn law_decoding_undoes_encoding(
    byte: i8,
    half: i16,
    word: i32,
    long: i64,
    values: (i128, i128, i128, i128),
)
    requires
        call_ensures(IntType::decode, (IntType::Int8, (byte as u8) as u64), values.0),
        call_ensures(IntType::decode, (IntType::Int16, (half as u16) as u64), values.1),
        call_ensures(IntType::decode, (IntType::Int32, (word as u32) as u64), values.2),
        call_ensures(IntType::decode, (IntType::Int64, long as u64), values.3),
    ensures
        values.0 == byte,
        values.1 == half,
        values.2 == word,
        values.3 == long,
{
    assert((byte as u8) as int == if byte >= 0i8 {
        byte as int
    } else {
        byte + 0x100
    }) by (bit_vector);
    assert((half as u16) as int == if half >= 0i16 {
        half as int
    } else {
        half + 0x1_0000
    }) by (bit_vector);
    assert((word as u32) as int == if word >= 0i32 {
        word as int
    } else {
        word + 0x1_0000_0000
    }) by (bit_vector);
    assert((long as u64) as int == if long >= 0i64 {
        long as int
    } else {
        long + 0x1_0000_0000_0000_0000
    }) by (bit_vector);
}

/// Bit patterns of one type and its width that are decoded to one number are the same.
pub proof fn law_decoding_tells_numbers_apart(kind: IntType, one: u64, other: u64, value: i128)
    requires
        call_ensures(IntType::decode, (kind, one), value),
        call_ensures(IntType::decode, (kind, other), value),
        kind is Int8 ==> one <= u8::MAX && other <= u8::MAX,
        kind is Int16 ==> one <= u16::MAX && other <= u16::MAX,
        kind is Int32 ==> one <= u32::MAX && other <= u32::MAX,
    ensures
        one == other,
{
}

/// The largest number of a type is the machine's.
pub proof fn law_largest_is_the_machines(kind: IntType, value: u64)
    requires
        call_ensures(IntType::largest, (kind,), value),
    ensures
        value == match kind {
            IntType::Int8 => i8::MAX as int,
            IntType::Int16 => i16::MAX as int,
            IntType::Int32 => i32::MAX as int,
            IntType::Int64 => i64::MAX as int,
            IntType::UInt8 => u8::MAX as int,
            IntType::UInt16 => u16::MAX as int,
            IntType::UInt32 => u32::MAX as int,
            IntType::UInt64 => u64::MAX as int,
        },
{
}

/// The bits of a value stand for the number that the machine reads.
pub proof fn lemma_number(kind: IntType, values: Native, i: int)
    requires
        kind.width() == values.width(),
        0 <= i < values.spec_len(),
    ensures
        kind.value_of(values.at(i).0) == machine_number(kind, values, i),
{
    match values {
        Native::W8(v) => {
            let b = v@[i];
            assert((b as i8) as int == if b < 0x80u8 {
                b as int
            } else {
                b - 0x100
            }) by (bit_vector);
        },
        Native::W16(v) => {
            let b = v@[i];
            assert((b as i16) as int == if b < 0x8000u16 {
                b as int
            } else {
                b - 0x1_0000
            }) by (bit_vector);
        },
        Native::W32(v) => {
            let b = v@[i];
            assert((b as i32) as int == if b < 0x8000_0000u32 {
                b as int
            } else {
                b - 0x1_0000_0000
            }) by (bit_vector);
        },
        Native::W64(v) => {
            let b = v@[i];
            assert((b as i64) as int == if b < 0x8000_0000_0000_0000u64 {
                b as int
            } else {
                b - 0x1_0000_0000_0000_0000
            }) by (bit_vector);
        },
        _ => {},
    }
}

/// Index arrays hold numbers, and their slots are null where the bitmap marks them.
pub proof fn lemma_index_numbers(indices: Array)
    requires
        indices.wf(),
        holds_numbers(indices),
    ensures
        index_type(indices) is Some,
        forall|i: int|
            0 <= i < indices.len ==> #[trigger] index_value(indices, i) == number_at(indices, i),
        forall|i: int|
            0 <= i < indices.len ==> #[trigger] valid_in(indices.bits(), i) == !null_at(
                indices.nulls,
                i,
            ),
{
    if let (DataType::Primitive(PrimitiveType::Int(kind)), Values::Native(values)) = (
        &*indices.data_type,
        &indices.values,
    ) {
        assert forall|i: int| 0 <= i < indices.len implies #[trigger] index_value(indices, i)
            == number_at(indices, i) by {
            lemma_number(*kind, *values, i);
        }
    }
}

/// Index `i` is null or a number below `len`.
pub open spec fn keeps_to(indices: Array, i: int, len: int) -> bool {
    null_at(indices.nulls, i) || 0 <= number_at(indices, i) < len
}

/// The check passes if and only if every index that is not null is a number below `len`, however
/// many they are. Where it does not, the error is the first index for which that is false.
pub proof fn law_check_passes_indices_below_len(
    len: usize,
    indices: &Array,
    result: Result<(), TakeError>,
)
    requires
        indices.wf(),
        holds_numbers(*indices),
        call_ensures(check_bounds, (len, indices), result),
    ensures
        result is Ok <==> forall|i: int|
            0 <= i < indices.len ==> #[trigger] keeps_to(*indices, i, len as int),
        result matches Err(e) ==> exists|i: int|
            {
                &&& 0 <= i < indices.len
                &&& !#[trigger] keeps_to(*indices, i, len as int)
                &&& forall|j: int| 0 <= j < i ==> #[trigger] keeps_to(*indices, j, len as int)
                &&& e == (TakeError::OutOfBounds { index: number_at(*indices, i) as i128, len })
            },
{
    lemma_index_numbers(*indices);
    assert forall|i: int| 0 <= i < indices.len implies strays(*indices, i, len)
        == !#[trigger] keeps_to(*indices, i, len as int) by {
        let _ = index_value(*indices, i);
        let _ = valid_in(indices.bits(), i);
    }
    if result is Ok {
        assert forall|i: int| 0 <= i < indices.len implies #[trigger] keeps_to(
            *indices,
            i,
            len as int,
        ) by {
            assert(!strays(*indices, i, len));
        }
    } else {
        let i = lemma_first_stray(*indices, len, indices.len as nat);
        assert forall|j: int| 0 <= j < i implies #[trigger] keeps_to(*indices, j, len as int) by {
            assert(!strays(*indices, j, len));
        }
        assert(!keeps_to(*indices, i, len as int));
        lemma_no_bounds_error(*indices, len, i as nat);
        lemma_bounds_error(*indices, len, (i + 1) as nat, indices.len as nat);
        assert(index_value(*indices, i) == number_at(*indices, i));
    }
}

/// Where an index is out of bounds, one is the first.
pub proof fn lemma_first_stray(indices: Array, len: usize, k: nat) -> (i: int)
    requires
        bounds_error(indices, len, k) is Some,
    ensures
        0 <= i < k,
        strays(indices, i, len),
        forall|j: int| 0 <= j < i ==> !#[trigger] strays(indices, j, len),
    decreases k,
{
    if k > 0 && bounds_error(indices, len, (k - 1) as nat) is Some {
        lemma_first_stray(indices, len, (k - 1) as nat)
    } else {
        lemma_bounds_error(indices, len, (k - 1) as nat, (k - 1) as nat);
        k - 1
    }
}

/// The position that the number in slot `i` stands for where nothing is asked of it, as under a
/// null: itself, or what a negative one is as an unsigned number of 64 bits where the type has as
/// many, and of 32 where it has fewer. What cannot be addressed is the first position.
pub open spec fn position_under(indices: Array, i: int) -> int {
    let n = number_at(indices, i);
    let wrapped = if n >= 0 {
        n
    } else if *indices.data_type == DataType::Primitive(PrimitiveType::Int(IntType::Int64)) {
        n + 0x1_0000_0000_0000_0000
    } else {
        n + 0x1_0000_0000
    };
    if wrapped <= usize::MAX {
        wrapped
    } else {
        0
    }
}

/// An index array stands for the numbers that it holds: position `v` where a slot that is not null
/// holds `v`. It does so unless one of those is negative or too large to address.
pub proof fn law_indices_stand_for_their_numbers(
    indices: &Array,
    result: Result<Indices, TakeError>,
)
    requires
        indices.wf(),
        holds_numbers(*indices),
        call_ensures(to_indices, (indices,), result),
    ensures
        result is Ok <==> forall|i: int|
            0 <= i < indices.len ==> #[trigger] keeps_to(*indices, i, usize::MAX + 1),
        result matches Ok(asked) ==> {
            &&& asked.values@.len() == indices.len
            &&& forall|i: int|
                0 <= i < indices.len ==> null_at(asked.nulls, i) == null_at(indices.nulls, i)
            &&& forall|i: int|
                0 <= i < indices.len && !null_at(indices.nulls, i) ==> #[trigger] asked.values@[i]
                    == number_at(*indices, i)
            &&& forall|i: int|
                0 <= i < indices.len ==> #[trigger] asked.values@[i] == position_under(*indices, i)
        },
        result matches Err(e) ==> e is IndexTooLarge,
{
    lemma_index_numbers(*indices);
    assert forall|i: int| 0 <= i < indices.len implies #[trigger] keeps_to(
        *indices,
        i,
        usize::MAX + 1,
    ) == (valid_in(indices.bits(), i) ==> 0 <= index_value(*indices, i) <= usize::MAX) by {
        let _ = index_value(*indices, i);
        let _ = valid_in(indices.bits(), i);
    }
    if addressable(*indices) {
        assert forall|i: int| 0 <= i < indices.len implies #[trigger] keeps_to(
            *indices,
            i,
            usize::MAX + 1,
        ) by {
            let _ = index_value(*indices, i);
        }
    }
    if forall|i: int| 0 <= i < indices.len ==> #[trigger] keeps_to(*indices, i, usize::MAX + 1) {
        assert forall|i: int|
            0 <= i < indices.len && valid_in(indices.bits(), i) implies 0 <= #[trigger] index_value(
            *indices,
            i,
        ) <= usize::MAX by {
            assert(keeps_to(*indices, i, usize::MAX + 1));
        }
    }
    if let Ok(asked) = result {
        assert(bits_of(asked.nulls) == bits_of(indices.nulls));
        assert forall|i: int|
            0 <= i < indices.len && !null_at(indices.nulls, i) implies #[trigger] asked.values@[i]
            == number_at(*indices, i) by {
            assert(asked@.raw[i] == asked.values@[i]);
            assert(valid_in(indices.bits(), i));
            assert(0 <= index_value(*indices, i) <= usize::MAX);
        }
        assert forall|i: int| 0 <= i < indices.len implies #[trigger] asked.values@[i]
            == position_under(*indices, i) by {
            assert(asked@.raw[i] == asked.values@[i]);
            assert(index_value(*indices, i) == number_at(*indices, i));
        }
    }
}

} // verus!
