//! The types that arrays and batches are declared with.
use std::sync::Arc;
use vstd::prelude::*;

verus! {

/// The integer types.
#[derive(Clone, Copy, Debug, PartialEq, Eq, Structural)]
pub enum IntType {
    Int8,
    Int16,
    Int32,
    Int64,
    UInt8,
    UInt16,
    UInt32,
    UInt64,
}

#[derive(Clone, Copy, Debug, PartialEq, Eq, Structural)]
pub enum TimeUnit {
    Second,
    Millisecond,
    Microsecond,
    Nanosecond,
}

#[derive(Clone, Copy, Debug, PartialEq, Eq, Structural)]
pub enum IntervalUnit {
    YearMonth,
    DayTime,
    MonthDayNano,
}

/// The types whose values are all of one width and stand in one buffer.
#[derive(Debug, PartialEq, Eq)]
pub enum PrimitiveType {
    Int(IntType),
    Float16,
    Float32,
    Float64,
    Date32,
    Date64,
    Time32(TimeUnit),
    Time64(TimeUnit),
    /// A unit, and a time zone where there is one.
    Timestamp(TimeUnit, Option<String>),
    Duration(TimeUnit),
    Interval(IntervalUnit),
    /// A precision and a scale, as in the other decimals.
    Decimal32(u8, i8),
    Decimal64(u8, i8),
    Decimal128(u8, i8),
    Decimal256(u8, i8),
}

#[derive(Clone, Copy, Debug, PartialEq, Eq, Structural)]
pub enum UnionMode {
    Sparse,
    Dense,
}

/// The type of an array.
#[derive(Debug, PartialEq, Eq)]
pub enum DataType {
    Null,
    Boolean,
    Primitive(PrimitiveType),
    Utf8,
    LargeUtf8,
    Utf8View,
    Binary,
    LargeBinary,
    BinaryView,
    /// The number of bytes in each value.
    FixedSizeBinary(i32),
    List(Arc<Field>),
    LargeList(Arc<Field>),
    ListView(Arc<Field>),
    LargeListView(Arc<Field>),
    /// The number of items in each list follows the items' field.
    FixedSizeList(Arc<Field>, i32),
    Struct(Vec<Arc<Field>>),
    /// Each field under its type id.
    Union(Vec<(i8, Arc<Field>)>, UnionMode),
    /// The type of the keys, and that of the dictionary.
    Dictionary(Arc<DataType>, Arc<DataType>),
    /// The field of the entries, and whether the keys are sorted.
    MapType(Arc<Field>, bool),
    /// The field of the run ends, and that of the values.
    RunEndEncoded(Arc<Field>, Arc<Field>),
}

/// A named and typed column, or a child of a nested type.
#[derive(Debug, PartialEq, Eq)]
pub struct Field {
    pub name: String,
    pub data_type: Arc<DataType>,
    pub nullable: bool,
    /// An id for the dictionary of a field that is one; zero where it has none.
    pub dict_id: i64,
    /// Whether such a dictionary is ordered.
    pub dict_is_ordered: bool,
    pub metadata: Vec<(String, String)>,
}

impl IntType {
    /// The width in bytes.
    pub open spec fn width(self) -> int {
        match self {
            IntType::Int8 | IntType::UInt8 => 1,
            IntType::Int16 | IntType::UInt16 => 2,
            IntType::Int32 | IntType::UInt32 => 4,
            IntType::Int64 | IntType::UInt64 => 8,
        }
    }

    /// The number of values that a signed type has on each side of zero; none for the others.
    pub open spec fn half_range(self) -> int {
        match self {
            IntType::Int8 => 0x80,
            IntType::Int16 => 0x8000,
            IntType::Int32 => 0x8000_0000,
            IntType::Int64 => 0x8000_0000_0000_0000,
            _ => 0,
        }
    }

    /// The integer that a bit pattern stands for, in two's complement where the type is signed.
    pub open spec fn value_of(self, bits: int) -> int {
        if self.half_range() > 0 && bits >= self.half_range() {
            bits - 2 * self.half_range()
        } else {
            bits
        }
    }

    /// The largest value.
    pub open spec fn max_value(self) -> int {
        match self {
            IntType::Int8 => 0x7f,
            IntType::Int16 => 0x7fff,
            IntType::Int32 => 0x7fff_ffff,
            IntType::Int64 => 0x7fff_ffff_ffff_ffff,
            IntType::UInt8 => 0xff,
            IntType::UInt16 => 0xffff,
            IntType::UInt32 => 0xffff_ffff,
            IntType::UInt64 => 0xffff_ffff_ffff_ffff,
        }
    }

    /// Computes [`IntType::value_of`].
    pub fn decode(self, bits: u64) -> (value: i128)
        requires
            self.half_range() > 0 ==> bits < 2 * self.half_range(),
        ensures
            value == self.value_of(bits as int),
    {
        let half: u64 = match self {
            IntType::Int8 => 0x80,
            IntType::Int16 => 0x8000,
            IntType::Int32 => 0x8000_0000,
            IntType::Int64 => 0x8000_0000_0000_0000,
            _ => 0,
        };
        if half > 0 && bits >= half {
            bits as i128 - 2 * (half as i128)
        } else {
            bits as i128
        }
    }

    /// Computes [`IntType::max_value`].
    pub fn largest(self) -> (value: u64)
        ensures
            value == self.max_value(),
    {
        match self {
            IntType::Int8 => 0x7f,
            IntType::Int16 => 0x7fff,
            IntType::Int32 => 0x7fff_ffff,
            IntType::Int64 => 0x7fff_ffff_ffff_ffff,
            IntType::UInt8 => 0xff,
            IntType::UInt16 => 0xffff,
            IntType::UInt32 => 0xffff_ffff,
            IntType::UInt64 => 0xffff_ffff_ffff_ffff,
        }
    }
}

impl PrimitiveType {
    /// The width of a value in bytes.
    pub open spec fn width(self) -> int {
        match self {
            PrimitiveType::Int(t) => t.width(),
            PrimitiveType::Float16 => 2,
            PrimitiveType::Float32 | PrimitiveType::Date32 | PrimitiveType::Time32(_)
            | PrimitiveType::Decimal32(_, _) => 4,
            PrimitiveType::Float64 | PrimitiveType::Date64 | PrimitiveType::Time64(_)
            | PrimitiveType::Timestamp(_, _) | PrimitiveType::Duration(_)
            | PrimitiveType::Decimal64(_, _) => 8,
            PrimitiveType::Interval(IntervalUnit::YearMonth) => 4,
            PrimitiveType::Interval(IntervalUnit::DayTime) => 8,
            PrimitiveType::Interval(IntervalUnit::MonthDayNano) => 16,
            PrimitiveType::Decimal128(_, _) => 16,
            PrimitiveType::Decimal256(_, _) => 32,
        }
    }
}

/// A view type stands at `dt` or in what it nests, dictionaries and run-end encoded values
/// excepted: a dictionary is shared as a whole, and run values are compacted when they are taken.
pub open spec fn contains_views(dt: DataType) -> bool
    decreases dt,
{
    match dt {
        DataType::Utf8View | DataType::BinaryView => true,
        DataType::Struct(fields) => exists|k: int|
            0 <= k < fields@.len() && contains_views(*(#[trigger] fields@[k]).data_type),
        DataType::List(f) => contains_views(*f.data_type),
        DataType::LargeList(f) => contains_views(*f.data_type),
        DataType::ListView(f) => contains_views(*f.data_type),
        DataType::LargeListView(f) => contains_views(*f.data_type),
        DataType::FixedSizeList(f, _) => contains_views(*f.data_type),
        DataType::MapType(f, _) => contains_views(*f.data_type),
        DataType::Union(fields, _) => exists|k: int|
            0 <= k < fields@.len() && contains_views(*(#[trigger] fields@[k]).1.data_type),
        _ => false,
    }
}

/// Whether values of type `dt` hold views that compaction can reach.
pub fn type_contains_views(dt: &DataType) -> (found: bool)
    ensures
        found == contains_views(*dt),
    decreases dt,
{
    match dt {
        DataType::Utf8View | DataType::BinaryView => true,
        DataType::Struct(fields) => {
            let mut k: usize = 0;
            while k < fields.len()
                invariant
                    0 <= k <= fields@.len(),
                    *dt == DataType::Struct(*fields),
                    forall|j: int|
                        0 <= j < k ==> !contains_views(*(#[trigger] fields@[j]).data_type),
                decreases fields@.len() - k,
            {
                assert(decreases_to!(*dt => dt->Struct_0@[k as int]));
                if type_contains_views(&fields[k].data_type) {
                    return true;
                }
                k += 1;
            }
            false
        },
        DataType::List(f) => type_contains_views(&f.data_type),
        DataType::LargeList(f) => type_contains_views(&f.data_type),
        DataType::ListView(f) => type_contains_views(&f.data_type),
        DataType::LargeListView(f) => type_contains_views(&f.data_type),
        DataType::FixedSizeList(f, _) => type_contains_views(&f.data_type),
        DataType::MapType(f, _) => type_contains_views(&f.data_type),
        DataType::Union(fields, mode) => {
            let mut k: usize = 0;
            while k < fields.len()
                invariant
                    0 <= k <= fields@.len(),
                    *dt == DataType::Union(*fields, *mode),
                    forall|j: int|
                        0 <= j < k ==> !contains_views(*(#[trigger] fields@[j]).1.data_type),
                decreases fields@.len() - k,
            {
                assert(decreases_to!(*dt => dt->Union_0@[k as int]));
                if type_contains_views(&fields[k].1.data_type) {
                    return true;
                }
                k += 1;
            }
            false
        },
        _ => false,
    }
}

} // verus!
