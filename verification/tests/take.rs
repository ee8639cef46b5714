//! Selections from arrays of each kind.
use arrow_buffer::{BooleanBuffer, Buffer, NullBuffer};
use arrow_take::array::{Array, ArrayRef, Native, Offsets, Values};
use arrow_take::datatype::{
    DataType, Field, IntType, IntervalUnit, PrimitiveType, TimeUnit, UnionMode,
};
use arrow_take::error::TakeError;
use arrow_take::fixed::take_fixed_size_binary;
use arrow_take::indices::{to_indices, Indices};
use arrow_take::list::{take_fixed_size_list, take_value_indices_from_fixed_size_list};
use arrow_take::run::take_run;
use arrow_take::take::{take, take_impl, TakeOptions};
use std::sync::Arc;

/// What a slot holds.
#[derive(Clone, Debug, PartialEq)]
enum Cell {
    Null,
    Native(u128, u128),
    Bool(bool),
    Bytes(Vec<u8>),
    List(Vec<Cell>),
    Struct(Vec<Cell>),
    Union(i8, Box<Cell>),
}

fn native_at(values: &Native, i: usize) -> (u128, u128) {
    match values {
        Native::W8(v) => (v[i] as u128, 0),
        Native::W16(v) => (v[i] as u128, 0),
        Native::W32(v) => (v[i] as u128, 0),
        Native::W64(v) => (v[i] as u128, 0),
        Native::W128(v) => (v[i], 0),
        Native::W256(v) => v[i],
    }
}

fn view_value(view: u128, buffers: &[Buffer]) -> Vec<u8> {
    let len = (view as u32) as usize;
    if len <= 12 {
        view.to_le_bytes()[4..4 + len].to_vec()
    } else {
        let buffer = (view >> 64) as u32 as usize;
        let offset = (view >> 96) as u32 as usize;
        buffers[buffer].as_slice()[offset..offset + len].to_vec()
    }
}

fn cell(a: &Array, i: usize) -> Cell {
    if let Some(nulls) = &a.nulls {
        if !nulls.is_valid(i) {
            return Cell::Null;
        }
    }
    match &a.values {
        Values::Null => Cell::Null,
        Values::Native(v) => {
            let (low, high) = native_at(v, i);
            Cell::Native(low, high)
        }
        Values::Boolean(b) => Cell::Bool(b.value(i)),
        Values::Bytes { offsets, data } => {
            Cell::Bytes(data[offsets.get(i) as usize..offsets.get(i + 1) as usize].to_vec())
        }
        Values::Views { views, buffers } => Cell::Bytes(view_value(views[i], buffers)),
        Values::List { offsets, child } => {
            cells_from(child, offsets.get(i) as usize, offsets.get(i + 1) as usize)
        }
        Values::ListView { offsets, sizes, child } => {
            let start = offsets.get(i) as usize;
            cells_from(child, start, start + sizes.get(i) as usize)
        }
        Values::FixedSizeList { size, child } => cells_from(child, i * size, i * size + size),
        Values::FixedSizeBinary { size, data } => {
            Cell::Bytes(data[i * size..i * size + size].to_vec())
        }
        Values::Struct { columns } => Cell::Struct(columns.iter().map(|c| cell(c, i)).collect()),
        Values::Dictionary { key_type, keys, dictionary } => {
            let key = key_type.decode(native_at(keys, i).0 as u64) as usize;
            cell(dictionary, key)
        }
        Values::Runs { ends, offset, values, .. } => {
            let at = (offset + i) as i64;
            let run = ends.iter().position(|end| at < *end).unwrap();
            cell(values, run)
        }
        Values::Union { type_ids, slots, children } => {
            let id = type_ids[i];
            let k = match &*a.data_type {
                DataType::Union(fields, _) => fields.iter().position(|f| f.0 == id).unwrap(),
                _ => unreachable!(),
            };
            let slot = match slots {
                Some(s) => s[i] as usize,
                None => i,
            };
            Cell::Union(id, Box::new(cell(&children[k], slot)))
        }
    }
}

fn cells_from(child: &Array, start: usize, end: usize) -> Cell {
    Cell::List((start..end).map(|k| cell(child, k)).collect())
}

fn rows(a: &Array) -> Vec<Cell> {
    (0..a.len).map(|i| cell(a, i)).collect()
}

fn assert_same(actual: &Array, expected: &Array) {
    assert_eq!(actual.data_type, expected.data_type);
    assert_eq!(actual.len, expected.len);
    assert_eq!(rows(actual), rows(expected));
}

fn null_count(a: &Array) -> usize {
    match &a.nulls {
        Some(n) => n.null_count(),
        None => 0,
    }
}

fn nulls_of<T>(data: &[Option<T>]) -> Option<NullBuffer> {
    if data.iter().all(|v| v.is_some()) {
        None
    } else {
        Some(NullBuffer::from(data.iter().map(|v| v.is_some()).collect::<Vec<bool>>()))
    }
}

fn native(width: usize, data: &[i128]) -> Native {
    match width {
        1 => Native::W8(data.iter().map(|v| *v as u8).collect()),
        2 => Native::W16(data.iter().map(|v| *v as u16).collect()),
        4 => Native::W32(data.iter().map(|v| *v as u32).collect()),
        8 => Native::W64(data.iter().map(|v| *v as u64).collect()),
        16 => Native::W128(data.iter().map(|v| *v as u128).collect()),
        _ => unreachable!(),
    }
}

fn primitive(kind: PrimitiveType, width: usize, data: &[Option<i128>]) -> Array {
    let values: Vec<i128> = data.iter().map(|v| v.unwrap_or(0)).collect();
    Array {
        data_type: Arc::new(DataType::Primitive(kind)),
        len: data.len(),
        nulls: nulls_of(data),
        values: Values::Native(native(width, &values)),
    }
}

fn int_width(kind: IntType) -> usize {
    match kind {
        IntType::Int8 | IntType::UInt8 => 1,
        IntType::Int16 | IntType::UInt16 => 2,
        IntType::Int32 | IntType::UInt32 => 4,
        IntType::Int64 | IntType::UInt64 => 8,
    }
}

fn ints(kind: IntType, data: &[Option<i128>]) -> Array {
    primitive(PrimitiveType::Int(kind), int_width(kind), data)
}

fn some(data: &[i128]) -> Vec<Option<i128>> {
    data.iter().map(|v| Some(*v)).collect()
}

fn uint32(data: &[Option<i128>]) -> Array {
    ints(IntType::UInt32, data)
}

fn int32(data: &[Option<i128>]) -> Array {
    ints(IntType::Int32, data)
}

fn booleans(data: &[Option<bool>]) -> Array {
    Array {
        data_type: Arc::new(DataType::Boolean),
        len: data.len(),
        nulls: nulls_of(data),
        values: Values::Boolean(BooleanBuffer::from(
            data.iter().map(|v| v.unwrap_or(false)).collect::<Vec<bool>>(),
        )),
    }
}

fn bytes(data_type: DataType, large: bool, data: &[Option<&str>]) -> Array {
    let mut bytes: Vec<u8> = Vec::new();
    let mut ends: Vec<usize> = vec![0];
    for value in data {
        bytes.extend_from_slice(value.unwrap_or("").as_bytes());
        ends.push(bytes.len());
    }
    Array {
        data_type: Arc::new(data_type),
        len: data.len(),
        nulls: nulls_of(data),
        values: Values::Bytes { offsets: offsets(large, &ends), data: bytes },
    }
}

fn strings(data: &[Option<&str>]) -> Array {
    bytes(DataType::Utf8, false, data)
}

fn offsets(large: bool, ends: &[usize]) -> Offsets {
    if large {
        Offsets::Large(ends.iter().map(|e| *e as i64).collect())
    } else {
        Offsets::Small(ends.iter().map(|e| *e as i32).collect())
    }
}

fn field(name: &str, data_type: Arc<DataType>, nullable: bool) -> Arc<Field> {
    Arc::new(Field {
        name: name.to_string(),
        data_type,
        nullable,
        dict_id: 0,
        dict_is_ordered: false,
        metadata: vec![],
    })
}

fn list_type(large: bool, item: Arc<DataType>, nullable: bool) -> DataType {
    if large {
        DataType::LargeList(field("item", item, nullable))
    } else {
        DataType::List(field("item", item, nullable))
    }
}

fn list(large: bool, ends: &[usize], nulls: Option<NullBuffer>, child: Array) -> Array {
    Array {
        data_type: Arc::new(list_type(large, child.data_type.clone(), true)),
        len: ends.len() - 1,
        nulls,
        values: Values::List { offsets: offsets(large, ends), child: Arc::new(child) },
    }
}

fn child_of(a: &Array) -> ArrayRef {
    match &a.values {
        Values::List { child, .. } => child.clone(),
        Values::ListView { child, .. } => child.clone(),
        Values::FixedSizeList { child, .. } => child.clone(),
        _ => unreachable!(),
    }
}

fn list_offsets(a: &Array) -> Vec<i64> {
    match &a.values {
        Values::List { offsets, .. } => (0..a.len + 1).map(|i| offsets.get(i)).collect(),
        _ => unreachable!(),
    }
}

fn check(values: &Array, indices: &Array, expected: &Array) {
    let taken = take(values, indices, None).unwrap();
    assert_same(&taken, expected);
}

fn check_primitive(
    kind: fn() -> PrimitiveType,
    width: usize,
    data: &[Option<i128>],
    indices: &Array,
    expected: &[Option<i128>],
) {
    check(
        &primitive(kind(), width, data),
        indices,
        &primitive(kind(), width, expected),
    );
}

fn structs(data: &[Option<(Option<bool>, Option<i128>)>]) -> Array {
    let a: Vec<Option<bool>> = data.iter().map(|v| v.and_then(|v| v.0)).collect();
    let b: Vec<Option<i128>> = data.iter().map(|v| v.and_then(|v| v.1)).collect();
    let a = booleans(&a);
    let b = int32(&b);
    Array {
        data_type: Arc::new(DataType::Struct(vec![
            field("a", a.data_type.clone(), true),
            field("b", b.data_type.clone(), true),
        ])),
        len: data.len(),
        nulls: nulls_of(data),
        values: Values::Struct { columns: vec![Arc::new(a), Arc::new(b)] },
    }
}

#[test]
fn test_take_decimal128_non_null_indices() {
    let index = uint32(&some(&[0, 5, 3, 1, 4, 2]));
    check_primitive(
        || PrimitiveType::Decimal128(10, 5),
        16,
        &[None, Some(3), Some(5), Some(2), Some(3), None],
        &index,
        &[None, None, Some(2), Some(3), Some(3), Some(5)],
    );
}

#[test]
fn test_take_decimal128() {
    let index = uint32(&[Some(3), None, Some(1), Some(3), Some(2)]);
    check_primitive(
        || PrimitiveType::Decimal128(10, 5),
        16,
        &[Some(0), Some(1), Some(2), Some(3), Some(4)],
        &index,
        &[Some(3), None, Some(1), Some(3), Some(2)],
    );
}

fn int8_type() -> PrimitiveType {
    PrimitiveType::Int(IntType::Int8)
}

fn int64_type() -> PrimitiveType {
    PrimitiveType::Int(IntType::Int64)
}

#[test]
fn test_take_primitive_non_null_indices() {
    let index = uint32(&some(&[0, 5, 3, 1, 4, 2]));
    check_primitive(
        int8_type,
        1,
        &[None, Some(3), Some(5), Some(2), Some(3), None],
        &index,
        &[None, None, Some(2), Some(3), Some(3), Some(5)],
    );
}

#[test]
fn test_take_primitive_non_null_values() {
    let index = uint32(&[Some(3), None, Some(1), Some(3), Some(2)]);
    check_primitive(
        int8_type,
        1,
        &[Some(0), Some(1), Some(2), Some(3), Some(4)],
        &index,
        &[Some(3), None, Some(1), Some(3), Some(2)],
    );
}

#[test]
fn test_take_primitive_non_null() {
    let index = uint32(&some(&[0, 5, 3, 1, 4, 2]));
    check_primitive(
        int8_type,
        1,
        &[Some(0), Some(3), Some(5), Some(2), Some(3), Some(1)],
        &index,
        &[Some(0), Some(1), Some(2), Some(3), Some(3), Some(5)],
    );
}

/// Indices whose bitmap starts in the middle of a longer one.
fn sliced_indices() -> Array {
    let whole = uint32(&[Some(0), Some(1), Some(2), Some(3), None, None]);
    let index = Array {
        data_type: whole.data_type.clone(),
        len: 4,
        nulls: Some(whole.nulls.unwrap().slice(2, 4)),
        values: Values::Native(Native::W32(vec![2, 3, 0, 0])),
    };
    assert_same(&index, &uint32(&[Some(2), Some(3), None, None]));
    index
}

#[test]
fn test_take_primitive_nullable_indices_non_null_values_with_offset() {
    let index = sliced_indices();
    check_primitive(
        int64_type,
        8,
        &some(&[0, 10, 20, 30, 40, 50]),
        &index,
        &[Some(20), Some(30), None, None],
    );
}

#[test]
fn test_take_primitive_nullable_indices_nullable_values_with_offset() {
    let index = sliced_indices();
    check_primitive(
        int64_type,
        8,
        &[None, None, Some(20), Some(30), Some(40), Some(50)],
        &index,
        &[Some(20), Some(30), None, None],
    );
}

#[test]
fn test_take_primitive() {
    let index = uint32(&[Some(3), None, Some(1), Some(3), Some(2)]);

    let data = [Some(0), None, Some(2), Some(3), None];
    let expected = [Some(3), None, None, Some(3), Some(2)];
    for kind in [
        IntType::Int8,
        IntType::Int16,
        IntType::Int32,
        IntType::Int64,
        IntType::UInt8,
        IntType::UInt16,
        IntType::UInt32,
    ] {
        check(&ints(kind, &data), &index, &ints(kind, &expected));
    }

    let data = [Some(0), None, Some(2), Some(-15), None];
    let expected = [Some(-15), None, None, Some(-15), Some(2)];
    check_primitive(int64_type, 8, &data, &index, &expected);
    check_primitive(
        || PrimitiveType::Interval(IntervalUnit::YearMonth),
        4,
        &data,
        &index,
        &expected,
    );

    // A day count below a millisecond count.
    let day_time = |days: i32| Some(days as u32 as i128);
    check_primitive(
        || PrimitiveType::Interval(IntervalUnit::DayTime),
        8,
        &[day_time(0), None, day_time(2), day_time(-15), None],
        &index,
        &[day_time(-15), None, None, day_time(-15), day_time(2)],
    );

    // A month count below days and nanoseconds.
    let month_day_nano = |months: i32| Some(months as u32 as i128);
    check_primitive(
        || PrimitiveType::Interval(IntervalUnit::MonthDayNano),
        16,
        &[month_day_nano(0), None, month_day_nano(2), month_day_nano(-15), None],
        &index,
        &[
            month_day_nano(-15),
            None,
            None,
            month_day_nano(-15),
            month_day_nano(2),
        ],
    );

    check_primitive(|| PrimitiveType::Duration(TimeUnit::Second), 8, &data, &index, &expected);
    check_primitive(
        || PrimitiveType::Duration(TimeUnit::Millisecond),
        8,
        &data,
        &index,
        &expected,
    );
    check_primitive(
        || PrimitiveType::Duration(TimeUnit::Microsecond),
        8,
        &data,
        &index,
        &expected,
    );
    check_primitive(
        || PrimitiveType::Duration(TimeUnit::Nanosecond),
        8,
        &data,
        &index,
        &expected,
    );

    check_float32(&index);
    let float = |v: f64| Some(v.to_bits() as i128);
    check_primitive(
        || PrimitiveType::Float64,
        8,
        &[float(0.0), None, float(2.21), float(-3.1), None],
        &index,
        &[float(-3.1), None, None, float(-3.1), float(2.21)],
    );
}

fn check_float32(index: &Array) {
    let float = |v: f32| Some(v.to_bits() as i128);
    check_primitive(
        || PrimitiveType::Float32,
        4,
        &[float(0.0), None, float(2.21), float(-3.1), None],
        index,
        &[float(-3.1), None, None, float(-3.1), float(2.21)],
    );
}

#[test]
fn test_take_preserve_timezone() {
    let index = ints(IntType::Int64, &[Some(0), None]);
    let input = primitive(
        PrimitiveType::Timestamp(TimeUnit::Nanosecond, Some("UTC".to_string())),
        8,
        &some(&[1_639_715_368_000_000_000, 1_639_715_368_000_000_000]),
    );
    let result = take(&input, &index, None).unwrap();
    match &*result.data_type {
        DataType::Primitive(PrimitiveType::Timestamp(TimeUnit::Nanosecond, zone)) => {
            assert_eq!(zone.clone(), Some("UTC".to_string()))
        }
        _ => panic!(),
    }
}

#[test]
fn test_take_impl_primitive_with_int64_indices() {
    let index = ints(IntType::Int64, &[Some(3), None, Some(1), Some(3), Some(2)]);

    let data = [Some(0), None, Some(2), Some(3), None];
    let expected = [Some(3), None, None, Some(3), Some(2)];
    check(&ints(IntType::Int16, &data), &index, &ints(IntType::Int16, &expected));

    let signed = [Some(0), None, Some(2), Some(-15), None];
    let signed_expected = [Some(-15), None, None, Some(-15), Some(2)];
    check(&ints(IntType::Int64, &signed), &index, &ints(IntType::Int64, &signed_expected));

    check(&ints(IntType::UInt64, &data), &index, &ints(IntType::UInt64, &expected));

    check_primitive(
        || PrimitiveType::Duration(TimeUnit::Millisecond),
        8,
        &signed,
        &index,
        &signed_expected,
    );

    check_float32(&index);
}

#[test]
fn test_take_impl_primitive_with_uint8_indices() {
    let index = ints(IntType::UInt8, &[Some(3), None, Some(1), Some(3), Some(2)]);

    check(
        &ints(IntType::Int16, &[Some(0), None, Some(2), Some(3), None]),
        &index,
        &ints(IntType::Int16, &[Some(3), None, None, Some(3), Some(2)]),
    );

    check_primitive(
        || PrimitiveType::Duration(TimeUnit::Millisecond),
        8,
        &[Some(0), None, Some(2), Some(-15), None],
        &index,
        &[Some(-15), None, None, Some(-15), Some(2)],
    );

    check_float32(&index);
}

#[test]
fn test_take_bool() {
    let index = uint32(&[Some(3), None, Some(1), Some(3), Some(2)]);
    check(
        &booleans(&[Some(false), None, Some(true), Some(false), None]),
        &index,
        &booleans(&[Some(false), None, None, Some(false), Some(true)]),
    );
}

/// Indices whose null slots would be out of bounds.
fn masked_indices() -> Array {
    Array {
        data_type: Arc::new(DataType::Primitive(PrimitiveType::Int(IntType::UInt32))),
        len: 6,
        nulls: Some(NullBuffer::from(vec![false, true, false, true, false, true])),
        values: Values::Native(Native::W32(vec![99, 0, 999, 1, 9999, 2])),
    }
}

#[test]
fn test_take_bool_nullable_index() {
    check(
        &booleans(&[Some(true), None, Some(false)]),
        &masked_indices(),
        &booleans(&[None, Some(true), None, None, None, Some(false)]),
    );
}

#[test]
fn test_take_bool_nullable_index_nonnull_values() {
    check(
        &booleans(&[Some(true), Some(true), Some(false)]),
        &masked_indices(),
        &booleans(&[None, Some(true), None, Some(true), None, Some(false)]),
    );
}

#[test]
fn test_take_bool_with_offset() {
    let whole = uint32(&[Some(3), None, Some(1), Some(3), Some(2), None]);
    let index = Array {
        data_type: whole.data_type.clone(),
        len: 4,
        nulls: Some(whole.nulls.unwrap().slice(2, 4)),
        values: Values::Native(Native::W32(vec![1, 3, 2, 0])),
    };
    check(
        &booleans(&[Some(false), None, Some(true), Some(false), None]),
        &index,
        &booleans(&[None, Some(false), Some(true), None]),
    );
}

fn check_string(make: fn(&[Option<&str>]) -> Array) {
    let index = uint32(&[Some(3), None, Some(1), Some(3), Some(4)]);
    let array = make(&[Some("one"), None, Some("three"), Some("four"), Some("five")]);
    let actual = take(&array, &index, None).unwrap();
    assert_eq!(actual.len, index.len);
    let expected = make(&[Some("four"), None, None, Some("four"), Some("five")]);
    assert_same(&actual, &expected);
}

#[test]
fn test_take_string() {
    check_string(strings)
}

#[test]
fn test_take_large_string() {
    check_string(|data| bytes(DataType::LargeUtf8, true, data))
}

#[test]
fn take_binary() {
    check_string(|data| bytes(DataType::Binary, false, data));
    check_string(|data| bytes(DataType::LargeBinary, true, data));
}

#[test]
fn test_take_slice_string() {
    let values = strings(&[Some("hello"), None, Some("world"), None, Some("hi")]);
    let whole = int32(&[Some(0), Some(1), None, Some(0), Some(2)]);
    let indices = Array {
        data_type: whole.data_type.clone(),
        len: 4,
        nulls: Some(whole.nulls.unwrap().slice(1, 4)),
        values: Values::Native(Native::W32(vec![1, 0, 0, 2])),
    };
    let expected = strings(&[None, None, Some("hello"), Some("world")]);
    check(&values, &indices, &expected);
}

fn views(data_type: DataType, data: &[Option<&str>]) -> Array {
    let mut buffer: Vec<u8> = Vec::new();
    let mut views: Vec<u128> = Vec::new();
    for value in data {
        let value = value.unwrap_or("").as_bytes();
        let mut view = [0u8; 16];
        view[..4].copy_from_slice(&(value.len() as u32).to_le_bytes());
        if value.len() <= 12 {
            view[4..4 + value.len()].copy_from_slice(value);
        } else {
            view[4..8].copy_from_slice(&value[..4]);
            view[12..].copy_from_slice(&(buffer.len() as u32).to_le_bytes());
            buffer.extend_from_slice(value);
        }
        views.push(u128::from_le_bytes(view));
    }
    let buffers = if buffer.is_empty() { vec![] } else { vec![Buffer::from_vec(buffer)] };
    Array {
        data_type: Arc::new(data_type),
        len: data.len(),
        nulls: nulls_of(data),
        values: Values::Views { views, buffers },
    }
}

fn check_byte_view(data_type: fn() -> DataType) {
    let index = uint32(&[Some(3), None, Some(1), Some(3), Some(4), Some(2)]);
    let array = views(
        data_type(),
        &[
            Some("hello"),
            Some("world"),
            None,
            Some("large payload over 12 bytes"),
            Some("lulu"),
        ],
    );
    let actual = take(&array, &index, None).unwrap();
    assert_eq!(actual.len, index.len);
    let expected = views(
        data_type(),
        &[
            Some("large payload over 12 bytes"),
            None,
            Some("world"),
            Some("large payload over 12 bytes"),
            Some("lulu"),
            None,
        ],
    );
    assert_same(&actual, &expected);
}

#[test]
fn test_take_string_view() {
    check_byte_view(|| DataType::Utf8View)
}

#[test]
fn test_take_binary_view() {
    check_byte_view(|| DataType::BinaryView)
}

fn check_list(large: bool) {
    let child = int32(&some(&[0, 0, 0, -1, -2, -1, 2, 3]));
    let array = list(large, &[0, 3, 6, 6, 8], None, child);
    let index = uint32(&[Some(3), None, Some(1), Some(2), Some(0)]);
    let taken = take(&array, &index, None).unwrap();

    let child = int32(&some(&[2, 3, -1, -2, -1, 0, 0, 0]));
    let expected = list(large, &[0, 2, 2, 5, 5, 8], index.nulls.clone(), child);
    assert_same(&taken, &expected);
    assert_eq!(list_offsets(&taken), vec![0, 2, 2, 5, 5, 8]);
    assert_same(&child_of(&taken), &child_of(&expected));
}

fn check_list_with_value_nulls(large: bool) {
    let child = int32(&[
        Some(0),
        None,
        Some(0),
        Some(-1),
        Some(-2),
        Some(3),
        None,
        Some(5),
        None,
    ]);
    let nulls = Some(NullBuffer::new_valid(4));
    let array = list(large, &[0, 3, 6, 7, 9], nulls, child);
    let index = uint32(&[Some(2), None, Some(1), Some(3), Some(0)]);
    let taken = take(&array, &index, None).unwrap();

    let child = int32(&[
        None,
        Some(-1),
        Some(-2),
        Some(3),
        Some(5),
        None,
        Some(0),
        None,
        Some(0),
    ]);
    let expected = list(large, &[0, 1, 1, 4, 6, 9], index.nulls.clone(), child);
    assert_same(&taken, &expected);
    assert_eq!(list_offsets(&taken), vec![0, 1, 1, 4, 6, 9]);
    assert_same(&child_of(&taken), &child_of(&expected));
}

fn check_list_with_nulls(large: bool) {
    let child = int32(&[
        Some(0),
        None,
        Some(0),
        Some(-1),
        Some(-2),
        Some(3),
        Some(5),
        None,
    ]);
    let nulls = Some(NullBuffer::from(vec![true, true, false, true]));
    let array = list(large, &[0, 3, 6, 6, 8], nulls, child);
    let index = uint32(&[Some(2), None, Some(1), Some(3), Some(0)]);
    let taken = take(&array, &index, None).unwrap();

    let child = int32(&[
        Some(-1),
        Some(-2),
        Some(3),
        Some(5),
        None,
        Some(0),
        None,
        Some(0),
    ]);
    let nulls = Some(NullBuffer::from(vec![false, false, true, true, true]));
    let expected = list(large, &[0, 0, 0, 3, 5, 8], nulls, child);
    assert_same(&taken, &expected);
    assert_eq!(list_offsets(&taken), vec![0, 0, 0, 3, 5, 8]);
    assert_same(&child_of(&taken), &child_of(&expected));
}

#[test]
fn test_take_list() {
    check_list(false);
}

#[test]
fn test_take_large_list() {
    check_list(true);
}

#[test]
fn test_take_list_with_value_nulls() {
    check_list_with_value_nulls(false);
}

#[test]
fn test_take_large_list_with_value_nulls() {
    check_list_with_value_nulls(true);
}

#[test]
fn test_test_take_list_with_nulls() {
    check_list_with_nulls(false);
}

#[test]
fn test_test_take_large_list_with_nulls() {
    check_list_with_nulls(true);
}

type Items = Option<Vec<Option<i128>>>;

fn list_view(large: bool, data: &[Items], from: usize, len: usize) -> Array {
    let mut items: Vec<Option<i128>> = Vec::new();
    let mut starts: Vec<usize> = Vec::new();
    let mut sizes: Vec<usize> = Vec::new();
    for value in data {
        let value = value.clone().unwrap_or_default();
        starts.push(items.len());
        sizes.push(value.len());
        items.extend(value);
    }
    let child = ints(IntType::Int8, &items);
    let item = field("item", child.data_type.clone(), true);
    let data_type = if large { DataType::LargeListView(item) } else { DataType::ListView(item) };
    Array {
        data_type: Arc::new(data_type),
        len,
        nulls: nulls_of(data).map(|n| n.slice(from, len)),
        values: Values::ListView {
            offsets: offsets(large, &starts[from..from + len]),
            sizes: offsets(large, &sizes[from..from + len]),
            child: Arc::new(child),
        },
    }
}

fn check_list_view(
    values: &[Items],
    slice: (usize, usize),
    index: &[Option<i128>],
    expected: &[Items],
) {
    for large in [false, true] {
        let array = list_view(large, values, slice.0, slice.1);
        let indices = ints(IntType::UInt64, index);
        let taken = take(&array, &indices, None).unwrap();
        assert_same(&taken, &list_view(large, expected, 0, expected.len()));
    }
}

#[test]
fn test_test_take_list_view_reversed() {
    check_list_view(
        &[
            Some(vec![Some(1), None, Some(3)]),
            None,
            Some(vec![Some(7), Some(8), None]),
        ],
        (0, 3),
        &[Some(2), Some(1), Some(0)],
        &[
            Some(vec![Some(7), Some(8), None]),
            None,
            Some(vec![Some(1), None, Some(3)]),
        ],
    )
}

#[test]
fn test_take_list_view_null_indices() {
    check_list_view(
        &[
            Some(vec![Some(1), None, Some(3)]),
            None,
            Some(vec![Some(7), Some(8), None]),
        ],
        (0, 3),
        &[None, Some(0), None],
        &[None, Some(vec![Some(1), None, Some(3)]), None],
    )
}

#[test]
fn test_take_list_view_null_values() {
    check_list_view(
        &[
            Some(vec![Some(1), None, Some(3)]),
            None,
            Some(vec![Some(7), Some(8), None]),
        ],
        (0, 3),
        &[Some(1), Some(1), Some(1), None, None],
        &[None, None, None, None, None],
    )
}

#[test]
fn test_take_list_view_sliced() {
    check_list_view(
        &[
            Some(vec![Some(1)]),
            None,
            None,
            Some(vec![Some(2), Some(3)]),
            Some(vec![Some(4), Some(5)]),
            None,
        ],
        (2, 4),
        &[Some(0), Some(3), None, Some(1), Some(2)],
        &[
            None,
            None,
            None,
            Some(vec![Some(2), Some(3)]),
            Some(vec![Some(4), Some(5)]),
        ],
    )
}

fn fixed_size_list(kind: IntType, size: usize, data: &[Items]) -> Array {
    let mut items: Vec<Option<i128>> = Vec::new();
    for value in data {
        match value {
            Some(v) => items.extend(v.clone()),
            None => items.extend(vec![None; size]),
        }
    }
    let child = ints(kind, &items);
    Array {
        data_type: Arc::new(DataType::FixedSizeList(
            field("item", child.data_type.clone(), true),
            size as i32,
        )),
        len: data.len(),
        nulls: nulls_of(data),
        values: Values::FixedSizeList { size, child: Arc::new(child) },
    }
}

fn check_fixed_size_list(
    kind: IntType,
    size: usize,
    data: &[Items],
    index: Vec<usize>,
    expected: &[Items],
) {
    let array = fixed_size_list(kind, size, data);
    let indices = Indices::all_of(index);
    let taken = take_fixed_size_list(&array, size, &child_of(&array), &indices).unwrap();
    assert_same(&taken, &fixed_size_list(kind, size, expected));
}

#[test]
fn test_take_fixed_size_list() {
    check_fixed_size_list(
        IntType::Int32,
        3,
        &[
            Some(vec![None, Some(1), Some(2)]),
            Some(vec![Some(3), Some(4), None]),
            Some(vec![Some(6), Some(7), Some(8)]),
        ],
        vec![2, 1, 0],
        &[
            Some(vec![Some(6), Some(7), Some(8)]),
            Some(vec![Some(3), Some(4), None]),
            Some(vec![None, Some(1), Some(2)]),
        ],
    );

    check_fixed_size_list(
        IntType::UInt8,
        1,
        &[
            Some(vec![Some(1)]),
            Some(vec![Some(2)]),
            Some(vec![Some(3)]),
            Some(vec![Some(4)]),
            Some(vec![Some(5)]),
            Some(vec![Some(6)]),
            Some(vec![Some(7)]),
            Some(vec![Some(8)]),
        ],
        vec![2, 7, 0],
        &[Some(vec![Some(3)]), Some(vec![Some(8)]), Some(vec![Some(1)])],
    );

    check_fixed_size_list(
        IntType::UInt64,
        3,
        &[
            Some(vec![Some(10), Some(11), Some(12)]),
            Some(vec![Some(13), Some(14), Some(15)]),
            None,
            Some(vec![Some(16), Some(17), Some(18)]),
        ],
        vec![3, 2, 1, 2, 0],
        &[
            Some(vec![Some(16), Some(17), Some(18)]),
            None,
            Some(vec![Some(13), Some(14), Some(15)]),
            None,
            Some(vec![Some(10), Some(11), Some(12)]),
        ],
    );
}

fn fixed_size_binary(size: usize, data: &[&[u8]]) -> Array {
    Array {
        data_type: Arc::new(DataType::FixedSizeBinary(size as i32)),
        len: data.len(),
        nulls: None,
        values: Values::FixedSizeBinary { size, data: data.concat() },
    }
}

fn check_fixed_size_binary(size: usize, data: &[&[u8]]) {
    let array = fixed_size_binary(size, data);
    let buffer = data.concat();
    // The two middle indices are null.
    let indices = to_indices(&uint32(&[Some(0), None, None, Some(3)])).unwrap();
    let result = take_fixed_size_binary(&array, &buffer, size as i32, &indices).unwrap();
    assert_eq!(result.len, 4);
    assert_eq!(null_count(&result), 2);
    assert_eq!(
        result.nulls.as_ref().unwrap().iter().collect::<Vec<_>>(),
        vec![true, false, false, true]
    );
    assert_eq!(
        rows(&result),
        vec![
            Cell::Bytes(data[0].to_vec()),
            Cell::Null,
            Cell::Null,
            Cell::Bytes(data[3].to_vec()),
        ]
    );
}

#[test]
fn test_take_fixed_size_binary_with_nulls_indices() {
    check_fixed_size_binary(
        4,
        &[
            &[0x01, 0x01, 0x01, 0x01],
            &[0x02, 0x02, 0x02, 0x02],
            &[0x03, 0x03, 0x03, 0x03],
            &[0x04, 0x04, 0x04, 0x04],
        ],
    );
}

/// A size that is not handled as an array of bytes takes another path.
#[test]
fn test_take_fixed_size_binary_with_nulls_indices_not_optimized_length() {
    check_fixed_size_binary(
        5,
        &[
            &[0x01, 0x01, 0x01, 0x01, 0x01],
            &[0x02, 0x02, 0x02, 0x02, 0x01],
            &[0x03, 0x03, 0x03, 0x03, 0x01],
            &[0x04, 0x04, 0x04, 0x04, 0x01],
        ],
    );
}

#[test]
fn fixed_size_binary_of_negative_size_is_refused() {
    let array = fixed_size_binary(4, &[&[1, 2, 3, 4]]);
    let indices = Indices::all_of(vec![0]);
    let result = take_fixed_size_binary(&array, &vec![1, 2, 3, 4], -1, &indices);
    let error = result.unwrap_err();
    assert_eq!(error, TakeError::NegativeSize(-1));
    assert_eq!(
        error.message(),
        "Invalid argument error: Cannot convert size '-1' to usize"
    );
}

fn map_array(keys: &[Option<&str>], values: &[i128], ends: &[usize]) -> Array {
    let keys = strings(keys);
    let values = int32(&some(values));
    let entries = Array {
        data_type: Arc::new(DataType::Struct(vec![
            field("keys", keys.data_type.clone(), false),
            field("values", values.data_type.clone(), false),
        ])),
        len: keys.len,
        nulls: None,
        values: Values::Struct { columns: vec![Arc::new(keys), Arc::new(values)] },
    };
    Array {
        data_type: Arc::new(DataType::MapType(
            field("entries", entries.data_type.clone(), false),
            false,
        )),
        len: ends.len() - 1,
        nulls: None,
        values: Values::List { offsets: offsets(false, ends), child: Arc::new(entries) },
    }
}

#[test]
fn test_take_map() {
    let array = map_array(
        &[Some("a"), Some("b"), Some("c"), Some("a")],
        &[1, 2, 3, 4],
        &[0, 3, 4],
    );
    let index = uint32(&some(&[0]));
    let expected = map_array(&[Some("a"), Some("b"), Some("c")], &[1, 2, 3], &[0, 3]);
    check(&array, &index, &expected);
}

fn empty_struct(nulls: NullBuffer) -> Array {
    Array {
        data_type: Arc::new(DataType::Struct(vec![])),
        len: nulls.len(),
        nulls: Some(nulls),
        values: Values::Struct { columns: vec![] },
    }
}

#[test]
fn test_take_struct() {
    let array = structs(&[
        Some((Some(true), Some(42))),
        Some((Some(false), Some(28))),
        Some((Some(false), Some(19))),
        Some((Some(true), Some(31))),
        None,
    ]);
    let index = uint32(&some(&[0, 3, 1, 0, 2, 4]));
    let actual = take(&array, &index, None).unwrap();
    assert_eq!(index.len, actual.len);
    assert_eq!(1, null_count(&actual));
    let expected = structs(&[
        Some((Some(true), Some(42))),
        Some((Some(true), Some(31))),
        Some((Some(false), Some(28))),
        Some((Some(true), Some(42))),
        Some((Some(false), Some(19))),
        None,
    ]);
    assert_same(&actual, &expected);

    let nulls = NullBuffer::from(vec![false, true, false, true, false, true]);
    let index = uint32(&some(&[0, 2, 1, 4]));
    let actual = take(&empty_struct(nulls), &index, None).unwrap();
    let expected = empty_struct(NullBuffer::from(vec![false, false, true, false]));
    assert_same(&actual, &expected);
}

#[test]
fn test_take_struct_with_null_indices() {
    let array = structs(&[
        Some((Some(true), Some(42))),
        Some((Some(false), Some(28))),
        Some((Some(false), Some(19))),
        Some((Some(true), Some(31))),
        None,
    ]);
    let index = uint32(&[None, Some(3), Some(1), None, Some(0), Some(4)]);
    let actual = take(&array, &index, None).unwrap();
    assert_eq!(index.len, actual.len);
    // Two because of the indices, one because of the structs.
    assert_eq!(3, null_count(&actual));
    let expected = structs(&[
        None,
        Some((Some(true), Some(31))),
        Some((Some(false), Some(28))),
        None,
        Some((Some(true), Some(42))),
        None,
    ]);
    assert_same(&actual, &expected);
}

#[test]
fn test_take_out_of_bounds() {
    let index = uint32(&[Some(3), None, Some(1), Some(3), Some(6)]);
    let values = ints(IntType::Int64, &[Some(0), None, Some(2), Some(3), None]);
    let result = take(&values, &index, Some(TakeOptions { check_bounds: true }));
    assert!(result.is_err());
    assert_eq!(result.unwrap_err(), TakeError::OutOfBounds { index: 6, len: 5 });
}

fn null_array(len: usize) -> Array {
    Array { data_type: Arc::new(DataType::Null), len, nulls: None, values: Values::Null }
}

#[test]
fn test_null_array_smaller_than_indices() {
    let indices = uint32(&[Some(0), None, Some(15)]);
    check(&null_array(2), &indices, &null_array(3));
}

#[test]
fn test_null_array_larger_than_indices() {
    let indices = uint32(&[Some(0), None, Some(15)]);
    check(&null_array(5), &indices, &null_array(3));
}

#[test]
fn test_null_array_indices_out_of_bounds() {
    let indices = uint32(&[Some(0), None, Some(15)]);
    let result = take(&null_array(5), &indices, Some(TakeOptions { check_bounds: true }));
    assert_eq!(
        result.unwrap_err().message(),
        "Compute error: Array index out of bounds, cannot get item at index 15 from 5 entries"
    );
}

#[test]
fn test_take_dict() {
    let dictionary = Arc::new(strings(&[Some("foo"), Some("bar"), Some("")]));
    let key_type = IntType::Int16;
    let keys = [Some(0), Some(1), Some(2), None, Some(0), Some(1), Some(1), Some(0)];
    let array = Array {
        data_type: Arc::new(DataType::Dictionary(
            Arc::new(DataType::Primitive(PrimitiveType::Int(key_type))),
            dictionary.data_type.clone(),
        )),
        len: keys.len(),
        nulls: nulls_of(&keys),
        values: Values::Dictionary {
            key_type,
            keys: native(2, &keys.map(|k| k.unwrap_or(0))),
            dictionary: dictionary.clone(),
        },
    };

    let indices = uint32(&[
        Some(0), // first "foo"
        Some(7), // last "foo"
        None,    // null index should return null
        Some(5), // second "bar"
        Some(6), // another "bar"
        Some(2), // empty string
        Some(3), // input is null at this index
    ]);
    let result = take(&array, &indices, None).unwrap();
    match &result.values {
        Values::Dictionary { keys, dictionary: values, .. } => {
            // The dictionary stays the same.
            assert_same(values, &strings(&[Some("foo"), Some("bar"), Some("")]));
            assert!(Arc::ptr_eq(values, &dictionary));
            let expected = [Some(0), Some(0), None, Some(1), Some(1), Some(2), None];
            for (i, key) in expected.iter().enumerate() {
                let valid = result.nulls.as_ref().unwrap().is_valid(i);
                assert_eq!(valid, key.is_some());
                if let Some(key) = key {
                    assert_eq!(native_at(keys, i).0, *key);
                }
            }
        }
        _ => panic!(),
    }
}

fn check_sliced_list(
    large: bool,
    items: &[Option<i128>],
    ends: &[usize],
    valid: Vec<bool>,
    index: &[Option<i128>],
    expected_items: &[Option<i128>],
    expected_ends: &[usize],
    expected_valid: Vec<bool>,
) {
    // Slots one to four of six: the child keeps the items of the others.
    let nulls = NullBuffer::from(valid).slice(1, 4);
    let sliced = list(large, &ends[1..6], Some(nulls), int32(items));
    let taken = take(&sliced, &uint32(index), None).unwrap();
    let nulls = Some(NullBuffer::from(expected_valid));
    assert_same(&taken, &list(large, expected_ends, nulls, int32(expected_items)));
}

fn check_take_sliced_list(large: bool) {
    check_sliced_list(
        large,
        &some(&[0, 1, 2, 3, 4, 5, 6, 7]),
        &[0, 2, 5, 5, 5, 7, 8],
        vec![true, true, false, true, true, true],
        &[Some(3), Some(0), None, Some(2), Some(1)],
        &some(&[5, 6, 2, 3, 4]),
        &[0, 2, 5, 5, 5, 5],
        vec![true, true, false, true, false],
    );
}

fn check_take_sliced_list_with_value_nulls(large: bool) {
    check_sliced_list(
        large,
        &[Some(10), None, Some(1), Some(2), None, Some(3)],
        &[0, 1, 3, 3, 5, 5, 6],
        vec![true, true, false, true, true, true],
        &[Some(2), Some(0), None, Some(3), Some(1)],
        &[Some(2), None, None, Some(1)],
        &[0, 2, 4, 4, 4, 4],
        vec![true, true, false, true, false],
    );
}

#[test]
fn test_take_sliced_list() {
    check_take_sliced_list(false);
}

#[test]
fn test_take_sliced_large_list() {
    check_take_sliced_list(true);
}

#[test]
fn test_take_sliced_list_with_value_nulls() {
    check_take_sliced_list_with_value_nulls(false);
}

#[test]
fn test_take_sliced_large_list_with_value_nulls() {
    check_take_sliced_list_with_value_nulls(true);
}

fn run_array(kind: IntType, logical: &[i128], offset: usize, len: usize) -> Array {
    let mut ends: Vec<i64> = Vec::new();
    let mut values: Vec<Option<i128>> = Vec::new();
    for (i, value) in logical.iter().enumerate() {
        if values.last() == Some(&Some(*value)) {
            ends.pop();
        } else {
            values.push(Some(*value));
        }
        ends.push(i as i64 + 1);
    }
    let values = int32(&values);
    Array {
        data_type: Arc::new(DataType::RunEndEncoded(
            field(
                "run_ends",
                Arc::new(DataType::Primitive(PrimitiveType::Int(kind))),
                false,
            ),
            field("values", values.data_type.clone(), true),
        )),
        len,
        nulls: None,
        values: Values::Runs { end_type: kind, ends, offset, values: Arc::new(values) },
    }
}

fn run_parts(a: &Array) -> (IntType, &Vec<i64>, usize, &ArrayRef) {
    match &a.values {
        Values::Runs { end_type, ends, offset, values } => (*end_type, ends, *offset, values),
        _ => unreachable!(),
    }
}

#[test]
fn test_take_runs() {
    let logical = [1, 1, 2, 2, 1, 1, 1, 2, 2, 1, 1, 2, 2];
    let array = run_array(IntType::Int32, &logical, 0, 13);
    let (kind, ends, offset, values) = run_parts(&array);
    let indices = Indices::all_of(vec![7, 2, 3, 7, 11, 4, 6]);
    let taken = take_run(&array, kind, ends, offset, values, &indices).unwrap();
    assert_eq!(taken.len, 7);
    let (_, ends, _, values) = run_parts(&taken);
    assert_eq!(ends.last(), Some(&7));
    assert_eq!(ends, &vec![1, 3, 4, 5, 7]);
    assert_same(values, &int32(&some(&[2, 2, 2, 2, 1])));
}

#[test]
fn test_take_runs_sliced() {
    let logical = [1, 1, 2, 2, 3, 3, 3, 4, 4, 5, 5, 6, 6];
    let array = run_array(IntType::Int32, &logical, 4, 6);
    let (kind, ends, offset, values) = run_parts(&array);
    let indices = Indices::all_of(vec![0, 5, 5, 1, 4]);
    let result = take_run(&array, kind, ends, offset, values, &indices).unwrap();
    assert_eq!(rows(&result), rows(&int32(&some(&[3, 5, 5, 3, 4]))));
}

/// The example of runs that stay apart although their values are equal.
#[test]
fn runs_are_encoded_by_the_runs_they_come_from() {
    let array = run_array(IntType::Int16, &[1, 1, 2, 2, 1, 1, 2, 2], 0, 8);
    let taken = take(&array, &int32(&some(&[2, 3, 6, 7])), None).unwrap();
    let (_, ends, offset, values) = run_parts(&taken);
    assert_eq!(ends, &vec![2, 4]);
    assert_eq!(offset, 0);
    assert_same(values, &int32(&some(&[2, 2])));
}

#[test]
fn runs_out_of_bounds() {
    let array = run_array(IntType::Int32, &[1, 1, 2], 0, 3);
    let error = take(&array, &int32(&some(&[4, 0, 9, 5])), None).unwrap_err();
    assert_eq!(error, TakeError::RunOutOfBounds { position: 9, len: 3 });
    assert_eq!(
        error.message(),
        "Invalid argument error: Logical index 9 is out of bounds for RunArray of length 3"
    );
}

#[test]
fn run_ends_overflow() {
    let array = run_array(IntType::Int16, &[1, 1, 2], 0, 3);
    let indices = Indices::all_of(vec![2; 40_000]);
    let error = take_impl(&array, &indices).unwrap_err();
    assert_eq!(error, TakeError::RunEndOverflow(40_000));
    assert_eq!(error.message(), "Compute error: Run end overflow at 40000");
    let indices = Indices::all_of(vec![2; 32_767]);
    let taken = take_impl(&array, &indices).unwrap();
    assert_eq!(run_parts(&taken).1, &vec![32_767]);
}

#[test]
fn test_take_value_index_from_fixed_list() {
    let indexed =
        take_value_indices_from_fixed_size_list(4, 3, &Indices::all_of(vec![2, 1, 0]));
    assert_eq!(indexed.values, vec![6, 7, 8, 3, 4, 5, 0, 1, 2]);
    assert!(indexed.nulls.is_none());

    let indexed =
        take_value_indices_from_fixed_size_list(4, 3, &Indices::all_of(vec![3, 2, 1, 2, 0]));
    assert_eq!(
        indexed.values,
        vec![9, 10, 11, 6, 7, 8, 3, 4, 5, 6, 7, 8, 0, 1, 2]
    );
    assert!(indexed.nulls.is_none());
}

#[test]
fn test_take_null_indices() {
    // Out of bounds, but masked.
    let indices = Array {
        data_type: Arc::new(DataType::Primitive(PrimitiveType::Int(IntType::Int32))),
        len: 4,
        nulls: Some(NullBuffer::from(vec![true, true, false, false])),
        values: Values::Native(Native::W32(vec![1, 2, 400, 400])),
    };
    let values = int32(&some(&[1, 23, 4, 5]));
    check(&values, &indices, &int32(&[Some(23), Some(4), None, None]));
}

#[test]
fn test_take_fixed_size_list_null_indices() {
    let indices = int32(&[Some(0), None]);
    let values = fixed_size_list(
        IntType::Int32,
        2,
        &[Some(vec![Some(0), Some(1)]), Some(vec![Some(2), Some(3)])],
    );
    let taken = take(&values, &indices, None).unwrap();
    let expected = int32(&[Some(0), Some(1), None, None]);
    assert_eq!(rows(&child_of(&taken)), rows(&expected));
}

#[test]
fn test_take_bytes_null_indices() {
    let indices = Array {
        data_type: Arc::new(DataType::Primitive(PrimitiveType::Int(IntType::Int32))),
        len: 4,
        nulls: Some(NullBuffer::from(vec![true, true, false, false])),
        values: Values::Native(Native::W32(vec![0, 1, 400, 400])),
    };
    let values = strings(&[Some("foo"), None]);
    check(&values, &indices, &strings(&[Some("foo"), None, None, None]));
}

fn union_array(
    mode: UnionMode,
    type_ids: Vec<i8>,
    slots: Option<Vec<i32>>,
    children: Vec<(i8, &str, Array)>,
) -> Array {
    let len = type_ids.len();
    let fields = children
        .iter()
        .map(|(id, name, child)| (*id, field(name, child.data_type.clone(), true)))
        .collect();
    Array {
        data_type: Arc::new(DataType::Union(fields, mode)),
        len,
        nulls: None,
        values: Values::Union {
            type_ids,
            slots,
            children: children.into_iter().map(|(_, _, child)| Arc::new(child)).collect(),
        },
    }
}

fn union_parts(a: &Array) -> (&Vec<i8>, &Option<Vec<i32>>, &Vec<ArrayRef>) {
    match &a.values {
        Values::Union { type_ids, slots, children } => (type_ids, slots, children),
        _ => unreachable!(),
    }
}

#[test]
fn test_take_union_sparse() {
    let structs = structs(&[
        Some((Some(true), Some(42))),
        Some((Some(false), Some(28))),
        Some((Some(false), Some(19))),
        Some((Some(true), Some(31))),
        None,
    ]);
    let texts = strings(&[Some("a"), None, Some("c"), None, Some("d")]);
    let array = union_array(
        UnionMode::Sparse,
        vec![1; 5],
        None,
        vec![(0, "f1", structs), (1, "f2", texts)],
    );
    let index = uint32(&some(&[0, 3, 1, 0, 2, 4]));
    let actual = take(&array, &index, None).unwrap();
    let (_, _, children) = union_parts(&actual);
    let expected = strings(&[Some("a"), None, None, Some("a"), Some("c"), Some("d")]);
    assert_same(&children[1], &expected);
}

#[test]
fn test_take_union_dense() {
    let array = union_array(
        UnionMode::Dense,
        vec![0, 1, 1, 0, 0, 1, 0],
        Some(vec![0, 0, 1, 1, 2, 2, 3]),
        vec![
            (0, "f1", uint32(&some(&[10, 20, 30, 40]))),
            (1, "f2", strings(&[Some("a"), None, Some("c"), Some("d")])),
        ],
    );
    let index = uint32(&some(&[0, 3, 1, 0, 2, 4]));
    let actual = take(&array, &index, None).unwrap();
    let (type_ids, slots, children) = union_parts(&actual);
    assert_eq!(slots, &Some(vec![0, 1, 0, 2, 1, 3]));
    assert_eq!(type_ids, &vec![0, 0, 1, 0, 1, 0]);
    assert_same(&children[0], &uint32(&some(&[10, 20, 10, 30])));
    assert_same(&children[1], &strings(&[Some("a"), None]));
}

#[test]
fn test_take_union_dense_using_builder() {
    let float = |v: f64| Some(v.to_bits() as i128);
    let floats = |data: &[Option<i128>]| primitive(PrimitiveType::Float64, 8, data);
    let union = union_array(
        UnionMode::Dense,
        vec![0, 1, 0, 0, 1],
        Some(vec![0, 0, 1, 2, 1]),
        vec![
            (0, "a", int32(&some(&[1, 4, 5]))),
            (1, "b", floats(&[float(3.0), float(2.0)])),
        ],
    );
    let indices = uint32(&some(&[2, 0, 1, 2]));
    let expected = union_array(
        UnionMode::Dense,
        vec![0, 0, 1, 0],
        Some(vec![0, 1, 0, 2]),
        vec![(0, "a", int32(&some(&[4, 1, 4]))), (1, "b", floats(&[float(3.0)]))],
    );
    let taken = take(&union, &indices, None).unwrap();
    assert_same(&taken, &expected);
    assert_eq!(union_parts(&taken).0, union_parts(&expected).0);
    assert_eq!(union_parts(&taken).1, union_parts(&expected).1);
    for k in 0..2 {
        assert_same(&union_parts(&taken).2[k], &union_parts(&expected).2[k]);
    }
}

#[test]
fn test_take_union_dense_all_match_issue_6206() {
    let array = union_array(
        UnionMode::Dense,
        vec![0, 0, 0, 0, 0],
        Some(vec![0, 1, 2, 3, 4]),
        vec![(0, "a", ints(IntType::Int64, &some(&[1, 2, 3, 4, 5])))],
    );
    let indices = ints(IntType::Int64, &some(&[0, 2, 4]));
    let taken = take(&array, &indices, None).unwrap();
    assert_eq!(taken.len, 3);
}

#[test]
fn union_without_field_zero_has_no_place_for_a_stray_null() {
    let texts = strings(&[Some("a"), Some("b")]);
    let array = union_array(UnionMode::Sparse, vec![3, 3], None, vec![(3, "s", texts)]);
    let indices = Array {
        data_type: Arc::new(DataType::Primitive(PrimitiveType::Int(IntType::UInt32))),
        len: 2,
        nulls: Some(NullBuffer::from(vec![true, false])),
        values: Values::Native(Native::W32(vec![1, 70])),
    };
    let error = take(&array, &indices, None).unwrap_err();
    assert_eq!(error, TakeError::UnknownTypeId);
    assert_eq!(
        error.message(),
        "Invalid argument error: Type Ids values must match one of the field type ids"
    );
}

#[test]
fn null_index_into_a_sparse_union() {
    let texts = strings(&[Some("a"), Some("b")]);
    let array = union_array(UnionMode::Sparse, vec![0, 0], None, vec![(0, "s", texts)]);
    let taken = take(&array, &uint32(&[Some(1), None]), None).unwrap();
    assert_eq!(
        rows(&taken),
        vec![
            Cell::Union(0, Box::new(Cell::Bytes(b"b".to_vec()))),
            Cell::Union(0, Box::new(Cell::Null)),
        ]
    );
}

#[test]
fn null_index_out_of_bounds_into_a_dense_union() {
    let numbers = int32(&some(&[7, 8]));
    let array = union_array(
        UnionMode::Dense,
        vec![0, 0],
        Some(vec![1, 0]),
        vec![(0, "n", numbers)],
    );
    let stray = |raw: u32| Array {
        data_type: Arc::new(DataType::Primitive(PrimitiveType::Int(IntType::UInt32))),
        len: 2,
        nulls: Some(NullBuffer::from(vec![true, false])),
        values: Values::Native(Native::W32(vec![0, raw])),
    };
    let taken = take(&array, &stray(90), None).unwrap();
    assert_eq!(
        rows(&taken),
        vec![
            Cell::Union(0, Box::new(Cell::Native(8, 0))),
            Cell::Union(0, Box::new(Cell::Native(7, 0))),
        ]
    );

    let empty = int32(&[]);
    let array = union_array(
        UnionMode::Dense,
        vec![1, 1],
        Some(vec![0, 0]),
        vec![(0, "n", empty), (1, "m", int32(&some(&[5])))],
    );
    let error = take(&array, &stray(90), None).unwrap_err();
    assert_eq!(error, TakeError::UnionOffset);
    assert_eq!(
        error.message(),
        "Invalid argument error: Offsets must be non-negative and within the length of the Array"
    );
}

#[test]
fn test_take_bytes_offset_overflow() {
    let len = (i32::MAX >> 4) as usize;
    let indices = Array {
        data_type: Arc::new(DataType::Primitive(PrimitiveType::Int(IntType::Int32))),
        len,
        nulls: None,
        values: Values::Native(Native::W32(vec![0; len])),
    };
    let text = ('a'..='z').collect::<String>();
    let values = strings(&[Some(&text)]);
    let error = take(&values, &indices, None).unwrap_err();
    assert!(matches!(error, TakeError::OffsetOverflow(_)));
    // The first total of 26-byte values that is beyond the largest offset.
    assert_eq!(error, TakeError::OffsetOverflow(2_147_483_650));
    assert_eq!(error.message(), "Offset overflow error: 2147483650");
}

#[test]
fn test_take_run_empty_indices() {
    let array = run_array(IntType::Int32, &[1, 1, 2, 2], 0, 4);
    let indices = Indices::all_of(vec![]);
    let result = take_impl(&array, &indices).expect("take_run with empty indices");
    assert_eq!(result.len, 0);
    assert_eq!(null_count(&result), 0);
    let (_, ends, _, values) = run_parts(&result);
    assert_eq!(ends.len(), 0);
    assert_eq!(values.len, 0);
}

#[test]
fn fixed_size_binary_under_a_null_index() {
    let masked = |raw: u32| Array {
        data_type: Arc::new(DataType::Primitive(PrimitiveType::Int(IntType::UInt32))),
        len: 2,
        nulls: Some(NullBuffer::from(vec![true, false])),
        values: Values::Native(Native::W32(vec![1, raw])),
    };
    let data = |a: &Array| match &a.values {
        Values::FixedSizeBinary { data, .. } => data.clone(),
        _ => unreachable!(),
    };
    // As an array of bytes, what stands at the leftover position is copied.
    for size in [1usize, 2, 4, 8, 16] {
        let slots: Vec<Vec<u8>> = vec![vec![7; size], vec![9; size]];
        let slots: Vec<&[u8]> = slots.iter().map(|s| s.as_slice()).collect();
        let array = fixed_size_binary(size, &slots);
        let taken = take(&array, &masked(0), None).unwrap();
        assert_eq!(data(&taken), [slots[1], slots[0]].concat());
        assert_eq!(rows(&taken), vec![Cell::Bytes(slots[1].to_vec()), Cell::Null]);
        let taken = take(&array, &masked(99), None).unwrap();
        assert_eq!(data(&taken), [slots[1].to_vec(), vec![0; size]].concat());
    }
    // Of another size, zeros are.
    let array = fixed_size_binary(3, &[&[1, 2, 3], &[4, 5, 6]]);
    let taken = take(&array, &masked(0), None).unwrap();
    assert_eq!(data(&taken), vec![4, 5, 6, 0, 0, 0]);
    let array = fixed_size_binary(0, &[&[], &[]]);
    let taken = take(&array, &masked(0), None).unwrap();
    assert_eq!(rows(&taken), vec![Cell::Bytes(vec![]), Cell::Null]);
}

#[test]
fn decimal256_values_are_wide() {
    let array = Array {
        data_type: Arc::new(DataType::Primitive(PrimitiveType::Decimal256(40, 2))),
        len: 2,
        nulls: None,
        values: Values::Native(Native::W256(vec![(1, u128::MAX), (u128::MAX, 5)])),
    };
    let taken = take(&array, &uint32(&[Some(1), None, Some(0)]), None).unwrap();
    assert_eq!(
        rows(&taken),
        vec![Cell::Native(u128::MAX, 5), Cell::Null, Cell::Native(1, u128::MAX)]
    );
}

#[test]
fn booleans_beyond_one_byte() {
    let data: Vec<Option<bool>> = (0..100).map(|i| Some(i % 3 == 0)).collect();
    let index: Vec<Option<i128>> = (0..100)
        .map(|i| if i % 7 == 0 { None } else { Some(99 - i) })
        .collect();
    let expected: Vec<Option<bool>> = index.iter().map(|i| i.map(|i| i % 3 == 0)).collect();
    check(&booleans(&data), &uint32(&index), &booleans(&expected));
    let index: Vec<Option<i128>> = (0..100).map(|i| Some(99 - i)).collect();
    let expected: Vec<Option<bool>> = index.iter().map(|i| i.map(|i| i % 3 == 0)).collect();
    check(&booleans(&data), &uint32(&index), &booleans(&expected));
}

#[test]
fn lists_of_strings_and_of_lists() {
    let texts = strings(&[Some("a"), None, Some("ccc"), Some("dd")]);
    let inner = list(false, &[0, 2, 2, 4], None, texts);
    let outer = list(true, &[0, 1, 3], None, inner);
    let text = |s: &str| Cell::Bytes(s.as_bytes().to_vec());
    let first = Cell::List(vec![Cell::List(vec![text("a"), Cell::Null])]);
    let second =
        Cell::List(vec![Cell::List(vec![]), Cell::List(vec![text("ccc"), text("dd")])]);
    assert_eq!(rows(&outer), vec![first.clone(), second.clone()]);
    let taken = take(&outer, &uint32(&[Some(1), None, Some(0), Some(1)]), None).unwrap();
    assert_eq!(rows(&taken), vec![second.clone(), Cell::Null, first, second]);
}

#[test]
fn lists_of_fixed_size_lists_of_structs() {
    let items = structs(&[
        Some((Some(true), Some(1))),
        None,
        Some((None, Some(3))),
        Some((Some(false), None)),
    ]);
    let pairs = Array {
        data_type: Arc::new(DataType::FixedSizeList(
            field("item", items.data_type.clone(), true),
            2,
        )),
        len: 2,
        nulls: None,
        values: Values::FixedSizeList { size: 2, child: Arc::new(items) },
    };
    let array = list(false, &[0, 0, 2], None, pairs);
    let taken = take(&array, &uint32(&some(&[1, 0, 1])), None).unwrap();
    let whole = rows(&array);
    assert_eq!(rows(&taken), vec![whole[1].clone(), whole[0].clone(), whole[1].clone()]);
}

#[test]
fn lists_of_dense_unions_and_dictionaries() {
    let union = union_array(
        UnionMode::Dense,
        vec![5, 2, 5],
        Some(vec![1, 0, 0]),
        vec![
            (5, "n", int32(&some(&[10, 20]))),
            (2, "s", strings(&[Some("x")])),
        ],
    );
    let array = list(false, &[0, 2, 3], None, union);
    let whole = rows(&array);
    let taken = take(&array, &uint32(&some(&[1, 0])), None).unwrap();
    assert_eq!(rows(&taken), vec![whole[1].clone(), whole[0].clone()]);

    let dictionary = Arc::new(strings(&[Some("p"), Some("q")]));
    let coded = Array {
        data_type: Arc::new(DataType::Dictionary(
            Arc::new(DataType::Primitive(PrimitiveType::Int(IntType::Int8))),
            dictionary.data_type.clone(),
        )),
        len: 3,
        nulls: None,
        values: Values::Dictionary {
            key_type: IntType::Int8,
            keys: Native::W8(vec![1, 0, 1]),
            dictionary,
        },
    };
    let array = list(false, &[0, 1, 3], None, coded);
    let whole = rows(&array);
    let taken = take(&array, &uint32(&some(&[1, 1, 0])), None).unwrap();
    assert_eq!(rows(&taken), vec![whole[1].clone(), whole[1].clone(), whole[0].clone()]);
}

fn leftover(raw: u32) -> Array {
    Array {
        data_type: Arc::new(DataType::Primitive(PrimitiveType::Int(IntType::UInt32))),
        len: 2,
        nulls: Some(NullBuffer::from(vec![true, false])),
        values: Values::Native(Native::W32(vec![0, raw])),
    }
}

#[test]
fn runs_answer_a_null_index_by_its_leftover_position() {
    let array = run_array(IntType::Int64, &[4, 4, 5], 0, 3);
    let taken = take(&array, &leftover(2), None).unwrap();
    assert_eq!(rows(&taken), vec![Cell::Native(4, 0), Cell::Native(5, 0)]);
    let error = take(&array, &leftover(3), None).unwrap_err();
    assert_eq!(error, TakeError::RunOutOfBounds { position: 3, len: 3 });
    // A struct around them passes the error on.
    let nested = Array {
        data_type: Arc::new(DataType::Struct(vec![field("r", array.data_type.clone(), true)])),
        len: 3,
        nulls: None,
        values: Values::Struct { columns: vec![Arc::new(array)] },
    };
    let taken = take(&nested, &leftover(1), None).unwrap();
    assert_eq!(rows(&taken), vec![Cell::Struct(vec![Cell::Native(4, 0)]), Cell::Null]);
    let error = take(&nested, &leftover(8), None).unwrap_err();
    assert_eq!(error, TakeError::RunOutOfBounds { position: 8, len: 3 });
}

#[test]
fn no_indices_give_an_empty_array_of_each_kind() {
    let empty = uint32(&[]);
    let union = union_array(
        UnionMode::Dense,
        vec![0, 1],
        Some(vec![0, 0]),
        vec![
            (0, "n", int32(&some(&[10]))),
            (1, "l", list(false, &[0, 1], None, strings(&[Some("x")]))),
        ],
    );
    let arrays = vec![
        null_array(2),
        int32(&some(&[1])),
        booleans(&[Some(true)]),
        strings(&[Some("a")]),
        views(DataType::BinaryView, &[Some("a value that is not inline")]),
        list(true, &[0, 1], None, int32(&some(&[1]))),
        list_view(false, &[Some(vec![Some(1)])], 0, 1),
        fixed_size_list(IntType::Int8, 2, &[Some(vec![Some(1), None])]),
        fixed_size_binary(2, &[&[1, 2]]),
        structs(&[Some((Some(true), Some(1)))]),
        run_array(IntType::Int16, &[1, 2], 0, 2),
        union,
    ];
    for array in arrays {
        let taken = take(&array, &empty, None).unwrap();
        assert_eq!(taken.len, 0);
        assert_eq!(taken.data_type, array.data_type);
        assert!(taken.nulls.is_none());
        assert_eq!(rows(&taken), vec![]);
    }
}

#[test]
fn list_offsets_overflow() {
    // One list of null items, long enough that two copies pass the largest offset.
    let long = (i32::MAX / 2 + 1) as usize;
    let array = list(false, &[0, long], None, null_array(long));
    let error = take_impl(&array, &Indices::all_of(vec![0, 0])).unwrap_err();
    assert_eq!(error, TakeError::OffsetOverflow(2_147_483_648));
}

#[test]
fn items_of_fixed_size_lists_have_a_bitmap_where_one_is_missing() {
    let items = Array {
        data_type: Arc::new(DataType::Primitive(PrimitiveType::Int(IntType::UInt32))),
        len: 4,
        nulls: None,
        values: Values::Native(Native::W32(vec![1, 2, 3, 4])),
    };
    let lists = Array {
        data_type: Arc::new(DataType::FixedSizeList(
            Arc::new(Field {
                name: "item".to_string(),
                data_type: items.data_type.clone(),
                nullable: true,
                dict_id: 0,
                dict_is_ordered: false,
                metadata: vec![],
            }),
            2,
        )),
        len: 2,
        nulls: None,
        values: Values::FixedSizeList { size: 2, child: Arc::new(items) },
    };
    let child = |a: &Array| match &a.values {
        Values::FixedSizeList { child, .. } => child.clone(),
        _ => unreachable!(),
    };
    let taken = take_impl(&lists, &Indices::all_of(vec![1, 0])).unwrap();
    assert!(taken.nulls.is_none());
    assert!(child(&taken).nulls.is_none());
    let asked = Indices::from_parts(vec![1, 0], vec![true, false]);
    let taken = take_impl(&lists, &asked).unwrap();
    assert_eq!(null_count(&taken), 1);
    assert_eq!(null_count(&child(&taken)), 2);
    assert!(Indices::from_parts(vec![1, 0], vec![true, true]).nulls.is_none());
}

/// Lists over a child, cut at these ends, of which each is taken in this order.
fn items_of(child: Array, ends: &[usize], order: &[usize]) -> ArrayRef {
    let lists = list(false, ends, None, child);
    child_of(&take_impl(&lists, &Indices::all_of(order.to_vec())).unwrap())
}

#[test]
fn runs_in_lists_end_with_each_list() {
    let taken = items_of(run_array(IntType::Int32, &[7, 7, 7, 7], 0, 4), &[0, 2, 4], &[0, 1]);
    let (_, ends, offset, values) = run_parts(&taken);
    assert_eq!((ends.clone(), offset), (vec![2, 4], 0));
    assert_eq!(rows(&values), rows(&int32(&some(&[7, 7]))));

    // As in arrow.
    let source = arrow_array::RunArray::<arrow_array::types::Int32Type>::try_new(
        &arrow_array::Int32Array::from(vec![1, 4, 6]),
        &arrow_array::Int32Array::from(vec![5, 6, 7]),
    )
    .unwrap();
    let source = arrow_array::Array::to_data(&source);
    let mut copy = arrow_data::transform::MutableArrayData::new(vec![&source], false, 8);
    for (start, end) in [(2, 6), (0, 2), (2, 2), (0, 3)] {
        copy.try_extend(0, start, end).unwrap();
    }
    let expected = arrow_array::RunArray::<arrow_array::types::Int32Type>::from(copy.freeze());
    let child = run_array(IntType::Int32, &[5, 6, 6, 6, 7, 7], 0, 6);
    let lists = Array {
        data_type: Arc::new(DataType::ListView(field("item", child.data_type.clone(), true))),
        len: 4,
        nulls: None,
        values: Values::ListView {
            offsets: Offsets::Small(vec![2, 0, 2, 0]),
            sizes: Offsets::Small(vec![4, 2, 0, 3]),
            child: Arc::new(child),
        },
    };
    let taken = items_of(lists, &[0, 4], &[0]);
    match &taken.values {
        Values::ListView { offsets, sizes, child } => {
            assert_eq!(*offsets, Offsets::Small(vec![0, 4, 6, 6]));
            assert_eq!(*sizes, Offsets::Small(vec![4, 2, 0, 3]));
            let (_, ends, _, values) = run_parts(child);
            let arrow_ends: Vec<i64> =
                expected.run_ends().values().iter().map(|e| *e as i64).collect();
            assert_eq!(ends.clone(), arrow_ends);
            let arrow_values = arrow_array::cast::AsArray::as_primitive::<
                arrow_array::types::Int32Type,
            >(expected.values());
            let arrow_values: Vec<i128> =
                arrow_values.values().iter().map(|v| *v as i128).collect();
            assert_eq!(rows(&values), rows(&int32(&some(&arrow_values))));
        }
        _ => unreachable!(),
    }
}

#[test]
fn slices_of_runs_start_within_runs() {
    // The array is a slice itself.
    let child = run_array(IntType::Int16, &[1, 1, 2, 2, 2, 3], 1, 5);
    let taken = items_of(child, &[0, 1, 3, 5], &[2, 0, 1]);
    let (_, ends, _, values) = run_parts(&taken);
    assert_eq!(ends.clone(), vec![1, 2, 3, 5]);
    assert_eq!(rows(&values), rows(&int32(&some(&[2, 3, 1, 2]))));
}

#[test]
fn bytes_and_items_under_nulls_are_copied_with_lists() {
    let mut words = strings(&[Some("ab"), Some("cd"), Some("e")]);
    words.nulls = Some(NullBuffer::from(vec![true, false, true]));
    let taken = items_of(words, &[0, 2, 3], &[1, 0]);
    match &taken.values {
        Values::Bytes { offsets, data } => {
            assert_eq!(*offsets, Offsets::Small(vec![0, 1, 3, 5]));
            assert_eq!(data, b"eabcd");
        }
        _ => unreachable!(),
    }
    assert_eq!(null_count(&taken), 1);

    let inner = list(
        false,
        &[0, 2, 3],
        Some(NullBuffer::from(vec![false, true])),
        int32(&some(&[1, 2, 3])),
    );
    let taken = items_of(inner, &[0, 2], &[0]);
    assert_eq!(list_offsets(&taken), vec![0, 2, 3]);
    assert_eq!(rows(&child_of(&taken)), rows(&int32(&some(&[1, 2, 3]))));
    assert_eq!(null_count(&taken), 1);
}

#[test]
fn lists_without_items_keep_what_their_items_share() {
    let long = "a value that does not fit into its view";
    let words = views(DataType::Utf8View, &[Some(long)]);
    let taken = items_of(words, &[0, 0, 1], &[0, 0]);
    match &taken.values {
        Values::Views { views, buffers } => assert_eq!((views.len(), buffers.len()), (0, 1)),
        _ => unreachable!(),
    }

    let dictionary = Arc::new(strings(&[Some("a"), Some("b")]));
    let keys = Array {
        data_type: Arc::new(DataType::Dictionary(
            Arc::new(DataType::Primitive(PrimitiveType::Int(IntType::Int8))),
            dictionary.data_type.clone(),
        )),
        len: 1,
        nulls: None,
        values: Values::Dictionary {
            key_type: IntType::Int8,
            keys: Native::W8(vec![1]),
            dictionary: dictionary.clone(),
        },
    };
    let taken = items_of(keys, &[0, 0, 1], &[0]);
    match &taken.values {
        Values::Dictionary { dictionary: d, .. } => assert!(Arc::ptr_eq(d, &dictionary)),
        _ => unreachable!(),
    }

    let nothing = Array {
        data_type: Arc::new(DataType::Struct(vec![])),
        len: 2,
        nulls: None,
        values: Values::Struct { columns: vec![] },
    };
    assert!(items_of(nothing, &[0, 1, 2], &[1]).nulls.is_none());
}

#[test]
fn unions_and_fixed_lists_are_copied_with_lists() {
    let numbers = int32(&some(&[1, 2, 3]));
    let words = strings(&[Some("a"), Some("b")]);
    let fields = vec![
        (0, field("n", numbers.data_type.clone(), true)),
        (5, field("w", words.data_type.clone(), true)),
    ];
    let dense = Array {
        data_type: Arc::new(DataType::Union(fields, UnionMode::Dense)),
        len: 5,
        nulls: None,
        values: Values::Union {
            type_ids: vec![0, 5, 0, 5, 0],
            slots: Some(vec![2, 1, 0, 0, 2]),
            children: vec![Arc::new(numbers), Arc::new(words)],
        },
    };
    let taken = items_of(dense, &[0, 2, 5], &[1, 0]);
    match &taken.values {
        Values::Union { type_ids, slots, children } => {
            assert_eq!(*type_ids, vec![0, 5, 0, 0, 5]);
            assert_eq!(*slots, Some(vec![0, 0, 1, 2, 1]));
            assert_eq!(rows(&children[0]), rows(&int32(&some(&[1, 3, 3]))));
            assert_eq!(rows(&children[1]), rows(&strings(&[Some("a"), Some("b")])));
        }
        _ => unreachable!(),
    }

    let pairs = fixed_size_list(
        IntType::Int32,
        2,
        &[
            Some(vec![Some(1), Some(2)]),
            None,
            Some(vec![Some(5), None]),
        ],
    );
    let expected = fixed_size_list(
        IntType::Int32,
        2,
        &[
            Some(vec![Some(5), None]),
            Some(vec![Some(1), Some(2)]),
            None,
        ],
    );
    assert_same(&items_of(pairs, &[0, 2, 3], &[1, 0]), &expected);
}
