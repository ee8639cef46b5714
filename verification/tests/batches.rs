//! Selections from several arrays, the bounds of indices, and the laws on given values.
use arrow_buffer::NullBuffer;
use arrow_schema::DataType as Arrow;
use arrow_take::array::{Array, ArrayRef, Native, Offsets, Values};
use arrow_take::batch::{take_record_batch, RecordBatch, Schema};
use arrow_take::datatype::{
    DataType, Field, IntType, IntervalUnit, PrimitiveType, TimeUnit, UnionMode,
};
use arrow_take::error::TakeError;
use arrow_take::indices::{check_bounds, Indices};
use arrow_take::take::{first_out_of_bounds, take, take_arrays, take_impl, TakeOptions};
use arrow_take::text::{describe_field, describe_type};
use std::collections::HashMap;
use std::sync::Arc;

fn nulls_of<T>(data: &[Option<T>]) -> Option<NullBuffer> {
    if data.iter().all(|v| v.is_some()) {
        None
    } else {
        Some(NullBuffer::from(data.iter().map(|v| v.is_some()).collect::<Vec<bool>>()))
    }
}

fn ints(kind: IntType, data: &[Option<i64>]) -> Array {
    let bits: Vec<i64> = data.iter().map(|v| v.unwrap_or(0)).collect();
    let values = match kind {
        IntType::Int8 | IntType::UInt8 => Native::W8(bits.iter().map(|v| *v as u8).collect()),
        IntType::Int16 | IntType::UInt16 => Native::W16(bits.iter().map(|v| *v as u16).collect()),
        IntType::Int32 | IntType::UInt32 => Native::W32(bits.iter().map(|v| *v as u32).collect()),
        IntType::Int64 | IntType::UInt64 => Native::W64(bits.iter().map(|v| *v as u64).collect()),
    };
    Array {
        data_type: Arc::new(DataType::Primitive(PrimitiveType::Int(kind))),
        len: data.len(),
        nulls: nulls_of(data),
        values: Values::Native(values),
    }
}

fn uint32(data: &[Option<i64>]) -> Array {
    ints(IntType::UInt32, data)
}

fn some(data: &[i64]) -> Vec<Option<i64>> {
    data.iter().map(|v| Some(*v)).collect()
}

fn strings(data: &[Option<&str>]) -> Array {
    let mut bytes: Vec<u8> = Vec::new();
    let mut offsets: Vec<i32> = vec![0];
    for value in data {
        bytes.extend_from_slice(value.unwrap_or("").as_bytes());
        offsets.push(bytes.len() as i32);
    }
    Array {
        data_type: Arc::new(DataType::Utf8),
        len: data.len(),
        nulls: nulls_of(data),
        values: Values::Bytes { offsets: Offsets::Small(offsets), data: bytes },
    }
}

fn is_valid(a: &Array, i: usize) -> bool {
    match &a.nulls {
        Some(n) => n.is_valid(i),
        None => true,
    }
}

fn texts(a: &Array) -> Vec<Option<String>> {
    match &a.values {
        Values::Bytes { offsets, data } => (0..a.len)
            .map(|i| {
                let range = offsets.get(i) as usize..offsets.get(i + 1) as usize;
                if is_valid(a, i) {
                    Some(String::from_utf8(data[range].to_vec()).unwrap())
                } else {
                    None
                }
            })
            .collect(),
        _ => unreachable!(),
    }
}

fn numbers(a: &Array) -> Vec<Option<u32>> {
    match &a.values {
        Values::Native(Native::W32(v)) => {
            (0..a.len).map(|i| if is_valid(a, i) { Some(v[i]) } else { None }).collect()
        }
        _ => unreachable!(),
    }
}

fn field(name: &str, data_type: &Arc<DataType>, nullable: bool) -> Arc<Field> {
    Arc::new(Field {
        name: name.to_string(),
        data_type: data_type.clone(),
        nullable,
        dict_id: 0,
        dict_is_ordered: false,
        metadata: vec![],
    })
}

const CHECKED: Option<TakeOptions> = Some(TakeOptions { check_bounds: true });

#[test]
fn take_strings_in_order_of_indices() {
    let values = strings(&[Some("zero"), Some("one"), Some("two")]);
    let taken = take(&values, &uint32(&some(&[2, 1])), None).unwrap();
    assert_eq!(texts(&taken), vec![Some("two".to_string()), Some("one".to_string())]);
}

#[test]
fn take_arrays_takes_from_each() {
    let words = Arc::new(strings(&[Some("zero"), Some("one"), Some("two")]));
    let values = Arc::new(uint32(&some(&[0, 1, 2])));
    let arrays: Vec<ArrayRef> = vec![words, values];
    let taken = take_arrays(&arrays, &uint32(&some(&[2, 1])), None).unwrap();
    assert_eq!(taken.len(), 2);
    assert_eq!(texts(&taken[0]), vec![Some("two".to_string()), Some("one".to_string())]);
    assert_eq!(numbers(&taken[1]), vec![Some(2), Some(1)]);
    assert_eq!(take_arrays(&[], &uint32(&some(&[2])), None).unwrap().len(), 0);
}

#[test]
fn take_arrays_stops_at_the_first_error() {
    let long = Arc::new(uint32(&some(&[0, 1, 2])));
    let short = Arc::new(uint32(&some(&[0])));
    let arrays: Vec<ArrayRef> = vec![long, short];
    let error = take_arrays(&arrays, &uint32(&some(&[2, 1])), CHECKED).unwrap_err();
    assert_eq!(error, TakeError::OutOfBounds { index: 2, len: 1 });
}

fn batch(columns: Vec<(&str, bool, Array)>) -> RecordBatch {
    let row_count = columns.first().map(|c| c.2.len).unwrap_or(0);
    let fields = columns.iter().map(|(n, null, c)| field(n, &c.data_type, *null)).collect();
    RecordBatch {
        schema: Arc::new(Schema { fields, metadata: vec![] }),
        columns: columns.into_iter().map(|c| Arc::new(c.2)).collect(),
        row_count,
    }
}

#[test]
fn take_rows_of_a_batch() {
    let rows: Vec<String> = (0..20).map(|i| format!("str-{i}")).collect();
    let rows: Vec<Option<&str>> = rows.iter().map(|s| Some(s.as_str())).collect();
    let whole = batch(vec![
        ("a", true, uint32(&(0..20).map(Some).collect::<Vec<_>>())),
        ("b", true, strings(&rows)),
    ]);
    let taken = take_record_batch(&whole, &uint32(&some(&[1, 5, 10]))).unwrap();
    assert_eq!(taken.row_count, 3);
    assert!(Arc::ptr_eq(&taken.schema, &whole.schema));
    assert_eq!(numbers(&taken.columns[0]), vec![Some(1), Some(5), Some(10)]);
    assert_eq!(
        texts(&taken.columns[1]),
        vec![
            Some("str-1".to_string()),
            Some("str-5".to_string()),
            Some("str-10".to_string()),
        ]
    );
}

#[test]
fn a_batch_needs_a_column() {
    let error = take_record_batch(&batch(vec![]), &uint32(&some(&[1]))).unwrap_err();
    assert_eq!(error, TakeError::NoColumns);
    assert_eq!(
        error.message(),
        "Invalid argument error: must either specify a row count or at least one column"
    );
}

#[test]
fn a_batch_keeps_its_columns_without_nulls() {
    let whole = batch(vec![
        ("a", true, uint32(&some(&[1, 2]))),
        ("b", false, uint32(&some(&[3, 4]))),
    ]);
    let error = take_record_batch(&whole, &uint32(&[Some(1), None])).unwrap_err();
    assert_eq!(error, TakeError::UnexpectedNulls("b".to_string()));
    assert_eq!(
        error.message(),
        "Invalid argument error: Column 'b' is declared as non-nullable but contains null values"
    );
    assert!(take_record_batch(&whole, &uint32(&some(&[1, 1]))).is_ok());
}

#[test]
fn indices_must_be_integers() {
    let values = uint32(&some(&[1, 2]));
    let error = take(&values, &strings(&[Some("0")]), None).unwrap_err();
    assert_eq!(error, TakeError::NotIntegers(Arc::new(DataType::Utf8)));
    assert_eq!(
        error.message(),
        "Invalid argument error: Take only supported for integers, got Utf8"
    );
}

/// A field and the one that it stands for.
fn field_pair(
    name: &str,
    (data_type, arrow_type): (DataType, arrow_schema::DataType),
    nullable: bool,
) -> (Arc<Field>, Arc<arrow_schema::Field>) {
    (
        field(name, &Arc::new(data_type), nullable),
        Arc::new(arrow_schema::Field::new(name, arrow_type, nullable)),
    )
}

fn int32() -> (DataType, arrow_schema::DataType) {
    (
        DataType::Primitive(PrimitiveType::Int(IntType::Int32)),
        arrow_schema::DataType::Int32,
    )
}

fn primitive(kind: PrimitiveType, arrow_type: arrow_schema::DataType) -> TypePair {
    (DataType::Primitive(kind), arrow_type)
}

type TypePair = (DataType, arrow_schema::DataType);

fn check_types(pairs: Vec<TypePair>) {
    for (data_type, arrow_type) in pairs {
        assert_eq!(describe_type(&data_type), format!("{arrow_type:?}"));
    }
}

#[test]
fn simple_types_read_as_in_arrow() {
    let nano = TimeUnit::Nanosecond;
    let zone = "a \"zone\"";
    check_types(vec![
        (DataType::Null, Arrow::Null),
        (DataType::Boolean, Arrow::Boolean),
        (DataType::Utf8, Arrow::Utf8),
        (DataType::LargeUtf8, Arrow::LargeUtf8),
        (DataType::Utf8View, Arrow::Utf8View),
        (DataType::Binary, Arrow::Binary),
        (DataType::LargeBinary, Arrow::LargeBinary),
        (DataType::BinaryView, Arrow::BinaryView),
        (DataType::FixedSizeBinary(4), Arrow::FixedSizeBinary(4)),
        primitive(PrimitiveType::Int(IntType::Int8), Arrow::Int8),
        primitive(PrimitiveType::Int(IntType::Int16), Arrow::Int16),
        primitive(PrimitiveType::Int(IntType::Int64), Arrow::Int64),
        primitive(PrimitiveType::Int(IntType::UInt8), Arrow::UInt8),
        primitive(PrimitiveType::Int(IntType::UInt16), Arrow::UInt16),
        primitive(PrimitiveType::Int(IntType::UInt32), Arrow::UInt32),
        primitive(PrimitiveType::Int(IntType::UInt64), Arrow::UInt64),
        primitive(PrimitiveType::Float16, Arrow::Float16),
        primitive(PrimitiveType::Float32, Arrow::Float32),
        primitive(PrimitiveType::Float64, Arrow::Float64),
        primitive(PrimitiveType::Date32, Arrow::Date32),
        primitive(PrimitiveType::Date64, Arrow::Date64),
        primitive(
            PrimitiveType::Time32(TimeUnit::Second),
            Arrow::Time32(arrow_schema::TimeUnit::Second),
        ),
        primitive(
            PrimitiveType::Time32(TimeUnit::Millisecond),
            Arrow::Time32(arrow_schema::TimeUnit::Millisecond),
        ),
        primitive(
            PrimitiveType::Time64(TimeUnit::Microsecond),
            Arrow::Time64(arrow_schema::TimeUnit::Microsecond),
        ),
        primitive(
            PrimitiveType::Timestamp(nano, None),
            Arrow::Timestamp(arrow_schema::TimeUnit::Nanosecond, None),
        ),
        primitive(
            PrimitiveType::Timestamp(nano, Some(zone.to_string())),
            Arrow::Timestamp(arrow_schema::TimeUnit::Nanosecond, Some(zone.into())),
        ),
        primitive(
            PrimitiveType::Duration(nano),
            Arrow::Duration(arrow_schema::TimeUnit::Nanosecond),
        ),
        primitive(
            PrimitiveType::Interval(IntervalUnit::YearMonth),
            Arrow::Interval(arrow_schema::IntervalUnit::YearMonth),
        ),
        primitive(
            PrimitiveType::Interval(IntervalUnit::DayTime),
            Arrow::Interval(arrow_schema::IntervalUnit::DayTime),
        ),
        primitive(
            PrimitiveType::Interval(IntervalUnit::MonthDayNano),
            Arrow::Interval(arrow_schema::IntervalUnit::MonthDayNano),
        ),
        primitive(PrimitiveType::Decimal32(5, 2), Arrow::Decimal32(5, 2)),
        primitive(PrimitiveType::Decimal64(10, 0), Arrow::Decimal64(10, 0)),
        primitive(PrimitiveType::Decimal128(10, -2), Arrow::Decimal128(10, -2)),
        primitive(PrimitiveType::Decimal256(40, 3), Arrow::Decimal256(40, 3)),
    ]);
}

#[test]
fn nested_types_read_as_in_arrow() {
    let (item, arrow_item) = field_pair("item", int32(), true);
    let (a, arrow_a) = field_pair("a", int32(), false);
    let (b, arrow_b) = field_pair("b\n", (DataType::Utf8, Arrow::Utf8), true);
    let ids: arrow_schema::UnionFields =
        vec![(0i8, arrow_a.clone()), (3i8, arrow_b.clone())].into_iter().collect();
    check_types(vec![
        (DataType::List(item.clone()), Arrow::List(arrow_item.clone())),
        (DataType::LargeList(a.clone()), Arrow::LargeList(arrow_a.clone())),
        (DataType::ListView(item.clone()), Arrow::ListView(arrow_item.clone())),
        (DataType::LargeListView(item.clone()), Arrow::LargeListView(arrow_item.clone())),
        (DataType::FixedSizeList(b.clone(), 2), Arrow::FixedSizeList(arrow_b.clone(), 2)),
        (DataType::Struct(vec![]), Arrow::Struct(arrow_schema::Fields::empty())),
        (
            DataType::Struct(vec![a.clone(), b.clone()]),
            Arrow::Struct(vec![arrow_a.clone(), arrow_b.clone()].into()),
        ),
        (
            DataType::Union(vec![(0, a.clone()), (3, b.clone())], UnionMode::Dense),
            Arrow::Union(ids.clone(), arrow_schema::UnionMode::Dense),
        ),
        (
            DataType::Union(vec![(0, a.clone()), (3, b.clone())], UnionMode::Sparse),
            Arrow::Union(ids, arrow_schema::UnionMode::Sparse),
        ),
        (
            DataType::Dictionary(Arc::new(int32().0), Arc::new(DataType::Utf8)),
            Arrow::Dictionary(Box::new(Arrow::Int32), Box::new(Arrow::Utf8)),
        ),
        (DataType::MapType(a.clone(), true), Arrow::Map(arrow_a.clone(), true)),
        (DataType::MapType(a.clone(), false), Arrow::Map(arrow_a.clone(), false)),
        (
            DataType::RunEndEncoded(a.clone(), b.clone()),
            Arrow::RunEndEncoded(arrow_a.clone(), arrow_b.clone()),
        ),
    ]);
}

#[test]
#[allow(deprecated)]
fn fields_read_as_in_arrow() {
    let keys = Arc::new(DataType::Dictionary(
        Arc::new(int32().0),
        Arc::new(DataType::Utf8),
    ));
    let arrow_keys = arrow_schema::DataType::Dictionary(
        Box::new(arrow_schema::DataType::Int32),
        Box::new(arrow_schema::DataType::Utf8),
    );
    let mut plain = Field {
        name: "d".to_string(),
        data_type: keys,
        nullable: true,
        dict_id: -7,
        dict_is_ordered: true,
        metadata: vec![("k".to_string(), "v\\".to_string())],
    };
    let arrow_field = arrow_schema::Field::new_dict("d", arrow_keys, true, -7, true)
        .with_metadata(HashMap::from([("k".to_string(), "v\\".to_string())]));
    assert_eq!(describe_field(&plain), format!("{arrow_field:?}"));
    plain.metadata.push(("l".to_string(), "".to_string()));
    assert!(describe_field(&plain).ends_with("metadata: {\"k\": \"v\\\\\", \"l\": \"\"} }"));
}

#[test]
fn every_integer_type_can_index() {
    let values = uint32(&some(&[10, 11, 12]));
    for kind in [
        IntType::Int8,
        IntType::Int16,
        IntType::Int32,
        IntType::Int64,
        IntType::UInt8,
        IntType::UInt16,
        IntType::UInt32,
        IntType::UInt64,
    ] {
        let taken = take(&values, &ints(kind, &[Some(2), None, Some(0)]), CHECKED).unwrap();
        assert_eq!(numbers(&taken), vec![Some(12), None, Some(10)]);
    }
}

#[test]
fn bounds_are_checked_at_both_ends() {
    let index = ints(IntType::Int8, &[Some(0), Some(-1)]);
    let error = check_bounds(2, &index).unwrap_err();
    assert_eq!(error, TakeError::OutOfBounds { index: -1, len: 2 });
    assert_eq!(
        error.message(),
        "Compute error: Array index out of bounds, cannot get item at index -1 from 2 entries"
    );
    // With a null beside it, and with more slots than the type can count.
    let index = ints(IntType::Int8, &[None, Some(-1)]);
    assert_eq!(check_bounds(2, &index), Err(TakeError::OutOfBounds { index: -1, len: 2 }));
    assert_eq!(check_bounds(512, &index), Err(TakeError::OutOfBounds { index: -1, len: 512 }));
    // A null may lie anywhere.
    assert_eq!(check_bounds(2, &ints(IntType::Int8, &[Some(1), None])), Ok(()));
    assert_eq!(
        check_bounds(1, &ints(IntType::UInt64, &[Some(1), Some(7)])),
        Err(TakeError::OutOfBounds { index: 1, len: 1 })
    );
    let largest = ints(IntType::UInt64, &[Some(-1)]);
    assert_eq!(
        check_bounds(1, &largest),
        Err(TakeError::OutOfBounds { index: u64::MAX as i128, len: 1 })
    );
}

#[test]
fn a_negative_index_is_no_position() {
    let values = uint32(&some(&[10, 11, 12]));
    for kind in [IntType::Int8, IntType::Int16, IntType::Int32, IntType::Int64] {
        let error = take(&values, &ints(kind, &some(&[2, -1])), None).unwrap_err();
        assert_eq!(error, TakeError::IndexTooLarge);
        assert_eq!(error.message(), "Compute error: Cast to usize failed");
    }
}

#[test]
fn what_is_left_under_a_null_index_is_not_read() {
    let values = uint32(&some(&[10, 11, 12]));
    for kind in [IntType::Int8, IntType::Int16, IntType::Int32, IntType::Int64, IntType::UInt64] {
        let mut index = ints(kind, &some(&[2, -1]));
        index.nulls = Some(NullBuffer::from(vec![true, false]));
        let taken = take(&values, &index, None).unwrap();
        assert_eq!(numbers(&taken), vec![Some(12), None]);
        let taken = take(&values, &index, CHECKED).unwrap();
        assert_eq!(numbers(&taken), vec![Some(12), None]);
    }
}

#[test]
fn the_first_position_out_of_bounds_is_found() {
    let values = uint32(&some(&[10, 11, 12]));
    let asked = Indices::from_parts(vec![2, 9, 4, 3], vec![true, false, true, true]);
    assert_eq!(first_out_of_bounds(&values, &asked), Some(4));
    assert_eq!(first_out_of_bounds(&values, &Indices::all_of(vec![2, 0])), None);
    let nothing =
        Array { data_type: Arc::new(DataType::Null), len: 1, nulls: None, values: Values::Null };
    assert_eq!(first_out_of_bounds(&nothing, &asked), None);
}

#[test]
fn indices_that_were_taken_compose() {
    let values = strings(&[Some("a"), None, Some("c"), Some("d")]);
    let first = uint32(&[Some(3), None, Some(1), Some(2)]);
    let second = uint32(&[Some(3), Some(0), None, Some(1), Some(2)]);
    let between = take(&values, &first, None).unwrap();
    let composed = take(&first, &second, None).unwrap();
    assert_eq!(numbers(&composed), vec![Some(2), Some(3), None, None, Some(1)]);
    let twice = take(&between, &second, None).unwrap();
    let once = take(&values, &composed, None).unwrap();
    assert_eq!(texts(&twice), texts(&once));
}

#[test]
fn an_inverse_permutation_restores() {
    let values = strings(&[Some("a"), None, Some("c"), Some("")]);
    let there = uint32(&some(&[2, 0, 3, 1]));
    let back = uint32(&some(&[1, 3, 0, 2]));
    let taken = take(&values, &there, None).unwrap();
    for options in [None, CHECKED] {
        let restored = take(&taken, &back, options).unwrap();
        assert_eq!(texts(&restored), texts(&values));
    }
}

#[test]
fn a_struct_is_taken_by_column() {
    let number = uint32(&[Some(1), None, Some(3)]);
    let word = strings(&[Some("x"), Some("y"), None]);
    let fields = vec![field("n", &number.data_type, true), field("w", &word.data_type, true)];
    let whole = Array {
        data_type: Arc::new(DataType::Struct(fields)),
        len: 3,
        nulls: Some(NullBuffer::from(vec![true, true, false])),
        values: Values::Struct { columns: vec![Arc::new(number), Arc::new(word)] },
    };
    let asked = Indices::from_parts(vec![2, 1, 0, 0], vec![true, true, false, true]);
    let taken = take_impl(&whole, &asked).unwrap();
    let valid: Vec<bool> = (0..4).map(|i| is_valid(&taken, i)).collect();
    assert_eq!(valid, vec![false, true, false, true]);
    match (&taken.values, &whole.values) {
        (Values::Struct { columns: new }, Values::Struct { columns: old }) => {
            assert_eq!(numbers(&new[0]), numbers(&take_impl(&old[0], &asked).unwrap()));
            assert_eq!(numbers(&new[0]), vec![Some(3), None, None, Some(1)]);
            assert_eq!(texts(&new[1]), texts(&take_impl(&old[1], &asked).unwrap()));
            assert_eq!(texts(&new[1])[1], Some("y".to_string()));
        }
        _ => unreachable!(),
    }
}

#[test]
fn no_indices_give_no_slots() {
    let values = strings(&[Some("a"), None]);
    let taken = take(&values, &uint32(&[]), None).unwrap();
    assert_eq!(taken.len, 0);
    assert!(taken.nulls.is_none());
    assert_eq!(taken.data_type, values.data_type);
}

#[test]
fn every_slot_in_order_is_the_array_again() {
    let values = strings(&[Some("a"), None, Some("")]);
    let taken = take(&values, &uint32(&some(&[0, 1, 2])), None).unwrap();
    assert_eq!(texts(&taken), texts(&values));
}

#[test]
fn taking_twice_is_taking_once() {
    let values = strings(&[Some("a"), None, Some("c"), Some("d")]);
    let between = take(&values, &uint32(&[Some(3), None, Some(1), Some(2)]), None).unwrap();
    let twice = take(&between, &uint32(&[Some(3), Some(0), None, Some(1), Some(2)]), None).unwrap();
    let once = take(&values, &uint32(&[Some(2), Some(3), None, None, Some(1)]), None).unwrap();
    assert_eq!(texts(&twice), texts(&once));
    assert_eq!(
        texts(&once),
        vec![Some("c".to_string()), Some("d".to_string()), None, None, None]
    );
}

#[test]
fn parts_of_indices_give_parts_of_the_rows() {
    let values = uint32(&[Some(5), None, Some(7)]);
    let left = take(&values, &uint32(&[Some(2), None]), None).unwrap();
    let right = take(&values, &uint32(&some(&[1, 0])), None).unwrap();
    let whole = take(&values, &uint32(&[Some(2), None, Some(1), Some(0)]), None).unwrap();
    let mut parts = numbers(&left);
    parts.extend(numbers(&right));
    assert_eq!(numbers(&whole), parts);
}

#[test]
fn a_bitmap_without_nulls_is_left_out_or_handed_on() {
    // The values' bitmap has no say where it marks nothing.
    let values = Array {
        data_type: Arc::new(DataType::Primitive(PrimitiveType::Int(IntType::UInt32))),
        len: 2,
        nulls: Some(NullBuffer::from(vec![true, false])),
        values: Values::Native(Native::W32(vec![4, 5])),
    };
    let taken = take_impl(&values, &Indices::all_of(vec![0, 0])).unwrap();
    assert!(taken.nulls.is_none());
    let taken = take_impl(&values, &Indices::all_of(vec![0, 1])).unwrap();
    assert_eq!(numbers(&taken), vec![Some(4), None]);
    let marked = Indices::from_parts(vec![1, 9], vec![true, false]);
    let taken = take_impl(&uint32(&some(&[4, 5])), &marked).unwrap();
    assert_eq!(numbers(&taken), vec![Some(5), None]);
}
