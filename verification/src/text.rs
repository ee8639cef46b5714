//! How numbers and types read in messages.
use crate::datatype::{DataType, Field, IntType, IntervalUnit, PrimitiveType, TimeUnit, UnionMode};
use std::sync::Arc;
use vstd::prelude::*;
use vstd::string::StringExecFns;

verus! {

/// A digit.
pub open spec fn digit(d: int) -> char {
    ('0' as int + d) as char
}

/// An integer in decimal, with a sign where it is negative.
pub open spec fn decimal(n: int) -> Seq<char>
    decreases
            (if n < 0 {
                1 - n
            } else {
                n
            }),
{
    if n < 0 {
        seq!['-'] + decimal(-n)
    } else if n < 10 {
        seq![digit(n)]
    } else {
        decimal(n / 10).push(digit(n % 10))
    }
}

/// `ToString::to_string` on an integer: its decimal form.
#[verifier::external_body]
pub(crate) fn to_decimal(value: i128) -> (text: String)
    ensures
        text@ == decimal(value as int),
{
    value.to_string()
}

/// What `Debug` makes of a string.
pub uninterp spec fn quoted(text: Seq<char>) -> Seq<char>;

/// A printable ASCII character that needs no escape between double quotes.
pub open spec fn is_plain(c: char) -> bool {
    ' ' <= c <= '~' && c != '"' && c != '\\'
}

/// `Debug` on a string: it in double quotes. Plain characters stand for themselves; how others are
/// escaped is not said.
#[verifier::external_body]
pub(crate) fn quote(text: &str) -> (result: String)
    ensures
        result@ == quoted(text@),
        (forall|i: int| 0 <= i < text@.len() ==> is_plain(#[trigger] text@[i])) ==> result@ == seq![
            '"',
        ] + text@ + seq!['"'],
{
    format!("{text:?}")
}

/// A text around one number.
pub(crate) fn around(before: &str, value: i128, after: &str) -> (text: String)
    ensures
        text@ == before@ + decimal(value as int) + after@,
{
    before.to_owned().concat(to_decimal(value).as_str()).concat(after)
}

pub open spec fn unit_text(unit: TimeUnit) -> Seq<char> {
    match unit {
        TimeUnit::Second => "Second"@,
        TimeUnit::Millisecond => "Millisecond"@,
        TimeUnit::Microsecond => "Microsecond"@,
        TimeUnit::Nanosecond => "Nanosecond"@,
    }
}

pub open spec fn int_text(kind: IntType) -> Seq<char> {
    match kind {
        IntType::Int8 => "Int8"@,
        IntType::Int16 => "Int16"@,
        IntType::Int32 => "Int32"@,
        IntType::Int64 => "Int64"@,
        IntType::UInt8 => "UInt8"@,
        IntType::UInt16 => "UInt16"@,
        IntType::UInt32 => "UInt32"@,
        IntType::UInt64 => "UInt64"@,
    }
}

/// A decimal type: its name, its precision and its scale.
pub open spec fn decimal_text(name: Seq<char>, precision: u8, scale: i8) -> Seq<char> {
    name + decimal(precision as int) + ", "@ + decimal(scale as int) + ")"@
}

pub open spec fn primitive_text(kind: PrimitiveType) -> Seq<char> {
    match kind {
        PrimitiveType::Int(t) => int_text(t),
        PrimitiveType::Float16 => "Float16"@,
        PrimitiveType::Float32 => "Float32"@,
        PrimitiveType::Float64 => "Float64"@,
        PrimitiveType::Date32 => "Date32"@,
        PrimitiveType::Date64 => "Date64"@,
        PrimitiveType::Time32(unit) => "Time32("@ + unit_text(unit) + ")"@,
        PrimitiveType::Time64(unit) => "Time64("@ + unit_text(unit) + ")"@,
        PrimitiveType::Timestamp(unit, None) => "Timestamp("@ + unit_text(unit) + ", None)"@,
        PrimitiveType::Timestamp(unit, Some(zone)) => "Timestamp("@ + unit_text(unit) + ", Some("@
            + quoted(zone@) + "))"@,
        PrimitiveType::Duration(unit) => "Duration("@ + unit_text(unit) + ")"@,
        PrimitiveType::Interval(IntervalUnit::YearMonth) => "Interval(YearMonth)"@,
        PrimitiveType::Interval(IntervalUnit::DayTime) => "Interval(DayTime)"@,
        PrimitiveType::Interval(IntervalUnit::MonthDayNano) => "Interval(MonthDayNano)"@,
        PrimitiveType::Decimal32(p, s) => decimal_text("Decimal32("@, p, s),
        PrimitiveType::Decimal64(p, s) => decimal_text("Decimal64("@, p, s),
        PrimitiveType::Decimal128(p, s) => decimal_text("Decimal128("@, p, s),
        PrimitiveType::Decimal256(p, s) => decimal_text("Decimal256("@, p, s),
    }
}

/// A type, with the fields of what it nests.
pub open spec fn type_text(dt: DataType) -> Seq<char>
    decreases dt, 0nat,
{
    match dt {
        DataType::Null => "Null"@,
        DataType::Boolean => "Boolean"@,
        DataType::Primitive(kind) => primitive_text(kind),
        DataType::Utf8 => "Utf8"@,
        DataType::LargeUtf8 => "LargeUtf8"@,
        DataType::Utf8View => "Utf8View"@,
        DataType::Binary => "Binary"@,
        DataType::LargeBinary => "LargeBinary"@,
        DataType::BinaryView => "BinaryView"@,
        DataType::FixedSizeBinary(size) => "FixedSizeBinary("@ + decimal(size as int) + ")"@,
        DataType::List(f) => "List("@ + field_text(*f) + ")"@,
        DataType::LargeList(f) => "LargeList("@ + field_text(*f) + ")"@,
        DataType::ListView(f) => "ListView("@ + field_text(*f) + ")"@,
        DataType::LargeListView(f) => "LargeListView("@ + field_text(*f) + ")"@,
        DataType::FixedSizeList(f, size) => "FixedSizeList("@ + field_text(*f) + ", "@ + decimal(
            size as int,
        ) + ")"@,
        DataType::Struct(fields) => "Struct(["@ + fields_text(fields@, fields@.len()) + "])"@,
        DataType::Union(fields, mode) => "Union(["@ + union_fields_text(fields@, fields@.len())
            + if mode is Sparse {
            "], Sparse)"@
        } else {
            "], Dense)"@
        },
        DataType::Dictionary(k, v) => "Dictionary("@ + type_text(*k) + ", "@ + type_text(*v)
            + ")"@,
        DataType::MapType(f, sorted) => "Map("@ + field_text(*f) + if sorted {
            ", true)"@
        } else {
            ", false)"@
        },
        DataType::RunEndEncoded(e, v) => "RunEndEncoded("@ + field_text(*e) + ", "@ + field_text(*v)
            + ")"@,
    }
}

/// The first `k` entries of a field's metadata.
pub open spec fn entries_text(entries: Seq<(String, String)>, k: nat) -> Seq<char>
    decreases k,
{
    if k == 0 {
        ""@
    } else {
        entries_text(entries, (k - 1) as nat) + (if k == 1 {
            ""@
        } else {
            ", "@
        }) + quoted(entries[k - 1].0@) + ": "@ + quoted(entries[k - 1].1@)
    }
}

/// A field: its name, unless that is the one of list items, its type, whether it may be null, the
/// id and order of its dictionary where they are set, and its metadata where it has any.
pub open spec fn field_text(f: Field) -> Seq<char>
    decreases f, 0nat,
{
    "Field { "@ + (if f.name@ == "item"@ {
        ""@
    } else {
        "name: "@ + quoted(f.name@) + ", "@
    }) + "data_type: "@ + type_text(*f.data_type) + (if f.nullable {
        ", nullable: true"@
    } else {
        ""@
    }) + (if f.dict_id != 0 {
        ", dict_id: "@ + decimal(f.dict_id as int)
    } else {
        ""@
    }) + (if f.dict_is_ordered {
        ", dict_is_ordered: true"@
    } else {
        ""@
    }) + (if f.metadata@.len() == 0 {
        ""@
    } else {
        ", metadata: {"@ + entries_text(f.metadata@, f.metadata@.len()) + "}"@
    }) + " }"@
}

/// The first `k` fields of a struct.
pub open spec fn fields_text(fields: Seq<Arc<Field>>, k: nat) -> Seq<char>
    decreases fields, k,
{
    if k == 0 || k > fields.len() {
        ""@
    } else {
        fields_text(fields, (k - 1) as nat) + (if k == 1 {
            ""@
        } else {
            ", "@
        }) + field_text(*fields[k - 1])
    }
}

/// The first `k` fields of a union, each after its type id.
pub open spec fn union_fields_text(fields: Seq<(i8, Arc<Field>)>, k: nat) -> Seq<char>
    decreases fields, k,
{
    if k == 0 || k > fields.len() {
        ""@
    } else {
        union_fields_text(fields, (k - 1) as nat) + (if k == 1 {
            "("@
        } else {
            ", ("@
        }) + decimal(fields[k - 1].0 as int) + ", "@ + field_text(*fields[k - 1].1) + ")"@
    }
}

fn unit_name(unit: TimeUnit) -> (name: &'static str)
    ensures
        name@ == unit_text(unit),
{
    match unit {
        TimeUnit::Second => "Second",
        TimeUnit::Millisecond => "Millisecond",
        TimeUnit::Microsecond => "Microsecond",
        TimeUnit::Nanosecond => "Nanosecond",
    }
}

fn int_name(kind: IntType) -> (name: &'static str)
    ensures
        name@ == int_text(kind),
{
    match kind {
        IntType::Int8 => "Int8",
        IntType::Int16 => "Int16",
        IntType::Int32 => "Int32",
        IntType::Int64 => "Int64",
        IntType::UInt8 => "UInt8",
        IntType::UInt16 => "UInt16",
        IntType::UInt32 => "UInt32",
        IntType::UInt64 => "UInt64",
    }
}

fn describe_decimal(name: &str, precision: u8, scale: i8) -> (text: String)
    ensures
        text@ == decimal_text(name@, precision, scale),
{
    around(name, precision as i128, ", ").concat(to_decimal(scale as i128).as_str()).concat(")")
}

fn describe_primitive(kind: &PrimitiveType) -> (text: String)
    ensures
        text@ == primitive_text(*kind),
{
    match kind {
        PrimitiveType::Int(t) => int_name(*t).to_owned(),
        PrimitiveType::Float16 => "Float16".to_owned(),
        PrimitiveType::Float32 => "Float32".to_owned(),
        PrimitiveType::Float64 => "Float64".to_owned(),
        PrimitiveType::Date32 => "Date32".to_owned(),
        PrimitiveType::Date64 => "Date64".to_owned(),
        PrimitiveType::Time32(unit) => "Time32(".to_owned().concat(unit_name(*unit)).concat(")"),
        PrimitiveType::Time64(unit) => "Time64(".to_owned().concat(unit_name(*unit)).concat(")"),
        PrimitiveType::Timestamp(unit, zone) => {
            let text = "Timestamp(".to_owned().concat(unit_name(*unit));
            match zone {
                None => text.concat(", None)"),
                Some(zone) => text.concat(", Some(").concat(quote(zone.as_str()).as_str()).concat(
                    "))",
                ),
            }
        },
        PrimitiveType::Duration(unit) => "Duration(".to_owned().concat(unit_name(*unit)).concat(
            ")",
        ),
        PrimitiveType::Interval(unit) => match unit {
            IntervalUnit::YearMonth => "Interval(YearMonth)".to_owned(),
            IntervalUnit::DayTime => "Interval(DayTime)".to_owned(),
            IntervalUnit::MonthDayNano => "Interval(MonthDayNano)".to_owned(),
        },
        PrimitiveType::Decimal32(p, s) => describe_decimal("Decimal32(", *p, *s),
        PrimitiveType::Decimal64(p, s) => describe_decimal("Decimal64(", *p, *s),
        PrimitiveType::Decimal128(p, s) => describe_decimal("Decimal128(", *p, *s),
        PrimitiveType::Decimal256(p, s) => describe_decimal("Decimal256(", *p, *s),
    }
}

fn describe_entries(entries: &Vec<(String, String)>) -> (text: String)
    ensures
        text@ == entries_text(entries@, entries@.len()),
{
    let mut list = "".to_owned();
    let mut k: usize = 0;
    while k < entries.len()
        invariant
            k <= entries@.len(),
            list@ == entries_text(entries@, k as nat),
        decreases entries@.len() - k,
    {
        let separator: &str = if k == 0 {
            ""
        } else {
            ", "
        };
        list = list.concat(separator).concat(quote(entries[k].0.as_str()).as_str()).concat(
            ": ",
        ).concat(quote(entries[k].1.as_str()).as_str());
        k += 1;
    }
    list
}

/// How a type reads.
pub fn describe_type(dt: &DataType) -> (text: String)
    ensures
        text@ == type_text(*dt),
    decreases dt, 0nat,
{
    match dt {
        DataType::Null => "Null".to_owned(),
        DataType::Boolean => "Boolean".to_owned(),
        DataType::Primitive(kind) => describe_primitive(kind),
        DataType::Utf8 => "Utf8".to_owned(),
        DataType::LargeUtf8 => "LargeUtf8".to_owned(),
        DataType::Utf8View => "Utf8View".to_owned(),
        DataType::Binary => "Binary".to_owned(),
        DataType::LargeBinary => "LargeBinary".to_owned(),
        DataType::BinaryView => "BinaryView".to_owned(),
        DataType::FixedSizeBinary(size) => around("FixedSizeBinary(", *size as i128, ")"),
        DataType::List(f) => "List(".to_owned().concat(describe_field(f).as_str()).concat(")"),
        DataType::LargeList(f) => "LargeList(".to_owned().concat(
            describe_field(f).as_str(),
        ).concat(")"),
        DataType::ListView(f) => "ListView(".to_owned().concat(
            describe_field(f).as_str(),
        ).concat(")"),
        DataType::LargeListView(f) => "LargeListView(".to_owned().concat(
            describe_field(f).as_str(),
        ).concat(")"),
        DataType::FixedSizeList(f, size) => "FixedSizeList(".to_owned().concat(
            describe_field(f).as_str(),
        ).concat(", ").concat(to_decimal(*size as i128).as_str()).concat(")"),
        DataType::Struct(fields) => {
            let mut list = "".to_owned();
            let mut k: usize = 0;
            while k < fields.len()
                invariant
                    *dt == DataType::Struct(*fields),
                    k <= fields@.len(),
                    list@ == fields_text(fields@, k as nat),
                decreases fields@.len() - k,
            {
                assert(decreases_to!(*dt => dt->Struct_0@[k as int]));
                let separator: &str = if k == 0 {
                    ""
                } else {
                    ", "
                };
                list = list.concat(separator).concat(describe_field(&fields[k]).as_str());
                k += 1;
            }
            "Struct([".to_owned().concat(list.as_str()).concat("])")
        },
        DataType::Union(fields, mode) => {
            let mut list = "".to_owned();
            let mut k: usize = 0;
            while k < fields.len()
                invariant
                    *dt == DataType::Union(*fields, *mode),
                    k <= fields@.len(),
                    list@ == union_fields_text(fields@, k as nat),
                decreases fields@.len() - k,
            {
                assert(decreases_to!(*dt => dt->Union_0@[k as int]));
                let separator: &str = if k == 0 {
                    "("
                } else {
                    ", ("
                };
                list = list.concat(separator).concat(
                    to_decimal(fields[k].0 as i128).as_str(),
                ).concat(", ").concat(describe_field(&fields[k].1).as_str()).concat(")");
                k += 1;
            }
            let end: &str = match mode {
                UnionMode::Sparse => "], Sparse)",
                UnionMode::Dense => "], Dense)",
            };
            "Union([".to_owned().concat(list.as_str()).concat(end)
        },
        DataType::Dictionary(k, v) => "Dictionary(".to_owned().concat(
            describe_type(k).as_str(),
        ).concat(", ").concat(describe_type(v).as_str()).concat(")"),
        DataType::MapType(f, sorted) => {
            let end: &str = if *sorted {
                ", true)"
            } else {
                ", false)"
            };
            "Map(".to_owned().concat(describe_field(f).as_str()).concat(end)
        },
        DataType::RunEndEncoded(e, v) => "RunEndEncoded(".to_owned().concat(
            describe_field(e).as_str(),
        ).concat(", ").concat(describe_field(v).as_str()).concat(")"),
    }
}

/// How a field reads.
pub fn describe_field(f: &Field) -> (text: String)
    ensures
        text@ == field_text(*f),
    decreases f, 0nat,
{
    let name = if f.name == "item".to_owned() {
        "".to_owned()
    } else {
        "name: ".to_owned().concat(quote(f.name.as_str()).as_str()).concat(", ")
    };
    let nullable: &str = if f.nullable {
        ", nullable: true"
    } else {
        ""
    };
    let dict_id = if f.dict_id != 0 {
        ", dict_id: ".to_owned().concat(to_decimal(f.dict_id as i128).as_str())
    } else {
        "".to_owned()
    };
    let ordered: &str = if f.dict_is_ordered {
        ", dict_is_ordered: true"
    } else {
        ""
    };
    let metadata = if f.metadata.len() == 0 {
        "".to_owned()
    } else {
        ", metadata: {".to_owned().concat(describe_entries(&f.metadata).as_str()).concat("}")
    };
    "Field { ".to_owned().concat(name.as_str()).concat("data_type: ").concat(
        describe_type(&f.data_type).as_str(),
    ).concat(nullable).concat(dict_id.as_str()).concat(ordered).concat(metadata.as_str()).concat(
        " }",
    )
}

} // verus!
