//! How types and fields read.
use crate::datatype::{DataType, Field, IntType, IntervalUnit, PrimitiveType, TimeUnit};
use crate::error::TakeError;
use crate::laws::parts::{lemma_reads_as, reads_as};
use crate::text::{
    decimal, describe_field, describe_type, entries_text, field_text, fields_text, quoted,
    union_fields_text,
};
use std::sync::Arc;
use vstd::prelude::*;

verus! {

/// The name of a unit of time.
pub open spec fn unit_reads(unit: TimeUnit) -> Seq<char> {
    match unit {
        TimeUnit::Second => "Second"@,
        TimeUnit::Millisecond => "Millisecond"@,
        TimeUnit::Microsecond => "Microsecond"@,
        TimeUnit::Nanosecond => "Nanosecond"@,
    }
}

/// `text` is `start`, then the number written out, then `end`.
pub open spec fn reads_around(text: Seq<char>, start: Seq<char>, n: int, end: Seq<char>) -> bool {
    exists|a: Seq<char>| #[trigger] reads_as(a, n) && text == start + a + end
}

/// `text` is a name, and a precision and a scale in brackets.
pub open spec fn reads_as_decimal(text: Seq<char>, name: Seq<char>, p: u8, s: i8) -> bool {
    exists|a: Seq<char>, b: Seq<char>|
        {
            &&& #[trigger] reads_as(a, p as int)
            &&& #[trigger] reads_as(b, s as int)
            &&& text == name + a + ", "@ + b + ")"@
        }
}

/// Types that nest no others read as their names, with what they are made with in brackets.
pub proof fn law_simple_types_read_as_their_names(dt: &DataType, text: String)
    requires
        call_ensures(describe_type, (dt,), text),
    ensures
        *dt is Null ==> text@ == "Null"@,
        *dt is Boolean ==> text@ == "Boolean"@,
        *dt is Utf8 ==> text@ == "Utf8"@,
        *dt is LargeUtf8 ==> text@ == "LargeUtf8"@,
        *dt is Utf8View ==> text@ == "Utf8View"@,
        *dt is Binary ==> text@ == "Binary"@,
        *dt is LargeBinary ==> text@ == "LargeBinary"@,
        *dt is BinaryView ==> text@ == "BinaryView"@,
        *dt matches DataType::FixedSizeBinary(size) ==> reads_around(
            text@,
            "FixedSizeBinary("@,
            size as int,
            ")"@,
        ),
        *dt matches DataType::Primitive(kind) ==> match kind {
            PrimitiveType::Int(IntType::Int8) => text@ == "Int8"@,
            PrimitiveType::Int(IntType::Int16) => text@ == "Int16"@,
            PrimitiveType::Int(IntType::Int32) => text@ == "Int32"@,
            PrimitiveType::Int(IntType::Int64) => text@ == "Int64"@,
            PrimitiveType::Int(IntType::UInt8) => text@ == "UInt8"@,
            PrimitiveType::Int(IntType::UInt16) => text@ == "UInt16"@,
            PrimitiveType::Int(IntType::UInt32) => text@ == "UInt32"@,
            PrimitiveType::Int(IntType::UInt64) => text@ == "UInt64"@,
            PrimitiveType::Float16 => text@ == "Float16"@,
            PrimitiveType::Float32 => text@ == "Float32"@,
            PrimitiveType::Float64 => text@ == "Float64"@,
            PrimitiveType::Date32 => text@ == "Date32"@,
            PrimitiveType::Date64 => text@ == "Date64"@,
            PrimitiveType::Time32(unit) => text@ == "Time32("@ + unit_reads(unit) + ")"@,
            PrimitiveType::Time64(unit) => text@ == "Time64("@ + unit_reads(unit) + ")"@,
            PrimitiveType::Timestamp(unit, None) => text@ == "Timestamp("@ + unit_reads(unit)
                + ", None)"@,
            PrimitiveType::Timestamp(unit, Some(zone)) => text@ == "Timestamp("@ + unit_reads(unit)
                + ", Some("@ + quoted(zone@) + "))"@,
            PrimitiveType::Duration(unit) => text@ == "Duration("@ + unit_reads(unit) + ")"@,
            PrimitiveType::Interval(IntervalUnit::YearMonth) => text@ == "Interval(YearMonth)"@,
            PrimitiveType::Interval(IntervalUnit::DayTime) => text@ == "Interval(DayTime)"@,
            PrimitiveType::Interval(IntervalUnit::MonthDayNano) => text@
                == "Interval(MonthDayNano)"@,
            PrimitiveType::Decimal32(p, s) => reads_as_decimal(text@, "Decimal32("@, p, s),
            PrimitiveType::Decimal64(p, s) => reads_as_decimal(text@, "Decimal64("@, p, s),
            PrimitiveType::Decimal128(p, s) => reads_as_decimal(text@, "Decimal128("@, p, s),
            PrimitiveType::Decimal256(p, s) => reads_as_decimal(text@, "Decimal256("@, p, s),
        },
{
    match dt {
        DataType::FixedSizeBinary(size) => lemma_reads_as(*size as int),
        DataType::Primitive(
            PrimitiveType::Decimal32(p, s) | PrimitiveType::Decimal64(p, s)
            | PrimitiveType::Decimal128(p, s) | PrimitiveType::Decimal256(p, s),
        ) => {
            lemma_reads_as(*p as int);
            lemma_reads_as(*s as int);
            assert(reads_as(decimal(*p as int), *p as int));
            assert(reads_as(decimal(*s as int), *s as int));
        },
        _ => {},
    }
}

/// The first `k` texts, with commas between them.
pub open spec fn listed(texts: Seq<Seq<char>>, k: nat) -> Seq<char>
    decreases k,
{
    if k == 0 {
        Seq::empty()
    } else if k == 1 {
        texts[0]
    } else {
        listed(texts, (k - 1) as nat) + ", "@ + texts[k - 1]
    }
}

/// The views of these texts.
pub open spec fn chars_of(texts: Seq<String>) -> Seq<Seq<char>> {
    Seq::new(texts.len(), |k: int| texts[k]@)
}

/// Types that nest fields read as their names with the fields in brackets, each as it reads by
/// itself and all in their order.
pub proof fn law_nested_types_read_by_their_fields(
    dt: &DataType,
    text: String,
    fields: Seq<&Field>,
    each: Seq<String>,
)
    requires
        call_ensures(describe_type, (dt,), text),
        each.len() == fields.len(),
        forall|k: int|
            0 <= k < fields.len() ==> call_ensures(
                describe_field,
                (fields[k],),
                #[trigger] each[k],
            ),
        match *dt {
            DataType::List(f) | DataType::LargeList(f) | DataType::ListView(f)
            | DataType::LargeListView(f) | DataType::FixedSizeList(f, _)
            | DataType::MapType(f, _) => fields.len() == 1 && *fields[0] == *f,
            DataType::Struct(inner) => fields.len() == inner@.len() && forall|k: int|
                0 <= k < inner@.len() ==> *#[trigger] fields[k] == *inner@[k],
            DataType::RunEndEncoded(e, v) => fields.len() == 2 && *fields[0] == *e && *fields[1]
                == *v,
            _ => false,
        },
    ensures
        match *dt {
            DataType::List(_) => text@ == "List("@ + each[0]@ + ")"@,
            DataType::LargeList(_) => text@ == "LargeList("@ + each[0]@ + ")"@,
            DataType::ListView(_) => text@ == "ListView("@ + each[0]@ + ")"@,
            DataType::LargeListView(_) => text@ == "LargeListView("@ + each[0]@ + ")"@,
            DataType::FixedSizeList(_, size) => reads_around(
                text@,
                "FixedSizeList("@ + each[0]@ + ", "@,
                size as int,
                ")"@,
            ),
            DataType::MapType(_, sorted) => text@ == "Map("@ + each[0]@ + if sorted {
                ", true)"@
            } else {
                ", false)"@
            },
            DataType::Struct(_) => text@ == "Struct(["@ + listed(chars_of(each), each.len())
                + "])"@,
            DataType::RunEndEncoded(_, _) => text@ == "RunEndEncoded("@ + each[0]@ + ", "@
                + each[1]@ + ")"@,
            _ => true,
        },
{
    assert forall|k: int| 0 <= k < each.len() implies #[trigger] each[k]@ == field_text(
        *fields[k],
    ) by {}
    match dt {
        DataType::FixedSizeList(_, size) => {
            lemma_reads_as(*size as int);
            let a = decimal(*size as int);
            assert(reads_as(a, *size as int));
            assert(each[0]@ == field_text(*fields[0]));
            assert(text@ =~= "FixedSizeList("@ + each[0]@ + ", "@ + a + ")"@);
        },
        DataType::Struct(inner) => {
            assert forall|k: int| 0 <= k < inner@.len() implies chars_of(each)[k] == field_text(
                *#[trigger] inner@[k],
            ) by {
                assert(each[k]@ == field_text(*fields[k]));
            }
            lemma_listed(inner@, chars_of(each), inner@.len());
        },
        DataType::RunEndEncoded(_, _) => {
            assert(each[0]@ == field_text(*fields[0]));
            assert(each[1]@ == field_text(*fields[1]));
        },
        DataType::Union(_, _) => {},
        _ => {
            assert(each[0]@ == field_text(*fields[0]));
        },
    }
}

/// The fields of a struct are listed.
proof fn lemma_listed(fields: Seq<Arc<Field>>, texts: Seq<Seq<char>>, k: nat)
    requires
        k <= fields.len() == texts.len(),
        forall|j: int| 0 <= j < fields.len() ==> texts[j] == field_text(*#[trigger] fields[j]),
    ensures
        fields_text(fields, k) == listed(texts, k),
    decreases k,
{
    reveal_strlit("");
    if k > 0 {
        lemma_listed(fields, texts, (k - 1) as nat);
        assert(texts[k - 1] == field_text(*fields[k - 1]));
        if k == 1 {
            assert(fields_text(fields, 0) =~= Seq::empty());
            assert(fields_text(fields, 1) =~= texts[0]);
        }
    } else {
        assert(fields_text(fields, 0) =~= Seq::empty());
    }
}

/// A field of a union, after its type id.
pub open spec fn reads_as_variant(text: Seq<char>, id: i8, field: Seq<char>) -> bool {
    reads_around(text, "("@, id as int, ", "@ + field + ")"@)
}

/// Unions read as their fields, each after its type id, and their mode.
pub proof fn law_unions_read_by_their_fields(dt: &DataType, text: String, each: Seq<String>)
    requires
        call_ensures(describe_type, (dt,), text),
        *dt matches DataType::Union(fields, mode) && each.len() == fields@.len() && forall|k: int|
            0 <= k < fields@.len() ==> call_ensures(
                describe_field,
                (&*fields@[k].1,),
                #[trigger] each[k],
            ),
    ensures
        *dt matches DataType::Union(fields, mode) && exists|variants: Seq<Seq<char>>|
            {
                &&& variants.len() == each.len()
                &&& forall|k: int|
                    0 <= k < each.len() ==> #[trigger] reads_as_variant(
                        variants[k],
                        fields@[k].0,
                        each[k]@,
                    )
                &&& text@ == "Union(["@ + #[trigger] listed(variants, each.len())
                    + if mode is Sparse {
                    "], Sparse)"@
                } else {
                    "], Dense)"@
                }
            },
{
    if let DataType::Union(fields, mode) = dt {
        let variants = Seq::new(
            fields@.len(),
            |k: int|
                "("@ + decimal(fields@[k].0 as int) + ", "@ + field_text(*fields@[k].1) + ")"@,
        );
        assert forall|k: int| 0 <= k < each.len() implies #[trigger] reads_as_variant(
            variants[k],
            fields@[k].0,
            each[k]@,
        ) by {
            let a = decimal(fields@[k].0 as int);
            lemma_reads_as(fields@[k].0 as int);
            assert(reads_as(a, fields@[k].0 as int));
            assert(variants[k] =~= "("@ + a + (", "@ + each[k]@ + ")"@));
        }
        lemma_variants_listed(fields@, variants, fields@.len());
        assert(listed(variants, each.len()) == union_fields_text(fields@, fields@.len()));
    }
}

/// The fields of a union are listed.
proof fn lemma_variants_listed(
    fields: Seq<(i8, Arc<Field>)>,
    variants: Seq<Seq<char>>,
    k: nat,
)
    requires
        k <= fields.len() == variants.len(),
        forall|j: int|
            0 <= j < fields.len() ==> #[trigger] variants[j] == "("@ + decimal(fields[j].0 as int)
                + ", "@ + field_text(*fields[j].1) + ")"@,
    ensures
        union_fields_text(fields, k) == listed(variants, k),
    decreases k,
{
    reveal_strlit("");
    reveal_strlit("(");
    reveal_strlit(", ");
    reveal_strlit(", (");
    if k > 0 {
        lemma_variants_listed(fields, variants, (k - 1) as nat);
        let before = union_fields_text(fields, (k - 1) as nat);
        assert(", ("@ =~= ", "@ + "("@);
        if k == 1 {
            assert(before =~= Seq::empty());
            assert(union_fields_text(fields, 1) =~= variants[0]);
        } else {
            assert(union_fields_text(fields, k) =~= before + ", "@ + variants[k - 1]);
        }
    } else {
        assert(union_fields_text(fields, 0) =~= Seq::empty());
    }
}

/// Dictionaries read as the types of their keys and values.
pub proof fn law_dictionaries_read_by_their_types(
    dt: &DataType,
    text: String,
    keys: String,
    values: String,
)
    requires
        call_ensures(describe_type, (dt,), text),
        *dt matches DataType::Dictionary(k, v) && call_ensures(describe_type, (&*k,), keys)
            && call_ensures(describe_type, (&*v,), values),
    ensures
        text@ == "Dictionary("@ + keys@ + ", "@ + values@ + ")"@,
{
}

/// An entry of metadata, key and value.
pub open spec fn entry_reads(entry: (String, String)) -> Seq<char> {
    quoted(entry.0@) + ": "@ + quoted(entry.1@)
}

/// A field reads as its name, unless that is the one of list items, and its type; then what it is
/// besides, as far as it is: nullable, a dictionary with an id, an ordered one, one with metadata.
pub proof fn law_fields_read_by_their_parts(field: &Field, text: String, dt: String)
    requires
        call_ensures(describe_field, (field,), text),
        call_ensures(describe_type, (&*field.data_type,), dt),
    ensures
        exists|id: Seq<char>|
            {
                &&& #[trigger] reads_as(id, field.dict_id as int)
                &&& text@ == "Field { "@ + (if field.name@ == "item"@ {
                    Seq::empty()
                } else {
                    "name: "@ + quoted(field.name@) + ", "@
                }) + "data_type: "@ + dt@ + (if field.nullable {
                    ", nullable: true"@
                } else {
                    Seq::empty()
                }) + (if field.dict_id != 0 {
                    ", dict_id: "@ + id
                } else {
                    Seq::empty()
                }) + (if field.dict_is_ordered {
                    ", dict_is_ordered: true"@
                } else {
                    Seq::empty()
                }) + (if field.metadata@.len() == 0 {
                    Seq::empty()
                } else {
                    ", metadata: {"@ + listed(
                        Seq::new(
                            field.metadata@.len(),
                            |k: int| entry_reads(field.metadata@[k]),
                        ),
                        field.metadata@.len(),
                    ) + "}"@
                }) + " }"@
            },
{
    reveal_strlit("");
    assert(""@ =~= Seq::empty());
    lemma_reads_as(field.dict_id as int);
    let id = decimal(field.dict_id as int);
    assert(reads_as(id, field.dict_id as int));
    let entries = Seq::new(field.metadata@.len(), |k: int| entry_reads(field.metadata@[k]));
    lemma_entries_listed(field.metadata@, entries, field.metadata@.len());
}

/// The entries of metadata are listed.
proof fn lemma_entries_listed(
    metadata: Seq<(String, String)>,
    entries: Seq<Seq<char>>,
    k: nat,
)
    requires
        k <= metadata.len() == entries.len(),
        forall|j: int|
            0 <= j < metadata.len() ==> #[trigger] entries[j] == entry_reads(metadata[j]),
    ensures
        entries_text(metadata, k) == listed(entries, k),
    decreases k,
{
    reveal_strlit("");
    if k > 0 {
        lemma_entries_listed(metadata, entries, (k - 1) as nat);
        let before = entries_text(metadata, (k - 1) as nat);
        if k == 1 {
            assert(before =~= Seq::empty());
            assert(entries_text(metadata, 1) =~= entries[0]);
        } else {
            assert(entries_text(metadata, k) =~= before + ", "@ + entries[k - 1]);
        }
    } else {
        assert(entries_text(metadata, 0) =~= Seq::empty());
    }
}

/// Indices that are no integers are refused by the name of their type.
pub proof fn law_refused_indices_are_named(error: &TakeError, message: String, name: String)
    requires
        call_ensures(TakeError::message, (error,), message),
        *error matches TakeError::NotIntegers(dt) && call_ensures(describe_type, (&*dt,), name),
    ensures
        message@ == "Invalid argument error: Take only supported for integers, got "@ + name@,
{
}

} // verus!
