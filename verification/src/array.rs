//! Arrays, and the rows that they hold.
use crate::buffers::boolean_bits;
use crate::datatype::{DataType, Field, IntType, PrimitiveType};
use crate::validity::{bits_of, valid_in};
use crate::views::{view_bytes, views_valid};
use arrow_buffer::{BooleanBuffer, Buffer, NullBuffer};
use std::sync::Arc;
use vstd::prelude::*;

verus! {

/// The values of a primitive array as bit patterns, one vector for each width.
#[derive(Debug, PartialEq, Eq)]
pub enum Native {
    W8(Vec<u8>),
    W16(Vec<u16>),
    W32(Vec<u32>),
    W64(Vec<u64>),
    W128(Vec<u128>),
    /// The low half of each value before the high one.
    W256(Vec<(u128, u128)>),
}

/// Offsets into a child, or sizes of parts of it.
#[derive(Debug, PartialEq, Eq)]
pub enum Offsets {
    Small(Vec<i32>),
    Large(Vec<i64>),
}

/// A column of values.
#[derive(Debug)]
pub struct Array {
    pub data_type: Arc<DataType>,
    pub len: usize,
    pub nulls: Option<NullBuffer>,
    pub values: Values,
}

pub type ArrayRef = Arc<Array>;

/// How the values of an array are laid out.
#[derive(Debug)]
pub enum Values {
    /// Nothing: every slot is null.
    Null,
    Native(Native),
    Boolean(BooleanBuffer),
    /// Strings and binaries: value `i` stands between offsets `i` and `i + 1`.
    Bytes { offsets: Offsets, data: Vec<u8> },
    /// String and binary views.
    Views { views: Vec<u128>, buffers: Vec<Buffer> },
    /// Lists and maps: the items of slot `i` stand between offsets `i` and `i + 1`.
    List { offsets: Offsets, child: ArrayRef },
    /// List views: the items of slot `i` are `sizes[i]` many, from `offsets[i]` on.
    ListView { offsets: Offsets, sizes: Offsets, child: ArrayRef },
    /// The items of slot `i` are `size` many, from `i * size` on.
    FixedSizeList { size: usize, child: ArrayRef },
    /// The bytes of slot `i` are `size` many, from `i * size` on.
    FixedSizeBinary { size: usize, data: Vec<u8> },
    Struct { columns: Vec<ArrayRef> },
    /// Slot `i` is the dictionary's slot at key `i`.
    Dictionary { key_type: IntType, keys: Native, dictionary: ArrayRef },
    /// Slot `i` belongs to the first run whose end lies beyond `offset + i`.
    Runs { end_type: IntType, ends: Vec<i64>, offset: usize, values: ArrayRef },
    /// Slot `i` belongs to the child under type id `i`: at slot `i` of it where the union is
    /// sparse, at `slots[i]` where it is dense.
    Union { type_ids: Vec<i8>, slots: Option<Vec<i32>>, children: Vec<ArrayRef> },
}

/// What a slot holds.
pub enum Value {
    Null,
    /// The bit pattern of a primitive value: the low 128 bits, then the rest.
    Native(int, int),
    Bool(bool),
    Bytes(Seq<u8>),
    List(Seq<Value>),
    Struct(Seq<Value>),
    Union(i8, Box<Value>),
}

impl Native {
    pub open spec fn spec_len(self) -> nat {
        match self {
            Native::W8(v) => v@.len(),
            Native::W16(v) => v@.len(),
            Native::W32(v) => v@.len(),
            Native::W64(v) => v@.len(),
            Native::W128(v) => v@.len(),
            Native::W256(v) => v@.len(),
        }
    }

    /// The width of each value in bytes.
    pub open spec fn width(self) -> int {
        match self {
            Native::W8(_) => 1,
            Native::W16(_) => 2,
            Native::W32(_) => 4,
            Native::W64(_) => 8,
            Native::W128(_) => 16,
            Native::W256(_) => 32,
        }
    }

    /// Value `i`: its low 128 bits, and the rest.
    pub open spec fn at(self, i: int) -> (int, int) {
        match self {
            Native::W8(v) => (v@[i] as int, 0),
            Native::W16(v) => (v@[i] as int, 0),
            Native::W32(v) => (v@[i] as int, 0),
            Native::W64(v) => (v@[i] as int, 0),
            Native::W128(v) => (v@[i] as int, 0),
            Native::W256(v) => (v@[i].0 as int, v@[i].1 as int),
        }
    }
}

impl Offsets {
    pub open spec fn spec_len(self) -> nat {
        match self {
            Offsets::Small(v) => v@.len(),
            Offsets::Large(v) => v@.len(),
        }
    }

    pub open spec fn at(self, i: int) -> int {
        match self {
            Offsets::Small(v) => v@[i] as int,
            Offsets::Large(v) => v@[i] as int,
        }
    }

    /// Offset `i`.
    pub fn get(&self, i: usize) -> (offset: i64)
        requires
            i < self.spec_len(),
        ensures
            offset == self.at(i as int),
    {
        match self {
            Offsets::Small(v) => v[i] as i64,
            Offsets::Large(v) => v[i],
        }
    }

    /// No offsets, in the same type.
    pub fn fresh(&self, capacity: usize) -> (offsets: Offsets)
        ensures
            offsets.spec_len() == 0,
            offsets is Small <==> self is Small,
    {
        match self {
            Offsets::Small(_) => Offsets::Small(Vec::with_capacity(capacity)),
            Offsets::Large(_) => Offsets::Large(Vec::with_capacity(capacity)),
        }
    }

    /// Appends an offset.
    pub fn push(&mut self, offset: i64)
        requires
            0 <= offset <= old(self).limit(),
        ensures
            final(self).spec_len() == old(self).spec_len() + 1,
            *final(self) is Small <==> *old(self) is Small,
            final(self).at(old(self).spec_len() as int) == offset,
            forall|i: int|
                0 <= i < old(self).spec_len() ==> #[trigger] final(self).at(i) == old(self).at(i),
    {
        match self {
            Offsets::Small(v) => v.push(offset as i32),
            Offsets::Large(v) => v.push(offset),
        }
    }

    /// Computes [`Offsets::limit`].
    pub fn largest(&self) -> (limit: i64)
        ensures
            limit == self.limit(),
    {
        match self {
            Offsets::Small(_) => i32::MAX as i64,
            Offsets::Large(_) => i64::MAX,
        }
    }

    /// The largest offset that the type can hold.
    pub open spec fn limit(self) -> int {
        match self {
            Offsets::Small(_) => i32::MAX as int,
            Offsets::Large(_) => i64::MAX as int,
        }
    }

    /// Offsets that cut a child of length `end` into `len` parts.
    pub open spec fn cuts(self, len: nat, end: nat) -> bool {
        &&& self.spec_len() == len + 1
        &&& 0 <= self.at(0)
        &&& forall|i: int, j: int|
            0 <= i <= j <= len ==> #[trigger] self.at(i) <= #[trigger] self.at(j)
        &&& self.at(len as int) <= end
    }

    /// Offsets and sizes that mark `len` parts of a child of length `end`.
    pub open spec fn spans(self, sizes: Offsets, len: nat, end: nat) -> bool {
        &&& self.spec_len() == len
        &&& sizes.spec_len() == len
        &&& self is Small <==> sizes is Small
        &&& forall|i: int|
            #![trigger self.at(i)]
            #![trigger sizes.at(i)]
            0 <= i < len ==> 0 <= self.at(i) && 0 <= sizes.at(i) && self.at(i) + sizes.at(i)
                <= end
    }
}

/// Run `p` covers position `x`: it is the first whose end lies beyond.
pub open spec fn covers(ends: Seq<i64>, p: int, x: int) -> bool {
    &&& 0 <= p < ends.len()
    &&& x < ends[p]
    &&& p > 0 ==> ends[p - 1] <= x
}

/// The run that covers position `x`.
pub open spec fn run_at(ends: Seq<i64>, x: int) -> int {
    choose|p: int| #[trigger] covers(ends, p, x)
}

/// Run ends that lead up to `last`, and beyond where the array is a slice.
pub open spec fn runs_wf(ends: Seq<i64>, last: int) -> bool {
    &&& forall|i: int, j: int| 0 <= i < j < ends.len() ==> #[trigger] ends[i] < #[trigger] ends[j]
    &&& ends.len() > 0 ==> ends[0] > 0
    &&& last > 0 ==> ends.len() > 0 && last <= ends[ends.len() - 1]
}

/// The position of a type id among the fields of a union.
pub open spec fn field_position(fields: Seq<(i8, Arc<Field>)>, id: i8) -> int {
    choose|k: int| 0 <= k < fields.len() && (#[trigger] fields[k]).0 == id
}

/// `id` belongs to one of the fields.
pub open spec fn has_field(fields: Seq<(i8, Arc<Field>)>, id: i8) -> bool {
    exists|k: int| 0 <= k < fields.len() && (#[trigger] fields[k]).0 == id
}

/// Type ids that are neither negative nor shared.
pub open spec fn fields_wf(fields: Seq<(i8, Arc<Field>)>) -> bool {
    &&& forall|k: int| 0 <= k < fields.len() ==> 0 <= (#[trigger] fields[k]).0
    &&& forall|j: int, k: int|
        0 <= j < k < fields.len() ==> (#[trigger] fields[j]).0 != (#[trigger] fields[k]).0
}

impl Array {
    /// The validity bits, where there is a bitmap.
    pub open spec fn bits(self) -> Option<Seq<bool>> {
        bits_of(self.nulls)
    }

    /// The fields of a union.
    pub open spec fn union_fields(self) -> Seq<(i8, Arc<Field>)> {
        self.data_type->Union_0@
    }

    /// The array is laid out as its type says, and every offset, key, view and run that it holds
    /// leads to a value. Strings are bytes here: whether those are UTF-8 is not looked at.
    pub open spec fn wf(self) -> bool
        decreases self,
    {
        &&& self.bits() matches Some(b) ==> b.len() == self.len
        &&& match self.values {
            Values::Null => *self.data_type is Null && self.nulls is None,
            Values::Native(n) => {
                &&& *self.data_type matches DataType::Primitive(t) && t.width() == n.width()
                &&& n.spec_len() == self.len
            },
            Values::Boolean(b) => *self.data_type is Boolean && boolean_bits(b).len() == self.len,
            Values::Bytes { offsets, data } => {
                &&& match *self.data_type {
                    DataType::Utf8 | DataType::Binary => offsets is Small,
                    DataType::LargeUtf8 | DataType::LargeBinary => offsets is Large,
                    _ => false,
                }
                &&& offsets.cuts(self.len as nat, data@.len())
            },
            Values::Views { views, buffers } => {
                &&& *self.data_type is Utf8View || *self.data_type is BinaryView
                &&& views@.len() == self.len
                &&& views_valid(views@, buffers@)
            },
            Values::List { offsets, child } => {
                &&& match *self.data_type {
                    DataType::List(f) => offsets is Small && child.data_type == f.data_type,
                    DataType::MapType(f, _) => offsets is Small && child.data_type == f.data_type,
                    DataType::LargeList(f) => offsets is Large && child.data_type == f.data_type,
                    _ => false,
                }
                &&& offsets.cuts(self.len as nat, child.len as nat)
                &&& child.wf()
            },
            Values::ListView { offsets, sizes, child } => {
                &&& match *self.data_type {
                    DataType::ListView(f) => offsets is Small && child.data_type == f.data_type,
                    DataType::LargeListView(f) => offsets is Large && child.data_type
                        == f.data_type,
                    _ => false,
                }
                &&& offsets.spans(sizes, self.len as nat, child.len as nat)
                &&& child.wf()
            },
            Values::FixedSizeList { size, child } => {
                &&& *self.data_type matches DataType::FixedSizeList(f, n) && n == size
                    && child.data_type == f.data_type
                &&& child.len == self.len * size
                &&& child.wf()
            },
            Values::FixedSizeBinary { size, data } => {
                &&& *self.data_type matches DataType::FixedSizeBinary(n) && n == size
                &&& data@.len() == self.len * size
            },
            Values::Struct { columns } => {
                &&& *self.data_type matches DataType::Struct(fields) && fields@.len()
                    == columns@.len() && forall|k: int|
                    0 <= k < columns@.len() ==> (#[trigger] columns@[k]).data_type
                        == fields@[k].data_type
                &&& forall|k: int|
                    0 <= k < columns@.len() ==> (#[trigger] columns@[k]).len == self.len
                        && columns@[k].wf()
            },
            Values::Dictionary { key_type, keys, dictionary } => {
                &&& *self.data_type matches DataType::Dictionary(k, v) && *k
                    == DataType::Primitive(PrimitiveType::Int(key_type)) && dictionary.data_type
                    == v
                &&& keys.width() == key_type.width()
                &&& keys.spec_len() == self.len
                &&& forall|i: int|
                    0 <= i < self.len && valid_in(self.bits(), i) ==> 0 <= key_type.value_of(
                        (#[trigger] keys.at(i)).0,
                    ) < dictionary.len
                &&& dictionary.wf()
            },
            Values::Runs { end_type, ends, offset, values } => {
                &&& *self.data_type matches DataType::RunEndEncoded(e, v) && *e.data_type
                    == DataType::Primitive(PrimitiveType::Int(end_type)) && values.data_type
                    == v.data_type
                &&& end_type is Int16 || end_type is Int32 || end_type is Int64
                &&& self.nulls is None
                &&& runs_wf(ends@, offset + self.len)
                &&& forall|p: int|
                    0 <= p < ends@.len() ==> #[trigger] ends@[p] <= end_type.max_value()
                        && ends@[p] <= usize::MAX
                &&& offset + self.len <= usize::MAX
                &&& values.len == ends@.len()
                &&& values.wf()
            },
            Values::Union { type_ids, slots, children } => {
                &&& *self.data_type matches DataType::Union(fields, mode) && {
                    &&& fields_wf(fields@)
                    &&& fields@.len() == children@.len()
                    &&& mode is Dense <==> slots is Some
                    &&& forall|k: int|
                        0 <= k < children@.len() ==> (#[trigger] children@[k]).data_type
                            == fields@[k].1.data_type
                    &&& forall|i: int|
                        0 <= i < self.len ==> has_field(fields@, #[trigger] type_ids@[i])
                    &&& match slots {
                        Some(o) => o@.len() == self.len && forall|i: int|
                            0 <= i < self.len ==> 0 <= #[trigger] o@[i] < children@[field_position(
                                fields@,
                                type_ids@[i],
                            )].len,
                        None => forall|k: int|
                            0 <= k < children@.len() ==> (#[trigger] children@[k]).len == self.len,
                    }
                }
                &&& self.nulls is None
                &&& type_ids@.len() == self.len
                &&& forall|k: int| 0 <= k < children@.len() ==> (#[trigger] children@[k]).wf()
            },
        }
    }

    /// What slot `i` holds.
    pub open spec fn row(self, i: int) -> Value
        decreases self,
    {
        if !valid_in(self.bits(), i) {
            Value::Null
        } else {
            match self.values {
                Values::Null => Value::Null,
                Values::Native(n) => Value::Native(n.at(i).0, n.at(i).1),
                Values::Boolean(b) => Value::Bool(boolean_bits(b)[i]),
                Values::Bytes { offsets, data } => Value::Bytes(
                    data@.subrange(offsets.at(i), offsets.at(i + 1)),
                ),
                Values::Views { views, buffers } => Value::Bytes(view_bytes(views@[i], buffers@)),
                Values::List { offsets, child } => Value::List(
                    Seq::new(
                        (offsets.at(i + 1) - offsets.at(i)) as nat,
                        |k: int| child.row(offsets.at(i) + k),
                    ),
                ),
                Values::ListView { offsets, sizes, child } => Value::List(
                    Seq::new(sizes.at(i) as nat, |k: int| child.row(offsets.at(i) + k)),
                ),
                Values::FixedSizeList { size, child } => Value::List(
                    Seq::new(size as nat, |k: int| child.row(i * size + k)),
                ),
                Values::FixedSizeBinary { size, data } => Value::Bytes(
                    data@.subrange(i * size, i * size + size),
                ),
                Values::Struct { columns } => Value::Struct(
                    Seq::new(
                        columns@.len(),
                        |k: int|
                            if 0 <= k < columns@.len() {
                                columns@[k].row(i)
                            } else {
                                Value::Null
                            },
                    ),
                ),
                Values::Dictionary { key_type, keys, dictionary } => dictionary.row(
                    key_type.value_of(keys.at(i).0),
                ),
                Values::Runs { end_type, ends, offset, values } => values.row(
                    run_at(ends@, offset + i),
                ),
                Values::Union { type_ids, slots, children } => {
                    let k = field_position(self.union_fields(), type_ids@[i]);
                    let slot = match slots {
                        Some(o) => o@[i] as int,
                        None => i,
                    };
                    Value::Union(
                        type_ids@[i],
                        Box::new(
                            if 0 <= k < children@.len() {
                                children@[k].row(slot)
                            } else {
                                Value::Null
                            },
                        ),
                    )
                },
            }
        }
    }

    /// What the slots hold, in order.
    pub open spec fn rows(self) -> Seq<Value> {
        Seq::new(self.len as nat, |i: int| self.row(i))
    }
}

/// What `count` slots hold, from `start` on.
pub open spec fn rows_from(a: Array, start: int, count: int) -> Seq<Value> {
    Seq::new(count as nat, |k: int| a.row(start + k))
}

/// Where the items of a list stand in the child, and how many they are.
pub open spec fn list_extent(a: Array, i: int) -> (int, int) {
    match a.values {
        Values::List { offsets, child } => (offsets.at(i), offsets.at(i + 1) - offsets.at(i)),
        Values::ListView { offsets, sizes, child } => (offsets.at(i), sizes.at(i)),
        Values::FixedSizeList { size, child } => (i * size, size as int),
        _ => (0, 0),
    }
}

/// The child of a list.
pub open spec fn list_child(a: Array) -> Array {
    match a.values {
        Values::List { offsets, child } => *child,
        Values::ListView { offsets, sizes, child } => *child,
        Values::FixedSizeList { size, child } => *child,
        _ => arbitrary(),
    }
}

/// The array is a list of some kind.
pub open spec fn is_list(a: Array) -> bool {
    a.values is List || a.values is ListView || a.values is FixedSizeList
}

/// A list holds the rows of its child within its extent.
pub proof fn lemma_list_row(a: Array, i: int)
    requires
        is_list(a),
        valid_in(a.bits(), i),
    ensures
        a.row(i) == Value::List(
            rows_from(list_child(a), list_extent(a, i).0, list_extent(a, i).1),
        ),
{
    let rows = rows_from(list_child(a), list_extent(a, i).0, list_extent(a, i).1);
    assert(a.row(i) is List);
    assert(a.row(i)->List_0 =~= rows);
}

/// The extent of a list lies within its child.
pub proof fn lemma_list_extent(a: Array, i: int)
    requires
        a.wf(),
        is_list(a),
        0 <= i < a.len,
    ensures
        0 <= list_extent(a, i).0,
        0 <= list_extent(a, i).1,
        list_extent(a, i).0 + list_extent(a, i).1 <= list_child(a).len,
{
    match a.values {
        Values::List { offsets, child } => {
            assert(offsets.at(0) <= offsets.at(i) <= offsets.at(i + 1) <= offsets.at(a.len as int));
        },
        Values::ListView { offsets, sizes, child } => {
            assert(0 <= offsets.at(i));
        },
        Values::FixedSizeList { size, child } => {
            assert(0 <= i * size && i * size + size <= a.len * size) by (nonlinear_arith)
                requires
                    0 <= i < a.len,
            ;
        },
        _ => {},
    }
}

} // verus!
