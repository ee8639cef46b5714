//! Arrays without slots.
use crate::array::{Array, ArrayRef, Native, Offsets, Values};
use crate::buffers::{boolean_bits, share};
use arrow_buffer::BooleanBuffer;
use std::sync::Arc;
use vstd::prelude::*;

verus! {

impl Native {
    /// No values, of the same width.
    pub fn fresh(&self) -> (fresh: Native)
        ensures
            fresh.width() == self.width(),
            fresh.spec_len() == 0,
    {
        match self {
            Native::W8(_) => Native::W8(Vec::new()),
            Native::W16(_) => Native::W16(Vec::new()),
            Native::W32(_) => Native::W32(Vec::new()),
            Native::W64(_) => Native::W64(Vec::new()),
            Native::W128(_) => Native::W128(Vec::new()),
            Native::W256(_) => Native::W256(Vec::new()),
        }
    }
}

/// No bits.
fn no_bits() -> (bits: BooleanBuffer)
    ensures
        boolean_bits(bits).len() == 0,
{
    let unset = |i: usize| -> (bit: bool)
        ensures
            !bit,
    {
        false
    };
    BooleanBuffer::collect_bool(0, unset)
}

/// The offsets of no parts.
fn no_cuts(offsets: &Offsets) -> (cuts: Offsets)
    ensures
        cuts.cuts(0, 0),
        cuts is Small <==> offsets is Small,
{
    let mut cuts = offsets.fresh(1);
    cuts.push(0);
    cuts
}

/// Each child without its slots.
fn empty_children(children: &Vec<ArrayRef>) -> (empties: Vec<ArrayRef>)
    requires
        forall|k: int| 0 <= k < children@.len() ==> (#[trigger] children@[k]).wf(),
    ensures
        empties@.len() == children@.len(),
        forall|k: int|
            0 <= k < children@.len() ==> (#[trigger] empties@[k]).wf() && is_empty_like(
                *children@[k],
                *empties@[k],
            ),
    decreases children@, 0nat,
{
    let mut empties: Vec<ArrayRef> = Vec::with_capacity(children.len());
    let mut k: usize = 0;
    while k < children.len()
        invariant
            forall|j: int| 0 <= j < children@.len() ==> (#[trigger] children@[j]).wf(),
            k <= children@.len(),
            empties@.len() == k,
            forall|j: int|
                0 <= j < k ==> (#[trigger] empties@[j]).wf() && is_empty_like(
                    *children@[j],
                    *empties@[j],
                ),
        decreases children@.len() - k,
    {
        empties.push(Arc::new(new_empty_array(&children[k])));
        k += 1;
    }
    empties
}

/// `r` is of the type and layout of `a`, and holds nothing: no slots, no bytes, no buffers, and
/// children of which the same is true.
pub open spec fn is_empty_like(a: Array, r: Array) -> bool
    decreases a,
{
    &&& r.data_type == a.data_type
    &&& r.len == 0
    &&& r.nulls is None
    &&& match (a.values, r.values) {
        (Values::Null, Values::Null) => true,
        (Values::Native(values), Values::Native(v)) => {
            v.width() == values.width() && v.spec_len() == 0
        },
        (Values::Boolean(_), Values::Boolean(b)) => boolean_bits(b).len() == 0,
        (Values::Bytes { offsets, data: _ }, Values::Bytes { offsets: o, data: d }) => {
            (o is Small <==> offsets is Small) && o.cuts(0, 0) && d@.len() == 0
        },
        (Values::Views { .. }, Values::Views { views: v, buffers: b }) => {
            v@.len() == 0 && b@.len() == 0
        },
        (Values::List { offsets, child }, Values::List { offsets: o, child: c }) => {
            (o is Small <==> offsets is Small) && o.cuts(0, 0) && is_empty_like(*child, *c)
        },
        (
            Values::ListView { offsets, sizes, child },
            Values::ListView { offsets: o, sizes: s, child: c },
        ) => {
            &&& o is Small <==> offsets is Small
            &&& s is Small <==> sizes is Small
            &&& o.spec_len() == 0
            &&& s.spec_len() == 0
            &&& is_empty_like(*child, *c)
        },
        (
            Values::FixedSizeList { size, child },
            Values::FixedSizeList { size: s, child: c },
        ) => { s == size && is_empty_like(*child, *c) },
        (
            Values::FixedSizeBinary { size, data: _ },
            Values::FixedSizeBinary { size: s, data: d },
        ) => { s == size && d@.len() == 0 },
        (Values::Struct { columns }, Values::Struct { columns: c }) => {
            c@.len() == columns@.len() && forall|k: int|
                0 <= k < columns@.len() ==> is_empty_like(*columns@[k], *#[trigger] c@[k])
        },
        (
            Values::Dictionary { key_type, keys, dictionary },
            Values::Dictionary { key_type: t, keys: k, dictionary: d },
        ) => {
            &&& t == key_type
            &&& k.width() == keys.width()
            &&& k.spec_len() == 0
            &&& is_empty_like(*dictionary, *d)
        },
        (
            Values::Runs { end_type, ends: _, offset: _, values },
            Values::Runs { end_type: t, ends: e, offset: o, values: v },
        ) => { t == end_type && e@.len() == 0 && o == 0 && is_empty_like(*values, *v) },
        (
            Values::Union { type_ids: _, slots, children },
            Values::Union { type_ids: t, slots: s, children: c },
        ) => {
            &&& t@.len() == 0
            &&& s is Some <==> slots is Some
            &&& s matches Some(o) ==> o@.len() == 0
            &&& c@.len() == children@.len()
            &&& forall|k: int|
                0 <= k < children@.len() ==> is_empty_like(*children@[k], *#[trigger] c@[k])
        },
        _ => false,
    }
}

/// An array of the same type without slots.
pub fn new_empty_array(array: &Array) -> (empty: Array)
    requires
        array.wf(),
    ensures
        empty.wf(),
        is_empty_like(*array, empty),
    decreases array, 1nat,
{
    let values = match &array.values {
        Values::Null => Values::Null,
        Values::Native(values) => Values::Native(values.fresh()),
        Values::Boolean(_) => Values::Boolean(no_bits()),
        Values::Bytes { offsets, data: _ } => Values::Bytes {
            offsets: no_cuts(offsets),
            data: Vec::new(),
        },
        Values::Views { .. } => Values::Views { views: Vec::new(), buffers: Vec::new() },
        Values::List { offsets, child } => Values::List {
            offsets: no_cuts(offsets),
            child: Arc::new(new_empty_array(child)),
        },
        Values::ListView { offsets, sizes, child } => Values::ListView {
            offsets: offsets.fresh(0),
            sizes: sizes.fresh(0),
            child: Arc::new(new_empty_array(child)),
        },
        Values::FixedSizeList { size, child } => Values::FixedSizeList {
            size: *size,
            child: Arc::new(new_empty_array(child)),
        },
        Values::FixedSizeBinary { size, data: _ } => Values::FixedSizeBinary {
            size: *size,
            data: Vec::new(),
        },
        Values::Struct { columns } => Values::Struct { columns: empty_children(columns) },
        Values::Dictionary { key_type, keys, dictionary } => Values::Dictionary {
            key_type: *key_type,
            keys: keys.fresh(),
            dictionary: Arc::new(new_empty_array(dictionary)),
        },
        Values::Runs { end_type, ends: _, offset: _, values } => Values::Runs {
            end_type: *end_type,
            ends: Vec::new(),
            offset: 0,
            values: Arc::new(new_empty_array(values)),
        },
        Values::Union { type_ids: _, slots, children } => Values::Union {
            type_ids: Vec::new(),
            slots: match slots {
                Some(_) => Some(Vec::new()),
                None => None,
            },
            children: empty_children(children),
        },
    };
    let empty = Array { data_type: share(&array.data_type), len: 0, nulls: None, values };
    assert(forall|size: int| #[trigger] (0 * size) == 0) by (nonlinear_arith);
    empty
}

} // verus!
