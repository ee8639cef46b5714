//! How what is taken is laid out.
use crate::array::{Array, Values};
use crate::buffers::boolean_bits;
use crate::deep::compacts_to;
use crate::empty::is_empty_like;
use crate::fixed::{fixed_chunk_at, joined, union_nulls};
use crate::flat::{taken_bits, taken_nulls, taken_validity};
use crate::indices::IndexSeq;
use crate::primitive::{gathers, gathers_offsets};
use crate::selection::{
    cut_spans, dense_picks, fixed_spans, gathered, holds_span, occurrences, runs_of, spread,
    stretch_ends, stretch_runs, takes, total, Span,
};
use crate::slices::{
    cut_slices, dense_slices, fixed_slices, run_slices, slots_of, touched_runs, view_slices,
};
use crate::validity::only_with_nulls;
use crate::views::same_buffers;
use vstd::prelude::*;

verus! {

/// `r` is laid out as the result of taking `ix` from `a`, where `index_bits` is the bitmap that the
/// positions came with. Taking nothing gives an array that holds nothing at any depth.
pub open spec fn laid_out(
    a: Array,
    ix: IndexSeq,
    index_bits: Option<Seq<bool>>,
    r: Array,
) -> bool
    decreases a, 1nat,
{
    if ix.len() == 0 {
        is_empty_like(a, r)
    } else {
        arranged(a, ix, index_bits, r)
    }
}

/// How the kernel for the kind of `a` arranges what is taken: bitmap, values, offsets and children.
pub open spec fn arranged(
    a: Array,
    ix: IndexSeq,
    index_bits: Option<Seq<bool>>,
    r: Array,
) -> bool
    decreases a, 0nat,
{
    match a.values {
        Values::Bytes { offsets, data } => {
            &&& r.bits() == taken_nulls(a.bits(), index_bits, ix)
            &&& holds_bytes(data@, cut_spans(a.bits(), offsets, ix), r)
        },
        Values::List { offsets, child } => {
            let spans = cut_spans(a.bits(), offsets, ix);
            &&& r.bits() == only_with_nulls(taken_nulls(a.bits(), index_bits, ix))
            &&& r.values matches Values::List { offsets: cuts, child: items }
            &&& forall|i: int|
                0 <= i <= ix.len() ==> #[trigger] cuts.at(i) == total(spans, i as nat)
            &&& takes(*child, slots_of(spans), *items)
            &&& copied(*child, spans, *items)
        },
        Values::ListView { offsets, sizes, child } => {
            &&& r.bits() == only_with_nulls(taken_nulls(a.bits(), index_bits, ix))
            &&& r.values matches Values::ListView { offsets: o, sizes: s, child: c }
            &&& gathers_offsets(offsets, ix, o)
            &&& gathers_offsets(sizes, ix, s)
            &&& c == child
        },
        Values::FixedSizeList { size, child } => {
            let asked = spread(fixed_spans(size as int, ix), ix.len());
            &&& r.bits() == only_with_nulls(Some(taken_validity(a.bits(), ix)))
            &&& r.values matches Values::FixedSizeList { size: s, child: items }
            &&& s == size
            &&& takes(*child, asked, *items)
            &&& laid_out(*child, asked, only_with_nulls(Some(asked.valid)), *items)
        },
        Values::Struct { columns } => {
            &&& r.bits() == if columns@.len() == 0 {
                Some(taken_validity(a.bits(), ix))
            } else {
                only_with_nulls(Some(taken_validity(a.bits(), ix)))
            }
            &&& r.values matches Values::Struct { columns: c }
            &&& c@.len() == columns@.len()
            &&& forall|k: int|
                0 <= k < columns@.len() ==> takes(*columns@[k], ix, *#[trigger] c@[k]) && laid_out(
                    *columns@[k],
                    ix,
                    index_bits,
                    *c@[k],
                )
        },
        Values::Runs { end_type, ends, offset, values } => {
            let runs = runs_of(ends@, offset as int, ix);
            let heads = IndexSeq::all_of(stretch_runs(runs, ix.len()));
            &&& r.bits() is None
            &&& r.values matches Values::Runs { end_type: t, ends: stops, offset: o, values: v }
            &&& t == end_type
            &&& o == 0
            &&& stops@ == stretch_ends(runs, ix.len())
            &&& exists|mid: Array| #[trigger]
                takes(*values, heads, mid) && laid_out(*values, heads, None, mid) && compacts_to(
                    mid,
                    *v,
                )
        },
        Values::Union { type_ids, slots: None, children } => {
            &&& r.bits() is None
            &&& r.values matches Values::Union { type_ids: t, slots: s, children: c }
            &&& t@ == gathered(type_ids@, ix, 0)
            &&& s is None
            &&& c@.len() == children@.len()
            &&& forall|k: int|
                0 <= k < children@.len() ==> takes(*children@[k], ix, *#[trigger] c@[k])
                    && laid_out(*children@[k], ix, index_bits, *c@[k])
        },
        Values::Union { type_ids, slots: Some(slots), children } => {
            let ids = gathered(type_ids@, ix, 0);
            let picks = dense_picks(a.union_fields(), ids, gathered(slots@, ix, 0));
            &&& r.bits() is None
            &&& r.values matches Values::Union { type_ids: t, slots: Some(s), children: c }
            &&& t@ == ids
            &&& counts(ids, s@)
            &&& c@.len() == children@.len()
            &&& forall|k: int|
                0 <= k < children@.len() ==> takes(*children@[k], picks[k], *#[trigger] c@[k])
                    && laid_out(*children@[k], picks[k], None, *c@[k])
        },
        _ => arranged_flat(a, ix, index_bits, r),
    }
}

/// The same for arrays that nest nothing and whose slots are of one width.
pub open spec fn arranged_flat(
    a: Array,
    ix: IndexSeq,
    index_bits: Option<Seq<bool>>,
    r: Array,
) -> bool {
    match a.values {
        Values::Null => r.values is Null && r.bits() is None,
        Values::Native(values) => {
            &&& r.bits() == taken_nulls(a.bits(), index_bits, ix)
            &&& r.values matches Values::Native(v)
            &&& gathers(values, ix, v)
        },
        Values::Boolean(values) => {
            &&& r.bits() == taken_nulls(a.bits(), index_bits, ix)
            &&& r.values matches Values::Boolean(b)
            &&& boolean_bits(b) == taken_bits(boolean_bits(values), ix)
        },
        Values::Views { views, buffers } => {
            &&& r.bits() == taken_nulls(a.bits(), index_bits, ix)
            &&& r.values matches Values::Views { views: v, buffers: b }
            &&& v@ == gathered(views@, ix, 0)
            &&& same_buffers(buffers@, b@)
        },
        Values::FixedSizeBinary { size, data } => {
            &&& r.bits() == union_nulls(taken_nulls(a.bits(), index_bits, ix), index_bits)
            &&& r.values matches Values::FixedSizeBinary { size: s, data: d }
            &&& s == size
            &&& d@ == joined(fixed_chunk_at(data@, a.len as int, size as int, ix), ix.len())
        },
        Values::Dictionary { key_type, keys, dictionary } => {
            &&& r.bits() == taken_nulls(a.bits(), index_bits, ix)
            &&& r.values matches Values::Dictionary { key_type: t, keys: k, dictionary: d }
            &&& t == key_type
            &&& gathers(keys, ix, k)
            &&& d == dictionary
        },
        _ => false,
    }
}

/// `r` holds the bytes that the spans mark in `data`, one after the other and nothing else.
pub open spec fn holds_bytes(data: Seq<u8>, spans: Seq<Span>, r: Array) -> bool {
    &&& r.values matches Values::Bytes { offsets: cuts, data: bytes }
    &&& forall|i: int|
        0 <= i <= spans.len() ==> #[trigger] cuts.at(i) == total(spans, i as nat)
    &&& bytes@.len() == total(spans, spans.len())
    &&& forall|i: int|
        0 <= i < spans.len() ==> #[trigger] holds_span(bytes@, data, spans, i)
}

/// Each offset is how often its id occurred before.
pub open spec fn counts(ids: Seq<i8>, offsets: Seq<i32>) -> bool {
    &&& offsets.len() == ids.len()
    &&& forall|i: int|
        0 <= i < ids.len() ==> #[trigger] offsets[i] == occurrences(ids, ids[i], i as nat)
}

/// How copying slices of `a` arranges them. Unlike taking, it looks at no null but to copy it: the
/// bytes and items under one are copied too. Children are copied slice by slice: runs that a slice
/// cuts off end with it, and each list view gets items of its own.
pub open spec fn copied(a: Array, spans: Seq<Span>, r: Array) -> bool
    decreases a,
{
    let ix = slots_of(spans);
    match a.values {
        Values::Bytes { offsets, data } => {
            &&& r.bits() == taken_nulls(a.bits(), None, ix)
            &&& holds_bytes(data@, cut_spans(None, offsets, ix), r)
        },
        Values::List { offsets, child } => {
            let cut = cut_spans(None, offsets, ix);
            &&& r.bits() == taken_nulls(a.bits(), None, ix)
            &&& r.values matches Values::List { offsets: cuts, child: items }
            &&& forall|i: int|
                0 <= i <= ix.len() ==> #[trigger] cuts.at(i) == total(cut, i as nat)
            &&& takes(*child, slots_of(cut_slices(offsets, spans)), *items)
            &&& copied(*child, cut_slices(offsets, spans), *items)
        },
        Values::ListView { offsets, sizes, child } => {
            let parts = view_slices(offsets, sizes, ix);
            &&& r.bits() == taken_nulls(a.bits(), None, ix)
            &&& r.values matches Values::ListView { offsets: o, sizes: s, child: items }
            &&& o is Small <==> offsets is Small
            &&& total(parts, ix.len()) <= offsets.limit()
            &&& forall|i: int| 0 <= i < ix.len() ==> #[trigger] o.at(i) == total(parts, i as nat)
            &&& s is Small <==> sizes is Small
            &&& o.spec_len() == ix.len()
            &&& s.spec_len() == ix.len()
            &&& forall|i: int| 0 <= i < ix.len() ==> #[trigger] s.at(i) == parts[i].len
            &&& takes(*child, slots_of(parts), *items)
            &&& copied(*child, parts, *items)
        },
        Values::FixedSizeList { size, child } => {
            &&& r.bits() == taken_nulls(a.bits(), None, ix)
            &&& r.values matches Values::FixedSizeList { size: s, child: items }
            &&& s == size
            &&& takes(*child, slots_of(fixed_slices(size as int, spans)), *items)
            &&& copied(*child, fixed_slices(size as int, spans), *items)
        },
        Values::Struct { columns } => {
            &&& r.bits() == taken_nulls(a.bits(), None, ix)
            &&& r.values matches Values::Struct { columns: c }
            &&& c@.len() == columns@.len()
            &&& forall|k: int|
                0 <= k < columns@.len() ==> takes(*columns@[k], ix, *#[trigger] c@[k]) && copied(
                    *columns@[k],
                    spans,
                    *c@[k],
                )
        },
        Values::Runs { end_type, ends, offset, values } => {
            let parts = run_slices(ends@, offset as int, spans);
            &&& r.bits() is None
            &&& r.values matches Values::Runs { end_type: t, ends: stops, offset: o, values: v }
            &&& t == end_type
            &&& o == 0
            &&& stops@ == stretch_ends(
                touched_runs(ends@, offset as int, spans, spans.len()),
                ix.len(),
            )
            &&& takes(*values, slots_of(parts), *v)
            &&& copied(*values, parts, *v)
        },
        Values::Union { type_ids, slots: None, children } => {
            &&& r.bits() is None
            &&& r.values matches Values::Union { type_ids: t, slots: s, children: c }
            &&& t@ == gathered(type_ids@, ix, 0)
            &&& s is None
            &&& c@.len() == children@.len()
            &&& forall|k: int|
                0 <= k < children@.len() ==> takes(*children@[k], ix, *#[trigger] c@[k]) && copied(
                    *children@[k],
                    spans,
                    *c@[k],
                )
        },
        Values::Union { type_ids, slots: Some(slots), children } => {
            let ids = gathered(type_ids@, ix, 0);
            let parts = dense_slices(a.union_fields(), ids, gathered(slots@, ix, 0));
            &&& r.bits() is None
            &&& r.values matches Values::Union { type_ids: t, slots: Some(s), children: c }
            &&& t@ == ids
            &&& counts(ids, s@)
            &&& c@.len() == children@.len()
            &&& forall|k: int|
                0 <= k < children@.len() ==> takes(
                    *children@[k],
                    slots_of(parts[k]),
                    *#[trigger] c@[k],
                ) && copied(*children@[k], parts[k], *c@[k])
        },
        _ => arranged_flat(a, ix, None, r),
    }
}

} // verus!
