//! When a slot of one array holds what a slot of another does, read off the two side by side.
use crate::array::{
    covers, field_position, has_field, lemma_list_extent, lemma_list_row, list_child, list_extent,
    rows_from, run_at, runs_wf, Array, Native, Offsets, Values,
};
use crate::buffers::{boolean_bits, buffer_bytes};
use crate::laws::numbers::{lemma_number, machine_number, null_at};
use crate::run::lemma_covers;
use crate::validity::valid_in;
use crate::views::{is_inline, view_buffer, view_bytes, view_len, view_offset, view_valid};
use arrow_buffer::Buffer;
use vstd::prelude::*;

verus! {

/// Offset `i`.
pub open spec fn offset_at(offsets: Offsets, i: int) -> int {
    match offsets {
        Offsets::Small(v) => v@[i] as int,
        Offsets::Large(v) => v@[i] as int,
    }
}

/// Run `p` ends beyond `x`, and the one before it does not.
pub open spec fn in_run(ends: Seq<i64>, p: int, x: int) -> bool {
    0 <= p < ends.len() && x < ends[p] && forall|q: int| 0 <= q < p ==> #[trigger] ends[q] <= x
}

/// Slot `i` holds nothing: it is marked as null, or what it refers to holds nothing.
pub open spec fn absent(a: Array, i: int) -> bool
    decreases a,
{
    null_at(a.nulls, i) || match a.values {
        Values::Null => true,
        Values::Dictionary { key_type, keys, dictionary } => absent(
            *dictionary,
            machine_number(key_type, keys, i),
        ),
        Values::Runs { end_type, ends, offset, values } => exists|p: int| #[trigger]
            in_run(ends@, p, offset + i) && absent(*values, p),
        _ => false,
    }
}

/// The same bits at `p` and at `i`.
pub open spec fn same_bits(values: Native, p: int, others: Native, i: int) -> bool {
    match (values, others) {
        (Native::W8(v), Native::W8(w)) => v@[p] == w@[i],
        (Native::W16(v), Native::W16(w)) => v@[p] == w@[i],
        (Native::W32(v), Native::W32(w)) => v@[p] == w@[i],
        (Native::W64(v), Native::W64(w)) => v@[p] == w@[i],
        (Native::W128(v), Native::W128(w)) => v@[p] == w@[i],
        (Native::W256(v), Native::W256(w)) => v@[p] == w@[i],
        _ => false,
    }
}

/// The `count` bytes from `from` on in one sequence are those from `to` on in another.
pub open spec fn same_bytes(
    bytes: Seq<u8>,
    from: int,
    others: Seq<u8>,
    to: int,
    count: int,
) -> bool {
    forall|k: int|
        0 <= k < count ==> 0 <= from + k < bytes.len() && 0 <= to + k < others.len()
            && #[trigger] bytes[from + k] == others[to + k]
}

/// Two views show values of one length, and the same bytes.
pub open spec fn same_shown(
    view: u128,
    buffers: Seq<Buffer>,
    other: u128,
    others: Seq<Buffer>,
) -> bool {
    let len = view as int % 0x1_0000_0000;
    &&& other as int % 0x1_0000_0000 == len
    &&& if len > 12 {
        same_bytes(
            buffer_bytes(buffers[(view as int / 0x1_0000_0000_0000_0000) % 0x1_0000_0000]),
            view as int / 0x1_0000_0000_0000_0000_0000_0000,
            buffer_bytes(others[(other as int / 0x1_0000_0000_0000_0000) % 0x1_0000_0000]),
            other as int / 0x1_0000_0000_0000_0000_0000_0000,
            len,
        )
    } else {
        view_bytes(other, others) == view_bytes(view, buffers)
    }
}

/// Slot `p` of `a` and slot `i` of `r` hold the same: nothing, or the same bits, bytes, items,
/// columns or variant.
pub open spec fn same_slot(a: Array, p: int, r: Array, i: int) -> bool
    decreases a, 0nat,
{
    if absent(a, p) || absent(r, i) {
        absent(a, p) && absent(r, i)
    } else {
        match (a.values, r.values) {
            (Values::Native(v), Values::Native(w)) => same_bits(v, p, w, i),
            (Values::Boolean(b), Values::Boolean(c)) => boolean_bits(b)[p] == boolean_bits(c)[i],
            (
                Values::Bytes { offsets, data },
                Values::Bytes { offsets: cuts, data: bytes },
            ) => {
                let count = offset_at(offsets, p + 1) - offset_at(offsets, p);
                &&& offset_at(cuts, i + 1) - offset_at(cuts, i) == count
                &&& same_bytes(data@, offset_at(offsets, p), bytes@, offset_at(cuts, i), count)
            },
            (Values::Views { views, buffers }, Values::Views { views: v, buffers: b }) => {
                same_shown(views@[p], buffers@, v@[i], b@)
            },
            (
                Values::List { offsets, child },
                Values::List { offsets: cuts, child: items },
            ) => {
                let count = offset_at(offsets, p + 1) - offset_at(offsets, p);
                &&& offset_at(cuts, i + 1) - offset_at(cuts, i) == count
                &&& same_items(*child, offset_at(offsets, p), *items, offset_at(cuts, i), count)
            },
            (
                Values::ListView { offsets, sizes, child },
                Values::ListView { offsets: o, sizes: s, child: items },
            ) => {
                let count = offset_at(sizes, p);
                &&& offset_at(s, i) == count
                &&& same_items(*child, offset_at(offsets, p), *items, offset_at(o, i), count)
            },
            (
                Values::FixedSizeList { size, child },
                Values::FixedSizeList { size: s, child: items },
            ) => {
                &&& s == size
                &&& same_items(*child, p * size, *items, i * size, size as int)
            },
            (
                Values::FixedSizeBinary { size, data },
                Values::FixedSizeBinary { size: s, data: bytes },
            ) => s == size && same_bytes(data@, p * size, bytes@, i * size, size as int),
            (Values::Struct { columns }, Values::Struct { columns: c }) => {
                &&& c@.len() == columns@.len()
                &&& forall|k: int|
                    0 <= k < columns@.len() ==> same_slot(
                        *columns@[k],
                        p,
                        *#[trigger] c@[k],
                        i,
                    )
            },
            (
                Values::Dictionary { key_type, keys, dictionary },
                Values::Dictionary { key_type: t, keys: k, dictionary: d },
            ) => same_slot(
                *dictionary,
                machine_number(key_type, keys, p),
                *d,
                machine_number(t, k, i),
            ),
            (
                Values::Runs { end_type, ends, offset, values },
                Values::Runs { end_type: t, ends: stops, offset: o, values: v },
            ) => exists|x: int, y: int|
                {
                    &&& #[trigger] in_run(ends@, x, offset + p)
                    &&& #[trigger] in_run(stops@, y, o + i)
                    &&& same_slot(*values, x, *v, y)
                },
            (
                Values::Union { type_ids, slots, children },
                Values::Union { type_ids: t, slots: s, children: c },
            ) => {
                &&& t@[i] == type_ids@[p]
                &&& c@.len() == children@.len()
                &&& exists|k: int|
                    {
                        &&& 0 <= k < children@.len()
                        &&& a.data_type->Union_0@[k].0 == type_ids@[p]
                        &&& same_slot(
                            *children@[k],
                            match slots {
                                Some(o) => o@[p] as int,
                                None => p,
                            },
                            *#[trigger] c@[k],
                            match s {
                                Some(o) => o@[i] as int,
                                None => i,
                            },
                        )
                    }
            },
            _ => false,
        }
    }
}

/// The `count` slots from `from` on in one array hold what those from `to` on in another do.
pub open spec fn same_items(a: Array, from: int, r: Array, to: int, count: int) -> bool
    decreases a, 1nat,
{
    forall|k: int| 0 <= k < count ==> same_slot(a, #[trigger] nth_from(from, k), r, to + k)
}

/// The position `k` after `start`.
pub open spec fn nth_from(start: int, k: int) -> int {
    start + k
}

/// A position within well-formed runs is in one of them.
pub proof fn lemma_in_run(ends: Seq<i64>, last: int, x: int)
    requires
        runs_wf(ends, last),
        0 <= x < last,
    ensures
        in_run(ends, run_at(ends, x), x),
        forall|p: int| #[trigger] in_run(ends, p, x) ==> p == run_at(ends, x),
{
    let p = lemma_some_run(ends, x, ends.len() as int);
    assert(covers(ends, p, x));
    lemma_covers(ends, p, x);
    assert forall|q: int| 0 <= q < p implies #[trigger] ends[q] <= x by {
        assert(q == p - 1 || ends[q] < ends[p - 1]);
    }
    assert forall|q: int| #[trigger] in_run(ends, q, x) implies q == p by {
        assert(covers(ends, q, x)) by {
            if q > 0 {
                assert(ends[q - 1] <= x);
            }
        }
        lemma_covers(ends, q, x);
    }
}

/// One of the first `k` runs is the first to end beyond `x`, where the last does.
proof fn lemma_some_run(ends: Seq<i64>, x: int, k: int) -> (p: int)
    requires
        0 < k <= ends.len(),
        x < ends[k - 1],
    ensures
        covers(ends, p, x),
    decreases k,
{
    if k > 1 && x < ends[k - 2] {
        lemma_some_run(ends, x, k - 1)
    } else {
        k - 1
    }
}

/// A slot holds nothing where its row is null.
pub proof fn lemma_absent(a: &Array, i: int)
    requires
        a.wf(),
        0 <= i < a.len,
    ensures
        absent(*a, i) == (a.row(i) is Null),
    decreases a,
{
    assert(valid_in(a.bits(), i) == !null_at(a.nulls, i));
    if valid_in(a.bits(), i) {
        match &a.values {
            Values::Dictionary { key_type, keys, dictionary } => {
                lemma_number(*key_type, *keys, i);
                let _ = keys.at(i);
                lemma_absent(dictionary, machine_number(*key_type, *keys, i));
            },
            Values::Runs { end_type, ends, offset, values } => {
                lemma_in_run(ends@, *offset + a.len, *offset + i);
                lemma_absent(values, run_at(ends@, *offset + i));
            },
            _ => {},
        }
    }
}

/// Slots of arrays of one type with the same row hold the same.
pub proof fn lemma_same_slot(a: &Array, p: int, r: &Array, i: int)
    requires
        a.wf(),
        r.wf(),
        r.data_type == a.data_type,
        0 <= p < a.len,
        0 <= i < r.len,
        r.row(i) == a.row(p),
    ensures
        same_slot(*a, p, *r, i),
    decreases a, 1nat,
{
    lemma_absent(a, p);
    lemma_absent(r, i);
    if !absent(*a, p) {
        match (&a.values, &r.values) {
            (
                Values::Bytes { offsets, data },
                Values::Bytes { offsets: cuts, data: bytes },
            ) => {
                assert(0 <= offsets.at(p) <= offsets.at(p + 1) <= offsets.at(a.len as int)) by {
                    assert(offsets.at(0) <= offsets.at(p));
                }
                assert(0 <= cuts.at(i) <= cuts.at(i + 1) <= cuts.at(r.len as int)) by {
                    assert(cuts.at(0) <= cuts.at(i));
                }
                let held = data@.subrange(offsets.at(p), offsets.at(p + 1));
                let found = bytes@.subrange(cuts.at(i), cuts.at(i + 1));
                assert(held == found);
                lemma_same_bytes(data@, offsets.at(p), bytes@, cuts.at(i), held.len() as int);
            },
            (Values::Views { views, buffers }, Values::Views { views: v, buffers: b }) => {
                lemma_same_shown(views@[p], buffers@, v@[i], b@);
            },
            (Values::List { .. }, Values::List { .. }) => {
                lemma_same_items(a, p, r, i);
            },
            (Values::ListView { .. }, Values::ListView { .. }) => {
                lemma_same_items(a, p, r, i);
            },
            (Values::FixedSizeList { .. }, Values::FixedSizeList { .. }) => {
                lemma_same_items(a, p, r, i);
            },
            (
                Values::FixedSizeBinary { size, data },
                Values::FixedSizeBinary { size: s, data: bytes },
            ) => {
                let size = *size as int;
                assert(0 <= p * size && p * size + size <= a.len * size) by (nonlinear_arith)
                    requires
                        0 <= p < a.len,
                        0 <= size,
                ;
                assert(0 <= i * size && i * size + size <= r.len * size) by (nonlinear_arith)
                    requires
                        0 <= i < r.len,
                        0 <= size,
                ;
                let held = data@.subrange(p * size, p * size + size);
                assert(held == bytes@.subrange(i * size, i * size + size));
                lemma_same_bytes(data@, p * size, bytes@, i * size, size);
            },
            (Values::Struct { columns }, Values::Struct { columns: c }) => {
                let row = a.row(p)->Struct_0;
                assert(row.len() == columns@.len() && row.len() == c@.len());
                assert forall|k: int| 0 <= k < columns@.len() implies same_slot(
                    *columns@[k],
                    p,
                    *#[trigger] c@[k],
                    i,
                ) by {
                    assert(row[k] == columns@[k].row(p) && row[k] == c@[k].row(i));
                    assert(columns@[k].data_type == c@[k].data_type);
                    lemma_same_slot(&*columns@[k], p, &*c@[k], i);
                }
            },
            (
                Values::Dictionary { key_type, keys, dictionary },
                Values::Dictionary { key_type: t, keys: k, dictionary: d },
            ) => {
                lemma_number(*key_type, *keys, p);
                lemma_number(*t, *k, i);
                let _ = keys.at(p);
                let _ = k.at(i);
                lemma_same_slot(
                    dictionary,
                    machine_number(*key_type, *keys, p),
                    d,
                    machine_number(*t, *k, i),
                );
            },
            (
                Values::Runs { end_type, ends, offset, values },
                Values::Runs { end_type: t, ends: stops, offset: o, values: v },
            ) => {
                lemma_in_run(ends@, *offset + a.len, *offset + p);
                lemma_in_run(stops@, *o + r.len, *o + i);
                lemma_same_slot(values, run_at(ends@, *offset + p), v, run_at(stops@, *o + i));
            },
            (
                Values::Union { type_ids, slots, children },
                Values::Union { type_ids: t, slots: s, children: c },
            ) => {
                let fields = a.union_fields();
                let k = field_position(fields, type_ids@[p]);
                assert(has_field(fields, type_ids@[p]));
                assert(has_field(fields, t@[i]));
                assert(children@[k].data_type == c@[k].data_type);
                let from = match slots {
                    Some(o) => o@[p] as int,
                    None => p,
                };
                let to = match s {
                    Some(o) => o@[i] as int,
                    None => i,
                };
                assert(children@[k].wf() && c@[k].wf());
                assert(0 <= from < children@[k].len);
                assert(0 <= to < c@[k].len);
                lemma_same_slot(&*children@[k], from, &*c@[k], to);
            },
            _ => {},
        }
    }
}

/// Equal parts of two sequences agree byte by byte.
proof fn lemma_same_bytes(bytes: Seq<u8>, from: int, others: Seq<u8>, to: int, count: int)
    requires
        0 <= from,
        0 <= to,
        0 <= count,
        from + count <= bytes.len(),
        to + count <= others.len(),
        bytes.subrange(from, from + count) == others.subrange(to, to + count),
    ensures
        same_bytes(bytes, from, others, to, count),
{
    let part = bytes.subrange(from, from + count);
    let other = others.subrange(to, to + count);
    assert forall|k: int| 0 <= k < count implies 0 <= from + k < bytes.len() && 0 <= to + k
        < others.len() && #[trigger] bytes[from + k] == others[to + k] by {
        assert(part[k] == other[k]);
    }
}

/// Views of the same bytes show the same.
pub proof fn lemma_same_shown(view: u128, buffers: Seq<Buffer>, other: u128, others: Seq<Buffer>)
    requires
        view_valid(view, buffers),
        view_valid(other, others),
        view_bytes(other, others) == view_bytes(view, buffers),
    ensures
        same_shown(view, buffers, other, others),
{
    assert(view_bytes(view, buffers).len() == view_len(view));
    assert(view_bytes(other, others).len() == view_len(other));
    if !is_inline(view) {
        lemma_same_bytes(
            buffer_bytes(buffers[view_buffer(view)]),
            view_offset(view),
            buffer_bytes(others[view_buffer(other)]),
            view_offset(other),
            view_len(view),
        );
    }
}

/// Lists with the same row hold the same items.
proof fn lemma_same_items(a: &Array, p: int, r: &Array, i: int)
    requires
        a.wf(),
        r.wf(),
        r.data_type == a.data_type,
        0 <= p < a.len,
        0 <= i < r.len,
        r.row(i) == a.row(p),
        !absent(*a, p),
        !absent(*r, i),
        (a.values is List && r.values is List) || (a.values is ListView && r.values is ListView)
            || (a.values is FixedSizeList && r.values is FixedSizeList),
    ensures
        same_slot(*a, p, *r, i),
    decreases a, 0nat,
{
    let (child, items) = match (&a.values, &r.values) {
        (Values::List { child, .. }, Values::List { child: items, .. }) => (child, items),
        (Values::ListView { child, .. }, Values::ListView { child: items, .. }) => (child, items),
        (Values::FixedSizeList { child, .. }, Values::FixedSizeList { child: items, .. }) => {
            (child, items)
        },
        _ => arbitrary(),
    };
    let (from, count) = list_extent(*a, p);
    let (to, found) = list_extent(*r, i);
    lemma_list_extent(*a, p);
    lemma_list_extent(*r, i);
    lemma_list_row(*a, p);
    lemma_list_row(*r, i);
    let rows = rows_from(list_child(*a), from, count);
    assert(rows == rows_from(list_child(*r), to, found));
    assert(rows.len() == count && rows.len() == found);
    assert forall|k: int| 0 <= k < count implies same_slot(
        **child,
        #[trigger] nth_from(from, k),
        **items,
        to + k,
    ) by {
        assert(rows[k] == child.row(from + k));
        assert(rows_from(list_child(*r), to, found)[k] == items.row(to + k));
        lemma_same_slot(child, from + k, items, to + k);
    }
    assert(same_items(**child, from, **items, to, count));
}

} // verus!
