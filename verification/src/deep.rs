//! Compacting the view arrays of an array, however deep they stand.
use crate::array::{
    field_position, has_field, is_list, lemma_list_extent, lemma_list_row, list_child,
    list_extent, rows_from, Array, ArrayRef, Offsets, Values,
};
use crate::buffers::share;
use crate::compact::{compact_byte_view, compacts, lemma_compacts, lemma_told};
use crate::datatype::{contains_views, type_contains_views};
use crate::validity::{copy_nulls, valid_in};
use std::sync::Arc;
use vstd::prelude::*;

verus! {

/// The same offsets.
pub open spec fn same_offsets(offsets: Offsets, copy: Offsets) -> bool {
    match (offsets, copy) {
        (Offsets::Small(a), Offsets::Small(b)) => a@ == b@,
        (Offsets::Large(a), Offsets::Large(b)) => a@ == b@,
        _ => false,
    }
}

/// The same type, length and validity.
pub open spec fn same_header(a: Array, r: Array) -> bool {
    &&& r.data_type == a.data_type
    &&& r.len == a.len
    &&& r.bits() == a.bits()
}

/// The type of the array holds views that compaction can reach.
pub open spec fn holds_views(a: Array) -> bool {
    contains_views(*a.data_type)
}

/// Compaction leaves every view array in `a` as it is.
pub open spec fn settled(a: Array) -> bool
    decreases a,
{
    holds_views(a) ==> match a.values {
        Values::Views { views, buffers } => compacts(views@, buffers@, None),
        Values::List { offsets, child } => settled(*child),
        Values::ListView { offsets, sizes, child } => settled(*child),
        Values::FixedSizeList { size, child } => settled(*child),
        Values::Struct { columns } => forall|k: int|
            0 <= k < columns@.len() ==> settled(*#[trigger] columns@[k]),
        Values::Union { type_ids, slots, children } => forall|k: int|
            0 <= k < children@.len() ==> settled(*#[trigger] children@[k]),
        _ => true,
    }
}

/// `r` is `a` with the view arrays in it compacted, and at least one of them changes. Children in
/// which nothing changes are the same.
pub open spec fn rebuilt(a: Array, r: Array) -> bool
    decreases a,
{
    &&& holds_views(a)
    &&& same_header(a, r)
    &&& match (a.values, r.values) {
        (Values::Views { views, buffers }, Values::Views { views: v, buffers: b }) => {
            compacts(views@, buffers@, Some((v, b)))
        },
        (Values::List { offsets, child }, Values::List { offsets: o, child: c }) => {
            same_offsets(offsets, o) && rebuilt(*child, *c)
        },
        (
            Values::ListView { offsets, sizes, child },
            Values::ListView { offsets: o, sizes: s, child: c },
        ) => { same_offsets(offsets, o) && same_offsets(sizes, s) && rebuilt(*child, *c) },
        (
            Values::FixedSizeList { size, child },
            Values::FixedSizeList { size: s, child: c },
        ) => { s == size && rebuilt(*child, *c) },
        (Values::Struct { columns }, Values::Struct { columns: c }) => {
            &&& c@.len() == columns@.len()
            &&& forall|k: int|
                0 <= k < columns@.len() ==> (settled(*columns@[k]) && c@[k] == columns@[k])
                    || rebuilt(*columns@[k], *#[trigger] c@[k])
            &&& exists|k: int| 0 <= k < columns@.len() && rebuilt(*columns@[k], *#[trigger] c@[k])
        },
        (
            Values::Union { type_ids, slots, children },
            Values::Union { type_ids: t, slots: s, children: c },
        ) => {
            &&& t@ == type_ids@
            &&& match (slots, s) {
                (Some(x), Some(y)) => y@ == x@,
                (None, None) => true,
                _ => false,
            }
            &&& c@.len() == children@.len()
            &&& forall|k: int|
                0 <= k < children@.len() ==> (settled(*children@[k]) && c@[k] == children@[k])
                    || rebuilt(*children@[k], *#[trigger] c@[k])
            &&& exists|k: int| 0 <= k < children@.len() && rebuilt(*children@[k], *#[trigger] c@[k])
        },
        _ => false,
    }
}

/// `r` is `a` with the view arrays in it compacted: `a` itself where none of them changes.
pub open spec fn compacts_to(a: Array, r: Array) -> bool {
    (settled(a) && r == a) || rebuilt(a, r)
}

/// What [`deep_compact_data`] may give for `a`.
pub open spec fn may_give(a: Array, compact: Option<Array>) -> bool {
    match compact {
        Some(c) => rebuilt(a, c),
        None => settled(a),
    }
}

/// The children that compaction goes into.
pub open spec fn reached(a: Array) -> Seq<ArrayRef> {
    match a.values {
        Values::List { offsets, child } => seq![child],
        Values::ListView { offsets, sizes, child } => seq![child],
        Values::FixedSizeList { size, child } => seq![child],
        Values::Struct { columns } => columns@,
        Values::Union { type_ids, slots, children } => children@,
        _ => Seq::empty(),
    }
}

/// The same array but for the children that compaction goes into.
pub open spec fn same_frame(a: Array, r: Array) -> bool {
    &&& same_header(a, r)
    &&& match (a.values, r.values) {
        (Values::List { offsets, child }, Values::List { offsets: o, child: c }) => {
            same_offsets(offsets, o)
        },
        (
            Values::ListView { offsets, sizes, child },
            Values::ListView { offsets: o, sizes: s, child: c },
        ) => { same_offsets(offsets, o) && same_offsets(sizes, s) },
        (
            Values::FixedSizeList { size, child },
            Values::FixedSizeList { size: s, child: c },
        ) => { s == size },
        (Values::Struct { columns }, Values::Struct { columns: c }) => true,
        (
            Values::Union { type_ids, slots, children },
            Values::Union { type_ids: t, slots: s, children: c },
        ) => {
            &&& t@ == type_ids@
            &&& match (slots, s) {
                (Some(x), Some(y)) => y@ == x@,
                (None, None) => true,
                _ => false,
            }
        },
        _ => false,
    }
}

/// `compact` is put together from what compaction gives for each child: nothing where it gives
/// nothing for any of them, and otherwise the same array with each child replaced for which it
/// gives something.
pub open spec fn is_made_of(a: Array, parts: Seq<Option<Array>>, compact: Option<Array>) -> bool {
    &&& parts.len() == reached(a).len()
    &&& match compact {
        None => forall|k: int| 0 <= k < parts.len() ==> #[trigger] parts[k] is None,
        Some(d) => {
            &&& exists|k: int| 0 <= k < parts.len() && #[trigger] parts[k] is Some
            &&& same_frame(a, d)
            &&& reached(d).len() == parts.len()
            &&& forall|k: int|
                0 <= k < parts.len() ==> *#[trigger] reached(d)[k] == match parts[k] {
                    Some(c) => c,
                    None => *reached(a)[k],
                }
        },
    }
}

/// Copies offsets.
fn copy_offsets(offsets: &Offsets) -> (copy: Offsets)
    ensures
        same_offsets(*offsets, copy),
{
    match offsets {
        Offsets::Small(v) => {
            let copy = v.clone();
            assert(copy@ =~= v@);
            Offsets::Small(copy)
        },
        Offsets::Large(v) => {
            let copy = v.clone();
            assert(copy@ =~= v@);
            Offsets::Large(copy)
        },
    }
}

/// An array with the header of `array` and these values.
fn with_values(array: &Array, values: Values) -> (copy: Array)
    ensures
        same_header(*array, copy),
        copy.values == values,
{
    Array {
        data_type: share(&array.data_type),
        len: array.len,
        nulls: copy_nulls(&array.nulls),
        values,
    }
}

/// A child that was compacted, or the child itself.
fn child_or(child: &ArrayRef, compact: Option<Array>) -> (result: ArrayRef)
    ensures
        *result == match compact {
            Some(c) => c,
            None => **child,
        },
{
    match compact {
        Some(c) => Arc::new(c),
        None => share(child),
    }
}

/// Compacts the children; nothing where none of them changes.
fn compact_children(children: &Vec<ArrayRef>) -> (compact: Option<Vec<ArrayRef>>)
    requires
        forall|k: int| 0 <= k < children@.len() ==> (#[trigger] children@[k]).wf(),
    ensures
        compact is None ==> forall|k: int|
            0 <= k < children@.len() ==> settled(*#[trigger] children@[k]),
        compact matches Some(c) ==> {
            &&& c@.len() == children@.len()
            &&& forall|k: int|
                0 <= k < children@.len() ==> compacts_to(*children@[k], *#[trigger] c@[k])
            &&& exists|k: int| 0 <= k < children@.len() && rebuilt(*children@[k], *#[trigger] c@[k])
        },
    decreases children@, 0nat,
{
    let mut changed = false;
    let mut result: Vec<ArrayRef> = Vec::with_capacity(children.len());
    let mut k: usize = 0;
    while k < children.len()
        invariant
            k <= children@.len(),
            forall|j: int| 0 <= j < children@.len() ==> (#[trigger] children@[j]).wf(),
            result@.len() == k,
            forall|j: int| 0 <= j < k ==> compacts_to(*children@[j], *#[trigger] result@[j]),
            !changed ==> forall|j: int| 0 <= j < k ==> settled(*#[trigger] children@[j]),
            changed ==> exists|j: int|
                0 <= j < k && rebuilt(*children@[j], *#[trigger] result@[j]),
        decreases children@.len() - k,
    {
        let ghost before = result@;
        let compact = deep_compact_data(&children[k]);
        let changes: bool = compact.is_some();
        result.push(child_or(&children[k], compact));
        proof {
            if changes {
                assert(rebuilt(*children@[k as int], *result@[k as int]));
            } else if changed {
                let j = choose|j: int| 0 <= j < k && rebuilt(*children@[j], *#[trigger] before[j]);
                assert(rebuilt(*children@[j], *result@[j]));
            }
        }
        changed = changed || changes;
        k += 1;
    }
    if changed {
        Some(result)
    } else {
        None
    }
}

/// An array is rebuilt where its children were compacted and one of them changed.
proof fn lemma_children_rebuilt(
    a: &Array,
    r: &Array,
    children: Seq<ArrayRef>,
    compact: Seq<ArrayRef>,
)
    requires
        holds_views(*a),
        same_header(*a, *r),
        match (a.values, r.values) {
            (Values::Struct { columns }, Values::Struct { columns: c }) => {
                columns@ == children && c@ == compact
            },
            (
                Values::Union { type_ids, slots, children: old },
                Values::Union { type_ids: t, slots: s, children: new },
            ) => {
                &&& t@ == type_ids@
                &&& match (slots, s) {
                    (Some(x), Some(y)) => y@ == x@,
                    (None, None) => true,
                    _ => false,
                }
                &&& old@ == children
                &&& new@ == compact
            },
            _ => false,
        },
        compact.len() == children.len(),
        forall|k: int|
            0 <= k < children.len() ==> compacts_to(*children[k], *#[trigger] compact[k]),
        exists|k: int| 0 <= k < children.len() && rebuilt(*children[k], *#[trigger] compact[k]),
    ensures
        rebuilt(*a, *r),
{
    assert forall|k: int| 0 <= k < children.len() implies (settled(*children[k]) && compact[k]
        == children[k]) || rebuilt(*children[k], *#[trigger] compact[k]) by {
        assert(compacts_to(*children[k], *compact[k]));
    }
}

/// Compacts an array; nothing where no view array in it changes.
pub fn deep_compact_data(array: &Array) -> (compact: Option<Array>)
    requires
        array.wf(),
    ensures
        may_give(*array, compact),
        !holds_views(*array) ==> compact is None,
    decreases array, 1nat,
{
    if !type_contains_views(&array.data_type) {
        return None;
    }
    match &array.values {
        Values::Views { views, buffers } => match compact_byte_view(views, buffers) {
            Some((v, b)) => {
                let result = with_values(array, Values::Views { views: v, buffers: b });
                assert(rebuilt(*array, result));
                Some(result)
            },
            None => None,
        },
        Values::List { offsets, child } => match deep_compact_data(child) {
            Some(c) => {
                let values = Values::List { offsets: copy_offsets(offsets), child: Arc::new(c) };
                let result = with_values(array, values);
                assert(rebuilt(*array, result));
                Some(result)
            },
            None => None,
        },
        Values::ListView { offsets, sizes, child } => match deep_compact_data(child) {
            Some(c) => {
                let values = Values::ListView {
                    offsets: copy_offsets(offsets),
                    sizes: copy_offsets(sizes),
                    child: Arc::new(c),
                };
                let result = with_values(array, values);
                assert(rebuilt(*array, result));
                Some(result)
            },
            None => None,
        },
        Values::FixedSizeList { size, child } => match deep_compact_data(child) {
            Some(c) => {
                let values = Values::FixedSizeList { size: *size, child: Arc::new(c) };
                let result = with_values(array, values);
                assert(rebuilt(*array, result));
                Some(result)
            },
            None => None,
        },
        Values::Struct { columns } => match compact_children(columns) {
            Some(c) => {
                let result = with_values(array, Values::Struct { columns: c });
                proof {
                    lemma_children_rebuilt(array, &result, columns@, c@);
                }
                Some(result)
            },
            None => None,
        },
        Values::Union { type_ids, slots, children } => match compact_children(children) {
            Some(c) => {
                let ids = type_ids.clone();
                assert(ids@ =~= type_ids@);
                let copy = match slots {
                    Some(s) => {
                        let copy = s.clone();
                        assert(copy@ =~= s@);
                        Some(copy)
                    },
                    None => None,
                };
                let values = Values::Union { type_ids: ids, slots: copy, children: c };
                let result = with_values(array, values);
                proof {
                    lemma_children_rebuilt(array, &result, children@, c@);
                }
                Some(result)
            },
            None => None,
        },
        _ => None,
    }
}

/// Compacts every view array in `array`, however deep it stands, and hands back `array` where none
/// of them changes. A view array that retains little in few buffers is left alone here as it is at
/// the end of a selection: whoever keeps a selection for long gets the same thresholds.
pub fn deep_compact_views(array: ArrayRef) -> (compact: ArrayRef)
    requires
        array.wf(),
    ensures
        compacts_to(*array, *compact),
        compact.wf(),
        same_header(*array, *compact),
        forall|i: int| 0 <= i < array.len ==> #[trigger] compact.row(i) == array.row(i),
{
    let result = child_or(&array, deep_compact_data(&array));
    proof {
        lemma_compacts_to(&array, &result);
    }
    result
}

/// The children of a rebuilt array are the same or rebuilt, and one of them is rebuilt.
pub proof fn lemma_rebuilt_children(a: &Array, r: &Array)
    requires
        rebuilt(*a, *r),
        !(a.values is Views),
    ensures
        same_frame(*a, *r),
        reached(*r).len() == reached(*a).len(),
        forall|k: int|
            0 <= k < reached(*a).len() ==> (settled(*reached(*a)[k]) && reached(*r)[k] == reached(
                *a,
            )[k]) || rebuilt(*reached(*a)[k], *#[trigger] reached(*r)[k]),
        exists|k: int|
            0 <= k < reached(*a).len() && rebuilt(*reached(*a)[k], *#[trigger] reached(*r)[k]),
{
    if is_list(*a) {
        assert(rebuilt(*reached(*a)[0], *reached(*r)[0]));
    } else {
        let children = reached(*a);
        let k = choose|k: int|
            0 <= k < children.len() && rebuilt(*children[k], *#[trigger] reached(*r)[k]);
        assert(rebuilt(*reached(*a)[k], *reached(*r)[k]));
    }
}

/// An array whose children are settled is.
pub proof fn lemma_children_settled(a: &Array)
    requires
        !(a.values is Views),
        forall|k: int| 0 <= k < reached(*a).len() ==> settled(*#[trigger] reached(*a)[k]),
    ensures
        settled(*a),
{
    if is_list(*a) {
        assert(settled(*reached(*a)[0]));
    } else {
        match a.values {
            Values::Struct { columns } => {
                assert(reached(*a) == columns@);
            },
            Values::Union { type_ids, slots, children } => {
                assert(reached(*a) == children@);
            },
            _ => {},
        }
    }
}

/// An array in the same frame whose children were compacted, one of them changed, is rebuilt.
pub proof fn lemma_frame_rebuilt(a: &Array, r: &Array)
    requires
        holds_views(*a),
        same_frame(*a, *r),
        reached(*r).len() == reached(*a).len(),
        forall|k: int|
            0 <= k < reached(*a).len() ==> compacts_to(*reached(*a)[k], *#[trigger] reached(*r)[k]),
        exists|k: int|
            0 <= k < reached(*a).len() && rebuilt(*reached(*a)[k], *#[trigger] reached(*r)[k]),
    ensures
        rebuilt(*a, *r),
{
    let k = choose|k: int|
        0 <= k < reached(*a).len() && rebuilt(*reached(*a)[k], *#[trigger] reached(*r)[k]);
    if is_list(*a) {
        assert(k == 0);
    } else {
        lemma_children_rebuilt(a, r, reached(*a), reached(*r));
    }
}

/// Lists with the same extents over children with the same rows hold the same rows.
proof fn lemma_same_lists(a: Array, r: Array)
    requires
        a.wf(),
        is_list(a),
        is_list(r),
        same_header(a, r),
        forall|i: int| 0 <= i < a.len ==> #[trigger] list_extent(r, i) == list_extent(a, i),
        forall|k: int|
            0 <= k < list_child(a).len ==> #[trigger] list_child(r).row(k) == list_child(a).row(k),
    ensures
        forall|i: int| 0 <= i < a.len ==> #[trigger] r.row(i) == a.row(i),
{
    assert forall|i: int| 0 <= i < a.len implies #[trigger] r.row(i) == a.row(i) by {
        if valid_in(a.bits(), i) {
            let (start, count) = list_extent(a, i);
            assert(list_extent(r, i) == (start, count));
            lemma_list_extent(a, i);
            lemma_list_row(a, i);
            lemma_list_row(r, i);
            let rows = rows_from(list_child(a), start, count);
            let new_rows = rows_from(list_child(r), start, count);
            assert forall|k: int| 0 <= k < count implies rows[k] == new_rows[k] by {
                assert(list_child(r).row(start + k) == list_child(a).row(start + k));
            }
            assert(rows =~= new_rows);
        } else {
            assert(!valid_in(r.bits(), i));
        }
    }
}

/// Structs over columns with the same rows hold the same rows.
proof fn lemma_same_structs(a: Array, r: Array)
    requires
        a.values is Struct,
        r.values is Struct,
        same_header(a, r),
        a.values->columns@.len() == r.values->columns@.len(),
        forall|k: int, i: int|
            0 <= k < a.values->columns@.len() && 0 <= i < a.len
                ==> #[trigger] r.values->columns@[k].row(i) == a.values->columns@[k].row(i),
    ensures
        forall|i: int| 0 <= i < a.len ==> #[trigger] r.row(i) == a.row(i),
{
    assert forall|i: int| 0 <= i < a.len implies #[trigger] r.row(i) == a.row(i) by {
        if valid_in(a.bits(), i) {
            let columns = a.values->columns@;
            let new_columns = r.values->columns@;
            assert(r.row(i) is Struct && a.row(i) is Struct);
            assert forall|k: int| 0 <= k < columns.len() implies r.row(i)->Struct_0[k]
                == a.row(i)->Struct_0[k] by {
                assert(new_columns[k].row(i) == columns[k].row(i));
            }
            assert(r.row(i)->Struct_0 =~= a.row(i)->Struct_0);
        }
    }
}

/// Compaction keeps an array well-formed and changes none of its rows.
pub proof fn lemma_compacts_to(a: &Array, r: &Array)
    requires
        a.wf(),
        compacts_to(*a, *r),
    ensures
        r.wf(),
        same_header(*a, *r),
        forall|i: int| 0 <= i < a.len ==> #[trigger] r.row(i) == a.row(i),
    decreases a,
{
    if rebuilt(*a, *r) {
        match (&a.values, &r.values) {
            (Values::Views { views, buffers }, Values::Views { views: v, buffers: b }) => {
                assert(buffers@.len() == buffers.len());
                lemma_told(views@, buffers@, Some((*v, *b)));
                lemma_compacts(views@, buffers@, Some((*v, *b)));
            },
            (Values::List { offsets, child }, Values::List { offsets: o, child: c }) => {
                lemma_compacts_to(child, c);
                lemma_offsets(*offsets, *o);
                lemma_same_lists(*a, *r);
            },
            (
                Values::ListView { offsets, sizes, child },
                Values::ListView { offsets: o, sizes: s, child: c },
            ) => {
                lemma_compacts_to(child, c);
                lemma_offsets(*offsets, *o);
                lemma_offsets(*sizes, *s);
                lemma_same_lists(*a, *r);
            },
            (
                Values::FixedSizeList { size, child },
                Values::FixedSizeList { size: s, child: c },
            ) => {
                lemma_compacts_to(child, c);
                lemma_same_lists(*a, *r);
            },
            (Values::Struct { columns }, Values::Struct { columns: c }) => {
                assert forall|k: int| 0 <= k < columns@.len() implies (#[trigger] c@[k]).wf()
                    && same_header(*columns@[k], *c@[k]) by {
                    assert(compacts_to(*columns@[k], *c@[k]));
                    lemma_compacts_to(&*columns@[k], &*c@[k]);
                }
                assert forall|k: int, i: int|
                    0 <= k < columns@.len() && 0 <= i < a.len implies #[trigger] c@[k].row(i)
                    == columns@[k].row(i) by {
                    assert(compacts_to(*columns@[k], *c@[k]));
                    lemma_compacts_to(&*columns@[k], &*c@[k]);
                }
                lemma_same_structs(*a, *r);
            },
            (
                Values::Union { type_ids, slots, children },
                Values::Union { type_ids: t, slots: s, children: c },
            ) => {
                assert forall|k: int| 0 <= k < children@.len() implies (#[trigger] c@[k]).wf()
                    && same_header(*children@[k], *c@[k]) by {
                    assert(compacts_to(*children@[k], *c@[k]));
                    lemma_compacts_to(&*children@[k], &*c@[k]);
                }
                let fields = a.union_fields();
                assert forall|i: int| 0 <= i < a.len implies #[trigger] r.row(i) == a.row(i) by {
                    let k = field_position(fields, type_ids@[i]);
                    assert(has_field(fields, type_ids@[i]));
                    assert(compacts_to(*children@[k], *c@[k]));
                    lemma_compacts_to(&*children@[k], &*c@[k]);
                    let slot = match slots {
                        Some(o) => o@[i] as int,
                        None => i,
                    };
                    assert(0 <= slot < children@[k].len);
                    assert(c@[k].row(slot) == children@[k].row(slot));
                }
            },
            _ => {},
        }
    }
}

/// Copies of offsets agree at each position.
proof fn lemma_offsets(offsets: Offsets, copy: Offsets)
    requires
        same_offsets(offsets, copy),
    ensures
        copy is Small <==> offsets is Small,
        copy.spec_len() == offsets.spec_len(),
        forall|i: int| #[trigger] copy.at(i) == offsets.at(i),
{
}

} // verus!
