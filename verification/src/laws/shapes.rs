//! What results hold besides the slots that were asked for: nothing.
use crate::array::{has_field, runs_wf, Array, ArrayRef, Native, Offsets, Values};
use crate::buffers::boolean_bits;
use crate::compact::{lemma_compacts, lemma_told};
use crate::copy::copy_slices;
use crate::deep::{compacts_to, lemma_compacts_to, rebuilt, same_header};
use crate::empty::is_empty_like;
use crate::error::TakeError;
use crate::indices::{positions, to_indices, IndexSeq, Indices};
use crate::laws::{
    law_dense_union_keeps_no_unused_slots, law_struct_is_taken_by_column, lemma_within_limit,
};
use crate::laws::calls::{
    asked_for, fetched, lemma_asked_for, lemma_fetched, lemma_first_total, lemma_positions,
    lemma_within_bounds,
};
use crate::laws::kernels::{follows, lemma_occurrences};
use crate::laws::numbers::{holds_numbers, keeps_to, null_at, number_at};
use crate::laws::parts::{lemma_slots_in, lies_within, slots_in};
use crate::laws::retained::{lemma_little_at_any_depth, retains_little_at_any_depth};
use crate::laws::room::reach;
use crate::laws::slots::{
    absent, in_run, lemma_absent, lemma_in_run, lemma_same_slot, offset_at, same_slot,
};
use crate::layout::laid_out;
use crate::list::{lemma_fixed_spans, lemma_fixed_total, take_value_indices_from_fixed_size_list};
use crate::retention::law_run_values_retain_little;
use crate::run::lemma_stretches;
use crate::selection::{
    children_error, cut_spans, first_beyond, fixed_spans, gathered, in_bounds, lemma_cut_spans,
    lemma_spread, lemma_spread_at, lemma_total_monotone, occurrences, picked, runs_of, spans_within,
    spread, starts_run, stretch_ends, take_error, takes, total, Span,
};
use crate::slices::{
    are_slices, is_staircase, lemma_locate, lemma_run_slices, lemma_runs_rise, lemma_slices,
    lemma_touched, lemma_touched_at, run_slices, spans_of, touched_runs, Slice,
};
use crate::take::{lemma_keeps_takes, selects, take, take_impl, TakeOptions};
use crate::views::is_inline;
use vstd::prelude::*;

verus! {

/// How many values there are.
pub open spec fn count_of(values: Native) -> nat {
    match values {
        Native::W8(v) => v@.len(),
        Native::W16(v) => v@.len(),
        Native::W32(v) => v@.len(),
        Native::W64(v) => v@.len(),
        Native::W128(v) => v@.len(),
        Native::W256(v) => v@.len(),
    }
}

/// How many offsets there are.
pub open spec fn offset_count(offsets: Offsets) -> nat {
    match offsets {
        Offsets::Small(v) => v@.len(),
        Offsets::Large(v) => v@.len(),
    }
}

/// The array holds nothing at any depth: no slots, no bytes, no buffers and no runs.
pub open spec fn holds_nothing(a: Array) -> bool
    decreases a,
{
    &&& a.len == 0
    &&& match a.values {
        Values::Null => true,
        Values::Native(v) => count_of(v) == 0,
        Values::Boolean(b) => boolean_bits(b).len() == 0,
        Values::Bytes { offsets, data } => offset_count(offsets) == 1 && data@.len() == 0,
        Values::Views { views, buffers } => views@.len() == 0 && buffers@.len() == 0,
        Values::List { offsets, child } => offset_count(offsets) == 1 && holds_nothing(*child),
        Values::ListView { offsets, sizes, child } => {
            offset_count(offsets) == 0 && offset_count(sizes) == 0 && holds_nothing(*child)
        },
        Values::FixedSizeList { size, child } => holds_nothing(*child),
        Values::FixedSizeBinary { size, data } => data@.len() == 0,
        Values::Struct { columns } => forall|k: int|
            0 <= k < columns@.len() ==> holds_nothing(*#[trigger] columns@[k]),
        Values::Dictionary { key_type, keys, dictionary } => {
            count_of(keys) == 0 && holds_nothing(*dictionary)
        },
        Values::Runs { end_type, ends, offset, values } => ends@.len() == 0 && holds_nothing(
            *values,
        ),
        Values::Union { type_ids, slots, children } => {
            &&& type_ids@.len() == 0
            &&& slots matches Some(o) ==> o@.len() == 0
            &&& forall|k: int|
                0 <= k < children@.len() ==> holds_nothing(*#[trigger] children@[k])
        },
    }
}

/// An empty array holds nothing.
pub proof fn lemma_holds_nothing(a: &Array, r: &Array)
    requires
        is_empty_like(*a, *r),
    ensures
        holds_nothing(*r),
    decreases a,
{
    match (&a.values, &r.values) {
        (Values::List { child, .. }, Values::List { child: c, .. }) => {
            lemma_holds_nothing(child, c);
        },
        (Values::ListView { child, .. }, Values::ListView { child: c, .. }) => {
            lemma_holds_nothing(child, c);
        },
        (Values::FixedSizeList { child, .. }, Values::FixedSizeList { child: c, .. }) => {
            lemma_holds_nothing(child, c);
        },
        (Values::Dictionary { dictionary, .. }, Values::Dictionary { dictionary: d, .. }) => {
            lemma_holds_nothing(dictionary, d);
        },
        (Values::Runs { values, .. }, Values::Runs { values: v, .. }) => {
            lemma_holds_nothing(values, v);
        },
        (Values::Struct { columns }, Values::Struct { columns: c }) => {
            assert forall|k: int| 0 <= k < c@.len() implies holds_nothing(*#[trigger] c@[k]) by {
                lemma_holds_nothing(&*columns@[k], &*c@[k]);
            }
        },
        (Values::Union { children, .. }, Values::Union { children: c, .. }) => {
            assert forall|k: int| 0 <= k < c@.len() implies holds_nothing(*#[trigger] c@[k]) by {
                lemma_holds_nothing(&*children@[k], &*c@[k]);
            }
        },
        _ => {},
    }
}

/// An array that holds nothing is not rebuilt.
proof fn lemma_nothing_to_rebuild(a: &Array, r: &Array)
    requires
        holds_nothing(*a),
    ensures
        !rebuilt(*a, *r),
    decreases a,
{
    match (&a.values, &r.values) {
        (Values::List { child, .. }, Values::List { child: c, .. }) => {
            lemma_nothing_to_rebuild(child, c);
        },
        (Values::ListView { child, .. }, Values::ListView { child: c, .. }) => {
            lemma_nothing_to_rebuild(child, c);
        },
        (Values::FixedSizeList { child, .. }, Values::FixedSizeList { child: c, .. }) => {
            lemma_nothing_to_rebuild(child, c);
        },
        (Values::Struct { columns }, Values::Struct { columns: c }) => {
            assert forall|k: int| 0 <= k < columns@.len() implies !rebuilt(
                *columns@[k],
                *#[trigger] c@[k],
            ) by {
                lemma_nothing_to_rebuild(&*columns@[k], &*c@[k]);
            }
        },
        (Values::Union { children, .. }, Values::Union { children: c, .. }) => {
            assert forall|k: int| 0 <= k < children@.len() implies !rebuilt(
                *children@[k],
                *#[trigger] c@[k],
            ) by {
                lemma_nothing_to_rebuild(&*children@[k], &*c@[k]);
            }
        },
        _ => {},
    }
}

/// What [`take`] compacts.
pub proof fn lemma_laid_out(values: &Array, indices: &Array, taken: &Array) -> (mid: Array)
    requires
        selects(*values, *indices, *taken),
    ensures
        takes(*values, positions(*indices), mid),
        laid_out(*values, positions(*indices), indices.bits(), mid),
        compacts_to(mid, *taken),
{
    choose|mid: Array| #[trigger]
        takes(*values, positions(*indices), mid) && laid_out(
            *values,
            positions(*indices),
            indices.bits(),
            mid,
        ) && compacts_to(mid, *taken)
}

/// Taking no slots succeeds, and gives an array that holds nothing.
pub proof fn law_taking_nothing_gives_nothing(
    values: &Array,
    indices: &Array,
    options: Option<TakeOptions>,
    result: Result<ArrayRef, TakeError>,
)
    requires
        values.wf(),
        indices.wf(),
        holds_numbers(*indices),
        indices.len == 0,
        call_ensures(take, (values, indices, options), result),
    ensures
        result matches Ok(taken) && holds_nothing(*taken),
{
    lemma_positions(*indices);
    lemma_within_bounds(*indices, values.len);
    if let Ok(taken) = result {
        let r: &Array = &*taken;
        let mid = lemma_laid_out(values, indices, r);
        lemma_holds_nothing(values, &mid);
        lemma_nothing_to_rebuild(&mid, r);
    }
}

/// Strings and binaries that were taken hold the bytes that were asked for and no others.
pub proof fn law_taken_bytes_are_those_asked_for(
    values: &Array,
    indices: &Array,
    options: Option<TakeOptions>,
    taken: ArrayRef,
)
    requires
        values.wf(),
        values.values is Bytes,
        indices.wf(),
        holds_numbers(*indices),
        indices.len > 0,
        forall|i: int| 0 <= i < indices.len ==> #[trigger] keeps_to(*indices, i, values.len as int),
        call_ensures(take, (values, indices, options), Ok(taken)),
    ensures
        taken.values is Bytes,
        taken.values->Bytes_data@.len() == asked_for(
            values.values->Bytes_offsets,
            values.nulls,
            *indices,
            indices.len as nat,
        ),
        offset_at(taken.values->Bytes_offsets, 0) == 0,
        offset_at(taken.values->Bytes_offsets, indices.len as int)
            == taken.values->Bytes_data@.len(),
{
    let r: &Array = &*taken;
    let mid = lemma_laid_out(values, indices, r);
    let offsets = values.values->Bytes_offsets;
    lemma_positions(*indices);
    lemma_asked_for(*values, offsets, *indices, indices.len as nat);
    assert(mid == *taken);
    let spans = cut_spans(values.bits(), offsets, positions(*indices));
    assert(taken.values->Bytes_offsets.at(0) == total(spans, 0));
    assert(taken.values->Bytes_offsets.at(indices.len as int) == total(spans, spans.len()));
}

/// Lists and maps that were taken hold the items that were asked for and no others. They cannot be
/// taken where those are more than the offsets can count; the error is then the first total that
/// is.
pub proof fn law_taken_items_are_those_asked_for(
    values: &Array,
    indices: &Array,
    options: Option<TakeOptions>,
    result: Result<ArrayRef, TakeError>,
)
    requires
        values.wf(),
        values.values is List,
        indices.wf(),
        holds_numbers(*indices),
        indices.len > 0,
        forall|i: int| 0 <= i < indices.len ==> #[trigger] keeps_to(*indices, i, values.len as int),
        call_ensures(take, (values, indices, options), result),
    ensures
        result matches Ok(taken) ==> {
            let asked = asked_for(
                values.values->List_offsets,
                values.nulls,
                *indices,
                indices.len as nat,
            );
            &&& taken.values is List
            &&& taken.values->List_child.len == asked
            &&& offset_at(taken.values->List_offsets, 0) == 0
            &&& offset_at(taken.values->List_offsets, indices.len as int) == asked
            &&& asked <= reach(values.values->List_offsets)
        },
        asked_for(values.values->List_offsets, values.nulls, *indices, indices.len as nat) > reach(
            values.values->List_offsets,
        ) ==> exists|k: nat|
            {
                let asked = #[trigger] asked_for(
                    values.values->List_offsets,
                    values.nulls,
                    *indices,
                    k,
                );
                &&& 0 < k <= indices.len
                &&& asked > reach(values.values->List_offsets)
                &&& result == Err::<ArrayRef, TakeError>(TakeError::OffsetOverflow(asked as u64))
                &&& forall|m: nat|
                    0 < m < k ==> #[trigger] asked_for(
                        values.values->List_offsets,
                        values.nulls,
                        *indices,
                        m,
                    ) <= reach(values.values->List_offsets)
            },
{
    let offsets = values.values->List_offsets;
    let ix = positions(*indices);
    let spans = cut_spans(values.bits(), offsets, ix);
    let limit = offsets.limit();
    let end = values.values->List_child.len;
    lemma_positions(*indices);
    lemma_within_bounds(*indices, values.len);
    lemma_cut_spans(values.bits(), offsets, values.len as nat, end as nat, ix);
    lemma_first_total(spans, limit, ix.len());
    assert forall|k: nat| k <= ix.len() implies #[trigger] total(spans, k) == asked_for(
        offsets,
        values.nulls,
        *indices,
        k,
    ) by {
        lemma_asked_for(*values, offsets, *indices, k);
    }
    assert(total(spans, ix.len()) == asked_for(offsets, values.nulls, *indices, ix.len()));
    if let Ok(taken) = result {
        let r: &Array = &*taken;
        let mid = lemma_laid_out(values, indices, r);
        lemma_compacts_to(&mid, r);
        assert(spans_within(spans, end as int));
        lemma_spread(spans, end as int, spans.len());
        assert(mid.values->List_offsets.at(0) == total(spans, 0));
        assert(mid.values->List_offsets.at(ix.len() as int) == total(spans, ix.len()));
        assert(mid.values->List_child.len == total(spans, ix.len()));
        assert(first_beyond(spans, limit, ix.len()) is None);
        if rebuilt(mid, *r) {
            let (child, items) = (&*mid.values->List_child, &*r.values->List_child);
            assert(rebuilt(*child, *items));
            assert(same_header(*child, *items));
        }
    }
    if total(spans, ix.len()) > limit {
        let k = choose|k: nat|
            {
                &&& 0 < k <= ix.len()
                &&& first_beyond(spans, limit, ix.len())->0 == #[trigger] total(spans, k)
                &&& total(spans, k) > limit
                &&& forall|m: nat| 0 < m < k ==> #[trigger] total(spans, m) <= limit
            };
        assert(total(spans, k) == asked_for(offsets, values.nulls, *indices, k));
        assert forall|m: nat| 0 < m < k implies #[trigger] asked_for(
            offsets,
            values.nulls,
            *indices,
            m,
        ) <= limit by {
            assert(total(spans, m) <= limit);
        }
    }
}

/// Taking from a dictionary array keeps the dictionary as a whole, slot by slot.
pub proof fn law_dictionaries_are_kept(
    values: &Array,
    indices: &Array,
    options: Option<TakeOptions>,
    taken: ArrayRef,
)
    requires
        values.wf(),
        values.values is Dictionary,
        indices.wf(),
        holds_numbers(*indices),
        indices.len > 0,
        call_ensures(take, (values, indices, options), Ok(taken)),
    ensures
        taken.values is Dictionary,
        taken.values->key_type == values.values->key_type,
        taken.values->dictionary.len == values.values->dictionary.len,
        forall|i: int|
            0 <= i < values.values->dictionary.len ==> #[trigger] same_slot(
                *values.values->dictionary,
                i,
                *taken.values->dictionary,
                i,
            ),
{
    let r: &Array = &*taken;
    let mid = lemma_laid_out(values, indices, r);
    lemma_positions(*indices);
    assert(mid == *taken);
    assert forall|i: int| 0 <= i < values.values->dictionary.len implies #[trigger] same_slot(
        *values.values->dictionary,
        i,
        *taken.values->dictionary,
        i,
    ) by {
        lemma_same_slot(&*values.values->dictionary, i, &*taken.values->dictionary, i);
    }
}

/// Taking from list views keeps the items as a whole, slot by slot.
pub proof fn law_items_of_list_views_are_kept(
    values: &Array,
    indices: &Array,
    options: Option<TakeOptions>,
    taken: ArrayRef,
)
    requires
        values.wf(),
        values.values is ListView,
        indices.wf(),
        holds_numbers(*indices),
        indices.len > 0,
        call_ensures(take, (values, indices, options), Ok(taken)),
    ensures
        taken.values is ListView,
        taken.values->ListView_child.len == values.values->ListView_child.len,
        forall|i: int|
            0 <= i < values.values->ListView_child.len ==> #[trigger] same_slot(
                *values.values->ListView_child,
                i,
                *taken.values->ListView_child,
                i,
            ),
{
    let r: &Array = &*taken;
    let mid = lemma_laid_out(values, indices, r);
    lemma_positions(*indices);
    let child: &Array = &*values.values->ListView_child;
    let items: &Array = &*r.values->ListView_child;
    assert(*mid.values->ListView_child == *child);
    assert(compacts_to(*child, *items) || *items == *child);
    if compacts_to(*child, *items) {
        lemma_compacts_to(child, items);
    }
    assert forall|i: int| 0 <= i < child.len implies #[trigger] same_slot(
        *values.values->ListView_child,
        i,
        *taken.values->ListView_child,
        i,
    ) by {
        assert(items.row(i) == child.row(i));
        lemma_same_slot(child, i, items, i);
    }
}

/// A struct can be taken from if and only if each of its columns can, and fails as the first that
/// cannot. Its columns hold what the indices ask of each of them, under a null struct too.
pub proof fn law_structs_are_taken_column_by_column(
    values: &Array,
    indices: &Array,
    options: Option<TakeOptions>,
    each: Seq<Result<ArrayRef, TakeError>>,
    result: Result<ArrayRef, TakeError>,
)
    requires
        values.wf(),
        values.values is Struct,
        indices.wf(),
        holds_numbers(*indices),
        forall|i: int| 0 <= i < indices.len ==> #[trigger] keeps_to(*indices, i, values.len as int),
        call_ensures(take, (values, indices, options), result),
        each.len() == values.values->columns@.len(),
        forall|k: int|
            0 <= k < each.len() ==> call_ensures(
                take,
                (&*values.values->columns@[k], indices, options),
                #[trigger] each[k],
            ),
    ensures
        result is Ok <==> forall|k: int| 0 <= k < each.len() ==> #[trigger] each[k] is Ok,
        result matches Err(e) ==> exists|k: int|
            {
                &&& 0 <= k < each.len()
                &&& #[trigger] each[k] == Err::<ArrayRef, TakeError>(e)
                &&& forall|j: int| 0 <= j < k ==> #[trigger] each[j] is Ok
            },
        result matches Ok(taken) ==> indices.len > 0 ==> {
            &&& taken.values is Struct
            &&& taken.values->columns@.len() == each.len()
            &&& forall|k: int|
                0 <= k < each.len() ==> fetched(
                    *values.values->columns@[k],
                    *indices,
                    *#[trigger] taken.values->columns@[k],
                )
        },
{
    let ix = positions(*indices);
    let columns = values.values->columns@;
    lemma_positions(*indices);
    lemma_within_bounds(*indices, values.len);
    assert forall|k: int| 0 <= k < columns.len() implies (#[trigger] each[k] is Ok <==> take_error(
        *columns[k],
        ix,
    ) is None) by {
        assert(columns[k].len == values.len);
    }
    if ix.len() > 0 {
        law_struct_is_taken_by_column(*values, ix, None, *values);
        if forall|k: int| 0 <= k < each.len() ==> #[trigger] each[k] is Ok {
            assert forall|k: int| 0 <= k < columns.len() implies take_error(
                *#[trigger] columns[k],
                ix,
            ) is None by {
                assert(each[k] is Ok);
            }
        }
        assert forall|k: int| 0 <= k < columns.len() implies in_bounds(
            *#[trigger] columns[k],
            ix,
        ) by {
            assert(columns[k].len == values.len);
        }
        assert forall|k: int| 0 <= k < each.len() implies match #[trigger] each[k] {
            Ok(_) => take_error(*columns[k], ix) is None,
            Err(e) => take_error(*columns[k], ix) == Some(e),
        } by {
            assert(columns[k].len == values.len);
        }
        lemma_first_child_fails(columns, ix, each, columns.len());
        if let Ok(taken) = result {
            let r: &Array = &*taken;
            let mid = lemma_laid_out(values, indices, r);
            let middle = mid.values->columns@;
            let found = r.values->columns@;
            assert forall|k: int| 0 <= k < columns.len() implies fetched(
                *columns[k],
                *indices,
                *#[trigger] found[k],
            ) by {
                assert(takes(*columns[k], ix, *middle[k]));
                assert(columns[k].wf());
                if rebuilt(mid, *r) {
                    assert(compacts_to(*middle[k], *found[k]));
                    lemma_keeps_takes(&*columns[k], ix, &*middle[k], &*found[k]);
                }
                lemma_fetched(&*columns[k], indices, &*found[k]);
            }
        }
    }
}

/// The error among children that are asked for the same is that of the first that fails.
proof fn lemma_first_child_fails(
    children: Seq<ArrayRef>,
    ix: IndexSeq,
    each: Seq<Result<ArrayRef, TakeError>>,
    k: nat,
)
    requires
        k <= each.len() == children.len(),
        forall|j: int| 0 <= j < children.len() ==> in_bounds(*#[trigger] children[j], ix),
        forall|j: int|
            0 <= j < each.len() ==> match #[trigger] each[j] {
                Ok(_) => take_error(*children[j], ix) is None,
                Err(e) => take_error(*children[j], ix) == Some(e),
            },
    ensures
        ({
            let error = children_error(children, Seq::new(children.len(), |j: int| ix), k);
            &&& error is None <==> forall|j: int| 0 <= j < k ==> #[trigger] each[j] is Ok
            &&& error matches Some(e) ==> exists|j: int|
                {
                    &&& 0 <= j < k
                    &&& #[trigger] each[j] == Err::<ArrayRef, TakeError>(e)
                    &&& forall|t: int| 0 <= t < j ==> #[trigger] each[t] is Ok
                }
        }),
    decreases k,
{
    if k > 0 {
        lemma_first_child_fails(children, ix, each, (k - 1) as nat);
        assert(in_bounds(*children[k - 1], ix));
        let last = each[k - 1];
        assert(last is Ok || last is Err);
    }
}

/// Runs that were taken are the runs that they were taken from: neighbours among the slots are in
/// one run of the result where the slots that they were taken from are in one run. Nothing is
/// encoded beyond them, and the values of the runs retain little.
pub proof fn law_runs_are_taken_by_run(
    values: &Array,
    indices: &Array,
    options: Option<TakeOptions>,
    taken: ArrayRef,
    i: int,
    p: int,
    q: int,
)
    requires
        values.wf(),
        values.values is Runs,
        indices.wf(),
        holds_numbers(*indices),
        indices.len > 0,
        forall|j: int|
            0 <= j < indices.len ==> 0 <= #[trigger] number_at(*indices, j) < values.len,
        call_ensures(take, (values, indices, options), Ok(taken)),
    ensures
        taken.values is Runs,
        taken.values->offset == 0,
        taken.values->ends@.len() > 0,
        taken.values->ends@[taken.values->ends@.len() - 1] == indices.len,
        taken.values->Runs_values.len == taken.values->ends@.len(),
        retains_little_at_any_depth(*taken.values->Runs_values),
        0 <= i && i + 1 < indices.len && in_run(
            values.values->ends@,
            p,
            values.values->offset + number_at(*indices, i),
        ) && in_run(
            values.values->ends@,
            q,
            values.values->offset + number_at(*indices, i + 1),
        ) ==> (p != q <==> exists|k: int|
            0 <= k < taken.values->ends@.len() && #[trigger] taken.values->ends@[k] == i + 1),
{
    let r: &Array = &*taken;
    let mid = lemma_laid_out(values, indices, r);
    let ix = positions(*indices);
    lemma_positions(*indices);
    assert(mid == *taken);
    let ends = values.values->ends@;
    let offset = values.values->offset as int;
    let runs = runs_of(ends, offset, ix);
    let last = offset + values.len;
    law_run_values_retain_little(*values, ix, indices.bits(), *r);
    lemma_little_at_any_depth(&*r.values->Runs_values);
    assert forall|j: int| 0 <= j < runs.len() implies 0 <= #[trigger] runs[j] <= usize::MAX by {
        assert(0 <= number_at(*indices, j) < values.len);
        assert(ix.raw[j] == number_at(*indices, j));
        lemma_in_run(ends, last, offset + ix.raw[j]);
    }
    lemma_stretches(runs, ix.len());
    if 0 <= i && i + 1 < indices.len && in_run(ends, p, offset + number_at(*indices, i)) && in_run(
        ends,
        q,
        offset + number_at(*indices, i + 1),
    ) {
        assert(0 <= number_at(*indices, i) < values.len);
        assert(0 <= number_at(*indices, i + 1) < values.len);
        assert(ix.raw[i] == number_at(*indices, i));
        assert(ix.raw[i + 1] == number_at(*indices, i + 1));
        lemma_in_run(ends, last, offset + ix.raw[i]);
        lemma_in_run(ends, last, offset + ix.raw[i + 1]);
        assert(runs[i] == p && runs[i + 1] == q);
        lemma_stretch_stops(runs, ix.len(), i + 1);
    }
}

/// A stretch ends before a slot if and only if that starts another run.
proof fn lemma_stretch_stops(runs: Seq<int>, k: nat, i: int)
    requires
        0 < i < k <= runs.len(),
        k <= i64::MAX,
        forall|j: int| 0 <= j < runs.len() ==> 0 <= #[trigger] runs[j] <= usize::MAX,
    ensures
        starts_run(runs, i) <==> exists|p: int|
            0 <= p < stretch_ends(runs, k).len() && #[trigger] stretch_ends(runs, k)[p] == i,
    decreases k,
{
    let before = (k - 1) as nat;
    let ends = stretch_ends(runs, before);
    let new_ends = stretch_ends(runs, k);
    lemma_stretches(runs, before);
    if i < k - 1 {
        lemma_stretch_stops(runs, before, i);
        assert(ends[ends.len() - 1] == before);
        if exists|p: int| 0 <= p < ends.len() && #[trigger] ends[p] == i {
            let p = choose|p: int| 0 <= p < ends.len() && #[trigger] ends[p] == i;
            assert(p < ends.len() - 1);
            assert(new_ends[p] == i);
        }
        if exists|p: int| 0 <= p < new_ends.len() && #[trigger] new_ends[p] == i {
            let p = choose|p: int| 0 <= p < new_ends.len() && #[trigger] new_ends[p] == i;
            assert(p < new_ends.len() - 1);
            assert(ends[p] == i);
        }
    } else {
        if starts_run(runs, i) {
            assert(new_ends[new_ends.len() - 2] == i);
        } else {
            assert forall|p: int| 0 <= p < new_ends.len() implies #[trigger] new_ends[p] != i by {
                if p < new_ends.len() - 1 {
                    assert(new_ends[p] == ends[p]);
                    assert(ends[p] < ends[ends.len() - 1]);
                }
            }
        }
    }
}

/// No slot before `i` is of its variant.
pub open spec fn is_first_of(ids: Seq<i8>, i: int) -> bool {
    0 <= i < ids.len() && forall|j: int| 0 <= j < i ==> #[trigger] ids[j] != ids[i]
}

/// No slot after `i` is of its variant.
pub open spec fn is_last_of(ids: Seq<i8>, i: int) -> bool {
    0 <= i < ids.len() && forall|j: int| i < j < ids.len() ==> #[trigger] ids[j] != ids[i]
}

/// The slots of a dense union that was taken are counted for each variant, from zero and by one
/// from each slot to the next; its children end with the last of them, and hold nothing where a
/// variant does not occur.
pub proof fn law_dense_unions_hold_what_their_slots_refer_to(
    values: &Array,
    indices: &Array,
    options: Option<TakeOptions>,
    taken: ArrayRef,
)
    requires
        values.wf(),
        values.values is Union,
        values.values->slots is Some,
        indices.wf(),
        holds_numbers(*indices),
        call_ensures(take, (values, indices, options), Ok(taken)),
    ensures
        taken.values is Union,
        taken.values->slots is Some,
        taken.values->type_ids@.len() == indices.len,
        taken.values->slots->0@.len() == indices.len,
        taken.values->children@.len() == values.values->children@.len(),
        forall|i: int|
            #[trigger] is_first_of(taken.values->type_ids@, i) ==> taken.values->slots->0@[i] == 0,
        forall|j: int, i: int|
            #[trigger] follows(taken.values->type_ids@, j, i) ==> taken.values->slots->0@[i]
                == taken.values->slots->0@[j] + 1,
        forall|k: int, i: int|
            0 <= k < taken.values->children@.len() && #[trigger] is_last_of(
                taken.values->type_ids@,
                i,
            ) && taken.values->type_ids@[i] == (#[trigger] values.data_type->Union_0@[k]).0
                ==> taken.values->children@[k].len == taken.values->slots->0@[i] + 1,
        forall|k: int|
            0 <= k < taken.values->children@.len() && (forall|i: int|
                0 <= i < indices.len ==> #[trigger] taken.values->type_ids@[i]
                    != values.data_type->Union_0@[k].0) ==> (
            #[trigger] taken.values->children@[k]).len == 0,
{
    let r: &Array = &*taken;
    let mid = lemma_laid_out(values, indices, r);
    let ix = positions(*indices);
    lemma_positions(*indices);
    law_dense_union_keeps_no_unused_slots(*values, ix, indices.bits(), mid);
    let ids = mid.values->type_ids@;
    let offsets = mid.values->slots->0@;
    let children = r.values->children@;
    let fields = values.union_fields();
    assert(r.values->type_ids@ == ids && r.values->slots->0@ == offsets);
    assert forall|k: int| 0 <= k < children.len() implies (#[trigger] children[k]).len
        == occurrences(ids, fields[k].0, ix.len()) by {
        let child = mid.values->children@[k];
        assert(child.len == occurrences(ids, fields[k].0, ix.len()));
        if rebuilt(mid, *r) {
            assert(children[k] == child || rebuilt(*child, *children[k]));
            assert(children[k].len == child.len);
        }
    }
    assert forall|i: int| #[trigger] is_first_of(ids, i) implies offsets[i] == 0 by {
        lemma_occurrences(ids, ids[i], 0, i as nat);
        let _ = offsets[i];
    }
    assert forall|j: int, i: int| #[trigger] follows(ids, j, i) implies offsets[i] == offsets[j]
        + 1 by {
        lemma_occurrences(ids, ids[i], (j + 1) as nat, i as nat);
        assert(occurrences(ids, ids[i], (j + 1) as nat) == occurrences(ids, ids[i], j as nat) + 1);
        let _ = offsets[j];
        let _ = offsets[i];
    }
    assert forall|k: int, i: int|
        0 <= k < children.len() && #[trigger] is_last_of(ids, i) && ids[i] == (
        #[trigger] fields[k]).0 implies children[k].len == offsets[i] + 1 by {
        lemma_occurrences(ids, ids[i], (i + 1) as nat, ix.len());
        assert(occurrences(ids, ids[i], (i + 1) as nat) == occurrences(ids, ids[i], i as nat) + 1);
        let _ = offsets[i];
    }
    assert forall|k: int|
        0 <= k < children.len() && (forall|i: int|
            0 <= i < indices.len ==> #[trigger] ids[i] != fields[k].0) implies (
    #[trigger] children[k]).len == 0 by {
        lemma_occurrences(ids, fields[k].0, 0, ix.len());
    }
}

/// Copies of run-end encoded arrays end a run with each slice. Within a slice, neighbours are in
/// one run of the copy where they are in one run of the array.
pub proof fn law_copied_runs_end_with_slices(
    array: &Array,
    slices: &Vec<Slice>,
    copy: Array,
    i: int,
    j: int,
    p: int,
    q: int,
)
    requires
        array.wf(),
        array.values is Runs,
        forall|t: int|
            0 <= t < slices@.len() ==> lies_within(#[trigger] slices@[t], array.len as int),
        slots_in(slices@, slices@.len()) <= i64::MAX,
        call_ensures(copy_slices, (array, slices), Ok(copy)),
        0 <= i < slices@.len(),
        0 <= j < slices@[i].len,
        slots_in(slices@, i as nat) + j + 1 < slots_in(slices@, slices@.len()),
        in_run(array.values->ends@, p, array.values->offset + slices@[i].start + j),
        j + 1 < slices@[i].len ==> in_run(
            array.values->ends@,
            q,
            array.values->offset + slices@[i].start + j + 1,
        ),
    ensures
        copy.values is Runs,
        (j + 1 == slices@[i].len || p != q) <==> exists|k: int|
            0 <= k < copy.values->ends@.len() && #[trigger] copy.values->ends@[k] == slots_in(
                slices@,
                i as nat,
            ) + j + 1,
{
    let spans = spans_of(slices@);
    let len = array.len as int;
    let n = spans.len();
    let ends = array.values->ends@;
    let offset = array.values->offset as int;
    let parts = run_slices(ends, offset, spans);
    let tags = touched_runs(ends, offset, spans, n);
    assert(are_slices(spans, len)) by {
        assert forall|t: int| 0 <= t < spans.len() implies {
            &&& (#[trigger] spans[t]).present
            &&& 0 <= spans[t].start
            &&& 0 <= spans[t].len
            &&& spans[t].start + spans[t].len <= len
        } by {
            assert(lies_within(slices@[t], len));
        }
    }
    lemma_slices(spans, len);
    lemma_spread(spans, len, n);
    lemma_slots_in(slices@, n);
    lemma_slots_in(slices@, i as nat);
    assert forall|m: nat| m <= spans.len() implies #[trigger] touched_runs(
        ends,
        offset,
        spans,
        m,
    ).len() == total(spans, m) by {
        lemma_touched(ends, offset, len, spans, m);
    }
    lemma_touched(ends, offset, len, spans, n);
    lemma_touched_at(ends, offset, spans, n, i, j);
    assert(lies_within(slices@[i], len));
    let x = offset + spans[i].start;
    lemma_in_run(ends, offset + len, x + j);
    let at = total(spans, i as nat) + j;
    if j + 1 < slices@[i].len {
        lemma_touched_at(ends, offset, spans, n, i, j + 1);
        lemma_in_run(ends, offset + len, x + j + 1);
        assert(starts_run(tags, at + 1) == (p != q));
    } else {
        lemma_next_slice(ends, offset, len, spans, i);
        assert(starts_run(tags, at + 1));
    }
    assert forall|t: int| 0 <= t < tags.len() implies 0 <= #[trigger] tags[t] <= usize::MAX by {
        lemma_tags_below(tags, (t + 1) as nat);
        lemma_spread(spans, len, n);
        assert(copy.len == total(spans, n));
    }
    lemma_stretch_stops(tags, tags.len(), at + 1);
}

/// The tags of a staircase are not negative and below its length.
proof fn lemma_tags_below(tags: Seq<int>, k: nat)
    requires
        is_staircase(tags),
        k <= tags.len(),
    ensures
        k > 0 ==> 0 <= tags[k - 1] < k,
    decreases k,
{
    if k > 1 {
        lemma_tags_below(tags, (k - 1) as nat);
        assert(tags[k - 1] == tags[k - 2] || tags[k - 1] == tags[k - 2] + 1);
    }
}

/// The slot after the last of a slice is in a run of its own.
proof fn lemma_next_slice(ends: Seq<i64>, offset: int, len: int, spans: Seq<Span>, i: int)
    requires
        runs_wf(ends, offset + len),
        0 <= offset,
        are_slices(spans, len),
        0 <= i < spans.len(),
        spans[i].len > 0,
        total(spans, (i + 1) as nat) < total(spans, spans.len()),
        forall|m: nat|
            m <= spans.len() ==> #[trigger] touched_runs(ends, offset, spans, m).len() == total(
                spans,
                m,
            ),
    ensures
        ({
            let tags = touched_runs(ends, offset, spans, spans.len());
            let at = total(spans, (i + 1) as nat);
            0 < at < tags.len() && tags[at] != tags[at - 1]
        }),
{
    let n = spans.len();
    let parts = run_slices(ends, offset, spans);
    let tags = touched_runs(ends, offset, spans, n);
    let at = total(spans, (i + 1) as nat);
    lemma_slices(spans, len);
    lemma_total_monotone(spans, 0, i as nat);
    assert(tags.len() == total(spans, n));
    let last = spans[i].len - 1;
    lemma_touched_at(ends, offset, spans, n, i, last);
    lemma_run_slices(ends, offset, len, spans);
    lemma_slices(parts, ends.len() as int);
    let (m, y) = lemma_locate(spans, n, at);
    assert(m > i) by {
        if m <= i {
            lemma_total_monotone(spans, (m + 1) as nat, (i + 1) as nat);
        }
    }
    lemma_touched_at(ends, offset, spans, n, m, y);
    lemma_total_monotone(parts, (i + 1) as nat, m as nat);
    let start = offset + spans[m].start;
    assert(spans[m].present && spans[i].present);
    lemma_runs_rise(ends, offset + len, start, start + y);
    assert(tags[at - 1] == total(parts, i as nat) + parts[i].len - 1);
    assert(tags[at] >= total(parts, m as nat));
}

/// The children of a sparse union hold what the indices ask of each of them, whichever variant is
/// there.
pub proof fn law_sparse_unions_are_taken_child_by_child(
    values: &Array,
    indices: &Array,
    options: Option<TakeOptions>,
    taken: ArrayRef,
)
    requires
        values.wf(),
        values.values is Union,
        values.values->slots is None,
        indices.wf(),
        holds_numbers(*indices),
        indices.len > 0,
        call_ensures(take, (values, indices, options), Ok(taken)),
    ensures
        taken.values is Union,
        taken.values->slots is None,
        taken.values->children@.len() == values.values->children@.len(),
        forall|k: int|
            0 <= k < values.values->children@.len() ==> fetched(
                *values.values->children@[k],
                *indices,
                *#[trigger] taken.values->children@[k],
            ),
{
    let ix = positions(*indices);
    let children = values.values->children@;
    lemma_positions(*indices);
    let r: &Array = &*taken;
    let mid = lemma_laid_out(values, indices, r);
    let middle = mid.values->children@;
    let found = r.values->children@;
    assert forall|k: int| 0 <= k < children.len() implies fetched(
        *children[k],
        *indices,
        *#[trigger] found[k],
    ) by {
        assert(takes(*children[k], ix, *middle[k]));
        assert(children[k].wf());
        if rebuilt(mid, *r) {
            assert(compacts_to(*middle[k], *found[k]));
            lemma_keeps_takes(&*children[k], ix, &*middle[k], &*found[k]);
        }
        lemma_fetched(&*children[k], indices, &*found[k]);
    }
}

/// Lists of one size hold the items of each list that was asked for, null or not, and items that
/// are nothing where none was.
pub proof fn law_items_of_one_size_are_taken_by_list(
    values: &Array,
    indices: &Array,
    options: Option<TakeOptions>,
    taken: ArrayRef,
    i: int,
    k: int,
)
    requires
        values.wf(),
        values.values is FixedSizeList,
        indices.wf(),
        holds_numbers(*indices),
        forall|j: int| 0 <= j < indices.len ==> #[trigger] keeps_to(*indices, j, values.len as int),
        call_ensures(take, (values, indices, options), Ok(taken)),
        0 <= i < indices.len,
        0 <= k < values.values->FixedSizeList_size,
    ensures
        taken.values is FixedSizeList,
        taken.values->FixedSizeList_size == values.values->FixedSizeList_size,
        ({
            let size = values.values->FixedSizeList_size;
            let child = *values.values->FixedSizeList_child;
            let items = *taken.values->FixedSizeList_child;
            &&& items.len == indices.len * size
            &&& !null_at(indices.nulls, i) ==> same_slot(
                child,
                number_at(*indices, i) * size + k,
                items,
                i * size + k,
            )
            &&& null_at(indices.nulls, i) && !(child.values is Runs || child.values is Union)
                ==> absent(items, i * size + k)
        }),
{
    let ix = positions(*indices);
    let size = values.values->FixedSizeList_size as int;
    let child: &Array = &*values.values->FixedSizeList_child;
    lemma_positions(*indices);
    lemma_within_bounds(*indices, values.len);
    let r: &Array = &*taken;
    let mid = lemma_laid_out(values, indices, r);
    let middle: &Array = &*mid.values->FixedSizeList_child;
    let items: &Array = &*r.values->FixedSizeList_child;
    let spans = fixed_spans(size, ix);
    let asked = spread(spans, ix.len());
    assert(takes(*child, asked, *middle));
    if rebuilt(mid, *r) {
        assert(rebuilt(*middle, *items));
        lemma_keeps_takes(child, asked, middle, items);
    }
    assert(takes(*child, asked, *items));
    lemma_fixed_spans(size, values.len as int, ix);
    lemma_fixed_total(size, ix, ix.len());
    lemma_fixed_total(size, ix, i as nat);
    lemma_spread(spans, child.len as int, ix.len());
    lemma_spread_at(spans, child.len as int, ix.len(), i, k);
    let p = i * size + k;
    assert(keeps_to(*indices, i, values.len as int));
    assert(ix.valid[i] == !null_at(indices.nulls, i));
    assert(items.row(p) == picked(*child, asked.raw[p] as int, asked.valid[p]));
    if ix.valid[i] {
        let n = number_at(*indices, i);
        assert(ix.raw[i] == n);
        assert(asked.raw[p] == n * size + k);
        assert(asked.raw[p] < child.len);
        lemma_same_slot(child, n * size + k, items, p);
    } else {
        lemma_absent(items, p);
    }
}

/// The slices of items that indices ask for: those of each list, none for a null.
pub open spec fn are_asked_for(values: Array, indices: Array, slices: Seq<Slice>) -> bool {
    let offsets = values.values->List_offsets;
    &&& slices.len() == indices.len
    &&& forall|i: int|
        0 <= i < indices.len ==> {
            let n = number_at(indices, i);
            let slice = #[trigger] slices[i];
            if null_at(indices.nulls, i) || null_at(values.nulls, n) {
                slice.start == 0 && slice.len == 0
            } else {
                &&& slice.start == offset_at(offsets, n)
                &&& slice.len == offset_at(offsets, n + 1) - offset_at(offsets, n)
            }
        }
}

/// Lists can be taken from where there are not too many items if and only if those can be copied,
/// and fail as that does.
pub proof fn law_lists_are_taken_by_copying_their_items(
    values: &Array,
    indices: &Array,
    options: Option<TakeOptions>,
    slices: &Vec<Slice>,
    inner: Result<Array, TakeError>,
    result: Result<ArrayRef, TakeError>,
)
    requires
        values.wf(),
        values.values is List,
        indices.wf(),
        holds_numbers(*indices),
        indices.len > 0,
        forall|i: int| 0 <= i < indices.len ==> #[trigger] keeps_to(*indices, i, values.len as int),
        asked_for(values.values->List_offsets, values.nulls, *indices, indices.len as nat) <= reach(
            values.values->List_offsets,
        ),
        are_asked_for(*values, *indices, slices@),
        call_ensures(copy_slices, (&*values.values->List_child, slices), inner),
        call_ensures(take, (values, indices, options), result),
    ensures
        result is Ok <==> inner is Ok,
        result matches Err(e) ==> inner == Err::<Array, TakeError>(e),
{
    let offsets = values.values->List_offsets;
    let ix = positions(*indices);
    let spans = cut_spans(values.bits(), offsets, ix);
    let end = values.values->List_child.len;
    lemma_positions(*indices);
    lemma_within_bounds(*indices, values.len);
    lemma_cut_spans(values.bits(), offsets, values.len as nat, end as nat, ix);
    lemma_asked_for(*values, offsets, *indices, indices.len as nat);
    lemma_within_limit(spans, offsets.limit(), ix.len());
    assert(spans_of(slices@) =~= spans) by {
        assert forall|i: int| 0 <= i < spans.len() implies spans_of(slices@)[i] == spans[i] by {
            assert(keeps_to(*indices, i, values.len as int));
            assert(ix.valid[i] == !null_at(indices.nulls, i));
            let n = number_at(*indices, i);
            let slice = slices@[i];
            if ix.valid[i] {
                assert(ix.raw[i] == n);
            }
        }
    }
}

/// Lists of one size can be taken from if and only if all the items of the lists that are asked for
/// can, and fail as those do.
pub proof fn law_lists_of_one_size_are_taken_by_their_items(
    values: &Array,
    indices: &Array,
    options: Option<TakeOptions>,
    asked: Indices,
    items: Indices,
    inner: Result<Array, TakeError>,
    result: Result<ArrayRef, TakeError>,
)
    requires
        values.wf(),
        values.values is FixedSizeList,
        indices.wf(),
        holds_numbers(*indices),
        indices.len > 0,
        forall|i: int| 0 <= i < indices.len ==> #[trigger] keeps_to(*indices, i, values.len as int),
        call_ensures(to_indices, (indices,), Ok(asked)),
        call_ensures(
            take_value_indices_from_fixed_size_list,
            (values.len, values.values->FixedSizeList_size, &asked),
            items,
        ),
        call_ensures(take_impl, (&*values.values->FixedSizeList_child, &items), inner),
        call_ensures(take, (values, indices, options), result),
    ensures
        result is Ok <==> inner is Ok,
        result matches Err(e) ==> inner == Err::<Array, TakeError>(e),
{
    lemma_positions(*indices);
    lemma_within_bounds(*indices, values.len);
}

/// A sparse union can be taken from where each of its children can and each number, under a null
/// too, is a slot. Where a child cannot, it fails as the first that cannot.
pub proof fn law_sparse_unions_succeed_as_their_children_do(
    values: &Array,
    indices: &Array,
    options: Option<TakeOptions>,
    each: Seq<Result<ArrayRef, TakeError>>,
    result: Result<ArrayRef, TakeError>,
)
    requires
        values.wf(),
        values.values is Union,
        values.values->slots is None,
        indices.wf(),
        holds_numbers(*indices),
        indices.len > 0,
        forall|i: int|
            0 <= i < indices.len ==> 0 <= #[trigger] number_at(*indices, i) < values.len,
        call_ensures(take, (values, indices, options), result),
        each.len() == values.values->children@.len(),
        forall|k: int|
            0 <= k < each.len() ==> call_ensures(
                take,
                (&*values.values->children@[k], indices, options),
                #[trigger] each[k],
            ),
    ensures
        result is Ok <==> forall|k: int| 0 <= k < each.len() ==> #[trigger] each[k] is Ok,
        result matches Err(e) ==> exists|k: int|
            {
                &&& 0 <= k < each.len()
                &&& #[trigger] each[k] == Err::<ArrayRef, TakeError>(e)
                &&& forall|j: int| 0 <= j < k ==> #[trigger] each[j] is Ok
            },
{
    let ix = positions(*indices);
    let children = values.values->children@;
    let type_ids = values.values->type_ids@;
    lemma_positions(*indices);
    assert forall|i: int| 0 <= i < indices.len implies #[trigger] keeps_to(
        *indices,
        i,
        values.len as int,
    ) by {
        assert(0 <= number_at(*indices, i) < values.len);
    }
    lemma_within_bounds(*indices, values.len);
    assert forall|k: int| 0 <= k < children.len() implies in_bounds(
        *#[trigger] children[k],
        ix,
    ) by {
        assert(children[k].len == values.len);
    }
    assert forall|k: int| 0 <= k < each.len() implies match #[trigger] each[k] {
        Ok(_) => take_error(*children[k], ix) is None,
        Err(e) => take_error(*children[k], ix) == Some(e),
    } by {
        assert(children[k].len == values.len);
    }
    lemma_first_child_fails(children, ix, each, children.len());
    let ids = gathered(type_ids, ix, 0);
    assert forall|i: int| 0 <= i < ids.len() implies has_field(
        values.union_fields(),
        #[trigger] ids[i],
    ) by {
        assert(0 <= number_at(*indices, i) < values.len);
        assert(ix.raw[i] == number_at(*indices, i));
        assert(has_field(values.union_fields(), type_ids[ix.raw[i] as int]));
    }
}

/// Views that their values stand in are taken as they are.
pub proof fn law_short_values_are_taken_in_their_views(
    values: &Array,
    indices: &Array,
    options: Option<TakeOptions>,
    taken: ArrayRef,
    i: int,
)
    requires
        values.wf(),
        values.values is Views,
        indices.wf(),
        holds_numbers(*indices),
        call_ensures(take, (values, indices, options), Ok(taken)),
        0 <= i < indices.len,
        !null_at(indices.nulls, i),
        0 <= number_at(*indices, i) < values.len,
        values.values->views@[number_at(*indices, i)] as int % 0x1_0000_0000 <= 12,
    ensures
        taken.values is Views,
        taken.values->views@[i] == values.values->views@[number_at(*indices, i)],
{
    let r: &Array = &*taken;
    let mid = lemma_laid_out(values, indices, r);
    let ix = positions(*indices);
    lemma_positions(*indices);
    assert(ix.raw[i] == number_at(*indices, i));
    match (&mid.values, &r.values) {
        (Values::Views { views, buffers }, Values::Views { views: v, buffers: b }) => {
            assert(views@[i] == values.values->views@[number_at(*indices, i)]);
            if rebuilt(mid, *r) {
                assert(buffers@.len() == buffers.len());
                lemma_told(views@, buffers@, Some((*v, *b)));
                lemma_compacts(views@, buffers@, Some((*v, *b)));
                assert(is_inline(views@[i]));
                assert(v@[i] == views@[i]);
            }
        },
        _ => {},
    }
}

} // verus!
