//! Taking from unions and structs.
use crate::array::{field_position, has_field, Array, ArrayRef, Values};
use crate::buffers::share;
use crate::datatype::Field;
use crate::error::TakeError;
use crate::flat::{lemma_only_with_nulls, take_native, take_validity, taken_validity};
use crate::indices::{IndexSeq, Indices};
use crate::layout::{arranged, counts, laid_out};
use crate::selection::{
    children_error, dense_picks, gathered, in_bounds, occurrences, offsets_of, picked, take_error,
    takes,
};
use crate::take::{first_out_of_bounds, take_impl};
use crate::validity::{bits_of, drop_if_all_valid, valid_in};
use std::sync::Arc;
use vstd::prelude::*;

verus! {

/// The first error among children stays the first.
proof fn lemma_children_error(children: Seq<ArrayRef>, picks: Seq<IndexSeq>, i: nat, j: nat)
    requires
        i <= j <= children.len(),
        children_error(children, picks, i) is Some,
    ensures
        children_error(children, picks, j) == children_error(children, picks, i),
    decreases j,
{
    if i < j {
        lemma_children_error(children, picks, i, (j - 1) as nat);
    }
}

/// Takes the same positions from each child.
pub fn take_children(children: &Vec<ArrayRef>, indices: &Indices) -> (result: Result<
    Vec<ArrayRef>,
    TakeError,
>)
    requires
        indices.wf(),
        forall|k: int|
            0 <= k < children@.len() ==> (#[trigger] children@[k]).wf() && in_bounds(
                *children@[k],
                indices@,
            ),
    ensures
        result matches Ok(taken) ==> {
            &&& children_error(
                children@,
                Seq::new(children@.len(), |k: int| indices@),
                children@.len(),
            ) is None
            &&& taken@.len() == children@.len()
            &&& forall|k: int|
                0 <= k < children@.len() ==> takes(*children@[k], indices@, *#[trigger] taken@[k])
                    && laid_out(*children@[k], indices@, bits_of(indices.nulls), *taken@[k])
        },
        result matches Err(e) ==> children_error(
            children@,
            Seq::new(children@.len(), |k: int| indices@),
            children@.len(),
        ) == Some(e),
    decreases children@, 0nat,
{
    let ghost picks = Seq::new(children@.len(), |k: int| indices@);
    let mut taken: Vec<ArrayRef> = Vec::with_capacity(children.len());
    let mut k: usize = 0;
    while k < children.len()
        invariant
            indices.wf(),
            forall|j: int|
                0 <= j < children@.len() ==> (#[trigger] children@[j]).wf() && in_bounds(
                    *children@[j],
                    indices@,
                ),
            picks == Seq::new(children@.len(), |j: int| indices@),
            k <= children@.len(),
            children_error(children@, picks, k as nat) is None,
            taken@.len() == k,
            forall|j: int|
                0 <= j < k ==> takes(*children@[j], indices@, *#[trigger] taken@[j]) && laid_out(
                    *children@[j],
                    indices@,
                    bits_of(indices.nulls),
                    *taken@[j],
                ),
        decreases children@.len() - k,
    {
        match take_impl(&children[k], indices) {
            Ok(child) => {
                taken.push(Arc::new(child));
            },
            Err(e) => {
                proof {
                    lemma_children_error(children@, picks, (k + 1) as nat, children@.len());
                }
                return Err(e);
            },
        }
        k += 1;
    }
    Ok(taken)
}

/// Structs whose columns were taken were taken.
pub(crate) proof fn lemma_struct_taken(a: &Array, ix: IndexSeq, r: &Array)
    requires
        a.wf(),
        a.values is Struct,
        r.values is Struct,
        ix.wf(),
        r.data_type == a.data_type,
        r.len == ix.len(),
        r.bits() matches Some(b) ==> b.len() == ix.len(),
        forall|i: int|
            0 <= i < ix.len() ==> #[trigger] valid_in(r.bits(), i) == (ix.valid[i] && valid_in(
                a.bits(),
                ix.raw[i] as int,
            )),
        r.values->columns@.len() == a.values->columns@.len(),
        forall|k: int|
            0 <= k < a.values->columns@.len() ==> takes(
                *a.values->columns@[k],
                ix,
                *#[trigger] r.values->columns@[k],
            ),
    ensures
        takes(*a, ix, *r),
{
    let columns = a.values->columns@;
    let taken = r.values->columns@;
    assert forall|i: int| 0 <= i < ix.len() implies #[trigger] r.row(i) == picked(
        *a,
        ix.raw[i] as int,
        ix.valid[i],
    ) by {
        let raw = ix.raw[i] as int;
        if valid_in(r.bits(), i) {
            assert(r.row(i) is Struct && a.row(raw) is Struct);
            assert forall|k: int| 0 <= k < columns.len() implies r.row(i)->Struct_0[k] == a.row(
                raw,
            )->Struct_0[k] by {
                assert(takes(*columns[k], ix, *taken[k]));
                assert(taken[k].row(i) == picked(*columns[k], raw, true));
            }
            assert(r.row(i)->Struct_0 =~= a.row(raw)->Struct_0);
        }
    }
}

/// Takes from structs: the same positions from each column.
pub fn take_struct(array: &Array, columns: &Vec<ArrayRef>, indices: &Indices) -> (result: Result<
    Array,
    TakeError,
>)
    requires
        array.wf(),
        array.values == (Values::Struct { columns: *columns }),
        indices.wf(),
        indices@.below(array.len as int),
        indices@.len() > 0,
    ensures
        result matches Ok(taken) ==> {
            &&& take_error(*array, indices@) is None
            &&& takes(*array, indices@, taken)
            &&& arranged(*array, indices@, bits_of(indices.nulls), taken)
        },
        result matches Err(e) ==> take_error(*array, indices@) == Some(e),
    decreases array, 0nat,
{
    let ghost ix = indices@;
    let taken_columns = match take_children(columns, indices) {
        Ok(taken) => taken,
        Err(e) => {
            return Err(e);
        },
    };
    let validity = Some(take_validity(&array.nulls, indices));
    let nulls = if columns.len() == 0 {
        validity
    } else {
        drop_if_all_valid(validity)
    };
    let taken = Array {
        data_type: share(&array.data_type),
        len: indices.len(),
        nulls,
        values: Values::Struct { columns: taken_columns },
    };
    proof {
        let validity = taken_validity(array.bits(), ix);
        lemma_only_with_nulls(Some(validity), ix.len() as int);
        assert forall|i: int| 0 <= i < ix.len() implies #[trigger] valid_in(taken.bits(), i) == (
        ix.valid[i] && valid_in(array.bits(), ix.raw[i] as int)) by {
            assert(valid_in(Some(validity), i) == validity[i]);
        }
        lemma_struct_taken(array, ix, &taken);
    }
    Ok(taken)
}

/// Whether a type id belongs to a field.
fn find_field(fields: &Vec<(i8, Arc<Field>)>, id: i8) -> (found: bool)
    ensures
        found == has_field(fields@, id),
{
    let mut k: usize = 0;
    while k < fields.len()
        invariant
            k <= fields@.len(),
            forall|j: int| 0 <= j < k ==> (#[trigger] fields@[j]).0 != id,
        decreases fields@.len() - k,
    {
        if fields[k].0 == id {
            return true;
        }
        k += 1;
    }
    false
}

/// Whether every id belongs to a field.
fn all_known(fields: &Vec<(i8, Arc<Field>)>, ids: &Vec<i8>) -> (known: bool)
    ensures
        known <==> forall|i: int| 0 <= i < ids@.len() ==> has_field(fields@, #[trigger] ids@[i]),
{
    let mut i: usize = 0;
    while i < ids.len()
        invariant
            i <= ids@.len(),
            forall|j: int| 0 <= j < i ==> has_field(fields@, #[trigger] ids@[j]),
        decreases ids@.len() - i,
    {
        if !find_field(fields, ids[i]) {
            return false;
        }
        i += 1;
    }
    true
}

/// Sparse unions whose children were taken were taken.
pub(crate) proof fn lemma_sparse_taken(a: &Array, ix: IndexSeq, r: &Array)
    requires
        a.wf(),
        a.values is Union,
        a.values->slots is None,
        r.values is Union,
        r.values->slots is None,
        ix.wf(),
        ix.below(a.len as int),
        r.data_type == a.data_type,
        r.len == ix.len(),
        r.nulls is None,
        r.values->type_ids@ == gathered(a.values->type_ids@, ix, 0),
        forall|i: int|
            0 <= i < ix.len() ==> has_field(a.union_fields(), #[trigger] r.values->type_ids@[i]),
        r.values->children@.len() == a.values->children@.len(),
        forall|k: int|
            0 <= k < a.values->children@.len() ==> takes(
                *a.values->children@[k],
                ix,
                *#[trigger] r.values->children@[k],
            ),
    ensures
        takes(*a, ix, *r),
{
    let fields = a.union_fields();
    let ids = r.values->type_ids@;
    let children = a.values->children@;
    let taken = r.values->children@;
    assert(r.wf());
    assert forall|i: int| 0 <= i < ix.len() implies #[trigger] r.row(i) == picked(
        *a,
        ix.raw[i] as int,
        ix.valid[i],
    ) by {
        let k = field_position(fields, ids[i]);
        assert(has_field(fields, ids[i]));
        assert(takes(*children[k], ix, *taken[k]));
        assert(taken[k].row(i) == picked(*children[k], ix.raw[i] as int, ix.valid[i]));
    }
}

/// Takes from a sparse union: the same positions from each child.
pub fn take_sparse_union(
    array: &Array,
    fields: &Vec<(i8, Arc<Field>)>,
    type_ids: &Vec<i8>,
    children: &Vec<ArrayRef>,
    indices: &Indices,
) -> (result: Result<Array, TakeError>)
    requires
        array.wf(),
        array.values == (Values::Union { type_ids: *type_ids, slots: None, children: *children }),
        array.union_fields() == fields@,
        indices.wf(),
        indices@.below(array.len as int),
        indices@.len() > 0,
    ensures
        result matches Ok(taken) ==> {
            &&& take_error(*array, indices@) is None
            &&& takes(*array, indices@, taken)
            &&& arranged(*array, indices@, bits_of(indices.nulls), taken)
        },
        result matches Err(e) ==> take_error(*array, indices@) == Some(e),
    decreases array, 0nat,
{
    let ghost ix = indices@;
    let ids = take_native(type_ids, indices, 0);
    let taken_children = match take_children(children, indices) {
        Ok(taken) => taken,
        Err(e) => {
            return Err(e);
        },
    };
    if !all_known(fields, &ids) {
        return Err(TakeError::UnknownTypeId);
    }
    let taken = Array {
        data_type: share(&array.data_type),
        len: indices.len(),
        nulls: None,
        values: Values::Union { type_ids: ids, slots: None, children: taken_children },
    };
    proof {
        lemma_sparse_taken(array, ix, &taken);
    }
    Ok(taken)
}

/// The offsets beside an id are as many as its occurrences, in order.
pub proof fn lemma_offsets_of(ids: Seq<i8>, offsets: Seq<i32>, id: i8, k: nat)
    requires
        k <= ids.len(),
        ids.len() == offsets.len(),
    ensures
        offsets_of(ids, offsets, id, k).len() == occurrences(ids, id, k),
        forall|i: int|
            0 <= i < k && #[trigger] ids[i] == id ==> occurrences(ids, id, i as nat) < occurrences(
                ids,
                id,
                k,
            ) && offsets_of(ids, offsets, id, k)[occurrences(ids, id, i as nat) as int]
                == offsets[i] as usize,
    decreases k,
{
    if k > 0 {
        lemma_offsets_of(ids, offsets, id, (k - 1) as nat);
    }
}

/// The offsets that stand beside an id.
pub(crate) fn offsets_beside(ids: &Vec<i8>, offsets: &Vec<i32>, id: i8) -> (beside: Vec<usize>)
    requires
        ids@.len() == offsets@.len(),
        forall|i: int| 0 <= i < offsets@.len() ==> 0 <= #[trigger] offsets@[i],
    ensures
        beside@ == offsets_of(ids@, offsets@, id, ids@.len()),
{
    let mut beside: Vec<usize> = Vec::new();
    let mut i: usize = 0;
    while i < ids.len()
        invariant
            ids@.len() == offsets@.len(),
            i <= ids@.len(),
            beside@ == offsets_of(ids@, offsets@, id, i as nat),
        decreases ids@.len() - i,
    {
        if ids[i] == id {
            beside.push(offsets[i] as usize);
        }
        i += 1;
    }
    beside
}

/// Takes from each child of a dense union the offsets that stand beside its id.
pub fn take_dense_children(
    fields: &Vec<(i8, Arc<Field>)>,
    children: &Vec<ArrayRef>,
    ids: &Vec<i8>,
    offsets: &Vec<i32>,
) -> (result: Result<Vec<ArrayRef>, TakeError>)
    requires
        fields@.len() == children@.len(),
        ids@.len() == offsets@.len(),
        forall|i: int| 0 <= i < offsets@.len() ==> 0 <= #[trigger] offsets@[i],
        forall|k: int| 0 <= k < children@.len() ==> (#[trigger] children@[k]).wf(),
    ensures
        result matches Ok(taken) ==> {
            let picks = dense_picks(fields@, ids@, offsets@);
            &&& children_error(children@, picks, children@.len()) is None
            &&& taken@.len() == children@.len()
            &&& forall|k: int|
                0 <= k < children@.len() ==> takes(*children@[k], picks[k], *#[trigger] taken@[k])
                    && laid_out(*children@[k], picks[k], None, *taken@[k])
        },
        result matches Err(e) ==> children_error(
            children@,
            dense_picks(fields@, ids@, offsets@),
            children@.len(),
        ) == Some(e),
    decreases children@, 0nat,
{
    let ghost picks = dense_picks(fields@, ids@, offsets@);
    let mut taken: Vec<ArrayRef> = Vec::with_capacity(children.len());
    let mut k: usize = 0;
    while k < children.len()
        invariant
            fields@.len() == children@.len(),
            ids@.len() == offsets@.len(),
            forall|i: int| 0 <= i < offsets@.len() ==> 0 <= #[trigger] offsets@[i],
            forall|j: int| 0 <= j < children@.len() ==> (#[trigger] children@[j]).wf(),
            picks == dense_picks(fields@, ids@, offsets@),
            k <= children@.len(),
            children_error(children@, picks, k as nat) is None,
            taken@.len() == k,
            forall|j: int|
                0 <= j < k ==> takes(*children@[j], picks[j], *#[trigger] taken@[j]) && laid_out(
                    *children@[j],
                    picks[j],
                    None,
                    *taken@[j],
                ),
        decreases children@.len() - k,
    {
        let indices = Indices::all_of(offsets_beside(ids, offsets, fields[k].0));
        assert(indices@ == picks[k as int]);
        if first_out_of_bounds(&children[k], &indices).is_some() {
            proof {
                lemma_children_error(children@, picks, (k + 1) as nat, children@.len());
            }
            return Err(TakeError::UnionOffset);
        }
        match take_impl(&children[k], &indices) {
            Ok(child) => {
                taken.push(Arc::new(child));
            },
            Err(e) => {
                proof {
                    lemma_children_error(children@, picks, (k + 1) as nat, children@.len());
                }
                return Err(e);
            },
        }
        k += 1;
    }
    Ok(taken)
}

/// How often each id occurred before, or nothing where that does not fit an offset.
pub fn count_offsets(ids: &Vec<i8>) -> (result: Option<Vec<i32>>)
    requires
        forall|i: int| 0 <= i < ids@.len() ==> 0 <= #[trigger] ids@[i],
    ensures
        result is None <==> exists|i: int|
            0 <= i < ids@.len() && occurrences(ids@, #[trigger] ids@[i], i as nat) > i32::MAX,
        result matches Some(offsets) ==> counts(ids@, offsets@),
{
    let mut counts: Vec<usize> = Vec::with_capacity(128);
    let mut id: usize = 0;
    while id < 128
        invariant
            id <= 128,
            counts@.len() == id,
            forall|j: int| 0 <= j < id ==> #[trigger] counts@[j] == 0,
        decreases 128 - id,
    {
        counts.push(0);
        id += 1;
    }
    let mut offsets: Vec<i32> = Vec::with_capacity(ids.len());
    let mut i: usize = 0;
    while i < ids.len()
        invariant
            forall|j: int| 0 <= j < ids@.len() ==> 0 <= #[trigger] ids@[j],
            counts@.len() == 128,
            i <= ids@.len(),
            forall|j: int|
                0 <= j < 128 ==> #[trigger] counts@[j] == occurrences(ids@, j as i8, i as nat),
            forall|j: int| 0 <= j < 128 ==> #[trigger] counts@[j] <= i,
            offsets@.len() == i,
            forall|j: int|
                0 <= j < i ==> #[trigger] offsets@[j] == occurrences(ids@, ids@[j], j as nat),
        decreases ids@.len() - i,
    {
        assert(0 <= ids@[i as int] <= 127);
        let slot: usize = ids[i] as usize;
        let count: usize = counts[slot];
        assert(count == occurrences(ids@, ids@[i as int], i as nat));
        if count > i32::MAX as usize {
            return None;
        }
        offsets.push(count as i32);
        counts.set(slot, count + 1);
        i += 1;
    }
    assert forall|j: int| 0 <= j < ids@.len() implies occurrences(
        ids@,
        #[trigger] ids@[j],
        j as nat,
    ) <= i32::MAX by {
        assert(offsets@[j] == occurrences(ids@, ids@[j], j as nat));
    }
    Some(offsets)
}

/// Dense unions whose children were taken, each where its id stands, were taken.
pub(crate) proof fn lemma_dense_taken(a: &Array, ix: IndexSeq, r: &Array)
    requires
        a.wf(),
        a.values is Union,
        a.values->slots is Some,
        r.values is Union,
        r.values->slots is Some,
        ix.wf(),
        ix.below(a.len as int),
        r.data_type == a.data_type,
        r.len == ix.len(),
        r.nulls is None,
        r.values->type_ids@ == gathered(a.values->type_ids@, ix, 0),
        forall|i: int|
            0 <= i < ix.len() ==> has_field(a.union_fields(), #[trigger] r.values->type_ids@[i]),
        counts(r.values->type_ids@, r.values->slots->0@),
        r.values->children@.len() == a.values->children@.len(),
        forall|k: int|
            0 <= k < a.values->children@.len() ==> takes(
                *a.values->children@[k],
                dense_picks(
                    a.union_fields(),
                    r.values->type_ids@,
                    gathered(a.values->slots->0@, ix, 0),
                )[k],
                *#[trigger] r.values->children@[k],
            ),
    ensures
        takes(*a, ix, *r),
{
    let fields = a.union_fields();
    let ids = r.values->type_ids@;
    let slots = a.values->slots->0@;
    let offsets = gathered(slots, ix, 0);
    let new_slots = r.values->slots->0@;
    let children = a.values->children@;
    let taken = r.values->children@;
    let picks = dense_picks(fields, ids, offsets);
    assert forall|i: int| 0 <= i < offsets.len() implies 0 <= #[trigger] offsets[i] by {
        if ix.raw[i] < a.len {
            assert(0 <= slots[ix.raw[i] as int]);
        }
    }
    assert forall|i: int| 0 <= i < ix.len() implies {
        let k = field_position(fields, #[trigger] ids[i]);
        &&& 0 <= k < children.len()
        &&& 0 <= new_slots[i] < taken[k].len
        &&& taken[k].row(new_slots[i] as int) == children[k].row(offsets[i] as int)
    } by {
        let k = field_position(fields, ids[i]);
        assert(has_field(fields, ids[i]));
        assert(fields[k].0 == ids[i]);
        lemma_offsets_of(ids, offsets, ids[i], ids.len());
        assert(takes(*children[k], picks[k], *taken[k]));
        let place = new_slots[i] as int;
        assert(place == occurrences(ids, ids[i], i as nat));
        assert(picks[k].raw[place] == offsets[i]);
        assert(taken[k].row(place) == picked(*children[k], picks[k].raw[place] as int, true));
    }
    assert(r.wf());
    assert forall|i: int| 0 <= i < ix.len() implies #[trigger] r.row(i) == picked(
        *a,
        ix.raw[i] as int,
        ix.valid[i],
    ) by {
        let k = field_position(fields, ids[i]);
        assert(0 <= k < children.len());
    }
}

/// Takes from a dense union: from each child the slots that are asked for, one after the other.
pub fn take_dense_union(
    array: &Array,
    fields: &Vec<(i8, Arc<Field>)>,
    type_ids: &Vec<i8>,
    slots: &Vec<i32>,
    children: &Vec<ArrayRef>,
    indices: &Indices,
) -> (result: Result<Array, TakeError>)
    requires
        array.wf(),
        array.values matches Values::Union { type_ids: t, slots: Some(s), children: c } && t
            == *type_ids && s == *slots && c == *children,
        array.union_fields() == fields@,
        indices.wf(),
        indices@.below(array.len as int),
        indices@.len() > 0,
    ensures
        result matches Ok(taken) ==> {
            &&& take_error(*array, indices@) is None
            &&& takes(*array, indices@, taken)
            &&& arranged(*array, indices@, bits_of(indices.nulls), taken)
        },
        result matches Err(e) ==> take_error(*array, indices@) == Some(e),
    decreases array, 0nat,
{
    let ghost ix = indices@;
    let ids = take_native(type_ids, indices, 0);
    let offsets = take_native(slots, indices, 0);
    let ghost picks = dense_picks(fields@, ids@, offsets@);
    proof {
        assert forall|i: int| 0 <= i < offsets@.len() implies 0 <= #[trigger] offsets@[i] by {
            if ix.raw[i] < array.len {
                assert(0 <= slots@[ix.raw[i] as int]);
            }
        }
    }
    let taken_children = match take_dense_children(fields, children, &ids, &offsets) {
        Ok(taken) => taken,
        Err(e) => {
            return Err(e);
        },
    };
    if !all_known(fields, &ids) {
        return Err(TakeError::UnknownTypeId);
    }
    proof {
        assert forall|i: int| 0 <= i < ids@.len() implies 0 <= #[trigger] ids@[i] by {
            assert(has_field(fields@, ids@[i]));
        }
    }
    let new_slots = match count_offsets(&ids) {
        Some(new_slots) => new_slots,
        None => {
            return Err(TakeError::UnionOffset);
        },
    };
    let taken = Array {
        data_type: share(&array.data_type),
        len: indices.len(),
        nulls: None,
        values: Values::Union {
            type_ids: ids,
            slots: Some(new_slots),
            children: taken_children,
        },
    };
    proof {
        lemma_dense_taken(array, ix, &taken);
    }
    Ok(taken)
}

} // verus!
