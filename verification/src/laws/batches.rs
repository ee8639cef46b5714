//! What calls of [`take_record_batch`] give, read off the batches that go in and come out.
use crate::array::{Array, ArrayRef};
use crate::batch::{gains_null, nulls_error, take_record_batch, RecordBatch};
use crate::datatype::Field;
use crate::error::TakeError;
use crate::indices::positions;
use crate::laws::calls::{
    fetched, lemma_fetched, lemma_first_array_fails, lemma_positions, marks_nulls,
};
use crate::laws::numbers::{holds_numbers, keeps_to, null_at, number_at};
use crate::selection::marked_valid;
use crate::take::{take, TakeOptions};
use vstd::prelude::*;

verus! {

/// Index `i` is null, or leads to a slot of `column` that is.
pub open spec fn leads_to_null(column: Array, indices: Array, i: int) -> bool {
    null_at(indices.nulls, i) || null_at(column.nulls, number_at(indices, i))
}

/// What the indices ask of `column` is marked as null somewhere.
pub open spec fn gets_null(column: Array, indices: Array) -> bool {
    marks_nulls(column) && exists|i: int|
        0 <= i < indices.len && #[trigger] leads_to_null(column, indices, i)
}

/// The column may hold a null, or does not get one.
pub open spec fn may_hold(field: Field, column: Array, indices: Array) -> bool {
    field.nullable || !gets_null(column, indices)
}

/// Rows can be taken from a batch if and only if it has a column, the indices can be taken from
/// each of its columns, and no column gets a null that its field forbids. The result has the schema
/// of the batch, a row for each index, and in each column what the indices ask of it. An error is
/// that of the first column that cannot be taken from, or names the first that may not hold its
/// nulls.
pub proof fn law_batches_are_taken_column_by_column(
    batch: &RecordBatch,
    indices: &Array,
    each: Seq<Result<ArrayRef, TakeError>>,
    result: Result<RecordBatch, TakeError>,
)
    requires
        batch.wf(),
        indices.wf(),
        holds_numbers(*indices),
        forall|i: int|
            0 <= i < indices.len ==> #[trigger] keeps_to(*indices, i, batch.row_count as int),
        call_ensures(take_record_batch, (batch, indices), result),
        each.len() == batch.columns@.len(),
        forall|k: int|
            0 <= k < each.len() ==> call_ensures(
                take,
                (&*batch.columns@[k], indices, None::<TakeOptions>),
                #[trigger] each[k],
            ),
    ensures
        result is Ok <==> {
            &&& batch.columns@.len() > 0
            &&& forall|k: int| 0 <= k < each.len() ==> #[trigger] each[k] is Ok
            &&& forall|k: int|
                0 <= k < batch.columns@.len() ==> may_hold(
                    *batch.schema.fields@[k],
                    *#[trigger] batch.columns@[k],
                    *indices,
                )
        },
        result matches Ok(taken) ==> {
            &&& taken.schema == batch.schema
            &&& taken.row_count == indices.len
            &&& taken.columns@.len() == batch.columns@.len()
            &&& forall|k: int|
                0 <= k < batch.columns@.len() ==> fetched(
                    *batch.columns@[k],
                    *indices,
                    *#[trigger] taken.columns@[k],
                )
        },
        result matches Err(e) ==> {
            ||| batch.columns@.len() == 0 && e is NoColumns
            ||| exists|k: int|
                {
                    &&& 0 <= k < each.len()
                    &&& #[trigger] each[k] == Err::<ArrayRef, TakeError>(e)
                    &&& forall|j: int| 0 <= j < k ==> #[trigger] each[j] is Ok
                }
            ||| exists|k: int|
                {
                    &&& 0 <= k < batch.columns@.len()
                    &&& e == TakeError::UnexpectedNulls(batch.schema.fields@[k].name)
                    &&& !may_hold(
                        *batch.schema.fields@[k],
                        *#[trigger] batch.columns@[k],
                        *indices,
                    )
                    &&& forall|j: int|
                        0 <= j < k ==> may_hold(
                            *batch.schema.fields@[j],
                            *#[trigger] batch.columns@[j],
                            *indices,
                        )
                }
        },
{
    let columns = batch.columns@;
    lemma_first_array_fails(columns, *indices, None, each, columns.len());
    lemma_first_forbidden(*batch, *indices, columns.len());
    if let Ok(taken) = result {
        assert forall|k: int| 0 <= k < columns.len() implies fetched(
            *columns[k],
            *indices,
            *#[trigger] taken.columns@[k],
        ) by {
            assert(columns[k].wf());
            lemma_fetched(&*columns[k], indices, &*taken.columns@[k]);
        }
    }
}

/// A column gains a null where an index is null or leads to one.
proof fn lemma_gets_null(column: &Array, indices: Array)
    requires
        column.wf(),
        indices.wf(),
        holds_numbers(indices),
        forall|i: int| 0 <= i < indices.len ==> #[trigger] keeps_to(indices, i, column.len as int),
    ensures
        gains_null(*column, positions(indices)) == gets_null(*column, indices),
{
    let ix = positions(indices);
    lemma_positions(indices);
    assert forall|i: int| 0 <= i < indices.len && marks_nulls(*column) implies marked_valid(
        *column,
        ix.raw[i] as int,
        ix.valid[i],
    ) == !#[trigger] leads_to_null(*column, indices, i) by {
        assert(keeps_to(indices, i, column.len as int));
        assert(ix.valid[i] == !null_at(indices.nulls, i));
        if ix.valid[i] {
            assert(ix.raw[i] == number_at(indices, i));
        }
    }
    if gains_null(*column, ix) {
        let i = choose|i: int|
            0 <= i < ix.len() && !#[trigger] marked_valid(*column, ix.raw[i] as int, ix.valid[i]);
        assert(leads_to_null(*column, indices, i));
    }
    if gets_null(*column, indices) {
        let i = choose|i: int|
            0 <= i < indices.len && #[trigger] leads_to_null(*column, indices, i);
        assert(!marked_valid(*column, ix.raw[i] as int, ix.valid[i]));
    }
}

/// The error over nulls names the first column that gets one against its field.
proof fn lemma_first_forbidden(batch: RecordBatch, indices: Array, k: nat)
    requires
        batch.wf(),
        indices.wf(),
        holds_numbers(indices),
        forall|i: int|
            0 <= i < indices.len ==> #[trigger] keeps_to(indices, i, batch.row_count as int),
        k <= batch.columns@.len(),
    ensures
        ({
            let columns = batch.columns@;
            let fields = batch.schema.fields@;
            let error = nulls_error(columns, fields, positions(indices), k);
            &&& error is None <==> forall|j: int|
                0 <= j < k ==> may_hold(*fields[j], *#[trigger] columns[j], indices)
            &&& error matches Some(e) ==> exists|j: int|
                {
                    &&& 0 <= j < k
                    &&& e == TakeError::UnexpectedNulls(fields[j].name)
                    &&& !may_hold(*fields[j], *#[trigger] columns[j], indices)
                    &&& forall|t: int|
                        0 <= t < j ==> may_hold(*fields[t], *#[trigger] columns[t], indices)
                }
        }),
    decreases k,
{
    if k > 0 {
        lemma_first_forbidden(batch, indices, (k - 1) as nat);
        assert(batch.columns@[k - 1].wf());
        lemma_gets_null(&*batch.columns@[k - 1], indices);
    }
}

/// A batch with a column that cannot be taken from fails as the first such column does, whatever
/// the indices are.
pub proof fn law_batches_fail_as_their_columns_do(
    batch: &RecordBatch,
    indices: &Array,
    each: Seq<Result<ArrayRef, TakeError>>,
    result: Result<RecordBatch, TakeError>,
    k: int,
)
    requires
        call_ensures(take_record_batch, (batch, indices), result),
        each.len() == batch.columns@.len(),
        forall|j: int|
            0 <= j < each.len() ==> call_ensures(
                take,
                (&*batch.columns@[j], indices, None::<TakeOptions>),
                #[trigger] each[j],
            ),
        0 <= k < each.len(),
        each[k] is Err,
        forall|j: int| 0 <= j < k ==> #[trigger] each[j] is Ok,
    ensures
        result == Err::<RecordBatch, TakeError>(each[k]->Err_0),
{
    lemma_first_array_fails(batch.columns@, *indices, None, each, batch.columns@.len());
}

} // verus!
