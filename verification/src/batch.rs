//! Taking rows from record batches.
use crate::array::{Array, ArrayRef};
use crate::buffers::share;
use crate::datatype::Field;
use crate::error::TakeError;
use crate::indices::{positions, IndexSeq};
use crate::selection::{marked_valid, takes};
use crate::take::{arrays_error, may_take, selects, take_arrays};
use crate::validity::{any_null, has_null, some_unset, valid_in};
use std::sync::Arc;
use vstd::prelude::*;

verus! {

/// The columns that a batch declares.
#[derive(Debug, PartialEq, Eq)]
pub struct Schema {
    pub fields: Vec<Arc<Field>>,
    pub metadata: Vec<(String, String)>,
}

/// Columns of one length, each of the type of its field.
#[derive(Debug)]
pub struct RecordBatch {
    pub schema: Arc<Schema>,
    pub columns: Vec<ArrayRef>,
    pub row_count: usize,
}

impl RecordBatch {
    pub open spec fn wf(self) -> bool {
        &&& self.schema.fields@.len() == self.columns@.len()
        &&& forall|k: int|
            0 <= k < self.columns@.len() ==> {
                &&& (#[trigger] self.columns@[k]).wf()
                &&& self.columns@[k].len == self.row_count
                &&& self.columns@[k].data_type == self.schema.fields@[k].data_type
            }
    }

    /// No column holds a null that its field forbids.
    pub open spec fn keeps_nullability(self) -> bool {
        forall|k: int|
            0 <= k < self.columns@.len() && !self.schema.fields@[k].nullable ==> !has_null(
                (#[trigger] self.columns@[k]).bits(),
            )
    }
}

/// What is taken from `column` is marked null somewhere.
pub open spec fn gains_null(column: Array, ix: IndexSeq) -> bool {
    exists|i: int|
        0 <= i < ix.len() && !#[trigger] marked_valid(column, ix.raw[i] as int, ix.valid[i])
}

/// The first of `k` columns that would hold a null against its field.
pub open spec fn nulls_error(
    columns: Seq<ArrayRef>,
    fields: Seq<Arc<Field>>,
    ix: IndexSeq,
    k: nat,
) -> Option<TakeError>
    decreases k,
{
    if k == 0 {
        None
    } else {
        match nulls_error(columns, fields, ix, (k - 1) as nat) {
            Some(e) => Some(e),
            None => if !fields[k - 1].nullable && gains_null(*columns[k - 1], ix) {
                Some(TakeError::UnexpectedNulls(fields[k - 1].name))
            } else {
                None
            },
        }
    }
}

/// The error that [`take_record_batch`] fails with, if it does.
pub open spec fn batch_error(batch: RecordBatch, indices: Array) -> Option<TakeError> {
    let columns = batch.columns@;
    match arrays_error(columns, indices, None, columns.len()) {
        Some(e) => Some(e),
        None => if columns.len() == 0 {
            Some(TakeError::NoColumns)
        } else {
            nulls_error(columns, batch.schema.fields@, positions(indices), columns.len())
        },
    }
}

/// The first error among columns stays the first.
proof fn lemma_nulls_error(
    columns: Seq<ArrayRef>,
    fields: Seq<Arc<Field>>,
    ix: IndexSeq,
    i: nat,
    j: nat,
)
    requires
        i <= j,
        nulls_error(columns, fields, ix, i) is Some,
    ensures
        nulls_error(columns, fields, ix, j) == nulls_error(columns, fields, ix, i),
    decreases j,
{
    if i < j {
        lemma_nulls_error(columns, fields, ix, i, (j - 1) as nat);
    }
}

/// What was taken has a null in its bitmap where one is marked.
proof fn lemma_gains_null(column: &Array, ix: IndexSeq, taken: &Array)
    requires
        takes(*column, ix, *taken),
    ensures
        has_null(taken.bits()) == gains_null(*column, ix),
{
    if has_null(taken.bits()) {
        let bits = taken.bits()->0;
        let i = choose|i: int| 0 <= i < bits.len() && !#[trigger] bits[i];
        assert(!valid_in(taken.bits(), i));
        assert(!marked_valid(*column, ix.raw[i] as int, ix.valid[i]));
    }
    if gains_null(*column, ix) {
        let i = choose|i: int|
            0 <= i < ix.len() && !#[trigger] marked_valid(*column, ix.raw[i] as int, ix.valid[i]);
        assert(!valid_in(taken.bits(), i));
        assert(some_unset(taken.bits()->0));
    }
}

/// Takes rows of a batch: the same indices from each column.
pub fn take_record_batch(batch: &RecordBatch, indices: &Array) -> (result: Result<
    RecordBatch,
    TakeError,
>)
    requires
        batch.wf(),
        indices.wf(),
        forall|k: int|
            0 <= k < batch.columns@.len() ==> may_take(
                *#[trigger] batch.columns@[k],
                *indices,
                None,
            ),
    ensures
        result matches Ok(taken) ==> {
            &&& batch_error(*batch, *indices) is None
            &&& taken.wf()
            &&& taken.keeps_nullability()
            &&& taken.schema == batch.schema
            &&& taken.row_count == indices.len
            &&& forall|k: int|
                0 <= k < batch.columns@.len() ==> selects(
                    *batch.columns@[k],
                    *indices,
                    *#[trigger] taken.columns@[k],
                )
        },
        result matches Err(e) ==> batch_error(*batch, *indices) == Some(e),
{
    let ghost ix = positions(*indices);
    let ghost fields = batch.schema.fields@;
    let columns = match take_arrays(batch.columns.as_slice(), indices, None) {
        Ok(columns) => columns,
        Err(e) => {
            return Err(e);
        },
    };
    if columns.len() == 0 {
        return Err(TakeError::NoColumns);
    }
    let mut k: usize = 0;
    while k < columns.len()
        invariant
            batch.wf(),
            fields == batch.schema.fields@,
            ix == positions(*indices),
            arrays_error(batch.columns@, *indices, None, batch.columns@.len()) is None,
            0 < columns@.len() == batch.columns@.len(),
            forall|j: int|
                0 <= j < columns@.len() ==> selects(
                    *batch.columns@[j],
                    *indices,
                    *#[trigger] columns@[j],
                ),
            k <= columns@.len(),
            nulls_error(batch.columns@, fields, ix, k as nat) is None,
            forall|j: int|
                0 <= j < k && !fields[j].nullable ==> !has_null((#[trigger] columns@[j]).bits()),
        decreases columns@.len() - k,
    {
        proof {
            assert(selects(*batch.columns@[k as int], *indices, *columns@[k as int]));
            lemma_gains_null(&*batch.columns@[k as int], ix, &*columns@[k as int]);
        }
        if !batch.schema.fields[k].nullable && any_null(&columns[k].nulls) {
            proof {
                lemma_nulls_error(batch.columns@, fields, ix, (k + 1) as nat, columns@.len());
            }
            return Err(TakeError::UnexpectedNulls(batch.schema.fields[k].name.clone()));
        }
        k += 1;
    }
    let row_count: usize = columns[0].len;
    assert forall|j: int| 0 <= j < columns@.len() implies {
        &&& (#[trigger] columns@[j]).wf()
        &&& columns@[j].len == row_count
        &&& columns@[j].data_type == fields[j].data_type
    } by {
        assert(selects(*batch.columns@[0], *indices, *columns@[0]));
        assert(selects(*batch.columns@[j], *indices, *columns@[j]));
        assert(batch.columns@[j].wf());
    }
    assert(selects(*batch.columns@[0], *indices, *columns@[0]));
    Ok(RecordBatch { schema: share(&batch.schema), columns, row_count })
}

} // verus!
