//! Taking from run-end encoded arrays.
use crate::array::{covers, run_at, runs_wf, Array, ArrayRef, Values};
use crate::buffers::share;
use crate::datatype::IntType;
use crate::deep::deep_compact_views;
use crate::error::TakeError;
use crate::indices::{IndexSeq, Indices};
use crate::layout::arranged;
use crate::selection::{
    largest, picked, runs_of, starts_run, stretch_ends, stretch_runs, take_error, takes,
};
use crate::take::take_impl;
use crate::validity::{bits_of, valid_in};
use arrow_buffer::{RunEndBuffer, ScalarBuffer};
use std::sync::Arc;
use vstd::prelude::*;

verus! {

/// `RunEndBuffer::get_physical_indices`: for each position of an array of `len` slots, the run
/// that covers it; the runs are those of an array that starts at `offset`. Where a position is
/// not one of the slots, the largest of them is the error. Making the buffer panics on ends that
/// do not rise or do not reach far enough, and the ends are read as `usize`.
#[verifier::external_body]
pub(crate) fn physical_indices(
    ends: &Vec<i64>,
    offset: usize,
    len: usize,
    positions: &Vec<usize>,
) -> (result: Result<Vec<usize>, usize>)
    requires
        runs_wf(ends@, offset + len),
        offset + len <= usize::MAX,
        forall|p: int| 0 <= p < ends@.len() ==> #[trigger] ends@[p] <= usize::MAX,
    ensures
        result is Ok <==> forall|i: int|
            0 <= i < positions@.len() ==> #[trigger] positions@[i] < len,
        result matches Ok(runs) ==> runs@.len() == positions@.len() && forall|i: int|
            0 <= i < positions@.len() ==> covers(
                ends@,
                #[trigger] runs@[i] as int,
                offset + positions@[i],
            ),
        result matches Err(position) ==> positions@.contains(position) && forall|i: int|
            0 <= i < positions@.len() ==> #[trigger] positions@[i] <= position,
{
    let buffer = RunEndBuffer::new(ScalarBuffer::from(ends.clone()), offset, len);
    let logical: Vec<u64> = positions.iter().map(|p| *p as u64).collect();
    buffer.get_physical_indices(&logical).map_err(|p| p as usize)
}

/// No two runs cover one position.
pub proof fn lemma_covers(ends: Seq<i64>, p: int, x: int)
    requires
        forall|i: int, j: int| 0 <= i < j < ends.len() ==> #[trigger] ends[i] < #[trigger] ends[j],
        covers(ends, p, x),
    ensures
        run_at(ends, x) == p,
{
    let q = run_at(ends, x);
    assert(covers(ends, q, x));
    if q < p {
        assert(q == p - 1 || ends[q] < ends[p - 1]);
    } else if p < q {
        assert(p == q - 1 || ends[p] < ends[q - 1]);
    }
}

/// A position that no other exceeds is the largest.
pub(crate) proof fn lemma_largest(raw: Seq<usize>, k: nat)
    requires
        0 < k <= raw.len(),
    ensures
        forall|i: int| 0 <= i < k ==> #[trigger] raw[i] <= largest(raw, k),
        exists|i: int| 0 <= i < k && #[trigger] raw[i] == largest(raw, k),
    decreases k,
{
    if k > 1 {
        lemma_largest(raw, (k - 1) as nat);
        let i = choose|i: int| 0 <= i < k - 1 && #[trigger] raw[i] == largest(raw, (k - 1) as nat);
        assert(raw[k - 1] == largest(raw, k) || raw[i] == largest(raw, k));
    } else {
        assert(raw[0] == largest(raw, k));
    }
}

/// Stretches cover each slot once, by the run that it belongs to.
pub proof fn lemma_stretches(runs: Seq<int>, k: nat)
    requires
        k <= runs.len(),
        k <= i64::MAX,
        forall|i: int| 0 <= i < runs.len() ==> 0 <= #[trigger] runs[i] <= usize::MAX,
    ensures
        stretch_ends(runs, k).len() == stretch_runs(runs, k).len(),
        runs_wf(stretch_ends(runs, k), k as int),
        k > 0 ==> stretch_ends(runs, k).len() > 0 && stretch_ends(runs, k).last() == k
            && stretch_runs(runs, k).last() == runs[k - 1],
        forall|p: int|
            0 <= p < stretch_ends(runs, k).len() ==> #[trigger] stretch_ends(runs, k)[p] <= k,
        forall|i: int|
            0 <= i < k ==> {
                let p = #[trigger] run_at(stretch_ends(runs, k), i);
                covers(stretch_ends(runs, k), p, i) && stretch_runs(runs, k)[p] == runs[i]
            },
    decreases k,
{
    if k > 0 {
        let before = (k - 1) as nat;
        lemma_stretches(runs, before);
        let ends = stretch_ends(runs, before);
        let heads = stretch_runs(runs, before);
        let new_ends = stretch_ends(runs, k);
        let new_heads = stretch_runs(runs, k);
        assert(forall|i: int, j: int|
            0 <= i < j < new_ends.len() ==> #[trigger] new_ends[i] < #[trigger] new_ends[j]);
        assert forall|i: int| 0 <= i < k implies {
            let p = #[trigger] run_at(new_ends, i);
            covers(new_ends, p, i) && new_heads[p] == runs[i]
        } by {
            let p = if i < k - 1 {
                run_at(ends, i)
            } else {
                new_ends.len() - 1
            };
            if i < k - 1 {
                assert(covers(ends, run_at(ends, i), i));
            }
            assert(covers(new_ends, p, i));
            lemma_covers(new_ends, p, i);
        }
    }
}

/// Takes from a run-end encoded array. The result is encoded by the runs that it was taken from:
/// slots of one run that follow each other are one run again, whatever their values.
pub fn take_run(
    array: &Array,
    end_type: IntType,
    ends: &Vec<i64>,
    offset: usize,
    values: &ArrayRef,
    indices: &Indices,
) -> (result: Result<Array, TakeError>)
    requires
        array.wf(),
        array.values == (Values::Runs { end_type, ends: *ends, offset, values: *values }),
        indices.wf(),
        indices@.len() > 0,
    ensures
        result matches Ok(taken) ==> {
            &&& take_error(*array, indices@) is None
            &&& takes(*array, indices@, taken)
            &&& arranged(*array, indices@, bits_of(indices.nulls), taken)
        },
        result matches Err(e) ==> take_error(*array, indices@) == Some(e),
    decreases array, 0nat,
{
    let len: usize = indices.len();
    let ghost ix = indices@;
    let ghost runs = runs_of(ends@, offset as int, ix);
    let physical = match physical_indices(ends, offset, array.len, &indices.values) {
        Ok(physical) => physical,
        Err(position) => {
            proof {
                lemma_largest(ix.raw, ix.len());
                let i = choose|i: int| 0 <= i < ix.len() && #[trigger] ix.raw[i] == position;
                let j = choose|j: int|
                    0 <= j < ix.len() && #[trigger] ix.raw[j] == largest(ix.raw, ix.len());
                assert(ix.raw[i] <= largest(ix.raw, ix.len()) && ix.raw[j] <= position);
                let asked = IndexSeq::all_of(ix.raw);
                assert(asked.valid[i] && asked.raw[i] >= array.len);
            }
            return Err(TakeError::RunOutOfBounds { position, len: array.len });
        },
    };
    proof {
        assert(IndexSeq::all_of(ix.raw).below(array.len as int));
        assert forall|i: int| 0 <= i < len implies #[trigger] physical@[i] == runs[i] by {
            lemma_covers(ends@, physical@[i] as int, offset + ix.raw[i]);
        }
        assert forall|i: int| 0 <= i < runs.len() implies 0 <= #[trigger] runs[i] < values.len by {
            assert(physical@[i] == runs[i]);
            assert(covers(ends@, physical@[i] as int, offset + ix.raw[i]));
        }
    }
    if len as u64 > end_type.largest() {
        return Err(TakeError::RunEndOverflow(len));
    }
    let mut heads: Vec<usize> = Vec::new();
    let mut stops: Vec<i64> = Vec::new();
    let mut k: usize = 0;
    while k < len
        invariant
            len == runs.len(),
            len <= end_type.max_value(),
            end_type.max_value() <= i64::MAX,
            physical@.len() == len,
            forall|i: int| 0 <= i < len ==> #[trigger] physical@[i] == runs[i],
            k <= len,
            heads@ == stretch_runs(runs, k as nat),
            stops@ == stretch_ends(runs, k as nat),
            k > 0 ==> stops@.len() > 0,
        decreases len - k,
    {
        let run: usize = physical[k];
        assert(run == runs[k as int]);
        if k == 0 || physical[k - 1] != run {
            assert(starts_run(runs, k as int));
            heads.push(run);
        } else {
            assert(!starts_run(runs, k as int));
            stops.pop();
        }
        stops.push((k + 1) as i64);
        k += 1;
    }
    proof {
        lemma_stretches(runs, ix.len());
        lemma_stretch_runs(runs, values.len as int, ix.len());
    }
    let mid = match take_impl(values, &Indices::all_of(heads)) {
        Ok(mid) => Arc::new(mid),
        Err(e) => {
            return Err(e);
        },
    };
    let new_values = deep_compact_views(share(&mid));
    let taken = Array {
        data_type: share(&array.data_type),
        len,
        nulls: None,
        values: Values::Runs { end_type, ends: stops, offset: 0, values: new_values },
    };
    proof {
        assert(takes(**values, IndexSeq::all_of(stretch_runs(runs, ix.len())), *mid));
        assert(taken.wf());
        assert forall|i: int| 0 <= i < ix.len() implies #[trigger] taken.row(i) == picked(
            *array,
            ix.raw[i] as int,
            ix.valid[i],
        ) by {
            let p = run_at(stops@, i);
            assert(covers(stops@, p, i));
            assert(new_values.row(p) == mid.row(p));
            assert(mid.row(p) == picked(**values, heads@[p] as int, true));
            assert(runs[i] == run_at(ends@, offset + ix.raw[i]));
            assert(valid_in(array.bits(), ix.raw[i] as int));
        }
    }
    Ok(taken)
}

/// Stretches belong to runs that are there.
pub(crate) proof fn lemma_stretch_runs(runs: Seq<int>, len: int, k: nat)
    requires
        k <= runs.len(),
        len <= usize::MAX,
        forall|i: int| 0 <= i < runs.len() ==> 0 <= #[trigger] runs[i] < len,
    ensures
        IndexSeq::all_of(stretch_runs(runs, k)).below(len),
    decreases k,
{
    if k > 0 {
        lemma_stretch_runs(runs, len, (k - 1) as nat);
        let before = IndexSeq::all_of(stretch_runs(runs, (k - 1) as nat));
        let ix = IndexSeq::all_of(stretch_runs(runs, k));
        assert forall|p: int| 0 <= p < ix.raw.len() implies #[trigger] ix.raw[p] < len by {
            if p < before.raw.len() {
                assert(before.valid[p]);
                assert(before.raw[p] < len);
            }
        }
    }
}

} // verus!
