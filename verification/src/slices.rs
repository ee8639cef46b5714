//! Copying an array slice by slice: which slots, and what of the children goes with them.
use crate::array::{covers, run_at, runs_wf, Array, ArrayRef, Offsets, Values};
use crate::datatype::Field;
use crate::error::TakeError;
use crate::indices::IndexSeq;
use crate::run::lemma_covers;
use crate::selection::{
    cut_spans, gathered, ids_error, lemma_spread, lemma_spread_all, lemma_spread_at,
    lemma_total_monotone, offsets_of, overflow_error, span_positions, spans_wf, spans_within,
    spread, stretch_runs, total, Span,
};
use std::sync::Arc;
use vstd::prelude::*;

verus! {

/// `len` slots from `start` on.
#[derive(Clone, Copy, Debug, PartialEq, Eq)]
pub struct Slice {
    pub start: usize,
    pub len: usize,
}

/// The spans that slices mark.
pub open spec fn spans_of(slices: Seq<Slice>) -> Seq<Span> {
    Seq::new(
        slices.len(),
        |i: int| Span { start: slices[i].start as int, len: slices[i].len as int, present: true },
    )
}

/// Spans of slots of an array of this length, all of them there.
pub open spec fn are_slices(spans: Seq<Span>, len: int) -> bool {
    forall|i: int|
        0 <= i < spans.len() ==> {
            &&& (#[trigger] spans[i]).present
            &&& 0 <= spans[i].start
            &&& 0 <= spans[i].len
            &&& spans[i].start + spans[i].len <= len
        }
}

/// The slots that slices mark, one after the other.
pub open spec fn slots_of(spans: Seq<Span>) -> IndexSeq {
    spread(spans, spans.len())
}

/// What slices take of the child of a list: what stands between the offsets at their ends.
pub open spec fn cut_slices(offsets: Offsets, spans: Seq<Span>) -> Seq<Span> {
    Seq::new(
        spans.len(),
        |i: int|
            Span {
                start: offsets.at(spans[i].start),
                len: offsets.at(spans[i].start + spans[i].len) - offsets.at(spans[i].start),
                present: true,
            },
    )
}

/// What slices take of the child of lists of `size` items.
pub open spec fn fixed_slices(size: int, spans: Seq<Span>) -> Seq<Span> {
    Seq::new(
        spans.len(),
        |i: int|
            Span { start: spans[i].start * size, len: spans[i].len * size, present: true },
    )
}

/// What slots take of the child of list views, each for itself.
pub open spec fn view_slices(offsets: Offsets, sizes: Offsets, ix: IndexSeq) -> Seq<Span> {
    Seq::new(
        ix.len(),
        |i: int|
            Span {
                start: offsets.at(ix.raw[i] as int),
                len: sizes.at(ix.raw[i] as int),
                present: true,
            },
    )
}

/// The runs that slices touch, from the first to the last.
pub open spec fn run_slices(ends: Seq<i64>, offset: int, spans: Seq<Span>) -> Seq<Span> {
    Seq::new(
        spans.len(),
        |i: int|
            {
                let start = offset + spans[i].start;
                if spans[i].len == 0 {
                    Span { start: 0, len: 0, present: true }
                } else {
                    Span {
                        start: run_at(ends, start),
                        len: run_at(ends, start + spans[i].len - 1) - run_at(ends, start) + 1,
                        present: true,
                    }
                }
            },
    )
}

/// Which of the runs that the first `k` slices touch each slot falls in. A run that several slices
/// touch counts once for each.
pub open spec fn touched_runs(ends: Seq<i64>, offset: int, spans: Seq<Span>, k: nat) -> Seq<int>
    decreases k,
{
    if k == 0 {
        Seq::empty()
    } else {
        let start = offset + spans[k - 1].start;
        let before = total(run_slices(ends, offset, spans), (k - 1) as nat);
        touched_runs(ends, offset, spans, (k - 1) as nat) + Seq::new(
            spans[k - 1].len as nat,
            |j: int| before + run_at(ends, start + j) - run_at(ends, start),
        )
    }
}

/// One slot at each of these offsets.
pub open spec fn single_slices(offsets: Seq<usize>) -> Seq<Span> {
    Seq::new(offsets.len(), |i: int| Span { start: offsets[i] as int, len: 1, present: true })
}

/// What is copied of each child of a dense union.
pub open spec fn dense_slices(
    fields: Seq<(i8, Arc<Field>)>,
    ids: Seq<i8>,
    offsets: Seq<i32>,
) -> Seq<Seq<Span>> {
    Seq::new(
        fields.len(),
        |k: int| single_slices(offsets_of(ids, offsets, fields[k].0, ids.len())),
    )
}

/// The error that copying slices of `a` fails with, if it does.
pub open spec fn copy_error(a: Array, spans: Seq<Span>) -> Option<TakeError>
    decreases a, 0nat,
{
    let ix = slots_of(spans);
    match a.values {
        Values::Bytes { offsets, data } => overflow_error(
            cut_spans(None, offsets, ix),
            offsets.limit(),
        ),
        Values::List { offsets, child } => match overflow_error(
            cut_spans(None, offsets, ix),
            offsets.limit(),
        ) {
            Some(e) => Some(e),
            None => copy_error(*child, cut_slices(offsets, spans)),
        },
        Values::ListView { offsets, sizes, child } => match overflow_error(
            view_slices(offsets, sizes, ix),
            offsets.limit(),
        ) {
            Some(e) => Some(e),
            None => copy_error(*child, view_slices(offsets, sizes, ix)),
        },
        Values::FixedSizeList { size, child } => copy_error(
            *child,
            fixed_slices(size as int, spans),
        ),
        Values::Struct { columns } => copies_error(
            columns@,
            Seq::new(columns@.len(), |k: int| spans),
            columns@.len(),
        ),
        Values::Runs { end_type, ends, offset, values } => if ix.len() > end_type.max_value() {
            Some(TakeError::RunEndOverflow(ix.len() as usize))
        } else {
            copy_error(*values, run_slices(ends@, offset as int, spans))
        },
        Values::Union { type_ids, slots: None, children } => copies_error(
            children@,
            Seq::new(children@.len(), |k: int| spans),
            children@.len(),
        ),
        Values::Union { type_ids, slots: Some(o), children } => {
            let fields = a.union_fields();
            let ids = gathered(type_ids@, ix, 0);
            match copies_error(
                children@,
                dense_slices(fields, ids, gathered(o@, ix, 0)),
                children@.len(),
            ) {
                Some(e) => Some(e),
                None => ids_error(fields, ids, true),
            }
        },
        _ => None,
    }
}

/// The first error among the first `k` children, each with slices of its own.
pub open spec fn copies_error(
    children: Seq<ArrayRef>,
    slices: Seq<Seq<Span>>,
    k: nat,
) -> Option<TakeError>
    decreases children, k,
{
    if k == 0 || k > children.len() {
        None
    } else {
        match copies_error(children, slices, (k - 1) as nat) {
            Some(e) => Some(e),
            None => copy_error(*children[k - 1], slices[k - 1]),
        }
    }
}

/// The first error among children stays the first.
pub proof fn lemma_copies_error(
    children: Seq<ArrayRef>,
    slices: Seq<Seq<Span>>,
    i: nat,
    j: nat,
)
    requires
        i <= j <= children.len(),
        copies_error(children, slices, i) is Some,
    ensures
        copies_error(children, slices, j) == copies_error(children, slices, i),
    decreases j,
{
    if i < j {
        lemma_copies_error(children, slices, i, (j - 1) as nat);
    }
}

/// Parts of a child that slots mark one by one, and slices as a whole, are the same positions: part
/// `i` of the child stands between edges `i` and `i + 1`.
proof fn lemma_coarse_part(
    edge: Seq<int>,
    spans: Seq<Span>,
    fine: Seq<Span>,
    coarse: Seq<Span>,
    k: nat,
    j: int,
)
    requires
        are_edges(edge),
        are_slices(spans, edge.len() - 1),
        parts_of(edge, spans, fine),
        0 < k <= spans.len(),
        0 <= j <= spans[k - 1].len,
        spread(coarse, (k - 1) as nat).raw == spread(fine, total(spans, (k - 1) as nat) as nat).raw,
    ensures
        0 <= total(spans, (k - 1) as nat),
        spread(fine, (total(spans, (k - 1) as nat) + j) as nat).raw == spread(
            coarse,
            (k - 1) as nat,
        ).raw + Seq::new(
            (edge[spans[k - 1].start + j] - edge[spans[k - 1].start]) as nat,
            |x: int| (edge[spans[k - 1].start] + x) as usize,
        ),
    decreases j,
{
    let before = total(spans, (k - 1) as nat);
    let start = spans[k - 1].start;
    lemma_slices(spans, edge.len() - 1);
    lemma_total_monotone(spans, 0, (k - 1) as nat);
    let done = spread(coarse, (k - 1) as nat).raw;
    let piece = Seq::new(
        (edge[start + j] - edge[start]) as nat,
        |x: int| (edge[start] + x) as usize,
    );
    if j == 0 {
        assert(done + piece =~= done);
    } else {
        lemma_coarse_part(edge, spans, fine, coarse, k, j - 1);
        lemma_spread_at(spans, edge.len() - 1, spans.len(), k - 1, j - 1);
        lemma_spread(spans, edge.len() - 1, spans.len());
        let p = before + j - 1;
        assert(slots_of(spans).raw[p] == start + j - 1);
        assert(fine[p] == part_at(edge, start + j - 1));
        assert(edge[start] <= edge[start + j - 1] <= edge[start + j]);
        let shorter = Seq::new(
            (edge[start + j - 1] - edge[start]) as nat,
            |x: int| (edge[start] + x) as usize,
        );
        assert(spread(fine, (p + 1) as nat).raw == spread(fine, p as nat).raw + span_positions(
            fine[p],
        ).raw);
        assert(shorter + span_positions(fine[p]).raw =~= piece);
        assert(done + shorter + span_positions(fine[p]).raw =~= done + piece);
    }
}

/// Where each part of a child starts, and where the last one ends.
pub open spec fn are_edges(edge: Seq<int>) -> bool {
    &&& edge.len() > 0
    &&& edge.len() - 1 <= usize::MAX
    &&& 0 <= edge[0]
    &&& edge[edge.len() - 1] <= usize::MAX
    &&& forall|i: int, j: int|
        0 <= i <= j < edge.len() ==> #[trigger] edge[i] <= #[trigger] edge[j]
}

/// Part `i` of the child.
pub open spec fn part_at(edge: Seq<int>, i: int) -> Span {
    Span { start: edge[i], len: edge[i + 1] - edge[i], present: true }
}

/// The parts of the child that the slots of slices mark, one by one.
pub open spec fn parts_of(edge: Seq<int>, spans: Seq<Span>, fine: Seq<Span>) -> bool {
    &&& fine.len() == slots_of(spans).len()
    &&& forall|p: int|
        0 <= p < fine.len() ==> #[trigger] fine[p] == part_at(edge, slots_of(spans).raw[p] as int)
}

/// The parts of the child that slices mark as a whole.
pub open spec fn pieces_of(edge: Seq<int>, spans: Seq<Span>, coarse: Seq<Span>) -> bool {
    &&& coarse.len() == spans.len()
    &&& forall|i: int|
        0 <= i < spans.len() ==> #[trigger] coarse[i] == (Span {
            start: edge[spans[i].start],
            len: edge[spans[i].start + spans[i].len] - edge[spans[i].start],
            present: true,
        })
}

/// Slot by slot or slice by slice, the same positions of the child are marked.
pub proof fn lemma_coarse(
    edge: Seq<int>,
    spans: Seq<Span>,
    fine: Seq<Span>,
    coarse: Seq<Span>,
    k: nat,
)
    requires
        are_edges(edge),
        are_slices(spans, edge.len() - 1),
        parts_of(edge, spans, fine),
        pieces_of(edge, spans, coarse),
        k <= spans.len(),
    ensures
        spread(coarse, k).raw == spread(fine, total(spans, k) as nat).raw,
    decreases k,
{
    if k > 0 {
        lemma_coarse(edge, spans, fine, coarse, (k - 1) as nat);
        assert(0 <= spans[k - 1].len);
        lemma_coarse_part(edge, spans, fine, coarse, k, spans[k - 1].len);
        let start = spans[k - 1].start;
        assert(coarse[k - 1].present);
        assert(span_positions(coarse[k - 1]).raw =~= Seq::new(
            (edge[start + spans[k - 1].len] - edge[start]) as nat,
            |x: int| (edge[start] + x) as usize,
        ));
    }
}

/// The whole of that: the same positions, and slices of the child.
pub proof fn lemma_pieces(edge: Seq<int>, spans: Seq<Span>, fine: Seq<Span>, coarse: Seq<Span>)
    requires
        are_edges(edge),
        are_slices(spans, edge.len() - 1),
        parts_of(edge, spans, fine),
        pieces_of(edge, spans, coarse),
    ensures
        slots_of(coarse) == slots_of(fine),
        are_slices(coarse, edge[edge.len() - 1]),
        are_slices(fine, edge[edge.len() - 1]),
{
    let n = spans.len();
    lemma_slices(spans, edge.len() - 1);
    lemma_coarse(edge, spans, fine, coarse, n);
    lemma_spread(spans, edge.len() - 1, n);
    lemma_spread_all(spans, n);
    assert forall|i: int| 0 <= i < coarse.len() implies {
        &&& (#[trigger] coarse[i]).present
        &&& 0 <= coarse[i].start
        &&& 0 <= coarse[i].len
        &&& coarse[i].start + coarse[i].len <= edge[edge.len() - 1]
    } by {
        assert(spans[i].present);
        assert(edge[0] <= edge[spans[i].start] <= edge[spans[i].start + spans[i].len]
            <= edge[edge.len() - 1]);
    }
    assert forall|p: int| 0 <= p < fine.len() implies {
        &&& (#[trigger] fine[p]).present
        &&& 0 <= fine[p].start
        &&& 0 <= fine[p].len
        &&& fine[p].start + fine[p].len <= edge[edge.len() - 1]
    } by {
        let raw = slots_of(spans).raw[p] as int;
        assert(slots_of(spans).valid[p]);
        assert(raw < edge.len() - 1);
        assert(edge[0] <= edge[raw] <= edge[raw + 1] <= edge[edge.len() - 1]);
    }
    lemma_spread_all(coarse, n);
    lemma_spread_all(fine, fine.len());
}

/// Which slice a slot belongs to, and where in it the slot stands.
pub proof fn lemma_locate(spans: Seq<Span>, k: nat, p: int) -> (place: (int, int))
    requires
        spans_wf(spans),
        k <= spans.len(),
        0 <= p < total(spans, k),
    ensures
        0 <= place.0 < k,
        0 <= place.1 < spans[place.0].len,
        p == total(spans, place.0 as nat) + place.1,
    decreases k,
{
    if p < total(spans, (k - 1) as nat) {
        lemma_locate(spans, (k - 1) as nat, p)
    } else {
        (k - 1, p - total(spans, (k - 1) as nat))
    }
}

/// A position below the last end lies in some run at or after `p`.
proof fn lemma_run_from(ends: Seq<i64>, x: int, p: int)
    requires
        0 <= p < ends.len(),
        p > 0 ==> ends[p - 1] <= x,
        x < ends[ends.len() - 1],
    ensures
        exists|q: int| #[trigger] covers(ends, q, x),
    decreases ends.len() - p,
{
    if x < ends[p] {
        assert(covers(ends, p, x));
    } else {
        lemma_run_from(ends, x, p + 1);
    }
}

/// A position that the ends reach lies in a run, and the next one in the same or the next.
pub proof fn lemma_runs_step(ends: Seq<i64>, last: int, x: int)
    requires
        runs_wf(ends, last),
        0 <= x < last,
    ensures
        covers(ends, run_at(ends, x), x),
        x + 1 < last ==> run_at(ends, x + 1) == run_at(ends, x) || run_at(ends, x + 1) == run_at(
            ends,
            x,
        ) + 1,
{
    lemma_run_from(ends, x, 0);
    let p = run_at(ends, x);
    assert(covers(ends, p, x));
    if x + 1 < last {
        if x + 1 < ends[p] {
            assert(covers(ends, p, x + 1));
            lemma_covers(ends, p, x + 1);
        } else {
            if p + 1 < ends.len() {
                assert(ends[p] < ends[p + 1]);
            }
            assert(covers(ends, p + 1, x + 1));
            lemma_covers(ends, p + 1, x + 1);
        }
    }
}

/// Runs do not go back from one position to a later one.
pub proof fn lemma_runs_rise(ends: Seq<i64>, last: int, x: int, y: int)
    requires
        runs_wf(ends, last),
        0 <= x <= y < last,
    ensures
        0 <= run_at(ends, x) <= run_at(ends, y) < ends.len(),
        run_at(ends, y) - run_at(ends, x) <= y - x,
    decreases y - x,
{
    lemma_runs_step(ends, last, x);
    if x < y {
        lemma_runs_rise(ends, last, x + 1, y);
    }
}

/// Numbers that start at zero and rise by steps of one.
pub open spec fn is_staircase(tags: Seq<int>) -> bool {
    &&& tags.len() > 0 ==> tags[0] == 0
    &&& forall|x: int, y: int|
        0 <= x < tags.len() && y == x + 1 && y < tags.len() ==> #[trigger] tags[y]
            == #[trigger] tags[x] || tags[y] == tags[x] + 1
}

/// The runs that slices touch are runs that are there.
pub proof fn lemma_run_slices(ends: Seq<i64>, offset: int, len: int, spans: Seq<Span>)
    requires
        runs_wf(ends, offset + len),
        0 <= offset,
        are_slices(spans, len),
    ensures
        are_slices(run_slices(ends, offset, spans), ends.len() as int),
{
    let parts = run_slices(ends, offset, spans);
    assert forall|i: int| 0 <= i < parts.len() implies {
        &&& (#[trigger] parts[i]).present
        &&& 0 <= parts[i].start
        &&& 0 <= parts[i].len
        &&& parts[i].start + parts[i].len <= ends.len()
    } by {
        let start = offset + spans[i].start;
        assert(spans[i].present);
        if spans[i].len > 0 {
            lemma_runs_rise(ends, offset + len, start, start + spans[i].len - 1);
        }
    }
}

/// The runs that slices touch are numbered without gaps.
pub proof fn lemma_touched(ends: Seq<i64>, offset: int, len: int, spans: Seq<Span>, k: nat)
    requires
        runs_wf(ends, offset + len),
        0 <= offset,
        are_slices(spans, len),
        k <= spans.len(),
    ensures
        ({
            let tags = touched_runs(ends, offset, spans, k);
            &&& tags.len() == total(spans, k)
            &&& is_staircase(tags)
            &&& total(run_slices(ends, offset, spans), k) == if tags.len() == 0 {
                0
            } else {
                tags[tags.len() - 1] + 1
            }
        }),
    decreases k,
{
    if k > 0 {
        lemma_touched(ends, offset, len, spans, (k - 1) as nat);
        let parts = run_slices(ends, offset, spans);
        let before = touched_runs(ends, offset, spans, (k - 1) as nat);
        let tags = touched_runs(ends, offset, spans, k);
        let start = offset + spans[k - 1].start;
        let base = total(parts, (k - 1) as nat);
        assert(spans[k - 1].present);
        assert(tags.len() == before.len() + spans[k - 1].len);
        assert(forall|x: int| 0 <= x < before.len() ==> #[trigger] tags[x] == before[x]);
        assert forall|x: int, y: int|
            0 <= x < tags.len() && y == x + 1 && y < tags.len() implies #[trigger] tags[y]
            == #[trigger] tags[x] || tags[y] == tags[x] + 1 by {
            if y < before.len() {
                assert(before[y] == before[x] || before[y] == before[x] + 1);
            } else {
                let j = y - before.len();
                assert(tags[y] == base + run_at(ends, start + j) - run_at(ends, start));
                if j > 0 {
                    assert(tags[x] == base + run_at(ends, start + j - 1) - run_at(ends, start));
                    lemma_runs_step(ends, offset + len, start + j - 1);
                }
            }
        }
        if spans[k - 1].len > 0 {
            let j = spans[k - 1].len - 1;
            assert(tags[tags.len() - 1] == base + run_at(ends, start + j) - run_at(ends, start));
        }
    }
}

/// What number the run of a slot has.
pub proof fn lemma_touched_at(ends: Seq<i64>, offset: int, spans: Seq<Span>, k: nat, i: int, j: int)
    requires
        spans_wf(spans),
        0 <= i < k <= spans.len(),
        0 <= j < spans[i].len,
        forall|m: nat|
            m <= spans.len() ==> #[trigger] touched_runs(ends, offset, spans, m).len() == total(
                spans,
                m,
            ),
    ensures
        0 <= total(spans, i as nat) + j < total(spans, k),
        touched_runs(ends, offset, spans, k)[total(spans, i as nat) + j] == total(
            run_slices(ends, offset, spans),
            i as nat,
        ) + run_at(ends, offset + spans[i].start + j) - run_at(ends, offset + spans[i].start),
    decreases k,
{
    lemma_total_monotone(spans, 0, i as nat);
    lemma_total_monotone(spans, (i + 1) as nat, k);
    let before = touched_runs(ends, offset, spans, (k - 1) as nat);
    assert(before.len() == total(spans, (k - 1) as nat));
    assert(touched_runs(ends, offset, spans, k).len() == total(spans, k));
    if i < k - 1 {
        lemma_touched_at(ends, offset, spans, (k - 1) as nat, i, j);
    }
}

/// Stretches of a staircase are its steps.
pub proof fn lemma_steps(tags: Seq<int>, k: nat)
    requires
        is_staircase(tags),
        k <= tags.len() <= usize::MAX,
    ensures
        k > 0 ==> 0 <= tags[k - 1] < k,
        stretch_runs(tags, k).len() == if k == 0 {
            0
        } else {
            tags[k - 1] + 1
        },
        forall|p: int| 0 <= p < stretch_runs(tags, k).len() ==> #[trigger] stretch_runs(
            tags,
            k,
        )[p] == p,
    decreases k,
{
    if k > 0 {
        lemma_steps(tags, (k - 1) as nat);
        if k > 1 {
            assert(tags[k - 1] == tags[k - 2] || tags[k - 1] == tags[k - 2] + 1);
        }
    }
}

/// Slices of one slot are the slots.
pub proof fn lemma_single(offsets: Seq<usize>, k: nat)
    requires
        k <= offsets.len(),
    ensures
        spread(single_slices(offsets), k) == IndexSeq::all_of(offsets.subrange(0, k as int)),
    decreases k,
{
    if k > 0 {
        lemma_single(offsets, (k - 1) as nat);
        assert(span_positions(single_slices(offsets)[k - 1]).raw =~= seq![offsets[k - 1]]);
        assert(span_positions(single_slices(offsets)[k - 1]).valid =~= seq![true]);
    }
    assert(spread(single_slices(offsets), k) =~= IndexSeq::all_of(
        offsets.subrange(0, k as int),
    ));
}

/// Copying nothing does not fail.
pub proof fn lemma_copy_nothing(a: &Array)
    requires
        a.wf(),
    ensures
        copy_error(*a, Seq::empty()) is None,
    decreases a,
{
    let none: Seq<Span> = Seq::empty();
    match &a.values {
        Values::List { offsets, child } => {
            assert(cut_slices(*offsets, none) =~= none);
            lemma_copy_nothing(child);
        },
        Values::ListView { offsets, sizes, child } => {
            assert(view_slices(*offsets, *sizes, slots_of(none)) =~= none);
            lemma_copy_nothing(child);
        },
        Values::FixedSizeList { size, child } => {
            assert(fixed_slices(*size as int, none) =~= none);
            lemma_copy_nothing(child);
        },
        Values::Struct { columns } => {
            let slices = Seq::new(columns@.len(), |k: int| none);
            assert forall|k: int| 0 <= k < columns@.len() implies copy_error(
                *#[trigger] columns@[k],
                slices[k],
            ) is None by {
                lemma_copy_nothing(&*columns@[k]);
            }
            lemma_no_copy_fails(columns@, slices, columns@.len());
        },
        Values::Runs { end_type, ends, offset, values } => {
            assert(run_slices(ends@, *offset as int, none) =~= none);
            lemma_copy_nothing(values);
        },
        Values::Union { type_ids, slots: None, children } => {
            let slices = Seq::new(children@.len(), |k: int| none);
            assert forall|k: int| 0 <= k < children@.len() implies copy_error(
                *#[trigger] children@[k],
                slices[k],
            ) is None by {
                lemma_copy_nothing(&*children@[k]);
            }
            lemma_no_copy_fails(children@, slices, children@.len());
        },
        Values::Union { type_ids, slots: Some(o), children } => {
            let ix = slots_of(none);
            let ids = gathered(type_ids@, ix, 0);
            let slices = dense_slices(a.union_fields(), ids, gathered(o@, ix, 0));
            assert forall|k: int| 0 <= k < children@.len() implies copy_error(
                *#[trigger] children@[k],
                slices[k],
            ) is None by {
                if k < slices.len() {
                    assert(slices[k] =~= none);
                }
                lemma_copy_nothing(&*children@[k]);
            }
            lemma_no_copy_fails(children@, slices, children@.len());
        },
        _ => {},
    }
}

/// Children that can each be copied can be copied together.
pub proof fn lemma_no_copy_fails(children: Seq<ArrayRef>, slices: Seq<Seq<Span>>, k: nat)
    requires
        k <= children.len(),
        forall|j: int|
            0 <= j < children.len() ==> copy_error(*#[trigger] children[j], slices[j]) is None,
    ensures
        copies_error(children, slices, k) is None,
    decreases k,
{
    if k > 0 {
        lemma_no_copy_fails(children, slices, (k - 1) as nat);
        assert(copy_error(*children[k - 1], slices[k - 1]) is None);
    }
}

/// Slices are spans as spans should be.
pub proof fn lemma_slices(spans: Seq<Span>, len: int)
    requires
        are_slices(spans, len),
    ensures
        spans_wf(spans),
        spans_within(spans, len),
        forall|i: int| 0 <= i < spans.len() ==> (#[trigger] spans[i]).present,
{
}

} // verus!
