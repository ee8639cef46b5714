//! What taking slots from an array gives, for every kind of array.
use crate::array::{field_position, has_field, run_at, Array, ArrayRef, Offsets, Value, Values};
use crate::datatype::Field;
use crate::error::TakeError;
use crate::indices::IndexSeq;
use crate::slices::copy_error;
use crate::validity::valid_in;
use std::sync::Arc;
use vstd::prelude::*;

verus! {

/// The positions can be taken: each that is there is a slot of the array. A null array has no
/// slots to miss, and a run-end encoded one answers a position that it lacks with an error.
pub open spec fn in_bounds(a: Array, ix: IndexSeq) -> bool {
    a.values is Null || a.values is Runs || ix.below(a.len as int)
}

/// What taking from position `raw` gives. Where no position is asked for, that is a null, with two
/// exceptions, since neither runs nor unions have nulls of their own. Runs give what stands at
/// the leftover position. A union gives what stands there too, or the first type id where nothing
/// does; the child of a sparse union is asked for a null.
pub open spec fn picked(a: Array, raw: int, valid: bool) -> Value
    decreases a,
{
    if valid {
        a.row(raw)
    } else {
        match a.values {
            Values::Runs { .. } => a.row(raw),
            Values::Union { type_ids, slots: Some(_), children } => if raw < a.len {
                a.row(raw)
            } else {
                let k = field_position(a.union_fields(), 0);
                Value::Union(
                    0,
                    Box::new(
                        if 0 <= k < children@.len() {
                            children@[k].row(0)
                        } else {
                            Value::Null
                        },
                    ),
                )
            },
            Values::Union { type_ids, slots: None, children } => {
                let id = if raw < a.len {
                    type_ids@[raw]
                } else {
                    0
                };
                let k = field_position(a.union_fields(), id);
                Value::Union(
                    id,
                    Box::new(
                        if 0 <= k < children@.len() {
                            picked(*children@[k], raw, false)
                        } else {
                            Value::Null
                        },
                    ),
                )
            },
            _ => Value::Null,
        }
    }
}

/// The array keeps a validity bitmap of its own.
pub open spec fn has_bitmap(a: Array) -> bool {
    !(a.values is Null || a.values is Runs || a.values is Union)
}

/// A slot taken from position `raw` is marked valid.
pub open spec fn marked_valid(a: Array, raw: int, valid: bool) -> bool {
    has_bitmap(a) ==> valid && valid_in(a.bits(), raw)
}

/// `r` holds, in order, what taking from each position of `a` gives.
pub open spec fn takes(a: Array, ix: IndexSeq, r: Array) -> bool {
    &&& r.wf()
    &&& r.data_type == a.data_type
    &&& r.len == ix.len()
    &&& forall|i: int|
        0 <= i < ix.len() ==> #[trigger] r.row(i) == picked(a, ix.raw[i] as int, ix.valid[i])
    &&& forall|i: int|
        0 <= i < ix.len() ==> #[trigger] valid_in(r.bits(), i) == marked_valid(
            a,
            ix.raw[i] as int,
            ix.valid[i],
        )
}

/// What is taken of `s` at each position; `zero` where the position is not there.
pub open spec fn gathered<T>(s: Seq<T>, ix: IndexSeq, zero: T) -> Seq<T> {
    Seq::new(
        ix.len(),
        |i: int|
            if ix.raw[i] < s.len() {
                s[ix.raw[i] as int]
            } else {
                zero
            },
    )
}

/// Positions of a child from `start` on, or as many that are not there.
pub struct Span {
    pub start: int,
    pub len: int,
    pub present: bool,
}

/// How many positions the first `k` spans have.
pub open spec fn total(spans: Seq<Span>, k: nat) -> int
    decreases k,
{
    if k == 0 {
        0
    } else {
        total(spans, (k - 1) as nat) + spans[k - 1].len
    }
}

/// The positions of a span.
pub open spec fn span_positions(span: Span) -> IndexSeq {
    IndexSeq {
        raw: Seq::new(
            span.len as nat,
            |j: int|
                if span.present {
                    (span.start + j) as usize
                } else {
                    0
                },
        ),
        valid: Seq::new(span.len as nat, |j: int| span.present),
    }
}

/// The positions of the first `k` spans, one after the other.
pub open spec fn spread(spans: Seq<Span>, k: nat) -> IndexSeq
    decreases k,
{
    if k == 0 {
        IndexSeq { raw: Seq::empty(), valid: Seq::empty() }
    } else {
        let before = spread(spans, (k - 1) as nat);
        let next = span_positions(spans[k - 1]);
        IndexSeq { raw: before.raw + next.raw, valid: before.valid + next.valid }
    }
}

/// What span `i` marks in `data` stands at its place in `bytes`.
pub open spec fn holds_span(bytes: Seq<u8>, data: Seq<u8>, spans: Seq<Span>, i: int) -> bool {
    bytes.subrange(total(spans, i as nat), total(spans, (i + 1) as nat)) == data.subrange(
        spans[i].start,
        spans[i].start + spans[i].len,
    )
}

/// The first total beyond `limit`.
pub open spec fn first_beyond(spans: Seq<Span>, limit: int, k: nat) -> Option<int>
    decreases k,
{
    if k == 0 {
        None
    } else {
        match first_beyond(spans, limit, (k - 1) as nat) {
            Some(t) => Some(t),
            None => if total(spans, k) > limit {
                Some(total(spans, k))
            } else {
                None
            },
        }
    }
}

/// The part of the child that offsets give to each position; nothing where a slot is null.
pub open spec fn cut_spans(bits: Option<Seq<bool>>, offsets: Offsets, ix: IndexSeq) -> Seq<Span> {
    Seq::new(
        ix.len(),
        |i: int|
            {
                let raw = ix.raw[i] as int;
                if ix.valid[i] && valid_in(bits, raw) {
                    Span {
                        start: offsets.at(raw),
                        len: offsets.at(raw + 1) - offsets.at(raw),
                        present: true,
                    }
                } else {
                    Span { start: 0, len: 0, present: true }
                }
            },
    )
}

/// The `size` items of each position.
pub open spec fn fixed_spans(size: int, ix: IndexSeq) -> Seq<Span> {
    Seq::new(
        ix.len(),
        |i: int|
            if ix.valid[i] {
                Span { start: ix.raw[i] * size, len: size, present: true }
            } else {
                Span { start: 0, len: size, present: false }
            },
    )
}

/// The run that each position falls in.
pub open spec fn runs_of(ends: Seq<i64>, offset: int, ix: IndexSeq) -> Seq<int> {
    Seq::new(ix.len(), |i: int| run_at(ends, offset + ix.raw[i]))
}

/// Slot `k` belongs to another run than the slot before it.
pub open spec fn starts_run(runs: Seq<int>, k: int) -> bool {
    k == 0 || runs[k] != runs[k - 1]
}

/// The run of each stretch of equal runs among the first `k`.
pub open spec fn stretch_runs(runs: Seq<int>, k: nat) -> Seq<usize>
    decreases k,
{
    if k == 0 {
        Seq::empty()
    } else if starts_run(runs, k - 1) {
        stretch_runs(runs, (k - 1) as nat).push(runs[k - 1] as usize)
    } else {
        stretch_runs(runs, (k - 1) as nat)
    }
}

/// Where each stretch of equal runs among the first `k` ends.
pub open spec fn stretch_ends(runs: Seq<int>, k: nat) -> Seq<i64>
    decreases k,
{
    if k == 0 {
        Seq::empty()
    } else if starts_run(runs, k - 1) {
        stretch_ends(runs, (k - 1) as nat).push(k as i64)
    } else {
        stretch_ends(runs, (k - 1) as nat).drop_last().push(k as i64)
    }
}

/// The largest of the first `k` positions.
pub open spec fn largest(raw: Seq<usize>, k: nat) -> usize
    decreases k,
{
    if k <= 1 {
        raw[0]
    } else {
        let before = largest(raw, (k - 1) as nat);
        if raw[k - 1] > before {
            raw[k - 1]
        } else {
            before
        }
    }
}

/// How many of the first `k` ids are `id`.
pub open spec fn occurrences(ids: Seq<i8>, id: i8, k: nat) -> nat
    decreases k,
{
    if k == 0 {
        0
    } else {
        occurrences(ids, id, (k - 1) as nat) + if ids[k - 1] == id {
            1nat
        } else {
            0nat
        }
    }
}

/// The offsets among the first `k` that stand beside `id`.
pub open spec fn offsets_of(ids: Seq<i8>, offsets: Seq<i32>, id: i8, k: nat) -> Seq<usize>
    decreases k,
{
    if k == 0 {
        Seq::empty()
    } else if ids[k - 1] == id {
        offsets_of(ids, offsets, id, (k - 1) as nat).push(offsets[k - 1] as usize)
    } else {
        offsets_of(ids, offsets, id, (k - 1) as nat)
    }
}

/// What is asked of each child of a dense union.
pub open spec fn dense_picks(
    fields: Seq<(i8, Arc<Field>)>,
    ids: Seq<i8>,
    offsets: Seq<i32>,
) -> Seq<IndexSeq> {
    Seq::new(
        fields.len(),
        |k: int| IndexSeq::all_of(offsets_of(ids, offsets, fields[k].0, ids.len())),
    )
}

/// The error for ids and how often they occur.
pub open spec fn ids_error(
    fields: Seq<(i8, Arc<Field>)>,
    ids: Seq<i8>,
    dense: bool,
) -> Option<TakeError> {
    if exists|i: int| 0 <= i < ids.len() && !has_field(fields, #[trigger] ids[i]) {
        Some(TakeError::UnknownTypeId)
    } else if dense && exists|i: int|
        0 <= i < ids.len() && occurrences(ids, #[trigger] ids[i], i as nat) > i32::MAX {
        Some(TakeError::UnionOffset)
    } else {
        None
    }
}

/// The error that taking from `a` fails with, if it does.
pub open spec fn take_error(a: Array, ix: IndexSeq) -> Option<TakeError>
    decreases a, 0nat,
{
    if ix.len() == 0 {
        None
    } else {
        match a.values {
            Values::Bytes { offsets, data } => overflow_error(
                cut_spans(a.bits(), offsets, ix),
                offsets.limit(),
            ),
            Values::List { offsets, child } => {
                let spans = cut_spans(a.bits(), offsets, ix);
                match overflow_error(spans, offsets.limit()) {
                    Some(e) => Some(e),
                    None => copy_error(*child, spans),
                }
            },
            Values::FixedSizeList { size, child } => take_error(
                *child,
                spread(fixed_spans(size as int, ix), ix.len()),
            ),
            Values::Struct { columns } => children_error(
                columns@,
                Seq::new(columns@.len(), |k: int| ix),
                columns@.len(),
            ),
            Values::Runs { end_type, ends, offset, values } => {
                if !IndexSeq::all_of(ix.raw).below(a.len as int) {
                    Some(
                        TakeError::RunOutOfBounds {
                            position: largest(ix.raw, ix.len()),
                            len: a.len,
                        },
                    )
                } else if ix.len() > end_type.max_value() {
                    Some(TakeError::RunEndOverflow(ix.len() as usize))
                } else {
                    let runs = runs_of(ends@, offset as int, ix);
                    take_error(*values, IndexSeq::all_of(stretch_runs(runs, ix.len())))
                }
            },
            Values::Union { type_ids, slots: None, children } => {
                match children_error(
                    children@,
                    Seq::new(children@.len(), |k: int| ix),
                    children@.len(),
                ) {
                    Some(e) => Some(e),
                    None => ids_error(
                        a.union_fields(),
                        gathered(type_ids@, ix, 0),
                        false,
                    ),
                }
            },
            Values::Union { type_ids, slots: Some(o), children } => {
                let fields = a.union_fields();
                let ids = gathered(type_ids@, ix, 0);
                match children_error(
                    children@,
                    dense_picks(fields, ids, gathered(o@, ix, 0)),
                    children@.len(),
                ) {
                    Some(e) => Some(e),
                    None => ids_error(fields, ids, true),
                }
            },
            _ => None,
        }
    }
}

/// The error for offsets that would pass `limit`.
pub open spec fn overflow_error(spans: Seq<Span>, limit: int) -> Option<TakeError> {
    match first_beyond(spans, limit, spans.len()) {
        Some(t) => Some(TakeError::OffsetOverflow(t as u64)),
        None => None,
    }
}

/// The first error among the first `k` children, each asked for positions of its own.
pub open spec fn children_error(
    children: Seq<ArrayRef>,
    picks: Seq<IndexSeq>,
    k: nat,
) -> Option<TakeError>
    decreases children, k,
{
    if k == 0 || k > children.len() {
        None
    } else {
        match children_error(children, picks, (k - 1) as nat) {
            Some(e) => Some(e),
            None => if !in_bounds(*children[k - 1], picks[k - 1]) {
                Some(TakeError::UnionOffset)
            } else {
                take_error(*children[k - 1], picks[k - 1])
            },
        }
    }
}

/// No span is of negative length.
pub open spec fn spans_wf(spans: Seq<Span>) -> bool {
    forall|i: int| 0 <= i < spans.len() ==> 0 <= (#[trigger] spans[i]).len
}

/// Totals do not fall.
pub proof fn lemma_total_monotone(spans: Seq<Span>, i: nat, j: nat)
    requires
        spans_wf(spans),
        i <= j <= spans.len(),
    ensures
        0 <= total(spans, i) <= total(spans, j),
    decreases j,
{
    if j == 0 {
    } else if i < j {
        lemma_total_monotone(spans, i, (j - 1) as nat);
    } else {
        lemma_total_monotone(spans, (j - 1) as nat, (j - 1) as nat);
    }
}

/// The first total beyond a limit stays the first.
pub proof fn lemma_first_beyond(spans: Seq<Span>, limit: int, i: nat, j: nat)
    requires
        i <= j,
        first_beyond(spans, limit, i) is Some,
    ensures
        first_beyond(spans, limit, j) == first_beyond(spans, limit, i),
    decreases j,
{
    if i < j {
        lemma_first_beyond(spans, limit, i, (j - 1) as nat);
    }
}

/// Offsets into a well-formed array give spans within the child.
pub proof fn lemma_cut_spans(
    bits: Option<Seq<bool>>,
    offsets: Offsets,
    len: nat,
    end: nat,
    ix: IndexSeq,
)
    requires
        offsets.cuts(len, end),
        ix.wf(),
        ix.below(len as int),
    ensures
        spans_wf(cut_spans(bits, offsets, ix)),
        forall|i: int|
            0 <= i < ix.len() ==> {
                let span = #[trigger] cut_spans(bits, offsets, ix)[i];
                0 <= span.start && span.start + span.len <= end
            },
{
    let spans = cut_spans(bits, offsets, ix);
    assert forall|i: int| 0 <= i < ix.len() implies 0 <= (#[trigger] spans[i]).len && 0
        <= spans[i].start && spans[i].start + spans[i].len <= end by {
        let raw = ix.raw[i] as int;
        if ix.valid[i] && valid_in(bits, raw) {
            assert(offsets.at(0) <= offsets.at(raw) <= offsets.at(raw + 1) <= offsets.at(
                len as int,
            ));
        }
    }
}

/// Every span that is present lies within `end` positions.
pub open spec fn spans_within(spans: Seq<Span>, end: int) -> bool {
    forall|i: int|
        0 <= i < spans.len() && (#[trigger] spans[i]).present ==> 0 <= spans[i].start
            && spans[i].start + spans[i].len <= end
}

/// Spans give as many positions as they have in total, all of them within their bounds.
pub proof fn lemma_spread(spans: Seq<Span>, end: int, k: nat)
    requires
        spans_wf(spans),
        spans_within(spans, end),
        end <= usize::MAX,
        k <= spans.len(),
    ensures
        spread(spans, k).raw.len() == total(spans, k),
        spread(spans, k).wf(),
        spread(spans, k).below(end),
    decreases k,
{
    if k > 0 {
        lemma_spread(spans, end, (k - 1) as nat);
        let before = spread(spans, (k - 1) as nat);
        let next = span_positions(spans[k - 1]);
        let ix = spread(spans, k);
        assert forall|p: int| 0 <= p < ix.raw.len() && ix.valid[p] implies #[trigger] ix.raw[p]
            < end by {
            if p < before.raw.len() {
                assert(before.raw[p] < end);
            } else {
                assert(ix.raw[p] == next.raw[p - before.raw.len()]);
                assert(ix.valid[p] == next.valid[p - before.raw.len()]);
            }
        }
    }
}

/// Position `j` of span `i` stands `j` after the total before it.
pub proof fn lemma_spread_at(spans: Seq<Span>, end: int, k: nat, i: int, j: int)
    requires
        spans_wf(spans),
        spans_within(spans, end),
        end <= usize::MAX,
        0 <= i < k <= spans.len(),
        0 <= j < spans[i].len,
    ensures
        0 <= total(spans, i as nat) + j < total(spans, k),
        spread(spans, k).valid[total(spans, i as nat) + j] == spans[i].present,
        spans[i].present ==> spread(spans, k).raw[total(spans, i as nat) + j] == spans[i].start + j,
    decreases k,
{
    let before = spread(spans, (k - 1) as nat);
    let next = span_positions(spans[k - 1]);
    lemma_spread(spans, end, (k - 1) as nat);
    lemma_total_monotone(spans, 0, i as nat);
    lemma_total_monotone(spans, (k - 1) as nat, k);
    if i < k - 1 {
        lemma_spread_at(spans, end, (k - 1) as nat, i, j);
        let p = total(spans, i as nat) + j;
        assert(spread(spans, k).raw[p] == before.raw[p]);
        assert(spread(spans, k).valid[p] == before.valid[p]);
    } else {
        let p = total(spans, i as nat) + j;
        assert(spread(spans, k).raw[p] == next.raw[j]);
        assert(spread(spans, k).valid[p] == next.valid[j]);
    }
}

/// Spans that are all present give positions that are all there.
pub proof fn lemma_spread_all(spans: Seq<Span>, k: nat)
    requires
        k <= spans.len(),
        forall|i: int| 0 <= i < spans.len() ==> (#[trigger] spans[i]).present,
    ensures
        spread(spans, k) == IndexSeq::all_of(spread(spans, k).raw),
    decreases k,
{
    if k > 0 {
        lemma_spread_all(spans, (k - 1) as nat);
    }
    assert(spread(spans, k) =~= IndexSeq::all_of(spread(spans, k).raw));
}

} // verus!
