//! Which slots of an array are null.
use crate::buffers::{null_bits, unset_count};
use arrow_buffer::NullBuffer;
use vstd::prelude::*;

verus! {

/// The validity bits of an optional bitmap; no bitmap stands for an array without nulls.
pub open spec fn bits_of(nulls: Option<NullBuffer>) -> Option<Seq<bool>> {
    match nulls {
        Some(n) => Some(null_bits(n)),
        None => None,
    }
}

/// Slot `i` holds a value.
pub open spec fn valid_in(bits: Option<Seq<bool>>, i: int) -> bool {
    bits matches Some(b) ==> b[i]
}

/// Some bit is unset.
pub open spec fn some_unset(bits: Seq<bool>) -> bool {
    exists|i: int| 0 <= i < bits.len() && !#[trigger] bits[i]
}

/// Some slot is null.
pub open spec fn has_null(bits: Option<Seq<bool>>) -> bool {
    bits matches Some(b) && some_unset(b)
}

/// `bits`, unless they mark no slot as null.
pub open spec fn only_with_nulls(bits: Option<Seq<bool>>) -> Option<Seq<bool>> {
    if has_null(bits) {
        bits
    } else {
        None
    }
}

/// A bitmap has an unset bit where the count of those is not zero.
pub proof fn lemma_unset_count(bits: Seq<bool>)
    ensures
        unset_count(bits) <= bits.len(),
        unset_count(bits) > 0 <==> some_unset(bits),
    decreases bits.len(),
{
    if bits.len() > 0 {
        let rest = bits.drop_last();
        lemma_unset_count(rest);
        if some_unset(rest) {
            let i = choose|i: int| 0 <= i < rest.len() && !#[trigger] rest[i];
            assert(!bits[i]);
        }
        if !bits.last() {
            assert(!bits[bits.len() - 1]);
        }
        if some_unset(bits) && bits.last() {
            let i = choose|i: int| 0 <= i < bits.len() && !#[trigger] bits[i];
            assert(!rest[i]);
        }
    }
}

/// Whether a bitmap marks any slot as null.
pub fn marks_null(nulls: &NullBuffer) -> (marks: bool)
    ensures
        marks == some_unset(null_bits(*nulls)),
{
    proof {
        lemma_unset_count(null_bits(*nulls));
    }
    nulls.null_count() > 0
}

/// Whether any slot is null.
pub fn any_null(nulls: &Option<NullBuffer>) -> (any: bool)
    ensures
        any == has_null(bits_of(*nulls)),
{
    match nulls {
        Some(n) => marks_null(n),
        None => false,
    }
}

/// Whether slot `i` holds a value.
pub fn slot_valid(nulls: &Option<NullBuffer>, i: usize) -> (valid: bool)
    requires
        bits_of(*nulls) matches Some(b) ==> i < b.len(),
    ensures
        valid == valid_in(bits_of(*nulls), i as int),
{
    match nulls {
        Some(n) => n.is_valid(i),
        None => true,
    }
}

/// Another handle on an optional bitmap.
pub fn copy_nulls(nulls: &Option<NullBuffer>) -> (copy: Option<NullBuffer>)
    ensures
        bits_of(copy) == bits_of(*nulls),
{
    match nulls {
        Some(n) => Some(n.clone()),
        None => None,
    }
}

/// The bitmap, or none where it marks no slot as null.
pub fn drop_if_all_valid(nulls: Option<NullBuffer>) -> (kept: Option<NullBuffer>)
    ensures
        bits_of(kept) == only_with_nulls(bits_of(nulls)),
{
    match nulls {
        Some(n) => if marks_null(&n) {
            Some(n)
        } else {
            None
        },
        None => None,
    }
}

} // verus!
