//! Byte views: values of any length behind words of one width.
//!
//! A view holds the length of its value. A short value stands in the view itself; of a longer
//! one the view holds the first bytes, and where in which data buffer the value stands.
use crate::buffers::buffer_bytes;
use arrow_array::BinaryViewArray;
use arrow_buffer::{Buffer, ScalarBuffer};
use arrow_data::ByteView;
use vstd::arithmetic::power2::{lemma2_to64, pow2};
use vstd::prelude::*;

verus! {

/// The longest value that stands in its view.
pub const MAX_INLINE_VIEW_LEN: u32 = 12;

/// The length of the value behind a view.
pub open spec fn view_len(view: u128) -> int {
    view as int % 0x1_0000_0000
}

/// The first four bytes of a value that does not stand in its view, least significant first.
pub open spec fn view_prefix(view: u128) -> int {
    (view as int / 0x1_0000_0000) % 0x1_0000_0000
}

/// Which data buffer a value stands in that does not stand in its view.
pub open spec fn view_buffer(view: u128) -> int {
    (view as int / 0x1_0000_0000_0000_0000) % 0x1_0000_0000
}

/// Where in its data buffer such a value starts.
pub open spec fn view_offset(view: u128) -> int {
    view as int / 0x1_0000_0000_0000_0000_0000_0000
}

/// The value stands in the view.
pub open spec fn is_inline(view: u128) -> bool {
    view_len(view) <= MAX_INLINE_VIEW_LEN
}

/// The four bytes at the start of `bytes`, least significant first.
pub open spec fn first_four(bytes: Seq<u8>) -> int {
    bytes[0] + 0x100 * bytes[1] + 0x1_0000 * bytes[2] + 0x100_0000 * bytes[3]
}

/// A view that `buffers` can answer: one that is inline and zero past its value, or one whose
/// value lies within a buffer and starts as the view says.
pub open spec fn view_valid(view: u128, buffers: Seq<Buffer>) -> bool {
    if is_inline(view) {
        view_len(view) < MAX_INLINE_VIEW_LEN ==> (view as int) < pow2(
            (32 + 8 * view_len(view)) as nat,
        )
    } else {
        &&& view_buffer(view) < buffers.len()
        &&& view_offset(view) + view_len(view) <= buffer_bytes(buffers[view_buffer(view)]).len()
        &&& view_prefix(view) == first_four(view_bytes(view, buffers))
    }
}

/// The value behind a view.
pub open spec fn view_bytes(view: u128, buffers: Seq<Buffer>) -> Seq<u8> {
    if is_inline(view) {
        Seq::new(
            view_len(view) as nat,
            |k: int| ((view as int / (pow2((32 + 8 * k) as nat) as int)) % 256) as u8,
        )
    } else {
        buffer_bytes(buffers[view_buffer(view)]).subrange(
            view_offset(view),
            view_offset(view) + view_len(view),
        )
    }
}

/// Every view can be answered.
pub open spec fn views_valid(views: Seq<u128>, buffers: Seq<Buffer>) -> bool {
    forall|i: int| 0 <= i < views.len() ==> view_valid(#[trigger] views[i], buffers)
}

/// The bytes that the first `k` views have in data buffers.
pub open spec fn referenced_bytes(views: Seq<u128>, k: nat) -> nat
    decreases k,
{
    if k == 0 {
        0
    } else {
        referenced_bytes(views, (k - 1) as nat) + if is_inline(views[k - 1]) {
            0nat
        } else {
            view_len(views[k - 1]) as nat
        }
    }
}

/// The bytes that the first `k` buffers hold.
pub open spec fn held_bytes(buffers: Seq<Buffer>, k: nat) -> nat
    decreases k,
{
    if k == 0 {
        0
    } else {
        held_bytes(buffers, (k - 1) as nat) + buffer_bytes(buffers[k - 1]).len()
    }
}

/// Two sets of views show the same values: the same view where it is inline, the same bytes
/// where it is not.
pub open spec fn same_values(
    views: Seq<u128>,
    buffers: Seq<Buffer>,
    new_views: Seq<u128>,
    new_buffers: Seq<Buffer>,
) -> bool {
    &&& new_views.len() == views.len()
    &&& forall|i: int|
        0 <= i < views.len() ==> {
            &&& view_len(#[trigger] new_views[i]) == view_len(views[i])
            &&& is_inline(views[i]) ==> new_views[i] == views[i]
            &&& view_valid(new_views[i], new_buffers)
            &&& view_bytes(new_views[i], new_buffers) == view_bytes(views[i], buffers)
        }
}

/// `ByteView::from`: the four words of a view, from the least significant on. They are its
/// length, its prefix, its buffer and its offset.
#[verifier::external_body]
pub(crate) fn unpack_view(view: u128) -> (fields: (u32, u32, u32, u32))
    ensures
        fields.0 == view_len(view),
        fields.1 == view_prefix(view),
        fields.2 == view_buffer(view),
        fields.3 == view_offset(view),
{
    let fields = ByteView::from(view);
    (fields.length, fields.prefix, fields.buffer_index, fields.offset)
}

/// `ByteView::as_u128`: the view that the four words make up.
#[verifier::external_body]
pub(crate) fn pack_view(length: u32, prefix: u32, buffer_index: u32, offset: u32) -> (view: u128)
    ensures
        view == length + prefix * 0x1_0000_0000 + buffer_index * 0x1_0000_0000_0000_0000 + offset
            * 0x1_0000_0000_0000_0000_0000_0000,
{
    ByteView { length, prefix, buffer_index, offset }.as_u128()
}

/// `GenericByteViewArray::gc`: the same values, with buffers that hold what the views refer to
/// and nothing else: no buffer where they refer to nothing, and one buffer as long as its bytes can
/// be counted in an `i32`. The array that it is called on checks its views, and panics on one that
/// is not valid; `gc` counts the bytes to copy in a `usize`.
#[verifier::external_body]
pub(crate) fn collect_garbage(views: &Vec<u128>, buffers: &Vec<Buffer>) -> (compact: (
    Vec<u128>,
    Vec<Buffer>,
))
    requires
        views_valid(views@, buffers@),
        referenced_bytes(views@, views@.len()) <= usize::MAX,
    ensures
        same_values(views@, buffers@, compact.0@, compact.1@),
        held_bytes(compact.1@, compact.1@.len()) == referenced_bytes(views@, views@.len()),
        referenced_bytes(views@, views@.len()) == 0 ==> compact.1@.len() == 0,
        referenced_bytes(views@, views@.len()) <= i32::MAX ==> compact.1@.len() <= 1,
{
    let array = BinaryViewArray::new(ScalarBuffer::from(views.clone()), buffers.clone(), None);
    let (new_views, new_buffers, _) = array.gc().into_parts();
    (new_views.to_vec(), new_buffers.to_vec())
}

/// A view with another buffer index differs in nothing else.
pub proof fn lemma_with_buffer(view: u128, new_view: u128, index: int)
    requires
        0 <= index < 0x1_0000_0000,
        new_view == view_len(view) + view_prefix(view) * 0x1_0000_0000 + index
            * 0x1_0000_0000_0000_0000 + view_offset(view) * 0x1_0000_0000_0000_0000_0000_0000,
    ensures
        view_len(new_view) == view_len(view),
        view_prefix(new_view) == view_prefix(view),
        view_buffer(new_view) == index,
        view_offset(new_view) == view_offset(view),
{
    let tail = index + 0x1_0000_0000 * view_offset(view);
    let middle = view_prefix(view) + 0x1_0000_0000 * tail;
    assert(0 <= view_prefix(view) < 0x1_0000_0000);
    assert(0 <= view_len(view) < 0x1_0000_0000);
    assert(0 <= view_offset(view));
    assert(new_view == view_len(view) + 0x1_0000_0000 * middle);
    assert(new_view as int / 0x1_0000_0000 == middle);
    assert(new_view as int / 0x1_0000_0000_0000_0000 == tail);
    assert(new_view as int / 0x1_0000_0000_0000_0000_0000_0000 == view_offset(view));
}

/// Handles on the same bytes, one for one.
pub open spec fn same_buffers(buffers: Seq<Buffer>, copies: Seq<Buffer>) -> bool {
    &&& copies.len() == buffers.len()
    &&& forall|k: int|
        0 <= k < buffers.len() ==> buffer_bytes(#[trigger] copies[k]) == buffer_bytes(buffers[k])
}

/// Which handle on the bytes answers a view makes no difference.
pub proof fn lemma_same_buffers(buffers: Seq<Buffer>, copies: Seq<Buffer>, view: u128)
    requires
        same_buffers(buffers, copies),
        view_valid(view, buffers),
    ensures
        view_valid(view, copies),
        view_bytes(view, copies) == view_bytes(view, buffers),
{
    if !is_inline(view) {
        assert(buffer_bytes(copies[view_buffer(view)]) == buffer_bytes(buffers[view_buffer(view)]));
    }
}

/// The view of the empty value is zero.
pub proof fn lemma_zero_view(buffers: Seq<Buffer>)
    ensures
        view_valid(0, buffers),
        view_bytes(0, buffers).len() == 0,
{
    lemma2_to64();
    assert(pow2(32) == 0x1_0000_0000);
}

} // verus!
