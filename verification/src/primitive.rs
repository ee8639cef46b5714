//! Taking from arrays whose slots are of one width: values, bits, views, keys and list views.
use crate::array::{Array, ArrayRef, Native, Offsets, Values};
use crate::buffers::share;
use crate::datatype::IntType;
use crate::flat::{
    lemma_only_with_nulls, lemma_taken_nulls, take_bits, take_native, take_nulls, taken_nulls,
};
use crate::indices::{IndexSeq, Indices};
use crate::layout::arranged;
use crate::selection::{picked, takes};
use crate::validity::{bits_of, drop_if_all_valid, valid_in};
use crate::views::{lemma_same_buffers, lemma_zero_view, same_buffers, view_bytes, view_valid};
use arrow_buffer::{BooleanBuffer, Buffer};
use vstd::prelude::*;

verus! {

/// `taken` holds the values at each position; zero where the position leads nowhere.
pub open spec fn gathers(values: Native, ix: IndexSeq, taken: Native) -> bool {
    &&& taken.width() == values.width()
    &&& taken.spec_len() == ix.len()
    &&& forall|i: int|
        0 <= i < ix.len() ==> #[trigger] taken.at(i) == if ix.raw[i] < values.spec_len() {
            values.at(ix.raw[i] as int)
        } else {
            (0, 0)
        }
}

/// `taken` holds the offsets at each position; zero where the position leads nowhere.
pub open spec fn gathers_offsets(offsets: Offsets, ix: IndexSeq, taken: Offsets) -> bool {
    &&& taken is Small <==> offsets is Small
    &&& taken.spec_len() == ix.len()
    &&& forall|i: int|
        0 <= i < ix.len() ==> #[trigger] taken.at(i) == if ix.raw[i] < offsets.spec_len() {
            offsets.at(ix.raw[i] as int)
        } else {
            0
        }
}

impl Native {
    /// Takes from the values, of whichever width.
    pub fn take(&self, indices: &Indices) -> (taken: Native)
        requires
            indices.wf(),
            indices@.below(self.spec_len() as int),
        ensures
            gathers(*self, indices@, taken),
    {
        match self {
            Native::W8(v) => Native::W8(take_native(v, indices, 0)),
            Native::W16(v) => Native::W16(take_native(v, indices, 0)),
            Native::W32(v) => Native::W32(take_native(v, indices, 0)),
            Native::W64(v) => Native::W64(take_native(v, indices, 0)),
            Native::W128(v) => Native::W128(take_native(v, indices, 0)),
            Native::W256(v) => Native::W256(take_native(v, indices, (0, 0))),
        }
    }
}

impl Offsets {
    /// Takes from the offsets.
    pub fn take(&self, indices: &Indices) -> (taken: Offsets)
        requires
            indices.wf(),
            indices@.below(self.spec_len() as int),
        ensures
            gathers_offsets(*self, indices@, taken),
    {
        match self {
            Offsets::Small(v) => Offsets::Small(take_native(v, indices, 0)),
            Offsets::Large(v) => Offsets::Large(take_native(v, indices, 0)),
        }
    }
}

/// Takes from an array of primitive values.
pub fn take_primitive(array: &Array, values: &Native, indices: &Indices) -> (taken: Array)
    requires
        array.wf(),
        array.values == Values::Native(*values),
        indices.wf(),
        indices@.below(array.len as int),
    ensures
        takes(*array, indices@, taken),
        arranged(*array, indices@, bits_of(indices.nulls), taken),
{
    proof {
        lemma_taken_nulls(array.bits(), *indices, array.len as int);
    }
    Array {
        data_type: share(&array.data_type),
        len: indices.len(),
        nulls: take_nulls(&array.nulls, indices),
        values: Values::Native(values.take(indices)),
    }
}

/// Takes from an array of booleans.
pub fn take_boolean(array: &Array, values: &BooleanBuffer, indices: &Indices) -> (taken: Array)
    requires
        array.wf(),
        array.values == Values::Boolean(*values),
        indices.wf(),
        indices@.below(array.len as int),
    ensures
        takes(*array, indices@, taken),
        arranged(*array, indices@, bits_of(indices.nulls), taken),
{
    proof {
        lemma_taken_nulls(array.bits(), *indices, array.len as int);
    }
    Array {
        data_type: share(&array.data_type),
        len: indices.len(),
        nulls: take_nulls(&array.nulls, indices),
        values: Values::Boolean(take_bits(values, indices)),
    }
}

/// Another handle on each buffer.
pub(crate) fn copy_buffers(buffers: &Vec<Buffer>) -> (copies: Vec<Buffer>)
    ensures
        same_buffers(buffers@, copies@),
{
    let mut copies: Vec<Buffer> = Vec::with_capacity(buffers.len());
    let mut k: usize = 0;
    while k < buffers.len()
        invariant
            k <= buffers@.len(),
            same_buffers(buffers@.subrange(0, k as int), copies@),
        decreases buffers@.len() - k,
    {
        copies.push(buffers[k].clone());
        k += 1;
    }
    assert(buffers@.subrange(0, k as int) =~= buffers@);
    copies
}

/// Takes from an array of views. The views are taken, and every data buffer is kept.
pub fn take_byte_view(
    array: &Array,
    views: &Vec<u128>,
    buffers: &Vec<Buffer>,
    indices: &Indices,
) -> (taken: Array)
    requires
        array.wf(),
        array.values == (Values::Views { views: *views, buffers: *buffers }),
        indices.wf(),
        indices@.below(array.len as int),
    ensures
        takes(*array, indices@, taken),
        arranged(*array, indices@, bits_of(indices.nulls), taken),
{
    let ghost ix = indices@;
    let new_views = take_native(views, indices, 0);
    let new_buffers = copy_buffers(buffers);
    let taken = Array {
        data_type: share(&array.data_type),
        len: indices.len(),
        nulls: take_nulls(&array.nulls, indices),
        values: Values::Views { views: new_views, buffers: new_buffers },
    };
    proof {
        lemma_taken_nulls(array.bits(), *indices, array.len as int);
        assert forall|i: int| 0 <= i < ix.len() implies view_valid(
            #[trigger] new_views@[i],
            new_buffers@,
        ) && (ix.valid[i] ==> view_bytes(new_views@[i], new_buffers@) == view_bytes(
            views@[ix.raw[i] as int],
            buffers@,
        )) by {
            if ix.raw[i] < views@.len() {
                lemma_same_buffers(buffers@, new_buffers@, views@[ix.raw[i] as int]);
            } else {
                lemma_zero_view(new_buffers@);
            }
        }
    }
    taken
}

/// Takes from a dictionary array: from its keys. The dictionary is shared.
pub fn take_dict(
    array: &Array,
    key_type: IntType,
    keys: &Native,
    dictionary: &ArrayRef,
    indices: &Indices,
) -> (taken: Array)
    requires
        array.wf(),
        array.values == (Values::Dictionary { key_type, keys: *keys, dictionary: *dictionary }),
        indices.wf(),
        indices@.below(array.len as int),
    ensures
        takes(*array, indices@, taken),
        arranged(*array, indices@, bits_of(indices.nulls), taken),
{
    let ghost ix = indices@;
    let new_keys = keys.take(indices);
    let taken = Array {
        data_type: share(&array.data_type),
        len: indices.len(),
        nulls: take_nulls(&array.nulls, indices),
        values: Values::Dictionary { key_type, keys: new_keys, dictionary: share(dictionary) },
    };
    proof {
        lemma_taken_nulls(array.bits(), *indices, array.len as int);
        assert forall|i: int| 0 <= i < ix.len() && valid_in(taken.bits(), i) implies 0
            <= key_type.value_of((#[trigger] new_keys.at(i)).0) < dictionary.len by {
            let raw = ix.raw[i] as int;
            assert(ix.valid[i] && valid_in(array.bits(), raw));
            assert(new_keys.at(i) == keys.at(raw));
        }
    }
    taken
}

/// Takes from a list view array: from its offsets and sizes. The child is shared.
pub fn take_list_view(
    array: &Array,
    offsets: &Offsets,
    sizes: &Offsets,
    child: &ArrayRef,
    indices: &Indices,
) -> (taken: Array)
    requires
        array.wf(),
        array.values == (Values::ListView { offsets: *offsets, sizes: *sizes, child: *child }),
        indices.wf(),
        indices@.below(array.len as int),
    ensures
        takes(*array, indices@, taken),
        arranged(*array, indices@, bits_of(indices.nulls), taken),
{
    let ghost ix = indices@;
    let new_offsets = offsets.take(indices);
    let new_sizes = sizes.take(indices);
    let taken = Array {
        data_type: share(&array.data_type),
        len: indices.len(),
        nulls: drop_if_all_valid(take_nulls(&array.nulls, indices)),
        values: Values::ListView {
            offsets: new_offsets,
            sizes: new_sizes,
            child: share(child),
        },
    };
    proof {
        lemma_taken_nulls(array.bits(), *indices, array.len as int);
        lemma_only_with_nulls(
            taken_nulls(array.bits(), bits_of(indices.nulls), ix),
            ix.len() as int,
        );
        assert(offsets.spans(*sizes, array.len as nat, child.len as nat));
        assert forall|i: int| 0 <= i < ix.len() implies {
            &&& 0 <= #[trigger] new_offsets.at(i)
            &&& 0 <= #[trigger] new_sizes.at(i)
            &&& new_offsets.at(i) + new_sizes.at(i) <= child.len
        } by {
            let raw = ix.raw[i] as int;
            if raw < array.len {
                assert(0 <= offsets.at(raw) && 0 <= sizes.at(raw));
            }
        }
        assert forall|i: int| 0 <= i < ix.len() implies #[trigger] taken.row(i) == picked(
            *array,
            ix.raw[i] as int,
            ix.valid[i],
        ) by {
            let raw = ix.raw[i] as int;
            let marked = taken_nulls(array.bits(), bits_of(indices.nulls), ix);
            assert(valid_in(marked, i) == (ix.valid[i] && valid_in(array.bits(), raw)));
            assert(valid_in(taken.bits(), i) == (ix.valid[i] && valid_in(array.bits(), raw)));
            if ix.valid[i] && valid_in(array.bits(), raw) {
                assert(new_offsets.at(i) == offsets.at(raw));
                assert(new_sizes.at(i) == sizes.at(raw));
            }
        }
    }
    taken
}

} // verus!
