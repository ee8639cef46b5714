# arrow_take

Selection by index from columnar arrays: `take` gives, for each index, the slot at that position.

The library in `src/` is verified with Verus. It works on arrays of its own (`array`), whose
validity bitmaps and view buffers are those of `arrow_buffer`. `app/` offers the same calls on
Arrow's arrays: it reads them into the library's types and builds Arrow arrays from the results.

* `array`, `datatype`, `validity`, `views`, `buffers`: arrays, the rows that they hold, and what
  makes them well-formed.
* `indices`: the positions that index arrays stand for, and the check of their bounds.
* `selection`, `layout`: what taking from an array gives, when it fails, and how the result is laid
  out, for every kind of array.
* `flat`, `primitive`, `bytes`, `fixed`, `list`, `run`, `union`, `empty`: a kernel for each kind.
* `slices`, `copy`: copying slices of an array, which is how the items of lists are taken.
* `compact`, `deep`: bounding what view arrays keep alive.
* `take`, `batch`: the entry points.
* `error`, `text`: why a selection fails, and how that reads.
* `laws`, `inverse`, `retention`: what holds of selections as a whole, of taking back by an inverse
  permutation, and of what compaction leaves.
