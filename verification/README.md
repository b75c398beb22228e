# fixedbitset

Borrowed views of bit sets of a fixed size, verified with Verus.

- `src/block.rs`: words, their bits, and the arithmetic of bit positions
- `src/storage.rs`: sequences of words as sets of positions
- `src/listing.rs`: sets of positions in ascending order, and counted
- `src/range.rs`: ranges of positions and the word masks that cover them
- `src/simd.rs`: groups of words that are examined together
- `src/slice.rs`: `FixedBitSlice`, which reads a set
- `src/slice_mut.rs`: `FixedBitSliceMut`, which changes one
- `src/bitset.rs`: `FixedBitSet`, which owns one
- `src/iter.rs`: lazy walks over one set or two
- `src/laws.rs`: what holds across the operations

Contracts speak of `s@`, the set of positions below the length whose bit is set.
The last word may store bits past the length; they are never part of the set, and
changes to the set leave them as they are.

Three functions of the standard library are taken at their word:
`usize::count_ones`, `usize::trailing_zeros` and `usize::leading_zeros`.
