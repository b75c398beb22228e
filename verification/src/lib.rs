//! Borrowed views of bit sets of a fixed size that are stored as words.
//!
//! [`FixedBitSlice`] reads a set, [`FixedBitSliceMut`] changes it, and
//! [`FixedBitSet`] owns one.
pub mod bitset;
pub mod block;
pub mod iter;
pub mod laws;
pub mod listing;
pub mod range;
pub mod simd;
pub mod slice;
pub mod slice_mut;
pub mod storage;

pub use bitset::FixedBitSet;
pub use block::Block;
pub use iter::{Difference, Intersection, Ones, SymmetricDifference, Union, Zeroes};
pub use range::{IndexRange, Masks};
pub use simd::SimdBlock;
pub use slice::FixedBitSlice;
pub use slice_mut::FixedBitSliceMut;
