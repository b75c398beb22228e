//! Groups of words that are examined together.
use crate::block::Block;
use vstd::prelude::*;

verus! {

/// The number of words in a group.
pub const SIMD_LANES: usize = 2;

/// A group of words.
#[derive(Debug, Clone, Copy)]
pub struct SimdBlock {
    lanes: [Block; SIMD_LANES],
}

impl View for SimdBlock {
    type V = Seq<Block>;

    closed spec fn view(&self) -> Seq<Block> {
        self.lanes@
    }
}

impl SimdBlock {
    /// The group of the given words.
    pub fn new(lanes: [Block; SIMD_LANES]) -> (r: SimdBlock)
        ensures
            r@ == lanes@,
    {
        SimdBlock { lanes }
    }

    /// Whether no bit of the group is set.
    pub fn is_empty(self) -> (r: bool)
        ensures
            r <==> (forall|j: int| 0 <= j < SIMD_LANES ==> self@[j] == 0),
    {
        let mut j: usize = 0;
        while j < SIMD_LANES
            invariant
                j <= SIMD_LANES,
                forall|i: int| 0 <= i < j ==> self@[i] == 0,
            decreases SIMD_LANES - j,
        {
            if self.lanes[j] != 0 {
                assert(self@[j as int] != 0);
                return false;
            }
            j += 1;
        }
        true
    }

    /// The words of the group.
    pub fn into_usize_array(self) -> (r: [Block; SIMD_LANES])
        ensures
            r@ == self@,
    {
        self.lanes
    }

    /// The bits that are set in both groups.
    pub fn bitand(self, other: SimdBlock) -> (r: SimdBlock)
        ensures
            forall|j: int| 0 <= j < SIMD_LANES ==> #[trigger] r@[j] == self@[j] & other@[j],
    {
        SimdBlock { lanes: [self.lanes[0] & other.lanes[0], self.lanes[1] & other.lanes[1]] }
    }

    /// The bits that are set in this group and not in the other.
    pub fn andnot(self, other: SimdBlock) -> (r: SimdBlock)
        ensures
            forall|j: int| 0 <= j < SIMD_LANES ==> #[trigger] r@[j] == self@[j] & !other@[j],
    {
        SimdBlock { lanes: [self.lanes[0] & !other.lanes[0], self.lanes[1] & !other.lanes[1]] }
    }
}

} // verus!
