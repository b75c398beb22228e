//! Sets of bit positions listed in ascending order, and counted.
use vstd::prelude::*;
use vstd::set_lib::set_int_range;

verus! {

/// The members of `s` from `lo` up to and without `hi`, in ascending order.
pub open spec fn ascending(s: Set<int>, lo: int, hi: int) -> Seq<int>
    decreases hi - lo,
{
    if lo >= hi {
        Seq::empty()
    } else if s.contains(hi - 1) {
        ascending(s, lo, hi - 1).push(hi - 1)
    } else {
        ascending(s, lo, hi - 1)
    }
}

/// The members of `s` that can index a bit, in ascending order.
pub open spec fn listing(s: Set<int>) -> Seq<int> {
    ascending(s, 0, usize::MAX + 1)
}

/// Whether every member of `s` can index a bit.
pub open spec fn indexable(s: Set<int>) -> bool {
    forall|i: int| #[trigger] s.contains(i) ==> 0 <= i <= usize::MAX
}

/// Whether `i` is the least member of `s`.
pub open spec fn is_least(s: Set<int>, i: int) -> bool {
    &&& s.contains(i)
    &&& forall|j: int| #[trigger] s.contains(j) ==> i <= j
}

/// Whether `i` is the greatest member of `s`.
pub open spec fn is_greatest(s: Set<int>, i: int) -> bool {
    &&& s.contains(i)
    &&& forall|j: int| #[trigger] s.contains(j) ==> j <= i
}

/// `ascending` holds each member in its bounds once, and its items ascend.
pub proof fn lemma_ascending(s: Set<int>, lo: int, hi: int)
    ensures
        forall|x: int| #[trigger]
            ascending(s, lo, hi).contains(x) <==> lo <= x < hi && s.contains(x),
        forall|a: int, b: int|
            0 <= a < b < ascending(s, lo, hi).len() ==> #[trigger] ascending(s, lo, hi)[a]
                < #[trigger] ascending(s, lo, hi)[b],
        forall|a: int|
            0 <= a < ascending(s, lo, hi).len() ==> lo <= #[trigger] ascending(s, lo, hi)[a] < hi,
    decreases hi - lo,
{
    if lo < hi {
        lemma_ascending(s, lo, hi - 1);
        let p = ascending(s, lo, hi - 1);
        let q = ascending(s, lo, hi);
        assert forall|x: int| #[trigger] q.contains(x) <==> lo <= x < hi && s.contains(x) by {
            assert(p.contains(x) <==> lo <= x < hi - 1 && s.contains(x));
            if p.contains(x) {
                let a = p.index_of(x);
                assert(q[a] == x);
            }
            if s.contains(hi - 1) {
                assert(q[q.len() - 1] == hi - 1);
                if q.contains(x) && x != hi - 1 {
                    let a = q.index_of(x);
                    assert(p[a] == x);
                }
            }
        }
    }
}

/// Two sets that agree between the bounds are listed alike.
pub proof fn lemma_ascending_congruent(s: Set<int>, t: Set<int>, lo: int, hi: int)
    requires
        forall|x: int| lo <= x < hi ==> s.contains(x) == t.contains(x),
    ensures
        ascending(s, lo, hi) == ascending(t, lo, hi),
    decreases hi - lo,
{
    if lo < hi {
        lemma_ascending_congruent(s, t, lo, hi - 1);
    }
}

pub proof fn lemma_ascending_split(s: Set<int>, lo: int, mid: int, hi: int)
    requires
        lo <= mid <= hi,
    ensures
        ascending(s, lo, hi) == ascending(s, lo, mid) + ascending(s, mid, hi),
    decreases hi - mid,
{
    if mid < hi {
        lemma_ascending_split(s, lo, mid, hi - 1);
    }
    assert(ascending(s, lo, hi) =~= ascending(s, lo, mid) + ascending(s, mid, hi));
}

pub proof fn lemma_ascending_none(s: Set<int>, lo: int, hi: int)
    requires
        forall|x: int| lo <= x < hi ==> !s.contains(x),
    ensures
        ascending(s, lo, hi) == Seq::<int>::empty(),
    decreases hi - lo,
{
    if lo < hi {
        lemma_ascending_none(s, lo, hi - 1);
    }
}

/// There are no more items than integers between the bounds.
pub proof fn lemma_ascending_bound(s: Set<int>, lo: int, hi: int)
    requires
        lo <= hi,
    ensures
        ascending(s, lo, hi).len() <= hi - lo,
    decreases hi - lo,
{
    if lo < hi {
        lemma_ascending_bound(s, lo, hi - 1);
    }
}

/// A set moved by `lo` has as many members.
pub proof fn lemma_ascending_shift(s: Set<int>, t: Set<int>, lo: int, n: int)
    requires
        forall|x: int| 0 <= x < n ==> s.contains(lo + x) == #[trigger] t.contains(x),
    ensures
        ascending(s, lo, lo + n).len() == ascending(t, 0, n).len(),
    decreases n,
{
    if n > 0 {
        lemma_ascending_shift(s, t, lo, n - 1);
        assert(s.contains(lo + (n - 1)) == t.contains(n - 1));
    }
}

/// `ascending` has as many items as the set has members, where all lie between
/// the bounds; such a set is finite.
pub proof fn lemma_ascending_len(s: Set<int>, lo: int, hi: int)
    requires
        forall|x: int| #[trigger] s.contains(x) ==> lo <= x < hi,
    ensures
        s.finite(),
        ascending(s, lo, hi).len() == s.len(),
    decreases hi - lo,
{
    if lo >= hi {
        assert(s =~= Set::empty());
    } else {
        let t = s.remove(hi - 1);
        lemma_ascending_len(t, lo, hi - 1);
        lemma_ascending_congruent(s, t, lo, hi - 1);
        if s.contains(hi - 1) {
            assert(s =~= t.insert(hi - 1));
        } else {
            assert(s =~= t);
        }
    }
}

/// There are no more items than the set has room for.
pub proof fn lemma_ascending_within(s: Set<int>, lo: int, hi: int, top: int)
    requires
        0 <= lo <= hi,
        0 <= top,
        s.subset_of(set_int_range(0, top)),
    ensures
        ascending(s, lo, hi).len() <= top,
{
    if hi <= top {
        lemma_ascending_bound(s, lo, hi);
    } else if lo <= top {
        lemma_ascending_split(s, lo, top, hi);
        lemma_ascending_bound(s, lo, top);
        lemma_ascending_none(s, top, hi);
    } else {
        lemma_ascending_none(s, lo, hi);
    }
}

/// The listing of a set of indices has as many items as the set has members.
pub proof fn lemma_listing_len(s: Set<int>)
    requires
        indexable(s),
    ensures
        s.finite(),
        listing(s).len() == s.len(),
{
    lemma_ascending_len(s, 0, usize::MAX + 1);
}

/// The listing of no indices is empty.
pub proof fn lemma_listing_none(s: Set<int>)
    requires
        s == Set::<int>::empty(),
    ensures
        listing(s) == Seq::<int>::empty(),
{
    lemma_ascending_none(s, 0, usize::MAX + 1);
}

/// The least member comes first in the listing.
pub proof fn lemma_listing_pop(s: Set<int>, x: int)
    requires
        s.contains(x),
        0 <= x <= usize::MAX,
        forall|y: int| 0 <= y < x ==> !s.contains(y),
    ensures
        listing(s) == seq![x] + listing(s.remove(x)),
{
    let t = s.remove(x);
    let top = usize::MAX + 1;
    lemma_ascending_split(s, 0, x, top);
    lemma_ascending_split(s, x, x + 1, top);
    lemma_ascending_none(s, 0, x);
    assert(ascending(s, x, x) =~= Seq::empty());
    assert(ascending(s, x, x + 1) =~= seq![x]);
    lemma_ascending_split(t, 0, x + 1, top);
    lemma_ascending_none(t, 0, x + 1);
    lemma_ascending_congruent(s, t, x + 1, top);
    assert(listing(s) =~= seq![x] + listing(t));
}

/// The greatest member comes last in the listing.
pub proof fn lemma_listing_pop_back(s: Set<int>, x: int)
    requires
        s.contains(x),
        0 <= x <= usize::MAX,
        forall|y: int| x < y <= usize::MAX ==> !s.contains(y),
    ensures
        listing(s) == listing(s.remove(x)).push(x),
{
    let t = s.remove(x);
    let top = usize::MAX + 1;
    lemma_ascending_split(s, 0, x + 1, top);
    lemma_ascending_none(s, x + 1, top);
    lemma_ascending_split(t, 0, x, top);
    lemma_ascending_none(t, x, top);
    lemma_ascending_congruent(s, t, 0, x);
    assert(listing(s) =~= listing(t).push(x));
}

} // verus!
