//! Quick sort.

use vstd::prelude::*;
use crate::order::Ordered;
use crate::order::sorted;
use crate::order::sorted_range;
use crate::perm::lemma_ms_of_add;
use crate::perm::lemma_perm_all;
use crate::perm::swap_at;

verus! {

/// Sorts the vector in place by quick sort with Lomuto partitioning: each
/// range is split around its last element as pivot, and the two sides are
/// sorted recursively. In-place, not stable; the fixed last-element pivot
/// makes already sorted or reversed input its quadratic worst case, a
/// deliberate property of the classic scheme.
///
/// Afterwards the vector is in non-descending order and holds the same
/// multiset of elements as before.
pub fn quick_sort<T: Ordered>(data: &mut Vec<T>)
    ensures
        final(data)@.len() == old(data)@.len(),
        sorted(final(data)@),
        final(data)@.to_multiset() == old(data)@.to_multiset(),
{
    let n = data.len();
    quick_sort_range(data, 0, n);
    proof {
        assert(old(data)@.subrange(0, n as int) =~= old(data)@);
        assert(data@.subrange(0, n as int) =~= data@);
    }
}

/// Sorts `data` between positions `lo` (inclusive) and `hi` (exclusive),
/// touching nothing outside that range.
fn quick_sort_range<T: Ordered>(data: &mut Vec<T>, lo: usize, hi: usize)
    requires
        lo <= hi <= old(data)@.len(),
    ensures
        final(data)@.len() == old(data)@.len(),
        forall|k: int|
            0 <= k < old(data)@.len() && !(lo <= k < hi) ==> final(data)@[k] == old(data)@[k],
        sorted_range(final(data)@, lo as int, hi as int),
        final(data)@.subrange(lo as int, hi as int).to_multiset() == old(data)@.subrange(
            lo as int,
            hi as int,
        ).to_multiset(),
    decreases hi - lo,
{
    if hi - lo <= 1 {
        return ;
    }
    let ghost s0 = data@;
    let p = partition(data, lo, hi);
    let ghost s1 = data@;
    let ghost pv = s1[p as int];
    quick_sort_range(data, lo, p);
    let ghost s2 = data@;
    quick_sort_range(data, p + 1, hi);
    let ghost s3 = data@;
    proof {
        let l = lo as int;
        let h = hi as int;
        let pi = p as int;
        // the pivot cell is untouched by both recursive calls
        assert(s3[pi] == pv);
        // each side keeps its elements, so each side keeps its bounds
        assert(s2.subrange(l, pi).to_multiset() == s1.subrange(l, pi).to_multiset());
        assert(s3.subrange(l, pi) =~= s2.subrange(l, pi));
        let below = |x: T| !pv.le_spec(x);
        assert forall|m: int| 0 <= m < s1.subrange(l, pi).len() implies #[trigger] below(
            s1.subrange(l, pi)[m],
        ) by {
            assert(s1.subrange(l, pi)[m] == s1[l + m]);
        }
        lemma_perm_all(s1.subrange(l, pi), s3.subrange(l, pi), below);
        assert forall|k: int| l <= k < pi implies !pv.le_spec(s3[k]) by {
            assert(below(s3.subrange(l, pi)[k - l]));
            assert(s3.subrange(l, pi)[k - l] == s3[k]);
        }
        assert(s3.subrange(pi + 1, h).to_multiset() == s2.subrange(pi + 1, h).to_multiset());
        assert(s2.subrange(pi + 1, h) =~= s1.subrange(pi + 1, h));
        let above = |x: T| pv.le_spec(x);
        assert forall|m: int| 0 <= m < s1.subrange(pi + 1, h).len() implies #[trigger] above(
            s1.subrange(pi + 1, h)[m],
        ) by {
            assert(s1.subrange(pi + 1, h)[m] == s1[pi + 1 + m]);
        }
        lemma_perm_all(s1.subrange(pi + 1, h), s3.subrange(pi + 1, h), above);
        assert forall|k: int| pi < k < h implies pv.le_spec(s3[k]) by {
            assert(above(s3.subrange(pi + 1, h)[k - pi - 1]));
            assert(s3.subrange(pi + 1, h)[k - pi - 1] == s3[k]);
        }
        assert forall|a: int, b: int|
            l <= a < b < h && 0 <= a && b < s3.len() implies #[trigger] s3[a].le_spec(s3[b]) by {
            if b < pi {
                assert(s3[a].le_spec(s3[b]));
            } else if a > pi {
                assert(s3[a].le_spec(s3[b]));
            } else {
                if a < pi {
                    assert(s3.subrange(l, pi)[a - l] == s3[a]);
                    assert(!pv.le_spec(s3[a]));
                    T::lemma_total(s3[a], pv);
                }
                if b > pi {
                    assert(s3.subrange(pi + 1, h)[b - pi - 1] == s3[b]);
                    assert(pv.le_spec(s3[b]));
                }
                if a < pi && b > pi {
                    T::lemma_trans(s3[a], pv, s3[b]);
                } else if a == pi {
                    assert(s3[a] == pv);
                } else {
                    assert(b == pi);
                    assert(s3[b] == pv);
                }
            }
        }
        // the range keeps its multiset: concatenate the three pieces
        assert(s1.subrange(l, h) =~= s1.subrange(l, pi) + seq![pv] + s1.subrange(pi + 1, h));
        assert(s3.subrange(l, h) =~= s3.subrange(l, pi) + seq![pv] + s3.subrange(pi + 1, h));
        lemma_ms_of_add(s1.subrange(l, pi) + seq![pv], s1.subrange(pi + 1, h));
        lemma_ms_of_add(s1.subrange(l, pi), seq![pv]);
        lemma_ms_of_add(s3.subrange(l, pi) + seq![pv], s3.subrange(pi + 1, h));
        lemma_ms_of_add(s3.subrange(l, pi), seq![pv]);
        assert(s3.subrange(l, h).to_multiset() == s1.subrange(l, h).to_multiset());
    }
}

/// Lomuto partition of `data` between `lo` and `hi`: the range's original
/// last element is the pivot; afterwards that very element sits at the
/// returned position, with everything left of it strictly less and
/// everything from it on greater or equal. Touches nothing outside the
/// range.
fn partition<T: Ordered>(data: &mut Vec<T>, lo: usize, hi: usize) -> (p: usize)
    requires
        lo < hi <= old(data)@.len(),
    ensures
        lo <= p < hi,
        final(data)@.len() == old(data)@.len(),
        forall|k: int|
            0 <= k < old(data)@.len() && !(lo <= k < hi) ==> final(data)@[k] == old(data)@[k],
        final(data)@.subrange(lo as int, hi as int).to_multiset() == old(data)@.subrange(
            lo as int,
            hi as int,
        ).to_multiset(),
        final(data)@[p as int] == old(data)@[hi - 1],
        forall|k: int|
            lo <= k < p ==> !final(data)@[p as int].le_spec(#[trigger] final(data)@[k]),
        forall|k: int| p <= k < hi ==> final(data)@[p as int].le_spec(#[trigger] final(data)@[k]),
{
    let pivot = hi - 1;
    let ghost pv = old(data)@[pivot as int];
    let mut i = lo;
    let mut j = lo;
    while j < pivot
        invariant
            lo <= i <= j <= pivot == hi - 1 < hi <= data@.len(),
            data@.len() == old(data)@.len(),
            data@[pivot as int] == pv,
            forall|k: int|
                0 <= k < old(data)@.len() && !(lo <= k < hi) ==> data@[k] == old(data)@[k],
            data@.subrange(lo as int, hi as int).to_multiset() == old(data)@.subrange(
                lo as int,
                hi as int,
            ).to_multiset(),
            forall|k: int| lo <= k < i ==> !pv.le_spec(#[trigger] data@[k]),
            forall|k: int| i <= k < j ==> pv.le_spec(#[trigger] data@[k]),
        decreases pivot - j,
    {
        if !data[pivot].le(data[j]) {
            proof {
                let s = data@;
                let t = s.update(i as int, s[j as int]).update(j as int, s[i as int]);
                assert(t.subrange(lo as int, hi as int) =~= s.subrange(lo as int, hi as int)
                    .update(i as int - lo, s[j as int]).update(j as int - lo, s[i as int]));
                crate::perm::lemma_swap_multiset(
                    s.subrange(lo as int, hi as int),
                    i as int - lo,
                    j as int - lo,
                );
            }
            swap_at(data, i, j);
            i += 1;
        }
        j += 1;
    }
    proof {
        let s = data@;
        let t = s.update(i as int, s[pivot as int]).update(pivot as int, s[i as int]);
        assert(t.subrange(lo as int, hi as int) =~= s.subrange(lo as int, hi as int).update(
            i as int - lo,
            s[pivot as int],
        ).update(pivot as int - lo, s[i as int]));
        crate::perm::lemma_swap_multiset(
            s.subrange(lo as int, hi as int),
            i as int - lo,
            pivot as int - lo,
        );
        T::lemma_total(pv, pv);
    }
    swap_at(data, i, pivot);
    i
}

} // verus!
