//! Bubble sort.

use vstd::prelude::*;
use crate::order::Ordered;
use crate::order::equiv_to;
use crate::order::lemma_adjacent_sorted;
use crate::order::sorted;
use crate::perm::lemma_swap_adjacent_equiv;
use crate::perm::swap_at;

verus! {

/// How many elements of `s` sort strictly after `x`.
spec fn count_gt<T: Ordered>(s: Seq<T>, x: T) -> nat
    decreases s.len(),
{
    if s.len() == 0 {
        0
    } else {
        count_gt(s.drop_last(), x) + if s.last().le_spec(x) {
            0nat
        } else {
            1nat
        }
    }
}

/// The number of inverted pairs of `s`: pairs of positions whose earlier
/// element sorts strictly after the later one. Each exchange of an inverted
/// adjacent pair lowers it by one, which is what bounds how long bubble
/// sort can keep making passes.
spec fn inversions<T: Ordered>(s: Seq<T>) -> nat
    decreases s.len(),
{
    if s.len() == 0 {
        0
    } else {
        inversions(s.drop_last()) + count_gt(s.drop_last(), s.last())
    }
}

/// Exchanging two adjacent elements changes no `count_gt`.
proof fn lemma_count_gt_swap<T: Ordered>(s: Seq<T>, k: int, x: T)
    requires
        0 <= k,
        k + 1 < s.len(),
    ensures
        count_gt(s.update(k, s[k + 1]).update(k + 1, s[k]), x) == count_gt(s, x),
    decreases s.len(),
{
    let t = s.update(k, s[k + 1]).update(k + 1, s[k]);
    if k + 1 == s.len() - 1 {
        let u = s.drop_last().drop_last();
        let a = s[k];
        let b = s[k + 1];
        assert(s.drop_last() =~= u.push(a));
        assert(t.drop_last() =~= u.push(b));
        assert(u.push(a).drop_last() =~= u);
        assert(u.push(b).drop_last() =~= u);
        assert(count_gt(s, x) == count_gt(u.push(a), x) + if b.le_spec(x) {
            0nat
        } else {
            1nat
        });
        assert(count_gt(u.push(a), x) == count_gt(u, x) + if a.le_spec(x) {
            0nat
        } else {
            1nat
        });
        assert(count_gt(t, x) == count_gt(u.push(b), x) + if a.le_spec(x) {
            0nat
        } else {
            1nat
        });
        assert(count_gt(u.push(b), x) == count_gt(u, x) + if b.le_spec(x) {
            0nat
        } else {
            1nat
        });
    } else {
        assert(t.drop_last() =~= s.drop_last().update(k, s[k + 1]).update(k + 1, s[k]));
        assert(t.last() == s.last());
        lemma_count_gt_swap(s.drop_last(), k, x);
        assert(count_gt(t, x) == count_gt(t.drop_last(), x) + if t.last().le_spec(x) {
            0nat
        } else {
            1nat
        });
        assert(count_gt(s, x) == count_gt(s.drop_last(), x) + if s.last().le_spec(x) {
            0nat
        } else {
            1nat
        });
    }
}

/// Exchanging an inverted adjacent pair lowers the inversion count by one.
proof fn lemma_swap_lowers_inversions<T: Ordered>(s: Seq<T>, k: int)
    requires
        0 <= k,
        k + 1 < s.len(),
        !s[k].le_spec(s[k + 1]),
    ensures
        inversions(s.update(k, s[k + 1]).update(k + 1, s[k])) + 1 == inversions(s),
    decreases s.len(),
{
    let t = s.update(k, s[k + 1]).update(k + 1, s[k]);
    T::lemma_total(s[k], s[k + 1]);
    if k + 1 == s.len() - 1 {
        let u = s.drop_last().drop_last();
        let a = s[k];
        let b = s[k + 1];
        assert(s.drop_last() =~= u.push(a));
        assert(t.drop_last() =~= u.push(b));
        assert(u.push(a).drop_last() =~= u);
        assert(u.push(b).drop_last() =~= u);
        assert(inversions(s) == inversions(u.push(a)) + count_gt(u.push(a), b));
        assert(inversions(u.push(a)) == inversions(u) + count_gt(u, a));
        assert(count_gt(u.push(a), b) == count_gt(u, b) + 1);
        assert(inversions(t) == inversions(u.push(b)) + count_gt(u.push(b), a));
        assert(inversions(u.push(b)) == inversions(u) + count_gt(u, b));
        assert(count_gt(u.push(b), a) == count_gt(u, a));
    } else {
        assert(t.drop_last() =~= s.drop_last().update(k, s[k + 1]).update(k + 1, s[k]));
        assert(t.last() == s.last());
        lemma_swap_lowers_inversions(s.drop_last(), k);
        lemma_count_gt_swap(s.drop_last(), k, s.last());
        assert(inversions(t) == inversions(t.drop_last()) + count_gt(t.drop_last(), t.last()));
        assert(inversions(s) == inversions(s.drop_last()) + count_gt(s.drop_last(), s.last()));
    }
}

/// Sorts the vector in place by bubble sort: full left-to-right passes
/// exchange each adjacent pair that is out of order, and the passes repeat
/// until one completes without a single exchange. Stable, in-place, and a
/// single pass suffices on already sorted input.
///
/// Afterwards the vector is in non-descending order and holds the same
/// multiset of elements as before; and the sort is stable — every
/// equivalence class of the order keeps its members in their original
/// relative order.
pub fn bubble_sort<T: Ordered>(data: &mut Vec<T>)
    ensures
        final(data)@.len() == old(data)@.len(),
        sorted(final(data)@),
        final(data)@.to_multiset() == old(data)@.to_multiset(),
        forall|k: T| #[trigger] final(data)@.filter(equiv_to(k)) == old(data)@.filter(
            equiv_to(k),
        ),
{
    let n = data.len();
    let mut swapped: bool;
    loop
        invariant
            n == data@.len() == old(data)@.len(),
            data@.to_multiset() == old(data)@.to_multiset(),
            forall|k: T| #[trigger] data@.filter(equiv_to(k)) == old(data)@.filter(equiv_to(k)),
        ensures
            sorted(data@),
        decreases inversions(data@),
    {
        swapped = false;
        let ghost start = data@;
        let mut i: usize = 1;
        while i < n
            invariant
                1 <= i,
                i <= n || n == 0,
                n == data@.len() == old(data)@.len(),
                data@.to_multiset() == old(data)@.to_multiset(),
                forall|k: T| #[trigger] data@.filter(equiv_to(k)) == old(data)@.filter(
                    equiv_to(k),
                ),
                swapped ==> inversions(data@) < inversions(start),
                !swapped ==> data@ == start,
                !swapped ==> forall|m: int|
                    1 <= m < i ==> #[trigger] data@[m - 1].le_spec(data@[m]),
            decreases n - i,
        {
            if !data[i - 1].le(data[i]) {
                proof {
                    lemma_swap_lowers_inversions(data@, i as int - 1);
                    lemma_swap_adjacent_equiv(data@, i as int - 1);
                }
                swap_at(data, i - 1, i);
                swapped = true;
            }
            i += 1;
        }
        if !swapped {
            proof {
                let s = data@;
                assert forall|m: int| 0 <= m < n - 1 implies #[trigger] s[m].le_spec(
                    s[m + 1],
                ) by {
                    assert(s[(m + 1) - 1].le_spec(s[m + 1]));
                }
                lemma_adjacent_sorted(s, 0, n as int);
            }
            break;
        }
    }
}

} // verus!
