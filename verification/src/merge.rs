//! Merge sort.

use vstd::prelude::*;
use vstd::multiset::group_multiset_axioms;
use vstd::seq_lib::group_to_multiset_ensures;
use crate::order::Ordered;
use crate::order::equiv_to;
use crate::order::sorted;
use crate::order::sorted_range;
use crate::perm::lemma_filter_none;
use crate::perm::lemma_filter_push;
use crate::perm::lemma_ms_of_add;

verus! {

/// Sorts the vector by merge sort: each range is split at its midpoint, the
/// halves are sorted recursively, and the sorted halves are merged through
/// an auxiliary buffer, a tie always taking the left half's element first —
/// which is what makes the procedure stable. O(n log n) always, at the cost
/// of linear auxiliary space per merge.
///
/// Afterwards the vector is in non-descending order and holds the same
/// multiset of elements as before; and the sort is stable — every
/// equivalence class of the order keeps its members in their original
/// relative order.
pub fn merge_sort<T: Ordered>(data: &mut Vec<T>)
    ensures
        final(data)@.len() == old(data)@.len(),
        sorted(final(data)@),
        final(data)@.to_multiset() == old(data)@.to_multiset(),
        forall|k: T| #[trigger] final(data)@.filter(equiv_to(k)) == old(data)@.filter(
            equiv_to(k),
        ),
{
    let n = data.len();
    merge_sort_range(data, 0, n);
    proof {
        assert(old(data)@.subrange(0, n as int) =~= old(data)@);
        assert(data@.subrange(0, n as int) =~= data@);
        assert forall|k: T| #[trigger] data@.filter(equiv_to(k)) == old(data)@.filter(
            equiv_to(k),
        ) by {
            assert(data@.subrange(0, n as int).filter(equiv_to(k)) == old(data)@.subrange(
                0,
                n as int,
            ).filter(equiv_to(k)));
        }
    }
}

/// Sorts `data` between positions `lo` (inclusive) and `hi` (exclusive),
/// touching nothing outside that range.
fn merge_sort_range<T: Ordered>(data: &mut Vec<T>, lo: usize, hi: usize)
    requires
        lo <= hi <= old(data)@.len(),
    ensures
        final(data)@.len() == old(data)@.len(),
        forall|k: int|
            0 <= k < old(data)@.len() && !(lo <= k < hi) ==> final(data)@[k] == old(data)@[k],
        sorted_range(final(data)@, lo as int, hi as int),
        final(data)@.subrange(lo as int, hi as int).to_multiset() == old(data)@.subrange(
            lo as int,
            hi as int,
        ).to_multiset(),
        forall|c: T| #[trigger] final(data)@.subrange(lo as int, hi as int).filter(equiv_to(c))
            == old(data)@.subrange(lo as int, hi as int).filter(equiv_to(c)),
    decreases hi - lo,
{
    broadcast use group_multiset_axioms;
    broadcast use group_to_multiset_ensures;

    if hi - lo <= 1 {
        return ;
    }
    let mid = lo + (hi - lo) / 2;
    let ghost s0 = data@;
    merge_sort_range(data, lo, mid);
    let ghost sa = data@;
    merge_sort_range(data, mid, hi);
    let ghost d1 = data@;
    proof {
        assert(d1.subrange(lo as int, mid as int) =~= sa.subrange(lo as int, mid as int));
        assert(sa.subrange(mid as int, hi as int) =~= s0.subrange(mid as int, hi as int));
    }

    // copy the two sorted halves out
    let mut left: Vec<T> = Vec::new();
    let mut m = lo;
    while m < mid
        invariant
            lo <= m <= mid <= hi <= data@.len(),
            data@ == d1,
            left@ == d1.subrange(lo as int, m as int),
        decreases mid - m,
    {
        proof {
            assert(d1.subrange(lo as int, m as int + 1) =~= d1.subrange(lo as int, m as int).push(
                d1[m as int],
            ));
        }
        left.push(data[m]);
        m += 1;
    }
    let mut right: Vec<T> = Vec::new();
    let mut m = mid;
    while m < hi
        invariant
            mid <= m <= hi <= data@.len(),
            data@ == d1,
            right@ == d1.subrange(mid as int, m as int),
        decreases hi - m,
    {
        proof {
            assert(d1.subrange(mid as int, m as int + 1) =~= d1.subrange(mid as int, m as int).push(
                d1[m as int],
            ));
        }
        right.push(data[m]);
        m += 1;
    }
    let llen = left.len();
    let rlen = right.len();
    proof {
        assert forall|a: int, b: int|
            0 <= a < b < llen && b < left@.len() implies #[trigger] left@[a].le_spec(
            left@[b],
        ) by {
            assert(d1[lo + a].le_spec(d1[lo + b]));
        }
        assert forall|a: int, b: int|
            0 <= a < b < rlen && b < right@.len() implies #[trigger] right@[a].le_spec(
            right@[b],
        ) by {
            assert(d1[mid + a].le_spec(d1[mid + b]));
        }
        assert(d1.subrange(lo as int, lo as int) + right@.subrange(0, 0) =~= Seq::<T>::empty());
        assert(data@.subrange(lo as int, lo as int) =~= Seq::<T>::empty());
        assert(Seq::<T>::empty().to_multiset() =~= (left@.subrange(0, 0) + right@.subrange(
            0,
            0,
        )).to_multiset());
        assert forall|c: T| #[trigger] data@.subrange(lo as int, lo as int).filter(equiv_to(c))
            == left@.subrange(0, 0).filter(equiv_to(c)) + right@.subrange(0, 0).filter(
            equiv_to(c),
        ) by {
            lemma_filter_none(data@.subrange(lo as int, lo as int), equiv_to(c));
            lemma_filter_none(left@.subrange(0, 0), equiv_to(c));
            lemma_filter_none(right@.subrange(0, 0), equiv_to(c));
            assert(Seq::<T>::empty() + Seq::<T>::empty() =~= Seq::<T>::empty());
        }
    }

    // merge the halves back into the range, ties taking the left element
    let mut i: usize = 0;
    let mut j: usize = 0;
    let mut k = lo;
    while i < llen && j < rlen
        invariant
            i <= llen == left@.len(),
            j <= rlen == right@.len(),
            lo <= k <= hi <= data@.len(),
            k == lo + i + j,
            llen + rlen == hi - lo,
            data@.len() == d1.len(),
            sorted(left@),
            sorted(right@),
            forall|w: int| 0 <= w < data@.len() && !(lo <= w < k) ==> data@[w] == d1[w],
            sorted_range(data@, lo as int, k as int),
            forall|w: int|
                lo <= w < k && i < llen ==> #[trigger] data@[w].le_spec(left@[i as int]),
            forall|w: int|
                lo <= w < k && j < rlen ==> #[trigger] data@[w].le_spec(right@[j as int]),
            data@.subrange(lo as int, k as int).to_multiset() == (left@.subrange(0, i as int)
                + right@.subrange(0, j as int)).to_multiset(),
            forall|m: int|
                0 <= m < j && i < llen ==> !left@[i as int].le_spec(#[trigger] right@[m]),
            forall|c: T| #[trigger] data@.subrange(lo as int, k as int).filter(equiv_to(c))
                == left@.subrange(0, i as int).filter(equiv_to(c)) + right@.subrange(
                0,
                j as int,
            ).filter(equiv_to(c)),
        decreases llen + rlen - i - j,
    {
        if left[i].le(right[j]) {
            proof {
                lemma_merge_take_left(data@, left@, right@, lo as int, k as int, i as int, j as int);
            }
            data[k] = left[i];
            i += 1;
        } else {
            proof {
                T::lemma_total(left@[i as int], right@[j as int]);
                lemma_merge_take_right(
                    data@,
                    left@,
                    right@,
                    lo as int,
                    k as int,
                    i as int,
                    j as int,
                );
            }
            data[k] = right[j];
            j += 1;
        }
        k += 1;
    }
    // drain whichever half still has elements
    while i < llen
        invariant
            i <= llen == left@.len(),
            j <= rlen == right@.len(),
            i < llen ==> j == rlen,
            lo <= k <= hi <= data@.len(),
            k == lo + i + j,
            llen + rlen == hi - lo,
            data@.len() == d1.len(),
            sorted(left@),
            sorted(right@),
            forall|w: int| 0 <= w < data@.len() && !(lo <= w < k) ==> data@[w] == d1[w],
            sorted_range(data@, lo as int, k as int),
            forall|w: int|
                lo <= w < k && i < llen ==> #[trigger] data@[w].le_spec(left@[i as int]),
            forall|w: int|
                lo <= w < k && j < rlen ==> #[trigger] data@[w].le_spec(right@[j as int]),
            data@.subrange(lo as int, k as int).to_multiset() == (left@.subrange(0, i as int)
                + right@.subrange(0, j as int)).to_multiset(),
            forall|m: int|
                0 <= m < j && i < llen ==> !left@[i as int].le_spec(#[trigger] right@[m]),
            forall|c: T| #[trigger] data@.subrange(lo as int, k as int).filter(equiv_to(c))
                == left@.subrange(0, i as int).filter(equiv_to(c)) + right@.subrange(
                0,
                j as int,
            ).filter(equiv_to(c)),
        decreases llen - i,
    {
        proof {
            lemma_merge_take_left(data@, left@, right@, lo as int, k as int, i as int, j as int);
        }
        data[k] = left[i];
        i += 1;
        k += 1;
    }
    while j < rlen
        invariant
            i == llen == left@.len(),
            j <= rlen == right@.len(),
            lo <= k <= hi <= data@.len(),
            k == lo + i + j,
            llen + rlen == hi - lo,
            data@.len() == d1.len(),
            sorted(left@),
            sorted(right@),
            forall|w: int| 0 <= w < data@.len() && !(lo <= w < k) ==> data@[w] == d1[w],
            sorted_range(data@, lo as int, k as int),
            forall|w: int|
                lo <= w < k && j < rlen ==> #[trigger] data@[w].le_spec(right@[j as int]),
            data@.subrange(lo as int, k as int).to_multiset() == (left@.subrange(0, i as int)
                + right@.subrange(0, j as int)).to_multiset(),
            forall|m: int|
                0 <= m < j && i < llen ==> !left@[i as int].le_spec(#[trigger] right@[m]),
            forall|c: T| #[trigger] data@.subrange(lo as int, k as int).filter(equiv_to(c))
                == left@.subrange(0, i as int).filter(equiv_to(c)) + right@.subrange(
                0,
                j as int,
            ).filter(equiv_to(c)),
        decreases rlen - j,
    {
        proof {
            lemma_merge_take_right(data@, left@, right@, lo as int, k as int, i as int, j as int);
        }
        data[k] = right[j];
        j += 1;
        k += 1;
    }
    proof {
        let l = lo as int;
        let md = mid as int;
        let h = hi as int;
        assert(left@.subrange(0, llen as int) =~= left@);
        assert(right@.subrange(0, rlen as int) =~= right@);
        assert(left@ + right@ =~= d1.subrange(l, h));
        lemma_ms_of_add(left@, right@);
        lemma_ms_of_add(d1.subrange(l, md), d1.subrange(md, h));
        lemma_ms_of_add(s0.subrange(l, md), s0.subrange(md, h));
        assert(d1.subrange(l, md) + d1.subrange(md, h) =~= d1.subrange(l, h));
        assert(s0.subrange(l, md) + s0.subrange(md, h) =~= s0.subrange(l, h));
        assert(data@.subrange(l, h).to_multiset() == s0.subrange(l, h).to_multiset());
        // each class's subsequence is the left half's followed by the right
        // half's, for the output as for the original range
        assert forall|c: T| #[trigger] data@.subrange(l, h).filter(equiv_to(c)) == s0.subrange(
            l,
            h,
        ).filter(equiv_to(c)) by {
            let p = equiv_to(c);
            assert(data@.subrange(l, h).filter(p) == left@.subrange(0, llen as int).filter(p)
                + right@.subrange(0, rlen as int).filter(p));
            assert(left@.filter(p) == sa.subrange(l, md).filter(p));
            assert(sa.subrange(l, md).filter(p) == s0.subrange(l, md).filter(p));
            assert(d1.subrange(md, h).filter(p) == sa.subrange(md, h).filter(p));
            assert(right@.filter(p) == s0.subrange(md, h).filter(p));
            Seq::filter_distributes_over_add(s0.subrange(l, md), s0.subrange(md, h), p);
        }
    }
}

/// One merge step that takes the left half's next element: writing it at
/// position `k` keeps the written region sorted, bounded by both halves'
/// fronts, and equal as a multiset to what has been consumed.
proof fn lemma_merge_take_left<T: Ordered>(
    s: Seq<T>,
    left: Seq<T>,
    right: Seq<T>,
    lo: int,
    k: int,
    i: int,
    j: int,
)
    requires
        0 <= lo <= k,
        k == lo + i + j,
        k < s.len(),
        sorted(left),
        sorted(right),
        0 <= i < left.len(),
        0 <= j <= right.len(),
        j < right.len() ==> left[i].le_spec(right[j]),
        sorted_range(s, lo, k),
        forall|w: int| lo <= w < k && i < left.len() ==> #[trigger] s[w].le_spec(left[i]),
        forall|w: int| lo <= w < k && j < right.len() ==> #[trigger] s[w].le_spec(right[j]),
        s.subrange(lo, k).to_multiset() == (left.subrange(0, i) + right.subrange(
            0,
            j,
        )).to_multiset(),
        forall|m: int| 0 <= m < j ==> !left[i].le_spec(#[trigger] right[m]),
        forall|c: T| #[trigger] s.subrange(lo, k).filter(equiv_to(c)) == left.subrange(
            0,
            i,
        ).filter(equiv_to(c)) + right.subrange(0, j).filter(equiv_to(c)),
    ensures
        sorted_range(s.update(k, left[i]), lo, k + 1),
        forall|w: int|
            lo <= w < k + 1 && i + 1 < left.len() ==> #[trigger] s.update(k, left[i])[w].le_spec(
                left[i + 1],
            ),
        forall|w: int|
            lo <= w < k + 1 && j < right.len() ==> #[trigger] s.update(k, left[i])[w].le_spec(
                right[j],
            ),
        s.update(k, left[i]).subrange(lo, k + 1).to_multiset() == (left.subrange(0, i + 1)
            + right.subrange(0, j)).to_multiset(),
        forall|w: int| 0 <= w < s.len() && w != k ==> s.update(k, left[i])[w] == s[w],
        forall|m: int| 0 <= m < j && i + 1 < left.len() ==> !left[i + 1].le_spec(
            #[trigger] right[m],
        ),
        forall|c: T| #[trigger] s.update(k, left[i]).subrange(lo, k + 1).filter(equiv_to(c))
            == left.subrange(0, i + 1).filter(equiv_to(c)) + right.subrange(0, j).filter(
            equiv_to(c),
        ),
{
    broadcast use group_multiset_axioms;
    broadcast use group_to_multiset_ensures;

    let x = left[i];
    let t = s.update(k, x);
    assert forall|a: int, b: int|
        lo <= a < b < k + 1 && 0 <= a && b < t.len() implies #[trigger] t[a].le_spec(t[b]) by {
        if b == k {
            assert(s[a].le_spec(left[i]));
        } else {
            assert(s[a].le_spec(s[b]));
        }
    }
    assert forall|w: int| lo <= w < k + 1 && i + 1 < left.len() implies #[trigger] t[w].le_spec(
        left[i + 1],
    ) by {
        assert(left[i].le_spec(left[i + 1]));
        if w < k {
            assert(s[w].le_spec(left[i]));
            T::lemma_trans(s[w], left[i], left[i + 1]);
        }
    }
    assert forall|w: int| lo <= w < k + 1 && j < right.len() implies #[trigger] t[w].le_spec(
        right[j],
    ) by {
        if w < k {
            assert(s[w].le_spec(right[j]));
        } else {
            assert(left[i].le_spec(right[j]));
        }
    }
    assert(t.subrange(lo, k + 1) =~= s.subrange(lo, k).push(x));
    assert(left.subrange(0, i + 1) =~= left.subrange(0, i).push(x));
    lemma_ms_of_add(left.subrange(0, i), right.subrange(0, j));
    lemma_ms_of_add(left.subrange(0, i + 1), right.subrange(0, j));
    assert(left.subrange(0, i + 1).to_multiset() == left.subrange(0, i).to_multiset().insert(x));
    assert(t.subrange(lo, k + 1).to_multiset() =~= (left.subrange(0, i + 1) + right.subrange(
        0,
        j,
    )).to_multiset());
    // every later left element still sorts strictly after every consumed
    // right element
    assert forall|m: int| 0 <= m < j && i + 1 < left.len() implies !left[i + 1].le_spec(
        #[trigger] right[m],
    ) by {
        if left[i + 1].le_spec(right[m]) {
            assert(left[i].le_spec(left[i + 1]));
            T::lemma_trans(left[i], left[i + 1], right[m]);
        }
    }
    // each equivalence class's members arrive in input order: the element
    // taken here can have no classmates among the consumed right elements
    assert forall|c: T| #[trigger] t.subrange(lo, k + 1).filter(equiv_to(c)) == left.subrange(
        0,
        i + 1,
    ).filter(equiv_to(c)) + right.subrange(0, j).filter(equiv_to(c)) by {
        let p = equiv_to(c);
        assert(s.subrange(lo, k).filter(p) == left.subrange(0, i).filter(p) + right.subrange(
            0,
            j,
        ).filter(p));
        lemma_filter_push(s.subrange(lo, k), x, p);
        lemma_filter_push(left.subrange(0, i), x, p);
        if p(x) {
            assert forall|m: int| 0 <= m < right.subrange(0, j).len() implies !p(
                #[trigger] right.subrange(0, j)[m],
            ) by {
                assert(right.subrange(0, j)[m] == right[m]);
                if p(right[m]) {
                    T::lemma_trans(x, c, right[m]);
                }
            }
            lemma_filter_none(right.subrange(0, j), p);
            assert(t.subrange(lo, k + 1).filter(p) =~= left.subrange(0, i + 1).filter(p)
                + right.subrange(0, j).filter(p));
        } else {
            assert(t.subrange(lo, k + 1).filter(p) =~= left.subrange(0, i + 1).filter(p)
                + right.subrange(0, j).filter(p));
        }
    }
}

/// One merge step that takes the right half's next element; the mirror of
/// [`lemma_merge_take_left`], used when the left front is strictly greater.
proof fn lemma_merge_take_right<T: Ordered>(
    s: Seq<T>,
    left: Seq<T>,
    right: Seq<T>,
    lo: int,
    k: int,
    i: int,
    j: int,
)
    requires
        0 <= lo <= k,
        k == lo + i + j,
        k < s.len(),
        sorted(left),
        sorted(right),
        0 <= i <= left.len(),
        0 <= j < right.len(),
        i < left.len() ==> !left[i].le_spec(right[j]),
        sorted_range(s, lo, k),
        forall|w: int| lo <= w < k && i < left.len() ==> #[trigger] s[w].le_spec(left[i]),
        forall|w: int| lo <= w < k && j < right.len() ==> #[trigger] s[w].le_spec(right[j]),
        s.subrange(lo, k).to_multiset() == (left.subrange(0, i) + right.subrange(
            0,
            j,
        )).to_multiset(),
        forall|m: int| 0 <= m < j && i < left.len() ==> !left[i].le_spec(#[trigger] right[m]),
        forall|c: T| #[trigger] s.subrange(lo, k).filter(equiv_to(c)) == left.subrange(
            0,
            i,
        ).filter(equiv_to(c)) + right.subrange(0, j).filter(equiv_to(c)),
    ensures
        sorted_range(s.update(k, right[j]), lo, k + 1),
        forall|w: int|
            lo <= w < k + 1 && i < left.len() ==> #[trigger] s.update(k, right[j])[w].le_spec(
                left[i],
            ),
        forall|w: int|
            lo <= w < k + 1 && j + 1 < right.len() ==> #[trigger] s.update(k, right[j])[w].le_spec(
                right[j + 1],
            ),
        s.update(k, right[j]).subrange(lo, k + 1).to_multiset() == (left.subrange(0, i)
            + right.subrange(0, j + 1)).to_multiset(),
        forall|w: int| 0 <= w < s.len() && w != k ==> s.update(k, right[j])[w] == s[w],
        forall|m: int| 0 <= m < j + 1 && i < left.len() ==> !left[i].le_spec(#[trigger] right[m]),
        forall|c: T| #[trigger] s.update(k, right[j]).subrange(lo, k + 1).filter(equiv_to(c))
            == left.subrange(0, i).filter(equiv_to(c)) + right.subrange(0, j + 1).filter(
            equiv_to(c),
        ),
{
    broadcast use group_multiset_axioms;
    broadcast use group_to_multiset_ensures;

    let x = right[j];
    let t = s.update(k, x);
    if i < left.len() {
        T::lemma_total(left[i], right[j]);
    }
    assert forall|a: int, b: int|
        lo <= a < b < k + 1 && 0 <= a && b < t.len() implies #[trigger] t[a].le_spec(t[b]) by {
        if b == k {
            assert(s[a].le_spec(right[j]));
        } else {
            assert(s[a].le_spec(s[b]));
        }
    }
    assert forall|w: int| lo <= w < k + 1 && i < left.len() implies #[trigger] t[w].le_spec(
        left[i],
    ) by {
        if w < k {
            assert(s[w].le_spec(left[i]));
        } else {
            assert(right[j].le_spec(left[i]));
        }
    }
    assert forall|w: int| lo <= w < k + 1 && j + 1 < right.len() implies #[trigger] t[w].le_spec(
        right[j + 1],
    ) by {
        assert(right[j].le_spec(right[j + 1]));
        if w < k {
            assert(s[w].le_spec(right[j]));
            T::lemma_trans(s[w], right[j], right[j + 1]);
        }
    }
    assert(t.subrange(lo, k + 1) =~= s.subrange(lo, k).push(x));
    assert(right.subrange(0, j + 1) =~= right.subrange(0, j).push(x));
    lemma_ms_of_add(left.subrange(0, i), right.subrange(0, j));
    lemma_ms_of_add(left.subrange(0, i), right.subrange(0, j + 1));
    assert(right.subrange(0, j + 1).to_multiset() == right.subrange(0, j).to_multiset().insert(x));
    assert(t.subrange(lo, k + 1).to_multiset() =~= (left.subrange(0, i) + right.subrange(
        0,
        j + 1,
    )).to_multiset());
    // an element taken from the right goes to the end of the written
    // region, which is where its class's consumed members already are
    assert forall|c: T| #[trigger] t.subrange(lo, k + 1).filter(equiv_to(c)) == left.subrange(
        0,
        i,
    ).filter(equiv_to(c)) + right.subrange(0, j + 1).filter(equiv_to(c)) by {
        let p = equiv_to(c);
        assert(s.subrange(lo, k).filter(p) == left.subrange(0, i).filter(p) + right.subrange(
            0,
            j,
        ).filter(p));
        lemma_filter_push(s.subrange(lo, k), x, p);
        lemma_filter_push(right.subrange(0, j), x, p);
        if p(x) {
            assert(t.subrange(lo, k + 1).filter(p) =~= left.subrange(0, i).filter(p)
                + right.subrange(0, j + 1).filter(p));
        } else {
            assert(t.subrange(lo, k + 1).filter(p) =~= left.subrange(0, i).filter(p)
                + right.subrange(0, j + 1).filter(p));
        }
    }
}

} // verus!
