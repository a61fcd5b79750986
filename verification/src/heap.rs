//! Heap sort.

use vstd::prelude::*;
use crate::order::Ordered;
use crate::order::sorted;
use crate::order::sorted_range;
use crate::perm::lemma_ms_prefix;
use crate::perm::lemma_perm_all;
use crate::perm::swap_at;

verus! {

/// Position `k` lies in the subtree rooted at `r` of the implicit binary
/// tree in which position `p` has children `2p + 1` and `2p + 2`.
pub open spec fn in_subtree(r: int, k: int) -> bool
    decreases k,
{
    if k < 0 || r < 0 {
        false
    } else if k <= r {
        k == r
    } else {
        in_subtree(r, (k - 1) / 2)
    }
}

/// The max-heap ordering holds for the first `len` positions of `s` at
/// every parent at position `b` or later: such a parent is no smaller than
/// its children. With `b == 0` the whole region is a max-heap.
pub open spec fn heap_from<T: Ordered>(s: Seq<T>, len: int, b: int) -> bool {
    forall|j: int|
        0 < j < len && b <= (j - 1) / 2 ==> #[trigger] s[j].le_spec(s[(j - 1) / 2])
}

/// Every position of a subtree lies at or after its root.
proof fn lemma_subtree_at_or_after(r: int, k: int)
    requires
        in_subtree(r, k),
    ensures
        k >= r >= 0,
    decreases k,
{
    if k > r {
        lemma_subtree_at_or_after(r, (k - 1) / 2);
    }
}

/// Subtree containment is transitive.
proof fn lemma_subtree_trans(r: int, m: int, k: int)
    requires
        in_subtree(r, m),
        in_subtree(m, k),
    ensures
        in_subtree(r, k),
    decreases k,
{
    lemma_subtree_at_or_after(r, m);
    lemma_subtree_at_or_after(m, k);
    if k > m {
        lemma_subtree_trans(r, m, (k - 1) / 2);
    }
}

/// A position whose parent lies before `r` is not in the subtree of `r`
/// (unless it is `r` itself).
proof fn lemma_not_in_subtree(r: int, k: int)
    requires
        0 <= r < k,
        (k - 1) / 2 < r,
    ensures
        !in_subtree(r, k),
{
    if in_subtree(r, k) {
        lemma_subtree_at_or_after(r, (k - 1) / 2);
    }
}

/// In a region whose heap ordering holds at every parent from `b` on, no
/// element of the subtree of `r >= b` exceeds the element at `r`.
proof fn lemma_subtree_bound<T: Ordered>(s: Seq<T>, len: int, b: int, r: int, k: int)
    requires
        0 <= b <= r <= k < len <= s.len(),
        heap_from(s, len, b),
        in_subtree(r, k),
    ensures
        s[k].le_spec(s[r]),
    decreases k,
{
    if k == r {
        T::lemma_total(s[k], s[k]);
    } else {
        let p = (k - 1) / 2;
        lemma_subtree_at_or_after(r, p);
        assert(s[k].le_spec(s[p]));
        lemma_subtree_bound(s, len, b, r, p);
        T::lemma_trans(s[k], s[p], s[r]);
    }
}

/// Every non-negative position is in the subtree of the overall root.
proof fn lemma_root_subtree(k: int)
    requires
        0 <= k,
    ensures
        in_subtree(0, k),
    decreases k,
{
    if k > 0 {
        lemma_root_subtree((k - 1) / 2);
    }
}

/// Restores the max-heap ordering of the first `len` positions at `root`,
/// assuming it already holds strictly below `root`: the root is sifted
/// down, swapping with its largest child, until no child is larger. Only
/// the subtree of `root` is touched, and the element that ends up at
/// `root` is one the subtree already held.
#[verifier::rlimit(60)]
fn heapify<T: Ordered>(data: &mut Vec<T>, len: usize, root: usize)
    requires
        root < len <= old(data)@.len(),
        heap_from(old(data)@, len as int, root as int + 1),
    ensures
        final(data)@.len() == old(data)@.len(),
        final(data)@.to_multiset() == old(data)@.to_multiset(),
        heap_from(final(data)@, len as int, root as int),
        forall|k: int|
            0 <= k < old(data)@.len() && !(in_subtree(root as int, k) && k < len)
                ==> #[trigger] final(data)@[k] == old(data)@[k],
        exists|m: int|
            root <= m < len && in_subtree(root as int, m) && final(data)@[root as int]
                == old(data)@[m],
    decreases len - root,
{
    let ghost s = data@;
    let ghost rt = root as int;
    let mut largest = root;
    if root < len / 2 {
        let left = 2 * root + 1;
        let right = left + 1;
        if !data[left].le(data[largest]) {
            proof {
                T::lemma_total(s[rt], s[left as int]);
            }
            largest = left;
        }
        if right < len && !data[right].le(data[largest]) {
            proof {
                T::lemma_total(s[largest as int], s[right as int]);
                if largest != root {
                    // the left child had already beaten the root
                    T::lemma_trans(s[rt], s[largest as int], s[right as int]);
                } else if s[2 * rt + 1].le_spec(s[rt]) {
                    T::lemma_trans(s[2 * rt + 1], s[rt], s[right as int]);
                }
            }
            largest = right;
        }
    }
    proof {
        T::lemma_total(s[rt], s[rt]);
    }
    if largest != root {
        let ghost lg = largest as int;
        proof {
            assert((lg - 1) / 2 == rt);
            assert(in_subtree(rt, rt));
            assert(in_subtree(rt, lg));
        }
        swap_at(data, root, largest);
        let ghost s1 = data@;
        proof {
            // strictly below `largest` nothing moved, so the heap ordering
            // below it still holds
            assert forall|j: int|
                0 < j < len && lg + 1 <= (j - 1) / 2 implies #[trigger] s1[j].le_spec(
                s1[(j - 1) / 2],
            ) by {
                let p = (j - 1) / 2;
                assert(p >= lg + 1 > rt);
                assert(j > p);
                assert(s[j].le_spec(s[p]));
            }
        }
        heapify(data, len, largest);
        let ghost s2 = data@;
        proof {
            // the sifted subtree is inside this node's subtree
            assert forall|k: int|
                0 <= k < s.len() && !(in_subtree(rt, k) && k < len) implies s2[k] == s[k] by {
                if in_subtree(lg, k) && k < len {
                    lemma_subtree_trans(rt, lg, k);
                } else {
                    assert(s2[k] == s1[k]);
                    if k != rt && k != lg {
                        assert(s1[k] == s[k]);
                    } else {
                        assert(in_subtree(rt, rt));
                        assert(in_subtree(rt, lg));
                    }
                }
            }
            // the root now holds the largest of the three, and everything
            // in the sifted subtree stays below it
            assert(!in_subtree(lg, rt));
            assert(s2[rt] == s1[rt]);
            assert(s1[rt] == s[lg]);
            let m0 = choose|m: int|
                lg <= m < len && in_subtree(lg, m) && s2[lg] == s1[m];
            assert(s2[lg] == s1[m0]);
            if m0 == lg {
                assert(s1[lg] == s[rt]);
                assert(s2[lg].le_spec(s2[rt]));
            } else {
                assert(s1[m0] == s[m0]);
                lemma_subtree_bound(s, len as int, rt + 1, lg, m0);
                assert(s[m0].le_spec(s[lg]));
                assert(s2[lg].le_spec(s2[rt]));
            }
            // the heap ordering now holds from this node on
            assert forall|j: int|
                0 < j < len && rt <= (j - 1) / 2 implies #[trigger] s2[j].le_spec(
                s2[(j - 1) / 2],
            ) by {
                let p = (j - 1) / 2;
                if p >= lg {
                    assert(s2[j].le_spec(s2[p]));
                } else if p == rt {
                    // j is a direct child: either the sifted one or its
                    // sibling, which kept its old value
                    assert(2 * rt + 1 <= j <= 2 * rt + 2);
                    if j == lg {
                        assert(s2[j].le_spec(s2[rt]));
                    } else {
                        if j > lg {
                            lemma_not_in_subtree(lg, j);
                        }
                        assert(!in_subtree(lg, j));
                        assert(s2[j] == s1[j]);
                        assert(s1[j] == s[j]);
                        assert(s[j].le_spec(s[lg]));
                        assert(s2[j].le_spec(s2[p]));
                    }
                } else {
                    // a pair strictly between this node and the sifted
                    // child: both positions kept their old values
                    assert(rt < p < lg);
                    assert(j >= 2 * rt + 3);
                    assert(j > lg);
                    lemma_not_in_subtree(lg, j);
                    assert(!in_subtree(lg, p));
                    assert(s2[j] == s1[j] && s1[j] == s[j]);
                    assert(s2[p] == s1[p] && s1[p] == s[p]);
                    assert(s[j].le_spec(s[p]));
                }
            }
            // the element now at the root came from within the subtree
            assert(s2[rt] == s[lg]);
            assert(rt <= lg < len && in_subtree(rt, lg) && s2[rt] == s[lg]);
        }
    } else {
        proof {
            assert forall|j: int|
                0 < j < len && rt <= (j - 1) / 2 implies #[trigger] data@[j].le_spec(
                data@[(j - 1) / 2],
            ) by {
                let p = (j - 1) / 2;
                if p == rt {
                    assert(2 * rt + 1 <= j <= 2 * rt + 2);
                    assert(root < len / 2);
                    assert(data@[j].le_spec(data@[rt]));
                }
            }
            assert(in_subtree(rt, rt));
            assert(rt <= rt < len && in_subtree(rt, rt) && data@[rt] == s[rt]);
        }
    }
}

/// Sorts the vector in place by heap sort: the region is first arranged
/// into a max-heap by sifting every parent down, last parent first; then
/// the maximum is repeatedly swapped to the end of the shrinking heap
/// region and the new root sifted down again. O(n log n) always, in-place,
/// not stable.
///
/// Afterwards the vector is in non-descending order and holds the same
/// multiset of elements as before.
pub fn heap_sort<T: Ordered>(data: &mut Vec<T>)
    ensures
        final(data)@.len() == old(data)@.len(),
        sorted(final(data)@),
        final(data)@.to_multiset() == old(data)@.to_multiset(),
{
    let n = data.len();
    // build phase: establish the heap ordering bottom-up
    let mut i = n / 2;
    proof {
        assert forall|j: int|
            0 < j < n && i <= (j - 1) / 2 implies #[trigger] data@[j].le_spec(
            data@[(j - 1) / 2],
        ) by {
            assert(j - 1 >= 2 * (n / 2));
            assert(j >= n);
        }
    }
    while i > 0
        invariant
            i <= n == data@.len() == old(data)@.len(),
            data@.to_multiset() == old(data)@.to_multiset(),
            heap_from(data@, n as int, i as int),
        decreases i,
    {
        i -= 1;
        heapify(data, n, i);
    }
    // extraction phase: move each maximum to the end of the heap region
    let mut i = n;
    while i > 1
        invariant
            i <= n == data@.len() == old(data)@.len(),
            data@.to_multiset() == old(data)@.to_multiset(),
            heap_from(data@, i as int, 0),
            sorted_range(data@, i as int, n as int),
            forall|a: int, b: int|
                0 <= a < i <= b < n ==> #[trigger] data@[a].le_spec(data@[b]),
        decreases i,
    {
        i -= 1;
        let ghost d0 = data@;
        proof {
            // the root is the maximum of the heap region
            assert forall|k: int| 0 <= k < i + 1 implies #[trigger] d0[k].le_spec(d0[0]) by {
                lemma_root_subtree(k);
                lemma_subtree_bound(d0, i as int + 1, 0, 0, k);
            }
        }
        swap_at(data, 0, i);
        let ghost d1 = data@;
        proof {
            let ii = i as int;
            let nn = n as int;
            // the suffix, now including the extracted maximum, is sorted
            // and bounds the remaining heap region
            assert forall|a: int, b: int|
                ii <= a < b < nn && 0 <= a && b < d1.len() implies #[trigger] d1[a].le_spec(
                d1[b],
            ) by {
                if a == ii {
                    assert(d0[a].le_spec(d0[b]));
                    assert(d1[a] == d0[0]);
                    assert(d0[0].le_spec(d0[b]));
                } else {
                    assert(d0[a].le_spec(d0[b]));
                }
            }
            assert forall|a: int, b: int|
                0 <= a < ii <= b < nn implies #[trigger] d1[a].le_spec(d1[b]) by {
                if b == ii {
                    if a == 0 {
                        assert(d1[0] == d0[ii]);
                        assert(d0[ii].le_spec(d0[0]));
                    } else {
                        assert(d0[a].le_spec(d0[0]));
                    }
                } else {
                    if a == 0 {
                        assert(d1[0] == d0[ii]);
                        assert(d0[ii].le_spec(d0[b]));
                    } else {
                        assert(d0[a].le_spec(d0[b]));
                    }
                }
            }
            // the heap ordering strictly below the root survived the swap
            assert forall|j: int|
                0 < j < ii && 1 <= (j - 1) / 2 implies #[trigger] d1[j].le_spec(
                d1[(j - 1) / 2],
            ) by {
                let p = (j - 1) / 2;
                assert(0 < p < j < ii);
                assert(d0[j].le_spec(d0[p]));
            }
        }
        heapify(data, i, 0);
        proof {
            let ii = i as int;
            let nn = n as int;
            let d2 = data@;
            // positions at or past the heap boundary were not touched
            assert forall|k: int| ii <= k < d1.len() implies d2[k] == d1[k] by {
                assert(!(in_subtree(0, k) && k < ii));
            }
            lemma_ms_prefix(d2, d1, ii);
            // the rearranged heap region is still bounded by the suffix
            assert forall|a: int, b: int|
                0 <= a < ii <= b < nn implies #[trigger] d2[a].le_spec(d2[b]) by {
                let below_b = |x: T| x.le_spec(d1[b]);
                assert forall|m: int|
                    0 <= m < d1.subrange(0, ii).len() implies #[trigger] below_b(
                    d1.subrange(0, ii)[m],
                ) by {
                    assert(d1.subrange(0, ii)[m] == d1[m]);
                    assert(d1[m].le_spec(d1[b]));
                }
                lemma_perm_all(d1.subrange(0, ii), d2.subrange(0, ii), below_b);
                assert(below_b(d2.subrange(0, ii)[a]));
                assert(d2.subrange(0, ii)[a] == d2[a]);
                assert(d2[b] == d1[b]);
            }
        }
    }
    proof {
        // a heap region of at most one element leaves the whole vector
        // covered by the sorted suffix and the boundary bound
        assert forall|a: int, b: int|
            0 <= a < b < n && b < data@.len() implies #[trigger] data@[a].le_spec(data@[b]) by {
            if a >= i {
                assert(data@[a].le_spec(data@[b]));
            } else {
                assert(a < i <= b);
            }
        }
    }
}

} // verus!
