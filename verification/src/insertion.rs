//! Insertion sort.

use vstd::prelude::*;
use crate::order::Ordered;
use crate::order::equiv_to;
use crate::order::sorted;
use crate::order::sorted_range;
use crate::perm::lemma_swap_adjacent_equiv;
use crate::perm::swap_at;

verus! {

/// Sorts the vector in place by insertion sort: each element in turn is
/// shifted leftward, one exchange at a time, past every strictly greater
/// predecessor, so the prefix already visited stays sorted. Stable,
/// in-place and adaptive.
///
/// Afterwards the vector is in non-descending order and holds the same
/// multiset of elements as before; and the sort is stable — every
/// equivalence class of the order keeps its members in their original
/// relative order.
pub fn insertion_sort<T: Ordered>(data: &mut Vec<T>)
    ensures
        final(data)@.len() == old(data)@.len(),
        sorted(final(data)@),
        final(data)@.to_multiset() == old(data)@.to_multiset(),
        forall|k: T| #[trigger] final(data)@.filter(equiv_to(k)) == old(data)@.filter(
            equiv_to(k),
        ),
{
    let n = data.len();
    let mut i: usize = 1;
    while i < n
        invariant
            1 <= i,
            i <= n || n == 0,
            n == data@.len() == old(data)@.len(),
            data@.to_multiset() == old(data)@.to_multiset(),
            forall|k: T| #[trigger] data@.filter(equiv_to(k)) == old(data)@.filter(equiv_to(k)),
            sorted_range(data@, 0, i as int),
        decreases n - i,
    {
        let mut j = i;
        while j >= 1 && !data[j - 1].le(data[j])
            invariant
                0 <= j <= i < n == data@.len() == old(data)@.len(),
                data@.to_multiset() == old(data)@.to_multiset(),
                forall|k: T| #[trigger] data@.filter(equiv_to(k)) == old(data)@.filter(
                    equiv_to(k),
                ),
                forall|a: int, b: int|
                    0 <= a < b <= i && b != j ==> #[trigger] data@[a].le_spec(data@[b]),
            decreases j,
        {
            proof {
                let s = data@;
                let jj = j as int;
                T::lemma_total(s[jj - 1], s[jj]);
                lemma_swap_adjacent_equiv(s, jj - 1);
                let t = s.update(jj - 1, s[jj]).update(jj, s[jj - 1]);
                assert forall|a: int, b: int|
                    0 <= a < b <= i && b != jj - 1 implies #[trigger] t[a].le_spec(t[b]) by {
                    if b == jj {
                        // the shifted-out predecessor: everything before it
                        // was no greater than it already
                        if a < jj - 1 {
                            assert(s[a].le_spec(s[jj - 1]));
                        } else {
                            assert(a == jj - 1);
                            assert(t[a] == s[jj]);
                        }
                    } else if a == jj - 1 {
                        assert(t[a] == s[jj]);
                        assert(s[jj - 1].le_spec(t[b]));
                        T::lemma_trans(s[jj], s[jj - 1], t[b]);
                    } else if a == jj {
                        assert(t[a] == s[jj - 1]);
                        assert(s[jj - 1].le_spec(s[b]));
                    } else {
                        assert(s[a].le_spec(s[b]));
                    }
                }
            }
            swap_at(data, j - 1, j);
            j -= 1;
        }
        proof {
            let s = data@;
            let jj = j as int;
            assert forall|a: int, b: int|
                0 <= a < b <= i implies #[trigger] s[a].le_spec(s[b]) by {
                if b == jj {
                    // the loop stopped: either the element reached the front,
                    // or its left neighbour is not greater
                    assert(jj >= 1);
                    assert(s[jj - 1].le_spec(s[jj]));
                    if a < jj - 1 {
                        assert(s[a].le_spec(s[jj - 1]));
                        T::lemma_trans(s[a], s[jj - 1], s[jj]);
                    }
                }
            }
        }
        i += 1;
    }
}

} // verus!
