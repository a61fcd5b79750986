//! Selection sort.

use vstd::prelude::*;
use crate::order::Ordered;
use crate::order::sorted;
use crate::order::sorted_range;
use crate::perm::swap_at;

verus! {

/// Sorts the vector in place by selection sort: for each position in turn
/// it scans the unsorted suffix for the first occurrence of its minimum and
/// exchanges that minimum into place. In-place but not stable — the
/// exchange can carry an element past an equal one.
///
/// Afterwards the vector is in non-descending order and holds the same
/// multiset of elements as before.
pub fn selection_sort<T: Ordered>(data: &mut Vec<T>)
    ensures
        final(data)@.len() == old(data)@.len(),
        sorted(final(data)@),
        final(data)@.to_multiset() == old(data)@.to_multiset(),
{
    let n = data.len();
    let mut i: usize = 0;
    while i < n
        invariant
            i <= n == data@.len() == old(data)@.len(),
            data@.to_multiset() == old(data)@.to_multiset(),
            sorted_range(data@, 0, i as int),
            forall|a: int, b: int|
                0 <= a < i <= b < n ==> #[trigger] data@[a].le_spec(data@[b]),
        decreases n - i,
    {
        let mut k = i;
        let mut j = i + 1;
        proof {
            T::lemma_total(data@[i as int], data@[i as int]);
        }
        while j < n
            invariant
                i <= k < j <= n == data@.len() == old(data)@.len(),
                data@.to_multiset() == old(data)@.to_multiset(),
                sorted_range(data@, 0, i as int),
                forall|a: int, b: int|
                    0 <= a < i <= b < n ==> #[trigger] data@[a].le_spec(data@[b]),
                forall|m: int| i <= m < j ==> #[trigger] data@[k as int].le_spec(data@[m]),
            decreases n - j,
        {
            if !data[k].le(data[j]) {
                proof {
                    let s = data@;
                    T::lemma_total(s[k as int], s[j as int]);
                    assert forall|m: int| i <= m < j + 1 implies #[trigger] s[j as int].le_spec(
                        s[m],
                    ) by {
                        if m < j {
                            T::lemma_trans(s[j as int], s[k as int], s[m]);
                        } else {
                            T::lemma_total(s[j as int], s[j as int]);
                        }
                    }
                }
                k = j;
            }
            j += 1;
        }
        proof {
            let s = data@;
            let t = s.update(i as int, s[k as int]).update(k as int, s[i as int]);
            assert forall|a: int, b: int|
                0 <= a < i + 1 <= b < n implies #[trigger] t[a].le_spec(t[b]) by {
                if a < i {
                    // positions before `i` are untouched and were already
                    // bounded by every suffix element
                    if b == k as int {
                        assert(s[a].le_spec(s[i as int]));
                    } else {
                        assert(s[a].le_spec(s[b]));
                    }
                } else {
                    // the minimum now sits at `i`
                    assert(t[a] == s[k as int]);
                    if b == k as int {
                        assert(s[k as int].le_spec(s[i as int]));
                    } else {
                        assert(s[k as int].le_spec(s[b]));
                    }
                }
            }
            assert(sorted_range(t, 0, i as int + 1)) by {
                assert forall|a: int, b: int|
                    0 <= a < b < i + 1 && b < t.len() implies #[trigger] t[a].le_spec(t[b]) by {
                    if b < i {
                        assert(s[a].le_spec(s[b]));
                    } else {
                        assert(s[a].le_spec(s[k as int]));
                    }
                }
            }
        }
        swap_at(data, i, k);
        i += 1;
    }
}

} // verus!
