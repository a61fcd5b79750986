//! Shell sort.

use vstd::prelude::*;
use crate::order::Ordered;
use crate::order::sorted;
use crate::order::sorted_range;
use crate::perm::swap_at;

verus! {

/// Sorts the vector in place by Shell sort with the classic halving gap
/// sequence: passes run for gaps n/2, n/4, …, 1, each pass shifting
/// elements toward the front across the current gap as insertion sort does
/// across distance one. In-place, not guaranteed stable.
///
/// Every pass rearranges elements; the final pass, with gap 1, is exactly
/// an insertion sort and is what establishes sortedness.
///
/// Afterwards the vector is in non-descending order and holds the same
/// multiset of elements as before.
pub fn shell_sort<T: Ordered>(data: &mut Vec<T>)
    ensures
        final(data)@.len() == old(data)@.len(),
        sorted(final(data)@),
        final(data)@.to_multiset() == old(data)@.to_multiset(),
{
    let n = data.len();
    let mut interval = n / 2;
    while interval > 0
        invariant
            interval <= n == data@.len() == old(data)@.len(),
            data@.to_multiset() == old(data)@.to_multiset(),
            interval == 0 ==> sorted(data@),
        decreases interval,
    {
        let mut i = interval;
        while i < n
            invariant
                1 <= interval <= i,
                i <= n,
                n == data@.len() == old(data)@.len(),
                data@.to_multiset() == old(data)@.to_multiset(),
                interval == 1 ==> sorted_range(data@, 0, i as int),
            decreases n - i,
        {
            let mut j = i;
            while j >= interval && !data[j - interval].le(data[j])
                invariant
                    1 <= interval,
                    j <= i < n == data@.len() == old(data)@.len(),
                    data@.to_multiset() == old(data)@.to_multiset(),
                    interval == 1 ==> forall|a: int, b: int|
                        0 <= a < b <= i && b != j ==> #[trigger] data@[a].le_spec(data@[b]),
                decreases j,
            {
                proof {
                    if interval == 1 {
                        let s = data@;
                        let jj = j as int;
                        T::lemma_total(s[jj - 1], s[jj]);
                        let t = s.update(jj, s[jj - 1]).update(jj - 1, s[jj]);
                        assert forall|a: int, b: int|
                            0 <= a < b <= i && b != jj - 1 implies #[trigger] t[a].le_spec(
                            t[b],
                        ) by {
                            if b == jj {
                                if a < jj - 1 {
                                    assert(s[a].le_spec(s[jj - 1]));
                                } else {
                                    assert(t[a] == s[jj]);
                                }
                            } else if a == jj - 1 {
                                assert(t[a] == s[jj]);
                                assert(s[jj - 1].le_spec(s[b]));
                                T::lemma_trans(s[jj], s[jj - 1], s[b]);
                            } else if a == jj {
                                assert(t[a] == s[jj - 1]);
                                assert(s[jj - 1].le_spec(s[b]));
                            } else {
                                assert(s[a].le_spec(s[b]));
                            }
                        }
                    }
                }
                swap_at(data, j, j - interval);
                j -= interval;
            }
            proof {
                if interval == 1 {
                    let s = data@;
                    let jj = j as int;
                    assert forall|a: int, b: int|
                        0 <= a < b <= i implies #[trigger] s[a].le_spec(s[b]) by {
                        if b == jj {
                            assert(jj >= 1);
                            assert(s[jj - 1].le_spec(s[jj]));
                            if a < jj - 1 {
                                assert(s[a].le_spec(s[jj - 1]));
                                T::lemma_trans(s[a], s[jj - 1], s[jj]);
                            }
                        }
                    }
                }
            }
            i += 1;
        }
        interval = interval / 2;
    }
}

} // verus!
