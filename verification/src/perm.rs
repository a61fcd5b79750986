//! Exchanging two elements of a vector, and the multiset and filter facts
//! that let the sorting proofs track "same elements, rearranged" — and, for
//! the stable sorts, "equal elements in the same order" — across such
//! exchanges.

use vstd::prelude::*;
use vstd::seq_lib::group_to_multiset_ensures;
use vstd::multiset::Multiset;
use vstd::multiset::group_multiset_axioms;
use crate::order::Ordered;
use crate::order::equiv_to;

verus! {

/// What a filter keeps of one appended element.
pub(crate) proof fn lemma_filter_push<T>(s: Seq<T>, x: T, p: spec_fn(T) -> bool)
    ensures
        s.push(x).filter(p) == if p(x) {
            s.filter(p).push(x)
        } else {
            s.filter(p)
        },
{
    reveal(Seq::filter);
    assert(s.push(x).drop_last() =~= s);
    assert(s.push(x).last() == x);
}

/// A filter that holds of no element keeps nothing.
pub(crate) proof fn lemma_filter_none<T>(s: Seq<T>, p: spec_fn(T) -> bool)
    requires
        forall|m: int| 0 <= m < s.len() ==> !p(#[trigger] s[m]),
    ensures
        s.filter(p) == Seq::<T>::empty(),
    decreases s.len(),
{
    reveal(Seq::filter);
    if s.len() > 0 {
        lemma_filter_none(s.drop_last(), p);
    }
}

/// Exchanging two adjacent elements of which at most one is kept does not
/// change what a filter keeps.
pub(crate) proof fn lemma_swap_adjacent_filter<T>(s: Seq<T>, m: int, p: spec_fn(T) -> bool)
    requires
        0 <= m,
        m + 1 < s.len(),
        !(p(s[m]) && p(s[m + 1])),
    ensures
        s.update(m, s[m + 1]).update(m + 1, s[m]).filter(p) == s.filter(p),
{
    broadcast use Seq::filter_distributes_over_add;

    let a = s[m];
    let b = s[m + 1];
    let u = s.subrange(0, m);
    let v = s.subrange(m + 2, s.len() as int);
    let ab = Seq::<T>::empty().push(a).push(b);
    let ba = Seq::<T>::empty().push(b).push(a);
    let t = s.update(m, b).update(m + 1, a);
    assert(s =~= u + ab + v);
    assert(t =~= u + ba + v);
    lemma_filter_push(Seq::<T>::empty().push(a), b, p);
    lemma_filter_push(Seq::<T>::empty().push(b), a, p);
    lemma_filter_push(Seq::<T>::empty(), a, p);
    lemma_filter_push(Seq::<T>::empty(), b, p);
    assert(Seq::<T>::empty().filter(p) == Seq::<T>::empty()) by {
        reveal(Seq::filter);
    }
    assert(ab.filter(p) == ba.filter(p)) by {
        if p(a) {
            assert(ab.filter(p) =~= Seq::<T>::empty().push(a));
            assert(ba.filter(p) =~= Seq::<T>::empty().push(a));
        } else if p(b) {
            assert(ab.filter(p) =~= Seq::<T>::empty().push(b));
            assert(ba.filter(p) =~= Seq::<T>::empty().push(b));
        } else {
            assert(ab.filter(p) =~= Seq::<T>::empty());
            assert(ba.filter(p) =~= Seq::<T>::empty());
        }
    }
    assert((u + ab + v).filter(p) == u.filter(p) + ab.filter(p) + v.filter(p));
    assert((u + ba + v).filter(p) == u.filter(p) + ba.filter(p) + v.filter(p));
}

/// Exchanging an adjacent pair whose left element sorts strictly after the
/// right one moves no element past an equal one: every equivalence class
/// keeps its members in the same order.
pub(crate) proof fn lemma_swap_adjacent_equiv<T: Ordered>(s: Seq<T>, m: int)
    requires
        0 <= m,
        m + 1 < s.len(),
        !s[m].le_spec(s[m + 1]),
    ensures
        forall|k: T| #[trigger] s.update(m, s[m + 1]).update(m + 1, s[m]).filter(equiv_to(k))
            == s.filter(equiv_to(k)),
{
    assert forall|k: T| #[trigger] s.update(m, s[m + 1]).update(m + 1, s[m]).filter(equiv_to(k))
        == s.filter(equiv_to(k)) by {
        let p = equiv_to(k);
        if p(s[m]) && p(s[m + 1]) {
            // both in one class would make the pair ordered
            T::lemma_trans(s[m], k, s[m + 1]);
        }
        lemma_swap_adjacent_filter(s, m, p);
    }
}

/// Exchanges the elements at positions `i` and `j`.
pub(crate) fn swap_at<T: Copy>(data: &mut Vec<T>, i: usize, j: usize)
    requires
        i < old(data)@.len(),
        j < old(data)@.len(),
    ensures
        final(data)@ == old(data)@.update(i as int, old(data)@[j as int]).update(
            j as int,
            old(data)@[i as int],
        ),
        final(data)@.len() == old(data)@.len(),
        final(data)@.to_multiset() == old(data)@.to_multiset(),
{
    let x = data[i];
    let y = data[j];
    data[i] = y;
    data[j] = x;
    proof {
        lemma_swap_multiset(old(data)@, i as int, j as int);
    }
}

/// Exchanging two positions of a sequence does not change its multiset of
/// elements.
pub(crate) proof fn lemma_swap_multiset<T>(s: Seq<T>, i: int, j: int)
    requires
        0 <= i < s.len(),
        0 <= j < s.len(),
    ensures
        s.update(i, s[j]).update(j, s[i]).to_multiset() == s.to_multiset(),
{
    broadcast use group_to_multiset_ensures;
    broadcast use group_multiset_axioms;

    let t = s.update(i, s[j]).update(j, s[i]);
    if i == j {
        assert(t =~= s);
    } else {
        let s1 = s.update(i, s[j]);
        assert(s1.to_multiset() == s.to_multiset().insert(s[j]).remove(s[i]));
        assert(s1[j] == s[j]);
        assert(t.to_multiset() == s1.to_multiset().insert(s[i]).remove(s[j]));
        assert(t.to_multiset() =~= s.to_multiset());
    }
}

/// A sequence's multiset of elements distributes over concatenation.
pub(crate) proof fn lemma_ms_of_add<T>(a: Seq<T>, b: Seq<T>)
    ensures
        (a + b).to_multiset() == a.to_multiset().add(b.to_multiset()),
    decreases b.len(),
{
    broadcast use group_to_multiset_ensures;
    broadcast use group_multiset_axioms;

    if b.len() == 0 {
        assert(a + b =~= a);
        assert(b.to_multiset() =~= Multiset::<T>::empty());
        assert((a + b).to_multiset() =~= a.to_multiset().add(b.to_multiset()));
    } else {
        let b0 = b.drop_last();
        lemma_ms_of_add(a, b0);
        assert(a + b =~= (a + b0).push(b.last()));
        assert(b =~= b0.push(b.last()));
        assert((a + b).to_multiset() =~= a.to_multiset().add(b.to_multiset()));
    }
}

/// A property that holds of every element of a sequence holds of every
/// element of any rearrangement of it.
pub(crate) proof fn lemma_perm_all<T>(s: Seq<T>, t: Seq<T>, p: spec_fn(T) -> bool)
    requires
        s.to_multiset() == t.to_multiset(),
        forall|m: int| 0 <= m < s.len() ==> #[trigger] p(s[m]),
    ensures
        forall|m: int| 0 <= m < t.len() ==> #[trigger] p(t[m]),
{
    broadcast use group_to_multiset_ensures;

    assert forall|m: int| 0 <= m < t.len() implies #[trigger] p(t[m]) by {
        assert(t.contains(t[m]));
        assert(t.to_multiset().count(t[m]) > 0);
        assert(s.contains(t[m]));
        let w = choose|w: int| 0 <= w < s.len() && s[w] == t[m];
        assert(p(s[w]));
    }
}

/// If two sequences of one length agree from position `m` on and hold the
/// same multiset of elements overall, their prefixes up to `m` hold the
/// same multiset as well.
pub(crate) proof fn lemma_ms_prefix<T>(s: Seq<T>, t: Seq<T>, m: int)
    requires
        s.len() == t.len(),
        0 <= m <= s.len(),
        s.to_multiset() == t.to_multiset(),
        forall|k: int| m <= k < s.len() ==> s[k] == t[k],
    ensures
        s.subrange(0, m).to_multiset() == t.subrange(0, m).to_multiset(),
{
    broadcast use group_multiset_axioms;

    let n = s.len() as int;
    assert(s =~= s.subrange(0, m) + s.subrange(m, n));
    assert(t =~= t.subrange(0, m) + t.subrange(m, n));
    lemma_ms_of_add(s.subrange(0, m), s.subrange(m, n));
    lemma_ms_of_add(t.subrange(0, m), t.subrange(m, n));
    assert(s.subrange(m, n) =~= t.subrange(m, n));
    assert forall|x: T|
        s.subrange(0, m).to_multiset().count(x) == t.subrange(0, m).to_multiset().count(
            x,
        ) by {
        assert(s.to_multiset().count(x) == s.subrange(0, m).to_multiset().count(x) + s.subrange(
            m,
            n,
        ).to_multiset().count(x));
        assert(t.to_multiset().count(x) == t.subrange(0, m).to_multiset().count(x) + t.subrange(
            m,
            n,
        ).to_multiset().count(x));
    }
    assert(s.subrange(0, m).to_multiset() =~= t.subrange(0, m).to_multiset());
}

} // verus!
