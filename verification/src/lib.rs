//! Seven classic comparison sorts — bubble, insertion, selection, shell,
//! heap, merge and quick — over vectors of any totally ordered element type,
//! each proved to leave its input sorted and to keep the same multiset of
//! elements, together with an algorithm tag for choosing one at run time.

use vstd::prelude::*;

mod bubble;
mod heap;
mod insertion;
mod merge;
mod order;
mod perm;
mod quick;
mod selection;
mod shell;

pub use bubble::bubble_sort;
pub use heap::heap_sort;
pub use insertion::insertion_sort;
pub use merge::merge_sort;
pub use quick::quick_sort;
pub use selection::selection_sort;
pub use shell::shell_sort;

pub use order::Keyed;
pub use order::Ordered;
pub use order::equiv_to;
pub use order::lemma_adjacent_sorted;
pub use order::sorted;
pub use order::sorted_range;

verus! {

/// The closed set of sorting algorithms this crate offers; carries no data
/// and serves only to pick a procedure at run time.
pub enum Algos {
    Bubble,
    Heap,
    Insertion,
    Merge,
    Quick,
    Selection,
    Shell,
}

/// A collection that can be sorted in place by any of the algorithms of
/// [`Algos`]. Whichever algorithm the caller picks, the outcome is the
/// same promise: the collection ends up in non-descending order and keeps
/// its multiset of elements; under the three stable tags it also keeps
/// equal elements in their original relative order.
pub trait Sortable<T: Ordered> {
    /// The sequence of elements the collection holds.
    spec fn seq_view(&self) -> Seq<T>;

    /// Sorts the collection in place with the chosen algorithm.
    fn sort_with(&mut self, algo: Algos)
        ensures
            final(self).seq_view().len() == old(self).seq_view().len(),
            sorted(final(self).seq_view()),
            final(self).seq_view().to_multiset() == old(self).seq_view().to_multiset(),
            algo is Bubble || algo is Insertion || algo is Merge ==> forall|k: T|
                #[trigger] final(self).seq_view().filter(order::equiv_to(k)) == old(
                    self,
                ).seq_view().filter(order::equiv_to(k)),
    ;
}

impl<T: Ordered> Sortable<T> for Vec<T> {
    open spec fn seq_view(&self) -> Seq<T> {
        self@
    }

    /// Dispatches to the procedure the tag names; the behaviour is exactly
    /// that procedure's.
    fn sort_with(&mut self, algo: Algos) {
        match algo {
            Algos::Bubble => bubble::bubble_sort(self),
            Algos::Heap => heap::heap_sort(self),
            Algos::Insertion => insertion::insertion_sort(self),
            Algos::Merge => merge::merge_sort(self),
            Algos::Quick => quick::quick_sort(self),
            Algos::Selection => selection::selection_sort(self),
            Algos::Shell => shell::shell_sort(self),
        }
    }
}

/// Sequences of at most one element are left exactly as they are by any
/// procedure that keeps the multiset of elements: with every sort here
/// promising multiset preservation, empty and one-element vectors come out
/// unchanged from all seven.
pub proof fn lemma_short_permutation_identity<T>(s: Seq<T>, t: Seq<T>)
    requires
        s.to_multiset() == t.to_multiset(),
        s.len() <= 1,
    ensures
        s == t,
{
    broadcast use vstd::seq_lib::group_to_multiset_ensures;

    s.to_multiset_ensures();
    t.to_multiset_ensures();
    assert(s.len() == t.len());
    if s.len() == 1 {
        assert(t.contains(t[0]));
        assert(t.to_multiset().count(t[0]) > 0);
        assert(s.contains(t[0]));
        assert(s[0] == t[0]);
        assert(s =~= t);
    } else {
        assert(s =~= t);
    }
}

/// Under an antisymmetric order, a sorted arrangement of a multiset is
/// unique: two sorted sequences holding the same elements are equal. With
/// every sort here promising a sorted result and the same multiset, it
/// follows that sorting an already sorted vector changes nothing, that
/// sorting twice equals sorting once, and that all seven algorithms return
/// the same vector for the same input.
pub proof fn lemma_sorted_permutation_unique<T: Ordered>(s: Seq<T>, t: Seq<T>)
    requires
        forall|a: T, b: T| #[trigger] a.le_spec(b) && #[trigger] b.le_spec(a) ==> a == b,
        sorted(s),
        sorted(t),
        s.to_multiset() == t.to_multiset(),
    ensures
        s == t,
{
    let leq = |a: T, b: T| a.le_spec(b);
    assert(vstd::relations::total_ordering(leq)) by {
        assert forall|a: T| #[trigger] leq(a, a) by {
            T::lemma_total(a, a);
        }
        assert forall|a: T, b: T| #[trigger] leq(a, b) && #[trigger] leq(b, a) implies a == b by {
            assert(a.le_spec(b) && b.le_spec(a));
        }
        assert forall|a: T, b: T, c: T| #[trigger] leq(a, b) && #[trigger] leq(b, c) implies leq(
            a,
            c,
        ) by {
            T::lemma_trans(a, b, c);
        }
        assert forall|a: T, b: T| #[trigger] leq(a, b) || #[trigger] leq(b, a) by {
            T::lemma_total(a, b);
        }
    }
    assert(vstd::relations::sorted_by(s, leq)) by {
        assert forall|a: int, b: int| 0 <= a < b < s.len() implies #[trigger] leq(s[a], s[b]) by {
            assert(s[a].le_spec(s[b]));
        }
    }
    assert(vstd::relations::sorted_by(t, leq)) by {
        assert forall|a: int, b: int| 0 <= a < b < t.len() implies #[trigger] leq(t[a], t[b]) by {
            assert(t[a].le_spec(t[b]));
        }
    }
    vstd::seq_lib::lemma_sorted_unique(s, t, leq);
    assert(s == t);
}

/// With no assumption on the order at all, a stable sort's promise pins
/// its result exactly: two sorted sequences that hold the same multiset of
/// elements and, for every value, the same subsequence of that value's
/// equivalence class, are equal. Insertion, bubble and merge sort promise
/// all three of their result, so each of them returns an already sorted
/// vector unchanged and is idempotent — for every element type, equal-but-
/// distinguishable elements included.
pub proof fn lemma_stable_sorted_permutation_unique<T: Ordered>(s: Seq<T>, t: Seq<T>)
    requires
        sorted(s),
        sorted(t),
        s.to_multiset() == t.to_multiset(),
        forall|k: T| #[trigger] s.filter(equiv_to(k)) == t.filter(equiv_to(k)),
    ensures
        s == t,
    decreases s.len(),
{
    broadcast use vstd::seq_lib::group_to_multiset_ensures;
    broadcast use vstd::multiset::group_multiset_axioms;

    s.to_multiset_ensures();
    t.to_multiset_ensures();
    assert(s.len() == t.len());
    if s.len() == 0 {
        assert(s =~= t);
    } else {
        let n = s.len() as int;
        let x = s.last();
        let y = t.last();
        let sd = s.drop_last();
        let td = t.drop_last();
        assert(s =~= sd.push(x));
        assert(t =~= td.push(y));
        T::lemma_total(x, x);
        // each last element is maximal in its sequence, and each occurs in
        // the other sequence, so the two compare equal in both directions
        assert(t.to_multiset().count(y) > 0);
        assert(s.contains(y));
        let iy = choose|m: int| 0 <= m < s.len() && s[m] == y;
        assert(y.le_spec(x)) by {
            if iy < n - 1 {
                assert(s[iy].le_spec(s[n - 1]));
            }
        }
        assert(s.to_multiset().count(x) > 0);
        assert(t.contains(x));
        let ix = choose|m: int| 0 <= m < t.len() && t[m] == x;
        assert(x.le_spec(y)) by {
            if ix < n - 1 {
                assert(t[ix].le_spec(t[n - 1]));
            }
        }
        // so both stand last in the filter of x's class, which the two
        // sequences share: the last elements are one value
        let q = equiv_to(x);
        assert(q(x) && q(y));
        perm::lemma_filter_push(sd, x, q);
        perm::lemma_filter_push(td, y, q);
        assert(s.filter(q) == t.filter(q));
        assert(sd.filter(q).push(x) == td.filter(q).push(y));
        assert(sd.filter(q).push(x).last() == x);
        assert(td.filter(q).push(y).last() == y);
        assert(x == y);
        // strip the shared last element: every class filter still agrees
        assert forall|k: T| #[trigger] sd.filter(equiv_to(k)) == td.filter(equiv_to(k)) by {
            let q2 = equiv_to(k);
            perm::lemma_filter_push(sd, x, q2);
            perm::lemma_filter_push(td, x, q2);
            assert(s.filter(q2) == t.filter(q2));
            if q2(x) {
                assert(sd.filter(q2).push(x) == td.filter(q2).push(x));
                assert(sd.filter(q2) =~= sd.filter(q2).push(x).drop_last());
                assert(td.filter(q2) =~= td.filter(q2).push(x).drop_last());
            }
        }
        // the multisets and sortedness survive the stripping as well
        assert(s.to_multiset() == sd.to_multiset().insert(x));
        assert(t.to_multiset() == td.to_multiset().insert(x));
        assert(sd.to_multiset() =~= td.to_multiset()) by {
            assert forall|z: T| sd.to_multiset().count(z) == td.to_multiset().count(z) by {
                assert(sd.to_multiset().insert(x).count(z) == td.to_multiset().insert(x).count(
                    z,
                ));
            }
        }
        assert(sorted(sd)) by {
            assert forall|a: int, b: int|
                0 <= a < b < sd.len() && b < sd.len() implies #[trigger] sd[a].le_spec(sd[b]) by {
                assert(s[a].le_spec(s[b]));
            }
        }
        assert(sorted(td)) by {
            assert forall|a: int, b: int|
                0 <= a < b < td.len() && b < td.len() implies #[trigger] td[a].le_spec(td[b]) by {
                assert(t[a].le_spec(t[b]));
            }
        }
        lemma_stable_sorted_permutation_unique(sd, td);
        assert(s =~= t);
    }
}

} // verus!
