//! The comparison capability that every sorting procedure is generic over,
//! and the basic vocabulary for speaking about sorted sequences.

use vstd::prelude::*;

verus! {

/// A total order on plain, copyable values.
///
/// `le_spec` is the mathematical meaning of the comparison; `le` is the
/// executable test. Every implementing type must prove that the order is
/// total and transitive, which is what the sorting proofs rely on.
/// The order need not be antisymmetric: two distinct values may compare
/// equal in both directions (see [`Keyed`]), in which case a stable sort
/// keeps their original arrangement.
pub trait Ordered: Sized + Copy {
    /// What the comparison means: `self` sorts no later than `other`.
    spec fn le_spec(self, other: Self) -> bool;

    /// The order is total: of any two values, at least one sorts no later
    /// than the other. (Applied to a value and itself this gives reflexivity.)
    proof fn lemma_total(a: Self, b: Self)
        ensures
            a.le_spec(b) || b.le_spec(a),
    ;

    /// The order is transitive.
    proof fn lemma_trans(a: Self, b: Self, c: Self)
        requires
            a.le_spec(b),
            b.le_spec(c),
        ensures
            a.le_spec(c),
    ;

    /// Executable comparison, deciding `le_spec`.
    fn le(self, other: Self) -> (r: bool)
        ensures
            r == self.le_spec(other),
    ;
}

impl Ordered for i32 {
    open spec fn le_spec(self, other: i32) -> bool {
        self <= other
    }

    proof fn lemma_total(a: i32, b: i32) {
    }

    proof fn lemma_trans(a: i32, b: i32, c: i32) {
    }

    fn le(self, other: i32) -> (r: bool) {
        self <= other
    }
}

impl Ordered for u32 {
    open spec fn le_spec(self, other: u32) -> bool {
        self <= other
    }

    proof fn lemma_total(a: u32, b: u32) {
    }

    proof fn lemma_trans(a: u32, b: u32, c: u32) {
    }

    fn le(self, other: u32) -> (r: bool) {
        self <= other
    }
}

impl Ordered for u64 {
    open spec fn le_spec(self, other: u64) -> bool {
        self <= other
    }

    proof fn lemma_total(a: u64, b: u64) {
    }

    proof fn lemma_trans(a: u64, b: u64, c: u64) {
    }

    fn le(self, other: u64) -> (r: bool) {
        self <= other
    }
}

impl Ordered for i64 {
    open spec fn le_spec(self, other: i64) -> bool {
        self <= other
    }

    proof fn lemma_total(a: i64, b: i64) {
    }

    proof fn lemma_trans(a: i64, b: i64, c: i64) {
    }

    fn le(self, other: i64) -> (r: bool) {
        self <= other
    }
}

impl Ordered for usize {
    open spec fn le_spec(self, other: usize) -> bool {
        self <= other
    }

    proof fn lemma_total(a: usize, b: usize) {
    }

    proof fn lemma_trans(a: usize, b: usize, c: usize) {
    }

    fn le(self, other: usize) -> (r: bool) {
        self <= other
    }
}

impl Ordered for char {
    open spec fn le_spec(self, other: char) -> bool {
        (self as u32) <= (other as u32)
    }

    proof fn lemma_total(a: char, b: char) {
    }

    proof fn lemma_trans(a: char, b: char, c: char) {
    }

    fn le(self, other: char) -> (r: bool) {
        (self as u32) <= (other as u32)
    }
}

/// A value whose sort key is `key` while `tag` merely distinguishes
/// otherwise equal values. Under this order two values with the same key
/// compare equal in both directions, so it exercises the stability of a
/// sort: a stable procedure keeps equal-keyed values in their original
/// relative arrangement.
#[derive(Clone, Copy, PartialEq, Eq, Structural, Debug)]
pub struct Keyed {
    pub key: u32,
    pub tag: u32,
}

impl Ordered for Keyed {
    open spec fn le_spec(self, other: Keyed) -> bool {
        self.key <= other.key
    }

    proof fn lemma_total(a: Keyed, b: Keyed) {
    }

    proof fn lemma_trans(a: Keyed, b: Keyed, c: Keyed) {
    }

    fn le(self, other: Keyed) -> (r: bool) {
        self.key <= other.key
    }
}

/// The values that compare equal to `k` in both directions: `k`'s
/// equivalence class under the order. A sort is stable when it keeps, for
/// every class, the class's members in their original relative order — that
/// is, when it preserves `s.filter(equiv_to(k))` for every `k`.
pub open spec fn equiv_to<T: Ordered>(k: T) -> spec_fn(T) -> bool {
    |x: T| x.le_spec(k) && k.le_spec(x)
}

/// The part of `s` between positions `lo` (inclusive) and `hi` (exclusive)
/// is in non-descending order.
pub open spec fn sorted_range<T: Ordered>(s: Seq<T>, lo: int, hi: int) -> bool {
    forall|a: int, b: int| lo <= a < b < hi && 0 <= a && b < s.len() ==> #[trigger] s[a].le_spec(s[b])
}

/// The whole sequence is in non-descending order.
pub open spec fn sorted<T: Ordered>(s: Seq<T>) -> bool {
    sorted_range(s, 0, s.len() as int)
}

/// Chains single comparison steps: within a region whose adjacent pairs are
/// ordered, any earlier element sorts no later than any later one.
proof fn lemma_chain<T: Ordered>(s: Seq<T>, lo: int, hi: int, a: int, b: int)
    requires
        0 <= lo <= a <= b < hi <= s.len(),
        forall|m: int| lo <= m < hi - 1 ==> #[trigger] s[m].le_spec(s[m + 1]),
    ensures
        s[a].le_spec(s[b]),
    decreases b - a,
{
    if a == b {
        T::lemma_total(s[a], s[a]);
    } else {
        lemma_chain(s, lo, hi, a, b - 1);
        assert(s[b - 1].le_spec(s[(b - 1) + 1]));
        T::lemma_trans(s[a], s[b - 1], s[b]);
    }
}

/// A region whose adjacent pairs are ordered is sorted.
pub proof fn lemma_adjacent_sorted<T: Ordered>(s: Seq<T>, lo: int, hi: int)
    requires
        0 <= lo <= hi <= s.len(),
        forall|m: int| lo <= m < hi - 1 ==> #[trigger] s[m].le_spec(s[m + 1]),
    ensures
        sorted_range(s, lo, hi),
{
    assert forall|a: int, b: int| lo <= a < b < hi && 0 <= a && b < s.len() implies #[trigger] s[a].le_spec(s[b]) by {
        lemma_chain(s, lo, hi, a, b);
    }
}

} // verus!
