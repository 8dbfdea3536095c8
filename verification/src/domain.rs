//! The candidate set of one unit (a row, a column or a box), abstractly.
use vstd::prelude::*;
use vstd::set_lib::*;

verus! {

/// The nine digits, numbered 0 to 8.
pub open spec fn all_digits() -> Set<int> {
    set_int_range(0, 9)
}

/// `d` is the least member of `s`.
pub open spec fn is_lowest(s: Set<int>, d: int) -> bool {
    s.contains(d) && forall|e: int| s.contains(e) ==> d <= e
}

/// How many of the integers `0 .. k` are members of `s`.
pub open spec fn count_upto(s: Set<int>, k: int) -> nat
    decreases k,
{
    if k <= 0 {
        0
    } else {
        count_upto(s, k - 1) + if s.contains(k - 1) {
            1nat
        } else {
            0nat
        }
    }
}

/// The members of `s` below `k` are finitely many, and `count_upto` counts them.
pub proof fn lemma_count_upto(s: Set<int>, k: int)
    requires
        0 <= k,
    ensures
        s.intersect(set_int_range(0, k)).finite(),
        s.intersect(set_int_range(0, k)).len() == count_upto(s, k),
    decreases k,
{
    if k == 0 {
        assert(s.intersect(set_int_range(0, k)) =~= Set::empty());
    } else {
        lemma_count_upto(s, k - 1);
        let below = s.intersect(set_int_range(0, k - 1));
        if s.contains(k - 1) {
            assert(s.intersect(set_int_range(0, k)) =~= below.insert(k - 1));
        } else {
            assert(s.intersect(set_int_range(0, k)) =~= below);
        }
    }
}

/// A set of digits is finite, has at most nine members, and `count_upto`
/// gives its size.
pub proof fn lemma_digits_len(s: Set<int>)
    requires
        s.subset_of(all_digits()),
    ensures
        s.finite(),
        s.len() == count_upto(s, 9),
        s.len() <= 9,
{
    lemma_count_upto(s, 9);
    assert(s.intersect(set_int_range(0, 9)) =~= s);
    lemma_count_upto_bound(s, 9);
}

/// `count_upto(s, k)` is at most `k`.
pub proof fn lemma_count_upto_bound(s: Set<int>, k: int)
    requires
        0 <= k,
    ensures
        count_upto(s, k) <= k,
    decreases k,
{
    if k > 0 {
        lemma_count_upto_bound(s, k - 1);
    }
}

/// A set of candidate digits with constant-time membership, insertion,
/// removal, size and least member.
///
/// Every representation describes itself by `digits`, the set of digits it
/// holds; all contracts are stated over that set.
pub trait Domain: Sized {
    /// The digits held.
    spec fn digits(&self) -> Set<int>;

    /// The representation is in order (no stray bits, the right length).
    spec fn wf(&self) -> bool;

    /// A well-formed domain holds digits only.
    proof fn lemma_wf(&self)
        requires
            self.wf(),
        ensures
            self.digits().subset_of(all_digits()),
    ;

    /// The domain that holds all nine digits.
    fn full() -> (r: Self)
        ensures
            r.wf(),
            r.digits() == all_digits(),
    ;

    /// Whether digit `d` is held.
    fn test(&self, d: usize) -> (r: bool)
        requires
            self.wf(),
            d < 9,
        ensures
            r == self.digits().contains(d as int),
    ;

    /// Adds digit `d`.
    fn set(&mut self, d: usize)
        requires
            old(self).wf(),
            d < 9,
        ensures
            final(self).wf(),
            final(self).digits() == old(self).digits().insert(d as int),
    ;

    /// Removes digit `d`.
    fn clear(&mut self, d: usize)
        requires
            old(self).wf(),
            d < 9,
        ensures
            final(self).wf(),
            final(self).digits() == old(self).digits().remove(d as int),
    ;

    /// The number of digits held.
    fn count(&self) -> (r: u32)
        requires
            self.wf(),
        ensures
            r == self.digits().len(),
            r <= 9,
    ;

    /// The least digit held, if any.
    fn lowest(&self) -> (r: Option<usize>)
        requires
            self.wf(),
        ensures
            match r {
                Some(d) => d < 9 && is_lowest(self.digits(), d as int),
                None => self.digits() == Set::<int>::empty(),
            },
    ;

    /// The digits held by both `self` and `other`.
    fn meet(&self, other: &Self) -> (r: Self)
        requires
            self.wf(),
            other.wf(),
        ensures
            r.wf(),
            r.digits() == self.digits().intersect(other.digits()),
    ;

    /// A copy that holds the same digits.
    fn dup(&self) -> (r: Self)
        requires
            self.wf(),
        ensures
            r.wf(),
            r.digits() == self.digits(),
    ;
}

} // verus!
