//! Candidate sets kept in a `fixed_bitset::Bitset` for the numbers below
//! nine.
use fixed_bitset::Bitset;
use typenum::consts::U9;
use vstd::prelude::*;
use vstd::set_lib::set_int_range;
use crate::domain::{all_digits, count_upto, lemma_digits_len, Domain};

verus! {

/// A `fixed_bitset::Bitset` whose size is fixed at nine.
#[verifier::external_body]
#[derive(Debug)]
pub struct NineSet {
    inner: Bitset<U9>,
}

/// The numbers that the set holds.
pub uninterp spec fn nineset_members(s: NineSet) -> Set<int>;

/// `Bitset::from_iter` on a range: the set of the numbers from `lo` up to,
/// but without, `hi`. A number from nine on makes it panic and is
/// excluded.
#[verifier::external_body]
fn nineset_from_range(lo: usize, hi: usize) -> (r: NineSet)
    requires
        hi <= 9,
    ensures
        nineset_members(r) == set_int_range(lo as int, hi as int),
{
    NineSet { inner: Bitset::from_iter(lo..hi) }
}

/// `Bitset::contains`: whether `value` is in the set. A number from nine
/// on makes it panic and is excluded.
#[verifier::external_body]
fn nineset_contains(s: &NineSet, value: usize) -> (r: bool)
    requires
        value < 9,
    ensures
        r == nineset_members(*s).contains(value as int),
{
    s.inner.contains(value)
}

/// `Bitset::insert`: `value` joins the set, which is otherwise unchanged.
/// A number from nine on makes it panic and is excluded.
#[verifier::external_body]
fn nineset_insert(s: &mut NineSet, value: usize)
    requires
        value < 9,
    ensures
        nineset_members(*final(s)) == nineset_members(*old(s)).insert(value as int),
{
    s.inner.insert(value)
}

/// `Bitset::remove`: `value` leaves the set, which is otherwise unchanged.
/// A number from nine on makes it panic and is excluded.
#[verifier::external_body]
fn nineset_remove(s: &mut NineSet, value: usize)
    requires
        value < 9,
    ensures
        nineset_members(*final(s)) == nineset_members(*old(s)).remove(value as int),
{
    s.inner.remove(value)
}

/// `Bitset::clone`: a set with the same members.
#[verifier::external_body]
fn nineset_clone(s: &NineSet) -> (r: NineSet)
    ensures
        nineset_members(r) == nineset_members(*s),
{
    NineSet { inner: s.inner.clone() }
}

impl Domain for NineSet {
    open spec fn digits(&self) -> Set<int> {
        nineset_members(*self)
    }

    open spec fn wf(&self) -> bool {
        nineset_members(*self).subset_of(all_digits())
    }

    proof fn lemma_wf(&self) {
    }

    fn full() -> (r: Self) {
        nineset_from_range(0, 9)
    }

    fn test(&self, d: usize) -> (r: bool) {
        nineset_contains(self, d)
    }

    fn set(&mut self, d: usize) {
        nineset_insert(self, d);
    }

    fn clear(&mut self, d: usize) {
        nineset_remove(self, d);
    }

    fn count(&self) -> (r: u32) {
        let mut n: u32 = 0;
        let mut d: usize = 0;
        while d < 9
            invariant
                d <= 9,
                n == count_upto(self.digits(), d as int),
                n <= d,
            decreases 9 - d,
        {
            if nineset_contains(self, d) {
                n += 1;
            }
            d += 1;
        }
        proof {
            lemma_digits_len(self.digits());
        }
        n
    }

    fn lowest(&self) -> (r: Option<usize>) {
        let mut d: usize = 0;
        while d < 9
            invariant
                d <= 9,
                self.wf(),
                forall|e: int| 0 <= e < d ==> !self.digits().contains(e),
            decreases 9 - d,
        {
            if nineset_contains(self, d) {
                return Some(d);
            }
            d += 1;
        }
        assert(self.digits() =~= Set::<int>::empty());
        None
    }

    fn meet(&self, other: &Self) -> (r: Self) {
        let mut out: NineSet = nineset_clone(self);
        let mut d: usize = 0;
        while d < 9
            invariant
                d <= 9,
                self.wf(),
                out.wf(),
                forall|e: int|
                    out.digits().contains(e) == (self.digits().contains(e) && (e >= d
                        || other.digits().contains(e))),
            decreases 9 - d,
        {
            if !nineset_contains(other, d) {
                nineset_remove(&mut out, d);
            }
            d += 1;
        }
        assert(out.digits() =~= self.digits().intersect(other.digits()));
        out
    }

    fn dup(&self) -> (r: Self) {
        nineset_clone(self)
    }
}

} // verus!
