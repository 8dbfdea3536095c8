//! Candidate sets kept in a `bit_vec::BitVec` of nine bits.
use bit_vec::BitVec;
use vstd::prelude::*;
use crate::domain::{all_digits, count_upto, lemma_digits_len, Domain};

verus! {

/// `bit_vec::BitVec`, a growable vector of bits.
#[verifier::external_type_specification]
#[verifier::external_body]
#[verifier::reject_recursive_types(B)]
pub struct ExBitVec<B>(BitVec<B>);

/// The bits that a bit vector holds, from position 0 on.
pub uninterp spec fn bitvec_bits(v: BitVec) -> Seq<bool>;

/// How many of `bits` are set.
pub open spec fn count_true(bits: Seq<bool>) -> nat
    decreases bits.len(),
{
    if bits.len() == 0 {
        0
    } else {
        count_true(bits.drop_last()) + if bits.last() {
            1nat
        } else {
            0nat
        }
    }
}

/// `BitVec::from_elem`: a vector of `len` bits, each equal to `bit`.
#[verifier::external_body]
fn bitvec_from_elem(len: usize, bit: bool) -> (r: BitVec)
    ensures
        bitvec_bits(r) == Seq::new(len as nat, |i: int| bit),
{
    BitVec::from_elem(len, bit)
}

/// `BitVec::get`: the bit at position `i`, or `None` past the end.
#[verifier::external_body]
fn bitvec_get(v: &BitVec, i: usize) -> (r: Option<bool>)
    ensures
        r == (if i < bitvec_bits(*v).len() {
            Some(bitvec_bits(*v)[i as int])
        } else {
            None
        }),
{
    v.get(i)
}

/// `BitVec::set`: the bit at position `i` becomes `x`, the others stay.
/// A position past the end makes it panic and is excluded.
#[verifier::external_body]
fn bitvec_set(v: &mut BitVec, i: usize, x: bool)
    requires
        i < bitvec_bits(*old(v)).len(),
    ensures
        bitvec_bits(*final(v)) == bitvec_bits(*old(v)).update(i as int, x),
{
    v.set(i, x)
}

/// `BitVec::and`: each bit of `v` becomes its conjunction with the bit of
/// `other` at the same position; the result tells whether `v` changed.
/// Vectors of different lengths make it panic and are excluded.
#[verifier::external_body]
fn bitvec_and(v: &mut BitVec, other: &BitVec) -> (changed: bool)
    requires
        bitvec_bits(*old(v)).len() == bitvec_bits(*other).len(),
    ensures
        bitvec_bits(*final(v)) == Seq::new(
            bitvec_bits(*old(v)).len(),
            |i: int| bitvec_bits(*old(v))[i] && bitvec_bits(*other)[i],
        ),
        changed == (bitvec_bits(*final(v)) != bitvec_bits(*old(v))),
{
    v.and(other)
}

/// `BitVec::count_ones`: the number of bits that are set.
#[verifier::external_body]
fn bitvec_count_ones(v: &BitVec) -> (r: u64)
    ensures
        r == count_true(bitvec_bits(*v)),
{
    v.count_ones()
}

/// `BitVec::clone`: a vector with the same bits.
#[verifier::external_body]
fn bitvec_clone(v: &BitVec) -> (r: BitVec)
    ensures
        bitvec_bits(r) == bitvec_bits(*v),
{
    v.clone()
}

/// The digits whose bits are set in `bits`.
pub open spec fn bits_digits(bits: Seq<bool>) -> Set<int> {
    Set::new(|d: int| 0 <= d < 9 && d < bits.len() && bits[d])
}

/// Counting the set bits among the first `k` is counting the digits
/// below `k`.
pub proof fn lemma_count_true(bits: Seq<bool>, k: int)
    requires
        0 <= k <= bits.len(),
        k <= 9,
    ensures
        count_true(bits.take(k)) == count_upto(bits_digits(bits), k),
    decreases k,
{
    if k > 0 {
        lemma_count_true(bits, k - 1);
        assert(bits.take(k).drop_last() =~= bits.take(k - 1));
    }
}

impl Domain for BitVec {
    open spec fn digits(&self) -> Set<int> {
        bits_digits(bitvec_bits(*self))
    }

    open spec fn wf(&self) -> bool {
        bitvec_bits(*self).len() == 9
    }

    proof fn lemma_wf(&self) {
    }

    fn full() -> (r: Self) {
        let r = bitvec_from_elem(9, true);
        assert(bits_digits(bitvec_bits(r)) =~= all_digits());
        r
    }

    fn test(&self, d: usize) -> (r: bool) {
        match bitvec_get(self, d) {
            Some(bit) => bit,
            None => false,
        }
    }

    fn set(&mut self, d: usize) {
        bitvec_set(self, d, true);
        assert(bits_digits(bitvec_bits(*self)) =~= bits_digits(bitvec_bits(*old(self))).insert(
            d as int,
        ));
    }

    fn clear(&mut self, d: usize) {
        bitvec_set(self, d, false);
        assert(bits_digits(bitvec_bits(*self)) =~= bits_digits(bitvec_bits(*old(self))).remove(
            d as int,
        ));
    }

    fn count(&self) -> (r: u32) {
        proof {
            let bits = bitvec_bits(*self);
            lemma_count_true(bits, 9);
            assert(bits.take(9) =~= bits);
            lemma_digits_len(bits_digits(bits));
        }
        bitvec_count_ones(self) as u32
    }

    fn lowest(&self) -> (r: Option<usize>) {
        let mut c: usize = 0;
        while c < 9
            invariant
                c <= 9,
                self.wf(),
                forall|e: int| 0 <= e < c ==> !self.digits().contains(e),
            decreases 9 - c,
        {
            if bitvec_get(self, c) == Some(true) {
                return Some(c);
            }
            c += 1;
        }
        assert(self.digits() =~= Set::<int>::empty());
        None
    }

    fn meet(&self, other: &Self) -> (r: Self) {
        let mut bs: BitVec = bitvec_clone(self);
        bitvec_and(&mut bs, other);
        assert(bits_digits(bitvec_bits(bs)) =~= self.digits().intersect(other.digits()));
        bs
    }

    fn dup(&self) -> (r: Self) {
        bitvec_clone(self)
    }
}

} // verus!
