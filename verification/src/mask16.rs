//! Candidate sets packed into the low nine bits of a `u16`.
use bitset_core::BitSet;
use vstd::prelude::*;
use vstd::set_lib::*;
use crate::domain::{all_digits, count_upto, is_lowest, lemma_digits_len, Domain};

verus! {

/// The mask with the nine digit bits set.
pub const FULL_MASK: u16 = 0x1ff;

/// Bit `d` of `m` is set.
pub open spec fn has_bit(m: u16, d: int) -> bool {
    0 <= d < 16 && m & (1u16 << (d as u16)) != 0
}

/// The digits whose bits are set in `m`.
pub open spec fn mask_digits(m: u16) -> Set<int> {
    Set::new(|d: int| 0 <= d < 9 && has_bit(m, d))
}

/// The number of ones in the binary representation of `m`.
pub open spec fn popcount(m: u16) -> nat
    decreases m,
{
    if m == 0 {
        0
    } else {
        (m % 2) as nat + popcount(m / 2)
    }
}

/// `bitset_core::BitSet::bit_test` on a `u16`: whether bit `bit` is set.
/// The shift overflows for `bit >= 16`, which is excluded.
#[verifier::external_body]
fn mask_bit_test(m: &u16, bit: usize) -> (r: bool)
    requires
        bit < 16,
    ensures
        r == (*m & (1u16 << (bit as u16)) != 0),
{
    m.bit_test(bit)
}

/// `bitset_core::BitSet::bit_set` on a `u16`: sets bit `bit`, leaves the
/// others.
#[verifier::external_body]
fn mask_bit_set(m: &mut u16, bit: usize)
    requires
        bit < 16,
    ensures
        *final(m) == *old(m) | (1u16 << (bit as u16)),
{
    m.bit_set(bit);
}

/// `bitset_core::BitSet::bit_reset` on a `u16`: clears bit `bit`, leaves
/// the others.
#[verifier::external_body]
fn mask_bit_reset(m: &mut u16, bit: usize)
    requires
        bit < 16,
    ensures
        *final(m) == *old(m) & !(1u16 << (bit as u16)),
{
    m.bit_reset(bit);
}

/// `u16::count_ones`: the number of ones in the binary representation.
#[verifier::external_body]
fn mask_count_ones(m: u16) -> (r: u32)
    ensures
        r == popcount(m),
{
    m.count_ones()
}

/// How setting a bit, clearing a bit and the bitwise AND change the single
/// bits of a mask, and how a single bit shows in the shifted mask.
pub proof fn lemma_bit_ops(m: u16, n: u16, d: u16, e: u16)
    requires
        d < 16,
        e < 16,
    ensures
        ((m | (1u16 << d)) & (1u16 << e) != 0) == (e == d || m & (1u16 << e) != 0),
        ((m & !(1u16 << d)) & (1u16 << e) != 0) == (e != d && m & (1u16 << e) != 0),
        ((m & n) & (1u16 << e) != 0) == (m & (1u16 << e) != 0 && n & (1u16 << e) != 0),
        (m & (1u16 << e) != 0) == ((m >> e) & 1u16 == 1u16),
        (m & (1u16 << e) != 0) == ((m >> e) % 2 == 1),
        e < 15 ==> (m >> e) / 2 == m >> ((e + 1) as u16),
        m >> 0u16 == m,
{
    assert(((m | (1u16 << d)) & (1u16 << e) != 0) == (e == d || m & (1u16 << e) != 0))
        by (bit_vector)
        requires
            d < 16,
            e < 16,
    ;
    assert(((m & !(1u16 << d)) & (1u16 << e) != 0) == (e != d && m & (1u16 << e) != 0))
        by (bit_vector)
        requires
            d < 16,
            e < 16,
    ;
    assert(((m & n) & (1u16 << e) != 0) == (m & (1u16 << e) != 0 && n & (1u16 << e) != 0))
        by (bit_vector)
        requires
            e < 16,
    ;
    assert((m & (1u16 << e) != 0) == ((m >> e) & 1u16 == 1u16)) by (bit_vector)
        requires
            e < 16,
    ;
    assert((m & (1u16 << e) != 0) == ((m >> e) % 2 == 1)) by (bit_vector)
        requires
            e < 16,
    ;
    assert(e < 15 ==> (m >> e) / 2 == m >> ((e + 1) as u16)) by (bit_vector);
    assert(m >> 0u16 == m) by (bit_vector);
}

/// Setting or clearing a digit bit and the bitwise AND keep a mask within
/// the nine digit bits.
pub proof fn lemma_small_mask(m: u16, d: u16)
    requires
        m <= 0x1ff,
        d < 9,
    ensures
        m | (1u16 << d) <= 0x1ff,
        m & !(1u16 << d) <= 0x1ff,
        m >> 9u16 == 0,
        forall|n: u16| #[trigger] (m & n) <= 0x1ff,
{
    assert(m | (1u16 << d) <= 0x1ff) by (bit_vector)
        requires
            m <= 0x1ff,
            d < 9,
    ;
    assert(m & !(1u16 << d) <= 0x1ff) by (bit_vector)
        requires
            m <= 0x1ff,
    ;
    assert(m >> 9u16 == 0) by (bit_vector)
        requires
            m <= 0x1ff,
    ;
    assert forall|n: u16| #[trigger] (m & n) <= 0x1ff by {
        assert(m & n <= 0x1ff) by (bit_vector)
            requires
                m <= 0x1ff,
        ;
    }
}

/// The ones of `m` are those among its low `k` bits plus those of `m >> k`.
pub proof fn lemma_popcount_split(m: u16, k: u16)
    requires
        k <= 15,
    ensures
        popcount(m) == count_upto(Set::new(|d: int| has_bit(m, d)), k as int) + popcount(m >> k),
    decreases k,
{
    let s = Set::new(|d: int| has_bit(m, d));
    if k == 0 {
        lemma_bit_ops(m, 0, 0, 0);
    } else {
        let j = (k - 1) as u16;
        lemma_popcount_split(m, j);
        lemma_bit_ops(m, 0, 0, j);
        assert(s.contains(j as int) == has_bit(m, j as int));
        assert(popcount(m >> j) == ((m >> j) % 2) as nat + popcount((m >> j) / 2)) by {
            if m >> j == 0 {
                assert(popcount(0) == 0);
            }
        }
    }
}

/// On a mask that uses the digit bits only, `popcount` is the size of the
/// digit set.
pub proof fn lemma_popcount_digits(m: u16)
    requires
        m <= FULL_MASK,
    ensures
        mask_digits(m).finite(),
        popcount(m) == mask_digits(m).len(),
{
    lemma_popcount_split(m, 9);
    lemma_small_mask(m, 0);
    let s = Set::new(|d: int| has_bit(m, d));
    lemma_count_upto_same(s, mask_digits(m), 9);
    lemma_digits_len(mask_digits(m));
}

/// Two sets with the same members below `k` have the same `count_upto`.
pub proof fn lemma_count_upto_same(s: Set<int>, t: Set<int>, k: int)
    requires
        forall|d: int| 0 <= d < k ==> s.contains(d) == t.contains(d),
    ensures
        count_upto(s, k) == count_upto(t, k),
    decreases k,
{
    if k > 0 {
        lemma_count_upto_same(s, t, k - 1);
    }
}

/// A mask within the nine digit bits holds digits only.
pub open spec fn is_digit_mask(m: u16) -> bool {
    m <= FULL_MASK
}

/// The full mask holds every digit.
pub proof fn lemma_mask_full()
    ensures
        mask_digits(FULL_MASK) == all_digits(),
{
    assert forall|d: int| 0 <= d < 9 implies has_bit(0x1ffu16, d) by {
        let e = d as u16;
        assert(e < 9 ==> 0x1ffu16 & (1u16 << e) != 0) by (bit_vector);
    }
    assert(mask_digits(0x1ffu16) =~= all_digits());
}

/// The empty mask holds no digit.
pub proof fn lemma_mask_empty()
    ensures
        mask_digits(0) == Set::<int>::empty(),
{
    assert forall|e: int| 0 <= e < 9 implies !has_bit(0u16, e) by {
        let f = e as u16;
        assert(f < 16 ==> 0u16 & (1u16 << f) == 0) by (bit_vector);
    }
    assert(mask_digits(0) =~= Set::<int>::empty());
}

/// Setting bit `d` adds digit `d`.
pub proof fn lemma_mask_set(m: u16, d: u16)
    requires
        is_digit_mask(m),
        d < 9,
    ensures
        is_digit_mask(m | (1u16 << d)),
        mask_digits(m | (1u16 << d)) == mask_digits(m).insert(d as int),
{
    let n = m | (1u16 << d);
    lemma_small_mask(m, d);
    assert forall|e: int| mask_digits(n).contains(e) == mask_digits(m).insert(d as int).contains(
        e,
    ) by {
        if 0 <= e < 9 {
            lemma_bit_ops(m, 0, d, e as u16);
        }
    }
    assert(mask_digits(n) =~= mask_digits(m).insert(d as int));
}

/// Clearing bit `d` removes digit `d`.
pub proof fn lemma_mask_clear(m: u16, d: u16)
    requires
        is_digit_mask(m),
        d < 9,
    ensures
        is_digit_mask(m & !(1u16 << d)),
        mask_digits(m & !(1u16 << d)) == mask_digits(m).remove(d as int),
{
    let n = m & !(1u16 << d);
    lemma_small_mask(m, d);
    assert forall|e: int| mask_digits(n).contains(e) == mask_digits(m).remove(d as int).contains(
        e,
    ) by {
        if 0 <= e < 9 {
            lemma_bit_ops(m, 0, d, e as u16);
        }
    }
    assert(mask_digits(n) =~= mask_digits(m).remove(d as int));
}

/// The bitwise AND of two masks holds the digits that both hold.
pub proof fn lemma_mask_and(m: u16, n: u16)
    requires
        is_digit_mask(m),
    ensures
        is_digit_mask(m & n),
        mask_digits(m & n) == mask_digits(m).intersect(mask_digits(n)),
{
    lemma_small_mask(m, 0);
    assert forall|e: int| 0 <= e < 9 implies has_bit(m & n, e) == (has_bit(m, e) && has_bit(
        n,
        e,
    )) by {
        lemma_bit_ops(m, n, 0, e as u16);
    }
    assert(mask_digits(m & n) =~= mask_digits(m).intersect(mask_digits(n)));
}

/// The position of the lowest set bit of a mask, if below nine, is its
/// least digit.
pub proof fn lemma_mask_lowest(m: u16, t: u16)
    requires
        t < 9,
        has_bit(m, t as int),
        forall|j: u16| j < t ==> !has_bit(m, j as int),
    ensures
        is_lowest(mask_digits(m), t as int),
{
    assert forall|e: int| mask_digits(m).contains(e) implies t <= e by {
        if e < t {
            assert(!has_bit(m, (e as u16) as int));
        }
    }
}

/// Two masks within the digit bits that hold the same digits are equal.
pub proof fn lemma_mask_digits_injective(m: u16, n: u16)
    requires
        is_digit_mask(m),
        is_digit_mask(n),
        mask_digits(m) == mask_digits(n),
    ensures
        m == n,
{
    assert forall|d: int| 0 <= d < 9 implies has_bit(m, d) == has_bit(n, d) by {
        assert(mask_digits(m).contains(d) == has_bit(m, d));
        assert(mask_digits(n).contains(d) == has_bit(n, d));
    }
    assert(has_bit(m, 0) == has_bit(n, 0));
    assert(has_bit(m, 1) == has_bit(n, 1));
    assert(has_bit(m, 2) == has_bit(n, 2));
    assert(has_bit(m, 3) == has_bit(n, 3));
    assert(has_bit(m, 4) == has_bit(n, 4));
    assert(has_bit(m, 5) == has_bit(n, 5));
    assert(has_bit(m, 6) == has_bit(n, 6));
    assert(has_bit(m, 7) == has_bit(n, 7));
    assert(has_bit(m, 8) == has_bit(n, 8));
    assert(m == n) by (bit_vector)
        requires
            m <= 0x1ff,
            n <= 0x1ff,
            (m & (1u16 << 0u16) != 0) == (n & (1u16 << 0u16) != 0),
            (m & (1u16 << 1u16) != 0) == (n & (1u16 << 1u16) != 0),
            (m & (1u16 << 2u16) != 0) == (n & (1u16 << 2u16) != 0),
            (m & (1u16 << 3u16) != 0) == (n & (1u16 << 3u16) != 0),
            (m & (1u16 << 4u16) != 0) == (n & (1u16 << 4u16) != 0),
            (m & (1u16 << 5u16) != 0) == (n & (1u16 << 5u16) != 0),
            (m & (1u16 << 6u16) != 0) == (n & (1u16 << 6u16) != 0),
            (m & (1u16 << 7u16) != 0) == (n & (1u16 << 7u16) != 0),
            (m & (1u16 << 8u16) != 0) == (n & (1u16 << 8u16) != 0),
    ;
}

/// Where the candidate sets are masks, the candidates of a cell are the
/// bitwise AND of the masks of its row, its column and its box: a mask
/// that holds the digits common to the three is that AND.
pub proof fn lemma_candidates_are_and(h: u16, v: u16, b: u16, r: u16)
    requires
        is_digit_mask(h),
        is_digit_mask(v),
        is_digit_mask(b),
        is_digit_mask(r),
        mask_digits(r) == mask_digits(h).intersect(mask_digits(v)).intersect(mask_digits(b)),
    ensures
        r == h & v & b,
{
    lemma_mask_and(h, v);
    lemma_mask_and(h & v, b);
    lemma_mask_digits_injective(r, h & v & b);
}

impl Domain for u16 {
    open spec fn digits(&self) -> Set<int> {
        mask_digits(*self)
    }

    open spec fn wf(&self) -> bool {
        is_digit_mask(*self)
    }

    proof fn lemma_wf(&self) {
    }

    fn full() -> (r: Self)
        ensures
            r == FULL_MASK,
    {
        proof {
            lemma_mask_full();
        }
        FULL_MASK
    }

    fn test(&self, d: usize) -> (r: bool)
        ensures
            r == (*self & (1u16 << (d as u16)) != 0),
    {
        mask_bit_test(self, d)
    }

    fn set(&mut self, d: usize)
        ensures
            *final(self) == *old(self) | (1u16 << (d as u16)),
    {
        proof {
            lemma_mask_set(*self, d as u16);
        }
        mask_bit_set(self, d);
    }

    fn clear(&mut self, d: usize)
        ensures
            *final(self) == *old(self) & !(1u16 << (d as u16)),
    {
        proof {
            lemma_mask_clear(*self, d as u16);
        }
        mask_bit_reset(self, d);
    }

    fn count(&self) -> (r: u32)
        ensures
            r == popcount(*self),
    {
        proof {
            lemma_popcount_digits(*self);
            lemma_digits_len(mask_digits(*self));
        }
        mask_count_ones(*self)
    }

    fn lowest(&self) -> (r: Option<usize>) {
        let t: u32 = self.trailing_zeros();
        proof {
            vstd::std_specs::bits::axiom_u16_trailing_zeros(*self);
            lemma_small_mask(*self, 0);
            if t < 16 {
                lemma_bit_ops(*self, 0, 0, t as u16);
                if t >= 9 {
                    assert((*self >> (t as u16)) & 1u16 == 0) by (bit_vector)
                        requires
                            *self <= 0x1ff,
                            9 <= t < 16,
                    ;
                }
                assert forall|j: u16| j < t implies !has_bit(*self, j as int) by {
                    lemma_bit_ops(*self, 0, 0, j);
                    assert((*self >> j) & 1u16 == 0u16);
                }
                lemma_mask_lowest(*self, t as u16);
            } else {
                lemma_mask_empty();
            }
        }
        if t < 9 {
            Some(t as usize)
        } else {
            None
        }
    }

    /// The bitwise AND of the two masks.
    fn meet(&self, other: &Self) -> (r: Self)
        ensures
            r == *self & *other,
    {
        proof {
            lemma_mask_and(*self, *other);
        }
        *self & *other
    }

    fn dup(&self) -> (r: Self)
        ensures
            r == *self,
    {
        *self
    }
}

} // verus!
