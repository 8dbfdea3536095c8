//! Candidate sets split over two bytes, for machines whose registers hold
//! eight bits: digits 0 to 7 are the bits of the low byte, digit 8 is bit 0
//! of the high byte.
use vstd::prelude::*;
use vstd::std_specs::bits::{axiom_u8_trailing_zeros, u8_trailing_zeros};
use crate::domain::{count_upto, is_lowest, lemma_digits_len, Domain};
use crate::mask16::{
    has_bit, lemma_count_upto_same, lemma_mask_and, lemma_mask_clear, lemma_mask_empty,
    lemma_mask_full, lemma_mask_lowest, lemma_mask_set, lemma_popcount_digits,
    lemma_popcount_split, mask_digits, popcount,
};

verus! {

/// For each bit of a byte, the byte that has this bit alone.
pub const SET_MASK: [u8; 8] = [
    0b00000001,
    0b00000010,
    0b00000100,
    0b00001000,
    0b00010000,
    0b00100000,
    0b01000000,
    0b10000000,
];

/// For each bit of a byte, the byte that has every bit but this one.
pub const RESET_MASK: [u8; 8] = [
    0b11111110,
    0b11111101,
    0b11111011,
    0b11110111,
    0b11101111,
    0b11011111,
    0b10111111,
    0b01111111,
];

/// The two tables hold what their names say.
pub proof fn lemma_mask_tables(bit: u8)
    requires
        bit < 8,
    ensures
        SET_MASK[bit as int] == 1u8 << bit,
        RESET_MASK[bit as int] == !(1u8 << bit),
{
    assert(1u8 << 0u8 == 1 && 1u8 << 1u8 == 2 && 1u8 << 2u8 == 4 && 1u8 << 3u8 == 8 && 1u8 << 4u8
        == 16 && 1u8 << 5u8 == 32 && 1u8 << 6u8 == 64 && 1u8 << 7u8 == 128) by (bit_vector);
    assert(!(1u8 << 0u8) == 254 && !(1u8 << 1u8) == 253 && !(1u8 << 2u8) == 251 && !(1u8 << 3u8)
        == 247 && !(1u8 << 4u8) == 239 && !(1u8 << 5u8) == 223 && !(1u8 << 6u8) == 191 && !(1u8
        << 7u8) == 127) by (bit_vector);
}

/// Sets bit `bit` of `v`.
pub fn bit_set(v: &mut u8, bit: u8)
    requires
        bit < 8,
    ensures
        *final(v) == *old(v) | (1u8 << bit),
{
    proof {
        lemma_mask_tables(bit);
    }
    *v = *v | SET_MASK[bit as usize];
}

/// Clears bit `bit` of `v`.
pub fn bit_reset(v: &mut u8, bit: u8)
    requires
        bit < 8,
    ensures
        *final(v) == *old(v) & !(1u8 << bit),
{
    proof {
        lemma_mask_tables(bit);
    }
    *v = *v & RESET_MASK[bit as usize];
}

/// `u8::count_ones`: the number of ones in the binary representation.
#[verifier::external_body]
fn byte_count_ones(v: u8) -> (r: u32)
    ensures
        r == popcount(v as u16),
{
    v.count_ones()
}

/// A byte has at most eight ones.
pub proof fn lemma_byte_popcount(v: u8)
    ensures
        popcount(v as u16) <= 8,
        popcount(v as u16) == count_upto(Set::new(|d: int| has_bit(v as u16, d)), 8),
{
    let m = v as u16;
    lemma_popcount_split(m, 8);
    assert(m >> 8u16 == 0) by (bit_vector)
        requires
            m < 256,
    ;
    crate::domain::lemma_count_upto_bound(Set::new(|d: int| has_bit(m, d)), 8);
}

/// `t` lists, for every byte, the number of its ones.
pub open spec fn is_count_table(t: Seq<u8>) -> bool {
    &&& t.len() == 256
    &&& forall|i: int| 0 <= i < 256 ==> #[trigger] t[i] == popcount(i as u16)
}

/// `t` lists, for every byte, the number of its trailing zeros (eight for
/// the byte 0).
pub open spec fn is_zeros_table(t: Seq<u8>) -> bool {
    &&& t.len() == 256
    &&& forall|i: int| 0 <= i < 256 ==> #[trigger] t[i] == u8_trailing_zeros(i as u8)
}

/// The table of the number of ones of every byte.
pub fn gen_count_ones() -> (r: Vec<u8>)
    ensures
        is_count_table(r@),
{
    let mut out: Vec<u8> = Vec::new();
    let mut i: u16 = 0;
    while i < 256
        invariant
            i <= 256,
            out@.len() == i,
            forall|k: int| 0 <= k < i ==> #[trigger] out@[k] == popcount(k as u16),
        decreases 256 - i,
    {
        proof {
            lemma_byte_popcount(i as u8);
        }
        out.push(byte_count_ones(i as u8) as u8);
        i += 1;
    }
    out
}

/// The table of the number of trailing zeros of every byte.
pub fn gen_trailing_zeros() -> (r: Vec<u8>)
    ensures
        is_zeros_table(r@),
{
    let mut out: Vec<u8> = Vec::new();
    let mut i: u16 = 0;
    while i < 256
        invariant
            i <= 256,
            out@.len() == i,
            forall|k: int| 0 <= k < i ==> #[trigger] out@[k] == u8_trailing_zeros(k as u8),
        decreases 256 - i,
    {
        proof {
            axiom_u8_trailing_zeros(i as u8);
        }
        out.push((i as u8).trailing_zeros() as u8);
        i += 1;
    }
    out
}

/// A candidate set in two bytes.
#[derive(Clone, Copy, Debug, PartialEq, Eq, Structural)]
pub struct BytePair {
    /// Digits 0 to 7.
    pub low: u8,
    /// Digit 8, in bit 0.
    pub high: u8,
}

/// The nine-bit mask that the two bytes stand for.
pub open spec fn pair_mask(low: u8, high: u8) -> u16 {
    (low as u16) | ((high as u16) << 8u16)
}

/// How the bits of the two bytes make up the mask.
pub proof fn lemma_pair_bits(low: u8, high: u8, other_low: u8, other_high: u8, d: u8)
    requires
        d < 8,
        high <= 1,
    ensures
        pair_mask(low, high) <= 0x1ff,
        pair_mask(low, high) >> 8u16 == high as u16,
        (low & (1u8 << d) != 0) == has_bit(pair_mask(low, high), d as int),
        ((low >> d) & 1u8 == 1u8) == has_bit(pair_mask(low, high), d as int),
        (low & (1u8 << d) != 0) == has_bit(low as u16, d as int),
        (high & (1u8 << 0u8) != 0) == has_bit(pair_mask(low, high), 8),
        (high != 0) == has_bit(pair_mask(low, high), 8),
        pair_mask(low | (1u8 << d), high) == pair_mask(low, high) | (1u16 << (d as u16)),
        pair_mask(low & !(1u8 << d), high) == pair_mask(low, high) & !(1u16 << (d as u16)),
        pair_mask(low, high | (1u8 << 0u8)) == pair_mask(low, high) | (1u16 << 8u16),
        pair_mask(low, high & !(1u8 << 0u8)) == pair_mask(low, high) & !(1u16 << 8u16),
        high | (1u8 << 0u8) <= 1,
        high & !(1u8 << 0u8) <= 1,
        high & other_high <= 1,
        pair_mask(low & other_low, high & other_high) == pair_mask(low, high) & pair_mask(
            other_low,
            other_high,
        ),
        low == 0 && high == 0 ==> pair_mask(low, high) == 0,
{
    let m = pair_mask(low, high);
    assert((low as u16) | ((high as u16) << 8u16) <= 0x1ff) by (bit_vector)
        requires
            high <= 1,
    ;
    assert(((low as u16) | ((high as u16) << 8u16)) >> 8u16 == high as u16) by (bit_vector);
    assert((low & (1u8 << d) != 0) == (((low as u16) | ((high as u16) << 8u16)) & (1u16 << (
    d as u16)) != 0)) by (bit_vector)
        requires
            d < 8,
    ;
    assert(((low >> d) & 1u8 == 1u8) == (low & (1u8 << d) != 0)) by (bit_vector)
        requires
            d < 8,
    ;
    assert((low & (1u8 << d) != 0) == ((low as u16) & (1u16 << (d as u16)) != 0)) by (bit_vector)
        requires
            d < 8,
    ;
    assert((high & (1u8 << 0u8) != 0) == (((low as u16) | ((high as u16) << 8u16)) & (1u16
        << 8u16) != 0)) by (bit_vector)
        requires
            high <= 1,
    ;
    assert((high != 0) == (high & (1u8 << 0u8) != 0)) by (bit_vector)
        requires
            high <= 1,
    ;
    assert((((low | (1u8 << d)) as u16) | ((high as u16) << 8u16)) == ((low as u16) | ((
    high as u16) << 8u16)) | (1u16 << (d as u16))) by (bit_vector)
        requires
            d < 8,
    ;
    assert((((low & !(1u8 << d)) as u16) | ((high as u16) << 8u16)) == ((low as u16) | ((
    high as u16) << 8u16)) & !(1u16 << (d as u16))) by (bit_vector)
        requires
            d < 8,
    ;
    assert(((low as u16) | (((high | (1u8 << 0u8)) as u16) << 8u16)) == ((low as u16) | ((
    high as u16) << 8u16)) | (1u16 << 8u16)) by (bit_vector);
    assert(((low as u16) | (((high & !(1u8 << 0u8)) as u16) << 8u16)) == ((low as u16) | ((
    high as u16) << 8u16)) & !(1u16 << 8u16)) by (bit_vector);
    assert(high | (1u8 << 0u8) <= 1 && high & !(1u8 << 0u8) <= 1 && high & other_high <= 1)
        by (bit_vector)
        requires
            high <= 1,
    ;
    assert((((low & other_low) as u16) | (((high & other_high) as u16) << 8u16)) == ((
    low as u16) | ((high as u16) << 8u16)) & ((other_low as u16) | ((other_high as u16)
        << 8u16))) by (bit_vector);
    assert(low == 0 && high == 0 ==> ((low as u16) | ((high as u16) << 8u16)) == 0)
        by (bit_vector);
}

/// The ones of the two bytes are the digits of the pair.
pub proof fn lemma_pair_count(low: u8, high: u8)
    requires
        high <= 1,
    ensures
        popcount(low as u16) + popcount(high as u16) == mask_digits(pair_mask(low, high)).len(),
        popcount(low as u16) + popcount(high as u16) <= 9,
{
    let m = pair_mask(low, high);
    lemma_pair_bits(low, high, 0, 0, 0);
    lemma_popcount_digits(m);
    lemma_popcount_split(m, 8);
    lemma_byte_popcount(low);
    assert forall|d: int| 0 <= d < 8 implies has_bit(m, d) == has_bit(low as u16, d) by {
        lemma_pair_bits(low, high, 0, 0, d as u8);
    }
    lemma_count_upto_same(
        Set::new(|d: int| has_bit(m, d)),
        Set::new(|d: int| has_bit(low as u16, d)),
        8,
    );
    lemma_digits_len(mask_digits(m));
}

impl BytePair {
    /// The number of digits held, by two lookups in the table of ones.
    pub fn count_with(&self, count_ones: &Vec<u8>) -> (r: u8)
        requires
            self.wf(),
            is_count_table(count_ones@),
        ensures
            r == self.digits().len(),
    {
        proof {
            lemma_pair_count(self.low, self.high);
        }
        count_ones[self.low as usize] + count_ones[self.high as usize]
    }

    /// The least digit held, by a lookup in the table of trailing zeros;
    /// a number from 9 upwards when no digit is held.
    pub fn select_candidate(&self, trailing_zeros: &Vec<u8>) -> (r: u8)
        requires
            self.wf(),
            is_zeros_table(trailing_zeros@),
        ensures
            r < 9 ==> is_lowest(self.digits(), r as int),
            r >= 9 ==> self.digits() == Set::<int>::empty(),
            r == (if self.low != 0 {
                u8_trailing_zeros(self.low)
            } else {
                (8 + u8_trailing_zeros(self.high)) as u32
            }),
    {
        proof {
            lemma_pair_lowest(self.low, self.high);
            axiom_u8_trailing_zeros(self.low);
            axiom_u8_trailing_zeros(self.high);
        }
        if self.low != 0 {
            trailing_zeros[self.low as usize]
        } else {
            8 + trailing_zeros[self.high as usize]
        }
    }

    /// Removes digit `bit`, which has just been selected.
    pub fn apply_candidate(&mut self, bit: u8)
        requires
            old(self).wf(),
            bit < 9,
        ensures
            final(self).wf(),
            final(self).digits() == old(self).digits().remove(bit as int),
    {
        self.clear(bit as usize);
    }
}

/// The trailing zeros of the two bytes give the least digit of the pair.
pub proof fn lemma_pair_lowest(low: u8, high: u8)
    requires
        high <= 1,
    ensures
        low != 0 ==> u8_trailing_zeros(low) < 8 && is_lowest(
            mask_digits(pair_mask(low, high)),
            u8_trailing_zeros(low) as int,
        ),
        low == 0 && high != 0 ==> u8_trailing_zeros(high) == 0 && is_lowest(
            mask_digits(pair_mask(low, high)),
            8,
        ),
        low == 0 && high == 0 ==> u8_trailing_zeros(high) == 8 && mask_digits(
            pair_mask(low, high),
        ) == Set::<int>::empty(),
{
    let m = pair_mask(low, high);
    axiom_u8_trailing_zeros(low);
    axiom_u8_trailing_zeros(high);
    lemma_pair_bits(low, high, 0, 0, 0);
    if low != 0 {
        let t = u8_trailing_zeros(low) as u8;
        lemma_pair_bits(low, high, 0, 0, t);
        assert forall|j: u16| j < t implies !has_bit(m, j as int) by {
            lemma_pair_bits(low, high, 0, 0, j as u8);
            assert((low >> (j as u8)) & 1u8 == 0u8);
        }
        lemma_mask_lowest(m, t as u16);
    } else if high != 0 {
        assert(high == 1);
        assert((1u8 >> 0u8) & 1u8 == 1u8) by (bit_vector);
        assert forall|j: u16| j < 8 implies !has_bit(m, j as int) by {
            lemma_pair_bits(low, high, 0, 0, j as u8);
            assert(0u8 & (1u8 << (j as u8)) == 0) by (bit_vector);
        }
        lemma_mask_lowest(m, 8);
    } else {
        lemma_mask_empty();
    }
}

impl Domain for BytePair {
    open spec fn digits(&self) -> Set<int> {
        mask_digits(pair_mask(self.low, self.high))
    }

    open spec fn wf(&self) -> bool {
        self.high <= 1
    }

    proof fn lemma_wf(&self) {
    }

    fn full() -> (r: Self) {
        proof {
            lemma_mask_full();
            assert(pair_mask(0xff, 1) == 0x1ff) by (bit_vector);
        }
        BytePair { low: 0b11111111, high: 0b00000001 }
    }

    fn test(&self, d: usize) -> (r: bool) {
        proof {
            if d < 8 {
                lemma_pair_bits(self.low, self.high, 0, 0, d as u8);
                lemma_mask_tables(d as u8);
            } else {
                lemma_pair_bits(self.low, self.high, 0, 0, 0);
                lemma_mask_tables(0);
            }
        }
        if d < 8 {
            self.low & SET_MASK[d] != 0
        } else {
            self.high & SET_MASK[d - 8] != 0
        }
    }

    fn set(&mut self, d: usize) {
        proof {
            lemma_pair_bits(self.low, self.high, 0, 0, if d < 8 {
                d as u8
            } else {
                0
            });
            lemma_mask_set(pair_mask(self.low, self.high), d as u16);
        }
        if d < 8 {
            bit_set(&mut self.low, d as u8);
        } else {
            bit_set(&mut self.high, (d - 8) as u8);
        }
    }

    fn clear(&mut self, d: usize) {
        proof {
            lemma_pair_bits(self.low, self.high, 0, 0, if d < 8 {
                d as u8
            } else {
                0
            });
            lemma_mask_clear(pair_mask(self.low, self.high), d as u16);
        }
        if d < 8 {
            bit_reset(&mut self.low, d as u8);
        } else {
            bit_reset(&mut self.high, (d - 8) as u8);
        }
    }

    fn count(&self) -> (r: u32) {
        proof {
            lemma_pair_count(self.low, self.high);
        }
        byte_count_ones(self.low) + byte_count_ones(self.high)
    }

    fn lowest(&self) -> (r: Option<usize>) {
        proof {
            lemma_pair_lowest(self.low, self.high);
        }
        if self.low != 0 {
            Some(self.low.trailing_zeros() as usize)
        } else if self.high != 0 {
            Some(8 + self.high.trailing_zeros() as usize)
        } else {
            None
        }
    }

    fn meet(&self, other: &Self) -> (r: Self) {
        proof {
            lemma_pair_bits(self.low, self.high, other.low, other.high, 0);
            lemma_mask_and(pair_mask(self.low, self.high), pair_mask(other.low, other.high));
        }
        BytePair { low: self.low & other.low, high: self.high & other.high }
    }

    fn dup(&self) -> (r: Self) {
        *self
    }
}

} // verus!
