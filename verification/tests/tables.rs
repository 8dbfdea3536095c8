use sudoku_solver::bytepair::{bit_reset, bit_set, gen_count_ones, gen_trailing_zeros, BytePair};
use sudoku_solver::bytepair::{RESET_MASK, SET_MASK};
use sudoku_solver::domain::Domain;

const COUNT_ONES: [u8; 256] = [
    0, 1, 1, 2, 1, 2, 2, 3, 1, 2, 2, 3, 2, 3, 3, 4, 1, 2, 2, 3, 2, 3, 3, 4, 2, 3, 3, 4, 3, 4, 4, 5,
    1, 2, 2, 3, 2, 3, 3, 4, 2, 3, 3, 4, 3, 4, 4, 5, 2, 3, 3, 4, 3, 4, 4, 5, 3, 4, 4, 5, 4, 5, 5, 6,
    1, 2, 2, 3, 2, 3, 3, 4, 2, 3, 3, 4, 3, 4, 4, 5, 2, 3, 3, 4, 3, 4, 4, 5, 3, 4, 4, 5, 4, 5, 5, 6,
    2, 3, 3, 4, 3, 4, 4, 5, 3, 4, 4, 5, 4, 5, 5, 6, 3, 4, 4, 5, 4, 5, 5, 6, 4, 5, 5, 6, 5, 6, 6, 7,
    1, 2, 2, 3, 2, 3, 3, 4, 2, 3, 3, 4, 3, 4, 4, 5, 2, 3, 3, 4, 3, 4, 4, 5, 3, 4, 4, 5, 4, 5, 5, 6,
    2, 3, 3, 4, 3, 4, 4, 5, 3, 4, 4, 5, 4, 5, 5, 6, 3, 4, 4, 5, 4, 5, 5, 6, 4, 5, 5, 6, 5, 6, 6, 7,
    2, 3, 3, 4, 3, 4, 4, 5, 3, 4, 4, 5, 4, 5, 5, 6, 3, 4, 4, 5, 4, 5, 5, 6, 4, 5, 5, 6, 5, 6, 6, 7,
    3, 4, 4, 5, 4, 5, 5, 6, 4, 5, 5, 6, 5, 6, 6, 7, 4, 5, 5, 6, 5, 6, 6, 7, 5, 6, 6, 7, 6, 7, 7, 8,
];

const TRAILING_ZEROS: [u8; 256] = [
    8, 0, 1, 0, 2, 0, 1, 0, 3, 0, 1, 0, 2, 0, 1, 0, 4, 0, 1, 0, 2, 0, 1, 0, 3, 0, 1, 0, 2, 0, 1, 0,
    5, 0, 1, 0, 2, 0, 1, 0, 3, 0, 1, 0, 2, 0, 1, 0, 4, 0, 1, 0, 2, 0, 1, 0, 3, 0, 1, 0, 2, 0, 1, 0,
    6, 0, 1, 0, 2, 0, 1, 0, 3, 0, 1, 0, 2, 0, 1, 0, 4, 0, 1, 0, 2, 0, 1, 0, 3, 0, 1, 0, 2, 0, 1, 0,
    5, 0, 1, 0, 2, 0, 1, 0, 3, 0, 1, 0, 2, 0, 1, 0, 4, 0, 1, 0, 2, 0, 1, 0, 3, 0, 1, 0, 2, 0, 1, 0,
    7, 0, 1, 0, 2, 0, 1, 0, 3, 0, 1, 0, 2, 0, 1, 0, 4, 0, 1, 0, 2, 0, 1, 0, 3, 0, 1, 0, 2, 0, 1, 0,
    5, 0, 1, 0, 2, 0, 1, 0, 3, 0, 1, 0, 2, 0, 1, 0, 4, 0, 1, 0, 2, 0, 1, 0, 3, 0, 1, 0, 2, 0, 1, 0,
    6, 0, 1, 0, 2, 0, 1, 0, 3, 0, 1, 0, 2, 0, 1, 0, 4, 0, 1, 0, 2, 0, 1, 0, 3, 0, 1, 0, 2, 0, 1, 0,
    5, 0, 1, 0, 2, 0, 1, 0, 3, 0, 1, 0, 2, 0, 1, 0, 4, 0, 1, 0, 2, 0, 1, 0, 3, 0, 1, 0, 2, 0, 1, 0,
];

#[test]
fn iterative_8bit_gen_count_ones() {
    let out = (0u8..=255u8).map(|i| i.count_ones()).collect::<Vec<_>>();
    println!("{:?}", out);
    let table = gen_count_ones();
    assert_eq!(table.len(), 256);
    for i in 0..256 {
        assert_eq!(u32::from(table[i]), out[i]);
    }
    assert_eq!(&table[..], &COUNT_ONES[..]);
}

#[test]
fn iterative_8bit_gen_trailing_zeros() {
    let out = (0u8..=255u8)
        .map(|i| i.trailing_zeros())
        .collect::<Vec<_>>();
    println!("{:?}", out);
    let table = gen_trailing_zeros();
    assert_eq!(table.len(), 256);
    for i in 0..256 {
        assert_eq!(u32::from(table[i]), out[i]);
    }
    assert_eq!(&table[..], &TRAILING_ZEROS[..]);
}

#[test]
fn iterative_minimize_gen_count_ones() {
    let out = (0u8..=255u8).map(|i| i.count_ones()).collect::<Vec<_>>();
    println!("{:?}", out);
    let table = gen_count_ones();
    let ones = table.iter().map(|n| u32::from(*n)).collect::<Vec<_>>();
    assert_eq!(ones, out);
    assert_eq!((table[0], table[1], table[255]), (0, 1, 8));
}

#[test]
fn iterative_minimize_gen_trailing_zeros() {
    let out = (0u8..=255u8)
        .map(|i| i.trailing_zeros())
        .collect::<Vec<_>>();
    println!("{:?}", out);
    let table = gen_trailing_zeros();
    let zeros = table.iter().map(|n| u32::from(*n)).collect::<Vec<_>>();
    assert_eq!(zeros, out);
    assert_eq!((table[0], table[1], table[128]), (8, 0, 7));
}

#[test]
fn byte_bit_set_and_reset() {
    for bit in 0u8..8 {
        assert_eq!(SET_MASK[bit as usize], 1 << bit);
        assert_eq!(RESET_MASK[bit as usize], !(1u8 << bit));
        let mut v = 0u8;
        bit_set(&mut v, bit);
        assert_eq!(v, 1 << bit);
        bit_set(&mut v, bit);
        assert_eq!(v, 1 << bit);
        let mut w = 0xffu8;
        bit_reset(&mut w, bit);
        assert_eq!(w, 0xff ^ (1 << bit));
        bit_reset(&mut v, bit);
        assert_eq!(v, 0);
    }
}

#[test]
fn byte_pair_table_lookups() {
    let ones = gen_count_ones();
    let zeros = gen_trailing_zeros();
    let full = BytePair::full();
    assert_eq!(full, BytePair { low: 0xff, high: 1 });
    assert_eq!(full.count_with(&ones), 9);
    assert_eq!(full.select_candidate(&zeros), 0);
    let mut p = full;
    for d in 0..8u8 {
        assert_eq!(p.select_candidate(&zeros), d);
        p.apply_candidate(d);
        assert_eq!(p.count_with(&ones), 8 - d);
    }
    assert_eq!(p, BytePair { low: 0, high: 1 });
    assert_eq!(p.select_candidate(&zeros), 8);
    p.apply_candidate(8);
    assert_eq!(p, BytePair { low: 0, high: 0 });
    assert_eq!(p.select_candidate(&zeros), 16);
    assert_eq!(p.count_with(&ones), 0);
    let q = BytePair { low: 0b0010_0100, high: 1 };
    assert_eq!(q.count_with(&ones), 3);
    assert_eq!(q.count(), 3);
    assert_eq!(q.select_candidate(&zeros), 2);
    assert_eq!(q.lowest(), Some(2));
}
