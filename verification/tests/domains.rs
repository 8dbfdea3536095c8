use bit_vec::BitVec;
use sudoku_solver::bytepair::BytePair;
use sudoku_solver::domain::Domain;
use sudoku_solver::nineset::NineSet;

fn members<D: Domain>(d: &D) -> Vec<usize> {
    (0..9).filter(|n| d.test(*n)).collect()
}

fn exercise<D: Domain>() {
    let full = D::full();
    assert_eq!(members(&full), vec![0, 1, 2, 3, 4, 5, 6, 7, 8]);
    assert_eq!(full.count(), 9);
    assert_eq!(full.lowest(), Some(0));

    let mut a = D::full();
    a.clear(0);
    a.clear(4);
    a.clear(8);
    assert_eq!(members(&a), vec![1, 2, 3, 5, 6, 7]);
    assert_eq!(a.count(), 6);
    assert_eq!(a.lowest(), Some(1));
    a.clear(4);
    assert_eq!(a.count(), 6);
    a.set(4);
    a.set(4);
    assert_eq!(members(&a), vec![1, 2, 3, 4, 5, 6, 7]);
    assert_eq!(a.count(), 7);

    let mut b = D::full();
    for d in 0..8 {
        assert_eq!(b.lowest(), Some(d));
        b.clear(d);
        assert_eq!(b.count(), 8 - d as u32);
    }
    assert_eq!(members(&b), vec![8]);
    assert_eq!(b.lowest(), Some(8));
    let c = a.meet(&b);
    assert_eq!(members(&c), Vec::<usize>::new());
    assert_eq!(c.count(), 0);
    assert_eq!(c.lowest(), None);
    b.set(3);
    b.set(5);
    let c = a.meet(&b);
    assert_eq!(members(&c), vec![3, 5]);
    assert_eq!(members(&b.meet(&a)), vec![3, 5]);
    assert_eq!(members(&a), vec![1, 2, 3, 4, 5, 6, 7]);
    assert_eq!(members(&b), vec![3, 5, 8]);

    let mut copy = b.dup();
    copy.clear(3);
    assert_eq!(members(&copy), vec![5, 8]);
    assert_eq!(members(&b), vec![3, 5, 8]);
}

#[test]
fn mask_domain() {
    exercise::<u16>();
    assert_eq!(<u16 as Domain>::full(), 0b1_1111_1111);
    let mut m = 0b1_0000_0110u16;
    assert!(m.test(1) && m.test(2) && m.test(8) && !m.test(0));
    assert_eq!(m.count(), 3);
    m.clear(2);
    assert_eq!(m, 0b1_0000_0010);
    m.set(0);
    assert_eq!(m, 0b1_0000_0011);
    assert_eq!(m.meet(&0b0_1111_0001), 0b0_0000_0001);
    assert_eq!(0u16.lowest(), None);
    assert_eq!(0b1_0000_0000u16.lowest(), Some(8));
}

#[test]
fn byte_pair_domain() {
    exercise::<BytePair>();
    let mut p = BytePair { low: 0b0000_0110, high: 1 };
    assert_eq!(p.count(), 3);
    p.clear(8);
    assert_eq!(p, BytePair { low: 0b0000_0110, high: 0 });
    p.set(8);
    p.set(7);
    assert_eq!(p, BytePair { low: 0b1000_0110, high: 1 });
    let q = BytePair { low: 0b1000_0001, high: 1 };
    assert_eq!(p.meet(&q), BytePair { low: 0b1000_0000, high: 1 });
}

#[test]
fn bit_vec_domain() {
    exercise::<BitVec>();
    let full = <BitVec as Domain>::full();
    assert_eq!(full, BitVec::from_elem(9, true));
    assert_eq!(full.len(), 9);
    let mut v = full.dup();
    Domain::clear(&mut v, 2);
    assert_eq!(v.get(2), Some(false));
    assert_eq!(v.count_ones(), 8);
    assert_eq!(Domain::count(&v), 8);
}

#[test]
fn nine_set_domain() {
    exercise::<NineSet>();
}
