use std::collections::HashSet;

use bit_vec::BitVec;
use bitset_core::BitSet;
use sudoku_solver::addr::Addr;
use sudoku_solver::board::{Board, Edit, Field};
use sudoku_solver::bytepair::BytePair;
use sudoku_solver::domain::Domain;
use sudoku_solver::nineset::NineSet;

fn digits_of<D: Domain>(d: &D) -> HashSet<u8> {
    (0..9u8).filter(|n| d.test(*n as usize)).collect()
}

#[test]
pub fn get_chandidates() {
    let mut board: Board<u16> = Board::default();

    board.manipulate(Addr::new(0, 0), 0);
    board.manipulate(Addr::new(1, 0), 1);
    board.manipulate(Addr::new(2, 0), 2);
    board.manipulate(Addr::new(3, 0), 3);
    board.manipulate(Addr::new(4, 0), 4);
    board.manipulate(Addr::new(5, 0), 5);
    board.manipulate(Addr::new(6, 0), 6);
    board.manipulate(Addr::new(7, 0), 7);
    assert_eq!(board.scan_candidates(Addr::new(8, 0)), [8].into());
    assert_eq!(
        board.scan_candidates(Addr::new(8, 1)),
        [0, 1, 2, 3, 4, 5, 8].into()
    );
    assert_eq!(
        board.scan_candidates(Addr::new(0, 8)),
        [1, 2, 3, 4, 5, 6, 7, 8].into()
    );
    assert_eq!(digits_of(&board.candidates_for(Addr::new(8, 0))), [8].into());
    assert_eq!(
        digits_of(&board.candidates_for(Addr::new(8, 1))),
        [0, 1, 2, 3, 4, 5, 8].into()
    );
    assert_eq!(
        digits_of(&board.candidates_for(Addr::new(0, 8))),
        [1, 2, 3, 4, 5, 6, 7, 8].into()
    );
    assert_eq!(board.candidates_for(Addr::new(8, 0)), 1 << 8);
    // A cell that holds a digit has no candidates by enumeration.
    assert_eq!(board.scan_candidates(Addr::new(0, 0)), HashSet::new());
}

#[test]
fn elim_test_manipulate() {
    let mut board: Board<BitVec> = Board::default();
    let a = Addr::new(0, 0);
    assert!(board.get_h(a).count_ones() == 9);
    let edit = board.manipulate(Addr::new(0, 0), 0);
    assert!(board.get_h(a).count_ones() == 8 && board.get_h(a).get(0) == Some(false));
    board.rollback(edit);
    assert!(board.get_h(a).count_ones() == 9);
}

#[test]
pub fn elim_test_board_init() {
    let board: Board<BitVec> = Board::default();
    assert_eq!(board.open.len(), 9 * 9);
    assert!(board.open.contains(&Addr::new(0, 0)));
    assert!(board.open.contains(&Addr::new(8, 8)));
    assert!(board.open.contains(&Addr::new(0, 8)));
    assert!(board.open.contains(&Addr::new(8, 0)));
    assert!(board.open.contains(&Addr::new(3, 7)));
}

fn manipulate_u16() {
    let mut board: Board<u16> = Board::default();
    let a = Addr::new(0, 0);
    assert!(board.get_h(a).count_ones() == 9);
    let edit = board.manipulate(a, 0);
    assert!(board.get_h(a).count_ones() == 8);
    assert!(board.get_h(a).bit_test(0) == false);
    board.rollback(edit);
    assert!(board.get_h(a).count_ones() == 9);

    let a = Addr::new(8, 8);
    let edit = board.manipulate(a, 6);
    assert!(board.get_h(a).count_ones() == 8);
    assert!(board.get_h(a).bit_test(6) == false);
    assert!(board.get_v(a).count_ones() == 8);
    assert!(board.get_v(a).bit_test(6) == false);
    assert!(board.get_b(a).count_ones() == 8);
    assert!(board.get_b(a).bit_test(6) == false);
    board.rollback(edit);
    assert!(board.get_h(a).count_ones() == 9);
}

fn board_init_u16() {
    let board: Board<u16> = Board::default();
    assert_eq!(board.open.len(), 9 * 9);
    assert!(board.open.contains(&Addr::new(0, 0)));
    assert!(board.open.contains(&Addr::new(8, 8)));
    assert!(board.open.contains(&Addr::new(0, 8)));
    assert!(board.open.contains(&Addr::new(8, 0)));
    assert!(board.open.contains(&Addr::new(3, 7)));
}

#[test]
fn elim_ex_test_manipulate() {
    manipulate_u16();
}

#[test]
pub fn elim_ex_test_board_init() {
    board_init_u16();
}

#[test]
fn elimf_test_manipulate() {
    manipulate_u16();
}

#[test]
pub fn elimf_test_board_init() {
    board_init_u16();
}

#[test]
fn iterative_inplace_test_manipulate() {
    manipulate_u16();
}

#[test]
pub fn iterative_inplace_test_board_init() {
    board_init_u16();
}

fn place_and_unplace<D: Domain + PartialEq + std::fmt::Debug>() {
    let mut board: Board<D> = Board::default();
    assert_eq!(board.fields, vec![Field::Empty; 81]);
    for (i, a) in board.open.iter().enumerate() {
        assert_eq!(*a, Addr::new(i % 9, i / 9));
    }
    for u in 0..9 {
        assert_eq!(board.h_free[u].count(), 9);
        assert_eq!(board.v_free[u].count(), 9);
        assert_eq!(board.b_free[u].count(), 9);
    }
    let a = Addr::new(4, 7);
    let edit = board.manipulate(a, 8);
    assert_eq!(edit, Edit { addr: a, num: 8 });
    assert_eq!(board.fields[7 * 9 + 4], Field::Digit(8));
    assert_eq!(board.get_field(4, 7), Field::Digit(8));
    assert_eq!(digits_of(board.get_h(a)), [0, 1, 2, 3, 4, 5, 6, 7].into());
    assert_eq!(digits_of(board.get_v(a)), [0, 1, 2, 3, 4, 5, 6, 7].into());
    assert_eq!(digits_of(board.get_b(a)), [0, 1, 2, 3, 4, 5, 6, 7].into());
    assert_eq!(digits_of(&board.h_free[7]), [0, 1, 2, 3, 4, 5, 6, 7].into());
    assert_eq!(digits_of(&board.v_free[4]), [0, 1, 2, 3, 4, 5, 6, 7].into());
    assert_eq!(digits_of(&board.b_free[7]), [0, 1, 2, 3, 4, 5, 6, 7].into());
    for u in 0..9 {
        assert_eq!(board.h_free[u].count(), if u == 7 { 8 } else { 9 });
        assert_eq!(board.v_free[u].count(), if u == 4 { 8 } else { 9 });
        assert_eq!(board.b_free[u].count(), if u == 7 { 8 } else { 9 });
    }
    let b = Addr::new(0, 7);
    board.apply(&Edit { addr: b, num: 2 });
    assert_eq!(digits_of(&board.candidates_for(Addr::new(1, 7))), [0, 1, 3, 4, 5, 6, 7].into());
    assert_eq!(digits_of(&board.candidates_for(Addr::new(4, 0))), [0, 1, 2, 3, 4, 5, 6, 7].into());
    assert_eq!(digits_of(&board.candidates_for(Addr::new(8, 8))), (0..9).collect());
    assert_eq!(digits_of(&board.candidates_for_tmp_field(64)), [0, 1, 3, 4, 5, 6, 7].into());
    board.rollback(Edit { addr: b, num: 2 });
    board.rollback(edit);
    let fresh: Board<D> = Board::default();
    assert_eq!(board.fields, fresh.fields);
    assert_eq!(board.h_free, fresh.h_free);
    assert_eq!(board.v_free, fresh.v_free);
    assert_eq!(board.b_free, fresh.b_free);
    assert_eq!(board.open, fresh.open);
}

#[test]
fn place_then_unplace_changes_nothing_u16() {
    place_and_unplace::<u16>();
}

#[test]
fn place_then_unplace_changes_nothing_byte_pair() {
    place_and_unplace::<BytePair>();
}

#[test]
fn place_then_unplace_changes_nothing_bit_vec() {
    place_and_unplace::<BitVec>();
}

#[test]
fn place_then_unplace_changes_nothing_nine_set() {
    let mut board: Board<NineSet> = Board::default();
    let a = Addr::new(4, 7);
    let edit = board.manipulate(a, 8);
    assert_eq!(digits_of(board.get_h(a)), [0, 1, 2, 3, 4, 5, 6, 7].into());
    assert_eq!(digits_of(board.get_v(a)), [0, 1, 2, 3, 4, 5, 6, 7].into());
    assert_eq!(digits_of(board.get_b(a)), [0, 1, 2, 3, 4, 5, 6, 7].into());
    assert_eq!(digits_of(board.get_h(Addr::new(4, 6))), (0..9).collect());
    board.rollback(edit);
    for u in 0..9 {
        assert_eq!(digits_of(&board.h_free[u]), (0..9).collect());
        assert_eq!(digits_of(&board.v_free[u]), (0..9).collect());
        assert_eq!(digits_of(&board.b_free[u]), (0..9).collect());
    }
    assert_eq!(board.fields, vec![Field::Empty; 81]);
}

#[test]
fn unplace_of_a_repeated_digit_is_no_inverse() {
    // Digit 0 stands in the row already, so placing it again and taking it
    // out leaves the row with digit 0 free although a cell holds it.
    let mut board: Board<u16> = Board::default();
    board.manipulate(Addr::new(0, 0), 0);
    let before = board.h_free[0];
    let edit = board.manipulate(Addr::new(1, 0), 0);
    board.rollback(edit);
    assert_ne!(board.h_free[0], before);
    assert_eq!(board.h_free[0], 0x1ff);
}

#[test]
fn open_list_operations() {
    let mut board: Board<u16> = Board::default();
    let taken = board.remove_open(3);
    assert_eq!(taken, Addr::new(3, 0));
    assert_eq!(board.open.len(), 80);
    assert_eq!(board.open[3], Addr::new(8, 8));
    assert_eq!(board.open[4], Addr::new(4, 0));
    board.push_open(taken);
    assert_eq!(board.open.len(), 81);
    assert_eq!(board.open[80], Addr::new(3, 0));
    let taken = board.remove_open_ordered(0);
    assert_eq!(taken, Addr::new(0, 0));
    assert_eq!(board.open[0], Addr::new(1, 0));
    assert_eq!(board.open[2], Addr::new(8, 8));
    assert_eq!(board.open[79], Addr::new(3, 0));
    board.close(Addr::new(8, 8));
    assert_eq!(board.open.len(), 79);
    assert_eq!(board.open[2], Addr::new(4, 0));
    board.close(Addr::new(8, 8));
    assert_eq!(board.open.len(), 79);
}

#[test]
fn accessors_change_sets_in_place() {
    let mut board: Board<u16> = Board::default();
    *board.geth(2) = 0b101;
    *board.getv(3) = 0b110;
    *board.getb(3, 2) = 0b100;
    assert_eq!(board.h_free[2], 0b101);
    assert_eq!(board.v_free[3], 0b110);
    assert_eq!(board.b_free[1], 0b100);
    assert_eq!(board.candidates_for(Addr::new(3, 2)), 0b100);
    let a = Addr::new(3, 2);
    board.get_h_mut(a).bit_set(8);
    board.get_v_mut(a).bit_set(8);
    board.get_b_mut(a).bit_set(8);
    assert_eq!(board.candidates_for(a), 0b1_0000_0100);
    board.set_field(a, 2);
    assert_eq!(board.candidates_for(a), 0b1_0000_0000);
    assert_eq!(board.get_field(3, 2), Field::Digit(2));
    board.clear_field(a);
    assert_eq!(board.candidates_for(a), 0b1_0000_0100);
    assert_eq!(board.get_field(3, 2), Field::Empty);
}

#[test]
fn render_writes_nine_lines() {
    let mut board: Board<u16> = Board::default();
    board.manipulate(Addr::new(0, 0), 0);
    board.manipulate(Addr::new(8, 0), 8);
    board.manipulate(Addr::new(4, 4), 4);
    let text = board.render();
    let lines: Vec<&str> = text.lines().collect();
    assert_eq!(lines.len(), 9);
    assert_eq!(lines[0], "1 . . . . . . . 9 ");
    assert_eq!(lines[1], ". . . . . . . . . ");
    assert_eq!(lines[4], ". . . . 5 . . . . ");
    assert_eq!(text.len(), 9 * 19);
    assert!(text.ends_with(" \n"));
}

#[test]
fn duplicate_is_independent() {
    let mut board: Board<BitVec> = Board::default();
    board.manipulate(Addr::new(2, 3), 5);
    board.remove_open(29);
    let mut copy = board.duplicate();
    assert_eq!(copy.fields, board.fields);
    assert_eq!(copy.open, board.open);
    assert_eq!(copy.h_free, board.h_free);
    assert_eq!(copy.v_free, board.v_free);
    assert_eq!(copy.b_free, board.b_free);
    copy.rollback(Edit { addr: Addr::new(2, 3), num: 5 });
    assert_eq!(board.fields[29], Field::Digit(5));
    assert_eq!(copy.fields[29], Field::Empty);
    assert_eq!(digits_of(&board.h_free[3]), [0, 1, 2, 3, 4, 6, 7, 8].into());
    assert_eq!(digits_of(&copy.h_free[3]), (0..9).collect());
}
