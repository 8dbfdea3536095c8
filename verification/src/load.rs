//! Reading a puzzle from a line of text: 81 symbols, row by row, where the
//! digits `1` to `9` are clues and a symbol that is no number is an open
//! cell.
use std::str::Chars;
use vstd::prelude::*;
use vstd::std_specs::iter::IteratorSpec;
use crate::addr::Addr;
use crate::board::{Board, BoardView, Edit, Field};
use crate::domain::Domain;
use crate::rules::{lemma_initial_consistent, lemma_place_grid_ok, lemma_units_of};
use crate::search::{lemma_index_injective, lemma_place_frame};

verus! {

/// Why a line is no puzzle.
#[derive(Clone, Copy, Debug, PartialEq, Eq, Structural)]
pub enum LoadError {
    /// The line has fewer than 81 symbols.
    LineEndedEarly,
    /// A symbol is a number but not a decimal digit.
    NotADigit,
    /// A symbol is the digit `0`.
    BadNum,
    /// A clue repeats a digit of its row, column or box.
    Conflict,
}

/// Whether `char::is_numeric` holds of `c`: whether Unicode counts `c`
/// among the numbers.
pub uninterp spec fn char_is_numeric(c: char) -> bool;

/// `char::is_numeric`: the result depends on the character alone; which
/// characters are numbers is laid down by Unicode and not spelled out here.
pub assume_specification[ char::is_numeric ](c: char) -> (r: bool)
    ensures
        r == char_is_numeric(c),
;

/// The value of `c` as a decimal digit.
pub open spec fn decimal_digit(c: char) -> Option<u32> {
    if 48 <= c as u32 <= 57 {
        Some((c as u32 - 48) as u32)
    } else {
        None
    }
}

/// `char::to_digit`: for radix 10 the characters `0` to `9` give their
/// value and every other character gives `None`. A radix outside 2 to 36
/// makes it panic and is excluded.
pub assume_specification[ char::to_digit ](c: char, radix: u32) -> (r: Option<u32>)
    requires
        2 <= radix <= 36,
    ensures
        radix == 10 ==> r == decimal_digit(c),
;

/// What symbol `c` stands for, given whether it is a number: an open cell,
/// a clue (as a digit from 0 to 8), or an error.
pub open spec fn symbol_of(c: char, numeric: bool) -> Result<Option<u8>, LoadError> {
    if !numeric {
        Ok(None)
    } else if !(48 <= c as u32 <= 57) {
        Err(LoadError::NotADigit)
    } else if c as u32 == 48 {
        Err(LoadError::BadNum)
    } else {
        Ok(Some((c as u32 - 49) as u8))
    }
}

/// What symbol `c` stands for, given whether it is a number.
pub fn read_symbol(c: char, numeric: bool) -> (r: Result<Option<u8>, LoadError>)
    ensures
        r == symbol_of(c, numeric),
        r matches Ok(Some(n)) ==> n < 9,
{
    if !numeric {
        return Ok(None);
    }
    match c.to_digit(10) {
        None => Err(LoadError::NotADigit),
        Some(num) => {
            if num < 1 {
                Err(LoadError::BadNum)
            } else {
                Ok(Some((num - 1) as u8))
            }
        },
    }
}

/// The board after the symbol at position `pos` of `line` is read into
/// board `v`: a clue is placed if it is a candidate of its cell, which
/// leaves the open list.
pub open spec fn load_step(v: BoardView, line: Seq<char>, pos: int) -> Result<BoardView, LoadError> {
    if pos >= line.len() {
        Err(LoadError::LineEndedEarly)
    } else {
        match symbol_of(line[pos], char_is_numeric(line[pos])) {
            Err(e) => Err(e),
            Ok(None) => Ok(v),
            Ok(Some(n)) => {
                let a = Addr::at(pos % 9, pos / 9);
                if v.candidates(a).contains(n as int) {
                    Ok(v.close(a).place(a, n as int))
                } else {
                    Err(LoadError::Conflict)
                }
            },
        }
    }
}

/// The board after the first `k` symbols of `line` are read, or the first
/// error met on the way.
pub open spec fn load_upto(line: Seq<char>, k: int) -> Result<BoardView, LoadError>
    decreases k,
{
    if k <= 0 {
        Ok(BoardView::initial())
    } else {
        match load_upto(line, k - 1) {
            Err(e) => Err(e),
            Ok(v) => load_step(v, line, k - 1),
        }
    }
}

/// The board that `line` describes, or the first error met while reading
/// its first 81 symbols.
pub open spec fn load(line: Seq<char>) -> Result<BoardView, LoadError> {
    load_upto(line, 81)
}

/// The clues among the first `k` symbols of `line`, in reading order.
pub open spec fn clues_upto(line: Seq<char>, k: int) -> Seq<Edit>
    decreases k,
{
    if k <= 0 {
        Seq::empty()
    } else if k - 1 < line.len() {
        match symbol_of(line[k - 1], char_is_numeric(line[k - 1])) {
            Ok(Some(n)) => clues_upto(line, k - 1).push(
                Edit { addr: Addr::at((k - 1) % 9, (k - 1) / 9), num: n },
            ),
            _ => clues_upto(line, k - 1),
        }
    } else {
        clues_upto(line, k - 1)
    }
}

/// The board after the digits of the cells of `edits` are taken out, the
/// last of `edits` first.
pub open spec fn unplace_all(v: BoardView, edits: Seq<Edit>) -> BoardView
    decreases edits.len(),
{
    if edits.len() == 0 {
        v
    } else {
        unplace_all(v.unplace(edits.last().addr), edits.drop_last())
    }
}

/// Board `v` is in order and its cells from position `k` on are empty.
pub open spec fn loaded(v: BoardView, k: int) -> bool {
    &&& v.consistent()
    &&& forall|i: int| k <= i < 81 ==> #[trigger] v.cells[i] == Field::Empty
}

/// The board before anything is placed is in order and all its cells are
/// empty.
pub proof fn lemma_initial_loaded()
    ensures
        loaded(BoardView::initial(), 0),
{
    lemma_initial_consistent();
}

/// Taking an empty cell out of the open list of a board in order leaves a
/// board on which that cell is pending.
pub proof fn lemma_close_pending(v: BoardView, a: Addr)
    requires
        v.shape(),
        v.open_unset(),
        v.open_covers(-1),
        a.wf(),
        v.cells[a.index()] == Field::Empty,
    ensures
        v.open.index_of_first(a) is Some,
        0 <= v.open.index_of_first(a)->0 < v.open.len(),
        v.close(a) == v.remove_open_ordered(v.open.index_of_first(a)->0),
        v.close(a).shape(),
        v.close(a).open_unset(),
        v.close(a).pending(a),
        v.close(a).same_grid(v),
        v.close(a).open_covers(a.index()),
        v.close(a).open.len() == v.open.len() - 1,
        v.close(a).open.to_multiset().insert(a) == v.open.to_multiset(),
{
    broadcast use vstd::seq_lib::group_to_multiset_ensures;

    lemma_units_of(a);
    v.open.index_of_first_ensures(a);
    let k0 = choose|k: int| 0 <= k < v.open.len() && (#[trigger] v.open[k]).index() == a.index();
    lemma_index_injective(v.open[k0], a);
    assert(v.open.contains(a));
    let i = v.open.index_of_first(a)->0;
    let w = v.close(a);
    v.open.remove_ensures(i);
    assert(v.open.to_multiset().count(a) > 0);
    assert(v.open.to_multiset().remove(a).insert(a) =~= v.open.to_multiset());
    assert forall|k: int| 0 <= k < w.open.len() implies w.open[k] == (if k < i {
        v.open[k]
    } else {
        v.open[k + 1]
    }) by {}
    assert forall|k: int| 0 <= k < w.open.len() implies (#[trigger] w.open[k]).wf() && w.cells[w.open[k].index()]
        == Field::Empty && w.open[k] != a by {
        if k < i {
            assert(w.open[k] == v.open[k]);
        } else {
            assert(w.open[k] == v.open[k + 1]);
        }
    }
    assert forall|j: int, k: int| 0 <= j < k < w.open.len() implies w.open[j] != w.open[k] by {
        let jj = if j < i {
            j
        } else {
            j + 1
        };
        let kk = if k < i {
            k
        } else {
            k + 1
        };
        assert(w.open[j] == v.open[jj]);
        assert(w.open[k] == v.open[kk]);
    }
    assert forall|j: int|
        0 <= j < 81 && j != a.index() && #[trigger] w.cells[j]
            == Field::Empty implies exists|k: int|
        0 <= k < w.open.len() && (#[trigger] w.open[k]).index() == j by {
        let k = choose|k: int| 0 <= k < v.open.len() && (#[trigger] v.open[k]).index() == j;
        if k < i {
            assert(w.open[k] == v.open[k]);
        } else {
            assert(w.open[k - 1] == v.open[k]);
        }
    }
}

/// Reading a clue that is a candidate of its cell keeps the board in
/// order.
pub proof fn lemma_load_clue(v: BoardView, pos: int, n: int)
    requires
        loaded(v, pos),
        0 <= pos < 81,
        v.candidates(Addr::at(pos % 9, pos / 9)).contains(n),
    ensures
        loaded(v.close(Addr::at(pos % 9, pos / 9)).place(Addr::at(pos % 9, pos / 9), n), pos + 1),
        0 <= n < 9,
{
    let a = Addr::at(pos % 9, pos / 9);
    assert(a.wf() && a.index() == pos);
    lemma_units_of(a);
    assert(0 <= n < 9) by {
        assert(v.rows[a.y as int].subset_of(crate::domain::all_digits()));
    }
    lemma_close_pending(v, a);
    let c = v.close(a);
    assert(crate::rules::no_conflicts(c.cells) && c.domains_match()) by {
        assert(c.cells == v.cells);
    }
    lemma_place_frame(c, a, n);
    lemma_place_grid_ok(c, a, n);
    let w = c.place(a, n);
    assert forall|j: int|
        0 <= j < 81 && #[trigger] w.cells[j] == Field::Empty implies exists|k: int|
        0 <= k < w.open.len() && (#[trigger] w.open[k]).index() == j by {
        assert(c.cells[j] == Field::Empty);
    }
}

/// Whatever the first `k` symbols of a line are, a board read from them is
/// in order, and its cells from position `k` on are empty.
pub proof fn lemma_load_inv(line: Seq<char>, k: int)
    requires
        0 <= k <= 81,
        load_upto(line, k) is Ok,
    ensures
        loaded(load_upto(line, k)->Ok_0, k),
    decreases k,
{
    if k == 0 {
        lemma_initial_loaded();
    } else {
        lemma_load_inv(line, k - 1);
        let v = load_upto(line, k - 1)->Ok_0;
        match symbol_of(line[k - 1], char_is_numeric(line[k - 1])) {
            Ok(Some(n)) => {
                lemma_load_clue(v, k - 1, n as int);
            },
            _ => {},
        }
    }
}

/// A board read from a line is in order.
pub proof fn lemma_load_consistent(line: Seq<char>)
    requires
        load(line) is Ok,
    ensures
        load(line)->Ok_0.consistent(),
{
    lemma_load_inv(line, 81);
}

/// Taking digits out depends on the grid alone.
pub proof fn lemma_unplace_all_same(v: BoardView, w: BoardView, edits: Seq<Edit>)
    requires
        v.same_grid(w),
    ensures
        unplace_all(v, edits).same_grid(unplace_all(w, edits)),
    decreases edits.len(),
{
    if edits.len() > 0 {
        lemma_unplace_all_same(
            v.unplace(edits.last().addr),
            w.unplace(edits.last().addr),
            edits.drop_last(),
        );
    }
}

/// Taking the clues of the first `k` symbols out again, the last one
/// first, empties the grid and fills every candidate set.
pub proof fn lemma_load_roundtrip_upto(line: Seq<char>, k: int)
    requires
        0 <= k <= 81,
        load_upto(line, k) is Ok,
    ensures
        unplace_all(load_upto(line, k)->Ok_0, clues_upto(line, k)).same_grid(
            BoardView::initial(),
        ),
    decreases k,
{
    if k > 0 {
        lemma_load_roundtrip_upto(line, k - 1);
        lemma_load_inv(line, k - 1);
        let v = load_upto(line, k - 1)->Ok_0;
        let now = load_upto(line, k)->Ok_0;
        match symbol_of(line[k - 1], char_is_numeric(line[k - 1])) {
            Ok(Some(n)) => {
                let a = Addr::at((k - 1) % 9, (k - 1) / 9);
                let e = Edit { addr: a, num: n };
                let prev = clues_upto(line, k - 1);
                assert(a.wf() && a.index() == k - 1);
                lemma_load_clue(v, k - 1, n as int);
                lemma_close_pending(v, a);
                crate::laws::lemma_place_unplace(v.close(a), a, n as int);
                assert(prev.push(e).drop_last() =~= prev);
                assert(now.unplace(a).same_grid(v));
                lemma_unplace_all_same(now.unplace(a), v, prev);
            },
            _ => {},
        }
    }
}

/// Loading a line and then taking every clue out again, in reverse order,
/// leaves every cell empty and every candidate set full.
pub proof fn lemma_load_roundtrip(line: Seq<char>)
    requires
        load(line) is Ok,
    ensures
        unplace_all(load(line)->Ok_0, clues_upto(line, 81)).same_grid(BoardView::initial()),
{
    lemma_load_roundtrip_upto(line, 81);
}

impl<D: Domain> Board<D> {
    /// Takes `addr` out of the open list, where it stands first; the later
    /// cells keep their order.
    pub fn close(&mut self, addr: Addr)
        requires
            old(self).wf(),
        ensures
            final(self).wf(),
            final(self)@ == old(self)@.close(addr),
    {
        let mut i: usize = 0;
        proof {
            self@.open.index_of_first_ensures(addr);
        }
        while i < self.open.len()
            invariant
                self.wf(),
                self@ == old(self)@,
                i <= self@.open.len(),
                forall|j: int| 0 <= j < i ==> self@.open[j] != addr,
            decreases self@.open.len() - i,
        {
            if self.open[i] == addr {
                proof {
                    self@.open.index_of_first_ensures(addr);
                    let j = self@.open.index_of_first(addr)->0;
                    assert(self@.open.contains(addr));
                    assert(j == i) by {
                        if j < i {
                            assert(self@.open[j] != addr);
                        }
                    }
                }
                self.remove_open_ordered(i);
                return ;
            }
            i += 1;
        }
        proof {
            self@.open.index_of_first_ensures(addr);
            assert(self@.close(addr).open =~= self@.open);
        }
    }

    /// Places the clue `num` in the empty cell `addr`, which leaves the
    /// open list. A digit that is no candidate of the cell is refused and
    /// the board stays as it is.
    pub fn place_clue(&mut self, addr: Addr, num: u8) -> (r: Result<(), LoadError>)
        requires
            old(self).wf(),
            addr.wf(),
            num < 9,
            old(self)@.cells[addr.index()] == Field::Empty,
        ensures
            final(self).wf(),
            match r {
                Ok(_) => old(self)@.candidates(addr).contains(num as int) && final(self)@ == old(
                    self,
                )@.close(addr).place(addr, num as int),
                Err(e) => e == LoadError::Conflict && !old(self)@.candidates(addr).contains(
                    num as int,
                ) && *final(self) == *old(self),
            },
    {
        let legal: bool = self.candidates_for(addr).test(num as usize);
        if !legal {
            return Err(LoadError::Conflict);
        }
        self.close(addr);
        self.manipulate(addr, num as usize);
        Ok(())
    }

    /// Reads a puzzle from a line of 81 symbols, row by row.
    ///
    /// A symbol that is no number is an open cell; the digits `1` to `9`
    /// are clues; what follows the 81st symbol is not read. The line is
    /// refused when it is too short, when a symbol is a number other than
    /// `1` to `9`, or when a clue repeats a digit of its row, column or box;
    /// the first such fault in reading order decides. A board that is
    /// returned is in order.
    pub fn from_line(line: &str) -> (r: Result<Board<D>, LoadError>)
        ensures
            match r {
                Ok(b) => b.wf() && b@.consistent() && load(line@) == Ok::<BoardView, LoadError>(b@),
                Err(e) => load(line@) == Err::<BoardView, LoadError>(e),
            },
    {
        let mut board: Board<D> = Board::default();
        let mut it: Chars<'_> = line.chars();
        let mut pos: usize = 0;
        proof {
            lemma_initial_loaded();
        }
        while pos < 81
            invariant
                pos <= 81,
                pos <= line@.len(),
                it.obeys_prophetic_iter_laws(),
                it.remaining() == line@.skip(pos as int),
                board.wf(),
                loaded(board@, pos as int),
                load_upto(line@, pos as int) == Ok::<BoardView, LoadError>(board@),
            decreases 81 - pos,
        {
            let c: char = match it.next() {
                Some(c) => c,
                None => {
                    proof {
                        lemma_error_stays(line@, pos as int + 1, 81);
                    }
                    return Err(LoadError::LineEndedEarly);
                },
            };
            assert(c == line@[pos as int]);
            assert(line@.skip(pos as int).drop_first() =~= line@.skip(pos as int + 1));
            let ghost old_board = board@;
            match read_symbol(c, c.is_numeric()) {
                Err(e) => {
                    proof {
                        lemma_error_stays(line@, pos as int + 1, 81);
                    }
                    return Err(e);
                },
                Ok(None) => {},
                Ok(Some(num)) => {
                    let addr: Addr = Addr::new(pos % 9, pos / 9);
                    match board.place_clue(addr, num) {
                        Ok(_) => {
                            proof {
                                lemma_load_clue(old_board, pos as int, num as int);
                            }
                        },
                        Err(e) => {
                            proof {
                                lemma_error_stays(line@, pos as int + 1, 81);
                            }
                            return Err(e);
                        },
                    }
                },
            }
            pos += 1;
        }
        Ok(board)
    }
}

impl<D: Domain> Board<D> {
    /// Replaces the board by the puzzle that `line` describes. A line that
    /// is refused leaves the board as it was.
    pub fn init(&mut self, line: &str) -> (r: Result<(), LoadError>)
        ensures
            match r {
                Ok(_) => final(self).wf() && final(self)@.consistent() && load(line@) == Ok::<
                    BoardView,
                    LoadError,
                >(final(self)@),
                Err(e) => load(line@) == Err::<BoardView, LoadError>(e) && *final(self) == *old(
                    self,
                ),
            },
    {
        match Board::from_line(line) {
            Ok(board) => {
                *self = board;
                Ok(())
            },
            Err(e) => Err(e),
        }
    }
}

/// A clue is refused as a conflict exactly when a cell of its row, its
/// column or its box holds its digit already.
pub proof fn lemma_conflict_is_repeat(v: BoardView, pos: int, n: int)
    requires
        loaded(v, pos),
        0 <= pos < 81,
        0 <= n < 9,
    ensures
        !v.candidates(Addr::at(pos % 9, pos / 9)).contains(n) <==> exists|j: int|
            0 <= j < 81 && crate::rules::same_unit(j, pos) && v.cells[j] == Field::Digit(n as u8),
{
    let a = Addr::at(pos % 9, pos / 9);
    assert(a.wf() && a.index() == pos);
    crate::rules::lemma_candidates_legal(v, a, n);
}

/// Once a prefix of a line has been refused, the error stays.
pub proof fn lemma_error_stays(line: Seq<char>, k: int, m: int)
    requires
        0 <= k <= m,
        load_upto(line, k) is Err,
    ensures
        load_upto(line, m) == load_upto(line, k),
    decreases m - k,
{
    if k < m {
        lemma_error_stays(line, k, m - 1);
    }
}

} // verus!
