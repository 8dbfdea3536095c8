//! The rules of the puzzle, stated on the grid: which cells share a unit,
//! when a grid is free of conflicts, when it is solved, and when the
//! candidate sets and the open list of a board agree with its grid.
use vstd::prelude::*;
use crate::addr::{block_of, Addr};
use crate::board::{BoardView, Edit, Field};

verus! {

/// The row of the cell at position `i`.
pub open spec fn row_of(i: int) -> int {
    i / 9
}

/// The column of the cell at position `i`.
pub open spec fn col_of(i: int) -> int {
    i % 9
}

/// The box of the cell at position `i`.
pub open spec fn box_of(i: int) -> int {
    block_of(i % 9, i / 9)
}

/// The cells at positions `i` and `j` share a row, a column or a box.
pub open spec fn same_unit(i: int, j: int) -> bool {
    row_of(i) == row_of(j) || col_of(i) == col_of(j) || box_of(i) == box_of(j)
}

/// No digit stands twice in a row, a column or a box.
pub open spec fn no_conflicts(cells: Seq<Field>) -> bool {
    forall|i: int, j: int|
        0 <= i < 81 && 0 <= j < 81 && i != j && same_unit(i, j) && cells[i] != Field::Empty
            ==> #[trigger] cells[i] != #[trigger] cells[j]
}

/// Every cell holds a digit.
pub open spec fn complete(cells: Seq<Field>) -> bool {
    &&& cells.len() == 81
    &&& forall|i: int| 0 <= i < 81 ==> (#[trigger] cells[i] matches Field::Digit(n) && n < 9)
}

/// The grid is full and obeys the rules.
pub open spec fn solved(cells: Seq<Field>) -> bool {
    complete(cells) && no_conflicts(cells)
}

/// Grid `g` holds every digit that `cells` holds, in the same cell.
pub open spec fn extends(g: Seq<Field>, cells: Seq<Field>) -> bool {
    &&& g.len() == cells.len()
    &&& forall|i: int| 0 <= i < cells.len() && cells[i] != Field::Empty ==> #[trigger] g[i] == cells[i]
}

/// No solved grid extends `cells`.
pub open spec fn unsolvable(cells: Seq<Field>) -> bool {
    forall|g: Seq<Field>| #[trigger] solved(g) ==> !extends(g, cells)
}

/// The digits that no cell of row `r` holds.
pub open spec fn free_in_row(cells: Seq<Field>, r: int) -> Set<int> {
    Set::new(
        |d: int|
            0 <= d < 9 && forall|i: int|
                0 <= i < 81 && row_of(i) == r ==> #[trigger] cells[i] != Field::Digit(d as u8),
    )
}

/// The digits that no cell of column `c` holds.
pub open spec fn free_in_col(cells: Seq<Field>, c: int) -> Set<int> {
    Set::new(
        |d: int|
            0 <= d < 9 && forall|i: int|
                0 <= i < 81 && col_of(i) == c ==> #[trigger] cells[i] != Field::Digit(d as u8),
    )
}

/// The digits that no cell of box `b` holds.
pub open spec fn free_in_box(cells: Seq<Field>, b: int) -> Set<int> {
    Set::new(
        |d: int|
            0 <= d < 9 && forall|i: int|
                0 <= i < 81 && box_of(i) == b ==> #[trigger] cells[i] != Field::Digit(d as u8),
    )
}

/// The grid that results when the placements of `path` are made in
/// `cells`, from the end of the path to its start.
pub open spec fn replay(cells: Seq<Field>, path: Seq<Edit>) -> Seq<Field>
    decreases path.len(),
{
    if path.len() == 0 {
        cells
    } else {
        replay(
            cells.update(path.last().addr.index(), Field::Digit(path.last().num)),
            path.drop_last(),
        )
    }
}

impl BoardView {
    /// Each candidate set holds exactly the digits that its unit lacks.
    pub open spec fn domains_match(self) -> bool {
        &&& forall|u: int| 0 <= u < 9 ==> #[trigger] self.rows[u] == free_in_row(self.cells, u)
        &&& forall|u: int| 0 <= u < 9 ==> #[trigger] self.cols[u] == free_in_col(self.cells, u)
        &&& forall|u: int| 0 <= u < 9 ==> #[trigger] self.boxes[u] == free_in_box(self.cells, u)
    }

    /// The grid obeys the rules and the candidate sets agree with it.
    pub open spec fn grid_ok(self) -> bool {
        &&& self.shape()
        &&& no_conflicts(self.cells)
        &&& self.domains_match()
    }

    /// Every empty cell, except the one at position `skip`, is in the open
    /// list.
    pub open spec fn open_covers(self, skip: int) -> bool {
        forall|i: int|
            0 <= i < 81 && i != skip && #[trigger] self.cells[i] == Field::Empty ==> exists|k: int|
                0 <= k < self.open.len() && (#[trigger] self.open[k]).index() == i
    }

    /// The board is in order: the grid obeys the rules, the candidate sets
    /// agree with it, and the open cells are exactly the empty cells, each
    /// once.
    pub open spec fn consistent(self) -> bool {
        &&& self.grid_ok()
        &&& self.open_unset()
        &&& self.open_covers(-1)
    }
}

/// The row, column and box of a well-formed address are those of its
/// position.
pub proof fn lemma_units_of(a: Addr)
    requires
        a.wf(),
    ensures
        0 <= a.index() < 81,
        row_of(a.index()) == a.y,
        col_of(a.index()) == a.x,
        box_of(a.index()) == a.b,
{
}

/// A legal placement keeps the grid in order: placing a candidate of an
/// empty cell causes no conflict and keeps the candidate sets in agreement
/// with the grid.
pub proof fn lemma_place_grid_ok(v: BoardView, a: Addr, d: int)
    requires
        v.grid_ok(),
        a.wf(),
        v.cells[a.index()] == Field::Empty,
        v.candidates(a).contains(d),
    ensures
        v.place(a, d).grid_ok(),
{
    lemma_units_of(a);
    let w = v.place(a, d);
    let i0 = a.index();
    assert(0 <= d < 9) by {
        assert(v.rows[a.y as int].subset_of(crate::domain::all_digits()));
    }
    assert(free_in_row(v.cells, a.y as int).contains(d));
    assert(free_in_col(v.cells, a.x as int).contains(d));
    assert(free_in_box(v.cells, a.b as int).contains(d));
    assert forall|i: int, j: int|
        0 <= i < 81 && 0 <= j < 81 && i != j && same_unit(i, j) && w.cells[i]
            != Field::Empty implies #[trigger] w.cells[i] != #[trigger] w.cells[j] by {
        if i == i0 {
            assert(v.cells[j] != Field::Digit(d as u8));
        } else if j == i0 {
            assert(v.cells[i] != Field::Digit(d as u8));
        } else {
            assert(v.cells[i] != v.cells[j]);
        }
    }
    assert forall|u: int| 0 <= u < 9 implies #[trigger] w.rows[u] == free_in_row(w.cells, u) by {
        let f = free_in_row(w.cells, u);
        let g = free_in_row(v.cells, u);
        assert forall|e: int| w.rows[u].contains(e) == f.contains(e) by {
            if 0 <= e < 9 {
                if u == a.y {
                    if g.contains(e) && e != d {
                        assert forall|i: int| 0 <= i < 81 && row_of(i) == u implies #[trigger] w.cells[i]
                            != Field::Digit(e as u8) by {
                            if i != i0 {
                                assert(v.cells[i] != Field::Digit(e as u8));
                            }
                        }
                    }
                    if f.contains(e) {
                        assert(w.cells[i0] != Field::Digit(e as u8));
                        assert forall|i: int| 0 <= i < 81 && row_of(i) == u implies #[trigger] v.cells[i]
                            != Field::Digit(e as u8) by {
                            if i != i0 {
                                assert(w.cells[i] != Field::Digit(e as u8));
                            }
                        }
                    }
                } else {
                    if g.contains(e) {
                        assert forall|i: int| 0 <= i < 81 && row_of(i) == u implies #[trigger] w.cells[i]
                            != Field::Digit(e as u8) by {
                            assert(v.cells[i] != Field::Digit(e as u8));
                        }
                    }
                    if f.contains(e) {
                        assert forall|i: int| 0 <= i < 81 && row_of(i) == u implies #[trigger] v.cells[i]
                            != Field::Digit(e as u8) by {
                            assert(w.cells[i] != Field::Digit(e as u8));
                        }
                    }
                }
            }
        }
        assert(w.rows[u] =~= f);
    }
    assert forall|u: int| 0 <= u < 9 implies #[trigger] w.cols[u] == free_in_col(w.cells, u) by {
        let f = free_in_col(w.cells, u);
        let g = free_in_col(v.cells, u);
        assert forall|e: int| w.cols[u].contains(e) == f.contains(e) by {
            if 0 <= e < 9 {
                if u == a.x {
                    if g.contains(e) && e != d {
                        assert forall|i: int| 0 <= i < 81 && col_of(i) == u implies #[trigger] w.cells[i]
                            != Field::Digit(e as u8) by {
                            if i != i0 {
                                assert(v.cells[i] != Field::Digit(e as u8));
                            }
                        }
                    }
                    if f.contains(e) {
                        assert(w.cells[i0] != Field::Digit(e as u8));
                        assert forall|i: int| 0 <= i < 81 && col_of(i) == u implies #[trigger] v.cells[i]
                            != Field::Digit(e as u8) by {
                            if i != i0 {
                                assert(w.cells[i] != Field::Digit(e as u8));
                            }
                        }
                    }
                } else {
                    if g.contains(e) {
                        assert forall|i: int| 0 <= i < 81 && col_of(i) == u implies #[trigger] w.cells[i]
                            != Field::Digit(e as u8) by {
                            assert(v.cells[i] != Field::Digit(e as u8));
                        }
                    }
                    if f.contains(e) {
                        assert forall|i: int| 0 <= i < 81 && col_of(i) == u implies #[trigger] v.cells[i]
                            != Field::Digit(e as u8) by {
                            assert(w.cells[i] != Field::Digit(e as u8));
                        }
                    }
                }
            }
        }
        assert(w.cols[u] =~= f);
    }
    assert forall|u: int| 0 <= u < 9 implies #[trigger] w.boxes[u] == free_in_box(w.cells, u) by {
        let f = free_in_box(w.cells, u);
        let g = free_in_box(v.cells, u);
        assert forall|e: int| w.boxes[u].contains(e) == f.contains(e) by {
            if 0 <= e < 9 {
                if u == a.b {
                    if g.contains(e) && e != d {
                        assert forall|i: int| 0 <= i < 81 && box_of(i) == u implies #[trigger] w.cells[i]
                            != Field::Digit(e as u8) by {
                            if i != i0 {
                                assert(v.cells[i] != Field::Digit(e as u8));
                            }
                        }
                    }
                    if f.contains(e) {
                        assert(w.cells[i0] != Field::Digit(e as u8));
                        assert forall|i: int| 0 <= i < 81 && box_of(i) == u implies #[trigger] v.cells[i]
                            != Field::Digit(e as u8) by {
                            if i != i0 {
                                assert(w.cells[i] != Field::Digit(e as u8));
                            }
                        }
                    }
                } else {
                    if g.contains(e) {
                        assert forall|i: int| 0 <= i < 81 && box_of(i) == u implies #[trigger] w.cells[i]
                            != Field::Digit(e as u8) by {
                            assert(v.cells[i] != Field::Digit(e as u8));
                        }
                    }
                    if f.contains(e) {
                        assert forall|i: int| 0 <= i < 81 && box_of(i) == u implies #[trigger] v.cells[i]
                            != Field::Digit(e as u8) by {
                            assert(w.cells[i] != Field::Digit(e as u8));
                        }
                    }
                }
            }
        }
        assert(w.boxes[u] =~= f);
    }
}

/// A digit that is no candidate of an empty cell cannot stand there in any
/// solved grid that extends the board's grid: a cell of the same row,
/// column or box holds it already.
pub proof fn lemma_non_candidate_excluded(v: BoardView, a: Addr, d: int, g: Seq<Field>)
    requires
        v.grid_ok(),
        a.wf(),
        v.cells[a.index()] == Field::Empty,
        0 <= d < 9,
        !v.candidates(a).contains(d),
        solved(g),
        extends(g, v.cells),
    ensures
        g[a.index()] != Field::Digit(d as u8),
{
    lemma_units_of(a);
    let i0 = a.index();
    if g[i0] == Field::Digit(d as u8) {
        if !v.rows[a.y as int].contains(d) {
            assert(!free_in_row(v.cells, a.y as int).contains(d));
            let i = choose|i: int|
                0 <= i < 81 && row_of(i) == a.y && v.cells[i] == Field::Digit(d as u8);
            assert(g[i] == v.cells[i]);
            assert(g[i0] != g[i]);
        } else if !v.cols[a.x as int].contains(d) {
            assert(!free_in_col(v.cells, a.x as int).contains(d));
            let i = choose|i: int|
                0 <= i < 81 && col_of(i) == a.x && v.cells[i] == Field::Digit(d as u8);
            assert(g[i] == v.cells[i]);
            assert(g[i0] != g[i]);
        } else {
            assert(!free_in_box(v.cells, a.b as int).contains(d));
            let i = choose|i: int|
                0 <= i < 81 && box_of(i) == a.b && v.cells[i] == Field::Digit(d as u8);
            assert(g[i] == v.cells[i]);
            assert(g[i0] != g[i]);
        }
    }
}

/// Taking the chosen cell out of the open list leaves every other empty
/// cell in it.
pub proof fn lemma_remove_open_covers(v: BoardView, i: int)
    requires
        v.shape(),
        v.open_unset(),
        v.open_covers(-1),
        0 <= i < v.open.len(),
    ensures
        v.remove_open(i).open_covers(v.open[i].index()),
{
    let w = v.remove_open(i);
    let n = v.open.len() as int;
    assert forall|j: int|
        0 <= j < 81 && j != v.open[i].index() && #[trigger] w.cells[j]
            == Field::Empty implies exists|k: int|
        0 <= k < w.open.len() && (#[trigger] w.open[k]).index() == j by {
        let k = choose|k: int| 0 <= k < v.open.len() && (#[trigger] v.open[k]).index() == j;
        if k == n - 1 {
            assert(w.open[i] == v.open[k]);
        } else {
            assert(w.open[k] == v.open[k]);
        }
    }
}

/// Putting the pending cell back makes the open list cover every empty
/// cell.
pub proof fn lemma_push_open_covers(v: BoardView, a: Addr)
    requires
        v.open_covers(a.index()),
    ensures
        v.push_open(a).open_covers(-1),
{
    let w = v.push_open(a);
    let n = v.open.len() as int;
    assert forall|j: int|
        0 <= j < 81 && #[trigger] w.cells[j] == Field::Empty implies exists|k: int|
        0 <= k < w.open.len() && (#[trigger] w.open[k]).index() == j by {
        if j == a.index() {
            assert(w.open[n] == a);
        } else {
            let k = choose|k: int| 0 <= k < v.open.len() && (#[trigger] v.open[k]).index() == j;
            assert(w.open[k] == v.open[k]);
        }
    }
}

/// No cell that shares a row, a column or a box with the cell at position
/// `i0` holds digit `d`.
pub open spec fn legal_at(cells: Seq<Field>, i0: int, d: int) -> bool {
    forall|j: int|
        0 <= j < 81 && same_unit(j, i0) ==> #[trigger] cells[j] != Field::Digit(d as u8)
}

/// On a grid in order, the candidates of a cell are the digits that stand
/// nowhere in its row, its column and its box.
pub proof fn lemma_candidates_legal(v: BoardView, a: Addr, d: int)
    requires
        v.grid_ok(),
        a.wf(),
        0 <= d < 9,
    ensures
        v.candidates(a).contains(d) == legal_at(v.cells, a.index(), d),
{
    lemma_units_of(a);
    let i0 = a.index();
    assert(v.rows[a.y as int] == free_in_row(v.cells, a.y as int));
    assert(v.cols[a.x as int] == free_in_col(v.cells, a.x as int));
    assert(v.boxes[a.b as int] == free_in_box(v.cells, a.b as int));
    if legal_at(v.cells, i0, d) {
        assert forall|i: int| 0 <= i < 81 && row_of(i) == a.y implies #[trigger] v.cells[i]
            != Field::Digit(d as u8) by {
            assert(same_unit(i, i0));
        }
        assert forall|i: int| 0 <= i < 81 && col_of(i) == a.x implies #[trigger] v.cells[i]
            != Field::Digit(d as u8) by {
            assert(same_unit(i, i0));
        }
        assert forall|i: int| 0 <= i < 81 && box_of(i) == a.b implies #[trigger] v.cells[i]
            != Field::Digit(d as u8) by {
            assert(same_unit(i, i0));
        }
    }
}

/// The board before anything is placed is in order.
pub proof fn lemma_initial_consistent()
    ensures
        BoardView::initial().consistent(),
{
    let v = BoardView::initial();
    assert forall|u: int| 0 <= u < 9 implies #[trigger] v.rows[u] == free_in_row(v.cells, u) by {
        assert(v.rows[u] =~= free_in_row(v.cells, u));
    }
    assert forall|u: int| 0 <= u < 9 implies #[trigger] v.cols[u] == free_in_col(v.cells, u) by {
        assert(v.cols[u] =~= free_in_col(v.cells, u));
    }
    assert forall|u: int| 0 <= u < 9 implies #[trigger] v.boxes[u] == free_in_box(v.cells, u) by {
        assert(v.boxes[u] =~= free_in_box(v.cells, u));
    }
    assert forall|i: int| 0 <= i < v.open.len() implies (#[trigger] v.open[i]).wf() && v.open[i].index()
        == i by {}
    assert forall|i: int|
        0 <= i < 81 && i != -1 && #[trigger] v.cells[i] == Field::Empty implies exists|k: int|
        0 <= k < v.open.len() && (#[trigger] v.open[k]).index() == i by {
        assert(v.open[i].index() == i);
    }
}

} // verus!
