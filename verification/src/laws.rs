//! What the search is worth: a path it returns leads to a solved grid that
//! extends the given one, and when it returns none there is no such grid.
use vstd::prelude::*;
use crate::addr::Addr;
use crate::board::{BoardView, Edit, Field};
use crate::enumerate::{all_from, extend_all, lemma_search_all_frame, search_all};
use crate::rules::{
    complete, extends, lemma_non_candidate_excluded, lemma_place_grid_ok, lemma_push_open_covers,
    lemma_remove_open_covers, lemma_units_of, replay, solved, unsolvable,
};
use crate::search::{
    lemma_place_frame, lemma_push_open_frame, lemma_remove_open_pending, lemma_search_frame,
    lemma_unplace_frame, search, try_from, Outcome,
};
use crate::select::{is_mrv_choice, lemma_mrv_exists, mrv_index, open_counts};

verus! {

/// Outcome `o` solves board `v`: it has a path, its board is in order and
/// complete, its grid is solved and extends the grid of `v`, and the path
/// replayed on the grid of `v` gives that grid.
pub open spec fn is_solution(v: BoardView, o: Outcome) -> bool {
    &&& o.path is Some
    &&& o.board.consistent()
    &&& o.board.open.len() == 0
    &&& solved(o.board.cells)
    &&& extends(o.board.cells, v.cells)
    &&& replay(v.cells, o.path->0) == o.board.cells
}

/// Outcome `o` is a failure that has put everything back: the cells and
/// the candidate sets are those of `v`, and the board is in order.
pub open spec fn is_restored(v: BoardView, o: Outcome) -> bool {
    &&& o.path is None
    &&& o.board.same_grid(v)
    &&& o.board.consistent()
}

/// In every solved grid that extends `cells`, the cell at position `i0`
/// holds a digit below `d`.
pub open spec fn only_below(cells: Seq<Field>, i0: int, d: int) -> bool {
    forall|g: Seq<Field>|
        solved(g) && #[trigger] extends(g, cells) ==> (g[i0] matches Field::Digit(n) && n < d)
}

/// What a search on board `v` is worth that returns `path` and leaves
/// `board`: a failure has left the cells and candidate sets of `v`, and the
/// same open cells in some order; and if `v` is in order, a path leads to a
/// solved grid that extends the grid of `v`, while a failure shows that
/// there is no such grid.
pub open spec fn verdict(v: BoardView, path: Option<Seq<Edit>>, board: BoardView) -> bool {
    &&& path is None ==> board.same_grid(v) && board.open.to_multiset() == v.open.to_multiset()
    &&& v.consistent() ==> match path {
        Some(p) => {
            &&& board.consistent()
            &&& board.open.len() == 0
            &&& solved(board.cells)
            &&& extends(board.cells, v.cells)
            &&& replay(v.cells, p) == board.cells
        },
        None => board.consistent() && unsolvable(v.cells),
    }
}

/// The outcome of the search has the worth that `verdict` describes.
pub proof fn lemma_search_verdict(v: BoardView)
    requires
        v.shape(),
        v.open_unset(),
    ensures
        verdict(v, search(v).path, search(v).board),
{
    lemma_search_frame(v);
    if v.consistent() {
        lemma_search_correct(v);
    }
}

/// A board in order with no open cell is solved.
pub proof fn lemma_full_board_solved(v: BoardView)
    requires
        v.consistent(),
        v.open.len() == 0,
    ensures
        solved(v.cells),
{
    assert forall|i: int| 0 <= i < 81 implies (#[trigger] v.cells[i] matches Field::Digit(n) && n
        < 9) by {
        if v.cells[i] == Field::Empty {
            let k = choose|k: int| 0 <= k < v.open.len() && (#[trigger] v.open[k]).index() == i;
        }
    }
}

/// The search is sound and complete.
///
/// On a board in order, a path that the search returns leads to a solved
/// grid that extends the given grid; when the search returns no path, no
/// solved grid extends the given grid, and the cells and candidate sets
/// are as before.
pub proof fn lemma_search_correct(v: BoardView)
    requires
        v.consistent(),
    ensures
        search(v).path is Some ==> is_solution(v, search(v)) && search(v).path->0.len()
            == v.open.len(),
        search(v).path is None ==> is_restored(v, search(v)) && unsolvable(v.cells),
    decreases v.open.len(), 0int, 0int,
{
    if v.open.len() == 0 {
        lemma_full_board_solved(v);
        assert(replay(v.cells, Seq::<Edit>::empty()) == v.cells);
    } else {
        lemma_mrv_exists(open_counts(v));
        let i = mrv_index(open_counts(v));
        let a = v.open[i];
        let v1 = v.remove_open(i);
        lemma_remove_open_pending(v, i);
        lemma_remove_open_covers(v, i);
        lemma_try_correct(v1, a, v.candidates(a), 0);
        let o = try_from(v1, a, v.candidates(a), 0);
        if o.path is None {
            assert forall|g: Seq<Field>| #[trigger] solved(g) implies !extends(g, v.cells) by {
                if extends(g, v.cells) {
                    assert(extends(g, v1.cells));
                }
            }
        }
    }
}

/// The same for the search below a selected cell `a`, from digit `d`
/// upwards: a failure shows that in every solved grid that extends the
/// given one, `a` holds a digit below `d`.
pub proof fn lemma_try_correct(v: BoardView, a: Addr, c: Set<int>, d: int)
    requires
        v.grid_ok(),
        v.open_unset(),
        v.pending(a),
        v.open_covers(a.index()),
        c == v.candidates(a),
        0 <= d <= 9,
    ensures
        try_from(v, a, c, d).path is Some ==> is_solution(v, try_from(v, a, c, d)) && try_from(
            v,
            a,
            c,
            d,
        ).path->0.len() == v.open.len() + 1,
        try_from(v, a, c, d).path is None ==> is_restored(v, try_from(v, a, c, d)) && only_below(
            v.cells,
            a.index(),
            d,
        ),
    decreases v.open.len(), 1int, 9 - d,
{
    lemma_units_of(a);
    let i0 = a.index();
    if d >= 9 {
        lemma_push_open_frame(v, a);
        lemma_push_open_covers(v, a);
        assert forall|g: Seq<Field>| solved(g) && #[trigger] extends(g, v.cells) implies (g[i0] matches Field::Digit(
            n,
        ) && n < d) by {
            assert(complete(g));
        }
    } else if !c.contains(d) {
        lemma_try_correct(v, a, c, d + 1);
        if try_from(v, a, c, d).path is None {
            assert forall|g: Seq<Field>| solved(g) && #[trigger] extends(g, v.cells) implies (g[i0] matches Field::Digit(
                n,
            ) && n < d) by {
                lemma_non_candidate_excluded(v, a, d, g);
            }
        }
    } else {
        let w = v.place(a, d);
        let e = Edit { addr: a, num: d as u8 };
        lemma_place_frame(v, a, d);
        lemma_place_grid_ok(v, a, d);
        assert(w.open_covers(-1)) by {
            assert forall|j: int|
                0 <= j < 81 && #[trigger] w.cells[j] == Field::Empty implies exists|k: int|
                0 <= k < w.open.len() && (#[trigger] w.open[k]).index() == j by {
                assert(v.cells[j] == Field::Empty);
            }
        }
        lemma_search_correct(w);
        lemma_search_frame(w);
        let r = search(w);
        match r.path {
            Some(p) => {
                assert(extends(r.board.cells, v.cells)) by {
                    assert forall|i: int|
                        0 <= i < v.cells.len() && v.cells[i] != Field::Empty implies #[trigger] r.board.cells[i]
                        == v.cells[i] by {
                        assert(w.cells[i] == v.cells[i]);
                    }
                }
                assert(p.push(e).drop_last() =~= p);
                assert(replay(v.cells, p.push(e)) == replay(w.cells, p));
            },
            None => {
                let u = r.board.unplace(a);
                lemma_unplace_frame(v, r.board, a, d);
                assert(u.open_covers(i0)) by {
                    assert forall|j: int|
                        0 <= j < 81 && j != i0 && #[trigger] u.cells[j]
                            == Field::Empty implies exists|k: int|
                        0 <= k < u.open.len() && (#[trigger] u.open[k]).index() == j by {
                        assert(r.board.cells[j] == Field::Empty);
                    }
                }
                lemma_try_correct(u, a, c, d + 1);
                let o = try_from(u, a, c, d + 1);
                if o.path is None {
                    assert forall|g: Seq<Field>| solved(g) && #[trigger] extends(g, v.cells) implies (g[i0] matches Field::Digit(
                        n,
                    ) && n < d) by {
                        assert(extends(g, u.cells));
                        if g[i0] == Field::Digit(d as u8) {
                            assert(extends(g, w.cells)) by {
                                assert forall|i: int|
                                    0 <= i < w.cells.len() && w.cells[i]
                                        != Field::Empty implies #[trigger] g[i] == w.cells[i] by {
                                    if i != i0 {
                                        assert(w.cells[i] == v.cells[i]);
                                    }
                                }
                            }
                        }
                    }
                } else {
                    assert(is_solution(u, o));
                }
            },
        }
    }
}

/// The count at the chosen position is the least of all counts, unless
/// the scan stopped early at a count of one while a cell further on has no
/// candidate at all.
pub proof fn lemma_mrv_minimal(counts: Seq<nat>, i: int)
    requires
        is_mrv_choice(counts, i),
        !(counts[i] == 1 && exists|j: int| 0 <= j < counts.len() && counts[j] == 0),
    ensures
        forall|j: int| 0 <= j < counts.len() ==> counts[i] <= counts[j],
{
    assert forall|j: int| 0 <= j < counts.len() implies counts[i] <= counts[j] by {
        if j < i {
            assert(counts[j] > counts[i]);
        } else if j > i {
            assert(counts[j] >= counts[i] || counts[i] == 1);
            if counts[i] == 1 {
                assert(counts[j] != 0);
            }
        }
    }
}

/// On a board with no open cell the search ends at once: the path is
/// empty, the board is untouched and no step is taken.
pub proof fn lemma_full_board_no_steps(v: BoardView)
    requires
        v.open.len() == 0,
    ensures
        search(v) == (Outcome { path: Some(Seq::<Edit>::empty()), board: v, steps: 0 }),
{
}

/// Placing a candidate in an empty cell and taking it out again changes
/// nothing: the cell is empty again and the three candidate sets are as
/// before.
pub proof fn lemma_place_unplace(v: BoardView, a: Addr, d: int)
    requires
        v.shape(),
        a.wf(),
        v.cells[a.index()] == Field::Empty,
        0 <= d < 9,
        v.candidates(a).contains(d),
    ensures
        v.place(a, d).unplace(a) == v,
{
    lemma_units_of(a);
    let u = v.place(a, d).unplace(a);
    assert(u.cells =~= v.cells);
    assert(v.rows[a.y as int].remove(d).insert(d) =~= v.rows[a.y as int]);
    assert(v.cols[a.x as int].remove(d).insert(d) =~= v.cols[a.x as int]);
    assert(v.boxes[a.b as int].remove(d).insert(d) =~= v.boxes[a.b as int]);
    assert(u.rows =~= v.rows);
    assert(u.cols =~= v.cols);
    assert(u.boxes =~= v.boxes);
}

/// The recursive search and the search with an explicit stack agree: two
/// results that both meet the contract of a solver on the same board are
/// the same path and the same board.
pub proof fn lemma_solvers_agree(
    v: BoardView,
    recursive: (Option<Seq<Edit>>, BoardView),
    iterative: (Option<Seq<Edit>>, BoardView),
)
    requires
        recursive.0 == search(v).path,
        recursive.1 == search(v).board,
        iterative.0 == search(v).path,
        iterative.1 == search(v).board,
    ensures
        recursive == iterative,
{
}

/// Grid `g` is reached by one of `paths`, replayed on `cells`.
pub open spec fn reaches(cells: Seq<Field>, paths: Seq<Seq<Edit>>, g: Seq<Field>) -> bool {
    exists|k: int| 0 <= k < paths.len() && replay(cells, #[trigger] paths[k]) == g
}

/// Every one of `paths`, replayed on `cells`, gives a solved grid that
/// extends `cells`.
pub open spec fn all_solve(cells: Seq<Field>, paths: Seq<Seq<Edit>>) -> bool {
    forall|k: int|
        0 <= k < paths.len() ==> solved(replay(cells, #[trigger] paths[k])) && extends(
            replay(cells, paths[k]),
            cells,
        )
}

/// Every solved grid that extends `cells` and holds a digit from `d`
/// upwards at position `i0` is reached by one of `paths`.
pub open spec fn all_found(cells: Seq<Field>, paths: Seq<Seq<Edit>>, i0: int, d: int) -> bool {
    forall|g: Seq<Field>|
        solved(g) && #[trigger] extends(g, cells) && (g[i0] matches Field::Digit(n) && n >= d)
            ==> reaches(cells, paths, g)
}

/// A complete grid is the only grid that extends it.
pub proof fn lemma_complete_extends(cells: Seq<Field>, g: Seq<Field>)
    requires
        complete(cells),
        extends(g, cells),
    ensures
        g == cells,
{
    assert forall|i: int| 0 <= i < 81 implies g[i] == cells[i] by {
        assert(cells[i] != Field::Empty);
    }
    assert(g =~= cells);
}

/// The search for all completions is sound and complete.
///
/// On a board in order, every path that it returns leads to a solved grid
/// that extends the given grid, every such grid is reached by one of the
/// paths, and the cells and candidate sets are as before.
pub proof fn lemma_search_all_correct(v: BoardView)
    requires
        v.consistent(),
    ensures
        all_solve(v.cells, search_all(v).paths),
        forall|g: Seq<Field>|
            solved(g) && #[trigger] extends(g, v.cells) ==> reaches(
                v.cells,
                search_all(v).paths,
                g,
            ),
        search_all(v).board.same_grid(v),
        search_all(v).board.consistent(),
    decreases v.open.len(), 0int, 0int,
{
    let paths = search_all(v).paths;
    if v.open.len() == 0 {
        lemma_full_board_solved(v);
        assert(paths[0] == Seq::<Edit>::empty());
        assert(replay(v.cells, paths[0]) == v.cells);
        assert forall|g: Seq<Field>| solved(g) && #[trigger] extends(g, v.cells) implies reaches(
            v.cells,
            paths,
            g,
        ) by {
            lemma_complete_extends(v.cells, g);
        }
    } else {
        lemma_mrv_exists(open_counts(v));
        let i = mrv_index(open_counts(v));
        let a = v.open[i];
        let v1 = v.remove_open(i);
        lemma_remove_open_pending(v, i);
        lemma_remove_open_covers(v, i);
        lemma_all_from_correct(v1, a, v.candidates(a), 0);
        assert forall|g: Seq<Field>| solved(g) && #[trigger] extends(g, v.cells) implies reaches(
            v.cells,
            paths,
            g,
        ) by {
            assert(extends(g, v1.cells));
            assert(complete(g));
        }
    }
}

/// The same for the search below a selected cell `a`, from digit `d`
/// upwards.
pub proof fn lemma_all_from_correct(v: BoardView, a: Addr, c: Set<int>, d: int)
    requires
        v.grid_ok(),
        v.open_unset(),
        v.pending(a),
        v.open_covers(a.index()),
        c == v.candidates(a),
        0 <= d <= 9,
    ensures
        all_solve(v.cells, all_from(v, a, c, d).paths),
        all_found(v.cells, all_from(v, a, c, d).paths, a.index(), d),
        all_from(v, a, c, d).board.same_grid(v),
        all_from(v, a, c, d).board.consistent(),
    decreases v.open.len(), 1int, 9 - d,
{
    lemma_units_of(a);
    let i0 = a.index();
    let paths = all_from(v, a, c, d).paths;
    if d >= 9 {
        lemma_push_open_frame(v, a);
        lemma_push_open_covers(v, a);
        assert forall|g: Seq<Field>|
            solved(g) && #[trigger] extends(g, v.cells) && (g[i0] matches Field::Digit(n) && n
                >= d) implies reaches(v.cells, paths, g) by {
            assert(complete(g));
        }
    } else if !c.contains(d) {
        lemma_all_from_correct(v, a, c, d + 1);
        assert forall|g: Seq<Field>|
            solved(g) && #[trigger] extends(g, v.cells) && (g[i0] matches Field::Digit(n) && n
                >= d) implies reaches(v.cells, paths, g) by {
            lemma_non_candidate_excluded(v, a, d, g);
        }
    } else {
        let w = v.place(a, d);
        let e = Edit { addr: a, num: d as u8 };
        lemma_place_frame(v, a, d);
        lemma_place_grid_ok(v, a, d);
        assert(w.open_covers(-1)) by {
            assert forall|j: int|
                0 <= j < 81 && #[trigger] w.cells[j] == Field::Empty implies exists|k: int|
                0 <= k < w.open.len() && (#[trigger] w.open[k]).index() == j by {
                assert(v.cells[j] == Field::Empty);
            }
        }
        lemma_search_all_correct(w);
        lemma_search_all_frame(w);
        let r = search_all(w);
        let u = r.board.unplace(a);
        lemma_unplace_frame(v, r.board, a, d);
        assert(u.open_covers(i0)) by {
            assert forall|j: int|
                0 <= j < 81 && j != i0 && #[trigger] u.cells[j]
                    == Field::Empty implies exists|k: int|
                0 <= k < u.open.len() && (#[trigger] u.open[k]).index() == j by {
                assert(r.board.cells[j] == Field::Empty);
            }
        }
        lemma_all_from_correct(u, a, c, d + 1);
        let rest = all_from(u, a, c, d + 1);
        let ext = extend_all(r.paths, e);
        assert(paths == ext + rest.paths);
        assert forall|k: int| 0 <= k < ext.len() implies replay(v.cells, #[trigger] ext[k])
            == replay(w.cells, r.paths[k]) by {
            assert(r.paths[k].push(e).drop_last() =~= r.paths[k]);
        }
        assert forall|k: int| 0 <= k < paths.len() implies solved(
            replay(v.cells, #[trigger] paths[k]),
        ) && extends(replay(v.cells, paths[k]), v.cells) by {
            if k < ext.len() {
                assert(paths[k] == ext[k]);
                let g = replay(w.cells, r.paths[k]);
                assert(extends(g, w.cells));
                assert forall|i: int|
                    0 <= i < v.cells.len() && v.cells[i] != Field::Empty implies #[trigger] g[i]
                    == v.cells[i] by {
                    assert(w.cells[i] == v.cells[i]);
                }
            } else {
                assert(paths[k] == rest.paths[k - ext.len()]);
            }
        }
        assert forall|g: Seq<Field>|
            solved(g) && #[trigger] extends(g, v.cells) && (g[i0] matches Field::Digit(n) && n
                >= d) implies reaches(v.cells, paths, g) by {
            if g[i0] == Field::Digit(d as u8) {
                assert(extends(g, w.cells)) by {
                    assert forall|i: int|
                        0 <= i < w.cells.len() && w.cells[i] != Field::Empty implies #[trigger] g[i]
                        == w.cells[i] by {
                        if i != i0 {
                            assert(w.cells[i] == v.cells[i]);
                        }
                    }
                }
                let k = choose|k: int|
                    0 <= k < r.paths.len() && replay(w.cells, #[trigger] r.paths[k]) == g;
                assert(paths[k] == ext[k]);
            } else {
                assert(extends(g, u.cells));
                let k = choose|k: int|
                    0 <= k < rest.paths.len() && replay(u.cells, #[trigger] rest.paths[k]) == g;
                assert(paths[ext.len() + k] == rest.paths[k]);
            }
        }
    }
}

/// The first of `paths`, if there is one.
pub open spec fn first_of(paths: Seq<Seq<Edit>>) -> Option<Seq<Edit>> {
    if paths.len() > 0 {
        Some(paths[0])
    } else {
        None
    }
}

/// The search for one completion returns the first path of the search for
/// all of them; when there is none, both leave the same board.
pub proof fn lemma_first_of_all(v: BoardView)
    requires
        v.shape(),
        v.open_unset(),
    ensures
        search(v).path == first_of(search_all(v).paths),
        search(v).path is None ==> search(v).board == search_all(v).board,
    decreases v.open.len(), 0int, 0int,
{
    if v.open.len() > 0 {
        lemma_mrv_exists(open_counts(v));
        let i = mrv_index(open_counts(v));
        lemma_remove_open_pending(v, i);
        lemma_first_of_all_from(v.remove_open(i), v.open[i], v.candidates(v.open[i]), 0);
    }
}

/// The same below a selected cell.
pub proof fn lemma_first_of_all_from(v: BoardView, a: Addr, c: Set<int>, d: int)
    requires
        v.shape(),
        v.open_unset(),
        v.pending(a),
        c.subset_of(v.candidates(a)),
        0 <= d <= 9,
    ensures
        try_from(v, a, c, d).path == first_of(all_from(v, a, c, d).paths),
        try_from(v, a, c, d).path is None ==> try_from(v, a, c, d).board == all_from(
            v,
            a,
            c,
            d,
        ).board,
    decreases v.open.len(), 1int, 9 - d,
{
    if d >= 9 {
    } else if !c.contains(d) {
        lemma_first_of_all_from(v, a, c, d + 1);
    } else {
        let w = v.place(a, d);
        let e = Edit { addr: a, num: d as u8 };
        lemma_place_frame(v, a, d);
        lemma_search_frame(w);
        lemma_search_all_frame(w);
        lemma_first_of_all(w);
        let r = search_all(w);
        lemma_unplace_frame(v, r.board, a, d);
        let rest = all_from(r.board.unplace(a), a, c, d + 1);
        if search(w).path is None {
            lemma_first_of_all_from(r.board.unplace(a), a, c, d + 1);
            assert(extend_all(r.paths, e) + rest.paths =~= rest.paths);
        } else {
            assert((extend_all(r.paths, e) + rest.paths)[0] == r.paths[0].push(e));
        }
    }
}

} // verus!
