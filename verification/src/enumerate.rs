//! Depth-first search for every completion of the board.
use vstd::prelude::*;
use crate::addr::Addr;
use crate::board::{Board, BoardView, Edit, Field};
use crate::domain::Domain;
use crate::laws::{all_solve, lemma_search_all_correct, reaches};
use crate::rules::{extends, solved};
use crate::search::{
    lemma_place_frame, lemma_push_open_frame, lemma_remove_open_pending, lemma_unplace_frame,
};
use crate::select::{best_candidate, lemma_mrv_exists, mrv_index, open_counts};

verus! {

/// How a search for all completions ends.
pub struct Harvest {
    /// One path for each completion, in the order in which they are found;
    /// each lists the placements, the last one first.
    pub paths: Seq<Seq<Edit>>,
    /// The board that the search leaves.
    pub board: BoardView,
}

/// Every path of `paths`, with the placement `e` added at its end.
pub open spec fn extend_all(paths: Seq<Seq<Edit>>, e: Edit) -> Seq<Seq<Edit>> {
    Seq::new(paths.len(), |k: int| paths[k].push(e))
}

/// The outcome of the search for all completions of board `v`.
///
/// With no open cell the board is its own completion, reached by the
/// empty path. Otherwise the cell with the fewest candidates leaves the
/// open list, its candidates are tried in ascending order, and each is
/// taken out again whether or not its subtree held a completion. (As in
/// `search`, the branches for a position outside the list and for a subtree
/// that changes the number of open cells are never taken.)
pub open spec fn search_all(v: BoardView) -> Harvest
    decreases v.open.len(), 0int, 0int,
{
    if v.open.len() == 0 {
        Harvest { paths: seq![Seq::<Edit>::empty()], board: v }
    } else {
        let i = mrv_index(open_counts(v));
        if 0 <= i < v.open.len() {
            let a = v.open[i];
            all_from(v.remove_open(i), a, v.candidates(a), 0)
        } else {
            Harvest { paths: Seq::empty(), board: v }
        }
    }
}

/// The outcome of the search for all completions when cell `a` has been
/// selected and the digits of `c` from `d` upwards are still to be tried.
pub open spec fn all_from(v: BoardView, a: Addr, c: Set<int>, d: int) -> Harvest
    decreases v.open.len(), 1int, 9 - d,
{
    if d < 0 || d >= 9 {
        Harvest { paths: Seq::empty(), board: v.push_open(a) }
    } else if !c.contains(d) {
        all_from(v, a, c, d + 1)
    } else {
        let r = search_all(v.place(a, d));
        if r.board.open.len() == v.open.len() {
            let rest = all_from(r.board.unplace(a), a, c, d + 1);
            Harvest {
                paths: extend_all(r.paths, Edit { addr: a, num: d as u8 }) + rest.paths,
                board: rest.board,
            }
        } else {
            r
        }
    }
}

/// The search for all completions keeps the shape of the board and leaves
/// the cells and all candidate sets as they were, and as many open cells.
pub proof fn lemma_search_all_frame(v: BoardView)
    requires
        v.shape(),
        v.open_unset(),
    ensures
        search_all(v).board.shape(),
        search_all(v).board.open_unset(),
        search_all(v).board.same_grid(v),
        search_all(v).board.open.len() == v.open.len(),
        search_all(v).board.open.to_multiset() == v.open.to_multiset(),
    decreases v.open.len(), 0int, 0int,
{
    if v.open.len() > 0 {
        lemma_mrv_exists(open_counts(v));
        let i = mrv_index(open_counts(v));
        lemma_remove_open_pending(v, i);
        lemma_all_from_frame(v.remove_open(i), v.open[i], v.candidates(v.open[i]), 0);
    }
}

/// The same below a selected cell, which is open again at the end.
pub proof fn lemma_all_from_frame(v: BoardView, a: Addr, c: Set<int>, d: int)
    requires
        v.shape(),
        v.open_unset(),
        v.pending(a),
        c.subset_of(v.candidates(a)),
        0 <= d <= 9,
    ensures
        all_from(v, a, c, d).board.shape(),
        all_from(v, a, c, d).board.open_unset(),
        all_from(v, a, c, d).board.same_grid(v),
        all_from(v, a, c, d).board.open.len() == v.open.len() + 1,
        all_from(v, a, c, d).board.open.to_multiset() == v.open.to_multiset().insert(a),
    decreases v.open.len(), 1int, 9 - d,
{
    if d >= 9 {
        lemma_push_open_frame(v, a);
    } else if !c.contains(d) {
        lemma_all_from_frame(v, a, c, d + 1);
    } else {
        lemma_place_frame(v, a, d);
        lemma_search_all_frame(v.place(a, d));
        let r = search_all(v.place(a, d));
        lemma_unplace_frame(v, r.board, a, d);
        lemma_all_from_frame(r.board.unplace(a), a, c, d + 1);
    }
}

/// The paths of a result, as sequences; none for `None`.
pub open spec fn paths_view(r: Option<Vec<Vec<Edit>>>) -> Seq<Seq<Edit>> {
    match r {
        Some(ps) => Seq::new(ps@.len(), |k: int| ps@[k]@),
        None => Seq::empty(),
    }
}

impl<D: Domain> Board<D> {
    /// Searches for every completion of the board.
    ///
    /// Returns one path for each completion, in the order in which they
    /// are found, or `None` when there is none. The cells and the
    /// candidate sets are left as they were. The paths and the board left
    /// behind are those of `search_all`. On a board in order every path
    /// replayed on the grid gives a solved grid that extends it, and every
    /// such grid is reached by one of the paths.
    pub fn solve_all(&mut self) -> (r: Option<Vec<Vec<Edit>>>)
        requires
            old(self).wf(),
            old(self)@.open_unset(),
        ensures
            final(self).wf(),
            paths_view(r) == search_all(old(self)@).paths,
            r matches Some(ps) ==> ps@.len() > 0,
            final(self)@ == search_all(old(self)@).board,
            final(self)@.open_unset(),
            final(self)@.same_grid(old(self)@),
            final(self)@.open.to_multiset() == old(self)@.open.to_multiset(),
            old(self)@.consistent() ==> {
                &&& final(self)@.consistent()
                &&& all_solve(old(self)@.cells, paths_view(r))
                &&& forall|g: Seq<Field>|
                    solved(g) && #[trigger] extends(g, old(self)@.cells) ==> reaches(
                        old(self)@.cells,
                        paths_view(r),
                        g,
                    )
            },
        decreases old(self)@.open.len(),
    {
        proof {
            self.lemma_shape();
            lemma_search_all_frame(self@);
            if self@.consistent() {
                lemma_search_all_correct(self@);
            }
        }
        if self.open.len() == 0 {
            let mut only: Vec<Vec<Edit>> = Vec::new();
            only.push(Vec::new());
            assert(paths_view(Some(only)) =~= seq![Seq::<Edit>::empty()]);
            return Some(only);
        }
        proof {
            self.lemma_shape();
            lemma_mrv_exists(open_counts(self@));
            lemma_remove_open_pending(self@, mrv_index(open_counts(self@)));
        }
        let mut edit_alternatives: Vec<Vec<Edit>> = Vec::new();
        let (min_candidates, min_i) = best_candidate(self);
        let addr: Addr = self.remove_open(min_i);
        let ghost cands = min_candidates.digits();
        let ghost goal = search_all(old(self)@);
        let mut c: usize = 0;
        while c < 9
            invariant
                c <= 9,
                self.wf(),
                self@.shape(),
                self@.open_unset(),
                self@.pending(addr),
                self@.open.len() == old(self)@.open.len() - 1,
                min_candidates.wf(),
                cands == min_candidates.digits(),
                cands.subset_of(self@.candidates(addr)),
                goal == search_all(old(self)@),
                paths_view(Some(edit_alternatives)) + all_from(self@, addr, cands, c as int).paths
                    == goal.paths,
                all_from(self@, addr, cands, c as int).board == goal.board,
            decreases 9 - c,
        {
            if min_candidates.test(c) {
                let ghost before = self@;
                let ghost found = paths_view(Some(edit_alternatives));
                proof {
                    lemma_place_frame(before, addr, c as int);
                    lemma_search_all_frame(before.place(addr, c as int));
                }
                let edit: Edit = self.manipulate(addr, c);
                let ghost below = search_all(self@);
                let result = self.solve_all();
                proof {
                    lemma_unplace_frame(before, self@, addr, c as int);
                }
                self.rollback(edit);
                match result {
                    Some(solution_alternatives) => {
                        let ghost alts = solution_alternatives@;
                        for solution_edits in it: solution_alternatives
                            invariant
                                it.seq() == alts,
                                paths_view(Some(edit_alternatives)) == found + extend_all(
                                    below.paths,
                                    edit,
                                ).take(it.index() as int),
                                below.paths == Seq::new(alts.len(), |k: int| alts[k]@),
                        {
                            let mut solution_edits = solution_edits;
                            let ghost k = it.index() as int;
                            let ghost prev = paths_view(Some(edit_alternatives));
                            solution_edits.push(edit);
                            edit_alternatives.push(solution_edits);
                            assert(paths_view(Some(edit_alternatives)) =~= prev.push(
                                below.paths[k].push(edit),
                            ));
                            assert(extend_all(below.paths, edit).take(k + 1) =~= extend_all(
                                below.paths,
                                edit,
                            ).take(k).push(below.paths[k].push(edit)));
                        }
                        assert(extend_all(below.paths, edit).take(alts.len() as int)
                            =~= extend_all(below.paths, edit));
                    },
                    None => {
                        assert(extend_all(below.paths, edit) =~= Seq::<Seq<Edit>>::empty());
                    },
                }
                assert(paths_view(Some(edit_alternatives)) =~= found + extend_all(
                    below.paths,
                    edit,
                ));
                assert((found + extend_all(below.paths, edit)) + all_from(
                    self@,
                    addr,
                    cands,
                    c + 1,
                ).paths =~= found + (extend_all(below.paths, edit) + all_from(
                    self@,
                    addr,
                    cands,
                    c + 1,
                ).paths));
            }
            c += 1;
        }
        self.push_open(addr);
        assert(paths_view(Some(edit_alternatives)) =~= goal.paths);
        if edit_alternatives.len() == 0 {
            None
        } else {
            Some(edit_alternatives)
        }
    }
}

} // verus!
