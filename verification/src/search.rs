//! Depth-first search for a completion of the board, by recursion.
use vstd::prelude::*;
use crate::addr::Addr;
use crate::board::{Board, BoardView, Edit, Field};
use crate::domain::Domain;
use crate::laws::{lemma_search_verdict, verdict};
use crate::select::{best_candidate, lemma_mrv_exists, mrv_index, open_counts};

verus! {

impl BoardView {
    /// Every open cell is empty, and no cell is open twice.
    pub open spec fn open_unset(self) -> bool {
        &&& forall|k: int|
            0 <= k < self.open.len() ==> self.cells[(#[trigger] self.open[k]).index()]
                == Field::Empty
        &&& forall|j: int, k: int|
            0 <= j < k < self.open.len() ==> self.open[j] != self.open[k]
    }

    /// Cell `a` is empty and not in the open list: it is the cell that the
    /// search is working on.
    pub open spec fn pending(self, a: Addr) -> bool {
        &&& a.wf()
        &&& self.cells[a.index()] == Field::Empty
        &&& forall|k: int| 0 <= k < self.open.len() ==> self.open[k] != a
    }

    /// The two boards agree on the cells and on all candidate sets.
    pub open spec fn same_grid(self, other: BoardView) -> bool {
        &&& self.cells == other.cells
        &&& self.rows == other.rows
        &&& self.cols == other.cols
        &&& self.boxes == other.boxes
    }
}

/// How a search ends.
pub struct Outcome {
    /// The placements made, the last one first; `None` when there is no
    /// completion.
    pub path: Option<Seq<Edit>>,
    /// The board that the search leaves.
    pub board: BoardView,
    /// How many times a cell was selected or taken up again after a failed
    /// subtree.
    pub steps: nat,
}

impl Outcome {
    /// The two outcomes have the same path and leave the same board.
    pub open spec fn same_result(self, other: Outcome) -> bool {
        self.path == other.path && self.board == other.board
    }

    /// The outcome with `k` more steps.
    pub open spec fn later(self, k: nat) -> Outcome {
        Outcome { steps: self.steps + k, ..self }
    }
}

/// The outcome of the search on board `v`.
///
/// With no open cell the board is complete: the path is empty and no step
/// is taken. Otherwise the cell with the fewest candidates leaves the open
/// list and its candidates are tried in ascending order. (The position that
/// `mrv_index` gives always lies in the list, by `lemma_mrv_exists`; the
/// branch for a position outside it only makes the definition total.)
pub open spec fn search(v: BoardView) -> Outcome
    decreases v.open.len(), 0int, 0int,
{
    if v.open.len() == 0 {
        Outcome { path: Some(Seq::empty()), board: v, steps: 0 }
    } else {
        let i = mrv_index(open_counts(v));
        if 0 <= i < v.open.len() {
            let a = v.open[i];
            try_from(v.remove_open(i), a, v.candidates(a), 0).later(1)
        } else {
            Outcome { path: None, board: v, steps: 0 }
        }
    }
}

/// The outcome of the search when cell `a` has been selected and the
/// digits of `c` from `d` upwards are still to be tried.
///
/// The first digit whose subtree succeeds ends the search; a digit whose
/// subtree fails is taken out again, which is one more step. When no digit
/// is left, `a` returns to the end of the open list. (A subtree that fails
/// leaves as many open cells as it found, by `lemma_search_frame`; the
/// branch for another number only lets the definition terminate.)
pub open spec fn try_from(v: BoardView, a: Addr, c: Set<int>, d: int) -> Outcome
    decreases v.open.len(), 1int, 9 - d,
{
    if d < 0 || d >= 9 {
        Outcome { path: None, board: v.push_open(a), steps: 0 }
    } else if !c.contains(d) {
        try_from(v, a, c, d + 1)
    } else {
        let r = search(v.place(a, d));
        match r.path {
            Some(path) => Outcome {
                path: Some(path.push(Edit { addr: a, num: d as u8 })),
                board: r.board,
                steps: r.steps,
            },
            None => if r.board.open.len() == v.open.len() {
                try_from(r.board.unplace(a), a, c, d + 1).later(r.steps + 1)
            } else {
                r
            },
        }
    }
}

/// Two well-formed addresses with the same index are the same address.
pub proof fn lemma_index_injective(a: Addr, b: Addr)
    requires
        a.wf(),
        b.wf(),
        a.index() == b.index(),
    ensures
        a == b,
{
}

/// Replacing the element at position `i` by the last one and dropping the
/// last takes one occurrence of that element out of the sequence.
pub proof fn lemma_swap_remove_multiset(s: Seq<Addr>, i: int)
    requires
        0 <= i < s.len(),
    ensures
        s.update(i, s.last()).drop_last().to_multiset() == s.to_multiset().remove(s[i]),
        s.to_multiset().remove(s[i]).insert(s[i]) == s.to_multiset(),
{
    broadcast use vstd::seq_lib::group_to_multiset_ensures;

    let n = s.len() as int;
    let t = s.update(i, s.last());
    assert(s.to_multiset().count(s[i]) > 0) by {
        assert(s.contains(s[i]));
    }
    assert(s.to_multiset().remove(s[i]).insert(s[i]) =~= s.to_multiset());
    if i == n - 1 {
        assert(t =~= s);
        assert(t.drop_last() =~= s.remove(i));
    } else {
        assert(t.drop_last() =~= t.remove(n - 1));
        assert(t.remove(n - 1).remove(i) =~= s.remove(n - 1).remove(i));
        let u = s.remove(n - 1).remove(i);
        let a = t.drop_last();
        assert(a.remove(i).to_multiset() == a.to_multiset().remove(a[i]));
        assert(s.remove(n - 1).to_multiset() == s.to_multiset().remove(s[n - 1]));
        assert(u.to_multiset() == s.remove(n - 1).to_multiset().remove(s[i]));
        assert(a[i] == s[n - 1]);
        assert(a.to_multiset().count(a[i]) > 0) by {
            assert(a.contains(a[i]));
        }
        assert(a.to_multiset() =~= u.to_multiset().insert(s[n - 1]));
        assert(s.to_multiset().count(s[n - 1]) > 0) by {
            assert(s.contains(s[n - 1]));
        }
        assert(a.to_multiset() =~= s.to_multiset().remove(s[i]));
    }
}

/// A board whose open cells are empty and all different has at most 81 of
/// them.
pub proof fn lemma_open_bound(v: BoardView)
    requires
        v.shape(),
        v.open_unset(),
    ensures
        v.open.len() <= 81,
{
    let positions = v.open.map_values(|a: Addr| a.index());
    assert(positions.no_duplicates()) by {
        assert forall|i: int, j: int|
            0 <= i < positions.len() && 0 <= j < positions.len() && i != j implies positions[i]
            != positions[j] by {
            assert(v.open[i].wf() && v.open[j].wf());
            if i < j {
                assert(v.open[i] != v.open[j]);
            } else {
                assert(v.open[j] != v.open[i]);
            }
            if v.open[i].index() == v.open[j].index() {
                lemma_index_injective(v.open[i], v.open[j]);
            }
        }
    }
    positions.unique_seq_to_set();
    vstd::set_lib::lemma_int_range(0, 81);
    assert(positions.to_set().subset_of(vstd::set_lib::set_int_range(0, 81))) by {
        assert forall|p: int| positions.to_set().contains(p) implies 0 <= p < 81 by {
            let i = choose|i: int| 0 <= i < positions.len() && positions[i] == p;
            assert(v.open[i].wf());
        }
    }
    vstd::set_lib::lemma_len_subset(positions.to_set(), vstd::set_lib::set_int_range(0, 81));
}

/// Taking the chosen cell out of the open list leaves a board on which
/// that cell is pending.
pub proof fn lemma_remove_open_pending(v: BoardView, i: int)
    requires
        v.shape(),
        v.open_unset(),
        0 <= i < v.open.len(),
    ensures
        v.remove_open(i).shape(),
        v.remove_open(i).open_unset(),
        v.remove_open(i).pending(v.open[i]),
        v.remove_open(i).same_grid(v),
        v.remove_open(i).open.len() == v.open.len() - 1,
        v.remove_open(i).open.to_multiset().insert(v.open[i]) == v.open.to_multiset(),
{
    let w = v.remove_open(i);
    let n = v.open.len() as int;
    lemma_swap_remove_multiset(v.open, i);
    assert forall|k: int| 0 <= k < w.open.len() implies w.open[k] == (if k == i {
        v.open[n - 1]
    } else {
        v.open[k]
    }) by {}
    assert forall|k: int| 0 <= k < w.open.len() implies w.cells[(#[trigger] w.open[k]).index()]
        == Field::Empty by {
        if k == i {
            assert(w.open[k] == v.open[n - 1]);
        } else {
            assert(w.open[k] == v.open[k]);
        }
    }
    assert forall|k: int| 0 <= k < w.open.len() implies (#[trigger] w.open[k]).wf() by {
        if k == i {
            assert(w.open[k] == v.open[n - 1]);
        } else {
            assert(w.open[k] == v.open[k]);
        }
    }
}

/// Placing a candidate in the pending cell keeps the shape and the open
/// list in order.
pub proof fn lemma_place_frame(v: BoardView, a: Addr, d: int)
    requires
        v.shape(),
        v.open_unset(),
        v.pending(a),
        0 <= d < 9,
    ensures
        v.place(a, d).shape(),
        v.place(a, d).open_unset(),
        v.place(a, d).cells[a.index()] == Field::Digit(d as u8),
{
    let w = v.place(a, d);
    assert forall|k: int| 0 <= k < w.open.len() implies w.cells[(#[trigger] w.open[k]).index()]
        == Field::Empty by {
        assert(v.open[k].wf());
        if v.open[k].index() == a.index() {
            lemma_index_injective(v.open[k], a);
        }
    }
}

/// Taking a candidate out of the pending cell again restores the grid.
pub proof fn lemma_unplace_frame(v: BoardView, w: BoardView, a: Addr, d: int)
    requires
        v.shape(),
        v.pending(a),
        0 <= d < 9,
        v.candidates(a).contains(d),
        w.shape(),
        w.open_unset(),
        w.same_grid(v.place(a, d)),
    ensures
        w.unplace(a).shape(),
        w.unplace(a).open_unset(),
        w.unplace(a).pending(a),
        w.unplace(a).same_grid(v),
        w.unplace(a).open == w.open,
{
    let u = w.unplace(a);
    assert(w.cells[a.index()] == Field::Digit(d as u8));
    assert(u.cells =~= v.cells);
    assert(v.rows[a.y as int].remove(d).insert(d) =~= v.rows[a.y as int]);
    assert(v.cols[a.x as int].remove(d).insert(d) =~= v.cols[a.x as int]);
    assert(v.boxes[a.b as int].remove(d).insert(d) =~= v.boxes[a.b as int]);
    assert(u.rows =~= v.rows);
    assert(u.cols =~= v.cols);
    assert(u.boxes =~= v.boxes);
    assert forall|k: int| 0 <= k < u.open.len() implies u.open[k] != a by {
        assert(w.cells[(w.open[k]).index()] == Field::Empty);
    }
}

/// The search keeps the shape of the board. When it fails it leaves the
/// cells and all candidate sets as they were, and as many open cells; when
/// it succeeds no cell is open.
pub proof fn lemma_search_frame(v: BoardView)
    requires
        v.shape(),
        v.open_unset(),
    ensures
        search(v).board.shape(),
        search(v).board.open_unset(),
        search(v).path is None ==> search(v).board.same_grid(v) && search(v).board.open.len()
            == v.open.len() && search(v).board.open.to_multiset() == v.open.to_multiset(),
        search(v).path is Some ==> search(v).board.open.len() == 0,
    decreases v.open.len(), 0int, 0int,
{
    if v.open.len() > 0 {
        lemma_mrv_exists(open_counts(v));
        let i = mrv_index(open_counts(v));
        lemma_remove_open_pending(v, i);
        lemma_try_frame(v.remove_open(i), v.open[i], v.candidates(v.open[i]), 0);
    }
}

/// Putting the pending cell back into the open list keeps the board in
/// order.
pub proof fn lemma_push_open_frame(v: BoardView, a: Addr)
    requires
        v.shape(),
        v.open_unset(),
        v.pending(a),
    ensures
        v.push_open(a).shape(),
        v.push_open(a).open_unset(),
        v.push_open(a).same_grid(v),
        v.push_open(a).open.len() == v.open.len() + 1,
        v.push_open(a).open.to_multiset() == v.open.to_multiset().insert(a),
{
    broadcast use vstd::seq_lib::group_to_multiset_ensures;

    let w = v.push_open(a);
    assert forall|k: int| 0 <= k < w.open.len() implies w.cells[(#[trigger] w.open[k]).index()]
        == Field::Empty by {
        if k < v.open.len() {
            assert(w.open[k] == v.open[k]);
        }
    }
    assert forall|k: int| 0 <= k < w.open.len() implies (#[trigger] w.open[k]).wf() by {
        if k < v.open.len() {
            assert(w.open[k] == v.open[k]);
        }
    }
}

/// The same for the search below a selected cell: on failure the cell is
/// open again.
pub proof fn lemma_try_frame(v: BoardView, a: Addr, c: Set<int>, d: int)
    requires
        v.shape(),
        v.open_unset(),
        v.pending(a),
        c.subset_of(v.candidates(a)),
        0 <= d <= 9,
    ensures
        try_from(v, a, c, d).board.shape(),
        try_from(v, a, c, d).board.open_unset(),
        try_from(v, a, c, d).path is None ==> try_from(v, a, c, d).board.same_grid(v)
            && try_from(v, a, c, d).board.open.len() == v.open.len() + 1 && try_from(
            v,
            a,
            c,
            d,
        ).board.open.to_multiset() == v.open.to_multiset().insert(a),
        try_from(v, a, c, d).path is Some ==> try_from(v, a, c, d).board.open.len() == 0,
    decreases v.open.len(), 1int, 9 - d,
{
    if d >= 9 {
        lemma_push_open_frame(v, a);
    } else if !c.contains(d) {
        lemma_try_frame(v, a, c, d + 1);
    } else {
        lemma_place_frame(v, a, d);
        lemma_search_frame(v.place(a, d));
        let r = search(v.place(a, d));
        if r.path is None {
            lemma_unplace_frame(v, r.board, a, d);
            lemma_try_frame(r.board.unplace(a), a, c, d + 1);
        }
    }
}

/// The path of a result, as a sequence.
pub open spec fn path_view(r: Option<Vec<Edit>>) -> Option<Seq<Edit>> {
    match r {
        Some(p) => Some(p@),
        None => None,
    }
}

impl<D: Domain> Board<D> {
    /// Searches for a completion of the board.
    ///
    /// On success the board is left complete and the placements are
    /// returned, the last one first. On failure the cells and the candidate
    /// sets are left as they were. The result and the board left behind are
    /// those of `search`, and have the worth that `verdict` describes: on a
    /// board in order a path is returned exactly when a solved grid extends
    /// the given one; the board then holds such a grid, and the path
    /// replayed on the given grid leads to it.
    pub fn solve(&mut self) -> (r: Option<Vec<Edit>>)
        requires
            old(self).wf(),
            old(self)@.open_unset(),
        ensures
            final(self).wf(),
            path_view(r) == search(old(self)@).path,
            final(self)@ == search(old(self)@).board,
            final(self)@.open_unset(),
            verdict(old(self)@, path_view(r), final(self)@),
        decreases old(self)@.open.len(),
    {
        proof {
            self.lemma_shape();
            lemma_search_verdict(self@);
        }
        if self.open.len() == 0 {
            return Some(Vec::new());
        }
        proof {
            lemma_mrv_exists(open_counts(self@));
            lemma_remove_open_pending(self@, mrv_index(open_counts(self@)));
        }
        let (min_candidates, min_i) = best_candidate(self);
        let addr: Addr = self.remove_open(min_i);
        let ghost cands = min_candidates.digits();
        let mut c: usize = 0;
        while c < 9
            invariant
                c <= 9,
                self.wf(),
                self@.shape(),
                self@.open_unset(),
                self@.pending(addr),
                self@.open.len() == old(self)@.open.len() - 1,
                min_candidates.wf(),
                cands == min_candidates.digits(),
                cands.subset_of(self@.candidates(addr)),
                verdict(old(self)@, search(old(self)@).path, search(old(self)@).board),
                try_from(self@, addr, cands, c as int).same_result(search(old(self)@)),
            decreases 9 - c,
        {
            if min_candidates.test(c) {
                let ghost before = self@;
                proof {
                    lemma_place_frame(before, addr, c as int);
                    lemma_search_frame(before.place(addr, c as int));
                }
                let edit: Edit = self.manipulate(addr, c);
                match self.solve() {
                    Some(mut edits) => {
                        edits.push(edit);
                        return Some(edits);
                    },
                    None => {
                        proof {
                            lemma_unplace_frame(before, self@, addr, c as int);
                        }
                        self.rollback(edit);
                    },
                }
            }
            c += 1;
        }
        self.push_open(addr);
        None
    }
}

} // verus!
