//! Candidates by enumeration: the digits that none of the cells which
//! share a row, a column or a box with a cell holds.
use std::collections::HashSet;
use vstd::prelude::*;
use crate::addr::Addr;
use crate::board::{Board, BoardView, Edit, Field};
use crate::domain::Domain;
use crate::laws::{lemma_full_board_solved, verdict};
use crate::load::lemma_close_pending;
use crate::rules::{
    box_of, col_of, extends, legal_at, lemma_candidates_legal, lemma_non_candidate_excluded,
    lemma_place_grid_ok, lemma_push_open_covers, lemma_units_of, replay, row_of, same_unit,
    solved,
};
use crate::search::{lemma_place_frame, lemma_push_open_frame, lemma_unplace_frame, path_view};

verus! {

broadcast use vstd::std_specs::hash::group_hash_axioms;

/// One of the cells `peers` holds digit `n`.
pub open spec fn held_by(cells: Seq<Field>, peers: Seq<Addr>, n: u8) -> bool {
    exists|k: int| 0 <= k < peers.len() && cells[(#[trigger] peers[k]).index()] == Field::Digit(n)
}

/// The digits that the cells which share a unit with `a` hold.
pub open spec fn peer_digits(cells: Seq<Field>, a: Addr) -> Set<u8> {
    Set::new(
        |n: u8|
            held_by(cells, a.row_peers(), n) || held_by(cells, a.column_peers(), n) || held_by(
                cells,
                a.box_peers(),
                n,
            ),
    )
}

/// What the enumeration gives for cell `a`: nothing when the cell holds a
/// digit, else the digits that no cell sharing a unit with it holds.
pub open spec fn scan_result(cells: Seq<Field>, a: Addr) -> Set<u8> {
    if cells[a.index()] != Field::Empty {
        Set::empty()
    } else {
        Set::new(|n: u8| n < 9 && !peer_digits(cells, a).contains(n))
    }
}

/// The `k`-th cell listed for the row of `a` is a cell of that row and not
/// `a` itself.
pub proof fn lemma_row_peer(a: Addr, k: int)
    requires
        a.wf(),
        0 <= k < 8,
    ensures
        a.row_peers()[k].wf(),
        row_of(a.row_peers()[k].index()) == a.y,
        a.row_peers()[k].index() != a.index(),
{
    let x = if k < a.x {
        k
    } else {
        k + 1
    };
    assert(a.row_peers()[k] == Addr::at(x, a.y as int));
}

/// The `k`-th cell listed for the column of `a` is a cell of that column
/// and not `a` itself.
pub proof fn lemma_column_peer(a: Addr, k: int)
    requires
        a.wf(),
        0 <= k < 8,
    ensures
        a.column_peers()[k].wf(),
        col_of(a.column_peers()[k].index()) == a.x,
        a.column_peers()[k].index() != a.index(),
{
    let y = if k < a.y {
        k
    } else {
        k + 1
    };
    assert(a.column_peers()[k] == Addr::at(a.x as int, y));
}

/// The cell at slot `s` of the box of `a`.
pub open spec fn box_cell(a: Addr, s: int) -> Addr {
    Addr::at((a.x / 3) * 3 + s % 3, (a.y / 3) * 3 + s / 3)
}

/// The cell at slot `s` of the box of `a` lies in that box, at that slot.
pub proof fn lemma_box_cell(a: Addr, s: int)
    requires
        a.wf(),
        0 <= s < 9,
    ensures
        box_cell(a, s).wf(),
        box_cell(a, s).b == a.b,
        box_cell(a, s).slot() == s,
        box_cell(a, s).index() == ((a.y / 3) * 3 + s / 3) * 9 + (a.x / 3) * 3 + s % 3,
        box_of(box_cell(a, s).index()) == a.b,
        (box_cell(a, s).index() == a.index()) == (s == a.slot()),
{
    let bx = a.x as int / 3;
    let by = a.y as int / 3;
    let sx = s % 3;
    let sy = s / 3;
    assert(0 <= bx < 3 && 0 <= by < 3 && 0 <= sx < 3 && 0 <= sy < 3);
    let x = bx * 3 + sx;
    let y = by * 3 + sy;
    assert(0 <= x < 9 && 0 <= y < 9);
    assert(x / 3 == bx && x % 3 == sx);
    assert(y / 3 == by && y % 3 == sy);
    let p = box_cell(a, s);
    assert(p.x == x && p.y == y);
    assert(p.index() == y * 9 + x);
    assert((y * 9 + x) / 9 == y && (y * 9 + x) % 9 == x);
    assert(sy * 3 + sx == s);
    assert(a.x == bx * 3 + a.x % 3);
    assert(a.y == by * 3 + a.y % 3);
}

/// The `k`-th cell listed for the box of `a` is a cell of that box and not
/// `a` itself.
pub proof fn lemma_box_peer(a: Addr, k: int)
    requires
        a.wf(),
        0 <= k < 8,
    ensures
        a.box_peers()[k].wf(),
        box_of(a.box_peers()[k].index()) == a.b,
        a.box_peers()[k].index() != a.index(),
{
    let s = if k < a.slot() {
        k
    } else {
        k + 1
    };
    assert(a.box_peers()[k] == box_cell(a, s));
    lemma_box_cell(a, s);
}

/// The cells that share a unit with a cell of the grid are cells of the
/// grid: those of its row, its column and its box, and not the cell
/// itself.
pub proof fn lemma_peers_wf(a: Addr)
    requires
        a.wf(),
    ensures
        forall|k: int|
            0 <= k < 8 ==> (#[trigger] a.row_peers()[k]).wf() && row_of(a.row_peers()[k].index())
                == a.y && a.row_peers()[k].index() != a.index(),
        forall|k: int|
            0 <= k < 8 ==> (#[trigger] a.column_peers()[k]).wf() && col_of(
                a.column_peers()[k].index(),
            ) == a.x && a.column_peers()[k].index() != a.index(),
        forall|k: int|
            0 <= k < 8 ==> (#[trigger] a.box_peers()[k]).wf() && box_of(a.box_peers()[k].index())
                == a.b && a.box_peers()[k].index() != a.index(),
{
    assert forall|k: int| 0 <= k < 8 implies (#[trigger] a.row_peers()[k]).wf() && row_of(
        a.row_peers()[k].index(),
    ) == a.y && a.row_peers()[k].index() != a.index() by {
        lemma_row_peer(a, k);
    }
    assert forall|k: int| 0 <= k < 8 implies (#[trigger] a.column_peers()[k]).wf() && col_of(
        a.column_peers()[k].index(),
    ) == a.x && a.column_peers()[k].index() != a.index() by {
        lemma_column_peer(a, k);
    }
    assert forall|k: int| 0 <= k < 8 implies (#[trigger] a.box_peers()[k]).wf() && box_of(
        a.box_peers()[k].index(),
    ) == a.b && a.box_peers()[k].index() != a.index() by {
        lemma_box_peer(a, k);
    }
}

/// Every other cell of the row of a cell is among the cells listed for it.
pub proof fn lemma_row_cover(a: Addr, j: int) -> (k: int)
    requires
        a.wf(),
        0 <= j < 81,
        j != a.index(),
        row_of(j) == a.y,
    ensures
        0 <= k < 8,
        a.row_peers()[k].index() == j,
{
    let x = j % 9;
    let k = if x < a.x {
        x
    } else {
        x - 1
    };
    assert(a.row_peers()[k] == Addr::at(x, a.y as int));
    k
}

/// Every other cell of the column of a cell is among the cells listed for
/// it.
pub proof fn lemma_column_cover(a: Addr, j: int) -> (k: int)
    requires
        a.wf(),
        0 <= j < 81,
        j != a.index(),
        col_of(j) == a.x,
    ensures
        0 <= k < 8,
        a.column_peers()[k].index() == j,
{
    let y = j / 9;
    let k = if y < a.y {
        y
    } else {
        y - 1
    };
    assert(a.column_peers()[k] == Addr::at(a.x as int, y));
    k
}

/// Every other cell of the box of a cell is among the cells listed for it.
pub proof fn lemma_box_cover(a: Addr, j: int) -> (k: int)
    requires
        a.wf(),
        0 <= j < 81,
        j != a.index(),
        box_of(j) == a.b,
    ensures
        0 <= k < 8,
        a.box_peers()[k].index() == j,
{
    let x = j % 9;
    let y = j / 9;
    assert(0 <= x / 3 < 3 && 0 <= y / 3 < 3 && 0 <= a.x / 3 < 3 && 0 <= a.y / 3 < 3);
    assert(y / 3 == a.y / 3 && x / 3 == a.x / 3);
    let s = (y % 3) * 3 + x % 3;
    assert(s % 3 == x % 3 && s / 3 == y % 3);
    lemma_box_cell(a, s);
    assert(box_cell(a, s).index() == j);
    let k = if s < a.slot() {
        s
    } else {
        s - 1
    };
    assert(a.box_peers()[k] == box_cell(a, s));
    k
}

/// On a grid in order, enumeration gives the candidates of an empty cell:
/// the digits that its row, its column and its box all still admit.
pub proof fn lemma_scan_is_candidates(v: BoardView, a: Addr, n: u8)
    requires
        v.grid_ok(),
        a.wf(),
        v.cells[a.index()] == Field::Empty,
    ensures
        scan_result(v.cells, a).contains(n) == v.candidates(a).contains(n as int),
{
    lemma_units_of(a);
    lemma_peers_wf(a);
    let i0 = a.index();
    if n < 9 {
        lemma_candidates_legal(v, a, n as int);
        if legal_at(v.cells, i0, n as int) {
            if held_by(v.cells, a.row_peers(), n) {
                let k = choose|k: int|
                    0 <= k < 8 && v.cells[(#[trigger] a.row_peers()[k]).index()] == Field::Digit(n);
                assert(same_unit(a.row_peers()[k].index(), i0));
            }
            if held_by(v.cells, a.column_peers(), n) {
                let k = choose|k: int|
                    0 <= k < 8 && v.cells[(#[trigger] a.column_peers()[k]).index()]
                        == Field::Digit(n);
                assert(same_unit(a.column_peers()[k].index(), i0));
            }
            if held_by(v.cells, a.box_peers(), n) {
                let k = choose|k: int|
                    0 <= k < 8 && v.cells[(#[trigger] a.box_peers()[k]).index()] == Field::Digit(n);
                assert(same_unit(a.box_peers()[k].index(), i0));
            }
        } else {
            let j = choose|j: int|
                0 <= j < 81 && same_unit(j, i0) && v.cells[j] == Field::Digit(n);
            if row_of(j) == a.y {
                let k = lemma_row_cover(a, j);
                assert(v.cells[a.row_peers()[k].index()] == Field::Digit(n));
                assert(held_by(v.cells, a.row_peers(), n));
            } else if col_of(j) == a.x {
                let k = lemma_column_cover(a, j);
                assert(v.cells[a.column_peers()[k].index()] == Field::Digit(n));
                assert(held_by(v.cells, a.column_peers(), n));
            } else {
                let k = lemma_box_cover(a, j);
                assert(v.cells[a.box_peers()[k].index()] == Field::Digit(n));
                assert(held_by(v.cells, a.box_peers(), n));
            }
        }
    } else {
        assert(v.rows[a.y as int].subset_of(crate::domain::all_digits()));
    }
}

impl<D: Domain> Board<D> {
    /// Adds to `seen` the digits that the cells `peers` hold.
    fn note_digits(&self, peers: &Vec<Addr>, seen: &mut HashSet<u8>)
        requires
            self.wf(),
            forall|k: int| 0 <= k < peers@.len() ==> (#[trigger] peers@[k]).wf(),
        ensures
            forall|n: u8|
                final(seen)@.contains(n) == (old(seen)@.contains(n) || held_by(
                    self@.cells,
                    peers@,
                    n,
                )),
    {
        let mut k: usize = 0;
        while k < peers.len()
            invariant
                k <= peers@.len(),
                self.wf(),
                forall|i: int| 0 <= i < peers@.len() ==> (#[trigger] peers@[i]).wf(),
                forall|n: u8|
                    seen@.contains(n) == (old(seen)@.contains(n) || held_by(
                        self@.cells,
                        peers@.take(k as int),
                        n,
                    )),
            decreases peers@.len() - k,
        {
            let ghost before = seen@;
            let ghost done = peers@.take(k as int);
            let ghost next = peers@.take(k as int + 1);
            assert(peers@[k as int].wf());
            match self.fields[peers[k].offset()] {
                Field::Digit(num) => {
                    seen.insert(num);
                },
                Field::Empty => {},
            }
            proof {
                assert forall|n: u8|
                    held_by(self@.cells, next, n) == (held_by(self@.cells, done, n)
                        || self@.cells[peers@[k as int].index()] == Field::Digit(n)) by {
                    if held_by(self@.cells, next, n) {
                        let i = choose|i: int|
                            0 <= i < next.len() && self@.cells[(#[trigger] next[i]).index()]
                                == Field::Digit(n);
                        if i < k {
                            assert(done[i] == next[i]);
                        }
                    }
                    if held_by(self@.cells, done, n) {
                        let i = choose|i: int|
                            0 <= i < done.len() && self@.cells[(#[trigger] done[i]).index()]
                                == Field::Digit(n);
                        assert(next[i] == done[i]);
                    }
                    if self@.cells[peers@[k as int].index()] == Field::Digit(n) {
                        assert(next[k as int] == peers@[k as int]);
                    }
                }
            }
            k += 1;
        }
        assert(peers@.take(peers@.len() as int) =~= peers@);
    }

    /// The candidates of cell `addr`, found by looking at every cell of
    /// its row, its column and its box: the digits that none of them
    /// holds. A cell that holds a digit has no candidates.
    pub fn scan_candidates(&self, addr: Addr) -> (r: HashSet<u8>)
        requires
            self.wf(),
            addr.wf(),
        ensures
            r@ == scan_result(self@.cells, addr),
    {
        let mut r: HashSet<u8> = HashSet::new();
        match self.fields[addr.offset()] {
            Field::Digit(_) => {
                return r;
            },
            Field::Empty => {},
        }
        proof {
            lemma_peers_wf(addr);
        }
        let mut p: HashSet<u8> = HashSet::new();
        self.note_digits(&addr.get_h(), &mut p);
        self.note_digits(&addr.get_v(), &mut p);
        self.note_digits(&addr.get_b(), &mut p);
        assert(p@ =~= peer_digits(self@.cells, addr));
        let mut num: u8 = 0;
        while num < 9
            invariant
                num <= 9,
                forall|n: u8| r@.contains(n) == (n < num && !p@.contains(n)),
            decreases 9 - num,
        {
            if !p.contains(&num) {
                r.insert(num);
            }
            num += 1;
        }
        assert(r@ =~= scan_result(self@.cells, addr));
        r
    }
}

/// The position of the first empty cell from position `k` on, in reading
/// order.
pub open spec fn first_empty_from(cells: Seq<Field>, k: int) -> Option<int>
    decreases 81 - k,
{
    if k < 0 || k >= 81 {
        None
    } else if cells[k] == Field::Empty {
        Some(k)
    } else {
        first_empty_from(cells, k + 1)
    }
}

/// The outcome of the search in reading order on board `v`: the path, if
/// there is a completion, and the board that is left.
///
/// With no empty cell the board is complete. Otherwise the first empty cell
/// in reading order leaves the open list and its candidates, found by
/// enumeration, are tried in ascending order. (The cell always stands in
/// the open list of a board in order; the branch for a cell outside it only
/// lets the definition terminate.)
pub open spec fn scan_search(v: BoardView) -> (Option<Seq<Edit>>, BoardView)
    decreases v.open.len(), 0int, 0int,
{
    match first_empty_from(v.cells, 0) {
        None => (Some(Seq::empty()), v),
        Some(pos) => {
            let a = Addr::at(pos % 9, pos / 9);
            if v.close(a).open.len() < v.open.len() {
                scan_from(v.close(a), a, scan_result(v.cells, a), 0)
            } else {
                (None, v)
            }
        },
    }
}

/// The outcome of the search in reading order when cell `a` has been
/// selected and the digits of `c` from `d` upwards are still to be tried.
pub open spec fn scan_from(v: BoardView, a: Addr, c: Set<u8>, d: int) -> (
    Option<Seq<Edit>>,
    BoardView,
)
    decreases v.open.len(), 1int, 9 - d,
{
    if d < 0 || d >= 9 {
        (None, v.push_open(a))
    } else if !c.contains(d as u8) {
        scan_from(v, a, c, d + 1)
    } else {
        let r = scan_search(v.place(a, d));
        match r.0 {
            Some(path) => (Some(path.push(Edit { addr: a, num: d as u8 })), r.1),
            None => if r.1.open.len() == v.open.len() {
                scan_from(r.1.unplace(a), a, c, d + 1)
            } else {
                r
            },
        }
    }
}

/// What `first_empty_from` finds is the first empty cell.
pub proof fn lemma_first_empty(cells: Seq<Field>, k: int)
    requires
        0 <= k <= 81,
    ensures
        match first_empty_from(cells, k) {
            Some(i) => k <= i < 81 && cells[i] == Field::Empty && forall|j: int|
                k <= j < i ==> cells[j] != Field::Empty,
            None => forall|j: int| k <= j < 81 ==> cells[j] != Field::Empty,
        },
    decreases 81 - k,
{
    if k < 81 && cells[k] != Field::Empty {
        lemma_first_empty(cells, k + 1);
    }
}

/// In no solved grid that extends `cells` does the cell at position `i0`
/// hold a digit below `d`.
pub open spec fn none_below(cells: Seq<Field>, i0: int, d: int) -> bool {
    forall|g: Seq<Field>|
        solved(g) && #[trigger] extends(g, cells) ==> !(g[i0] matches Field::Digit(n) && n < d)
}

impl<D: Domain> Board<D> {
    /// The position of the first empty cell in reading order.
    pub fn first_empty(&self) -> (r: Option<usize>)
        requires
            self.wf(),
        ensures
            match r {
                Some(i) => first_empty_from(self@.cells, 0) == Some(i as int),
                None => first_empty_from(self@.cells, 0) is None,
            },
            match r {
                Some(i) => i < 81 && self@.cells[i as int] == Field::Empty && forall|j: int|
                    0 <= j < i ==> self@.cells[j] != Field::Empty,
                None => forall|j: int| 0 <= j < 81 ==> self@.cells[j] != Field::Empty,
            },
    {
        let mut i: usize = 0;
        while i < 81
            invariant
                i <= 81,
                self.wf(),
                first_empty_from(self@.cells, i as int) == first_empty_from(self@.cells, 0),
            decreases 81 - i,
        {
            match self.fields[i] {
                Field::Empty => {
                    proof {
                        lemma_first_empty(self@.cells, 0);
                    }
                    return Some(i);
                },
                Field::Digit(_) => {},
            }
            i += 1;
        }
        proof {
            lemma_first_empty(self@.cells, 0);
        }
        None
    }

    /// Searches for a completion of a board in order without the
    /// candidate sets' help in choosing: the first empty cell in reading
    /// order is filled next, and its candidates, found by enumeration, are
    /// tried in ascending order.
    ///
    /// The board must be in order, so that every digit found by
    /// enumeration is one that the candidate sets hold, and taking it out
    /// again restores them. The result and the board left behind are those
    /// of `scan_search`. A path is returned exactly when a solved grid
    /// extends the given one; the board then holds such a grid. On failure
    /// the cells and the candidate sets are left as they were.
    pub fn solve_by_scan(&mut self) -> (r: Option<Vec<Edit>>)
        requires
            old(self).wf(),
            old(self)@.consistent(),
        ensures
            final(self).wf(),
            final(self)@.consistent(),
            (path_view(r), final(self)@) == scan_search(old(self)@),
            verdict(old(self)@, path_view(r), final(self)@),
        decreases old(self)@.open.len(),
    {
        let ghost start = self@;
        let pos: usize = match self.first_empty() {
            None => {
                proof {
                    if self@.open.len() > 0 {
                        assert(self@.cells[self@.open[0].index()] == Field::Empty);
                        assert(self@.open[0].wf());
                    }
                    lemma_full_board_solved(self@);
                    assert(replay(self@.cells, Seq::<Edit>::empty()) == self@.cells);
                }
                return Some(Vec::new());
            },
            Some(pos) => pos,
        };
        let addr: Addr = Addr::new(pos % 9, pos / 9);
        let ghost i0 = addr.index();
        assert(i0 == pos);
        let candidates: HashSet<u8> = self.scan_candidates(addr);
        proof {
            lemma_close_pending(self@, addr);
        }
        self.close(addr);
        let mut c: u8 = 0;
        while c < 9
            invariant
                c <= 9,
                addr.wf(),
                i0 == addr.index(),
                start == old(self)@,
                start.consistent(),
                self.wf(),
                self@.grid_ok(),
                self@.open_unset(),
                self@.pending(addr),
                self@.open_covers(i0),
                self@.same_grid(start),
                self@.open.len() == start.open.len() - 1,
                self@.open.to_multiset().insert(addr) == start.open.to_multiset(),
                candidates@ == scan_result(start.cells, addr),
                scan_from(self@, addr, candidates@, c as int) == scan_search(start),
                none_below(start.cells, i0, c as int),
            decreases 9 - c,
        {
            let ghost before = self@;
            proof {
                lemma_scan_is_candidates(before, addr, c);
            }
            if candidates.contains(&c) {
                proof {
                    lemma_place_frame(before, addr, c as int);
                    lemma_place_grid_ok(before, addr, c as int);
                    let w = before.place(addr, c as int);
                    assert(w.open_covers(-1)) by {
                        assert forall|j: int|
                            0 <= j < 81 && #[trigger] w.cells[j]
                                == Field::Empty implies exists|k: int|
                            0 <= k < w.open.len() && (#[trigger] w.open[k]).index() == j by {
                            assert(before.cells[j] == Field::Empty);
                        }
                    }
                }
                let edit: Edit = self.manipulate(addr, c as usize);
                let ghost child = self@;
                match self.solve_by_scan() {
                    Some(mut edits) => {
                        let ghost below = edits@;
                        edits.push(edit);
                        proof {
                            assert(edits@.drop_last() =~= below);
                            assert(replay(start.cells, edits@) == replay(child.cells, below));
                            assert(extends(self@.cells, start.cells)) by {
                                assert forall|i: int|
                                    0 <= i < start.cells.len() && start.cells[i]
                                        != Field::Empty implies #[trigger] self@.cells[i]
                                    == start.cells[i] by {
                                    assert(child.cells[i] == start.cells[i]);
                                }
                            }
                        }
                        return Some(edits);
                    },
                    None => {
                        proof {
                            self@.open.to_multiset_ensures();
                            child.open.to_multiset_ensures();
                            lemma_unplace_frame(before, self@, addr, c as int);
                            let u = self@.unplace(addr);
                            assert(u.open_covers(i0)) by {
                                assert forall|j: int|
                                    0 <= j < 81 && j != i0 && #[trigger] u.cells[j]
                                        == Field::Empty implies exists|k: int|
                                    0 <= k < u.open.len() && (#[trigger] u.open[k]).index()
                                        == j by {
                                    assert(self@.cells[j] == Field::Empty);
                                }
                            }
                            assert forall|g: Seq<Field>|
                                solved(g) && #[trigger] extends(g, start.cells) implies !(g[i0] matches Field::Digit(
                                    n,
                                ) && n < c + 1) by {
                                if g[i0] == Field::Digit(c) {
                                    assert(extends(g, child.cells)) by {
                                        assert forall|i: int|
                                            0 <= i < child.cells.len() && child.cells[i]
                                                != Field::Empty implies #[trigger] g[i]
                                            == child.cells[i] by {
                                            if i != i0 {
                                                assert(child.cells[i] == start.cells[i]);
                                            }
                                        }
                                    }
                                }
                            }
                        }
                        self.rollback(edit);
                    },
                }
            } else {
                proof {
                    assert forall|g: Seq<Field>|
                        solved(g) && #[trigger] extends(g, start.cells) implies !(g[i0] matches Field::Digit(
                            n,
                        ) && n < c + 1) by {
                        lemma_non_candidate_excluded(before, addr, c as int, g);
                    }
                }
            }
            c += 1;
        }
        proof {
            lemma_push_open_frame(self@, addr);
            lemma_push_open_covers(self@, addr);
            assert forall|g: Seq<Field>| #[trigger] solved(g) implies !extends(g, start.cells) by {
                if extends(g, start.cells) {
                    assert(g[i0] matches Field::Digit(n) && n < 9);
                }
            }
        }
        self.push_open(addr);
        None
    }
}

} // verus!
