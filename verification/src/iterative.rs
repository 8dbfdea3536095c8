//! The same search with an explicit stack of frames in place of recursion.
use vstd::prelude::*;
use crate::addr::Addr;
use crate::board::{Board, BoardView, Edit};
use crate::domain::{is_lowest, Domain};
use crate::laws::{lemma_search_verdict, verdict};
use crate::search::{
    lemma_open_bound, lemma_place_frame, lemma_push_open_frame, lemma_remove_open_pending,
    lemma_search_frame, lemma_unplace_frame, path_view, search, try_from, Outcome,
};
use crate::select::{best_candidate, lemma_mrv_exists, mrv_index, open_counts};

verus! {

/// One frame of the stack, for one depth of the search.
pub enum IterState<D> {
    /// No cell has been selected at this depth yet.
    Initial,
    /// A cell has been selected and holds the digit of `edit`; `candidates`
    /// are the digits still to be tried in it.
    Applied { candidates: D, edit: Edit },
}

/// The mathematical content of a frame that holds a cell.
pub struct FrameView {
    /// The digits still to be tried.
    pub cands: Set<int>,
    /// The cell and the digit it holds.
    pub edit: Edit,
}

impl<D: Domain> IterState<D> {
    /// The frame holds a cell, and its content is `f`.
    pub open spec fn shows(&self, f: FrameView) -> bool {
        match self {
            IterState::Applied { candidates, edit } => candidates.wf() && candidates.digits()
                == f.cands && *edit == f.edit,
            IterState::Initial => false,
        }
    }
}

/// The outcome at frame `f` once the subtree below it has ended with `o`.
///
/// A success passes through and the frame adds its placement. After a
/// failure the frame takes its digit out, which is one more step, and tries
/// the digits that it has left.
pub open spec fn resume(f: FrameView, o: Outcome) -> Outcome {
    match o.path {
        Some(p) => Outcome { path: Some(p.push(f.edit)), board: o.board, steps: o.steps },
        None => try_from(o.board.unplace(f.edit.addr), f.edit.addr, f.cands, 0).later(
            o.steps + 1,
        ),
    }
}

/// The outcome of the whole stack once the subtree below the top frame has
/// ended with `o`; the top frame is the last of `frames`.
pub open spec fn unwind(frames: Seq<FrameView>, o: Outcome) -> Outcome
    decreases frames.len(),
{
    if frames.len() == 0 {
        o
    } else {
        unwind(frames.drop_last(), resume(frames.last(), o))
    }
}

/// Steps that the subtree takes are steps of the whole.
pub proof fn lemma_unwind_later(frames: Seq<FrameView>, o: Outcome, k: nat)
    ensures
        unwind(frames, o.later(k)) == unwind(frames, o).later(k),
    decreases frames.len(),
{
    if frames.len() > 0 {
        let f = frames.last();
        assert(resume(f, o.later(k)) == resume(f, o).later(k));
        lemma_unwind_later(frames.drop_last(), resume(f, o), k);
    }
}

/// Digits that are not candidates are passed over.
pub proof fn lemma_try_skip(v: BoardView, a: Addr, c: Set<int>, d: int, e: int)
    requires
        0 <= d <= e <= 9,
        forall|k: int| d <= k < e ==> !c.contains(k),
    ensures
        try_from(v, a, c, d) == try_from(v, a, c, e),
    decreases e - d,
{
    if d < e {
        lemma_try_skip(v, a, c, d + 1, e);
    }
}

/// Only the candidates from `d` upwards matter.
pub proof fn lemma_try_same(v: BoardView, a: Addr, c1: Set<int>, c2: Set<int>, d: int)
    requires
        0 <= d,
        forall|k: int| d <= k < 9 ==> c1.contains(k) == c2.contains(k),
    ensures
        try_from(v, a, c1, d) == try_from(v, a, c2, d),
    decreases 9 - d,
{
    if d < 9 {
        if c1.contains(d) {
            let r = search(v.place(a, d));
            if r.path is None && r.board.open.len() == v.open.len() {
                lemma_try_same(r.board.unplace(a), a, c1, c2, d + 1);
            }
        } else {
            lemma_try_same(v, a, c1, c2, d + 1);
        }
    }
}

/// Trying the candidates of the pending cell means: place the lowest one,
/// search below, and come back for the others.
pub proof fn lemma_try_lowest(v: BoardView, a: Addr, c: Set<int>, d: int)
    requires
        v.shape(),
        v.open_unset(),
        v.pending(a),
        0 <= d < 9,
        is_lowest(c, d),
    ensures
        try_from(v, a, c, 0) == resume(
            FrameView { cands: c.remove(d), edit: Edit { addr: a, num: d as u8 } },
            search(v.place(a, d)),
        ),
{
    lemma_try_skip(v, a, c, 0, d);
    lemma_place_frame(v, a, d);
    lemma_search_frame(v.place(a, d));
    let r = search(v.place(a, d));
    if r.path is None {
        let u = r.board.unplace(a);
        lemma_try_same(u, a, c, c.remove(d), d + 1);
        lemma_try_skip(u, a, c.remove(d), 0, d + 1);
    }
}

/// With no candidate left the pending cell returns to the open list.
pub proof fn lemma_try_empty(v: BoardView, a: Addr, c: Set<int>)
    requires
        c == Set::<int>::empty(),
    ensures
        try_from(v, a, c, 0) == (Outcome { path: None, board: v.push_open(a), steps: 0 }),
{
    lemma_try_skip(v, a, c, 0, 9);
}

/// Frame `f` fits the board `snap` as it was just before the frame's digit
/// was placed.
pub open spec fn frame_ok(snap: BoardView, f: FrameView) -> bool {
    &&& snap.shape()
    &&& snap.open_unset()
    &&& snap.pending(f.edit.addr)
    &&& f.edit.num < 9
    &&& snap.candidates(f.edit.addr).contains(f.edit.num as int)
    &&& f.cands.subset_of(snap.candidates(f.edit.addr))
}

/// The board on which the subtree below frame `f` started.
pub open spec fn child(snap: BoardView, f: FrameView) -> BoardView {
    snap.place(f.edit.addr, f.edit.num as int)
}

/// Board `b` has the grid on which the subtree below the top frame started
/// and `short` fewer open cells than the top frame's own board.
pub open spec fn below(snaps: Seq<BoardView>, frames: Seq<FrameView>, b: BoardView, short: int) -> bool {
    frames.len() > 0 ==> b.same_grid(child(snaps.last(), frames.last())) && b.open.len() + short
        == snaps.last().open.len()
}

/// Every frame fits its board, and each frame's board has the grid on which
/// the subtree below the frame under it started, with one open cell fewer.
pub open spec fn chain(snaps: Seq<BoardView>, frames: Seq<FrameView>) -> bool {
    &&& snaps.len() == frames.len()
    &&& forall|k: int| 0 <= k < frames.len() ==> frame_ok(#[trigger] snaps[k], frames[k])
    &&& forall|k: int|
        0 < k < frames.len() ==> (#[trigger] snaps[k]).same_grid(
            child(snaps[k - 1], frames[k - 1]),
        ) && snaps[k].open.len() + 1 == snaps[k - 1].open.len()
}

/// What the search with an explicit stack used up.
#[derive(Clone, Copy, Debug, PartialEq, Eq, Structural)]
pub struct Stats {
    /// The greatest number of frames that the stack held.
    pub max_depth: usize,
    /// How many times a cell was selected or taken up again after a failed
    /// subtree; the count stops at the greatest `usize`.
    pub num_steps: usize,
}

/// Searches for a completion of the board with an explicit stack.
///
/// The result and the board left behind are those of `search`, so they are
/// those of `Board::solve` and have the worth that `verdict` describes: on
/// success the board is complete and the placements are returned, the last
/// one first; on failure the cells and the candidate sets are as they
/// were.
pub fn solve<D: Domain>(board: &mut Board<D>) -> (r: Option<Vec<Edit>>)
    requires
        old(board).wf(),
        old(board)@.open_unset(),
    ensures
        final(board).wf(),
        path_view(r) == search(old(board)@).path,
        final(board)@ == search(old(board)@).board,
        final(board)@.open_unset(),
        verdict(old(board)@, path_view(r), final(board)@),
{
    match solve_counting(board) {
        Some(found) => Some(found.0),
        None => None,
    }
}

/// The path of a result that carries statistics, as a sequence.
pub open spec fn counted_path_view(r: Option<(Vec<Edit>, Stats)>) -> Option<Seq<Edit>> {
    match r {
        Some(found) => Some(found.0@),
        None => None,
    }
}

/// Searches as `solve` does and, with a path, also tells how many steps
/// the search took and how deep the stack grew: one frame for each cell
/// that was open, and one more, which is never more than 82 frames.
#[verifier::rlimit(40)]
pub fn solve_counting<D: Domain>(board: &mut Board<D>) -> (r: Option<(Vec<Edit>, Stats)>)
    requires
        old(board).wf(),
        old(board)@.open_unset(),
    ensures
        final(board).wf(),
        counted_path_view(r) == search(old(board)@).path,
        final(board)@ == search(old(board)@).board,
        final(board)@.open_unset(),
        verdict(old(board)@, counted_path_view(r), final(board)@),
        r matches Some(found) ==> {
            &&& found.1.num_steps == (if search(old(board)@).steps <= usize::MAX {
                search(old(board)@).steps as int
            } else {
                usize::MAX as int
            })
            &&& found.1.max_depth == old(board)@.open.len() + 1
            &&& found.1.max_depth <= 82
        },
{
    let ghost init = board@;
    let mut stack: Vec<IterState<D>> = Vec::new();
    stack.push(IterState::Initial);
    let ghost mut frames: Seq<FrameView> = Seq::empty();
    let ghost mut snaps: Seq<BoardView> = Seq::empty();
    let ghost mut done: nat = 0;
    let mut max_depth: usize = 0;
    let mut num_steps: usize = 0;
    proof {
        board.lemma_shape();
        lemma_search_verdict(init);
        lemma_search_frame(init);
        lemma_open_bound(init);
    }
    loop
        invariant
            init == old(board)@,
            verdict(init, search(init).path, search(init).board),
            search(init).board.open_unset(),
            board@.open.len() + frames.len() == init.open.len(),
            max_depth <= init.open.len() + 1,
            init.open.len() <= 81,
            num_steps == (if done <= usize::MAX {
                done as int
            } else {
                usize::MAX as int
            }),
            board.wf(),
            board@.shape(),
            board@.open_unset(),
            chain(snaps, frames),
            below(snaps, frames, board@, 0),
            frames.len() <= stack@.len() <= frames.len() + 1,
            forall|k: int| 0 <= k < frames.len() ==> (#[trigger] stack@[k]).shows(frames[k]),
            stack@.len() == frames.len() + 1 ==> stack@.last() is Initial,
            unwind(
                frames,
                if stack@.len() > frames.len() {
                    search(board@)
                } else {
                    Outcome { path: None, board: board@, steps: 0 }
                },
            ).later(done) == search(init),
        decreases search(init).steps - done,
    {
        let ghost stack0 = stack@;
        let ghost board0 = board@;
        if stack.len() > max_depth {
            max_depth = stack.len();
        }
        let top: IterState<D> = match stack.pop() {
            None => {
                return None;
            },
            Some(top) => top,
        };
        assert(stack@ =~= stack0.drop_last());
        let (candidates, addr): (D, Addr) = match top {
            IterState::Initial => {
                assert(stack0.len() == frames.len() + 1) by {
                    if stack0.len() == frames.len() {
                        assert(stack0[frames.len() - 1].shows(frames[frames.len() - 1]));
                    }
                }
                if board.open.len() == 0 {
                    let mut path: Vec<Edit> = Vec::new();
                    assert(frames.take(stack@.len() as int) =~= frames);
                    assert(path@ =~= Seq::<Edit>::empty());
                    while stack.len() > 0
                        invariant
                            init == old(board)@,
                            verdict(init, search(init).path, search(init).board),
                            search(init).board.open_unset(),
                            board.wf(),
                            max_depth == init.open.len() + 1,
                            init.open.len() <= 81,
                            num_steps == (if done <= usize::MAX {
                                done as int
                            } else {
                                usize::MAX as int
                            }),
                            stack@.len() <= frames.len(),
                            forall|k: int|
                                0 <= k < stack@.len() ==> (#[trigger] stack@[k]).shows(frames[k]),
                            unwind(
                                frames.take(stack@.len() as int),
                                Outcome { path: Some(path@), board: board@, steps: 0 },
                            ).later(done) == search(init),
                        decreases stack@.len(),
                    {
                        let ghost n = stack@.len() as int;
                        let ghost stack1 = stack@;
                        assert(frames.take(n).drop_last() =~= frames.take(n - 1));
                        assert(stack1[n - 1].shows(frames[n - 1]));
                        match stack.pop() {
                            Some(IterState::Applied { candidates, edit }) => {
                                path.push(edit);
                            },
                            _ => {},
                        }
                    }
                    assert(frames.take(0) =~= Seq::<FrameView>::empty());
                    return Some((path, Stats { max_depth, num_steps }));
                }
                proof {
                    lemma_mrv_exists(open_counts(board@));
                    lemma_remove_open_pending(board@, mrv_index(open_counts(board@)));
                    lemma_unwind_later(
                        frames,
                        try_from(
                            board0.remove_open(mrv_index(open_counts(board0))),
                            board0.open[mrv_index(open_counts(board0))],
                            board0.candidates(board0.open[mrv_index(open_counts(board0))]),
                            0,
                        ),
                        1,
                    );
                }
                let (cands, i) = best_candidate(board);
                let a: Addr = board.remove_open(i);
                (cands, a)
            },
            IterState::Applied { candidates, edit } => {
                assert(stack0.len() == frames.len());
                assert(stack0[frames.len() - 1].shows(frames[frames.len() - 1]));
                proof {
                    let f = frames.last();
                    lemma_unplace_frame(snaps.last(), board0, f.edit.addr, f.edit.num as int);
                    lemma_unwind_later(
                        frames.drop_last(),
                        try_from(board0.unplace(f.edit.addr), f.edit.addr, f.cands, 0),
                        1,
                    );
                    assert(snaps.last().candidates(f.edit.addr) == board0.unplace(
                        f.edit.addr,
                    ).candidates(f.edit.addr));
                    frames = frames.drop_last();
                    snaps = snaps.drop_last();
                }
                board.rollback(edit);
                (candidates, edit.addr)
            },
        };
        let ghost cands = candidates.digits();
        let ghost mid = board@;
        proof {
            done = done + 1;
        }
        if num_steps < usize::MAX {
            num_steps += 1;
        }
        assert(unwind(frames, try_from(mid, addr, cands, 0)).later(done) == search(init));
        assert(mid.pending(addr));
        assert(cands.subset_of(mid.candidates(addr)));
        assert(chain(snaps, frames));
        assert(below(snaps, frames, mid, 1));
        assert(frames.len() == stack@.len());
        match candidates.lowest() {
            Some(d) => {
                let mut rest: D = candidates;
                rest.clear(d);
                let edit: Edit = board.manipulate(addr, d);
                proof {
                    lemma_try_lowest(mid, addr, cands, d as int);
                    lemma_place_frame(mid, addr, d as int);
                    let f = FrameView { cands: rest.digits(), edit };
                    assert(frames.push(f).drop_last() =~= frames);
                    assert(snaps.push(mid).drop_last() =~= snaps);
                    frames = frames.push(f);
                    snaps = snaps.push(mid);
                }
                stack.push(IterState::Applied { candidates: rest, edit });
                stack.push(IterState::Initial);
            },
            None => {
                proof {
                    lemma_try_empty(mid, addr, cands);
                    lemma_push_open_frame(mid, addr);
                }
                board.push_open(addr);
            },
        }
    }
}

} // verus!
