//! Choice of the next cell: the open cell with the fewest candidates.
use vstd::prelude::*;
use crate::board::{Board, BoardView};
use crate::domain::Domain;

verus! {

/// For each open cell, in scan order, the number of its candidates.
pub open spec fn open_counts(v: BoardView) -> Seq<nat> {
    Seq::new(v.open.len(), |k: int| v.candidates(v.open[k]).len())
}

/// `i` is the position that the scan settles on.
///
/// The scan stops at the first count of one, provided no count of zero came
/// before it; otherwise it runs to the end and takes the first least count.
/// So every earlier count is larger, and larger than one; every later count
/// is at least as large, unless the scan stopped early at a count of one.
pub open spec fn is_mrv_choice(counts: Seq<nat>, i: int) -> bool {
    &&& 0 <= i < counts.len()
    &&& forall|j: int| 0 <= j < i ==> counts[j] > counts[i] && counts[j] > 1
    &&& forall|j: int| i < j < counts.len() ==> counts[j] >= counts[i] || counts[i] == 1
}

/// The position that the scan settles on.
pub open spec fn mrv_index(counts: Seq<nat>) -> int {
    choose|i: int| is_mrv_choice(counts, i)
}

/// At most one position is the scan's choice.
pub proof fn lemma_mrv_unique(counts: Seq<nat>, i: int, j: int)
    requires
        is_mrv_choice(counts, i),
        is_mrv_choice(counts, j),
    ensures
        i == j,
{
    if i < j {
        assert(counts[i] > counts[j] && counts[i] > 1);
        assert(counts[j] >= counts[i] || counts[i] == 1);
    } else if j < i {
        assert(counts[j] > counts[i] && counts[j] > 1);
        assert(counts[i] >= counts[j] || counts[j] == 1);
    }
}

/// Among the first `k` counts the scan has a choice.
proof fn lemma_mrv_witness(counts: Seq<nat>, k: int) -> (i: int)
    requires
        1 <= k <= counts.len(),
    ensures
        is_mrv_choice(counts.take(k), i),
    decreases k,
{
    if k == 1 {
        0
    } else {
        let p = lemma_mrv_witness(counts, k - 1);
        let before = counts.take(k - 1);
        let now = counts.take(k);
        assert forall|j: int| 0 <= j < k - 1 implies before[j] == now[j] by {}
        if counts[p] != 1 && counts[k - 1] < counts[p] {
            k - 1
        } else {
            p
        }
    }
}

/// On a non-empty sequence `mrv_index` is the scan's choice.
pub proof fn lemma_mrv_exists(counts: Seq<nat>)
    requires
        counts.len() > 0,
    ensures
        is_mrv_choice(counts, mrv_index(counts)),
{
    let i = lemma_mrv_witness(counts, counts.len() as int);
    assert(counts.take(counts.len() as int) =~= counts);
}

/// Scans the open cells and returns the candidates and the position of the
/// one with the fewest candidates; among equals the first wins, and the
/// scan stops as soon as the least count so far is one.
pub fn best_candidate<D: Domain>(board: &Board<D>) -> (r: (D, usize))
    requires
        board.wf(),
        board@.open.len() > 0,
    ensures
        r.1 < board@.open.len(),
        is_mrv_choice(open_counts(board@), r.1 as int),
        r.1 == mrv_index(open_counts(board@)),
        r.0.wf(),
        r.0.digits() == board@.candidates(board@.open[r.1 as int]),
{
    let ghost counts = open_counts(board@);
    let mut min_candidates: D = D::full();
    let mut min_i: usize = usize::MAX;
    let mut min: u32 = u32::MAX;
    let mut i: usize = 0;
    while i < board.open.len() && min != 1
        invariant
            board.wf(),
            counts == open_counts(board@),
            i <= board@.open.len(),
            i == 0 ==> min == u32::MAX,
            i > 0 ==> {
                &&& min_i < i
                &&& min == counts[min_i as int]
                &&& min_candidates.wf()
                &&& min_candidates.digits() == board@.candidates(board@.open[min_i as int])
                &&& forall|j: int| 0 <= j < min_i ==> counts[j] > min && counts[j] > 1
                &&& forall|j: int| min_i < j < i ==> counts[j] >= min
            },
        decreases board@.open.len() - i,
    {
        let candidates: D = board.candidates_for_tmp_field(i);
        let num: u32 = candidates.count();
        if num < min {
            min_i = i;
            min = num;
            min_candidates = candidates;
        }
        i += 1;
    }
    proof {
        lemma_mrv_exists(counts);
        lemma_mrv_unique(counts, min_i as int, mrv_index(counts));
    }
    (min_candidates, min_i)
}

} // verus!
