//! The bookkeeping of a search that keeps its own stack: what is still owed to each
//! cell that the search has filled and not yet given up.

use vstd::prelude::*;
use crate::board::{
    empty_cells, is_first_empty, is_full, lemma_fill_empty_cell, placement_safe, Cells,
};
use crate::digit::digit_of;
use crate::search::{first_empty, search, search_from, Outcome};

verus! {

/// A cell that the search has filled: on the board `board` it wrote the digit `n`
/// into the cell `idx`, after `spent` attempts on smaller digits that all failed.
pub struct Frame {
    pub board: Cells,
    pub idx: int,
    pub n: int,
    pub spent: nat,
}

/// The outcome `o` with `spent` more attempts.
pub open spec fn later(o: Outcome, spent: nat) -> Outcome {
    Outcome { cells: o.cells, solved: o.solved, attempts: o.attempts + spent }
}

/// How trying the digit `n` in the cell `idx` of `board` ends, when the search of the
/// board with that digit has ended with `below`.
pub open spec fn resume(board: Cells, idx: int, n: int, below: Outcome) -> Outcome {
    if below.solved {
        Outcome { cells: below.cells, solved: true, attempts: below.attempts + 1 }
    } else {
        let rest = search_from(board, idx, n + 1);
        Outcome {
            cells: rest.cells,
            solved: rest.solved,
            attempts: below.attempts + 1 + rest.attempts,
        }
    }
}

/// How the whole search ends, when the search of the board above the last frame has
/// ended with `o`.
pub open spec fn unwind(frames: Seq<Frame>, o: Outcome) -> Outcome
    decreases frames.len(),
{
    if frames.len() == 0 {
        o
    } else {
        let f = frames.last();
        unwind(frames.drop_last(), later(resume(f.board, f.idx, f.n, o), f.spent))
    }
}

/// The frames lead from the board `base` to the board `top`: each one fills the
/// first empty cell of its board with a safe digit, and the next one starts from the
/// board so filled.
pub open spec fn chained(frames: Seq<Frame>, base: Cells, top: Cells) -> bool
    decreases frames.len(),
{
    if frames.len() == 0 {
        top == base
    } else {
        let f = frames.last();
        &&& f.board.len() == 81
        &&& is_first_empty(f.board, f.idx)
        &&& 1 <= f.n <= 9
        &&& placement_safe(f.board, f.idx / 9, f.idx % 9, digit_of(f.n))
        &&& top == f.board.update(f.idx, Some(digit_of(f.n)))
        &&& chained(frames.drop_last(), base, f.board)
    }
}

/// The attempts that the frames stand for: those spent before each one's digit, and
/// one for the digit itself.
pub open spec fn spent_below(frames: Seq<Frame>) -> nat
    decreases frames.len(),
{
    if frames.len() == 0 {
        0
    } else {
        spent_below(frames.drop_last()) + frames.last().spent + 1
    }
}

/// An upper bound on the steps that a search of `cells` takes.
pub open spec fn work(cells: Cells) -> nat
    decreases empty_cells(cells).len(), 10int,
{
    if cells.len() != 81 || is_full(cells) {
        0
    } else {
        work_from(cells, first_empty(cells), 1)
    }
}

/// An upper bound on the steps that trying the digits from `n` on in the cell `idx`
/// takes, the step that gives the cell up included.
pub open spec fn work_from(cells: Cells, idx: int, n: int) -> nat
    decreases empty_cells(cells).len(), 10 - n,
{
    if cells.len() != 81 || idx < 0 || idx >= 81 || cells[idx] is Some || n < 1 || n > 9 {
        1
    } else if !placement_safe(cells, idx / 9, idx % 9, digit_of(n)) {
        1 + work_from(cells, idx, n + 1)
    } else {
        proof {
            lemma_fill_empty_cell(cells, idx, digit_of(n));
        }
        1 + work(cells.update(idx, Some(digit_of(n)))) + work_from(cells, idx, n + 1)
    }
}

/// An upper bound on the steps that are left once the search above the frames has
/// failed.
pub open spec fn work_left(frames: Seq<Frame>) -> nat
    decreases frames.len(),
{
    if frames.len() == 0 {
        0
    } else {
        let f = frames.last();
        work_left(frames.drop_last()) + work_from(f.board, f.idx, f.n + 1)
    }
}

/// A search that succeeds above the frames succeeds as a whole, on the same board.
pub proof fn lemma_unwind_solved(frames: Seq<Frame>, o: Outcome)
    requires
        o.solved,
    ensures
        unwind(frames, o) == (Outcome {
            cells: o.cells,
            solved: true,
            attempts: o.attempts + spent_below(frames),
        }),
    decreases frames.len(),
{
    if frames.len() > 0 {
        let f = frames.last();
        lemma_unwind_solved(frames.drop_last(), later(resume(f.board, f.idx, f.n, o), f.spent));
    }
}

/// What one more frame adds.
pub proof fn lemma_push_frame(frames: Seq<Frame>, f: Frame, o: Outcome, base: Cells, top: Cells)
    ensures
        unwind(frames.push(f), o) == unwind(frames, later(resume(f.board, f.idx, f.n, o), f.spent)),
        spent_below(frames.push(f)) == spent_below(frames) + f.spent + 1,
        work_left(frames.push(f)) == work_left(frames) + work_from(f.board, f.idx, f.n + 1),
        chained(frames.push(f), base, top) <==> ({
            &&& f.board.len() == 81
            &&& is_first_empty(f.board, f.idx)
            &&& 1 <= f.n <= 9
            &&& placement_safe(f.board, f.idx / 9, f.idx % 9, digit_of(f.n))
            &&& top == f.board.update(f.idx, Some(digit_of(f.n)))
            &&& chained(frames, base, f.board)
        }),
{
    assert(frames.push(f).drop_last() =~= frames);
    assert(frames.push(f).last() == f);
}

} // verus!
