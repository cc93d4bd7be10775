//! What the backtracking search computes, stated on the board as a mathematical
//! value, and the laws that it obeys.
//!
//! The search fills the first empty cell with the digits from 1 to 9 in turn, skips
//! a digit that already stands in the cell's row, column or box, and goes on with the
//! rest of the board; when the rest cannot be completed it empties the cell again
//! and takes the next digit.

use vstd::prelude::*;
use crate::board::{
    are_peers, box_of, box_values, cell_index, col_values, empty_cells, holds_once,
    is_first_empty, is_full, is_permutation, is_solution, is_solvable, keeps_clues,
    lemma_fill_empty_cell, lemma_place_in_box, lemma_safe_means_no_repeat,
    lemma_solution_is_full, placement_safe, row_values, would_repeat, Cells,
};
use crate::digit::{cell_value, digit_of, lemma_digit_round_trip, Digit};

verus! {

/// How a search ends.
pub struct Outcome {
    /// The board that the search leaves behind.
    pub cells: Cells,
    /// Whether that board is a solution.
    pub solved: bool,
    /// How many times the search wrote a digit into a cell.
    pub attempts: nat,
}

/// The place of the first empty cell of a board that is not full.
pub open spec fn first_empty(cells: Cells) -> int {
    choose|idx: int| is_first_empty(cells, idx)
}

/// The search on the board `cells`.
///
/// A full board is left as it is, and the outcome says whether it is a solution.
/// Otherwise the first empty cell is tried with every digit from 1 on.
pub open spec fn search(cells: Cells) -> Outcome
    decreases empty_cells(cells).len(), 10int,
{
    if cells.len() != 81 || is_full(cells) {
        Outcome { cells, solved: is_solution(cells), attempts: 0 }
    } else {
        search_from(cells, first_empty(cells), 1)
    }
}

/// The search on the board `cells` that tries the empty cell `idx` with the digits
/// from `n` to 9.
///
/// A digit that is not safe to place is skipped. A safe one is written, which counts
/// as one attempt, and the board with it is searched. If that succeeds, its outcome
/// stands. If it fails, the cell is empty again and the next digit is tried. With no
/// digit left the search fails and the board is as it was.
pub open spec fn search_from(cells: Cells, idx: int, n: int) -> Outcome
    decreases empty_cells(cells).len(), 10 - n,
{
    if cells.len() != 81 || idx < 0 || idx >= 81 || cells[idx] is Some || n < 1 || n > 9 {
        Outcome { cells, solved: false, attempts: 0 }
    } else if !placement_safe(cells, idx / 9, idx % 9, digit_of(n)) {
        search_from(cells, idx, n + 1)
    } else {
        proof {
            lemma_fill_empty_cell(cells, idx, digit_of(n));
        }
        let below = search(cells.update(idx, Some(digit_of(n))));
        if below.solved {
            Outcome { cells: below.cells, solved: true, attempts: below.attempts + 1 }
        } else {
            let rest = search_from(cells, idx, n + 1);
            Outcome {
                cells: rest.cells,
                solved: rest.solved,
                attempts: below.attempts + 1 + rest.attempts,
            }
        }
    }
}

/// The board `a` comes before the board `b` in the order of the search: at the first
/// cell in which they differ `a` holds the smaller digit.
pub open spec fn precedes(a: Cells, b: Cells) -> bool {
    exists|i: int|
        0 <= i < 81 && cell_value(#[trigger] a[i]) < cell_value(b[i]) && forall|j: int|
            0 <= j < i ==> #[trigger] a[j] == b[j]
}

/// The board `s` is a solution that keeps the clues of `cells`, and it comes before
/// every other such solution in the order of the search.
pub open spec fn is_first_solution(cells: Cells, s: Cells) -> bool {
    &&& is_solution(s)
    &&& keeps_clues(cells, s)
    &&& forall|t: Cells|
        is_solution(t) && #[trigger] keeps_clues(cells, t) ==> t == s || precedes(s, t)
}

/// A board that is not full has a first empty cell.
pub proof fn lemma_first_empty_exists(cells: Cells)
    requires
        !is_full(cells),
    ensures
        is_first_empty(cells, first_empty(cells)),
{
    let i = choose|i: int| 0 <= i < 81 && !((#[trigger] cells[i]) is Some);
    lemma_least_empty(cells, i);
}

/// An empty cell has a first empty cell at or before it.
proof fn lemma_least_empty(cells: Cells, bound: int)
    requires
        0 <= bound < 81,
        cells[bound] is None,
    ensures
        exists|idx: int| is_first_empty(cells, idx),
    decreases bound,
{
    if forall|j: int| 0 <= j < bound ==> (#[trigger] cells[j]) is Some {
        assert(is_first_empty(cells, bound));
    } else {
        let j = choose|j: int| 0 <= j < bound && !((#[trigger] cells[j]) is Some);
        lemma_least_empty(cells, j);
    }
}

/// A board has one first empty cell at most.
pub proof fn lemma_first_empty_unique(cells: Cells, idx: int)
    requires
        is_first_empty(cells, idx),
    ensures
        first_empty(cells) == idx,
        !is_full(cells),
{
    let other = first_empty(cells);
    assert(is_first_empty(cells, other));
    if other < idx {
        assert(cells[other] is Some);
    }
    if idx < other {
        assert(cells[idx] is Some);
    }
}

/// In a permutation a digit stands at one place only.
pub proof fn lemma_no_repeat(vals: Cells, j: int, k: int, d: Digit)
    requires
        is_permutation(vals),
        0 <= j < 9,
        0 <= k < 9,
        vals[j] == Some(d),
        vals[k] == Some(d),
    ensures
        j == k,
{
    assert(holds_once(vals, d));
}

/// The digit that a solution holds in a cell is safe to place there on every board
/// whose clues the solution keeps and on which the cell is still empty.
pub proof fn lemma_solution_digit_is_safe(cells: Cells, t: Cells, idx: int, d: Digit)
    requires
        cells.len() == 81,
        is_solution(t),
        keeps_clues(cells, t),
        0 <= idx < 81,
        cells[idx] is None,
        t[idx] == Some(d),
    ensures
        placement_safe(cells, idx / 9, idx % 9, d),
{
    let row = idx / 9;
    let col = idx % 9;
    let b = box_of(row, col);
    let p = 3 * (row % 3) + col % 3;
    assert(cell_index(row, col) == idx);
    lemma_place_in_box(row, col);
    if row_values(cells, row).contains(Some(d)) {
        let k = choose|k: int| 0 <= k < 9 && row_values(cells, row)[k] == Some(d);
        assert(cells[cell_index(row, k)] is Some);
        assert(row_values(t, row)[k] == Some(d));
        assert(row_values(t, row)[col] == Some(d));
        lemma_no_repeat(row_values(t, row), k, col, d);
    }
    if col_values(cells, col).contains(Some(d)) {
        let k = choose|k: int| 0 <= k < 9 && col_values(cells, col)[k] == Some(d);
        assert(cells[cell_index(k, col)] is Some);
        assert(col_values(t, col)[k] == Some(d));
        assert(col_values(t, col)[row] == Some(d));
        lemma_no_repeat(col_values(t, col), k, row, d);
    }
    if box_values(cells, b).contains(Some(d)) {
        let k = choose|k: int| 0 <= k < 9 && box_values(cells, b)[k] == Some(d);
        let other = cell_index(3 * (b / 3) + k / 3, 3 * (b % 3) + k % 3);
        assert(0 <= other < 81);
        assert(cells[other] is Some);
        assert(box_values(t, b)[k] == Some(d));
        assert(box_values(t, b)[p] == Some(d));
        lemma_no_repeat(box_values(t, b), k, p, d);
    }
}

/// Two boards that keep the clues of `cells` agree before its first empty cell, so
/// the one with the smaller digit in that cell comes first.
proof fn lemma_smaller_digit_precedes(cells: Cells, idx: int, s: Cells, t: Cells)
    requires
        cells.len() == 81,
        is_first_empty(cells, idx),
        keeps_clues(cells, s),
        keeps_clues(cells, t),
        cell_value(s[idx]) < cell_value(t[idx]),
    ensures
        precedes(s, t),
{
    assert forall|j: int| 0 <= j < idx implies #[trigger] s[j] == t[j] by {
        assert(cells[j] is Some);
    }
}

/// What the search from a digit on leaves behind: a failed search changes nothing; a
/// successful one ends on a solution that keeps the clues and holds one of the digits
/// tried in the cell; and it succeeds whenever such a solution exists, ending on the
/// first of them.
proof fn lemma_search_from(cells: Cells, idx: int, n: int)
    requires
        cells.len() == 81,
        is_first_empty(cells, idx),
        1 <= n <= 10,
    ensures
        ({
            let o = search_from(cells, idx, n);
            &&& !o.solved ==> o.cells == cells
            &&& o.solved ==> is_solution(o.cells) && keeps_clues(cells, o.cells) && cell_value(
                o.cells[idx],
            ) >= n
            &&& forall|t: Cells|
                is_solution(t) && #[trigger] keeps_clues(cells, t) && cell_value(t[idx]) >= n
                    ==> o.solved && (t == o.cells || precedes(o.cells, t))
        }),
    decreases empty_cells(cells).len(), 10 - n,
{
    let o = search_from(cells, idx, n);
    if n > 9 {
        assert forall|t: Cells|
            is_solution(t) && #[trigger] keeps_clues(cells, t) && cell_value(t[idx])
                >= n implies false by {
            if t[idx] is Some {
                lemma_digit_round_trip(t[idx]->0, 0);
            }
        }
    } else {
        let d = digit_of(n);
        lemma_digit_round_trip(d, n as u8);
        assert(d.spec_value() == n);
        lemma_search_from(cells, idx, n + 1);
        if !placement_safe(cells, idx / 9, idx % 9, d) {
            assert forall|t: Cells|
                is_solution(t) && #[trigger] keeps_clues(cells, t) && cell_value(t[idx])
                    >= n implies o.solved && (t == o.cells || precedes(o.cells, t)) by {
                if cell_value(t[idx]) == n {
                    lemma_digit_round_trip(t[idx]->0, 0);
                    lemma_solution_digit_is_safe(cells, t, idx, d);
                }
            }
        } else {
            let filled = cells.update(idx, Some(d));
            lemma_fill_empty_cell(cells, idx, d);
            lemma_search_finds_first_solution(filled);
            let below = search(filled);
            if below.solved {
                assert(keeps_clues(cells, below.cells)) by {
                    assert forall|i: int|
                        0 <= i < 81 && (#[trigger] cells[i]) is Some implies below.cells[i]
                        == cells[i] by {
                        assert(filled[i] is Some);
                    }
                }
                assert(below.cells[idx] == Some(d)) by {
                    assert(filled[idx] is Some);
                }
            }
            assert forall|t: Cells|
                is_solution(t) && #[trigger] keeps_clues(cells, t) && cell_value(t[idx])
                    >= n implies o.solved && (t == o.cells || precedes(o.cells, t)) by {
                if cell_value(t[idx]) == n {
                    lemma_digit_round_trip(t[idx]->0, 0);
                    assert(t[idx] == Some(d));
                    assert(keeps_clues(filled, t)) by {
                        assert forall|i: int|
                            0 <= i < 81 && (#[trigger] filled[i]) is Some implies t[i]
                            == filled[i] by {
                            if i != idx {
                                assert(cells[i] is Some);
                            }
                        }
                    }
                } else if below.solved {
                    lemma_smaller_digit_precedes(cells, idx, below.cells, t);
                }
            }
        }
    }
}

/// The search succeeds exactly on the boards that have a solution keeping their
/// clues. When it succeeds, it ends on the first such solution in its order; when it
/// fails, it ends on the board that it began with.
pub proof fn lemma_search_finds_first_solution(cells: Cells)
    requires
        cells.len() == 81,
    ensures
        search(cells).solved <==> is_solvable(cells),
        search(cells).solved ==> is_first_solution(cells, search(cells).cells),
        !search(cells).solved ==> search(cells).cells == cells,
    decreases empty_cells(cells).len(), 10int,
{
    let o = search(cells);
    if is_full(cells) {
        assert(keeps_clues(cells, cells));
        assert forall|t: Cells| is_solution(t) && #[trigger] keeps_clues(cells, t) implies t
            == cells by {
            assert forall|i: int| 0 <= i < 81 implies t[i] == cells[i] by {
                assert(cells[i] is Some);
            }
            assert(t =~= cells);
        }
    } else {
        lemma_first_empty_exists(cells);
        let idx = first_empty(cells);
        lemma_search_from(cells, idx, 1);
        assert forall|t: Cells|
            is_solution(t) && #[trigger] keeps_clues(cells, t) implies o.solved && (t == o.cells
            || precedes(o.cells, t)) by {
            lemma_solution_is_full(t);
            assert(t[idx] is Some);
            lemma_digit_round_trip(t[idx]->0, 0);
        }
    }
}

/// A board on which two cells of one row, one column or one box hold the same digit
/// has no solution that keeps its clues.
pub proof fn lemma_repeated_clue_has_no_solution(cells: Cells, a: int, b: int)
    requires
        cells.len() == 81,
        0 <= a < 81,
        0 <= b < 81,
        are_peers(a, b),
        cells[a] is Some,
        cells[a] == cells[b],
    ensures
        !is_solvable(cells),
        !search(cells).solved,
        search(cells).cells == cells,
{
    let d = cells[a]->0;
    assert forall|t: Cells| is_solution(t) && #[trigger] keeps_clues(cells, t) implies false by {
        assert(t[a] == Some(d) && t[b] == Some(d));
        assert(cell_index(a / 9, a % 9) == a);
        let emptied = t.update(a, None);
        assert(keeps_clues(emptied, t));
        lemma_solution_digit_is_safe(emptied, t, a, d);
        lemma_safe_means_no_repeat(emptied, a / 9, a % 9, d);
        assert(are_peers(a, b) && emptied[b] == Some(d));
        assert(would_repeat(emptied, a, d));
    }
    lemma_search_finds_first_solution(cells);
}

/// Some digit from `n` to 9 is safe to place in the cell `idx`.
pub open spec fn has_safe_digit(cells: Cells, idx: int, n: int) -> bool {
    exists|m: int| n <= m <= 9 && placement_safe(cells, idx / 9, idx % 9, #[trigger] digit_of(m))
}

/// Trying the digits from `n` on writes a digit exactly when one of them is safe.
proof fn lemma_attempts_from(cells: Cells, idx: int, n: int)
    requires
        cells.len() == 81,
        0 <= idx < 81,
        cells[idx] is None,
        1 <= n <= 10,
    ensures
        search_from(cells, idx, n).attempts > 0 <==> has_safe_digit(cells, idx, n),
    decreases 10 - n,
{
    if n <= 9 {
        lemma_attempts_from(cells, idx, n + 1);
        if placement_safe(cells, idx / 9, idx % 9, digit_of(n)) {
            assert(has_safe_digit(cells, idx, n));
        } else if has_safe_digit(cells, idx, n) {
            let m = choose|m: int|
                n <= m <= 9 && placement_safe(cells, idx / 9, idx % 9, #[trigger] digit_of(m));
            assert(n + 1 <= m);
        } else if has_safe_digit(cells, idx, n + 1) {
            let m = choose|m: int|
                n + 1 <= m <= 9 && placement_safe(
                    cells,
                    idx / 9,
                    idx % 9,
                    #[trigger] digit_of(m),
                );
            assert(n <= m);
        }
    }
}

/// The search writes a digit at least once exactly when the board has an empty cell
/// and some digit is safe to place in the first of them.
pub proof fn lemma_search_attempts_positive(cells: Cells)
    requires
        cells.len() == 81,
    ensures
        search(cells).attempts > 0 <==> !is_full(cells) && has_safe_digit(
            cells,
            first_empty(cells),
            1,
        ),
{
    if !is_full(cells) {
        lemma_first_empty_exists(cells);
        lemma_attempts_from(cells, first_empty(cells), 1);
    }
}

} // verus!
