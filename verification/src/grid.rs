//! The operations on a board, over any storage that can read and write a cell.

use vstd::prelude::*;
pub use crate::digit::Digit;
pub use crate::naive::NaiveGrid;
pub use crate::packed::PackedGrid;
use crate::board::{
    board_of_rows, box_of, box_values, cell_index, col_values, empty_board, group_values,
    is_first_empty, is_full, is_permutation, is_solution, is_solvable, is_valid_matrix,
    lemma_tally_decides, placement_safe, row_values, Cells,
};
use crate::digit::{cell_value, digit_of, lemma_digit_round_trip};
use crate::frames::{
    chained, later, lemma_push_frame, lemma_unwind_solved, resume, spent_below, unwind, work,
    work_from, work_left, Frame,
};
use crate::search::{
    is_first_solution, lemma_first_empty_unique, lemma_search_finds_first_solution, search,
    search_from,
};

verus! {

/// Whether a tally of the numbers met in nine cells shows every digit and no empty
/// cell: `found[0]` is unset and `found[1]` to `found[9]` are set.
fn tally_is_complete(found: &[bool; 10]) -> (complete: bool)
    ensures
        complete <==> !found[0] && forall|v: int| 1 <= v < 10 ==> #[trigger] found[v],
{
    !found[0] && found[1] && found[2] && found[3] && found[4] && found[5] && found[6] && found[7]
        && found[8] && found[9]
}

/// The counter that stood at `start`, after `attempts` more attempts. It stops at the
/// largest number that it can hold.
pub open spec fn counted(start: int, attempts: nat) -> u64 {
    if start + attempts >= u64::MAX {
        u64::MAX
    } else {
        (start + attempts) as u64
    }
}

/// What [`Grid::full`], [`Grid::solved`] and the search answer depends on the cells
/// alone: asked again of a grid that was not written to, or of another grid with the
/// same cells in another storage, they answer the same.
pub proof fn lemma_answers_depend_on_cells<G: Grid, H: Grid>(a: &G, b: &H)
    requires
        a@ == b@,
    ensures
        is_full(a@) == is_full(b@),
        is_solution(a@) == is_solution(b@),
        search(a@) == search(b@),
        forall|start: int|
            counted(start, search(a@).attempts) == counted(start, search(b@).attempts),
{
}

/// A 9×9 board: 81 cells, each empty or holding one digit, read and written one cell
/// at a time. A storage supplies `new_zeroed`, `get` and `set`; the other operations
/// are built on these three.
pub trait Grid: Sized {
    /// The cells that the grid holds, row by row.
    spec fn view(&self) -> Cells;

    /// A grid holds 81 cells.
    proof fn lemma_view_len(&self)
        ensures
            self@.len() == 81,
    ;

    /// The grid with every cell empty.
    fn new_zeroed() -> (grid: Self)
        ensures
            grid@ == empty_board(),
    ;

    /// The cell at place `idx`.
    fn get(&self, idx: usize) -> (cell: Option<Digit>)
        requires
            idx < 81,
        ensures
            cell == self@[idx as int],
    ;

    /// Writes `val` to the cell at place `idx`; `None` empties it. No other cell changes.
    fn set(&mut self, idx: usize, val: Option<Digit>)
        requires
            idx < 81,
        ensures
            final(self)@ == old(self)@.update(idx as int, val),
    ;

    /// The cell in row `row` and column `col`.
    #[inline]
    fn get_xy(&self, row: usize, col: usize) -> (cell: Option<Digit>)
        requires
            row < 9,
            col < 9,
        ensures
            cell == self@[cell_index(row as int, col as int)],
    {
        self.get(col + 9 * row)
    }

    /// Writes `val` to the cell in row `row` and column `col`. No other cell changes.
    #[inline]
    fn set_xy(&mut self, row: usize, col: usize, val: Option<Digit>)
        requires
            row < 9,
            col < 9,
        ensures
            final(self)@ == old(self)@.update(cell_index(row as int, col as int), val),
    {
        self.set(col + 9 * row, val)
    }

    /// The grid that the matrix `mat` describes, row by row: 0 is an empty cell, 1 to
    /// 9 a digit, so that reading the cell in row `row` and column `col` gives back
    /// `mat[row][col]`. A matrix that holds a number above 9 describes no grid.
    fn new_from_rows(mat: [[u8; 9]; 9]) -> (grid: Option<Self>)
        ensures
            grid is Some <==> is_valid_matrix(mat),
            grid matches Some(g) ==> g@ == board_of_rows(mat),
            grid matches Some(g) ==> forall|row: int, col: int|
                0 <= row < 9 && 0 <= col < 9 ==> cell_value(#[trigger] g@[cell_index(row, col)])
                    == mat[row][col],
    {
        let mut new = Self::new_zeroed();
        let mut row: usize = 0;
        while row < 9
            invariant
                row <= 9,
                new@.len() == 81,
                forall|r: int, c: int| 0 <= r < row && 0 <= c < 9 ==> #[trigger] mat[r][c] <= 9,
                forall|i: int|
                    0 <= i < 9 * row ==> #[trigger] new@[i] == Digit::spec_from_u8(
                        mat[i / 9][i % 9],
                    ),
            decreases 9 - row,
        {
            let mut col: usize = 0;
            while col < 9
                invariant
                    col <= 9,
                    row < 9,
                    new@.len() == 81,
                    forall|r: int, c: int|
                        0 <= r < row && 0 <= c < 9 ==> #[trigger] mat[r][c] <= 9,
                    forall|c: int| 0 <= c < col ==> #[trigger] mat[row as int][c] <= 9,
                    forall|i: int|
                        0 <= i < 9 * row + col ==> #[trigger] new@[i] == Digit::spec_from_u8(
                            mat[i / 9][i % 9],
                        ),
                decreases 9 - col,
            {
                let number = mat[row][col];
                if number > 9 {
                    return None;
                }
                new.set_xy(row, col, Digit::from_u8(number));
                col += 1;
            }
            row += 1;
        }
        assert(new@ =~= board_of_rows(mat));
        Some(new)
    }

    /// The place of the first empty cell, in the order of the places, or `None` when
    /// the grid is full.
    fn first_empty_cell(&self) -> (first: Option<usize>)
        ensures
            match first {
                Some(idx) => is_first_empty(self@, idx as int),
                None => is_full(self@),
            },
    {
        let mut idx: usize = 0;
        while idx < 81
            invariant
                idx <= 81,
                forall|j: int| 0 <= j < idx ==> (#[trigger] self@[j]) is Some,
            decreases 81 - idx,
        {
            if self.get(idx).is_none() {
                return Some(idx);
            }
            idx += 1;
        }
        None
    }

    /// Whether no cell is empty.
    fn full(&self) -> (full: bool)
        ensures
            full == is_full(self@),
    {
        self.first_empty_cell().is_none()
    }

    /// Whether `candidate` stands nowhere yet in the row, the column and the box of
    /// the cell in row `row` and column `col`: 27 cells are read, the cell itself
    /// among them.
    fn safe(&self, row: usize, col: usize, candidate: Digit) -> (safe: bool)
        requires
            row < 9,
            col < 9,
        ensures
            safe == placement_safe(self@, row as int, col as int, candidate),
    {
        let box_row = row - row % 3;
        let box_col = col - col % 3;
        let ghost rows = row_values(self@, row as int);
        let ghost cols = col_values(self@, col as int);
        let ghost boxes = box_values(
            self@,
            box_of(row as int, col as int),
        );
        let mut x: usize = 0;
        while x < 9
            invariant
                x <= 9,
                row < 9,
                col < 9,
                box_row == row - row % 3,
                box_col == col - col % 3,
                rows == row_values(self@, row as int),
                cols == col_values(self@, col as int),
                boxes == box_values(
                    self@,
                    box_of(row as int, col as int),
                ),
                forall|k: int| 0 <= k < x ==> #[trigger] rows[k] != Some(candidate),
                forall|k: int| 0 <= k < x ==> #[trigger] cols[k] != Some(candidate),
                forall|k: int| 0 <= k < x ==> #[trigger] boxes[k] != Some(candidate),
            decreases 9 - x,
        {
            assert(self@[cell_index(row as int, x as int)] == rows[x as int]);
            assert(self@[cell_index(x as int, col as int)] == cols[x as int]);
            assert(self@[cell_index(box_row + x / 3, box_col + x % 3)] == boxes[x as int]);
            if self.get_xy(row, x) == Some(candidate) || self.get_xy(x, col) == Some(candidate)
                || self.get_xy(box_row + x / 3, box_col + x % 3) == Some(candidate) {
                return false;
            }
            x += 1;
        }
        true
    }

    /// Whether every row, every column and every box holds each digit exactly once.
    fn solved(&self) -> (solved: bool)
        ensures
            solved == is_solution(self@),
    {
        proof {
            self.lemma_view_len();
        }
        let mut kind: usize = 0;
        while kind < 3
            invariant
                kind <= 3,
                self@.len() == 81,
                forall|t: int, g: int|
                    0 <= t < kind && 0 <= g < 9 ==> is_permutation(
                        #[trigger] group_values(self@, t, g),
                    ),
            decreases 3 - kind,
        {
            let mut group: usize = 0;
            while group < 9
                invariant
                    group <= 9,
                    kind < 3,
                    self@.len() == 81,
                    forall|t: int, g: int|
                        0 <= t < kind && 0 <= g < 9 ==> is_permutation(
                            #[trigger] group_values(self@, t, g),
                        ),
                    forall|g: int|
                        0 <= g < group ==> is_permutation(
                            #[trigger] group_values(self@, kind as int, g),
                        ),
                decreases 9 - group,
            {
                let ghost vals = group_values(self@, kind as int, group as int);
                let mut found: [bool; 10] = [
                    false,
                    false,
                    false,
                    false,
                    false,
                    false,
                    false,
                    false,
                    false,
                    false,
                ];
                assert(forall|v: int| 0 <= v < 10 ==> !(#[trigger] found@[v]));
                let mut k: usize = 0;
                while k < 9
                    invariant
                        k <= 9,
                        kind < 3,
                        group < 9,
                        vals == group_values(self@, kind as int, group as int),
                        forall|v: int|
                            0 <= v < 10 ==> (#[trigger] found@[v] <==> exists|j: int|
                                0 <= j < k && cell_value(#[trigger] vals[j]) == v),
                    decreases 9 - k,
                {
                    let cell = if kind == 0 {
                        self.get_xy(group, k)
                    } else if kind == 1 {
                        self.get_xy(k, group)
                    } else {
                        self.get_xy(3 * (group / 3) + k / 3, 3 * (group % 3) + k % 3)
                    };
                    assert(cell == vals[k as int]);
                    let number: usize = match cell {
                        Some(d) => d.value() as usize,
                        None => 0,
                    };
                    let ghost before = found@;
                    found[number] = true;
                    assert forall|v: int| 0 <= v < 10 implies (#[trigger] found@[v] <==> exists|
                        j: int,
                    |
                        0 <= j < k + 1 && cell_value(#[trigger] vals[j]) == v) by {
                        if found@[v] {
                            if v == number {
                                assert(cell_value(vals[k as int]) == v);
                            } else {
                                assert(before[v]);
                            }
                        }
                    }
                    k += 1;
                }
                proof {
                    lemma_tally_decides(vals, found@);
                }
                if !tally_is_complete(&found) {
                    assert(!is_solution(self@)) by {
                        if kind == 0 {
                            assert(vals == row_values(self@, group as int));
                        } else if kind == 1 {
                            assert(vals == col_values(self@, group as int));
                        } else {
                            assert(vals == box_values(self@, group as int));
                        }
                    }
                    return false;
                }
                group += 1;
            }
            kind += 1;
        }
        assert(is_solution(self@)) by {
            assert forall|row: int| 0 <= row < 9 implies is_permutation(
                #[trigger] row_values(self@, row),
            ) by {
                assert(is_permutation(group_values(self@, 0, row)));
            }
            assert forall|col: int| 0 <= col < 9 implies is_permutation(
                #[trigger] col_values(self@, col),
            ) by {
                assert(is_permutation(group_values(self@, 1, col)));
            }
            assert forall|b: int| 0 <= b < 9 implies is_permutation(
                #[trigger] box_values(self@, b),
            ) by {
                assert(is_permutation(group_values(self@, 2, b)));
            }
        }
        true
    }

    /// Searches for a solution that keeps the clues of the grid, and adds to `num`
    /// the number of times that it wrote a digit into a cell.
    ///
    /// The search is the one that [`search`] describes: it fills the first empty cell
    /// with the digits from 1 to 9 in turn, skips those that are not safe, and takes a
    /// digit back when the rest of the board cannot be completed with it. It keeps the
    /// cells that it has filled on a stack of its own.
    ///
    /// It succeeds exactly when a solution exists, and then leaves the first one in
    /// its order in the grid. When it fails, the grid is as it was.
    fn brute_force_with_count(&mut self, num: &mut u64) -> (solved: bool)
        ensures
            solved == search(old(self)@).solved,
            final(self)@ == search(old(self)@).cells,
            *final(num) == counted(*old(num) as int, search(old(self)@).attempts),
            solved <==> is_solvable(old(self)@),
            solved ==> is_first_solution(old(self)@, final(self)@),
            !solved ==> final(self)@ == old(self)@,
    {
        proof {
            self.lemma_view_len();
            lemma_search_finds_first_solution(self@);
        }
        let ghost base = self@;
        let ghost start = *num as int;
        let mut idx: usize = match self.first_empty_cell() {
            Some(first) => first,
            None => {
                return self.solved();
            },
        };
        proof {
            lemma_first_empty_unique(base, idx as int);
        }
        let mut n: u8 = 1;
        let mut stack: Vec<usize> = Vec::new();
        let ghost mut frames: Seq<Frame> = Seq::empty();
        let ghost mut spent: nat = 0;
        loop
            invariant
                base == old(self)@,
                start == *old(num),
                base.len() == 81,
                self@.len() == 81,
                idx < 81,
                1 <= n <= 10,
                is_first_empty(self@, idx as int),
                frames.len() == stack@.len(),
                forall|j: int| 0 <= j < frames.len() ==> (#[trigger] stack@[j]) == frames[j].idx,
                chained(frames, base, self@),
                search(base) == unwind(
                    frames,
                    later(search_from(self@, idx as int, n as int), spent),
                ),
                *num == counted(start, spent + spent_below(frames)),
            decreases work_from(self@, idx as int, n as int) + work_left(frames),
        {
            let ghost here = self@;
            if n > 9 {
                // no digit is left for this cell: back to the cell that was filled before it
                match stack.pop() {
                    None => {
                        proof {
                            lemma_search_finds_first_solution(base);
                        }
                        return false;
                    },
                    Some(parent) => {
                        let ghost f = frames.last();
                        let placed = self.get(parent);
                        self.set(parent, None);
                        assert(self@ =~= f.board);
                        proof {
                            lemma_digit_round_trip(digit_of(f.n), f.n as u8);
                            spent = spent + 1 + f.spent;
                            frames = frames.drop_last();
                        }
                        idx = parent;
                        n = match placed {
                            Some(d) => d.value() + 1,
                            None => 10,
                        };
                    },
                }
            } else {
                proof {
                    lemma_digit_round_trip(digit_of(n as int), n);
                }
                let candidate = match Digit::from_u8(n) {
                    Some(d) => d,
                    None => Digit::One,
                };
                if self.safe(idx / 9, idx % 9, candidate) {
                    self.set(idx, Some(candidate));
                    if *num < u64::MAX {
                        *num = *num + 1;
                    }
                    let ghost filled = here.update(idx as int, Some(candidate));
                    assert(search_from(here, idx as int, n as int) == resume(
                        here,
                        idx as int,
                        n as int,
                        search(filled),
                    ));
                    assert(work_from(here, idx as int, n as int) == 1 + work(filled) + work_from(
                        here,
                        idx as int,
                        n + 1,
                    ));
                    // every cell before `idx` is filled, so the next empty one lies behind it
                    let mut next: usize = idx + 1;
                    while next < 81 && self.get(next).is_some()
                        invariant
                            idx < next <= 81,
                            self@ == filled,
                            forall|j: int| idx < j < next ==> (#[trigger] self@[j]) is Some,
                        decreases 81 - next,
                    {
                        next += 1;
                    }
                    assert forall|j: int| 0 <= j < next implies (#[trigger] filled[j]) is Some by {
                        if j < idx {
                            assert(here[j] is Some);
                        }
                    }
                    if next >= 81 {
                        assert(is_full(filled));
                        if self.solved() {
                            proof {
                                lemma_unwind_solved(
                                    frames,
                                    later(search_from(here, idx as int, n as int), spent),
                                );
                                lemma_search_finds_first_solution(base);
                            }
                            return true;
                        }
                        self.set(idx, None);
                        assert(self@ =~= here);
                        proof {
                            spent = spent + 1;
                        }
                        n = n + 1;
                    } else {
                        proof {
                            lemma_first_empty_unique(filled, next as int);
                            let f = Frame { board: here, idx: idx as int, n: n as int, spent };
                            lemma_push_frame(
                                frames,
                                f,
                                later(search_from(filled, next as int, 1), 0),
                                base,
                                filled,
                            );
                            assert(later(search_from(filled, next as int, 1), 0) == search(filled));
                            assert(work(filled) == work_from(filled, next as int, 1));
                            frames = frames.push(f);
                            spent = 0;
                        }
                        stack.push(idx);
                        idx = next;
                        n = 1;
                    }
                } else {
                    n = n + 1;
                }
            }
        }
    }

    /// Searches for a solution that keeps the clues of the grid, as
    /// [`Grid::brute_force_with_count`] does, and tells whether it found one and how
    /// many times it wrote a digit into a cell.
    fn brute_force(&mut self) -> (result: (bool, u64))
        ensures
            result.0 == search(old(self)@).solved,
            final(self)@ == search(old(self)@).cells,
            result.1 == counted(0, search(old(self)@).attempts),
            result.0 <==> is_solvable(old(self)@),
            result.0 ==> is_first_solution(old(self)@, final(self)@),
            !result.0 ==> final(self)@ == old(self)@,
    {
        let mut num: u64 = 0;
        let solved = self.brute_force_with_count(&mut num);
        (solved, num)
    }
}

} // verus!
