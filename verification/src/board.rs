//! The board as a mathematical value: 81 cells in row-major order, each empty or
//! holding a digit, and the rules of the puzzle stated on it.

use vstd::prelude::*;
use vstd::seq_lib::seq_to_set_is_finite;
use vstd::set_lib::{lemma_int_range, lemma_len_subset, lemma_subset_equality, set_int_range};
use crate::digit::{cell_value, Digit};

verus! {

/// The 81 cells of a board; cell `col + 9 * row` lies in row `row` and column `col`.
pub type Cells = Seq<Option<Digit>>;

/// The place in the sequence of the cell in row `row` and column `col`.
pub open spec fn cell_index(row: int, col: int) -> int {
    col + 9 * row
}

/// The box that the cell in row `row` and column `col` lies in. Boxes are numbered
/// like cells, row by row: box `b` has its top left corner in row `3 * (b / 3)` and
/// column `3 * (b % 3)`.
pub open spec fn box_of(row: int, col: int) -> int {
    3 * (row / 3) + col / 3
}

/// The nine cells of row `row`, from left to right.
pub open spec fn row_values(cells: Cells, row: int) -> Cells {
    Seq::new(9, |k: int| cells[cell_index(row, k)])
}

/// The nine cells of column `col`, from top to bottom.
pub open spec fn col_values(cells: Cells, col: int) -> Cells {
    Seq::new(9, |k: int| cells[cell_index(k, col)])
}

/// The nine cells of box `b`, row by row.
pub open spec fn box_values(cells: Cells, b: int) -> Cells {
    Seq::new(9, |k: int| cells[cell_index(3 * (b / 3) + k / 3, 3 * (b % 3) + k % 3)])
}

/// The board on which every cell is empty.
pub open spec fn empty_board() -> Cells {
    Seq::new(81, |i: int| None::<Digit>)
}

/// Whether every number of the matrix stands for a cell: none is above 9.
pub open spec fn is_valid_matrix(mat: [[u8; 9]; 9]) -> bool {
    forall|row: int, col: int| 0 <= row < 9 && 0 <= col < 9 ==> #[trigger] mat[row][col] <= 9
}

/// The board that a matrix of numbers describes, row by row: 0 stands for an empty
/// cell, 1 to 9 for the digit.
pub open spec fn board_of_rows(mat: [[u8; 9]; 9]) -> Cells {
    Seq::new(81, |i: int| Digit::spec_from_u8(mat[i / 9][i % 9]))
}

/// The rows, the columns or the boxes: group `g` of rows when `kind` is 0, of columns
/// when it is 1, of boxes otherwise.
pub open spec fn group_values(cells: Cells, kind: int, g: int) -> Cells {
    if kind == 0 {
        row_values(cells, g)
    } else if kind == 1 {
        col_values(cells, g)
    } else {
        box_values(cells, g)
    }
}

/// No cell is empty.
pub open spec fn is_full(cells: Cells) -> bool {
    forall|i: int| 0 <= i < 81 ==> (#[trigger] cells[i]) is Some
}

/// Cell `idx` is empty and every cell before it is filled.
pub open spec fn is_first_empty(cells: Cells, idx: int) -> bool {
    &&& 0 <= idx < 81
    &&& cells[idx] is None
    &&& forall|j: int| 0 <= j < idx ==> (#[trigger] cells[j]) is Some
}

/// The digit `d` stands in `vals`, and at one place only.
pub open spec fn holds_once(vals: Cells, d: Digit) -> bool {
    &&& vals.contains(Some(d))
    &&& forall|j: int, k: int|
        0 <= j < k < vals.len() ==> !(#[trigger] vals[j] == Some(d) && #[trigger] vals[k] == Some(
            d,
        ))
}

/// The nine cells `vals` hold each of the nine digits exactly once.
pub open spec fn is_permutation(vals: Cells) -> bool {
    &&& vals.len() == 9
    &&& forall|d: Digit| #[trigger] holds_once(vals, d)
}

/// Every row, every column and every box holds each digit exactly once.
pub open spec fn is_solution(cells: Cells) -> bool {
    &&& cells.len() == 81
    &&& forall|row: int| 0 <= row < 9 ==> is_permutation(#[trigger] row_values(cells, row))
    &&& forall|col: int| 0 <= col < 9 ==> is_permutation(#[trigger] col_values(cells, col))
    &&& forall|b: int| 0 <= b < 9 ==> is_permutation(#[trigger] box_values(cells, b))
}

/// The digit `d` stands nowhere in the row, the column and the box of the cell in
/// row `row` and column `col`. The cell itself counts among them.
pub open spec fn placement_safe(cells: Cells, row: int, col: int, d: Digit) -> bool {
    &&& !row_values(cells, row).contains(Some(d))
    &&& !col_values(cells, col).contains(Some(d))
    &&& !box_values(cells, box_of(row, col)).contains(Some(d))
}

/// The cells at the places `a` and `b` are two cells of one row, one column or one box.
pub open spec fn are_peers(a: int, b: int) -> bool {
    &&& a != b
    &&& (a / 9 == b / 9 || a % 9 == b % 9 || box_of(a / 9, a % 9) == box_of(b / 9, b % 9))
}

/// The digit `d`, written into the cell `idx`, would stand twice in the cell's row,
/// column or box: another cell of these holds it already.
pub open spec fn would_repeat(cells: Cells, idx: int, d: Digit) -> bool {
    exists|k: int| 0 <= k < 81 && are_peers(idx, k) && #[trigger] cells[k] == Some(d)
}

/// Every filled cell of `before` holds the same digit in `after`.
pub open spec fn keeps_clues(before: Cells, after: Cells) -> bool {
    &&& before.len() == after.len()
    &&& forall|i: int|
        0 <= i < before.len() && (#[trigger] before[i]) is Some ==> after[i] == before[i]
}

/// Some solution keeps all the clues of `cells`.
pub open spec fn is_solvable(cells: Cells) -> bool {
    exists|t: Cells| is_solution(t) && #[trigger] keeps_clues(cells, t)
}

/// The places of the empty cells.
pub open spec fn empty_cells(cells: Cells) -> Set<int> {
    Set::new(|i: int| 0 <= i < 81 && cells[i] is None)
}

/// The nine values that a filled cell can have.
spec fn filled_values() -> Set<Option<Digit>> {
    set![
        Some(Digit::One),
        Some(Digit::Two),
        Some(Digit::Three),
        Some(Digit::Four),
        Some(Digit::Five),
        Some(Digit::Six),
        Some(Digit::Seven),
        Some(Digit::Eight),
        Some(Digit::Nine)
    ]
}

/// There are nine of them, and they are the values that hold a digit.
proof fn lemma_filled_values()
    ensures
        filled_values().finite(),
        filled_values().len() == 9,
        forall|c: Option<Digit>| filled_values().contains(c) <==> c is Some,
{
    assert forall|c: Option<Digit>| c is Some implies filled_values().contains(c) by {
        match c->0 {
            Digit::One => {},
            Digit::Two => {},
            Digit::Three => {},
            Digit::Four => {},
            Digit::Five => {},
            Digit::Six => {},
            Digit::Seven => {},
            Digit::Eight => {},
            Digit::Nine => {},
        }
    }
}

/// Nine cells in which every digit occurs are all filled, and no two of them hold
/// the same digit.
pub proof fn lemma_every_digit_occurs(vals: Cells)
    requires
        vals.len() == 9,
        forall|d: Digit| #[trigger] vals.contains(Some(d)),
    ensures
        is_permutation(vals),
        vals.no_duplicates(),
        forall|k: int| 0 <= k < 9 ==> (#[trigger] vals[k]) is Some,
{
    lemma_filled_values();
    seq_to_set_is_finite(vals);
    assert(filled_values().subset_of(vals.to_set())) by {
        assert forall|c: Option<Digit>| filled_values().contains(c) implies vals.to_set().contains(
            c,
        ) by {
            assert(vals.contains(Some(c->0)));
        }
    }
    lemma_len_subset(filled_values(), vals.to_set());
    vals.lemma_cardinality_of_set();
    vals.lemma_no_dup_set_cardinality();
    lemma_subset_equality(filled_values(), vals.to_set());
    assert forall|k: int| 0 <= k < 9 implies (#[trigger] vals[k]) is Some by {
        assert(vals.to_set().contains(vals[k]));
    }
    assert forall|d: Digit| #[trigger] holds_once(vals, d) by {
        assert(vals.contains(Some(d)));
    }
}

/// Nine filled cells of which no two hold the same digit hold every digit.
pub proof fn lemma_distinct_digits(vals: Cells)
    requires
        vals.len() == 9,
        vals.no_duplicates(),
        forall|k: int| 0 <= k < 9 ==> (#[trigger] vals[k]) is Some,
    ensures
        is_permutation(vals),
{
    lemma_filled_values();
    seq_to_set_is_finite(vals);
    vals.unique_seq_to_set();
    assert(vals.to_set().subset_of(filled_values())) by {
        assert forall|c: Option<Digit>| vals.to_set().contains(c) implies filled_values().contains(
            c,
        ) by {
            let k = choose|k: int| 0 <= k < vals.len() && vals[k] == c;
            assert(vals[k] is Some);
        }
    }
    lemma_subset_equality(vals.to_set(), filled_values());
    assert forall|d: Digit| #[trigger] holds_once(vals, d) by {
        assert(filled_values().contains(Some(d)));
        assert(vals.to_set().contains(Some(d)));
    }
}

/// What a permutation is, said in three ways: each digit stands in the nine cells
/// exactly once; each digit stands in them; they are filled and no two alike.
pub proof fn lemma_permutation_means(vals: Cells)
    requires
        vals.len() == 9,
    ensures
        is_permutation(vals) <==> forall|d: Digit| #[trigger] vals.contains(Some(d)),
        is_permutation(vals) <==> vals.no_duplicates() && forall|k: int|
            0 <= k < 9 ==> (#[trigger] vals[k]) is Some,
{
    if is_permutation(vals) {
        assert forall|d: Digit| #[trigger] vals.contains(Some(d)) by {
            assert(holds_once(vals, d));
        }
    }
    if forall|d: Digit| #[trigger] vals.contains(Some(d)) {
        lemma_every_digit_occurs(vals);
    }
    if vals.no_duplicates() && forall|k: int| 0 <= k < 9 ==> (#[trigger] vals[k]) is Some {
        lemma_distinct_digits(vals);
    }
}

/// Whether nine cells are a permutation, read off from the marks of a tally: `found[v]`
/// says whether the number `v` stands for one of the cells, 0 standing for an empty one.
pub proof fn lemma_tally_decides(vals: Cells, found: Seq<bool>)
    requires
        vals.len() == 9,
        found.len() == 10,
        forall|v: int|
            0 <= v < 10 ==> (#[trigger] found[v] <==> exists|k: int|
                0 <= k < 9 && cell_value(#[trigger] vals[k]) == v),
    ensures
        is_permutation(vals) <==> !found[0] && forall|v: int| 1 <= v < 10 ==> #[trigger] found[v],
{
    if !found[0] && forall|v: int| 1 <= v < 10 ==> #[trigger] found[v] {
        assert forall|d: Digit| #[trigger] vals.contains(Some(d)) by {
            assert(found[d.spec_value() as int]);
            let k = choose|k: int| 0 <= k < 9 && cell_value(#[trigger] vals[k]) == d.spec_value();
            assert(vals[k] == Some(d));
        }
        lemma_every_digit_occurs(vals);
    }
    if is_permutation(vals) {
        lemma_permutation_means(vals);
        assert forall|v: int| 1 <= v < 10 implies #[trigger] found[v] by {
            let d = Digit::spec_from_u8(v as u8)->0;
            assert(vals.contains(Some(d)));
            let k = choose|k: int| 0 <= k < 9 && vals[k] == Some(d);
            assert(cell_value(vals[k]) == v);
        }
        if found[0] {
            let k = choose|k: int| 0 <= k < 9 && cell_value(#[trigger] vals[k]) == 0;
            assert(vals[k] is Some);
        }
    }
}

/// Where a cell lies in its box: the cell in row `row` and column `col` is cell
/// `3 * (row % 3) + col % 3` of box `box_of(row, col)`.
pub proof fn lemma_place_in_box(row: int, col: int)
    requires
        0 <= row < 9,
        0 <= col < 9,
    ensures
        ({
            let b = box_of(row, col);
            let p = 3 * (row % 3) + col % 3;
            &&& 0 <= b < 9
            &&& 0 <= p < 9
            &&& 3 * (b / 3) + p / 3 == row
            &&& 3 * (b % 3) + p % 3 == col
        }),
{
}

/// Where a cell of a box lies on the board: cell `k` of box `b` is in row
/// `3 * (b / 3) + k / 3` and column `3 * (b % 3) + k % 3`.
pub proof fn lemma_cell_of_box(b: int, k: int)
    requires
        0 <= b < 9,
        0 <= k < 9,
    ensures
        ({
            let row = 3 * (b / 3) + k / 3;
            let col = 3 * (b % 3) + k % 3;
            &&& 0 <= row < 9
            &&& 0 <= col < 9
            &&& box_of(row, col) == b
            &&& 3 * (row % 3) + col % 3 == k
        }),
{
}

/// A digit that is not safe, in a cell that does not hold it, stands in another cell
/// of the row, the column or the box.
proof fn lemma_unsafe_digit_repeats(cells: Cells, row: int, col: int, d: Digit)
    requires
        cells.len() == 81,
        0 <= row < 9,
        0 <= col < 9,
        !placement_safe(cells, row, col, d),
        cells[cell_index(row, col)] != Some(d),
    ensures
        would_repeat(cells, cell_index(row, col), d),
{
    let idx = cell_index(row, col);
    let b = box_of(row, col);
    assert(idx / 9 == row && idx % 9 == col);
    lemma_place_in_box(row, col);
    if row_values(cells, row).contains(Some(d)) {
        let k = choose|k: int| 0 <= k < 9 && row_values(cells, row)[k] == Some(d);
        let other = cell_index(row, k);
        assert(other / 9 == row && other % 9 == k);
        assert(are_peers(idx, other) && cells[other] == Some(d));
    } else if col_values(cells, col).contains(Some(d)) {
        let k = choose|k: int| 0 <= k < 9 && col_values(cells, col)[k] == Some(d);
        let other = cell_index(k, col);
        assert(other / 9 == k && other % 9 == col);
        assert(are_peers(idx, other) && cells[other] == Some(d));
    } else {
        let k = choose|k: int| 0 <= k < 9 && box_values(cells, b)[k] == Some(d);
        lemma_cell_of_box(b, k);
        let r2 = 3 * (b / 3) + k / 3;
        let c2 = 3 * (b % 3) + k % 3;
        let other = cell_index(r2, c2);
        assert(other / 9 == r2 && other % 9 == c2);
        assert(cells[other] == Some(d));
        assert(other != idx);
        assert(are_peers(idx, other));
    }
}

/// A digit that stands in another cell of the row, the column or the box is not safe.
proof fn lemma_repeating_digit_is_unsafe(cells: Cells, row: int, col: int, d: Digit)
    requires
        cells.len() == 81,
        0 <= row < 9,
        0 <= col < 9,
        would_repeat(cells, cell_index(row, col), d),
    ensures
        !placement_safe(cells, row, col, d),
{
    let idx = cell_index(row, col);
    let b = box_of(row, col);
    assert(idx / 9 == row && idx % 9 == col);
    let k = choose|k: int| 0 <= k < 81 && are_peers(idx, k) && #[trigger] cells[k] == Some(d);
    let r2 = k / 9;
    let c2 = k % 9;
    assert(cell_index(r2, c2) == k);
    if r2 == row {
        assert(row_values(cells, row)[c2] == Some(d));
    } else if c2 == col {
        assert(col_values(cells, col)[r2] == Some(d));
    } else {
        lemma_place_in_box(r2, c2);
        let q = 3 * (r2 % 3) + c2 % 3;
        assert(cell_index(3 * (b / 3) + q / 3, 3 * (b % 3) + q % 3) == k);
        assert(box_values(cells, b)[q] == Some(d));
    }
}

/// A digit is safe to place in a cell exactly when the cell does not hold it already
/// and writing it there would not make it stand twice in a row, a column or a box.
pub proof fn lemma_safe_means_no_repeat(cells: Cells, row: int, col: int, d: Digit)
    requires
        cells.len() == 81,
        0 <= row < 9,
        0 <= col < 9,
    ensures
        placement_safe(cells, row, col, d) <==> cells[cell_index(row, col)] != Some(d)
            && !would_repeat(cells, cell_index(row, col), d),
{
    if !placement_safe(cells, row, col, d) && cells[cell_index(row, col)] != Some(d) {
        lemma_unsafe_digit_repeats(cells, row, col, d);
    }
    if cells[cell_index(row, col)] == Some(d) {
        assert(row_values(cells, row)[col] == Some(d));
    }
    if would_repeat(cells, cell_index(row, col), d) {
        lemma_repeating_digit_is_unsafe(cells, row, col, d);
    }
}

/// In a solution no cell is empty.
pub proof fn lemma_solution_is_full(t: Cells)
    requires
        is_solution(t),
    ensures
        is_full(t),
{
    assert forall|i: int| 0 <= i < 81 implies (#[trigger] t[i]) is Some by {
        let row = i / 9;
        let col = i % 9;
        assert(cell_index(row, col) == i);
        assert(is_permutation(row_values(t, row)));
        lemma_permutation_means(row_values(t, row));
        assert(row_values(t, row)[col] is Some);
    }
}

/// The empty cells are finitely many, at most 81.
pub proof fn lemma_empty_cells_finite(cells: Cells)
    ensures
        empty_cells(cells).finite(),
        empty_cells(cells).len() <= 81,
{
    lemma_int_range(0, 81);
    assert(empty_cells(cells).subset_of(set_int_range(0, 81)));
    lemma_len_subset(empty_cells(cells), set_int_range(0, 81));
}

/// Filling an empty cell leaves one empty cell fewer.
pub proof fn lemma_fill_empty_cell(cells: Cells, idx: int, d: Digit)
    requires
        cells.len() == 81,
        0 <= idx < 81,
        cells[idx] is None,
    ensures
        empty_cells(cells.update(idx, Some(d))) == empty_cells(cells).remove(idx),
        empty_cells(cells.update(idx, Some(d))).len() + 1 == empty_cells(cells).len(),
{
    lemma_empty_cells_finite(cells);
    assert(empty_cells(cells).contains(idx));
    assert(empty_cells(cells.update(idx, Some(d))) =~= empty_cells(cells).remove(idx));
}

} // verus!
