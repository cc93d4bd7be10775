use sudoku_rl::digit::Digit;
use sudoku_rl::grid::{Grid, NaiveGrid, PackedGrid};

const CLASSIC: [[u8; 9]; 9] = [
    [0, 0, 0, 0, 0, 0, 0, 0, 0],
    [0, 0, 0, 0, 0, 3, 0, 8, 5],
    [0, 0, 1, 0, 2, 0, 0, 0, 0],
    [0, 0, 0, 5, 0, 7, 0, 0, 0],
    [0, 0, 4, 0, 0, 0, 1, 0, 0],
    [0, 9, 0, 0, 0, 0, 0, 0, 0],
    [5, 0, 0, 0, 0, 0, 0, 7, 3],
    [0, 0, 2, 0, 1, 0, 0, 0, 0],
    [0, 0, 0, 0, 4, 0, 0, 0, 9],
];

const EASY: [[u8; 9]; 9] = [
    [5, 3, 0, 0, 7, 0, 0, 0, 0],
    [6, 0, 0, 1, 9, 5, 0, 0, 0],
    [0, 9, 8, 0, 0, 0, 0, 6, 0],
    [8, 0, 0, 0, 6, 0, 0, 0, 3],
    [4, 0, 0, 8, 0, 3, 0, 0, 1],
    [7, 0, 0, 0, 2, 0, 0, 0, 6],
    [0, 6, 0, 0, 0, 0, 2, 8, 0],
    [0, 0, 0, 4, 1, 9, 0, 0, 5],
    [0, 0, 0, 0, 8, 0, 0, 7, 9],
];

const EASY_SOLVED: [[u8; 9]; 9] = [
    [5, 3, 4, 6, 7, 8, 9, 1, 2],
    [6, 7, 2, 1, 9, 5, 3, 4, 8],
    [1, 9, 8, 3, 4, 2, 5, 6, 7],
    [8, 5, 9, 7, 6, 1, 4, 2, 3],
    [4, 2, 6, 8, 5, 3, 7, 9, 1],
    [7, 1, 3, 9, 2, 4, 8, 5, 6],
    [9, 6, 1, 5, 3, 7, 2, 8, 4],
    [2, 8, 7, 4, 1, 9, 6, 3, 5],
    [3, 4, 5, 2, 8, 6, 1, 7, 9],
];

fn number(cell: Option<Digit>) -> u8 {
    match cell {
        Some(d) => d.value(),
        None => 0,
    }
}

fn rows_of<G: Grid>(g: &G) -> [[u8; 9]; 9] {
    let mut rows = [[0u8; 9]; 9];
    for row in 0..9 {
        for col in 0..9 {
            rows[row][col] = number(g.get_xy(row, col));
        }
    }
    rows
}

fn round_trip<G: Grid>(mat: [[u8; 9]; 9]) {
    let g = G::new_from_rows(mat).expect("a matrix of numbers up to 9");
    for row in 0..9 {
        for col in 0..9 {
            assert_eq!(number(g.get_xy(row, col)), mat[row][col]);
            assert_eq!(g.get(col + 9 * row), Digit::from_u8(mat[row][col]));
        }
    }
}

#[test]
fn new_from_rows_reads_back_every_cell() {
    round_trip::<NaiveGrid>(CLASSIC);
    round_trip::<PackedGrid>(CLASSIC);
    round_trip::<NaiveGrid>(EASY_SOLVED);
    round_trip::<PackedGrid>(EASY_SOLVED);
    let mut counting = [[0u8; 9]; 9];
    for row in 0..9 {
        for col in 0..9 {
            counting[row][col] = ((row * 9 + col) % 10) as u8;
        }
    }
    round_trip::<NaiveGrid>(counting);
    round_trip::<PackedGrid>(counting);
}

#[test]
fn new_from_rows_refuses_a_number_above_nine() {
    let mut mat = EASY;
    mat[4][7] = 10;
    assert!(NaiveGrid::new_from_rows(mat).is_none());
    assert!(PackedGrid::new_from_rows(mat).is_none());
    mat[4][7] = 255;
    assert!(NaiveGrid::new_from_rows(mat).is_none());
    assert!(PackedGrid::new_from_rows(mat).is_none());
    mat[4][7] = 9;
    assert!(NaiveGrid::new_from_rows(mat).is_some());
    assert!(PackedGrid::new_from_rows(mat).is_some());
}

fn zeroed_is_empty<G: Grid>() {
    let g = G::new_zeroed();
    for idx in 0..81 {
        assert_eq!(g.get(idx), None);
    }
    assert_eq!(g.first_empty_cell(), Some(0));
    assert!(!g.full());
    assert!(!g.solved());
}

#[test]
fn new_zeroed_has_only_empty_cells() {
    zeroed_is_empty::<NaiveGrid>();
    zeroed_is_empty::<PackedGrid>();
}

fn set_touches_one_cell<G: Grid>() {
    let mut g = G::new_from_rows(EASY).unwrap();
    for idx in 0..81 {
        let before = rows_of(&g);
        g.set(idx, Some(Digit::Nine));
        assert_eq!(g.get(idx), Some(Digit::Nine));
        for other in 0..81 {
            if other != idx {
                assert_eq!(number(g.get(other)), before[other / 9][other % 9]);
            }
        }
        g.set(idx, None);
        assert_eq!(g.get(idx), None);
        g.set(idx, Digit::from_u8(before[idx / 9][idx % 9]));
        assert_eq!(rows_of(&g), before);
    }
}

#[test]
fn set_writes_one_cell_and_keeps_the_others() {
    set_touches_one_cell::<NaiveGrid>();
    set_touches_one_cell::<PackedGrid>();
}

#[test]
fn packed_neighbours_in_one_byte_do_not_disturb_each_other() {
    let mut g = PackedGrid::new_zeroed();
    g.set(0, Some(Digit::Nine));
    g.set(1, Some(Digit::Six));
    assert_eq!(g.get(0), Some(Digit::Nine));
    assert_eq!(g.get(1), Some(Digit::Six));
    g.set(0, Some(Digit::One));
    assert_eq!(g.get(0), Some(Digit::One));
    assert_eq!(g.get(1), Some(Digit::Six));
    g.set(1, None);
    assert_eq!(g.get(0), Some(Digit::One));
    assert_eq!(g.get(1), None);
    g.set(80, Some(Digit::Seven));
    assert_eq!(g.get(80), Some(Digit::Seven));
    assert_eq!(g.get(79), None);
}

#[test]
fn packed_grid_is_smaller_than_48_bytes() {
    assert_eq!(std::mem::size_of::<PackedGrid>(), 41);
}

fn xy_is_row_then_column<G: Grid>() {
    let mut g = G::new_zeroed();
    g.set_xy(2, 7, Some(Digit::Four));
    assert_eq!(g.get(7 + 9 * 2), Some(Digit::Four));
    assert_eq!(g.get_xy(2, 7), Some(Digit::Four));
    assert_eq!(g.get_xy(7, 2), None);
    g.set(8 + 9 * 0, Some(Digit::Two));
    assert_eq!(g.get_xy(0, 8), Some(Digit::Two));
    g.set_xy(2, 7, None);
    assert_eq!(g.get(25), None);
}

#[test]
fn get_xy_and_set_xy_address_row_then_column() {
    xy_is_row_then_column::<NaiveGrid>();
    xy_is_row_then_column::<PackedGrid>();
}

fn first_empty_moves_on<G: Grid>() {
    let mut g = G::new_zeroed();
    for idx in 0..81 {
        assert_eq!(g.first_empty_cell(), Some(idx));
        assert!(!g.full());
        g.set(idx, Some(Digit::One));
    }
    assert_eq!(g.first_empty_cell(), None);
    assert!(g.full());
    g.set(40, None);
    g.set(63, None);
    assert_eq!(g.first_empty_cell(), Some(40));
    assert!(!g.full());
}

#[test]
fn first_empty_cell_is_the_lowest_empty_place() {
    first_empty_moves_on::<NaiveGrid>();
    first_empty_moves_on::<PackedGrid>();
}

#[test]
fn first_empty_cell_of_the_easy_puzzle() {
    let g = PackedGrid::new_from_rows(EASY).unwrap();
    assert_eq!(g.first_empty_cell(), Some(2));
    let solved = PackedGrid::new_from_rows(EASY_SOLVED).unwrap();
    assert_eq!(solved.first_empty_cell(), None);
}

fn safe_on_easy<G: Grid>() {
    let g = G::new_from_rows(EASY).unwrap();
    // row 0 holds 5, 3, 7; column 2 holds 8; the box holds 5, 3, 6, 9, 8
    assert!(g.safe(0, 2, Digit::One));
    assert!(g.safe(0, 2, Digit::Two));
    assert!(g.safe(0, 2, Digit::Four));
    assert!(!g.safe(0, 2, Digit::Five));
    assert!(!g.safe(0, 2, Digit::Three));
    assert!(!g.safe(0, 2, Digit::Seven));
    assert!(!g.safe(0, 2, Digit::Eight));
    assert!(!g.safe(0, 2, Digit::Six));
    assert!(!g.safe(0, 2, Digit::Nine));
    // the digit of a filled cell is not safe in the cell itself
    assert!(!g.safe(0, 0, Digit::Five));
}

#[test]
fn safe_looks_at_row_column_and_box() {
    safe_on_easy::<NaiveGrid>();
    safe_on_easy::<PackedGrid>();
}

#[test]
fn safe_sees_each_of_the_three_groups_alone() {
    let mut g = PackedGrid::new_zeroed();
    assert!(g.safe(4, 4, Digit::Seven));
    g.set_xy(4, 0, Some(Digit::Seven));
    assert!(!g.safe(4, 4, Digit::Seven));
    assert!(g.safe(3, 4, Digit::Seven));
    g.set_xy(4, 0, None);
    g.set_xy(8, 4, Some(Digit::Seven));
    assert!(!g.safe(4, 4, Digit::Seven));
    assert!(g.safe(4, 3, Digit::Seven));
    g.set_xy(8, 4, None);
    g.set_xy(3, 5, Some(Digit::Seven));
    assert!(!g.safe(4, 4, Digit::Seven));
    assert!(!g.safe(5, 3, Digit::Seven));
    assert!(g.safe(6, 3, Digit::Seven));
    assert!(g.safe(4, 6, Digit::Seven));
    assert!(g.safe(4, 4, Digit::Six));
}

fn solved_cases<G: Grid>() {
    let g = G::new_from_rows(EASY_SOLVED).unwrap();
    assert!(g.full());
    assert!(g.solved());
    assert!(g.solved());
    assert!(g.full());

    // one cell emptied
    let mut open = G::new_from_rows(EASY_SOLVED).unwrap();
    open.set_xy(8, 8, None);
    assert!(!open.full());
    assert!(!open.solved());

    // full, with a digit twice in row 0, column 1 and the first box
    let mut twice = EASY_SOLVED;
    twice[0][1] = 5;
    let g = G::new_from_rows(twice).unwrap();
    assert!(g.full());
    assert!(!g.solved());

    // full, every row and column a permutation, but not the boxes
    let mut shifted = [[0u8; 9]; 9];
    for row in 0..9 {
        for col in 0..9 {
            shifted[row][col] = ((row + col) % 9) as u8 + 1;
        }
    }
    let g = G::new_from_rows(shifted).unwrap();
    assert!(g.full());
    assert!(!g.solved());
    assert!(!g.solved());
}

#[test]
fn solved_asks_for_a_permutation_in_every_group() {
    solved_cases::<NaiveGrid>();
    solved_cases::<PackedGrid>();
}

fn solves_easy<G: Grid>() -> u64 {
    let mut g = G::new_from_rows(EASY).unwrap();
    let (solved, attempts) = g.brute_force();
    assert!(solved);
    assert!(attempts > 0);
    assert!(g.solved());
    assert_eq!(rows_of(&g), EASY_SOLVED);
    attempts
}

#[test]
fn brute_force_solves_the_easy_puzzle_alike_on_both_storages() {
    let naive = solves_easy::<NaiveGrid>();
    let packed = solves_easy::<PackedGrid>();
    assert_eq!(naive, 4208);
    assert_eq!(naive, packed);
    assert_eq!(solves_easy::<PackedGrid>(), packed);
}

#[test]
fn brute_force_on_the_classic_puzzle() {
    // the search is long here: the first row of the solution starts with the largest
    // digits, which are tried last
    let mut g = NaiveGrid::new_from_rows(CLASSIC).unwrap();
    let (solved, attempts) = g.brute_force();
    assert!(solved);
    assert!(attempts > 0);
    assert_eq!(attempts, 69_175_316);
    assert!(g.solved());
    for row in 0..9 {
        for col in 0..9 {
            if CLASSIC[row][col] != 0 {
                assert_eq!(number(g.get_xy(row, col)), CLASSIC[row][col]);
            }
        }
    }
    assert_eq!(rows_of(&g)[0], [9, 8, 7, 6, 5, 4, 3, 2, 1]);
}

fn fails_on_a_repeated_clue<G: Grid>() {
    // 5 stands twice in row 0; the last three cells are empty
    let mut mat = EASY_SOLVED;
    mat[0][1] = 5;
    mat[8][6] = 0;
    mat[8][7] = 0;
    mat[8][8] = 0;
    let mut g = G::new_from_rows(mat).unwrap();
    let (solved, attempts) = g.brute_force();
    assert!(!solved);
    assert_eq!(attempts, 3);
    assert_eq!(rows_of(&g), mat);
}

#[test]
fn brute_force_fails_on_a_digit_twice_in_a_row_and_restores_the_grid() {
    fails_on_a_repeated_clue::<NaiveGrid>();
    fails_on_a_repeated_clue::<PackedGrid>();

    let mut mat = EASY_SOLVED;
    mat[0][1] = 5;
    mat[8][6] = 0;
    mat[8][7] = 0;
    mat[8][8] = 0;
    let before = PackedGrid::new_from_rows(mat).unwrap();
    let mut g = before;
    assert_eq!(g.brute_force(), (false, 3));
    assert_eq!(g, before);
}

#[test]
fn packed_grid_is_equal_again_after_a_failed_search() {
    // the first row is full but for its last cell, whose column holds the missing digit
    let mut mat = [[0u8; 9]; 9];
    mat[0] = [1, 2, 3, 4, 5, 6, 7, 8, 0];
    mat[5][8] = 9;
    let before = PackedGrid::new_from_rows(mat).unwrap();
    let mut g = before;
    let (solved, attempts) = g.brute_force();
    assert!(!solved);
    assert_eq!(attempts, 0);
    assert_eq!(g, before);
}

fn one_cell_left<G: Grid>() {
    let mut g = G::new_from_rows(EASY_SOLVED).unwrap();
    g.set_xy(4, 4, None);
    let (solved, attempts) = g.brute_force();
    assert!(solved);
    assert_eq!(attempts, 1);
    assert_eq!(rows_of(&g), EASY_SOLVED);
}

#[test]
fn brute_force_needs_one_attempt_for_one_empty_cell() {
    one_cell_left::<NaiveGrid>();
    one_cell_left::<PackedGrid>();
}

#[test]
fn brute_force_counts_a_digit_that_it_takes_back() {
    // Row 0 has two empty cells and lacks 1 and 2. Every other cell holds 3, but for
    // one 2 in column 1.
    let mut mat = [[3u8; 9]; 9];
    mat[0] = [0, 0, 3, 4, 5, 6, 7, 8, 9];
    mat[5][1] = 2;
    let mut g = NaiveGrid::new_from_rows(mat).unwrap();
    let (solved, attempts) = g.brute_force();
    assert!(!solved);
    // cell 0 takes 1 (first attempt) and cell 1 then admits nothing; 1 is taken back,
    // cell 0 takes 2 (second) and cell 1 takes 1 (third); the full board is no solution
    assert_eq!(attempts, 3);
    assert_eq!(rows_of(&g), mat);

    let mut g = PackedGrid::new_from_rows(mat).unwrap();
    assert_eq!(g.brute_force(), (false, 3));
    assert_eq!(rows_of(&g), mat);
}

#[test]
fn brute_force_on_a_full_grid_writes_nothing() {
    let mut g = PackedGrid::new_from_rows(EASY_SOLVED).unwrap();
    assert_eq!(g.brute_force(), (true, 0));
    assert_eq!(rows_of(&g), EASY_SOLVED);

    let mut twice = EASY_SOLVED;
    twice[0][1] = 5;
    let mut g = PackedGrid::new_from_rows(twice).unwrap();
    assert_eq!(g.brute_force(), (false, 0));
    assert_eq!(rows_of(&g), twice);
}

#[test]
fn brute_force_with_count_adds_to_the_counter() {
    let mut g = PackedGrid::new_from_rows(EASY).unwrap();
    let (_, attempts) = g.brute_force();

    let mut g = PackedGrid::new_from_rows(EASY).unwrap();
    let mut num: u64 = 1000;
    assert!(g.brute_force_with_count(&mut num));
    assert_eq!(num, 1000 + attempts);
    assert_eq!(rows_of(&g), EASY_SOLVED);
}

#[test]
fn brute_force_with_count_stops_at_the_largest_number() {
    let mut g = PackedGrid::new_from_rows(EASY).unwrap();
    let mut num: u64 = u64::MAX - 1;
    assert!(g.brute_force_with_count(&mut num));
    assert_eq!(num, u64::MAX);
    assert_eq!(rows_of(&g), EASY_SOLVED);
}

#[test]
fn brute_force_finds_the_first_solution_of_the_empty_grid() {
    let mut g = PackedGrid::new_zeroed();
    let (solved, attempts) = g.brute_force();
    assert!(solved);
    assert_eq!(attempts, 391);
    assert!(g.solved());
    let rows = rows_of(&g);
    assert_eq!(rows[0], [1, 2, 3, 4, 5, 6, 7, 8, 9]);
    assert_eq!(rows[1], [4, 5, 6, 7, 8, 9, 1, 2, 3]);
    assert_eq!(rows[2], [7, 8, 9, 1, 2, 3, 4, 5, 6]);
}
