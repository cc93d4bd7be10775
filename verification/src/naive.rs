//! The plain storage: one slot for each cell.

use vstd::prelude::*;
use crate::board::{empty_board, Cells};
use crate::digit::Digit;
use crate::grid::Grid;

verus! {

/// A grid that keeps each of its 81 cells in a slot of its own.
pub struct NaiveGrid([Option<Digit>; 81]);

impl Grid for NaiveGrid {
    closed spec fn view(&self) -> Cells {
        self.0@
    }

    proof fn lemma_view_len(&self) {
    }

    fn new_zeroed() -> (grid: NaiveGrid) {
        let slots: [Option<Digit>; 81] = [
            None, None, None, None, None, None, None, None, None,
            None, None, None, None, None, None, None, None, None,
            None, None, None, None, None, None, None, None, None,
            None, None, None, None, None, None, None, None, None,
            None, None, None, None, None, None, None, None, None,
            None, None, None, None, None, None, None, None, None,
            None, None, None, None, None, None, None, None, None,
            None, None, None, None, None, None, None, None, None,
            None, None, None, None, None, None, None, None, None,
        ];
        assert(slots@ =~= empty_board());
        NaiveGrid(slots)
    }

    #[inline]
    fn get(&self, idx: usize) -> (cell: Option<Digit>) {
        self.0[idx]
    }

    #[inline]
    fn set(&mut self, idx: usize, val: Option<Digit>) {
        self.0[idx] = val;
    }
}

} // verus!
