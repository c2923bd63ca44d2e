//! Validity and completeness of a board.

use vstd::prelude::*;
use crate::sudoku::grid::{
    block_cells, block_valid, column_cells, column_valid, filled, has_duplicate, row_valid, solved,
    valid, EMPTY,
};
use crate::sudoku::Sudoku;

verus! {

impl Sudoku {
    /// Whether the cells of block `index` hold no digit twice. Blocks are
    /// numbered left to right, top to bottom.
    pub fn check_block_correctness(&self, index: usize) -> (ok: bool)
        requires
            self.wf(),
            index < 9,
        ensures
            ok == block_valid(self@, index as int),
    {
        let mut cells: Vec<char> = Vec::new();
        for i in 0..9usize
            invariant
                self.wf(),
                index < 9,
                cells@.len() == i,
                forall|k: int|
                    0 <= k < i ==> #[trigger] cells@[k] == block_cells(self@, index as int)[k],
        {
            let digit = self.cell(i % 3 + (index / 3) * 3, i / 3 + (index % 3) * 3);
            cells.push(digit);
        }
        assert(cells@ =~= block_cells(self@, index as int));
        let dups = Sudoku::check_duplicates_in_slice(&cells);
        !dups
    }

    /// Whether row `index` holds no digit twice.
    pub fn check_row_correctness(&self, index: usize) -> (ok: bool)
        requires
            self.wf(),
            index < 9,
        ensures
            ok == row_valid(self@, index as int),
    {
        assert(self@[index as int] == self.board@[index as int]@);
        let cells = &self.board[index];
        let dups = Sudoku::check_duplicates_in_slice(cells);
        !dups
    }

    /// Whether column `index` holds no digit twice.
    pub fn check_column_correctness(&self, index: usize) -> (ok: bool)
        requires
            self.wf(),
            index < 9,
        ensures
            ok == column_valid(self@, index as int),
    {
        let mut cells: Vec<char> = Vec::new();
        for i in 0..9usize
            invariant
                self.wf(),
                index < 9,
                cells@.len() == i,
                forall|k: int|
                    0 <= k < i ==> #[trigger] cells@[k] == column_cells(self@, index as int)[k],
        {
            let digit = self.cell(i, index);
            cells.push(digit);
        }
        assert(cells@ =~= column_cells(self@, index as int));
        let dups = Sudoku::check_duplicates_in_slice(&cells);
        !dups
    }

    /// Whether some filled cell of `slice` occurs again later in it. Empty
    /// cells are skipped: they never make a duplicate.
    pub fn check_duplicates_in_slice(slice: &Vec<char>) -> (dups: bool)
        ensures
            dups == has_duplicate(slice@),
    {
        let n = slice.len();
        for i in 0..n
            invariant
                n == slice@.len(),
                forall|a: int, b: int|
                    #![trigger slice@[a], slice@[b]]
                    0 <= a < i && a < b < n ==> !(slice@[a] != EMPTY && slice@[a] == slice@[b]),
        {
            if slice[i] != EMPTY {
                for j in (i + 1)..n
                    invariant
                        i < n,
                        n == slice@.len(),
                        slice@[i as int] != EMPTY,
                        forall|b: int| i < b < j ==> slice@[i as int] != #[trigger] slice@[b],
                {
                    if slice[j] == slice[i] {
                        return true;
                    }
                }
            }
        }
        false
    }

    /// Whether no row, column or block holds a digit twice. A board with
    /// empty cells can pass.
    pub fn check_correctness_of_sudoku(&self) -> (ok: bool)
        requires
            self.wf(),
        ensures
            ok == valid(self@),
    {
        for index in 0..9usize
            invariant
                self.wf(),
                forall|k: int|
                    #![trigger row_valid(self@, k)]
                    #![trigger column_valid(self@, k)]
                    #![trigger block_valid(self@, k)]
                    0 <= k < index ==> row_valid(self@, k) && column_valid(self@, k)
                        && block_valid(self@, k),
        {
            if !self.check_row_correctness(index) {
                return false;
            }
            if !self.check_block_correctness(index) {
                return false;
            }
            if !self.check_column_correctness(index) {
                return false;
            }
        }
        true
    }

    /// Whether no cell is empty.
    pub fn check_sudoku_is_filled(&self) -> (full: bool)
        requires
            self.wf(),
        ensures
            full == filled(self@),
    {
        for r in 0..9usize
            invariant
                self.wf(),
                forall|i: int, j: int| 0 <= i < r && 0 <= j < 9 ==> #[trigger] self@[i][j] != EMPTY,
        {
            for c in 0..9usize
                invariant
                    self.wf(),
                    r < 9,
                    forall|i: int, j: int|
                        0 <= i < r && 0 <= j < 9 ==> #[trigger] self@[i][j] != EMPTY,
                    forall|j: int| 0 <= j < c ==> #[trigger] self@[r as int][j] != EMPTY,
            {
                if self.cell(r, c) == EMPTY {
                    return false;
                }
            }
        }
        true
    }

    /// Whether the board is solved: full, with no digit twice in any row,
    /// column or block.
    pub fn check_sudoku_completed(&self) -> (done: bool)
        requires
            self.wf(),
        ensures
            done == solved(self@),
    {
        self.check_sudoku_is_filled() && self.check_correctness_of_sudoku()
    }
}

} // verus!
