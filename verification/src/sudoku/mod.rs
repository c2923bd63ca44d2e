//! The board and the operations on it.

use vstd::prelude::*;
use crate::sudoku::grid::{grid_of_line, is_digit, is_puzzle_line, place, well_formed, Grid};

pub mod checker;
pub mod display;
pub mod grid;
pub mod laws;
pub mod lemmas;
pub mod solver;

verus! {

/// A Sudoku board: nine rows of nine cells, each holding `'0'` (empty) or a
/// digit from `'1'` to `'9'`.
pub struct Sudoku {
    board: Vec<Vec<char>>,
}

impl View for Sudoku {
    type V = Grid;

    /// The board as a grid of the model.
    closed spec fn view(&self) -> Grid {
        Seq::new(self.board@.len(), |r: int| self.board@[r]@)
    }
}

impl Sudoku {
    /// The board has nine rows of nine digits. Every board that
    /// [`Sudoku::create_board`] hands out is well formed, and every operation
    /// keeps it so.
    pub open spec fn wf(&self) -> bool {
        well_formed(self@)
    }

    /// Builds the board from its row-major reading: character `i` of the line
    /// lands in row `i / 9`, column `i % 9`. A line that is not made of
    /// exactly 81 digits is turned down.
    pub fn create_board(sudoku_line: String) -> (result: Result<Sudoku, ()>)
        ensures
            result is Ok <==> is_puzzle_line(sudoku_line@),
            result matches Ok(sudoku) ==> sudoku.wf() && sudoku@ == grid_of_line(sudoku_line@),
    {
        let line = sudoku_line.as_str();
        if line.unicode_len() != 81 {
            return Err(());
        }
        let mut board: Vec<Vec<char>> = Vec::new();
        for r in 0..9usize
            invariant
                line@ == sudoku_line@,
                line@.len() == 81,
                board@.len() == r,
                forall|i: int| 0 <= i < r ==> (#[trigger] board@[i])@.len() == 9,
                forall|i: int, j: int|
                    0 <= i < r && 0 <= j < 9 ==> (#[trigger] board@[i]@[j]) == line@[i * 9 + j],
                forall|p: int| 0 <= p < r * 9 ==> is_digit(#[trigger] line@[p]),
        {
            let mut cells: Vec<char> = Vec::new();
            for c in 0..9usize
                invariant
                    r < 9,
                    line@ == sudoku_line@,
                    line@.len() == 81,
                    cells@.len() == c,
                    forall|j: int| 0 <= j < c ==> #[trigger] cells@[j] == line@[r * 9 + j],
                    forall|p: int| 0 <= p < r * 9 + c ==> is_digit(#[trigger] line@[p]),
            {
                let digit = line.get_char(r * 9 + c);
                if !('0' <= digit && digit <= '9') {
                    assert(!is_digit(line@[r * 9 + c]));
                    return Err(());
                }
                cells.push(digit);
            }
            board.push(cells);
        }
        let sudoku = Sudoku { board };
        assert(sudoku@ =~~= grid_of_line(sudoku_line@));
        Ok(sudoku)
    }

    /// The content of one cell.
    pub fn cell(&self, row: usize, column: usize) -> (digit: char)
        requires
            self.wf(),
            row < 9,
            column < 9,
        ensures
            digit == self@[row as int][column as int],
    {
        assert(self@[row as int] == self.board@[row as int]@);
        self.board[row][column]
    }

    /// Overwrites one cell and leaves the others as they are.
    pub(crate) fn set_cell(&mut self, row: usize, column: usize, digit: char)
        requires
            old(self).wf(),
            row < 9,
            column < 9,
            is_digit(digit),
        ensures
            final(self).wf(),
            final(self)@ == place(old(self)@, row as int, column as int, digit),
    {
        assert(self@[row as int] == self.board@[row as int]@);
        self.board[row][column] = digit;
        assert(self@ =~~= place(old(self)@, row as int, column as int, digit));
    }
}

} // verus!
