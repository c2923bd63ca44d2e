//! The backtracking search and the policies that pick its next cell.

use vstd::prelude::*;
use crate::sudoku::grid::{
    all_values, block_cells, block_of, candidate_seq, candidate_test, column_cells, is_candidate,
    is_solution_of, is_value, lex_le, row_cells, solvable, Grid,
};
use crate::sudoku::lemmas::{lemma_candidate_seq, lemma_filter_step};
use crate::sudoku::solver::search::search;
use crate::sudoku::Sudoku;

pub mod empty_cell_hash_map_most_restricted;
pub mod most_restricted_cell_first;
pub mod search;
pub mod simple_solver;

verus! {

/// The policy by which the search picks the cell it fills next.
pub enum SolverAlgorithm {
    /// The first empty cell in row-major order.
    Simple,
    /// The empty cell with the fewest candidates.
    MostRestricted,
}

impl Sudoku {
    /// Solves the board with the search policy asked for, and returns
    /// whether a solution was found. It is found exactly when the puzzle has
    /// one; the board then holds a solution that keeps every clue, and under
    /// the first-empty-cell policy the least one. When the puzzle has no
    /// solution the board is as it was.
    pub fn solve_sudoku(&mut self, algorithm: &SolverAlgorithm) -> (found: bool)
        requires
            old(self).wf(),
        ensures
            final(self).wf(),
            found <==> solvable(old(self)@),
            found ==> is_solution_of(final(self)@, old(self)@),
            found && algorithm is Simple ==> forall|s: Grid| #[trigger]
                is_solution_of(s, old(self)@) ==> lex_le(final(self)@, s),
            !found ==> final(self)@ == old(self)@,
            search(old(self)@, *algorithm) == if found {
                Some(final(self)@)
            } else {
                None::<Grid>
            },
    {
        match algorithm {
            SolverAlgorithm::Simple => self.simple_solver(),
            SolverAlgorithm::MostRestricted => self.solve_from_most_restricted_cell(),
        }
    }

    /// The digits that cell `(row, column)` can still take: those that occur
    /// neither in its row, nor in its column, nor in its block, in ascending
    /// order. The cell's own content counts as an occurrence, so the answer
    /// is meant for an empty cell.
    pub fn check_possible_values(&self, row: usize, column: usize) -> (values: Vec<char>)
        requires
            self.wf(),
            row < 9,
            column < 9,
        ensures
            values@ == candidate_seq(self@, row as int, column as int),
            forall|d: char|
                values@.contains(d) <==> is_candidate(self@, row as int, column as int, d),
    {
        let ghost r = row as int;
        let ghost c = column as int;
        let ghost test = candidate_test(self@, r, c);
        let digits = vec!['1', '2', '3', '4', '5', '6', '7', '8', '9'];
        let mut values: Vec<char> = Vec::new();
        proof {
            reveal(Seq::filter);
            assert(all_values().take(0) =~= Seq::<char>::empty());
        }
        for k in 0..9usize
            invariant
                self.wf(),
                row < 9,
                column < 9,
                r == row,
                c == column,
                test == candidate_test(self@, r, c),
                digits@ == all_values(),
                values@ == all_values().take(k as int).filter(test),
        {
            let digit = digits[k];
            let mut taken = false;
            for i in 0..9usize
                invariant
                    self.wf(),
                    row < 9,
                    column < 9,
                    r == row,
                    c == column,
                    taken ==> row_cells(self@, r).contains(digit)
                        || column_cells(self@, c).contains(digit)
                        || block_cells(self@, block_of(r, c)).contains(digit),
                    !taken ==> forall|j: int|
                        0 <= j < i ==> #[trigger] row_cells(self@, r)[j] != digit,
                    !taken ==> forall|j: int|
                        0 <= j < i ==> #[trigger] column_cells(self@, c)[j] != digit,
                    !taken ==> forall|j: int|
                        0 <= j < i ==> #[trigger] block_cells(self@, block_of(r, c))[j] != digit,
            {
                let row_value = self.cell(row, i);
                let col_value = self.cell(i, column);
                let block_value = self.cell(i % 3 + (row / 3) * 3, i / 3 + (column / 3) * 3);
                if row_value == digit || col_value == digit || block_value == digit {
                    proof {
                        let j = i as int;
                        assert(row_cells(self@, r)[j] == row_value);
                        assert(column_cells(self@, c)[j] == col_value);
                        assert(block_cells(self@, block_of(r, c))[j] == block_value);
                    }
                    taken = true;
                }
            }
            proof {
                lemma_filter_step(all_values(), test, k as int);
                assert(digit == all_values()[k as int]);
                assert(is_value(digit));
                assert(row_cells(self@, r).len() == 9);
                assert(test(digit) == is_candidate(self@, r, c, digit));
                assert(taken == !is_candidate(self@, r, c, digit));
            }
            if !taken {
                values.push(digit);
            }
        }
        proof {
            assert(all_values().take(9) =~= all_values());
            lemma_candidate_seq(self@, r, c);
        }
        values
    }
}

} // verus!
