//! Backtracking over the empty cell with the fewest candidates.

use vstd::prelude::*;
use crate::sudoku::grid::{
    candidate_seq, empty_count, is_solution_of, is_value, solvable, well_formed, EMPTY, Grid,
};
use crate::sudoku::laws::lemma_search_meaning;
use crate::sudoku::lemmas::{
    lemma_candidate_seq, lemma_invalid_has_no_solution, lemma_place, lemma_place_empty_count,
    lemma_place_undo,
};
use crate::sudoku::solver::search::{
    empty_at, lemma_chosen_cell, lemma_scan_dead_end, lemma_scan_step, most_restricted_choice,
    options_at, scan_state, search, try_options,
};
use crate::sudoku::solver::SolverAlgorithm;
use crate::sudoku::Sudoku;

verus! {

impl Sudoku {
    /// Solves the board by backtracking over the most constrained cell.
    /// Returns whether a solution was found. If so, the board holds a
    /// solution of the puzzle; if not, the puzzle has none and the board is
    /// as it was. A board that already repeats a digit is given up at once.
    pub fn solve_from_most_restricted_cell(&mut self) -> (found: bool)
        requires
            old(self).wf(),
        ensures
            final(self).wf(),
            found <==> solvable(old(self)@),
            found ==> is_solution_of(final(self)@, old(self)@),
            !found ==> final(self)@ == old(self)@,
            search(old(self)@, SolverAlgorithm::MostRestricted) == if found {
                Some(final(self)@)
            } else {
                None::<Grid>
            },
    {
        if !self.check_correctness_of_sudoku() {
            proof {
                lemma_search_meaning(self@, SolverAlgorithm::MostRestricted);
                assert forall|s: Grid| !is_solution_of(s, self@) by {
                    lemma_invalid_has_no_solution(self@, s);
                }
            }
            return false;
        }
        self.fill_value_and_check_most_restricted().is_ok()
    }

    /// The search itself. If the board is solved, it is left alone.
    /// Otherwise the most constrained cell is filled with each of its
    /// candidates in ascending order, and the search goes on from there; a
    /// candidate that leads nowhere is taken back before the next is tried.
    ///
    /// The search succeeds exactly when the puzzle has a solution, and then
    /// leaves a solution on the board. When it fails, the board is as it
    /// was.
    pub fn fill_value_and_check_most_restricted(&mut self) -> (result: Result<(), ()>)
        requires
            old(self).wf(),
        ensures
            final(self).wf(),
            result is Ok <==> solvable(old(self)@),
            result is Ok ==> is_solution_of(final(self)@, old(self)@),
            result is Err ==> final(self)@ == old(self)@,
            search(old(self)@, SolverAlgorithm::MostRestricted) == if result is Ok {
                Some(final(self)@)
            } else {
                None::<Grid>
            },
        decreases empty_count(old(self)@),
    {
        let ghost start = self@;
        let ghost policy = SolverAlgorithm::MostRestricted;
        proof {
            lemma_search_meaning(start, policy);
        }
        if self.check_sudoku_completed() {
            return Ok(());
        }
        if let Ok((row_index, column_index, options)) = self.choose_most_restricted_value() {
            let ghost p = row_index * 9 + column_index;
            proof {
                lemma_chosen_cell(start, policy, p);
                lemma_candidate_seq(start, row_index as int, column_index as int);
            }
            for k in 0..options.len()
                invariant
                    start == old(self)@,
                    self@ == start,
                    well_formed(start),
                    policy == SolverAlgorithm::MostRestricted,
                    row_index < 9,
                    column_index < 9,
                    p == row_index * 9 + column_index,
                    empty_at(start, p),
                    forall|i: int| 0 <= i < options@.len() ==> is_value(#[trigger] options@[i]),
                    search(start, policy) == try_options(start, policy, p, options@, k as int),
            {
                let option = options[k];
                self.set_cell(row_index, column_index, option);
                proof {
                    lemma_place(start, row_index as int, column_index as int, option);
                    lemma_place_empty_count(start, row_index as int, column_index as int, option);
                }
                match self.fill_value_and_check_most_restricted() {
                    Ok(_) => {
                        proof {
                            lemma_search_meaning(start, policy);
                        }
                        return Ok(());
                    },
                    Err(_) => {
                        self.set_cell(row_index, column_index, EMPTY);
                        proof {
                            lemma_place_undo(start, row_index as int, column_index as int, option);
                        }
                    },
                };
            }
            proof {
                lemma_search_meaning(start, policy);
            }
            return Err(());
        } else {
            return Err(());
        }
    }

    /// Scans the empty cells from left to right and top to bottom for the
    /// one to fill next, and returns its row, its column and its candidates
    /// in ascending order. A cell with a single candidate is taken as soon
    /// as it is met; otherwise the first cell with the fewest candidates is
    /// taken. Fails as soon as a cell without a candidate is met, and on a
    /// board without an empty cell.
    pub fn choose_most_restricted_value(&self) -> (result: Result<(usize, usize, Vec<char>), ()>)
        requires
            self.wf(),
        ensures
            match result {
                Ok((row, column, options)) => {
                    &&& row < 9
                    &&& column < 9
                    &&& most_restricted_choice(self@, row * 9 + column)
                    &&& options@ == candidate_seq(self@, row as int, column as int)
                },
                Err(_) => forall|p: int| !most_restricted_choice(self@, p),
            },
    {
        let mut fewest_options_count: usize = 10;
        let mut fewest_options_values: (usize, usize, Vec<char>) = (10, 10, Vec::new());
        for i in 0..9usize
            invariant
                self.wf(),
                kept_so_far(self@, i * 9, fewest_options_count, fewest_options_values),
        {
            for j in 0..9usize
                invariant
                    self.wf(),
                    i < 9,
                    kept_so_far(self@, i * 9 + j, fewest_options_count, fewest_options_values),
            {
                let ghost here = i * 9 + j;
                assert(here / 9 == i && here % 9 == j);
                proof {
                    lemma_candidate_seq(self@, i as int, j as int);
                    lemma_scan_step(
                        self@,
                        here,
                        fewest_options_count as int,
                        fewest_options_values.0 as int,
                        fewest_options_values.1 as int,
                    );
                }
                if self.cell(i, j) == EMPTY {
                    let possible_values = self.check_possible_values(i, j);
                    if possible_values.len() == 0 {
                        proof {
                            lemma_scan_dead_end(
                                self@,
                                here,
                                fewest_options_count as int,
                                fewest_options_values.0 as int,
                                fewest_options_values.1 as int,
                            );
                        }
                        return Err(());
                    }
                    if possible_values.len() == 1 {
                        return Ok((i, j, possible_values));
                    }
                    if possible_values.len() < fewest_options_count {
                        fewest_options_count = possible_values.len();
                        fewest_options_values = (i, j, possible_values);
                    }
                }
            }
        }
        if fewest_options_count < 10 {
            return Ok(fewest_options_values);
        }
        Err(())
    }
}

/// The scan's state, and the candidates kept with the cell.
pub open spec fn kept_so_far(
    g: Grid,
    n: int,
    count: usize,
    kept: (usize, usize, Vec<char>),
) -> bool {
    &&& scan_state(g, n, count as int, kept.0 as int, kept.1 as int)
    &&& count < 10 ==> kept.2@ == options_at(g, kept.0 * 9 + kept.1)
}

} // verus!
