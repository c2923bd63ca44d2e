//! Backtracking over the first empty cell.

use vstd::prelude::*;
use crate::sudoku::grid::{
    candidate_seq, empty_count, is_solution_of, is_value, lex_le, solvable, well_formed, EMPTY,
    Grid,
};
use crate::sudoku::laws::lemma_search_meaning;
use crate::sudoku::lemmas::{
    lemma_candidate_seq, lemma_invalid_has_no_solution, lemma_place, lemma_place_empty_count,
    lemma_place_undo,
};
use crate::sudoku::solver::search::{
    empty_at, first_empty_choice, is_first_empty, lemma_chosen_cell, search, try_options,
};
use crate::sudoku::solver::SolverAlgorithm;
use crate::sudoku::Sudoku;

verus! {

impl Sudoku {
    /// Solves the board by backtracking over the first empty cell. Returns
    /// whether a solution was found. If so, the board holds the least
    /// solution of the puzzle; if not, the puzzle has none and the board is
    /// as it was. A board that already repeats a digit is given up at once.
    pub fn simple_solver(&mut self) -> (found: bool)
        requires
            old(self).wf(),
        ensures
            final(self).wf(),
            found <==> solvable(old(self)@),
            found ==> is_solution_of(final(self)@, old(self)@),
            found ==> forall|s: Grid| #[trigger]
                is_solution_of(s, old(self)@) ==> lex_le(final(self)@, s),
            !found ==> final(self)@ == old(self)@,
            search(old(self)@, SolverAlgorithm::Simple) == if found {
                Some(final(self)@)
            } else {
                None::<Grid>
            },
    {
        if !self.check_correctness_of_sudoku() {
            proof {
                lemma_search_meaning(self@, SolverAlgorithm::Simple);
                assert forall|s: Grid| !is_solution_of(s, self@) by {
                    lemma_invalid_has_no_solution(self@, s);
                }
            }
            return false;
        }
        self.fill_value_and_check().is_ok()
    }

    /// The search itself. If the board is solved, it is left alone.
    /// Otherwise the first empty cell is filled with each of its candidates
    /// in ascending order, and the search goes on from there; a candidate
    /// that leads nowhere is taken back before the next is tried.
    ///
    /// The search succeeds exactly when the puzzle has a solution, and then
    /// leaves the least solution on the board. When it fails, the board is
    /// as it was.
    pub fn fill_value_and_check(&mut self) -> (result: Result<(), ()>)
        requires
            old(self).wf(),
        ensures
            final(self).wf(),
            result is Ok <==> solvable(old(self)@),
            result is Ok ==> is_solution_of(final(self)@, old(self)@),
            result is Ok ==> forall|s: Grid| #[trigger]
                is_solution_of(s, old(self)@) ==> lex_le(final(self)@, s),
            result is Err ==> final(self)@ == old(self)@,
            search(old(self)@, SolverAlgorithm::Simple) == if result is Ok {
                Some(final(self)@)
            } else {
                None::<Grid>
            },
        decreases empty_count(old(self)@),
    {
        let ghost start = self@;
        let ghost policy = SolverAlgorithm::Simple;
        proof {
            lemma_search_meaning(start, policy);
        }
        if self.check_sudoku_completed() {
            return Ok(());
        }
        if let Ok((row_index, column_index, options)) = self.choose_first_possible_value() {
            let ghost p = row_index * 9 + column_index;
            proof {
                lemma_chosen_cell(start, policy, p);
                lemma_candidate_seq(start, row_index as int, column_index as int);
            }
            for k in 0..options.len()
                invariant
                    start == old(self)@,
                    self@ == start,
                    well_formed(start),
                    policy == SolverAlgorithm::Simple,
                    row_index < 9,
                    column_index < 9,
                    p == row_index * 9 + column_index,
                    empty_at(start, p),
                    forall|i: int| 0 <= i < options@.len() ==> is_value(#[trigger] options@[i]),
                    search(start, policy) == try_options(start, policy, p, options@, k as int),
            {
                let option = options[k];
                self.set_cell(row_index, column_index, option);
                proof {
                    lemma_place(start, row_index as int, column_index as int, option);
                    lemma_place_empty_count(start, row_index as int, column_index as int, option);
                }
                match self.fill_value_and_check() {
                    Ok(_) => {
                        proof {
                            lemma_search_meaning(start, policy);
                        }
                        return Ok(());
                    },
                    Err(_) => {
                        self.set_cell(row_index, column_index, EMPTY);
                        proof {
                            lemma_place_undo(start, row_index as int, column_index as int, option);
                        }
                    },
                };
            }
            proof {
                lemma_search_meaning(start, policy);
            }
            return Err(());
        } else {
            return Err(());
        }
    }

    /// Finds the first empty cell, from left to right and top to bottom, and
    /// returns its row, its column and its candidates in ascending order.
    /// Fails if the board has no empty cell, or if the first empty cell has
    /// no candidate.
    pub fn choose_first_possible_value(&self) -> (result: Result<(usize, usize, Vec<char>), ()>)
        requires
            self.wf(),
        ensures
            match result {
                Ok((row, column, options)) => {
                    &&& row < 9
                    &&& column < 9
                    &&& first_empty_choice(self@, row * 9 + column)
                    &&& options@ == candidate_seq(self@, row as int, column as int)
                },
                Err(_) => forall|p: int| !first_empty_choice(self@, p),
            },
    {
        for i in 0..9usize
            invariant
                self.wf(),
                forall|q: int| 0 <= q < i * 9 ==> !empty_at(self@, q),
        {
            for j in 0..9usize
                invariant
                    self.wf(),
                    i < 9,
                    forall|q: int| 0 <= q < i * 9 + j ==> !empty_at(self@, q),
            {
                if self.cell(i, j) == EMPTY {
                    let possible_values = self.check_possible_values(i, j);
                    let ghost here = i * 9 + j;
                    assert(here / 9 == i && here % 9 == j);
                    assert(empty_at(self@, here));
                    if possible_values.len() != 0 {
                        return Ok((i, j, possible_values));
                    } else {
                        assert forall|p: int| !first_empty_choice(self@, p) by {
                            if p > here {
                                assert(!is_first_empty(self@, p));
                            }
                        }
                        return Err(());
                    }
                }
            }
        }
        Err(())
    }
}

} // verus!
