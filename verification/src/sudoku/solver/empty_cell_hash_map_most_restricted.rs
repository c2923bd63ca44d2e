//! Backtracking over the most constrained cell, with the candidates of the
//! empty cells kept in a map instead of being computed anew at every step.
//!
//! The map is keyed by the position of a cell in the row-major reading of
//! the board, `row * 9 + column`, and holds the cell's candidates in
//! ascending order.

use std::collections::HashMap;
use vstd::prelude::*;
use crate::sudoku::grid::{
    ascending, block_of, empty_count, index_in_block, is_solution_of, is_value, on_board, peers,
    place, solvable, solved, well_formed, EMPTY, Grid,
};
use crate::sudoku::laws::lemma_search_meaning;
use crate::sudoku::lemmas::{
    lemma_ascending_unique, lemma_candidate_seq, lemma_candidates_after_place,
    lemma_invalid_has_no_solution, lemma_place, lemma_place_empty_count, lemma_place_undo,
};
use crate::sudoku::solver::search::{
    empty_at, lemma_chosen_cell, lemma_scan_dead_end, lemma_scan_step, most_restricted_choice,
    option_count, options_at, scan_state, search, try_options,
};
use crate::sudoku::solver::SolverAlgorithm;
use crate::sudoku::Sudoku;

verus! {

broadcast use vstd::std_specs::hash::group_hash_axioms;

/// The map is up to date: each entry belongs to an empty cell and holds the
/// cell's candidates, and an empty cell without an entry has no candidate.
/// An entry may hold an empty list.
pub open spec fn tracks(g: Grid, m: Map<usize, Vec<char>>) -> bool {
    &&& forall|p: usize| #[trigger]
        m.contains_key(p) ==> empty_at(g, p as int) && m[p]@ == options_at(g, p as int)
    &&& forall|p: usize|
        #![trigger empty_at(g, p as int)]
        empty_at(g, p as int) && !m.contains_key(p) ==> option_count(g, p as int) == 0
}

/// The map while it is brought up to date after cell `(r, c)` of `h` was
/// filled: it holds nothing for that cell, and for each other cell either
/// the candidates it had before the cell was filled or those it has now.
pub open spec fn catching_up(h: Grid, m: Map<usize, Vec<char>>, r: int, c: int) -> bool {
    let g = place(h, r, c, EMPTY);
    &&& forall|p: usize| #[trigger]
        m.contains_key(p) ==> empty_at(h, p as int)
            && (m[p]@ == options_at(g, p as int) || m[p]@ == options_at(h, p as int))
    &&& forall|p: usize|
        #![trigger empty_at(h, p as int)]
        empty_at(h, p as int) && !m.contains_key(p) ==> option_count(g, p as int) == 0
}

/// The cell at position `p` is among the first `n` cells of the row, of the
/// column or of the block of cell `(r, c)`.
pub open spec fn among_first(p: int, r: int, c: int, n: int) -> bool {
    ||| p / 9 == r && p % 9 < n
    ||| p % 9 == c && p / 9 < n
    ||| block_of(p / 9, p % 9) == block_of(r, c) && index_in_block(p / 9, p % 9) < n
}

/// The entry of the cell at position `p`, if the map has one, is up to date.
pub open spec fn settled(h: Grid, m: Map<usize, Vec<char>>, p: usize) -> bool {
    m.contains_key(p) ==> m[p]@ == options_at(h, p as int)
}

impl Sudoku {
    /// Solves the board by backtracking over the most constrained cell,
    /// keeping the candidates of the empty cells in a map. Returns whether a
    /// solution was found. If so, the board holds a solution of the puzzle,
    /// the same one that [`Sudoku::solve_from_most_restricted_cell`] finds;
    /// if not, the puzzle has none and the board is as it was. A board that
    /// already repeats a digit is given up at once.
    pub fn solve_with_storing_empty_cell_options(&mut self) -> (found: bool)
        requires
            old(self).wf(),
        ensures
            final(self).wf(),
            found <==> solvable(old(self)@),
            found ==> is_solution_of(final(self)@, old(self)@),
            !found ==> final(self)@ == old(self)@,
            search(old(self)@, SolverAlgorithm::MostRestricted) == if found {
                Some(final(self)@)
            } else {
                None::<Grid>
            },
    {
        if !self.check_correctness_of_sudoku() {
            proof {
                lemma_search_meaning(self@, SolverAlgorithm::MostRestricted);
                assert forall|s: Grid| !is_solution_of(s, self@) by {
                    lemma_invalid_has_no_solution(self@, s);
                }
            }
            return false;
        }
        let mut possible_value_map = self.create_hash_map_of_all_possible_values();
        self.pick_values_from_possible_values_map(&mut possible_value_map).is_ok()
    }

    /// The search itself, on a board whose candidates the map holds. When
    /// the map is empty, the board is solved or beyond help. Otherwise the
    /// most constrained cell is taken out of the map and filled with each of
    /// its candidates in ascending order; the map is brought up to date and
    /// the search goes on from there. A candidate that leads nowhere is
    /// taken back, and the map is put back as it was.
    ///
    /// The search succeeds exactly when the puzzle has a solution, and then
    /// leaves a solution on the board. When it fails, the board is as it
    /// was. Nothing is promised of the map afterwards.
    fn pick_values_from_possible_values_map(
        &mut self,
        possible_value_map: &mut HashMap<usize, Vec<char>>,
    ) -> (result: Result<(), ()>)
        requires
            old(self).wf(),
            tracks(old(self)@, old(possible_value_map)@),
        ensures
            final(self).wf(),
            result is Ok <==> solvable(old(self)@),
            result is Ok ==> is_solution_of(final(self)@, old(self)@),
            result is Err ==> final(self)@ == old(self)@,
            search(old(self)@, SolverAlgorithm::MostRestricted) == if result is Ok {
                Some(final(self)@)
            } else {
                None::<Grid>
            },
        decreases empty_count(old(self)@),
    {
        let ghost start = self@;
        let ghost policy = SolverAlgorithm::MostRestricted;
        proof {
            lemma_search_meaning(start, policy);
        }
        if possible_value_map.len() > 0 {
            proof {
                lemma_entry_means_unsolved(start, possible_value_map@);
            }
            let (row, col) = match self.get_cell_with_fewest_options(possible_value_map) {
                Ok(cell_index) => cell_index,
                Err(_) => {
                    return Err(());
                },
            };
            let key = row * 9 + col;
            let ghost p = key as int;
            assert(p / 9 == row && p % 9 == col);
            let possible_values = possible_value_map.remove(&key).unwrap();
            proof {
                lemma_chosen_cell(start, policy, p);
                lemma_candidate_seq(start, row as int, col as int);
            }
            for k in 0..possible_values.len()
                invariant
                    start == old(self)@,
                    self@ == start,
                    well_formed(start),
                    policy == SolverAlgorithm::MostRestricted,
                    row < 9,
                    col < 9,
                    key == row * 9 + col,
                    p == key,
                    empty_at(start, p),
                    possible_values@ == options_at(start, p),
                    forall|i: int|
                        0 <= i < possible_values@.len()
                            ==> is_value(#[trigger] possible_values@[i]),
                    !possible_value_map@.contains_key(key),
                    tracks(start, possible_value_map@.insert(key, possible_values)),
                    search(start, policy)
                        == try_options(start, policy, p, possible_values@, k as int),
            {
                let possible_value = possible_values[k];
                let saved_map = possible_value_map.clone();
                self.set_cell(row, col, possible_value);
                proof {
                    lemma_place(start, row as int, col as int, possible_value);
                    lemma_place_empty_count(start, row as int, col as int, possible_value);
                    lemma_entry_taken_out(
                        start,
                        possible_value_map@,
                        key,
                        possible_values,
                        possible_value,
                    );
                }
                self.update_possible_value_map_after_selection(
                    possible_value_map,
                    (row, col),
                    possible_value,
                );
                match self.pick_values_from_possible_values_map(possible_value_map) {
                    Ok(_) => {
                        proof {
                            lemma_search_meaning(start, policy);
                        }
                        return Ok(());
                    },
                    Err(_) => {
                        self.set_cell(row, col, EMPTY);
                        *possible_value_map = saved_map;
                        proof {
                            lemma_place_undo(start, row as int, col as int, possible_value);
                        }
                    },
                };
            }
            proof {
                lemma_search_meaning(start, policy);
            }
            return Err(());
        } else if self.check_sudoku_completed() {
            return Ok(());
        }
        proof {
            assert forall|q: int| !most_restricted_choice(start, q) by {
                if most_restricted_choice(start, q) {
                    assert(empty_at(start, (q as usize) as int));
                }
            }
        }
        Err(())
    }

    /// Computes the candidates of every empty cell and stores those of the
    /// cells that have any: a cell has an entry exactly when it is empty and
    /// has a candidate.
    fn create_hash_map_of_all_possible_values(&self) -> (possible_value_map: HashMap<
        usize,
        Vec<char>,
    >)
        requires
            self.wf(),
        ensures
            tracks(self@, possible_value_map@),
            forall|p: usize| #[trigger]
                possible_value_map@.contains_key(p)
                    <==> empty_at(self@, p as int) && option_count(self@, p as int) > 0,
    {
        let mut possible_value_map: HashMap<usize, Vec<char>> = HashMap::new();
        for i in 0..9usize
            invariant
                self.wf(),
                tracks_first(self@, possible_value_map@, i * 9),
        {
            for j in 0..9usize
                invariant
                    self.wf(),
                    i < 9,
                    tracks_first(self@, possible_value_map@, i * 9 + j),
            {
                let ghost here = i * 9 + j;
                assert(here / 9 == i && here % 9 == j);
                if self.cell(i, j) == EMPTY {
                    let possible_values = self.check_possible_values(i, j);
                    if possible_values.len() != 0 {
                        possible_value_map.insert(i * 9 + j, possible_values);
                    }
                }
            }
        }
        possible_value_map
    }

    /// Scans the empty cells from left to right and top to bottom for the
    /// one to fill next, reading the number of candidates of each from the
    /// map. A cell with a single candidate is taken as soon as it is met;
    /// otherwise the first cell with the fewest candidates is taken. Fails
    /// as soon as a cell without a candidate is met, and on a board without
    /// an empty cell.
    fn get_cell_with_fewest_options(
        &self,
        possible_value_map: &HashMap<usize, Vec<char>>,
    ) -> (result: Result<(usize, usize), ()>)
        requires
            self.wf(),
            tracks(self@, possible_value_map@),
        ensures
            match result {
                Ok((row, column)) => {
                    &&& row < 9
                    &&& column < 9
                    &&& most_restricted_choice(self@, row * 9 + column)
                    &&& possible_value_map@.contains_key((row * 9 + column) as usize)
                    &&& possible_value_map@[(row * 9 + column) as usize]@
                        == options_at(self@, row * 9 + column)
                },
                Err(_) => forall|p: int| !most_restricted_choice(self@, p),
            },
    {
        let mut fewest_option_count: usize = 10;
        let mut cell_with_fewest_possibilities: (usize, usize) = (0, 0);
        for i in 0..9usize
            invariant
                self.wf(),
                tracks(self@, possible_value_map@),
                scan_state(
                    self@,
                    i * 9,
                    fewest_option_count as int,
                    cell_with_fewest_possibilities.0 as int,
                    cell_with_fewest_possibilities.1 as int,
                ),
        {
            for j in 0..9usize
                invariant
                    self.wf(),
                    i < 9,
                    tracks(self@, possible_value_map@),
                    scan_state(
                        self@,
                        i * 9 + j,
                        fewest_option_count as int,
                        cell_with_fewest_possibilities.0 as int,
                        cell_with_fewest_possibilities.1 as int,
                    ),
            {
                let key = i * 9 + j;
                let ghost here = key as int;
                assert(here / 9 == i && here % 9 == j);
                proof {
                    lemma_candidate_seq(self@, i as int, j as int);
                    lemma_scan_step(
                        self@,
                        here,
                        fewest_option_count as int,
                        cell_with_fewest_possibilities.0 as int,
                        cell_with_fewest_possibilities.1 as int,
                    );
                }
                if self.cell(i, j) == EMPTY {
                    assert(empty_at(self@, key as int));
                    let count = match possible_value_map.get(&key) {
                        Some(possibilities) => possibilities.len(),
                        None => 0,
                    };
                    assert(count == option_count(self@, here));
                    if count == 0 {
                        proof {
                            lemma_scan_dead_end(
                                self@,
                                here,
                                fewest_option_count as int,
                                cell_with_fewest_possibilities.0 as int,
                                cell_with_fewest_possibilities.1 as int,
                            );
                        }
                        return Err(());
                    }
                    if count == 1 {
                        return Ok((i, j));
                    }
                    if count < fewest_option_count {
                        fewest_option_count = count;
                        cell_with_fewest_possibilities = (i, j);
                    }
                }
            }
        }
        if fewest_option_count < 10 {
            proof {
                let best = (cell_with_fewest_possibilities.0 * 9
                    + cell_with_fewest_possibilities.1) as usize;
                assert(empty_at(self@, best as int));
            }
            return Ok(cell_with_fewest_possibilities);
        }
        Err(())
    }

    /// Brings the map up to date after cell `cell_index` was filled with
    /// `choice`: the digit is struck from the candidates of every cell in
    /// the same row, column or block. No entry is added or taken out, not
    /// even one whose list becomes empty, and the lists of all other cells
    /// stay as they are.
    fn update_possible_value_map_after_selection(
        &self,
        possible_value_map: &mut HashMap<usize, Vec<char>>,
        cell_index: (usize, usize),
        choice: char,
    )
        requires
            self.wf(),
            cell_index.0 < 9,
            cell_index.1 < 9,
            is_value(choice),
            self@[cell_index.0 as int][cell_index.1 as int] == choice,
            catching_up(self@, old(possible_value_map)@, cell_index.0 as int, cell_index.1 as int),
        ensures
            tracks(self@, final(possible_value_map)@),
            final(possible_value_map)@.dom() == old(possible_value_map)@.dom(),
            forall|p: usize, d: char|
                #![trigger final(possible_value_map)@[p]@.contains(d)]
                old(possible_value_map)@.contains_key(p) ==> (
                    final(possible_value_map)@[p]@.contains(d)
                        <==> old(possible_value_map)@[p]@.contains(d) && !(d == choice && peers(
                        p as int / 9,
                        p as int % 9,
                        cell_index.0 as int,
                        cell_index.1 as int,
                    ))
                ),
    {
        let (row, col) = cell_index;
        let ghost r = row as int;
        let ghost c = col as int;
        for i in 0..9usize
            invariant
                self.wf(),
                row < 9,
                col < 9,
                r == row,
                c == col,
                cell_index == (row, col),
                is_value(choice),
                self@[r][c] == choice,
                catching_up(self@, old(possible_value_map)@, r, c),
                catching_up(self@, possible_value_map@, r, c),
                possible_value_map@.dom() == old(possible_value_map)@.dom(),
                forall|p: usize|
                    #![trigger possible_value_map@.contains_key(p)]
                    among_first(p as int, r, c, i as int)
                        ==> settled(self@, possible_value_map@, p),
        {
            let ghost entering = possible_value_map@;
            self.strike(possible_value_map, (row, col), (row, i), choice);
            self.strike(possible_value_map, (row, col), (i, col), choice);
            self.strike(
                possible_value_map,
                (row, col),
                (i % 3 + (row / 3) * 3, i / 3 + (col / 3) * 3),
                choice,
            );
            proof {
                assert forall|p: usize|
                    #![trigger possible_value_map@.contains_key(p)]
                    among_first(p as int, r, c, i + 1)
                    implies settled(self@, possible_value_map@, p) by {
                    if possible_value_map@.contains_key(p) {
                        assert(empty_at(self@, p as int));
                        if among_first(p as int, r, c, i as int) {
                            assert(entering.contains_key(p));
                            assert(settled(self@, entering, p));
                        } else {
                            lemma_among_first_next(p as int, r, c, i as int);
                        }
                    }
                }
            }
        }
        proof {
            lemma_caught_up(self@, possible_value_map@, r, c);
            lemma_struck(self@, old(possible_value_map)@, possible_value_map@, r, c);
        }
    }

    /// Strikes `choice` from the candidates that the map holds for cell
    /// `at`, which shares a row, a column or a block with the cell
    /// `cell_index` that was just filled with it.
    fn strike(
        &self,
        possible_value_map: &mut HashMap<usize, Vec<char>>,
        cell_index: (usize, usize),
        at: (usize, usize),
        choice: char,
    )
        requires
            self.wf(),
            cell_index.0 < 9,
            cell_index.1 < 9,
            at.0 < 9,
            at.1 < 9,
            at.0 == cell_index.0 || at.1 == cell_index.1
                || (at.0 / 3 == cell_index.0 / 3 && at.1 / 3 == cell_index.1 / 3),
            is_value(choice),
            self@[cell_index.0 as int][cell_index.1 as int] == choice,
            catching_up(self@, old(possible_value_map)@, cell_index.0 as int, cell_index.1 as int),
        ensures
            catching_up(
                self@,
                final(possible_value_map)@,
                cell_index.0 as int,
                cell_index.1 as int,
            ),
            settled(self@, final(possible_value_map)@, (at.0 * 9 + at.1) as usize),
            forall|p: usize|
                #![trigger final(possible_value_map)@.contains_key(p)]
                settled(self@, old(possible_value_map)@, p)
                    ==> settled(self@, final(possible_value_map)@, p),
            final(possible_value_map)@.dom() == old(possible_value_map)@.dom(),
    {
        let ghost r = cell_index.0 as int;
        let ghost c = cell_index.1 as int;
        let ghost before = place(self@, r, c, EMPTY);
        let key = at.0 * 9 + at.1;
        assert(key as int / 9 == at.0 && key as int % 9 == at.1);
        match possible_value_map.remove(&key) {
            Some(mut options) => {
                proof {
                    lemma_place(self@, r, c, EMPTY);
                    assert(place(before, r, c, choice) =~~= self@);
                    lemma_candidate_seq(self@, at.0 as int, at.1 as int);
                    lemma_candidate_seq(before, at.0 as int, at.1 as int);
                }
                remove_option(&mut options, choice);
                proof {
                    assert forall|d: char|
                        options@.contains(d) <==> options_at(self@, key as int).contains(d) by {
                        lemma_candidates_after_place(
                            before,
                            r,
                            c,
                            choice,
                            at.0 as int,
                            at.1 as int,
                            d,
                        );
                    }
                    lemma_ascending_unique(options@, options_at(self@, key as int));
                }
                possible_value_map.insert(key, options);
                proof {
                    assert(final(possible_value_map)@.dom() =~= old(possible_value_map)@.dom());
                }
            },
            None => {
                proof {
                    assert(final(possible_value_map)@ =~= old(possible_value_map)@);
                }
            },
        }
    }
}

/// The map holds the candidates of those of the first `n` cells that are
/// empty and have any, and nothing else.
pub open spec fn tracks_first(g: Grid, m: Map<usize, Vec<char>>, n: int) -> bool {
    &&& forall|p: usize| #[trigger]
        m.contains_key(p) ==> p < n && empty_at(g, p as int) && m[p]@ == options_at(g, p as int)
            && option_count(g, p as int) > 0
    &&& forall|p: usize|
        #![trigger empty_at(g, p as int)]
        p < n && empty_at(g, p as int) && !m.contains_key(p) ==> option_count(g, p as int)
            == 0
}

/// A map that is up to date and holds an entry belongs to a board with an
/// empty cell: the board is not solved.
proof fn lemma_entry_means_unsolved(g: Grid, m: Map<usize, Vec<char>>)
    requires
        tracks(g, m),
        m.dom().finite(),
        m.len() > 0,
    ensures
        !solved(g),
{
    if forall|k: usize| !m.contains_key(k) {
        assert(m.dom() =~= Set::<usize>::empty());
    }
    let k = choose|k: usize| m.contains_key(k);
    assert(empty_at(g, k as int));
    assert(on_board(k as int / 9, k as int % 9));
}

/// When the entry of an empty cell has been taken out of a map that was up
/// to date, and the cell is filled, the map is ready to be brought up to
/// date again.
proof fn lemma_entry_taken_out(
    g: Grid,
    m: Map<usize, Vec<char>>,
    key: usize,
    options: Vec<char>,
    d: char,
)
    requires
        well_formed(g),
        empty_at(g, key as int),
        is_value(d),
        !m.contains_key(key),
        tracks(g, m.insert(key, options)),
    ensures
        catching_up(place(g, key as int / 9, key as int % 9, d), m, key as int / 9, key as int % 9),
{
    let r = key as int / 9;
    let c = key as int % 9;
    let h = place(g, r, c, d);
    let with_cell = m.insert(key, options);
    lemma_place(g, r, c, d);
    lemma_place_undo(g, r, c, d);
    assert forall|q: usize| #[trigger] m.contains_key(q) implies empty_at(h, q as int) && m[q]@
        == options_at(g, q as int) by {
        assert(with_cell.contains_key(q));
        assert(on_board(q as int / 9, q as int % 9));
    }
    assert forall|q: usize|
        #![trigger empty_at(h, q as int)]
        empty_at(h, q as int) && !m.contains_key(q) implies option_count(g, q as int) == 0 by {
        assert(on_board(q as int / 9, q as int % 9));
        assert(q != key);
        assert(empty_at(g, q as int));
        assert(!with_cell.contains_key(q));
    }
}

/// The cells that come into reach when one more cell of the row, of the
/// column and of the block is counted are those three cells.
proof fn lemma_among_first_next(p: int, r: int, c: int, i: int)
    requires
        0 <= p < 81,
        on_board(r, c),
        0 <= i < 9,
        among_first(p, r, c, i + 1),
        !among_first(p, r, c, i),
    ensures
        p == r * 9 + i || p == i * 9 + c || p == (i % 3 + (r / 3) * 3) * 9 + (i / 3 + (c / 3)
            * 3),
{
    let pr = p / 9;
    let pc = p % 9;
    if pr == r && pc == i {
    } else if pc == c && pr == i {
    } else {
        assert(block_of(pr, pc) == block_of(r, c));
        assert(index_in_block(pr, pc) == i);
        assert(pr / 3 == r / 3);
        assert(pc / 3 == c / 3);
        assert(pr % 3 == i % 3);
        assert(pc % 3 == i / 3);
    }
}

/// Once the entries of every cell in the row, the column and the block of
/// the cell that was filled are up to date, the whole map is.
proof fn lemma_caught_up(h: Grid, m: Map<usize, Vec<char>>, r: int, c: int)
    requires
        well_formed(h),
        on_board(r, c),
        is_value(h[r][c]),
        catching_up(h, m, r, c),
        forall|p: usize|
            #![trigger m.contains_key(p)]
            among_first(p as int, r, c, 9) ==> settled(h, m, p),
    ensures
        tracks(h, m),
{
    let before = place(h, r, c, EMPTY);
    let choice = h[r][c];
    lemma_place(h, r, c, EMPTY);
    assert(place(before, r, c, choice) =~~= h);
    assert forall|p: usize| #[trigger] m.contains_key(p) implies empty_at(h, p as int) && m[p]@
        == options_at(h, p as int) by {
        let pr = p as int / 9;
        let pc = p as int % 9;
        assert(empty_at(h, p as int));
        assert(on_board(pr, pc));
        if among_first(p as int, r, c, 9) {
            assert(settled(h, m, p));
        } else {
            assert(!peers(pr, pc, r, c));
            assert forall|d: char|
                options_at(h, p as int).contains(d) <==> options_at(before, p as int).contains(
                    d,
                ) by {
                lemma_candidates_after_place(before, r, c, choice, pr, pc, d);
                lemma_candidate_seq(h, pr, pc);
                lemma_candidate_seq(before, pr, pc);
            }
            lemma_candidate_seq(h, pr, pc);
            lemma_candidate_seq(before, pr, pc);
            lemma_ascending_unique(options_at(h, p as int), options_at(before, p as int));
        }
    }
    assert forall|p: usize|
        #![trigger empty_at(h, p as int)]
        empty_at(h, p as int) && !m.contains_key(p) implies option_count(h, p as int)
        == 0 by {
        let pr = p as int / 9;
        let pc = p as int % 9;
        assert(on_board(pr, pc));
        lemma_candidate_seq(h, pr, pc);
        lemma_candidate_seq(before, pr, pc);
        if option_count(h, p as int) > 0 {
            let d = options_at(h, p as int)[0];
            lemma_candidates_after_place(before, r, c, choice, pr, pc, d);
            assert(options_at(before, p as int).contains(d));
        }
    }
}

/// Bringing the map up to date without adding or dropping an entry strikes
/// the digit that was filled in from the lists of the cells that share a
/// row, a column or a block with the filled cell, and changes no other list.
proof fn lemma_struck(
    h: Grid,
    before: Map<usize, Vec<char>>,
    after: Map<usize, Vec<char>>,
    r: int,
    c: int,
)
    requires
        well_formed(h),
        on_board(r, c),
        is_value(h[r][c]),
        catching_up(h, before, r, c),
        tracks(h, after),
        after.dom() == before.dom(),
    ensures
        forall|p: usize, d: char|
            #![trigger after[p]@.contains(d)]
            before.contains_key(p) ==> (
                after[p]@.contains(d)
                    <==> before[p]@.contains(d) && !(d == h[r][c]
                    && peers(p as int / 9, p as int % 9, r, c))
            ),
{
    let g = place(h, r, c, EMPTY);
    let choice = h[r][c];
    lemma_place(h, r, c, EMPTY);
    assert(place(g, r, c, choice) =~~= h);
    assert forall|p: usize, d: char|
        #![trigger after[p]@.contains(d)]
        before.contains_key(p) implies (
            after[p]@.contains(d)
                <==> before[p]@.contains(d) && !(d == choice
                && peers(p as int / 9, p as int % 9, r, c))
        ) by {
        let pr = p as int / 9;
        let pc = p as int % 9;
        assert(after.dom().contains(p));
        assert(after.contains_key(p));
        assert(empty_at(h, p as int));
        assert(on_board(pr, pc));
        lemma_candidate_seq(h, pr, pc);
        lemma_candidate_seq(g, pr, pc);
        lemma_candidates_after_place(g, r, c, choice, pr, pc, d);
    }
}

/// Takes `choice` out of an ascending list of candidates, if it is there.
fn remove_option(options: &mut Vec<char>, choice: char)
    requires
        ascending(old(options)@),
    ensures
        ascending(final(options)@),
        forall|d: char|
            final(options)@.contains(d) <==> old(options)@.contains(d) && d != choice,
{
    let n = options.len();
    for i in 0..n
        invariant
            n == options@.len(),
            options@ == old(options)@,
            ascending(options@),
            forall|j: int| 0 <= j < i ==> options@[j] != choice,
    {
        if options[i] == choice {
            options.remove(i);
            proof {
                let was = old(options)@;
                let now = options@;
                assert forall|d: char| now.contains(d) <==> was.contains(d) && d != choice by {
                    if now.contains(d) {
                        let j = choose|j: int| 0 <= j < now.len() && now[j] == d;
                        if j < i {
                            assert(was[j] == d);
                        } else {
                            assert(was[j + 1] == d);
                        }
                    }
                    if was.contains(d) && d != choice {
                        let j = choose|j: int| 0 <= j < was.len() && was[j] == d;
                        if j < i {
                            assert(now[j] == d);
                        } else {
                            assert(now[j - 1] == d);
                        }
                    }
                }
            }
            return;
        }
    }
}

} // verus!
