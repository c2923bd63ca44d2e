//! What holds of the library as a whole.
//!
//! Each law is stated over the model of the grid and over the functions by
//! which the board operations describe their results, and is proved here
//! once and for all.

use vstd::prelude::*;
use crate::sudoku::grid::{
    at_most_one_solution, block_cells, block_of, candidate_seq, candidates, column_cells, flatten,
    grid_of_line, is_candidate, is_digit, is_puzzle_line, is_solution_of, lex_le, on_board, place,
    row_cells, solvable, well_formed, Grid,
};
use crate::sudoku::lemmas::{lemma_ascending_unique, lemma_candidate_seq};
use crate::sudoku::solver::search::{
    lemma_search_complete, lemma_search_least, lemma_search_sound, search,
};
use crate::sudoku::solver::SolverAlgorithm;

verus! {

/// A board is its line: the grid made from a line of 81 digits is well
/// formed, and reading its cells row by row gives the line back.
pub proof fn lemma_line_round_trip(line: Seq<char>)
    requires
        is_puzzle_line(line),
    ensures
        well_formed(grid_of_line(line)),
        flatten(grid_of_line(line)) == line,
        forall|r: int, c: int| on_board(r, c) ==> grid_of_line(line)[r][c] == line[r * 9 + c],
{
    let g = grid_of_line(line);
    assert forall|r: int, c: int| on_board(r, c) implies is_digit(#[trigger] g[r][c]) by {
        assert(g[r][c] == line[r * 9 + c]);
    }
    assert forall|p: int| 0 <= p < 81 implies flatten(g)[p] == line[p] by {
        assert(on_board(p / 9, p % 9));
        assert(g[p / 9][p % 9] == line[(p / 9) * 9 + p % 9]);
    }
    assert(flatten(g) =~= line);
}

/// A line is its board: reading a well-formed grid row by row gives a line
/// of 81 digits, and the grid made from that line is the grid.
pub proof fn lemma_grid_round_trip(g: Grid)
    requires
        well_formed(g),
    ensures
        is_puzzle_line(flatten(g)),
        grid_of_line(flatten(g)) == g,
{
    let line = flatten(g);
    assert forall|p: int| 0 <= p < 81 implies is_digit(#[trigger] line[p]) by {
        assert(on_board(p / 9, p % 9));
    }
    assert forall|r: int| 0 <= r < 9 implies grid_of_line(line)[r] == g[r] by {
        assert forall|c: int| 0 <= c < 9 implies grid_of_line(line)[r][c] == g[r][c] by {
            assert((r * 9 + c) / 9 == r && (r * 9 + c) % 9 == c);
        }
        assert(grid_of_line(line)[r] =~= g[r]);
    }
    assert(grid_of_line(line) =~= g);
}

/// Two cells can be filled in either order: the grid that results is the
/// same, and with it the candidates of every cell.
pub proof fn lemma_place_commutes(
    g: Grid,
    r1: int,
    c1: int,
    d1: char,
    r2: int,
    c2: int,
    d2: char,
)
    requires
        well_formed(g),
        on_board(r1, c1),
        on_board(r2, c2),
        r1 != r2 || c1 != c2,
    ensures
        place(place(g, r1, c1, d1), r2, c2, d2) == place(place(g, r2, c2, d2), r1, c1, d1),
{
    assert(place(place(g, r1, c1, d1), r2, c2, d2) =~~= place(place(g, r2, c2, d2), r1, c1, d1));
}

/// The candidates of a cell depend on which digits its row, its column and
/// its block hold, not on where in them the digits stand: two grids whose
/// rows, columns and blocks through the cell hold the same digits, in
/// whatever order, give the cell the same candidates.
pub proof fn lemma_candidates_ignore_order(g1: Grid, g2: Grid, r: int, c: int)
    requires
        row_cells(g1, r).to_multiset() == row_cells(g2, r).to_multiset(),
        column_cells(g1, c).to_multiset() == column_cells(g2, c).to_multiset(),
        block_cells(g1, block_of(r, c)).to_multiset()
            == block_cells(g2, block_of(r, c)).to_multiset(),
    ensures
        candidates(g1, r, c) == candidates(g2, r, c),
        candidate_seq(g1, r, c) == candidate_seq(g2, r, c),
{
    let b = block_of(r, c);
    row_cells(g1, r).to_multiset_ensures();
    row_cells(g2, r).to_multiset_ensures();
    column_cells(g1, c).to_multiset_ensures();
    column_cells(g2, c).to_multiset_ensures();
    block_cells(g1, b).to_multiset_ensures();
    block_cells(g2, b).to_multiset_ensures();
    assert forall|d: char| is_candidate(g1, r, c, d) <==> is_candidate(g2, r, c, d) by {
        assert(row_cells(g1, r).contains(d) <==> row_cells(g1, r).to_multiset().count(d) > 0);
        assert(row_cells(g2, r).contains(d) <==> row_cells(g2, r).to_multiset().count(d) > 0);
        assert(column_cells(g1, c).contains(d) <==> column_cells(g1, c).to_multiset().count(d)
            > 0);
        assert(column_cells(g2, c).contains(d) <==> column_cells(g2, c).to_multiset().count(d)
            > 0);
        assert(block_cells(g1, b).contains(d) <==> block_cells(g1, b).to_multiset().count(d) > 0);
        assert(block_cells(g2, b).contains(d) <==> block_cells(g2, b).to_multiset().count(d) > 0);
    }
    assert(candidates(g1, r, c) =~= candidates(g2, r, c));
    lemma_candidate_seq(g1, r, c);
    lemma_candidate_seq(g2, r, c);
    lemma_ascending_unique(candidate_seq(g1, r, c), candidate_seq(g2, r, c));
}

/// What the search means. It succeeds exactly on the puzzles that have a
/// solution; what it reaches is a solution that keeps the clues; and under
/// the first-empty-cell policy no solution comes before the one it reaches.
pub proof fn lemma_search_meaning(g: Grid, algorithm: SolverAlgorithm)
    requires
        well_formed(g),
    ensures
        search(g, algorithm) is Some <==> solvable(g),
        search(g, algorithm) matches Some(s) ==> is_solution_of(s, g),
        algorithm is Simple ==> forall|s: Grid| #[trigger]
            is_solution_of(s, g) ==> lex_le(search(g, algorithm)->0, s),
{
    lemma_search_sound(g, algorithm);
    if solvable(g) {
        let s = choose|s: Grid| is_solution_of(s, g);
        lemma_search_complete(g, algorithm, s);
    }
    if algorithm is Simple {
        let least = search(g, algorithm)->0;
        assert forall|s: Grid| #[trigger] is_solution_of(s, g) implies lex_le(least, s) by {
            lemma_search_least(g, s);
        }
    }
}

/// On a puzzle with a single solution both policies reach the same grid, and
/// on a puzzle without a solution neither reaches any.
pub proof fn lemma_policies_agree(g: Grid)
    requires
        well_formed(g),
        at_most_one_solution(g),
    ensures
        search(g, SolverAlgorithm::Simple) == search(g, SolverAlgorithm::MostRestricted),
{
    lemma_search_meaning(g, SolverAlgorithm::Simple);
    lemma_search_meaning(g, SolverAlgorithm::MostRestricted);
}

} // verus!
