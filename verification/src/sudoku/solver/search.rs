//! What the backtracking search computes, and why it is right.
//!
//! The search is defined here as a function on grids: which cell a policy
//! picks, and which grid the depth-first search over that cell's candidates
//! reaches first. The solvers are proved to compute this function. The
//! lemmas of this module say what the function means: what it reaches is a
//! solution, it reaches one whenever there is one, and under the
//! first-empty-cell policy it reaches the least one.

use vstd::prelude::*;
use crate::sudoku::grid::{
    candidate_seq, cell, empty_count, filled, is_solution_of, is_value, lex_le, on_board, place,
    solved, well_formed, EMPTY, Grid,
};
use crate::sudoku::lemmas::{
    lemma_candidate_seq, lemma_full_grid_is_own_solution, lemma_place, lemma_place_empty_count,
    lemma_solution_through_place, lemma_solution_uses_candidate,
};
use crate::sudoku::solver::SolverAlgorithm;

verus! {

/// Position `p` of the row-major reading is an empty cell of the board.
pub open spec fn empty_at(g: Grid, p: int) -> bool {
    0 <= p < 81 && cell(g, p) == EMPTY
}

/// The candidates of the cell at position `p`, in ascending order.
pub open spec fn options_at(g: Grid, p: int) -> Seq<char> {
    candidate_seq(g, p / 9, p % 9)
}

/// The number of candidates of the cell at position `p`.
pub open spec fn option_count(g: Grid, p: int) -> nat {
    options_at(g, p).len()
}

/// Position `p` is the first empty cell in row-major order.
pub open spec fn is_first_empty(g: Grid, p: int) -> bool {
    empty_at(g, p) && forall|q: int| 0 <= q < p ==> !empty_at(g, q)
}

/// What the first-empty-cell policy picks: the first empty cell, provided
/// that it has a candidate.
pub open spec fn first_empty_choice(g: Grid, p: int) -> bool {
    is_first_empty(g, p) && option_count(g, p) > 0
}

/// What the most-constrained-cell policy picks among the first `n` cells: an
/// empty cell with a candidate, such that every empty cell before it has
/// more candidates and, unless it has a single candidate, no empty cell after
/// it has fewer.
pub open spec fn most_restricted_among(g: Grid, p: int, n: int) -> bool {
    &&& p < n
    &&& empty_at(g, p)
    &&& option_count(g, p) >= 1
    &&& forall|q: int|
        0 <= q < p && empty_at(g, q) ==> #[trigger] option_count(g, q) > option_count(g, p)
    &&& option_count(g, p) > 1 ==> forall|q: int|
        p < q < n && empty_at(g, q) ==> #[trigger] option_count(g, q) >= option_count(g, p)
}

/// What the most-constrained-cell policy picks on the whole board.
pub open spec fn most_restricted_choice(g: Grid, p: int) -> bool {
    most_restricted_among(g, p, 81)
}

/// Position `p` is the cell that the policy fills next.
pub open spec fn is_choice(g: Grid, algorithm: SolverAlgorithm, p: int) -> bool {
    match algorithm {
        SolverAlgorithm::Simple => first_empty_choice(g, p),
        SolverAlgorithm::MostRestricted => most_restricted_choice(g, p),
    }
}

/// The cell that the policy fills next, if it finds one.
pub open spec fn chosen_cell(g: Grid, algorithm: SolverAlgorithm) -> Option<int> {
    if exists|p: int| is_choice(g, algorithm, p) {
        Some(choose|p: int| is_choice(g, algorithm, p))
    } else {
        None
    }
}

/// The grid that the search reaches from `g`: `g` itself if it is solved;
/// otherwise what the first successful candidate of the chosen cell leads
/// to; nothing if no cell can be chosen or no candidate succeeds.
pub open spec fn search(g: Grid, algorithm: SolverAlgorithm) -> Option<Grid>
    decreases empty_count(g), 1nat, 0nat,
{
    if solved(g) {
        Some(g)
    } else {
        match chosen_cell(g, algorithm) {
            Some(p) => try_options(g, algorithm, p, options_at(g, p), 0),
            None => None,
        }
    }
}

/// The grid that the search reaches from `g` by filling the cell at `p` with
/// one of `options[k..]`, trying them in turn.
pub open spec fn try_options(
    g: Grid,
    algorithm: SolverAlgorithm,
    p: int,
    options: Seq<char>,
    k: int,
) -> Option<Grid>
    decreases empty_count(g), 0nat, options.len() - k,
    when well_formed(g) && empty_at(g, p) && forall|i: int|
        0 <= i < options.len() ==> is_value(#[trigger] options[i])
{
    if 0 <= k < options.len() {
        proof {
            lemma_place_empty_count(g, p / 9, p % 9, options[k]);
        }
        let found = search(place(g, p / 9, p % 9, options[k]), algorithm);
        if found is Some {
            found
        } else {
            try_options(g, algorithm, p, options, k + 1)
        }
    } else {
        None
    }
}

/// What a scan for the most constrained cell knows after the first `n`
/// cells: none of them is an empty cell with fewer than two candidates; if
/// `count` is still 10 no empty cell was met; otherwise the cell kept, at
/// `(row, column)`, has `count` candidates and is the one that the policy
/// picks among the cells scanned.
pub open spec fn scan_state(g: Grid, n: int, count: int, row: int, column: int) -> bool {
    &&& forall|q: int| 0 <= q < n && empty_at(g, q) ==> #[trigger] option_count(g, q) > 1
    &&& count >= 10 ==> forall|q: int| 0 <= q < n ==> !empty_at(g, q)
    &&& count < 10 ==> {
        &&& on_board(row, column)
        &&& option_count(g, row * 9 + column) == count
        &&& most_restricted_among(g, row * 9 + column, n)
    }
}

/// An empty cell without a candidate, met before any cell with a single
/// candidate, leaves the policy without a choice.
pub proof fn lemma_scan_dead_end(g: Grid, n: int, count: int, row: int, column: int)
    requires
        scan_state(g, n, count, row, column),
        empty_at(g, n),
        option_count(g, n) == 0,
    ensures
        forall|p: int| !most_restricted_choice(g, p),
{
    assert forall|p: int| !most_restricted_choice(g, p) by {
        if most_restricted_choice(g, p) {
            if p < n {
                assert(option_count(g, p) > 1);
                assert(option_count(g, n) >= option_count(g, p));
            } else if p > n {
                assert(option_count(g, n) > option_count(g, p));
            }
        }
    }
}

/// Scanning one more cell, which is filled or has at least two candidates,
/// keeps the cell kept so far, unless the new cell is empty and has fewer
/// candidates: then the new cell is kept.
pub proof fn lemma_scan_step(g: Grid, n: int, count: int, row: int, column: int)
    requires
        scan_state(g, n, count, row, column),
        0 <= n < 81,
        option_count(g, n) <= 9,
    ensures
        !empty_at(g, n) ==> scan_state(g, n + 1, count, row, column),
        empty_at(g, n) && 2 <= option_count(g, n) < count
            ==> scan_state(g, n + 1, option_count(g, n) as int, n / 9, n % 9),
        empty_at(g, n) && 2 <= option_count(g, n) && count <= option_count(g, n)
            ==> scan_state(g, n + 1, count, row, column),
{
    if empty_at(g, n) && 2 <= option_count(g, n) < count {
        if count < 10 {
            let best = row * 9 + column;
            assert forall|q: int| 0 <= q < n && empty_at(g, q) implies #[trigger] option_count(g, q)
                > option_count(g, n) by {
                if q > best {
                    assert(option_count(g, q) >= option_count(g, best));
                }
            }
        }
        assert(most_restricted_among(g, n, n + 1));
    }
}

/// A policy picks at most one cell.
pub proof fn lemma_choice_unique(g: Grid, algorithm: SolverAlgorithm, p: int, q: int)
    requires
        is_choice(g, algorithm, p),
        is_choice(g, algorithm, q),
    ensures
        p == q,
{
    match algorithm {
        SolverAlgorithm::Simple => {},
        SolverAlgorithm::MostRestricted => {
            if p < q {
                assert(option_count(g, p) > option_count(g, q));
            } else if q < p {
                assert(option_count(g, q) > option_count(g, p));
            }
        },
    }
}

/// A cell that meets the policy's description is the chosen cell.
pub proof fn lemma_chosen_cell(g: Grid, algorithm: SolverAlgorithm, p: int)
    requires
        is_choice(g, algorithm, p),
    ensures
        chosen_cell(g, algorithm) == Some(p),
{
    let q = choose|q: int| is_choice(g, algorithm, q);
    lemma_choice_unique(g, algorithm, p, q);
}

/// Among the first `n` cells, if any is empty, one is the first empty cell.
proof fn lemma_first_empty_exists(g: Grid, n: int)
    requires
        0 <= n <= 81,
        exists|q: int| 0 <= q < n && empty_at(g, q),
    ensures
        exists|p: int| p < n && is_first_empty(g, p),
    decreases n,
{
    if exists|q: int| 0 <= q < n - 1 && empty_at(g, q) {
        lemma_first_empty_exists(g, n - 1);
        let p = choose|p: int| p < n - 1 && is_first_empty(g, p);
        assert(p < n && is_first_empty(g, p));
    } else {
        assert(is_first_empty(g, n - 1));
    }
}

/// Among the first `n` cells, if any is empty and every empty cell has a
/// candidate, the most-constrained-cell policy finds its cell.
proof fn lemma_most_restricted_exists(g: Grid, n: int)
    requires
        0 <= n <= 81,
        exists|q: int| 0 <= q < n && empty_at(g, q),
        forall|q: int| empty_at(g, q) ==> #[trigger] option_count(g, q) >= 1,
    ensures
        exists|p: int| most_restricted_among(g, p, n),
    decreases n,
{
    let last = n - 1;
    if exists|q: int| 0 <= q < last && empty_at(g, q) {
        lemma_most_restricted_exists(g, last);
        let p = choose|p: int| most_restricted_among(g, p, last);
        let fewer = option_count(g, last) < option_count(g, p);
        if empty_at(g, last) && 1 < option_count(g, p) && fewer {
            assert forall|q: int| 0 <= q < last && empty_at(g, q) implies #[trigger] option_count(
                g,
                q,
            ) > option_count(g, last) by {
                if q < p {
                } else if q == p {
                } else {
                    assert(option_count(g, q) >= option_count(g, p));
                }
            }
            assert(most_restricted_among(g, last, n));
        } else {
            assert(most_restricted_among(g, p, n));
        }
    } else {
        assert(empty_at(g, last));
        assert(most_restricted_among(g, last, n));
    }
}

/// On a grid that is not full and whose empty cells all have a candidate,
/// each policy finds a cell, and the cell is empty.
proof fn lemma_choice_exists(g: Grid, algorithm: SolverAlgorithm)
    requires
        exists|q: int| empty_at(g, q),
        forall|q: int| empty_at(g, q) ==> #[trigger] option_count(g, q) >= 1,
    ensures
        chosen_cell(g, algorithm) is Some,
{
    let q = choose|q: int| empty_at(g, q);
    assert(0 <= q < 81 && empty_at(g, q));
    match algorithm {
        SolverAlgorithm::Simple => {
            lemma_first_empty_exists(g, 81);
            let p = choose|p: int| p < 81 && is_first_empty(g, p);
            assert(is_choice(g, algorithm, p));
        },
        SolverAlgorithm::MostRestricted => {
            lemma_most_restricted_exists(g, 81);
            let p = choose|p: int| most_restricted_among(g, p, 81);
            assert(is_choice(g, algorithm, p));
        },
    }
}

/// The chosen cell is an empty cell of the board.
pub proof fn lemma_chosen_cell_is_empty(g: Grid, algorithm: SolverAlgorithm)
    ensures
        chosen_cell(g, algorithm) matches Some(p) ==> empty_at(g, p) && is_choice(g, algorithm, p),
{
}

/// Whatever the search reaches by trying `options[k..]` at `p` is a solution
/// of the puzzle.
proof fn lemma_try_options_sound(
    g: Grid,
    algorithm: SolverAlgorithm,
    p: int,
    options: Seq<char>,
    k: int,
)
    requires
        well_formed(g),
        empty_at(g, p),
        forall|i: int| 0 <= i < options.len() ==> is_value(#[trigger] options[i]),
        0 <= k,
    ensures
        try_options(g, algorithm, p, options, k) matches Some(s) ==> is_solution_of(s, g),
    decreases empty_count(g), 0nat, options.len() - k,
{
    if k < options.len() {
        let h = place(g, p / 9, p % 9, options[k]);
        lemma_place(g, p / 9, p % 9, options[k]);
        lemma_place_empty_count(g, p / 9, p % 9, options[k]);
        lemma_search_sound(h, algorithm);
        match search(h, algorithm) {
            Some(s) => {
                lemma_solution_through_place(s, g, p / 9, p % 9, options[k]);
            },
            None => {
                lemma_try_options_sound(g, algorithm, p, options, k + 1);
            },
        }
    }
}

/// Whatever the search reaches is a solved grid that keeps every clue of the
/// puzzle it started from.
pub proof fn lemma_search_sound(g: Grid, algorithm: SolverAlgorithm)
    requires
        well_formed(g),
    ensures
        search(g, algorithm) matches Some(s) ==> is_solution_of(s, g),
    decreases empty_count(g), 1nat, 0nat,
{
    if !solved(g) {
        match chosen_cell(g, algorithm) {
            Some(p) => {
                lemma_chosen_cell_is_empty(g, algorithm);
                lemma_candidate_seq(g, p / 9, p % 9);
                lemma_try_options_sound(g, algorithm, p, options_at(g, p), 0);
            },
            None => {},
        }
    }
}

/// If `s` solves the puzzle and fills the cell at `p` with `options[at]`,
/// the search succeeds at one of `options[k..=at]`.
proof fn lemma_try_options_complete(
    g: Grid,
    algorithm: SolverAlgorithm,
    p: int,
    options: Seq<char>,
    k: int,
    at: int,
    s: Grid,
)
    requires
        well_formed(g),
        empty_at(g, p),
        forall|i: int| 0 <= i < options.len() ==> is_value(#[trigger] options[i]),
        0 <= k <= at < options.len(),
        is_solution_of(s, g),
        s[p / 9][p % 9] == options[at],
    ensures
        try_options(g, algorithm, p, options, k) is Some,
    decreases empty_count(g), 0nat, options.len() - k,
{
    let h = place(g, p / 9, p % 9, options[k]);
    lemma_place(g, p / 9, p % 9, options[k]);
    lemma_place_empty_count(g, p / 9, p % 9, options[k]);
    if search(h, algorithm) is None {
        if k == at {
            lemma_solution_through_place(s, g, p / 9, p % 9, options[k]);
            lemma_search_complete(h, algorithm, s);
        } else {
            lemma_try_options_complete(g, algorithm, p, options, k + 1, at, s);
        }
    }
}

/// The search succeeds on every puzzle that has a solution.
pub proof fn lemma_search_complete(g: Grid, algorithm: SolverAlgorithm, s: Grid)
    requires
        well_formed(g),
        is_solution_of(s, g),
    ensures
        search(g, algorithm) is Some,
    decreases empty_count(g), 1nat, 0nat,
{
    if !solved(g) {
        if filled(g) {
            lemma_full_grid_is_own_solution(s, g);
        }
        let (r0, c0) = choose|r: int, c: int| on_board(r, c) && g[r][c] == EMPTY;
        assert(empty_at(g, r0 * 9 + c0));
        assert forall|q: int| empty_at(g, q) implies #[trigger] option_count(g, q) >= 1 by {
            lemma_solution_uses_candidate(s, g, q / 9, q % 9);
            lemma_candidate_seq(g, q / 9, q % 9);
            assert(options_at(g, q).contains(s[q / 9][q % 9]));
        }
        lemma_choice_exists(g, algorithm);
        let p = chosen_cell(g, algorithm)->0;
        lemma_chosen_cell_is_empty(g, algorithm);
        lemma_solution_uses_candidate(s, g, p / 9, p % 9);
        lemma_candidate_seq(g, p / 9, p % 9);
        let options = options_at(g, p);
        assert(options.contains(s[p / 9][p % 9]));
        let at = choose|i: int| 0 <= i < options.len() && options[i] == s[p / 9][p % 9];
        lemma_try_options_complete(g, algorithm, p, options, 0, at, s);
    }
}

/// If `s` solves the puzzle and fills its first empty cell, at `p`, with
/// `options[at]`, then by trying `options[k..=at]` in ascending order the
/// first-empty-cell search reaches a grid that comes no later than `s`.
proof fn lemma_try_options_least(g: Grid, p: int, options: Seq<char>, k: int, at: int, s: Grid)
    requires
        well_formed(g),
        is_first_empty(g, p),
        forall|i: int| 0 <= i < options.len() ==> is_value(#[trigger] options[i]),
        forall|i: int, j: int| 0 <= i < j < options.len() ==> options[i] < options[j],
        0 <= k <= at < options.len(),
        is_solution_of(s, g),
        s[p / 9][p % 9] == options[at],
    ensures
        try_options(g, SolverAlgorithm::Simple, p, options, k) matches Some(t) && lex_le(t, s),
    decreases empty_count(g), 0nat, options.len() - k,
{
    let algorithm = SolverAlgorithm::Simple;
    let h = place(g, p / 9, p % 9, options[k]);
    lemma_place(g, p / 9, p % 9, options[k]);
    lemma_place_empty_count(g, p / 9, p % 9, options[k]);
    lemma_search_sound(h, algorithm);
    match search(h, algorithm) {
        Some(t) => {
            if k == at {
                lemma_solution_through_place(s, g, p / 9, p % 9, options[k]);
                lemma_search_least(h, s);
            } else {
                assert(cell(t, p) == options[k]);
                assert(cell(t, p) < cell(s, p));
                assert forall|q: int| 0 <= q < p implies cell(t, q) == cell(s, q) by {
                    assert(!empty_at(g, q));
                    assert(on_board(q / 9, q % 9));
                    assert(h[q / 9][q % 9] == g[q / 9][q % 9]);
                }
            }
        },
        None => {
            if k == at {
                lemma_solution_through_place(s, g, p / 9, p % 9, options[k]);
                lemma_search_complete(h, algorithm, s);
            } else {
                lemma_try_options_least(g, p, options, k + 1, at, s);
            }
        },
    }
}

/// The first-empty-cell search reaches the least solution: read row by row
/// and compared digit by digit, no solution of the puzzle comes before it.
pub proof fn lemma_search_least(g: Grid, s: Grid)
    requires
        well_formed(g),
        is_solution_of(s, g),
    ensures
        search(g, SolverAlgorithm::Simple) matches Some(t) && lex_le(t, s),
    decreases empty_count(g), 1nat, 0nat,
{
    let algorithm = SolverAlgorithm::Simple;
    if solved(g) {
        lemma_full_grid_is_own_solution(s, g);
    } else {
        lemma_search_complete(g, algorithm, s);
        let p = chosen_cell(g, algorithm)->0;
        lemma_chosen_cell_is_empty(g, algorithm);
        lemma_solution_uses_candidate(s, g, p / 9, p % 9);
        lemma_candidate_seq(g, p / 9, p % 9);
        let options = options_at(g, p);
        assert(options.contains(s[p / 9][p % 9]));
        let at = choose|i: int| 0 <= i < options.len() && options[i] == s[p / 9][p % 9];
        lemma_try_options_least(g, p, options, 0, at, s);
    }
}

} // verus!
