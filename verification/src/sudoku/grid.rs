//! The mathematical model of a Sudoku grid.
//!
//! A grid is a sequence of nine rows of nine cells. A cell holds `'0'` when
//! it is empty and one of `'1'` to `'9'` when it is filled. Everything the
//! executable code promises is stated over the definitions of this module.

use vstd::prelude::*;

verus! {

/// Rows of cells, top to bottom; each row left to right.
pub type Grid = Seq<Seq<char>>;

/// The content of a cell that has not been filled yet.
pub const EMPTY: char = '0';

/// `c` is one of the ten characters a cell may hold.
pub open spec fn is_digit(c: char) -> bool {
    '0' <= c <= '9'
}

/// `c` is one of the nine digits that fill a cell.
pub open spec fn is_value(c: char) -> bool {
    '1' <= c <= '9'
}

/// `(r, c)` addresses a cell of the board.
pub open spec fn on_board(r: int, c: int) -> bool {
    0 <= r < 9 && 0 <= c < 9
}

/// A grid of nine rows of nine cells, each holding a digit.
pub open spec fn well_formed(g: Grid) -> bool {
    &&& g.len() == 9
    &&& forall|r: int| 0 <= r < 9 ==> (#[trigger] g[r]).len() == 9
    &&& forall|r: int, c: int| on_board(r, c) ==> is_digit(#[trigger] g[r][c])
}

/// The cells of row `k`, left to right.
pub open spec fn row_cells(g: Grid, k: int) -> Seq<char> {
    g[k]
}

/// The cells of column `k`, top to bottom.
pub open spec fn column_cells(g: Grid, k: int) -> Seq<char> {
    Seq::new(9, |i: int| g[i][k])
}

/// The cells of block `k`, where blocks are numbered left to right, top to
/// bottom, and the cells of a block are listed column by column.
pub open spec fn block_cells(g: Grid, k: int) -> Seq<char> {
    Seq::new(9, |i: int| g[i % 3 + (k / 3) * 3][i / 3 + (k % 3) * 3])
}

/// The number of the block that holds cell `(r, c)`.
pub open spec fn block_of(r: int, c: int) -> int {
    (r / 3) * 3 + c / 3
}

/// The place of cell `(r, c)` within its block.
pub open spec fn index_in_block(r: int, c: int) -> int {
    r % 3 + 3 * (c % 3)
}

/// Two different cells share a row, a column or a block.
pub open spec fn peers(r1: int, c1: int, r2: int, c2: int) -> bool {
    &&& on_board(r1, c1)
    &&& on_board(r2, c2)
    &&& (r1 != r2 || c1 != c2)
    &&& (r1 == r2 || c1 == c2 || (r1 / 3 == r2 / 3 && c1 / 3 == c2 / 3))
}

/// Some filled cell of `s` is repeated later in `s`. Empty cells never count.
pub open spec fn has_duplicate(s: Seq<char>) -> bool {
    exists|i: int, j: int|
        #![trigger s[i], s[j]]
        0 <= i < j < s.len() && s[i] != EMPTY && s[i] == s[j]
}

/// Row `k` holds no digit twice.
pub open spec fn row_valid(g: Grid, k: int) -> bool {
    !has_duplicate(row_cells(g, k))
}

/// Column `k` holds no digit twice.
pub open spec fn column_valid(g: Grid, k: int) -> bool {
    !has_duplicate(column_cells(g, k))
}

/// Block `k` holds no digit twice.
pub open spec fn block_valid(g: Grid, k: int) -> bool {
    !has_duplicate(block_cells(g, k))
}

/// No row, column or block repeats a digit. The grid need not be full.
pub open spec fn valid(g: Grid) -> bool {
    forall|k: int|
        #![trigger row_valid(g, k)]
        #![trigger column_valid(g, k)]
        #![trigger block_valid(g, k)]
        0 <= k < 9 ==> row_valid(g, k) && column_valid(g, k) && block_valid(g, k)
}

/// No cell is empty.
pub open spec fn filled(g: Grid) -> bool {
    forall|r: int, c: int| on_board(r, c) ==> #[trigger] g[r][c] != EMPTY
}

/// Full and free of repeated digits.
pub open spec fn solved(g: Grid) -> bool {
    filled(g) && valid(g)
}

/// `s` agrees with `g` on every cell that `g` has filled.
pub open spec fn extends(s: Grid, g: Grid) -> bool {
    forall|r: int, c: int| on_board(r, c) && g[r][c] != EMPTY ==> #[trigger] s[r][c] == g[r][c]
}

/// `s` is a solved grid that keeps every clue of `g`.
pub open spec fn is_solution_of(s: Grid, g: Grid) -> bool {
    well_formed(s) && solved(s) && extends(s, g)
}

/// The puzzle `g` has at least one solution.
pub open spec fn solvable(g: Grid) -> bool {
    exists|s: Grid| is_solution_of(s, g)
}

/// The puzzle `g` has at most one solution.
pub open spec fn at_most_one_solution(g: Grid) -> bool {
    forall|s: Grid, t: Grid| is_solution_of(s, g) && is_solution_of(t, g) ==> s == t
}

/// The grid `g` with cell `(r, c)` set to `d`.
pub open spec fn place(g: Grid, r: int, c: int, d: char) -> Grid {
    g.update(r, g[r].update(c, d))
}

/// The cell at position `p` of the row-major reading of the grid.
pub open spec fn cell(g: Grid, p: int) -> char {
    g[p / 9][p % 9]
}

/// The 81 cells of the grid, row by row.
pub open spec fn flatten(g: Grid) -> Seq<char> {
    Seq::new(81, |p: int| cell(g, p))
}

/// The grid whose row-major reading is `line`.
pub open spec fn grid_of_line(line: Seq<char>) -> Grid {
    Seq::new(9, |r: int| Seq::new(9, |c: int| line[r * 9 + c]))
}

/// `line` is the row-major reading of some well-formed grid.
pub open spec fn is_puzzle_line(line: Seq<char>) -> bool {
    line.len() == 81 && forall|i: int| 0 <= i < 81 ==> is_digit(#[trigger] line[i])
}

/// The number of empty cells among the first `n` cells in row-major order.
pub open spec fn empties_before(g: Grid, n: int) -> nat
    decreases n,
{
    if n <= 0 {
        0
    } else {
        empties_before(g, n - 1) + if cell(g, n - 1) == EMPTY {
            1nat
        } else {
            0nat
        }
    }
}

/// The number of empty cells of the grid.
pub open spec fn empty_count(g: Grid) -> nat {
    empties_before(g, 81)
}

/// `a` comes before `b`, or equals it, when both are read row by row and
/// compared digit by digit.
pub open spec fn lex_le(a: Grid, b: Grid) -> bool {
    ||| forall|p: int| 0 <= p < 81 ==> cell(a, p) == cell(b, p)
    ||| exists|p: int|
        0 <= p < 81 && #[trigger] cell(a, p) < cell(b, p) && forall|q: int|
            0 <= q < p ==> cell(a, q) == cell(b, q)
}

/// Each element of the sequence is less than the next.
pub open spec fn ascending(s: Seq<char>) -> bool {
    forall|i: int, j: int| 0 <= i < j < s.len() ==> s[i] < s[j]
}

/// The nine digits in ascending order.
pub open spec fn all_values() -> Seq<char> {
    seq!['1', '2', '3', '4', '5', '6', '7', '8', '9']
}

/// `d` is a digit that occurs neither in the row, nor in the column, nor in
/// the block of cell `(r, c)`.
pub open spec fn is_candidate(g: Grid, r: int, c: int, d: char) -> bool {
    &&& is_value(d)
    &&& !row_cells(g, r).contains(d)
    &&& !column_cells(g, c).contains(d)
    &&& !block_cells(g, block_of(r, c)).contains(d)
}

/// The test that picks the candidates of cell `(r, c)` out of the nine digits.
pub open spec fn candidate_test(g: Grid, r: int, c: int) -> spec_fn(char) -> bool {
    |d: char| is_candidate(g, r, c, d)
}

/// The candidates of cell `(r, c)` in ascending order.
pub open spec fn candidate_seq(g: Grid, r: int, c: int) -> Seq<char> {
    all_values().filter(candidate_test(g, r, c))
}

/// The candidates of cell `(r, c)` as a set.
pub open spec fn candidates(g: Grid, r: int, c: int) -> Set<char> {
    Set::new(|d: char| is_candidate(g, r, c, d))
}

} // verus!
