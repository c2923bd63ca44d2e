//! Facts about the grid model that the proofs of the board operations share.

use vstd::prelude::*;
use crate::sudoku::grid::{
    all_values, ascending, block_cells, block_of, block_valid, candidate_seq, candidate_test,
    candidates, cell, column_cells, column_valid, empties_before, empty_count, filled,
    has_duplicate, index_in_block, is_candidate, is_digit, is_solution_of, is_value, on_board,
    peers, place, row_cells, row_valid, valid, well_formed, EMPTY, Grid,
};

verus! {

/// Placing a digit changes one cell and nothing else.
pub proof fn lemma_place(g: Grid, r: int, c: int, d: char)
    requires
        well_formed(g),
        on_board(r, c),
    ensures
        place(g, r, c, d).len() == 9,
        forall|i: int| 0 <= i < 9 ==> (#[trigger] place(g, r, c, d)[i]).len() == 9,
        forall|i: int, j: int|
            on_board(i, j) ==> #[trigger] place(g, r, c, d)[i][j] == if i == r && j == c {
                d
            } else {
                g[i][j]
            },
        is_digit(d) ==> well_formed(place(g, r, c, d)),
        place(g, r, c, g[r][c]) == g,
{
    assert(place(g, r, c, g[r][c]) =~~= g);
}

/// Filling an empty cell lowers the number of empty cells among the first
/// `n` by one if the cell is among them, and leaves it as it was if not.
pub proof fn lemma_place_empties(g: Grid, r: int, c: int, d: char, n: int)
    requires
        well_formed(g),
        on_board(r, c),
        g[r][c] == EMPTY,
        d != EMPTY,
        0 <= n <= 81,
    ensures
        empties_before(g, n) == empties_before(place(g, r, c, d), n) + if r * 9 + c < n {
            1nat
        } else {
            0nat
        },
    decreases n,
{
    if n > 0 {
        lemma_place_empties(g, r, c, d, n - 1);
        lemma_place(g, r, c, d);
        let p = n - 1;
        assert(on_board(p / 9, p % 9));
        assert(p == r * 9 + c <==> (p / 9 == r && p % 9 == c));
    }
}

/// Filling an empty cell leaves one empty cell fewer.
pub proof fn lemma_place_empty_count(g: Grid, r: int, c: int, d: char)
    requires
        well_formed(g),
        on_board(r, c),
        g[r][c] == EMPTY,
        d != EMPTY,
    ensures
        empty_count(place(g, r, c, d)) + 1 == empty_count(g),
{
    lemma_place_empties(g, r, c, d, 81);
}

/// Filtering one more element of a sequence either appends it or changes
/// nothing.
pub proof fn lemma_filter_step<A>(s: Seq<A>, test: spec_fn(A) -> bool, k: int)
    requires
        0 <= k < s.len(),
    ensures
        s.take(k + 1).filter(test) == if test(s[k]) {
            s.take(k).filter(test).push(s[k])
        } else {
            s.take(k).filter(test)
        },
{
    reveal(Seq::filter);
    assert(s.take(k + 1).drop_last() =~= s.take(k));
}

/// The candidates that lie among the first `k` digits: they are exactly the
/// digits there that pass the test, in ascending order.
pub proof fn lemma_candidates_among(g: Grid, r: int, c: int, k: int)
    requires
        0 <= k <= 9,
    ensures
        ({
            let found = all_values().take(k).filter(candidate_test(g, r, c));
            &&& found.len() <= k
            &&& forall|i: int| 0 <= i < found.len() ==> #[trigger] found[i] < '1' as int + k
            &&& forall|i: int, j: int| 0 <= i < j < found.len() ==> found[i] < found[j]
            &&& forall|d: char|
                found.contains(d) <==> is_candidate(g, r, c, d) && d < '1' as int + k
        }),
    decreases k,
{
    let test = candidate_test(g, r, c);
    let found = all_values().take(k).filter(test);
    if k == 0 {
        reveal(Seq::filter);
        assert(all_values().take(0) =~= Seq::<char>::empty());
    } else {
        lemma_candidates_among(g, r, c, k - 1);
        lemma_filter_step(all_values(), test, k - 1);
        let before = all_values().take(k - 1).filter(test);
        let d0 = all_values()[k - 1];
        assert(d0 == '1' as int + k - 1);
        assert forall|d: char|
            found.contains(d) <==> is_candidate(g, r, c, d) && d < '1' as int + k by {
            if found.contains(d) {
                let i = choose|i: int| 0 <= i < found.len() && found[i] == d;
                if i < before.len() {
                    assert(before.contains(found[i]));
                }
            }
            if is_candidate(g, r, c, d) && d < '1' as int + k {
                if d == d0 {
                    assert(found[found.len() - 1] == d);
                } else {
                    assert(before.contains(d));
                    let i = choose|i: int| 0 <= i < before.len() && before[i] == d;
                    assert(found[i] == d);
                }
            }
        }
    }
}

/// The candidate sequence of a cell lists each candidate once, in ascending
/// order, and nothing else.
pub proof fn lemma_candidate_seq(g: Grid, r: int, c: int)
    ensures
        candidate_seq(g, r, c).len() <= 9,
        ascending(candidate_seq(g, r, c)),
        forall|d: char| candidate_seq(g, r, c).contains(d) <==> is_candidate(g, r, c, d),
        forall|i: int|
            0 <= i < candidate_seq(g, r, c).len()
                ==> is_candidate(g, r, c, #[trigger] candidate_seq(g, r, c)[i]),
{
    let options = candidate_seq(g, r, c);
    lemma_candidates_among(g, r, c, 9);
    assert(all_values().take(9) =~= all_values());
    assert forall|i: int| 0 <= i < options.len() implies is_candidate(
        g,
        r,
        c,
        #[trigger] options[i],
    ) by {
        assert(options.contains(options[i]));
    }
}

/// A cell sits in its block at its index in the block.
pub proof fn lemma_block_index(g: Grid, r: int, c: int)
    requires
        on_board(r, c),
    ensures
        0 <= block_of(r, c) < 9,
        0 <= index_in_block(r, c) < 9,
        block_cells(g, block_of(r, c))[index_in_block(r, c)] == g[r][c],
{
}

/// In a valid grid a filled cell differs from every cell that shares a row,
/// a column or a block with it.
pub proof fn lemma_valid_peers(g: Grid, r1: int, c1: int, r2: int, c2: int)
    requires
        well_formed(g),
        valid(g),
        peers(r1, c1, r2, c2),
        g[r1][c1] != EMPTY,
    ensures
        g[r1][c1] != g[r2][c2],
{
    if g[r1][c1] == g[r2][c2] {
        if r1 == r2 {
            let cells = row_cells(g, r1);
            if c1 < c2 {
                assert(cells[c1] == cells[c2]);
            } else {
                assert(cells[c2] == cells[c1]);
            }
            assert(has_duplicate(cells));
            assert(row_valid(g, r1));
        } else if c1 == c2 {
            let cells = column_cells(g, c1);
            if r1 < r2 {
                assert(cells[r1] == cells[r2]);
            } else {
                assert(cells[r2] == cells[r1]);
            }
            assert(has_duplicate(cells));
            assert(column_valid(g, c1));
        } else {
            let b = block_of(r1, c1);
            assert(b == block_of(r2, c2));
            let cells = block_cells(g, b);
            let i1 = index_in_block(r1, c1);
            let i2 = index_in_block(r2, c2);
            lemma_block_index(g, r1, c1);
            lemma_block_index(g, r2, c2);
            if i1 < i2 {
                assert(cells[i1] == cells[i2]);
            } else {
                assert(i1 != i2);
                assert(cells[i2] == cells[i1]);
            }
            assert(has_duplicate(cells));
            assert(block_valid(g, b));
        }
    }
}

/// A digit is a candidate for a cell exactly when no cell that shares a row,
/// a column or a block with it, nor the cell itself, holds the digit.
pub proof fn lemma_candidate_by_peers(g: Grid, r: int, c: int, d: char)
    requires
        well_formed(g),
        on_board(r, c),
    ensures
        is_candidate(g, r, c, d) <==> is_value(d) && g[r][c] != d && forall|r2: int, c2: int|
            peers(r, c, r2, c2) ==> #[trigger] g[r2][c2] != d,
{
    let b = block_of(r, c);
    lemma_block_index(g, r, c);
    if is_candidate(g, r, c, d) {
        assert(row_cells(g, r)[c] == g[r][c]);
        assert forall|r2: int, c2: int| peers(r, c, r2, c2) implies #[trigger] g[r2][c2] != d by {
            if r2 == r {
                assert(row_cells(g, r)[c2] == g[r2][c2]);
            } else if c2 == c {
                assert(column_cells(g, c)[r2] == g[r2][c2]);
            } else {
                lemma_block_index(g, r2, c2);
                assert(block_of(r2, c2) == b);
            }
        }
    }
    if is_value(d) && g[r][c] != d && (forall|r2: int, c2: int|
        peers(r, c, r2, c2) ==> #[trigger] g[r2][c2] != d) {
        assert forall|i: int| 0 <= i < 9 implies row_cells(g, r)[i] != d by {
            if i != c {
                assert(peers(r, c, r, i));
            }
        }
        assert forall|i: int| 0 <= i < 9 implies column_cells(g, c)[i] != d by {
            if i != r {
                assert(peers(r, c, i, c));
            }
        }
        assert forall|i: int| 0 <= i < 9 implies block_cells(g, b)[i] != d by {
            let r2 = i % 3 + (b / 3) * 3;
            let c2 = i / 3 + (b % 3) * 3;
            if r2 != r || c2 != c {
                assert(peers(r, c, r2, c2));
            }
        }
    }
}

/// Whatever a solution puts into a cell that the puzzle left empty is one of
/// the cell's candidates.
pub proof fn lemma_solution_uses_candidate(s: Grid, g: Grid, r: int, c: int)
    requires
        well_formed(g),
        is_solution_of(s, g),
        on_board(r, c),
        g[r][c] == EMPTY,
    ensures
        is_candidate(g, r, c, s[r][c]),
{
    let d = s[r][c];
    assert(is_digit(d) && d != EMPTY);
    lemma_candidate_by_peers(g, r, c, d);
    assert forall|r2: int, c2: int| peers(r, c, r2, c2) implies #[trigger] g[r2][c2] != d by {
        if g[r2][c2] == d {
            assert(s[r2][c2] == d);
            lemma_valid_peers(s, r, c, r2, c2);
        }
    }
}

/// A solution of the puzzle with one more cell filled is a solution of the
/// puzzle itself; a solution of the puzzle is a solution of the puzzle with
/// one more cell filled as the solution fills it.
pub proof fn lemma_solution_through_place(s: Grid, g: Grid, r: int, c: int, d: char)
    requires
        well_formed(g),
        on_board(r, c),
        g[r][c] == EMPTY,
    ensures
        is_solution_of(s, place(g, r, c, d)) ==> is_solution_of(s, g),
        is_solution_of(s, g) && s[r][c] == d ==> is_solution_of(s, place(g, r, c, d)),
{
    lemma_place(g, r, c, d);
    let h = place(g, r, c, d);
    if is_solution_of(s, h) {
        assert forall|i: int, j: int| on_board(i, j) && g[i][j] != EMPTY implies #[trigger] s[i][j]
            == g[i][j] by {
            assert(h[i][j] == g[i][j]);
        }
    }
    if is_solution_of(s, g) && s[r][c] == d {
        assert forall|i: int, j: int| on_board(i, j) && h[i][j] != EMPTY implies #[trigger] s[i][j]
            == h[i][j] by {
            if !(i == r && j == c) {
                assert(h[i][j] == g[i][j]);
            }
        }
    }
}

/// A full grid has no solution but itself.
pub proof fn lemma_full_grid_is_own_solution(s: Grid, g: Grid)
    requires
        well_formed(g),
        filled(g),
        is_solution_of(s, g),
    ensures
        s == g,
{
    assert forall|i: int| 0 <= i < 9 implies s[i] == g[i] by {
        assert forall|j: int| 0 <= j < 9 implies s[i][j] == g[i][j] by {
            assert(on_board(i, j));
        }
        assert(s[i] =~= g[i]);
    }
    assert(s =~= g);
}

/// Emptying a cell that was filled from empty gives the grid back.
pub proof fn lemma_place_undo(g: Grid, r: int, c: int, d: char)
    requires
        well_formed(g),
        on_board(r, c),
        g[r][c] == EMPTY,
    ensures
        place(place(g, r, c, d), r, c, EMPTY) == g,
{
    assert(place(place(g, r, c, d), r, c, EMPTY) =~~= g);
}

/// A grid that repeats a digit in a row, a column or a block has no
/// solution: the repetition stays, whatever is filled in.
pub proof fn lemma_invalid_has_no_solution(g: Grid, s: Grid)
    requires
        well_formed(g),
        !valid(g),
    ensures
        !is_solution_of(s, g),
{
    if is_solution_of(s, g) {
        let k = choose|k: int|
            0 <= k < 9 && !(row_valid(g, k) && column_valid(g, k) && block_valid(g, k));
        if !row_valid(g, k) {
            let cells = row_cells(g, k);
            let (i, j) = choose|i: int, j: int|
                #![trigger cells[i], cells[j]]
                0 <= i < j < cells.len() && cells[i] != EMPTY && cells[i] == cells[j];
            assert(on_board(k, i) && on_board(k, j));
            assert(row_cells(s, k)[i] == row_cells(s, k)[j]);
            assert(has_duplicate(row_cells(s, k)));
            assert(row_valid(s, k));
        } else if !column_valid(g, k) {
            let cells = column_cells(g, k);
            let (i, j) = choose|i: int, j: int|
                #![trigger cells[i], cells[j]]
                0 <= i < j < cells.len() && cells[i] != EMPTY && cells[i] == cells[j];
            assert(on_board(i, k) && on_board(j, k));
            assert(column_cells(s, k)[i] == column_cells(s, k)[j]);
            assert(has_duplicate(column_cells(s, k)));
            assert(column_valid(s, k));
        } else {
            let cells = block_cells(g, k);
            let (i, j) = choose|i: int, j: int|
                #![trigger cells[i], cells[j]]
                0 <= i < j < cells.len() && cells[i] != EMPTY && cells[i] == cells[j];
            assert(on_board(i % 3 + (k / 3) * 3, i / 3 + (k % 3) * 3));
            assert(on_board(j % 3 + (k / 3) * 3, j / 3 + (k % 3) * 3));
            assert(block_cells(s, k)[i] == block_cells(s, k)[j]);
            assert(has_duplicate(block_cells(s, k)));
            assert(block_valid(s, k));
        }
    }
}

/// Two ascending sequences with the same elements are the same sequence.
pub proof fn lemma_ascending_unique(a: Seq<char>, b: Seq<char>)
    requires
        ascending(a),
        ascending(b),
        forall|d: char| a.contains(d) <==> b.contains(d),
    ensures
        a == b,
    decreases a.len(),
{
    if a.len() == 0 {
        if b.len() > 0 {
            assert(b.contains(b[0]));
        }
        assert(a =~= b);
    } else {
        let top = a.last();
        assert(a.contains(top));
        assert(b.contains(top));
        let at = choose|i: int| 0 <= i < b.len() && b[i] == top;
        assert(b.contains(b.last()));
        assert(a.contains(b.last()));
        let back = choose|i: int| 0 <= i < a.len() && a[i] == b.last();
        assert(at == b.len() - 1);
        let a0 = a.drop_last();
        let b0 = b.drop_last();
        assert forall|d: char| a0.contains(d) <==> b0.contains(d) by {
            if a0.contains(d) {
                let i = choose|i: int| 0 <= i < a0.len() && a0[i] == d;
                assert(a[i] == d);
                assert(a.contains(d));
                let j = choose|j: int| 0 <= j < b.len() && b[j] == d;
                assert(j < b.len() - 1);
                assert(b0[j] == d);
            }
            if b0.contains(d) {
                let j = choose|j: int| 0 <= j < b0.len() && b0[j] == d;
                assert(b[j] == d);
                assert(b.contains(d));
                let i = choose|i: int| 0 <= i < a.len() && a[i] == d;
                assert(i < a.len() - 1);
                assert(a0[i] == d);
            }
        }
        lemma_ascending_unique(a0, b0);
        assert(a =~= a0.push(top));
        assert(b =~= b0.push(top));
    }
}

/// Filling an empty cell with a digit takes that digit from the candidates
/// of the cells that share a row, a column or a block with it, and changes
/// no other cell's candidates.
pub proof fn lemma_candidates_after_place(
    g: Grid,
    r: int,
    c: int,
    v: char,
    r2: int,
    c2: int,
    d: char,
)
    requires
        well_formed(g),
        on_board(r, c),
        on_board(r2, c2),
        r2 != r || c2 != c,
        g[r][c] == EMPTY,
        is_value(v),
    ensures
        is_candidate(place(g, r, c, v), r2, c2, d)
            <==> is_candidate(g, r2, c2, d) && !(peers(r2, c2, r, c) && d == v),
{
    let h = place(g, r, c, v);
    lemma_place(g, r, c, v);
    lemma_candidate_by_peers(g, r2, c2, d);
    lemma_candidate_by_peers(h, r2, c2, d);
    if is_candidate(h, r2, c2, d) {
        assert forall|r3: int, c3: int| peers(r2, c2, r3, c3) implies #[trigger] g[r3][c3]
            != d by {
            assert(h[r3][c3] != d);
        }
        if peers(r2, c2, r, c) {
            assert(h[r][c] != d);
        }
    }
    if is_candidate(g, r2, c2, d) && !(peers(r2, c2, r, c) && d == v) {
        assert forall|r3: int, c3: int| peers(r2, c2, r3, c3) implies #[trigger] h[r3][c3]
            != d by {
            assert(g[r3][c3] != d);
        }
    }
}

} // verus!
