//! The board as text.
//!
//! Each row becomes a line of its nine digits, with a bar between the
//! blocks; a rule separates the bands of three rows:
//!
//! ```text
//! 530|070|000
//! 600|195|000
//! 098|000|060
//! ---+---+---
//! 800|060|003
//! ```

use vstd::prelude::*;
use crate::sudoku::grid::Grid;
use crate::sudoku::Sudoku;

verus! {

/// A row as text: its three groups of three digits, with a bar after the
/// first two and a line break at the end.
pub open spec fn row_text(cells: Seq<char>) -> Seq<char> {
    cells.subrange(0, 3) + seq!['|'] + cells.subrange(3, 6) + seq!['|'] + cells.subrange(6, 9)
        + seq!['\n']
}

/// The line that separates two bands of three rows.
pub open spec fn rule_text() -> Seq<char> {
    seq!['-', '-', '-', '+', '-', '-', '-', '+', '-', '-', '-', '\n']
}

/// The whole grid as text: its nine rows, with a rule after the third and
/// the sixth.
pub open spec fn board_text(g: Grid) -> Seq<char> {
    row_text(g[0]) + row_text(g[1]) + row_text(g[2]) + rule_text()
        + row_text(g[3]) + row_text(g[4]) + row_text(g[5]) + rule_text()
        + row_text(g[6]) + row_text(g[7]) + row_text(g[8])
}

/// The text of the first `n` cells of a row, with what follows them.
pub open spec fn row_text_so_far(cells: Seq<char>, n: int) -> Seq<char>
    decreases n,
{
    if n <= 0 {
        Seq::empty()
    } else {
        let text = row_text_so_far(cells, n - 1).push(cells[n - 1]);
        if n == 3 || n == 6 {
            text.push('|')
        } else if n == 9 {
            text.push('\n')
        } else {
            text
        }
    }
}

/// The text of the first `n` rows of the grid, with what follows them.
pub open spec fn board_text_so_far(g: Grid, n: int) -> Seq<char>
    decreases n,
{
    if n <= 0 {
        Seq::empty()
    } else {
        let text = board_text_so_far(g, n - 1) + row_text(g[n - 1]);
        if n == 3 || n == 6 {
            text + rule_text()
        } else {
            text
        }
    }
}

/// The text of all nine cells of a row is the text of the row.
pub proof fn lemma_row_text_complete(cells: Seq<char>)
    requires
        cells.len() == 9,
    ensures
        row_text_so_far(cells, 9) == row_text(cells),
{
    reveal_with_fuel(row_text_so_far, 10);
    assert(row_text_so_far(cells, 9) =~= row_text(cells));
}

/// The text of all nine rows of a grid is the text of the grid.
pub proof fn lemma_board_text_complete(g: Grid)
    ensures
        board_text_so_far(g, 9) == board_text(g),
{
    reveal_with_fuel(board_text_so_far, 10);
    assert(board_text_so_far(g, 1) =~= row_text(g[0]));
}

/// Appends one character to the text: `String::push` of the standard
/// library, which puts the character at the end and leaves what was there.
#[verifier::external_body]
fn push_char(text: &mut String, c: char)
    ensures
        final(text)@ == old(text)@.push(c),
{
    text.push(c);
}

impl Sudoku {
    /// The board as text, ready to be shown.
    pub fn board_string(&self) -> (text: String)
        requires
            self.wf(),
        ensures
            text@ == board_text(self@),
    {
        let mut board_string = String::new();
        for row_index in 0..9usize
            invariant
                self.wf(),
                board_string@ == board_text_so_far(self@, row_index as int),
        {
            let ghost above = board_string@;
            for column_index in 0..9usize
                invariant
                    self.wf(),
                    row_index < 9,
                    board_string@
                        == above + row_text_so_far(self@[row_index as int], column_index as int),
            {
                push_char(&mut board_string, self.cell(row_index, column_index));
                if column_index == 2 || column_index == 5 {
                    push_char(&mut board_string, '|');
                }
                if column_index == 8 {
                    push_char(&mut board_string, '\n');
                }
                assert(board_string@
                    =~= above + row_text_so_far(self@[row_index as int], column_index + 1));
            }
            proof {
                lemma_row_text_complete(self@[row_index as int]);
            }
            if row_index == 2 || row_index == 5 {
                proof {
                    reveal_strlit("---+---+---\n");
                }
                board_string.append("---+---+---\n");
                assert("---+---+---\n"@ =~= rule_text());
            }
        }
        proof {
            lemma_board_text_complete(self@);
        }
        board_string
    }
}

} // verus!
