//! The board as text.

use crate::board::SudokuBoard;
use crate::import::numeral;
use crate::model::Technique;
use crate::puzzle::Puzzle;
use crate::topology::cell_index;
use vstd::prelude::*;
use vstd::string::StringExecFns;

verus! {

/// A cell value in decimal, without leading zeros.
pub open spec fn decimal(v: u8) -> Seq<char> {
    if v >= 100 {
        seq![numeral(v as int / 100), numeral((v as int / 10) % 10), numeral(v as int % 10)]
    } else if v >= 10 {
        seq![numeral(v as int / 10), numeral(v as int % 10)]
    } else {
        seq![numeral(v as int)]
    }
}

/// The text of a cell: a dot for an empty cell, else the value, and a space after it.
pub open spec fn cell_text(v: u8) -> Seq<char> {
    if v == 0 {
        "· "@
    } else {
        decimal(v).push(' ')
    }
}

/// The text of the first `n` cells of row `r`, with a bar after the third and the sixth.
pub open spec fn cells_text(grid: Seq<u8>, r: int, n: int) -> Seq<char>
    decreases n,
{
    if n <= 0 {
        Seq::empty()
    } else {
        cells_text(grid, r, n - 1) + cell_text(grid[r * 9 + n - 1]) + if n % 3 == 0 && n < 9 {
            "│ "@
        } else {
            Seq::empty()
        }
    }
}

/// The line of row `r`.
pub open spec fn row_text(grid: Seq<u8>, r: int) -> Seq<char> {
    "│ "@ + cells_text(grid, r, 9) + "│\n"@
}

/// The lines of the first `n` rows, with a rule after the third and the sixth.
pub open spec fn rows_text(grid: Seq<u8>, n: int) -> Seq<char>
    decreases n,
{
    if n <= 0 {
        Seq::empty()
    } else {
        rows_text(grid, n - 1) + row_text(grid, n - 1) + if n % 3 == 0 && n < 9 {
            "├───────┼───────┼───────┤\n"@
        } else {
            Seq::empty()
        }
    }
}

/// The picture of a grid: a frame around the nine rows.
pub open spec fn picture(grid: Seq<u8>) -> Seq<char> {
    "┌───────┬───────┬───────┐\n"@ + rows_text(grid, 9) + "└───────┴───────┴───────┘\n"@
}

/// The name under which a technique is counted.
pub open spec fn technique_name(t: Technique) -> Seq<char> {
    match t {
        Technique::Singles => "singles"@,
        Technique::NakedPairs => "naked_pairs"@,
        Technique::NakedTriples => "naked_triples"@,
        Technique::HiddenPairs => "hidden_pairs"@,
        Technique::HiddenTriples => "hidden_triples"@,
        Technique::XWing => "x_wing"@,
        Technique::YWing => "y_wing"@,
    }
}

impl Technique {
    /// The name under which the technique is counted.
    pub fn name(&self) -> (name: &'static str)
        ensures
            name@ == technique_name(*self),
    {
        match self {
            Technique::Singles => "singles",
            Technique::NakedPairs => "naked_pairs",
            Technique::NakedTriples => "naked_triples",
            Technique::HiddenPairs => "hidden_pairs",
            Technique::HiddenTriples => "hidden_triples",
            Technique::XWing => "x_wing",
            Technique::YWing => "y_wing",
        }
    }
}

/// The character that stands for the number `n`, for a number from 0 to 9.
fn numeral_char(n: u8) -> (c: char)
    requires
        n <= 9,
    ensures
        c == numeral(n as int),
{
    if n == 0 {
        '0'
    } else if n == 1 {
        '1'
    } else if n == 2 {
        '2'
    } else if n == 3 {
        '3'
    } else if n == 4 {
        '4'
    } else if n == 5 {
        '5'
    } else if n == 6 {
        '6'
    } else if n == 7 {
        '7'
    } else if n == 8 {
        '8'
    } else {
        '9'
    }
}

/// Appends the text of a cell.
fn push_cell(text: &mut String, v: u8)
    ensures
        final(text)@ == old(text)@ + cell_text(v),
{
    if v == 0 {
        text.append("· ");
    } else {
        if v >= 100 {
            text.push(numeral_char(v / 100));
        }
        if v >= 10 {
            text.push(numeral_char((v / 10) % 10));
        }
        text.push(numeral_char(v % 10));
        text.push(' ');
        proof {
            assert(text@ =~= old(text)@ + cell_text(v));
        }
    }
}

impl SudokuBoard {
    /// The picture of the grid: one line for each row, a dot for an empty cell, and a frame
    /// that sets the boxes apart.
    pub fn render(&self) -> (text: String)
        requires
            self.wf(),
        ensures
            text@ == picture(self@.grid),
    {
        let ghost grid = self@.grid;
        let mut text = String::from_str("┌───────┬───────┬───────┐\n");
        let mut r: usize = 0;
        while r < 9
            invariant
                r <= 9,
                self.wf(),
                grid == self@.grid,
                text@ == "┌───────┬───────┬───────┐\n"@ + rows_text(grid, r as int),
            decreases 9 - r,
        {
            let ghost before = text@;
            text.append("│ ");
            let mut c: usize = 0;
            while c < 9
                invariant
                    c <= 9,
                    r < 9,
                    self.wf(),
                    grid == self@.grid,
                    text@ == before + "│ "@ + cells_text(grid, r as int, c as int),
                decreases 9 - c,
            {
                let ghost so_far = text@;
                let k = cell_index(r, c);
                push_cell(&mut text, self.grid[k]);
                if (c + 1) % 3 == 0 && c < 8 {
                    text.append("│ ");
                }
                proof {
                    assert(text@ =~= before + "│ "@ + cells_text(grid, r as int, c + 1));
                }
                c = c + 1;
            }
            text.append("│\n");
            if (r + 1) % 3 == 0 && r < 8 {
                text.append("├───────┼───────┼───────┤\n");
            }
            proof {
                assert(text@ =~= "┌───────┬───────┬───────┐\n"@ + rows_text(grid, r + 1));
            }
            r = r + 1;
        }
        text.append("└───────┴───────┴───────┘\n");
        text
    }
}

impl Puzzle {
    /// The name of the puzzle on a line of its own, and under it the picture of its grid.
    pub fn render(&self) -> (text: String)
        requires
            self.wf(),
        ensures
            text@ == "Puzzle: "@ + self@.name + "\n"@ + picture(self@.board.grid),
    {
        let mut text = String::from_str("Puzzle: ");
        text.append(self.name().as_str());
        text.append("\n");
        let board = self.board().render();
        text.append(board.as_str());
        text
    }
}

} // verus!
