use vstd::prelude::*;

use crate::digit::Digit;
use crate::grid::Grid;
use crate::solver::{pos, wf_sudoku, Sudoku};

verus! {

/// The Unicode white-space property of a character.
pub uninterp spec fn is_unicode_whitespace(c: char) -> bool;

/// Relies on `char::is_whitespace`: true exactly on characters with the
/// Unicode White_Space property, a function of the character alone.
#[verifier::external_body]
fn char_is_whitespace(c: char) -> (r: bool)
    ensures
        r == is_unicode_whitespace(c),
{
    c.is_whitespace()
}

/// The given digits of a puzzle, as plain integers.
pub open spec fn puzzle_digits(g: Sudoku) -> Seq<Option<int>> {
    Seq::new(81, |p: int| match g@[p] {
        Some(d) => Some(d@),
        None => None,
    })
}

/// The all-blank puzzle.
pub open spec fn blank_puzzle() -> Seq<Option<int>> {
    Seq::new(81, |p: int| None)
}

/// The text scan, one character at a time from position `t`: a newline moves
/// to the next row, a dot or white space leaves a cell blank, a digit 1..=9
/// fills the current cell, and anything else — or a digit outside the 9x9
/// board — rejects the whole text.
pub open spec fn scan_cells(
    cs: Seq<char>,
    t: int,
    row: int,
    col: int,
    g: Seq<Option<int>>,
) -> Option<Seq<Option<int>>>
    decreases cs.len() - t,
{
    if t < 0 || t >= cs.len() {
        Some(g)
    } else {
        let c = cs[t];
        if c == '\n' {
            scan_cells(cs, t + 1, row + 1, 0, g)
        } else if c == '.' || is_unicode_whitespace(c) {
            scan_cells(cs, t + 1, row, col + 1, g)
        } else if 49 <= c as int <= 57 {
            if row < 9 && col < 9 {
                scan_cells(cs, t + 1, row, col + 1, g.update(pos(row, col), Some(c as int - 48)))
            } else {
                None
            }
        } else {
            None
        }
    }
}

impl Grid<Option<Digit>> {
    /// Parse a puzzle text: one row per line, `.` or white space for a blank
    /// cell, a digit character for a given cell. Rejects any other character,
    /// the digit 0, and digits outside the 9x9 board.
    pub fn parse(data: &str) -> (r: Option<Sudoku>)
        ensures
            r matches Some(g) ==> wf_sudoku(g) && scan_cells(data@, 0, 0, 0, blank_puzzle())
                == Some(puzzle_digits(g)),
            r is None <==> scan_cells(data@, 0, 0, 0, blank_puzzle()) is None,
    {
        let mut grid: Sudoku = Grid::splat(None);
        proof {
            assert(puzzle_digits(grid) =~= blank_puzzle());
        }
        let n = data.unicode_len();
        let mut t: usize = 0;
        let mut row: usize = 0;
        let mut col: usize = 0;
        while t < n
            invariant
                n == data@.len(),
                t <= n,
                row <= t,
                col <= t,
                grid@.len() == 81,
                wf_sudoku(grid),
                scan_cells(data@, t as int, row as int, col as int, puzzle_digits(grid))
                    == scan_cells(data@, 0, 0, 0, blank_puzzle()),
            decreases n - t,
        {
            let c = data.get_char(t);
            if c == '\n' {
                row = row + 1;
                col = 0;
            } else if c == '.' {
                col = col + 1;
            } else if char_is_whitespace(c) {
                col = col + 1;
            } else {
                let v = c as u32;
                if 49 <= v && v <= 57 {
                    if row < 9 && col < 9 {
                        let ghost gprev = grid;
                        let d = Digit::unchecked((v - 48) as u8);
                        grid.set(row, col, Some(d));
                        proof {
                            assert(puzzle_digits(grid) =~= puzzle_digits(gprev).update(
                                pos(row as int, col as int),
                                Some(c as int - 48),
                            ));
                        }
                        col = col + 1;
                    } else {
                        return None;
                    }
                } else {
                    return None;
                }
            }
            t = t + 1;
        }
        Some(grid)
    }
}

} // verus!
