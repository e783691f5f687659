//! The puzzle text format: one character per cell, row by row, with layout
//! characters skipped.

use vstd::prelude::*;

use crate::board::{Cell, Grid};

verus! {

/// The puzzle text's rejection: the number of cells it describes is not
/// rows × cols.
#[derive(Debug, Clone, Copy, PartialEq, Eq, Structural)]
pub enum ParseError {
    WrongCellCount { found: usize },
}

/// ASCII letters and digits.
pub open spec fn is_alphanumeric(b: u8) -> bool {
    (48 <= b <= 57) || (65 <= b <= 90) || (97 <= b <= 122)
}

/// ASCII punctuation.
pub open spec fn is_punctuation(b: u8) -> bool {
    (33 <= b <= 47) || (58 <= b <= 64) || (91 <= b <= 96) || (123 <= b <= 126)
}

/// A byte of puzzle text that describes a cell; every other byte is layout.
pub open spec fn is_meaningful(b: u8) -> bool {
    is_alphanumeric(b) || is_punctuation(b)
}

/// A lower-case letter is a path of the letter's color (a is 0), an
/// upper-case letter a head, anything else an empty cell.
pub open spec fn cell_of_byte(b: u8) -> Cell {
    if 97 <= b <= 122 {
        Cell::Path { color: (b - 97) as u8 }
    } else if 65 <= b <= 90 {
        Cell::Head { color: (b - 65) as u8 }
    } else {
        Cell::Empty
    }
}

/// The cells that puzzle text describes, in order.
pub open spec fn cells_of_text(text: Seq<u8>) -> Seq<Cell>
    decreases text.len(),
{
    if text.len() == 0 {
        Seq::empty()
    } else if is_meaningful(text.last()) {
        cells_of_text(text.drop_last()).push(cell_of_byte(text.last()))
    } else {
        cells_of_text(text.drop_last())
    }
}

/// How a cell is written: '.' when empty, a lower-case letter for a path
/// and an upper-case one for a head; '?' for a color with no letter.
pub open spec fn byte_of_cell(c: Cell) -> u8 {
    match c {
        Cell::Empty => 46,
        Cell::Path { color } => if color < 26 { (97 + color) as u8 } else { 63 },
        Cell::Head { color } => if color < 26 { (65 + color) as u8 } else { 63 },
    }
}

/// The text of the first `n` cells of a grid, each row ended by a newline.
pub open spec fn text_prefix(g: Grid, n: int) -> Seq<u8>
    decreases n,
{
    if n <= 0 {
        Seq::empty()
    } else {
        let t = text_prefix(g, n - 1).push(byte_of_cell(g.cells[n - 1]));
        if n % g.cols == 0 { t.push(10) } else { t }
    }
}

pub open spec fn text_of(g: Grid) -> Seq<u8> {
    text_prefix(g, g.cells.len() as int)
}

/// Every filled cell has a color with a letter.
pub open spec fn lettered(g: Grid) -> bool {
    forall|i: int| 0 <= i < g.cells.len() ==> (#[trigger] g.cells[i]).color_of() < 26
}

/// A board written out reads back as itself: the text of a board whose cells
/// are heads and empty cells, with a letter for each color, describes exactly
/// its cells, so loading it with the board's dimensions gives the board.
pub proof fn lemma_text_round_trip(g: Grid)
    requires
        g.wf(),
        forall|i: int| 0 <= i < g.cells.len() ==> (#[trigger] g.cells[i]) is Head || g.cells[i] is Empty,
        lettered(g),
    ensures
        cells_of_text(text_of(g)) == g.cells,
        cells_of_text(text_of(g)).len() == g.rows * g.cols,
{
    lemma_text_prefix_cells(g, g.cells.len() as int);
    assert(g.cells.subrange(0, g.cells.len() as int) =~= g.cells);
}

proof fn lemma_text_prefix_cells(g: Grid, n: int)
    requires
        g.wf(),
        lettered(g),
        0 <= n <= g.cells.len(),
    ensures
        cells_of_text(text_prefix(g, n)) == g.cells.subrange(0, n),
    decreases n,
{
    if n > 0 {
        lemma_text_prefix_cells(g, n - 1);
        let prev = text_prefix(g, n - 1);
        let c = g.cells[n - 1];
        let t = prev.push(byte_of_cell(c));
        assert(c.color_of() < 26);
        assert(t.drop_last() =~= prev);
        assert(cell_of_byte(byte_of_cell(c)) == c);
        assert(cells_of_text(t) =~= g.cells.subrange(0, n));
        if n % g.cols == 0 {
            assert(t.push(10).drop_last() =~= t);
        }
    } else {
        assert(g.cells.subrange(0, 0) =~= Seq::<Cell>::empty());
    }
}

pub(crate) fn meaningful_byte(b: u8) -> (r: bool)
    ensures
        r == is_meaningful(b),
{
    (48 <= b && b <= 57) || (65 <= b && b <= 90) || (97 <= b && b <= 122) || (33 <= b && b <= 47) || (58 <= b
        && b <= 64) || (91 <= b && b <= 96) || (123 <= b && b <= 126)
}

pub(crate) fn byte_cell(b: u8) -> (r: Cell)
    ensures
        r == cell_of_byte(b),
{
    if 97 <= b && b <= 122 {
        Cell::Path { color: b - 97 }
    } else if 65 <= b && b <= 90 {
        Cell::Head { color: b - 65 }
    } else {
        Cell::Empty
    }
}

pub(crate) fn byte_of(c: Cell) -> (r: u8)
    ensures
        r == byte_of_cell(c),
{
    match c {
        Cell::Empty => 46,
        Cell::Path { color } => if color < 26 { 97 + color } else { 63 },
        Cell::Head { color } => if color < 26 { 65 + color } else { 63 },
    }
}

} // verus!
