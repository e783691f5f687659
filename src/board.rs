use vstd::prelude::*;
use vstd::string::StringSliceAdditionalSpecFns;

use crate::text::{byte_cell, byte_of, cells_of_text, meaningful_byte, text_of, text_prefix, ParseError};

verus! {

/// One square of the grid.
#[derive(Debug, Clone, Copy, PartialEq, Eq, Structural)]
pub enum Cell {
    Empty,
    Path { color: u8 },
    Head { color: u8 },
}

impl Cell {
    /// Whether the cell is filled with the given color (as a path or a head).
    pub open spec fn has_color(self, color: u8) -> bool {
        match self {
            Cell::Empty => false,
            Cell::Path { color: c } => c == color,
            Cell::Head { color: c } => c == color,
        }
    }

    /// The color of a filled cell.
    pub open spec fn color_of(self) -> u8 {
        match self {
            Cell::Empty => 0,
            Cell::Path { color } => color,
            Cell::Head { color } => color,
        }
    }

    /// The color of a filled cell; an empty cell has none.
    pub fn color(&self) -> (r: u8)
        requires
            *self !is Empty,
        ensures
            r == self.color_of(),
            self.has_color(r),
    {
        match self {
            Cell::Empty => 0,
            Cell::Path { color } => *color,
            Cell::Head { color } => *color,
        }
    }

    pub fn is_head(&self) -> (r: bool)
        ensures
            r == (*self is Head),
    {
        match self {
            Cell::Head { .. } => true,
            _ => false,
        }
    }

    pub fn is_empty(&self) -> (r: bool)
        ensures
            r == (*self is Empty),
    {
        match self {
            Cell::Empty => true,
            _ => false,
        }
    }

    fn is_of_color(&self, color: u8) -> (r: bool)
        ensures
            r == self.has_color(color),
    {
        match self {
            Cell::Empty => false,
            Cell::Path { color: c } => *c == color,
            Cell::Head { color: c } => *c == color,
        }
    }
}

/// The mathematical picture of a board: its dimensions and its cells in
/// row-major order.
pub struct Grid {
    pub rows: int,
    pub cols: int,
    pub cells: Seq<Cell>,
}

pub proof fn lemma_flat_index(rows: int, cols: int, r: int, c: int)
    requires
        0 <= r < rows,
        0 <= c < cols,
    ensures
        0 <= r * cols + c < rows * cols,
{
    assert(0 <= r * cols + c < rows * cols) by (nonlinear_arith)
        requires
            0 <= r < rows,
            0 <= c < cols,
    ;
}

impl Grid {
    /// Dimensions agree with the number of cells, which fits in memory.
    pub open spec fn wf(self) -> bool {
        &&& 0 <= self.rows <= usize::MAX
        &&& 0 <= self.cols <= usize::MAX
        &&& self.cells.len() == self.rows * self.cols
        &&& self.rows * self.cols <= usize::MAX
    }

    pub open spec fn in_bounds(self, r: int, c: int) -> bool {
        0 <= r < self.rows && 0 <= c < self.cols
    }

    pub open spec fn at(self, r: int, c: int) -> Cell {
        self.cells[r * self.cols + c]
    }

    /// The grid with the cell at (r, c) replaced.
    pub open spec fn with_cell(self, r: int, c: int, cell: Cell) -> Grid {
        Grid { cells: self.cells.update(r * self.cols + c, cell), ..self }
    }

    /// Neighbour `d` of (r, c): 0 above, 1 to the left, 2 below, 3 to the
    /// right; Empty past the edges of the grid.
    pub open spec fn neighbor(self, r: int, c: int, d: int) -> Cell {
        if d == 0 {
            if r > 0 { self.at(r - 1, c) } else { Cell::Empty }
        } else if d == 1 {
            if c > 0 { self.at(r, c - 1) } else { Cell::Empty }
        } else if d == 2 {
            if r + 1 < self.rows { self.at(r + 1, c) } else { Cell::Empty }
        } else {
            if c + 1 < self.cols { self.at(r, c + 1) } else { Cell::Empty }
        }
    }

    /// How many of the four neighbours of (r, c) are filled with `color`.
    pub open spec fn color_neighbors(self, color: u8, r: int, c: int) -> int {
        (if self.neighbor(r, c, 0).has_color(color) { 1int } else { 0int })
            + (if self.neighbor(r, c, 1).has_color(color) { 1int } else { 0int })
            + (if self.neighbor(r, c, 2).has_color(color) { 1int } else { 0int })
            + (if self.neighbor(r, c, 3).has_color(color) { 1int } else { 0int })
    }

    /// A path cell touches one or two cells of its color, a head at most one.
    pub open spec fn legal_at(self, r: int, c: int) -> bool {
        match self.at(r, c) {
            Cell::Empty => true,
            Cell::Path { color } => 1 <= self.color_neighbors(color, r, c) <= 2,
            Cell::Head { color } => self.color_neighbors(color, r, c) <= 1,
        }
    }

    /// The cell is filled; a path cell touches exactly two cells of its
    /// color, a head exactly one.
    pub open spec fn solved_at(self, r: int, c: int) -> bool {
        match self.at(r, c) {
            Cell::Empty => false,
            Cell::Path { color } => self.color_neighbors(color, r, c) == 2,
            Cell::Head { color } => self.color_neighbors(color, r, c) == 1,
        }
    }

    pub open spec fn is_legal(self) -> bool {
        forall|r: int, c: int| self.in_bounds(r, c) ==> #[trigger] self.legal_at(r, c)
    }

    pub open spec fn is_solved(self) -> bool {
        forall|r: int, c: int| self.in_bounds(r, c) ==> #[trigger] self.solved_at(r, c)
    }

    /// No cell is empty.
    pub open spec fn is_full(self) -> bool {
        forall|i: int| 0 <= i < self.cells.len() ==> !(#[trigger] self.cells[i] is Empty)
    }

    /// Empty neighbour `d` of (r, c) as a coordinate, in the order of
    /// `neighbor`; None past the edges or where that neighbour is filled.
    pub open spec fn empty_slot(self, r: int, c: int, d: int) -> Option<(usize, usize)> {
        if d == 0 {
            if r > 0 && self.at(r - 1, c) is Empty { Some(((r - 1) as usize, c as usize)) } else { None }
        } else if d == 1 {
            if c > 0 && self.at(r, c - 1) is Empty { Some((r as usize, (c - 1) as usize)) } else { None }
        } else if d == 2 {
            if r + 1 < self.rows && self.at(r + 1, c) is Empty { Some(((r + 1) as usize, c as usize)) } else { None }
        } else {
            if c + 1 < self.cols && self.at(r, c + 1) is Empty { Some((r as usize, (c + 1) as usize)) } else { None }
        }
    }

    /// The empty neighbours of (r, c), in the order above, left, below, right.
    pub open spec fn moves(self, r: int, c: int) -> Seq<(usize, usize)> {
        option_seq(self.empty_slot(r, c, 0)) + option_seq(self.empty_slot(r, c, 1))
            + option_seq(self.empty_slot(r, c, 2)) + option_seq(self.empty_slot(r, c, 3))
    }

    /// A head of the given color next to (r, c), looked for above, below,
    /// to the left and to the right, in that order.
    pub open spec fn head_beside(self, r: int, c: int, color: u8) -> Option<(usize, usize)> {
        if r > 0 && self.at(r - 1, c) == (Cell::Head { color }) {
            Some(((r - 1) as usize, c as usize))
        } else if r + 1 < self.rows && self.at(r + 1, c) == (Cell::Head { color }) {
            Some(((r + 1) as usize, c as usize))
        } else if c > 0 && self.at(r, c - 1) == (Cell::Head { color }) {
            Some((r as usize, (c - 1) as usize))
        } else if c + 1 < self.cols && self.at(r, c + 1) == (Cell::Head { color }) {
            Some((r as usize, (c + 1) as usize))
        } else {
            None
        }
    }

    /// A cell that a move may go to: inside the grid and empty.
    pub open spec fn free(self, p: (usize, usize)) -> bool {
        self.in_bounds(p.0 as int, p.1 as int) && self.at(p.0 as int, p.1 as int) is Empty
    }

    /// The empty neighbours of a cell are free cells.
    pub proof fn lemma_moves_free(self, r: int, c: int)
        requires
            self.wf(),
            self.in_bounds(r, c),
        ensures
            forall|k: int| 0 <= k < self.moves(r, c).len() ==> self.free(#[trigger] self.moves(r, c)[k]),
    {
        let s0 = option_seq(self.empty_slot(r, c, 0));
        let s1 = option_seq(self.empty_slot(r, c, 1));
        let s2 = option_seq(self.empty_slot(r, c, 2));
        let s3 = option_seq(self.empty_slot(r, c, 3));
        assert(forall|k: int| 0 <= k < s0.len() ==> self.free(#[trigger] s0[k]));
        assert(forall|k: int| 0 <= k < s1.len() ==> self.free(#[trigger] s1[k]));
        assert(forall|k: int| 0 <= k < s2.len() ==> self.free(#[trigger] s2[k]));
        assert(forall|k: int| 0 <= k < s3.len() ==> self.free(#[trigger] s3[k]));
        let a = s0 + s1;
        let b = a + s2;
        assert(forall|k: int| 0 <= k < a.len() ==> self.free(#[trigger] a[k]));
        assert(forall|k: int| 0 <= k < b.len() ==> self.free(#[trigger] b[k]));
        assert(self.moves(r, c) == b + s3);
    }

    /// Bit `d` is set where neighbour `d` carries the color of (r, c).
    pub open spec fn orientation(self, r: int, c: int) -> int {
        let own = self.at(r, c).color_of();
        (if self.neighbor(r, c, 0).has_color(own) { 1int } else { 0int })
            + (if self.neighbor(r, c, 1).has_color(own) { 2int } else { 0int })
            + (if self.neighbor(r, c, 2).has_color(own) { 4int } else { 0int })
            + (if self.neighbor(r, c, 3).has_color(own) { 8int } else { 0int })
    }

    /// The grid with every cell but the heads cleared.
    pub open spec fn stripped(self) -> Grid {
        Grid {
            cells: Seq::new(
                self.cells.len(),
                |i: int| if self.cells[i] is Head { self.cells[i] } else { Cell::Empty },
            ),
            ..self
        }
    }

    /// The colors that some head carries.
    pub open spec fn head_colors(self) -> Set<u8> {
        Set::new(|color: u8| exists|i: int| 0 <= i < self.cells.len() && self.cells[i] == (Cell::Head { color }))
    }

    /// Every color is carried by exactly two heads, or by none.
    pub open spec fn is_valid(self) -> bool {
        forall|color: u8| #[trigger] head_count(self.cells, color) == 0 || head_count(self.cells, color) == 2
    }
}

pub open spec fn option_seq<A>(o: Option<A>) -> Seq<A> {
    match o {
        Some(a) => seq![a],
        None => Seq::empty(),
    }
}

/// How many heads of the given color the sequence holds.
pub open spec fn head_count(cells: Seq<Cell>, color: u8) -> nat
    decreases cells.len(),
{
    if cells.len() == 0 {
        0
    } else {
        head_count(cells.drop_last(), color) + if cells.last() == (Cell::Head { color }) { 1nat } else { 0nat }
    }
}

/// A row-major index splits into a row and a column within the grid.
pub proof fn lemma_unflatten(rows: int, cols: int, i: int)
    requires
        rows >= 0,
        cols >= 0,
        0 <= i < rows * cols,
    ensures
        cols > 0,
        0 <= i / cols < rows,
        0 <= i % cols < cols,
        (i / cols) * cols + i % cols == i,
{
    if cols <= 0 {
        assert(rows * cols <= 0) by (nonlinear_arith)
            requires
                rows >= 0,
                cols <= 0,
        ;
    }
    vstd::arithmetic::div_mod::lemma_fundamental_div_mod(i, cols);
    vstd::arithmetic::div_mod::lemma_mod_pos_bound(i, cols);
    let q = i / cols;
    assert(q * cols == cols * q) by (nonlinear_arith);
    assert(0 <= q < rows) by (nonlinear_arith)
        requires
            i == cols * q + i % cols,
            0 <= i % cols < cols,
            0 <= i < rows * cols,
            cols > 0,
    ;
}

/// A solved board is legal.
pub proof fn lemma_solved_is_legal(g: Grid)
    ensures
        g.is_solved() ==> g.is_legal(),
{
    if g.is_solved() {
        assert forall|r: int, c: int| g.in_bounds(r, c) implies #[trigger] g.legal_at(r, c) by {
            assert(g.solved_at(r, c));
        }
    }
}

/// Distinct cells have distinct row-major indices.
pub proof fn lemma_flat_index_injective(cols: int, r1: int, c1: int, r2: int, c2: int)
    requires
        0 <= c1 < cols,
        0 <= c2 < cols,
        r1 * cols + c1 == r2 * cols + c2,
    ensures
        r1 == r2,
        c1 == c2,
{
    assert(r1 == r2) by (nonlinear_arith)
        requires
            0 <= c1 < cols,
            0 <= c2 < cols,
            r1 * cols + c1 == r2 * cols + c2,
    {
        if r1 < r2 {
            assert(r1 * cols + cols <= r2 * cols);
        } else if r2 < r1 {
            assert(r2 * cols + cols <= r1 * cols);
        }
    }
}

impl Grid {
    /// A path cell at (r, c) touches a cell of its color.
    pub open spec fn attached_at(self, r: int, c: int) -> bool {
        self.at(r, c) matches Cell::Path { color } ==> self.color_neighbors(color, r, c) >= 1
    }

    /// No path cell stands alone.
    pub open spec fn paths_attached(self) -> bool {
        forall|r: int, c: int| self.in_bounds(r, c) ==> #[trigger] self.attached_at(r, c)
    }

    /// A cell with more neighbours of its color than a legal board allows.
    pub open spec fn overfull_at(self, r: int, c: int) -> bool {
        match self.at(r, c) {
            Cell::Empty => false,
            Cell::Path { color } => self.color_neighbors(color, r, c) > 2,
            Cell::Head { color } => self.color_neighbors(color, r, c) > 1,
        }
    }
}

/// Filling an empty cell with a path changes no other cell, and no cell of
/// the grid has fewer neighbours of any color than before.
pub proof fn lemma_add_path_counts_grow(g: Grid, r: int, c: int, color: u8)
    requires
        g.wf(),
        g.in_bounds(r, c),
        g.at(r, c) is Empty,
    ensures
        forall|i: int, j: int|
            g.in_bounds(i, j) && (i != r || j != c) ==> #[trigger] g.with_cell(r, c, Cell::Path { color }).at(i, j)
                == g.at(i, j),
        forall|k: u8, i: int, j: int|
            g.in_bounds(i, j) ==> #[trigger] g.with_cell(r, c, Cell::Path { color }).color_neighbors(k, i, j)
                >= g.color_neighbors(k, i, j),
{
    let h = g.with_cell(r, c, Cell::Path { color });
    lemma_flat_index(g.rows, g.cols, r, c);
    assert forall|i: int, j: int| g.in_bounds(i, j) implies #[trigger] h.at(i, j) == if i == r && j == c {
        Cell::Path { color }
    } else {
        g.at(i, j)
    } by {
        lemma_flat_index(g.rows, g.cols, i, j);
        if i * g.cols + j == r * g.cols + c {
            lemma_flat_index_injective(g.cols, i, j, r, c);
        }
    }
    assert forall|k: u8, i: int, j: int| g.in_bounds(i, j) implies #[trigger] h.color_neighbors(k, i, j)
        >= g.color_neighbors(k, i, j) by {
        if i > 0 {
            assert(h.at(i - 1, j) == if i - 1 == r && j == c { Cell::Path { color } } else { g.at(i - 1, j) });
        }
        if j > 0 {
            assert(h.at(i, j - 1) == if i == r && j - 1 == c { Cell::Path { color } } else { g.at(i, j - 1) });
        }
        if i + 1 < g.rows {
            assert(h.at(i + 1, j) == if i + 1 == r && j == c { Cell::Path { color } } else { g.at(i + 1, j) });
        }
        if j + 1 < g.cols {
            assert(h.at(i, j + 1) == if i == r && j + 1 == c { Cell::Path { color } } else { g.at(i, j + 1) });
        }
    }
}

/// Along path placements on empty cells legality is never regained once a
/// cell has too many neighbours of its color: that cell keeps its content
/// and its neighbour counts only grow.
pub proof fn lemma_add_path_keeps_overfull(g: Grid, r: int, c: int, color: u8)
    requires
        g.wf(),
        g.in_bounds(r, c),
        g.at(r, c) is Empty,
        exists|i: int, j: int| g.in_bounds(i, j) && #[trigger] g.overfull_at(i, j),
    ensures
        exists|i: int, j: int|
            g.in_bounds(i, j) && #[trigger] g.with_cell(r, c, Cell::Path { color }).overfull_at(i, j),
        !g.is_legal(),
        !g.with_cell(r, c, Cell::Path { color }).is_legal(),
{
    let h = g.with_cell(r, c, Cell::Path { color });
    lemma_add_path_counts_grow(g, r, c, color);
    let (i, j) = choose|i: int, j: int| g.in_bounds(i, j) && #[trigger] g.overfull_at(i, j);
    assert(i != r || j != c);
    assert(h.at(i, j) == g.at(i, j));
    assert(h.overfull_at(i, j));
    assert(!g.legal_at(i, j));
    assert(!h.legal_at(i, j));
}

/// A rectangular grid of cells, stored row by row.
#[derive(Debug)]
pub struct Board {
    rows: usize,
    cols: usize,
    cells: Vec<Cell>,
}

impl View for Board {
    type V = Grid;

    closed spec fn view(&self) -> Grid {
        Grid { rows: self.rows as int, cols: self.cols as int, cells: self.cells@ }
    }
}

impl Clone for Board {
    fn clone(&self) -> (r: Board)
        ensures
            r@ == self@,
    {
        let mut cells: Vec<Cell> = Vec::new();
        let mut i: usize = 0;
        while i < self.cells.len()
            invariant
                i <= self.cells@.len(),
                cells@ == self.cells@.subrange(0, i as int),
            decreases self.cells.len() - i,
        {
            cells.push(self.cells[i]);
            i += 1;
            assert(cells@ =~= self.cells@.subrange(0, i as int));
        }
        assert(cells@ =~= self.cells@);
        Board { rows: self.rows, cols: self.cols, cells }
    }
}

impl PartialEq for Board {
    fn eq(&self, other: &Board) -> (r: bool)
        ensures
            r == (self@ == other@),
    {
        if self.rows != other.rows || self.cols != other.cols || self.cells.len() != other.cells.len() {
            return false;
        }
        let mut i: usize = 0;
        while i < self.cells.len()
            invariant
                i <= self.cells@.len(),
                self.cells@.len() == other.cells@.len(),
                forall|k: int| 0 <= k < i ==> #[trigger] self.cells@[k] == other.cells@[k],
            decreases self.cells.len() - i,
        {
            if self.cells[i] != other.cells[i] {
                return false;
            }
            i += 1;
        }
        assert(self.cells@ =~= other.cells@);
        true
    }
}

impl vstd::std_specs::cmp::PartialEqSpecImpl for Board {
    open spec fn obeys_eq_spec() -> bool {
        true
    }

    open spec fn eq_spec(&self, other: &Board) -> bool {
        self@ == other@
    }
}

impl Board {
    pub open spec fn wf(&self) -> bool {
        self@.wf()
    }

    /// An empty board of the given dimensions.
    pub fn new(rows: usize, cols: usize) -> (b: Board)
        requires
            rows * cols <= usize::MAX,
        ensures
            b.wf(),
            b@.rows == rows,
            b@.cols == cols,
            forall|i: int| 0 <= i < b@.cells.len() ==> #[trigger] b@.cells[i] == Cell::Empty,
    {
        let n: usize = rows * cols;
        let mut cells: Vec<Cell> = Vec::new();
        let mut i: usize = 0;
        while i < n
            invariant
                i <= n,
                cells@.len() == i,
                forall|k: int| 0 <= k < i ==> #[trigger] cells@[k] == Cell::Empty,
            decreases n - i,
        {
            cells.push(Cell::Empty);
            i += 1;
        }
        Board { rows, cols, cells }
    }

    pub fn rows(&self) -> (r: usize)
        ensures
            r == self@.rows,
    {
        self.rows
    }

    pub fn cols(&self) -> (r: usize)
        ensures
            r == self@.cols,
    {
        self.cols
    }

    /// The number of cells.
    pub fn len(&self) -> (r: usize)
        requires
            self.wf(),
        ensures
            r == self@.cells.len(),
    {
        self.cells.len()
    }

    /// The cell at (row, col).
    pub fn cell(&self, row: usize, col: usize) -> (r: Cell)
        requires
            self.wf(),
            self@.in_bounds(row as int, col as int),
        ensures
            r == self@.at(row as int, col as int),
    {
        proof {
            lemma_flat_index(self.rows as int, self.cols as int, row as int, col as int);
        }
        self.cells[row * self.cols + col]
    }

    /// The cell at a row-major index.
    pub fn cell_at(&self, index: usize) -> (r: Cell)
        requires
            self.wf(),
            index < self@.cells.len(),
        ensures
            r == self@.cells[index as int],
    {
        self.cells[index]
    }

    /// The row and column of a row-major index.
    pub fn inverse_ind(&self, index: usize) -> (r: (usize, usize))
        requires
            self.wf(),
            index < self@.cells.len(),
        ensures
            r.0 == index as int / self@.cols,
            r.1 == index as int % self@.cols,
            self@.in_bounds(r.0 as int, r.1 as int),
            r.0 * self@.cols + r.1 == index,
            self@.at(r.0 as int, r.1 as int) == self@.cells[index as int],
    {
        proof {
            lemma_unflatten(self.rows as int, self.cols as int, index as int);
        }
        (index / self.cols, index % self.cols)
    }

    /// The empty neighbours of a cell, in the order above, left, below,
    /// right; None past the edges or where the neighbour is filled.
    pub fn empty_neighbors(&self, row: usize, col: usize) -> (r: [Option<(usize, usize)>; 4])
        requires
            self.wf(),
            self@.in_bounds(row as int, col as int),
        ensures
            forall|d: int| 0 <= d < 4 ==> #[trigger] r@[d] == self@.empty_slot(row as int, col as int, d),
    {
        let up = if row > 0 && self.cell(row - 1, col).is_empty() { Some((row - 1, col)) } else { None };
        let left = if col > 0 && self.cell(row, col - 1).is_empty() { Some((row, col - 1)) } else { None };
        let down = if row + 1 < self.rows && self.cell(row + 1, col).is_empty() {
            Some((row + 1, col))
        } else {
            None
        };
        let right = if col + 1 < self.cols && self.cell(row, col + 1).is_empty() {
            Some((row, col + 1))
        } else {
            None
        };
        let r = [up, left, down, right];
        assert(r@[0] == up && r@[1] == left && r@[2] == down && r@[3] == right);
        r
    }

    /// A head of the given color next to (row, col), looked for above,
    /// below, to the left and to the right, in that order.
    pub fn neighbor_head(&self, row: usize, col: usize, color: u8) -> (r: Option<(usize, usize)>)
        requires
            self.wf(),
            self@.in_bounds(row as int, col as int),
        ensures
            r == self@.head_beside(row as int, col as int, color),
    {
        let target = Cell::Head { color };
        if row > 0 && self.cell(row - 1, col) == target {
            return Some((row - 1, col));
        }
        if row + 1 < self.rows && self.cell(row + 1, col) == target {
            return Some((row + 1, col));
        }
        if col > 0 && self.cell(row, col - 1) == target {
            return Some((row, col - 1));
        }
        if col + 1 < self.cols && self.cell(row, col + 1) == target {
            return Some((row, col + 1));
        }
        None
    }

    /// For drawing: a four-bit mask of the neighbours that carry the color
    /// of the filled cell at `index` (1 above, 2 left, 4 below, 8 right).
    pub fn orientation(&self, index: usize) -> (r: u8)
        requires
            self.wf(),
            index < self@.cells.len(),
            self@.cells[index as int] !is Empty,
        ensures
            r == self@.orientation(index as int / self@.cols, index as int % self@.cols),
    {
        let pos = self.inverse_ind(index);
        let nb = self.neighbors_or_empty(pos);
        let own = self.cell_at(index).color();
        let mut out: u8 = 0;
        if nb[0].is_of_color(own) {
            out += 1;
        }
        if nb[1].is_of_color(own) {
            out += 2;
        }
        if nb[2].is_of_color(own) {
            out += 4;
        }
        if nb[3].is_of_color(own) {
            out += 8;
        }
        out
    }

    /// Puts `cell` at (row, col).
    pub fn set_cell(board: &mut Board, row: usize, col: usize, cell: Cell)
        requires
            old(board).wf(),
            old(board)@.in_bounds(row as int, col as int),
        ensures
            final(board)@ == old(board)@.with_cell(row as int, col as int, cell),
            final(board).wf(),
    {
        proof {
            lemma_flat_index(board.rows as int, board.cols as int, row as int, col as int);
        }
        let idx = row * board.cols + col;
        board.cells.set(idx, cell);
    }

    /// Puts a path cell of the given color at (row, col).
    pub fn add_path(&mut self, row: usize, col: usize, color: u8)
        requires
            old(self).wf(),
            old(self)@.in_bounds(row as int, col as int),
        ensures
            final(self)@ == old(self)@.with_cell(row as int, col as int, Cell::Path { color }),
            final(self).wf(),
    {
        Board::set_cell(self, row, col, Cell::Path { color });
    }

    /// Clears every cell but the heads.
    pub fn strip(&mut self)
        requires
            old(self).wf(),
        ensures
            final(self)@ == old(self)@.stripped(),
            final(self).wf(),
    {
        let n = self.cells.len();
        let mut i: usize = 0;
        while i < n
            invariant
                n == self.cells@.len(),
                i <= n,
                self.rows == old(self).rows,
                self.cols == old(self).cols,
                self.cells@.len() == old(self).cells@.len(),
                forall|k: int| 0 <= k < i ==> #[trigger] self.cells@[k] == old(self)@.stripped().cells[k],
                forall|k: int| i <= k < n ==> #[trigger] self.cells@[k] == old(self).cells@[k],
            decreases n - i,
        {
            if !self.cells[i].is_head() {
                self.cells.set(i, Cell::Empty);
            }
            i += 1;
        }
        assert(self@.cells =~= old(self)@.stripped().cells);
    }

    /// The number of distinct colors carried by heads.
    pub fn num_colors(&self) -> (r: usize)
        requires
            self.wf(),
        ensures
            r == self@.head_colors().len(),
    {
        let mut colors: Vec<u8> = Vec::new();
        let mut i: usize = 0;
        while i < self.cells.len()
            invariant
                self.wf(),
                i <= self.cells.len(),
                colors@.no_duplicates(),
                colors@.len() <= i,
                forall|c: u8|
                    colors@.contains(c) <==> exists|k: int|
                        0 <= k < i && self@.cells[k] == (Cell::Head { color: c }),
            decreases self.cells.len() - i,
        {
            let cell = self.cells[i];
            if let Cell::Head { color } = cell {
                let mut j: usize = 0;
                let mut seen = false;
                while j < colors.len()
                    invariant
                        j <= colors@.len(),
                        seen == exists|k: int| 0 <= k < j && colors@[k] == color,
                    decreases colors.len() - j,
                {
                    if colors[j] == color {
                        seen = true;
                    }
                    j += 1;
                }
                let ghost before = colors@;
                if !seen {
                    colors.push(color);
                }
                assert forall|c: u8|
                    colors@.contains(c) <==> exists|k: int|
                        0 <= k < i + 1 && self@.cells[k] == (Cell::Head { color: c }) by {
                    if c == color {
                        assert(self@.cells[i as int] == (Cell::Head { color: c }));
                        if seen {
                            let j = choose|j: int| 0 <= j < before.len() && before[j] == color;
                            assert(colors@[j] == c);
                        } else {
                            assert(colors@[before.len() as int] == c);
                        }
                    }
                    if colors@.contains(c) && c != color {
                        let j = choose|j: int| 0 <= j < colors@.len() && colors@[j] == c;
                        assert(j < before.len());
                        assert(before[j] == c);
                        assert(before.contains(c));
                        assert(exists|k: int| 0 <= k < i && self@.cells[k] == (Cell::Head { color: c }));
                    }
                    if before.contains(c) {
                        let j = choose|j: int| 0 <= j < before.len() && before[j] == c;
                        assert(colors@[j] == c);
                    }
                    if exists|k: int| 0 <= k < i + 1 && self@.cells[k] == (Cell::Head { color: c }) {
                        if c != color {
                            let k = choose|k: int| 0 <= k < i + 1 && self@.cells[k] == (Cell::Head { color: c });
                            assert(k < i);
                        }
                    }
                }
            } else {
                assert forall|c: u8|
                    colors@.contains(c) <==> exists|k: int|
                        0 <= k < i + 1 && self@.cells[k] == (Cell::Head { color: c }) by {
                    if exists|k: int| 0 <= k < i + 1 && self@.cells[k] == (Cell::Head { color: c }) {
                        let k = choose|k: int| 0 <= k < i + 1 && self@.cells[k] == (Cell::Head { color: c });
                        assert(k < i);
                    }
                }
            }
            i += 1;
        }
        proof {
            colors@.unique_seq_to_set();
            assert(colors@.to_set() =~= self@.head_colors());
        }
        colors.len()
    }

    /// Whether every color is carried by exactly two heads, or by none.
    pub fn is_valid(&self) -> (r: bool)
        requires
            self.wf(),
        ensures
            r == self@.is_valid(),
    {
        let mut counts: Vec<usize> = Vec::new();
        let mut c: usize = 0;
        while c < 256
            invariant
                c <= 256,
                counts@.len() == c,
                forall|k: int| 0 <= k < c ==> #[trigger] counts@[k] == 0,
            decreases 256 - c,
        {
            counts.push(0);
            c += 1;
        }
        let mut i: usize = 0;
        while i < self.cells.len()
            invariant
                self.wf(),
                i <= self.cells.len(),
                counts@.len() == 256,
                forall|k: int|
                    0 <= k < 256 ==> #[trigger] counts@[k] == head_count(self@.cells.subrange(0, i as int), k as u8),
                forall|k: int| 0 <= k < 256 ==> #[trigger] counts@[k] <= i,
            decreases self.cells.len() - i,
        {
            let prefix = Ghost(self@.cells.subrange(0, i as int));
            assert(self@.cells.subrange(0, i + 1).drop_last() =~= prefix@);
            if let Cell::Head { color } = self.cells[i] {
                let k = color as usize;
                let v = counts[k];
                counts.set(k, v + 1);
            }
            i += 1;
        }
        assert(self@.cells.subrange(0, i as int) =~= self@.cells);
        let mut c: usize = 0;
        while c < 256
            invariant
                c <= 256,
                counts@.len() == 256,
                forall|k: int| 0 <= k < 256 ==> #[trigger] counts@[k] == head_count(self@.cells, k as u8),
                forall|k: int| 0 <= k < c ==> #[trigger] head_count(self@.cells, k as u8) == 0
                    || head_count(self@.cells, k as u8) == 2,
            decreases 256 - c,
        {
            if counts[c] != 0 && counts[c] != 2 {
                assert(head_count(self@.cells, c as u8) != 0 && head_count(self@.cells, c as u8) != 2);
                return false;
            }
            c += 1;
        }
        assert forall|color: u8| #[trigger] head_count(self@.cells, color) == 0 || head_count(self@.cells, color) == 2 by {
            assert(head_count(self@.cells, (color as int) as u8) == 0 || head_count(self@.cells, (color as int) as u8) == 2);
        }
        true
    }

    /// Reads a board of the given dimensions from puzzle text. Bytes other
    /// than ASCII letters, digits and punctuation are layout and skipped;
    /// each remaining byte is one cell, row by row. The text must describe
    /// exactly rows × cols cells.
    pub fn load_board(board_str: &str, rows: usize, cols: usize) -> (r: Result<Board, ParseError>)
        ensures
            match r {
                Ok(b) => b.wf() && b@ == (Grid {
                    rows: rows as int,
                    cols: cols as int,
                    cells: cells_of_text(board_str.spec_bytes()),
                }),
                Err(ParseError::WrongCellCount { found }) => found == cells_of_text(board_str.spec_bytes()).len()
                    && found != rows * cols,
            },
    {
        let bytes = board_str.as_bytes();
        let mut cells: Vec<Cell> = Vec::new();
        let mut i: usize = 0;
        while i < bytes.len()
            invariant
                i <= bytes@.len(),
                cells@ == cells_of_text(bytes@.subrange(0, i as int)),
                cells@.len() <= i,
            decreases bytes.len() - i,
        {
            let b = bytes[i];
            assert(bytes@.subrange(0, i + 1).drop_last() =~= bytes@.subrange(0, i as int));
            if meaningful_byte(b) {
                cells.push(byte_cell(b));
            }
            i += 1;
        }
        assert(bytes@.subrange(0, i as int) =~= bytes@);
        match rows.checked_mul(cols) {
            Some(n) => {
                if n == cells.len() {
                    Ok(Board { rows, cols, cells })
                } else {
                    Err(ParseError::WrongCellCount { found: cells.len() })
                }
            },
            None => Err(ParseError::WrongCellCount { found: cells.len() }),
        }
    }

    /// The board written out row by row, each row ended by a newline: '.'
    /// for an empty cell, a lower-case letter for a path, an upper-case one
    /// for a head (a is color 0), '?' for a color past z.
    pub fn to_text(&self) -> (r: Vec<u8>)
        requires
            self.wf(),
        ensures
            r@ == text_of(self@),
    {
        let n = self.cells.len();
        let mut out: Vec<u8> = Vec::new();
        let mut i: usize = 0;
        while i < n
            invariant
                self.wf(),
                n == self@.cells.len(),
                i <= n,
                out@ == text_prefix(self@, i as int),
                out@.len() <= 2 * i,
            decreases n - i,
        {
            proof {
                lemma_unflatten(self.rows as int, self.cols as int, i as int);
            }
            out.push(byte_of(self.cells[i]));
            if (i + 1) % self.cols == 0 {
                out.push(10);
            }
            i += 1;
        }
        out
    }

    /// The four neighbours of a cell, in the order above, left, below,
    /// right, with Empty past the edges.
    fn neighbors_or_empty(&self, ind: (usize, usize)) -> (r: [Cell; 4])
        requires
            self.wf(),
            self@.in_bounds(ind.0 as int, ind.1 as int),
        ensures
            forall|d: int| 0 <= d < 4 ==> #[trigger] r@[d] == self@.neighbor(ind.0 as int, ind.1 as int, d),
    {
        let (row, col) = ind;
        let up = if row > 0 { self.cell(row - 1, col) } else { Cell::Empty };
        let left = if col > 0 { self.cell(row, col - 1) } else { Cell::Empty };
        let down = if row + 1 < self.rows { self.cell(row + 1, col) } else { Cell::Empty };
        let right = if col + 1 < self.cols { self.cell(row, col + 1) } else { Cell::Empty };
        let r = [up, left, down, right];
        assert(r@[0] == up && r@[1] == left && r@[2] == down && r@[3] == right);
        r
    }

    fn num_neighbors_of_color(&self, color: u8, row: usize, col: usize) -> (n: u32)
        requires
            self.wf(),
            self@.in_bounds(row as int, col as int),
        ensures
            n == self@.color_neighbors(color, row as int, col as int),
            n <= 4,
    {
        let nb = self.neighbors_or_empty((row, col));
        let mut n: u32 = 0;
        if nb[0].is_of_color(color) {
            n += 1;
        }
        if nb[1].is_of_color(color) {
            n += 1;
        }
        if nb[2].is_of_color(color) {
            n += 1;
        }
        if nb[3].is_of_color(color) {
            n += 1;
        }
        n
    }

    fn legal_at(&self, row: usize, col: usize) -> (r: bool)
        requires
            self.wf(),
            self@.in_bounds(row as int, col as int),
        ensures
            r == self@.legal_at(row as int, col as int),
    {
        match self.cell(row, col) {
            Cell::Empty => true,
            Cell::Path { color } => {
                let n = self.num_neighbors_of_color(color, row, col);
                1 <= n && n <= 2
            },
            Cell::Head { color } => self.num_neighbors_of_color(color, row, col) <= 1,
        }
    }

    fn solved_at(&self, row: usize, col: usize) -> (r: bool)
        requires
            self.wf(),
            self@.in_bounds(row as int, col as int),
        ensures
            r == self@.solved_at(row as int, col as int),
    {
        match self.cell(row, col) {
            Cell::Empty => false,
            Cell::Path { color } => self.num_neighbors_of_color(color, row, col) == 2,
            Cell::Head { color } => self.num_neighbors_of_color(color, row, col) == 1,
        }
    }

    /// Whether the paths are laid out legally.
    pub fn is_legal(&self) -> (r: bool)
        requires
            self.wf(),
        ensures
            r == self@.is_legal(),
    {
        let mut i: usize = 0;
        while i < self.rows
            invariant
                self.wf(),
                i <= self.rows,
                forall|r: int, c: int|
                    0 <= r < i && 0 <= c < self.cols ==> #[trigger] self@.legal_at(r, c),
            decreases self.rows - i,
        {
            let mut j: usize = 0;
            while j < self.cols
                invariant
                    self.wf(),
                    i < self.rows,
                    j <= self.cols,
                    forall|r: int, c: int|
                        (0 <= r < i && 0 <= c < self.cols) || (r == i && 0 <= c < j)
                            ==> #[trigger] self@.legal_at(r, c),
                decreases self.cols - j,
            {
                if !self.legal_at(i, j) {
                    return false;
                }
                j += 1;
            }
            i += 1;
        }
        true
    }

    /// Whether every cell is filled and every path is finished.
    pub fn is_solved(&self) -> (r: bool)
        requires
            self.wf(),
        ensures
            r == self@.is_solved(),
    {
        let mut i: usize = 0;
        while i < self.rows
            invariant
                self.wf(),
                i <= self.rows,
                forall|r: int, c: int|
                    0 <= r < i && 0 <= c < self.cols ==> #[trigger] self@.solved_at(r, c),
            decreases self.rows - i,
        {
            let mut j: usize = 0;
            while j < self.cols
                invariant
                    self.wf(),
                    i < self.rows,
                    j <= self.cols,
                    forall|r: int, c: int|
                        (0 <= r < i && 0 <= c < self.cols) || (r == i && 0 <= c < j)
                            ==> #[trigger] self@.solved_at(r, c),
                decreases self.cols - j,
            {
                if !self.solved_at(i, j) {
                    return false;
                }
                j += 1;
            }
            i += 1;
        }
        true
    }

    /// Whether no cell is empty.
    pub fn is_full(&self) -> (r: bool)
        requires
            self.wf(),
        ensures
            r == self@.is_full(),
    {
        let mut i: usize = 0;
        while i < self.cells.len()
            invariant
                self.wf(),
                i <= self.cells.len(),
                forall|k: int| 0 <= k < i ==> !(#[trigger] self@.cells[k] is Empty),
            decreases self.cells.len() - i,
        {
            if self.cells[i].is_empty() {
                return false;
            }
            i += 1;
        }
        true
    }
}

/// Along path placements on empty cells, a board that lost its legality
/// never regains it, as long as no path cell of it stands alone: its fault
/// is then a cell with too many neighbours of its color, and that stays.
pub proof fn lemma_add_path_keeps_illegal(g: Grid, r: int, c: int, color: u8)
    requires
        g.wf(),
        g.in_bounds(r, c),
        g.at(r, c) is Empty,
        !g.is_legal(),
        g.paths_attached(),
    ensures
        !g.with_cell(r, c, Cell::Path { color }).is_legal(),
{
    let (i, j) = choose|i: int, j: int| g.in_bounds(i, j) && !#[trigger] g.legal_at(i, j);
    assert(g.attached_at(i, j));
    assert(g.overfull_at(i, j));
    lemma_add_path_keeps_overfull(g, r, c, color);
}

} // verus!
