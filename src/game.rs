use vstd::prelude::*;
use vstd::string::StringSliceAdditionalSpecFns;

use crate::board::{Board, Cell, Grid};
use crate::solver::Coord;
use crate::text::{cells_of_text, ParseError};

verus! {

/// The picture of a path the player draws: its cells in drawing order, and
/// whether it has reached its second head.
pub struct PathModel {
    pub cells: Seq<Coord>,
    pub complete: bool,
}

/// Where `p` first stands in `s`, looking from `k` on.
pub open spec fn first_index(s: Seq<Coord>, p: Coord, k: int) -> Option<int>
    decreases s.len() - k,
{
    if k < 0 || k >= s.len() {
        None
    } else if s[k] == p {
        Some(k)
    } else {
        first_index(s, p, k + 1)
    }
}

pub proof fn lemma_first_index(s: Seq<Coord>, p: Coord, k: int)
    requires
        0 <= k,
    ensures
        first_index(s, p, k) matches Some(i) ==> k <= i < s.len() && s[i] == p,
        first_index(s, p, k) is None ==> forall|i: int| k <= i < s.len() ==> s[i] != p,
    decreases s.len() - k,
{
    if k < s.len() {
        lemma_first_index(s, p, k + 1);
    }
}

impl PathModel {
    pub open spec fn empty() -> PathModel {
        PathModel { cells: Seq::empty(), complete: false }
    }

    /// The path cut so that it ends at position `idx`. A complete path cut in
    /// its first half keeps the part from `idx` on, turned around, so that
    /// the end the player holds is the one that stays.
    pub open spec fn cut_at(self, idx: int) -> PathModel {
        PathModel {
            cells: if self.complete && idx < self.cells.len() / 2 {
                self.cells.subrange(idx, self.cells.len() as int).reverse()
            } else {
                self.cells.subrange(0, idx + 1)
            },
            complete: false,
        }
    }

    /// The path cut so that it ends just before position `idx`, on the same
    /// rule as `cut_at`.
    pub open spec fn cut_before(self, idx: int) -> PathModel {
        PathModel {
            cells: if self.complete && idx < self.cells.len() / 2 {
                self.cells.subrange(idx + 1, self.cells.len() as int).reverse()
            } else {
                self.cells.subrange(0, idx)
            },
            complete: false,
        }
    }

    /// `cut_at` the first place of `p`; unchanged where `p` is not on the path.
    pub open spec fn cut_at_cell(self, p: Coord) -> PathModel {
        match first_index(self.cells, p, 0) {
            Some(i) => self.cut_at(i),
            None => self,
        }
    }

    /// `cut_before` the first place of `p`; unchanged where `p` is not on
    /// the path.
    pub open spec fn cut_before_cell(self, p: Coord) -> PathModel {
        match first_index(self.cells, p, 0) {
            Some(i) => self.cut_before(i),
            None => self,
        }
    }

    /// Only the last cell is kept, and the path is open again.
    pub open spec fn restart(self) -> PathModel {
        PathModel {
            cells: if self.cells.len() > 0 { seq![self.cells.last()] } else { Seq::empty() },
            complete: false,
        }
    }

    pub open spec fn add(self, p: Coord) -> PathModel {
        PathModel { cells: self.cells.push(p), ..self }
    }
}

/// The grid with the given cells painted as paths of `color`, in order;
/// heads, and cells off the grid, are left as they are.
pub open spec fn paint_cells(g: Grid, cells: Seq<Coord>, color: u8) -> Grid
    decreases cells.len(),
{
    if cells.len() == 0 {
        g
    } else {
        let h = paint_cells(g, cells.drop_last(), color);
        let p = cells.last();
        if !h.in_bounds(p.0 as int, p.1 as int) || h.at(p.0 as int, p.1 as int) is Head {
            h
        } else {
            h.with_cell(p.0 as int, p.1 as int, Cell::Path { color })
        }
    }
}

/// The grid with the first `k` paths painted, path `i` in color `i`.
pub open spec fn paint(g: Grid, paths: Seq<PathModel>, k: int) -> Grid
    decreases k,
{
    if k <= 0 {
        g
    } else {
        paint_cells(paint(g, paths, k - 1), paths[k - 1].cells, #[verifier::truncate] ((k - 1) as u8))
    }
}

/// The grid's heads with all the paths painted over them.
pub open spec fn painted(g: Grid, paths: Seq<PathModel>) -> Grid {
    paint(g.stripped(), paths, paths.len() as int)
}

/// The picture of an editing session.
pub struct GameModel {
    pub board: Grid,
    pub dragging: bool,
    pub color: int,
    pub finished: bool,
    pub paths: Seq<PathModel>,
}

impl GameModel {
    pub open spec fn wf(self) -> bool {
        self.board.wf()
    }

    /// The board painted from the paths. Where that breaks the rules, the
    /// path being drawn is dropped, dragging stops, and the board is painted
    /// again.
    pub open spec fn repainted(self) -> GameModel {
        let g = painted(self.board, self.paths);
        if g.is_legal() {
            GameModel { board: g, ..self }
        } else {
            let paths = self.paths.update(self.color, PathModel { cells: Seq::empty(), ..self.paths[self.color] });
            GameModel { board: painted(g, paths), paths, dragging: false, ..self }
        }
    }

    /// A press on (r, c): on a filled cell whose color has a path, that path
    /// restarts at the cell where it is a head, or is cut back to the cell
    /// where it is a path; then the board is repainted and dragging starts.
    pub open spec fn pressed(self, r: int, c: int) -> GameModel {
        let cell = self.board.at(r, c);
        let k = cell.color_of() as int;
        if self.finished || cell is Empty || k >= self.paths.len() {
            self
        } else {
            let path = self.paths[k];
            let path2 = if cell is Head {
                PathModel { cells: seq![(r as usize, c as usize)], ..path }
            } else {
                path.cut_at_cell((r as usize, c as usize))
            };
            GameModel {
                dragging: true,
                ..(GameModel { color: k, paths: self.paths.update(k, path2), ..self }).repainted()
            }
        }
    }

    /// The paths after the drag reached (r, c), before the neighbouring head
    /// is looked at, and whether dragging goes on.
    pub open spec fn drag_to(self, r: int, c: int) -> (Seq<PathModel>, bool) {
        let p = (r as usize, c as usize);
        let k = self.color;
        let path = self.paths[k];
        let cell = self.board.at(r, c);
        if cell is Head && cell.color_of() == k as u8 && !path.cells.contains(p) {
            (self.paths.update(k, PathModel { cells: path.cells.push(p), complete: true }), true)
        } else if cell is Empty {
            let open = if path.complete { path.restart() } else { path };
            (self.paths.update(k, open.add(p)), true)
        } else if cell.color_of() == k as u8 {
            (self.paths.update(k, path.cut_at_cell(p)), true)
        } else if cell !is Head {
            let paths = self.paths.update(k, path.add(p));
            let j = cell.color_of() as int;
            if j < paths.len() {
                (paths.update(j, paths[j].cut_before_cell(p)), true)
            } else {
                (paths, true)
            }
        } else {
            (self.paths, false)
        }
    }

    /// A drag onto (r, c), while a path of a known color is being drawn: the path being drawn takes the cell (closing on
    /// its second head, cutting itself back, or cutting another color's path
    /// short); a stop on another color's head ends the drag. Then a head of
    /// the path's color beside the cell, not yet on the path, closes it; and
    /// the board is repainted.
    pub open spec fn moved(self, r: int, c: int) -> GameModel {
        if self.finished || !self.dragging || self.color >= self.paths.len() {
            self
        } else {
            let (paths, dragging) = self.drag_to(r, c);
            let k = self.color;
            let paths2 = match self.board.head_beside(r, c, k as u8) {
                Some(h) => if !paths[k].cells.contains(h) {
                    paths.update(k, PathModel { cells: paths[k].cells.push(h), complete: true })
                } else {
                    paths
                },
                None => paths,
            };
            (GameModel { paths: paths2, dragging, ..self }).repainted()
        }
    }

    /// The session right after loading: the board's heads and an empty path
    /// for each of their colors.
    pub open spec fn fresh(g: Grid) -> GameModel {
        GameModel {
            board: g.stripped(),
            dragging: false,
            color: 0,
            finished: false,
            paths: empty_paths(g.stripped().head_colors().len()),
        }
    }
}

pub open spec fn empty_paths(n: nat) -> Seq<PathModel> {
    Seq::new(n, |i: int| PathModel::empty())
}

/// A path the player draws.
#[derive(Debug)]
pub struct Flow {
    pub cells: Vec<Coord>,
    complete: bool,
}

impl View for Flow {
    type V = PathModel;

    closed spec fn view(&self) -> PathModel {
        PathModel { cells: self.cells@, complete: self.complete }
    }
}

fn copy_range(v: &Vec<Coord>, from: usize, to: usize) -> (r: Vec<Coord>)
    requires
        from <= to <= v@.len(),
    ensures
        r@ == v@.subrange(from as int, to as int),
{
    let mut out: Vec<Coord> = Vec::new();
    let mut i: usize = from;
    while i < to
        invariant
            from <= i <= to,
            to <= v@.len(),
            out@ == v@.subrange(from as int, i as int),
        decreases to - i,
    {
        out.push(v[i]);
        i += 1;
        assert(out@ =~= v@.subrange(from as int, i as int));
    }
    out
}

fn reversed_range(v: &Vec<Coord>, from: usize) -> (r: Vec<Coord>)
    requires
        from <= v@.len(),
    ensures
        r@ == v@.subrange(from as int, v@.len() as int).reverse(),
{
    let ghost sub = v@.subrange(from as int, v@.len() as int);
    let mut out: Vec<Coord> = Vec::new();
    let mut i: usize = v.len();
    while i > from
        invariant
            from <= i <= v@.len(),
            sub == v@.subrange(from as int, v@.len() as int),
            out@ == Seq::new((v@.len() - i) as nat, |t: int| sub[sub.len() - 1 - t]),
        decreases i - from,
    {
        i -= 1;
        out.push(v[i]);
        assert(out@ =~= Seq::new((v@.len() - i) as nat, |t: int| sub[sub.len() - 1 - t]));
    }
    assert(out@ =~= sub.reverse());
    out
}

fn position(v: &Vec<Coord>, p: Coord) -> (r: Option<usize>)
    ensures
        match first_index(v@, p, 0) {
            Some(i) => r == Some(i as usize),
            None => r is None,
        },
        r matches Some(i) ==> i < v@.len() && v@[i as int] == p && first_index(v@, p, 0) == Some(i as int),
        r is None ==> !v@.contains(p),
{
    proof {
        lemma_first_index(v@, p, 0);
    }
    let mut i: usize = 0;
    while i < v.len()
        invariant
            i <= v@.len(),
            first_index(v@, p, 0) == first_index(v@, p, i as int),
        decreases v.len() - i,
    {
        if v[i].0 == p.0 && v[i].1 == p.1 {
            return Some(i);
        }
        i += 1;
    }
    None
}

fn contains(v: &Vec<Coord>, p: Coord) -> (r: bool)
    ensures
        r == v@.contains(p),
{
    proof {
        lemma_first_index(v@, p, 0);
    }
    match position(v, p) {
        Some(i) => {
            assert(v@[i as int] == p);
            true
        },
        None => false,
    }
}

impl Flow {
    fn new() -> (r: Flow)
        ensures
            r@ == PathModel::empty(),
    {
        Flow { cells: Vec::new(), complete: false }
    }

    fn add_cell(&mut self, row: usize, col: usize)
        ensures
            final(self)@ == old(self)@.add((row, col)),
    {
        self.cells.push((row, col));
    }

    fn reset_to(&mut self, row: usize, col: usize)
        ensures
            final(self)@ == (PathModel { cells: seq![(row, col)], ..old(self)@ }),
    {
        let mut cells: Vec<Coord> = Vec::new();
        cells.push((row, col));
        assert(cells@ =~= seq![(row, col)]);
        self.cells = cells;
    }

    fn set_complete(&mut self)
        ensures
            final(self)@ == (PathModel { complete: true, ..old(self)@ }),
    {
        self.complete = true;
    }

    fn cut_at(&mut self, row: usize, col: usize)
        requires
            old(self)@.cells.contains((row, col)),
        ensures
            final(self)@ == old(self)@.cut_at_cell((row, col)),
    {
        proof {
            lemma_first_index(self.cells@, (row, col), 0);
        }
        match position(&self.cells, (row, col)) {
            Some(idx) => {
                let n = self.cells.len();
                assert(idx < n);
                if self.complete && idx < n / 2 {
                    self.cells = reversed_range(&self.cells, idx);
                } else {
                    let end = idx + 1;
                    self.cells = copy_range(&self.cells, 0, end);
                }
                self.complete = false;
            },
            None => {},
        }
    }

    fn cut_before(&mut self, row: usize, col: usize)
        requires
            old(self)@.cells.contains((row, col)),
        ensures
            final(self)@ == old(self)@.cut_before_cell((row, col)),
    {
        proof {
            lemma_first_index(self.cells@, (row, col), 0);
        }
        match position(&self.cells, (row, col)) {
            Some(idx) => {
                if self.complete && idx < self.cells.len() / 2 {
                    self.cells = reversed_range(&self.cells, idx + 1);
                } else {
                    self.cells = copy_range(&self.cells, 0, idx);
                }
                self.complete = false;
            },
            None => {},
        }
    }

    fn restart(&mut self)
        ensures
            final(self)@ == old(self)@.restart(),
    {
        let ghost before = self@;
        if self.cells.len() > 0 {
            let last = self.cells[self.cells.len() - 1];
            self.cells = copy_range(&self.cells, self.cells.len() - 1, self.cells.len());
            assert(self.cells@ =~= seq![last]);
            assert(last == before.cells.last());
        } else {
            assert(self.cells@ =~= Seq::<Coord>::empty());
        }
        self.complete = false;
    }
}

/// An editing session: the player draws one path per color by dragging
/// from a head, and the board shows the paths as they stand.
pub struct Game {
    board: Board,
    dragging: bool,
    color: usize,
    finished: bool,
    flows: Vec<Flow>,
}

impl View for Game {
    type V = GameModel;

    closed spec fn view(&self) -> GameModel {
        GameModel {
            board: self.board@,
            dragging: self.dragging,
            color: self.color as int,
            finished: self.finished,
            paths: self.flows@.map_values(|f: Flow| f@),
        }
    }
}

fn new_flows(n: usize) -> (r: Vec<Flow>)
    ensures
        r@.map_values(|f: Flow| f@) == empty_paths(n as nat),
{
    let mut flows: Vec<Flow> = Vec::new();
    let mut i: usize = 0;
    while i < n
        invariant
            i <= n,
            flows@.len() == i,
            forall|t: int| 0 <= t < i ==> (#[trigger] flows@[t])@ == PathModel::empty(),
        decreases n - i,
    {
        flows.push(Flow::new());
        i += 1;
    }
    assert(flows@.map_values(|f: Flow| f@) =~= empty_paths(n as nat));
    flows
}

impl Game {
    pub open spec fn wf(&self) -> bool {
        self@.wf()
    }

    /// A session on the puzzle in `board_string` (see `Board::load_board`),
    /// with every path cell of the text cleared.
    pub fn new(board_string: &str, rows: usize, cols: usize) -> (r: Result<Game, ParseError>)
        ensures
            match r {
                Ok(g) => g.wf() && cells_of_text(board_string.spec_bytes()).len() == rows * cols
                    && g@ == GameModel::fresh(
                    Grid { rows: rows as int, cols: cols as int, cells: cells_of_text(board_string.spec_bytes()) },
                ),
                Err(ParseError::WrongCellCount { found }) => found == cells_of_text(board_string.spec_bytes()).len()
                    && found != rows * cols,
            },
    {
        match Board::load_board(board_string, rows, cols) {
            Ok(board) => {
                let mut board = board;
                board.strip();
                let n = board.num_colors();
                let g = Game { board, dragging: false, color: 0, finished: false, flows: new_flows(n) };
                Ok(g)
            },
            Err(e) => Err(e),
        }
    }

    /// Drops every path.
    pub fn clear_flows(&mut self)
        requires
            old(self).wf(),
        ensures
            final(self).wf(),
            final(self)@ == (GameModel { paths: empty_paths(old(self)@.board.head_colors().len()), ..old(self)@ }),
    {
        let n = self.board.num_colors();
        self.flows = new_flows(n);
    }

    pub fn get_board(&self) -> (r: &Board)
        ensures
            r@ == self@.board,
    {
        &self.board
    }

    /// Paints the paths over the board's heads.
    fn paint_flows(&mut self)
        requires
            old(self).wf(),
        ensures
            final(self).wf(),
            final(self)@ == (GameModel { board: painted(old(self)@.board, old(self)@.paths), ..old(self)@ }),
    {
        let ghost start = self@;
        self.board.strip();
        let ghost base = self@.board;
        let mut k: usize = 0;
        while k < self.flows.len()
            invariant
                self.wf(),
                k <= self.flows@.len(),
                self@ == (GameModel { board: paint(base, start.paths, k as int), ..start }),
            decreases start.paths.len() - k,
        {
            let ghost before = self@.board;
            let n = self.flows[k].cells.len();
            let mut j: usize = 0;
            while j < n
                invariant
                    self.wf(),
                    k < self.flows@.len(),
                    n == self.flows@[k as int].cells@.len(),
                    j <= n,
                    self@ == (GameModel {
                        board: paint_cells(before, start.paths[k as int].cells.subrange(0, j as int), #[verifier::truncate] (k as u8)),
                        ..start
                    }),
                decreases n - j,
            {
                let p = self.flows[k].cells[j];
                let ghost cells = start.paths[k as int].cells;
                assert(cells.subrange(0, j + 1).drop_last() =~= cells.subrange(0, j as int));
                assert(cells.subrange(0, j + 1).last() == p);
                if p.0 < self.board.rows() && p.1 < self.board.cols() && !self.board.cell(p.0, p.1).is_head() {
                    Board::set_cell(&mut self.board, p.0, p.1, Cell::Path { color: #[verifier::truncate] (k as u8) });
                }
                j += 1;
            }
            assert(start.paths[k as int].cells.subrange(0, n as int) =~= start.paths[k as int].cells);
            k += 1;
        }
    }

    /// Repaints the board from the paths; where the result breaks the rules,
    /// drops the path being drawn, stops dragging and repaints again.
    fn update_board(&mut self)
        requires
            old(self).wf(),
            old(self).color < old(self)@.paths.len(),
        ensures
            final(self).wf(),
            final(self)@ == old(self)@.repainted(),
    {
        self.paint_flows();
        if !self.board.is_legal() {
            let ghost before = self@;
            let k = self.color;
            self.flows.set(k, Flow { cells: Vec::new(), complete: self.flows[k].complete });
            assert(self@.paths =~= before.paths.update(
                k as int,
                PathModel { cells: Seq::empty(), ..before.paths[k as int] },
            ));
            self.dragging = false;
            self.paint_flows();
        }
    }

    pub fn is_finished(&self) -> (r: bool)
        ensures
            r == self@.finished,
    {
        self.finished
    }

    /// Marks the session finished the first time the board is solved;
    /// returns whether that happened now.
    pub fn update(&mut self) -> (r: bool)
        requires
            old(self).wf(),
        ensures
            final(self).wf(),
            r == (!old(self)@.finished && old(self)@.board.is_solved()),
            final(self)@ == (GameModel { finished: old(self)@.finished || r, ..old(self)@ }),
    {
        if !self.finished && self.board.is_solved() {
            self.finished = true;
            return true;
        }
        false
    }

    /// A press on (row, col): see `GameModel::pressed`.
    pub fn handle_mouse_press(&mut self, row: usize, col: usize)
        requires
            old(self).wf(),
            old(self)@.board.in_bounds(row as int, col as int),
        ensures
            final(self).wf(),
            final(self)@ == old(self)@.pressed(row as int, col as int),
    {
        if self.finished {
            return;
        }
        let c = self.board.cell(row, col);
        if c.is_empty() {
            return;
        }
        let k = c.color() as usize;
        if k >= self.flows.len() {
            return;
        }
        let ghost before = self@;
        self.color = k;
        let mut f = Flow { cells: Vec::new(), complete: false };
        std::mem::swap(&mut f, &mut self.flows[k]);
        proof {
            lemma_first_index(f@.cells, (row, col), 0);
        }
        if c.is_head() {
            f.reset_to(row, col);
        } else if contains(&f.cells, (row, col)) {
            f.cut_at(row, col);
        }
        self.flows.set(k, f);
        assert(self@.paths =~= before.paths.update(
            k as int,
            if c is Head {
                PathModel { cells: seq![(row, col)], ..before.paths[k as int] }
            } else {
                before.paths[k as int].cut_at_cell((row, col))
            },
        ));
        self.update_board();
        self.dragging = true;
    }

    pub fn handle_mouse_release(&mut self)
        ensures
            final(self)@ == (GameModel { dragging: false, ..old(self)@ }),
    {
        self.dragging = false;
    }

    /// A drag onto (row, col): see `GameModel::moved`.
    pub fn handle_mouse_move(&mut self, row: usize, col: usize)
        requires
            old(self).wf(),
            old(self)@.board.in_bounds(row as int, col as int),
        ensures
            final(self).wf(),
            final(self)@ == old(self)@.moved(row as int, col as int),
    {
        if self.finished || !self.dragging || self.color >= self.flows.len() {
            return;
        }
        let ghost m = self@;
        let k = self.color;
        let p: Coord = (row, col);
        let cell = self.board.cell(row, col);
        let mut f = Flow { cells: Vec::new(), complete: false };
        std::mem::swap(&mut f, &mut self.flows[k]);
        assert(f@ == m.paths[k as int]);
        let on_path = contains(&f.cells, p);
        proof {
            lemma_first_index(f@.cells, p, 0);
        }
        if cell.is_head() && cell.color() == k as u8 && !on_path {
            f.add_cell(row, col);
            f.set_complete();
            self.flows.set(k, f);
        } else if cell.is_empty() {
            if f.complete {
                f.restart();
            }
            f.add_cell(row, col);
            self.flows.set(k, f);
        } else if cell.color() == k as u8 {
            if on_path {
                f.cut_at(row, col);
            }
            self.flows.set(k, f);
        } else if !cell.is_head() {
            f.add_cell(row, col);
            self.flows.set(k, f);
            let j = cell.color() as usize;
            if j < self.flows.len() {
                let mut g = Flow { cells: Vec::new(), complete: false };
                std::mem::swap(&mut g, &mut self.flows[j]);
                proof {
                    lemma_first_index(g@.cells, p, 0);
                }
                if contains(&g.cells, p) {
                    g.cut_before(row, col);
                }
                self.flows.set(j, g);
            }
        } else {
            self.flows.set(k, f);
            self.dragging = false;
        }
        assert(self@.paths =~= m.drag_to(row as int, col as int).0);
        assert(self.dragging == m.drag_to(row as int, col as int).1);
        let ghost dragged = self@.paths;
        match self.board.neighbor_head(row, col, k as u8) {
            Some(h) => {
                let mut f = Flow { cells: Vec::new(), complete: false };
                std::mem::swap(&mut f, &mut self.flows[k]);
                if !contains(&f.cells, h) {
                    f.add_cell(h.0, h.1);
                    f.set_complete();
                }
                self.flows.set(k, f);
            },
            None => {},
        }
        assert(self@.paths =~= match m.board.head_beside(row as int, col as int, k as u8) {
            Some(h) => if !dragged[k as int].cells.contains(h) {
                dragged.update(k as int, PathModel { cells: dragged[k as int].cells.push(h), complete: true })
            } else {
                dragged
            },
            None => dragged,
        });
        self.update_board();
    }

    /// Clears the board back to its heads and drops every path, unless the
    /// session is finished.
    pub fn handle_right_click(&mut self)
        requires
            old(self).wf(),
        ensures
            final(self).wf(),
            final(self)@ == if old(self)@.finished {
                old(self)@
            } else {
                GameModel {
                    board: old(self)@.board.stripped(),
                    paths: empty_paths(old(self)@.board.stripped().head_colors().len()),
                    ..old(self)@
                }
            },
    {
        if self.finished {
            return;
        }
        self.board.strip();
        self.clear_flows();
    }
}

} // verus!
