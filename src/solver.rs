use vstd::prelude::*;

use crate::board::{Board, Cell, Grid};

verus! {

/// A position on the board: (row, column).
pub type Coord = (usize, usize);

/// Two positions that share a side.
pub open spec fn are_adjacent(a: Coord, b: Coord) -> bool {
    (a.0 == b.0 && (a.1 + 1 == b.1 || b.1 + 1 == a.1)) || (a.1 == b.1 && (a.0 + 1 == b.0 || b.0 + 1 == a.0))
}

fn adjacent(a: Coord, b: Coord) -> (r: bool)
    ensures
        r == are_adjacent(a, b),
{
    let near_cols = (a.1 < b.1 && b.1 - a.1 == 1) || (b.1 < a.1 && a.1 - b.1 == 1);
    let near_rows = (a.0 < b.0 && b.0 - a.0 == 1) || (b.0 < a.0 && a.0 - b.0 == 1);
    (a.0 == b.0 && near_cols) || (a.1 == b.1 && near_rows)
}

/// The picture of one color's progress: two paths that start at the
/// color's heads and grow one cell at a time from their tips.
pub struct FlowModel {
    pub first: Seq<Coord>,
    pub second: Seq<Coord>,
    pub complete: bool,
    pub color: u8,
}

impl FlowModel {
    pub open spec fn side(self, s: int) -> Seq<Coord> {
        if s == 0 { self.first } else { self.second }
    }

    /// The growing end of side `s`.
    pub open spec fn tip(self, s: int) -> Coord {
        self.side(s).last()
    }

    pub open spec fn wf_in(self, g: Grid) -> bool {
        &&& self.first.len() > 0
        &&& self.second.len() > 0
        &&& g.in_bounds(self.first.last().0 as int, self.first.last().1 as int)
        &&& g.in_bounds(self.second.last().0 as int, self.second.last().1 as int)
    }

    /// Side `s` extended by `loc`; the flow is complete once its two tips touch.
    pub open spec fn grow(self, s: int, loc: Coord) -> FlowModel {
        let first = if s == 0 { self.first.push(loc) } else { self.first };
        let second = if s == 0 { self.second } else { self.second.push(loc) };
        FlowModel {
            first,
            second,
            complete: self.complete || are_adjacent(first.last(), second.last()),
            color: self.color,
        }
    }
}

/// The picture of one search state: a board and the flows on it.
pub struct SolverModel {
    pub board: Grid,
    pub flows: Seq<FlowModel>,
}

/// The row-major index of the first head of `color` among the first `n`
/// cells.
pub open spec fn first_head(cells: Seq<Cell>, color: u8, n: int) -> Option<int>
    decreases n,
{
    if n <= 0 {
        None
    } else {
        match first_head(cells, color, n - 1) {
            Some(i) => Some(i),
            None => if cells[n - 1] == (Cell::Head { color }) { Some(n - 1) } else { None },
        }
    }
}

/// The row-major index of the last head of `color` among the first `n`
/// cells.
pub open spec fn last_head(cells: Seq<Cell>, color: u8, n: int) -> Option<int>
    decreases n,
{
    if n <= 0 {
        None
    } else if cells[n - 1] == (Cell::Head { color }) {
        Some(n - 1)
    } else {
        last_head(cells, color, n - 1)
    }
}

/// One more than the largest head color among the first `n` cells; 0
/// where there is no head.
pub open spec fn color_bound(cells: Seq<Cell>, n: int) -> int
    decreases n,
{
    if n <= 0 {
        0
    } else {
        let b = color_bound(cells, n - 1);
        match cells[n - 1] {
            Cell::Head { color } => if color + 1 > b { color + 1 } else { b },
            _ => b,
        }
    }
}

pub open spec fn has_head(g: Grid, color: u8) -> bool {
    exists|i: int| 0 <= i < g.cells.len() && g.cells[i] == (Cell::Head { color })
}

/// Head colors are numbered from 0 without gaps: every color below a head's
/// color has a head too.
pub open spec fn dense_colors(g: Grid) -> bool {
    forall|c: u8, d: u8| d <= c && #[trigger] has_head(g, c) ==> #[trigger] has_head(g, d)
}

/// The position of a row-major index, (0, 0) for none.
pub open spec fn coord_of(g: Grid, i: Option<int>) -> Coord {
    match i {
        Some(i) => ((i / g.cols) as usize, (i % g.cols) as usize),
        None => (0, 0),
    }
}

/// The flow of color `k` at the start: its first side at the color's first
/// head in row-major order, its second side at the last one; complete where
/// the two already touch.
pub open spec fn initial_flow(g: Grid, k: int) -> FlowModel {
    let p = coord_of(g, first_head(g.cells, k as u8, g.cells.len() as int));
    let q = coord_of(g, last_head(g.cells, k as u8, g.cells.len() as int));
    FlowModel { first: seq![p], second: seq![q], complete: are_adjacent(p, q), color: k as u8 }
}

/// One flow per color, the flow at index `k` for color `k`.
pub open spec fn initial_flows(g: Grid) -> Seq<FlowModel> {
    Seq::new(color_bound(g.cells, g.cells.len() as int) as nat, |k: int| initial_flow(g, k))
}

/// Scanning cells for heads: the first and last head of a color are heads
/// of that color, found wherever the color has a head.
pub proof fn lemma_head_scan(cells: Seq<Cell>, color: u8, n: int)
    requires
        0 <= n <= cells.len(),
    ensures
        first_head(cells, color, n) matches Some(i) ==> 0 <= i < n && cells[i] == (Cell::Head { color }),
        last_head(cells, color, n) matches Some(i) ==> 0 <= i < n && cells[i] == (Cell::Head { color }),
        (exists|i: int| 0 <= i < n && cells[i] == (Cell::Head { color })) ==> first_head(cells, color, n) is Some
            && last_head(cells, color, n) is Some,
    decreases n,
{
    if n > 0 {
        lemma_head_scan(cells, color, n - 1);
        if exists|i: int| 0 <= i < n && cells[i] == (Cell::Head { color }) {
            let i = choose|i: int| 0 <= i < n && cells[i] == (Cell::Head { color });
            if i < n - 1 {
                assert(exists|i: int| 0 <= i < n - 1 && cells[i] == (Cell::Head { color }));
            }
        }
    }
}

/// The color bound is at most 256, and below it stands a head of the
/// largest color.
pub proof fn lemma_color_bound(cells: Seq<Cell>, n: int)
    requires
        0 <= n <= cells.len(),
    ensures
        0 <= color_bound(cells, n) <= 256,
        color_bound(cells, n) > 0 ==> exists|i: int|
            0 <= i < n && cells[i] == (Cell::Head { color: (color_bound(cells, n) - 1) as u8 }),
    decreases n,
{
    if n > 0 {
        lemma_color_bound(cells, n - 1);
        if color_bound(cells, n) > 0 && color_bound(cells, n) == color_bound(cells, n - 1) {
            let i = choose|i: int|
                0 <= i < n - 1 && cells[i] == (Cell::Head { color: (color_bound(cells, n - 1) - 1) as u8 });
            assert(0 <= i < n);
        }
    }
}

impl SolverModel {
    pub open spec fn wf(self) -> bool {
        &&& self.board.wf()
        &&& forall|i: int| 0 <= i < self.flows.len() ==> (#[trigger] self.flows[i]).wf_in(self.board)
    }

    pub open spec fn tip(self, i: int, s: int) -> Coord {
        self.flows[i].tip(s)
    }

    /// The empty cells next to tip `s` of flow `i`.
    pub open spec fn options(self, i: int, s: int) -> Seq<Coord> {
        self.board.moves(self.tip(i, s).0 as int, self.tip(i, s).1 as int)
    }

    /// Tip `s` of flow `i` may still grow and has exactly `n` options.
    pub open spec fn open_tip(self, i: int, s: int, n: int) -> bool {
        !self.flows[i].complete && self.options(i, s).len() == n
    }

    /// The first tip with exactly `n` options, scanning flows from `i` on in
    /// order and each flow's sides in the order 0, 1.
    pub open spec fn first_open_tip(self, n: int, i: int) -> Option<(int, int)>
        decreases self.flows.len() - i,
    {
        if i < 0 || i >= self.flows.len() {
            None
        } else if self.open_tip(i, 0, n) {
            Some((i, 0))
        } else if self.open_tip(i, 1, n) {
            Some((i, 1))
        } else {
            self.first_open_tip(n, i + 1)
        }
    }

    /// Side `s` of flow `i` grows into `loc`, which takes the flow's color.
    pub open spec fn apply(self, i: int, s: int, loc: Coord) -> SolverModel {
        SolverModel {
            board: self.board.with_cell(loc.0 as int, loc.1 as int, Cell::Path { color: self.flows[i].color }),
            flows: self.flows.update(i, self.flows[i].grow(s, loc)),
        }
    }

    /// The state after the first forced move, where there is one.
    pub open spec fn after_forced(self) -> SolverModel {
        match self.first_open_tip(1, 0) {
            Some((i, s)) => self.apply(i, s, self.options(i, s)[0]),
            None => self,
        }
    }

    /// Some tip that may still grow has no empty cell next to it.
    pub open spec fn blocked_tip(self) -> bool {
        exists|i: int, s: int| 0 <= i < self.flows.len() && 0 <= s < 2 && #[trigger] self.open_tip(i, s, 0)
    }

    /// An empty cell with no empty neighbour that touches no tip of an
    /// incomplete flow: nothing can ever fill it.
    pub open spec fn pocket_at(self, r: int, c: int) -> bool {
        &&& self.board.at(r, c) is Empty
        &&& self.board.moves(r, c).len() == 0
        &&& forall|i: int, s: int|
            0 <= i < self.flows.len() && 0 <= s < 2 && !self.flows[i].complete
                ==> !are_adjacent((r as usize, c as usize), #[trigger] self.tip(i, s))
    }

    pub open spec fn some_pocket(self) -> bool {
        exists|r: int, c: int| self.board.in_bounds(r, c) && #[trigger] self.pocket_at(r, c)
    }

    /// The state can never lead to a solution.
    pub open spec fn failed(self) -> bool {
        !self.board.is_solved() && (!self.board.is_legal() || self.board.is_full() || self.blocked_tip()
            || self.some_pocket())
    }

    /// Every flow is complete.
    pub open spec fn done(self) -> bool {
        forall|i: int| 0 <= i < self.flows.len() ==> (#[trigger] self.flows[i]).complete
    }
}

/// The scan for an open tip finds the first one, and finds none only where
/// there is none.
pub proof fn lemma_first_open_tip(m: SolverModel, n: int, k: int)
    requires
        0 <= k,
    ensures
        m.first_open_tip(n, k) matches Some((i, s)) ==> k <= i < m.flows.len() && (s == 0 || s == 1)
            && m.open_tip(i, s, n),
        m.first_open_tip(n, k) is None ==> forall|i: int, s: int|
            k <= i < m.flows.len() && 0 <= s < 2 ==> !#[trigger] m.open_tip(i, s, n),
    decreases m.flows.len() - k,
{
    if k < m.flows.len() {
        lemma_first_open_tip(m, n, k + 1);
        assert forall|i: int, s: int| k <= i < m.flows.len() && 0 <= s < 2 && m.first_open_tip(n, k) is None
            implies !#[trigger] m.open_tip(i, s, n) by {
            if i == k {
                assert(s == 0 || s == 1);
            }
        }
    }
}

/// A state with an unreachable empty cell has failed, even where its board
/// is legal: the empty cell keeps the board from being solved.
pub proof fn lemma_pocket_fails(m: SolverModel, r: int, c: int)
    requires
        m.board.in_bounds(r, c),
        m.pocket_at(r, c),
    ensures
        m.some_pocket(),
        m.failed(),
{
    assert(!m.board.solved_at(r, c));
}

/// A move of the search never makes an illegal board legal, as long as no
/// path cell of the board stands alone.
pub proof fn lemma_apply_keeps_illegal(m: SolverModel, i: int, s: int, loc: Coord)
    requires
        m.wf(),
        0 <= i < m.flows.len(),
        m.board.free(loc),
        !m.board.is_legal(),
        m.board.paths_attached(),
    ensures
        !m.apply(i, s, loc).board.is_legal(),
{
    crate::board::lemma_add_path_keeps_illegal(m.board, loc.0 as int, loc.1 as int, m.flows[i].color);
}

#[derive(Debug)]
struct Flow {
    first: Vec<Coord>,
    second: Vec<Coord>,
    complete: bool,
    color: u8,
}

impl View for Flow {
    type V = FlowModel;

    closed spec fn view(&self) -> FlowModel {
        FlowModel { first: self.first@, second: self.second@, complete: self.complete, color: self.color }
    }
}

fn copy_coords(v: &Vec<Coord>) -> (r: Vec<Coord>)
    ensures
        r@ == v@,
{
    let mut out: Vec<Coord> = Vec::new();
    let mut i: usize = 0;
    while i < v.len()
        invariant
            i <= v@.len(),
            out@ == v@.subrange(0, i as int),
        decreases v.len() - i,
    {
        out.push(v[i]);
        i += 1;
        assert(out@ =~= v@.subrange(0, i as int));
    }
    assert(out@ =~= v@);
    out
}

fn single(c: Coord) -> (r: Vec<Coord>)
    ensures
        r@ == seq![c],
{
    let mut r: Vec<Coord> = Vec::new();
    r.push(c);
    assert(r@ =~= seq![c]);
    r
}

impl Clone for Flow {
    fn clone(&self) -> (r: Flow)
        ensures
            r@ == self@,
    {
        Flow {
            first: copy_coords(&self.first),
            second: copy_coords(&self.second),
            complete: self.complete,
            color: self.color,
        }
    }
}

impl Flow {
    /// The growing ends of the two sides.
    fn tips(&self) -> (r: [Coord; 2])
        requires
            self@.first.len() > 0,
            self@.second.len() > 0,
        ensures
            r@[0] == self@.tip(0),
            r@[1] == self@.tip(1),
    {
        let r = [self.first[self.first.len() - 1], self.second[self.second.len() - 1]];
        assert(r@[0] == self@.tip(0) && r@[1] == self@.tip(1));
        r
    }
}

/// One search state: a board and, for each color, the flow growing on it.
#[derive(Debug)]
pub struct Solver {
    flows: Vec<Flow>,
    board: Board,
}

impl View for Solver {
    type V = SolverModel;

    closed spec fn view(&self) -> SolverModel {
        SolverModel { board: self.board@, flows: self.flows@.map_values(|f: Flow| f@) }
    }
}

/// The first and last head of `color` on the board, as row-major indices.
fn head_positions(b: &Board, color: u8) -> (r: (Option<usize>, Option<usize>))
    requires
        b.wf(),
    ensures
        r.0 matches Some(i) ==> first_head(b@.cells, color, b@.cells.len() as int) == Some(i as int),
        r.0 is None ==> first_head(b@.cells, color, b@.cells.len() as int) is None,
        r.1 matches Some(i) ==> last_head(b@.cells, color, b@.cells.len() as int) == Some(i as int),
        r.1 is None ==> last_head(b@.cells, color, b@.cells.len() as int) is None,
{
    let n = b.len();
    let mut first: Option<usize> = None;
    let mut last: Option<usize> = None;
    let mut i: usize = 0;
    while i < n
        invariant
            b.wf(),
            n == b@.cells.len(),
            i <= n,
            first matches Some(j) ==> first_head(b@.cells, color, i as int) == Some(j as int),
            first is None ==> first_head(b@.cells, color, i as int) is None,
            last matches Some(j) ==> last_head(b@.cells, color, i as int) == Some(j as int),
            last is None ==> last_head(b@.cells, color, i as int) is None,
        decreases n - i,
    {
        if b.cell_at(i) == (Cell::Head { color }) {
            if first.is_none() {
                first = Some(i);
            }
            last = Some(i);
        }
        i += 1;
    }
    (first, last)
}

impl Clone for Solver {
    fn clone(&self) -> (r: Solver)
        ensures
            r@ == self@,
    {
        let mut flows: Vec<Flow> = Vec::new();
        let mut i: usize = 0;
        while i < self.flows.len()
            invariant
                i <= self.flows@.len(),
                flows@.len() == i,
                forall|k: int| 0 <= k < i ==> (#[trigger] flows@[k])@ == self.flows@[k]@,
            decreases self.flows.len() - i,
        {
            flows.push(self.flows[i].clone());
            i += 1;
        }
        let r = Solver { flows, board: self.board.clone() };
        assert(r@.flows =~= self@.flows);
        r
    }
}

impl Solver {
    pub open spec fn wf(&self) -> bool {
        self@.wf()
    }

    /// The search state at the start: the given board, and for each color
    /// `k`, at index `k`, a flow between the color's first and last head in
    /// row-major order.
    pub fn new(b: &Board) -> (r: Solver)
        requires
            b.wf(),
            dense_colors(b@),
        ensures
            r.wf(),
            r@.board == b@,
            r@.flows == initial_flows(b@),
    {
        let n = b.len();
        proof {
            lemma_color_bound(b@.cells, n as int);
        }
        let mut bound: usize = 0;
        let mut i: usize = 0;
        while i < n
            invariant
                b.wf(),
                n == b@.cells.len(),
                i <= n,
                bound == color_bound(b@.cells, i as int),
                bound <= 256,
            decreases n - i,
        {
            proof {
                lemma_color_bound(b@.cells, i + 1);
            }
            if let Cell::Head { color } = b.cell_at(i) {
                if color as usize + 1 > bound {
                    bound = color as usize + 1;
                }
            }
            i += 1;
        }
        let mut flows: Vec<Flow> = Vec::new();
        let mut k: usize = 0;
        while k < bound
            invariant
                b.wf(),
                dense_colors(b@),
                n == b@.cells.len(),
                bound == color_bound(b@.cells, n as int),
                bound <= 256,
                k <= bound,
                flows@.len() == k,
                forall|t: int| 0 <= t < k ==> (#[trigger] flows@[t])@ == initial_flow(b@, t),
                forall|t: int| 0 <= t < k ==> (#[trigger] flows@[t])@.wf_in(b@),
            decreases bound - k,
        {
            let color = k as u8;
            proof {
                lemma_color_bound(b@.cells, n as int);
                let top = (bound - 1) as u8;
                assert(has_head(b@, top));
                assert(has_head(b@, color));
                lemma_head_scan(b@.cells, color, n as int);
            }
            let (first, last) = head_positions(b, color);
            match (first, last) {
                (Some(fi), Some(la)) => {
                    let p = b.inverse_ind(fi);
                    let q = b.inverse_ind(la);
                    let f = Flow { first: single(p), second: single(q), complete: adjacent(p, q), color };
                    assert(f@ == initial_flow(b@, k as int));
                    flows.push(f);
                },
                _ => {
                    proof {
                        assert(false);
                    }
                },
            }
            k += 1;
        }
        let r = Solver { flows, board: b.clone() };
        assert(r@.flows =~= initial_flows(b@));
        r
    }

    /// The first tip with exactly `n` options, with those options.
    fn find_open_tip(&self, n: usize) -> (r: Option<(usize, usize, Vec<Coord>)>)
        requires
            self.wf(),
        ensures
            match self@.first_open_tip(n as int, 0) {
                Some((i, s)) => r matches Some((ri, rs, opts)) && ri == i && rs == s && opts@ == self@.options(i, s)
                    && 0 <= i < self@.flows.len() && (s == 0 || s == 1) && self@.open_tip(i, s, n as int)
                    && forall|k: int| 0 <= k < opts@.len() ==> self@.board.free(#[trigger] opts@[k]),
                None => r is None,
            },
    {
        proof {
            lemma_first_open_tip(self@, n as int, 0);
        }
        let mut i: usize = 0;
        while i < self.flows.len()
            invariant
                self.wf(),
                i <= self.flows@.len(),
                self@.first_open_tip(n as int, 0) == self@.first_open_tip(n as int, i as int),
            decreases self.flows.len() - i,
        {
            let f = &self.flows[i];
            assert(self@.flows[i as int] == f@);
            if !f.complete {
                let tips = f.tips();
                let m0 = Solver::moves_from(&self.board, tips[0]);
                proof {
                    self@.board.lemma_moves_free(tips[0].0 as int, tips[0].1 as int);
                    self@.board.lemma_moves_free(tips[1].0 as int, tips[1].1 as int);
                }
                if m0.len() == n {
                    return Some((i, 0, m0));
                }
                let m1 = Solver::moves_from(&self.board, tips[1]);
                if m1.len() == n {
                    return Some((i, 1, m1));
                }
            }
            i += 1;
        }
        None
    }

    /// Side `s` of flow `i` grows into `loc`, which takes the flow's color.
    fn make(&mut self, loc: Coord, i: usize, s: usize)
        requires
            old(self).wf(),
            i < old(self)@.flows.len(),
            s < 2,
            old(self)@.board.in_bounds(loc.0 as int, loc.1 as int),
        ensures
            final(self).wf(),
            final(self)@ == old(self)@.apply(i as int, s as int, loc),
    {
        let ghost m = self@;
        assert(m.flows[i as int].wf_in(m.board));
        let color = self.flows[i].color;
        let mut first = copy_coords(&self.flows[i].first);
        let mut second = copy_coords(&self.flows[i].second);
        if s == 0 {
            first.push(loc);
        } else {
            second.push(loc);
        }
        let t0 = first[first.len() - 1];
        let t1 = second[second.len() - 1];
        let complete = self.flows[i].complete || adjacent(t0, t1);
        let f = Flow { first, second, complete, color };
        assert(f@ == m.flows[i as int].grow(s as int, loc));
        self.flows.set(i, f);
        self.board.add_path(loc.0, loc.1, color);
        assert(self@.flows =~= m.apply(i as int, s as int, loc).flows);
        assert forall|k: int| 0 <= k < self@.flows.len() implies (#[trigger] self@.flows[k]).wf_in(self@.board) by {
            assert(m.flows[k].wf_in(m.board));
        }
    }

    /// Makes the first forced move, if there is one: scanning flows in order
    /// and each flow's sides in the order 0, 1, the first tip of an
    /// incomplete flow with exactly one empty neighbour grows into it.
    /// Returns whether a move was made.
    pub fn timid_step(&mut self) -> (r: bool)
        requires
            old(self).wf(),
        ensures
            final(self).wf(),
            r == old(self)@.first_open_tip(1, 0) is Some,
            final(self)@ == old(self)@.after_forced(),
    {
        match self.find_open_tip(1) {
            Some((i, s, opts)) => {
                let loc = opts[0];
                self.make(loc, i, s);
                true
            },
            None => false,
        }
    }

    /// Splits the search at the first tip of an incomplete flow with exactly
    /// two empty neighbours: this state takes the first option and is
    /// returned with a copy that took the second. Without such a tip nothing
    /// changes and None is returned.
    pub fn binary_step(&mut self) -> (r: Option<(Solver, Solver)>)
        requires
            old(self).wf(),
        ensures
            final(self).wf(),
            match old(self)@.first_open_tip(2, 0) {
                Some((i, s)) => r matches Some((a, b)) && a.wf() && b.wf()
                    && a@ == old(self)@.apply(i, s, old(self)@.options(i, s)[0])
                    && b@ == old(self)@.apply(i, s, old(self)@.options(i, s)[1])
                    && final(self)@ == a@,
                None => r is None && final(self)@ == old(self)@,
            },
    {
        match self.find_open_tip(2) {
            Some((i, s, opts)) => {
                let mut other = self.clone();
                self.make(opts[0], i, s);
                other.make(opts[1], i, s);
                Some((self.clone(), other))
            },
            None => None,
        }
    }

    fn some_blocked_tip(&self) -> (r: bool)
        requires
            self.wf(),
        ensures
            r == self@.blocked_tip(),
    {
        proof {
            lemma_first_open_tip(self@, 0, 0);
        }
        self.find_open_tip(0).is_some()
    }

    /// Whether `pos` touches a tip of an incomplete flow.
    fn touches_open_tip(&self, pos: Coord) -> (r: bool)
        requires
            self.wf(),
        ensures
            r == exists|i: int, s: int|
                0 <= i < self@.flows.len() && 0 <= s < 2 && !self@.flows[i].complete
                    && are_adjacent(pos, #[trigger] self@.tip(i, s)),
    {
        let mut i: usize = 0;
        while i < self.flows.len()
            invariant
                self.wf(),
                i <= self.flows@.len(),
                forall|k: int, s: int|
                    0 <= k < i && 0 <= s < 2 && !self@.flows[k].complete
                        ==> !are_adjacent(pos, #[trigger] self@.tip(k, s)),
            decreases self.flows.len() - i,
        {
            let f = &self.flows[i];
            assert(self@.flows[i as int] == f@);
            if !f.complete {
                let tips = f.tips();
                if adjacent(pos, tips[0]) {
                    assert(are_adjacent(pos, self@.tip(i as int, 0)));
                    return true;
                }
                if adjacent(pos, tips[1]) {
                    assert(are_adjacent(pos, self@.tip(i as int, 1)));
                    return true;
                }
            }
            assert forall|k: int, s: int|
                0 <= k < i + 1 && 0 <= s < 2 && !self@.flows[k].complete
                    implies !are_adjacent(pos, #[trigger] self@.tip(k, s)) by {
                if k == i {
                    assert(s == 0 || s == 1);
                }
            }
            i += 1;
        }
        false
    }

    fn some_pocket(&self) -> (r: bool)
        requires
            self.wf(),
        ensures
            r == self@.some_pocket(),
    {
        let rows = self.board.rows();
        let cols = self.board.cols();
        let mut r: usize = 0;
        while r < rows
            invariant
                self.wf(),
                rows == self@.board.rows,
                cols == self@.board.cols,
                r <= rows,
                forall|a: int, b: int| 0 <= a < r && 0 <= b < cols ==> !#[trigger] self@.pocket_at(a, b),
            decreases rows - r,
        {
            let mut c: usize = 0;
            while c < cols
                invariant
                    self.wf(),
                    rows == self@.board.rows,
                    cols == self@.board.cols,
                    r < rows,
                    c <= cols,
                    forall|a: int, b: int|
                        (0 <= a < r && 0 <= b < cols) || (a == r && 0 <= b < c) ==> !#[trigger] self@.pocket_at(a, b),
                decreases cols - c,
            {
                if self.board.cell(r, c).is_empty() && Solver::moves_from(&self.board, (r, c)).len() == 0
                    && !self.touches_open_tip((r, c)) {
                    assert(self@.pocket_at(r as int, c as int));
                    return true;
                }
                c += 1;
            }
            r += 1;
        }
        false
    }

    /// Whether this state can never lead to a solution: the board is not
    /// solved, and it is illegal, or full, or some tip of an incomplete flow
    /// is blocked, or some empty cell can never be reached.
    pub fn failed(&self) -> (r: bool)
        requires
            self.wf(),
        ensures
            r == self@.failed(),
    {
        if self.board.is_solved() {
            return false;
        }
        !self.board.is_legal() || self.board.is_full() || self.some_blocked_tip() || self.some_pocket()
    }

    /// Whether the two tips of every flow touch.
    pub fn done(&self) -> (r: bool)
        requires
            self.wf(),
        ensures
            r == self@.done(),
    {
        let mut i: usize = 0;
        while i < self.flows.len()
            invariant
                i <= self.flows@.len(),
                forall|k: int| 0 <= k < i ==> (#[trigger] self@.flows[k]).complete,
            decreases self.flows.len() - i,
        {
            if !self.flows[i].complete {
                assert(!self@.flows[i as int].complete);
                return false;
            }
            i += 1;
        }
        true
    }

    /// A copy of the board.
    pub fn get_board(&self) -> (r: Board)
        ensures
            r@ == self@.board,
    {
        self.board.clone()
    }

    /// The empty cells next to `c`, in the order above, left, below, right.
    pub fn moves_from(board: &Board, c: Coord) -> (r: Vec<Coord>)
        requires
            board.wf(),
            board@.in_bounds(c.0 as int, c.1 as int),
        ensures
            r@ == board@.moves(c.0 as int, c.1 as int),
    {
        let slots = board.empty_neighbors(c.0, c.1);
        let mut out: Vec<Coord> = Vec::new();
        let mut d: usize = 0;
        while d < 4
            invariant
                d <= 4,
                forall|k: int| 0 <= k < 4 ==> #[trigger] slots@[k] == board@.empty_slot(c.0 as int, c.1 as int, k),
                out@ == moves_upto(board@, c, d as int),
            decreases 4 - d,
        {
            if let Some(p) = slots[d] {
                out.push(p);
            }
            d += 1;
        }
        proof {
            reveal_with_fuel(moves_upto, 5);
        }
        assert(out@ =~= board@.moves(c.0 as int, c.1 as int));
        out
    }
}

/// The empty neighbours among the first `d` directions.
spec fn moves_upto(g: Grid, c: Coord, d: int) -> Seq<Coord>
    decreases d,
{
    if d <= 0 {
        Seq::empty()
    } else {
        moves_upto(g, c, d - 1) + crate::board::option_seq(g.empty_slot(c.0 as int, c.1 as int, d - 1))
    }
}

} // verus!
