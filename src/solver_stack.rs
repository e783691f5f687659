use vstd::prelude::*;

use crate::board::Board;
use crate::solver::{Solver, SolverModel};

verus! {

/// The picture of a depth-first search: the state being explored, the
/// suspended alternatives (the most recent last), and whether the search
/// found itself stuck.
pub struct StackModel {
    pub current: SolverModel,
    pub backlog: Seq<SolverModel>,
    pub stuck: bool,
}

impl StackModel {
    pub open spec fn wf(self) -> bool {
        &&& self.current.wf()
        &&& forall|k: int| 0 <= k < self.backlog.len() ==> (#[trigger] self.backlog[k]).wf()
    }

    /// One unit of search: a failed state gives way to the most recent
    /// suspended one (and stays where there is none); otherwise the first
    /// forced move is made; otherwise the first two-way tip splits the
    /// search, the first option followed now and the second suspended;
    /// otherwise the search is stuck.
    pub open spec fn stepped(self) -> StackModel {
        if self.current.failed() {
            if self.backlog.len() > 0 {
                StackModel { current: self.backlog.last(), backlog: self.backlog.drop_last(), stuck: false }
            } else {
                self
            }
        } else if self.current.first_open_tip(1, 0) is Some {
            StackModel { current: self.current.after_forced(), ..self }
        } else {
            match self.current.first_open_tip(2, 0) {
                Some((i, s)) => StackModel {
                    current: self.current.apply(i, s, self.current.options(i, s)[0]),
                    backlog: self.backlog.push(self.current.apply(i, s, self.current.options(i, s)[1])),
                    stuck: false,
                },
                None => StackModel { stuck: true, ..self },
            }
        }
    }

    /// Nothing is left to explore.
    pub open spec fn failed(self) -> bool {
        self.stuck || (self.current.failed() && self.backlog.len() == 0)
    }

    pub open spec fn done(self) -> bool {
        self.current.done()
    }
}

/// A depth-first search over search states, one step at a time.
pub struct SolverStack {
    current: Solver,
    backlog: Vec<Solver>,
    failed: bool,
}

impl View for SolverStack {
    type V = StackModel;

    closed spec fn view(&self) -> StackModel {
        StackModel {
            current: self.current@,
            backlog: self.backlog@.map_values(|s: Solver| s@),
            stuck: self.failed,
        }
    }
}

impl SolverStack {
    pub open spec fn wf(&self) -> bool {
        self@.wf()
    }

    /// A search that starts from `solver`, with nothing suspended.
    pub fn new(solver: Solver) -> (r: SolverStack)
        requires
            solver.wf(),
        ensures
            r.wf(),
            r@ == (StackModel { current: solver@, backlog: Seq::empty(), stuck: false }),
    {
        let r = SolverStack { current: solver, backlog: Vec::new(), failed: false };
        assert(r@.backlog =~= Seq::<SolverModel>::empty());
        r
    }

    /// Advances the search by one unit: a backtrack, a forced move, or a
    /// split.
    pub fn step(&mut self)
        requires
            old(self).wf(),
        ensures
            final(self).wf(),
            final(self)@ == old(self)@.stepped(),
    {
        let ghost m = self@;
        if self.current.failed() {
            if self.backlog.len() > 0 {
                let ghost b = self.backlog@;
                let next = self.backlog.pop();
                match next {
                    Some(s) => {
                        assert(s@ == m.backlog.last());
                        assert(m.backlog[m.backlog.len() - 1].wf());
                        self.current = s;
                    },
                    None => {},
                }
                self.failed = false;
                assert(self@.backlog =~= m.backlog.drop_last());
                assert forall|k: int| 0 <= k < self@.backlog.len() implies (#[trigger] self@.backlog[k]).wf() by {
                    assert(self@.backlog[k] == m.backlog[k]);
                }
            }
            return;
        }
        if self.current.timid_step() {
            assert(self@.backlog == m.backlog);
            return;
        }
        match self.current.binary_step() {
            Some((first, second)) => {
                self.current = first;
                self.backlog.push(second);
                self.failed = false;
                assert(self@.backlog =~= m.backlog.push(second@));
                assert forall|k: int| 0 <= k < self@.backlog.len() implies (#[trigger] self@.backlog[k]).wf() by {
                    if k < m.backlog.len() {
                        assert(self@.backlog[k] == m.backlog[k]);
                    }
                }
            },
            None => {
                self.failed = true;
                assert(self@.backlog == m.backlog);
            },
        }
    }

    /// Whether the current state has every flow complete.
    pub fn done(&self) -> (r: bool)
        requires
            self.wf(),
        ensures
            r == self@.done(),
    {
        self.current.done()
    }

    /// Whether the search is stuck, or the current state failed with
    /// nothing left to return to.
    pub fn failed(&self) -> (r: bool)
        requires
            self.wf(),
        ensures
            r == self@.failed(),
    {
        self.failed || (self.current.failed() && self.backlog.len() == 0)
    }

    /// A copy of the current board.
    pub fn get_board(&self) -> (r: Board)
        ensures
            r@ == self@.current.board,
    {
        self.current.get_board()
    }
}

} // verus!
