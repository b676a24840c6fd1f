//! The interface that every planner offers, so that callers can hold any of
//! them: fill once, then query next actions and whole plans.
use vstd::prelude::*;

use crate::model::{Action, CraftState};
use crate::ordinary::OrdinarySolver;
use crate::progress::{progress_read, progress_run, ProgressSolver};
use crate::quality::{quality_answer, quality_run, QualitySolver};

verus! {

/// The key under which callers keep one planner per craft.
#[derive(Clone, Copy)]
pub struct SolverHash {
    pub attributes: ffxiv_crafting::Attributes,
    pub recipe: ffxiv_crafting::Recipe,
}

pub trait Solver {
    /// Built and not yet filled.
    spec fn is_built(&self) -> bool;

    /// Filled: queries may be made.
    spec fn is_ready(&self) -> bool;

    /// The next action that a query for `s` returns.
    spec fn answer(&self, s: CraftState) -> Option<Action>;

    /// The actions that `read_all` returns from `s`.
    spec fn answers(&self, s: CraftState) -> Seq<Action>;

    fn init(&mut self)
        requires
            old(self).is_built(),
        ensures
            final(self).is_ready(),
    ;

    fn read(&mut self, s: &CraftState) -> (r: Option<Action>)
        requires
            old(self).is_ready(),
        ensures
            final(self).is_ready(),
            r == old(self).answer(*s),
            forall|t: CraftState| #[trigger] final(self).answer(t) == old(self).answer(t),
            forall|t: CraftState| #[trigger] final(self).answers(t) == old(self).answers(t),
    ;

    fn read_all(&mut self, s: &CraftState) -> (r: Vec<Action>)
        requires
            old(self).is_ready(),
        ensures
            final(self).is_ready(),
            r@ == old(self).answers(*s),
            forall|t: CraftState| #[trigger] final(self).answer(t) == old(self).answer(t),
            forall|t: CraftState| #[trigger] final(self).answers(t) == old(self).answers(t),
    ;
}

impl Solver for ProgressSolver {
    open spec fn is_built(&self) -> bool {
        self.wf()
    }

    open spec fn is_ready(&self) -> bool {
        self.ready()
    }

    open spec fn answer(&self, s: CraftState) -> Option<Action> {
        progress_read(self.plan, s)
    }

    open spec fn answers(&self, s: CraftState) -> Seq<Action> {
        progress_run(self.plan, s)
    }

    fn init(&mut self) {
        ProgressSolver::init(self);
    }

    fn read(&mut self, s: &CraftState) -> (r: Option<Action>) {
        ProgressSolver::read(self, s)
    }

    fn read_all(&mut self, s: &CraftState) -> (r: Vec<Action>) {
        ProgressSolver::read_all(self, s)
    }
}

impl Solver for QualitySolver {
    open spec fn is_built(&self) -> bool {
        self.wf()
    }

    open spec fn is_ready(&self) -> bool {
        self.ready()
    }

    open spec fn answer(&self, s: CraftState) -> Option<Action> {
        quality_answer(self.plan(), self.final_progress@, s)
    }

    open spec fn answers(&self, s: CraftState) -> Seq<Action> {
        quality_run(self.plan(), self.final_progress@, s)
    }

    fn init(&mut self) {
        QualitySolver::init(self);
    }

    fn read(&mut self, s: &CraftState) -> (r: Option<Action>) {
        QualitySolver::read(self, s)
    }

    fn read_all(&mut self, s: &CraftState) -> (r: Vec<Action>) {
        QualitySolver::read_all(self, s)
    }
}

impl Solver for OrdinarySolver {
    open spec fn is_built(&self) -> bool {
        self.wf()
    }

    open spec fn is_ready(&self) -> bool {
        self.ready()
    }

    open spec fn answer(&self, s: CraftState) -> Option<Action> {
        quality_answer(self.plan(), self.final_progress@, s)
    }

    open spec fn answers(&self, s: CraftState) -> Seq<Action> {
        quality_run(self.plan(), self.final_progress@, s)
    }

    fn init(&mut self) {
        OrdinarySolver::init(self);
    }

    fn read(&mut self, s: &CraftState) -> (r: Option<Action>) {
        OrdinarySolver::read(self, s)
    }

    fn read_all(&mut self, s: &CraftState) -> (r: Vec<Action>) {
        OrdinarySolver::read_all(self, s)
    }
}

} // verus!
