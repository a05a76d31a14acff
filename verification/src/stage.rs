//! The run's state machine.
//!
//! A run is linear: index the library, prepare the source, composite the
//! regions, persist the canvas. Any fatal error at any stage ends the run
//! in the terminal `Failed` state; `Done` and `Failed` absorb.
use vstd::prelude::*;

verus! {

/// The stages of a run, in order.
#[derive(Clone, Copy, Debug, PartialEq, Eq, Structural)]
pub enum Stage {
    Idle,
    Indexing,
    Preprocessing,
    Compositing,
    Persisting,
    Done,
    Failed,
}

/// The stage that follows a successful step.
pub open spec fn next_of(s: Stage) -> Stage {
    match s {
        Stage::Idle => Stage::Indexing,
        Stage::Indexing => Stage::Preprocessing,
        Stage::Preprocessing => Stage::Compositing,
        Stage::Compositing => Stage::Persisting,
        Stage::Persisting => Stage::Done,
        Stage::Done => Stage::Done,
        Stage::Failed => Stage::Failed,
    }
}

impl Stage {
    /// A terminal stage never changes again.
    pub open spec fn is_terminal(&self) -> bool {
        *self == Stage::Done || *self == Stage::Failed
    }

    /// Tests whether the run has ended, successfully or not.
    pub fn is_terminal_check(&self) -> (r: bool)
        ensures
            r == self.is_terminal(),
    {
        match self {
            Stage::Done => true,
            Stage::Failed => true,
            _ => false,
        }
    }

    /// Advances the state machine one step: success moves forward in the
    /// fixed order, any failure is terminal, and terminal stages absorb.
    pub fn advance(&self, ok: bool) -> (r: Stage)
        ensures
            r == if self.is_terminal() {
                *self
            } else if ok {
                next_of(*self)
            } else {
                Stage::Failed
            },
    {
        if self.is_terminal_check() {
            return *self;
        }
        if !ok {
            return Stage::Failed;
        }
        match self {
            Stage::Idle => Stage::Indexing,
            Stage::Indexing => Stage::Preprocessing,
            Stage::Preprocessing => Stage::Compositing,
            Stage::Compositing => Stage::Persisting,
            Stage::Persisting => Stage::Done,
            Stage::Done => Stage::Done,
            Stage::Failed => Stage::Failed,
        }
    }
}

} // verus!
