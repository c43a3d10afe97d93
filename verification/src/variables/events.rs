use vstd::prelude::*;

use super::{ConstraintId, VariableError, VariableId, VariableState};

verus! {

/// Receives the outcome of each domain update of a variable, and hands it
/// back unchanged so that the caller can go on with it.
pub trait VariableEvents {
    /// Records `event`, the outcome of an update of `vid`.
    fn push(&mut self, vid: VariableId, event: Result<VariableState, VariableError>) -> (r: Result<VariableState, VariableError>)
        ensures
            r == event,
    ;

    /// Records a successful update of `vid`.
    fn push_change(&mut self, vid: VariableId, event: VariableState) -> (r: Result<VariableState, VariableError>)
        ensures
            r == Ok::<VariableState, VariableError>(event),
    ;

    /// Records a failed update of `vid`.
    fn push_error(&mut self, vid: VariableId, event: VariableError) -> (r: Result<VariableState, VariableError>)
        ensures
            r == Err::<VariableState, VariableError>(event),
    ;
}

/// Receives the outcome of each domain update that a constraint makes, and
/// hands it back unchanged.
pub trait ConstraintVariableEvents {
    /// Records `event`, the outcome of an update of `vid` by `cid`.
    fn push(&mut self, cid: ConstraintId, vid: VariableId, event: Result<VariableState, VariableError>) -> (r: Result<VariableState, VariableError>)
        ensures
            r == event,
    ;

    /// Records a successful update of `vid` by `cid`.
    fn push_change(&mut self, cid: ConstraintId, vid: VariableId, event: VariableState) -> (r: Result<VariableState, VariableError>)
        ensures
            r == Ok::<VariableState, VariableError>(event),
    ;

    /// Records a failed update of `vid` by `cid`.
    fn push_error(&mut self, cid: ConstraintId, vid: VariableId, event: VariableError) -> (r: Result<VariableState, VariableError>)
        ensures
            r == Err::<VariableState, VariableError>(event),
    ;
}

/// Events that are handed back and not recorded.
#[derive(Debug)]
pub struct NoOpVariableEvents {
}

impl NoOpVariableEvents {
    /// The recorder that records nothing.
    pub fn new() -> (r: NoOpVariableEvents) {
        NoOpVariableEvents {  }
    }
}

impl VariableEvents for NoOpVariableEvents {
    fn push(&mut self, vid: VariableId, event: Result<VariableState, VariableError>) -> (r: Result<VariableState, VariableError>) {
        event
    }

    fn push_change(&mut self, vid: VariableId, event: VariableState) -> (r: Result<VariableState, VariableError>) {
        Ok(event)
    }

    fn push_error(&mut self, vid: VariableId, event: VariableError) -> (r: Result<VariableState, VariableError>) {
        Err(event)
    }
}

impl ConstraintVariableEvents for NoOpVariableEvents {
    fn push(&mut self, cid: ConstraintId, vid: VariableId, event: Result<VariableState, VariableError>) -> (r: Result<VariableState, VariableError>) {
        event
    }

    fn push_change(&mut self, cid: ConstraintId, vid: VariableId, event: VariableState) -> (r: Result<VariableState, VariableError>) {
        Ok(event)
    }

    fn push_error(&mut self, cid: ConstraintId, vid: VariableId, event: VariableError) -> (r: Result<VariableState, VariableError>) {
        Err(event)
    }
}

} // verus!
