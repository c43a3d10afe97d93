use vstd::prelude::*;

use super::{PropagationState, Propagator};
use crate::variables::{ArrayOfVars, VariableError};

verus! {

/// The state that a regular propagator hands from one propagation to the
/// next. It holds nothing yet.
#[derive(Debug, Clone, Copy, PartialEq, Eq, Structural)]
pub struct RegularState {}

/// The propagator of a regular-language constraint over an array: it keeps
/// the state it is given and the state it produced.
#[derive(Debug, Clone, Copy)]
pub struct RegularPropagator {
    input: Option<RegularState>,
    output: Option<RegularState>,
}

impl Propagator for RegularPropagator {}

impl RegularPropagator {
    /// A propagator with no state given or produced.
    pub fn new() -> (r: RegularPropagator)
        ensures
            r.spec_input() is None,
            r.spec_output() is None,
    {
        RegularPropagator { input: None, output: None }
    }

    /// The state given by the last call of `prepare`.
    pub closed spec fn spec_input(&self) -> Option<RegularState> {
        self.input
    }

    /// The state produced and not yet retrieved.
    pub closed spec fn spec_output(&self) -> Option<RegularState> {
        self.output
    }

    /// No call produces a state: the output stays unset.
    #[verifier::type_invariant]
    spec fn output_unset(&self) -> bool {
        self.output is None
    }

    /// Gives the propagator the state to start from.
    pub fn prepare(&mut self, state: RegularState)
        ensures
            final(self).spec_input() == Some(state),
            final(self).spec_output() == old(self).spec_output(),
            final(self).spec_output() is None,
    {
        proof {
            use_type_invariant(&*self);
        }
        self.input = Some(state);
    }

    /// Takes the state produced, leaving none.
    pub fn retrieve_state(&mut self) -> (r: Option<RegularState>)
        ensures
            r == old(self).spec_output(),
            r is None,
            final(self).spec_output() is None,
            final(self).spec_input() == old(self).spec_input(),
    {
        proof {
            use_type_invariant(&*self);
        }
        let mut state = None;
        std::mem::swap(&mut state, &mut self.output);
        state
    }

    /// Propagates on `array`: sets up a state when none is given, and
    /// reports a fix point. The domains are left as they are.
    pub fn propagate(&self, array: &mut ArrayOfVars, state: &mut Option<RegularState>) -> (r: Result<
        PropagationState,
        VariableError,
    >)
        ensures
            *final(array) == *old(array),
            *final(state) == Some(RegularState {}),
            r == Ok::<PropagationState, VariableError>(PropagationState::FixPoint),
    {
        if state.is_none() {
            *state = Some(RegularState {});
        }
        Ok(PropagationState::FixPoint)
    }
}

} // verus!
