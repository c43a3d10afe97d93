use vstd::prelude::*;

use super::domains::{AssignableDomain, FiniteDomain, Variable};
use super::{VariableError, VariableId, VariableState};

verus! {

/// The domain of a boolean variable.
#[derive(Clone, Copy, Debug)]
enum BoolDomain {
    True,
    False,
    Both,
    Empty,
}

/// A boolean variable.
#[derive(Clone, Debug)]
pub struct BoolVar {
    domain: BoolDomain,
    state: VariableState,
    id: usize,
}

impl BoolVar {
    /// A boolean variable that may still be either value, with identifier 0.
    pub fn new() -> (r: Option<BoolVar>)
        ensures
            r matches Some(b) && b.values() == seq![false, true] && b.var_id() == 0
                && b.spec_state() == VariableState::NoChange,
    {
        Some(BoolVar { domain: BoolDomain::Both, state: VariableState::NoChange, id: 0 })
    }

    /// The state recorded since it was last retrieved.
    pub closed spec fn spec_state(&self) -> VariableState {
        self.state
    }

    /// The state recorded since it was last retrieved.
    pub fn get_state(&self) -> (r: &VariableState)
        ensures
            *r == self.spec_state(),
    {
        &self.state
    }

    /// Takes the recorded state, leaving `NoChange` in its place.
    pub fn retrieve_state(&mut self) -> (r: VariableState)
        ensures
            r == old(self).spec_state(),
            final(self).spec_state() == VariableState::NoChange,
            final(self).values() == old(self).values(),
    {
        let mut state = VariableState::NoChange;
        std::mem::swap(&mut self.state, &mut state);
        state
    }
}

impl Variable for BoolVar {
    type Type = bool;

    closed spec fn values(&self) -> Seq<bool> {
        match self.domain {
            BoolDomain::True => seq![true],
            BoolDomain::False => seq![false],
            BoolDomain::Both => seq![false, true],
            BoolDomain::Empty => Seq::empty(),
        }
    }

    open spec fn var_wf(&self) -> bool {
        true
    }

    closed spec fn var_id(&self) -> usize {
        self.id
    }

    fn is_affected(&self) -> (r: bool) {
        match self.domain {
            BoolDomain::True => true,
            BoolDomain::False => true,
            _ => false,
        }
    }

    fn value(&self) -> (r: Option<bool>) {
        match self.domain {
            BoolDomain::True => Some(true),
            BoolDomain::False => Some(false),
            _ => None,
        }
    }

    fn id(&self) -> (r: VariableId) {
        VariableId(self.id)
    }
}

impl FiniteDomain for BoolVar {
    fn size(&self) -> (r: usize) {
        match self.domain {
            BoolDomain::True => 1,
            BoolDomain::False => 1,
            BoolDomain::Both => 2,
            BoolDomain::Empty => 0,
        }
    }
}

impl AssignableDomain for BoolVar {
    fn set_value(&mut self, value: bool) -> (r: Result<VariableState, VariableError>) {
        proof {
            let vs = self.values();
            if vs.len() > 0 && vs[0] == value {
                assert(vs.contains(value));
            }
            if vs.len() > 1 && vs[1] == value {
                assert(vs.contains(value));
            }
        }
        let value = match self.domain {
            BoolDomain::Both => value,
            BoolDomain::True if value => {
                return Ok(VariableState::NoChange);
            },
            BoolDomain::False if !value => {
                return Ok(VariableState::NoChange);
            },
            _ => {
                self.domain = BoolDomain::Empty;
                return Err(VariableError::DomainWipeout);
            },
        };
        self.domain = if value {
            BoolDomain::True
        } else {
            BoolDomain::False
        };
        if value {
            Ok(VariableState::MinBoundChange)
        } else {
            Ok(VariableState::MaxBoundChange)
        }
    }
}

} // verus!
