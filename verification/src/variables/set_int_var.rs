use vstd::prelude::*;

use super::domains::{
    AssignableDomain, BoundedDomain, EqualityDomains, FiniteDomain, FromRangeDomain, FromValuesDomain,
    IterableDomain, OrderedDomain, PrunableDomain, PrunableOrderedDomain, Variable,
};
use super::int_var::{is_range, IntVarValues};
use super::sorted::lemma_sorted_ext;
use super::{VariableError, VariableId, VariableState};

verus! {

/// An integer variable whose domain is the sorted set of its values. It is
/// built without an identifier of its own (its identifier is 0).
#[derive(Debug)]
pub struct SetIntVar {
    domain: IntVarValues,
}

impl SetIntVar {
    /// The variable with domain `min ..= max`, or `None` when `min > max`.
    pub fn new(min: i32, max: i32) -> (r: Option<SetIntVar>)
        requires
            min <= max ==> max < i32::MAX,
        ensures
            r is None <==> min > max,
            r matches Some(x) ==> x.var_wf() && is_range(x.values(), min, max) && x.var_id() == 0,
    {
        match IntVarValues::new(min, max) {
            Some(domain) => Some(SetIntVar { domain }),
            None => None,
        }
    }
}

impl Variable for SetIntVar {
    type Type = i32;

    closed spec fn values(&self) -> Seq<i32> {
        self.domain@
    }

    /// The values are sorted, strictly increasing, so without repetition.
    open spec fn var_wf(&self) -> bool {
        super::sorted::sorted(self.values())
    }

    closed spec fn var_id(&self) -> usize {
        self.domain.spec_id()
    }

    fn is_affected(&self) -> (r: bool) {
        self.domain.is_affected()
    }

    fn value(&self) -> (r: Option<i32>) {
        self.domain.value()
    }

    fn id(&self) -> (r: VariableId) {
        self.domain.id()
    }
}

impl FiniteDomain for SetIntVar {
    fn size(&self) -> (r: usize) {
        self.domain.size()
    }
}

impl IterableDomain for SetIntVar {
    fn iter(&self) -> (r: &[i32]) {
        self.domain.iter()
    }
}

impl FromRangeDomain for SetIntVar {
    fn new_from_range(min: i32, max: i32) -> (r: Option<SetIntVar>) {
        match IntVarValues::new_from_range(min, max) {
            Some(domain) => Some(SetIntVar { domain }),
            None => None,
        }
    }
}

impl FromValuesDomain for SetIntVar {
    fn new_from_values(values: Vec<i32>) -> (r: Option<SetIntVar>) {
        match IntVarValues::new_from_values(values) {
            Some(domain) => Some(SetIntVar { domain }),
            None => None,
        }
    }
}

impl AssignableDomain for SetIntVar {
    fn set_value(&mut self, value: i32) -> (r: Result<VariableState, VariableError>) {
        self.domain.set_value(value)
    }
}

impl OrderedDomain for SetIntVar {
    fn min(&self) -> (r: Option<i32>) {
        self.domain.min()
    }

    fn max(&self) -> (r: Option<i32>) {
        self.domain.max()
    }

    fn unchecked_min(&self) -> (r: i32) {
        self.domain.unchecked_min()
    }

    fn unchecked_max(&self) -> (r: i32) {
        self.domain.unchecked_max()
    }

    fn strict_upperbound(&mut self, ub: i32) -> (r: Result<VariableState, VariableError>) {
        self.domain.strict_upperbound(ub)
    }

    fn weak_upperbound(&mut self, ub: i32) -> (r: Result<VariableState, VariableError>) {
        self.domain.weak_upperbound(ub)
    }

    fn strict_lowerbound(&mut self, lb: i32) -> (r: Result<VariableState, VariableError>) {
        self.domain.strict_lowerbound(lb)
    }

    fn weak_lowerbound(&mut self, lb: i32) -> (r: Result<VariableState, VariableError>) {
        self.domain.weak_lowerbound(lb)
    }
}

impl BoundedDomain for SetIntVar {
}

impl PrunableDomain for SetIntVar {
    fn in_values(&mut self, values: Vec<i32>) -> (r: Result<VariableState, VariableError>) {
        self.domain.in_values(values)
    }

    fn remove_value(&mut self, value: i32) -> (r: Result<VariableState, VariableError>) {
        self.domain.remove_value(value)
    }

    fn remove_if<F: Fn(&i32) -> bool>(&mut self, pred: F) -> (r: Result<VariableState, VariableError>) {
        self.domain.remove_if(pred)
    }

    fn retains_if<F: Fn(&i32) -> bool>(&mut self, pred: F) -> (r: Result<VariableState, VariableError>) {
        self.domain.retains_if(pred)
    }
}

impl EqualityDomains for SetIntVar {
    fn equal(&mut self, value: &mut SetIntVar) -> (r: Result<(VariableState, VariableState), VariableError>) {
        self.domain.equal(&mut value.domain)
    }

    fn not_equal(&mut self, value: &mut SetIntVar) -> (r: Result<(VariableState, VariableState), VariableError>) {
        self.domain.not_equal(&mut value.domain)
    }
}

impl PrunableOrderedDomain for SetIntVar {
    fn in_sorted_values(&mut self, values: Vec<i32>) -> (r: Result<VariableState, VariableError>) {
        self.domain.in_sorted_values(values)
    }
}

/// A variable made by `new(min, max)` and one made by `new_from_values` from
/// the values `min, ..., max` have the same domain.
pub proof fn lemma_new_is_new_from_values(a: SetIntVar, b: SetIntVar, values: Seq<i32>, min: i32, max: i32)
    requires
        a.var_wf(),
        is_range(a.values(), min, max),
        b.var_wf(),
        forall|v: i32| b.values().contains(v) <==> values.contains(v),
        is_range(values, min, max),
    ensures
        a.values() == b.values(),
{
    assert(a.values() =~= values);
    lemma_sorted_ext(a.values(), b.values());
}

} // verus!
