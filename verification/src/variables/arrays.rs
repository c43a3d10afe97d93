use vstd::prelude::*;

use super::domains::Variable;
use super::int_var::{IntVarValues, IntVarValuesBuilder};
use super::{ArrayOfVars, ArrayOfVarsBuilder, VariableId};

verus! {

/// An array of variables.
pub trait Array {
    /// The type of the variables.
    type Variable: Variable;

    /// The variables, in order.
    spec fn vars(&self) -> Seq<Self::Variable>;

    /// A mutable reference to the variable at `position`, or `None` when out of
    /// bounds.
    fn get_mut(&mut self, position: usize) -> (r: Option<&mut Self::Variable>)
        ensures
            position < old(self).vars().len() ==> r is Some && *r->0 == old(self).vars()[position as int]
                && final(self).vars() == old(self).vars().update(position as int, *final(r->0)),
            position >= old(self).vars().len() ==> r is None && final(self).vars() == old(self).vars(),
    ;

    /// The variable at `position`, or `None` when out of bounds.
    fn get(&self, position: usize) -> (r: Option<&Self::Variable>)
        ensures
            position < self.vars().len() ==> r == Some(&self.vars()[position as int]),
            position >= self.vars().len() ==> r is None,
    ;

    /// A mutable reference to the variable at `position`, which must be in
    /// bounds.
    fn get_unchecked_mut(&mut self, position: usize) -> (r: &mut Self::Variable)
        requires
            position < old(self).vars().len(),
        ensures
            *r == old(self).vars()[position as int],
            final(self).vars() == old(self).vars().update(position as int, *final(r)),
    ;

    /// The variable at `position`, which must be in bounds.
    fn get_unchecked(&self, position: usize) -> (r: &Self::Variable)
        requires
            position < self.vars().len(),
        ensures
            *r == self.vars()[position as int],
    ;

    /// The variables, in order.
    fn iter(&self) -> (r: &[Self::Variable])
        ensures
            r@ == self.vars(),
    ;

    /// The variables, in order, for modification.
    fn iter_mut(&mut self) -> (r: &mut [Self::Variable])
        ensures
            r@ == old(self).vars(),
            final(self).vars() == final(r)@,
    ;

    /// The number of variables.
    fn len(&self) -> (r: usize)
        ensures
            r == self.vars().len(),
    ;

    /// The identifiers of the variables, in order.
    fn iter_ids(&self) -> (r: Vec<VariableId>)
        ensures
            r@.len() == self.vars().len(),
            forall|i: int| 0 <= i < r@.len() ==> r@[i] == VariableId(#[trigger] self.vars()[i].var_id()),
    {
        let n = self.len();
        let mut r: Vec<VariableId> = Vec::new();
        let mut i: usize = 0;
        while i < n
            invariant
                i <= n,
                n == self.vars().len(),
                r@.len() == i,
                forall|k: int| 0 <= k < i ==> r@[k] == VariableId(#[trigger] self.vars()[k].var_id()),
            decreases n - i,
        {
            r.push(self.get_unchecked(i).id());
            i = i + 1;
        }
        r
    }
}

/// An array of variables whose values have type `Type`.
pub trait ArrayOfVariables<Type>: Array where Self::Variable: Variable<Type = Type> {
}

/// A variable waiting for its identifier.
pub trait VariableBuilder: Sized {
    /// The type of the variable built.
    type Variable: Variable;

    /// The domain the variable will have.
    spec fn domain(&self) -> Seq<<Self::Variable as Variable>::Type>;

    /// The variable, with identifier `id`.
    fn finalize(self, id: usize) -> (r: Self::Variable)
        ensures
            r.values() == self.domain(),
            r.var_id() == id,
    ;
}

/// An array of variable builders.
pub trait ArrayBuilder: Sized {
    /// The type of the builders.
    type Builder: VariableBuilder;

    /// The builders, in order.
    spec fn builders(&self) -> Seq<Self::Builder>;

    /// The builders, in order.
    fn into_iter(self) -> (r: Vec<Self::Builder>)
        ensures
            r@ == self.builders(),
    ;
}

impl VariableBuilder for IntVarValuesBuilder {
    type Variable = IntVarValues;

    open spec fn domain(&self) -> Seq<i32> {
        self@
    }

    fn finalize(self, id: usize) -> (r: IntVarValues) {
        IntVarValuesBuilder::finalize(self, id)
    }
}

impl ArrayBuilder for ArrayOfVarsBuilder {
    type Builder = IntVarValuesBuilder;

    closed spec fn builders(&self) -> Seq<IntVarValuesBuilder> {
        self.variables@
    }

    fn into_iter(self) -> (r: Vec<IntVarValuesBuilder>) {
        self.variables
    }
}

impl ArrayOfVariables<i32> for ArrayOfVars {
}

impl Array for ArrayOfVars {
    type Variable = IntVarValues;

    open spec fn vars(&self) -> Seq<IntVarValues> {
        self@
    }

    fn get_mut(&mut self, position: usize) -> (r: Option<&mut IntVarValues>) {
        if position < self.variables.len() {
            Some(&mut self.variables[position])
        } else {
            None
        }
    }

    fn get(&self, position: usize) -> (r: Option<&IntVarValues>) {
        ArrayOfVars::get(self, position)
    }

    fn get_unchecked_mut(&mut self, position: usize) -> (r: &mut IntVarValues) {
        &mut self.variables[position]
    }

    fn get_unchecked(&self, position: usize) -> (r: &IntVarValues) {
        ArrayOfVars::get_unchecked(self, position)
    }

    fn iter(&self) -> (r: &[IntVarValues]) {
        self.variables.as_slice()
    }

    fn iter_mut(&mut self) -> (r: &mut [IntVarValues]) {
        self.variables.as_mut_slice()
    }

    fn len(&self) -> (r: usize) {
        ArrayOfVars::len(self)
    }
}

} // verus!
