use vstd::prelude::*;

use super::int_var::{
    assignment, bounds_fixpoint, bounds_round, change_state, is_range, removal, restriction, IntVarValues,
};
use super::sorted::{above, at_least, at_most, below, inter};
use super::{ArrayOfVars, VariableError, VariableId, VariableState};

verus! {

/// A decision variable: an identifier along with the domain of the values it
/// may still take.
pub trait Variable: Sized {
    /// The type of the values of the domain.
    type Type;

    /// The values of the domain, in the variable's canonical order.
    spec fn values(&self) -> Seq<Self::Type>;

    /// The representation of the domain is consistent.
    spec fn var_wf(&self) -> bool;

    /// The identifier of the variable.
    spec fn var_id(&self) -> usize;

    /// A variable is affected if and only if its domain is a singleton.
    fn is_affected(&self) -> (r: bool)
        requires
            self.var_wf(),
        ensures
            r == (self.values().len() == 1),
    ;

    /// The value of an affected variable, `None` otherwise.
    fn value(&self) -> (r: Option<Self::Type>)
        requires
            self.var_wf(),
        ensures
            r == (if self.values().len() == 1 {
                Some(self.values()[0])
            } else {
                None::<Self::Type>
            }),
    ;

    /// The identifier of the variable.
    fn id(&self) -> (r: VariableId)
        ensures
            r == VariableId(self.var_id()),
    ;

    /// The identifiers of the variables held: the variable itself.
    fn iter_ids(&self) -> (r: Vec<VariableId>)
        ensures
            r@ == seq![VariableId(self.var_id())],
    {
        let mut r: Vec<VariableId> = Vec::new();
        r.push(self.id());
        r
    }
}

/// A variable whose domain has a finite number of values.
pub trait FiniteDomain: Variable {
    /// The number of values of the domain.
    fn size(&self) -> (r: usize)
        requires
            self.var_wf(),
        ensures
            r == self.values().len(),
    ;
}

/// A variable whose values can be enumerated.
pub trait IterableDomain: FiniteDomain {
    /// The values of the domain, in order.
    fn iter(&self) -> (r: &[Self::Type])
        requires
            self.var_wf(),
        ensures
            r@ == self.values(),
    ;
}

/// A variable that can be built from an interval.
pub trait FromRangeDomain: FiniteDomain<Type = i32> {
    /// The variable with domain `min ..= max`, or `None` when `max < min`.
    fn new_from_range(min: i32, max: i32) -> (r: Option<Self>)
        requires
            min <= max ==> max < i32::MAX,
        ensures
            r is None <==> min > max,
            r matches Some(x) ==> x.var_wf() && is_range(x.values(), min, max),
    ;
}

/// A variable that can be built from a list of values.
pub trait FromValuesDomain: FiniteDomain<Type = i32> {
    /// The variable whose domain holds exactly the given values, or `None`
    /// when there is none.
    fn new_from_values(values: Vec<i32>) -> (r: Option<Self>)
        ensures
            r is None <==> values@.len() == 0,
            r matches Some(x) ==> x.var_wf() && forall|v: i32|
                x.values().contains(v) <==> values@.contains(v),
    ;
}

/// A variable that can be assigned a value.
pub trait AssignableDomain: FiniteDomain {
    /// Assigns `value`. Fails when `value` is not in the domain; otherwise
    /// reports no change when the variable already had that value, a change
    /// of the maximum only when `value` was the minimum, of the minimum only
    /// when it was the maximum, and of both bounds otherwise.
    fn set_value(&mut self, value: Self::Type) -> (r: Result<VariableState, VariableError>)
        requires
            old(self).var_wf(),
            old(self).values().len() > 0,
        ensures
            final(self).var_wf(),
            final(self).var_id() == old(self).var_id(),
            r is Ok <==> old(self).values().contains(value),
            r is Err ==> r == Err::<VariableState, VariableError>(VariableError::DomainWipeout),
            r is Ok ==> final(self).values() == seq![value],
            r is Ok ==> r == Ok::<VariableState, VariableError>(
                if old(self).values().len() == 1 {
                    VariableState::NoChange
                } else if value == old(self).values()[0] {
                    VariableState::MaxBoundChange
                } else if value == old(self).values().last() {
                    VariableState::MinBoundChange
                } else {
                    VariableState::BoundsChange
                },
            ),
    ;
}

impl Variable for IntVarValues {
    type Type = i32;

    open spec fn values(&self) -> Seq<i32> {
        self@
    }

    open spec fn var_wf(&self) -> bool {
        self.wf()
    }

    open spec fn var_id(&self) -> usize {
        self.spec_id()
    }

    fn is_affected(&self) -> (r: bool) {
        IntVarValues::is_affected(self)
    }

    fn value(&self) -> (r: Option<i32>) {
        IntVarValues::value(self)
    }

    fn id(&self) -> (r: VariableId) {
        IntVarValues::id(self)
    }
}

impl FiniteDomain for IntVarValues {
    fn size(&self) -> (r: usize) {
        IntVarValues::size(self)
    }
}

impl IterableDomain for IntVarValues {
    fn iter(&self) -> (r: &[i32]) {
        IntVarValues::iter(self)
    }
}

impl FromRangeDomain for IntVarValues {
    fn new_from_range(min: i32, max: i32) -> (r: Option<IntVarValues>) {
        IntVarValues::new_from_range(min, max)
    }
}

impl FromValuesDomain for IntVarValues {
    fn new_from_values(values: Vec<i32>) -> (r: Option<IntVarValues>) {
        IntVarValues::new_from_values(values)
    }
}

impl AssignableDomain for IntVarValues {
    fn set_value(&mut self, value: i32) -> (r: Result<VariableState, VariableError>)
        ensures
            (r, final(self)@) == assignment(old(self)@, value),
    {
        IntVarValues::set_value(self, value)
    }
}

/// What forcing the values of `s` below `ub` reports, and the domain it
/// leaves: a wipeout, leaving `s`, when no value is below `ub`.
pub open spec fn upper_strict(s: Seq<i32>, ub: i32) -> (Result<VariableState, VariableError>, Seq<i32>) {
    if s[0] >= ub {
        (Err(VariableError::DomainWipeout), s)
    } else {
        (Ok(change_state(s, below(s, ub))), below(s, ub))
    }
}

/// What forcing the values of `s` to be at most `ub` reports, and the domain
/// it leaves.
pub open spec fn upper_weak(s: Seq<i32>, ub: i32) -> (Result<VariableState, VariableError>, Seq<i32>) {
    if s[0] > ub {
        (Err(VariableError::DomainWipeout), s)
    } else {
        (Ok(change_state(s, at_most(s, ub))), at_most(s, ub))
    }
}

/// What forcing the values of `s` above `lb` reports, and the domain it
/// leaves.
pub open spec fn lower_strict(s: Seq<i32>, lb: i32) -> (Result<VariableState, VariableError>, Seq<i32>) {
    if s.last() <= lb {
        (Err(VariableError::DomainWipeout), s)
    } else {
        (Ok(change_state(s, above(s, lb))), above(s, lb))
    }
}

/// What forcing the values of `s` to be at least `lb` reports, and the domain
/// it leaves.
pub open spec fn lower_weak(s: Seq<i32>, lb: i32) -> (Result<VariableState, VariableError>, Seq<i32>) {
    if s.last() < lb {
        (Err(VariableError::DomainWipeout), s)
    } else {
        (Ok(change_state(s, at_least(s, lb))), at_least(s, lb))
    }
}

/// Two bound updates in turn, the second skipped when the first fails: the
/// combined report and the two domains they leave.
pub open spec fn two_steps(
    first: (Result<VariableState, VariableError>, Seq<i32>),
    second: (Result<VariableState, VariableError>, Seq<i32>),
    other: Seq<i32>,
) -> (Result<(VariableState, VariableState), VariableError>, Seq<i32>, Seq<i32>) {
    match first.0 {
        Err(e) => (Err(e), first.1, other),
        Ok(x) => match second.0 {
            Err(e) => (Err(e), first.1, second.1),
            Ok(y) => (Ok((x, y)), first.1, second.1),
        },
    }
}

/// `s < v`: the values of `s` below the maximum of `v`, then the values of `v`
/// above the new minimum of `s`.
pub open spec fn less_outcome(s: Seq<i32>, v: Seq<i32>) -> (Result<(VariableState, VariableState), VariableError>, Seq<i32>, Seq<i32>) {
    let first = upper_strict(s, v.last());
    two_steps(first, lower_strict(v, first.1[0]), v)
}

/// `s <= v`.
pub open spec fn less_eq_outcome(s: Seq<i32>, v: Seq<i32>) -> (Result<(VariableState, VariableState), VariableError>, Seq<i32>, Seq<i32>) {
    let first = upper_weak(s, v.last());
    two_steps(first, lower_weak(v, first.1[0]), v)
}

/// `s > v`: the values of `s` above the minimum of `v`, then the values of `v`
/// below the new maximum of `s`.
pub open spec fn greater_outcome(s: Seq<i32>, v: Seq<i32>) -> (Result<(VariableState, VariableState), VariableError>, Seq<i32>, Seq<i32>) {
    let first = lower_strict(s, v[0]);
    two_steps(first, upper_strict(v, first.1.last()), v)
}

/// `s >= v`.
pub open spec fn greater_eq_outcome(s: Seq<i32>, v: Seq<i32>) -> (Result<(VariableState, VariableState), VariableError>, Seq<i32>, Seq<i32>) {
    let first = lower_weak(s, v[0]);
    two_steps(first, upper_weak(v, first.1.last()), v)
}

/// A variable whose values are totally ordered, with a minimum and a maximum.
pub trait OrderedDomain: FiniteDomain<Type = i32> {
    /// The smallest value, or `None` when the domain is empty.
    fn min(&self) -> (r: Option<i32>)
        ensures
            r == (if self.values().len() == 0 { None } else { Some(self.values()[0]) }),
    ;

    /// The largest value, or `None` when the domain is empty.
    fn max(&self) -> (r: Option<i32>)
        ensures
            r == (if self.values().len() == 0 { None } else { Some(self.values().last()) }),
    ;

    /// The smallest value of a non-empty domain.
    fn unchecked_min(&self) -> (r: i32)
        requires
            self.values().len() > 0,
        ensures
            r == self.values()[0],
    ;

    /// The largest value of a non-empty domain.
    fn unchecked_max(&self) -> (r: i32)
        requires
            self.values().len() > 0,
        ensures
            r == self.values().last(),
    ;

    /// Forces the values to be strictly lower than `ub`.
    fn strict_upperbound(&mut self, ub: i32) -> (r: Result<VariableState, VariableError>)
        requires
            old(self).var_wf(),
            old(self).values().len() > 0,
        ensures
            final(self).var_wf(),
            final(self).var_id() == old(self).var_id(),
            final(self).values().len() > 0,
            (r, final(self).values()) == upper_strict(old(self).values(), ub),
            r is Ok ==> final(self).values()[0] == old(self).values()[0],
    ;

    /// Forces the values to be at most `ub`.
    fn weak_upperbound(&mut self, ub: i32) -> (r: Result<VariableState, VariableError>)
        requires
            old(self).var_wf(),
            old(self).values().len() > 0,
        ensures
            final(self).var_wf(),
            final(self).var_id() == old(self).var_id(),
            final(self).values().len() > 0,
            (r, final(self).values()) == upper_weak(old(self).values(), ub),
            r is Ok ==> final(self).values()[0] == old(self).values()[0],
    ;

    /// Forces the values to be strictly greater than `lb`.
    fn strict_lowerbound(&mut self, lb: i32) -> (r: Result<VariableState, VariableError>)
        requires
            old(self).var_wf(),
            old(self).values().len() > 0,
        ensures
            final(self).var_wf(),
            final(self).var_id() == old(self).var_id(),
            final(self).values().len() > 0,
            (r, final(self).values()) == lower_strict(old(self).values(), lb),
            r is Ok ==> final(self).values().last() == old(self).values().last(),
    ;

    /// Forces the values to be at least `lb`.
    fn weak_lowerbound(&mut self, lb: i32) -> (r: Result<VariableState, VariableError>)
        requires
            old(self).var_wf(),
            old(self).values().len() > 0,
        ensures
            final(self).var_wf(),
            final(self).var_id() == old(self).var_id(),
            final(self).values().len() > 0,
            (r, final(self).values()) == lower_weak(old(self).values(), lb),
            r is Ok ==> final(self).values().last() == old(self).values().last(),
    ;
}

/// Precedence relations between the bounds of two ordered variables.
pub trait BoundedDomain<Other: OrderedDomain = Self>: OrderedDomain {
    /// Forces `self < value`: first the values of `self` below the maximum of
    /// `value`, then the values of `value` above the new minimum of `self`.
    /// Stops at the first step that wipes a domain out.
    fn less_than(&mut self, value: &mut Other) -> (r: Result<(VariableState, VariableState), VariableError>)
        requires
            old(self).var_wf(),
            old(value).var_wf(),
            old(self).values().len() > 0,
            old(value).values().len() > 0,
        ensures
            final(self).var_wf(),
            final(value).var_wf(),
            final(self).var_id() == old(self).var_id(),
            final(value).var_id() == old(value).var_id(),
            final(self).values().len() > 0,
            final(value).values().len() > 0,
            (r, final(self).values(), final(value).values()) == less_outcome(
                old(self).values(),
                old(value).values(),
            ),
            final(self).values()[0] == old(self).values()[0],
            final(value).values().last() == old(value).values().last(),
    {
        let ub = value.unchecked_max();
        let state_self = match self.strict_upperbound(ub) {
            Ok(st) => st,
            Err(e) => {
                return Err(e);
            },
        };
        let lb = self.unchecked_min();
        let state_value = match value.strict_lowerbound(lb) {
            Ok(st) => st,
            Err(e) => {
                return Err(e);
            },
        };
        Ok((state_self, state_value))
    }

    /// Forces `self <= value`.
    fn less_or_equal_than(&mut self, value: &mut Other) -> (r: Result<(VariableState, VariableState), VariableError>)
        requires
            old(self).var_wf(),
            old(value).var_wf(),
            old(self).values().len() > 0,
            old(value).values().len() > 0,
        ensures
            final(self).var_wf(),
            final(value).var_wf(),
            final(self).var_id() == old(self).var_id(),
            final(value).var_id() == old(value).var_id(),
            final(self).values().len() > 0,
            final(value).values().len() > 0,
            (r, final(self).values(), final(value).values()) == less_eq_outcome(
                old(self).values(),
                old(value).values(),
            ),
            final(self).values()[0] == old(self).values()[0],
            final(value).values().last() == old(value).values().last(),
    {
        let ub = value.unchecked_max();
        let state_self = match self.weak_upperbound(ub) {
            Ok(st) => st,
            Err(e) => {
                return Err(e);
            },
        };
        let lb = self.unchecked_min();
        let state_value = match value.weak_lowerbound(lb) {
            Ok(st) => st,
            Err(e) => {
                return Err(e);
            },
        };
        Ok((state_self, state_value))
    }

    /// Forces `self > value`: first the values of `self` above the minimum of
    /// `value`, then the values of `value` below the new maximum of `self`.
    fn greater_than(&mut self, value: &mut Other) -> (r: Result<(VariableState, VariableState), VariableError>)
        requires
            old(self).var_wf(),
            old(value).var_wf(),
            old(self).values().len() > 0,
            old(value).values().len() > 0,
        ensures
            final(self).var_wf(),
            final(value).var_wf(),
            final(self).var_id() == old(self).var_id(),
            final(value).var_id() == old(value).var_id(),
            final(self).values().len() > 0,
            final(value).values().len() > 0,
            (r, final(self).values(), final(value).values()) == greater_outcome(
                old(self).values(),
                old(value).values(),
            ),
            final(self).values().last() == old(self).values().last(),
            final(value).values()[0] == old(value).values()[0],
    {
        let lb = value.unchecked_min();
        let state_self = match self.strict_lowerbound(lb) {
            Ok(st) => st,
            Err(e) => {
                return Err(e);
            },
        };
        let ub = self.unchecked_max();
        let state_value = match value.strict_upperbound(ub) {
            Ok(st) => st,
            Err(e) => {
                return Err(e);
            },
        };
        Ok((state_self, state_value))
    }

    /// Forces `self >= value`.
    fn greater_or_equal_than(&mut self, value: &mut Other) -> (r: Result<(VariableState, VariableState), VariableError>)
        requires
            old(self).var_wf(),
            old(value).var_wf(),
            old(self).values().len() > 0,
            old(value).values().len() > 0,
        ensures
            final(self).var_wf(),
            final(value).var_wf(),
            final(self).var_id() == old(self).var_id(),
            final(value).var_id() == old(value).var_id(),
            final(self).values().len() > 0,
            final(value).values().len() > 0,
            (r, final(self).values(), final(value).values()) == greater_eq_outcome(
                old(self).values(),
                old(value).values(),
            ),
            final(self).values().last() == old(self).values().last(),
            final(value).values()[0] == old(value).values()[0],
    {
        let lb = value.unchecked_min();
        let state_self = match self.weak_lowerbound(lb) {
            Ok(st) => st,
            Err(e) => {
                return Err(e);
            },
        };
        let ub = self.unchecked_max();
        let state_value = match value.weak_upperbound(ub) {
            Ok(st) => st,
            Err(e) => {
                return Err(e);
            },
        };
        Ok((state_self, state_value))
    }

    /// Aligns the bounds of the two domains by repeating `self <= value` and
    /// `self >= value` until a round leaves the maximum of `self` (in the
    /// first step) and of `value` (in the second) where they were. Fails when
    /// a step fails.
    fn equal_bounds(&mut self, value: &mut Other) -> (r: Result<(VariableState, VariableState), VariableError>)
        requires
            old(self).var_wf(),
            old(value).var_wf(),
            old(self).values().len() > 0,
            old(value).values().len() > 0,
        ensures
            final(self).var_wf(),
            final(value).var_wf(),
            final(self).var_id() == old(self).var_id(),
            final(value).var_id() == old(value).var_id(),
            bounds_fixpoint(old(self).values(), old(value).values()) is None ==> r == Err::<
                (VariableState, VariableState),
                VariableError,
            >(VariableError::DomainWipeout),
            bounds_fixpoint(old(self).values(), old(value).values()) matches Some((s, v)) ==> r
                == Ok::<(VariableState, VariableState), VariableError>(
                (VariableState::NoChange, VariableState::NoChange),
            ) && final(self).values() == s && final(value).values() == v,
    {
        let mut x = VariableState::NoChange;
        let mut y = VariableState::NoChange;
        let ghost target = bounds_fixpoint(self.values(), value.values());
        loop
            invariant_except_break
                self.values().len() > 0,
                value.values().len() > 0,
                target == bounds_fixpoint(self.values(), value.values()),
            invariant
                self.var_wf(),
                value.var_wf(),
                self.var_id() == old(self).var_id(),
                value.var_id() == old(value).var_id(),
                target == bounds_fixpoint(old(self).values(), old(value).values()),
                x == VariableState::NoChange,
                y == VariableState::NoChange,
            ensures
                target matches Some((s, v)) && self.values() == s && value.values() == v,
                self.var_wf(),
                value.var_wf(),
                self.var_id() == old(self).var_id(),
                value.var_id() == old(value).var_id(),
                x == VariableState::NoChange,
                y == VariableState::NoChange,
            decreases self.values().len() + value.values().len(),
        {
            let ghost s0 = self.values();
            let ghost v0 = value.values();
            let x1 = match self.less_or_equal_than(value) {
                Ok(p) => p.0,
                Err(e) => {
                    return Err(e);
                },
            };
            let ghost s1 = self.values();
            let ghost v1 = value.values();
            let y1 = match self.greater_or_equal_than(value) {
                Ok(p) => p.1,
                Err(e) => {
                    return Err(e);
                },
            };
            proof {
                s0.lemma_filter_len(|t: i32| t <= v0.last());
                v0.lemma_filter_len(|t: i32| t >= s0[0]);
                s1.lemma_filter_len(|t: i32| t >= v1[0]);
                v1.lemma_filter_len(|t: i32| t <= s1.last());
                assert(bounds_round(s0, v0) == Some((self.values(), value.values(), s1.len() == s0.len()
                    && value.values().len() == v1.len())));
            }
            if x1 == VariableState::NoChange && y1 == VariableState::NoChange {
                break ;
            }
            if x1.is_subsumed_under(&x) {
                x = x1;
            }
            if y1.is_subsumed_under(&y) {
                y = y1;
            }
        }
        Ok((x, y))
    }
}

/// An ordered variable with precedence relations towards 2 ordered
/// variable types.
pub trait BoundedDomain2<T1, T2>: OrderedDomain + BoundedDomain<T1> + BoundedDomain<T2> where T1: OrderedDomain, T2: OrderedDomain {
}

impl<S, T1, T2> BoundedDomain2<T1, T2> for S where S: OrderedDomain + BoundedDomain<T1> + BoundedDomain<T2>, T1: OrderedDomain, T2: OrderedDomain {
}

/// An ordered variable with precedence relations towards 3 ordered
/// variable types.
pub trait BoundedDomain3<T1, T2, T3>: OrderedDomain + BoundedDomain<T1> + BoundedDomain<T2> + BoundedDomain<T3> where T1: OrderedDomain, T2: OrderedDomain, T3: OrderedDomain {
}

impl<S, T1, T2, T3> BoundedDomain3<T1, T2, T3> for S where S: OrderedDomain + BoundedDomain<T1> + BoundedDomain<T2> + BoundedDomain<T3>, T1: OrderedDomain, T2: OrderedDomain, T3: OrderedDomain {
}

/// An ordered variable with precedence relations towards 4 ordered
/// variable types.
pub trait BoundedDomain4<T1, T2, T3, T4>: OrderedDomain + BoundedDomain<T1> + BoundedDomain<T2> + BoundedDomain<T3> + BoundedDomain<T4> where T1: OrderedDomain, T2: OrderedDomain, T3: OrderedDomain, T4: OrderedDomain {
}

impl<S, T1, T2, T3, T4> BoundedDomain4<T1, T2, T3, T4> for S where S: OrderedDomain + BoundedDomain<T1> + BoundedDomain<T2> + BoundedDomain<T3> + BoundedDomain<T4>, T1: OrderedDomain, T2: OrderedDomain, T3: OrderedDomain, T4: OrderedDomain {
}

/// An ordered variable with precedence relations towards 5 ordered
/// variable types.
pub trait BoundedDomain5<T1, T2, T3, T4, T5>: OrderedDomain + BoundedDomain<T1> + BoundedDomain<T2> + BoundedDomain<T3> + BoundedDomain<T4> + BoundedDomain<T5> where T1: OrderedDomain, T2: OrderedDomain, T3: OrderedDomain, T4: OrderedDomain, T5: OrderedDomain {
}

impl<S, T1, T2, T3, T4, T5> BoundedDomain5<T1, T2, T3, T4, T5> for S where S: OrderedDomain + BoundedDomain<T1> + BoundedDomain<T2> + BoundedDomain<T3> + BoundedDomain<T4> + BoundedDomain<T5>, T1: OrderedDomain, T2: OrderedDomain, T3: OrderedDomain, T4: OrderedDomain, T5: OrderedDomain {
}

/// An ordered variable with precedence relations towards 6 ordered
/// variable types.
pub trait BoundedDomain6<T1, T2, T3, T4, T5, T6>: OrderedDomain + BoundedDomain<T1> + BoundedDomain<T2> + BoundedDomain<T3> + BoundedDomain<T4> + BoundedDomain<T5> + BoundedDomain<T6> where T1: OrderedDomain, T2: OrderedDomain, T3: OrderedDomain, T4: OrderedDomain, T5: OrderedDomain, T6: OrderedDomain {
}

impl<S, T1, T2, T3, T4, T5, T6> BoundedDomain6<T1, T2, T3, T4, T5, T6> for S where S: OrderedDomain + BoundedDomain<T1> + BoundedDomain<T2> + BoundedDomain<T3> + BoundedDomain<T4> + BoundedDomain<T5> + BoundedDomain<T6>, T1: OrderedDomain, T2: OrderedDomain, T3: OrderedDomain, T4: OrderedDomain, T5: OrderedDomain, T6: OrderedDomain {
}

/// An ordered variable with precedence relations towards 7 ordered
/// variable types.
pub trait BoundedDomain7<T1, T2, T3, T4, T5, T6, T7>: OrderedDomain + BoundedDomain<T1> + BoundedDomain<T2> + BoundedDomain<T3> + BoundedDomain<T4> + BoundedDomain<T5> + BoundedDomain<T6> + BoundedDomain<T7> where T1: OrderedDomain, T2: OrderedDomain, T3: OrderedDomain, T4: OrderedDomain, T5: OrderedDomain, T6: OrderedDomain, T7: OrderedDomain {
}

impl<S, T1, T2, T3, T4, T5, T6, T7> BoundedDomain7<T1, T2, T3, T4, T5, T6, T7> for S where S: OrderedDomain + BoundedDomain<T1> + BoundedDomain<T2> + BoundedDomain<T3> + BoundedDomain<T4> + BoundedDomain<T5> + BoundedDomain<T6> + BoundedDomain<T7>, T1: OrderedDomain, T2: OrderedDomain, T3: OrderedDomain, T4: OrderedDomain, T5: OrderedDomain, T6: OrderedDomain, T7: OrderedDomain {
}

/// An ordered variable with precedence relations towards 8 ordered
/// variable types.
pub trait BoundedDomain8<T1, T2, T3, T4, T5, T6, T7, T8>: OrderedDomain + BoundedDomain<T1> + BoundedDomain<T2> + BoundedDomain<T3> + BoundedDomain<T4> + BoundedDomain<T5> + BoundedDomain<T6> + BoundedDomain<T7> + BoundedDomain<T8> where T1: OrderedDomain, T2: OrderedDomain, T3: OrderedDomain, T4: OrderedDomain, T5: OrderedDomain, T6: OrderedDomain, T7: OrderedDomain, T8: OrderedDomain {
}

impl<S, T1, T2, T3, T4, T5, T6, T7, T8> BoundedDomain8<T1, T2, T3, T4, T5, T6, T7, T8> for S where S: OrderedDomain + BoundedDomain<T1> + BoundedDomain<T2> + BoundedDomain<T3> + BoundedDomain<T4> + BoundedDomain<T5> + BoundedDomain<T6> + BoundedDomain<T7> + BoundedDomain<T8>, T1: OrderedDomain, T2: OrderedDomain, T3: OrderedDomain, T4: OrderedDomain, T5: OrderedDomain, T6: OrderedDomain, T7: OrderedDomain, T8: OrderedDomain {
}

/// An ordered variable with precedence relations towards 9 ordered
/// variable types.
pub trait BoundedDomain9<T1, T2, T3, T4, T5, T6, T7, T8, T9>: OrderedDomain + BoundedDomain<T1> + BoundedDomain<T2> + BoundedDomain<T3> + BoundedDomain<T4> + BoundedDomain<T5> + BoundedDomain<T6> + BoundedDomain<T7> + BoundedDomain<T8> + BoundedDomain<T9> where T1: OrderedDomain, T2: OrderedDomain, T3: OrderedDomain, T4: OrderedDomain, T5: OrderedDomain, T6: OrderedDomain, T7: OrderedDomain, T8: OrderedDomain, T9: OrderedDomain {
}

impl<S, T1, T2, T3, T4, T5, T6, T7, T8, T9> BoundedDomain9<T1, T2, T3, T4, T5, T6, T7, T8, T9> for S where S: OrderedDomain + BoundedDomain<T1> + BoundedDomain<T2> + BoundedDomain<T3> + BoundedDomain<T4> + BoundedDomain<T5> + BoundedDomain<T6> + BoundedDomain<T7> + BoundedDomain<T8> + BoundedDomain<T9>, T1: OrderedDomain, T2: OrderedDomain, T3: OrderedDomain, T4: OrderedDomain, T5: OrderedDomain, T6: OrderedDomain, T7: OrderedDomain, T8: OrderedDomain, T9: OrderedDomain {
}

/// An ordered variable with precedence relations towards 10 ordered
/// variable types.
pub trait BoundedDomain10<T1, T2, T3, T4, T5, T6, T7, T8, T9, T10>: OrderedDomain + BoundedDomain<T1> + BoundedDomain<T2> + BoundedDomain<T3> + BoundedDomain<T4> + BoundedDomain<T5> + BoundedDomain<T6> + BoundedDomain<T7> + BoundedDomain<T8> + BoundedDomain<T9> + BoundedDomain<T10> where T1: OrderedDomain, T2: OrderedDomain, T3: OrderedDomain, T4: OrderedDomain, T5: OrderedDomain, T6: OrderedDomain, T7: OrderedDomain, T8: OrderedDomain, T9: OrderedDomain, T10: OrderedDomain {
}

impl<S, T1, T2, T3, T4, T5, T6, T7, T8, T9, T10> BoundedDomain10<T1, T2, T3, T4, T5, T6, T7, T8, T9, T10> for S where S: OrderedDomain + BoundedDomain<T1> + BoundedDomain<T2> + BoundedDomain<T3> + BoundedDomain<T4> + BoundedDomain<T5> + BoundedDomain<T6> + BoundedDomain<T7> + BoundedDomain<T8> + BoundedDomain<T9> + BoundedDomain<T10>, T1: OrderedDomain, T2: OrderedDomain, T3: OrderedDomain, T4: OrderedDomain, T5: OrderedDomain, T6: OrderedDomain, T7: OrderedDomain, T8: OrderedDomain, T9: OrderedDomain, T10: OrderedDomain {
}

/// The domains that `my_lower` leaves: `a < b`, `a < c`, `b < c`, then
/// `b >= a`, `c >= a` and `c >= b`, each step acting on the domains the
/// previous ones left.
pub open spec fn lower_chain(a: Seq<i32>, b: Seq<i32>, c: Seq<i32>) -> (Seq<i32>, Seq<i32>, Seq<i32>) {
    let s1 = less_outcome(a, b);
    let s2 = less_outcome(s1.1, c);
    let s3 = less_outcome(s1.2, s2.2);
    let s4 = greater_eq_outcome(s3.1, s2.1);
    let s5 = greater_eq_outcome(s3.2, s4.2);
    let s6 = greater_eq_outcome(s5.1, s4.1);
    (s5.2, s6.2, s6.1)
}

/// Posts `a < b`, `a < c`, `b < c`, `b >= a`, `c >= a` and `c >= b` in turn,
/// ignoring their reports: a step that fails leaves the domains as it found
/// them.
pub fn my_lower<A, B, C>(a: &mut A, b: &mut B, c: &mut C)
    where
        A: BoundedDomain3<A, B, C>,
        B: BoundedDomain3<A, B, C>,
        C: BoundedDomain3<A, B, C>,
    requires
        old(a).var_wf(),
        old(b).var_wf(),
        old(c).var_wf(),
        old(a).values().len() > 0,
        old(b).values().len() > 0,
        old(c).values().len() > 0,
    ensures
        final(a).var_wf(),
        final(b).var_wf(),
        final(c).var_wf(),
        (final(a).values(), final(b).values(), final(c).values()) == lower_chain(
            old(a).values(),
            old(b).values(),
            old(c).values(),
        ),
{
    let _ = a.less_than(b);
    let _ = a.less_than(c);
    let _ = b.less_than(c);
    let _ = b.greater_or_equal_than(a);
    let _ = c.greater_or_equal_than(a);
    let _ = c.greater_or_equal_than(b);
}

impl OrderedDomain for IntVarValues {
    fn min(&self) -> (r: Option<i32>) {
        IntVarValues::min(self)
    }

    fn max(&self) -> (r: Option<i32>) {
        IntVarValues::max(self)
    }

    fn unchecked_min(&self) -> (r: i32) {
        IntVarValues::unchecked_min(self)
    }

    fn unchecked_max(&self) -> (r: i32) {
        IntVarValues::unchecked_max(self)
    }

    fn strict_upperbound(&mut self, ub: i32) -> (r: Result<VariableState, VariableError>) {
        IntVarValues::strict_upperbound(self, ub)
    }

    fn weak_upperbound(&mut self, ub: i32) -> (r: Result<VariableState, VariableError>) {
        IntVarValues::weak_upperbound(self, ub)
    }

    fn strict_lowerbound(&mut self, lb: i32) -> (r: Result<VariableState, VariableError>) {
        IntVarValues::strict_lowerbound(self, lb)
    }

    fn weak_lowerbound(&mut self, lb: i32) -> (r: Result<VariableState, VariableError>) {
        IntVarValues::weak_lowerbound(self, lb)
    }
}

impl BoundedDomain for IntVarValues {
}

/// A variable from whose domain any value can be removed.
pub trait PrunableDomain: FiniteDomain<Type = i32> {
    /// Restricts the domain to the given values. Fails when none of them is
    /// in the domain.
    fn in_values(&mut self, values: Vec<i32>) -> (r: Result<VariableState, VariableError>)
        requires
            old(self).var_wf(),
        ensures
            final(self).var_wf(),
            final(self).var_id() == old(self).var_id(),
            (r, final(self).values()) == restriction(old(self).values(), values@),
    ;

    /// Removes `value` from the domain. Fails when it was the last value.
    fn remove_value(&mut self, value: i32) -> (r: Result<VariableState, VariableError>)
        requires
            old(self).var_wf(),
            old(self).values().len() > 0,
        ensures
            final(self).var_wf(),
            final(self).var_id() == old(self).var_id(),
            (r, final(self).values()) == removal(old(self).values(), value),
    ;

    /// Removes the values that satisfy `pred`. Fails when none is left.
    fn remove_if<F: Fn(&i32) -> bool>(&mut self, pred: F) -> (r: Result<VariableState, VariableError>)
        requires
            old(self).var_wf(),
            old(self).values().len() > 0,
            forall|v: i32| call_requires(pred, (&v,)),
        ensures
            final(self).var_wf(),
            final(self).var_id() == old(self).var_id(),
            forall|v: i32| #[trigger] final(self).values().contains(v) ==> old(self).values().contains(v) && call_ensures(
                pred,
                (&v,),
                false,
            ),
            forall|v: i32| #[trigger] old(self).values().contains(v) && !final(self).values().contains(v) ==> call_ensures(
                pred,
                (&v,),
                true,
            ),
            r is Err <==> final(self).values().len() == 0,
            r is Err ==> r == Err::<VariableState, VariableError>(VariableError::DomainWipeout),
            r is Ok ==> r == Ok::<VariableState, VariableError>(
                change_state(old(self).values(), final(self).values()),
            ),
    ;

    /// Keeps only the values that satisfy `pred`. Fails when none is left.
    fn retains_if<F: Fn(&i32) -> bool>(&mut self, pred: F) -> (r: Result<VariableState, VariableError>)
        requires
            old(self).var_wf(),
            old(self).values().len() > 0,
            forall|v: i32| call_requires(pred, (&v,)),
        ensures
            final(self).var_wf(),
            final(self).var_id() == old(self).var_id(),
            forall|v: i32| #[trigger] final(self).values().contains(v) ==> old(self).values().contains(v) && call_ensures(
                pred,
                (&v,),
                true,
            ),
            forall|v: i32| #[trigger] old(self).values().contains(v) && !final(self).values().contains(v) ==> call_ensures(
                pred,
                (&v,),
                false,
            ),
            r is Err <==> final(self).values().len() == 0,
            r is Err ==> r == Err::<VariableState, VariableError>(VariableError::DomainWipeout),
            r is Ok ==> r == Ok::<VariableState, VariableError>(
                change_state(old(self).values(), final(self).values()),
            ),
    ;
}

/// Equality and disequality between two variables.
pub trait EqualityDomains: PrunableDomain {
    /// Restricts both domains to their common values. Fails, emptying both,
    /// when they have none in common.
    fn equal(&mut self, value: &mut Self) -> (r: Result<(VariableState, VariableState), VariableError>)
        requires
            old(self).var_wf(),
            old(value).var_wf(),
        ensures
            final(self).var_wf(),
            final(value).var_wf(),
            final(self).var_id() == old(self).var_id(),
            final(value).var_id() == old(value).var_id(),
            inter(old(self).values(), old(value).values()).len() == 0 ==> r == Err::<
                (VariableState, VariableState),
                VariableError,
            >(VariableError::DomainWipeout) && final(self).values().len() == 0 && final(value).values().len()
                == 0,
            inter(old(self).values(), old(value).values()).len() > 0 ==> final(self).values() == inter(
                old(self).values(),
                old(value).values(),
            ) && final(value).values() == inter(old(self).values(), old(value).values()) && r == Ok::<
                (VariableState, VariableState),
                VariableError,
            >(
                (
                    change_state(old(self).values(), final(self).values()),
                    change_state(old(value).values(), final(value).values()),
                ),
            ),
    ;

    /// Removes the value of an affected variable from the other one; does
    /// nothing when neither is affected.
    fn not_equal(&mut self, value: &mut Self) -> (r: Result<(VariableState, VariableState), VariableError>)
        requires
            old(self).var_wf(),
            old(value).var_wf(),
            old(self).values().len() == 1 ==> old(value).values().len() > 0,
            old(self).values().len() != 1 && old(value).values().len() == 1 ==> old(self).values().len() > 0,
        ensures
            final(self).var_wf(),
            final(value).var_wf(),
            final(self).var_id() == old(self).var_id(),
            final(value).var_id() == old(value).var_id(),
            old(self).values().len() == 1 ==> final(self).values() == old(self).values() && final(value).values() == removal(
                old(value).values(),
                old(self).values()[0],
            ).1 && r == (match removal(old(value).values(), old(self).values()[0]).0 {
                Ok(st) => Ok((VariableState::NoChange, st)),
                Err(e) => Err(e),
            }),
            old(self).values().len() != 1 && old(value).values().len() == 1 ==> final(value).values() == old(value).values()
                && final(self).values() == removal(old(self).values(), old(value).values()[0]).1 && r == (match removal(
                old(self).values(),
                old(value).values()[0],
            ).0 {
                Ok(st) => Ok((st, VariableState::NoChange)),
                Err(e) => Err(e),
            }),
            old(self).values().len() != 1 && old(value).values().len() != 1 ==> final(self).values() == old(self).values()
                && final(value).values() == old(value).values() && r == Ok::<
                (VariableState, VariableState),
                VariableError,
            >((VariableState::NoChange, VariableState::NoChange)),
    ;
}

/// A variable both ordered and prunable.
pub trait PrunableOrderedDomain: OrderedDomain + PrunableDomain {
    /// Restricts the domain to the given values, listed in increasing
    /// order. Fails when none of them is in the domain.
    fn in_sorted_values(&mut self, values: Vec<i32>) -> (r: Result<VariableState, VariableError>)
        requires
            old(self).var_wf(),
        ensures
            final(self).var_wf(),
            final(self).var_id() == old(self).var_id(),
            (r, final(self).values()) == restriction(old(self).values(), values@),
    ;
}

/// Read access to a variable whose values are handed out by reference.
pub trait Variable_<T> {
    /// The values of the domain.
    spec fn domain_values(&self) -> Seq<T>;

    /// The identifier of the variable.
    spec fn ident(&self) -> usize;

    /// The identifier of the variable.
    fn id(&self) -> (r: VariableId)
        ensures
            r == VariableId(self.ident()),
    ;

    /// A variable is affected if and only if its domain is a singleton.
    fn is_affected(&self) -> (r: bool)
        ensures
            r == (self.domain_values().len() == 1),
    ;

    /// A reference to the value of an affected variable, `None` otherwise.
    fn value(&self) -> (r: Option<&T>)
        ensures
            r == (if self.domain_values().len() == 1 {
                Some(&self.domain_values()[0])
            } else {
                None::<&T>
            }),
    ;
}

/// An array whose elements are variables with values of type `T`.
pub trait ArrayOfVariable<T> {
    /// The type of the variables.
    type Variable: Variable_<T>;
}

impl PrunableDomain for IntVarValues {
    fn in_values(&mut self, values: Vec<i32>) -> (r: Result<VariableState, VariableError>) {
        IntVarValues::in_values(self, values)
    }

    fn remove_value(&mut self, value: i32) -> (r: Result<VariableState, VariableError>) {
        IntVarValues::remove_value(self, value)
    }

    fn remove_if<F: Fn(&i32) -> bool>(&mut self, pred: F) -> (r: Result<VariableState, VariableError>) {
        IntVarValues::remove_if(self, pred)
    }

    fn retains_if<F: Fn(&i32) -> bool>(&mut self, pred: F) -> (r: Result<VariableState, VariableError>) {
        IntVarValues::retains_if(self, pred)
    }
}

impl EqualityDomains for IntVarValues {
    fn equal(&mut self, value: &mut IntVarValues) -> (r: Result<(VariableState, VariableState), VariableError>) {
        IntVarValues::equal(self, value)
    }

    fn not_equal(&mut self, value: &mut IntVarValues) -> (r: Result<(VariableState, VariableState), VariableError>) {
        IntVarValues::not_equal(self, value)
    }
}

impl PrunableOrderedDomain for IntVarValues {
    fn in_sorted_values(&mut self, values: Vec<i32>) -> (r: Result<VariableState, VariableError>) {
        IntVarValues::in_sorted_values(self, values)
    }
}

impl Variable_<i32> for IntVarValues {
    open spec fn domain_values(&self) -> Seq<i32> {
        self@
    }

    open spec fn ident(&self) -> usize {
        self.spec_id()
    }

    fn id(&self) -> (r: VariableId) {
        IntVarValues::id(self)
    }

    fn is_affected(&self) -> (r: bool) {
        IntVarValues::is_affected(self)
    }

    fn value(&self) -> (r: Option<&i32>) {
        let values = IntVarValues::iter(self);
        if values.len() == 1 {
            Some(&values[0])
        } else {
            None
        }
    }
}

impl ArrayOfVariable<i32> for ArrayOfVars {
    type Variable = IntVarValues;
}

} // verus!
