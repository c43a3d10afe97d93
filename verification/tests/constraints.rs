use crusp::constraints::all_different::AllDifferent;
use crusp::constraints::binary_ops::AddConstant;
use crusp::constraints::comparisons::{Comparison, ComparisonKind};
use crusp::constraints::equalities::{Equal, EqualBounds};
use crusp::constraints::handlers::{ConstraintBox, DefaultConstraintsHandlerBuilder};
use crusp::constraints::increasing::Increasing;
use crusp::constraints::regular::{RegularPropagator, RegularState};
use crusp::constraints::sum::SumConstraint;
use crusp::constraints::PropagationState;
use crusp::variables::handler_traits::SpecificArraysHandler;
use crusp::variables::handlers::{VarView, VariableHandler, VariableHandlerBuilder};
use crusp::variables::int_var::{IntVarValues, IntVarValuesBuilder};
use crusp::variables::{ArrayOfVars, ArrayOfVarsBuilder, VariableError};

fn dom(v: &IntVarValues) -> Vec<i32> {
    v.iter().to_vec()
}

fn var(b: &mut VariableHandlerBuilder, min: i32, max: i32) -> VarView {
    b.add(IntVarValuesBuilder::new(min, max).unwrap())
}

/// Initialises the constraints on the variables, then propagates them.
fn post(vars: &mut VariableHandler, cs: Vec<ConstraintBox>) -> Result<PropagationState, VariableError> {
    let mut cb = DefaultConstraintsHandlerBuilder::new();
    for c in cs {
        cb.add(c);
    }
    let mut handler = cb.finalize(vars)?;
    handler.propagate_all(vars)
}

#[test]
fn less_than_prunes_bounds() {
    let mut b = VariableHandlerBuilder::new();
    let x = var(&mut b, 1, 5);
    let y = var(&mut b, 1, 3);
    let mut vars = b.finalize();
    let r = post(&mut vars, vec![ConstraintBox::Comparison(Comparison::new(ComparisonKind::LessThan, x, y))]);
    assert_eq!(r, Ok(PropagationState::FixPoint));
    assert_eq!(dom(vars.get(&x)), vec![1, 2]);
    assert_eq!(dom(vars.get(&y)), vec![2, 3]);
}

#[test]
fn greater_or_equal_prunes_bounds() {
    let mut b = VariableHandlerBuilder::new();
    let x = var(&mut b, 1, 5);
    let y = var(&mut b, 3, 9);
    let mut vars = b.finalize();
    let c = Comparison::new(ComparisonKind::GreaterOrEqualThan, x, y);
    assert_eq!(post(&mut vars, vec![ConstraintBox::Comparison(c)]), Ok(PropagationState::FixPoint));
    assert_eq!(dom(vars.get(&x)), vec![3, 4, 5]);
    assert_eq!(dom(vars.get(&y)), vec![3, 4, 5]);
}

#[test]
fn impossible_comparison_fails() {
    let mut b = VariableHandlerBuilder::new();
    let x = var(&mut b, 5, 6);
    let y = var(&mut b, 1, 2);
    let mut vars = b.finalize();
    let r = post(&mut vars, vec![ConstraintBox::Comparison(Comparison::new(ComparisonKind::LessThan, x, y))]);
    assert_eq!(r, Err(VariableError::DomainWipeout));
}

#[test]
fn chained_comparisons_reach_a_fix_point() {
    let mut b = VariableHandlerBuilder::new();
    let a = var(&mut b, 3, 10);
    let bb = var(&mut b, 2, 6);
    let c = var(&mut b, 1, 9);
    let mut vars = b.finalize();
    let r = post(
        &mut vars,
        vec![
            ConstraintBox::Comparison(Comparison::new(ComparisonKind::LessThan, a, bb)),
            ConstraintBox::Comparison(Comparison::new(ComparisonKind::LessThan, bb, c)),
        ],
    );
    assert_eq!(r, Ok(PropagationState::FixPoint));
    assert_eq!(dom(vars.get(&a)), vec![3, 4, 5]);
    assert_eq!(dom(vars.get(&bb)), vec![4, 5, 6]);
    assert_eq!(dom(vars.get(&c)), vec![5, 6, 7, 8, 9]);
}

#[test]
fn equal_keeps_common_values() {
    let mut b = VariableHandlerBuilder::new();
    let x = var(&mut b, 1, 5);
    let y = var(&mut b, 3, 8);
    let mut vars = b.finalize();
    assert_eq!(post(&mut vars, vec![ConstraintBox::Equal(Equal::new(x, y))]), Ok(PropagationState::FixPoint));
    assert_eq!(dom(vars.get(&x)), vec![3, 4, 5]);
    assert_eq!(dom(vars.get(&y)), vec![3, 4, 5]);
}

#[test]
fn equal_constraint_of_disjoint_domains_fails() {
    let mut b = VariableHandlerBuilder::new();
    let x = var(&mut b, 1, 2);
    let y = var(&mut b, 3, 4);
    let mut vars = b.finalize();
    assert_eq!(post(&mut vars, vec![ConstraintBox::Equal(Equal::new(x, y))]), Err(VariableError::DomainWipeout));
}

#[test]
fn equal_bounds_aligns_bounds() {
    let mut b = VariableHandlerBuilder::new();
    let x = var(&mut b, 1, 5);
    let y = var(&mut b, 3, 8);
    let mut vars = b.finalize();
    assert_eq!(
        post(&mut vars, vec![ConstraintBox::EqualBounds(EqualBounds::new(x, y))]),
        Ok(PropagationState::FixPoint)
    );
    assert_eq!(dom(vars.get(&x)), vec![3, 4, 5]);
    assert_eq!(dom(vars.get(&y)), vec![3, 4, 5]);
}

#[test]
fn add_constant_shifts_the_values() {
    let mut b = VariableHandlerBuilder::new();
    let res = var(&mut b, 0, 10);
    let x = var(&mut b, 1, 3);
    let mut vars = b.finalize();
    assert_eq!(
        post(&mut vars, vec![ConstraintBox::AddConstant(AddConstant::new(res, x, 2))]),
        Ok(PropagationState::FixPoint)
    );
    assert_eq!(dom(vars.get(&res)), vec![3, 4, 5]);
    assert_eq!(dom(vars.get(&x)), vec![1, 2, 3]);
}

#[test]
fn increasing_orders_the_array() {
    let mut b = VariableHandlerBuilder::new();
    let arr = b.add_array(ArrayOfVarsBuilder::new(3, IntVarValuesBuilder::new(1, 3).unwrap()).unwrap());
    let mut vars = b.finalize();
    assert_eq!(
        post(&mut vars, vec![ConstraintBox::Increasing(Increasing::new(arr))]),
        Ok(PropagationState::FixPoint)
    );
    assert_eq!(dom(vars.get(&arr.get(0))), vec![1]);
    assert_eq!(dom(vars.get(&arr.get(1))), vec![2]);
    assert_eq!(dom(vars.get(&arr.get(2))), vec![3]);
}

#[test]
fn increasing_too_long_for_the_domains_fails() {
    let mut b = VariableHandlerBuilder::new();
    let arr = b.add_array(ArrayOfVarsBuilder::new(3, IntVarValuesBuilder::new(1, 2).unwrap()).unwrap());
    let mut vars = b.finalize();
    assert_eq!(
        post(&mut vars, vec![ConstraintBox::Increasing(Increasing::new(arr))]),
        Err(VariableError::DomainWipeout)
    );
}

#[test]
fn sum_caps_the_terms() {
    let mut b = VariableHandlerBuilder::new();
    let res = var(&mut b, 0, 2);
    let arr = b.add_array(ArrayOfVarsBuilder::new(2, IntVarValuesBuilder::new(0, 3).unwrap()).unwrap());
    let mut vars = b.finalize();
    let c = SumConstraint::new(res, arr, vec![1, 1]);
    assert_eq!(post(&mut vars, vec![ConstraintBox::Sum(c)]), Ok(PropagationState::FixPoint));
    assert_eq!(dom(vars.get(&res)), vec![0, 1, 2]);
    assert_eq!(dom(vars.get(&arr.get(0))), vec![0, 1, 2]);
    assert_eq!(dom(vars.get(&arr.get(1))), vec![0, 1, 2]);
}

#[test]
fn sum_bounds_the_result() {
    let mut b = VariableHandlerBuilder::new();
    let res = var(&mut b, 0, 20);
    let arr = b.add_array(ArrayOfVarsBuilder::new(2, IntVarValuesBuilder::new(1, 3).unwrap()).unwrap());
    let mut vars = b.finalize();
    let c = SumConstraint::new(res, arr, vec![2, 1]);
    assert_eq!(post(&mut vars, vec![ConstraintBox::Sum(c)]), Ok(PropagationState::FixPoint));
    assert_eq!(dom(vars.get(&res)), vec![3, 4, 5, 6, 7, 8, 9]);
}

#[test]
fn sum_out_of_reach_fails() {
    let mut b = VariableHandlerBuilder::new();
    let res = var(&mut b, 10, 12);
    let arr = b.add_array(ArrayOfVarsBuilder::new(2, IntVarValuesBuilder::new(0, 3).unwrap()).unwrap());
    let mut vars = b.finalize();
    let c = SumConstraint::new(res, arr, vec![1, 1]);
    assert_eq!(post(&mut vars, vec![ConstraintBox::Sum(c)]), Err(VariableError::DomainWipeout));
}

#[test]
fn all_different_removes_assigned_values() {
    let mut b = VariableHandlerBuilder::new();
    let arr = b.add_array(ArrayOfVarsBuilder::new(3, IntVarValuesBuilder::new(1, 3).unwrap()).unwrap());
    let mut vars = b.finalize();
    SpecificArraysHandler::get_mut(&mut vars, &arr, 0).set_value(1).unwrap();
    SpecificArraysHandler::get_mut(&mut vars, &arr, 1).weak_upperbound(2).unwrap();
    assert_eq!(
        post(&mut vars, vec![ConstraintBox::AllDifferent(AllDifferent::new(arr))]),
        Ok(PropagationState::FixPoint)
    );
    assert_eq!(dom(vars.get(&arr.get(0))), vec![1]);
    assert_eq!(dom(vars.get(&arr.get(1))), vec![2]);
    assert_eq!(dom(vars.get(&arr.get(2))), vec![3]);
}

#[test]
fn all_different_with_a_repeated_value_fails() {
    let mut b = VariableHandlerBuilder::new();
    let arr = b.add_array(ArrayOfVarsBuilder::new(2, IntVarValuesBuilder::new(1, 3).unwrap()).unwrap());
    let mut vars = b.finalize();
    SpecificArraysHandler::get_mut(&mut vars, &arr, 0).set_value(2).unwrap();
    SpecificArraysHandler::get_mut(&mut vars, &arr, 1).set_value(2).unwrap();
    assert_eq!(
        post(&mut vars, vec![ConstraintBox::AllDifferent(AllDifferent::new(arr))]),
        Err(VariableError::DomainWipeout)
    );
}

#[test]
fn regular_propagator_keeps_the_domains() {
    let mut p = RegularPropagator::new();
    assert_eq!(p.retrieve_state(), None);
    p.prepare(RegularState {});
    let mut arr = ArrayOfVars::new(2, IntVarValues::new(0, 1).unwrap()).unwrap();
    let mut state = None;
    assert_eq!(p.propagate(&mut arr, &mut state), Ok(PropagationState::FixPoint));
    assert_eq!(state, Some(RegularState {}));
    assert_eq!(dom(arr.get(1).unwrap()), vec![0, 1]);
    assert_eq!(p.retrieve_state(), None);
}

#[test]
fn propagation_keeps_every_solution() {
    let mut b = VariableHandlerBuilder::new();
    let x = var(&mut b, 3, 10);
    let y = var(&mut b, 2, 6);
    let z = var(&mut b, 1, 9);
    let res = var(&mut b, 0, 30);
    let arr = b.add_array(ArrayOfVarsBuilder::new(2, IntVarValuesBuilder::new(0, 4).unwrap()).unwrap());
    let mut vars = b.finalize();
    let r = post(
        &mut vars,
        vec![
            ConstraintBox::Comparison(Comparison::new(ComparisonKind::LessThan, x, y)),
            ConstraintBox::Comparison(Comparison::new(ComparisonKind::LessThan, y, z)),
            ConstraintBox::Sum(SumConstraint::new(res, arr, vec![3, 2])),
            ConstraintBox::AllDifferent(AllDifferent::new(arr)),
        ],
    );
    assert_eq!(r, Ok(PropagationState::FixPoint));
    // x < y < z: (3, 4, 5), (4, 5, 9) and (5, 6, 7) are solutions
    for (vx, vy, vz) in [(3, 4, 5), (4, 5, 9), (5, 6, 7)] {
        assert!(vars.get(&x).iter().contains(&vx));
        assert!(vars.get(&y).iter().contains(&vy));
        assert!(vars.get(&z).iter().contains(&vz));
    }
    // res = 3 * a0 + 2 * a1 with a0 != a1: (0, 1, 2), (4, 3, 18), (3, 4, 17)
    for (a0, a1, vr) in [(0, 1, 2), (4, 3, 18), (3, 4, 17)] {
        assert!(vars.get(&arr.get(0)).iter().contains(&a0));
        assert!(vars.get(&arr.get(1)).iter().contains(&a1));
        assert!(vars.get(&res).iter().contains(&vr));
    }
    assert_eq!(vars.get(&res).max(), Some(20));
}
