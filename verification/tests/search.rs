use std::sync::atomic::{AtomicBool, Ordering};
use std::sync::Arc;
use crusp::branchers::{
    BranchersHandler, DefaultBrancher, DomainOrderValueSelector, MaxValueSelector, MinValueSelector,
    SequentialVariableSelector, ValuesSelection,
};
use crusp::constraints::all_different::AllDifferent;
use crusp::constraints::comparisons::{Comparison, ComparisonKind};
use crusp::constraints::handlers::{ConstraintBox, DefaultConstraintsHandlerBuilder};
use crusp::search::{Solver, SolverPathRecomputing};
use crusp::spaces::Space;
use crusp::variables::handler_traits::SpecificArraysHandler;
use crusp::variables::handlers::{VarView, VariableHandlerBuilder};
use crusp::variables::int_var::IntVarValuesBuilder;
use crusp::variables::ArrayOfVarsBuilder;

fn var(b: &mut VariableHandlerBuilder, min: i32, max: i32) -> VarView {
    b.add(IntVarValuesBuilder::new(min, max).unwrap())
}

/// `a in 3..=10`, `b in 2..=6`, `c in 1..=9` with `a < b < c`, branching on
/// `a`, `b`, `c` in turn with the given values order.
fn chain_model(values: ValuesSelection) -> (Space, VarView, VarView, VarView) {
    let mut vb = VariableHandlerBuilder::new();
    let a = var(&mut vb, 3, 10);
    let b = var(&mut vb, 2, 6);
    let c = var(&mut vb, 1, 9);
    let mut cb = DefaultConstraintsHandlerBuilder::new();
    cb.add(ConstraintBox::Comparison(Comparison::new(ComparisonKind::LessThan, a, b)));
    cb.add(ConstraintBox::Comparison(Comparison::new(ComparisonKind::LessThan, b, c)));
    let mut vars = vb.finalize();
    let constraints = cb.finalize(&mut vars).unwrap();
    let mut bh = BranchersHandler::new();
    let selector = SequentialVariableSelector::new(vec![a, b, c]).unwrap();
    bh.add_specific_brancher(DefaultBrancher::new(selector, values).unwrap());
    (Space::new(vars, constraints, bh), a, b, c)
}

fn value_of(s: &Space, v: &VarView) -> Option<i32> {
    s.get_variable(v).value()
}

#[test]
fn solver_finds_the_smallest_chain() {
    let (space, a, b, c) = chain_model(ValuesSelection::Min(MinValueSelector::new()));
    let mut solver = Solver::new(space);
    assert!(solver.solve());
    let s = solver.solution().unwrap();
    assert_eq!(value_of(&s, &a), Some(3));
    assert_eq!(value_of(&s, &b), Some(4));
    assert_eq!(value_of(&s, &c), Some(5));
    assert!(solver.solution().is_none());
}

#[test]
fn solver_with_largest_values_first() {
    let (space, a, b, c) = chain_model(ValuesSelection::Max(MaxValueSelector::new()));
    let mut solver = Solver::new(space);
    assert!(solver.solve());
    let s = solver.solution().unwrap();
    assert_eq!(value_of(&s, &a), Some(5));
    assert_eq!(value_of(&s, &b), Some(6));
    assert_eq!(value_of(&s, &c), Some(9));
}

#[test]
fn path_recomputing_finds_the_smallest_chain() {
    let (space, a, b, c) = chain_model(ValuesSelection::DomainOrder(DomainOrderValueSelector::new()));
    let mut solver = SolverPathRecomputing::new(space);
    assert!(solver.solve());
    let s = solver.solution().unwrap();
    assert_eq!(value_of(&s, &a), Some(3));
    assert_eq!(value_of(&s, &b), Some(4));
    assert_eq!(value_of(&s, &c), Some(5));
}

#[test]
fn stopped_search_does_not_start() {
    let (space, _a, _b, _c) = chain_model(ValuesSelection::Min(MinValueSelector::new()));
    let stop = Arc::new(AtomicBool::new(true));
    let mut solver = SolverPathRecomputing::new_stop(space, stop.clone());
    assert!(!solver.solve());
    assert!(solver.solution().is_none());
    assert!(stop.load(Ordering::Relaxed));
}

#[test]
fn a_found_solution_sets_the_shared_stop_flag() {
    let (space, _a, _b, _c) = chain_model(ValuesSelection::Min(MinValueSelector::new()));
    let stop = Arc::new(AtomicBool::new(false));
    let mut solver = SolverPathRecomputing::new_stop(space, stop.clone());
    assert!(solver.solve());
    assert!(stop.load(Ordering::Relaxed));
}

/// `x in {1, 2}`, `y, z in {1, 3}`, all different, branching on `x`, `y`,
/// `z`: the choice `x = 1` fails at once, `x = 2` leads to a solution.
fn all_different_model() -> (Space, VarView, VarView, VarView) {
    let mut vb = VariableHandlerBuilder::new();
    let arr = vb.add_array(ArrayOfVarsBuilder::new(3, IntVarValuesBuilder::new(1, 3).unwrap()).unwrap());
    let mut vars = vb.finalize();
    SpecificArraysHandler::get_mut(&mut vars, &arr, 0).weak_upperbound(2).unwrap();
    SpecificArraysHandler::get_mut(&mut vars, &arr, 1).remove_value(2).unwrap();
    SpecificArraysHandler::get_mut(&mut vars, &arr, 2).remove_value(2).unwrap();
    let mut cb = DefaultConstraintsHandlerBuilder::new();
    cb.add(ConstraintBox::AllDifferent(AllDifferent::new(arr)));
    let constraints = cb.finalize(&mut vars).unwrap();
    let (x, y, z) = (arr.get(0), arr.get(1), arr.get(2));
    let mut bh = BranchersHandler::new();
    let selector = SequentialVariableSelector::new(vec![x, y, z]).unwrap();
    bh.add_specific_brancher(DefaultBrancher::new(selector, ValuesSelection::Min(MinValueSelector::new())).unwrap());
    (Space::new(vars, constraints, bh), x, y, z)
}

#[test]
fn path_recomputing_backtracks_to_the_next_choice() {
    let (space, x, y, z) = all_different_model();
    let mut solver = SolverPathRecomputing::new(space);
    assert!(solver.solve());
    let s = solver.solution().unwrap();
    assert_eq!(value_of(&s, &x), Some(2));
    assert_eq!(value_of(&s, &y), Some(1));
    assert_eq!(value_of(&s, &z), Some(3));
}

#[test]
fn solver_gives_up_a_node_after_a_failed_choice() {
    let (space, _x, _y, _z) = all_different_model();
    let mut solver = Solver::new(space);
    assert!(!solver.solve());
    assert!(solver.solution().is_none());
}

#[test]
fn unsatisfiable_model_has_no_solution() {
    let mut vb = VariableHandlerBuilder::new();
    let arr = vb.add_array(ArrayOfVarsBuilder::new(3, IntVarValuesBuilder::new(1, 2).unwrap()).unwrap());
    let mut vars = vb.finalize();
    let mut cb = DefaultConstraintsHandlerBuilder::new();
    cb.add(ConstraintBox::AllDifferent(AllDifferent::new(arr)));
    let constraints = cb.finalize(&mut vars).unwrap();
    let mut bh = BranchersHandler::new();
    let selector = SequentialVariableSelector::new(vec![arr.get(0), arr.get(1), arr.get(2)]).unwrap();
    bh.add_specific_brancher(DefaultBrancher::new(selector, ValuesSelection::Min(MinValueSelector::new())).unwrap());
    let space = Space::new(vars, constraints, bh);
    let copy = space.duplicate();
    assert!(!Solver::new(space).solve());
    assert!(!SolverPathRecomputing::new(copy).solve());
}
