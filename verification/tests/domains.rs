use crusp::variables::arrays::{Array, ArrayBuilder, VariableBuilder};
use crusp::variables::bool_var::BoolVar;
use crusp::variables::domains::{
    my_lower, AssignableDomain, BoundedDomain, EqualityDomains, FiniteDomain, FromRangeDomain,
    FromValuesDomain, IterableDomain, OrderedDomain, PrunableDomain, PrunableOrderedDomain, Variable,
    Variable_,
};
use crusp::variables::events::{ConstraintVariableEvents, NoOpVariableEvents, VariableEvents};
use crusp::variables::int_var::{IntVarValues, IntVarValuesBuilder};
use crusp::variables::int_var_bound::IntVarBound;
use crusp::variables::set_int_var::SetIntVar;
use crusp::variables::{
    ArrayOfVars, ArrayOfVarsBuilder, ConstraintId, VariableError, VariableId, VariableState,
};

fn dom(v: &IntVarValues) -> Vec<i32> {
    v.iter().to_vec()
}

fn set_dom(v: &SetIntVar) -> Vec<i32> {
    IterableDomain::iter(v).to_vec()
}

#[test]
fn bool_var_starts_with_both_values() {
    let b = BoolVar::new().unwrap();
    assert_eq!(FiniteDomain::size(&b), 2);
    assert!(!Variable::is_affected(&b));
    assert_eq!(Variable::value(&b), None);
    assert_eq!(Variable::id(&b), VariableId(0));
}

#[test]
fn bool_var_assignment() {
    let mut b = BoolVar::new().unwrap();
    assert_eq!(b.set_value(true), Ok(VariableState::MinBoundChange));
    assert!(Variable::is_affected(&b));
    assert_eq!(Variable::value(&b), Some(true));
    assert_eq!(b.set_value(true), Ok(VariableState::NoChange));
    assert_eq!(b.set_value(false), Err(VariableError::DomainWipeout));
    assert_eq!(FiniteDomain::size(&b), 0);
}

#[test]
fn set_int_var_new_holds_the_range() {
    let v = SetIntVar::new(2, 5).unwrap();
    assert_eq!(set_dom(&v), vec![2, 3, 4, 5]);
    assert_eq!(FiniteDomain::size(&v), 4);
    assert_eq!(OrderedDomain::min(&v), Some(2));
    assert_eq!(OrderedDomain::max(&v), Some(5));
    assert!(SetIntVar::new(5, 2).is_none());
    assert!(<SetIntVar as FromRangeDomain>::new_from_range(5, 2).is_none());
    let w = <SetIntVar as FromValuesDomain>::new_from_values(vec![4, 2, 4]).unwrap();
    assert_eq!(set_dom(&w), vec![2, 4]);
}

#[test]
fn set_int_var_bounds_and_pruning() {
    let mut v = SetIntVar::new(1, 6).unwrap();
    assert_eq!(OrderedDomain::strict_upperbound(&mut v, 6), Ok(VariableState::MaxBoundChange));
    assert_eq!(OrderedDomain::weak_lowerbound(&mut v, 2), Ok(VariableState::MinBoundChange));
    assert_eq!(set_dom(&v), vec![2, 3, 4, 5]);
    assert_eq!(PrunableDomain::remove_value(&mut v, 3), Ok(VariableState::ValuesChange));
    assert_eq!(PrunableOrderedDomain::in_sorted_values(&mut v, vec![2, 5]), Ok(VariableState::ValuesChange));
    assert_eq!(set_dom(&v), vec![2, 5]);
    assert_eq!(AssignableDomain::set_value(&mut v, 5), Ok(VariableState::MinBoundChange));
    assert_eq!(Variable::value(&v), Some(5));
    assert_eq!(OrderedDomain::strict_lowerbound(&mut v, 5), Err(VariableError::DomainWipeout));
}

#[test]
fn set_int_var_equality() {
    let mut a = SetIntVar::new(1, 4).unwrap();
    let mut b = SetIntVar::new(3, 9).unwrap();
    assert_eq!(
        EqualityDomains::equal(&mut a, &mut b),
        Ok((VariableState::MinBoundChange, VariableState::MaxBoundChange))
    );
    assert_eq!(set_dom(&a), vec![3, 4]);
    let mut c = SetIntVar::new(4, 4).unwrap();
    assert_eq!(
        EqualityDomains::not_equal(&mut c, &mut a),
        Ok((VariableState::NoChange, VariableState::MaxBoundChange))
    );
    assert_eq!(set_dom(&a), vec![3]);
}

#[test]
fn set_int_var_precedences() {
    let mut a = SetIntVar::new(1, 5).unwrap();
    let mut b = SetIntVar::new(0, 3).unwrap();
    assert_eq!(
        BoundedDomain::less_than(&mut a, &mut b),
        Ok((VariableState::MaxBoundChange, VariableState::MinBoundChange))
    );
    assert_eq!(set_dom(&a), vec![1, 2]);
    assert_eq!(set_dom(&b), vec![2, 3]);
    let mut c = SetIntVar::new(1, 5).unwrap();
    let mut d = SetIntVar::new(3, 8).unwrap();
    assert_eq!(
        BoundedDomain::equal_bounds(&mut c, &mut d),
        Ok((VariableState::NoChange, VariableState::NoChange))
    );
    assert_eq!(set_dom(&c), vec![3, 4, 5]);
    assert_eq!(set_dom(&d), vec![3, 4, 5]);
}

#[test]
fn trait_precedences_on_int_vars() {
    let mut a = IntVarValues::new(1, 5).unwrap();
    let mut b = IntVarValues::new(2, 6).unwrap();
    assert_eq!(
        BoundedDomain::greater_or_equal_than(&mut a, &mut b),
        Ok((VariableState::MinBoundChange, VariableState::MaxBoundChange))
    );
    assert_eq!(dom(&a), vec![2, 3, 4, 5]);
    assert_eq!(dom(&b), vec![2, 3, 4, 5]);
    let mut c = IntVarValues::new(4, 5).unwrap();
    let mut d = IntVarValues::new(1, 4).unwrap();
    assert_eq!(BoundedDomain::less_than(&mut c, &mut d), Err(VariableError::DomainWipeout));
    assert_eq!(dom(&c), vec![4, 5]);
    assert_eq!(dom(&d), vec![1, 2, 3, 4]);
}

#[test]
fn my_lower_chains_the_precedences() {
    let mut a = IntVarValues::new(1, 5).unwrap();
    let mut b = IntVarValues::new(1, 5).unwrap();
    let mut c = IntVarValues::new(1, 5).unwrap();
    my_lower(&mut a, &mut b, &mut c);
    assert_eq!(dom(&a), vec![1, 2, 3, 4]);
    assert_eq!(dom(&b), vec![2, 3, 4]);
    assert_eq!(dom(&c), vec![3, 4, 5]);
}

#[test]
fn my_lower_leaves_failed_steps_alone() {
    let mut a = IntVarValues::new(5, 6).unwrap();
    let mut b = IntVarValues::new(1, 2).unwrap();
    let mut c = IntVarValues::new(1, 2).unwrap();
    my_lower(&mut a, &mut b, &mut c);
    assert_eq!(dom(&a), vec![5, 6]);
    assert_eq!(dom(&b), vec![1]);
    assert_eq!(dom(&c), vec![2]);
}

#[test]
fn variable_ref_access() {
    let v = IntVarValues::new(3, 3).unwrap();
    assert_eq!(Variable_::value(&v), Some(&3));
    let w = IntVarValues::new(3, 4).unwrap();
    assert_eq!(Variable_::value(&w), None);
    assert_eq!(Variable::iter_ids(&w), vec![VariableId(0)]);
}

#[test]
fn array_of_vars_access() {
    let a = IntVarValuesBuilder::new(1, 3).unwrap().finalize(4);
    let b = IntVarValuesBuilder::new(1, 3).unwrap().finalize(9);
    let mut arr = ArrayOfVars::new_from_iter(vec![a, b]).unwrap();
    assert_eq!(Array::len(&arr), 2);
    assert_eq!(Array::iter_ids(&arr), vec![VariableId(4), VariableId(9)]);
    assert!(Array::get(&arr, 2).is_none());
    assert!(Array::get_mut(&mut arr, 2).is_none());
    let x = Array::get_mut(&mut arr, 1).unwrap();
    assert_eq!(x.set_value(2), Ok(VariableState::BoundsChange));
    assert_eq!(dom(Array::get_unchecked(&arr, 1)), vec![2]);
    assert_eq!(Array::get_unchecked_mut(&mut arr, 0).remove_value(1), Ok(VariableState::MinBoundChange));
    assert_eq!(dom(&Array::iter(&arr)[0]), vec![2, 3]);
    assert_eq!(Array::iter_mut(&mut arr)[0].set_value(3), Ok(VariableState::MinBoundChange));
    assert_eq!(dom(Array::get(&arr, 0).unwrap()), vec![3]);
}

#[test]
fn arrays_of_no_variable_are_refused() {
    assert!(ArrayOfVars::new(0, IntVarValues::new(0, 1).unwrap()).is_none());
    assert!(ArrayOfVarsBuilder::new(0, IntVarValuesBuilder::new(0, 1).unwrap()).is_none());
    assert_eq!(Array::len(&ArrayOfVars::new(2, IntVarValues::new(0, 1).unwrap()).unwrap()), 2);
}

#[test]
fn array_builder_hands_out_its_builders() {
    let arr = ArrayOfVarsBuilder::new(3, IntVarValuesBuilder::new(0, 1).unwrap()).unwrap();
    let builders = ArrayBuilder::into_iter(arr);
    assert_eq!(builders.len(), 3);
    let v = VariableBuilder::finalize(builders.into_iter().next().unwrap(), 6);
    assert_eq!(v.id(), VariableId(6));
    assert_eq!(dom(&v), vec![0, 1]);
}

#[test]
fn events_are_handed_back() {
    let mut e = NoOpVariableEvents::new();
    assert_eq!(
        VariableEvents::push(&mut e, VariableId(1), Ok(VariableState::ValuesChange)),
        Ok(VariableState::ValuesChange)
    );
    assert_eq!(
        VariableEvents::push_change(&mut e, VariableId(1), VariableState::NoChange),
        Ok(VariableState::NoChange)
    );
    assert_eq!(
        VariableEvents::push_error(&mut e, VariableId(1), VariableError::DomainWipeout),
        Err(VariableError::DomainWipeout)
    );
    assert_eq!(
        ConstraintVariableEvents::push(&mut e, ConstraintId(0), VariableId(2), Err(VariableError::DomainWipeout)),
        Err(VariableError::DomainWipeout)
    );
    assert_eq!(
        ConstraintVariableEvents::push_change(&mut e, ConstraintId(0), VariableId(2), VariableState::BoundsChange),
        Ok(VariableState::BoundsChange)
    );
}

#[test]
fn bool_var_state_is_retrieved() {
    let mut b = BoolVar::new().unwrap();
    assert_eq!(b.set_value(false), Ok(VariableState::MaxBoundChange));
    assert_eq!(*b.get_state(), VariableState::NoChange);
    assert_eq!(b.retrieve_state(), VariableState::NoChange);
    assert_eq!(Variable::value(&b), Some(false));
}

#[test]
fn interval_var_bounds() {
    let mut v = IntVarBound::new(1, 6);
    assert_eq!(FiniteDomain::size(&v), 6);
    assert_eq!(OrderedDomain::strict_upperbound(&mut v, 5), Ok(VariableState::MaxBoundChange));
    assert_eq!(OrderedDomain::max(&v), Some(4));
    assert_eq!(OrderedDomain::strict_lowerbound(&mut v, 1), Ok(VariableState::MinBoundChange));
    assert_eq!(OrderedDomain::min(&v), Some(2));
    assert_eq!(OrderedDomain::weak_lowerbound(&mut v, 2), Ok(VariableState::NoChange));
    assert_eq!(OrderedDomain::weak_upperbound(&mut v, 1), Err(VariableError::DomainWipeout));
    assert_eq!(FiniteDomain::size(&v), 3);
    assert_eq!(OrderedDomain::strict_lowerbound(&mut v, 4), Err(VariableError::DomainWipeout));
    assert_eq!(OrderedDomain::strict_upperbound(&mut v, 9), Ok(VariableState::NoChange));
    assert_eq!(OrderedDomain::weak_upperbound(&mut v, 2), Ok(VariableState::MaxBoundChange));
    assert!(Variable::is_affected(&v));
    assert_eq!(Variable::value(&v), Some(2));
    assert_eq!(Variable::id(&v), VariableId(0));
}

#[test]
fn empty_interval_var() {
    let v = IntVarBound::new(3, 2);
    assert_eq!(FiniteDomain::size(&v), 0);
    assert_eq!(OrderedDomain::min(&v), None);
    assert_eq!(OrderedDomain::max(&v), None);
    assert_eq!(Variable::value(&v), None);
}

#[test]
fn interval_vars_precedence() {
    let mut a = IntVarBound::new(1, 5);
    let mut b = IntVarBound::new(0, 3);
    assert_eq!(
        BoundedDomain::less_than(&mut a, &mut b),
        Ok((VariableState::MaxBoundChange, VariableState::MinBoundChange))
    );
    assert_eq!((OrderedDomain::min(&a), OrderedDomain::max(&a)), (Some(1), Some(2)));
    assert_eq!((OrderedDomain::min(&b), OrderedDomain::max(&b)), (Some(2), Some(3)));
    let mut c = IntVarBound::new(1, 5);
    let mut d = IntVarBound::new(3, 8);
    assert_eq!(
        BoundedDomain::equal_bounds(&mut c, &mut d),
        Ok((VariableState::NoChange, VariableState::NoChange))
    );
    assert_eq!((OrderedDomain::min(&d), OrderedDomain::max(&d)), (Some(3), Some(5)));
}
