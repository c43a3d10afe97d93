use crusp::variables::int_var::{IntVarValues, IntVarValuesBuilder};
use crusp::variables::{VariableError, VariableId, VariableState};

fn dom(v: &IntVarValues) -> Vec<i32> {
    v.iter().to_vec()
}

fn range(min: i32, max: i32) -> IntVarValues {
    IntVarValues::new(min, max).unwrap()
}

fn values(vs: Vec<i32>) -> IntVarValues {
    IntVarValues::new_from_values(vs).unwrap()
}

#[test]
fn new_holds_the_range() {
    let v = range(1, 4);
    assert_eq!(dom(&v), vec![1, 2, 3, 4]);
    assert_eq!(v.size(), 4);
    assert_eq!(v.min(), Some(1));
    assert_eq!(v.max(), Some(4));
    assert_eq!(v.unchecked_min(), 1);
    assert_eq!(v.unchecked_max(), 4);
    assert!(!v.is_affected());
    assert_eq!(v.value(), None);
    assert_eq!(v.id(), VariableId(0));
}

#[test]
fn new_refuses_an_empty_range() {
    assert!(IntVarValues::new(3, 2).is_none());
    assert!(IntVarValues::new_from_range(3, 2).is_none());
    assert_eq!(dom(&IntVarValues::new_from_range(-2, 0).unwrap()), vec![-2, -1, 0]);
}

#[test]
fn new_from_values_sorts_and_drops_repeats() {
    assert_eq!(dom(&values(vec![5, 1, 3, 1])), vec![1, 3, 5]);
    assert!(IntVarValues::new_from_values(vec![]).is_none());
}

#[test]
fn singleton_is_affected() {
    let v = range(7, 7);
    assert!(v.is_affected());
    assert_eq!(v.value(), Some(7));
}

#[test]
fn builder_gives_the_identifier() {
    let b = IntVarValuesBuilder::new(1, 3).unwrap();
    let c = b.duplicate();
    let v = b.finalize(7);
    assert_eq!(v.id(), VariableId(7));
    assert_eq!(dom(&v), vec![1, 2, 3]);
    assert_eq!(dom(&c.finalize(2)), vec![1, 2, 3]);
    assert!(IntVarValuesBuilder::new(2, 1).is_none());
}

#[test]
fn duplicate_keeps_domain_and_identifier() {
    let v = IntVarValuesBuilder::new(1, 3).unwrap().finalize(4);
    let w = v.duplicate();
    assert_eq!(dom(&w), vec![1, 2, 3]);
    assert_eq!(w.id(), VariableId(4));
}

#[test]
fn strict_upperbound_cases() {
    let mut v = range(1, 4);
    assert_eq!(v.strict_upperbound(5), Ok(VariableState::NoChange));
    assert_eq!(dom(&v), vec![1, 2, 3, 4]);
    assert_eq!(v.strict_upperbound(1), Err(VariableError::DomainWipeout));
    assert_eq!(dom(&v), vec![1, 2, 3, 4]);
    assert_eq!(v.strict_upperbound(3), Ok(VariableState::MaxBoundChange));
    assert_eq!(dom(&v), vec![1, 2]);
}

#[test]
fn weak_upperbound_cases() {
    let mut v = range(1, 4);
    assert_eq!(v.weak_upperbound(4), Ok(VariableState::NoChange));
    assert_eq!(v.weak_upperbound(0), Err(VariableError::DomainWipeout));
    assert_eq!(dom(&v), vec![1, 2, 3, 4]);
    assert_eq!(v.weak_upperbound(3), Ok(VariableState::MaxBoundChange));
    assert_eq!(dom(&v), vec![1, 2, 3]);
}

#[test]
fn strict_lowerbound_cases() {
    let mut v = range(1, 4);
    assert_eq!(v.strict_lowerbound(0), Ok(VariableState::NoChange));
    assert_eq!(v.strict_lowerbound(4), Err(VariableError::DomainWipeout));
    assert_eq!(dom(&v), vec![1, 2, 3, 4]);
    assert_eq!(v.strict_lowerbound(2), Ok(VariableState::MinBoundChange));
    assert_eq!(dom(&v), vec![3, 4]);
}

#[test]
fn weak_lowerbound_cases() {
    let mut v = range(1, 4);
    assert_eq!(v.weak_lowerbound(1), Ok(VariableState::NoChange));
    assert_eq!(v.weak_lowerbound(5), Err(VariableError::DomainWipeout));
    assert_eq!(dom(&v), vec![1, 2, 3, 4]);
    assert_eq!(v.weak_lowerbound(2), Ok(VariableState::MinBoundChange));
    assert_eq!(dom(&v), vec![2, 3, 4]);
}

#[test]
fn set_value_cases() {
    let mut v = range(1, 4);
    assert_eq!(v.set_value(3), Ok(VariableState::BoundsChange));
    assert_eq!(dom(&v), vec![3]);
    assert_eq!(v.set_value(3), Ok(VariableState::NoChange));
    let mut w = range(1, 4);
    assert_eq!(w.set_value(7), Err(VariableError::DomainWipeout));
    assert_eq!(dom(&w), vec![1, 2, 3, 4]);
    let mut y = range(1, 4);
    assert_eq!(y.set_value(1), Ok(VariableState::MaxBoundChange));
    let mut z = range(1, 4);
    assert_eq!(z.set_value(4), Ok(VariableState::MinBoundChange));
    let mut x = values(vec![1, 3, 5]);
    assert_eq!(x.set_value(2), Err(VariableError::DomainWipeout));
    assert_eq!(dom(&x), Vec::<i32>::new());
}

#[test]
fn remove_value_cases() {
    let mut v = range(1, 4);
    assert_eq!(v.remove_value(2), Ok(VariableState::ValuesChange));
    assert_eq!(dom(&v), vec![1, 3, 4]);
    assert_eq!(v.remove_value(1), Ok(VariableState::MinBoundChange));
    assert_eq!(dom(&v), vec![3, 4]);
    assert_eq!(v.remove_value(9), Ok(VariableState::NoChange));
    assert_eq!(v.remove_value(4), Ok(VariableState::MaxBoundChange));
    assert_eq!(v.remove_value(3), Err(VariableError::DomainWipeout));
    assert_eq!(dom(&v), Vec::<i32>::new());
}

#[test]
fn equal_keeps_the_common_values() {
    let mut a = range(1, 4);
    let mut b = range(3, 6);
    assert_eq!(a.equal(&mut b), Ok((VariableState::MinBoundChange, VariableState::MaxBoundChange)));
    assert_eq!(dom(&a), vec![3, 4]);
    assert_eq!(dom(&b), vec![3, 4]);
    let mut c = range(1, 3);
    let mut d = values(vec![1, 3]);
    assert_eq!(c.equal(&mut d), Ok((VariableState::ValuesChange, VariableState::NoChange)));
    assert_eq!(dom(&c), vec![1, 3]);
}

#[test]
fn equal_of_disjoint_domains_fails() {
    let mut a = range(1, 2);
    let mut b = range(3, 4);
    assert_eq!(a.equal(&mut b), Err(VariableError::DomainWipeout));
    assert_eq!(a.size(), 0);
    assert_eq!(b.size(), 0);
}

#[test]
fn in_values_restricts() {
    let mut v = range(1, 5);
    assert_eq!(v.in_values(vec![4, 2, 9]), Ok(VariableState::BoundsChange));
    assert_eq!(dom(&v), vec![2, 4]);
    let mut w = range(1, 5);
    assert_eq!(w.in_sorted_values(vec![1, 3, 5]), Ok(VariableState::ValuesChange));
    assert_eq!(dom(&w), vec![1, 3, 5]);
    assert_eq!(w.in_values(vec![7]), Err(VariableError::DomainWipeout));
    assert_eq!(w.size(), 0);
}

#[test]
fn remove_if_and_retains_if() {
    let mut v = range(1, 5);
    assert_eq!(v.remove_if(|x: &i32| *x % 2 == 0), Ok(VariableState::ValuesChange));
    assert_eq!(dom(&v), vec![1, 3, 5]);
    assert_eq!(v.retains_if(|x: &i32| *x > 2), Ok(VariableState::MinBoundChange));
    assert_eq!(dom(&v), vec![3, 5]);
    assert_eq!(v.remove_if(|_x: &i32| true), Err(VariableError::DomainWipeout));
    assert_eq!(v.size(), 0);
}

#[test]
fn not_equal_cases() {
    let mut a = range(2, 2);
    let mut b = range(1, 3);
    assert_eq!(a.not_equal(&mut b), Ok((VariableState::NoChange, VariableState::ValuesChange)));
    assert_eq!(dom(&b), vec![1, 3]);
    let mut c = range(1, 3);
    let mut d = range(1, 1);
    assert_eq!(c.not_equal(&mut d), Ok((VariableState::MinBoundChange, VariableState::NoChange)));
    assert_eq!(dom(&c), vec![2, 3]);
    let mut e = range(1, 3);
    let mut f = range(1, 3);
    assert_eq!(e.not_equal(&mut f), Ok((VariableState::NoChange, VariableState::NoChange)));
    let mut g = range(2, 2);
    let mut h = range(2, 2);
    assert_eq!(g.not_equal(&mut h), Err(VariableError::DomainWipeout));
}

#[test]
fn less_than_cases() {
    let mut a = range(1, 5);
    let mut b = range(0, 3);
    assert_eq!(a.less_than(&mut b), Ok((VariableState::MaxBoundChange, VariableState::MinBoundChange)));
    assert_eq!(dom(&a), vec![1, 2]);
    assert_eq!(dom(&b), vec![2, 3]);
    let mut c = range(4, 5);
    let mut d = range(1, 4);
    assert_eq!(c.less_than(&mut d), Err(VariableError::DomainWipeout));
    assert_eq!(dom(&c), vec![4, 5]);
    assert_eq!(dom(&d), vec![1, 2, 3, 4]);
}

#[test]
fn less_or_equal_than_cases() {
    let mut a = range(1, 5);
    let mut b = range(0, 3);
    assert_eq!(a.less_or_equal_than(&mut b), Ok((VariableState::MaxBoundChange, VariableState::MinBoundChange)));
    assert_eq!(dom(&a), vec![1, 2, 3]);
    assert_eq!(dom(&b), vec![1, 2, 3]);
    let mut c = range(5, 6);
    let mut d = range(1, 4);
    assert_eq!(c.less_or_equal_than(&mut d), Err(VariableError::DomainWipeout));
}

#[test]
fn greater_than_cases() {
    let mut a = range(1, 5);
    let mut b = range(2, 6);
    assert_eq!(a.greater_than(&mut b), Ok((VariableState::MinBoundChange, VariableState::MaxBoundChange)));
    assert_eq!(dom(&a), vec![3, 4, 5]);
    assert_eq!(dom(&b), vec![2, 3, 4]);
    let mut c = range(1, 2);
    let mut d = range(2, 6);
    assert_eq!(c.greater_than(&mut d), Err(VariableError::DomainWipeout));
}

#[test]
fn greater_or_equal_than_cases() {
    let mut a = range(1, 5);
    let mut b = range(2, 6);
    assert_eq!(a.greater_or_equal_than(&mut b), Ok((VariableState::MinBoundChange, VariableState::MaxBoundChange)));
    assert_eq!(dom(&a), vec![2, 3, 4, 5]);
    assert_eq!(dom(&b), vec![2, 3, 4, 5]);
}

#[test]
fn equal_bounds_reaches_the_fix_point() {
    let mut a = range(1, 5);
    let mut b = range(3, 8);
    assert_eq!(a.equal_bounds(&mut b), Ok((VariableState::NoChange, VariableState::NoChange)));
    assert_eq!(dom(&a), vec![3, 4, 5]);
    assert_eq!(dom(&b), vec![3, 4, 5]);
    let mut c = range(1, 2);
    let mut d = range(5, 6);
    assert_eq!(c.equal_bounds(&mut d), Err(VariableError::DomainWipeout));
}
