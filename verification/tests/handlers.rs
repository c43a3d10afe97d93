use crusp::variables::handler_traits::{
    get_from_handler, get_mut_from_handler, SpecificArraysHandler, SpecificVariablesHandler,
    SpecificVariablesHandlerBuilder, VariableContainerHandler, VariablesHandlerBuilder,
};
use crusp::variables::handlers::{ArrayOfRefs, VarIndexType, VarView, VariableHandler, VariableHandlerBuilder};
use crusp::variables::int_var::{IntVarValues, IntVarValuesBuilder};
use crusp::variables::{ArrayOfVarsBuilder, VariableId, VariableState};

fn dom(v: &IntVarValues) -> Vec<i32> {
    v.iter().to_vec()
}

#[test]
fn handler_places_variables_in_order() {
    let mut b = VariableHandlerBuilder::new();
    let x = b.add(IntVarValuesBuilder::new(1, 3).unwrap());
    let arr = b.add_array(ArrayOfVarsBuilder::new(3, IntVarValuesBuilder::new(0, 2).unwrap()).unwrap());
    let y = b.add(IntVarValuesBuilder::new(5, 6).unwrap());
    let refs = b.add_refs(vec![y, arr.get(1)]);
    let h = b.finalize();
    assert_eq!(h.num_vars(), 5);
    assert_eq!(h.get(&x).id(), VariableId(0));
    assert_eq!(dom(h.get(&x)), vec![1, 2, 3]);
    assert_eq!(h.get(&y).id(), VariableId(4));
    assert_eq!(h.get(&arr.get(2)).id(), VariableId(3));
    assert_eq!(dom(h.get(&arr.get(2))), vec![0, 1, 2]);
    assert_eq!(SpecificArraysHandler::get_unique_ids(&h, &arr), vec![1, 2, 3]);
    assert_eq!(SpecificArraysHandler::get_unique_ids(&h, &refs), vec![4, 2]);
    assert_eq!(SpecificArraysHandler::array_len(&h, &refs), 2);
    assert_eq!(SpecificArraysHandler::get_unique_id(&h, &arr, 0), 1);
    assert_eq!(SpecificVariablesHandler::get_unique_id(&h, &y), 4);
}

#[test]
fn handler_gives_mutable_access() {
    let mut b = VariableHandlerBuilder::new();
    let x = b.add(IntVarValuesBuilder::new(1, 3).unwrap());
    let arr = b.add_array(ArrayOfVarsBuilder::new(2, IntVarValuesBuilder::new(0, 2).unwrap()).unwrap());
    let refs = b.add_refs(vec![arr.get(0), x]);
    let mut h = b.finalize();
    assert_eq!(get_mut_from_handler(&mut h, &x).set_value(2), Ok(VariableState::BoundsChange));
    assert_eq!(get_from_handler(&h, &x).value(), Some(2));
    assert_eq!(
        SpecificArraysHandler::get_mut(&mut h, &refs, 0).remove_value(0),
        Ok(VariableState::MinBoundChange)
    );
    assert_eq!(dom(SpecificArraysHandler::get(&h, &arr, 0)), vec![1, 2]);
    assert_eq!(dom(SpecificArraysHandler::get(&h, &refs, 1)), vec![2]);
    assert_eq!(
        VariableContainerHandler::get_mut(&mut h, &arr.get(1)).weak_upperbound(1),
        Ok(VariableState::MaxBoundChange)
    );
    assert_eq!(dom(VariableContainerHandler::get(&h, &arr.get(1))), vec![0, 1]);
    assert_eq!(dom(h.var_at(2)), vec![0, 1]);
}

#[test]
fn builder_traits_add_variables() {
    let mut b = <VariableHandlerBuilder as VariablesHandlerBuilder<VariableHandler>>::new_builder();
    let x = <VariableHandlerBuilder as SpecificVariablesHandlerBuilder<VarView, VariableHandler, IntVarValuesBuilder>>::add(
        &mut b,
        IntVarValuesBuilder::new(4, 6).unwrap(),
    );
    let h = <VariableHandlerBuilder as VariablesHandlerBuilder<VariableHandler>>::finalize(b);
    assert_eq!(dom(h.get(&x)), vec![4, 5, 6]);
    assert_eq!(*x.get_idx(), VarIndexType::FromVar(0));
}

#[test]
fn array_of_refs_reads_through_the_handler() {
    let mut b = VariableHandlerBuilder::new();
    let _x = b.add(IntVarValuesBuilder::new(1, 3).unwrap());
    let _arr = b.add_array(ArrayOfVarsBuilder::new(2, IntVarValuesBuilder::new(0, 2).unwrap()).unwrap());
    let mut h = b.finalize();
    let refs = ArrayOfRefs::new(vec![VarIndexType::FromArrayOfVars(0, 1), VarIndexType::FromVar(0)]).unwrap();
    assert_eq!(refs.len(), 2);
    assert_eq!(refs.get(&h, 0).unwrap().id(), VariableId(2));
    assert_eq!(refs.get(&h, 1).unwrap().id(), VariableId(0));
    assert!(refs.get(&h, 2).is_none());
    assert_eq!(refs.get_mut(&mut h, 1).unwrap().set_value(3), Ok(VariableState::MinBoundChange));
    assert_eq!(dom(refs.get(&h, 1).unwrap()), vec![3]);
    assert!(refs.get_mut(&mut h, 5).is_none());
}

#[test]
fn handler_take_and_put() {
    let mut b = VariableHandlerBuilder::new();
    let x = b.add(IntVarValuesBuilder::new(1, 3).unwrap());
    let mut h = b.finalize();
    let mut v = h.take(0);
    assert_eq!(h.get(&x).size(), 0);
    assert_eq!(v.set_value(1), Ok(VariableState::MaxBoundChange));
    h.put(0, v);
    assert_eq!(dom(h.get(&x)), vec![1]);
    let copy = h.duplicate();
    assert_eq!(dom(copy.get(&x)), vec![1]);
}
