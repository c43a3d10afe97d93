use vstd::prelude::*;

use super::handlers::{
    index_of, sorted_builder, ArrayOfRefsView, ArrayOfVarsView, VarView, VariableHandler,
    VariableHandlerBuilder,
};
use super::int_var::{IntVarValues, IntVarValuesBuilder};
use super::sorted::sorted;
use super::ArrayOfVarsBuilder;

verus! {

/// A holder of the variables of a model. Access to the variables goes
/// through the `Specific*` traits.
pub trait VariablesHandler {
}

/// Collects the variables of a model, then builds its handler.
pub trait VariablesHandlerBuilder<VarHandler: VariablesHandler>: Sized {
    /// The builder is consistent.
    spec fn builder_wf(&self) -> bool;

    /// `handler` holds what the builder collected.
    spec fn builds(&self, handler: VarHandler) -> bool;

    /// A builder with nothing collected.
    fn new_builder() -> (r: Self)
        ensures
            r.builder_wf(),
    ;

    /// The handler of what was collected.
    fn finalize(self) -> (r: VarHandler)
        requires
            self.builder_wf(),
        ensures
            self.builds(r),
    ;
}

/// Access, through views of type `View`, to the variables of a handler.
pub trait SpecificVariablesHandler<View>: VariablesHandler {
    /// The type of the variables.
    type Variable;

    /// The handler is consistent.
    spec fn handler_wf(&self) -> bool;

    /// All variables of the handler, by position.
    spec fn variables(&self) -> Seq<Self::Variable>;

    /// `view` designates a variable of the handler.
    spec fn designates(&self, view: View) -> bool;

    /// The position of the variable that `view` designates.
    spec fn position_of(&self, view: View) -> int;

    /// A mutable reference to the variable that `view` designates; the views
    /// keep designating what they did.
    fn get_mut(&mut self, view: &View) -> (r: &mut Self::Variable)
        requires
            old(self).handler_wf(),
            old(self).designates(*view),
        ensures
            0 <= old(self).position_of(*view) < old(self).variables().len(),
            *r == old(self).variables()[old(self).position_of(*view)],
            final(self).variables() == old(self).variables().update(
                old(self).position_of(*view),
                *final(r),
            ),
            forall|v: View|
                #[trigger] final(self).designates(v) == old(self).designates(v) && final(self).position_of(v) == old(self).position_of(v),
    ;

    /// The variable that `view` designates.
    fn get(&self, view: &View) -> (r: &Self::Variable)
        requires
            self.handler_wf(),
            self.designates(*view),
        ensures
            0 <= self.position_of(*view) < self.variables().len(),
            *r == self.variables()[self.position_of(*view)],
    ;

    /// The position, unique in the handler, of the variable that `view`
    /// designates.
    fn get_unique_id(&self, view: &View) -> (r: usize)
        requires
            self.handler_wf(),
            self.designates(*view),
        ensures
            r == self.position_of(*view),
    ;
}

/// Adds variables described by `Param` to a builder, and returns their view.
pub trait SpecificVariablesHandlerBuilder<View, VarHandler, Param>: VariablesHandlerBuilder<VarHandler> where
    VarHandler: SpecificVariablesHandler<View>,
 {
    /// `param` can be added.
    spec fn accepts(&self, param: Param) -> bool;

    /// `self` is `before` with `param` added, designated by `view`.
    spec fn added(&self, before: Self, param: Param, view: View) -> bool;

    /// Adds `views` and returns the view on what was added.
    fn add(&mut self, views: Param) -> (r: View)
        requires
            old(self).builder_wf(),
            old(self).accepts(views),
        ensures
            final(self).builder_wf(),
            final(self).added(*old(self), views, r),
    ;
}

/// Access, through views of type `View`, to the arrays of a handler: the
/// variables of an array are held by the handler, and an array is the list of
/// their positions.
pub trait SpecificArraysHandler<View>: VariablesHandler {
    /// The type of the variables.
    type Variable;

    /// The handler is consistent.
    spec fn handler_wf(&self) -> bool;

    /// All variables of the handler, by position.
    spec fn variables(&self) -> Seq<Self::Variable>;

    /// `view` designates an array of the handler.
    spec fn designates(&self, view: View) -> bool;

    /// The positions of the elements of the array that `view` designates.
    spec fn positions(&self, view: View) -> Seq<int>;

    /// The number of elements of the array.
    fn array_len(&self, view: &View) -> (r: usize)
        requires
            self.handler_wf(),
            self.designates(*view),
        ensures
            r == self.positions(*view).len(),
    ;

    /// A mutable reference to the `position`-th element of the array; the
    /// views keep designating what they did.
    fn get_mut(&mut self, view: &View, position: usize) -> (r: &mut Self::Variable)
        requires
            old(self).handler_wf(),
            old(self).designates(*view),
            position < old(self).positions(*view).len(),
        ensures
            0 <= old(self).positions(*view)[position as int] < old(self).variables().len(),
            *r == old(self).variables()[old(self).positions(*view)[position as int]],
            final(self).variables() == old(self).variables().update(
                old(self).positions(*view)[position as int],
                *final(r),
            ),
            forall|v: View|
                #[trigger] final(self).designates(v) == old(self).designates(v) && final(self).positions(v) == old(self).positions(v),
    ;

    /// The `position`-th element of the array.
    fn get(&self, view: &View, position: usize) -> (r: &Self::Variable)
        requires
            self.handler_wf(),
            self.designates(*view),
            position < self.positions(*view).len(),
        ensures
            0 <= self.positions(*view)[position as int] < self.variables().len(),
            *r == self.variables()[self.positions(*view)[position as int]],
    ;

    /// The position in the handler of the `position`-th element.
    fn get_unique_id(&self, view: &View, position: usize) -> (r: usize)
        requires
            self.handler_wf(),
            self.designates(*view),
            position < self.positions(*view).len(),
        ensures
            r == self.positions(*view)[position as int],
    ;

    /// The positions in the handler of all elements, in order.
    fn get_unique_ids(&self, view: &View) -> (r: Vec<usize>)
        requires
            self.handler_wf(),
            self.designates(*view),
        ensures
            r@.len() == self.positions(*view).len(),
            forall|i: int| 0 <= i < r@.len() ==> r@[i] == #[trigger] self.positions(*view)[i],
    ;
}

/// Adds arrays described by `Param` to a builder, and returns their view.
pub trait SpecificArraysHandlerBuilder<View, VarHandler, Param>: VariablesHandlerBuilder<VarHandler> where
    VarHandler: SpecificArraysHandler<View>,
 {
    /// `param` can be added.
    spec fn accepts_array(&self, param: Param) -> bool;

    /// `self` is `before` with `param` added, designated by `view`.
    spec fn added_array(&self, before: Self, param: Param, view: View) -> bool;

    /// Adds `views` and returns the view on what was added.
    fn add_array(&mut self, views: Param) -> (r: View)
        requires
            old(self).builder_wf(),
            old(self).accepts_array(views),
        ensures
            final(self).builder_wf(),
            final(self).added_array(*old(self), views, r),
    ;
}

/// A mutable reference to the variable that `view` designates in `vars`.
pub fn get_mut_from_handler<'a, Handler, View>(vars: &'a mut Handler, view: &View) -> (r: &'a mut <Handler as SpecificVariablesHandler<View>>::Variable) where
    Handler: SpecificVariablesHandler<View>,

    requires
        old(vars).handler_wf(),
        old(vars).designates(*view),
    ensures
        0 <= old(vars).position_of(*view) < old(vars).variables().len(),
        *r == old(vars).variables()[old(vars).position_of(*view)],
        final(vars).variables() == old(vars).variables().update(
            old(vars).position_of(*view),
            *final(r),
        ),
        forall|v: View|
            #[trigger] final(vars).designates(v) == old(vars).designates(v) && final(vars).position_of(v)
                == old(vars).position_of(v),
{
    vars.get_mut(view)
}

/// The variable that `view` designates in `vars`.
pub fn get_from_handler<'a, Handler, View>(vars: &'a Handler, view: &View) -> (r: &'a <Handler as SpecificVariablesHandler<View>>::Variable) where
    Handler: SpecificVariablesHandler<View>,

    requires
        vars.handler_wf(),
        vars.designates(*view),
    ensures
        0 <= vars.position_of(*view) < vars.variables().len(),
        *r == vars.variables()[vars.position_of(*view)],
{
    vars.get(view)
}

impl VariablesHandler for VariableHandler {
}

impl VariablesHandlerBuilder<VariableHandler> for VariableHandlerBuilder {
    open spec fn builder_wf(&self) -> bool {
        self.wf()
    }

    open spec fn builds(&self, handler: VariableHandler) -> bool {
        &&& handler.wf()
        &&& handler.vars() == self.vars()
        &&& handler.singles() == self.singles()
        &&& handler.arrays() == self.arrays()
        &&& handler.refs() == self.refs()
    }

    fn new_builder() -> (r: VariableHandlerBuilder) {
        VariableHandlerBuilder::new()
    }

    fn finalize(self) -> (r: VariableHandler) {
        VariableHandlerBuilder::finalize(self)
    }
}

impl SpecificVariablesHandler<VarView> for VariableHandler {
    type Variable = IntVarValues;

    open spec fn handler_wf(&self) -> bool {
        self.wf()
    }

    open spec fn variables(&self) -> Seq<IntVarValues> {
        self.vars()
    }

    open spec fn designates(&self, view: VarView) -> bool {
        self.valid(view.place())
    }

    open spec fn position_of(&self, view: VarView) -> int {
        self.spec_index(view.place())
    }

    fn get_mut(&mut self, view: &VarView) -> (r: &mut IntVarValues) {
        let r = VariableHandler::get_mut(self, view);
        r
    }

    fn get(&self, view: &VarView) -> (r: &IntVarValues) {
        VariableHandler::get(self, view)
    }

    fn get_unique_id(&self, view: &VarView) -> (r: usize) {
        self.index(view.get_idx())
    }
}

impl SpecificVariablesHandlerBuilder<VarView, VariableHandler, IntVarValuesBuilder> for VariableHandlerBuilder {
    open spec fn accepts(&self, param: IntVarValuesBuilder) -> bool {
        sorted_builder(param)
    }

    open spec fn added(&self, before: VariableHandlerBuilder, param: IntVarValuesBuilder, view: VarView) -> bool {
        &&& view.place() == super::handlers::VarIndexType::FromVar(before.singles().len() as usize)
        &&& self.vars() == before.vars().push(self.vars().last())
        &&& self.vars().last()@ == param@
        &&& self.singles() == before.singles().push(before.vars().len() as usize)
        &&& self.arrays() == before.arrays()
        &&& self.refs() == before.refs()
    }

    fn add(&mut self, views: IntVarValuesBuilder) -> (r: VarView) {
        let r = VariableHandlerBuilder::add(self, views);
        proof {
            assert(self.vars() =~= old(self).vars().push(self.vars().last()));
        }
        r
    }
}

impl SpecificArraysHandler<ArrayOfVarsView> for VariableHandler {
    type Variable = IntVarValues;

    open spec fn handler_wf(&self) -> bool {
        self.wf()
    }

    open spec fn variables(&self) -> Seq<IntVarValues> {
        self.vars()
    }

    open spec fn designates(&self, view: ArrayOfVarsView) -> bool {
        view.spec_idx() < self.arrays().len()
    }

    open spec fn positions(&self, view: ArrayOfVarsView) -> Seq<int> {
        self.arrays()[view.spec_idx() as int].map_values(|p: usize| p as int)
    }

    fn array_len(&self, view: &ArrayOfVarsView) -> (r: usize) {
        VariableHandler::array_len(self, view.get_idx())
    }

    fn get_mut(&mut self, view: &ArrayOfVarsView, position: usize) -> (r: &mut IntVarValues) {
        let i = self.array_index(view.get_idx(), position);
        self.var_at_mut(i)
    }

    fn get(&self, view: &ArrayOfVarsView, position: usize) -> (r: &IntVarValues) {
        let i = self.array_index(view.get_idx(), position);
        self.var_at(i)
    }

    fn get_unique_id(&self, view: &ArrayOfVarsView, position: usize) -> (r: usize) {
        self.array_index(view.get_idx(), position)
    }

    fn get_unique_ids(&self, view: &ArrayOfVarsView) -> (r: Vec<usize>) {
        let x = view.get_idx();
        let n = VariableHandler::array_len(self, x);
        let mut r: Vec<usize> = Vec::new();
        let mut i: usize = 0;
        while i < n
            invariant
                self.wf(),
                x < self.arrays().len(),
                x == view.spec_idx(),
                n == self.arrays()[x as int].len(),
                i <= n,
                r@.len() == i,
                forall|k: int| 0 <= k < i ==> r@[k] == #[trigger] self.positions(*view)[k],
            decreases n - i,
        {
            r.push(self.array_index(x, i));
            i = i + 1;
        }
        r
    }
}

impl SpecificArraysHandler<ArrayOfRefsView> for VariableHandler {
    type Variable = IntVarValues;

    open spec fn handler_wf(&self) -> bool {
        self.wf()
    }

    open spec fn variables(&self) -> Seq<IntVarValues> {
        self.vars()
    }

    open spec fn designates(&self, view: ArrayOfRefsView) -> bool {
        view.spec_idx() < self.refs().len()
    }

    open spec fn positions(&self, view: ArrayOfRefsView) -> Seq<int> {
        self.refs()[view.spec_idx() as int].map_values(
            |p: super::handlers::VarIndexType| index_of(self.singles(), self.arrays(), p),
        )
    }

    fn array_len(&self, view: &ArrayOfRefsView) -> (r: usize) {
        self.refs_len(view.get_idx())
    }

    fn get_mut(&mut self, view: &ArrayOfRefsView, position: usize) -> (r: &mut IntVarValues) {
        let place = self.ref_place(view.get_idx(), position);
        let i = self.index(&place);
        self.var_at_mut(i)
    }

    fn get(&self, view: &ArrayOfRefsView, position: usize) -> (r: &IntVarValues) {
        let place = self.ref_place(view.get_idx(), position);
        let i = self.index(&place);
        self.var_at(i)
    }

    fn get_unique_id(&self, view: &ArrayOfRefsView, position: usize) -> (r: usize) {
        let place = self.ref_place(view.get_idx(), position);
        self.index(&place)
    }

    fn get_unique_ids(&self, view: &ArrayOfRefsView) -> (r: Vec<usize>) {
        let x = view.get_idx();
        let n = self.refs_len(x);
        let mut r: Vec<usize> = Vec::new();
        let mut i: usize = 0;
        while i < n
            invariant
                self.wf(),
                x < self.refs().len(),
                x == view.spec_idx(),
                n == self.refs()[x as int].len(),
                i <= n,
                r@.len() == i,
                forall|k: int| 0 <= k < i ==> r@[k] == #[trigger] self.positions(*view)[k],
            decreases n - i,
        {
            let place = self.ref_place(x, i);
            r.push(self.index(&place));
            i = i + 1;
        }
        r
    }
}

impl SpecificArraysHandlerBuilder<ArrayOfVarsView, VariableHandler, ArrayOfVarsBuilder> for VariableHandlerBuilder {
    open spec fn accepts_array(&self, param: ArrayOfVarsBuilder) -> bool {
        forall|i: int| 0 <= i < param@.len() ==> sorted(#[trigger] param@[i])
    }

    open spec fn added_array(&self, before: VariableHandlerBuilder, param: ArrayOfVarsBuilder, view: ArrayOfVarsView) -> bool {
        &&& view.spec_idx() == before.arrays().len()
        &&& self.vars().len() == before.vars().len() + param@.len()
        &&& self.vars().subrange(0, before.vars().len() as int) == before.vars()
        &&& forall|i: int|
            0 <= i < param@.len() ==> (#[trigger] self.vars()[before.vars().len() + i])@ == param@[i]
        &&& self.singles() == before.singles()
        &&& self.arrays().len() == before.arrays().len() + 1
        &&& self.arrays().subrange(0, before.arrays().len() as int) == before.arrays()
        &&& self.arrays().last().len() == param@.len()
        &&& forall|j: int|
            0 <= j < param@.len() ==> #[trigger] self.arrays().last()[j] == before.vars().len() + j
        &&& self.refs() == before.refs()
    }

    fn add_array(&mut self, views: ArrayOfVarsBuilder) -> (r: ArrayOfVarsView) {
        VariableHandlerBuilder::add_array(self, views)
    }
}

impl SpecificArraysHandlerBuilder<ArrayOfRefsView, VariableHandler, Vec<VarView>> for VariableHandlerBuilder {
    open spec fn accepts_array(&self, param: Vec<VarView>) -> bool {
        forall|i: int| 0 <= i < param@.len() ==> self.places_valid(#[trigger] param@[i])
    }

    open spec fn added_array(&self, before: VariableHandlerBuilder, param: Vec<VarView>, view: ArrayOfRefsView) -> bool {
        &&& view.spec_idx() == before.refs().len()
        &&& self.vars() == before.vars()
        &&& self.singles() == before.singles()
        &&& self.arrays() == before.arrays()
        &&& self.refs().len() == before.refs().len() + 1
        &&& self.refs().subrange(0, before.refs().len() as int) == before.refs()
        &&& self.refs().last().len() == param@.len()
        &&& forall|j: int| 0 <= j < param@.len() ==> #[trigger] self.refs().last()[j] == param@[j].place()
    }

    fn add_array(&mut self, views: Vec<VarView>) -> (r: ArrayOfRefsView) {
        VariableHandlerBuilder::add_refs(self, views)
    }
}

/// A view on something that holds variables: a variable, an array of
/// variables or an array of references.
pub trait VariableContainerView: Clone {
}

impl VariableContainerView for VarView {
}

impl VariableContainerView for ArrayOfVarsView {
}

impl VariableContainerView for ArrayOfRefsView {
}

/// Access, through views, to the containers of type `Var` that a handler
/// holds.
pub trait VariableContainerHandler<Var> {
    /// The type of the views.
    type View: VariableContainerView;

    /// The handler is consistent.
    spec fn container_wf(&self) -> bool;

    /// All containers of the handler, by position.
    spec fn containers(&self) -> Seq<Var>;

    /// `view` designates a container of the handler.
    spec fn holds(&self, view: Self::View) -> bool;

    /// The position of the container that `view` designates.
    spec fn place_of(&self, view: Self::View) -> int;

    /// A mutable reference to the container that `view` designates; the views
    /// keep designating what they did.
    fn get_mut(&mut self, view: &Self::View) -> (r: &mut Var)
        requires
            old(self).container_wf(),
            old(self).holds(*view),
        ensures
            0 <= old(self).place_of(*view) < old(self).containers().len(),
            *r == old(self).containers()[old(self).place_of(*view)],
            final(self).containers() == old(self).containers().update(
                old(self).place_of(*view),
                *final(r),
            ),
            forall|v: Self::View|
                #[trigger] final(self).holds(v) == old(self).holds(v) && final(self).place_of(v)
                    == old(self).place_of(v),
    ;

    /// The container that `view` designates.
    fn get(&self, view: &Self::View) -> (r: &Var)
        requires
            self.container_wf(),
            self.holds(*view),
        ensures
            0 <= self.place_of(*view) < self.containers().len(),
            *r == self.containers()[self.place_of(*view)],
    ;
}

/// Adds containers described by `Param` to a builder, and returns their view.
pub trait VariableContainerHandlerBuilder<Var, View, SpecificHandler, Param>: Sized where
    View: VariableContainerView,
    SpecificHandler: VariableContainerHandler<Var, View = View>,
 {
    /// `param` can be added.
    spec fn accepts_container(&self, param: Param) -> bool;

    /// `self` is `before` with `param` added, designated by `view`.
    spec fn added_container(&self, before: Self, param: Param, view: View) -> bool;

    /// Adds `views` and returns the view on what was added.
    fn add(&mut self, views: Param) -> (r: View)
        requires
            old(self).accepts_container(views),
        ensures
            final(self).added_container(*old(self), views, r),
    ;
}

impl VariableContainerHandler<IntVarValues> for VariableHandler {
    type View = VarView;

    open spec fn container_wf(&self) -> bool {
        self.wf()
    }

    open spec fn containers(&self) -> Seq<IntVarValues> {
        self.vars()
    }

    open spec fn holds(&self, view: VarView) -> bool {
        self.valid(view.place())
    }

    open spec fn place_of(&self, view: VarView) -> int {
        self.spec_index(view.place())
    }

    fn get_mut(&mut self, view: &VarView) -> (r: &mut IntVarValues) {
        VariableHandler::get_mut(self, view)
    }

    fn get(&self, view: &VarView) -> (r: &IntVarValues) {
        VariableHandler::get(self, view)
    }
}

impl VariableContainerHandlerBuilder<IntVarValues, VarView, VariableHandler, IntVarValuesBuilder> for VariableHandlerBuilder {
    open spec fn accepts_container(&self, param: IntVarValuesBuilder) -> bool {
        self.wf() && sorted_builder(param)
    }

    open spec fn added_container(&self, before: VariableHandlerBuilder, param: IntVarValuesBuilder, view: VarView) -> bool {
        &&& self.wf()
        &&& <VariableHandlerBuilder as SpecificVariablesHandlerBuilder<VarView, VariableHandler, IntVarValuesBuilder>>::added(self, before, param, view)
    }

    fn add(&mut self, views: IntVarValuesBuilder) -> (r: VarView) {
        <VariableHandlerBuilder as SpecificVariablesHandlerBuilder<VarView, VariableHandler, IntVarValuesBuilder>>::add(self, views)
    }
}

} // verus!
