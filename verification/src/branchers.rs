use vstd::prelude::*;

use crate::constraints::comparisons::doms_of;
use crate::constraints::handlers::within;
use crate::variables::handlers::{VarView, VariableHandler};
use crate::variables::int_var::assignment;
use crate::variables::{VariableError, VariableState};

verus! {

/// The domain of the variable that `view` designates in `h`.
pub open spec fn dom_at(h: VariableHandler, view: VarView) -> Seq<i32> {
    h.vars()[h.spec_index(view.place())]@
}

/// A choice of the search: assign `value` to the variable `view`.
#[derive(Clone, Copy, Debug)]
pub struct Branch {
    pub view: VarView,
    pub value: i32,
}

/// `b` is a choice that can be made on `h`: its variable exists, is not
/// assigned yet, and has `b.value` in its domain.
pub open spec fn open_choice(h: VariableHandler, b: Branch) -> bool {
    &&& h.valid(b.view.place())
    &&& dom_at(h, b.view).contains(b.value)
    &&& dom_at(h, b.view).len() >= 2
}

impl Branch {
    /// Assigns the value of the choice to its variable in `h`.
    pub fn apply(&self, h: &mut VariableHandler) -> (r: Result<VariableState, VariableError>)
        requires
            old(h).wf(),
            old(h).valid(self.view.place()),
            dom_at(*old(h), self.view).len() > 0,
        ensures
            final(h).wf(),
            final(h).same_tables(old(h)),
            (r, dom_at(*final(h), self.view)) == assignment(dom_at(*old(h), self.view), self.value),
            doms_of(final(h).vars()) == doms_of(old(h).vars()).update(
                old(h).spec_index(self.view.place()),
                dom_at(*final(h), self.view),
            ),
    {
        let ghost h0 = *h;
        let i = h.index(self.view.get_idx());
        let mut var = h.take(i);
        let r = var.set_value(self.value);
        h.put(i, var);
        proof {
            assert(doms_of(h.vars()) =~= doms_of(h0.vars()).update(i as int, h.vars()[i as int]@));
        }
        r
    }
}

/// One choice per value of `dom`, for the variable `view`: in increasing
/// order, or in decreasing order when `descending`.
pub open spec fn value_branches(view: VarView, dom: Seq<i32>, descending: bool) -> Seq<Branch> {
    Seq::new(
        dom.len(),
        |k: int|
            Branch {
                view: view,
                value: if descending {
                    dom[dom.len() - 1 - k]
                } else {
                    dom[k]
                },
            },
    )
}

/// The position in `views`, from `start` on, of the first variable of `h`
/// that is not assigned.
pub open spec fn first_free(h: VariableHandler, views: Seq<VarView>, start: int) -> Option<int>
    decreases views.len() - start,
{
    if start < 0 || start >= views.len() {
        None
    } else if dom_at(h, views[start]).len() != 1 {
        Some(start)
    } else {
        first_free(h, views, start + 1)
    }
}

pub proof fn lemma_first_free(h: VariableHandler, views: Seq<VarView>, start: int)
    requires
        0 <= start <= views.len(),
    ensures
        first_free(h, views, start) matches Some(i) ==> start <= i < views.len() && dom_at(
            h,
            views[i],
        ).len() != 1,
        first_free(h, views, start) is None ==> forall|i: int|
            start <= i < views.len() ==> #[trigger] dom_at(h, views[i]).len() == 1,
    decreases views.len() - start,
{
    if start < views.len() {
        lemma_first_free(h, views, start + 1);
    }
}

/// Chooses the variable to branch on.
pub trait VariableSelector {
    /// The variables it chooses from exist in `h`.
    spec fn valid_on(&self, h: VariableHandler) -> bool;

    /// Picks a variable that is not assigned yet; fails when all are.
    fn select(&mut self, handler: &VariableHandler) -> (r: Result<VarView, ()>)
        requires
            handler.wf(),
            old(self).valid_on(*handler),
        ensures
            final(self).valid_on(*handler),
            r matches Ok(v) ==> handler.valid(v.place()) && dom_at(*handler, v).len() != 1,
    ;
}

/// Chooses the values to try for a variable.
pub trait ValuesSelector {
    /// One choice per value of the domain of `view` in `handler`, in the
    /// order in which they are tried.
    fn select(&mut self, handler: &VariableHandler, view: VarView) -> (r: Result<Vec<Branch>, ()>)
        requires
            handler.wf(),
            handler.valid(view.place()),
        ensures
            r matches Ok(bs) ==> bs@.len() == dom_at(*handler, view).len() && forall|k: int|
                0 <= k < bs@.len() ==> (#[trigger] bs@[k]).view == view && dom_at(
                    *handler,
                    view,
                ).contains(bs@[k].value),
    ;
}

/// Chooses the variables in the order given, the first one not assigned.
#[derive(Clone, Debug)]
pub struct SequentialVariableSelector {
    variables: Vec<VarView>,
}

impl SequentialVariableSelector {
    /// A selector over `variables`, in that order.
    pub fn new(variables: Vec<VarView>) -> (r: Result<SequentialVariableSelector, ()>)
        ensures
            r matches Ok(s) && s.spec_views() == variables@,
    {
        Ok(SequentialVariableSelector { variables: variables })
    }

    pub closed spec fn spec_views(&self) -> Seq<VarView> {
        self.variables@
    }

    /// A copy of the selector.
    pub fn duplicate(&self) -> (r: SequentialVariableSelector)
        ensures
            r.spec_views() == self.spec_views(),
    {
        SequentialVariableSelector { variables: crate::constraints::copy_vec(&self.variables) }
    }
}

impl VariableSelector for SequentialVariableSelector {
    open spec fn valid_on(&self, h: VariableHandler) -> bool {
        forall|i: int| 0 <= i < self.spec_views().len() ==> h.valid(#[trigger] self.spec_views()[i].place())
    }

    fn select(&mut self, handler: &VariableHandler) -> (r: Result<VarView, ()>)
        ensures
            *final(self) == *old(self),
            r is Err <==> first_free(*handler, old(self).spec_views(), 0) is None,
            r matches Ok(v) ==> first_free(*handler, old(self).spec_views(), 0) matches Some(i) && v
                == old(self).spec_views()[i],
    {
        proof {
            lemma_first_free(*handler, self.spec_views(), 0);
        }
        let r = self.first_unassigned(handler);
        proof {
            if r is Ok {
                let i = first_free(*handler, self.spec_views(), 0)->0;
                assert(handler.valid(self.spec_views()[i].place()));
            }
        }
        r
    }
}

impl SequentialVariableSelector {
    /// The first variable, in the order given, that is not assigned.
    pub fn first_unassigned(&self, handler: &VariableHandler) -> (r: Result<VarView, ()>)
        requires
            handler.wf(),
            self.valid_on(*handler),
        ensures
            r is Err <==> first_free(*handler, self.spec_views(), 0) is None,
            r matches Ok(v) ==> first_free(*handler, self.spec_views(), 0) matches Some(i) && v
                == self.spec_views()[i],
    {
        let mut i: usize = 0;
        while i < self.variables.len()
            invariant
                handler.wf(),
                self.valid_on(*handler),
                i <= self.variables@.len(),
                first_free(*handler, self.variables@, 0) == first_free(*handler, self.variables@, i as int),
            decreases self.variables@.len() - i,
        {
            let view = self.variables[i];
            proof {
                assert(handler.valid(self.spec_views()[i as int].place()));
            }
            if !handler.get(&view).is_affected() {
                return Ok(view);
            }
            i = i + 1;
        }
        Err(())
    }
}

/// Tries the values in the order of the domain.
#[derive(Clone, Copy, Debug)]
pub struct DomainOrderValueSelector {}

/// Tries the values from the smallest up.
#[derive(Clone, Copy, Debug)]
pub struct MinValueSelector {}

/// Tries the values from the largest down.
#[derive(Clone, Copy, Debug)]
pub struct MaxValueSelector {}

impl DomainOrderValueSelector {
    pub fn new() -> DomainOrderValueSelector {
        DomainOrderValueSelector {  }
    }
}

impl MinValueSelector {
    pub fn new() -> MinValueSelector {
        MinValueSelector {  }
    }
}

impl MaxValueSelector {
    pub fn new() -> MaxValueSelector {
        MaxValueSelector {  }
    }
}

/// One choice per value of the domain of `view`, increasing or decreasing.
fn branches_for(handler: &VariableHandler, view: VarView, descending: bool) -> (r: Vec<Branch>)
    requires
        handler.wf(),
        handler.valid(view.place()),
    ensures
        r@ == value_branches(view, dom_at(*handler, view), descending),
{
    let var = handler.get(&view);
    let values = var.iter();
    let n = values.len();
    let mut r: Vec<Branch> = Vec::new();
    let mut k: usize = 0;
    while k < n
        invariant
            n == values@.len(),
            values@ == dom_at(*handler, view),
            k <= n,
            r@ =~= value_branches(view, values@, descending).subrange(0, k as int),
        decreases n - k,
    {
        let value = if descending {
            values[n - 1 - k]
        } else {
            values[k]
        };
        r.push(Branch { view: view, value: value });
        k = k + 1;
    }
    proof {
        assert(value_branches(view, values@, descending).subrange(0, n as int) =~= value_branches(
            view,
            values@,
            descending,
        ));
    }
    r
}

proof fn lemma_value_branches(view: VarView, dom: Seq<i32>, descending: bool)
    ensures
        forall|k: int|
            0 <= k < dom.len() ==> (#[trigger] value_branches(view, dom, descending)[k]).view == view
                && dom.contains(value_branches(view, dom, descending)[k].value),
{
    assert forall|k: int| 0 <= k < dom.len() implies (#[trigger] value_branches(view, dom, descending)[k]).view
        == view && dom.contains(value_branches(view, dom, descending)[k].value) by {
        if descending {
            assert(dom[dom.len() - 1 - k] == value_branches(view, dom, descending)[k].value);
        } else {
            assert(dom[k] == value_branches(view, dom, descending)[k].value);
        }
    }
}

impl ValuesSelector for DomainOrderValueSelector {
    fn select(&mut self, handler: &VariableHandler, view: VarView) -> (r: Result<Vec<Branch>, ()>)
        ensures
            r matches Ok(bs) && bs@ == value_branches(view, dom_at(*handler, view), false),
    {
        proof {
            lemma_value_branches(view, dom_at(*handler, view), false);
        }
        Ok(branches_for(handler, view, false))
    }
}

impl ValuesSelector for MinValueSelector {
    fn select(&mut self, handler: &VariableHandler, view: VarView) -> (r: Result<Vec<Branch>, ()>)
        ensures
            r matches Ok(bs) && bs@ == value_branches(view, dom_at(*handler, view), false),
    {
        proof {
            lemma_value_branches(view, dom_at(*handler, view), false);
        }
        Ok(branches_for(handler, view, false))
    }
}

impl ValuesSelector for MaxValueSelector {
    fn select(&mut self, handler: &VariableHandler, view: VarView) -> (r: Result<Vec<Branch>, ()>)
        ensures
            r matches Ok(bs) && bs@ == value_branches(view, dom_at(*handler, view), true),
    {
        proof {
            lemma_value_branches(view, dom_at(*handler, view), true);
        }
        Ok(branches_for(handler, view, true))
    }
}

/// The value selectors that the library provides.
#[derive(Clone, Copy, Debug)]
pub enum ValuesSelection {
    DomainOrder(DomainOrderValueSelector),
    Min(MinValueSelector),
    Max(MaxValueSelector),
}

impl ValuesSelection {
    /// Whether the values are tried from the largest down.
    pub open spec fn descending(&self) -> bool {
        self is Max
    }
}

impl ValuesSelector for ValuesSelection {
    fn select(&mut self, handler: &VariableHandler, view: VarView) -> (r: Result<Vec<Branch>, ()>)
        ensures
            r matches Ok(bs) && bs@ == value_branches(view, dom_at(*handler, view), old(self).descending()),
    {
        match self {
            ValuesSelection::DomainOrder(s) => s.select(handler, view),
            ValuesSelection::Min(s) => s.select(handler, view),
            ValuesSelection::Max(s) => s.select(handler, view),
        }
    }
}

/// Produces the choices of a node of the search.
pub trait Brancher: Sized {
    /// The variables it branches on exist in `h`.
    spec fn valid_on(&self, h: VariableHandler) -> bool;

    /// The choices to try on `variables`; fails when there is nothing left
    /// to branch on.
    fn branch(&mut self, variables: &VariableHandler) -> (r: Result<Vec<Branch>, ()>)
        requires
            variables.wf(),
            old(self).valid_on(*variables),
        ensures
            final(self).valid_on(*variables),
            r matches Ok(bs) ==> forall|k: int| 0 <= k < bs@.len() ==> open_choice(*variables, #[trigger] bs@[k]),
    ;

    /// A copy of the brancher.
    fn mutated_clone(&self) -> (r: Self)
        ensures
            forall|h: VariableHandler| self.valid_on(h) ==> #[trigger] r.valid_on(h),
    ;
}

/// A brancher that works on the variables of a given kind of view.
pub trait SpecificBrancher: Brancher {
    fn specific_branch(&mut self, variables: &VariableHandler) -> (r: Result<Vec<Branch>, ()>)
        requires
            variables.wf(),
            old(self).valid_on(*variables),
        ensures
            final(self).valid_on(*variables),
            r matches Ok(bs) ==> forall|k: int| 0 <= k < bs@.len() ==> open_choice(*variables, #[trigger] bs@[k]),
    ;
}

/// Branches on the first variable not assigned, in a given order, and tries
/// its values in the order of a value selector.
#[derive(Clone, Debug)]
pub struct DefaultBrancher {
    variables_selector: SequentialVariableSelector,
    values_selector: ValuesSelection,
}

/// What a brancher over `views`, trying values in decreasing order when
/// `descending`, produces on `h`: `None` when every variable is assigned.
pub open spec fn branch_outcome(h: VariableHandler, views: Seq<VarView>, descending: bool) -> Option<
    Seq<Branch>,
> {
    match first_free(h, views, 0) {
        None => None,
        Some(i) => Some(value_branches(views[i], dom_at(h, views[i]), descending)),
    }
}

impl DefaultBrancher {
    /// The brancher that picks variables with `variables_selector` and
    /// values with `values_selector`.
    pub fn new(variables_selector: SequentialVariableSelector, values_selector: ValuesSelection) -> (r:
        Option<DefaultBrancher>)
        ensures
            r matches Some(b) && b.spec_views() == variables_selector.spec_views()
                && b.spec_descending() == values_selector.descending(),
    {
        Some(DefaultBrancher { variables_selector: variables_selector, values_selector: values_selector })
    }

    pub closed spec fn spec_views(&self) -> Seq<VarView> {
        self.variables_selector.spec_views()
    }

    pub closed spec fn spec_descending(&self) -> bool {
        self.values_selector.descending()
    }
}

proof fn lemma_outcome_open(h: VariableHandler, views: Seq<VarView>, descending: bool)
    requires
        h.wf(),
        forall|i: int| 0 <= i < views.len() ==> h.valid(#[trigger] views[i].place()),
    ensures
        branch_outcome(h, views, descending) matches Some(bs) ==> forall|k: int|
            0 <= k < bs.len() ==> open_choice(h, #[trigger] bs[k]),
{
    lemma_first_free(h, views, 0);
    if let Some(i) = first_free(h, views, 0) {
        lemma_value_branches(views[i], dom_at(h, views[i]), descending);
        assert(h.valid(views[i].place()));
    }
}

impl DefaultBrancher {
    /// The choices on `variables`: one per value of the first variable not
    /// assigned; fails when every variable is assigned.
    pub fn choices(&self, variables: &VariableHandler) -> (r: Result<Vec<Branch>, ()>)
        requires
            variables.wf(),
            self.valid_on(*variables),
        ensures
            r is Err <==> branch_outcome(*variables, self.spec_views(), self.spec_descending()) is None,
            r matches Ok(bs) ==> branch_outcome(*variables, self.spec_views(), self.spec_descending())
                == Some(bs@),
    {
        proof {
            lemma_first_free(*variables, self.spec_views(), 0);
        }
        let view = self.variables_selector.first_unassigned(variables)?;
        let descending = match self.values_selector {
            ValuesSelection::Max(_) => true,
            _ => false,
        };
        proof {
            assert(variables.valid(view.place()));
        }
        Ok(branches_for(variables, view, descending))
    }
}

impl Brancher for DefaultBrancher {
    open spec fn valid_on(&self, h: VariableHandler) -> bool {
        forall|i: int| 0 <= i < self.spec_views().len() ==> h.valid(#[trigger] self.spec_views()[i].place())
    }

    fn branch(&mut self, variables: &VariableHandler) -> (r: Result<Vec<Branch>, ()>)
        ensures
            *final(self) == *old(self),
            r is Err <==> branch_outcome(*variables, old(self).spec_views(), old(self).spec_descending()) is None,
            r matches Ok(bs) ==> branch_outcome(*variables, old(self).spec_views(), old(self).spec_descending())
                == Some(bs@),
    {
        self.specific_branch(variables)
    }

    fn mutated_clone(&self) -> (r: Self) {
        DefaultBrancher {
            variables_selector: self.variables_selector.duplicate(),
            values_selector: self.values_selector,
        }
    }
}

impl SpecificBrancher for DefaultBrancher {
    fn specific_branch(&mut self, variables: &VariableHandler) -> (r: Result<Vec<Branch>, ()>)
        ensures
            *final(self) == *old(self),
            r is Err <==> branch_outcome(*variables, old(self).spec_views(), old(self).spec_descending()) is None,
            r matches Ok(bs) ==> branch_outcome(*variables, old(self).spec_views(), old(self).spec_descending())
                == Some(bs@),
    {
        let r = self.choices(variables);
        proof {
            lemma_outcome_open(*variables, self.spec_views(), self.spec_descending());
            if r is Ok {
                let bs = r->Ok_0;
                let out = branch_outcome(*variables, self.spec_views(), self.spec_descending());
                assert(out == Some(bs@));
                assert forall|k: int| 0 <= k < bs@.len() implies open_choice(*variables, #[trigger] bs@[k]) by {
                    assert(bs@[k] == out->0[k]);
                }
            }
        }
        r
    }
}

/// The branchers of a model, tried in order: the first that has something
/// to branch on gives the choices.
#[derive(Clone, Debug)]
pub struct BranchersHandler {
    branchers: Vec<DefaultBrancher>,
}

/// The choices that the first brancher of `bs` with something to branch on
/// produces on `h`, or `None` when every variable of every brancher is
/// assigned.
pub open spec fn handler_outcome(h: VariableHandler, bs: Seq<DefaultBrancher>) -> Option<Seq<Branch>>
    decreases bs.len(),
{
    if bs.len() == 0 {
        None
    } else {
        match handler_outcome(h, bs.drop_last()) {
            Some(r) => Some(r),
            None => branch_outcome(h, bs.last().spec_views(), bs.last().spec_descending()),
        }
    }
}

impl BranchersHandler {
    /// A handler with no brancher.
    pub fn new() -> (r: BranchersHandler)
        ensures
            r.spec_branchers().len() == 0,
    {
        BranchersHandler { branchers: Vec::new() }
    }

    pub closed spec fn spec_branchers(&self) -> Seq<DefaultBrancher> {
        self.branchers@
    }

    /// The variables of every brancher exist in `h`.
    pub open spec fn valid_on(&self, h: VariableHandler) -> bool {
        forall|i: int| 0 <= i < self.spec_branchers().len() ==> (#[trigger] self.spec_branchers()[i]).valid_on(h)
    }

    /// Every variable of every brancher is assigned in `h`.
    pub open spec fn all_assigned(&self, h: VariableHandler) -> bool {
        forall|i: int, j: int|
            0 <= i < self.spec_branchers().len() && 0 <= j < self.spec_branchers()[i].spec_views().len()
                ==> dom_at(h, #[trigger] self.spec_branchers()[i].spec_views()[j]).len() == 1
    }

    /// Adds a brancher, tried after the ones already there.
    pub fn add_specific_brancher(&mut self, branch: DefaultBrancher)
        ensures
            final(self).spec_branchers() == old(self).spec_branchers().push(branch),
    {
        self.branchers.push(branch);
    }

    /// The choices of the first brancher that has something to branch on;
    /// fails when none has.
    pub fn branch(&mut self, variables: &VariableHandler) -> (r: Result<Vec<Branch>, ()>)
        requires
            variables.wf(),
            old(self).valid_on(*variables),
        ensures
            *final(self) == *old(self),
            r is Err <==> handler_outcome(*variables, old(self).spec_branchers()) is None,
            r matches Ok(bs) ==> handler_outcome(*variables, old(self).spec_branchers()) == Some(bs@),
    {
        let ghost bs0 = self.branchers@;
        let mut i: usize = 0;
        while i < self.branchers.len()
            invariant
                variables.wf(),
                self.valid_on(*variables),
                self.branchers@ == bs0,
                i <= bs0.len(),
                handler_outcome(*variables, bs0.subrange(0, i as int)) is None,
            decreases bs0.len() - i,
        {
            let res = self.branchers[i].choices(variables);
            proof {
                assert(bs0.subrange(0, i + 1).drop_last() =~= bs0.subrange(0, i as int));
                assert(bs0.subrange(0, i + 1).last() == bs0[i as int]);
            }
            match res {
                Ok(r) => {
                    proof {
                        lemma_outcome_prefix(*variables, bs0, i + 1);
                    }
                    return Ok(r);
                },
                Err(()) => {},
            }
            i = i + 1;
        }
        proof {
            assert(bs0.subrange(0, i as int) =~= bs0);
        }
        Err(())
    }

    /// A copy of the handler.
    pub fn duplicate(&self) -> (r: BranchersHandler)
        ensures
            r.spec_branchers().len() == self.spec_branchers().len(),
            forall|i: int|
                0 <= i < self.spec_branchers().len() ==> (#[trigger] r.spec_branchers()[i]).spec_views()
                    == self.spec_branchers()[i].spec_views() && r.spec_branchers()[i].spec_descending()
                    == self.spec_branchers()[i].spec_descending(),
    {
        let mut branchers: Vec<DefaultBrancher> = Vec::new();
        let mut i: usize = 0;
        while i < self.branchers.len()
            invariant
                i <= self.branchers@.len(),
                branchers@.len() == i,
                forall|k: int|
                    0 <= k < i ==> (#[trigger] branchers@[k]).spec_views() == self.branchers@[k].spec_views()
                        && branchers@[k].spec_descending() == self.branchers@[k].spec_descending(),
            decreases self.branchers@.len() - i,
        {
            let b = &self.branchers[i];
            branchers.push(DefaultBrancher {
                variables_selector: b.variables_selector.duplicate(),
                values_selector: b.values_selector,
            });
            i = i + 1;
        }
        BranchersHandler { branchers: branchers }
    }
}

/// The choices that a handler of branchers gives can all be made.
pub proof fn lemma_outcome_open_all(h: VariableHandler, b: BranchersHandler)
    requires
        h.wf(),
        b.valid_on(h),
    ensures
        handler_outcome(h, b.spec_branchers()) matches Some(bs) ==> forall|k: int|
            0 <= k < bs.len() ==> open_choice(h, #[trigger] bs[k]),
{
    lemma_outcome_open_seq(h, b.spec_branchers());
}

proof fn lemma_outcome_open_seq(h: VariableHandler, bs: Seq<DefaultBrancher>)
    requires
        h.wf(),
        forall|i: int| 0 <= i < bs.len() ==> (#[trigger] bs[i]).valid_on(h),
    ensures
        handler_outcome(h, bs) matches Some(out) ==> forall|k: int|
            0 <= k < out.len() ==> open_choice(h, #[trigger] out[k]),
    decreases bs.len(),
{
    if bs.len() > 0 {
        assert forall|i: int| 0 <= i < bs.drop_last().len() implies (#[trigger] bs.drop_last()[i]).valid_on(h) by {
            assert(bs[i].valid_on(h));
        }
        lemma_outcome_open_seq(h, bs.drop_last());
        assert(bs.last().valid_on(h)) by {
            assert(bs[bs.len() - 1].valid_on(h));
        }
        lemma_outcome_open(h, bs.last().spec_views(), bs.last().spec_descending());
    }
}

/// On non-empty domains, a handler of branchers gives at least two choices
/// when it gives any.
pub proof fn lemma_outcome_len(h: VariableHandler, b: BranchersHandler)
    requires
        h.wf(),
        b.valid_on(h),
        forall|i: int| 0 <= i < h.vars().len() ==> (#[trigger] h.vars()[i])@.len() > 0,
    ensures
        handler_outcome(h, b.spec_branchers()) matches Some(bs) ==> bs.len() >= 2,
{
    lemma_outcome_len_seq(h, b.spec_branchers());
}

proof fn lemma_outcome_len_seq(h: VariableHandler, bs: Seq<DefaultBrancher>)
    requires
        h.wf(),
        forall|i: int| 0 <= i < bs.len() ==> (#[trigger] bs[i]).valid_on(h),
        forall|i: int| 0 <= i < h.vars().len() ==> (#[trigger] h.vars()[i])@.len() > 0,
    ensures
        handler_outcome(h, bs) matches Some(out) ==> out.len() >= 2,
    decreases bs.len(),
{
    if bs.len() > 0 {
        assert forall|i: int| 0 <= i < bs.drop_last().len() implies (#[trigger] bs.drop_last()[i]).valid_on(h) by {
            assert(bs[i].valid_on(h));
        }
        lemma_outcome_len_seq(h, bs.drop_last());
        assert(bs.last().valid_on(h)) by {
            assert(bs[bs.len() - 1].valid_on(h));
        }
        let views = bs.last().spec_views();
        lemma_first_free(h, views, 0);
        if let Some(i) = first_free(h, views, 0) {
            assert(h.valid(views[i].place()));
            assert(h.spec_index(views[i].place()) < h.vars().len());
        }
    }
}

/// Once a prefix of the branchers gives choices, the whole list gives the
/// same ones.
proof fn lemma_outcome_prefix(h: VariableHandler, bs: Seq<DefaultBrancher>, m: int)
    requires
        0 <= m <= bs.len(),
        handler_outcome(h, bs.subrange(0, m)) is Some,
    ensures
        handler_outcome(h, bs) == handler_outcome(h, bs.subrange(0, m)),
    decreases bs.len(),
{
    if m == bs.len() {
        assert(bs.subrange(0, m) =~= bs);
    } else {
        assert(bs.drop_last().subrange(0, m) =~= bs.subrange(0, m));
        lemma_outcome_prefix(h, bs.drop_last(), m);
    }
}

/// The assignment `a` of the variables of `h` gives the variable of the
/// choice `b` the value of `b`.
pub open spec fn agrees(h: VariableHandler, a: Seq<i32>, b: Branch) -> bool {
    a[h.spec_index(b.view.place())] == b.value
}

/// The choices `bs` leave out no assignment of values from the domains of
/// `h`: every such assignment agrees with one of them.
pub open spec fn covers(h: VariableHandler, bs: Seq<Branch>) -> bool {
    forall|a: Seq<i32>|
        #[trigger] within(a, h) ==> exists|k: int| 0 <= k < bs.len() && #[trigger] agrees(h, a, bs[k])
}

/// One choice per value of the domain of a variable covers the domains.
proof fn lemma_value_branches_cover(h: VariableHandler, view: VarView, descending: bool)
    requires
        h.wf(),
        h.valid(view.place()),
    ensures
        covers(h, value_branches(view, dom_at(h, view), descending)),
{
    let dom = dom_at(h, view);
    let bs = value_branches(view, dom, descending);
    assert forall|a: Seq<i32>| #[trigger] within(a, h) implies exists|k: int|
        0 <= k < bs.len() && #[trigger] agrees(h, a, bs[k]) by {
        let p = h.spec_index(view.place());
        assert(0 <= p < h.vars().len());
        assert(h.vars()[p]@.contains(a[p]));
        let j = choose|j: int| 0 <= j < dom.len() && dom[j] == a[p];
        let k = if descending {
            dom.len() - 1 - j
        } else {
            j
        };
        assert(bs[k].value == a[p]);
        assert(agrees(h, a, bs[k]));
    }
}

/// The choices that a handler of branchers gives cover the domains.
pub proof fn lemma_outcome_cover(h: VariableHandler, b: BranchersHandler)
    requires
        h.wf(),
        b.valid_on(h),
    ensures
        handler_outcome(h, b.spec_branchers()) matches Some(bs) ==> covers(h, bs),
{
    lemma_outcome_cover_seq(h, b.spec_branchers());
}

proof fn lemma_outcome_cover_seq(h: VariableHandler, bs: Seq<DefaultBrancher>)
    requires
        h.wf(),
        forall|i: int| 0 <= i < bs.len() ==> (#[trigger] bs[i]).valid_on(h),
    ensures
        handler_outcome(h, bs) matches Some(out) ==> covers(h, out),
    decreases bs.len(),
{
    if bs.len() > 0 {
        assert forall|i: int| 0 <= i < bs.drop_last().len() implies (#[trigger] bs.drop_last()[i]).valid_on(h) by {
            assert(bs[i].valid_on(h));
        }
        lemma_outcome_cover_seq(h, bs.drop_last());
        assert(bs.last().valid_on(h)) by {
            assert(bs[bs.len() - 1].valid_on(h));
        }
        let views = bs.last().spec_views();
        lemma_first_free(h, views, 0);
        if let Some(i) = first_free(h, views, 0) {
            assert(h.valid(views[i].place()));
            lemma_value_branches_cover(h, views[i], bs.last().spec_descending());
        }
    }
}

} // verus!
