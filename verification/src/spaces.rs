use vstd::prelude::*;

use crate::branchers::{dom_at, handler_outcome, open_choice, Brancher, Branch, BranchersHandler};
use crate::constraints::comparisons::doms_of;
use crate::constraints::handlers::{
    all_hold, all_ready, all_sound, failed_on, handler_run, lemma_all_ready_shrinks, propagated_once, PropStep, same_shapes, solutions_kept, within, DefaultConstraintsHandler, DefaultConstraintsHandlerBuilder,
};
use crate::constraints::{all_nonempty, lemma_shrinks_total, shrinks, PropagationState};
use crate::variables::handler_traits::SpecificVariablesHandler;
use crate::variables::handlers::{total_size, VarView, VariableHandler, VariableHandlerBuilder};
use crate::variables::int_var::{assignment, IntVarValues};
use crate::variables::{VariableError, VariableState};

verus! {

/// The parts of a model before the search: the variables and constraints
/// still being collected, and the branchers.
pub struct SpaceBuilder {
    variables: VariableHandlerBuilder,
    constraints: DefaultConstraintsHandlerBuilder,
    brancher: BranchersHandler,
}

impl SpaceBuilder {
    /// Gathers the parts of a model.
    pub fn new(
        variables: VariableHandlerBuilder,
        constraints: DefaultConstraintsHandlerBuilder,
        brancher: BranchersHandler,
    ) -> (r: SpaceBuilder)
        ensures
            r.spec_variables() == variables,
            r.spec_constraints() == constraints,
            r.spec_brancher() == brancher,
    {
        SpaceBuilder { variables: variables, constraints: constraints, brancher: brancher }
    }

    pub closed spec fn spec_variables(&self) -> VariableHandlerBuilder {
        self.variables
    }

    pub closed spec fn spec_constraints(&self) -> DefaultConstraintsHandlerBuilder {
        self.constraints
    }

    pub closed spec fn spec_brancher(&self) -> BranchersHandler {
        self.brancher
    }
}

/// A node of the search: the variables, the constraints on them and the
/// branchers that split the node.
pub struct Space {
    pub variables: VariableHandler,
    constraints: DefaultConstraintsHandler,
    brancher: BranchersHandler,
}

/// What running a space gives: every variable to branch on is assigned, or
/// the choices to try.
pub enum SpaceState {
    Subsumed,
    Branches(SpaceIterator),
}

/// What running a space gives, with the choices as a list.
pub enum BranchState {
    Subsumed,
    Branches(Vec<Branch>),
}

/// The choices of a node, handed out one at a time.
pub struct SpaceIterator {
    branches: Vec<Branch>,
    next: usize,
}

/// Two handlers of branchers branch on the same variables, in the same way.
pub open spec fn same_branchers(a: BranchersHandler, b: BranchersHandler) -> bool {
    &&& a.spec_branchers().len() == b.spec_branchers().len()
    &&& forall|i: int|
        0 <= i < a.spec_branchers().len() ==> (#[trigger] a.spec_branchers()[i]).spec_views()
            == b.spec_branchers()[i].spec_views() && a.spec_branchers()[i].spec_descending()
            == b.spec_branchers()[i].spec_descending()
}

/// Handlers of branchers that branch the same way give the same choices.
pub proof fn lemma_same_branchers(h: VariableHandler, a: BranchersHandler, b: BranchersHandler)
    requires
        same_branchers(a, b),
    ensures
        handler_outcome(h, a.spec_branchers()) == handler_outcome(h, b.spec_branchers()),
        a.valid_on(h) <==> b.valid_on(h),
        a.all_assigned(h) <==> b.all_assigned(h),
{
    lemma_outcome_same(h, a.spec_branchers(), b.spec_branchers());
    assert(a.valid_on(h) <==> b.valid_on(h)) by {
        if a.valid_on(h) {
            assert forall|i: int| 0 <= i < b.spec_branchers().len() implies (#[trigger] b.spec_branchers()[i]).valid_on(h) by {
                assert(a.spec_branchers()[i].valid_on(h));
            }
        }
        if b.valid_on(h) {
            assert forall|i: int| 0 <= i < a.spec_branchers().len() implies (#[trigger] a.spec_branchers()[i]).valid_on(h) by {
                assert(b.spec_branchers()[i].valid_on(h));
            }
        }
    }
    assert(a.all_assigned(h) <==> b.all_assigned(h)) by {
        if a.all_assigned(h) {
            assert forall|i: int, j: int|
                0 <= i < b.spec_branchers().len() && 0 <= j < b.spec_branchers()[i].spec_views().len()
                    implies dom_at(h, #[trigger] b.spec_branchers()[i].spec_views()[j]).len() == 1 by {
                assert(a.spec_branchers()[i].spec_views()[j] == b.spec_branchers()[i].spec_views()[j]);
            }
        }
        if b.all_assigned(h) {
            assert forall|i: int, j: int|
                0 <= i < a.spec_branchers().len() && 0 <= j < a.spec_branchers()[i].spec_views().len()
                    implies dom_at(h, #[trigger] a.spec_branchers()[i].spec_views()[j]).len() == 1 by {
                assert(a.spec_branchers()[i].spec_views()[j] == b.spec_branchers()[i].spec_views()[j]);
            }
        }
    }
}

proof fn lemma_outcome_same(
    h: VariableHandler,
    a: Seq<crate::branchers::DefaultBrancher>,
    b: Seq<crate::branchers::DefaultBrancher>,
)
    requires
        a.len() == b.len(),
        forall|i: int|
            0 <= i < a.len() ==> (#[trigger] a[i]).spec_views() == b[i].spec_views()
                && a[i].spec_descending() == b[i].spec_descending(),
    ensures
        handler_outcome(h, a) == handler_outcome(h, b),
    decreases a.len(),
{
    if a.len() > 0 {
        lemma_outcome_same(h, a.drop_last(), b.drop_last());
        assert(a.last() == a[a.len() - 1]);
    }
}

/// When no brancher has anything to branch on, every variable of every
/// brancher is assigned.
pub proof fn lemma_no_outcome_assigned(h: VariableHandler, b: BranchersHandler)
    requires
        handler_outcome(h, b.spec_branchers()) is None,
    ensures
        b.all_assigned(h),
{
    lemma_no_outcome_seq(h, b.spec_branchers());
}

proof fn lemma_no_outcome_seq(h: VariableHandler, bs: Seq<crate::branchers::DefaultBrancher>)
    requires
        handler_outcome(h, bs) is None,
    ensures
        forall|i: int, j: int|
            0 <= i < bs.len() && 0 <= j < bs[i].spec_views().len() ==> dom_at(
                h,
                #[trigger] bs[i].spec_views()[j],
            ).len() == 1,
    decreases bs.len(),
{
    if bs.len() > 0 {
        lemma_no_outcome_seq(h, bs.drop_last());
        crate::branchers::lemma_first_free(h, bs.last().spec_views(), 0);
        assert forall|i: int, j: int|
            0 <= i < bs.len() && 0 <= j < bs[i].spec_views().len() implies dom_at(
                h,
                #[trigger] bs[i].spec_views()[j],
            ).len() == 1 by {
            if i < bs.len() - 1 {
                assert(bs.drop_last()[i] == bs[i]);
            }
        }
    }
}

/// Two sequences of variables with the same domains have the same total
/// size.
pub proof fn lemma_same_doms(a: Seq<IntVarValues>, b: Seq<IntVarValues>)
    requires
        doms_of(a) == doms_of(b),
    ensures
        shrinks(a, b),
        shrinks(b, a),
        total_size(a) == total_size(b),
{
    assert(a.len() == doms_of(a).len());
    assert(b.len() == doms_of(b).len());
    assert forall|i: int| 0 <= i < a.len() implies (#[trigger] a[i])@ == b[i]@ by {
        assert(doms_of(a)[i] == a[i]@);
        assert(doms_of(b)[i] == b[i]@);
    }
    lemma_shrinks_total(a, b);
    lemma_shrinks_total(b, a);
}

/// The constraints of `s1` have the shapes of those of `s0`, and every
/// solution of the constraints of `s0` on its domains is within the domains of
/// `s1`, when propagation is sound on all of them.
pub open spec fn space_keeps(s0: Space, s1: Space) -> bool {
    &&& same_shapes(s0.spec_constraints().spec_constraints(), s1.spec_constraints().spec_constraints())
    &&& solutions_kept(s0.spec_constraints().spec_constraints(), s0.spec_variables(), s1.spec_variables())
}

/// Propagation is sound on every constraint of `s`, and they have a solution
/// on its domains.
pub open spec fn has_solution(s: Space) -> bool {
    &&& all_sound(s.spec_constraints().spec_constraints(), s.spec_variables())
    &&& exists|a: Seq<i32>|
        #[trigger] within(a, s.spec_variables()) && all_hold(
            s.spec_constraints().spec_constraints(),
            s.spec_variables(),
            a,
        )
}

impl Space {
    /// The space made of `variables`, `constraints` and `brancher`.
    pub fn new(variables: VariableHandler, constraints: DefaultConstraintsHandler, brancher: BranchersHandler) -> (r:
        Space)
        ensures
            r.spec_variables() == variables,
            r.spec_constraints() == constraints,
            r.spec_brancher() == brancher,
    {
        Space { variables: variables, constraints: constraints, brancher: brancher }
    }

    pub closed spec fn spec_variables(&self) -> VariableHandler {
        self.variables
    }

    pub closed spec fn spec_constraints(&self) -> DefaultConstraintsHandler {
        self.constraints
    }

    pub closed spec fn spec_brancher(&self) -> BranchersHandler {
        self.brancher
    }

    /// The parts of the space fit together.
    pub open spec fn wf(&self) -> bool {
        &&& self.spec_variables().wf()
        &&& self.spec_constraints().wf(self.spec_variables())
        &&& self.spec_brancher().valid_on(self.spec_variables())
    }

    /// The variable that `view` designates.
    pub fn get_variable(&self, view: &VarView) -> (r: &IntVarValues)
        requires
            self.spec_variables().wf(),
            self.spec_variables().valid(view.place()),
        ensures
            *r == self.spec_variables().vars()[self.spec_variables().spec_index(view.place())],
    {
        self.variables.get(view)
    }

    /// A copy of the space.
    pub fn duplicate(&self) -> (r: Space)
        requires
            self.wf(),
        ensures
            r.wf(),
            doms_of(r.spec_variables().vars()) == doms_of(self.spec_variables().vars()),
            r.spec_variables().same_tables(&self.spec_variables()),
            same_branchers(r.spec_brancher(), self.spec_brancher()),
            r.spec_constraints().spec_graph().pending() == self.spec_constraints().spec_graph().pending(),
            same_shapes(self.spec_constraints().spec_constraints(), r.spec_constraints().spec_constraints()),
    {
        let variables = self.variables.duplicate();
        let constraints = self.constraints.duplicate();
        let brancher = self.brancher.duplicate();
        let r = Space { variables: variables, constraints: constraints, brancher: brancher };
        proof {
            assert(doms_of(r.variables.vars()) =~= doms_of(self.variables.vars()));
            lemma_same_doms(self.variables.vars(), r.variables.vars());
            lemma_all_ready_shrinks(self.constraints.spec_constraints(), self.variables, r.variables);
            assert(r.spec_constraints().wf(self.variables));
            lemma_all_ready_shrinks(r.constraints.spec_constraints(), self.variables, r.variables);
            lemma_same_branchers(self.variables, r.brancher, self.brancher);
        }
        r
    }

    /// Makes the choice `b` in the space.
    pub fn apply(&mut self, b: &Branch) -> (r: Result<VariableState, VariableError>)
        requires
            old(self).wf(),
            old(self).spec_variables().valid(b.view.place()),
            dom_at(old(self).spec_variables(), b.view).len() > 0,
        ensures
            final(self).wf(),
            final(self).spec_variables().same_tables(&old(self).spec_variables()),
            shrinks(old(self).spec_variables().vars(), final(self).spec_variables().vars()),
            final(self).spec_constraints() == old(self).spec_constraints(),
            final(self).spec_brancher() == old(self).spec_brancher(),
            (r, dom_at(final(self).spec_variables(), b.view)) == assignment(dom_at(old(self).spec_variables(), b.view), b.value),
            doms_of(final(self).spec_variables().vars()) == doms_of(old(self).spec_variables().vars()).update(
                old(self).spec_variables().spec_index(b.view.place()),
                dom_at(final(self).spec_variables(), b.view),
            ),
    {
        let ghost h0 = self.variables;
        let r = b.apply(&mut self.variables);
        proof {
            let i = h0.spec_index(b.view.place());
            let d0 = dom_at(h0, b.view);
            assert(d0 == h0.vars()[i]@);
            crate::variables::sorted::lemma_sorted_bounds(d0);
            assert forall|k: int| 0 <= k < self.variables.vars().len() implies (#[trigger] self.variables.vars()[k])@
                == if k == i {
                dom_at(self.variables, b.view)
            } else {
                h0.vars()[k]@
            } by {
                assert(doms_of(self.variables.vars())[k] == self.variables.vars()[k]@);
                assert(doms_of(h0.vars())[k] == h0.vars()[k]@);
            }
            if d0.contains(b.value) {
                let j = choose|j: int| 0 <= j < d0.len() && d0[j] == b.value;
                assert(d0[j] == b.value);
            }
            assert(shrinks(h0.vars(), self.variables.vars()));
            lemma_all_ready_shrinks(self.constraints.spec_constraints(), h0, self.variables);
        }
        r
    }

    /// Propagates the constraints.
    fn propagate(&mut self) -> (r: Result<PropagationState, VariableError>)
        requires
            old(self).wf(),
            all_nonempty(old(self).spec_variables().vars()),
        ensures
            final(self).spec_variables().wf(),
            final(self).spec_variables().same_tables(&old(self).spec_variables()),
            shrinks(old(self).spec_variables().vars(), final(self).spec_variables().vars()),
            final(self).spec_brancher() == old(self).spec_brancher(),
            r is Ok ==> final(self).wf() && all_nonempty(final(self).spec_variables().vars())
                && final(self).spec_constraints().spec_graph().pending().len() == 0,
            space_keeps(*old(self), *final(self)),
            has_solution(*old(self)) ==> r is Ok,
            r matches Err(e) ==> exists|hb: VariableHandler| #[trigger] failed_on(
                old(self).spec_constraints().spec_constraints(),
                old(self).spec_variables(),
                hb,
                final(self).spec_variables(),
                e,
            ),
            r is Ok ==> forall|k: int|
                0 <= k < old(self).spec_constraints().spec_constraints().len()
                    && !old(self).spec_constraints().spec_subsumeds()[k] ==> #[trigger] propagated_once(
                    old(self).spec_constraints().spec_constraints(),
                    old(self).spec_variables(),
                    k,
                    final(self).spec_variables(),
                ),
            r is Ok ==> exists|rounds: Seq<Seq<PropStep>>, hs: Seq<VariableHandler>|
                #[trigger] handler_run(
                    old(self).spec_constraints().spec_constraints(),
                    old(self).spec_constraints().spec_subsumeds(),
                    old(self).spec_constraints().spec_graph().edges(),
                    old(self).spec_constraints().spec_graph().pending(),
                    old(self).spec_variables(),
                    rounds,
                    hs,
                    final(self).spec_variables(),
                ),
    {
        let r = self.constraints.propagate_all(&mut self.variables);
        proof {
            if has_solution(*old(self)) {
                let a = choose|a: Seq<i32>|
                    #[trigger] within(a, old(self).spec_variables()) && all_hold(
                        old(self).spec_constraints().spec_constraints(),
                        old(self).spec_variables(),
                        a,
                    );
                assert(within(a, old(self).spec_variables()));
            }
        }
        r
    }

    /// The choices of the branchers on the space, if one has something to
    /// branch on.
    fn branch(&mut self) -> (r: Option<SpaceIterator>)
        requires
            old(self).wf(),
        ensures
            *final(self) == *old(self),
            r is None <==> handler_outcome(old(self).spec_variables(), old(self).spec_brancher().spec_branchers()) is None,
            r matches Some(it) ==> handler_outcome(old(self).spec_variables(), old(self).spec_brancher().spec_branchers())
                == Some(it.spec_branches()) && it.spec_next() == 0,
    {
        SpaceIterator::new(self)
    }

    /// Propagates, then branches: `Subsumed` when every variable to branch
    /// on is assigned, the choices otherwise. Fails when propagation fails.
    pub fn run(&mut self) -> (r: Result<SpaceState, VariableError>)
        requires
            old(self).wf(),
            all_nonempty(old(self).spec_variables().vars()),
        ensures
            final(self).spec_variables().wf(),
            final(self).spec_variables().same_tables(&old(self).spec_variables()),
            shrinks(old(self).spec_variables().vars(), final(self).spec_variables().vars()),
            final(self).spec_brancher() == old(self).spec_brancher(),
            r is Ok ==> final(self).wf() && all_nonempty(final(self).spec_variables().vars())
                && final(self).spec_constraints().spec_graph().pending().len() == 0,
            r matches Ok(SpaceState::Subsumed) ==> handler_outcome(
                final(self).spec_variables(),
                final(self).spec_brancher().spec_branchers(),
            ) is None,
            r matches Ok(SpaceState::Branches(it)) ==> handler_outcome(
                final(self).spec_variables(),
                final(self).spec_brancher().spec_branchers(),
            ) == Some(it.spec_branches()) && it.spec_next() == 0,
            space_keeps(*old(self), *final(self)),
            has_solution(*old(self)) ==> r is Ok,
            r matches Err(e) ==> exists|hb: VariableHandler| #[trigger] failed_on(
                old(self).spec_constraints().spec_constraints(),
                old(self).spec_variables(),
                hb,
                final(self).spec_variables(),
                e,
            ),
            r is Ok ==> forall|k: int|
                0 <= k < old(self).spec_constraints().spec_constraints().len()
                    && !old(self).spec_constraints().spec_subsumeds()[k] ==> #[trigger] propagated_once(
                    old(self).spec_constraints().spec_constraints(),
                    old(self).spec_variables(),
                    k,
                    final(self).spec_variables(),
                ),
            r is Ok ==> exists|rounds: Seq<Seq<PropStep>>, hs: Seq<VariableHandler>|
                #[trigger] handler_run(
                    old(self).spec_constraints().spec_constraints(),
                    old(self).spec_constraints().spec_subsumeds(),
                    old(self).spec_constraints().spec_graph().edges(),
                    old(self).spec_constraints().spec_graph().pending(),
                    old(self).spec_variables(),
                    rounds,
                    hs,
                    final(self).spec_variables(),
                ),
    {
        self.propagate()?;
        match self.branch() {
            Some(branches) => Ok(SpaceState::Branches(branches)),
            None => Ok(SpaceState::Subsumed),
        }
    }

    /// Propagates, then branches, giving the choices as a list.
    pub fn run_branch(&mut self) -> (r: Result<BranchState, VariableError>)
        requires
            old(self).wf(),
            all_nonempty(old(self).spec_variables().vars()),
        ensures
            final(self).spec_variables().wf(),
            final(self).spec_variables().same_tables(&old(self).spec_variables()),
            shrinks(old(self).spec_variables().vars(), final(self).spec_variables().vars()),
            final(self).spec_brancher() == old(self).spec_brancher(),
            r is Ok ==> final(self).wf() && all_nonempty(final(self).spec_variables().vars())
                && final(self).spec_constraints().spec_graph().pending().len() == 0,
            r matches Ok(BranchState::Subsumed) ==> handler_outcome(
                final(self).spec_variables(),
                final(self).spec_brancher().spec_branchers(),
            ) is None,
            r matches Ok(BranchState::Branches(bs)) ==> handler_outcome(
                final(self).spec_variables(),
                final(self).spec_brancher().spec_branchers(),
            ) == Some(bs@),
            space_keeps(*old(self), *final(self)),
            has_solution(*old(self)) ==> r is Ok,
            r matches Err(e) ==> exists|hb: VariableHandler| #[trigger] failed_on(
                old(self).spec_constraints().spec_constraints(),
                old(self).spec_variables(),
                hb,
                final(self).spec_variables(),
                e,
            ),
            r is Ok ==> forall|k: int|
                0 <= k < old(self).spec_constraints().spec_constraints().len()
                    && !old(self).spec_constraints().spec_subsumeds()[k] ==> #[trigger] propagated_once(
                    old(self).spec_constraints().spec_constraints(),
                    old(self).spec_variables(),
                    k,
                    final(self).spec_variables(),
                ),
            r is Ok ==> exists|rounds: Seq<Seq<PropStep>>, hs: Seq<VariableHandler>|
                #[trigger] handler_run(
                    old(self).spec_constraints().spec_constraints(),
                    old(self).spec_constraints().spec_subsumeds(),
                    old(self).spec_constraints().spec_graph().edges(),
                    old(self).spec_constraints().spec_graph().pending(),
                    old(self).spec_variables(),
                    rounds,
                    hs,
                    final(self).spec_variables(),
                ),
    {
        self.propagate()?;
        match self.brancher.branch(&self.variables) {
            Ok(branches) => Ok(BranchState::Branches(branches)),
            Err(()) => Ok(BranchState::Subsumed),
        }
    }
}

impl SpaceIterator {
    /// The choices of the branchers of `space`, if one has something to
    /// branch on.
    fn new(space: &mut Space) -> (r: Option<SpaceIterator>)
        requires
            old(space).wf(),
        ensures
            *final(space) == *old(space),
            r is None <==> handler_outcome(old(space).spec_variables(), old(space).spec_brancher().spec_branchers()) is None,
            r matches Some(it) ==> handler_outcome(old(space).spec_variables(), old(space).spec_brancher().spec_branchers())
                == Some(it.spec_branches()) && it.spec_next() == 0,
    {
        match space.brancher.branch(&space.variables) {
            Ok(branches) => Some(SpaceIterator { branches: branches, next: 0 }),
            Err(()) => None,
        }
    }

    pub closed spec fn spec_branches(&self) -> Seq<Branch> {
        self.branches@
    }

    pub closed spec fn spec_next(&self) -> nat {
        self.next as nat
    }

    /// The choices, all of them.
    pub fn branches(&self) -> (r: &Vec<Branch>)
        ensures
            r@ == self.spec_branches(),
    {
        &self.branches
    }

    /// The next choice, if any is left.
    pub fn next(&mut self) -> (r: Option<Branch>)
        ensures
            final(self).spec_branches() == old(self).spec_branches(),
            old(self).spec_next() < old(self).spec_branches().len() ==> r == Some(
                old(self).spec_branches()[old(self).spec_next() as int],
            ) && final(self).spec_next() == old(self).spec_next() + 1,
            old(self).spec_next() >= old(self).spec_branches().len() ==> r is None
                && final(self).spec_next() == old(self).spec_next(),
    {
        if self.next < self.branches.len() {
            let b = self.branches[self.next];
            self.next = self.next + 1;
            Some(b)
        } else {
            None
        }
    }
}

/// The variable that `get_variable` reads from a space is the one that
/// `get_from_handler` reads from the variables of the space for the same view.
pub proof fn lemma_get_variable_agrees(s: Space, view: VarView)
    requires
        s.spec_variables().wf(),
        s.spec_variables().valid(view.place()),
    ensures
        <VariableHandler as SpecificVariablesHandler<VarView>>::designates(&s.spec_variables(), view),
        <VariableHandler as SpecificVariablesHandler<VarView>>::variables(&s.spec_variables())[
            <VariableHandler as SpecificVariablesHandler<VarView>>::position_of(&s.spec_variables(), view)
        ] == s.spec_variables().vars()[s.spec_variables().spec_index(view.place())],
{
}

} // verus!
