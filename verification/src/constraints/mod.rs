use vstd::prelude::*;

use crate::variables::handlers::{total_size, VariableHandler};
use crate::variables::int_var::IntVarValues;
use crate::variables::{VariableError, VariableId, VariableState};

pub mod arithmetic;
pub mod comparisons;
pub mod equalities;
pub mod binary_ops;
pub mod handlers;
pub mod increasing;
pub mod sum;
pub mod all_different;
pub mod regular;

verus! {

/// The state of a constraint: ready to propagate or not.
#[derive(Debug, Clone, Copy, PartialEq, Eq, Structural)]
pub enum ConstraintState {
    Ready,
    NotReady,
}

/// The outcome of a propagation.
#[derive(Debug, Clone, Copy, PartialEq, Eq, Structural)]
pub enum PropagationState {
    /// Some domain was reduced.
    FixPoint,
    /// The constraint holds whatever the remaining choices: it can be dropped.
    Subsumed,
    /// Nothing was reduced.
    NoChange,
}

/// A propagator: the pruning rule of a constraint, applied to variables.
pub trait Propagator {}

/// The state that a propagator keeps between two propagations.
pub trait PropagatorState {}

/// Every domain of `new` is included in the matching domain of `old`.
pub open spec fn shrinks(old: Seq<IntVarValues>, new: Seq<IntVarValues>) -> bool {
    &&& new.len() == old.len()
    &&& forall|i: int| 0 <= i < new.len() ==> (#[trigger] new[i])@.len() <= old[i]@.len()
    &&& forall|i: int, v: i32| 0 <= i < new.len() && #[trigger] new[i]@.contains(v) ==> old[i]@.contains(v)
}

/// No domain is empty.
pub open spec fn all_nonempty(vars: Seq<IntVarValues>) -> bool {
    forall|i: int| 0 <= i < vars.len() ==> (#[trigger] vars[i])@.len() > 0
}

/// Each reported change names a variable whose domain shrank.
pub open spec fn reports_shrink(
    out: Seq<(VariableId, VariableState)>,
    old: Seq<IntVarValues>,
    new: Seq<IntVarValues>,
) -> bool {
    forall|k: int|
        0 <= k < out.len() ==> {
            let i = (#[trigger] out[k]).0.0 as int;
            &&& 0 <= i < new.len()
            &&& out[k].1 != VariableState::NoChange
            &&& new[i]@.len() < old[i]@.len()
        }
}

/// Every variable whose domain shrank from `old` to `new` has an entry in
/// `out`.
pub open spec fn reports_all(
    out: Seq<(VariableId, VariableState)>,
    old: Seq<IntVarValues>,
    new: Seq<IntVarValues>,
) -> bool {
    forall|i: int|
        0 <= i < new.len() && #[trigger] new[i]@.len() != old[i]@.len() ==> exists|k: int|
            0 <= k < out.len() && (#[trigger] out[k]).0.0 == i
}

/// Inclusion of domains is a preorder.
pub proof fn lemma_shrinks_trans(a: Seq<IntVarValues>, b: Seq<IntVarValues>, c: Seq<IntVarValues>)
    requires
        shrinks(a, b),
        shrinks(b, c),
    ensures
        shrinks(a, c),
{
    assert forall|i: int, v: i32| 0 <= i < c.len() && #[trigger] c[i]@.contains(v) implies a[i]@.contains(
        v,
    ) by {
        assert(b[i]@.contains(v));
    }
}

/// Reported changes stay true while the domains keep shrinking.
pub proof fn lemma_reports_shrink_trans(
    out: Seq<(VariableId, VariableState)>,
    a: Seq<IntVarValues>,
    b: Seq<IntVarValues>,
    c: Seq<IntVarValues>,
)
    requires
        reports_shrink(out, a, b),
        shrinks(b, c),
    ensures
        reports_shrink(out, a, c),
{
    assert forall|k: int| 0 <= k < out.len() implies {
        let i = (#[trigger] out[k]).0.0 as int;
        &&& 0 <= i < c.len()
        &&& out[k].1 != VariableState::NoChange
        &&& c[i]@.len() < a[i]@.len()
    } by {
        let i = out[k].0.0 as int;
        assert(c[i]@.len() <= b[i]@.len());
    }
}

/// Changes reported against later domains are also changes against
/// earlier ones.
pub proof fn lemma_reports_shrink_from(
    out: Seq<(VariableId, VariableState)>,
    a: Seq<IntVarValues>,
    b: Seq<IntVarValues>,
    c: Seq<IntVarValues>,
)
    requires
        shrinks(a, b),
        c.len() == b.len(),
        reports_shrink(out, b, c),
    ensures
        reports_shrink(out, a, c),
{
    assert forall|k: int| 0 <= k < out.len() implies {
        let i = (#[trigger] out[k]).0.0 as int;
        &&& 0 <= i < c.len()
        &&& out[k].1 != VariableState::NoChange
        &&& c[i]@.len() < a[i]@.len()
    } by {
        let i = out[k].0.0 as int;
        assert(b[i]@.len() <= a[i]@.len());
    }
}

/// Shrinking domains does not increase their total size, and strictly
/// shrinking one of them decreases it.
pub proof fn lemma_shrinks_total(old: Seq<IntVarValues>, new: Seq<IntVarValues>)
    requires
        shrinks(old, new),
    ensures
        total_size(new) <= total_size(old),
        (exists|i: int| 0 <= i < new.len() && new[i]@.len() < old[i]@.len()) ==> total_size(new)
            < total_size(old),
    decreases old.len(),
{
    if old.len() > 0 {
        let o = old.drop_last();
        let n = new.drop_last();
        assert(shrinks(o, n)) by {
            assert forall|i: int, v: i32| 0 <= i < n.len() && #[trigger] n[i]@.contains(v) implies o[i]@.contains(
                v,
            ) by {
                assert(new[i]@.contains(v));
            }
            assert forall|i: int| 0 <= i < n.len() implies (#[trigger] n[i])@.len() <= o[i]@.len() by {
                assert(new[i]@.len() <= old[i]@.len());
            }
        }
        lemma_shrinks_total(o, n);
        if exists|i: int| 0 <= i < new.len() && new[i]@.len() < old[i]@.len() {
            let i = choose|i: int| 0 <= i < new.len() && new[i]@.len() < old[i]@.len();
            if i < new.len() - 1 {
                assert(n[i]@.len() < o[i]@.len());
            }
        }
    }
}

/// A copy of a vector of plain values.
pub fn copy_vec<T: Copy>(v: &Vec<T>) -> (r: Vec<T>)
    ensures
        r@ == v@,
{
    let mut r: Vec<T> = Vec::new();
    let mut i: usize = 0;
    while i < v.len()
        invariant
            i <= v@.len(),
            r@ == v@.subrange(0, i as int),
        decreases v@.len() - i,
    {
        r.push(v[i]);
        i = i + 1;
        proof {
            assert(r@ =~= v@.subrange(0, i as int));
        }
    }
    proof {
        assert(v@.subrange(0, v@.len() as int) =~= v@);
    }
    r
}

/// A copy of an optional vector of plain values.
pub fn copy_opt_vec<T: Copy>(v: &Option<Vec<T>>) -> (r: Option<Vec<T>>)
    ensures
        r is Some <==> v is Some,
        r matches Some(a) ==> v matches Some(b) && a@ == b@,
{
    match v {
        None => None,
        Some(b) => Some(copy_vec(b)),
    }
}

/// A constraint over the variables of a handler.
pub trait Constraint: Sized {
    /// The places that the constraint refers to exist in `h`, and what its
    /// propagation needs of the domains holds. Kept when the domains shrink.
    spec fn ready(&self, h: VariableHandler) -> bool;

    /// Readiness survives a shrinking of the domains.
    proof fn lemma_ready_shrinks(&self, h0: VariableHandler, h1: VariableHandler)
        requires
            self.ready(h0),
            h0.wf(),
            h1.wf(),
            h1.same_tables(&h0),
            shrinks(h0.vars(), h1.vars()),
        ensures
            self.ready(h1),
    ;

    /// The changes made by the last propagation and not yet collected.
    spec fn pending(&self) -> Seq<(VariableId, VariableState)>;

    /// Reduces the domains of the variables of the constraint.
    fn propagate(&mut self, variables_handler: &mut VariableHandler) -> (r: Result<
        PropagationState,
        VariableError,
    >)
        requires
            old(variables_handler).wf(),
            all_nonempty(old(variables_handler).vars()),
            old(self).ready(*old(variables_handler)),
        ensures
            final(variables_handler).wf(),
            final(variables_handler).same_tables(old(variables_handler)),
            shrinks(old(variables_handler).vars(), final(variables_handler).vars()),
            r is Ok ==> all_nonempty(final(variables_handler).vars()),
            r is Ok ==> final(self).ready(*final(variables_handler)),
            r is Ok ==> reports_shrink(
                final(self).pending(),
                old(variables_handler).vars(),
                final(variables_handler).vars(),
            ),
    ;

    /// Propagates for the first time.
    fn initialise(&mut self, variables_handler: &mut VariableHandler) -> (r: Result<
        PropagationState,
        VariableError,
    >)
        requires
            old(variables_handler).wf(),
            all_nonempty(old(variables_handler).vars()),
            old(self).ready(*old(variables_handler)),
        ensures
            final(variables_handler).wf(),
            final(variables_handler).same_tables(old(variables_handler)),
            shrinks(old(variables_handler).vars(), final(variables_handler).vars()),
            r is Ok ==> all_nonempty(final(variables_handler).vars()),
            r is Ok ==> final(self).ready(*final(variables_handler)),
            r is Ok ==> reports_shrink(
                final(self).pending(),
                old(variables_handler).vars(),
                final(variables_handler).vars(),
            ),
    ;

    /// Gives the constraint the variables that changed since its last
    /// propagation.
    fn prepare(&mut self, states: Vec<VariableId>)
        ensures
            forall|h: VariableHandler| old(self).ready(h) ==> #[trigger] final(self).ready(h),
            final(self).pending() == old(self).pending(),
    ;

    /// Collects the changes made by the last propagation.
    fn result(&mut self) -> (r: Vec<(VariableId, VariableState)>)
        ensures
            r@ == old(self).pending(),
            final(self).pending().len() == 0,
            forall|h: VariableHandler| old(self).ready(h) ==> #[trigger] final(self).ready(h),
    ;

    /// A copy of the constraint, ready wherever the constraint is.
    fn box_clone(&self) -> (r: Self)
        ensures
            forall|h: VariableHandler| self.ready(h) ==> #[trigger] r.ready(h),
            r.pending() == self.pending(),
    ;

    /// The variables of the constraint, each with the change that wakes it.
    fn dependencies(&self, variables_handler: &VariableHandler) -> (r: Vec<(VariableId, VariableState)>)
        requires
            variables_handler.wf(),
            self.ready(*variables_handler),
        ensures
            forall|k: int| 0 <= k < r@.len() ==> (#[trigger] r@[k]).0.0 < variables_handler.vars().len(),
    ;
}

/// Builds constraints.
pub trait ConstraintBuilder {}

} // verus!
