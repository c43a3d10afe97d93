use vstd::prelude::*;

use super::copy_opt_vec;

use super::comparisons::{distinct_pair, output_view};
use super::{all_nonempty, Constraint, PropagationState};
use crate::constraints::arithmetic::{bounds_pass, lemma_bounds_pass_exact, lemma_bounds_pass_keeps};
use crate::variables::handlers::{VarView, VariableHandler};
use crate::variables::int_var::change_state;
use crate::variables::sorted::{at_least, at_most, inter, lemma_filter_sorted, occurs_in};
use crate::variables::{VariableError, VariableId, VariableState};

verus! {

/// The constraint `lhs == rhs`: both variables keep the values they share.
#[derive(Debug, Clone)]
pub struct Equal {
    lhs: VarView,
    rhs: VarView,
    output: Option<Vec<(VariableId, VariableState)>>,
}

impl Equal {
    /// What a propagation does: the constraint before it (`self`) and after
    /// it (`after`), the variables before (`h0`) and after (`h1`), and the
    /// report `r`.
    pub open spec fn propagation(
        &self,
        h0: VariableHandler,
        after: Equal,
        h1: VariableHandler,
        r: Result<PropagationState, VariableError>,
    ) -> bool {
        let i = h0.spec_index(self.spec_lhs().place());
        let j = h0.spec_index(self.spec_rhs().place());
        let d = inter(h0.vars()[i]@, h0.vars()[j]@);
        &&& after.spec_lhs() == self.spec_lhs()
        &&& after.spec_rhs() == self.spec_rhs()
        &&& forall|k: int| 0 <= k < h0.vars().len() && k != i && k != j ==> h1.vars()[k]
            == h0.vars()[k]
        &&& (d.len() == 0 <==> r is Err)
        &&& r is Err ==> r == Err::<PropagationState, VariableError>(
            VariableError::DomainWipeout,
        ) && h1.vars()[i]@.len() == 0 && h1.vars()[j]@.len() == 0
        &&& r is Ok ==> h1.vars()[i]@ == d && h1.vars()[j]@ == d && after.pending()
            == super::comparisons::pair_entries(
            VariableId(i as usize),
            h0.vars()[i]@,
            d,
            VariableId(j as usize),
            h0.vars()[j]@,
            d,
        ) && r == Ok::<PropagationState, VariableError>(
            if after.pending().len() > 0 {
                PropagationState::FixPoint
            } else {
                PropagationState::NoChange
            },
        )
    }

    /// The constraint `lhs == rhs`.
    pub fn new(lhs: VarView, rhs: VarView) -> (r: Equal)
        ensures
            r.spec_lhs() == lhs,
            r.spec_rhs() == rhs,
            r.pending().len() == 0,
    {
        Equal { lhs: lhs, rhs: rhs, output: None }
    }

    pub closed spec fn spec_lhs(&self) -> VarView {
        self.lhs
    }

    pub closed spec fn spec_rhs(&self) -> VarView {
        self.rhs
    }
}

/// The changes reported by an alignment of bounds: one entry for each of the
/// four steps that changed its variable.
pub open spec fn bounds_entries(
    a: VariableId,
    l: Seq<i32>,
    b: VariableId,
    k: Seq<i32>,
) -> Seq<(VariableId, VariableState)> {
    let l1 = at_most(l, k.last());
    let k1 = at_most(k, l1.last());
    let l2 = at_least(l1, k1[0]);
    let k2 = at_least(k1, l2[0]);
    let e1 = if l1.len() != l.len() {
        seq![(a, change_state(l, l1))]
    } else {
        Seq::empty()
    };
    let e2 = if k1.len() != k.len() {
        e1.push((b, change_state(k, k1)))
    } else {
        e1
    };
    let e3 = if l2.len() != l1.len() {
        e2.push((a, change_state(l1, l2)))
    } else {
        e2
    };
    if k2.len() != k1.len() {
        e3.push((b, change_state(k1, k2)))
    } else {
        e3
    }
}

impl Constraint for Equal {
    open spec fn ready(&self, h: VariableHandler) -> bool {
        distinct_pair(h, self.spec_lhs(), self.spec_rhs())
    }

    proof fn lemma_ready_shrinks(&self, h0: VariableHandler, h1: VariableHandler) {
    }

    closed spec fn pending(&self) -> Seq<(VariableId, VariableState)> {
        output_view(self.output)
    }

    fn propagate(&mut self, variables_handler: &mut VariableHandler) -> (r: Result<
        PropagationState,
        VariableError,
    >)
        ensures
            old(self).propagation(*old(variables_handler), *final(self), *final(variables_handler), r),
    {
        let ghost h0 = *variables_handler;
        let mut output: Vec<(VariableId, VariableState)> = Vec::new();
        self.output = None;
        let i = variables_handler.index(self.lhs.get_idx());
        let j = variables_handler.index(self.rhs.get_idx());
        let mut lhs = variables_handler.take(i);
        let mut rhs = variables_handler.take(j);
        let lhs_id = lhs.id();
        let rhs_id = rhs.id();
        let res = lhs.equal(&mut rhs);
        let ghost l1 = lhs@;
        let ghost r1 = rhs@;
        variables_handler.put(i, lhs);
        variables_handler.put(j, rhs);
        proof {
            let l0 = h0.vars()[i as int]@;
            let k0 = h0.vars()[j as int]@;
            lemma_filter_sorted(l0, occurs_in(k0));
            assert forall|v: i32| inter(l0, k0).contains(v) implies k0.contains(v) by {
            }
            if inter(l0, k0).len() > 0 {
                assert(inter(l0, k0).len() <= l0.len());
                assert forall|v: i32| #[trigger] r1.contains(v) implies k0.contains(v) by {
                }
                super::comparisons::lemma_subset_len(r1, k0);
            }
            assert(variables_handler.vars() =~= h0.vars().update(i as int, variables_handler.vars()[i as int]).update(
                j as int,
                variables_handler.vars()[j as int],
            ));
        }
        let (lhs_state, rhs_state) = res?;
        if lhs_state != VariableState::NoChange {
            output.push((lhs_id, lhs_state));
        }
        if rhs_state != VariableState::NoChange {
            output.push((rhs_id, rhs_state));
        }
        proof {
            let l0 = h0.vars()[i as int]@;
            let k0 = h0.vars()[j as int]@;
            assert(output@ =~= super::comparisons::pair_entries(
                VariableId(i as usize),
                l0,
                l1,
                VariableId(j as usize),
                k0,
                r1,
            ));
        }
        if output.len() > 0 {
            self.output = Some(output);
            Ok(PropagationState::FixPoint)
        } else {
            Ok(PropagationState::NoChange)
        }
    }

    fn initialise(&mut self, variables_handler: &mut VariableHandler) -> (r: Result<
        PropagationState,
        VariableError,
    >)
        ensures
            old(self).propagation(*old(variables_handler), *final(self), *final(variables_handler), r),
    {
        self.propagate(variables_handler)
    }

    fn prepare(&mut self, states: Vec<VariableId>)
        ensures
            final(self).spec_lhs() == old(self).spec_lhs(),
            final(self).spec_rhs() == old(self).spec_rhs(),
            *final(self) == *old(self),
    {
    }

    fn result(&mut self) -> (r: Vec<(VariableId, VariableState)>)
        ensures
            final(self).spec_lhs() == old(self).spec_lhs(),
            final(self).spec_rhs() == old(self).spec_rhs(),
    {
        let mut res = None;
        std::mem::swap(&mut self.output, &mut res);
        match res {
            None => Vec::new(),
            Some(changes) => changes,
        }
    }

    fn box_clone(&self) -> (r: Self)
        ensures
            r.spec_lhs() == self.spec_lhs(), r.spec_rhs() == self.spec_rhs(),
    {
        Equal { lhs: self.lhs, rhs: self.rhs, output: copy_opt_vec(&self.output) }
    }

    fn dependencies(&self, variables_handler: &VariableHandler) -> (r: Vec<(VariableId, VariableState)>)
        ensures
            r@ == seq![
                (VariableId(variables_handler.spec_index(self.spec_lhs().place()) as usize), VariableState::ValuesChange),
                (VariableId(variables_handler.spec_index(self.spec_rhs().place()) as usize), VariableState::ValuesChange),
            ],
    {
        let l = variables_handler.get(&self.lhs).id();
        let r = variables_handler.get(&self.rhs).id();
        let mut v: Vec<(VariableId, VariableState)> = Vec::new();
        v.push((l, VariableState::ValuesChange));
        v.push((r, VariableState::ValuesChange));
        v
    }
}

/// The constraint that `lhs` and `rhs` have the same bounds.
#[derive(Debug, Clone)]
pub struct EqualBounds {
    lhs: VarView,
    rhs: VarView,
    output: Option<Vec<(VariableId, VariableState)>>,
}

impl EqualBounds {
    /// What a propagation does: the constraint before it (`self`) and after
    /// it (`after`), the variables before (`h0`) and after (`h1`), and the
    /// report `r`.
    pub open spec fn propagation(
        &self,
        h0: VariableHandler,
        after: EqualBounds,
        h1: VariableHandler,
        r: Result<PropagationState, VariableError>,
    ) -> bool {
        let i = h0.spec_index(self.spec_lhs().place());
        let j = h0.spec_index(self.spec_rhs().place());
        &&& after.spec_lhs() == self.spec_lhs()
        &&& after.spec_rhs() == self.spec_rhs()
        &&& forall|k: int| 0 <= k < h0.vars().len() && k != i && k != j ==> h1.vars()[k]
            == h0.vars()[k]
        &&& (bounds_pass(h0.vars()[i]@, h0.vars()[j]@) is None <==> r is Err)
        &&& r is Err ==> r == Err::<PropagationState, VariableError>(
            VariableError::DomainWipeout,
        )
        &&& bounds_pass(h0.vars()[i]@, h0.vars()[j]@) matches Some((a, b, _))
            ==> h1.vars()[i]@ == a && h1.vars()[j]@ == b && after.pending()
            == bounds_entries(
            VariableId(i as usize),
            h0.vars()[i]@,
            VariableId(j as usize),
            h0.vars()[j]@,
        ) && r == Ok::<PropagationState, VariableError>(
            if after.pending().len() > 0 {
                PropagationState::FixPoint
            } else {
                PropagationState::NoChange
            },
        )
    }

    /// The constraint that `lhs` and `rhs` have the same bounds.
    pub fn new(lhs: VarView, rhs: VarView) -> (r: EqualBounds)
        ensures
            r.spec_lhs() == lhs,
            r.spec_rhs() == rhs,
            r.pending().len() == 0,
    {
        EqualBounds { lhs: lhs, rhs: rhs, output: None }
    }

    pub closed spec fn spec_lhs(&self) -> VarView {
        self.lhs
    }

    pub closed spec fn spec_rhs(&self) -> VarView {
        self.rhs
    }
}

impl Constraint for EqualBounds {
    open spec fn ready(&self, h: VariableHandler) -> bool {
        distinct_pair(h, self.spec_lhs(), self.spec_rhs())
    }

    proof fn lemma_ready_shrinks(&self, h0: VariableHandler, h1: VariableHandler) {
    }

    closed spec fn pending(&self) -> Seq<(VariableId, VariableState)> {
        output_view(self.output)
    }

    fn propagate(&mut self, variables_handler: &mut VariableHandler) -> (r: Result<
        PropagationState,
        VariableError,
    >)
        ensures
            old(self).propagation(*old(variables_handler), *final(self), *final(variables_handler), r),
    {
        let ghost h0 = *variables_handler;
        let mut output: Vec<(VariableId, VariableState)> = Vec::new();
        self.output = None;
        let i = variables_handler.index(self.lhs.get_idx());
        let j = variables_handler.index(self.rhs.get_idx());
        let mut lhs = variables_handler.take(i);
        let mut rhs = variables_handler.take(j);
        let lhs_id = lhs.id();
        let rhs_id = rhs.id();
        let ghost l0 = lhs@;
        let ghost k0 = rhs@;
        let res = align_bounds(&mut lhs, &mut rhs, lhs_id, rhs_id);
        let ghost l1 = lhs@;
        let ghost r1 = rhs@;
        variables_handler.put(i, lhs);
        variables_handler.put(j, rhs);
        proof {
            assert(variables_handler.vars() =~= h0.vars().update(i as int, variables_handler.vars()[i as int]).update(
                j as int,
                variables_handler.vars()[j as int],
            ));
        }
        let out = res?;
        output = out;
        if output.len() > 0 {
            self.output = Some(output);
            Ok(PropagationState::FixPoint)
        } else {
            Ok(PropagationState::NoChange)
        }
    }

    fn initialise(&mut self, variables_handler: &mut VariableHandler) -> (r: Result<
        PropagationState,
        VariableError,
    >)
        ensures
            old(self).propagation(*old(variables_handler), *final(self), *final(variables_handler), r),
    {
        self.propagate(variables_handler)
    }

    fn prepare(&mut self, states: Vec<VariableId>)
        ensures
            final(self).spec_lhs() == old(self).spec_lhs(),
            final(self).spec_rhs() == old(self).spec_rhs(),
            *final(self) == *old(self),
    {
    }

    fn result(&mut self) -> (r: Vec<(VariableId, VariableState)>)
        ensures
            final(self).spec_lhs() == old(self).spec_lhs(),
            final(self).spec_rhs() == old(self).spec_rhs(),
    {
        let mut res = None;
        std::mem::swap(&mut self.output, &mut res);
        match res {
            None => Vec::new(),
            Some(changes) => changes,
        }
    }

    fn box_clone(&self) -> (r: Self)
        ensures
            r.spec_lhs() == self.spec_lhs(), r.spec_rhs() == self.spec_rhs(),
    {
        EqualBounds { lhs: self.lhs, rhs: self.rhs, output: copy_opt_vec(&self.output) }
    }

    fn dependencies(&self, variables_handler: &VariableHandler) -> (r: Vec<(VariableId, VariableState)>)
        ensures
            r@ == seq![
                (VariableId(variables_handler.spec_index(self.spec_lhs().place()) as usize), VariableState::ValuesChange),
                (VariableId(variables_handler.spec_index(self.spec_rhs().place()) as usize), VariableState::ValuesChange),
            ],
    {
        let l = variables_handler.get(&self.lhs).id();
        let r = variables_handler.get(&self.rhs).id();
        let mut v: Vec<(VariableId, VariableState)> = Vec::new();
        v.push((l, VariableState::ValuesChange));
        v.push((r, VariableState::ValuesChange));
        v
    }
}

/// Propagating equal bounds between `lhs` and `rhs` keeps of `lhs` exactly
/// its values between the minimum and the maximum that `rhs` had, then keeps
/// of `rhs` exactly its values between the minimum and the maximum that `lhs`
/// is left with. It fails exactly when one of the two would be left empty:
/// when no values `v1 <= w <= v2` exist with `v1` and `v2` in `lhs` within
/// the bounds of `rhs`, and `w` in `rhs`.
pub proof fn lemma_equal_bounds_exact(
    c0: EqualBounds,
    h0: VariableHandler,
    c1: EqualBounds,
    h1: VariableHandler,
    r: Result<PropagationState, VariableError>,
)
    requires
        h0.wf(),
        all_nonempty(h0.vars()),
        c0.ready(h0),
        c0.propagation(h0, c1, h1, r),
    ensures
        ({
            let i = h0.spec_index(c0.spec_lhs().place());
            let j = h0.spec_index(c0.spec_rhs().place());
            let l = h0.vars()[i]@;
            let k = h0.vars()[j]@;
            let a = h1.vars()[i]@;
            let b = h1.vars()[j]@;
            &&& r is Err <==> !exists|v1: i32, w: i32, v2: i32|
                #![trigger l.contains(v1), k.contains(w), l.contains(v2)]
                l.contains(v1) && k.contains(w) && l.contains(v2) && k[0] <= v1 <= w <= v2 <= k.last()
            &&& r is Ok ==> a.len() > 0 && b.len() > 0
            &&& r is Ok ==> forall|v: i32| #[trigger] a.contains(v) <==> (l.contains(v) && k[0] <= v
                <= k.last())
            &&& r is Ok ==> forall|w: i32| #[trigger] b.contains(w) <==> (k.contains(w) && a[0] <= w
                <= a.last())
        }),
{
    let i = h0.spec_index(c0.spec_lhs().place());
    let j = h0.spec_index(c0.spec_rhs().place());
    assert(h0.vars()[i].wf());
    assert(h0.vars()[j].wf());
    assert(h0.vars()[i]@.len() > 0);
    assert(h0.vars()[j]@.len() > 0);
    lemma_bounds_pass_exact(h0.vars()[i]@, h0.vars()[j]@);
}

/// The four steps of the alignment of bounds, with the changes they report.
fn align_bounds(
    lhs: &mut crate::variables::int_var::IntVarValues,
    rhs: &mut crate::variables::int_var::IntVarValues,
    lhs_id: VariableId,
    rhs_id: VariableId,
) -> (r: Result<Vec<(VariableId, VariableState)>, VariableError>)
    requires
        old(lhs).wf(),
        old(rhs).wf(),
        old(lhs)@.len() > 0,
        old(rhs)@.len() > 0,
        lhs_id != rhs_id,
    ensures
        final(lhs).wf(),
        final(rhs).wf(),
        final(lhs).spec_id() == old(lhs).spec_id(),
        final(rhs).spec_id() == old(rhs).spec_id(),
        forall|v: i32| #[trigger] final(lhs)@.contains(v) ==> old(lhs)@.contains(v),
        forall|v: i32| #[trigger] final(rhs)@.contains(v) ==> old(rhs)@.contains(v),
        final(lhs)@.len() <= old(lhs)@.len(),
        final(rhs)@.len() <= old(rhs)@.len(),
        (bounds_pass(old(lhs)@, old(rhs)@) is None <==> r is Err),
        r is Err ==> r == Err::<Vec<(VariableId, VariableState)>, VariableError>(
            VariableError::DomainWipeout,
        ),
        bounds_pass(old(lhs)@, old(rhs)@) matches Some((a, b, _)) ==> final(lhs)@ == a && final(rhs)@ == b && (r matches Ok(out) && out@ == bounds_entries(lhs_id, old(lhs)@, rhs_id, old(rhs)@))
            && a.len() > 0 && b.len() > 0,
        r matches Ok(out) ==> forall|k: int|
            0 <= k < out@.len() ==> ((#[trigger] out@[k]).0 == lhs_id || out@[k].0 == rhs_id) && out@[k].1
                != VariableState::NoChange && (out@[k].0 == lhs_id ==> final(lhs)@.len() < old(lhs)@.len())
                && (out@[k].0 == rhs_id ==> final(rhs)@.len() < old(rhs)@.len()),
{
    let mut output: Vec<(VariableId, VariableState)> = Vec::new();
    let ghost l0 = lhs@;
    let ghost k0 = rhs@;
    proof {
        lemma_filter_sorted(l0, |v: i32| v <= k0.last());
    }
    let state = lhs.weak_upperbound(rhs.unchecked_max())?;
    if state != VariableState::NoChange {
        output.push((lhs_id, state));
    }
    let ghost l1 = lhs@;
    proof {
        lemma_filter_sorted(k0, |v: i32| v <= l1.last());
    }
    let state = rhs.weak_upperbound(lhs.unchecked_max())?;
    if state != VariableState::NoChange {
        output.push((rhs_id, state));
    }
    let ghost k1 = rhs@;
    proof {
        lemma_filter_sorted(l1, |v: i32| v >= k1[0]);
    }
    let state = lhs.weak_lowerbound(rhs.unchecked_min())?;
    if state != VariableState::NoChange {
        output.push((lhs_id, state));
    }
    let ghost l2 = lhs@;
    proof {
        lemma_filter_sorted(k1, |v: i32| v >= l2[0]);
    }
    let state = rhs.weak_lowerbound(lhs.unchecked_min())?;
    if state != VariableState::NoChange {
        output.push((rhs_id, state));
    }
    proof {
        assert(output@ =~= bounds_entries(lhs_id, l0, rhs_id, k0));
        assert(l1.len() <= l0.len());
        assert(k1.len() <= k0.len());
        assert(l2.len() <= l1.len());
        assert(rhs@.len() <= k1.len());
    }
    Ok(output)
}

/// Propagating an equality removes no solution: a value `x` of both variables
/// stays in the domain both are left with.
pub proof fn lemma_equal_keeps_solutions(c: Equal, h: VariableHandler, x: i32)
    requires
        h.wf(),
        c.ready(h),
        h.vars()[h.spec_index(c.spec_lhs().place())]@.contains(x),
        h.vars()[h.spec_index(c.spec_rhs().place())]@.contains(x),
    ensures
        inter(
            h.vars()[h.spec_index(c.spec_lhs().place())]@,
            h.vars()[h.spec_index(c.spec_rhs().place())]@,
        ).contains(x),
{
    let i = h.spec_index(c.spec_lhs().place());
    let j = h.spec_index(c.spec_rhs().place());
    assert(h.vars()[i].wf());
    lemma_filter_sorted(h.vars()[i]@, occurs_in(h.vars()[j]@));
}

/// Propagating an alignment of bounds removes no solution: a value `x` of
/// both variables stays in both domains, and the propagation does not fail.
pub proof fn lemma_equal_bounds_keeps_solutions(c: EqualBounds, h: VariableHandler, x: i32)
    requires
        h.wf(),
        c.ready(h),
        h.vars()[h.spec_index(c.spec_lhs().place())]@.contains(x),
        h.vars()[h.spec_index(c.spec_rhs().place())]@.contains(x),
    ensures
        bounds_pass(
            h.vars()[h.spec_index(c.spec_lhs().place())]@,
            h.vars()[h.spec_index(c.spec_rhs().place())]@,
        ) matches Some((a, b, _)) && a.contains(x) && b.contains(x),
{
    let i = h.spec_index(c.spec_lhs().place());
    let j = h.spec_index(c.spec_rhs().place());
    assert(h.vars()[i].wf());
    assert(h.vars()[j].wf());
    lemma_bounds_pass_keeps(h.vars()[i]@, h.vars()[j]@, x);
}

} // verus!
