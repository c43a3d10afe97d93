use vstd::prelude::*;

use super::{PropagationState, Propagator};
use crate::variables::int_var::{bounds_fixpoint, change_state, IntVarValues};
use crate::variables::sorted::{above, at_least, at_most, below, inter, lemma_filter_sorted, lemma_sorted_bounds, sorted};
use crate::variables::{VariableError, VariableState};

verus! {

/// `FixPoint` when one of the two reported states is a change, `NoChange`
/// otherwise.
pub open spec fn pair_outcome(s: (VariableState, VariableState)) -> PropagationState {
    if s != (VariableState::NoChange, VariableState::NoChange) {
        PropagationState::FixPoint
    } else {
        PropagationState::NoChange
    }
}

/// The propagator of the arithmetic comparisons between two integer
/// variables.
#[derive(Debug, Clone, Copy)]
pub struct ArithmeticComparatorPropagator {}

impl Propagator for ArithmeticComparatorPropagator {}

impl ArithmeticComparatorPropagator {
    pub fn new() -> (r: ArithmeticComparatorPropagator) {
        ArithmeticComparatorPropagator {  }
    }

    /// Propagates `lhs == rhs`: both keep the values they have in common.
    pub fn equal(&self, lhs: &mut IntVarValues, rhs: &mut IntVarValues) -> (r: Result<
        PropagationState,
        VariableError,
    >)
        requires
            old(lhs).wf(),
            old(rhs).wf(),
        ensures
            final(lhs).wf(),
            final(rhs).wf(),
            final(lhs).spec_id() == old(lhs).spec_id(),
            final(rhs).spec_id() == old(rhs).spec_id(),
            r is Err <==> inter(old(lhs)@, old(rhs)@).len() == 0,
            r is Err ==> r == Err::<PropagationState, VariableError>(VariableError::DomainWipeout),
            r is Ok ==> final(lhs)@ == inter(old(lhs)@, old(rhs)@) && final(rhs)@ == inter(
                old(lhs)@,
                old(rhs)@,
            ) && r == Ok::<PropagationState, VariableError>(
                pair_outcome(
                    (change_state(old(lhs)@, final(lhs)@), change_state(old(rhs)@, final(rhs)@)),
                ),
            ),
    {
        let mut change = false;
        let r = lhs.equal(rhs)?;
        change = change || (r.0 != VariableState::NoChange || r.1 != VariableState::NoChange);
        if change {
            Ok(PropagationState::FixPoint)
        } else {
            Ok(PropagationState::NoChange)
        }
    }

    /// Propagates equal bounds between `lhs` and `rhs` in one pass: the upper
    /// bound of each is cut at the maximum of the other, then the lower bound
    /// of each is raised to the minimum of the other.
    pub fn equal_on_bounds(&self, lhs: &mut IntVarValues, rhs: &mut IntVarValues) -> (r: Result<
        PropagationState,
        VariableError,
    >)
        requires
            old(lhs).wf(),
            old(rhs).wf(),
            old(lhs)@.len() > 0,
            old(rhs)@.len() > 0,
        ensures
            final(lhs).wf(),
            final(rhs).wf(),
            final(lhs).spec_id() == old(lhs).spec_id(),
            final(rhs).spec_id() == old(rhs).spec_id(),
            r is Ok <==> bounds_pass(old(lhs)@, old(rhs)@) is Some,
            r is Err ==> r == Err::<PropagationState, VariableError>(VariableError::DomainWipeout),
            bounds_pass(old(lhs)@, old(rhs)@) matches Some((l, k, changed)) ==> final(lhs)@ == l
                && final(rhs)@ == k && r == Ok::<PropagationState, VariableError>(
                if changed {
                    PropagationState::FixPoint
                } else {
                    PropagationState::NoChange
                },
            ),
    {
        let mut change = false;
        let r = lhs.weak_upperbound(rhs.unchecked_max())?;
        change = change || (r != VariableState::NoChange);
        let r = rhs.weak_upperbound(lhs.unchecked_max())?;
        change = change || (r != VariableState::NoChange);
        let r = lhs.weak_lowerbound(rhs.unchecked_min())?;
        change = change || (r != VariableState::NoChange);
        let r = rhs.weak_lowerbound(lhs.unchecked_min())?;
        change = change || (r != VariableState::NoChange);
        if change {
            Ok(PropagationState::FixPoint)
        } else {
            Ok(PropagationState::NoChange)
        }
    }

    /// Propagates `lhs < rhs`.
    pub fn less_than(&self, lhs: &mut IntVarValues, rhs: &mut IntVarValues) -> (r: Result<
        PropagationState,
        VariableError,
    >)
        requires
            old(lhs).wf(),
            old(rhs).wf(),
            old(lhs)@.len() > 0,
            old(rhs)@.len() > 0,
        ensures
            final(lhs).wf(),
            final(rhs).wf(),
            final(lhs).spec_id() == old(lhs).spec_id(),
            final(rhs).spec_id() == old(rhs).spec_id(),
            r is Err <==> old(lhs)@[0] >= old(rhs)@.last(),
            r is Err ==> r == Err::<PropagationState, VariableError>(VariableError::DomainWipeout)
                && final(lhs)@ == old(lhs)@ && final(rhs)@ == old(rhs)@,
            r is Ok ==> final(lhs)@ == below(old(lhs)@, old(rhs)@.last()) && final(rhs)@ == above(
                old(rhs)@,
                old(lhs)@[0],
            ) && r == Ok::<PropagationState, VariableError>(
                pair_outcome(
                    (change_state(old(lhs)@, final(lhs)@), change_state(old(rhs)@, final(rhs)@)),
                ),
            ),
    {
        let mut change = false;
        let r = lhs.less_than(rhs)?;
        change = change || (r.0 != VariableState::NoChange || r.1 != VariableState::NoChange);
        if change {
            Ok(PropagationState::FixPoint)
        } else {
            Ok(PropagationState::NoChange)
        }
    }

    /// Propagates `lhs <= rhs`.
    pub fn less_or_equal_than(&self, lhs: &mut IntVarValues, rhs: &mut IntVarValues) -> (r: Result<
        PropagationState,
        VariableError,
    >)
        requires
            old(lhs).wf(),
            old(rhs).wf(),
            old(lhs)@.len() > 0,
            old(rhs)@.len() > 0,
        ensures
            final(lhs).wf(),
            final(rhs).wf(),
            final(lhs).spec_id() == old(lhs).spec_id(),
            final(rhs).spec_id() == old(rhs).spec_id(),
            r is Err <==> old(lhs)@[0] > old(rhs)@.last(),
            r is Err ==> r == Err::<PropagationState, VariableError>(VariableError::DomainWipeout)
                && final(lhs)@ == old(lhs)@ && final(rhs)@ == old(rhs)@,
            r is Ok ==> final(lhs)@ == at_most(old(lhs)@, old(rhs)@.last()) && final(rhs)@
                == at_least(old(rhs)@, old(lhs)@[0]) && r == Ok::<PropagationState, VariableError>(
                pair_outcome(
                    (change_state(old(lhs)@, final(lhs)@), change_state(old(rhs)@, final(rhs)@)),
                ),
            ),
    {
        let mut change = false;
        let r = lhs.less_or_equal_than(rhs)?;
        change = change || (r.0 != VariableState::NoChange || r.1 != VariableState::NoChange);
        if change {
            Ok(PropagationState::FixPoint)
        } else {
            Ok(PropagationState::NoChange)
        }
    }

    /// Propagates `lhs > rhs`.
    pub fn greater_than(&self, lhs: &mut IntVarValues, rhs: &mut IntVarValues) -> (r: Result<
        PropagationState,
        VariableError,
    >)
        requires
            old(lhs).wf(),
            old(rhs).wf(),
            old(lhs)@.len() > 0,
            old(rhs)@.len() > 0,
        ensures
            final(lhs).wf(),
            final(rhs).wf(),
            final(lhs).spec_id() == old(lhs).spec_id(),
            final(rhs).spec_id() == old(rhs).spec_id(),
            r is Err <==> old(lhs)@.last() <= old(rhs)@[0],
            r is Err ==> r == Err::<PropagationState, VariableError>(VariableError::DomainWipeout)
                && final(lhs)@ == old(lhs)@ && final(rhs)@ == old(rhs)@,
            r is Ok ==> final(lhs)@ == above(old(lhs)@, old(rhs)@[0]) && final(rhs)@ == below(
                old(rhs)@,
                old(lhs)@.last(),
            ) && r == Ok::<PropagationState, VariableError>(
                pair_outcome(
                    (change_state(old(lhs)@, final(lhs)@), change_state(old(rhs)@, final(rhs)@)),
                ),
            ),
    {
        let mut change = false;
        let r = lhs.greater_than(rhs)?;
        change = change || (r.0 != VariableState::NoChange || r.1 != VariableState::NoChange);
        if change {
            Ok(PropagationState::FixPoint)
        } else {
            Ok(PropagationState::NoChange)
        }
    }

    /// Propagates `lhs >= rhs`.
    pub fn greater_or_equal_than(&self, lhs: &mut IntVarValues, rhs: &mut IntVarValues) -> (r:
        Result<PropagationState, VariableError>)
        requires
            old(lhs).wf(),
            old(rhs).wf(),
            old(lhs)@.len() > 0,
            old(rhs)@.len() > 0,
        ensures
            final(lhs).wf(),
            final(rhs).wf(),
            final(lhs).spec_id() == old(lhs).spec_id(),
            final(rhs).spec_id() == old(rhs).spec_id(),
            r is Err <==> old(lhs)@.last() < old(rhs)@[0],
            r is Err ==> r == Err::<PropagationState, VariableError>(VariableError::DomainWipeout)
                && final(lhs)@ == old(lhs)@ && final(rhs)@ == old(rhs)@,
            r is Ok ==> final(lhs)@ == at_least(old(lhs)@, old(rhs)@[0]) && final(rhs)@
                == at_most(old(rhs)@, old(lhs)@.last()) && r == Ok::<PropagationState, VariableError>(
                pair_outcome(
                    (change_state(old(lhs)@, final(lhs)@), change_state(old(rhs)@, final(rhs)@)),
                ),
            ),
    {
        let mut change = false;
        let r = lhs.greater_or_equal_than(rhs)?;
        change = change || (r.0 != VariableState::NoChange || r.1 != VariableState::NoChange);
        if change {
            Ok(PropagationState::FixPoint)
        } else {
            Ok(PropagationState::NoChange)
        }
    }
}

/// One pass of bounds alignment between `l` and `k`: the maximum of `l` is cut
/// at that of `k`, then that of `k` at the new one of `l`; then the minimum of
/// `l` is raised to that of `k`, then that of `k` to the new one of `l`.
/// `None` when a step fails; otherwise the new domains and whether a step
/// changed something.
pub open spec fn bounds_pass(l: Seq<i32>, k: Seq<i32>) -> Option<(Seq<i32>, Seq<i32>, bool)> {
    if l[0] > k.last() {
        None
    } else {
        let l1 = at_most(l, k.last());
        if k[0] > l1.last() {
            None
        } else {
            let k1 = at_most(k, l1.last());
            if l1.last() < k1[0] {
                None
            } else {
                let l2 = at_least(l1, k1[0]);
                if k1.last() < l2[0] {
                    None
                } else {
                    let k2 = at_least(k1, l2[0]);
                    Some(
                        (
                            l2,
                            k2,
                            l1.len() != l.len() || k1.len() != k.len() || l2.len() != l1.len()
                                || k2.len() != k1.len(),
                        ),
                    )
                }
            }
        }
    }
}

/// What one pass of bounds alignment leaves, stated on the values: it fails
/// exactly when there are no values `v1 <= w <= v2` with `v1` and `v2` in
/// `l` and within the bounds of `k`, and `w` in `k`. Otherwise `l` keeps
/// exactly its values within the minimum and the maximum of `k`, and `k`
/// keeps exactly its values within the minimum and the maximum of what `l`
/// keeps.
pub proof fn lemma_bounds_pass_exact(l: Seq<i32>, k: Seq<i32>)
    requires
        sorted(l),
        sorted(k),
        l.len() > 0,
        k.len() > 0,
    ensures
        bounds_pass(l, k) is None <==> !exists|v1: i32, w: i32, v2: i32|
            #![trigger l.contains(v1), k.contains(w), l.contains(v2)]
            l.contains(v1) && k.contains(w) && l.contains(v2) && k[0] <= v1 <= w <= v2 <= k.last(),
        bounds_pass(l, k) matches Some((a, b, _)) ==> {
            &&& a.len() > 0
            &&& b.len() > 0
            &&& forall|v: i32| #[trigger] a.contains(v) <==> (l.contains(v) && k[0] <= v <= k.last())
            &&& forall|w: i32| #[trigger] b.contains(w) <==> (k.contains(w) && a[0] <= w <= a.last())
        },
{
    lemma_sorted_bounds(l);
    lemma_sorted_bounds(k);
    let kmin = k[0];
    let kmax = k.last();
    assert(l.contains(l[0]));
    assert(k.contains(kmin));
    assert(k.contains(k[k.len() - 1]));
    if l[0] > kmax {
        return;
    }
    let l1 = at_most(l, kmax);
    lemma_filter_sorted(l, |v: i32| v <= kmax);
    assert(l1.contains(l[0]));
    lemma_sorted_bounds(l1);
    let top = l1.last();
    assert(l1.contains(l1[l1.len() - 1]));
    if kmin > top {
        assert forall|v1: i32, w: i32, v2: i32|
            l.contains(v1) && k.contains(w) && l.contains(v2) implies !(kmin <= v1 <= w <= v2 <= kmax) by {
            if v2 <= kmax {
                assert(l1.contains(v2));
            }
        }
        return;
    }
    let k1 = at_most(k, top);
    lemma_filter_sorted(k, |v: i32| v <= top);
    assert(k1.contains(kmin));
    lemma_sorted_bounds(k1);
    assert(k1.contains(k1[0]));
    assert(k1[0] == kmin);
    assert(k1.contains(k1[k1.len() - 1]));
    let l2 = at_least(l1, k1[0]);
    lemma_filter_sorted(l1, |v: i32| v >= k1[0]);
    assert(l2.contains(top));
    lemma_sorted_bounds(l2);
    let m = l2[0];
    assert(l2.contains(m));
    assert(l2.contains(l2[l2.len() - 1]));
    assert(l2.last() == top);
    assert forall|v: i32| #[trigger] l2.contains(v) <==> (l.contains(v) && kmin <= v <= kmax) by {
        if l.contains(v) && kmin <= v <= kmax {
            assert(l1.contains(v));
        }
    }
    if k1.last() < m {
        assert forall|v1: i32, w: i32, v2: i32|
            l.contains(v1) && k.contains(w) && l.contains(v2) implies !(kmin <= v1 <= w <= v2 <= kmax) by {
            if kmin <= v1 <= w <= v2 <= kmax {
                assert(l2.contains(v1));
                assert(l2.contains(v2));
                assert(k1.contains(w));
            }
        }
        return;
    }
    let k2 = at_least(k1, m);
    lemma_filter_sorted(k1, |v: i32| v >= m);
    assert(k2.contains(k1[k1.len() - 1]));
    assert(l.contains(m) && k.contains(k1.last()) && l.contains(top));
}

/// A pass of bounds alignment keeps every value common to both domains:
/// when `x` is in `l` and in `k`, the pass does not fail and `x` stays in
/// both domains it leaves.
pub proof fn lemma_bounds_pass_keeps(l: Seq<i32>, k: Seq<i32>, x: i32)
    requires
        sorted(l),
        sorted(k),
        l.contains(x),
        k.contains(x),
    ensures
        bounds_pass(l, k) matches Some((a, b, _)) && a.contains(x) && b.contains(x),
{
    lemma_sorted_bounds(l);
    lemma_sorted_bounds(k);
    let l1 = at_most(l, k.last());
    lemma_filter_sorted(l, |v: i32| v <= k.last());
    assert(l1.contains(x));
    lemma_sorted_bounds(l1);
    let k1 = at_most(k, l1.last());
    lemma_filter_sorted(k, |v: i32| v <= l1.last());
    assert(k1.contains(x));
    lemma_sorted_bounds(k1);
    let l2 = at_least(l1, k1[0]);
    lemma_filter_sorted(l1, |v: i32| v >= k1[0]);
    assert(l2.contains(x));
    lemma_sorted_bounds(l2);
    let k2 = at_least(k1, l2[0]);
    lemma_filter_sorted(k1, |v: i32| v >= l2[0]);
    assert(k2.contains(x));
}

} // verus!
