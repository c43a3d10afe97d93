use vstd::prelude::*;

use super::copy_opt_vec;

use super::{all_nonempty, reports_shrink, shrinks, Constraint, PropagationState};
use crate::variables::handlers::{VarView, VariableHandler};
use crate::variables::int_var::{change_state, IntVarValues};
use crate::variables::sorted::{above, at_least, at_most, below, lemma_filter_sorted};
use crate::variables::{VariableError, VariableId, VariableState};

verus! {

/// The four arithmetic comparisons.
#[derive(Debug, Clone, Copy, PartialEq, Eq, Structural)]
pub enum ComparisonKind {
    LessThan,
    LessOrEqualThan,
    GreaterThan,
    GreaterOrEqualThan,
}

/// What a comparison leaves of the domains `l` and `k`, or `None` when it
/// fails.
pub open spec fn compare_outcome(kind: ComparisonKind, l: Seq<i32>, k: Seq<i32>) -> Option<
    (Seq<i32>, Seq<i32>),
> {
    match kind {
        ComparisonKind::LessThan => if l[0] >= k.last() {
            None
        } else {
            Some((below(l, k.last()), above(k, l[0])))
        },
        ComparisonKind::LessOrEqualThan => if l[0] > k.last() {
            None
        } else {
            Some((at_most(l, k.last()), at_least(k, l[0])))
        },
        ComparisonKind::GreaterThan => if l.last() <= k[0] {
            None
        } else {
            Some((above(l, k[0]), below(k, l.last())))
        },
        ComparisonKind::GreaterOrEqualThan => if l.last() < k[0] {
            None
        } else {
            Some((at_least(l, k[0]), at_most(k, l.last())))
        },
    }
}

/// Whether the values `x` and `y` satisfy the comparison `x kind y`.
pub open spec fn compare_holds(kind: ComparisonKind, x: i32, y: i32) -> bool {
    match kind {
        ComparisonKind::LessThan => x < y,
        ComparisonKind::LessOrEqualThan => x <= y,
        ComparisonKind::GreaterThan => x > y,
        ComparisonKind::GreaterOrEqualThan => x >= y,
    }
}

/// A comparison removes no solution: when `x` in `l` and `y` in `k` satisfy
/// it, it does not fail, and `x` and `y` stay in the domains it leaves.
pub proof fn lemma_compare_keeps_solutions(kind: ComparisonKind, l: Seq<i32>, k: Seq<i32>, x: i32, y: i32)
    requires
        crate::variables::sorted::sorted(l),
        crate::variables::sorted::sorted(k),
        l.contains(x),
        k.contains(y),
        compare_holds(kind, x, y),
    ensures
        compare_outcome(kind, l, k) matches Some((a, b)) && a.contains(x) && b.contains(y),
{
    crate::variables::sorted::lemma_sorted_bounds(l);
    crate::variables::sorted::lemma_sorted_bounds(k);
    match kind {
        ComparisonKind::LessThan => {
            lemma_filter_sorted(l, |v: i32| v < k.last());
            lemma_filter_sorted(k, |v: i32| v > l[0]);
        },
        ComparisonKind::LessOrEqualThan => {
            lemma_filter_sorted(l, |v: i32| v <= k.last());
            lemma_filter_sorted(k, |v: i32| v >= l[0]);
        },
        ComparisonKind::GreaterThan => {
            lemma_filter_sorted(l, |v: i32| v > k[0]);
            lemma_filter_sorted(k, |v: i32| v < l.last());
        },
        ComparisonKind::GreaterOrEqualThan => {
            lemma_filter_sorted(l, |v: i32| v >= k[0]);
            lemma_filter_sorted(k, |v: i32| v <= l.last());
        },
    }
}

/// The changes reported for two variables: one entry for each whose domain
/// changed, the first variable first.
pub open spec fn pair_entries(
    a: VariableId,
    a0: Seq<i32>,
    a1: Seq<i32>,
    b: VariableId,
    b0: Seq<i32>,
    b1: Seq<i32>,
) -> Seq<(VariableId, VariableState)> {
    let first = if a1.len() != a0.len() {
        seq![(a, change_state(a0, a1))]
    } else {
        Seq::<(VariableId, VariableState)>::empty()
    };
    if b1.len() != b0.len() {
        first.push((b, change_state(b0, b1)))
    } else {
        first
    }
}

/// Applies a comparison to two variables.
fn compare(kind: ComparisonKind, lhs: &mut IntVarValues, rhs: &mut IntVarValues) -> (r: Result<
    (VariableState, VariableState),
    VariableError,
>)
    requires
        old(lhs).wf(),
        old(rhs).wf(),
        old(lhs)@.len() > 0,
        old(rhs)@.len() > 0,
    ensures
        final(lhs).wf(),
        final(rhs).wf(),
        final(lhs).spec_id() == old(lhs).spec_id(),
        final(rhs).spec_id() == old(rhs).spec_id(),
        compare_outcome(kind, old(lhs)@, old(rhs)@) is None ==> r is Err && final(lhs)@ == old(lhs)@
            && final(rhs)@ == old(rhs)@,
        compare_outcome(kind, old(lhs)@, old(rhs)@) matches Some((a, b)) ==> r == Ok::<
            (VariableState, VariableState),
            VariableError,
        >((change_state(old(lhs)@, a), change_state(old(rhs)@, b))) && final(lhs)@ == a
            && final(rhs)@ == b && a.len() > 0 && b.len() > 0,
{
    match kind {
        ComparisonKind::LessThan => lhs.less_than(rhs),
        ComparisonKind::LessOrEqualThan => lhs.less_or_equal_than(rhs),
        ComparisonKind::GreaterThan => lhs.greater_than(rhs),
        ComparisonKind::GreaterOrEqualThan => lhs.greater_or_equal_than(rhs),
    }
}

/// The domains of a sequence of variables.
pub open spec fn doms_of(vars: Seq<IntVarValues>) -> Seq<Seq<i32>> {
    vars.map_values(|v: IntVarValues| v@)
}

/// What a comparison keeps of each domain is part of it, in canonical form.
pub proof fn lemma_outcome_within(kind: ComparisonKind, l: Seq<i32>, k: Seq<i32>)
    requires
        crate::variables::sorted::sorted(l),
        crate::variables::sorted::sorted(k),
    ensures
        compare_outcome(kind, l, k) matches Some((a, b)) ==> {
            &&& crate::variables::sorted::sorted(a)
            &&& crate::variables::sorted::sorted(b)
            &&& a.len() <= l.len()
            &&& b.len() <= k.len()
            &&& forall|v: i32| #[trigger] a.contains(v) ==> l.contains(v)
            &&& forall|v: i32| #[trigger] b.contains(v) ==> k.contains(v)
        },
{
    if l.len() > 0 && k.len() > 0 {
        lemma_filter_sorted(l, |v: i32| v < k.last());
        lemma_filter_sorted(l, |v: i32| v <= k.last());
        lemma_filter_sorted(l, |v: i32| v > k[0]);
        lemma_filter_sorted(l, |v: i32| v >= k[0]);
        lemma_filter_sorted(k, |v: i32| v < l.last());
        lemma_filter_sorted(k, |v: i32| v <= l.last());
        lemma_filter_sorted(k, |v: i32| v > l[0]);
        lemma_filter_sorted(k, |v: i32| v >= l[0]);
    } else {
        lemma_filter_sorted(l, |v: i32| v < k.last());
        lemma_filter_sorted(l, |v: i32| v <= k.last());
        lemma_filter_sorted(l, |v: i32| v > k[0]);
        lemma_filter_sorted(l, |v: i32| v >= k[0]);
        lemma_filter_sorted(k, |v: i32| v < l.last());
        lemma_filter_sorted(k, |v: i32| v <= l.last());
        lemma_filter_sorted(k, |v: i32| v > l[0]);
        lemma_filter_sorted(k, |v: i32| v >= l[0]);
    }
}

/// Applies a comparison to the `i`-th and `j`-th variables of a handler.
pub fn compare_at(kind: ComparisonKind, h: &mut VariableHandler, i: usize, j: usize) -> (r: Result<
    (VariableState, VariableState),
    VariableError,
>)
    requires
        old(h).wf(),
        i < old(h).vars().len(),
        j < old(h).vars().len(),
        i != j,
        old(h).vars()[i as int]@.len() > 0,
        old(h).vars()[j as int]@.len() > 0,
    ensures
        final(h).wf(),
        final(h).same_tables(old(h)),
        compare_outcome(kind, old(h).vars()[i as int]@, old(h).vars()[j as int]@) is None ==> r
            == Err::<(VariableState, VariableState), VariableError>(VariableError::DomainWipeout)
            && doms_of(final(h).vars()) == doms_of(old(h).vars()),
        compare_outcome(kind, old(h).vars()[i as int]@, old(h).vars()[j as int]@) matches Some((a, b))
            ==> r == Ok::<(VariableState, VariableState), VariableError>(
            (change_state(old(h).vars()[i as int]@, a), change_state(old(h).vars()[j as int]@, b)),
        ) && doms_of(final(h).vars()) == doms_of(old(h).vars()).update(i as int, a).update(j as int, b)
            && a.len() > 0 && b.len() > 0,
{
    let ghost h0 = *h;
    let mut lhs = h.take(i);
    let mut rhs = h.take(j);
    let res = compare(kind, &mut lhs, &mut rhs);
    h.put(i, lhs);
    h.put(j, rhs);
    proof {
        assert(doms_of(h.vars()) =~= doms_of(h0.vars()).update(i as int, h.vars()[i as int]@).update(
            j as int,
            h.vars()[j as int]@,
        ));
        if res is Err {
            assert(doms_of(h.vars()) =~= doms_of(h0.vars()));
        }
    }
    match res {
        Ok(states) => Ok(states),
        Err(_) => Err(VariableError::DomainWipeout),
    }
}

/// Both views exist in `h` and designate distinct variables.
pub open spec fn distinct_pair(h: VariableHandler, a: VarView, b: VarView) -> bool {
    &&& h.valid(a.place())
    &&& h.valid(b.place())
    &&& h.spec_index(a.place()) != h.spec_index(b.place())
}

/// A comparison `lhs op rhs` between two variables.
#[derive(Debug, Clone)]
pub struct Comparison {
    kind: ComparisonKind,
    lhs: VarView,
    rhs: VarView,
    output: Option<Vec<(VariableId, VariableState)>>,
}

impl Comparison {
    /// What a propagation does: the constraint before it (`self`) and after
    /// it (`after`), the variables before (`h0`) and after (`h1`), and the
    /// report `r`.
    pub open spec fn propagation(
        &self,
        h0: VariableHandler,
        after: Comparison,
        h1: VariableHandler,
        r: Result<PropagationState, VariableError>,
    ) -> bool {
        let i = h0.spec_index(self.spec_lhs().place());
        let j = h0.spec_index(self.spec_rhs().place());
        &&& after.spec_kind() == self.spec_kind()
        &&& after.spec_lhs() == self.spec_lhs()
        &&& after.spec_rhs() == self.spec_rhs()
        &&& forall|k: int| 0 <= k < h0.vars().len() && k != i && k != j ==> h1.vars()[k]
            == h0.vars()[k]
        &&& (self.outcome(h0) is None <==> r is Err)
        &&& r is Err ==> r == Err::<PropagationState, VariableError>(
            VariableError::DomainWipeout,
        ) && h1.vars()[i]@ == h0.vars()[i]@ && h1.vars()[j]@ == h0.vars()[j]@
        &&& self.outcome(h0) matches Some((a, b)) ==> h1.vars()[i]@ == a
            && h1.vars()[j]@ == b && after.pending() == pair_entries(
            VariableId(i as usize),
            h0.vars()[i]@,
            a,
            VariableId(j as usize),
            h0.vars()[j]@,
            b,
        ) && r == Ok::<PropagationState, VariableError>(
            if after.pending().len() > 0 {
                PropagationState::FixPoint
            } else {
                PropagationState::NoChange
            },
        )
    }

    /// The constraint `lhs op rhs`, with `op` given by `kind`.
    pub fn new(kind: ComparisonKind, lhs: VarView, rhs: VarView) -> (r: Comparison)
        ensures
            r.spec_kind() == kind,
            r.spec_lhs() == lhs,
            r.spec_rhs() == rhs,
            r.pending().len() == 0,
    {
        Comparison { kind: kind, lhs: lhs, rhs: rhs, output: None }
    }

    pub closed spec fn spec_kind(&self) -> ComparisonKind {
        self.kind
    }

    pub closed spec fn spec_lhs(&self) -> VarView {
        self.lhs
    }

    pub closed spec fn spec_rhs(&self) -> VarView {
        self.rhs
    }

    /// The outcome of the comparison on the variables of `h`.
    pub open spec fn outcome(&self, h: VariableHandler) -> Option<(Seq<i32>, Seq<i32>)> {
        compare_outcome(
            self.spec_kind(),
            h.vars()[h.spec_index(self.spec_lhs().place())]@,
            h.vars()[h.spec_index(self.spec_rhs().place())]@,
        )
    }
}

/// Propagating a comparison removes no solution: when a value `x` of its
/// left variable and a value `y` of its right variable satisfy it, the
/// propagation does not fail and keeps both.
pub proof fn lemma_comparison_keeps_solutions(c: Comparison, h: VariableHandler, x: i32, y: i32)
    requires
        h.wf(),
        c.ready(h),
        h.vars()[h.spec_index(c.spec_lhs().place())]@.contains(x),
        h.vars()[h.spec_index(c.spec_rhs().place())]@.contains(y),
        compare_holds(c.spec_kind(), x, y),
    ensures
        c.outcome(h) matches Some((a, b)) && a.contains(x) && b.contains(y),
{
    let i = h.spec_index(c.spec_lhs().place());
    let j = h.spec_index(c.spec_rhs().place());
    assert(h.vars()[i].wf());
    assert(h.vars()[j].wf());
    lemma_compare_keeps_solutions(c.spec_kind(), h.vars()[i]@, h.vars()[j]@, x, y);
}

/// On sorted, non-empty domains `l` and `k`, a comparison fails exactly when
/// no pair of their values satisfies it; otherwise it keeps of each domain
/// exactly the values that some value of the other domain supports.
proof fn lemma_outcome_supports(kind: ComparisonKind, l: Seq<i32>, k: Seq<i32>)
    requires
        crate::variables::sorted::sorted(l),
        crate::variables::sorted::sorted(k),
        l.len() > 0,
        k.len() > 0,
    ensures
        compare_outcome(kind, l, k) is None <==> !exists|x: i32, y: i32|
            #![trigger l.contains(x), k.contains(y)]
            l.contains(x) && k.contains(y) && compare_holds(kind, x, y),
        compare_outcome(kind, l, k) matches Some((a, b)) ==> {
            &&& forall|x: i32| #[trigger] a.contains(x) <==> (l.contains(x) && exists|y: i32|
                #[trigger] k.contains(y) && compare_holds(kind, x, y))
            &&& forall|y: i32| #[trigger] b.contains(y) <==> (k.contains(y) && exists|x: i32|
                #[trigger] l.contains(x) && compare_holds(kind, x, y))
        },
{
    crate::variables::sorted::lemma_sorted_bounds(l);
    crate::variables::sorted::lemma_sorted_bounds(k);
    let lo = l[0];
    let hi = l.last();
    let ko = k[0];
    let ki = k.last();
    assert(l.contains(lo));
    assert(l.contains(l[l.len() - 1]));
    assert(k.contains(ko));
    assert(k.contains(k[k.len() - 1]));
    lemma_outcome_within(kind, l, k);
    match kind {
        ComparisonKind::LessThan => {
            lemma_filter_sorted(l, |v: i32| v < ki);
            lemma_filter_sorted(k, |v: i32| v > lo);
        },
        ComparisonKind::LessOrEqualThan => {
            lemma_filter_sorted(l, |v: i32| v <= ki);
            lemma_filter_sorted(k, |v: i32| v >= lo);
        },
        ComparisonKind::GreaterThan => {
            lemma_filter_sorted(l, |v: i32| v > ko);
            lemma_filter_sorted(k, |v: i32| v < hi);
        },
        ComparisonKind::GreaterOrEqualThan => {
            lemma_filter_sorted(l, |v: i32| v >= ko);
            lemma_filter_sorted(k, |v: i32| v <= hi);
        },
    }
    if compare_outcome(kind, l, k) is Some {
        assert(compare_holds(kind, lo, ki) || compare_holds(kind, hi, ko));
    }
    if let Some((a, b)) = compare_outcome(kind, l, k) {
        assert forall|x: i32| #[trigger] a.contains(x) <==> (l.contains(x) && exists|y: i32|
            #[trigger] k.contains(y) && compare_holds(kind, x, y)) by {
            if a.contains(x) {
                assert(compare_holds(kind, x, ko) || compare_holds(kind, x, ki));
            }
        }
        assert forall|y: i32| #[trigger] b.contains(y) <==> (k.contains(y) && exists|x: i32|
            #[trigger] l.contains(x) && compare_holds(kind, x, y)) by {
            if b.contains(y) {
                assert(compare_holds(kind, lo, y) || compare_holds(kind, hi, y));
            }
        }
    }
}

/// Propagating a comparison `lhs op rhs` fails exactly when no value of
/// `lhs` and value of `rhs` satisfy `op`; when it succeeds, a value stays in
/// the domain of `lhs` exactly when some value of `rhs` satisfies `op` with
/// it, and a value stays in the domain of `rhs` exactly when some value of
/// `lhs` does. So `x > y` keeps of `x` the values above the minimum of `y`,
/// keeps of `y` the values below the maximum of `x`, and fails when the
/// maximum of `x` is at most the minimum of `y`.
pub proof fn lemma_comparison_supports(
    c0: Comparison,
    h0: VariableHandler,
    c1: Comparison,
    h1: VariableHandler,
    r: Result<PropagationState, VariableError>,
)
    requires
        h0.wf(),
        all_nonempty(h0.vars()),
        c0.ready(h0),
        c0.propagation(h0, c1, h1, r),
    ensures
        ({
            let i = h0.spec_index(c0.spec_lhs().place());
            let j = h0.spec_index(c0.spec_rhs().place());
            let kind = c0.spec_kind();
            let x0 = h0.vars()[i]@;
            let y0 = h0.vars()[j]@;
            &&& r is Err <==> !exists|x: i32, y: i32|
                #![trigger x0.contains(x), y0.contains(y)]
                x0.contains(x) && y0.contains(y) && compare_holds(kind, x, y)
            &&& r is Ok ==> forall|x: i32| #[trigger] h1.vars()[i]@.contains(x) <==> (x0.contains(x)
                && exists|y: i32| #[trigger] y0.contains(y) && compare_holds(kind, x, y))
            &&& r is Ok ==> forall|y: i32| #[trigger] h1.vars()[j]@.contains(y) <==> (y0.contains(y)
                && exists|x: i32| #[trigger] x0.contains(x) && compare_holds(kind, x, y))
        }),
{
    let i = h0.spec_index(c0.spec_lhs().place());
    let j = h0.spec_index(c0.spec_rhs().place());
    assert(h0.vars()[i].wf());
    assert(h0.vars()[j].wf());
    assert(h0.vars()[i]@.len() > 0);
    assert(h0.vars()[j]@.len() > 0);
    lemma_outcome_supports(c0.spec_kind(), h0.vars()[i]@, h0.vars()[j]@);
}

/// The pending changes held in an output slot.
pub open spec fn output_view(o: Option<Vec<(VariableId, VariableState)>>) -> Seq<
    (VariableId, VariableState),
> {
    match o {
        Some(v) => v@,
        None => Seq::empty(),
    }
}

impl Constraint for Comparison {
    open spec fn ready(&self, h: VariableHandler) -> bool {
        distinct_pair(h, self.spec_lhs(), self.spec_rhs())
    }

    proof fn lemma_ready_shrinks(&self, h0: VariableHandler, h1: VariableHandler) {
    }

    closed spec fn pending(&self) -> Seq<(VariableId, VariableState)> {
        output_view(self.output)
    }

    fn propagate(&mut self, variables_handler: &mut VariableHandler) -> (r: Result<
        PropagationState,
        VariableError,
    >)
        ensures
            old(self).propagation(*old(variables_handler), *final(self), *final(variables_handler), r),
    {
        let ghost h0 = *variables_handler;
        let mut output: Vec<(VariableId, VariableState)> = Vec::new();
        self.output = None;
        let i = variables_handler.index(self.lhs.get_idx());
        let j = variables_handler.index(self.rhs.get_idx());
        let mut lhs = variables_handler.take(i);
        let mut rhs = variables_handler.take(j);
        let lhs_id = lhs.id();
        let rhs_id = rhs.id();
        let res = compare(self.kind, &mut lhs, &mut rhs);
        let ghost l1 = lhs@;
        let ghost r1 = rhs@;
        variables_handler.put(i, lhs);
        variables_handler.put(j, rhs);
        proof {
            let l0 = h0.vars()[i as int]@;
            let k0 = h0.vars()[j as int]@;
            lemma_filter_sorted(l0, |v: i32| v < k0.last());
            lemma_filter_sorted(l0, |v: i32| v <= k0.last());
            lemma_filter_sorted(l0, |v: i32| v > k0[0]);
            lemma_filter_sorted(l0, |v: i32| v >= k0[0]);
            lemma_filter_sorted(k0, |v: i32| v < l0.last());
            lemma_filter_sorted(k0, |v: i32| v <= l0.last());
            lemma_filter_sorted(k0, |v: i32| v > l0[0]);
            lemma_filter_sorted(k0, |v: i32| v >= l0[0]);
            assert(variables_handler.vars() =~= h0.vars().update(i as int, variables_handler.vars()[i as int]).update(
                j as int,
                variables_handler.vars()[j as int],
            ));
        }
        let (lhs_state, rhs_state) = res?;
        if lhs_state != VariableState::NoChange {
            output.push((lhs_id, lhs_state));
        }
        if rhs_state != VariableState::NoChange {
            output.push((rhs_id, rhs_state));
        }
        proof {
            let l0 = h0.vars()[i as int]@;
            let k0 = h0.vars()[j as int]@;
            assert(output@ =~= pair_entries(
                VariableId(i as usize),
                l0,
                l1,
                VariableId(j as usize),
                k0,
                r1,
            ));
        }
        if output.len() > 0 {
            self.output = Some(output);
            Ok(PropagationState::FixPoint)
        } else {
            Ok(PropagationState::NoChange)
        }
    }

    fn initialise(&mut self, variables_handler: &mut VariableHandler) -> (r: Result<
        PropagationState,
        VariableError,
    >)
        ensures
            old(self).propagation(*old(variables_handler), *final(self), *final(variables_handler), r),
    {
        self.propagate(variables_handler)
    }

    fn prepare(&mut self, states: Vec<VariableId>)
        ensures
            final(self).spec_kind() == old(self).spec_kind(),
            final(self).spec_lhs() == old(self).spec_lhs(),
            final(self).spec_rhs() == old(self).spec_rhs(),
            *final(self) == *old(self),
    {
    }

    fn result(&mut self) -> (r: Vec<(VariableId, VariableState)>)
        ensures
            final(self).spec_kind() == old(self).spec_kind(),
            final(self).spec_lhs() == old(self).spec_lhs(),
            final(self).spec_rhs() == old(self).spec_rhs(),
    {
        let mut res = None;
        std::mem::swap(&mut self.output, &mut res);
        match res {
            None => Vec::new(),
            Some(changes) => changes,
        }
    }

    fn box_clone(&self) -> (r: Self)
        ensures
            r.spec_kind() == self.spec_kind(), r.spec_lhs() == self.spec_lhs(), r.spec_rhs() == self.spec_rhs(),
    {
        let r = Comparison { kind: self.kind, lhs: self.lhs, rhs: self.rhs, output: copy_opt_vec(&self.output) };
        proof {
            assert forall|h: VariableHandler| self.ready(h) implies #[trigger] r.ready(h) by {
            }
        }
        r
    }

    fn dependencies(&self, variables_handler: &VariableHandler) -> (r: Vec<(VariableId, VariableState)>)
        ensures
            r@ == seq![
                (VariableId(variables_handler.spec_index(self.spec_lhs().place()) as usize), VariableState::ValuesChange),
                (VariableId(variables_handler.spec_index(self.spec_rhs().place()) as usize), VariableState::ValuesChange),
            ],
    {
        let l = variables_handler.get(&self.lhs).id();
        let r = variables_handler.get(&self.rhs).id();
        let mut v: Vec<(VariableId, VariableState)> = Vec::new();
        v.push((l, VariableState::ValuesChange));
        v.push((r, VariableState::ValuesChange));
        v
    }
}

/// A sequence without duplicates whose elements all occur in `t` is no
/// longer than `t`.
pub proof fn lemma_subset_len(s: Seq<i32>, t: Seq<i32>)
    requires
        crate::variables::sorted::sorted(s),
        crate::variables::sorted::sorted(t),
        forall|v: i32| #[trigger] s.contains(v) ==> t.contains(v),
    ensures
        s.len() <= t.len(),
{
    s.unique_seq_to_set();
    t.unique_seq_to_set();
    assert(s.no_duplicates()) by {
        assert forall|i: int, j: int| 0 <= i < s.len() && 0 <= j < s.len() && i != j implies s[i] != s[j] by {
            if i < j {
                assert(s[i] < s[j]);
            } else {
                assert(s[j] < s[i]);
            }
        }
    }
    assert(t.no_duplicates()) by {
        assert forall|i: int, j: int| 0 <= i < t.len() && 0 <= j < t.len() && i != j implies t[i] != t[j] by {
            if i < j {
                assert(t[i] < t[j]);
            } else {
                assert(t[j] < t[i]);
            }
        }
    }
    s.unique_seq_to_set();
    t.unique_seq_to_set();
    assert(s.to_set().subset_of(t.to_set()));
    vstd::set_lib::lemma_len_subset(s.to_set(), t.to_set());
}

} // verus!
