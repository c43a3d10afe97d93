use vstd::prelude::*;

use super::copy_opt_vec;

use super::comparisons::{
    compare_at, compare_outcome, doms_of, lemma_outcome_within, output_view, pair_entries,
    ComparisonKind,
};
use super::{
    all_nonempty, lemma_reports_shrink_from, lemma_reports_shrink_trans, lemma_shrinks_trans,
    reports_shrink, shrinks, Constraint, PropagationState,
};
use crate::variables::handlers::{ArrayOfVarsView, VariableHandler};
use crate::variables::sorted::{above, below, lemma_filter_sorted, lemma_is_filter, lemma_sorted_bounds, sorted};
use crate::variables::{VariableError, VariableId, VariableState};

verus! {

/// The positions, within an array of `n` variables, of the left variable of
/// each pair that the propagation of `Increasing` visits: first
/// `0, 1, ..., n - 2`, then back `n - 2, ..., 1, 0`.
pub open spec fn increasing_steps(n: int) -> Seq<int> {
    Seq::new(
        (2 * (n - 1)) as nat,
        |k: int|
            if k < n - 1 {
                k
            } else {
                2 * (n - 1) - 1 - k
            },
    )
}

/// Runs `left < right` on the pairs `(ps[i], ps[i + 1])` for the positions
/// `i` of `steps`, in order, from the domains `doms`. `None` when one of them
/// fails; otherwise the domains left and the changes reported.
pub open spec fn chain_run(doms: Seq<Seq<i32>>, ps: Seq<usize>, steps: Seq<int>) -> Option<
    (Seq<Seq<i32>>, Seq<(VariableId, VariableState)>),
>
    decreases steps.len(),
{
    if steps.len() == 0 {
        Some((doms, Seq::empty()))
    } else {
        match chain_run(doms, ps, steps.drop_last()) {
            None => None,
            Some((d, out)) => {
                let p = ps[steps.last()] as int;
                let q = ps[steps.last() + 1] as int;
                match compare_outcome(ComparisonKind::LessThan, d[p], d[q]) {
                    None => None,
                    Some((a, b)) => Some(
                        (
                            d.update(p, a).update(q, b),
                            out + pair_entries(VariableId(p as usize), d[p], a, VariableId(q as usize), d[q], b),
                        ),
                    ),
                }
            },
        }
    }
}

/// The domains that a successful run leaves, or `doms` when it fails.
pub open spec fn chain_doms(doms: Seq<Seq<i32>>, ps: Seq<usize>, steps: Seq<int>) -> Seq<Seq<i32>> {
    match chain_run(doms, ps, steps) {
        Some((d, _)) => d,
        None => doms,
    }
}

/// One step `left < right` keeps the minimum of the left domain and the
/// maximum of the right one, brings the maximum of the left below that of
/// the right and the minimum of the right above that of the left, and leaves
/// the right domain alone when its minimum is already above.
proof fn lemma_less_step(l: Seq<i32>, k: Seq<i32>)
    requires
        sorted(l),
        sorted(k),
        l.len() > 0,
        k.len() > 0,
        l[0] < k.last(),
    ensures
        sorted(below(l, k.last())),
        below(l, k.last()).len() > 0,
        below(l, k.last())[0] == l[0],
        below(l, k.last()).last() < k.last(),
        sorted(above(k, l[0])),
        above(k, l[0]).len() > 0,
        above(k, l[0]).last() == k.last(),
        above(k, l[0])[0] > l[0],
        l[0] < k[0] ==> above(k, l[0]) == k,
{
    let a = below(l, k.last());
    let b = above(k, l[0]);
    lemma_sorted_bounds(l);
    lemma_sorted_bounds(k);
    lemma_filter_sorted(l, |v: i32| v < k.last());
    lemma_filter_sorted(k, |v: i32| v > l[0]);
    assert(l.contains(l[0]));
    assert(a.contains(l[0]));
    lemma_sorted_bounds(a);
    assert(a.contains(a[0]));
    assert(a.contains(a.last()));
    assert(k.contains(k.last()));
    assert(b.contains(k.last()));
    lemma_sorted_bounds(b);
    assert(b.contains(b[0]));
    assert(b.contains(b.last()));
    if l[0] < k[0] {
        assert forall|v: i32| k.contains(v) <==> (k.contains(v) && v > l[0]) by {
        }
        lemma_is_filter(k, |v: i32| v > l[0], k);
    }
}

/// What holds of the domains after the first `t` steps of the run over an
/// array of `n` variables: the minima increase along the pairs the forward
/// pass has visited, and the maxima along those the backward pass has.
spec fn chain_progress(d: Seq<Seq<i32>>, doms: Seq<Seq<i32>>, ps: Seq<usize>, n: int, t: int) -> bool {
    &&& d.len() == doms.len()
    &&& forall|i: int| 0 <= i < n ==> sorted(#[trigger] d[ps[i] as int]) && d[ps[i] as int].len() > 0
    &&& forall|i: int| 0 <= i < n - 1 && i < t ==> #[trigger] d[ps[i] as int][0] < d[ps[i + 1] as int][0]
    &&& forall|i: int|
        0 <= i < n - 1 && i >= 2 * (n - 1) - t ==> #[trigger] d[ps[i] as int].last() < d[ps[i + 1] as int].last()
}

proof fn lemma_chain_progress(doms: Seq<Seq<i32>>, ps: Seq<usize>, t: int)
    requires
        ps.len() >= 1,
        forall|i: int| 0 <= i < ps.len() ==> #[trigger] ps[i] < doms.len() && sorted(doms[ps[i] as int])
            && doms[ps[i] as int].len() > 0,
        forall|i: int, j: int| 0 <= i < j < ps.len() ==> ps[i] != ps[j],
        0 <= t <= 2 * (ps.len() - 1),
        chain_run(doms, ps, increasing_steps(ps.len() as int).take(t)) is Some,
    ensures
        chain_progress(
            chain_doms(doms, ps, increasing_steps(ps.len() as int).take(t)),
            doms,
            ps,
            ps.len() as int,
            t,
        ),
    decreases t,
{
    let n = ps.len() as int;
    let steps = increasing_steps(n);
    if t == 0 {
        assert(steps.take(0) =~= Seq::<int>::empty());
        assert forall|i: int| 0 <= i < n implies sorted(#[trigger] doms[ps[i] as int]) && doms[ps[i] as int].len() > 0 by {
        }
    } else {
        let prev = steps.take(t - 1);
        assert(steps.take(t).drop_last() =~= prev);
        assert(steps.take(t).last() == steps[t - 1]);
        lemma_chain_progress(doms, ps, t - 1);
        let d = chain_doms(doms, ps, prev);
        let j = steps[t - 1];
        assert(0 <= j < n - 1);
        let p = ps[j] as int;
        let q = ps[j + 1] as int;
        assert(sorted(d[ps[j] as int]) && d[ps[j] as int].len() > 0);
        assert(sorted(d[ps[j + 1] as int]) && d[ps[j + 1] as int].len() > 0);
        assert(d[p][0] < d[q].last());
        lemma_less_step(d[p], d[q]);
        let a = below(d[p], d[q].last());
        let b = above(d[q], d[p][0]);
        let d1 = d.update(p, a).update(q, b);
        assert(chain_doms(doms, ps, steps.take(t)) == d1);
        assert(p != q);
        assert forall|i: int| 0 <= i < n && ps[i] != p && ps[i] != q implies #[trigger] d1[ps[i] as int] == d[ps[i] as int] by {
        }
        if t - 1 < n - 1 {
            assert(j == t - 1);
            assert forall|i: int| 0 <= i < n implies sorted(#[trigger] d1[ps[i] as int]) && d1[ps[i] as int].len() > 0 by {
            }
            assert forall|i: int| 0 <= i < n - 1 && i < t implies #[trigger] d1[ps[i] as int][0] < d1[ps[i + 1] as int][0] by {
                if i < j {
                    assert(ps[i] != q);
                    if i + 1 < j {
                        assert(ps[i + 1] != p && ps[i + 1] != q);
                    }
                }
            }
        } else {
            assert(j == 2 * (n - 1) - 1 - (t - 1));
            assert(d[p][0] < d[q][0]);
            assert(b == d[q]);
            assert forall|i: int| 0 <= i < n implies sorted(#[trigger] d1[ps[i] as int]) && d1[ps[i] as int].len() > 0 by {
            }
            assert forall|i: int| 0 <= i < n - 1 && i < t implies #[trigger] d1[ps[i] as int][0] < d1[ps[i + 1] as int][0] by {
                assert(d[ps[i] as int][0] < d[ps[i + 1] as int][0]);
                if ps[i] == p {
                    assert(d1[p][0] == d[p][0]);
                }
                if ps[i + 1] == p {
                    assert(d1[p][0] == d[p][0]);
                }
            }
            assert forall|i: int|
                0 <= i < n - 1 && i >= 2 * (n - 1) - t implies #[trigger] d1[ps[i] as int].last() < d1[ps[i + 1] as int].last() by {
                if i > j {
                    assert(ps[i] != p);
                    assert(ps[i + 1] != p);
                    assert(d[ps[i] as int].last() < d[ps[i + 1] as int].last());
                }
            }
        }
    }
}

/// After the forward and the backward pass, both bounds of the domains of
/// the array increase strictly from each variable to the next.
pub proof fn lemma_chain_bounds_increase(doms: Seq<Seq<i32>>, ps: Seq<usize>)
    requires
        ps.len() >= 1,
        forall|i: int| 0 <= i < ps.len() ==> #[trigger] ps[i] < doms.len() && sorted(doms[ps[i] as int])
            && doms[ps[i] as int].len() > 0,
        forall|i: int, j: int| 0 <= i < j < ps.len() ==> ps[i] != ps[j],
        chain_run(doms, ps, increasing_steps(ps.len() as int)) is Some,
    ensures
        forall|i: int|
            0 <= i < ps.len() - 1 ==> #[trigger] chain_doms(doms, ps, increasing_steps(ps.len() as int))[ps[i] as int][0]
                < chain_doms(doms, ps, increasing_steps(ps.len() as int))[ps[i + 1] as int][0] && chain_doms(
                doms,
                ps,
                increasing_steps(ps.len() as int),
            )[ps[i] as int].last() < chain_doms(doms, ps, increasing_steps(ps.len() as int))[ps[i + 1] as int].last(),
{
    let n = ps.len() as int;
    let steps = increasing_steps(n);
    assert(steps.take(2 * (n - 1)) =~= steps);
    lemma_chain_progress(doms, ps, 2 * (n - 1));
}

/// Once a prefix of the steps fails, the whole run fails.
proof fn lemma_chain_fails(doms: Seq<Seq<i32>>, ps: Seq<usize>, steps: Seq<int>, m: int)
    requires
        0 <= m <= steps.len(),
        chain_run(doms, ps, steps.take(m)) is None,
    ensures
        chain_run(doms, ps, steps) is None,
    decreases steps.len(),
{
    if m == steps.len() {
        assert(steps.take(m) =~= steps);
    } else {
        assert(steps.drop_last().take(m) =~= steps.take(m));
        lemma_chain_fails(doms, ps, steps.drop_last(), m);
    }
}

/// Runs the `t`-th step of a chain of comparisons: `left < right` on the
/// `i`-th and `i + 1`-th variables of the `x`-th array, recording the changes
/// in `output`.
fn chain_step(
    h: &mut VariableHandler,
    x: usize,
    i: usize,
    output: &mut Vec<(VariableId, VariableState)>,
    Ghost(h0): Ghost<VariableHandler>,
    Ghost(steps): Ghost<Seq<int>>,
    Ghost(t): Ghost<int>,
) -> (r: Result<(), VariableError>)
    requires
        old(h).wf(),
        h0.wf(),
        old(h).same_tables(&h0),
        shrinks(h0.vars(), old(h).vars()),
        all_nonempty(old(h).vars()),
        reports_shrink(old(output)@, h0.vars(), old(h).vars()),
        x < h0.arrays().len(),
        i + 1 < h0.arrays()[x as int].len(),
        h0.arrays()[x as int].len() <= usize::MAX,
        0 <= t < steps.len(),
        steps[t] == i,
        chain_run(doms_of(h0.vars()), h0.arrays()[x as int], steps.take(t)) == Some(
            (doms_of(old(h).vars()), old(output)@),
        ),
    ensures
        final(h).wf(),
        final(h).same_tables(old(h)),
        shrinks(h0.vars(), final(h).vars()),
        r is Err ==> r == Err::<(), VariableError>(VariableError::DomainWipeout) && chain_run(
            doms_of(h0.vars()),
            h0.arrays()[x as int],
            steps,
        ) is None,
        r is Ok ==> all_nonempty(final(h).vars()) && reports_shrink(
            final(output)@,
            h0.vars(),
            final(h).vars(),
        ) && chain_run(doms_of(h0.vars()), h0.arrays()[x as int], steps.take(t + 1)) == Some(
            (doms_of(final(h).vars()), final(output)@),
        ),
{
    let ghost ps = h0.arrays()[x as int];
    let ghost hb = *h;
    let ghost ob = output@;
    let p = h.array_index(x, i);
    let q = h.array_index(x, i + 1);
    proof {
        assert(steps.take(t + 1).drop_last() =~= steps.take(t));
        assert(steps.take(t + 1).last() == i);
        assert(doms_of(hb.vars())[p as int] == hb.vars()[p as int]@);
        assert(doms_of(hb.vars())[q as int] == hb.vars()[q as int]@);
        lemma_outcome_within(ComparisonKind::LessThan, hb.vars()[p as int]@, hb.vars()[q as int]@);
    }
    let res = compare_at(ComparisonKind::LessThan, h, p, q);
    match res {
        Err(e) => {
            proof {
                lemma_chain_fails(doms_of(h0.vars()), ps, steps, t + 1);
                assert forall|k: int| 0 <= k < h.vars().len() implies (#[trigger] h.vars()[k])@
                    == hb.vars()[k]@ by {
                    assert(doms_of(h.vars())[k] == doms_of(hb.vars())[k]);
                }
                lemma_shrinks_trans(h0.vars(), hb.vars(), h.vars());
            }
            Err(e)
        },
        Ok((lhs_state, rhs_state)) => {
            if lhs_state != VariableState::NoChange {
                output.push((VariableId(p), lhs_state));
            }
            if rhs_state != VariableState::NoChange {
                output.push((VariableId(q), rhs_state));
            }
            proof {
                let a = h.vars()[p as int]@;
                let b = h.vars()[q as int]@;
                assert(doms_of(h.vars())[p as int] == a);
                assert(doms_of(h.vars())[q as int] == b);
                assert forall|k: int| 0 <= k < h.vars().len() && k != p && k != q implies (#[trigger] h.vars()[k])@
                    == hb.vars()[k]@ by {
                    assert(doms_of(h.vars())[k] == doms_of(hb.vars())[k]);
                }
                assert(shrinks(hb.vars(), h.vars()));
                lemma_shrinks_trans(h0.vars(), hb.vars(), h.vars());
                lemma_reports_shrink_trans(ob, h0.vars(), hb.vars(), h.vars());
                let added = output@.subrange(ob.len() as int, output@.len() as int);
                assert(reports_shrink(added, hb.vars(), h.vars()));
                lemma_reports_shrink_from(added, h0.vars(), hb.vars(), h.vars());
                assert(output@ =~= ob + added);
                assert(added =~= pair_entries(
                    VariableId(p as usize),
                    hb.vars()[p as int]@,
                    a,
                    VariableId(q as usize),
                    hb.vars()[q as int]@,
                    b,
                ));
            }
            Ok(())
        },
    }
}

/// The constraint that the variables of an array are strictly increasing.
#[derive(Debug, Clone)]
pub struct Increasing {
    array: ArrayOfVarsView,
    output: Option<Vec<(VariableId, VariableState)>>,
}

impl Increasing {
    /// What a propagation does: the constraint before it (`self`) and after
    /// it (`after`), the variables before (`h0`) and after (`h1`), and the
    /// report `r`.
    pub open spec fn propagation(
        &self,
        h0: VariableHandler,
        after: Increasing,
        h1: VariableHandler,
        r: Result<PropagationState, VariableError>,
    ) -> bool {
        &&& after.spec_array() == self.spec_array()
        &&& (self.outcome(h0) is None <==> r is Err)
        &&& r is Err ==> r == Err::<PropagationState, VariableError>(VariableError::DomainWipeout)
        &&& self.outcome(h0) matches Some((d, out)) ==> doms_of(h1.vars()) == d && after.pending() == out
            && r == Ok::<PropagationState, VariableError>(
            if out.len() > 0 {
                PropagationState::FixPoint
            } else {
                PropagationState::NoChange
            },
        )
    }

    /// The constraint that the variables of `array` are strictly increasing.
    pub fn new(array: ArrayOfVarsView) -> (r: Increasing)
        ensures
            r.spec_array() == array,
            r.pending().len() == 0,
    {
        Increasing { array: array, output: None }
    }

    pub closed spec fn spec_array(&self) -> ArrayOfVarsView {
        self.array
    }

    /// What a propagation does to the domains of `h`.
    pub open spec fn outcome(&self, h: VariableHandler) -> Option<
        (Seq<Seq<i32>>, Seq<(VariableId, VariableState)>),
    > {
        let ps = h.arrays()[self.spec_array().spec_idx() as int];
        chain_run(doms_of(h.vars()), ps, increasing_steps(ps.len() as int))
    }
}

impl Constraint for Increasing {
    open spec fn ready(&self, h: VariableHandler) -> bool {
        &&& self.spec_array().spec_idx() < h.arrays().len()
        &&& h.arrays()[self.spec_array().spec_idx() as int].len() > 0
    }

    proof fn lemma_ready_shrinks(&self, h0: VariableHandler, h1: VariableHandler) {
    }

    closed spec fn pending(&self) -> Seq<(VariableId, VariableState)> {
        output_view(self.output)
    }

    fn propagate(&mut self, variables_handler: &mut VariableHandler) -> (r: Result<
        PropagationState,
        VariableError,
    >)
        ensures
            old(self).propagation(*old(variables_handler), *final(self), *final(variables_handler), r),
    {
        let ghost h0 = *variables_handler;
        self.output = None;
        let x = self.array.get_idx();
        let len = variables_handler.array_len(x);
        let ghost ps = h0.arrays()[x as int];
        let ghost steps = increasing_steps(len as int);
        let mut output: Vec<(VariableId, VariableState)> = Vec::new();
        let mut t: usize = 0;
        while t < len - 1
            invariant
                variables_handler.wf(),
                variables_handler.same_tables(&h0),
                h0 == *old(variables_handler),
                h0.wf(),
                shrinks(h0.vars(), variables_handler.vars()),
                all_nonempty(variables_handler.vars()),
                reports_shrink(output@, h0.vars(), variables_handler.vars()),
                x < h0.arrays().len(),
                x == old(self).spec_array().spec_idx(),
                self.spec_array() == old(self).spec_array(),
                ps == h0.arrays()[x as int],
                len == ps.len(),
                len > 0,
                steps == increasing_steps(len as int),
                t <= len - 1,
                chain_run(doms_of(h0.vars()), ps, steps.take(t as int)) == Some(
                    (doms_of(variables_handler.vars()), output@),
                ),
            decreases len - 1 - t,
        {
            proof {
                assert(steps[t as int] == t);
            }
            let res = chain_step(variables_handler, x, t, &mut output, Ghost(h0), Ghost(steps), Ghost(t as int));
            if let Err(e) = res {
                return Err(e);
            }
            t = t + 1;
        }
        let mut u: usize = 0;
        while u < len - 1
            invariant
                variables_handler.wf(),
                variables_handler.same_tables(&h0),
                h0 == *old(variables_handler),
                h0.wf(),
                shrinks(h0.vars(), variables_handler.vars()),
                all_nonempty(variables_handler.vars()),
                reports_shrink(output@, h0.vars(), variables_handler.vars()),
                x < h0.arrays().len(),
                x == old(self).spec_array().spec_idx(),
                self.spec_array() == old(self).spec_array(),
                ps == h0.arrays()[x as int],
                len == ps.len(),
                len > 0,
                steps == increasing_steps(len as int),
                u <= len - 1,
                chain_run(doms_of(h0.vars()), ps, steps.take(len - 1 + u)) == Some(
                    (doms_of(variables_handler.vars()), output@),
                ),
            decreases len - 1 - u,
        {
            proof {
                assert(steps[len - 1 + u] == len - 2 - u);
            }
            let res = chain_step(
                variables_handler,
                x,
                len - 2 - u,
                &mut output,
                Ghost(h0),
                Ghost(steps),
                Ghost(len - 1 + u),
            );
            if let Err(e) = res {
                return Err(e);
            }
            u = u + 1;
        }
        proof {
            assert(steps.take(len - 1 + u) =~= steps);
        }
        if output.len() > 0 {
            self.output = Some(output);
            Ok(PropagationState::FixPoint)
        } else {
            Ok(PropagationState::NoChange)
        }
    }

    fn initialise(&mut self, variables_handler: &mut VariableHandler) -> (r: Result<
        PropagationState,
        VariableError,
    >)
        ensures
            old(self).propagation(*old(variables_handler), *final(self), *final(variables_handler), r),
    {
        self.propagate(variables_handler)
    }

    fn prepare(&mut self, states: Vec<VariableId>)
        ensures
            final(self).spec_array() == old(self).spec_array(),
            *final(self) == *old(self),
    {
    }

    fn result(&mut self) -> (r: Vec<(VariableId, VariableState)>)
        ensures
            final(self).spec_array() == old(self).spec_array(),
    {
        let mut res = None;
        std::mem::swap(&mut self.output, &mut res);
        match res {
            None => Vec::new(),
            Some(changes) => changes,
        }
    }

    fn box_clone(&self) -> (r: Self)
        ensures
            r.spec_array() == self.spec_array(),
    {
        let r = Increasing { array: self.array, output: copy_opt_vec(&self.output) };
        proof {
            assert forall|h: VariableHandler| self.ready(h) implies #[trigger] r.ready(h) by {
            }
        }
        r
    }

    fn dependencies(&self, variables_handler: &VariableHandler) -> (r: Vec<(VariableId, VariableState)>)
        ensures
            r@.len() == variables_handler.arrays()[self.spec_array().spec_idx() as int].len(),
            forall|k: int|
                0 <= k < r@.len() ==> #[trigger] r@[k] == (
                    VariableId(variables_handler.arrays()[self.spec_array().spec_idx() as int][k]),
                    VariableState::ValuesChange,
                ),
    {
        let x = self.array.get_idx();
        let len = variables_handler.array_len(x);
        let mut deps: Vec<(VariableId, VariableState)> = Vec::new();
        let mut k: usize = 0;
        while k < len
            invariant
                variables_handler.wf(),
                x == self.spec_array().spec_idx(),
                x < variables_handler.arrays().len(),
                len == variables_handler.arrays()[x as int].len(),
                k <= len,
                deps@.len() == k,
                forall|l: int|
                    0 <= l < k ==> #[trigger] deps@[l] == (
                        VariableId(variables_handler.arrays()[x as int][l]),
                        VariableState::ValuesChange,
                    ),
            decreases len - k,
        {
            let p = variables_handler.array_index(x, k);
            deps.push((VariableId(p), VariableState::ValuesChange));
            k = k + 1;
        }
        deps
    }
}

/// A run of `left < right` steps removes no solution: an assignment `a` of
/// values from the domains that is strictly increasing along `ps` makes no
/// step fail, and stays within the domains the run leaves.
pub proof fn lemma_chain_keeps_solutions(doms: Seq<Seq<i32>>, ps: Seq<usize>, steps: Seq<int>, a: Seq<i32>)
    requires
        a.len() == doms.len(),
        forall|p: int| 0 <= p < doms.len() ==> sorted(#[trigger] doms[p]) && doms[p].contains(a[p]),
        forall|i: int| 0 <= i < ps.len() ==> #[trigger] ps[i] < doms.len(),
        forall|i: int, j: int| 0 <= i < j < ps.len() ==> ps[i] != ps[j],
        forall|i: int| 0 <= i < ps.len() - 1 ==> a[#[trigger] ps[i] as int] < a[ps[i + 1] as int],
        forall|k: int| 0 <= k < steps.len() ==> 0 <= #[trigger] steps[k] < ps.len() - 1,
    ensures
        chain_run(doms, ps, steps) matches Some((d, _)) && d.len() == doms.len() && forall|p: int|
            0 <= p < d.len() ==> sorted(#[trigger] d[p]) && d[p].contains(a[p]),
    decreases steps.len(),
{
    if steps.len() > 0 {
        let pre = steps.drop_last();
        assert forall|k: int| 0 <= k < pre.len() implies 0 <= #[trigger] pre[k] < ps.len() - 1 by {
            assert(pre[k] == steps[k]);
        }
        lemma_chain_keeps_solutions(doms, ps, pre, a);
        let (d, _) = chain_run(doms, ps, pre)->0;
        let i = steps.last();
        assert(0 <= i < ps.len() - 1);
        let p = ps[i] as int;
        let q = ps[i + 1] as int;
        assert(p != q);
        assert(a[p] < a[q]);
        super::comparisons::lemma_compare_keeps_solutions(ComparisonKind::LessThan, d[p], d[q], a[p], a[q]);
        lemma_outcome_within(ComparisonKind::LessThan, d[p], d[q]);
    }
}

/// Propagating `Increasing` removes no solution: an assignment `a` of values
/// from the domains of all variables that is strictly increasing along the
/// array makes the propagation succeed, and stays within the domains it
/// leaves.
pub proof fn lemma_increasing_keeps_solutions(c: Increasing, h: VariableHandler, a: Seq<i32>)
    requires
        h.wf(),
        c.ready(h),
        a.len() == h.vars().len(),
        forall|p: int| 0 <= p < a.len() ==> (#[trigger] h.vars()[p])@.contains(a[p]),
        ({
            let ps = h.arrays()[c.spec_array().spec_idx() as int];
            forall|i: int| 0 <= i < ps.len() - 1 ==> a[#[trigger] ps[i] as int] < a[ps[i + 1] as int]
        }),
    ensures
        c.outcome(h) matches Some((d, _)) && forall|p: int| 0 <= p < d.len() ==> (#[trigger] d[p]).contains(a[p]),
{
    let ps = h.arrays()[c.spec_array().spec_idx() as int];
    let doms = doms_of(h.vars());
    let steps = increasing_steps(ps.len() as int);
    assert forall|p: int| 0 <= p < doms.len() implies sorted(#[trigger] doms[p]) && doms[p].contains(a[p]) by {
        assert(h.vars()[p].wf());
    }
    assert forall|k: int| 0 <= k < steps.len() implies 0 <= #[trigger] steps[k] < ps.len() - 1 by {
    }
    lemma_chain_keeps_solutions(doms, ps, steps, a);
}

} // verus!
