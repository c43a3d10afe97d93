use vstd::prelude::*;

use super::all_different::{alldiff_solution, AllDifferent};
use super::binary_ops::{lemma_add_constant_keeps_solutions, AddConstant};
use super::increasing::{lemma_increasing_keeps_solutions, Increasing};
use super::sum::{assigned_sum, lemma_sum_constraint_keeps_solutions, sum_terms, SumConstraint};
use super::comparisons::{compare_holds, doms_of, lemma_comparison_keeps_solutions, Comparison};
use super::equalities::{lemma_equal_bounds_keeps_solutions, lemma_equal_keeps_solutions, Equal, EqualBounds};
use super::{
    all_nonempty, lemma_shrinks_total, lemma_shrinks_trans, reports_shrink, shrinks, Constraint,
    PropagationState,
};
use crate::graph::{lemma_with_edge_links, linked, lists, nodes_view, triggered, with_events, EdgeList, Event, TwoNodesGraph};
use crate::variables::handler_traits::VariablesHandler;
use crate::variables::handlers::{total_size, VarView, VariableHandler};
use crate::variables::{VariableError, VariableId, VariableState};

verus! {

/// One constraint of any of the kinds that the library provides.
#[derive(Debug, Clone)]
pub enum ConstraintBox {
    Comparison(Comparison),
    Equal(Equal),
    EqualBounds(EqualBounds),
    AddConstant(AddConstant),
    Increasing(Increasing),
    Sum(SumConstraint),
    AllDifferent(AllDifferent),
}

impl Constraint for ConstraintBox {
    open spec fn ready(&self, h: VariableHandler) -> bool {
        match self {
            ConstraintBox::Comparison(c) => c.ready(h),
            ConstraintBox::Equal(c) => c.ready(h),
            ConstraintBox::EqualBounds(c) => c.ready(h),
            ConstraintBox::AddConstant(c) => c.ready(h),
            ConstraintBox::Increasing(c) => c.ready(h),
            ConstraintBox::Sum(c) => c.ready(h),
            ConstraintBox::AllDifferent(c) => c.ready(h),
        }
    }

    proof fn lemma_ready_shrinks(&self, h0: VariableHandler, h1: VariableHandler) {
        match self {
            ConstraintBox::Comparison(c) => c.lemma_ready_shrinks(h0, h1),
            ConstraintBox::Equal(c) => c.lemma_ready_shrinks(h0, h1),
            ConstraintBox::EqualBounds(c) => c.lemma_ready_shrinks(h0, h1),
            ConstraintBox::AddConstant(c) => c.lemma_ready_shrinks(h0, h1),
            ConstraintBox::Increasing(c) => c.lemma_ready_shrinks(h0, h1),
            ConstraintBox::Sum(c) => c.lemma_ready_shrinks(h0, h1),
            ConstraintBox::AllDifferent(c) => c.lemma_ready_shrinks(h0, h1),
        }
    }

    open spec fn pending(&self) -> Seq<(VariableId, VariableState)> {
        match self {
            ConstraintBox::Comparison(c) => c.pending(),
            ConstraintBox::Equal(c) => c.pending(),
            ConstraintBox::EqualBounds(c) => c.pending(),
            ConstraintBox::AddConstant(c) => c.pending(),
            ConstraintBox::Increasing(c) => c.pending(),
            ConstraintBox::Sum(c) => c.pending(),
            ConstraintBox::AllDifferent(c) => c.pending(),
        }
    }

    fn propagate(&mut self, variables_handler: &mut VariableHandler) -> (r: Result<
        PropagationState,
        VariableError,
    >)
        ensures
            old(self).propagation(*old(variables_handler), *final(self), *final(variables_handler), r),
    {
        match self {
            ConstraintBox::Comparison(c) => c.propagate(variables_handler),
            ConstraintBox::Equal(c) => c.propagate(variables_handler),
            ConstraintBox::EqualBounds(c) => c.propagate(variables_handler),
            ConstraintBox::AddConstant(c) => c.propagate(variables_handler),
            ConstraintBox::Increasing(c) => c.propagate(variables_handler),
            ConstraintBox::Sum(c) => c.propagate(variables_handler),
            ConstraintBox::AllDifferent(c) => c.propagate(variables_handler),
        }
    }

    fn initialise(&mut self, variables_handler: &mut VariableHandler) -> (r: Result<
        PropagationState,
        VariableError,
    >)
        ensures
            old(self).propagation(*old(variables_handler), *final(self), *final(variables_handler), r),
    {
        match self {
            ConstraintBox::Comparison(c) => c.initialise(variables_handler),
            ConstraintBox::Equal(c) => c.initialise(variables_handler),
            ConstraintBox::EqualBounds(c) => c.initialise(variables_handler),
            ConstraintBox::AddConstant(c) => c.initialise(variables_handler),
            ConstraintBox::Increasing(c) => c.initialise(variables_handler),
            ConstraintBox::Sum(c) => c.initialise(variables_handler),
            ConstraintBox::AllDifferent(c) => c.initialise(variables_handler),
        }
    }

    fn prepare(&mut self, states: Vec<VariableId>)
        ensures
            final(self).same_shape(*old(self)),
            old(self).prepared(states@, *final(self)),
    {
        match self {
            ConstraintBox::Comparison(c) => c.prepare(states),
            ConstraintBox::Equal(c) => c.prepare(states),
            ConstraintBox::EqualBounds(c) => c.prepare(states),
            ConstraintBox::AddConstant(c) => c.prepare(states),
            ConstraintBox::Increasing(c) => c.prepare(states),
            ConstraintBox::Sum(c) => c.prepare(states),
            ConstraintBox::AllDifferent(c) => c.prepare(states),
        }
    }

    fn result(&mut self) -> (r: Vec<(VariableId, VariableState)>)
        ensures
            final(self).same_shape(*old(self)),
    {
        match self {
            ConstraintBox::Comparison(c) => c.result(),
            ConstraintBox::Equal(c) => c.result(),
            ConstraintBox::EqualBounds(c) => c.result(),
            ConstraintBox::AddConstant(c) => c.result(),
            ConstraintBox::Increasing(c) => c.result(),
            ConstraintBox::Sum(c) => c.result(),
            ConstraintBox::AllDifferent(c) => c.result(),
        }
    }

    fn box_clone(&self) -> (r: Self)
        ensures
            r.same_shape(*self),
    {
        match self {
            ConstraintBox::Comparison(c) => ConstraintBox::Comparison(c.box_clone()),
            ConstraintBox::Equal(c) => ConstraintBox::Equal(c.box_clone()),
            ConstraintBox::EqualBounds(c) => ConstraintBox::EqualBounds(c.box_clone()),
            ConstraintBox::AddConstant(c) => ConstraintBox::AddConstant(c.box_clone()),
            ConstraintBox::Increasing(c) => ConstraintBox::Increasing(c.box_clone()),
            ConstraintBox::Sum(c) => ConstraintBox::Sum(c.box_clone()),
            ConstraintBox::AllDifferent(c) => ConstraintBox::AllDifferent(c.box_clone()),
        }
    }

    fn dependencies(&self, variables_handler: &VariableHandler) -> (r: Vec<(VariableId, VariableState)>)
        ensures
            r@ == self.spec_dependencies(*variables_handler),
    {
        match self {
            ConstraintBox::Comparison(c) => c.dependencies(variables_handler),
            ConstraintBox::Equal(c) => c.dependencies(variables_handler),
            ConstraintBox::EqualBounds(c) => c.dependencies(variables_handler),
            ConstraintBox::AddConstant(c) => c.dependencies(variables_handler),
            ConstraintBox::Increasing(c) => {
                let r = c.dependencies(variables_handler);
                proof {
                    let ps = variables_handler.arrays()[c.spec_array().spec_idx() as int];
                    assert(r@ =~= array_deps(ps, VariableState::ValuesChange));
                }
                r
            },
            ConstraintBox::Sum(c) => {
                let r = c.dependencies(variables_handler);
                proof {
                    let ps = variables_handler.arrays()[c.spec_array().spec_idx() as int];
                    assert(r@ =~= array_deps(ps, VariableState::MaxBoundChange).push(
                        (VariableId(variables_handler.spec_index(c.spec_res().place()) as usize), VariableState::MaxBoundChange),
                    ));
                }
                r
            },
            ConstraintBox::AllDifferent(c) => {
                let r = c.dependencies(variables_handler);
                proof {
                    let ps = variables_handler.arrays()[c.spec_array().spec_idx() as int];
                    assert(r@ =~= array_deps(ps, VariableState::ValuesChange));
                }
                r
            },
        }
    }
}


/// The dependencies of a constraint on the variables at `a` and `b`: a
/// change of their values.
pub open spec fn pair_deps(h: VariableHandler, a: VarView, b: VarView) -> Seq<(VariableId, VariableState)> {
    seq![
        (VariableId(h.spec_index(a.place()) as usize), VariableState::ValuesChange),
        (VariableId(h.spec_index(b.place()) as usize), VariableState::ValuesChange),
    ]
}

/// The dependencies of a constraint on the variables at the positions `ps`,
/// each woken by the change `st`.
pub open spec fn array_deps(ps: Seq<usize>, st: VariableState) -> Seq<(VariableId, VariableState)> {
    Seq::new(ps.len(), |k: int| (VariableId(ps[k]), st))
}

/// The edges link each dependency of each constraint of `cs` on the
/// variables `h` to that constraint, and nothing else.
pub open spec fn links_dependencies(edges: crate::graph::EdgeList, cs: Seq<ConstraintBox>, h: VariableHandler) -> bool {
    &&& forall|i: int, k: int|
        0 <= i < cs.len() && 0 <= k < cs[i].spec_dependencies(h).len() ==> linked(
            edges,
            (#[trigger] cs[i].spec_dependencies(h)[k]).0,
            cs[i].spec_dependencies(h)[k].1,
            i as usize,
        )
    &&& forall|src: VariableId, label: VariableState, d: usize|
        #[trigger] linked(edges, src, label, d) ==> d < cs.len() && cs[d as int].spec_dependencies(h).contains(
            (src, label),
        )
}

/// The constraints `cs0` were initialised in turn into `cs1`: the one at `k`
/// on the variables `hs[k]`, leaving `hs[k + 1]`, with the report `rs[k]`,
/// each a success.
pub open spec fn initialised(
    cs0: Seq<ConstraintBox>,
    cs1: Seq<ConstraintBox>,
    hs: Seq<VariableHandler>,
    rs: Seq<Result<PropagationState, VariableError>>,
) -> bool {
    &&& hs.len() == cs0.len() + 1
    &&& rs.len() == cs0.len()
    &&& cs1.len() == cs0.len()
    &&& forall|k: int|
        0 <= k < cs0.len() ==> (#[trigger] cs0[k]).propagation(hs[k], cs1[k], hs[k + 1], rs[k]) && rs[k] is Ok
}

/// A constraint of the shape of one of `cs` failed with the error `e` when
/// propagated on the variables `hb`, whose domains had shrunk from those of
/// `h0`, leaving `ha`.
pub open spec fn failed_on(
    cs: Seq<ConstraintBox>,
    h0: VariableHandler,
    hb: VariableHandler,
    ha: VariableHandler,
    e: VariableError,
) -> bool {
    &&& hb.same_tables(&h0)
    &&& shrinks(h0.vars(), hb.vars())
    &&& exists|k: int, c0: ConstraintBox, c1: ConstraintBox|
        #![trigger cs[k], c0.propagation(hb, c1, ha, Err::<PropagationState, VariableError>(e))]
        0 <= k < cs.len() && c0.same_shape(cs[k]) && c0.propagation(
            hb,
            c1,
            ha,
            Err::<PropagationState, VariableError>(e),
        )
}

/// A constraint of the shape of the one at `k` in `cs` was propagated with
/// success on variables `hb`, whose domains had shrunk from those of `h0`,
/// leaving variables whose domains shrank since to those of `h`.
pub open spec fn propagated_once(cs: Seq<ConstraintBox>, h0: VariableHandler, k: int, h: VariableHandler) -> bool {
    exists|hb: VariableHandler, ha: VariableHandler, c0: ConstraintBox, c1: ConstraintBox, st: PropagationState|
        #![trigger c0.propagation(hb, c1, ha, Ok::<PropagationState, VariableError>(st))]
        c0.same_shape(cs[k]) && hb.same_tables(&h0) && shrinks(h0.vars(), hb.vars()) && ha.same_tables(&h0)
            && shrinks(ha.vars(), h.vars()) && c0.propagation(
            hb,
            c1,
            ha,
            Ok::<PropagationState, VariableError>(st),
        )
}

/// A propagation recorded before the domains shrink further stays recorded,
/// and one of a constraint of the same shape, on domains shrunk from `h0`,
/// counts for the constraints `cs0`.
proof fn lemma_propagated_once_moves(
    cs0: Seq<ConstraintBox>,
    cur: Seq<ConstraintBox>,
    h0: VariableHandler,
    h1: VariableHandler,
    k: int,
    h: VariableHandler,
    h2: VariableHandler,
)
    requires
        0 <= k < cs0.len(),
        same_shapes(cs0, cur),
        propagated_once(cur, h1, k, h),
        h1.same_tables(&h0),
        shrinks(h0.vars(), h1.vars()),
        shrinks(h.vars(), h2.vars()),
    ensures
        propagated_once(cs0, h0, k, h2),
{
    let (hb, ha, c0, c1, st) = choose|hb: VariableHandler, ha: VariableHandler, c0: ConstraintBox, c1: ConstraintBox, st: PropagationState|
        #![trigger c0.propagation(hb, c1, ha, Ok::<PropagationState, VariableError>(st))]
        c0.same_shape(cur[k]) && hb.same_tables(&h1) && shrinks(h1.vars(), hb.vars()) && ha.same_tables(&h1)
            && shrinks(ha.vars(), h.vars()) && c0.propagation(
            hb,
            c1,
            ha,
            Ok::<PropagationState, VariableError>(st),
        );
    lemma_same_shape_trans(cs0[k], cur[k], c0);
    lemma_shrinks_trans(h0.vars(), h1.vars(), hb.vars());
    lemma_shrinks_trans(ha.vars(), h.vars(), h2.vars());
    assert(c0.propagation(hb, c1, ha, Ok::<PropagationState, VariableError>(st)));
}

/// The propagations recorded for the constraints not marked in `sub0` stay
/// recorded while the domains shrink.
proof fn lemma_all_propagated_shrink(
    cs0: Seq<ConstraintBox>,
    h0: VariableHandler,
    sub0: Seq<bool>,
    h: VariableHandler,
    h2: VariableHandler,
)
    requires
        forall|k: int| 0 <= k < cs0.len() && !sub0[k] ==> #[trigger] propagated_once(cs0, h0, k, h),
        shrinks(h.vars(), h2.vars()),
    ensures
        forall|k: int| 0 <= k < cs0.len() && !sub0[k] ==> #[trigger] propagated_once(cs0, h0, k, h2),
{
    assert forall|k: int| 0 <= k < cs0.len() && !sub0[k] implies #[trigger] propagated_once(cs0, h0, k, h2) by {
        assert forall|j: int| 0 <= j < cs0.len() implies (#[trigger] cs0[j]).same_shape(cs0[j]) by {
        }
        assert(shrinks(h0.vars(), h0.vars()));
        assert(propagated_once(cs0, h0, k, h));
        lemma_propagated_once_moves(cs0, cs0, h0, h0, k, h, h2);
    }
}

/// One propagation of a run of the handler: the position of the constraint,
/// the variables before and after it, and the changes it reported.
pub type PropStep = (usize, VariableHandler, VariableHandler, Seq<(VariableId, VariableState)>);

/// A successful propagation, on the variables `hb`, of a constraint of the
/// shape of the one at `idx` in `cs`, leaving `ha`; it reported the changes
/// `ch` when it reached a fix point and none otherwise.
pub open spec fn step_ok(
    cs: Seq<ConstraintBox>,
    idx: usize,
    hb: VariableHandler,
    ha: VariableHandler,
    ch: Seq<(VariableId, VariableState)>,
) -> bool {
    exists|c0: ConstraintBox, c1: ConstraintBox, ps: PropagationState|
        #![trigger c0.propagation(hb, c1, ha, Ok::<PropagationState, VariableError>(ps))]
        idx < cs.len() && c0.same_shape(cs[idx as int]) && c0.propagation(
            hb,
            c1,
            ha,
            Ok::<PropagationState, VariableError>(ps),
        ) && ch == (if ps == PropagationState::FixPoint {
            c1.pending()
        } else {
            Seq::empty()
        })
}

/// A step on constraints of the same shapes counts for `cs0`.
proof fn lemma_step_ok_shapes(
    cs0: Seq<ConstraintBox>,
    cur: Seq<ConstraintBox>,
    idx: usize,
    hb: VariableHandler,
    ha: VariableHandler,
    ch: Seq<(VariableId, VariableState)>,
)
    requires
        same_shapes(cs0, cur),
        step_ok(cur, idx, hb, ha, ch),
    ensures
        step_ok(cs0, idx, hb, ha, ch),
{
    let (c0, c1, ps) = choose|c0: ConstraintBox, c1: ConstraintBox, ps: PropagationState|
        #![trigger c0.propagation(hb, c1, ha, Ok::<PropagationState, VariableError>(ps))]
        idx < cur.len() && c0.same_shape(cur[idx as int]) && c0.propagation(
            hb,
            c1,
            ha,
            Ok::<PropagationState, VariableError>(ps),
        ) && ch == (if ps == PropagationState::FixPoint {
            c1.pending()
        } else {
            Seq::empty()
        });
    lemma_same_shape_trans(cs0[idx as int], cur[idx as int], c0);
    assert(c0.propagation(hb, c1, ha, Ok::<PropagationState, VariableError>(ps)));
}

/// The pending events after the steps `steps`, from the pending events `p`:
/// each step adds one event for each change it reported.
pub open spec fn recorded(p: Seq<Event>, steps: Seq<PropStep>) -> Seq<Event>
    decreases steps.len(),
{
    if steps.len() == 0 {
        p
    } else {
        with_events(recorded(p, steps.drop_last()), steps.last().3, steps.last().0)
    }
}

/// The positions of the constraints that the steps propagate, in order.
pub open spec fn step_nodes(steps: Seq<PropStep>) -> Seq<usize> {
    steps.map_values(|st: PropStep| st.0)
}

/// The steps are successful propagations of constraints of the shapes of
/// `cs`, each on the variables that the previous one left, the first on `h0`;
/// the last leaves `hf`.
pub open spec fn chained(cs: Seq<ConstraintBox>, steps: Seq<PropStep>, h0: VariableHandler, hf: VariableHandler) -> bool {
    &&& steps.len() == 0 ==> hf == h0
    &&& steps.len() > 0 ==> steps[0].1 == h0 && steps.last().2 == hf
    &&& forall|i: int| 0 <= i < steps.len() - 1 ==> (#[trigger] steps[i]).2 == steps[i + 1].1
    &&& forall|i: int|
        0 <= i < steps.len() ==> step_ok(cs, (#[trigger] steps[i]).0, steps[i].1, steps[i].2, steps[i].3)
}

/// The positions `k < n` that `sub` does not mark, in increasing order.
pub open spec fn unmarked_upto(sub: Seq<bool>, n: int) -> Seq<usize>
    decreases n,
{
    if n <= 0 {
        Seq::empty()
    } else if sub[n - 1] {
        unmarked_upto(sub, n - 1)
    } else {
        unmarked_upto(sub, n - 1).push((n - 1) as usize)
    }
}

/// `ns` lists the elements of `s`, each once.
pub open spec fn lists_set(ns: Seq<usize>, s: Set<usize>) -> bool {
    &&& ns.no_duplicates()
    &&& forall|n: usize| s.contains(n) <==> ns.contains(n)
}

/// The events pending at the end of round `r`: those pending at the start of
/// the call and those the first round added, for the first round; those the
/// round added, for the others.
pub open spec fn round_events(p0: Seq<Event>, rounds: Seq<Seq<PropStep>>, r: int) -> Seq<Event> {
    if r == 0 {
        recorded(p0, rounds[0])
    } else {
        recorded(Seq::empty(), rounds[r])
    }
}

/// A run of the handler from the variables `h0` to `hf`, as rounds of steps:
/// the first round propagates once each constraint that `sub0` does not mark
/// subsumed, in order; each next round propagates, once each, exactly the
/// constraints that the events of the round before trigger through the
/// edges; and the events of the last round trigger no constraint.
pub open spec fn handler_run(
    cs0: Seq<ConstraintBox>,
    sub0: Seq<bool>,
    edges: EdgeList,
    p0: Seq<Event>,
    h0: VariableHandler,
    rounds: Seq<Seq<PropStep>>,
    hs: Seq<VariableHandler>,
    hf: VariableHandler,
) -> bool {
    &&& rounds.len() >= 1
    &&& hs.len() == rounds.len() + 1
    &&& hs[0] == h0
    &&& hs.last() == hf
    &&& forall|r: int| 0 <= r < rounds.len() ==> chained(cs0, #[trigger] rounds[r], hs[r], hs[r + 1])
    &&& step_nodes(rounds[0]) == unmarked_upto(sub0, cs0.len() as int)
    &&& forall|r: int|
        0 < r < rounds.len() ==> lists_set(
            step_nodes(#[trigger] rounds[r]),
            triggered(edges, round_events(p0, rounds, r - 1)).dom(),
        )
    &&& triggered(edges, round_events(p0, rounds, rounds.len() - 1)).dom() == Set::<usize>::empty()
}

/// The nodes of a list of woken nodes, in order.
pub open spec fn woken_keys(v: Seq<(usize, Seq<VariableId>)>) -> Seq<usize> {
    v.map_values(|p: (usize, Seq<VariableId>)| p.0)
}

/// A step that starts where the steps end extends them.
proof fn lemma_chain_push(
    cs0: Seq<ConstraintBox>,
    steps: Seq<PropStep>,
    h0: VariableHandler,
    st: PropStep,
)
    requires
        chained(cs0, steps, h0, st.1),
        step_ok(cs0, st.0, st.1, st.2, st.3),
    ensures
        chained(cs0, steps.push(st), h0, st.2),
        step_nodes(steps.push(st)) == step_nodes(steps).push(st.0),
        forall|p: Seq<Event>| #[trigger] recorded(p, steps.push(st)) == with_events(recorded(p, steps), st.3, st.0),
{
    let s1 = steps.push(st);
    assert(s1.drop_last() =~= steps);
    assert(step_nodes(s1) =~= step_nodes(steps).push(st.0));
    assert forall|i: int| 0 <= i < s1.len() - 1 implies (#[trigger] s1[i]).2 == s1[i + 1].1 by {
        if i < steps.len() - 1 {
            assert(steps[i].2 == steps[i + 1].1);
        }
    }
    assert forall|i: int| 0 <= i < s1.len() implies step_ok(cs0, (#[trigger] s1[i]).0, s1[i].1, s1[i].2, s1[i].3) by {
        if i < steps.len() {
            assert(s1[i] == steps[i]);
        }
    }
}

/// A list of woken nodes, keyed without repetition by the domain of a map,
/// lists that domain.
proof fn lemma_lists_keys(v: Seq<(usize, Seq<VariableId>)>, m: Map<usize, Set<VariableId>>)
    requires
        lists(v, m),
    ensures
        lists_set(woken_keys(v), m.dom()),
{
    let keys = woken_keys(v);
    assert forall|a: int, b: int| 0 <= a < keys.len() && 0 <= b < keys.len() && a != b implies keys[a] != keys[b] by {
        if a < b {
            assert(v[a].0 != v[b].0);
        } else {
            assert(v[b].0 != v[a].0);
        }
    }
    assert forall|t: usize| m.dom().contains(t) <==> keys.contains(t) by {
        if m.dom().contains(t) {
            let k = choose|k: int| 0 <= k < v.len() && v[k].0 == t;
            assert(keys[k] == t);
        }
        if keys.contains(t) {
            let k = choose|k: int| 0 <= k < keys.len() && keys[k] == t;
            assert(v[k].0 == t);
        }
    }
}

/// Closing a round that propagated exactly the constraints that the events
/// of the previous round trigger extends the run.
proof fn lemma_round_push(
    cs0: Seq<ConstraintBox>,
    sub0: Seq<bool>,
    edges: EdgeList,
    p0: Seq<Event>,
    h0: VariableHandler,
    rounds: Seq<Seq<PropStep>>,
    hs: Seq<VariableHandler>,
    cur: Seq<PropStep>,
    hf: VariableHandler,
)
    requires
        rounds.len() >= 1,
        hs.len() == rounds.len() + 1,
        hs[0] == h0,
        forall|r: int| 0 <= r < rounds.len() ==> chained(cs0, #[trigger] rounds[r], hs[r], hs[r + 1]),
        step_nodes(rounds[0]) == unmarked_upto(sub0, cs0.len() as int),
        forall|r: int|
            0 < r < rounds.len() ==> lists_set(
                step_nodes(#[trigger] rounds[r]),
                triggered(edges, round_events(p0, rounds, r - 1)).dom(),
            ),
        chained(cs0, cur, hs.last(), hf),
        lists_set(step_nodes(cur), triggered(edges, round_events(p0, rounds, rounds.len() - 1)).dom()),
    ensures
        ({
            let rounds1 = rounds.push(cur);
            let hs1 = hs.push(hf);
            &&& rounds1.len() >= 1
            &&& hs1.len() == rounds1.len() + 1
            &&& hs1[0] == h0
            &&& hs1.last() == hf
            &&& forall|r: int| 0 <= r < rounds1.len() ==> chained(cs0, #[trigger] rounds1[r], hs1[r], hs1[r + 1])
            &&& step_nodes(rounds1[0]) == unmarked_upto(sub0, cs0.len() as int)
            &&& forall|r: int|
                0 < r < rounds1.len() ==> lists_set(
                    step_nodes(#[trigger] rounds1[r]),
                    triggered(edges, round_events(p0, rounds1, r - 1)).dom(),
                )
            &&& round_events(p0, rounds1, rounds1.len() - 1) == recorded(Seq::empty(), cur)
        }),
{
    let rounds1 = rounds.push(cur);
    let hs1 = hs.push(hf);
    assert forall|r: int| 0 <= r < rounds1.len() implies chained(cs0, #[trigger] rounds1[r], hs1[r], hs1[r + 1]) by {
        if r < rounds.len() {
            assert(rounds1[r] == rounds[r]);
            assert(hs1[r] == hs[r]);
            assert(hs1[r + 1] == hs[r + 1]);
        }
    }
    assert forall|r: int|
        0 < r < rounds1.len() implies lists_set(
        step_nodes(#[trigger] rounds1[r]),
        triggered(edges, round_events(p0, rounds1, r - 1)).dom(),
    ) by {
        assert(rounds1[r - 1] == rounds[r - 1]);
        assert(round_events(p0, rounds1, r - 1) == round_events(p0, rounds, r - 1));
        if r < rounds.len() {
            assert(rounds1[r] == rounds[r]);
        }
    }
    assert(rounds1[0] == rounds[0]);
}

/// A failure of a constraint of the shape of one of `cur`, on domains shrunk
/// from `h0`, is one of a constraint of the shape of one of `cs0` when the
/// shapes agree.
proof fn lemma_failed_on_shapes(
    cs0: Seq<ConstraintBox>,
    cur: Seq<ConstraintBox>,
    h0: VariableHandler,
    hb: VariableHandler,
    ha: VariableHandler,
    e: VariableError,
)
    requires
        same_shapes(cs0, cur),
        failed_on(cur, hb, hb, ha, e),
        hb.same_tables(&h0),
        shrinks(h0.vars(), hb.vars()),
    ensures
        failed_on(cs0, h0, hb, ha, e),
{
    let (k, c0, c1) = choose|k: int, c0: ConstraintBox, c1: ConstraintBox|
        #![trigger cur[k], c0.propagation(hb, c1, ha, Err::<PropagationState, VariableError>(e))]
        0 <= k < cur.len() && c0.same_shape(cur[k]) && c0.propagation(
            hb,
            c1,
            ha,
            Err::<PropagationState, VariableError>(e),
        );
    lemma_same_shape_trans(cs0[k], cur[k], c0);
    assert(cs0[k] == cs0[k]);
}

/// `a` gives each variable of `h` a value of its domain.
pub open spec fn within(a: Seq<i32>, h: VariableHandler) -> bool {
    &&& a.len() == h.vars().len()
    &&& forall|p: int| 0 <= p < a.len() ==> (#[trigger] h.vars()[p])@.contains(a[p])
}

impl ConstraintBox {
    /// The assignment `a` of the variables of `h` satisfies the constraint.
    pub open spec fn holds(&self, h: VariableHandler, a: Seq<i32>) -> bool {
        match self {
            ConstraintBox::Comparison(c) => compare_holds(
                c.spec_kind(),
                a[h.spec_index(c.spec_lhs().place())],
                a[h.spec_index(c.spec_rhs().place())],
            ),
            ConstraintBox::Equal(c) => a[h.spec_index(c.spec_lhs().place())] == a[h.spec_index(
                c.spec_rhs().place(),
            )],
            ConstraintBox::EqualBounds(c) => a[h.spec_index(c.spec_lhs().place())] == a[h.spec_index(
                c.spec_rhs().place(),
            )],
            ConstraintBox::AddConstant(c) => a[h.spec_index(c.spec_res().place())] == a[h.spec_index(
                c.spec_var().place(),
            )] + c.spec_coef(),
            ConstraintBox::Increasing(c) => {
                let ps = h.arrays()[c.spec_array().spec_idx() as int];
                forall|i: int| 0 <= i < ps.len() - 1 ==> a[#[trigger] ps[i] as int] < a[ps[i + 1] as int]
            },
            ConstraintBox::Sum(c) => {
                let ps = h.arrays()[c.spec_array().spec_idx() as int];
                a[h.spec_index(c.spec_res().place())] == assigned_sum(
                    a,
                    ps,
                    c.spec_coefs(),
                    sum_terms(ps, c.spec_coefs()),
                )
            },
            ConstraintBox::AllDifferent(c) => {
                let ps = h.arrays()[c.spec_array().spec_idx() as int];
                forall|i: int, j: int|
                    0 <= i < ps.len() && 0 <= j < ps.len() && i != j ==> a[#[trigger] ps[i] as int]
                        != a[#[trigger] ps[j] as int]
            },
        }
    }

    /// Propagating the constraint keeps every solution. It does for every
    /// constraint but a sum with a coefficient that is not positive, or whose
    /// result is one of its terms.
    pub open spec fn sound_on(&self, h: VariableHandler) -> bool {
        match self {
            ConstraintBox::Sum(c) => {
                let ps = h.arrays()[c.spec_array().spec_idx() as int];
                &&& !ps.contains(h.spec_index(c.spec_res().place()) as usize)
                &&& forall|i: int| 0 <= i < sum_terms(ps, c.spec_coefs()) ==> #[trigger] c.spec_coefs()[i] > 0
            },
            _ => true,
        }
    }

    /// What a propagation does: the constraint before it (`self`) and after
    /// it (`after`), the variables before (`h0`) and after (`h1`), and the
    /// report `r`.
    pub open spec fn propagation(
        &self,
        h0: VariableHandler,
        after: ConstraintBox,
        h1: VariableHandler,
        r: Result<PropagationState, VariableError>,
    ) -> bool {
        match self {
            ConstraintBox::Comparison(c0) => match after {
                ConstraintBox::Comparison(c1) => c0.propagation(h0, c1, h1, r),
                _ => false,
            },
            ConstraintBox::Equal(c0) => match after {
                ConstraintBox::Equal(c1) => c0.propagation(h0, c1, h1, r),
                _ => false,
            },
            ConstraintBox::EqualBounds(c0) => match after {
                ConstraintBox::EqualBounds(c1) => c0.propagation(h0, c1, h1, r),
                _ => false,
            },
            ConstraintBox::AddConstant(c0) => match after {
                ConstraintBox::AddConstant(c1) => c0.propagation(h0, c1, h1, r),
                _ => false,
            },
            ConstraintBox::Increasing(c0) => match after {
                ConstraintBox::Increasing(c1) => c0.propagation(h0, c1, h1, r),
                _ => false,
            },
            ConstraintBox::Sum(c0) => match after {
                ConstraintBox::Sum(c1) => c0.propagation(h0, c1, h1, r),
                _ => false,
            },
            ConstraintBox::AllDifferent(c0) => match after {
                ConstraintBox::AllDifferent(c1) => c0.propagation(h0, c1, h1, r),
                _ => false,
            },
        }
    }

    /// The changes of variables of `h` that wake the constraint.
    pub open spec fn spec_dependencies(&self, h: VariableHandler) -> Seq<(VariableId, VariableState)> {
        match self {
            ConstraintBox::Comparison(c) => pair_deps(h, c.spec_lhs(), c.spec_rhs()),
            ConstraintBox::Equal(c) => pair_deps(h, c.spec_lhs(), c.spec_rhs()),
            ConstraintBox::EqualBounds(c) => pair_deps(h, c.spec_lhs(), c.spec_rhs()),
            ConstraintBox::AddConstant(c) => pair_deps(h, c.spec_res(), c.spec_var()),
            ConstraintBox::Increasing(c) => array_deps(
                h.arrays()[c.spec_array().spec_idx() as int],
                VariableState::ValuesChange,
            ),
            ConstraintBox::Sum(c) => array_deps(
                h.arrays()[c.spec_array().spec_idx() as int],
                VariableState::MaxBoundChange,
            ).push((VariableId(h.spec_index(c.spec_res().place()) as usize), VariableState::MaxBoundChange)),
            ConstraintBox::AllDifferent(c) => array_deps(
                h.arrays()[c.spec_array().spec_idx() as int],
                VariableState::ValuesChange,
            ),
        }
    }

    /// What `prepare` with the changed variables `states` makes of the
    /// constraint (`after`): a sum keeps them, an all-different constraint
    /// records their positions in its array, and the others stay as they are.
    pub open spec fn prepared(&self, states: Seq<VariableId>, after: ConstraintBox) -> bool {
        match self {
            ConstraintBox::Sum(c0) => match after {
                ConstraintBox::Sum(c1) => c0.prepared(states, c1),
                _ => false,
            },
            ConstraintBox::AllDifferent(c0) => match after {
                ConstraintBox::AllDifferent(c1) => c0.prepared(states, c1),
                _ => false,
            },
            _ => after == *self,
        }
    }

    /// `other` is a constraint of the same kind, on the same variables, with
    /// the same parameters.
    pub open spec fn same_shape(&self, other: ConstraintBox) -> bool {
        match self {
            ConstraintBox::Comparison(a) => match other {
                ConstraintBox::Comparison(b) => a.spec_kind() == b.spec_kind() && a.spec_lhs() == b.spec_lhs()
                    && a.spec_rhs() == b.spec_rhs(),
                _ => false,
            },
            ConstraintBox::Equal(a) => match other {
                ConstraintBox::Equal(b) => a.spec_lhs() == b.spec_lhs() && a.spec_rhs() == b.spec_rhs(),
                _ => false,
            },
            ConstraintBox::EqualBounds(a) => match other {
                ConstraintBox::EqualBounds(b) => a.spec_lhs() == b.spec_lhs() && a.spec_rhs() == b.spec_rhs(),
                _ => false,
            },
            ConstraintBox::AddConstant(a) => match other {
                ConstraintBox::AddConstant(b) => a.spec_res() == b.spec_res() && a.spec_var() == b.spec_var()
                    && a.spec_coef() == b.spec_coef(),
                _ => false,
            },
            ConstraintBox::Increasing(a) => match other {
                ConstraintBox::Increasing(b) => a.spec_array() == b.spec_array(),
                _ => false,
            },
            ConstraintBox::Sum(a) => match other {
                ConstraintBox::Sum(b) => a.spec_res() == b.spec_res() && a.spec_array() == b.spec_array()
                    && a.spec_coefs() == b.spec_coefs(),
                _ => false,
            },
            ConstraintBox::AllDifferent(a) => match other {
                ConstraintBox::AllDifferent(b) => a.spec_array() == b.spec_array(),
                _ => false,
            },
        }
    }
}

/// The constraints of `b` have, one by one, the shapes of those of `a`.
pub open spec fn same_shapes(a: Seq<ConstraintBox>, b: Seq<ConstraintBox>) -> bool {
    &&& b.len() == a.len()
    &&& forall|k: int| 0 <= k < a.len() ==> (#[trigger] b[k]).same_shape(a[k])
}

/// Every constraint of `cs` is satisfied by `a`.
pub open spec fn all_hold(cs: Seq<ConstraintBox>, h: VariableHandler, a: Seq<i32>) -> bool {
    forall|k: int| 0 <= k < cs.len() ==> (#[trigger] cs[k]).holds(h, a)
}

/// Propagation is sound on every constraint of `cs`.
pub open spec fn all_sound(cs: Seq<ConstraintBox>, h: VariableHandler) -> bool {
    forall|k: int| 0 <= k < cs.len() ==> (#[trigger] cs[k]).sound_on(h)
}

/// Every solution of the constraints `cs` on the domains of `h0` is within
/// the domains of `h`, when propagation is sound on all of them.
pub open spec fn solutions_kept(cs: Seq<ConstraintBox>, h0: VariableHandler, h: VariableHandler) -> bool {
    all_sound(cs, h0) ==> forall|a: Seq<i32>| #[trigger] within(a, h0) && all_hold(cs, h0, a) ==> within(a, h)
}

/// Same shapes, composed.
pub proof fn lemma_same_shapes_trans(a: Seq<ConstraintBox>, b: Seq<ConstraintBox>, c: Seq<ConstraintBox>)
    requires
        same_shapes(a, b),
        same_shapes(b, c),
    ensures
        same_shapes(a, c),
{
    assert forall|k: int| 0 <= k < a.len() implies (#[trigger] c[k]).same_shape(a[k]) by {
        lemma_same_shape_trans(a[k], b[k], c[k]);
    }
}

/// One propagation step of the constraint at `idx`, from `before` to `h`,
/// keeps the solutions that the earlier steps kept.
proof fn lemma_step_keeps(
    cs0: Seq<ConstraintBox>,
    cur: Seq<ConstraintBox>,
    idx: int,
    h0: VariableHandler,
    before: VariableHandler,
    h: VariableHandler,
    r: Result<(), VariableError>,
)
    requires
        0 <= idx < cs0.len(),
        same_shapes(cs0, cur),
        before.same_tables(&h0),
        solutions_kept(cs0, h0, before),
        cur[idx].sound_on(before) ==> forall|a: Seq<i32>|
            #[trigger] within(a, before) && cur[idx].holds(before, a) ==> r is Ok && within(a, h),
    ensures
        all_sound(cs0, h0) ==> forall|a: Seq<i32>| #[trigger] within(a, h0) && all_hold(cs0, h0, a) ==> r is Ok && within(a, h),
{
    if all_sound(cs0, h0) {
        assert forall|a: Seq<i32>| #[trigger] within(a, h0) && all_hold(cs0, h0, a) implies r is Ok && within(a, h) by {
            lemma_same_shape(cs0[idx], cur[idx], h0, before, a);
            assert(cs0[idx].holds(h0, a));
            assert(cs0[idx].sound_on(h0));
            assert(within(a, before));
        }
    }
}

/// Having the same shape is transitive.
pub proof fn lemma_same_shape_trans(a: ConstraintBox, b: ConstraintBox, c: ConstraintBox)
    requires
        b.same_shape(a),
        c.same_shape(b),
    ensures
        c.same_shape(a),
{
}

/// Constraints of the same shape, on variables with the same tables, are
/// satisfied by the same assignments and are sound on the same variables.
pub proof fn lemma_same_shape(c0: ConstraintBox, c1: ConstraintBox, h0: VariableHandler, h1: VariableHandler, a: Seq<i32>)
    requires
        c1.same_shape(c0),
        h1.same_tables(&h0),
    ensures
        c1.holds(h1, a) == c0.holds(h0, a),
        c1.sound_on(h1) == c0.sound_on(h0),
        c0.same_shape(c1),
{
}

/// A propagation keeps the shape of the constraint.
pub proof fn lemma_propagation_shape(c0: ConstraintBox, h0: VariableHandler, c1: ConstraintBox, h1: VariableHandler, r: Result<PropagationState, VariableError>)
    requires
        c0.propagation(h0, c1, h1, r),
    ensures
        c1.same_shape(c0),
{
}

/// Propagating a constraint removes no solution: when an assignment `a` of
/// values from the domains satisfies a constraint on which propagation is
/// sound, the propagation succeeds and `a` stays within the domains it
/// leaves.
pub proof fn lemma_propagation_keeps_solutions(
    c0: ConstraintBox,
    h0: VariableHandler,
    c1: ConstraintBox,
    h1: VariableHandler,
    r: Result<PropagationState, VariableError>,
    a: Seq<i32>,
)
    requires
        h0.wf(),
        h1.same_tables(&h0),
        c0.ready(h0),
        c0.sound_on(h0),
        c0.propagation(h0, c1, h1, r),
        within(a, h0),
        c0.holds(h0, a),
    ensures
        r is Ok,
        within(a, h1),
{
    let d0 = doms_of(h0.vars());
    let d1 = doms_of(h1.vars());
    match c0 {
        ConstraintBox::Comparison(c) => {
            let i = h0.spec_index(c.spec_lhs().place());
            let j = h0.spec_index(c.spec_rhs().place());
            lemma_comparison_keeps_solutions(c, h0, a[i], a[j]);
            assert forall|p: int| 0 <= p < a.len() implies (#[trigger] h1.vars()[p])@.contains(a[p]) by {
                assert(h0.vars()[p]@.contains(a[p]));
            }
        },
        ConstraintBox::Equal(c) => {
            let i = h0.spec_index(c.spec_lhs().place());
            let j = h0.spec_index(c.spec_rhs().place());
            lemma_equal_keeps_solutions(c, h0, a[i]);
            assert forall|p: int| 0 <= p < a.len() implies (#[trigger] h1.vars()[p])@.contains(a[p]) by {
                assert(h0.vars()[p]@.contains(a[p]));
            }
        },
        ConstraintBox::EqualBounds(c) => {
            let i = h0.spec_index(c.spec_lhs().place());
            lemma_equal_bounds_keeps_solutions(c, h0, a[i]);
            assert forall|p: int| 0 <= p < a.len() implies (#[trigger] h1.vars()[p])@.contains(a[p]) by {
                assert(h0.vars()[p]@.contains(a[p]));
            }
        },
        ConstraintBox::AddConstant(c) => {
            let i = h0.spec_index(c.spec_res().place());
            let j = h0.spec_index(c.spec_var().place());
            lemma_add_constant_keeps_solutions(c, h0, a[i], a[j]);
            assert forall|p: int| 0 <= p < a.len() implies (#[trigger] h1.vars()[p])@.contains(a[p]) by {
                assert(h0.vars()[p]@.contains(a[p]));
            }
        },
        ConstraintBox::Increasing(c) => {
            lemma_increasing_keeps_solutions(c, h0, a);
            assert forall|p: int| 0 <= p < a.len() implies (#[trigger] h1.vars()[p])@.contains(a[p]) by {
                assert(d1[p] == h1.vars()[p]@);
            }
        },
        ConstraintBox::Sum(c) => {
            lemma_sum_constraint_keeps_solutions(c, h0, a);
            assert forall|p: int| 0 <= p < a.len() implies (#[trigger] h1.vars()[p])@.contains(a[p]) by {
                assert(d1[p] == h1.vars()[p]@);
            }
        },
        ConstraintBox::AllDifferent(c) => {
            let ps = h0.arrays()[c.spec_array().spec_idx() as int];
            let s = Seq::new(ps.len(), |k: int| a[ps[k] as int]);
            assert forall|k: int| 0 <= k < s.len() implies #[trigger] d0[ps[k] as int].contains(s[k]) by {
                assert(ps[k] < h0.vars().len());
                assert(h0.vars()[ps[k] as int]@.contains(a[ps[k] as int]));
            }
            assert(alldiff_solution(d0, ps, s));
            assert(alldiff_solution(d1, ps, s));
            assert forall|p: int| 0 <= p < a.len() implies (#[trigger] h1.vars()[p])@.contains(a[p]) by {
                assert(h0.vars()[p]@.contains(a[p]));
                if ps.contains(p as usize) {
                    let k = choose|k: int| 0 <= k < ps.len() && ps[k] == p as usize;
                    assert(d1[ps[k] as int].contains(s[k]));
                    assert(d1[p] == h1.vars()[p]@);
                } else {
                    assert(d1[p] == d0[p]);
                    assert(d1[p] == h1.vars()[p]@);
                }
            }
        },
    }
}

/// Collects the constraints of a model.
#[derive(Debug, Clone)]
pub struct DefaultConstraintsHandlerBuilder {
    constraints: Vec<ConstraintBox>,
}

/// The constraints of a model, with the graph that tells which constraints a
/// change of a variable wakes.
#[derive(Debug, Clone)]
pub struct DefaultConstraintsHandler {
    constraints: Vec<ConstraintBox>,
    subsumeds: Vec<bool>,
    graph: TwoNodesGraph,
}

/// Every constraint of `cs` is ready on `h`.
pub open spec fn all_ready(cs: Seq<ConstraintBox>, h: VariableHandler) -> bool {
    forall|k: int| 0 <= k < cs.len() ==> (#[trigger] cs[k]).ready(h)
}

/// Readiness of all constraints survives a shrinking of the domains.
pub proof fn lemma_all_ready_shrinks(cs: Seq<ConstraintBox>, h0: VariableHandler, h1: VariableHandler)
    requires
        all_ready(cs, h0),
        h0.wf(),
        h1.wf(),
        h1.same_tables(&h0),
        shrinks(h0.vars(), h1.vars()),
    ensures
        all_ready(cs, h1),
{
    assert forall|k: int| 0 <= k < cs.len() implies (#[trigger] cs[k]).ready(h1) by {
        cs[k].lemma_ready_shrinks(h0, h1);
    }
}

impl DefaultConstraintsHandlerBuilder {
    /// The constraints added so far.
    pub closed spec fn spec_constraints(&self) -> Seq<ConstraintBox> {
        self.constraints@
    }

    /// A builder with no constraint.
    pub fn new() -> (r: DefaultConstraintsHandlerBuilder)
        ensures
            r.spec_constraints().len() == 0,
    {
        DefaultConstraintsHandlerBuilder { constraints: Vec::new() }
    }

    /// Adds a constraint.
    pub fn add(&mut self, constraint: ConstraintBox)
        ensures
            final(self).spec_constraints() == old(self).spec_constraints().push(constraint),
    {
        self.constraints.push(constraint);
    }

    /// Builds the dependency graph of the constraints, then initialises each
    /// of them in turn. Fails when an initialisation fails.
    pub fn finalize(self, variables: &mut VariableHandler) -> (r: Result<
        DefaultConstraintsHandler,
        VariableError,
    >)
        requires
            old(variables).wf(),
            all_nonempty(old(variables).vars()),
            all_ready(self.spec_constraints(), *old(variables)),
        ensures
            final(variables).wf(),
            final(variables).same_tables(old(variables)),
            shrinks(old(variables).vars(), final(variables).vars()),
            r matches Ok(h) ==> h.wf(*final(variables)) && all_nonempty(final(variables).vars())
                && h.spec_constraints().len() == self.spec_constraints().len() && same_shapes(
                self.spec_constraints(),
                h.spec_constraints(),
            ),
            all_sound(self.spec_constraints(), *old(variables)) ==> forall|a: Seq<i32>|
                #[trigger] within(a, *old(variables)) && all_hold(self.spec_constraints(), *old(variables), a)
                    ==> r is Ok && within(a, *final(variables)),
            r matches Ok(h) ==> links_dependencies(h.spec_graph().edges(), self.spec_constraints(), *old(variables))
                && h.spec_graph().pending().len() == 0 && h.spec_subsumeds() == Seq::new(
                self.spec_constraints().len(),
                |k: int| false,
            ) && exists|hs: Seq<VariableHandler>, rs: Seq<Result<PropagationState, VariableError>>|
                #[trigger] initialised(self.spec_constraints(), h.spec_constraints(), hs, rs) && hs[0] == *old(
                    variables,
                ) && hs.last() == *final(variables),
    {
        let mut constraints = self.constraints;
        let mut graph = TwoNodesGraph::new();
        let ghost h = *variables;
        let ghost cs0 = self.constraints@;
        let n = constraints.len();
        let mut idx: usize = 0;
        while idx < n
            invariant
                idx <= n,
                n == constraints@.len(),
                constraints@ == self.constraints@,
                variables.wf(),
                *variables == *old(variables),
                all_ready(constraints@, *variables),
                graph.wf(n as nat),
                graph.pending().len() == 0,
                h == *old(variables),
                cs0 == self.constraints@,
                forall|i: int, k: int|
                    0 <= i < idx && 0 <= k < cs0[i].spec_dependencies(h).len() ==> linked(
                        graph.edges(),
                        (#[trigger] cs0[i].spec_dependencies(h)[k]).0,
                        cs0[i].spec_dependencies(h)[k].1,
                        i as usize,
                    ),
                forall|src: VariableId, label: VariableState, dd: usize|
                    #[trigger] linked(graph.edges(), src, label, dd) ==> dd < idx && cs0[dd as int].spec_dependencies(
                        h,
                    ).contains((src, label)),
            decreases n - idx,
        {
            let deps = constraints[idx].dependencies(variables);
            let mut d: usize = 0;
            while d < deps.len()
                invariant
                    d <= deps@.len(),
                    idx < n,
                    n == cs0.len(),
                    graph.wf(n as nat),
                    graph.pending().len() == 0,
                    deps@ == cs0[idx as int].spec_dependencies(h),
                    forall|i: int, k: int|
                        0 <= i < idx && 0 <= k < cs0[i].spec_dependencies(h).len() ==> linked(
                            graph.edges(),
                            (#[trigger] cs0[i].spec_dependencies(h)[k]).0,
                            cs0[i].spec_dependencies(h)[k].1,
                            i as usize,
                        ),
                    forall|k: int| 0 <= k < d ==> linked(graph.edges(), (#[trigger] deps@[k]).0, deps@[k].1, idx),
                    forall|src: VariableId, label: VariableState, dd: usize|
                        #[trigger] linked(graph.edges(), src, label, dd) ==> dd <= idx && cs0[dd as int].spec_dependencies(
                            h,
                        ).contains((src, label)),
                decreases deps@.len() - d,
            {
                let (view, state) = deps[d];
                let ghost e0 = graph.edges();
                graph.insert_node1_to_node2(view, state, idx);
                proof {
                    let e1 = graph.edges();
                    assert forall|i: int, k: int|
                        0 <= i < idx && 0 <= k < cs0[i].spec_dependencies(h).len() implies linked(
                            e1,
                            (#[trigger] cs0[i].spec_dependencies(h)[k]).0,
                            cs0[i].spec_dependencies(h)[k].1,
                            i as usize,
                        ) by {
                        let dep = cs0[i].spec_dependencies(h)[k];
                        lemma_with_edge_links(e0, view, state, idx, dep.0, dep.1, i as usize);
                    }
                    assert forall|k: int| 0 <= k < d + 1 implies linked(e1, (#[trigger] deps@[k]).0, deps@[k].1, idx) by {
                        lemma_with_edge_links(e0, view, state, idx, deps@[k].0, deps@[k].1, idx);
                    }
                    assert forall|src: VariableId, label: VariableState, dd: usize|
                        #[trigger] linked(e1, src, label, dd) implies dd <= idx && cs0[dd as int].spec_dependencies(
                            h,
                        ).contains((src, label)) by {
                        lemma_with_edge_links(e0, view, state, idx, src, label, dd);
                        if !linked(e0, src, label, dd) {
                            assert(deps@[d as int] == (view, state));
                            assert(deps@.contains((src, label)));
                        }
                    }
                }
                d = d + 1;
            }
            proof {
                assert forall|k: int| 0 <= k < cs0[idx as int].spec_dependencies(h).len() implies linked(
                    graph.edges(),
                    (#[trigger] cs0[idx as int].spec_dependencies(h)[k]).0,
                    cs0[idx as int].spec_dependencies(h)[k].1,
                    idx as usize,
                ) by {
                    assert(deps@[k] == cs0[idx as int].spec_dependencies(h)[k]);
                }
            }
            idx = idx + 1;
        }
        let ghost v0 = *variables;
        let ghost mut hs: Seq<VariableHandler> = seq![v0];
        let ghost mut rs: Seq<Result<PropagationState, VariableError>> = Seq::empty();
        let mut idx: usize = 0;
        while idx < n
            invariant
                idx <= n,
                n == constraints@.len(),
                hs.len() == idx + 1,
                rs.len() == idx,
                hs[0] == v0,
                hs.last() == *variables,
                forall|k: int|
                    0 <= k < idx ==> (#[trigger] self.constraints@[k]).propagation(hs[k], constraints@[k], hs[k + 1], rs[k])
                        && rs[k] is Ok,
                forall|k: int| idx <= k < n ==> #[trigger] constraints@[k] == self.constraints@[k],
                variables.wf(),
                variables.same_tables(&v0),
                shrinks(v0.vars(), variables.vars()),
                all_nonempty(variables.vars()),
                all_ready(constraints@, *variables),
                v0.wf(),
                v0 == *old(variables),
                same_shapes(self.constraints@, constraints@),
                solutions_kept(self.constraints@, v0, *variables),
            decreases n - idx,
        {
            let ghost before = *variables;
            let ghost cs = constraints@;
            let res = constraint_at(&mut constraints, idx).initialise(variables);
            proof {
                lemma_shrinks_trans(v0.vars(), before.vars(), variables.vars());
                let cs0 = self.constraints@;
                let cb = cs[idx as int];
                let ca = constraints@[idx as int];
                lemma_propagation_shape(cb, before, ca, *variables, res);
                lemma_same_shape_trans(cs0[idx as int], cb, ca);
                if all_sound(cs0, v0) {
                    assert forall|a: Seq<i32>| #[trigger] within(a, v0) && all_hold(cs0, v0, a) implies res is Ok
                        && within(a, *variables) by {
                        lemma_same_shape(cs0[idx as int], cb, v0, before, a);
                        assert(cs0[idx as int].holds(v0, a));
                        assert(cs0[idx as int].sound_on(v0));
                        assert(within(a, before));
                        lemma_propagation_keeps_solutions(cb, before, ca, *variables, res, a);
                    }
                }
                assert forall|k: int| 0 <= k < cs0.len() implies (#[trigger] constraints@[k]).same_shape(cs0[k]) by {
                    if k != idx {
                        assert(constraints@[k] == cs[k]);
                    }
                }
            }
            if let Err(e) = res {
                return Err(e);
            }
            proof {
                let hs0 = hs;
                hs = hs.push(*variables);
                rs = rs.push(res);
                assert forall|k: int|
                    0 <= k < idx + 1 implies (#[trigger] self.constraints@[k]).propagation(hs[k], constraints@[k], hs[k + 1], rs[k])
                        && rs[k] is Ok by {
                    if k < idx {
                        assert(hs[k] == hs0[k]);
                        assert(hs[k + 1] == hs0[k + 1]);
                        assert(constraints@[k] == cs[k]);
                    } else {
                        assert(hs[k] == before);
                        assert(cs[k] == self.constraints@[k]);
                    }
                }
                assert forall|k: int| idx + 1 <= k < n implies #[trigger] constraints@[k] == self.constraints@[k] by {
                    assert(constraints@[k] == cs[k]);
                }
                lemma_shrinks_trans(v0.vars(), before.vars(), variables.vars());
                lemma_all_ready_shrinks(cs, before, *variables);
                assert forall|k: int| 0 <= k < n implies (#[trigger] constraints@[k]).ready(*variables) by {
                    if k != idx {
                        assert(constraints@[k] == cs[k]);
                    }
                }
            }
            idx = idx + 1;
        }
        let mut subsumeds: Vec<bool> = Vec::new();
        let mut k: usize = 0;
        while k < n
            invariant
                k <= n,
                subsumeds@.len() == k,
                forall|j: int| 0 <= j < k ==> !(#[trigger] subsumeds@[j]),
            decreases n - k,
        {
            subsumeds.push(false);
            k = k + 1;
        }
        let r = DefaultConstraintsHandler { constraints: constraints, subsumeds: subsumeds, graph: graph };
        proof {
            assert(r.spec_subsumeds() =~= Seq::new(n as nat, |k: int| false));
            assert(initialised(self.constraints@, r.spec_constraints(), hs, rs));
        }
        Ok(r)
    }
}

impl DefaultConstraintsHandler {
    /// The constraints.
    pub closed spec fn spec_constraints(&self) -> Seq<ConstraintBox> {
        self.constraints@
    }

    /// Which constraints are known to be subsumed.
    pub closed spec fn spec_subsumeds(&self) -> Seq<bool> {
        self.subsumeds@
    }

    /// The dependency graph.
    pub closed spec fn spec_graph(&self) -> TwoNodesGraph {
        self.graph
    }

    /// A copy of the handler, ready wherever the handler is.
    pub fn duplicate(&self) -> (r: DefaultConstraintsHandler)
        ensures
            r.spec_constraints().len() == self.spec_constraints().len(),
            forall|h: VariableHandler| self.wf(h) ==> #[trigger] r.wf(h),
            r.spec_subsumeds() == self.spec_subsumeds(),
            r.spec_graph().edges() == self.spec_graph().edges(),
            r.spec_graph().pending() == self.spec_graph().pending(),
            same_shapes(self.spec_constraints(), r.spec_constraints()),
    {
        let mut constraints: Vec<ConstraintBox> = Vec::new();
        let mut i: usize = 0;
        while i < self.constraints.len()
            invariant
                i <= self.constraints@.len(),
                constraints@.len() == i,
                forall|k: int, h: VariableHandler|
                    0 <= k < i && self.constraints@[k].ready(h) ==> #[trigger] constraints@[k].ready(h),
                forall|k: int| 0 <= k < i ==> (#[trigger] constraints@[k]).same_shape(self.constraints@[k]),
            decreases self.constraints@.len() - i,
        {
            constraints.push(self.constraints[i].box_clone());
            i = i + 1;
        }
        let r = DefaultConstraintsHandler {
            constraints: constraints,
            subsumeds: super::copy_vec(&self.subsumeds),
            graph: self.graph.duplicate(),
        };
        proof {
            assert forall|h: VariableHandler| self.wf(h) implies #[trigger] r.wf(h) by {
                assert forall|k: int| 0 <= k < r.constraints@.len() implies (#[trigger] r.constraints@[k]).ready(h) by {
                    assert(self.constraints@[k].ready(h));
                }
            }
        }
        r
    }

    /// The handler fits the variables `h`.
    pub open spec fn wf(&self, h: VariableHandler) -> bool {
        &&& self.spec_subsumeds().len() == self.spec_constraints().len()
        &&& self.spec_graph().wf(self.spec_constraints().len() as nat)
        &&& all_ready(self.spec_constraints(), h)
    }

    /// Propagates the constraint at `idx`, and records the changes it made
    /// as events of the graph.
    fn propagate_one(
        &mut self,
        idx: usize,
        changes: Vec<VariableId>,
        variables_handler: &mut VariableHandler,
    ) -> (r: Result<(), VariableError>)
        requires
            idx < old(self).spec_constraints().len(),
            old(self).wf(*old(variables_handler)),
            old(variables_handler).wf(),
            all_nonempty(old(variables_handler).vars()),
        ensures
            final(variables_handler).wf(),
            final(variables_handler).same_tables(old(variables_handler)),
            shrinks(old(variables_handler).vars(), final(variables_handler).vars()),
            final(self).spec_constraints().len() == old(self).spec_constraints().len(),
            final(self).spec_graph().edges() == old(self).spec_graph().edges(),
            r is Ok ==> all_nonempty(final(variables_handler).vars()) && final(self).wf(
                *final(variables_handler),
            ),
            r is Ok && final(self).spec_graph().pending() != old(self).spec_graph().pending() ==> total_size(
                final(variables_handler).vars(),
            ) < total_size(old(variables_handler).vars()),
            same_shapes(old(self).spec_constraints(), final(self).spec_constraints()),
            old(self).spec_constraints()[idx as int].sound_on(*old(variables_handler)) ==> forall|a: Seq<i32>|
                #[trigger] within(a, *old(variables_handler)) && old(self).spec_constraints()[idx as int].holds(
                    *old(variables_handler),
                    a,
                ) ==> r is Ok && within(a, *final(variables_handler)),
            r matches Err(e) ==> failed_on(
                old(self).spec_constraints(),
                *old(variables_handler),
                *old(variables_handler),
                *final(variables_handler),
                e,
            ),
            r is Ok ==> propagated_once(
                old(self).spec_constraints(),
                *old(variables_handler),
                idx as int,
                *final(variables_handler),
            ),
            final(self).subsumeds@.len() == old(self).subsumeds@.len(),
            forall|k: int| 0 <= k < old(self).subsumeds@.len() && k != idx ==> #[trigger] final(self).subsumeds@[k]
                == old(self).subsumeds@[k],
            r is Ok ==> exists|ch: Seq<(VariableId, VariableState)>|
                #[trigger] step_ok(old(self).spec_constraints(), idx, *old(variables_handler), *final(variables_handler), ch)
                    && final(self).spec_graph().pending() == with_events(old(self).spec_graph().pending(), ch, idx),
    {
        let ghost h0 = *variables_handler;
        let ghost cs = self.constraints@;
        let ghost ci = cs[idx as int];
        let res = {
            let c = constraint_at(&mut self.constraints, idx);
            c.prepare(changes);
            let ghost cp = *c;
            let r = c.propagate(variables_handler);
            proof {
                lemma_propagation_shape(cp, h0, *c, *variables_handler, r);
                lemma_same_shape_trans(ci, cp, *c);
                assert forall|a: Seq<i32>|
                    #[trigger] within(a, h0) && ci.holds(h0, a) && ci.sound_on(h0) implies r is Ok && within(
                        a,
                        *variables_handler,
                    ) by {
                    lemma_same_shape(ci, cp, h0, h0, a);
                    lemma_propagation_keeps_solutions(cp, h0, *c, *variables_handler, r, a);
                }
                assert(cp.same_shape(ci) && cp.propagation(h0, *c, *variables_handler, r));
            }
            r
        };
        proof {
            assert(exists|cq: ConstraintBox| cq.same_shape(ci) && #[trigger] cq.propagation(
                h0,
                self.constraints@[idx as int],
                *variables_handler,
                res,
            ));
        }
        proof {
            assert forall|k: int| 0 <= k < cs.len() implies (#[trigger] self.constraints@[k]).same_shape(cs[k]) by {
                if k != idx {
                    assert(self.constraints@[k] == cs[k]);
                }
            }
        }
        let state = match res {
            Ok(state) => state,
            Err(e) => {
                proof {
                    let cp = choose|cp: ConstraintBox| cp.same_shape(ci) && #[trigger] cp.propagation(
                        h0,
                        self.constraints@[idx as int],
                        *variables_handler,
                        res,
                    );
                    assert(cs[idx as int] == ci);
                    assert(shrinks(h0.vars(), h0.vars()));
                }
                return Err(e);
            },
        };
        proof {
            lemma_all_ready_shrinks(cs, h0, *variables_handler);
            assert forall|k: int| 0 <= k < cs.len() implies (#[trigger] self.constraints@[k]).ready(*variables_handler) by {
                if k != idx {
                    assert(self.constraints@[k] == cs[k]);
                }
            }
            lemma_shrinks_total(h0.vars(), variables_handler.vars());
            let cq = choose|cq: ConstraintBox| cq.same_shape(ci) && #[trigger] cq.propagation(
                h0,
                self.constraints@[idx as int],
                *variables_handler,
                res,
            );
            assert(cs[idx as int] == ci);
            assert(shrinks(h0.vars(), h0.vars()));
            assert(shrinks(variables_handler.vars(), variables_handler.vars()));
            assert(cq.propagation(
                h0,
                self.constraints@[idx as int],
                *variables_handler,
                Ok::<PropagationState, VariableError>(state),
            ));
            assert(propagated_once(cs, h0, idx as int, *variables_handler));
        }
        let ghost ha = *variables_handler;
        let ghost c1 = self.constraints@[idx as int];
        let ghost p0 = self.graph.pending();
        proof {
            let cq = choose|cq: ConstraintBox| cq.same_shape(ci) && #[trigger] cq.propagation(
                h0,
                self.constraints@[idx as int],
                *variables_handler,
                res,
            );
            assert(cq.propagation(h0, c1, ha, Ok::<PropagationState, VariableError>(state)));
            let ch: Seq<(VariableId, VariableState)> = if state == PropagationState::FixPoint {
                c1.pending()
            } else {
                Seq::empty()
            };
            assert(step_ok(cs, idx, h0, ha, ch));
            if state != PropagationState::FixPoint {
                assert(with_events(p0, ch, idx) == p0);
            }
        }
        match state {
            PropagationState::FixPoint => {
                let ghost cs1 = self.constraints@;
                let res = constraint_at(&mut self.constraints, idx).result();
                proof {
                    lemma_same_shape_trans(cs[idx as int], cs1[idx as int], self.constraints@[idx as int]);
                    assert forall|k: int| 0 <= k < cs.len() implies (#[trigger] self.constraints@[k]).same_shape(cs[k]) by {
                        if k != idx {
                            assert(self.constraints@[k] == cs1[k]);
                        }
                    }
                    assert forall|k: int| 0 <= k < cs1.len() implies (#[trigger] self.constraints@[k]).ready(*variables_handler) by {
                        if k != idx {
                            assert(self.constraints@[k] == cs1[k]);
                        }
                    }
                }
                self.record_events(&res, idx, Ghost(h0.vars()), Ghost(variables_handler.vars()));
            },
            PropagationState::Subsumed => {
                self.subsumeds.set(idx, true);
            },
            PropagationState::NoChange => {},
        }
        Ok(())
    }

    /// Adds to the graph one event for each change reported by the
    /// constraint at `idx`.
    fn record_events(
        &mut self,
        res: &Vec<(VariableId, VariableState)>,
        idx: usize,
        Ghost(before): Ghost<Seq<crate::variables::int_var::IntVarValues>>,
        Ghost(after): Ghost<Seq<crate::variables::int_var::IntVarValues>>,
    )
        requires
            reports_shrink(res@, before, after),
            shrinks(before, after),
        ensures
            final(self).constraints@ == old(self).constraints@,
            final(self).subsumeds@ == old(self).subsumeds@,
            final(self).graph.edges() == old(self).graph.edges(),
            final(self).graph.pending() == with_events(old(self).graph.pending(), res@, idx),
            final(self).graph.pending() != old(self).graph.pending() ==> total_size(after) < total_size(
                before,
            ),
    {
        let ghost p0 = self.graph.pending();
        let mut k: usize = 0;
        while k < res.len()
            invariant
                k <= res@.len(),
                reports_shrink(res@, before, after),
                shrinks(before, after),
                self.constraints@ == old(self).constraints@,
                self.subsumeds@ == old(self).subsumeds@,
                self.graph.edges() == old(self).graph.edges(),
                k == 0 ==> self.graph.pending() == p0,
                p0 == old(self).graph.pending(),
                self.graph.pending() == with_events(p0, res@.take(k as int), idx),
            decreases res@.len() - k,
        {
            let (view, st) = res[k];
            self.graph.add_event(view, idx, st);
            proof {
                assert(res@.take(k + 1).drop_last() =~= res@.take(k as int));
                assert(res@.take(k + 1).last() == res@[k as int]);
            }
            k = k + 1;
        }
        proof {
            assert(res@.take(k as int) =~= res@);
            if res@.len() > 0 {
                let i = res@[0].0.0 as int;
                assert(after[i]@.len() < before[i]@.len());
                lemma_shrinks_total(before, after);
            }
        }
    }

    /// Propagates every constraint not known to be subsumed, then propagates
    /// the constraints that the resulting changes wake, until no change wakes
    /// any. Fails when a propagation fails.
    #[verifier::rlimit(60)]
    pub fn propagate_all(&mut self, variables_handler: &mut VariableHandler) -> (r: Result<
        PropagationState,
        VariableError,
    >)
        requires
            old(self).wf(*old(variables_handler)),
            old(variables_handler).wf(),
            all_nonempty(old(variables_handler).vars()),
        ensures
            final(variables_handler).wf(),
            final(variables_handler).same_tables(old(variables_handler)),
            shrinks(old(variables_handler).vars(), final(variables_handler).vars()),
            final(self).spec_constraints().len() == old(self).spec_constraints().len(),
            r is Ok ==> r == Ok::<PropagationState, VariableError>(PropagationState::FixPoint)
                && all_nonempty(final(variables_handler).vars()) && final(self).wf(
                *final(variables_handler),
            ) && final(self).spec_graph().pending().len() == 0,
            same_shapes(old(self).spec_constraints(), final(self).spec_constraints()),
            all_sound(old(self).spec_constraints(), *old(variables_handler)) ==> forall|a: Seq<i32>|
                #[trigger] within(a, *old(variables_handler)) && all_hold(
                    old(self).spec_constraints(),
                    *old(variables_handler),
                    a,
                ) ==> r is Ok && within(a, *final(variables_handler)),
            r matches Err(e) ==> exists|hb: VariableHandler| #[trigger] failed_on(
                old(self).spec_constraints(),
                *old(variables_handler),
                hb,
                *final(variables_handler),
                e,
            ),
            r is Ok ==> forall|k: int|
                0 <= k < old(self).spec_constraints().len() && !old(self).spec_subsumeds()[k] ==> #[trigger] propagated_once(
                    old(self).spec_constraints(),
                    *old(variables_handler),
                    k,
                    *final(variables_handler),
                ),
            r is Ok ==> exists|rounds: Seq<Seq<PropStep>>, hs: Seq<VariableHandler>|
                #[trigger] handler_run(
                    old(self).spec_constraints(),
                    old(self).spec_subsumeds(),
                    old(self).spec_graph().edges(),
                    old(self).spec_graph().pending(),
                    *old(variables_handler),
                    rounds,
                    hs,
                    *final(variables_handler),
                ),
    {
        let ghost h0 = *variables_handler;
        let ghost cs0 = self.constraints@;
        let ghost sub0 = self.subsumeds@;
        let ghost p0 = self.graph.pending();
        let ghost edges0 = self.graph.edges();
        let ghost mut first: Seq<PropStep> = Seq::empty();
        let n = self.constraints.len();
        let mut idx: usize = 0;
        while idx < n
            invariant
                idx <= n,
                n == self.constraints@.len(),
                self.wf(*variables_handler),
                variables_handler.wf(),
                variables_handler.same_tables(&h0),
                shrinks(h0.vars(), variables_handler.vars()),
                all_nonempty(variables_handler.vars()),
                h0.wf(),
                h0 == *old(variables_handler),
                n == old(self).constraints@.len(),
                cs0 == old(self).constraints@,
                same_shapes(cs0, self.constraints@),
                solutions_kept(cs0, h0, *variables_handler),
                sub0 == old(self).subsumeds@,
                self.subsumeds@.len() == n,
                forall|k: int| idx <= k < n ==> #[trigger] self.subsumeds@[k] == sub0[k],
                forall|k: int| 0 <= k < idx && !sub0[k] ==> #[trigger] propagated_once(cs0, h0, k, *variables_handler),
                p0 == old(self).graph.pending(),
                edges0 == old(self).graph.edges(),
                self.graph.edges() == edges0,
                chained(cs0, first, h0, *variables_handler),
                step_nodes(first) == unmarked_upto(sub0, idx as int),
                self.graph.pending() == recorded(p0, first),
            decreases n - idx,
        {
            if !self.subsumeds[idx] {
                let ghost before = *variables_handler;
                let ghost cur = self.constraints@;
                let ghost pb = self.graph.pending();
                let res = self.propagate_one(idx, Vec::new(), variables_handler);
                proof {
                    lemma_shrinks_trans(h0.vars(), before.vars(), variables_handler.vars());
                    lemma_step_keeps(cs0, cur, idx as int, h0, before, *variables_handler, res);
                    lemma_same_shapes_trans(cs0, cur, self.constraints@);
                    if res is Ok {
                        assert forall|k: int| 0 <= k < idx + 1 && !sub0[k] implies #[trigger] propagated_once(
                            cs0,
                            h0,
                            k,
                            *variables_handler,
                        ) by {
                            assert forall|j: int| 0 <= j < cs0.len() implies (#[trigger] cs0[j]).same_shape(cs0[j]) by {
                            }
                            assert(shrinks(h0.vars(), h0.vars()));
                            assert(shrinks(variables_handler.vars(), variables_handler.vars()));
                            if k < idx {
                                assert(propagated_once(cs0, h0, k, before));
                                lemma_propagated_once_moves(cs0, cs0, h0, h0, k, before, *variables_handler);
                            } else {
                                lemma_propagated_once_moves(cs0, cur, h0, before, k, *variables_handler, *variables_handler);
                            }
                        }
                    }
                }
                if let Err(e) = res {
                    proof {
                        lemma_failed_on_shapes(cs0, cur, h0, before, *variables_handler, e);
                        assert(failed_on(cs0, h0, before, *variables_handler, e));
                    }
                    return Err(e);
                }
                proof {
                    let ch = choose|ch: Seq<(VariableId, VariableState)>|
                        #[trigger] step_ok(cur, idx, before, *variables_handler, ch) && self.graph.pending() == with_events(
                            pb,
                            ch,
                            idx,
                        );
                    lemma_step_ok_shapes(cs0, cur, idx, before, *variables_handler, ch);
                    let st: PropStep = (idx, before, *variables_handler, ch);
                    lemma_chain_push(cs0, first, h0, st);
                    assert(recorded(p0, first.push(st)) == with_events(recorded(p0, first), ch, idx));
                    first = first.push(st);
                }
            } else {
                proof {
                    assert(sub0[idx as int]);
                }
            }
            idx = idx + 1;
        }
        let ghost mut rounds: Seq<Seq<PropStep>> = seq![first];
        let ghost mut hs: Seq<VariableHandler> = seq![h0, *variables_handler];
        proof {
            assert(rounds[0] == first);
            assert(round_events(p0, rounds, 0) == recorded(p0, first));
        }
        loop
            invariant_except_break
                self.graph.pending() == round_events(p0, rounds, rounds.len() - 1),
            invariant
                n == self.constraints@.len(),
                self.wf(*variables_handler),
                variables_handler.wf(),
                variables_handler.same_tables(&h0),
                shrinks(h0.vars(), variables_handler.vars()),
                all_nonempty(variables_handler.vars()),
                h0.wf(),
                h0 == *old(variables_handler),
                n == old(self).constraints@.len(),
                cs0 == old(self).constraints@,
                same_shapes(cs0, self.constraints@),
                solutions_kept(cs0, h0, *variables_handler),
                n == sub0.len(),
                forall|k: int| 0 <= k < n && !sub0[k] ==> #[trigger] propagated_once(cs0, h0, k, *variables_handler),
                self.graph.edges() == edges0,
                rounds.len() >= 1,
                hs.len() == rounds.len() + 1,
                hs[0] == h0,
                hs.last() == *variables_handler,
                forall|r: int| 0 <= r < rounds.len() ==> chained(cs0, #[trigger] rounds[r], hs[r], hs[r + 1]),
                step_nodes(rounds[0]) == unmarked_upto(sub0, n as int),
                forall|r: int|
                    0 < r < rounds.len() ==> lists_set(
                        step_nodes(#[trigger] rounds[r]),
                        triggered(edges0, round_events(p0, rounds, r - 1)).dom(),
                    ),
            ensures
                n == self.constraints@.len(),
                self.wf(*variables_handler),
                variables_handler.wf(),
                variables_handler.same_tables(&h0),
                shrinks(h0.vars(), variables_handler.vars()),
                all_nonempty(variables_handler.vars()),
                self.graph.pending().len() == 0,
                same_shapes(cs0, self.constraints@),
                solutions_kept(cs0, h0, *variables_handler),
                forall|k: int| 0 <= k < n && !sub0[k] ==> #[trigger] propagated_once(cs0, h0, k, *variables_handler),
                handler_run(cs0, sub0, edges0, p0, h0, rounds, hs, *variables_handler),
            decreases total_size(variables_handler.vars()), if self.graph.pending().len() > 0 {
                1int
            } else {
                0int
            },
        {
            let ghost start_total = total_size(variables_handler.vars());
            let ghost start_pending = self.graph.pending();
            let ghost edges = self.graph.edges();
            let events = self.graph.events();
            match events {
                None => {
                    proof {
                        assert(triggered(edges0, round_events(p0, rounds, rounds.len() - 1)).dom() == Set::<usize>::empty());
                    }
                    break ;
                },
                Some(events) => {
                    proof {
                        assert(start_pending.len() > 0) by {
                            if start_pending.len() == 0 {
                                assert(start_pending =~= Seq::<crate::graph::Event>::empty());
                                assert(triggered(edges, start_pending).dom() =~= Set::<usize>::empty());
                            }
                        }
                        self.graph.lemma_triggered_below(start_pending, n as nat);
                        assert(self.graph.pending() =~= Seq::<Event>::empty());
                    }
                    let ghost hstart = *variables_handler;
                    let ghost mut cur_round: Seq<PropStep> = Seq::empty();
                    let mut e: usize = 0;
                    while e < events.len()
                        invariant
                            e <= events@.len(),
                            n == self.constraints@.len(),
                            self.wf(*variables_handler),
                            variables_handler.wf(),
                            variables_handler.same_tables(&h0),
                            shrinks(h0.vars(), variables_handler.vars()),
                            all_nonempty(variables_handler.vars()),
                            h0.wf(),
                            h0 == *old(variables_handler),
                            n == old(self).constraints@.len(),
                            cs0 == old(self).constraints@,
                            same_shapes(cs0, self.constraints@),
                            solutions_kept(cs0, h0, *variables_handler),
                            n == sub0.len(),
                            forall|k: int| 0 <= k < n && !sub0[k] ==> #[trigger] propagated_once(cs0, h0, k, *variables_handler),
                            self.graph.edges() == edges,
                            total_size(variables_handler.vars()) <= start_total,
                            self.graph.pending().len() > 0 ==> total_size(variables_handler.vars())
                                < start_total,
                            lists(nodes_view(events@), triggered(edges, start_pending)),
                            forall|t: usize| #[trigger] triggered(edges, start_pending).dom().contains(t)
                                ==> t < n,
                            edges == edges0,
                            start_pending == round_events(p0, rounds, rounds.len() - 1),
                            hstart == hs.last(),
                            chained(cs0, cur_round, hstart, *variables_handler),
                            step_nodes(cur_round) == woken_keys(nodes_view(events@)).take(e as int),
                            self.graph.pending() == recorded(Seq::empty(), cur_round),
                        decreases events@.len() - e,
                    {
                        let idx = events[e].0;
                        proof {
                            assert(triggered(edges, start_pending).dom().contains(nodes_view(events@)[e as int].0));
                        }
                        let changes = copy_ids(&events[e].1);
                        let ghost before = *variables_handler;
                        let ghost pending_before = self.graph.pending();
                        let ghost cur = self.constraints@;
                        let ghost idx_key = idx;
                        let res = self.propagate_one(idx, changes, variables_handler);
                        proof {
                            lemma_shrinks_trans(h0.vars(), before.vars(), variables_handler.vars());
                            lemma_step_keeps(cs0, cur, idx as int, h0, before, *variables_handler, res);
                            lemma_same_shapes_trans(cs0, cur, self.constraints@);
                        }
                        if let Err(e) = res {
                            proof {
                                lemma_failed_on_shapes(cs0, cur, h0, before, *variables_handler, e);
                                assert(failed_on(cs0, h0, before, *variables_handler, e));
                            }
                            return Err(e);
                        }
                        proof {
                            lemma_shrinks_trans(h0.vars(), before.vars(), variables_handler.vars());
                            lemma_shrinks_total(before.vars(), variables_handler.vars());
                            lemma_all_propagated_shrink(cs0, h0, sub0, before, *variables_handler);
                            let ch = choose|ch: Seq<(VariableId, VariableState)>|
                                #[trigger] step_ok(cur, idx, before, *variables_handler, ch) && self.graph.pending()
                                    == with_events(pending_before, ch, idx);
                            lemma_step_ok_shapes(cs0, cur, idx, before, *variables_handler, ch);
                            let st: PropStep = (idx, before, *variables_handler, ch);
                            lemma_chain_push(cs0, cur_round, hstart, st);
                            assert(recorded(Seq::empty(), cur_round.push(st)) == with_events(
                                recorded(Seq::empty(), cur_round),
                                ch,
                                idx,
                            ));
                            let keys = woken_keys(nodes_view(events@));
                            assert(keys[e as int] == idx);
                            assert(keys.take(e + 1) =~= keys.take(e as int).push(idx));
                            cur_round = cur_round.push(st);
                        }
                        e = e + 1;
                    }
                    proof {
                        let keys = woken_keys(nodes_view(events@));
                        assert(keys.take(e as int) =~= keys);
                        lemma_lists_keys(nodes_view(events@), triggered(edges0, start_pending));
                        lemma_round_push(cs0, sub0, edges0, p0, h0, rounds, hs, cur_round, *variables_handler);
                        rounds = rounds.push(cur_round);
                        hs = hs.push(*variables_handler);
                    }
                },
            }
        }
        Ok(PropagationState::FixPoint)
    }
}

/// The constraint at `idx`, to be changed in place.
fn constraint_at(v: &mut Vec<ConstraintBox>, idx: usize) -> (r: &mut ConstraintBox)
    requires
        idx < old(v)@.len(),
    ensures
        *r == old(v)@[idx as int],
        final(v)@ == old(v)@.update(idx as int, *final(r)),
{
    &mut v[idx]
}

/// A copy of a list of identifiers.
fn copy_ids(v: &Vec<VariableId>) -> (r: Vec<VariableId>)
    ensures
        r@ == v@,
{
    let mut r: Vec<VariableId> = Vec::new();
    let mut i: usize = 0;
    while i < v.len()
        invariant
            i <= v@.len(),
            r@ == v@.subrange(0, i as int),
        decreases v@.len() - i,
    {
        r.push(v[i]);
        i = i + 1;
        proof {
            assert(r@ =~= v@.subrange(0, i as int));
        }
    }
    proof {
        assert(v@.subrange(0, v@.len() as int) =~= v@);
    }
    r
}
/// Collects the constraints of a model, then builds their handler, which
/// initialises them on the variables.
pub trait ConstraintsHandlerBuilder<Variables: VariablesHandler, Constraints: ConstraintsHandler<Variables>>: Sized {
    /// The constraints collected so far.
    spec fn collected(&self) -> Seq<ConstraintBox>;

    /// The collected constraints can be initialised on `variables`.
    spec fn can_finalize(&self, variables: Variables) -> bool;

    /// What `finalize` promises of its outcome `r`, given the variables before
    /// and after.
    spec fn finalized(&self, before: Variables, after: Variables, r: Result<Constraints, VariableError>) -> bool;

    /// Collects a constraint.
    fn add(&mut self, constraint: ConstraintBox)
        ensures
            final(self).collected() == old(self).collected().push(constraint),
    ;

    /// Builds the handler and initialises the constraints.
    fn finalize(self, variables: &mut Variables) -> (r: Result<Constraints, VariableError>)
        requires
            self.can_finalize(*old(variables)),
        ensures
            self.finalized(*old(variables), *final(variables), r),
    ;
}

/// Propagates the constraints of a model on its variables.
pub trait ConstraintsHandler<Variables: VariablesHandler>: Sized {
    /// The handler can propagate on `variables`.
    spec fn ready_on(&self, variables: Variables) -> bool;

    /// What `propagate_all` promises of its outcome `r`, given the handler
    /// after and the variables before and after.
    spec fn propagated(
        &self,
        after: Self,
        before_vars: Variables,
        after_vars: Variables,
        r: Result<PropagationState, VariableError>,
    ) -> bool;

    /// Propagates the constraints until the pending events wake none, or a
    /// propagation fails.
    fn propagate_all(&mut self, variables: &mut Variables) -> (r: Result<PropagationState, VariableError>)
        requires
            old(self).ready_on(*old(variables)),
        ensures
            old(self).propagated(*final(self), *old(variables), *final(variables), r),
    ;
}

impl ConstraintsHandlerBuilder<VariableHandler, DefaultConstraintsHandler> for DefaultConstraintsHandlerBuilder {
    open spec fn collected(&self) -> Seq<ConstraintBox> {
        self.spec_constraints()
    }

    open spec fn can_finalize(&self, variables: VariableHandler) -> bool {
        &&& variables.wf()
        &&& all_nonempty(variables.vars())
        &&& all_ready(self.spec_constraints(), variables)
    }

    open spec fn finalized(
        &self,
        before: VariableHandler,
        after: VariableHandler,
        r: Result<DefaultConstraintsHandler, VariableError>,
    ) -> bool {
        &&& after.wf()
        &&& after.same_tables(&before)
        &&& shrinks(before.vars(), after.vars())
        &&& r matches Ok(h) ==> h.wf(after) && all_nonempty(after.vars()) && h.spec_constraints().len()
            == self.spec_constraints().len() && same_shapes(self.spec_constraints(), h.spec_constraints())
        &&& all_sound(self.spec_constraints(), before) ==> forall|a: Seq<i32>|
            #[trigger] within(a, before) && all_hold(self.spec_constraints(), before, a) ==> r is Ok && within(
                a,
                after,
            )
    }

    fn add(&mut self, constraint: ConstraintBox) {
        DefaultConstraintsHandlerBuilder::add(self, constraint)
    }

    fn finalize(self, variables: &mut VariableHandler) -> (r: Result<DefaultConstraintsHandler, VariableError>) {
        DefaultConstraintsHandlerBuilder::finalize(self, variables)
    }
}

impl ConstraintsHandler<VariableHandler> for DefaultConstraintsHandler {
    open spec fn ready_on(&self, variables: VariableHandler) -> bool {
        &&& self.wf(variables)
        &&& variables.wf()
        &&& all_nonempty(variables.vars())
    }

    open spec fn propagated(
        &self,
        after: DefaultConstraintsHandler,
        before_vars: VariableHandler,
        after_vars: VariableHandler,
        r: Result<PropagationState, VariableError>,
    ) -> bool {
        &&& after_vars.wf()
        &&& after_vars.same_tables(&before_vars)
        &&& shrinks(before_vars.vars(), after_vars.vars())
        &&& after.spec_constraints().len() == self.spec_constraints().len()
        &&& r is Ok ==> r == Ok::<PropagationState, VariableError>(PropagationState::FixPoint)
            && all_nonempty(after_vars.vars()) && after.wf(after_vars)
            && after.spec_graph().pending().len() == 0
        &&& same_shapes(self.spec_constraints(), after.spec_constraints())
        &&& all_sound(self.spec_constraints(), before_vars) ==> forall|a: Seq<i32>|
            #[trigger] within(a, before_vars) && all_hold(self.spec_constraints(), before_vars, a) ==> r is Ok
                && within(a, after_vars)
    }

    fn propagate_all(&mut self, variables: &mut VariableHandler) -> (r: Result<PropagationState, VariableError>) {
        DefaultConstraintsHandler::propagate_all(self, variables)
    }
}

} // verus!
