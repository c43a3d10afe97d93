use vstd::prelude::*;

use std::sync::atomic::AtomicBool;
use std::sync::Arc;

use crate::branchers::{
    agrees, covers, dom_at, handler_outcome, lemma_outcome_cover, open_choice, Brancher, Branch,
};
use crate::constraints::comparisons::doms_of;
use crate::constraints::handlers::{
    all_hold, all_sound, failed_on, handler_run, lemma_same_shape, lemma_same_shapes_trans, same_shapes, within, ConstraintBox,
    PropStep,
};
use crate::constraints::{all_nonempty, lemma_shrinks_total, lemma_shrinks_trans, shrinks};
use crate::spaces::{
    has_solution, lemma_no_outcome_assigned, lemma_same_branchers, lemma_same_doms, same_branchers,
    space_keeps, BranchState, Space, SpaceState,
};
use crate::variables::handlers::{total_size, VariableHandler};
use crate::variables::int_var::assignment;
use crate::variables::VariableError;

verus! {

/// `s` is a solution found from the space `init`: its domains are included
/// in those of `init`, all non-empty, no event of its constraints is left
/// pending, and every variable that the branchers of `init` branch on is
/// assigned.
pub open spec fn is_solution(s: Space, init: Space) -> bool {
    &&& s.wf()
    &&& all_nonempty(s.spec_variables().vars())
    &&& s.spec_variables().same_tables(&init.spec_variables())
    &&& shrinks(init.spec_variables().vars(), s.spec_variables().vars())
    &&& s.spec_constraints().spec_graph().pending().len() == 0
    &&& same_branchers(s.spec_brancher(), init.spec_brancher())
    &&& init.spec_brancher().all_assigned(s.spec_variables())
}

/// A solution found from a space is one from any space that it was
/// reached from by shrinking.
proof fn lemma_solution_trans(s: Space, mid: Space, init: Space)
    requires
        is_solution(s, mid),
        mid.spec_variables().same_tables(&init.spec_variables()),
        shrinks(init.spec_variables().vars(), mid.spec_variables().vars()),
        same_branchers(mid.spec_brancher(), init.spec_brancher()),
    ensures
        is_solution(s, init),
{
    lemma_shrinks_trans(init.spec_variables().vars(), mid.spec_variables().vars(), s.spec_variables().vars());
    lemma_same_branchers(s.spec_variables(), mid.spec_brancher(), init.spec_brancher());
    assert(same_branchers(s.spec_brancher(), init.spec_brancher())) by {
        assert forall|i: int| 0 <= i < s.spec_brancher().spec_branchers().len() implies (
        #[trigger] s.spec_brancher().spec_branchers()[i]).spec_views()
            == init.spec_brancher().spec_branchers()[i].spec_views()
            && s.spec_brancher().spec_branchers()[i].spec_descending()
            == init.spec_brancher().spec_branchers()[i].spec_descending() by {
            assert(mid.spec_brancher().spec_branchers()[i].spec_views()
                == init.spec_brancher().spec_branchers()[i].spec_views());
        }
    }
}

/// A space that ran to completion without anything left to branch on is a
/// solution found from itself.
proof fn lemma_subsumed_solution(s: Space)
    requires
        s.wf(),
        all_nonempty(s.spec_variables().vars()),
        s.spec_constraints().spec_graph().pending().len() == 0,
        handler_outcome(s.spec_variables(), s.spec_brancher().spec_branchers()) is None,
    ensures
        is_solution(s, s),
{
    lemma_no_outcome_assigned(s.spec_variables(), s.spec_brancher());
    assert(shrinks(s.spec_variables().vars(), s.spec_variables().vars()));
}

/// A copy of a solution is a solution.
proof fn lemma_solution_copy(s: Space, t: Space, init: Space)
    requires
        is_solution(t, init),
        s.wf(),
        doms_of(s.spec_variables().vars()) == doms_of(t.spec_variables().vars()),
        s.spec_variables().same_tables(&t.spec_variables()),
        same_branchers(s.spec_brancher(), t.spec_brancher()),
        s.spec_constraints().spec_graph().pending() == t.spec_constraints().spec_graph().pending(),
    ensures
        is_solution(s, init),
{
    lemma_same_doms(t.spec_variables().vars(), s.spec_variables().vars());
    lemma_shrinks_trans(init.spec_variables().vars(), t.spec_variables().vars(), s.spec_variables().vars());
    assert forall|i: int| 0 <= i < s.spec_variables().vars().len() implies (#[trigger] s.spec_variables().vars()[i])@.len()
        > 0 by {
        assert(doms_of(s.spec_variables().vars())[i] == doms_of(t.spec_variables().vars())[i]);
    }
    assert forall|i: int, j: int|
        0 <= i < init.spec_brancher().spec_branchers().len() && 0 <= j < init.spec_brancher().spec_branchers()[i].spec_views().len()
            implies dom_at(s.spec_variables(), #[trigger] init.spec_brancher().spec_branchers()[i].spec_views()[j]).len() == 1 by {
        let v = init.spec_brancher().spec_branchers()[i].spec_views()[j];
        let k = s.spec_variables().spec_index(v.place());
        assert(t.spec_brancher().spec_branchers()[i].spec_views() == init.spec_brancher().spec_branchers()[i].spec_views());
        assert(t.spec_brancher().spec_branchers()[i].valid_on(t.spec_variables()));
        assert(t.spec_variables().valid(t.spec_brancher().spec_branchers()[i].spec_views()[j].place()));
        assert(0 <= k < s.spec_variables().vars().len());
        assert(dom_at(t.spec_variables(), v).len() == 1);
        assert(doms_of(s.spec_variables().vars())[k] == doms_of(t.spec_variables().vars())[k]);
    }
    assert(same_branchers(s.spec_brancher(), init.spec_brancher())) by {
        assert forall|i: int| 0 <= i < s.spec_brancher().spec_branchers().len() implies (
        #[trigger] s.spec_brancher().spec_branchers()[i]).spec_views()
            == init.spec_brancher().spec_branchers()[i].spec_views()
            && s.spec_brancher().spec_branchers()[i].spec_descending()
            == init.spec_brancher().spec_branchers()[i].spec_descending() by {
            assert(t.spec_brancher().spec_branchers()[i].spec_views()
                == init.spec_brancher().spec_branchers()[i].spec_views());
        }
    }
}

/// Every assignment of values from the domains of `s` satisfies its
/// constraints.
pub open spec fn all_satisfying(s: Space) -> bool {
    forall|a: Seq<i32>|
        #[trigger] within(a, s.spec_variables()) ==> all_hold(
            s.spec_constraints().spec_constraints(),
            s.spec_variables(),
            a,
        )
}

/// The assignment of the first value of each domain.
proof fn lemma_some_within(h: VariableHandler)
    requires
        all_nonempty(h.vars()),
    ensures
        within(Seq::new(h.vars().len(), |p: int| h.vars()[p]@[0]), h),
{
    let a = Seq::new(h.vars().len(), |p: int| h.vars()[p]@[0]);
    assert forall|p: int| 0 <= p < a.len() implies (#[trigger] h.vars()[p])@.contains(a[p]) by {
        assert(h.vars()[p]@.len() > 0);
        assert(h.vars()[p]@[0] == a[p]);
    }
}

/// An assignment within shrunk domains is within the domains they come from.
proof fn lemma_within_shrinks(a: Seq<i32>, h0: VariableHandler, h1: VariableHandler)
    requires
        shrinks(h0.vars(), h1.vars()),
        within(a, h1),
    ensures
        within(a, h0),
{
    assert forall|p: int| 0 <= p < a.len() implies (#[trigger] h0.vars()[p])@.contains(a[p]) by {
        assert(h1.vars()[p]@.contains(a[p]));
    }
}

/// When every assignment of `s0` satisfies its constraints, so does every
/// assignment of a space `s1` with shrunk domains and constraints of the
/// same shapes, and propagation stays sound on them.
proof fn lemma_all_satisfying_shrinks(s0: Space, s1: Space)
    requires
        all_sound(s0.spec_constraints().spec_constraints(), s0.spec_variables()),
        all_satisfying(s0),
        s1.spec_variables().same_tables(&s0.spec_variables()),
        shrinks(s0.spec_variables().vars(), s1.spec_variables().vars()),
        same_shapes(s0.spec_constraints().spec_constraints(), s1.spec_constraints().spec_constraints()),
    ensures
        all_sound(s1.spec_constraints().spec_constraints(), s1.spec_variables()),
        all_satisfying(s1),
{
    lemma_shapes_agree(
        s0.spec_constraints().spec_constraints(),
        s0.spec_variables(),
        s1.spec_constraints().spec_constraints(),
        s1.spec_variables(),
    );
    assert forall|a: Seq<i32>| #[trigger] within(a, s1.spec_variables()) implies all_hold(
        s1.spec_constraints().spec_constraints(),
        s1.spec_variables(),
        a,
    ) by {
        lemma_within_shrinks(a, s0.spec_variables(), s1.spec_variables());
        assert(within(a, s0.spec_variables()));
    }
}

/// A space whose assignments all satisfy its constraints, on non-empty
/// domains, has a solution.
proof fn lemma_satisfying_has_solution(s: Space)
    requires
        all_sound(s.spec_constraints().spec_constraints(), s.spec_variables()),
        all_satisfying(s),
        all_nonempty(s.spec_variables().vars()),
    ensures
        has_solution(s),
{
    lemma_some_within(s.spec_variables());
    let a = Seq::new(s.spec_variables().vars().len(), |p: int| s.spec_variables().vars()[p]@[0]);
    assert(within(a, s.spec_variables()));
}

/// How the search went below one choice of a node.
pub enum Attempt {
    /// Propagation failed once the choice was made.
    Failed,
    /// Propagation succeeded once the choice was made and left the space
    /// `Space`, on which the branchers offer the choices `Seq<Branch>`; the
    /// search below them went as the records `Seq<Attempt>` tell.
    Explored(Space, Seq<Branch>, Seq<Attempt>),
}

/// The space `c` is the space `node` with the choice `b` made: the same
/// variables, constraints and branchers, with the domain of the chosen
/// variable reduced to the chosen value.
pub open spec fn chosen(node: Space, b: Branch, c: Space) -> bool {
    &&& c.wf()
    &&& c.spec_variables().same_tables(&node.spec_variables())
    &&& same_branchers(c.spec_brancher(), node.spec_brancher())
    &&& same_shapes(node.spec_constraints().spec_constraints(), c.spec_constraints().spec_constraints())
    &&& c.spec_constraints().spec_graph().pending() == node.spec_constraints().spec_graph().pending()
    &&& doms_of(c.spec_variables().vars()) == doms_of(node.spec_variables().vars()).update(
        node.spec_variables().spec_index(b.view.place()),
        seq![b.value],
    )
}

/// Propagating the constraints of the space `c` fails: one of them fails on
/// domains shrunk from those of `c`.
pub open spec fn propagation_fails(c: Space) -> bool {
    exists|hb: VariableHandler, ha: VariableHandler, e: VariableError|
        #[trigger] failed_on(c.spec_constraints().spec_constraints(), c.spec_variables(), hb, ha, e)
}

/// Propagating the constraints of the space `c` succeeds and leaves the
/// space `d`, on which the branchers offer the choices `bs`.
pub open spec fn propagates_to(c: Space, d: Space, bs: Seq<Branch>) -> bool {
    &&& d.wf()
    &&& all_nonempty(d.spec_variables().vars())
    &&& d.spec_variables().same_tables(&c.spec_variables())
    &&& shrinks(c.spec_variables().vars(), d.spec_variables().vars())
    &&& d.spec_brancher() == c.spec_brancher()
    &&& d.spec_constraints().spec_graph().pending().len() == 0
    &&& space_keeps(c, d)
    &&& handler_outcome(d.spec_variables(), d.spec_brancher().spec_branchers()) == Some(bs)
    &&& exists|rounds: Seq<Seq<PropStep>>, hs: Seq<VariableHandler>|
        #[trigger] handler_run(
            c.spec_constraints().spec_constraints(),
            c.spec_constraints().spec_subsumeds(),
            c.spec_constraints().spec_graph().edges(),
            c.spec_constraints().spec_graph().pending(),
            c.spec_variables(),
            rounds,
            hs,
            d.spec_variables(),
        )
}

/// The search below the space `node`, whose choices are `bs`, went as the
/// records `t` tell and found no solution. The choices were tried in order,
/// one record each; a choice whose search below found nothing did not end
/// the node, so the search stopped only after the last choice, or at the
/// first choice whose propagation failed.
pub open spec fn fruitless(node: Space, bs: Seq<Branch>, t: Seq<Attempt>) -> bool
    decreases t,
{
    &&& t.len() <= bs.len()
    &&& t.len() == bs.len() || (t.len() > 0 && t.last() is Failed)
    &&& forall|l: int| 0 <= l < t.len() - 1 ==> #[trigger] t[l] is Explored
    &&& forall|l: int| 0 <= l < t.len() ==> tried(node, bs[l], #[trigger] t[l])
}

/// The choice `b` of the space `node` went as the record `a` tells: its
/// propagation failed, or it succeeded and the search below found nothing.
pub open spec fn tried(node: Space, b: Branch, a: Attempt) -> bool
    decreases a,
{
    match a {
        Attempt::Failed => exists|c: Space| #[trigger] chosen(node, b, c) && propagation_fails(c),
        Attempt::Explored(d, bs, sub) => exists|c: Space|
            #[trigger] chosen(node, b, c) && propagates_to(c, d, bs) && fruitless(d, bs, sub),
    }
}

/// The search from the space `s` found no solution: its propagation failed,
/// or it left choices whose search was fruitless.
pub open spec fn search_fails(s: Space) -> bool {
    ||| propagation_fails(s)
    ||| exists|d: Space, bs: Seq<Branch>, t: Seq<Attempt>| #[trigger] fruitless(d, bs, t) && propagates_to(s, d, bs)
}

/// Depth-first search from a space.
pub struct Solver {
    init: Space,
    solution: Option<Space>,
}

impl Solver {
    /// A search from `space`.
    pub fn new(space: Space) -> (r: Solver)
        ensures
            r.spec_init() == space,
            r.spec_solution() is None,
    {
        Solver { init: space, solution: None }
    }

    pub closed spec fn spec_init(&self) -> Space {
        self.init
    }

    pub closed spec fn spec_solution(&self) -> Option<Space> {
        self.solution
    }

    /// Searches for a solution, depth first, trying the choices of each
    /// node in order. Once a choice fails during propagation, the remaining
    /// choices of the same node are not tried: the search resumes with the
    /// next choice of the node above. Returns whether a solution was found;
    /// it is kept for `solution`. When none is found, the search went as a
    /// fruitless search by that rule: a choice whose search below finds
    /// nothing is followed by the next choice of its node.
    pub fn solve(&mut self) -> (r: bool)
        requires
            old(self).spec_init().wf(),
            all_nonempty(old(self).spec_init().spec_variables().vars()),
        ensures
            r ==> (final(self).spec_solution() matches Some(s) && is_solution(s, old(self).spec_init())),
            !r ==> final(self).spec_solution() == old(self).spec_solution(),
            !r ==> search_fails(old(self).spec_init()),
            all_sound(old(self).spec_init().spec_constraints().spec_constraints(), old(self).spec_init().spec_variables())
                && all_satisfying(old(self).spec_init()) ==> r,
    {
        let ghost init0 = self.init;
        proof {
            if all_sound(init0.spec_constraints().spec_constraints(), init0.spec_variables()) && all_satisfying(init0) {
                lemma_satisfying_has_solution(init0);
            }
        }
        match self.init.run() {
            Ok(SpaceState::Subsumed) => {
                let s = self.init.duplicate();
                proof {
                    lemma_subsumed_solution(self.init);
                    lemma_solution_copy(s, self.init, self.init);
                    lemma_solution_trans(s, self.init, init0);
                }
                self.solution = Some(s);
                true
            },
            Ok(SpaceState::Branches(it)) => {
                let bs = it.branches();
                proof {
                    crate::branchers::lemma_outcome_open_all(self.init.spec_variables(), self.init.spec_brancher());
                    let out = handler_outcome(self.init.spec_variables(), self.init.spec_brancher().spec_branchers());
                    assert(out == Some(bs@));
                    assert forall|k: int| 0 <= k < bs@.len() implies open_choice(self.init.spec_variables(), #[trigger] bs@[k]) by {
                        assert(bs@[k] == out->0[k]);
                    }
                    crate::branchers::lemma_outcome_len(self.init.spec_variables(), self.init.spec_brancher());
                    if all_sound(init0.spec_constraints().spec_constraints(), init0.spec_variables()) && all_satisfying(init0) {
                        lemma_all_satisfying_shrinks(init0, self.init);
                    }
                }
                let (found, Ghost(t)) = explore(&self.init, bs);
                match found {
                    Some(s) => {
                        proof {
                            lemma_solution_trans(s, self.init, init0);
                        }
                        self.solution = Some(s);
                        true
                    },
                    None => {
                        proof {
                            assert(propagates_to(init0, self.init, bs@));
                            assert(fruitless(self.init, bs@, t));
                        }
                        false
                    },
                }
            },
            Err(_) => {
                proof {
                    assert(propagation_fails(init0));
                }
                false
            },
        }
    }

    /// Takes the solution found, leaving none.
    pub fn solution(&mut self) -> (r: Option<Space>)
        ensures
            r == old(self).spec_solution(),
            final(self).spec_solution() is None,
            final(self).spec_init() == old(self).spec_init(),
    {
        let mut sol = None;
        std::mem::swap(&mut sol, &mut self.solution);
        sol
    }
}

/// Tries the choices `branches` of the space `node` in order, depth first.
/// A choice whose propagation fails ends the exploration of `node`; one whose
/// search below finds nothing does not. When nothing is found, the records of
/// the choices tried come with the result.
fn explore(node: &Space, branches: &Vec<Branch>) -> (r: (Option<Space>, Ghost<Seq<Attempt>>))
    requires
        node.wf(),
        all_nonempty(node.spec_variables().vars()),
        forall|k: int| 0 <= k < branches@.len() ==> open_choice(node.spec_variables(), #[trigger] branches@[k]),
    ensures
        r.0 matches Some(s) ==> is_solution(s, *node),
        r.0 is None ==> fruitless(*node, branches@, r.1@),
        branches@.len() > 0 && all_sound(node.spec_constraints().spec_constraints(), node.spec_variables())
            && all_satisfying(*node) ==> r.0 is Some,
    decreases total_size(node.spec_variables().vars()),
{
    let ghost good = all_sound(node.spec_constraints().spec_constraints(), node.spec_variables()) && all_satisfying(*node);
    let mut k: usize = 0;
    let ghost mut t: Seq<Attempt> = Seq::empty();
    while k < branches.len()
        invariant
            node.wf(),
            all_nonempty(node.spec_variables().vars()),
            forall|l: int| 0 <= l < branches@.len() ==> open_choice(node.spec_variables(), #[trigger] branches@[l]),
            k <= branches@.len(),
            good == (all_sound(node.spec_constraints().spec_constraints(), node.spec_variables()) && all_satisfying(*node)),
            good ==> k == 0,
            t.len() == k,
            forall|l: int| 0 <= l < t.len() ==> #[trigger] t[l] is Explored,
            forall|l: int| 0 <= l < t.len() ==> tried(*node, branches@[l], #[trigger] t[l]),
        decreases branches@.len() - k,
    {
        let b = branches[k];
        proof {
            assert(open_choice(node.spec_variables(), branches@[k as int]));
        }
        let mut child = node.duplicate();
        proof {
            lemma_same_doms(node.spec_variables().vars(), child.spec_variables().vars());
            let i = node.spec_variables().spec_index(b.view.place());
            assert(doms_of(child.spec_variables().vars())[i] == doms_of(node.spec_variables().vars())[i]);
            assert(dom_at(child.spec_variables(), b.view) == dom_at(node.spec_variables(), b.view));
        }
        let ghost c0 = child;
        let applied = child.apply(&b);
        proof {
            let i = node.spec_variables().spec_index(b.view.place());
            let d = dom_at(node.spec_variables(), b.view);
            assert(applied is Ok);
            assert(dom_at(child.spec_variables(), b.view) == seq![b.value]);
            assert(child.spec_variables().vars()[i]@.len() < c0.spec_variables().vars()[i]@.len());
            lemma_shrinks_total(c0.spec_variables().vars(), child.spec_variables().vars());
            assert forall|j: int| 0 <= j < child.spec_variables().vars().len() implies (#[trigger] child.spec_variables().vars()[j])@.len()
                > 0 by {
                if j != i {
                    assert(doms_of(child.spec_variables().vars())[j] == doms_of(c0.spec_variables().vars())[j]);
                }
            }
        }
        let ghost c1 = child;
        proof {
            if good {
                lemma_shrinks_trans(node.spec_variables().vars(), c0.spec_variables().vars(), c1.spec_variables().vars());
                lemma_all_satisfying_shrinks(*node, c1);
                lemma_satisfying_has_solution(c1);
            }
        }
        match child.run() {
            Ok(SpaceState::Subsumed) => {
                proof {
                    lemma_subsumed_solution(child);
                    lemma_shrinks_trans(c0.spec_variables().vars(), c1.spec_variables().vars(), child.spec_variables().vars());
                    lemma_shrinks_trans(node.spec_variables().vars(), c0.spec_variables().vars(), child.spec_variables().vars());
                    lemma_solution_trans(child, child, *node);
                }
                return (Some(child), Ghost(Seq::empty()));
            },
            Ok(SpaceState::Branches(it)) => {
                let bs = it.branches();
                proof {
                    lemma_shrinks_total(c1.spec_variables().vars(), child.spec_variables().vars());
                    crate::branchers::lemma_outcome_open_all(child.spec_variables(), child.spec_brancher());
                    let out = handler_outcome(child.spec_variables(), child.spec_brancher().spec_branchers());
                    assert(out == Some(bs@));
                    assert forall|k: int| 0 <= k < bs@.len() implies open_choice(child.spec_variables(), #[trigger] bs@[k]) by {
                        assert(bs@[k] == out->0[k]);
                    }
                    crate::branchers::lemma_outcome_len(child.spec_variables(), child.spec_brancher());
                    if good {
                        lemma_same_shapes_trans(
                            node.spec_constraints().spec_constraints(),
                            c1.spec_constraints().spec_constraints(),
                            child.spec_constraints().spec_constraints(),
                        );
                        lemma_shrinks_trans(node.spec_variables().vars(), c0.spec_variables().vars(), c1.spec_variables().vars());
                        lemma_shrinks_trans(node.spec_variables().vars(), c1.spec_variables().vars(), child.spec_variables().vars());
                        lemma_all_satisfying_shrinks(*node, child);
                    }
                }
                let (found, Ghost(sub)) = explore(&child, bs);
                match found {
                    Some(s) => {
                        proof {
                            lemma_shrinks_trans(c0.spec_variables().vars(), c1.spec_variables().vars(), child.spec_variables().vars());
                            lemma_shrinks_trans(node.spec_variables().vars(), c0.spec_variables().vars(), child.spec_variables().vars());
                            lemma_solution_trans(s, child, *node);
                        }
                        return (Some(s), Ghost(Seq::empty()));
                    },
                    None => {
                        proof {
                            let a = Attempt::Explored(child, bs@, sub);
                            assert(chosen(*node, b, c1));
                            assert(propagates_to(c1, child, bs@));
                            assert(tried(*node, b, a));
                            t = t.push(a);
                        }
                    },
                }
            },
            Err(_) => {
                proof {
                    assert(chosen(*node, b, c1));
                    assert(propagation_fails(c1));
                    assert(tried(*node, b, Attempt::Failed));
                    t = t.push(Attempt::Failed);
                }
                return (None, Ghost(t));
            },
        }
        k = k + 1;
    }
    (None, Ghost(t))
}

/// Distinct integers in `[0, n)` are at most `n`.
proof fn lemma_distinct_bound(ps: Seq<int>, n: int)
    requires
        0 <= n,
        forall|i: int| 0 <= i < ps.len() ==> 0 <= #[trigger] ps[i] < n,
        forall|i: int, j: int| 0 <= i < j < ps.len() ==> ps[i] != ps[j],
    ensures
        ps.len() <= n,
{
    assert(ps.no_duplicates());
    ps.unique_seq_to_set();
    vstd::set_lib::lemma_int_range(0, n);
    assert(ps.to_set().subset_of(vstd::set_lib::set_int_range(0, n)));
    vstd::set_lib::lemma_len_subset(ps.to_set(), vstd::set_lib::set_int_range(0, n));
}

/// A non-empty domain included in `[v]` is `[v]`.
proof fn lemma_singleton(s: Seq<i32>, v: i32)
    requires
        crate::variables::sorted::sorted(s),
        s.len() > 0,
        s.len() <= 1,
        forall|w: i32| #[trigger] s.contains(w) ==> w == v,
    ensures
        s == seq![v],
{
    assert(s.contains(s[0]));
    assert(s =~= seq![v]);
}

/// Constraints of the same shapes, over variables with the same tables, are
/// sound alike and satisfied by the same assignments.
proof fn lemma_shapes_agree(cs0: Seq<ConstraintBox>, h0: VariableHandler, cs1: Seq<ConstraintBox>, h1: VariableHandler)
    requires
        same_shapes(cs0, cs1),
        h1.same_tables(&h0),
    ensures
        all_sound(cs1, h1) == all_sound(cs0, h0),
        forall|a: Seq<i32>| #[trigger] all_hold(cs1, h1, a) == all_hold(cs0, h0, a),
{
    assert forall|a: Seq<i32>| #[trigger] all_hold(cs1, h1, a) == all_hold(cs0, h0, a) by {
        assert forall|k: int| 0 <= k < cs0.len() implies (#[trigger] cs1[k]).holds(h1, a) == cs0[k].holds(h0, a) by {
            lemma_same_shape(cs0[k], cs1[k], h0, h1, a);
        }
        if all_hold(cs0, h0, a) {
            assert forall|k: int| 0 <= k < cs1.len() implies (#[trigger] cs1[k]).holds(h1, a) by {
                assert(cs0[k].holds(h0, a));
            }
        }
        if all_hold(cs1, h1, a) {
            assert forall|k: int| 0 <= k < cs0.len() implies (#[trigger] cs0[k]).holds(h0, a) by {
                assert(cs1[k].holds(h1, a));
            }
        }
    }
    assert forall|k: int| 0 <= k < cs0.len() implies (#[trigger] cs1[k]).sound_on(h1) == cs0[k].sound_on(h0) by {
        lemma_same_shape(cs0[k], cs1[k], h0, h1, Seq::<i32>::empty());
    }
    if all_sound(cs0, h0) {
        assert forall|k: int| 0 <= k < cs1.len() implies (#[trigger] cs1[k]).sound_on(h1) by {
            assert(cs0[k].sound_on(h0));
        }
    }
    if all_sound(cs1, h1) {
        assert forall|k: int| 0 <= k < cs0.len() implies (#[trigger] cs0[k]).sound_on(h0) by {
            assert(cs1[k].sound_on(h1));
        }
    }
}

/// An assignment of values from the domains of `h0` that agrees with the
/// choice `b` is still within the domains once the choice is made.
proof fn lemma_choice_within(h0: VariableHandler, h1: VariableHandler, b: Branch, a: Seq<i32>)
    requires
        h0.wf(),
        h0.valid(b.view.place()),
        within(a, h0),
        agrees(h0, a, b),
        h1.same_tables(&h0),
        dom_at(h1, b.view) == assignment(dom_at(h0, b.view), b.value).1,
        doms_of(h1.vars()) == doms_of(h0.vars()).update(h0.spec_index(b.view.place()), dom_at(h1, b.view)),
    ensures
        within(a, h1),
{
    let q = h0.spec_index(b.view.place());
    assert(0 <= q < h0.vars().len());
    assert(h0.vars()[q]@.contains(b.value));
    assert forall|p: int| 0 <= p < a.len() implies (#[trigger] h1.vars()[p])@.contains(a[p]) by {
        assert(doms_of(h1.vars())[p] == h1.vars()[p]@);
        assert(doms_of(h0.vars())[p] == h0.vars()[p]@);
        if p == q {
            assert(h1.vars()[q]@ == seq![b.value]);
            assert(h1.vars()[q]@[0] == a[p]);
        }
    }
}

/// The positions, in the variables of `h`, of the choices of `path`.
pub open spec fn path_positions(h: crate::variables::handlers::VariableHandler, path: Seq<Branch>) -> Seq<int> {
    path.map_values(|b: Branch| h.spec_index(b.view.place()))
}

/// The choices of `path` can be replayed on the variables `h0` and hold on
/// `h`: each concerns its own variable, has its value in the domain of that
/// variable in `h0`, and that variable is assigned to it in `h`.
pub open spec fn path_holds(
    h0: crate::variables::handlers::VariableHandler,
    h: crate::variables::handlers::VariableHandler,
    path: Seq<Branch>,
) -> bool {
    &&& forall|i: int| 0 <= i < path.len() ==> h0.valid(#[trigger] path[i].view.place())
    &&& forall|i: int| 0 <= i < path.len() ==> dom_at(h0, #[trigger] path[i].view).contains(path[i].value)
    &&& forall|i: int| 0 <= i < path.len() ==> dom_at(h, #[trigger] path[i].view) == seq![path[i].value]
    &&& forall|i: int, j: int|
        0 <= i < j < path.len() ==> h0.spec_index(#[trigger] path[i].view.place()) != h0.spec_index(
            #[trigger] path[j].view.place(),
        )
}

/// Whether the shared stop flag is set.
fn stop_requested(flag: &Arc<AtomicBool>) -> bool {
    flag.load(std::sync::atomic::Ordering::Relaxed)
}

/// Sets the shared stop flag.
fn request_stop(flag: &Arc<AtomicBool>) {
    flag.store(true, std::sync::atomic::Ordering::Relaxed);
}

/// Depth-first search from a space that, on backtracking, rebuilds the
/// node to resume from by replaying the choices of its path on the root,
/// instead of keeping a copy of every node. The search reads a stop flag,
/// shared with whoever made it, before each choice, and gives up at once
/// when it is set; it sets the flag when it finds a solution below the root.
pub struct SolverPathRecomputing {
    init: Space,
    stop: Arc<AtomicBool>,
    solution: Option<Space>,
    interrupted: Ghost<bool>,
}

impl SolverPathRecomputing {
    /// A search from `space`, with a stop flag of its own, not set.
    pub fn new(space: Space) -> (r: SolverPathRecomputing)
        ensures
            r.spec_init() == space,
            !r.spec_interrupted(),
            r.spec_solution() is None,
    {
        SolverPathRecomputing {
            init: space,
            stop: Arc::new(AtomicBool::new(false)),
            solution: None,
            interrupted: Ghost(false),
        }
    }

    /// A search from `space` that shares the stop flag `stop`.
    pub fn new_stop(space: Space, stop: Arc<AtomicBool>) -> (r: SolverPathRecomputing)
        ensures
            r.spec_init() == space,
            !r.spec_interrupted(),
            r.spec_solution() is None,
    {
        SolverPathRecomputing { init: space, stop: stop, solution: None, interrupted: Ghost(false) }
    }

    pub closed spec fn spec_init(&self) -> Space {
        self.init
    }

    /// The last search gave up because it found the stop flag set.
    pub closed spec fn spec_interrupted(&self) -> bool {
        self.interrupted@
    }

    pub closed spec fn spec_solution(&self) -> Option<Space> {
        self.solution
    }

    /// Searches for a solution; returns whether one was found, and keeps it
    /// for `solution`. The root is propagated first and kept so; when it then
    /// has nothing to branch on, a copy of it is the solution. Otherwise the
    /// choices are searched; the search gives up, as interrupted, as soon as
    /// it finds the stop flag set, and sets the flag when it finds a solution.
    pub fn solve(&mut self) -> (r: bool)
        requires
            old(self).spec_init().wf(),
            all_nonempty(old(self).spec_init().spec_variables().vars()),
        ensures
            r ==> (final(self).spec_solution() matches Some(s) && is_solution(s, old(self).spec_init())),
            !r ==> final(self).spec_solution() == old(self).spec_solution(),
            !final(self).spec_interrupted() && has_solution(old(self).spec_init()) ==> r,
            final(self).spec_interrupted() ==> !r && handler_outcome(
                final(self).spec_init().spec_variables(),
                final(self).spec_init().spec_brancher().spec_branchers(),
            ) is Some,
            r && handler_outcome(
                final(self).spec_init().spec_variables(),
                final(self).spec_init().spec_brancher().spec_branchers(),
            ) is None ==> (final(self).spec_solution() matches Some(s) && doms_of(s.spec_variables().vars())
                == doms_of(final(self).spec_init().spec_variables().vars())),
            r ==> exists|rounds: Seq<Seq<PropStep>>, hs: Seq<VariableHandler>|
                #[trigger] handler_run(
                    old(self).spec_init().spec_constraints().spec_constraints(),
                    old(self).spec_init().spec_constraints().spec_subsumeds(),
                    old(self).spec_init().spec_constraints().spec_graph().edges(),
                    old(self).spec_init().spec_constraints().spec_graph().pending(),
                    old(self).spec_init().spec_variables(),
                    rounds,
                    hs,
                    final(self).spec_init().spec_variables(),
                ),
    {
        let ghost init0 = self.init;
        self.interrupted = Ghost(false);
        match self.init.run_branch() {
            Ok(BranchState::Subsumed) => {
                let s = self.init.duplicate();
                proof {
                    lemma_subsumed_solution(self.init);
                    lemma_solution_copy(s, self.init, self.init);
                    lemma_solution_trans(s, self.init, init0);
                }
                self.solution = Some(s);
                true
            },
            Ok(BranchState::Branches(branches)) => {
                proof {
                    crate::branchers::lemma_outcome_open_all(self.init.spec_variables(), self.init.spec_brancher());
                    let out = handler_outcome(self.init.spec_variables(), self.init.spec_brancher().spec_branchers());
                    assert(out == Some(branches@));
                    assert forall|k: int| 0 <= k < branches@.len() implies open_choice(self.init.spec_variables(), #[trigger] branches@[k]) by {
                        assert(branches@[k] == out->0[k]);
                    }
                    crate::branchers::lemma_outcome_cover(self.init.spec_variables(), self.init.spec_brancher());
                }
                let ghost init1 = self.init;
                let found = self.dfs(branches);
                proof {
                    if found {
                        lemma_solution_trans(self.solution->0, self.init, init0);
                    }
                    if !self.interrupted@ && has_solution(init0) {
                        let cs0 = init0.spec_constraints().spec_constraints();
                        let h0 = init0.spec_variables();
                        let a = choose|a: Seq<i32>| #[trigger] within(a, h0) && all_hold(cs0, h0, a);
                        assert(within(a, h0));
                        lemma_shapes_agree(cs0, h0, init1.spec_constraints().spec_constraints(), init1.spec_variables());
                        assert(within(a, init1.spec_variables()));
                        assert(all_hold(init1.spec_constraints().spec_constraints(), init1.spec_variables(), a));
                    }
                }
                found
            },
            Err(_) => false,
        }
    }

    /// Explores the choices of the root.
    fn dfs(&mut self, branches: Vec<Branch>) -> (r: bool)
        requires
            old(self).spec_init().wf(),
            all_nonempty(old(self).spec_init().spec_variables().vars()),
            forall|k: int| 0 <= k < branches@.len() ==> open_choice(old(self).spec_init().spec_variables(), #[trigger] branches@[k]),
            covers(old(self).spec_init().spec_variables(), branches@),
        ensures
            final(self).spec_init() == old(self).spec_init(),
            r ==> (final(self).spec_solution() matches Some(s) && is_solution(s, old(self).spec_init())),
            !r ==> final(self).spec_solution() == old(self).spec_solution(),
            final(self).spec_interrupted() ==> !r,
            !r && !final(self).spec_interrupted() && all_sound(
                old(self).spec_init().spec_constraints().spec_constraints(),
                old(self).spec_init().spec_variables(),
            ) ==> forall|a: Seq<i32>|
                #[trigger] within(a, old(self).spec_init().spec_variables()) ==> !all_hold(
                    old(self).spec_init().spec_constraints().spec_constraints(),
                    old(self).spec_init().spec_variables(),
                    a,
                ),
    {
        let space = self.init.duplicate();
        proof {
            let hi = self.init.spec_variables();
            let hd = space.spec_variables();
            assert forall|a: Seq<i32>| within(a, hd) <==> #[trigger] within(a, hi) by {
                assert forall|p: int| 0 <= p < hd.vars().len() implies hd.vars()[p]@ == hi.vars()[p]@ by {
                    assert(doms_of(hd.vars())[p] == doms_of(hi.vars())[p]);
                }
            }
            assert forall|a: Seq<i32>| #[trigger] within(a, hd) implies exists|k: int|
                0 <= k < branches@.len() && #[trigger] agrees(hd, a, branches@[k]) by {
                assert(within(a, hi));
                let k = choose|k: int| 0 <= k < branches@.len() && #[trigger] agrees(hi, a, branches@[k]);
                assert(agrees(hd, a, branches@[k]));
            }
            lemma_same_doms(self.init.spec_variables().vars(), space.spec_variables().vars());
            assert forall|k: int| 0 <= k < branches@.len() implies open_choice(space.spec_variables(), #[trigger] branches@[k]) by {
                let b = branches@[k];
                let i = self.init.spec_variables().spec_index(b.view.place());
                assert(open_choice(self.init.spec_variables(), b));
                assert(doms_of(space.spec_variables().vars())[i] == doms_of(self.init.spec_variables().vars())[i]);
            }
            assert forall|i: int| 0 <= i < space.spec_variables().vars().len() implies (#[trigger] space.spec_variables().vars()[i])@.len()
                > 0 by {
                assert(doms_of(space.spec_variables().vars())[i] == doms_of(self.init.spec_variables().vars())[i]);
            }
        }
        match self.explore(space, Vec::new(), &branches) {
            (Some(s), _) => {
                request_stop(&self.stop);
                self.interrupted = Ghost(false);
                self.solution = Some(s);
                true
            },
            (None, stopped) => {
                self.interrupted = Ghost(stopped);
                false
            },
        }
    }

    /// Rebuilds the node reached by the choices of `path` from the root,
    /// without propagating.
    fn replay(&self, path: &Vec<Branch>) -> (r: Space)
        requires
            self.init.wf(),
            all_nonempty(self.init.spec_variables().vars()),
            forall|i: int| 0 <= i < path@.len() ==> self.init.spec_variables().valid(#[trigger] path@[i].view.place()),
            forall|i: int| 0 <= i < path@.len() ==> dom_at(self.init.spec_variables(), #[trigger] path@[i].view).contains(path@[i].value),
            forall|i: int, j: int|
                0 <= i < j < path@.len() ==> self.init.spec_variables().spec_index(#[trigger] path@[i].view.place())
                    != self.init.spec_variables().spec_index(#[trigger] path@[j].view.place()),
        ensures
            r.wf(),
            all_nonempty(r.spec_variables().vars()),
            r.spec_variables().same_tables(&self.init.spec_variables()),
            shrinks(self.init.spec_variables().vars(), r.spec_variables().vars()),
            same_branchers(r.spec_brancher(), self.init.spec_brancher()),
            path_holds(self.init.spec_variables(), r.spec_variables(), path@),
            forall|q: int|
                0 <= q < r.spec_variables().vars().len() && !path_positions(self.init.spec_variables(), path@).contains(q)
                    ==> (#[trigger] r.spec_variables().vars()[q])@ == self.init.spec_variables().vars()[q]@,
            same_shapes(self.init.spec_constraints().spec_constraints(), r.spec_constraints().spec_constraints()),
    {
        let ghost h0 = self.init.spec_variables();
        let mut space = self.init.duplicate();
        proof {
            lemma_same_doms(h0.vars(), space.spec_variables().vars());
            assert forall|q: int| 0 <= q < space.spec_variables().vars().len() implies (#[trigger] space.spec_variables().vars()[q])@
                == h0.vars()[q]@ by {
                assert(doms_of(space.spec_variables().vars())[q] == doms_of(h0.vars())[q]);
            }
        }
        let mut i: usize = 0;
        while i < path.len()
            invariant
                self.init.wf(),
                h0 == self.init.spec_variables(),
                all_nonempty(h0.vars()),
                space.wf(),
                space.spec_variables().same_tables(&h0),
                shrinks(h0.vars(), space.spec_variables().vars()),
                same_branchers(space.spec_brancher(), self.init.spec_brancher()),
                i <= path@.len(),
                forall|l: int| 0 <= l < path@.len() ==> h0.valid(#[trigger] path@[l].view.place()),
                forall|l: int| 0 <= l < path@.len() ==> dom_at(h0, #[trigger] path@[l].view).contains(path@[l].value),
                forall|l: int, m: int|
                    0 <= l < m < path@.len() ==> h0.spec_index(#[trigger] path@[l].view.place()) != h0.spec_index(
                        #[trigger] path@[m].view.place(),
                    ),
                forall|l: int| 0 <= l < i ==> dom_at(space.spec_variables(), #[trigger] path@[l].view) == seq![path@[l].value],
                forall|q: int|
                    0 <= q < space.spec_variables().vars().len() && !path_positions(h0, path@.subrange(0, i as int)).contains(q)
                        ==> (#[trigger] space.spec_variables().vars()[q])@ == h0.vars()[q]@,
                all_nonempty(space.spec_variables().vars()),
                same_shapes(self.init.spec_constraints().spec_constraints(), space.spec_constraints().spec_constraints()),
            decreases path@.len() - i,
        {
            let b = path[i];
            let ghost hb = space.spec_variables();
            let ghost q = h0.spec_index(b.view.place());
            proof {
                assert(h0.valid(path@[i as int].view.place()));
                assert(!path_positions(h0, path@.subrange(0, i as int)).contains(q)) by {
                    if path_positions(h0, path@.subrange(0, i as int)).contains(q) {
                        let l = choose|l: int| 0 <= l < i && path_positions(h0, path@.subrange(0, i as int))[l] == q;
                        assert(path_positions(h0, path@.subrange(0, i as int))[l] == h0.spec_index(path@[l].view.place()));
                        assert(h0.spec_index(path@[l].view.place()) != h0.spec_index(path@[i as int].view.place()));
                    }
                }
                assert(dom_at(hb, b.view) == dom_at(h0, b.view));
            }
            let res = space.apply(&b);
            proof {
                assert(res is Ok);
                assert(path@.subrange(0, i + 1) =~= path@.subrange(0, i as int).push(b));
                assert(path_positions(h0, path@.subrange(0, i + 1)) =~= path_positions(h0, path@.subrange(0, i as int)).push(q));
                lemma_shrinks_trans(h0.vars(), hb.vars(), space.spec_variables().vars());
                assert forall|l: int| 0 <= l < i + 1 implies dom_at(space.spec_variables(), #[trigger] path@[l].view) == seq![path@[l].value] by {
                    if l < i {
                        let ql = h0.spec_index(path@[l].view.place());
                        assert(ql != q);
                        assert(doms_of(space.spec_variables().vars())[ql] == doms_of(hb.vars())[ql]);
                    }
                }
                assert forall|p: int|
                    0 <= p < space.spec_variables().vars().len() && !path_positions(h0, path@.subrange(0, i + 1)).contains(p)
                        implies (#[trigger] space.spec_variables().vars()[p])@ == h0.vars()[p]@ by {
                    assert(path_positions(h0, path@.subrange(0, i + 1))[i as int] == q);
                    assert(path_positions(h0, path@.subrange(0, i + 1)).contains(q));
                    assert(p != q);
                    assert(doms_of(space.spec_variables().vars())[p] == doms_of(hb.vars())[p]);
                    if path_positions(h0, path@.subrange(0, i as int)).contains(p) {
                        let l = choose|l: int| 0 <= l < i && path_positions(h0, path@.subrange(0, i as int))[l] == p;
                        assert(path_positions(h0, path@.subrange(0, i + 1))[l] == p);
                    }
                }
                assert forall|p: int| 0 <= p < space.spec_variables().vars().len() implies (#[trigger] space.spec_variables().vars()[p])@.len()
                    > 0 by {
                    if p != q {
                        assert(doms_of(space.spec_variables().vars())[p] == doms_of(hb.vars())[p]);
                    }
                }
            }
            i = i + 1;
        }
        proof {
            assert(path@.subrange(0, i as int) =~= path@);
        }
        space
    }

    /// Tries the choices `branches` of `node`, reached from the root by the
    /// choices of `path`. The first choice is made on `node` itself; each
    /// next one on the node rebuilt from the root by `replay`. Gives up, and
    /// says so, as soon as it finds the stop flag set. Finding nothing without
    /// giving up means that no assignment of values from the domains of `node`
    /// satisfies the constraints of the root.
    fn explore(&self, node: Space, path: Vec<Branch>, branches: &Vec<Branch>) -> (r: (Option<Space>, bool))
        requires
            self.init.wf(),
            all_nonempty(self.init.spec_variables().vars()),
            node.wf(),
            all_nonempty(node.spec_variables().vars()),
            node.spec_variables().same_tables(&self.init.spec_variables()),
            shrinks(self.init.spec_variables().vars(), node.spec_variables().vars()),
            same_branchers(node.spec_brancher(), self.init.spec_brancher()),
            same_shapes(self.init.spec_constraints().spec_constraints(), node.spec_constraints().spec_constraints()),
            path_holds(self.init.spec_variables(), node.spec_variables(), path@),
            path@.len() <= self.init.spec_variables().vars().len(),
            forall|k: int| 0 <= k < branches@.len() ==> open_choice(node.spec_variables(), #[trigger] branches@[k]),
            covers(node.spec_variables(), branches@),
        ensures
            r.0 matches Some(s) ==> is_solution(s, self.init),
            r.1 ==> r.0 is None,
            r.0 is None && !r.1 && all_sound(self.init.spec_constraints().spec_constraints(), self.init.spec_variables())
                ==> forall|a: Seq<i32>|
                #[trigger] within(a, node.spec_variables()) ==> !all_hold(
                    self.init.spec_constraints().spec_constraints(),
                    self.init.spec_variables(),
                    a,
                ),
        decreases self.init.spec_variables().vars().len() - path@.len(),
    {
        let ghost h0 = self.init.spec_variables();
        let ghost cs0 = self.init.spec_constraints().spec_constraints();
        let ghost hn = node.spec_variables();
        let mut first = Some(node);
        let mut k: usize = 0;
        while k < branches.len()
            invariant
                self.init.wf(),
                h0 == self.init.spec_variables(),
                cs0 == self.init.spec_constraints().spec_constraints(),
                all_nonempty(h0.vars()),
                hn.wf(),
                hn.same_tables(&h0),
                shrinks(h0.vars(), hn.vars()),
                path_holds(h0, hn, path@),
                path@.len() <= h0.vars().len(),
                forall|l: int| 0 <= l < branches@.len() ==> open_choice(hn, #[trigger] branches@[l]),
                k <= branches@.len(),
                first matches Some(n) ==> n.wf() && n.spec_variables() == hn && all_nonempty(hn.vars())
                    && same_branchers(n.spec_brancher(), self.init.spec_brancher())
                    && same_shapes(cs0, n.spec_constraints().spec_constraints()),
                all_sound(cs0, h0) ==> forall|a: Seq<i32>|
                    #[trigger] within(a, hn) && all_hold(cs0, h0, a) ==> exists|l: int|
                        k <= l < branches@.len() && #[trigger] agrees(hn, a, branches@[l]),
            decreases branches@.len() - k,
        {
            if stop_requested(&self.stop) {
                return (None, true);
            }
            let b = branches[k];
            proof {
                assert(open_choice(hn, branches@[k as int]));
            }
            let mut space = match first {
                Some(n) => n,
                None => {
                    let rebuilt = self.replay(&path);
                    proof {
                        let hr = rebuilt.spec_variables();
                        assert forall|a: Seq<i32>| #[trigger] within(a, hn) implies within(a, hr) by {
                            assert forall|p: int| 0 <= p < a.len() implies (#[trigger] hr.vars()[p])@.contains(a[p]) by {
                                assert(hn.vars()[p]@.contains(a[p]));
                                if path_positions(h0, path@).contains(p) {
                                    let l = choose|l: int| 0 <= l < path@.len() && path_positions(h0, path@)[l] == p;
                                    assert(h0.spec_index(path@[l].view.place()) == p);
                                    assert(dom_at(hn, path@[l].view) == seq![path@[l].value]);
                                    assert(dom_at(hr, path@[l].view) == seq![path@[l].value]);
                                } else {
                                    assert(hr.vars()[p]@ == h0.vars()[p]@);
                                }
                            }
                        }
                    }
                    rebuilt
                },
            };
            first = None;
            let ghost hs = space.spec_variables();
            let ghost q = h0.spec_index(b.view.place());
            proof {
                assert(hn.spec_index(b.view.place()) == q);
                assert forall|i: int| 0 <= i < path@.len() implies h0.spec_index(#[trigger] path@[i].view.place()) != q by {
                    assert(dom_at(hn, path@[i].view) == seq![path@[i].value]);
                }
                assert(dom_at(hs, b.view).contains(b.value)) by {
                    if hs != hn {
                        assert(!path_positions(h0, path@).contains(q)) by {
                            if path_positions(h0, path@).contains(q) {
                                let l = choose|l: int| 0 <= l < path@.len() && path_positions(h0, path@)[l] == q;
                                assert(h0.spec_index(path@[l].view.place()) == q);
                            }
                        }
                        assert(hs.vars()[q]@ == h0.vars()[q]@);
                    }
                }
                assert(dom_at(hn, b.view).contains(b.value));
                assert(hn.vars()[q]@.contains(b.value));
                assert(h0.vars()[q]@.contains(b.value));
                assert(dom_at(h0, b.view).contains(b.value));
            }
            let ghost s0 = space;
            let applied = space.apply(&b);
            let ghost s1 = space;
            proof {
                assert(applied is Ok);
                lemma_shrinks_trans(h0.vars(), hs.vars(), s1.spec_variables().vars());
                assert forall|p: int| 0 <= p < s1.spec_variables().vars().len() implies (#[trigger] s1.spec_variables().vars()[p])@.len()
                    > 0 by {
                    if p != q {
                        assert(doms_of(s1.spec_variables().vars())[p] == doms_of(hs.vars())[p]);
                    }
                }
                lemma_shapes_agree(cs0, h0, s1.spec_constraints().spec_constraints(), s1.spec_variables());
                if all_sound(cs0, h0) {
                    assert forall|a: Seq<i32>|
                        #[trigger] within(a, hn) && all_hold(cs0, h0, a) && agrees(hn, a, b) implies within(
                        a,
                        s1.spec_variables(),
                    ) && all_hold(s1.spec_constraints().spec_constraints(), s1.spec_variables(), a) && has_solution(s1) by {
                        assert(within(a, hs));
                        lemma_choice_within(hs, s1.spec_variables(), b, a);
                        assert(all_hold(s1.spec_constraints().spec_constraints(), s1.spec_variables(), a));
                    }
                }
            }
            match space.run_branch() {
                Ok(BranchState::Subsumed) => {
                    proof {
                        lemma_subsumed_solution(space);
                        lemma_shrinks_trans(h0.vars(), s1.spec_variables().vars(), space.spec_variables().vars());
                        lemma_solution_trans(space, space, self.init);
                    }
                    return (Some(space), false);
                },
                Ok(BranchState::Branches(next)) => {
                    proof {
                        lemma_shrinks_trans(h0.vars(), s1.spec_variables().vars(), space.spec_variables().vars());
                        crate::branchers::lemma_outcome_open_all(space.spec_variables(), space.spec_brancher());
                        lemma_outcome_cover(space.spec_variables(), space.spec_brancher());
                        lemma_same_shapes_trans(
                            cs0,
                            s1.spec_constraints().spec_constraints(),
                            space.spec_constraints().spec_constraints(),
                        );
                    }
                    if next.len() == 0 {
                        proof {
                            crate::branchers::lemma_outcome_len(space.spec_variables(), space.spec_brancher());
                        }
                        return (Some(space), false);
                    }
                    let mut longer = crate::constraints::copy_vec(&path);
                    longer.push(b);
                    let ghost hc = space.spec_variables();
                    proof {
                        assert(longer@ == path@.push(b));
                        assert forall|i: int| 0 <= i < longer@.len() implies dom_at(hc, #[trigger] longer@[i].view)
                            == seq![longer@[i].value] by {
                            let v = longer@[i].value;
                            let qi = h0.spec_index(longer@[i].view.place());
                            if i < path@.len() {
                                if hs == hn {
                                    assert(dom_at(hn, path@[i].view) == seq![path@[i].value]);
                                }
                                assert(qi != q);
                                assert(doms_of(s1.spec_variables().vars())[qi] == doms_of(hs.vars())[qi]);
                                assert(s1.spec_variables().vars()[qi]@ == seq![v]);
                            }
                            assert(s1.spec_variables().vars()[qi]@ == seq![v]);
                            assert(forall|w: i32| #[trigger] hc.vars()[qi]@.contains(w) ==> s1.spec_variables().vars()[qi]@.contains(w));
                            assert(hc.vars()[qi]@.len() > 0);
                            lemma_singleton(hc.vars()[qi]@, v);
                        }
                        let ps = path_positions(h0, longer@);
                        assert forall|i: int| 0 <= i < ps.len() implies 0 <= #[trigger] ps[i] < h0.vars().len() by {
                            assert(ps[i] == h0.spec_index(longer@[i].view.place()));
                            assert(h0.valid(longer@[i].view.place()));
                        }
                        assert forall|i: int, j: int| 0 <= i < j < ps.len() implies ps[i] != ps[j] by {
                            assert(ps[i] == h0.spec_index(longer@[i].view.place()));
                            assert(ps[j] == h0.spec_index(longer@[j].view.place()));
                        }
                        lemma_distinct_bound(ps, h0.vars().len() as int);
                        let out = handler_outcome(space.spec_variables(), space.spec_brancher().spec_branchers());
                        assert(out == Some(next@));
                        assert forall|l: int| 0 <= l < next@.len() implies open_choice(space.spec_variables(), #[trigger] next@[l]) by {
                            assert(next@[l] == out->0[l]);
                        }
                    }
                    let ghost s2 = space;
                    match self.explore(space, longer, &next) {
                        (Some(s), _) => {
                            return (Some(s), false);
                        },
                        (None, true) => {
                            return (None, true);
                        },
                        (None, false) => {
                            proof {
                                if all_sound(cs0, h0) {
                                    assert forall|a: Seq<i32>| #[trigger] within(a, hn) && all_hold(cs0, h0, a) implies !agrees(
                                        hn,
                                        a,
                                        b,
                                    ) by {
                                        if agrees(hn, a, b) {
                                            assert(within(a, s1.spec_variables()));
                                            assert(within(a, s2.spec_variables()));
                                        }
                                    }
                                }
                            }
                        },
                    }
                },
                Err(_) => {
                    proof {
                        if all_sound(cs0, h0) {
                            assert forall|a: Seq<i32>| #[trigger] within(a, hn) && all_hold(cs0, h0, a) implies !agrees(
                                hn,
                                a,
                                b,
                            ) by {
                                if agrees(hn, a, b) {
                                    assert(has_solution(s1));
                                }
                            }
                        }
                    }
                },
            }
            proof {
                if all_sound(cs0, h0) {
                    assert forall|a: Seq<i32>| #[trigger] within(a, hn) && all_hold(cs0, h0, a) implies exists|l: int|
                        k + 1 <= l < branches@.len() && #[trigger] agrees(hn, a, branches@[l]) by {
                        let l = choose|l: int| k <= l < branches@.len() && #[trigger] agrees(hn, a, branches@[l]);
                        assert(l != k);
                    }
                }
            }
            k = k + 1;
        }
        (None, false)
    }

    /// Takes the solution found, leaving none.
    pub fn solution(&mut self) -> (r: Option<Space>)
        ensures
            r == old(self).spec_solution(),
            final(self).spec_solution() is None,
            final(self).spec_init() == old(self).spec_init(),
            final(self).spec_interrupted() == old(self).spec_interrupted(),
    {
        let mut sol = None;
        std::mem::swap(&mut sol, &mut self.solution);
        sol
    }
}

} // verus!
