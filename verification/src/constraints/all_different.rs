use vstd::prelude::*;

use super::{copy_opt_vec, copy_vec};

use super::comparisons::{doms_of, output_view};
use super::{
    all_nonempty, lemma_reports_shrink_trans, lemma_shrinks_trans, reports_all, reports_shrink, shrinks,
    Constraint, PropagationState,
};
use crate::variables::handlers::{ArrayOfVarsView, VariableHandler};
use crate::variables::int_var::{change_state, vec_contains};
use crate::variables::{VariableError, VariableId, VariableState};

verus! {

/// `s` gives each variable of the array at positions `ps` a value of its
/// domain in `d`, the values being pairwise distinct.
pub open spec fn alldiff_solution(d: Seq<Seq<i32>>, ps: Seq<usize>, s: Seq<i32>) -> bool {
    &&& s.len() == ps.len()
    &&& forall|k: int| 0 <= k < s.len() ==> #[trigger] d[ps[k] as int].contains(s[k])
    &&& forall|k: int, l: int|
        #![trigger s[k], s[l]]
        0 <= k < s.len() && 0 <= l < s.len() && k != l ==> s[k] != s[l]
}

/// Every solution of the constraint on the domains `d0` is still one on `d1`.
pub open spec fn keeps_solutions(d0: Seq<Seq<i32>>, d1: Seq<Seq<i32>>, ps: Seq<usize>) -> bool {
    forall|s: Seq<i32>| #[trigger] alldiff_solution(d0, ps, s) ==> alldiff_solution(d1, ps, s)
}

/// The value of an assigned variable of the array occurs in the domain of no
/// other variable of the array.
pub open spec fn alldiff_consistent(d: Seq<Seq<i32>>, ps: Seq<usize>) -> bool {
    forall|k: int, l: int, w: i32|
        0 <= k < ps.len() && 0 <= l < ps.len() && k != l && d[ps[l] as int].len() == 1
            && #[trigger] d[ps[l] as int].contains(w) ==> !#[trigger] d[ps[k] as int].contains(w)
}

/// The domain of a variable marked in `used` shares no value with the
/// domain of any other variable of the array.
pub open spec fn used_disjoint(d: Seq<Seq<i32>>, ps: Seq<usize>, used: Seq<bool>) -> bool {
    forall|j: int, k: int, w: i32|
        0 <= j < ps.len() && 0 <= k < ps.len() && j != k && used[j] && #[trigger] d[ps[j] as int].contains(
            w,
        ) ==> !#[trigger] d[ps[k] as int].contains(w)
}

/// A variable marked in `used` is assigned, unless its domain is empty.
pub open spec fn used_assigned(d: Seq<Seq<i32>>, ps: Seq<usize>, used: Seq<bool>) -> bool {
    forall|k: int| 0 <= k < ps.len() && #[trigger] used[k] ==> d[ps[k] as int].len() <= 1
}

/// The number of marks in `u`.
pub open spec fn count_used(u: Seq<bool>) -> nat
    decreases u.len(),
{
    if u.len() == 0 {
        0
    } else {
        count_used(u.drop_last()) + if u.last() {
            1nat
        } else {
            0nat
        }
    }
}

proof fn lemma_count_le(u: Seq<bool>)
    ensures
        count_used(u) <= u.len(),
        count_used(u) == u.len() ==> forall|k: int| 0 <= k < u.len() ==> #[trigger] u[k],
    decreases u.len(),
{
    if u.len() > 0 {
        lemma_count_le(u.drop_last());
        if count_used(u) == u.len() {
            assert forall|k: int| 0 <= k < u.len() implies #[trigger] u[k] by {
                if k < u.len() - 1 {
                    assert(u.drop_last()[k] == u[k]);
                }
            }
        }
    }
}

proof fn lemma_count_all(u: Seq<bool>)
    requires
        forall|k: int| 0 <= k < u.len() ==> #[trigger] u[k],
    ensures
        count_used(u) == u.len(),
    decreases u.len(),
{
    if u.len() > 0 {
        assert forall|k: int| 0 <= k < u.drop_last().len() implies #[trigger] u.drop_last()[k] by {
            assert(u.drop_last()[k] == u[k]);
        }
        lemma_count_all(u.drop_last());
    }
}

proof fn lemma_count_set(u: Seq<bool>, k: int)
    requires
        0 <= k < u.len(),
        !u[k],
    ensures
        count_used(u.update(k, true)) == count_used(u) + 1,
    decreases u.len(),
{
    if k == u.len() - 1 {
        assert(u.update(k, true).drop_last() =~= u.drop_last());
    } else {
        lemma_count_set(u.drop_last(), k);
        assert(u.update(k, true).drop_last() =~= u.drop_last().update(k, true));
    }
}

proof fn lemma_push_contains(s: Seq<usize>, x: usize, y: usize)
    ensures
        s.push(x).contains(y) <==> (s.contains(y) || y == x),
{
    if s.contains(y) {
        let i = choose|i: int| 0 <= i < s.len() && s[i] == y;
        assert(s.push(x)[i] == y);
    }
    if y == x {
        assert(s.push(x)[s.len() as int] == y);
    }
    if s.push(x).contains(y) {
        let i = choose|i: int| 0 <= i < s.push(x).len() && s.push(x)[i] == y;
        if i < s.len() {
            assert(s[i] == y);
        }
    }
}

/// A vector of `n` unset marks.
fn unmarked(n: usize) -> (r: Vec<bool>)
    ensures
        r@.len() == n,
        forall|k: int| 0 <= k < n ==> !#[trigger] r@[k],
        count_used(r@) == 0,
{
    let mut r: Vec<bool> = Vec::new();
    let mut i: usize = 0;
    while i < n
        invariant
            i <= n,
            r@.len() == i,
            forall|k: int| 0 <= k < i ==> !#[trigger] r@[k],
            count_used(r@) == 0,
        decreases n - i,
    {
        proof {
            assert(r@.push(false).drop_last() =~= r@);
        }
        r.push(false);
        i = i + 1;
    }
    r
}

/// The positions `0, 1, ..., n - 1`.
fn all_positions(n: usize) -> (r: Vec<usize>)
    ensures
        r@.len() == n,
        forall|k: int| 0 <= k < n ==> #[trigger] r@[k] == k,
{
    let mut r: Vec<usize> = Vec::new();
    let mut i: usize = 0;
    while i < n
        invariant
            i <= n,
            r@.len() == i,
            forall|k: int| 0 <= k < i ==> #[trigger] r@[k] == k,
        decreases n - i,
    {
        r.push(i);
        i = i + 1;
    }
    r
}

/// The first position of `id` in `ps`, if it occurs there.
pub open spec fn first_position(ps: Seq<usize>, id: usize) -> Option<int> {
    if exists|j: int| 0 <= j < ps.len() && ps[j] == id {
        Some(choose|j: int| 0 <= j < ps.len() && ps[j] == id && forall|k: int| 0 <= k < j ==> ps[k] != id)
    } else {
        None
    }
}

/// The positions in `ps` of the variables `ids`, in order; a variable that
/// does not occur in `ps` is skipped.
pub open spec fn changed_positions(ps: Seq<usize>, ids: Seq<VariableId>) -> Seq<usize>
    decreases ids.len(),
{
    if ids.len() == 0 {
        Seq::empty()
    } else {
        let r = changed_positions(ps, ids.drop_last());
        match first_position(ps, ids.last().0) {
            Some(j) => r.push(j as usize),
            None => r,
        }
    }
}

/// The constraint that the variables of an array take pairwise distinct
/// values. Once a variable is assigned, its value is removed from the domains
/// of the other variables, until no new variable gets assigned.
#[derive(Debug, Clone)]
pub struct AllDifferent {
    array: ArrayOfVarsView,
    used: Vec<bool>,
    nb_used: usize,
    output: Option<Vec<(VariableId, VariableState)>>,
    positions: Vec<usize>,
    changes: Option<Vec<usize>>,
}

/// The shape of an all-different constraint kept as a standalone record,
/// with the same bookkeeping as `AllDifferent`.
#[derive(Debug, Clone)]
pub struct AllDifferent2 {
    pub array: ArrayOfVarsView,
    pub used: Vec<bool>,
    pub nb_used: usize,
    pub output: Option<Vec<(VariableId, VariableState)>>,
    pub changes: Option<Vec<usize>>,
}

impl AllDifferent {
    /// What a propagation does: the constraint before it (`self`) and after
    /// it (`after`), the variables before (`h0`) and after (`h1`), and the
    /// report `r`.
    pub open spec fn propagation(
        &self,
        h0: VariableHandler,
        after: AllDifferent,
        h1: VariableHandler,
        r: Result<PropagationState, VariableError>,
    ) -> bool {
        let ps = h0.arrays()[self.spec_array().spec_idx() as int];
        let d0 = doms_of(h0.vars());
        let d1 = doms_of(h1.vars());
        &&& after.spec_array() == self.spec_array()
        &&& r is Err ==> r == Err::<PropagationState, VariableError>(VariableError::DomainWipeout)
            && forall|s: Seq<i32>| !#[trigger] alldiff_solution(d0, ps, s)
        &&& r is Ok ==> {
            &&& keeps_solutions(d0, d1, ps)
            &&& reports_all(after.pending(), h0.vars(), h1.vars())
            &&& forall|q: int| 0 <= q < d0.len() && !ps.contains(q as usize) ==> #[trigger] d1[q] == d0[q]
            &&& alldiff_consistent(d1, ps)
            &&& (r == Ok::<PropagationState, VariableError>(PropagationState::Subsumed)
                <==> forall|k: int| 0 <= k < ps.len() ==> #[trigger] d1[ps[k] as int].len() == 1)
            &&& r == Ok::<PropagationState, VariableError>(PropagationState::FixPoint)
                ==> after.pending().len() > 0
            &&& r == Ok::<PropagationState, VariableError>(PropagationState::NoChange)
                ==> after.pending().len() == 0 && forall|q: int|
                0 <= q < d0.len() ==> #[trigger] d1[q].len() == d0[q].len()
        }
    }

    /// The constraint that the variables of `array` are pairwise distinct.
    pub fn new(array: ArrayOfVarsView) -> (r: AllDifferent)
        ensures
            r.spec_array() == array,
            r.spec_used().len() == 0,
            r.pending().len() == 0,
    {
        AllDifferent {
            array: array,
            used: Vec::new(),
            nb_used: 0,
            output: None,
            positions: Vec::new(),
            changes: None,
        }
    }

    pub closed spec fn spec_array(&self) -> ArrayOfVarsView {
        self.array
    }

    /// Which variables of the array are known to be assigned.
    pub closed spec fn spec_used(&self) -> Seq<bool> {
        self.used@
    }

    pub closed spec fn spec_nb_used(&self) -> nat {
        self.nb_used as nat
    }

    /// The place, in the variables, of each variable of the array, as set
    /// up by `initialise`.
    pub closed spec fn spec_positions(&self) -> Seq<usize> {
        self.positions@
    }

    /// The positions in the array of the variables changed since the last
    /// propagation, when `prepare` gave them.
    pub closed spec fn spec_changes(&self) -> Option<Seq<usize>> {
        match self.changes {
            Some(v) => Some(v@),
            None => None,
        }
    }

    /// What `prepare` with the changed variables `states` makes of the
    /// constraint (`after`): it records the position in the array of each of
    /// them, in order, and nothing else changes.
    pub open spec fn prepared(&self, states: Seq<VariableId>, after: AllDifferent) -> bool {
        &&& after.spec_changes() == Some(changed_positions(self.spec_positions(), states))
        &&& after.spec_array() == self.spec_array()
        &&& after.spec_used() == self.spec_used()
        &&& after.spec_nb_used() == self.spec_nb_used()
        &&& after.spec_positions() == self.spec_positions()
        &&& after.pending() == self.pending()
    }

    /// The bookkeeping agrees with the domains of `h`, or has not been set up
    /// for the array yet.
    pub open spec fn state_ok(&self, h: VariableHandler) -> bool {
        let ps = h.arrays()[self.spec_array().spec_idx() as int];
        let d = doms_of(h.vars());
        self.spec_used().len() != ps.len() || (self.spec_nb_used() == count_used(self.spec_used())
            && used_disjoint(d, ps, self.spec_used()) && used_assigned(d, ps, self.spec_used()))
    }

    /// Marks the assigned, unmarked variables among `changes`, and collects
    /// their values in `affected`. Fails when two of them have the same
    /// value.
    fn mark(
        &mut self,
        h: &VariableHandler,
        x: usize,
        changes: &Vec<usize>,
        affected: &mut Vec<i32>,
    ) -> (r: Result<(), VariableError>)
        requires
            h.wf(),
            all_nonempty(h.vars()),
            x < h.arrays().len(),
            old(self).used@.len() == h.arrays()[x as int].len(),
            old(self).nb_used == count_used(old(self).used@),
            used_disjoint(doms_of(h.vars()), h.arrays()[x as int], old(self).used@),
            used_assigned(doms_of(h.vars()), h.arrays()[x as int], old(self).used@),
            old(affected)@.len() == 0,
        ensures
            final(self).array == old(self).array,
            final(self).output == old(self).output,
            final(self).positions == old(self).positions,
            final(self).changes == old(self).changes,
            final(self).used@.len() == old(self).used@.len(),
            ({
                let d = doms_of(h.vars());
                let ps = h.arrays()[x as int];
                let u0 = old(self).used@;
                let u1 = final(self).used@;
                &&& r is Err ==> r == Err::<(), VariableError>(VariableError::DomainWipeout)
                    && exists|j: int, k: int|
                    0 <= j < ps.len() && 0 <= k < ps.len() && j != k && d[ps[j] as int].len() == 1
                        && d[ps[k] as int].len() == 1 && d[ps[j] as int][0] == d[ps[k] as int][0]
                &&& r is Ok ==> {
                    &&& final(self).nb_used == count_used(u1)
                    &&& used_assigned(d, ps, u1)
                    &&& forall|k: int|
                        0 <= k < ps.len() ==> (#[trigger] u1[k] <==> (u0[k] || (changes@.contains(
                            k as usize,
                        ) && d[ps[k] as int].len() == 1)))
                    &&& forall|j: int, k: int, w: i32|
                        0 <= j < ps.len() && 0 <= k < ps.len() && j != k && u1[j]
                            && #[trigger] d[ps[j] as int].contains(w) && #[trigger] d[ps[k] as int].contains(
                            w,
                        ) ==> !u1[k] && final(affected)@.contains(w)
                    &&& forall|w: i32|
                        #[trigger] final(affected)@.contains(w) ==> exists|j: int|
                            0 <= j < ps.len() && u1[j] && d[ps[j] as int].len() == 1 && d[ps[j] as int][0]
                                == w
                    &&& changes@.len() > 0 && changes@[0] < ps.len() && !u0[changes@[0] as int]
                        && d[ps[changes@[0] as int] as int].len() == 1 ==> count_used(u1) > count_used(
                        u0,
                    )
                }
            }),
    {
        let ghost d = doms_of(h.vars());
        let ghost ps = h.arrays()[x as int];
        let ghost u0 = self.used@;
        let len = self.used.len();
        let mut i: usize = 0;
        while i < changes.len()
            invariant
                h.wf(),
                all_nonempty(h.vars()),
                x < h.arrays().len(),
                d == doms_of(h.vars()),
                ps == h.arrays()[x as int],
                len == ps.len(),
                self.used@.len() == len,
                self.array == old(self).array,
                self.output == old(self).output,
                self.positions == old(self).positions,
                self.changes == old(self).changes,
                u0 == old(self).used@,
                u0.len() == len,
                i <= changes@.len(),
                self.nb_used == count_used(self.used@),
                used_disjoint(d, ps, u0),
                used_assigned(d, ps, u0),
                forall|k: int|
                    0 <= k < len ==> (#[trigger] self.used@[k] <==> (u0[k] || (changes@.subrange(
                        0,
                        i as int,
                    ).contains(k as usize) && d[ps[k] as int].len() == 1))),
                forall|w: i32|
                    #[trigger] affected@.contains(w) <==> exists|j: int|
                        0 <= j < len && self.used@[j] && !u0[j] && d[ps[j] as int].len() == 1
                            && d[ps[j] as int][0] == w,
                i > 0 && changes@[0] < len && !u0[changes@[0] as int] && d[ps[changes@[0] as int] as int].len()
                    == 1 ==> count_used(self.used@) > count_used(u0),
                count_used(self.used@) >= count_used(u0),
                forall|j: int, k: int|
                    0 <= j < len && 0 <= k < len && j != k && self.used@[j] && !u0[j] && self.used@[k]
                        && !u0[k] ==> #[trigger] d[ps[j] as int][0] != #[trigger] d[ps[k] as int][0],
            decreases changes@.len() - i,
        {
            let pos = changes[i];
            let ghost used0 = self.used@;
            let ghost aff0 = affected@;
            proof {
                assert(changes@.subrange(0, i + 1) =~= changes@.subrange(0, i as int).push(pos));
            }
            if pos < len && !self.used[pos] {
                let p = h.array_index(x, pos);
                let var = h.var_at(p);
                proof {
                    assert(d[p as int] == var@);
                    lemma_count_le(self.used@);
                }
                if var.is_affected() {
                    let val = var.unchecked_min();
                    let dup = vec_contains(affected, val);
                    if dup {
                        proof {
                            let j = choose|j: int|
                                0 <= j < len && self.used@[j] && !u0[j] && d[ps[j] as int].len() == 1
                                    && d[ps[j] as int][0] == val;
                            assert(j != pos);
                        }
                        return Err(VariableError::DomainWipeout);
                    }
                    proof {
                        lemma_count_set(self.used@, pos as int);
                    }
                    self.used.set(pos, true);
                    self.nb_used = self.nb_used + 1;
                    affected.push(val);
                    proof {
                        assert(affected@ == aff0.push(val));
                        assert(self.used@ == used0.update(pos as int, true));
                        assert forall|w: i32| #[trigger] affected@.contains(w) implies exists|j: int|
                            0 <= j < len && self.used@[j] && !u0[j] && d[ps[j] as int].len() == 1
                                && d[ps[j] as int][0] == w by {
                            if w == val {
                                assert(self.used@[pos as int] && !u0[pos as int]);
                            } else {
                                let m = choose|m: int| 0 <= m < affected@.len() && affected@[m] == w;
                                assert(aff0[m] == w);
                                assert(aff0.contains(w));
                                let j = choose|j: int|
                                    0 <= j < len && used0[j] && !u0[j] && d[ps[j] as int].len() == 1
                                        && d[ps[j] as int][0] == w;
                                assert(self.used@[j]);
                            }
                        }
                        assert forall|w: i32| (exists|j: int|
                            0 <= j < len && self.used@[j] && !u0[j] && d[ps[j] as int].len() == 1
                                && d[ps[j] as int][0] == w) implies #[trigger] affected@.contains(w) by {
                            let j = choose|j: int|
                                0 <= j < len && self.used@[j] && !u0[j] && d[ps[j] as int].len() == 1
                                    && d[ps[j] as int][0] == w;
                            if j == pos {
                                assert(affected@[affected@.len() - 1] == w);
                            } else {
                                assert(used0[j]);
                                assert(aff0.contains(w));
                                let m = choose|m: int| 0 <= m < aff0.len() && aff0[m] == w;
                                assert(affected@[m] == w);
                            }
                        }
                    }
                }
            }
            proof {
                let s0 = changes@.subrange(0, i as int);
                assert forall|k: int| 0 <= k < len implies (#[trigger] self.used@[k] <==> (u0[k] || (
                changes@.subrange(0, i + 1).contains(k as usize) && d[ps[k] as int].len() == 1))) by {
                    lemma_push_contains(s0, pos, k as usize);
                }
            }
            i = i + 1;
        }
        proof {
            assert(changes@.subrange(0, i as int) =~= changes@);
            let u1 = self.used@;
            assert forall|k: int| 0 <= k < ps.len() && #[trigger] u1[k] implies d[ps[k] as int].len() <= 1 by {
            }
            assert forall|j: int, k: int, w: i32|
                0 <= j < ps.len() && 0 <= k < ps.len() && j != k && u1[j] && #[trigger] d[ps[j] as int].contains(w)
                    && #[trigger] d[ps[k] as int].contains(w) implies !u1[k] && affected@.contains(w) by {
                if u0[j] {
                    assert(!d[ps[k] as int].contains(w));
                } else {
                    assert(d[ps[j] as int].len() == 1);
                    assert(d[ps[j] as int][0] == w);
                    if u0[k] {
                        assert(!d[ps[j] as int].contains(w));
                    } else if u1[k] {
                        assert(d[ps[k] as int].len() == 1);
                        assert(d[ps[k] as int][0] == w);
                        assert(false);
                    }
                }
            }
        }
        Ok(())
    }
}

/// Removes the values of `affected` from the domains of the unmarked
/// variables of the array, recording the changes in `output`, and returns the
/// unmarked variables left assigned. Fails when a domain is emptied.
fn remove_round(
    h: &mut VariableHandler,
    x: usize,
    used: &Vec<bool>,
    affected: &Vec<i32>,
    output: &mut Vec<(VariableId, VariableState)>,
    Ghost(h0): Ghost<VariableHandler>,
) -> (r: Result<Vec<usize>, VariableError>)
    requires
        old(h).wf(),
        h0.wf(),
        old(h).same_tables(&h0),
        shrinks(h0.vars(), old(h).vars()),
        all_nonempty(old(h).vars()),
        reports_shrink(old(output)@, h0.vars(), old(h).vars()),
        reports_all(old(output)@, h0.vars(), old(h).vars()),
        x < old(h).arrays().len(),
        used@.len() == old(h).arrays()[x as int].len(),
        ({
            let d = doms_of(old(h).vars());
            let ps = old(h).arrays()[x as int];
            &&& used_assigned(d, ps, used@)
            &&& forall|j: int, k: int, w: i32|
                0 <= j < ps.len() && 0 <= k < ps.len() && j != k && used@[j]
                    && #[trigger] d[ps[j] as int].contains(w) && #[trigger] d[ps[k] as int].contains(w)
                    ==> !used@[k] && affected@.contains(w)
            &&& forall|w: i32|
                #[trigger] affected@.contains(w) ==> exists|j: int|
                    0 <= j < ps.len() && used@[j] && d[ps[j] as int].len() == 1 && d[ps[j] as int][0] == w
        }),
    ensures
        final(h).wf(),
        final(h).same_tables(old(h)),
        shrinks(old(h).vars(), final(h).vars()),
        ({
            let d = doms_of(old(h).vars());
            let d1 = doms_of(final(h).vars());
            let ps = old(h).arrays()[x as int];
            &&& r is Err ==> r == Err::<Vec<usize>, VariableError>(VariableError::DomainWipeout)
                && forall|s: Seq<i32>| !#[trigger] alldiff_solution(d, ps, s)
            &&& r matches Ok(nc) ==> {
                &&& all_nonempty(final(h).vars())
                &&& reports_shrink(final(output)@, h0.vars(), final(h).vars())
                &&& reports_all(final(output)@, h0.vars(), final(h).vars())
                &&& keeps_solutions(d, d1, ps)
                &&& used_disjoint(d1, ps, used@)
                &&& used_assigned(d1, ps, used@)
                &&& forall|m: int|
                    0 <= m < nc@.len() ==> #[trigger] nc@[m] < ps.len() && !used@[nc@[m] as int]
                        && d1[ps[nc@[m] as int] as int].len() == 1
                &&& forall|k: int|
                    0 <= k < ps.len() && !used@[k] && #[trigger] d1[ps[k] as int].len() == 1
                        ==> nc@.contains(k as usize)
                &&& final(output)@.len() >= old(output)@.len()
                &&& final(output)@.len() == old(output)@.len() ==> forall|k: int|
                    0 <= k < d.len() ==> #[trigger] d1[k].len() == d[k].len()
                &&& forall|q: int| 0 <= q < d.len() && !ps.contains(q as usize) ==> #[trigger] d1[q] == d[q]
            }
        }),
{
    let ghost hs = *h;
    let ghost d = doms_of(h.vars());
    let ghost ps = h.arrays()[x as int];
    let ghost o0 = output@;
    let len = used.len();
    let mut nc: Vec<usize> = Vec::new();
    let mut k: usize = 0;
    while k < len
        invariant
            h.wf(),
            h.same_tables(&hs),
            hs == *old(h),
            hs.wf(),
            h0.wf(),
            hs.same_tables(&h0),
            shrinks(h0.vars(), hs.vars()),
            shrinks(hs.vars(), h.vars()),
            all_nonempty(h.vars()),
            reports_shrink(output@, h0.vars(), h.vars()),
            reports_all(output@, h0.vars(), h.vars()),
            d == doms_of(hs.vars()),
            ps == hs.arrays()[x as int],
            x < hs.arrays().len(),
            len == ps.len(),
            used@.len() == len,
            k <= len,
            o0 == old(output)@,
            used_assigned(d, ps, used@),
            forall|j: int, l: int, w: i32|
                0 <= j < ps.len() && 0 <= l < ps.len() && j != l && used@[j]
                    && #[trigger] d[ps[j] as int].contains(w) && #[trigger] d[ps[l] as int].contains(w)
                    ==> !used@[l] && affected@.contains(w),
            forall|w: i32|
                #[trigger] affected@.contains(w) ==> exists|j: int|
                    0 <= j < ps.len() && used@[j] && d[ps[j] as int].len() == 1 && d[ps[j] as int][0] == w,
            forall|q: int|
                0 <= q < d.len() && !(exists|l: int| 0 <= l < k && !used@[l] && ps[l] == q)
                    ==> #[trigger] doms_of(h.vars())[q] == d[q],
            forall|l: int, w: i32|
                0 <= l < k && !used@[l] ==> (#[trigger] doms_of(h.vars())[ps[l] as int].contains(w)
                    <==> (d[ps[l] as int].contains(w) && !affected@.contains(w))),
            keeps_solutions(d, doms_of(h.vars()), ps),
            forall|m: int|
                0 <= m < nc@.len() ==> #[trigger] nc@[m] < k && !used@[nc@[m] as int]
                    && doms_of(h.vars())[ps[nc@[m] as int] as int].len() == 1,
            forall|l: int|
                0 <= l < k && !used@[l] && #[trigger] doms_of(h.vars())[ps[l] as int].len() == 1
                    ==> nc@.contains(l as usize),
            output@.len() >= o0.len(),
            output@.len() == o0.len() ==> forall|q: int|
                0 <= q < d.len() ==> #[trigger] doms_of(h.vars())[q].len() == d[q].len(),
        decreases len - k,
    {
        let ghost nc0 = nc@;
        let ghost hk = *h;
        if !used[k] {
            let p = h.array_index(x, k);
            let ghost hb = *h;
            let ghost db = doms_of(hb.vars());
            proof {
                assert(ps[k as int] == p);
                assert forall|l: int| 0 <= l < k && !used@[l] implies ps[l] != p by {
                    assert(hs.arrays()[x as int][l] != hs.arrays()[x as int][k as int]);
                }
                assert(db[p as int] == d[p as int]);
                assert(db[p as int] == hb.vars()[p as int]@);
            }
            let mut var = h.take(p);
            let pred = |v: &i32| -> (b: bool)
                ensures
                    b == affected@.contains(*v),
                { vec_contains(affected, *v) };
            let res = var.remove_if(pred);
            let now_affected = var.is_affected();
            let ghost nv = var@;
            h.put(p, var);
            proof {
                assert(h.vars() =~= hb.vars().update(p as int, h.vars()[p as int]));
                assert(doms_of(h.vars()) =~= db.update(p as int, nv));
                assert forall|w: i32| nv.contains(w) <==> (d[p as int].contains(w) && !affected@.contains(w)) by {
                    if d[p as int].contains(w) && !affected@.contains(w) && !nv.contains(w) {
                        assert(call_ensures(pred, (&w,), true));
                    }
                    if nv.contains(w) {
                        assert(call_ensures(pred, (&w,), false));
                    }
                }
                assert(crate::variables::sorted::sorted(nv));
                assert(crate::variables::sorted::sorted(db[p as int]));
                super::comparisons::lemma_subset_len(nv, db[p as int]);
                assert(shrinks(hb.vars(), h.vars()));
                lemma_shrinks_trans(hs.vars(), hb.vars(), h.vars());
            }
            match res {
                Err(e) => {
                    proof {
                        assert forall|s: Seq<i32>| !#[trigger] alldiff_solution(d, ps, s) by {
                            if alldiff_solution(d, ps, s) {
                                assert(alldiff_solution(db, ps, s));
                                assert(d[ps[k as int] as int].contains(s[k as int]));
                                if affected@.contains(s[k as int]) {
                                    let j = choose|j: int|
                                        0 <= j < ps.len() && used@[j] && d[ps[j] as int].len() == 1
                                            && d[ps[j] as int][0] == s[k as int];
                                    assert(d[ps[j] as int].contains(s[j]));
                                    assert(s[j] == d[ps[j] as int][0]);
                                    assert(j != k);
                                    assert(s[j] != s[k as int]);
                                } else {
                                    assert(nv.contains(s[k as int]));
                                }
                            }
                        }
                    }
                    return Err(e);
                },
                Ok(state) => {
                    proof {
                        lemma_reports_shrink_trans(output@, h0.vars(), hb.vars(), h.vars());
                    }
                    let ghost ob = output@;
                    if state != VariableState::NoChange {
                        output.push((VariableId(p), state));
                        proof {
                            lemma_shrinks_trans(h0.vars(), hs.vars(), h.vars());
                            assert(h.vars()[p as int]@.len() < hb.vars()[p as int]@.len());
                            assert(hb.vars()[p as int]@.len() <= h0.vars()[p as int]@.len());
                        }
                    }
                    if now_affected {
                        nc.push(k);
                    }
                    proof {
                        assert forall|i: int|
                            0 <= i < h.vars().len() && #[trigger] h.vars()[i]@.len() != h0.vars()[i]@.len()
                                implies exists|m: int| 0 <= m < output@.len() && (#[trigger] output@[m]).0.0 == i by {
                            if i == p && state != VariableState::NoChange {
                                assert(output@[output@.len() - 1].0.0 == i);
                            } else {
                                assert(doms_of(h.vars())[i] == h.vars()[i]@);
                                assert(db[i] == hb.vars()[i]@);
                                if i != p {
                                    assert(doms_of(h.vars())[i] == db[i]);
                                }
                                assert(h.vars()[i]@.len() == hb.vars()[i]@.len());
                                let m = choose|m: int| 0 <= m < ob.len() && (#[trigger] ob[m]).0.0 == i;
                                assert(output@[m] == ob[m]);
                            }
                        }
                        assert forall|s: Seq<i32>| #[trigger] alldiff_solution(d, ps, s) implies alldiff_solution(
                            doms_of(h.vars()),
                            ps,
                            s,
                        ) by {
                            assert(alldiff_solution(db, ps, s));
                            assert forall|l: int| 0 <= l < s.len() implies #[trigger] doms_of(h.vars())[ps[l] as int].contains(
                                s[l],
                            ) by {
                                if l == k {
                                    assert(d[ps[k as int] as int].contains(s[k as int]));
                                    if affected@.contains(s[k as int]) {
                                        let j = choose|j: int|
                                            0 <= j < ps.len() && used@[j] && d[ps[j] as int].len() == 1
                                                && d[ps[j] as int][0] == s[k as int];
                                        assert(d[ps[j] as int].contains(s[j]));
                                        assert(j != k);
                                        assert(s[j] != s[k as int]);
                                    }
                                } else {
                                    assert(ps[l] != p) by {
                                        assert(hs.arrays()[x as int][l] != hs.arrays()[x as int][k as int]);
                                    }
                                    assert(db[ps[l] as int].contains(s[l]));
                                }
                            }
                        }
                    }
                },
            }
        }
        proof {
            assert forall|l: int|
                0 <= l < k + 1 && !used@[l] && #[trigger] doms_of(h.vars())[ps[l] as int].len() == 1
                    implies nc@.contains(l as usize) by {
                lemma_push_contains(nc0, k, l as usize);
                if l < k {
                    assert(ps[l] != ps[k as int]) by {
                        assert(hs.arrays()[x as int][l] != hs.arrays()[x as int][k as int]);
                    }
                    if !used@[k as int] {
                        assert(doms_of(h.vars())[ps[l] as int] == doms_of(hk.vars())[ps[l] as int]);
                    }
                    assert(nc0.contains(l as usize));
                }
            }
        }
        k = k + 1;
    }
    proof {
        let d1 = doms_of(h.vars());
        assert forall|q: int| 0 <= q < d.len() && !(exists|l: int| 0 <= l < len && !used@[l] && ps[l] == q) implies #[trigger] d1[q] == d[q] by {
        }
        assert forall|q: int| 0 <= q < d.len() && !ps.contains(q as usize) implies #[trigger] d1[q] == d[q] by {
            if exists|l: int| 0 <= l < len && !used@[l] && ps[l] == q {
                let l = choose|l: int| 0 <= l < len && !used@[l] && ps[l] == q;
                assert(ps[l] == q as usize);
                assert(ps.contains(q as usize));
            }
        }
        assert forall|j: int, l: int, w: i32|
            0 <= j < ps.len() && 0 <= l < ps.len() && j != l && used@[j] && #[trigger] d1[ps[j] as int].contains(w)
                implies !#[trigger] d1[ps[l] as int].contains(w) by {
            assert(!(exists|m: int| 0 <= m < len && !used@[m] && ps[m] == ps[j])) by {
                if exists|m: int| 0 <= m < len && !used@[m] && ps[m] == ps[j] {
                    let m = choose|m: int| 0 <= m < len && !used@[m] && ps[m] == ps[j];
                    assert(m != j);
                    assert(hs.arrays()[x as int][m] != hs.arrays()[x as int][j]);
                }
            }
            assert(d1[ps[j] as int] == d[ps[j] as int]);
            if d1[ps[l] as int].contains(w) {
                assert(h.vars()[ps[l] as int]@ == d1[ps[l] as int]);
                assert(d[ps[l] as int].contains(w));
                assert(!used@[l] && affected@.contains(w));
            }
        }
        assert forall|l: int| 0 <= l < ps.len() && #[trigger] used@[l] implies d1[ps[l] as int].len() <= 1 by {
            assert(!(exists|m: int| 0 <= m < len && !used@[m] && ps[m] == ps[l])) by {
                if exists|m: int| 0 <= m < len && !used@[m] && ps[m] == ps[l] {
                    let m = choose|m: int| 0 <= m < len && !used@[m] && ps[m] == ps[l];
                    assert(m != l);
                    assert(hs.arrays()[x as int][m] != hs.arrays()[x as int][l]);
                }
            }
        }
    }
    Ok(nc)
}

impl Constraint for AllDifferent {
    open spec fn ready(&self, h: VariableHandler) -> bool {
        &&& self.spec_array().spec_idx() < h.arrays().len()
        &&& self.state_ok(h)
    }

    proof fn lemma_ready_shrinks(&self, h0: VariableHandler, h1: VariableHandler) {
        let ps = h0.arrays()[self.spec_array().spec_idx() as int];
        let d0 = doms_of(h0.vars());
        let d1 = doms_of(h1.vars());
        let u = self.spec_used();
        if u.len() == ps.len() {
            assert forall|j: int, k: int, w: i32|
                0 <= j < ps.len() && 0 <= k < ps.len() && j != k && u[j] && #[trigger] d1[ps[j] as int].contains(w)
                    implies !#[trigger] d1[ps[k] as int].contains(w) by {
                assert(h1.vars()[ps[j] as int]@.contains(w));
                assert(d0[ps[j] as int].contains(w));
                if h1.vars()[ps[k] as int]@.contains(w) {
                    assert(d0[ps[k] as int].contains(w));
                }
            }
            assert forall|k: int| 0 <= k < ps.len() && #[trigger] u[k] implies d1[ps[k] as int].len() <= 1 by {
                assert(h1.vars()[ps[k] as int]@.len() <= h0.vars()[ps[k] as int]@.len());
            }
        }
    }

    closed spec fn pending(&self) -> Seq<(VariableId, VariableState)> {
        output_view(self.output)
    }

    fn propagate(&mut self, variables_handler: &mut VariableHandler) -> (r: Result<
        PropagationState,
        VariableError,
    >)
        ensures
            old(self).propagation(*old(variables_handler), *final(self), *final(variables_handler), r),
    {
        let ghost h0 = *variables_handler;
        let ghost ps = h0.arrays()[self.array.spec_idx() as int];
        let ghost d0 = doms_of(h0.vars());
        self.output = None;
        let x = self.array.get_idx();
        let len = variables_handler.array_len(x);
        if self.used.len() != len {
            self.used = unmarked(len);
            self.nb_used = 0;
        }
        let mut pending: Option<Vec<usize>> = None;
        std::mem::swap(&mut pending, &mut self.changes);
        let changes = match pending {
            None => all_positions(len),
            Some(c) => c,
        };
        let mut output: Vec<(VariableId, VariableState)> = Vec::new();
        let mut affected: Vec<i32> = Vec::new();
        proof {
            assert(keeps_solutions(d0, d0, ps));
        }
        let marked = self.mark(variables_handler, x, &changes, &mut affected);
        if let Err(e) = marked {
            proof {
                assert forall|s: Seq<i32>| !#[trigger] alldiff_solution(d0, ps, s) by {
                    if alldiff_solution(d0, ps, s) {
                        let (j, k) = choose|j: int, k: int|
                            0 <= j < ps.len() && 0 <= k < ps.len() && j != k && d0[ps[j] as int].len() == 1
                                && d0[ps[k] as int].len() == 1 && d0[ps[j] as int][0] == d0[ps[k] as int][0];
                        assert(d0[ps[j] as int].contains(s[j]));
                        assert(d0[ps[k] as int].contains(s[k]));
                        assert(s[j] != s[k]);
                    }
                }
            }
            return Err(e);
        }
        loop
            invariant
                variables_handler.wf(),
                variables_handler.same_tables(&h0),
                h0 == *old(variables_handler),
                h0.wf(),
                shrinks(h0.vars(), variables_handler.vars()),
                all_nonempty(variables_handler.vars()),
                reports_shrink(output@, h0.vars(), variables_handler.vars()),
                reports_all(output@, h0.vars(), variables_handler.vars()),
                x == old(self).spec_array().spec_idx(),
                x < h0.arrays().len(),
                ps == h0.arrays()[x as int],
                d0 == doms_of(h0.vars()),
                len == ps.len(),
                self.array == old(self).array,
                self.output is None,
                self.used@.len() == len,
                self.nb_used == count_used(self.used@),
                keeps_solutions(d0, doms_of(variables_handler.vars()), ps),
                used_assigned(doms_of(variables_handler.vars()), ps, self.used@),
                forall|j: int, k: int, w: i32|
                    0 <= j < ps.len() && 0 <= k < ps.len() && j != k && self.used@[j]
                        && #[trigger] doms_of(variables_handler.vars())[ps[j] as int].contains(w)
                        && #[trigger] doms_of(variables_handler.vars())[ps[k] as int].contains(w)
                        ==> !self.used@[k] && affected@.contains(w),
                forall|w: i32|
                    #[trigger] affected@.contains(w) ==> exists|j: int|
                        0 <= j < ps.len() && self.used@[j] && doms_of(variables_handler.vars())[ps[j] as int].len() == 1
                            && doms_of(variables_handler.vars())[ps[j] as int][0] == w,
                output@.len() == 0 ==> forall|q: int|
                    0 <= q < d0.len() ==> #[trigger] doms_of(variables_handler.vars())[q].len() == d0[q].len(),
                forall|q: int|
                    0 <= q < d0.len() && !ps.contains(q as usize) ==> #[trigger] doms_of(variables_handler.vars())[q]
                        == d0[q],
            decreases len - self.nb_used,
        {
            let ghost hb = *variables_handler;
            let ghost ob = output@;
            let round = remove_round(variables_handler, x, &self.used, &affected, &mut output, Ghost(h0));
            let ghost d1 = doms_of(variables_handler.vars());
            proof {
                lemma_shrinks_trans(h0.vars(), hb.vars(), variables_handler.vars());
            }
            let nc = match round {
                Err(e) => {
                    proof {
                        assert forall|s: Seq<i32>| !#[trigger] alldiff_solution(d0, ps, s) by {
                            if alldiff_solution(d0, ps, s) {
                                assert(alldiff_solution(doms_of(hb.vars()), ps, s));
                            }
                        }
                    }
                    return Err(e);
                },
                Ok(nc) => nc,
            };
            proof {
                assert forall|s: Seq<i32>| #[trigger] alldiff_solution(d0, ps, s) implies alldiff_solution(d1, ps, s) by {
                    assert(alldiff_solution(doms_of(hb.vars()), ps, s));
                }
                assert forall|q: int| 0 <= q < d0.len() && !ps.contains(q as usize) implies #[trigger] d1[q] == d0[q] by {
                    assert(doms_of(hb.vars())[q] == d0[q]);
                }
                if ob.len() == 0 && output@.len() == 0 {
                    assert forall|q: int| 0 <= q < d0.len() implies #[trigger] d1[q].len() == d0[q].len() by {
                        assert(doms_of(hb.vars())[q].len() == d0[q].len());
                    }
                }
            }
            if nc.len() == 0 {
                proof {
                    assert forall|k: int, l: int, w: i32|
                        0 <= k < ps.len() && 0 <= l < ps.len() && k != l && d1[ps[l] as int].len() == 1
                            && #[trigger] d1[ps[l] as int].contains(w) implies !#[trigger] d1[ps[k] as int].contains(w) by {
                        if !self.used@[l] {
                            assert(nc@.contains(l as usize));
                        }
                    }
                    lemma_count_le(self.used@);
                    if self.nb_used == len {
                        assert forall|k: int| 0 <= k < ps.len() implies #[trigger] d1[ps[k] as int].len() == 1 by {
                            assert(self.used@[k]);
                            assert(variables_handler.vars()[ps[k] as int]@ == d1[ps[k] as int]);
                        }
                    } else {
                        if forall|k: int| 0 <= k < ps.len() ==> #[trigger] d1[ps[k] as int].len() == 1 {
                            assert forall|k: int| 0 <= k < self.used@.len() implies #[trigger] self.used@[k] by {
                                if !self.used@[k] {
                                    assert(d1[ps[k] as int].len() == 1);
                                    assert(nc@.contains(k as usize));
                                }
                            }
                            lemma_count_all(self.used@);
                        }
                    }
                }
                if self.nb_used == len {
                    self.output = Some(output);
                    return Ok(PropagationState::Subsumed);
                } else if output.len() > 0 {
                    self.output = Some(output);
                    return Ok(PropagationState::FixPoint);
                } else {
                    return Ok(PropagationState::NoChange);
                }
            }
            let ghost u_before = self.used@;
            let mut fresh: Vec<i32> = Vec::new();
            proof {
                assert(used_disjoint(d1, ps, self.used@));
            }
            let marked = self.mark(variables_handler, x, &nc, &mut fresh);
            if let Err(e) = marked {
                proof {
                    assert forall|s: Seq<i32>| !#[trigger] alldiff_solution(d0, ps, s) by {
                        if alldiff_solution(d0, ps, s) {
                            assert(alldiff_solution(d1, ps, s));
                            let (j, k) = choose|j: int, k: int|
                                0 <= j < ps.len() && 0 <= k < ps.len() && j != k && d1[ps[j] as int].len() == 1
                                    && d1[ps[k] as int].len() == 1 && d1[ps[j] as int][0] == d1[ps[k] as int][0];
                            assert(d1[ps[j] as int].contains(s[j]));
                            assert(d1[ps[k] as int].contains(s[k]));
                            assert(s[j] != s[k]);
                        }
                    }
                }
                return Err(e);
            }
            affected = fresh;
            proof {
                assert(nc@[0] < ps.len() && !u_before[nc@[0] as int]);
                assert(d1[ps[nc@[0] as int] as int].len() == 1);
                assert(count_used(self.used@) > count_used(u_before));
                lemma_count_le(self.used@);
            }
        }
    }

    fn initialise(&mut self, variables_handler: &mut VariableHandler) -> (r: Result<
        PropagationState,
        VariableError,
    >)
        ensures
            old(self).propagation(*old(variables_handler), *final(self), *final(variables_handler), r),
    {
        let x = self.array.get_idx();
        let len = variables_handler.array_len(x);
        self.used = unmarked(len);
        self.nb_used = 0;
        let mut positions: Vec<usize> = Vec::new();
        let mut k: usize = 0;
        while k < len
            invariant
                variables_handler.wf(),
                x < variables_handler.arrays().len(),
                len == variables_handler.arrays()[x as int].len(),
                k <= len,
                positions@.len() == k,
            decreases len - k,
        {
            positions.push(variables_handler.array_index(x, k));
            k = k + 1;
        }
        self.positions = positions;
        self.changes = None;
        self.propagate(variables_handler)
    }

    fn prepare(&mut self, states: Vec<VariableId>)
        ensures
            final(self).spec_array() == old(self).spec_array(),
            old(self).prepared(states@, *final(self)),
    {
        let ghost ps = self.positions@;
        let mut changes: Vec<usize> = Vec::new();
        let mut i: usize = 0;
        while i < states.len()
            invariant
                i <= states@.len(),
                self.positions@ == ps,
                changes@ == changed_positions(ps, states@.take(i as int)),
            decreases states@.len() - i,
        {
            let id = states[i].0;
            let mut j: usize = 0;
            while j < self.positions.len() && self.positions[j] != id
                invariant
                    j <= ps.len(),
                    self.positions@ == ps,
                    forall|k: int| 0 <= k < j ==> ps[k] != id,
                decreases ps.len() - j,
            {
                j = j + 1;
            }
            proof {
                assert(states@.take(i + 1).drop_last() =~= states@.take(i as int));
                assert(states@.take(i + 1).last() == states@[i as int]);
                if j < ps.len() {
                    assert(ps[j as int] == id);
                    let c = choose|c: int| 0 <= c < ps.len() && ps[c] == id && forall|k: int| 0 <= k < c ==> ps[k] != id;
                    assert(0 <= c < ps.len() && ps[c] == id && forall|k: int| 0 <= k < c ==> ps[k] != id);
                    if c < j {
                        assert(ps[c] != id);
                    }
                    if j < c {
                        assert(ps[j as int] != id);
                    }
                    assert(first_position(ps, id) == Some(j as int));
                } else {
                    assert(first_position(ps, id) is None);
                }
            }
            if j < self.positions.len() {
                changes.push(j);
            }
            i = i + 1;
        }
        proof {
            assert(states@.take(i as int) =~= states@);
        }
        self.changes = Some(changes);
    }

    fn result(&mut self) -> (r: Vec<(VariableId, VariableState)>)
        ensures
            final(self).spec_array() == old(self).spec_array(),
    {
        let mut res = None;
        std::mem::swap(&mut self.output, &mut res);
        match res {
            None => Vec::new(),
            Some(changes) => changes,
        }
    }

    fn box_clone(&self) -> (r: Self)
        ensures
            r.spec_array() == self.spec_array(),
    {
        let r = AllDifferent {
            array: self.array,
            used: copy_vec(&self.used),
            nb_used: self.nb_used,
            output: copy_opt_vec(&self.output),
            positions: copy_vec(&self.positions),
            changes: copy_opt_vec(&self.changes),
        };
        proof {
            assert forall|h: VariableHandler| self.ready(h) implies #[trigger] r.ready(h) by {
            }
        }
        r
    }

    fn dependencies(&self, variables_handler: &VariableHandler) -> (r: Vec<(VariableId, VariableState)>)
        ensures
            r@.len() == variables_handler.arrays()[self.spec_array().spec_idx() as int].len(),
            forall|k: int|
                0 <= k < r@.len() ==> #[trigger] r@[k] == (
                    VariableId(variables_handler.arrays()[self.spec_array().spec_idx() as int][k]),
                    VariableState::ValuesChange,
                ),
    {
        let x = self.array.get_idx();
        let len = variables_handler.array_len(x);
        let mut deps: Vec<(VariableId, VariableState)> = Vec::new();
        let mut k: usize = 0;
        while k < len
            invariant
                variables_handler.wf(),
                x == self.spec_array().spec_idx(),
                x < variables_handler.arrays().len(),
                len == variables_handler.arrays()[x as int].len(),
                k <= len,
                deps@.len() == k,
                forall|l: int|
                    0 <= l < k ==> #[trigger] deps@[l] == (
                        VariableId(variables_handler.arrays()[x as int][l]),
                        VariableState::ValuesChange,
                    ),
            decreases len - k,
        {
            let p = variables_handler.array_index(x, k);
            deps.push((VariableId(p), VariableState::ValuesChange));
            k = k + 1;
        }
        deps
    }
}

} // verus!
