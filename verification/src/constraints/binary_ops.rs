use vstd::prelude::*;

use super::copy_opt_vec;

use super::comparisons::{distinct_pair, output_view, pair_entries};
use super::{shrinks, Constraint, PropagationState};
use crate::variables::handlers::{VarView, VariableHandler};
use crate::variables::int_var::{restriction, IntVarValues};
use crate::variables::sorted::{inter, lemma_filter_sorted, occurs_in};
use crate::variables::{VariableError, VariableId, VariableState};

verus! {

/// The map `v -> v + c`.
pub open spec fn plus(c: i32) -> spec_fn(i32) -> i32 {
    |v: i32| (v + c) as i32
}

/// The map `v -> v - c`.
pub open spec fn minus(c: i32) -> spec_fn(i32) -> i32 {
    |v: i32| (v - c) as i32
}

/// Every value of `s`, shifted by `c`, stays within `i32`.
pub open spec fn shift_fits(s: Seq<i32>, c: int) -> bool {
    forall|v: i32| #[trigger] s.contains(v) ==> i32::MIN <= v + c <= i32::MAX
}

/// `v + c` for each value `v` of the variable.
fn values_plus(var: &IntVarValues, c: i32) -> (r: Vec<i32>)
    requires
        shift_fits(var@, c as int),
    ensures
        r@ == var@.map_values(plus(c)),
{
    let d = var.iter();
    let mut r: Vec<i32> = Vec::new();
    let mut i: usize = 0;
    while i < d.len()
        invariant
            i <= d@.len(),
            d@ == var@,
            shift_fits(var@, c as int),
            r@ == var@.subrange(0, i as int).map_values(plus(c)),
        decreases d@.len() - i,
    {
        let x = d[i];
        proof {
            assert(var@.contains(var@[i as int]));
        }
        r.push(x + c);
        i = i + 1;
        proof {
            assert(r@ =~= var@.subrange(0, i as int).map_values(plus(c)));
        }
    }
    proof {
        assert(var@.subrange(0, var@.len() as int) =~= var@);
    }
    r
}

/// `v - c` for each value `v` of the variable.
fn values_minus(var: &IntVarValues, c: i32) -> (r: Vec<i32>)
    requires
        shift_fits(var@, -c),
    ensures
        r@ == var@.map_values(minus(c)),
{
    let d = var.iter();
    let mut r: Vec<i32> = Vec::new();
    let mut i: usize = 0;
    while i < d.len()
        invariant
            i <= d@.len(),
            d@ == var@,
            shift_fits(var@, -c),
            r@ == var@.subrange(0, i as int).map_values(minus(c)),
        decreases d@.len() - i,
    {
        let x = d[i];
        proof {
            assert(var@.contains(var@[i as int]));
        }
        r.push(x - c);
        i = i + 1;
        proof {
            assert(r@ =~= var@.subrange(0, i as int).map_values(minus(c)));
        }
    }
    proof {
        assert(var@.subrange(0, var@.len() as int) =~= var@);
    }
    r
}

/// The constraint `res == var + coef`.
#[derive(Debug, Clone)]
pub struct AddConstant {
    res: VarView,
    var: VarView,
    coef: i32,
    output: Option<Vec<(VariableId, VariableState)>>,
}

impl AddConstant {
    /// What a propagation does: the constraint before it (`self`) and after
    /// it (`after`), the variables before (`h0`) and after (`h1`), and the
    /// report `r`.
    pub open spec fn propagation(
        &self,
        h0: VariableHandler,
        after: AddConstant,
        h1: VariableHandler,
        r: Result<PropagationState, VariableError>,
    ) -> bool {
        let i = h0.spec_index(self.spec_res().place());
        let j = h0.spec_index(self.spec_var().place());
        let c = self.spec_coef();
        let first = restriction(h0.vars()[i]@, h0.vars()[j]@.map_values(plus(c)));
        let second = restriction(h0.vars()[j]@, first.1.map_values(minus(c)));
        &&& after.spec_res() == self.spec_res()
        &&& after.spec_var() == self.spec_var()
        &&& after.spec_coef() == c
        &&& forall|k: int| 0 <= k < h0.vars().len() && k != i && k != j ==> h1.vars()[k]
            == h0.vars()[k]
        &&& h1.vars()[i]@ == first.1
        &&& first.0 is Err ==> r == Err::<PropagationState, VariableError>(
            VariableError::DomainWipeout,
        ) && h1.vars()[j]@ == h0.vars()[j]@
        &&& first.0 is Ok ==> h1.vars()[j]@ == second.1
        &&& first.0 is Ok && second.0 is Err ==> r == Err::<
            PropagationState,
            VariableError,
        >(VariableError::DomainWipeout)
        &&& first.0 is Ok && second.0 is Ok ==> after.pending() == pair_entries(
            VariableId(i as usize),
            h0.vars()[i]@,
            first.1,
            VariableId(j as usize),
            h0.vars()[j]@,
            second.1,
        ) && r == Ok::<PropagationState, VariableError>(
            if after.pending().len() > 0 {
                PropagationState::FixPoint
            } else {
                PropagationState::NoChange
            },
        )
    }

    /// The constraint `res == var + coef`.
    pub fn new(res: VarView, var: VarView, coef: i32) -> (r: AddConstant)
        ensures
            r.spec_res() == res,
            r.spec_var() == var,
            r.spec_coef() == coef,
            r.pending().len() == 0,
    {
        AddConstant { res: res, var: var, coef: coef, output: None }
    }

    pub closed spec fn spec_res(&self) -> VarView {
        self.res
    }

    pub closed spec fn spec_var(&self) -> VarView {
        self.var
    }

    pub closed spec fn spec_coef(&self) -> i32 {
        self.coef
    }
}

impl Constraint for AddConstant {
    /// Besides the places, the shifted values must fit in `i32`.
    open spec fn ready(&self, h: VariableHandler) -> bool {
        &&& distinct_pair(h, self.spec_res(), self.spec_var())
        &&& shift_fits(h.vars()[h.spec_index(self.spec_var().place())]@, self.spec_coef() as int)
        &&& shift_fits(h.vars()[h.spec_index(self.spec_res().place())]@, -self.spec_coef())
    }

    proof fn lemma_ready_shrinks(&self, h0: VariableHandler, h1: VariableHandler) {
        let i = h0.spec_index(self.spec_res().place());
        let j = h0.spec_index(self.spec_var().place());
        assert forall|v: i32| #[trigger] h1.vars()[j]@.contains(v) implies i32::MIN <= v
            + self.spec_coef() <= i32::MAX by {
            assert(h0.vars()[j]@.contains(v));
        }
        assert forall|v: i32| #[trigger] h1.vars()[i]@.contains(v) implies i32::MIN <= v
            - self.spec_coef() <= i32::MAX by {
            assert(h0.vars()[i]@.contains(v));
        }
    }

    closed spec fn pending(&self) -> Seq<(VariableId, VariableState)> {
        output_view(self.output)
    }

    fn propagate(&mut self, variables_handler: &mut VariableHandler) -> (r: Result<
        PropagationState,
        VariableError,
    >)
        ensures
            old(self).propagation(*old(variables_handler), *final(self), *final(variables_handler), r),
    {
        let ghost h0 = *variables_handler;
        let mut output: Vec<(VariableId, VariableState)> = Vec::new();
        self.output = None;
        let i = variables_handler.index(self.res.get_idx());
        let j = variables_handler.index(self.var.get_idx());
        let mut res = variables_handler.take(i);
        let mut var = variables_handler.take(j);
        let res_id = res.id();
        let var_id = var.id();
        let ghost res0 = res@;
        let ghost var0 = var@;
        let domain = values_plus(&var, self.coef);
        let state = res.in_values(domain);
        let ghost res1 = res@;
        proof {
            lemma_filter_sorted(res0, occurs_in(var0.map_values(plus(self.coef))));
            if inter(res0, var0.map_values(plus(self.coef))).len() > 0 {
                assert(shift_fits(res1, -self.coef));
            }
        }
        let state2 = match state {
            Ok(_) => {
                let domain = values_minus(&res, self.coef);
                var.in_values(domain)
            },
            Err(e) => Err(e),
        };
        let ghost var1 = var@;
        proof {
            lemma_filter_sorted(var0, occurs_in(res1.map_values(minus(self.coef))));
            assert(shrinks(
                h0.vars(),
                h0.vars().update(i as int, res).update(j as int, var),
            ));
        }
        variables_handler.put(i, res);
        variables_handler.put(j, var);
        proof {
            assert(variables_handler.vars() =~= h0.vars().update(i as int, variables_handler.vars()[i as int]).update(
                j as int,
                variables_handler.vars()[j as int],
            ));
        }
        let state = state?;
        if state != VariableState::NoChange {
            output.push((res_id, state));
        }
        let state2 = state2?;
        if state2 != VariableState::NoChange {
            output.push((var_id, state2));
        }
        if output.len() > 0 {
            self.output = Some(output);
            Ok(PropagationState::FixPoint)
        } else {
            Ok(PropagationState::NoChange)
        }
    }

    fn initialise(&mut self, variables_handler: &mut VariableHandler) -> (r: Result<
        PropagationState,
        VariableError,
    >)
        ensures
            old(self).propagation(*old(variables_handler), *final(self), *final(variables_handler), r),
    {
        self.propagate(variables_handler)
    }

    fn prepare(&mut self, states: Vec<VariableId>)
        ensures
            final(self).spec_res() == old(self).spec_res(),
            final(self).spec_var() == old(self).spec_var(),
            final(self).spec_coef() == old(self).spec_coef(),
            *final(self) == *old(self),
    {
    }

    fn result(&mut self) -> (r: Vec<(VariableId, VariableState)>)
        ensures
            final(self).spec_res() == old(self).spec_res(),
            final(self).spec_var() == old(self).spec_var(),
            final(self).spec_coef() == old(self).spec_coef(),
    {
        let mut res = None;
        std::mem::swap(&mut self.output, &mut res);
        match res {
            None => Vec::new(),
            Some(changes) => changes,
        }
    }

    fn box_clone(&self) -> (r: Self)
        ensures
            r.spec_res() == self.spec_res(), r.spec_var() == self.spec_var(), r.spec_coef() == self.spec_coef(),
    {
        let r = AddConstant { res: self.res, var: self.var, coef: self.coef, output: copy_opt_vec(&self.output) };
        proof {
            assert forall|h: VariableHandler| self.ready(h) implies #[trigger] r.ready(h) by {
            }
        }
        r
    }

    fn dependencies(&self, variables_handler: &VariableHandler) -> (r: Vec<(VariableId, VariableState)>)
        ensures
            r@ == seq![
                (VariableId(variables_handler.spec_index(self.spec_res().place()) as usize), VariableState::ValuesChange),
                (VariableId(variables_handler.spec_index(self.spec_var().place()) as usize), VariableState::ValuesChange),
            ],
    {
        let l = variables_handler.get(&self.res).id();
        let r = variables_handler.get(&self.var).id();
        let mut v: Vec<(VariableId, VariableState)> = Vec::new();
        v.push((l, VariableState::ValuesChange));
        v.push((r, VariableState::ValuesChange));
        v
    }
}

/// The values of `s` mapped by `f` are exactly the images of the values of
/// `s`.
proof fn lemma_map_contains(s: Seq<i32>, f: spec_fn(i32) -> i32)
    ensures
        forall|y: i32| #[trigger] s.map_values(f).contains(y) <==> exists|v: i32|
            #[trigger] s.contains(v) && y == f(v),
{
    assert forall|y: i32| #[trigger] s.map_values(f).contains(y) <==> exists|v: i32|
        #[trigger] s.contains(v) && y == f(v) by {
        if s.map_values(f).contains(y) {
            let k = choose|k: int| 0 <= k < s.map_values(f).len() && s.map_values(f)[k] == y;
            assert(s.contains(s[k]));
        }
        if exists|v: i32| #[trigger] s.contains(v) && y == f(v) {
            let v = choose|v: i32| #[trigger] s.contains(v) && y == f(v);
            let k = choose|k: int| 0 <= k < s.len() && s[k] == v;
            assert(s.map_values(f)[k] == y);
        }
    }
}

/// Propagating `res == var + coef` fails exactly when no value `x` of `res`
/// and value `v` of `var` satisfy `x == v + coef`. When it succeeds, a value
/// stays in `res` exactly when it is some value of `var` plus `coef`, and a
/// value `v` stays in `var` exactly when `v + coef` is a value of `res`; so
/// each value left in one variable has its partner left in the other.
pub proof fn lemma_add_constant_supports(
    c0: AddConstant,
    h0: VariableHandler,
    c1: AddConstant,
    h1: VariableHandler,
    r: Result<PropagationState, VariableError>,
)
    requires
        h0.wf(),
        c0.ready(h0),
        c0.propagation(h0, c1, h1, r),
    ensures
        ({
            let i = h0.spec_index(c0.spec_res().place());
            let j = h0.spec_index(c0.spec_var().place());
            let c = c0.spec_coef();
            let x0 = h0.vars()[i]@;
            let v0 = h0.vars()[j]@;
            let x1 = h1.vars()[i]@;
            let v1 = h1.vars()[j]@;
            &&& r is Err <==> !exists|x: i32, v: i32|
                #![trigger x0.contains(x), v0.contains(v)]
                x0.contains(x) && v0.contains(v) && x == v + c
            &&& r is Ok ==> forall|x: i32| #[trigger] x1.contains(x) <==> (x0.contains(x)
                && exists|v: i32| #[trigger] v0.contains(v) && x == v + c)
            &&& r is Ok ==> forall|v: i32| #[trigger] v1.contains(v) <==> (v0.contains(v)
                && exists|x: i32| #[trigger] x0.contains(x) && x == v + c)
            &&& r is Ok ==> forall|v: i32| #[trigger] v1.contains(v) ==> exists|x: i32|
                #[trigger] x1.contains(x) && x == v + c
            &&& r is Ok ==> forall|x: i32| #[trigger] x1.contains(x) ==> exists|v: i32|
                #[trigger] v1.contains(v) && x == v + c
        }),
{
    let i = h0.spec_index(c0.spec_res().place());
    let j = h0.spec_index(c0.spec_var().place());
    let c = c0.spec_coef();
    let x0 = h0.vars()[i]@;
    let v0 = h0.vars()[j]@;
    assert(h0.vars()[i].wf());
    assert(h0.vars()[j].wf());
    let shifted = v0.map_values(plus(c));
    lemma_map_contains(v0, plus(c));
    lemma_filter_sorted(x0, occurs_in(shifted));
    let first = restriction(x0, shifted);
    assert forall|y: i32| #[trigger] shifted.contains(y) <==> exists|v: i32|
        #[trigger] v0.contains(v) && y == v + c by {
        if shifted.contains(y) {
            let v = choose|v: i32| #[trigger] v0.contains(v) && y == plus(c)(v);
            assert(v0.contains(v) && y == v + c);
        }
        if exists|v: i32| #[trigger] v0.contains(v) && y == v + c {
            let v = choose|v: i32| #[trigger] v0.contains(v) && y == v + c;
            assert(v0.contains(v) && y == plus(c)(v));
        }
    }
    assert forall|x: i32| #[trigger] inter(x0, shifted).contains(x) <==> (x0.contains(x) && exists|v: i32|
        #[trigger] v0.contains(v) && x == v + c) by {
        assert(occurs_in(shifted)(x) == shifted.contains(x));
    }
    if first.0 is Ok {
        let back = first.1.map_values(minus(c));
        lemma_map_contains(first.1, minus(c));
        lemma_filter_sorted(v0, occurs_in(back));
        assert forall|w: i32| #[trigger] v0.contains(w) implies (back.contains(w) <==> exists|x: i32|
            #[trigger] x0.contains(x) && x == w + c) by {
            if back.contains(w) {
                let x = choose|x: i32| #[trigger] first.1.contains(x) && w == minus(c)(x);
                assert(x0.contains(x));
                assert(x == w + c);
            }
            if exists|x: i32| #[trigger] x0.contains(x) && x == w + c {
                let x = choose|x: i32| #[trigger] x0.contains(x) && x == w + c;
                assert(first.1.contains(x));
                assert(w == minus(c)(x));
            }
        }
        let x = first.1[0];
        assert(first.1.contains(x));
        let v = choose|v: i32| #[trigger] v0.contains(v) && x == v + c;
        assert(back.contains(v));
        lemma_filter_sorted(v0, occurs_in(back));
        assert(inter(v0, back).contains(v));
        assert(x0.contains(x) && v0.contains(v) && x == v + c);
        let v1 = h1.vars()[j]@;
        assert forall|w: i32| #[trigger] v1.contains(w) implies exists|y: i32|
            #[trigger] first.1.contains(y) && y == w + c by {
            assert(occurs_in(back)(w));
            let y = choose|y: i32| #[trigger] x0.contains(y) && y == w + c;
            assert(first.1.contains(y));
        }
        assert forall|y: i32| #[trigger] first.1.contains(y) implies exists|w: i32|
            #[trigger] v1.contains(w) && y == w + c by {
            let w = choose|w: i32| #[trigger] v0.contains(w) && y == w + c;
            assert(back.contains(w));
            assert(v1.contains(w));
        }
    } else {
        assert forall|x: i32, v: i32| x0.contains(x) && v0.contains(v) implies x != v + c by {
            if x == v + c {
                assert(inter(x0, shifted).contains(x));
                assert(inter(x0, shifted).len() > 0);
            }
        }
    }
}

/// Propagating `res == var + coef` removes no solution: when a value `r` of
/// `res` and a value `v` of `var` satisfy it, both steps succeed and keep
/// `r` and `v`.
pub proof fn lemma_add_constant_keeps_solutions(c: AddConstant, h: VariableHandler, r: i32, v: i32)
    requires
        h.wf(),
        c.ready(h),
        h.vars()[h.spec_index(c.spec_res().place())]@.contains(r),
        h.vars()[h.spec_index(c.spec_var().place())]@.contains(v),
        r == v + c.spec_coef(),
    ensures
        ({
            let i = h.spec_index(c.spec_res().place());
            let j = h.spec_index(c.spec_var().place());
            let first = restriction(h.vars()[i]@, h.vars()[j]@.map_values(plus(c.spec_coef())));
            let second = restriction(h.vars()[j]@, first.1.map_values(minus(c.spec_coef())));
            &&& first.0 is Ok
            &&& first.1.contains(r)
            &&& second.0 is Ok
            &&& second.1.contains(v)
        }),
{
    let i = h.spec_index(c.spec_res().place());
    let j = h.spec_index(c.spec_var().place());
    let coef = c.spec_coef();
    let di = h.vars()[i]@;
    let dj = h.vars()[j]@;
    assert(h.vars()[i].wf());
    assert(h.vars()[j].wf());
    let shifted = dj.map_values(plus(coef));
    let k = choose|k: int| 0 <= k < dj.len() && dj[k] == v;
    assert(shifted[k] == r);
    assert(shifted.contains(r));
    lemma_filter_sorted(di, occurs_in(shifted));
    let first = inter(di, shifted);
    assert(first.contains(r));
    assert(first.len() > 0);
    assert(restriction(di, shifted).0 is Ok && restriction(di, shifted).1 == first);
    let back = first.map_values(minus(coef));
    let m = choose|m: int| 0 <= m < first.len() && first[m] == r;
    assert(back[m] == v);
    assert(back.contains(v));
    lemma_filter_sorted(dj, occurs_in(back));
    let second = inter(dj, back);
    assert(second.contains(v));
    assert(second.len() > 0);
    assert(restriction(dj, back).0 is Ok && restriction(dj, back).1 == second);
}

} // verus!
