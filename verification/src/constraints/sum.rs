use vstd::prelude::*;

use super::{copy_opt_vec, copy_vec};

use super::comparisons::{doms_of, output_view};
use super::{all_nonempty, lemma_shrinks_trans, reports_shrink, shrinks, Constraint, PropagationState};
use crate::variables::handlers::{ArrayOfVarsView, VarView, VariableHandler};
use crate::variables::int_var::IntVarValues;
use crate::variables::sorted::{lemma_filter_sorted, lemma_sorted_bounds, lemma_sorted_ext, sorted};
use crate::variables::{VariableError, VariableId, VariableState};

verus! {

/// The values of `s` lower than or equal to `b`.
pub open spec fn capped(s: Seq<i32>, b: int) -> Seq<i32> {
    s.filter(|v: i32| v <= b)
}

/// The values of `s` greater than or equal to `b`.
pub open spec fn floored(s: Seq<i32>, b: int) -> Seq<i32> {
    s.filter(|v: i32| v >= b)
}

/// The sum of `cs[i]` times the minimum (or, when `upper`, the maximum) of
/// the domain at position `ps[i]`, for `i < n`.
pub open spec fn lin_sum(d: Seq<Seq<i32>>, ps: Seq<usize>, cs: Seq<i32>, n: int, upper: bool) -> int
    decreases n,
{
    if n <= 0 {
        0
    } else {
        lin_sum(d, ps, cs, n - 1, upper) + cs[n - 1] * (if upper {
            d[ps[n - 1] as int].last()
        } else {
            d[ps[n - 1] as int][0]
        })
    }
}

/// The quotient of `a` by `b`, rounded toward zero, for `a >= 0` and
/// `b != 0`.
pub open spec fn trunc_div(a: int, b: int) -> int {
    if b > 0 {
        a / b
    } else {
        -(a / (-b))
    }
}

/// The new upper bound of the `i`-th term of the sum, given the slack `f`.
pub open spec fn sum_cap(d: Seq<Seq<i32>>, ps: Seq<usize>, cs: Seq<i32>, f: int, i: int) -> int {
    trunc_div(f, cs[i] as int) + d[ps[i] as int][0]
}

/// The domains `d` with each of the first `n` terms capped by its new upper
/// bound.
pub open spec fn capped_all(d: Seq<Seq<i32>>, ps: Seq<usize>, cs: Seq<i32>, f: int, n: int) -> Seq<
    Seq<i32>,
>
    decreases n,
{
    if n <= 0 {
        d
    } else {
        capped_all(d, ps, cs, f, n - 1).update(
            ps[n - 1] as int,
            capped(d[ps[n - 1] as int], sum_cap(d, ps, cs, f, n - 1)),
        )
    }
}

/// The number of terms of the sum: the array and the coefficients are read
/// side by side, up to the shorter of the two.
pub open spec fn sum_terms(ps: Seq<usize>, cs: Seq<i32>) -> int {
    if ps.len() < cs.len() {
        ps.len() as int
    } else {
        cs.len() as int
    }
}

/// What the propagation of `res = sum(cs[i] * x[i])` does to the domains `d`,
/// where `res` is at position `r` and the `x[i]` at the positions `ps`: `None`
/// when it fails, otherwise the new domains and whether one of them changed.
pub open spec fn sum_outcome(d: Seq<Seq<i32>>, r: int, ps: Seq<usize>, cs: Seq<i32>) -> Option<
    (Seq<Seq<i32>>, bool),
> {
    let n = sum_terms(ps, cs);
    let lo = lin_sum(d, ps, cs, n, false);
    let hi = lin_sum(d, ps, cs, n, true);
    let r0 = d[r];
    if ps.contains(r as usize) || r0[0] > hi {
        None
    } else {
        let r1 = capped(r0, hi);
        if r1.last() < lo {
            None
        } else {
            let r2 = floored(r1, lo);
            let f = r2.last() - lo;
            if exists|i: int| 0 <= i < n && #[trigger] d[ps[i] as int][0] > sum_cap(d, ps, cs, f, i) {
                None
            } else {
                Some(
                    (
                        capped_all(d.update(r, r2), ps, cs, f, n),
                        r1.len() != r0.len() || r2.len() != r1.len() || exists|i: int|
                            0 <= i < n && #[trigger] capped(d[ps[i] as int], sum_cap(d, ps, cs, f, i)).len()
                                != d[ps[i] as int].len(),
                    ),
                )
            }
        }
    }
}

/// The domains that a successful propagation of a sum leaves, or `d` when it
/// fails.
pub open spec fn sum_domains(d: Seq<Seq<i32>>, r: int, ps: Seq<usize>, cs: Seq<i32>) -> Seq<Seq<i32>> {
    match sum_outcome(d, r, ps, cs) {
        Some((e, _)) => e,
        None => d,
    }
}

/// When the propagation of a sum succeeds, the result keeps only values
/// between the smallest and the largest value that the sum can take, and
/// only values it had.
pub proof fn lemma_sum_outcome_bounds(d: Seq<Seq<i32>>, r: int, ps: Seq<usize>, cs: Seq<i32>)
    requires
        0 <= r < d.len(),
        sorted(d[r]),
        forall|i: int| 0 <= i < ps.len() ==> #[trigger] ps[i] < d.len(),
        forall|i: int, j: int| 0 <= i < j < ps.len() ==> ps[i] != ps[j],
        sum_outcome(d, r, ps, cs) is Some,
    ensures
        forall|v: i32|
            #[trigger] sum_domains(d, r, ps, cs)[r].contains(v) ==> d[r].contains(v) && lin_sum(
                d,
                ps,
                cs,
                sum_terms(ps, cs),
                false,
            ) <= v <= lin_sum(d, ps, cs, sum_terms(ps, cs), true),
{
    let n = sum_terms(ps, cs);
    let lo = lin_sum(d, ps, cs, n, false);
    let hi = lin_sum(d, ps, cs, n, true);
    let r0 = d[r];
    let r1 = capped(r0, hi);
    let r2 = floored(r1, lo);
    let f = r2.last() - lo;
    lemma_filter_sorted(r0, |v: i32| v <= hi);
    lemma_filter_sorted(r1, |v: i32| v >= lo);
    let e = d.update(r, r2);
    lemma_capped_all(e, ps, cs, f, n);
    assert forall|i: int| 0 <= i < n implies ps[i] != r by {
        if ps[i] == r {
            assert(ps.contains(r as usize));
        }
    }
    assert(capped_all(e, ps, cs, f, n)[r] == e[r]);
    assert(sum_domains(d, r, ps, cs) == capped_all(e, ps, cs, f, n));
}

/// Caps the domain by `b`. Fails, leaving the domain as it was, when every
/// value is above `b`.
fn cap_wide(var: &mut IntVarValues, b: i128) -> (r: Result<VariableState, VariableError>)
    requires
        old(var).wf(),
        old(var)@.len() > 0,
    ensures
        final(var).wf(),
        final(var).spec_id() == old(var).spec_id(),
        r is Err <==> old(var)@[0] > b,
        r is Err ==> r == Err::<VariableState, VariableError>(VariableError::DomainWipeout)
            && final(var)@ == old(var)@,
        r is Ok ==> final(var)@ == capped(old(var)@, b as int) && final(var)@.len() > 0 && (r
            == Ok::<VariableState, VariableError>(VariableState::NoChange) <==> final(var)@.len()
            == old(var)@.len()),
{
    let ghost s = var@;
    proof {
        lemma_sorted_bounds(s);
        lemma_filter_sorted(s, |v: i32| v <= b);
    }
    if b < i32::MIN as i128 {
        return Err(VariableError::DomainWipeout);
    }
    let ub: i32 = if b > i32::MAX as i128 {
        i32::MAX
    } else {
        b as i32
    };
    let r = var.weak_upperbound(ub);
    proof {
        lemma_filter_sorted(s, |v: i32| v <= ub);
        if r is Ok {
            assert forall|v: i32| var@.contains(v) <==> capped(s, b as int).contains(v) by {
            }
            lemma_sorted_ext(var@, capped(s, b as int));
        }
    }
    r
}

/// Raises the domain to `b`. Fails, leaving the domain as it was, when every
/// value is below `b`.
fn floor_wide(var: &mut IntVarValues, b: i128) -> (r: Result<VariableState, VariableError>)
    requires
        old(var).wf(),
        old(var)@.len() > 0,
    ensures
        final(var).wf(),
        final(var).spec_id() == old(var).spec_id(),
        r is Err <==> old(var)@.last() < b,
        r is Err ==> r == Err::<VariableState, VariableError>(VariableError::DomainWipeout)
            && final(var)@ == old(var)@,
        r is Ok ==> final(var)@ == floored(old(var)@, b as int) && final(var)@.len() > 0
            && final(var)@.last() == old(var)@.last() && (r == Ok::<VariableState, VariableError>(
            VariableState::NoChange,
        ) <==> final(var)@.len() == old(var)@.len()),
{
    let ghost s = var@;
    proof {
        lemma_sorted_bounds(s);
        lemma_filter_sorted(s, |v: i32| v >= b);
    }
    if b > i32::MAX as i128 {
        return Err(VariableError::DomainWipeout);
    }
    let lb: i32 = if b < i32::MIN as i128 {
        i32::MIN
    } else {
        b as i32
    };
    let r = var.weak_lowerbound(lb);
    proof {
        lemma_filter_sorted(s, |v: i32| v >= lb);
        if r is Ok {
            assert forall|v: i32| var@.contains(v) <==> floored(s, b as int).contains(v) by {
            }
            lemma_sorted_ext(var@, floored(s, b as int));
        }
    }
    r
}

/// The largest magnitude that a product of two `i32` values can reach.
pub open spec fn term_bound() -> int {
    0x4000_0000_0000_0000
}

/// Bounds the product of two `i32` values.
proof fn lemma_term_bound(c: i32, v: i32)
    ensures
        -term_bound() <= c * v <= term_bound(),
{
    assert(-0x4000_0000_0000_0000 <= (c as int) * (v as int) <= 0x4000_0000_0000_0000)
        by (nonlinear_arith)
        requires
            -0x8000_0000 <= c <= 0x7fff_ffff,
            -0x8000_0000 <= v <= 0x7fff_ffff,
    ;
}

/// The smallest and largest values that the sum of the first `n` terms can
/// take on the domains of `h`.
fn linear_bounds(h: &VariableHandler, x: usize, coefs: &Vec<i32>, n: usize) -> (r: (i128, i128))
    requires
        h.wf(),
        all_nonempty(h.vars()),
        x < h.arrays().len(),
        n <= h.arrays()[x as int].len(),
        n <= coefs@.len(),
    ensures
        r.0 == lin_sum(doms_of(h.vars()), h.arrays()[x as int], coefs@, n as int, false),
        r.1 == lin_sum(doms_of(h.vars()), h.arrays()[x as int], coefs@, n as int, true),
        -(n as int) * term_bound() <= r.0 <= (n as int) * term_bound(),
        -(n as int) * term_bound() <= r.1 <= (n as int) * term_bound(),
{
    let ghost d = doms_of(h.vars());
    let ghost ps = h.arrays()[x as int];
    let mut lo: i128 = 0;
    let mut hi: i128 = 0;
    let mut k: usize = 0;
    while k < n
        invariant
            h.wf(),
            all_nonempty(h.vars()),
            x < h.arrays().len(),
            ps == h.arrays()[x as int],
            d == doms_of(h.vars()),
            n <= ps.len(),
            n <= coefs@.len(),
            k <= n,
            lo == lin_sum(d, ps, coefs@, k as int, false),
            hi == lin_sum(d, ps, coefs@, k as int, true),
            -(k as int) * term_bound() <= lo <= (k as int) * term_bound(),
            -(k as int) * term_bound() <= hi <= (k as int) * term_bound(),
        decreases n - k,
    {
        let p = h.array_index(x, k);
        let var = h.var_at(p);
        let c = coefs[k];
        let mn = var.unchecked_min();
        let mx = var.unchecked_max();
        proof {
            assert(d[p as int] == var@);
            lemma_term_bound(c, mn);
            lemma_term_bound(c, mx);
            assert((k as int) * term_bound() <= 0x1_0000_0000_0000_0000 * term_bound());
        }
        lo = lo + (c as i128) * (mn as i128);
        hi = hi + (c as i128) * (mx as i128);
        k = k + 1;
    }
    (lo, hi)
}

/// The quotient of `a` by `b`, rounded toward zero.
fn div_toward_zero(a: i128, b: i32) -> (r: i128)
    requires
        a >= 0,
        b != 0,
    ensures
        r == trunc_div(a as int, b as int),
        -a <= r <= a,
{
    if b > 0 {
        proof {
            assert((a as int) / (b as int) <= a) by (nonlinear_arith)
                requires
                    a >= 0,
                    b > 0,
            ;
            assert((a as int) / (b as int) >= 0) by (nonlinear_arith)
                requires
                    a >= 0,
                    b > 0,
            ;
        }
        a / (b as i128)
    } else {
        let nb: i128 = -(b as i128);
        proof {
            assert((a as int) / (nb as int) <= a) by (nonlinear_arith)
                requires
                    a >= 0,
                    nb > 0,
            ;
            assert((a as int) / (nb as int) >= 0) by (nonlinear_arith)
                requires
                    a >= 0,
                    nb > 0,
            ;
        }
        -(a / nb)
    }
}

/// The constraint `res = sum(coefs[i] * array[i])`. Its propagation bounds
/// `res` by the smallest and largest values of the sum, then caps each term
/// by the slack that `res` leaves.
#[derive(Debug, Clone)]
pub struct SumConstraint {
    res: VarView,
    array: ArrayOfVarsView,
    coefs: Vec<i32>,
    input: Option<Vec<VariableId>>,
    output: Option<Vec<(VariableId, VariableState)>>,
}

impl SumConstraint {
    /// What a propagation does: the constraint before it (`self`) and after
    /// it (`after`), the variables before (`h0`) and after (`h1`), and the
    /// report `r`.
    pub open spec fn propagation(
        &self,
        h0: VariableHandler,
        after: SumConstraint,
        h1: VariableHandler,
        r: Result<PropagationState, VariableError>,
    ) -> bool {
        &&& after.spec_res() == self.spec_res()
        &&& after.spec_array() == self.spec_array()
        &&& after.spec_coefs() == self.spec_coefs()
        &&& after.pending().len() == 0
        &&& (self.outcome(h0) is None <==> r is Err)
        &&& r is Err ==> r == Err::<PropagationState, VariableError>(VariableError::DomainWipeout)
        &&& self.outcome(h0) matches Some((d, change)) ==> doms_of(h1.vars()) == d && r == Ok::<
            PropagationState,
            VariableError,
        >(
            if change {
                PropagationState::FixPoint
            } else {
                PropagationState::NoChange
            },
        )
    }

    /// The constraint `res = sum(coefs[i] * array[i])`.
    pub fn new(res: VarView, array: ArrayOfVarsView, coefs: Vec<i32>) -> (r: SumConstraint)
        ensures
            r.spec_res() == res,
            r.spec_array() == array,
            r.spec_coefs() == coefs@,
            r.pending().len() == 0,
    {
        SumConstraint { res: res, array: array, coefs: coefs, input: None, output: None }
    }

    pub closed spec fn spec_res(&self) -> VarView {
        self.res
    }

    pub closed spec fn spec_array(&self) -> ArrayOfVarsView {
        self.array
    }

    pub closed spec fn spec_coefs(&self) -> Seq<i32> {
        self.coefs@
    }

    /// The variables given by the last call of `prepare`, if any.
    pub closed spec fn spec_input(&self) -> Option<Seq<VariableId>> {
        match self.input {
            Some(v) => Some(v@),
            None => None,
        }
    }

    /// What `prepare` with the changed variables `states` makes of the
    /// constraint (`after`): it keeps them as its input, and nothing else
    /// changes.
    pub open spec fn prepared(&self, states: Seq<VariableId>, after: SumConstraint) -> bool {
        &&& after.spec_input() == Some(states)
        &&& after.spec_res() == self.spec_res()
        &&& after.spec_array() == self.spec_array()
        &&& after.spec_coefs() == self.spec_coefs()
        &&& after.pending() == self.pending()
    }

    /// What a propagation does to the domains of `h`.
    pub open spec fn outcome(&self, h: VariableHandler) -> Option<(Seq<Seq<i32>>, bool)> {
        sum_outcome(
            doms_of(h.vars()),
            h.spec_index(self.spec_res().place()),
            h.arrays()[self.spec_array().spec_idx() as int],
            self.spec_coefs(),
        )
    }
}

impl Constraint for SumConstraint {
    open spec fn ready(&self, h: VariableHandler) -> bool {
        &&& h.valid(self.spec_res().place())
        &&& self.spec_array().spec_idx() < h.arrays().len()
        &&& forall|i: int|
            0 <= i < sum_terms(h.arrays()[self.spec_array().spec_idx() as int], self.spec_coefs())
                ==> #[trigger] self.spec_coefs()[i] != 0
    }

    proof fn lemma_ready_shrinks(&self, h0: VariableHandler, h1: VariableHandler) {
    }

    closed spec fn pending(&self) -> Seq<(VariableId, VariableState)> {
        output_view(self.output)
    }

    fn propagate(&mut self, variables_handler: &mut VariableHandler) -> (r: Result<
        PropagationState,
        VariableError,
    >)
        ensures
            old(self).propagation(*old(variables_handler), *final(self), *final(variables_handler), r),
    {
        let ghost h0 = *variables_handler;
        self.input = None;
        self.output = None;
        let r = variables_handler.index(self.res.get_idx());
        let x = self.array.get_idx();
        let len = variables_handler.array_len(x);
        let n = if len < self.coefs.len() {
            len
        } else {
            self.coefs.len()
        };
        let ghost d = doms_of(h0.vars());
        let ghost ps = h0.arrays()[x as int];
        let ghost cs = self.coefs@;
        let mut k: usize = 0;
        while k < len
            invariant
                *variables_handler == h0,
                h0 == *old(variables_handler),
                self.res == old(self).res,
                self.array == old(self).array,
                self.coefs@ == old(self).coefs@,
                self.output is None,
                h0.wf(),
                x < h0.arrays().len(),
                x == old(self).spec_array().spec_idx(),
                r == h0.spec_index(old(self).spec_res().place()),
                cs == old(self).coefs@,
                ps == h0.arrays()[x as int],
                len == ps.len(),
                k <= len,
                forall|l: int| 0 <= l < k ==> ps[l] != r,
            decreases len - k,
        {
            if variables_handler.array_index(x, k) == r {
                proof {
                    assert(ps[k as int] == r);
                    assert(ps.contains(r));
                    assert(shrinks(h0.vars(), variables_handler.vars()));
                }
                return Err(VariableError::DomainWipeout);
            }
            k = k + 1;
        }
        proof {
            assert(!ps.contains(r));
        }
        let (lo, hi) = linear_bounds(variables_handler, x, &self.coefs, n);
        proof {
            assert(n as int == sum_terms(ps, cs));
            assert(d[r as int] == h0.vars()[r as int]@);
            lemma_sorted_bounds(d[r as int]);
        }
        let mut rv = variables_handler.take(r);
        let s1 = match cap_wide(&mut rv, hi) {
            Ok(s) => s,
            Err(e) => {
                variables_handler.put(r, rv);
                proof {
                    assert(variables_handler.vars() =~= h0.vars().update(r as int, variables_handler.vars()[r as int]));
                    assert(shrinks(h0.vars(), variables_handler.vars()));
                }
                return Err(e);
            },
        };
        let ghost r1 = rv@;
        let s2 = match floor_wide(&mut rv, lo) {
            Ok(s) => s,
            Err(e) => {
                variables_handler.put(r, rv);
                proof {
                    lemma_filter_sorted(d[r as int], |v: i32| v <= hi);
                    assert(variables_handler.vars() =~= h0.vars().update(r as int, variables_handler.vars()[r as int]));
                    assert(shrinks(h0.vars(), variables_handler.vars()));
                }
                return Err(e);
            },
        };
        let ghost r2 = rv@;
        proof {
            lemma_filter_sorted(d[r as int], |v: i32| v <= hi);
            lemma_filter_sorted(r1, |v: i32| v >= lo);
            lemma_sorted_bounds(r2);
            assert(r2.last() >= lo);
            assert(r2.last() <= 0x7fff_ffff);
            assert((n as int) * term_bound() <= 0x1_0000_0000_0000_0000 * term_bound());
        }
        let f: i128 = rv.unchecked_max() as i128 - lo;
        let mut change = s1 != VariableState::NoChange || s2 != VariableState::NoChange;
        variables_handler.put(r, rv);
        let ghost h1 = *variables_handler;
        proof {
            assert(h1.vars() =~= h0.vars().update(r as int, h1.vars()[r as int]));
            assert(doms_of(h1.vars()) =~= d.update(r as int, r2));
            assert forall|i: int, v: i32| 0 <= i < h1.vars().len() && #[trigger] h1.vars()[i]@.contains(v)
                implies h0.vars()[i]@.contains(v) by {
                if i == r {
                    assert(r1.contains(v));
                }
            }
            assert(shrinks(h0.vars(), h1.vars()));
        }
        let mut i: usize = 0;
        while i < n
            invariant
                variables_handler.wf(),
                variables_handler.same_tables(&h0),
                h0.wf(),
                h0 == *old(variables_handler),
                shrinks(h0.vars(), variables_handler.vars()),
                all_nonempty(variables_handler.vars()),
                x < h0.arrays().len(),
                ps == h0.arrays()[x as int],
                cs == self.coefs@,
                cs == old(self).coefs@,
                self.res == old(self).res,
                self.array == old(self).array,
                self.output is None,
                r == h0.spec_index(old(self).spec_res().place()),
                r < h0.vars().len(),
                x == old(self).spec_array().spec_idx(),
                !ps.contains(r),
                n as int == sum_terms(ps, cs),
                n <= ps.len(),
                i <= n,
                f == r2.last() - lo,
                f >= 0,
                f <= 0x8000_0000 + (n as int) * term_bound(),
                (n as int) * term_bound() <= 0x1_0000_0000_0000_0000 * term_bound(),
                lo == lin_sum(d, ps, cs, n as int, false),
                hi == lin_sum(d, ps, cs, n as int, true),
                r1 == capped(d[r as int], hi as int),
                r2 == floored(r1, lo as int),
                d == doms_of(h0.vars()),
                forall|l: int| 0 <= l < n ==> #[trigger] cs[l] != 0,
                doms_of(variables_handler.vars()) == capped_all(d.update(r as int, r2), ps, cs, f as int, i as int),
                forall|l: int| 0 <= l < i ==> !(#[trigger] d[ps[l] as int][0] > sum_cap(d, ps, cs, f as int, l)),
                change == (r1.len() != d[r as int].len() || r2.len() != r1.len() || exists|l: int|
                    0 <= l < i && #[trigger] capped(d[ps[l] as int], sum_cap(d, ps, cs, f as int, l)).len()
                        != d[ps[l] as int].len()),
                forall|l: int| i <= l < n ==> #[trigger] doms_of(variables_handler.vars())[ps[l] as int] == d[ps[l] as int],
            decreases n - i,
        {
            let p = variables_handler.array_index(x, i);
            let c = self.coefs[i];
            let ghost hb = *variables_handler;
            proof {
                assert(ps[i as int] == p);
                assert(p != r);
                assert(doms_of(hb.vars())[p as int] == d[p as int]);
                assert(hb.vars()[p as int]@ == d[p as int]);
                assert(forall|l: int| i < l < n ==> #[trigger] ps[l] != ps[i as int]) by {
                    assert forall|l: int| i < l < n implies #[trigger] ps[l] != ps[i as int] by {
                        assert(h0.arrays()[x as int][l] != h0.arrays()[x as int][i as int]);
                    }
                }
            }
            let mut v = variables_handler.take(p);
            let q = div_toward_zero(f, c);
            let b = q + v.unchecked_min() as i128;
            let res = cap_wide(&mut v, b);
            variables_handler.put(p, v);
            proof {
                assert(variables_handler.vars() =~= hb.vars().update(p as int, variables_handler.vars()[p as int]));
                assert(doms_of(variables_handler.vars()) =~= doms_of(hb.vars()).update(p as int, variables_handler.vars()[p as int]@));
                lemma_filter_sorted(d[p as int], |w: i32| w <= b);
            }
            match res {
                Err(e) => {
                    proof {
                        assert(shrinks(hb.vars(), variables_handler.vars()));
                        lemma_shrinks_trans(h0.vars(), hb.vars(), variables_handler.vars());
                        assert(d[ps[i as int] as int][0] > sum_cap(d, ps, cs, f as int, i as int));
                    }
                    return Err(e);
                },
                Ok(s) => {
                    proof {
                        assert(shrinks(hb.vars(), variables_handler.vars()));
                        lemma_shrinks_trans(h0.vars(), hb.vars(), variables_handler.vars());
                        if s != VariableState::NoChange {
                            assert(capped(d[ps[i as int] as int], sum_cap(d, ps, cs, f as int, i as int)).len()
                                != d[ps[i as int] as int].len());
                        }
                    }
                    change = change || s != VariableState::NoChange;
                },
            }
            proof {
                let dd = d.update(r as int, r2);
                assert(dd[p as int] == d[p as int]);
                assert(sum_cap(dd, ps, cs, f as int, i as int) == b);
                assert(variables_handler.vars()[p as int]@ == capped(d[p as int], b as int));
                assert(capped_all(dd, ps, cs, f as int, i + 1) == capped_all(dd, ps, cs, f as int, i as int).update(
                    p as int,
                    capped(dd[p as int], sum_cap(dd, ps, cs, f as int, i as int)),
                ));
                assert(doms_of(variables_handler.vars()) =~= capped_all(dd, ps, cs, f as int, i + 1));
            }
            i = i + 1;
        }
        proof {
            assert(!(exists|l: int| 0 <= l < n && #[trigger] d[ps[l] as int][0] > sum_cap(d, ps, cs, f as int, l)));
        }
        if change {
            Ok(PropagationState::FixPoint)
        } else {
            Ok(PropagationState::NoChange)
        }
    }

    fn initialise(&mut self, variables_handler: &mut VariableHandler) -> (r: Result<
        PropagationState,
        VariableError,
    >)
        ensures
            old(self).propagation(*old(variables_handler), *final(self), *final(variables_handler), r),
    {
        self.propagate(variables_handler)
    }

    fn prepare(&mut self, states: Vec<VariableId>)
        ensures
            final(self).spec_res() == old(self).spec_res(),
            final(self).spec_array() == old(self).spec_array(),
            final(self).spec_coefs() == old(self).spec_coefs(),
            old(self).prepared(states@, *final(self)),
    {
        self.input = Some(states);
        proof {
            assert forall|h: VariableHandler| old(self).ready(h) implies #[trigger] self.ready(h) by {
                assert(self.spec_coefs() == old(self).spec_coefs());
            }
        }
    }

    fn result(&mut self) -> (r: Vec<(VariableId, VariableState)>)
        ensures
            final(self).spec_res() == old(self).spec_res(),
            final(self).spec_array() == old(self).spec_array(),
            final(self).spec_coefs() == old(self).spec_coefs(),
    {
        let mut res = None;
        std::mem::swap(&mut self.output, &mut res);
        proof {
            assert forall|h: VariableHandler| old(self).ready(h) implies #[trigger] self.ready(h) by {
                assert(self.spec_coefs() == old(self).spec_coefs());
            }
        }
        match res {
            None => Vec::new(),
            Some(changes) => changes,
        }
    }

    fn box_clone(&self) -> (r: Self)
        ensures
            r.spec_res() == self.spec_res(), r.spec_array() == self.spec_array(), r.spec_coefs() == self.spec_coefs(),
    {
        let r = SumConstraint {
            res: self.res,
            array: self.array,
            coefs: copy_vec(&self.coefs),
            input: copy_opt_vec(&self.input),
            output: copy_opt_vec(&self.output),
        };
        proof {
            assert forall|h: VariableHandler| self.ready(h) implies #[trigger] r.ready(h) by {
                assert(r.spec_coefs() == self.spec_coefs());
            }
        }
        r
    }

    fn dependencies(&self, variables_handler: &VariableHandler) -> (r: Vec<(VariableId, VariableState)>)
        ensures
            r@.len() == variables_handler.arrays()[self.spec_array().spec_idx() as int].len() + 1,
            forall|k: int|
                0 <= k < r@.len() - 1 ==> #[trigger] r@[k] == (
                    VariableId(variables_handler.arrays()[self.spec_array().spec_idx() as int][k]),
                    VariableState::MaxBoundChange,
                ),
            r@.last() == (
                VariableId(variables_handler.spec_index(self.spec_res().place()) as usize),
                VariableState::MaxBoundChange,
            ),
    {
        let x = self.array.get_idx();
        let len = variables_handler.array_len(x);
        let mut deps: Vec<(VariableId, VariableState)> = Vec::new();
        let mut k: usize = 0;
        while k < len
            invariant
                variables_handler.wf(),
                x == self.spec_array().spec_idx(),
                x < variables_handler.arrays().len(),
                len == variables_handler.arrays()[x as int].len(),
                k <= len,
                deps@.len() == k,
                forall|l: int|
                    0 <= l < k ==> #[trigger] deps@[l] == (
                        VariableId(variables_handler.arrays()[x as int][l]),
                        VariableState::MaxBoundChange,
                    ),
            decreases len - k,
        {
            let p = variables_handler.array_index(x, k);
            deps.push((VariableId(p), VariableState::MaxBoundChange));
            k = k + 1;
        }
        let r = variables_handler.get(&self.res).id();
        deps.push((r, VariableState::MaxBoundChange));
        deps
    }
}

/// The sum of `cs[i]` times `a[ps[i]]`, for `i < n`.
pub open spec fn assigned_sum(a: Seq<i32>, ps: Seq<usize>, cs: Seq<i32>, n: int) -> int
    decreases n,
{
    if n <= 0 {
        0
    } else {
        assigned_sum(a, ps, cs, n - 1) + cs[n - 1] * a[ps[n - 1] as int]
    }
}

/// With positive coefficients, a sum of values taken from the domains lies
/// between the sums of the minima and of the maxima, and exceeds the sum of
/// the minima by at least each of its terms' own excess.
proof fn lemma_sum_bounds(d: Seq<Seq<i32>>, ps: Seq<usize>, cs: Seq<i32>, a: Seq<i32>, n: int)
    requires
        0 <= n <= ps.len(),
        n <= cs.len(),
        forall|i: int| 0 <= i < n ==> #[trigger] cs[i] > 0,
        forall|i: int|
            0 <= i < n ==> #[trigger] ps[i] < d.len() && ps[i] < a.len() && sorted(d[ps[i] as int])
                && d[ps[i] as int].contains(a[ps[i] as int]),
    ensures
        lin_sum(d, ps, cs, n, false) <= assigned_sum(a, ps, cs, n) <= lin_sum(d, ps, cs, n, true),
        forall|i: int|
            0 <= i < n ==> #[trigger] cs[i] * (a[ps[i] as int] - d[ps[i] as int][0]) <= assigned_sum(
                a,
                ps,
                cs,
                n,
            ) - lin_sum(d, ps, cs, n, false),
    decreases n,
{
    if n > 0 {
        lemma_sum_bounds(d, ps, cs, a, n - 1);
        let p = ps[n - 1] as int;
        assert(ps[n - 1] < d.len());
        lemma_sorted_bounds(d[p]);
        let c = cs[n - 1] as int;
        let m = d[p][0] as int;
        let x = a[p] as int;
        let big = d[p].last() as int;
        assert(c * m <= c * x && c * x <= c * big) by (nonlinear_arith)
            requires
                c > 0,
                m <= x,
                x <= big,
        ;
        assert(c * (x - m) == c * x - c * m) by (nonlinear_arith);
        assert(c * (x - m) >= 0) by (nonlinear_arith)
            requires
                c > 0,
                m <= x,
        ;
    }
}

/// The domains that `capped_all` leaves: each of the first `n` terms capped
/// by its own bound, the other domains as they were.
proof fn lemma_capped_all(e: Seq<Seq<i32>>, ps: Seq<usize>, cs: Seq<i32>, f: int, n: int)
    requires
        0 <= n <= ps.len(),
        forall|i: int| 0 <= i < n ==> #[trigger] ps[i] < e.len(),
        forall|i: int, j: int| 0 <= i < j < ps.len() ==> ps[i] != ps[j],
    ensures
        capped_all(e, ps, cs, f, n).len() == e.len(),
        forall|i: int|
            0 <= i < n ==> capped_all(e, ps, cs, f, n)[#[trigger] ps[i] as int] == capped(
                e[ps[i] as int],
                sum_cap(e, ps, cs, f, i),
            ),
        forall|p: int|
            0 <= p < e.len() && (forall|i: int| 0 <= i < n ==> ps[i] != p) ==> #[trigger] capped_all(
                e,
                ps,
                cs,
                f,
                n,
            )[p] == e[p],
    decreases n,
{
    if n > 0 {
        lemma_capped_all(e, ps, cs, f, n - 1);
        assert(ps[n - 1] < e.len());
    }
}

/// Propagating `res = sum(cs[i] * x[i])` removes no solution when every
/// coefficient is positive and `res` is not a term: an assignment `a` of
/// values from the domains with `a[r]` equal to the sum makes the propagation
/// succeed, and stays within the domains it leaves.
pub proof fn lemma_sum_keeps_solutions(d: Seq<Seq<i32>>, r: int, ps: Seq<usize>, cs: Seq<i32>, a: Seq<i32>)
    requires
        a.len() == d.len(),
        0 <= r < d.len(),
        forall|p: int| 0 <= p < d.len() ==> sorted(#[trigger] d[p]) && d[p].contains(a[p]),
        forall|i: int| 0 <= i < ps.len() ==> #[trigger] ps[i] < d.len(),
        forall|i: int, j: int| 0 <= i < j < ps.len() ==> ps[i] != ps[j],
        !ps.contains(r as usize),
        forall|i: int| 0 <= i < sum_terms(ps, cs) ==> #[trigger] cs[i] > 0,
        a[r] == assigned_sum(a, ps, cs, sum_terms(ps, cs)),
    ensures
        sum_outcome(d, r, ps, cs) matches Some((d1, _)) && d1.len() == d.len() && forall|p: int|
            0 <= p < d1.len() ==> (#[trigger] d1[p]).contains(a[p]),
{
    let n = sum_terms(ps, cs);
    let lo = lin_sum(d, ps, cs, n, false);
    let hi = lin_sum(d, ps, cs, n, true);
    assert forall|i: int|
        0 <= i < n implies #[trigger] ps[i] < d.len() && ps[i] < a.len() && sorted(d[ps[i] as int])
            && d[ps[i] as int].contains(a[ps[i] as int]) by {
        assert(ps[i] < d.len());
    }
    lemma_sum_bounds(d, ps, cs, a, n);
    let r0 = d[r];
    lemma_sorted_bounds(r0);
    let r1 = capped(r0, hi);
    lemma_filter_sorted(r0, |v: i32| v <= hi);
    assert(r1.contains(a[r]));
    lemma_sorted_bounds(r1);
    let r2 = floored(r1, lo);
    lemma_filter_sorted(r1, |v: i32| v >= lo);
    assert(r2.contains(a[r]));
    lemma_sorted_bounds(r2);
    let f = r2.last() - lo;
    assert forall|i: int| 0 <= i < n implies !(#[trigger] d[ps[i] as int][0] > sum_cap(d, ps, cs, f, i)) by {
        let p = ps[i] as int;
        assert(ps[i] < d.len());
        lemma_sorted_bounds(d[p]);
        let c = cs[i] as int;
        let x = a[p] - d[p][0];
        assert(c * x <= f);
        vstd::arithmetic::div_mod::lemma_div_is_ordered(c * x, f, c);
        vstd::arithmetic::div_mod::lemma_div_multiples_vanish(x, c);
    }
    let e = d.update(r, r2);
    assert forall|i: int| 0 <= i < n implies #[trigger] ps[i] < e.len() by {
        assert(ps[i] < d.len());
    }
    lemma_capped_all(e, ps, cs, f, n);
    let d1 = capped_all(e, ps, cs, f, n);
    assert forall|p: int| 0 <= p < d1.len() implies (#[trigger] d1[p]).contains(a[p]) by {
        if exists|i: int| 0 <= i < n && ps[i] == p {
            let i = choose|i: int| 0 <= i < n && ps[i] == p;
            assert(ps[i] as int != r) by {
                if ps[i] as int == r {
                    assert(ps.contains(r as usize));
                }
            }
            assert(e[p] == d[p]);
            assert(sum_cap(e, ps, cs, f, i) == sum_cap(d, ps, cs, f, i));
            assert(!(d[ps[i] as int][0] > sum_cap(d, ps, cs, f, i)));
            assert(d1[ps[i] as int] == capped(e[ps[i] as int], sum_cap(e, ps, cs, f, i)));
            let c = cs[i] as int;
            let x = a[p] - d[p][0];
            lemma_sorted_bounds(d[p]);
            vstd::arithmetic::div_mod::lemma_div_is_ordered(c * x, f, c);
            vstd::arithmetic::div_mod::lemma_div_multiples_vanish(x, c);
            lemma_filter_sorted(e[p], |v: i32| v <= sum_cap(e, ps, cs, f, i));
        } else {
            assert(d1[p] == e[p]);
        }
    }
}

/// Propagating a sum constraint removes no solution when its coefficients are
/// positive and its result is not one of its terms: an assignment `a` of
/// values from the domains of all variables, in which the result equals the
/// sum, makes the propagation succeed and stays within the domains it leaves.
pub proof fn lemma_sum_constraint_keeps_solutions(c: SumConstraint, h: VariableHandler, a: Seq<i32>)
    requires
        h.wf(),
        c.ready(h),
        a.len() == h.vars().len(),
        forall|p: int| 0 <= p < a.len() ==> (#[trigger] h.vars()[p])@.contains(a[p]),
        ({
            let ps = h.arrays()[c.spec_array().spec_idx() as int];
            let n = sum_terms(ps, c.spec_coefs());
            &&& !ps.contains(h.spec_index(c.spec_res().place()) as usize)
            &&& forall|i: int| 0 <= i < n ==> #[trigger] c.spec_coefs()[i] > 0
            &&& a[h.spec_index(c.spec_res().place())] == assigned_sum(a, ps, c.spec_coefs(), n)
        }),
    ensures
        c.outcome(h) matches Some((d, _)) && forall|p: int| 0 <= p < d.len() ==> (#[trigger] d[p]).contains(a[p]),
{
    let ps = h.arrays()[c.spec_array().spec_idx() as int];
    let d = doms_of(h.vars());
    let r = h.spec_index(c.spec_res().place());
    assert forall|p: int| 0 <= p < d.len() implies sorted(#[trigger] d[p]) && d[p].contains(a[p]) by {
        assert(h.vars()[p].wf());
    }
    assert forall|i: int| 0 <= i < ps.len() implies #[trigger] ps[i] < d.len() by {
    }
    lemma_sum_keeps_solutions(d, r, ps, c.spec_coefs(), a);
}

} // verus!
