use vstd::prelude::*;

use super::sorted::{
    above, at_least, at_most, below, inter, without, differs, occurs_in, lemma_sorted_ext, lemma_filter_sorted, lemma_is_filter, lemma_sorted_bounds, lemma_subrange_sorted,
    sorted,
};
use super::domains::BoundedDomain;
use super::{VariableError, VariableId, VariableState};

verus! {

/// The state that a domain update reports, given the domain before and after:
/// no change when the size is kept; a change of both bounds, of the minimum
/// only or of the maximum only when they moved so; a values change otherwise.
pub open spec fn change_state(old: Seq<i32>, new: Seq<i32>) -> VariableState {
    if new.len() == old.len() {
        VariableState::NoChange
    } else if new[0] != old[0] && new.last() != old.last() {
        VariableState::BoundsChange
    } else if new[0] != old[0] {
        VariableState::MinBoundChange
    } else if new.last() != old.last() {
        VariableState::MaxBoundChange
    } else {
        VariableState::ValuesChange
    }
}

/// What removing `x` from the domain `s` reports, and the domain it leaves.
pub open spec fn removal(s: Seq<i32>, x: i32) -> (Result<VariableState, VariableError>, Seq<i32>) {
    if !s.contains(x) {
        (Ok(VariableState::NoChange), s)
    } else if s.len() == 1 {
        (Err(VariableError::DomainWipeout), Seq::<i32>::empty())
    } else {
        (Ok(change_state(s, without(s, x))), without(s, x))
    }
}

/// What assigning `x` to the non-empty domain `s` reports, and the domain it
/// leaves.
pub open spec fn assignment(s: Seq<i32>, x: i32) -> (Result<VariableState, VariableError>, Seq<i32>) {
    if s.contains(x) {
        (
            Ok(
                if s.len() == 1 {
                    VariableState::NoChange
                } else if x == s[0] {
                    VariableState::MaxBoundChange
                } else if x == s.last() {
                    VariableState::MinBoundChange
                } else {
                    VariableState::BoundsChange
                },
            ),
            seq![x],
        )
    } else if x < s[0] || x > s.last() {
        (Err(VariableError::DomainWipeout), s)
    } else {
        (Err(VariableError::DomainWipeout), Seq::<i32>::empty())
    }
}

/// What restricting the domain `s` to the values of `t` reports, and the
/// domain it leaves.
pub open spec fn restriction(s: Seq<i32>, t: Seq<i32>) -> (Result<VariableState, VariableError>, Seq<i32>) {
    if inter(s, t).len() == 0 {
        (Err(VariableError::DomainWipeout), Seq::<i32>::empty())
    } else {
        (Ok(change_state(s, inter(s, t))), inter(s, t))
    }
}

/// One round of bounds alignment between the domains `s` and `v`: first
/// `s <= v`, then `s >= v`. `None` when a step fails; otherwise the new domains
/// and whether the first step left `s`, and the second left `v`, unchanged.
pub open spec fn bounds_round(s: Seq<i32>, v: Seq<i32>) -> Option<(Seq<i32>, Seq<i32>, bool)> {
    if s[0] > v.last() {
        None
    } else {
        let s1 = at_most(s, v.last());
        let v1 = at_least(v, s[0]);
        if s1.last() < v1[0] {
            None
        } else {
            let s2 = at_least(s1, v1[0]);
            let v2 = at_most(v1, s1.last());
            Some((s2, v2, s1.len() == s.len() && v2.len() == v1.len()))
        }
    }
}

/// Rounds of bounds alignment repeated until a round changes neither the
/// first domain in its first step nor the second in its second step.
pub open spec fn bounds_fixpoint(s: Seq<i32>, v: Seq<i32>) -> Option<(Seq<i32>, Seq<i32>)>
    decreases s.len() + v.len(),
{
    match bounds_round(s, v) {
        None => None,
        Some((s2, v2, stable)) => {
            if stable {
                Some((s2, v2))
            } else {
                proof {
                    let s1 = at_most(s, v.last());
                    let v1 = at_least(v, s[0]);
                    s.lemma_filter_len(|x: i32| x <= v.last());
                    v.lemma_filter_len(|x: i32| x >= s[0]);
                    s1.lemma_filter_len(|x: i32| x >= v1[0]);
                    v1.lemma_filter_len(|x: i32| x <= s1.last());
                }
                bounds_fixpoint(s2, v2)
            }
        },
    }
}

/// The sequence `lo, lo + 1, ..., hi`.
pub open spec fn is_range(s: Seq<i32>, lo: i32, hi: i32) -> bool {
    &&& s.len() == hi - lo + 1
    &&& forall|i: int| 0 <= i < s.len() ==> #[trigger] s[i] == lo + i
}

/// Builds the vector `min, min + 1, ..., max`.
fn range_vec(min: i32, max: i32) -> (v: Vec<i32>)
    requires
        min <= max < i32::MAX,
    ensures
        is_range(v@, min, max),
        sorted(v@),
{
    let mut v: Vec<i32> = Vec::new();
    let mut i: i32 = min;
    while i <= max
        invariant
            min <= i <= max + 1,
            max < i32::MAX,
            v@.len() == i - min,
            forall|k: int| 0 <= k < v@.len() ==> #[trigger] v@[k] == min + k,
        decreases max + 1 - i,
    {
        v.push(i);
        i = i + 1;
    }
    v
}

/// Index of the first element that is not below `x`.
fn first_ge(v: &Vec<i32>, x: i32) -> (k: usize)
    requires
        sorted(v@),
    ensures
        k <= v@.len(),
        forall|i: int| 0 <= i < k ==> #[trigger] v@[i] < x,
        forall|i: int| k <= i < v@.len() ==> #[trigger] v@[i] >= x,
{
    let mut k: usize = 0;
    while k < v.len() && v[k] < x
        invariant
            k <= v@.len(),
            sorted(v@),
            forall|i: int| 0 <= i < k ==> #[trigger] v@[i] < x,
        decreases v@.len() - k,
    {
        k = k + 1;
    }
    proof {
        if k < v@.len() {
            assert forall|i: int| k <= i < v@.len() implies #[trigger] v@[i] >= x by {
                if i > k {
                    assert(v@[k as int] < v@[i]);
                }
            }
        }
    }
    k
}

/// Index of the first element above `x`.
fn first_gt(v: &Vec<i32>, x: i32) -> (k: usize)
    requires
        sorted(v@),
    ensures
        k <= v@.len(),
        forall|i: int| 0 <= i < k ==> #[trigger] v@[i] <= x,
        forall|i: int| k <= i < v@.len() ==> #[trigger] v@[i] > x,
{
    let mut k: usize = 0;
    while k < v.len() && v[k] <= x
        invariant
            k <= v@.len(),
            sorted(v@),
            forall|i: int| 0 <= i < k ==> #[trigger] v@[i] <= x,
        decreases v@.len() - k,
    {
        k = k + 1;
    }
    proof {
        if k < v@.len() {
            assert forall|i: int| k <= i < v@.len() implies #[trigger] v@[i] > x by {
                if i > k {
                    assert(v@[k as int] < v@[i]);
                }
            }
        }
    }
    k
}

/// Copies `v[lo..hi]`.
fn copy_range(v: &Vec<i32>, lo: usize, hi: usize) -> (r: Vec<i32>)
    requires
        lo <= hi <= v@.len(),
    ensures
        r@ == v@.subrange(lo as int, hi as int),
{
    let mut r: Vec<i32> = Vec::new();
    let mut i: usize = lo;
    while i < hi
        invariant
            lo <= i <= hi <= v@.len(),
            r@ == v@.subrange(lo as int, i as int),
        decreases hi - i,
    {
        r.push(v[i]);
        i = i + 1;
        proof {
            assert(r@ =~= v@.subrange(lo as int, i as int));
        }
    }
    r
}

/// Position of `x` in a sorted vector, found by binary search.
fn search(v: &Vec<i32>, x: i32) -> (r: Option<usize>)
    requires
        sorted(v@),
    ensures
        match r {
            Some(i) => i < v@.len() && v@[i as int] == x,
            None => !v@.contains(x),
        },
{
    let mut lo: usize = 0;
    let mut hi: usize = v.len();
    while lo < hi
        invariant
            lo <= hi <= v@.len(),
            sorted(v@),
            forall|i: int| 0 <= i < lo ==> #[trigger] v@[i] < x,
            forall|i: int| hi <= i < v@.len() ==> #[trigger] v@[i] > x,
        decreases hi - lo,
    {
        let mid = lo + (hi - lo) / 2;
        if v[mid] == x {
            return Some(mid);
        } else if v[mid] < x {
            proof {
                assert forall|i: int| 0 <= i < mid + 1 implies #[trigger] v@[i] < x by {
                    if i < mid {
                        assert(v@[i] < v@[mid as int]);
                    }
                }
            }
            lo = mid + 1;
        } else {
            proof {
                assert forall|i: int| mid <= i < v@.len() implies #[trigger] v@[i] > x by {
                    if i > mid {
                        assert(v@[mid as int] < v@[i]);
                    }
                }
            }
            hi = mid;
        }
    }
    proof {
        if v@.contains(x) {
            let i = choose|i: int| 0 <= i < v@.len() && v@[i] == x;
            assert(v@[i] == x);
        }
    }
    None
}

/// Whether `x` occurs in `v`.
pub(crate) fn vec_contains(v: &Vec<i32>, x: i32) -> (r: bool)
    ensures
        r == v@.contains(x),
{
    let mut i: usize = 0;
    while i < v.len()
        invariant
            i <= v@.len(),
            forall|k: int| 0 <= k < i ==> v@[k] != x,
        decreases v@.len() - i,
    {
        if v[i] == x {
            proof {
                assert(v@[i as int] == x);
            }
            return true;
        }
        i = i + 1;
    }
    false
}

/// The values of the sorted vector `a` that occur in `b`, in increasing order.
fn intersect(a: &Vec<i32>, b: &Vec<i32>) -> (r: Vec<i32>)
    requires
        sorted(a@),
    ensures
        r@ == inter(a@, b@),
        sorted(r@),
{
    let mut r: Vec<i32> = Vec::new();
    let mut i: usize = 0;
    proof {
        assert(a@.subrange(0, 0).filter(occurs_in(b@)) =~= Seq::<i32>::empty()) by {
            reveal_with_fuel(Seq::filter, 1);
        }
    }
    while i < a.len()
        invariant
            i <= a@.len(),
            r@ == a@.subrange(0, i as int).filter(occurs_in(b@)),
        decreases a@.len() - i,
    {
        let x = a[i];
        proof {
            assert(a@.subrange(0, i + 1) =~= a@.subrange(0, i as int).push(x));
            a@.subrange(0, i as int).lemma_filter_push(x, occurs_in(b@));
        }
        if vec_contains(b, x) {
            r.push(x);
        }
        i = i + 1;
    }
    proof {
        assert(a@.subrange(0, a@.len() as int) =~= a@);
        lemma_filter_sorted(a@, occurs_in(b@));
    }
    r
}

/// The distinct values of `values`, in increasing order.
fn sorted_set(values: &Vec<i32>) -> (r: Vec<i32>)
    ensures
        sorted(r@),
        forall|x: i32| r@.contains(x) <==> values@.contains(x),
{
    let mut r: Vec<i32> = Vec::new();
    let mut i: usize = 0;
    while i < values.len()
        invariant
            i <= values@.len(),
            sorted(r@),
            forall|x: i32| r@.contains(x) <==> values@.subrange(0, i as int).contains(x),
        decreases values@.len() - i,
    {
        let x = values[i];
        let ghost old_r = r@;
        let k = first_ge(&r, x);
        if k < r.len() && r[k] == x {
        } else {
            r.insert(k, x);
            proof {
                assert forall|p: int, q: int| 0 <= p < q < r@.len() implies r@[p] < r@[q] by {
                    if q < k {
                    } else if q == k {
                        assert(r@[p] == old_r[p]);
                    } else if p < k {
                        assert(r@[q] == old_r[q - 1]);
                        assert(old_r[q - 1] >= x);
                        if old_r[q - 1] == x {
                            if q - 1 > k {
                                assert(old_r[k as int] < old_r[q - 1]);
                            }
                        }
                    } else if p == k {
                        assert(r@[q] == old_r[q - 1]);
                        assert(old_r[q - 1] >= x);
                        if q - 1 == k {
                        } else {
                            assert(old_r[k as int] < old_r[q - 1]);
                            assert(old_r[k as int] >= x);
                        }
                    } else {
                        assert(r@[p] == old_r[p - 1]);
                        assert(r@[q] == old_r[q - 1]);
                    }
                }
            }
        }
        proof {
            assert(values@.subrange(0, i + 1) =~= values@.subrange(0, i as int).push(x));
            assert forall|y: i32| r@.contains(y) <==> values@.subrange(0, i + 1).contains(y) by {
                let pre = values@.subrange(0, i as int);
                assert(pre.push(x).contains(y) <==> (pre.contains(y) || y == x)) by {
                    if pre.push(x).contains(y) {
                        let m = choose|m: int| 0 <= m < pre.push(x).len() && pre.push(x)[m] == y;
                        if m < pre.len() {
                            assert(pre[m] == y);
                        }
                    }
                    if pre.contains(y) {
                        let m = choose|m: int| 0 <= m < pre.len() && pre[m] == y;
                        assert(pre.push(x)[m] == y);
                    }
                    if y == x {
                        assert(pre.push(x)[pre.len() as int] == y);
                    }
                }
                if r@.len() == old_r.len() {
                    if y == x {
                        assert(r@[k as int] == x);
                    }
                } else {
                    assert(r@ == old_r.insert(k as int, x));
                    if r@.contains(y) {
                        let m = choose|m: int| 0 <= m < r@.len() && r@[m] == y;
                        if m < k {
                            assert(old_r[m] == y);
                        } else if m > k {
                            assert(old_r[m - 1] == y);
                        }
                    }
                    if old_r.contains(y) {
                        let m = choose|m: int| 0 <= m < old_r.len() && old_r[m] == y;
                        if m < k {
                            assert(r@[m] == y);
                        } else {
                            assert(r@[m + 1] == y);
                        }
                    }
                    if y == x {
                        assert(r@[k as int] == x);
                    }
                }
            }
        }
        i = i + 1;
    }
    proof {
        assert(values@.subrange(0, values@.len() as int) =~= values@);
    }
    r
}

/// An integer variable whose domain is held as the sorted list of its values.
#[derive(Debug)]
pub struct IntVarValues {
    domain: Vec<i32>,
    id: usize,
}

impl View for IntVarValues {
    type V = Seq<i32>;

    closed spec fn view(&self) -> Seq<i32> {
        self.domain@
    }
}

/// The builder of an `IntVarValues`: a domain waiting for its identifier.
#[derive(Debug)]
pub struct IntVarValuesBuilder {
    domain: Vec<i32>,
}

impl View for IntVarValuesBuilder {
    type V = Seq<i32>;

    closed spec fn view(&self) -> Seq<i32> {
        self.domain@
    }
}

impl IntVarValuesBuilder {
    /// A builder for the domain `min ..= max`, or `None` when `min > max`.
    pub fn new(min: i32, max: i32) -> (r: Option<IntVarValuesBuilder>)
        requires
            min <= max ==> max < i32::MAX,
        ensures
            r is None <==> min > max,
            r matches Some(b) ==> is_range(b@, min, max) && sorted(b@),
    {
        if min > max {
            None
        } else {
            Some(IntVarValuesBuilder { domain: range_vec(min, max) })
        }
    }

    /// A copy of the builder.
    pub fn duplicate(&self) -> (r: IntVarValuesBuilder)
        ensures
            r@ == self@,
    {
        let d = copy_range(&self.domain, 0, self.domain.len());
        proof {
            assert(self.domain@.subrange(0, self.domain@.len() as int) =~= self.domain@);
        }
        IntVarValuesBuilder { domain: d }
    }

    /// The variable with this domain and the identifier `id`.
    pub fn finalize(self, id: usize) -> (r: IntVarValues)
        ensures
            r@ == self@,
            r.spec_id() == id,
    {
        IntVarValues { domain: self.domain, id: id }
    }
}

impl IntVarValues {
    /// The identifier of the variable.
    pub closed spec fn spec_id(&self) -> usize {
        self.id
    }

    /// The domain is held in canonical (strictly increasing) form.
    pub open spec fn wf(&self) -> bool {
        sorted(self@)
    }

    /// The variable with domain `min ..= max` and identifier 0, or `None`
    /// when `min > max`.
    pub fn new(min: i32, max: i32) -> (r: Option<IntVarValues>)
        requires
            min <= max ==> max < i32::MAX,
        ensures
            r is None <==> min > max,
            r matches Some(x) ==> x.wf() && is_range(x@, min, max) && x.spec_id() == 0,
    {
        if min > max {
            None
        } else {
            Some(IntVarValues { domain: range_vec(min, max), id: 0 })
        }
    }

    /// Same as `new`: the domain `min ..= max`.
    pub fn new_from_range(min: i32, max: i32) -> (r: Option<IntVarValues>)
        requires
            min <= max ==> max < i32::MAX,
        ensures
            r is None <==> min > max,
            r matches Some(x) ==> x.wf() && is_range(x@, min, max) && x.spec_id() == 0,
    {
        if min > max {
            None
        } else {
            Some(IntVarValues { domain: range_vec(min, max), id: 0 })
        }
    }

    /// A variable with an empty domain and the identifier `id`.
    pub(crate) fn empty_with_id(id: usize) -> (r: IntVarValues)
        ensures
            r@ == Seq::<i32>::empty(),
            r.spec_id() == id,
    {
        IntVarValues { domain: Vec::new(), id: id }
    }

    /// A copy of the variable.
    pub fn duplicate(&self) -> (r: IntVarValues)
        ensures
            r@ == self@,
            r.spec_id() == self.spec_id(),
    {
        let d = copy_range(&self.domain, 0, self.domain.len());
        proof {
            assert(self.domain@.subrange(0, self.domain@.len() as int) =~= self.domain@);
        }
        IntVarValues { domain: d, id: self.id }
    }

    /// Empties the domain.
    fn invalidate(&mut self)
        ensures
            final(self)@ == Seq::<i32>::empty(),
            final(self).spec_id() == old(self).spec_id(),
    {
        self.domain.clear();
    }

    /// The number of values in the domain.
    pub fn size(&self) -> (r: usize)
        ensures
            r == self@.len(),
    {
        self.domain.len()
    }

    /// The values of the domain, in increasing order.
    pub fn iter(&self) -> (r: &[i32])
        ensures
            r@ == self@,
    {
        self.domain.as_slice()
    }

    /// The smallest value of the domain, or `None` when it is empty.
    pub fn min(&self) -> (r: Option<i32>)
        ensures
            r == (if self@.len() == 0 { None } else { Some(self@[0]) }),
    {
        if self.domain.len() == 0 {
            None
        } else {
            Some(self.domain[0])
        }
    }

    /// The largest value of the domain, or `None` when it is empty.
    pub fn max(&self) -> (r: Option<i32>)
        ensures
            r == (if self@.len() == 0 { None } else { Some(self@.last()) }),
    {
        if self.domain.len() == 0 {
            None
        } else {
            Some(self.domain[self.domain.len() - 1])
        }
    }

    /// The smallest value of a non-empty domain.
    pub fn unchecked_min(&self) -> (r: i32)
        requires
            self@.len() > 0,
        ensures
            r == self@[0],
    {
        self.domain[0]
    }

    /// The largest value of a non-empty domain.
    pub fn unchecked_max(&self) -> (r: i32)
        requires
            self@.len() > 0,
        ensures
            r == self@.last(),
    {
        self.domain[self.domain.len() - 1]
    }

    /// A variable is affected if and only if its domain is a singleton.
    pub fn is_affected(&self) -> (r: bool)
        ensures
            r == (self@.len() == 1),
    {
        self.domain.len() == 1
    }

    /// The value of an affected variable, `None` otherwise.
    pub fn value(&self) -> (r: Option<i32>)
        requires
            self.wf(),
        ensures
            r == (if self@.len() == 1 { Some(self@[0]) } else { None::<i32> }),
    {
        let min = self.min();
        let max = self.max();
        proof {
            if self@.len() > 1 {
                assert(self@[0] < self@[self@.len() - 1]);
            }
        }
        if min == max {
            min
        } else {
            None
        }
    }

    /// The identifier of the variable.
    pub fn id(&self) -> (r: VariableId)
        ensures
            r == VariableId(self.spec_id()),
    {
        VariableId(self.id)
    }

    /// Forces the values of the domain to be strictly lower than `ub`.
    /// Fails, leaving the domain as it was, when every value is at least `ub`.
    pub fn strict_upperbound(&mut self, ub: i32) -> (r: Result<VariableState, VariableError>)
        requires
            old(self).wf(),
            old(self)@.len() > 0,
        ensures
            final(self).wf(),
            final(self).spec_id() == old(self).spec_id(),
            r is Err <==> old(self)@[0] >= ub,
            r is Err ==> r == Err::<VariableState, VariableError>(VariableError::DomainWipeout)
                && final(self)@ == old(self)@,
            r is Ok ==> final(self)@ == below(old(self)@, ub) && final(self)@.len() > 0
                && final(self)@[0] == old(self)@[0] && r == Ok::<VariableState, VariableError>(
                change_state(old(self)@, final(self)@),
            ) && (r == Ok::<VariableState, VariableError>(VariableState::NoChange)
                <==> old(self)@.last() < ub),
    {
        let ghost old_d = self@;
        proof {
            lemma_sorted_bounds(old_d);
        }
        if self.unchecked_max() < ub {
            proof {
                lemma_is_filter(old_d, |v: i32| v < ub, old_d);
            }
            Ok(VariableState::NoChange)
        } else if self.unchecked_min() >= ub {
            Err(VariableError::DomainWipeout)
        } else {
            let index = first_ge(&self.domain, ub);
            self.domain.truncate(index);
            proof {
                lemma_subrange_sorted(old_d, 0, index as int);
                assert(self@ =~= old_d.subrange(0, index as int));
                lemma_is_filter(old_d, |v: i32| v < ub, self@);
                assert(self@.last() < ub);
            }
            Ok(VariableState::MaxBoundChange)
        }
    }

    /// Forces the values of the domain to be lower than or equal to `ub`.
    /// Fails, leaving the domain as it was, when every value is above `ub`.
    pub fn weak_upperbound(&mut self, ub: i32) -> (r: Result<VariableState, VariableError>)
        requires
            old(self).wf(),
            old(self)@.len() > 0,
        ensures
            final(self).wf(),
            final(self).spec_id() == old(self).spec_id(),
            r is Err <==> old(self)@[0] > ub,
            r is Err ==> r == Err::<VariableState, VariableError>(VariableError::DomainWipeout)
                && final(self)@ == old(self)@,
            r is Ok ==> final(self)@ == at_most(old(self)@, ub) && final(self)@.len() > 0
                && final(self)@[0] == old(self)@[0] && r == Ok::<VariableState, VariableError>(
                change_state(old(self)@, final(self)@),
            ) && (r == Ok::<VariableState, VariableError>(VariableState::NoChange)
                <==> old(self)@.last() <= ub),
    {
        let ghost old_d = self@;
        proof {
            lemma_sorted_bounds(old_d);
        }
        if self.unchecked_max() <= ub {
            proof {
                lemma_is_filter(old_d, |v: i32| v <= ub, old_d);
            }
            Ok(VariableState::NoChange)
        } else if self.unchecked_min() > ub {
            Err(VariableError::DomainWipeout)
        } else {
            let index = first_gt(&self.domain, ub);
            self.domain.truncate(index);
            proof {
                lemma_subrange_sorted(old_d, 0, index as int);
                assert(self@ =~= old_d.subrange(0, index as int));
                lemma_is_filter(old_d, |v: i32| v <= ub, self@);
                assert(self@.last() <= ub);
            }
            Ok(VariableState::MaxBoundChange)
        }
    }

    /// Forces the values of the domain to be strictly greater than `lb`.
    /// Fails, leaving the domain as it was, when every value is at most `lb`.
    pub fn strict_lowerbound(&mut self, lb: i32) -> (r: Result<VariableState, VariableError>)
        requires
            old(self).wf(),
            old(self)@.len() > 0,
        ensures
            final(self).wf(),
            final(self).spec_id() == old(self).spec_id(),
            r is Err <==> old(self)@.last() <= lb,
            r is Err ==> r == Err::<VariableState, VariableError>(VariableError::DomainWipeout)
                && final(self)@ == old(self)@,
            r is Ok ==> final(self)@ == above(old(self)@, lb) && final(self)@.len() > 0
                && final(self)@.last() == old(self)@.last() && r == Ok::<
                VariableState,
                VariableError,
            >(change_state(old(self)@, final(self)@)) && (r == Ok::<VariableState, VariableError>(
                VariableState::NoChange,
            ) <==> old(self)@[0] > lb),
    {
        let ghost old_d = self@;
        proof {
            lemma_sorted_bounds(old_d);
        }
        if self.unchecked_min() > lb {
            proof {
                lemma_is_filter(old_d, |v: i32| v > lb, old_d);
            }
            Ok(VariableState::NoChange)
        } else if self.unchecked_max() <= lb {
            Err(VariableError::DomainWipeout)
        } else {
            let index = first_gt(&self.domain, lb);
            let len = self.domain.len();
            self.domain = copy_range(&self.domain, index, len);
            proof {
                lemma_subrange_sorted(old_d, index as int, len as int);
                lemma_is_filter(old_d, |v: i32| v > lb, self@);
                assert(self@[0] > lb);
            }
            Ok(VariableState::MinBoundChange)
        }
    }

    /// Forces the values of the domain to be greater than or equal to `lb`.
    /// Fails, leaving the domain as it was, when every value is below `lb`.
    pub fn weak_lowerbound(&mut self, lb: i32) -> (r: Result<VariableState, VariableError>)
        requires
            old(self).wf(),
            old(self)@.len() > 0,
        ensures
            final(self).wf(),
            final(self).spec_id() == old(self).spec_id(),
            r is Err <==> old(self)@.last() < lb,
            r is Err ==> r == Err::<VariableState, VariableError>(VariableError::DomainWipeout)
                && final(self)@ == old(self)@,
            r is Ok ==> final(self)@ == at_least(old(self)@, lb) && final(self)@.len() > 0
                && final(self)@.last() == old(self)@.last() && r == Ok::<
                VariableState,
                VariableError,
            >(change_state(old(self)@, final(self)@)) && (r == Ok::<VariableState, VariableError>(
                VariableState::NoChange,
            ) <==> old(self)@[0] >= lb),
    {
        let ghost old_d = self@;
        proof {
            lemma_sorted_bounds(old_d);
        }
        if self.unchecked_min() >= lb {
            proof {
                lemma_is_filter(old_d, |v: i32| v >= lb, old_d);
            }
            Ok(VariableState::NoChange)
        } else if self.unchecked_max() < lb {
            Err(VariableError::DomainWipeout)
        } else {
            let index = first_ge(&self.domain, lb);
            let len = self.domain.len();
            self.domain = copy_range(&self.domain, index, len);
            proof {
                lemma_subrange_sorted(old_d, index as int, len as int);
                lemma_is_filter(old_d, |v: i32| v >= lb, self@);
                assert(self@[0] >= lb);
            }
            Ok(VariableState::MinBoundChange)
        }
    }
}

impl IntVarValues {
    /// Assigns `value` to the variable. Fails when `value` is not in the
    /// domain: the domain is emptied, unless `value` lies outside its bounds.
    pub fn set_value(&mut self, value: i32) -> (r: Result<VariableState, VariableError>)
        requires
            old(self).wf(),
            old(self)@.len() > 0,
        ensures
            final(self).wf(),
            final(self).spec_id() == old(self).spec_id(),
            (r, final(self)@) == assignment(old(self)@, value),
            r is Ok ==> r == Ok::<VariableState, VariableError>(
                change_state(old(self)@, final(self)@),
            ),
    {
        let ghost old_d = self@;
        proof {
            lemma_sorted_bounds(old_d);
        }
        if self.unchecked_min() > value || self.unchecked_max() < value {
            proof {
                assert(!old_d.contains(value));
            }
            return Err(VariableError::DomainWipeout);
        }
        let var_value = self.value();
        match var_value {
            Some(var_value) if var_value == value => {
                proof {
                    assert(old_d.contains(old_d[0]));
                    assert(self@ =~= seq![value]);
                }
                Ok(VariableState::NoChange)
            },
            _ => {
                let found_value = search(&self.domain, value);
                match found_value {
                    Some(_) => {
                        let (min, max) = (self.unchecked_min(), self.unchecked_max());
                        self.domain = vec![value];
                        proof {
                            assert(self@ =~= seq![value]);
                            if old_d.len() == 1 {
                                assert(old_d[0] == value);
                            }
                            assert(old_d[0] < old_d[old_d.len() - 1]);
                        }
                        if value == min {
                            Ok(VariableState::MaxBoundChange)
                        } else if value == max {
                            Ok(VariableState::MinBoundChange)
                        } else {
                            Ok(VariableState::BoundsChange)
                        }
                    },
                    None => {
                        self.invalidate();
                        Err(VariableError::DomainWipeout)
                    },
                }
            },
        }
    }

    /// Removes `value` from the domain. Fails when it was the last value.
    pub fn remove_value(&mut self, value: i32) -> (r: Result<VariableState, VariableError>)
        requires
            old(self).wf(),
            old(self)@.len() > 0,
        ensures
            final(self).wf(),
            final(self).spec_id() == old(self).spec_id(),
            (r, final(self)@) == removal(old(self)@, value),
    {
        let ghost old_d = self@;
        let (min, max) = (self.min(), self.max());
        let found_value = search(&self.domain, value);
        match found_value {
            Some(index) => {
                self.domain.remove(index);
                proof {
                    let p = differs(value);
                    assert forall|i: int, j: int| 0 <= i < j < self@.len() implies self@[i]
                        < self@[j] by {
                        if i < index {
                            if j < index {
                                assert(self@[j] == old_d[j]);
                            } else {
                                assert(self@[j] == old_d[j + 1]);
                            }
                        } else {
                            assert(self@[i] == old_d[i + 1]);
                            assert(self@[j] == old_d[j + 1]);
                        }
                    }
                    assert forall|v: i32| self@.contains(v) <==> (old_d.contains(v) && p(v)) by {
                        if self@.contains(v) {
                            let k = choose|k: int| 0 <= k < self@.len() && self@[k] == v;
                            if k < index {
                                assert(old_d[k] == v);
                                assert(old_d[k] < old_d[index as int]);
                            } else {
                                assert(old_d[k + 1] == v);
                                assert(old_d[index as int] < old_d[k + 1]);
                            }
                        }
                        if old_d.contains(v) && p(v) {
                            let k = choose|k: int| 0 <= k < old_d.len() && old_d[k] == v;
                            if k < index {
                                assert(self@[k] == v);
                            } else {
                                assert(k != index);
                                assert(self@[k - 1] == v);
                            }
                        }
                    }
                    lemma_is_filter(old_d, differs(value), self@);
                    if old_d.len() == 1 {
                        assert(self@ =~= Seq::<i32>::empty());
                    }
                }
                if self.size() == 0 {
                    Err(VariableError::DomainWipeout)
                } else if self.min() != min && self.max() != max {
                    Ok(VariableState::BoundsChange)
                } else if self.min() != min {
                    Ok(VariableState::MinBoundChange)
                } else if self.max() != max {
                    Ok(VariableState::MaxBoundChange)
                } else {
                    Ok(VariableState::ValuesChange)
                }
            },
            None => Ok(VariableState::NoChange),
        }
    }
}


/// The state that a variable reports when its domain becomes `domain`.
fn check_change(var: &IntVarValues, domain: &Vec<i32>) -> (r: VariableState)
    requires
        var@.len() > 0,
        domain@.len() > 0,
    ensures
        r == change_state(var@, domain@),
{
    if var.size() == domain.len() {
        VariableState::NoChange
    } else if var.unchecked_min() != domain[0] && var.unchecked_max() != domain[domain.len() - 1] {
        VariableState::BoundsChange
    } else if var.unchecked_min() != domain[0] {
        VariableState::MinBoundChange
    } else if var.unchecked_max() != domain[domain.len() - 1] {
        VariableState::MaxBoundChange
    } else {
        VariableState::ValuesChange
    }
}

impl IntVarValues {
    /// A variable whose domain holds the given values, or `None` when there
    /// is none. Duplicates are dropped and the values are sorted.
    pub fn new_from_values(values: Vec<i32>) -> (r: Option<IntVarValues>)
        ensures
            r is None <==> values@.len() == 0,
            r matches Some(x) ==> x.wf() && x.spec_id() == 0 && forall|v: i32|
                x@.contains(v) <==> values@.contains(v),
    {
        let domain = sorted_set(&values);
        if domain.len() == 0 {
            proof {
                if values@.len() > 0 {
                    assert(values@.contains(values@[0]));
                }
            }
            None
        } else {
            proof {
                assert(domain@.contains(domain@[0]));
            }
            Some(IntVarValues { domain: domain, id: 0 })
        }
    }

    /// The state reported after the domain changed from one with the given
    /// bounds and size; fails, emptying the domain, when it is empty.
    fn domain_change(&mut self, prev_min: i32, prev_max: i32, prev_size: usize) -> (r: Result<
        VariableState,
        VariableError,
    >)
        ensures
            final(self).spec_id() == old(self).spec_id(),
            final(self)@ == old(self)@,
            r == (if old(self)@.len() == 0 {
                Err(VariableError::DomainWipeout)
            } else if old(self)@.len() == prev_size {
                Ok(VariableState::NoChange)
            } else if old(self)@[0] != prev_min && old(self)@.last() != prev_max {
                Ok(VariableState::BoundsChange)
            } else if old(self)@[0] != prev_min {
                Ok(VariableState::MinBoundChange)
            } else if old(self)@.last() != prev_max {
                Ok(VariableState::MaxBoundChange)
            } else {
                Ok(VariableState::ValuesChange)
            }),
    {
        if self.domain.len() == 0 {
            self.invalidate();
            Err(VariableError::DomainWipeout)
        } else if self.size() == prev_size {
            Ok(VariableState::NoChange)
        } else if self.unchecked_min() != prev_min && self.unchecked_max() != prev_max {
            Ok(VariableState::BoundsChange)
        } else if self.unchecked_min() != prev_min {
            Ok(VariableState::MinBoundChange)
        } else if self.unchecked_max() != prev_max {
            Ok(VariableState::MaxBoundChange)
        } else {
            Ok(VariableState::ValuesChange)
        }
    }

    /// Forces the domains of two variables to be equal: both become the
    /// values they have in common. Fails, emptying both, when there is none.
    pub fn equal(&mut self, value: &mut IntVarValues) -> (r: Result<
        (VariableState, VariableState),
        VariableError,
    >)
        requires
            old(self).wf(),
            old(value).wf(),
        ensures
            final(self).wf(),
            final(value).wf(),
            final(self).spec_id() == old(self).spec_id(),
            final(value).spec_id() == old(value).spec_id(),
            inter(old(self)@, old(value)@).len() == 0 ==> r == Err::<
                (VariableState, VariableState),
                VariableError,
            >(VariableError::DomainWipeout) && final(self)@.len() == 0 && final(value)@.len()
                == 0,
            inter(old(self)@, old(value)@).len() > 0 ==> final(self)@ == inter(
                old(self)@,
                old(value)@,
            ) && final(value)@ == inter(old(self)@, old(value)@) && r == Ok::<
                (VariableState, VariableState),
                VariableError,
            >(
                (
                    change_state(old(self)@, final(self)@),
                    change_state(old(value)@, final(value)@),
                ),
            ),
    {
        let domain = intersect(&self.domain, &value.domain);
        if domain.len() == 0 {
            self.invalidate();
            value.invalidate();
            return Err(VariableError::DomainWipeout);
        }
        proof {
            lemma_filter_sorted(self@, occurs_in(value@));
            assert(domain@.contains(domain@[0]));
        }
        let ok_self = check_change(self, &domain);
        let ok_value = check_change(value, &domain);
        self.domain = copy_range(&domain, 0, domain.len());
        proof {
            assert(domain@.subrange(0, domain@.len() as int) =~= domain@);
        }
        value.domain = domain;
        Ok((ok_self, ok_value))
    }

    /// Forces the domain to hold only values of `values`. Fails, emptying the
    /// domain, when none of them is in it.
    pub fn in_sorted_values(&mut self, values: Vec<i32>) -> (r: Result<
        VariableState,
        VariableError,
    >)
        requires
            old(self).wf(),
        ensures
            final(self).wf(),
            final(self).spec_id() == old(self).spec_id(),
            (r, final(self)@) == restriction(old(self)@, values@),
    {
        let domain = intersect(&self.domain, &values);
        if domain.len() == 0 {
            self.invalidate();
            return Err(VariableError::DomainWipeout);
        }
        proof {
            lemma_filter_sorted(self@, occurs_in(values@));
            assert(domain@.contains(domain@[0]));
        }
        let ok_self = check_change(self, &domain);
        self.domain = domain;
        Ok(ok_self)
    }

    /// Same as `in_sorted_values`: the order of `values` does not matter.
    pub fn in_values(&mut self, values: Vec<i32>) -> (r: Result<VariableState, VariableError>)
        requires
            old(self).wf(),
        ensures
            final(self).wf(),
            final(self).spec_id() == old(self).spec_id(),
            (r, final(self)@) == restriction(old(self)@, values@),
    {
        self.in_sorted_values(values)
    }

    /// Removes the values on which `pred` answers `true`; fails, emptying the
    /// domain, when none is left.
    pub fn remove_if<F: Fn(&i32) -> bool>(&mut self, pred: F) -> (r: Result<
        VariableState,
        VariableError,
    >)
        requires
            old(self).wf(),
            old(self)@.len() > 0,
            forall|v: i32| call_requires(pred, (&v,)),
        ensures
            final(self).wf(),
            final(self).spec_id() == old(self).spec_id(),
            forall|v: i32| #[trigger] final(self)@.contains(v) ==> old(self)@.contains(v) && call_ensures(
                pred,
                (&v,),
                false,
            ),
            forall|v: i32| #[trigger] old(self)@.contains(v) && !final(self)@.contains(v) ==> call_ensures(
                pred,
                (&v,),
                true,
            ),
            r is Err <==> final(self)@.len() == 0,
            r is Err ==> r == Err::<VariableState, VariableError>(VariableError::DomainWipeout),
            r is Ok ==> r == Ok::<VariableState, VariableError>(
                change_state(old(self)@, final(self)@),
            ),
    {
        let (min, max, size) = (self.unchecked_min(), self.unchecked_max(), self.size());
        let kept = self.retain_by(&pred, false);
        self.domain = kept;
        self.domain_change(min, max, size)
    }

    /// Keeps only the values on which `pred` answers `true`; fails, emptying
    /// the domain, when none is left.
    pub fn retains_if<F: Fn(&i32) -> bool>(&mut self, pred: F) -> (r: Result<
        VariableState,
        VariableError,
    >)
        requires
            old(self).wf(),
            old(self)@.len() > 0,
            forall|v: i32| call_requires(pred, (&v,)),
        ensures
            final(self).wf(),
            final(self).spec_id() == old(self).spec_id(),
            forall|v: i32| #[trigger] final(self)@.contains(v) ==> old(self)@.contains(v) && call_ensures(
                pred,
                (&v,),
                true,
            ),
            forall|v: i32| #[trigger] old(self)@.contains(v) && !final(self)@.contains(v) ==> call_ensures(
                pred,
                (&v,),
                false,
            ),
            r is Err <==> final(self)@.len() == 0,
            r is Err ==> r == Err::<VariableState, VariableError>(VariableError::DomainWipeout),
            r is Ok ==> r == Ok::<VariableState, VariableError>(
                change_state(old(self)@, final(self)@),
            ),
    {
        let (min, max, size) = (self.unchecked_min(), self.unchecked_max(), self.size());
        let kept = self.retain_by(&pred, true);
        self.domain = kept;
        self.domain_change(min, max, size)
    }

    /// The values of the domain on which `pred` answers `keep`, in order.
    fn retain_by<F: Fn(&i32) -> bool>(&self, pred: &F, keep: bool) -> (r: Vec<i32>)
        requires
            self.wf(),
            forall|v: i32| call_requires(*pred, (&v,)),
        ensures
            sorted(r@),
            forall|v: i32| #[trigger] r@.contains(v) ==> self@.contains(v) && call_ensures(
                *pred,
                (&v,),
                keep,
            ),
            forall|v: i32| #[trigger] self@.contains(v) && !r@.contains(v) ==> call_ensures(
                *pred,
                (&v,),
                !keep,
            ),
            r@.len() <= self@.len(),
            r@.len() == self@.len() ==> r@ == self@,
    {
        let mut r: Vec<i32> = Vec::new();
        let mut i: usize = 0;
        while i < self.domain.len()
            invariant
                i <= self@.len(),
                self.wf(),
                forall|v: i32| call_requires(*pred, (&v,)),
                r@.len() <= i,
                r@.len() == i ==> r@ == self@.subrange(0, i as int),
                forall|k: int| 0 <= k < r@.len() ==> exists|m: int|
                    0 <= m < i && self@[m] == #[trigger] r@[k],
                forall|p: int, q: int| 0 <= p < q < r@.len() ==> r@[p] < r@[q],
                forall|v: i32| #[trigger] r@.contains(v) ==> call_ensures(*pred, (&v,), keep),
                forall|m: int|
                    0 <= m < i && !r@.contains(#[trigger] self@[m]) ==> call_ensures(
                        *pred,
                        (&self@[m],),
                        !keep,
                    ),
            decreases self@.len() - i,
        {
            let x = self.domain[i];
            let ghost old_r = r@;
            let b = pred(&x);
            if b == keep {
                proof {
                    assert forall|k: int| 0 <= k < r@.len() implies r@[k] < x by {
                        let m = choose|m: int| 0 <= m < i && self@[m] == r@[k];
                        assert(self@[m] < self@[i as int]);
                    }
                }
                r.push(x);
                proof {
                    assert forall|v: i32| #[trigger] r@.contains(v) implies call_ensures(
                        *pred,
                        (&v,),
                        keep,
                    ) by {
                        let k = choose|k: int| 0 <= k < r@.len() && r@[k] == v;
                        if k < old_r.len() {
                            assert(old_r.contains(v));
                        }
                    }
                    assert forall|k: int| 0 <= k < r@.len() implies exists|m: int|
                        0 <= m < i + 1 && self@[m] == #[trigger] r@[k] by {
                        if k < old_r.len() {
                            let m = choose|m: int| 0 <= m < i && self@[m] == old_r[k];
                            assert(self@[m] == r@[k]);
                        } else {
                            assert(self@[i as int] == r@[k]);
                        }
                    }
                    if r@.len() == i + 1 {
                        assert(r@ =~= self@.subrange(0, i + 1));
                    }
                    assert forall|m: int|
                        0 <= m < i + 1 && !r@.contains(#[trigger] self@[m]) implies call_ensures(
                        *pred,
                        (&self@[m],),
                        !keep,
                    ) by {
                        if m == i {
                            assert(r@[r@.len() - 1] == self@[m]);
                        } else {
                            if old_r.contains(self@[m]) {
                                let k = choose|k: int| 0 <= k < old_r.len() && old_r[k] == self@[m];
                                assert(r@[k] == self@[m]);
                            }
                        }
                    }
                }
            } else {
                proof {
                    assert forall|m: int|
                        0 <= m < i + 1 && !r@.contains(#[trigger] self@[m]) implies call_ensures(
                        *pred,
                        (&self@[m],),
                        !keep,
                    ) by {
                        if m == i {
                            assert(b == !keep);
                        }
                    }
                }
            }
            i = i + 1;
        }
        proof {
            assert(self@.subrange(0, self@.len() as int) =~= self@);
            assert forall|v: i32| #[trigger] r@.contains(v) implies self@.contains(v) by {
                let k = choose|k: int| 0 <= k < r@.len() && r@[k] == v;
                let m = choose|m: int| 0 <= m < self@.len() && self@[m] == r@[k];
            }
            assert forall|v: i32| #[trigger] self@.contains(v) && !r@.contains(v) implies call_ensures(
                *pred,
                (&v,),
                !keep,
            ) by {
                let m = choose|m: int| 0 <= m < self@.len() && self@[m] == v;
            }
        }
        r
    }
}

impl IntVarValues {
    /// Forces the values of two variables to be distinct: once one of them is
    /// affected, its value is removed from the other.
    pub fn not_equal(&mut self, value: &mut IntVarValues) -> (r: Result<
        (VariableState, VariableState),
        VariableError,
    >)
        requires
            old(self).wf(),
            old(value).wf(),
            old(self)@.len() == 1 ==> old(value)@.len() > 0,
            old(self)@.len() != 1 && old(value)@.len() == 1 ==> old(self)@.len() > 0,
        ensures
            final(self).wf(),
            final(value).wf(),
            final(self).spec_id() == old(self).spec_id(),
            final(value).spec_id() == old(value).spec_id(),
            old(self)@.len() == 1 ==> final(self)@ == old(self)@ && final(value)@ == removal(
                old(value)@,
                old(self)@[0],
            ).1 && r == (match removal(old(value)@, old(self)@[0]).0 {
                Ok(st) => Ok((VariableState::NoChange, st)),
                Err(e) => Err(e),
            }),
            old(self)@.len() != 1 && old(value)@.len() == 1 ==> final(value)@ == old(value)@
                && final(self)@ == removal(old(self)@, old(value)@[0]).1 && r == (match removal(
                old(self)@,
                old(value)@[0],
            ).0 {
                Ok(st) => Ok((st, VariableState::NoChange)),
                Err(e) => Err(e),
            }),
            old(self)@.len() != 1 && old(value)@.len() != 1 ==> final(self)@ == old(self)@
                && final(value)@ == old(value)@ && r == Ok::<
                (VariableState, VariableState),
                VariableError,
            >((VariableState::NoChange, VariableState::NoChange)),
    {
        match self.value() {
            Some(val) => {
                let ok_value = value.remove_value(val)?;
                Ok((VariableState::NoChange, ok_value))
            },
            _ => match value.value() {
                Some(val) => {
                    let ok_self = self.remove_value(val)?;
                    Ok((ok_self, VariableState::NoChange))
                },
                _ => Ok((VariableState::NoChange, VariableState::NoChange)),
            },
        }
    }

    /// Forces `self < value`: the values of `self` must be below the maximum
    /// of `value`, and those of `value` above the minimum of `self`. Fails,
    /// changing nothing, when the minimum of `self` is not below the maximum
    /// of `value`.
    pub fn less_than(&mut self, value: &mut IntVarValues) -> (r: Result<
        (VariableState, VariableState),
        VariableError,
    >)
        requires
            old(self).wf(),
            old(value).wf(),
            old(self)@.len() > 0,
            old(value)@.len() > 0,
        ensures
            final(self).wf(),
            final(value).wf(),
            final(self).spec_id() == old(self).spec_id(),
            final(value).spec_id() == old(value).spec_id(),
            r is Err <==> old(self)@[0] >= old(value)@.last(),
            r is Err ==> r == Err::<(VariableState, VariableState), VariableError>(
                VariableError::DomainWipeout,
            ) && final(self)@ == old(self)@ && final(value)@ == old(value)@,
            r is Ok ==> final(self)@ == below(old(self)@, old(value)@.last()) && final(value)@
                == above(old(value)@, old(self)@[0]) && final(self)@.len() > 0 && final(value)@.len()
                > 0 && r == Ok::<(VariableState, VariableState), VariableError>(
                (change_state(old(self)@, final(self)@), change_state(old(value)@, final(value)@)),
            ),
    {
        let state_self = self.strict_upperbound(value.unchecked_max())?;
        let state_value = value.strict_lowerbound(self.unchecked_min())?;
        Ok((state_self, state_value))
    }

    /// Forces `self <= value`. Fails, changing nothing, when the minimum of
    /// `self` is above the maximum of `value`.
    pub fn less_or_equal_than(&mut self, value: &mut IntVarValues) -> (r: Result<
        (VariableState, VariableState),
        VariableError,
    >)
        requires
            old(self).wf(),
            old(value).wf(),
            old(self)@.len() > 0,
            old(value)@.len() > 0,
        ensures
            final(self).wf(),
            final(value).wf(),
            final(self).spec_id() == old(self).spec_id(),
            final(value).spec_id() == old(value).spec_id(),
            r is Err <==> old(self)@[0] > old(value)@.last(),
            r is Err ==> r == Err::<(VariableState, VariableState), VariableError>(
                VariableError::DomainWipeout,
            ) && final(self)@ == old(self)@ && final(value)@ == old(value)@,
            r is Ok ==> final(self)@ == at_most(old(self)@, old(value)@.last()) && final(value)@
                == at_least(old(value)@, old(self)@[0]) && final(self)@.len() > 0
                && final(value)@.len() > 0 && r == Ok::<(VariableState, VariableState), VariableError>(
                (change_state(old(self)@, final(self)@), change_state(old(value)@, final(value)@)),
            ),
    {
        let state_self = self.weak_upperbound(value.unchecked_max())?;
        let state_value = value.weak_lowerbound(self.unchecked_min())?;
        Ok((state_self, state_value))
    }

    /// Forces `self > value`. Fails, changing nothing, when the maximum of
    /// `self` is not above the minimum of `value`.
    pub fn greater_than(&mut self, value: &mut IntVarValues) -> (r: Result<
        (VariableState, VariableState),
        VariableError,
    >)
        requires
            old(self).wf(),
            old(value).wf(),
            old(self)@.len() > 0,
            old(value)@.len() > 0,
        ensures
            final(self).wf(),
            final(value).wf(),
            final(self).spec_id() == old(self).spec_id(),
            final(value).spec_id() == old(value).spec_id(),
            r is Err <==> old(self)@.last() <= old(value)@[0],
            r is Err ==> r == Err::<(VariableState, VariableState), VariableError>(
                VariableError::DomainWipeout,
            ) && final(self)@ == old(self)@ && final(value)@ == old(value)@,
            r is Ok ==> final(self)@ == above(old(self)@, old(value)@[0]) && final(value)@ == below(
                old(value)@,
                old(self)@.last(),
            ) && final(self)@.len() > 0 && final(value)@.len() > 0 && r == Ok::<
                (VariableState, VariableState),
                VariableError,
            >((change_state(old(self)@, final(self)@), change_state(old(value)@, final(value)@))),
    {
        let state_self = self.strict_lowerbound(value.unchecked_min())?;
        let state_value = value.strict_upperbound(self.unchecked_max())?;
        Ok((state_self, state_value))
    }

    /// Forces `self >= value`. Fails, changing nothing, when the maximum of
    /// `self` is below the minimum of `value`.
    pub fn greater_or_equal_than(&mut self, value: &mut IntVarValues) -> (r: Result<
        (VariableState, VariableState),
        VariableError,
    >)
        requires
            old(self).wf(),
            old(value).wf(),
            old(self)@.len() > 0,
            old(value)@.len() > 0,
        ensures
            final(self).wf(),
            final(value).wf(),
            final(self).spec_id() == old(self).spec_id(),
            final(value).spec_id() == old(value).spec_id(),
            r is Err <==> old(self)@.last() < old(value)@[0],
            r is Err ==> r == Err::<(VariableState, VariableState), VariableError>(
                VariableError::DomainWipeout,
            ) && final(self)@ == old(self)@ && final(value)@ == old(value)@,
            r is Ok ==> final(self)@ == at_least(old(self)@, old(value)@[0]) && final(value)@
                == at_most(old(value)@, old(self)@.last()) && final(self)@.len() > 0
                && final(value)@.len() > 0 && r == Ok::<(VariableState, VariableState), VariableError>(
                (change_state(old(self)@, final(self)@), change_state(old(value)@, final(value)@)),
            ),
    {
        let state_self = self.weak_lowerbound(value.unchecked_min())?;
        let state_value = value.weak_upperbound(self.unchecked_max())?;
        Ok((state_self, state_value))
    }
}

impl IntVarValues {
    /// Aligns the bounds of two variables by repeating `self <= value` and
    /// `self >= value` until a round leaves the maximum of `self` and of
    /// `value` where they were. Fails when a step fails.
    pub fn equal_bounds(&mut self, value: &mut IntVarValues) -> (r: Result<
        (VariableState, VariableState),
        VariableError,
    >)
        requires
            old(self).wf(),
            old(value).wf(),
            old(self)@.len() > 0,
            old(value)@.len() > 0,
        ensures
            final(self).wf(),
            final(value).wf(),
            final(self).spec_id() == old(self).spec_id(),
            final(value).spec_id() == old(value).spec_id(),
            bounds_fixpoint(old(self)@, old(value)@) is None ==> r == Err::<
                (VariableState, VariableState),
                VariableError,
            >(VariableError::DomainWipeout),
            bounds_fixpoint(old(self)@, old(value)@) matches Some((s, v)) ==> r == Ok::<
                (VariableState, VariableState),
                VariableError,
            >((VariableState::NoChange, VariableState::NoChange)) && final(self)@ == s
                && final(value)@ == v,
    {
        <IntVarValues as BoundedDomain>::equal_bounds(self, value)
    }
}
} // verus!
