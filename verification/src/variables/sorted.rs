use vstd::prelude::*;

verus! {

/// A strictly increasing sequence: the canonical form of a finite domain.
pub open spec fn sorted(s: Seq<i32>) -> bool {
    forall|i: int, j: int| 0 <= i < j < s.len() ==> s[i] < s[j]
}

/// The values of `s` strictly below `ub`.
pub open spec fn below(s: Seq<i32>, ub: i32) -> Seq<i32> {
    s.filter(|v: i32| v < ub)
}

/// The values of `s` lower than or equal to `ub`.
pub open spec fn at_most(s: Seq<i32>, ub: i32) -> Seq<i32> {
    s.filter(|v: i32| v <= ub)
}

/// The values of `s` strictly above `lb`.
pub open spec fn above(s: Seq<i32>, lb: i32) -> Seq<i32> {
    s.filter(|v: i32| v > lb)
}

/// The values of `s` greater than or equal to `lb`.
pub open spec fn at_least(s: Seq<i32>, lb: i32) -> Seq<i32> {
    s.filter(|v: i32| v >= lb)
}

/// The predicate "occurs in `t`".
pub open spec fn occurs_in(t: Seq<i32>) -> spec_fn(i32) -> bool {
    |v: i32| t.contains(v)
}

/// The values of `s` that also occur in `t`.
pub open spec fn inter(s: Seq<i32>, t: Seq<i32>) -> Seq<i32> {
    s.filter(occurs_in(t))
}

/// The predicate "differs from `x`".
pub open spec fn differs(x: i32) -> spec_fn(i32) -> bool {
    |v: i32| v != x
}

/// The values of `s` other than `x`.
pub open spec fn without(s: Seq<i32>, x: i32) -> Seq<i32> {
    s.filter(differs(x))
}

/// Filtering a sorted sequence keeps it sorted, and keeps exactly the
/// elements that satisfy the predicate.
pub proof fn lemma_filter_sorted(s: Seq<i32>, p: spec_fn(i32) -> bool)
    requires
        sorted(s),
    ensures
        sorted(s.filter(p)),
        forall|v: i32| #[trigger] s.filter(p).contains(v) <==> (s.contains(v) && p(v)),
        s.filter(p).len() <= s.len(),
    decreases s.len(),
{
    reveal_with_fuel(Seq::filter, 1);
    if s.len() == 0 {
        assert(s.filter(p) =~= Seq::<i32>::empty());
    } else {
        let sub = s.drop_last();
        assert(sorted(sub));
        lemma_filter_sorted(sub, p);
        assert(s.filter(p) == (if p(s.last()) {
            sub.filter(p).push(s.last())
        } else {
            sub.filter(p)
        }));
        assert forall|v: i32| s.contains(v) <==> (sub.contains(v) || v == s.last()) by {
            if s.contains(v) {
                let i = choose|i: int| 0 <= i < s.len() && s[i] == v;
                if i < s.len() - 1 {
                    assert(sub[i] == v);
                }
            }
            if sub.contains(v) {
                let i = choose|i: int| 0 <= i < sub.len() && sub[i] == v;
                assert(s[i] == v);
            }
            if v == s.last() {
                assert(s[s.len() - 1] == v);
            }
        }
        if p(s.last()) {
            let f = sub.filter(p);
            assert forall|i: int| 0 <= i < f.len() implies f[i] < s.last() by {
                assert(f.contains(f[i]));
                let k = choose|k: int| 0 <= k < sub.len() && sub[k] == f[i];
                assert(s[k] == sub[k]);
            }
            assert forall|v: i32| #[trigger] f.push(s.last()).contains(v) <==> (f.contains(v)
                || v == s.last()) by {
                if f.push(s.last()).contains(v) {
                    let k = choose|k: int|
                        0 <= k < f.push(s.last()).len() && f.push(s.last())[k] == v;
                    if k < f.len() {
                        assert(f[k] == v);
                    }
                }
                if f.contains(v) {
                    let k = choose|k: int| 0 <= k < f.len() && f[k] == v;
                    assert(f.push(s.last())[k] == v);
                }
                if v == s.last() {
                    assert(f.push(s.last())[f.len() as int] == v);
                }
            }
        }
    }
}

/// Two sorted sequences with the same elements are equal.
pub proof fn lemma_sorted_ext(a: Seq<i32>, b: Seq<i32>)
    requires
        sorted(a),
        sorted(b),
        forall|v: i32| a.contains(v) <==> b.contains(v),
    ensures
        a == b,
    decreases a.len(),
{
    if a.len() == 0 {
        if b.len() > 0 {
            assert(b.contains(b[0]));
        }
        assert(a =~= b);
    } else {
        assert(a.contains(a[0]));
        assert(b.len() > 0);
        assert(b.contains(b[0]));
        let j = choose|j: int| 0 <= j < b.len() && b[j] == a[0];
        let k = choose|k: int| 0 <= k < a.len() && a[k] == b[0];
        assert(a[0] == b[0]) by {
            if a[0] != b[0] {
                assert(0 < j);
                assert(0 < k);
            }
        }
        let ta = a.drop_first();
        let tb = b.drop_first();
        assert forall|v: i32| ta.contains(v) <==> tb.contains(v) by {
            if ta.contains(v) {
                let i = choose|i: int| 0 <= i < ta.len() && ta[i] == v;
                assert(a[i + 1] == v);
                assert(a.contains(v));
                let m = choose|m: int| 0 <= m < b.len() && b[m] == v;
                assert(m != 0);
                assert(tb[m - 1] == v);
            }
            if tb.contains(v) {
                let i = choose|i: int| 0 <= i < tb.len() && tb[i] == v;
                assert(b[i + 1] == v);
                assert(b.contains(v));
                let m = choose|m: int| 0 <= m < a.len() && a[m] == v;
                assert(m != 0);
                assert(ta[m - 1] == v);
            }
        }
        lemma_sorted_ext(ta, tb);
        assert(a =~= seq![a[0]] + ta);
        assert(b =~= seq![b[0]] + tb);
    }
}

/// A sorted sequence equals its filter by `p` when it is sorted and holds
/// exactly the elements of `s` that satisfy `p`.
pub proof fn lemma_is_filter(s: Seq<i32>, p: spec_fn(i32) -> bool, r: Seq<i32>)
    requires
        sorted(s),
        sorted(r),
        forall|v: i32| r.contains(v) <==> (s.contains(v) && p(v)),
    ensures
        r == s.filter(p),
{
    lemma_filter_sorted(s, p);
    lemma_sorted_ext(r, s.filter(p));
}

/// Every element of a non-empty sorted sequence lies between its first and
/// its last element.
pub proof fn lemma_sorted_bounds(s: Seq<i32>)
    requires
        sorted(s),
        s.len() > 0,
    ensures
        forall|v: i32| #[trigger] s.contains(v) ==> s[0] <= v <= s.last(),
        forall|i: int| 0 <= i < s.len() ==> s[0] <= #[trigger] s[i] <= s.last(),
{
    assert forall|v: i32| #[trigger] s.contains(v) implies s[0] <= v <= s.last() by {
        let i = choose|i: int| 0 <= i < s.len() && s[i] == v;
        if i > 0 {
            assert(s[0] < s[i]);
        }
        if i < s.len() - 1 {
            assert(s[i] < s[s.len() - 1]);
        }
    }
    assert forall|i: int| 0 <= i < s.len() implies s[0] <= #[trigger] s[i] <= s.last() by {
        if i > 0 {
            assert(s[0] < s[i]);
        }
        if i < s.len() - 1 {
            assert(s[i] < s[s.len() - 1]);
        }
    }
}

/// A contiguous part of a sorted sequence is sorted.
pub proof fn lemma_subrange_sorted(s: Seq<i32>, lo: int, hi: int)
    requires
        sorted(s),
        0 <= lo <= hi <= s.len(),
    ensures
        sorted(s.subrange(lo, hi)),
        forall|v: i32| #[trigger] s.subrange(lo, hi).contains(v) <==> exists|i: int|
            lo <= i < hi && s[i] == v,
{
    let r = s.subrange(lo, hi);
    assert forall|v: i32| #[trigger] r.contains(v) <==> exists|i: int| lo <= i < hi && s[i] == v by {
        if r.contains(v) {
            let k = choose|k: int| 0 <= k < r.len() && r[k] == v;
            assert(s[lo + k] == v);
        }
        if exists|i: int| lo <= i < hi && s[i] == v {
            let i = choose|i: int| lo <= i < hi && s[i] == v;
            assert(r[i - lo] == v);
        }
    }
}

/// The empty sequence is sorted.
pub proof fn lemma_empty_sorted()
    ensures
        sorted(Seq::<i32>::empty()),
{
}

} // verus!
