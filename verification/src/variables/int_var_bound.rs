use vstd::prelude::*;

use super::domains::{BoundedDomain, FiniteDomain, OrderedDomain, Variable};
use super::sorted::{lemma_is_filter, sorted};
use super::{VariableError, VariableId, VariableState};

verus! {

/// The values `min, min + 1, ..., max`, none when `max < min`.
pub open spec fn interval(min: int, max: int) -> Seq<i32> {
    Seq::new(
        if min <= max {
            (max - min + 1) as nat
        } else {
            0
        },
        |i: int| (min + i) as i32,
    )
}

/// An interval of `i32` values is in increasing order and holds exactly the
/// values between its ends.
proof fn lemma_interval(min: i32, max: int)
    requires
        max <= i32::MAX,
    ensures
        sorted(interval(min as int, max)),
        forall|v: i32| #[trigger] interval(min as int, max).contains(v) <==> min <= v <= max,
        min <= max ==> interval(min as int, max)[0] == min,
        min <= max ==> interval(min as int, max).last() == max,
{
    let s = interval(min as int, max);
    assert forall|v: i32| min <= v <= max implies #[trigger] s.contains(v) by {
        assert(s[v - min] == v);
    }
}

/// An integer variable whose domain is an interval, held by its two bounds;
/// the domain is empty once the bounds cross. It carries no identifier of its
/// own (its identifier is 0).
#[derive(Clone, Copy, Debug)]
pub struct IntVarBound {
    min: i32,
    max: i32,
}

impl IntVarBound {
    /// The variable with domain `min ..= max`.
    pub fn new(min: i32, max: i32) -> (r: IntVarBound)
        ensures
            r.values() == interval(min as int, max as int),
            max - min < usize::MAX ==> r.var_wf(),
    {
        IntVarBound { min: min, max: max }
    }
}

impl Variable for IntVarBound {
    type Type = i32;

    closed spec fn values(&self) -> Seq<i32> {
        interval(self.min as int, self.max as int)
    }

    /// The number of values fits in `usize`.
    closed spec fn var_wf(&self) -> bool {
        self.max - self.min < usize::MAX
    }

    closed spec fn var_id(&self) -> usize {
        0
    }

    fn is_affected(&self) -> (r: bool) {
        self.min == self.max
    }

    fn value(&self) -> (r: Option<i32>) {
        if self.min == self.max {
            Some(self.min)
        } else {
            None
        }
    }

    fn id(&self) -> (r: VariableId) {
        VariableId(0)
    }
}

impl FiniteDomain for IntVarBound {
    fn size(&self) -> (r: usize) {
        if self.min <= self.max {
            let n: i64 = (self.max as i64) - (self.min as i64) + 1;
            n as usize
        } else {
            0
        }
    }
}

impl OrderedDomain for IntVarBound {
    fn min(&self) -> (r: Option<i32>) {
        if self.min <= self.max {
            Some(self.min)
        } else {
            None
        }
    }

    fn max(&self) -> (r: Option<i32>) {
        proof {
            lemma_interval(self.min, self.max as int);
        }
        if self.min <= self.max {
            Some(self.max)
        } else {
            None
        }
    }

    fn unchecked_min(&self) -> (r: i32) {
        self.min
    }

    fn unchecked_max(&self) -> (r: i32) {
        proof {
            lemma_interval(self.min, self.max as int);
        }
        self.max
    }

    fn strict_upperbound(&mut self, ub: i32) -> (r: Result<VariableState, VariableError>) {
        let ghost s = self.values();
        proof {
            lemma_interval(self.min, self.max as int);
        }
        if self.max < ub {
            proof {
                lemma_is_filter(s, |v: i32| v < ub, s);
            }
            Ok(VariableState::NoChange)
        } else if self.min >= ub {
            Err(VariableError::DomainWipeout)
        } else {
            self.max = ub - 1;
            proof {
                lemma_interval(self.min, self.max as int);
                lemma_is_filter(s, |v: i32| v < ub, self.values());
            }
            Ok(VariableState::MaxBoundChange)
        }
    }

    fn weak_upperbound(&mut self, ub: i32) -> (r: Result<VariableState, VariableError>) {
        let ghost s = self.values();
        proof {
            lemma_interval(self.min, self.max as int);
        }
        if self.max <= ub {
            proof {
                lemma_is_filter(s, |v: i32| v <= ub, s);
            }
            Ok(VariableState::NoChange)
        } else if self.min > ub {
            Err(VariableError::DomainWipeout)
        } else {
            self.max = ub;
            proof {
                lemma_interval(self.min, self.max as int);
                lemma_is_filter(s, |v: i32| v <= ub, self.values());
            }
            Ok(VariableState::MaxBoundChange)
        }
    }

    fn strict_lowerbound(&mut self, lb: i32) -> (r: Result<VariableState, VariableError>) {
        let ghost s = self.values();
        proof {
            lemma_interval(self.min, self.max as int);
        }
        if self.min > lb {
            proof {
                lemma_is_filter(s, |v: i32| v > lb, s);
            }
            Ok(VariableState::NoChange)
        } else if self.max <= lb {
            Err(VariableError::DomainWipeout)
        } else {
            self.min = lb + 1;
            proof {
                lemma_interval(self.min, self.max as int);
                lemma_is_filter(s, |v: i32| v > lb, self.values());
            }
            Ok(VariableState::MinBoundChange)
        }
    }

    fn weak_lowerbound(&mut self, lb: i32) -> (r: Result<VariableState, VariableError>) {
        let ghost s = self.values();
        proof {
            lemma_interval(self.min, self.max as int);
        }
        if self.min >= lb {
            proof {
                lemma_is_filter(s, |v: i32| v >= lb, s);
            }
            Ok(VariableState::NoChange)
        } else if self.max < lb {
            Err(VariableError::DomainWipeout)
        } else {
            self.min = lb;
            proof {
                lemma_interval(self.min, self.max as int);
                lemma_is_filter(s, |v: i32| v >= lb, self.values());
            }
            Ok(VariableState::MinBoundChange)
        }
    }
}

impl BoundedDomain for IntVarBound {
}

} // verus!
