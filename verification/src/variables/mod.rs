use vstd::prelude::*;

use self::int_var::{IntVarValues, IntVarValuesBuilder};

pub mod sorted;
pub mod int_var;
pub mod handlers;
pub mod domains;
pub mod bool_var;
pub mod set_int_var;
pub mod int_var_bound;
pub mod arrays;
pub mod handler_traits;
pub mod events;


verus! {

/// Describes the state of a variable after its domain is updated.
///
/// Each state carries a bit code: the bounds/values part lives in the low
/// nibble and the universal part in the high bits. Combining two states with
/// `|` joins their codes.
#[derive(Debug, Copy, Clone, PartialEq, Eq, Structural)]
pub enum VariableState {
    /// If only the maximal bound of the variable has been updated.
    MaxBoundChange,
    /// If only the minimal bound of the variable has been updated.
    MinBoundChange,
    /// If both bounds of the variable has been updated.
    BoundsChange,
    /// If the domain has been change but not its bounds.
    ValuesChange,
    /// If no change occured.
    NoChange,
    /// When the value has been changed by an universal brancher.
    UniversalChange,
    /// A universal change mixed with any other change.
    UniversalError,
}

/// The bit code of each state.
pub open spec fn state_code(s: VariableState) -> u8 {
    match s {
        VariableState::MaxBoundChange => 0x03u8,
        VariableState::MinBoundChange => 0x05u8,
        VariableState::BoundsChange => 0x07u8,
        VariableState::ValuesChange => 0x0fu8,
        VariableState::NoChange => 0x00u8,
        VariableState::UniversalChange => 0xe0u8,
        VariableState::UniversalError => 0xe1u8,
    }
}

/// The codes that name a state.
pub open spec fn is_state_code(c: u8) -> bool {
    c == 0x03u8 || c == 0x05u8 || c == 0x07u8 || c == 0x0fu8 || c == 0x00u8 || c == 0xe0u8
        || c == 0xe1u8
}

/// The state named by a code.
pub open spec fn code_state(c: u8) -> VariableState {
    if c == 0x03u8 {
        VariableState::MaxBoundChange
    } else if c == 0x05u8 {
        VariableState::MinBoundChange
    } else if c == 0x07u8 {
        VariableState::BoundsChange
    } else if c == 0x0fu8 {
        VariableState::ValuesChange
    } else if c == 0xe0u8 {
        VariableState::UniversalChange
    } else if c == 0xe1u8 {
        VariableState::UniversalError
    } else {
        VariableState::NoChange
    }
}

/// Joins two codes: the universal bits are kept, and when any of them is set
/// only the lowest value bit survives beside them.
pub open spec fn join_code(a: u8, b: u8) -> u8 {
    let univ = (a | b) & 0xe0u8;
    let value = (a | b) & 0x0fu8;
    let mask = (!univ) >> 4u8;
    univ | (value & mask)
}

/// The state obtained by combining two states.
pub open spec fn join_state(a: VariableState, b: VariableState) -> VariableState {
    code_state(join_code(state_code(a), state_code(b)))
}

/// Subsumption between states: `s` is subsumed under `t` when a change
/// described by `t` is enough to trigger what waits on `s`.
pub open spec fn state_subsumed(s: VariableState, t: VariableState) -> bool {
    match s {
        VariableState::MaxBoundChange => t == VariableState::MaxBoundChange,
        VariableState::MinBoundChange => t == VariableState::MinBoundChange,
        VariableState::BoundsChange => t != VariableState::ValuesChange && t
            != VariableState::NoChange,
        VariableState::ValuesChange => t != VariableState::NoChange,
        VariableState::NoChange => true,
        VariableState::UniversalChange => t == VariableState::UniversalChange,
        VariableState::UniversalError => t == VariableState::UniversalChange || t
            == VariableState::UniversalError,
    }
}

proof fn lemma_join_code_closed(a: u8, b: u8)
    requires
        is_state_code(a),
        is_state_code(b),
    ensures
        is_state_code(join_code(a, b)),
{
    assert(is_state_code(join_code(a, b))) by (bit_vector)
        requires
            is_state_code(a),
            is_state_code(b),
    ;
}

proof fn lemma_code_roundtrip(s: VariableState)
    ensures
        is_state_code(state_code(s)),
        code_state(state_code(s)) == s,
{
}

proof fn lemma_code_state_code(c: u8)
    requires
        is_state_code(c),
    ensures
        state_code(code_state(c)) == c,
{
}

/// `NoChange` is neutral for `|`: combining it with any state gives that state.
pub proof fn lemma_or_no_change_neutral(s: VariableState)
    ensures
        join_state(VariableState::NoChange, s) == s,
        join_state(s, VariableState::NoChange) == s,
{
    let c = state_code(s);
    lemma_code_roundtrip(s);
    assert(join_code(0u8, c) == c && join_code(c, 0u8) == c) by (bit_vector)
        requires
            is_state_code(c),
    ;
}

/// `|` on states is commutative.
pub proof fn lemma_or_commutative(a: VariableState, b: VariableState)
    ensures
        join_state(a, b) == join_state(b, a),
{
    let x = state_code(a);
    let y = state_code(b);
    assert(join_code(x, y) == join_code(y, x)) by (bit_vector);
}

/// `|` on states is idempotent.
pub proof fn lemma_or_idempotent(a: VariableState)
    ensures
        join_state(a, a) == a,
{
    let x = state_code(a);
    lemma_code_roundtrip(a);
    assert(join_code(x, x) == x) by (bit_vector)
        requires
            is_state_code(x),
    ;
}

/// `|` on states is associative.
pub proof fn lemma_or_associative(a: VariableState, b: VariableState, c: VariableState)
    ensures
        join_state(join_state(a, b), c) == join_state(a, join_state(b, c)),
{
    let x = state_code(a);
    let y = state_code(b);
    let z = state_code(c);
    lemma_code_roundtrip(a);
    lemma_code_roundtrip(b);
    lemma_code_roundtrip(c);
    lemma_join_code_closed(x, y);
    lemma_join_code_closed(y, z);
    lemma_code_state_code(join_code(x, y));
    lemma_code_state_code(join_code(y, z));
    assert(join_code(join_code(x, y), z) == join_code(x, join_code(y, z))) by (bit_vector)
        requires
            is_state_code(x),
            is_state_code(y),
            is_state_code(z),
    ;
}

/// A universal change combined with any bounds or values change becomes a
/// universal error, and a universal error absorbs every state.
pub proof fn lemma_or_universal(s: VariableState)
    ensures
        s != VariableState::NoChange && s != VariableState::UniversalChange ==> join_state(
            VariableState::UniversalChange,
            s,
        ) == VariableState::UniversalError,
        join_state(VariableState::UniversalError, s) == VariableState::UniversalError,
{
    let c = state_code(s);
    lemma_code_roundtrip(s);
    assert((c != 0u8 && c != 0xe0u8 ==> join_code(0xe0u8, c) == 0xe1u8) && join_code(0xe1u8, c)
        == 0xe1u8) by (bit_vector)
        requires
            is_state_code(c),
    ;
}

impl VariableState {
    /// The bit code of the state.
    pub fn code(self) -> (c: u8)
        ensures
            c == state_code(self),
    {
        match self {
            VariableState::MaxBoundChange => 0x03u8,
            VariableState::MinBoundChange => 0x05u8,
            VariableState::BoundsChange => 0x07u8,
            VariableState::ValuesChange => 0x0fu8,
            VariableState::NoChange => 0x00u8,
            VariableState::UniversalChange => 0xe0u8,
            VariableState::UniversalError => 0xe1u8,
        }
    }

    /// The state named by a code.
    pub fn from_code(c: u8) -> (s: VariableState)
        requires
            is_state_code(c),
        ensures
            s == code_state(c),
            state_code(s) == c,
    {
        if c == 0x03u8 {
            VariableState::MaxBoundChange
        } else if c == 0x05u8 {
            VariableState::MinBoundChange
        } else if c == 0x07u8 {
            VariableState::BoundsChange
        } else if c == 0x0fu8 {
            VariableState::ValuesChange
        } else if c == 0xe0u8 {
            VariableState::UniversalChange
        } else if c == 0xe1u8 {
            VariableState::UniversalError
        } else {
            VariableState::NoChange
        }
    }

    /// # Subsomption relations
    /// * `MaxBoundChange` subsumed `BoundsChange`
    /// * `MinBoundChange` subsumed `BoundsChange`
    /// * `BoundsChange` subsumed `ValuesChange`
    /// * `ValuesChange` subsumed `NoChange`
    pub fn is_subsumed_under(&self, val: &Self) -> (r: bool)
        ensures
            r == state_subsumed(*self, *val),
    {
        match *self {
            VariableState::MaxBoundChange => *val == VariableState::MaxBoundChange,
            VariableState::MinBoundChange => *val == VariableState::MinBoundChange,
            VariableState::BoundsChange => {
                *val != VariableState::ValuesChange && *val != VariableState::NoChange
            },
            VariableState::ValuesChange => *val != VariableState::NoChange,
            VariableState::NoChange => true,
            VariableState::UniversalChange => *val == VariableState::UniversalChange,
            VariableState::UniversalError => {
                *val == VariableState::UniversalChange || *val == VariableState::UniversalError
            },
        }
    }
}

/// Represents an error that occured during variable domain update.
#[derive(Debug, Clone, Copy, PartialEq, Eq, Structural)]
pub enum VariableError {
    /// The domain of the variable is empty.
    DomainWipeout,
}

/// The identifier of a variable.
#[derive(Clone, Copy, Debug, Hash, PartialEq, Eq, PartialOrd, Ord, Structural)]
pub struct VariableId(pub usize);

/// The identifier of a constraint.
#[derive(Clone, Copy, Debug, Hash, PartialEq, Eq, PartialOrd, Ord, Structural)]
pub struct ConstraintId(pub usize);

impl core::ops::BitOr for VariableState {
    type Output = VariableState;

    fn bitor(self, rhs: VariableState) -> (r: VariableState) {
        let lhs: u8 = self.code();
        let rhs: u8 = rhs.code();
        let univ: u8 = VariableState::UniversalChange.code();
        let value: u8 = VariableState::ValuesChange.code();
        let univ_bit: u8 = (lhs | rhs) & univ;
        let value_bit: u8 = (lhs | rhs) & value;
        let value_mask: u8 = (!univ_bit) >> 4u8;
        let res: u8 = univ_bit | (value_bit & value_mask);
        proof {
            lemma_code_roundtrip(self);
            lemma_join_code_closed(lhs, rhs);
        }
        VariableState::from_code(res)
    }
}

impl vstd::std_specs::ops::BitOrSpecImpl for VariableState {
    open spec fn obeys_bitor_spec() -> bool {
        true
    }

    open spec fn bitor_req(self, rhs: VariableState) -> bool {
        true
    }

    open spec fn bitor_spec(self, rhs: VariableState) -> VariableState {
        join_state(self, rhs)
    }
}


/// An array of variables.
#[derive(Debug)]
pub struct ArrayOfVars {
    pub(crate) variables: Vec<IntVarValues>,
}

impl View for ArrayOfVars {
    type V = Seq<IntVarValues>;

    closed spec fn view(&self) -> Seq<IntVarValues> {
        self.variables@
    }
}

/// `n` copies of `var`.
fn repeat_var(n: usize, var: &IntVarValues) -> (r: Vec<IntVarValues>)
    ensures
        r@.len() == n,
        forall|i: int| 0 <= i < n ==> (#[trigger] r@[i])@ == var@ && r@[i].spec_id() == var.spec_id(),
{
    let mut r: Vec<IntVarValues> = Vec::new();
    let mut i: usize = 0;
    while i < n
        invariant
            i <= n,
            r@.len() == i,
            forall|k: int| 0 <= k < i ==> (#[trigger] r@[k])@ == var@ && r@[k].spec_id() == var.spec_id(),
        decreases n - i,
    {
        r.push(var.duplicate());
        i = i + 1;
    }
    r
}

impl ArrayOfVars {
    /// An array of `len` copies of `var`, or `None` when `len` is zero.
    pub fn new(len: usize, var: IntVarValues) -> (r: Option<ArrayOfVars>)
        ensures
            r is None <==> len == 0,
            r matches Some(a) ==> a@.len() == len && forall|i: int|
                0 <= i < len ==> (#[trigger] a@[i])@ == var@ && a@[i].spec_id() == var.spec_id(),
    {
        if len == 0 {
            return None;
        }
        Some(ArrayOfVars { variables: repeat_var(len, &var) })
    }

    /// An array holding the given variables, in order.
    pub fn new_from_iter(var: Vec<IntVarValues>) -> (r: Option<ArrayOfVars>)
        ensures
            r matches Some(a) && a@ == var@,
    {
        Some(ArrayOfVars { variables: var })
    }

    /// The variable at `position`, or `None` when out of bounds.
    pub fn get(&self, position: usize) -> (r: Option<&IntVarValues>)
        ensures
            position < self@.len() ==> r == Some(&self@[position as int]),
            position >= self@.len() ==> r is None,
    {
        if position < self.variables.len() {
            Some(&self.variables[position])
        } else {
            None
        }
    }

    /// The variable at `position`, which must be in bounds.
    pub fn get_unchecked(&self, position: usize) -> (r: &IntVarValues)
        requires
            position < self@.len(),
        ensures
            *r == self@[position as int],
    {
        &self.variables[position]
    }

    /// The number of variables.
    pub fn len(&self) -> (r: usize)
        ensures
            r == self@.len(),
    {
        self.variables.len()
    }
}

/// An array of variable builders, waiting for their identifiers.
#[derive(Debug)]
pub struct ArrayOfVarsBuilder {
    pub(crate) variables: Vec<IntVarValuesBuilder>,
}

impl View for ArrayOfVarsBuilder {
    type V = Seq<Seq<i32>>;

    closed spec fn view(&self) -> Seq<Seq<i32>> {
        self.variables@.map_values(|b: IntVarValuesBuilder| b@)
    }
}

impl ArrayOfVarsBuilder {
    /// An array of `len` builders with the domain of `var`, or `None` when
    /// `len` is zero.
    pub fn new(len: usize, var: IntVarValuesBuilder) -> (r: Option<ArrayOfVarsBuilder>)
        ensures
            r is None <==> len == 0,
            r matches Some(a) ==> a@.len() == len && forall|i: int|
                0 <= i < len ==> #[trigger] a@[i] == var@,
    {
        if len == 0 {
            return None;
        }
        let mut v: Vec<IntVarValuesBuilder> = Vec::new();
        let mut i: usize = 0;
        while i < len
            invariant
                i <= len,
                v@.len() == i,
                forall|k: int| 0 <= k < i ==> (#[trigger] v@[k])@ == var@,
            decreases len - i,
        {
            v.push(var.duplicate());
            i = i + 1;
        }
        let r = ArrayOfVarsBuilder { variables: v };
        proof {
            assert forall|k: int| 0 <= k < len implies #[trigger] r@[k] == var@ by {
                assert(v@[k]@ == var@);
            }
        }
        Some(r)
    }

    /// The builders, in order.
    pub fn into_iter(self) -> (r: Vec<IntVarValuesBuilder>)
        ensures
            r@.len() == self@.len(),
            forall|i: int| 0 <= i < r@.len() ==> (#[trigger] r@[i])@ == self@[i],
    {
        self.variables
    }
}
} // verus!
