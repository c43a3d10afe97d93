use vstd::prelude::*;

use snowflake::ProcessUniqueId;

use super::int_var::{IntVarValues, IntVarValuesBuilder};
use super::{ArrayOfVars, ArrayOfVarsBuilder, VariableId};

verus! {

#[verifier::external_type_specification]
#[verifier::external_body]
pub struct ExProcessUniqueId(ProcessUniqueId);

/// Calls `snowflake::ProcessUniqueId::new`, which hands out an identifier
/// unique within the running process. Nothing is stated of its value: it
/// depends on the identifiers handed out before.
#[verifier::external_body]
fn fresh_process_id() -> (r: ProcessUniqueId) {
    ProcessUniqueId::new()
}

/// Where a variable lives in a handler: as a standalone variable, or as the
/// `y`-th element of the `x`-th array.
#[derive(Copy, Clone, Debug, PartialEq, Eq, Structural)]
pub enum VarIndexType {
    FromVar(usize),
    FromArrayOfVars(usize, usize),
}

/// A view on a variable of a handler.
#[derive(Copy, Clone, Debug)]
pub struct VarView {
    id: ProcessUniqueId,
    pub view: VarIndexType,
}

impl VarView {
    /// Where the variable lives.
    pub closed spec fn place(&self) -> VarIndexType {
        self.view
    }

    /// The view on the `x`-th standalone variable of the handler `id`.
    pub fn new(id: ProcessUniqueId, x: usize) -> (r: VarView)
        ensures
            r.place() == VarIndexType::FromVar(x),
    {
        VarView { id: id, view: VarIndexType::FromVar(x) }
    }

    /// The view on the `y`-th element of the `x`-th array of the handler `id`.
    pub fn new_from_array(id: ProcessUniqueId, x: usize, y: usize) -> (r: VarView)
        ensures
            r.place() == VarIndexType::FromArrayOfVars(x, y),
    {
        VarView { id: id, view: VarIndexType::FromArrayOfVars(x, y) }
    }

    /// Where the variable lives.
    pub fn get_idx(&self) -> (r: &VarIndexType)
        ensures
            *r == self.place(),
    {
        &self.view
    }
}

/// A view on an array of variables of a handler.
#[derive(Copy, Clone, Debug)]
pub struct ArrayOfVarsView {
    pub id: ProcessUniqueId,
    x: usize,
}

impl ArrayOfVarsView {
    /// The view on the `x`-th array of the handler `id`.
    pub fn new(id: ProcessUniqueId, x: usize) -> (r: ArrayOfVarsView)
        ensures
            r.spec_idx() == x,
    {
        ArrayOfVarsView { id: id, x: x }
    }

    /// The position of the array in its handler.
    pub closed spec fn spec_idx(&self) -> usize {
        self.x
    }

    /// The view on the `y`-th element of the array.
    pub fn get(&self, y: usize) -> (r: VarView)
        ensures
            r.place() == VarIndexType::FromArrayOfVars(self.spec_idx(), y),
    {
        VarView { id: self.id, view: VarIndexType::FromArrayOfVars(self.x, y) }
    }

    /// The position of the array in its handler.
    pub fn get_idx(&self) -> (r: usize)
        ensures
            r == self.spec_idx(),
    {
        self.x
    }
}

/// A view on an array of references to variables of a handler.
#[derive(Copy, Clone, Debug)]
pub struct ArrayOfRefsView {
    id: ProcessUniqueId,
    x: usize,
}

impl ArrayOfRefsView {
    /// The view on the `x`-th array of references of the handler `id`.
    pub fn new(id: ProcessUniqueId, x: usize) -> (r: ArrayOfRefsView)
        ensures
            r.spec_idx() == x,
    {
        ArrayOfRefsView { id: id, x: x }
    }

    /// The position of the array in its handler.
    pub closed spec fn spec_idx(&self) -> usize {
        self.x
    }

    /// The position of the array in its handler.
    pub fn get_idx(&self) -> (r: usize)
        ensures
            r == self.spec_idx(),
    {
        self.x
    }
}

/// The variables of a handler and the tables that locate them: all variables
/// are held in one vector, in the order in which they were added, and the
/// `i`-th of them has the identifier `i`.
pub open spec fn tables_wf(
    vars: Seq<IntVarValues>,
    singles: Seq<usize>,
    arrays: Seq<Seq<usize>>,
    refs: Seq<Seq<VarIndexType>>,
) -> bool {
    &&& forall|i: int| 0 <= i < vars.len() ==> (#[trigger] vars[i]).wf() && vars[i].spec_id() == i
    &&& forall|i: int| 0 <= i < singles.len() ==> #[trigger] singles[i] < vars.len()
    &&& forall|i: int, j: int|
        0 <= i < arrays.len() && 0 <= j < arrays[i].len() ==> #[trigger] arrays[i][j] < vars.len()
    &&& forall|i: int, j: int, k: int|
        0 <= i < arrays.len() && 0 <= j < arrays[i].len() && 0 <= k < arrays[i].len() && j != k
            ==> #[trigger] arrays[i][j] != #[trigger] arrays[i][k]
    &&& forall|i: int, j: int|
        0 <= i < refs.len() && 0 <= j < refs[i].len() ==> index_valid(
            singles,
            arrays,
            #[trigger] refs[i][j],
        )
}

/// Whether the place `v` exists in the tables.
pub open spec fn index_valid(singles: Seq<usize>, arrays: Seq<Seq<usize>>, v: VarIndexType) -> bool {
    match v {
        VarIndexType::FromVar(x) => x < singles.len(),
        VarIndexType::FromArrayOfVars(x, y) => x < arrays.len() && y < arrays[x as int].len(),
    }
}

/// The position, among all variables, of the place `v`.
pub open spec fn index_of(singles: Seq<usize>, arrays: Seq<Seq<usize>>, v: VarIndexType) -> int {
    match v {
        VarIndexType::FromVar(x) => singles[x as int] as int,
        VarIndexType::FromArrayOfVars(x, y) => arrays[x as int][y as int] as int,
    }
}

/// Collects the variables of a model before the search starts.
#[derive(Debug)]
pub struct VariableHandlerBuilder {
    pub id: ProcessUniqueId,
    variables: Vec<IntVarValues>,
    singles: Vec<usize>,
    arrays: Vec<Vec<usize>>,
    refs: Vec<Vec<VarIndexType>>,
}

/// The variables of a model.
#[derive(Debug)]
pub struct VariableHandler {
    pub id: ProcessUniqueId,
    variables: Vec<IntVarValues>,
    singles: Vec<usize>,
    arrays: Vec<Vec<usize>>,
    refs: Vec<Vec<VarIndexType>>,
}

/// The inner vectors of a table, as sequences.
pub open spec fn table_view(t: Seq<Vec<usize>>) -> Seq<Seq<usize>> {
    t.map_values(|v: Vec<usize>| v@)
}

/// The inner vectors of a table of places, as sequences.
pub open spec fn refs_view(t: Seq<Vec<VarIndexType>>) -> Seq<Seq<VarIndexType>> {
    t.map_values(|v: Vec<VarIndexType>| v@)
}

impl VariableHandlerBuilder {
    /// The variables added so far, in order.
    pub closed spec fn vars(&self) -> Seq<IntVarValues> {
        self.variables@
    }

    /// The positions of the standalone variables.
    pub closed spec fn singles(&self) -> Seq<usize> {
        self.singles@
    }

    /// The positions of the elements of each array.
    pub closed spec fn arrays(&self) -> Seq<Seq<usize>> {
        table_view(self.arrays@)
    }

    /// The places of the elements of each array of references.
    pub closed spec fn refs(&self) -> Seq<Seq<VarIndexType>> {
        refs_view(self.refs@)
    }

    /// The builder is consistent.
    pub open spec fn wf(&self) -> bool {
        tables_wf(self.vars(), self.singles(), self.arrays(), self.refs())
    }

    /// A builder with no variable.
    pub fn new() -> (r: VariableHandlerBuilder)
        ensures
            r.wf(),
            r.vars().len() == 0,
            r.singles().len() == 0,
            r.arrays().len() == 0,
            r.refs().len() == 0,
    {
        let r = VariableHandlerBuilder {
            id: fresh_process_id(),
            variables: Vec::new(),
            singles: Vec::new(),
            arrays: Vec::new(),
            refs: Vec::new(),
        };
        proof {
            assert(r.arrays() =~= Seq::<Seq<usize>>::empty());
            assert(r.refs() =~= Seq::<Seq<VarIndexType>>::empty());
        }
        r
    }

    /// The place that `view` designates exists in the builder.
    pub open spec fn places_valid(&self, view: VarView) -> bool {
        index_valid(self.singles(), self.arrays(), view.place())
    }

    /// The identifier that the next variable gets: the number of variables
    /// added so far.
    pub fn new_id(&self) -> (r: usize)
        ensures
            r == self.vars().len(),
    {
        self.variables.len()
    }

    /// Adds a standalone variable and returns its view.
    pub fn add(&mut self, x: IntVarValuesBuilder) -> (r: VarView)
        requires
            old(self).wf(),
            sorted_builder(x),
        ensures
            final(self).wf(),
            r.place() == VarIndexType::FromVar(old(self).singles().len() as usize),
            final(self).vars().len() == old(self).vars().len() + 1,
            final(self).vars().subrange(0, old(self).vars().len() as int) == old(self).vars(),
            final(self).vars().last()@ == x@,
            final(self).singles() == old(self).singles().push(old(self).vars().len() as usize),
            final(self).arrays() == old(self).arrays(),
            final(self).refs() == old(self).refs(),
    {
        let view = VarView::new(self.id, self.singles.len());
        let id = self.new_id();
        let var = x.finalize(id);
        let ghost old_refs = self.refs();
        let ghost old_arrays = self.arrays();
        self.variables.push(var);
        self.singles.push(id);
        proof {
            assert(self.vars().subrange(0, old(self).vars().len() as int) =~= old(self).vars());
            assert(self.arrays() =~= old_arrays);
            assert(self.refs() =~= old_refs);
            self.lemma_grow_keeps_refs(old(self).singles(), old(self).arrays());
        }
        view
    }

    proof fn lemma_grow_keeps_refs(&self, singles: Seq<usize>, arrays: Seq<Seq<usize>>)
        requires
            forall|i: int| 0 <= i < singles.len() ==> #[trigger] self.singles()[i] == singles[i],
            singles.len() <= self.singles().len(),
            arrays.len() <= self.arrays().len(),
            forall|i: int|
                0 <= i < arrays.len() ==> #[trigger] self.arrays()[i] == arrays[i],
            forall|i: int, j: int|
                0 <= i < self.refs().len() && 0 <= j < self.refs()[i].len() ==> index_valid(
                    singles,
                    arrays,
                    #[trigger] self.refs()[i][j],
                ),
        ensures
            forall|i: int, j: int|
                0 <= i < self.refs().len() && 0 <= j < self.refs()[i].len() ==> index_valid(
                    self.singles(),
                    self.arrays(),
                    #[trigger] self.refs()[i][j],
                ),
    {
    }

    /// Adds an array of variables and returns its view.
    pub fn add_array(&mut self, x: ArrayOfVarsBuilder) -> (r: ArrayOfVarsView)
        requires
            old(self).wf(),
            forall|i: int| 0 <= i < x@.len() ==> super::sorted::sorted(#[trigger] x@[i]),
        ensures
            final(self).wf(),
            r.spec_idx() == old(self).arrays().len(),
            final(self).vars().len() == old(self).vars().len() + x@.len(),
            final(self).vars().subrange(0, old(self).vars().len() as int) == old(self).vars(),
            forall|i: int|
                0 <= i < x@.len() ==> (#[trigger] final(self).vars()[old(self).vars().len() + i])@
                    == x@[i],
            final(self).singles() == old(self).singles(),
            final(self).arrays().len() == old(self).arrays().len() + 1,
            final(self).arrays().subrange(0, old(self).arrays().len() as int) == old(self).arrays(),
            forall|j: int|
                0 <= j < x@.len() ==> #[trigger] final(self).arrays().last()[j] == old(
                    self,
                ).vars().len() + j,
            final(self).arrays().last().len() == x@.len(),
            final(self).refs() == old(self).refs(),
    {
        let view = ArrayOfVarsView::new(self.id, self.arrays.len());
        let builders = x.into_iter();
        let ghost n0 = self.variables@.len();
        let mut indexes: Vec<usize> = Vec::new();
        let mut i: usize = 0;
        while i < builders.len()
            invariant
                i <= builders@.len(),
                builders@.len() == x@.len(),
                forall|k: int| 0 <= k < builders@.len() ==> (#[trigger] builders@[k])@ == x@[k],
                forall|k: int| 0 <= k < x@.len() ==> super::sorted::sorted(#[trigger] x@[k]),
                self.variables@.len() == n0 + i,
                self.variables@.subrange(0, n0 as int) == old(self).vars(),
                forall|k: int| 0 <= k < i ==> (#[trigger] self.variables@[n0 + k])@ == x@[k],
                forall|k: int|
                    0 <= k < self.variables@.len() ==> (#[trigger] self.variables@[k]).wf()
                        && self.variables@[k].spec_id() == k,
                indexes@.len() == i,
                forall|k: int| 0 <= k < i ==> #[trigger] indexes@[k] == n0 + k,
                self.singles@ == old(self).singles(),
                self.arrays@ == old(self).arrays@,
                self.refs@ == old(self).refs@,
                old(self).wf(),
                n0 == old(self).vars().len(),
            decreases builders@.len() - i,
        {
            let id = self.new_id();
            let var = builders[i].duplicate().finalize(id);
            self.variables.push(var);
            indexes.push(id);
            proof {
                assert(self.variables@.subrange(0, n0 as int) =~= old(self).vars());
            }
            i = i + 1;
        }
        let ghost old_arrays = self.arrays();
        self.arrays.push(indexes);
        proof {
            assert(self.arrays() =~= old(self).arrays().push(indexes@));
            assert(self.refs() =~= old(self).refs());
            assert(self.vars().subrange(0, n0 as int) == old(self).vars());
            assert forall|k: int| 0 <= k < n0 implies #[trigger] self.vars()[k] == old(self).vars()[k] by {
                assert(self.vars().subrange(0, n0 as int)[k] == self.vars()[k]);
            }
            assert(self.arrays().subrange(0, old(self).arrays().len() as int) =~= old(self).arrays());
            self.lemma_grow_keeps_refs(old(self).singles(), old(self).arrays());
        }
        view
    }

    /// Adds an array of references to variables already added, and returns
    /// its view.
    pub fn add_refs(&mut self, x: Vec<VarView>) -> (r: ArrayOfRefsView)
        requires
            old(self).wf(),
            forall|i: int|
                0 <= i < x@.len() ==> index_valid(
                    old(self).singles(),
                    old(self).arrays(),
                    #[trigger] x@[i].place(),
                ),
        ensures
            final(self).wf(),
            r.spec_idx() == old(self).refs().len(),
            final(self).vars() == old(self).vars(),
            final(self).singles() == old(self).singles(),
            final(self).arrays() == old(self).arrays(),
            final(self).refs().len() == old(self).refs().len() + 1,
            final(self).refs().subrange(0, old(self).refs().len() as int) == old(self).refs(),
            final(self).refs().last().len() == x@.len(),
            forall|j: int| 0 <= j < x@.len() ==> #[trigger] final(self).refs().last()[j] == x@[j].place(),
    {
        let view = ArrayOfRefsView::new(self.id, self.refs.len());
        let mut places: Vec<VarIndexType> = Vec::new();
        let mut i: usize = 0;
        while i < x.len()
            invariant
                i <= x@.len(),
                places@.len() == i,
                forall|k: int| 0 <= k < i ==> #[trigger] places@[k] == x@[k].place(),
            decreases x@.len() - i,
        {
            places.push(x[i].view);
            i = i + 1;
        }
        self.refs.push(places);
        proof {
            assert(self.refs() =~= old(self).refs().push(places@));
            assert(self.arrays() =~= old(self).arrays());
            assert(self.refs().subrange(0, old(self).refs().len() as int) =~= old(self).refs());
        }
        view
    }

    /// The handler holding the variables added.
    pub fn finalize(self) -> (r: VariableHandler)
        requires
            self.wf(),
        ensures
            r.wf(),
            r.vars() == self.vars(),
            r.singles() == self.singles(),
            r.arrays() == self.arrays(),
            r.refs() == self.refs(),
    {
        VariableHandler {
            id: self.id,
            variables: self.variables,
            singles: self.singles,
            arrays: self.arrays,
            refs: self.refs,
        }
    }
}

/// The domain of a builder is in canonical form.
pub open spec fn sorted_builder(x: IntVarValuesBuilder) -> bool {
    super::sorted::sorted(x@)
}


/// The total number of values in the domains of `vars`.
pub open spec fn total_size(vars: Seq<IntVarValues>) -> nat
    decreases vars.len(),
{
    if vars.len() == 0 {
        0
    } else {
        total_size(vars.drop_last()) + vars.last()@.len()
    }
}

/// Replacing one variable by another changes the total size by the
/// difference of their domain sizes.
pub proof fn lemma_total_size_update(vars: Seq<IntVarValues>, i: int, v: IntVarValues)
    requires
        0 <= i < vars.len(),
    ensures
        total_size(vars.update(i, v)) + vars[i]@.len() == total_size(vars) + v@.len(),
    decreases vars.len(),
{
    if i == vars.len() - 1 {
        assert(vars.update(i, v).drop_last() =~= vars.drop_last());
    } else {
        lemma_total_size_update(vars.drop_last(), i, v);
        assert(vars.update(i, v).drop_last() =~= vars.drop_last().update(i, v));
    }
}

impl VariableHandler {
    /// All the variables, in the order in which they were added.
    pub closed spec fn vars(&self) -> Seq<IntVarValues> {
        self.variables@
    }

    /// The positions of the standalone variables.
    pub closed spec fn singles(&self) -> Seq<usize> {
        self.singles@
    }

    /// The positions of the elements of each array.
    pub closed spec fn arrays(&self) -> Seq<Seq<usize>> {
        table_view(self.arrays@)
    }

    /// The places of the elements of each array of references.
    pub closed spec fn refs(&self) -> Seq<Seq<VarIndexType>> {
        refs_view(self.refs@)
    }

    /// The handler is consistent.
    pub open spec fn wf(&self) -> bool {
        tables_wf(self.vars(), self.singles(), self.arrays(), self.refs())
    }

    /// Whether the place `v` exists in the handler.
    pub open spec fn valid(&self, v: VarIndexType) -> bool {
        index_valid(self.singles(), self.arrays(), v)
    }

    /// The position of the variable at place `v`.
    pub open spec fn spec_index(&self, v: VarIndexType) -> int {
        index_of(self.singles(), self.arrays(), v)
    }

    /// Two handlers with the same tables locate the same variables.
    pub open spec fn same_tables(&self, other: &VariableHandler) -> bool {
        &&& self.singles() == other.singles()
        &&& self.arrays() == other.arrays()
        &&& self.refs() == other.refs()
        &&& self.vars().len() == other.vars().len()
    }

    /// The position of the variable at place `v`.
    pub fn index(&self, v: &VarIndexType) -> (r: usize)
        requires
            self.wf(),
            self.valid(*v),
        ensures
            r == self.spec_index(*v),
            r < self.vars().len(),
    {
        match *v {
            VarIndexType::FromVar(x) => self.singles[x],
            VarIndexType::FromArrayOfVars(x, y) => {
                proof {
                    assert(self.arrays()[x as int] == self.arrays@[x as int]@);
                }
                self.arrays[x][y]
            },
        }
    }

    /// The variable that `view` designates.
    pub fn get(&self, view: &VarView) -> (r: &IntVarValues)
        requires
            self.wf(),
            self.valid(view.place()),
        ensures
            *r == self.vars()[self.spec_index(view.place())],
    {
        let i = self.index(&view.view);
        &self.variables[i]
    }

    /// The variable at place `v`.
    pub fn get_at(&self, v: &VarIndexType) -> (r: &IntVarValues)
        requires
            self.wf(),
            self.valid(*v),
        ensures
            *r == self.vars()[self.spec_index(*v)],
    {
        let i = self.index(v);
        &self.variables[i]
    }

    /// A mutable reference to the variable that `view` designates. The
    /// tables are left as they were.
    pub fn get_mut(&mut self, view: &VarView) -> (r: &mut IntVarValues)
        requires
            old(self).wf(),
            old(self).valid(view.place()),
        ensures
            *r == old(self).vars()[old(self).spec_index(view.place())],
            final(self).vars() == old(self).vars().update(
                old(self).spec_index(view.place()),
                *final(r),
            ),
            final(self).singles() == old(self).singles(),
            final(self).arrays() == old(self).arrays(),
            final(self).refs() == old(self).refs(),
    {
        let i = self.index(&view.view);
        &mut self.variables[i]
    }

    /// A mutable reference to the `i`-th variable. The tables are left as
    /// they were.
    pub fn var_at_mut(&mut self, i: usize) -> (r: &mut IntVarValues)
        requires
            i < old(self).vars().len(),
        ensures
            *r == old(self).vars()[i as int],
            final(self).vars() == old(self).vars().update(i as int, *final(r)),
            final(self).singles() == old(self).singles(),
            final(self).arrays() == old(self).arrays(),
            final(self).refs() == old(self).refs(),
    {
        &mut self.variables[i]
    }

    /// The `i`-th variable.
    pub fn var_at(&self, i: usize) -> (r: &IntVarValues)
        requires
            i < self.vars().len(),
        ensures
            *r == self.vars()[i as int],
    {
        &self.variables[i]
    }

    /// The number of variables.
    pub fn num_vars(&self) -> (r: usize)
        ensures
            r == self.vars().len(),
    {
        self.variables.len()
    }

    /// The number of elements of the `x`-th array.
    pub fn array_len(&self, x: usize) -> (r: usize)
        requires
            x < self.arrays().len(),
        ensures
            r == self.arrays()[x as int].len(),
    {
        proof {
            assert(self.arrays()[x as int] == self.arrays@[x as int]@);
        }
        self.arrays[x].len()
    }

    /// The position, among all variables, of the `y`-th element of the
    /// `x`-th array.
    pub fn array_index(&self, x: usize, y: usize) -> (r: usize)
        requires
            self.wf(),
            x < self.arrays().len(),
            y < self.arrays()[x as int].len(),
        ensures
            r == self.arrays()[x as int][y as int],
            r < self.vars().len(),
    {
        proof {
            assert(self.arrays()[x as int] == self.arrays@[x as int]@);
        }
        self.arrays[x][y]
    }

    /// The number of elements of the `x`-th array of references.
    pub fn refs_len(&self, x: usize) -> (r: usize)
        requires
            x < self.refs().len(),
        ensures
            r == self.refs()[x as int].len(),
    {
        proof {
            assert(self.refs()[x as int] == self.refs@[x as int]@);
        }
        self.refs[x].len()
    }

    /// The place of the `y`-th element of the `x`-th array of references.
    pub fn ref_place(&self, x: usize, y: usize) -> (r: VarIndexType)
        requires
            x < self.refs().len(),
            y < self.refs()[x as int].len(),
        ensures
            r == self.refs()[x as int][y as int],
    {
        proof {
            assert(self.refs()[x as int] == self.refs@[x as int]@);
        }
        self.refs[x][y]
    }

    /// Takes the `i`-th variable out, leaving in its place an empty variable
    /// with the same identifier.
    pub fn take(&mut self, i: usize) -> (r: IntVarValues)
        requires
            old(self).wf(),
            i < old(self).vars().len(),
        ensures
            final(self).wf(),
            final(self).same_tables(old(self)),
            r == old(self).vars()[i as int],
            final(self).vars() == old(self).vars().update(i as int, final(self).vars()[i as int]),
            final(self).vars()[i as int]@.len() == 0,
            final(self).vars()[i as int].spec_id() == i,
    {
        let mut hole = IntVarValues::empty_with_id(i);
        let ghost old_vars = self.variables@;
        std::mem::swap(&mut self.variables[i], &mut hole);
        proof {
            assert(self.vars() == old_vars.update(i as int, self.vars()[i as int]));
            super::sorted::lemma_empty_sorted();
        }
        hole
    }

    /// Puts back a variable at position `i`.
    pub fn put(&mut self, i: usize, var: IntVarValues)
        requires
            old(self).wf(),
            i < old(self).vars().len(),
            var.wf(),
            var.spec_id() == i,
        ensures
            final(self).wf(),
            final(self).same_tables(old(self)),
            final(self).vars() == old(self).vars().update(i as int, var),
    {
        let mut v = var;
        std::mem::swap(&mut self.variables[i], &mut v);
    }

    /// A copy of the handler.
    pub fn duplicate(&self) -> (r: VariableHandler)
        ensures
            r.vars().len() == self.vars().len(),
            forall|i: int| 0 <= i < self.vars().len() ==> (#[trigger] r.vars()[i])@ == self.vars()[i]@
                && r.vars()[i].spec_id() == self.vars()[i].spec_id(),
            r.singles() == self.singles(),
            r.arrays() == self.arrays(),
            r.refs() == self.refs(),
            self.wf() ==> r.wf(),
    {
        let mut vars: Vec<IntVarValues> = Vec::new();
        let mut i: usize = 0;
        while i < self.variables.len()
            invariant
                i <= self.variables@.len(),
                vars@.len() == i,
                forall|k: int| 0 <= k < i ==> (#[trigger] vars@[k])@ == self.variables@[k]@
                    && vars@[k].spec_id() == self.variables@[k].spec_id(),
            decreases self.variables@.len() - i,
        {
            vars.push(self.variables[i].duplicate());
            i = i + 1;
        }
        let mut singles: Vec<usize> = Vec::new();
        let mut i: usize = 0;
        while i < self.singles.len()
            invariant
                i <= self.singles@.len(),
                singles@ == self.singles@.subrange(0, i as int),
            decreases self.singles@.len() - i,
        {
            singles.push(self.singles[i]);
            i = i + 1;
            proof {
                assert(singles@ =~= self.singles@.subrange(0, i as int));
            }
        }
        let mut arrays: Vec<Vec<usize>> = Vec::new();
        let mut i: usize = 0;
        while i < self.arrays.len()
            invariant
                i <= self.arrays@.len(),
                arrays@.len() == i,
                forall|k: int| 0 <= k < i ==> (#[trigger] arrays@[k])@ == self.arrays@[k]@,
            decreases self.arrays@.len() - i,
        {
            arrays.push(copy_indexes(&self.arrays[i]));
            i = i + 1;
        }
        let mut refs: Vec<Vec<VarIndexType>> = Vec::new();
        let mut i: usize = 0;
        while i < self.refs.len()
            invariant
                i <= self.refs@.len(),
                refs@.len() == i,
                forall|k: int| 0 <= k < i ==> (#[trigger] refs@[k])@ == self.refs@[k]@,
            decreases self.refs@.len() - i,
        {
            refs.push(copy_places(&self.refs[i]));
            i = i + 1;
        }
        let r = VariableHandler { id: self.id, variables: vars, singles: singles, arrays: arrays, refs: refs };
        proof {
            assert(singles@ =~= self.singles@.subrange(0, self.singles@.len() as int));
            assert(r.singles() =~= self.singles());
            assert(r.arrays() =~= self.arrays());
            assert(r.refs() =~= self.refs());
        }
        r
    }
}

fn copy_indexes(v: &Vec<usize>) -> (r: Vec<usize>)
    ensures
        r@ == v@,
{
    let mut r: Vec<usize> = Vec::new();
    let mut i: usize = 0;
    while i < v.len()
        invariant
            i <= v@.len(),
            r@ == v@.subrange(0, i as int),
        decreases v@.len() - i,
    {
        r.push(v[i]);
        i = i + 1;
        proof {
            assert(r@ =~= v@.subrange(0, i as int));
        }
    }
    proof {
        assert(v@.subrange(0, v@.len() as int) =~= v@);
    }
    r
}

fn copy_places(v: &Vec<VarIndexType>) -> (r: Vec<VarIndexType>)
    ensures
        r@ == v@,
{
    let mut r: Vec<VarIndexType> = Vec::new();
    let mut i: usize = 0;
    while i < v.len()
        invariant
            i <= v@.len(),
            r@ == v@.subrange(0, i as int),
        decreases v@.len() - i,
    {
        r.push(v[i]);
        i = i + 1;
        proof {
            assert(r@ =~= v@.subrange(0, i as int));
        }
    }
    proof {
        assert(v@.subrange(0, v@.len() as int) =~= v@);
    }
    r
}
/// An array of references to variables held by a handler: the places of the
/// variables it refers to, in order.
#[derive(Clone, Debug)]
pub struct ArrayOfRefs {
    places: Vec<VarIndexType>,
}

impl View for ArrayOfRefs {
    type V = Seq<VarIndexType>;

    closed spec fn view(&self) -> Seq<VarIndexType> {
        self.places@
    }
}

impl ArrayOfRefs {
    /// The array referring to the variables at `variables`, in order.
    pub fn new(variables: Vec<VarIndexType>) -> (r: Option<ArrayOfRefs>)
        ensures
            r matches Some(a) && a@ == variables@,
    {
        Some(ArrayOfRefs { places: variables })
    }

    /// The number of references.
    pub fn len(&self) -> (r: usize)
        ensures
            r == self@.len(),
    {
        self.places.len()
    }

    /// The variable of `handler` that the `position`-th reference designates,
    /// or `None` when out of bounds.
    pub fn get<'a>(&self, handler: &'a VariableHandler, position: usize) -> (r: Option<&'a IntVarValues>)
        requires
            handler.wf(),
            forall|i: int| 0 <= i < self@.len() ==> handler.valid(#[trigger] self@[i]),
        ensures
            position < self@.len() ==> r == Some(
                &handler.vars()[handler.spec_index(self@[position as int])],
            ),
            position >= self@.len() ==> r is None,
    {
        if position < self.places.len() {
            proof {
                assert(handler.valid(self@[position as int]));
            }
            Some(handler.get_at(&self.places[position]))
        } else {
            None
        }
    }

    /// A mutable reference to the variable of `handler` that the
    /// `position`-th reference designates, or `None` when out of bounds.
    pub fn get_mut<'a>(&self, handler: &'a mut VariableHandler, position: usize) -> (r: Option<&'a mut IntVarValues>)
        requires
            old(handler).wf(),
            forall|i: int| 0 <= i < self@.len() ==> old(handler).valid(#[trigger] self@[i]),
        ensures
            position < self@.len() ==> r is Some && *r->0 == old(handler).vars()[old(handler).spec_index(
                self@[position as int],
            )] && final(handler).vars() == old(handler).vars().update(
                old(handler).spec_index(self@[position as int]),
                *final(r->0),
            ) && final(handler).singles() == old(handler).singles() && final(handler).arrays()
                == old(handler).arrays() && final(handler).refs() == old(handler).refs(),
            position >= self@.len() ==> r is None && *final(handler) == *old(handler),
    {
        if position < self.places.len() {
            proof {
                assert(handler.valid(self@[position as int]));
            }
            let i = handler.index(&self.places[position]);
            Some(handler.var_at_mut(i))
        } else {
            None
        }
    }
}

} // verus!
