use vstd::prelude::*;

use crate::variables::{state_subsumed, VariableId, VariableState};

verus! {

/// Subsumption between values: `a.is_subsumed_under(b)` when `b` is enough
/// to trigger what waits on `a`.
pub trait Subsumed {
    spec fn spec_subsumed(&self, val: &Self) -> bool;

    fn is_subsumed_under(&self, val: &Self) -> (r: bool)
        ensures
            r == self.spec_subsumed(val),
    ;
}

impl Subsumed for VariableState {
    open spec fn spec_subsumed(&self, val: &Self) -> bool {
        state_subsumed(*self, *val)
    }

    fn is_subsumed_under(&self, val: &Self) -> (r: bool) {
        VariableState::is_subsumed_under(self, val)
    }
}

/// A change `event` of the node `src`, caused by the node `from`.
#[derive(Clone, Copy, Debug, PartialEq, Eq, Structural)]
pub struct Event {
    pub src: VariableId,
    pub from: usize,
    pub event: VariableState,
}

impl Event {
    pub fn new(src: VariableId, from: usize, event: VariableState) -> (r: Event)
        ensures
            r == (Event { src, from, event }),
    {
        Event { src: src, from: from, event: event }
    }
}

impl Subsumed for Event {
    /// An event is subsumed under another of the same node whose change
    /// subsumes its own.
    open spec fn spec_subsumed(&self, val: &Self) -> bool {
        self.src == val.src && state_subsumed(self.event, val.event)
    }

    fn is_subsumed_under(&self, val: &Event) -> (r: bool) {
        self.src == val.src && self.event.is_subsumed_under(&val.event)
    }
}

/// An edge list: each entry is a source node, a label and the targets.
pub type EdgeList = Seq<(VariableId, VariableState, Seq<usize>)>;

/// The targets of the first entry of `edges` from the node of `e` whose
/// label is subsumed under the change of `e`.
pub open spec fn first_targets(edges: EdgeList, e: Event) -> Seq<usize>
    decreases edges.len(),
{
    if edges.len() == 0 {
        Seq::empty()
    } else if edges[0].0 == e.src && state_subsumed(edges[0].1, e.event) {
        edges[0].2
    } else {
        first_targets(edges.drop_first(), e)
    }
}

/// The nodes that one event wakes, except the node that caused it.
pub open spec fn woken(edges: EdgeList, e: Event) -> Set<usize> {
    first_targets(edges, e).to_set().remove(e.from)
}

/// Records that `src` woke each node of `ts`.
pub open spec fn wake(m: Map<usize, Set<VariableId>>, ts: Set<usize>, src: VariableId) -> Map<
    usize,
    Set<VariableId>,
> {
    Map::new(
        |n: usize| m.dom().contains(n) || ts.contains(n),
        |n: usize|
            if ts.contains(n) {
                if m.dom().contains(n) {
                    m[n].insert(src)
                } else {
                    set![src]
                }
            } else {
                m[n]
            },
    )
}

/// For each woken node, the nodes whose events woke it.
pub open spec fn triggered(edges: EdgeList, events: Seq<Event>) -> Map<usize, Set<VariableId>>
    decreases events.len(),
{
    if events.len() == 0 {
        Map::empty()
    } else {
        wake(triggered(edges, events.drop_last()), woken(edges, events.last()), events.last().src)
    }
}

/// `v` lists the map `m`: one entry per key, each with the elements of its
/// set, without repetition.
pub open spec fn lists(v: Seq<(usize, Seq<VariableId>)>, m: Map<usize, Set<VariableId>>) -> bool {
    &&& forall|k: int, l: int| 0 <= k < l < v.len() ==> v[k].0 != v[l].0
    &&& forall|n: usize| m.dom().contains(n) <==> exists|k: int| 0 <= k < v.len() && v[k].0 == n
    &&& forall|k: int|
        0 <= k < v.len() ==> (#[trigger] v[k]).1.no_duplicates() && v[k].1.to_set() == m[v[k].0]
}

/// The edge list after adding an edge `src -label-> dst`: the target joins
/// the entry of `(src, label)`, which is created at the end when missing.
pub open spec fn with_edge(edges: EdgeList, src: VariableId, label: VariableState, dst: usize) -> EdgeList {
    if exists|k: int| 0 <= k < edges.len() && edges[k].0 == src && edges[k].1 == label {
        let k = choose|k: int| 0 <= k < edges.len() && edges[k].0 == src && edges[k].1 == label;
        if edges[k].2.contains(dst) {
            edges
        } else {
            edges.update(k, (src, label, edges[k].2.push(dst)))
        }
    } else {
        edges.push((src, label, seq![dst]))
    }
}

/// `edges` link a change `label` of `src` to the node `dst`.
pub open spec fn linked(edges: EdgeList, src: VariableId, label: VariableState, dst: usize) -> bool {
    exists|m: int| 0 <= m < edges.len() && (#[trigger] edges[m]).0 == src && edges[m].1 == label && edges[m].2.contains(dst)
}

/// Adding an edge links exactly what was linked, and the new edge.
pub proof fn lemma_with_edge_links(
    edges: EdgeList,
    src: VariableId,
    label: VariableState,
    dst: usize,
    s2: VariableId,
    l2: VariableState,
    d2: usize,
)
    requires
        forall|a: int, b: int| 0 <= a < b < edges.len() ==> !(edges[a].0 == edges[b].0 && edges[a].1 == edges[b].1),
    ensures
        linked(with_edge(edges, src, label, dst), s2, l2, d2) <==> (linked(edges, s2, l2, d2) || (s2 == src
            && l2 == label && d2 == dst)),
{
    let e1 = with_edge(edges, src, label, dst);
    if exists|k: int| 0 <= k < edges.len() && edges[k].0 == src && edges[k].1 == label {
        let k = choose|k: int| 0 <= k < edges.len() && edges[k].0 == src && edges[k].1 == label;
        assert forall|l: int| 0 <= l < edges.len() && edges[l].0 == src && edges[l].1 == label implies l == k by {
            if l < k {
                assert(!(edges[l].0 == edges[k].0 && edges[l].1 == edges[k].1));
            } else if k < l {
                assert(!(edges[k].0 == edges[l].0 && edges[k].1 == edges[l].1));
            }
        }
        assert(e1 == (if edges[k].2.contains(dst) {
            edges
        } else {
            edges.update(k, (src, label, edges[k].2.push(dst)))
        }));
        if edges[k].2.contains(dst) {
            if s2 == src && l2 == label && d2 == dst {
                assert(edges[k].0 == src && edges[k].1 == label && edges[k].2.contains(dst));
            }
        } else {
            let t1 = edges[k].2.push(dst);
            assert(e1 == edges.update(k, (src, label, t1)));
            if linked(e1, s2, l2, d2) {
                let m = choose|m: int| 0 <= m < e1.len() && (#[trigger] e1[m]).0 == s2 && e1[m].1 == l2 && e1[m].2.contains(d2);
                if m != k {
                    assert(edges[m] == e1[m]);
                } else {
                    let i = choose|i: int| 0 <= i < t1.len() && t1[i] == d2;
                    if i < edges[k].2.len() {
                        assert(edges[k].2[i] == d2);
                        assert(edges[k].2.contains(d2));
                    }
                }
            }
            if linked(edges, s2, l2, d2) {
                let m = choose|m: int| 0 <= m < edges.len() && (#[trigger] edges[m]).0 == s2 && edges[m].1 == l2 && edges[m].2.contains(d2);
                if m != k {
                    assert(edges[m] == e1[m]);
                } else {
                    let i = choose|i: int| 0 <= i < edges[k].2.len() && edges[k].2[i] == d2;
                    assert(t1[i] == d2);
                }
                assert(e1[m].0 == s2 && e1[m].1 == l2 && e1[m].2.contains(d2));
            }
            if s2 == src && l2 == label && d2 == dst {
                assert(t1[t1.len() - 1] == dst);
                assert(e1[k].0 == src && e1[k].1 == label && e1[k].2.contains(dst));
            }
        }
    } else {
        assert(e1 == edges.push((src, label, seq![dst])));
        if linked(e1, s2, l2, d2) {
            let m = choose|m: int| 0 <= m < e1.len() && (#[trigger] e1[m]).0 == s2 && e1[m].1 == l2 && e1[m].2.contains(d2);
            if m < edges.len() {
                assert(edges[m] == e1[m]);
            } else {
                assert(seq![dst][0] == dst);
            }
        }
        if linked(edges, s2, l2, d2) {
            let m = choose|m: int| 0 <= m < edges.len() && (#[trigger] edges[m]).0 == s2 && edges[m].1 == l2 && edges[m].2.contains(d2);
            assert(e1[m] == edges[m]);
        }
        if s2 == src && l2 == label && d2 == dst {
            let m = edges.len() as int;
            assert(e1[m].2 == seq![dst]);
            assert(e1[m].2[0] == dst);
            assert(e1[m].0 == src && e1[m].1 == label && e1[m].2.contains(dst));
        }
    }
}

/// The pending events after adding `e`: it replaces the first pending event
/// subsumed under it, or else joins the end.
pub open spec fn with_event(events: Seq<Event>, e: Event) -> Seq<Event> {
    if exists|k: int| 0 <= k < events.len() && events[k].src == e.src && state_subsumed(
        events[k].event,
        e.event,
    ) {
        let k = choose|k: int|
            0 <= k < events.len() && events[k].src == e.src && state_subsumed(events[k].event, e.event)
                && forall|l: int|
                0 <= l < k ==> !(events[l].src == e.src && state_subsumed(events[l].event, e.event));
        events.update(k, e)
    } else {
        events.push(e)
    }
}

/// The event at `k` can be replaced by `e`.
pub open spec fn replaceable(events: Seq<Event>, e: Event, k: int) -> bool {
    0 <= k < events.len() && events[k].src == e.src && state_subsumed(events[k].event, e.event)
}

/// When some pending event can be replaced by `e`, a first one can.
proof fn lemma_first_replaceable(events: Seq<Event>, e: Event, j: int)
    requires
        replaceable(events, e, j),
    ensures
        exists|k: int|
            replaceable(events, e, k) && forall|l: int| 0 <= l < k ==> !#[trigger] replaceable(events, e, l),
    decreases j,
{
    if exists|l: int| 0 <= l < j && #[trigger] replaceable(events, e, l) {
        let l = choose|l: int| 0 <= l < j && #[trigger] replaceable(events, e, l);
        lemma_first_replaceable(events, e, l);
    } else {
        assert(forall|l: int| 0 <= l < j ==> !#[trigger] replaceable(events, e, l));
    }
}

/// The event at `k` is the first that can be replaced by `e`.
spec fn first_replaceable(events: Seq<Event>, e: Event, k: int) -> bool {
    0 <= k < events.len() && events[k].src == e.src && state_subsumed(events[k].event, e.event)
        && forall|l: int| 0 <= l < k ==> !(events[l].src == e.src && state_subsumed(events[l].event, e.event))
}

/// Adding the same event twice leaves the pending events as adding it once.
pub proof fn lemma_with_event_twice(events: Seq<Event>, e: Event)
    ensures
        with_event(with_event(events, e), e) == with_event(events, e),
{
    let e1 = with_event(events, e);
    assert(state_subsumed(e.event, e.event));
    if exists|k: int| 0 <= k < events.len() && events[k].src == e.src && state_subsumed(events[k].event, e.event) {
        let j = choose|k: int| 0 <= k < events.len() && events[k].src == e.src && state_subsumed(
            events[k].event,
            e.event,
        );
        assert(replaceable(events, e, j));
        lemma_first_replaceable(events, e, j);
        let k1 = choose|k: int|
            replaceable(events, e, k) && forall|l: int| 0 <= l < k ==> !#[trigger] replaceable(events, e, l);
        assert(first_replaceable(events, e, k1)) by {
            assert forall|l: int| 0 <= l < k1 implies !(events[l].src == e.src && state_subsumed(events[l].event, e.event)) by {
                assert(!replaceable(events, e, l));
            }
        }
        assert forall|l: int| #[trigger] first_replaceable(events, e, l) implies l == k1 by {
            if l < k1 {
                assert(!(events[l].src == e.src && state_subsumed(events[l].event, e.event)));
            } else if k1 < l {
                assert(!(events[k1].src == e.src && state_subsumed(events[k1].event, e.event)));
            }
        }
        let c = choose|k: int|
            0 <= k < events.len() && events[k].src == e.src && state_subsumed(events[k].event, e.event)
                && forall|l: int|
                0 <= l < k ==> !(events[l].src == e.src && state_subsumed(events[l].event, e.event));
        assert(first_replaceable(events, e, c));
        assert(c == k1);
        assert(e1 == events.update(k1, e));
        assert(first_replaceable(e1, e, k1)) by {
            assert forall|l: int| 0 <= l < k1 implies !(e1[l].src == e.src && state_subsumed(e1[l].event, e.event)) by {
                assert(e1[l] == events[l]);
            }
        }
        assert forall|l: int| #[trigger] first_replaceable(e1, e, l) implies l == k1 by {
            if l < k1 {
                assert(e1[l] == events[l]);
            } else if k1 < l {
                assert(!(e1[k1].src == e.src && state_subsumed(e1[k1].event, e.event)));
            }
        }
        let c2 = choose|k: int|
            0 <= k < e1.len() && e1[k].src == e.src && state_subsumed(e1[k].event, e.event)
                && forall|l: int| 0 <= l < k ==> !(e1[l].src == e.src && state_subsumed(e1[l].event, e.event));
        assert(first_replaceable(e1, e, c2));
        assert(c2 == k1);
        assert(e1.update(k1, e) =~= e1);
    } else {
        assert(e1 == events.push(e));
        let n = events.len() as int;
        assert(first_replaceable(e1, e, n)) by {
            assert forall|l: int| 0 <= l < n implies !(e1[l].src == e.src && state_subsumed(e1[l].event, e.event)) by {
                assert(e1[l] == events[l]);
            }
        }
        assert forall|l: int| #[trigger] first_replaceable(e1, e, l) implies l == n by {
            if l < n {
                assert(e1[l] == events[l]);
            }
        }
        let c2 = choose|k: int|
            0 <= k < e1.len() && e1[k].src == e.src && state_subsumed(e1[k].event, e.event)
                && forall|l: int| 0 <= l < k ==> !(e1[l].src == e.src && state_subsumed(e1[l].event, e.event));
        assert(first_replaceable(e1, e, c2));
        assert(c2 == n);
        assert(e1.update(n, e) =~= e1);
    }
}

/// Adding an event never shortens the pending events.
pub proof fn lemma_with_event_len(events: Seq<Event>, e: Event)
    ensures
        with_event(events, e).len() >= events.len(),
{
    if exists|k: int| 0 <= k < events.len() && events[k].src == e.src && state_subsumed(
        events[k].event,
        e.event,
    ) {
        let j = choose|k: int| 0 <= k < events.len() && events[k].src == e.src && state_subsumed(
            events[k].event,
            e.event,
        );
        assert(replaceable(events, e, j));
        lemma_first_replaceable(events, e, j);
        let m = choose|k: int|
            replaceable(events, e, k) && forall|l: int| 0 <= l < k ==> !#[trigger] replaceable(events, e, l);
        assert(0 <= m < events.len() && events[m].src == e.src && state_subsumed(events[m].event, e.event)
            && forall|l: int|
            0 <= l < m ==> !(events[l].src == e.src && state_subsumed(events[l].event, e.event))) by {
            assert forall|l: int| 0 <= l < m implies !(events[l].src == e.src && state_subsumed(events[l].event, e.event)) by {
                assert(!replaceable(events, e, l));
            }
        }
        let k = choose|k: int|
            0 <= k < events.len() && events[k].src == e.src && state_subsumed(events[k].event, e.event)
                && forall|l: int|
                0 <= l < k ==> !(events[l].src == e.src && state_subsumed(events[l].event, e.event));
        assert(with_event(events, e) == events.update(k, e));
    }
}

/// The pending events after adding, in order, one event from the constraint
/// `from` for each change `(variable, state)` of `changes`.
pub open spec fn with_events(events: Seq<Event>, changes: Seq<(VariableId, VariableState)>, from: usize) -> Seq<
    Event,
>
    decreases changes.len(),
{
    if changes.len() == 0 {
        events
    } else {
        with_event(
            with_events(events, changes.drop_last(), from),
            Event { src: changes.last().0, from: from, event: changes.last().1 },
        )
    }
}

/// A bipartite graph from variables to constraints, with edges labelled by
/// the change of the variable that wakes the constraint, and the events
/// pending on the variables.
#[derive(Clone, Debug)]
pub struct TwoNodesGraph {
    edges1: Vec<(VariableId, VariableState, Vec<usize>)>,
    edges2: Vec<(usize, VariableId)>,
    events: Vec<Event>,
}

/// The targets of an edge list, as sequences.
pub open spec fn edges_view(v: Seq<(VariableId, VariableState, Vec<usize>)>) -> EdgeList {
    v.map_values(|p: (VariableId, VariableState, Vec<usize>)| (p.0, p.1, p.2@))
}

impl TwoNodesGraph {
    /// The edges.
    pub closed spec fn edges(&self) -> EdgeList {
        edges_view(self.edges1@)
    }

    /// The pending events.
    pub closed spec fn pending(&self) -> Seq<Event> {
        self.events@
    }

    /// The pairs `(src, dst)` of the edges, whatever their label.
    pub closed spec fn reverse(&self) -> Seq<(usize, VariableId)> {
        self.edges2@
    }

    /// Each `(src, label)` has one entry.
    pub open spec fn unique(&self) -> bool {
        forall|k: int, l: int|
            0 <= k < l < self.edges().len() ==> !(self.edges()[k].0 == self.edges()[l].0
                && self.edges()[k].1 == self.edges()[l].1)
    }

    /// Each `(src, label)` has one entry, and every target is below `n`.
    pub open spec fn wf(&self, n: nat) -> bool {
        &&& self.unique()
        &&& forall|k: int, t: int|
            0 <= k < self.edges().len() && 0 <= t < self.edges()[k].2.len() ==> #[trigger] self.edges()[k].2[t]
                < n
    }

    /// A copy of the graph.
    pub fn duplicate(&self) -> (r: TwoNodesGraph)
        ensures
            r.edges() == self.edges(),
            r.pending() == self.pending(),
            r.reverse() == self.reverse(),
    {
        let mut edges1: Vec<(VariableId, VariableState, Vec<usize>)> = Vec::new();
        let mut i: usize = 0;
        while i < self.edges1.len()
            invariant
                i <= self.edges1@.len(),
                edges1@.len() == i,
                forall|k: int|
                    0 <= k < i ==> (#[trigger] edges1@[k]).0 == self.edges1@[k].0 && edges1@[k].1
                        == self.edges1@[k].1 && edges1@[k].2@ == self.edges1@[k].2@,
            decreases self.edges1@.len() - i,
        {
            let src = self.edges1[i].0;
            let label = self.edges1[i].1;
            let copy = crate::constraints::copy_vec(&self.edges1[i].2);
            edges1.push((src, label, copy));
            i = i + 1;
        }
        proof {
            assert(edges_view(edges1@) =~= edges_view(self.edges1@));
        }
        TwoNodesGraph {
            edges1: edges1,
            edges2: crate::constraints::copy_vec(&self.edges2),
            events: crate::constraints::copy_vec(&self.events),
        }
    }

    /// A graph with no edge and no event.
    pub fn new() -> (r: TwoNodesGraph)
        ensures
            r.edges().len() == 0,
            r.pending().len() == 0,
            r.reverse().len() == 0,
            r.wf(0),
    {
        let r = TwoNodesGraph { edges1: Vec::new(), edges2: Vec::new(), events: Vec::new() };
        proof {
            assert(r.edges() =~= Seq::<(VariableId, VariableState, Seq<usize>)>::empty());
        }
        r
    }
}


/// The entries of `v`, as sequences.
pub open spec fn nodes_view(v: Seq<(usize, Vec<VariableId>)>) -> Seq<(usize, Seq<VariableId>)> {
    v.map_values(|p: (usize, Vec<VariableId>)| (p.0, p.1@))
}

/// Whether `x` occurs in `v`.
fn contains_id(v: &Vec<VariableId>, x: VariableId) -> (r: bool)
    ensures
        r == v@.contains(x),
{
    let mut i: usize = 0;
    while i < v.len()
        invariant
            i <= v@.len(),
            forall|k: int| 0 <= k < i ==> v@[k] != x,
        decreases v@.len() - i,
    {
        if v[i] == x {
            proof {
                assert(v@[i as int] == x);
            }
            return true;
        }
        i = i + 1;
    }
    false
}

/// Whether `x` occurs in `v`.
fn contains_usize(v: &Vec<usize>, x: usize) -> (r: bool)
    ensures
        r == v@.contains(x),
{
    let mut i: usize = 0;
    while i < v.len()
        invariant
            i <= v@.len(),
            forall|k: int| 0 <= k < i ==> v@[k] != x,
        decreases v@.len() - i,
    {
        if v[i] == x {
            proof {
                assert(v@[i as int] == x);
            }
            return true;
        }
        i = i + 1;
    }
    false
}

/// Records in `nodes` that `src` woke `t`.
fn wake_one(nodes: &mut Vec<(usize, Vec<VariableId>)>, t: usize, src: VariableId)
    requires
        exists|m: Map<usize, Set<VariableId>>| lists(nodes_view(old(nodes)@), m),
    ensures
        forall|m: Map<usize, Set<VariableId>>|
            lists(nodes_view(old(nodes)@), m) ==> lists(nodes_view(final(nodes)@), wake(m, set![t], src)),
{
    let ghost v0 = nodes_view(nodes@);
    let mut k: usize = 0;
    while k < nodes.len()
        invariant
            k <= nodes@.len(),
            nodes_view(nodes@) == v0,
            forall|l: int| 0 <= l < k ==> nodes@[l].0 != t,
        ensures
            k <= nodes@.len(),
            nodes_view(nodes@) == v0,
            forall|l: int| 0 <= l < k ==> nodes@[l].0 != t,
            k < nodes@.len() ==> nodes@[k as int].0 == t,
        decreases nodes@.len() - k,
    {
        if nodes[k].0 == t {
            break ;
        }
        k = k + 1;
    }
    if k < nodes.len() {
        if !contains_id(&nodes[k].1, src) {
            let mut entry: (usize, Vec<VariableId>) = (t, Vec::new());
            std::mem::swap(&mut nodes[k], &mut entry);
            entry.1.push(src);
            std::mem::swap(&mut nodes[k], &mut entry);
        }
    } else {
        let mut v: Vec<VariableId> = Vec::new();
        v.push(src);
        nodes.push((t, v));
    }
    proof {
        assert forall|m: Map<usize, Set<VariableId>>|
            lists(v0, m) implies lists(nodes_view(nodes@), wake(m, set![t], src)) by {
            let v1 = nodes_view(nodes@);
            let w = wake(m, set![t], src);
            if k < v0.len() {
                assert(v0[k as int].0 == t);
                assert(m.dom().contains(t));
                assert forall|p: int| 0 <= p < v1.len() implies v1[p].0 == v0[p].0 by {
                }
                assert forall|l: int| 0 <= l < v1.len() implies (#[trigger] v1[l]).1.no_duplicates()
                    && v1[l].1.to_set() == w[v1[l].0] by {
                    if l == k {
                        if v0[l].1.contains(src) {
                            assert(v0[l].1.to_set().contains(src));
                            assert(v1[l].1.to_set() =~= w[v1[l].0]);
                        } else {
                            assert(v1[l].1 == v0[l].1.push(src));
                            assert(v1[l].1.to_set() =~= w[v1[l].0]) by {
                                assert forall|x: VariableId| v1[l].1.contains(x) <==> (v0[l].1.contains(x) || x == src) by {
                                    if v1[l].1.contains(x) {
                                        let q = choose|q: int| 0 <= q < v1[l].1.len() && v1[l].1[q] == x;
                                        if q < v0[l].1.len() {
                                            assert(v0[l].1[q] == x);
                                        }
                                    }
                                    if v0[l].1.contains(x) {
                                        let q = choose|q: int| 0 <= q < v0[l].1.len() && v0[l].1[q] == x;
                                        assert(v1[l].1[q] == x);
                                    }
                                    if x == src {
                                        assert(v1[l].1[v0[l].1.len() as int] == x);
                                    }
                                }
                            }
                            assert forall|p: int, q: int| 0 <= p < v1[l].1.len() && 0 <= q < v1[l].1.len() && p != q implies v1[l].1[p] != v1[l].1[q] by {
                                if p == v0[l].1.len() {
                                    assert(v1[l].1[q] == v0[l].1[q]);
                                    assert(v0[l].1.contains(v0[l].1[q]));
                                } else if q == v0[l].1.len() {
                                    assert(v1[l].1[p] == v0[l].1[p]);
                                    assert(v0[l].1.contains(v0[l].1[p]));
                                } else {
                                    assert(v1[l].1[p] == v0[l].1[p]);
                                    assert(v1[l].1[q] == v0[l].1[q]);
                                }
                            }
                        }
                    } else {
                        assert(v1[l] == v0[l]);
                        assert(v0[l].0 != t);
                        assert(w[v1[l].0] == m[v0[l].0]);
                    }
                }
                assert forall|n: usize| w.dom().contains(n) <==> exists|l: int| 0 <= l < v1.len() && v1[l].0 == n by {
                    if w.dom().contains(n) {
                        if n == t {
                            assert(v1[k as int].0 == n);
                        } else {
                            let l = choose|l: int| 0 <= l < v0.len() && v0[l].0 == n;
                            assert(v1[l].0 == n);
                        }
                    }
                    if exists|l: int| 0 <= l < v1.len() && v1[l].0 == n {
                        let l = choose|l: int| 0 <= l < v1.len() && v1[l].0 == n;
                        assert(v0[l].0 == n);
                    }
                }
            } else {
                assert(!m.dom().contains(t)) by {
                    if m.dom().contains(t) {
                        let l = choose|l: int| 0 <= l < v0.len() && v0[l].0 == t;
                        assert(nodes@[l].0 != t);
                    }
                }
                assert(v1 == v0.push((t, seq![src])));
                assert forall|l: int| 0 <= l < v1.len() implies (#[trigger] v1[l]).1.no_duplicates()
                    && v1[l].1.to_set() == w[v1[l].0] by {
                    if l == v0.len() {
                        assert(v1[l].1 == seq![src]);
                        assert forall|x: VariableId| v1[l].1.to_set().contains(x) <==> x == src by {
                            if x == src {
                                assert(v1[l].1[0] == x);
                            }
                        }
                        assert(v1[l].1.to_set() =~= set![src]);
                    } else {
                        assert(v1[l] == v0[l]);
                        assert(v0[l].0 != t);
                    }
                }
                assert forall|n: usize| w.dom().contains(n) <==> exists|l: int| 0 <= l < v1.len() && v1[l].0 == n by {
                    if w.dom().contains(n) {
                        if n == t {
                            assert(v1[v0.len() as int].0 == n);
                        } else {
                            let l = choose|l: int| 0 <= l < v0.len() && v0[l].0 == n;
                            assert(v1[l].0 == n);
                        }
                    }
                    if exists|l: int| 0 <= l < v1.len() && v1[l].0 == n {
                        let l = choose|l: int| 0 <= l < v1.len() && v1[l].0 == n;
                        if l < v0.len() {
                            assert(v0[l].0 == n);
                        }
                    }
                }
                assert forall|p: int, q: int| 0 <= p < q < v1.len() implies v1[p].0 != v1[q].0 by {
                    if q == v0.len() {
                        assert(nodes@[p].0 != t);
                    }
                }
            }
        }
    }
}

/// Waking nothing changes nothing.
pub proof fn lemma_wake_empty(m: Map<usize, Set<VariableId>>, src: VariableId)
    ensures
        wake(m, Set::empty(), src) == m,
{
    assert(wake(m, Set::empty(), src) =~= m);
}

/// Waking a set, then one more node, is waking the larger set.
pub proof fn lemma_wake_insert(m: Map<usize, Set<VariableId>>, ts: Set<usize>, t: usize, src: VariableId)
    ensures
        wake(wake(m, ts, src), set![t], src) == wake(m, ts.insert(t), src),
{
    let a = wake(wake(m, ts, src), set![t], src);
    let b = wake(m, ts.insert(t), src);
    assert forall|n: usize| a.dom().contains(n) implies a[n] == b[n] by {
        if n == t && ts.contains(n) {
            assert(a[n] =~= b[n]);
        }
    }
    assert(a =~= b);
}

impl TwoNodesGraph {
    /// Adds the edge `src -label-> dst`.
    pub fn insert_node1_to_node2(&mut self, src: VariableId, label: VariableState, dst: usize)
        requires
            old(self).unique(),
        ensures
            final(self).edges() == with_edge(old(self).edges(), src, label, dst),
            final(self).pending() == old(self).pending(),
            final(self).unique(),
            forall|n: nat| n > dst && old(self).wf(n) ==> final(self).wf(n),
    {
        let ghost e0 = self.edges();
        let mut k: usize = 0;
        while k < self.edges1.len()
            invariant
                k <= self.edges1@.len(),
                self.edges() == e0,
                forall|l: int| 0 <= l < k ==> !(e0[l].0 == src && e0[l].1 == label),
            ensures
                k <= self.edges1@.len(),
                self.edges() == e0,
                forall|l: int| 0 <= l < k ==> !(e0[l].0 == src && e0[l].1 == label),
                k < self.edges1@.len() ==> e0[k as int].0 == src && e0[k as int].1 == label,
            decreases self.edges1@.len() - k,
        {
            if self.edges1[k].0 == src && self.edges1[k].1 == label {
                break ;
            }
            k = k + 1;
        }
        if k < self.edges1.len() {
            proof {
                assert forall|l: int|
                    0 <= l < e0.len() && e0[l].0 == src && e0[l].1 == label implies l == k by {
                    if l != k {
                        if l < k {
                        }
                    }
                }
            }
            if !contains_usize(&self.edges1[k].2, dst) {
                let mut entry: (VariableId, VariableState, Vec<usize>) = (src, label, Vec::new());
                std::mem::swap(&mut self.edges1[k], &mut entry);
                entry.2.push(dst);
                std::mem::swap(&mut self.edges1[k], &mut entry);
                self.insert_reverse(dst, src);
                proof {
                    assert(self.edges() =~= e0.update(k as int, (src, label, e0[k as int].2.push(dst))));
                }
            }
        } else {
            let mut targets: Vec<usize> = Vec::new();
            targets.push(dst);
            self.edges1.push((src, label, targets));
            self.insert_reverse(dst, src);
            proof {
                assert(self.edges() =~= e0.push((src, label, seq![dst])));
            }
        }
        proof {
            let e1 = self.edges();
            assert forall|a: int, b: int| 0 <= a < b < e1.len() implies !(e1[a].0 == e1[b].0
                && e1[a].1 == e1[b].1) by {
                if b == e0.len() {
                    assert(!(e0[a].0 == src && e0[a].1 == label));
                }
            }
            assert forall|n: nat| n > dst && old(self).wf(n) implies self.wf(n) by {
                assert forall|a: int, b: int| 0 <= a < b < e1.len() implies !(e1[a].0 == e1[b].0
                    && e1[a].1 == e1[b].1) by {
                    if b == e0.len() {
                        assert(!(e0[a].0 == src && e0[a].1 == label));
                    }
                }
                assert forall|a: int, t: int|
                    0 <= a < e1.len() && 0 <= t < e1[a].2.len() implies #[trigger] e1[a].2[t] < n by {
                    if a < e0.len() && t < e0[a].2.len() {
                        assert(e1[a].2[t] == e0[a].2[t]);
                    }
                }
            }
        }
    }

    /// Records the pair `(dst, src)`, unless it is already there.
    fn insert_reverse(&mut self, dst: usize, src: VariableId)
        ensures
            final(self).edges() == old(self).edges(),
            final(self).pending() == old(self).pending(),
            final(self).reverse().contains((dst, src)),
    {
        let mut i: usize = 0;
        while i < self.edges2.len()
            invariant
                i <= self.edges2@.len(),
                forall|k: int| 0 <= k < i ==> self.edges2@[k] != (dst, src),
            decreases self.edges2@.len() - i,
        {
            if self.edges2[i].0 == dst && self.edges2[i].1 == src {
                proof {
                    assert(self.reverse()[i as int] == (dst, src));
                }
                return ;
            }
            i = i + 1;
        }
        self.edges2.push((dst, src));
        proof {
            assert(self.reverse()[self.reverse().len() - 1] == (dst, src));
        }
    }

    /// Records that `src` changed by `cause`, because of `from`: the new event
    /// replaces the first pending event of `src` subsumed under it, or else
    /// joins the pending events.
    pub fn add_event(&mut self, src: VariableId, from: usize, cause: VariableState)
        ensures
            final(self).edges() == old(self).edges(),
            final(self).pending() == with_event(old(self).pending(), Event { src: src, from: from, event: cause }),
    {
        let event = Event::new(src, from, cause);
        let ghost p0 = self.events@;
        let mut k: usize = 0;
        while k < self.events.len()
            invariant
                k <= self.events@.len(),
                self.events@ == p0,
                forall|l: int|
                    0 <= l < k ==> !(p0[l].src == src && state_subsumed(p0[l].event, cause)),
            ensures
                k <= self.events@.len(),
                self.events@ == p0,
                forall|l: int|
                    0 <= l < k ==> !(p0[l].src == src && state_subsumed(p0[l].event, cause)),
                k < self.events@.len() ==> p0[k as int].src == src && state_subsumed(
                    p0[k as int].event,
                    cause,
                ),
            decreases self.events@.len() - k,
        {
            if self.events[k].src == src && self.events[k].event.is_subsumed_under(&cause) {
                break ;
            }
            k = k + 1;
        }
        if k < self.events.len() {
            self.events.set(k, event);
            proof {
                let pick = choose|q: int|
                    0 <= q < p0.len() && p0[q].src == src && state_subsumed(p0[q].event, cause)
                        && forall|l: int|
                        0 <= l < q ==> !(p0[l].src == src && state_subsumed(p0[l].event, cause));
                assert(pick == k) by {
                    if pick < k {
                    } else if pick > k {
                        assert(!(p0[k as int].src == src && state_subsumed(p0[k as int].event, cause)));
                    }
                }
            }
        } else {
            self.events.push(event);
        }
    }

    /// The position of the first edge entry from the node of `e` whose label
    /// is subsumed under the change of `e`.
    fn find_first(&self, e: Event) -> (r: Option<usize>)
        ensures
            match r {
                Some(k) => k < self.edges().len() && first_targets(self.edges(), e)
                    == self.edges()[k as int].2,
                None => first_targets(self.edges(), e) == Seq::<usize>::empty(),
            },
    {
        let ghost es = self.edges();
        let mut k: usize = 0;
        proof {
            assert(es.skip(0) =~= es);
        }
        while k < self.edges1.len()
            invariant
                k <= self.edges1@.len(),
                es == self.edges(),
                first_targets(es, e) == first_targets(es.skip(k as int), e),
            decreases self.edges1@.len() - k,
        {
            if self.edges1[k].0 == e.src && self.edges1[k].1.is_subsumed_under(&e.event) {
                return Some(k);
            }
            proof {
                assert(es.skip(k as int).drop_first() =~= es.skip(k + 1));
            }
            k = k + 1;
        }
        proof {
            assert(es.skip(k as int) =~= Seq::<(VariableId, VariableState, Seq<usize>)>::empty());
        }
        None
    }

    /// Takes the pending events and returns, for each node of the second kind
    /// that they wake, the nodes of the first kind that woke it; `None` when
    /// none is woken.
    pub fn events(&mut self) -> (r: Option<Vec<(usize, Vec<VariableId>)>>)
        ensures
            final(self).edges() == old(self).edges(),
            final(self).pending().len() == 0,
            r is None <==> triggered(old(self).edges(), old(self).pending()).dom() == Set::<usize>::empty(),
            r matches Some(v) ==> lists(nodes_view(v@), triggered(old(self).edges(), old(self).pending())),
    {
        let ghost es = self.edges();
        let mut evs: Vec<Event> = Vec::new();
        std::mem::swap(&mut self.events, &mut evs);
        let mut nodes: Vec<(usize, Vec<VariableId>)> = Vec::new();
        proof {
            assert(evs@.take(0) =~= Seq::<Event>::empty());
            assert(lists(nodes_view(nodes@), Map::<usize, Set<VariableId>>::empty())) by {
                assert(nodes_view(nodes@) =~= Seq::<(usize, Seq<VariableId>)>::empty());
            }
        }
        let mut i: usize = 0;
        while i < evs.len()
            invariant
                i <= evs@.len(),
                es == self.edges(),
                self.events@.len() == 0,
                lists(nodes_view(nodes@), triggered(es, evs@.take(i as int))),
            decreases evs@.len() - i,
        {
            let e = evs[i];
            let ghost m = triggered(es, evs@.take(i as int));
            proof {
                assert(evs@.take(i + 1).drop_last() =~= evs@.take(i as int));
                assert(evs@.take(i + 1).last() == e);
            }
            match self.find_first(e) {
                Some(k) => {
                    let ghost ts = self.edges()[k as int].2;
                    let mut j: usize = 0;
                    proof {
                        assert(ts.take(0).to_set().remove(e.from) =~= Set::<usize>::empty());
                        lemma_wake_empty(m, e.src);
                    }
                    while j < self.edges1[k].2.len()
                        invariant
                            k < self.edges1@.len(),
                            es == self.edges(),
                            ts == es[k as int].2,
                            j <= ts.len(),
                            lists(nodes_view(nodes@), wake(m, ts.take(j as int).to_set().remove(e.from), e.src)),
                        decreases ts.len() - j,
                    {
                        let t = self.edges1[k].2[j];
                        let ghost before = ts.take(j as int).to_set().remove(e.from);
                        proof {
                            let n1: int = j + 1;
                            let n0: int = j as int;
                            let a = ts.take(n1);
                            let b = ts.take(n0);
                            assert(a =~= b.push(t));
                            assert forall|x: usize| a.contains(x) <==> b.to_set().insert(t).contains(x) by {
                                if a.contains(x) {
                                    let q = choose|q: int| 0 <= q < a.len() && a[q] == x;
                                    if q < n0 {
                                        assert(b[q] == x);
                                    }
                                }
                                if b.contains(x) {
                                    let q = choose|q: int| 0 <= q < b.len() && b[q] == x;
                                    assert(a[q] == x);
                                }
                                if x == t {
                                    assert(a[n0] == x);
                                }
                            }
                            assert(a.to_set() =~= b.to_set().insert(t));
                        }
                        if t != e.from {
                            wake_one(&mut nodes, t, e.src);
                            proof {
                                lemma_wake_insert(m, before, t, e.src);
                                assert(before.insert(t) =~= ts.take(j + 1).to_set().remove(e.from));
                            }
                        } else {
                            proof {
                                assert(before =~= ts.take(j + 1).to_set().remove(e.from));
                            }
                        }
                        j = j + 1;
                    }
                    proof {
                        assert(ts.take(ts.len() as int) =~= ts);
                    }
                },
                None => {
                    proof {
                        assert(woken(es, e) =~= Set::<usize>::empty());
                        lemma_wake_empty(m, e.src);
                    }
                },
            }
            i = i + 1;
        }
        proof {
            assert(evs@.take(evs@.len() as int) =~= evs@);
        }
        if nodes.len() == 0 {
            proof {
                let m = triggered(es, evs@);
                assert(m.dom() =~= Set::<usize>::empty());
            }
            None
        } else {
            proof {
                let m = triggered(es, evs@);
                assert(m.dom().contains(nodes_view(nodes@)[0].0));
            }
            Some(nodes)
        }
    }

    /// Every woken node is a target of some edge.
    pub proof fn lemma_triggered_below(&self, events: Seq<Event>, n: nat)
        requires
            self.wf(n),
        ensures
            forall|t: usize| #[trigger] triggered(self.edges(), events).dom().contains(t) ==> t < n,
        decreases events.len(),
    {
        if events.len() > 0 {
            self.lemma_triggered_below(events.drop_last(), n);
            self.lemma_first_targets_below(self.edges(), events.last(), n);
            let m = triggered(self.edges(), events.drop_last());
            let e = events.last();
            assert forall|t: usize| #[trigger] triggered(self.edges(), events).dom().contains(t) implies t < n by {
                if !m.dom().contains(t) {
                    assert(woken(self.edges(), e).contains(t));
                    assert(first_targets(self.edges(), e).contains(t));
                }
            }
        }
    }

    proof fn lemma_first_targets_below(&self, es: EdgeList, e: Event, n: nat)
        requires
            forall|k: int, t: int|
                0 <= k < es.len() && 0 <= t < es[k].2.len() ==> #[trigger] es[k].2[t] < n,
        ensures
            forall|t: usize| #[trigger] first_targets(es, e).contains(t) ==> t < n,
        decreases es.len(),
    {
        if es.len() > 0 {
            if !(es[0].0 == e.src && state_subsumed(es[0].1, e.event)) {
                let rest = es.drop_first();
                assert forall|k: int, t: int|
                    0 <= k < rest.len() && 0 <= t < rest[k].2.len() implies #[trigger] rest[k].2[t] < n by {
                    assert(rest[k] == es[k + 1]);
                }
                self.lemma_first_targets_below(rest, e, n);
                assert(first_targets(es, e) == first_targets(rest, e));
            } else {
                assert(first_targets(es, e) == es[0].2);
                assert forall|t: usize| #[trigger] first_targets(es, e).contains(t) implies t < n by {
                    let q = choose|q: int| 0 <= q < es[0].2.len() && es[0].2[q] == t;
                    assert(es[0].2[q] < n);
                }
            }
        }
    }
}
} // verus!
