use vstd::prelude::*;

use crate::event_graph::{
    count_above, is_next_key, lemma_count_above, links_out, merged, next_key, position_of,
    triggered_outs, visit_all, AdjacentListGraph, AdjacentListGraphBuilder, GraphBuilder,
    GraphEvent, GraphNode, HandlerOutput, HandlerOutputBuilder, InOutEventHandlerBuilder,
    InputEventHandler, LazyInputEventGraph, LazyInputEventGraphBuilder, LazyInputEventHandler,
    Mergeable, Nullable, OutCostEventLink, OutputEventHandler, VisitAllOutputsNode, VisitMut,
    VisitOutputsNode, EventLink, node_position, with_item, with_node,
};
use crate::graph::Subsumed;

verus! {

/// The output nodes of the sample graph.
#[derive(PartialEq, Eq, Structural, Hash, PartialOrd, Ord, Clone, Copy, Debug)]
pub struct OutNode {
    pub idx: usize,
}

/// The output events of the sample graph: bit sets.
#[derive(Clone, Copy, Debug)]
pub struct OutEvent {
    pub val: i32,
}

/// The input nodes of the first kind.
#[derive(PartialEq, Eq, Structural, Hash, PartialOrd, Ord, Clone, Copy, Debug)]
pub struct InNode1 {
    pub idx: usize,
}

/// The input events of the first kind: bit sets.
#[derive(Clone, Copy, Debug)]
pub struct InEvent1 {
    pub val: i32,
}

/// The input nodes of the second kind.
#[derive(PartialEq, Eq, Structural, Hash, PartialOrd, Ord, Clone, Copy, Debug)]
pub struct InNode2 {
    pub idx: usize,
}

/// The input events of the second kind: bit sets.
#[derive(Clone, Copy, Debug)]
pub struct InEvent2 {
    pub val: i32,
}

impl GraphNode for OutNode {
    open spec fn spec_key(&self) -> usize {
        self.idx
    }

    fn key(&self) -> (r: usize) {
        self.idx
    }

    proof fn lemma_key_injective(a: Self, b: Self) {
    }
}

impl GraphNode for InNode1 {
    open spec fn spec_key(&self) -> usize {
        self.idx
    }

    fn key(&self) -> (r: usize) {
        self.idx
    }

    proof fn lemma_key_injective(a: Self, b: Self) {
    }
}

impl GraphNode for InNode2 {
    open spec fn spec_key(&self) -> usize {
        self.idx
    }

    fn key(&self) -> (r: usize) {
        self.idx
    }

    proof fn lemma_key_injective(a: Self, b: Self) {
    }
}

impl Nullable for OutEvent {
    open spec fn spec_is_null(&self) -> bool {
        self.val == 0
    }

    open spec fn spec_null() -> Self {
        OutEvent { val: 0 }
    }

    fn is_null(&self) -> (r: bool) {
        self.val == 0
    }

    fn null() -> (r: Self) {
        OutEvent { val: 0 }
    }

    fn nullify(&mut self) -> (r: Self) {
        let prev = *self;
        *self = Self::null();
        prev
    }
}

impl Mergeable for OutEvent {
    open spec fn spec_merge(&self, rhs: Self) -> Self {
        OutEvent { val: self.val | rhs.val }
    }

    fn merge(&self, rhs: Self) -> (r: Self) {
        let ret = self.val | rhs.val;
        OutEvent { val: ret }
    }
}

impl Subsumed for OutEvent {
    open spec fn spec_subsumed(&self, val: &Self) -> bool {
        true
    }

    fn is_subsumed_under(&self, val: &Self) -> (r: bool) {
        true
    }
}

impl GraphEvent for OutEvent {}

impl Nullable for InEvent1 {
    open spec fn spec_is_null(&self) -> bool {
        self.val == 0
    }

    open spec fn spec_null() -> Self {
        InEvent1 { val: 0 }
    }

    fn is_null(&self) -> (r: bool) {
        self.val == 0
    }

    fn null() -> (r: Self) {
        InEvent1 { val: 0 }
    }

    fn nullify(&mut self) -> (r: Self) {
        let prev = *self;
        *self = Self::null();
        prev
    }
}

impl Mergeable for InEvent1 {
    open spec fn spec_merge(&self, rhs: Self) -> Self {
        InEvent1 { val: self.val | rhs.val }
    }

    fn merge(&self, rhs: Self) -> (r: Self) {
        let ret = self.val | rhs.val;
        InEvent1 { val: ret }
    }
}

impl Subsumed for InEvent1 {
    open spec fn spec_subsumed(&self, val: &Self) -> bool {
        true
    }

    fn is_subsumed_under(&self, val: &Self) -> (r: bool) {
        true
    }
}

impl GraphEvent for InEvent1 {}

impl Nullable for InEvent2 {
    open spec fn spec_is_null(&self) -> bool {
        self.val == 0
    }

    open spec fn spec_null() -> Self {
        InEvent2 { val: 0 }
    }

    fn is_null(&self) -> (r: bool) {
        self.val == 0
    }

    fn null() -> (r: Self) {
        InEvent2 { val: 0 }
    }

    fn nullify(&mut self) -> (r: Self) {
        let prev = *self;
        *self = Self::null();
        prev
    }
}

impl Mergeable for InEvent2 {
    open spec fn spec_merge(&self, rhs: Self) -> Self {
        InEvent2 { val: self.val | rhs.val }
    }

    fn merge(&self, rhs: Self) -> (r: Self) {
        let ret = self.val | rhs.val;
        InEvent2 { val: ret }
    }
}

impl Subsumed for InEvent2 {
    open spec fn spec_subsumed(&self, val: &Self) -> bool {
        true
    }

    fn is_subsumed_under(&self, val: &Self) -> (r: bool) {
        true
    }
}

impl GraphEvent for InEvent2 {}

/// Every link of `g` points to an output position below `n`.
pub open spec fn links_below<N: GraphNode, E: GraphEvent>(
    g: LazyInputEventGraph<N, E, OutCostEventLink<OutEvent>>,
    n: nat,
) -> bool {
    forall|i: int, j: int|
        0 <= i < g.spec_links().len() && 0 <= j < g.spec_links()[i].len() ==> #[trigger] g.spec_links()[i][j].out.idx
            < n
}

proof fn lemma_links_out_below<E: GraphEvent>(links: Seq<crate::event_graph::EventLink<E, OutCostEventLink<OutEvent>>>, ev: E, n: nat)
    requires
        forall|j: int| 0 <= j < links.len() ==> #[trigger] links[j].out.idx < n,
    ensures
        forall|k: int| 0 <= k < links_out(links, ev).len() ==> #[trigger] links_out(links, ev)[k].idx < n,
    decreases links.len(),
{
    if links.len() > 0 {
        lemma_links_out_below(links.drop_last(), ev, n);
        assert(links.last() == links[links.len() - 1]);
        let r = links_out(links.drop_last(), ev);
        assert forall|k: int| 0 <= k < links_out(links, ev).len() implies #[trigger] links_out(links, ev)[k].idx < n by {
            if k < r.len() {
                assert(links_out(links, ev)[k] == r[k]);
            }
        }
    }
}

/// The outputs that pending events of known nodes trigger point below `n`
/// when every link does.
proof fn lemma_triggered_below<N: GraphNode, E: GraphEvent>(
    g: LazyInputEventGraph<N, E, OutCostEventLink<OutEvent>>,
    events: Seq<(N, E)>,
    last: int,
    n: nat,
)
    requires
        g.wf(),
        links_below(g, n),
        forall|i: int| 0 <= i < events.len() ==> position_of(g.spec_nodes(), #[trigger] events[i].0.spec_key()) is Some,
    ensures
        forall|k: int| 0 <= k < triggered_outs(g, events, last).len() ==> #[trigger] triggered_outs(g, events, last)[k].idx
            < n,
    decreases count_above(events, last),
{
    match next_key(events, last) {
        None => {},
        Some(k) => {
            let kk = choose|k: usize| is_next_key(events, last, k);
            lemma_count_above(events, last, kk as int);
            lemma_triggered_below(g, events, k as int, n);
            let w = choose|w: int| 0 <= w < events.len() && (#[trigger] events[w]).0.spec_key() == k;
            assert(position_of(g.spec_nodes(), events[w].0.spec_key()) is Some);
            let p = position_of(g.spec_nodes(), k)->0;
            let c = choose|i: int| 0 <= i < g.spec_nodes().len() && g.spec_nodes()[i].spec_key() == k;
            assert(0 <= p < g.spec_links().len());
            lemma_links_out_below(g.spec_links()[p], merged(events, k, events.len() as int)->0, n);
            let a = g.outs_for(k, merged(events, k, events.len() as int)->0);
            let b = triggered_outs(g, events, k as int);
            assert forall|j: int| 0 <= j < (a + b).len() implies #[trigger] (a + b)[j].idx < n by {
                if j < a.len() {
                    assert((a + b)[j] == a[j]);
                } else {
                    assert((a + b)[j] == b[j - a.len()]);
                }
            }
        },
    }
}

/// The queue after the outputs `outs` are collected in order.
pub open spec fn collected_queue(q: Map<usize, i64>, outs: Seq<OutCostEventLink<OutEvent>>) -> Map<usize, i64>
    decreases outs.len(),
{
    if outs.len() == 0 {
        q
    } else {
        collected_queue(q, outs.drop_last()).insert(outs.last().idx, outs.last().cost)
    }
}

/// The pending output events after the outputs `outs` are collected in
/// order.
pub open spec fn collected_mode(m: Seq<OutEvent>, outs: Seq<OutCostEventLink<OutEvent>>) -> Seq<OutEvent>
    decreases outs.len(),
{
    if outs.len() == 0 {
        m
    } else {
        let m1 = collected_mode(m, outs.drop_last());
        m1.update(outs.last().idx as int, m1[outs.last().idx as int].spec_merge(outs.last().event))
    }
}

/// Collects the outputs `outs` into `out`.
fn collect_all(out: &mut HandlerOutput<OutNode, OutEvent>, outs: &Vec<OutCostEventLink<OutEvent>>)
    requires
        old(out).wf(),
        forall|k: int| 0 <= k < outs@.len() ==> #[trigger] outs@[k].idx < old(out).spec_outs().len(),
    ensures
        final(out).wf(),
        final(out).spec_outs() == old(out).spec_outs(),
        final(out).spec_queue() == collected_queue(old(out).spec_queue(), outs@),
        final(out).spec_mode() == collected_mode(old(out).spec_mode(), outs@),
{
    let ghost q0 = out.spec_queue();
    let ghost m0 = out.spec_mode();
    let mut t: usize = 0;
    while t < outs.len()
        invariant
            t <= outs@.len(),
            out.wf(),
            out.spec_outs() == old(out).spec_outs(),
            forall|k: int| 0 <= k < outs@.len() ==> #[trigger] outs@[k].idx < out.spec_outs().len(),
            out.spec_queue() == collected_queue(q0, outs@.take(t as int)),
            out.spec_mode() == collected_mode(m0, outs@.take(t as int)),
        decreases outs@.len() - t,
    {
        proof {
            assert(outs@.take(t + 1).drop_last() =~= outs@.take(t as int));
            assert(outs@.take(t + 1).last() == outs@[t as int]);
        }
        out.collect_out_event(&outs[t]);
        t = t + 1;
    }
    proof {
        assert(outs@.take(t as int) =~= outs@);
    }
}

/// Builds the sample graph, with two kinds of input nodes.
pub struct GraphNameBuilder {
    out: HandlerOutputBuilder<OutNode, OutEvent>,
    in1: LazyInputEventGraphBuilder<InNode1, InEvent1, OutCostEventLink<OutEvent>>,
    in2: LazyInputEventGraphBuilder<InNode2, InEvent2, OutCostEventLink<OutEvent>>,
    rev_in1: AdjacentListGraphBuilder<OutNode, InNode1>,
    rev_in2: AdjacentListGraphBuilder<OutNode, InNode2>,
}

/// The sample graph, with two kinds of input nodes.
pub struct GraphName {
    out: HandlerOutput<OutNode, OutEvent>,
    in1: LazyInputEventHandler<InNode1, InEvent1, OutCostEventLink<OutEvent>>,
    in2: LazyInputEventHandler<InNode2, InEvent2, OutCostEventLink<OutEvent>>,
    rev_in1: AdjacentListGraph<OutNode, InNode1>,
    rev_in2: AdjacentListGraph<OutNode, InNode2>,
}

impl GraphNameBuilder {
    /// The builder is consistent: each link points to a known output node.
    pub closed spec fn wf(&self) -> bool {
        &&& crate::event_graph::distinct_keys(self.out.spec_outs())
        &&& self.in1.wf()
        &&& self.in2.wf()
        &&& self.rev_in1.wf()
        &&& self.rev_in2.wf()
        &&& forall|i: int, j: int|
            0 <= i < self.in1.spec_links().len() && 0 <= j < self.in1.spec_links()[i].len()
                ==> #[trigger] self.in1.spec_links()[i][j].out.idx < self.out.spec_outs().len()
        &&& forall|i: int, j: int|
            0 <= i < self.in2.spec_links().len() && 0 <= j < self.in2.spec_links()[i].len()
                ==> #[trigger] self.in2.spec_links()[i][j].out.idx < self.out.spec_outs().len()
    }

    /// The output nodes.
    pub closed spec fn spec_outs(&self) -> Seq<OutNode> {
        self.out.spec_outs()
    }

    /// The input nodes of the first kind.
    pub closed spec fn spec_in1_nodes(&self) -> Seq<InNode1> {
        self.in1.spec_nodes()
    }

    /// The links of each input node of the first kind.
    pub closed spec fn spec_in1_links(&self) -> Seq<Seq<EventLink<InEvent1, OutCostEventLink<OutEvent>>>> {
        self.in1.spec_links()
    }

    /// The input nodes of the second kind.
    pub closed spec fn spec_in2_nodes(&self) -> Seq<InNode2> {
        self.in2.spec_nodes()
    }

    /// The links of each input node of the second kind.
    pub closed spec fn spec_in2_links(&self) -> Seq<Seq<EventLink<InEvent2, OutCostEventLink<OutEvent>>>> {
        self.in2.spec_links()
    }

    /// The output nodes linked from input nodes of the first kind.
    pub closed spec fn spec_rev1_srcs(&self) -> Seq<OutNode> {
        self.rev_in1.spec_srcs()
    }

    /// For each of them, the input nodes of the first kind linked to it.
    pub closed spec fn spec_rev1_ins(&self) -> Seq<Seq<InNode1>> {
        self.rev_in1.spec_ins()
    }

    /// The output nodes linked from input nodes of the second kind.
    pub closed spec fn spec_rev2_srcs(&self) -> Seq<OutNode> {
        self.rev_in2.spec_srcs()
    }

    /// For each of them, the input nodes of the second kind linked to it.
    pub closed spec fn spec_rev2_ins(&self) -> Seq<Seq<InNode2>> {
        self.rev_in2.spec_ins()
    }

    /// A builder with no link.
    pub fn new() -> (r: GraphNameBuilder)
        ensures
            r.wf(),
    {
        let r = GraphNameBuilder {
            in1: LazyInputEventHandler::builder(),
            in2: LazyInputEventHandler::builder(),
            rev_in1: AdjacentListGraph::builder(),
            rev_in2: AdjacentListGraph::builder(),
            out: HandlerOutput::builder(),
        };
        r
    }

    /// The graph, with no event pending.
    pub fn finalize(self) -> (r: GraphName)
        requires
            self.wf(),
        ensures
            r.wf(),
            r.ready(),
    {
        let r = GraphName {
            in1: LazyInputEventHandler::new(self.in1.finalize()),
            in2: LazyInputEventHandler::new(self.in2.finalize()),
            rev_in1: self.rev_in1.finalize(),
            rev_in2: self.rev_in2.finalize(),
            out: self.out.finalize(),
        };
        r
    }
}

impl InOutEventHandlerBuilder<OutNode, OutEvent, InNode1, InEvent1> for GraphNameBuilder {
    open spec fn io_builder_wf(&self) -> bool {
        self.wf()
    }

    fn add_event(
        &mut self,
        out_node: &OutNode,
        out_event: &OutEvent,
        in_node: &InNode1,
        in_event: &InEvent1,
        cost: i64,
    )
        ensures
            final(self).spec_outs() == with_node(old(self).spec_outs(), *out_node),
            final(self).spec_in1_nodes() == with_node(old(self).spec_in1_nodes(), *in_node),
            final(self).spec_in1_links() == with_item(
                old(self).spec_in1_nodes(),
                old(self).spec_in1_links(),
                *in_node,
                (EventLink {
                    in_event: *in_event,
                    out: (OutCostEventLink {
                        idx: node_position(old(self).spec_outs(), *out_node) as usize,
                        event: *out_event,
                        cost: cost,
                    }),
                }),
            ),
            final(self).spec_rev1_srcs() == with_node(old(self).spec_rev1_srcs(), *out_node),
            final(self).spec_rev1_ins() == with_item(old(self).spec_rev1_srcs(), old(self).spec_rev1_ins(), *out_node, *in_node),
            final(self).spec_in2_nodes() == old(self).spec_in2_nodes(),
            final(self).spec_in2_links() == old(self).spec_in2_links(),
            final(self).spec_rev2_srcs() == old(self).spec_rev2_srcs(),
            final(self).spec_rev2_ins() == old(self).spec_rev2_ins(),
    {
        let idx = self.out.add_node(*out_node);
        let out = OutCostEventLink::new(idx, *out_event, cost);
        let ghost l0 = self.in1.spec_links();
        self.in1.add_event(*in_node, *in_event, out);
        self.rev_in1.add_node(out_node, in_node);
        proof {
            assert forall|i: int, j: int|
                0 <= i < self.in1.spec_links().len() && 0 <= j < self.in1.spec_links()[i].len()
                    implies #[trigger] self.in1.spec_links()[i][j].out.idx < self.out.spec_outs().len() by {
                if i < l0.len() && j < l0[i].len() {
                    assert(self.in1.spec_links()[i][j] == l0[i][j]);
                }
            }
        }
    }
}

impl InOutEventHandlerBuilder<OutNode, OutEvent, InNode2, InEvent2> for GraphNameBuilder {
    open spec fn io_builder_wf(&self) -> bool {
        self.wf()
    }

    fn add_event(
        &mut self,
        out_node: &OutNode,
        out_event: &OutEvent,
        in_node: &InNode2,
        in_event: &InEvent2,
        cost: i64,
    )
        ensures
            final(self).spec_outs() == with_node(old(self).spec_outs(), *out_node),
            final(self).spec_in2_nodes() == with_node(old(self).spec_in2_nodes(), *in_node),
            final(self).spec_in2_links() == with_item(
                old(self).spec_in2_nodes(),
                old(self).spec_in2_links(),
                *in_node,
                (EventLink {
                    in_event: *in_event,
                    out: (OutCostEventLink {
                        idx: node_position(old(self).spec_outs(), *out_node) as usize,
                        event: *out_event,
                        cost: cost,
                    }),
                }),
            ),
            final(self).spec_rev2_srcs() == with_node(old(self).spec_rev2_srcs(), *out_node),
            final(self).spec_rev2_ins() == with_item(old(self).spec_rev2_srcs(), old(self).spec_rev2_ins(), *out_node, *in_node),
            final(self).spec_in1_nodes() == old(self).spec_in1_nodes(),
            final(self).spec_in1_links() == old(self).spec_in1_links(),
            final(self).spec_rev1_srcs() == old(self).spec_rev1_srcs(),
            final(self).spec_rev1_ins() == old(self).spec_rev1_ins(),
    {
        let idx = self.out.add_node(*out_node);
        let out = OutCostEventLink::new(idx, *out_event, cost);
        let ghost l0 = self.in2.spec_links();
        self.in2.add_event(*in_node, *in_event, out);
        self.rev_in2.add_node(out_node, in_node);
        proof {
            assert forall|i: int, j: int|
                0 <= i < self.in2.spec_links().len() && 0 <= j < self.in2.spec_links()[i].len()
                    implies #[trigger] self.in2.spec_links()[i][j].out.idx < self.out.spec_outs().len() by {
                if i < l0.len() && j < l0[i].len() {
                    assert(self.in2.spec_links()[i][j] == l0[i][j]);
                }
            }
        }
    }
}

impl GraphName {
    /// The graph is consistent: each link points to a known output node.
    pub closed spec fn wf(&self) -> bool {
        &&& self.out.wf()
        &&& self.in1.spec_graph().wf()
        &&& self.in2.spec_graph().wf()
        &&& links_below(self.in1.spec_graph(), self.out.spec_outs().len())
        &&& links_below(self.in2.spec_graph(), self.out.spec_outs().len())
    }

    /// Every pending input event is of a node of the graph.
    pub closed spec fn ready(&self) -> bool {
        self.in1.known() && self.in2.known()
    }

    /// What collecting the pending events puts in the queue.
    pub closed spec fn queue_after_collect(&self) -> Map<usize, i64> {
        collected_queue(
            collected_queue(
                self.out.spec_queue(),
                triggered_outs(self.in1.spec_graph(), self.in1.spec_events(), -1),
            ),
            triggered_outs(self.in2.spec_graph(), self.in2.spec_events(), -1),
        )
    }

    /// What collecting the pending events makes of the pending output
    /// events.
    pub closed spec fn mode_after_collect(&self) -> Seq<OutEvent> {
        collected_mode(
            collected_mode(
                self.out.spec_mode(),
                triggered_outs(self.in1.spec_graph(), self.in1.spec_events(), -1),
            ),
            triggered_outs(self.in2.spec_graph(), self.in2.spec_events(), -1),
        )
    }

    /// The input nodes of the first kind that a visit from `o` goes through.
    pub closed spec fn visited1(&self, o: OutNode) -> Seq<InNode1> {
        self.rev_in1.visited(o)
    }

    /// The input nodes of the second kind that a visit from `o` goes through.
    pub closed spec fn visited2(&self, o: OutNode) -> Seq<InNode2> {
        self.rev_in2.visited(o)
    }

    /// The output nodes.
    pub closed spec fn spec_outs(&self) -> Seq<OutNode> {
        self.out.spec_outs()
    }

    pub fn builder() -> (r: GraphNameBuilder)
        ensures
            r.wf(),
    {
        GraphNameBuilder::new()
    }
}

impl InputEventHandler<InNode1, InEvent1> for GraphName {
    fn notify(&mut self, in_node: &InNode1, in_event: &InEvent1) -> (r: bool) {
        if self.in1.notify(in_node, in_event) {
            true
        } else {
            false
        }
    }
}

impl InputEventHandler<InNode2, InEvent2> for GraphName {
    fn notify(&mut self, in_node: &InNode2, in_event: &InEvent2) -> (r: bool) {
        if self.in2.notify(in_node, in_event) {
            true
        } else {
            false
        }
    }
}

impl OutputEventHandler<OutNode, OutEvent> for GraphName {
    closed spec fn ready_to_collect(&self) -> bool {
        self.wf() && self.ready()
    }

    fn collect_and_pop(&mut self) -> (r: Option<(OutNode, OutEvent)>)
        ensures
            final(self).wf(),
            final(self).ready(),
            final(self).spec_outs() == old(self).spec_outs(),
            r is None <==> old(self).queue_after_collect().dom() =~= Set::<usize>::empty(),
            r is Some ==> exists|i: usize|
                {
                    &&& #[trigger] old(self).queue_after_collect().dom().contains(i)
                    &&& forall|j: usize| #[trigger] old(self).queue_after_collect().dom().contains(j)
                        ==> old(self).queue_after_collect()[j] <= old(self).queue_after_collect()[i]
                    &&& r == Some((old(self).spec_outs()[i as int], old(self).mode_after_collect()[i as int]))
                },
    {
        let outs1 = self.in1.trigger_events();
        let outs2 = self.in2.trigger_events();
        proof {
            lemma_triggered_below(old(self).in1.spec_graph(), old(self).in1.spec_events(), -1, self.out.spec_outs().len());
            lemma_triggered_below(old(self).in2.spec_graph(), old(self).in2.spec_events(), -1, self.out.spec_outs().len());
        }
        collect_all(&mut self.out, &outs1);
        collect_all(&mut self.out, &outs2);
        self.out.pop()
    }
}

impl VisitOutputsNode<OutNode, InNode1> for GraphName {
    closed spec fn visited(&self, out_node: OutNode) -> Seq<InNode1> {
        self.visited1(out_node)
    }

    closed spec fn can_visit(&self, out_node: OutNode) -> bool {
        self.rev_in1.can_visit(out_node)
    }

    fn visit_in_nodes<Visitor: VisitMut<InNode1>>(&self, out_node: &OutNode, visitor: &mut Visitor) {
        self.rev_in1.visit_in_nodes(out_node, visitor);
    }
}

impl VisitOutputsNode<OutNode, InNode2> for GraphName {
    closed spec fn visited(&self, out_node: OutNode) -> Seq<InNode2> {
        self.visited2(out_node)
    }

    closed spec fn can_visit(&self, out_node: OutNode) -> bool {
        self.rev_in2.can_visit(out_node)
    }

    fn visit_in_nodes<Visitor: VisitMut<InNode2>>(&self, out_node: &OutNode, visitor: &mut Visitor) {
        self.rev_in2.visit_in_nodes(out_node, visitor);
    }
}

impl<Visitor: VisitMut<InNode1> + VisitMut<InNode2>> VisitAllOutputsNode<OutNode, Visitor> for GraphName {
    closed spec fn can_visit_all(&self, out_node: OutNode) -> bool {
        self.rev_in1.can_visit(out_node) && self.rev_in2.can_visit(out_node)
    }

    fn visit_all_in_nodes(&self, out_node: &OutNode, visitor: &mut Visitor)
        ensures
            *final(visitor) == visit_all::<InNode2, Visitor>(
                visit_all::<InNode1, Visitor>(*old(visitor), self.visited1(*out_node)),
                self.visited2(*out_node),
            ),
    {
        self.rev_in1.visit_in_nodes(out_node, visitor);
        self.rev_in2.visit_in_nodes(out_node, visitor);
    }
}

/// Counts the input nodes of each kind it visits.
#[derive(Debug, Clone, Copy)]
pub struct MyVisitor {
    pub n1: usize,
    pub n2: usize,
}

impl MyVisitor {
    pub fn new() -> (r: MyVisitor)
        ensures
            r.n1 == 0,
            r.n2 == 0,
    {
        MyVisitor { n1: 0, n2: 0 }
    }
}

/// One more, wrapping around at the largest value.
pub open spec fn wrapping_inc(n: usize) -> usize {
    if n == usize::MAX {
        0
    } else {
        (n + 1) as usize
    }
}

impl VisitMut<InNode1> for MyVisitor {
    open spec fn after_visit(&self, t: InNode1) -> Self {
        MyVisitor { n1: wrapping_inc(self.n1), n2: self.n2 }
    }

    fn visit_mut(&mut self, t: &InNode1) {
        self.n1 = if self.n1 == usize::MAX {
            0
        } else {
            self.n1 + 1
        };
    }
}

impl VisitMut<InNode2> for MyVisitor {
    open spec fn after_visit(&self, t: InNode2) -> Self {
        MyVisitor { n1: self.n1, n2: wrapping_inc(self.n2) }
    }

    fn visit_mut(&mut self, t: &InNode2) {
        self.n2 = if self.n2 == usize::MAX {
            0
        } else {
            self.n2 + 1
        };
    }
}

} // verus!
