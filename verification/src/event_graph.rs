use vstd::prelude::*;

use priority_queue::PriorityQueue;

use crate::graph::Subsumed;

verus! {

#[verifier::external_type_specification]
#[verifier::external_body]
#[verifier::reject_recursive_types(I)]
#[verifier::reject_recursive_types(P)]
#[verifier::reject_recursive_types(H)]
pub struct ExPriorityQueue<I, P, H>(PriorityQueue<I, P, H>);

/// The queues of the library: positions of nodes, by priority.
pub type CostQueue = PriorityQueue<usize, i64>;

/// What a priority queue of the library holds: each item with its priority.
pub uninterp spec fn queue_contents(q: CostQueue) -> Map<usize, i64>;

/// Calls `PriorityQueue::new`, which makes an empty queue.
#[verifier::external_body]
fn queue_new() -> (r: CostQueue)
    ensures
        queue_contents(r) =~= Map::empty(),
{
    PriorityQueue::new()
}

/// Calls `PriorityQueue::push`: the item gets the priority given, whether it
/// was queued or not, and its former priority is returned when it was.
#[verifier::external_body]
fn queue_push(q: &mut CostQueue, item: usize, priority: i64) -> (r: Option<i64>)
    ensures
        queue_contents(*final(q)) == queue_contents(*old(q)).insert(item, priority),
        r == (if queue_contents(*old(q)).dom().contains(item) {
            Some(queue_contents(*old(q))[item])
        } else {
            None::<i64>
        }),
{
    q.push(item, priority)
}

/// Calls `PriorityQueue::pop`: removes an item of greatest priority and
/// returns it with its priority, or `None` when the queue is empty. Which
/// of several items of greatest priority leaves is not stated.
#[verifier::external_body]
fn queue_pop(q: &mut CostQueue) -> (r: Option<(usize, i64)>)
    ensures
        r is None <==> queue_contents(*old(q)).dom() =~= Set::<usize>::empty(),
        r is None ==> queue_contents(*final(q)) == queue_contents(*old(q)),
        r matches Some((i, p)) ==> {
            &&& queue_contents(*old(q)).dom().contains(i)
            &&& queue_contents(*old(q))[i] == p
            &&& forall|j: usize| #[trigger] queue_contents(*old(q)).dom().contains(j) ==> queue_contents(
                *old(q),
            )[j] <= p
            &&& queue_contents(*final(q)) == queue_contents(*old(q)).remove(i)
        },
{
    q.pop()
}

/// A value with a null element, that can be tested and reset.
pub trait Nullable: Sized {
    spec fn spec_is_null(&self) -> bool;

    spec fn spec_null() -> Self;

    fn is_null(&self) -> (r: bool)
        ensures
            r == self.spec_is_null(),
    ;

    fn null() -> (r: Self)
        ensures
            r == Self::spec_null(),
    ;

    /// Resets the value to null and returns the previous one.
    fn nullify(&mut self) -> (r: Self)
        ensures
            r == *old(self),
            *final(self) == Self::spec_null(),
    ;
}

/// Values that combine into one.
pub trait Mergeable: Copy {
    spec fn spec_merge(&self, rhs: Self) -> Self;

    fn merge(&self, rhs: Self) -> (r: Self)
        ensures
            r == self.spec_merge(rhs),
    ;
}

/// A node of an event graph, identified by an integer key: two nodes with
/// the same key are the same node, and nodes are ordered by their keys.
pub trait GraphNode: Copy {
    spec fn spec_key(&self) -> usize;

    fn key(&self) -> (r: usize)
        ensures
            r == self.spec_key(),
    ;

    proof fn lemma_key_injective(a: Self, b: Self)
        requires
            a.spec_key() == b.spec_key(),
        ensures
            a == b,
    ;
}

/// An event of an event graph.
pub trait GraphEvent: Mergeable + Subsumed + Nullable {}

/// Registers the input events of a graph.
pub trait InputEventRegister<InNode, InEvent, Output> {}

/// Receives the input events of a graph.
pub trait InputEventHandler<InNode: GraphNode, InEvent: GraphEvent> {
    /// Notifies an event of `node`; null events are ignored. Returns whether
    /// the event was kept.
    fn notify(&mut self, node: &InNode, event: &InEvent) -> (r: bool)
        ensures
            r == !event.spec_is_null(),
    ;
}

/// Builds a graph that links input events to output events.
pub trait InOutEventHandlerBuilder<OutNode: GraphNode, OutEvent: GraphEvent, InNode: GraphNode, InEvent: GraphEvent> {
    /// The builder is consistent.
    spec fn io_builder_wf(&self) -> bool;

    /// Links the event `in_event` of `in_node` to the event `out_event` of
    /// `out_node`, with the priority `cost`.
    fn add_event(
        &mut self,
        out_node: &OutNode,
        out_event: &OutEvent,
        in_node: &InNode,
        in_event: &InEvent,
        cost: i64,
    )
        requires
            old(self).io_builder_wf(),
        ensures
            final(self).io_builder_wf(),
    ;
}

/// Hands out the output events of a graph.
pub trait OutputEventHandler<OutNode: GraphNode, OutEvent: GraphEvent> {
    /// Every pending input event is of a node of the graph.
    spec fn ready_to_collect(&self) -> bool;

    /// Collects the output events that the pending input events trigger,
    /// and takes out the one of greatest priority.
    fn collect_and_pop(&mut self) -> Option<(OutNode, OutEvent)>
        requires
            old(self).ready_to_collect(),
    ;
}

/// Visits values, changing itself.
pub trait VisitMut<T>: Sized {
    /// What visiting `t` makes of the visitor.
    spec fn after_visit(&self, t: T) -> Self;

    fn visit_mut(&mut self, t: &T)
        ensures
            *final(self) == old(self).after_visit(*t),
    ;
}

/// The visitor after visiting each value of `ts` in order.
pub open spec fn visit_all<T, V: VisitMut<T>>(v: V, ts: Seq<T>) -> V
    decreases ts.len(),
{
    if ts.len() == 0 {
        v
    } else {
        visit_all(v, ts.drop_last()).after_visit(ts.last())
    }
}

/// Builds a graph from output nodes to input nodes.
pub trait GraphBuilder<OutNode: GraphNode, InNode: GraphNode> {
    /// The builder is consistent.
    spec fn builder_wf(&self) -> bool;

    /// Links `out_node` to `in_node`.
    fn add_node(&mut self, out_node: &OutNode, in_node: &InNode)
        requires
            old(self).builder_wf(),
        ensures
            final(self).builder_wf(),
    ;
}

/// Visits the input nodes linked to an output node.
pub trait VisitOutputsNode<OutNode: GraphNode, InNode: GraphNode> {
    /// The input nodes that a visit from `out_node` goes through, in order.
    spec fn visited(&self, out_node: OutNode) -> Seq<InNode>;

    /// A visit from `out_node` can be made.
    spec fn can_visit(&self, out_node: OutNode) -> bool;

    fn visit_in_nodes<Visitor: VisitMut<InNode>>(&self, out_node: &OutNode, visitor: &mut Visitor)
        requires
            self.can_visit(*out_node),
        ensures
            *final(visitor) == visit_all(*old(visitor), self.visited(*out_node)),
    ;
}

/// Visits the input nodes of every kind linked to an output node.
pub trait VisitAllOutputsNode<OutNode: GraphNode, Visitor> {
    /// A visit from `out_node` can be made.
    spec fn can_visit_all(&self, out_node: OutNode) -> bool;

    fn visit_all_in_nodes(&self, out_node: &OutNode, visitor: &mut Visitor)
        requires
            self.can_visit_all(*out_node),
    ;
}

/// An output event, with the position of its node and its priority.
#[derive(Clone, Copy, Debug)]
pub struct OutCostEventLink<OutEvent: GraphEvent> {
    pub idx: usize,
    pub event: OutEvent,
    pub cost: i64,
}

impl<OutEvent: GraphEvent> OutCostEventLink<OutEvent> {
    pub fn new(idx: usize, event: OutEvent, cost: i64) -> (r: Self)
        ensures
            r.idx == idx,
            r.event == event,
            r.cost == cost,
    {
        OutCostEventLink { idx: idx, event: event, cost: cost }
    }
}

/// The position of the node with key `k` in `nodes`, if any.
pub open spec fn position_of<N: GraphNode>(nodes: Seq<N>, k: usize) -> Option<int> {
    if exists|i: int| 0 <= i < nodes.len() && nodes[i].spec_key() == k {
        Some(choose|i: int| 0 <= i < nodes.len() && nodes[i].spec_key() == k)
    } else {
        None
    }
}

/// `nodes` with `n` added at the end, unless a node with its key is there.
pub open spec fn with_node<N: GraphNode>(nodes: Seq<N>, n: N) -> Seq<N> {
    if position_of(nodes, n.spec_key()) is Some {
        nodes
    } else {
        nodes.push(n)
    }
}

/// The position that the node with the key of `n` has in `with_node(nodes, n)`.
pub open spec fn node_position<N: GraphNode>(nodes: Seq<N>, n: N) -> int {
    match position_of(nodes, n.spec_key()) {
        Some(i) => i,
        None => nodes.len() as int,
    }
}

/// The lists `lists`, one for each node of `nodes`, after `x` joins the end
/// of the list of the node with the key of `n`; a new node gets the list
/// `[x]`.
pub open spec fn with_item<N: GraphNode, X>(nodes: Seq<N>, lists: Seq<Seq<X>>, n: N, x: X) -> Seq<Seq<X>> {
    match position_of(nodes, n.spec_key()) {
        Some(i) => lists.update(i, lists[i].push(x)),
        None => lists.push(seq![x]),
    }
}

/// No two nodes of `nodes` have the same key.
pub open spec fn distinct_keys<N: GraphNode>(nodes: Seq<N>) -> bool {
    forall|i: int, j: int|
        0 <= i < nodes.len() && 0 <= j < nodes.len() && i != j ==> #[trigger] nodes[i].spec_key()
            != #[trigger] nodes[j].spec_key()
}

/// The position of the node with the key of `node`, searched in order.
fn find_node<N: GraphNode>(nodes: &Vec<N>, node: &N) -> (r: Option<usize>)
    requires
        distinct_keys(nodes@),
    ensures
        r is None <==> position_of(nodes@, node.spec_key()) is None,
        r matches Some(i) ==> position_of(nodes@, node.spec_key()) == Some(i as int) && i < nodes@.len()
            && nodes@[i as int] == *node,
{
    let k = node.key();
    let mut i: usize = 0;
    while i < nodes.len()
        invariant
            i <= nodes@.len(),
            k == node.spec_key(),
            distinct_keys(nodes@),
            forall|j: int| 0 <= j < i ==> (#[trigger] nodes@[j]).spec_key() != k,
        decreases nodes@.len() - i,
    {
        if nodes[i].key() == k {
            proof {
                assert(nodes@[i as int].spec_key() == k);
                let c = choose|j: int| 0 <= j < nodes@.len() && nodes@[j].spec_key() == k;
                if c != i {
                    assert(nodes@[c].spec_key() != nodes@[i as int].spec_key());
                }
                N::lemma_key_injective(nodes@[i as int], *node);
            }
            return Some(i);
        }
        i = i + 1;
    }
    None
}

/// Collects the output nodes of a graph.
pub struct HandlerOutputBuilder<OutNode: GraphNode, OutEvent: GraphEvent> {
    outs: Vec<OutNode>,
    _event: std::marker::PhantomData<OutEvent>,
}

impl<OutNode: GraphNode, OutEvent: GraphEvent> HandlerOutputBuilder<OutNode, OutEvent> {
    pub closed spec fn spec_outs(&self) -> Seq<OutNode> {
        self.outs@
    }

    /// A builder with no node.
    pub fn new() -> (r: Self)
        ensures
            r.spec_outs().len() == 0,
    {
        HandlerOutputBuilder { outs: Vec::new(), _event: std::marker::PhantomData }
    }

    /// The position of `node`, added at the end when it is new.
    pub fn add_node(&mut self, node: OutNode) -> (r: usize)
        requires
            distinct_keys(old(self).spec_outs()),
        ensures
            distinct_keys(final(self).spec_outs()),
            position_of(old(self).spec_outs(), node.spec_key()) is Some ==> final(self).spec_outs() == old(
                self,
            ).spec_outs() && Some(r as int) == position_of(old(self).spec_outs(), node.spec_key()),
            position_of(old(self).spec_outs(), node.spec_key()) is None ==> final(self).spec_outs() == old(
                self,
            ).spec_outs().push(node) && r == old(self).spec_outs().len(),
            r < final(self).spec_outs().len(),
            final(self).spec_outs()[r as int] == node,
    {
        match find_node(&self.outs, &node) {
            Some(i) => i,
            None => {
                let i = self.outs.len();
                self.outs.push(node);
                proof {
                    assert forall|a: int, b: int|
                        0 <= a < self.outs@.len() && 0 <= b < self.outs@.len() && a != b implies #[trigger] self.outs@[a].spec_key()
                            != #[trigger] self.outs@[b].spec_key() by {
                        if a == i as int || b == i as int {
                            let o = if a == i as int { b } else { a };
                            assert(old(self).outs@[o] == self.outs@[o]);
                        }
                    }
                }
                i
            },
        }
    }

    /// The handler, with no event pending.
    pub fn finalize(self) -> (r: HandlerOutput<OutNode, OutEvent>)
        ensures
            r.wf(),
            r.spec_outs() == self.spec_outs(),
            r.spec_mode().len() == self.spec_outs().len(),
            forall|i: int| 0 <= i < r.spec_mode().len() ==> #[trigger] r.spec_mode()[i] == OutEvent::spec_null(),
            r.spec_queue() == Map::<usize, i64>::empty(),
    {
        let len = self.outs.len();
        let mut mode: Vec<OutEvent> = Vec::new();
        let mut i: usize = 0;
        while i < len
            invariant
                i <= len,
                mode@.len() == i,
                forall|k: int| 0 <= k < i ==> #[trigger] mode@[k] == OutEvent::spec_null(),
            decreases len - i,
        {
            mode.push(OutEvent::null());
            i = i + 1;
        }
        HandlerOutput { mode: mode, outs: self.outs, queue: queue_new() }
    }
}

/// The output side of a graph: the pending event of each output node, and
/// the queue of nodes by priority.
pub struct HandlerOutput<OutNode: GraphNode, OutEvent: GraphEvent> {
    mode: Vec<OutEvent>,
    outs: Vec<OutNode>,
    queue: CostQueue,
}

impl<OutNode: GraphNode, OutEvent: GraphEvent> HandlerOutput<OutNode, OutEvent> {
    pub closed spec fn spec_mode(&self) -> Seq<OutEvent> {
        self.mode@
    }

    pub closed spec fn spec_outs(&self) -> Seq<OutNode> {
        self.outs@
    }

    pub closed spec fn spec_queue(&self) -> Map<usize, i64> {
        queue_contents(self.queue)
    }

    /// Every queued position is the position of a node.
    pub open spec fn wf(&self) -> bool {
        &&& self.spec_mode().len() == self.spec_outs().len()
        &&& self.spec_queue().dom().finite()
        &&& forall|i: usize| #[trigger] self.spec_queue().dom().contains(i) ==> i < self.spec_outs().len()
    }

    pub fn builder() -> (r: HandlerOutputBuilder<OutNode, OutEvent>)
        ensures
            r.spec_outs().len() == 0,
    {
        HandlerOutputBuilder::new()
    }

    /// Queues the node of `out` with its priority, replacing the priority
    /// it had if it was queued, and merges its event into the node's
    /// pending event.
    pub fn collect_out_event(&mut self, out: &OutCostEventLink<OutEvent>)
        requires
            old(self).wf(),
            out.idx < old(self).spec_outs().len(),
        ensures
            final(self).wf(),
            final(self).spec_outs() == old(self).spec_outs(),
            final(self).spec_queue() == old(self).spec_queue().insert(out.idx, out.cost),
            final(self).spec_mode() == old(self).spec_mode().update(
                out.idx as int,
                old(self).spec_mode()[out.idx as int].spec_merge(out.event),
            ),
    {
        let out_idx = out.idx;
        queue_push(&mut self.queue, out_idx, out.cost);
        let merged = self.mode[out_idx].merge(out.event);
        self.mode.set(out_idx, merged);
    }

    /// Takes out a node of greatest priority with its pending event, which
    /// is reset to null; `None` when no node is queued.
    pub fn pop(&mut self) -> (r: Option<(OutNode, OutEvent)>)
        requires
            old(self).wf(),
        ensures
            final(self).wf(),
            final(self).spec_outs() == old(self).spec_outs(),
            r is None <==> old(self).spec_queue().dom() =~= Set::<usize>::empty(),
            r is None ==> final(self).spec_queue() == old(self).spec_queue() && final(self).spec_mode()
                == old(self).spec_mode(),
            r is Some ==> exists|i: usize|
                {
                    &&& #[trigger] old(self).spec_queue().dom().contains(i)
                    &&& forall|j: usize| #[trigger] old(self).spec_queue().dom().contains(j) ==> old(
                        self,
                    ).spec_queue()[j] <= old(self).spec_queue()[i]
                    &&& r == Some((old(self).spec_outs()[i as int], old(self).spec_mode()[i as int]))
                    &&& final(self).spec_queue() == old(self).spec_queue().remove(i)
                    &&& final(self).spec_mode() == old(self).spec_mode().update(i as int, OutEvent::spec_null())
                },
    {
        let (out_idx, _cost) = match queue_pop(&mut self.queue) {
            Some(p) => p,
            None => {
                return None;
            },
        };
        let ghost m0 = self.mode@;
        let mut slot = self.mode[out_idx];
        let event = slot.nullify();
        self.mode.set(out_idx, slot);
        proof {
            assert(self.mode@ == m0.update(out_idx as int, OutEvent::spec_null()));
            assert(old(self).spec_queue().dom().contains(out_idx));
        }
        Some((self.outs[out_idx], event))
    }
}

/// An input event of a node, linked to an output.
#[derive(Clone, Copy, Debug)]
pub struct EventLink<InEvent, Output> {
    pub in_event: InEvent,
    pub out: Output,
}

/// The outputs of the links of `links` that the input event `ev` triggers:
/// those whose event, merged with `ev`, has `ev` subsumed under it.
pub open spec fn links_out<InEvent: GraphEvent, Output>(links: Seq<EventLink<InEvent, Output>>, ev: InEvent) -> Seq<
    Output,
>
    decreases links.len(),
{
    if links.len() == 0 {
        Seq::empty()
    } else {
        let r = links_out(links.drop_last(), ev);
        if ev.spec_subsumed(&links.last().in_event.spec_merge(ev)) {
            r.push(links.last().out)
        } else {
            r
        }
    }
}

/// The links of each input node, as sequences.
pub open spec fn links_view<InEvent, Output>(v: Seq<Vec<EventLink<InEvent, Output>>>) -> Seq<
    Seq<EventLink<InEvent, Output>>,
> {
    v.map_values(|l: Vec<EventLink<InEvent, Output>>| l@)
}

/// Collects the links from input events to outputs.
pub struct LazyInputEventGraphBuilder<InNode: GraphNode, InEvent: GraphEvent, Output: Copy> {
    in_nodes: Vec<InNode>,
    in_events: Vec<Vec<EventLink<InEvent, Output>>>,
}

/// The links from input events to outputs.
pub struct LazyInputEventGraph<InNode: GraphNode, InEvent: GraphEvent, Output: Copy> {
    in_nodes: Vec<InNode>,
    in_events: Vec<Vec<EventLink<InEvent, Output>>>,
}

impl<InNode: GraphNode, InEvent: GraphEvent, Output: Copy> LazyInputEventGraphBuilder<InNode, InEvent, Output> {
    pub closed spec fn spec_nodes(&self) -> Seq<InNode> {
        self.in_nodes@
    }

    pub closed spec fn spec_links(&self) -> Seq<Seq<EventLink<InEvent, Output>>> {
        links_view(self.in_events@)
    }

    /// Each node has its list of links, and no two nodes have the same key.
    pub open spec fn wf(&self) -> bool {
        &&& self.spec_nodes().len() == self.spec_links().len()
        &&& distinct_keys(self.spec_nodes())
    }

    /// A builder with no link.
    pub fn new() -> (r: Self)
        ensures
            r.wf(),
            r.spec_nodes().len() == 0,
    {
        let r = LazyInputEventGraphBuilder { in_nodes: Vec::new(), in_events: Vec::new() };
        proof {
            assert(r.spec_links() =~= Seq::empty());
        }
        r
    }

    /// Links the event `event` of `node` to `out`, after the links the node
    /// already has.
    pub fn add_event(&mut self, node: InNode, event: InEvent, out: Output)
        requires
            old(self).wf(),
        ensures
            final(self).wf(),
            position_of(old(self).spec_nodes(), node.spec_key()) matches Some(i) ==> final(self).spec_nodes()
                == old(self).spec_nodes() && final(self).spec_links() == old(self).spec_links().update(
                i,
                old(self).spec_links()[i].push(EventLink { in_event: event, out: out }),
            ),
            position_of(old(self).spec_nodes(), node.spec_key()) is None ==> final(self).spec_nodes()
                == old(self).spec_nodes().push(node) && final(self).spec_links() == old(self).spec_links().push(
                seq![EventLink { in_event: event, out: out }],
            ),
    {
        let link = EventLink { in_event: event, out: out };
        match find_node(&self.in_nodes, &node) {
            Some(i) => {
                let ghost l0 = self.in_events@;
                let mut links: Vec<EventLink<InEvent, Output>> = Vec::new();
                std::mem::swap(&mut links, &mut self.in_events[i]);
                links.push(link);
                self.in_events.set(i, links);
                proof {
                    assert(self.spec_links() =~= links_view(l0).update(i as int, links_view(l0)[i as int].push(link)));
                }
            },
            None => {
                let ghost l0 = self.in_events@;
                let i = self.in_nodes.len();
                self.in_nodes.push(node);
                let mut links: Vec<EventLink<InEvent, Output>> = Vec::new();
                links.push(link);
                self.in_events.push(links);
                proof {
                    assert(self.spec_links() =~= links_view(l0).push(seq![link]));
                    assert forall|a: int, b: int|
                        0 <= a < self.in_nodes@.len() && 0 <= b < self.in_nodes@.len() && a != b implies #[trigger] self.in_nodes@[a].spec_key()
                            != #[trigger] self.in_nodes@[b].spec_key() by {
                        if a == i as int || b == i as int {
                            let o = if a == i as int { b } else { a };
                            assert(old(self).in_nodes@[o] == self.in_nodes@[o]);
                        }
                    }
                }
            },
        }
    }

    /// The graph of the links added.
    pub fn finalize(self) -> (r: LazyInputEventGraph<InNode, InEvent, Output>)
        ensures
            r.spec_nodes() == self.spec_nodes(),
            r.spec_links() == self.spec_links(),
    {
        LazyInputEventGraph { in_nodes: self.in_nodes, in_events: self.in_events }
    }
}

impl<InNode: GraphNode, InEvent: GraphEvent, Output: Copy> LazyInputEventGraph<InNode, InEvent, Output> {
    pub closed spec fn spec_nodes(&self) -> Seq<InNode> {
        self.in_nodes@
    }

    pub closed spec fn spec_links(&self) -> Seq<Seq<EventLink<InEvent, Output>>> {
        links_view(self.in_events@)
    }

    /// Each node has its list of links, and no two nodes have the same key.
    pub open spec fn wf(&self) -> bool {
        &&& self.spec_nodes().len() == self.spec_links().len()
        &&& distinct_keys(self.spec_nodes())
    }

    /// The outputs that the event `ev` of the node with key `k` triggers.
    pub open spec fn outs_for(&self, k: usize, ev: InEvent) -> Seq<Output> {
        links_out(self.spec_links()[position_of(self.spec_nodes(), k)->0], ev)
    }
}

/// The number of pending events whose node has a key above `last`.
pub open spec fn count_above<N: GraphNode, E>(events: Seq<(N, E)>, last: int) -> nat
    decreases events.len(),
{
    if events.len() == 0 {
        0
    } else {
        count_above(events.drop_last(), last) + if events.last().0.spec_key() > last {
            1nat
        } else {
            0nat
        }
    }
}

pub proof fn lemma_count_above<N: GraphNode, E>(events: Seq<(N, E)>, last: int, k: int)
    requires
        last < k,
    ensures
        count_above(events, k) <= count_above(events, last),
        (exists|i: int| 0 <= i < events.len() && last < (#[trigger] events[i]).0.spec_key() <= k) ==> count_above(
            events,
            k,
        ) < count_above(events, last),
    decreases events.len(),
{
    if events.len() > 0 {
        lemma_count_above(events.drop_last(), last, k);
        if exists|i: int| 0 <= i < events.len() && last < (#[trigger] events[i]).0.spec_key() <= k {
            let i = choose|i: int| 0 <= i < events.len() && last < (#[trigger] events[i]).0.spec_key() <= k;
            if i < events.len() - 1 {
                assert(events.drop_last()[i] == events[i]);
            }
        }
    }
}

/// `k` is the smallest key above `last` among the nodes of the pending
/// events.
pub open spec fn is_next_key<N: GraphNode, E>(events: Seq<(N, E)>, last: int, k: usize) -> bool {
    &&& k > last
    &&& exists|i: int| 0 <= i < events.len() && (#[trigger] events[i]).0.spec_key() == k
    &&& forall|j: int| 0 <= j < events.len() && (#[trigger] events[j]).0.spec_key() > last ==> events[j].0.spec_key() >= k
}

/// The smallest key above `last` among the nodes of the pending events.
pub open spec fn next_key<N: GraphNode, E>(events: Seq<(N, E)>, last: int) -> Option<usize> {
    if exists|k: usize| is_next_key(events, last, k) {
        Some(choose|k: usize| is_next_key(events, last, k))
    } else {
        None
    }
}

/// The events of the node with key `k`, among the first `n` pending ones,
/// merged in order.
pub open spec fn merged<N: GraphNode, E: GraphEvent>(events: Seq<(N, E)>, k: usize, n: int) -> Option<E>
    decreases n,
{
    if n <= 0 {
        None
    } else {
        let m = merged(events, k, n - 1);
        if events[n - 1].0.spec_key() == k {
            Some(
                match m {
                    None => events[n - 1].1,
                    Some(a) => a.spec_merge(events[n - 1].1),
                },
            )
        } else {
            m
        }
    }
}

/// The outputs that the pending events trigger, for the nodes with keys
/// above `last`: node by node in increasing order of keys, each with its
/// events merged.
pub open spec fn triggered_outs<InNode: GraphNode, InEvent: GraphEvent, Output: Copy>(
    g: LazyInputEventGraph<InNode, InEvent, Output>,
    events: Seq<(InNode, InEvent)>,
    last: int,
) -> Seq<Output>
    decreases count_above(events, last),
{
    match next_key(events, last) {
        None => Seq::empty(),
        Some(k) => {
            proof {
                let kk = choose|k: usize| is_next_key(events, last, k);
                lemma_count_above(events, last, kk as int);
            }
            g.outs_for(k, merged(events, k, events.len() as int)->0) + triggered_outs(g, events, k as int)
        },
    }
}

/// The input side of a graph: the events notified since the last trigger.
pub struct LazyInputEventHandler<InNode: GraphNode, InEvent: GraphEvent, Output: Copy> {
    graph: LazyInputEventGraph<InNode, InEvent, Output>,
    events: Vec<(InNode, InEvent)>,
}

impl<InNode: GraphNode, InEvent: GraphEvent, Output: Copy> LazyInputEventHandler<InNode, InEvent, Output> {
    pub closed spec fn spec_graph(&self) -> LazyInputEventGraph<InNode, InEvent, Output> {
        self.graph
    }

    pub closed spec fn spec_events(&self) -> Seq<(InNode, InEvent)> {
        self.events@
    }

    /// Every pending event is of a node of the graph.
    pub open spec fn known(&self) -> bool {
        forall|i: int|
            0 <= i < self.spec_events().len() ==> position_of(
                self.spec_graph().spec_nodes(),
                #[trigger] self.spec_events()[i].0.spec_key(),
            ) is Some
    }

    pub fn builder() -> (r: LazyInputEventGraphBuilder<InNode, InEvent, Output>)
        ensures
            r.wf(),
            r.spec_nodes().len() == 0,
    {
        LazyInputEventGraphBuilder::new()
    }

    /// A handler on `graph`, with no event pending.
    pub fn new(graph: LazyInputEventGraph<InNode, InEvent, Output>) -> (r: Self)
        ensures
            r.spec_graph() == graph,
            r.spec_events().len() == 0,
    {
        LazyInputEventHandler { graph: graph, events: Vec::new() }
    }

    /// The outputs that the event `in_event` of `in_node` triggers.
    pub fn process_in_event(&self, in_node: &InNode, in_event: &InEvent) -> (r: Vec<Output>)
        requires
            self.spec_graph().wf(),
            position_of(self.spec_graph().spec_nodes(), in_node.spec_key()) is Some,
        ensures
            r@ == self.spec_graph().outs_for(in_node.spec_key(), *in_event),
    {
        let idx = match find_node(&self.graph.in_nodes, in_node) {
            Some(i) => i,
            None => {
                return Vec::new();
            },
        };
        let links = &self.graph.in_events[idx];
        let mut r: Vec<Output> = Vec::new();
        let mut j: usize = 0;
        while j < links.len()
            invariant
                j <= links@.len(),
                r@ == links_out(links@.take(j as int), *in_event),
            decreases links@.len() - j,
        {
            let link = links[j];
            proof {
                assert(links@.take(j + 1).drop_last() =~= links@.take(j as int));
            }
            if in_event.is_subsumed_under(&link.in_event.merge(*in_event)) {
                r.push(link.out);
            }
            j = j + 1;
        }
        proof {
            assert(links@.take(j as int) =~= links@);
        }
        r
    }

    /// The outputs that the pending events trigger, node by node in
    /// increasing order of keys, the events of each node merged; the
    /// pending events are consumed.
    pub fn trigger_events(&mut self) -> (r: Vec<Output>)
        requires
            old(self).spec_graph().wf(),
            old(self).known(),
        ensures
            final(self).spec_graph() == old(self).spec_graph(),
            final(self).spec_events().len() == 0,
            r@ == triggered_outs(old(self).spec_graph(), old(self).spec_events(), -1),
    {
        let mut events: Vec<(InNode, InEvent)> = Vec::new();
        std::mem::swap(&mut events, &mut self.events);
        let ghost ev = events@;
        let mut out: Vec<Output> = Vec::new();
        let mut last: Option<usize> = None;
        let ghost mut glast: int = -1;
        loop
            invariant
                self.graph == old(self).graph,
                self.events@.len() == 0,
                self.spec_graph().wf(),
                ev == events@,
                ev == old(self).spec_events(),
                forall|i: int|
                    0 <= i < ev.len() ==> position_of(self.spec_graph().spec_nodes(), #[trigger] ev[i].0.spec_key()) is Some,
                glast == (match last { None => -1int, Some(l) => l as int }),
                out@ + triggered_outs(self.graph, ev, glast) == triggered_outs(self.graph, ev, -1),
            ensures
                self.graph == old(self).graph,
                self.events@.len() == 0,
                ev == old(self).spec_events(),
                out@ == triggered_outs(self.graph, ev, -1),
            decreases count_above(ev, glast),
        {
            let mut best: Option<usize> = None;
            let mut i: usize = 0;
            while i < events.len()
                invariant
                    ev == events@,
                    i <= ev.len(),
                    glast == (match last { None => -1int, Some(l) => l as int }),
                    best matches Some(b) ==> b < ev.len() && ev[b as int].0.spec_key() > glast
                        && forall|j: int| 0 <= j < i && (#[trigger] ev[j]).0.spec_key() > glast ==> ev[j].0.spec_key() >= ev[b as int].0.spec_key(),
                    best is None ==> forall|j: int| 0 <= j < i ==> (#[trigger] ev[j]).0.spec_key() <= glast,
                decreases ev.len() - i,
            {
                let k = events[i].0.key();
                let above = match last {
                    None => true,
                    Some(l) => k > l,
                };
                if above {
                    match best {
                        None => {
                            best = Some(i);
                        },
                        Some(b) => {
                            if k < events[b].0.key() {
                                best = Some(i);
                            }
                        },
                    }
                }
                i = i + 1;
            }
            match best {
                None => {
                    proof {
                        if exists|k: usize| is_next_key(ev, glast, k) {
                            let k = choose|k: usize| is_next_key(ev, glast, k);
                            let w = choose|w: int| 0 <= w < ev.len() && (#[trigger] ev[w]).0.spec_key() == k;
                            assert(ev[w].0.spec_key() <= glast);
                        }
                        assert(triggered_outs(self.graph, ev, glast) =~= Seq::empty());
                        assert(out@ + Seq::<Output>::empty() =~= out@);
                    }
                    break ;
                },
                Some(b) => {
                    let node = events[b].0;
                    let k = node.key();
                    proof {
                        assert(is_next_key(ev, glast, k));
                        let c = choose|c: usize| is_next_key(ev, glast, c);
                        assert(c == k) by {
                            let wc = choose|w: int| 0 <= w < ev.len() && (#[trigger] ev[w]).0.spec_key() == c;
                            assert(ev[wc].0.spec_key() >= k);
                            assert(ev[b as int].0.spec_key() >= c);
                        }
                        assert(next_key(ev, glast) == Some(k));
                    }
                    let mut acc: Option<InEvent> = None;
                    let mut j: usize = 0;
                    while j < events.len()
                        invariant
                            ev == events@,
                            j <= ev.len(),
                            acc == merged(ev, k, j as int),
                            b < ev.len(),
                            ev[b as int].0.spec_key() == k,
                            b < j ==> acc is Some,
                        decreases ev.len() - j,
                    {
                        if events[j].0.key() == k {
                            let e = events[j].1;
                            acc = Some(
                                match acc {
                                    None => e,
                                    Some(a) => a.merge(e),
                                },
                            );
                        }
                        j = j + 1;
                    }
                    let merged_event = match acc {
                        Some(a) => a,
                        None => events[b].1,
                    };
                    proof {
                        assert(position_of(self.spec_graph().spec_nodes(), ev[b as int].0.spec_key()) is Some);
                    }
                    let triggered = self.process_in_event(&node, &merged_event);
                    let ghost before = out@;
                    let mut t: usize = 0;
                    while t < triggered.len()
                        invariant
                            t <= triggered@.len(),
                            out@ == before + triggered@.take(t as int),
                        decreases triggered@.len() - t,
                    {
                        out.push(triggered[t]);
                        t = t + 1;
                        proof {
                            assert(out@ =~= before + triggered@.take(t as int));
                        }
                    }
                    proof {
                        assert(triggered@.take(t as int) =~= triggered@);
                        lemma_count_above(ev, glast, k as int);
                        assert(triggered_outs(self.graph, ev, glast) == self.graph.outs_for(
                            k,
                            merged(ev, k, ev.len() as int)->0,
                        ) + triggered_outs(self.graph, ev, k as int));
                        assert(out@ + triggered_outs(self.graph, ev, k as int) =~= before + triggered_outs(
                            self.graph,
                            ev,
                            glast,
                        ));
                    }
                    last = Some(k);
                    proof {
                        glast = k as int;
                    }
                },
            }
        }
        out
    }
}

impl<InNode: GraphNode, InEvent: GraphEvent, Output: Copy> InputEventHandler<InNode, InEvent> for LazyInputEventHandler<
    InNode,
    InEvent,
    Output,
> {
    fn notify(&mut self, node: &InNode, event: &InEvent) -> (r: bool)
        ensures
            final(self).spec_graph() == old(self).spec_graph(),
            event.spec_is_null() ==> final(self).spec_events() == old(self).spec_events(),
            !event.spec_is_null() && old(self).spec_events().len() > 0 && old(self).spec_events().last().0.spec_key()
                == node.spec_key() ==> final(self).spec_events() == old(self).spec_events().update(
                old(self).spec_events().len() - 1,
                (*node, old(self).spec_events().last().1.spec_merge(*event)),
            ),
            !event.spec_is_null() && !(old(self).spec_events().len() > 0 && old(self).spec_events().last().0.spec_key()
                == node.spec_key()) ==> final(self).spec_events() == old(self).spec_events().push(
                (*node, *event),
            ),
    {
        if event.is_null() {
            return false;
        }
        let n = self.events.len();
        if n > 0 && self.events[n - 1].0.key() == node.key() {
            let (l_node, l_evt) = self.events[n - 1];
            proof {
                InNode::lemma_key_injective(l_node, *node);
            }
            self.events.set(n - 1, (l_node, l_evt.merge(*event)));
        } else {
            self.events.push((*node, *event));
        }
        true
    }
}

/// The keys of a sequence of nodes.
pub open spec fn keys_of<N: GraphNode>(s: Seq<N>) -> Seq<usize> {
    s.map_values(|n: N| n.spec_key())
}

/// The strict lexicographic order on sequences of keys.
pub open spec fn lex_lt(a: Seq<usize>, b: Seq<usize>) -> bool
    decreases a.len(),
{
    if a.len() == 0 {
        b.len() > 0
    } else if b.len() == 0 {
        false
    } else if a[0] != b[0] {
        a[0] < b[0]
    } else {
        lex_lt(a.drop_first(), b.drop_first())
    }
}

/// The lexicographic order is a strict total order.
pub proof fn lemma_lex(a: Seq<usize>, b: Seq<usize>, c: Seq<usize>)
    ensures
        !lex_lt(a, a),
        lex_lt(a, b) ==> !lex_lt(b, a),
        a != b ==> lex_lt(a, b) || lex_lt(b, a),
        lex_lt(a, b) && lex_lt(b, c) ==> lex_lt(a, c),
    decreases a.len(),
{
    if a.len() > 0 && b.len() > 0 && c.len() > 0 {
        lemma_lex(a.drop_first(), b.drop_first(), c.drop_first());
    } else if a.len() > 0 && b.len() > 0 {
        lemma_lex(a.drop_first(), b.drop_first(), b.drop_first());
    } else if a.len() > 0 {
        lemma_lex(a.drop_first(), a.drop_first(), a.drop_first());
    }
    if a.len() > 0 && b.len() > 0 && a[0] == b[0] && a != b {
        assert(a.drop_first() != b.drop_first()) by {
            if a.drop_first() == b.drop_first() {
                assert(a =~= seq![a[0]] + a.drop_first());
                assert(b =~= seq![b[0]] + b.drop_first());
            }
        }
    }
    if a.len() == 0 && b.len() == 0 {
        assert(a =~= b);
    }
}

/// Whether the keys of `a` come strictly before those of `b`.
fn keys_before<N: GraphNode>(a: &Vec<N>, b: &Vec<N>) -> (r: bool)
    ensures
        r == lex_lt(keys_of(a@), keys_of(b@)),
{
    let mut i: usize = 0;
    proof {
        assert(keys_of(a@).skip(0) =~= keys_of(a@));
        assert(keys_of(b@).skip(0) =~= keys_of(b@));
    }
    while i < a.len() && i < b.len()
        invariant
            i <= a@.len(),
            i <= b@.len(),
            forall|j: int| 0 <= j < i ==> (#[trigger] a@[j]).spec_key() == b@[j].spec_key(),
            lex_lt(keys_of(a@), keys_of(b@)) == lex_lt(keys_of(a@).skip(i as int), keys_of(b@).skip(i as int)),
        decreases a@.len() - i,
    {
        let ka = a[i].key();
        let kb = b[i].key();
        proof {
            let sa = keys_of(a@).skip(i as int);
            let sb = keys_of(b@).skip(i as int);
            assert(sa[0] == ka);
            assert(sb[0] == kb);
            assert(sa.drop_first() =~= keys_of(a@).skip(i + 1));
            assert(sb.drop_first() =~= keys_of(b@).skip(i + 1));
        }
        if ka != kb {
            return ka < kb;
        }
        i = i + 1;
    }
    i < b.len()
}

/// Whether `a` and `b` hold nodes with the same keys, in the same order.
fn same_keys<N: GraphNode>(a: &Vec<N>, b: &Vec<N>) -> (r: bool)
    ensures
        r == (keys_of(a@) == keys_of(b@)),
{
    if a.len() != b.len() {
        proof {
            assert(keys_of(a@).len() != keys_of(b@).len());
        }
        return false;
    }
    let mut i: usize = 0;
    while i < a.len()
        invariant
            a@.len() == b@.len(),
            i <= a@.len(),
            forall|j: int| 0 <= j < i ==> (#[trigger] a@[j]).spec_key() == b@[j].spec_key(),
        decreases a@.len() - i,
    {
        if a[i].key() != b[i].key() {
            proof {
                assert(keys_of(a@)[i as int] != keys_of(b@)[i as int]);
            }
            return false;
        }
        i = i + 1;
    }
    proof {
        assert(keys_of(a@) =~= keys_of(b@));
    }
    true
}

/// The lists of keys of a vector of lists of nodes.
pub open spec fn lists_keys<N: GraphNode>(v: Seq<Vec<N>>) -> Seq<Seq<usize>> {
    v.map_values(|l: Vec<N>| keys_of(l@))
}

/// `s` is strictly increasing in the lexicographic order.
pub open spec fn lex_sorted(s: Seq<Seq<usize>>) -> bool {
    forall|i: int, j: int| 0 <= i < j < s.len() ==> lex_lt(#[trigger] s[i], #[trigger] s[j])
}

/// Collects the links from output nodes to input nodes.
pub struct AdjacentListGraphBuilder<SrcNode: GraphNode, DstNode: GraphNode> {
    srcs: Vec<SrcNode>,
    ins: Vec<Vec<DstNode>>,
}

/// The links from output nodes to input nodes.
pub struct AdjacentListGraph<SrcNode: GraphNode, DstNode: GraphNode> {
    srcs: Vec<SrcNode>,
    ins: Vec<Vec<DstNode>>,
}

impl<SrcNode: GraphNode, DstNode: GraphNode> AdjacentListGraphBuilder<SrcNode, DstNode> {
    pub closed spec fn spec_srcs(&self) -> Seq<SrcNode> {
        self.srcs@
    }

    pub closed spec fn spec_ins(&self) -> Seq<Seq<DstNode>> {
        self.ins@.map_values(|l: Vec<DstNode>| l@)
    }

    /// Each source node has its list, and no two have the same key.
    pub open spec fn wf(&self) -> bool {
        &&& self.spec_srcs().len() == self.spec_ins().len()
        &&& distinct_keys(self.spec_srcs())
    }

    fn new() -> (r: Self)
        ensures
            r.wf(),
            r.spec_srcs().len() == 0,
    {
        let r = AdjacentListGraphBuilder { srcs: Vec::new(), ins: Vec::new() };
        proof {
            assert(r.spec_ins() =~= Seq::empty());
        }
        r
    }

    /// The graph. The lists of input nodes are sorted, as sequences of
    /// keys, and repeated lists are dropped; the source nodes are kept as
    /// they are, so the position of a source node no longer designates its
    /// own list.
    pub fn finalize(self) -> (r: AdjacentListGraph<SrcNode, DstNode>)
        ensures
            r.spec_srcs() == self.spec_srcs(),
            lex_sorted(lists_keys(r.spec_ins_vecs())),
            forall|i: int|
                0 <= i < self.spec_ins_vecs().len() ==> lists_keys(r.spec_ins_vecs()).contains(
                    #[trigger] keys_of(self.spec_ins_vecs()[i]@),
                ),
            forall|i: int|
                0 <= i < r.spec_ins_vecs().len() ==> lists_keys(self.spec_ins_vecs()).contains(
                    #[trigger] keys_of(r.spec_ins_vecs()[i]@),
                ),
    {
        let mut sorted: Vec<Vec<DstNode>> = Vec::new();
        let ghost src = self.ins@;
        let n = self.ins.len();
        let mut k: usize = 0;
        while k < n
            invariant
                n == src.len(),
                src == self.ins@,
                k <= n,
                forall|i: int, j: int|
                    0 <= i < j < sorted@.len() ==> !lex_lt(
                        keys_of(#[trigger] sorted@[j]@),
                        keys_of(#[trigger] sorted@[i]@),
                    ),
                forall|i: int| 0 <= i < k ==> lists_keys(sorted@).contains(#[trigger] keys_of(src[i]@)),
                forall|i: int|
                    0 <= i < sorted@.len() ==> lists_keys(src).contains(#[trigger] keys_of(sorted@[i]@)),
            decreases n - k,
        {
            let item = crate::constraints::copy_vec(&self.ins[k]);
            let ghost it = item@;
            let mut p: usize = 0;
            while p < sorted.len() && !keys_before(&item, &sorted[p])
                invariant
                    p <= sorted@.len(),
                    item@ == it,
                    forall|i: int| 0 <= i < p ==> !lex_lt(keys_of(it), keys_of(#[trigger] sorted@[i]@)),
                decreases sorted@.len() - p,
            {
                p = p + 1;
            }
            let ghost s0 = sorted@;
            let ghost stop = p < s0.len();
            sorted.insert(p, item);
            proof {
                assert(stop ==> lex_lt(keys_of(it), keys_of(s0[p as int]@)));
                assert forall|i: int, j: int|
                    0 <= i < j < sorted@.len() implies !lex_lt(
                        keys_of(#[trigger] sorted@[j]@),
                        keys_of(#[trigger] sorted@[i]@),
                    ) by {
                    let ki = keys_of(it);
                    if i < p && j == p {
                        assert(sorted@[i] == s0[i]);
                        lemma_lex(keys_of(s0[i]@), ki, ki);
                        lemma_lex(ki, keys_of(s0[i]@), ki);
                    } else if i == p && j > p {
                        assert(sorted@[j] == s0[j - 1]);
                        let a = keys_of(s0[p as int]@);
                        let c = keys_of(s0[j - 1]@);
                        lemma_lex(c, ki, a);
                        lemma_lex(ki, a, c);
                        lemma_lex(c, a, ki);
                        if j - 1 > p {
                            assert(!lex_lt(c, a));
                        }
                    } else if i < p && j > p {
                        assert(sorted@[i] == s0[i]);
                        assert(sorted@[j] == s0[j - 1]);
                    } else if j < p {
                        assert(sorted@[i] == s0[i]);
                        assert(sorted@[j] == s0[j]);
                    } else {
                        assert(sorted@[i] == s0[i - 1]);
                        assert(sorted@[j] == s0[j - 1]);
                    }
                }
                assert forall|i: int| 0 <= i < k + 1 implies lists_keys(sorted@).contains(#[trigger] keys_of(src[i]@)) by {
                    if i == k {
                        assert(lists_keys(sorted@)[p as int] == keys_of(it));
                    } else {
                        assert(lists_keys(s0).contains(keys_of(src[i]@)));
                        let m = choose|m: int| 0 <= m < lists_keys(s0).len() && lists_keys(s0)[m] == keys_of(src[i]@);
                        if m < p {
                            assert(lists_keys(sorted@)[m] == keys_of(src[i]@));
                        } else {
                            assert(lists_keys(sorted@)[m + 1] == keys_of(src[i]@));
                        }
                    }
                }
                assert forall|i: int| 0 <= i < sorted@.len() implies lists_keys(src).contains(#[trigger] keys_of(sorted@[i]@)) by {
                    if i == p {
                        assert(lists_keys(src)[k as int] == keys_of(it));
                    } else if i < p {
                        assert(sorted@[i] == s0[i]);
                    } else {
                        assert(sorted@[i] == s0[i - 1]);
                    }
                }
            }
            k = k + 1;
        }
        let mut out: Vec<Vec<DstNode>> = Vec::new();
        let m = sorted.len();
        let mut j: usize = 0;
        while j < m
            invariant
                m == sorted@.len(),
                j <= m,
                forall|i: int, l: int|
                    0 <= i < l < sorted@.len() ==> !lex_lt(
                        keys_of(#[trigger] sorted@[l]@),
                        keys_of(#[trigger] sorted@[i]@),
                    ),
                lex_sorted(lists_keys(out@)),
                j > 0 ==> out@.len() > 0 && keys_of(out@.last()@) == keys_of(sorted@[j - 1]@),
                j == 0 ==> out@.len() == 0,
                forall|i: int| 0 <= i < j ==> lists_keys(out@).contains(#[trigger] keys_of(sorted@[i]@)),
                forall|i: int| 0 <= i < out@.len() ==> lists_keys(sorted@).contains(#[trigger] keys_of(out@[i]@)),
            decreases m - j,
        {
            let item = crate::constraints::copy_vec(&sorted[j]);
            let dup = out.len() > 0 && same_keys(&out[out.len() - 1], &item);
            let ghost o0 = out@;
            if !dup {
                out.push(item);
                proof {
                    let ki = keys_of(item@);
                    if j > 0 {
                        let prev = keys_of(sorted@[j - 1]@);
                        assert(!lex_lt(ki, prev));
                        lemma_lex(prev, ki, ki);
                        assert(lex_lt(prev, ki));
                        assert forall|a: int, b: int| 0 <= a < b < lists_keys(out@).len() implies lex_lt(
                            #[trigger] lists_keys(out@)[a],
                            #[trigger] lists_keys(out@)[b],
                        ) by {
                            if b == out@.len() - 1 {
                                if a < o0.len() - 1 {
                                    assert(lex_lt(lists_keys(o0)[a], lists_keys(o0)[o0.len() - 1]));
                                    lemma_lex(lists_keys(o0)[a], prev, ki);
                                }
                                assert(lists_keys(out@)[a] == lists_keys(o0)[a]);
                            } else {
                                assert(lists_keys(out@)[a] == lists_keys(o0)[a]);
                                assert(lists_keys(out@)[b] == lists_keys(o0)[b]);
                            }
                        }
                    }
                    assert forall|i: int| 0 <= i < j + 1 implies lists_keys(out@).contains(#[trigger] keys_of(sorted@[i]@)) by {
                        if i == j {
                            assert(lists_keys(out@)[out@.len() - 1] == ki);
                        } else {
                            let w = choose|w: int| 0 <= w < lists_keys(o0).len() && lists_keys(o0)[w] == keys_of(sorted@[i]@);
                            assert(lists_keys(out@)[w] == keys_of(sorted@[i]@));
                        }
                    }
                    assert forall|i: int| 0 <= i < out@.len() implies lists_keys(sorted@).contains(#[trigger] keys_of(out@[i]@)) by {
                        if i == out@.len() - 1 {
                            assert(lists_keys(sorted@)[j as int] == ki);
                        } else {
                            assert(out@[i] == o0[i]);
                        }
                    }
                }
            } else {
                proof {
                    assert forall|i: int| 0 <= i < j + 1 implies lists_keys(out@).contains(#[trigger] keys_of(sorted@[i]@)) by {
                        if i == j {
                            assert(lists_keys(out@)[out@.len() - 1] == keys_of(item@));
                        }
                    }
                }
            }
            j = j + 1;
        }
        proof {
            assert forall|i: int| 0 <= i < self.ins@.len() implies lists_keys(out@).contains(#[trigger] keys_of(self.ins@[i]@)) by {
                let w = choose|w: int| 0 <= w < lists_keys(sorted@).len() && lists_keys(sorted@)[w] == keys_of(src[i]@);
                assert(lists_keys(out@).contains(keys_of(sorted@[w]@)));
            }
            assert forall|i: int| 0 <= i < out@.len() implies lists_keys(self.ins@).contains(#[trigger] keys_of(out@[i]@)) by {
                let w = choose|w: int| 0 <= w < lists_keys(sorted@).len() && lists_keys(sorted@)[w] == keys_of(out@[i]@);
                assert(lists_keys(src).contains(keys_of(sorted@[w]@)));
            }
        }
        AdjacentListGraph { srcs: self.srcs, ins: out }
    }

    pub closed spec fn spec_ins_vecs(&self) -> Seq<Vec<DstNode>> {
        self.ins@
    }
}

impl<SrcNode: GraphNode, DstNode: GraphNode> AdjacentListGraph<SrcNode, DstNode> {
    pub closed spec fn spec_srcs(&self) -> Seq<SrcNode> {
        self.srcs@
    }

    pub closed spec fn spec_ins_vecs(&self) -> Seq<Vec<DstNode>> {
        self.ins@
    }

    pub fn builder() -> (r: AdjacentListGraphBuilder<SrcNode, DstNode>)
        ensures
            r.wf(),
            r.spec_srcs().len() == 0,
    {
        AdjacentListGraphBuilder::new()
    }
}

impl<SrcNode: GraphNode, DstNode: GraphNode> GraphBuilder<SrcNode, DstNode> for AdjacentListGraphBuilder<SrcNode, DstNode> {
    open spec fn builder_wf(&self) -> bool {
        self.wf()
    }

    fn add_node(&mut self, out_node: &SrcNode, in_node: &DstNode)
        ensures
            position_of(old(self).spec_srcs(), out_node.spec_key()) matches Some(i) ==> final(self).spec_srcs()
                == old(self).spec_srcs() && final(self).spec_ins() == old(self).spec_ins().update(
                i,
                old(self).spec_ins()[i].push(*in_node),
            ),
            position_of(old(self).spec_srcs(), out_node.spec_key()) is None ==> final(self).spec_srcs()
                == old(self).spec_srcs().push(*out_node) && final(self).spec_ins() == old(self).spec_ins().push(
                seq![*in_node],
            ),
    {
        let ghost l0 = self.ins@;
        match find_node(&self.srcs, out_node) {
            Some(i) => {
                let mut list: Vec<DstNode> = Vec::new();
                std::mem::swap(&mut list, &mut self.ins[i]);
                list.push(*in_node);
                self.ins.set(i, list);
                proof {
                    assert(self.spec_ins() =~= l0.map_values(|l: Vec<DstNode>| l@).update(
                        i as int,
                        l0[i as int]@.push(*in_node),
                    ));
                }
            },
            None => {
                let i = self.srcs.len();
                self.srcs.push(*out_node);
                let mut list: Vec<DstNode> = Vec::new();
                list.push(*in_node);
                self.ins.push(list);
                proof {
                    assert(self.spec_ins() =~= l0.map_values(|l: Vec<DstNode>| l@).push(seq![*in_node]));
                    assert forall|a: int, b: int|
                        0 <= a < self.srcs@.len() && 0 <= b < self.srcs@.len() && a != b implies #[trigger] self.srcs@[a].spec_key()
                            != #[trigger] self.srcs@[b].spec_key() by {
                        if a == i as int || b == i as int {
                            let o = if a == i as int { b } else { a };
                            assert(old(self).srcs@[o] == self.srcs@[o]);
                        }
                    }
                }
            },
        }
    }
}

impl<SrcNode: GraphNode, DstNode: GraphNode> VisitOutputsNode<SrcNode, DstNode> for AdjacentListGraph<SrcNode, DstNode> {
    open spec fn visited(&self, out_node: SrcNode) -> Seq<DstNode> {
        match position_of(self.spec_srcs(), out_node.spec_key()) {
            Some(i) => self.spec_ins_vecs()[i]@,
            None => Seq::empty(),
        }
    }

    open spec fn can_visit(&self, out_node: SrcNode) -> bool {
        &&& distinct_keys(self.spec_srcs())
        &&& position_of(self.spec_srcs(), out_node.spec_key()) matches Some(i) ==> i < self.spec_ins_vecs().len()
    }

    fn visit_in_nodes<Visitor: VisitMut<DstNode>>(&self, out_node: &SrcNode, visitor: &mut Visitor) {
        let ghost v0 = *visitor;
        match find_node(&self.srcs, out_node) {
            Some(idx) => {
                let list = &self.ins[idx];
                let mut j: usize = 0;
                while j < list.len()
                    invariant
                        j <= list@.len(),
                        *visitor == visit_all(v0, list@.take(j as int)),
                    decreases list@.len() - j,
                {
                    let v = list[j];
                    visitor.visit_mut(&v);
                    proof {
                        assert(list@.take(j + 1).drop_last() =~= list@.take(j as int));
                    }
                    j = j + 1;
                }
                proof {
                    assert(list@.take(j as int) =~= list@);
                }
            },
            None => {},
        }
    }
}

} // verus!
