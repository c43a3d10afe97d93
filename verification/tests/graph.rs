use crusp::demo_graph::{GraphName, InEvent1, InEvent2, InNode1, InNode2, MyVisitor, OutEvent, OutNode};
use crusp::event_graph::{
    HandlerOutput, InOutEventHandlerBuilder, InputEventHandler, OutCostEventLink, OutputEventHandler,
    VisitAllOutputsNode, VisitMut,
};
use crusp::graph::TwoNodesGraph;
use crusp::variables::{VariableId, VariableState};

fn popped(e: Option<(OutNode, OutEvent)>) -> Option<(usize, i32)> {
    e.map(|(n, ev)| (n.idx, ev.val))
}

#[test]
fn graph_hands_out_events_by_priority() {
    let mut visitor = MyVisitor::new();
    let oe0 = OutEvent { val: 0 };
    let oe1 = OutEvent { val: 1 };
    let oe2 = OutEvent { val: 2 };
    let on0 = OutNode { idx: 0 };
    let on1 = OutNode { idx: 1 };
    let on2 = OutNode { idx: 2 };
    let in1 = InNode1 { idx: 0 };
    let ie1 = InEvent1 { val: 1 };
    let in12 = InNode1 { idx: 1 };
    let ie12 = InEvent1 { val: 2 };
    let in2 = InNode2 { idx: 0 };
    let ie2 = InEvent2 { val: 1 };
    let mut graph = GraphName::builder();
    graph.add_event(&on0, &oe0, &in1, &ie1, 0i64);
    graph.add_event(&on1, &oe1, &in12, &ie12, 2i64);
    graph.add_event(&on2, &oe2, &in2, &ie2, 1i64);
    let mut graph = graph.finalize();
    graph.visit_all_in_nodes(&on0, &mut visitor);
    assert_eq!((visitor.n1, visitor.n2), (1, 0));
    assert!(graph.notify(&in1, &ie1));
    assert_eq!(popped(graph.collect_and_pop()), Some((0, 0)));
    graph.notify(&in1, &ie1);
    graph.notify(&in12, &ie12);
    graph.notify(&in2, &ie2);
    assert_eq!(popped(graph.collect_and_pop()), Some((1, 1)));
    assert_eq!(popped(graph.collect_and_pop()), Some((2, 2)));
    graph.notify(&in12, &ie12);
    assert_eq!(popped(graph.collect_and_pop()), Some((1, 1)));
    assert_eq!(popped(graph.collect_and_pop()), Some((0, 0)));
    assert_eq!(popped(graph.collect_and_pop()), None);
}

#[test]
fn null_input_events_are_ignored() {
    let mut graph = GraphName::builder();
    graph.add_event(&OutNode { idx: 3 }, &OutEvent { val: 1 }, &InNode1 { idx: 0 }, &InEvent1 { val: 1 }, 4i64);
    let mut graph = graph.finalize();
    assert!(!graph.notify(&InNode1 { idx: 0 }, &InEvent1 { val: 0 }));
    assert_eq!(popped(graph.collect_and_pop()), None);
    assert!(graph.notify(&InNode1 { idx: 0 }, &InEvent1 { val: 4 }));
    assert_eq!(popped(graph.collect_and_pop()), Some((3, 1)));
}

#[test]
fn output_handler_pops_the_highest_priority_first() {
    let mut b = HandlerOutput::<OutNode, OutEvent>::builder();
    assert_eq!(b.add_node(OutNode { idx: 10 }), 0);
    assert_eq!(b.add_node(OutNode { idx: 11 }), 1);
    assert_eq!(b.add_node(OutNode { idx: 10 }), 0);
    let mut out = b.finalize();
    assert_eq!(popped(out.pop()), None);
    out.collect_out_event(&OutCostEventLink::new(0, OutEvent { val: 1 }, 5));
    out.collect_out_event(&OutCostEventLink::new(1, OutEvent { val: 2 }, 7));
    out.collect_out_event(&OutCostEventLink::new(0, OutEvent { val: 4 }, 1));
    assert_eq!(popped(out.pop()), Some((11, 2)));
    assert_eq!(popped(out.pop()), Some((10, 5)));
    assert_eq!(popped(out.pop()), None);
}

#[test]
fn visitor_counts_wrap_around() {
    let mut v = MyVisitor { n1: usize::MAX, n2: 3 };
    v.visit_mut(&InNode1 { idx: 0 });
    v.visit_mut(&InNode2 { idx: 0 });
    assert_eq!((v.n1, v.n2), (0, 4));
}

#[test]
fn two_nodes_graph_wakes_the_other_constraints() {
    let mut g = TwoNodesGraph::new();
    g.insert_node1_to_node2(VariableId(0), VariableState::BoundsChange, 1);
    g.insert_node1_to_node2(VariableId(0), VariableState::BoundsChange, 0);
    g.insert_node1_to_node2(VariableId(1), VariableState::BoundsChange, 0);
    g.add_event(VariableId(0), 0, VariableState::BoundsChange);
    assert_eq!(g.events(), Some(vec![(1, vec![VariableId(0)])]));
    assert_eq!(g.events(), None);
    g.add_event(VariableId(0), 2, VariableState::BoundsChange);
    g.add_event(VariableId(1), 2, VariableState::MaxBoundChange);
    let woken = g.events().unwrap();
    assert_eq!(woken.len(), 2);
    assert!(woken.contains(&(1, vec![VariableId(0)])));
    assert!(woken.iter().any(|(n, ids)| *n == 0 && ids.len() == 2));
}

#[test]
fn two_nodes_graph_same_event_twice_is_once() {
    let mut g = TwoNodesGraph::new();
    g.insert_node1_to_node2(VariableId(0), VariableState::ValuesChange, 1);
    g.add_event(VariableId(0), 0, VariableState::MinBoundChange);
    g.add_event(VariableId(0), 0, VariableState::MinBoundChange);
    assert_eq!(g.events(), Some(vec![(1, vec![VariableId(0)])]));
    assert_eq!(g.events(), None);
}

#[test]
fn two_nodes_graph_ignores_unlabelled_changes() {
    let mut g = TwoNodesGraph::new();
    g.insert_node1_to_node2(VariableId(0), VariableState::BoundsChange, 1);
    g.add_event(VariableId(0), 0, VariableState::NoChange);
    assert_eq!(g.events(), None);
}
