use slotgraph::graphs::multi::MultiMapGraph;
use slotgraph::graphs::simple::{SimpleListGraph, SimpleMapGraph};
use slotgraph::graphs::Graph;
use slotgraph::iters::{Edges, EdgesMut, NodesMut};

#[test]
fn removed_handles_stay_stale() {
    let mut graph = SimpleListGraph::<u8, u8, true>::new();
    let a = graph.add_node(1);
    let b = graph.add_node(2);
    assert_eq!(graph.node_count(), 2);
    assert_eq!(graph.remove_node(a), Some(1));
    assert_eq!(graph.node_count(), 1);
    assert!(!graph.has_node(a));
    assert!(graph.remove_node(a).is_none());

    // the freed slot may be reused, but never under the old handle
    let c = graph.add_node(3);
    assert_ne!(c, a);
    assert!(!graph.has_node(a));
    assert!(graph.has_node(c));
    assert!(graph.has_node(b));
    assert_eq!(graph.node_count(), 2);
}

#[test]
fn removed_edges_stay_stale() {
    let mut graph = SimpleMapGraph::<u8, u8, false>::new();
    let a = graph.add_node(1);
    let b = graph.add_node(2);
    let c = graph.add_node(3);
    let e = graph.add_edge(a, b, 7);
    assert_eq!(graph.remove_edge(e), Some(7));
    assert!(graph.remove_edge(e).is_none());
    assert!(graph.get_edge(e).is_none());

    // the freed edge slot may be reused, but never under the old handle
    let f = graph.add_edge(b, c, 8);
    assert_ne!(f, e);
    assert!(graph.get_edge(e).is_none());
    assert_eq!(*graph.get_edge(f).unwrap().data, 8);
}

#[test]
fn clear_starts_over_with_fresh_handles() {
    let mut graph = SimpleMapGraph::<u8, u8, false>::new();
    let a = graph.add_node(1);
    let b = graph.add_node(2);
    graph.add_edge(a, b, 3);
    graph.clear();
    assert_eq!(graph.node_count(), 0);
    assert_eq!(graph.edge_count(), 0);
    assert!(!graph.has_node(a));
    assert!(!graph.has_node(b));

    let c = graph.add_node(9);
    assert_ne!(c, a);
    assert_ne!(c, b);
    assert_eq!(graph.node_count(), 1);

    graph.clear();
    assert_eq!(graph.node_count(), 0);
    assert_eq!(graph.edge_count(), 0);
    let d = graph.add_node(4);
    assert!(graph.has_node(d));
}

#[test]
fn clear_edges_keeps_the_nodes() {
    let mut graph = SimpleListGraph::<u8, u8, false>::new();
    let a = graph.add_node(1);
    let b = graph.add_node(2);
    let e = graph.add_edge(a, b, 3);
    graph.clear_edges();
    assert_eq!(graph.node_count(), 2);
    assert_eq!(graph.edge_count(), 0);
    assert!(graph.has_node(a));
    assert!(graph.get_edge(e).is_none());
    assert_eq!(graph.degree(a), 0);
    // the pair can be connected again afterwards
    let f = graph.add_edge(a, b, 4);
    assert_eq!(*graph.get_edge(f).unwrap().data, 4);
}

#[test]
fn payloads_can_be_mutated_in_place() {
    let mut graph = SimpleMapGraph::<u8, u8, true>::new();
    let a = graph.add_node(1);
    let b = graph.add_node(2);
    let e = graph.add_edge(a, b, 3);
    *graph.get_node_mut(a).unwrap() = 11;
    *graph.get_edge_mut(e).unwrap() = 13;
    assert_eq!(*graph.get_node(a).unwrap(), 11);
    assert_eq!(*graph.get_edge(e).unwrap().data, 13);
    assert!(graph.get_node_mut(b).is_some());
    let gone = graph.add_node(0);
    graph.remove_node(gone);
    assert!(graph.get_node_mut(gone).is_none());
}

#[test]
fn handle_lists_follow_arena_order() {
    let mut graph = SimpleListGraph::<u8, u8, false>::new();
    let a = graph.add_node(1);
    let b = graph.add_node(2);
    let c = graph.add_node(3);
    let ab = graph.add_edge(a, b, 0);
    let bc = graph.add_edge(b, c, 0);
    assert_eq!(graph.nodes(), vec![a, b, c]);
    assert_eq!(graph.edges(), vec![ab, bc]);
    graph.remove_node(b);
    assert_eq!(graph.nodes(), vec![a, c]);
    assert_eq!(graph.edges(), vec![]);
    assert!(!graph.is_empty());
}

#[test]
fn edges_adapter_resolves_live_handles() {
    let mut graph = SimpleMapGraph::<u8, u16, false>::new();
    let a = graph.add_node(1);
    let b = graph.add_node(2);
    let c = graph.add_node(3);
    let ab = graph.add_edge(a, b, 10);
    let bc = graph.add_edge(b, c, 20);
    let handles = graph.edges();
    graph.remove_edge(ab);

    let mut edges = Edges::new(handles);
    // the first handle is stale now: it is consumed but resolves to nothing
    assert!(edges.next(&graph).is_none());
    let view = edges.next(&graph).unwrap();
    assert_eq!(view.src, b);
    assert_eq!(view.dst, c);
    assert_eq!(*view.data, 20);
    assert!(edges.next(&graph).is_none());
    let _ = bc;
}

#[test]
fn constructors_agree_on_emptiness() {
    let fresh = SimpleListGraph::<u8, u8, true>::new();
    assert!(fresh.is_empty());
    assert_eq!(fresh.edge_count(), 0);

    let hinted = SimpleMapGraph::<u8, u8, false>::with_capacity(16, 32);
    assert!(hinted.is_empty());

    let defaulted: SimpleListGraph<u8, u8, false> = Default::default();
    assert!(defaulted.is_empty());

    let multi = MultiMapGraph::<u8, u8, true>::with_capacity(4, 4);
    assert!(multi.is_empty());
    assert!(multi.is_multigraph() && multi.is_directed());
}

#[test]
fn mutable_adapters_update_payloads_in_place() {
    let mut graph = SimpleMapGraph::<u8, u16, false>::new();
    let a = graph.add_node(1);
    let b = graph.add_node(2);
    let ab = graph.add_edge(a, b, 10);

    let mut nodes = NodesMut::new(graph.nodes());
    while let Some(value) = nodes.next(&mut graph) {
        *value += 100;
    }
    assert_eq!(*graph.get_node(a).unwrap(), 101);
    assert_eq!(*graph.get_node(b).unwrap(), 102);

    let mut edges = EdgesMut::new(graph.edges());
    while let Some(value) = edges.next(&mut graph) {
        *value *= 3;
    }
    assert_eq!(*graph.get_edge(ab).unwrap().data, 30);

    // a stale handle is consumed but resolves to nothing
    graph.remove_edge(ab);
    let mut stale = EdgesMut::new(vec![ab]);
    assert!(stale.next(&mut graph).is_none());
    assert!(stale.next(&mut graph).is_none());
}
