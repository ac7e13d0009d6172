use slotgraph::bfs::BreadthFirstSearch;
use slotgraph::graphs::simple::{SimpleListGraph, SimpleMapGraph};
use slotgraph::graphs::Graph;

#[test]
fn basic_imperative_bfs() {
    let mut graph = SimpleMapGraph::<i32, (), true>::new();

    let zero = graph.add_node(0);
    let one = graph.add_node(1);
    let two = graph.add_node(2);
    let three = graph.add_node(3);

    graph.add_edge(zero, one, ());
    graph.add_edge(zero, two, ());
    graph.add_edge(one, two, ());
    graph.add_edge(two, zero, ());
    graph.add_edge(two, three, ());

    let elements = vec![0, 2, 1, 3];

    let mut counted_elements = Vec::with_capacity(4);

    let mut bfs = BreadthFirstSearch::with_capacity(zero, graph.node_count());
    while let Some(node) = bfs.next(&graph) {
        counted_elements.push(*node);
    }

    assert_eq!(elements, counted_elements);
}

#[test]
fn bfs_is_terminal_after_component() {
    let mut graph = SimpleMapGraph::<i32, (), true>::new();
    let zero = graph.add_node(0);
    let one = graph.add_node(1);
    let two = graph.add_node(2);
    graph.add_edge(zero, one, ());
    // `two` is unreachable from `zero`
    let _ = two;

    let mut bfs = BreadthFirstSearch::new(zero);
    let mut produced = 0;
    while let Some(_) = bfs.next(&graph) {
        produced += 1;
    }
    assert_eq!(produced, 2);
    assert!(bfs.next(&graph).is_none());
    assert!(bfs.next(&graph).is_none());
}

#[test]
fn bfs_next_mut_updates_payloads() {
    let mut graph = SimpleMapGraph::<i32, (), false>::new();
    let a = graph.add_node(1);
    let b = graph.add_node(2);
    let c = graph.add_node(3);
    graph.add_edge(a, b, ());
    graph.add_edge(b, c, ());

    let mut bfs = BreadthFirstSearch::new(a);
    while let Some(value) = bfs.next_mut(&mut graph) {
        *value *= 10;
    }
    assert_eq!(*graph.get_node(a).unwrap(), 10);
    assert_eq!(*graph.get_node(b).unwrap(), 20);
    assert_eq!(*graph.get_node(c).unwrap(), 30);
}

#[test]
fn bfs_follows_the_list_encoding_record_order() {
    let mut graph = SimpleListGraph::<i32, (), true>::new();
    let zero = graph.add_node(0);
    let one = graph.add_node(1);
    let two = graph.add_node(2);
    let three = graph.add_node(3);
    graph.add_edge(zero, one, ());
    graph.add_edge(zero, two, ());
    graph.add_edge(one, two, ());
    graph.add_edge(two, zero, ());
    graph.add_edge(two, three, ());

    // the list encoding appends, so ties break in insertion order here
    let mut order = Vec::new();
    let mut bfs = BreadthFirstSearch::new(zero);
    while let Some(node) = bfs.next(&graph) {
        order.push(*node);
    }
    assert_eq!(order, vec![0, 1, 2, 3]);
}
