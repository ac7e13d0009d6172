use slotgraph::graphs::multi::{MultiListGraph, MultiMapGraph};
use slotgraph::GraphError;
use slotgraph::graphs::Graph;

#[test]
fn parallel_edges_are_kept_apart() {
    let mut graph = MultiListGraph::<&str, u32, false>::new();
    assert!(graph.is_multigraph());
    let a = graph.add_node("a");
    let b = graph.add_node("b");
    let e1 = graph.add_edge(a, b, 1);
    let e2 = graph.add_edge(a, b, 2);
    assert_eq!(graph.edge_count(), 2);
    assert!(graph.contains_edge_between(a, b));
    assert!(graph.contains_edge_between(b, a));
    let between = graph.edges_between(a, b);
    assert_eq!(between.len(), 2);
    assert!(between.contains(&e1));
    assert!(between.contains(&e2));

    assert_eq!(graph.remove_edge(e1), Some(1));
    assert_eq!(graph.edges_between(a, b), vec![e2]);
    assert_eq!(graph.edge_count(), 1);
}

#[test]
fn self_loops_count_twice() {
    let mut graph = MultiMapGraph::<u8, u8, false>::new();
    let n = graph.add_node(1);
    let l = graph.add_edge(n, n, 9);
    assert_eq!(graph.degree(n), 2);
    assert_eq!(graph.edges_of(n), vec![(n, l), (n, l)]);
    assert_eq!(graph.edges_between(n, n), vec![l, l]);
    assert_eq!(graph.remove_edge(l), Some(9));
    assert_eq!(graph.degree(n), 0);
    assert_eq!(graph.edges_of(n), vec![]);
}

#[test]
fn cascade_subtracts_degree_minus_loops() {
    let mut graph = MultiMapGraph::<&str, u8, false>::new();
    let a = graph.add_node("a");
    let b = graph.add_node("b");
    let c = graph.add_node("c");
    graph.add_edge(a, b, 0);
    graph.add_edge(a, b, 1);
    graph.add_edge(a, a, 2);
    graph.add_edge(b, c, 3);
    assert_eq!(graph.edge_count(), 4);
    // two parallel edges plus a self-loop counted twice
    assert_eq!(graph.degree(a), 4);
    let degree = graph.degree(a);
    let loops = 1;
    assert_eq!(graph.remove_node(a), Some("a"));
    // the cascade removed degree minus loops edges
    assert_eq!(graph.edge_count(), 4 - (degree - loops));
    assert!(graph.contains_edge_between(b, c));
    assert_eq!(graph.degree(b), 1);
}

#[test]
fn directed_multigraph_removes_nodes_fully() {
    let mut graph = MultiMapGraph::<i32, (), true>::new();
    assert!(graph.is_directed());
    let a = graph.add_node(1);
    let b = graph.add_node(2);
    let c = graph.add_node(3);
    graph.add_edge(a, b, ());
    graph.add_edge(b, a, ());
    graph.add_edge(c, b, ());
    graph.add_edge(b, b, ());
    assert_eq!(graph.edge_count(), 4);
    assert_eq!(graph.remove_node(b), Some(2));
    assert_eq!(graph.edge_count(), 0);
    assert!(graph.has_node(a));
    assert!(graph.has_node(c));
    assert_eq!(graph.degree(a), 0);
    assert_eq!(graph.degree(c), 0);
}

#[test]
fn directed_degree_counts_both_ends() {
    let mut graph = MultiListGraph::<u8, u8, true>::new();
    let a = graph.add_node(1);
    let b = graph.add_node(2);
    let e = graph.add_edge(a, b, 5);
    assert_eq!(graph.degree(a), 1);
    assert_eq!(graph.degree(b), 1);
    // outgoing adjacency is recorded on the source side only
    assert_eq!(graph.edges_of(a), vec![(b, e)]);
    assert_eq!(graph.edges_of(b), vec![]);
}

#[test]
fn undirected_list_multigraph_handles_loops() {
    let mut graph = MultiListGraph::<u8, u8, false>::new();
    let n = graph.add_node(1);
    let m = graph.add_node(2);
    let l = graph.add_edge(n, n, 7);
    let e = graph.add_edge(n, m, 8);
    assert_eq!(graph.degree(n), 3);
    assert_eq!(graph.remove_node(n), Some(1));
    assert_eq!(graph.edge_count(), 0);
    assert!(graph.get_edge(l).is_none());
    assert!(graph.get_edge(e).is_none());
    assert!(graph.has_node(m));
}

#[test]
fn clear_edges_empties_every_record() {
    let mut graph = MultiMapGraph::<u8, u8, true>::new();
    let a = graph.add_node(1);
    let b = graph.add_node(2);
    graph.add_edge(a, b, 0);
    graph.add_edge(a, b, 1);
    graph.add_edge(b, b, 2);
    graph.clear_edges();
    assert_eq!(graph.node_count(), 2);
    assert_eq!(graph.edge_count(), 0);
    assert_eq!(graph.edges_of(a), vec![]);
    assert_eq!(graph.edges_of(b), vec![]);
    assert_eq!(graph.degree(b), 0);
    assert!(!graph.contains_edge_between(a, b));
}

#[test]
fn try_edges_between_reports_a_missing_source() {
    let mut graph = MultiListGraph::<u8, u8, false>::new();
    let a = graph.add_node(1);
    let b = graph.add_node(2);
    let e = graph.add_edge(a, b, 3);
    assert_eq!(graph.try_edges_between(a, b), Ok(vec![e]));

    let gone = graph.add_node(9);
    graph.remove_node(gone);
    assert_eq!(
        graph.try_edges_between(gone, b),
        Err(GraphError::NodeNotFound(gone))
    );
    // an absent destination is no error: it simply finds no edges
    assert_eq!(graph.try_edges_between(a, gone), Ok(vec![]));
}
