use slotgraph::graphs::simple::SimpleMapGraph;
use slotgraph::graphs::Graph;
use slotgraph::GraphError;

#[test]
fn undirected() {
    let mut graph = SimpleMapGraph::<&str, i32, false>::new();

    assert!(!graph.is_directed());
    assert!(!graph.is_multigraph());

    assert_eq!(graph.node_count(), 0);
    let jakob = graph.add_node("Jakob");
    let edgar = graph.add_node("Edgar");
    let bernhard = graph.add_node("Bernhard");
    assert_eq!(graph.node_count(), 3);

    assert_eq!(graph.edge_count(), 0);
    let je = graph.add_edge(jakob, edgar, 12);
    let eb = graph.add_edge(edgar, bernhard, 7);
    assert_eq!(graph.edge_count(), 2);

    assert!(graph.contains_edge_between(jakob, edgar));
    assert!(graph.contains_edge_between(edgar, jakob));
    assert!(!graph.contains_edge_between(jakob, bernhard));

    assert_eq!(graph.degree(jakob), 1);
    assert_eq!(graph.degree(edgar), 2);

    assert_eq!(graph.edges_of(jakob), vec![(edgar, je)]);
    assert_eq!(graph.edges_of(edgar), vec![(jakob, je), (bernhard, eb)]);

    let neighbors_jakob: Vec<_> = graph.edges_of(jakob).into_iter().map(|p| p.0).collect();
    assert_eq!(neighbors_jakob, vec![edgar]);
    let neighbors_edgar: Vec<_> = graph.edges_of(edgar).into_iter().map(|p| p.0).collect();
    assert_eq!(neighbors_edgar, vec![jakob, bernhard]);
}

#[test]
fn undirected_membership_is_symmetric() {
    let mut graph = SimpleMapGraph::<u8, u8, false>::new();
    let a = graph.add_node(1);
    let b = graph.add_node(2);
    assert_eq!(
        graph.contains_edge_between(a, b),
        graph.contains_edge_between(b, a)
    );
    let e = graph.add_edge(a, b, 0);
    assert!(graph.contains_edge_between(a, b));
    assert!(graph.contains_edge_between(b, a));
    graph.remove_edge(e);
    assert!(!graph.contains_edge_between(a, b));
    assert!(!graph.contains_edge_between(b, a));
}

#[test]
fn simple_graph_rejects_duplicates_and_loops() {
    let mut graph = SimpleMapGraph::<u8, u8, false>::new();
    let a = graph.add_node(1);
    let b = graph.add_node(2);
    assert!(graph.try_add_edge(a, b, 0).is_ok());
    assert_eq!(graph.try_add_edge(a, b, 1), Err(GraphError::DuplicateEdge(a, b)));
    assert_eq!(graph.try_add_edge(b, a, 1), Err(GraphError::DuplicateEdge(b, a)));
    assert_eq!(graph.try_add_edge(a, a, 1), Err(GraphError::Loop(a)));

    let mut directed = SimpleMapGraph::<u8, u8, true>::new();
    let c = directed.add_node(1);
    let d = directed.add_node(2);
    assert!(directed.try_add_edge(c, d, 0).is_ok());
    assert_eq!(directed.try_add_edge(c, d, 1), Err(GraphError::DuplicateEdge(c, d)));
    // the opposite orientation is a different directed pair
    assert!(directed.try_add_edge(d, c, 1).is_ok());
    assert_eq!(directed.try_add_edge(c, c, 1), Err(GraphError::Loop(c)));
}

#[test]
fn add_edge_error_precedence() {
    let mut graph = SimpleMapGraph::<u8, u8, true>::new();
    let a = graph.add_node(1);
    let b = graph.add_node(2);
    let gone = graph.add_node(3);
    graph.remove_node(gone);
    assert_eq!(graph.try_add_edge(gone, b, 0), Err(GraphError::NodeNotFound(gone)));
    assert_eq!(graph.try_add_edge(a, gone, 0), Err(GraphError::NodeNotFound(gone)));
    // a self-pair is a Loop on a simple graph, live or not
    assert_eq!(graph.try_add_edge(gone, gone, 0), Err(GraphError::Loop(gone)));
}
