use slotgraph::graphs::simple::SimpleListGraph;
use slotgraph::graphs::{Graph, SimpleGraph};

#[allow(dead_code)]
enum Person {
    Jake,
    Michael,
    Jennifer,
}

#[test]
fn undirected_edge() {
    let strength: i32 = 100;

    let mut map_graph = SimpleListGraph::<Person, i32, false>::new();

    let jake = map_graph.add_node(Person::Jake);
    let michael = map_graph.add_node(Person::Michael);
    let _best_friends = map_graph.add_edge(jake, michael, strength);

    let strength_jake = map_graph.edge_between(jake, michael).unwrap();
    assert!(strength_jake.is_some());
    assert_eq!(*map_graph.get_edge(strength_jake.unwrap()).unwrap().data, strength);

    let strength_michael = map_graph.edge_between(michael, jake).unwrap();
    assert!(strength_michael.is_some());
    assert_eq!(*map_graph.get_edge(strength_michael.unwrap()).unwrap().data, strength);
}

#[test]
fn directed_edge() {
    let strength: i32 = 9999;

    let mut map_graph = SimpleListGraph::<Person, i32, true>::new();

    let jake = map_graph.add_node(Person::Jake);
    let jennifer = map_graph.add_node(Person::Jennifer);
    let _oneway_crush = map_graph.add_edge(jake, jennifer, strength);

    let strength_jake = map_graph.edge_between(jake, jennifer).unwrap();
    assert!(strength_jake.is_some());
    assert_eq!(*map_graph.get_edge(strength_jake.unwrap()).unwrap().data, strength);

    let strength_jennifer = map_graph.edge_between(jennifer, jake).unwrap();
    assert!(strength_jennifer.is_none());
}

#[test]
fn edge_between_unchecked_returns_the_edge() {
    let mut graph = SimpleListGraph::<u8, u8, false>::new();
    let a = graph.add_node(1);
    let b = graph.add_node(2);
    let e = graph.add_edge(a, b, 7);
    assert_eq!(graph.edge_between_unchecked(a, b), e);
    assert_eq!(graph.edge_between_unchecked(b, a), e);
}
