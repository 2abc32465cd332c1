use collections::graph::Graph;

fn sample() -> Graph<&'static str> {
    //  a --1--> b --2--> c --1--> d
    //  a --------7--------------> d
    //  d --1--> a,  e alone,  c --9--> c
    let mut graph = Graph::new();
    graph.set_nodes(vec!["a", "b", "c", "d", "e"]);
    graph.set_edges("a", vec![(1, "b"), (7, "d"), (3, "nowhere")]);
    graph.set_edges("b", vec![(2, "c")]);
    graph.set_edges("c", vec![(1, "d"), (9, "c")]);
    graph.set_edges("d", vec![(1, "a")]);
    graph
}

#[test]
fn graph_node_index_is_the_first_place() {
    let mut graph = Graph::new();
    assert_eq!(graph.get_node_index(&"a"), None);
    graph.set_nodes(vec!["a", "b", "a", "c"]);
    assert_eq!(graph.get_node_index(&"a"), Some(0));
    assert_eq!(graph.get_node_index(&"b"), Some(1));
    assert_eq!(graph.get_node_index(&"c"), Some(3));
    assert_eq!(graph.get_node_index(&"d"), None);
}

#[test]
fn graph_set_edges_adds_unknown_nodes() {
    let mut graph = Graph::new();
    graph.set_edges(1, vec![(5, 1), (5, 2)]);
    assert_eq!(graph.get_node_index(&1), Some(0));
    assert_eq!(graph.get_node_index(&2), None);
    assert_eq!(graph.connected(&1, 3), Some(vec![]));
    graph.set_edges(2, vec![(4, 1)]);
    assert_eq!(graph.get_node_index(&2), Some(1));
    assert_eq!(graph.connected(&2, 1), Some(vec![&1]));
    graph.set_edges(1, vec![(5, 1), (5, 2)]);
    assert_eq!(graph.connected(&1, 1), Some(vec![&1, &2]));
    assert_eq!(graph.shortest_path(&2, &2), Some((0, vec![&2])));
    assert_eq!(graph.shortest_path(&1, &2), Some((5, vec![&1, &2])));
}

#[test]
fn graph_connected_within_degrees() {
    let graph = sample();
    assert_eq!(graph.connected(&"nowhere", 2), None);
    assert_eq!(graph.connected(&"a", 0), Some(vec![]));
    assert_eq!(graph.connected(&"a", 1), Some(vec![&"b", &"d"]));
    assert_eq!(graph.connected(&"a", 2), Some(vec![&"a", &"b", &"c", &"d"]));
    assert_eq!(graph.connected(&"b", 1), Some(vec![&"c"]));
    assert_eq!(graph.connected(&"b", 2), Some(vec![&"c", &"d"]));
    assert_eq!(graph.connected(&"e", 5), Some(vec![]));
    assert_eq!(graph.connected(&"c", 1), Some(vec![&"c", &"d"]));
}

#[test]
fn graph_shortest_paths() {
    let graph = sample();
    assert_eq!(graph.shortest_path(&"a", &"nowhere"), None);
    assert_eq!(graph.shortest_path(&"nowhere", &"a"), None);
    assert_eq!(graph.shortest_path(&"a", &"a"), Some((0, vec![&"a"])));
    assert_eq!(graph.shortest_path(&"a", &"b"), Some((1, vec![&"a", &"b"])));
    assert_eq!(
        graph.shortest_path(&"a", &"d"),
        Some((4, vec![&"a", &"b", &"c", &"d"]))
    );
    assert_eq!(
        graph.shortest_path(&"b", &"a"),
        Some((4, vec![&"b", &"c", &"d", &"a"]))
    );
    assert_eq!(graph.shortest_path(&"a", &"e"), None);
    assert_eq!(graph.shortest_path(&"e", &"a"), None);
}

#[test]
fn graph_ways_longer_than_a_u32_are_not_taken() {
    let mut graph = Graph::new();
    graph.set_nodes(vec![0, 1, 2]);
    graph.set_edges(0, vec![(u32::MAX, 1), (u32::MAX, 2)]);
    graph.set_edges(1, vec![(1, 2)]);
    assert_eq!(graph.shortest_path(&0, &2), Some((u32::MAX, vec![&0, &2])));
    graph.set_edges(0, vec![(u32::MAX, 1)]);
    assert_eq!(graph.shortest_path(&0, &2), None);
    assert_eq!(graph.shortest_path(&0, &1), Some((u32::MAX, vec![&0, &1])));
}
