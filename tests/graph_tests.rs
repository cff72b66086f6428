use graph::graph::{Edge, Graph, Node};

fn example_graph() -> Graph {
    let mut graph = Graph::new();
    graph.add_node(0, "A".to_string());
    graph.add_node(1, "B".to_string());
    graph.add_node(2, "C".to_string());
    graph.add_node(3, "D".to_string());
    graph.add_node(4, "E".to_string());
    graph.add_edge(0, 2);
    graph.add_edge(1, 3);
    graph.add_edge(2, 3);
    graph.add_edge(3, 4);
    graph
}

fn edge(source: usize, target: usize) -> Edge {
    Edge { source, target }
}

#[test]
fn test_breadth_first_search() {
    let graph = example_graph();
    let result = graph.breadth_first_search(0);
    let expected_result = vec![0, 2, 3, 4];
    assert_eq!(result, expected_result);
}

#[test]
fn test_depth_first_search() {
    let graph = example_graph();
    let result = graph.depth_first_search(0);
    assert_eq!(result, vec![0, 2, 3, 4]);
}

#[test]
fn add_node_test() {
    let mut graph = example_graph();
    graph.add_node(5, "F".to_string());
    let expected_node = Node {
        id: 5,
        label: "F".to_string(),
    };
    assert_eq!(graph.nodes[5], expected_node);
}

#[test]
fn remove_node_test() {
    let mut graph = example_graph();
    graph.remove_node(4);
    assert!(graph.nodes.get(5).is_none());
}

#[test]
fn add_edge_test() {
    let mut graph = example_graph();
    graph.add_edge(4, 1);
    let expected_edge = Edge {
        source: 4,
        target: 1,
    };
    assert_eq!(graph.edges[4], expected_edge);
}

#[test]
fn remove_edge_test() {
    let mut graph = example_graph();
    graph.remove_edge(3, 4);
    assert!(graph.edges.get(3).is_none());
}

#[test]
fn new_graph_is_empty() {
    let graph = Graph::new();
    assert!(graph.nodes.is_empty());
    assert!(graph.edges.is_empty());
    let graph = Graph::default();
    assert!(graph.nodes.is_empty());
    assert!(graph.edges.is_empty());
}

#[test]
fn remove_edge_takes_exactly_that_edge() {
    let mut graph = example_graph();
    assert!(graph.remove_edge(3, 4));
    assert_eq!(graph.edges.len(), 3);
    assert_eq!(graph.edges, vec![edge(0, 2), edge(1, 3), edge(2, 3)]);
    assert_eq!(graph.nodes.len(), 5);
}

#[test]
fn remove_edge_takes_only_the_first_duplicate() {
    let mut graph = example_graph();
    graph.add_edge(2, 3);
    assert!(graph.remove_edge(2, 3));
    assert_eq!(graph.edges, vec![edge(0, 2), edge(1, 3), edge(3, 4), edge(2, 3)]);
}

#[test]
fn remove_node_cascades_to_its_edges() {
    let mut graph = example_graph();
    assert!(graph.remove_node(3));
    let ids: Vec<usize> = graph.nodes.iter().map(|n| n.id).collect();
    assert_eq!(ids, vec![0, 1, 2, 4]);
    assert_eq!(graph.edges, vec![edge(0, 2)]);
    assert!(graph.nodes.iter().all(|n| n.id != 3));
}

#[test]
fn remove_node_takes_only_the_first_with_the_id() {
    let mut graph = example_graph();
    graph.add_node(2, "Z".to_string());
    assert!(graph.remove_node(2));
    assert_eq!(graph.nodes.len(), 5);
    assert_eq!(graph.nodes[4], Node { id: 2, label: "Z".to_string() });
    assert_eq!(graph.edges, vec![edge(1, 3), edge(3, 4)]);
}

#[test]
fn removals_that_miss_change_nothing() {
    let mut graph = example_graph();
    let nodes = graph.nodes.clone();
    let edges = graph.edges.clone();
    assert!(!graph.remove_node(9));
    assert!(!graph.remove_edge(4, 0));
    assert!(!graph.remove_edge(2, 0));
    assert_eq!(graph.nodes, nodes);
    assert_eq!(graph.edges, edges);
}

#[test]
fn node_equality_compares_id_and_label() {
    let a = Node { id: 1, label: "x".to_string() };
    assert_eq!(a, Node { id: 1, label: "x".to_string() });
    assert_ne!(a, Node { id: 1, label: "y".to_string() });
    assert_ne!(a, Node { id: 2, label: "x".to_string() });
}

#[test]
fn searches_from_an_isolated_start() {
    let graph = example_graph();
    assert_eq!(graph.breadth_first_search(4), vec![4]);
    assert_eq!(graph.depth_first_search(4), vec![4]);
}

#[test]
fn searches_from_another_start() {
    let graph = example_graph();
    assert_eq!(graph.breadth_first_search(1), vec![1, 3, 4]);
    assert_eq!(graph.depth_first_search(1), vec![1, 3, 4]);
}

#[test]
fn breadth_first_goes_level_by_level() {
    let mut graph = Graph::new();
    for i in 0..4 {
        graph.add_node(i, i.to_string());
    }
    graph.add_edge(0, 1);
    graph.add_edge(0, 2);
    graph.add_edge(1, 3);
    assert_eq!(graph.breadth_first_search(0), vec![0, 1, 2, 3]);
}

#[test]
fn depth_first_takes_neighbours_in_reverse_edge_order() {
    let mut graph = Graph::new();
    for i in 0..4 {
        graph.add_node(i, i.to_string());
    }
    graph.add_edge(0, 1);
    graph.add_edge(0, 2);
    graph.add_edge(1, 3);
    assert_eq!(graph.depth_first_search(0), vec![0, 2, 1, 3]);
}

#[test]
fn searches_visit_each_node_once_on_cycles() {
    let mut graph = Graph::new();
    for i in 0..3 {
        graph.add_node(i, i.to_string());
    }
    graph.add_edge(0, 1);
    graph.add_edge(1, 0);
    graph.add_edge(1, 2);
    graph.add_edge(2, 2);
    assert_eq!(graph.breadth_first_search(0), vec![0, 1, 2]);
    assert_eq!(graph.depth_first_search(0), vec![0, 1, 2]);
}

#[test]
fn depth_first_skips_a_node_pushed_twice() {
    let mut graph = Graph::new();
    for i in 0..3 {
        graph.add_node(i, i.to_string());
    }
    graph.add_edge(0, 1);
    graph.add_edge(0, 2);
    graph.add_edge(2, 1);
    assert_eq!(graph.depth_first_search(0), vec![0, 2, 1]);
    assert_eq!(graph.breadth_first_search(0), vec![0, 1, 2]);
}

#[test]
fn search_after_mutations() {
    let mut graph = example_graph();
    graph.remove_edge(3, 4);
    graph.remove_node(4);
    graph.add_node(4, "E".to_string());
    graph.add_edge(3, 4);
    assert_eq!(graph.breadth_first_search(0), vec![0, 2, 3, 4]);
    assert_eq!(graph.depth_first_search(0), vec![0, 2, 3, 4]);
}

#[test]
fn search_bounds_of_the_example() {
    let graph = example_graph();
    assert!(graph.search_in_bounds(0));
    assert!(graph.search_in_bounds(4));
    assert!(!graph.search_in_bounds(5));
}

#[test]
fn search_bounds_look_only_at_reachable_edges() {
    let mut graph = example_graph();
    graph.add_edge(1, 9);
    assert!(graph.search_in_bounds(0));
    assert!(!graph.search_in_bounds(1));
    assert_eq!(graph.breadth_first_search(0), vec![0, 2, 3, 4]);
    assert_eq!(graph.depth_first_search(0), vec![0, 2, 3, 4]);
}
