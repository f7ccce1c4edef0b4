use social_reach::graph::Graph;
use std::collections::HashSet;

fn to_set(v: Vec<String>) -> HashSet<String> {
    v.into_iter().collect()
}

fn fixture() -> Graph {
    let mut graph = Graph::new();
    graph.add_edge("A".to_string(), "B".to_string());
    graph.add_edge("A".to_string(), "C".to_string());
    graph.add_edge("B".to_string(), "D".to_string());
    graph.add_edge("C".to_string(), "E".to_string());
    graph.add_edge("D".to_string(), "E".to_string());
    graph
}

#[test]
fn test_breadth_first_search() {
    let graph = fixture();

    let result = to_set(graph.breadth_first_search("A", 2));
    let expected: HashSet<String> = vec!["A", "B", "C", "D", "E"]
        .into_iter()
        .map(|s| s.to_string())
        .collect();

    assert_eq!(result, expected);
}

#[test]
fn test_breadth_first_search_depths() {
    let graph = fixture();

    let result_depth_1 = to_set(graph.breadth_first_search("A", 1));
    let expected_depth_1: HashSet<String> = vec!["A", "B", "C"]
        .into_iter()
        .map(|s| s.to_string())
        .collect();
    assert_eq!(result_depth_1, expected_depth_1);

    let result_depth_2 = to_set(graph.breadth_first_search("A", 2));
    let expected_depth_2: HashSet<String> = vec!["A", "B", "C", "D", "E"]
        .into_iter()
        .map(|s| s.to_string())
        .collect();
    assert_eq!(result_depth_2, expected_depth_2);
}

#[test]
fn test_edge_cases() {
    let empty_graph = Graph::new();
    let empty_result = to_set(empty_graph.breadth_first_search("A", 1));
    let empty_expected: HashSet<String> = vec!["A"].into_iter().map(|s| s.to_string()).collect();
    assert_eq!(empty_result, empty_expected);

    let single_node_graph = Graph::new();
    let single_node_result = to_set(single_node_graph.breadth_first_search("A", 1));
    let expected_single_node: HashSet<String> =
        vec!["A"].into_iter().map(|s| s.to_string()).collect();
    assert_eq!(single_node_result, expected_single_node);

    let mut cyclic_graph = Graph::new();
    cyclic_graph.add_edge("A".to_string(), "B".to_string());
    cyclic_graph.add_edge("B".to_string(), "A".to_string());
    let cyclic_result = to_set(cyclic_graph.breadth_first_search("A", 2));
    let expected_cyclic: HashSet<String> =
        vec!["A", "B"].into_iter().map(|s| s.to_string()).collect();
    assert_eq!(cyclic_result, expected_cyclic);
}

#[test]
fn depth_zero_yields_only_the_start() {
    let graph = fixture();
    let result = graph.breadth_first_search("A", 0);
    assert_eq!(result, vec!["A".to_string()]);
}

#[test]
fn reach_grows_with_depth() {
    let graph = fixture();
    let mut previous: HashSet<String> = HashSet::new();
    for depth in 0..6 {
        let current = to_set(graph.breadth_first_search("A", depth));
        assert!(previous.is_subset(&current));
        previous = current;
    }
}

#[test]
fn symmetry_of_insertion() {
    let graph = fixture();
    assert!(graph.is_neighbor("A", "B"));
    assert!(graph.is_neighbor("B", "A"));
    assert!(graph.is_neighbor("D", "E"));
    assert!(graph.is_neighbor("E", "D"));
    assert!(!graph.is_neighbor("A", "E"));
    assert!(!graph.is_neighbor("E", "A"));
}

#[test]
fn add_edge_is_idempotent() {
    let mut graph = Graph::new();
    graph.add_edge("A".to_string(), "B".to_string());
    graph.add_edge("A".to_string(), "B".to_string());
    graph.add_edge("B".to_string(), "A".to_string());
    assert_eq!(graph.vertex_count(), 2);
    let mut nbrs = graph.neighbors("A");
    nbrs.sort();
    assert_eq!(nbrs, vec!["B".to_string()]);
}

#[test]
fn self_edge_does_not_crash_reachability() {
    let mut graph = Graph::new();
    graph.add_edge("X".to_string(), "X".to_string());
    let result = graph.breadth_first_search("X", 3);
    assert_eq!(result, vec!["X".to_string()]);
    assert!(graph.is_neighbor("X", "X"));
}

#[test]
fn neighbors_of_unknown_vertex_is_empty() {
    let graph = fixture();
    assert!(graph.neighbors("Z").is_empty());
    assert_eq!(graph.vertex_count(), 5);
}
