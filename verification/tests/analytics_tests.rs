use social_reach::analysis::extended_degree;
use social_reach::analysis::non_isolated_vertices;
use social_reach::batch::chunk_records;
use social_reach::batch::run_batches;
use social_reach::batch::BatchConfig;
use social_reach::graph::Graph;
use social_reach::stats::compute_distance_map;
use social_reach::stats::distance_map_for_nodes;
use social_reach::stats::find_max_proportions;
use social_reach::stats::overlap_counts;
use social_reach::stats::overlap_counts_for_nodes;
use social_reach::strings::str_eq;
use social_reach::strings::str_lt;
use std::collections::HashSet;

fn fixture() -> Graph {
    let mut graph = Graph::new();
    graph.add_edge("A".to_string(), "B".to_string());
    graph.add_edge("A".to_string(), "C".to_string());
    graph.add_edge("B".to_string(), "D".to_string());
    graph.add_edge("C".to_string(), "E".to_string());
    graph.add_edge("D".to_string(), "E".to_string());
    graph
}

#[test]
fn sample_size_is_clamped_and_duplicate_free() {
    let graph = fixture();
    for k in [0usize, 1, 3, 5, 10, 100] {
        let sample = graph.sample_random_nodes(k);
        assert_eq!(sample.len(), k.min(5));
        let distinct: HashSet<String> = sample.iter().cloned().collect();
        assert_eq!(distinct.len(), sample.len());
        for node in &sample {
            assert!(["A", "B", "C", "D", "E"].contains(&node.as_str()));
        }
    }
}

#[test]
fn sampling_empty_graph_returns_nothing() {
    let graph = Graph::new();
    assert!(graph.sample_random_nodes(10).is_empty());
}

#[test]
fn distance_map_counts_are_exact() {
    let graph = fixture();
    let nodes = vec!["A".to_string()];
    let rows = distance_map_for_nodes(&graph, &nodes, 6);
    assert_eq!(rows.len(), 1);
    let (node, counts) = &rows[0];
    assert_eq!(node, "A");
    // depth 1 reaches {A, B, C}; depth 2 and beyond reach all five vertices
    assert_eq!(counts, &vec![3, 5, 5, 5, 5, 5]);
}

#[test]
fn proportions_never_exceed_the_vertex_count() {
    let graph = fixture();
    let total = graph.vertex_count();
    let rows = compute_distance_map(&graph, 100);
    assert_eq!(rows.len(), 5);
    for (_, counts) in &rows {
        assert_eq!(counts.len(), 6);
        for &c in counts {
            assert!(c >= 1);
            assert!(c <= total);
        }
    }
}

#[test]
fn best_vertex_per_depth_breaks_ties_lexicographically() {
    let graph = fixture();
    let nodes = vec![
        "E".to_string(),
        "B".to_string(),
        "A".to_string(),
        "D".to_string(),
        "C".to_string(),
    ];
    let rows = distance_map_for_nodes(&graph, &nodes, 6);
    let best = find_max_proportions(&rows);
    assert_eq!(best.len(), 6);
    // every vertex has degree 2, so depth 1 ties at count 3: "A" wins the tie
    assert_eq!(best[0], (1, "A".to_string(), 3));
    // at depth 2 every vertex reaches all five: "A" again by tie-break
    assert_eq!(best[1], (2, "A".to_string(), 5));
    for (d, entry) in best.iter().enumerate() {
        assert_eq!(entry.0, d + 1);
        assert_eq!(entry.1, "A");
        assert_eq!(entry.2, if d == 0 { 3 } else { 5 });
    }
}

#[test]
fn find_max_on_empty_map_reports_empty_nodes() {
    let rows: Vec<(String, Vec<usize>)> = Vec::new();
    let best = find_max_proportions(&rows);
    assert_eq!(best.len(), 6);
    for (d, entry) in best.iter().enumerate() {
        assert_eq!(*entry, (d + 1, String::new(), 0));
    }
}

#[test]
fn overlap_never_exceeds_followers() {
    let graph = fixture();
    let nodes = vec!["A".to_string(), "B".to_string(), "E".to_string()];
    let (overlap, followers) = overlap_counts_for_nodes(&graph, &nodes);
    assert!(overlap <= followers);
    // each vertex reaches all five at depth 2 and has both neighbors inside
    assert_eq!(followers, 15);
    assert_eq!(overlap, 6);
    let (o2, f2) = overlap_counts(&graph, 100);
    assert!(o2 <= f2);
    assert_eq!(f2, 25);
    assert_eq!(o2, 10);
}

#[test]
fn extended_degree_counts_neighbors_of_neighbors() {
    let graph = fixture();
    // every vertex has degree 2 and both its neighbors have degree 2:
    // 2 + (2 - 1) + (2 - 1) = 4
    for v in ["A", "B", "C", "D", "E"] {
        assert_eq!(extended_degree(&graph, v), 4);
    }
    assert_eq!(extended_degree(&graph, "Z"), 0);
}

#[test]
fn isolated_vertices_are_excluded() {
    let mut graph = Graph::new();
    graph.add_edge("A".to_string(), "B".to_string());
    // a self-loop leaves "L" in a singleton component
    graph.add_edge("L".to_string(), "L".to_string());
    let non_isolated: HashSet<String> = non_isolated_vertices(&graph).into_iter().collect();
    let expected: HashSet<String> =
        vec!["A", "B"].into_iter().map(|s| s.to_string()).collect();
    assert_eq!(non_isolated, expected);
}

#[test]
fn chunking_preserves_records_in_order() {
    let records: Vec<(String, String)> = (0..7)
        .map(|i: usize| (format!("u{}", i), format!("v{}", i)))
        .collect();
    let chunks = chunk_records(&records, 3);
    assert_eq!(chunks.len(), 3);
    assert_eq!(chunks[0].len(), 3);
    assert_eq!(chunks[1].len(), 3);
    assert_eq!(chunks[2].len(), 1);
    let flattened: Vec<(String, String)> = chunks.into_iter().flatten().collect();
    assert_eq!(flattened, records);
}

#[test]
fn batched_run_reports_each_chunk() {
    let records = vec![
        ("A".to_string(), "B".to_string()),
        ("B".to_string(), "C".to_string()),
        ("X".to_string(), "Y".to_string()),
        ("Y".to_string(), "Z".to_string()),
    ];
    let cfg = BatchConfig { chunk_size: 2, max_chunks: 20, reset_per_batch: true };
    let reports = run_batches(&records, &cfg);
    assert_eq!(reports.len(), 2);
    for report in &reports {
        // each chunk names three vertices, none isolated
        assert_eq!(report.degrees.len(), 3);
        assert_eq!(report.non_isolated.len(), 3);
    }
    let cfg_limited = BatchConfig { chunk_size: 2, max_chunks: 1, reset_per_batch: true };
    assert_eq!(run_batches(&records, &cfg_limited).len(), 1);
    let cfg_cumulative = BatchConfig { chunk_size: 2, max_chunks: 20, reset_per_batch: false };
    let cumulative = run_batches(&records, &cfg_cumulative);
    assert_eq!(cumulative.len(), 2);
    // whichever chunk the shuffle puts first, it alone names three vertices,
    // and after both chunks all six are loaded
    assert_eq!(cumulative[0].degrees.len(), 3);
    assert_eq!(cumulative[1].degrees.len(), 6);
}

#[test]
fn depth_profile_reports_every_depth_in_order() {
    let graph = fixture();
    let profile = social_reach::stats::depth_profile(&graph, 100);
    assert_eq!(profile.len(), 6);
    for (d, entry) in profile.iter().enumerate() {
        assert_eq!(entry.0, d + 1);
        assert!(entry.2 <= graph.vertex_count());
    }
    // the sample covers all five vertices, reach ties at each depth, and the
    // lexicographically smallest identifier wins the tie
    assert_eq!(profile[0].1, "A");
    assert_eq!(profile[0].2, 3);
    assert_eq!(profile[1].1, "A");
    assert_eq!(profile[1].2, 5);
}

#[test]
fn string_comparison_orders_identifiers() {
    assert!(str_eq("node1", "node1"));
    assert!(!str_eq("node1", "node2"));
    assert!(str_lt("A", "B"));
    assert!(str_lt("A", "AB"));
    assert!(!str_lt("B", "A"));
    assert!(!str_lt("A", "A"));
    assert!(str_lt("", "A"));
}
