use std::collections::HashMap;
use youtube_social_network::analysis::{
    average_shortest_path_from, calculate_average_shortest_path, calculate_degree_distribution,
    detect_communities, distribution_extent,
};
use youtube_social_network::centrality::{
    calculate_closeness_centrality_parallel, calculate_degree_centrality,
    closeness_centrality_of, shortest_paths_from,
};
use youtube_social_network::graph::{add_edge, get_graph_info, nodes, sample_nodes};
use youtube_social_network::propagation::{
    group_by_label, labels_of_neighbors, majority_label, propagate_round,
};
use youtube_social_network::ratio::Ratio;
use youtube_social_network::records::{parse_edge, parse_node, parse_record};
use youtube_social_network::traversal::{breadth_first_search, measure_reach, Reach};

fn value(ratio: &Ratio) -> f64 {
    if ratio.denominator == 0 {
        0.0
    } else {
        ratio.numerator as f64 / ratio.denominator as f64
    }
}

fn graph_of(edges: &[(u32, u32)]) -> HashMap<u32, Vec<u32>> {
    let mut graph: HashMap<u32, Vec<u32>> = HashMap::new();
    for &(a, b) in edges {
        add_edge(&mut graph, a, b);
    }
    graph
}

fn path_graph() -> HashMap<u32, Vec<u32>> {
    graph_of(&[(1, 2), (2, 3), (3, 4)])
}

fn ring_graph() -> HashMap<u32, Vec<u32>> {
    graph_of(&[(1, 2), (2, 3), (3, 4), (4, 1)])
}

fn betweenness(graph: &HashMap<u32, Vec<u32>>, sample_size: usize) -> HashMap<u32, f64> {
    let mut scores: HashMap<u32, f64> = HashMap::new();
    for node in nodes(graph) {
        scores.insert(node, 0.0);
    }
    for source in sample_nodes(graph, sample_size) {
        let paths = shortest_paths_from(graph, source);
        let mut sigma: HashMap<u32, f64> = HashMap::new();
        let mut delta: HashMap<u32, f64> = HashMap::new();
        for &w in &paths.found.order {
            let mut count = if w == source { 1.0 } else { 0.0 };
            for v in &paths.predecessors[&w] {
                count += sigma[v];
            }
            sigma.insert(w, count);
            delta.insert(w, 0.0);
        }
        for &w in paths.found.order.iter().rev() {
            for v in &paths.predecessors[&w] {
                let share = (sigma[v] / sigma[&w]) * (1.0 + delta[&w]);
                *delta.get_mut(v).unwrap() += share;
            }
            if w != source {
                *scores.get_mut(&w).unwrap() += delta[&w];
            }
        }
    }
    for score in scores.values_mut() {
        *score /= sample_size as f64;
    }
    scores
}

#[test]
fn test_load_graph() {
    let dummy_data = vec![("1", "2"), ("2", "3"), ("3", "4"), ("4", "1")];

    let mut adjacency_list: HashMap<u32, Vec<u32>> = HashMap::new();
    for (n1, n2) in dummy_data {
        let n1 = n1.parse::<u32>().unwrap();
        let n2 = n2.parse::<u32>().unwrap();
        add_edge(&mut adjacency_list, n1, n2);
    }

    assert_eq!(adjacency_list.len(), 4);
    assert!(adjacency_list.get(&1).unwrap().contains(&2));
}

#[test]
fn test_calculate_average_shortest_path() {
    let mut adjacency_list: HashMap<u32, Vec<u32>> = HashMap::new();
    adjacency_list.insert(1, vec![2]);
    adjacency_list.insert(2, vec![1, 3]);
    adjacency_list.insert(3, vec![2, 4]);
    adjacency_list.insert(4, vec![3]);

    let avg_path = value(&calculate_average_shortest_path(&adjacency_list, 10));
    assert!(avg_path > 0.0);
    assert!(avg_path <= 3.0);
}

#[test]
fn test_calculate_degree_distribution() {
    let mut adjacency_list: HashMap<u32, Vec<u32>> = HashMap::new();
    adjacency_list.insert(1, vec![2, 3]);
    adjacency_list.insert(2, vec![1]);
    adjacency_list.insert(3, vec![1]);

    let degree_distribution = calculate_degree_distribution(&adjacency_list);

    assert_eq!(degree_distribution.get(&2), Some(&1));
    assert_eq!(degree_distribution.get(&1), Some(&2));
    assert_eq!(degree_distribution.len(), 2);
}

#[test]
fn test_calculate_degree_centrality() {
    let mut adjacency_list: HashMap<u32, Vec<u32>> = HashMap::new();
    adjacency_list.insert(1, vec![2, 3]);
    adjacency_list.insert(2, vec![1]);
    adjacency_list.insert(3, vec![1]);

    let degree_centrality = calculate_degree_centrality(&adjacency_list);

    assert_eq!(degree_centrality.get(&1).map(|d| *d as f64), Some(2.0));
    assert_eq!(degree_centrality.get(&2).map(|d| *d as f64), Some(1.0));
    assert_eq!(degree_centrality.len(), 3);
}

#[test]
fn test_calculate_closeness_centrality_parallel() {
    let mut adjacency_list: HashMap<u32, Vec<u32>> = HashMap::new();
    adjacency_list.insert(1, vec![2, 3]);
    adjacency_list.insert(2, vec![1, 4]);
    adjacency_list.insert(3, vec![1]);
    adjacency_list.insert(4, vec![2]);

    let closeness_centrality = calculate_closeness_centrality_parallel(&adjacency_list, 4);

    assert!(value(closeness_centrality.get(&1).unwrap()) > 0.0);
    assert!(value(closeness_centrality.get(&2).unwrap()) > 0.0);
    assert_eq!(closeness_centrality.len(), 4);
}

#[test]
fn closeness_scores_are_exact() {
    let mut graph: HashMap<u32, Vec<u32>> = HashMap::new();
    graph.insert(1, vec![2, 3]);
    graph.insert(2, vec![1, 4]);
    graph.insert(3, vec![1]);
    graph.insert(4, vec![2]);

    let scores = calculate_closeness_centrality_parallel(&graph, 4);
    assert_eq!(scores[&1], Ratio { numerator: 3, denominator: 4 });
    assert_eq!(scores[&2], Ratio { numerator: 3, denominator: 4 });
    assert_eq!(scores[&3], Ratio { numerator: 3, denominator: 6 });
    assert_eq!(scores[&4], Ratio { numerator: 3, denominator: 6 });
    assert_eq!(value(&scores[&3]), 0.5);
}

#[test]
fn closeness_scores_only_the_sources() {
    let graph = path_graph();
    let scores = closeness_centrality_of(&graph, &vec![2, 4]);
    assert_eq!(scores.len(), 2);
    assert_eq!(scores[&2], Ratio { numerator: 3, denominator: 4 });
    assert_eq!(scores[&4], Ratio { numerator: 3, denominator: 6 });
    assert!(!scores.contains_key(&1));

    let sampled = calculate_closeness_centrality_parallel(&graph, 2);
    assert_eq!(sampled.len(), 2);
    for (node, score) in &sampled {
        assert_eq!(*score, closeness_centrality_of(&graph, &vec![*node])[node]);
    }
}

#[test]
fn closeness_is_zero_for_an_isolated_node_and_a_single_node() {
    let mut graph: HashMap<u32, Vec<u32>> = HashMap::new();
    graph.insert(1, vec![2]);
    graph.insert(2, vec![1]);
    graph.insert(9, vec![]);
    let scores = calculate_closeness_centrality_parallel(&graph, 3);
    assert!(scores[&9].is_zero());
    assert_eq!(value(&scores[&9]), 0.0);
    assert!(!scores[&1].is_zero());
    assert_eq!(scores[&1], Ratio { numerator: 2, denominator: 1 });

    let mut single: HashMap<u32, Vec<u32>> = HashMap::new();
    single.insert(5, vec![]);
    let scores = calculate_closeness_centrality_parallel(&single, 1);
    assert_eq!(scores.len(), 1);
    assert!(scores[&5].is_zero());

    let mut looped: HashMap<u32, Vec<u32>> = HashMap::new();
    looped.insert(5, vec![5]);
    let scores = calculate_closeness_centrality_parallel(&looped, 1);
    assert!(scores[&5].is_zero());
}

#[test]
fn betweenness_on_a_path() {
    let graph = path_graph();
    let scores = betweenness(&graph, 4);
    assert_eq!(scores.len(), 4);
    assert_eq!(scores[&1], 0.0);
    assert_eq!(scores[&2], 1.0);
    assert_eq!(scores[&3], 1.0);
    assert_eq!(scores[&4], 0.0);
}

#[test]
fn degree_centrality_on_a_path() {
    let graph = path_graph();
    let scores = calculate_degree_centrality(&graph);
    assert_eq!(scores.len(), 4);
    assert_eq!(scores[&1] as f64, 1.0);
    assert_eq!(scores[&2] as f64, 2.0);
    assert_eq!(scores[&3] as f64, 2.0);
    assert_eq!(scores[&4] as f64, 1.0);
}

#[test]
fn degree_centrality_counts_repeated_neighbors() {
    let graph = graph_of(&[(1, 2), (1, 2), (2, 3)]);
    let scores = calculate_degree_centrality(&graph);
    assert_eq!(scores[&1], 2);
    assert_eq!(scores[&2], 3);
    assert_eq!(scores[&3], 1);
    for (node, neighbors) in &graph {
        assert_eq!(scores[node], neighbors.len());
    }
}

#[test]
fn average_shortest_path_on_a_ring() {
    let graph = ring_graph();
    let mean = calculate_average_shortest_path(&graph, 100);
    assert_eq!(mean, Ratio { numerator: 16, denominator: 12 });
    assert!((value(&mean) - 1.333).abs() < 0.001);
}

#[test]
fn average_shortest_path_from_given_sources() {
    let graph = path_graph();
    let mean = average_shortest_path_from(&graph, &vec![1]);
    assert_eq!(mean, Ratio { numerator: 6, denominator: 3 });
    let mean = average_shortest_path_from(&graph, &vec![1, 2]);
    assert_eq!(mean, Ratio { numerator: 10, denominator: 6 });
    let mean = average_shortest_path_from(&graph, &vec![2, 2]);
    assert_eq!(mean, Ratio { numerator: 8, denominator: 6 });
}

#[test]
fn neutral_values_for_an_empty_graph() {
    let graph: HashMap<u32, Vec<u32>> = HashMap::new();
    let mean = calculate_average_shortest_path(&graph, 10);
    assert!(mean.is_zero());
    assert_eq!(value(&mean), 0.0);
    assert!(calculate_degree_distribution(&graph).is_empty());
    assert!(calculate_degree_centrality(&graph).is_empty());
    assert!(calculate_closeness_centrality_parallel(&graph, 10).is_empty());
    assert!(detect_communities(&graph, 10, 1).is_empty());
    assert!(sample_nodes(&graph, 10).is_empty());
    assert_eq!(get_graph_info(&graph), (0, 0));
}

#[test]
fn neutral_values_for_an_empty_sample() {
    let graph = ring_graph();
    let mean = calculate_average_shortest_path(&graph, 0);
    assert_eq!(mean, Ratio { numerator: 0, denominator: 0 });
    assert_eq!(value(&mean), 0.0);
    assert!(calculate_closeness_centrality_parallel(&graph, 0).is_empty());
    assert!(sample_nodes(&graph, 0).is_empty());
}

#[test]
fn average_shortest_path_of_isolated_nodes_is_zero() {
    let mut graph: HashMap<u32, Vec<u32>> = HashMap::new();
    graph.insert(1, vec![]);
    graph.insert(2, vec![]);
    let mean = calculate_average_shortest_path(&graph, 2);
    assert_eq!(mean, Ratio { numerator: 0, denominator: 0 });
    assert!(mean.is_zero());
}

#[test]
fn sample_is_clamped_to_the_node_count() {
    let graph = ring_graph();
    let mut sample = sample_nodes(&graph, 100);
    sample.sort();
    assert_eq!(sample, vec![1, 2, 3, 4]);
    let sample = sample_nodes(&graph, 3);
    assert_eq!(sample.len(), 3);
    let all = nodes(&graph);
    assert_eq!(sample[..], all[..3]);
    assert_eq!(calculate_closeness_centrality_parallel(&graph, 100).len(), 4);
}

#[test]
fn degree_distribution_accounts_for_every_half_edge() {
    let graph = graph_of(&[(1, 2), (1, 3), (1, 4), (2, 3), (5, 6), (5, 6)]);
    let distribution = calculate_degree_distribution(&graph);
    let weighted: usize = distribution.iter().map(|(degree, count)| degree * count).sum();
    let half_edges: usize = graph.values().map(|neighbors| neighbors.len()).sum();
    assert_eq!(weighted, half_edges);
    assert_eq!(weighted, 12);
    assert_eq!(distribution.get(&3), Some(&1));
    assert_eq!(distribution.get(&2), Some(&4));
    assert_eq!(distribution.get(&1), Some(&1));
    assert_eq!(distribution.len(), 3);
}

#[test]
fn graph_info_counts_nodes_and_edges() {
    let graph = ring_graph();
    assert_eq!(get_graph_info(&graph), (4, 4));
    let graph = path_graph();
    assert_eq!(get_graph_info(&graph), (4, 3));
}

#[test]
fn add_edge_stores_both_directions_and_keeps_repetitions() {
    let mut graph: HashMap<u32, Vec<u32>> = HashMap::new();
    add_edge(&mut graph, 1, 2);
    add_edge(&mut graph, 1, 3);
    add_edge(&mut graph, 1, 2);
    assert_eq!(graph[&1], vec![2, 3, 2]);
    assert_eq!(graph[&2], vec![1, 1]);
    assert_eq!(graph[&3], vec![1]);
    add_edge(&mut graph, 7, 7);
    assert_eq!(graph[&7], vec![7, 7]);
}

#[test]
fn search_reports_hop_counts_in_layer_order() {
    let graph = graph_of(&[(1, 2), (1, 3), (2, 4), (3, 4), (4, 5), (8, 9)]);
    let found = breadth_first_search(&graph, 1);
    assert_eq!(found.order[0], 1);
    assert_eq!(found.distance[&1], 0);
    assert_eq!(found.distance[&2], 1);
    assert_eq!(found.distance[&3], 1);
    assert_eq!(found.distance[&4], 2);
    assert_eq!(found.distance[&5], 3);
    assert_eq!(found.order, vec![1, 2, 3, 4, 5]);
    assert!(!found.distance.contains_key(&8));
    assert!(!found.distance.contains_key(&9));
    assert_eq!(found.distance.len(), 5);
    let along: Vec<usize> = found.order.iter().map(|n| found.distance[n]).collect();
    assert!(along.windows(2).all(|pair| pair[0] <= pair[1]));
}

#[test]
fn search_from_a_node_without_neighbors_finds_itself() {
    let mut graph: HashMap<u32, Vec<u32>> = HashMap::new();
    graph.insert(1, vec![]);
    let found = breadth_first_search(&graph, 1);
    assert_eq!(found.order, vec![1]);
    assert_eq!(found.distance.len(), 1);
    assert_eq!(found.distance[&1], 0);

    let found = breadth_first_search(&graph, 42);
    assert_eq!(found.order, vec![42]);
    assert_eq!(found.distance[&42], 0);
}

#[test]
fn search_reaches_a_neighbor_that_is_no_key() {
    let mut graph: HashMap<u32, Vec<u32>> = HashMap::new();
    graph.insert(1, vec![2]);
    let found = breadth_first_search(&graph, 1);
    assert_eq!(found.order, vec![1, 2]);
    assert_eq!(found.distance[&2], 1);
    assert_eq!(measure_reach(&graph, 1), Reach { others: 1, total_distance: 1 });
}

#[test]
fn reach_on_a_path() {
    let graph = path_graph();
    assert_eq!(measure_reach(&graph, 1), Reach { others: 3, total_distance: 6 });
    assert_eq!(measure_reach(&graph, 2), Reach { others: 3, total_distance: 4 });
}

#[test]
fn shortest_paths_list_predecessors_in_expansion_order() {
    let graph = graph_of(&[(1, 2), (1, 3), (2, 4), (3, 4), (4, 5)]);
    let paths = shortest_paths_from(&graph, 1);
    assert_eq!(paths.found.order, vec![1, 2, 3, 4, 5]);
    assert_eq!(paths.predecessors[&1], Vec::<u32>::new());
    assert_eq!(paths.predecessors[&2], vec![1]);
    assert_eq!(paths.predecessors[&3], vec![1]);
    assert_eq!(paths.predecessors[&4], vec![2, 3]);
    assert_eq!(paths.predecessors[&5], vec![4]);
    assert_eq!(paths.predecessors.len(), 5);
}

#[test]
fn shortest_paths_count_a_repeated_edge_twice() {
    let graph = graph_of(&[(1, 2), (1, 2), (2, 3)]);
    let paths = shortest_paths_from(&graph, 1);
    assert_eq!(paths.predecessors[&2], vec![1, 1]);
    assert_eq!(paths.predecessors[&3], vec![2]);
}

#[test]
fn betweenness_on_a_star_and_a_ring() {
    let star = graph_of(&[(0, 1), (0, 2), (0, 3)]);
    let scores = betweenness(&star, 4);
    assert_eq!(scores[&0], 1.5);
    assert_eq!(scores[&1], 0.0);
    let ring = ring_graph();
    let scores = betweenness(&ring, 4);
    for node in 1..=4 {
        assert_eq!(scores[&node], 0.25);
    }
}

#[test]
fn majority_label_takes_the_most_frequent_label() {
    assert_eq!(majority_label(&vec![]), None);
    assert_eq!(majority_label(&vec![7]), Some(7));
    assert_eq!(majority_label(&vec![5, 7, 7]), Some(7));
    assert_eq!(majority_label(&vec![7, 5, 7, 5, 5]), Some(5));
}

#[test]
fn majority_label_breaks_ties_by_first_occurrence() {
    assert_eq!(majority_label(&vec![5, 7]), Some(5));
    assert_eq!(majority_label(&vec![7, 5]), Some(7));
    assert_eq!(majority_label(&vec![3, 9, 9, 3, 1]), Some(3));
    assert_eq!(majority_label(&vec![1, 9, 3, 9, 3]), Some(9));
}

#[test]
fn labels_of_neighbors_pass_over_unlabelled_nodes() {
    let mut labels: HashMap<u32, u32> = HashMap::new();
    labels.insert(1, 10);
    labels.insert(2, 20);
    assert_eq!(labels_of_neighbors(&vec![2, 3, 1, 2], &labels), vec![20, 10, 20]);
    assert_eq!(labels_of_neighbors(&vec![], &labels), Vec::<u32>::new());
}

#[test]
fn propagation_sees_labels_taken_earlier_in_the_round() {
    let graph = path_graph();
    let mut labels: HashMap<u32, u32> = HashMap::new();
    for node in 1..=4 {
        labels.insert(node, node);
    }
    propagate_round(&graph, &mut labels, &vec![1, 2, 3, 4]);
    // 1 takes 2; 2 sees the labels 2 (of node 1) and 3, and keeps the first; 3
    // sees 2 and 4 and takes 2; 4 takes the label of 3.
    assert_eq!(labels[&1], 2);
    assert_eq!(labels[&2], 2);
    assert_eq!(labels[&3], 2);
    assert_eq!(labels[&4], 2);

    let mut labels: HashMap<u32, u32> = HashMap::new();
    for node in 1..=4 {
        labels.insert(node, node);
    }
    propagate_round(&graph, &mut labels, &vec![4, 3, 2, 1]);
    assert_eq!(labels[&4], 3);
    assert_eq!(labels[&3], 2);
    assert_eq!(labels[&2], 1);
    assert_eq!(labels[&1], 1);
}

#[test]
fn propagation_leaves_a_node_without_neighbors_alone() {
    let mut graph: HashMap<u32, Vec<u32>> = HashMap::new();
    graph.insert(1, vec![]);
    graph.insert(2, vec![3]);
    graph.insert(3, vec![2]);
    let mut labels: HashMap<u32, u32> = HashMap::new();
    for node in 1..=3 {
        labels.insert(node, node);
    }
    propagate_round(&graph, &mut labels, &vec![1, 2, 3, 99]);
    assert_eq!(labels[&1], 1);
    assert_eq!(labels[&2], 3);
    assert_eq!(labels[&3], 3);
    assert_eq!(labels.len(), 3);
}

#[test]
fn communities_carry_labels_of_the_graph() {
    let graph = graph_of(&[(1, 2), (2, 3), (3, 1), (10, 11), (11, 12), (12, 10), (3, 10)]);
    for seed in 0..20 {
        let labels = detect_communities(&graph, 10, seed);
        assert_eq!(labels.len(), graph.len());
        for (node, label) in &labels {
            assert!(graph.contains_key(node));
            assert!(graph.contains_key(label));
        }
    }
}

#[test]
fn communities_without_rounds_are_singletons() {
    let graph = ring_graph();
    let labels = detect_communities(&graph, 0, 7);
    assert_eq!(labels.len(), 4);
    for node in 1..=4 {
        assert_eq!(labels[&node], node);
    }
}

#[test]
fn communities_of_two_separate_triangles_stay_apart() {
    let graph = graph_of(&[(1, 2), (2, 3), (3, 1), (10, 11), (11, 12), (12, 10)]);
    for seed in 0..10 {
        let labels = detect_communities(&graph, 10, seed);
        for node in [1, 2, 3] {
            assert!(labels[&node] <= 3);
        }
        for node in [10, 11, 12] {
            assert!(labels[&node] >= 10);
        }
    }
}

#[test]
fn communities_are_the_same_for_the_same_seed() {
    let edges = [(1, 2), (2, 3), (3, 4), (4, 5), (5, 6), (6, 7), (7, 8), (8, 1), (2, 6)];
    let graph = graph_of(&edges);
    let mut reversed = edges;
    reversed.reverse();
    let rebuilt = graph_of(&reversed);
    for seed in 0..20 {
        let labels = detect_communities(&graph, 10, seed);
        assert_eq!(labels, detect_communities(&graph, 10, seed));
        let mut flipped: HashMap<u32, Vec<u32>> = HashMap::new();
        for (node, neighbors) in &graph {
            flipped.insert(*node, neighbors.clone());
        }
        assert_eq!(labels, detect_communities(&flipped, 10, seed));
        assert_eq!(rebuilt.len(), graph.len());
    }
}

#[test]
fn communities_depend_on_the_seed() {
    // One round over a path: the outcome depends on the visiting order, so
    // a generator that left the order alone would give one outcome only.
    let graph = graph_of(&[(1, 2), (2, 3), (3, 4), (4, 5), (5, 6)]);
    let first = detect_communities(&graph, 1, 0);
    let mut differs = false;
    for seed in 1..64 {
        if detect_communities(&graph, 1, seed) != first {
            differs = true;
        }
    }
    assert!(differs);
}

#[test]
fn degree_and_closeness_are_repeatable() {
    let graph = graph_of(&[(1, 2), (2, 3), (3, 4), (4, 1), (4, 5)]);
    assert_eq!(calculate_degree_centrality(&graph), calculate_degree_centrality(&graph));
    assert_eq!(
        calculate_closeness_centrality_parallel(&graph, 3),
        calculate_closeness_centrality_parallel(&graph, 3)
    );
    assert_eq!(
        calculate_closeness_centrality_parallel(&graph, 5),
        calculate_closeness_centrality_parallel(&graph, 50)
    );
}

#[test]
fn fields_hold_decimal_node_identifiers() {
    assert_eq!(parse_node("0"), Some(0));
    assert_eq!(parse_node("17"), Some(17));
    assert_eq!(parse_node("  17\t"), Some(17));
    assert_eq!(parse_node("+17"), Some(17));
    assert_eq!(parse_node("007"), Some(7));
    assert_eq!(parse_node("4294967295"), Some(4294967295));
    assert_eq!(parse_node("00000000000000000000004294967295"), Some(4294967295));
    assert_eq!(parse_node("\u{a0}12\u{3000}"), Some(12));
}

#[test]
fn fields_that_hold_no_node_identifier_are_refused() {
    assert_eq!(parse_node(""), None);
    assert_eq!(parse_node("   "), None);
    assert_eq!(parse_node("+"), None);
    assert_eq!(parse_node("-1"), None);
    assert_eq!(parse_node("-0"), None);
    assert_eq!(parse_node("++1"), None);
    assert_eq!(parse_node("+ 1"), None);
    assert_eq!(parse_node("1 2"), None);
    assert_eq!(parse_node("12a"), None);
    assert_eq!(parse_node("a12"), None);
    assert_eq!(parse_node("1.5"), None);
    assert_eq!(parse_node("4294967296"), None);
    assert_eq!(parse_node("99999999999999999999999999"), None);
    assert_eq!(parse_node("\u{661}\u{662}"), None);
    assert_eq!(parse_node("1\u{200b}"), None);
}

#[test]
fn fields_are_read_as_the_standard_library_reads_them() {
    let samples = [
        "", " ", "5", " 5", "5 ", "\t5\n", "+5", "+", "-5", "5+", "05", "5 5", "x", "4294967295",
        "4294967296", "18446744073709551616", "\u{2003}8\u{2003}", "\u{85}9", "9\u{1680}",
        "\u{feff}9", "0x10", "1e3", "+-1", " + 1", "\r\n42\r\n",
    ];
    for field in samples {
        assert_eq!(parse_node(field), field.trim().parse::<u32>().ok());
    }
    for code in 0..=0x10ffffu32 {
        if let Some(c) = char::from_u32(code) {
            let padded = format!("{}7{}", c, c);
            assert_eq!(parse_node(&padded), padded.trim().parse::<u32>().ok());
            let inner = format!("7{}7", c);
            assert_eq!(parse_node(&inner), inner.trim().parse::<u32>().ok());
        }
    }
}

#[test]
fn records_hold_an_edge_where_both_fields_hold_a_node() {
    assert_eq!(parse_edge("1", "2"), Some((1, 2)));
    assert_eq!(parse_edge(" 10 ", "+20"), Some((10, 20)));
    assert_eq!(parse_edge("1", ""), None);
    assert_eq!(parse_edge("x", "2"), None);
    assert_eq!(parse_edge("1", "2 3"), None);

    let mut graph: HashMap<u32, Vec<u32>> = HashMap::new();
    for (first, second) in [("1", "2"), ("2", "x"), ("2", "3"), ("", ""), ("3", " 1")] {
        if let Some((a, b)) = parse_edge(first, second) {
            add_edge(&mut graph, a, b);
        }
    }
    assert_eq!(graph.len(), 3);
    assert_eq!(graph[&1], vec![2, 3]);
    assert_eq!(graph[&2], vec![1, 3]);
    assert_eq!(graph[&3], vec![2, 1]);
}

#[test]
fn records_need_exactly_two_fields() {
    assert_eq!(parse_record(&vec!["1", "2"]), Some((1, 2)));
    assert_eq!(parse_record(&vec![" 3", "4 "]), Some((3, 4)));
    assert_eq!(parse_record(&vec![]), None);
    assert_eq!(parse_record(&vec!["1"]), None);
    assert_eq!(parse_record(&vec!["1", "2", "3"]), None);
    assert_eq!(parse_record(&vec!["1", "two"]), None);
}

#[test]
fn communities_gather_the_nodes_of_each_label() {
    let mut labels: HashMap<u32, u32> = HashMap::new();
    for (node, label) in [(1, 1), (2, 1), (3, 1), (4, 6), (5, 6), (6, 6), (7, 7)] {
        labels.insert(node, label);
    }
    let mut groups = group_by_label(&labels);
    assert_eq!(groups.len(), 3);
    for members in groups.values_mut() {
        members.sort();
    }
    assert_eq!(groups[&1], vec![1, 2, 3]);
    assert_eq!(groups[&6], vec![4, 5, 6]);
    assert_eq!(groups[&7], vec![7]);
    assert!(group_by_label(&HashMap::new()).is_empty());

    let groups = group_by_label(&labels);
    let order: Vec<u32> = labels.keys().copied().collect();
    for (label, members) in &groups {
        let expected: Vec<u32> =
            order.iter().copied().filter(|node| labels[node] == *label).collect();
        assert_eq!(*members, expected);
    }
}

#[test]
fn extent_of_a_degree_distribution() {
    let graph = graph_of(&[(1, 2), (1, 3), (1, 4), (2, 3), (5, 6), (5, 6)]);
    let distribution = calculate_degree_distribution(&graph);
    assert_eq!(distribution_extent(&distribution), (3, 4));
    assert_eq!(distribution_extent(&HashMap::new()), (0, 0));
    let mut single: HashMap<usize, usize> = HashMap::new();
    single.insert(0, 5);
    assert_eq!(distribution_extent(&single), (0, 5));
}
