use degree_histogram::{
    adj_list, calc_length, degree_distribution, edge_from_fields, length_freq, Edge,
};

fn edge(s: &str, t: &str) -> Edge {
    Edge::new(s.to_string(), t.to_string())
}

fn strings(v: &[&str]) -> Vec<String> {
    v.iter().map(|s| s.to_string()).collect()
}

fn sorted(mut v: Vec<usize>) -> Vec<usize> {
    v.sort();
    v
}

#[test]
fn four_edges_with_a_repeat() {
    let edges = vec![edge("A", "B"), edge("A", "C"), edge("B", "C"), edge("A", "B")];
    let graph = adj_list(edges);
    assert_eq!(graph.len(), 2);
    assert_eq!(graph.targets(&"A".to_string()), Some(&strings(&["B", "C", "B"])));
    assert_eq!(graph.targets(&"B".to_string()), Some(&strings(&["C"])));
    assert_eq!(graph.targets(&"C".to_string()), None);
    let degrees = calc_length(graph);
    assert_eq!(sorted(degrees.clone()), vec![1, 3]);
    assert_eq!(length_freq(degrees), vec![(1, 1), (3, 1)]);
}

#[test]
fn four_edges_whole_pipeline() {
    let edges = vec![edge("A", "B"), edge("A", "C"), edge("B", "C"), edge("A", "B")];
    assert_eq!(degree_distribution(edges), vec![(1, 1), (3, 1)]);
}

#[test]
fn empty_edge_list() {
    let graph = adj_list(vec![]);
    assert_eq!(graph.len(), 0);
    let degrees = calc_length(graph);
    assert!(degrees.is_empty());
    assert_eq!(length_freq(degrees), vec![]);
    assert_eq!(degree_distribution(vec![]), vec![]);
}

#[test]
fn self_loop() {
    let graph = adj_list(vec![edge("X", "X")]);
    assert_eq!(graph.len(), 1);
    assert_eq!(graph.targets(&"X".to_string()), Some(&strings(&["X"])));
    let degrees = calc_length(graph);
    assert_eq!(degrees, vec![1]);
    assert_eq!(length_freq(degrees), vec![(1, 1)]);
}

#[test]
fn sources_first_seen_order_and_target_order() {
    let edges = vec![
        edge("b", "1"),
        edge("a", "2"),
        edge("b", "3"),
        edge("c", "4"),
        edge("a", "5"),
        edge("b", "1"),
    ];
    let graph = adj_list(edges);
    assert_eq!(graph.len(), 3);
    assert_eq!(graph.targets(&"b".to_string()), Some(&strings(&["1", "3", "1"])));
    assert_eq!(graph.targets(&"a".to_string()), Some(&strings(&["2", "5"])));
    assert_eq!(graph.targets(&"c".to_string()), Some(&strings(&["4"])));
    assert_eq!(graph.targets(&"1".to_string()), None);
    assert_eq!(calc_length(graph), vec![3, 2, 1]);
}

#[test]
fn total_targets_equal_edge_count() {
    let edges = vec![
        edge("p", "q"),
        edge("q", "p"),
        edge("p", "r"),
        edge("s", "s"),
        edge("p", "q"),
    ];
    let n = edges.len();
    let degrees = calc_length(adj_list(edges));
    assert_eq!(degrees.len(), 3);
    assert_eq!(degrees.iter().sum::<usize>(), n);
}

#[test]
fn histogram_counts_sum_to_input_length() {
    let degrees = vec![4, 1, 4, 2, 1, 4, 7];
    let hist = length_freq(degrees.clone());
    assert_eq!(hist, vec![(1, 2), (2, 1), (4, 3), (7, 1)]);
    assert_eq!(hist.iter().map(|p| p.1).sum::<usize>(), degrees.len());
}

#[test]
fn histogram_ignores_order() {
    let a = length_freq(vec![5, 3, 5, 0, 3, 5]);
    let b = length_freq(vec![0, 5, 5, 3, 5, 3]);
    let c = length_freq(vec![3, 3, 0, 5, 5, 5]);
    assert_eq!(a, vec![(0, 1), (3, 2), (5, 3)]);
    assert_eq!(a, b);
    assert_eq!(a, c);
}

#[test]
fn histogram_strictly_ascending() {
    let hist = length_freq(vec![9, 2, 9, 100, 2, 0, 57, 9, 3]);
    for w in hist.windows(2) {
        assert!(w[0].0 < w[1].0);
    }
    for p in &hist {
        assert!(p.1 >= 1);
    }
    assert_eq!(hist, vec![(0, 1), (2, 2), (3, 1), (9, 3), (57, 1), (100, 1)]);
}

#[test]
fn histogram_of_equal_degrees() {
    assert_eq!(length_freq(vec![2, 2, 2, 2]), vec![(2, 4)]);
}

#[test]
fn histogram_of_largest_degree() {
    assert_eq!(length_freq(vec![usize::MAX, 0, usize::MAX]), vec![(0, 1), (usize::MAX, 2)]);
}

#[test]
fn histogram_is_sparse() {
    assert_eq!(length_freq(vec![1, 10]), vec![(1, 1), (10, 1)]);
}

#[test]
fn pipeline_twice_gives_same_output() {
    let make = || {
        vec![
            edge("r1", "r2"),
            edge("r2", "r3"),
            edge("r1", "r3"),
            edge("r4", "r1"),
            edge("r2", "r2"),
        ]
    };
    let first = degree_distribution(make());
    let second = degree_distribution(make());
    assert_eq!(first, vec![(1, 1), (2, 2)]);
    assert_eq!(format!("{:?}", first), format!("{:?}", second));
}

#[test]
fn targets_only_nodes_are_not_counted() {
    let edges = vec![edge("a", "b"), edge("a", "c"), edge("a", "d")];
    assert_eq!(degree_distribution(edges), vec![(3, 1)]);
}

#[test]
fn record_with_two_or_more_fields() {
    let e = edge_from_fields(&strings(&["src", "dst", "post", "time"])).unwrap();
    assert_eq!(e.source, "src");
    assert_eq!(e.target, "dst");
    let e = edge_from_fields(&strings(&["x", "y"])).unwrap();
    assert_eq!(e.source, "x");
    assert_eq!(e.target, "y");
}

#[test]
fn record_with_too_few_fields() {
    assert!(edge_from_fields(&strings(&["only"])).is_none());
    assert!(edge_from_fields(&vec![]).is_none());
}
