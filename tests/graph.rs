use aoc24::graph::WeightedGraph;

#[test]
fn two_nodes_one_edge() {
    let mut g = WeightedGraph::new();
    let a = g.add_node();
    let b = g.add_node();
    g.add_edge(a, b, 5);
    assert_eq!(g.shortest_paths(a), vec![Some(0), Some(5)]);
    assert_eq!(g.shortest_paths(b), vec![None, Some(0)]);
}

#[test]
fn path_graph_distances_count_steps() {
    let mut g = WeightedGraph::new();
    for _ in 0..6 {
        g.add_node();
    }
    for i in 0..5 {
        g.add_edge(i, i + 1, 1);
    }
    let d = g.shortest_paths(0);
    assert_eq!(d, (0..6).map(Some).collect::<Vec<_>>());
}

#[test]
fn unreachable_component_is_absent() {
    let mut g = WeightedGraph::new();
    for _ in 0..4 {
        g.add_node();
    }
    g.add_edge(0, 1, 2);
    g.add_edge(2, 3, 1);
    assert_eq!(g.shortest_paths(0), vec![Some(0), Some(2), None, None]);
}

#[test]
fn trace_back_marks_every_tight_predecessor() {
    // 0 -> 1 -> 3 and 0 -> 2 -> 3 both cost 2; 0 -> 3 directly costs 5
    let mut g = WeightedGraph::new();
    for _ in 0..4 {
        g.add_node();
    }
    g.add_edge(0, 1, 1);
    g.add_edge(1, 3, 1);
    g.add_edge(0, 2, 1);
    g.add_edge(2, 3, 1);
    g.add_edge(0, 3, 5);
    let d = g.shortest_paths(0);
    assert_eq!(d, vec![Some(0), Some(1), Some(1), Some(2)]);
    assert_eq!(g.trace_back(&d, &vec![3]), vec![true, true, true, true]);
    assert_eq!(g.trace_back(&d, &vec![1]), vec![true, true, false, false]);
}
