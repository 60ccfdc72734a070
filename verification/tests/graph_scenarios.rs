use roadnet::graph::Edge;
use roadnet::graph::Graph;
use roadnet::graph::Node;
use roadnet::graph::SearchError;

fn node(id: i32, x: i32, y: i32) -> Node {
    Node { id, x, y }
}

fn edge(a: i32, b: i32, w: i32) -> Edge {
    Edge {
        node_a_id: a,
        node_b_id: b,
        weight: w,
    }
}

/// Nodes {1,2,3,4} with edges (1,2,5), (2,3,5), (1,3,20), (3,4,1).
fn sample_graph() -> Graph {
    let mut g = Graph::new();
    for id in 1..=4 {
        g.add_node(node(id, id * 10, id * 10));
    }
    g.add_edge(edge(1, 2, 5));
    g.add_edge(edge(2, 3, 5));
    g.add_edge(edge(1, 3, 20));
    g.add_edge(edge(3, 4, 1));
    g
}

#[test]
fn direct_edge_costs_both_ways() {
    let mut g = Graph::new();
    g.add_node(node(1, 0, 0));
    g.add_node(node(2, 1, 0));
    g.add_edge(edge(1, 2, 7));
    assert_eq!(g.shortest_path(1, 2), 7);
    assert_eq!(g.shortest_path(2, 1), 7);
}

#[test]
fn update_edge_changes_cost_without_duplicate() {
    let mut g = Graph::new();
    g.add_node(node(1, 0, 0));
    g.add_node(node(2, 1, 0));
    g.add_edge(edge(1, 2, 5));
    g.update_edge(1, 2, 7);
    assert_eq!(g.degree(1), 1);
    assert_eq!(g.degree(2), 1);
    assert_eq!(g.shortest_path(1, 2), 7);
    assert_eq!(g.shortest_path(2, 1), 7);
}

#[test]
fn update_edge_on_missing_pair_adds_one_pair() {
    let mut g = Graph::new();
    g.add_node(node(1, 0, 0));
    g.add_node(node(2, 1, 0));
    g.update_edge(1, 2, 9);
    assert_eq!(g.degree(1), 1);
    assert_eq!(g.degree(2), 1);
    assert_eq!(g.shortest_path(1, 2), 9);
    assert_eq!(g.shortest_path(2, 1), 9);
}

#[test]
fn self_path_costs_zero() {
    let g = sample_graph();
    for id in 1..=4 {
        assert_eq!(g.shortest_path(id, id), 0);
    }
}

#[test]
fn sample_paths_and_nearest() {
    let g = sample_graph();
    assert_eq!(g.shortest_path(1, 4), 11);
    assert_eq!(g.shortest_path(1, 3), 10);
    assert_eq!(g.nearest_node(1, &vec![3, 4]), Ok(3));
}

#[test]
fn cheaper_update_reroutes() {
    let mut g = sample_graph();
    g.update_edge(1, 3, 1);
    assert_eq!(g.shortest_path(1, 4), 2);
    assert_eq!(g.nearest_node(1, &vec![3, 4]), Ok(3));
}

#[test]
fn nearest_unknown_target_not_found() {
    let g = sample_graph();
    assert_eq!(g.nearest_node(1, &vec![99]), Err(SearchError::NotFound));
}

#[test]
fn nearest_empty_targets_not_found() {
    let g = sample_graph();
    assert_eq!(g.nearest_node(1, &vec![]), Err(SearchError::NotFound));
}

#[test]
fn origin_in_targets_returned_immediately() {
    let g = sample_graph();
    assert_eq!(g.nearest_node(1, &vec![2, 1]), Ok(1));
}

#[test]
fn disconnected_pair_is_unreachable() {
    let mut g = Graph::new();
    for id in 1..=4 {
        g.add_node(node(id, 0, 0));
    }
    g.add_edge(edge(1, 2, 3));
    g.add_edge(edge(3, 4, 3));
    assert_eq!(g.shortest_path(1, 3), i32::MAX);
    assert_eq!(g.nearest_node(1, &vec![3, 4]), Err(SearchError::NotFound));
}

#[test]
fn overflowing_sum_saturates_to_unreachable() {
    let mut g = Graph::new();
    for id in 1..=3 {
        g.add_node(node(id, 0, 0));
    }
    g.add_edge(edge(1, 2, 2_000_000_000));
    g.add_edge(edge(2, 3, 2_000_000_000));
    assert_eq!(g.shortest_path(1, 2), 2_000_000_000);
    assert_eq!(g.shortest_path(1, 3), i32::MAX);
}

#[test]
fn sentinel_weight_counts_as_unreachable() {
    let mut g = Graph::new();
    g.add_node(node(1, 0, 0));
    g.add_node(node(2, 0, 0));
    g.add_edge(edge(1, 2, i32::MAX));
    assert_eq!(g.shortest_path(1, 2), i32::MAX);
}

#[test]
fn parallel_add_keeps_both_entries() {
    let mut g = Graph::new();
    g.add_node(node(1, 0, 0));
    g.add_node(node(2, 0, 0));
    g.add_edge(edge(1, 2, 5));
    g.add_edge(edge(1, 2, 3));
    assert_eq!(g.degree(1), 2);
    assert_eq!(g.degree(2), 2);
    assert_eq!(g.shortest_path(1, 2), 3);
}

#[test]
fn update_edge_touches_first_entry_only() {
    let mut g = Graph::new();
    g.add_node(node(1, 0, 0));
    g.add_node(node(2, 0, 0));
    g.add_edge(edge(1, 2, 5));
    g.add_edge(edge(1, 2, 3));
    g.update_edge(1, 2, 8);
    assert_eq!(g.degree(1), 2);
    assert_eq!(g.shortest_path(1, 2), 3);
}

#[test]
fn self_loop_stores_both_directed_entries() {
    let mut g = Graph::new();
    g.add_node(node(1, 0, 0));
    g.add_edge(edge(1, 1, 3));
    assert_eq!(g.degree(1), 2);
    assert_eq!(g.shortest_path(1, 1), 0);
}

#[test]
fn update_self_loop_touches_one_entry() {
    let mut g = Graph::new();
    g.add_node(node(1, 0, 0));
    g.add_edge(edge(1, 1, 3));
    g.update_edge(1, 1, 9);
    assert_eq!(g.degree(1), 2);
}
