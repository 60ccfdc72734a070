use roadnet::dispatch::TowTruck;
use roadnet::dispatch::build_graph;
use roadnet::dispatch::dedup_trucks;
use roadnet::dispatch::select_nearest_truck;
use roadnet::graph::Edge;
use roadnet::graph::Graph;
use roadnet::graph::Node;

fn edge(a: i32, b: i32, w: i32) -> Edge {
    Edge {
        node_a_id: a,
        node_b_id: b,
        weight: w,
    }
}

fn truck(id: i32, node_id: i32) -> TowTruck {
    TowTruck { id, node_id }
}

fn sample_nodes() -> Vec<Node> {
    (1..=4).map(|id| Node { id, x: 0, y: 0 }).collect()
}

fn sample_edges() -> Vec<Edge> {
    vec![edge(1, 2, 5), edge(2, 3, 5), edge(1, 3, 20), edge(3, 4, 1)]
}

fn sample_graph() -> Graph {
    build_graph(&sample_nodes(), &sample_edges())
}

#[test]
fn built_graph_answers_like_hand_built_one() {
    let g = sample_graph();
    assert_eq!(g.shortest_path(1, 4), 11);
    assert_eq!(g.shortest_path(1, 3), 10);
    assert_eq!(g.nearest_node(1, &vec![3, 4]), Ok(3));
}

#[test]
fn dedup_keeps_lowest_id_per_node() {
    let trucks = vec![truck(7, 3), truck(2, 3), truck(9, 4)];
    let kept = dedup_trucks(&trucks);
    assert_eq!(kept.len(), 2);
    assert!(kept.contains(&truck(2, 3)));
    assert!(kept.contains(&truck(9, 4)));
}

#[test]
fn dedup_is_stable_under_input_order() {
    let forward = vec![truck(7, 3), truck(2, 3), truck(9, 4)];
    let backward = vec![truck(9, 4), truck(2, 3), truck(7, 3)];
    let kept_forward = dedup_trucks(&forward);
    let kept_backward = dedup_trucks(&backward);
    for t in &kept_forward {
        assert!(kept_backward.contains(t));
    }
    assert_eq!(kept_forward.len(), kept_backward.len());
}

#[test]
fn select_picks_nearest_candidate_node() {
    let g = sample_graph();
    let trucks = vec![truck(7, 3), truck(2, 3), truck(9, 4)];
    let picked = select_nearest_truck(&g, 1, &trucks);
    assert_eq!(picked, Some(truck(2, 3)));
}

#[test]
fn select_prefers_occupied_origin() {
    let g = sample_graph();
    let trucks = vec![truck(9, 4), truck(5, 1)];
    let picked = select_nearest_truck(&g, 1, &trucks);
    assert_eq!(picked, Some(truck(5, 1)));
}

#[test]
fn select_with_no_candidates_is_no_match() {
    let g = sample_graph();
    let picked = select_nearest_truck(&g, 1, &vec![]);
    assert_eq!(picked, None);
}

#[test]
fn select_with_unreachable_candidates_is_no_match() {
    let g = sample_graph();
    let trucks = vec![truck(9, 99)];
    let picked = select_nearest_truck(&g, 1, &trucks);
    assert_eq!(picked, None);
}
