use roadnet::graph::Edge;
use roadnet::graph::Graph;
use roadnet::graph::Node;
use roadnet::graph_cache::GraphCache;

fn edge(a: i32, b: i32, w: i32) -> Edge {
    Edge {
        node_a_id: a,
        node_b_id: b,
        weight: w,
    }
}

fn sample_graph() -> Graph {
    let mut g = Graph::new();
    for id in 1..=4 {
        g.add_node(Node { id, x: 0, y: 0 });
    }
    g.add_edge(edge(1, 2, 5));
    g.add_edge(edge(2, 3, 5));
    g.add_edge(edge(1, 3, 20));
    g.add_edge(edge(3, 4, 1));
    g
}

#[test]
fn miss_returns_nothing() {
    let cache = GraphCache::new();
    assert!(cache.get_graph(7).is_none());
}

#[test]
fn store_then_get_same_graph() {
    let mut cache = GraphCache::new();
    cache.store_graph(7, sample_graph());
    let g = cache.get_graph(7).expect("stored region");
    assert_eq!(g.shortest_path(1, 4), 11);
    assert!(cache.get_graph(8).is_none());
}

#[test]
fn update_through_cache_is_visible_to_later_lookups() {
    let mut cache = GraphCache::new();
    cache.store_graph(7, sample_graph());
    cache.update_edge(7, 1, 3, 1);
    let g = cache.get_graph(7).expect("stored region");
    assert_eq!(g.shortest_path(1, 4), 2);
}

#[test]
fn update_of_uncached_region_is_a_no_op() {
    let mut cache = GraphCache::new();
    cache.store_graph(7, sample_graph());
    cache.update_edge(8, 1, 3, 1);
    assert!(cache.get_graph(8).is_none());
    let g = cache.get_graph(7).expect("stored region");
    assert_eq!(g.shortest_path(1, 4), 11);
}

#[test]
fn second_store_overwrites() {
    let mut cache = GraphCache::new();
    cache.store_graph(7, sample_graph());
    let mut other = sample_graph();
    other.update_edge(1, 3, 1);
    cache.store_graph(7, other);
    let g = cache.get_graph(7).expect("stored region");
    assert_eq!(g.shortest_path(1, 4), 2);
}

#[test]
fn regions_are_independent() {
    let mut cache = GraphCache::new();
    cache.store_graph(1, sample_graph());
    cache.store_graph(2, sample_graph());
    cache.update_edge(2, 1, 3, 1);
    assert_eq!(cache.get_graph(1).unwrap().shortest_path(1, 4), 11);
    assert_eq!(cache.get_graph(2).unwrap().shortest_path(1, 4), 2);
}
