//! Selection of the nearest eligible resource for a request origin.
//!
//! A region's graph is built from its persisted node and edge snapshots, the
//! eligible resources are thinned to one per node — the lowest identifier
//! wins, whatever the input order — and the best-first search picks the
//! candidate node the origin reaches first.

use crate::graph::Edge;
use crate::graph::Graph;
use crate::graph::Node;
use crate::graph::edge;
use crate::graph::has_walk;
use crate::graph::node_lookup;
use crate::graph::reaches;
use vstd::prelude::*;

verus! {

/// An eligible mobile unit: its identifier and the node it occupies.
#[derive(Clone, Copy, Debug, PartialEq, Eq, Structural)]
pub struct TowTruck {
    pub id: i32,
    pub node_id: i32,
}

/// The adjacency list of `k` in a graph built by adding the given edges, in
/// order, to an empty graph: each edge contributes its directed entry and its
/// mirror to the lists of its two endpoints.
pub open spec fn adj_after(s: Seq<Edge>, k: i32) -> Seq<Edge>
    decreases s.len(),
{
    if s.len() == 0 {
        Seq::empty()
    } else {
        let r = adj_after(s.drop_last(), k);
        let e = s.last();
        if e.node_a_id == k && e.node_b_id == k {
            r.push(edge(k, k, e.weight)).push(edge(k, k, e.weight))
        } else if e.node_a_id == k {
            r.push(edge(k, e.node_b_id, e.weight))
        } else if e.node_b_id == k {
            r.push(edge(k, e.node_a_id, e.weight))
        } else {
            r
        }
    }
}

/// Builds a region's graph from its persisted snapshot: every node is added,
/// then every edge, in the given order.
pub fn build_graph(nodes: &Vec<Node>, edges: &Vec<Edge>) -> (g: Graph)
    ensures
        g.wf(),
        forall|id: i32| g.node_of(id) == node_lookup(nodes@, id),
        forall|k: i32| g.adj_of(k) == adj_after(edges@, k),
{
    let mut g = Graph::new();
    let n = nodes.len();
    let mut i: usize = 0;
    proof {
        assert(nodes@.subrange(0, 0) =~= Seq::<Node>::empty());
    }
    while i < n
        invariant
            g.wf(),
            n == nodes@.len(),
            i <= n,
            forall|id: i32| g.node_of(id) == node_lookup(nodes@.subrange(0, i as int), id),
            forall|k: i32| g.adj_of(k) == Seq::<Edge>::empty(),
        decreases n - i,
    {
        let ghost gpre = g;
        g.add_node(nodes[i]);
        proof {
            let pre = nodes@.subrange(0, i as int);
            let x = nodes@[i as int];
            assert(nodes@.subrange(0, i as int + 1) =~= pre.push(x));
            assert(pre.push(x).drop_last() =~= pre);
            assert(pre.push(x).last() == x);
            assert forall|id: i32| g.node_of(id) == node_lookup(
                nodes@.subrange(0, i as int + 1),
                id,
            ) by {
                if id != x.id {
                    assert(g.node_of(id) == gpre.node_of(id));
                }
            }
        }
        i = i + 1;
    }
    proof {
        assert(nodes@.subrange(0, n as int) =~= nodes@);
        assert(edges@.subrange(0, 0) =~= Seq::<Edge>::empty());
    }
    let m = edges.len();
    let mut j: usize = 0;
    while j < m
        invariant
            g.wf(),
            m == edges@.len(),
            j <= m,
            forall|id: i32| g.node_of(id) == node_lookup(nodes@, id),
            forall|k: i32| g.adj_of(k) == adj_after(edges@.subrange(0, j as int), k),
        decreases m - j,
    {
        let ghost gpre = g;
        let e = edges[j];
        g.add_edge(e);
        proof {
            let pre = edges@.subrange(0, j as int);
            let full = edges@.subrange(0, j as int + 1);
            assert(full =~= pre.push(e));
            assert(full.drop_last() =~= pre);
            assert(full.last() == e);
            assert forall|k: i32| g.adj_of(k) == adj_after(full, k) by {
                if k == e.node_a_id && k == e.node_b_id {
                    assert(g.adj_of(k) == gpre.adj_of(k).push(edge(k, k, e.weight)).push(
                        edge(k, k, e.weight),
                    ));
                } else if k == e.node_a_id {
                    assert(g.adj_of(k) == gpre.adj_of(k).push(edge(k, e.node_b_id, e.weight)));
                } else if k == e.node_b_id {
                    assert(g.adj_of(k) == gpre.adj_of(k).push(edge(k, e.node_a_id, e.weight)));
                } else {
                    assert(g.adj_of(k) == gpre.adj_of(k));
                }
            }
        }
        j = j + 1;
    }
    proof {
        assert(edges@.subrange(0, m as int) =~= edges@);
    }
    g
}

/// Whether some kept unit occupies `node_id`.
pub open spec fn covers(kept: Seq<TowTruck>, node_id: i32) -> bool {
    exists|q: int| 0 <= q < kept.len() && (#[trigger] kept[q]).node_id == node_id
}

/// The position of the kept unit that occupies `node_id`, if any.
fn find_by_node(kept: &Vec<TowTruck>, node_id: i32) -> (r: Option<usize>)
    ensures
        match r {
            Some(k) => k < kept@.len() && kept@[k as int].node_id == node_id,
            None => forall|q: int| 0 <= q < kept@.len() ==> kept@[q].node_id != node_id,
        },
{
    let n = kept.len();
    let mut i: usize = 0;
    while i < n
        invariant
            n == kept@.len(),
            i <= n,
            forall|q: int| 0 <= q < i ==> kept@[q].node_id != node_id,
        decreases n - i,
    {
        if kept[i].node_id == node_id {
            return Some(i);
        }
        i = i + 1;
    }
    None
}

/// Thins the eligible units to one per occupied node: for every node that any
/// input unit occupies, exactly one unit is kept, and it is one of the input
/// units of that node with the least identifier — a deterministic tie-break,
/// stable whatever the input order.
pub fn dedup_trucks(trucks: &Vec<TowTruck>) -> (kept: Vec<TowTruck>)
    ensures
        forall|p: int, q: int| 0 <= p < q < kept@.len() ==> kept@[p].node_id != kept@[q].node_id,
        forall|p: int| 0 <= p < kept@.len() ==> trucks@.contains(#[trigger] kept@[p]),
        forall|p: int, t: TowTruck|
            0 <= p < kept@.len() && #[trigger] trucks@.contains(t) && t.node_id == (
            #[trigger] kept@[p]).node_id ==> kept@[p].id <= t.id,
        forall|t: TowTruck| #[trigger] trucks@.contains(t) ==> covers(kept@, t.node_id),
{
    let mut kept: Vec<TowTruck> = Vec::new();
    let n = trucks.len();
    let mut i: usize = 0;
    while i < n
        invariant
            n == trucks@.len(),
            i <= n,
            forall|p: int, q: int|
                0 <= p < q < kept@.len() ==> kept@[p].node_id != kept@[q].node_id,
            forall|q: int|
                0 <= q < kept@.len() ==> exists|p: int|
                    0 <= p < i && trucks@[p] == #[trigger] kept@[q],
            forall|q: int, p: int|
                0 <= q < kept@.len() && 0 <= p < i && (#[trigger] trucks@[p]).node_id == (
                #[trigger] kept@[q]).node_id ==> kept@[q].id <= trucks@[p].id,
            forall|p: int| 0 <= p < i ==> covers(kept@, (#[trigger] trucks@[p]).node_id),
        decreases n - i,
    {
        let t = trucks[i];
        let ghost before = kept@;
        match find_by_node(&kept, t.node_id) {
            Some(k) => {
                if t.id < kept[k].id {
                    kept[k] = t;
                    proof {
                        assert forall|q: int|
                            0 <= q < kept@.len() implies exists|p: int|
                            0 <= p < i + 1 && trucks@[p] == #[trigger] kept@[q] by {
                            if q == k as int {
                                assert(trucks@[i as int] == kept@[q]);
                            } else {
                                assert(kept@[q] == before[q]);
                                let p = choose|p: int| 0 <= p < i && trucks@[p] == before[q];
                                assert(trucks@[p] == kept@[q]);
                            }
                        }
                        assert forall|q: int, p: int|
                            0 <= q < kept@.len() && 0 <= p < i + 1 && (
                            #[trigger] trucks@[p]).node_id == (
                            #[trigger] kept@[q]).node_id implies kept@[q].id <= trucks@[p].id by {
                            if q == k as int {
                                assert(before[q].node_id == kept@[q].node_id);
                                if p < i {
                                    assert(before[q].id <= trucks@[p].id);
                                }
                            } else {
                                assert(kept@[q] == before[q]);
                            }
                        }
                        assert forall|p: int|
                            0 <= p < i + 1 implies covers(
                            kept@,
                            (#[trigger] trucks@[p]).node_id,
                        ) by {
                            if p == i as int {
                                assert(kept@[k as int].node_id == trucks@[p].node_id);
                            } else {
                                let q = choose|q: int|
                                    0 <= q < before.len() && (#[trigger] before[q]).node_id
                                        == trucks@[p].node_id;
                                assert(kept@[q].node_id == trucks@[p].node_id);
                            }
                        }
                    }
                } else {
                    proof {
                        assert(kept@[k as int].node_id == trucks@[i as int].node_id);
                    }
                }
            },
            None => {
                kept.push(t);
                proof {
                    assert forall|p: int|
                        0 <= p < i implies (#[trigger] trucks@[p]).node_id != t.node_id by {
                        let q = choose|q: int|
                            0 <= q < before.len() && (#[trigger] before[q]).node_id
                                == trucks@[p].node_id;
                        assert(before[q].node_id != t.node_id);
                    }
                    assert forall|q: int|
                        0 <= q < kept@.len() implies exists|p: int|
                        0 <= p < i + 1 && trucks@[p] == #[trigger] kept@[q] by {
                        if q == kept@.len() - 1 {
                            assert(trucks@[i as int] == kept@[q]);
                        } else {
                            assert(kept@[q] == before[q]);
                            let p = choose|p: int| 0 <= p < i && trucks@[p] == before[q];
                            assert(trucks@[p] == kept@[q]);
                        }
                    }
                    assert forall|p: int|
                        0 <= p < i + 1 implies covers(kept@, (#[trigger] trucks@[p]).node_id) by {
                        if p == i as int {
                            assert(kept@[kept@.len() - 1].node_id == trucks@[p].node_id);
                        } else {
                            let q = choose|q: int|
                                0 <= q < before.len() && (#[trigger] before[q]).node_id
                                    == trucks@[p].node_id;
                            assert(kept@[q].node_id == trucks@[p].node_id);
                        }
                    }
                }
            },
        }
        i = i + 1;
    }
    proof {
        assert forall|p: int| 0 <= p < kept@.len() implies trucks@.contains(
            #[trigger] kept@[p],
        ) by {
            let w = choose|w: int| 0 <= w < n && trucks@[w] == kept@[p];
            assert(trucks@[w] == kept@[p]);
        }
        assert forall|p: int, t: TowTruck|
            0 <= p < kept@.len() && #[trigger] trucks@.contains(t) && t.node_id == (
            #[trigger] kept@[p]).node_id implies kept@[p].id <= t.id by {
            let w = choose|w: int| 0 <= w < trucks@.len() && trucks@[w] == t;
            assert(kept@[p].id <= trucks@[w].id);
        }
        assert forall|t: TowTruck| #[trigger] trucks@.contains(t) implies covers(
            kept@,
            t.node_id,
        ) by {
            let w = choose|w: int| 0 <= w < trucks@.len() && trucks@[w] == t;
            assert(covers(kept@, trucks@[w].node_id));
        }
    }
    kept
}

/// Picks, among the eligible units, the one whose node the origin reaches
/// first, thinning units that share a node to the least identifier. An origin
/// already occupied by a unit yields that node's kept unit; when no candidate
/// is reached, there is no match.
#[verifier::rlimit(60)]
#[verifier::spinoff_prover]
pub fn select_nearest_truck(
    graph: &Graph,
    origin_node_id: i32,
    trucks: &Vec<TowTruck>,
) -> (r: Option<TowTruck>)
    requires
        graph.wf(),
    ensures
        match r {
            Some(t) => trucks@.contains(t) && (forall|u: TowTruck|
                #[trigger] trucks@.contains(u) && u.node_id == t.node_id ==> t.id <= u.id) && (
            graph.nonneg_weights() ==> reaches(*graph, origin_node_id, t.node_id) && forall|
                u: TowTruck,
                cu: int,
            |
                trucks@.contains(u) && #[trigger] has_walk(*graph, origin_node_id, u.node_id, cu)
                    ==> exists|cn: int|
                    cn <= cu && #[trigger] has_walk(*graph, origin_node_id, t.node_id, cn)),
            None => graph.nonneg_weights() ==> forall|u: TowTruck|
                #[trigger] trucks@.contains(u) ==> !reaches(*graph, origin_node_id, u.node_id),
        },
        (exists|u: TowTruck| trucks@.contains(u) && u.node_id == origin_node_id) ==> match r {
            Some(t) => t.node_id == origin_node_id,
            None => false,
        },
{
    let kept = dedup_trucks(trucks);
    let mut ids: Vec<i32> = Vec::new();
    let kn = kept.len();
    let mut i: usize = 0;
    while i < kn
        invariant
            kn == kept@.len(),
            i <= kn,
            ids@.len() == i as int,
            forall|p: int| 0 <= p < i ==> ids@[p] == (#[trigger] kept@[p]).node_id,
        decreases kn - i,
    {
        ids.push(kept[i].node_id);
        i = i + 1;
    }
    match graph.nearest_node(origin_node_id, &ids) {
        Ok(nid) => {
            proof {
                let w = choose|w: int| 0 <= w < ids@.len() && ids@[w] == nid;
                assert(kept@[w].node_id == nid);
            }
            match find_by_node(&kept, nid) {
                Some(k) => {
                    let t = kept[k];
                    proof {
                        if exists|u: TowTruck|
                            trucks@.contains(u) && u.node_id == origin_node_id {
                            let u = choose|u: TowTruck|
                                trucks@.contains(u) && u.node_id == origin_node_id;
                            let q = choose|q: int|
                                0 <= q < kept@.len() && (#[trigger] kept@[q]).node_id == u.node_id;
                            assert(ids@[q] == origin_node_id);
                            assert(ids@.contains(origin_node_id));
                        }
                        if graph.nonneg_weights() {
                            assert forall|u: TowTruck, cu: int|
                                trucks@.contains(u) && #[trigger] has_walk(
                                    *graph,
                                    origin_node_id,
                                    u.node_id,
                                    cu,
                                ) implies exists|cn: int|
                                cn <= cu && #[trigger] has_walk(
                                    *graph,
                                    origin_node_id,
                                    t.node_id,
                                    cn,
                                ) by {
                                let q = choose|q: int|
                                    0 <= q < kept@.len() && (#[trigger] kept@[q]).node_id
                                        == u.node_id;
                                assert(ids@[q] == u.node_id);
                                assert(ids@.contains(u.node_id));
                                let cn = choose|cn: int|
                                    cn <= cu && #[trigger] has_walk(
                                        *graph,
                                        origin_node_id,
                                        nid,
                                        cn,
                                    );
                                assert(cn <= cu && has_walk(
                                    *graph,
                                    origin_node_id,
                                    t.node_id,
                                    cn,
                                ));
                            }
                        }
                    }
                    Some(t)
                },
                None => {
                    proof {
                        let w = choose|w: int| 0 <= w < ids@.len() && ids@[w] == nid;
                        assert(kept@[w].node_id == nid);
                        assert(false);
                    }
                    None
                },
            }
        },
        Err(_) => {
            proof {
                assert forall|u: TowTruck|
                    #[trigger] trucks@.contains(u) implies u.node_id != origin_node_id by {
                    let q = choose|q: int|
                        0 <= q < kept@.len() && (#[trigger] kept@[q]).node_id == u.node_id;
                    assert(ids@[q] == u.node_id);
                    if u.node_id == origin_node_id {
                        assert(ids@.contains(origin_node_id));
                    }
                }
                if graph.nonneg_weights() {
                    assert forall|u: TowTruck| #[trigger] trucks@.contains(u) implies !reaches(
                        *graph,
                        origin_node_id,
                        u.node_id,
                    ) by {
                        let q = choose|q: int|
                            0 <= q < kept@.len() && (#[trigger] kept@[q]).node_id == u.node_id;
                        assert(ids@[q] == u.node_id);
                        assert(ids@.contains(u.node_id));
                    }
                }
            }
            None
        },
    }
}

} // verus!
