//! An in-memory weighted undirected graph over location nodes.
//!
//! Edges are logically undirected: adding an edge (a, b, w) materializes the
//! directed entry (a -> b, w) in a's adjacency list and the mirrored
//! (b -> a, w) in b's list, and every mutation goes through `add_edge` or
//! `update_edge`, which repair both directions together.

use vstd::prelude::*;

verus! {

/// A location vertex: a unique identifier and planar coordinates.
/// Coordinates are carried for potential geometric use; the search itself is
/// weight-based.
#[derive(Clone, Copy, Debug, PartialEq, Eq, Structural)]
pub struct Node {
    pub id: i32,
    pub x: i32,
    pub y: i32,
}

/// A directed adjacency entry: travel cost `weight` from `node_a_id` to
/// `node_b_id`. Stored entries always come in mirrored pairs.
#[derive(Clone, Copy, Debug, PartialEq, Eq, Structural)]
pub struct Edge {
    pub node_a_id: i32,
    pub node_b_id: i32,
    pub weight: i32,
}

/// The adjacency list of one node: the outgoing entries of `key`, in
/// insertion order.
struct AdjRow {
    key: i32,
    edges: Vec<Edge>,
}

/// A weighted undirected graph: a node table keyed by id and an adjacency
/// structure from node id to the ordered sequence of outgoing entries.
pub struct Graph {
    nodes: Vec<Node>,
    rows: Vec<AdjRow>,
}

/// The condition reported when a search exhausts the frontier without
/// reaching any requested target.
#[derive(Clone, Copy, Debug, PartialEq, Eq, Structural)]
pub enum SearchError {
    NotFound,
}

/// The edge value that `add_edge(a, b, w)` appends to a's adjacency list.
pub open spec fn edge(a: i32, b: i32, w: i32) -> Edge {
    Edge { node_a_id: a, node_b_id: b, weight: w }
}

/// Whether every node of the table carries a distinct id.
pub open spec fn nodes_unique(s: Seq<Node>) -> bool {
    forall|i: int, j: int| 0 <= i < j < s.len() ==> s[i].id != s[j].id
}

spec fn rows_unique(s: Seq<AdjRow>) -> bool {
    forall|i: int, j: int| 0 <= i < j < s.len() ==> s[i].key != s[j].key
}

spec fn rows_keyed(s: Seq<AdjRow>) -> bool {
    forall|i: int, j: int|
        0 <= i < s.len() && 0 <= j < s[i].edges@.len() ==> (#[trigger] s[i].edges@[j]).node_a_id
            == s[i].key
}

/// Last-wins lookup of a node by id; with unique ids the position is
/// irrelevant.
pub open spec fn node_lookup(s: Seq<Node>, id: i32) -> Option<Node>
    decreases s.len(),
{
    if s.len() == 0 {
        None
    } else if s.last().id == id {
        Some(s.last())
    } else {
        node_lookup(s.drop_last(), id)
    }
}

spec fn row_lookup(s: Seq<AdjRow>, key: i32) -> Seq<Edge>
    decreases s.len(),
{
    if s.len() == 0 {
        Seq::empty()
    } else if s.last().key == key {
        s.last().edges@
    } else {
        row_lookup(s.drop_last(), key)
    }
}

impl Graph {
    /// Internal consistency: node ids and adjacency keys are unique, and every
    /// stored entry starts at the node whose list holds it.
    pub closed spec fn wf(self) -> bool {
        &&& nodes_unique(self.nodes@)
        &&& rows_unique(self.rows@)
        &&& rows_keyed(self.rows@)
    }

    /// The node stored under `id`, if any.
    pub closed spec fn node_of(self, id: i32) -> Option<Node> {
        node_lookup(self.nodes@, id)
    }

    /// The adjacency list of `id`: its outgoing entries in insertion order,
    /// empty when the node has none.
    pub closed spec fn adj_of(self, id: i32) -> Seq<Edge> {
        row_lookup(self.rows@, id)
    }

    /// Every stored entry carries a non-negative travel cost.
    pub open spec fn nonneg_weights(self) -> bool {
        forall|k: i32, j: int|
            0 <= j < self.adj_of(k).len() ==> (#[trigger] self.adj_of(k)[j]).weight >= 0
    }

    /// A graph is born empty.
    pub fn new() -> (g: Graph)
        ensures
            g.wf(),
            forall|id: i32| g.node_of(id) == None::<Node>,
            forall|id: i32| g.adj_of(id) == Seq::<Edge>::empty(),
    {
        Graph { nodes: Vec::new(), rows: Vec::new() }
    }

    /// Inserts or replaces the node under its id. The adjacency structure is
    /// untouched.
    pub fn add_node(&mut self, node: Node)
        requires
            old(self).wf(),
        ensures
            final(self).wf(),
            final(self).node_of(node.id) == Some(node),
            forall|k: i32| k != node.id ==> final(self).node_of(k) == old(self).node_of(k),
            forall|k: i32| final(self).adj_of(k) == old(self).adj_of(k),
    {
        let n = self.nodes.len();
        let mut i: usize = 0;
        while i < n
            invariant
                old(self).wf(),
                n == self.nodes@.len(),
                i <= n,
                *self == *old(self),
                forall|k: int| 0 <= k < i ==> self.nodes@[k].id != node.id,
            decreases n - i,
        {
            if self.nodes[i].id == node.id {
                self.nodes[i] = node;
                proof {
                    lemma_node_lookup_update(old(self).nodes@, i as int, node);
                }
                return ;
            }
            i = i + 1;
        }
        self.nodes.push(node);
        proof {
            lemma_node_lookup_push(old(self).nodes@, node);
        }
    }
}

/// What `add_edge(a, b, w)` does to the adjacency structure and the node
/// table: the directed entry and its mirror are appended, in that order, and
/// nothing else changes. A self-loop appends both entries to the same list.
pub open spec fn add_edge_post(pre: Graph, post: Graph, a: i32, b: i32, w: i32) -> bool {
    &&& post.wf()
    &&& forall|k: i32| post.node_of(k) == pre.node_of(k)
    &&& if a == b {
        post.adj_of(a) == pre.adj_of(a).push(edge(a, b, w)).push(edge(b, a, w))
    } else {
        post.adj_of(a) == pre.adj_of(a).push(edge(a, b, w)) && post.adj_of(b) == pre.adj_of(
            b,
        ).push(edge(b, a, w))
    }
    &&& forall|k: i32| k != a && k != b ==> post.adj_of(k) == pre.adj_of(k)
}

impl Graph {
    /// Appends one directed entry (a -> b, w) to a's adjacency list.
    fn push_entry(&mut self, a: i32, b: i32, w: i32)
        requires
            old(self).wf(),
        ensures
            final(self).wf(),
            final(self).adj_of(a) == old(self).adj_of(a).push(edge(a, b, w)),
            forall|k: i32| k != a ==> final(self).adj_of(k) == old(self).adj_of(k),
            forall|k: i32| final(self).node_of(k) == old(self).node_of(k),
    {
        let n = self.rows.len();
        let mut i: usize = 0;
        while i < n
            invariant
                old(self).wf(),
                n == self.rows@.len(),
                i <= n,
                *self == *old(self),
                forall|k: int| 0 <= k < i ==> self.rows@[k].key != a,
            decreases n - i,
        {
            if self.rows[i].key == a {
                let row = &mut self.rows[i];
                row.edges.push(Edge { node_a_id: a, node_b_id: b, weight: w });
                proof {
                    let x = self.rows@[i as int];
                    assert(x.key == a);
                    assert(x.edges@ == old(self).rows@[i as int].edges@.push(edge(a, b, w)));
                    assert(self.rows@ == old(self).rows@.update(i as int, x));
                    lemma_row_lookup_at(old(self).rows@, i as int);
                    lemma_row_lookup_update(old(self).rows@, i as int, x);
                }
                return ;
            }
            i = i + 1;
        }
        let mut fresh: Vec<Edge> = Vec::new();
        fresh.push(Edge { node_a_id: a, node_b_id: b, weight: w });
        let x = AdjRow { key: a, edges: fresh };
        proof {
            lemma_row_lookup_absent(old(self).rows@, a);
            lemma_row_lookup_push(old(self).rows@, x);
            assert(x.edges@ =~= old(self).adj_of(a).push(edge(a, b, w)));
        }
        self.rows.push(x);
    }

    /// Appends the directed entry (a -> b, w) and the mirrored (b -> a, w):
    /// edges are logically undirected. Calling it twice for the same pair
    /// creates parallel entries; route repeated updates through
    /// `update_edge`.
    pub fn add_edge(&mut self, e: Edge)
        requires
            old(self).wf(),
        ensures
            add_edge_post(*old(self), *final(self), e.node_a_id, e.node_b_id, e.weight),
    {
        let a = e.node_a_id;
        let b = e.node_b_id;
        let w = e.weight;
        self.push_entry(a, b, w);
        self.push_entry(b, a, w);
    }
}

/// Whether some entry of the list points to `t`.
pub open spec fn has_entry_to(s: Seq<Edge>, t: i32) -> bool {
    exists|i: int| 0 <= i < s.len() && s[i].node_b_id == t
}

/// The position of the first entry pointing to `t` (the list's length when
/// there is none).
pub open spec fn first_entry_to(s: Seq<Edge>, t: i32) -> int
    decreases s.len(),
{
    if s.len() == 0 {
        0
    } else if s[0].node_b_id == t {
        0
    } else {
        1 + first_entry_to(s.drop_first(), t)
    }
}

/// The list with the weight of entry `i` set to `w` and everything else kept.
pub open spec fn set_weight_at(s: Seq<Edge>, i: int, w: i32) -> Seq<Edge> {
    s.update(i, Edge { node_a_id: s[i].node_a_id, node_b_id: s[i].node_b_id, weight: w })
}

/// The list after the repair of one direction: the first entry pointing to `t`
/// gets weight `w`; a list with no such entry is untouched.
pub open spec fn repaired(s: Seq<Edge>, t: i32, w: i32) -> Seq<Edge> {
    if has_entry_to(s, t) {
        set_weight_at(s, first_entry_to(s, t), w)
    } else {
        s
    }
}

/// What `update_edge(a, b, w)` does: when neither direction of the pair is
/// stored, it behaves exactly as `add_edge(a, b, w)`; otherwise each
/// direction that is stored has its first matching entry set to `w`, and
/// nothing else changes.
pub open spec fn update_edge_post(pre: Graph, post: Graph, a: i32, b: i32, w: i32) -> bool {
    if !has_entry_to(pre.adj_of(a), b) && !has_entry_to(pre.adj_of(b), a) {
        add_edge_post(pre, post, a, b, w)
    } else {
        &&& post.wf()
        &&& forall|k: i32| post.node_of(k) == pre.node_of(k)
        &&& post.adj_of(a) == repaired(pre.adj_of(a), b, w)
        &&& (a != b ==> post.adj_of(b) == repaired(pre.adj_of(b), a, w))
        &&& forall|k: i32| k != a && k != b ==> post.adj_of(k) == pre.adj_of(k)
    }
}

impl Graph {
    /// Sets the weight of the first entry of x's adjacency list that points to
    /// `t`, reporting whether one was found.
    fn fix_first(&mut self, x: i32, t: i32, w: i32) -> (found: bool)
        requires
            old(self).wf(),
        ensures
            final(self).wf(),
            found == has_entry_to(old(self).adj_of(x), t),
            final(self).adj_of(x) == repaired(old(self).adj_of(x), t, w),
            forall|k: i32| k != x ==> final(self).adj_of(k) == old(self).adj_of(k),
            forall|k: i32| final(self).node_of(k) == old(self).node_of(k),
    {
        let n = self.rows.len();
        let mut i: usize = 0;
        while i < n
            invariant
                old(self).wf(),
                n == self.rows@.len(),
                i <= n,
                *self == *old(self),
                forall|k: int| 0 <= k < i ==> self.rows@[k].key != x,
            decreases n - i,
        {
            if self.rows[i].key == x {
                proof {
                    lemma_row_lookup_at(old(self).rows@, i as int);
                }
                let ghost orig: Seq<Edge> = self.rows@[i as int].edges@;
                let row = &mut self.rows[i];
                let found = set_row_weight(&mut row.edges, t, w);
                proof {
                    let r = self.rows@[i as int];
                    assert(r.key == x);
                    assert(r.edges@ == repaired(orig, t, w));
                    assert(self.rows@ == old(self).rows@.update(i as int, r));
                    lemma_repaired_shape(orig, t, w);
                    lemma_row_lookup_update(old(self).rows@, i as int, r);
                    assert(rows_keyed(self.rows@)) by {
                        assert forall|p: int, q: int|
                            0 <= p < self.rows@.len() && 0 <= q < self.rows@[p].edges@.len() implies (
                        #[trigger] self.rows@[p].edges@[q]).node_a_id == self.rows@[p].key by {
                            if p == i as int {
                                assert(orig[q].node_a_id == x);
                            } else {
                                assert(self.rows@[p] == old(self).rows@[p]);
                            }
                        }
                    }
                }
                return found;
            }
            i = i + 1;
        }
        proof {
            lemma_row_lookup_absent(self.rows@, x);
        }
        false
    }

    /// Scans a's adjacency list for its first entry pointing to b and sets
    /// that weight, and independently scans b's list for its first entry
    /// pointing to a; when neither direction is stored, a fresh symmetric
    /// pair is created through `add_edge`.
    pub fn update_edge(&mut self, node_a_id: i32, node_b_id: i32, new_weight: i32)
        requires
            old(self).wf(),
        ensures
            update_edge_post(*old(self), *final(self), node_a_id, node_b_id, new_weight),
    {
        let fixed_a = self.fix_first(node_a_id, node_b_id, new_weight);
        proof {
            if node_a_id == node_b_id {
                lemma_repaired_shape(old(self).adj_of(node_a_id), node_b_id, new_weight);
            }
        }
        let fixed_b = self.fix_first(node_b_id, node_a_id, new_weight);
        if !fixed_a && !fixed_b {
            self.add_edge(Edge { node_a_id, node_b_id, weight: new_weight });
        }
    }
}

/// Sets the weight of the first entry of the list that points to `t`,
/// reporting whether one was found.
fn set_row_weight(edges: &mut Vec<Edge>, t: i32, w: i32) -> (found: bool)
    ensures
        found == has_entry_to(old(edges)@, t),
        final(edges)@ == repaired(old(edges)@, t, w),
{
    let m = edges.len();
    let mut j: usize = 0;
    while j < m
        invariant
            m == edges@.len(),
            j <= m,
            edges@ == old(edges)@,
            forall|k: int| 0 <= k < j ==> edges@[k].node_b_id != t,
        decreases m - j,
    {
        if edges[j].node_b_id == t {
            let e = edges[j];
            edges[j] = Edge { node_a_id: e.node_a_id, node_b_id: t, weight: w };
            proof {
                lemma_first_entry_found(old(edges)@, t, j as int);
                assert(edges@ =~= repaired(old(edges)@, t, w));
            }
            return true;
        }
        j = j + 1;
    }
    proof {
        assert(!has_entry_to(edges@, t));
    }
    false
}

/// Saturating addition on costs: a sum that would leave the representable
/// range clamps to its nearest bound instead of wrapping.
pub open spec fn sat_add_spec(a: int, b: int) -> int {
    if a + b > i32::MAX as int {
        i32::MAX as int
    } else if a + b < i32::MIN as int {
        i32::MIN as int
    } else {
        a + b
    }
}

fn sat_add(a: i32, b: i32) -> (r: i32)
    ensures
        r as int == sat_add_spec(a as int, b as int),
{
    let s: i64 = a as i64 + b as i64;
    if s > i32::MAX as i64 {
        i32::MAX
    } else if s < i32::MIN as i64 {
        i32::MIN
    } else {
        s as i32
    }
}

/// Whether `steps` is a walk that starts at `from`: each step is a stored
/// entry of the graph leaving the node the previous step reached.
pub open spec fn is_walk(g: Graph, from: i32, steps: Seq<Edge>) -> bool {
    forall|i: int|
        0 <= i < steps.len() ==> g.adj_of((#[trigger] steps[i]).node_a_id).contains(steps[i])
            && steps[i].node_a_id == if i == 0 {
            from
        } else {
            steps[i - 1].node_b_id
        }
}

/// The node a walk from `from` ends at.
pub open spec fn walk_end(from: i32, steps: Seq<Edge>) -> i32 {
    if steps.len() == 0 {
        from
    } else {
        steps.last().node_b_id
    }
}

/// The total travel cost of a walk: the exact sum of its weights.
pub open spec fn walk_cost(steps: Seq<Edge>) -> int
    decreases steps.len(),
{
    if steps.len() == 0 {
        0
    } else {
        walk_cost(steps.drop_last()) + steps.last().weight
    }
}

/// Whether the graph holds a walk from `from` to `to` of total cost `c`.
pub open spec fn has_walk(g: Graph, from: i32, to: i32, c: int) -> bool {
    exists|steps: Seq<Edge>|
        is_walk(g, from, steps) && walk_end(from, steps) == to && #[trigger] walk_cost(steps) == c
}

/// Whether `to` is reachable from `from`: some walk connects them below the
/// sentinel cost.
pub open spec fn reaches(g: Graph, from: i32, to: i32) -> bool {
    exists|c: int| 0 <= c < i32::MAX && #[trigger] has_walk(g, from, to, c)
}

/// The empty walk: every node reaches itself at cost 0.
pub proof fn lemma_walk_refl(g: Graph, from: i32)
    ensures
        has_walk(g, from, from, 0),
{
    let steps = Seq::<Edge>::empty();
    assert(is_walk(g, from, steps) && walk_end(from, steps) == from && walk_cost(steps) == 0);
}

/// Every stored entry leaves the node whose list holds it.
proof fn lemma_adj_owner(g: Graph, u: i32, j: int)
    requires
        g.wf(),
        0 <= j < g.adj_of(u).len(),
    ensures
        g.adj_of(u)[j].node_a_id == u,
{
    lemma_row_lookup_is_row(g.rows@, u);
    let i = choose|i: int|
        0 <= i < g.rows@.len() && g.rows@[i].key == u && row_lookup(g.rows@, u)
            == g.rows@[i].edges@;
    assert(g.rows@[i].edges@[j].node_a_id == g.rows@[i].key);
}

/// A walk that reaches `u` extends along any stored entry leaving `u`.
proof fn lemma_walk_extend(g: Graph, from: i32, u: i32, c: int, j: int)
    requires
        g.wf(),
        has_walk(g, from, u, c),
        0 <= j < g.adj_of(u).len(),
    ensures
        has_walk(g, from, g.adj_of(u)[j].node_b_id, c + g.adj_of(u)[j].weight),
{
    let steps = choose|steps: Seq<Edge>|
        is_walk(g, from, steps) && walk_end(from, steps) == u && #[trigger] walk_cost(steps) == c;
    let e = g.adj_of(u)[j];
    lemma_adj_owner(g, u, j);
    let t = steps.push(e);
    assert(g.adj_of(e.node_a_id).contains(e));
    assert forall|i: int|
        0 <= i < t.len() implies g.adj_of((#[trigger] t[i]).node_a_id).contains(t[i]) && t[i].node_a_id
        == if i == 0 {
        from
    } else {
        t[i - 1].node_b_id
    } by {
        if i < steps.len() {
            assert(t[i] == steps[i]);
            if i > 0 {
                assert(t[i - 1] == steps[i - 1]);
            }
        } else {
            assert(t[i] == e);
            if i > 0 {
                assert(t[i - 1] == steps[i - 1]);
            }
        }
    }
    assert(t.drop_last() =~= steps);
    assert(t.last() == e);
    assert(walk_cost(t) == c + e.weight);
    assert(walk_end(from, t) == e.node_b_id);
}

/// Every entry of every finalized node's adjacency list has been relaxed: the
/// head's tentative cost is at most the finalized cost plus the entry's
/// weight.
spec fn relaxed(g: Graph, es: Seq<SearchEntry>) -> bool {
    forall|i: int, j: int, k: int|
        0 <= i < es.len() && es[i].visited && 0 <= j < g.adj_of(es[i].node).len() && 0 <= k
            < es.len() && (#[trigger] es[k]).node == (#[trigger] g.adj_of(es[i].node)[j]).node_b_id
            ==> es[k].cost as int <= es[i].cost + g.adj_of(es[i].node)[j].weight
}

/// No finalized cost exceeds a tentative one: nodes are finalized in cost
/// order.
spec fn settled_below(es: Seq<SearchEntry>) -> bool {
    forall|i: int, k: int|
        0 <= i < es.len() && 0 <= k < es.len() && (#[trigger] es[i]).visited && !(
        #[trigger] es[k]).visited ==> es[i].cost <= es[k].cost
}

/// A walk shortened by its last step is still a walk, chained onto that step.
proof fn lemma_walk_prefix(g: Graph, from: i32, w: Seq<Edge>)
    requires
        is_walk(g, from, w),
        w.len() > 0,
    ensures
        is_walk(g, from, w.drop_last()),
        w.last().node_a_id == walk_end(from, w.drop_last()),
        g.adj_of(w.last().node_a_id).contains(w.last()),
        walk_end(from, w) == w.last().node_b_id,
        walk_cost(w) == walk_cost(w.drop_last()) + w.last().weight,
{
    let wp = w.drop_last();
    assert forall|i: int|
        0 <= i < wp.len() implies g.adj_of((#[trigger] wp[i]).node_a_id).contains(wp[i])
        && wp[i].node_a_id == if i == 0 {
        from
    } else {
        wp[i - 1].node_b_id
    } by {
        assert(wp[i] == w[i]);
        if i > 0 {
            assert(wp[i - 1] == w[i - 1]);
        }
    }
    assert(w[w.len() - 1] == w.last());
    if w.len() >= 2 {
        assert(wp.last() == w[w.len() - 2]);
    }
}

/// With non-negative weights no walk has negative total cost.
proof fn lemma_walk_cost_nonneg(g: Graph, from: i32, w: Seq<Edge>)
    requires
        g.nonneg_weights(),
        is_walk(g, from, w),
    ensures
        walk_cost(w) >= 0,
    decreases w.len(),
{
    if w.len() > 0 {
        lemma_walk_prefix(g, from, w);
        lemma_walk_cost_nonneg(g, from, w.drop_last());
        let e = w.last();
        let j = choose|j: int| 0 <= j < g.adj_of(e.node_a_id).len() && g.adj_of(e.node_a_id)[j] == e;
        assert(g.adj_of(e.node_a_id)[j].weight >= 0);
    }
}

/// The heart of the optimality argument: while the source is finalized at
/// cost 0 and every finalized node's entries are relaxed, each walk from the
/// source costs at least its end's tentative cost, or at least the tentative
/// cost of some not-yet-finalized node.
proof fn lemma_walk_lower_bound(g: Graph, from: i32, es: Seq<SearchEntry>, w: Seq<Edge>)
    requires
        g.wf(),
        g.nonneg_weights(),
        is_walk(g, from, w),
        has_snode(es, from),
        targets_covered(g, es),
        forall|i: int|
            0 <= i < es.len() && (#[trigger] es[i]).node == from ==> es[i].visited && es[i].cost
                == 0,
        relaxed(g, es),
    ensures
        (exists|k: int|
            0 <= k < es.len() && (#[trigger] es[k]).node == walk_end(from, w) && es[k].cost as int
                <= walk_cost(w)) || (exists|k: int|
            0 <= k < es.len() && !(#[trigger] es[k]).visited && es[k].cost as int <= walk_cost(w)),
    decreases w.len(),
{
    if w.len() == 0 {
        let k = choose|k: int| 0 <= k < es.len() && es[k].node == from;
        assert(es[k].node == walk_end(from, w) && es[k].cost as int <= walk_cost(w));
    } else {
        lemma_walk_prefix(g, from, w);
        let wp = w.drop_last();
        let e = w.last();
        let u = e.node_a_id;
        lemma_walk_lower_bound(g, from, es, wp);
        let je = choose|j: int| 0 <= j < g.adj_of(u).len() && g.adj_of(u)[j] == e;
        assert(g.adj_of(u)[je].weight >= 0);
        lemma_adj_head_is_target(g, u, je);
        if exists|k: int|
            0 <= k < es.len() && (#[trigger] es[k]).node == walk_end(from, wp) && es[k].cost as int
                <= walk_cost(wp) {
            let k = choose|k: int|
                0 <= k < es.len() && (#[trigger] es[k]).node == walk_end(from, wp) && es[k].cost
                    as int <= walk_cost(wp);
            if es[k].visited {
                let kk = choose|kk: int| 0 <= kk < es.len() && es[kk].node == e.node_b_id;
                assert(es[kk].cost as int <= es[k].cost + g.adj_of(u)[je].weight);
                assert(es[kk].node == walk_end(from, w) && es[kk].cost as int <= walk_cost(w));
            } else {
                assert(es[k].cost as int <= walk_cost(w));
            }
        } else {
            let k = choose|k: int|
                0 <= k < es.len() && !(#[trigger] es[k]).visited && es[k].cost as int <= walk_cost(
                    wp,
                );
            assert(es[k].cost as int <= walk_cost(w));
        }
    }
}

/// One node of the search frontier: its tentative cost and whether its cost
/// has been finalized.
#[derive(Clone, Copy)]
struct SearchEntry {
    node: i32,
    cost: i32,
    visited: bool,
}

spec fn entries_unique(s: Seq<SearchEntry>) -> bool {
    forall|i: int, j: int| 0 <= i < j < s.len() ==> s[i].node != s[j].node
}

spec fn has_snode(s: Seq<SearchEntry>, n: i32) -> bool {
    exists|i: int| 0 <= i < s.len() && s[i].node == n
}

/// Whether `k` appears as the head of some stored directed entry.
spec fn is_edge_target(g: Graph, k: i32) -> bool {
    exists|i: int, j: int|
        0 <= i < g.rows@.len() && 0 <= j < g.rows@[i].edges@.len() && g.rows@[i].edges@[j].node_b_id
            == k
}

/// Every possible head of a relaxation step has a frontier entry.
spec fn targets_covered(g: Graph, s: Seq<SearchEntry>) -> bool {
    forall|k: i32| is_edge_target(g, k) ==> has_snode(s, k)
}

/// How many frontier entries are not yet finalized: the measure that shrinks
/// as the search settles nodes.
spec fn count_unvisited(s: Seq<SearchEntry>) -> nat
    decreases s.len(),
{
    if s.len() == 0 {
        0nat
    } else {
        count_unvisited(s.drop_last()) + if s.last().visited {
            0nat
        } else {
            1nat
        }
    }
}

/// Finalizing an entry strictly shrinks the measure.
proof fn lemma_count_settle(s: Seq<SearchEntry>, j: int, x: SearchEntry)
    requires
        0 <= j < s.len(),
        !s[j].visited,
        x.visited,
    ensures
        count_unvisited(s.update(j, x)) < count_unvisited(s),
    decreases s.len(),
{
    let t = s.update(j, x);
    if j == s.len() - 1 {
        assert(t.drop_last() =~= s.drop_last());
        lemma_count_at_most(s.drop_last());
    } else {
        assert(t.drop_last() =~= s.drop_last().update(j, x));
        lemma_count_settle(s.drop_last(), j, x);
    }
}

proof fn lemma_count_at_most(s: Seq<SearchEntry>)
    ensures
        count_unvisited(s) <= s.len(),
    decreases s.len(),
{
    if s.len() > 0 {
        lemma_count_at_most(s.drop_last());
    }
}

/// The measure depends on the finalization flags alone.
proof fn lemma_count_flags(s1: Seq<SearchEntry>, s2: Seq<SearchEntry>)
    requires
        s1.len() == s2.len(),
        forall|i: int| 0 <= i < s1.len() ==> s1[i].visited == s2[i].visited,
    ensures
        count_unvisited(s1) == count_unvisited(s2),
    decreases s1.len(),
{
    if s1.len() > 0 {
        lemma_count_flags(s1.drop_last(), s2.drop_last());
    }
}

/// A key's adjacency list is empty or is the list of one of the rows.
proof fn lemma_row_lookup_is_row(s: Seq<AdjRow>, k: i32)
    ensures
        row_lookup(s, k).len() == 0 || exists|i: int|
            0 <= i < s.len() && s[i].key == k && row_lookup(s, k) == s[i].edges@,
    decreases s.len(),
{
    if s.len() > 0 && s.last().key != k {
        lemma_row_lookup_is_row(s.drop_last(), k);
        if row_lookup(s, k).len() > 0 {
            let i = choose|i: int|
                0 <= i < s.drop_last().len() && s.drop_last()[i].key == k && row_lookup(
                    s.drop_last(),
                    k,
                ) == s.drop_last()[i].edges@;
            assert(s[i] == s.drop_last()[i]);
        }
    }
}

/// The head of any stored entry is an edge target of the graph.
proof fn lemma_adj_head_is_target(g: Graph, k: i32, j: int)
    requires
        0 <= j < g.adj_of(k).len(),
    ensures
        is_edge_target(g, g.adj_of(k)[j].node_b_id),
{
    lemma_row_lookup_is_row(g.rows@, k);
    let i = choose|i: int|
        0 <= i < g.rows@.len() && g.rows@[i].key == k && row_lookup(g.rows@, k)
            == g.rows@[i].edges@;
    assert(g.rows@[i].edges@[j].node_b_id == g.adj_of(k)[j].node_b_id);
}

/// Appends a fresh unvisited entry at the sentinel cost unless the node
/// already has one.
fn push_unique(es: &mut Vec<SearchEntry>, node: i32)
    requires
        entries_unique(old(es)@),
    ensures
        entries_unique(final(es)@),
        has_snode(final(es)@, node),
        final(es)@ == old(es)@ || final(es)@ == old(es)@.push(
            SearchEntry { node, cost: i32::MAX, visited: false },
        ),
{
    let n = es.len();
    let mut i: usize = 0;
    while i < n
        invariant
            n == es@.len(),
            es@ == old(es)@,
            entries_unique(es@),
            i <= n,
            forall|k: int| 0 <= k < i ==> es@[k].node != node,
        decreases n - i,
    {
        if es[i].node == node {
            proof {
                assert(es@[i as int].node == node);
            }
            return ;
        }
        i = i + 1;
    }
    es.push(SearchEntry { node, cost: i32::MAX, visited: false });
    proof {
        assert(es@.last().node == node);
        assert(has_snode(es@, node));
        assert forall|p: int, q: int| 0 <= p < q < es@.len() implies es@[p].node != es@[q].node by {
            assert(es@[p] == old(es)@[p]);
            if q < es@.len() - 1 {
                assert(es@[q] == old(es)@[q]);
            }
        }
    }
}

/// The index of the frontier entry of `node`.
fn find_entry(es: &Vec<SearchEntry>, node: i32) -> (k: usize)
    requires
        has_snode(es@, node),
    ensures
        k < es@.len() && es@[k as int].node == node,
{
    let n = es.len();
    let mut i: usize = 0;
    while i < n
        invariant
            n == es@.len(),
            i <= n,
            has_snode(es@, node),
            forall|k: int| 0 <= k < i ==> es@[k].node != node,
        decreases n - i,
    {
        if es[i].node == node {
            return i;
        }
        i = i + 1;
    }
    proof {
        assert(false);
    }
    0
}

/// The unvisited entry of least tentative cost below the sentinel, if any.
fn find_min(es: &Vec<SearchEntry>) -> (r: Option<usize>)
    ensures
        match r {
            Some(j) => j < es@.len() && !es@[j as int].visited && es@[j as int].cost < i32::MAX
                && forall|i: int|
                0 <= i < es@.len() && !(#[trigger] es@[i]).visited ==> es@[j as int].cost
                    <= es@[i].cost,
            None => forall|i: int|
                0 <= i < es@.len() ==> (#[trigger] es@[i]).visited || es@[i].cost == i32::MAX,
        },
{
    let n = es.len();
    let mut best: Option<usize> = None;
    let mut i: usize = 0;
    while i < n
        invariant
            n == es@.len(),
            i <= n,
            match best {
                Some(j) => j < i && !es@[j as int].visited && es@[j as int].cost < i32::MAX
                    && forall|k: int|
                    0 <= k < i && !(#[trigger] es@[k]).visited ==> es@[j as int].cost
                        <= es@[k].cost,
                None => forall|k: int|
                    0 <= k < i ==> (#[trigger] es@[k]).visited || es@[k].cost == i32::MAX,
            },
        decreases n - i,
    {
        if !es[i].visited && es[i].cost < i32::MAX {
            match best {
                Some(j) => {
                    if es[i].cost < es[j].cost {
                        best = Some(i);
                    }
                },
                None => {
                    best = Some(i);
                },
            }
        }
        i = i + 1;
    }
    best
}

impl Graph {
    /// The frontier at the start of a search from `from`: one unvisited entry
    /// for `from` at cost 0 and one at the sentinel cost for every edge
    /// target.
    fn init_frontier(&self, from: i32) -> (es: Vec<SearchEntry>)
        requires
            self.wf(),
        ensures
            entries_unique(es@),
            has_snode(es@, from),
            targets_covered(*self, es@),
            forall|i: int| 0 <= i < es@.len() ==> !(#[trigger] es@[i]).visited,
            forall|i: int|
                0 <= i < es@.len() ==> (#[trigger] es@[i]).cost == if es@[i].node == from {
                    0i32
                } else {
                    i32::MAX
                },
    {
        let mut es: Vec<SearchEntry> = Vec::new();
        es.push(SearchEntry { node: from, cost: 0, visited: false });
        let n = self.rows.len();
        let mut i: usize = 0;
        while i < n
            invariant
                self.wf(),
                n == self.rows@.len(),
                i <= n,
                entries_unique(es@),
                es@.len() >= 1,
                es@[0] == (SearchEntry { node: from, cost: 0i32, visited: false }),
                forall|p: int| 0 <= p < es@.len() ==> !(#[trigger] es@[p]).visited,
                forall|p: int|
                    0 <= p < es@.len() ==> (#[trigger] es@[p]).cost == if es@[p].node == from {
                        0i32
                    } else {
                        i32::MAX
                    },
                forall|p: int, q: int|
                    0 <= p < i && 0 <= q < self.rows@[p].edges@.len() ==> has_snode(
                        es@,
                        (#[trigger] self.rows@[p].edges@[q]).node_b_id,
                    ),
            decreases n - i,
        {
            let row = &self.rows[i];
            let m = row.edges.len();
            let mut j: usize = 0;
            while j < m
                invariant
                    self.wf(),
                    i < self.rows@.len(),
                    row == self.rows@[i as int],
                    m == row.edges@.len(),
                    j <= m,
                    entries_unique(es@),
                    es@.len() >= 1,
                    es@[0] == (SearchEntry { node: from, cost: 0i32, visited: false }),
                    forall|p: int| 0 <= p < es@.len() ==> !(#[trigger] es@[p]).visited,
                    forall|p: int|
                        0 <= p < es@.len() ==> (#[trigger] es@[p]).cost == if es@[p].node == from {
                            0i32
                        } else {
                            i32::MAX
                        },
                    forall|p: int, q: int|
                        0 <= p < i && 0 <= q < self.rows@[p].edges@.len() ==> has_snode(
                            es@,
                            (#[trigger] self.rows@[p].edges@[q]).node_b_id,
                        ),
                    forall|q: int|
                        0 <= q < j ==> has_snode(
                            es@,
                            (#[trigger] row.edges@[q]).node_b_id,
                        ),
                decreases m - j,
            {
                let ghost before = es@;
                push_unique(&mut es, row.edges[j].node_b_id);
                proof {
                    assert forall|p: int|
                        0 <= p < es@.len() implies (#[trigger] es@[p]).cost == if es@[p].node
                        == from {
                        0i32
                    } else {
                        i32::MAX
                    } by {
                        if p < before.len() {
                            assert(es@[p] == before[p]);
                        } else {
                            assert(es@[0].node == from);
                            assert(es@[p].node != es@[0].node);
                        }
                    }
                    assert forall|p: int, q: int|
                        0 <= p < i && 0 <= q < self.rows@[p].edges@.len() implies has_snode(
                        es@,
                        (#[trigger] self.rows@[p].edges@[q]).node_b_id,
                    ) by {
                        let k = self.rows@[p].edges@[q].node_b_id;
                        let w = choose|w: int| 0 <= w < before.len() && before[w].node == k;
                        assert(es@[w].node == k);
                    }
                    assert forall|q: int| 0 <= q < j + 1 implies has_snode(
                        es@,
                        (#[trigger] row.edges@[q]).node_b_id,
                    ) by {
                        if q < j {
                            let k = row.edges@[q].node_b_id;
                            let w = choose|w: int| 0 <= w < before.len() && before[w].node == k;
                            assert(es@[w].node == k);
                        }
                    }
                }
                j = j + 1;
            }
            i = i + 1;
        }
        proof {
            assert forall|k: i32| is_edge_target(*self, k) implies has_snode(es@, k) by {
                let (p, q) = choose|p: int, q: int|
                    0 <= p < self.rows@.len() && 0 <= q < self.rows@[p].edges@.len()
                        && self.rows@[p].edges@[q].node_b_id == k;
                assert(has_snode(es@, self.rows@[p].edges@[q].node_b_id));
            }
        }
        es
    }

    /// Lowers the tentative cost of every head of an entry of `u` to at most
    /// the finalized cost `c` plus the entry's weight, saturating at the
    /// sentinel; no cost ever rises and no other field changes.
    fn relax(&self, es: &mut Vec<SearchEntry>, u: i32, c: i32)
        requires
            self.wf(),
            entries_unique(old(es)@),
            targets_covered(*self, old(es)@),
        ensures
            final(es)@.len() == old(es)@.len(),
            entries_unique(final(es)@),
            targets_covered(*self, final(es)@),
            forall|i: int|
                0 <= i < final(es)@.len() ==> (#[trigger] final(es)@[i]).node == old(es)@[i].node
                    && final(es)@[i].visited == old(es)@[i].visited,
            forall|i: int|
                0 <= i < final(es)@.len() ==> (#[trigger] final(es)@[i]).cost <= old(es)@[i].cost,
            forall|i: int|
                0 <= i < final(es)@.len() ==> (#[trigger] final(es)@[i]).cost == old(es)@[i].cost
                    || exists|j: int|
                    0 <= j < self.adj_of(u).len() && final(es)@[i].node == (
                    #[trigger] self.adj_of(u)[j]).node_b_id && final(es)@[i].cost as int
                        == sat_add_spec(c as int, self.adj_of(u)[j].weight as int),
            forall|i: int, j: int|
                0 <= i < final(es)@.len() && 0 <= j < self.adj_of(u).len()
                    && (#[trigger] final(es)@[i]).node == (#[trigger] self.adj_of(u)[j]).node_b_id
                    ==> final(es)@[i].cost as int <= sat_add_spec(
                    c as int,
                    self.adj_of(u)[j].weight as int,
                ),
    {
        let n = self.rows.len();
        let mut i: usize = 0;
        while i < n
            invariant
                self.wf(),
                n == self.rows@.len(),
                i <= n,
                es@ == old(es)@,
                entries_unique(es@),
                targets_covered(*self, es@),
                forall|k: int| 0 <= k < i ==> self.rows@[k].key != u,
            decreases n - i,
        {
            if self.rows[i].key == u {
                proof {
                    lemma_row_lookup_at(self.rows@, i as int);
                }
                let row = &self.rows[i];
                let m = row.edges.len();
                let mut j: usize = 0;
                while j < m
                    invariant
                        self.wf(),
                        i < self.rows@.len(),
                        row == self.rows@[i as int],
                        self.adj_of(u) == row.edges@,
                        m == row.edges@.len(),
                        j <= m,
                        es@.len() == old(es)@.len(),
                        entries_unique(es@),
                        targets_covered(*self, es@),
                        forall|p: int|
                            0 <= p < es@.len() ==> (#[trigger] es@[p]).node == old(es)@[p].node
                                && es@[p].visited == old(es)@[p].visited,
                        forall|p: int|
                            0 <= p < es@.len() ==> (#[trigger] es@[p]).cost <= old(es)@[p].cost,
                        forall|p: int|
                            0 <= p < es@.len() ==> (#[trigger] es@[p]).cost == old(es)@[p].cost
                                || exists|q: int|
                                0 <= q < row.edges@.len() && es@[p].node == (
                                #[trigger] row.edges@[q]).node_b_id && es@[p].cost as int
                                    == sat_add_spec(c as int, row.edges@[q].weight as int),
                        forall|p: int, q: int|
                            0 <= p < es@.len() && 0 <= q < j && (#[trigger] es@[p]).node == (
                            #[trigger] row.edges@[q]).node_b_id ==> es@[p].cost as int
                                <= sat_add_spec(c as int, row.edges@[q].weight as int),
                    decreases m - j,
                {
                    let ghost before = es@;
                    let e = row.edges[j];
                    let nc = sat_add(c, e.weight);
                    proof {
                        lemma_adj_head_is_target(*self, u, j as int);
                    }
                    let k = find_entry(&es, e.node_b_id);
                    if nc < es[k].cost {
                        let prev = es[k];
                        es[k] = SearchEntry { node: prev.node, cost: nc, visited: prev.visited };
                    }
                    proof {
                        assert forall|p: int|
                            0 <= p < es@.len() implies (#[trigger] es@[p]).node == before[p].node
                            && es@[p].visited == before[p].visited && es@[p].cost
                            <= before[p].cost by {}
                        assert forall|kk: i32| is_edge_target(*self, kk) implies has_snode(
                            es@,
                            kk,
                        ) by {
                            let w = choose|w: int| 0 <= w < before.len() && before[w].node == kk;
                            assert(es@[w].node == kk);
                        }
                        assert forall|p: int, q: int|
                            0 <= p < q < es@.len() implies es@[p].node != es@[q].node by {
                            assert(es@[p].node == before[p].node);
                            assert(es@[q].node == before[q].node);
                        }
                    }
                    j = j + 1;
                }
                return ;
            }
            i = i + 1;
        }
        proof {
            lemma_row_lookup_absent(self.rows@, u);
        }
    }
}

/// Whether the list of ids holds `x`.
fn contains_id(v: &Vec<i32>, x: i32) -> (r: bool)
    ensures
        r == v@.contains(x),
{
    let n = v.len();
    let mut i: usize = 0;
    while i < n
        invariant
            n == v@.len(),
            i <= n,
            forall|k: int| 0 <= k < i ==> v@[k] != x,
        decreases n - i,
    {
        if v[i] == x {
            proof {
                assert(v@[i as int] == x);
            }
            return true;
        }
        i = i + 1;
    }
    false
}

impl Graph {
    /// The number of directed entries leaving `node_id`.
    pub fn degree(&self, node_id: i32) -> (n: usize)
        requires
            self.wf(),
        ensures
            n == self.adj_of(node_id).len(),
    {
        let m = self.rows.len();
        let mut i: usize = 0;
        while i < m
            invariant
                self.wf(),
                m == self.rows@.len(),
                i <= m,
                forall|k: int| 0 <= k < i ==> self.rows@[k].key != node_id,
            decreases m - i,
        {
            if self.rows[i].key == node_id {
                proof {
                    lemma_row_lookup_at(self.rows@, i as int);
                }
                return self.rows[i].edges.len();
            }
            i = i + 1;
        }
        proof {
            lemma_row_lookup_absent(self.rows@, node_id);
        }
        0
    }

    /// The cost of a cheapest path from `from_node_id` to `to_node_id` found
    /// by the best-first search, or the sentinel `i32::MAX` when the frontier
    /// empties first. Asking for the start itself costs 0, and the answer
    /// never exceeds the weight of any direct edge between the two nodes.
    pub fn shortest_path(&self, from_node_id: i32, to_node_id: i32) -> (cost: i32)
        requires
            self.wf(),
        ensures
            from_node_id == to_node_id ==> cost == 0,
            forall|j: int|
                0 <= j < self.adj_of(from_node_id).len() && (#[trigger] self.adj_of(
                    from_node_id,
                )[j]).node_b_id == to_node_id && from_node_id != to_node_id ==> cost <= self.adj_of(
                    from_node_id,
                )[j].weight,
            self.nonneg_weights() ==> 0 <= cost,
            self.nonneg_weights() && cost < i32::MAX ==> has_walk(
                *self,
                from_node_id,
                to_node_id,
                cost as int,
            ),
            self.nonneg_weights() ==> forall|c: int|
                #[trigger] has_walk(*self, from_node_id, to_node_id, c) ==> cost as int <= c,
            self.nonneg_weights() ==> (reaches(*self, from_node_id, to_node_id) ==> cost
                < i32::MAX),
    {
        if from_node_id == to_node_id {
            proof {
                lemma_walk_refl(*self, from_node_id);
                if self.nonneg_weights() {
                    assert forall|c: int|
                        #[trigger] has_walk(*self, from_node_id, to_node_id, c) implies 0 <= c by {
                        let ws = choose|ws: Seq<Edge>|
                            is_walk(*self, from_node_id, ws) && walk_end(from_node_id, ws)
                                == to_node_id && #[trigger] walk_cost(ws) == c;
                        lemma_walk_cost_nonneg(*self, from_node_id, ws);
                    }
                }
            }
            return 0;
        }
        let from = from_node_id;
        let to = to_node_id;
        let mut es = self.init_frontier(from);
        let s0 = find_entry(&es, from);
        let ghost init0 = es@;
        let prev0 = es[s0];
        es[s0] = SearchEntry { node: prev0.node, cost: 0, visited: true };
        proof {
            assert forall|p: int| 0 <= p < es@.len() implies (#[trigger] es@[p]).node
                == init0[p].node by {
                if p != s0 as int {
                    assert(es@[p] == init0[p]);
                }
            }
            assert forall|p: int, q: int|
                0 <= p < q < es@.len() implies es@[p].node != es@[q].node by {
                assert(init0[p].node != init0[q].node);
            }
            assert forall|kk: i32| is_edge_target(*self, kk) implies has_snode(es@, kk) by {
                let w = choose|w: int| 0 <= w < init0.len() && init0[w].node == kk;
                assert(es@[w].node == kk);
            }
        }
        let ghost mid = es@;
        self.relax(&mut es, from, 0);
        proof {
            if self.nonneg_weights() {
                lemma_walk_refl(*self, from);
                assert forall|i: int|
                    0 <= i < es@.len() && (#[trigger] es@[i]).cost < i32::MAX implies has_walk(
                    *self,
                    from,
                    es@[i].node,
                    es@[i].cost as int,
                ) by {
                    if es@[i].cost == mid[i].cost {
                        if i != s0 as int {
                            assert(mid[i] == init0[i]);
                        }
                        assert(es@[i].node == mid[i].node);
                    } else {
                        let q = choose|q: int|
                            0 <= q < self.adj_of(from).len() && es@[i].node == self.adj_of(
                                from,
                            )[q].node_b_id && es@[i].cost as int == sat_add_spec(
                                0 as int,
                                self.adj_of(from)[q].weight as int,
                            );
                        lemma_walk_extend(*self, from, from, 0, q);
                    }
                }
            }
            assert forall|p: int|
                0 <= p < es@.len() implies (#[trigger] es@[p]).node == init0[p].node && (es@[p].visited <==> p == s0 as int) by {
                if p != s0 as int {
                    assert(mid[p] == init0[p]);
                }
            }
            assert(has_snode(es@, from)) by {
                let w = choose|w: int| 0 <= w < init0.len() && init0[w].node == from;
                assert(es@[w].node == from);
            }
            assert forall|p: int|
                0 <= p < es@.len() && (#[trigger] es@[p]).node == from implies es@[p].visited by {
                if p != s0 as int {
                    assert(init0[p].node != init0[s0 as int].node);
                }
            }
            if self.nonneg_weights() {
                assert forall|p: int|
                    0 <= p < es@.len() && (#[trigger] es@[p]).node == from implies es@[p].cost
                    == 0 by {
                    assert(p == s0 as int);
                    assert(mid[p].cost == 0);
                    if es@[p].cost != mid[p].cost {
                        let q = choose|q: int|
                            0 <= q < self.adj_of(from).len() && es@[p].node == (
                            #[trigger] self.adj_of(from)[q]).node_b_id && es@[p].cost as int
                                == sat_add_spec(0int, self.adj_of(from)[q].weight as int);
                        assert(self.adj_of(from)[q].weight >= 0);
                        assert(false);
                    }
                }
                assert(relaxed(*self, es@)) by {
                    assert forall|i: int, j: int, k: int|
                        0 <= i < es@.len() && es@[i].visited && 0 <= j < self.adj_of(
                            es@[i].node,
                        ).len() && 0 <= k < es@.len() && (#[trigger] es@[k]).node == (
                        #[trigger] self.adj_of(es@[i].node)[j]).node_b_id implies es@[k].cost
                        as int <= es@[i].cost + self.adj_of(es@[i].node)[j].weight by {
                        assert(i == s0 as int);
                        assert(es@[i].node == from);
                        assert(es@[k].cost as int <= sat_add_spec(
                            0int,
                            self.adj_of(from)[j].weight as int,
                        ));
                        assert(es@[i].cost == 0);
                    }
                }
                assert(settled_below(es@)) by {
                    assert forall|i: int, k: int|
                        0 <= i < es@.len() && 0 <= k < es@.len() && (#[trigger] es@[i]).visited
                            && !(#[trigger] es@[k]).visited implies es@[i].cost <= es@[k].cost by {
                        assert(i == s0 as int);
                        assert(es@[i].cost == 0);
                    }
                }
            }
        }
        loop
            invariant
                self.wf(),
                from == from_node_id,
                to == to_node_id,
                from != to,
                entries_unique(es@),
                targets_covered(*self, es@),
                forall|i: int|
                    0 <= i < es@.len() && (#[trigger] es@[i]).node == to ==> !es@[i].visited,
                forall|i: int, j: int|
                    0 <= i < es@.len() && 0 <= j < self.adj_of(from).len() && (#[trigger] es@[i]).node == to && (#[trigger] self.adj_of(from)[j]).node_b_id == to ==> es@[i].cost <= self.adj_of(from)[j].weight,
                self.nonneg_weights() ==> forall|i: int|
                    0 <= i < es@.len() ==> (#[trigger] es@[i]).cost >= 0,
                self.nonneg_weights() ==> forall|i: int|
                    0 <= i < es@.len() && (#[trigger] es@[i]).cost < i32::MAX ==> has_walk(
                        *self,
                        from,
                        es@[i].node,
                        es@[i].cost as int,
                    ),
                has_snode(es@, from),
                forall|i: int|
                    0 <= i < es@.len() && (#[trigger] es@[i]).node == from ==> es@[i].visited,
                self.nonneg_weights() ==> forall|i: int|
                    0 <= i < es@.len() && (#[trigger] es@[i]).node == from ==> es@[i].cost == 0,
                self.nonneg_weights() ==> relaxed(*self, es@),
                self.nonneg_weights() ==> settled_below(es@),
            decreases count_unvisited(es@),
        {
            let ghost head = es@;
            let m = find_min(&es);
            match m {
                None => {
                    proof {
                        assert forall|j: int|
                            0 <= j < self.adj_of(from).len() && (#[trigger] self.adj_of(
                                from,
                            )[j]).node_b_id == to implies i32::MAX <= self.adj_of(
                            from,
                        )[j].weight by {
                            lemma_adj_head_is_target(*self, from, j);
                            let w = choose|w: int| 0 <= w < es@.len() && es@[w].node == to;
                            assert(!es@[w].visited);
                            assert(es@[w].cost == i32::MAX);
                        }
                        if self.nonneg_weights() {
                            assert forall|cw: int|
                                #[trigger] has_walk(*self, from, to, cw) implies i32::MAX
                                <= cw by {
                                let ws = choose|ws: Seq<Edge>|
                                    is_walk(*self, from, ws) && walk_end(from, ws) == to
                                        && #[trigger] walk_cost(ws) == cw;
                                lemma_walk_lower_bound(*self, from, es@, ws);
                                if exists|k: int|
                                    0 <= k < es@.len() && (#[trigger] es@[k]).node == to
                                        && es@[k].cost as int <= cw {
                                    let k = choose|k: int|
                                        0 <= k < es@.len() && (#[trigger] es@[k]).node == to
                                            && es@[k].cost as int <= cw;
                                    assert(!es@[k].visited);
                                    assert(es@[k].cost == i32::MAX);
                                } else {
                                    let k = choose|k: int|
                                        0 <= k < es@.len() && !(#[trigger] es@[k]).visited
                                            && es@[k].cost as int <= cw;
                                    assert(es@[k].cost == i32::MAX);
                                }
                            }
                            if reaches(*self, from, to) {
                                let c0 = choose|c0: int|
                                    0 <= c0 < i32::MAX && #[trigger] has_walk(*self, from, to, c0);
                                assert(i32::MAX <= c0);
                                assert(false);
                            }
                        }
                    }
                    return i32::MAX;
                },
                Some(jx) => {
                    let c = es[jx].cost;
                    let u = es[jx].node;
                    if u == to {
                        proof {
                            if self.nonneg_weights() {
                                assert(has_walk(*self, from, u, c as int));
                                assert forall|cw: int|
                                    #[trigger] has_walk(*self, from, to, cw) implies c as int
                                    <= cw by {
                                    let ws = choose|ws: Seq<Edge>|
                                        is_walk(*self, from, ws) && walk_end(from, ws) == to
                                            && #[trigger] walk_cost(ws) == cw;
                                    lemma_walk_lower_bound(*self, from, es@, ws);
                                    if exists|k: int|
                                        0 <= k < es@.len() && (#[trigger] es@[k]).node == to
                                            && es@[k].cost as int <= cw {
                                        let k = choose|k: int|
                                            0 <= k < es@.len() && (#[trigger] es@[k]).node == to
                                                && es@[k].cost as int <= cw;
                                        assert(!es@[k].visited);
                                        assert(es@[jx as int].cost <= es@[k].cost);
                                    } else {
                                        let k = choose|k: int|
                                            0 <= k < es@.len() && !(#[trigger] es@[k]).visited
                                                && es@[k].cost as int <= cw;
                                        assert(es@[jx as int].cost <= es@[k].cost);
                                    }
                                }
                            }
                        }
                        return c;
                    }
                    let prev = es[jx];
                    es[jx] = SearchEntry { node: prev.node, cost: prev.cost, visited: true };
                    let ghost settled = es@;
                    proof {
                        assert forall|p: int| 0 <= p < settled.len() implies (#[trigger] settled[p]).node
                            == head[p].node && settled[p].cost == head[p].cost by {
                            if p != jx as int {
                                assert(settled[p] == head[p]);
                            }
                        }
                        assert forall|p: int, q: int|
                            0 <= p < q < settled.len() implies settled[p].node != settled[q].node by {
                            assert(head[p].node != head[q].node);
                        }
                        assert forall|kk: i32| is_edge_target(*self, kk) implies has_snode(settled, kk) by {
                            let w = choose|w: int| 0 <= w < head.len() && head[w].node == kk;
                            assert(settled[w].node == kk);
                        }
                    }
                    self.relax(&mut es, u, c);
                    proof {
                        lemma_count_flags(es@, settled);
                        lemma_count_settle(head, jx as int, settled[jx as int]);
                        if self.nonneg_weights() {
                            assert forall|i: int|
                                0 <= i < es@.len() implies (#[trigger] es@[i]).cost >= 0 by {
                                if es@[i].cost != settled[i].cost {
                                    let q = choose|q: int|
                                        0 <= q < self.adj_of(u).len() && es@[i].node == (
                                        #[trigger] self.adj_of(u)[q]).node_b_id && es@[i].cost
                                            as int == sat_add_spec(
                                            c as int,
                                            self.adj_of(u)[q].weight as int,
                                        );
                                    assert(self.adj_of(u)[q].weight >= 0);
                                }
                            }
                            assert(has_walk(*self, from, u, c as int));
                            assert forall|i: int|
                                0 <= i < es@.len() && (#[trigger] es@[i]).cost
                                < i32::MAX implies has_walk(
                                *self,
                                from,
                                es@[i].node,
                                es@[i].cost as int,
                            ) by {
                                if es@[i].cost == settled[i].cost {
                                    assert(settled[i].cost == head[i].cost);
                                    assert(es@[i].node == head[i].node);
                                    assert(has_walk(
                                        *self,
                                        from,
                                        head[i].node,
                                        head[i].cost as int,
                                    ));
                                } else {
                                    let q = choose|q: int|
                                        0 <= q < self.adj_of(u).len() && es@[i].node == (
                                        #[trigger] self.adj_of(u)[q]).node_b_id && es@[i].cost
                                            as int == sat_add_spec(
                                            c as int,
                                            self.adj_of(u)[q].weight as int,
                                        );
                                    assert(self.adj_of(u)[q].weight >= 0);
                                    assert(c >= 0);
                                    lemma_walk_extend(*self, from, u, c as int, q);
                                }
                            }
                            assert forall|i: int|
                                0 <= i < es@.len() && (#[trigger] es@[i]).visited implies es@[i].cost == head[i].cost by {
                                if es@[i].cost != settled[i].cost {
                                    let q = choose|q: int|
                                        0 <= q < self.adj_of(u).len() && es@[i].node == (
                                        #[trigger] self.adj_of(u)[q]).node_b_id && es@[i].cost
                                            as int == sat_add_spec(
                                            c as int,
                                            self.adj_of(u)[q].weight as int,
                                        );
                                    assert(self.adj_of(u)[q].weight >= 0);
                                    assert(es@[i].cost as int >= c as int);
                                    if i != jx as int {
                                        assert(head[i].visited);
                                        assert(head[i].cost <= head[jx as int].cost);
                                    }
                                    assert(false);
                                }
                                assert(settled[i].cost == head[i].cost);
                            }
                            assert(settled_below(es@)) by {
                                assert forall|i: int, k: int|
                                    0 <= i < es@.len() && 0 <= k < es@.len() && (
                                    #[trigger] es@[i]).visited && !(
                                    #[trigger] es@[k]).visited implies es@[i].cost
                                    <= es@[k].cost by {
                                    assert(es@[i].cost == head[i].cost);
                                    if i != jx as int {
                                        assert(head[i].visited);
                                        assert(head[i].cost <= head[jx as int].cost);
                                    }
                                    assert(!settled[k].visited && k != jx as int);
                                    assert(!head[k].visited);
                                    if es@[k].cost == settled[k].cost {
                                        assert(head[jx as int].cost <= head[k].cost);
                                    } else {
                                        let q = choose|q: int|
                                            0 <= q < self.adj_of(u).len() && es@[k].node == (
                                            #[trigger] self.adj_of(u)[q]).node_b_id && es@[k].cost
                                                as int == sat_add_spec(
                                                c as int,
                                                self.adj_of(u)[q].weight as int,
                                            );
                                        assert(self.adj_of(u)[q].weight >= 0);
                                    }
                                }
                            }
                            assert(relaxed(*self, es@)) by {
                                assert forall|i: int, j: int, k: int|
                                    0 <= i < es@.len() && es@[i].visited && 0 <= j < self.adj_of(
                                        es@[i].node,
                                    ).len() && 0 <= k < es@.len() && (#[trigger] es@[k]).node == (
                                    #[trigger] self.adj_of(es@[i].node)[j]).node_b_id implies es@[k].cost
                                    as int <= es@[i].cost + self.adj_of(es@[i].node)[j].weight by {
                                    assert(es@[i].cost == head[i].cost);
                                    assert(es@[i].node == head[i].node);
                                    if i == jx as int {
                                        assert(es@[i].node == u);
                                        assert(es@[k].cost as int <= sat_add_spec(
                                            c as int,
                                            self.adj_of(u)[j].weight as int,
                                        ));
                                        assert(self.adj_of(u)[j].weight >= 0);
                                    } else {
                                        assert(head[i].visited);
                                        assert(head[k].node == es@[k].node);
                                        assert(head[k].cost as int <= head[i].cost + self.adj_of(
                                            head[i].node,
                                        )[j].weight);
                                        assert(es@[k].cost <= settled[k].cost);
                                        assert(settled[k].cost == head[k].cost);
                                    }
                                }
                            }
                            assert forall|i: int|
                                0 <= i < es@.len() && (#[trigger] es@[i]).node == from implies es@[i].cost
                                == 0 by {
                                assert(head[i].node == from);
                                assert(head[i].visited);
                                assert(es@[i].visited == settled[i].visited);
                                assert(es@[i].cost == head[i].cost);
                            }
                        }
                        assert(has_snode(es@, from)) by {
                            let w = choose|w: int| 0 <= w < head.len() && head[w].node == from;
                            assert(es@[w].node == from);
                        }
                        assert forall|i: int|
                            0 <= i < es@.len() && (#[trigger] es@[i]).node == from implies es@[i].visited by {
                            assert(head[i].node == es@[i].node);
                            assert(settled[i].visited == es@[i].visited);
                            if i != jx as int {
                                assert(settled[i].visited == head[i].visited);
                            }
                        }
                        assert forall|i: int|
                            0 <= i < es@.len() && (#[trigger] es@[i]).node == to implies !es@[i].visited by {
                            assert(es@[i].visited == settled[i].visited);
                            assert(settled[i].node == head[i].node);
                        }
                        assert forall|i: int, j: int|
                            0 <= i < es@.len() && 0 <= j < self.adj_of(from).len() && (
                            #[trigger] es@[i]).node == to && (#[trigger] self.adj_of(
                                from,
                            )[j]).node_b_id == to implies es@[i].cost <= self.adj_of(
                            from,
                        )[j].weight by {
                            assert(es@[i].cost <= settled[i].cost);
                            assert(settled[i].cost == head[i].cost);
                            assert(head[i].node == to);
                        }
                    }
                },
            }
        }
    }

    /// The first requested target settled by the best-first search from
    /// `from_node_id`, or `NotFound` when the frontier empties before any
    /// member of `to_node_ids` is reached. A start that is itself a target is
    /// returned immediately.
    #[verifier::rlimit(30)]
    #[verifier::spinoff_prover]
    pub fn nearest_node(&self, from_node_id: i32, to_node_ids: &Vec<i32>) -> (r: Result<
        i32,
        SearchError,
    >)
        requires
            self.wf(),
        ensures
            match r {
                Ok(n) => to_node_ids@.contains(n) && (to_node_ids@.contains(from_node_id) ==> n
                    == from_node_id) && (self.nonneg_weights() ==> reaches(*self, from_node_id, n)
                    && forall|t: i32, ct: int|
                    to_node_ids@.contains(t) && #[trigger] has_walk(*self, from_node_id, t, ct)
                        ==> exists|cn: int|
                        cn <= ct && #[trigger] has_walk(*self, from_node_id, n, cn)),
                Err(e) => {
                    &&& e == SearchError::NotFound
                    &&& !to_node_ids@.contains(from_node_id)
                    &&& self.nonneg_weights() ==> forall|t: i32|
                        #[trigger] to_node_ids@.contains(t) ==> !reaches(*self, from_node_id, t)
                    &&& forall|j: int|
                        0 <= j < self.adj_of(from_node_id).len() && (#[trigger] self.adj_of(
                            from_node_id,
                        )[j]).weight < i32::MAX ==> !to_node_ids@.contains(
                            self.adj_of(from_node_id)[j].node_b_id,
                        )
                },
            },
    {
        if contains_id(to_node_ids, from_node_id) {
            proof {
                lemma_walk_refl(*self, from_node_id);
                assert(reaches(*self, from_node_id, from_node_id));
                if self.nonneg_weights() {
                    assert forall|t: i32, ct: int|
                        to_node_ids@.contains(t) && #[trigger] has_walk(
                            *self,
                            from_node_id,
                            t,
                            ct,
                        ) implies exists|cn: int|
                        cn <= ct && #[trigger] has_walk(*self, from_node_id, from_node_id, cn) by {
                        let ws = choose|ws: Seq<Edge>|
                            is_walk(*self, from_node_id, ws) && walk_end(from_node_id, ws) == t
                                && #[trigger] walk_cost(ws) == ct;
                        lemma_walk_cost_nonneg(*self, from_node_id, ws);
                        assert(0 <= ct && has_walk(*self, from_node_id, from_node_id, 0));
                    }
                }
            }
            return Ok(from_node_id);
        }
        let from = from_node_id;
        let mut es = self.init_frontier(from);
        let s0 = find_entry(&es, from);
        let ghost init0 = es@;
        let prev0 = es[s0];
        es[s0] = SearchEntry { node: prev0.node, cost: 0, visited: true };
        proof {
            assert forall|p: int| 0 <= p < es@.len() implies (#[trigger] es@[p]).node
                == init0[p].node by {
                if p != s0 as int {
                    assert(es@[p] == init0[p]);
                }
            }
            assert forall|p: int, q: int|
                0 <= p < q < es@.len() implies es@[p].node != es@[q].node by {
                assert(init0[p].node != init0[q].node);
            }
            assert forall|kk: i32| is_edge_target(*self, kk) implies has_snode(es@, kk) by {
                let w = choose|w: int| 0 <= w < init0.len() && init0[w].node == kk;
                assert(es@[w].node == kk);
            }
        }
        let ghost mid = es@;
        self.relax(&mut es, from, 0);
        proof {
            if self.nonneg_weights() {
                lemma_walk_refl(*self, from);
                assert forall|i: int|
                    0 <= i < es@.len() && (#[trigger] es@[i]).cost < i32::MAX implies has_walk(
                    *self,
                    from,
                    es@[i].node,
                    es@[i].cost as int,
                ) by {
                    if es@[i].cost == mid[i].cost {
                        if i != s0 as int {
                            assert(mid[i] == init0[i]);
                        }
                        assert(es@[i].node == mid[i].node);
                    } else {
                        let q = choose|q: int|
                            0 <= q < self.adj_of(from).len() && es@[i].node == self.adj_of(
                                from,
                            )[q].node_b_id && es@[i].cost as int == sat_add_spec(
                                0 as int,
                                self.adj_of(from)[q].weight as int,
                            );
                        lemma_walk_extend(*self, from, from, 0, q);
                    }
                }
            }
            assert forall|p: int|
                0 <= p < es@.len() implies (#[trigger] es@[p]).node == init0[p].node && (es@[p].visited <==> p == s0 as int) by {
                if p != s0 as int {
                    assert(mid[p] == init0[p]);
                }
            }
            assert(has_snode(es@, from)) by {
                let w = choose|w: int| 0 <= w < init0.len() && init0[w].node == from;
                assert(es@[w].node == from);
            }
            assert forall|p: int|
                0 <= p < es@.len() && (#[trigger] es@[p]).node == from implies es@[p].visited by {
                if p != s0 as int {
                    assert(init0[p].node != init0[s0 as int].node);
                }
            }
            if self.nonneg_weights() {
                assert forall|p: int|
                    0 <= p < es@.len() && (#[trigger] es@[p]).node == from implies es@[p].cost
                    == 0 by {
                    assert(p == s0 as int);
                    assert(mid[p].cost == 0);
                    if es@[p].cost != mid[p].cost {
                        let q = choose|q: int|
                            0 <= q < self.adj_of(from).len() && es@[p].node == (
                            #[trigger] self.adj_of(from)[q]).node_b_id && es@[p].cost as int
                                == sat_add_spec(0int, self.adj_of(from)[q].weight as int);
                        assert(self.adj_of(from)[q].weight >= 0);
                        assert(false);
                    }
                }
                assert(relaxed(*self, es@)) by {
                    assert forall|i: int, j: int, k: int|
                        0 <= i < es@.len() && es@[i].visited && 0 <= j < self.adj_of(
                            es@[i].node,
                        ).len() && 0 <= k < es@.len() && (#[trigger] es@[k]).node == (
                        #[trigger] self.adj_of(es@[i].node)[j]).node_b_id implies es@[k].cost
                        as int <= es@[i].cost + self.adj_of(es@[i].node)[j].weight by {
                        assert(i == s0 as int);
                        assert(es@[i].node == from);
                        assert(es@[k].cost as int <= sat_add_spec(
                            0int,
                            self.adj_of(from)[j].weight as int,
                        ));
                        assert(es@[i].cost == 0);
                    }
                }
                assert(settled_below(es@)) by {
                    assert forall|i: int, k: int|
                        0 <= i < es@.len() && 0 <= k < es@.len() && (#[trigger] es@[i]).visited
                            && !(#[trigger] es@[k]).visited implies es@[i].cost <= es@[k].cost by {
                        assert(i == s0 as int);
                        assert(es@[i].cost == 0);
                    }
                }
            }
        }
        loop
            invariant
                self.wf(),
                from == from_node_id,
                !to_node_ids@.contains(from),
                entries_unique(es@),
                targets_covered(*self, es@),
                forall|i: int|
                    0 <= i < es@.len() && (#[trigger] es@[i]).visited ==> !to_node_ids@.contains(
                        es@[i].node,
                    ),
                forall|i: int, j: int|
                    0 <= i < es@.len() && 0 <= j < self.adj_of(from).len() && (#[trigger] es@[i]).node == (#[trigger] self.adj_of(from)[j]).node_b_id ==> es@[i].cost
                        <= self.adj_of(from)[j].weight,
                self.nonneg_weights() ==> forall|i: int|
                    0 <= i < es@.len() ==> (#[trigger] es@[i]).cost >= 0,
                self.nonneg_weights() ==> forall|i: int|
                    0 <= i < es@.len() && (#[trigger] es@[i]).cost < i32::MAX ==> has_walk(
                        *self,
                        from,
                        es@[i].node,
                        es@[i].cost as int,
                    ),
                has_snode(es@, from),
                forall|i: int|
                    0 <= i < es@.len() && (#[trigger] es@[i]).node == from ==> es@[i].visited,
                self.nonneg_weights() ==> forall|i: int|
                    0 <= i < es@.len() && (#[trigger] es@[i]).node == from ==> es@[i].cost == 0,
                self.nonneg_weights() ==> relaxed(*self, es@),
                self.nonneg_weights() ==> settled_below(es@),
            decreases count_unvisited(es@),
        {
            let ghost head = es@;
            let m = find_min(&es);
            match m {
                None => {
                    proof {
                        assert forall|j: int|
                            0 <= j < self.adj_of(from).len() && (#[trigger] self.adj_of(
                                from,
                            )[j]).weight < i32::MAX implies !to_node_ids@.contains(
                            self.adj_of(from)[j].node_b_id,
                        ) by {
                            lemma_adj_head_is_target(*self, from, j);
                            let t = self.adj_of(from)[j].node_b_id;
                            let w = choose|w: int| 0 <= w < es@.len() && es@[w].node == t;
                            assert(es@[w].cost <= self.adj_of(from)[j].weight);
                            assert(es@[w].visited);
                        }
                        if self.nonneg_weights() {
                            assert forall|t: i32| #[trigger] to_node_ids@.contains(t) implies !reaches(
                                *self,
                                from,
                                t,
                            ) by {
                                if reaches(*self, from, t) {
                                    let c0 = choose|c0: int|
                                        0 <= c0 < i32::MAX && #[trigger] has_walk(*self, from, t, c0);
                                    let ws = choose|ws: Seq<Edge>|
                                        is_walk(*self, from, ws) && walk_end(from, ws) == t
                                            && #[trigger] walk_cost(ws) == c0;
                                    lemma_walk_lower_bound(*self, from, es@, ws);
                                    if exists|k: int|
                                        0 <= k < es@.len() && (#[trigger] es@[k]).node == t
                                            && es@[k].cost as int <= c0 {
                                        let k = choose|k: int|
                                            0 <= k < es@.len() && (#[trigger] es@[k]).node == t
                                                && es@[k].cost as int <= c0;
                                        if es@[k].visited {
                                            assert(!to_node_ids@.contains(t));
                                        } else {
                                            assert(es@[k].cost == i32::MAX);
                                        }
                                    } else {
                                        let k = choose|k: int|
                                            0 <= k < es@.len() && !(#[trigger] es@[k]).visited
                                                && es@[k].cost as int <= c0;
                                        assert(es@[k].cost == i32::MAX);
                                    }
                                    assert(false);
                                }
                            }
                        }
                    }
                    return Err(SearchError::NotFound);
                },
                Some(jx) => {
                    let u = es[jx].node;
                    let c = es[jx].cost;
                    if contains_id(to_node_ids, u) {
                        proof {
                            if self.nonneg_weights() {
                                assert(0 <= c < i32::MAX);
                                assert(has_walk(*self, from, u, c as int));
                                assert(reaches(*self, from_node_id, u));
                                assert forall|t: i32, ct: int|
                                    to_node_ids@.contains(t) && #[trigger] has_walk(
                                        *self,
                                        from,
                                        t,
                                        ct,
                                    ) implies exists|cn: int|
                                    cn <= ct && #[trigger] has_walk(*self, from, u, cn) by {
                                    let ws = choose|ws: Seq<Edge>|
                                        is_walk(*self, from, ws) && walk_end(from, ws) == t
                                            && #[trigger] walk_cost(ws) == ct;
                                    lemma_walk_lower_bound(*self, from, es@, ws);
                                    if exists|k: int|
                                        0 <= k < es@.len() && (#[trigger] es@[k]).node == t
                                            && es@[k].cost as int <= ct {
                                        let k = choose|k: int|
                                            0 <= k < es@.len() && (#[trigger] es@[k]).node == t
                                                && es@[k].cost as int <= ct;
                                        assert(!es@[k].visited);
                                        assert(es@[jx as int].cost <= es@[k].cost);
                                    } else {
                                        let k = choose|k: int|
                                            0 <= k < es@.len() && !(#[trigger] es@[k]).visited
                                                && es@[k].cost as int <= ct;
                                        assert(es@[jx as int].cost <= es@[k].cost);
                                    }
                                    assert(c as int <= ct && has_walk(*self, from, u, c as int));
                                }
                            }
                        }
                        return Ok(u);
                    }
                    let prev = es[jx];
                    es[jx] = SearchEntry { node: prev.node, cost: prev.cost, visited: true };
                    let ghost settled = es@;
                    proof {
                        assert forall|p: int| 0 <= p < settled.len() implies (#[trigger] settled[p]).node
                            == head[p].node && settled[p].cost == head[p].cost by {
                            if p != jx as int {
                                assert(settled[p] == head[p]);
                            }
                        }
                        assert forall|p: int, q: int|
                            0 <= p < q < settled.len() implies settled[p].node != settled[q].node by {
                            assert(head[p].node != head[q].node);
                        }
                        assert forall|kk: i32| is_edge_target(*self, kk) implies has_snode(settled, kk) by {
                            let w = choose|w: int| 0 <= w < head.len() && head[w].node == kk;
                            assert(settled[w].node == kk);
                        }
                    }
                    self.relax(&mut es, u, c);
                    proof {
                        lemma_count_flags(es@, settled);
                        lemma_count_settle(head, jx as int, settled[jx as int]);
                        if self.nonneg_weights() {
                            assert forall|i: int|
                                0 <= i < es@.len() implies (#[trigger] es@[i]).cost >= 0 by {
                                if es@[i].cost != settled[i].cost {
                                    let q = choose|q: int|
                                        0 <= q < self.adj_of(u).len() && es@[i].node == (
                                        #[trigger] self.adj_of(u)[q]).node_b_id && es@[i].cost
                                            as int == sat_add_spec(
                                            c as int,
                                            self.adj_of(u)[q].weight as int,
                                        );
                                    assert(self.adj_of(u)[q].weight >= 0);
                                }
                            }
                            assert(has_walk(*self, from, u, c as int));
                            assert forall|i: int|
                                0 <= i < es@.len() && (#[trigger] es@[i]).cost
                                < i32::MAX implies has_walk(
                                *self,
                                from,
                                es@[i].node,
                                es@[i].cost as int,
                            ) by {
                                if es@[i].cost == settled[i].cost {
                                    assert(settled[i].cost == head[i].cost);
                                    assert(es@[i].node == head[i].node);
                                    assert(has_walk(
                                        *self,
                                        from,
                                        head[i].node,
                                        head[i].cost as int,
                                    ));
                                } else {
                                    let q = choose|q: int|
                                        0 <= q < self.adj_of(u).len() && es@[i].node == (
                                        #[trigger] self.adj_of(u)[q]).node_b_id && es@[i].cost
                                            as int == sat_add_spec(
                                            c as int,
                                            self.adj_of(u)[q].weight as int,
                                        );
                                    assert(self.adj_of(u)[q].weight >= 0);
                                    assert(c >= 0);
                                    lemma_walk_extend(*self, from, u, c as int, q);
                                }
                            }
                            assert forall|i: int|
                                0 <= i < es@.len() && (#[trigger] es@[i]).visited implies es@[i].cost == head[i].cost by {
                                if es@[i].cost != settled[i].cost {
                                    let q = choose|q: int|
                                        0 <= q < self.adj_of(u).len() && es@[i].node == (
                                        #[trigger] self.adj_of(u)[q]).node_b_id && es@[i].cost
                                            as int == sat_add_spec(
                                            c as int,
                                            self.adj_of(u)[q].weight as int,
                                        );
                                    assert(self.adj_of(u)[q].weight >= 0);
                                    assert(es@[i].cost as int >= c as int);
                                    if i != jx as int {
                                        assert(head[i].visited);
                                        assert(head[i].cost <= head[jx as int].cost);
                                    }
                                    assert(false);
                                }
                                assert(settled[i].cost == head[i].cost);
                            }
                            assert(settled_below(es@)) by {
                                assert forall|i: int, k: int|
                                    0 <= i < es@.len() && 0 <= k < es@.len() && (
                                    #[trigger] es@[i]).visited && !(
                                    #[trigger] es@[k]).visited implies es@[i].cost
                                    <= es@[k].cost by {
                                    assert(es@[i].cost == head[i].cost);
                                    if i != jx as int {
                                        assert(head[i].visited);
                                        assert(head[i].cost <= head[jx as int].cost);
                                    }
                                    assert(!settled[k].visited && k != jx as int);
                                    assert(!head[k].visited);
                                    if es@[k].cost == settled[k].cost {
                                        assert(head[jx as int].cost <= head[k].cost);
                                    } else {
                                        let q = choose|q: int|
                                            0 <= q < self.adj_of(u).len() && es@[k].node == (
                                            #[trigger] self.adj_of(u)[q]).node_b_id && es@[k].cost
                                                as int == sat_add_spec(
                                                c as int,
                                                self.adj_of(u)[q].weight as int,
                                            );
                                        assert(self.adj_of(u)[q].weight >= 0);
                                    }
                                }
                            }
                            assert(relaxed(*self, es@)) by {
                                assert forall|i: int, j: int, k: int|
                                    0 <= i < es@.len() && es@[i].visited && 0 <= j < self.adj_of(
                                        es@[i].node,
                                    ).len() && 0 <= k < es@.len() && (#[trigger] es@[k]).node == (
                                    #[trigger] self.adj_of(es@[i].node)[j]).node_b_id implies es@[k].cost
                                    as int <= es@[i].cost + self.adj_of(es@[i].node)[j].weight by {
                                    assert(es@[i].cost == head[i].cost);
                                    assert(es@[i].node == head[i].node);
                                    if i == jx as int {
                                        assert(es@[i].node == u);
                                        assert(es@[k].cost as int <= sat_add_spec(
                                            c as int,
                                            self.adj_of(u)[j].weight as int,
                                        ));
                                        assert(self.adj_of(u)[j].weight >= 0);
                                    } else {
                                        assert(head[i].visited);
                                        assert(head[k].node == es@[k].node);
                                        assert(head[k].cost as int <= head[i].cost + self.adj_of(
                                            head[i].node,
                                        )[j].weight);
                                        assert(es@[k].cost <= settled[k].cost);
                                        assert(settled[k].cost == head[k].cost);
                                    }
                                }
                            }
                            assert forall|i: int|
                                0 <= i < es@.len() && (#[trigger] es@[i]).node == from implies es@[i].cost
                                == 0 by {
                                assert(head[i].node == from);
                                assert(head[i].visited);
                                assert(es@[i].visited == settled[i].visited);
                                assert(es@[i].cost == head[i].cost);
                            }
                        }
                        assert(has_snode(es@, from)) by {
                            let w = choose|w: int| 0 <= w < head.len() && head[w].node == from;
                            assert(es@[w].node == from);
                        }
                        assert forall|i: int|
                            0 <= i < es@.len() && (#[trigger] es@[i]).node == from implies es@[i].visited by {
                            assert(head[i].node == es@[i].node);
                            assert(settled[i].visited == es@[i].visited);
                            if i != jx as int {
                                assert(settled[i].visited == head[i].visited);
                            }
                        }
                        assert forall|i: int|
                            0 <= i < es@.len() && (#[trigger] es@[i]).visited implies !to_node_ids@
                            .contains(es@[i].node) by {
                            assert(es@[i].visited == settled[i].visited);
                            assert(es@[i].node == settled[i].node);
                            if i != jx as int {
                                assert(settled[i] == head[i]);
                            }
                        }
                        assert forall|i: int, j: int|
                            0 <= i < es@.len() && 0 <= j < self.adj_of(from).len() && (
                            #[trigger] es@[i]).node == (#[trigger] self.adj_of(
                                from,
                            )[j]).node_b_id implies es@[i].cost <= self.adj_of(from)[j].weight by {
                            assert(es@[i].cost <= settled[i].cost);
                            assert(settled[i].cost == head[i].cost);
                            assert(head[i].node == es@[i].node);
                        }
                    }
                },
            }
        }
    }
}

/// The first entry pointing to `t` sits exactly past the prefix that avoids
/// `t`.
proof fn lemma_first_entry_found(s: Seq<Edge>, t: i32, j: int)
    requires
        0 <= j < s.len(),
        s[j].node_b_id == t,
        forall|k: int| 0 <= k < j ==> s[k].node_b_id != t,
    ensures
        has_entry_to(s, t),
        first_entry_to(s, t) == j,
    decreases s.len(),
{
    if s[0].node_b_id != t {
        lemma_first_entry_found(s.drop_first(), t, j - 1);
    }
}

/// Repairing a direction keeps the shape of the list: its length and where
/// its entries point, so a second repair of the same direction changes
/// nothing more.
proof fn lemma_repaired_shape(s: Seq<Edge>, t: i32, w: i32)
    ensures
        repaired(s, t, w).len() == s.len(),
        forall|k: int| 0 <= k < s.len() ==> repaired(s, t, w)[k].node_b_id == s[k].node_b_id,
        forall|k: int| 0 <= k < s.len() ==> repaired(s, t, w)[k].node_a_id == s[k].node_a_id,
        has_entry_to(repaired(s, t, w), t) == has_entry_to(s, t),
        repaired(repaired(s, t, w), t, w) == repaired(s, t, w),
{
    let r = repaired(s, t, w);
    if has_entry_to(s, t) {
        let i = first_entry_to(s, t);
        lemma_first_entry_in_range(s, t);
        assert forall|k: int| 0 <= k < s.len() implies r[k].node_b_id == s[k].node_b_id
            && r[k].node_a_id == s[k].node_a_id by {}
        assert(r[i].node_b_id == t);
        assert(has_entry_to(r, t));
        lemma_first_entry_same_shape(s, r, t);
        assert(repaired(r, t, w) =~= r);
    } else {
        assert(!has_entry_to(r, t));
    }
}

/// When some entry points to `t`, the first such position is in range and is
/// the least one.
proof fn lemma_first_entry_in_range(s: Seq<Edge>, t: i32)
    requires
        has_entry_to(s, t),
    ensures
        0 <= first_entry_to(s, t) < s.len(),
        s[first_entry_to(s, t)].node_b_id == t,
        forall|k: int| 0 <= k < first_entry_to(s, t) ==> s[k].node_b_id != t,
    decreases s.len(),
{
    if s[0].node_b_id != t {
        assert(has_entry_to(s.drop_first(), t)) by {
            let i = choose|i: int| 0 <= i < s.len() && s[i].node_b_id == t;
            assert(s.drop_first()[i - 1].node_b_id == t);
        }
        lemma_first_entry_in_range(s.drop_first(), t);
        let f = first_entry_to(s, t);
        assert(s[f] == s.drop_first()[f - 1]);
        assert forall|k: int| 0 <= k < f implies s[k].node_b_id != t by {
            if k > 0 {
                assert(s[k] == s.drop_first()[k - 1]);
            }
        }
    }
}

/// Two lists whose entries point the same way have the same first match.
proof fn lemma_first_entry_same_shape(s1: Seq<Edge>, s2: Seq<Edge>, t: i32)
    requires
        s1.len() == s2.len(),
        forall|k: int| 0 <= k < s1.len() ==> s1[k].node_b_id == s2[k].node_b_id,
    ensures
        first_entry_to(s1, t) == first_entry_to(s2, t),
    decreases s1.len(),
{
    if s1.len() > 0 && s1[0].node_b_id != t {
        lemma_first_entry_same_shape(s1.drop_first(), s2.drop_first(), t);
    }
}

/// With unique keys, the lookup of a stored key is that row's list.
proof fn lemma_row_lookup_at(s: Seq<AdjRow>, i: int)
    requires
        rows_unique(s),
        0 <= i < s.len(),
    ensures
        row_lookup(s, s[i].key) == s[i].edges@,
    decreases s.len(),
{
    if i < s.len() - 1 {
        assert(s.last().key != s[i].key);
        assert(s.drop_last()[i] == s[i]);
        lemma_row_lookup_at(s.drop_last(), i);
    }
}

/// A key held by no row looks up to the empty list.
proof fn lemma_row_lookup_absent(s: Seq<AdjRow>, k: i32)
    requires
        forall|i: int| 0 <= i < s.len() ==> s[i].key != k,
    ensures
        row_lookup(s, k) == Seq::<Edge>::empty(),
    decreases s.len(),
{
    if s.len() > 0 {
        lemma_row_lookup_absent(s.drop_last(), k);
    }
}

/// Replacing the row that already holds `x.key` rewrites that key's lookup and
/// no other.
proof fn lemma_row_lookup_update(s: Seq<AdjRow>, i: int, x: AdjRow)
    requires
        rows_unique(s),
        0 <= i < s.len(),
        s[i].key == x.key,
    ensures
        rows_unique(s.update(i, x)),
        row_lookup(s.update(i, x), x.key) == x.edges@,
        forall|q: i32| q != x.key ==> row_lookup(s.update(i, x), q) == row_lookup(s, q),
    decreases s.len(),
{
    let t = s.update(i, x);
    assert(rows_unique(t));
    if i == s.len() - 1 {
        assert(t.last() == x);
        assert(t.drop_last() =~= s.drop_last());
        assert forall|q: i32| q != x.key implies row_lookup(t, q) == row_lookup(s, q) by {
            assert(row_lookup(t, q) == row_lookup(s.drop_last(), q));
            assert(row_lookup(s, q) == row_lookup(s.drop_last(), q));
        }
    } else {
        assert(t.last() == s.last());
        assert(t.drop_last() =~= s.drop_last().update(i, x));
        assert(rows_unique(s.drop_last()));
        lemma_row_lookup_update(s.drop_last(), i, x);
        assert(s.last().key != x.key);
        assert(row_lookup(t, x.key) == row_lookup(s.drop_last().update(i, x), x.key));
        assert forall|q: i32| q != x.key implies row_lookup(t, q) == row_lookup(s, q) by {
            if s.last().key != q {
                assert(row_lookup(t, q) == row_lookup(s.drop_last().update(i, x), q));
                assert(row_lookup(s, q) == row_lookup(s.drop_last(), q));
            }
        }
    }
}

/// Appending a row makes its key resolve to its list and leaves other keys
/// alone.
proof fn lemma_row_lookup_push(s: Seq<AdjRow>, x: AdjRow)
    ensures
        row_lookup(s.push(x), x.key) == x.edges@,
        forall|q: i32| q != x.key ==> row_lookup(s.push(x), q) == row_lookup(s, q),
        (forall|k: int| 0 <= k < s.len() ==> s[k].key != x.key) && rows_unique(s) ==> rows_unique(
            s.push(x),
        ),
{
    assert(s.push(x).last() == x);
    assert(s.push(x).drop_last() =~= s);
}

/// Replacing the entry that already holds `x.id` rewrites that id's lookup and
/// no other.
proof fn lemma_node_lookup_update(s: Seq<Node>, i: int, x: Node)
    requires
        nodes_unique(s),
        0 <= i < s.len(),
        s[i].id == x.id,
    ensures
        nodes_unique(s.update(i, x)),
        node_lookup(s.update(i, x), x.id) == Some(x),
        forall|q: i32| q != x.id ==> node_lookup(s.update(i, x), q) == node_lookup(s, q),
    decreases s.len(),
{
    let t = s.update(i, x);
    assert(nodes_unique(t));
    if i == s.len() - 1 {
        assert(t.last() == x);
        assert(t.drop_last() =~= s.drop_last());
        assert forall|q: i32| q != x.id implies node_lookup(t, q) == node_lookup(s, q) by {
            assert(node_lookup(t, q) == node_lookup(s.drop_last(), q));
            assert(node_lookup(s, q) == node_lookup(s.drop_last(), q));
        }
    } else {
        assert(t.last() == s.last());
        assert(t.drop_last() =~= s.drop_last().update(i, x));
        assert(nodes_unique(s.drop_last()));
        lemma_node_lookup_update(s.drop_last(), i, x);
        assert(s.last().id != x.id);
        assert(node_lookup(t, x.id) == node_lookup(s.drop_last().update(i, x), x.id));
        assert forall|q: i32| q != x.id implies node_lookup(t, q) == node_lookup(s, q) by {
            if s.last().id != q {
                assert(node_lookup(t, q) == node_lookup(s.drop_last().update(i, x), q));
                assert(node_lookup(s, q) == node_lookup(s.drop_last(), q));
            }
        }
    }
}

/// Appending a node makes its id resolve to it and leaves other ids alone.
proof fn lemma_node_lookup_push(s: Seq<Node>, x: Node)
    ensures
        node_lookup(s.push(x), x.id) == Some(x),
        forall|q: i32| q != x.id ==> node_lookup(s.push(x), q) == node_lookup(s, q),
        (forall|k: int| 0 <= k < s.len() ==> s[k].id != x.id) && nodes_unique(s) ==> nodes_unique(
            s.push(x),
        ),
{
    assert(s.push(x).last() == x);
    assert(s.push(x).drop_last() =~= s);
}


/// An update of a pair with no stored direction behaves exactly as adding the
/// edge afresh: one directed entry appears in each direction and nothing else
/// changes.
pub proof fn lemma_update_fresh_pair_adds(pre: Graph, post: Graph, a: i32, b: i32, w: i32)
    requires
        !has_entry_to(pre.adj_of(a), b),
        !has_entry_to(pre.adj_of(b), a),
        update_edge_post(pre, post, a, b, w),
    ensures
        add_edge_post(pre, post, a, b, w),
{
}

/// Updating a pair that was just added rewrites the stored pair in place: both
/// adjacency lists keep their lengths - no parallel duplicate appears - and
/// the outcome is as if the pair had been added with the new weight.
pub proof fn lemma_update_after_add(
    g0: Graph,
    g1: Graph,
    g2: Graph,
    a: i32,
    b: i32,
    w1: i32,
    w2: i32,
)
    requires
        a != b,
        !has_entry_to(g0.adj_of(a), b),
        !has_entry_to(g0.adj_of(b), a),
        add_edge_post(g0, g1, a, b, w1),
        update_edge_post(g1, g2, a, b, w2),
    ensures
        g2.adj_of(a).len() == g1.adj_of(a).len(),
        g2.adj_of(b).len() == g1.adj_of(b).len(),
        g2.adj_of(a) == g0.adj_of(a).push(edge(a, b, w2)),
        g2.adj_of(b) == g0.adj_of(b).push(edge(b, a, w2)),
        forall|k: i32| k != a && k != b ==> g2.adj_of(k) == g0.adj_of(k),
        forall|k: i32| g2.node_of(k) == g0.node_of(k),
{
    lemma_fresh_push_repair(g0.adj_of(a), a, b, w1, w2);
    lemma_fresh_push_repair(g0.adj_of(b), b, a, w1, w2);
    assert(g2.adj_of(a) == repaired(g1.adj_of(a), b, w2));
    assert(g2.adj_of(b) == repaired(g1.adj_of(b), a, w2));
}

/// Repairing the direction that a push just created rewrites exactly the
/// pushed entry.
proof fn lemma_fresh_push_repair(s: Seq<Edge>, x: i32, t: i32, w1: i32, w2: i32)
    requires
        !has_entry_to(s, t),
    ensures
        has_entry_to(s.push(edge(x, t, w1)), t),
        repaired(s.push(edge(x, t, w1)), t, w2) == s.push(edge(x, t, w2)),
{
    let s1 = s.push(edge(x, t, w1));
    assert(s1[s.len() as int].node_b_id == t);
    assert forall|k: int| 0 <= k < s.len() implies s1[k].node_b_id != t by {
        assert(s1[k] == s[k]);
    }
    lemma_first_entry_found(s1, t, s.len() as int);
    assert(repaired(s1, t, w2) =~= s.push(edge(x, t, w2)));
}


/// Adding an edge only grows the adjacency lists, so every walk of the old
/// graph, with its cost, survives in the new one; with the search contracts
/// this means an `add_edge` never lengthens any shortest path.
pub proof fn lemma_add_edge_keeps_walks(
    pre: Graph,
    post: Graph,
    a: i32,
    b: i32,
    w: i32,
    from: i32,
    to: i32,
    c: int,
)
    requires
        add_edge_post(pre, post, a, b, w),
        has_walk(pre, from, to, c),
    ensures
        has_walk(post, from, to, c),
{
    let ws = choose|ws: Seq<Edge>|
        is_walk(pre, from, ws) && walk_end(from, ws) == to && #[trigger] walk_cost(ws) == c;
    assert forall|i: int|
        0 <= i < ws.len() implies post.adj_of((#[trigger] ws[i]).node_a_id).contains(ws[i]) && ws[i].node_a_id == if i == 0 {
        from
    } else {
        ws[i - 1].node_b_id
    } by {
        let k = ws[i].node_a_id;
        let j = choose|j: int| 0 <= j < pre.adj_of(k).len() && pre.adj_of(k)[j] == ws[i];
        if k == a || k == b {
            assert(post.adj_of(k)[j] == ws[i]);
        } else {
            assert(post.adj_of(k) == pre.adj_of(k));
        }
    }
    assert(is_walk(post, from, ws) && walk_end(from, ws) == to && walk_cost(ws) == c);
}

} // verus!
