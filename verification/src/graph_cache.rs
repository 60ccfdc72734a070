//! A region-keyed cache of graphs.
//!
//! The cache owns one graph per region under an explicit ownership model:
//! lookups borrow a region's graph shared, and every mutation of a cached
//! graph goes through the cache exclusively, so readers of a region are never
//! concurrent with its mutation. Entries are created on first store and never
//! evicted.

use crate::graph::Graph;
use crate::graph::update_edge_post;
use vstd::prelude::*;

verus! {

/// One cached region: the graph owned for `area_id`.
struct CacheRow {
    area_id: i32,
    graph: Graph,
}

/// A map from region id to the graph the cache owns for it.
pub struct GraphCache {
    entries: Vec<CacheRow>,
}

spec fn cache_unique(s: Seq<CacheRow>) -> bool {
    forall|i: int, j: int| 0 <= i < j < s.len() ==> s[i].area_id != s[j].area_id
}

spec fn cache_lookup(s: Seq<CacheRow>, area_id: i32) -> Option<Graph>
    decreases s.len(),
{
    if s.len() == 0 {
        None
    } else if s.last().area_id == area_id {
        Some(s.last().graph)
    } else {
        cache_lookup(s.drop_last(), area_id)
    }
}

/// What `update_edge(area_id, a, b, w)` does to the cache: a miss leaves it
/// untouched, and a hit replaces the region's graph with the result of an
/// `update_edge` of that graph alone.
pub open spec fn cache_update_post(
    pre: GraphCache,
    post: GraphCache,
    area_id: i32,
    a: i32,
    b: i32,
    w: i32,
) -> bool {
    &&& post.wf()
    &&& match pre.graph_of(area_id) {
        None => post == pre,
        Some(g) => match post.graph_of(area_id) {
            Some(g2) => update_edge_post(g, g2, a, b, w),
            None => false,
        },
    }
    &&& forall|k: i32| k != area_id ==> post.graph_of(k) == pre.graph_of(k)
}

impl GraphCache {
    /// Region ids are unique and every owned graph is well formed.
    pub closed spec fn wf(self) -> bool {
        &&& cache_unique(self.entries@)
        &&& forall|i: int| 0 <= i < self.entries@.len() ==> (#[trigger] self.entries@[i]).graph.wf()
    }

    /// The graph owned for `area_id`, if the region has been stored.
    pub closed spec fn graph_of(self, area_id: i32) -> Option<Graph> {
        cache_lookup(self.entries@, area_id)
    }

    /// A cache is born empty.
    pub fn new() -> (c: GraphCache)
        ensures
            c.wf(),
            forall|k: i32| c.graph_of(k) == None::<Graph>,
    {
        GraphCache { entries: Vec::new() }
    }

    /// Borrows the graph cached for the region, if any; the lookup alone is
    /// the read-side critical section.
    pub fn get_graph(&self, area_id: i32) -> (r: Option<&Graph>)
        requires
            self.wf(),
        ensures
            match r {
                Some(g) => self.graph_of(area_id) == Some(*g) && g.wf(),
                None => self.graph_of(area_id) == None::<Graph>,
            },
    {
        let n = self.entries.len();
        let mut i: usize = 0;
        while i < n
            invariant
                self.wf(),
                n == self.entries@.len(),
                i <= n,
                forall|k: int| 0 <= k < i ==> self.entries@[k].area_id != area_id,
            decreases n - i,
        {
            if self.entries[i].area_id == area_id {
                proof {
                    lemma_cache_lookup_at(self.entries@, i as int);
                }
                return Some(&self.entries[i].graph);
            }
            i = i + 1;
        }
        proof {
            lemma_cache_lookup_absent(self.entries@, area_id);
        }
        None
    }

    /// Stores a freshly built graph under the region key, overwriting any
    /// prior entry for that key unconditionally.
    pub fn store_graph(&mut self, area_id: i32, graph: Graph)
        requires
            old(self).wf(),
            graph.wf(),
        ensures
            final(self).wf(),
            final(self).graph_of(area_id) == Some(graph),
            forall|k: i32| k != area_id ==> final(self).graph_of(k) == old(self).graph_of(k),
    {
        let n = self.entries.len();
        let mut i: usize = 0;
        while i < n
            invariant
                old(self).wf(),
                graph.wf(),
                n == self.entries@.len(),
                i <= n,
                *self == *old(self),
                forall|k: int| 0 <= k < i ==> self.entries@[k].area_id != area_id,
            decreases n - i,
        {
            if self.entries[i].area_id == area_id {
                self.entries[i] = CacheRow { area_id, graph };
                proof {
                    lemma_cache_lookup_update(
                        old(self).entries@,
                        i as int,
                        self.entries@[i as int],
                    );
                }
                return ;
            }
            i = i + 1;
        }
        self.entries.push(CacheRow { area_id, graph });
        proof {
            lemma_cache_lookup_push(old(self).entries@, self.entries@.last());
        }
    }

    /// Applies an edge update to the region's cached graph, exclusively to
    /// that graph; an uncached region is a silent no-op, since the update is
    /// already durable upstream and is picked up on the next cold load.
    pub fn update_edge(&mut self, area_id: i32, node_a_id: i32, node_b_id: i32, weight: i32)
        requires
            old(self).wf(),
        ensures
            cache_update_post(*old(self), *final(self), area_id, node_a_id, node_b_id, weight),
    {
        let n = self.entries.len();
        let mut i: usize = 0;
        while i < n
            invariant
                old(self).wf(),
                n == self.entries@.len(),
                i <= n,
                *self == *old(self),
                forall|k: int| 0 <= k < i ==> self.entries@[k].area_id != area_id,
            decreases n - i,
        {
            if self.entries[i].area_id == area_id {
                proof {
                    lemma_cache_lookup_at(old(self).entries@, i as int);
                }
                let row = &mut self.entries[i];
                row.graph.update_edge(node_a_id, node_b_id, weight);
                proof {
                    let r = self.entries@[i as int];
                    assert(r.area_id == area_id);
                    assert(self.entries@ == old(self).entries@.update(i as int, r));
                    lemma_cache_lookup_update(old(self).entries@, i as int, r);
                }
                return ;
            }
            i = i + 1;
        }
        proof {
            lemma_cache_lookup_absent(self.entries@, area_id);
        }
    }
}

/// With unique region ids, the lookup of a stored region is that row's graph.
proof fn lemma_cache_lookup_at(s: Seq<CacheRow>, i: int)
    requires
        cache_unique(s),
        0 <= i < s.len(),
    ensures
        cache_lookup(s, s[i].area_id) == Some(s[i].graph),
    decreases s.len(),
{
    if i < s.len() - 1 {
        assert(s.last().area_id != s[i].area_id);
        assert(s.drop_last()[i] == s[i]);
        lemma_cache_lookup_at(s.drop_last(), i);
    }
}

/// A region held by no row looks up to nothing.
proof fn lemma_cache_lookup_absent(s: Seq<CacheRow>, area_id: i32)
    requires
        forall|i: int| 0 <= i < s.len() ==> s[i].area_id != area_id,
    ensures
        cache_lookup(s, area_id) == None::<Graph>,
    decreases s.len(),
{
    if s.len() > 0 {
        lemma_cache_lookup_absent(s.drop_last(), area_id);
    }
}

/// Replacing the row that already holds `x.area_id` rewrites that region's
/// lookup and no other.
proof fn lemma_cache_lookup_update(s: Seq<CacheRow>, i: int, x: CacheRow)
    requires
        cache_unique(s),
        0 <= i < s.len(),
        s[i].area_id == x.area_id,
    ensures
        cache_unique(s.update(i, x)),
        cache_lookup(s.update(i, x), x.area_id) == Some(x.graph),
        forall|q: i32| q != x.area_id ==> cache_lookup(s.update(i, x), q) == cache_lookup(s, q),
    decreases s.len(),
{
    let t = s.update(i, x);
    assert(cache_unique(t));
    if i == s.len() - 1 {
        assert(t.last() == x);
        assert(t.drop_last() =~= s.drop_last());
        assert forall|q: i32| q != x.area_id implies cache_lookup(t, q) == cache_lookup(s, q) by {
            assert(cache_lookup(t, q) == cache_lookup(s.drop_last(), q));
            assert(cache_lookup(s, q) == cache_lookup(s.drop_last(), q));
        }
    } else {
        assert(t.last() == s.last());
        assert(t.drop_last() =~= s.drop_last().update(i, x));
        assert(cache_unique(s.drop_last()));
        lemma_cache_lookup_update(s.drop_last(), i, x);
        assert(s.last().area_id != x.area_id);
        assert(cache_lookup(t, x.area_id) == cache_lookup(s.drop_last().update(i, x), x.area_id));
        assert forall|q: i32| q != x.area_id implies cache_lookup(t, q) == cache_lookup(s, q) by {
            if s.last().area_id != q {
                assert(cache_lookup(t, q) == cache_lookup(s.drop_last().update(i, x), q));
                assert(cache_lookup(s, q) == cache_lookup(s.drop_last(), q));
            }
        }
    }
}

/// Appending a row makes its region resolve to its graph and leaves other
/// regions alone.
proof fn lemma_cache_lookup_push(s: Seq<CacheRow>, x: CacheRow)
    ensures
        cache_lookup(s.push(x), x.area_id) == Some(x.graph),
        forall|q: i32| q != x.area_id ==> cache_lookup(s.push(x), q) == cache_lookup(s, q),
        (forall|k: int| 0 <= k < s.len() ==> s[k].area_id != x.area_id) && cache_unique(s)
            ==> cache_unique(s.push(x)),
{
    assert(s.push(x).last() == x);
    assert(s.push(x).drop_last() =~= s);
}

/// The cache keeps one logical graph per region: after `store_graph(area, g)`
/// the region resolves to `g` itself, and an edge update applied through the
/// cache acts on exactly that graph, so the change is visible to every later
/// lookup of the region.
pub proof fn lemma_cache_coherence(
    c1: GraphCache,
    c2: GraphCache,
    area_id: i32,
    g: Graph,
    a: i32,
    b: i32,
    w: i32,
)
    requires
        c1.graph_of(area_id) == Some(g),
        cache_update_post(c1, c2, area_id, a, b, w),
    ensures
        match c2.graph_of(area_id) {
            Some(g2) => update_edge_post(g, g2, a, b, w),
            None => false,
        },
{
}

} // verus!
