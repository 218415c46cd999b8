//! Multi-layer proximity graph for approximate nearest-neighbor search.
//!
//! Nodes live in a flat table addressed by dense index; neighbor lists
//! hold table indices, never references. Each node takes part in layers
//! `0..=top`, where `top` is drawn once at insertion from a geometric
//! distribution, so higher layers are exponentially sparser. Searches
//! descend greedily from the entry point through the sparse layers, then
//! run a bounded beam search at the target layer.

use vstd::prelude::*;
use crate::math::{dot, coords_bounded, compute_dot_product, lemma_dot_bound, DIM_LIMIT, SIM_LIMIT};

verus! {

/// Highest layer a node may be assigned.
pub const MAX_LEVEL: usize = 63;

/// Ceiling on the degree bound `m`, so `2 * m` and the pruning
/// arithmetic stay far from `usize` overflow.
pub const M_LIMIT: usize = 0x1000_0000;

/// Whether a configuration is accepted by `Graph::init`: dimension,
/// capacity and degree bound in range (the beam widths are clamped up to
/// one instead of rejected).
pub open spec fn spec_config_ok(config: HnswConfig) -> bool {
    &&& 1 <= config.dim <= DIM_LIMIT
    &&& config.max_elements >= 1
    &&& 1 <= config.m <= M_LIMIT
}

/// Construction-time parameters of one index instance.
pub struct HnswConfig {
    /// Vector dimension shared by every vector in the index.
    pub dim: usize,
    /// Capacity: the largest node count the index accepts.
    pub max_elements: usize,
    /// Degree bound per node per layer (twice that at layer 0).
    pub m: usize,
    /// Beam width explored while inserting.
    pub ef_construction: usize,
    /// Beam width explored while searching.
    pub ef_search: usize,
}

impl Default for HnswConfig {
    /// The defaults the service runs with.
    fn default() -> (r: HnswConfig)
        ensures
            r.dim == 64,
            r.max_elements == 10000,
            r.m == 16,
            r.ef_construction == 200,
            r.ef_search == 50,
    {
        HnswConfig { dim: 64, max_elements: 10000, m: 16, ef_construction: 200, ef_search: 50 }
    }
}

/// Why an index operation was rejected. Rejections never change the index.
#[derive(Clone, Copy, PartialEq, Eq, Structural, Debug)]
pub enum IndexError {
    /// Dimension, capacity or degree bound outside the accepted range.
    InvalidConfig,
    /// The vector's length differs from the index dimension.
    DimensionMismatch,
    /// The id is already present; the existing node is kept.
    DuplicateId,
    /// The index already holds `max_elements` nodes.
    CapacityExceeded,
}

/// One indexed item: its external id, its vector, and one neighbor list
/// per layer it takes part in (entry `l` is the list at layer `l`).
#[derive(Debug)]
pub struct Node {
    pub id: u64,
    pub vector: Vec<i64>,
    pub layers: Vec<Vec<usize>>,
}

/// The proximity graph.
#[derive(Debug)]
pub struct Graph {
    pub nodes: Vec<Node>,
    /// Index of the entry point; meaningful only when `nodes` is nonempty.
    pub entry: usize,
    /// Layer count of the entry point minus one.
    pub max_layer: usize,
    pub dim: usize,
    pub max_elements: usize,
    pub m: usize,
    pub ef_construction: usize,
    pub ef_search: usize,
    /// State of the deterministic, seedable layer-draw generator.
    pub rng: u64,
}

impl Graph {
    /// Number of nodes currently held.
    pub open spec fn node_count(&self) -> nat {
        self.nodes@.len()
    }

    /// Whether some node carries the id.
    pub open spec fn has_id(&self, id: u64) -> bool {
        exists|i: int| 0 <= i < self.nodes@.len() && (#[trigger] self.nodes@[i]).id == id
    }

    /// Largest neighbor-list length allowed at layer `l`.
    pub open spec fn degree_cap(&self, l: int) -> int {
        if l == 0 {
            2 * self.m as int
        } else {
            self.m as int
        }
    }

    /// The configuration is in the accepted range.
    pub open spec fn config_wf(&self) -> bool {
        &&& 1 <= self.dim <= DIM_LIMIT
        &&& 1 <= self.max_elements
        &&& 1 <= self.m <= M_LIMIT
        &&& 1 <= self.ef_construction
        &&& 1 <= self.ef_search
    }

    /// The neighbor list of node `i` at layer `l` is within the degree
    /// cap, and every edge points at a distinct valid node that itself
    /// takes part in layer `l`.
    pub open spec fn list_wf(&self, i: int, l: int) -> bool {
        let lst = self.nodes@[i].layers@[l];
        &&& lst.len() <= self.degree_cap(l)
        &&& forall|e: int| 0 <= e < lst.len() ==> {
            let nb = #[trigger] lst[e] as int;
            &&& nb < self.nodes@.len()
            &&& nb != i
            &&& l < self.nodes@[nb].layers@.len()
        }
    }

    /// Node `i` is well formed: right dimension, bounded components, at
    /// least one layer, no layer above the graph maximum, and every
    /// neighbor list well formed.
    pub open spec fn node_wf(&self, i: int) -> bool {
        let n = self.nodes@[i];
        &&& n.vector@.len() == self.dim
        &&& coords_bounded(n.vector@)
        &&& 1 <= n.layers@.len() <= self.max_layer + 1
        &&& forall|l: int| 0 <= l < n.layers@.len() ==> self.list_wf(i, l)
    }

    /// No two nodes share an id.
    pub open spec fn ids_unique(&self) -> bool {
        forall|i: int, j: int|
            0 <= i < j < self.nodes@.len() ==> (#[trigger] self.nodes@[i]).id != (
            #[trigger] self.nodes@[j]).id
    }

    /// The graph invariant: configuration in range, capacity respected,
    /// ids unique, every node well formed, and the entry point a node at
    /// the maximum layer (or the graph empty with maximum layer zero).
    pub open spec fn wf(&self) -> bool {
        &&& self.config_wf()
        &&& self.nodes@.len() <= self.max_elements
        &&& self.max_layer <= MAX_LEVEL
        &&& self.ids_unique()
        &&& forall|i: int| 0 <= i < self.nodes@.len() ==> self.node_wf(i)
        &&& self.nodes@.len() > 0 ==> self.entry < self.nodes@.len()
            && self.nodes@[self.entry as int].layers@.len() == self.max_layer + 1
        &&& self.nodes@.len() == 0 ==> self.entry == 0 && self.max_layer == 0
    }

    /// Node `i` and node `j` keep the same identity and vector (only
    /// neighbor lists may differ) between `a` and `b`, for every node.
    pub open spec fn same_membership(a: Graph, b: Graph) -> bool {
        &&& b.nodes@.len() == a.nodes@.len()
        &&& forall|i: int| 0 <= i < a.nodes@.len() ==> (#[trigger] b.nodes@[i]).id
            == a.nodes@[i].id && b.nodes@[i].vector@ == a.nodes@[i].vector@
    }

    /// Create an empty graph sized for `max_elements` nodes. Rejected
    /// exactly when dimension, capacity or degree bound is out of range.
    pub fn init(config: &HnswConfig) -> (r: Result<Graph, IndexError>)
        ensures
            r is Ok <==> spec_config_ok(*config),
            match r {
                Ok(g) => {
                    &&& g.wf()
                    &&& g.node_count() == 0
                    &&& g.dim == config.dim
                    &&& g.max_elements == config.max_elements
                    &&& g.m == config.m
                    &&& g.ef_construction == if config.ef_construction >= 1 {
                        config.ef_construction as int
                    } else {
                        1int
                    }
                    &&& g.ef_search == if config.ef_search >= 1 {
                        config.ef_search as int
                    } else {
                        1int
                    }
                },
                Err(e) => e == IndexError::InvalidConfig,
            },
    {
        if config.dim < 1 || config.dim > DIM_LIMIT || config.max_elements < 1 || config.m < 1
            || config.m > M_LIMIT {
            return Err(IndexError::InvalidConfig);
        }
        let ef_construction = if config.ef_construction < 1 {
            1
        } else {
            config.ef_construction
        };
        let ef_search = if config.ef_search < 1 {
            1
        } else {
            config.ef_search
        };
        Ok(Graph {
            nodes: Vec::new(),
            entry: 0,
            max_layer: 0,
            dim: config.dim,
            max_elements: config.max_elements,
            m: config.m,
            ef_construction,
            ef_search,
            rng: 0x5851_f42d_4c95_7f2d,
        })
    }

    /// Current node count.
    pub fn count(&self) -> (r: usize)
        ensures
            r == self.node_count(),
    {
        self.nodes.len()
    }

    /// Set the beam width used by subsequent searches.
    pub fn set_search_width(&mut self, ef_search: usize)
        requires
            old(self).wf(),
        ensures
            final(self).wf(),
            final(self).ef_search == if ef_search >= 1 { ef_search as int } else { 1int },
            final(self).nodes@ == old(self).nodes@,
            final(self).entry == old(self).entry,
            final(self).max_layer == old(self).max_layer,
            final(self).dim == old(self).dim,
            final(self).max_elements == old(self).max_elements,
            final(self).m == old(self).m,
            final(self).ef_construction == old(self).ef_construction,
    {
        self.ef_search = if ef_search < 1 {
            1
        } else {
            ef_search
        };
        proof {
            self.lemma_wf_from(*old(self));
        }
    }

    /// Reseed the layer-draw generator, so small builds are reproducible.
    pub fn set_seed(&mut self, seed: u64)
        requires
            old(self).wf(),
        ensures
            final(self).wf(),
            final(self).rng == seed,
            final(self).nodes@ == old(self).nodes@,
            final(self).entry == old(self).entry,
            final(self).max_layer == old(self).max_layer,
            final(self).dim == old(self).dim,
            final(self).max_elements == old(self).max_elements,
            final(self).m == old(self).m,
            final(self).ef_construction == old(self).ef_construction,
            final(self).ef_search == old(self).ef_search,
    {
        self.rng = seed;
        proof {
            self.lemma_wf_from(*old(self));
        }
    }

    /// Well-formedness carries over to a graph that differs only in its
    /// beam widths or generator state.
    proof fn lemma_wf_from(&self, o: Graph)
        requires
            o.wf(),
            self.nodes@ == o.nodes@,
            self.entry == o.entry,
            self.max_layer == o.max_layer,
            self.dim == o.dim,
            self.max_elements == o.max_elements,
            self.m == o.m,
            self.ef_construction >= 1,
            self.ef_search >= 1,
        ensures
            self.wf(),
    {
        assert forall|i: int| 0 <= i < self.nodes@.len() implies self.node_wf(i) by {
            assert(o.node_wf(i));
            assert forall|l: int|
                0 <= l < self.nodes@[i].layers@.len() implies self.list_wf(i, l) by {
                assert(o.list_wf(i, l));
            }
        }
    }

    /// Release every node; the graph is empty afterwards.
    pub fn destroy(&mut self)
        requires
            old(self).wf(),
        ensures
            final(self).wf(),
            final(self).node_count() == 0,
            final(self).dim == old(self).dim,
            final(self).max_elements == old(self).max_elements,
            final(self).m == old(self).m,
    {
        self.nodes.clear();
        self.max_layer = 0;
        self.entry = 0;
    }

    /// Exact similarity (inner product) between node `i` and `q`.
    fn sim_to(&self, i: usize, q: &Vec<i64>) -> (s: i128)
        requires
            self.wf(),
            i < self.nodes@.len(),
            q@.len() == self.dim,
            coords_bounded(q@),
        ensures
            s == dot(self.nodes@[i as int].vector@, q@),
    {
        assert(self.node_wf(i as int));
        let r = compute_dot_product(&self.nodes[i].vector, q);
        match r {
            Some(s) => s,
            None => {
                // unreachable: both vectors have the index dimension
                proof {
                    assert(false);
                }
                0
            },
        }
    }

    /// A search candidate is valid for query `q` at layer `l`: a real
    /// node that takes part in the layer, paired with its exact
    /// similarity to the query.
    pub open spec fn cand_ok(&self, q: Seq<i64>, l: int, c: (usize, i128)) -> bool {
        &&& (c.0 as int) < self.nodes@.len()
        &&& l < self.nodes@[c.0 as int].layers@.len()
        &&& c.1 == dot(self.nodes@[c.0 as int].vector@, q)
    }

    /// Position of a candidate with the greatest similarity.
    fn argmax(v: &Vec<(usize, i128)>) -> (p: usize)
        requires
            v@.len() > 0,
        ensures
            p < v@.len(),
            forall|j: int| 0 <= j < v@.len() ==> (#[trigger] v@[j]).1 <= v@[p as int].1,
    {
        let mut p: usize = 0;
        let mut i: usize = 1;
        while i < v.len()
            invariant
                0 < i <= v@.len(),
                p < i,
                forall|j: int| 0 <= j < i ==> (#[trigger] v@[j]).1 <= v@[p as int].1,
            decreases v@.len() - i,
        {
            if v[i].1 > v[p].1 {
                p = i;
            }
            i = i + 1;
        }
        p
    }

    /// Position of a candidate with the least similarity.
    fn argmin(v: &Vec<(usize, i128)>) -> (p: usize)
        requires
            v@.len() > 0,
        ensures
            p < v@.len(),
            forall|j: int| 0 <= j < v@.len() ==> (#[trigger] v@[j]).1 >= v@[p as int].1,
    {
        let mut p: usize = 0;
        let mut i: usize = 1;
        while i < v.len()
            invariant
                0 < i <= v@.len(),
                p < i,
                forall|j: int| 0 <= j < i ==> (#[trigger] v@[j]).1 >= v@[p as int].1,
            decreases v@.len() - i,
        {
            if v[i].1 < v[p].1 {
                p = i;
            }
            i = i + 1;
        }
        p
    }

    /// Greedy single-path descent at layer `l`: repeatedly move to the
    /// closest known neighbor until no neighbor improves on the current
    /// node. Used to find a good entry into the next layer down.
    fn greedy_descend(&self, q: &Vec<i64>, start: usize, l: usize) -> (r: usize)
        requires
            self.wf(),
            start < self.nodes@.len(),
            l < self.nodes@[start as int].layers@.len(),
            q@.len() == self.dim,
            coords_bounded(q@),
        ensures
            (r as int) < self.nodes@.len(),
            l < self.nodes@[r as int].layers@.len(),
    {
        let mut cur = start;
        let mut cur_sim = self.sim_to(cur, q);
        let mut fuel = self.nodes.len();
        while fuel > 0
            invariant
                self.wf(),
                q@.len() == self.dim,
                coords_bounded(q@),
                (cur as int) < self.nodes@.len(),
                l < self.nodes@[cur as int].layers@.len(),
                cur_sim == dot(self.nodes@[cur as int].vector@, q@),
            decreases fuel,
        {
            fuel = fuel - 1;
            let mut best_i = cur;
            let mut best_s = cur_sim;
            let deg = self.nodes[cur].layers[l].len();
            let mut e: usize = 0;
            proof {
                assert(self.node_wf(cur as int));
                assert(self.list_wf(cur as int, l as int));
            }
            while e < deg
                invariant
                    self.wf(),
                    q@.len() == self.dim,
                    coords_bounded(q@),
                    (cur as int) < self.nodes@.len(),
                    l < self.nodes@[cur as int].layers@.len(),
                    deg == self.nodes@[cur as int].layers@[l as int].len(),
                    self.list_wf(cur as int, l as int),
                    e <= deg,
                    (best_i as int) < self.nodes@.len(),
                    l < self.nodes@[best_i as int].layers@.len(),
                    best_s == dot(self.nodes@[best_i as int].vector@, q@),
                decreases deg - e,
            {
                let nb = self.nodes[cur].layers[l][e];
                let s = self.sim_to(nb, q);
                if s > best_s {
                    best_s = s;
                    best_i = nb;
                }
                e = e + 1;
            }
            if best_s <= cur_sim {
                return cur;
            }
            cur = best_i;
            cur_sim = best_s;
        }
        cur
    }

    /// Beam search at layer `l` with frontier width `ef`, starting from
    /// `start`. Returns between one and `ef` distinct valid candidates of
    /// the layer with their exact similarities.
    fn search_layer(&self, q: &Vec<i64>, start: usize, l: usize, ef: usize) -> (best: Vec<
        (usize, i128),
    >)
        requires
            self.wf(),
            start < self.nodes@.len(),
            l < self.nodes@[start as int].layers@.len(),
            ef >= 1,
            q@.len() == self.dim,
            coords_bounded(q@),
        ensures
            1 <= best@.len() <= ef,
            forall|c: int| 0 <= c < best@.len() ==> self.cand_ok(q@, l as int, #[trigger] best@[c]),
            forall|a: int, b: int|
                0 <= a < b < best@.len() ==> (#[trigger] best@[a]).0 != (#[trigger] best@[b]).0,
    {
        let n = self.nodes.len();
        let mut visited: Vec<bool> = Vec::new();
        let mut vi: usize = 0;
        while vi < n
            invariant
                vi <= n,
                visited@.len() == vi,
            decreases n - vi,
        {
            visited.push(false);
            vi = vi + 1;
        }
        visited.set(start, true);
        let s0 = self.sim_to(start, q);
        let mut best: Vec<(usize, i128)> = Vec::new();
        best.push((start, s0));
        let mut frontier: Vec<(usize, i128)> = Vec::new();
        frontier.push((start, s0));
        let mut fuel = n;
        let mut done = false;
        while !done && frontier.len() > 0 && fuel > 0
            invariant
                self.wf(),
                q@.len() == self.dim,
                coords_bounded(q@),
                visited@.len() == self.nodes@.len(),
                1 <= best@.len() <= ef,
                forall|c: int|
                    0 <= c < best@.len() ==> self.cand_ok(q@, l as int, #[trigger] best@[c]),
                forall|c: int| 0 <= c < best@.len() ==> visited@[(#[trigger] best@[c]).0 as int],
                forall|a: int, b: int|
                    0 <= a < b < best@.len() ==> (#[trigger] best@[a]).0 != (
                    #[trigger] best@[b]).0,
                forall|c: int|
                    0 <= c < frontier@.len() ==> self.cand_ok(
                        q@,
                        l as int,
                        #[trigger] frontier@[c],
                    ),
            decreases fuel,
        {
            fuel = fuel - 1;
            let cp = Self::argmax(&frontier);
            let (ci, csim) = frontier[cp];
            frontier = {
                let mut f = frontier;
                f.swap_remove(cp);
                f
            };
            let wp = Self::argmin(&best);
            let worst = best[wp].1;
            if best.len() >= ef && csim < worst {
                done = true;
            } else {
                proof {
                    assert(self.node_wf(ci as int));
                    assert(self.list_wf(ci as int, l as int));
                }
                let deg = self.nodes[ci].layers[l].len();
                let mut e: usize = 0;
                while e < deg
                    invariant
                        self.wf(),
                        q@.len() == self.dim,
                        coords_bounded(q@),
                        (ci as int) < self.nodes@.len(),
                        l < self.nodes@[ci as int].layers@.len(),
                        deg == self.nodes@[ci as int].layers@[l as int].len(),
                        self.list_wf(ci as int, l as int),
                        e <= deg,
                        visited@.len() == self.nodes@.len(),
                        1 <= best@.len() <= ef,
                        forall|c: int|
                            0 <= c < best@.len() ==> self.cand_ok(
                                q@,
                                l as int,
                                #[trigger] best@[c],
                            ),
                        forall|c: int|
                            0 <= c < best@.len() ==> visited@[(#[trigger] best@[c]).0 as int],
                        forall|a: int, b: int|
                            0 <= a < b < best@.len() ==> (#[trigger] best@[a]).0 != (
                            #[trigger] best@[b]).0,
                        forall|c: int|
                            0 <= c < frontier@.len() ==> self.cand_ok(
                                q@,
                                l as int,
                                #[trigger] frontier@[c],
                            ),
                    decreases deg - e,
                {
                    let nb = self.nodes[ci].layers[l][e];
                    if !visited[nb] {
                        visited.set(nb, true);
                        let s = self.sim_to(nb, q);
                        if best.len() < ef {
                            best.push((nb, s));
                            frontier.push((nb, s));
                        } else {
                            let rp = Self::argmin(&best);
                            if s > best[rp].1 {
                                best.swap_remove(rp);
                                best.push((nb, s));
                                frontier.push((nb, s));
                            }
                        }
                    }
                    e = e + 1;
                }
            }
        }
        best
    }

    /// A returned pair names a node of the graph and carries its exact
    /// similarity to the query.
    pub open spec fn result_entry_ok(&self, q: Seq<i64>, p: (u64, i128)) -> bool {
        exists|i: int|
            0 <= i < self.nodes@.len() && (#[trigger] self.nodes@[i]).id == p.0 && p.1 == dot(
                self.nodes@[i].vector@,
                q,
            )
    }

    /// A sequence of distinct node indices cannot be longer than the
    /// node table itself.
    proof fn lemma_distinct_indices_bound(&self, pool: Seq<(usize, i128)>)
        requires
            forall|c: int| 0 <= c < pool.len() ==> (#[trigger] pool[c]).0 < self.nodes@.len(),
            forall|a: int, b: int|
                0 <= a < b < pool.len() ==> (#[trigger] pool[a]).0 != (#[trigger] pool[b]).0,
        ensures
            pool.len() <= self.nodes@.len(),
    {
        let idxs = Seq::new(pool.len(), |c: int| pool[c].0 as int);
        assert(idxs.no_duplicates());
        idxs.unique_seq_to_set();
        let range = vstd::set_lib::set_int_range(0, self.nodes@.len() as int);
        vstd::set_lib::lemma_int_range(0, self.nodes@.len() as int);
        assert(idxs.to_set().subset_of(range)) by {
            assert forall|x: int| idxs.to_set().contains(x) implies range.contains(x) by {
                let c = choose|c: int| 0 <= c < idxs.len() && idxs[c] == x;
                assert(pool[c].0 < self.nodes@.len());
            }
        }
        vstd::set_lib::lemma_len_subset(idxs.to_set(), range);
    }

    /// Select the `k` most similar candidates of `pool`, most similar
    /// first, reporting each node's id.
    fn take_top_k(&self, pool: Vec<(usize, i128)>, k: usize, Ghost(gq): Ghost<Seq<i64>>) -> (r:
        Vec<(u64, i128)>)
        requires
            self.wf(),
            forall|c: int| 0 <= c < pool@.len() ==> (#[trigger] pool@[c]).0 < self.nodes@.len(),
            forall|a: int, b: int|
                0 <= a < b < pool@.len() ==> (#[trigger] pool@[a]).0 != (#[trigger] pool@[b]).0,
            forall|j: int|
                0 <= j < pool@.len() ==> (#[trigger] pool@[j]).1 == dot(
                    self.nodes@[pool@[j].0 as int].vector@,
                    gq,
                ),
        ensures
            r@.len() == if k <= pool@.len() {
                k as int
            } else {
                pool@.len() as int
            },
            forall|a: int, b: int| 0 <= a < b < r@.len() ==> (#[trigger] r@[a]).1 >= (
                #[trigger] r@[b]).1,
            forall|a: int, b: int|
                0 <= a < b < r@.len() ==> (#[trigger] r@[a]).0 != (#[trigger] r@[b]).0,
            forall|c: int| 0 <= c < r@.len() ==> self.result_entry_ok(gq, #[trigger] r@[c]),
    {
        let ghost total = pool@.len() as int;
        let ghost orig = pool@;
        let mut pool = pool;
        let mut out: Vec<(u64, i128)> = Vec::new();
        let ghost mut chosen: Seq<(usize, i128)> = Seq::empty();
        while out.len() < k && pool.len() > 0
            invariant
                self.wf(),
                out@.len() <= k,
                pool@.len() + out@.len() == total,
                out@.len() == chosen.len(),
                forall|c: int| 0 <= c < pool@.len() ==> (#[trigger] pool@[c]).0
                    < self.nodes@.len(),
                forall|a: int, b: int|
                    0 <= a < b < pool@.len() ==> (#[trigger] pool@[a]).0 != (
                    #[trigger] pool@[b]).0,
                forall|c: int| 0 <= c < pool@.len() ==> orig.contains(#[trigger] pool@[c]),
                forall|c: int| 0 <= c < chosen.len() ==> orig.contains(#[trigger] chosen[c]),
                forall|c: int| 0 <= c < chosen.len() ==> (#[trigger] chosen[c]).0
                    < self.nodes@.len(),
                forall|c: int| 0 <= c < chosen.len() ==> (#[trigger] out@[c]).0
                    == self.nodes@[chosen[c].0 as int].id && out@[c].1 == chosen[c].1,
                forall|a: int, b: int|
                    0 <= a < b < chosen.len() ==> (#[trigger] chosen[a]).0 != (
                    #[trigger] chosen[b]).0,
                forall|j: int, c: int|
                    0 <= j < pool@.len() && 0 <= c < chosen.len() ==> (#[trigger] pool@[j]).0 != (
                    #[trigger] chosen[c]).0,
                forall|j: int, c: int|
                    0 <= j < pool@.len() && 0 <= c < out@.len() ==> (#[trigger] pool@[j]).1 <= (
                    #[trigger] out@[c]).1,
                forall|a: int, b: int| 0 <= a < b < out@.len() ==> (#[trigger] out@[a]).1 >= (
                    #[trigger] out@[b]).1,
            decreases pool@.len(),
        {
            let p = Self::argmax(&pool);
            let (pi, ps) = pool[p];
            pool.swap_remove(p);
            out.push((self.nodes[pi].id, ps));
            proof {
                chosen = chosen.push((pi, ps));
            }
        }
        proof {
            assert forall|a: int, b: int|
                0 <= a < b < out@.len() implies (#[trigger] out@[a]).0 != (
            #[trigger] out@[b]).0 by {
                let ia = chosen[a].0 as int;
                let ib = chosen[b].0 as int;
                assert(ia != ib);
                if ia < ib {
                    assert(self.nodes@[ia].id != self.nodes@[ib].id);
                } else {
                    assert(self.nodes@[ib].id != self.nodes@[ia].id);
                }
            }
            assert forall|c: int|
                0 <= c < out@.len() implies self.result_entry_ok(gq, #[trigger] out@[c]) by {
                let oj = choose|oj: int| 0 <= oj < orig.len() && orig[oj] == chosen[c];
                let i = chosen[c].0 as int;
                assert(orig[oj].1 == dot(self.nodes@[orig[oj].0 as int].vector@, gq));
                assert(self.nodes@[i].id == out@[c].0);
                assert(out@[c].1 == dot(self.nodes@[i].vector@, gq));
            }
        }
        out
    }

    /// Return up to `k` (id, similarity) pairs, most similar first.
    /// Fewer than `k` come back only when the graph holds fewer than `k`
    /// nodes; an empty graph or `k == 0` yields an empty result.
    pub fn search(&self, query: &Vec<i64>, k: usize) -> (r: Vec<(u64, i128)>)
        requires
            self.wf(),
            query@.len() == self.dim,
            coords_bounded(query@),
        ensures
            r@.len() == if k <= self.node_count() {
                k as int
            } else {
                self.node_count() as int
            },
            forall|c: int|
                0 <= c < r@.len() ==> self.result_entry_ok(query@, #[trigger] r@[c]),
            forall|a: int, b: int| 0 <= a < b < r@.len() ==> (#[trigger] r@[a]).1 >= (
                #[trigger] r@[b]).1,
            forall|a: int, b: int|
                0 <= a < b < r@.len() ==> (#[trigger] r@[a]).0 != (#[trigger] r@[b]).0,
            forall|c: int| 0 <= c < r@.len() ==> -SIM_LIMIT <= (#[trigger] r@[c]).1 <= SIM_LIMIT,
    {
        if k == 0 || self.nodes.len() == 0 {
            let r: Vec<(u64, i128)> = Vec::new();
            return r;
        }
        let mut cur = self.entry;
        let mut l = self.max_layer;
        while l > 0
            invariant
                self.wf(),
                query@.len() == self.dim,
                coords_bounded(query@),
                self.nodes@.len() > 0,
                (cur as int) < self.nodes@.len(),
                l < self.nodes@[cur as int].layers@.len(),
            decreases l,
        {
            cur = self.greedy_descend(query, cur, l);
            l = l - 1;
        }
        let ef = if self.ef_search >= k {
            self.ef_search
        } else {
            k
        };
        let beam = self.search_layer(query, cur, 0, ef);
        let pool = if beam.len() >= k {
            beam
        } else {
            // the beam under-filled (for example on a sparsely linked
            // graph): fall back to scanning every node, so a short
            // result really means a small graph
            let mut all: Vec<(usize, i128)> = Vec::new();
            let mut i: usize = 0;
            while i < self.nodes.len()
                invariant
                    self.wf(),
                    query@.len() == self.dim,
                    coords_bounded(query@),
                    i <= self.nodes@.len(),
                    all@.len() == i,
                    forall|c: int| 0 <= c < i ==> (#[trigger] all@[c]).0 == c,
                    forall|c: int| 0 <= c < i ==> (#[trigger] all@[c]).1 == dot(
                        self.nodes@[c].vector@,
                        query@,
                    ),
                decreases self.nodes@.len() - i,
            {
                let s = self.sim_to(i, query);
                all.push((i, s));
                i = i + 1;
            }
            all
        };
        proof {
            self.lemma_distinct_indices_bound(pool@);
        }
        let r = self.take_top_k(pool, k, Ghost(query@));
        proof {
            assert forall|c: int|
                0 <= c < r@.len() implies -SIM_LIMIT <= (#[trigger] r@[c]).1 <= SIM_LIMIT by {
                assert(self.result_entry_ok(query@, r@[c]));
                let i = choose|i: int|
                    0 <= i < self.nodes@.len() && (#[trigger] self.nodes@[i]).id == r@[c].0
                        && r@[c].1 == dot(self.nodes@[i].vector@, query@);
                assert(self.node_wf(i));
                lemma_dot_bound(self.nodes@[i].vector@, query@);
            }
        }
        r
    }

    /// Which rejection, if any, `insert` owes for this id and vector
    /// length; `None` means insertion must succeed.
    pub open spec fn insert_check(&self, id: u64, veclen: int) -> Option<IndexError> {
        if veclen != self.dim {
            Some(IndexError::DimensionMismatch)
        } else if self.has_id(id) {
            Some(IndexError::DuplicateId)
        } else if self.node_count() >= self.max_elements {
            Some(IndexError::CapacityExceeded)
        } else {
            None
        }
    }

    /// Linear scan for an id.
    fn find_id(&self, id: u64) -> (r: bool)
        ensures
            r == self.has_id(id),
    {
        let mut i: usize = 0;
        while i < self.nodes.len()
            invariant
                i <= self.nodes@.len(),
                forall|j: int| 0 <= j < i ==> (#[trigger] self.nodes@[j]).id != id,
            decreases self.nodes@.len() - i,
        {
            if self.nodes[i].id == id {
                return true;
            }
            i = i + 1;
        }
        false
    }

    /// Exact similarity between the vectors of two nodes.
    fn sim_between(&self, a: usize, b: usize) -> (s: i128)
        requires
            self.wf(),
            a < self.nodes@.len(),
            b < self.nodes@.len(),
        ensures
            s == dot(self.nodes@[a as int].vector@, self.nodes@[b as int].vector@),
    {
        proof {
            assert(self.node_wf(a as int));
            assert(self.node_wf(b as int));
        }
        let r = compute_dot_product(&self.nodes[a].vector, &self.nodes[b].vector);
        match r {
            Some(s) => s,
            None => {
                proof {
                    assert(false);
                }
                0
            },
        }
    }

    /// Whether `x` occurs in `list`.
    fn list_contains(list: &Vec<usize>, x: usize) -> (r: bool)
        ensures
            r == list@.contains(x),
    {
        let mut i: usize = 0;
        while i < list.len()
            invariant
                i <= list@.len(),
                forall|j: int| 0 <= j < i ==> list@[j] != x,
            decreases list@.len() - i,
        {
            if list[i] == x {
                return true;
            }
            i = i + 1;
        }
        false
    }

    /// Replace the neighbor list of node `i` at layer `l`, re-checking
    /// the graph invariant from the validity of the new list.
    fn set_list(&mut self, i: usize, l: usize, list: Vec<usize>)
        requires
            old(self).wf(),
            i < old(self).nodes@.len(),
            l < old(self).nodes@[i as int].layers@.len(),
            list@.len() <= old(self).degree_cap(l as int),
            forall|e: int| 0 <= e < list@.len() ==> (#[trigger] list@[e] as int)
                < old(self).nodes@.len() && list@[e] != i
                && (l as int) < old(self).nodes@[list@[e] as int].layers@.len(),
        ensures
            final(self).wf(),
            final(self).nodes@.len() == old(self).nodes@.len(),
            forall|j: int| 0 <= j < old(self).nodes@.len() && j != i ==> final(self).nodes@[j]
                == old(self).nodes@[j],
            final(self).nodes@[i as int].id == old(self).nodes@[i as int].id,
            final(self).nodes@[i as int].vector@ == old(self).nodes@[i as int].vector@,
            final(self).nodes@[i as int].layers@ == old(self).nodes@[i as int].layers@.update(
                l as int,
                list,
            ),
            final(self).entry == old(self).entry,
            final(self).max_layer == old(self).max_layer,
            final(self).dim == old(self).dim,
            final(self).max_elements == old(self).max_elements,
            final(self).m == old(self).m,
            final(self).ef_construction == old(self).ef_construction,
            final(self).ef_search == old(self).ef_search,
            final(self).rng == old(self).rng,
    {
        self.nodes[i].layers.set(l, list);
        proof {
            let o = *old(self);
            assert forall|j: int| 0 <= j < self.nodes@.len() implies self.node_wf(j) by {
                assert(o.node_wf(j));
                assert forall|l2: int|
                    0 <= l2 < self.nodes@[j].layers@.len() implies self.list_wf(j, l2) by {
                    if j == i && l2 == l {
                        // the new list is valid by precondition
                    } else {
                        assert(o.list_wf(j, l2));
                        assert(self.nodes@[j].layers@[l2] == o.nodes@[j].layers@[l2]);
                    }
                }
            }
        }
    }

    /// Record the edge `from -> to` at layer `l`, pruning `from`'s list
    /// back to its degree cap (dropping the least similar neighbor) when
    /// the new edge pushes it past the cap.
    fn add_edge(&mut self, from: usize, l: usize, to: usize)
        requires
            old(self).wf(),
            from < old(self).nodes@.len(),
            to < old(self).nodes@.len(),
            from != to,
            l < old(self).nodes@[from as int].layers@.len(),
            l < old(self).nodes@[to as int].layers@.len(),
        ensures
            final(self).wf(),
            Graph::same_membership(*old(self), *final(self)),
            forall|j: int| 0 <= j < old(self).nodes@.len() ==> (#[trigger] final(self).nodes@[j]).layers@.len() == old(self).nodes@[j].layers@.len(),
            final(self).entry == old(self).entry,
            final(self).max_layer == old(self).max_layer,
            final(self).dim == old(self).dim,
            final(self).max_elements == old(self).max_elements,
            final(self).m == old(self).m,
            final(self).ef_construction == old(self).ef_construction,
            final(self).ef_search == old(self).ef_search,
            final(self).rng == old(self).rng,
    {
        proof {
            assert(old(self).node_wf(from as int));
            assert(old(self).list_wf(from as int, l as int));
        }
        let mut list = self.nodes[from].layers[l].clone();
        proof {
            assert(list@ =~= self.nodes@[from as int].layers@[l as int]@);
        }
        if Self::list_contains(&list, to) {
            return ;
        }
        list.push(to);
        let cap = if l == 0 {
            2 * self.m
        } else {
            self.m
        };
        if list.len() > cap {
            // prune: drop the entry least similar to `from`
            let mut wp: usize = 0;
            let mut ws = self.sim_between(list[0], from);
            let mut e: usize = 1;
            while e < list.len()
                invariant
                    self.wf(),
                    from < self.nodes@.len(),
                    forall|j: int| 0 <= j < list@.len() ==> (#[trigger] list@[j] as int)
                        < self.nodes@.len(),
                    0 < e <= list@.len(),
                    (wp as int) < e,
                    ws == dot(
                        self.nodes@[list@[wp as int] as int].vector@,
                        self.nodes@[from as int].vector@,
                    ),
                decreases list@.len() - e,
            {
                let s = self.sim_between(list[e], from);
                if s < ws {
                    ws = s;
                    wp = e;
                }
                e = e + 1;
            }
            list.swap_remove(wp);
        }
        self.set_list(from, l, list);
    }

    /// Append a fresh node (its per-layer neighbor lists already chosen)
    /// and move the entry point onto it when it tops the graph.
    fn push_node(&mut self, id: u64, vector: Vec<i64>, selected: Vec<Vec<usize>>, level: usize)
        requires
            old(self).wf(),
            old(self).nodes@.len() < old(self).max_elements,
            !old(self).has_id(id),
            vector@.len() == old(self).dim,
            coords_bounded(vector@),
            level <= MAX_LEVEL,
            selected@.len() == level + 1,
            forall|l: int| 0 <= l <= level ==> (#[trigger] selected@[l])@.len()
                <= old(self).degree_cap(l),
            forall|l: int, e: int|
                0 <= l <= level && 0 <= e < selected@[l]@.len() ==> (#[trigger] selected@[l]@[e]
                    as int) < old(self).nodes@.len() && (l as int)
                    < old(self).nodes@[selected@[l]@[e] as int].layers@.len(),
        ensures
            final(self).wf(),
            final(self).nodes@.len() == old(self).nodes@.len() + 1,
            forall|j: int| 0 <= j < old(self).nodes@.len() ==> final(self).nodes@[j]
                == old(self).nodes@[j],
            final(self).nodes@[old(self).nodes@.len() as int].id == id,
            final(self).nodes@[old(self).nodes@.len() as int].vector@ == vector@,
            final(self).nodes@[old(self).nodes@.len() as int].layers@.len() == level + 1,
            final(self).dim == old(self).dim,
            final(self).max_elements == old(self).max_elements,
            final(self).m == old(self).m,
            final(self).ef_construction == old(self).ef_construction,
            final(self).ef_search == old(self).ef_search,
            final(self).rng == old(self).rng,
    {
        let new_idx = self.nodes.len();
        let was_empty = new_idx == 0;
        let old_max = self.max_layer;
        self.nodes.push(Node { id, vector, layers: selected });
        if was_empty || level > old_max {
            self.entry = new_idx;
            self.max_layer = level;
        }
        proof {
            let o = *old(self);
            let ni = new_idx as int;
            assert forall|a: int, b: int|
                0 <= a < b < self.nodes@.len() implies (#[trigger] self.nodes@[a]).id != (
            #[trigger] self.nodes@[b]).id by {
                if b == ni {
                    assert(self.nodes@[a] == o.nodes@[a]);
                }
            }
            assert forall|j: int| 0 <= j < self.nodes@.len() implies self.node_wf(j) by {
                if j == ni {
                    assert forall|l2: int|
                        0 <= l2 < self.nodes@[j].layers@.len() implies self.list_wf(j, l2) by {
                        assert(selected@[l2]@.len() <= o.degree_cap(l2));
                        assert forall|e: int|
                            0 <= e < self.nodes@[j].layers@[l2].len() implies {
                            let nb = #[trigger] self.nodes@[j].layers@[l2][e] as int;
                            &&& nb < self.nodes@.len()
                            &&& nb != j
                            &&& l2 < self.nodes@[nb].layers@.len()
                        } by {
                            assert((selected@[l2]@[e] as int) < o.nodes@.len());
                        }
                    }
                } else {
                    assert(o.node_wf(j));
                    assert forall|l2: int|
                        0 <= l2 < self.nodes@[j].layers@.len() implies self.list_wf(j, l2) by {
                        assert(o.list_wf(j, l2));
                        assert(self.nodes@[j] == o.nodes@[j]);
                    }
                }
            }
        }
    }

    /// Draw a top layer from a geometric distribution: each layer is
    /// reached with probability `1 / m`, capped at `MAX_LEVEL`.
    fn layer_from_draw(mut r: u64, m: usize) -> (lvl: usize)
        requires
            m >= 1,
        ensures
            lvl <= MAX_LEVEL,
    {
        let mut lvl: usize = 0;
        let md = m as u64;
        while lvl < MAX_LEVEL && r > 0 && r % md == 0
            invariant
                m >= 1,
                md == m as u64,
                lvl <= MAX_LEVEL,
            decreases MAX_LEVEL - lvl,
        {
            lvl = lvl + 1;
            r = r / md;
        }
        lvl
    }

    /// Add a node whose top layer is `level`: the deterministic core of
    /// `insert`, also usable directly by callers that pin layers down.
    /// Succeeds exactly when the dimension matches, the id is new and
    /// there is room; a rejected insertion leaves the graph untouched.
    pub fn insert_with_level(&mut self, id: u64, vector: Vec<i64>, level: usize) -> (r: Result<
        (),
        IndexError,
    >)
        requires
            old(self).wf(),
            coords_bounded(vector@),
            level <= MAX_LEVEL,
        ensures
            final(self).wf(),
            final(self).dim == old(self).dim,
            final(self).max_elements == old(self).max_elements,
            final(self).m == old(self).m,
            match r {
                Ok(()) => {
                    &&& old(self).insert_check(id, vector@.len() as int) is None
                    &&& final(self).node_count() == old(self).node_count() + 1
                    &&& final(self).nodes@[old(self).node_count() as int].id == id
                    &&& final(self).nodes@[old(self).node_count() as int].vector@ == vector@
                    &&& forall|j: int| 0 <= j < old(self).node_count() ==> (#[trigger] final(self).nodes@[j]).id == old(self).nodes@[j].id && final(self).nodes@[j].vector@ == old(self).nodes@[j].vector@
                },
                Err(e) => {
                    &&& old(self).insert_check(id, vector@.len() as int) == Some(e)
                    &&& *final(self) == *old(self)
                },
            },
    {
        if vector.len() != self.dim {
            return Err(IndexError::DimensionMismatch);
        }
        if self.find_id(id) {
            return Err(IndexError::DuplicateId);
        }
        if self.nodes.len() >= self.max_elements {
            return Err(IndexError::CapacityExceeded);
        }
        // choose the new node's neighbors per layer, searching the graph
        // as it stands
        let mut selected: Vec<Vec<usize>> = Vec::new();
        let mut fill: usize = 0;
        while fill <= level
            invariant
                level <= MAX_LEVEL,
                fill <= level + 1,
                selected@.len() == fill,
                forall|l: int| 0 <= l < fill ==> (#[trigger] selected@[l])@.len() == 0,
            decreases level + 1 - fill,
        {
            let empty: Vec<usize> = Vec::new();
            selected.push(empty);
            fill = fill + 1;
        }
        if self.nodes.len() > 0 {
            let mut cur = self.entry;
            let mut l = self.max_layer;
            while l > level
                invariant
                    self.wf(),
                    vector@.len() == self.dim,
                    coords_bounded(vector@),
                    self.nodes@.len() > 0,
                    (cur as int) < self.nodes@.len(),
                    l < self.nodes@[cur as int].layers@.len(),
                decreases l,
            {
                cur = self.greedy_descend(&vector, cur, l);
                l = l - 1;
            }
            // now l == min(level, max_layer); beam down to layer 0
            let mut remaining = l + 1;
            while remaining > 0
                invariant
                    self.wf(),
                    vector@.len() == self.dim,
                    coords_bounded(vector@),
                    self.nodes@.len() > 0,
                    remaining <= level + 1,
                    (cur as int) < self.nodes@.len(),
                    remaining > 0 ==> (remaining - 1) < self.nodes@[cur as int].layers@.len(),
                    selected@.len() == level + 1,
                    forall|l2: int| 0 <= l2 <= level ==> (#[trigger] selected@[l2])@.len()
                        <= self.degree_cap(l2),
                    forall|l2: int, e: int|
                        0 <= l2 <= level && 0 <= e < selected@[l2]@.len() ==> (
                        #[trigger] selected@[l2]@[e] as int) < self.nodes@.len() && l2
                            < self.nodes@[selected@[l2]@[e] as int].layers@.len(),
                decreases remaining,
            {
                let lc = remaining - 1;
                let cands = self.search_layer(&vector, cur, lc, self.ef_construction);
                let cap = if lc == 0 {
                    2 * self.m
                } else {
                    self.m
                };
                let sel = self.select_neighbors(&vector, &cands, cap, lc);
                selected.set(lc, sel);
                let bp = Self::argmax(&cands);
                cur = cands[bp].0;
                remaining = remaining - 1;
            }
        }
        let ghost g0 = *self;
        self.push_node(id, vector, selected, level);
        let ghost g1 = *self;
        let new_idx = self.nodes.len() - 1;
        // record the reverse edges
        let mut l: usize = 0;
        let depth = self.nodes[new_idx].layers.len();
        while l < depth
            invariant
                self.wf(),
                depth == level + 1,
                new_idx as int == g1.nodes@.len() - 1,
                self.nodes@.len() == g1.nodes@.len(),
                Graph::same_membership(g1, *self),
                forall|j: int| 0 <= j < g1.nodes@.len() ==> (#[trigger] self.nodes@[j]).layers@.len()
                    == g1.nodes@[j].layers@.len(),
                l <= depth,
                depth == self.nodes@[new_idx as int].layers@.len(),
                self.dim == g1.dim,
                self.max_elements == g1.max_elements,
                self.m == g1.m,
            decreases depth - l,
        {
            proof {
                assert(self.node_wf(new_idx as int));
                assert(self.list_wf(new_idx as int, l as int));
            }
            let list = self.nodes[new_idx].layers[l].clone();
            proof {
                assert(list@ =~= self.nodes@[new_idx as int].layers@[l as int]@);
            }
            let mut e: usize = 0;
            while e < list.len()
                invariant
                    self.wf(),
                    new_idx as int == g1.nodes@.len() - 1,
                    self.nodes@.len() == g1.nodes@.len(),
                    Graph::same_membership(g1, *self),
                    forall|j: int|
                        0 <= j < g1.nodes@.len() ==> (#[trigger] self.nodes@[j]).layers@.len()
                            == g1.nodes@[j].layers@.len(),
                    l < self.nodes@[new_idx as int].layers@.len(),
                    e <= list@.len(),
                    forall|j: int| 0 <= j < list@.len() ==> (#[trigger] list@[j] as int)
                        < self.nodes@.len() && list@[j] != new_idx && (l as int)
                        < self.nodes@[list@[j] as int].layers@.len(),
                    self.dim == g1.dim,
                    self.max_elements == g1.max_elements,
                    self.m == g1.m,
                decreases list@.len() - e,
            {
                self.add_edge(list[e], l, new_idx);
                e = e + 1;
            }
            l = l + 1;
        }
        Ok(())
    }

    /// Diversity-aware neighbor selection: walk the candidates in order
    /// of decreasing similarity to the query and keep one only when it is
    /// closer to the query than to every neighbor already kept.
    fn select_neighbors(&self, q: &Vec<i64>, cands: &Vec<(usize, i128)>, cap: usize, l: usize)
        -> (r: Vec<usize>)
        requires
            self.wf(),
            q@.len() == self.dim,
            coords_bounded(q@),
            forall|c: int|
                0 <= c < cands@.len() ==> self.cand_ok(q@, l as int, #[trigger] cands@[c]),
        ensures
            r@.len() <= cap,
            forall|e: int| 0 <= e < r@.len() ==> (#[trigger] r@[e] as int) < self.nodes@.len()
                && (l as int) < self.nodes@[r@[e] as int].layers@.len(),
    {
        let mut used: Vec<bool> = Vec::new();
        let mut ui: usize = 0;
        while ui < cands.len()
            invariant
                ui <= cands@.len(),
                used@.len() == ui,
            decreases cands@.len() - ui,
        {
            used.push(false);
            ui = ui + 1;
        }
        let mut r: Vec<usize> = Vec::new();
        let mut iter: usize = 0;
        while iter < cands.len() && r.len() < cap
            invariant
                self.wf(),
                q@.len() == self.dim,
                coords_bounded(q@),
                forall|c: int|
                    0 <= c < cands@.len() ==> self.cand_ok(q@, l as int, #[trigger] cands@[c]),
                used@.len() == cands@.len(),
                iter <= cands@.len(),
                r@.len() <= cap,
                r@.len() <= iter,
                forall|e: int| 0 <= e < r@.len() ==> (#[trigger] r@[e] as int)
                    < self.nodes@.len() && (l as int)
                    < self.nodes@[r@[e] as int].layers@.len(),
            decreases cands@.len() - iter,
        {
            iter = iter + 1;
            // most similar unused candidate
            let mut found = false;
            let mut p: usize = 0;
            let mut j: usize = 0;
            while j < cands.len()
                invariant
                    used@.len() == cands@.len(),
                    j <= cands@.len(),
                    found ==> (p as int) < cands@.len(),
                decreases cands@.len() - j,
            {
                if !used[j] && (!found || cands[j].1 > cands[p].1) {
                    found = true;
                    p = j;
                }
                j = j + 1;
            }
            if !found {
                return r;
            }
            used.set(p, true);
            let (pi, ps) = cands[p];
            proof {
                assert(self.cand_ok(q@, l as int, cands@[p as int]));
            }
            // keep only if closer to the query than to everything kept
            let mut ok = true;
            let mut t: usize = 0;
            while t < r.len() && ok
                invariant
                    self.wf(),
                    (pi as int) < self.nodes@.len(),
                    t <= r@.len(),
                    forall|e: int| 0 <= e < r@.len() ==> (#[trigger] r@[e] as int)
                        < self.nodes@.len(),
                decreases r@.len() - t,
            {
                let s = self.sim_between(pi, r[t]);
                if s >= ps {
                    ok = false;
                }
                t = t + 1;
            }
            if ok {
                r.push(pi);
            }
        }
        r
    }

    /// Every node's id is visible through `has_id`; in particular, after
    /// a successful `insert` of an id, that id is present.
    pub proof fn lemma_node_id_present(g: Graph, i: int)
        requires
            0 <= i < g.nodes@.len(),
        ensures
            g.has_id(g.nodes@[i].id),
    {
    }

    /// Rejection of a duplicate is idempotent: inserting an id the graph
    /// already holds is refused as a duplicate, and `insert`'s contract
    /// then leaves the graph — its node count included — unchanged.
    pub proof fn lemma_duplicate_insert_rejected(g: Graph, id: u64, veclen: int)
        requires
            g.has_id(id),
            veclen == g.dim,
        ensures
            g.insert_check(id, veclen) == Some(IndexError::DuplicateId),
    {
    }

    /// Add a node, drawing its top layer from the seeded generator.
    /// Succeeds exactly when the dimension matches, the id is new and
    /// there is room; a rejected insertion leaves the graph untouched.
    pub fn insert(&mut self, id: u64, vector: Vec<i64>) -> (r: Result<(), IndexError>)
        requires
            old(self).wf(),
            coords_bounded(vector@),
        ensures
            final(self).wf(),
            final(self).dim == old(self).dim,
            final(self).max_elements == old(self).max_elements,
            final(self).m == old(self).m,
            match r {
                Ok(()) => {
                    &&& old(self).insert_check(id, vector@.len() as int) is None
                    &&& final(self).node_count() == old(self).node_count() + 1
                    &&& final(self).nodes@[old(self).node_count() as int].id == id
                    &&& final(self).nodes@[old(self).node_count() as int].vector@ == vector@
                    &&& forall|j: int| 0 <= j < old(self).node_count() ==> (#[trigger] final(self).nodes@[j]).id == old(self).nodes@[j].id && final(self).nodes@[j].vector@ == old(self).nodes@[j].vector@
                },
                Err(e) => {
                    &&& old(self).insert_check(id, vector@.len() as int) == Some(e)
                    &&& *final(self) == *old(self)
                },
            },
    {
        if vector.len() != self.dim {
            return Err(IndexError::DimensionMismatch);
        }
        if self.find_id(id) {
            return Err(IndexError::DuplicateId);
        }
        if self.nodes.len() >= self.max_elements {
            return Err(IndexError::CapacityExceeded);
        }
        let draw = crate::filter::SeenFilter::mix(self.rng.wrapping_add(0x9e3779b97f4a7c15));
        self.rng = draw;
        proof {
            self.lemma_wf_from(*old(self));
        }
        let level = Self::layer_from_draw(draw, self.m);
        let r = self.insert_with_level(id, vector, level);
        proof {
            if r is Err {
                assert(false);
            }
        }
        r
    }
}

} // verus!
