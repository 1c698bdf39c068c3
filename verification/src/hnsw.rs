//! Hierarchical navigable small-world graphs.
//!
//! A graph keeps, for each node and each level up to the node's own, the list of neighbours of the
//! node on that level. Distances are handed in by the caller as bit patterns (see `float_bits`).
use vstd::prelude::*;

use crate::distance::MetricType;
use crate::error::IndexError;
use crate::float_bits;
use crate::hnsw_build;
use crate::hnsw_layer;
use crate::hnsw_layer::ScoredNode;
use crate::hnsw_link;

verus! {

#[derive(Debug, Clone, Copy, PartialEq, Eq, Structural)]
pub struct HnswBuildParams {
    pub m: usize,
    pub ef_construction: usize,
    pub max_level: usize,
}

impl Default for HnswBuildParams {
    fn default() -> (r: Self)
        ensures
            r.m == 20,
            r.ef_construction == 150,
            r.max_level == 7,
    {
        HnswBuildParams { m: 20, ef_construction: 150, max_level: 7 }
    }
}

pub open spec fn at_least_one(v: usize) -> usize {
    if v == 0 {
        1
    } else {
        v
    }
}

impl HnswBuildParams {
    pub open spec fn spec_sanitized(self) -> HnswBuildParams {
        HnswBuildParams {
            m: at_least_one(self.m),
            ef_construction: at_least_one(self.ef_construction),
            max_level: at_least_one(self.max_level),
        }
    }

    /// The largest number of neighbours that a node keeps on `level`.
    pub open spec fn degree_limit(self, level: int) -> int {
        if level == 0 {
            self.m * 2
        } else {
            self.m as int
        }
    }

    /// The parameters with every zero raised to one.
    pub fn sanitized(self) -> (r: Self)
        ensures
            r == self.spec_sanitized(),
    {
        HnswBuildParams {
            m: if self.m == 0 {
                1
            } else {
                self.m
            },
            ef_construction: if self.ef_construction == 0 {
                1
            } else {
                self.ef_construction
            },
            max_level: if self.max_level == 0 {
                1
            } else {
                self.max_level
            },
        }
    }

    /// To sanitize twice changes nothing more.
    pub proof fn sanitized_is_idempotent(self)
        ensures
            self.spec_sanitized().spec_sanitized() == self.spec_sanitized(),
    {
    }
}

/// The greatest level; zero without nodes.
pub open spec fn top_level(levels: Seq<usize>) -> usize
    decreases levels.len(),
{
    if levels.len() == 0 {
        0
    } else {
        let rest = top_level(levels.drop_last());
        if levels.last() > rest {
            levels.last()
        } else {
            rest
        }
    }
}

/// A neighbour on `level` is a node that reaches this level.
pub open spec fn edge_ok(levels: Seq<usize>, neighbor: usize, level: int) -> bool {
    neighbor < levels.len() && levels[neighbor as int] >= level
}

/// One list of neighbours.
pub open spec fn list_ok(levels: Seq<usize>, list: Seq<usize>, level: int) -> bool {
    forall|j: int| 0 <= j < list.len() ==> edge_ok(levels, #[trigger] list[j], level)
}

/// The lists of one node: one for each level that the node reaches, with valid neighbours only.
pub open spec fn node_ok(levels: Seq<usize>, lists: Seq<Seq<usize>>, node: int) -> bool {
    &&& lists.len() == levels[node] + 1
    &&& forall|l: int| 0 <= l < lists.len() ==> list_ok(levels, #[trigger] lists[l], l)
}

pub open spec fn links_ok(levels: Seq<usize>, adjacency: Seq<Seq<Seq<usize>>>) -> bool {
    &&& adjacency.len() == levels.len()
    &&& forall|i: int| 0 <= i < levels.len() ==> node_ok(levels, #[trigger] adjacency[i], i)
}

/// What a graph is, apart from how it is stored.
#[verifier::ext_equal]
pub struct GraphModel {
    pub d: usize,
    pub metric: MetricType,
    pub vectors: Seq<u32>,
    pub levels: Seq<usize>,
    pub adjacency: Seq<Seq<Seq<usize>>>,
    pub entry_point: usize,
    pub max_observed_level: usize,
    pub params: HnswBuildParams,
}

impl GraphModel {
    /// The entry point of a graph with nodes is one of those on its greatest level.
    pub open spec fn entry_ok(self) -> bool {
        if self.levels.len() == 0 {
            self.entry_point == 0 && self.max_observed_level == 0
        } else {
            &&& self.entry_point < self.levels.len()
            &&& self.max_observed_level == top_level(self.levels)
            &&& self.levels[self.entry_point as int] == self.max_observed_level
        }
    }

    pub open spec fn well_formed(self) -> bool {
        &&& self.vectors.len() == self.levels.len() * self.d
        &&& links_ok(self.levels, self.adjacency)
        &&& self.entry_ok()
        &&& self.params == self.params.spec_sanitized()
    }

}

/// No level is above the greatest one, and with nodes one of them is on it.
pub proof fn lemma_top_level(levels: Seq<usize>)
    ensures
        forall|i: int| 0 <= i < levels.len() ==> #[trigger] levels[i] <= top_level(levels),
        levels.len() > 0 ==> exists|i: int| 0 <= i < levels.len() && #[trigger] levels[i] == top_level(levels),
    decreases levels.len(),
{
    if levels.len() > 0 {
        let front = levels.drop_last();
        lemma_top_level(front);
        assert forall|i: int| 0 <= i < levels.len() implies #[trigger] levels[i] <= top_level(levels) by {
            if i < front.len() {
                assert(front[i] == levels[i]);
            }
        }
        if levels.last() == top_level(levels) {
            assert(levels[levels.len() - 1] == top_level(levels));
        } else {
            if front.len() == 0 {
                assert(top_level(front) == 0);
            }
            let i = choose|i: int| 0 <= i < front.len() && #[trigger] front[i] == top_level(front);
            assert(levels[i] == top_level(levels));
        }
    }
}

#[derive(Debug, Clone)]
pub struct HnswGraph {
    d: usize,
    metric: MetricType,
    vectors: Vec<u32>,
    levels: Vec<usize>,
    neighbors: Vec<Vec<Vec<usize>>>,
    entry_point: usize,
    max_observed_level: usize,
    params: HnswBuildParams,
}

impl View for HnswGraph {
    type V = GraphModel;

    closed spec fn view(&self) -> GraphModel {
        GraphModel {
            d: self.d,
            metric: self.metric,
            vectors: self.vectors@,
            levels: self.levels@,
            adjacency: hnsw_layer::adjacency_of(self.neighbors@),
            entry_point: self.entry_point,
            max_observed_level: self.max_observed_level,
            params: self.params,
        }
    }
}

/// The first refusal of a graph that is put together from parts, if there is one. Of the nodes, the
/// first one with a bad list decides.
pub open spec fn parts_refused(
    vectors_len: nat,
    n: usize,
    d: usize,
    levels: Seq<usize>,
    adjacency: Seq<Seq<Seq<usize>>>,
    entry_point: usize,
    max_observed_level: usize,
    e: IndexError,
) -> bool {
    if n * d > usize::MAX {
        e == IndexError::GraphSizeOverflow
    } else if vectors_len != n * d {
        e == IndexError::GraphVectorLength {
            len: vectors_len as usize,
            expected: (n * d) as usize,
        }
    } else if levels.len() != n || adjacency.len() != n {
        e == IndexError::GraphLevelCount
    } else if n == 0 {
        false
    } else if entry_point >= n {
        e == IndexError::GraphEntryPoint { entry_point, count: n }
    } else if max_observed_level != top_level(levels) {
        e == IndexError::GraphMaxLevel { stated: max_observed_level, observed: top_level(levels) }
    } else if levels[entry_point as int] < max_observed_level {
        e == IndexError::GraphEntryLevel
    } else {
        exists|node: int| #[trigger] first_bad_node(levels, adjacency, node, e)
    }
}

/// `node` is the first node with a bad list, and `e` says what is wrong with it.
pub open spec fn first_bad_node(
    levels: Seq<usize>,
    adjacency: Seq<Seq<Seq<usize>>>,
    node: int,
    e: IndexError,
) -> bool {
    &&& 0 <= node < levels.len()
    &&& forall|i: int| 0 <= i < node ==> node_ok(levels, #[trigger] adjacency[i], i)
    &&& if adjacency[node].len() != levels[node] + 1 {
        e == IndexError::GraphLevelAdjacency { node: node as usize }
    } else {
        exists|l: int, j: int| #[trigger] first_bad_edge(levels, adjacency[node], node, l, j, e)
    }
}

/// The `j`-th edge on level `l` is the first bad one of the node.
pub open spec fn first_bad_edge(
    levels: Seq<usize>,
    lists: Seq<Seq<usize>>,
    node: int,
    l: int,
    j: int,
    e: IndexError,
) -> bool {
    &&& 0 <= l < lists.len()
    &&& 0 <= j < lists[l].len()
    &&& forall|k: int| 0 <= k < l ==> list_ok(levels, #[trigger] lists[k], k)
    &&& list_ok(levels, lists[l].take(j), l)
    &&& !edge_ok(levels, lists[l][j], l)
    &&& e == IndexError::GraphEdge {
        node: node as usize,
        neighbor: lists[l][j],
        level: l as usize,
    }
}

/// The greatest of `levels`.
fn greatest_level(levels: &Vec<usize>) -> (r: usize)
    ensures
        r == top_level(levels@),
{
    let mut top: usize = 0;
    assert(levels@.take(0) =~= Seq::<usize>::empty());
    for i in 0..levels.len()
        invariant
            top == top_level(levels@.take(i as int)),
    {
        assert(levels@.take(i + 1).drop_last() =~= levels@.take(i as int));
        if levels[i] > top {
            top = levels[i];
        }
    }
    assert(levels@.take(levels@.len() as int) =~= levels@);
    top
}

/// Looks through the lists of one node; gives the first refusal.
fn check_node(levels: &Vec<usize>, lists: &Vec<Vec<usize>>, node: usize) -> (r: Result<(), IndexError>)
    requires
        node < levels@.len(),
    ensures
        ({
            let adj = Seq::new(lists@.len(), |l: int| lists@[l]@);
            match r {
                Ok(_) => node_ok(levels@, adj, node as int),
                Err(e) => !node_ok(levels@, adj, node as int) && if adj.len() != levels@[node as int] + 1 {
                    e == IndexError::GraphLevelAdjacency { node }
                } else {
                    exists|l: int, j: int| #[trigger] first_bad_edge(levels@, adj, node as int, l, j, e)
                },
            }
        }),
{
    let ghost adj = Seq::new(lists@.len(), |l: int| lists@[l]@);
    if lists.len() == 0 || lists.len() - 1 != levels[node] {
        return Err(IndexError::GraphLevelAdjacency { node });
    }
    for level in 0..lists.len()
        invariant
            node < levels@.len(),
            adj == Seq::new(lists@.len(), |l: int| lists@[l]@),
            adj.len() == levels@[node as int] + 1,
            forall|l: int| 0 <= l < level ==> list_ok(levels@, #[trigger] adj[l], l),
    {
        let list: &Vec<usize> = &lists[level];
        assert(adj[level as int] == list@);
        for j in 0..list.len()
            invariant
                node < levels@.len(),
                adj == Seq::new(lists@.len(), |l: int| lists@[l]@),
                adj.len() == levels@[node as int] + 1,
                level < lists@.len(),
                forall|l: int| 0 <= l < level ==> list_ok(levels@, #[trigger] adj[l], l),
                adj[level as int] == list@,
                list_ok(levels@, list@.take(j as int), level as int),
        {
            let neighbor: usize = list[j];
            if neighbor >= levels.len() || levels[neighbor] < level {
                let e = IndexError::GraphEdge { node, neighbor, level };
                proof {
                    assert(first_bad_edge(levels@, adj, node as int, level as int, j as int, e));
                    assert(!list_ok(levels@, adj[level as int], level as int)) by {
                        assert(!edge_ok(levels@, list@[j as int], level as int));
                    }
                }
                return Err(e);
            }
            proof {
                let before = list@.take(j as int);
                let after = list@.take(j + 1);
                assert forall|i: int| 0 <= i < after.len() implies edge_ok(
                    levels@,
                    #[trigger] after[i],
                    level as int,
                ) by {
                    if i < j {
                        assert(before[i] == after[i]);
                    }
                }
            }
        }
        assert(list@.take(list@.len() as int) =~= list@);
    }
    Ok(())
}

impl HnswGraph {
    /// Puts a graph together from its parts, or says what is wrong with them.
    pub fn from_parts(
        vectors: Vec<u32>,
        n: usize,
        d: usize,
        metric: MetricType,
        levels: Vec<usize>,
        neighbors: Vec<Vec<Vec<usize>>>,
        entry_point: usize,
        max_observed_level: usize,
        params: HnswBuildParams,
    ) -> (r: Result<HnswGraph, IndexError>)
        ensures
            match r {
                Ok(g) => {
                    &&& g@.well_formed()
                    &&& g@.d == d
                    &&& g@.metric == metric
                    &&& g@.vectors == vectors@
                    &&& g@.levels == levels@
                    &&& g@.levels.len() == n
                    &&& g@.adjacency == hnsw_layer::adjacency_of(neighbors@)
                    &&& g@.entry_point == (if n > 0 {
                        entry_point
                    } else {
                        0
                    })
                    &&& g@.max_observed_level == (if n > 0 {
                        max_observed_level
                    } else {
                        0
                    })
                    &&& g@.params == params.spec_sanitized()
                },
                Err(e) => parts_refused(
                    vectors@.len(),
                    n,
                    d,
                    levels@,
                    hnsw_layer::adjacency_of(neighbors@),
                    entry_point,
                    max_observed_level,
                    e,
                ),
            },
    {
        let expected_len: usize = match n.checked_mul(d) {
            Some(len) => len,
            None => {
                return Err(IndexError::GraphSizeOverflow);
            },
        };
        if vectors.len() != expected_len {
            return Err(
                IndexError::GraphVectorLength { len: vectors.len(), expected: expected_len },
            );
        }
        if levels.len() != n || neighbors.len() != n {
            return Err(IndexError::GraphLevelCount);
        }
        if n == 0 {
            let g = HnswGraph {
                d,
                metric,
                vectors,
                levels,
                neighbors,
                entry_point: 0,
                max_observed_level: 0,
                params: params.sanitized(),
            };
            return Ok(g);
        }
        if entry_point >= n {
            return Err(IndexError::GraphEntryPoint { entry_point, count: n });
        }
        let observed: usize = greatest_level(&levels);
        if max_observed_level != observed {
            return Err(IndexError::GraphMaxLevel { stated: max_observed_level, observed });
        }
        if levels[entry_point] < max_observed_level {
            return Err(IndexError::GraphEntryLevel);
        }
        let ghost adj = hnsw_layer::adjacency_of(neighbors@);
        for node in 0..n
            invariant
                levels@.len() == n,
                neighbors@.len() == n,
                adj == hnsw_layer::adjacency_of(neighbors@),
                forall|i: int| 0 <= i < node ==> node_ok(levels@, #[trigger] adj[i], i),
                n > 0,
                n * d <= usize::MAX,
                vectors@.len() == n * d,
                entry_point < n,
                max_observed_level == top_level(levels@),
                levels@[entry_point as int] >= max_observed_level,
        {
            assert(adj[node as int] == Seq::new(
                neighbors@[node as int]@.len(),
                |l: int| neighbors@[node as int]@[l]@,
            ));
            match check_node(&levels, &neighbors[node], node) {
                Ok(_) => {},
                Err(e) => {
                    assert(first_bad_node(levels@, adj, node as int, e));
                    return Err(e);
                },
            }
        }
        proof {
            lemma_top_level(levels@);
        }
        Ok(
            HnswGraph {
                d,
                metric,
                vectors,
                levels,
                neighbors,
                entry_point,
                max_observed_level,
                params: params.sanitized(),
            },
        )
    }

    pub fn len(&self) -> (r: usize)
        ensures
            r == self@.levels.len(),
    {
        self.levels.len()
    }

    pub fn is_empty(&self) -> (r: bool)
        ensures
            r == (self@.levels.len() == 0),
    {
        self.levels.len() == 0
    }

    pub fn vectors(&self) -> (r: &Vec<u32>)
        ensures
            r@ == self@.vectors,
    {
        &self.vectors
    }

    pub fn levels(&self) -> (r: &Vec<usize>)
        ensures
            r@ == self@.levels,
    {
        &self.levels
    }

    pub fn neighbors(&self) -> (r: &Vec<Vec<Vec<usize>>>)
        ensures
            hnsw_layer::adjacency_of(r@) == self@.adjacency,
    {
        &self.neighbors
    }

    pub fn entry_point(&self) -> (r: usize)
        ensures
            r == self@.entry_point,
    {
        self.entry_point
    }

    pub fn max_observed_level(&self) -> (r: usize)
        ensures
            r == self@.max_observed_level,
    {
        self.max_observed_level
    }

    /// Builds the graph of the first `n` vectors.
    pub fn build<F: Fn(usize, usize) -> u32>(
        vectors: &[u32],
        n: usize,
        d: usize,
        metric: MetricType,
        params: HnswBuildParams,
        distance: F,
    ) -> (r: Result<HnswGraph, IndexError>)
        requires
            hnsw_layer::gives_pair_distances(distance, n as nat),
            n > 1 ==> params.m * 2 <= usize::MAX,
            n + 0x9E37_79B9_7F4A_7C15 <= u64::MAX,
        ensures
            match r {
                Ok(g) => {
                    &&& n * d <= vectors@.len()
                    &&& g@.well_formed()
                    &&& g@.levels.len() == n
                    &&& hnsw_build::growth_state(g@)
                    &&& hnsw_build::grown(
                        empty_graph(vectors@.take(n * d), d, metric, params.spec_sanitized()),
                        g@,
                        n as nat,
                        hnsw_layer::pair_distances(distance),
                    )
                },
                Err(e) => if n * d > usize::MAX {
                    e == IndexError::GraphSizeOverflow
                } else {
                    vectors@.len() < n * d && e == IndexError::VectorDataTooShort {
                        len: vectors@.len() as usize,
                        expected: (n * d) as usize,
                    }
                },
            },
    {
        Self::build_agreeing(
            vectors,
            n,
            d,
            metric,
            params,
            &distance,
            Ghost(hnsw_layer::pair_distances(distance)),
        )
    }

    /// Builds the graph of the first `n` vectors, given what the function gives.
    pub(crate) fn build_agreeing<F: Fn(usize, usize) -> u32>(
        vectors: &[u32],
        n: usize,
        d: usize,
        metric: MetricType,
        params: HnswBuildParams,
        distance: &F,
        Ghost(pair): Ghost<spec_fn(usize, usize) -> u32>,
    ) -> (r: Result<HnswGraph, IndexError>)
        requires
            hnsw_layer::pair_agrees(*distance, pair, n as nat),
            n > 1 ==> params.m * 2 <= usize::MAX,
            n + 0x9E37_79B9_7F4A_7C15 <= u64::MAX,
        ensures
            match r {
                Ok(g) => {
                    &&& n * d <= vectors@.len()
                    &&& g@.well_formed()
                    &&& g@.levels.len() == n
                    &&& hnsw_build::growth_state(g@)
                    &&& hnsw_build::grown(
                        empty_graph(vectors@.take(n * d), d, metric, params.spec_sanitized()),
                        g@,
                        n as nat,
                        pair,
                    )
                },
                Err(e) => if n * d > usize::MAX {
                    e == IndexError::GraphSizeOverflow
                } else {
                    vectors@.len() < n * d && e == IndexError::VectorDataTooShort {
                        len: vectors@.len() as usize,
                        expected: (n * d) as usize,
                    }
                },
            },
    {
        let expected_len: usize = match n.checked_mul(d) {
            Some(len) => len,
            None => {
                return Err(IndexError::GraphSizeOverflow);
            },
        };
        if vectors.len() < expected_len {
            return Err(
                IndexError::VectorDataTooShort { len: vectors.len(), expected: expected_len },
            );
        }
        let params = params.sanitized();
        let mut kept: Vec<u32> = Vec::new();
        for i in 0..expected_len
            invariant
                kept@ == vectors@.take(i as int),
                expected_len <= vectors@.len(),
        {
            kept.push(vectors[i]);
            assert(kept@ =~= vectors@.take(i + 1));
        }
        let mut graph = HnswGraph {
            d,
            metric,
            vectors: kept,
            levels: Vec::new(),
            neighbors: Vec::new(),
            entry_point: 0,
            max_observed_level: 0,
            params,
        };
        let ghost start = graph@;
        let ghost mut steps: Seq<GraphModel> = seq![start];
        proof {
            assert(start.adjacency =~= Seq::<Seq<Seq<usize>>>::empty());
            assert(start =~= empty_graph(vectors@.take(n * d), d, metric, params));
            assert(hnsw_build::growth_state(start)) by {
                reveal(hnsw_build::growth_state);
            }
        }
        for node in 0..n
            invariant
                n > 1 ==> params.m * 2 <= usize::MAX,
                n + 0x9E37_79B9_7F4A_7C15 <= u64::MAX,
                hnsw_layer::pair_agrees(*distance, pair, n as nat),
                graph@.levels.len() == node,
                hnsw_build::growth_state(graph@),
                graph@.params == params,
                graph@.d == d,
                graph@.metric == metric,
                graph@.vectors == start.vectors,
                steps.len() == node + 1,
                steps[0] == start,
                steps[node as int] == graph@,
                forall|i: int| 0 <= i < node ==> #[trigger] hnsw_build::next_step(steps, i, pair),
        {
            let ghost before = graph@;
            graph.insert(node, distance, Ghost(pair));
            proof {
                let longer = steps.push(graph@);
                assert forall|i: int|
                    0 <= i < node + 1 implies #[trigger] hnsw_build::next_step(longer, i, pair) by {
                    if i < node {
                        assert(hnsw_build::next_step(steps, i, pair));
                    }
                }
                steps = longer;
            }
        }
        proof {
            assert(hnsw_build::grown_by(start, graph@, n as nat, pair, steps));
            assert(graph@.well_formed()) by {
                reveal(hnsw_build::growth_state);
                assert(graph@.vectors.len() == n * d);
            }
        }
        Ok(graph)
    }

    /// Adds the next node.
    fn insert<F: Fn(usize, usize) -> u32>(
        &mut self,
        node: usize,
        distance: &F,
        Ghost(pair): Ghost<spec_fn(usize, usize) -> u32>,
    )
        requires
            hnsw_build::growth_state(old(self)@),
            node == old(self)@.levels.len(),
            node > 0 ==> old(self)@.params.m * 2 <= usize::MAX,
            node + 1 + 0x9E37_79B9_7F4A_7C15 <= u64::MAX,
            node < usize::MAX,
            hnsw_layer::pair_agrees(*distance, pair, (node + 1) as nat),
        ensures
            hnsw_build::growth_state(final(self)@),
            hnsw_build::inserted(old(self)@, final(self)@, node, pair),
            final(self)@.levels.len() == node + 1,
            final(self)@.d == old(self)@.d,
            final(self)@.metric == old(self)@.metric,
            final(self)@.vectors == old(self)@.vectors,
            final(self)@.params == old(self)@.params,
    {
        reveal(hnsw_build::growth_state);
        reveal(hnsw_build::inserted);
        let ghost before = self@;
        let level: usize = hnsw_build::random_level(node, self.params.m, self.params.max_level);
        proof {
            hnsw_build::level_is_below_maximum(node, self.params.m, self.params.max_level);
            hnsw_build::lemma_new_node(before.levels, before.adjacency, before.params, level);
        }
        self.levels.push(level);
        let mut lists: Vec<Vec<usize>> = Vec::new();
        for l in 0..level + 1
            invariant
                lists@.len() == l,
                forall|i: int| 0 <= i < l ==> (#[trigger] lists@[i])@ == Seq::<usize>::empty(),
                level < usize::MAX,
        {
            lists.push(Vec::new());
        }
        self.neighbors.push(lists);
        let ghost adj = hnsw_layer::adjacency_of(self.neighbors@);
        let ghost levels = self.levels@;
        proof {
            assert(adj =~~= hnsw_build::with_new_node(before.adjacency, level));
            assert(levels.drop_last() =~= before.levels);
        }
        if node == 0 {
            self.entry_point = 0;
            self.max_observed_level = level;
            assert(top_level(levels.drop_last()) == 0);
            return ;
        }
        let n: usize = self.levels.len();
        let top: usize = self.max_observed_level;
        let from_node = |x: usize| -> (r: u32)
            requires
                x < n,
            ensures
                r == pair(node, x),
            { distance(node, x) };
        let ghost dist = hnsw_link::distances_from(pair, node);
        let entry_dist: u32 = distance(node, self.entry_point);
        let start = ScoredNode { id: self.entry_point, dist: entry_dist };
        let ep: ScoredNode = hnsw_build::descend_levels(
            &self.neighbors,
            start,
            top,
            level + 1,
            &from_node,
            Ghost(dist),
            Ghost(levels),
        );
        proof {
            if ep.id == node {
                let (u, l) = choose|u: int, l: int|
                    l >= level + 1 && #[trigger] hnsw_layer::neighbors_of(adj, u, l).contains(
                        ep.id,
                    );
                let list = hnsw_layer::neighbors_of(adj, u, l);
                let j = choose|j: int| 0 <= j < list.len() && list[j] == ep.id;
                assert(node_ok(levels, adj[u], u));
                assert(list_ok(levels, adj[u][l], l));
                assert(edge_ok(levels, adj[u][l][j], l));
            }
        }
        let mut visited: Vec<usize> = vec![0; n];
        let first: usize = if level < top {
            level
        } else {
            top
        };
        proof {
            assert forall|i: int| 0 <= i < n && i != node && n > 2 implies (#[trigger] adj[i])[0].len() > 0 by {
                assert(adj[i] == before.adjacency[i]);
                assert(before.adjacency[i][0].len() > 0);
            }
            hnsw_build::lemma_new_node_unnamed(
                before.levels,
                before.adjacency,
                level,
                node,
                first + 1,
            );
        }
        hnsw_build::link_layers(
            &mut self.neighbors,
            node,
            ep.id,
            first,
            self.params,
            &mut visited,
            1,
            distance,
            Ghost(pair),
            Ghost(levels),
        );
        if level > top {
            self.entry_point = node;
            self.max_observed_level = level;
        }
        proof {
            lemma_top_level(levels);
        }
    }

    /// The `k` closest nodes that a search with a list of at least `ef` candidates finds, closest
    /// first.
    pub fn search<F: Fn(usize) -> u32>(&self, k: usize, ef: usize, distance: F) -> (r: Vec<
        (usize, u32),
    >)
        requires
            self@.well_formed(),
            hnsw_layer::gives_distances(distance, self@.levels.len()),
        ensures
            search_found(self@, hnsw_layer::distances(distance), k, ef, r@),
    {
        self.search_agreeing(k, ef, &distance, Ghost(hnsw_layer::distances(distance)))
    }

    pub(crate) fn search_agreeing<F: Fn(usize) -> u32>(
        &self,
        k: usize,
        ef: usize,
        distance: &F,
        Ghost(dist): Ghost<spec_fn(usize) -> u32>,
    ) -> (r: Vec<(usize, u32)>)
        requires
            self@.well_formed(),
            hnsw_layer::agrees(*distance, dist, self@.levels.len()),
        ensures
            search_found(self@, dist, k, ef, r@),
    {
        let mut out: Vec<(usize, u32)> = Vec::new();
        if self.levels.len() == 0 || k == 0 {
            return out;
        }
        let ghost adj = self@.adjacency;
        let width: usize = if ef < k {
            k
        } else {
            ef
        };
        let entry_dist: u32 = distance(self.entry_point);
        let start = ScoredNode { id: self.entry_point, dist: entry_dist };
        let ep: ScoredNode = hnsw_build::descend_levels(
            &self.neighbors,
            start,
            self.max_observed_level,
            1,
            distance,
            Ghost(dist),
            Ghost(self.levels@),
        );
        let n: usize = self.levels.len();
        let mut visited: Vec<usize> = vec![0; n];
        proof {
            hnsw_build::lemma_links_in_range(self.levels@, adj);
        }
        let found: Vec<ScoredNode> = hnsw_layer::search_layer(
            &self.neighbors,
            ep.id,
            width,
            0,
            &mut visited,
            1,
            distance,
            Ghost(dist),
        );
        let take: usize = if found.len() < k {
            found.len()
        } else {
            k
        };
        for i in 0..take
            invariant
                take <= found@.len(),
                out@ == as_pairs(found@).take(i as int),
        {
            out.push((found[i].id, found[i].dist));
            assert(out@ =~= as_pairs(found@).take(i + 1));
        }
        assert(hnsw_layer::layer_found(adj, dist, ep.id, search_width(k, ef), 0, found@));
        assert(out@ =~= hnsw_link::at_most(as_pairs(found@), k as int));
        out
    }

    /// The node that following the closest neighbours on `level` ends at, and its distance.
    pub fn greedy_search_query<F: Fn(usize) -> u32>(
        &self,
        entry: usize,
        entry_dist: u32,
        level: usize,
        distance: F,
    ) -> (r: (usize, u32))
        requires
            self@.well_formed(),
            hnsw_layer::gives_distances(distance, self@.levels.len()),
        ensures
            ({
                let found = hnsw_layer::descend(
                    self@.adjacency,
                    hnsw_layer::distances(distance),
                    (ScoredNode { id: entry, dist: entry_dist }),
                    level as int,
                );
                r == (found.id, found.dist)
            }),
    {
        proof {
            hnsw_build::lemma_links_in_range(self.levels@, self@.adjacency);
        }
        let found: ScoredNode = hnsw_layer::greedy_search(
            &self.neighbors,
            ScoredNode { id: entry, dist: entry_dist },
            level,
            &distance,
            Ghost(hnsw_layer::distances(distance)),
        );
        (found.id, found.dist)
    }

    /// Selects up to `max` neighbours: first those that no closer neighbour shadows, then the
    /// others.
    pub fn select_neighbors<F: Fn(usize, usize) -> u32>(
        &self,
        candidates: &Vec<ScoredNode>,
        max: usize,
        distance: F,
    ) -> (r: Vec<ScoredNode>)
        requires
            self@.well_formed(),
            hnsw_layer::gives_pair_distances(distance, self@.levels.len()),
            forall|i: int|
                0 <= i < candidates@.len() ==> (#[trigger] candidates@[i]).id < self@.levels.len(),
        ensures
            r@ == hnsw_link::selected(
                candidates@,
                max as int,
                hnsw_layer::pair_distances(distance),
            ),
    {
        hnsw_link::select_neighbors(
            candidates,
            max,
            self.levels.len(),
            &distance,
            Ghost(hnsw_layer::pair_distances(distance)),
        )
    }

    /// The largest number of neighbours of a node on a level.
    pub fn max_degree(&self) -> (r: usize)
        ensures
            forall|i: int, l: int|
                0 <= i < self@.adjacency.len() && 0 <= l < self@.adjacency[i].len()
                    ==> (#[trigger] self@.adjacency[i][l]).len() <= r,
            r > 0 ==> exists|i: int, l: int|
                0 <= i < self@.adjacency.len() && 0 <= l < self@.adjacency[i].len()
                    && (#[trigger] self@.adjacency[i][l]).len() == r,
    {
        let ghost adj = self@.adjacency;
        let mut most: usize = 0;
        for i in 0..self.neighbors.len()
            invariant
                adj == hnsw_layer::adjacency_of(self.neighbors@),
                forall|k: int, l: int|
                    0 <= k < i && 0 <= l < adj[k].len() ==> (#[trigger] adj[k][l]).len() <= most,
                most > 0 ==> exists|k: int, l: int|
                    0 <= k < adj.len() && 0 <= l < adj[k].len() && (#[trigger] adj[k][l]).len()
                        == most,
        {
            let lists: usize = self.neighbors[i].len();
            for l in 0..lists
                invariant
                    lists == self.neighbors@[i as int]@.len(),
                    adj == hnsw_layer::adjacency_of(self.neighbors@),
                    i < self.neighbors@.len(),
                    forall|k: int, q: int|
                        0 <= k < i && 0 <= q < adj[k].len() ==> (#[trigger] adj[k][q]).len() <= most,
                    forall|q: int| 0 <= q < l ==> (#[trigger] adj[i as int][q]).len() <= most,
                    most > 0 ==> exists|k: int, q: int|
                        0 <= k < adj.len() && 0 <= q < adj[k].len() && (#[trigger] adj[k][q]).len()
                            == most,
            {
                let degree: usize = self.neighbors[i][l].len();
                assert(adj[i as int][l as int].len() == degree);
                if degree > most {
                    most = degree;
                }
            }
        }
        most
    }
}

/// A graph without nodes.
pub open spec fn empty_graph(
    vectors: Seq<u32>,
    d: usize,
    metric: MetricType,
    params: HnswBuildParams,
) -> GraphModel {
    GraphModel {
        d,
        metric,
        vectors,
        levels: Seq::empty(),
        adjacency: Seq::empty(),
        entry_point: 0,
        max_observed_level: 0,
        params,
    }
}

pub open spec fn as_pairs(found: Seq<ScoredNode>) -> Seq<(usize, u32)> {
    Seq::new(found.len(), |i: int| (found[i].id, found[i].dist))
}

/// How many nodes a search looks for: never fewer than it is to give.
pub open spec fn search_width(k: usize, ef: usize) -> nat {
    if ef < k {
        k as nat
    } else {
        ef as nat
    }
}

/// What a search gives: nothing of an empty graph or for no results; else the `k` closest of what
/// the best-first search finds on the lowest level from where the descent through the upper levels
/// ends.
pub open spec fn search_found(
    g: GraphModel,
    dist: spec_fn(usize) -> u32,
    k: usize,
    ef: usize,
    r: Seq<(usize, u32)>,
) -> bool {
    if g.levels.len() == 0 || k == 0 {
        r.len() == 0
    } else {
        let start = ScoredNode { id: g.entry_point, dist: dist(g.entry_point) };
        let ep = hnsw_build::descended(g.adjacency, dist, start, g.max_observed_level as int, 1);
        exists|found: Seq<ScoredNode>|
            #[trigger] hnsw_layer::layer_found(
                g.adjacency,
                dist,
                ep.id,
                search_width(k, ef),
                0,
                found,
            ) && r == hnsw_link::at_most(as_pairs(found), k as int)
    }
}

/// A search gives nodes of the graph.
pub proof fn found_rows_are_nodes(
    g: GraphModel,
    dist: spec_fn(usize) -> u32,
    k: usize,
    ef: usize,
    r: Seq<(usize, u32)>,
)
    requires
        g.well_formed(),
        search_found(g, dist, k, ef, r),
    ensures
        forall|i: int| 0 <= i < r.len() ==> (#[trigger] r[i]).0 < g.levels.len(),
{
    if g.levels.len() > 0 && k > 0 {
        let start = ScoredNode { id: g.entry_point, dist: dist(g.entry_point) };
        let ep = hnsw_build::descended(g.adjacency, dist, start, g.max_observed_level as int, 1);
        let found = choose|found: Seq<ScoredNode>|
            #[trigger] hnsw_layer::layer_found(
                g.adjacency,
                dist,
                ep.id,
                search_width(k, ef),
                0,
                found,
            ) && r == hnsw_link::at_most(as_pairs(found), k as int);
        assert forall|i: int| 0 <= i < r.len() implies (#[trigger] r[i]).0 < g.levels.len() by {
            assert(found[i].id < g.adjacency.len());
        }
    }
}

/// A search gives at most `k` nodes, each once and with its distance, closest first.
pub proof fn search_gives_closest_first(
    g: GraphModel,
    dist: spec_fn(usize) -> u32,
    k: usize,
    ef: usize,
    r: Seq<(usize, u32)>,
)
    requires
        g.well_formed(),
        search_found(g, dist, k, ef, r),
    ensures
        r.len() <= k,
        g.levels.len() > 0 && k > 0 ==> r.len() > 0,
        forall|i: int|
            0 <= i < r.len() ==> (#[trigger] r[i]).0 < g.levels.len() && r[i].1 == dist(r[i].0),
        forall|i: int, j: int|
            0 <= i < j < r.len() ==> (#[trigger] r[i]).0 != (#[trigger] r[j]).0
                && float_bits::total_key(r[i].1) <= float_bits::total_key(r[j].1),
{
    found_rows_are_nodes(g, dist, k, ef, r);
    if g.levels.len() > 0 && k > 0 {
        let start = ScoredNode { id: g.entry_point, dist: dist(g.entry_point) };
        let ep = hnsw_build::descended(g.adjacency, dist, start, g.max_observed_level as int, 1);
        let found = choose|found: Seq<ScoredNode>|
            #[trigger] hnsw_layer::layer_found(
                g.adjacency,
                dist,
                ep.id,
                search_width(k, ef),
                0,
                found,
            ) && r == hnsw_link::at_most(as_pairs(found), k as int);
        assert forall|i: int| 0 <= i < r.len() implies (#[trigger] r[i]).1 == dist(r[i].0) by {
            assert(found[i].dist == dist(found[i].id));
        }
        assert forall|i: int, j: int| 0 <= i < j < r.len() implies (#[trigger] r[i]).0 != (
        #[trigger] r[j]).0 && float_bits::total_key(r[i].1) <= float_bits::total_key(r[j].1) by {
            assert(found[i].id != found[j].id);
            assert(float_bits::total_key(found[i].dist) <= float_bits::total_key(found[j].dist));
        }
    }
}

} // verus!
