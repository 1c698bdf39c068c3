//! Graphs over inverted lists: one for each list that is not empty.
use vstd::prelude::*;

use crate::distance::MetricType;
use crate::error::IndexError;
use crate::hnsw;
use crate::hnsw::{GraphModel, HnswBuildParams, HnswGraph};
use crate::hnsw_build;
use crate::hnsw_layer;

verus! {

pub open spec fn graph_view(graph: Option<HnswGraph>) -> Option<GraphModel> {
    match graph {
        Some(g) => Some(g@),
        None => None,
    }
}

pub open spec fn graph_views(graphs: Seq<Option<HnswGraph>>) -> Seq<Option<GraphModel>> {
    Seq::new(graphs.len(), |i: int| graph_view(graphs[i]))
}

/// What is there of graphs is well formed.
pub open spec fn graphs_well_formed(graphs: Seq<Option<GraphModel>>) -> bool {
    forall|i: int|
        0 <= i < graphs.len() ==> ((#[trigger] graphs[i]) matches Some(g) ==> g.well_formed())
}

/// `n` lists without graphs.
pub open spec fn no_graphs(n: nat) -> Seq<Option<GraphModel>> {
    Seq::new(n, |i: int| None)
}

/// Distances by list and two of its rows, as a function gives them.
pub open spec fn list_distances<F: Fn(usize, usize, usize) -> u32>(f: F) -> spec_fn(
    usize,
    usize,
    usize,
) -> u32 {
    |l: usize, a: usize, b: usize| choose|r: u32| call_ensures(f, (l, a, b), r)
}

/// The distances within one list.
pub open spec fn within_list(dist: spec_fn(usize, usize, usize) -> u32, l: usize) -> spec_fn(
    usize,
    usize,
) -> u32 {
    |a: usize, b: usize| dist(l, a, b)
}

/// The function gives one distance for each two rows of each list, always the same.
pub open spec fn gives_list_distances<F: Fn(usize, usize, usize) -> u32>(
    f: F,
    counts: Seq<nat>,
) -> bool {
    &&& forall|l: usize, a: usize, b: usize|
        l < counts.len() && a < counts[l as int] && b < counts[l as int]
            ==> #[trigger] call_requires(f, (l, a, b))
    &&& forall|l: usize, a: usize, b: usize, r: u32|
        l < counts.len() && a < counts[l as int] && b < counts[l as int]
            && #[trigger] call_ensures(f, (l, a, b), r) ==> r == list_distances(f)(l, a, b)
}

/// Where a list has more than one row, twice the number of neighbours can be counted.
pub open spec fn degrees_fit(counts: Seq<nat>, m: int) -> bool {
    forall|i: int| 0 <= i < counts.len() && #[trigger] counts[i] > 1 ==> m * 2 <= usize::MAX
}

/// A graph has grown over the rows of a list; none over an empty one.
pub open spec fn list_grown(
    vectors: Seq<u32>,
    count: nat,
    d: usize,
    metric: MetricType,
    params: HnswBuildParams,
    dist: spec_fn(usize, usize) -> u32,
    graph: Option<GraphModel>,
) -> bool {
    match graph {
        None => count == 0,
        Some(g) => {
            &&& count > 0
            &&& g.well_formed()
            &&& g.levels.len() == count
            &&& hnsw_build::growth_state(g)
            &&& hnsw_build::grown(
                hnsw::empty_graph(
                    vectors.take((count * d) as int),
                    d,
                    metric,
                    params.spec_sanitized(),
                ),
                g,
                count,
                dist,
            )
        },
    }
}

/// Why no graph can be built over `count` rows.
pub open spec fn growth_refused(vectors: Seq<u32>, count: nat, d: usize, e: IndexError) -> bool {
    count > 0 && if count * d > usize::MAX {
        e == IndexError::GraphSizeOverflow
    } else {
        vectors.len() < count * d && e == IndexError::VectorDataTooShort {
            len: vectors.len() as usize,
            expected: (count * d) as usize,
        }
    }
}

/// Builds the graph of list `l`.
pub(crate) fn build_list_graph<F: Fn(usize, usize, usize) -> u32>(
    vectors: &Vec<u32>,
    count: usize,
    d: usize,
    metric: MetricType,
    params: HnswBuildParams,
    l: usize,
    distance: &F,
    Ghost(counts): Ghost<Seq<nat>>,
) -> (r: Result<Option<HnswGraph>, IndexError>)
    requires
        gives_list_distances(*distance, counts),
        l < counts.len(),
        counts[l as int] == count,
        count > 1 ==> params.m * 2 <= usize::MAX,
        count + 0x9E37_79B9_7F4A_7C15 <= u64::MAX,
    ensures
        match r {
            Ok(g) => {
                &&& count > 0 ==> count * d <= vectors@.len()
                &&& list_grown(
                    vectors@,
                    count as nat,
                    d,
                    metric,
                    params,
                    within_list(list_distances(*distance), l),
                    graph_view(g),
                )
            },
            Err(e) => growth_refused(vectors@, count as nat, d, e),
        },
{
    if count == 0 {
        return Ok(None);
    }
    let ghost dist = list_distances(*distance);
    let pair = |a: usize, b: usize| -> (r: u32)
        requires
            a < count,
            b < count,
        ensures
            r == dist(l, a, b),
        { distance(l, a, b) };
    assert(hnsw_layer::pair_agrees(pair, within_list(dist, l), count as nat));
    match HnswGraph::build_agreeing(
        vectors.as_slice(),
        count,
        d,
        metric,
        params,
        &pair,
        Ghost(within_list(dist, l)),
    ) {
        Ok(g) => Ok(Some(g)),
        Err(e) => Err(e),
    }
}

/// A list of `n` times nothing.
pub(crate) fn empty_slots(n: usize) -> (r: Vec<Option<HnswGraph>>)
    ensures
        graph_views(r@) == no_graphs(n as nat),
{
    let mut r: Vec<Option<HnswGraph>> = Vec::new();
    for i in 0..n
        invariant
            r@.len() == i,
            forall|k: int| 0 <= k < i ==> (#[trigger] r@[k]) is None,
    {
        r.push(None);
    }
    assert(graph_views(r@) =~= no_graphs(n as nat));
    r
}

} // verus!
