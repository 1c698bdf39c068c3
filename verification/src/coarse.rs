//! When rows go to their lists by an approximate search instead of a full one.
use crate::autotune::{
    DiskAnnBuildDistance, DiskAnnBuildParams, DiskAnnRawVectorEncoding, DiskAnnStorageLayout,
    ALPHA_WIDE,
};
use crate::kmeans;
use vstd::prelude::*;

verus! {

/// The width of the search for a list.
pub const APPROX_ASSIGN_SEARCH_LIST: usize = 15;

/// With fewer centroid values than this all centroids are compared.
pub const APPROX_ASSIGN_MIN_CENTROID_VALUES: usize = 1_000_000;

/// Tells whether there are so many centroid values that a search pays.
pub fn use_approximate_assignment(d: usize, nlist: usize) -> (r: bool)
    ensures
        r == (d * nlist >= APPROX_ASSIGN_MIN_CENTROID_VALUES),
{
    match d.checked_mul(nlist) {
        Some(values) => values >= APPROX_ASSIGN_MIN_CENTROID_VALUES,
        None => true,
    }
}

/// A graph of the centroids, where there is one, and whether one has been asked for since the last
/// training.
pub struct CoarseAssignment<G> {
    pub graph: Option<G>,
    pub build_attempted: bool,
}

impl<G> Default for CoarseAssignment<G> {
    fn default() -> (r: Self)
        ensures
            r.graph is None,
            !r.build_attempted,
    {
        CoarseAssignment { graph: None, build_attempted: false }
    }
}

/// How the graph of the centroids is built.
pub open spec fn assignment_graph_params() -> DiskAnnBuildParams {
    DiskAnnBuildParams {
        max_degree: 12,
        build_search_list_size: APPROX_ASSIGN_SEARCH_LIST,
        alpha: ALPHA_WIDE,
        seed: 42,
        memory_budget_bytes: 1_073_741_824,
        storage_layout: DiskAnnStorageLayout::Compact,
        raw_vector_encoding: DiskAnnRawVectorEncoding::F32,
        build_distance: DiskAnnBuildDistance::FullPrecision,
    }
}

/// The list of row `i`: with a graph the one that a search finds, or the first where it finds none;
/// without a graph the nearest.
pub open spec fn row_assigned<
    G,
    S: Fn(&G, usize) -> Option<usize>,
    F: Fn(usize) -> Vec<u32>,
>(graph: Option<G>, search: S, distances: F, i: usize, list: usize) -> bool {
    match graph {
        Some(g) => exists|found: Option<usize>| #[trigger]
            call_ensures(search, (&g, i), found) && list == (match found {
                Some(l) => l,
                None => 0,
            }),
        None => exists|row: Vec<u32>| #[trigger]
            call_ensures(distances, (i,), row) && kmeans::is_nearest(row@, list as int),
    }
}

impl<G> CoarseAssignment<G> {
    /// A graph is to be built: none has been asked for yet, and there are enough centroid values.
    pub open spec fn is_due(self, nlist: usize, d: usize) -> bool {
        !self.build_attempted && d * nlist >= APPROX_ASSIGN_MIN_CENTROID_VALUES
    }

    /// What becomes of it once a graph has been asked for: `build` gives one or none.
    pub open spec fn prepared<B: Fn(&Vec<u32>, DiskAnnBuildParams) -> Option<G>>(
        self,
        centroids: &Vec<u32>,
        nlist: usize,
        d: usize,
        build: B,
        after: Self,
    ) -> bool {
        &&& after.build_attempted
        &&& if self.is_due(nlist, d) {
            exists|built: Option<G>| #[trigger]
                call_ensures(build, (centroids, assignment_graph_params()), built) && after.graph == (
                match built {
                    Some(g) => Some(g),
                    None => self.graph,
                })
        } else {
            after.graph == self.graph
        }
    }

    pub fn reset(&mut self)
        ensures
            final(self).graph is None,
            !final(self).build_attempted,
    {
        self.graph = None;
        self.build_attempted = false;
    }

    /// Builds the graph of the centroids, if it is to be built now.
    pub fn prepare<B: Fn(&Vec<u32>, DiskAnnBuildParams) -> Option<G>>(
        &mut self,
        centroids: &Vec<u32>,
        nlist: usize,
        d: usize,
        build: &B,
    )
        requires
            old(self).is_due(nlist, d) ==> call_requires(
                *build,
                (centroids, assignment_graph_params()),
            ),
        ensures
            old(self).prepared(centroids, nlist, d, *build, *final(self)),
    {
        if self.build_attempted {
            return;
        }
        self.build_attempted = true;
        if !use_approximate_assignment(d, nlist) {
            return;
        }
        let params = DiskAnnBuildParams {
            max_degree: 12,
            build_search_list_size: APPROX_ASSIGN_SEARCH_LIST,
            alpha: ALPHA_WIDE,
            seed: 42,
            memory_budget_bytes: 1_073_741_824,
            storage_layout: DiskAnnStorageLayout::Compact,
            raw_vector_encoding: DiskAnnRawVectorEncoding::F32,
            build_distance: DiskAnnBuildDistance::FullPrecision,
        };
        let built: Option<G> = build(centroids, params);
        assert(call_ensures(*build, (centroids, assignment_graph_params()), built));
        match built {
            Some(g) => {
                self.graph = Some(g);
            },
            None => {},
        }
    }

    /// Finds the list of each of `n` rows. `search` looks for one with a graph, and `distances` gives
    /// the distances of a row to all centroids.
    pub fn assign<
        B: Fn(&Vec<u32>, DiskAnnBuildParams) -> Option<G>,
        S: Fn(&G, usize) -> Option<usize>,
        F: Fn(usize) -> Vec<u32>,
    >(
        &mut self,
        n: usize,
        centroids: &Vec<u32>,
        nlist: usize,
        d: usize,
        build: &B,
        search: &S,
        distances: &F,
    ) -> (r: Vec<usize>)
        requires
            old(self).is_due(nlist, d) ==> call_requires(
                *build,
                (centroids, assignment_graph_params()),
            ),
            forall|g: &G, i: usize| i < n ==> #[trigger] call_requires(*search, (g, i)),
            forall|i: usize| i < n ==> #[trigger] call_requires(*distances, (i,)),
        ensures
            old(self).prepared(centroids, nlist, d, *build, *final(self)),
            r@.len() == n,
            forall|i: usize|
                i < n ==> #[trigger] row_assigned(
                    final(self).graph,
                    *search,
                    *distances,
                    i,
                    r@[i as int],
                ),
    {
        self.prepare(centroids, nlist, d, build);
        let mut lists: Vec<usize> = Vec::new();
        for i in 0..n
            invariant
                forall|g: &G, i: usize| i < n ==> #[trigger] call_requires(*search, (g, i)),
                forall|i: usize| i < n ==> #[trigger] call_requires(*distances, (i,)),
                lists@.len() == i,
                forall|j: usize|
                    j < i ==> #[trigger] row_assigned(
                        self.graph,
                        *search,
                        *distances,
                        j,
                        lists@[j as int],
                    ),
        {
            let ghost before = lists@;
            let list: usize = match &self.graph {
                Some(g) => {
                    let found: Option<usize> = search(g, i);
                    match found {
                        Some(l) => l,
                        None => 0,
                    }
                },
                None => {
                    let row: Vec<u32> = distances(i);
                    kmeans::find_nearest(row.as_slice())
                },
            };
            lists.push(list);
            proof {
                assert(row_assigned(self.graph, *search, *distances, i, list));
                assert forall|j: usize| j < i + 1 implies #[trigger] row_assigned(
                    self.graph,
                    *search,
                    *distances,
                    j,
                    lists@[j as int],
                ) by {
                    if j < i {
                        assert(lists@[j as int] == before[j as int]);
                    }
                }
            }
        }
        lists
    }
}

/// How many rows a thread takes at a time: a quarter of its share, but from sixteen to a thousand and
/// twenty-four.
pub fn rows_per_task(n: usize, threads: usize) -> (r: usize)
    requires
        threads * 4 <= usize::MAX,
    ensures
        ({
            let share = if threads == 0 {
                n as int
            } else {
                n as int / (threads * 4)
            };
            r == (if share < 16 {
                16
            } else if share > 1024 {
                1024
            } else {
                share
            })
        }),
{
    let parts: usize = if threads == 0 {
        1
    } else {
        threads * 4
    };
    let share: usize = n / parts;
    if share < 16 {
        16
    } else if share > 1024 {
        1024
    } else {
        share
    }
}

} // verus!
