//! Searching the lists of an index without a filter.
use crate::ivf_search;
use crate::ivfhnswflat::IVFHNSWFlatIndex;
use crate::ivfhnswsq::IVFHNSWSQIndex;
use crate::ivfrq;
use crate::ivfrq::IVFRQIndex;
use crate::topk::Hit;
use std::collections::HashSet;
use vstd::prelude::*;

verus! {

impl IVFRQIndex {
    /// Searches the lists that each query probes.
    pub fn search<L: Fn(usize, usize, usize) -> u32, F: Fn(usize, usize, usize) -> u32>(
        &self,
        probes: &Vec<Vec<usize>>,
        k: usize,
        lower: &L,
        full: &F,
    ) -> (r: (Vec<i64>, Vec<u32>))
        requires
            self@.well_formed(),
            forall|q: int, j: int|
                0 <= q < probes@.len() && 0 <= j < probes@[q]@.len() ==> #[trigger] probes@[q]@[j]
                    < self@.nlist,
            ivf_search::gives_batch_distances(*lower, probes@.len(), self@.row_counts()),
            ivf_search::gives_batch_distances(*full, probes@.len(), self@.row_counts()),
        ensures
            ({
                let hits = ivfrq::pruned_picks(
                    ivf_search::probe_lists(probes@),
                    self.ids@,
                    k,
                    None::<&HashSet<i64>>,
                    ivf_search::batch_distances(*lower),
                    ivf_search::batch_distances(*full),
                );
                r.0@ == ivf_search::all_ids(hits, k) && r.1@ == ivf_search::all_dists(hits, k)
            }),
    {
        self.search_with_filter(probes, k, None::<&HashSet<i64>>, lower, full)
    }
}

impl IVFHNSWFlatIndex {
    /// Searches the lists that each query probes: through the graph where a list has one, vector by
    /// vector where it has none.
    pub fn search<F: Fn(usize, usize, usize) -> u32>(
        &self,
        probes: &Vec<Vec<usize>>,
        k: usize,
        ef_search: usize,
        distance: &F,
    ) -> (r: (Vec<i64>, Vec<u32>))
        requires
            self@.well_formed(),
            self@.graphs_match(),
            forall|q: int, j: int|
                0 <= q < probes@.len() && 0 <= j < probes@[q]@.len() ==> #[trigger] probes@[q]@[j]
                    < self@.flat.nlist,
            ivf_search::gives_batch_distances(*distance, probes@.len(), self@.row_counts()),
        ensures
            exists|hits: Seq<Seq<Hit>>|
                #[trigger] ivf_search::queries_searched(
                    ivf_search::probe_lists(probes@),
                    self.listed(),
                    k,
                    ef_search,
                    None::<&HashSet<i64>>,
                    ivf_search::batch_distances(*distance),
                    ivf_search::batch_distances(*distance),
                    false,
                    hits,
                ) && r.0@ == ivf_search::all_ids(hits, k) && r.1@ == ivf_search::all_dists(hits, k),
    {
        self.search_with_filter(probes, k, ef_search, None::<&HashSet<i64>>, distance)
    }
}

impl IVFHNSWSQIndex {
    /// Searches the lists that each query probes: through the graph where a list has one, code by
    /// code where it has none.
    pub fn search<F: Fn(usize, usize, usize) -> u32, S: Fn(usize, usize, usize) -> u32>(
        &self,
        probes: &Vec<Vec<usize>>,
        k: usize,
        ef_search: usize,
        graph_distance: &F,
        code_distance: &S,
    ) -> (r: (Vec<i64>, Vec<u32>))
        requires
            self@.well_formed(),
            self@.graphs_match(),
            forall|q: int, j: int|
                0 <= q < probes@.len() && 0 <= j < probes@[q]@.len() ==> #[trigger] probes@[q]@[j]
                    < self@.nlist,
            ivf_search::gives_batch_distances(*graph_distance, probes@.len(), self@.row_counts()),
            ivf_search::gives_batch_distances(*code_distance, probes@.len(), self@.row_counts()),
        ensures
            exists|hits: Seq<Seq<Hit>>|
                #[trigger] ivf_search::queries_searched(
                    ivf_search::probe_lists(probes@),
                    self.listed(),
                    k,
                    ef_search,
                    None::<&HashSet<i64>>,
                    ivf_search::batch_distances(*graph_distance),
                    ivf_search::batch_distances(*code_distance),
                    false,
                    hits,
                ) && r.0@ == ivf_search::all_ids(hits, k) && r.1@ == ivf_search::all_dists(hits, k),
    {
        self.search_with_filter(
            probes,
            k,
            ef_search,
            None::<&HashSet<i64>>,
            graph_distance,
            code_distance,
        )
    }
}

} // verus!
