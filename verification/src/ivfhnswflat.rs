use vstd::prelude::*;

use crate::distance::MetricType;
use crate::error::IndexError;
use crate::hnsw::{GraphModel, HnswBuildParams, HnswGraph};
use crate::hnsw_search;
use crate::hnsw_search::HnswSearchList;
use crate::ivf_search;
use crate::ivfflat::{FlatModel, IVFFlatIndex};
use crate::list_graphs;
use crate::row_id_filter::RowIdFilter;
use crate::topk::Hit;

verus! {

/// Vectors in inverted lists, with a graph over each list.
pub struct IVFHNSWFlatIndex {
    pub flat: IVFFlatIndex,
    pub graphs: Vec<Option<HnswGraph>>,
    pub hnsw_params: HnswBuildParams,
}

/// What an index of vectors with graphs holds.
#[verifier::ext_equal]
pub struct HnswFlatModel {
    pub flat: FlatModel,
    pub graphs: Seq<Option<GraphModel>>,
    pub hnsw_params: HnswBuildParams,
}

impl View for IVFHNSWFlatIndex {
    type V = HnswFlatModel;

    open spec fn view(&self) -> HnswFlatModel {
        HnswFlatModel {
            flat: self.flat@,
            graphs: list_graphs::graph_views(self.graphs@),
            hnsw_params: self.hnsw_params,
        }
    }
}

impl HnswFlatModel {
    pub open spec fn row_counts(self) -> Seq<nat> {
        Seq::new(self.flat.ids.len(), |i: int| self.flat.ids[i].len())
    }

    /// As many stored lists and graphs as the index has lists, and every graph is well formed.
    pub open spec fn well_formed(self) -> bool {
        &&& self.flat.ids.len() == self.flat.nlist
        &&& self.flat.vectors.len() == self.flat.nlist
        &&& self.graphs.len() == self.flat.nlist
        &&& list_graphs::graphs_well_formed(self.graphs)
    }

    /// What is there of graphs has a node for each row of its list.
    pub open spec fn graphs_match(self) -> bool {
        forall|i: int|
            0 <= i < self.graphs.len() ==> ((#[trigger] self.graphs[i]) matches Some(g)
                ==> g.levels.len() == self.flat.ids[i].len())
    }

    /// The graph of list `i` has grown over its vectors.
    pub open spec fn list_grown(
        self,
        dist: spec_fn(usize, usize, usize) -> u32,
        graphs: Seq<Option<GraphModel>>,
        i: int,
    ) -> bool {
        list_graphs::list_grown(
            self.flat.vectors[i],
            self.flat.ids[i].len(),
            self.flat.d,
            self.flat.metric,
            self.hnsw_params,
            list_graphs::within_list(dist, i as usize),
            graphs[i],
        )
    }
}

impl IVFHNSWFlatIndex {
    /// An index of `nlist` empty lists without graphs.
    pub fn new(
        d: usize,
        nlist: usize,
        metric: MetricType,
        hnsw_params: HnswBuildParams,
    ) -> (r: Self)
        ensures
            r@.well_formed(),
            r@.flat == (FlatModel {
                d,
                nlist,
                metric,
                centroids: Seq::empty(),
                ids: Seq::new(nlist as nat, |i: int| Seq::empty()),
                vectors: Seq::new(nlist as nat, |i: int| Seq::empty()),
            }),
            r@.graphs == list_graphs::no_graphs(nlist as nat),
            r@.hnsw_params == hnsw_params,
    {
        IVFHNSWFlatIndex {
            flat: IVFFlatIndex::new(d, nlist, metric),
            graphs: list_graphs::empty_slots(nlist),
            hnsw_params,
        }
    }

    /// Adds rows to the lists that they go to. The graphs are dropped: they no longer fit.
    pub fn add(&mut self, data: &Vec<u32>, ids: &Vec<i64>, assignments: &Vec<usize>)
        requires
            old(self)@.well_formed(),
            ids@.len() == assignments@.len(),
            data@.len() == assignments@.len() * old(self)@.flat.d,
            forall|i: int|
                0 <= i < assignments@.len() ==> #[trigger] assignments@[i] < old(self)@.flat.nlist,
        ensures
            final(self)@.well_formed(),
            final(self)@.flat == old(self)@.flat.with_rows(data@, ids@, assignments@),
            final(self)@.graphs == list_graphs::no_graphs(old(self)@.flat.nlist as nat),
            final(self)@.hnsw_params == old(self)@.hnsw_params,
    {
        self.flat.add(data, ids, assignments);
        self.graphs = list_graphs::empty_slots(self.flat.nlist);
    }

    /// Builds the graph of every list that is not empty. Where that fails for a list the lists
    /// behind it keep what they had.
    pub fn build_graphs<F: Fn(usize, usize, usize) -> u32>(&mut self, distance: &F) -> (r: Result<
        (),
        IndexError,
    >)
        requires
            old(self)@.well_formed(),
            list_graphs::gives_list_distances(*distance, old(self)@.row_counts()),
            list_graphs::degrees_fit(old(self)@.row_counts(), old(self)@.hnsw_params.m as int),
            forall|i: int|
                0 <= i < old(self)@.flat.nlist ==> (#[trigger] old(self)@.flat.ids[i]).len()
                    + 0x9E37_79B9_7F4A_7C15 <= u64::MAX,
        ensures
            final(self)@.well_formed(),
            final(self)@.flat == old(self)@.flat,
            final(self)@.hnsw_params == old(self)@.hnsw_params,
            match r {
                Ok(_) => forall|i: int|
                    0 <= i < old(self)@.flat.nlist ==> #[trigger] old(self)@.list_grown(
                        list_graphs::list_distances(*distance),
                        final(self)@.graphs,
                        i,
                    ),
                Err(e) => exists|at: int|
                    {
                        &&& 0 <= at < old(self)@.flat.nlist
                        &&& #[trigger] list_graphs::growth_refused(
                            old(self)@.flat.vectors[at],
                            old(self)@.flat.ids[at].len(),
                            old(self)@.flat.d,
                            e,
                        )
                        &&& forall|i: int|
                            0 <= i < at ==> #[trigger] old(self)@.list_grown(
                                list_graphs::list_distances(*distance),
                                final(self)@.graphs,
                                i,
                            )
                        &&& final(self)@.graphs.skip(at) == old(self)@.graphs.skip(at)
                    },
            },
    {
        let ghost start = self@;
        let ghost dist = list_graphs::list_distances(*distance);
        let ghost counts = start.row_counts();
        let nlist: usize = self.flat.nlist;
        for l in 0..nlist
            invariant
                start == old(self)@,
                start.well_formed(),
                dist == list_graphs::list_distances(*distance),
                counts == start.row_counts(),
                nlist == start.flat.nlist,
                list_graphs::gives_list_distances(*distance, counts),
                list_graphs::degrees_fit(counts, start.hnsw_params.m as int),
                forall|i: int|
                    0 <= i < nlist ==> (#[trigger] start.flat.ids[i]).len() + 0x9E37_79B9_7F4A_7C15
                        <= u64::MAX,
                self@.well_formed(),
                self@.flat == start.flat,
                self@.hnsw_params == start.hnsw_params,
                self@.graphs.skip(l as int) == start.graphs.skip(l as int),
                forall|i: int| 0 <= i < l ==> #[trigger] start.list_grown(dist, self@.graphs, i),
        {
            assert(start.flat.ids[l as int] == self.flat.ids@[l as int]@);
            assert(start.flat.vectors[l as int] == self.flat.vectors@[l as int]@);
            let count: usize = self.flat.ids[l].len();
            let built: Option<HnswGraph> = match list_graphs::build_list_graph(
                &self.flat.vectors[l],
                count,
                self.flat.d,
                self.flat.metric,
                self.hnsw_params,
                l,
                distance,
                Ghost(counts),
            ) {
                Ok(g) => g,
                Err(e) => {
                    assert(list_graphs::growth_refused(
                        start.flat.vectors[l as int],
                        start.flat.ids[l as int].len(),
                        start.flat.d,
                        e,
                    ));
                    return Err(e);
                },
            };
            let ghost before = self@;
            let ghost grown = list_graphs::graph_view(built);
            self.graphs.set(l, built);
            proof {
                assert(self@.graphs =~= before.graphs.update(l as int, grown));
                assert(self@.graphs.skip(l + 1) =~= before.graphs.skip(l as int).skip(1));
                assert(start.graphs.skip(l + 1) =~= start.graphs.skip(l as int).skip(1));
                assert forall|i: int| 0 <= i < l + 1 implies #[trigger] start.list_grown(
                    dist,
                    self@.graphs,
                    i,
                ) by {
                    if i < l {
                        assert(start.list_grown(dist, before.graphs, i));
                    }
                }
                assert forall|i: int| 0 <= i < self@.graphs.len() implies ((
                #[trigger] self@.graphs[i]) matches Some(g) ==> g.well_formed()) by {
                    if i != l {
                        assert(before.graphs[i] == self@.graphs[i]);
                    }
                }
            }
        }
        Ok(())
    }

    /// The lists, to be searched.
    fn search_lists(&self) -> (r: Vec<HnswSearchList<'_>>)
        requires
            self@.well_formed(),
            self@.graphs_match(),
        ensures
            r@ == self.listed(),
            hnsw_search::all_well_formed(r@),
    {
        let mut r: Vec<HnswSearchList<'_>> = Vec::new();
        let nlist: usize = self.flat.nlist;
        for l in 0..nlist
            invariant
                nlist == self@.flat.nlist,
                self@.well_formed(),
                self@.graphs_match(),
                r@ == self.listed().take(l as int),
                hnsw_search::all_well_formed(r@),
        {
            assert(self@.flat.ids[l as int] == self.flat.ids@[l as int]@);
            assert(self@.graphs[l as int] == list_graphs::graph_view(self.graphs@[l as int]));
            let list = HnswSearchList {
                ids: &self.flat.ids[l],
                graph: match &self.graphs[l] {
                    Some(g) => Some(g),
                    None => None,
                },
            };
            assert(list@.well_formed());
            r.push(list);
            assert(r@ =~= self.listed().take(l + 1));
        }
        assert(r@ =~= self.listed());
        r
    }

    pub open spec fn listed(&self) -> Seq<HnswSearchList<'_>> {
        Seq::new(
            self.flat.nlist as nat,
            |l: int|
                HnswSearchList {
                    ids: &self.flat.ids@[l],
                    graph: match self.graphs@[l] {
                        Some(g) => Some(&g),
                        None => None,
                    },
                },
        )
    }

    /// Searches the lists that each query probes: through the graph where a list has one, row by
    /// row where it has none.
    pub fn search_with_filter<T: RowIdFilter, F: Fn(usize, usize, usize) -> u32>(
        &self,
        probes: &Vec<Vec<usize>>,
        k: usize,
        ef_search: usize,
        filter: Option<&T>,
        distance: &F,
    ) -> (r: (Vec<i64>, Vec<u32>))
        requires
            self@.well_formed(),
            self@.graphs_match(),
            forall|q: int, j: int|
                0 <= q < probes@.len() && 0 <= j < probes@[q]@.len() ==> #[trigger] probes@[q]@[j]
                    < self@.flat.nlist,
            ivf_search::gives_batch_distances(*distance, probes@.len(), self@.row_counts()),
        ensures
            exists|hits: Seq<Seq<Hit>>|
                #[trigger] ivf_search::queries_searched(
                    ivf_search::probe_lists(probes@),
                    self.listed(),
                    k,
                    ef_search,
                    filter,
                    ivf_search::batch_distances(*distance),
                    ivf_search::batch_distances(*distance),
                    false,
                    hits,
                ) && r.0@ == ivf_search::all_ids(hits, k) && r.1@ == ivf_search::all_dists(hits, k),
    {
        let lists: Vec<HnswSearchList<'_>> = self.search_lists();
        assert(ivf_search::graph_row_counts(lists@) =~= self@.row_counts());
        ivf_search::search_hnsw_picks(
            probes,
            &lists,
            k,
            ef_search,
            filter,
            distance,
            distance,
            false,
        )
    }
}

} // verus!
