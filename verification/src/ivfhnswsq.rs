use vstd::prelude::*;

use crate::distance::MetricType;
use crate::error::IndexError;
use crate::hnsw::{GraphModel, HnswBuildParams, HnswGraph};
use crate::hnsw_search;
use crate::hnsw_search::HnswSearchList;
use crate::ivf_lists;
use crate::ivf_search;
use crate::list_graphs;
use crate::row_id_filter::RowIdFilter;
use crate::sq;
use crate::sq::{ScalarQuantizer, SqBounds};
use crate::topk::Hit;

verus! {

/// Codes of vectors in inverted lists, with a graph over the vectors that the codes of a list
/// stand for.
pub struct IVFHNSWSQIndex {
    pub d: usize,
    pub nlist: usize,
    pub metric: MetricType,
    pub quantizer_centroids: Vec<u32>,
    pub sq: ScalarQuantizer,
    pub list_sqs: Vec<ScalarQuantizer>,
    pub ids: Vec<Vec<i64>>,
    pub codes: Vec<Vec<u8>>,
    pub graphs: Vec<Option<HnswGraph>>,
    pub hnsw_params: HnswBuildParams,
}

/// What an index of codes with graphs holds.
#[verifier::ext_equal]
pub struct HnswSqModel {
    pub d: usize,
    pub nlist: usize,
    pub metric: MetricType,
    pub centroids: Seq<u32>,
    pub sq: SqBounds,
    pub list_sqs: Seq<SqBounds>,
    pub ids: Seq<Seq<i64>>,
    pub codes: Seq<Seq<u8>>,
    pub graphs: Seq<Option<GraphModel>>,
    pub hnsw_params: HnswBuildParams,
}

pub open spec fn bounds_of(sqs: Seq<ScalarQuantizer>) -> Seq<SqBounds> {
    Seq::new(sqs.len(), |i: int| sqs[i]@)
}

impl View for IVFHNSWSQIndex {
    type V = HnswSqModel;

    open spec fn view(&self) -> HnswSqModel {
        HnswSqModel {
            d: self.d,
            nlist: self.nlist,
            metric: self.metric,
            centroids: self.quantizer_centroids@,
            sq: self.sq@,
            list_sqs: bounds_of(self.list_sqs@),
            ids: ivf_lists::id_lists(self.ids@),
            codes: ivf_lists::byte_lists(self.codes@),
            graphs: list_graphs::graph_views(self.graphs@),
            hnsw_params: self.hnsw_params,
        }
    }
}

impl HnswSqModel {
    pub open spec fn row_counts(self) -> Seq<nat> {
        Seq::new(self.ids.len(), |i: int| self.ids[i].len())
    }

    /// As many stored lists and graphs as the index has lists, and every graph is well formed.
    pub open spec fn well_formed(self) -> bool {
        &&& self.ids.len() == self.nlist
        &&& self.codes.len() == self.nlist
        &&& self.graphs.len() == self.nlist
        &&& list_graphs::graphs_well_formed(self.graphs)
    }

    /// What is there of graphs has a node for each row of its list.
    pub open spec fn graphs_match(self) -> bool {
        forall|i: int|
            0 <= i < self.graphs.len() ==> ((#[trigger] self.graphs[i]) matches Some(g)
                ==> g.levels.len() == self.ids[i].len())
    }

    /// The graph of list `i` has grown over the vectors that its codes stand for.
    pub open spec fn list_grown<D: Fn(usize, &Vec<u8>) -> Vec<u32>>(
        self,
        decode: D,
        dist: spec_fn(usize, usize, usize) -> u32,
        graphs: Seq<Option<GraphModel>>,
        i: int,
    ) -> bool {
        &&& sq::decoded(decode, i as usize, self.codes[i]).len() == self.codes[i].len()
        &&& list_graphs::list_grown(
            sq::decoded(decode, i as usize, self.codes[i]),
            self.ids[i].len(),
            self.d,
            self.metric,
            self.hnsw_params,
            list_graphs::within_list(dist, i as usize),
            graphs[i],
        )
    }

    /// The index after rows have been added to the lists that they go to.
    pub open spec fn with_rows(
        self,
        codes: Seq<u8>,
        ids: Seq<i64>,
        assignments: Seq<usize>,
    ) -> HnswSqModel {
        HnswSqModel {
            ids: ivf_lists::extended(self.ids, ids, 1, assignments),
            codes: ivf_lists::extended(self.codes, codes, self.sq.d as nat, assignments),
            graphs: list_graphs::no_graphs(self.nlist as nat),
            ..self
        }
    }
}

impl IVFHNSWSQIndex {
    /// An index of `nlist` empty lists without graphs, with the given quantizer.
    pub fn new(
        d: usize,
        nlist: usize,
        metric: MetricType,
        hnsw_params: HnswBuildParams,
        sq: ScalarQuantizer,
    ) -> (r: Self)
        ensures
            r@.well_formed(),
            r@ == (HnswSqModel {
                d,
                nlist,
                metric,
                centroids: Seq::empty(),
                sq: sq@,
                list_sqs: Seq::empty(),
                ids: Seq::new(nlist as nat, |i: int| Seq::empty()),
                codes: Seq::new(nlist as nat, |i: int| Seq::empty()),
                graphs: list_graphs::no_graphs(nlist as nat),
                hnsw_params,
            }),
    {
        let mut ids: Vec<Vec<i64>> = Vec::new();
        let mut codes: Vec<Vec<u8>> = Vec::new();
        for i in 0..nlist
            invariant
                ids@.len() == i,
                codes@.len() == i,
                forall|k: int| 0 <= k < i ==> (#[trigger] ids@[k])@.len() == 0,
                forall|k: int| 0 <= k < i ==> (#[trigger] codes@[k])@.len() == 0,
        {
            ids.push(Vec::new());
            codes.push(Vec::new());
        }
        let graphs: Vec<Option<HnswGraph>> = list_graphs::empty_slots(nlist);
        let r = IVFHNSWSQIndex {
            d,
            nlist,
            metric,
            quantizer_centroids: Vec::new(),
            sq,
            list_sqs: Vec::new(),
            ids,
            codes,
            graphs,
            hnsw_params,
        };
        proof {
            assert(r@.ids =~= Seq::new(nlist as nat, |i: int| Seq::<i64>::empty())) by {
                assert forall|i: int| 0 <= i < nlist implies r@.ids[i] == Seq::<i64>::empty() by {
                    assert(ids@[i]@.len() == 0);
                    assert(r@.ids[i] =~= Seq::<i64>::empty());
                }
            }
            assert(r@.codes =~= Seq::new(nlist as nat, |i: int| Seq::<u8>::empty())) by {
                assert forall|i: int| 0 <= i < nlist implies r@.codes[i] == Seq::<u8>::empty() by {
                    assert(codes@[i]@.len() == 0);
                    assert(r@.codes[i] =~= Seq::<u8>::empty());
                }
            }
            assert(r@.list_sqs =~= Seq::<SqBounds>::empty());
        }
        r
    }

    /// Adds the codes of rows to the lists that the rows go to. The graphs are dropped: they no
    /// longer fit.
    pub fn add(&mut self, codes: &Vec<u8>, ids: &Vec<i64>, assignments: &Vec<usize>)
        requires
            old(self)@.well_formed(),
            ids@.len() == assignments@.len(),
            codes@.len() == assignments@.len() * old(self)@.sq.d,
            forall|i: int|
                0 <= i < assignments@.len() ==> #[trigger] assignments@[i] < old(self)@.nlist,
        ensures
            final(self)@.well_formed(),
            final(self)@ == old(self)@.with_rows(codes@, ids@, assignments@),
    {
        let ghost before = self@;
        assert(ivf_lists::id_lists(self.ids@) =~= ivf_lists::all_lists(self.ids@));
        assert(ivf_lists::byte_lists(self.codes@) =~= ivf_lists::all_lists(self.codes@));
        let width: usize = self.sq.code_size();
        ivf_lists::append_assigned(&mut self.ids, ids, 1, assignments);
        ivf_lists::append_assigned(&mut self.codes, codes, width, assignments);
        self.graphs = list_graphs::empty_slots(self.nlist);
        proof {
            assert(ivf_lists::id_lists(self.ids@) =~= ivf_lists::all_lists(self.ids@));
            assert(ivf_lists::byte_lists(self.codes@) =~= ivf_lists::all_lists(self.codes@));
            assert(self@ =~= before.with_rows(codes@, ids@, assignments@));
        }
    }

    /// How many rows the lists hold together.
    pub fn total_vectors(&self) -> (r: usize)
        requires
            ivf_lists::total_rows(self@.ids) <= usize::MAX,
        ensures
            r == ivf_lists::total_rows(self@.ids),
    {
        let ghost all = ivf_lists::id_lists(self.ids@);
        let mut sum: usize = 0;
        assert(all.take(0) =~= Seq::<Seq<i64>>::empty());
        for i in 0..self.ids.len()
            invariant
                all == ivf_lists::id_lists(self.ids@),
                ivf_lists::total_rows(all) <= usize::MAX,
                sum == ivf_lists::total_rows(all.take(i as int)),
        {
            proof {
                assert(all.take(i + 1).drop_last() =~= all.take(i as int));
                assert(all[i as int] == self.ids@[i as int]@);
                ivf_lists::lemma_total_prefix(all, i + 1);
            }
            sum = sum + self.ids[i].len();
        }
        assert(all.take(all.len() as int) =~= all);
        sum
    }

    /// Builds the graph of every list that is not empty, over the vectors that its codes stand
    /// for. Where that fails for a list the lists behind it keep what they had.
    pub fn build_graphs<
        D: Fn(usize, &Vec<u8>) -> Vec<u32>,
        F: Fn(usize, usize, usize) -> u32,
    >(&mut self, decode: &D, distance: &F) -> (r: Result<(), IndexError>)
        requires
            old(self)@.well_formed(),
            sq::is_decoder(*decode, old(self)@.nlist as nat),
            list_graphs::gives_list_distances(*distance, old(self)@.row_counts()),
            list_graphs::degrees_fit(old(self)@.row_counts(), old(self)@.hnsw_params.m as int),
            forall|i: int|
                0 <= i < old(self)@.nlist ==> (#[trigger] old(self)@.ids[i]).len()
                    + 0x9E37_79B9_7F4A_7C15 <= u64::MAX,
        ensures
            final(self)@.well_formed(),
            final(self)@ == (HnswSqModel { graphs: final(self)@.graphs, ..old(self)@ }),
            match r {
                Ok(_) => forall|i: int|
                    0 <= i < old(self)@.nlist ==> #[trigger] old(self)@.list_grown(
                        *decode,
                        list_graphs::list_distances(*distance),
                        final(self)@.graphs,
                        i,
                    ),
                Err(e) => exists|at: int|
                    {
                        &&& 0 <= at < old(self)@.nlist
                        &&& #[trigger] list_graphs::growth_refused(
                            sq::decoded(*decode, at as usize, old(self)@.codes[at]),
                            old(self)@.ids[at].len(),
                            old(self)@.d,
                            e,
                        )
                        &&& sq::decoded(*decode, at as usize, old(self)@.codes[at]).len()
                            == old(self)@.codes[at].len()
                        &&& forall|i: int|
                            0 <= i < at ==> #[trigger] old(self)@.list_grown(
                                *decode,
                                list_graphs::list_distances(*distance),
                                final(self)@.graphs,
                                i,
                            )
                        &&& final(self)@.graphs.skip(at) == old(self)@.graphs.skip(at)
                    },
            },
    {
        let ghost start = self@;
        let ghost dist = list_graphs::list_distances(*distance);
        let ghost counts = start.row_counts();
        let nlist: usize = self.nlist;
        for l in 0..nlist
            invariant
                start == old(self)@,
                start.well_formed(),
                sq::is_decoder(*decode, start.nlist as nat),
                dist == list_graphs::list_distances(*distance),
                counts == start.row_counts(),
                nlist == start.nlist,
                list_graphs::gives_list_distances(*distance, counts),
                list_graphs::degrees_fit(counts, start.hnsw_params.m as int),
                forall|i: int|
                    0 <= i < nlist ==> (#[trigger] start.ids[i]).len() + 0x9E37_79B9_7F4A_7C15
                        <= u64::MAX,
                self@.well_formed(),
                self@ == (HnswSqModel { graphs: self@.graphs, ..start }),
                self@.graphs.skip(l as int) == start.graphs.skip(l as int),
                forall|i: int|
                    0 <= i < l ==> #[trigger] start.list_grown(*decode, dist, self@.graphs, i),
        {
            assert(start.ids[l as int] == self.ids@[l as int]@);
            assert(start.codes[l as int] == self.codes@[l as int]@);
            let count: usize = self.ids[l].len();
            let vectors: Vec<u32> = decode(l, &self.codes[l]);
            let built: Option<HnswGraph> = match list_graphs::build_list_graph(
                &vectors,
                count,
                self.d,
                self.metric,
                self.hnsw_params,
                l,
                distance,
                Ghost(counts),
            ) {
                Ok(g) => g,
                Err(e) => {
                    assert(list_graphs::growth_refused(
                        sq::decoded(*decode, l, start.codes[l as int]),
                        start.ids[l as int].len(),
                        start.d,
                        e,
                    ));
                    return Err(e);
                },
            };
            let ghost before = self@;
            let ghost grown = list_graphs::graph_view(built);
            self.graphs.set(l, built);
            proof {
                assert(self@.graphs =~= before.graphs.update(l as int, grown));
                assert(self@.graphs.skip(l + 1) =~= before.graphs.skip(l as int).skip(1));
                assert(start.graphs.skip(l + 1) =~= start.graphs.skip(l as int).skip(1));
                assert forall|i: int| 0 <= i < l + 1 implies #[trigger] start.list_grown(
                    *decode,
                    dist,
                    self@.graphs,
                    i,
                ) by {
                    if i < l {
                        assert(start.list_grown(*decode, dist, before.graphs, i));
                    }
                }
                assert forall|i: int| 0 <= i < self@.graphs.len() implies ((
                #[trigger] self@.graphs[i]) matches Some(g) ==> g.well_formed()) by {
                    if i != l {
                        assert(before.graphs[i] == self@.graphs[i]);
                    }
                }
            }
        }
        Ok(())
    }

    /// The lists, to be searched.
    fn search_lists(&self) -> (r: Vec<HnswSearchList<'_>>)
        requires
            self@.well_formed(),
            self@.graphs_match(),
        ensures
            r@ == self.listed(),
            hnsw_search::all_well_formed(r@),
    {
        let mut r: Vec<HnswSearchList<'_>> = Vec::new();
        let nlist: usize = self.nlist;
        for l in 0..nlist
            invariant
                nlist == self@.nlist,
                self@.well_formed(),
                self@.graphs_match(),
                r@ == self.listed().take(l as int),
                hnsw_search::all_well_formed(r@),
        {
            assert(self@.ids[l as int] == self.ids@[l as int]@);
            assert(self@.graphs[l as int] == list_graphs::graph_view(self.graphs@[l as int]));
            let list = HnswSearchList {
                ids: &self.ids[l],
                graph: match &self.graphs[l] {
                    Some(g) => Some(g),
                    None => None,
                },
            };
            assert(list@.well_formed());
            r.push(list);
            assert(r@ =~= self.listed().take(l + 1));
        }
        assert(r@ =~= self.listed());
        r
    }

    pub open spec fn listed(&self) -> Seq<HnswSearchList<'_>> {
        Seq::new(
            self.nlist as nat,
            |l: int|
                HnswSearchList {
                    ids: &self.ids@[l],
                    graph: match self.graphs@[l] {
                        Some(g) => Some(&g),
                        None => None,
                    },
                },
        )
    }

    /// Searches the lists that each query probes: through the graph where a list has one, code by
    /// code where it has none. `graph_distance` is that to a decoded vector, `code_distance` that
    /// to a code.
    pub fn search_with_filter<
        T: RowIdFilter,
        F: Fn(usize, usize, usize) -> u32,
        S: Fn(usize, usize, usize) -> u32,
    >(
        &self,
        probes: &Vec<Vec<usize>>,
        k: usize,
        ef_search: usize,
        filter: Option<&T>,
        graph_distance: &F,
        code_distance: &S,
    ) -> (r: (Vec<i64>, Vec<u32>))
        requires
            self@.well_formed(),
            self@.graphs_match(),
            forall|q: int, j: int|
                0 <= q < probes@.len() && 0 <= j < probes@[q]@.len() ==> #[trigger] probes@[q]@[j]
                    < self@.nlist,
            ivf_search::gives_batch_distances(*graph_distance, probes@.len(), self@.row_counts()),
            ivf_search::gives_batch_distances(*code_distance, probes@.len(), self@.row_counts()),
        ensures
            exists|hits: Seq<Seq<Hit>>|
                #[trigger] ivf_search::queries_searched(
                    ivf_search::probe_lists(probes@),
                    self.listed(),
                    k,
                    ef_search,
                    filter,
                    ivf_search::batch_distances(*graph_distance),
                    ivf_search::batch_distances(*code_distance),
                    false,
                    hits,
                ) && r.0@ == ivf_search::all_ids(hits, k) && r.1@ == ivf_search::all_dists(hits, k),
    {
        let lists: Vec<HnswSearchList<'_>> = self.search_lists();
        assert(ivf_search::graph_row_counts(lists@) =~= self@.row_counts());
        ivf_search::search_hnsw_picks(
            probes,
            &lists,
            k,
            ef_search,
            filter,
            graph_distance,
            code_distance,
            false,
        )
    }
}

} // verus!
