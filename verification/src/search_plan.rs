//! How a search begins: what is asked for is checked, and each query picks its lists.
use crate::error::IndexError;
use crate::index_io_util;
use crate::ivf_lists;
use crate::ivf_search;
use crate::kmeans;
use crate::sort;
use vstd::prelude::*;

verus! {

/// The lists that each query looks into, the nearest first, and the lists to be read for all of
/// them.
pub struct SearchPlan {
    pub probes: Vec<Vec<usize>>,
    pub wanted: Vec<usize>,
}

/// The distances of each query to the centroids, as a function gives them.
pub open spec fn coarse_rows<F: Fn() -> Vec<Vec<u32>>>(f: F) -> Seq<Seq<u32>> {
    let found = choose|r: Vec<Vec<u32>>| #[trigger] call_ensures(f, (), r);
    ivf_lists::value_lists(found@)
}

/// The function gives a distance to each of `nlist` centroids for each of `nq` queries, always the
/// same and such that they can be put into order.
pub open spec fn gives_coarse_rows<F: Fn() -> Vec<Vec<u32>>>(f: F, nq: nat, nlist: nat) -> bool {
    &&& call_requires(f, ())
    &&& forall|r: Vec<Vec<u32>>| #[trigger]
        call_ensures(f, (), r) ==> {
            &&& ivf_lists::value_lists(r@) == coarse_rows(f)
            &&& r@.len() == nq
            &&& forall|q: int| 0 <= q < nq ==> (#[trigger] r@[q])@.len() == nlist
            &&& kmeans::rows_can_be_ordered(r@)
        }
}

/// The nearest lists of each query.
pub open spec fn nearest_lists(rows: Seq<Seq<u32>>, nprobe: usize) -> Seq<Seq<usize>> {
    Seq::new(rows.len(), |q: int| kmeans::nearest_first(rows[q], nprobe))
}

impl SearchPlan {
    /// Each query looks into its nearest lists, and each list that is looked into is read once.
    pub open spec fn follows(self, rows: Seq<Seq<u32>>, nprobe: usize) -> bool {
        &&& ivf_search::probe_lists(self.probes@) == nearest_lists(rows, nprobe)
        &&& self.wanted@ == ivf_search::lists_to_read(nearest_lists(rows, nprobe))
    }
}

fn plan_lists<F: Fn() -> Vec<Vec<u32>>>(
    nq: usize,
    nprobe: usize,
    nlist: usize,
    distances: &F,
) -> (r: SearchPlan)
    requires
        gives_coarse_rows(*distances, nq as nat, nlist as nat),
    ensures
        r.follows(coarse_rows(*distances), nprobe),
        r.probes@.len() == nq,
{
    let rows: Vec<Vec<u32>> = distances();
    let (probes, _) = kmeans::find_topk_batch(&rows, nprobe);
    proof {
        assert(ivf_search::probe_lists(probes@) =~= nearest_lists(coarse_rows(*distances), nprobe))
            by {
            assert forall|q: int| 0 <= q < rows@.len() implies ivf_search::probe_lists(probes@)[q]
                == nearest_lists(coarse_rows(*distances), nprobe)[q] by {
                assert(ivf_lists::value_lists(rows@)[q] == rows@[q]@);
            }
        }
        assert forall|q: int, j: int|
            0 <= q < probes@.len() && 0 <= j < probes@[q]@.len() implies #[trigger] probes@[q]@[j]
            < nlist by {
            assert(rows@[q]@.len() == nlist);
            sort::stable_order_facts(kmeans::distance_keys(rows@[q]@));
        }
    }
    let wanted: Vec<usize> = ivf_search::unique_lists(&probes, nlist);
    SearchPlan { probes, wanted }
}

/// Begins a search for several queries of `d` values each.
pub fn plan_batch<F: Fn() -> Vec<Vec<u32>>>(
    queries_len: usize,
    nq: usize,
    d: usize,
    k: usize,
    nprobe: usize,
    nlist: usize,
    distances: &F,
) -> (r: Result<SearchPlan, IndexError>)
    requires
        index_io_util::search_refused(queries_len as nat, nq, d, k, nprobe) is None
            ==> gives_coarse_rows(*distances, nq as nat, nlist as nat),
    ensures
        match index_io_util::search_refused(queries_len as nat, nq, d, k, nprobe) {
            Some(e) => r == Err::<SearchPlan, IndexError>(e),
            None => r matches Ok(plan) && plan.follows(coarse_rows(*distances), nprobe)
                && plan.probes@.len() == nq,
        },
{
    match index_io_util::validate_search_inputs(queries_len, nq, d, k, nprobe) {
        Ok(_) => Ok(plan_lists(nq, nprobe, nlist, distances)),
        Err(e) => Err(e),
    }
}

/// Begins a search for one query of `d` values.
pub fn plan_query<F: Fn() -> Vec<Vec<u32>>>(
    query_len: usize,
    d: usize,
    k: usize,
    nprobe: usize,
    nlist: usize,
    distances: &F,
) -> (r: Result<SearchPlan, IndexError>)
    requires
        index_io_util::query_refused(query_len, d, k, nprobe) is None ==> gives_coarse_rows(
            *distances,
            1,
            nlist as nat,
        ),
    ensures
        match index_io_util::query_refused(query_len, d, k, nprobe) {
            Some(e) => r == Err::<SearchPlan, IndexError>(e),
            None => r matches Ok(plan) && plan.follows(coarse_rows(*distances), nprobe)
                && plan.probes@.len() == 1,
        },
{
    match index_io_util::validate_query_inputs(query_len, d, k, nprobe) {
        Ok(_) => Ok(plan_lists(1, nprobe, nlist, distances)),
        Err(e) => Err(e),
    }
}

} // verus!
