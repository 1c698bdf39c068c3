//! What indexes hold, told by the rows that were added, and in which order files hold them.
use vstd::prelude::*;

use crate::clustering_law;
use crate::float_bits;
use crate::graph_reorder;
use crate::hnsw::{GraphModel, HnswBuildParams};
use crate::distance::MetricType;
use crate::index::VectorIndexWriter;
use crate::index_write::RowCoding;
use crate::ivf_lists;
use crate::ivf_search;
use crate::ivfflat::FlatModel;
use crate::ivfhnswsq::HnswSqModel;
use crate::ivfrq::{RQCodeFactors, RqModel};
use crate::kmeans;
use crate::search_plan::SearchPlan;
use crate::sort;
use crate::writer_law;

verus! {

/// Row `r` of rows that are `width` long.
pub open spec fn part_at<T>(items: Seq<T>, width: usize, r: int) -> Seq<T> {
    items.subrange(r * width, r * width + width)
}

/// Row `r` of what was added stands in list `l` behind what was there before.
pub open spec fn is_held<T>(
    before_ids: Seq<Seq<i64>>,
    after_ids: Seq<Seq<i64>>,
    after: Seq<Seq<T>>,
    width: usize,
    id: i64,
    row: Seq<T>,
    l: usize,
    p: int,
) -> bool {
    &&& before_ids[l as int].len() <= p < after_ids[l as int].len()
    &&& after_ids[l as int][p] == id
    &&& after[l as int].subrange(p * width, p * width + width) == row
}

proof fn lemma_row_is_held<T>(
    ids: Seq<Seq<i64>>,
    items: Seq<Seq<T>>,
    width: usize,
    more_ids: Seq<i64>,
    more: Seq<T>,
    lists: Seq<usize>,
    r: int,
)
    requires
        ids.len() == items.len(),
        0 <= r < lists.len() <= usize::MAX,
        lists[r] < ids.len(),
        more_ids.len() == lists.len(),
        more.len() == lists.len() * width,
        items[lists[r] as int].len() == ids[lists[r] as int].len() * width,
    ensures
        exists|p: int| #[trigger]
            is_held(
                ids,
                ivf_lists::extended(ids, more_ids, 1, lists),
                ivf_lists::extended(items, more, width as nat, lists),
                width,
                more_ids[r],
                part_at(more, width, r),
                lists[r],
                p,
            ),
        ids[lists[r] as int].is_prefix_of(
            ivf_lists::extended(ids, more_ids, 1, lists)[lists[r] as int],
        ),
        items[lists[r] as int].is_prefix_of(
            ivf_lists::extended(items, more, width as nat, lists)[lists[r] as int],
        ),
{
    let l = lists[r];
    let rows = ivf_lists::rows_for(lists, l);
    clustering_law::rows_are_listed_in_order(lists, l);
    ivf_lists::each_row_goes_to_its_list(lists, l, r as usize);
    clustering_law::gathered_rows_are_kept(more_ids, 1, rows, lists.len());
    clustering_law::gathered_rows_are_kept(more, width as nat, rows, lists.len());
    let new_ids = ivf_lists::gathered(more_ids, 1, rows);
    let new_items = ivf_lists::gathered(more, width as nat, rows);
    assert(rows.contains(r as usize));
    let j = choose|j: int| 0 <= j < rows.len() && rows[j] == r as usize;
    let after_ids = ivf_lists::extended(ids, more_ids, 1, lists);
    let after = ivf_lists::extended(items, more, width as nat, lists);
    let old = ids[l as int].len() as int;
    let p = old + j;
    assert(new_ids.subrange(j * 1, j * 1 + 1) == more_ids.subrange(rows[j] * 1, rows[j] * 1 + 1));
    assert(new_ids.subrange(j * 1, j * 1 + 1)[0] == new_ids[j]);
    assert(more_ids.subrange(r * 1, r * 1 + 1)[0] == more_ids[r]);
    assert(after_ids[l as int][p] == more_ids[r]);
    let w = width as int;
    ivf_lists::lemma_row_bounds(rows.len(), w as nat, j);
    assert(p * w == old * w + j * w && 0 <= old * w) by (nonlinear_arith)
        requires
            p == old + j,
            old >= 0,
            w >= 0,
    ;
    assert(after[l as int].subrange(p * w, p * w + w) =~= new_items.subrange(j * w, j * w + w));
    assert(is_held(
        ids,
        after_ids,
        after,
        width,
        more_ids[r],
        part_at(more, width, r),
        l,
        p,
    ));
    assert(ids[l as int] =~= after_ids[l as int].take(old));
    assert(items[l as int] =~= after[l as int].take(items[l as int].len() as int));
}

/// Vectors that are added to lists of vectors: each stands with its id in the list that it was
/// assigned to.
pub proof fn added_vectors_are_in_their_lists(
    before: FlatModel,
    data: Seq<u32>,
    ids: Seq<i64>,
    assignments: Seq<usize>,
    r: int,
)
    requires
        before.ids.len() == before.vectors.len(),
        0 <= r < assignments.len() <= usize::MAX,
        assignments[r] < before.ids.len(),
        ids.len() == assignments.len(),
        data.len() == assignments.len() * before.d,
        before.vectors[assignments[r] as int].len() == before.ids[assignments[r] as int].len()
            * before.d,
    ensures
        ({
            let after = before.with_rows(data, ids, assignments);
            &&& after.d == before.d
            &&& after.nlist == before.nlist
            &&& after.metric == before.metric
            &&& after.centroids == before.centroids
            &&& exists|p: int| #[trigger]
                is_held(
                    before.ids,
                    after.ids,
                    after.vectors,
                    before.d,
                    ids[r],
                    part_at(data, before.d, r),
                    assignments[r],
                    p,
                )
        }),
{
    lemma_row_is_held(before.ids, before.vectors, before.d, ids, data, assignments, r);
    let after = before.with_rows(data, ids, assignments);
    let p = choose|p: int| #[trigger]
        is_held(
            before.ids,
            ivf_lists::extended(before.ids, ids, 1, assignments),
            ivf_lists::extended(before.vectors, data, before.d as nat, assignments),
            before.d,
            ids[r],
            part_at(data, before.d, r),
            assignments[r],
            p,
        );
    assert(is_held(
        before.ids,
        after.ids,
        after.vectors,
        before.d,
        ids[r],
        part_at(data, before.d, r),
        assignments[r],
        p,
    ));
}

/// Codes that are added to lists of codes: each stands with its id in the list that its vector was
/// assigned to, and no graph is kept that does not know of it.
pub proof fn added_codes_are_in_their_lists(
    before: HnswSqModel,
    codes: Seq<u8>,
    ids: Seq<i64>,
    assignments: Seq<usize>,
    r: int,
)
    requires
        before.ids.len() == before.codes.len(),
        before.sq.d == before.d,
        0 <= r < assignments.len() <= usize::MAX,
        assignments[r] < before.ids.len(),
        ids.len() == assignments.len(),
        codes.len() == assignments.len() * before.d,
        before.codes[assignments[r] as int].len() == before.ids[assignments[r] as int].len()
            * before.d,
    ensures
        ({
            let after = before.with_rows(codes, ids, assignments);
            &&& after.d == before.d
            &&& after.nlist == before.nlist
            &&& after.centroids == before.centroids
            &&& after.sq == before.sq
            &&& after.list_sqs == before.list_sqs
            &&& forall|i: int|
                0 <= i < after.graphs.len() ==> (#[trigger] after.graphs[i]) is None
            &&& exists|p: int| #[trigger]
                is_held(
                    before.ids,
                    after.ids,
                    after.codes,
                    before.d,
                    ids[r],
                    part_at(codes, before.d, r),
                    assignments[r],
                    p,
                )
        }),
{
    lemma_row_is_held(before.ids, before.codes, before.d, ids, codes, assignments, r);
    let after = before.with_rows(codes, ids, assignments);
    let p = choose|p: int| #[trigger]
        is_held(
            before.ids,
            ivf_lists::extended(before.ids, ids, 1, assignments),
            ivf_lists::extended(before.codes, codes, before.d as nat, assignments),
            before.d,
            ids[r],
            part_at(codes, before.d, r),
            assignments[r],
            p,
        );
    assert(is_held(
        before.ids,
        after.ids,
        after.codes,
        before.d,
        ids[r],
        part_at(codes, before.d, r),
        assignments[r],
        p,
    ));
}

/// One-bit codes that are added: each stands with its id and its factors in the list that its
/// vector was assigned to, at the same place.
pub proof fn added_bits_are_in_their_lists(
    before: RqModel,
    codes: Seq<u8>,
    factors: Seq<RQCodeFactors>,
    ids: Seq<i64>,
    assignments: Seq<usize>,
    r: int,
)
    requires
        before.well_formed(),
        0 <= r < assignments.len() <= usize::MAX,
        assignments[r] < before.nlist,
        ids.len() == assignments.len(),
        factors.len() == assignments.len(),
        codes.len() == assignments.len() * ((before.d + 7) / 8),
        before.codes[assignments[r] as int].len() == before.ids[assignments[r] as int].len() * ((
        before.d + 7) / 8),
        before.factors[assignments[r] as int].len() == before.ids[assignments[r] as int].len(),
    ensures
        ({
            let after = before.with_rows(codes, factors, ids, assignments);
            let l = assignments[r];
            let width = (before.d + 7) / 8;
            exists|p: int| #[trigger]
                is_coded_at(before, after, ids[r], factors[r], codes.subrange(
                    r * width,
                    r * width + width,
                ), l, p)
        }),
{
    let l = assignments[r];
    let width = ((before.d + 7) / 8) as usize;
    let after = before.with_rows(codes, factors, ids, assignments);
    lemma_row_is_held(before.ids, before.codes, width, ids, codes, assignments, r);
    let rows = ivf_lists::rows_for(assignments, l);
    clustering_law::rows_are_listed_in_order(assignments, l);
    ivf_lists::each_row_goes_to_its_list(assignments, l, r as usize);
    assert(rows.contains(r as usize));
    let j = choose|j: int| 0 <= j < rows.len() && rows[j] == r as usize;
    let old = before.ids[l as int].len() as int;
    let p = old + j;
    clustering_law::gathered_rows_are_kept(ids, 1, rows, assignments.len());
    clustering_law::gathered_rows_are_kept(factors, 1, rows, assignments.len());
    clustering_law::gathered_rows_are_kept(codes, width as nat, rows, assignments.len());
    let new_ids = ivf_lists::gathered(ids, 1, rows);
    let new_factors = ivf_lists::gathered(factors, 1, rows);
    let new_codes = ivf_lists::gathered(codes, width as nat, rows);
    assert(new_ids.subrange(j * 1, j * 1 + 1) == ids.subrange(rows[j] * 1, rows[j] * 1 + 1));
    assert(new_ids.subrange(j * 1, j * 1 + 1)[0] == new_ids[j]);
    assert(ids.subrange(r * 1, r * 1 + 1)[0] == ids[r]);
    assert(new_factors.subrange(j * 1, j * 1 + 1) == factors.subrange(
        rows[j] * 1,
        rows[j] * 1 + 1,
    ));
    assert(new_factors.subrange(j * 1, j * 1 + 1)[0] == new_factors[j]);
    assert(factors.subrange(r * 1, r * 1 + 1)[0] == factors[r]);
    let w = width as int;
    ivf_lists::lemma_row_bounds(rows.len(), w as nat, j);
    assert(p * w == old * w + j * w && 0 <= old * w) by (nonlinear_arith)
        requires
            p == old + j,
            old >= 0,
            w >= 0,
    ;
    assert(after.codes[l as int].subrange(p * w, p * w + w) =~= new_codes.subrange(
        j * w,
        j * w + w,
    ));
    assert(is_coded_at(
        before,
        after,
        ids[r],
        factors[r],
        codes.subrange(r * w, r * w + w),
        l,
        p,
    ));
}

pub open spec fn is_coded_at(
    before: RqModel,
    after: RqModel,
    id: i64,
    factors: RQCodeFactors,
    code: Seq<u8>,
    l: usize,
    p: int,
) -> bool {
    let width = (before.d + 7) / 8;
    &&& before.ids[l as int].len() <= p < after.ids[l as int].len()
    &&& after.ids[l as int][p] == id
    &&& after.factors[l as int][p] == factors
    &&& after.codes[l as int].subrange(p * width, p * width + width) == code
}

/// What is added to a writer is there: row `r` of the prepared data, or its code, stands with its
/// id in the list that it was assigned to, whatever the kind of index.
pub proof fn writers_hold_what_is_added<
    P: Fn(&Vec<u32>) -> Vec<u32>,
    A: Fn(&Vec<u32>, usize) -> Vec<usize>,
    E: Fn(&Vec<u32>, &Vec<usize>) -> Vec<u8>,
>(
    before: VectorIndexWriter,
    coding: RowCoding<P, A, E>,
    ids: Seq<i64>,
    data: Seq<u32>,
    n: usize,
    after: VectorIndexWriter,
    r: int,
)
    requires
        before.well_formed(),
        writer_law::holds_whole_rows(before),
        before.filled(coding, ids, data, n, after),
        0 <= r < n,
        coding.lists(data, n)[r] < before.spec_nlist(),
    ensures
        ({
            let l = coding.lists(data, n)[r];
            match (before, after) {
                (VectorIndexWriter::IvfFlat(a), VectorIndexWriter::IvfFlat(b)) => {
                    exists|p: int| #[trigger]
                        is_held(
                            a@.ids,
                            b@.ids,
                            b@.vectors,
                            a@.d,
                            ids[r],
                            part_at(coding.stored(data), a@.d, r),
                            l,
                            p,
                        )
                },
                (VectorIndexWriter::IvfHnswFlat(a), VectorIndexWriter::IvfHnswFlat(b)) => {
                    &&& forall|i: int|
                        0 <= i < b@.graphs.len() ==> (#[trigger] b@.graphs[i]) is None
                    &&& exists|p: int| #[trigger]
                        is_held(
                            a@.flat.ids,
                            b@.flat.ids,
                            b@.flat.vectors,
                            a@.flat.d,
                            ids[r],
                            part_at(coding.stored(data), a@.flat.d, r),
                            l,
                            p,
                        )
                },
                (VectorIndexWriter::IvfHnswSq(a), VectorIndexWriter::IvfHnswSq(b)) => {
                    &&& forall|i: int|
                        0 <= i < b@.graphs.len() ==> (#[trigger] b@.graphs[i]) is None
                    &&& exists|p: int| #[trigger]
                        is_held(
                            a@.ids,
                            b@.ids,
                            b@.codes,
                            a@.d,
                            ids[r],
                            part_at(coding.codes(data, n), a@.d, r),
                            l,
                            p,
                        )
                },
                _ => false,
            }
        }),
{
    let lists = coding.lists(data, n);
    let l = lists[r];
    match (before, after) {
        (VectorIndexWriter::IvfFlat(a), VectorIndexWriter::IvfFlat(b)) => {
            assert(a@.vectors[l as int].len() == a@.ids[l as int].len() * a@.d);
            added_vectors_are_in_their_lists(a@, coding.stored(data), ids, lists, r);
        },
        (VectorIndexWriter::IvfHnswFlat(a), VectorIndexWriter::IvfHnswFlat(b)) => {
            assert(a@.flat.vectors[l as int].len() == a@.flat.ids[l as int].len() * a@.flat.d);
            added_vectors_are_in_their_lists(a@.flat, coding.stored(data), ids, lists, r);
        },
        (VectorIndexWriter::IvfHnswSq(a), VectorIndexWriter::IvfHnswSq(b)) => {
            assert(a@.codes[l as int].len() == a@.ids[l as int].len() * a@.d);
            added_codes_are_in_their_lists(a@, coding.codes(data, n), ids, lists, r);
        },
        _ => {},
    }
}

/// A list is stored in the order of its ids, equal ones in their old order: `order` names each row
/// once, and where the ids of two rows are in order so are the rows.
pub open spec fn is_order_of_ids(ids: Seq<i64>, order: Seq<usize>) -> bool {
    &&& order.len() == ids.len()
    &&& order.no_duplicates()
    &&& forall|p: int| 0 <= p < order.len() ==> #[trigger] order[p] < ids.len()
    &&& forall|p: int, q: int|
        0 <= p < q < order.len() ==> ids[#[trigger] order[p] as int] < ids[#[trigger] order[q] as int]
            || (ids[order[p] as int] == ids[order[q] as int] && order[p] < order[q])
}

/// In a stored list each row stands at the place of its id.
pub proof fn stored_rows_stay_with_their_ids<T>(ids: Seq<i64>, items: Seq<T>, width: nat)
    requires
        ids.len() <= usize::MAX,
        items.len() == ids.len() * width,
    ensures
        exists|order: Seq<usize>|
            {
                &&& #[trigger] is_order_of_ids(ids, order)
                &&& ivf_lists::sorted_ids(ids).len() == ids.len()
                &&& forall|p: int|
                    0 <= p < ids.len() ==> #[trigger] ivf_lists::sorted_ids(ids)[p]
                        == ids[order[p] as int]
                &&& clustering_law::holds_rows(
                    ivf_lists::sorted_rows(items, width, ids),
                    items,
                    width,
                    order,
                )
            },
{
    let keys = ivf_lists::id_keys(ids);
    let order = ivf_lists::id_order(ids);
    sort::stable_order_facts(keys);
    ivf_lists::lemma_sorted_ids(ids);
    assert forall|p: int, q: int| 0 <= p < q < order.len() implies ids[#[trigger] order[p] as int]
        < ids[#[trigger] order[q] as int] || (ids[order[p] as int] == ids[order[q] as int]
        && order[p] < order[q]) by {
        assert(keys[order[p] as int] <= keys[order[q] as int]);
    }
    clustering_law::gathered_rows_are_kept(items, width, order, ids.len());
    assert(is_order_of_ids(ids, order));
}

/// A plan for many queries: each query probes the lists whose centroids are nearest to it, nearest
/// first, as many as are asked for or all; the lists that are wanted are those that some query
/// probes, each once.
pub proof fn plans_probe_the_nearest_lists(
    plan: SearchPlan,
    rows: Seq<Seq<u32>>,
    nprobe: usize,
    q: int,
)
    requires
        plan.follows(rows, nprobe),
        0 <= q < rows.len(),
        rows[q].len() <= usize::MAX,
        kmeans::no_nan(rows[q]),
    ensures
        plan.probes@.len() == rows.len(),
        ({
            let probe = plan.probes@[q]@;
            let dists = rows[q];
            &&& probe.len() == (if dists.len() < nprobe {
                dists.len() as int
            } else {
                nprobe as int
            })
            &&& probe.no_duplicates()
            &&& forall|i: int| 0 <= i < probe.len() ==> #[trigger] probe[i] < dists.len()
            &&& forall|i: int, j: int|
                0 <= i < j < probe.len() ==> !float_bits::lt(
                    dists[#[trigger] probe[j] as int],
                    dists[#[trigger] probe[i] as int],
                )
            &&& forall|other: usize, i: int|
                other < dists.len() && !#[trigger] probe.contains(other) && 0 <= i < probe.len()
                    ==> !float_bits::lt(dists[other as int], dists[#[trigger] probe[i] as int])
        }),
        plan.wanted@.no_duplicates(),
        forall|l: usize| #[trigger]
            plan.wanted@.contains(l) <==> exists|o: int|
                0 <= o < plan.probes@.len() && (#[trigger] plan.probes@[o])@.contains(l),
{
    let lists = ivf_search::probe_lists(plan.probes@);
    assert(lists.len() == plan.probes@.len());
    assert(lists[q] == plan.probes@[q]@);
    clustering_law::probes_are_the_nearest_lists(rows[q], nprobe);
    ivf_search::each_probed_list_is_read_once(lists);
    assert forall|l: usize| #[trigger] plan.wanted@.contains(l) <==> exists|o: int|
        0 <= o < plan.probes@.len() && (#[trigger] plan.probes@[o])@.contains(l) by {
        if ivf_search::is_probed(lists, l) {
            let o = choose|o: int| 0 <= o < lists.len() && (#[trigger] lists[o]).contains(l);
            assert(plan.probes@[o]@.contains(l));
        }
        if exists|o: int| 0 <= o < plan.probes@.len() && (#[trigger] plan.probes@[o])@.contains(l) {
            let o = choose|o: int|
                0 <= o < plan.probes@.len() && (#[trigger] plan.probes@[o])@.contains(l);
            assert(lists[o].contains(l));
        }
    }
}

/// A graph whose nodes are put into another order has no edge more and no level more, and is
/// entered at the same node.
pub proof fn reordering_adds_nothing(
    g: GraphModel,
    order: Seq<usize>,
    vectors: Seq<u32>,
    d: usize,
    metric: MetricType,
    params: HnswBuildParams,
    i: int,
    l: int,
)
    requires
        g.well_formed(),
        graph_reorder::is_permutation(order),
        order.len() == g.levels.len(),
        0 < order.len() <= usize::MAX,
        0 <= i < order.len(),
        0 <= l < g.adjacency[order[i] as int].len(),
    ensures
        ({
            let h = graph_reorder::reordered(g, order, vectors, d, metric, params);
            &&& h.levels.len() == g.levels.len()
            &&& h.adjacency.len() == g.adjacency.len()
            &&& h.levels[i] == g.levels[order[i] as int]
            &&& h.adjacency[i].len() == g.adjacency[order[i] as int].len()
            &&& h.adjacency[i][l].len() == g.adjacency[order[i] as int][l].len()
            &&& order[h.entry_point as int] == g.entry_point
            &&& h.max_observed_level == g.max_observed_level
            &&& h.vectors == vectors
        }),
{
    graph_reorder::inverse_undoes_order(order, g.entry_point as int);
}

} // verus!
