//! Searches over inverted lists: which lists are read, which rows are kept, and how the results of
//! many queries are laid out.
use vstd::prelude::*;

use crate::float_bits;
use crate::hnsw_layer;
use crate::hnsw_search;
use crate::hnsw_search::HnswSearchList;
use crate::ivf_lists;
use crate::row_id_filter;
use crate::row_id_filter::RowIdFilter;
use crate::sort;
use crate::topk;
use crate::topk::{Hit, ReaderTopKHeap, TopKHeap};

verus! {

/// Goes through `probe` and takes each list that is not in `got` yet.
pub open spec fn seen_after(probe: Seq<usize>, got: Seq<usize>) -> Seq<usize>
    decreases probe.len(),
{
    if probe.len() == 0 {
        got
    } else {
        let front = seen_after(probe.drop_last(), got);
        if front.contains(probe.last()) {
            front
        } else {
            front.push(probe.last())
        }
    }
}

/// The lists that the queries probe, in the order in which they are first named.
pub open spec fn lists_to_read(probes: Seq<Seq<usize>>) -> Seq<usize>
    decreases probes.len(),
{
    if probes.len() == 0 {
        Seq::empty()
    } else {
        seen_after(probes.last(), lists_to_read(probes.drop_last()))
    }
}

pub open spec fn probe_lists(v: Seq<Vec<usize>>) -> Seq<Seq<usize>> {
    Seq::new(v.len(), |i: int| v[i]@)
}

/// Some query probes list `l`.
pub open spec fn is_probed(probes: Seq<Seq<usize>>, l: usize) -> bool {
    exists|q: int| 0 <= q < probes.len() && (#[trigger] probes[q]).contains(l)
}

proof fn lemma_seen_after(probe: Seq<usize>, got: Seq<usize>)
    requires
        got.no_duplicates(),
    ensures
        seen_after(probe, got).no_duplicates(),
        forall|l: usize| #[trigger]
            seen_after(probe, got).contains(l) <==> (got.contains(l) || probe.contains(l)),
    decreases probe.len(),
{
    if probe.len() > 0 {
        let front = probe.drop_last();
        lemma_seen_after(front, got);
        let before = seen_after(front, got);
        let after = seen_after(probe, got);
        let x = probe.last();
        assert forall|l: usize| #[trigger] after.contains(l) <==> (got.contains(l)
            || probe.contains(l)) by {
            if front.contains(l) {
                let q = choose|q: int| 0 <= q < front.len() && front[q] == l;
                assert(probe[q] == l);
            }
            if probe.contains(l) {
                let q = choose|q: int| 0 <= q < probe.len() && probe[q] == l;
                if q < front.len() {
                    assert(front[q] == l);
                }
            }
            assert(probe[probe.len() - 1] == x);
            if before.contains(l) {
                let q = choose|q: int| 0 <= q < before.len() && before[q] == l;
                assert(after[q] == l);
            }
            if after.contains(l) && !before.contains(x) {
                let q = choose|q: int| 0 <= q < after.len() && after[q] == l;
                if q < before.len() {
                    assert(before[q] == l);
                }
            }
            if l == x && !before.contains(x) {
                assert(after[before.len() as int] == x);
            }
        }
    }
}

/// Each list that some query probes is read, once; no other list is.
pub proof fn each_probed_list_is_read_once(probes: Seq<Seq<usize>>)
    ensures
        lists_to_read(probes).no_duplicates(),
        forall|l: usize| #[trigger] lists_to_read(probes).contains(l) <==> is_probed(probes, l),
    decreases probes.len(),
{
    if probes.len() > 0 {
        let front = probes.drop_last();
        each_probed_list_is_read_once(front);
        lemma_seen_after(probes.last(), lists_to_read(front));
        assert forall|l: usize| #[trigger] lists_to_read(probes).contains(l) <==> is_probed(
            probes,
            l,
        ) by {
            if is_probed(front, l) {
                let q = choose|q: int| 0 <= q < front.len() && (#[trigger] front[q]).contains(l);
                assert(probes[q].contains(l));
            }
            if is_probed(probes, l) {
                let q = choose|q: int| 0 <= q < probes.len() && (#[trigger] probes[q]).contains(l);
                if q < front.len() {
                    assert(front[q].contains(l));
                }
            }
            if probes.last().contains(l) {
                assert(probes[probes.len() - 1].contains(l));
            }
        }
    }
}

/// The lists that the queries probe, each once.
pub fn unique_lists(probes: &Vec<Vec<usize>>, nlist: usize) -> (r: Vec<usize>)
    requires
        forall|q: int, j: int|
            0 <= q < probes@.len() && 0 <= j < probes@[q]@.len() ==> #[trigger] probes@[q]@[j]
                < nlist,
    ensures
        r@ == lists_to_read(probe_lists(probes@)),
        r@.no_duplicates(),
        forall|l: usize| #[trigger] r@.contains(l) <==> is_probed(probe_lists(probes@), l),
{
    let ghost all = probe_lists(probes@);
    let mut marks: Vec<bool> = vec![false; nlist];
    let mut r: Vec<usize> = Vec::new();
    assert(all.take(0) =~= Seq::<Seq<usize>>::empty());
    for q in 0..probes.len()
        invariant
            all == probe_lists(probes@),
            forall|q: int, j: int|
                0 <= q < probes@.len() && 0 <= j < probes@[q]@.len() ==> #[trigger] probes@[q]@[j]
                    < nlist,
            marks@.len() == nlist,
            forall|l: int| 0 <= l < nlist ==> #[trigger] marks@[l] == r@.contains(l as usize),
            r@ == lists_to_read(all.take(q as int)),
    {
        let probe: &Vec<usize> = &probes[q];
        let ghost before = r@;
        assert(probe@.take(0) =~= Seq::<usize>::empty());
        for j in 0..probe.len()
            invariant
                q < probes@.len(),
                probe@ == probes@[q as int]@,
                forall|q: int, j: int|
                    0 <= q < probes@.len() && 0 <= j < probes@[q]@.len()
                        ==> #[trigger] probes@[q]@[j] < nlist,
                marks@.len() == nlist,
                forall|l: int| 0 <= l < nlist ==> #[trigger] marks@[l] == r@.contains(l as usize),
                r@ == seen_after(probe@.take(j as int), before),
        {
            let l: usize = probe[j];
            assert(probes@[q as int]@[j as int] == l);
            assert(probe@.take(j + 1).drop_last() =~= probe@.take(j as int));
            if !marks[l] {
                let ghost prior = r@;
                marks.set(l, true);
                r.push(l);
                proof {
                    assert forall|x: int| 0 <= x < nlist implies #[trigger] marks@[x]
                        == r@.contains(x as usize) by {
                        if x == l {
                            assert(r@[prior.len() as int] == l);
                        } else {
                            if prior.contains(x as usize) {
                                let p = choose|p: int|
                                    0 <= p < prior.len() && prior[p] == x as usize;
                                assert(r@[p] == x as usize);
                            }
                            if r@.contains(x as usize) {
                                let p = choose|p: int| 0 <= p < r@.len() && r@[p] == x as usize;
                                assert(prior[p] == x as usize);
                            }
                        }
                    }
                }
            }
        }
        proof {
            assert(probe@.take(probe@.len() as int) =~= probe@);
            assert(all[q as int] == probe@);
            assert(all.take(q + 1).drop_last() =~= all.take(q as int));
        }
    }
    proof {
        assert(all.take(all.len() as int) =~= all);
        each_probed_list_is_read_once(all);
    }
    r
}

/// Where, among the lists that were read, those are that a query probes.
pub open spec fn picks_of(probe: Seq<usize>, loaded: Seq<usize>) -> Seq<usize>
    decreases loaded.len(),
{
    if loaded.len() == 0 {
        Seq::empty()
    } else {
        let front = picks_of(probe, loaded.drop_last());
        if probe.contains(loaded.last()) {
            front.push((loaded.len() - 1) as usize)
        } else {
            front
        }
    }
}

fn holds(list: &Vec<usize>, id: usize) -> (r: bool)
    ensures
        r == list@.contains(id),
{
    for i in 0..list.len()
        invariant
            forall|k: int| 0 <= k < i ==> #[trigger] list@[k] != id,
    {
        if list[i] == id {
            assert(list@[i as int] == id);
            return true;
        }
    }
    false
}

/// Where, among the lists that were read, those are that a query probes.
fn pick_lists(probe: &Vec<usize>, loaded: &Vec<usize>) -> (r: Vec<usize>)
    ensures
        r@ == picks_of(probe@, loaded@),
        forall|i: int| 0 <= i < r@.len() ==> #[trigger] r@[i] < loaded@.len(),
{
    let mut r: Vec<usize> = Vec::new();
    assert(loaded@.take(0) =~= Seq::<usize>::empty());
    for i in 0..loaded.len()
        invariant
            r@ == picks_of(probe@, loaded@.take(i as int)),
            forall|k: int| 0 <= k < r@.len() ==> #[trigger] r@[k] < i,
    {
        assert(loaded@.take(i + 1).drop_last() =~= loaded@.take(i as int));
        if holds(probe, loaded[i]) {
            r.push(i);
        }
    }
    assert(loaded@.take(loaded@.len() as int) =~= loaded@);
    r
}

/// The ids of `k` results; where there are fewer, minus one fills up.
pub open spec fn padded_ids(hits: Seq<Hit>, k: usize) -> Seq<i64> {
    Seq::new(
        k as nat,
        |i: int|
            if i < hits.len() {
                hits[i].1
            } else {
                (-1int) as i64
            },
    )
}

/// The distances of `k` results; where there are fewer, the largest finite value fills up.
pub open spec fn padded_dists(hits: Seq<Hit>, k: usize) -> Seq<u32> {
    Seq::new(
        k as nat,
        |i: int|
            if i < hits.len() {
                hits[i].0
            } else {
                float_bits::MAX_BITS
            },
    )
}

/// The ids of all queries, one block of `k` behind the other.
pub open spec fn all_ids(hits: Seq<Seq<Hit>>, k: usize) -> Seq<i64>
    decreases hits.len(),
{
    if hits.len() == 0 {
        Seq::empty()
    } else {
        all_ids(hits.drop_last(), k) + padded_ids(hits.last(), k)
    }
}

/// The distances of all queries, one block of `k` behind the other.
pub open spec fn all_dists(hits: Seq<Seq<Hit>>, k: usize) -> Seq<u32>
    decreases hits.len(),
{
    if hits.len() == 0 {
        Seq::empty()
    } else {
        all_dists(hits.drop_last(), k) + padded_dists(hits.last(), k)
    }
}

/// Appends the results of one query.
pub(crate) fn append_results(ids: &mut Vec<i64>, dists: &mut Vec<u32>, hits: &Vec<Hit>, k: usize)
    ensures
        final(ids)@ == old(ids)@ + padded_ids(hits@, k),
        final(dists)@ == old(dists)@ + padded_dists(hits@, k),
{
    let ghost start_ids = ids@;
    let ghost start_dists = dists@;
    for i in 0..k
        invariant
            ids@ == start_ids + padded_ids(hits@, k).take(i as int),
            dists@ == start_dists + padded_dists(hits@, k).take(i as int),
    {
        if i < hits.len() {
            ids.push(hits[i].1);
            dists.push(hits[i].0);
        } else {
            ids.push(-1);
            dists.push(float_bits::MAX_BITS);
        }
        assert(ids@ =~= start_ids + padded_ids(hits@, k).take(i + 1));
        assert(dists@ =~= start_dists + padded_dists(hits@, k).take(i + 1));
    }
    assert(padded_ids(hits@, k).take(k as int) =~= padded_ids(hits@, k));
    assert(padded_dists(hits@, k).take(k as int) =~= padded_dists(hits@, k));
}

/// The results of one query in the block of `k` that begins at `qi * k` are its own.
pub proof fn block_of_query(hits: Seq<Seq<Hit>>, k: usize, qi: int)
    requires
        0 <= qi < hits.len(),
    ensures
        all_ids(hits, k).len() == hits.len() * k,
        all_dists(hits, k).len() == hits.len() * k,
        qi * k + k <= hits.len() * k,
        all_ids(hits, k).subrange(qi * k, qi * k + k) == padded_ids(hits[qi], k),
        all_dists(hits, k).subrange(qi * k, qi * k + k) == padded_dists(hits[qi], k),
    decreases hits.len(),
{
    let front = hits.drop_last();
    lemma_results_len(front, k);
    lemma_results_len(hits, k);
    ivf_lists::lemma_row_bounds(hits.len(), k as nat, qi);
    assert((hits.len() - 1) * k + k == hits.len() * k) by (nonlinear_arith);
    if qi == hits.len() - 1 {
        assert(all_ids(hits, k).subrange(qi * k, qi * k + k) =~= padded_ids(hits[qi], k));
        assert(all_dists(hits, k).subrange(qi * k, qi * k + k) =~= padded_dists(hits[qi], k));
    } else {
        block_of_query(front, k, qi);
        assert(all_ids(hits, k).subrange(qi * k, qi * k + k) =~= all_ids(front, k).subrange(
            qi * k,
            qi * k + k,
        ));
        assert(all_dists(hits, k).subrange(qi * k, qi * k + k) =~= all_dists(front, k).subrange(
            qi * k,
            qi * k + k,
        ));
    }
}

proof fn lemma_results_len(hits: Seq<Seq<Hit>>, k: usize)
    ensures
        all_ids(hits, k).len() == hits.len() * k,
        all_dists(hits, k).len() == hits.len() * k,
    decreases hits.len(),
{
    if hits.len() > 0 {
        lemma_results_len(hits.drop_last(), k);
        assert(hits.len() * k == (hits.len() - 1) * k + k) by (nonlinear_arith)
            requires
                hits.len() >= 1,
        ;
    } else {
        assert(hits.len() * k == 0) by (nonlinear_arith)
            requires
                hits.len() == 0,
        ;
    }
}

/// The function gives one distance for each row of each list, always the same.
pub open spec fn id_rows_agree<F: Fn(usize, usize) -> u32>(
    f: F,
    dist: spec_fn(usize, usize) -> u32,
    lists: Seq<Vec<i64>>,
) -> bool {
    &&& forall|l: usize, row: usize|
        l < lists.len() && row < lists[l as int]@.len() ==> #[trigger] call_requires(f, (l, row))
    &&& forall|l: usize, row: usize, r: u32|
        l < lists.len() && row < lists[l as int]@.len() && #[trigger] call_ensures(
            f,
            (l, row),
            r,
        ) ==> r == dist(l, row)
}

/// Every row of the first `n` lists at `picks` that passes the filter, with its distance.
pub open spec fn rows_of_lists<T: RowIdFilter>(
    lists: Seq<Vec<i64>>,
    picks: Seq<usize>,
    n: nat,
    filter: Option<&T>,
    dist: spec_fn(usize, usize) -> u32,
) -> Seq<Hit>
    decreases n,
{
    if n == 0 {
        Seq::empty()
    } else {
        rows_of_lists(lists, picks, (n - 1) as nat, filter, dist) + hnsw_search::admitted_rows(
            lists[picks[n - 1] as int]@,
            filter,
            hnsw_search::of_list(dist, picks[n - 1]),
        )
    }
}

/// The `k` closest rows of the lists at `picks` can be told: where more than one is wanted and more
/// than one passes the filter, no distance is a NaN.
pub open spec fn rows_can_be_ranked<T: RowIdFilter>(
    k: usize,
    dist: spec_fn(usize, usize) -> u32,
    lists: Seq<Vec<i64>>,
    picks: Seq<usize>,
    filter: Option<&T>,
) -> bool {
    let rows = rows_of_lists(lists, picks, picks.len(), filter, dist);
    k > 1 && rows.len() > 1 ==> topk::no_nan(rows)
}

proof fn lemma_admitted_prefix<T: RowIdFilter>(
    ids: Seq<i64>,
    j: int,
    filter: Option<&T>,
    dist: spec_fn(usize) -> u32,
)
    requires
        0 <= j <= ids.len(),
    ensures
        hnsw_search::admitted_rows(ids.take(j), filter, dist).is_prefix_of(
            hnsw_search::admitted_rows(ids, filter, dist),
        ),
    decreases ids.len() - j,
{
    if j == ids.len() {
        assert(ids.take(j) =~= ids);
    } else {
        assert(ids.take(j + 1).drop_last() =~= ids.take(j));
        lemma_admitted_prefix(ids, j + 1, filter, dist);
    }
}

proof fn lemma_lists_prefix<T: RowIdFilter>(
    lists: Seq<Vec<i64>>,
    picks: Seq<usize>,
    n: nat,
    m: nat,
    filter: Option<&T>,
    dist: spec_fn(usize, usize) -> u32,
)
    requires
        n <= m,
    ensures
        rows_of_lists(lists, picks, n, filter, dist).is_prefix_of(
            rows_of_lists(lists, picks, m, filter, dist),
        ),
    decreases m,
{
    if n < m {
        lemma_lists_prefix(lists, picks, n, (m - 1) as nat, filter, dist);
    }
}

/// The rows that have come up to row `j` of the list at pick `i` are the first of all.
proof fn lemma_rows_so_far<T: RowIdFilter>(
    lists: Seq<Vec<i64>>,
    picks: Seq<usize>,
    i: int,
    j: int,
    filter: Option<&T>,
    dist: spec_fn(usize, usize) -> u32,
)
    requires
        0 <= i < picks.len(),
        0 <= j <= lists[picks[i] as int]@.len(),
    ensures
        (rows_of_lists(lists, picks, i as nat, filter, dist) + hnsw_search::admitted_rows(
            lists[picks[i] as int]@.take(j),
            filter,
            hnsw_search::of_list(dist, picks[i]),
        )).is_prefix_of(rows_of_lists(lists, picks, picks.len(), filter, dist)),
{
    let here = hnsw_search::of_list(dist, picks[i]);
    lemma_admitted_prefix(lists[picks[i] as int]@, j, filter, here);
    lemma_lists_prefix(lists, picks, (i + 1) as nat, picks.len(), filter, dist);
}

/// A heap that rows which can be ranked are offered to one by one compares no NaN.
proof fn lemma_ranked_so_far(k: usize, all: Seq<Hit>, so_far: Seq<Hit>)
    requires
        k > 1 && all.len() > 1 ==> topk::no_nan(all),
        so_far.is_prefix_of(all),
    ensures
        ({
            let kept = topk::kept_of(Seq::empty(), k, so_far);
            &&& kept.len() > 1 ==> topk::no_nan(kept)
            &&& kept.len() <= k
        }),
{
    topk::lemma_kept(k, so_far);
    if k > 1 && all.len() > 1 {
        assert forall|i: int| 0 <= i < so_far.len() implies !float_bits::is_nan(
            (#[trigger] so_far[i]).0,
        ) by {
            assert(so_far[i] == all[i]);
        }
    }
}

proof fn lemma_kept_of_push(data: Seq<Hit>, k: usize, hits: Seq<Hit>, hit: Hit)
    ensures
        topk::kept_of(data, k, hits.push(hit)) == topk::kept_after(
            topk::kept_of(data, k, hits),
            k,
            hit,
        ),
{
    assert(hits.push(hit).drop_last() =~= hits);
}

/// Scans the lists at `picks` row by row; every row that passes the filter is offered.
pub(crate) fn scan_flat_lists<T: RowIdFilter, F: Fn(usize, usize) -> u32>(
    lists: &Vec<Vec<i64>>,
    picks: &Vec<usize>,
    k: usize,
    filter: Option<&T>,
    distance: &F,
    Ghost(dist): Ghost<spec_fn(usize, usize) -> u32>,
) -> (r: Vec<Hit>)
    requires
        forall|i: int| 0 <= i < picks@.len() ==> #[trigger] picks@[i] < lists@.len(),
        id_rows_agree(*distance, dist, lists@),
        rows_can_be_ranked(k, dist, lists@, picks@, filter),
    ensures
        r@ == topk::sorted_hits(
            topk::kept_of(
                Seq::empty(),
                k,
                rows_of_lists(lists@, picks@, picks@.len(), filter, dist),
            ),
            topk::by_value(),
        ),
{
    let mut heap: ReaderTopKHeap = ReaderTopKHeap::new(k);
    let ghost none = Seq::<Hit>::empty();
    for i in 0..picks.len()
        invariant
            forall|i: int| 0 <= i < picks@.len() ==> #[trigger] picks@[i] < lists@.len(),
            id_rows_agree(*distance, dist, lists@),
            rows_can_be_ranked(k, dist, lists@, picks@, filter),
            none == Seq::<Hit>::empty(),
            heap.well_formed(),
            heap.k == k,
            heap@ == topk::kept_of(none, k, rows_of_lists(lists@, picks@, i as nat, filter, dist)),
    {
        let at: usize = picks[i];
        let ids: &Vec<i64> = &lists[at];
        let ghost before = rows_of_lists(lists@, picks@, i as nat, filter, dist);
        let ghost here = hnsw_search::of_list(dist, at);
        proof {
            assert(ids@.take(0) =~= Seq::<i64>::empty());
            assert(before + Seq::<Hit>::empty() =~= before);
        }
        for j in 0..ids.len()
            invariant
                at < lists@.len(),
                i < picks@.len(),
                at == picks@[i as int],
                ids@ == lists@[at as int]@,
                id_rows_agree(*distance, dist, lists@),
                rows_can_be_ranked(k, dist, lists@, picks@, filter),
                here == hnsw_search::of_list(dist, at),
                before == rows_of_lists(lists@, picks@, i as nat, filter, dist),
                none == Seq::<Hit>::empty(),
                heap.well_formed(),
                heap.k == k,
                heap@ == topk::kept_of(
                    none,
                    k,
                    before + hnsw_search::admitted_rows(ids@.take(j as int), filter, here),
                ),
        {
            let id: i64 = ids[j];
            assert(ids@.take(j + 1).drop_last() =~= ids@.take(j as int));
            if row_id_filter::row_passes(filter, id) {
                let d: u32 = distance(at, j);
                assert(d == dist(picks@[i as int], j));
                proof {
                    let rows = hnsw_search::admitted_rows(ids@.take(j as int), filter, here);
                    lemma_kept_of_push(none, k, before + rows, (d, id));
                    assert(before + rows.push((d, id)) =~= (before + rows).push((d, id)));
                    lemma_rows_so_far(lists@, picks@, i as int, j as int, filter, dist);
                    lemma_ranked_so_far(
                        k,
                        rows_of_lists(lists@, picks@, picks@.len(), filter, dist),
                        before + rows,
                    );
                }
                heap.push(d, id);
            }
        }
        assert(ids@.take(ids@.len() as int) =~= ids@);
    }
    proof {
        let all = rows_of_lists(lists@, picks@, picks@.len(), filter, dist);
        lemma_ranked_so_far(k, all, all);
    }
    heap.into_sorted()
}

/// Scans the lists at `picks` row by row, keeping one row for each id.
pub(crate) fn scan_unique_lists<T: RowIdFilter, F: Fn(usize, usize) -> u32>(
    lists: &Vec<Vec<i64>>,
    picks: &Vec<usize>,
    k: usize,
    filter: Option<&T>,
    distance: &F,
    Ghost(dist): Ghost<spec_fn(usize, usize) -> u32>,
) -> (r: Vec<Hit>)
    requires
        forall|i: int| 0 <= i < picks@.len() ==> #[trigger] picks@[i] < lists@.len(),
        id_rows_agree(*distance, dist, lists@),
    ensures
        r@ == topk::sorted_hits(
            topk::unique_of(
                Seq::empty(),
                k,
                rows_of_lists(lists@, picks@, picks@.len(), filter, dist),
            ),
            topk::by_total(),
        ),
{
    let mut heap: TopKHeap = TopKHeap::new(k);
    let ghost none = Seq::<Hit>::empty();
    for i in 0..picks.len()
        invariant
            forall|i: int| 0 <= i < picks@.len() ==> #[trigger] picks@[i] < lists@.len(),
            id_rows_agree(*distance, dist, lists@),
            none == Seq::<Hit>::empty(),
            heap.well_formed(),
            heap.k == k,
            heap@ == topk::unique_of(
                none,
                k,
                rows_of_lists(lists@, picks@, i as nat, filter, dist),
            ),
    {
        let at: usize = picks[i];
        let ids: &Vec<i64> = &lists[at];
        let ghost before = rows_of_lists(lists@, picks@, i as nat, filter, dist);
        let ghost here = hnsw_search::of_list(dist, at);
        proof {
            assert(ids@.take(0) =~= Seq::<i64>::empty());
            assert(before + Seq::<Hit>::empty() =~= before);
        }
        for j in 0..ids.len()
            invariant
                at < lists@.len(),
                ids@ == lists@[at as int]@,
                id_rows_agree(*distance, dist, lists@),
                here == hnsw_search::of_list(dist, at),
                heap.well_formed(),
                heap.k == k,
                heap@ == topk::unique_of(
                    none,
                    k,
                    before + hnsw_search::admitted_rows(ids@.take(j as int), filter, here),
                ),
        {
            let id: i64 = ids[j];
            assert(ids@.take(j + 1).drop_last() =~= ids@.take(j as int));
            if row_id_filter::row_passes(filter, id) {
                let d: u32 = distance(at, j);
                assert(d == dist(at, j));
                proof {
                    let rows = hnsw_search::admitted_rows(ids@.take(j as int), filter, here);
                    hnsw_search::lemma_unique_of_push(none, k, before + rows, (d, id));
                    assert(before + rows.push((d, id)) =~= (before + rows).push((d, id)));
                }
                heap.push(d, id);
            }
        }
        assert(ids@.take(ids@.len() as int) =~= ids@);
    }
    heap.into_sorted()
}

/// Distances by query, list and row, as a function gives them.
pub open spec fn batch_distances<F: Fn(usize, usize, usize) -> u32>(f: F) -> spec_fn(
    usize,
    usize,
    usize,
) -> u32 {
    |q: usize, l: usize, row: usize| choose|r: u32| call_ensures(f, (q, l, row), r)
}

/// The distances of one query.
pub open spec fn of_query(dist: spec_fn(usize, usize, usize) -> u32, q: usize) -> spec_fn(
    usize,
    usize,
) -> u32 {
    |l: usize, row: usize| dist(q, l, row)
}

/// How many rows each list has.
pub open spec fn row_counts(lists: Seq<Vec<i64>>) -> Seq<nat> {
    Seq::new(lists.len(), |i: int| lists[i]@.len())
}

/// The function gives one distance for each query and each row of each list, always the same.
pub open spec fn gives_batch_distances<F: Fn(usize, usize, usize) -> u32>(
    f: F,
    nq: nat,
    counts: Seq<nat>,
) -> bool {
    &&& forall|q: usize, l: usize, row: usize|
        q < nq && l < counts.len() && row < counts[l as int] ==> #[trigger] call_requires(
            f,
            (q, l, row),
        )
    &&& forall|q: usize, l: usize, row: usize, r: u32|
        q < nq && l < counts.len() && row < counts[l as int] && #[trigger] call_ensures(
            f,
            (q, l, row),
            r,
        ) ==> r == batch_distances(f)(q, l, row)
}

/// For each query the `k` closest rows of the lists that it probes can be told.
pub open spec fn batch_can_be_ranked<T: RowIdFilter>(
    k: usize,
    dist: spec_fn(usize, usize, usize) -> u32,
    probes: Seq<Seq<usize>>,
    loaded: Seq<usize>,
    lists: Seq<Vec<i64>>,
    filter: Option<&T>,
) -> bool {
    forall|q: int|
        0 <= q < probes.len() ==> #[trigger] rows_can_be_ranked(
            k,
            of_query(dist, q as usize),
            lists,
            picks_of(probes[q], loaded),
            filter,
        )
}

/// The closest rows of the lists at `picks`: rows as close as each other may share an id.
pub open spec fn flat_hits<T: RowIdFilter>(
    lists: Seq<Vec<i64>>,
    picks: Seq<usize>,
    k: usize,
    filter: Option<&T>,
    dist: spec_fn(usize, usize) -> u32,
) -> Seq<Hit> {
    topk::sorted_hits(
        topk::kept_of(Seq::empty(), k, rows_of_lists(lists, picks, picks.len(), filter, dist)),
        topk::by_value(),
    )
}

/// The closest rows of the lists at `picks`, one for each id.
pub open spec fn unique_hits<T: RowIdFilter>(
    lists: Seq<Vec<i64>>,
    picks: Seq<usize>,
    k: usize,
    filter: Option<&T>,
    dist: spec_fn(usize, usize) -> u32,
) -> Seq<Hit> {
    topk::sorted_hits(
        topk::unique_of(Seq::empty(), k, rows_of_lists(lists, picks, picks.len(), filter, dist)),
        topk::by_total(),
    )
}

/// What each query finds in the lists that it probes.
pub open spec fn flat_results<T: RowIdFilter>(
    probes: Seq<Seq<usize>>,
    loaded: Seq<usize>,
    lists: Seq<Vec<i64>>,
    k: usize,
    filter: Option<&T>,
    dist: spec_fn(usize, usize, usize) -> u32,
) -> Seq<Seq<Hit>> {
    Seq::new(
        probes.len(),
        |q: int|
            flat_hits(lists, picks_of(probes[q], loaded), k, filter, of_query(dist, q as usize)),
    )
}

/// What each query finds in the lists that it probes, one row for each id.
pub open spec fn unique_results<T: RowIdFilter>(
    probes: Seq<Seq<usize>>,
    loaded: Seq<usize>,
    lists: Seq<Vec<i64>>,
    k: usize,
    filter: Option<&T>,
    dist: spec_fn(usize, usize, usize) -> u32,
) -> Seq<Seq<Hit>> {
    Seq::new(
        probes.len(),
        |q: int|
            unique_hits(lists, picks_of(probes[q], loaded), k, filter, of_query(dist, q as usize)),
    )
}

/// Searches lists that are scanned row by row, for many queries: `lists[i]` holds the ids of list
/// `loaded[i]`, and each query looks at those that it probes.
pub fn search_flat_batch<T: RowIdFilter, F: Fn(usize, usize, usize) -> u32>(
    probes: &Vec<Vec<usize>>,
    loaded: &Vec<usize>,
    lists: &Vec<Vec<i64>>,
    k: usize,
    filter: Option<&T>,
    distance: &F,
) -> (r: (Vec<i64>, Vec<u32>))
    requires
        loaded@.len() == lists@.len(),
        gives_batch_distances(*distance, probes@.len(), row_counts(lists@)),
        batch_can_be_ranked(
            k,
            batch_distances(*distance),
            probe_lists(probes@),
            loaded@,
            lists@,
            filter,
        ),
    ensures
        r.0@ == all_ids(
            flat_results(
                probe_lists(probes@),
                loaded@,
                lists@,
                k,
                filter,
                batch_distances(*distance),
            ),
            k,
        ),
        r.1@ == all_dists(
            flat_results(
                probe_lists(probes@),
                loaded@,
                lists@,
                k,
                filter,
                batch_distances(*distance),
            ),
            k,
        ),
{
    let ghost dist = batch_distances(*distance);
    let ghost all = flat_results(probe_lists(probes@), loaded@, lists@, k, filter, dist);
    let mut ids: Vec<i64> = Vec::new();
    let mut dists: Vec<u32> = Vec::new();
    assert(all.take(0) =~= Seq::<Seq<Hit>>::empty());
    for q in 0..probes.len()
        invariant
            loaded@.len() == lists@.len(),
            dist == batch_distances(*distance),
            gives_batch_distances(*distance, probes@.len(), row_counts(lists@)),
            batch_can_be_ranked(k, dist, probe_lists(probes@), loaded@, lists@, filter),
            all == flat_results(probe_lists(probes@), loaded@, lists@, k, filter, dist),
            ids@ == all_ids(all.take(q as int), k),
            dists@ == all_dists(all.take(q as int), k),
    {
        let picks: Vec<usize> = pick_lists(&probes[q], loaded);
        let ghost counts = row_counts(lists@);
        let one = |l: usize, row: usize| -> (r: u32)
            requires
                l < lists@.len(),
                row < lists@[l as int]@.len(),
            ensures
                r == dist(q, l, row),
            {
                assert(row_counts(lists@)[l as int] == lists@[l as int]@.len());
                distance(q, l, row)
            };
        proof {
            assert(id_rows_agree(one, of_query(dist, q), lists@));
            assert(probe_lists(probes@)[q as int] == probes@[q as int]@);
            assert(rows_can_be_ranked(k, of_query(dist, q), lists@, picks@, filter));
        }
        let hits: Vec<Hit> = scan_flat_lists(
            lists,
            &picks,
            k,
            filter,
            &one,
            Ghost(of_query(dist, q)),
        );
        append_results(&mut ids, &mut dists, &hits, k);
        proof {
            assert(probe_lists(probes@)[q as int] == probes@[q as int]@);
            assert(hits@ == all[q as int]);
            assert(all.take(q + 1).drop_last() =~= all.take(q as int));
        }
    }
    assert(all.take(all.len() as int) =~= all);
    (ids, dists)
}

/// Searches lists that are scanned row by row, for many queries, with one row for each id.
pub fn search_unique_batch<T: RowIdFilter, F: Fn(usize, usize, usize) -> u32>(
    probes: &Vec<Vec<usize>>,
    loaded: &Vec<usize>,
    lists: &Vec<Vec<i64>>,
    k: usize,
    filter: Option<&T>,
    distance: &F,
) -> (r: (Vec<i64>, Vec<u32>))
    requires
        loaded@.len() == lists@.len(),
        gives_batch_distances(*distance, probes@.len(), row_counts(lists@)),
    ensures
        r.0@ == all_ids(
            unique_results(
                probe_lists(probes@),
                loaded@,
                lists@,
                k,
                filter,
                batch_distances(*distance),
            ),
            k,
        ),
        r.1@ == all_dists(
            unique_results(
                probe_lists(probes@),
                loaded@,
                lists@,
                k,
                filter,
                batch_distances(*distance),
            ),
            k,
        ),
{
    let ghost dist = batch_distances(*distance);
    let ghost all = unique_results(probe_lists(probes@), loaded@, lists@, k, filter, dist);
    let mut ids: Vec<i64> = Vec::new();
    let mut dists: Vec<u32> = Vec::new();
    assert(all.take(0) =~= Seq::<Seq<Hit>>::empty());
    for q in 0..probes.len()
        invariant
            loaded@.len() == lists@.len(),
            dist == batch_distances(*distance),
            gives_batch_distances(*distance, probes@.len(), row_counts(lists@)),
            all == unique_results(probe_lists(probes@), loaded@, lists@, k, filter, dist),
            ids@ == all_ids(all.take(q as int), k),
            dists@ == all_dists(all.take(q as int), k),
    {
        let picks: Vec<usize> = pick_lists(&probes[q], loaded);
        let ghost counts = row_counts(lists@);
        let one = |l: usize, row: usize| -> (r: u32)
            requires
                l < lists@.len(),
                row < lists@[l as int]@.len(),
            ensures
                r == dist(q, l, row),
            {
                assert(row_counts(lists@)[l as int] == lists@[l as int]@.len());
                distance(q, l, row)
            };
        assert(id_rows_agree(one, of_query(dist, q), lists@));
        let hits: Vec<Hit> = scan_unique_lists(
            lists,
            &picks,
            k,
            filter,
            &one,
            Ghost(of_query(dist, q)),
        );
        append_results(&mut ids, &mut dists, &hits, k);
        proof {
            assert(probe_lists(probes@)[q as int] == probes@[q as int]@);
            assert(hits@ == all[q as int]);
            assert(all.take(q + 1).drop_last() =~= all.take(q as int));
        }
    }
    assert(all.take(all.len() as int) =~= all);
    (ids, dists)
}

/// How many rows each list has.
pub open spec fn graph_row_counts(lists: Seq<HnswSearchList>) -> Seq<nat> {
    Seq::new(lists.len(), |i: int| lists[i].ids@.len())
}

/// What query `q` finds in the lists at `picks[q]`.
pub open spec fn query_searched<T: RowIdFilter>(
    picks: Seq<Seq<usize>>,
    lists: Seq<HnswSearchList>,
    k: usize,
    ef_search: usize,
    filter: Option<&T>,
    graph_dist: spec_fn(usize, usize, usize) -> u32,
    scan_dist: spec_fn(usize, usize, usize) -> u32,
    stop_when_full: bool,
    hits: Seq<Seq<Hit>>,
    q: int,
) -> bool {
    hnsw_search::search_outcome(
        lists,
        picks[q],
        k,
        ef_search,
        filter,
        of_query(graph_dist, q as usize),
        of_query(scan_dist, q as usize),
        stop_when_full,
        hits[q],
    )
}

/// Each query has found what a search over its lists gives.
pub open spec fn queries_searched<T: RowIdFilter>(
    picks: Seq<Seq<usize>>,
    lists: Seq<HnswSearchList>,
    k: usize,
    ef_search: usize,
    filter: Option<&T>,
    graph_dist: spec_fn(usize, usize, usize) -> u32,
    scan_dist: spec_fn(usize, usize, usize) -> u32,
    stop_when_full: bool,
    hits: Seq<Seq<Hit>>,
) -> bool {
    &&& hits.len() == picks.len()
    &&& forall|q: int|
        0 <= q < picks.len() ==> #[trigger] query_searched(
            picks,
            lists,
            k,
            ef_search,
            filter,
            graph_dist,
            scan_dist,
            stop_when_full,
            hits,
            q,
        )
}

/// Searches lists with graphs, for many queries: query `q` looks at the lists at `picks[q]`.
/// `graph_distance` is asked on the way through a graph, `scan_distance` where the rows are looked
/// at one by one.
pub fn search_hnsw_picks<
    T: RowIdFilter,
    F: Fn(usize, usize, usize) -> u32,
    S: Fn(usize, usize, usize) -> u32,
>(
    picks: &Vec<Vec<usize>>,
    lists: &Vec<HnswSearchList>,
    k: usize,
    ef_search: usize,
    filter: Option<&T>,
    graph_distance: &F,
    scan_distance: &S,
    stop_when_full: bool,
) -> (r: (Vec<i64>, Vec<u32>))
    requires
        forall|q: int, j: int|
            0 <= q < picks@.len() && 0 <= j < picks@[q]@.len() ==> #[trigger] picks@[q]@[j]
                < lists@.len(),
        hnsw_search::all_well_formed(lists@),
        gives_batch_distances(*graph_distance, picks@.len(), graph_row_counts(lists@)),
        gives_batch_distances(*scan_distance, picks@.len(), graph_row_counts(lists@)),
    ensures
        exists|hits: Seq<Seq<Hit>>|
            #[trigger] queries_searched(
                probe_lists(picks@),
                lists@,
                k,
                ef_search,
                filter,
                batch_distances(*graph_distance),
                batch_distances(*scan_distance),
                stop_when_full,
                hits,
            ) && r.0@ == all_ids(hits, k) && r.1@ == all_dists(hits, k),
{
    let ghost gd = batch_distances(*graph_distance);
    let ghost sd = batch_distances(*scan_distance);
    let ghost pl = probe_lists(picks@);
    let ghost mut hits: Seq<Seq<Hit>> = Seq::empty();
    let mut ids: Vec<i64> = Vec::new();
    let mut dists: Vec<u32> = Vec::new();
    for q in 0..picks.len()
        invariant
            forall|q: int, j: int|
                0 <= q < picks@.len() && 0 <= j < picks@[q]@.len() ==> #[trigger] picks@[q]@[j]
                    < lists@.len(),
            hnsw_search::all_well_formed(lists@),
            gd == batch_distances(*graph_distance),
            sd == batch_distances(*scan_distance),
            gives_batch_distances(*graph_distance, picks@.len(), graph_row_counts(lists@)),
            gives_batch_distances(*scan_distance, picks@.len(), graph_row_counts(lists@)),
            pl == probe_lists(picks@),
            hits.len() == q,
            forall|j: int|
                0 <= j < q ==> #[trigger] query_searched(
                    pl,
                    lists@,
                    k,
                    ef_search,
                    filter,
                    gd,
                    sd,
                    stop_when_full,
                    hits,
                    j,
                ),
            ids@ == all_ids(hits, k),
            dists@ == all_dists(hits, k),
    {
        let through_graph = |l: usize, row: usize| -> (r: u32)
            requires
                l < lists@.len(),
                row < lists@[l as int].ids@.len(),
            ensures
                r == gd(q, l, row),
            {
                assert(graph_row_counts(lists@)[l as int] == lists@[l as int].ids@.len());
                graph_distance(q, l, row)
            };
        let one_by_one = |l: usize, row: usize| -> (r: u32)
            requires
                l < lists@.len(),
                row < lists@[l as int].ids@.len(),
            ensures
                r == sd(q, l, row),
            {
                assert(graph_row_counts(lists@)[l as int] == lists@[l as int].ids@.len());
                scan_distance(q, l, row)
            };
        let found: Vec<Hit> = hnsw_search::search_picked_lists(
            lists,
            &picks[q],
            k,
            ef_search,
            filter,
            &through_graph,
            &one_by_one,
            stop_when_full,
            Ghost(of_query(gd, q)),
            Ghost(of_query(sd, q)),
        );
        append_results(&mut ids, &mut dists, &found, k);
        proof {
            let before = hits;
            hits = hits.push(found@);
            assert(hits.drop_last() =~= before);
            assert(pl[q as int] == picks@[q as int]@);
            assert forall|j: int| 0 <= j < q + 1 implies #[trigger] query_searched(
                pl,
                lists@,
                k,
                ef_search,
                filter,
                gd,
                sd,
                stop_when_full,
                hits,
                j,
            ) by {
                if j < q {
                    assert(query_searched(
                        pl,
                        lists@,
                        k,
                        ef_search,
                        filter,
                        gd,
                        sd,
                        stop_when_full,
                        before,
                        j,
                    ));
                    assert(hits[j] == before[j]);
                }
            }
        }
    }
    assert(queries_searched(
        pl,
        lists@,
        k,
        ef_search,
        filter,
        gd,
        sd,
        stop_when_full,
        hits,
    ));
    (ids, dists)
}

/// For each query, where the lists that it probes are among those that were read.
pub open spec fn batch_picks(probes: Seq<Seq<usize>>, loaded: Seq<usize>) -> Seq<Seq<usize>> {
    Seq::new(probes.len(), |q: int| picks_of(probes[q], loaded))
}

/// For each query, where the lists that it probes are among those that were read.
fn pick_for_all(probes: &Vec<Vec<usize>>, loaded: &Vec<usize>) -> (r: Vec<Vec<usize>>)
    ensures
        probe_lists(r@) == batch_picks(probe_lists(probes@), loaded@),
        forall|q: int, j: int|
            0 <= q < r@.len() && 0 <= j < r@[q]@.len() ==> #[trigger] r@[q]@[j] < loaded@.len(),
{
    let mut r: Vec<Vec<usize>> = Vec::new();
    for q in 0..probes.len()
        invariant
            r@.len() == q,
            forall|i: int|
                0 <= i < q ==> (#[trigger] r@[i])@ == picks_of(probes@[i]@, loaded@),
            forall|i: int, j: int|
                0 <= i < r@.len() && 0 <= j < r@[i]@.len() ==> #[trigger] r@[i]@[j] < loaded@.len(),
    {
        r.push(pick_lists(&probes[q], loaded));
    }
    assert(probe_lists(r@) =~= batch_picks(probe_lists(probes@), loaded@));
    r
}

/// Searches lists with graphs, for many queries: `lists[i]` is list `loaded[i]`, and each query
/// looks at those that it probes.
pub fn search_hnsw_batch<
    T: RowIdFilter,
    F: Fn(usize, usize, usize) -> u32,
    S: Fn(usize, usize, usize) -> u32,
>(
    probes: &Vec<Vec<usize>>,
    loaded: &Vec<usize>,
    lists: &Vec<HnswSearchList>,
    k: usize,
    ef_search: usize,
    filter: Option<&T>,
    graph_distance: &F,
    scan_distance: &S,
) -> (r: (Vec<i64>, Vec<u32>))
    requires
        loaded@.len() == lists@.len(),
        hnsw_search::all_well_formed(lists@),
        gives_batch_distances(*graph_distance, probes@.len(), graph_row_counts(lists@)),
        gives_batch_distances(*scan_distance, probes@.len(), graph_row_counts(lists@)),
    ensures
        exists|hits: Seq<Seq<Hit>>|
            #[trigger] queries_searched(
                batch_picks(probe_lists(probes@), loaded@),
                lists@,
                k,
                ef_search,
                filter,
                batch_distances(*graph_distance),
                batch_distances(*scan_distance),
                true,
                hits,
            ) && r.0@ == all_ids(hits, k) && r.1@ == all_dists(hits, k),
{
    let picks: Vec<Vec<usize>> = pick_for_all(probes, loaded);
    assert(picks@.len() == probe_lists(picks@).len());
    search_hnsw_picks(&picks, lists, k, ef_search, filter, graph_distance, scan_distance, true)
}

/// The positions of all lists.
fn every_list(n: usize) -> (r: Vec<usize>)
    ensures
        r@ == sort::positions(0, n as int),
{
    let mut r: Vec<usize> = Vec::new();
    for i in 0..n
        invariant
            r@ == sort::positions(0, i as int),
    {
        r.push(i);
        assert(r@ =~= sort::positions(0, i + 1));
    }
    r
}

/// Searches lists that are scanned row by row, for one query.
pub fn search_flat_lists<T: RowIdFilter, F: Fn(usize, usize) -> u32>(
    lists: &Vec<Vec<i64>>,
    k: usize,
    filter: Option<&T>,
    distance: &F,
) -> (r: (Vec<i64>, Vec<u32>))
    requires
        id_rows_agree(*distance, hnsw_layer::pair_distances(*distance), lists@),
        rows_can_be_ranked(
            k,
            hnsw_layer::pair_distances(*distance),
            lists@,
            sort::positions(0, lists@.len() as int),
            filter,
        ),
    ensures
        ({
            let hits = flat_hits(
                lists@,
                sort::positions(0, lists@.len() as int),
                k,
                filter,
                hnsw_layer::pair_distances(*distance),
            );
            r.0@ == padded_ids(hits, k) && r.1@ == padded_dists(hits, k)
        }),
{
    let picks: Vec<usize> = every_list(lists.len());
    let hits: Vec<Hit> = scan_flat_lists(
        lists,
        &picks,
        k,
        filter,
        distance,
        Ghost(hnsw_layer::pair_distances(*distance)),
    );
    let mut ids: Vec<i64> = Vec::new();
    let mut dists: Vec<u32> = Vec::new();
    append_results(&mut ids, &mut dists, &hits, k);
    proof {
        assert(ids@ =~= padded_ids(hits@, k));
        assert(dists@ =~= padded_dists(hits@, k));
    }
    (ids, dists)
}

/// Searches lists with graphs, for one query.
pub fn search_hnsw_lists<
    T: RowIdFilter,
    F: Fn(usize, usize) -> u32,
    S: Fn(usize, usize) -> u32,
>(
    lists: &Vec<HnswSearchList>,
    k: usize,
    ef_search: usize,
    filter: Option<&T>,
    graph_distance: &F,
    scan_distance: &S,
) -> (r: (Vec<i64>, Vec<u32>))
    requires
        hnsw_search::all_well_formed(lists@),
        hnsw_search::rows_agree(
            *graph_distance,
            hnsw_layer::pair_distances(*graph_distance),
            lists@,
        ),
        hnsw_search::rows_agree(*scan_distance, hnsw_layer::pair_distances(*scan_distance), lists@),
    ensures
        exists|hits: Seq<Hit>|
            #[trigger] hnsw_search::search_outcome(
                lists@,
                sort::positions(0, lists@.len() as int),
                k,
                ef_search,
                filter,
                hnsw_layer::pair_distances(*graph_distance),
                hnsw_layer::pair_distances(*scan_distance),
                false,
                hits,
            ) && r.0@ == padded_ids(hits, k) && r.1@ == padded_dists(hits, k),
{
    let picks: Vec<usize> = every_list(lists.len());
    let hits: Vec<Hit> = hnsw_search::search_picked_lists(
        lists,
        &picks,
        k,
        ef_search,
        filter,
        graph_distance,
        scan_distance,
        false,
        Ghost(hnsw_layer::pair_distances(*graph_distance)),
        Ghost(hnsw_layer::pair_distances(*scan_distance)),
    );
    let mut ids: Vec<i64> = Vec::new();
    let mut dists: Vec<u32> = Vec::new();
    append_results(&mut ids, &mut dists, &hits, k);
    proof {
        assert(ids@ =~= padded_ids(hits@, k));
        assert(dists@ =~= padded_dists(hits@, k));
    }
    (ids, dists)
}

proof fn lemma_picks_prefix(probe: Seq<usize>, loaded: Seq<usize>)
    requires
        loaded.len() <= usize::MAX,
        forall|i: int| 0 <= i < loaded.len() ==> probe.contains(#[trigger] loaded[i]),
    ensures
        picks_of(probe, loaded) == sort::positions(0, loaded.len() as int),
    decreases loaded.len(),
{
    if loaded.len() > 0 {
        let front = loaded.drop_last();
        assert forall|i: int| 0 <= i < front.len() implies probe.contains(#[trigger] front[i]) by {
            assert(front[i] == loaded[i]);
        }
        lemma_picks_prefix(probe, front);
        assert(probe.contains(loaded[loaded.len() - 1]));
    }
    assert(picks_of(probe, loaded) =~= sort::positions(0, loaded.len() as int));
}

proof fn lemma_seen_new(probe: Seq<usize>)
    requires
        probe.no_duplicates(),
    ensures
        seen_after(probe, Seq::empty()) == probe,
    decreases probe.len(),
{
    if probe.len() > 0 {
        let front = probe.drop_last();
        lemma_seen_new(front);
        assert(!front.contains(probe.last())) by {
            if front.contains(probe.last()) {
                let j = choose|j: int| 0 <= j < front.len() && front[j] == probe.last();
                assert(probe[j] == probe[probe.len() - 1]);
            }
        }
        assert(front.push(probe.last()) =~= probe);
    } else {
        assert(seen_after(probe, Seq::empty()) =~= probe);
    }
}

/// A query alone reads the lists that it probes, in their order, and looks at every one of them.
pub proof fn one_query_alone(probe: Seq<usize>)
    requires
        probe.no_duplicates(),
        probe.len() <= usize::MAX,
    ensures
        lists_to_read(seq![probe]) == probe,
        picks_of(probe, probe) == sort::positions(0, probe.len() as int),
{
    assert(seq![probe].drop_last() =~= Seq::<Seq<usize>>::empty());
    reveal_with_fuel(lists_to_read, 2);
    lemma_seen_new(probe);
    assert forall|i: int| 0 <= i < probe.len() implies probe.contains(#[trigger] probe[i]) by {}
    lemma_picks_prefix(probe, probe);
}

/// The ids of all rows of the lists, list by list.
pub open spec fn list_ids(lists: Seq<HnswSearchList>) -> Seq<Vec<i64>> {
    Seq::new(lists.len(), |i: int| *lists[i].ids)
}

proof fn lemma_unique_of_append(data: Seq<Hit>, k: usize, a: Seq<Hit>, b: Seq<Hit>)
    ensures
        topk::unique_of(data, k, a + b) == topk::unique_of(topk::unique_of(data, k, a), k, b),
    decreases b.len(),
{
    if b.len() == 0 {
        assert(a + b =~= a);
    } else {
        lemma_unique_of_append(data, k, a, b.drop_last());
        assert((a + b).drop_last() =~= a + b.drop_last());
    }
}

proof fn lemma_forced_states<T: RowIdFilter>(
    lists: Seq<HnswSearchList>,
    picks: Seq<usize>,
    k: usize,
    width: usize,
    filter: Option<&T>,
    graph_dist: spec_fn(usize, usize) -> u32,
    scan_dist: spec_fn(usize, usize) -> u32,
    states: Seq<Seq<Hit>>,
    n: int,
)
    requires
        hnsw_search::lists_searched(
            lists,
            picks,
            k,
            width,
            true,
            filter,
            graph_dist,
            scan_dist,
            states,
        ),
        forall|i: int| 0 <= i < picks.len() ==> #[trigger] picks[i] < lists.len(),
        0 <= n <= picks.len(),
    ensures
        states[n] == topk::unique_of(
            Seq::empty(),
            k,
            rows_of_lists(list_ids(lists), picks, n as nat, filter, scan_dist),
        ),
    decreases n,
{
    if n > 0 {
        lemma_forced_states(
            lists,
            picks,
            k,
            width,
            filter,
            graph_dist,
            scan_dist,
            states,
            n - 1,
        );
        assert(hnsw_search::pick_searched(
            lists,
            picks,
            k,
            width,
            true,
            filter,
            graph_dist,
            scan_dist,
            states,
            n - 1,
        ));
        let at = picks[n - 1];
        let here = hnsw_search::admitted_rows(
            list_ids(lists)[at as int]@,
            filter,
            hnsw_search::of_list(scan_dist, at),
        );
        lemma_unique_of_append(
            Seq::empty(),
            k,
            rows_of_lists(list_ids(lists), picks, (n - 1) as nat, filter, scan_dist),
            here,
        );
        assert(lists[at as int]@.ids == list_ids(lists)[at as int]@);
    }
}

/// Where few rows pass the filter a search through graphs is exact: it finds the closest rows of
/// the lists that pass the filter, as a scan of every row would.
pub proof fn few_matches_are_found_exactly<T: RowIdFilter>(
    lists: Seq<HnswSearchList>,
    picks: Seq<usize>,
    k: usize,
    ef_search: usize,
    filter: Option<&T>,
    graph_dist: spec_fn(usize, usize) -> u32,
    scan_dist: spec_fn(usize, usize) -> u32,
    stop_when_full: bool,
    result: Seq<Hit>,
)
    requires
        forall|i: int| 0 <= i < picks.len() ==> #[trigger] picks[i] < lists.len(),
        hnsw_search::few_match(lists, picks, filter, hnsw_search::width_of(k, ef_search)),
        hnsw_search::search_outcome(
            lists,
            picks,
            k,
            ef_search,
            filter,
            graph_dist,
            scan_dist,
            stop_when_full,
            result,
        ),
    ensures
        result == unique_hits(list_ids(lists), picks, k, filter, scan_dist),
{
    let width = hnsw_search::width_of(k, ef_search);
    let states = choose|states: Seq<Seq<Hit>>|
        #[trigger] hnsw_search::lists_searched(
            lists,
            picks,
            k,
            width,
            true,
            filter,
            graph_dist,
            scan_dist,
            states,
        ) && result == topk::sorted_hits(states.last(), topk::by_total());
    lemma_forced_states(
        lists,
        picks,
        k,
        width,
        filter,
        graph_dist,
        scan_dist,
        states,
        picks.len() as int,
    );
}

} // verus!
