use vstd::prelude::*;

use crate::distance::MetricType;
use crate::float_bits;
use crate::hnsw_layer;
use crate::hnsw_search;
use crate::ivf_lists;
use crate::ivf_search;
use crate::row_id_filter;
use crate::row_id_filter::RowIdFilter;
use crate::topk;
use crate::topk::{Hit, TopKHeap};

verus! {

/// What is stored beside the code of a vector: three values by which a distance is estimated.
#[derive(Debug, Clone, Copy, PartialEq, Eq, Structural)]
pub struct RQCodeFactors {
    pub residual_norm_sqr: u32,
    pub vector_norm_sqr: u32,
    pub dp_multiplier: u32,
}

/// Codes of one bit for each dimension in inverted lists.
pub struct IVFRQIndex {
    pub d: usize,
    pub nlist: usize,
    pub metric: MetricType,
    pub quantizer_centroids: Vec<u32>,
    pub rotation_seed: u64,
    pub rotation_rounds: u32,
    pub ids: Vec<Vec<i64>>,
    pub codes: Vec<Vec<u8>>,
    pub factors: Vec<Vec<RQCodeFactors>>,
}

/// What an index of one-bit codes holds.
#[verifier::ext_equal]
pub struct RqModel {
    pub d: usize,
    pub nlist: usize,
    pub metric: MetricType,
    pub centroids: Seq<u32>,
    pub rotation_seed: u64,
    pub rotation_rounds: u32,
    pub ids: Seq<Seq<i64>>,
    pub codes: Seq<Seq<u8>>,
    pub factors: Seq<Seq<RQCodeFactors>>,
}

/// How many bytes hold one bit for each of `d` dimensions.
pub open spec fn code_bytes(d: usize) -> nat {
    ((d + 7) / 8) as nat
}

/// How many bytes hold one bit for each of `d` dimensions.
pub fn code_size_of(d: usize) -> (r: usize)
    ensures
        r == code_bytes(d),
{
    let full: usize = d / 8;
    if d % 8 == 0 {
        full
    } else {
        full + 1
    }
}

impl View for IVFRQIndex {
    type V = RqModel;

    open spec fn view(&self) -> RqModel {
        RqModel {
            d: self.d,
            nlist: self.nlist,
            metric: self.metric,
            centroids: self.quantizer_centroids@,
            rotation_seed: self.rotation_seed,
            rotation_rounds: self.rotation_rounds,
            ids: ivf_lists::id_lists(self.ids@),
            codes: ivf_lists::byte_lists(self.codes@),
            factors: ivf_lists::all_lists(self.factors@),
        }
    }
}

impl RqModel {
    /// As many stored lists as the index has lists.
    pub open spec fn well_formed(self) -> bool {
        &&& self.ids.len() == self.nlist
        &&& self.codes.len() == self.nlist
        &&& self.factors.len() == self.nlist
    }

    /// The index after rows have been added to the lists that they go to.
    pub open spec fn with_rows(
        self,
        codes: Seq<u8>,
        factors: Seq<RQCodeFactors>,
        ids: Seq<i64>,
        assignments: Seq<usize>,
    ) -> RqModel {
        RqModel {
            ids: ivf_lists::extended(self.ids, ids, 1, assignments),
            codes: ivf_lists::extended(self.codes, codes, code_bytes(self.d), assignments),
            factors: ivf_lists::extended(self.factors, factors, 1, assignments),
            ..self
        }
    }
}

impl IVFRQIndex {
    /// An index of `nlist` empty lists without centroids.
    pub fn with_options(
        d: usize,
        nlist: usize,
        metric: MetricType,
        rotation_seed: u64,
        rotation_rounds: u32,
    ) -> (r: Self)
        ensures
            r@.well_formed(),
            r@ == (RqModel {
                d,
                nlist,
                metric,
                centroids: Seq::empty(),
                rotation_seed,
                rotation_rounds,
                ids: Seq::new(nlist as nat, |i: int| Seq::empty()),
                codes: Seq::new(nlist as nat, |i: int| Seq::empty()),
                factors: Seq::new(nlist as nat, |i: int| Seq::empty()),
            }),
    {
        let mut ids: Vec<Vec<i64>> = Vec::new();
        let mut codes: Vec<Vec<u8>> = Vec::new();
        let mut factors: Vec<Vec<RQCodeFactors>> = Vec::new();
        for i in 0..nlist
            invariant
                ids@.len() == i,
                codes@.len() == i,
                factors@.len() == i,
                forall|k: int| 0 <= k < i ==> (#[trigger] ids@[k])@ == Seq::<i64>::empty(),
                forall|k: int| 0 <= k < i ==> (#[trigger] codes@[k])@ == Seq::<u8>::empty(),
                forall|k: int|
                    0 <= k < i ==> (#[trigger] factors@[k])@ == Seq::<RQCodeFactors>::empty(),
        {
            ids.push(Vec::new());
            codes.push(Vec::new());
            factors.push(Vec::new());
        }
        let r = IVFRQIndex {
            d,
            nlist,
            metric,
            quantizer_centroids: Vec::new(),
            rotation_seed,
            rotation_rounds,
            ids,
            codes,
            factors,
        };
        proof {
            assert(r@.ids =~= Seq::new(nlist as nat, |i: int| Seq::<i64>::empty()));
            assert(r@.codes =~= Seq::new(nlist as nat, |i: int| Seq::<u8>::empty()));
            assert(r@.factors =~= Seq::new(nlist as nat, |i: int| Seq::<RQCodeFactors>::empty()));
        }
        r
    }

    /// How many bytes the code of a vector takes.
    pub fn code_size(&self) -> (r: usize)
        ensures
            r == code_bytes(self@.d),
    {
        code_size_of(self.d)
    }

    /// Adds encoded rows to the lists that they go to; within a list they keep their order.
    pub fn append_encoded_rows(
        &mut self,
        codes: &Vec<u8>,
        factors: &Vec<RQCodeFactors>,
        ids: &Vec<i64>,
        assignments: &Vec<usize>,
    )
        requires
            old(self)@.well_formed(),
            ids@.len() == assignments@.len(),
            factors@.len() == assignments@.len(),
            codes@.len() == assignments@.len() * code_bytes(old(self)@.d),
            forall|i: int|
                0 <= i < assignments@.len() ==> #[trigger] assignments@[i] < old(self)@.nlist,
        ensures
            final(self)@.well_formed(),
            final(self)@ == old(self)@.with_rows(codes@, factors@, ids@, assignments@),
    {
        let ghost before = self@;
        assert(ivf_lists::id_lists(self.ids@) =~= ivf_lists::all_lists(self.ids@));
        assert(ivf_lists::byte_lists(self.codes@) =~= ivf_lists::all_lists(self.codes@));
        let width: usize = self.code_size();
        ivf_lists::append_assigned(&mut self.ids, ids, 1, assignments);
        ivf_lists::append_assigned(&mut self.codes, codes, width, assignments);
        ivf_lists::append_assigned(&mut self.factors, factors, 1, assignments);
        proof {
            assert(ivf_lists::id_lists(self.ids@) =~= ivf_lists::all_lists(self.ids@));
            assert(ivf_lists::byte_lists(self.codes@) =~= ivf_lists::all_lists(self.codes@));
            assert(self@ =~= before.with_rows(codes@, factors@, ids@, assignments@));
        }
    }

    /// How many rows the lists hold together.
    pub fn total_vectors(&self) -> (r: usize)
        requires
            ivf_lists::total_rows(self@.ids) <= usize::MAX,
        ensures
            r == ivf_lists::total_rows(self@.ids),
    {
        let ghost all = ivf_lists::id_lists(self.ids@);
        let mut sum: usize = 0;
        assert(all.take(0) =~= Seq::<Seq<i64>>::empty());
        for i in 0..self.ids.len()
            invariant
                all == ivf_lists::id_lists(self.ids@),
                ivf_lists::total_rows(all) <= usize::MAX,
                sum == ivf_lists::total_rows(all.take(i as int)),
        {
            proof {
                assert(all.take(i + 1).drop_last() =~= all.take(i as int));
                assert(all[i as int] == self.ids@[i as int]@);
                ivf_lists::lemma_total_prefix(all, i + 1);
            }
            sum = sum + self.ids[i].len();
        }
        assert(all.take(all.len() as int) =~= all);
        sum
    }
}

/// A row with a bound that its distance should not fall below: the bound, the distance, the id.
pub type BoundedRow = (u32, u32, i64);

/// The kept rows after one more has come: it is looked at only where its bound and its distance
/// could be kept.
pub open spec fn pruned_after(data: Seq<Hit>, k: usize, row: BoundedRow) -> Seq<Hit> {
    if topk::considered(data, k, row.0) && topk::considered(data, k, row.1) {
        topk::unique_after(data, k, (row.1, row.2))
    } else {
        data
    }
}

/// The kept rows after all of `rows` have come one by one.
pub open spec fn pruned_of(data: Seq<Hit>, k: usize, rows: Seq<BoundedRow>) -> Seq<Hit>
    decreases rows.len(),
{
    if rows.len() == 0 {
        data
    } else {
        pruned_after(pruned_of(data, k, rows.drop_last()), k, rows.last())
    }
}

/// The rows that pass the filter, each with its bound and its distance, in their order.
pub open spec fn bounded_rows<T: RowIdFilter>(
    ids: Seq<i64>,
    filter: Option<&T>,
    bound: spec_fn(usize) -> u32,
    dist: spec_fn(usize) -> u32,
) -> Seq<BoundedRow>
    decreases ids.len(),
{
    if ids.len() == 0 {
        Seq::empty()
    } else {
        let front = bounded_rows(ids.drop_last(), filter, bound, dist);
        let at = (ids.len() - 1) as usize;
        if row_id_filter::passes(filter, ids.last()) {
            front.push((bound(at), dist(at), ids.last()))
        } else {
            front
        }
    }
}

/// The rows of the first `n` lists at `picks` that pass the filter.
pub open spec fn bounded_rows_of_lists<T: RowIdFilter>(
    lists: Seq<Vec<i64>>,
    picks: Seq<usize>,
    n: nat,
    filter: Option<&T>,
    bound: spec_fn(usize, usize) -> u32,
    dist: spec_fn(usize, usize) -> u32,
) -> Seq<BoundedRow>
    decreases n,
{
    if n == 0 {
        Seq::empty()
    } else {
        bounded_rows_of_lists(lists, picks, (n - 1) as nat, filter, bound, dist) + bounded_rows(
            lists[picks[n - 1] as int]@,
            filter,
            hnsw_search::of_list(bound, picks[n - 1]),
            hnsw_search::of_list(dist, picks[n - 1]),
        )
    }
}

/// The closest rows of the lists at `picks`, one for each id.
pub open spec fn pruned_hits<T: RowIdFilter>(
    lists: Seq<Vec<i64>>,
    picks: Seq<usize>,
    k: usize,
    filter: Option<&T>,
    bound: spec_fn(usize, usize) -> u32,
    dist: spec_fn(usize, usize) -> u32,
) -> Seq<Hit> {
    topk::sorted_hits(
        pruned_of(
            Seq::empty(),
            k,
            bounded_rows_of_lists(lists, picks, picks.len(), filter, bound, dist),
        ),
        topk::by_total(),
    )
}

/// What each query finds in the lists at `picks`.
pub open spec fn pruned_picks<T: RowIdFilter>(
    picks: Seq<Seq<usize>>,
    lists: Seq<Vec<i64>>,
    k: usize,
    filter: Option<&T>,
    bound: spec_fn(usize, usize, usize) -> u32,
    dist: spec_fn(usize, usize, usize) -> u32,
) -> Seq<Seq<Hit>> {
    Seq::new(
        picks.len(),
        |q: int|
            pruned_hits(
                lists,
                picks[q],
                k,
                filter,
                ivf_search::of_query(bound, q as usize),
                ivf_search::of_query(dist, q as usize),
            ),
    )
}

pub open spec fn without_bounds(rows: Seq<BoundedRow>) -> Seq<Hit> {
    Seq::new(rows.len(), |i: int| (rows[i].1, rows[i].2))
}

/// Neither bound nor distance is a NaN, and the distance is not below the bound.
pub open spec fn bounds_hold(rows: Seq<BoundedRow>) -> bool {
    forall|i: int|
        0 <= i < rows.len() ==> !float_bits::is_nan((#[trigger] rows[i]).0) && !float_bits::is_nan(
            rows[i].1,
        ) && !float_bits::lt(rows[i].1, rows[i].0)
}

/// Bounds that hold save work and nothing else: the rows that are kept are those that would be
/// kept if every row was looked at.
pub proof fn bounds_change_nothing(data: Seq<Hit>, k: usize, rows: Seq<BoundedRow>)
    requires
        bounds_hold(rows),
        topk::no_nan(data),
        data.len() <= k,
    ensures
        pruned_of(data, k, rows) == topk::unique_of(data, k, without_bounds(rows)),
        topk::no_nan(pruned_of(data, k, rows)),
        pruned_of(data, k, rows).len() <= k,
    decreases rows.len(),
{
    if rows.len() > 0 {
        let front = rows.drop_last();
        assert forall|i: int| 0 <= i < front.len() implies !float_bits::is_nan(
            (#[trigger] front[i]).0,
        ) && !float_bits::is_nan(front[i].1) && !float_bits::lt(front[i].1, front[i].0) by {
            assert(front[i] == rows[i]);
        }
        bounds_change_nothing(data, k, front);
        let before = pruned_of(data, k, front);
        let row = rows[rows.len() - 1];
        assert(without_bounds(rows).drop_last() =~= without_bounds(front));
        topk::lemma_unique_after_no_nan(before, k, (row.1, row.2));
        topk::lemma_position(before, row.2);
        if !topk::considered(before, k, row.0) {
            topk::what_is_not_considered_changes_nothing(before, k, row.0, row.1, row.2);
        } else if !topk::considered(before, k, row.1) {
            topk::what_is_not_considered_changes_nothing(before, k, row.1, row.1, row.2);
        }
    } else {
        assert(without_bounds(rows) =~= Seq::<Hit>::empty());
    }
}

proof fn lemma_pruned_push(data: Seq<Hit>, k: usize, rows: Seq<BoundedRow>, row: BoundedRow)
    ensures
        pruned_of(data, k, rows.push(row)) == pruned_after(pruned_of(data, k, rows), k, row),
{
    assert(rows.push(row).drop_last() =~= rows);
}

proof fn lemma_pruned_append(data: Seq<Hit>, k: usize, a: Seq<BoundedRow>, b: Seq<BoundedRow>)
    ensures
        pruned_of(data, k, a + b) == pruned_of(pruned_of(data, k, a), k, b),
    decreases b.len(),
{
    if b.len() == 0 {
        assert(a + b =~= a);
    } else {
        lemma_pruned_append(data, k, a, b.drop_last());
        assert((a + b).drop_last() =~= a + b.drop_last());
    }
}

/// Scans a list: a row is estimated in full only where its bound could be kept.
pub(crate) fn scan_list<T: RowIdFilter, L: Fn(usize) -> u32, F: Fn(usize) -> u32>(
    ids: &Vec<i64>,
    filter: Option<&T>,
    lower: &L,
    full: &F,
    heap: &mut TopKHeap,
    Ghost(bound): Ghost<spec_fn(usize) -> u32>,
    Ghost(dist): Ghost<spec_fn(usize) -> u32>,
)
    requires
        hnsw_layer::agrees(*lower, bound, ids@.len()),
        hnsw_layer::agrees(*full, dist, ids@.len()),
        old(heap).well_formed(),
    ensures
        final(heap).well_formed(),
        final(heap).k == old(heap).k,
        final(heap)@ == pruned_of(
            old(heap)@,
            old(heap).k,
            bounded_rows(ids@, filter, bound, dist),
        ),
{
    let ghost start = heap@;
    let ghost k = heap.k;
    assert(ids@.take(0) =~= Seq::<i64>::empty());
    for i in 0..ids.len()
        invariant
            hnsw_layer::agrees(*lower, bound, ids@.len()),
            hnsw_layer::agrees(*full, dist, ids@.len()),
            heap.well_formed(),
            heap.k == k,
            k == old(heap).k,
            start == old(heap)@,
            heap@ == pruned_of(start, k, bounded_rows(ids@.take(i as int), filter, bound, dist)),
    {
        let id: i64 = ids[i];
        assert(ids@.take(i + 1).drop_last() =~= ids@.take(i as int));
        if row_id_filter::row_passes(filter, id) {
            proof {
                lemma_pruned_push(
                    start,
                    k,
                    bounded_rows(ids@.take(i as int), filter, bound, dist),
                    (bound(i), dist(i), id),
                );
            }
            let near: u32 = lower(i);
            if heap.should_consider(near) {
                let here: u32 = full(i);
                if heap.should_consider(here) {
                    heap.push(here, id);
                }
            }
        }
    }
    assert(ids@.take(ids@.len() as int) =~= ids@);
}

impl RqModel {
    pub open spec fn row_counts(self) -> Seq<nat> {
        Seq::new(self.ids.len(), |i: int| self.ids[i].len())
    }
}

impl IVFRQIndex {
    /// Scans the lists that each query probes. A row is estimated in full only where its bound
    /// could be kept.
    pub fn search_with_filter<
        T: RowIdFilter,
        L: Fn(usize, usize, usize) -> u32,
        F: Fn(usize, usize, usize) -> u32,
    >(
        &self,
        probes: &Vec<Vec<usize>>,
        k: usize,
        filter: Option<&T>,
        lower: &L,
        full: &F,
    ) -> (r: (Vec<i64>, Vec<u32>))
        requires
            self@.well_formed(),
            forall|q: int, j: int|
                0 <= q < probes@.len() && 0 <= j < probes@[q]@.len() ==> #[trigger] probes@[q]@[j]
                    < self@.nlist,
            ivf_search::gives_batch_distances(*lower, probes@.len(), self@.row_counts()),
            ivf_search::gives_batch_distances(*full, probes@.len(), self@.row_counts()),
        ensures
            ({
                let hits = pruned_picks(
                    ivf_search::probe_lists(probes@),
                    self.ids@,
                    k,
                    filter,
                    ivf_search::batch_distances(*lower),
                    ivf_search::batch_distances(*full),
                );
                r.0@ == ivf_search::all_ids(hits, k) && r.1@ == ivf_search::all_dists(hits, k)
            }),
    {
        let ghost bound = ivf_search::batch_distances(*lower);
        let ghost dist = ivf_search::batch_distances(*full);
        let ghost picks = ivf_search::probe_lists(probes@);
        let ghost all = pruned_picks(picks, self.ids@, k, filter, bound, dist);
        let ghost counts = self@.row_counts();
        let mut ids: Vec<i64> = Vec::new();
        let mut dists: Vec<u32> = Vec::new();
        assert(all.take(0) =~= Seq::<Seq<Hit>>::empty());
        for q in 0..probes.len()
            invariant
                self@.well_formed(),
                forall|q: int, j: int|
                    0 <= q < probes@.len() && 0 <= j < probes@[q]@.len()
                        ==> #[trigger] probes@[q]@[j] < self@.nlist,
                counts == self@.row_counts(),
                bound == ivf_search::batch_distances(*lower),
                dist == ivf_search::batch_distances(*full),
                ivf_search::gives_batch_distances(*lower, probes@.len(), counts),
                ivf_search::gives_batch_distances(*full, probes@.len(), counts),
                picks == ivf_search::probe_lists(probes@),
                all == pruned_picks(picks, self.ids@, k, filter, bound, dist),
                ids@ == ivf_search::all_ids(all.take(q as int), k),
                dists@ == ivf_search::all_dists(all.take(q as int), k),
        {
            let probe: &Vec<usize> = &probes[q];
            let ghost nears = ivf_search::of_query(bound, q);
            let ghost heres = ivf_search::of_query(dist, q);
            let mut heap: TopKHeap = TopKHeap::new(k);
            for j in 0..probe.len()
                invariant
                    q < probes@.len(),
                    probe@ == probes@[q as int]@,
                    self@.well_formed(),
                    forall|q: int, j: int|
                        0 <= q < probes@.len() && 0 <= j < probes@[q]@.len()
                            ==> #[trigger] probes@[q]@[j] < self@.nlist,
                    counts == self@.row_counts(),
                    bound == ivf_search::batch_distances(*lower),
                    dist == ivf_search::batch_distances(*full),
                    ivf_search::gives_batch_distances(*lower, probes@.len(), counts),
                    ivf_search::gives_batch_distances(*full, probes@.len(), counts),
                    nears == ivf_search::of_query(bound, q),
                    heres == ivf_search::of_query(dist, q),
                    heap.well_formed(),
                    heap.k == k,
                    heap@ == pruned_of(
                        Seq::empty(),
                        k,
                        bounded_rows_of_lists(
                            self.ids@,
                            probe@,
                            j as nat,
                            filter,
                            nears,
                            heres,
                        ),
                    ),
            {
                let l: usize = probe[j];
                assert(probes@[q as int]@[j as int] == l);
                assert(self@.ids[l as int] == self.ids@[l as int]@);
                let n: usize = self.ids[l].len();
                assert(counts[l as int] == n);
                let near = |row: usize| -> (r: u32)
                    requires
                        row < n,
                    ensures
                        r == bound(q, l, row),
                    { lower(q, l, row) };
                let exact = |row: usize| -> (r: u32)
                    requires
                        row < n,
                    ensures
                        r == dist(q, l, row),
                    { full(q, l, row) };
                proof {
                    lemma_pruned_append(
                        Seq::empty(),
                        k,
                        bounded_rows_of_lists(
                            self.ids@,
                            probe@,
                            j as nat,
                            filter,
                            nears,
                            heres,
                        ),
                        bounded_rows(
                            self.ids@[l as int]@,
                            filter,
                            hnsw_search::of_list(nears, l),
                            hnsw_search::of_list(heres, l),
                        ),
                    );
                }
                scan_list(
                    &self.ids[l],
                    filter,
                    &near,
                    &exact,
                    &mut heap,
                    Ghost(hnsw_search::of_list(nears, l)),
                    Ghost(hnsw_search::of_list(heres, l)),
                );
            }
            let hits: Vec<Hit> = heap.into_sorted();
            ivf_search::append_results(&mut ids, &mut dists, &hits, k);
            proof {
                assert(picks[q as int] == probe@);
                assert(hits@ == all[q as int]);
                assert(all.take(q + 1).drop_last() =~= all.take(q as int));
            }
        }
        assert(all.take(all.len() as int) =~= all);
        (ids, dists)
    }
}

} // verus!
