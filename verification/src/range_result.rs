//! What a search by distance finds: the rows of each query, one query behind the other.
use vstd::prelude::*;
use vstd::slice;

verus! {

/// What was done for one query.
#[derive(Debug, Clone, Copy, PartialEq, Eq, Structural)]
pub struct RangeSearchStats {
    pub lists_probed: usize,
    pub rows_scanned: usize,
    pub rows_committed: usize,
    pub early_abandoned: usize,
}

pub open spec fn no_stats() -> RangeSearchStats {
    RangeSearchStats { lists_probed: 0, rows_scanned: 0, rows_committed: 0, early_abandoned: 0 }
}

impl Default for RangeSearchStats {
    fn default() -> (r: Self)
        ensures
            r == no_stats(),
    {
        RangeSearchStats { lists_probed: 0, rows_scanned: 0, rows_committed: 0, early_abandoned: 0 }
    }
}

impl RangeSearchStats {
    pub fn lists_probed(&self) -> (r: usize)
        ensures
            r == self.lists_probed,
    {
        self.lists_probed
    }

    pub fn rows_scanned(&self) -> (r: usize)
        ensures
            r == self.rows_scanned,
    {
        self.rows_scanned
    }

    pub fn rows_committed(&self) -> (r: usize)
        ensures
            r == self.rows_committed,
    {
        self.rows_committed
    }

    pub fn early_abandoned(&self) -> (r: usize)
        ensures
            r == self.early_abandoned,
    {
        self.early_abandoned
    }
}

/// What was done for all queries together.
#[derive(Debug, Clone, Copy, PartialEq, Eq, Structural)]
pub struct RangeSearchCallStats {
    pub list_reads: usize,
}

impl RangeSearchCallStats {
    pub fn list_reads(&self) -> (r: usize)
        ensures
            r == self.list_reads,
    {
        self.list_reads
    }
}

/// What was found for one query.
#[derive(Debug)]
pub struct QueryResult<'a> {
    pub labels: &'a [i64],
    pub raw_distances: &'a [u32],
    pub stats: &'a RangeSearchStats,
}

/// What was found for all queries. The rows of the `i`-th one are those from the `i`-th limit up to
/// the next.
#[derive(Debug)]
pub struct RangeSearchResult {
    pub lims: Vec<usize>,
    pub labels: Vec<i64>,
    pub raw_distances: Vec<u32>,
    pub stats: Vec<RangeSearchStats>,
    pub call_stats: RangeSearchCallStats,
}

/// The ids of rows.
pub open spec fn ids_of(rows: Seq<(i64, u32)>) -> Seq<i64> {
    Seq::new(rows.len(), |i: int| rows[i].0)
}

/// The distances of rows.
pub open spec fn distances_of(rows: Seq<(i64, u32)>) -> Seq<u32> {
    Seq::new(rows.len(), |i: int| rows[i].1)
}

/// The rows of all queries, one query behind the other.
pub open spec fn all_rows(rows: Seq<Seq<(i64, u32)>>) -> Seq<(i64, u32)>
    decreases rows.len(),
{
    if rows.len() == 0 {
        Seq::empty()
    } else {
        all_rows(rows.drop_last()) + rows.last()
    }
}

/// The limits between the rows of the queries.
pub open spec fn limits(rows: Seq<Seq<(i64, u32)>>) -> Seq<usize> {
    Seq::new(rows.len() + 1, |i: int| all_rows(rows.subrange(0, i)).len() as usize)
}

impl RangeSearchResult {
    pub open spec fn well_formed(self) -> bool {
        &&& self.lims@.len() == self.stats@.len() + 1
        &&& self.labels@.len() == self.raw_distances@.len()
        &&& forall|i: int, j: int|
            0 <= i <= j < self.lims@.len() ==> #[trigger] self.lims@[i] <= #[trigger] self.lims@[j]
        &&& forall|i: int|
            0 <= i < self.lims@.len() ==> #[trigger] self.lims@[i] <= self.labels@.len()
    }

    pub fn query_count(&self) -> (r: usize)
        requires
            self.well_formed(),
        ensures
            r == self.stats@.len(),
    {
        self.lims.len() - 1
    }

    /// What was found for one query.
    pub fn query(&self, i: usize) -> (r: QueryResult<'_>)
        requires
            self.well_formed(),
            i < self.stats@.len(),
        ensures
            r.labels@ == self.labels@.subrange(
                self.lims@[i as int] as int,
                self.lims@[i + 1] as int,
            ),
            r.raw_distances@ == self.raw_distances@.subrange(
                self.lims@[i as int] as int,
                self.lims@[i + 1] as int,
            ),
            *r.stats == self.stats@[i as int],
    {
        assert(self.lims@.len() == self.lims.len());
        let start: usize = self.lims[i];
        let end: usize = self.lims[i + 1];
        assert(self.lims@[i as int] <= self.lims@[i + 1]);
        QueryResult {
            labels: slice::slice_subrange(self.labels.as_slice(), start, end),
            raw_distances: slice::slice_subrange(self.raw_distances.as_slice(), start, end),
            stats: &self.stats[i],
        }
    }

    pub fn call_stats(&self) -> (r: &RangeSearchCallStats)
        ensures
            *r == self.call_stats,
    {
        &self.call_stats
    }

    pub fn lims(&self) -> (r: &[usize])
        ensures
            r@ == self.lims@,
    {
        self.lims.as_slice()
    }

    pub fn labels(&self) -> (r: &[i64])
        ensures
            r@ == self.labels@,
    {
        self.labels.as_slice()
    }

    pub fn raw_distances(&self) -> (r: &[u32])
        ensures
            r@ == self.raw_distances@,
    {
        self.raw_distances.as_slice()
    }
}

/// Gathers the rows of each query. They may come in any order of queries.
pub struct RangeResultBuilder {
    pub rows: Vec<Vec<(i64, u32)>>,
    pub stats: Vec<RangeSearchStats>,
    pub call_stats: RangeSearchCallStats,
}

pub open spec fn row_lists(v: Seq<Vec<(i64, u32)>>) -> Seq<Seq<(i64, u32)>> {
    Seq::new(v.len(), |i: int| v[i]@)
}

/// The statistics with those of one query replaced.
pub open spec fn with_stats(
    stats: Seq<RangeSearchStats>,
    query: int,
    now: RangeSearchStats,
) -> Seq<RangeSearchStats> {
    stats.update(query, now)
}

impl RangeResultBuilder {
    pub open spec fn well_formed(self) -> bool {
        self.rows@.len() == self.stats@.len()
    }

    pub fn new(nq: usize) -> (r: Self)
        ensures
            r.well_formed(),
            r.rows@.len() == nq,
            row_lists(r.rows@) == Seq::new(nq as nat, |i: int| Seq::<(i64, u32)>::empty()),
            r.stats@ == Seq::new(nq as nat, |i: int| no_stats()),
            r.call_stats.list_reads == 0,
    {
        let mut rows: Vec<Vec<(i64, u32)>> = Vec::new();
        let mut stats: Vec<RangeSearchStats> = Vec::new();
        for i in 0..nq
            invariant
                rows@.len() == i,
                forall|k: int| 0 <= k < i ==> (#[trigger] rows@[k])@.len() == 0,
                stats@ =~= Seq::new(i as nat, |k: int| no_stats()),
        {
            rows.push(Vec::new());
            stats.push(RangeSearchStats::default());
        }
        let r = RangeResultBuilder { rows, stats, call_stats: RangeSearchCallStats { list_reads: 0 } };
        assert(row_lists(r.rows@) =~~= Seq::new(nq as nat, |i: int| Seq::<(i64, u32)>::empty()));
        r
    }

    /// Takes rows of one query, behind those that it has.
    pub fn take_rows(&mut self, query: usize, rows: Vec<(i64, u32)>)
        requires
            old(self).well_formed(),
            query < old(self).rows@.len(),
            old(self).stats@[query as int].rows_committed + rows@.len() <= usize::MAX,
        ensures
            final(self).well_formed(),
            row_lists(final(self).rows@) == row_lists(old(self).rows@).update(
                query as int,
                old(self).rows@[query as int]@ + rows@,
            ),
            final(self).stats@ == with_stats(
                old(self).stats@,
                query as int,
                RangeSearchStats {
                    rows_committed: (old(self).stats@[query as int].rows_committed
                        + rows@.len()) as usize,
                    ..old(self).stats@[query as int]
                },
            ),
            final(self).call_stats == old(self).call_stats,
    {
        let ghost before = row_lists(self.rows@);
        let mut stats: RangeSearchStats = self.stats[query];
        stats.rows_committed = stats.rows_committed + rows.len();
        self.stats.set(query, stats);
        let mut more: Vec<(i64, u32)> = rows;
        self.rows[query].append(&mut more);
        assert(row_lists(self.rows@) =~= before.update(
            query as int,
            old(self).rows@[query as int]@ + rows@,
        ));
    }

    /// Takes one row of a query.
    pub fn push_row(&mut self, query: usize, id: i64, distance: u32)
        requires
            old(self).well_formed(),
            query < old(self).rows@.len(),
            old(self).stats@[query as int].rows_committed < usize::MAX,
        ensures
            final(self).well_formed(),
            row_lists(final(self).rows@) == row_lists(old(self).rows@).update(
                query as int,
                old(self).rows@[query as int]@.push((id, distance)),
            ),
            final(self).stats@ == with_stats(
                old(self).stats@,
                query as int,
                RangeSearchStats {
                    rows_committed: (old(self).stats@[query as int].rows_committed + 1) as usize,
                    ..old(self).stats@[query as int]
                },
            ),
            final(self).call_stats == old(self).call_stats,
    {
        let ghost before = row_lists(self.rows@);
        self.rows[query].push((id, distance));
        assert(row_lists(self.rows@) =~= before.update(
            query as int,
            old(self).rows@[query as int]@.push((id, distance)),
        ));
        let mut stats: RangeSearchStats = self.stats[query];
        stats.rows_committed = stats.rows_committed + 1;
        self.stats.set(query, stats);
    }

    /// Counts a list that was read.
    pub fn record_list_read(&mut self)
        requires
            old(self).call_stats.list_reads < usize::MAX,
        ensures
            final(self).rows@ == old(self).rows@,
            final(self).stats@ == old(self).stats@,
            final(self).call_stats.list_reads == old(self).call_stats.list_reads + 1,
    {
        self.call_stats.list_reads = self.call_stats.list_reads + 1;
    }

    pub fn record_scanned(&mut self, query: usize, rows: usize)
        requires
            old(self).well_formed(),
            query < old(self).rows@.len(),
            old(self).stats@[query as int].rows_scanned + rows <= usize::MAX,
        ensures
            final(self).rows@ == old(self).rows@,
            final(self).call_stats == old(self).call_stats,
            final(self).stats@ == with_stats(
                old(self).stats@,
                query as int,
                RangeSearchStats {
                    rows_scanned: (old(self).stats@[query as int].rows_scanned + rows) as usize,
                    ..old(self).stats@[query as int]
                },
            ),
    {
        let mut stats: RangeSearchStats = self.stats[query];
        stats.rows_scanned = stats.rows_scanned + rows;
        self.stats.set(query, stats);
    }

    pub fn record_early_abandoned(&mut self, query: usize, rows: usize)
        requires
            old(self).well_formed(),
            query < old(self).rows@.len(),
            old(self).stats@[query as int].early_abandoned + rows <= usize::MAX,
        ensures
            final(self).rows@ == old(self).rows@,
            final(self).call_stats == old(self).call_stats,
            final(self).stats@ == with_stats(
                old(self).stats@,
                query as int,
                RangeSearchStats {
                    early_abandoned: (old(self).stats@[query as int].early_abandoned
                        + rows) as usize,
                    ..old(self).stats@[query as int]
                },
            ),
    {
        let mut stats: RangeSearchStats = self.stats[query];
        stats.early_abandoned = stats.early_abandoned + rows;
        self.stats.set(query, stats);
    }

    pub fn record_lists_probed(&mut self, query: usize, lists: usize)
        requires
            old(self).well_formed(),
            query < old(self).rows@.len(),
            old(self).stats@[query as int].lists_probed + lists <= usize::MAX,
        ensures
            final(self).rows@ == old(self).rows@,
            final(self).call_stats == old(self).call_stats,
            final(self).stats@ == with_stats(
                old(self).stats@,
                query as int,
                RangeSearchStats {
                    lists_probed: (old(self).stats@[query as int].lists_probed + lists) as usize,
                    ..old(self).stats@[query as int]
                },
            ),
    {
        let mut stats: RangeSearchStats = self.stats[query];
        stats.lists_probed = stats.lists_probed + lists;
        self.stats.set(query, stats);
    }

    /// Puts the rows of all queries behind each other.
    pub fn build(self) -> (r: RangeSearchResult)
        requires
            self.well_formed(),
            self.rows@.len() < usize::MAX,
            all_rows(row_lists(self.rows@)).len() <= usize::MAX,
        ensures
            r.well_formed(),
            r.lims@ == limits(row_lists(self.rows@)),
            r.labels@ == ids_of(all_rows(row_lists(self.rows@))),
            r.raw_distances@ == distances_of(all_rows(row_lists(self.rows@))),
            r.stats@ == self.stats@,
            r.call_stats == self.call_stats,
    {
        let rows: Vec<Vec<(i64, u32)>> = self.rows;
        let ghost all = row_lists(rows@);
        let n: usize = rows.len();
        let mut lims: Vec<usize> = Vec::new();
        let mut labels: Vec<i64> = Vec::new();
        let mut raw_distances: Vec<u32> = Vec::new();
        assert(all.subrange(0, 0) =~= Seq::<Seq<(i64, u32)>>::empty());
        lims.push(0);
        for q in 0..n
            invariant
                all == row_lists(rows@),
                n == rows@.len(),
                all_rows(all).len() <= usize::MAX,
                lims@.len() == q + 1,
                forall|i: int|
                    0 <= i <= q ==> #[trigger] lims@[i] == all_rows(all.subrange(0, i)).len(),
                labels@ =~= ids_of(all_rows(all.subrange(0, q as int))),
                raw_distances@ =~= distances_of(all_rows(all.subrange(0, q as int))),
        {
            let ghost front = all_rows(all.subrange(0, q as int));
            proof {
                let t = all.subrange(0, q + 1);
                assert(t.drop_last() =~= all.subrange(0, q as int));
                assert(t.last() == rows@[q as int]@);
            }
            let m: usize = rows[q].len();
            for k in 0..m
                invariant
                    q < rows@.len(),
                    m == rows@[q as int]@.len(),
                    labels@ =~= ids_of(front + rows@[q as int]@.subrange(0, k as int)),
                    raw_distances@ =~= distances_of(
                        front + rows@[q as int]@.subrange(0, k as int),
                    ),
            {
                let (id, distance) = rows[q][k];
                labels.push(id);
                raw_distances.push(distance);
            }
            assert(rows@[q as int]@.subrange(0, m as int) =~= rows@[q as int]@);
            lims.push(labels.len());
        }
        assert(all.subrange(0, n as int) =~= all);
        proof {
            assert(lims@ =~= limits(all));
            assert forall|i: int, j: int| 0 <= i <= j < lims@.len() implies #[trigger] lims@[i]
                <= #[trigger] lims@[j] by {
                lemma_prefix_rows(all, i, j);
            }
            assert forall|i: int| 0 <= i < lims@.len() implies #[trigger] lims@[i] <= labels@.len() by {
                lemma_prefix_rows(all, i, n as int);
            }
        }
        RangeSearchResult {
            lims,
            labels,
            raw_distances,
            stats: self.stats,
            call_stats: self.call_stats,
        }
    }
}

/// The rows of the first queries are the first rows.
pub proof fn lemma_prefix_rows(rows: Seq<Seq<(i64, u32)>>, i: int, j: int)
    requires
        0 <= i <= j <= rows.len(),
    ensures
        all_rows(rows.subrange(0, i)).len() <= all_rows(rows.subrange(0, j)).len(),
        all_rows(rows.subrange(0, i)) == all_rows(rows.subrange(0, j)).subrange(
            0,
            all_rows(rows.subrange(0, i)).len() as int,
        ),
    decreases j - i,
{
    let a = all_rows(rows.subrange(0, i));
    let b = all_rows(rows.subrange(0, j));
    if i == j {
        assert(a =~= b.subrange(0, a.len() as int));
    } else {
        lemma_prefix_rows(rows, i, j - 1);
        assert(rows.subrange(0, j).drop_last() =~= rows.subrange(0, j - 1));
        let c = all_rows(rows.subrange(0, j - 1));
        assert(b == c + rows[j - 1]);
        assert(a =~= b.subrange(0, a.len() as int));
    }
}

/// Each query gets its own rows back, all of them and in their order, whatever came in between.
pub proof fn queries_do_not_mix(rows: Seq<Seq<(i64, u32)>>, i: int)
    requires
        0 <= i < rows.len(),
        all_rows(rows).len() <= usize::MAX,
    ensures
        all_rows(rows).subrange(limits(rows)[i] as int, limits(rows)[i + 1] as int) == rows[i],
{
    assert(rows.subrange(0, rows.len() as int) =~= rows);
    lemma_prefix_rows(rows, i, rows.len() as int);
    lemma_prefix_rows(rows, i + 1, rows.len() as int);
    assert(rows.subrange(0, i + 1).drop_last() =~= rows.subrange(0, i));
    let a = all_rows(rows.subrange(0, i));
    let b = all_rows(rows.subrange(0, i + 1));
    assert(b == a + rows[i]);
    let whole = all_rows(rows);
    assert(whole.subrange(a.len() as int, b.len() as int) =~= b.subrange(
        a.len() as int,
        b.len() as int,
    ));
    assert(b.subrange(a.len() as int, b.len() as int) =~= rows[i]);
}

} // verus!
