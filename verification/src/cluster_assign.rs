//! Assigning rows to their nearest centroids.
use crate::float_bits;
use crate::ivf_lists;
use crate::kmeans;
use crate::vector_math::{Arithmetic, VectorMath};
use vstd::prelude::*;

verus! {

/// Rows that are to be clustered: `n` rows of `d` values and `k` clusters. Where it is `balanced`,
/// the distances count against large clusters.
pub struct Clustering {
    pub math: Arithmetic,
    pub data: Seq<u32>,
    pub n: usize,
    pub d: usize,
    pub k: usize,
    pub balanced: bool,
}

/// Zeros, so many.
pub open spec fn zeros(n: nat) -> Seq<usize> {
    Seq::new(n, |i: int| 0usize)
}

/// The distance to the centroid at `at`; the largest finite value where that is not less.
pub open spec fn nearest_distance(dists: Seq<u32>, at: int) -> u32 {
    if 0 <= at < dists.len() && float_bits::lt(dists[at], float_bits::MAX_BITS) {
        dists[at]
    } else {
        float_bits::MAX_BITS
    }
}

/// The values added up, one after the other, beginning with zero.
pub open spec fn sum_of(math: Arithmetic, values: Seq<u32>) -> u32
    decreases values.len(),
{
    if values.len() == 0 {
        0
    } else {
        (math.sum)(sum_of(math, values.drop_last()), values.last())
    }
}

/// Each row is assigned to the nearest centroid by its distances.
pub open spec fn all_nearest(rows: Seq<Seq<u32>>, chosen: Seq<usize>) -> bool {
    &&& chosen.len() == rows.len()
    &&& forall|i: int| 0 <= i < rows.len() ==> kmeans::is_nearest(#[trigger] rows[i], chosen[i] as int)
}

pub open spec fn nearest_distances(rows: Seq<Seq<u32>>, chosen: Seq<usize>) -> Seq<u32> {
    Seq::new(rows.len(), |i: int| nearest_distance(rows[i], chosen[i] as int))
}

impl Clustering {
    /// The data are so many rows, and there is a cluster.
    pub open spec fn well_formed(self) -> bool {
        &&& self.data.len() >= self.n * self.d
        &&& self.k >= 1
        &&& self.n * self.k <= kmeans::MAX_MATRIX_ELEMS || self.k <= kmeans::MAX_MATRIX_ELEMS
    }

    /// The number of rows that are compared with all centroids at once.
    pub open spec fn at_once(self) -> int {
        if self.n * self.k <= kmeans::MAX_MATRIX_ELEMS {
            self.n as int
        } else {
            kmeans::MAX_MATRIX_ELEMS as int / self.k as int
        }
    }

    /// The number of pieces that so many rows are compared in.
    pub open spec fn pieces(self, rows: int) -> nat
        decreases rows,
    {
        if rows <= 0 || self.at_once() <= 0 {
            0
        } else if rows <= self.at_once() {
            1
        } else {
            1 + self.pieces(rows - self.at_once())
        }
    }

    /// Where piece `m` begins.
    pub open spec fn piece_start(self, m: nat) -> int
        decreases m, 0nat,
    {
        if m == 0 {
            0
        } else {
            self.piece_start((m - 1) as nat) + self.piece_len((m - 1) as nat)
        }
    }

    /// How many rows piece `m` has.
    pub open spec fn piece_len(self, m: nat) -> int
        decreases m, 1nat,
    {
        let rest = self.n - self.piece_start(m);
        if rest <= self.at_once() {
            rest
        } else {
            self.at_once()
        }
    }

    /// The sizes of the clusters as they count in a piece.
    pub open spec fn piece_sizes(self, before: Seq<usize>, start: int, len: int) -> Seq<usize> {
        if self.balanced {
            kmeans::cluster_sizes(before.subrange(start, start + len), self.k as nat)
        } else {
            zeros(self.k as nat)
        }
    }

    /// The distances of the rows of a piece.
    pub open spec fn piece_rows(
        self,
        centroids: Seq<u32>,
        before: Seq<usize>,
        start: int,
        len: int,
    ) -> Seq<Seq<u32>> {
        (self.math.distances)(
            self.data.subrange(start * self.d, (start + len) * self.d),
            len as usize,
            self.d,
            centroids,
            self.k,
            self.piece_sizes(before, start, len),
        )
    }

    /// Piece `m` is assigned to its nearest centroids.
    pub open spec fn piece_assigned(
        self,
        centroids: Seq<u32>,
        before: Seq<usize>,
        after: Seq<usize>,
        m: nat,
    ) -> bool {
        let start = self.piece_start(m);
        let len = self.piece_len(m);
        all_nearest(
            self.piece_rows(centroids, before, start, len),
            after.subrange(start, start + len),
        )
    }

    /// The sum of the distances of the rows of piece `m`.
    pub open spec fn piece_total(
        self,
        centroids: Seq<u32>,
        before: Seq<usize>,
        after: Seq<usize>,
        m: nat,
    ) -> u32 {
        let start = self.piece_start(m);
        let len = self.piece_len(m);
        sum_of(
            self.math,
            nearest_distances(
                self.piece_rows(centroids, before, start, len),
                after.subrange(start, start + len),
            ),
        )
    }

    /// The sums of the first pieces.
    pub open spec fn piece_totals(
        self,
        centroids: Seq<u32>,
        before: Seq<usize>,
        after: Seq<usize>,
        m: nat,
    ) -> Seq<u32> {
        Seq::new(m, |i: int| self.piece_total(centroids, before, after, i as nat))
    }

    /// The rows are assigned to their nearest centroids, and `objective` is the sum of their
    /// distances: that of the one piece, or that of the sums of the pieces.
    pub open spec fn assigned(
        self,
        centroids: Seq<u32>,
        before: Seq<usize>,
        after: Seq<usize>,
        objective: u32,
    ) -> bool {
        let count = self.pieces(self.n as int);
        &&& after.len() == self.n
        &&& forall|i: int| 0 <= i < after.len() ==> #[trigger] after[i] < self.k
        &&& forall|m: nat| m < count ==> #[trigger] self.piece_assigned(centroids, before, after, m)
        &&& objective == (if self.n * self.k <= kmeans::MAX_MATRIX_ELEMS {
            if self.n == 0 {
                0
            } else {
                self.piece_total(centroids, before, after, 0)
            }
        } else {
            sum_of(self.math, self.piece_totals(centroids, before, after, count))
        })
    }
}

/// The values from `from` to `to`.
pub fn copied<T: Copy>(values: &Vec<T>, from: usize, to: usize) -> (r: Vec<T>)
    requires
        from <= to <= values@.len(),
    ensures
        r@ == values@.subrange(from as int, to as int),
{
    let mut r: Vec<T> = Vec::new();
    for i in from..to
        invariant
            from <= to <= values@.len(),
            r@ =~= values@.subrange(from as int, i as int),
    {
        r.push(values[i]);
    }
    r
}

/// The first cluster, or no rows, so many times.
pub fn zero_counts(n: usize) -> (r: Vec<usize>)
    ensures
        r@ == zeros(n as nat),
{
    let mut r: Vec<usize> = Vec::new();
    for i in 0..n
        invariant
            r@ =~= zeros(i as nat),
    {
        r.push(0);
    }
    r
}

proof fn lemma_rows(a: int, b: int, n: int, d: int)
    requires
        0 <= a <= b <= n,
        d >= 0,
    ensures
        0 <= a * d <= b * d <= n * d,
        b * d - a * d == (b - a) * d,
{
    assert(0 <= a * d <= b * d <= n * d) by (nonlinear_arith)
        requires
            0 <= a <= b <= n,
            d >= 0,
    ;
    assert(b * d - a * d == (b - a) * d) by (nonlinear_arith);
}

proof fn lemma_nearest_below(dists: Seq<u32>, at: int)
    requires
        kmeans::is_nearest(dists, at),
        dists.len() >= 1,
    ensures
        0 <= at < dists.len(),
{
}

/// Assigns the rows from `start` on, so many, and adds up their distances.
fn assign_piece<V: VectorMath>(
    data: &Vec<u32>,
    n: usize,
    d: usize,
    centroids: &Vec<u32>,
    k: usize,
    before: &Vec<usize>,
    balanced: bool,
    start: usize,
    len: usize,
    after: &mut Vec<usize>,
    math: &V,
) -> (r: u32)
    requires
        math.sound(),
        data@.len() >= n * d,
        centroids@.len() == k * d,
        k >= 1,
        before@.len() == n,
        forall|i: int| 0 <= i < before@.len() ==> #[trigger] before@[i] < k,
        start + len <= n,
    ensures
        ({
            let all = Clustering { math: math.arithmetic(), data: data@, n, d, k, balanced };
            let rows = all.piece_rows(centroids@, before@, start as int, len as int);
            exists|chosen: Seq<usize>|
                {
                    &&& final(after)@ == old(after)@ + chosen
                    &&& #[trigger] all_nearest(rows, chosen)
                    &&& chosen.len() == len
                    &&& forall|i: int| 0 <= i < len ==> #[trigger] chosen[i] < k
                    &&& r == sum_of(math.arithmetic(), nearest_distances(rows, chosen))
                }
        }),
{
    let ghost all = Clustering { math: math.arithmetic(), data: data@, n, d, k, balanced };
    proof {
        lemma_rows(start as int, start + len, n as int, d as int);
        assert(data@.len() == data.len());
    }
    let rows: Vec<u32> = copied(data, start * d, (start + len) * d);
    let sizes: Vec<usize> = if balanced {
        let part: Vec<usize> = copied(before, start, start + len);
        assert forall|i: int| 0 <= i < part@.len() implies #[trigger] part@[i] < k by {
            assert(part@[i] == before@[start + i]);
        }
        kmeans::count_members(&part, k)
    } else {
        zero_counts(k)
    };
    let dists: Vec<Vec<u32>> = math.distances(&rows, len, d, centroids, k, &sizes);
    let ghost found = all.piece_rows(centroids@, before@, start as int, len as int);
    assert(ivf_lists::value_lists(dists@) == found);
    let ghost first = after@;
    let ghost mut chosen: Seq<usize> = Seq::empty();
    let mut total: u32 = 0;
    assert(nearest_distances(found, chosen).subrange(0, 0) =~= Seq::<u32>::empty());
    let ghost mut kept: Seq<u32> = Seq::empty();
    for i in 0..len
        invariant
            math.sound(),
            k >= 1,
            found == ivf_lists::value_lists(dists@),
            dists@.len() == len,
            forall|j: int| 0 <= j < len ==> (#[trigger] dists@[j])@.len() == k,
            after@ == first + chosen,
            chosen.len() == i,
            kept.len() == i,
            forall|j: int| 0 <= j < i ==> #[trigger] chosen[j] < k,
            forall|j: int| 0 <= j < i ==> kmeans::is_nearest(found[j], #[trigger] chosen[j] as int),
            forall|j: int|
                0 <= j < i ==> #[trigger] kept[j] == nearest_distance(found[j], chosen[j] as int),
            total == sum_of(math.arithmetic(), kept),
    {
        let best: usize = kmeans::find_nearest(&dists[i]);
        proof {
            assert(found[i as int] == dists@[i as int]@);
            assert(dists@[i as int]@.len() == k);
            lemma_nearest_below(found[i as int], best as int);
        }
        let best_dist: u32 = if float_bits::less_than(dists[i][best], float_bits::MAX_BITS) {
            dists[i][best]
        } else {
            float_bits::MAX_BITS
        };
        let ghost before_kept = kept;
        total = math.sum(total, best_dist);
        after.push(best);
        proof {
            chosen = chosen.push(best);
            kept = kept.push(best_dist);
            assert(kept.drop_last() =~= before_kept);
            assert(after@ =~= first + chosen);
        }
    }
    proof {
        assert(kept =~= nearest_distances(found, chosen));
        assert(all_nearest(found, chosen));
    }
    total
}

proof fn lemma_at_once(all: Clustering)
    requires
        all.well_formed(),
        all.n >= 1,
    ensures
        1 <= all.at_once(),
        all.at_once() <= all.n || all.n * all.k > kmeans::MAX_MATRIX_ELEMS,
{
    if all.n * all.k > kmeans::MAX_MATRIX_ELEMS {
        let m = kmeans::MAX_MATRIX_ELEMS as int;
        let k = all.k as int;
        assert(m / k >= 1) by (nonlinear_arith)
            requires
                1 <= k <= m,
        ;
    }
}

pub proof fn lemma_pieces(all: Clustering, m: nat)
    requires
        all.at_once() >= 1 || all.n == 0,
    ensures
        0 <= all.piece_start(m) <= all.n,
        0 <= all.piece_len(m),
        all.piece_start(m) + all.piece_len(m) <= all.n,
        all.piece_start(m + 1) == all.piece_start(m) + all.piece_len(m),
    decreases m,
{
    if m > 0 {
        lemma_pieces(all, (m - 1) as nat);
    }
}

/// The first pieces are assigned, and these are their sums.
spec fn pieces_done(
    all: Clustering,
    centroids: Seq<u32>,
    before: Seq<usize>,
    after: Seq<usize>,
    totals: Seq<u32>,
) -> bool {
    &&& after.len() == all.piece_start(totals.len())
    &&& forall|i: int| 0 <= i < after.len() ==> #[trigger] after[i] < all.k
    &&& forall|i: nat| i < totals.len() ==> #[trigger] all.piece_assigned(centroids, before, after, i)
    &&& totals =~= all.piece_totals(centroids, before, after, totals.len())
}

proof fn lemma_one_piece_more(
    all: Clustering,
    centroids: Seq<u32>,
    before: Seq<usize>,
    earlier: Seq<usize>,
    totals: Seq<u32>,
    chosen: Seq<usize>,
    part: u32,
)
    requires
        all.at_once() >= 1,
        pieces_done(all, centroids, before, earlier, totals),
        ({
            let m = totals.len();
            let rows = all.piece_rows(centroids, before, all.piece_start(m), all.piece_len(m));
            &&& all_nearest(rows, chosen)
            &&& part == sum_of(all.math, nearest_distances(rows, chosen))
        }),
        chosen.len() == all.piece_len(totals.len()),
        forall|i: int| 0 <= i < chosen.len() ==> #[trigger] chosen[i] < all.k,
    ensures
        pieces_done(all, centroids, before, earlier + chosen, totals.push(part)),
{
    let m = totals.len();
    let after = earlier + chosen;
    lemma_pieces(all, m);
    assert(after.subrange(earlier.len() as int, after.len() as int) =~= chosen);
    assert forall|i: nat| i < m + 1 implies #[trigger] all.piece_assigned(
        centroids,
        before,
        after,
        i,
    ) && totals.push(part)[i as int] == all.piece_total(centroids, before, after, i) by {
        if i < m {
            lemma_piece_order(all, i, m);
            let s = all.piece_start(i);
            let l = all.piece_len(i);
            lemma_pieces(all, i);
            assert(after.subrange(s, s + l) =~= earlier.subrange(s, s + l));
            assert(all.piece_assigned(centroids, before, earlier, i));
            assert(totals[i as int] == all.piece_totals(centroids, before, earlier, m)[i as int]);
        }
    }
    assert forall|i: int| 0 <= i < m + 1 implies #[trigger] totals.push(part)[i]
        == all.piece_totals(centroids, before, after, m + 1)[i] by {
        assert(all.piece_assigned(centroids, before, after, i as nat));
    }
}

/// Assigns each row to the nearest centroid, and adds up the distances. Where they count, the sizes
/// of the clusters are those of the assignment before.
pub fn assign_clusters_fast<V: VectorMath>(
    data: &Vec<u32>,
    n: usize,
    d: usize,
    centroids: &Vec<u32>,
    k: usize,
    before: &Vec<usize>,
    balanced: bool,
    math: &V,
) -> (r: (Vec<usize>, u32))
    requires
        math.sound(),
        (Clustering { math: math.arithmetic(), data: data@, n, d, k, balanced }).well_formed(),
        centroids@.len() == k * d,
        before@.len() == n,
        forall|i: int| 0 <= i < before@.len() ==> #[trigger] before@[i] < k,
    ensures
        (Clustering { math: math.arithmetic(), data: data@, n, d, k, balanced }).assigned(
            centroids@,
            before@,
            r.0@,
            r.1,
        ),
{
    let ghost all = Clustering { math: math.arithmetic(), data: data@, n, d, k, balanced };
    let mut after: Vec<usize> = Vec::new();
    if n == 0 {
        return (after, 0);
    }
    let at_once: usize = kmeans::rows_at_once(n, k);
    proof {
        assert(at_once == all.at_once());
        lemma_at_once(all);
    }
    let mut total: u32 = 0;
    let mut first: u32 = 0;
    let mut offset: usize = 0;
    let ghost mut totals: Seq<u32> = Seq::empty();
    while offset < n
        invariant
            math.sound(),
            all == (Clustering { math: math.arithmetic(), data: data@, n, d, k, balanced }),
            all.well_formed(),
            centroids@.len() == k * d,
            before@.len() == n,
            forall|i: int| 0 <= i < before@.len() ==> #[trigger] before@[i] < k,
            at_once == all.at_once(),
            at_once >= 1,
            offset == all.piece_start(totals.len()),
            offset <= n,
            all.pieces(n as int) == totals.len() + all.pieces(n - offset),
            pieces_done(all, centroids@, before@, after@, totals),
            total == sum_of(math.arithmetic(), totals),
            (offset == 0) == (totals.len() == 0),
            totals.len() > 0 ==> first == totals[0],
        decreases n - offset,
    {
        let len: usize = if n - offset <= at_once {
            n - offset
        } else {
            at_once
        };
        proof {
            lemma_pieces(all, totals.len());
            assert(len == all.piece_len(totals.len()));
        }
        let ghost earlier = after@;
        let part: u32 = assign_piece(
            data,
            n,
            d,
            centroids,
            k,
            before,
            balanced,
            offset,
            len,
            &mut after,
            math,
        );
        proof {
            let rows = all.piece_rows(centroids@, before@, offset as int, len as int);
            let chosen = choose|chosen: Seq<usize>|
                {
                    &&& after@ == earlier + chosen
                    &&& #[trigger] all_nearest(rows, chosen)
                    &&& chosen.len() == len
                    &&& forall|i: int| 0 <= i < len ==> #[trigger] chosen[i] < k
                    &&& part == sum_of(math.arithmetic(), nearest_distances(rows, chosen))
                };
            lemma_one_piece_more(all, centroids@, before@, earlier, totals, chosen, part);
        }
        let ghost before_totals = totals;
        total = math.sum(total, part);
        if offset == 0 {
            first = part;
        }
        proof {
            totals = totals.push(part);
            assert(totals.drop_last() =~= before_totals);
        }
        offset = offset + len;
    }
    assert(all.pieces(0) == 0);
    match n.checked_mul(k) {
        Some(size) => {
            if size <= kmeans::MAX_MATRIX_ELEMS {
                assert(all.piece_totals(centroids@, before@, after@, totals.len())[0]
                    == all.piece_total(centroids@, before@, after@, 0));
                return (after, first);
            }
        },
        None => {},
    }
    (after, total)
}

pub proof fn lemma_piece_order(all: Clustering, i: nat, m: nat)
    requires
        all.at_once() >= 1,
        i < m,
    ensures
        0 <= all.piece_start(i),
        all.piece_start(i) + all.piece_len(i) <= all.piece_start(m),
    decreases m,
{
    lemma_pieces(all, (m - 1) as nat);
    lemma_pieces(all, i);
    if i < m - 1 {
        lemma_piece_order(all, i, (m - 1) as nat);
    }
}

/// No two places are the nearest.
proof fn lemma_nearest_unique(dists: Seq<u32>, a: int, b: int)
    requires
        kmeans::is_nearest(dists, a),
        kmeans::is_nearest(dists, b),
    ensures
        a == b,
{
    if exists|i: int|
        0 <= i < dists.len() && #[trigger] float_bits::lt(dists[i], float_bits::MAX_BITS) {
        if a < b {
            assert(!float_bits::lt(dists[b], dists[a]));
            assert(float_bits::is_nan(dists[a]) || float_bits::lt(dists[b], dists[a]));
        } else if b < a {
            assert(!float_bits::lt(dists[a], dists[b]));
            assert(float_bits::is_nan(dists[b]) || float_bits::lt(dists[a], dists[b]));
        }
    }
}

/// Row `x` is in one of the pieces from piece `m` on.
pub proof fn lemma_covered(all: Clustering, m: nat, x: int) -> (r: nat)
    requires
        all.at_once() >= 1,
        all.piece_start(m) <= x < all.n,
        all.pieces(all.n as int) == m + all.pieces(all.n - all.piece_start(m)),
    ensures
        r < all.pieces(all.n as int),
        all.piece_start(r) <= x < all.piece_start(r) + all.piece_len(r),
    decreases all.n - all.piece_start(m),
{
    lemma_pieces(all, m);
    if x < all.piece_start(m) + all.piece_len(m) {
        m
    } else {
        lemma_covered(all, m + 1, x)
    }
}

/// Rows are assigned in one way: the same centroids and the same assignment before give the same
/// assignment and the same sum of distances.
pub proof fn assignment_is_determined(
    all: Clustering,
    centroids: Seq<u32>,
    before: Seq<usize>,
    after: Seq<usize>,
    objective: u32,
    other: Seq<usize>,
    other_objective: u32,
)
    requires
        all.n == 0 || all.at_once() >= 1,
        all.assigned(centroids, before, after, objective),
        all.assigned(centroids, before, other, other_objective),
    ensures
        after == other,
        objective == other_objective,
{
    assert forall|x: int| 0 <= x < all.n implies after[x] == other[x] by {
        let m = lemma_covered(all, 0, x);
        lemma_pieces(all, m);
        let start = all.piece_start(m);
        let len = all.piece_len(m);
        let rows = all.piece_rows(centroids, before, start, len);
        assert(all.piece_assigned(centroids, before, after, m));
        assert(all.piece_assigned(centroids, before, other, m));
        let i = x - start;
        assert(kmeans::is_nearest(rows[i], after.subrange(start, start + len)[i] as int));
        assert(kmeans::is_nearest(rows[i], other.subrange(start, start + len)[i] as int));
        lemma_nearest_unique(rows[i], after[x] as int, other[x] as int);
    }
    assert(after =~= other);
}

} // verus!
