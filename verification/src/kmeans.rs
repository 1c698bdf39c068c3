//! The decisions of k-means clustering: which rows to train with, which centroid is nearest, which
//! cluster gives rows to an empty one.
//!
//! Distances and centroids are bit patterns of single precision; sums and products of them are made
//! by the caller.
use crate::float_bits;
use crate::ivf_lists;
use crate::random;
use crate::sort;
use vstd::prelude::*;

verus! {

/// How clusters are trained. `balance_factor` is a bit pattern of single precision.
#[derive(Debug, Clone, Copy, PartialEq, Eq, Structural)]
pub struct KMeansConfig {
    pub niter: usize,
    pub nredo: usize,
    pub max_points_per_centroid: usize,
    pub seed: u64,
    pub balance_factor: u32,
}

/// The usual settings.
pub open spec fn usual_config() -> KMeansConfig {
    KMeansConfig {
        niter: 25,
        nredo: 1,
        max_points_per_centroid: 256,
        seed: 1234,
        balance_factor: 0,
    }
}

impl Default for KMeansConfig {
    fn default() -> (r: Self)
        ensures
            r == usual_config(),
    {
        KMeansConfig {
            niter: 25,
            nredo: 1,
            max_points_per_centroid: 256,
            seed: 1234,
            balance_factor: 0,
        }
    }
}

/// More clusters than this are trained by splitting.
pub const HIERARCHICAL_THRESHOLD: usize = 256;

/// The most distances that are worked out at once.
pub const MAX_MATRIX_ELEMS: usize = 4_194_304;

/// Tells whether clusters are trained by splitting: there are many of them, and fewer than rows.
pub fn trains_hierarchically(n: usize, k: usize) -> (r: bool)
    ensures
        r == (k > HIERARCHICAL_THRESHOLD && n > k),
{
    k > HIERARCHICAL_THRESHOLD && n > k
}

/// The number of rows to train with: all, but no more than so many for each centroid.
pub fn training_rows(n: usize, k: usize, max_points_per_centroid: usize) -> (r: usize)
    ensures
        r == (if n <= k * max_points_per_centroid {
            n as int
        } else {
            k * max_points_per_centroid
        }),
{
    match k.checked_mul(max_points_per_centroid) {
        Some(most) => if n <= most {
            n
        } else {
            most
        },
        None => n,
    }
}

/// Takes a sample of the rows, none of them twice. Which ones is up to the generator.
pub fn subsample<T: Copy>(
    data: &Vec<T>,
    n: usize,
    d: usize,
    target_n: usize,
    rng: &mut rand::rngs::StdRng,
) -> (r: Vec<T>)
    requires
        data@.len() >= n * d,
        target_n <= n,
    ensures
        exists|picks: Seq<usize>|
            picks.len() == target_n && #[trigger] random::are_picks(picks, n as nat) && r@
                == ivf_lists::gathered(data@, d as nat, random::sampled(n as nat, picks)),
{
    let picks: Vec<usize> = random::draw_picks(n, target_n, rng);
    let rows: Vec<usize> = random::sample_of(n, &picks);
    proof {
        random::samples_do_not_repeat(n as nat, picks@);
    }
    ivf_lists::gather(data, d, &rows, n)
}

/// The rows to train with, from a generator with this seed: all of them, or a sample.
pub fn training_data<T: Copy>(
    data: &Vec<T>,
    n: usize,
    d: usize,
    k: usize,
    config: &KMeansConfig,
) -> (r: Vec<T>)
    requires
        data@.len() >= n * d,
    ensures
        n <= k * config.max_points_per_centroid ==> r@ == data@.take((n * d) as int),
        n > k * config.max_points_per_centroid ==> exists|picks: Seq<usize>|
            picks.len() == k * config.max_points_per_centroid && #[trigger] random::are_picks(
                picks,
                n as nat,
            ) && r@ == ivf_lists::gathered(data@, d as nat, random::sampled(n as nat, picks)),
{
    let train_n: usize = training_rows(n, k, config.max_points_per_centroid);
    if train_n < n {
        let mut rng = random::seeded(config.seed);
        subsample(data, n, d, train_n, &mut rng)
    } else {
        assert(data@.len() == data.len());
        let len: usize = n * d;
        let mut all: Vec<T> = Vec::new();
        for i in 0..len
            invariant
                len <= data@.len(),
                all@ =~= data@.take(i as int),
        {
            all.push(data[i]);
        }
        all
    }
}

/// The rows, over and over, until there are `k`.
pub open spec fn cycle(n: nat, k: nat) -> Seq<usize> {
    Seq::new(k, |i: int| (i % n as int) as usize)
}

/// Takes the rows themselves as centroids where there are no more of them than centroids.
pub fn repeat_rows<T: Copy>(data: &Vec<T>, n: usize, d: usize, k: usize) -> (r: Vec<T>)
    requires
        data@.len() >= n * d,
        n > 0,
    ensures
        r@ == ivf_lists::gathered(data@, d as nat, cycle(n as nat, k as nat)),
{
    let mut order: Vec<usize> = Vec::new();
    for i in 0..k
        invariant
            n > 0,
            order@ =~= cycle(n as nat, i as nat),
    {
        order.push(i % n);
    }
    ivf_lists::gather(data, d, &order, n)
}

/// The place of the nearest centroid: the first with the least distance of those below the largest
/// finite value, and the first of all where there is none.
pub open spec fn is_nearest(dists: Seq<u32>, at: int) -> bool {
    if exists|i: int|
        0 <= i < dists.len() && #[trigger] float_bits::lt(dists[i], float_bits::MAX_BITS) {
        &&& 0 <= at < dists.len()
        &&& float_bits::lt(dists[at], float_bits::MAX_BITS)
        &&& forall|i: int|
            0 <= i < dists.len() ==> !#[trigger] float_bits::lt(dists[i], dists[at])
        &&& forall|i: int|
            0 <= i < at ==> float_bits::is_nan(#[trigger] dists[i]) || float_bits::lt(
                dists[at],
                dists[i],
            )
    } else {
        at == 0
    }
}

/// Finds the nearest centroid by its distance.
pub fn find_nearest(dists: &[u32]) -> (r: usize)
    ensures
        is_nearest(dists@, r as int),
{
    let mut best: usize = 0;
    let mut best_dist: u32 = float_bits::MAX_BITS;
    let mut found: bool = false;
    for i in 0..dists.len()
        invariant
            !found ==> best == 0 && best_dist == float_bits::MAX_BITS,
            found ==> best < i && best_dist == dists@[best as int] && float_bits::lt(
                best_dist,
                float_bits::MAX_BITS,
            ),
            found ==> forall|j: int|
                0 <= j < best ==> float_bits::is_nan(#[trigger] dists@[j]) || float_bits::lt(
                    best_dist,
                    dists@[j],
                ),
            forall|j: int| 0 <= j < i ==> !#[trigger] float_bits::lt(dists@[j], best_dist),
    {
        if float_bits::less_than(dists[i], best_dist) {
            let ghost before = best_dist;
            best_dist = dists[i];
            best = i;
            proof {
                assert forall|j: int| 0 <= j < i implies float_bits::is_nan(#[trigger] dists@[j])
                    || float_bits::lt(best_dist, dists@[j]) by {
                    assert(!float_bits::lt(dists@[j], before));
                }
                assert forall|j: int| 0 <= j < i + 1 implies !#[trigger] float_bits::lt(
                    dists@[j],
                    best_dist,
                ) by {
                    if j < i {
                        assert(!float_bits::lt(dists@[j], before));
                    }
                }
            }
            found = true;
        }
    }
    best
}

/// The places of the distances on the real line.
pub open spec fn distance_keys(dists: Seq<u32>) -> Seq<i128> {
    Seq::new(dists.len(), |i: int| float_bits::value_key(dists[i]) as i128)
}

pub open spec fn no_nan(dists: Seq<u32>) -> bool {
    forall|i: int| 0 <= i < dists.len() ==> !float_bits::is_nan(#[trigger] dists[i])
}

/// The distances can be put into order: there is none to compare another with, or no NaN.
pub open spec fn can_be_ordered(dists: Seq<u32>) -> bool {
    dists.len() > 1 ==> no_nan(dists)
}

/// How many centroids are taken: as many as are asked for, or all.
pub open spec fn taken(k: nat, nprobe: usize) -> int {
    if nprobe <= k {
        nprobe as int
    } else {
        k as int
    }
}

/// The nearest centroids, nearest first, and the lower one first of two that are as near.
pub open spec fn nearest_first(dists: Seq<u32>, nprobe: usize) -> Seq<usize> {
    sort::stable_order(distance_keys(dists)).subrange(0, taken(dists.len(), nprobe))
}

fn key_of(bits: u32) -> (r: i128)
    ensures
        r == float_bits::value_key(bits),
{
    if bits >= 0x8000_0000 {
        0i128 - (bits - 0x8000_0000) as i128
    } else {
        bits as i128
    }
}

/// Finds the nearest centroids by their distances.
pub fn find_topk(dists: &[u32], nprobe: usize) -> (r: (Vec<usize>, Vec<u32>))
    requires
        can_be_ordered(dists@),
    ensures
        r.0@ == nearest_first(dists@, nprobe),
        r.1@ == sort::picked(dists@, nearest_first(dists@, nprobe)),
{
    let mut keys: Vec<i128> = Vec::new();
    for i in 0..dists.len()
        invariant
            keys@ =~= distance_keys(dists@).subrange(0, i as int),
    {
        keys.push(key_of(dists[i]));
    }
    assert(keys@ =~= distance_keys(dists@));
    let order: Vec<usize> = sort::sorted_order(&keys);
    proof {
        assert(dists@.len() == dists.len());
        sort::stable_order_facts(keys@);
    }
    let count: usize = if nprobe <= dists.len() {
        nprobe
    } else {
        dists.len()
    };
    let mut indices: Vec<usize> = Vec::new();
    let mut distances: Vec<u32> = Vec::new();
    for i in 0..count
        invariant
            count == taken(dists@.len(), nprobe),
            order@ == sort::stable_order(distance_keys(dists@)),
            order@.len() == dists@.len(),
            forall|i: int| 0 <= i < order@.len() ==> #[trigger] order@[i] < dists@.len(),
            indices@ =~= order@.subrange(0, i as int),
            distances@ =~= sort::picked(dists@, order@.subrange(0, i as int)),
    {
        let at: usize = order[i];
        indices.push(at);
        distances.push(dists[at]);
    }
    (indices, distances)
}

/// The nearest centroids come first, no centroid comes twice, and one that is not taken is not
/// nearer than any that is.
pub proof fn nearest_come_first(dists: Seq<u32>, nprobe: usize, i: int, j: int, other: usize)
    requires
        no_nan(dists),
        dists.len() <= usize::MAX,
        0 <= i < j < taken(dists.len(), nprobe),
        other < dists.len(),
        !nearest_first(dists, nprobe).contains(other),
    ensures
        ({
            let found = nearest_first(dists, nprobe);
            &&& found[i] < dists.len()
            &&& found[i] != found[j]
            &&& !float_bits::lt(dists[found[j] as int], dists[found[i] as int])
            &&& !float_bits::lt(dists[other as int], dists[found[j] as int])
        }),
{
    let keys = distance_keys(dists);
    sort::stable_order_facts(keys);
    let order = sort::stable_order(keys);
    let found = nearest_first(dists, nprobe);
    assert(found[i] == order[i]);
    assert(found[j] == order[j]);
    assert(order.contains(other));
    let at = choose|at: int| 0 <= at < order.len() && order[at] == other;
    if at < taken(dists.len(), nprobe) {
        assert(found[at] == other);
    }
    assert(keys[order[j] as int] <= keys[order[at] as int]);
    assert(keys[order[i] as int] <= keys[order[j] as int]);
}

/// The distances of all queries, each a row, can be put into order.
pub open spec fn rows_can_be_ordered(rows: Seq<Vec<u32>>) -> bool {
    forall|i: int| 0 <= i < rows.len() ==> can_be_ordered((#[trigger] rows[i])@)
}

/// Finds the nearest centroids of each of several queries.
pub fn find_topk_batch(rows: &Vec<Vec<u32>>, nprobe: usize) -> (r: (
    Vec<Vec<usize>>,
    Vec<Vec<u32>>,
))
    requires
        rows_can_be_ordered(rows@),
    ensures
        r.0@.len() == rows@.len(),
        r.1@.len() == rows@.len(),
        forall|i: int|
            0 <= i < rows@.len() ==> (#[trigger] r.0@[i])@ == nearest_first(rows@[i]@, nprobe),
        forall|i: int|
            0 <= i < rows@.len() ==> (#[trigger] r.1@[i])@ == sort::picked(
                rows@[i]@,
                nearest_first(rows@[i]@, nprobe),
            ),
{
    let mut indices: Vec<Vec<usize>> = Vec::new();
    let mut distances: Vec<Vec<u32>> = Vec::new();
    for q in 0..rows.len()
        invariant
            rows_can_be_ordered(rows@),
            indices@.len() == q,
            distances@.len() == q,
            forall|i: int|
                0 <= i < q ==> (#[trigger] indices@[i])@ == nearest_first(rows@[i]@, nprobe),
            forall|i: int|
                0 <= i < q ==> (#[trigger] distances@[i])@ == sort::picked(
                    rows@[i]@,
                    nearest_first(rows@[i]@, nprobe),
                ),
    {
        assert(can_be_ordered(rows@[q as int]@));
        let (near, dists) = find_topk(&rows[q], nprobe);
        indices.push(near);
        distances.push(dists);
    }
    (indices, distances)
}

/// The number of rows that are compared with all centroids at once.
pub fn rows_at_once(n: usize, k: usize) -> (r: usize)
    requires
        k >= 1,
    ensures
        n * k <= MAX_MATRIX_ELEMS ==> r == n,
        n * k > MAX_MATRIX_ELEMS ==> r == MAX_MATRIX_ELEMS as int / k as int,
        r * k <= MAX_MATRIX_ELEMS,
{
    match n.checked_mul(k) {
        Some(all) => {
            if all <= MAX_MATRIX_ELEMS {
                return n;
            }
        },
        None => {},
    }
    proof {
        vstd::arithmetic::div_mod::lemma_fundamental_div_mod(MAX_MATRIX_ELEMS as int, k as int);
        let q = MAX_MATRIX_ELEMS as int / k as int;
        assert(q * k == k * q) by (nonlinear_arith);
    }
    MAX_MATRIX_ELEMS / k
}

/// How many rows have gone to a cluster.
pub open spec fn members(assignments: Seq<usize>, c: usize) -> nat {
    ivf_lists::rows_for(assignments, c).len()
}

/// The sizes of the clusters.
pub open spec fn cluster_sizes(assignments: Seq<usize>, k: nat) -> Seq<usize> {
    Seq::new(k, |c: int| members(assignments, c as usize) as usize)
}

pub proof fn lemma_members_fit(assignments: Seq<usize>, c: usize)
    ensures
        members(assignments, c) <= assignments.len(),
    decreases assignments.len(),
{
    if assignments.len() > 0 {
        lemma_members_fit(assignments.drop_last(), c);
    }
}

/// Counts the rows of each cluster.
pub fn count_members(assignments: &Vec<usize>, k: usize) -> (r: Vec<usize>)
    requires
        forall|i: int| 0 <= i < assignments@.len() ==> #[trigger] assignments@[i] < k,
    ensures
        r@ == cluster_sizes(assignments@, k as nat),
{
    let mut counts: Vec<usize> = Vec::new();
    for c in 0..k
        invariant
            counts@.len() == c,
            forall|i: int| 0 <= i < c ==> counts@[i] == 0,
    {
        counts.push(0);
    }
    assert(assignments@.subrange(0, 0) =~= Seq::<usize>::empty());
    assert(assignments@.len() == assignments.len());
    for i in 0..assignments.len()
        invariant
            forall|i: int| 0 <= i < assignments@.len() ==> #[trigger] assignments@[i] < k,
            assignments@.len() <= usize::MAX,
            counts@.len() == k,
            forall|c: int|
                0 <= c < k ==> #[trigger] counts@[c] == members(
                    assignments@.subrange(0, i as int),
                    c as usize,
                ),
    {
        let c: usize = assignments[i];
        proof {
            assert(assignments@[i as int] < k);
            let t = assignments@.subrange(0, i + 1);
            assert(t.drop_last() =~= assignments@.subrange(0, i as int));
            assert(t.last() == c);
            lemma_members_fit(assignments@.subrange(0, i as int), c);
        }
        let ghost before = counts@;
        counts.set(c, counts[c] + 1);
        assert forall|x: int| 0 <= x < k implies #[trigger] counts@[x] == members(
            assignments@.subrange(0, i + 1),
            x as usize,
        ) by {
            assert(before[x] == members(assignments@.subrange(0, i as int), x as usize));
        }
    }
    assert(assignments@.subrange(0, assignments@.len() as int) =~= assignments@);
    proof {
        assert forall|c: int| 0 <= c < k implies counts@[c] == #[trigger] cluster_sizes(
            assignments@,
            k as nat,
        )[c] by {
            assert(counts@[c] == members(assignments@, c as usize));
        }
        assert(counts@ =~= cluster_sizes(assignments@, k as nat));
    }
    counts
}

/// Where the centroid of an empty cluster comes from.
#[derive(Debug, Clone, Copy, PartialEq, Eq, Structural)]
pub enum Refill {
    /// It is split off the centroid of the donor.
    Donor { cluster: usize, donor: usize },
    /// It is a row.
    Row { cluster: usize },
}

/// The place of the largest number, the last of several.
pub open spec fn last_largest(counts: Seq<usize>, upto: int) -> int
    decreases upto,
{
    if upto <= 1 {
        0
    } else {
        let before = last_largest(counts, upto - 1);
        if counts[upto - 1] >= counts[before] {
            upto - 1
        } else {
            before
        }
    }
}

/// What an empty cluster gets, and the counts after it: half of what the largest cluster has, or a
/// row where no cluster has two.
pub open spec fn refilled(counts: Seq<usize>, c: int) -> (Refill, Seq<usize>) {
    let donor = last_largest(counts, counts.len() as int);
    if counts[donor] <= 1 {
        (Refill::Row { cluster: c as usize }, counts)
    } else {
        let half = (counts[donor] / 2) as usize;
        (
            Refill::Donor { cluster: c as usize, donor: donor as usize },
            counts.update(c, half).update(donor, (counts[donor] - half) as usize),
        )
    }
}

/// What the empty ones of the first clusters get, and the counts after it.
pub open spec fn refills(counts: Seq<usize>, upto: int) -> (Seq<Refill>, Seq<usize>)
    decreases upto,
{
    if upto <= 0 {
        (Seq::empty(), counts)
    } else {
        let (plan, now) = refills(counts, upto - 1);
        if now[upto - 1] > 0 {
            (plan, now)
        } else {
            let (refill, after) = refilled(now, upto - 1);
            (plan.push(refill), after)
        }
    }
}

pub proof fn lemma_last_largest(counts: Seq<usize>, upto: int)
    requires
        1 <= upto <= counts.len(),
    ensures
        0 <= last_largest(counts, upto) < upto,
        forall|i: int| 0 <= i < upto ==> #[trigger] counts[i] <= counts[last_largest(counts, upto)],
        forall|i: int|
            last_largest(counts, upto) < i < upto ==> #[trigger] counts[i] < counts[last_largest(
                counts,
                upto,
            )],
    decreases upto,
{
    if upto > 1 {
        lemma_last_largest(counts, upto - 1);
    }
}

/// The sum of the counts.
pub open spec fn total(counts: Seq<usize>) -> int
    decreases counts.len(),
{
    if counts.len() == 0 {
        0
    } else {
        total(counts.drop_last()) + counts.last()
    }
}

pub proof fn lemma_total_update(counts: Seq<usize>, i: int, v: usize)
    requires
        0 <= i < counts.len(),
    ensures
        total(counts.update(i, v)) == total(counts) - counts[i] + v,
    decreases counts.len(),
{
    let after = counts.update(i, v);
    if i == counts.len() - 1 {
        assert(after.drop_last() =~= counts.drop_last());
    } else {
        assert(after.drop_last() =~= counts.drop_last().update(i, v));
        lemma_total_update(counts.drop_last(), i, v);
    }
}

/// Refilling moves rows but makes none: the sum of the counts stays, an empty cluster is refilled
/// from one that has at least two rows and keeps at least one, and a cluster that had rows still
/// has some.
pub proof fn refilling_keeps_the_rows(counts: Seq<usize>, upto: int)
    requires
        0 <= upto <= counts.len() <= usize::MAX,
    ensures
        refills(counts, upto).1.len() == counts.len(),
        total(refills(counts, upto).1) == total(counts),
        forall|i: int|
            0 <= i < counts.len() && counts[i] > 0 ==> #[trigger] refills(counts, upto).1[i] > 0,
        forall|i: int| upto <= i < counts.len() && counts[i] == 0 ==> #[trigger] refills(
            counts,
            upto,
        ).1[i] == 0,
        forall|i: int| 0 <= i < refills(counts, upto).0.len() ==> match #[trigger] refills(
            counts,
            upto,
        ).0[i] {
            Refill::Donor { cluster, donor } => cluster < upto && donor < counts.len() && donor
                != cluster && counts[cluster as int] == 0,
            Refill::Row { cluster } => cluster < upto && counts[cluster as int] == 0,
        },
    decreases upto,
{
    if upto > 0 {
        refilling_keeps_the_rows(counts, upto - 1);
        let (plan, now) = refills(counts, upto - 1);
        if now[upto - 1] == 0 {
            lemma_last_largest(now, now.len() as int);
            let donor = last_largest(now, now.len() as int);
            if now[donor] > 1 {
                let half = (now[donor] / 2) as usize;
                lemma_total_update(now, upto - 1, half);
                lemma_total_update(
                    now.update(upto - 1, half),
                    donor,
                    (now[donor] - half) as usize,
                );
                assert forall|i: int| upto <= i < counts.len() && counts[i] == 0 implies
                    #[trigger] refills(counts, upto).1[i] == 0 by {
                    assert(now[i] == 0);
                }
                assert forall|i: int| 0 <= i < counts.len() && counts[i] > 0 implies
                    #[trigger] refills(counts, upto).1[i] > 0 by {
                    assert(now[i] > 0);
                }
            }
        }
    }
}

/// Plans where the centroids of empty clusters come from.
pub fn plan_refills(counts: Vec<usize>) -> (r: Vec<Refill>)
    requires
        counts@.len() >= 1,
    ensures
        r@ == refills(counts@, counts@.len() as int).0,
{
    let mut now: Vec<usize> = counts;
    let ghost all = now@;
    let k: usize = now.len();
    let mut plan: Vec<Refill> = Vec::new();
    for c in 0..k
        invariant
            k == all.len(),
            now@.len() == k,
            refills(all, c as int) == (plan@, now@),
    {
        if now[c] == 0 {
            let mut donor: usize = 0;
            for i in 1..k
                invariant
                    now@.len() == k,
                    donor == last_largest(now@, i as int),
                    donor < k,
            {
                if now[i] >= now[donor] {
                    donor = i;
                }
            }
            if now[donor] <= 1 {
                plan.push(Refill::Row { cluster: c });
            } else {
                let half: usize = now[donor] / 2;
                let rest: usize = now[donor] - half;
                plan.push(Refill::Donor { cluster: c, donor });
                now.set(c, half);
                now.set(donor, rest);
            }
        }
    }
    plan
}

/// Draws a row.
pub fn draw_row(n: usize, rng: &mut rand::rngs::StdRng) -> (r: usize)
    requires
        n >= 1,
    ensures
        r < n,
{
    random::draw(rng, 0, n)
}

} // verus!
