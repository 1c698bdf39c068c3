//! Training on more vectors than fit into memory: each chunk of them is boiled down to centroids,
//! weighted by their rows, and the centroids in the end are trained on these.
use crate::cluster_assign;
use crate::cluster_assign::Clustering;
use crate::cluster_update;
use crate::ivf_lists;
use crate::kmeans;
use crate::kmeans::KMeansConfig;
use crate::random;
use crate::seeding;
use crate::training;
use crate::training::{Round, Run};
use crate::vector_math::{Arithmetic, VectorMath};
use vstd::prelude::*;

verus! {

/// The weighted centroids of the chunks so far.
pub struct StreamingKMeans {
    pub d: usize,
    pub k: usize,
    pub chunk_size: usize,
    pub config: KMeansConfig,
    pub coreset_centroids: Vec<u32>,
    pub coreset_weights: Vec<usize>,
}

/// The values, filled up with zeros.
pub open spec fn filled_up(values: Seq<u32>, len: int) -> Seq<u32> {
    values + Seq::new((len - values.len()) as nat, |i: int| 0u32)
}

/// How a chunk is trained.
pub open spec fn chunk_config(seed: u64) -> KMeansConfig {
    KMeansConfig { niter: 15, nredo: 1, max_points_per_centroid: 256, seed, balance_factor: 0 }
}

impl Clustering {
    /// The weights of the rows of a cluster.
    pub open spec fn cluster_weights(
        self,
        weights: Seq<usize>,
        assignments: Seq<usize>,
        c: int,
    ) -> Seq<usize> {
        ivf_lists::gathered(weights, 1, ivf_lists::rows_for(assignments, c as usize))
    }

    /// The centroids after the first ones have been moved to the weighted mean of their rows. A
    /// cluster without weight gets the row that was drawn.
    pub open spec fn weighted_moved(
        self,
        weights: Seq<usize>,
        centroids: Seq<u32>,
        assignments: Seq<usize>,
        drawn: Seq<usize>,
        upto: int,
    ) -> Seq<u32>
        decreases upto,
    {
        if upto <= 0 {
            centroids
        } else {
            let c = upto - 1;
            let own = self.cluster_weights(weights, assignments, c);
            cluster_update::with_row(
                self.weighted_moved(weights, centroids, assignments, drawn, c),
                self.d as int,
                c,
                if kmeans::total(own) > 0 {
                    (self.math.weighted_mean)(self.cluster_rows(assignments, c), own, self.d)
                } else {
                    self.data_row(drawn[c] as int)
                },
            )
        }
    }

    /// A row for each cluster.
    pub open spec fn are_spare_rows(self, drawn: Seq<usize>) -> bool {
        &&& drawn.len() == self.k
        &&& forall|i: int| 0 <= i < drawn.len() ==> #[trigger] drawn[i] < self.n
    }

    /// The centroids after a weighted update, whichever rows are drawn.
    pub open spec fn weighted_updated(
        self,
        weights: Seq<usize>,
        before: Seq<u32>,
        assignments: Seq<usize>,
        after: Seq<u32>,
    ) -> bool {
        exists|drawn: Seq<usize>| #[trigger]
            self.are_spare_rows(drawn) && after == self.weighted_moved(
                weights,
                before,
                assignments,
                drawn,
                self.k as int,
            )
    }

    pub open spec fn weighted_round_follows(self, weights: Seq<usize>, run: Run, i: int) -> bool {
        let round = run.rounds[i];
        &&& self.assigned(
            run.centroids(i),
            run.assignments(self.n as nat, i),
            round.assignments,
            round.objective,
        )
        &&& self.weighted_updated(weights, run.centroids(i), round.assignments, round.centroids)
    }

    /// A run with weights, from seeds on, of so many rounds.
    pub open spec fn is_weighted_run(self, weights: Seq<usize>, run: Run, niter: nat) -> bool {
        &&& self.seeded(run.init)
        &&& run.rounds.len() == niter
        &&& forall|i: int|
            0 <= i < niter ==> #[trigger] self.weighted_round_follows(weights, run, i)
    }
}

/// Centroids trained on rows with weights, whatever is drawn at random.
pub open spec fn weighted_trained(
    math: Arithmetic,
    config: KMeansConfig,
    data: Seq<u32>,
    weights: Seq<usize>,
    n: usize,
    d: usize,
    k: usize,
    centroids: Seq<u32>,
) -> bool {
    if n <= k {
        centroids == ivf_lists::gathered(data, d as nat, kmeans::cycle(n as nat, k as nat))
    } else {
        let all = Clustering { math, data, n, d, k, balanced: false };
        exists|run: Run| #[trigger]
            all.is_weighted_run(weights, run, config.niter as nat) && centroids == run.centroids(
                config.niter as int,
            )
    }
}

/// Tells whether there is any weight.
fn has_weight(weights: &Vec<usize>) -> (r: bool)
    ensures
        r == (kmeans::total(weights@) > 0),
{
    let mut found: bool = false;
    assert(weights@.subrange(0, 0) =~= Seq::<usize>::empty());
    for i in 0..weights.len()
        invariant
            found == (kmeans::total(weights@.subrange(0, i as int)) > 0),
            kmeans::total(weights@.subrange(0, i as int)) >= 0,
    {
        assert(weights@.subrange(0, i + 1).drop_last() =~= weights@.subrange(0, i as int));
        if weights[i] > 0 {
            found = true;
        }
    }
    assert(weights@.subrange(0, weights@.len() as int) =~= weights@);
    found
}

/// Moves the centroids to the weighted means of their clusters.
fn weighted_update<V: VectorMath>(
    data: &Vec<u32>,
    weights: &Vec<usize>,
    n: usize,
    d: usize,
    centroids: &mut Vec<u32>,
    k: usize,
    assignments: &Vec<usize>,
    rng: &mut rand::rngs::StdRng,
    math: &V,
)
    requires
        math.sound(),
        data@.len() >= n * d,
        weights@.len() == n,
        old(centroids)@.len() == k * d,
        n >= 1,
        assignments@.len() == n,
        forall|i: int| 0 <= i < assignments@.len() ==> #[trigger] assignments@[i] < k,
    ensures
        final(centroids)@.len() == k * d,
        (Clustering {
            math: math.arithmetic(),
            data: data@,
            n,
            d,
            k,
            balanced: false,
        }).weighted_updated(weights@, old(centroids)@, assignments@, final(centroids)@),
{
    let ghost all = Clustering { math: math.arithmetic(), data: data@, n, d, k, balanced: false };
    let ghost first = centroids@;
    let rows: Vec<Vec<u32>> = cluster_update::values_by_cluster(data, d, k, assignments);
    let own: Vec<Vec<usize>> = cluster_update::values_by_cluster(weights, 1, k, assignments);
    let ghost mut drawn: Seq<usize> = Seq::empty();
    for c in 0..k
        invariant
            math.sound(),
            all == (Clustering {
                math: math.arithmetic(),
                data: data@,
                n,
                d,
                k,
                balanced: false,
            }),
            data@.len() >= n * d,
            weights@.len() == n,
            n >= 1,
            assignments@.len() == n,
            rows@.len() == k,
            own@.len() == k,
            forall|c: int|
                0 <= c < k ==> (#[trigger] rows@[c])@ == ivf_lists::gathered(
                    data@,
                    d as nat,
                    ivf_lists::rows_for(assignments@, c as usize),
                ),
            forall|c: int|
                0 <= c < k ==> (#[trigger] own@[c])@ == ivf_lists::gathered(
                    weights@,
                    1,
                    ivf_lists::rows_for(assignments@, c as usize),
                ),
            drawn.len() == c,
            forall|i: int| 0 <= i < c ==> #[trigger] drawn[i] < n,
            centroids@ == all.weighted_moved(weights@, first, assignments@, drawn, c as int),
            centroids@.len() == k * d,
    {
        let ghost before = drawn;
        proof {
            assert(rows@[c as int]@ == all.cluster_rows(assignments@, c as int));
            assert(own@[c as int]@ == all.cluster_weights(weights@, assignments@, c as int));
            let members = ivf_lists::rows_for(assignments@, c);
            assert forall|i: int| 0 <= i < members.len() implies #[trigger] members[i] < n by {
                ivf_lists::each_row_goes_to_its_list(assignments@, c, 0);
            }
            ivf_lists::lemma_gathered_len(data@, d as nat, members, n as nat);
            ivf_lists::lemma_gathered_len(weights@, 1, members, n as nat);
        }
        if has_weight(&own[c]) {
            let middle: Vec<u32> = math.weighted_mean(&rows[c], &own[c], d);
            cluster_update::set_row(centroids, k, d, c, &middle);
            proof {
                drawn = drawn.push(0);
            }
        } else {
            let at: usize = kmeans::draw_row(n, rng);
            proof {
                ivf_lists::lemma_row_bounds(n as nat, d as nat, at as int);
                assert(data@.len() == data.len());
            }
            let row: Vec<u32> = cluster_assign::copied(data, at * d, at * d + d);
            cluster_update::set_row(centroids, k, d, c, &row);
            proof {
                drawn = drawn.push(at);
            }
        }
        proof {
            lemma_same_draws(all, weights@, first, assignments@, before, drawn, c as int);
        }
    }
    assert(all.are_spare_rows(drawn));
}

proof fn lemma_same_draws(
    all: Clustering,
    weights: Seq<usize>,
    centroids: Seq<u32>,
    assignments: Seq<usize>,
    a: Seq<usize>,
    b: Seq<usize>,
    upto: int,
)
    requires
        upto <= a.len(),
        upto <= b.len(),
        forall|i: int| 0 <= i < upto ==> #[trigger] a[i] == b[i],
    ensures
        all.weighted_moved(weights, centroids, assignments, a, upto) == all.weighted_moved(
            weights,
            centroids,
            assignments,
            b,
            upto,
        ),
    decreases upto,
{
    if upto > 0 {
        lemma_same_draws(all, weights, centroids, assignments, a, b, upto - 1);
        assert(a[upto - 1] == b[upto - 1]);
    }
}

/// Trains centroids on rows with weights.
pub fn weighted_kmeans_train<V: VectorMath>(
    config: &KMeansConfig,
    data: &Vec<u32>,
    weights: &Vec<usize>,
    n: usize,
    d: usize,
    k: usize,
    math: &V,
) -> (r: Vec<u32>)
    requires
        math.sound(),
        data@.len() >= n * d,
        weights@.len() == n,
        n >= 1,
        n > k ==> 1 <= k <= kmeans::MAX_MATRIX_ELEMS,
    ensures
        weighted_trained(math.arithmetic(), *config, data@, weights@, n, d, k, r@),
        n > k ==> r@.len() == k * d,
{
    if n <= k {
        return kmeans::repeat_rows(data, n, d, k);
    }
    let ghost all = Clustering { math: math.arithmetic(), data: data@, n, d, k, balanced: false };
    let mut rng = random::seeded(config.seed);
    let mut centroids: Vec<u32> = seeding::kmeans_plusplus_init(data, n, d, k, &mut rng, math);
    let ghost mut run = Run { init: centroids@, rounds: Seq::empty() };
    let mut assignments: Vec<usize> = cluster_assign::zero_counts(n);
    for iter in 0..config.niter
        invariant
            math.sound(),
            all == (Clustering {
                math: math.arithmetic(),
                data: data@,
                n,
                d,
                k,
                balanced: false,
            }),
            data@.len() >= n * d,
            weights@.len() == n,
            n >= 1,
            1 <= k <= kmeans::MAX_MATRIX_ELEMS,
            all.seeded(run.init),
            run.rounds.len() == iter,
            centroids@ == run.centroids(iter as int),
            centroids@.len() == k * d,
            assignments@ == run.assignments(n as nat, iter as int),
            assignments@.len() == n,
            forall|i: int| 0 <= i < n ==> #[trigger] assignments@[i] < k,
            forall|i: int|
                0 <= i < iter ==> #[trigger] all.weighted_round_follows(weights@, run, i),
    {
        let ghost before = run;
        let (chosen, objective): (Vec<usize>, u32) = cluster_assign::assign_clusters_fast(
            data,
            n,
            d,
            &centroids,
            k,
            &assignments,
            false,
            math,
        );
        weighted_update(data, weights, n, d, &mut centroids, k, &chosen, &mut rng, math);
        assignments = chosen;
        proof {
            run = Run {
                init: run.init,
                rounds: run.rounds.push(
                    Round { assignments: assignments@, objective, centroids: centroids@ },
                ),
            };
            assert forall|i: int| 0 <= i < iter + 1 implies #[trigger] all.weighted_round_follows(
                weights@,
                run,
                i,
            ) by {
                if i < iter {
                    assert(all.weighted_round_follows(weights@, before, i));
                    assert(run.rounds[i] == before.rounds[i]);
                }
            }
        }
    }
    assert(all.is_weighted_run(weights@, run, config.niter as nat));
    centroids
}

impl StreamingKMeans {
    /// There are as many centroids as weights.
    pub open spec fn well_formed(self) -> bool {
        &&& self.coreset_centroids@.len() == self.coreset_weights@.len() * self.d
        &&& self.k * self.d <= usize::MAX
    }

    /// The number of rows that the weights stand for.
    pub open spec fn weight(self) -> int {
        kmeans::total(self.coreset_weights@)
    }

    pub fn new(d: usize, k: usize, chunk_size: usize, config: KMeansConfig) -> (r: Self)
        requires
            k * d <= usize::MAX,
        ensures
            r.well_formed(),
            r.d == d,
            r.k == k,
            r.chunk_size == chunk_size,
            r.config == config,
            r.coreset_centroids@.len() == 0,
            r.coreset_weights@.len() == 0,
            r.weight() == 0,
    {
        assert(0 * d == 0) by (nonlinear_arith);
        StreamingKMeans {
            d,
            k,
            chunk_size,
            config,
            coreset_centroids: Vec::new(),
            coreset_weights: Vec::new(),
        }
    }

    /// The number of centroids for a chunk of `n` rows.
    pub open spec fn chunk_k(self, n: usize) -> usize {
        if self.k <= n {
            self.k
        } else {
            n
        }
    }

    /// The seed for the next chunk.
    pub open spec fn chunk_seed(self) -> int {
        self.config.seed + self.coreset_weights@.len()
    }

    /// What a chunk makes of the weighted centroids: its own centroids are trained, and each is
    /// worth as many rows as are assigned to it.
    pub open spec fn with_chunk(
        self,
        math: Arithmetic,
        data: Seq<u32>,
        n: usize,
        after: Self,
    ) -> bool {
        let k = self.chunk_k(n);
        let chunk = Clustering { math, data, n, d: self.d, k, balanced: false };
        &&& after.d == self.d
        &&& after.k == self.k
        &&& after.chunk_size == self.chunk_size
        &&& after.config == self.config
        &&& exists|centroids: Seq<u32>, assignments: Seq<usize>, objective: u32|
            {
                &&& training::trained(
                    math,
                    chunk_config(self.chunk_seed() as u64),
                    data,
                    n,
                    self.d,
                    k,
                    None,
                    centroids,
                )
                &&& #[trigger] chunk.assigned(
                    centroids,
                    cluster_assign::zeros(n as nat),
                    assignments,
                    objective,
                )
                &&& after.coreset_centroids@ == self.coreset_centroids@ + centroids
                &&& after.coreset_weights@ == self.coreset_weights@ + kmeans::cluster_sizes(
                    assignments,
                    k as nat,
                )
            }
    }

    /// Takes in a chunk of `n` rows. An empty one changes nothing.
    pub fn add_chunk<V: VectorMath>(&mut self, data: &Vec<u32>, n: usize, math: &V)
        requires
            math.sound(),
            old(self).well_formed(),
            data@.len() >= n * old(self).d,
            old(self).chunk_seed() <= u64::MAX,
            old(self).chunk_k(n) <= kmeans::MAX_MATRIX_ELEMS,
        ensures
            final(self).well_formed(),
            old(self).k == 0 || n == 0 ==> *final(self) == *old(self),
            old(self).k > 0 && n > 0 ==> old(self).with_chunk(
                math.arithmetic(),
                data@,
                n,
                *final(self),
            ) && final(self).weight() == old(self).weight() + n,
    {
        let chunk_k: usize = if self.k <= n {
            self.k
        } else {
            n
        };
        if chunk_k == 0 {
            return ;
        }
        let config = KMeansConfig {
            niter: 15,
            nredo: 1,
            max_points_per_centroid: 256,
            seed: self.config.seed + self.coreset_weights.len() as u64,
            balance_factor: 0,
        };
        proof {
            let k = self.k as int;
            let d = self.d as int;
            assert(chunk_k * d <= k * d) by (nonlinear_arith)
                requires
                    0 <= chunk_k <= k,
                    d >= 0,
            ;
        }
        let centroids: Vec<u32> = training::kmeans_train_with_init(
            &config,
            data,
            n,
            self.d,
            chunk_k,
            None,
            math,
        );
        let before: Vec<usize> = cluster_assign::zero_counts(n);
        let (assignments, objective): (Vec<usize>, u32) = cluster_assign::assign_clusters_fast(
            data,
            n,
            self.d,
            &centroids,
            chunk_k,
            &before,
            false,
            math,
        );
        let ghost chunk = Clustering {
            math: math.arithmetic(),
            data: data@,
            n,
            d: self.d,
            k: chunk_k,
            balanced: false,
        };
        assert(chunk.assigned(
            centroids@,
            cluster_assign::zeros(n as nat),
            assignments@,
            objective,
        ));
        self.take_chunk(&centroids, &assignments, chunk_k);
    }

    /// Takes in the centroids of a chunk, each with as much weight as rows have gone to it.
    fn take_chunk(&mut self, centroids: &Vec<u32>, assignments: &Vec<usize>, chunk_k: usize)
        requires
            old(self).well_formed(),
            centroids@.len() == chunk_k * old(self).d,
            forall|i: int| 0 <= i < assignments@.len() ==> #[trigger] assignments@[i] < chunk_k,
        ensures
            final(self).well_formed(),
            final(self).d == old(self).d,
            final(self).k == old(self).k,
            final(self).chunk_size == old(self).chunk_size,
            final(self).config == old(self).config,
            final(self).coreset_centroids@ == old(self).coreset_centroids@ + centroids@,
            final(self).coreset_weights@ == old(self).coreset_weights@ + kmeans::cluster_sizes(
                assignments@,
                chunk_k as nat,
            ),
            final(self).weight() == old(self).weight() + assignments@.len(),
    {
        let ghost before_centroids = self.coreset_centroids@;
        let ghost before_weights = self.coreset_weights@;
        let counts: Vec<usize> = kmeans::count_members(assignments, chunk_k);
        for i in 0..centroids.len()
            invariant
                self.coreset_centroids@ =~= before_centroids + centroids@.subrange(0, i as int),
                self.coreset_weights@ == before_weights,
                self.d == old(self).d,
                self.k == old(self).k,
                self.chunk_size == old(self).chunk_size,
                self.config == old(self).config,
        {
            self.coreset_centroids.push(centroids[i]);
        }
        for i in 0..counts.len()
            invariant
                self.coreset_centroids@ =~= before_centroids + centroids@,
                self.coreset_weights@ =~= before_weights + counts@.subrange(0, i as int),
                self.d == old(self).d,
                self.k == old(self).k,
                self.chunk_size == old(self).chunk_size,
                self.config == old(self).config,
        {
            self.coreset_weights.push(counts[i]);
        }
        proof {
            assert(counts@.subrange(0, counts@.len() as int) =~= counts@);
            assert(assignments@.len() == assignments.len());
            every_row_counts_once(assignments@, chunk_k as nat);
            lemma_total_concat(before_weights, counts@);
            let a = before_weights.len() as int;
            let d = self.d as int;
            assert((a + chunk_k) * d == a * d + chunk_k * d) by (nonlinear_arith);
        }
    }

    /// The centroids in the end: those of the chunks where there are no more of them than wanted,
    /// filled up with zeros, and otherwise those that are trained on them.
    pub fn finalize<V: VectorMath>(&self, math: &V) -> (r: Vec<u32>)
        requires
            math.sound(),
            self.well_formed(),
            self.coreset_weights@.len() > self.k ==> 1 <= self.k <= kmeans::MAX_MATRIX_ELEMS,
        ensures
            r@.len() == self.k * self.d,
            self.coreset_weights@.len() <= self.k ==> r@ == filled_up(
                self.coreset_centroids@,
                self.k * self.d,
            ),
            self.coreset_weights@.len() > self.k ==> weighted_trained(
                math.arithmetic(),
                self.config,
                self.coreset_centroids@,
                self.coreset_weights@,
                self.coreset_weights@.len() as usize,
                self.d,
                self.k,
                r@,
            ),
    {
        let n: usize = self.coreset_weights.len();
        if n > self.k {
            return weighted_kmeans_train(
                &self.config,
                &self.coreset_centroids,
                &self.coreset_weights,
                n,
                self.d,
                self.k,
                math,
            );
        }
        let wanted: usize = self.k * self.d;
        proof {
            let k = self.k as int;
            let d = self.d as int;
            assert(n * d <= k * d) by (nonlinear_arith)
                requires
                    0 <= n <= k,
                    d >= 0,
            ;
        }
        let mut values: Vec<u32> = cluster_assign::copied(
            &self.coreset_centroids,
            0,
            self.coreset_centroids.len(),
        );
        let ghost found = values@;
        assert(found =~= self.coreset_centroids@);
        while values.len() < wanted
            invariant
                found.len() <= values@.len() <= wanted,
                values@ == filled_up(found, values@.len() as int),
            decreases wanted - values@.len(),
        {
            values.push(0);
            assert(values@ =~= filled_up(found, values@.len() as int));
        }
        values
    }

    /// The number of rows so far.
    pub fn total_weight(&self) -> (r: u128)
        ensures
            r == self.weight(),
    {
        let mut sum: u128 = 0;
        let ghost all = self.coreset_weights@;
        assert(all.subrange(0, 0) =~= Seq::<usize>::empty());
        assert(self.coreset_weights@.len() == self.coreset_weights.len());
        for i in 0..self.coreset_weights.len()
            invariant
                all == self.coreset_weights@,
                all.len() <= usize::MAX,
                sum == kmeans::total(all.subrange(0, i as int)),
                sum <= i * 0x1_0000_0000_0000_0000,
        {
            proof {
                let t = all.subrange(0, i + 1);
                assert(t.drop_last() =~= all.subrange(0, i as int));
                assert(t.last() == all[i as int]);
            }
            sum = sum + self.coreset_weights[i] as u128;
        }
        assert(all.subrange(0, all.len() as int) =~= all);
        sum
    }
}

proof fn lemma_total_concat(a: Seq<usize>, b: Seq<usize>)
    ensures
        kmeans::total(a + b) == kmeans::total(a) + kmeans::total(b),
    decreases b.len(),
{
    if b.len() == 0 {
        assert(a + b =~= a);
    } else {
        assert((a + b).drop_last() =~= a + b.drop_last());
        lemma_total_concat(a, b.drop_last());
    }
}

proof fn lemma_zero_total(counts: Seq<usize>)
    requires
        forall|i: int| 0 <= i < counts.len() ==> #[trigger] counts[i] == 0,
    ensures
        kmeans::total(counts) == 0,
    decreases counts.len(),
{
    if counts.len() > 0 {
        let front = counts.drop_last();
        assert forall|i: int| 0 <= i < front.len() implies #[trigger] front[i] == 0 by {
            assert(front[i] == counts[i]);
        }
        lemma_zero_total(front);
        assert(counts[counts.len() - 1] == 0);
    }
}

/// Each row counts for one cluster: the sizes of the clusters add up to the rows.
pub proof fn every_row_counts_once(assignments: Seq<usize>, k: nat)
    requires
        assignments.len() <= usize::MAX,
        k <= usize::MAX,
        forall|i: int| 0 <= i < assignments.len() ==> #[trigger] assignments[i] < k,
    ensures
        kmeans::total(kmeans::cluster_sizes(assignments, k)) == assignments.len(),
    decreases assignments.len(),
{
    let sizes = kmeans::cluster_sizes(assignments, k);
    if assignments.len() == 0 {
        lemma_zero_total(sizes);
    } else {
        let front = assignments.drop_last();
        let c = assignments.last();
        assert forall|i: int| 0 <= i < front.len() implies #[trigger] front[i] < k by {
            assert(front[i] == assignments[i]);
        }
        every_row_counts_once(front, k);
        let before = kmeans::cluster_sizes(front, k);
        assert(assignments[assignments.len() - 1] < k);
        kmeans::lemma_members_fit(front, c);
        assert(sizes =~= before.update(c as int, (before[c as int] + 1) as usize));
        kmeans::lemma_total_update(before, c as int, (before[c as int] + 1) as usize);
    }
}

} // verus!
