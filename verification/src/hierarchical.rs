//! Training many centroids: a few clusters are trained first, and the largest is split in two until
//! there are enough.
use crate::cluster_assign;
use crate::cluster_assign::Clustering;
use crate::cluster_split;
use crate::cluster_split::{ClusterModel, ClusterSplitter, SplitModel, SplitStep};
use crate::ivf_lists;
use crate::kmeans;
use crate::kmeans::KMeansConfig;
use crate::random;
use crate::training;
use crate::vector_math::{Arithmetic, VectorMath};
use vstd::prelude::*;

verus! {

/// How the clusters to begin with are trained.
pub open spec fn initial_config(config: KMeansConfig) -> KMeansConfig {
    KMeansConfig {
        niter: config.niter,
        nredo: 1,
        max_points_per_centroid: 256,
        seed: config.seed,
        balance_factor: 0,
    }
}

/// How a cluster is split.
pub open spec fn split_config(seed: u64) -> KMeansConfig {
    KMeansConfig { niter: 10, nredo: 1, max_points_per_centroid: 256, seed, balance_factor: 0 }
}

/// The number of clusters to begin with.
pub open spec fn initial_count(target_k: usize) -> usize {
    if target_k < cluster_split::INITIAL_CLUSTERS {
        target_k
    } else {
        cluster_split::INITIAL_CLUSTERS
    }
}

/// Rows that are to be clustered by splitting, and the seed to begin with.
pub struct Splitting {
    pub math: Arithmetic,
    pub data: Seq<u32>,
    pub n: usize,
    pub d: usize,
    pub target_k: usize,
    pub config: KMeansConfig,
}

impl Splitting {
    /// The clusters to begin with: their centroids are trained on all rows, and each row is in the
    /// cluster of the nearest one.
    pub open spec fn begins(self, state: SplitModel) -> bool {
        let k = initial_count(self.target_k);
        let all = Clustering {
            math: self.math,
            data: self.data,
            n: self.n,
            d: self.d,
            k,
            balanced: false,
        };
        exists|centroids: Seq<u32>, assignments: Seq<usize>, objective: u32|
            {
                &&& training::trained(
                    self.math,
                    initial_config(self.config),
                    self.data,
                    self.n,
                    self.d,
                    k,
                    None,
                    centroids,
                )
                &&& #[trigger] all.assigned(
                    centroids,
                    cluster_assign::zeros(self.n as nat),
                    assignments,
                    objective,
                )
                &&& state.heap == cluster_split::initial_heap(
                    centroids,
                    self.d as nat,
                    assignments,
                    k as nat,
                )
                &&& state.finalized.len() == 0
                &&& state.splitting is None
            }
    }

    /// The rows of a cluster, one behind the other.
    pub open spec fn rows_in(self, cluster: ClusterModel) -> Seq<u32> {
        ivf_lists::gathered(self.data, self.d as nat, cluster.indices)
    }

    /// The next cluster is found and split: two centroids are trained on its rows, and each row goes
    /// to the side of the nearer one.
    pub open spec fn splits(self, before: SplitModel, after: SplitModel) -> bool {
        let next = cluster_split::advanced(before, self.target_k as int);
        let cluster = next.splitting->0;
        let n = cluster.indices.len() as usize;
        let part = Clustering {
            math: self.math,
            data: self.rows_in(cluster),
            n,
            d: self.d,
            k: 2,
            balanced: false,
        };
        &&& next.splitting is Some
        &&& exists|centroids: Seq<u32>, sides: Seq<usize>, objective: u32|
            {
                &&& training::trained(
                    self.math,
                    split_config((self.config.seed + next.finalized.len()) as u64),
                    part.data,
                    n,
                    self.d,
                    2,
                    None,
                    centroids,
                )
                &&& #[trigger] part.assigned(
                    centroids,
                    cluster_assign::zeros(n as nat),
                    sides,
                    objective,
                )
                &&& after.heap == cluster_split::with_cluster(
                    cluster_split::with_cluster(
                        next.heap,
                        cluster_split::side(cluster, centroids, self.d as nat, sides, 0),
                    ),
                    cluster_split::side(cluster, centroids, self.d as nat, sides, 1),
                )
                &&& after.finalized == next.finalized
                &&& after.splitting is None
            }
    }

    /// The clusters to begin with, and those after each split.
    pub open spec fn are_states(self, states: Seq<SplitModel>) -> bool {
        &&& states.len() >= 1
        &&& self.begins(states[0])
        &&& forall|i: int| 0 <= i < states.len() - 1 ==> self.splits(
            #[trigger] states[i],
            states[i + 1],
        )
    }

    /// Centroids after so many splits that there is nothing left to split.
    pub open spec fn ends_with(self, states: Seq<SplitModel>, centroids: Seq<u32>) -> bool {
        let last = cluster_split::advanced(states.last(), self.target_k as int);
        &&& last.splitting is None
        &&& centroids == cluster_split::collected(last, self.target_k as nat, self.d as nat)
    }

    /// What comes of no more than `max_splits` splits: the centroids, or nothing where there was
    /// more to split.
    pub open spec fn leads_to(
        self,
        states: Seq<SplitModel>,
        max_splits: usize,
        centroids: Option<Seq<u32>>,
    ) -> bool {
        &&& self.are_states(states)
        &&& states.len() <= max_splits + 1
        &&& match centroids {
            Some(values) => self.ends_with(states, values),
            None => states.len() == max_splits + 1 && cluster_split::advanced(
                states.last(),
                self.target_k as int,
            ).splitting is Some,
        }
    }
}

/// The splitting of the rows that are trained on.
pub open spec fn splitting_of(
    math: Arithmetic,
    config: KMeansConfig,
    rows: Seq<u32>,
    n: usize,
    d: usize,
    target_k: usize,
) -> Splitting {
    Splitting {
        math,
        data: rows,
        n: training::training_count(n, target_k, config),
        d,
        target_k,
        config,
    }
}

/// The outcome of training by splitting: the centroids, or nothing where `max_splits` splits were
/// not enough.
pub open spec fn trained_by_splitting(
    math: Arithmetic,
    config: KMeansConfig,
    data: Seq<u32>,
    n: usize,
    d: usize,
    target_k: usize,
    max_splits: usize,
    centroids: Option<Seq<u32>>,
) -> bool {
    exists|rows: Seq<u32>, states: Seq<SplitModel>| #[trigger]
        training::are_training_rows(config, data, n, d, target_k, rows) && #[trigger] splitting_of(
            math,
            config,
            rows,
            n,
            d,
            target_k,
        ).leads_to(states, max_splits, centroids)
}

/// Every cluster is made of rows below `n`.
spec fn within_rows(state: SplitModel, n: nat) -> bool {
    &&& forall|i: int|
        0 <= i < state.heap.len() ==> rows_below((#[trigger] state.heap[i]).indices, n)
    &&& state.splitting matches Some(cluster) ==> rows_below(cluster.indices, n)
}

spec fn rows_below(rows: Seq<usize>, n: nat) -> bool {
    forall|i: int| 0 <= i < rows.len() ==> #[trigger] rows[i] < n
}

proof fn lemma_advanced_rows(state: SplitModel, target_k: int, n: nat)
    requires
        within_rows(state, n),
    ensures
        within_rows(cluster_split::advanced(state, target_k), n),
    decreases state.heap.len(),
{
    if !(state.finalized.len() + state.heap.len() >= target_k || state.heap.len() == 0) {
        let at = cluster_split::largest(state.heap);
        if 0 <= at < state.heap.len() {
            let rest = state.heap.remove(at);
            assert forall|i: int| 0 <= i < rest.len() implies rows_below(
                (#[trigger] rest[i]).indices,
                n,
            ) by {
                if i < at {
                    assert(rest[i] == state.heap[i]);
                } else {
                    assert(rest[i] == state.heap[i + 1]);
                }
            }
            assert(rows_below(state.heap[at].indices, n));
            if state.heap[at].indices.len() < cluster_split::MIN_SPLIT_ROWS {
                lemma_advanced_rows(
                    SplitModel {
                        heap: rest,
                        finalized: state.finalized.push(state.heap[at].centroid),
                        splitting: state.splitting,
                    },
                    target_k,
                    n,
                );
            }
        }
    }
}

proof fn lemma_side_rows(
    cluster: ClusterModel,
    centroids: Seq<u32>,
    d: nat,
    sides: Seq<usize>,
    s: usize,
    n: nat,
)
    requires
        rows_below(cluster.indices, n),
        sides.len() == cluster.indices.len(),
        sides.len() <= usize::MAX,
    ensures
        rows_below(cluster_split::side(cluster, centroids, d, sides, s).indices, n),
{
    let rows = ivf_lists::rows_for(sides, s);
    ivf_lists::each_row_goes_to_its_list(sides, s, 0);
    let half = cluster_split::side(cluster, centroids, d, sides, s).indices;
    assert forall|i: int| 0 <= i < half.len() implies #[trigger] half[i] < n by {
        assert(rows[i] < sides.len());
        assert(cluster.indices[rows[i] as int] < n);
    }
}

/// Trains two centroids on the rows of a cluster, and puts each row on the side of the nearer one.
fn split_rows<V: VectorMath>(
    rows: &Vec<u32>,
    n: usize,
    d: usize,
    seed: u64,
    math: &V,
) -> (r: (Vec<u32>, Vec<usize>))
    requires
        math.sound(),
        rows@.len() == n * d,
        2 * d <= usize::MAX,
    ensures
        training::trained(math.arithmetic(), split_config(seed), rows@, n, d, 2, None, r.0@),
        r.0@.len() == 2 * d,
        r.1@.len() == n,
        exists|objective: u32| #[trigger]
            (Clustering {
                math: math.arithmetic(),
                data: rows@,
                n,
                d,
                k: 2,
                balanced: false,
            }).assigned(r.0@, cluster_assign::zeros(n as nat), r.1@, objective),
{
    let config = KMeansConfig {
        niter: 10,
        nredo: 1,
        max_points_per_centroid: 256,
        seed,
        balance_factor: 0,
    };
    let centroids: Vec<u32> = training::kmeans_train_with_init(
        &config,
        rows,
        n,
        d,
        2,
        None,
        math,
    );
    let before: Vec<usize> = cluster_assign::zero_counts(n);
    let (sides, objective): (Vec<usize>, u32) = cluster_assign::assign_clusters_fast(
        rows,
        n,
        d,
        &centroids,
        2,
        &before,
        false,
        math,
    );
    assert((Clustering {
        math: math.arithmetic(),
        data: rows@,
        n,
        d,
        k: 2,
        balanced: false,
    }).assigned(centroids@, cluster_assign::zeros(n as nat), sides@, objective));
    (centroids, sides)
}

/// Trains the clusters to begin with.
fn begin<V: VectorMath>(
    config: &KMeansConfig,
    rows: &Vec<u32>,
    n: usize,
    d: usize,
    target_k: usize,
    math: &V,
) -> (r: ClusterSplitter)
    requires
        math.sound(),
        rows@.len() == n * d,
        target_k >= 1,
        target_k * d <= usize::MAX,
        config.seed + target_k <= u64::MAX,
    ensures
        r.well_formed(),
        r.d == d,
        r.target_k == target_k,
        r.seed == config.seed,
        r@.splitting is None,
        (Splitting {
            math: math.arithmetic(),
            data: rows@,
            n,
            d,
            target_k,
            config: *config,
        }).begins(r@),
        within_rows(r@, n as nat),
{
    let k: usize = cluster_split::initial_clusters(target_k);
    proof {
        let t = target_k as int;
        assert(k * d <= t * d) by (nonlinear_arith)
            requires
                0 <= k <= t,
                d >= 0,
        ;
    }
    let first = KMeansConfig {
        niter: config.niter,
        nredo: 1,
        max_points_per_centroid: 256,
        seed: config.seed,
        balance_factor: 0,
    };
    let centroids: Vec<u32> = training::kmeans_train_with_init(&first, rows, n, d, k, None, math);
    let before: Vec<usize> = cluster_assign::zero_counts(n);
    let (assignments, objective): (Vec<usize>, u32) = cluster_assign::assign_clusters_fast(
        rows,
        n,
        d,
        &centroids,
        k,
        &before,
        false,
        math,
    );
    let ghost all = Clustering {
        math: math.arithmetic(),
        data: rows@,
        n,
        d,
        k,
        balanced: false,
    };
    assert(all.assigned(
        centroids@,
        cluster_assign::zeros(n as nat),
        assignments@,
        objective,
    ));
    let r = ClusterSplitter::new(&centroids, &assignments, k, d, target_k, config.seed);
    proof {
        assert forall|i: int| 0 <= i < r@.heap.len() implies rows_below(
            (#[trigger] r@.heap[i]).indices,
            n as nat,
        ) by {
            ivf_lists::each_row_goes_to_its_list(assignments@, i as usize, 0);
        }
    }
    r
}

proof fn lemma_sample_len(
    config: KMeansConfig,
    data: Seq<u32>,
    n: usize,
    d: usize,
    k: usize,
    rows: Seq<u32>,
)
    requires
        data.len() >= n * d,
        training::are_training_rows(config, data, n, d, k, rows),
    ensures
        rows.len() == training::training_count(n, k, config) * d,
{
    if n > k * config.max_points_per_centroid {
        let picks = choose|picks: Seq<usize>|
            picks.len() == training::training_count(n, k, config) && #[trigger] random::are_picks(
                picks,
                n as nat,
            ) && rows == ivf_lists::gathered(data, d as nat, random::sampled(n as nat, picks));
        random::samples_do_not_repeat(n as nat, picks);
        ivf_lists::lemma_gathered_len(data, d as nat, random::sampled(n as nat, picks), n as nat);
    }
}

/// Trains centroids by splitting clusters. A cluster whose rows all fall on one side is split again
/// and again; nothing comes back after `max_splits` splits.
pub fn kmeans_train_hierarchical<V: VectorMath>(
    config: &KMeansConfig,
    data: &Vec<u32>,
    n: usize,
    d: usize,
    target_k: usize,
    max_splits: usize,
    math: &V,
) -> (r: Option<Vec<u32>>)
    requires
        math.sound(),
        data@.len() >= n * d,
        target_k >= 1,
        target_k * d <= usize::MAX,
        config.seed + target_k <= u64::MAX,
    ensures
        trained_by_splitting(
            math.arithmetic(),
            *config,
            data@,
            n,
            d,
            target_k,
            max_splits,
            (match r {
                Some(values) => Some(values@),
                None => None,
            }),
        ),
        r matches Some(values) ==> values@.len() == target_k * d,
{
    let rows: Vec<u32> = kmeans::training_data(data, n, d, target_k, config);
    let train_n: usize = kmeans::training_rows(n, target_k, config.max_points_per_centroid);
    proof {
        assert(train_n == training::training_count(n, target_k, *config));
        assert(training::are_training_rows(*config, data@, n, d, target_k, rows@));
        lemma_sample_len(*config, data@, n, d, target_k, rows@);
    }
    let ghost all = splitting_of(math.arithmetic(), *config, rows@, n, d, target_k);
    let mut splitter: ClusterSplitter = begin(config, &rows, train_n, d, target_k, math);
    let ghost mut states: Seq<SplitModel> = seq![splitter@];
    let mut splits: usize = 0;
    loop
        invariant
            math.sound(),
            data@.len() >= n * d,
            rows@.len() == train_n * d,
            target_k >= 1,
            target_k * d <= usize::MAX,
            all == splitting_of(math.arithmetic(), *config, rows@, n, d, target_k),
            train_n == training::training_count(n, target_k, *config),
            training::are_training_rows(*config, data@, n, d, target_k, rows@),
            splitter.well_formed(),
            splitter.d == d,
            splitter.target_k == target_k,
            splitter.seed == config.seed,
            splitter@.splitting is None,
            within_rows(splitter@, train_n as nat),
            splits <= max_splits,
            states.len() == splits + 1,
            states.last() == splitter@,
            all.are_states(states),
        decreases max_splits - splits,
    {
        let ghost before = splitter@;
        proof {
            lemma_advanced_rows(before, target_k as int, train_n as nat);
        }
        match splitter.next() {
            SplitStep::Done => {
                let centroids: Vec<u32> = splitter.finish();
                assert(all.ends_with(states, centroids@));
                assert(all.leads_to(states, max_splits, Some(centroids@)));
                return Some(centroids);
            },
            SplitStep::Split { indices, seed } => {
                if splits == max_splits {
                    assert(all.leads_to(states, max_splits, None));
                    return None;
                }
                let ghost next = splitter@;
                let ghost cluster = next.splitting->0;
                proof {
                    assert(rows_below(cluster.indices, train_n as nat));
                    ivf_lists::lemma_gathered_len(
                        rows@,
                        d as nat,
                        indices@,
                        train_n as nat,
                    );
                    assert(2 * d <= target_k * d) by (nonlinear_arith)
                        requires
                            target_k >= 2,
                            d >= 0,
                    ;
                    assert(indices@.len() == indices.len());
                }
                let part: Vec<u32> = ivf_lists::gather(&rows, d, &indices, train_n);
                let (centroids, sides): (Vec<u32>, Vec<usize>) = split_rows(
                    &part,
                    indices.len(),
                    d,
                    seed,
                    math,
                );
                splitter.split(&centroids, &sides);
                proof {
                    let after = splitter@;
                    let both = Clustering {
                        math: math.arithmetic(),
                        data: part@,
                        n: indices@.len() as usize,
                        d,
                        k: 2,
                        balanced: false,
                    };
                    let objective = choose|objective: u32| #[trigger]
                        both.assigned(
                            centroids@,
                            cluster_assign::zeros(indices@.len()),
                            sides@,
                            objective,
                        );
                    assert(both.assigned(
                        centroids@,
                        cluster_assign::zeros(indices@.len()),
                        sides@,
                        objective,
                    ));
                    assert(all.splits(before, after));
                    let earlier = states;
                    states = states.push(after);
                    assert forall|i: int| 0 <= i < states.len() - 1 implies all.splits(
                        #[trigger] states[i],
                        states[i + 1],
                    ) by {
                        if i < earlier.len() - 1 {
                            assert(states[i] == earlier[i]);
                            assert(states[i + 1] == earlier[i + 1]);
                        } else {
                            assert(states[i] == before);
                        }
                    }
                    assert(states[0] == earlier[0]);
                    lemma_side_rows(
                        cluster,
                        centroids@,
                        d as nat,
                        sides@,
                        0,
                        train_n as nat,
                    );
                    lemma_side_rows(
                        cluster,
                        centroids@,
                        d as nat,
                        sides@,
                        1,
                        train_n as nat,
                    );
                    assert forall|i: int| 0 <= i < after.heap.len() implies rows_below(
                        (#[trigger] after.heap[i]).indices,
                        train_n as nat,
                    ) by {
                        if i < next.heap.len() {
                            assert(after.heap[i] == next.heap[i]);
                        }
                    }
                }
                splits = splits + 1;
            },
        }
    }
}

/// The outcome of training `k` centroids: by splitting where there are many of them, and fewer than
/// rows, and otherwise all at once.
pub open spec fn trained_either_way(
    math: Arithmetic,
    config: KMeansConfig,
    data: Seq<u32>,
    n: usize,
    d: usize,
    k: usize,
    max_splits: usize,
    centroids: Option<Seq<u32>>,
) -> bool {
    if k > kmeans::HIERARCHICAL_THRESHOLD && n > k {
        trained_by_splitting(math, config, data, n, d, k, max_splits, centroids)
    } else {
        centroids matches Some(values) && training::trained(
            math,
            config,
            data,
            n,
            d,
            k,
            None,
            values,
        )
    }
}

/// What training asks of its input: the data are so many rows, and the centroids can be held. Where
/// they are split there is a seed for each; otherwise each is trained on one row at least.
pub open spec fn can_train_either_way(
    config: KMeansConfig,
    data: Seq<u32>,
    n: usize,
    d: usize,
    k: usize,
) -> bool {
    &&& data.len() >= n * d
    &&& k * d <= usize::MAX
    &&& if k > kmeans::HIERARCHICAL_THRESHOLD && n > k {
        config.seed + k <= u64::MAX
    } else {
        n > 0 && k > 0 ==> config.max_points_per_centroid >= 1
    }
}

/// Trains `k` centroids: by splitting where there are many, and otherwise all at once. Nothing comes
/// back where `max_splits` splits were not enough.
pub fn kmeans_train<V: VectorMath>(
    config: &KMeansConfig,
    data: &Vec<u32>,
    n: usize,
    d: usize,
    k: usize,
    max_splits: usize,
    math: &V,
) -> (r: Option<Vec<u32>>)
    requires
        math.sound(),
        can_train_either_way(*config, data@, n, d, k),
    ensures
        trained_either_way(
            math.arithmetic(),
            *config,
            data@,
            n,
            d,
            k,
            max_splits,
            (match r {
                Some(values) => Some(values@),
                None => None,
            }),
        ),
        r matches Some(values) ==> values@.len() == k * d,
{
    if kmeans::trains_hierarchically(n, k) {
        kmeans_train_hierarchical(config, data, n, d, k, max_splits, math)
    } else {
        Some(training::kmeans_train_with_init(config, data, n, d, k, None, math))
    }
}

} // verus!
