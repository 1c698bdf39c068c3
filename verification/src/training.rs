//! Training centroids: rows are assigned to the nearest one and the centroids move to the middle of
//! their rows, over and over.
use crate::cluster_assign;
use crate::cluster_assign::Clustering;
use crate::cluster_split;
use crate::cluster_update;
use crate::float_bits;
use crate::ivf_lists;
use crate::kmeans;
use crate::kmeans::KMeansConfig;
use crate::random;
use crate::seeding;
use crate::vector_math::{Arithmetic, VectorMath};
use vstd::prelude::*;

verus! {

/// What one round leaves: the assignment of the rows, the sum of their distances, and the centroids
/// after they have moved.
#[verifier::ext_equal]
pub struct Round {
    pub assignments: Seq<usize>,
    pub objective: u32,
    pub centroids: Seq<u32>,
}

/// Rounds, one after the other, and the centroids that they begin with.
#[verifier::ext_equal]
pub struct Run {
    pub init: Seq<u32>,
    pub rounds: Seq<Round>,
}

impl Run {
    /// The centroids before round `i`.
    pub open spec fn centroids(self, i: int) -> Seq<u32> {
        if i <= 0 {
            self.init
        } else {
            self.rounds[i - 1].centroids
        }
    }

    /// The assignment before round `i`: to begin with all rows are in the first cluster.
    pub open spec fn assignments(self, n: nat, i: int) -> Seq<usize> {
        if i <= 0 {
            cluster_assign::zeros(n)
        } else {
            self.rounds[i - 1].assignments
        }
    }
}

impl Clustering {
    /// Round `i` assigns the rows and moves the centroids.
    pub open spec fn round_follows(self, run: Run, i: int) -> bool {
        let round = run.rounds[i];
        &&& self.assigned(
            run.centroids(i),
            run.assignments(self.n as nat, i),
            round.assignments,
            round.objective,
        )
        &&& self.updated(run.centroids(i), round.assignments, round.centroids)
    }

    /// After round `i` the sum of the distances has hardly changed.
    pub open spec fn settles(self, run: Run, i: int) -> bool {
        &&& i >= 1
        &&& float_bits::lt(run.rounds[i - 1].objective, float_bits::MAX_BITS)
        &&& (self.math.settled)(run.rounds[i - 1].objective, run.rounds[i].objective)
    }

    /// A run of `niter` rounds, or of fewer where it has settled.
    pub open spec fn is_run(self, run: Run, niter: nat) -> bool {
        let count = run.rounds.len() as int;
        &&& count <= niter
        &&& forall|i: int| 0 <= i < count ==> #[trigger] self.round_follows(run, i)
        &&& forall|i: int| 0 <= i < count - 1 ==> !#[trigger] self.settles(run, i)
        &&& count < niter ==> count >= 1 && self.settles(run, count - 1)
    }

    /// What a run is worth: the last sum of distances, without that of the round after which the run
    /// had settled.
    pub open spec fn worth(self, run: Run) -> u32 {
        let count = run.rounds.len() as int;
        if count == 0 {
            float_bits::MAX_BITS
        } else if self.settles(run, count - 1) {
            run.rounds[count - 2].objective
        } else {
            run.rounds[count - 1].objective
        }
    }

    /// The centroids of the best of the first runs, and what it is worth. Zeros are worth least.
    pub open spec fn best(self, runs: Seq<Run>, upto: int) -> (Seq<u32>, u32)
        decreases upto,
    {
        if upto <= 0 {
            (cluster_split::zeros(self.k * self.d), float_bits::MAX_BITS)
        } else {
            let before = self.best(runs, upto - 1);
            let run = runs[upto - 1];
            if float_bits::lt(self.worth(run), before.1) {
                (run.centroids(run.rounds.len() as int), self.worth(run))
            } else {
                before
            }
        }
    }

    /// The runs that are made: one with the centroids given, or as many as the settings ask for.
    pub open spec fn are_runs(
        self,
        config: KMeansConfig,
        initial: Option<Seq<u32>>,
        runs: Seq<Run>,
    ) -> bool {
        &&& runs.len() == (if initial is Some {
            1
        } else {
            config.nredo as nat
        })
        &&& forall|i: int| 0 <= i < runs.len() ==> self.is_run(#[trigger] runs[i], config.niter as nat)
        &&& match initial {
            Some(values) => runs[0].init == values,
            None => forall|i: int|
                0 <= i < runs.len() ==> (Clustering { balanced: false, ..self }).seeded(
                    (#[trigger] runs[i]).init,
                ),
        }
    }
}

/// The number of rows that are trained on.
pub open spec fn training_count(n: usize, k: usize, config: KMeansConfig) -> usize {
    if n <= k * config.max_points_per_centroid {
        n
    } else {
        (k * config.max_points_per_centroid) as usize
    }
}

/// The rows that are trained on: all, or a sample.
pub open spec fn are_training_rows(
    config: KMeansConfig,
    data: Seq<u32>,
    n: usize,
    d: usize,
    k: usize,
    rows: Seq<u32>,
) -> bool {
    if n <= k * config.max_points_per_centroid {
        rows == data.take((n * d) as int)
    } else {
        exists|picks: Seq<usize>|
            picks.len() == training_count(n, k, config) && #[trigger] random::are_picks(
                picks,
                n as nat,
            ) && rows == ivf_lists::gathered(data, d as nat, random::sampled(n as nat, picks))
    }
}

/// The settings ask for distances that count against large clusters.
pub open spec fn is_balanced(config: KMeansConfig) -> bool {
    float_bits::lt(0, config.balance_factor)
}

/// Centroids trained on these rows.
pub open spec fn trained_on(
    math: Arithmetic,
    config: KMeansConfig,
    rows: Seq<u32>,
    n: usize,
    d: usize,
    k: usize,
    initial: Option<Seq<u32>>,
    centroids: Seq<u32>,
) -> bool {
    if n <= k {
        centroids == ivf_lists::gathered(rows, d as nat, kmeans::cycle(n as nat, k as nat))
    } else {
        let all = Clustering { math, data: rows, n, d, k, balanced: is_balanced(config) };
        exists|runs: Seq<Run>| #[trigger]
            all.are_runs(config, initial, runs) && centroids == all.best(
                runs,
                runs.len() as int,
            ).0
    }
}

/// Trained centroids, whatever is drawn at random: zeros where there is nothing to train, the rows
/// themselves where there are no more of them than centroids, and otherwise those of the best run.
pub open spec fn trained(
    math: Arithmetic,
    config: KMeansConfig,
    data: Seq<u32>,
    n: usize,
    d: usize,
    k: usize,
    initial: Option<Seq<u32>>,
    centroids: Seq<u32>,
) -> bool {
    if n == 0 || k == 0 {
        centroids == cluster_split::zeros(k * d)
    } else {
        exists|rows: Seq<u32>| #[trigger]
            are_training_rows(config, data, n, d, k, rows) && trained_on(
                math,
                config,
                rows,
                training_count(n, k, config),
                d,
                k,
                initial,
                centroids,
            )
    }
}

/// What training asks of its input: the data are so many rows, the centroids can be held, each
/// is trained on one row at least, and a row can be compared with all of them at once.
pub open spec fn can_train(
    config: KMeansConfig,
    data: Seq<u32>,
    n: usize,
    d: usize,
    k: usize,
    initial: Option<Seq<u32>>,
) -> bool {
    &&& data.len() >= n * d
    &&& k * d <= usize::MAX
    &&& n > 0 && k > 0 ==> config.max_points_per_centroid >= 1
    &&& training_count(n, k, config) > k ==> k <= kmeans::MAX_MATRIX_ELEMS
    &&& initial matches Some(values) ==> values.len() == k * d
}

pub fn zero_values(len: usize) -> (r: Vec<u32>)
    ensures
        r@ == cluster_split::zeros(len as int),
{
    let mut r: Vec<u32> = Vec::new();
    for i in 0..len
        invariant
            r@ =~= cluster_split::zeros(i as int),
    {
        r.push(0);
    }
    r
}

/// Makes the rounds of one run.
fn run_rounds<V: VectorMath>(
    data: &Vec<u32>,
    n: usize,
    d: usize,
    init: Vec<u32>,
    k: usize,
    niter: usize,
    balanced: bool,
    rng: &mut rand::rngs::StdRng,
    math: &V,
) -> (r: (Vec<u32>, u32))
    requires
        math.sound(),
        data@.len() >= n * d,
        init@.len() == k * d,
        n >= 1,
        1 <= k <= kmeans::MAX_MATRIX_ELEMS,
    ensures
        ({
            let all = Clustering { math: math.arithmetic(), data: data@, n, d, k, balanced };
            exists|run: Run| #[trigger]
                all.is_run(run, niter as nat) && run.init == init@ && r.0@ == run.centroids(
                    run.rounds.len() as int,
                ) && r.1 == all.worth(run)
        }),
        r.0@.len() == k * d,
{
    let ghost all = Clustering { math: math.arithmetic(), data: data@, n, d, k, balanced };
    let ghost mut run = Run { init: init@, rounds: Seq::empty() };
    let mut centroids: Vec<u32> = init;
    let mut assignments: Vec<usize> = cluster_assign::zero_counts(n);
    let mut worth: u32 = float_bits::MAX_BITS;
    for iter in 0..niter
        invariant
            math.sound(),
            all == (Clustering { math: math.arithmetic(), data: data@, n, d, k, balanced }),
            data@.len() >= n * d,
            n >= 1,
            1 <= k <= kmeans::MAX_MATRIX_ELEMS,
            run.init == init@,
            run.rounds.len() == iter,
            centroids@ == run.centroids(iter as int),
            centroids@.len() == k * d,
            assignments@ == run.assignments(n as nat, iter as int),
            assignments@.len() == n,
            forall|i: int| 0 <= i < n ==> #[trigger] assignments@[i] < k,
            worth == (if iter == 0 {
                float_bits::MAX_BITS
            } else {
                run.rounds[iter - 1].objective
            }),
            forall|i: int| 0 <= i < iter ==> #[trigger] all.round_follows(run, i),
            forall|i: int| 0 <= i < iter ==> !#[trigger] all.settles(run, i),
    {
        let ghost before = run;
        let (chosen, objective): (Vec<usize>, u32) = cluster_assign::assign_clusters_fast(
            data,
            n,
            d,
            &centroids,
            k,
            &assignments,
            balanced,
            math,
        );
        cluster_update::update_centroids(
            data,
            n,
            d,
            &mut centroids,
            k,
            &chosen,
            balanced,
            rng,
            math,
        );
        assignments = chosen;
        proof {
            run = Run {
                init: run.init,
                rounds: run.rounds.push(
                    Round { assignments: assignments@, objective, centroids: centroids@ },
                ),
            };
            lemma_earlier_rounds(all, before, run);
            assert(all.round_follows(run, iter as int));
        }
        if float_bits::less_than(worth, float_bits::MAX_BITS) {
            if math.settled(worth, objective) {
                assert(all.settles(run, iter as int));
                assert(all.is_run(run, niter as nat));
                return (centroids, worth);
            }
        }
        worth = objective;
        assert(!all.settles(run, iter as int));
    }
    assert(all.is_run(run, niter as nat));
    (centroids, worth)
}

proof fn lemma_earlier_rounds(all: Clustering, before: Run, now: Run)
    requires
        now.init == before.init,
        now.rounds.len() == before.rounds.len() + 1,
        now.rounds.drop_last() =~= before.rounds,
        forall|i: int| 0 <= i < before.rounds.len() ==> #[trigger] all.round_follows(before, i),
        forall|i: int| 0 <= i < before.rounds.len() ==> !#[trigger] all.settles(before, i),
    ensures
        forall|i: int| 0 <= i < before.rounds.len() ==> #[trigger] all.round_follows(now, i),
        forall|i: int| 0 <= i < before.rounds.len() ==> !#[trigger] all.settles(now, i),
        forall|i: int|
            0 <= i <= before.rounds.len() ==> #[trigger] now.centroids(i) == before.centroids(i)
                && now.assignments(all.n as nat, i) == before.assignments(all.n as nat, i),
{
    assert forall|i: int| 0 <= i < before.rounds.len() implies #[trigger] now.rounds[i]
        == before.rounds[i] by {
        assert(now.rounds.drop_last()[i] == now.rounds[i]);
    }
    assert forall|i: int| 0 <= i < before.rounds.len() implies #[trigger] all.round_follows(now, i) by {
        assert(all.round_follows(before, i));
        assert(now.rounds[i] == before.rounds[i]);
    }
    assert forall|i: int| 0 <= i < before.rounds.len() implies !#[trigger] all.settles(now, i) by {
        assert(!all.settles(before, i));
        assert(now.rounds[i] == before.rounds[i]);
    }
}

/// No run is worth less than the one whose centroids are kept.
pub proof fn no_run_is_better(all: Clustering, runs: Seq<Run>, upto: int, i: int)
    requires
        0 <= i < upto <= runs.len(),
    ensures
        !float_bits::lt(all.worth(runs[i]), all.best(runs, upto).1),
        all.best(runs, upto).1 == float_bits::MAX_BITS || exists|j: int|
            0 <= j < upto && (#[trigger] all.worth(runs[j])) == all.best(runs, upto).1
                && all.best(runs, upto).0 == runs[j].centroids(runs[j].rounds.len() as int),
    decreases upto,
{
    if upto > 1 {
        let other = if i < upto - 1 {
            i
        } else {
            0
        };
        no_run_is_better(all, runs, upto - 1, other);
    }
    let before = all.best(runs, upto - 1);
    if float_bits::lt(all.worth(runs[upto - 1]), before.1) {
        assert(all.worth(runs[upto - 1]) == all.best(runs, upto).1);
    } else if before.1 != float_bits::MAX_BITS {
        let j = choose|j: int|
            0 <= j < upto - 1 && (#[trigger] all.worth(runs[j])) == before.1 && before.0
                == runs[j].centroids(runs[j].rounds.len() as int);
        assert(all.worth(runs[j]) == all.best(runs, upto).1);
    }
}

proof fn lemma_same_best(all: Clustering, a: Seq<Run>, b: Seq<Run>, upto: int)
    requires
        upto <= a.len(),
        upto <= b.len(),
        forall|i: int| 0 <= i < upto ==> #[trigger] a[i] == b[i],
    ensures
        all.best(a, upto) == all.best(b, upto),
    decreases upto,
{
    if upto > 0 {
        lemma_same_best(all, a, b, upto - 1);
        assert(a[upto - 1] == b[upto - 1]);
    }
}

/// Makes the runs and keeps the centroids of the best.
fn train_on<V: VectorMath>(
    config: &KMeansConfig,
    rows: &Vec<u32>,
    n: usize,
    d: usize,
    k: usize,
    initial: Option<&Vec<u32>>,
    rng: &mut rand::rngs::StdRng,
    math: &V,
) -> (r: Vec<u32>)
    requires
        math.sound(),
        rows@.len() >= n * d,
        n >= 1,
        k >= 1,
        k * d <= usize::MAX,
        n > k ==> k <= kmeans::MAX_MATRIX_ELEMS,
        initial matches Some(values) ==> values@.len() == k * d,
    ensures
        trained_on(
            math.arithmetic(),
            *config,
            rows@,
            n,
            d,
            k,
            (match initial {
                Some(values) => Some(values@),
                None => None,
            }),
            r@,
        ),
        r@.len() == k * d,
{
    if n <= k {
        let r: Vec<u32> = kmeans::repeat_rows(rows, n, d, k);
        proof {
            let order = kmeans::cycle(n as nat, k as nat);
            assert forall|i: int| 0 <= i < order.len() implies #[trigger] order[i] < n by {
                vstd::arithmetic::div_mod::lemma_mod_bound(i, n as int);
            }
            ivf_lists::lemma_gathered_len(rows@, d as nat, order, n as nat);
        }
        return r;
    }
    let balanced: bool = float_bits::less_than(0, config.balance_factor);
    let ghost all = Clustering { math: math.arithmetic(), data: rows@, n, d, k, balanced };
    let ghost given: Option<Seq<u32>> = match initial {
        Some(values) => Some(values@),
        None => None,
    };
    let nredo: usize = match initial {
        Some(_) => 1,
        None => config.nredo,
    };
    let mut best_centroids: Vec<u32> = zero_values(k * d);
    let mut best_worth: u32 = float_bits::MAX_BITS;
    let ghost mut runs: Seq<Run> = Seq::empty();
    for redo in 0..nredo
        invariant
            math.sound(),
            all == (Clustering { math: math.arithmetic(), data: rows@, n, d, k, balanced }),
            rows@.len() >= n * d,
            n >= 1,
            1 <= k <= kmeans::MAX_MATRIX_ELEMS,
            initial matches Some(values) ==> values@.len() == k * d && nredo == 1 && given == Some(
                values@,
            ),
            initial is None ==> given is None,
            runs.len() == redo,
            forall|i: int|
                0 <= i < redo ==> all.is_run(#[trigger] runs[i], config.niter as nat),
            given matches Some(values) ==> redo > 0 ==> runs[0].init == values,
            given is None ==> forall|i: int|
                0 <= i < redo ==> (Clustering { balanced: false, ..all }).seeded(
                    (#[trigger] runs[i]).init,
                ),
            (best_centroids@, best_worth) == all.best(runs, redo as int),
            best_centroids@.len() == k * d,
    {
        let init: Vec<u32> = match initial {
            Some(values) => cluster_assign::copied(values, 0, values.len()),
            None => seeding::kmeans_plusplus_init(rows, n, d, k, rng, math),
        };
        let ghost first = init@;
        proof {
            if initial is Some {
                assert(first =~= given->0);
            }
        }
        let (centroids, worth): (Vec<u32>, u32) = run_rounds(
            rows,
            n,
            d,
            init,
            k,
            config.niter,
            balanced,
            rng,
            math,
        );
        proof {
            let run = choose|run: Run| #[trigger]
                all.is_run(run, config.niter as nat) && run.init == first && centroids@
                    == run.centroids(run.rounds.len() as int) && worth == all.worth(run);
            let before = runs;
            runs = runs.push(run);
            lemma_same_best(all, before, runs, redo as int);
        }
        if float_bits::less_than(worth, best_worth) {
            best_worth = worth;
            best_centroids = centroids;
        }
    }
    assert(all.are_runs(*config, given, runs));
    best_centroids
}

/// Trains `k` centroids on a sample of the rows, with the given ones to begin with where there are
/// any.
pub fn kmeans_train_with_init<V: VectorMath>(
    config: &KMeansConfig,
    data: &Vec<u32>,
    n: usize,
    d: usize,
    k: usize,
    initial: Option<&Vec<u32>>,
    math: &V,
) -> (r: Vec<u32>)
    requires
        math.sound(),
        can_train(
            *config,
            data@,
            n,
            d,
            k,
            (match initial {
                Some(values) => Some(values@),
                None => None,
            }),
        ),
    ensures
        trained(
            math.arithmetic(),
            *config,
            data@,
            n,
            d,
            k,
            (match initial {
                Some(values) => Some(values@),
                None => None,
            }),
            r@,
        ),
        r@.len() == k * d,
{
    if n == 0 || k == 0 {
        return zero_values(k * d);
    }
    assert(data@.len() == data.len());
    let mut rng = random::seeded(config.seed);
    let train_n: usize = kmeans::training_rows(n, k, config.max_points_per_centroid);
    let rows: Vec<u32> = if train_n < n {
        kmeans::subsample(data, n, d, train_n, &mut rng)
    } else {
        cluster_assign::copied(data, 0, n * d)
    };
    proof {
        if train_n < n {
            let picks = choose|picks: Seq<usize>|
                picks.len() == train_n && #[trigger] random::are_picks(picks, n as nat) && rows@
                    == ivf_lists::gathered(data@, d as nat, random::sampled(n as nat, picks));
            random::samples_do_not_repeat(n as nat, picks);
            ivf_lists::lemma_gathered_len(
                data@,
                d as nat,
                random::sampled(n as nat, picks),
                n as nat,
            );
        } else {
            assert(rows@ =~= data@.take((n * d) as int));
        }
        assert(train_n == training_count(n, k, *config));
        assert(k * config.max_points_per_centroid >= 1) by (nonlinear_arith)
            requires
                k >= 1,
                config.max_points_per_centroid >= 1,
        ;
        assert(are_training_rows(*config, data@, n, d, k, rows@));
    }
    train_on(config, &rows, train_n, d, k, initial, &mut rng, math)
}

} // verus!
