//! Training is determined by its arguments and by what is drawn at random.
use crate::cluster_assign;
use crate::cluster_assign::Clustering;
use crate::cluster_split;
use crate::ivf_lists;
use crate::kmeans;
use crate::kmeans::KMeansConfig;
use crate::random;
use crate::training;
use crate::training::Run;
use crate::vector_math::Arithmetic;
use vstd::prelude::*;

verus! {

/// What is drawn in one run: the first row to begin with, the words that lead to the others, and
/// in each round the rows for empty clusters.
pub struct RunDraws {
    pub first: usize,
    pub words: Seq<u32>,
    pub refills: Seq<Seq<usize>>,
}

/// What is drawn in a training: the picks for a sample of the rows, and what each run draws.
pub struct Draws {
    pub picks: Seq<usize>,
    pub runs: Seq<RunDraws>,
}

impl Clustering {
    /// The centroids to begin with that these draws lead to.
    pub open spec fn seeded_by(self, draws: RunDraws, centroids: Seq<u32>) -> bool {
        exists|seeds: Seq<usize>| #[trigger]
            self.are_seeds(seeds, draws.words) && seeds[0] == draws.first && centroids
                == ivf_lists::gathered(self.data, self.d as nat, seeds)
    }

    /// The centroids after an update with these rows for empty clusters.
    pub open spec fn updated_by(
        self,
        before: Seq<u32>,
        assignments: Seq<usize>,
        drawn: Seq<usize>,
    ) -> Seq<u32> {
        let plan = self.refill_plan(assignments);
        self.all_refilled(
            self.moved(before, assignments, self.k as int),
            plan,
            drawn,
            plan.len() as int,
        )
    }

    /// Round `i` assigns the rows and moves the centroids, with these rows for empty clusters.
    pub open spec fn round_follows_by(self, run: Run, i: int, drawn: Seq<usize>) -> bool {
        let round = run.rounds[i];
        &&& self.assigned(
            run.centroids(i),
            run.assignments(self.n as nat, i),
            round.assignments,
            round.objective,
        )
        &&& self.are_draws(round.assignments, drawn)
        &&& round.centroids == self.updated_by(run.centroids(i), round.assignments, drawn)
    }

    /// A run of `niter` rounds, or of fewer where it has settled, with these draws.
    pub open spec fn is_run_by(self, run: Run, niter: nat, refills: Seq<Seq<usize>>) -> bool {
        let count = run.rounds.len() as int;
        &&& count <= niter
        &&& count <= refills.len()
        &&& forall|i: int| 0 <= i < count ==> #[trigger] self.round_follows_by(run, i, refills[i])
        &&& forall|i: int| 0 <= i < count - 1 ==> !#[trigger] self.settles(run, i)
        &&& count < niter ==> count >= 1 && self.settles(run, count - 1)
    }

    /// The runs that are made with these draws.
    pub open spec fn are_runs_by(
        self,
        config: KMeansConfig,
        initial: Option<Seq<u32>>,
        runs: Seq<Run>,
        draws: Seq<RunDraws>,
    ) -> bool {
        &&& runs.len() == (if initial is Some {
            1
        } else {
            config.nredo as nat
        })
        &&& draws.len() == runs.len()
        &&& forall|i: int|
            0 <= i < runs.len() ==> self.is_run_by(
                #[trigger] runs[i],
                config.niter as nat,
                draws[i].refills,
            )
        &&& match initial {
            Some(values) => runs[0].init == values,
            None => forall|i: int|
                0 <= i < runs.len() ==> (Clustering { balanced: false, ..self }).seeded_by(
                    draws[i],
                    (#[trigger] runs[i]).init,
                ),
        }
    }
}

/// The rows that are trained on, where these are picked.
pub open spec fn training_rows_by(
    config: KMeansConfig,
    data: Seq<u32>,
    n: usize,
    d: usize,
    k: usize,
    picks: Seq<usize>,
) -> Seq<u32> {
    if n <= k * config.max_points_per_centroid {
        data.take((n * d) as int)
    } else {
        ivf_lists::gathered(data, d as nat, random::sampled(n as nat, picks))
    }
}

/// As many picks as rows are to be sampled.
pub open spec fn are_sample_picks(
    config: KMeansConfig,
    n: usize,
    k: usize,
    picks: Seq<usize>,
) -> bool {
    n > k * config.max_points_per_centroid ==> picks.len() == training::training_count(n, k, config)
        && random::are_picks(picks, n as nat)
}

/// Centroids trained on these rows with these draws.
pub open spec fn trained_on_by(
    math: Arithmetic,
    config: KMeansConfig,
    rows: Seq<u32>,
    n: usize,
    d: usize,
    k: usize,
    initial: Option<Seq<u32>>,
    draws: Seq<RunDraws>,
    centroids: Seq<u32>,
) -> bool {
    if n <= k {
        centroids == ivf_lists::gathered(rows, d as nat, kmeans::cycle(n as nat, k as nat))
    } else {
        let all = Clustering {
            math,
            data: rows,
            n,
            d,
            k,
            balanced: training::is_balanced(config),
        };
        exists|runs: Seq<Run>| #[trigger]
            all.are_runs_by(config, initial, runs, draws) && centroids == all.best(
                runs,
                runs.len() as int,
            ).0
    }
}

/// Centroids trained with these draws.
pub open spec fn trained_by(
    math: Arithmetic,
    config: KMeansConfig,
    data: Seq<u32>,
    n: usize,
    d: usize,
    k: usize,
    initial: Option<Seq<u32>>,
    draws: Draws,
    centroids: Seq<u32>,
) -> bool {
    if n == 0 || k == 0 {
        centroids == cluster_split::zeros(k * d)
    } else {
        &&& are_sample_picks(config, n, k, draws.picks)
        &&& trained_on_by(
            math,
            config,
            training_rows_by(config, data, n, d, k, draws.picks),
            training::training_count(n, k, config),
            d,
            k,
            initial,
            draws.runs,
            centroids,
        )
    }
}

proof fn lemma_reached_unique(all: Clustering, dists: Seq<u32>, target: u32, a: int, b: int)
    requires
        all.is_reached_at(dists, target, a),
        all.is_reached_at(dists, target, b),
    ensures
        a == b,
{
    if a < b {
        assert(!all.reached(dists, target, a));
    } else if b < a {
        assert(!all.reached(dists, target, b));
    }
}

proof fn lemma_seeds_unique(
    all: Clustering,
    words: Seq<u32>,
    seeds: Seq<usize>,
    other: Seq<usize>,
    c: int,
)
    requires
        all.are_seeds(seeds, words),
        all.are_seeds(other, words),
        seeds[0] == other[0],
        0 <= c <= all.k,
    ensures
        seeds.subrange(0, c) == other.subrange(0, c),
    decreases c,
{
    if c == 0 {
        assert(seeds.subrange(0, c) =~= other.subrange(0, c));
    } else {
        lemma_seeds_unique(all, words, seeds, other, c - 1);
        if c >= 2 {
            assert(all.seed_follows(seeds, words, c - 1));
            assert(all.seed_follows(other, words, c - 1));
            let dists = all.closest(seeds.subrange(0, c - 1));
            lemma_reached_unique(
                all,
                dists,
                (all.math.target)(words[c - 1], cluster_assign::sum_of(all.math, dists)),
                seeds[c - 1] as int,
                other[c - 1] as int,
            );
        }
        assert forall|i: int| 0 <= i < c implies seeds[i] == other[i] by {
            if i < c - 1 {
                assert(seeds.subrange(0, c - 1)[i] == other.subrange(0, c - 1)[i]);
            }
        }
        assert(seeds.subrange(0, c) =~= other.subrange(0, c));
    }
}

/// The first `i` rounds of two runs with the same beginning and the same draws are the same.
proof fn lemma_rounds_agree(
    all: Clustering,
    niter: nat,
    refills: Seq<Seq<usize>>,
    run: Run,
    other: Run,
    i: int,
)
    requires
        all.n == 0 || all.at_once() >= 1,
        all.is_run_by(run, niter, refills),
        all.is_run_by(other, niter, refills),
        run.init == other.init,
        0 <= i <= run.rounds.len(),
        i <= other.rounds.len(),
    ensures
        run.rounds.take(i) == other.rounds.take(i),
    decreases i,
{
    if i == 0 {
        assert(run.rounds.take(i) =~= other.rounds.take(i));
    } else {
        lemma_rounds_agree(all, niter, refills, run, other, i - 1);
        let at = i - 1;
        assert(all.round_follows_by(run, at, refills[at]));
        assert(all.round_follows_by(other, at, refills[at]));
        if at > 0 {
            assert(run.rounds[at - 1] == run.rounds.take(at)[at - 1]);
            assert(other.rounds[at - 1] == other.rounds.take(at)[at - 1]);
        }
        let a = run.rounds[at];
        let b = other.rounds[at];
        cluster_assign::assignment_is_determined(
            all,
            run.centroids(at),
            run.assignments(all.n as nat, at),
            a.assignments,
            a.objective,
            b.assignments,
            b.objective,
        );
        assert(a =~= b);
        assert forall|j: int| 0 <= j < i implies run.rounds[j] == other.rounds[j] by {
            if j < at {
                assert(run.rounds.take(at)[j] == other.rounds.take(at)[j]);
            }
        }
        assert(run.rounds.take(i) =~= other.rounds.take(i));
    }
}

/// A run that has not settled goes on: of two runs with the same draws none is shorter.
proof fn lemma_run_not_shorter(
    all: Clustering,
    niter: nat,
    refills: Seq<Seq<usize>>,
    run: Run,
    other: Run,
)
    requires
        all.n == 0 || all.at_once() >= 1,
        all.is_run_by(run, niter, refills),
        all.is_run_by(other, niter, refills),
        run.init == other.init,
    ensures
        run.rounds.len() >= other.rounds.len(),
{
    let count = run.rounds.len() as int;
    if count < other.rounds.len() {
        lemma_rounds_agree(all, niter, refills, run, other, count);
        assert(all.settles(run, count - 1));
        assert(!all.settles(other, count - 1));
        assert(run.rounds.take(count)[count - 1] == other.rounds.take(count)[count - 1]);
        if count >= 2 {
            assert(run.rounds.take(count)[count - 2] == other.rounds.take(count)[count - 2]);
        }
    }
}

proof fn lemma_run_unique(
    all: Clustering,
    niter: nat,
    refills: Seq<Seq<usize>>,
    run: Run,
    other: Run,
)
    requires
        all.n == 0 || all.at_once() >= 1,
        all.is_run_by(run, niter, refills),
        all.is_run_by(other, niter, refills),
        run.init == other.init,
    ensures
        run == other,
{
    lemma_run_not_shorter(all, niter, refills, run, other);
    lemma_run_not_shorter(all, niter, refills, other, run);
    let count = run.rounds.len() as int;
    lemma_rounds_agree(all, niter, refills, run, other, count);
    assert(run.rounds.take(count) =~= run.rounds);
    assert(other.rounds.take(count) =~= other.rounds);
    assert(run =~= other);
}

pub proof fn lemma_can_assign(all: Clustering)
    requires
        1 <= all.k <= kmeans::MAX_MATRIX_ELEMS,
    ensures
        all.n == 0 || all.at_once() >= 1,
{
    if all.n > 0 && all.n * all.k > kmeans::MAX_MATRIX_ELEMS {
        let m = kmeans::MAX_MATRIX_ELEMS as int;
        let k = all.k as int;
        assert(m / k >= 1) by (nonlinear_arith)
            requires
                1 <= k <= m,
        ;
    }
}

/// Training is determined by its arguments and by what is drawn: two trainings with the same
/// arguments and the same draws give the same centroids.
pub proof fn training_is_determined_by_its_draws(
    math: Arithmetic,
    config: KMeansConfig,
    data: Seq<u32>,
    n: usize,
    d: usize,
    k: usize,
    initial: Option<Seq<u32>>,
    draws: Draws,
    centroids: Seq<u32>,
    other: Seq<u32>,
)
    requires
        training::training_count(n, k, config) > k ==> k <= kmeans::MAX_MATRIX_ELEMS,
        trained_by(math, config, data, n, d, k, initial, draws, centroids),
        trained_by(math, config, data, n, d, k, initial, draws, other),
    ensures
        centroids == other,
{
    let count = training::training_count(n, k, config);
    if n > 0 && k > 0 && count > k {
        let all = Clustering {
            math,
            data: training_rows_by(config, data, n, d, k, draws.picks),
            n: count,
            d,
            k,
            balanced: training::is_balanced(config),
        };
        let plain = Clustering { balanced: false, ..all };
        lemma_can_assign(all);
        let runs = choose|runs: Seq<Run>| #[trigger]
            all.are_runs_by(config, initial, runs, draws.runs) && centroids == all.best(
                runs,
                runs.len() as int,
            ).0;
        let others = choose|runs: Seq<Run>| #[trigger]
            all.are_runs_by(config, initial, runs, draws.runs) && other == all.best(
                runs,
                runs.len() as int,
            ).0;
        assert forall|i: int| 0 <= i < runs.len() implies runs[i] == others[i] by {
            let refills = draws.runs[i].refills;
            assert(all.is_run_by(runs[i], config.niter as nat, refills));
            assert(all.is_run_by(others[i], config.niter as nat, refills));
            if initial is None {
                assert(plain.seeded_by(draws.runs[i], runs[i].init));
                assert(plain.seeded_by(draws.runs[i], others[i].init));
                let words = draws.runs[i].words;
                let first = draws.runs[i].first;
                let a = choose|seeds: Seq<usize>| #[trigger]
                    plain.are_seeds(seeds, words) && seeds[0] == first && runs[i].init
                        == ivf_lists::gathered(plain.data, plain.d as nat, seeds);
                let b = choose|seeds: Seq<usize>| #[trigger]
                    plain.are_seeds(seeds, words) && seeds[0] == first && others[i].init
                        == ivf_lists::gathered(plain.data, plain.d as nat, seeds);
                lemma_seeds_unique(plain, words, a, b, k as int);
                assert(a.subrange(0, k as int) =~= a);
                assert(b.subrange(0, k as int) =~= b);
            }
            lemma_run_unique(all, config.niter as nat, refills, runs[i], others[i]);
        }
        assert(runs =~= others);
    }
}

/// The rows that round `i` of a run has drawn.
spec fn drawn_in(all: Clustering, run: Run, i: int) -> Seq<usize> {
    let round = run.rounds[i];
    choose|drawn: Seq<usize>| #[trigger]
        all.are_draws(round.assignments, drawn) && round.centroids == all.updated_by(
            run.centroids(i),
            round.assignments,
            drawn,
        )
}

/// The seeds and the words that centroids to begin with come from.
spec fn seeds_of(all: Clustering, centroids: Seq<u32>) -> (Seq<usize>, Seq<u32>) {
    choose|seeds: Seq<usize>, words: Seq<u32>| #[trigger]
        all.are_seeds(seeds, words) && centroids == ivf_lists::gathered(
            all.data,
            all.d as nat,
            seeds,
        )
}

spec fn draws_of(all: Clustering, run: Run) -> RunDraws {
    let (seeds, words) = seeds_of(Clustering { balanced: false, ..all }, run.init);
    RunDraws {
        first: seeds[0],
        words,
        refills: Seq::new(run.rounds.len(), |i: int| drawn_in(all, run, i)),
    }
}

proof fn lemma_run_has_draws(all: Clustering, run: Run, niter: nat)
    requires
        all.is_run(run, niter),
    ensures
        all.is_run_by(run, niter, draws_of(all, run).refills),
{
    let refills = draws_of(all, run).refills;
    assert forall|i: int| 0 <= i < run.rounds.len() implies #[trigger] all.round_follows_by(
        run,
        i,
        refills[i],
    ) by {
        assert(all.round_follows(run, i));
        let round = run.rounds[i];
        let plan = all.refill_plan(round.assignments);
        let drawn = choose|drawn: Seq<usize>| #[trigger]
            all.are_draws(round.assignments, drawn) && round.centroids == all.all_refilled(
                all.moved(run.centroids(i), round.assignments, all.k as int),
                plan,
                drawn,
                plan.len() as int,
            );
        assert(all.are_draws(round.assignments, drawn) && round.centroids == all.updated_by(
            run.centroids(i),
            round.assignments,
            drawn,
        ));
        assert(refills[i] == drawn_in(all, run, i));
    }
}

/// Whatever is trained is trained with some draws, so nothing but its arguments and what is drawn
/// decides it.
pub proof fn every_training_has_its_draws(
    math: Arithmetic,
    config: KMeansConfig,
    data: Seq<u32>,
    n: usize,
    d: usize,
    k: usize,
    initial: Option<Seq<u32>>,
    centroids: Seq<u32>,
)
    requires
        training::trained(math, config, data, n, d, k, initial, centroids),
    ensures
        exists|draws: Draws| #[trigger]
            trained_by(math, config, data, n, d, k, initial, draws, centroids),
{
    if n == 0 || k == 0 {
        let none = Draws { picks: Seq::empty(), runs: Seq::empty() };
        assert(trained_by(math, config, data, n, d, k, initial, none, centroids));
    } else {
        let count = training::training_count(n, k, config);
        let rows = choose|rows: Seq<u32>| #[trigger]
            training::are_training_rows(config, data, n, d, k, rows) && training::trained_on(
                math,
                config,
                rows,
                count,
                d,
                k,
                initial,
                centroids,
            );
        let picks = choose|picks: Seq<usize>|
            picks.len() == count && #[trigger] random::are_picks(picks, n as nat) && rows
                == ivf_lists::gathered(data, d as nat, random::sampled(n as nat, picks));
        assert(training_rows_by(config, data, n, d, k, picks) == rows);
        assert(are_sample_picks(config, n, k, picks));
        if count <= k {
            let draws = Draws { picks, runs: Seq::empty() };
            assert(trained_by(math, config, data, n, d, k, initial, draws, centroids));
        } else {
            let all = Clustering {
                math,
                data: rows,
                n: count,
                d,
                k,
                balanced: training::is_balanced(config),
            };
            let plain = Clustering { balanced: false, ..all };
            let runs = choose|runs: Seq<Run>| #[trigger]
                all.are_runs(config, initial, runs) && centroids == all.best(
                    runs,
                    runs.len() as int,
                ).0;
            let draws = Draws {
                picks,
                runs: Seq::new(runs.len(), |i: int| draws_of(all, runs[i])),
            };
            assert forall|i: int| 0 <= i < runs.len() implies all.is_run_by(
                #[trigger] runs[i],
                config.niter as nat,
                draws.runs[i].refills,
            ) by {
                lemma_run_has_draws(all, runs[i], config.niter as nat);
            }
            if initial is None {
                assert forall|i: int| 0 <= i < runs.len() implies plain.seeded_by(
                    draws.runs[i],
                    (#[trigger] runs[i]).init,
                ) by {
                    assert(plain.seeded(runs[i].init));
                    let (a, b) = choose|seeds: Seq<usize>, words: Seq<u32>| #[trigger]
                        plain.are_seeds(seeds, words) && runs[i].init == ivf_lists::gathered(
                            plain.data,
                            plain.d as nat,
                            seeds,
                        );
                    assert(plain.are_seeds(a, b));
                    let (seeds, words) = seeds_of(plain, runs[i].init);
                    assert(draws.runs[i] == draws_of(all, runs[i]));
                    assert(plain == Clustering { balanced: false, ..all });
                    assert(plain.are_seeds(seeds, draws.runs[i].words));
                }
            }
            assert(all.are_runs_by(config, initial, runs, draws.runs));
            assert(trained_by(math, config, data, n, d, k, initial, draws, centroids));
        }
    }
}

} // verus!
