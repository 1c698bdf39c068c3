//! What training gives, told by the rows, the runs and the clusters.
use vstd::prelude::*;

use crate::cluster_assign;
use crate::cluster_assign::Clustering;
use crate::cluster_split;
use crate::cluster_split::{ClusterModel, SplitModel};
use crate::clustering_law;
use crate::coreset;
use crate::coreset::StreamingKMeans;
use crate::float_bits;
use crate::hierarchical;
use crate::hierarchical::Splitting;
use crate::index_train;
use crate::ivf_lists;
use crate::kmeans;
use crate::kmeans::KMeansConfig;
use crate::random;
use crate::training;
use crate::training::Run;
use crate::vector_math::Arithmetic;

verus! {

/// The rows that a training goes by are rows of the data, each at most once: all of them, in their
/// order, or as many as are allowed for each centroid.
pub proof fn training_goes_by_rows_of_the_data(
    config: KMeansConfig,
    data: Seq<u32>,
    n: usize,
    d: usize,
    k: usize,
    rows: Seq<u32>,
)
    requires
        data.len() >= n * d,
        training::are_training_rows(config, data, n, d, k, rows),
    ensures
        exists|picked: Seq<usize>|
            {
                &&& #[trigger] picked.no_duplicates()
                &&& picked.len() == (if n <= k * config.max_points_per_centroid {
                    n as int
                } else {
                    k * config.max_points_per_centroid
                })
                &&& forall|i: int| 0 <= i < picked.len() ==> #[trigger] picked[i] < n
                &&& n <= k * config.max_points_per_centroid ==> forall|i: int|
                    0 <= i < n ==> #[trigger] picked[i] == i
                &&& clustering_law::holds_rows(rows, data, d as nat, picked)
            },
{
    if n <= k * config.max_points_per_centroid {
        let picked = Seq::new(n as nat, |i: int| i as usize);
        assert forall|j: int| 0 <= j < n implies rows.subrange(j * d, j * d + d) == data.subrange(
            (#[trigger] picked[j]) * d,
            picked[j] * d + d,
        ) by {
            ivf_lists::lemma_row_bounds(n as nat, d as nat, j);
            assert(rows.subrange(j * d, j * d + d) =~= data.subrange(j * d, j * d + d));
        }
        assert(picked.no_duplicates());
    } else {
        let picks = choose|picks: Seq<usize>|
            picks.len() == training::training_count(n, k, config) && #[trigger] random::are_picks(
                picks,
                n as nat,
            ) && rows == ivf_lists::gathered(data, d as nat, random::sampled(n as nat, picks));
        let picked = random::sampled(n as nat, picks);
        random::samples_do_not_repeat(n as nat, picks);
        clustering_law::gathered_rows_are_kept(data, d as nat, picked, n as nat);
        assert(picked.no_duplicates());
    }
}

/// Where there are no more rows than centroids, the centroids are the rows, over and over.
pub proof fn few_rows_are_their_own_centroids(
    math: Arithmetic,
    config: KMeansConfig,
    data: Seq<u32>,
    n: usize,
    d: usize,
    k: usize,
    initial: Option<Seq<u32>>,
    centroids: Seq<u32>,
)
    requires
        data.len() >= n * d,
        1 <= n <= k,
        config.max_points_per_centroid >= 1,
        training::trained(math, config, data, n, d, k, initial, centroids),
    ensures
        centroids.len() == k * d,
        forall|c: usize|
            c < k ==> #[trigger] clustering_law::centroid_at(centroids, d, c)
                == clustering_law::centroid_at(data, d, (c % n) as usize),
{
    let max = config.max_points_per_centroid as int;
    assert(n <= k * max) by (nonlinear_arith)
        requires
            1 <= n <= k,
            max >= 1,
    ;
    let rows = data.take((n * d) as int);
    let order = kmeans::cycle(n as nat, k as nat);
    assert forall|i: int| 0 <= i < order.len() implies #[trigger] order[i] < n by {
        vstd::arithmetic::div_mod::lemma_mod_bound(i, n as int);
    }
    assert(rows.len() == n * d);
    clustering_law::gathered_rows_are_kept(rows, d as nat, order, n as nat);
    assert forall|c: usize| c < k implies #[trigger] clustering_law::centroid_at(centroids, d, c)
        == clustering_law::centroid_at(data, d, (c % n) as usize) by {
        assert(order[c as int] == (c % n) as usize);
        ivf_lists::lemma_row_bounds(n as nat, d as nat, order[c as int] as int);
        let at = order[c as int] as int;
        assert(rows.subrange(at * d, at * d + d) =~= data.subrange(at * d, at * d + d));
    }
}

/// The distance of a row to the centroid it is assigned to, or the largest value where none is
/// below it.
pub open spec fn own_distance(dists: Seq<u32>, at: int) -> u32 {
    if 0 <= at < dists.len() && float_bits::lt(dists[at], 0x7f7f_ffff) {
        dists[at]
    } else {
        0x7f7f_ffff
    }
}

pub proof fn lemma_sum_is_fold(math: Arithmetic, values: Seq<u32>)
    ensures
        cluster_assign::sum_of(math, values) == values.fold_left(
            0u32,
            |a: u32, b: u32| (math.sum)(a, b),
        ),
    decreases values.len(),
{
    let f = |a: u32, b: u32| (math.sum)(a, b);
    reveal(Seq::fold_left);
    if values.len() > 0 {
        lemma_sum_is_fold(math, values.drop_last());
    }
}

/// The worth of an assignment is the sum, row by row, of the distances to the centroids.
pub proof fn every_distance_is_added(
    all: Clustering,
    centroids: Seq<u32>,
    before: Seq<usize>,
    after: Seq<usize>,
    objective: u32,
)
    requires
        all.n >= 1,
        all.n * all.k <= 4_194_304,
        !all.balanced,
        all.assigned(centroids, before, after, objective),
    ensures
        ({
            let rows = (all.math.distances)(
                all.data.subrange(0, all.n * all.d),
                all.n,
                all.d,
                centroids,
                all.k,
                Seq::new(all.k as nat, |c: int| 0usize),
            );
            &&& rows.len() == all.n
            &&& objective == Seq::new(
                all.n as nat,
                |x: int| own_distance(rows[x], after[x] as int),
            ).fold_left(0u32, |a: u32, b: u32| (all.math.sum)(a, b))
        }),
{
    let rows = all.piece_rows(centroids, before, 0, all.n as int);
    let zeros = Seq::new(all.k as nat, |c: int| 0usize);
    assert(cluster_assign::zeros(all.k as nat) =~= zeros);
    assert(all.piece_len(0) == all.n);
    assert(all.piece_assigned(centroids, before, after, 0));
    assert(0 * all.d == 0 && (0 + all.n) * all.d == all.n * all.d);
    assert(after.subrange(0, all.n as int) =~= after);
    let each = Seq::new(all.n as nat, |x: int| own_distance(rows[x], after[x] as int));
    assert(cluster_assign::nearest_distances(rows, after) =~= each);
    lemma_sum_is_fold(all.math, each);
}

/// The objective of round `i` is settled: it is not the first, and it is as good as the one before.
pub open spec fn is_settled(all: Clustering, run: Run, i: int) -> bool {
    &&& i >= 1
    &&& float_bits::lt(run.rounds[i - 1].objective, 0x7f7f_ffff)
    &&& (all.math.settled)(run.rounds[i - 1].objective, run.rounds[i].objective)
}

/// The run goes on round by round, each from where the one before ended, until it is settled or has
/// made `niter` rounds.
pub open spec fn goes_through(all: Clustering, run: Run, niter: nat) -> bool {
    let count = run.rounds.len() as int;
    &&& count <= niter
    &&& count < niter ==> is_settled(all, run, count - 1)
    &&& forall|i: int| 0 <= i < count - 1 ==> !#[trigger] is_settled(all, run, i)
    &&& forall|i: int|
        0 <= i < count ==> all.assigned(
            if i == 0 {
                run.init
            } else {
                run.rounds[i - 1].centroids
            },
            if i == 0 {
                Seq::new(all.n as nat, |x: int| 0usize)
            } else {
                run.rounds[i - 1].assignments
            },
            (#[trigger] run.rounds[i]).assignments,
            run.rounds[i].objective,
        )
    &&& forall|i: int|
        0 <= i < count ==> all.updated(
            if i == 0 {
                run.init
            } else {
                run.rounds[i - 1].centroids
            },
            (#[trigger] run.rounds[i]).assignments,
            run.rounds[i].centroids,
        )
}

/// What a run ends with.
pub open spec fn end_of(run: Run) -> Seq<u32> {
    if run.rounds.len() == 0 {
        run.init
    } else {
        run.rounds.last().centroids
    }
}

/// What a run is worth: its last objective that was not settled.
pub open spec fn worth_of(all: Clustering, run: Run) -> u32 {
    let count = run.rounds.len() as int;
    if count == 0 {
        0x7f7f_ffff
    } else if is_settled(all, run, count - 1) {
        run.rounds[count - 2].objective
    } else {
        run.rounds[count - 1].objective
    }
}

/// Training makes the runs that are asked for, one where it begins with given centroids, and gives
/// the centroids of one that no other betters; with no run that is worth something it gives zeros.
pub proof fn training_gives_the_best_run(
    math: Arithmetic,
    config: KMeansConfig,
    rows: Seq<u32>,
    n: usize,
    d: usize,
    k: usize,
    initial: Option<Seq<u32>>,
    centroids: Seq<u32>,
)
    requires
        n > k,
        training::trained_on(math, config, rows, n, d, k, initial, centroids),
    ensures
        exists|runs: Seq<Run>| #[trigger]
            are_all_runs(
                Clustering { math, data: rows, n, d, k, balanced: training::is_balanced(config) },
                config,
                initial,
                runs,
                centroids,
            ),
{
    let all = Clustering { math, data: rows, n, d, k, balanced: training::is_balanced(config) };
    let runs = choose|runs: Seq<Run>| #[trigger]
        all.are_runs(config, initial, runs) && centroids == all.best(runs, runs.len() as int).0;
    assert(cluster_assign::zeros(n as nat) =~= Seq::new(n as nat, |x: int| 0usize));
    assert forall|i: int| 0 <= i < runs.len() implies goes_through(
        all,
        #[trigger] runs[i],
        config.niter as nat,
    ) && worth_of(all, runs[i]) == all.worth(runs[i]) && end_of(runs[i]) == runs[i].centroids(
        runs[i].rounds.len() as int,
    ) by {
        let run = runs[i];
        assert(all.is_run(run, config.niter as nat));
        assert forall|j: int| #[trigger] is_settled(all, run, j) == all.settles(run, j) by {}
        assert forall|j: int| 0 <= j < run.rounds.len() - 1 implies !#[trigger] is_settled(
            all,
            run,
            j,
        ) by {
            assert(!all.settles(run, j));
        }
        assert forall|j: int| 0 <= j < run.rounds.len() implies all.round_follows(run, j) && (
        #[trigger] run.rounds[j]) == run.rounds[j] by {}
    }
    lemma_best(all, runs, runs.len() as int);
    assert(are_all_runs(all, config, initial, runs, centroids));
}

pub open spec fn are_all_runs(
    all: Clustering,
    config: KMeansConfig,
    initial: Option<Seq<u32>>,
    runs: Seq<Run>,
    centroids: Seq<u32>,
) -> bool {
    &&& runs.len() == (if initial is Some {
        1
    } else {
        config.nredo as int
    })
    &&& initial matches Some(values) ==> runs[0].init == values
    &&& initial is None ==> forall|i: int|
        0 <= i < runs.len() ==> (Clustering { balanced: false, ..all }).seeded(
            (#[trigger] runs[i]).init,
        )
    &&& forall|i: int|
        0 <= i < runs.len() ==> goes_through(all, #[trigger] runs[i], config.niter as nat)
    &&& {
        ||| exists|best: int|
            {
                &&& 0 <= best < runs.len()
                &&& centroids == end_of(#[trigger] runs[best])
                &&& float_bits::lt(worth_of(all, runs[best]), 0x7f7f_ffff)
                &&& forall|i: int|
                    0 <= i < runs.len() ==> !float_bits::lt(
                        worth_of(all, #[trigger] runs[i]),
                        worth_of(all, runs[best]),
                    )
                &&& forall|i: int|
                    0 <= i < best ==> !float_bits::eq(
                        worth_of(all, #[trigger] runs[i]),
                        worth_of(all, runs[best]),
                    )
            }
        ||| {
            &&& forall|i: int|
                0 <= i < runs.len() ==> !float_bits::lt(
                    worth_of(all, #[trigger] runs[i]),
                    0x7f7f_ffff,
                )
            &&& centroids == Seq::new((all.k * all.d) as nat, |i: int| 0u32)
        }
    }
}

proof fn lemma_best(all: Clustering, runs: Seq<Run>, upto: int)
    requires
        0 <= upto <= runs.len(),
        forall|i: int| 0 <= i < runs.len() ==> worth_of(all, #[trigger] runs[i]) == all.worth(
            runs[i],
        ) && end_of(runs[i]) == runs[i].centroids(runs[i].rounds.len() as int),
    ensures
        ({
            let kept = all.best(runs, upto);
            ||| exists|best: int|
                {
                    &&& 0 <= best < upto
                    &&& kept.0 == end_of(#[trigger] runs[best])
                    &&& kept.1 == worth_of(all, runs[best])
                    &&& float_bits::lt(worth_of(all, runs[best]), 0x7f7f_ffff)
                    &&& forall|i: int|
                        0 <= i < upto ==> !float_bits::lt(
                            worth_of(all, #[trigger] runs[i]),
                            worth_of(all, runs[best]),
                        )
                    &&& forall|i: int|
                        0 <= i < best ==> !float_bits::eq(
                            worth_of(all, #[trigger] runs[i]),
                            worth_of(all, runs[best]),
                        )
                }
            ||| {
                &&& kept.1 == 0x7f7f_ffff
                &&& forall|i: int|
                    0 <= i < upto ==> !float_bits::lt(worth_of(all, #[trigger] runs[i]), 0x7f7f_ffff)
                &&& kept.0 == Seq::new((all.k * all.d) as nat, |i: int| 0u32)
            }
        }),
    decreases upto,
{
    if upto > 0 {
        lemma_best(all, runs, upto - 1);
        let before = all.best(runs, upto - 1);
        let last = upto - 1;
        assert(worth_of(all, runs[last]) == all.worth(runs[last]));
        if before.1 == 0x7f7f_ffff && (forall|i: int|
            0 <= i < last ==> !float_bits::lt(worth_of(all, #[trigger] runs[i]), 0x7f7f_ffff))
            && before.0 == Seq::new((all.k * all.d) as nat, |i: int| 0u32) {
            if float_bits::lt(all.worth(runs[last]), before.1) {
                assert(all.best(runs, upto).0 == end_of(runs[last]));
            }
        } else {
            let best = choose|best: int|
                {
                    &&& 0 <= best < last
                    &&& before.0 == end_of(#[trigger] runs[best])
                    &&& before.1 == worth_of(all, runs[best])
                    &&& float_bits::lt(worth_of(all, runs[best]), 0x7f7f_ffff)
                    &&& forall|i: int|
                        0 <= i < last ==> !float_bits::lt(
                            worth_of(all, #[trigger] runs[i]),
                            worth_of(all, runs[best]),
                        )
                    &&& forall|i: int|
                        0 <= i < best ==> !float_bits::eq(
                            worth_of(all, #[trigger] runs[i]),
                            worth_of(all, runs[best]),
                        )
                };
            if float_bits::lt(all.worth(runs[last]), before.1) {
                assert(all.best(runs, upto).0 == end_of(runs[last]));
                assert forall|i: int| 0 <= i < upto implies !float_bits::lt(
                    worth_of(all, #[trigger] runs[i]),
                    worth_of(all, runs[last]),
                ) by {}
            } else {
                assert(all.best(runs, upto).0 == end_of(runs[best]));
            }
        }
    } else {
        assert(cluster_split::zeros(all.k * all.d) =~= Seq::new(
            (all.k * all.d) as nat,
            |i: int| 0u32,
        ));
    }
}

/// How close row `i` is to the nearest of the seeds.
pub open spec fn is_gap_to_nearest(all: Clustering, seeds: Seq<usize>, i: usize, gap: u32) -> bool {
    let far = |s: usize| (all.math.gap)(
        clustering_law::centroid_at(all.data, all.d, i),
        clustering_law::centroid_at(all.data, all.d, s),
    );
    &&& forall|j: int| 0 <= j < seeds.len() ==> !float_bits::lt(far(#[trigger] seeds[j]), gap)
    &&& gap == 0x7f7f_ffff || exists|j: int| 0 <= j < seeds.len() && far(#[trigger] seeds[j]) == gap
    &&& !float_bits::lt(0x7f7f_ffff, gap)
}

proof fn lemma_gaps(all: Clustering, seeds: Seq<usize>, i: usize)
    requires
        i < all.n,
    ensures
        all.closest(seeds).len() == all.n,
        is_gap_to_nearest(all, seeds, i, all.closest(seeds)[i as int]),
    decreases seeds.len(),
{
    if seeds.len() > 0 {
        let front = seeds.drop_last();
        lemma_gaps(all, front, i);
        let before = all.closest(front)[i as int];
        let gap = all.closest(seeds)[i as int];
        let last = seeds.len() - 1;
        let far = |s: usize| (all.math.gap)(
            clustering_law::centroid_at(all.data, all.d, i),
            clustering_law::centroid_at(all.data, all.d, s),
        );
        assert(all.data_row(i as int) == clustering_law::centroid_at(all.data, all.d, i));
        assert(all.data_row(seeds[last] as int) == clustering_law::centroid_at(
            all.data,
            all.d,
            seeds[last],
        ));
        assert forall|j: int| 0 <= j < seeds.len() implies !float_bits::lt(
            far(#[trigger] seeds[j]),
            gap,
        ) by {
            if j < last {
                assert(front[j] == seeds[j]);
            }
        }
        if gap == before {
            if gap != 0x7f7f_ffff {
                let j = choose|j: int| 0 <= j < front.len() && far(#[trigger] front[j]) == gap;
                assert(far(seeds[j]) == gap);
            }
        } else {
            assert(far(seeds[last]) == gap);
        }
    }
}

/// The sum of the first gaps, one after the other.
pub open spec fn gaps_up_to(all: Clustering, gaps: Seq<u32>, count: int) -> u32 {
    gaps.take(count).fold_left(0u32, |a: u32, b: u32| (all.math.sum)(a, b))
}

/// Seed `c` is the first row at which the sum of the gaps to the seeds before it reaches its
/// target, or the last row.
pub open spec fn is_drawn_by_gaps(
    all: Clustering,
    seeds: Seq<usize>,
    word: u32,
    c: int,
    gaps: Seq<u32>,
) -> bool {
    let target = (all.math.target)(word, gaps_up_to(all, gaps, all.n as int));
    let reached = |i: int| float_bits::lt(target, gaps_up_to(all, gaps, i + 1)) || float_bits::eq(
        target,
        gaps_up_to(all, gaps, i + 1),
    );
    &&& gaps.len() == all.n
    &&& forall|i: usize| i < all.n ==> #[trigger] is_gap_to_nearest(
        all,
        seeds.take(c),
        i,
        gaps[i as int],
    )
    &&& seeds[c] < all.n
    &&& reached(seeds[c] as int) || seeds[c] == all.n - 1
    &&& forall|i: int| 0 <= i < seeds[c] ==> !#[trigger] reached(i)
}

/// The centroids that a run begins with are rows of the data, as many as are wanted; each but the
/// first is drawn by how far the rows are from those before it.
pub proof fn seeds_are_drawn_by_their_gaps(all: Clustering, centroids: Seq<u32>)
    requires
        all.data.len() >= all.n * all.d,
        all.k >= 1,
        all.seeded(centroids),
    ensures
        exists|seeds: Seq<usize>, words: Seq<u32>| #[trigger] are_drawn(all, centroids, seeds, words),
{
    let (seeds, words) = choose|seeds: Seq<usize>, words: Seq<u32>| #[trigger]
        all.are_seeds(seeds, words) && centroids == ivf_lists::gathered(
            all.data,
            all.d as nat,
            seeds,
        );
    assert forall|c: int| 0 <= c < seeds.len() implies #[trigger] seeds[c] < all.n by {
        if c >= 1 {
            assert(all.seed_follows(seeds, words, c));
        }
    }
    clustering_law::gathered_rows_are_kept(all.data, all.d as nat, seeds, all.n as nat);
    assert forall|c: int| 1 <= c < all.k implies drawn_at(all, seeds, #[trigger] words[c], c) by {
        assert(all.seed_follows(seeds, words, c));
        let gaps = all.closest(seeds.subrange(0, c));
        assert(seeds.subrange(0, c) =~= seeds.take(c));
        lemma_gaps(all, seeds.take(c), 0);
        assert forall|i: usize| i < all.n implies #[trigger] is_gap_to_nearest(
            all,
            seeds.take(c),
            i,
            gaps[i as int],
        ) by {
            lemma_gaps(all, seeds.take(c), i);
        }
        assert forall|count: int| 0 <= count <= gaps.len() implies #[trigger] gaps_up_to(
            all,
            gaps,
            count,
        ) == cluster_assign::sum_of(all.math, gaps.subrange(0, count)) by {
            assert(gaps.subrange(0, count) =~= gaps.take(count));
            lemma_sum_is_fold(all.math, gaps.take(count));
        }
        assert(gaps.subrange(0, gaps.len() as int) =~= gaps);
        let target = (all.math.target)(words[c], gaps_up_to(all, gaps, all.n as int));
        assert(target == (all.math.target)(words[c], cluster_assign::sum_of(all.math, gaps)));
        let reached = |i: int| float_bits::lt(target, gaps_up_to(all, gaps, i + 1))
            || float_bits::eq(target, gaps_up_to(all, gaps, i + 1));
        assert forall|i: int| 0 <= i < seeds[c] implies !#[trigger] reached(i) by {
            assert(!all.reached(gaps, target, i));
        }
        assert(reached(seeds[c] as int) || seeds[c] == all.n - 1);
        assert(is_drawn_by_gaps(all, seeds, words[c], c, gaps));
    }
    assert(are_drawn(all, centroids, seeds, words));
}

pub open spec fn drawn_at(all: Clustering, seeds: Seq<usize>, word: u32, c: int) -> bool {
    exists|gaps: Seq<u32>| #[trigger] is_drawn_by_gaps(all, seeds, word, c, gaps)
}

pub open spec fn are_drawn(
    all: Clustering,
    centroids: Seq<u32>,
    seeds: Seq<usize>,
    words: Seq<u32>,
) -> bool {
    &&& seeds.len() == all.k
    &&& words.len() == all.k
    &&& forall|c: int| 0 <= c < seeds.len() ==> #[trigger] seeds[c] < all.n
    &&& clustering_law::holds_rows(centroids, all.data, all.d as nat, seeds)
    &&& forall|c: int| 1 <= c < all.k ==> drawn_at(all, seeds, #[trigger] words[c], c)
}

/// The cluster that is split next is one of the largest and has at least four rows; it alone leaves
/// the others. None is split where there are enough clusters, or all have fewer rows.
pub proof fn the_largest_cluster_is_split(state: SplitModel, target_k: int)
    requires
        state.splitting is None,
    ensures
        ({
            let after = cluster_split::advanced(state, target_k);
            let wanting = state.finalized.len() + state.heap.len() < target_k;
            &&& after.splitting is Some <==> wanting && exists|i: int|
                0 <= i < state.heap.len() && (#[trigger] state.heap[i]).indices.len() >= 4
            &&& after.splitting matches Some(cluster) ==> {
                &&& after.finalized == state.finalized
                &&& forall|i: int|
                    0 <= i < state.heap.len() ==> (#[trigger] state.heap[i]).indices.len()
                        <= cluster.indices.len()
                &&& exists|at: int|
                    0 <= at < state.heap.len() && cluster == #[trigger] state.heap[at]
                        && after.heap == state.heap.remove(at)
            }
            &&& !wanting ==> after == state
        }),
    decreases state.heap.len(),
{
    let wanting = state.finalized.len() + state.heap.len() < target_k;
    if wanting && state.heap.len() > 0 {
        cluster_split::largest_has_most_rows(state.heap, 0);
        let at = cluster_split::largest(state.heap);
        assert forall|i: int| 0 <= i < state.heap.len() implies (#[trigger] state.heap[i]).indices.len()
            <= state.heap[at].indices.len() by {
            cluster_split::largest_has_most_rows(state.heap, i);
        }
        if state.heap[at].indices.len() < 4 {
            let rest = state.heap.remove(at);
            let next = SplitModel {
                heap: rest,
                finalized: state.finalized.push(state.heap[at].centroid),
                splitting: state.splitting,
            };
            the_largest_cluster_is_split(next, target_k);
            assert forall|i: int| 0 <= i < rest.len() implies (#[trigger] rest[i]).indices.len() < 4 by {
                if i < at {
                    assert(rest[i] == state.heap[i]);
                } else {
                    assert(rest[i] == state.heap[i + 1]);
                }
            }
        }
    }
}

/// The centroids of the clusters, in some order, one behind the other.
pub open spec fn are_centroids_of(
    values: Seq<u32>,
    heap: Seq<ClusterModel>,
    order: Seq<int>,
) -> bool {
    &&& order.len() == heap.len()
    &&& order.no_duplicates()
    &&& forall|i: int| 0 <= i < order.len() ==> 0 <= #[trigger] order[i] < heap.len()
    &&& values == cluster_split::flattened(
        Seq::new(order.len(), |i: int| heap[order[i]].centroid),
    )
}

proof fn lemma_flattened_first(first: Seq<u32>, rest: Seq<Seq<u32>>)
    ensures
        cluster_split::flattened(seq![first] + rest) == first + cluster_split::flattened(rest),
    decreases rest.len(),
{
    let all = seq![first] + rest;
    if rest.len() == 0 {
        assert(all.drop_last() =~= Seq::<Seq<u32>>::empty());
        reveal_with_fuel(cluster_split::flattened, 2);
        assert(cluster_split::flattened(all) =~= first + cluster_split::flattened(rest));
    } else {
        lemma_flattened_first(first, rest.drop_last());
        assert(all.drop_last() =~= seq![first] + rest.drop_last());
        assert(all.last() == rest.last());
        assert(cluster_split::flattened(all) =~= first + cluster_split::flattened(rest));
    }
}

/// Centroids one behind the other: each list of values stands at its place.
pub proof fn flattened_lists_are_kept(lists: Seq<Seq<u32>>, d: usize)
    requires
        lists.len() <= usize::MAX,
        forall|i: int| 0 <= i < lists.len() ==> (#[trigger] lists[i]).len() == d,
    ensures
        cluster_split::flattened(lists).len() == lists.len() * d,
        forall|i: usize|
            i < lists.len() ==> #[trigger] clustering_law::centroid_at(
                cluster_split::flattened(lists),
                d,
                i,
            ) == lists[i as int],
    decreases lists.len(),
{
    if lists.len() > 0 {
        let front = lists.drop_last();
        assert forall|i: int| 0 <= i < front.len() implies (#[trigger] front[i]).len() == d by {
            assert(front[i] == lists[i]);
        }
        flattened_lists_are_kept(front, d);
        let before = cluster_split::flattened(front);
        let values = cluster_split::flattened(lists);
        assert(lists[lists.len() - 1].len() == d);
        assert((lists.len() - 1) * d + d == lists.len() * d) by (nonlinear_arith);
        assert forall|i: usize| i < lists.len() implies #[trigger] clustering_law::centroid_at(
            values,
            d,
            i,
        ) == lists[i as int] by {
            if i < front.len() {
                ivf_lists::lemma_row_bounds(front.len(), d as nat, i as int);
                assert(clustering_law::centroid_at(values, d, i) =~= clustering_law::centroid_at(
                    before,
                    d,
                    i,
                ));
            } else {
                assert(clustering_law::centroid_at(values, d, i) =~= lists[i as int]);
            }
        }
    } else {
        assert(lists.len() * d == 0) by (nonlinear_arith)
            requires
                lists.len() == 0,
        ;
    }
}

/// Each cluster that is left gives its centroid, once; the largest ones come first.
pub proof fn every_cluster_gives_its_centroid(heap: Seq<ClusterModel>)
    ensures
        exists|order: Seq<int>| #[trigger]
            are_centroids_of(cluster_split::drained(heap), heap, order) && forall|i: int, j: int|
                0 <= i < j < order.len() ==> heap[#[trigger] order[i]].indices.len()
                    >= heap[#[trigger] order[j]].indices.len(),
    decreases heap.len(),
{
    if heap.len() > 0 {
        cluster_split::largest_has_most_rows(heap, 0);
        let at = cluster_split::largest(heap);
        let rest = heap.remove(at);
        every_cluster_gives_its_centroid(rest);
        let later = choose|order: Seq<int>| #[trigger]
            are_centroids_of(cluster_split::drained(rest), rest, order) && forall|i: int, j: int|
                0 <= i < j < order.len() ==> rest[#[trigger] order[i]].indices.len()
                    >= rest[#[trigger] order[j]].indices.len();
        let place = |x: int| if x < at {
            x
        } else {
            x + 1
        };
        let order = seq![at] + Seq::new(later.len(), |i: int| place(later[i]));
        assert forall|x: int| 0 <= x < rest.len() implies #[trigger] rest[x] == heap[place(x)] by {}
        assert forall|i: int| 0 <= i < order.len() implies 0 <= #[trigger] order[i] < heap.len() by {
            if i > 0 {
                assert(0 <= later[i - 1] < rest.len());
            }
        }
        assert(order.no_duplicates()) by {
            assert forall|i: int, j: int| 0 <= i < order.len() && 0 <= j < order.len() && i
                != j implies order[i] != order[j] by {
                if i > 0 && j > 0 {
                    assert(later[i - 1] != later[j - 1]);
                }
            }
        }
        let all = Seq::new(order.len(), |i: int| heap[order[i]].centroid);
        let rests = Seq::new(later.len(), |i: int| rest[later[i]].centroid);
        assert(all =~= seq![heap[at].centroid] + rests) by {
            assert forall|i: int| 0 <= i < all.len() implies all[i] == (seq![heap[at].centroid]
                + rests)[i] by {
                if i > 0 {
                    assert(0 <= later[i - 1] < rest.len());
                    assert(rest[later[i - 1]] == heap[place(later[i - 1])]);
                }
            }
        }
        lemma_flattened_first(heap[at].centroid, rests);
        assert(are_centroids_of(cluster_split::drained(heap), heap, order));
        assert forall|i: int, j: int| 0 <= i < j < order.len() implies heap[#[trigger] order[i]].indices.len()
            >= heap[#[trigger] order[j]].indices.len() by {
            if i == 0 {
                cluster_split::largest_has_most_rows(heap, order[j]);
            } else {
                assert(0 <= later[i - 1] < rest.len() && 0 <= later[j - 1] < rest.len());
                assert(rest[later[i - 1]].indices.len() >= rest[later[j - 1]].indices.len());
            }
        }
    } else {
        assert(Seq::new(0, |i: int| heap[Seq::<int>::empty()[i]].centroid) =~= Seq::<Seq<u32>>::empty());
        assert(are_centroids_of(cluster_split::drained(heap), heap, Seq::<int>::empty()));
    }
}

/// A chunk of rows adds to what was kept and changes none of it: at most `k` centroids come with
/// it, one weight for each, and the weights of the chunk add up to its rows.
pub proof fn chunks_are_added(
    before: StreamingKMeans,
    math: Arithmetic,
    data: Seq<u32>,
    n: usize,
    after: StreamingKMeans,
)
    requires
        before.k >= 1,
        n >= 1,
        before.with_chunk(math, data, n, after),
    ensures
        after.d == before.d,
        after.k == before.k,
        after.config == before.config,
        before.coreset_centroids@.is_prefix_of(after.coreset_centroids@),
        before.coreset_weights@.is_prefix_of(after.coreset_weights@),
        after.coreset_weights@.len() - before.coreset_weights@.len() == (if n < before.k {
            n as int
        } else {
            before.k as int
        }),
        kmeans::total(after.coreset_weights@.skip(before.coreset_weights@.len() as int)) == n,
{
    let k = before.chunk_k(n);
    let chunk = Clustering { math, data, n, d: before.d, k, balanced: false };
    let (centroids, assignments, objective) = choose|
        centroids: Seq<u32>,
        assignments: Seq<usize>,
        objective: u32,
    |
        {
            &&& #[trigger] chunk.assigned(
                centroids,
                cluster_assign::zeros(n as nat),
                assignments,
                objective,
            )
            &&& after.coreset_centroids@ == before.coreset_centroids@ + centroids
            &&& after.coreset_weights@ == before.coreset_weights@ + kmeans::cluster_sizes(
                assignments,
                k as nat,
            )
        };
    coreset::every_row_counts_once(assignments, k as nat);
    assert(after.coreset_weights@.skip(before.coreset_weights@.len() as int)
        =~= kmeans::cluster_sizes(assignments, k as nat));
    assert(before.coreset_centroids@ =~= after.coreset_centroids@.take(
        before.coreset_centroids@.len() as int,
    ));
}

/// The row is the mean, by weight, of the rows of cluster `c`.
pub open spec fn is_weighted_mean_of(
    all: Clustering,
    weights: Seq<usize>,
    assignments: Seq<usize>,
    c: usize,
    row: Seq<u32>,
) -> bool {
    exists|rows: Seq<usize>, part: Seq<u32>, own: Seq<usize>| #[trigger]
        clustering_law::are_rows_of(rows, assignments, c) && #[trigger] clustering_law::holds_rows(
            part,
            all.data,
            all.d as nat,
            rows,
        ) && #[trigger] clustering_law::holds_rows(own, weights, 1, rows) && row == (
        all.math.weighted_mean)(part, own, all.d)
}

/// Some row of cluster `c` has a weight.
pub open spec fn has_weight(weights: Seq<usize>, assignments: Seq<usize>, c: usize) -> bool {
    exists|i: int|
        0 <= i < assignments.len() && #[trigger] assignments[i] == c && weights[i] > 0
}

/// A weighted mean has as many values as a row.
pub open spec fn weighted_means_fit(all: Clustering) -> bool {
    forall|part: Seq<u32>, own: Seq<usize>|
        part.len() == own.len() * all.d ==> (#[trigger] (all.math.weighted_mean)(
            part,
            own,
            all.d,
        )).len() == all.d
}

proof fn lemma_total_positive(counts: Seq<usize>)
    ensures
        kmeans::total(counts) >= 0,
        kmeans::total(counts) > 0 <==> exists|i: int| 0 <= i < counts.len() && #[trigger] counts[i] > 0,
    decreases counts.len(),
{
    if counts.len() > 0 {
        let front = counts.drop_last();
        lemma_total_positive(front);
        let last = counts.len() - 1;
        if kmeans::total(front) > 0 {
            let i = choose|i: int| 0 <= i < front.len() && #[trigger] front[i] > 0;
            assert(counts[i] > 0);
        }
        if counts[last] > 0 {
            assert(counts[last] > 0);
        }
        if exists|i: int| 0 <= i < counts.len() && #[trigger] counts[i] > 0 {
            let i = choose|i: int| 0 <= i < counts.len() && #[trigger] counts[i] > 0;
            if i < last {
                assert(front[i] > 0);
            }
        }
    }
}

/// Moving weighted centroids puts the centroid of each cluster with a weight at the weighted mean
/// of its rows, and each other one at a row of the data; those from `upto` on stay.
pub proof fn weighted_centroids_move_to_their_means(
    all: Clustering,
    weights: Seq<usize>,
    centroids: Seq<u32>,
    assignments: Seq<usize>,
    drawn: Seq<usize>,
    upto: int,
)
    requires
        all.data.len() >= all.n * all.d,
        assignments.len() == all.n,
        weights.len() == all.n,
        centroids.len() == all.k * all.d,
        0 <= upto <= all.k,
        all.are_spare_rows(drawn),
        weighted_means_fit(all),
    ensures
        ({
            let moved = all.weighted_moved(weights, centroids, assignments, drawn, upto);
            &&& moved.len() == all.k * all.d
            &&& forall|c: usize|
                c < upto && has_weight(weights, assignments, c) ==> is_weighted_mean_of(
                    all,
                    weights,
                    assignments,
                    c,
                    #[trigger] clustering_law::centroid_at(moved, all.d, c),
                )
            &&& forall|c: usize|
                c < upto && !has_weight(weights, assignments, c) ==> clustering_law::is_data_row(
                    all,
                    #[trigger] clustering_law::centroid_at(moved, all.d, c),
                )
            &&& forall|c: usize|
                upto <= c < all.k ==> #[trigger] clustering_law::centroid_at(moved, all.d, c)
                    == clustering_law::centroid_at(centroids, all.d, c)
        }),
    decreases upto,
{
    if upto > 0 {
        let c = (upto - 1) as usize;
        weighted_centroids_move_to_their_means(
            all,
            weights,
            centroids,
            assignments,
            drawn,
            upto - 1,
        );
        let before = all.weighted_moved(weights, centroids, assignments, drawn, upto - 1);
        let moved = all.weighted_moved(weights, centroids, assignments, drawn, upto);
        let rows = ivf_lists::rows_for(assignments, c);
        let own = all.cluster_weights(weights, assignments, upto - 1);
        let part = all.cluster_rows(assignments, upto - 1);
        clustering_law::rows_are_listed_in_order(assignments, c);
        ivf_lists::each_row_goes_to_its_list(assignments, c, 0);
        clustering_law::gathered_rows_are_kept(all.data, all.d as nat, rows, all.n as nat);
        clustering_law::gathered_rows_are_kept(weights, 1, rows, all.n as nat);
        lemma_total_positive(own);
        assert forall|j: int| 0 <= j < rows.len() implies #[trigger] own[j] == weights[rows[j] as int] by {
            assert(own.subrange(j * 1, j * 1 + 1) == weights.subrange(rows[j] * 1, rows[j] * 1 + 1));
            assert(own.subrange(j * 1, j * 1 + 1)[0] == own[j]);
            assert(weights.subrange(rows[j] * 1, rows[j] * 1 + 1)[0] == weights[rows[j] as int]);
        }
        assert(kmeans::total(own) > 0 <==> has_weight(weights, assignments, c)) by {
            if kmeans::total(own) > 0 {
                let j = choose|j: int| 0 <= j < own.len() && #[trigger] own[j] > 0;
                assert(rows.contains(rows[j]));
                assert(assignments[rows[j] as int] == c && weights[rows[j] as int] > 0);
            }
            if has_weight(weights, assignments, c) {
                let i = choose|i: int|
                    0 <= i < assignments.len() && #[trigger] assignments[i] == c && weights[i] > 0;
                assert(rows.contains(i as usize));
                let j = choose|j: int| 0 <= j < rows.len() && rows[j] == i as usize;
                assert(own[j] > 0);
            }
        }
        let row = if kmeans::total(own) > 0 {
            (all.math.weighted_mean)(part, own, all.d)
        } else {
            all.data_row(drawn[upto - 1] as int)
        };
        assert(drawn[upto - 1] < all.n);
        ivf_lists::lemma_row_bounds(all.n as nat, all.d as nat, drawn[upto - 1] as int);
        clustering_law::lemma_with_row(before, all.d, all.k, c, row);
        if kmeans::total(own) > 0 {
            assert(clustering_law::are_rows_of(rows, assignments, c)
                && clustering_law::holds_rows(part, all.data, all.d as nat, rows)
                && clustering_law::holds_rows(own, weights, 1, rows));
            assert(is_weighted_mean_of(all, weights, assignments, c, row));
        } else {
            assert(row == clustering_law::centroid_at(all.data, all.d, drawn[upto - 1]));
            assert(clustering_law::is_data_row(all, row));
        }
        assert forall|o: usize| o < all.k && o != c implies #[trigger] clustering_law::centroid_at(
            moved,
            all.d,
            o,
        ) == clustering_law::centroid_at(before, all.d, o) by {}
    }
}

/// A coreset that is not larger than the number of centroids that are wanted is given as it is,
/// with zeros behind it.
pub proof fn small_coresets_are_given_as_they_are(values: Seq<u32>, len: int, i: int)
    requires
        values.len() <= len,
        0 <= i < len,
    ensures
        coreset::filled_up(values, len).len() == len,
        coreset::filled_up(values, len)[i] == (if i < values.len() {
            values[i]
        } else {
            0
        }),
{
}

/// The clusters that a splitting begins with hold the rows that are assigned to them, each row
/// once, with their centroids.
pub proof fn first_clusters_hold_their_rows(
    centroids: Seq<u32>,
    d: usize,
    assignments: Seq<usize>,
    k: nat,
    c: usize,
)
    requires
        c < k,
        assignments.len() <= usize::MAX,
    ensures
        cluster_split::initial_heap(centroids, d as nat, assignments, k).len() == k,
        ({
            let cluster = cluster_split::initial_heap(centroids, d as nat, assignments, k)[c as int];
            &&& cluster.centroid == clustering_law::centroid_at(centroids, d, c)
            &&& clustering_law::are_rows_of(cluster.indices, assignments, c)
        }),
{
    clustering_law::rows_are_listed_in_order(assignments, c);
}

/// Row `r` is in cluster `cluster`.
pub open spec fn is_in(cluster: ClusterModel, r: usize) -> bool {
    cluster.indices.contains(r)
}

/// The two sides of a split cluster: each has the centroid that it was trained for, and the rows of
/// the cluster that were put on it, in their order.
pub proof fn sides_hold_their_rows(
    cluster: ClusterModel,
    centroids: Seq<u32>,
    d: usize,
    sides: Seq<usize>,
    s: usize,
    i: int,
)
    requires
        sides.len() == cluster.indices.len(),
        sides.len() <= usize::MAX,
        0 <= i < sides.len(),
    ensures
        ({
            let half = cluster_split::side(cluster, centroids, d as nat, sides, s);
            &&& half.centroid == clustering_law::centroid_at(centroids, d, s)
            &&& half.indices.len() <= cluster.indices.len()
            &&& sides[i] == s ==> is_in(half, cluster.indices[i])
            &&& forall|j: int|
                0 <= j < half.indices.len() ==> is_in(cluster, #[trigger] half.indices[j])
        }),
{
    let rows = ivf_lists::rows_for(sides, s);
    let half = cluster_split::side(cluster, centroids, d as nat, sides, s);
    ivf_lists::each_row_goes_to_its_list(sides, s, i as usize);
    kmeans::lemma_members_fit(sides, s);
    if sides[i] == s {
        assert(rows.contains(i as usize));
        let j = choose|j: int| 0 <= j < rows.len() && rows[j] == i as usize;
        assert(half.indices[j] == cluster.indices[i]);
    }
    assert forall|j: int| 0 <= j < half.indices.len() implies is_in(
        cluster,
        #[trigger] half.indices[j],
    ) by {
        assert(rows[j] < sides.len());
        assert(cluster.indices[rows[j] as int] == half.indices[j]);
    }
}

/// The run begins with seeds and makes all of its rounds, each from where the one before ended: the
/// rows are assigned, and the centroids move by the weights.
pub open spec fn goes_through_with_weights(
    all: Clustering,
    weights: Seq<usize>,
    run: Run,
    niter: nat,
) -> bool {
    &&& run.rounds.len() == niter
    &&& all.seeded(run.init)
    &&& forall|i: int|
        0 <= i < niter ==> all.assigned(
            if i == 0 {
                run.init
            } else {
                run.rounds[i - 1].centroids
            },
            if i == 0 {
                Seq::new(all.n as nat, |x: int| 0usize)
            } else {
                run.rounds[i - 1].assignments
            },
            (#[trigger] run.rounds[i]).assignments,
            run.rounds[i].objective,
        )
    &&& forall|i: int|
        0 <= i < niter ==> all.weighted_updated(
            weights,
            if i == 0 {
                run.init
            } else {
                run.rounds[i - 1].centroids
            },
            (#[trigger] run.rounds[i]).assignments,
            run.rounds[i].centroids,
        )
}

/// Training with weights makes all the rounds that are asked for and gives the centroids that the
/// last one leaves; rows that are no more than the centroids are taken over and over.
pub proof fn weighted_training_makes_all_rounds(
    math: Arithmetic,
    config: KMeansConfig,
    data: Seq<u32>,
    weights: Seq<usize>,
    n: usize,
    d: usize,
    k: usize,
    centroids: Seq<u32>,
)
    requires
        n >= 1,
        n * d <= data.len(),
        coreset::weighted_trained(math, config, data, weights, n, d, k, centroids),
    ensures
        n > k ==> exists|run: Run| #[trigger]
            goes_through_with_weights(
                Clustering { math, data, n, d, k, balanced: false },
                weights,
                run,
                config.niter as nat,
            ) && centroids == end_of(run),
        n <= k ==> clustering_law::holds_rows(
            centroids,
            data,
            d as nat,
            Seq::new(k as nat, |c: int| (c % n as int) as usize),
        ),
{
    let all = Clustering { math, data, n, d, k, balanced: false };
    if n > k {
        let run = choose|run: Run| #[trigger]
            all.is_weighted_run(weights, run, config.niter as nat) && centroids == run.centroids(
                config.niter as int,
            );
        assert(cluster_assign::zeros(n as nat) =~= Seq::new(n as nat, |x: int| 0usize));
        assert forall|i: int| 0 <= i < config.niter implies all.weighted_round_follows(
            weights,
            run,
            i,
        ) && (#[trigger] run.rounds[i]) == run.rounds[i] by {}
        assert(goes_through_with_weights(all, weights, run, config.niter as nat));
        assert(centroids == end_of(run));
    } else {
        let order = kmeans::cycle(n as nat, k as nat);
        assert forall|c: int| 0 <= c < k implies #[trigger] order[c] < n by {
            vstd::arithmetic::div_mod::lemma_mod_bound(c, n as int);
        }
        clustering_law::gathered_rows_are_kept(data, d as nat, order, n as nat);
        assert(order =~= Seq::new(k as nat, |c: int| (c % n as int) as usize));
    }
}

/// Splitting ends when there are as many clusters as are wanted, or none that is large enough to be
/// split; it gives up only after all the splits that it may make, with a cluster left to split.
pub proof fn splitting_goes_on_to_the_end(
    all: Splitting,
    states: Seq<SplitModel>,
    max_splits: usize,
    centroids: Option<Seq<u32>>,
)
    requires
        all.leads_to(states, max_splits, centroids),
    ensures
        1 <= states.len() <= max_splits + 1,
        ({
            let last = states.last();
            let wanting = last.finalized.len() + last.heap.len() < all.target_k;
            let splittable = exists|i: int|
                0 <= i < last.heap.len() && (#[trigger] last.heap[i]).indices.len() >= 4;
            &&& centroids is Some ==> !wanting || !splittable
            &&& centroids is None ==> wanting && splittable && states.len() == max_splits + 1
        }),
{
    let last = states.len() - 1;
    if last > 0 {
        assert(all.splits(states[last - 1], states[last - 1 + 1]));
    }
    assert(states[last].splitting is None);
    the_largest_cluster_is_split(states[last], all.target_k as int);
}

/// The settings for a training of one run on a part of the data, of `niter` rounds at most.
pub open spec fn part_config(niter: usize, seed: u64) -> KMeansConfig {
    KMeansConfig { niter, nredo: 1, max_points_per_centroid: 256, seed, balance_factor: 0 }
}

/// The centroids are trained on the rows, all of them in one cluster to begin with, and each row is
/// assigned to one of them.
pub open spec fn is_trained_and_assigned(
    all: Clustering,
    config: KMeansConfig,
    centroids: Seq<u32>,
    assignments: Seq<usize>,
    objective: u32,
) -> bool {
    &&& training::trained(
        all.math,
        config,
        all.data,
        all.n,
        all.d,
        all.k,
        None,
        centroids,
    )
    &&& all.assigned(
        centroids,
        Seq::new(all.n as nat, |i: int| 0usize),
        assignments,
        objective,
    )
}

/// What came of the chunk: centroids that were trained on its rows, each with the number of rows
/// that are assigned to it.
pub open spec fn stands_for_chunk(
    before: StreamingKMeans,
    after: StreamingKMeans,
    math: Arithmetic,
    data: Seq<u32>,
    n: usize,
    centroids: Seq<u32>,
    assignments: Seq<usize>,
    objective: u32,
) -> bool {
    let k = if n < before.k {
        n
    } else {
        before.k
    };
    let all = Clustering { math, data, n, d: before.d, k, balanced: false };
    let at = before.coreset_weights@.len() as int;
    &&& is_trained_and_assigned(
        all,
        part_config(15, (before.config.seed + at) as u64),
        centroids,
        assignments,
        objective,
    )
    &&& after.coreset_centroids@ == before.coreset_centroids@ + centroids
    &&& forall|c: usize|
        c < k ==> #[trigger] after.coreset_weights@[at + c] == assignments.filter(
            |a: usize| a == c,
        ).len()
}

/// A chunk of rows is kept as the centroids that were trained on it, each with the number of its
/// rows.
pub proof fn chunks_are_kept_as_their_centroids(
    before: StreamingKMeans,
    math: Arithmetic,
    data: Seq<u32>,
    n: usize,
    after: StreamingKMeans,
)
    requires
        before.k >= 1,
        n >= 1,
        before.with_chunk(math, data, n, after),
    ensures
        exists|centroids: Seq<u32>, assignments: Seq<usize>, objective: u32| #[trigger]
            stands_for_chunk(before, after, math, data, n, centroids, assignments, objective),
{
    let k = before.chunk_k(n);
    let all = Clustering { math, data, n, d: before.d, k, balanced: false };
    let (centroids, assignments, objective) = choose|
        centroids: Seq<u32>,
        assignments: Seq<usize>,
        objective: u32,
    |
        {
            &&& training::trained(
                math,
                coreset::chunk_config(before.chunk_seed() as u64),
                data,
                n,
                before.d,
                k,
                None,
                centroids,
            )
            &&& #[trigger] all.assigned(
                centroids,
                cluster_assign::zeros(n as nat),
                assignments,
                objective,
            )
            &&& after.coreset_centroids@ == before.coreset_centroids@ + centroids
            &&& after.coreset_weights@ == before.coreset_weights@ + kmeans::cluster_sizes(
                assignments,
                k as nat,
            )
        };
    assert(cluster_assign::zeros(n as nat) =~= Seq::new(n as nat, |i: int| 0usize));
    let at = before.coreset_weights@.len() as int;
    assert forall|c: usize| c < k implies #[trigger] after.coreset_weights@[at + c]
        == assignments.filter(|a: usize| a == c).len() by {
        clustering_law::clusters_are_as_large_as_their_rows(assignments, k as nat, c);
    }
    assert(stands_for_chunk(before, after, math, data, n, centroids, assignments, objective));
}

/// A splitting begins with sixteen clusters, or as many as are wanted: their centroids are trained on
/// all rows, and each row is in the cluster that it is assigned to.
pub proof fn splitting_begins_with_trained_clusters(all: Splitting, state: SplitModel)
    requires
        all.begins(state),
    ensures
        state.finalized.len() == 0,
        exists|first: Clustering, centroids: Seq<u32>, assignments: Seq<usize>, objective: u32|
            {
                &&& #[trigger] is_trained_and_assigned(
                    first,
                    part_config(all.config.niter, all.config.seed),
                    centroids,
                    assignments,
                    objective,
                )
                &&& first == (Clustering {
                    math: all.math,
                    data: all.data,
                    n: all.n,
                    d: all.d,
                    k: if all.target_k < 16 {
                        all.target_k
                    } else {
                        16
                    },
                    balanced: false,
                })
                &&& state.heap == cluster_split::initial_heap(
                    centroids,
                    all.d as nat,
                    assignments,
                    first.k as nat,
                )
            },
{
    let k = hierarchical::initial_count(all.target_k);
    let first = Clustering {
        math: all.math,
        data: all.data,
        n: all.n,
        d: all.d,
        k,
        balanced: false,
    };
    let (centroids, assignments, objective) = choose|
        centroids: Seq<u32>,
        assignments: Seq<usize>,
        objective: u32,
    |
        {
            &&& training::trained(
                all.math,
                hierarchical::initial_config(all.config),
                all.data,
                all.n,
                all.d,
                k,
                None,
                centroids,
            )
            &&& #[trigger] first.assigned(
                centroids,
                cluster_assign::zeros(all.n as nat),
                assignments,
                objective,
            )
            &&& state.heap == cluster_split::initial_heap(
                centroids,
                all.d as nat,
                assignments,
                k as nat,
            )
        };
    assert(cluster_assign::zeros(all.n as nat) =~= Seq::new(all.n as nat, |i: int| 0usize));
    assert(is_trained_and_assigned(
        first,
        part_config(all.config.niter, all.config.seed),
        centroids,
        assignments,
        objective,
    ));
}

/// The cluster is split in two: two centroids are trained on its rows and no others, each row goes
/// to a side, and the sides that have rows come behind the clusters that are left.
pub open spec fn is_split_in_two(
    all: Splitting,
    left: Seq<ClusterModel>,
    cluster: ClusterModel,
    after: SplitModel,
    rows: Seq<u32>,
    centroids: Seq<u32>,
    sides: Seq<usize>,
    objective: u32,
) -> bool {
    let lower = cluster_split::side(cluster, centroids, all.d as nat, sides, 0);
    let upper = cluster_split::side(cluster, centroids, all.d as nat, sides, 1);
    &&& is_trained_and_assigned(
        Clustering {
            math: all.math,
            data: rows,
            n: cluster.indices.len() as usize,
            d: all.d,
            k: 2,
            balanced: false,
        },
        part_config(10, (all.config.seed + after.finalized.len()) as u64),
        centroids,
        sides,
        objective,
    )
    &&& clustering_law::holds_rows(rows, all.data, all.d as nat, cluster.indices)
    &&& after.heap == left + (if lower.indices.len() > 0 {
        seq![lower]
    } else {
        Seq::empty()
    }) + (if upper.indices.len() > 0 {
        seq![upper]
    } else {
        Seq::empty()
    })
}

/// A split takes one of the largest clusters and puts two in its place, which are trained on its
/// rows.
pub proof fn splits_are_trained_on_their_rows(all: Splitting, before: SplitModel, after: SplitModel)
    requires
        before.splitting is None,
        all.splits(before, after),
        all.data.len() >= all.n * all.d,
        forall|i: int, j: int|
            0 <= i < before.heap.len() && 0 <= j < before.heap[i].indices.len()
                ==> #[trigger] before.heap[i].indices[j] < all.n,
    ensures
        after.finalized == before.finalized,
        exists|
            at: int,
            rows: Seq<u32>,
            centroids: Seq<u32>,
            sides: Seq<usize>,
            objective: u32,
        |
            {
                &&& 0 <= at < before.heap.len()
                &&& #[trigger] is_split_in_two(
                    all,
                    before.heap.remove(at),
                    before.heap[at],
                    after,
                    rows,
                    centroids,
                    sides,
                    objective,
                )
                &&& forall|i: int|
                    0 <= i < before.heap.len() ==> (#[trigger] before.heap[i]).indices.len()
                        <= before.heap[at].indices.len()
            },
{
    the_largest_cluster_is_split(before, all.target_k as int);
    let next = cluster_split::advanced(before, all.target_k as int);
    let cluster = next.splitting->0;
    let at = choose|at: int|
        0 <= at < before.heap.len() && cluster == #[trigger] before.heap[at] && next.heap
            == before.heap.remove(at);
    let n = cluster.indices.len() as usize;
    let rows = all.rows_in(cluster);
    let part = Clustering { math: all.math, data: rows, n, d: all.d, k: 2, balanced: false };
    let (centroids, sides, objective) = choose|
        centroids: Seq<u32>,
        sides: Seq<usize>,
        objective: u32,
    |
        {
            &&& training::trained(
                all.math,
                hierarchical::split_config((all.config.seed + next.finalized.len()) as u64),
                part.data,
                n,
                all.d,
                2,
                None,
                centroids,
            )
            &&& #[trigger] part.assigned(
                centroids,
                cluster_assign::zeros(n as nat),
                sides,
                objective,
            )
            &&& after.heap == cluster_split::with_cluster(
                cluster_split::with_cluster(
                    next.heap,
                    cluster_split::side(cluster, centroids, all.d as nat, sides, 0),
                ),
                cluster_split::side(cluster, centroids, all.d as nat, sides, 1),
            )
        };
    assert(cluster_assign::zeros(n as nat) =~= Seq::new(n as nat, |i: int| 0usize));
    assert forall|j: int| 0 <= j < cluster.indices.len() implies #[trigger] cluster.indices[j]
        < all.n by {
        assert(before.heap[at].indices[j] < all.n);
    }
    clustering_law::gathered_rows_are_kept(all.data, all.d as nat, cluster.indices, all.n as nat);
    let lower = cluster_split::side(cluster, centroids, all.d as nat, sides, 0);
    let upper = cluster_split::side(cluster, centroids, all.d as nat, sides, 1);
    assert(after.heap =~= before.heap.remove(at) + (if lower.indices.len() > 0 {
        seq![lower]
    } else {
        Seq::empty()
    }) + (if upper.indices.len() > 0 {
        seq![upper]
    } else {
        Seq::empty()
    }));
    assert(is_split_in_two(
        all,
        before.heap.remove(at),
        before.heap[at],
        after,
        rows,
        centroids,
        sides,
        objective,
    ));
}

/// The centroids of the lists of an index are trained on the first `n` vectors, in the form in which
/// they are compared: by splitting where more than 256 are wanted, and fewer than vectors, and
/// otherwise all at once, in 25 rounds at most.
pub proof fn lists_are_trained_on_the_first_vectors<P: Fn(&Vec<u32>) -> Vec<u32>>(
    math: Arithmetic,
    prepare: P,
    data: Seq<u32>,
    n: usize,
    d: usize,
    nlist: usize,
    max_splits: usize,
    found: Option<Seq<u32>>,
    first: &Vec<u32>,
    prepared: Vec<u32>,
)
    requires
        index_train::is_preparer(prepare),
        first@ == data.subrange(0, n * d),
        call_ensures(prepare, (first,), prepared),
        index_train::lists_trained(math, prepare, data, n, d, nlist, max_splits, found),
    ensures
        nlist > 256 && n > nlist ==> hierarchical::trained_by_splitting(
            math,
            part_config(25, 1234),
            prepared@,
            n,
            d,
            nlist,
            max_splits,
            found,
        ),
        nlist <= 256 || n <= nlist ==> found is Some && training::trained(
            math,
            part_config(25, 1234),
            prepared@,
            n,
            d,
            nlist,
            None,
            found->0,
        ),
{
    assert(first@ =~= index_train::first_rows(data, n, d));
}

} // verus!
