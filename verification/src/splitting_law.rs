//! Training by splitting is determined by its arguments and by what is drawn at random.
use crate::cluster_assign;
use crate::cluster_assign::Clustering;
use crate::cluster_split;
use crate::cluster_split::SplitModel;
use crate::hierarchical;
use crate::hierarchical::Splitting;
use crate::ivf_lists;
use crate::kmeans;
use crate::kmeans::KMeansConfig;
use crate::random;
use crate::training;
use crate::training_law;
use crate::training_law::Draws;
use crate::vector_math::Arithmetic;
use vstd::prelude::*;

verus! {

/// What is drawn in a training of many centroids: the picks for a sample of the rows, what the
/// clusters to begin with draw, and what each split draws. Without splits only the second counts.
pub struct SplitDraws {
    pub picks: Seq<usize>,
    pub initial: Draws,
    pub splits: Seq<Draws>,
}

impl Splitting {
    /// The clusters to begin with, with these draws.
    pub open spec fn begins_by(self, state: SplitModel, draws: Draws) -> bool {
        let k = hierarchical::initial_count(self.target_k);
        let all = Clustering {
            math: self.math,
            data: self.data,
            n: self.n,
            d: self.d,
            k,
            balanced: false,
        };
        exists|centroids: Seq<u32>, assignments: Seq<usize>, objective: u32|
            {
                &&& training_law::trained_by(
                    self.math,
                    hierarchical::initial_config(self.config),
                    self.data,
                    self.n,
                    self.d,
                    k,
                    None,
                    draws,
                    centroids,
                )
                &&& #[trigger] all.assigned(
                    centroids,
                    cluster_assign::zeros(self.n as nat),
                    assignments,
                    objective,
                )
                &&& state.heap == cluster_split::initial_heap(
                    centroids,
                    self.d as nat,
                    assignments,
                    k as nat,
                )
                &&& state.finalized.len() == 0
                &&& state.splitting is None
            }
    }

    /// The next cluster is found and split, with these draws.
    pub open spec fn splits_by(self, before: SplitModel, after: SplitModel, draws: Draws) -> bool {
        let next = cluster_split::advanced(before, self.target_k as int);
        let cluster = next.splitting->0;
        let n = cluster.indices.len() as usize;
        let part = Clustering {
            math: self.math,
            data: self.rows_in(cluster),
            n,
            d: self.d,
            k: 2,
            balanced: false,
        };
        &&& next.splitting is Some
        &&& exists|centroids: Seq<u32>, sides: Seq<usize>, objective: u32|
            {
                &&& training_law::trained_by(
                    self.math,
                    hierarchical::split_config((self.config.seed + next.finalized.len()) as u64),
                    part.data,
                    n,
                    self.d,
                    2,
                    None,
                    draws,
                    centroids,
                )
                &&& #[trigger] part.assigned(
                    centroids,
                    cluster_assign::zeros(n as nat),
                    sides,
                    objective,
                )
                &&& after.heap == cluster_split::with_cluster(
                    cluster_split::with_cluster(
                        next.heap,
                        cluster_split::side(cluster, centroids, self.d as nat, sides, 0),
                    ),
                    cluster_split::side(cluster, centroids, self.d as nat, sides, 1),
                )
                &&& after.finalized == next.finalized
                &&& after.splitting is None
            }
    }

    /// The clusters to begin with, and those after each split, with these draws.
    pub open spec fn are_states_by(self, states: Seq<SplitModel>, draws: SplitDraws) -> bool {
        &&& states.len() >= 1
        &&& states.len() <= draws.splits.len() + 1
        &&& self.begins_by(states[0], draws.initial)
        &&& forall|i: int|
            0 <= i < states.len() - 1 ==> self.splits_by(
                #[trigger] states[i],
                states[i + 1],
                draws.splits[i],
            )
    }

    /// What comes of no more than `max_splits` splits with these draws.
    pub open spec fn leads_to_by(
        self,
        states: Seq<SplitModel>,
        max_splits: usize,
        draws: SplitDraws,
        centroids: Option<Seq<u32>>,
    ) -> bool {
        &&& self.are_states_by(states, draws)
        &&& states.len() <= max_splits + 1
        &&& match centroids {
            Some(values) => self.ends_with(states, values),
            None => states.len() == max_splits + 1 && cluster_split::advanced(
                states.last(),
                self.target_k as int,
            ).splitting is Some,
        }
    }
}

/// The outcome of training by splitting with these draws.
pub open spec fn trained_by_splitting_by(
    math: Arithmetic,
    config: KMeansConfig,
    data: Seq<u32>,
    n: usize,
    d: usize,
    target_k: usize,
    max_splits: usize,
    draws: SplitDraws,
    centroids: Option<Seq<u32>>,
) -> bool {
    let all = hierarchical::splitting_of(
        math,
        config,
        training_law::training_rows_by(config, data, n, d, target_k, draws.picks),
        n,
        d,
        target_k,
    );
    &&& training_law::are_sample_picks(config, n, target_k, draws.picks)
    &&& exists|states: Seq<SplitModel>| #[trigger]
        all.leads_to_by(states, max_splits, draws, centroids)
}

/// The outcome of training `k` centroids with these draws, by splitting or all at once.
pub open spec fn trained_either_way_by(
    math: Arithmetic,
    config: KMeansConfig,
    data: Seq<u32>,
    n: usize,
    d: usize,
    k: usize,
    max_splits: usize,
    draws: SplitDraws,
    centroids: Option<Seq<u32>>,
) -> bool {
    if k > kmeans::HIERARCHICAL_THRESHOLD && n > k {
        trained_by_splitting_by(math, config, data, n, d, k, max_splits, draws, centroids)
    } else {
        centroids matches Some(values) && training_law::trained_by(
            math,
            config,
            data,
            n,
            d,
            k,
            None,
            draws.initial,
            values,
        )
    }
}

proof fn lemma_begin_unique(all: Splitting, draws: Draws, state: SplitModel, other: SplitModel)
    requires
        all.target_k >= 1,
        all.begins_by(state, draws),
        all.begins_by(other, draws),
    ensures
        state == other,
{
    let k = hierarchical::initial_count(all.target_k);
    let rows = Clustering {
        math: all.math,
        data: all.data,
        n: all.n,
        d: all.d,
        k,
        balanced: false,
    };
    let config = hierarchical::initial_config(all.config);
    let zeros = cluster_assign::zeros(all.n as nat);
    let (c1, a1, o1) = choose|centroids: Seq<u32>, assignments: Seq<usize>, objective: u32|
        {
            &&& training_law::trained_by(
                all.math,
                config,
                all.data,
                all.n,
                all.d,
                k,
                None,
                draws,
                centroids,
            )
            &&& #[trigger] rows.assigned(centroids, zeros, assignments, objective)
            &&& state.heap == cluster_split::initial_heap(
                centroids,
                all.d as nat,
                assignments,
                k as nat,
            )
        };
    let (c2, a2, o2) = choose|centroids: Seq<u32>, assignments: Seq<usize>, objective: u32|
        {
            &&& training_law::trained_by(
                all.math,
                config,
                all.data,
                all.n,
                all.d,
                k,
                None,
                draws,
                centroids,
            )
            &&& #[trigger] rows.assigned(centroids, zeros, assignments, objective)
            &&& other.heap == cluster_split::initial_heap(
                centroids,
                all.d as nat,
                assignments,
                k as nat,
            )
        };
    training_law::training_is_determined_by_its_draws(
        all.math,
        config,
        all.data,
        all.n,
        all.d,
        k,
        None,
        draws,
        c1,
        c2,
    );
    training_law::lemma_can_assign(rows);
    cluster_assign::assignment_is_determined(rows, c1, zeros, a1, o1, a2, o2);
    assert(state.finalized =~= other.finalized);
    assert(state =~= other);
}

proof fn lemma_split_unique(
    all: Splitting,
    draws: Draws,
    before: SplitModel,
    after: SplitModel,
    other: SplitModel,
)
    requires
        all.splits_by(before, after, draws),
        all.splits_by(before, other, draws),
    ensures
        after == other,
{
    let next = cluster_split::advanced(before, all.target_k as int);
    let cluster = next.splitting->0;
    let n = cluster.indices.len() as usize;
    let part = Clustering {
        math: all.math,
        data: all.rows_in(cluster),
        n,
        d: all.d,
        k: 2,
        balanced: false,
    };
    let config = hierarchical::split_config((all.config.seed + next.finalized.len()) as u64);
    let zeros = cluster_assign::zeros(n as nat);
    let (c1, s1, o1) = choose|centroids: Seq<u32>, sides: Seq<usize>, objective: u32|
        {
            &&& training_law::trained_by(
                all.math,
                config,
                part.data,
                n,
                all.d,
                2,
                None,
                draws,
                centroids,
            )
            &&& #[trigger] part.assigned(centroids, zeros, sides, objective)
            &&& after.heap == cluster_split::with_cluster(
                cluster_split::with_cluster(
                    next.heap,
                    cluster_split::side(cluster, centroids, all.d as nat, sides, 0),
                ),
                cluster_split::side(cluster, centroids, all.d as nat, sides, 1),
            )
        };
    let (c2, s2, o2) = choose|centroids: Seq<u32>, sides: Seq<usize>, objective: u32|
        {
            &&& training_law::trained_by(
                all.math,
                config,
                part.data,
                n,
                all.d,
                2,
                None,
                draws,
                centroids,
            )
            &&& #[trigger] part.assigned(centroids, zeros, sides, objective)
            &&& other.heap == cluster_split::with_cluster(
                cluster_split::with_cluster(
                    next.heap,
                    cluster_split::side(cluster, centroids, all.d as nat, sides, 0),
                ),
                cluster_split::side(cluster, centroids, all.d as nat, sides, 1),
            )
        };
    training_law::training_is_determined_by_its_draws(
        all.math,
        config,
        part.data,
        n,
        all.d,
        2,
        None,
        draws,
        c1,
        c2,
    );
    training_law::lemma_can_assign(part);
    cluster_assign::assignment_is_determined(part, c1, zeros, s1, o1, s2, o2);
    assert(after =~= other);
}

/// The first `i` states of two splittings with the same draws are the same.
proof fn lemma_states_agree(
    all: Splitting,
    draws: SplitDraws,
    states: Seq<SplitModel>,
    others: Seq<SplitModel>,
    i: int,
)
    requires
        all.target_k >= 1,
        all.are_states_by(states, draws),
        all.are_states_by(others, draws),
        0 <= i < states.len(),
        i < others.len(),
    ensures
        states[i] == others[i],
    decreases i,
{
    if i == 0 {
        lemma_begin_unique(all, draws.initial, states[0], others[0]);
    } else {
        lemma_states_agree(all, draws, states, others, i - 1);
        assert(all.splits_by(states[i - 1], states[i - 1 + 1], draws.splits[i - 1]));
        assert(all.splits_by(others[i - 1], others[i - 1 + 1], draws.splits[i - 1]));
        lemma_split_unique(all, draws.splits[i - 1], states[i - 1], states[i], others[i]);
    }
}

/// What is left to be split is split: of two splittings with the same draws none is shorter.
proof fn lemma_not_shorter(
    all: Splitting,
    max_splits: usize,
    draws: SplitDraws,
    states: Seq<SplitModel>,
    centroids: Option<Seq<u32>>,
    others: Seq<SplitModel>,
    other: Option<Seq<u32>>,
)
    requires
        all.target_k >= 1,
        all.leads_to_by(states, max_splits, draws, centroids),
        all.leads_to_by(others, max_splits, draws, other),
    ensures
        states.len() >= others.len(),
{
    let last = states.len() - 1;
    if last + 1 < others.len() {
        lemma_states_agree(all, draws, states, others, last);
        assert(all.splits_by(others[last], others[last + 1], draws.splits[last]));
    }
}

/// Training many centroids by splitting is determined by its arguments and by what is drawn.
pub proof fn splitting_is_determined_by_its_draws(
    math: Arithmetic,
    config: KMeansConfig,
    data: Seq<u32>,
    n: usize,
    d: usize,
    target_k: usize,
    max_splits: usize,
    draws: SplitDraws,
    centroids: Option<Seq<u32>>,
    other: Option<Seq<u32>>,
)
    requires
        target_k >= 1,
        trained_by_splitting_by(
            math,
            config,
            data,
            n,
            d,
            target_k,
            max_splits,
            draws,
            centroids,
        ),
        trained_by_splitting_by(math, config, data, n, d, target_k, max_splits, draws, other),
    ensures
        centroids == other,
{
    let all = hierarchical::splitting_of(
        math,
        config,
        training_law::training_rows_by(config, data, n, d, target_k, draws.picks),
        n,
        d,
        target_k,
    );
    let states = choose|states: Seq<SplitModel>| #[trigger]
        all.leads_to_by(states, max_splits, draws, centroids);
    let others = choose|states: Seq<SplitModel>| #[trigger]
        all.leads_to_by(states, max_splits, draws, other);
    lemma_not_shorter(all, max_splits, draws, states, centroids, others, other);
    lemma_not_shorter(all, max_splits, draws, others, other, states, centroids);
    lemma_states_agree(all, draws, states, others, states.len() - 1);
}

/// Two trainings with the same arguments and the same draws come to the same, however many
/// centroids they train.
pub proof fn equal_draws_give_equal_centroids(
    math: Arithmetic,
    config: KMeansConfig,
    data: Seq<u32>,
    n: usize,
    d: usize,
    k: usize,
    max_splits: usize,
    draws: SplitDraws,
    centroids: Option<Seq<u32>>,
    other: Option<Seq<u32>>,
)
    requires
        trained_either_way_by(math, config, data, n, d, k, max_splits, draws, centroids),
        trained_either_way_by(math, config, data, n, d, k, max_splits, draws, other),
    ensures
        centroids == other,
{
    if k > kmeans::HIERARCHICAL_THRESHOLD && n > k {
        splitting_is_determined_by_its_draws(
            math,
            config,
            data,
            n,
            d,
            k,
            max_splits,
            draws,
            centroids,
            other,
        );
    } else {
        training_law::training_is_determined_by_its_draws(
            math,
            config,
            data,
            n,
            d,
            k,
            None,
            draws.initial,
            centroids->0,
            other->0,
        );
    }
}

/// The draws with which a splitting begins.
spec fn initial_draws(all: Splitting, state: SplitModel) -> Draws {
    choose|draws: Draws| #[trigger] all.begins_by(state, draws)
}

/// The draws with which a cluster is split.
spec fn split_draws(all: Splitting, before: SplitModel, after: SplitModel) -> Draws {
    choose|draws: Draws| #[trigger] all.splits_by(before, after, draws)
}

proof fn lemma_begin_has_draws(all: Splitting, state: SplitModel)
    requires
        all.begins(state),
    ensures
        all.begins_by(state, initial_draws(all, state)),
{
    let k = hierarchical::initial_count(all.target_k);
    let rows = Clustering {
        math: all.math,
        data: all.data,
        n: all.n,
        d: all.d,
        k,
        balanced: false,
    };
    let config = hierarchical::initial_config(all.config);
    let zeros = cluster_assign::zeros(all.n as nat);
    let (c, a, o) = choose|centroids: Seq<u32>, assignments: Seq<usize>, objective: u32|
        {
            &&& training::trained(
                all.math,
                config,
                all.data,
                all.n,
                all.d,
                k,
                None,
                centroids,
            )
            &&& #[trigger] rows.assigned(centroids, zeros, assignments, objective)
            &&& state.heap == cluster_split::initial_heap(
                centroids,
                all.d as nat,
                assignments,
                k as nat,
            )
        };
    training_law::every_training_has_its_draws(
        all.math,
        config,
        all.data,
        all.n,
        all.d,
        k,
        None,
        c,
    );
    let draws = choose|draws: Draws| #[trigger]
        training_law::trained_by(
            all.math,
            config,
            all.data,
            all.n,
            all.d,
            k,
            None,
            draws,
            c,
        );
    assert(rows.assigned(c, zeros, a, o));
    assert(all.begins_by(state, draws));
}

proof fn lemma_split_has_draws(all: Splitting, before: SplitModel, after: SplitModel)
    requires
        all.splits(before, after),
    ensures
        all.splits_by(before, after, split_draws(all, before, after)),
{
    let next = cluster_split::advanced(before, all.target_k as int);
    let cluster = next.splitting->0;
    let n = cluster.indices.len() as usize;
    let part = Clustering {
        math: all.math,
        data: all.rows_in(cluster),
        n,
        d: all.d,
        k: 2,
        balanced: false,
    };
    let config = hierarchical::split_config((all.config.seed + next.finalized.len()) as u64);
    let zeros = cluster_assign::zeros(n as nat);
    let (c, s, o) = choose|centroids: Seq<u32>, sides: Seq<usize>, objective: u32|
        {
            &&& training::trained(all.math, config, part.data, n, all.d, 2, None, centroids)
            &&& #[trigger] part.assigned(centroids, zeros, sides, objective)
            &&& after.heap == cluster_split::with_cluster(
                cluster_split::with_cluster(
                    next.heap,
                    cluster_split::side(cluster, centroids, all.d as nat, sides, 0),
                ),
                cluster_split::side(cluster, centroids, all.d as nat, sides, 1),
            )
        };
    training_law::every_training_has_its_draws(
        all.math,
        config,
        part.data,
        n,
        all.d,
        2,
        None,
        c,
    );
    let draws = choose|draws: Draws| #[trigger]
        training_law::trained_by(all.math, config, part.data, n, all.d, 2, None, draws, c);
    assert(part.assigned(c, zeros, s, o));
    assert(all.splits_by(before, after, draws));
}

/// Whatever is trained is trained with some draws, however many centroids there are.
pub proof fn every_outcome_has_its_draws(
    math: Arithmetic,
    config: KMeansConfig,
    data: Seq<u32>,
    n: usize,
    d: usize,
    k: usize,
    max_splits: usize,
    centroids: Option<Seq<u32>>,
)
    requires
        hierarchical::trained_either_way(math, config, data, n, d, k, max_splits, centroids),
    ensures
        exists|draws: SplitDraws| #[trigger]
            trained_either_way_by(math, config, data, n, d, k, max_splits, draws, centroids),
{
    if k > kmeans::HIERARCHICAL_THRESHOLD && n > k {
        let (rows, states) = choose|rows: Seq<u32>, states: Seq<SplitModel>| #[trigger]
            training::are_training_rows(config, data, n, d, k, rows)
                && #[trigger] hierarchical::splitting_of(
                math,
                config,
                rows,
                n,
                d,
                k,
            ).leads_to(states, max_splits, centroids);
        let all = hierarchical::splitting_of(math, config, rows, n, d, k);
        let picks = choose|picks: Seq<usize>|
            picks.len() == training::training_count(n, k, config) && #[trigger] random::are_picks(
                picks,
                n as nat,
            ) && rows == ivf_lists::gathered(data, d as nat, random::sampled(n as nat, picks));
        assert(training_law::training_rows_by(config, data, n, d, k, picks) == rows);
        let draws = SplitDraws {
            picks,
            initial: initial_draws(all, states[0]),
            splits: Seq::new(
                (states.len() - 1) as nat,
                |i: int| split_draws(all, states[i], states[i + 1]),
            ),
        };
        lemma_begin_has_draws(all, states[0]);
        assert forall|i: int| 0 <= i < states.len() - 1 implies all.splits_by(
            #[trigger] states[i],
            states[i + 1],
            draws.splits[i],
        ) by {
            lemma_split_has_draws(all, states[i], states[i + 1]);
        }
        assert(all.leads_to_by(states, max_splits, draws, centroids));
        assert(trained_either_way_by(math, config, data, n, d, k, max_splits, draws, centroids));
    } else {
        training_law::every_training_has_its_draws(math, config, data, n, d, k, None, centroids->0);
        let initial = choose|draws: Draws| #[trigger]
            training_law::trained_by(math, config, data, n, d, k, None, draws, centroids->0);
        let draws = SplitDraws { picks: Seq::empty(), initial, splits: Seq::empty() };
        assert(trained_either_way_by(math, config, data, n, d, k, max_splits, draws, centroids));
    }
}

} // verus!
