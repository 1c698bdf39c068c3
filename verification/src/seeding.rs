//! Choosing rows to begin with as centroids, each one far from those before.
use crate::cluster_assign;
use crate::cluster_assign::Clustering;
use crate::float_bits;
use crate::ivf_lists;
use crate::random;
use crate::vector_math::VectorMath;
use vstd::prelude::*;

verus! {

/// The smaller one of two distances; the first where the second is not smaller.
pub open spec fn closer(before: u32, dist: u32) -> u32 {
    if float_bits::lt(dist, before) {
        dist
    } else {
        before
    }
}

impl Clustering {
    pub open spec fn data_row(self, i: int) -> Seq<u32> {
        ivf_lists::row(self.data, self.d as nat, i)
    }

    /// The distance of each row to the closest of some rows.
    pub open spec fn closest(self, seeds: Seq<usize>) -> Seq<u32>
        decreases seeds.len(),
    {
        if seeds.len() == 0 {
            Seq::new(self.n as nat, |i: int| float_bits::MAX_BITS)
        } else {
            let before = self.closest(seeds.drop_last());
            Seq::new(
                self.n as nat,
                |i: int|
                    closer(
                        before[i],
                        (self.math.gap)(self.data_row(i), self.data_row(seeds.last() as int)),
                    ),
            )
        }
    }

    /// The distances up to that of row `i` add up to `target` or more.
    pub open spec fn reached(self, dists: Seq<u32>, target: u32, i: int) -> bool {
        let sum = cluster_assign::sum_of(self.math, dists.subrange(0, i + 1));
        float_bits::lt(target, sum) || float_bits::eq(target, sum)
    }

    /// The first row at which the distances have added up to `target`, and the last row where they
    /// never do.
    pub open spec fn is_reached_at(self, dists: Seq<u32>, target: u32, at: int) -> bool {
        &&& 0 <= at < self.n
        &&& forall|i: int| 0 <= i < at ==> !#[trigger] self.reached(dists, target, i)
        &&& self.reached(dists, target, at) || at == self.n - 1
    }

    /// Seed `c` is the row that the `c`-th random word leads to.
    pub open spec fn seed_follows(self, seeds: Seq<usize>, words: Seq<u32>, c: int) -> bool {
        let dists = self.closest(seeds.subrange(0, c));
        self.is_reached_at(
            dists,
            (self.math.target)(words[c], cluster_assign::sum_of(self.math, dists)),
            seeds[c] as int,
        )
    }

    /// A row for each cluster: any row, and from then on those that the random words lead to.
    pub open spec fn are_seeds(self, seeds: Seq<usize>, words: Seq<u32>) -> bool {
        &&& seeds.len() == self.k
        &&& words.len() == self.k
        &&& seeds[0] < self.n
        &&& forall|c: int| 1 <= c < self.k ==> #[trigger] self.seed_follows(seeds, words, c)
    }

    /// Centroids to begin with, whatever the random words are.
    pub open spec fn seeded(self, centroids: Seq<u32>) -> bool {
        exists|seeds: Seq<usize>, words: Seq<u32>| #[trigger]
            self.are_seeds(seeds, words) && centroids == ivf_lists::gathered(
                self.data,
                self.d as nat,
                seeds,
            )
    }
}

/// Takes in one more seed: each row keeps the smaller distance. The sum of the distances comes back.
fn come_closer<V: VectorMath>(
    data: &Vec<u32>,
    n: usize,
    d: usize,
    k: usize,
    dists: &mut Vec<u32>,
    seed: usize,
    math: &V,
    Ghost(seeds): Ghost<Seq<usize>>,
) -> (r: u32)
    requires
        math.sound(),
        data@.len() >= n * d,
        seed < n,
        ({
            let all = Clustering { math: math.arithmetic(), data: data@, n, d, k, balanced: false };
            old(dists)@ == all.closest(seeds)
        }),
    ensures
        ({
            let all = Clustering { math: math.arithmetic(), data: data@, n, d, k, balanced: false };
            &&& final(dists)@ == all.closest(seeds.push(seed))
            &&& r == cluster_assign::sum_of(math.arithmetic(), final(dists)@)
        }),
{
    let ghost all = Clustering { math: math.arithmetic(), data: data@, n, d, k, balanced: false };
    let ghost first = dists@;
    let ghost now = all.closest(seeds.push(seed));
    proof {
        assert(seeds.push(seed).drop_last() =~= seeds);
        ivf_lists::lemma_row_bounds(n as nat, d as nat, seed as int);
        assert(data@.len() == data.len());
    }
    let chosen: Vec<u32> = cluster_assign::copied(data, seed * d, seed * d + d);
    let mut total: u32 = 0;
    assert(now.subrange(0, 0) =~= Seq::<u32>::empty());
    for i in 0..n
        invariant
            math.sound(),
            all == (Clustering { math: math.arithmetic(), data: data@, n, d, k, balanced: false }),
            data@.len() >= n * d,
            data@.len() <= usize::MAX,
            seed < n,
            chosen@ == all.data_row(seed as int),
            chosen@.len() == d,
            first == all.closest(seeds),
            first.len() == n,
            now.len() == n,
            now == all.closest(seeds.push(seed)),
            seeds.push(seed).drop_last() == seeds,
            dists@.len() == n,
            forall|j: int| 0 <= j < i ==> #[trigger] dists@[j] == now[j],
            forall|j: int| i <= j < n ==> #[trigger] dists@[j] == first[j],
            total == cluster_assign::sum_of(math.arithmetic(), now.subrange(0, i as int)),
    {
        proof {
            ivf_lists::lemma_row_bounds(n as nat, d as nat, i as int);
        }
        let row: Vec<u32> = cluster_assign::copied(data, i * d, i * d + d);
        let dist: u32 = math.gap(&row, &chosen);
        assert(dists@[i as int] == first[i as int]);
        assert(now[i as int] == closer(first[i as int], dist));
        if float_bits::less_than(dist, dists[i]) {
            dists.set(i, dist);
        }
        total = math.sum(total, dists[i]);
        assert(now.subrange(0, i + 1).drop_last() =~= now.subrange(0, i as int));
    }
    assert(now.subrange(0, n as int) =~= now);
    assert(dists@ =~= now);
    total
}

/// Finds the first row at which the distances have added up to `target`.
fn find_reached<V: VectorMath>(
    dists: &Vec<u32>,
    target: u32,
    math: &V,
    Ghost(all): Ghost<Clustering>,
) -> (r: usize)
    requires
        math.sound(),
        all.math == math.arithmetic(),
        all.n >= 1,
        dists@.len() == all.n,
    ensures
        all.is_reached_at(dists@, target, r as int),
{
    let mut sum: u32 = 0;
    assert(dists@.subrange(0, 0) =~= Seq::<u32>::empty());
    for i in 0..dists.len()
        invariant
            math.sound(),
            all.math == math.arithmetic(),
            dists@.len() == all.n,
            sum == cluster_assign::sum_of(math.arithmetic(), dists@.subrange(0, i as int)),
            forall|j: int| 0 <= j < i ==> !#[trigger] all.reached(dists@, target, j),
    {
        sum = math.sum(sum, dists[i]);
        assert(dists@.subrange(0, i + 1).drop_last() =~= dists@.subrange(0, i as int));
        if float_bits::less_than(target, sum) || float_bits::equal(target, sum) {
            assert(all.reached(dists@, target, i as int));
            return i;
        }
    }
    dists.len() - 1
}

/// Chooses rows as centroids to begin with: the first one at random, each of the others with a
/// chance that grows with its distance to those before.
pub fn kmeans_plusplus_init<V: VectorMath>(
    data: &Vec<u32>,
    n: usize,
    d: usize,
    k: usize,
    rng: &mut rand::rngs::StdRng,
    math: &V,
) -> (r: Vec<u32>)
    requires
        math.sound(),
        data@.len() >= n * d,
        n >= 1,
        k >= 1,
    ensures
        (Clustering { math: math.arithmetic(), data: data@, n, d, k, balanced: false }).seeded(r@),
        r@.len() == k * d,
{
    let ghost all = Clustering { math: math.arithmetic(), data: data@, n, d, k, balanced: false };
    let first: usize = random::draw(rng, 0, n);
    let mut seeds: Vec<usize> = Vec::new();
    seeds.push(first);
    let ghost mut words: Seq<u32> = seq![0u32];
    let mut dists: Vec<u32> = Vec::new();
    for i in 0..n
        invariant
            dists@ =~= Seq::new(i as nat, |j: int| float_bits::MAX_BITS),
    {
        dists.push(float_bits::MAX_BITS);
    }
    assert(dists@ =~= all.closest(seeds@.subrange(0, 0)));
    for c in 1..k
        invariant
            math.sound(),
            all == (Clustering { math: math.arithmetic(), data: data@, n, d, k, balanced: false }),
            data@.len() >= n * d,
            n >= 1,
            seeds@.len() == c,
            words.len() == c,
            forall|i: int| 0 <= i < c ==> #[trigger] seeds@[i] < n,
            dists@ == all.closest(seeds@.subrange(0, c - 1)),
            forall|i: int| 1 <= i < c ==> #[trigger] all.seed_follows(seeds@, words, i),
    {
        let last: usize = seeds[c - 1];
        let total: u32 = come_closer(
            data,
            n,
            d,
            k,
            &mut dists,
            last,
            math,
            Ghost(seeds@.subrange(0, c - 1)),
        );
        assert(seeds@.subrange(0, c - 1).push(last) =~= seeds@.subrange(0, c as int));
        let word: u32 = random::draw_word(rng);
        let target: u32 = math.target(word, total);
        assert(dists@.len() == n);
        let at: usize = find_reached(&dists, target, math, Ghost(all));
        let ghost before = seeds@;
        let ghost before_words = words;
        seeds.push(at);
        proof {
            words = words.push(word);
            assert(seeds@.subrange(0, c as int) =~= before.subrange(0, c as int));
            assert(all.seed_follows(seeds@, words, c as int));
            assert forall|i: int| 1 <= i < c + 1 implies #[trigger] all.seed_follows(
                seeds@,
                words,
                i,
            ) by {
                if i < c {
                    assert(seeds@.subrange(0, i) =~= before.subrange(0, i));
                    assert(all.seed_follows(before, before_words, i));
                }
            }
        }
    }
    proof {
        assert(all.are_seeds(seeds@, words));
        ivf_lists::lemma_gathered_len(data@, d as nat, seeds@, n as nat);
    }
    ivf_lists::gather(data, d, &seeds, n)
}

} // verus!
