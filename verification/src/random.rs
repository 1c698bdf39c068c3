//! Numbers drawn from the generator of the `rand` crate.
use rand::{Rng, SeedableRng};
use vstd::prelude::*;

verus! {

/// The generator of the `rand` crate.
#[verifier::external_type_specification]
#[verifier::external_body]
pub struct ExStdRng(rand::rngs::StdRng);

/// `StdRng::seed_from_u64`. The numbers that the generator will give follow from the seed, but its
/// documentation does not count them as reproducible: they change with the configuration and the
/// release of the crate. Which ones they are is left unsaid.
#[verifier::external_body]
pub(crate) fn seeded(seed: u64) -> (r: rand::rngs::StdRng) {
    rand::rngs::StdRng::seed_from_u64(seed)
}

/// `Rng::gen_range` on a half-open range, which panics on an empty one: a number of the range. Which
/// one, and what becomes of the generator, is left unsaid.
#[verifier::external_body]
pub(crate) fn draw(rng: &mut rand::rngs::StdRng, lo: usize, hi: usize) -> (r: usize)
    requires
        lo < hi,
    ensures
        lo <= r < hi,
{
    rng.gen_range(lo..hi)
}

/// `Rng::gen` for a word of 32 bits. Which one, and what becomes of the generator, is left unsaid.
#[verifier::external_body]
pub(crate) fn draw_word(rng: &mut rand::rngs::StdRng) -> (r: u32) {
    rng.gen()
}

/// The `i`-th pick is one of the places from the `i`-th on.
pub open spec fn are_picks(picks: Seq<usize>, n: nat) -> bool {
    picks.len() <= n && forall|i: int| 0 <= i < picks.len() ==> i <= #[trigger] picks[i] < n
}

/// The numbers below `n` after the picks: one after the other, the `i`-th place and the one picked
/// for it change places.
pub open spec fn shuffled(n: nat, picks: Seq<usize>) -> Seq<usize>
    decreases picks.len(),
{
    if picks.len() == 0 {
        Seq::new(n, |i: int| i as usize)
    } else {
        let before = shuffled(n, picks.drop_last());
        let i = picks.len() - 1;
        let j = picks.last() as int;
        before.update(i, before[j]).update(j, before[i])
    }
}

/// A sample without repetition: what stands on the first places after the picks.
pub open spec fn sampled(n: nat, picks: Seq<usize>) -> Seq<usize> {
    shuffled(n, picks).subrange(0, picks.len() as int)
}

proof fn lemma_shuffled(n: nat, picks: Seq<usize>)
    requires
        n <= usize::MAX,
        are_picks(picks, n),
    ensures
        shuffled(n, picks).len() == n,
        forall|i: int| 0 <= i < n ==> #[trigger] shuffled(n, picks)[i] < n,
        shuffled(n, picks).no_duplicates(),
    decreases picks.len(),
{
    if picks.len() > 0 {
        let front = picks.drop_last();
        assert forall|i: int| 0 <= i < front.len() implies i <= #[trigger] front[i] < n by {
            assert(front[i] == picks[i]);
        }
        lemma_shuffled(n, front);
        assert(picks[picks.len() - 1] < n);
        let before = shuffled(n, front);
        let at = picks.len() - 1;
        let with = picks.last() as int;
        let after = shuffled(n, picks);
        assert forall|x: int, y: int|
            0 <= x < after.len() && 0 <= y < after.len() && x != y implies after[x] != after[y] by {
            let px = if x == at {
                with
            } else if x == with {
                at
            } else {
                x
            };
            let py = if y == at {
                with
            } else if y == with {
                at
            } else {
                y
            };
            assert(after[x] == before[px]);
            assert(after[y] == before[py]);
            assert(px != py);
        }
    }
}

/// Whatever is picked, a sample names numbers below `n`, and none twice.
pub proof fn samples_do_not_repeat(n: nat, picks: Seq<usize>)
    requires
        n <= usize::MAX,
        are_picks(picks, n),
    ensures
        sampled(n, picks).len() == picks.len(),
        forall|i: int| 0 <= i < picks.len() ==> #[trigger] sampled(n, picks)[i] < n,
        sampled(n, picks).no_duplicates(),
{
    lemma_shuffled(n, picks);
}

/// The sample that the picks lead to.
pub fn sample_of(n: usize, picks: &Vec<usize>) -> (r: Vec<usize>)
    requires
        are_picks(picks@, n as nat),
    ensures
        r@ == sampled(n as nat, picks@),
{
    let mut places: Vec<usize> = Vec::new();
    for i in 0..n
        invariant
            places@ =~= Seq::new(i as nat, |k: int| k as usize),
    {
        places.push(i);
    }
    assert(picks@.subrange(0, 0) =~= Seq::<usize>::empty());
    for i in 0..picks.len()
        invariant
            are_picks(picks@, n as nat),
            places@ == shuffled(n as nat, picks@.subrange(0, i as int)),
            places@.len() == n,
    {
        let j: usize = picks[i];
        assert(i <= picks@[i as int] < n);
        proof {
            let t = picks@.subrange(0, i + 1);
            assert(t.drop_last() =~= picks@.subrange(0, i as int));
            assert(t.last() == j);
        }
        let at_i: usize = places[i];
        let at_j: usize = places[j];
        places.set(i, at_j);
        places.set(j, at_i);
    }
    assert(picks@.subrange(0, picks@.len() as int) =~= picks@);
    let mut r: Vec<usize> = Vec::new();
    for i in 0..picks.len()
        invariant
            places@ == shuffled(n as nat, picks@),
            places@.len() == n,
            picks@.len() <= n,
            r@ =~= places@.subrange(0, i as int),
    {
        r.push(places[i]);
    }
    r
}

/// Draws a pick for each of the first places.
pub fn draw_picks(n: usize, count: usize, rng: &mut rand::rngs::StdRng) -> (r: Vec<usize>)
    requires
        count <= n,
    ensures
        r@.len() == count,
        are_picks(r@, n as nat),
{
    let mut picks: Vec<usize> = Vec::new();
    for i in 0..count
        invariant
            count <= n,
            picks@.len() == i,
            forall|k: int| 0 <= k < i ==> k <= #[trigger] picks@[k] < n,
    {
        let pick: usize = draw(rng, i, n);
        picks.push(pick);
    }
    picks
}

} // verus!
