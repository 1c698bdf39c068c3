//! The arithmetic of clustering. It is made of functions on bit patterns of single precision that
//! the caller hands in; the clustering itself never adds or multiplies two values.
use crate::ivf_lists;
use vstd::prelude::*;

verus! {

/// What the functions of a [`VectorMath`] give.
pub struct Arithmetic {
    /// For each of so many rows its distances to so many centroids. The sizes of the clusters may
    /// count against the larger ones.
    pub distances: spec_fn(Seq<u32>, usize, usize, Seq<u32>, usize, Seq<usize>) -> Seq<Seq<u32>>,
    /// The distance between two vectors.
    pub gap: spec_fn(Seq<u32>, Seq<u32>) -> u32,
    /// The sum of two values.
    pub sum: spec_fn(u32, u32) -> u32,
    /// The mean of so many rows.
    pub mean: spec_fn(Seq<u32>, usize, usize) -> Seq<u32>,
    /// The mean of rows with weights.
    pub weighted_mean: spec_fn(Seq<u32>, Seq<usize>, usize) -> Seq<u32>,
    /// A vector moved a little to one side or to the other.
    pub nudged: spec_fn(Seq<u32>, bool) -> Seq<u32>,
    /// Whether a sum of distances has hardly changed.
    pub settled: spec_fn(u32, u32) -> bool,
    /// The part of a total that a random word stands for.
    pub target: spec_fn(u32, u32) -> u32,
}

/// The arithmetic on vectors that clustering needs.
pub trait VectorMath: Sized {
    spec fn arithmetic(&self) -> Arithmetic;

    /// The functions can be called with what clustering calls them with.
    spec fn sound(&self) -> bool;

    fn distances(
        &self,
        rows: &Vec<u32>,
        count: usize,
        d: usize,
        centroids: &Vec<u32>,
        k: usize,
        sizes: &Vec<usize>,
    ) -> (r: Vec<Vec<u32>>)
        requires
            self.sound(),
            rows@.len() == count * d,
            centroids@.len() == k * d,
            sizes@.len() == k,
        ensures
            ivf_lists::value_lists(r@) == (self.arithmetic().distances)(
                rows@,
                count,
                d,
                centroids@,
                k,
                sizes@,
            ),
            r@.len() == count,
            forall|i: int| 0 <= i < count ==> (#[trigger] r@[i])@.len() == k,
    ;

    fn gap(&self, a: &Vec<u32>, b: &Vec<u32>) -> (r: u32)
        requires
            self.sound(),
            a@.len() == b@.len(),
        ensures
            r == (self.arithmetic().gap)(a@, b@),
    ;

    fn sum(&self, a: u32, b: u32) -> (r: u32)
        requires
            self.sound(),
        ensures
            r == (self.arithmetic().sum)(a, b),
    ;

    fn mean(&self, rows: &Vec<u32>, count: usize, d: usize) -> (r: Vec<u32>)
        requires
            self.sound(),
            rows@.len() == count * d,
            count > 0,
        ensures
            r@ == (self.arithmetic().mean)(rows@, count, d),
            r@.len() == d,
    ;

    fn weighted_mean(&self, rows: &Vec<u32>, weights: &Vec<usize>, d: usize) -> (r: Vec<u32>)
        requires
            self.sound(),
            rows@.len() == weights@.len() * d,
        ensures
            r@ == (self.arithmetic().weighted_mean)(rows@, weights@, d),
            r@.len() == d,
    ;

    fn nudged(&self, vector: &Vec<u32>, away: bool) -> (r: Vec<u32>)
        requires
            self.sound(),
        ensures
            r@ == (self.arithmetic().nudged)(vector@, away),
            r@.len() == vector@.len(),
    ;

    fn settled(&self, before: u32, now: u32) -> (r: bool)
        requires
            self.sound(),
        ensures
            r == (self.arithmetic().settled)(before, now),
    ;

    fn target(&self, word: u32, total: u32) -> (r: u32)
        requires
            self.sound(),
        ensures
            r == (self.arithmetic().target)(word, total),
    ;
}

/// A [`VectorMath`] of functions.
pub struct Kernels<D, G, A, M, W, N, S, T> {
    pub distances: D,
    pub gap: G,
    pub sum: A,
    pub mean: M,
    pub weighted_mean: W,
    pub nudged: N,
    pub settled: S,
    pub target: T,
}

pub open spec fn distances_of<
    D: Fn(&Vec<u32>, usize, usize, &Vec<u32>, usize, &Vec<usize>) -> Vec<Vec<u32>>,
>(
    f: D,
    rows: Seq<u32>,
    count: usize,
    d: usize,
    centroids: Seq<u32>,
    k: usize,
    sizes: Seq<usize>,
) -> Seq<Seq<u32>> {
    let (_, _, _, found) = choose|x: &Vec<u32>, y: &Vec<u32>, z: &Vec<usize>, r: Vec<Vec<u32>>|
        x@ == rows && y@ == centroids && z@ == sizes && #[trigger] call_ensures(
            f,
            (x, count, d, y, k, z),
            r,
        );
    ivf_lists::value_lists(found@)
}

pub open spec fn distances_sound<
    D: Fn(&Vec<u32>, usize, usize, &Vec<u32>, usize, &Vec<usize>) -> Vec<Vec<u32>>,
>(f: D) -> bool {
    &&& forall|x: &Vec<u32>, count: usize, d: usize, y: &Vec<u32>, k: usize, z: &Vec<usize>|
        x@.len() == count * d && y@.len() == k * d && z@.len() == k ==> #[trigger] call_requires(
            f,
            (x, count, d, y, k, z),
        )
    &&& forall|
        x: &Vec<u32>,
        count: usize,
        d: usize,
        y: &Vec<u32>,
        k: usize,
        z: &Vec<usize>,
        r: Vec<Vec<u32>>,
    |
        x@.len() == count * d && y@.len() == k * d && z@.len() == k && #[trigger] call_ensures(
            f,
            (x, count, d, y, k, z),
            r,
        ) ==> {
            &&& ivf_lists::value_lists(r@) == distances_of(f, x@, count, d, y@, k, z@)
            &&& r@.len() == count
            &&& forall|i: int| 0 <= i < count ==> (#[trigger] r@[i])@.len() == k
        }
}

pub open spec fn gap_of<G: Fn(&Vec<u32>, &Vec<u32>) -> u32>(f: G, a: Seq<u32>, b: Seq<u32>) -> u32 {
    let (_, _, found) = choose|x: &Vec<u32>, y: &Vec<u32>, r: u32|
        x@ == a && y@ == b && #[trigger] call_ensures(f, (x, y), r);
    found
}

pub open spec fn gap_sound<G: Fn(&Vec<u32>, &Vec<u32>) -> u32>(f: G) -> bool {
    &&& forall|x: &Vec<u32>, y: &Vec<u32>|
        x@.len() == y@.len() ==> #[trigger] call_requires(f, (x, y))
    &&& forall|x: &Vec<u32>, y: &Vec<u32>, r: u32|
        x@.len() == y@.len() && #[trigger] call_ensures(f, (x, y), r) ==> r == gap_of(f, x@, y@)
}

/// What a function makes of two values.
pub open spec fn pair_of<A: Fn(u32, u32) -> u32>(f: A, a: u32, b: u32) -> u32 {
    choose|r: u32| call_ensures(f, (a, b), r)
}

pub open spec fn pair_sound<A: Fn(u32, u32) -> u32>(f: A) -> bool {
    &&& forall|a: u32, b: u32| #[trigger] call_requires(f, (a, b))
    &&& forall|a: u32, b: u32, r: u32| #[trigger]
        call_ensures(f, (a, b), r) ==> r == pair_of(f, a, b)
}

pub open spec fn mean_of<M: Fn(&Vec<u32>, usize, usize) -> Vec<u32>>(
    f: M,
    rows: Seq<u32>,
    count: usize,
    d: usize,
) -> Seq<u32> {
    let (_, found) = choose|x: &Vec<u32>, r: Vec<u32>|
        x@ == rows && #[trigger] call_ensures(f, (x, count, d), r);
    found@
}

pub open spec fn mean_sound<M: Fn(&Vec<u32>, usize, usize) -> Vec<u32>>(f: M) -> bool {
    &&& forall|x: &Vec<u32>, count: usize, d: usize|
        x@.len() == count * d && count > 0 ==> #[trigger] call_requires(f, (x, count, d))
    &&& forall|x: &Vec<u32>, count: usize, d: usize, r: Vec<u32>|
        x@.len() == count * d && count > 0 && #[trigger] call_ensures(f, (x, count, d), r) ==> r@
            == mean_of(f, x@, count, d) && r@.len() == d
}

pub open spec fn weighted_mean_of<W: Fn(&Vec<u32>, &Vec<usize>, usize) -> Vec<u32>>(
    f: W,
    rows: Seq<u32>,
    weights: Seq<usize>,
    d: usize,
) -> Seq<u32> {
    let (_, _, found) = choose|x: &Vec<u32>, y: &Vec<usize>, r: Vec<u32>|
        x@ == rows && y@ == weights && #[trigger] call_ensures(f, (x, y, d), r);
    found@
}

pub open spec fn weighted_mean_sound<W: Fn(&Vec<u32>, &Vec<usize>, usize) -> Vec<u32>>(
    f: W,
) -> bool {
    &&& forall|x: &Vec<u32>, y: &Vec<usize>, d: usize|
        x@.len() == y@.len() * d ==> #[trigger] call_requires(f, (x, y, d))
    &&& forall|x: &Vec<u32>, y: &Vec<usize>, d: usize, r: Vec<u32>|
        x@.len() == y@.len() * d && #[trigger] call_ensures(f, (x, y, d), r) ==> r@
            == weighted_mean_of(f, x@, y@, d) && r@.len() == d
}

pub open spec fn nudged_of<N: Fn(&Vec<u32>, bool) -> Vec<u32>>(f: N, vector: Seq<u32>, away: bool) -> Seq<
    u32,
> {
    let (_, found) = choose|x: &Vec<u32>, r: Vec<u32>|
        x@ == vector && #[trigger] call_ensures(f, (x, away), r);
    found@
}

pub open spec fn nudged_sound<N: Fn(&Vec<u32>, bool) -> Vec<u32>>(f: N) -> bool {
    &&& forall|x: &Vec<u32>, away: bool| #[trigger] call_requires(f, (x, away))
    &&& forall|x: &Vec<u32>, away: bool, r: Vec<u32>| #[trigger]
        call_ensures(f, (x, away), r) ==> r@ == nudged_of(f, x@, away) && r@.len() == x@.len()
}

pub open spec fn settled_of<S: Fn(u32, u32) -> bool>(f: S, before: u32, now: u32) -> bool {
    choose|r: bool| call_ensures(f, (before, now), r)
}

pub open spec fn settled_sound<S: Fn(u32, u32) -> bool>(f: S) -> bool {
    &&& forall|a: u32, b: u32| #[trigger] call_requires(f, (a, b))
    &&& forall|a: u32, b: u32, r: bool| #[trigger]
        call_ensures(f, (a, b), r) ==> r == settled_of(f, a, b)
}

impl<D, G, A, M, W, N, S, T> VectorMath for Kernels<D, G, A, M, W, N, S, T> where
    D: Fn(&Vec<u32>, usize, usize, &Vec<u32>, usize, &Vec<usize>) -> Vec<Vec<u32>>,
    G: Fn(&Vec<u32>, &Vec<u32>) -> u32,
    A: Fn(u32, u32) -> u32,
    M: Fn(&Vec<u32>, usize, usize) -> Vec<u32>,
    W: Fn(&Vec<u32>, &Vec<usize>, usize) -> Vec<u32>,
    N: Fn(&Vec<u32>, bool) -> Vec<u32>,
    S: Fn(u32, u32) -> bool,
    T: Fn(u32, u32) -> u32,
 {
    open spec fn arithmetic(&self) -> Arithmetic {
        Arithmetic {
            distances: |
                rows: Seq<u32>,
                count: usize,
                d: usize,
                centroids: Seq<u32>,
                k: usize,
                sizes: Seq<usize>,
            | distances_of(self.distances, rows, count, d, centroids, k, sizes),
            gap: |a: Seq<u32>, b: Seq<u32>| gap_of(self.gap, a, b),
            sum: |a: u32, b: u32| pair_of(self.sum, a, b),
            mean: |rows: Seq<u32>, count: usize, d: usize| mean_of(self.mean, rows, count, d),
            weighted_mean: |rows: Seq<u32>, weights: Seq<usize>, d: usize|
                weighted_mean_of(self.weighted_mean, rows, weights, d),
            nudged: |vector: Seq<u32>, away: bool| nudged_of(self.nudged, vector, away),
            settled: |before: u32, now: u32| settled_of(self.settled, before, now),
            target: |word: u32, total: u32| pair_of(self.target, word, total),
        }
    }

    open spec fn sound(&self) -> bool {
        &&& distances_sound(self.distances)
        &&& gap_sound(self.gap)
        &&& pair_sound(self.sum)
        &&& mean_sound(self.mean)
        &&& weighted_mean_sound(self.weighted_mean)
        &&& nudged_sound(self.nudged)
        &&& settled_sound(self.settled)
        &&& pair_sound(self.target)
    }

    fn distances(
        &self,
        rows: &Vec<u32>,
        count: usize,
        d: usize,
        centroids: &Vec<u32>,
        k: usize,
        sizes: &Vec<usize>,
    ) -> (r: Vec<Vec<u32>>) {
        (self.distances)(rows, count, d, centroids, k, sizes)
    }

    fn gap(&self, a: &Vec<u32>, b: &Vec<u32>) -> (r: u32) {
        (self.gap)(a, b)
    }

    fn sum(&self, a: u32, b: u32) -> (r: u32) {
        (self.sum)(a, b)
    }

    fn mean(&self, rows: &Vec<u32>, count: usize, d: usize) -> (r: Vec<u32>) {
        (self.mean)(rows, count, d)
    }

    fn weighted_mean(&self, rows: &Vec<u32>, weights: &Vec<usize>, d: usize) -> (r: Vec<u32>) {
        (self.weighted_mean)(rows, weights, d)
    }

    fn nudged(&self, vector: &Vec<u32>, away: bool) -> (r: Vec<u32>) {
        (self.nudged)(vector, away)
    }

    fn settled(&self, before: u32, now: u32) -> (r: bool) {
        (self.settled)(before, now)
    }

    fn target(&self, word: u32, total: u32) -> (r: u32) {
        (self.target)(word, total)
    }
}

} // verus!
