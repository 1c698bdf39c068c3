//! Training the centroids of a product quantizer, chunk by chunk.
use crate::cluster_assign;
use crate::kmeans;
use crate::kmeans::KMeansConfig;
use crate::pq;
use crate::pq::ProductQuantizer;
use crate::training;
use crate::vector_math::{Arithmetic, VectorMath};
use vstd::prelude::*;

verus! {

impl ProductQuantizer {
    /// The values of a chunk of every row.
    pub open spec fn chunk_rows(self, data: Seq<u32>, n: usize, sub: int) -> Seq<u32> {
        pq::columns(data, self.d as int, self.start(sub), self.start(sub + 1), n as int)
    }

    /// The centroids of a chunk, one behind the other.
    pub open spec fn chunk_centroids(self, sub: int) -> Seq<u32> {
        self.centroids@.subrange(self.start(sub) * self.ksub, self.start(sub + 1) * self.ksub)
    }

    /// The centroids that a chunk begins with: those that it has, if they are asked for and there
    /// are any.
    pub open spec fn chunk_init(self, hot_start: bool, sub: int) -> Option<Seq<u32>> {
        if hot_start && self.centroids@.len() > 0 {
            Some(self.chunk_centroids(sub))
        } else {
            None
        }
    }

    /// The centroids of a chunk are trained on the values of the chunk.
    pub open spec fn chunk_trained(
        self,
        math: Arithmetic,
        config: KMeansConfig,
        data: Seq<u32>,
        n: usize,
        hot_start: bool,
        sub: int,
        centroids: Seq<u32>,
    ) -> bool {
        training::trained(
            math,
            config,
            self.chunk_rows(data, n, sub),
            n,
            self.width(sub) as usize,
            self.ksub,
            self.chunk_init(hot_start, sub),
            centroids,
        )
    }

    /// Trains the centroids of all chunks, with those that there are to begin with where that is
    /// asked for.
    pub fn train_hot_start<V: VectorMath>(
        &mut self,
        data: &Vec<u32>,
        n: usize,
        config: &KMeansConfig,
        hot_start: bool,
        math: &V,
    )
        requires
            math.sound(),
            old(self).well_formed(),
            hot_start && old(self).centroids@.len() > 0 ==> old(self).is_trained(),
            data@.len() >= n * old(self).d,
            n > 0 ==> config.max_points_per_centroid >= 1,
        ensures
            final(self).well_formed(),
            final(self).is_trained(),
            final(self).d == old(self).d,
            final(self).m == old(self).m,
            final(self).nbits == old(self).nbits,
            final(self).chunk_offsets@ == old(self).chunk_offsets@,
            forall|sub: int|
                0 <= sub < old(self).m ==> old(self).chunk_trained(
                    math.arithmetic(),
                    *config,
                    data@,
                    n,
                    hot_start,
                    sub,
                    #[trigger] final(self).chunk_centroids(sub),
                ),
    {
        let ghost was = *self;
        let mut chunks: Vec<Vec<u32>> = Vec::new();
        for sub in 0..self.m
            invariant
                math.sound(),
                *self == was,
                was.well_formed(),
                hot_start && was.centroids@.len() > 0 ==> was.is_trained(),
                data@.len() >= n * was.d,
                n > 0 ==> config.max_points_per_centroid >= 1,
                chunks@.len() == sub,
                forall|i: int|
                    0 <= i < sub ==> (#[trigger] chunks@[i])@.len() == was.width(i) * was.ksub,
                forall|i: int|
                    0 <= i < sub ==> was.chunk_trained(
                        math.arithmetic(),
                        *config,
                        data@,
                        n,
                        hot_start,
                        i,
                        (#[trigger] chunks@[i])@,
                    ),
        {
            let width: usize = self.chunk_dim(sub);
            let rows: Vec<u32> = self.chunk_columns(data, n, sub);
            proof {
                was.lemma_chunk_place(sub as int);
                lemma_columns_len(
                    data@,
                    was.d as int,
                    was.start(sub as int),
                    was.start(sub + 1),
                    n as int,
                    n as int,
                );
                let w = width as int;
                let k = was.ksub as int;
                assert(w * k == k * w) by (nonlinear_arith);
            }
            let begin: Option<Vec<u32>> = if hot_start && self.centroids.len() > 0 {
                let (start, stop) = self.chunk_range(sub);
                assert(self.centroids@.len() == self.centroids.len());
                Some(cluster_assign::copied(&self.centroids, start * self.ksub, stop * self.ksub))
            } else {
                None
            };
            let centroids: Vec<u32> = match &begin {
                Some(values) => training::kmeans_train_with_init(
                    config,
                    &rows,
                    n,
                    width,
                    self.ksub,
                    Some(values),
                    math,
                ),
                None => training::kmeans_train_with_init(
                    config,
                    &rows,
                    n,
                    width,
                    self.ksub,
                    None,
                    math,
                ),
            };
            chunks.push(centroids);
        }
        self.set_centroids(&chunks);
        proof {
            assert forall|sub: int| 0 <= sub < was.m implies was.chunk_trained(
                math.arithmetic(),
                *config,
                data@,
                n,
                hot_start,
                sub,
                #[trigger] self.chunk_centroids(sub),
            ) by {
                assert(self.chunk_centroids(sub) == chunks@[sub]@);
            }
        }
    }

    /// Trains the centroids of all chunks.
    pub fn train_with_config<V: VectorMath>(
        &mut self,
        data: &Vec<u32>,
        n: usize,
        config: &KMeansConfig,
        math: &V,
    )
        requires
            math.sound(),
            old(self).well_formed(),
            data@.len() >= n * old(self).d,
            n > 0 ==> config.max_points_per_centroid >= 1,
        ensures
            final(self).well_formed(),
            final(self).is_trained(),
            final(self).d == old(self).d,
            final(self).m == old(self).m,
            final(self).nbits == old(self).nbits,
            final(self).chunk_offsets@ == old(self).chunk_offsets@,
            forall|sub: int|
                0 <= sub < old(self).m ==> old(self).chunk_trained(
                    math.arithmetic(),
                    *config,
                    data@,
                    n,
                    false,
                    sub,
                    #[trigger] final(self).chunk_centroids(sub),
                ),
    {
        self.train_hot_start(data, n, config, false, math);
    }

    /// Trains the centroids of all chunks as is usual.
    pub fn train<V: VectorMath>(&mut self, data: &Vec<u32>, n: usize, math: &V)
        requires
            math.sound(),
            old(self).well_formed(),
            data@.len() >= n * old(self).d,
        ensures
            final(self).well_formed(),
            final(self).is_trained(),
            final(self).d == old(self).d,
            final(self).m == old(self).m,
            final(self).nbits == old(self).nbits,
            final(self).chunk_offsets@ == old(self).chunk_offsets@,
            forall|sub: int|
                0 <= sub < old(self).m ==> old(self).chunk_trained(
                    math.arithmetic(),
                    kmeans::usual_config(),
                    data@,
                    n,
                    false,
                    sub,
                    #[trigger] final(self).chunk_centroids(sub),
                ),
    {
        let config: KMeansConfig = KMeansConfig::default();
        assert(config == kmeans::usual_config());
        self.train_with_config(data, n, &config, math);
    }

    /// The centroids of a chunk stand within those of all chunks.
    pub proof fn lemma_chunk_place(self, sub: int)
        requires
            self.well_formed(),
            0 <= sub < self.m,
        ensures
            0 <= self.start(sub) <= self.start(sub + 1) <= self.d,
            0 <= self.start(sub) * self.ksub <= self.start(sub + 1) * self.ksub <= self.d
                * self.ksub,
            self.start(sub + 1) * self.ksub - self.start(sub) * self.ksub == self.ksub
                * self.width(sub),
            self.ksub * self.width(sub) <= usize::MAX,
    {
        assert(self.chunk_offsets@[0] <= self.chunk_offsets@[sub]);
        assert(self.chunk_offsets@[sub] <= self.chunk_offsets@[sub + 1]);
        assert(self.chunk_offsets@[sub + 1] <= self.chunk_offsets@[self.m as int]);
        let a = self.start(sub);
        let b = self.start(sub + 1);
        let d = self.d as int;
        let k = self.ksub as int;
        assert(0 <= a * k <= b * k <= d * k) by (nonlinear_arith)
            requires
                0 <= a <= b <= d,
                k >= 0,
        ;
        assert(b * k - a * k == k * (b - a)) by (nonlinear_arith);
    }
}

/// So many values make up the columns of the rows.
pub proof fn lemma_columns_len(data: Seq<u32>, d: int, start: int, stop: int, n: int, all: int)
    requires
        0 <= start <= stop <= d,
        0 <= n <= all,
        data.len() >= all * d,
    ensures
        pq::columns(data, d, start, stop, n).len() == n * (stop - start),
    decreases n,
{
    if n > 0 {
        lemma_columns_len(data, d, start, stop, n - 1, all);
        assert((n - 1) * d + d <= all * d) by (nonlinear_arith)
            requires
                n <= all,
                d >= 0,
        ;
        assert(0 <= (n - 1) * d) by (nonlinear_arith)
            requires
                n >= 1,
                d >= 0,
        ;
        let w = stop - start;
        assert((n - 1) * w + w == n * w) by (nonlinear_arith);
    } else {
        let w = stop - start;
        assert(n * w == 0) by (nonlinear_arith)
            requires
                n == 0,
        ;
    }
}

} // verus!
