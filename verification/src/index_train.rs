//! Training the centroids of the lists of an index, and the bounds of its codes.
use crate::autotune::DiskAnnBuildParams;
use crate::cluster_assign;
use crate::coarse;
use crate::coarse::CoarseAssignment;
use crate::hierarchical;
use crate::ivfflat::{FlatModel, IVFFlatIndex};
use crate::ivfhnswflat::{HnswFlatModel, IVFHNSWFlatIndex};
use crate::ivfhnswsq;
use crate::ivfhnswsq::{HnswSqModel, IVFHNSWSQIndex};
use crate::ivfrq::{IVFRQIndex, RqModel};
use crate::kmeans;
use crate::kmeans::KMeansConfig;
use crate::sq::{ScalarQuantizer, SqBounds};
use crate::vector_math::{Arithmetic, VectorMath};
use vstd::prelude::*;

verus! {

/// Vectors in the form in which they are compared.
pub open spec fn prepared_by<P: Fn(&Vec<u32>) -> Vec<u32>>(f: P, data: Seq<u32>) -> Seq<u32> {
    let (_, found) = choose|x: &Vec<u32>, r: Vec<u32>|
        x@ == data && #[trigger] call_ensures(f, (x,), r);
    found@
}

/// The function can be called with any vectors, and always gives the same: as many values.
pub open spec fn is_preparer<P: Fn(&Vec<u32>) -> Vec<u32>>(f: P) -> bool {
    &&& forall|x: &Vec<u32>| #[trigger] call_requires(f, (x,))
    &&& forall|x: &Vec<u32>, r: Vec<u32>| #[trigger]
        call_ensures(f, (x,), r) ==> r@ == prepared_by(f, x@) && r@.len() == x@.len()
}

/// The bounds of all codes, and those of each list, for `n` vectors.
pub open spec fn bounds_by<Q: Fn(&Vec<u32>, usize) -> (ScalarQuantizer, Vec<ScalarQuantizer>)>(
    f: Q,
    data: Seq<u32>,
    n: usize,
) -> (SqBounds, Seq<SqBounds>) {
    let (_, found) = choose|x: &Vec<u32>, r: (ScalarQuantizer, Vec<ScalarQuantizer>)|
        x@ == data && #[trigger] call_ensures(f, (x, n), r);
    (found.0@, ivfhnswsq::bounds_of(found.1@))
}

/// The function can be called with any `n` vectors of `d` values, and always gives the same: bounds
/// of `d` dimensions, and as many others as there are lists.
pub open spec fn is_bounder<Q: Fn(&Vec<u32>, usize) -> (ScalarQuantizer, Vec<ScalarQuantizer>)>(
    f: Q,
    d: usize,
    nlist: usize,
) -> bool {
    &&& forall|x: &Vec<u32>, n: usize| x@.len() == n * d ==> #[trigger] call_requires(f, (x, n))
    &&& forall|x: &Vec<u32>, n: usize, r: (ScalarQuantizer, Vec<ScalarQuantizer>)|
        x@.len() == n * d && #[trigger] call_ensures(f, (x, n), r) ==> {
            &&& (r.0@, ivfhnswsq::bounds_of(r.1@)) == bounds_by(f, x@, n)
            &&& r.0@.d == d
            &&& r.1@.len() == nlist
        }
}

/// The first `n` vectors.
pub open spec fn first_rows(data: Seq<u32>, n: usize, d: usize) -> Seq<u32> {
    data.take((n * d) as int)
}

/// There are so many vectors at least, and the centroids of the lists can be held.
pub open spec fn can_train_lists(data: Seq<u32>, n: usize, d: usize, nlist: usize) -> bool {
    &&& data.len() >= n * d
    &&& nlist * d <= usize::MAX
    &&& kmeans::usual_config().seed + nlist <= u64::MAX
}

/// What comes of training the centroids of `nlist` lists on the first `n` vectors.
pub open spec fn lists_trained<P: Fn(&Vec<u32>) -> Vec<u32>>(
    math: Arithmetic,
    prepare: P,
    data: Seq<u32>,
    n: usize,
    d: usize,
    nlist: usize,
    max_splits: usize,
    found: Option<Seq<u32>>,
) -> bool {
    hierarchical::trained_either_way(
        math,
        kmeans::usual_config(),
        prepared_by(prepare, first_rows(data, n, d)),
        n,
        d,
        nlist,
        max_splits,
        found,
    )
}

fn train_lists<P: Fn(&Vec<u32>) -> Vec<u32>, V: VectorMath>(
    data: &Vec<u32>,
    n: usize,
    d: usize,
    nlist: usize,
    max_splits: usize,
    prepare: &P,
    math: &V,
) -> (r: Option<(Vec<u32>, Vec<u32>)>)
    requires
        math.sound(),
        is_preparer(*prepare),
        can_train_lists(data@, n, d, nlist),
    ensures
        r matches Some(found) ==> found.0@.len() == nlist * d && found.1@.len() == n * d && found.1@
            == prepared_by(*prepare, first_rows(data@, n, d)),
        lists_trained(
            math.arithmetic(),
            *prepare,
            data@,
            n,
            d,
            nlist,
            max_splits,
            (match r {
                Some(found) => Some(found.0@),
                None => None,
            }),
        ),
{
    assert(data@.len() == data.len());
    let rows: Vec<u32> = cluster_assign::copied(data, 0, n * d);
    assert(rows@ =~= first_rows(data@, n, d));
    let stored: Vec<u32> = prepare(&rows);
    let config: KMeansConfig = KMeansConfig::default();
    match hierarchical::kmeans_train(&config, &stored, n, d, nlist, max_splits, math) {
        Some(trained) => Some((trained, stored)),
        None => None,
    }
}

impl IVFFlatIndex {
    /// Trains the centroids of the lists on the first `n` vectors. Tells whether `max_splits`
    /// splits were enough; where they were not, nothing changes.
    pub fn train<P: Fn(&Vec<u32>) -> Vec<u32>, V: VectorMath>(
        &mut self,
        data: &Vec<u32>,
        n: usize,
        max_splits: usize,
        prepare: &P,
        math: &V,
    ) -> (r: bool)
        requires
            math.sound(),
            is_preparer(*prepare),
            can_train_lists(data@, n, old(self)@.d, old(self)@.nlist),
        ensures
            lists_trained(
                math.arithmetic(),
                *prepare,
                data@,
                n,
                old(self)@.d,
                old(self)@.nlist,
                max_splits,
                (if r {
                    Some(final(self)@.centroids)
                } else {
                    None
                }),
            ),
            if r {
                &&& final(self)@ == (FlatModel { centroids: final(self)@.centroids, ..old(self)@ })
                &&& final(self)@.centroids.len() == old(self)@.nlist * old(self)@.d
            } else {
                *final(self) == *old(self)
            },
    {
        match train_lists(data, n, self.d, self.nlist, max_splits, prepare, math) {
            Some((trained, _)) => {
                self.quantizer_centroids = trained;
                true
            },
            None => false,
        }
    }
}

impl IVFHNSWFlatIndex {
    /// Trains the centroids of the lists on the first `n` vectors. Tells whether `max_splits`
    /// splits were enough; where they were not, nothing changes.
    pub fn train<P: Fn(&Vec<u32>) -> Vec<u32>, V: VectorMath>(
        &mut self,
        data: &Vec<u32>,
        n: usize,
        max_splits: usize,
        prepare: &P,
        math: &V,
    ) -> (r: bool)
        requires
            math.sound(),
            is_preparer(*prepare),
            can_train_lists(data@, n, old(self)@.flat.d, old(self)@.flat.nlist),
        ensures
            lists_trained(
                math.arithmetic(),
                *prepare,
                data@,
                n,
                old(self)@.flat.d,
                old(self)@.flat.nlist,
                max_splits,
                (if r {
                    Some(final(self)@.flat.centroids)
                } else {
                    None
                }),
            ),
            if r {
                &&& final(self)@ == (HnswFlatModel {
                flat: FlatModel {
                    centroids: final(self)@.flat.centroids,
                    ..old(self)@.flat
                },
                ..old(self)@
            })
                &&& final(self)@.flat.centroids.len() == old(self)@.flat.nlist * old(self)@.flat.d
            } else {
                *final(self) == *old(self)
            },
    {
        match train_lists(data, n, self.flat.d, self.flat.nlist, max_splits, prepare, math) {
            Some((trained, _)) => {
                self.flat.quantizer_centroids = trained;
                true
            },
            None => false,
        }
    }
}

impl IVFHNSWSQIndex {
    /// Trains the centroids of the lists and the bounds of the codes on the first `n`
    /// vectors. Tells whether `max_splits` splits were enough; where they were not, nothing changes.
    pub fn train<
        P: Fn(&Vec<u32>) -> Vec<u32>,
        Q: Fn(&Vec<u32>, usize) -> (ScalarQuantizer, Vec<ScalarQuantizer>),
        V: VectorMath,
    >(
        &mut self,
        data: &Vec<u32>,
        n: usize,
        max_splits: usize,
        prepare: &P,
        bounds: &Q,
        math: &V,
    ) -> (r: bool)
        requires
            math.sound(),
            is_preparer(*prepare),
            is_bounder(*bounds, old(self)@.d, old(self)@.nlist),
            can_train_lists(data@, n, old(self)@.d, old(self)@.nlist),
        ensures
            lists_trained(
                math.arithmetic(),
                *prepare,
                data@,
                n,
                old(self)@.d,
                old(self)@.nlist,
                max_splits,
                (if r {
                    Some(final(self)@.centroids)
                } else {
                    None
                }),
            ),
            if r {
                &&& final(self)@ == (HnswSqModel {
                    centroids: final(self)@.centroids,
                    sq: bounds_by(
                        *bounds,
                        prepared_by(*prepare, first_rows(data@, n, old(self)@.d)),
                        n,
                    ).0,
                    list_sqs: bounds_by(
                        *bounds,
                        prepared_by(*prepare, first_rows(data@, n, old(self)@.d)),
                        n,
                    ).1,
                    ..old(self)@
                })
                &&& final(self)@.sq.d == old(self)@.d
                &&& final(self)@.list_sqs.len() == old(self)@.nlist
                &&& final(self)@.centroids.len() == old(self)@.nlist * old(self)@.d
            } else {
                *final(self) == *old(self)
            },
    {
        match train_lists(data, n, self.d, self.nlist, max_splits, prepare, math) {
            Some((trained, stored)) => {
                let (sq, list_sqs) = bounds(&stored, n);
                self.quantizer_centroids = trained;
                self.sq = sq;
                self.list_sqs = list_sqs;
                true
            },
            None => false,
        }
    }
}

impl IVFRQIndex {
    /// Trains the centroids of the lists on the first `n` vectors, and prepares the assignment of
    /// vectors to them anew. Tells whether `max_splits` splits were enough; where they were not,
    /// nothing changes.
    pub fn train<
        P: Fn(&Vec<u32>) -> Vec<u32>,
        G,
        B: Fn(&Vec<u32>, DiskAnnBuildParams) -> Option<G>,
        V: VectorMath,
    >(
        &mut self,
        data: &Vec<u32>,
        n: usize,
        max_splits: usize,
        prepare: &P,
        assignment: &mut CoarseAssignment<G>,
        build: &B,
        math: &V,
    ) -> (r: bool)
        requires
            math.sound(),
            is_preparer(*prepare),
            forall|c: &Vec<u32>| #[trigger]
                call_requires(*build, (c, coarse::assignment_graph_params())),
            can_train_lists(data@, n, old(self)@.d, old(self)@.nlist),
        ensures
            lists_trained(
                math.arithmetic(),
                *prepare,
                data@,
                n,
                old(self)@.d,
                old(self)@.nlist,
                max_splits,
                (if r {
                    Some(final(self)@.centroids)
                } else {
                    None
                }),
            ),
            if r {
                &&& final(self)@ == (RqModel { centroids: final(self)@.centroids, ..old(self)@ })
                &&& final(self)@.centroids.len() == old(self)@.nlist * old(self)@.d
                &&& (CoarseAssignment::<G> { graph: None, build_attempted: false }).prepared(
                    &final(self).quantizer_centroids,
                    old(self)@.nlist,
                    old(self)@.d,
                    *build,
                    *final(assignment),
                )
            } else {
                *final(self) == *old(self) && *final(assignment) == *old(assignment)
            },
    {
        match train_lists(data, n, self.d, self.nlist, max_splits, prepare, math) {
            Some((trained, _)) => {
                self.quantizer_centroids = trained;
                assignment.reset();
                assignment.prepare(&self.quantizer_centroids, self.nlist, self.d, build);
                true
            },
            None => false,
        }
    }
}

} // verus!
