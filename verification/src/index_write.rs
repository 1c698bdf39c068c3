//! Filling an index and writing it, whatever its kind.
use crate::error::IndexError;
use crate::hnsw::GraphModel;
use crate::index;
use crate::index_train;
use crate::index::VectorIndexWriter;
use crate::ivfflat::FlatModel;
use crate::ivfflat_io;
use crate::ivfhnswflat::HnswFlatModel;
use crate::ivfhnswflat_io;
use crate::ivfhnswsq::HnswSqModel;
use crate::ivfhnswsq_io;
use crate::kmeans;
use crate::list_graphs;
use crate::sq;
use crate::sq::{ScalarQuantizer, SqBounds};
use crate::vector_math::{Arithmetic, VectorMath};
use vstd::prelude::*;

verus! {

/// What is done with vectors before they are stored. `prepare` brings them into the form in which
/// they are compared, `assign` finds the list of each, and `encode` makes codes of them.
pub struct RowCoding<P, A, E> {
    pub prepare: P,
    pub assign: A,
    pub encode: E,
}

pub open spec fn assigned_by<A: Fn(&Vec<u32>, usize) -> Vec<usize>>(
    f: A,
    data: Seq<u32>,
    n: usize,
) -> Seq<usize> {
    let (_, found) = choose|x: &Vec<u32>, r: Vec<usize>|
        x@ == data && #[trigger] call_ensures(f, (x, n), r);
    found@
}

/// The function can be called with any `n` vectors of `d` values, and always gives the same: a list
/// below `nlist` for each of them.
pub open spec fn is_assigner<A: Fn(&Vec<u32>, usize) -> Vec<usize>>(
    f: A,
    nlist: nat,
    d: usize,
) -> bool {
    &&& forall|x: &Vec<u32>, n: usize| x@.len() == n * d ==> #[trigger] call_requires(f, (x, n))
    &&& forall|x: &Vec<u32>, n: usize, r: Vec<usize>|
        x@.len() == n * d && #[trigger] call_ensures(f, (x, n), r) ==> {
            &&& r@ == assigned_by(f, x@, n)
            &&& r@.len() == n
            &&& forall|i: int| 0 <= i < n ==> #[trigger] r@[i] < nlist
        }
}

/// Vectors of `d` values, each with a list below `nlist`.
pub open spec fn rows_assigned(
    data: Seq<u32>,
    assignments: Seq<usize>,
    nlist: nat,
    d: usize,
) -> bool {
    &&& data.len() == assignments.len() * d
    &&& forall|i: int| 0 <= i < assignments.len() ==> #[trigger] assignments[i] < nlist
}

pub open spec fn encoded_by<E: Fn(&Vec<u32>, &Vec<usize>) -> Vec<u8>>(
    f: E,
    data: Seq<u32>,
    assignments: Seq<usize>,
) -> Seq<u8> {
    let (_, _, found) = choose|x: &Vec<u32>, y: &Vec<usize>, r: Vec<u8>|
        x@ == data && y@ == assignments && #[trigger] call_ensures(f, (x, y), r);
    found@
}

impl<
    P: Fn(&Vec<u32>) -> Vec<u32>,
    A: Fn(&Vec<u32>, usize) -> Vec<usize>,
    E: Fn(&Vec<u32>, &Vec<usize>) -> Vec<u8>,
> RowCoding<P, A, E> {
    /// The functions can be called with any vectors of `d` values and their lists, and always give
    /// the same: as many values, a list below `nlist` for each vector, and as many bytes as values.
    pub open spec fn sound(self, nlist: nat, d: usize) -> bool {
        &&& index_train::is_preparer(self.prepare)
        &&& is_assigner(self.assign, nlist, d)
        &&& forall|x: &Vec<u32>, y: &Vec<usize>|
            rows_assigned(x@, y@, nlist, d) ==> #[trigger] call_requires(self.encode, (x, y))
        &&& forall|x: &Vec<u32>, y: &Vec<usize>, r: Vec<u8>|
            rows_assigned(x@, y@, nlist, d) && #[trigger] call_ensures(self.encode, (x, y), r)
                ==> r@ == encoded_by(self.encode, x@, y@)
                && r@.len() == x@.len()
    }

    /// The vectors as they are stored.
    pub open spec fn stored(self, data: Seq<u32>) -> Seq<u32> {
        index_train::prepared_by(self.prepare, data)
    }

    /// The list of each vector.
    pub open spec fn lists(self, data: Seq<u32>, n: usize) -> Seq<usize> {
        assigned_by(self.assign, self.stored(data), n)
    }

    /// The codes of the vectors.
    pub open spec fn codes(self, data: Seq<u32>, n: usize) -> Seq<u8> {
        encoded_by(self.encode, self.stored(data), self.lists(data, n))
    }
}

/// The graph of every list has grown over its vectors.
pub open spec fn flat_graphs_grown<F: Fn(usize, usize, usize) -> u32>(
    m: HnswFlatModel,
    distance: F,
    graphs: Seq<Option<GraphModel>>,
) -> bool {
    forall|i: int|
        0 <= i < m.flat.nlist ==> #[trigger] m.list_grown(
            list_graphs::list_distances(distance),
            graphs,
            i,
        )
}

/// No graph can be built for some list.
pub open spec fn flat_growth_refused(m: HnswFlatModel, e: IndexError) -> bool {
    exists|at: int|
        0 <= at < m.flat.nlist && #[trigger] list_graphs::growth_refused(
            m.flat.vectors[at],
            m.flat.ids[at].len(),
            m.flat.d,
            e,
        )
}

/// The graph of every list has grown over the vectors that its codes stand for.
pub open spec fn code_graphs_grown<
    D: Fn(usize, &Vec<u8>) -> Vec<u32>,
    F: Fn(usize, usize, usize) -> u32,
>(m: HnswSqModel, decode: D, distance: F, graphs: Seq<Option<GraphModel>>) -> bool {
    forall|i: int|
        0 <= i < m.nlist ==> #[trigger] m.list_grown(
            decode,
            list_graphs::list_distances(distance),
            graphs,
            i,
        )
}

/// No graph can be built for some list of codes.
pub open spec fn code_growth_refused<D: Fn(usize, &Vec<u8>) -> Vec<u32>>(
    m: HnswSqModel,
    decode: D,
    e: IndexError,
) -> bool {
    exists|at: int|
        0 <= at < m.nlist && #[trigger] list_graphs::growth_refused(
            sq::decoded(decode, at as usize, m.codes[at]),
            m.ids[at].len(),
            m.d,
            e,
        ) && sq::decoded(decode, at as usize, m.codes[at]).len() == m.codes[at].len()
}

impl VectorIndexWriter {
    /// As many stored lists as the index has lists, and every graph is well formed. Codes are as
    /// wide as vectors.
    pub open spec fn well_formed(self) -> bool {
        match self {
            VectorIndexWriter::IvfFlat(index) => {
                &&& index@.ids.len() == index@.nlist
                &&& index@.vectors.len() == index@.nlist
            },
            VectorIndexWriter::IvfHnswFlat(index) => index@.well_formed(),
            VectorIndexWriter::IvfHnswSq(index) => index@.well_formed() && index@.sq.d == index@.d,
        }
    }

    pub open spec fn spec_nlist(self) -> usize {
        match self {
            VectorIndexWriter::IvfFlat(index) => index@.nlist,
            VectorIndexWriter::IvfHnswFlat(index) => index@.flat.nlist,
            VectorIndexWriter::IvfHnswSq(index) => index@.nlist,
        }
    }

    pub open spec fn centroids(self) -> Seq<u32> {
        match self {
            VectorIndexWriter::IvfFlat(index) => index@.centroids,
            VectorIndexWriter::IvfHnswFlat(index) => index@.flat.centroids,
            VectorIndexWriter::IvfHnswSq(index) => index@.centroids,
        }
    }

    /// The index with other centroids; where it stores codes, also with other bounds of them.
    pub open spec fn with_training(
        self,
        centroids: Seq<u32>,
        bounds: (SqBounds, Seq<SqBounds>),
        after: Self,
    ) -> bool {
        match (self, after) {
            (VectorIndexWriter::IvfFlat(a), VectorIndexWriter::IvfFlat(b)) => b@ == (FlatModel {
                centroids,
                ..a@
            }),
            (VectorIndexWriter::IvfHnswFlat(a), VectorIndexWriter::IvfHnswFlat(b)) => b@ == (
            HnswFlatModel { flat: FlatModel { centroids, ..a@.flat }, ..a@ }),
            (VectorIndexWriter::IvfHnswSq(a), VectorIndexWriter::IvfHnswSq(b)) => b@ == (
            HnswSqModel { centroids, sq: bounds.0, list_sqs: bounds.1, ..a@ }),
            _ => false,
        }
    }

    /// What training on `n` vectors makes of a writer: centroids for its lists, and bounds for its
    /// codes.
    pub open spec fn trained<
        P: Fn(&Vec<u32>) -> Vec<u32>,
        Q: Fn(&Vec<u32>, usize) -> (ScalarQuantizer, Vec<ScalarQuantizer>),
    >(
        self,
        math: Arithmetic,
        prepare: P,
        bounds: Q,
        data: Seq<u32>,
        n: usize,
        max_splits: usize,
        after: Self,
    ) -> bool {
        &&& self.with_training(
            after.centroids(),
            index_train::bounds_by(bounds, index_train::prepared_by(prepare, data), n),
            after,
        )
        &&& after.centroids().len() == self.spec_nlist() * self.spec_dimension()
        &&& index_train::lists_trained(
            math,
            prepare,
            data,
            n,
            self.spec_dimension(),
            self.spec_nlist(),
            max_splits,
            Some(after.centroids()),
        )
    }

    /// Trains the centroids of the lists, and the bounds of codes, on `n` vectors, or says what is
    /// wrong with them. It comes to nothing where `max_splits` splits are not enough for many
    /// lists.
    pub fn train<
        P: Fn(&Vec<u32>) -> Vec<u32>,
        Q: Fn(&Vec<u32>, usize) -> (ScalarQuantizer, Vec<ScalarQuantizer>),
        V: VectorMath,
    >(
        &mut self,
        data: &Vec<u32>,
        n: usize,
        max_splits: usize,
        prepare: &P,
        bounds: &Q,
        math: &V,
    ) -> (r: Result<bool, IndexError>)
        requires
            math.sound(),
            old(self).well_formed(),
            index_train::is_preparer(*prepare),
            index_train::is_bounder(*bounds, old(self).spec_dimension(), old(self).spec_nlist()),
            old(self).spec_nlist() * old(self).spec_dimension() <= usize::MAX,
            kmeans::usual_config().seed + old(self).spec_nlist() <= u64::MAX,
        ensures
            final(self).well_formed(),
            match index::vectors_fault(data@.len() as usize, n, old(self).spec_dimension()) {
                Some(e) => r == Err::<bool, IndexError>(e) && *final(self) == *old(self),
                None => r is Ok && if r->Ok_0 {
                    old(self).trained(
                        math.arithmetic(),
                        *prepare,
                        *bounds,
                        data@,
                        n,
                        max_splits,
                        *final(self),
                    )
                } else {
                    *final(self) == *old(self) && index_train::lists_trained(
                        math.arithmetic(),
                        *prepare,
                        data@,
                        n,
                        old(self).spec_dimension(),
                        old(self).spec_nlist(),
                        max_splits,
                        None,
                    )
                },
            },
    {
        let d: usize = self.dimension();
        assert(data@.len() == data.len());
        match index::validate_vectors(data, n, d) {
            Ok(_) => {},
            Err(e) => {
                return Err(e);
            },
        }
        assert(index_train::first_rows(data@, n, d) =~= data@);
        let done: bool = match self {
            VectorIndexWriter::IvfFlat(index) => index.train(data, n, max_splits, prepare, math),
            VectorIndexWriter::IvfHnswFlat(index) => index.train(
                data,
                n,
                max_splits,
                prepare,
                math,
            ),
            VectorIndexWriter::IvfHnswSq(index) => index.train(
                data,
                n,
                max_splits,
                prepare,
                bounds,
                math,
            ),
        };
        Ok(done)
    }

    /// The index after vectors have been added to the lists that they go to: they are stored as
    /// they are, or as codes. Graphs no longer fit.
    pub open spec fn with_vectors(
        self,
        vectors: Seq<u32>,
        codes: Seq<u8>,
        ids: Seq<i64>,
        lists: Seq<usize>,
        after: Self,
    ) -> bool {
        match (self, after) {
            (VectorIndexWriter::IvfFlat(a), VectorIndexWriter::IvfFlat(b)) => b@ == a@.with_rows(
                vectors,
                ids,
                lists,
            ),
            (VectorIndexWriter::IvfHnswFlat(a), VectorIndexWriter::IvfHnswFlat(b)) => b@ == (
            HnswFlatModel {
                flat: a@.flat.with_rows(vectors, ids, lists),
                graphs: list_graphs::no_graphs(a@.flat.nlist as nat),
                hnsw_params: a@.hnsw_params,
            }),
            (VectorIndexWriter::IvfHnswSq(a), VectorIndexWriter::IvfHnswSq(b)) => b@
                == a@.with_rows(codes, ids, lists),
            _ => false,
        }
    }

    /// The index after `n` vectors have been added with their ids.
    pub open spec fn filled<
        P: Fn(&Vec<u32>) -> Vec<u32>,
        A: Fn(&Vec<u32>, usize) -> Vec<usize>,
        E: Fn(&Vec<u32>, &Vec<usize>) -> Vec<u8>,
    >(
        self,
        coding: RowCoding<P, A, E>,
        ids: Seq<i64>,
        data: Seq<u32>,
        n: usize,
        after: Self,
    ) -> bool {
        &&& self.with_vectors(
            coding.stored(data),
            coding.codes(data, n),
            ids,
            coding.lists(data, n),
            after,
        )
        &&& ids.len() == n
        &&& coding.lists(data, n).len() == n
        &&& coding.stored(data).len() == n * self.spec_dimension()
        &&& self is IvfHnswSq ==> coding.codes(data, n).len() == n * self.spec_dimension()
    }

    /// Adds `n` vectors with their ids, or says what is wrong with them.
    pub fn add_vectors<
        P: Fn(&Vec<u32>) -> Vec<u32>,
        A: Fn(&Vec<u32>, usize) -> Vec<usize>,
        E: Fn(&Vec<u32>, &Vec<usize>) -> Vec<u8>,
    >(
        &mut self,
        ids: &Vec<i64>,
        data: &Vec<u32>,
        n: usize,
        coding: &RowCoding<P, A, E>,
    ) -> (r: Result<(), IndexError>)
        requires
            old(self).well_formed(),
            coding.sound(old(self).spec_nlist() as nat, old(self).spec_dimension()),
        ensures
            final(self).well_formed(),
            match index::rows_fault(
                ids@.len() as usize,
                data@.len() as usize,
                n,
                old(self).spec_dimension(),
            ) {
                Some(e) => r == Err::<(), IndexError>(e) && *final(self) == *old(self),
                None => r is Ok && old(self).filled(*coding, ids@, data@, n, *final(self)),
            },
    {
        let d: usize = self.dimension();
        assert(ids@.len() == ids.len());
        assert(data@.len() == data.len());
        match index::validate_rows(ids, data, n, d) {
            Ok(_) => {},
            Err(e) => {
                return Err(e);
            },
        }
        let stored: Vec<u32> = (coding.prepare)(data);
        let lists: Vec<usize> = (coding.assign)(&stored, n);
        match self {
            VectorIndexWriter::IvfFlat(index) => {
                index.add(&stored, ids, &lists);
            },
            VectorIndexWriter::IvfHnswFlat(index) => {
                index.add(&stored, ids, &lists);
            },
            VectorIndexWriter::IvfHnswSq(index) => {
                let codes: Vec<u8> = (coding.encode)(&stored, &lists);
                index.add(&codes, ids, &lists);
            },
        }
        Ok(())
    }

    /// What comes of writing an index behind `begun`: the file, or an error and no bytes. Graphs are
    /// built first.
    pub open spec fn written<
        D: Fn(usize, &Vec<u8>) -> Vec<u32>,
        F: Fn(usize, usize, usize) -> u32,
    >(
        self,
        decode: D,
        distance: F,
        begun: Seq<u8>,
        after: Self,
        out: Seq<u8>,
        r: Result<(), IndexError>,
    ) -> bool {
        let start = begun.len() as int;
        match (self, after) {
            (VectorIndexWriter::IvfFlat(a), VectorIndexWriter::IvfFlat(b)) => {
                &&& b == a
                &&& match r {
                    Ok(_) => ivfflat_io::shape_ok(b@) && ivfflat_io::fits(b@, start) && out == begun
                        + ivfflat_io::file_bytes(b@, start),
                    Err(e) => out == begun && if ivfflat_io::shape_ok(b@) {
                        !ivfflat_io::fits(b@, start) && ivfflat_io::exceeds(b@, start, e)
                    } else {
                        ivfflat_io::shape_refused(b@, e)
                    },
                }
            },
            (VectorIndexWriter::IvfHnswFlat(a), VectorIndexWriter::IvfHnswFlat(b)) => {
                let grown = flat_graphs_grown(a@, distance, b@.graphs);
                &&& b@ == (HnswFlatModel { graphs: b@.graphs, ..a@ })
                &&& match r {
                    Ok(_) => grown && ivfhnswflat_io::shape_ok(b@) && ivfhnswflat_io::fits(b@, start)
                        && out == begun + ivfhnswflat_io::file_bytes(b@, start),
                    Err(e) => out == begun && (flat_growth_refused(a@, e) || grown && (
                    if ivfhnswflat_io::shape_ok(b@) {
                        !ivfhnswflat_io::fits(b@, start) && ivfhnswflat_io::exceeds(b@, start, e)
                    } else {
                        ivfhnswflat_io::shape_refused(b@, e)
                    })),
                }
            },
            (VectorIndexWriter::IvfHnswSq(a), VectorIndexWriter::IvfHnswSq(b)) => {
                let dec = sq::decoding(decode);
                let grown = code_graphs_grown(a@, decode, distance, b@.graphs);
                &&& b@ == (HnswSqModel { graphs: b@.graphs, ..a@ })
                &&& match r {
                    Ok(_) => grown && ivfhnswsq_io::shape_ok(b@, dec) && ivfhnswsq_io::fits(
                        b@,
                        dec,
                        start,
                    ) && out == begun + ivfhnswsq_io::file_bytes(b@, dec, start) && forall|i: int|
                        0 <= i < b@.nlist ==> #[trigger] ivfhnswsq_io::decodes_sorted(b@, dec, i),
                    Err(e) => out == begun && (code_growth_refused(a@, decode, e) || grown && (
                    if ivfhnswsq_io::shape_ok(b@, dec) {
                        !ivfhnswsq_io::fits(b@, dec, start) && ivfhnswsq_io::exceeds(
                            b@,
                            dec,
                            start,
                            e,
                        )
                    } else {
                        ivfhnswsq_io::shape_refused(b@, dec, e)
                    })),
                }
            },
            _ => false,
        }
    }

    /// The rows of each list.
    pub open spec fn row_counts(self) -> Seq<nat> {
        match self {
            VectorIndexWriter::IvfFlat(index) => Seq::new(
                index@.ids.len(),
                |i: int| index@.ids[i].len(),
            ),
            VectorIndexWriter::IvfHnswFlat(index) => index@.row_counts(),
            VectorIndexWriter::IvfHnswSq(index) => index@.row_counts(),
        }
    }

    pub open spec fn graph_degree(self) -> int {
        match self {
            VectorIndexWriter::IvfFlat(_) => 0,
            VectorIndexWriter::IvfHnswFlat(index) => index@.hnsw_params.m as int,
            VectorIndexWriter::IvfHnswSq(index) => index@.hnsw_params.m as int,
        }
    }

    /// Builds the graphs that the index needs, and appends its file to `out`.
    pub fn write<D: Fn(usize, &Vec<u8>) -> Vec<u32>, F: Fn(usize, usize, usize) -> u32>(
        &mut self,
        decode: &D,
        distance: &F,
        out: &mut Vec<u8>,
    ) -> (r: Result<(), IndexError>)
        requires
            old(self).well_formed(),
            sq::is_decoder(*decode, old(self).spec_nlist() as nat),
            list_graphs::gives_list_distances(*distance, old(self).row_counts()),
            list_graphs::degrees_fit(old(self).row_counts(), old(self).graph_degree()),
            forall|i: int|
                0 <= i < old(self).row_counts().len() ==> #[trigger] old(self).row_counts()[i]
                    + 0x9E37_79B9_7F4A_7C15 <= u64::MAX,
        ensures
            final(self).well_formed(),
            old(self).written(*decode, *distance, old(out)@, *final(self), final(out)@, r),
    {
        let ghost was = *self;
        match self {
            VectorIndexWriter::IvfFlat(index) => ivfflat_io::write_ivfflat_index(index, out),
            VectorIndexWriter::IvfHnswFlat(index) => {
                assert forall|i: int| 0 <= i < index@.flat.nlist implies (
                #[trigger] index@.flat.ids[i]).len() + 0x9E37_79B9_7F4A_7C15 <= u64::MAX by {
                    assert(was.row_counts()[i] == index@.flat.ids[i].len());
                }
                let ghost before = index@;
                match index.build_graphs(distance) {
                    Ok(_) => {
                        assert(flat_graphs_grown(before, *distance, index@.graphs));
                        ivfhnswflat_io::write_ivfhnswflat_index(index, out)
                    },
                    Err(e) => {
                        assert(flat_growth_refused(before, e));
                        Err(e)
                    },
                }
            },
            VectorIndexWriter::IvfHnswSq(index) => {
                assert forall|i: int| 0 <= i < index@.nlist implies (
                #[trigger] index@.ids[i]).len() + 0x9E37_79B9_7F4A_7C15 <= u64::MAX by {
                    assert(was.row_counts()[i] == index@.ids[i].len());
                }
                let ghost before = index@;
                match index.build_graphs(decode, distance) {
                    Ok(_) => {
                        assert(code_graphs_grown(before, *decode, *distance, index@.graphs));
                        ivfhnswsq_io::write_ivfhnswsq_index(index, decode, out)
                    },
                    Err(e) => {
                        assert(code_growth_refused(before, *decode, e));
                        Err(e)
                    },
                }
            },
        }
    }
}

} // verus!
