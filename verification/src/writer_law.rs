//! What was trained and filled is written.
use crate::error::IndexError;
use crate::float_bits;
use crate::hnsw;
use crate::hnsw::GraphModel;
use crate::hnsw_build;
use crate::index;
use crate::index::{VectorIndexConfig, VectorIndexWriter};
use crate::index_io_util;
use crate::index_train;
use crate::index_write;
use crate::index_write::RowCoding;
use crate::ivf_lists;
use crate::ivfflat_io;
use crate::ivfhnswflat::HnswFlatModel;
use crate::ivfhnswflat_io;
use crate::ivfhnswsq::HnswSqModel;
use crate::ivfhnswsq_io;
use crate::list_graphs;
use crate::sq;
use crate::sq::{ScalarQuantizer, SqBounds};
use crate::vector_math::Arithmetic;
use vstd::prelude::*;

verus! {

/// Every list has `width` items for each of its ids.
pub open spec fn rows_whole<T>(ids: Seq<Seq<i64>>, items: Seq<Seq<T>>, width: usize) -> bool {
    &&& ids.len() == items.len()
    &&& forall|i: int| 0 <= i < ids.len() ==> (#[trigger] items[i]).len() == ids[i].len() * width
}

/// Every list of the writer has a vector, or the code of one, for each of its ids.
pub open spec fn holds_whole_rows(writer: VectorIndexWriter) -> bool {
    match writer {
        VectorIndexWriter::IvfFlat(index) => rows_whole(index@.ids, index@.vectors, index@.d),
        VectorIndexWriter::IvfHnswFlat(index) => rows_whole(
            index@.flat.ids,
            index@.flat.vectors,
            index@.flat.d,
        ),
        VectorIndexWriter::IvfHnswSq(index) => rows_whole(index@.ids, index@.codes, index@.d),
    }
}

/// The bounds of all codes and those of each list are finite.
pub open spec fn bounds_finite(bounds: (SqBounds, Seq<SqBounds>), d: usize, nlist: usize) -> bool {
    &&& bounds.0.d == d
    &&& bounds.0.valid(d)
    &&& bounds.1.len() == nlist
    &&& forall|i: int|
        0 <= i < nlist ==> (#[trigger] bounds.1[i]).d == d && bounds.1[i].valid(d)
}

/// The writer has a centroid for each of its lists, and finite bounds where it stores codes.
pub open spec fn is_trained(writer: VectorIndexWriter) -> bool {
    &&& writer.centroids().len() == writer.spec_nlist() * writer.spec_dimension()
    &&& writer matches VectorIndexWriter::IvfHnswSq(index) ==> ivfhnswsq_io::bounds_ok(index@)
}

/// No value is a NaN.
pub open spec fn no_nan(values: Seq<u32>) -> bool {
    forall|i: int| 0 <= i < values.len() ==> !float_bits::is_nan(#[trigger] values[i])
}

/// Nothing that a graph is built over holds a NaN: a NaN is not equal to itself, so that a graph
/// would not match its vectors.
pub open spec fn can_be_compared<D: Fn(usize, &Vec<u8>) -> Vec<u32>>(
    writer: VectorIndexWriter,
    decode: D,
) -> bool {
    match writer {
        VectorIndexWriter::IvfFlat(_) => true,
        VectorIndexWriter::IvfHnswFlat(index) => forall|i: int|
            0 <= i < index@.flat.nlist ==> no_nan(#[trigger] index@.flat.vectors[i]),
        VectorIndexWriter::IvfHnswSq(index) => forall|i: int|
            0 <= i < index@.nlist ==> no_nan(
                sq::decoded(decode, i as usize, #[trigger] index@.codes[i]),
            ),
    }
}

/// Every number of the file fits into the place that it has.
pub open spec fn sizes_fit<D: Fn(usize, &Vec<u8>) -> Vec<u32>>(
    writer: VectorIndexWriter,
    decode: D,
    start: int,
) -> bool {
    &&& writer.spec_nlist() * writer.spec_dimension() <= index_io_util::MAX_SECTION_ELEMENTS
    &&& match writer {
        VectorIndexWriter::IvfFlat(index) => ivfflat_io::fits(index@, start),
        VectorIndexWriter::IvfHnswFlat(index) => ivfhnswflat_io::fits(index@, start),
        VectorIndexWriter::IvfHnswSq(index) => ivfhnswsq_io::fits(
            index@,
            sq::decoding(decode),
            start,
        ),
    }
}

/// A new writer is well formed and holds no rows.
pub proof fn new_writers_hold_whole_rows(writer: VectorIndexWriter, config: VectorIndexConfig)
    requires
        config.fault() is None,
        index::is_new_index(writer, config),
    ensures
        writer.well_formed(),
        holds_whole_rows(writer),
        writer.spec_dimension() > 0,
        writer.spec_nlist() > 0,
{
}

/// Training changes no rows. Where the bounds that it finds are finite the writer is trained.
pub proof fn training_keeps_rows<
    P: Fn(&Vec<u32>) -> Vec<u32>,
    Q: Fn(&Vec<u32>, usize) -> (ScalarQuantizer, Vec<ScalarQuantizer>),
>(
    before: VectorIndexWriter,
    math: Arithmetic,
    prepare: P,
    bounds: Q,
    data: Seq<u32>,
    n: usize,
    max_splits: usize,
    after: VectorIndexWriter,
)
    requires
        holds_whole_rows(before),
        before.trained(math, prepare, bounds, data, n, max_splits, after),
    ensures
        holds_whole_rows(after),
        after.spec_dimension() == before.spec_dimension(),
        after.spec_nlist() == before.spec_nlist(),
        before is IvfHnswSq ==> bounds_finite(
            index_train::bounds_by(bounds, index_train::prepared_by(prepare, data), n),
            before.spec_dimension(),
            before.spec_nlist(),
        ) ==> is_trained(after),
        !(before is IvfHnswSq) ==> is_trained(after),
{
    match (before, after) {
        (VectorIndexWriter::IvfHnswSq(a), VectorIndexWriter::IvfHnswSq(b)) => {
            if bounds_finite(
                index_train::bounds_by(bounds, index_train::prepared_by(prepare, data), n),
                a@.d,
                a@.nlist,
            ) {
                assert forall|i: int| 0 <= i < b@.nlist implies #[trigger]
                    ivfhnswsq_io::list_bounds_ok(b@, i) by {
                    let found = b@.list_sqs[i];
                    assert(found.d == b@.d);
                }
            }
        },
        _ => {},
    }
}

proof fn lemma_extended_whole<T>(
    ids: Seq<Seq<i64>>,
    items: Seq<Seq<T>>,
    width: usize,
    more_ids: Seq<i64>,
    more: Seq<T>,
    lists: Seq<usize>,
)
    requires
        rows_whole(ids, items, width),
        lists.len() <= usize::MAX,
        more_ids.len() == lists.len(),
        more.len() == lists.len() * width,
    ensures
        rows_whole(
            ivf_lists::extended(ids, more_ids, 1, lists),
            ivf_lists::extended(items, more, width as nat, lists),
            width,
        ),
{
    let after_ids = ivf_lists::extended(ids, more_ids, 1, lists);
    let after = ivf_lists::extended(items, more, width as nat, lists);
    assert forall|i: int| 0 <= i < after_ids.len() implies (#[trigger] after[i]).len()
        == after_ids[i].len() * width by {
        let rows = ivf_lists::rows_for(lists, i as usize);
        ivf_lists::each_row_goes_to_its_list(lists, i as usize, 0);
        ivf_lists::lemma_gathered_len(more_ids, 1, rows, lists.len());
        ivf_lists::lemma_gathered_len(more, width as nat, rows, lists.len());
        assert(items[i].len() == ids[i].len() * width);
        assert((ids[i].len() + rows.len()) * width == ids[i].len() * width + rows.len() * width)
            by (nonlinear_arith);
    }
}

/// Adding vectors keeps the rows whole, and the writer as trained as it was.
pub proof fn adding_keeps_rows<
    P: Fn(&Vec<u32>) -> Vec<u32>,
    A: Fn(&Vec<u32>, usize) -> Vec<usize>,
    E: Fn(&Vec<u32>, &Vec<usize>) -> Vec<u8>,
>(
    before: VectorIndexWriter,
    coding: RowCoding<P, A, E>,
    ids: Seq<i64>,
    data: Seq<u32>,
    n: usize,
    after: VectorIndexWriter,
)
    requires
        before.well_formed(),
        holds_whole_rows(before),
        before.filled(coding, ids, data, n, after),
    ensures
        holds_whole_rows(after),
        after.spec_dimension() == before.spec_dimension(),
        after.spec_nlist() == before.spec_nlist(),
        is_trained(after) == is_trained(before),
{
    let lists = coding.lists(data, n);
    match (before, after) {
        (VectorIndexWriter::IvfFlat(a), VectorIndexWriter::IvfFlat(b)) => {
            lemma_extended_whole(a@.ids, a@.vectors, a@.d, ids, coding.stored(data), lists);
        },
        (VectorIndexWriter::IvfHnswFlat(a), VectorIndexWriter::IvfHnswFlat(b)) => {
            lemma_extended_whole(
                a@.flat.ids,
                a@.flat.vectors,
                a@.flat.d,
                ids,
                coding.stored(data),
                lists,
            );
        },
        (VectorIndexWriter::IvfHnswSq(a), VectorIndexWriter::IvfHnswSq(b)) => {
            lemma_extended_whole(a@.ids, a@.codes, a@.d, ids, coding.codes(data, n), lists);
            assert forall|i: int| 0 <= i < a@.nlist implies ivfhnswsq_io::list_bounds_ok(a@, i)
                == #[trigger] ivfhnswsq_io::list_bounds_ok(b@, i) by {}
            assert(ivfhnswsq_io::bounds_ok(a@) ==> ivfhnswsq_io::bounds_ok(b@));
            assert forall|i: int|
                ivfhnswsq_io::bounds_ok(b@) && 0 <= i < a@.nlist implies #[trigger]
                ivfhnswsq_io::list_bounds_ok(a@, i) by {
                assert(ivfhnswsq_io::list_bounds_ok(b@, i));
            }
        },
        _ => {},
    }
}

/// Growth changes no vectors.
proof fn lemma_growth_keeps_vectors(
    steps: Seq<GraphModel>,
    pair: spec_fn(usize, usize) -> u32,
    n: int,
)
    requires
        0 <= n < steps.len(),
        forall|i: int| 0 <= i < n ==> #[trigger] hnsw_build::next_step(steps, i, pair),
    ensures
        steps[n].vectors == steps[0].vectors,
    decreases n,
{
    if n > 0 {
        lemma_growth_keeps_vectors(steps, pair, n - 1);
        assert(hnsw_build::next_step(steps, n - 1, pair));
        reveal(hnsw_build::inserted);
    }
}

/// A graph that has grown over all values of a list holds them.
proof fn lemma_grown_graph_matches(
    start: GraphModel,
    g: GraphModel,
    n: nat,
    pair: spec_fn(usize, usize) -> u32,
    values: Seq<u32>,
)
    requires
        hnsw_build::grown(start, g, n, pair),
        start.vectors == values,
        no_nan(values),
    ensures
        float_bits::same_values(g.vectors, values),
{
    let steps = choose|steps: Seq<GraphModel>| #[trigger]
        hnsw_build::grown_by(start, g, n, pair, steps);
    lemma_growth_keeps_vectors(steps, pair, n as int);
}

proof fn lemma_flat_growth_succeeds(m: HnswFlatModel, stored: Seq<Vec<u32>>)
    requires
        m.well_formed(),
        rows_whole(m.flat.ids, m.flat.vectors, m.flat.d),
        m.flat.vectors.len() == stored.len(),
        forall|i: int| 0 <= i < stored.len() ==> m.flat.vectors[i] == (#[trigger] stored[i])@,
    ensures
        forall|e: IndexError| !#[trigger] index_write::flat_growth_refused(m, e),
{
    assert forall|e: IndexError| !#[trigger] index_write::flat_growth_refused(m, e) by {
        assert forall|at: int| 0 <= at < m.flat.nlist implies !#[trigger]
            list_graphs::growth_refused(
            m.flat.vectors[at],
            m.flat.ids[at].len(),
            m.flat.d,
            e,
        ) by {
            assert(stored[at]@.len() == stored[at].len());
            assert(m.flat.vectors[at].len() == m.flat.ids[at].len() * m.flat.d);
        }
    }
}

proof fn lemma_code_growth_succeeds<D: Fn(usize, &Vec<u8>) -> Vec<u32>>(
    m: HnswSqModel,
    stored: Seq<Vec<u8>>,
    decode: D,
)
    requires
        m.well_formed(),
        rows_whole(m.ids, m.codes, m.d),
        m.codes.len() == stored.len(),
        forall|i: int| 0 <= i < stored.len() ==> m.codes[i] == (#[trigger] stored[i])@,
    ensures
        forall|e: IndexError| !#[trigger] index_write::code_growth_refused(m, decode, e),
{
    assert forall|e: IndexError| !#[trigger] index_write::code_growth_refused(m, decode, e) by {
        assert forall|at: int|
            0 <= at < m.nlist && sq::decoded(decode, at as usize, m.codes[at]).len()
                == m.codes[at].len() implies !#[trigger] list_graphs::growth_refused(
            sq::decoded(decode, at as usize, m.codes[at]),
            m.ids[at].len(),
            m.d,
            e,
        ) by {
            assert(stored[at]@.len() == stored[at].len());
            assert(m.codes[at].len() == m.ids[at].len() * m.d);
        }
    }
}

proof fn lemma_flat_shape<F: Fn(usize, usize, usize) -> u32>(
    a: HnswFlatModel,
    b: HnswFlatModel,
    distance: F,
)
    requires
        a.well_formed(),
        a.flat.d > 0,
        a.flat.nlist > 0,
        rows_whole(a.flat.ids, a.flat.vectors, a.flat.d),
        a.flat.centroids.len() == a.flat.nlist * a.flat.d,
        a.flat.nlist * a.flat.d <= index_io_util::MAX_SECTION_ELEMENTS,
        forall|i: int| 0 <= i < a.flat.nlist ==> no_nan(#[trigger] a.flat.vectors[i]),
        b == (HnswFlatModel { graphs: b.graphs, ..a }),
        b.graphs.len() == a.flat.nlist,
        index_write::flat_graphs_grown(a, distance, b.graphs),
    ensures
        ivfhnswflat_io::shape_ok(b),
{
    let dist = list_graphs::list_distances(distance);
    assert forall|i: int| 0 <= i < b.flat.nlist implies #[trigger] ivfhnswflat_io::list_ok(b, i) by {
        let values = a.flat.vectors[i];
        assert(values.len() == a.flat.ids[i].len() * a.flat.d);
        assert(a.list_grown(dist, b.graphs, i));
        match b.graphs[i] {
            Some(g) => {
                let start = hnsw::empty_graph(
                    values.take((a.flat.ids[i].len() * a.flat.d) as int),
                    a.flat.d,
                    a.flat.metric,
                    a.hnsw_params.spec_sanitized(),
                );
                assert(start.vectors =~= values);
                lemma_grown_graph_matches(
                    start,
                    g,
                    a.flat.ids[i].len(),
                    list_graphs::within_list(dist, i as usize),
                    values,
                );
            },
            None => {},
        }
    }
}

proof fn lemma_code_shape<
    D: Fn(usize, &Vec<u8>) -> Vec<u32>,
    F: Fn(usize, usize, usize) -> u32,
>(a: HnswSqModel, b: HnswSqModel, decode: D, distance: F)
    requires
        a.well_formed(),
        a.d > 0,
        a.nlist > 0,
        rows_whole(a.ids, a.codes, a.d),
        ivfhnswsq_io::bounds_ok(a),
        a.centroids.len() == a.nlist * a.d,
        a.nlist * a.d <= index_io_util::MAX_SECTION_ELEMENTS,
        forall|i: int|
            0 <= i < a.nlist ==> no_nan(sq::decoded(decode, i as usize, #[trigger] a.codes[i])),
        b == (HnswSqModel { graphs: b.graphs, ..a }),
        b.graphs.len() == a.nlist,
        index_write::code_graphs_grown(a, decode, distance, b.graphs),
    ensures
        ivfhnswsq_io::shape_ok(b, sq::decoding(decode)),
{
    let dist = list_graphs::list_distances(distance);
    let dec = sq::decoding(decode);
    assert forall|i: int| 0 <= i < b.nlist implies #[trigger] ivfhnswsq_io::list_ok(b, dec, i) by {
        let values = sq::decoded(decode, i as usize, a.codes[i]);
        assert(a.codes[i].len() == a.ids[i].len() * a.d);
        assert(a.list_grown(decode, dist, b.graphs, i));
        match b.graphs[i] {
            Some(g) => {
                let start = hnsw::empty_graph(
                    values.take((a.ids[i].len() * a.d) as int),
                    a.d,
                    a.metric,
                    a.hnsw_params.spec_sanitized(),
                );
                assert(start.vectors =~= values);
                lemma_grown_graph_matches(
                    start,
                    g,
                    a.ids[i].len(),
                    list_graphs::within_list(dist, i as usize),
                    values,
                );
            },
            None => {},
        }
    }
    assert forall|i: int| 0 <= i < b.nlist implies #[trigger] ivfhnswsq_io::list_bounds_ok(b, i) by {
        assert(ivfhnswsq_io::list_bounds_ok(a, i));
    }
}

/// A trained writer that holds whole rows is written, where its sizes fit the file and nothing that
/// its graphs are built over is a NaN.
pub proof fn trained_writers_are_written<
    D: Fn(usize, &Vec<u8>) -> Vec<u32>,
    F: Fn(usize, usize, usize) -> u32,
>(
    before: VectorIndexWriter,
    decode: D,
    distance: F,
    begun: Seq<u8>,
    after: VectorIndexWriter,
    out: Seq<u8>,
    r: Result<(), IndexError>,
)
    requires
        before.well_formed(),
        before.spec_dimension() > 0,
        before.spec_nlist() > 0,
        holds_whole_rows(before),
        is_trained(before),
        can_be_compared(before, decode),
        before.written(decode, distance, begun, after, out, r),
        after.well_formed(),
        sizes_fit(after, decode, begun.len() as int),
    ensures
        r is Ok,
{
    match (before, after) {
        (VectorIndexWriter::IvfFlat(a), VectorIndexWriter::IvfFlat(b)) => {
            assert forall|i: int| 0 <= i < b@.nlist implies b@.vectors[i].len()
                == (#[trigger] b@.ids[i]).len() * b@.d by {
                assert(b@.vectors[i].len() == b@.ids[i].len() * b@.d);
            }
            assert(ivfflat_io::shape_ok(b@));
        },
        (VectorIndexWriter::IvfHnswFlat(a), VectorIndexWriter::IvfHnswFlat(b)) => {
            lemma_flat_growth_succeeds(a@, a.flat.vectors@);
            if index_write::flat_graphs_grown(a@, distance, b@.graphs) {
                lemma_flat_shape(a@, b@, distance);
            }
        },
        (VectorIndexWriter::IvfHnswSq(a), VectorIndexWriter::IvfHnswSq(b)) => {
            lemma_code_growth_succeeds(a@, a.codes@, decode);
            if index_write::code_graphs_grown(a@, decode, distance, b@.graphs) {
                lemma_code_shape(a@, b@, decode, distance);
            }
        },
        _ => {},
    }
}

/// A new writer that is trained to finite bounds and filled with vectors is written, where its
/// sizes fit the file and nothing that its graphs are built over is a NaN.
pub proof fn what_is_trained_and_filled_is_written<
    P: Fn(&Vec<u32>) -> Vec<u32>,
    Q: Fn(&Vec<u32>, usize) -> (ScalarQuantizer, Vec<ScalarQuantizer>),
    A: Fn(&Vec<u32>, usize) -> Vec<usize>,
    E: Fn(&Vec<u32>, &Vec<usize>) -> Vec<u8>,
    D: Fn(usize, &Vec<u8>) -> Vec<u32>,
    F: Fn(usize, usize, usize) -> u32,
>(
    config: VectorIndexConfig,
    fresh: VectorIndexWriter,
    math: Arithmetic,
    bounds: Q,
    sample: Seq<u32>,
    samples: usize,
    max_splits: usize,
    trained: VectorIndexWriter,
    coding: RowCoding<P, A, E>,
    ids: Seq<i64>,
    data: Seq<u32>,
    n: usize,
    filled: VectorIndexWriter,
    decode: D,
    distance: F,
    begun: Seq<u8>,
    after: VectorIndexWriter,
    out: Seq<u8>,
    r: Result<(), IndexError>,
)
    requires
        config.fault() is None,
        index::is_new_index(fresh, config),
        fresh.trained(math, coding.prepare, bounds, sample, samples, max_splits, trained),
        trained.well_formed(),
        fresh is IvfHnswSq ==> bounds_finite(
            index_train::bounds_by(
                bounds,
                index_train::prepared_by(coding.prepare, sample),
                samples,
            ),
            fresh.spec_dimension(),
            fresh.spec_nlist(),
        ),
        trained.filled(coding, ids, data, n, filled),
        filled.well_formed(),
        can_be_compared(filled, decode),
        filled.written(decode, distance, begun, after, out, r),
        after.well_formed(),
        sizes_fit(after, decode, begun.len() as int),
    ensures
        r is Ok,
{
    new_writers_hold_whole_rows(fresh, config);
    training_keeps_rows(
        fresh,
        math,
        coding.prepare,
        bounds,
        sample,
        samples,
        max_splits,
        trained,
    );
    adding_keeps_rows(trained, coding, ids, data, n, filled);
    trained_writers_are_written(filled, decode, distance, begun, after, out, r);
}

} // verus!
