//! Encoding vectors into the lists of an index of one-bit codes.
use crate::cluster_assign;
use crate::index_train;
use crate::index_write;
use crate::ivf_lists;
use crate::ivfrq;
use crate::ivfrq::{IVFRQIndex, RQCodeFactors, RqModel};
use crate::wire;
use vstd::prelude::*;

verus! {

/// What is done with vectors before they are stored. `prepare` brings them into the form in which
/// they are compared, `assign` finds the list of each, and `encode` makes a code of each, with the
/// values that go beside it.
pub struct RQCoding<P, A, E> {
    pub prepare: P,
    pub assign: A,
    pub encode: E,
}

pub open spec fn encoded_by<
    E: Fn(&Vec<u32>, &Vec<usize>) -> (Vec<u8>, Vec<RQCodeFactors>),
>(f: E, data: Seq<u32>, assignments: Seq<usize>) -> (Seq<u8>, Seq<RQCodeFactors>) {
    let (_, _, found) = choose|
        x: &Vec<u32>,
        y: &Vec<usize>,
        r: (Vec<u8>, Vec<RQCodeFactors>),
    |
        x@ == data && y@ == assignments && #[trigger] call_ensures(f, (x, y), r);
    (found.0@, found.1@)
}

/// The function can be called with any vectors of `d` values and their lists, and always gives the
/// same: a code of `width` bytes for each vector, and one set of values.
pub open spec fn is_encoder<
    E: Fn(&Vec<u32>, &Vec<usize>) -> (Vec<u8>, Vec<RQCodeFactors>),
>(f: E, nlist: nat, width: nat, d: usize) -> bool {
    &&& forall|x: &Vec<u32>, y: &Vec<usize>|
        index_write::rows_assigned(x@, y@, nlist, d) ==> #[trigger] call_requires(f, (x, y))
    &&& forall|x: &Vec<u32>, y: &Vec<usize>, r: (Vec<u8>, Vec<RQCodeFactors>)|
        index_write::rows_assigned(x@, y@, nlist, d) && #[trigger] call_ensures(f, (x, y), r) ==> {
            &&& (r.0@, r.1@) == encoded_by(f, x@, y@)
            &&& r.0@.len() == y@.len() * width
            &&& r.1@.len() == y@.len()
        }
}

impl<
    P: Fn(&Vec<u32>) -> Vec<u32>,
    A: Fn(&Vec<u32>, usize) -> Vec<usize>,
    E: Fn(&Vec<u32>, &Vec<usize>) -> (Vec<u8>, Vec<RQCodeFactors>),
> RQCoding<P, A, E> {
    pub open spec fn sound(self, nlist: nat, width: nat, d: usize) -> bool {
        &&& index_train::is_preparer(self.prepare)
        &&& index_write::is_assigner(self.assign, nlist, d)
        &&& is_encoder(self.encode, nlist, width, d)
    }

    /// The list of each vector.
    pub open spec fn lists(self, data: Seq<u32>, n: usize) -> Seq<usize> {
        index_write::assigned_by(self.assign, index_train::prepared_by(self.prepare, data), n)
    }

    /// The codes of the vectors, and the values that go beside them.
    pub open spec fn codes(self, data: Seq<u32>, n: usize) -> (Seq<u8>, Seq<RQCodeFactors>) {
        encoded_by(
            self.encode,
            index_train::prepared_by(self.prepare, data),
            self.lists(data, n),
        )
    }
}

/// Vector `i` of `data`.
pub open spec fn row_of(data: Seq<u32>, d: usize, i: int) -> Seq<u32> {
    data.subrange(i * d, i * d + d)
}

/// What is made of each vector on its own: its list, its code, and the values beside it.
pub struct RowByRow {
    pub list: spec_fn(Seq<u32>) -> usize,
    pub code: spec_fn(Seq<u32>) -> Seq<u8>,
    pub factors: spec_fn(Seq<u32>) -> RQCodeFactors,
}

impl RowByRow {
    pub open spec fn lists(self, data: Seq<u32>, n: nat, d: usize) -> Seq<usize> {
        Seq::new(n, |i: int| (self.list)(row_of(data, d, i)))
    }

    pub open spec fn codes(self, data: Seq<u32>, n: nat, d: usize) -> Seq<Seq<u8>> {
        Seq::new(n, |i: int| (self.code)(row_of(data, d, i)))
    }

    pub open spec fn all_factors(self, data: Seq<u32>, n: nat, d: usize) -> Seq<RQCodeFactors> {
        Seq::new(n, |i: int| (self.factors)(row_of(data, d, i)))
    }

    /// All vectors of `data` are coded one by one.
    pub open spec fn codes_rows<
        P: Fn(&Vec<u32>) -> Vec<u32>,
        A: Fn(&Vec<u32>, usize) -> Vec<usize>,
        E: Fn(&Vec<u32>, &Vec<usize>) -> (Vec<u8>, Vec<RQCodeFactors>),
    >(self, coding: RQCoding<P, A, E>, data: Seq<u32>, n: usize, d: usize) -> bool {
        &&& coding.lists(data, n) == self.lists(data, n as nat, d)
        &&& coding.codes(data, n).0 == wire::concat(self.codes(data, n as nat, d))
        &&& coding.codes(data, n).1 == self.all_factors(data, n as nat, d)
    }
}

/// The index after `n` vectors have been added.
pub open spec fn with_vectors<
    P: Fn(&Vec<u32>) -> Vec<u32>,
    A: Fn(&Vec<u32>, usize) -> Vec<usize>,
    E: Fn(&Vec<u32>, &Vec<usize>) -> (Vec<u8>, Vec<RQCodeFactors>),
>(m: RqModel, coding: RQCoding<P, A, E>, data: Seq<u32>, ids: Seq<i64>, n: usize) -> RqModel {
    m.with_rows(coding.codes(data, n).0, coding.codes(data, n).1, ids, coding.lists(data, n))
}

proof fn lemma_rows_of_two(data: Seq<u32>, more: Seq<u32>, d: usize, n: nat, k: nat)
    requires
        data.len() == n * d,
        more.len() == k * d,
    ensures
        forall|i: int| 0 <= i < n ==> #[trigger] row_of(data + more, d, i) == row_of(data, d, i),
        forall|i: int|
            0 <= i < k ==> row_of(data + more, d, n + i) == #[trigger] row_of(more, d, i),
{
    assert forall|i: int| 0 <= i < n implies #[trigger] row_of(data + more, d, i) == row_of(
        data,
        d,
        i,
    ) by {
        ivf_lists::lemma_row_bounds(n, d as nat, i);
        assert(row_of(data + more, d, i) =~= row_of(data, d, i));
    }
    assert forall|i: int| 0 <= i < k implies row_of(data + more, d, n + i) == #[trigger] row_of(
        more,
        d,
        i,
    ) by {
        ivf_lists::lemma_row_bounds(k, d as nat, i);
        assert((n + i) * d == n * d + i * d) by (nonlinear_arith);
        assert(row_of(data + more, d, n + i) =~= row_of(more, d, i));
    }
}

proof fn lemma_concat_of_two(a: Seq<Seq<u8>>, b: Seq<Seq<u8>>)
    ensures
        wire::concat(a + b) == wire::concat(a) + wire::concat(b),
    decreases b.len(),
{
    if b.len() == 0 {
        assert(a + b =~= a);
        assert(wire::concat(a) + wire::concat(b) =~= wire::concat(a));
    } else {
        assert((a + b).drop_last() =~= a + b.drop_last());
        lemma_concat_of_two(a, b.drop_last());
        assert(wire::concat(a + b) =~= wire::concat(a) + wire::concat(b));
    }
}

proof fn lemma_concat_of_equals(parts: Seq<Seq<u8>>, width: nat)
    requires
        forall|i: int| 0 <= i < parts.len() ==> (#[trigger] parts[i]).len() == width,
    ensures
        wire::concat(parts).len() == parts.len() * width,
    decreases parts.len(),
{
    if parts.len() > 0 {
        let front = parts.drop_last();
        assert forall|i: int| 0 <= i < front.len() implies (#[trigger] front[i]).len() == width by {
            assert(front[i] == parts[i]);
        }
        lemma_concat_of_equals(front, width);
        assert(parts[parts.len() - 1].len() == width);
        assert((parts.len() - 1) * width + width == parts.len() * width) by (nonlinear_arith);
    }
}

/// Vectors added at once make the same index as vectors added in two parts, where each vector is
/// coded on its own.
pub proof fn adding_vectors_at_once_is_adding_in_parts<
    P: Fn(&Vec<u32>) -> Vec<u32>,
    A: Fn(&Vec<u32>, usize) -> Vec<usize>,
    E: Fn(&Vec<u32>, &Vec<usize>) -> (Vec<u8>, Vec<RQCodeFactors>),
>(
    m: RqModel,
    coding: RQCoding<P, A, E>,
    each: RowByRow,
    data: Seq<u32>,
    ids: Seq<i64>,
    n: usize,
    more: Seq<u32>,
    more_ids: Seq<i64>,
    k: usize,
)
    requires
        n + k <= usize::MAX,
        data.len() == n * m.d,
        more.len() == k * m.d,
        ids.len() == n,
        more_ids.len() == k,
        forall|row: Seq<u32>| (#[trigger] (each.code)(row)).len() == ivfrq::code_bytes(m.d),
        each.codes_rows(coding, data, n, m.d),
        each.codes_rows(coding, more, k, m.d),
        each.codes_rows(coding, data + more, (n + k) as usize, m.d),
    ensures
        with_vectors(m, coding, data + more, ids + more_ids, (n + k) as usize) == with_vectors(
            with_vectors(m, coding, data, ids, n),
            coding,
            more,
            more_ids,
            k,
        ),
{
    let d = m.d;
    let width = ivfrq::code_bytes(d);
    let all = data + more;
    lemma_rows_of_two(data, more, d, n as nat, k as nat);
    let lists = each.lists(data, n as nat, d);
    let more_lists = each.lists(more, k as nat, d);
    let codes = each.codes(data, n as nat, d);
    let more_codes = each.codes(more, k as nat, d);
    assert forall|i: int| n <= i < n + k implies row_of(all, d, i) == row_of(more, d, i - n) by {
        assert(row_of(all, d, n + (i - n)) == row_of(more, d, i - n));
    }
    assert(each.lists(all, (n + k) as nat, d) =~= lists + more_lists);
    assert(each.codes(all, (n + k) as nat, d) =~= codes + more_codes);
    assert(each.all_factors(all, (n + k) as nat, d) =~= each.all_factors(data, n as nat, d)
        + each.all_factors(more, k as nat, d));
    lemma_concat_of_two(codes, more_codes);
    lemma_concat_of_equals(codes, width);
    lemma_concat_of_equals(more_codes, width);
    ivf_lists::adding_at_once_is_adding_in_parts(m.ids, ids, more_ids, 1, lists, more_lists);
    ivf_lists::adding_at_once_is_adding_in_parts(
        m.codes,
        wire::concat(codes),
        wire::concat(more_codes),
        width,
        lists,
        more_lists,
    );
    ivf_lists::adding_at_once_is_adding_in_parts(
        m.factors,
        each.all_factors(data, n as nat, d),
        each.all_factors(more, k as nat, d),
        1,
        lists,
        more_lists,
    );
}

/// Vectors that are added by one call, with their ids.
pub struct Chunk {
    pub data: Seq<u32>,
    pub ids: Seq<i64>,
}

/// The vectors of all chunks, one chunk behind the other.
pub open spec fn chunk_data(chunks: Seq<Chunk>) -> Seq<u32>
    decreases chunks.len(),
{
    if chunks.len() == 0 {
        Seq::empty()
    } else {
        chunk_data(chunks.drop_last()) + chunks.last().data
    }
}

/// The ids of all chunks, one chunk behind the other.
pub open spec fn chunk_ids(chunks: Seq<Chunk>) -> Seq<i64>
    decreases chunks.len(),
{
    if chunks.len() == 0 {
        Seq::empty()
    } else {
        chunk_ids(chunks.drop_last()) + chunks.last().ids
    }
}

/// The index after the chunks have been added, one call after the other.
pub open spec fn with_chunks<
    P: Fn(&Vec<u32>) -> Vec<u32>,
    A: Fn(&Vec<u32>, usize) -> Vec<usize>,
    E: Fn(&Vec<u32>, &Vec<usize>) -> (Vec<u8>, Vec<RQCodeFactors>),
>(m: RqModel, coding: RQCoding<P, A, E>, chunks: Seq<Chunk>) -> RqModel
    decreases chunks.len(),
{
    if chunks.len() == 0 {
        m
    } else {
        let last = chunks.last();
        with_vectors(
            with_chunks(m, coding, chunks.drop_last()),
            coding,
            last.data,
            last.ids,
            last.ids.len() as usize,
        )
    }
}

impl RowByRow {
    /// The first `i` chunks are coded row by row where they are added at once, and so is the chunk
    /// behind them.
    pub open spec fn codes_chunks<
        P: Fn(&Vec<u32>) -> Vec<u32>,
        A: Fn(&Vec<u32>, usize) -> Vec<usize>,
        E: Fn(&Vec<u32>, &Vec<usize>) -> (Vec<u8>, Vec<RQCodeFactors>),
    >(self, coding: RQCoding<P, A, E>, chunks: Seq<Chunk>, i: int, d: usize) -> bool {
        let front = chunks.take(i);
        &&& self.codes_rows(coding, chunk_data(front), chunk_ids(front).len() as usize, d)
        &&& i < chunks.len() ==> self.codes_rows(
            coding,
            chunks[i].data,
            chunks[i].ids.len() as usize,
            d,
        )
    }
}

proof fn lemma_chunk_rows(chunks: Seq<Chunk>, d: usize)
    requires
        forall|i: int|
            0 <= i < chunks.len() ==> (#[trigger] chunks[i]).data.len() == chunks[i].ids.len() * d,
    ensures
        chunk_data(chunks).len() == chunk_ids(chunks).len() * d,
    decreases chunks.len(),
{
    if chunks.len() > 0 {
        let front = chunks.drop_last();
        assert forall|i: int| 0 <= i < front.len() implies (#[trigger] front[i]).data.len()
            == front[i].ids.len() * d by {
            assert(front[i] == chunks[i]);
        }
        lemma_chunk_rows(front, d);
        let last = chunks[chunks.len() - 1];
        let a = chunk_ids(front).len();
        let b = last.ids.len();
        assert(last.data.len() == b * d);
        assert((a + b) * d == a * d + b * d) by (nonlinear_arith);
    }
}

/// Vectors added at once make the same index as vectors added chunk by chunk, however many chunks
/// they come in, where each vector is coded on its own.
pub proof fn adding_at_once_is_adding_chunk_by_chunk<
    P: Fn(&Vec<u32>) -> Vec<u32>,
    A: Fn(&Vec<u32>, usize) -> Vec<usize>,
    E: Fn(&Vec<u32>, &Vec<usize>) -> (Vec<u8>, Vec<RQCodeFactors>),
>(m: RqModel, coding: RQCoding<P, A, E>, each: RowByRow, chunks: Seq<Chunk>)
    requires
        chunk_ids(chunks).len() <= usize::MAX,
        forall|i: int|
            0 <= i < chunks.len() ==> (#[trigger] chunks[i]).data.len() == chunks[i].ids.len()
                * m.d,
        forall|row: Seq<u32>| (#[trigger] (each.code)(row)).len() == ivfrq::code_bytes(m.d),
        forall|i: int|
            0 <= i <= chunks.len() ==> #[trigger] each.codes_chunks(coding, chunks, i, m.d),
    ensures
        with_vectors(
            m,
            coding,
            chunk_data(chunks),
            chunk_ids(chunks),
            chunk_ids(chunks).len() as usize,
        ) == with_chunks(m, coding, chunks),
        with_chunks(m, coding, chunks).d == m.d,
    decreases chunks.len(),
{
    let n = chunks.len();
    assert(each.codes_chunks(coding, chunks, n as int, m.d));
    assert(chunks.take(n as int) =~= chunks);
    if n == 0 {
        let after = with_vectors(m, coding, Seq::empty(), Seq::empty(), 0);
        assert(coding.lists(Seq::empty(), 0).len() == 0);
        assert(after.ids =~~= m.ids);
        assert(after.codes =~~= m.codes);
        assert(after.factors =~~= m.factors);
    } else {
        let front = chunks.drop_last();
        let last = chunks[n - 1];
        assert(front =~= chunks.take(n - 1));
        assert forall|i: int| 0 <= i <= front.len() implies #[trigger] each.codes_chunks(
            coding,
            front,
            i,
            m.d,
        ) by {
            assert(each.codes_chunks(coding, chunks, i, m.d));
            assert(front.take(i) =~= chunks.take(i));
            if i < front.len() {
                assert(front[i] == chunks[i]);
            }
        }
        assert forall|i: int| 0 <= i < front.len() implies (#[trigger] front[i]).data.len()
            == front[i].ids.len() * m.d by {
            assert(front[i] == chunks[i]);
        }
        adding_at_once_is_adding_chunk_by_chunk(m, coding, each, front);
        lemma_chunk_rows(front, m.d);
        assert(each.codes_chunks(coding, chunks, n - 1, m.d));
        assert(last.data.len() == last.ids.len() * m.d);
        adding_vectors_at_once_is_adding_in_parts(
            m,
            coding,
            each,
            chunk_data(front),
            chunk_ids(front),
            chunk_ids(front).len() as usize,
            last.data,
            last.ids,
            last.ids.len() as usize,
        );
    }
}

/// The ids of vectors that are added are those of the lists once more, each in one list, and what
/// was in a list before stays in front.
pub proof fn added_ids_are_kept<
    P: Fn(&Vec<u32>) -> Vec<u32>,
    A: Fn(&Vec<u32>, usize) -> Vec<usize>,
    E: Fn(&Vec<u32>, &Vec<usize>) -> (Vec<u8>, Vec<RQCodeFactors>),
>(m: RqModel, coding: RQCoding<P, A, E>, data: Seq<u32>, ids: Seq<i64>, n: usize)
    requires
        m.well_formed(),
        ids.len() == n,
        coding.lists(data, n).len() == n,
        forall|i: int| 0 <= i < n ==> #[trigger] coding.lists(data, n)[i] < m.nlist,
    ensures
        ivf_lists::held(with_vectors(m, coding, data, ids, n).ids) == ivf_lists::held(m.ids).add(
            ids.to_multiset(),
        ),
        forall|l: int|
            0 <= l < m.nlist ==> #[trigger] m.ids[l].is_prefix_of(
                with_vectors(m, coding, data, ids, n).ids[l],
            ),
        forall|l: int|
            0 <= l < m.nlist ==> #[trigger] m.codes[l].is_prefix_of(
                with_vectors(m, coding, data, ids, n).codes[l],
            ),
        forall|l: int|
            0 <= l < m.nlist ==> #[trigger] m.factors[l].is_prefix_of(
                with_vectors(m, coding, data, ids, n).factors[l],
            ),
{
    ivf_lists::added_items_are_kept(m.ids, ids, coding.lists(data, n));
}

impl IVFRQIndex {
    /// Adds the first `n` vectors with their ids: each is encoded into the list that it goes to.
    pub fn add<
        P: Fn(&Vec<u32>) -> Vec<u32>,
        A: Fn(&Vec<u32>, usize) -> Vec<usize>,
        E: Fn(&Vec<u32>, &Vec<usize>) -> (Vec<u8>, Vec<RQCodeFactors>),
    >(&mut self, data: &Vec<u32>, ids: &Vec<i64>, n: usize, coding: &RQCoding<P, A, E>)
        requires
            old(self)@.well_formed(),
            coding.sound(
                old(self)@.nlist as nat,
                ivfrq::code_bytes(old(self)@.d),
                old(self)@.d,
            ),
            data@.len() >= n * old(self)@.d,
            ids@.len() == n,
        ensures
            final(self)@.well_formed(),
            final(self)@ == with_vectors(
                old(self)@,
                *coding,
                index_train::first_rows(data@, n, old(self)@.d),
                ids@,
                n,
            ),
    {
        assert(data@.len() == data.len());
        let rows: Vec<u32> = cluster_assign::copied(data, 0, n * self.d);
        assert(rows@ =~= index_train::first_rows(data@, n, self@.d));
        let stored: Vec<u32> = (coding.prepare)(&rows);
        let lists: Vec<usize> = (coding.assign)(&stored, n);
        let (codes, factors) = (coding.encode)(&stored, &lists);
        self.append_encoded_rows(&codes, &factors, ids, &lists);
    }
}

} // verus!
