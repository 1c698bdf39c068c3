//! Product quantization: vectors cut into chunks, and each chunk replaced by the number of a
//! centroid.
//!
//! Values and distances are bit patterns of single precision; the distances of a chunk to its
//! centroids are worked out by the caller.
use crate::error::IndexError;
use crate::kmeans;
use vstd::prelude::*;

verus! {

/// How vectors are cut, and the centroids of the chunks. Those of a chunk stand behind each other,
/// chunk after chunk.
pub struct ProductQuantizer {
    pub d: usize,
    pub m: usize,
    pub nbits: usize,
    pub dsub: usize,
    pub ksub: usize,
    pub chunk_offsets: Vec<usize>,
    pub centroids: Vec<u32>,
}

/// What is wrong with a plan of chunks.
pub open spec fn plan_fault(d: usize, nbits: usize, offsets: Seq<usize>) -> Option<IndexError> {
    if d == 0 || !(nbits == 4 || nbits == 8) || offsets.len() < 2 {
        Some(IndexError::PqShape)
    } else if offsets[0] != 0 || offsets.last() != d {
        Some(IndexError::PqChunkBounds)
    } else if !grows(offsets) {
        Some(IndexError::PqChunkOrder)
    } else {
        None
    }
}

/// The number is greater than the one before.
pub open spec fn rises(offsets: Seq<usize>, i: int) -> bool {
    offsets[i - 1] < offsets[i]
}

/// Each number is greater than the one before.
pub open spec fn grows(offsets: Seq<usize>) -> bool {
    forall|i: int| 0 < i < offsets.len() ==> #[trigger] rises(offsets, i)
}

/// The width of the widest of the first chunks.
pub open spec fn widest(offsets: Seq<usize>, upto: int) -> int
    decreases upto,
{
    if upto <= 0 {
        0
    } else {
        let before = widest(offsets, upto - 1);
        let width = offsets[upto] - offsets[upto - 1];
        if width > before {
            width
        } else {
            before
        }
    }
}

/// The number of centroids of a chunk.
pub open spec fn centroids_per_chunk(nbits: usize) -> usize {
    if nbits == 4 {
        16
    } else {
        256
    }
}

/// The ends of chunks that are as wide as each other, except that the first ones have the rest.
pub open spec fn balanced_end(d: int, m: int, i: int) -> int {
    i * (d / m) + (if i <= d % m {
        i
    } else {
        d % m
    })
}

/// The numbers in a code: one for each byte, or two, the lower half of the byte first.
pub open spec fn code_at(codes: Seq<u8>, nbits: usize, sub: int) -> int {
    if nbits == 4 {
        if sub % 2 == 0 {
            codes[sub / 2] as int % 16
        } else {
            codes[sub / 2] as int / 16
        }
    } else {
        codes[sub] as int
    }
}

impl ProductQuantizer {
    /// The chunks are in order and cover the dimensions.
    pub open spec fn has_plan(self) -> bool {
        &&& self.nbits == 4 || self.nbits == 8
        &&& self.ksub == centroids_per_chunk(self.nbits)
        &&& self.m >= 1
        &&& self.chunk_offsets@.len() == self.m + 1
        &&& self.chunk_offsets@[0] == 0
        &&& self.chunk_offsets@[self.m as int] == self.d
        &&& forall|i: int, j: int|
            0 <= i <= j <= self.m ==> #[trigger] self.chunk_offsets@[i]
                <= #[trigger] self.chunk_offsets@[j]
        &&& self.dsub == widest(self.chunk_offsets@, self.m as int)
    }

    /// The chunks are in order and cover the dimensions, and the centroids can be counted.
    pub open spec fn well_formed(self) -> bool {
        self.has_plan() && self.d * self.ksub <= usize::MAX
    }

    /// There is a centroid for every number of every chunk.
    pub open spec fn is_trained(self) -> bool {
        self.centroids@.len() == self.d * self.ksub
    }

    pub open spec fn start(self, sub: int) -> int {
        self.chunk_offsets@[sub] as int
    }

    pub open spec fn width(self, sub: int) -> int {
        self.chunk_offsets@[sub + 1] - self.chunk_offsets@[sub]
    }

    /// A centroid of a chunk.
    pub open spec fn centroid(self, sub: int, code: int) -> Seq<u32> {
        let at = self.start(sub) * self.ksub + code * self.width(sub);
        self.centroids@.subrange(at, at + self.width(sub))
    }

    /// The bytes of a code.
    pub open spec fn spec_code_size(self) -> int {
        if self.nbits == 4 {
            (self.m + 1) / 2
        } else {
            self.m as int
        }
    }

    fn with_validated_chunk_offsets(d: usize, nbits: usize, chunk_offsets: Vec<usize>) -> (r: Self)
        requires
            nbits == 4 || nbits == 8,
            chunk_offsets@.len() >= 2,
            chunk_offsets@[0] == 0,
            chunk_offsets@.last() == d,
            forall|i: int, j: int|
                0 <= i <= j < chunk_offsets@.len() ==> #[trigger] chunk_offsets@[i]
                    <= #[trigger] chunk_offsets@[j],
        ensures
            r.has_plan(),
            d * 256 <= usize::MAX ==> r.well_formed(),
            r.d == d,
            r.nbits == nbits,
            r.m == chunk_offsets@.len() - 1,
            r.chunk_offsets@ == chunk_offsets@,
            r.centroids@.len() == 0,
    {
        let m: usize = chunk_offsets.len() - 1;
        let mut dsub: usize = 0;
        for i in 0..m
            invariant
                m + 1 == chunk_offsets@.len(),
                forall|i: int, j: int|
                    0 <= i <= j < chunk_offsets@.len() ==> #[trigger] chunk_offsets@[i]
                        <= #[trigger] chunk_offsets@[j],
                dsub == widest(chunk_offsets@, i as int),
        {
            assert(chunk_offsets@[i as int] <= chunk_offsets@[i + 1]);
            let width: usize = chunk_offsets[i + 1] - chunk_offsets[i];
            if width > dsub {
                dsub = width;
            }
        }
        let ksub: usize = if nbits == 4 {
            16
        } else {
            256
        };
        ProductQuantizer { d, m, nbits, dsub, ksub, chunk_offsets, centroids: Vec::new() }
    }

    pub fn new(d: usize, m: usize) -> (r: Self)
        requires
            m >= 1,
            d % m == 0,
        ensures
            r.has_plan(),
            d * 256 <= usize::MAX ==> r.well_formed(),
            r.d == d,
            r.m == m,
            r.nbits == 8,
            r.centroids@.len() == 0,
            forall|i: int| 0 <= i <= m ==> #[trigger] r.chunk_offsets@[i] == i * (d / m),
    {
        Self::with_nbits(d, m, 8)
    }

    /// Chunks that are as wide as each other.
    pub fn with_nbits(d: usize, m: usize, nbits: usize) -> (r: Self)
        requires
            m >= 1,
            d % m == 0,
            nbits == 4 || nbits == 8,
        ensures
            r.has_plan(),
            d * 256 <= usize::MAX ==> r.well_formed(),
            r.d == d,
            r.m == m,
            r.nbits == nbits,
            r.centroids@.len() == 0,
            forall|i: int| 0 <= i <= m ==> #[trigger] r.chunk_offsets@[i] == i * (d / m),
    {
        let dsub: usize = d / m;
        proof {
            vstd::arithmetic::div_mod::lemma_fundamental_div_mod(d as int, m as int);
            assert(m * dsub == d);
        }
        let mut chunk_offsets: Vec<usize> = Vec::new();
        let mut next: usize = 0;
        chunk_offsets.push(0);
        assert(0 * dsub == 0) by (nonlinear_arith);
        for i in 0..m
            invariant
                dsub == d / m,
                m * dsub == d,
                next == i * dsub,
                chunk_offsets@.len() == i + 1,
                forall|k: int| 0 <= k <= i ==> #[trigger] chunk_offsets@[k] == k * dsub,
        {
            proof {
                assert((i + 1) * dsub == i * dsub + dsub) by (nonlinear_arith);
                assert((i + 1) * dsub <= m * dsub) by (nonlinear_arith)
                    requires
                        i + 1 <= m,
                        dsub >= 0,
                ;
            }
            next = next + dsub;
            chunk_offsets.push(next);
        }
        proof {
            assert forall|i: int, j: int| 0 <= i <= j < chunk_offsets@.len() implies
                #[trigger] chunk_offsets@[i] <= #[trigger] chunk_offsets@[j] by {
                assert(i * dsub <= j * dsub) by (nonlinear_arith)
                    requires
                        i <= j,
                        dsub >= 0,
                ;
            }
        }
        Self::with_validated_chunk_offsets(d, nbits, chunk_offsets)
    }

    /// Chunks whose widths differ by at most one: the first ones are the wider ones.
    pub fn with_nbits_balanced(d: usize, m: usize, nbits: usize) -> (r: Self)
        requires
            1 <= m <= d,
            nbits == 4 || nbits == 8,
        ensures
            r.has_plan(),
            d * 256 <= usize::MAX ==> r.well_formed(),
            r.d == d,
            r.m == m,
            r.nbits == nbits,
            r.centroids@.len() == 0,
            forall|i: int|
                0 <= i <= m ==> #[trigger] r.chunk_offsets@[i] == balanced_end(
                    d as int,
                    m as int,
                    i,
                ),
    {
        let base: usize = d / m;
        let remainder: usize = d % m;
        let mut chunk_offsets: Vec<usize> = Vec::new();
        chunk_offsets.push(0);
        let mut offset: usize = 0;
        proof {
            vstd::arithmetic::div_mod::lemma_fundamental_div_mod(d as int, m as int);
            assert(0 * base == 0) by (nonlinear_arith);
        }
        for chunk in 0..m
            invariant
                1 <= m <= d,
                base == d / m,
                remainder == d % m,
                m * base + remainder == d,
                chunk_offsets@.len() == chunk + 1,
                offset == balanced_end(d as int, m as int, chunk as int),
                forall|k: int|
                    0 <= k <= chunk ==> #[trigger] chunk_offsets@[k] == balanced_end(
                        d as int,
                        m as int,
                        k,
                    ),
        {
            proof {
                lemma_balanced(d as int, m as int, chunk as int, m as int);
                lemma_balanced(d as int, m as int, chunk + 1, m as int);
            }
            offset = offset + base;
            if chunk < remainder {
                offset = offset + 1;
            }
            chunk_offsets.push(offset);
        }
        proof {
            assert forall|i: int, j: int| 0 <= i <= j < chunk_offsets@.len() implies
                #[trigger] chunk_offsets@[i] <= #[trigger] chunk_offsets@[j] by {
                lemma_balanced(d as int, m as int, i, j);
            }
            lemma_balanced(d as int, m as int, 0, m as int);
        }
        Self::with_validated_chunk_offsets(d, nbits, chunk_offsets)
    }

    /// A stored plan of chunks.
    pub fn try_with_chunk_offsets(d: usize, nbits: usize, chunk_offsets: Vec<usize>) -> (r: Result<
        Self,
        IndexError,
    >)
        ensures
            match plan_fault(d, nbits, chunk_offsets@) {
                Some(e) => r == Err::<ProductQuantizer, IndexError>(e),
                None => r matches Ok(pq) && pq.has_plan() && (d * 256 <= usize::MAX
                    ==> pq.well_formed()) && pq.d == d && pq.nbits == nbits && pq.chunk_offsets@
                    == chunk_offsets@ && pq.centroids@.len() == 0,
            },
    {
        let n: usize = chunk_offsets.len();
        if d == 0 || !(nbits == 4 || nbits == 8) || n < 2 {
            return Err(IndexError::PqShape);
        }
        if chunk_offsets[0] != 0 || chunk_offsets[n - 1] != d {
            return Err(IndexError::PqChunkBounds);
        }
        for i in 1..n
            invariant
                n == chunk_offsets@.len(),
                d > 0,
                nbits == 4 || nbits == 8,
                n >= 2,
                chunk_offsets@[0] == 0,
                chunk_offsets@.last() == d,
                forall|k: int| 0 < k < i ==> #[trigger] rises(chunk_offsets@, k),
        {
            if chunk_offsets[i - 1] >= chunk_offsets[i] {
                assert(!rises(chunk_offsets@, i as int));
                return Err(IndexError::PqChunkOrder);
            }
        }
        proof {
            assert forall|i: int, j: int| 0 <= i <= j < chunk_offsets@.len() implies
                #[trigger] chunk_offsets@[i] <= #[trigger] chunk_offsets@[j] by {
                lemma_grows(chunk_offsets@, i, j);
            }
        }
        Ok(Self::with_validated_chunk_offsets(d, nbits, chunk_offsets))
    }

    /// The dimensions of a chunk: the first, and the first behind it.
    pub fn chunk_range(&self, sub: usize) -> (r: (usize, usize))
        requires
            self.has_plan(),
            sub < self.m,
        ensures
            r.0 == self.start(sub as int),
            r.1 == self.start(sub + 1),
            r.0 <= r.1 <= self.d,
    {
        proof {
            assert(self.chunk_offsets@.len() == self.chunk_offsets.len());
            assert(self.chunk_offsets@[sub as int] <= self.chunk_offsets@[sub + 1]);
            assert(self.chunk_offsets@[sub + 1] <= self.chunk_offsets@[self.m as int]);
        }
        (self.chunk_offsets[sub], self.chunk_offsets[sub + 1])
    }

    pub fn chunk_dim(&self, sub: usize) -> (r: usize)
        requires
            self.has_plan(),
            sub < self.m,
        ensures
            r == self.width(sub as int),
    {
        let (start, stop) = self.chunk_range(sub);
        stop - start
    }

    /// Where the centroids of a chunk begin.
    pub fn centroid_chunk_base(&self, sub: usize) -> (r: usize)
        requires
            self.well_formed(),
            sub < self.m,
        ensures
            r == self.start(sub as int) * self.ksub,
    {
        let (start, stop) = self.chunk_range(sub);
        proof {
            let k = self.ksub as int;
            let d = self.d as int;
            assert(start * k <= d * k) by (nonlinear_arith)
                requires
                    start <= d,
                    k >= 0,
            ;
        }
        start * self.ksub
    }

    /// Tells whether the parts of the quantizer agree with each other.
    pub fn has_valid_layout(&self) -> (r: bool)
        requires
            self.d * self.ksub <= usize::MAX,
        ensures
            r == (plan_fault(self.d, self.nbits, self.chunk_offsets@) is None && self.m
                == self.chunk_offsets@.len() - 1 && self.dsub == widest(
                self.chunk_offsets@,
                self.chunk_offsets@.len() - 1,
            ) && self.ksub == centroids_per_chunk(self.nbits) && self.centroids@.len() == self.d
                * centroids_per_chunk(self.nbits)),
    {
        let mut offsets: Vec<usize> = Vec::new();
        for i in 0..self.chunk_offsets.len()
            invariant
                offsets@ =~= self.chunk_offsets@.subrange(0, i as int),
        {
            offsets.push(self.chunk_offsets[i]);
        }
        assert(offsets@ =~= self.chunk_offsets@);
        match Self::try_with_chunk_offsets(self.d, self.nbits, offsets) {
            Ok(layout) => layout.m == self.m && layout.dsub == self.dsub && layout.ksub == self.ksub
                && self.centroids.len() == self.d * layout.ksub,
            Err(_) => false,
        }
    }

    /// The bytes of a code.
    pub fn code_size(&self) -> (r: usize)
        requires
            self.has_plan(),
        ensures
            r == self.spec_code_size(),
    {
        assert(self.chunk_offsets@.len() == self.chunk_offsets.len());
        if self.nbits == 4 {
            (self.m + 1) / 2
        } else {
            self.m
        }
    }

    /// Codes a vector: for each chunk, given its distances to its centroids, the number of the
    /// nearest. Behind the last number of an odd count of halves stands a zero.
    pub fn encode_with_distances(&self, distances: &Vec<Vec<u32>>) -> (r: Vec<u8>)
        requires
            self.has_plan(),
            distances@.len() == self.m,
            forall|i: int| 0 <= i < self.m ==> (#[trigger] distances@[i])@.len() == self.ksub,
        ensures
            r@.len() == self.spec_code_size(),
            forall|sub: int|
                0 <= sub < self.m ==> kmeans::is_nearest(
                    (#[trigger] distances@[sub])@,
                    code_at(r@, self.nbits, sub),
                ),
            self.nbits == 4 && self.m % 2 == 1 ==> r@.last() < 16,
    {
        let size: usize = self.code_size();
        let mut codes: Vec<u8> = Vec::new();
        if self.nbits == 4 {
            for pair in 0..size
                invariant
                    self.has_plan(),
                    self.nbits == 4,
                    size == (self.m + 1) / 2,
                    distances@.len() == self.m,
                    forall|i: int|
                        0 <= i < self.m ==> (#[trigger] distances@[i])@.len() == self.ksub,
                    codes@.len() == pair,
                    forall|sub: int|
                        0 <= sub < self.m && sub < 2 * pair ==> kmeans::is_nearest(
                            (#[trigger] distances@[sub])@,
                            code_at(codes@, self.nbits, sub),
                        ),
                    2 * pair > self.m ==> codes@[pair - 1] < 16,
            {
                let ghost before = codes@;
                let low: usize = kmeans::find_nearest(&distances[pair * 2]);
                let high: usize = if pair * 2 + 1 < self.m {
                    kmeans::find_nearest(&distances[pair * 2 + 1])
                } else {
                    0
                };
                proof {
                    assert(distances@[pair * 2]@.len() == 16);
                    lemma_nearest_in(distances@[pair * 2]@, low as int);
                    if pair * 2 + 1 < self.m {
                        assert(distances@[pair * 2 + 1]@.len() == 16);
                        lemma_nearest_in(distances@[pair * 2 + 1]@, high as int);
                    }
                }
                codes.push((low + high * 16) as u8);
                proof {
                    assert forall|sub: int| 0 <= sub < self.m && sub < 2 * (pair + 1) implies
                        kmeans::is_nearest(
                        (#[trigger] distances@[sub])@,
                        code_at(codes@, self.nbits, sub),
                    ) by {
                        if sub < 2 * pair {
                            assert(codes@[sub / 2] == before[sub / 2]);
                        } else if sub == 2 * pair {
                            assert(sub / 2 == pair);
                            assert((low + high * 16) % 16 == low);
                        } else {
                            assert(sub / 2 == pair);
                            assert((low + high * 16) / 16 == high);
                        }
                    }
                }
            }
        } else {
            for sub in 0..size
                invariant
                    self.has_plan(),
                    self.nbits == 8,
                    size == self.m,
                    distances@.len() == self.m,
                    forall|i: int|
                        0 <= i < self.m ==> (#[trigger] distances@[i])@.len() == self.ksub,
                    codes@.len() == sub,
                    forall|k: int|
                        0 <= k < sub ==> kmeans::is_nearest(
                            (#[trigger] distances@[k])@,
                            code_at(codes@, self.nbits, k),
                        ),
            {
                let ghost before = codes@;
                let best: usize = kmeans::find_nearest(&distances[sub]);
                proof {
                    assert(distances@[sub as int]@.len() == 256);
                    lemma_nearest_in(distances@[sub as int]@, best as int);
                }
                codes.push(best as u8);
                proof {
                    assert forall|k: int| 0 <= k < sub + 1 implies kmeans::is_nearest(
                        (#[trigger] distances@[k])@,
                        code_at(codes@, self.nbits, k),
                    ) by {
                        if k < sub {
                            assert(codes@[k] == before[k]);
                        }
                    }
                }
            }
        }
        codes
    }

    /// The number of a chunk in a code.
    pub fn code_of(&self, codes: &[u8], sub: usize) -> (r: usize)
        requires
            self.has_plan(),
            codes@.len() >= self.spec_code_size(),
            sub < self.m,
        ensures
            r == code_at(codes@, self.nbits, sub as int),
            r < self.ksub,
    {
        if self.nbits == 4 {
            let byte: usize = codes[sub / 2] as usize;
            if sub % 2 == 0 {
                byte % 16
            } else {
                byte / 16
            }
        } else {
            codes[sub] as usize
        }
    }

    /// Decodes a vector: each chunk is the centroid with its number.
    pub fn decode(&self, codes: &[u8]) -> (r: Vec<u32>)
        requires
            self.well_formed(),
            self.is_trained(),
            codes@.len() >= self.spec_code_size(),
        ensures
            r@.len() == self.d,
            forall|sub: int|
                #![trigger self.start(sub)]
                0 <= sub < self.m ==> r@.subrange(self.start(sub), self.start(sub + 1))
                    == self.centroid(sub, code_at(codes@, self.nbits, sub)),
    {
        let mut x: Vec<u32> = Vec::new();
        for sub in 0..self.m
            invariant
                self.well_formed(),
                self.is_trained(),
                codes@.len() >= self.spec_code_size(),
                x@.len() == self.start(sub as int),
                forall|k: int|
                    #![trigger self.start(k)]
                    0 <= k < sub ==> x@.subrange(self.start(k), self.start(k + 1))
                        == self.centroid(k, code_at(codes@, self.nbits, k)),
        {
            let ghost before = x@;
            let code: usize = self.code_of(codes, sub);
            let (start, stop) = self.chunk_range(sub);
            let width: usize = stop - start;
            let base: usize = self.centroid_chunk_base(sub);
            proof {
                self.lemma_centroid_fits(sub as int, code as int);
            }
            let at: usize = base + code * width;
            for j in 0..width
                invariant
                    at + width <= self.centroids@.len() <= usize::MAX,
                    x@ =~= before + self.centroids@.subrange(at as int, at + j),
            {
                x.push(self.centroids[at + j]);
            }
            proof {
                assert forall|k: int|
                    #![trigger self.start(k)]
                    0 <= k < sub + 1 implies x@.subrange(self.start(k), self.start(k + 1))
                    == self.centroid(k, code_at(codes@, self.nbits, k)) by {
                    if k < sub {
                        assert(self.chunk_offsets@[k] <= self.chunk_offsets@[k + 1]);
                        assert(self.chunk_offsets@[k + 1] <= self.chunk_offsets@[sub as int]);
                        assert(x@.subrange(self.start(k), self.start(k + 1)) =~= before.subrange(
                            self.start(k),
                            self.start(k + 1),
                        ));
                    } else {
                        assert(x@.subrange(self.start(k), self.start(k + 1)) =~= self.centroid(
                            k,
                            code_at(codes@, self.nbits, k),
                        ));
                    }
                }
            }
        }
        x
    }

    proof fn lemma_centroid_fits(self, sub: int, code: int)
        requires
            self.well_formed(),
            self.is_trained(),
            0 <= sub < self.m,
            0 <= code < self.ksub,
        ensures
            0 <= code * self.width(sub),
            0 <= self.start(sub) * self.ksub,
            self.start(sub) * self.ksub + code * self.width(sub) + self.width(sub)
                <= self.centroids@.len(),
    {
        assert(self.chunk_offsets@[sub] <= self.chunk_offsets@[sub + 1]);
        assert(self.chunk_offsets@[sub + 1] <= self.chunk_offsets@[self.m as int]);
        let s = self.start(sub);
        let w = self.width(sub);
        let k = self.ksub as int;
        let d = self.d as int;
        assert(s * k + code * w + w <= d * k) by (nonlinear_arith)
            requires
                s + w <= d,
                code + 1 <= k,
                w >= 0,
                k >= 0,
        ;
        assert(0 <= code * w) by (nonlinear_arith)
            requires
                code >= 0,
                w >= 0,
        ;
        assert(0 <= s * k) by (nonlinear_arith)
            requires
                s >= 0,
                k >= 0,
        ;
    }

    /// The entries of a table of distances, a row of them for each chunk, that make up the distance
    /// to a coded vector.
    pub fn table_entries(&self, table: &[u32], codes: &[u8]) -> (r: Vec<u32>)
        requires
            self.well_formed(),
            table@.len() == self.m * self.ksub,
            codes@.len() >= self.spec_code_size(),
        ensures
            r@.len() == self.m,
            forall|sub: int|
                0 <= sub < self.m ==> #[trigger] r@[sub] == table@[sub * self.ksub + code_at(
                    codes@,
                    self.nbits,
                    sub,
                )],
    {
        let mut entries: Vec<u32> = Vec::new();
        for sub in 0..self.m
            invariant
                self.well_formed(),
                table@.len() == self.m * self.ksub,
                codes@.len() >= self.spec_code_size(),
                entries@.len() == sub,
                forall|k: int|
                    0 <= k < sub ==> #[trigger] entries@[k] == table@[k * self.ksub + code_at(
                        codes@,
                        self.nbits,
                        k,
                    )],
        {
            let code: usize = self.code_of(codes, sub);
            proof {
                let k = self.ksub as int;
                let m = self.m as int;
                assert(sub * k + k <= m * k) by (nonlinear_arith)
                    requires
                        sub + 1 <= m,
                        k >= 0,
                ;
                assert(0 <= sub * k) by (nonlinear_arith)
                    requires
                        k >= 0,
                ;
                assert(table@.len() == table.len());
            }
            entries.push(table[sub * self.ksub + code]);
        }
        entries
    }

    /// The values of one chunk of every row, as its centroids are trained on.
    pub fn chunk_columns<T: Copy>(&self, data: &Vec<T>, n: usize, sub: usize) -> (r: Vec<T>)
        requires
            self.has_plan(),
            data@.len() >= n * self.d,
            sub < self.m,
        ensures
            r@ == columns(
                data@,
                self.d as int,
                self.start(sub as int),
                self.start(sub + 1),
                n as int,
            ),
    {
        let (start, stop) = self.chunk_range(sub);
        let d: usize = self.d;
        let mut r: Vec<T> = Vec::new();
        for i in 0..n
            invariant
                start <= stop <= d,
                data@.len() >= n * d,
                r@ == columns(data@, d as int, start as int, stop as int, i as int),
        {
            let ghost before = r@;
            proof {
                assert(i * d + d <= n * d) by (nonlinear_arith)
                    requires
                        i + 1 <= n,
                        d >= 0,
                ;
                assert(0 <= i * d) by (nonlinear_arith)
                    requires
                        d >= 0,
                ;
                assert(data@.len() == data.len());
            }
            let row: usize = i * d;
            for j in start..stop
                invariant
                    start <= stop <= d,
                    row == i * d,
                    row + d <= data@.len() <= usize::MAX,
                    r@ =~= before + data@.subrange(row + start, row + j),
            {
                r.push(data[row + j]);
            }
        }
        r
    }

    /// Takes over the centroids of all chunks.
    pub fn set_centroids(&mut self, chunks: &Vec<Vec<u32>>)
        requires
            old(self).well_formed(),
            chunks@.len() == old(self).m,
            forall|i: int|
                0 <= i < chunks@.len() ==> (#[trigger] chunks@[i])@.len() == old(self).width(i)
                    * old(self).ksub,
        ensures
            final(self).well_formed(),
            final(self).is_trained(),
            final(self).d == old(self).d,
            final(self).m == old(self).m,
            final(self).nbits == old(self).nbits,
            final(self).chunk_offsets@ == old(self).chunk_offsets@,
            forall|i: int|
                0 <= i < chunks@.len() ==> final(self).centroids@.subrange(
                    old(self).start(i) * old(self).ksub,
                    old(self).start(i + 1) * old(self).ksub,
                ) == (#[trigger] chunks@[i])@,
    {
        let ghost was = *self;
        let mut all: Vec<u32> = Vec::new();
        let ksub: usize = self.ksub;
        let ghost k = ksub as int;
        assert(0 * k == 0) by (nonlinear_arith);
        for sub in 0..chunks.len()
            invariant
                was.well_formed(),
                *self == was,
                k == was.ksub,
                chunks@.len() == was.m,
                forall|i: int|
                    0 <= i < chunks@.len() ==> (#[trigger] chunks@[i])@.len() == was.width(i)
                        * was.ksub,
                all@.len() == was.start(sub as int) * k,
                forall|i: int|
                    0 <= i < sub ==> all@.subrange(was.start(i) * k, was.start(i + 1) * k) == (
                    #[trigger] chunks@[i])@,
        {
            let ghost before = all@;
            let n: usize = chunks[sub].len();
            for j in 0..n
                invariant
                    sub < chunks@.len(),
                    n == chunks@[sub as int]@.len(),
                    all@ =~= before + chunks@[sub as int]@.subrange(0, j as int),
            {
                all.push(chunks[sub][j]);
            }
            proof {
                let s = was.start(sub as int);
                let w = was.width(sub as int);
                assert(was.chunk_offsets@[sub as int] <= was.chunk_offsets@[sub + 1]);
                assert((s + w) * k == s * k + w * k) by (nonlinear_arith);
                assert(chunks@[sub as int]@.subrange(0, n as int) =~= chunks@[sub as int]@);
                assert forall|i: int| 0 <= i < sub + 1 implies all@.subrange(
                    was.start(i) * k,
                    was.start(i + 1) * k,
                ) == (#[trigger] chunks@[i])@ by {
                    if i < sub {
                        let a = was.start(i);
                        let b = was.start(i + 1);
                        assert(was.chunk_offsets@[i] <= was.chunk_offsets@[i + 1]);
                        assert(was.chunk_offsets@[i + 1] <= was.chunk_offsets@[sub as int]);
                        assert(0 <= a * k <= b * k <= s * k) by (nonlinear_arith)
                            requires
                                0 <= a <= b <= s,
                                k >= 0,
                        ;
                        assert(all@.subrange(a * k, b * k) =~= before.subrange(a * k, b * k));
                    } else {
                        assert(all@.subrange(s * k, (s + w) * k) =~= chunks@[sub as int]@);
                    }
                }
            }
        }
        self.centroids = all;
    }
}

/// The values of some columns of the first rows, one row behind the other.
pub open spec fn columns<T>(data: Seq<T>, d: int, start: int, stop: int, n: int) -> Seq<T>
    decreases n,
{
    if n <= 0 {
        Seq::empty()
    } else {
        columns(data, d, start, stop, n - 1) + data.subrange(
            (n - 1) * d + start,
            (n - 1) * d + stop,
        )
    }
}

proof fn lemma_grows(offsets: Seq<usize>, i: int, j: int)
    requires
        grows(offsets),
        0 <= i <= j < offsets.len(),
    ensures
        offsets[i] <= offsets[j],
    decreases j - i,
{
    if i < j {
        lemma_grows(offsets, i, j - 1);
        assert(rises(offsets, j));
    }
}

proof fn lemma_nearest_in(dists: Seq<u32>, at: int)
    requires
        kmeans::is_nearest(dists, at),
        dists.len() > 0,
    ensures
        0 <= at < dists.len(),
{
}

proof fn lemma_balanced(d: int, m: int, i: int, j: int)
    requires
        1 <= m <= d,
        0 <= i <= j <= m,
    ensures
        0 <= balanced_end(d, m, i) <= balanced_end(d, m, j) <= d,
        balanced_end(d, m, 0) == 0,
        balanced_end(d, m, m) == d,
        i < m ==> balanced_end(d, m, i + 1) == balanced_end(d, m, i) + d / m + (if i < d % m {
            1int
        } else {
            0int
        }),
{
    let base = d / m;
    let rem = d % m;
    vstd::arithmetic::div_mod::lemma_fundamental_div_mod(d, m);
    assert(base >= 1) by (nonlinear_arith)
        requires
            d == m * base + rem,
            rem < m,
            m <= d,
            m >= 1,
    ;
    assert(0 <= i * base <= j * base <= m * base) by (nonlinear_arith)
        requires
            0 <= i <= j <= m,
            base >= 1,
    ;
    assert((i + 1) * base == i * base + base) by (nonlinear_arith);
    assert(0 * base == 0) by (nonlinear_arith);
}

/// The widths of balanced chunks differ by at most one, no chunk is empty, and together they are all
/// dimensions.
pub proof fn balanced_chunks_are_even(d: int, m: int, i: int, j: int)
    requires
        1 <= m <= d,
        0 <= i < m,
        0 <= j < m,
    ensures
        ({
            let a = balanced_end(d, m, i + 1) - balanced_end(d, m, i);
            let b = balanced_end(d, m, j + 1) - balanced_end(d, m, j);
            1 <= a && a - b <= 1 && (i <= j ==> a >= b)
        }),
        balanced_end(d, m, 0) == 0,
        balanced_end(d, m, m) == d,
{
    lemma_balanced(d, m, i, m);
    lemma_balanced(d, m, j, m);
    vstd::arithmetic::div_mod::lemma_fundamental_div_mod(d, m);
    let base = d / m;
    let rem = d % m;
    assert(base >= 1) by (nonlinear_arith)
        requires
            d == m * base + rem,
            rem < m,
            m <= d,
            m >= 1,
    ;
}

} // verus!
