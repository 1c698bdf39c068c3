//! Codes and tables of a product quantizer, from what a chunk of a vector gives with each centroid
//! of the chunk.
use crate::cluster_assign;
use crate::kmeans;
use crate::pq;
use crate::pq::ProductQuantizer;
use crate::vector_math::VectorMath;
use vstd::prelude::*;

verus! {

/// What a function gives for a chunk and so many centroids.
pub open spec fn values_of<F: Fn(&Vec<u32>, &Vec<u32>, usize) -> Vec<u32>>(
    f: F,
    chunk: Seq<u32>,
    centroids: Seq<u32>,
    count: usize,
) -> Seq<u32> {
    let (_, _, found) = choose|x: &Vec<u32>, y: &Vec<u32>, r: Vec<u32>|
        x@ == chunk && y@ == centroids && #[trigger] call_ensures(f, (x, y, count), r);
    found@
}

/// The function gives a value for each centroid, always the same.
pub open spec fn gives_values<F: Fn(&Vec<u32>, &Vec<u32>, usize) -> Vec<u32>>(f: F) -> bool {
    &&& forall|x: &Vec<u32>, y: &Vec<u32>, count: usize|
        y@.len() == count * x@.len() ==> #[trigger] call_requires(f, (x, y, count))
    &&& forall|x: &Vec<u32>, y: &Vec<u32>, count: usize, r: Vec<u32>|
        y@.len() == count * x@.len() && #[trigger] call_ensures(f, (x, y, count), r) ==> r@
            == values_of(f, x@, y@, count) && r@.len() == count
}

impl ProductQuantizer {
    /// What the function gives for a chunk of a vector.
    pub open spec fn chunk_values<F: Fn(&Vec<u32>, &Vec<u32>, usize) -> Vec<u32>>(
        self,
        f: F,
        x: Seq<u32>,
        sub: int,
    ) -> Seq<u32> {
        values_of(
            f,
            x.subrange(self.start(sub), self.start(sub + 1)),
            self.chunk_centroids(sub),
            self.ksub,
        )
    }

    /// A code of a vector: for each chunk the number of the centroid with the least value.
    pub open spec fn is_code<F: Fn(&Vec<u32>, &Vec<u32>, usize) -> Vec<u32>>(
        self,
        f: F,
        x: Seq<u32>,
        code: Seq<u8>,
    ) -> bool {
        &&& code.len() == self.spec_code_size()
        &&& forall|sub: int|
            0 <= sub < self.m ==> kmeans::is_nearest(
                #[trigger] self.chunk_values(f, x, sub),
                pq::code_at(code, self.nbits, sub),
            )
        &&& self.nbits == 4 && self.m % 2 == 1 ==> code.last() < 16
    }

    /// What the function gives for each chunk of a vector.
    fn all_chunk_values<F: Fn(&Vec<u32>, &Vec<u32>, usize) -> Vec<u32>>(
        &self,
        x: &Vec<u32>,
        values: &F,
    ) -> (r: Vec<Vec<u32>>)
        requires
            self.well_formed(),
            self.is_trained(),
            x@.len() == self.d,
            gives_values(*values),
        ensures
            r@.len() == self.m,
            forall|sub: int|
                0 <= sub < self.m ==> (#[trigger] r@[sub])@ == self.chunk_values(*values, x@, sub)
                    && r@[sub]@.len() == self.ksub,
    {
        let mut rows: Vec<Vec<u32>> = Vec::new();
        for sub in 0..self.m
            invariant
                self.well_formed(),
                self.is_trained(),
                x@.len() == self.d,
                gives_values(*values),
                rows@.len() == sub,
                forall|i: int|
                    0 <= i < sub ==> (#[trigger] rows@[i])@ == self.chunk_values(*values, x@, i)
                        && rows@[i]@.len() == self.ksub,
        {
            let (start, stop) = self.chunk_range(sub);
            proof {
                self.lemma_chunk_place(sub as int);
                assert(self.centroids@.len() == self.centroids.len());
            }
            let chunk: Vec<u32> = cluster_assign::copied(x, start, stop);
            let centroids: Vec<u32> = cluster_assign::copied(
                &self.centroids,
                start * self.ksub,
                stop * self.ksub,
            );
            rows.push(values(&chunk, &centroids, self.ksub));
        }
        rows
    }

    /// Codes a vector.
    pub fn encode<F: Fn(&Vec<u32>, &Vec<u32>, usize) -> Vec<u32>>(
        &self,
        x: &Vec<u32>,
        values: &F,
    ) -> (r: Vec<u8>)
        requires
            self.well_formed(),
            self.is_trained(),
            x@.len() == self.d,
            gives_values(*values),
        ensures
            self.is_code(*values, x@, r@),
    {
        let rows: Vec<Vec<u32>> = self.all_chunk_values(x, values);
        let code: Vec<u8> = self.encode_with_distances(&rows);
        proof {
            assert forall|sub: int| 0 <= sub < self.m implies kmeans::is_nearest(
                #[trigger] self.chunk_values(*values, x@, sub),
                pq::code_at(code@, self.nbits, sub),
            ) by {
                assert(rows@[sub]@ == self.chunk_values(*values, x@, sub));
            }
        }
        code
    }

    /// Codes rows, one code behind the other.
    pub fn encode_batch<F: Fn(&Vec<u32>, &Vec<u32>, usize) -> Vec<u32>>(
        &self,
        data: &Vec<u32>,
        n: usize,
        values: &F,
    ) -> (r: Vec<u8>)
        requires
            self.well_formed(),
            self.is_trained(),
            data@.len() >= n * self.d,
            gives_values(*values),
        ensures
            r@.len() == n * self.spec_code_size(),
            forall|i: int|
                0 <= i < n ==> self.is_code(
                    *values,
                    data@.subrange(i * self.d, i * self.d + self.d),
                    #[trigger] r@.subrange(
                        i * self.spec_code_size(),
                        i * self.spec_code_size() + self.spec_code_size(),
                    ),
                ),
    {
        let ghost size = self.spec_code_size();
        let ghost d = self.d as int;
        let mut codes: Vec<u8> = Vec::new();
        assert(0 * size == 0) by (nonlinear_arith);
        for row in 0..n
            invariant
                self.well_formed(),
                self.is_trained(),
                data@.len() >= n * self.d,
                gives_values(*values),
                size == self.spec_code_size(),
                size >= 0,
                d == self.d,
                codes@.len() == row * size,
                forall|i: int|
                    0 <= i < row ==> self.is_code(
                        *values,
                        data@.subrange(i * d, i * d + d),
                        #[trigger] codes@.subrange(i * size, i * size + size),
                    ),
        {
            proof {
                assert(row * d + d <= n * d) by (nonlinear_arith)
                    requires
                        row + 1 <= n,
                        d >= 0,
                ;
                assert(0 <= row * d) by (nonlinear_arith)
                    requires
                        d >= 0,
                ;
                assert(data@.len() == data.len());
            }
            let x: Vec<u32> = cluster_assign::copied(
                data,
                row * self.d,
                row * self.d + self.d,
            );
            let code: Vec<u8> = self.encode(&x, values);
            let ghost before = codes@;
            for j in 0..code.len()
                invariant
                    codes@ =~= before + code@.subrange(0, j as int),
            {
                codes.push(code[j]);
            }
            proof {
                assert(code@.subrange(0, code@.len() as int) =~= code@);
                assert((row + 1) * size == row * size + size) by (nonlinear_arith);
                assert forall|i: int| 0 <= i < row + 1 implies self.is_code(
                    *values,
                    data@.subrange(i * d, i * d + d),
                    #[trigger] codes@.subrange(i * size, i * size + size),
                ) by {
                    if i < row {
                        assert(0 <= i * size && i * size + size <= row * size) by (nonlinear_arith)
                            requires
                                0 <= i,
                                i + 1 <= row,
                                size >= 0,
                        ;
                        assert(codes@.subrange(i * size, i * size + size) =~= before.subrange(
                            i * size,
                            i * size + size,
                        ));
                    } else {
                        assert(codes@.subrange(i * size, i * size + size) =~= code@);
                    }
                }
            }
        }
        codes
    }

    /// The table of a query: what the function gives for each chunk, one row behind the other.
    pub fn compute_distance_table<F: Fn(&Vec<u32>, &Vec<u32>, usize) -> Vec<u32>>(
        &self,
        query: &Vec<u32>,
        values: &F,
    ) -> (r: Vec<u32>)
        requires
            self.well_formed(),
            self.is_trained(),
            query@.len() == self.d,
            gives_values(*values),
        ensures
            r@.len() == self.m * self.ksub,
            forall|sub: int|
                0 <= sub < self.m ==> r@.subrange(sub * self.ksub, sub * self.ksub + self.ksub)
                    == #[trigger] self.chunk_values(*values, query@, sub),
    {
        let rows: Vec<Vec<u32>> = self.all_chunk_values(query, values);
        let ghost k = self.ksub as int;
        let mut table: Vec<u32> = Vec::new();
        assert(0 * k == 0) by (nonlinear_arith);
        for sub in 0..rows.len()
            invariant
                k == self.ksub,
                rows@.len() == self.m,
                forall|i: int|
                    0 <= i < self.m ==> (#[trigger] rows@[i])@ == self.chunk_values(
                        *values,
                        query@,
                        i,
                    ) && rows@[i]@.len() == k,
                table@.len() == sub * k,
                forall|i: int|
                    0 <= i < sub ==> table@.subrange(i * k, i * k + k)
                        == #[trigger] self.chunk_values(*values, query@, i),
        {
            let ghost before = table@;
            assert(rows@[sub as int]@.len() == k);
            let count: usize = rows[sub].len();
            for j in 0..count
                invariant
                    sub < rows@.len(),
                    count == rows@[sub as int]@.len(),
                    table@ =~= before + rows@[sub as int]@.subrange(0, j as int),
            {
                table.push(rows[sub][j]);
            }
            proof {
                assert(rows@[sub as int]@.subrange(0, k) =~= rows@[sub as int]@);
                assert((sub + 1) * k == sub * k + k) by (nonlinear_arith);
                assert forall|i: int| 0 <= i < sub + 1 implies table@.subrange(i * k, i * k + k)
                    == #[trigger] self.chunk_values(*values, query@, i) by {
                    if i < sub {
                        assert(0 <= i * k && i * k + k <= sub * k) by (nonlinear_arith)
                            requires
                                0 <= i,
                                i + 1 <= sub,
                                k >= 0,
                        ;
                        assert(table@.subrange(i * k, i * k + k) =~= before.subrange(
                            i * k,
                            i * k + k,
                        ));
                    } else {
                        assert(table@.subrange(i * k, i * k + k) =~= rows@[i]@);
                    }
                }
            }
        }
        table
    }

    /// The entries of a table that make up the distance to a coded vector.
    pub open spec fn entries(self, table: Seq<u32>, codes: Seq<u8>) -> Seq<u32> {
        Seq::new(
            self.m as nat,
            |sub: int| table[sub * self.ksub + pq::code_at(codes, self.nbits, sub)],
        )
    }

    /// The distance to a coded vector by the table of a query: the sum of its entries.
    pub fn distance_from_table<V: VectorMath>(
        &self,
        table: &[u32],
        codes: &[u8],
        math: &V,
    ) -> (r: u32)
        requires
            math.sound(),
            self.well_formed(),
            table@.len() == self.m * self.ksub,
            codes@.len() >= self.spec_code_size(),
        ensures
            r == cluster_assign::sum_of(math.arithmetic(), self.entries(table@, codes@)),
    {
        let entries: Vec<u32> = self.table_entries(table, codes);
        let mut sum: u32 = 0;
        assert(entries@.subrange(0, 0) =~= Seq::<u32>::empty());
        for i in 0..entries.len()
            invariant
                math.sound(),
                sum == cluster_assign::sum_of(math.arithmetic(), entries@.subrange(0, i as int)),
        {
            assert(entries@.subrange(0, i + 1).drop_last() =~= entries@.subrange(0, i as int));
            sum = math.sum(sum, entries[i]);
        }
        assert(entries@.subrange(0, entries@.len() as int) =~= self.entries(table@, codes@));
        sum
    }
}

} // verus!
