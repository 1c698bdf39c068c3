//! Many clusters from few: the largest cluster is split in two until there are enough.
//!
//! The splitting itself, k-means with two centroids, is done by the caller, who is told which rows to
//! split and hands back the two centroids and the side of each row.
use crate::ivf_lists;
use vstd::prelude::*;

verus! {

/// The number of clusters to begin with.
pub const INITIAL_CLUSTERS: usize = 16;

/// A cluster with fewer rows than this is not split.
pub const MIN_SPLIT_ROWS: usize = 4;

/// The number of clusters to begin with when so many are wanted.
pub fn initial_clusters(target_k: usize) -> (r: usize)
    ensures
        target_k >= INITIAL_CLUSTERS ==> r == INITIAL_CLUSTERS,
        target_k < INITIAL_CLUSTERS ==> r == target_k,
{
    if target_k < INITIAL_CLUSTERS {
        target_k
    } else {
        INITIAL_CLUSTERS
    }
}

/// A cluster that may still be split: its centroid and its rows.
pub struct Cluster {
    pub centroid: Vec<u32>,
    pub indices: Vec<usize>,
}

#[verifier::ext_equal]
pub struct ClusterModel {
    pub centroid: Seq<u32>,
    pub indices: Seq<usize>,
}

impl View for Cluster {
    type V = ClusterModel;

    open spec fn view(&self) -> ClusterModel {
        ClusterModel { centroid: self.centroid@, indices: self.indices@ }
    }
}

/// Clusters on their way to be enough.
pub struct ClusterSplitter {
    pub d: usize,
    pub target_k: usize,
    pub seed: u64,
    pub heap: Vec<Cluster>,
    pub finalized: Vec<Vec<u32>>,
    pub splitting: Option<Cluster>,
}

/// What a splitter knows: the clusters that may still be split, the centroids of those that are too
/// small, and the cluster that is being split.
#[verifier::ext_equal]
pub struct SplitModel {
    pub heap: Seq<ClusterModel>,
    pub finalized: Seq<Seq<u32>>,
    pub splitting: Option<ClusterModel>,
}

pub open spec fn cluster_views(v: Seq<Cluster>) -> Seq<ClusterModel> {
    Seq::new(v.len(), |i: int| v[i]@)
}

impl View for ClusterSplitter {
    type V = SplitModel;

    open spec fn view(&self) -> SplitModel {
        SplitModel {
            heap: cluster_views(self.heap@),
            finalized: ivf_lists::value_lists(self.finalized@),
            splitting: match self.splitting {
                Some(cluster) => Some(cluster@),
                None => None,
            },
        }
    }
}

/// What is to be done next.
pub enum SplitStep {
    /// There are enough clusters, or none that could be split.
    Done,
    /// These rows are to be split in two, with this seed.
    Split { indices: Vec<usize>, seed: u64 },
}

/// The place of the cluster with the most rows, the first of several.
pub open spec fn largest_at(heap: Seq<ClusterModel>, upto: int) -> int
    decreases upto,
{
    if upto <= 1 {
        0
    } else {
        let before = largest_at(heap, upto - 1);
        if heap[upto - 1].indices.len() > heap[before].indices.len() {
            upto - 1
        } else {
            before
        }
    }
}

/// The place of the cluster with the most rows.
pub open spec fn largest(heap: Seq<ClusterModel>) -> int {
    largest_at(heap, heap.len() as int)
}

/// The next cluster is looked for: as long as there are too few, the largest is taken out. If it has
/// enough rows, it is the one to be split; if not, its centroid is final.
pub open spec fn advanced(state: SplitModel, target_k: int) -> SplitModel
    decreases state.heap.len(),
{
    if state.finalized.len() + state.heap.len() >= target_k || state.heap.len() == 0 {
        state
    } else {
        let at = largest(state.heap);
        if !(0 <= at < state.heap.len()) {
            state
        } else {
            let rest = state.heap.remove(at);
            if state.heap[at].indices.len() < MIN_SPLIT_ROWS {
                advanced(
                    SplitModel {
                        heap: rest,
                        finalized: state.finalized.push(state.heap[at].centroid),
                        splitting: state.splitting,
                    },
                    target_k,
                )
            } else {
                SplitModel {
                    heap: rest,
                    finalized: state.finalized,
                    splitting: Some(state.heap[at]),
                }
            }
        }
    }
}

/// One side of a split cluster.
pub open spec fn side(
    cluster: ClusterModel,
    centroids: Seq<u32>,
    d: nat,
    sides: Seq<usize>,
    s: usize,
) -> ClusterModel {
    ClusterModel {
        centroid: ivf_lists::row(centroids, d, s as int),
        indices: Seq::new(
            ivf_lists::rows_for(sides, s).len(),
            |i: int| cluster.indices[ivf_lists::rows_for(sides, s)[i] as int],
        ),
    }
}

/// The clusters with one more, unless it is empty.
pub open spec fn with_cluster(heap: Seq<ClusterModel>, cluster: ClusterModel) -> Seq<ClusterModel> {
    if cluster.indices.len() > 0 {
        heap.push(cluster)
    } else {
        heap
    }
}

/// The clusters by the centroids to begin with.
pub open spec fn initial_heap(centroids: Seq<u32>, d: nat, assignments: Seq<usize>, k: nat) -> Seq<
    ClusterModel,
> {
    Seq::new(
        k,
        |c: int|
            ClusterModel {
                centroid: ivf_lists::row(centroids, d, c),
                indices: ivf_lists::rows_for(assignments, c as usize),
            },
    )
}

/// The centroids of the clusters, those with the most rows first.
pub open spec fn drained(heap: Seq<ClusterModel>) -> Seq<u32>
    decreases heap.len(),
{
    if heap.len() == 0 {
        Seq::empty()
    } else {
        let at = largest(heap);
        if !(0 <= at < heap.len()) {
            Seq::empty()
        } else {
            heap[at].centroid + drained(heap.remove(at))
        }
    }
}

/// The lists, one behind the other.
pub open spec fn flattened(lists: Seq<Seq<u32>>) -> Seq<u32>
    decreases lists.len(),
{
    if lists.len() == 0 {
        Seq::empty()
    } else {
        flattened(lists.drop_last()) + lists.last()
    }
}

/// Zeros, so many.
pub open spec fn zeros(n: int) -> Seq<u32> {
    Seq::new(n as nat, |i: int| 0u32)
}

/// The centroids in the end: the final ones, those of the clusters that were left, and zeros where
/// there are too few.
pub open spec fn collected(state: SplitModel, target_k: nat, d: nat) -> Seq<u32> {
    let found = flattened(state.finalized) + drained(state.heap);
    found + zeros(target_k * d - found.len())
}

proof fn lemma_largest(heap: Seq<ClusterModel>, upto: int)
    requires
        1 <= upto <= heap.len(),
    ensures
        0 <= largest_at(heap, upto) < upto,
        forall|i: int|
            0 <= i < upto ==> (#[trigger] heap[i]).indices.len() <= heap[largest_at(
                heap,
                upto,
            )].indices.len(),
    decreases upto,
{
    if upto > 1 {
        lemma_largest(heap, upto - 1);
    }
}

/// The cluster that is taken out has the most rows.
pub proof fn largest_has_most_rows(heap: Seq<ClusterModel>, i: int)
    requires
        0 <= i < heap.len(),
    ensures
        0 <= largest(heap) < heap.len(),
        heap[i].indices.len() <= heap[largest(heap)].indices.len(),
{
    lemma_largest(heap, heap.len() as int);
}

/// Every centroid has the dimension of the vectors, there are never more clusters than wanted, and
/// while a cluster is being split there is room for one more.
pub open spec fn within(state: SplitModel, target_k: int, d: int) -> bool {
    &&& state.finalized.len() + state.heap.len() + (if state.splitting is Some {
        1int
    } else {
        0int
    }) <= target_k
    &&& state.splitting is Some ==> state.finalized.len() + state.heap.len() + 1 < target_k
    &&& forall|i: int| 0 <= i < state.heap.len() ==> (#[trigger] state.heap[i]).centroid.len() == d
    &&& forall|i: int| 0 <= i < state.finalized.len() ==> (#[trigger] state.finalized[i]).len() == d
    &&& state.splitting matches Some(cluster) ==> cluster.centroid.len() == d
}

impl ClusterSplitter {
    pub open spec fn well_formed(self) -> bool {
        &&& within(self@, self.target_k as int, self.d as int)
        &&& self.target_k * self.d <= usize::MAX
        &&& self.seed + self.target_k <= u64::MAX
    }
}

proof fn lemma_advanced(state: SplitModel, target_k: int, d: int)
    requires
        within(state, target_k, d),
        state.splitting is None,
    ensures
        within(advanced(state, target_k), target_k, d),
        advanced(state, target_k).splitting matches Some(cluster) ==> cluster.indices.len()
            >= MIN_SPLIT_ROWS,
    decreases state.heap.len(),
{
    if !(state.finalized.len() + state.heap.len() >= target_k || state.heap.len() == 0) {
        lemma_largest(state.heap, state.heap.len() as int);
        let at = largest(state.heap);
        let rest = state.heap.remove(at);
        assert forall|i: int| 0 <= i < rest.len() implies (#[trigger] rest[i]).centroid.len() == d by {
            if i < at {
                assert(rest[i] == state.heap[i]);
            } else {
                assert(rest[i] == state.heap[i + 1]);
            }
        }
        if state.heap[at].indices.len() < MIN_SPLIT_ROWS {
            let next = SplitModel {
                heap: rest,
                finalized: state.finalized.push(state.heap[at].centroid),
                splitting: state.splitting,
            };
            lemma_advanced(next, target_k, d);
        }
    }
}

/// The clusters that a step leaves are clusters that were there, and the one that is to be split
/// was there too and has enough rows; there are never more than wanted.
pub proof fn a_step_adds_no_cluster(state: SplitModel, target_k: int, d: int)
    requires
        within(state, target_k, d),
        state.splitting is None,
    ensures
        ({
            let after = advanced(state, target_k);
            &&& within(after, target_k, d)
            &&& after.finalized.len() + after.heap.len() + (if after.splitting is Some {
                1int
            } else {
                0int
            }) == state.finalized.len() + state.heap.len()
            &&& after.splitting matches Some(cluster) ==> cluster.indices.len() >= MIN_SPLIT_ROWS
                && state.heap.contains(cluster)
            &&& after.splitting is None ==> after.finalized.len() + after.heap.len() >= target_k
                || after.heap.len() == 0
        }),
    decreases state.heap.len(),
{
    lemma_advanced(state, target_k, d);
    if !(state.finalized.len() + state.heap.len() >= target_k || state.heap.len() == 0) {
        lemma_largest(state.heap, state.heap.len() as int);
        let at = largest(state.heap);
        let rest = state.heap.remove(at);
        if state.heap[at].indices.len() < MIN_SPLIT_ROWS {
            let next = SplitModel {
                heap: rest,
                finalized: state.finalized.push(state.heap[at].centroid),
                splitting: state.splitting,
            };
            assert forall|i: int| 0 <= i < rest.len() implies (#[trigger] rest[i]).centroid.len()
                == d by {
                if i < at {
                    assert(rest[i] == state.heap[i]);
                } else {
                    assert(rest[i] == state.heap[i + 1]);
                }
            }
            a_step_adds_no_cluster(next, target_k, d);
            let after = advanced(state, target_k);
            if after.splitting is Some {
                let i = choose|i: int| 0 <= i < rest.len() && rest[i] == after.splitting->0;
                assert(state.heap[if i < at {
                    i
                } else {
                    i + 1
                }] == after.splitting->0);
            }
        } else {
            assert(state.heap[at] == advanced(state, target_k).splitting->0);
        }
    }
}

/// A split loses no row and doubles none: each row of the cluster is on the side that it was put on
/// and on no other.
pub proof fn a_split_keeps_every_row(
    cluster: ClusterModel,
    centroids: Seq<u32>,
    d: nat,
    sides: Seq<usize>,
    i: int,
    s: usize,
)
    requires
        sides.len() == cluster.indices.len(),
        sides.len() <= usize::MAX,
        cluster.indices.no_duplicates(),
        0 <= i < sides.len(),
    ensures
        side(cluster, centroids, d, sides, s).indices.contains(cluster.indices[i]) <==> sides[i] == s,
{
    let rows = ivf_lists::rows_for(sides, s);
    let half = side(cluster, centroids, d, sides, s).indices;
    ivf_lists::each_row_goes_to_its_list(sides, s, i as usize);
    if sides[i] == s {
        assert(rows.contains(i as usize));
        let k = choose|k: int| 0 <= k < rows.len() && rows[k] == i as usize;
        assert(half[k] == cluster.indices[i]);
    }
    if half.contains(cluster.indices[i]) {
        let k = choose|k: int| 0 <= k < half.len() && half[k] == cluster.indices[i];
        assert(rows[k] < sides.len());
        assert(cluster.indices[rows[k] as int] == cluster.indices[i]);
        assert(rows[k] == i);
        assert(rows.contains(i as usize));
    }
}

proof fn lemma_flattened_len(lists: Seq<Seq<u32>>, d: int)
    requires
        forall|i: int| 0 <= i < lists.len() ==> (#[trigger] lists[i]).len() == d,
    ensures
        flattened(lists).len() == lists.len() * d,
    decreases lists.len(),
{
    if lists.len() > 0 {
        let front = lists.drop_last();
        assert forall|i: int| 0 <= i < front.len() implies (#[trigger] front[i]).len() == d by {
            assert(front[i] == lists[i]);
        }
        lemma_flattened_len(front, d);
        assert(lists[lists.len() - 1].len() == d);
        assert((lists.len() - 1) * d + d == lists.len() * d) by (nonlinear_arith);
    } else {
        assert(lists.len() * d == 0) by (nonlinear_arith)
            requires
                lists.len() == 0,
        ;
    }
}

proof fn lemma_drained_len(heap: Seq<ClusterModel>, d: int)
    requires
        forall|i: int| 0 <= i < heap.len() ==> (#[trigger] heap[i]).centroid.len() == d,
    ensures
        drained(heap).len() == heap.len() * d,
    decreases heap.len(),
{
    if heap.len() > 0 {
        lemma_largest(heap, heap.len() as int);
        let at = largest(heap);
        let rest = heap.remove(at);
        assert forall|i: int| 0 <= i < rest.len() implies (#[trigger] rest[i]).centroid.len() == d by {
            if i < at {
                assert(rest[i] == heap[i]);
            } else {
                assert(rest[i] == heap[i + 1]);
            }
        }
        lemma_drained_len(rest, d);
        assert(heap[at].centroid.len() == d);
        assert((heap.len() - 1) * d + d == heap.len() * d) by (nonlinear_arith);
    } else {
        assert(heap.len() * d == 0) by (nonlinear_arith)
            requires
                heap.len() == 0,
        ;
    }
}

/// In the end there are as many centroids as were wanted.
pub proof fn enough_centroids(state: SplitModel, target_k: nat, d: nat)
    requires
        within(state, target_k as int, d as int),
    ensures
        collected(state, target_k, d).len() == target_k * d,
{
    lemma_flattened_len(state.finalized, d as int);
    lemma_drained_len(state.heap, d as int);
    let f = state.finalized.len();
    let h = state.heap.len();
    assert(f * d + h * d <= target_k * d) by (nonlinear_arith)
        requires
            f + h <= target_k,
            d >= 0,
    ;
}

/// The rows that have gone to a cluster.
fn rows_of(assignments: &Vec<usize>, c: usize) -> (r: Vec<usize>)
    ensures
        r@ == ivf_lists::rows_for(assignments@, c),
{
    let mut rows: Vec<usize> = Vec::new();
    assert(assignments@.subrange(0, 0) =~= Seq::<usize>::empty());
    for i in 0..assignments.len()
        invariant
            rows@ == ivf_lists::rows_for(assignments@.subrange(0, i as int), c),
    {
        proof {
            let t = assignments@.subrange(0, i + 1);
            assert(t.drop_last() =~= assignments@.subrange(0, i as int));
            assert(t.last() == assignments@[i as int]);
        }
        if assignments[i] == c {
            rows.push(i);
        }
    }
    assert(assignments@.subrange(0, assignments@.len() as int) =~= assignments@);
    rows
}

/// The `i`-th row of `d` values.
fn row_of(values: &Vec<u32>, d: usize, i: usize, n: usize) -> (r: Vec<u32>)
    requires
        values@.len() == n * d,
        i < n,
    ensures
        r@ == ivf_lists::row(values@, d as nat, i as int),
        r@.len() == d,
{
    proof {
        ivf_lists::lemma_row_bounds(n as nat, d as nat, i as int);
        assert(values@.len() == values.len());
    }
    let start: usize = i * d;
    let mut r: Vec<u32> = Vec::new();
    for j in 0..d
        invariant
            start == i * d,
            start + d <= values@.len() <= usize::MAX,
            r@ =~= values@.subrange(start as int, start + j),
    {
        r.push(values[start + j]);
    }
    r
}

/// Finds the cluster with the most rows.
fn find_largest(heap: &Vec<Cluster>) -> (r: usize)
    requires
        heap@.len() > 0,
    ensures
        r == largest(cluster_views(heap@)),
        r < heap@.len(),
{
    let mut at: usize = 0;
    for i in 1..heap.len()
        invariant
            at == largest_at(cluster_views(heap@), i as int),
            at < i,
            heap@.len() > 0,
    {
        if heap[i].indices.len() > heap[at].indices.len() {
            at = i;
        }
    }
    at
}

impl ClusterSplitter {
    /// The clusters by the centroids to begin with: each row is in the cluster that it has gone to.
    pub fn new(
        centroids: &Vec<u32>,
        assignments: &Vec<usize>,
        initial_k: usize,
        d: usize,
        target_k: usize,
        seed: u64,
    ) -> (r: Self)
        requires
            centroids@.len() == initial_k * d,
            initial_k <= target_k,
            target_k * d <= usize::MAX,
            seed + target_k <= u64::MAX,
        ensures
            r.well_formed(),
            r.d == d,
            r.target_k == target_k,
            r.seed == seed,
            r@.heap == initial_heap(centroids@, d as nat, assignments@, initial_k as nat),
            r@.finalized.len() == 0,
            r@.splitting is None,
    {
        let mut heap: Vec<Cluster> = Vec::new();
        for c in 0..initial_k
            invariant
                centroids@.len() == initial_k * d,
                cluster_views(heap@) =~= initial_heap(
                    centroids@,
                    d as nat,
                    assignments@,
                    initial_k as nat,
                ).subrange(0, c as int),
                forall|i: int| 0 <= i < c ==> (#[trigger] heap@[i])@.centroid.len() == d,
        {
            let ghost before = cluster_views(heap@);
            let centroid: Vec<u32> = row_of(centroids, d, c, initial_k);
            let indices: Vec<usize> = rows_of(assignments, c);
            heap.push(Cluster { centroid, indices });
            assert(cluster_views(heap@) =~= before.push(heap@[c as int]@));
        }
        let r = ClusterSplitter {
            d,
            target_k,
            seed,
            heap,
            finalized: Vec::new(),
            splitting: None,
        };
        assert(r@.heap =~= initial_heap(centroids@, d as nat, assignments@, initial_k as nat));
        assert forall|i: int| 0 <= i < r@.heap.len() implies (#[trigger] r@.heap[i]).centroid.len()
            == d by {
            assert(r.heap@[i]@.centroid.len() == d);
        }
        r
    }

    /// Looks for the next cluster to be split.
    pub fn next(&mut self) -> (r: SplitStep)
        requires
            old(self).well_formed(),
            old(self)@.splitting is None,
        ensures
            final(self).well_formed(),
            final(self).d == old(self).d,
            final(self).target_k == old(self).target_k,
            final(self).seed == old(self).seed,
            final(self)@ == advanced(old(self)@, old(self).target_k as int),
            match r {
                SplitStep::Done => final(self)@.splitting is None,
                SplitStep::Split { indices, seed } => final(self)@.splitting matches Some(cluster)
                    && indices@ == cluster.indices
                    && seed == old(self).seed + final(self)@.finalized.len(),
            },
    {
        let ghost begun = self@;
        while self.heap.len() > 0 && self.finalized.len() < self.target_k - self.heap.len()
            invariant
                self.well_formed(),
                self@.splitting is None,
                self.d == old(self).d,
                self.target_k == old(self).target_k,
                self.seed == old(self).seed,
                begun == old(self)@,
                advanced(self@, self.target_k as int) == advanced(begun, self.target_k as int),
            decreases self.heap@.len(),
        {
            let ghost before = self@;
            let at: usize = find_largest(&self.heap);
            proof {
                lemma_advanced(before, self.target_k as int, self.d as int);
                assert(before.heap[at as int] == self.heap@[at as int]@);
            }
            let cluster: Cluster = self.heap.remove(at);
            assert(self@.heap =~= before.heap.remove(at as int));
            assert forall|i: int| 0 <= i < self@.heap.len() implies (#[trigger] self@.heap[i]).centroid.len()
                == self.d by {
                if i < at {
                    assert(self@.heap[i] == before.heap[i]);
                } else {
                    assert(self@.heap[i] == before.heap[i + 1]);
                }
            }
            if cluster.indices.len() < MIN_SPLIT_ROWS {
                self.finalized.push(cluster.centroid);
                assert(self@.finalized =~= before.finalized.push(cluster@.centroid));
            } else {
                let mut indices: Vec<usize> = Vec::new();
                for i in 0..cluster.indices.len()
                    invariant
                        indices@ =~= cluster.indices@.subrange(0, i as int),
                {
                    indices.push(cluster.indices[i]);
                }
                let seed: u64 = self.seed + self.finalized.len() as u64;
                self.splitting = Some(cluster);
                return SplitStep::Split { indices, seed };
            }
        }
        SplitStep::Done
    }

    /// Puts the two sides of the cluster that is being split among the clusters, unless a side is
    /// empty.
    pub fn split(&mut self, centroids: &Vec<u32>, sides: &Vec<usize>)
        requires
            old(self).well_formed(),
            old(self)@.splitting is Some,
            centroids@.len() == 2 * old(self).d,
            sides@.len() == old(self)@.splitting->0.indices.len(),
        ensures
            final(self).well_formed(),
            final(self).d == old(self).d,
            final(self).target_k == old(self).target_k,
            final(self).seed == old(self).seed,
            final(self)@.finalized == old(self)@.finalized,
            final(self)@.splitting is None,
            ({
                let cluster = old(self)@.splitting->0;
                let d = old(self).d as nat;
                final(self)@.heap == with_cluster(
                    with_cluster(old(self)@.heap, side(cluster, centroids@, d, sides@, 0)),
                    side(cluster, centroids@, d, sides@, 1),
                )
            }),
    {
        let ghost begun = self@;
        let taken: Option<Cluster> = self.splitting.take();
        let cluster: Cluster = match taken {
            Some(c) => c,
            None => {
                assert(false);
                return;
            },
        };
        let d: usize = self.d;
        let ghost model = cluster@;
        let first: Cluster = half_of(&cluster, centroids, d, sides, 0);
        let second: Cluster = half_of(&cluster, centroids, d, sides, 1);
        assert(first@ == side(model, centroids@, d as nat, sides@, 0));
        assert(second@ == side(model, centroids@, d as nat, sides@, 1));
        if first.indices.len() > 0 {
            let ghost before = self@.heap;
            self.heap.push(first);
            assert(self@.heap =~= before.push(first@));
        }
        if second.indices.len() > 0 {
            let ghost before = self@.heap;
            self.heap.push(second);
            assert(self@.heap =~= before.push(second@));
        }
        assert(self@.finalized == begun.finalized);
    }

    /// The centroids of all clusters.
    pub fn finish(self) -> (r: Vec<u32>)
        requires
            self.well_formed(),
            self@.splitting is None,
        ensures
            r@ == collected(self@, self.target_k as nat, self.d as nat),
            r@.len() == self.target_k * self.d,
    {
        let ghost begun = self@;
        proof {
            enough_centroids(self@, self.target_k as nat, self.d as nat);
        }
        let target_k: usize = self.target_k;
        let d: usize = self.d;
        let wanted: usize = target_k * d;
        let mut result: Vec<u32> = Vec::new();
        let finalized: Vec<Vec<u32>> = self.finalized;
        assert(begun.finalized.subrange(0, 0) =~= Seq::<Seq<u32>>::empty());
        for i in 0..finalized.len()
            invariant
                begun.finalized == ivf_lists::value_lists(finalized@),
                result@ == flattened(begun.finalized.subrange(0, i as int)),
        {
            proof {
                let t = begun.finalized.subrange(0, i + 1);
                assert(t.drop_last() =~= begun.finalized.subrange(0, i as int));
                assert(t.last() == finalized@[i as int]@);
            }
            append_all(&mut result, &finalized[i]);
        }
        assert(begun.finalized.subrange(0, begun.finalized.len() as int) =~= begun.finalized);
        let mut heap: Vec<Cluster> = self.heap;
        let ghost front = flattened(begun.finalized);
        while heap.len() > 0
            invariant
                result@ + drained(cluster_views(heap@)) == front + drained(begun.heap),
            decreases heap@.len(),
        {
            let ghost before = cluster_views(heap@);
            let ghost so_far = result@;
            let at: usize = find_largest(&heap);
            let cluster: Cluster = heap.remove(at);
            assert(cluster_views(heap@) =~= before.remove(at as int));
            assert(before[at as int] == cluster@);
            append_all(&mut result, &cluster.centroid);
            assert(so_far + drained(before) =~= result@ + drained(cluster_views(heap@)));
        }
        assert(result@ =~= front + drained(begun.heap));
        let ghost found = result@;
        while result.len() < wanted
            invariant
                found.len() <= result@.len() <= wanted,
                result@ == found + zeros(result@.len() - found.len()),
            decreases wanted - result@.len(),
        {
            result.push(0);
            assert(result@ =~= found + zeros(result@.len() - found.len()));
        }
        assert(result@ =~= collected(begun, target_k as nat, d as nat));
        result
    }
}

fn append_all(to: &mut Vec<u32>, values: &Vec<u32>)
    ensures
        final(to)@ == old(to)@ + values@,
{
    let ghost before = to@;
    for i in 0..values.len()
        invariant
            to@ =~= before + values@.subrange(0, i as int),
    {
        to.push(values[i]);
    }
}

/// One side of a split cluster.
fn half_of(cluster: &Cluster, centroids: &Vec<u32>, d: usize, sides: &Vec<usize>, s: usize) -> (r:
    Cluster)
    requires
        centroids@.len() == 2 * d,
        s < 2,
        sides@.len() == cluster@.indices.len(),
    ensures
        r@ == side(cluster@, centroids@, d as nat, sides@, s),
        r@.centroid.len() == d,
{
    let rows: Vec<usize> = rows_of(sides, s);
    proof {
        assert(sides@.len() == sides.len());
        ivf_lists::each_row_goes_to_its_list(sides@, s, 0);
    }
    let mut indices: Vec<usize> = Vec::new();
    for i in 0..rows.len()
        invariant
            rows@ == ivf_lists::rows_for(sides@, s),
            sides@.len() == cluster@.indices.len(),
            forall|i: int| 0 <= i < rows@.len() ==> #[trigger] rows@[i] < sides@.len(),
            indices@ =~= side(cluster@, centroids@, d as nat, sides@, s).indices.subrange(
                0,
                i as int,
            ),
    {
        indices.push(cluster.indices[rows[i]]);
    }
    let centroid: Vec<u32> = row_of(centroids, d, s, 2);
    let r = Cluster { centroid, indices };
    assert(r@.indices =~= side(cluster@, centroids@, d as nat, sides@, s).indices);
    r
}

} // verus!
