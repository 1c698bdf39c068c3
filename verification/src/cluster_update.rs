//! Moving centroids to the middle of their clusters, and giving empty clusters new ones.
use crate::cluster_assign;
use crate::cluster_assign::Clustering;
use crate::ivf_lists;
use crate::kmeans;
use crate::kmeans::Refill;
use crate::vector_math::VectorMath;
use vstd::prelude::*;

verus! {

/// The values with row `c` replaced.
pub open spec fn with_row(values: Seq<u32>, d: int, c: int, row: Seq<u32>) -> Seq<u32> {
    values.subrange(0, c * d) + row + values.subrange(c * d + d, values.len() as int)
}

impl Clustering {
    /// The rows of a cluster, one behind the other.
    pub open spec fn cluster_rows(self, assignments: Seq<usize>, c: int) -> Seq<u32> {
        ivf_lists::gathered(
            self.data,
            self.d as nat,
            ivf_lists::rows_for(assignments, c as usize),
        )
    }

    /// The centroids after those of the first clusters have been moved to the mean of their rows. An
    /// empty cluster keeps its centroid.
    pub open spec fn moved(self, centroids: Seq<u32>, assignments: Seq<usize>, upto: int) -> Seq<u32>
        decreases upto,
    {
        if upto <= 0 {
            centroids
        } else {
            let before = self.moved(centroids, assignments, upto - 1);
            let count = kmeans::members(assignments, (upto - 1) as usize);
            if count == 0 {
                before
            } else {
                with_row(
                    before,
                    self.d as int,
                    upto - 1,
                    (self.math.mean)(
                        self.cluster_rows(assignments, upto - 1),
                        count as usize,
                        self.d,
                    ),
                )
            }
        }
    }

    /// The centroids after one empty cluster has been refilled: it and its donor share the donor's
    /// place, moved a little to either side, or it gets the row that was drawn.
    pub open spec fn refilled(self, centroids: Seq<u32>, refill: Refill, drawn: usize) -> Seq<u32> {
        let d = self.d as int;
        match refill {
            Refill::Donor { cluster, donor } => {
                let given = ivf_lists::row(centroids, self.d as nat, donor as int);
                with_row(
                    with_row(centroids, d, cluster as int, (self.math.nudged)(given, true)),
                    d,
                    donor as int,
                    (self.math.nudged)(given, false),
                )
            },
            Refill::Row { cluster } => with_row(
                centroids,
                d,
                cluster as int,
                ivf_lists::row(self.data, self.d as nat, drawn as int),
            ),
        }
    }

    /// The centroids after the first refills of a plan.
    pub open spec fn all_refilled(
        self,
        centroids: Seq<u32>,
        plan: Seq<Refill>,
        drawn: Seq<usize>,
        upto: int,
    ) -> Seq<u32>
        decreases upto,
    {
        if upto <= 0 {
            centroids
        } else {
            self.refilled(
                self.all_refilled(centroids, plan, drawn, upto - 1),
                plan[upto - 1],
                drawn[upto - 1],
            )
        }
    }

    /// The plan by which empty clusters are refilled.
    pub open spec fn refill_plan(self, assignments: Seq<usize>) -> Seq<Refill> {
        kmeans::refills(kmeans::cluster_sizes(assignments, self.k as nat), self.k as int).0
    }

    /// A row for each refill.
    pub open spec fn are_draws(self, assignments: Seq<usize>, drawn: Seq<usize>) -> bool {
        &&& drawn.len() == self.refill_plan(assignments).len()
        &&& forall|i: int| 0 <= i < drawn.len() ==> #[trigger] drawn[i] < self.n
    }

    /// The centroids after an update, whichever rows are drawn.
    pub open spec fn updated(
        self,
        before: Seq<u32>,
        assignments: Seq<usize>,
        after: Seq<u32>,
    ) -> bool {
        let plan = self.refill_plan(assignments);
        exists|drawn: Seq<usize>| #[trigger]
            self.are_draws(assignments, drawn) && after == self.all_refilled(
                self.moved(before, assignments, self.k as int),
                plan,
                drawn,
                plan.len() as int,
            )
    }
}

/// Replaces row `c` of `k` rows.
pub fn set_row(values: &mut Vec<u32>, k: usize, d: usize, c: usize, row: &Vec<u32>)
    requires
        old(values)@.len() == k * d,
        c < k,
        row@.len() == d,
    ensures
        final(values)@ == with_row(old(values)@, d as int, c as int, row@),
        final(values)@.len() == k * d,
{
    let ghost first = values@;
    proof {
        ivf_lists::lemma_row_bounds(k as nat, d as nat, c as int);
        assert(values@.len() == values.len());
    }
    let start: usize = c * d;
    for j in 0..d
        invariant
            row@.len() == d,
            first.len() == k * d,
            first.len() <= usize::MAX,
            values@.len() == first.len(),
            start == c * d,
            start + d <= first.len(),
            values@ =~= first.subrange(0, start as int) + row@.subrange(0, j as int)
                + first.subrange(start + j, first.len() as int),
    {
        values.set(start + j, row[j]);
    }
    assert(row@.subrange(0, d as int) =~= row@);
}

/// The rows of each cluster, one behind the other.
pub fn values_by_cluster<T: Copy>(
    data: &Vec<T>,
    d: usize,
    k: usize,
    assignments: &Vec<usize>,
) -> (r: Vec<Vec<T>>)
    requires
        data@.len() >= assignments@.len() * d,
        forall|i: int| 0 <= i < assignments@.len() ==> #[trigger] assignments@[i] < k,
    ensures
        r@.len() == k,
        forall|c: int|
            0 <= c < k ==> (#[trigger] r@[c])@ == ivf_lists::gathered(
                data@,
                d as nat,
                ivf_lists::rows_for(assignments@, c as usize),
            ),
{
    let mut lists: Vec<Vec<T>> = Vec::new();
    for c in 0..k
        invariant
            lists@.len() == c,
            forall|i: int| 0 <= i < c ==> (#[trigger] lists@[i])@.len() == 0,
    {
        lists.push(Vec::new());
    }
    let ghost before = ivf_lists::all_lists(lists@);
    ivf_lists::append_assigned(&mut lists, data, d, assignments);
    proof {
        let after = ivf_lists::extended(before, data@, d as nat, assignments@);
        assert(ivf_lists::all_lists(lists@) == after);
        assert(lists@.len() == after.len());
        assert forall|c: int| 0 <= c < k implies (#[trigger] lists@[c])@ == ivf_lists::gathered(
            data@,
            d as nat,
            ivf_lists::rows_for(assignments@, c as usize),
        ) by {
            assert(lists@[c]@ == ivf_lists::all_lists(lists@)[c]);
            assert(before[c] =~= Seq::<T>::empty());
            assert(lists@[c]@ =~= ivf_lists::gathered(
                data@,
                d as nat,
                ivf_lists::rows_for(assignments@, c as usize),
            ));
        }
    }
    lists
}

proof fn lemma_cluster_rows(all: Clustering, assignments: Seq<usize>, c: usize)
    requires
        all.data.len() >= all.n * all.d,
        assignments.len() == all.n,
    ensures
        all.cluster_rows(assignments, c as int).len() == kmeans::members(assignments, c) * all.d,
        kmeans::members(assignments, c) <= all.n,
{
    let rows = ivf_lists::rows_for(assignments, c);
    assert forall|i: int| 0 <= i < rows.len() implies #[trigger] rows[i] < all.n by {
        ivf_lists::each_row_goes_to_its_list(assignments, c, 0);
    }
    ivf_lists::lemma_gathered_len(all.data, all.d as nat, rows, all.n as nat);
    kmeans::lemma_members_fit(assignments, c);
}

/// Moves the centroids to the means of their clusters, and refills empty ones.
pub fn update_centroids<V: VectorMath>(
    data: &Vec<u32>,
    n: usize,
    d: usize,
    centroids: &mut Vec<u32>,
    k: usize,
    assignments: &Vec<usize>,
    balanced: bool,
    rng: &mut rand::rngs::StdRng,
    math: &V,
)
    requires
        math.sound(),
        data@.len() >= n * d,
        old(centroids)@.len() == k * d,
        n >= 1,
        k >= 1,
        assignments@.len() == n,
        forall|i: int| 0 <= i < assignments@.len() ==> #[trigger] assignments@[i] < k,
    ensures
        final(centroids)@.len() == k * d,
        (Clustering { math: math.arithmetic(), data: data@, n, d, k, balanced }).updated(
            old(centroids)@,
            assignments@,
            final(centroids)@,
        ),
{
    let ghost all = Clustering { math: math.arithmetic(), data: data@, n, d, k, balanced };
    let ghost first = centroids@;
    let lists: Vec<Vec<u32>> = values_by_cluster(data, d, k, assignments);
    let counts: Vec<usize> = kmeans::count_members(assignments, k);
    for c in 0..k
        invariant
            math.sound(),
            all == (Clustering { math: math.arithmetic(), data: data@, n, d, k, balanced }),
            data@.len() >= n * d,
            assignments@.len() == n,
            counts@ == kmeans::cluster_sizes(assignments@, k as nat),
            lists@.len() == k,
            forall|c: int|
                0 <= c < k ==> (#[trigger] lists@[c])@ == ivf_lists::gathered(
                    data@,
                    d as nat,
                    ivf_lists::rows_for(assignments@, c as usize),
                ),
            centroids@ == all.moved(first, assignments@, c as int),
            centroids@.len() == k * d,
    {
        proof {
            lemma_cluster_rows(all, assignments@, c);
            assert(counts@[c as int] == kmeans::members(assignments@, c));
            assert(lists@[c as int]@ == all.cluster_rows(assignments@, c as int));
        }
        if counts[c] > 0 {
            let middle: Vec<u32> = math.mean(&lists[c], counts[c], d);
            set_row(centroids, k, d, c, &middle);
        }
    }
    let plan: Vec<Refill> = kmeans::plan_refills(counts);
    let ghost moved = centroids@;
    let ghost mut drawn: Seq<usize> = Seq::empty();
    proof {
        kmeans::refilling_keeps_the_rows(
            kmeans::cluster_sizes(assignments@, k as nat),
            k as int,
        );
    }
    assert(plan@ == all.refill_plan(assignments@));
    for i in 0..plan.len()
        invariant
            math.sound(),
            all == (Clustering { math: math.arithmetic(), data: data@, n, d, k, balanced }),
            data@.len() >= n * d,
            n >= 1,
            plan@ == all.refill_plan(assignments@),
            forall|i: int| 0 <= i < plan@.len() ==> match #[trigger] plan@[i] {
                Refill::Donor { cluster, donor } => cluster < k && donor < k,
                Refill::Row { cluster } => cluster < k,
            },
            drawn.len() == i,
            forall|j: int| 0 <= j < i ==> #[trigger] drawn[j] < n,
            centroids@ == all.all_refilled(moved, plan@, drawn, i as int),
            centroids@.len() == k * d,
    {
        let ghost before_drawn = drawn;
        let ghost before = centroids@;
        match plan[i] {
            Refill::Donor { cluster, donor } => {
                proof {
                    ivf_lists::lemma_row_bounds(k as nat, d as nat, donor as int);
                    assert(centroids@.len() == centroids.len());
                }
                let given: Vec<u32> = cluster_assign::copied(centroids, donor * d, donor * d + d);
                let to: Vec<u32> = math.nudged(&given, true);
                let back: Vec<u32> = math.nudged(&given, false);
                set_row(centroids, k, d, cluster, &to);
                set_row(centroids, k, d, donor, &back);
                proof {
                    drawn = drawn.push(0);
                }
            },
            Refill::Row { cluster } => {
                let at: usize = kmeans::draw_row(n, rng);
                proof {
                    ivf_lists::lemma_row_bounds(n as nat, d as nat, at as int);
                    assert(data@.len() == data.len());
                }
                let row: Vec<u32> = cluster_assign::copied(data, at * d, at * d + d);
                set_row(centroids, k, d, cluster, &row);
                proof {
                    drawn = drawn.push(at);
                }
            },
        }
        proof {
            lemma_same_refills(all, moved, plan@, before_drawn, drawn, i as int);
            assert(centroids@ == all.refilled(before, plan@[i as int], drawn[i as int]));
        }
    }
    proof {
        assert(all.are_draws(assignments@, drawn));
    }
}

proof fn lemma_same_refills(
    all: Clustering,
    centroids: Seq<u32>,
    plan: Seq<Refill>,
    a: Seq<usize>,
    b: Seq<usize>,
    upto: int,
)
    requires
        upto <= a.len(),
        upto <= b.len(),
        forall|i: int| 0 <= i < upto ==> #[trigger] a[i] == b[i],
    ensures
        all.all_refilled(centroids, plan, a, upto) == all.all_refilled(centroids, plan, b, upto),
    decreases upto,
{
    if upto > 0 {
        lemma_same_refills(all, centroids, plan, a, b, upto - 1);
        assert(a[upto - 1] == b[upto - 1]);
    }
}

} // verus!
