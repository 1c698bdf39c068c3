//! What clustering does, told by the rows and the centroids.
use vstd::prelude::*;

use crate::autotune::DiskAnnBuildParams;
use crate::cluster_assign;
use crate::cluster_assign::Clustering;
use crate::cluster_update;
use crate::coarse;
use crate::coarse::CoarseAssignment;
use crate::float_bits;
use crate::ivf_lists;
use crate::kmeans;
use crate::kmeans::Refill;
use crate::sort;

verus! {

/// `rows` are the rows that are assigned to `c`, in their order.
pub open spec fn are_rows_of(rows: Seq<usize>, assignments: Seq<usize>, c: usize) -> bool {
    &&& forall|i: int, j: int| 0 <= i < j < rows.len() ==> #[trigger] rows[i] < #[trigger] rows[j]
    &&& forall|i: usize| #[trigger]
        rows.contains(i) <==> i < assignments.len() && assignments[i as int] == c
}

/// `part` holds the rows of `items` at the given places, one behind the other.
pub open spec fn holds_rows<T>(part: Seq<T>, items: Seq<T>, width: nat, rows: Seq<usize>) -> bool {
    &&& part.len() == rows.len() * width
    &&& forall|j: int|
        0 <= j < rows.len() ==> part.subrange(j * width, j * width + width) == items.subrange(
            (#[trigger] rows[j]) * width,
            rows[j] * width + width,
        )
}

/// The rows of a list are those that are assigned to it, in their order, each once.
pub proof fn rows_are_listed_in_order(assignments: Seq<usize>, c: usize)
    requires
        assignments.len() <= usize::MAX,
    ensures
        are_rows_of(ivf_lists::rows_for(assignments, c), assignments, c),
    decreases assignments.len(),
{
    let rows = ivf_lists::rows_for(assignments, c);
    assert forall|i: usize| #[trigger] rows.contains(i) <==> i < assignments.len()
        && assignments[i as int] == c by {
        ivf_lists::each_row_goes_to_its_list(assignments, c, i);
    }
    if assignments.len() > 0 {
        let front = assignments.drop_last();
        rows_are_listed_in_order(front, c);
        let before = ivf_lists::rows_for(front, c);
        assert forall|i: int, j: int| 0 <= i < j < rows.len() implies #[trigger] rows[i]
            < #[trigger] rows[j] by {
            assert(before[i] == rows[i]);
            assert(before.contains(before[i]));
            if j < before.len() {
                assert(before[j] == rows[j]);
            }
        }
    }
}

/// Rows that are gathered stand one behind the other as they were.
pub proof fn gathered_rows_are_kept<T>(items: Seq<T>, width: nat, order: Seq<usize>, n: nat)
    requires
        items.len() >= n * width,
        forall|i: int| 0 <= i < order.len() ==> #[trigger] order[i] < n,
    ensures
        holds_rows(ivf_lists::gathered(items, width, order), items, width, order),
    decreases order.len(),
{
    let part = ivf_lists::gathered(items, width, order);
    ivf_lists::lemma_gathered_len(items, width, order, n);
    if order.len() > 0 {
        let front = order.drop_last();
        assert forall|i: int| 0 <= i < front.len() implies #[trigger] front[i] < n by {
            assert(front[i] == order[i]);
        }
        gathered_rows_are_kept(items, width, front, n);
        ivf_lists::lemma_gathered_len(items, width, front, n);
        let before = ivf_lists::gathered(items, width, front);
        assert forall|j: int| 0 <= j < order.len() implies part.subrange(
            j * width,
            j * width + width,
        ) == items.subrange((#[trigger] order[j]) * width, order[j] * width + width) by {
            ivf_lists::lemma_row_bounds(n, width, order[j] as int);
            if j < front.len() {
                assert(front[j] == order[j]);
                ivf_lists::lemma_row_bounds(front.len(), width, j);
                assert(part.subrange(j * width, j * width + width) =~= before.subrange(
                    j * width,
                    j * width + width,
                ));
            } else {
                assert(part.subrange(j * width, j * width + width) =~= items.subrange(
                    order[j] * width,
                    order[j] * width + width,
                ));
            }
        }
    }
}

/// Rows that are added come behind those that are there, in their order: to each list the rows
/// that are assigned to it, and no others.
pub proof fn rows_are_added_in_order<T>(
    lists: Seq<Seq<T>>,
    items: Seq<T>,
    width: nat,
    assignments: Seq<usize>,
    l: usize,
)
    requires
        l < lists.len(),
        items.len() == assignments.len() * width,
        assignments.len() <= usize::MAX,
    ensures
        ivf_lists::extended(lists, items, width, assignments).len() == lists.len(),
        exists|rows: Seq<usize>, part: Seq<T>| #[trigger]
            are_rows_of(rows, assignments, l) && #[trigger] holds_rows(part, items, width, rows)
                && ivf_lists::extended(lists, items, width, assignments)[l as int]
                == lists[l as int] + part,
{
    let rows = ivf_lists::rows_for(assignments, l);
    let part = ivf_lists::gathered(items, width, rows);
    rows_are_listed_in_order(assignments, l);
    ivf_lists::each_row_goes_to_its_list(assignments, l, 0);
    gathered_rows_are_kept(items, width, rows, assignments.len());
    assert(are_rows_of(rows, assignments, l) && holds_rows(part, items, width, rows));
}

/// `at` names the least of the distances, the first where several are; where none is below the
/// largest value it names the first.
pub open spec fn names_least(dists: Seq<u32>, at: int) -> bool {
    if exists|i: int| 0 <= i < dists.len() && #[trigger] float_bits::lt(dists[i], 0x7f7f_ffff) {
        &&& 0 <= at < dists.len()
        &&& !float_bits::is_nan(dists[at])
        &&& forall|i: int| 0 <= i < dists.len() ==> !#[trigger] float_bits::lt(dists[i], dists[at])
        &&& forall|i: int| 0 <= i < at ==> !#[trigger] float_bits::eq(dists[i], dists[at])
    } else {
        at == 0
    }
}

/// The nearest centroid is the one at the least distance.
pub proof fn nearest_is_least(dists: Seq<u32>, at: int)
    requires
        kmeans::is_nearest(dists, at),
    ensures
        names_least(dists, at),
{
}

/// The lists to probe are the nearest ones, nearest first, each once, and as many as are asked for
/// or all.
pub proof fn probes_are_the_nearest_lists(dists: Seq<u32>, nprobe: usize)
    requires
        kmeans::no_nan(dists),
        dists.len() <= usize::MAX,
    ensures
        ({
            let found = kmeans::nearest_first(dists, nprobe);
            &&& found.len() == (if dists.len() < nprobe {
                dists.len() as int
            } else {
                nprobe as int
            })
            &&& found.no_duplicates()
            &&& forall|i: int| 0 <= i < found.len() ==> #[trigger] found[i] < dists.len()
            &&& forall|i: int, j: int|
                0 <= i < j < found.len() ==> !float_bits::lt(
                    dists[#[trigger] found[j] as int],
                    dists[#[trigger] found[i] as int],
                )
            &&& forall|i: int, j: int|
                0 <= i < j < found.len() && float_bits::eq(
                    dists[found[i] as int],
                    dists[found[j] as int],
                ) ==> #[trigger] found[i] < #[trigger] found[j]
            &&& forall|other: usize, i: int|
                other < dists.len() && !#[trigger] found.contains(other) && 0 <= i < found.len()
                    ==> !float_bits::lt(dists[other as int], dists[#[trigger] found[i] as int])
        }),
{
    let keys = kmeans::distance_keys(dists);
    sort::stable_order_facts(keys);
    let order = sort::stable_order(keys);
    let found = kmeans::nearest_first(dists, nprobe);
    assert forall|i: int| 0 <= i < found.len() implies #[trigger] found[i] < dists.len() by {
        assert(found[i] == order[i]);
    }
    assert(found.no_duplicates()) by {
        assert forall|i: int, j: int| 0 <= i < found.len() && 0 <= j < found.len() && i
            != j implies found[i] != found[j] by {
            assert(order[i] != order[j]);
        }
    }
    assert forall|i: int, j: int| 0 <= i < j < found.len() implies !float_bits::lt(
        dists[#[trigger] found[j] as int],
        dists[#[trigger] found[i] as int],
    ) by {
        assert(found[i] == order[i] && found[j] == order[j]);
        assert(keys[order[i] as int] <= keys[order[j] as int]);
    }
    assert forall|i: int, j: int|
        0 <= i < j < found.len() && float_bits::eq(
            dists[found[i] as int],
            dists[found[j] as int],
        ) implies #[trigger] found[i] < #[trigger] found[j] by {
        assert(found[i] == order[i] && found[j] == order[j]);
        assert(keys[order[i] as int] == keys[order[j] as int]);
    }
    assert forall|other: usize, i: int|
        other < dists.len() && !#[trigger] found.contains(other) && 0 <= i
            < found.len() implies !float_bits::lt(
        dists[other as int],
        dists[#[trigger] found[i] as int],
    ) by {
        assert(order.contains(other));
        let q = choose|q: int| 0 <= q < order.len() && order[q] == other;
        if q < found.len() {
            assert(found[q] == other);
        }
        assert(found[i] == order[i]);
        assert(keys[order[i] as int] <= keys[order[q] as int]);
    }
}

/// Row `x` was assigned in a piece of `len` rows from `start` on: it goes to the nearest centroid,
/// by the distances of the rows of this piece.
pub open spec fn goes_to_nearest(
    all: Clustering,
    centroids: Seq<u32>,
    sizes: Seq<usize>,
    start: int,
    len: int,
    x: int,
    list: usize,
) -> bool {
    &&& 0 <= start <= x < start + len <= all.n
    &&& names_least(
        (all.math.distances)(
            all.data.subrange(start * all.d, (start + len) * all.d),
            len as usize,
            all.d,
            centroids,
            all.k,
            sizes,
        )[x - start],
        list as int,
    )
}

/// Each row is assigned to the nearest of all centroids. Without balancing the sizes of the
/// clusters do not count; where the distances of all rows fit into one table they are taken from
/// one.
pub proof fn rows_go_to_their_nearest_centroid(
    all: Clustering,
    centroids: Seq<u32>,
    before: Seq<usize>,
    after: Seq<usize>,
    objective: u32,
    x: int,
)
    requires
        1 <= all.k,
        all.k <= 4_194_304 || all.n * all.k <= 4_194_304,
        all.assigned(centroids, before, after, objective),
        0 <= x < all.n,
    ensures
        after.len() == all.n,
        after[x] < all.k,
        exists|sizes: Seq<usize>, start: int, len: int|
            {
                &&& #[trigger] goes_to_nearest(all, centroids, sizes, start, len, x, after[x])
                &&& sizes.len() == all.k
                &&& !all.balanced ==> forall|c: int| 0 <= c < all.k ==> #[trigger] sizes[c] == 0
                &&& all.n * all.k <= 4_194_304 ==> start == 0 && len == all.n
            },
{
    assert(all.at_once() >= 1) by {
        if all.n * all.k > kmeans::MAX_MATRIX_ELEMS {
            let m = kmeans::MAX_MATRIX_ELEMS as int;
            let k = all.k as int;
            assert(m / k >= 1) by (nonlinear_arith)
                requires
                    1 <= k <= m,
            ;
        }
    }
    let m = cluster_assign::lemma_covered(all, 0, x);
    cluster_assign::lemma_pieces(all, m);
    let start = all.piece_start(m);
    let len = all.piece_len(m);
    let rows = all.piece_rows(centroids, before, start, len);
    let sizes = all.piece_sizes(before, start, len);
    assert(all.piece_assigned(centroids, before, after, m));
    let i = x - start;
    let chosen = after.subrange(start, start + len);
    assert(kmeans::is_nearest(rows[i], chosen[i] as int));
    nearest_is_least(rows[i], after[x] as int);
    if all.n * all.k <= 4_194_304 && m > 0 {
        cluster_assign::lemma_piece_order(all, 0, m);
    }
    assert(goes_to_nearest(all, centroids, sizes, start, len, x, after[x]));
}

/// The row is the mean of the rows of cluster `c`, of all of them and of no others.
pub open spec fn is_mean_of(
    all: Clustering,
    assignments: Seq<usize>,
    c: usize,
    row: Seq<u32>,
) -> bool {
    exists|rows: Seq<usize>, part: Seq<u32>| #[trigger]
        are_rows_of(rows, assignments, c) && #[trigger] holds_rows(
            part,
            all.data,
            all.d as nat,
            rows,
        ) && row == (all.math.mean)(part, rows.len() as usize, all.d)
}

/// Some row is assigned to cluster `c`.
pub open spec fn has_rows(assignments: Seq<usize>, c: usize) -> bool {
    exists|i: int| 0 <= i < assignments.len() && #[trigger] assignments[i] == c
}

/// The centroid at place `c`.
pub open spec fn centroid_at(centroids: Seq<u32>, d: usize, c: usize) -> Seq<u32> {
    centroids.subrange(c * d, c * d + d)
}

pub proof fn lemma_with_row(values: Seq<u32>, d: usize, k: usize, c: usize, row: Seq<u32>)
    requires
        values.len() == k * d,
        c < k,
        row.len() == d,
    ensures
        cluster_update::with_row(values, d as int, c as int, row).len() == k * d,
        centroid_at(cluster_update::with_row(values, d as int, c as int, row), d, c) == row,
        forall|o: usize|
            o < k && o != c ==> #[trigger] centroid_at(
                cluster_update::with_row(values, d as int, c as int, row),
                d,
                o,
            ) == centroid_at(values, d, o),
{
    let after = cluster_update::with_row(values, d as int, c as int, row);
    ivf_lists::lemma_row_bounds(k as nat, d as nat, c as int);
    assert(centroid_at(after, d, c) =~= row);
    assert forall|o: usize| o < k && o != c implies #[trigger] centroid_at(after, d, o)
        == centroid_at(values, d, o) by {
        ivf_lists::lemma_row_bounds(k as nat, d as nat, o as int);
        if o < c {
            ivf_lists::lemma_row_bounds(c as nat, d as nat, o as int);
        } else {
            ivf_lists::lemma_row_bounds(o as nat, d as nat, c as int);
        }
        assert(centroid_at(after, d, o) =~= centroid_at(values, d, o));
    }
}

/// A mean has as many values as a row.
pub open spec fn means_fit(all: Clustering) -> bool {
    forall|part: Seq<u32>, count: usize|
        part.len() == count * all.d && count > 0 ==> (#[trigger] (all.math.mean)(
            part,
            count,
            all.d,
        )).len() == all.d
}

/// A nudged row has as many values as the row.
pub open spec fn nudges_fit(all: Clustering) -> bool {
    forall|row: Seq<u32>, away: bool| (#[trigger] (all.math.nudged)(row, away)).len() == row.len()
}

proof fn lemma_cluster(all: Clustering, assignments: Seq<usize>, c: usize)
    requires
        all.data.len() >= all.n * all.d,
        assignments.len() == all.n,
    ensures
        are_rows_of(ivf_lists::rows_for(assignments, c), assignments, c),
        holds_rows(
            all.cluster_rows(assignments, c as int),
            all.data,
            all.d as nat,
            ivf_lists::rows_for(assignments, c),
        ),
        kmeans::members(assignments, c) == ivf_lists::rows_for(assignments, c).len(),
        kmeans::members(assignments, c) <= all.n,
        kmeans::members(assignments, c) > 0 <==> has_rows(assignments, c),
{
    let rows = ivf_lists::rows_for(assignments, c);
    rows_are_listed_in_order(assignments, c);
    ivf_lists::each_row_goes_to_its_list(assignments, c, 0);
    gathered_rows_are_kept(all.data, all.d as nat, rows, all.n as nat);
    kmeans::lemma_members_fit(assignments, c);
    if rows.len() > 0 {
        assert(rows.contains(rows[0]));
        assert(assignments[rows[0] as int] == c);
    }
    if has_rows(assignments, c) {
        let i = choose|i: int| 0 <= i < assignments.len() && #[trigger] assignments[i] == c;
        assert(rows.contains(i as usize));
    }
}

/// Moving the centroids puts the centroid of each cluster that has rows at the mean of its rows,
/// and leaves the others where they are.
pub proof fn centroids_move_to_their_means(
    all: Clustering,
    centroids: Seq<u32>,
    assignments: Seq<usize>,
    upto: int,
)
    requires
        all.data.len() >= all.n * all.d,
        assignments.len() == all.n,
        centroids.len() == all.k * all.d,
        0 <= upto <= all.k,
        means_fit(all),
    ensures
        ({
            let moved = all.moved(centroids, assignments, upto);
            &&& moved.len() == all.k * all.d
            &&& forall|c: usize|
                c < upto && has_rows(assignments, c) ==> is_mean_of(
                    all,
                    assignments,
                    c,
                    #[trigger] centroid_at(moved, all.d, c),
                )
            &&& forall|c: usize|
                c < all.k && (c >= upto || !has_rows(assignments, c)) ==> #[trigger] centroid_at(
                    moved,
                    all.d,
                    c,
                ) == centroid_at(centroids, all.d, c)
        }),
    decreases upto,
{
    if upto > 0 {
        let last = (upto - 1) as usize;
        centroids_move_to_their_means(all, centroids, assignments, upto - 1);
        lemma_cluster(all, assignments, last);
        let before = all.moved(centroids, assignments, upto - 1);
        let count = kmeans::members(assignments, last);
        if count > 0 {
            let part = all.cluster_rows(assignments, upto - 1);
            let row = (all.math.mean)(part, count as usize, all.d);
            assert(part.len() == (count as usize) * all.d);
            lemma_with_row(before, all.d, all.k, last, row);
            assert(is_mean_of(all, assignments, last, row));
        }
        let moved = all.moved(centroids, assignments, upto);
        assert forall|c: usize| c < upto && has_rows(assignments, c) implies is_mean_of(
            all,
            assignments,
            c,
            #[trigger] centroid_at(moved, all.d, c),
        ) by {
            if c != last {
                assert(centroid_at(moved, all.d, c) == centroid_at(before, all.d, c));
            }
        }
        assert forall|c: usize|
            c < all.k && (c >= upto || !has_rows(
                assignments,
                c,
            )) implies #[trigger] centroid_at(moved, all.d, c) == centroid_at(
            centroids,
            all.d,
            c,
        ) by {
            assert(centroid_at(before, all.d, c) == centroid_at(centroids, all.d, c));
        }
    }
}

/// The plan refills cluster `c`.
pub open spec fn is_refilled(plan: Seq<Refill>, c: usize) -> bool {
    exists|i: int|
        0 <= i < plan.len() && match #[trigger] plan[i] {
            Refill::Donor { cluster, donor } => cluster == c,
            Refill::Row { cluster } => cluster == c,
        }
}

/// Cluster `c` gives of its rows to another one.
pub open spec fn is_donor(plan: Seq<Refill>, c: usize) -> bool {
    exists|i: int|
        0 <= i < plan.len() && match #[trigger] plan[i] {
            Refill::Donor { cluster, donor } => donor == c,
            Refill::Row { cluster } => false,
        }
}

/// A plan refills the clusters without rows and no others.
pub proof fn empty_clusters_are_refilled(counts: Seq<usize>, upto: int)
    requires
        0 <= upto <= counts.len() <= usize::MAX,
    ensures
        forall|c: usize|
            c < upto ==> (counts[c as int] == 0 <==> #[trigger] is_refilled(
                kmeans::refills(counts, upto).0,
                c,
            )),
        forall|c: usize| c >= upto ==> !#[trigger] is_refilled(kmeans::refills(counts, upto).0, c),
        (forall|c: int| 0 <= c < upto ==> counts[c] > 0) ==> kmeans::refills(counts, upto).0.len()
            == 0,
    decreases upto,
{
    if upto > 0 {
        empty_clusters_are_refilled(counts, upto - 1);
        kmeans::refilling_keeps_the_rows(counts, upto - 1);
        let (before, now) = kmeans::refills(counts, upto - 1);
        let plan = kmeans::refills(counts, upto).0;
        let last = (upto - 1) as usize;
        assert(counts[last as int] > 0 ==> now[last as int] > 0);
        assert(counts[last as int] == 0 ==> now[last as int] == 0);
        assert forall|c: usize|
            #![trigger is_refilled(plan, c)]
            is_refilled(plan, c) == (is_refilled(before, c) || (c == last && counts[last as int]
                == 0)) by {
            if is_refilled(before, c) {
                let i = choose|i: int|
                    0 <= i < before.len() && match #[trigger] before[i] {
                        Refill::Donor { cluster, donor } => cluster == c,
                        Refill::Row { cluster } => cluster == c,
                    };
                assert(plan[i] == before[i]);
            }
            if c == last && counts[last as int] == 0 {
                assert(plan.len() == before.len() + 1);
                let i = before.len() as int;
                assert(match plan[i] {
                    Refill::Donor { cluster, donor } => cluster == c,
                    Refill::Row { cluster } => cluster == c,
                });
            }
            if is_refilled(plan, c) {
                let i = choose|i: int|
                    0 <= i < plan.len() && match #[trigger] plan[i] {
                        Refill::Donor { cluster, donor } => cluster == c,
                        Refill::Row { cluster } => cluster == c,
                    };
                if i < before.len() {
                    assert(plan[i] == before[i]);
                }
            }
        }
    }
}

/// An empty cluster is refilled from the last of the largest clusters, which gives it half of its
/// rows; where no cluster has two rows it is refilled with a row.
pub proof fn the_largest_cluster_gives(counts: Seq<usize>, c: usize)
    requires
        c < counts.len() <= usize::MAX,
        kmeans::refills(counts, c as int).1[c as int] == 0,
    ensures
        ({
            let (before, now) = kmeans::refills(counts, c as int);
            let (plan, after) = kmeans::refills(counts, c + 1);
            &&& plan.len() == before.len() + 1
            &&& plan.drop_last() == before
            &&& match plan.last() {
                Refill::Donor { cluster, donor } => {
                    &&& cluster == c
                    &&& donor < counts.len()
                    &&& now[donor as int] >= 2
                    &&& forall|i: int|
                        0 <= i < now.len() ==> #[trigger] now[i] <= now[donor as int]
                    &&& forall|i: int|
                        donor < i < now.len() ==> #[trigger] now[i] < now[donor as int]
                    &&& after[c as int] == now[donor as int] / 2
                    &&& after[c as int] + after[donor as int] == now[donor as int]
                },
                Refill::Row { cluster } => {
                    &&& cluster == c
                    &&& after == now
                    &&& forall|i: int| 0 <= i < now.len() ==> #[trigger] now[i] <= 1
                },
            }
        }),
{
    kmeans::refilling_keeps_the_rows(counts, c as int);
    let (before, now) = kmeans::refills(counts, c as int);
    kmeans::lemma_last_largest(now, now.len() as int);
    let (plan, after) = kmeans::refills(counts, c + 1);
    assert(plan.drop_last() =~= before);
}

/// The row is one of the rows.
pub open spec fn is_data_row(all: Clustering, row: Seq<u32>) -> bool {
    exists|i: usize| i < all.n && row == #[trigger] centroid_at(all.data, all.d, i)
}

/// The row is another one nudged away.
pub open spec fn is_nudged(all: Clustering, row: Seq<u32>) -> bool {
    exists|given: Seq<u32>| row == #[trigger] (all.math.nudged)(given, true)
}

proof fn lemma_all_refilled(
    all: Clustering,
    centroids: Seq<u32>,
    plan: Seq<Refill>,
    drawn: Seq<usize>,
    upto: int,
)
    requires
        all.data.len() >= all.n * all.d,
        centroids.len() == all.k * all.d,
        0 <= upto <= plan.len() == drawn.len(),
        forall|i: int| 0 <= i < drawn.len() ==> #[trigger] drawn[i] < all.n,
        forall|i: int| 0 <= i < plan.len() ==> match #[trigger] plan[i] {
            Refill::Donor { cluster, donor } => cluster < all.k && donor < all.k && donor != cluster,
            Refill::Row { cluster } => cluster < all.k,
        },
        nudges_fit(all),
    ensures
        ({
            let after = all.all_refilled(centroids, plan, drawn, upto);
            let part = plan.take(upto);
            &&& after.len() == all.k * all.d
            &&& forall|c: usize|
                c < all.k && !is_refilled(part, c) && !is_donor(part, c)
                    ==> #[trigger] centroid_at(after, all.d, c) == centroid_at(centroids, all.d, c)
            &&& forall|c: usize|
                c < all.k && is_refilled(part, c) && !is_donor(part, c) ==> is_data_row(
                    all,
                    #[trigger] centroid_at(after, all.d, c),
                ) || is_nudged(all, centroid_at(after, all.d, c))
        }),
    decreases upto,
{
    if upto > 0 {
        lemma_all_refilled(all, centroids, plan, drawn, upto - 1);
        let before = all.all_refilled(centroids, plan, drawn, upto - 1);
        let after = all.all_refilled(centroids, plan, drawn, upto);
        let short = plan.take(upto - 1);
        let part = plan.take(upto);
        let last = upto - 1;
        assert(part[last] == plan[last]);
        let d = all.d;
        match plan[last] {
            Refill::Donor { cluster, donor } => {
                let given = ivf_lists::row(before, d as nat, donor as int);
                ivf_lists::lemma_row_bounds(all.k as nat, d as nat, donor as int);
                let to = (all.math.nudged)(given, true);
                let back = (all.math.nudged)(given, false);
                let mid = cluster_update::with_row(before, d as int, cluster as int, to);
                lemma_with_row(before, d, all.k, cluster, to);
                lemma_with_row(mid, d, all.k, donor, back);
                assert(centroid_at(after, d, cluster) == to);
                assert(is_donor(part, donor));
            },
            Refill::Row { cluster } => {
                let row = ivf_lists::row(all.data, d as nat, drawn[last] as int);
                ivf_lists::lemma_row_bounds(all.n as nat, d as nat, drawn[last] as int);
                lemma_with_row(before, d, all.k, cluster, row);
                assert(row == centroid_at(all.data, d, drawn[last]));
            },
        }
        assert forall|c: usize| is_refilled(short, c) implies #[trigger] is_refilled(part, c) by {
            let i = choose|i: int|
                0 <= i < short.len() && match #[trigger] short[i] {
                    Refill::Donor { cluster, donor } => cluster == c,
                    Refill::Row { cluster } => cluster == c,
                };
            assert(part[i] == short[i]);
        }
        assert forall|c: usize| is_donor(short, c) implies #[trigger] is_donor(part, c) by {
            let i = choose|i: int|
                0 <= i < short.len() && match #[trigger] short[i] {
                    Refill::Donor { cluster, donor } => donor == c,
                    Refill::Row { cluster } => false,
                };
            assert(part[i] == short[i]);
        }
        let target = match plan[last] {
            Refill::Donor { cluster, donor } => cluster,
            Refill::Row { cluster } => cluster,
        };
        assert(is_refilled(part, target));
        assert forall|c: usize|
            c < all.k && !is_refilled(part, c) && !is_donor(part, c) implies #[trigger] centroid_at(
            after,
            d,
            c,
        ) == centroid_at(centroids, d, c) by {
            assert(!is_refilled(short, c) && !is_donor(short, c));
            assert(centroid_at(before, d, c) == centroid_at(centroids, d, c));
        }
        assert forall|c: usize|
            c < all.k && is_refilled(part, c) && !is_donor(part, c) implies is_data_row(
            all,
            #[trigger] centroid_at(after, d, c),
        ) || is_nudged(all, centroid_at(after, d, c)) by {
            if c != target {
                let i = choose|i: int|
                    0 <= i < part.len() && match #[trigger] part[i] {
                        Refill::Donor { cluster, donor } => cluster == c,
                        Refill::Row { cluster } => cluster == c,
                    };
                assert(short[i] == part[i]);
                assert(is_refilled(short, c));
                assert(!is_donor(short, c));
                assert(centroid_at(after, d, c) == centroid_at(before, d, c));
            }
        }
    } else {
        assert(plan.take(0) =~= Seq::<Refill>::empty());
    }
}

/// After an update the centroid of each cluster that has rows, and gives none of them away, is the
/// mean of its rows. A cluster without rows is refilled: its centroid is one of the rows, or that
/// of the cluster that gives, nudged away. Where each cluster has rows, each centroid is a mean.
pub proof fn updates_give_the_means(
    all: Clustering,
    before: Seq<u32>,
    assignments: Seq<usize>,
    after: Seq<u32>,
)
    requires
        all.data.len() >= all.n * all.d,
        assignments.len() == all.n,
        before.len() == all.k * all.d,
        means_fit(all),
        nudges_fit(all),
        all.updated(before, assignments, after),
    ensures
        after.len() == all.k * all.d,
        ({
            let plan = all.refill_plan(assignments);
            &&& forall|c: usize| c < all.k && has_rows(assignments, c) && !is_donor(plan, c)
                ==> is_mean_of(all, assignments, c, #[trigger] centroid_at(after, all.d, c))
            &&& forall|c: usize| c < all.k && !has_rows(assignments, c) && !is_donor(plan, c)
                ==> is_data_row(all, #[trigger] centroid_at(after, all.d, c)) || is_nudged(
                all,
                centroid_at(after, all.d, c),
            )
        }),
        (forall|c: usize| c < all.k ==> has_rows(assignments, c)) ==> forall|c: usize|
            c < all.k ==> is_mean_of(all, assignments, c, #[trigger] centroid_at(after, all.d, c)),
{
    let plan = all.refill_plan(assignments);
    let drawn = choose|drawn: Seq<usize>| #[trigger]
        all.are_draws(assignments, drawn) && after == all.all_refilled(
            all.moved(before, assignments, all.k as int),
            plan,
            drawn,
            plan.len() as int,
        );
    let moved = all.moved(before, assignments, all.k as int);
    let counts = kmeans::cluster_sizes(assignments, all.k as nat);
    centroids_move_to_their_means(all, before, assignments, all.k as int);
    kmeans::refilling_keeps_the_rows(counts, all.k as int);
    empty_clusters_are_refilled(counts, all.k as int);
    lemma_all_refilled(all, moved, plan, drawn, plan.len() as int);
    assert(plan.take(plan.len() as int) =~= plan);
    assert forall|c: usize| c < all.k implies (has_rows(assignments, c) <==> !#[trigger] is_refilled(
        plan,
        c,
    )) by {
        lemma_cluster(all, assignments, c);
        assert(counts[c as int] == kmeans::members(assignments, c));
    }
    assert forall|c: usize| c < all.k && has_rows(assignments, c) && !is_donor(plan, c) implies
        is_mean_of(all, assignments, c, #[trigger] centroid_at(after, all.d, c)) by {
        assert(!is_refilled(plan, c));
        assert(centroid_at(after, all.d, c) == centroid_at(moved, all.d, c));
    }
    assert forall|c: usize| c < all.k && !has_rows(assignments, c) && !is_donor(
        plan,
        c,
    ) implies is_data_row(all, #[trigger] centroid_at(after, all.d, c)) || is_nudged(
        all,
        centroid_at(after, all.d, c),
    ) by {
        assert(is_refilled(plan, c));
    }
    if forall|c: usize| c < all.k ==> has_rows(assignments, c) {
        assert forall|c: int| 0 <= c < all.k implies counts[c] > 0 by {
            lemma_cluster(all, assignments, c as usize);
            assert(has_rows(assignments, c as usize));
        }
        assert(plan.len() == 0);
    }
}

/// Without a graph of the centroids a row goes to a list that no other list is nearer than.
pub proof fn rows_without_a_graph_go_to_the_nearest<
    G,
    S: Fn(&G, usize) -> Option<usize>,
    F: Fn(usize) -> Vec<u32>,
>(search: S, distances: F, i: usize, list: usize)
    requires
        coarse::row_assigned::<G, S, F>(None, search, distances, i, list),
    ensures
        exists|row: Vec<u32>| #[trigger]
            call_ensures(distances, (i,), row) && names_least(row@, list as int),
{
    let row = choose|row: Vec<u32>| #[trigger]
        call_ensures(distances, (i,), row) && kmeans::is_nearest(row@, list as int);
    nearest_is_least(row@, list as int);
}

/// A graph of the centroids is asked for once at most: what is prepared stays as it is, however
/// often it is prepared again; with fewer than a million centroid values none is ever asked for.
pub proof fn a_graph_is_asked_for_once<
    G,
    B: Fn(&Vec<u32>, DiskAnnBuildParams) -> Option<G>,
>(
    start: CoarseAssignment<G>,
    first: CoarseAssignment<G>,
    second: CoarseAssignment<G>,
    centroids: &Vec<u32>,
    others: &Vec<u32>,
    nlist: usize,
    d: usize,
    build: B,
)
    requires
        start.prepared(centroids, nlist, d, build, first),
        first.prepared(others, nlist, d, build, second),
    ensures
        second.graph == first.graph,
        d * nlist < 1_000_000 ==> first.graph == start.graph,
        d * nlist >= 1_000_000 && !start.build_attempted && first.graph != start.graph
            ==> exists|params: DiskAnnBuildParams| #[trigger]
            call_ensures(build, (centroids, params), first.graph),
{
}

/// The size of a cluster is the number of rows that are assigned to it.
pub proof fn clusters_are_as_large_as_their_rows(assignments: Seq<usize>, k: nat, c: usize)
    requires
        c < k,
        assignments.len() <= usize::MAX,
    ensures
        kmeans::cluster_sizes(assignments, k).len() == k,
        kmeans::cluster_sizes(assignments, k)[c as int] == assignments.filter(
            |a: usize| a == c,
        ).len(),
{
    lemma_members(assignments, c);
    kmeans::lemma_members_fit(assignments, c);
}

proof fn lemma_members(assignments: Seq<usize>, c: usize)
    ensures
        kmeans::members(assignments, c) == assignments.filter(|a: usize| a == c).len(),
    decreases assignments.len(),
{
    reveal(Seq::filter);
    if assignments.len() > 0 {
        lemma_members(assignments.drop_last(), c);
    }
}

/// The rows of an index are those of all its lists.
pub proof fn the_rows_of_all_lists_count(ids: Seq<Seq<i64>>)
    ensures
        ivf_lists::total_rows(ids) == ids.fold_left(0nat, |n: nat, list: Seq<i64>| n + list.len()),
    decreases ids.len(),
{
    if ids.len() > 0 {
        the_rows_of_all_lists_count(ids.drop_last());
    }
}

} // verus!
