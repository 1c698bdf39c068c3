//! What the inverted lists of all index types have in common.
use vstd::multiset::Multiset;
use vstd::prelude::*;

use crate::error::IndexError;
use crate::sort;
use crate::varint;

verus! {

/// How many rows the lists hold together.
pub open spec fn total_rows(ids: Seq<Seq<i64>>) -> nat
    decreases ids.len(),
{
    if ids.len() == 0 {
        0
    } else {
        total_rows(ids.drop_last()) + ids.last().len()
    }
}

/// How lists of ids are stored.
pub open spec fn id_lists(v: Seq<Vec<i64>>) -> Seq<Seq<i64>> {
    Seq::new(v.len(), |i: int| v[i]@)
}

pub open spec fn value_lists(v: Seq<Vec<u32>>) -> Seq<Seq<u32>> {
    Seq::new(v.len(), |i: int| v[i]@)
}

pub open spec fn byte_lists(v: Seq<Vec<u8>>) -> Seq<Seq<u8>> {
    Seq::new(v.len(), |i: int| v[i]@)
}

pub open spec fn id_keys(ids: Seq<i64>) -> Seq<i128> {
    Seq::new(ids.len(), |i: int| ids[i] as i128)
}

/// The positions of the ids in ascending order.
pub open spec fn id_order(ids: Seq<i64>) -> Seq<usize> {
    sort::stable_order(id_keys(ids))
}

/// The ids in ascending order.
pub open spec fn sorted_ids(ids: Seq<i64>) -> Seq<i64> {
    sort::picked(ids, id_order(ids))
}

/// The rows of `width` items each at the given positions, one behind the other.
pub open spec fn gathered<T>(items: Seq<T>, width: nat, order: Seq<usize>) -> Seq<T>
    decreases order.len(),
{
    if order.len() == 0 {
        Seq::empty()
    } else {
        gathered(items, width, order.drop_last()) + row(items, width, order.last() as int)
    }
}

/// The `i`-th row of `width` items.
pub open spec fn row<T>(items: Seq<T>, width: nat, i: int) -> Seq<T> {
    items.subrange(i * width, i * width + width)
}

/// The rows of a list in the order of its ids.
pub open spec fn sorted_rows<T>(items: Seq<T>, width: nat, ids: Seq<i64>) -> Seq<T> {
    gathered(items, width, id_order(ids))
}

pub proof fn lemma_row_bounds(n: nat, width: nat, i: int)
    requires
        0 <= i < n,
    ensures
        0 <= i * width,
        i * width + width <= n * width,
{
    assert(i * width + width <= n * width) by (nonlinear_arith)
        requires
            0 <= i < n,
            width >= 0,
    ;
    assert(0 <= i * width) by (nonlinear_arith)
        requires
            0 <= i,
            width >= 0,
    ;
}

pub proof fn lemma_gathered_len<T>(items: Seq<T>, width: nat, order: Seq<usize>, n: nat)
    requires
        items.len() >= n * width,
        forall|i: int| 0 <= i < order.len() ==> #[trigger] order[i] < n,
    ensures
        gathered(items, width, order).len() == order.len() * width,
    decreases order.len(),
{
    if order.len() > 0 {
        let front = order.drop_last();
        assert forall|i: int| 0 <= i < front.len() implies #[trigger] front[i] < n by {
            assert(front[i] == order[i]);
        }
        lemma_gathered_len(items, width, front, n);
        assert(order[order.len() - 1] < n);
        lemma_row_bounds(n, width, order.last() as int);
        assert(order.len() * width == (order.len() - 1) * width + width) by (nonlinear_arith)
            requires
                order.len() >= 1,
        ;
    } else {
        assert(order.len() * width == 0) by (nonlinear_arith)
            requires
                order.len() == 0,
        ;
    }
}

/// The ids in ascending order are the ids.
pub proof fn lemma_sorted_ids(ids: Seq<i64>)
    requires
        ids.len() <= usize::MAX,
    ensures
        id_order(ids).len() == ids.len(),
        forall|i: int| 0 <= i < ids.len() ==> #[trigger] id_order(ids)[i] < ids.len(),
        id_order(ids).no_duplicates(),
        forall|v: usize| v < ids.len() ==> #[trigger] id_order(ids).contains(v),
        sorted_ids(ids).len() == ids.len(),
        varint::ids_sorted(sorted_ids(ids)),
{
    let keys = id_keys(ids);
    sort::stable_order_facts(keys);
    let order = id_order(ids);
    assert forall|i: int, j: int| 0 <= i <= j < ids.len() implies sorted_ids(ids)[i] <= sorted_ids(
        ids,
    )[j] by {
        assert(keys[order[i] as int] <= keys[order[j] as int]);
    }
}

/// The positions of the ids in ascending order.
pub fn sort_ids(ids: &Vec<i64>) -> (order: Vec<usize>)
    ensures
        order@ == id_order(ids@),
        order@.len() == ids@.len(),
        forall|i: int| 0 <= i < order@.len() ==> #[trigger] order@[i] < ids@.len(),
{
    let mut keys: Vec<i128> = Vec::new();
    for i in 0..ids.len()
        invariant
            keys@ == id_keys(ids@).take(i as int),
    {
        keys.push(ids[i] as i128);
        assert(keys@ =~= id_keys(ids@).take(i + 1));
    }
    assert(keys@ =~= id_keys(ids@));
    proof {
        assert(ids@.len() == ids.len());
        lemma_sorted_ids(ids@);
    }
    sort::sorted_order(keys.as_slice())
}

/// The items at the given positions.
pub fn pick<T: Copy>(items: &Vec<T>, order: &Vec<usize>) -> (r: Vec<T>)
    requires
        forall|i: int| 0 <= i < order@.len() ==> #[trigger] order@[i] < items@.len(),
    ensures
        r@ == sort::picked(items@, order@),
{
    let mut r: Vec<T> = Vec::new();
    for i in 0..order.len()
        invariant
            forall|i: int| 0 <= i < order@.len() ==> #[trigger] order@[i] < items@.len(),
            r@ == sort::picked(items@, order@).take(i as int),
    {
        r.push(items[order[i]]);
        assert(r@ =~= sort::picked(items@, order@).take(i + 1));
    }
    assert(r@ =~= sort::picked(items@, order@));
    r
}

/// The rows of `width` items each at the given positions.
pub fn gather<T: Copy>(items: &Vec<T>, width: usize, order: &Vec<usize>, n: usize) -> (r: Vec<T>)
    requires
        items@.len() >= n * width,
        forall|i: int| 0 <= i < order@.len() ==> #[trigger] order@[i] < n,
    ensures
        r@ == gathered(items@, width as nat, order@),
{
    let mut r: Vec<T> = Vec::new();
    let total: usize = items.len();
    assert(order@.take(0) =~= Seq::<usize>::empty());
    for i in 0..order.len()
        invariant
            total == items@.len(),
            items@.len() >= n * width,
            forall|i: int| 0 <= i < order@.len() ==> #[trigger] order@[i] < n,
            r@ == gathered(items@, width as nat, order@.take(i as int)),
    {
        let at: usize = order[i];
        let ghost before = r@;
        proof {
            lemma_row_bounds(n as nat, width as nat, at as int);
        }
        let start: usize = at * width;
        for j in 0..width
            invariant
                total == items@.len(),
                start == at * width,
                start + width <= total,
                r@ == before + items@.subrange(start as int, start + j),
        {
            r.push(items[start + j]);
            assert(r@ =~= before + items@.subrange(start as int, start + j + 1));
        }
        proof {
            assert(order@.take(i + 1).drop_last() =~= order@.take(i as int));
            assert(r@ =~= gathered(items@, width as nat, order@.take(i + 1)));
        }
    }
    assert(order@.take(order@.len() as int) =~= order@);
    r
}

/// How many rows the lists hold together.
pub fn count_rows(ids: &Vec<Vec<i64>>) -> (r: Result<i64, IndexError>)
    ensures
        match r {
            Ok(v) => v == total_rows(id_lists(ids@)),
            Err(e) => total_rows(id_lists(ids@)) > i64::MAX && e == IndexError::TooManyVectors,
        },
{
    let ghost all = id_lists(ids@);
    let mut sum: u64 = 0;
    assert(all.take(0) =~= Seq::<Seq<i64>>::empty());
    for i in 0..ids.len()
        invariant
            all == id_lists(ids@),
            sum == total_rows(all.take(i as int)),
            sum <= i64::MAX,
    {
        assert(all.take(i + 1).drop_last() =~= all.take(i as int));
        assert(all[i as int] == ids@[i as int]@);
        let count: u64 = ids[i].len() as u64;
        if count > i64::MAX as u64 - sum {
            proof {
                lemma_total_prefix(all, i + 1);
            }
            return Err(IndexError::TooManyVectors);
        }
        sum = sum + count;
    }
    assert(all.take(all.len() as int) =~= all);
    Ok(sum as i64)
}

pub proof fn lemma_total_prefix(ids: Seq<Seq<i64>>, k: int)
    requires
        0 <= k <= ids.len(),
    ensures
        total_rows(ids.take(k)) <= total_rows(ids),
    decreases ids.len() - k,
{
    if k == ids.len() {
        assert(ids.take(k) =~= ids);
    } else {
        lemma_total_prefix(ids, k + 1);
        assert(ids.take(k + 1).drop_last() =~= ids.take(k));
    }
}

/// The rows that go to list `l`, in their order.
pub open spec fn rows_for(assignments: Seq<usize>, l: usize) -> Seq<usize>
    decreases assignments.len(),
{
    if assignments.len() == 0 {
        Seq::empty()
    } else {
        let front = rows_for(assignments.drop_last(), l);
        if assignments.last() == l {
            front.push((assignments.len() - 1) as usize)
        } else {
            front
        }
    }
}

/// The lists after rows of `width` items each have been appended to the lists that they go to.
pub open spec fn extended<T>(
    lists: Seq<Seq<T>>,
    items: Seq<T>,
    width: nat,
    assignments: Seq<usize>,
) -> Seq<Seq<T>> {
    Seq::new(
        lists.len(),
        |l: int| lists[l] + gathered(items, width, rows_for(assignments, l as usize)),
    )
}

pub open spec fn all_lists<T>(v: Seq<Vec<T>>) -> Seq<Seq<T>> {
    Seq::new(v.len(), |i: int| v[i]@)
}

/// Every row goes to one list, and only rows that were added go anywhere.
pub proof fn each_row_goes_to_its_list(assignments: Seq<usize>, l: usize, row: usize)
    requires
        assignments.len() <= usize::MAX,
    ensures
        rows_for(assignments, l).contains(row) <==> (row < assignments.len()
            && assignments[row as int] == l),
        forall|i: int|
            0 <= i < rows_for(assignments, l).len() ==> #[trigger] rows_for(assignments, l)[i]
                < assignments.len(),
    decreases assignments.len(),
{
    if assignments.len() > 0 {
        let front = assignments.drop_last();
        each_row_goes_to_its_list(front, l, row);
        let before = rows_for(front, l);
        let after = rows_for(assignments, l);
        if before.contains(row) {
            let i = choose|i: int| 0 <= i < before.len() && before[i] == row;
            assert(after[i] == row);
        }
        if after.contains(row) {
            let i = choose|i: int| 0 <= i < after.len() && after[i] == row;
            if i < before.len() {
                assert(before[i] == row);
            }
        }
        if row == assignments.len() - 1 && assignments.last() == l {
            assert(after[before.len() as int] == row);
        }
    }
}

/// Rows that stand in the front are found there whatever comes behind.
proof fn lemma_gathered_front<T>(items: Seq<T>, more: Seq<T>, width: nat, order: Seq<usize>, n: nat)
    requires
        items.len() >= n * width,
        forall|i: int| 0 <= i < order.len() ==> #[trigger] order[i] < n,
    ensures
        gathered(items + more, width, order) == gathered(items, width, order),
    decreases order.len(),
{
    if order.len() > 0 {
        let front = order.drop_last();
        assert forall|i: int| 0 <= i < front.len() implies #[trigger] front[i] < n by {
            assert(front[i] == order[i]);
        }
        lemma_gathered_front(items, more, width, front, n);
        assert(order[order.len() - 1] < n);
        let at = order.last() as int;
        lemma_row_bounds(n, width, at);
        assert((items + more).subrange(at * width, at * width + width) =~= items.subrange(
            at * width,
            at * width + width,
        ));
    }
}

proof fn lemma_rows_in_parts<T>(
    items: Seq<T>,
    more: Seq<T>,
    width: nat,
    first: Seq<usize>,
    second: Seq<usize>,
    l: usize,
)
    requires
        items.len() == first.len() * width,
        more.len() >= second.len() * width,
        first.len() + second.len() <= usize::MAX,
    ensures
        gathered(items + more, width, rows_for(first + second, l)) == gathered(
            items,
            width,
            rows_for(first, l),
        ) + gathered(more, width, rows_for(second, l)),
    decreases second.len(),
{
    let n = first.len();
    let m = second.len();
    if m == 0 {
        assert(first + second =~= first);
        each_row_goes_to_its_list(first, l, 0);
        lemma_gathered_front(items, more, width, rows_for(first, l), n);
    } else {
        let front = second.drop_last();
        let at = m - 1;
        assert(at * width + width == m * width && (n + at) * width == n * width + at * width && 0
            <= at * width) by (nonlinear_arith)
            requires
                m >= 1,
                at == m - 1,
                n >= 0,
        ;
        lemma_rows_in_parts(items, more, width, first, front, l);
        let all = first + second;
        assert(all.drop_last() =~= first + front);
        if second.last() == l {
            let before = rows_for(first + front, l);
            let here = (n + at) as usize;
            assert(rows_for(all, l) == before.push(here));
            assert(before.push(here).drop_last() =~= before);
            assert((items + more).subrange((n + at) * width, (n + at) * width + width)
                =~= more.subrange(at * width, at * width + width));
            assert(rows_for(second, l).drop_last() =~= rows_for(front, l));
            assert(gathered(items + more, width, rows_for(all, l)) =~= gathered(
                items,
                width,
                rows_for(first, l),
            ) + gathered(more, width, rows_for(second, l)));
        }
    }
}

/// It is all one whether rows are added at once or in two parts.
pub proof fn adding_at_once_is_adding_in_parts<T>(
    lists: Seq<Seq<T>>,
    items: Seq<T>,
    more: Seq<T>,
    width: nat,
    first: Seq<usize>,
    second: Seq<usize>,
)
    requires
        items.len() == first.len() * width,
        more.len() == second.len() * width,
        first.len() + second.len() <= usize::MAX,
    ensures
        extended(lists, items + more, width, first + second) == extended(
            extended(lists, items, width, first),
            more,
            width,
            second,
        ),
{
    let at_once = extended(lists, items + more, width, first + second);
    let in_parts = extended(extended(lists, items, width, first), more, width, second);
    assert forall|l: int| 0 <= l < lists.len() implies at_once[l] == in_parts[l] by {
        lemma_rows_in_parts(items, more, width, first, second, l as usize);
        assert(at_once[l] =~= in_parts[l]);
    }
    assert(at_once =~= in_parts);
}

/// All that the lists hold, in whatever order.
pub open spec fn held<T>(lists: Seq<Seq<T>>) -> Multiset<T>
    decreases lists.len(),
{
    if lists.len() == 0 {
        Multiset::empty()
    } else {
        held(lists.drop_last()).add(lists.last().to_multiset())
    }
}

proof fn lemma_held_push<T>(lists: Seq<Seq<T>>, l: int, item: T)
    requires
        0 <= l < lists.len(),
    ensures
        held(lists.update(l, lists[l].push(item))) == held(lists).insert(item),
    decreases lists.len(),
{
    broadcast use vstd::seq_lib::group_to_multiset_ensures;

    let after = lists.update(l, lists[l].push(item));
    if l == lists.len() - 1 {
        assert(after.drop_last() =~= lists.drop_last());
    } else {
        assert(after.drop_last() =~= lists.drop_last().update(l, lists[l].push(item)));
        lemma_held_push(lists.drop_last(), l, item);
    }
    assert(held(after) =~= held(lists).insert(item));
}

/// Every item that is added goes to one list, once; and what a list held before stays in front.
pub proof fn added_items_are_kept<T>(lists: Seq<Seq<T>>, items: Seq<T>, assignments: Seq<usize>)
    requires
        lists.len() <= usize::MAX,
        items.len() == assignments.len(),
        items.len() <= usize::MAX,
        forall|i: int| 0 <= i < assignments.len() ==> #[trigger] assignments[i] < lists.len(),
    ensures
        held(extended(lists, items, 1, assignments)) == held(lists).add(items.to_multiset()),
        forall|l: int|
            0 <= l < lists.len() ==> #[trigger] lists[l].is_prefix_of(
                extended(lists, items, 1, assignments)[l],
            ),
    decreases items.len(),
{
    broadcast use vstd::seq_lib::group_to_multiset_ensures;

    let after = extended(lists, items, 1, assignments);
    if items.len() == 0 {
        assert forall|l: int| 0 <= l < lists.len() implies after[l] == lists[l] by {
            assert(after[l] =~= lists[l]);
        }
        assert(after =~= lists);
        assert(items.to_multiset() =~= Multiset::<T>::empty());
        assert(held(lists).add(items.to_multiset()) =~= held(lists));
    } else {
        let n = (items.len() - 1) as nat;
        let front = items.drop_last();
        let x = items.last();
        let lower = assignments.drop_last();
        let at = assignments.last() as int;
        assert(at == assignments[n as int]);
        assert forall|i: int| 0 <= i < lower.len() implies #[trigger] lower[i] < lists.len() by {
            assert(lower[i] == assignments[i]);
        }
        added_items_are_kept(lists, front, lower);
        let before = extended(lists, front, 1, lower);
        assert(front + seq![x] =~= items);
        assert forall|l: int| 0 <= l < lists.len() implies after[l] == (if l == at {
            before[l].push(x)
        } else {
            before[l]
        }) by {
            let rows = rows_for(lower, l as usize);
            each_row_goes_to_its_list(lower, l as usize, 0);
            lemma_gathered_front(front, seq![x], 1, rows, n);
            if l == at {
                assert(rows.push(n as usize).drop_last() =~= rows);
                assert(row(items, 1, n as int) =~= seq![x]);
                assert(after[l] =~= before[l].push(x));
            }
        }
        assert(after =~= before.update(at, before[at].push(x)));
        lemma_held_push(before, at, x);
        assert(items =~= front.push(x));
        assert(held(after) =~= held(lists).add(items.to_multiset()));
    }
}

/// Appends rows of `width` items each to the lists that they go to.
pub fn append_assigned<T: Copy>(
    lists: &mut Vec<Vec<T>>,
    items: &Vec<T>,
    width: usize,
    assignments: &Vec<usize>,
)
    requires
        items@.len() >= assignments@.len() * width,
        forall|i: int| 0 <= i < assignments@.len() ==> #[trigger] assignments@[i] < old(lists)@.len(),
    ensures
        all_lists(final(lists)@) == extended(
            all_lists(old(lists)@),
            items@,
            width as nat,
            assignments@,
        ),
{
    let ghost before = all_lists(lists@);
    let ghost count = lists@.len();
    assert(count == lists.len());
    let n: usize = assignments.len();
    let total: usize = items.len();
    proof {
        assert(assignments@.take(0) =~= Seq::<usize>::empty());
        assert(all_lists(lists@) =~= extended(
            before,
            items@,
            width as nat,
            assignments@.take(0),
        ));
    }
    for i in 0..n
        invariant
            n == assignments@.len(),
            total == items@.len(),
            items@.len() >= n * width,
            count == lists@.len(),
            count <= usize::MAX,
            before.len() == count,
            forall|i: int| 0 <= i < n ==> #[trigger] assignments@[i] < count,
            all_lists(lists@) == extended(
                before,
                items@,
                width as nat,
                assignments@.take(i as int),
            ),
    {
        let l: usize = assignments[i];
        proof {
            lemma_row_bounds(n as nat, width as nat, i as int);
        }
        let start: usize = i * width;
        let ghost prior = all_lists(lists@);
        assert(lists@[l as int]@ == prior[l as int]);
        for j in 0..width
            invariant
                total == items@.len(),
                start + width <= total,
                count == lists@.len(),
                prior.len() == count,
                l < count,
                forall|k: int| 0 <= k < count && k != l ==> (#[trigger] lists@[k])@ == prior[k],
                lists@[l as int]@ == prior[l as int] + items@.subrange(start as int, start + j),
        {
            lists[l].push(items[start + j]);
            assert(lists@[l as int]@ =~= prior[l as int] + items@.subrange(
                start as int,
                start + j + 1,
            ));
        }
        proof {
            let a = assignments@.take(i + 1);
            assert(a.drop_last() =~= assignments@.take(i as int));
            assert forall|k: int| 0 <= k < count implies (#[trigger] lists@[k])@ == extended(
                before,
                items@,
                width as nat,
                a,
            )[k] by {
                let rows = rows_for(assignments@.take(i as int), k as usize);
                assert(prior[k] == before[k] + gathered(items@, width as nat, rows));
                if k == l {
                    assert(rows.push(i).drop_last() =~= rows);
                    assert(lists@[k]@ =~= before[k] + gathered(
                        items@,
                        width as nat,
                        rows_for(a, k as usize),
                    ));
                }
            }
            assert(all_lists(lists@) =~= extended(before, items@, width as nat, a));
        }
    }
    assert(assignments@.take(n as int) =~= assignments@);
}

} // verus!
