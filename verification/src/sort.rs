//! A stable sort of positions by integer keys.
use vstd::prelude::*;
use vstd::relations;
use vstd::seq_lib;

verus! {

/// Position `a` comes before position `b`, or is the same: by key, and in the old order among
/// equal keys.
pub open spec fn key_order(keys: Seq<i128>) -> spec_fn(usize, usize) -> bool {
    |a: usize, b: usize|
        keys[a as int] < keys[b as int] || (keys[a as int] == keys[b as int] && a <= b)
}

/// The positions from `lo` up to `hi`.
pub open spec fn positions(lo: int, hi: int) -> Seq<usize> {
    Seq::new((hi - lo) as nat, |i: int| (lo + i) as usize)
}

/// The positions of `keys` in the stable order of the keys.
pub open spec fn stable_order(keys: Seq<i128>) -> Seq<usize> {
    positions(0, keys.len() as int).sort_by(key_order(keys))
}

/// The items at the given positions, in that order.
pub open spec fn picked<T>(items: Seq<T>, order: Seq<usize>) -> Seq<T> {
    Seq::new(order.len(), |i: int| items[order[i] as int])
}

pub proof fn lemma_key_order_total(keys: Seq<i128>)
    ensures
        relations::total_ordering(key_order(keys)),
{
}

/// The stable order names each position once, with keys that never go down and with equal keys in
/// their old order.
pub proof fn stable_order_facts(keys: Seq<i128>)
    requires
        keys.len() <= usize::MAX,
    ensures
        stable_order(keys).len() == keys.len(),
        forall|i: int| 0 <= i < keys.len() ==> #[trigger] stable_order(keys)[i] < keys.len(),
        stable_order(keys).no_duplicates(),
        forall|v: usize| v < keys.len() ==> #[trigger] stable_order(keys).contains(v),
        forall|i: int, j: int|
            0 <= i <= j < keys.len() ==> keys[#[trigger] stable_order(keys)[i] as int]
                <= keys[#[trigger] stable_order(keys)[j] as int],
        forall|i: int, j: int|
            0 <= i < j < keys.len() && keys[stable_order(keys)[i] as int] == keys[stable_order(
                keys,
            )[j] as int] ==> #[trigger] stable_order(keys)[i] < #[trigger] stable_order(keys)[j],
{
    broadcast use seq_lib::group_to_multiset_ensures;

    let leq = key_order(keys);
    let ids = positions(0, keys.len() as int);
    let order = stable_order(keys);
    lemma_key_order_total(keys);
    ids.lemma_sort_by_ensures(leq);
    assert(ids.no_duplicates());
    assert(order.to_multiset().len() == ids.to_multiset().len());
    assert(order.len() == ids.len());
    ids.lemma_multiset_has_no_duplicates();
    order.lemma_multiset_has_no_duplicates_conv();
    assert forall|v: usize| v < keys.len() implies #[trigger] order.contains(v) by {
        assert(ids[v as int] == v);
        assert(ids.contains(v));
        assert(ids.to_multiset().count(v) > 0);
        assert(order.to_multiset().count(v) > 0);
    }
    assert forall|i: int| 0 <= i < keys.len() implies #[trigger] order[i] < keys.len() by {
        assert(order.contains(order[i]));
        assert(order.to_multiset().count(order[i]) > 0);
        assert(ids.to_multiset().count(order[i]) > 0);
        assert(ids.contains(order[i]));
    }
    assert forall|i: int, j: int| 0 <= i <= j < keys.len() implies keys[#[trigger] order[i] as int]
        <= keys[#[trigger] order[j] as int] by {
        if i < j {
            assert(leq(order[i], order[j]));
        }
    }
    assert forall|i: int, j: int|
        0 <= i < j < keys.len() && keys[order[i] as int] == keys[order[j] as int] implies
        #[trigger] order[i] < #[trigger] order[j] by {
        assert(leq(order[i], order[j]));
        assert(order[i] != order[j]);
    }
}

/// Merges two sorted runs of positions.
fn merge_runs(keys: &[i128], a: &Vec<usize>, b: &Vec<usize>) -> (out: Vec<usize>)
    requires
        forall|i: int| 0 <= i < a@.len() ==> #[trigger] a@[i] < keys@.len(),
        forall|i: int| 0 <= i < b@.len() ==> #[trigger] b@[i] < keys@.len(),
        relations::sorted_by(a@, key_order(keys@)),
        relations::sorted_by(b@, key_order(keys@)),
    ensures
        relations::sorted_by(out@, key_order(keys@)),
        out@.to_multiset() == a@.to_multiset().add(b@.to_multiset()),
        forall|i: int| 0 <= i < out@.len() ==> #[trigger] out@[i] < keys@.len(),
{
    broadcast use seq_lib::group_to_multiset_ensures;

    let ghost leq = key_order(keys@);
    let mut out: Vec<usize> = Vec::new();
    let mut i: usize = 0;
    let mut j: usize = 0;
    proof {
        assert(a@.take(0) =~= Seq::<usize>::empty());
        assert(b@.take(0) =~= Seq::<usize>::empty());
        assert(out@.to_multiset() =~= a@.take(0).to_multiset().add(b@.take(0).to_multiset()));
    }
    while i < a.len() || j < b.len()
        invariant
            i <= a@.len(),
            j <= b@.len(),
            leq == key_order(keys@),
            forall|k: int| 0 <= k < a@.len() ==> #[trigger] a@[k] < keys@.len(),
            forall|k: int| 0 <= k < b@.len() ==> #[trigger] b@[k] < keys@.len(),
            forall|k: int| 0 <= k < out@.len() ==> #[trigger] out@[k] < keys@.len(),
            relations::sorted_by(a@, leq),
            relations::sorted_by(b@, leq),
            relations::sorted_by(out@, leq),
            forall|k: int, l: int|
                0 <= k < out@.len() && i <= l < a@.len() ==> leq(#[trigger] out@[k], #[trigger] a@[l]),
            forall|k: int, l: int|
                0 <= k < out@.len() && j <= l < b@.len() ==> leq(#[trigger] out@[k], #[trigger] b@[l]),
            out@.to_multiset() == a@.take(i as int).to_multiset().add(
                b@.take(j as int).to_multiset(),
            ),
        decreases a@.len() - i + b@.len() - j,
    {
        let take_left: bool = if i >= a.len() {
            false
        } else if j >= b.len() {
            true
        } else {
            let x: usize = a[i];
            let y: usize = b[j];
            keys[x] < keys[y] || (keys[x] == keys[y] && x <= y)
        };
        let ghost before = out@;
        if take_left {
            let x: usize = a[i];
            proof {
                assert(a@.take(i + 1) =~= a@.take(i as int).push(x));
                assert forall|l: int| j <= l < b@.len() implies leq(x, #[trigger] b@[l]) by {
                    assert(leq(x, b@[j as int]));
                    if l > j {
                        assert(leq(b@[j as int], b@[l]));
                    }
                }
                assert forall|l: int| i < l < a@.len() implies leq(x, #[trigger] a@[l]) by {
                    assert(leq(a@[i as int], a@[l]));
                }
            }
            out.push(x);
            i = i + 1;
            proof {
                broadcast use seq_lib::group_to_multiset_ensures;

                assert(out@ == before.push(x));
                assert(out@.to_multiset() =~= a@.take(i as int).to_multiset().add(
                    b@.take(j as int).to_multiset(),
                ));
            }
        } else {
            let y: usize = b[j];
            proof {
                assert(b@.take(j + 1) =~= b@.take(j as int).push(y));
                assert forall|l: int| i <= l < a@.len() implies leq(y, #[trigger] a@[l]) by {
                    assert(leq(y, a@[i as int]));
                    if l > i {
                        assert(leq(a@[i as int], a@[l]));
                    }
                }
                assert forall|l: int| j < l < b@.len() implies leq(y, #[trigger] b@[l]) by {
                    assert(leq(b@[j as int], b@[l]));
                }
            }
            out.push(y);
            j = j + 1;
            proof {
                broadcast use seq_lib::group_to_multiset_ensures;

                assert(out@ == before.push(y));
                assert(out@.to_multiset() =~= a@.take(i as int).to_multiset().add(
                    b@.take(j as int).to_multiset(),
                ));
            }
        }
    }
    assert(a@.take(a@.len() as int) =~= a@);
    assert(b@.take(b@.len() as int) =~= b@);
    out
}

fn sort_positions(keys: &[i128], lo: usize, hi: usize) -> (out: Vec<usize>)
    requires
        lo <= hi <= keys@.len(),
    ensures
        relations::sorted_by(out@, key_order(keys@)),
        out@.to_multiset() == positions(lo as int, hi as int).to_multiset(),
        forall|i: int| 0 <= i < out@.len() ==> #[trigger] out@[i] < keys@.len(),
    decreases hi - lo,
{
    if hi - lo <= 1 {
        let mut out: Vec<usize> = Vec::new();
        if lo < hi {
            out.push(lo);
        }
        assert(out@ =~= positions(lo as int, hi as int));
        return out;
    }
    let mid: usize = lo + (hi - lo) / 2;
    let left = sort_positions(keys, lo, mid);
    let right = sort_positions(keys, mid, hi);
    let out = merge_runs(keys, &left, &right);
    proof {
        let a = positions(lo as int, mid as int);
        let b = positions(mid as int, hi as int);
        assert(positions(lo as int, hi as int) =~= a + b);
        seq_lib::lemma_multiset_commutative(a, b);
    }
    out
}

/// Sorts the positions of `keys`.
pub fn sorted_order(keys: &[i128]) -> (order: Vec<usize>)
    ensures
        order@ == stable_order(keys@),
{
    let order = sort_positions(keys, 0, keys.len());
    proof {
        let leq = key_order(keys@);
        let ids = positions(0, keys@.len() as int);
        lemma_key_order_total(keys@);
        ids.lemma_sort_by_ensures(leq);
        seq_lib::lemma_sorted_unique(order@, stable_order(keys@), leq);
    }
    order
}

/// Moves the items into the given order.
pub fn rearrange<T>(items: Vec<T>, order: &Vec<usize>) -> (r: Vec<T>)
    requires
        order@.no_duplicates(),
        order@.len() == items@.len(),
        forall|i: int| 0 <= i < order@.len() ==> #[trigger] order@[i] < items@.len(),
    ensures
        r@ == picked(items@, order@),
{
    let ghost all = items@;
    let n: usize = items.len();
    let mut slots: Vec<Option<T>> = Vec::new();
    let mut rest: Vec<T> = items;
    for i in 0..n
        invariant
            n == all.len(),
            rest@ == all.take(n - i),
            slots@.len() == i,
            forall|k: int| 0 <= k < i ==> (#[trigger] slots@[k]) == Some(all[n - 1 - k]),
    {
        assert(rest@.len() > 0);
        let last: Option<T> = rest.pop();
        slots.push(last);
        assert(rest@ =~= all.take(n - i - 1));
    }
    let mut r: Vec<T> = Vec::new();
    for i in 0..n
        invariant
            n == all.len(),
            order@.no_duplicates(),
            order@.len() == n,
            forall|i: int| 0 <= i < order@.len() ==> #[trigger] order@[i] < n,
            slots@.len() == n,
            r@.len() == i,
            forall|k: int| 0 <= k < i ==> #[trigger] r@[k] == all[order@[k] as int],
            forall|k: int|
                i <= k < n ==> slots@[n - 1 - (#[trigger] order@[k])] == Some(
                    all[order@[k] as int],
                ),
    {
        let at: usize = n - 1 - order[i];
        let taken: Option<T> = slots[at].take();
        match taken {
            Some(v) => {
                r.push(v);
            },
            None => {
                assert(false);
            },
        }
    }
    assert(r@ =~= picked(all, order@));
    r
}

} // verus!
