//! What scans of inverted lists give, told by the rows of the lists.
use std::collections::HashSet;
use vstd::prelude::*;

use crate::float_bits;
use crate::hnsw_search;
use crate::ivf_search;
use crate::ivfrq;
use crate::row_id_filter;
use crate::row_id_filter::RowIdFilter;
use crate::sort;
use crate::topk;
use crate::topk::Hit;

verus! {

/// Row `at.1` of list `at.0` may be given: the list is looked at, and the filter, if there is one,
/// admits the id of the row.
pub open spec fn is_row<T: RowIdFilter>(
    lists: Seq<Vec<i64>>,
    picks: Seq<usize>,
    filter: Option<&T>,
    at: (usize, usize),
) -> bool {
    &&& at.0 < lists.len()
    &&& picks.contains(at.0)
    &&& at.1 < lists[at.0 as int]@.len()
    &&& (filter matches Some(f) ==> f.admits(lists[at.0 as int]@[at.1 as int]))
}

/// No row that may be given has a NaN for its distance.
pub open spec fn rows_have_no_nan<T: RowIdFilter>(
    lists: Seq<Vec<i64>>,
    picks: Seq<usize>,
    filter: Option<&T>,
    dist: spec_fn(usize, usize) -> u32,
) -> bool {
    forall|at: (usize, usize)| #[trigger]
        is_row(lists, picks, filter, at) ==> !float_bits::is_nan(dist(at.0, at.1))
}

/// The row is at least as close as `other`.
pub open spec fn not_farther(
    dist: spec_fn(usize, usize) -> u32,
    at: (usize, usize),
    other: (usize, usize),
) -> bool {
    !float_bits::lt(dist(other.0, other.1), dist(at.0, at.1))
}

/// The rows at `places` are the `k` closest of those that may be given, closest first: each is
/// there once, and one that is missing is not closer than any of them, of which there are then `k`.
pub open spec fn are_closest<T: RowIdFilter>(
    lists: Seq<Vec<i64>>,
    picks: Seq<usize>,
    filter: Option<&T>,
    dist: spec_fn(usize, usize) -> u32,
    k: usize,
    places: Seq<(usize, usize)>,
) -> bool {
    &&& places.no_duplicates()
    &&& places.len() <= k
    &&& forall|j: int| 0 <= j < places.len() ==> is_row(lists, picks, filter, #[trigger] places[j])
    &&& forall|i: int, j: int|
        0 <= i < j < places.len() ==> #[trigger] not_farther(dist, places[i], places[j])
    &&& forall|at: (usize, usize)| #[trigger]
        is_row(lists, picks, filter, at) ==> places.contains(at) || (places.len() == k && forall|
            j: int,
        |
            0 <= j < places.len() ==> #[trigger] not_farther(dist, places[j], at))
}

/// The rows at `places` have different ids and are the closest of their ids: an id that is missing
/// has no row that is closer than any of them, of which there are then `k`.
pub open spec fn are_closest_ids<T: RowIdFilter>(
    lists: Seq<Vec<i64>>,
    picks: Seq<usize>,
    filter: Option<&T>,
    dist: spec_fn(usize, usize) -> u32,
    k: usize,
    places: Seq<(usize, usize)>,
) -> bool {
    &&& places.len() <= k
    &&& forall|j: int| 0 <= j < places.len() ==> is_row(lists, picks, filter, #[trigger] places[j])
    &&& forall|i: int, j: int|
        0 <= i < j < places.len() ==> #[trigger] not_farther(dist, places[i], places[j])
    &&& forall|i: int, j: int|
        0 <= i < j < places.len() ==> id_at(lists, #[trigger] places[i]) != id_at(
            lists,
            #[trigger] places[j],
        )
    &&& forall|at: (usize, usize)| #[trigger]
        is_row(lists, picks, filter, at) ==> closest_of_id(lists, dist, places, at) || (
        places.len() == k && forall|j: int|
            0 <= j < places.len() ==> #[trigger] not_farther(dist, places[j], at))
}

pub open spec fn id_at(lists: Seq<Vec<i64>>, at: (usize, usize)) -> i64 {
    lists[at.0 as int]@[at.1 as int]
}

/// One of the rows at `places` has the id of the row and is at least as close.
pub open spec fn closest_of_id(
    lists: Seq<Vec<i64>>,
    dist: spec_fn(usize, usize) -> u32,
    places: Seq<(usize, usize)>,
    at: (usize, usize),
) -> bool {
    exists|j: int|
        0 <= j < places.len() && id_at(lists, #[trigger] places[j]) == id_at(lists, at)
            && not_farther(dist, places[j], at)
}

/// The hits are the rows at `places`, each with its distance and its id.
pub open spec fn are_rows_at(
    lists: Seq<Vec<i64>>,
    dist: spec_fn(usize, usize) -> u32,
    places: Seq<(usize, usize)>,
    hits: Seq<Hit>,
) -> bool {
    &&& hits.len() == places.len()
    &&& forall|j: int|
        0 <= j < hits.len() ==> (#[trigger] hits[j]).0 == dist(places[j].0, places[j].1)
            && hits[j].1 == id_at(lists, places[j])
}

/// `k` ids and `k` distances hold the rows at `places`, and behind them -1 and the largest value.
pub open spec fn are_given(
    lists: Seq<Vec<i64>>,
    dist: spec_fn(usize, usize) -> u32,
    k: usize,
    places: Seq<(usize, usize)>,
    ids: Seq<i64>,
    dists: Seq<u32>,
) -> bool {
    &&& ids.len() == k
    &&& dists.len() == k
    &&& forall|j: int|
        0 <= j < k ==> (#[trigger] ids[j]) == (if j < places.len() {
            id_at(lists, places[j])
        } else {
            (-1) as i64
        })
    &&& forall|j: int|
        0 <= j < k ==> (#[trigger] dists[j]) == (if j < places.len() {
            dist(places[j].0, places[j].1)
        } else {
            0x7f7f_ffff
        })
}

/// The distances of query `q`.
pub open spec fn distances_for(dist: spec_fn(usize, usize, usize) -> u32, q: usize) -> spec_fn(
    usize,
    usize,
) -> u32 {
    |l: usize, row: usize| dist(q, l, row)
}

// The places of the rows of a list that pass the filter.
spec fn row_places<T: RowIdFilter>(ids: Seq<i64>, filter: Option<&T>, l: usize) -> Seq<
    (usize, usize),
>
    decreases ids.len(),
{
    if ids.len() == 0 {
        Seq::empty()
    } else {
        let front = row_places(ids.drop_last(), filter, l);
        if filter matches Some(f) ==> f.admits(ids.last()) {
            front.push((l, (ids.len() - 1) as usize))
        } else {
            front
        }
    }
}

spec fn all_places<T: RowIdFilter>(
    lists: Seq<Vec<i64>>,
    picks: Seq<usize>,
    n: nat,
    filter: Option<&T>,
) -> Seq<(usize, usize)>
    decreases n,
{
    if n == 0 {
        Seq::empty()
    } else {
        all_places(lists, picks, (n - 1) as nat, filter) + row_places(
            lists[picks[n - 1] as int]@,
            filter,
            picks[n - 1],
        )
    }
}

proof fn lemma_row_places<T: RowIdFilter>(
    ids: Seq<i64>,
    filter: Option<&T>,
    l: usize,
    dist: spec_fn(usize) -> u32,
)
    requires
        ids.len() <= usize::MAX,
    ensures
        ({
            let places = row_places(ids, filter, l);
            let rows = hnsw_search::admitted_rows(ids, filter, dist);
            &&& places.len() == rows.len()
            &&& places.no_duplicates()
            &&& forall|i: int|
                0 <= i < places.len() ==> {
                    &&& (#[trigger] places[i]).0 == l
                    &&& places[i].1 < ids.len()
                    &&& (filter matches Some(f) ==> f.admits(ids[places[i].1 as int]))
                    &&& rows[i] == (dist(places[i].1), ids[places[i].1 as int])
                }
            &&& forall|row: usize|
                row < ids.len() && (filter matches Some(f) ==> f.admits(ids[row as int]))
                    ==> #[trigger] places.contains((l, row))
        }),
    decreases ids.len(),
{
    if ids.len() > 0 {
        let short = ids.drop_last();
        lemma_row_places(short, filter, l, dist);
        let before = row_places(short, filter, l);
        let places = row_places(ids, filter, l);
        let rows = hnsw_search::admitted_rows(ids, filter, dist);
        let at = (ids.len() - 1) as usize;
        assert forall|i: int| 0 <= i < places.len() implies {
            &&& (#[trigger] places[i]).0 == l
            &&& places[i].1 < ids.len()
            &&& (filter matches Some(f) ==> f.admits(ids[places[i].1 as int]))
            &&& rows[i] == (dist(places[i].1), ids[places[i].1 as int])
        } by {
            if i < before.len() {
                assert(before[i] == places[i]);
            }
        }
        assert forall|row: usize|
            row < ids.len() && (filter matches Some(f) ==> f.admits(
                ids[row as int],
            )) implies #[trigger] places.contains((l, row)) by {
            if row < short.len() {
                assert(short[row as int] == ids[row as int]);
                assert(before.contains((l, row)));
                let i = choose|i: int| 0 <= i < before.len() && before[i] == (l, row);
                assert(places[i] == (l, row));
            } else {
                assert(row == at);
                assert(places[before.len() as int] == (l, row));
            }
        }
        assert(places.no_duplicates()) by {
            assert forall|i: int, j: int| 0 <= i < places.len() && 0 <= j < places.len() && i
                != j implies places[i] != places[j] by {
                if i < before.len() {
                    assert(before[i] == places[i] && before[i].1 < short.len());
                }
                if j < before.len() {
                    assert(before[j] == places[j] && before[j].1 < short.len());
                }
            }
        }
    }
}

proof fn lemma_all_places<T: RowIdFilter>(
    lists: Seq<Vec<i64>>,
    picks: Seq<usize>,
    n: nat,
    filter: Option<&T>,
    dist: spec_fn(usize, usize) -> u32,
)
    requires
        n <= picks.len(),
        picks.no_duplicates(),
        forall|i: int| 0 <= i < picks.len() ==> #[trigger] picks[i] < lists.len(),
    ensures
        ({
            let places = all_places(lists, picks, n, filter);
            let rows = ivf_search::rows_of_lists(lists, picks, n, filter, dist);
            &&& places.no_duplicates()
            &&& are_rows_at(lists, dist, places, rows)
            &&& forall|i: int|
                0 <= i < places.len() ==> is_row(
                    lists,
                    picks.take(n as int),
                    filter,
                    #[trigger] places[i],
                )
            &&& forall|at: (usize, usize)| #[trigger]
                is_row(lists, picks.take(n as int), filter, at) ==> places.contains(at)
        }),
    decreases n,
{
    let places = all_places(lists, picks, n, filter);
    let rows = ivf_search::rows_of_lists(lists, picks, n, filter, dist);
    let now = picks.take(n as int);
    if n > 0 {
        let l = picks[n - 1];
        let ids = lists[l as int]@;
        let short = picks.take(n - 1);
        lemma_all_places(lists, picks, (n - 1) as nat, filter, dist);
        let before = all_places(lists, picks, (n - 1) as nat, filter);
        let here = row_places(ids, filter, l);
        let here_dist = hnsw_search::of_list(dist, l);
        assert(ids.len() == lists[l as int].len());
        lemma_row_places(ids, filter, l, here_dist);
        assert(now[n - 1] == l);
        assert forall|i: int| 0 <= i < places.len() implies is_row(
            lists,
            now,
            filter,
            #[trigger] places[i],
        ) && rows[i].0 == dist(places[i].0, places[i].1) && rows[i].1 == id_at(lists, places[i]) by {
            if i < before.len() {
                assert(before[i] == places[i]);
                assert(is_row(lists, short, filter, before[i]));
                let m = choose|m: int| 0 <= m < short.len() && short[m] == places[i].0;
                assert(now[m] == places[i].0);
            } else {
                assert(here[i - before.len()] == places[i]);
            }
        }
        assert(places.no_duplicates()) by {
            assert forall|i: int, j: int| 0 <= i < places.len() && 0 <= j < places.len() && i
                != j implies places[i] != places[j] by {
                if i < before.len() && j < before.len() {
                    assert(before[i] == places[i] && before[j] == places[j]);
                } else if i >= before.len() && j >= before.len() {
                    assert(here[i - before.len()] == places[i]);
                    assert(here[j - before.len()] == places[j]);
                } else {
                    let a = if i < before.len() {
                        i
                    } else {
                        j
                    };
                    let b = if i < before.len() {
                        j
                    } else {
                        i
                    };
                    assert(before[a] == places[a]);
                    assert(here[b - before.len()] == places[b]);
                    assert(is_row(lists, short, filter, before[a]));
                    let m = choose|m: int| 0 <= m < short.len() && short[m] == before[a].0;
                    assert(picks[m] == before[a].0);
                    assert(picks[m] != picks[n - 1]);
                }
            }
        }
        assert forall|at: (usize, usize)| #[trigger]
            is_row(lists, now, filter, at) implies places.contains(at) by {
            let m = choose|m: int| 0 <= m < now.len() && now[m] == at.0;
            if m < n - 1 {
                assert(short[m] == at.0);
                assert(is_row(lists, short, filter, at));
                assert(before.contains(at));
                let i = choose|i: int| 0 <= i < before.len() && before[i] == at;
                assert(places[i] == at);
            } else {
                assert(here.contains((l, at.1)));
                let i = choose|i: int| 0 <= i < here.len() && here[i] == (l, at.1);
                assert(places[before.len() + i] == at);
            }
        }
    } else {
        assert(now =~= Seq::<usize>::empty());
    }
}

/// The kept rows by their positions among those that have come: each position once.
proof fn lemma_kept_positions(k: usize, hits: Seq<Hit>) -> (from: Seq<int>)
    requires
        topk::no_nan(hits),
    ensures
        ({
            let kept = topk::kept_of(Seq::empty(), k, hits);
            &&& from.len() == kept.len()
            &&& kept.len() <= k
            &&& from.no_duplicates()
            &&& forall|j: int|
                0 <= j < from.len() ==> 0 <= #[trigger] from[j] < hits.len() && kept[j]
                    == hits[from[j]]
            &&& forall|i: int|
                0 <= i < hits.len() ==> from.contains(i) || (kept.len() == k && forall|j: int|
                    0 <= j < kept.len() ==> !float_bits::lt(
                        (#[trigger] hits[i]).0,
                        (#[trigger] kept[j]).0,
                    ))
        }),
    decreases hits.len(),
{
    let kept = topk::kept_of(Seq::empty(), k, hits);
    if hits.len() == 0 {
        Seq::empty()
    } else {
        let front = hits.drop_last();
        let n = front.len() as int;
        let x = hits.last();
        assert(topk::no_nan(front)) by {
            assert forall|i: int| 0 <= i < front.len() implies !float_bits::is_nan(
                (#[trigger] front[i]).0,
            ) by {
                assert(front[i] == hits[i]);
            }
        }
        let before = topk::kept_of(Seq::empty(), k, front);
        let old_from = lemma_kept_positions(k, front);
        assert(!float_bits::is_nan(hits[n].0));
        let from = if k == 0 {
            old_from
        } else if before.len() < k {
            old_from.push(n)
        } else {
            let w = topk::last_worst(before, topk::by_value());
            if float_bits::lt(x.0, before[w].0) {
                old_from.update(w, n)
            } else {
                old_from
            }
        };
        if k > 0 && before.len() >= k {
            let w = topk::last_worst(before, topk::by_value());
            topk::lemma_last_worst(before, topk::by_value());
            assert forall|j: int| 0 <= j < before.len() implies float_bits::value_key(
                (#[trigger] before[j]).0,
            ) <= float_bits::value_key(before[w].0) && !float_bits::is_nan(before[j].0) by {
                assert(topk::by_value()(before[j].0) <= topk::by_value()(before[w].0));
                assert(before[j] == front[old_from[j]]);
                assert(hits[old_from[j]] == before[j]);
            }
            assert(from.no_duplicates()) by {
                assert forall|i: int, j: int| 0 <= i < from.len() && 0 <= j < from.len() && i
                    != j implies from[i] != from[j] by {
                    assert(old_from[i] < n && old_from[j] < n);
                }
            }
            assert forall|j: int| 0 <= j < from.len() implies 0 <= #[trigger] from[j] < hits.len()
                && kept[j] == hits[from[j]] by {
                assert(0 <= old_from[j] < n && before[j] == front[old_from[j]]);
            }
            assert forall|i: int| 0 <= i < hits.len() implies from.contains(i) || (kept.len() == k
                && forall|j: int|
                0 <= j < kept.len() ==> !float_bits::lt(
                    (#[trigger] hits[i]).0,
                    (#[trigger] kept[j]).0,
                )) by {
                if i < n {
                    assert(hits[i] == front[i]);
                    if old_from.contains(i) {
                        let q = choose|q: int| 0 <= q < old_from.len() && old_from[q] == i;
                        if q == w && from != old_from {
                            assert(before[w] == front[i]);
                            assert forall|j: int| 0 <= j < kept.len() implies !float_bits::lt(
                                hits[i].0,
                                (#[trigger] kept[j]).0,
                            ) by {
                                if j != w {
                                    assert(kept[j] == before[j]);
                                }
                            }
                        } else {
                            assert(from[q] == i);
                        }
                    } else {
                        assert forall|j: int| 0 <= j < kept.len() implies !float_bits::lt(
                            hits[i].0,
                            (#[trigger] kept[j]).0,
                        ) by {
                            assert(!float_bits::lt(front[i].0, before[j].0));
                            assert(!float_bits::lt(front[i].0, before[w].0));
                            if kept[j] != before[j] {
                                assert(j == w);
                            }
                        }
                    }
                } else if from != old_from {
                    assert(from[w] == n);
                }
            }
        } else if k > 0 {
            assert forall|j: int| 0 <= j < from.len() implies 0 <= #[trigger] from[j] < hits.len()
                && kept[j] == hits[from[j]] by {
                if j < old_from.len() {
                    assert(0 <= old_from[j] < n && before[j] == front[old_from[j]]);
                }
            }
            assert(from.no_duplicates()) by {
                assert forall|i: int, j: int| 0 <= i < from.len() && 0 <= j < from.len() && i
                    != j implies from[i] != from[j] by {
                    if i < old_from.len() {
                        assert(old_from[i] < n);
                    }
                    if j < old_from.len() {
                        assert(old_from[j] < n);
                    }
                }
            }
            assert forall|i: int| 0 <= i < hits.len() implies from.contains(i) by {
                if i < n {
                    assert(front[i] == hits[i]);
                    let q = choose|q: int| 0 <= q < old_from.len() && old_from[q] == i;
                    assert(from[q] == i);
                } else {
                    assert(from[old_from.len() as int] == n);
                }
            }
        } else {
            assert forall|j: int| 0 <= j < from.len() implies 0 <= #[trigger] from[j] < hits.len()
                && kept[j] == hits[from[j]] by {
                assert(0 <= old_from[j] < n);
            }
        }
        from
    }
}

/// Sorting by a key gives the kept rows in another order, each once.
pub proof fn lemma_sorted_positions(data: Seq<Hit>, key: spec_fn(u32) -> int) -> (order: Seq<usize>)
    requires
        data.len() <= usize::MAX,
        forall|b: u32| -0x1_0000_0000 <= #[trigger] key(b) <= 0x1_0000_0000,
    ensures
        order.len() == data.len(),
        order.no_duplicates(),
        topk::sorted_hits(data, key).len() == data.len(),
        forall|i: int|
            0 <= i < order.len() ==> #[trigger] order[i] < data.len() && topk::sorted_hits(
                data,
                key,
            )[i] == data[order[i] as int],
        forall|v: usize| v < data.len() ==> #[trigger] order.contains(v),
        forall|i: int, j: int|
            0 <= i <= j < order.len() ==> key((#[trigger] topk::sorted_hits(data, key)[i]).0)
                <= key((#[trigger] topk::sorted_hits(data, key)[j]).0),
{
    topk::sorted_hits_facts(data, key);
    sort::stable_order_facts(topk::hit_keys(data, key));
    sort::stable_order(topk::hit_keys(data, key))
}

/// A scan of lists gives the `k` closest of the rows that pass the filter, closest first.
pub proof fn scans_give_the_closest_rows<T: RowIdFilter>(
    lists: Seq<Vec<i64>>,
    picks: Seq<usize>,
    k: usize,
    filter: Option<&T>,
    dist: spec_fn(usize, usize) -> u32,
)
    requires
        picks.no_duplicates(),
        forall|i: int| 0 <= i < picks.len() ==> #[trigger] picks[i] < lists.len(),
        rows_have_no_nan(lists, picks, filter, dist),
    ensures
        exists|places: Seq<(usize, usize)>| #[trigger]
            are_closest(lists, picks, filter, dist, k, places) && are_rows_at(
                lists,
                dist,
                places,
                ivf_search::flat_hits(lists, picks, k, filter, dist),
            ),
{
    let all = all_places(lists, picks, picks.len(), filter);
    let rows = ivf_search::rows_of_lists(lists, picks, picks.len(), filter, dist);
    lemma_all_places(lists, picks, picks.len(), filter, dist);
    assert(picks.take(picks.len() as int) =~= picks);
    assert(topk::no_nan(rows)) by {
        assert forall|i: int| 0 <= i < rows.len() implies !float_bits::is_nan(
            (#[trigger] rows[i]).0,
        ) by {
            assert(is_row(lists, picks, filter, all[i]));
        }
    }
    let kept = topk::kept_of(Seq::empty(), k, rows);
    let from = lemma_kept_positions(k, rows);
    let key = topk::by_value();
    let order = lemma_sorted_positions(kept, key);
    let hits = ivf_search::flat_hits(lists, picks, k, filter, dist);
    let places = Seq::new(order.len(), |j: int| all[from[order[j] as int]]);
    assert forall|j: int| 0 <= j < places.len() implies is_row(
        lists,
        picks,
        filter,
        #[trigger] places[j],
    ) && hits[j] == rows[from[order[j] as int]] && hits[j].0 == dist(places[j].0, places[j].1)
        && hits[j].1 == id_at(lists, places[j]) by {
        assert(order[j] < kept.len());
        assert(0 <= from[order[j] as int] < rows.len());
        assert(is_row(lists, picks, filter, all[from[order[j] as int]]));
    }
    assert(places.no_duplicates()) by {
        assert forall|i: int, j: int| 0 <= i < places.len() && 0 <= j < places.len() && i
            != j implies places[i] != places[j] by {
            assert(order[i] != order[j]);
            assert(from[order[i] as int] != from[order[j] as int]);
        }
    }
    assert forall|i: int, j: int| 0 <= i < j < places.len() implies #[trigger] not_farther(
        dist,
        places[i],
        places[j],
    ) by {
        assert(key(hits[i].0) <= key(hits[j].0));
    }
    assert forall|at: (usize, usize)| #[trigger]
        is_row(lists, picks, filter, at) implies places.contains(at) || (places.len() == k
        && forall|j: int| 0 <= j < places.len() ==> #[trigger] not_farther(dist, places[j], at)) by {
        let i = choose|i: int| 0 <= i < all.len() && all[i] == at;
        assert(rows[i].0 == dist(at.0, at.1));
        if from.contains(i) {
            let q = choose|q: int| 0 <= q < from.len() && from[q] == i;
            assert(order.contains(q as usize));
            let j = choose|j: int| 0 <= j < order.len() && order[j] == q as usize;
            assert(places[j] == at);
        } else {
            assert forall|j: int| 0 <= j < places.len() implies #[trigger] not_farther(
                dist,
                places[j],
                at,
            ) by {
                assert(order[j] < kept.len());
                assert(!float_bits::lt(rows[i].0, kept[order[j] as int].0));
            }
        }
    }
    assert(are_closest(lists, picks, filter, dist, k, places));
}

/// Rows that have come, with at most one kept for each id, sorted: these are the closest ids.
proof fn lemma_unique_places<T: RowIdFilter>(
    lists: Seq<Vec<i64>>,
    picks: Seq<usize>,
    k: usize,
    filter: Option<&T>,
    dist: spec_fn(usize, usize) -> u32,
    all: Seq<(usize, usize)>,
    rows: Seq<Hit>,
) -> (places: Seq<(usize, usize)>)
    requires
        rows_have_no_nan(lists, picks, filter, dist),
        are_rows_at(lists, dist, all, rows),
        forall|i: int| 0 <= i < all.len() ==> is_row(lists, picks, filter, #[trigger] all[i]),
        forall|at: (usize, usize)| #[trigger] is_row(lists, picks, filter, at) ==> all.contains(at),
    ensures
        are_closest_ids(lists, picks, filter, dist, k, places),
        are_rows_at(
            lists,
            dist,
            places,
            topk::sorted_hits(topk::unique_of(Seq::empty(), k, rows), topk::by_total()),
        ),
{
    assert(topk::no_nan(rows)) by {
        assert forall|i: int| 0 <= i < rows.len() implies !float_bits::is_nan(
            (#[trigger] rows[i]).0,
        ) by {
            assert(is_row(lists, picks, filter, all[i]));
        }
    }
    let kept = topk::unique_of(Seq::empty(), k, rows);
    topk::closest_ids_are_kept(k, rows);
    let key = topk::by_total();
    let order = lemma_sorted_positions(kept, key);
    let hits = topk::sorted_hits(kept, key);
    let place = |h: Hit| all[choose|i: int| 0 <= i < rows.len() && rows[i] == h];
    let places = Seq::new(hits.len(), |j: int| place(hits[j]));
    assert forall|j: int| 0 <= j < places.len() implies is_row(
        lists,
        picks,
        filter,
        #[trigger] places[j],
    ) && hits[j].0 == dist(places[j].0, places[j].1) && hits[j].1 == id_at(lists, places[j]) by {
        assert(order[j] < kept.len());
        assert(hits[j] == kept[order[j] as int]);
        assert(rows.contains(kept[order[j] as int]));
        let i = choose|i: int| 0 <= i < rows.len() && rows[i] == hits[j];
        assert(rows[i].0 == dist(all[i].0, all[i].1));
    }
    assert forall|i: int, j: int| 0 <= i < j < places.len() implies #[trigger] not_farther(
        dist,
        places[i],
        places[j],
    ) by {
        assert(key(hits[i].0) <= key(hits[j].0));
        assert(is_row(lists, picks, filter, places[i]));
        assert(is_row(lists, picks, filter, places[j]));
        assert(float_bits::total_key(hits[i].0) <= float_bits::total_key(hits[j].0));
    }
    assert forall|i: int, j: int| 0 <= i < j < places.len() implies id_at(
        lists,
        #[trigger] places[i],
    ) != id_at(lists, #[trigger] places[j]) by {
        assert(order[i] != order[j]);
        assert(hits[i] == kept[order[i] as int] && hits[j] == kept[order[j] as int]);
        if order[i] < order[j] {
            assert(kept[order[i] as int].1 != kept[order[j] as int].1);
        } else {
            assert(kept[order[j] as int].1 != kept[order[i] as int].1);
        }
    }
    assert forall|at: (usize, usize)| #[trigger]
        is_row(lists, picks, filter, at) implies closest_of_id(lists, dist, places, at) || (
    places.len() == k && forall|j: int|
        0 <= j < places.len() ==> #[trigger] not_farther(dist, places[j], at)) by {
        assert(all.contains(at));
        let i = choose|i: int| 0 <= i < all.len() && all[i] == at;
        assert(rows[i].0 == dist(at.0, at.1) && rows[i].1 == id_at(lists, at));
        assert(topk::kept_under_id(kept, rows[i]) || (kept.len() == k && forall|j: int|
            0 <= j < kept.len() ==> !float_bits::lt(rows[i].0, (#[trigger] kept[j]).0)));
        if topk::kept_under_id(kept, rows[i]) {
            let q = choose|q: int|
                0 <= q < kept.len() && (#[trigger] kept[q]).1 == rows[i].1 && !float_bits::lt(
                    rows[i].0,
                    kept[q].0,
                );
            assert(order.contains(q as usize));
            let j = choose|j: int| 0 <= j < order.len() && order[j] == q as usize;
            assert(hits[j] == kept[q]);
            assert(id_at(lists, places[j]) == id_at(lists, at));
        } else {
            assert forall|j: int| 0 <= j < places.len() implies #[trigger] not_farther(
                dist,
                places[j],
                at,
            ) by {
                assert(order[j] < kept.len());
                assert(!float_bits::lt(rows[i].0, kept[order[j] as int].0));
            }
        }
    }
    places
}

/// A scan of lists that gives each id once gives the `k` closest ids that pass the filter, closest
/// first, each with the distance of its closest row.
pub proof fn scans_give_the_closest_ids<T: RowIdFilter>(
    lists: Seq<Vec<i64>>,
    picks: Seq<usize>,
    k: usize,
    filter: Option<&T>,
    dist: spec_fn(usize, usize) -> u32,
)
    requires
        picks.no_duplicates(),
        forall|i: int| 0 <= i < picks.len() ==> #[trigger] picks[i] < lists.len(),
        rows_have_no_nan(lists, picks, filter, dist),
    ensures
        exists|places: Seq<(usize, usize)>| #[trigger]
            are_closest_ids(lists, picks, filter, dist, k, places) && are_rows_at(
                lists,
                dist,
                places,
                ivf_search::unique_hits(lists, picks, k, filter, dist),
            ),
{
    let all = all_places(lists, picks, picks.len(), filter);
    let rows = ivf_search::rows_of_lists(lists, picks, picks.len(), filter, dist);
    lemma_all_places(lists, picks, picks.len(), filter, dist);
    assert(picks.take(picks.len() as int) =~= picks);
    let places = lemma_unique_places(lists, picks, k, filter, dist, all, rows);
}

/// For each query of a batch, where the lists that it probes stand among those that were read: each
/// of them is named once, and no other.
pub proof fn queries_look_at_the_lists_they_probe(probe: Seq<usize>, loaded: Seq<usize>)
    requires
        loaded.len() <= usize::MAX,
    ensures
        ivf_search::picks_of(probe, loaded).no_duplicates(),
        forall|i: usize| #[trigger]
            ivf_search::picks_of(probe, loaded).contains(i) <==> i < loaded.len()
                && probe.contains(loaded[i as int]),
        forall|i: int|
            0 <= i < ivf_search::picks_of(probe, loaded).len() ==> #[trigger] ivf_search::picks_of(
                probe,
                loaded,
            )[i] < loaded.len(),
        forall|i: int, j: int|
            0 <= i < j < ivf_search::picks_of(probe, loaded).len() ==> #[trigger]
                ivf_search::picks_of(probe, loaded)[i] < #[trigger] ivf_search::picks_of(
                probe,
                loaded,
            )[j],
    decreases loaded.len(),
{
    let picks = ivf_search::picks_of(probe, loaded);
    if loaded.len() > 0 {
        let front = loaded.drop_last();
        queries_look_at_the_lists_they_probe(probe, front);
        let before = ivf_search::picks_of(probe, front);
        let last = (loaded.len() - 1) as usize;
        assert forall|i: int| 0 <= i < picks.len() implies #[trigger] picks[i] < loaded.len() by {
            if i < before.len() {
                assert(before[i] == picks[i]);
            }
        }
        assert forall|i: usize| #[trigger] picks.contains(i) <==> i < loaded.len()
            && probe.contains(loaded[i as int]) by {
            if picks.contains(i) {
                let j = choose|j: int| 0 <= j < picks.len() && picks[j] == i;
                if j < before.len() {
                    assert(before[j] == i);
                    assert(before.contains(i));
                }
            }
            if i < loaded.len() && probe.contains(loaded[i as int]) {
                if i < front.len() {
                    assert(front[i as int] == loaded[i as int]);
                    assert(before.contains(i));
                    let j = choose|j: int| 0 <= j < before.len() && before[j] == i;
                    assert(picks[j] == i);
                } else {
                    assert(picks[before.len() as int] == i);
                }
            }
        }
        assert forall|i: int, j: int| 0 <= i < j < picks.len() implies #[trigger] picks[i]
            < #[trigger] picks[j] by {
            assert(before[i] == picks[i]);
            if j < before.len() {
                assert(before[j] == picks[j]);
            }
        }
    }
}

/// `picks` names the places of the lists of `loaded` that `probe` names.
pub open spec fn names_probed(picks: Seq<usize>, probe: Seq<usize>, loaded: Seq<usize>) -> bool {
    forall|i: usize| #[trigger]
        picks.contains(i) <==> i < loaded.len() && probe.contains(loaded[i as int])
}

/// No row of a list that the query probes has a NaN for its distance.
pub open spec fn query_has_no_nan<T: RowIdFilter>(
    lists: Seq<Vec<i64>>,
    probe: Seq<usize>,
    loaded: Seq<usize>,
    filter: Option<&T>,
    dist: spec_fn(usize, usize) -> u32,
) -> bool {
    forall|l: usize, row: usize|
        l < lists.len() && row < lists[l as int]@.len() && probe.contains(loaded[l as int])
            ==> !float_bits::is_nan(#[trigger] dist(l, row))
}

proof fn lemma_same_rows<T: RowIdFilter>(
    lists: Seq<Vec<i64>>,
    picks: Seq<usize>,
    others: Seq<usize>,
    filter: Option<&T>,
    dist: spec_fn(usize, usize) -> u32,
    k: usize,
    places: Seq<(usize, usize)>,
)
    requires
        forall|i: usize| picks.contains(i) <==> #[trigger] others.contains(i),
    ensures
        are_closest(lists, picks, filter, dist, k, places) ==> are_closest(
            lists,
            others,
            filter,
            dist,
            k,
            places,
        ),
        are_closest_ids(lists, picks, filter, dist, k, places) ==> are_closest_ids(
            lists,
            others,
            filter,
            dist,
            k,
            places,
        ),
{
    assert forall|at: (usize, usize)| #[trigger] is_row(lists, others, filter, at) == is_row(
        lists,
        picks,
        filter,
        at,
    ) by {
        assert(picks.contains(at.0) <==> others.contains(at.0));
    }
    assert forall|j: int| 0 <= j < places.len() implies is_row(lists, others, filter, places[j])
        == #[trigger] is_row(lists, picks, filter, places[j]) by {}
}

proof fn lemma_given(
    lists: Seq<Vec<i64>>,
    dist: spec_fn(usize, usize) -> u32,
    k: usize,
    places: Seq<(usize, usize)>,
    hits: Seq<Hit>,
)
    requires
        are_rows_at(lists, dist, places, hits),
    ensures
        are_given(
            lists,
            dist,
            k,
            places,
            ivf_search::padded_ids(hits, k),
            ivf_search::padded_dists(hits, k),
        ),
{
}

/// A batch of queries over stored lists: each query is given the `k` closest rows of all the lists
/// that it probes, in the block that is its own, whatever the other queries probe.
pub proof fn batches_give_each_query_its_closest_rows<T: RowIdFilter>(
    probes: Seq<Seq<usize>>,
    loaded: Seq<usize>,
    lists: Seq<Vec<i64>>,
    k: usize,
    filter: Option<&T>,
    dist: spec_fn(usize, usize, usize) -> u32,
    ids: Seq<i64>,
    dists: Seq<u32>,
    q: usize,
    picks: Seq<usize>,
)
    requires
        loaded.len() == lists.len(),
        loaded.len() <= usize::MAX,
        q < probes.len(),
        names_probed(picks, probes[q as int], loaded),
        query_has_no_nan(
            lists,
            probes[q as int],
            loaded,
            filter,
            distances_for(dist, q),
        ),
        ids == ivf_search::all_ids(
            ivf_search::flat_results(probes, loaded, lists, k, filter, dist),
            k,
        ),
        dists == ivf_search::all_dists(
            ivf_search::flat_results(probes, loaded, lists, k, filter, dist),
            k,
        ),
    ensures
        ids.len() == probes.len() * k,
        dists.len() == probes.len() * k,
        exists|places: Seq<(usize, usize)>| #[trigger]
            are_closest(
                lists,
                picks,
                filter,
                distances_for(dist, q),
                k,
                places,
            ) && are_given(
                lists,
                distances_for(dist, q),
                k,
                places,
                ids.subrange(q * k, q * k + k),
                dists.subrange(q * k, q * k + k),
            ),
{
    let one = distances_for(dist, q);
    let hits = ivf_search::flat_results(probes, loaded, lists, k, filter, dist);
    ivf_search::block_of_query(hits, k, q as int);
    let own = ivf_search::picks_of(probes[q as int], loaded);
    queries_look_at_the_lists_they_probe(probes[q as int], loaded);
    assert(ivf_search::of_query(dist, q) =~= one);
    assert forall|i: usize| picks.contains(i) <==> #[trigger] own.contains(i) by {}
    assert forall|at: (usize, usize)| #[trigger] is_row(lists, own, filter, at) implies
        !float_bits::is_nan(one(at.0, at.1)) by {
        assert(own.contains(at.0));
    }
    scans_give_the_closest_rows(lists, own, k, filter, one);
    let places = choose|places: Seq<(usize, usize)>| #[trigger]
        are_closest(lists, own, filter, one, k, places) && are_rows_at(
            lists,
            one,
            places,
            ivf_search::flat_hits(lists, own, k, filter, one),
        );
    lemma_same_rows(lists, own, picks, filter, one, k, places);
    lemma_given(lists, one, k, places, hits[q as int]);
}

/// A batch of queries over stored lists that gives each id once: each query is given the `k`
/// closest ids of all the lists that it probes, in the block that is its own, whatever the other
/// queries probe.
pub proof fn batches_give_each_query_its_closest_ids<T: RowIdFilter>(
    probes: Seq<Seq<usize>>,
    loaded: Seq<usize>,
    lists: Seq<Vec<i64>>,
    k: usize,
    filter: Option<&T>,
    dist: spec_fn(usize, usize, usize) -> u32,
    ids: Seq<i64>,
    dists: Seq<u32>,
    q: usize,
    picks: Seq<usize>,
)
    requires
        loaded.len() == lists.len(),
        loaded.len() <= usize::MAX,
        q < probes.len(),
        names_probed(picks, probes[q as int], loaded),
        query_has_no_nan(
            lists,
            probes[q as int],
            loaded,
            filter,
            distances_for(dist, q),
        ),
        ids == ivf_search::all_ids(
            ivf_search::unique_results(probes, loaded, lists, k, filter, dist),
            k,
        ),
        dists == ivf_search::all_dists(
            ivf_search::unique_results(probes, loaded, lists, k, filter, dist),
            k,
        ),
    ensures
        ids.len() == probes.len() * k,
        dists.len() == probes.len() * k,
        exists|places: Seq<(usize, usize)>| #[trigger]
            are_closest_ids(
                lists,
                picks,
                filter,
                distances_for(dist, q),
                k,
                places,
            ) && are_given(
                lists,
                distances_for(dist, q),
                k,
                places,
                ids.subrange(q * k, q * k + k),
                dists.subrange(q * k, q * k + k),
            ),
{
    let one = distances_for(dist, q);
    let hits = ivf_search::unique_results(probes, loaded, lists, k, filter, dist);
    ivf_search::block_of_query(hits, k, q as int);
    let own = ivf_search::picks_of(probes[q as int], loaded);
    queries_look_at_the_lists_they_probe(probes[q as int], loaded);
    assert(ivf_search::of_query(dist, q) =~= one);
    assert forall|i: usize| picks.contains(i) <==> #[trigger] own.contains(i) by {}
    assert forall|at: (usize, usize)| #[trigger] is_row(lists, own, filter, at) implies
        !float_bits::is_nan(one(at.0, at.1)) by {
        assert(own.contains(at.0));
    }
    scans_give_the_closest_ids(lists, own, k, filter, one);
    let places = choose|places: Seq<(usize, usize)>| #[trigger]
        are_closest_ids(lists, own, filter, one, k, places) && are_rows_at(
            lists,
            one,
            places,
            ivf_search::unique_hits(lists, own, k, filter, one),
        );
    lemma_same_rows(lists, own, picks, filter, one, k, places);
    lemma_given(lists, one, k, places, hits[q as int]);
}

/// A scan of all lists for one query gives the `k` closest rows that pass the filter.
pub proof fn one_query_is_given_its_closest_rows<T: RowIdFilter>(
    lists: Seq<Vec<i64>>,
    k: usize,
    filter: Option<&T>,
    dist: spec_fn(usize, usize) -> u32,
    hits: Seq<Hit>,
    picks: Seq<usize>,
)
    requires
        lists.len() <= usize::MAX,
        forall|i: usize| i < lists.len() <==> #[trigger] picks.contains(i),
        rows_have_no_nan(lists, picks, filter, dist),
        hits == ivf_search::flat_hits(
            lists,
            sort::positions(0, lists.len() as int),
            k,
            filter,
            dist,
        ),
    ensures
        exists|places: Seq<(usize, usize)>| #[trigger]
            are_closest(lists, picks, filter, dist, k, places) && are_given(
                lists,
                dist,
                k,
                places,
                ivf_search::padded_ids(hits, k),
                ivf_search::padded_dists(hits, k),
            ),
{
    let own = sort::positions(0, lists.len() as int);
    assert forall|i: usize| picks.contains(i) <==> #[trigger] own.contains(i) by {
        if i < lists.len() {
            assert(own[i as int] == i);
        }
    }
    assert forall|at: (usize, usize)| #[trigger] is_row(lists, own, filter, at) implies
        !float_bits::is_nan(dist(at.0, at.1)) by {
        assert(own.contains(at.0));
        assert(is_row(lists, picks, filter, at));
    }
    scans_give_the_closest_rows(lists, own, k, filter, dist);
    let places = choose|places: Seq<(usize, usize)>| #[trigger]
        are_closest(lists, own, filter, dist, k, places) && are_rows_at(
            lists,
            dist,
            places,
            ivf_search::flat_hits(lists, own, k, filter, dist),
        );
    lemma_same_rows(lists, own, picks, filter, dist, k, places);
    lemma_given(lists, dist, k, places, hits);
}

proof fn lemma_bounded_places<T: RowIdFilter>(
    ids: Seq<i64>,
    filter: Option<&T>,
    l: usize,
    bound: spec_fn(usize) -> u32,
    dist: spec_fn(usize) -> u32,
)
    requires
        ids.len() <= usize::MAX,
    ensures
        ({
            let places = row_places(ids, filter, l);
            let rows = ivfrq::bounded_rows(ids, filter, bound, dist);
            &&& places.len() == rows.len()
            &&& forall|i: int|
                0 <= i < rows.len() ==> (#[trigger] rows[i]) == (
                    bound(places[i].1),
                    dist(places[i].1),
                    ids[places[i].1 as int],
                )
        }),
    decreases ids.len(),
{
    if ids.len() > 0 {
        let short = ids.drop_last();
        lemma_bounded_places(short, filter, l, bound, dist);
        lemma_row_places(short, filter, l, dist);
        let before = row_places(short, filter, l);
        let old_rows = ivfrq::bounded_rows(short, filter, bound, dist);
        let places = row_places(ids, filter, l);
        let rows = ivfrq::bounded_rows(ids, filter, bound, dist);
        assert forall|i: int| 0 <= i < rows.len() implies (#[trigger] rows[i]) == (
            bound(places[i].1),
            dist(places[i].1),
            ids[places[i].1 as int],
        ) by {
            if i < before.len() {
                assert(rows[i] == old_rows[i]);
                assert(before[i] == places[i]);
                assert(before[i].1 < short.len());
            }
        }
    }
}

proof fn lemma_all_bounded<T: RowIdFilter>(
    lists: Seq<Vec<i64>>,
    picks: Seq<usize>,
    n: nat,
    filter: Option<&T>,
    bound: spec_fn(usize, usize) -> u32,
    dist: spec_fn(usize, usize) -> u32,
)
    requires
        n <= picks.len(),
        forall|i: int| 0 <= i < picks.len() ==> #[trigger] picks[i] < lists.len(),
    ensures
        ({
            let places = all_places(lists, picks, n, filter);
            let rows = ivfrq::bounded_rows_of_lists(lists, picks, n, filter, bound, dist);
            &&& places.len() == rows.len()
            &&& forall|i: int|
                0 <= i < rows.len() ==> (#[trigger] rows[i]) == (
                    bound(places[i].0, places[i].1),
                    dist(places[i].0, places[i].1),
                    id_at(lists, places[i]),
                )
        }),
    decreases n,
{
    if n > 0 {
        lemma_all_bounded(lists, picks, (n - 1) as nat, filter, bound, dist);
        let l = picks[n - 1];
        let ids = lists[l as int]@;
        assert(ids.len() == lists[l as int].len());
        let b = hnsw_search::of_list(bound, l);
        let d = hnsw_search::of_list(dist, l);
        lemma_bounded_places(ids, filter, l, b, d);
        lemma_row_places(ids, filter, l, d);
        let before = all_places(lists, picks, (n - 1) as nat, filter);
        let here = row_places(ids, filter, l);
        let old_rows = ivfrq::bounded_rows_of_lists(
            lists,
            picks,
            (n - 1) as nat,
            filter,
            bound,
            dist,
        );
        let new_rows = ivfrq::bounded_rows(ids, filter, b, d);
        let places = all_places(lists, picks, n, filter);
        let rows = ivfrq::bounded_rows_of_lists(lists, picks, n, filter, bound, dist);
        assert forall|i: int| 0 <= i < rows.len() implies (#[trigger] rows[i]) == (
            bound(places[i].0, places[i].1),
            dist(places[i].0, places[i].1),
            id_at(lists, places[i]),
        ) by {
            if i < before.len() {
                assert(rows[i] == old_rows[i] && places[i] == before[i]);
            } else {
                assert(rows[i] == new_rows[i - before.len()]);
                assert(places[i] == here[i - before.len()]);
                assert(here[i - before.len()].0 == l);
            }
        }
    }
}

/// The rows of the lists at `picks` that pass the filter are offered, each once, with their bounds
/// and distances; no other row is.
pub proof fn bounded_rows_are_those_that_pass<T: RowIdFilter>(
    lists: Seq<Vec<i64>>,
    picks: Seq<usize>,
    filter: Option<&T>,
    bound: spec_fn(usize, usize) -> u32,
    dist: spec_fn(usize, usize) -> u32,
)
    requires
        picks.no_duplicates(),
        forall|i: int| 0 <= i < picks.len() ==> #[trigger] picks[i] < lists.len(),
    ensures
        exists|places: Seq<(usize, usize)>|
            {
                let rows = ivfrq::bounded_rows_of_lists(
                    lists,
                    picks,
                    picks.len(),
                    filter,
                    bound,
                    dist,
                );
                &&& #[trigger] places.no_duplicates()
                &&& places.len() == rows.len()
                &&& forall|at: (usize, usize)|
                    places.contains(at) <==> #[trigger] is_row(lists, picks, filter, at)
                &&& forall|i: int|
                    0 <= i < rows.len() ==> (#[trigger] rows[i]) == (
                        bound(places[i].0, places[i].1),
                        dist(places[i].0, places[i].1),
                        id_at(lists, places[i]),
                    )
            },
{
    let places = all_places(lists, picks, picks.len(), filter);
    lemma_all_places(lists, picks, picks.len(), filter, dist);
    lemma_all_bounded(lists, picks, picks.len(), filter, bound, dist);
    assert(picks.take(picks.len() as int) =~= picks);
    assert forall|at: (usize, usize)| places.contains(at) <==> #[trigger] is_row(
        lists,
        picks,
        filter,
        at,
    ) by {
        if places.contains(at) {
            let i = choose|i: int| 0 <= i < places.len() && places[i] == at;
            assert(is_row(lists, picks, filter, places[i]));
        }
    }
    assert(places.no_duplicates());
}

proof fn lemma_pruned_hits_came(k: usize, rows: Seq<ivfrq::BoundedRow>)
    ensures
        ({
            let kept = ivfrq::pruned_of(Seq::empty(), k, rows);
            &&& kept.len() <= k
            &&& topk::unique_ids(kept)
            &&& forall|j: int|
                0 <= j < kept.len() ==> exists|i: int|
                    0 <= i < rows.len() && (#[trigger] kept[j]) == (
                        (#[trigger] rows[i]).1,
                        rows[i].2,
                    )
        }),
    decreases rows.len(),
{
    let kept = ivfrq::pruned_of(Seq::empty(), k, rows);
    if rows.len() > 0 {
        let front = rows.drop_last();
        lemma_pruned_hits_came(k, front);
        let before = ivfrq::pruned_of(Seq::empty(), k, front);
        let last = rows.len() - 1;
        let hit: Hit = (rows[last].1, rows[last].2);
        topk::lemma_position(before, hit.1);
        if before.len() > 0 {
            topk::lemma_last_worst(before, topk::by_total());
        }
        assert forall|j: int| 0 <= j < kept.len() implies exists|i: int|
            0 <= i < rows.len() && (#[trigger] kept[j]) == ((#[trigger] rows[i]).1, rows[i].2) by {
            if kept[j] == hit {
                assert(kept[j] == (rows[last].1, rows[last].2));
            } else {
                assert(kept[j] == before[j]);
                let i = choose|i: int|
                    0 <= i < front.len() && before[j] == ((#[trigger] front[i]).1, front[i].2);
                assert(rows[i] == front[i]);
            }
        }
        assert forall|i: int, j: int| 0 <= i < j < kept.len() implies (#[trigger] kept[i]).1 != (
        #[trigger] kept[j]).1 by {
            if j < before.len() {
                assert(before[i].1 != before[j].1);
            }
            if kept != before {
                if i < before.len() && kept[i] == before[i] && kept[j] == hit {
                    if topk::position_of(before, hit.1) < before.len() {
                        assert(before[topk::position_of(before, hit.1)].1 == hit.1);
                    }
                }
            }
        }
    }
}

/// Whatever the bounds, a search that goes by bounds gives at most `k` different ids, all of rows
/// that are looked at and pass the filter, each with the distance of its row.
pub proof fn pruned_searches_give_rows_that_pass<T: RowIdFilter>(
    lists: Seq<Vec<i64>>,
    picks: Seq<usize>,
    k: usize,
    filter: Option<&T>,
    bound: spec_fn(usize, usize) -> u32,
    dist: spec_fn(usize, usize) -> u32,
)
    requires
        picks.no_duplicates(),
        forall|i: int| 0 <= i < picks.len() ==> #[trigger] picks[i] < lists.len(),
    ensures
        ({
            let hits = ivfrq::pruned_hits(lists, picks, k, filter, bound, dist);
            &&& hits.len() <= k
            &&& forall|i: int, j: int|
                0 <= i < j < hits.len() ==> (#[trigger] hits[i]).1 != (#[trigger] hits[j]).1
            &&& forall|j: int|
                0 <= j < hits.len() ==> exists|at: (usize, usize)| #[trigger]
                    is_row(lists, picks, filter, at) && (#[trigger] hits[j]) == (
                        dist(at.0, at.1),
                        id_at(lists, at),
                    )
        }),
{
    let all = all_places(lists, picks, picks.len(), filter);
    lemma_all_places(lists, picks, picks.len(), filter, dist);
    lemma_all_bounded(lists, picks, picks.len(), filter, bound, dist);
    assert(picks.take(picks.len() as int) =~= picks);
    let rows = ivfrq::bounded_rows_of_lists(lists, picks, picks.len(), filter, bound, dist);
    let kept = ivfrq::pruned_of(Seq::empty(), k, rows);
    lemma_pruned_hits_came(k, rows);
    let order = lemma_sorted_positions(kept, topk::by_total());
    let hits = ivfrq::pruned_hits(lists, picks, k, filter, bound, dist);
    assert forall|j: int| 0 <= j < hits.len() implies exists|at: (usize, usize)| #[trigger]
        is_row(lists, picks, filter, at) && (#[trigger] hits[j]) == (
            dist(at.0, at.1),
            id_at(lists, at),
        ) by {
        assert(order[j] < kept.len());
        let i = choose|i: int|
            0 <= i < rows.len() && kept[order[j] as int] == ((#[trigger] rows[i]).1, rows[i].2);
        assert(is_row(lists, picks, filter, all[i]));
    }
    assert forall|i: int, j: int| 0 <= i < j < hits.len() implies (#[trigger] hits[i]).1 != (
    #[trigger] hits[j]).1 by {
        assert(order[i] != order[j]);
        assert(hits[i] == kept[order[i] as int] && hits[j] == kept[order[j] as int]);
        if order[i] < order[j] {
            assert(kept[order[i] as int].1 != kept[order[j] as int].1);
        } else {
            assert(kept[order[j] as int].1 != kept[order[i] as int].1);
        }
    }
}

/// Where no distance is below its bound, a search that goes by bounds gives the `k` closest ids
/// that pass the filter, closest first.
pub proof fn pruned_searches_give_the_closest_ids<T: RowIdFilter>(
    lists: Seq<Vec<i64>>,
    picks: Seq<usize>,
    k: usize,
    filter: Option<&T>,
    bound: spec_fn(usize, usize) -> u32,
    dist: spec_fn(usize, usize) -> u32,
)
    requires
        picks.no_duplicates(),
        forall|i: int| 0 <= i < picks.len() ==> #[trigger] picks[i] < lists.len(),
        rows_have_no_nan(lists, picks, filter, dist),
        rows_have_no_nan(lists, picks, filter, bound),
        forall|at: (usize, usize)| #[trigger]
            is_row(lists, picks, filter, at) ==> !float_bits::lt(
                dist(at.0, at.1),
                bound(at.0, at.1),
            ),
    ensures
        exists|places: Seq<(usize, usize)>| #[trigger]
            are_closest_ids(lists, picks, filter, dist, k, places) && are_rows_at(
                lists,
                dist,
                places,
                ivfrq::pruned_hits(lists, picks, k, filter, bound, dist),
            ),
{
    let all = all_places(lists, picks, picks.len(), filter);
    lemma_all_places(lists, picks, picks.len(), filter, dist);
    lemma_all_bounded(lists, picks, picks.len(), filter, bound, dist);
    assert(picks.take(picks.len() as int) =~= picks);
    let rows = ivfrq::bounded_rows_of_lists(lists, picks, picks.len(), filter, bound, dist);
    assert(ivfrq::bounds_hold(rows)) by {
        assert forall|i: int| 0 <= i < rows.len() implies !float_bits::is_nan(
            (#[trigger] rows[i]).0,
        ) && !float_bits::is_nan(rows[i].1) && !float_bits::lt(rows[i].1, rows[i].0) by {
            assert(is_row(lists, picks, filter, all[i]));
        }
    }
    ivfrq::bounds_change_nothing(Seq::empty(), k, rows);
    let plain = ivfrq::without_bounds(rows);
    let places = lemma_unique_places(lists, picks, k, filter, dist, all, plain);
}

/// A search of many queries by bounds: each query is given, in the block that is its own, the
/// closest ids of the lists that it probes.
pub proof fn pruned_queries_are_given_their_closest_ids<T: RowIdFilter>(
    picks: Seq<Seq<usize>>,
    lists: Seq<Vec<i64>>,
    k: usize,
    filter: Option<&T>,
    bound: spec_fn(usize, usize, usize) -> u32,
    dist: spec_fn(usize, usize, usize) -> u32,
    q: usize,
)
    requires
        q < picks.len(),
        picks[q as int].no_duplicates(),
        forall|i: int| 0 <= i < picks[q as int].len() ==> #[trigger] picks[q as int][i] < lists.len(),
        rows_have_no_nan(
            lists,
            picks[q as int],
            filter,
            distances_for(dist, q),
        ),
        rows_have_no_nan(
            lists,
            picks[q as int],
            filter,
            distances_for(bound, q),
        ),
        forall|at: (usize, usize)| #[trigger]
            is_row(lists, picks[q as int], filter, at) ==> !float_bits::lt(
                dist(q, at.0, at.1),
                bound(q, at.0, at.1),
            ),
    ensures
        ({
            let hits = ivfrq::pruned_picks(picks, lists, k, filter, bound, dist);
            let one = distances_for(dist, q);
            exists|places: Seq<(usize, usize)>| #[trigger]
                are_closest_ids(lists, picks[q as int], filter, one, k, places) && are_given(
                    lists,
                    one,
                    k,
                    places,
                    ivf_search::all_ids(hits, k).subrange(q * k, q * k + k),
                    ivf_search::all_dists(hits, k).subrange(q * k, q * k + k),
                )
        }),
{
    let one = distances_for(dist, q);
    let low = distances_for(bound, q);
    let own = picks[q as int];
    let hits = ivfrq::pruned_picks(picks, lists, k, filter, bound, dist);
    ivf_search::block_of_query(hits, k, q as int);
    assert(ivf_search::of_query(dist, q) =~= one);
    assert(ivf_search::of_query(bound, q) =~= low);
    pruned_searches_give_the_closest_ids(lists, own, k, filter, low, one);
    let places = choose|places: Seq<(usize, usize)>| #[trigger]
        are_closest_ids(lists, own, filter, one, k, places) && are_rows_at(
            lists,
            one,
            places,
            ivfrq::pruned_hits(lists, own, k, filter, low, one),
        );
    lemma_given(lists, one, k, places, hits[q as int]);
}

proof fn lemma_row_places_counted<T: RowIdFilter>(ids: Seq<i64>, f: &T, l: usize)
    ensures
        row_places(ids, Some(f), l).len() == hnsw_search::matching(ids, f),
    decreases ids.len(),
{
    if ids.len() > 0 {
        lemma_row_places_counted(ids.drop_last(), f, l);
    }
}

proof fn lemma_all_places_counted<T: RowIdFilter>(
    lists: Seq<Vec<i64>>,
    picks: Seq<usize>,
    n: nat,
    f: &T,
    counted: Seq<Seq<i64>>,
)
    requires
        n <= picks.len(),
        counted.len() == n,
        forall|i: int| 0 <= i < n ==> #[trigger] counted[i] == lists[picks[i] as int]@,
    ensures
        all_places(lists, picks, n, Some(f)).len() == hnsw_search::count_matching(counted, f),
    decreases n,
{
    if n > 0 {
        let front = counted.drop_last();
        assert forall|i: int| 0 <= i < n - 1 implies #[trigger] front[i] == lists[picks[i] as int]@ by {
            assert(front[i] == counted[i]);
        }
        lemma_all_places_counted(lists, picks, (n - 1) as nat, f, front);
        lemma_row_places_counted(lists[picks[n - 1] as int]@, f, picks[n - 1]);
        assert(counted[n - 1] == lists[picks[n - 1] as int]@);
    }
}

/// The rows that pass the filter are counted, each once.
pub proof fn matching_rows_are_counted<T: RowIdFilter>(
    lists: Seq<Vec<i64>>,
    picks: Seq<usize>,
    f: &T,
    counted: Seq<Seq<i64>>,
) -> (places: Seq<(usize, usize)>)
    requires
        picks.no_duplicates(),
        forall|i: int| 0 <= i < picks.len() ==> #[trigger] picks[i] < lists.len(),
        counted.len() == picks.len(),
        forall|i: int| 0 <= i < picks.len() ==> #[trigger] counted[i] == lists[picks[i] as int]@,
    ensures
        places.no_duplicates(),
        places.len() == hnsw_search::count_matching(counted, f),
        forall|at: (usize, usize)|
            places.contains(at) <==> #[trigger] is_row(lists, picks, Some(f), at),
{
    let places = all_places(lists, picks, picks.len(), Some(f));
    let any = |l: usize, row: usize| 0u32;
    lemma_all_places(lists, picks, picks.len(), Some(f), any);
    lemma_all_places_counted(lists, picks, picks.len(), f, counted);
    assert(picks.take(picks.len() as int) =~= picks);
    assert forall|at: (usize, usize)| places.contains(at) <==> #[trigger] is_row(
        lists,
        picks,
        Some(f),
        at,
    ) by {
        if places.contains(at) {
            let i = choose|i: int| 0 <= i < places.len() && places[i] == at;
            assert(is_row(lists, picks, Some(f), places[i]));
        }
    }
    places
}

/// A filter admits the ids that it holds and no others; a bitmap holds none that are negative.
pub proof fn filters_admit_what_they_hold(
    bitmap: roaring::RoaringTreemap,
    ids: HashSet<i64>,
    id: i64,
)
    ensures
        ids.admits(id) <==> ids@.contains(id),
        id >= 0 ==> (bitmap.admits(id) <==> row_id_filter::treemap_values(bitmap).contains(
            id as u64,
        )),
        id < 0 ==> !bitmap.admits(id),
{
}

} // verus!
