//! What searches through the graphs of lists give, told by the rows of the lists.
use vstd::prelude::*;

use crate::float_bits;
use crate::graph_law;
use crate::hnsw;
use crate::hnsw::GraphModel;
use crate::hnsw_layer;
use crate::hnsw_search;
use crate::hnsw_search::HnswSearchList;
use crate::ivf_search;
use crate::ivfhnswflat::IVFHNSWFlatIndex;
use crate::ivfhnswflat_io;
use crate::ivfhnswflat_io::GraphList;
use crate::ivfhnswsq::IVFHNSWSQIndex;
use crate::ivfhnswsq_read;
use crate::ivfhnswsq_read::SqGraphList;
use crate::row_id_filter::RowIdFilter;
use crate::scan_law;
use crate::topk;
use crate::topk::Hit;

verus! {

/// The ids of the rows of each list.
pub open spec fn ids_of(lists: Seq<HnswSearchList>) -> Seq<Vec<i64>> {
    Seq::new(lists.len(), |i: int| *lists[i].ids)
}

/// The graph search over list `l` finds this row, and the filter admits its id.
pub open spec fn found_in_graph<T: RowIdFilter>(
    lists: Seq<HnswSearchList>,
    picks: Seq<usize>,
    width: usize,
    filter: Option<&T>,
    graph_dist: spec_fn(usize, usize) -> u32,
    l: usize,
    found: Seq<(usize, u32)>,
    i: int,
    hit: Hit,
) -> bool {
    &&& picks.contains(l)
    &&& l < lists.len()
    &&& lists[l as int].graph is Some
    &&& hnsw::search_found(
        lists[l as int].graph->0@,
        |row: usize| graph_dist(l, row),
        width,
        width,
        found,
    )
    &&& 0 <= i < found.len()
    &&& found[i].0 < lists[l as int].ids@.len()
    &&& hit == (graph_dist(l, found[i].0), lists[l as int].ids@[found[i].0 as int])
    &&& (filter matches Some(f) ==> f.admits(hit.1))
}

/// Some graph search over a list that is looked at finds this row.
pub open spec fn led_to<T: RowIdFilter>(
    lists: Seq<HnswSearchList>,
    picks: Seq<usize>,
    width: usize,
    filter: Option<&T>,
    graph_dist: spec_fn(usize, usize) -> u32,
    hit: Hit,
) -> bool {
    exists|l: usize, found: Seq<(usize, u32)>, i: int| #[trigger]
        found_in_graph(lists, picks, width, filter, graph_dist, l, found, i, hit)
}

/// The hit is a row of a list that is looked at and passes the filter, with this distance.
pub open spec fn is_scanned<T: RowIdFilter>(
    lists: Seq<HnswSearchList>,
    picks: Seq<usize>,
    filter: Option<&T>,
    scan_dist: spec_fn(usize, usize) -> u32,
    hit: Hit,
) -> bool {
    exists|at: (usize, usize)| #[trigger]
        scan_law::is_row(ids_of(lists), picks, filter, at) && hit == (
            scan_dist(at.0, at.1),
            scan_law::id_at(ids_of(lists), at),
        )
}

/// The id is given with a distance that is not above `d`, or `k` rows are given of which none is
/// farther off.
pub open spec fn is_settled(result: Seq<Hit>, k: usize, d: u32, id: i64) -> bool {
    ||| exists|j: int|
        0 <= j < result.len() && (#[trigger] result[j]).1 == id && !float_bits::lt(d, result[j].0)
    ||| result.len() == k && forall|j: int|
        0 <= j < result.len() ==> !float_bits::lt(d, (#[trigger] result[j]).0)
}

pub open spec fn gives_id(result: Seq<Hit>, id: i64) -> bool {
    exists|j: int| 0 <= j < result.len() && (#[trigger] result[j]).1 == id
}

/// The larger of the two.
pub open spec fn wider(k: usize, ef_search: usize) -> usize {
    if k > ef_search {
        k
    } else {
        ef_search
    }
}

// The hit is a row of a list without a graph, unless the graphs are passed over.
spec fn is_scanned_so<T: RowIdFilter>(
    lists: Seq<HnswSearchList>,
    picks: Seq<usize>,
    filter: Option<&T>,
    scan_dist: spec_fn(usize, usize) -> u32,
    force: bool,
    hit: Hit,
) -> bool {
    exists|at: (usize, usize)| #[trigger]
        scan_law::is_row(ids_of(lists), picks, filter, at) && (force
            || lists[at.0 as int].graph is None) && hit == (
            scan_dist(at.0, at.1),
            scan_law::id_at(ids_of(lists), at),
        )
}

// What a graph finds in list `l` was offered.
spec fn graph_offered<T: RowIdFilter>(
    lists: Seq<HnswSearchList>,
    width: usize,
    filter: Option<&T>,
    graph_dist: spec_fn(usize, usize) -> u32,
    offered: Seq<Hit>,
    l: usize,
) -> bool {
    exists|found: Seq<(usize, u32)>|
        {
            &&& #[trigger] hnsw::search_found(
                lists[l as int].graph->0@,
                hnsw_search::of_list(graph_dist, l),
                width,
                width,
                found,
            )
            &&& forall|i: int|
                0 <= i < found.len() && (filter matches Some(f) ==> f.admits(
                    lists[l as int].ids@[found[i].0 as int],
                )) ==> offered.contains(
                    ((#[trigger] found[i]).1, lists[l as int].ids@[found[i].0 as int]),
                )
        }
}

// The rows that were offered so far, and that none is missing.
spec fn are_offered<T: RowIdFilter>(
    lists: Seq<HnswSearchList>,
    picks: Seq<usize>,
    n: int,
    width: usize,
    force: bool,
    filter: Option<&T>,
    graph_dist: spec_fn(usize, usize) -> u32,
    scan_dist: spec_fn(usize, usize) -> u32,
    offered: Seq<Hit>,
) -> bool {
    &&& forall|i: int|
        0 <= i < offered.len() ==> {
            ||| is_scanned_so(lists, picks, filter, scan_dist, force, #[trigger] offered[i])
            ||| !force && led_to(lists, picks, width, filter, graph_dist, offered[i])
        }
    &&& forall|at: (usize, usize)| #[trigger]
        scan_law::is_row(ids_of(lists), picks.take(n), filter, at) && (force
            || lists[at.0 as int].graph is None) ==> offered.contains(
            (scan_dist(at.0, at.1), scan_law::id_at(ids_of(lists), at)),
        )
    &&& forall|m: int|
        0 <= m < n && !force && lists[picks[m] as int].graph is Some ==> graph_offered(
            lists,
            width,
            filter,
            graph_dist,
            offered,
            #[trigger] picks[m],
        )
}

proof fn lemma_unique_append(data: Seq<Hit>, k: usize, a: Seq<Hit>, b: Seq<Hit>)
    ensures
        topk::unique_of(data, k, a + b) == topk::unique_of(topk::unique_of(data, k, a), k, b),
    decreases b.len(),
{
    if b.len() == 0 {
        assert(a + b =~= a);
    } else {
        lemma_unique_append(data, k, a, b.drop_last());
        assert((a + b).drop_last() =~= a + b.drop_last());
    }
}

proof fn lemma_admitted_found<T: RowIdFilter>(
    ids: Seq<i64>,
    filter: Option<&T>,
    found: Seq<(usize, u32)>,
)
    ensures
        ({
            let hits = hnsw_search::admitted_found(ids, filter, found);
            &&& forall|j: int|
                0 <= j < hits.len() ==> exists|i: int|
                    0 <= i < found.len() && (#[trigger] hits[j]) == (
                        (#[trigger] found[i]).1,
                        ids[found[i].0 as int],
                    ) && (filter matches Some(f) ==> f.admits(hits[j].1))
            &&& forall|i: int|
                0 <= i < found.len() && (filter matches Some(f) ==> f.admits(
                    ids[found[i].0 as int],
                )) ==> hits.contains(((#[trigger] found[i]).1, ids[found[i].0 as int]))
        }),
    decreases found.len(),
{
    let hits = hnsw_search::admitted_found(ids, filter, found);
    if found.len() > 0 {
        let front = found.drop_last();
        let last = found.len() - 1;
        lemma_admitted_found(ids, filter, front);
        let before = hnsw_search::admitted_found(ids, filter, front);
        assert forall|j: int| 0 <= j < hits.len() implies exists|i: int|
            0 <= i < found.len() && (#[trigger] hits[j]) == (
                (#[trigger] found[i]).1,
                ids[found[i].0 as int],
            ) && (filter matches Some(f) ==> f.admits(hits[j].1)) by {
            if j < before.len() {
                assert(hits[j] == before[j]);
                let i = choose|i: int|
                    0 <= i < front.len() && before[j] == (
                        (#[trigger] front[i]).1,
                        ids[front[i].0 as int],
                    ) && (filter matches Some(f) ==> f.admits(before[j].1));
                assert(found[i] == front[i]);
            } else {
                assert(hits[j] == (found[last].1, ids[found[last].0 as int]));
            }
        }
        assert forall|i: int|
            0 <= i < found.len() && (filter matches Some(f) ==> f.admits(
                ids[found[i].0 as int],
            )) implies hits.contains(((#[trigger] found[i]).1, ids[found[i].0 as int])) by {
            let hit = (found[i].1, ids[found[i].0 as int]);
            if i < front.len() {
                assert(front[i] == found[i]);
                assert(before.contains(hit));
                let q = choose|q: int| 0 <= q < before.len() && before[q] == hit;
                assert(hits[q] == hit);
            } else {
                assert(hits[before.len() as int] == hit);
            }
        }
    }
}

proof fn lemma_admitted_rows<T: RowIdFilter>(
    ids: Seq<i64>,
    filter: Option<&T>,
    dist: spec_fn(usize) -> u32,
)
    requires
        ids.len() <= usize::MAX,
    ensures
        ({
            let hits = hnsw_search::admitted_rows(ids, filter, dist);
            &&& forall|j: int|
                0 <= j < hits.len() ==> exists|row: usize|
                    row < ids.len() && (#[trigger] hits[j]) == (
                        #[trigger] dist(row),
                        ids[row as int],
                    ) && (filter matches Some(f) ==> f.admits(ids[row as int]))
            &&& forall|row: usize|
                row < ids.len() && (filter matches Some(f) ==> f.admits(ids[row as int]))
                    ==> hits.contains((#[trigger] dist(row), ids[row as int]))
        }),
    decreases ids.len(),
{
    let hits = hnsw_search::admitted_rows(ids, filter, dist);
    if ids.len() > 0 {
        let front = ids.drop_last();
        let last = (ids.len() - 1) as usize;
        lemma_admitted_rows(front, filter, dist);
        let before = hnsw_search::admitted_rows(front, filter, dist);
        assert forall|j: int| 0 <= j < hits.len() implies exists|row: usize|
            row < ids.len() && (#[trigger] hits[j]) == (#[trigger] dist(row), ids[row as int]) && (
            filter matches Some(f) ==> f.admits(ids[row as int])) by {
            if j < before.len() {
                assert(hits[j] == before[j]);
                let row = choose|row: usize|
                    row < front.len() && before[j] == (#[trigger] dist(row), front[row as int]) && (
                    filter matches Some(f) ==> f.admits(front[row as int]));
                assert(ids[row as int] == front[row as int]);
            } else {
                assert(hits[j] == (dist(last), ids[last as int]));
            }
        }
        assert forall|row: usize|
            row < ids.len() && (filter matches Some(f) ==> f.admits(
                ids[row as int],
            )) implies hits.contains((#[trigger] dist(row), ids[row as int])) by {
            let hit = (dist(row), ids[row as int]);
            if row < front.len() {
                assert(front[row as int] == ids[row as int]);
                assert(before.contains(hit));
                let q = choose|q: int| 0 <= q < before.len() && before[q] == hit;
                assert(hits[q] == hit);
            } else {
                assert(hits[before.len() as int] == hit);
            }
        }
    }
}

proof fn lemma_contains_append(a: Seq<Hit>, b: Seq<Hit>, hit: Hit)
    ensures
        a.contains(hit) ==> (a + b).contains(hit),
        b.contains(hit) ==> (a + b).contains(hit),
{
    if a.contains(hit) {
        let i = choose|i: int| 0 <= i < a.len() && a[i] == hit;
        assert((a + b)[i] == hit);
    }
    if b.contains(hit) {
        let i = choose|i: int| 0 <= i < b.len() && b[i] == hit;
        assert((a + b)[a.len() + i] == hit);
    }
}

proof fn lemma_of_list(dist: spec_fn(usize, usize) -> u32, l: usize)
    ensures
        hnsw_search::of_list(dist, l) == (|row: usize| dist(l, row)),
{
    assert(hnsw_search::of_list(dist, l) =~= (|row: usize| dist(l, row)));
}

#[verifier::rlimit(60)]
proof fn lemma_offered<T: RowIdFilter>(
    lists: Seq<HnswSearchList>,
    picks: Seq<usize>,
    k: usize,
    width: usize,
    force: bool,
    filter: Option<&T>,
    graph_dist: spec_fn(usize, usize) -> u32,
    scan_dist: spec_fn(usize, usize) -> u32,
    states: Seq<Seq<Hit>>,
    n: int,
) -> (offered: Seq<Hit>)
    requires
        hnsw_search::all_well_formed(lists),
        hnsw_search::lists_searched(
            lists,
            picks,
            k,
            width,
            force,
            filter,
            graph_dist,
            scan_dist,
            states,
        ),
        forall|i: int| 0 <= i < picks.len() ==> #[trigger] picks[i] < lists.len(),
        0 <= n <= picks.len(),
    ensures
        states[n] == topk::unique_of(Seq::empty(), k, offered),
        are_offered(lists, picks, n, width, force, filter, graph_dist, scan_dist, offered),
    decreases n,
{
    if n == 0 {
        assert(picks.take(0) =~= Seq::<usize>::empty());
        Seq::empty()
    } else {
        let before = lemma_offered(
            lists,
            picks,
            k,
            width,
            force,
            filter,
            graph_dist,
            scan_dist,
            states,
            n - 1,
        );
        assert(hnsw_search::pick_searched(
            lists,
            picks,
            k,
            width,
            force,
            filter,
            graph_dist,
            scan_dist,
            states,
            n - 1,
        ));
        let l = picks[n - 1];
        let list = lists[l as int];
        let ids = list.ids@;
        assert(ids.len() == list.ids.len());
        assert(list@.well_formed());
        assert(picks.contains(l));
        let gd = hnsw_search::of_list(graph_dist, l);
        let sd = hnsw_search::of_list(scan_dist, l);
        lemma_of_list(graph_dist, l);
        let via_graph = list.graph is Some && !force;
        let found = choose|found: Seq<(usize, u32)>|
            #[trigger] hnsw::search_found(list.graph->0@, gd, width, width, found) && states[n]
                == topk::unique_of(
                states[n - 1],
                k,
                hnsw_search::admitted_found(ids, filter, found),
            );
        let here = if via_graph {
            hnsw_search::admitted_found(ids, filter, found)
        } else {
            hnsw_search::admitted_rows(ids, filter, sd)
        };
        let offered = before + here;
        lemma_unique_append(Seq::empty(), k, before, here);
        if via_graph {
            hnsw::search_gives_closest_first(list.graph->0@, gd, width, width, found);
            lemma_admitted_found(ids, filter, found);
        } else {
            lemma_admitted_rows(ids, filter, sd);
        }
        assert forall|i: int| 0 <= i < offered.len() implies {
            ||| is_scanned_so(lists, picks, filter, scan_dist, force, #[trigger] offered[i])
            ||| !force && led_to(lists, picks, width, filter, graph_dist, offered[i])
        } by {
            if i < before.len() {
                assert(offered[i] == before[i]);
            } else {
                let j = i - before.len();
                assert(offered[i] == here[j]);
                if via_graph {
                    let q = choose|q: int|
                        0 <= q < found.len() && here[j] == (
                            (#[trigger] found[q]).1,
                            ids[found[q].0 as int],
                        ) && (filter matches Some(f) ==> f.admits(here[j].1));
                    assert(found[q].1 == gd(found[q].0));
                    assert(found_in_graph(
                        lists,
                        picks,
                        width,
                        filter,
                        graph_dist,
                        l,
                        found,
                        q,
                        offered[i],
                    ));
                } else {
                    let row = choose|row: usize|
                        row < ids.len() && here[j] == (#[trigger] sd(row), ids[row as int]) && (
                        filter matches Some(f) ==> f.admits(ids[row as int]));
                    assert(ids_of(lists)[l as int]@ == ids);
                    assert(scan_law::is_row(ids_of(lists), picks, filter, (l, row)));
                    assert(offered[i] == (
                        scan_dist(l, row),
                        scan_law::id_at(ids_of(lists), (l, row)),
                    ));
                }
            }
        }
        assert forall|at: (usize, usize)| #[trigger]
            scan_law::is_row(ids_of(lists), picks.take(n), filter, at) && (force
                || lists[at.0 as int].graph is None) implies offered.contains(
            (scan_dist(at.0, at.1), scan_law::id_at(ids_of(lists), at)),
        ) by {
            let hit = (scan_dist(at.0, at.1), scan_law::id_at(ids_of(lists), at));
            let short = picks.take(n - 1);
            let m = choose|m: int| 0 <= m < picks.take(n).len() && picks.take(n)[m] == at.0;
            if m < n - 1 {
                assert(short[m] == at.0);
                assert(scan_law::is_row(ids_of(lists), short, filter, at));
                assert(before.contains(hit));
            } else {
                assert(at.0 == l);
                assert(hit == (sd(at.1), ids[at.1 as int]));
                assert(here.contains((sd(at.1), ids[at.1 as int])));
            }
            lemma_contains_append(before, here, hit);
        }
        assert forall|m: int|
            0 <= m < n && !force && lists[picks[m] as int].graph is Some implies graph_offered(
            lists,
            width,
            filter,
            graph_dist,
            offered,
            #[trigger] picks[m],
        ) by {
            let other = lists[picks[m] as int];
            let got = if m < n - 1 {
                assert(graph_offered(lists, width, filter, graph_dist, before, picks[m]));
                choose|got: Seq<(usize, u32)>|
                    {
                        &&& #[trigger] hnsw::search_found(
                            other.graph->0@,
                            hnsw_search::of_list(graph_dist, picks[m]),
                            width,
                            width,
                            got,
                        )
                        &&& forall|i: int|
                            0 <= i < got.len() && (filter matches Some(f) ==> f.admits(
                                other.ids@[got[i].0 as int],
                            )) ==> before.contains(
                                ((#[trigger] got[i]).1, other.ids@[got[i].0 as int]),
                            )
                    }
            } else {
                found
            };
            assert(hnsw::search_found(
                other.graph->0@,
                hnsw_search::of_list(graph_dist, picks[m]),
                width,
                width,
                got,
            ));
            assert forall|i: int|
                0 <= i < got.len() && (filter matches Some(f) ==> f.admits(
                    other.ids@[got[i].0 as int],
                )) implies offered.contains(
                ((#[trigger] got[i]).1, other.ids@[got[i].0 as int]),
            ) by {
                lemma_contains_append(before, here, (got[i].1, other.ids@[got[i].0 as int]));
            }
        }
        offered
    }
}

#[verifier::rlimit(40)]
proof fn lemma_backfilled<T: RowIdFilter>(
    lists: Seq<HnswSearchList>,
    picks: Seq<usize>,
    n: int,
    k: usize,
    filter: Option<&T>,
    scan_dist: spec_fn(usize, usize) -> u32,
    stop_when_full: bool,
    first: Seq<Hit>,
) -> (more: Seq<Hit>)
    requires
        forall|i: int| 0 <= i < picks.len() ==> #[trigger] picks[i] < lists.len(),
        0 <= n <= picks.len(),
    ensures
        ({
            let end = hnsw_search::backfilled(
                lists,
                picks,
                n as nat,
                k,
                filter,
                scan_dist,
                stop_when_full,
                topk::unique_of(Seq::empty(), k, first),
            );
            &&& end == topk::unique_of(Seq::empty(), k, first + more)
            &&& forall|i: int|
                0 <= i < more.len() ==> is_scanned(
                    lists,
                    picks,
                    filter,
                    scan_dist,
                    #[trigger] more[i],
                )
            &&& !stop_when_full || end.len() < k ==> forall|at: (usize, usize)| #[trigger]
                scan_law::is_row(ids_of(lists), picks.take(n), filter, at) ==> more.contains(
                    (scan_dist(at.0, at.1), scan_law::id_at(ids_of(lists), at)),
                )
        }),
    decreases n,
{
    let start = topk::unique_of(Seq::empty(), k, first);
    if n == 0 {
        assert(first + Seq::<Hit>::empty() =~= first);
        assert(picks.take(0) =~= Seq::<usize>::empty());
        Seq::empty()
    } else {
        let before = lemma_backfilled(
            lists,
            picks,
            n - 1,
            k,
            filter,
            scan_dist,
            stop_when_full,
            first,
        );
        let old_end = hnsw_search::backfilled(
            lists,
            picks,
            (n - 1) as nat,
            k,
            filter,
            scan_dist,
            stop_when_full,
            start,
        );
        let l = picks[n - 1];
        let ids = lists[l as int].ids@;
        assert(ids.len() == lists[l as int].ids.len());
        assert(picks.contains(l));
        let sd = hnsw_search::of_list(scan_dist, l);
        let here = hnsw_search::admitted_rows(ids, filter, sd);
        if stop_when_full && old_end.len() >= k {
            before
        } else {
            let more = before + here;
            lemma_admitted_rows(ids, filter, sd);
            lemma_unique_append(Seq::empty(), k, first + before, here);
            assert(first + before + here =~= first + more);
            assert forall|i: int| 0 <= i < more.len() implies is_scanned(
                lists,
                picks,
                filter,
                scan_dist,
                #[trigger] more[i],
            ) by {
                if i < before.len() {
                    assert(more[i] == before[i]);
                } else {
                    let j = i - before.len();
                    assert(more[i] == here[j]);
                    let row = choose|row: usize|
                        row < ids.len() && here[j] == (#[trigger] sd(row), ids[row as int]) && (
                        filter matches Some(f) ==> f.admits(ids[row as int]));
                    assert(ids_of(lists)[l as int]@ == ids);
                    assert(scan_law::is_row(ids_of(lists), picks, filter, (l, row)));
                    assert(more[i] == (
                        scan_dist(l, row),
                        scan_law::id_at(ids_of(lists), (l, row)),
                    ));
                }
            }
            assert forall|at: (usize, usize)| #[trigger]
                scan_law::is_row(ids_of(lists), picks.take(n), filter, at) implies more.contains(
                (scan_dist(at.0, at.1), scan_law::id_at(ids_of(lists), at)),
            ) by {
                let hit = (scan_dist(at.0, at.1), scan_law::id_at(ids_of(lists), at));
                let short = picks.take(n - 1);
                let m = choose|m: int| 0 <= m < picks.take(n).len() && picks.take(n)[m] == at.0;
                if m < n - 1 {
                    assert(short[m] == at.0);
                    assert(scan_law::is_row(ids_of(lists), short, filter, at));
                    assert(before.contains(hit));
                } else {
                    assert(at.0 == l);
                    assert(hit == (sd(at.1), ids[at.1 as int]));
                    assert(here.contains((sd(at.1), ids[at.1 as int])));
                }
                lemma_contains_append(before, here, hit);
            }
            more
        }
    }
}

// The rows that were offered first, by the graphs, and those that were offered then, by scans.
spec fn came_so<T: RowIdFilter>(
    lists: Seq<HnswSearchList>,
    picks: Seq<usize>,
    k: usize,
    ef_search: usize,
    filter: Option<&T>,
    graph_dist: spec_fn(usize, usize) -> u32,
    scan_dist: spec_fn(usize, usize) -> u32,
    stop_when_full: bool,
    result: Seq<Hit>,
    force: bool,
    first: Seq<Hit>,
    more: Seq<Hit>,
) -> bool {
    let kept = topk::unique_of(Seq::empty(), k, first);
    let all = first + more;
    let again = filter is Some && !force && kept.len() < k;
    &&& force == hnsw_search::few_match(lists, picks, filter, wider(k, ef_search))
    &&& are_offered(
        lists,
        picks,
        picks.len() as int,
        wider(k, ef_search),
        force,
        filter,
        graph_dist,
        scan_dist,
        first,
    )
    &&& topk::no_nan(all)
    &&& result.len() <= k
    &&& topk::unique_ids(result)
    &&& forall|i: int, j: int|
        0 <= i < j < result.len() ==> float_bits::total_key((#[trigger] result[i]).0)
            <= float_bits::total_key((#[trigger] result[j]).0)
    &&& forall|j: int| 0 <= j < result.len() ==> all.contains(#[trigger] result[j])
    &&& forall|i: int|
        0 <= i < all.len() ==> is_settled(result, k, (#[trigger] all[i]).0, all[i].1)
    &&& !again ==> more.len() == 0 && result.len() == kept.len()
    &&& forall|i: int|
        0 <= i < more.len() ==> is_scanned(lists, picks, filter, scan_dist, #[trigger] more[i])
    &&& again && (!stop_when_full || result.len() < k) ==> forall|at: (usize, usize)| #[trigger]
        scan_law::is_row(ids_of(lists), picks, filter, at) ==> more.contains(
            (scan_dist(at.0, at.1), scan_law::id_at(ids_of(lists), at)),
        )
}

proof fn lemma_row_of_found<T: RowIdFilter>(
    lists: Seq<HnswSearchList>,
    picks: Seq<usize>,
    width: usize,
    filter: Option<&T>,
    graph_dist: spec_fn(usize, usize) -> u32,
    hit: Hit,
) -> (at: (usize, usize))
    requires
        led_to(lists, picks, width, filter, graph_dist, hit),
    ensures
        scan_law::is_row(ids_of(lists), picks, filter, at),
        lists[at.0 as int].graph is Some,
        hit == (graph_dist(at.0, at.1), scan_law::id_at(ids_of(lists), at)),
{
    let (l, found, i) = choose|l: usize, found: Seq<(usize, u32)>, i: int| #[trigger]
        found_in_graph(lists, picks, width, filter, graph_dist, l, found, i, hit);
    assert(ids_of(lists)[l as int]@ == lists[l as int].ids@);
    (l, found[i].0)
}

#[verifier::rlimit(60)]
proof fn lemma_outcome<T: RowIdFilter>(
    lists: Seq<HnswSearchList>,
    picks: Seq<usize>,
    k: usize,
    ef_search: usize,
    filter: Option<&T>,
    graph_dist: spec_fn(usize, usize) -> u32,
    scan_dist: spec_fn(usize, usize) -> u32,
    stop_when_full: bool,
    result: Seq<Hit>,
) -> (r: (bool, Seq<Hit>, Seq<Hit>))
    requires
        hnsw_search::all_well_formed(lists),
        forall|i: int| 0 <= i < picks.len() ==> #[trigger] picks[i] < lists.len(),
        scan_law::rows_have_no_nan(ids_of(lists), picks, filter, graph_dist),
        scan_law::rows_have_no_nan(ids_of(lists), picks, filter, scan_dist),
        hnsw_search::search_outcome(
            lists,
            picks,
            k,
            ef_search,
            filter,
            graph_dist,
            scan_dist,
            stop_when_full,
            result,
        ),
    ensures
        came_so(
            lists,
            picks,
            k,
            ef_search,
            filter,
            graph_dist,
            scan_dist,
            stop_when_full,
            result,
            r.0,
            r.1,
            r.2,
        ),
{
    let width = wider(k, ef_search);
    assert(width == hnsw_search::width_of(k, ef_search));
    let force = hnsw_search::few_match(lists, picks, filter, width);
    let states = choose|states: Seq<Seq<Hit>>|
        #[trigger] hnsw_search::lists_searched(
            lists,
            picks,
            k,
            width,
            force,
            filter,
            graph_dist,
            scan_dist,
            states,
        ) && ({
            let kept = states.last();
            let end = if filter is Some && kept.len() < k && !force {
                hnsw_search::backfilled(
                    lists,
                    picks,
                    picks.len(),
                    k,
                    filter,
                    scan_dist,
                    stop_when_full,
                    kept,
                )
            } else {
                kept
            };
            result == topk::sorted_hits(end, topk::by_total())
        });
    let first = lemma_offered(
        lists,
        picks,
        k,
        width,
        force,
        filter,
        graph_dist,
        scan_dist,
        states,
        picks.len() as int,
    );
    let kept = topk::unique_of(Seq::empty(), k, first);
    assert(states.last() == kept);
    assert(picks.take(picks.len() as int) =~= picks);
    let again = filter is Some && !force && kept.len() < k;
    let more = if again {
        lemma_backfilled(
            lists,
            picks,
            picks.len() as int,
            k,
            filter,
            scan_dist,
            stop_when_full,
            first,
        )
    } else {
        Seq::empty()
    };
    let all = first + more;
    assert(!again ==> all =~= first);
    let end = topk::unique_of(Seq::empty(), k, all);
    assert(result == topk::sorted_hits(end, topk::by_total()));
    assert(topk::no_nan(all)) by {
        assert forall|i: int| 0 <= i < all.len() implies !float_bits::is_nan(
            (#[trigger] all[i]).0,
        ) by {
            if i < first.len() {
                assert(all[i] == first[i]);
            } else {
                assert(all[i] == more[i - first.len()]);
            }
            if is_scanned(lists, picks, filter, scan_dist, all[i]) {
                let at = choose|at: (usize, usize)| #[trigger]
                    scan_law::is_row(ids_of(lists), picks, filter, at) && all[i] == (
                        scan_dist(at.0, at.1),
                        scan_law::id_at(ids_of(lists), at),
                    );
            } else {
                let at = lemma_row_of_found(lists, picks, width, filter, graph_dist, all[i]);
            }
        }
    }
    topk::closest_ids_are_kept(k, all);
    let key = topk::by_total();
    let order = scan_law::lemma_sorted_positions(end, key);
    assert forall|i: int, j: int| 0 <= i < j < result.len() implies float_bits::total_key(
        (#[trigger] result[i]).0,
    ) <= float_bits::total_key((#[trigger] result[j]).0) by {
        assert(key(result[i].0) <= key(result[j].0));
    }
    assert forall|j: int| 0 <= j < result.len() implies all.contains(#[trigger] result[j]) by {
        assert(order[j] < end.len());
        assert(all.contains(end[order[j] as int]));
    }
    assert forall|i: int, j: int| 0 <= i < j < result.len() implies (#[trigger] result[i]).1 != (
    #[trigger] result[j]).1 by {
        assert(order[i] != order[j]);
        assert(result[i] == end[order[i] as int] && result[j] == end[order[j] as int]);
        if order[i] < order[j] {
            assert(end[order[i] as int].1 != end[order[j] as int].1);
        } else {
            assert(end[order[j] as int].1 != end[order[i] as int].1);
        }
    }
    assert forall|i: int| 0 <= i < all.len() implies is_settled(
        result,
        k,
        (#[trigger] all[i]).0,
        all[i].1,
    ) by {
        if topk::kept_under_id(end, all[i]) {
            let q = choose|q: int|
                0 <= q < end.len() && (#[trigger] end[q]).1 == all[i].1 && !float_bits::lt(
                    all[i].0,
                    end[q].0,
                );
            assert(order.contains(q as usize));
            let j = choose|j: int| 0 <= j < order.len() && order[j] == q as usize;
            assert(result[j] == end[q]);
        } else {
            assert forall|j: int| 0 <= j < result.len() implies !float_bits::lt(
                all[i].0,
                (#[trigger] result[j]).0,
            ) by {
                assert(order[j] < end.len());
                assert(result[j] == end[order[j] as int]);
            }
        }
    }
    (force, first, more)
}

/// The distance is one of the row's own: that of the graph, where the list has one, or that of a
/// scan, where the list has no graph or a filter is there.
pub open spec fn has_own_distance<T: RowIdFilter>(
    lists: Seq<HnswSearchList>,
    filter: Option<&T>,
    graph_dist: spec_fn(usize, usize) -> u32,
    scan_dist: spec_fn(usize, usize) -> u32,
    at: (usize, usize),
    d: u32,
) -> bool {
    ||| lists[at.0 as int].graph is Some && d == graph_dist(at.0, at.1)
    ||| (lists[at.0 as int].graph is None || filter is Some) && d == scan_dist(at.0, at.1)
}

/// The hit is a row of a list that is looked at and passes the filter, with a distance of its own.
pub open spec fn is_row_hit<T: RowIdFilter>(
    lists: Seq<HnswSearchList>,
    picks: Seq<usize>,
    filter: Option<&T>,
    graph_dist: spec_fn(usize, usize) -> u32,
    scan_dist: spec_fn(usize, usize) -> u32,
    hit: Hit,
) -> bool {
    exists|at: (usize, usize)| #[trigger]
        scan_law::is_row(ids_of(lists), picks, filter, at) && hit.1 == scan_law::id_at(
            ids_of(lists),
            at,
        ) && has_own_distance(lists, filter, graph_dist, scan_dist, at, hit.0)
}

/// A search through graphs gives at most `k` rows with different ids, closest first. Each is a row
/// of a list that is looked at, it passes the filter, and its distance is one of its own.
pub proof fn graph_searches_give_rows_that_pass<T: RowIdFilter>(
    lists: Seq<HnswSearchList>,
    picks: Seq<usize>,
    k: usize,
    ef_search: usize,
    filter: Option<&T>,
    graph_dist: spec_fn(usize, usize) -> u32,
    scan_dist: spec_fn(usize, usize) -> u32,
    stop_when_full: bool,
    result: Seq<Hit>,
)
    requires
        hnsw_search::all_well_formed(lists),
        forall|i: int| 0 <= i < picks.len() ==> #[trigger] picks[i] < lists.len(),
        scan_law::rows_have_no_nan(ids_of(lists), picks, filter, graph_dist),
        scan_law::rows_have_no_nan(ids_of(lists), picks, filter, scan_dist),
        hnsw_search::search_outcome(
            lists,
            picks,
            k,
            ef_search,
            filter,
            graph_dist,
            scan_dist,
            stop_when_full,
            result,
        ),
    ensures
        result.len() <= k,
        forall|i: int, j: int|
            0 <= i < j < result.len() ==> (#[trigger] result[i]).1 != (#[trigger] result[j]).1
                && !float_bits::lt(result[j].0, result[i].0),
        forall|j: int|
            0 <= j < result.len() ==> is_row_hit(
                lists,
                picks,
                filter,
                graph_dist,
                scan_dist,
                #[trigger] result[j],
            ),
{
    let (force, first, more) = lemma_outcome(
        lists,
        picks,
        k,
        ef_search,
        filter,
        graph_dist,
        scan_dist,
        stop_when_full,
        result,
    );
    let all = first + more;
    assert forall|j: int| 0 <= j < result.len() implies is_row_hit(
        lists,
        picks,
        filter,
        graph_dist,
        scan_dist,
        #[trigger] result[j],
    ) by {
        assert(all.contains(result[j]));
        let i = choose|i: int| 0 <= i < all.len() && all[i] == result[j];
        if i < first.len() {
            assert(first[i] == result[j]);
            if !is_scanned_so(lists, picks, filter, scan_dist, force, first[i]) {
                let at = lemma_row_of_found(
                    lists,
                    picks,
                    wider(k, ef_search),
                    filter,
                    graph_dist,
                    result[j],
                );
            } else {
                let at = choose|at: (usize, usize)| #[trigger]
                    scan_law::is_row(ids_of(lists), picks, filter, at) && (force
                        || lists[at.0 as int].graph is None) && first[i] == (
                        scan_dist(at.0, at.1),
                        scan_law::id_at(ids_of(lists), at),
                    );
                assert(has_own_distance(lists, filter, graph_dist, scan_dist, at, result[j].0));
            }
        } else {
            let other = more[i - first.len()];
            assert(other == result[j]);
            let at = choose|at: (usize, usize)| #[trigger]
                scan_law::is_row(ids_of(lists), picks, filter, at) && other == (
                    scan_dist(at.0, at.1),
                    scan_law::id_at(ids_of(lists), at),
                );
            assert(has_own_distance(lists, filter, graph_dist, scan_dist, at, result[j].0));
        }
    }
    assert forall|i: int, j: int| 0 <= i < j < result.len() implies (#[trigger] result[i]).1 != (
    #[trigger] result[j]).1 && !float_bits::lt(result[j].0, result[i].0) by {
        assert(float_bits::total_key(result[i].0) <= float_bits::total_key(result[j].0));
    }
}

proof fn lemma_enough_ids(result: Seq<Hit>, wanted: Seq<i64>)
    requires
        wanted.no_duplicates(),
        forall|i: int| 0 <= i < wanted.len() ==> gives_id(result, #[trigger] wanted[i]),
    ensures
        result.len() >= wanted.len(),
{
    let ids = Seq::new(result.len(), |i: int| result[i].1);
    wanted.unique_seq_to_set();
    vstd::seq_lib::seq_to_set_is_finite(ids);
    assert(wanted.to_set().subset_of(ids.to_set())) by {
        assert forall|v: i64| wanted.to_set().contains(v) implies ids.to_set().contains(v) by {
            let i = choose|i: int| 0 <= i < wanted.len() && wanted[i] == v;
            assert(gives_id(result, wanted[i]));
            let q = choose|q: int| 0 <= q < result.len() && (#[trigger] result[q]).1 == v;
            assert(ids[q] == v);
        }
    }
    vstd::set_lib::lemma_len_subset(wanted.to_set(), ids.to_set());
    ids.lemma_cardinality_of_set();
}

/// The id is that of a row of a list that is looked at, and passes the filter.
pub open spec fn is_wanted<T: RowIdFilter>(
    lists: Seq<HnswSearchList>,
    picks: Seq<usize>,
    filter: Option<&T>,
    id: i64,
) -> bool {
    exists|at: (usize, usize)| #[trigger]
        scan_law::is_row(ids_of(lists), picks, filter, at) && scan_law::id_at(ids_of(lists), at)
            == id
}

/// A search with a filter gives `k` rows, or a row of every id that passes the filter: as many rows
/// as there are different ids that pass, up to `k`.
pub proof fn filtered_searches_fill_up<T: RowIdFilter>(
    lists: Seq<HnswSearchList>,
    picks: Seq<usize>,
    k: usize,
    ef_search: usize,
    filter: Option<&T>,
    graph_dist: spec_fn(usize, usize) -> u32,
    scan_dist: spec_fn(usize, usize) -> u32,
    stop_when_full: bool,
    result: Seq<Hit>,
)
    requires
        filter is Some,
        hnsw_search::all_well_formed(lists),
        forall|i: int| 0 <= i < picks.len() ==> #[trigger] picks[i] < lists.len(),
        scan_law::rows_have_no_nan(ids_of(lists), picks, filter, graph_dist),
        scan_law::rows_have_no_nan(ids_of(lists), picks, filter, scan_dist),
        hnsw_search::search_outcome(
            lists,
            picks,
            k,
            ef_search,
            filter,
            graph_dist,
            scan_dist,
            stop_when_full,
            result,
        ),
    ensures
        result.len() == k || forall|at: (usize, usize)| #[trigger]
            scan_law::is_row(ids_of(lists), picks, filter, at) ==> gives_id(
                result,
                scan_law::id_at(ids_of(lists), at),
            ),
        forall|wanted: Seq<i64>| #[trigger]
            wanted.no_duplicates() && (forall|i: int|
                0 <= i < wanted.len() ==> is_wanted(lists, picks, filter, #[trigger] wanted[i]))
                ==> result.len() >= k || result.len() >= wanted.len(),
{
    let (force, first, more) = lemma_outcome(
        lists,
        picks,
        k,
        ef_search,
        filter,
        graph_dist,
        scan_dist,
        stop_when_full,
        result,
    );
    let all = first + more;
    assert(picks.take(picks.len() as int) =~= picks);
    if result.len() < k {
        assert forall|at: (usize, usize)| #[trigger]
            scan_law::is_row(ids_of(lists), picks, filter, at) implies gives_id(
            result,
            scan_law::id_at(ids_of(lists), at),
        ) by {
            let hit = (scan_dist(at.0, at.1), scan_law::id_at(ids_of(lists), at));
            assert(first.contains(hit) || more.contains(hit));
            lemma_contains_append(first, more, hit);
            let i = choose|i: int| 0 <= i < all.len() && all[i] == hit;
            assert(is_settled(result, k, all[i].0, all[i].1));
        }
        assert forall|wanted: Seq<i64>| #[trigger]
            wanted.no_duplicates() && (forall|i: int|
                0 <= i < wanted.len() ==> is_wanted(
                    lists,
                    picks,
                    filter,
                    #[trigger] wanted[i],
                )) implies result.len() >= wanted.len() by {
            assert forall|i: int| 0 <= i < wanted.len() implies gives_id(
                result,
                #[trigger] wanted[i],
            ) by {
                assert(is_wanted(lists, picks, filter, wanted[i]));
            }
            lemma_enough_ids(result, wanted);
        }
    }
}

/// A search with a filter that is not cut short gives the closest of all rows that pass, unless the
/// graphs, searched as widely as they are, lead to `k` rows with different ids by themselves.
pub proof fn short_graph_searches_are_made_up_for<T: RowIdFilter>(
    lists: Seq<HnswSearchList>,
    picks: Seq<usize>,
    k: usize,
    ef_search: usize,
    filter: Option<&T>,
    graph_dist: spec_fn(usize, usize) -> u32,
    scan_dist: spec_fn(usize, usize) -> u32,
    stop_when_full: bool,
    result: Seq<Hit>,
)
    requires
        filter is Some,
        !stop_when_full,
        hnsw_search::all_well_formed(lists),
        forall|i: int| 0 <= i < picks.len() ==> #[trigger] picks[i] < lists.len(),
        scan_law::rows_have_no_nan(ids_of(lists), picks, filter, graph_dist),
        scan_law::rows_have_no_nan(ids_of(lists), picks, filter, scan_dist),
        hnsw_search::search_outcome(
            lists,
            picks,
            k,
            ef_search,
            filter,
            graph_dist,
            scan_dist,
            stop_when_full,
            result,
        ),
    ensures
        ({
            ||| forall|at: (usize, usize)| #[trigger]
                scan_law::is_row(ids_of(lists), picks, filter, at) ==> is_settled(
                    result,
                    k,
                    scan_dist(at.0, at.1),
                    scan_law::id_at(ids_of(lists), at),
                )
            ||| exists|led: Seq<Hit>|
                {
                    &&& #[trigger] topk::unique_ids(led)
                    &&& led.len() == k
                    &&& forall|i: int|
                        0 <= i < led.len() ==> led_to(
                            lists,
                            picks,
                            wider(k, ef_search),
                            filter,
                            graph_dist,
                            #[trigger] led[i],
                        ) || (exists|at: (usize, usize)| #[trigger]
                            scan_law::is_row(ids_of(lists), picks, filter, at)
                                && lists[at.0 as int].graph is None && led[i] == (
                                scan_dist(at.0, at.1),
                                scan_law::id_at(ids_of(lists), at),
                            ))
                }
        }),
{
    let (force, first, more) = lemma_outcome(
        lists,
        picks,
        k,
        ef_search,
        filter,
        graph_dist,
        scan_dist,
        stop_when_full,
        result,
    );
    let all = first + more;
    let kept = topk::unique_of(Seq::empty(), k, first);
    assert(picks.take(picks.len() as int) =~= picks);
    if force || kept.len() < k {
        assert forall|at: (usize, usize)| #[trigger]
            scan_law::is_row(ids_of(lists), picks, filter, at) implies is_settled(
            result,
            k,
            scan_dist(at.0, at.1),
            scan_law::id_at(ids_of(lists), at),
        ) by {
            let hit = (scan_dist(at.0, at.1), scan_law::id_at(ids_of(lists), at));
            assert(first.contains(hit) || more.contains(hit));
            lemma_contains_append(first, more, hit);
            let i = choose|i: int| 0 <= i < all.len() && all[i] == hit;
            assert(is_settled(result, k, all[i].0, all[i].1));
        }
    } else {
        assert(all =~= first);
        topk::closest_ids_are_kept(k, first);
        assert forall|i: int| 0 <= i < kept.len() implies led_to(
            lists,
            picks,
            wider(k, ef_search),
            filter,
            graph_dist,
            #[trigger] kept[i],
        ) || (exists|at: (usize, usize)| #[trigger]
            scan_law::is_row(ids_of(lists), picks, filter, at) && lists[at.0 as int].graph is None
                && kept[i] == (scan_dist(at.0, at.1), scan_law::id_at(ids_of(lists), at))) by {
            assert(first.contains(kept[i]));
            let q = choose|q: int| 0 <= q < first.len() && first[q] == kept[i];
            assert(first[q] == kept[i]);
        }
        assert(topk::unique_ids(kept));
    }
}

/// On the lowest level of the graph every node can be reached from every other.
pub open spec fn is_connected(g: GraphModel) -> bool {
    forall|a: usize, b: usize|
        a < g.levels.len() && b < g.levels.len() ==> #[trigger] hnsw_layer::reachable(
            g.adjacency,
            0,
            a,
            b,
        )
}

proof fn lemma_all_given(r: Seq<(usize, u32)>, n: nat, v: usize)
    requires
        forall|i: int, j: int| 0 <= i < j < r.len() ==> (#[trigger] r[i]).0 != (#[trigger] r[j]).0,
        forall|i: int| 0 <= i < r.len() ==> (#[trigger] r[i]).0 < n,
        r.len() >= n,
        v < n,
    ensures
        graph_law::gives(r, v),
{
    if !graph_law::gives(r, v) {
        let ids = Seq::new(r.len(), |i: int| r[i].0 as int).push(v as int);
        assert(ids.no_duplicates()) by {
            assert forall|i: int, j: int| 0 <= i < ids.len() && 0 <= j < ids.len() && i
                != j implies ids[i] != ids[j] by {
                if i < r.len() && j < r.len() {
                    if i < j {
                        assert(r[i].0 != r[j].0);
                    } else {
                        assert(r[j].0 != r[i].0);
                    }
                } else if i < r.len() {
                    assert(r[i].0 != v);
                } else {
                    assert(r[j].0 != v);
                }
            }
        }
        ids.unique_seq_to_set();
        let all = vstd::set_lib::set_int_range(0, n as int);
        vstd::set_lib::lemma_int_range(0, n as int);
        assert(ids.to_set().subset_of(all)) by {
            assert forall|x: int| ids.to_set().contains(x) implies all.contains(x) by {
                let i = choose|i: int| 0 <= i < ids.len() && ids[i] == x;
                if i < r.len() {
                    assert(r[i].0 < n);
                }
            }
        }
        vstd::set_lib::lemma_len_subset(ids.to_set(), all);
    }
}

/// A search of a connected graph that is as wide as it has nodes finds every node; a narrower one
/// finds as many as it is wide.
proof fn lemma_connected_search(
    g: GraphModel,
    dist: spec_fn(usize) -> u32,
    width: usize,
    found: Seq<(usize, u32)>,
)
    requires
        g.well_formed(),
        g.levels.len() <= usize::MAX,
        is_connected(g),
        hnsw::search_found(g, dist, width, width, found),
        width > 0,
    ensures
        g.levels.len() <= width ==> forall|v: usize|
            v < g.levels.len() ==> #[trigger] graph_law::gives(found, v),
        g.levels.len() > width ==> found.len() == width,
{
    let n = g.levels.len();
    if n > 0 {
        graph_law::searches_give_enough(g, dist, width, width, found);
        hnsw::search_gives_closest_first(g, dist, width, width, found);
        let end = choose|end: usize| #[trigger]
            graph_law::searched_from(g, dist, width, width, found, end);
        let nodes = Seq::new(n, |i: int| i as usize);
        assert(nodes.no_duplicates());
        assert forall|i: int| 0 <= i < nodes.len() implies hnsw_layer::reachable(
            g.adjacency,
            0,
            end,
            #[trigger] nodes[i],
        ) by {}
        assert(found.len() >= width || found.len() >= nodes.len());
        if n <= width {
            assert forall|v: usize| v < n implies #[trigger] graph_law::gives(found, v) by {
                lemma_all_given(found, n, v);
            }
        }
    }
}

/// Lists that are no longer than the search is wide, with graphs in which every node can be
/// reached, are searched exactly: every row that passes the filter is given under its id, or `k`
/// rows are given of which none is farther off.
pub proof fn short_lists_are_searched_exactly<T: RowIdFilter>(
    lists: Seq<HnswSearchList>,
    picks: Seq<usize>,
    k: usize,
    ef_search: usize,
    filter: Option<&T>,
    graph_dist: spec_fn(usize, usize) -> u32,
    scan_dist: spec_fn(usize, usize) -> u32,
    stop_when_full: bool,
    result: Seq<Hit>,
)
    requires
        k > 0,
        forall|l: usize|
            l < lists.len() && #[trigger] picks.contains(l) ==> {
                &&& lists[l as int].graph matches Some(g) ==> is_connected(g@)
                &&& lists[l as int].ids@.len() <= k || lists[l as int].ids@.len() <= ef_search
            },
        hnsw_search::all_well_formed(lists),
        forall|i: int| 0 <= i < picks.len() ==> #[trigger] picks[i] < lists.len(),
        scan_law::rows_have_no_nan(ids_of(lists), picks, filter, graph_dist),
        scan_law::rows_have_no_nan(ids_of(lists), picks, filter, scan_dist),
        hnsw_search::search_outcome(
            lists,
            picks,
            k,
            ef_search,
            filter,
            graph_dist,
            scan_dist,
            stop_when_full,
            result,
        ),
    ensures
        forall|at: (usize, usize)| #[trigger]
            scan_law::is_row(ids_of(lists), picks, filter, at) ==> {
                let id = scan_law::id_at(ids_of(lists), at);
                ||| is_settled(result, k, graph_dist(at.0, at.1), id) && lists[at.0 as int].graph is Some
                ||| is_settled(result, k, scan_dist(at.0, at.1), id) && (lists[at.0 as int].graph is None || filter is Some)
            },
{
    let (force, first, more) = lemma_outcome(
        lists,
        picks,
        k,
        ef_search,
        filter,
        graph_dist,
        scan_dist,
        stop_when_full,
        result,
    );
    let all = first + more;
    let width = wider(k, ef_search);
    assert(picks.take(picks.len() as int) =~= picks);
    assert forall|at: (usize, usize)| #[trigger]
        scan_law::is_row(ids_of(lists), picks, filter, at) implies {
        let id = scan_law::id_at(ids_of(lists), at);
        ||| is_settled(result, k, graph_dist(at.0, at.1), id) && lists[at.0 as int].graph is Some
        ||| is_settled(result, k, scan_dist(at.0, at.1), id) && (lists[at.0 as int].graph is None
            || filter is Some)
    } by {
        let l = at.0;
        let id = scan_law::id_at(ids_of(lists), at);
        let list = lists[l as int];
        if force || list.graph is None {
            let hit = (scan_dist(at.0, at.1), id);
            assert(first.contains(hit));
            lemma_contains_append(first, more, hit);
            let i = choose|i: int| 0 <= i < all.len() && all[i] == hit;
            assert(is_settled(result, k, all[i].0, all[i].1));
        } else {
            let m = choose|m: int| 0 <= m < picks.len() && picks[m] == l;
            assert(graph_offered(lists, width, filter, graph_dist, first, picks[m]));
            let gd = hnsw_search::of_list(graph_dist, l);
            let found = choose|found: Seq<(usize, u32)>|
                {
                    &&& #[trigger] hnsw::search_found(list.graph->0@, gd, width, width, found)
                    &&& forall|i: int|
                        0 <= i < found.len() && (filter matches Some(f) ==> f.admits(
                            list.ids@[found[i].0 as int],
                        )) ==> first.contains(
                            ((#[trigger] found[i]).1, list.ids@[found[i].0 as int]),
                        )
                };
            assert(list@.well_formed());
            assert(list.ids@.len() == list.ids.len());
            lemma_connected_search(list.graph->0@, gd, width, found);
            hnsw::search_gives_closest_first(list.graph->0@, gd, width, width, found);
            assert(graph_law::gives(found, at.1));
            let q = choose|q: int| 0 <= q < found.len() && (#[trigger] found[q]).0 == at.1;
            assert(found[q].1 == gd(at.1));
            let hit = (graph_dist(at.0, at.1), id);
            assert(ids_of(lists)[l as int]@ == list.ids@);
            assert(first.contains((found[q].1, list.ids@[found[q].0 as int])));
            lemma_contains_append(first, more, hit);
            let i = choose|i: int| 0 <= i < all.len() && all[i] == hit;
            assert(is_settled(result, k, all[i].0, all[i].1));
        }
    }
}

/// A search without a filter over lists with graphs in which every node can be reached, and in
/// which no id is there twice, gives `k` rows, or a row of every id.
pub proof fn unfiltered_searches_fill_up<T: RowIdFilter>(
    lists: Seq<HnswSearchList>,
    picks: Seq<usize>,
    k: usize,
    ef_search: usize,
    filter: Option<&T>,
    graph_dist: spec_fn(usize, usize) -> u32,
    scan_dist: spec_fn(usize, usize) -> u32,
    stop_when_full: bool,
    result: Seq<Hit>,
)
    requires
        filter is None,
        k > 0,
        forall|l: usize|
            l < lists.len() && #[trigger] picks.contains(l) ==> {
                &&& lists[l as int].graph matches Some(g) ==> is_connected(g@)
                &&& lists[l as int].ids@.no_duplicates()
            },
        hnsw_search::all_well_formed(lists),
        forall|i: int| 0 <= i < picks.len() ==> #[trigger] picks[i] < lists.len(),
        scan_law::rows_have_no_nan(ids_of(lists), picks, filter, graph_dist),
        scan_law::rows_have_no_nan(ids_of(lists), picks, filter, scan_dist),
        hnsw_search::search_outcome(
            lists,
            picks,
            k,
            ef_search,
            filter,
            graph_dist,
            scan_dist,
            stop_when_full,
            result,
        ),
    ensures
        result.len() == k || forall|at: (usize, usize)| #[trigger]
            scan_law::is_row(ids_of(lists), picks, filter, at) ==> gives_id(
                result,
                scan_law::id_at(ids_of(lists), at),
            ),
{
    let (force, first, more) = lemma_outcome(
        lists,
        picks,
        k,
        ef_search,
        filter,
        graph_dist,
        scan_dist,
        stop_when_full,
        result,
    );
    let all = first + more;
    let width = wider(k, ef_search);
    assert(picks.take(picks.len() as int) =~= picks);
    if result.len() < k {
        assert forall|at: (usize, usize)| #[trigger]
            scan_law::is_row(ids_of(lists), picks, filter, at) implies gives_id(
            result,
            scan_law::id_at(ids_of(lists), at),
        ) by {
            let l = at.0;
            let id = scan_law::id_at(ids_of(lists), at);
            let list = lists[l as int];
            if list.graph is None {
                let hit = (scan_dist(at.0, at.1), id);
                assert(first.contains(hit));
                lemma_contains_append(first, more, hit);
                let i = choose|i: int| 0 <= i < all.len() && all[i] == hit;
                assert(is_settled(result, k, all[i].0, all[i].1));
            } else {
                let m = choose|m: int| 0 <= m < picks.len() && picks[m] == l;
                assert(graph_offered(lists, width, filter, graph_dist, first, picks[m]));
                let gd = hnsw_search::of_list(graph_dist, l);
                let found = choose|found: Seq<(usize, u32)>|
                    {
                        &&& #[trigger] hnsw::search_found(list.graph->0@, gd, width, width, found)
                        &&& forall|i: int|
                            0 <= i < found.len() && (filter matches Some(f) ==> f.admits(
                                list.ids@[found[i].0 as int],
                            )) ==> first.contains(
                                ((#[trigger] found[i]).1, list.ids@[found[i].0 as int]),
                            )
                    };
                assert(list@.well_formed());
                assert(list.ids@.len() == list.ids.len());
                lemma_connected_search(list.graph->0@, gd, width, found);
                hnsw::search_gives_closest_first(list.graph->0@, gd, width, width, found);
                assert(ids_of(lists)[l as int]@ == list.ids@);
                assert forall|q: int| 0 <= q < found.len() implies gives_id(
                    result,
                    list.ids@[(#[trigger] found[q]).0 as int],
                ) by {
                    let hit = (found[q].1, list.ids@[found[q].0 as int]);
                    assert(first.contains(hit));
                    lemma_contains_append(first, more, hit);
                    let i = choose|i: int| 0 <= i < all.len() && all[i] == hit;
                    assert(is_settled(result, k, all[i].0, all[i].1));
                }
                if list.ids@.len() <= width {
                    assert(graph_law::gives(found, at.1));
                    let q = choose|q: int| 0 <= q < found.len() && (#[trigger] found[q]).0 == at.1;
                    assert(gives_id(result, list.ids@[found[q].0 as int]));
                } else {
                    let wanted = Seq::new(found.len(), |q: int| list.ids@[found[q].0 as int]);
                    assert(wanted.no_duplicates()) by {
                        assert forall|i: int, j: int|
                            0 <= i < wanted.len() && 0 <= j < wanted.len() && i
                                != j implies wanted[i] != wanted[j] by {
                            if i < j {
                                assert(found[i].0 != found[j].0);
                            } else {
                                assert(found[j].0 != found[i].0);
                            }
                            assert(found[i].0 < list.ids@.len() && found[j].0 < list.ids@.len());
                        }
                    }
                    assert forall|i: int| 0 <= i < wanted.len() implies gives_id(
                        result,
                        #[trigger] wanted[i],
                    ) by {
                        assert(gives_id(result, list.ids@[found[i].0 as int]));
                    }
                    lemma_enough_ids(result, wanted);
                }
            }
        }
    }
}

/// Where no more rows pass the filter than the search is wide, the graphs are passed over and the
/// search is exact: it gives the `k` closest ids that pass.
pub proof fn few_rows_are_searched_exactly<T: RowIdFilter>(
    lists: Seq<HnswSearchList>,
    picks: Seq<usize>,
    k: usize,
    ef_search: usize,
    f: &T,
    graph_dist: spec_fn(usize, usize) -> u32,
    scan_dist: spec_fn(usize, usize) -> u32,
    stop_when_full: bool,
    result: Seq<Hit>,
)
    requires
        picks.no_duplicates(),
        forall|i: int| 0 <= i < picks.len() ==> #[trigger] picks[i] < lists.len(),
        scan_law::rows_have_no_nan(ids_of(lists), picks, Some(f), scan_dist),
        forall|places: Seq<(usize, usize)>| #[trigger]
            places.no_duplicates() && (forall|i: int|
                0 <= i < places.len() ==> scan_law::is_row(
                    ids_of(lists),
                    picks,
                    Some(f),
                    #[trigger] places[i],
                )) ==> places.len() <= k || places.len() <= ef_search,
        hnsw_search::search_outcome(
            lists,
            picks,
            k,
            ef_search,
            Some(f),
            graph_dist,
            scan_dist,
            stop_when_full,
            result,
        ),
    ensures
        exists|places: Seq<(usize, usize)>| #[trigger]
            scan_law::are_closest_ids(ids_of(lists), picks, Some(f), scan_dist, k, places)
                && scan_law::are_rows_at(ids_of(lists), scan_dist, places, result),
{
    let ids = ids_of(lists);
    assert(ids =~= ivf_search::list_ids(lists));
    let counted = hnsw_search::picked_ids(lists, picks);
    let rows = scan_law::matching_rows_are_counted(ids, picks, f, counted);
    assert forall|i: int| 0 <= i < rows.len() implies scan_law::is_row(
        ids,
        picks,
        Some(f),
        #[trigger] rows[i],
    ) by {
        assert(rows.contains(rows[i]));
    }
    assert(hnsw_search::few_match(
        lists,
        picks,
        Some(f),
        hnsw_search::width_of(k, ef_search),
    ));
    ivf_search::few_matches_are_found_exactly(
        lists,
        picks,
        k,
        ef_search,
        Some(f),
        graph_dist,
        scan_dist,
        stop_when_full,
        result,
    );
    scan_law::scans_give_the_closest_ids(ids, picks, k, Some(f), scan_dist);
}

/// A batch of queries over lists with graphs: what query `q` finds is what a search for it alone
/// finds in the lists that it probes, each of them looked at once, and stands in its own block.
pub proof fn graph_batches_search_each_query_alone<T: RowIdFilter>(
    probes: Seq<Seq<usize>>,
    loaded: Seq<usize>,
    lists: Seq<HnswSearchList>,
    k: usize,
    ef_search: usize,
    filter: Option<&T>,
    graph_dist: spec_fn(usize, usize, usize) -> u32,
    scan_dist: spec_fn(usize, usize, usize) -> u32,
    stop_when_full: bool,
    hits: Seq<Seq<Hit>>,
    q: usize,
)
    requires
        loaded.len() == lists.len(),
        loaded.len() <= usize::MAX,
        q < probes.len(),
        ivf_search::queries_searched(
            ivf_search::batch_picks(probes, loaded),
            lists,
            k,
            ef_search,
            filter,
            graph_dist,
            scan_dist,
            stop_when_full,
            hits,
        ),
    ensures
        exists|picks: Seq<usize>|
            {
                &&& #[trigger] picks.no_duplicates()
                &&& scan_law::names_probed(picks, probes[q as int], loaded)
                &&& forall|i: int| 0 <= i < picks.len() ==> #[trigger] picks[i] < lists.len()
                &&& hnsw_search::search_outcome(
                    lists,
                    picks,
                    k,
                    ef_search,
                    filter,
                    scan_law::distances_for(graph_dist, q),
                    scan_law::distances_for(scan_dist, q),
                    stop_when_full,
                    hits[q as int],
                )
            },
        hits.len() == probes.len(),
        ivf_search::all_ids(hits, k).subrange(q * k, q * k + k) == ivf_search::padded_ids(
            hits[q as int],
            k,
        ),
        ivf_search::all_dists(hits, k).subrange(q * k, q * k + k) == ivf_search::padded_dists(
            hits[q as int],
            k,
        ),
{
    let picks = ivf_search::picks_of(probes[q as int], loaded);
    scan_law::queries_look_at_the_lists_they_probe(probes[q as int], loaded);
    ivf_search::block_of_query(hits, k, q as int);
    assert(ivf_search::query_searched(
        ivf_search::batch_picks(probes, loaded),
        lists,
        k,
        ef_search,
        filter,
        graph_dist,
        scan_dist,
        stop_when_full,
        hits,
        q as int,
    ));
    assert(ivf_search::of_query(graph_dist, q) =~= scan_law::distances_for(graph_dist, q));
    assert(ivf_search::of_query(scan_dist, q) =~= scan_law::distances_for(scan_dist, q));
    assert(picks.no_duplicates());
}

/// Many queries over lists with graphs: what query `q` finds is what a search for it alone finds in
/// the lists at its own places, with its own distances, and stands in its own block.
pub proof fn graph_queries_are_searched_alone<T: RowIdFilter>(
    picks: Seq<Seq<usize>>,
    lists: Seq<HnswSearchList>,
    k: usize,
    ef_search: usize,
    filter: Option<&T>,
    graph_dist: spec_fn(usize, usize, usize) -> u32,
    scan_dist: spec_fn(usize, usize, usize) -> u32,
    stop_when_full: bool,
    hits: Seq<Seq<Hit>>,
    q: usize,
)
    requires
        q < picks.len(),
        ivf_search::queries_searched(
            picks,
            lists,
            k,
            ef_search,
            filter,
            graph_dist,
            scan_dist,
            stop_when_full,
            hits,
        ),
    ensures
        hits.len() == picks.len(),
        hnsw_search::search_outcome(
            lists,
            picks[q as int],
            k,
            ef_search,
            filter,
            scan_law::distances_for(graph_dist, q),
            scan_law::distances_for(scan_dist, q),
            stop_when_full,
            hits[q as int],
        ),
        ivf_search::all_ids(hits, k).len() == picks.len() * k,
        ivf_search::all_ids(hits, k).subrange(q * k, q * k + k) == ivf_search::padded_ids(
            hits[q as int],
            k,
        ),
        ivf_search::all_dists(hits, k).subrange(q * k, q * k + k) == ivf_search::padded_dists(
            hits[q as int],
            k,
        ),
{
    ivf_search::block_of_query(hits, k, q as int);
    assert(ivf_search::query_searched(
        picks,
        lists,
        k,
        ef_search,
        filter,
        graph_dist,
        scan_dist,
        stop_when_full,
        hits,
        q as int,
    ));
    assert(ivf_search::of_query(graph_dist, q) =~= scan_law::distances_for(graph_dist, q));
    assert(ivf_search::of_query(scan_dist, q) =~= scan_law::distances_for(scan_dist, q));
}

/// Results fill a block of `k`: each id and each distance at its place, and behind them -1 and the
/// largest value.
pub proof fn results_are_padded(hits: Seq<Hit>, k: usize, j: int)
    requires
        0 <= j < k,
    ensures
        ivf_search::padded_ids(hits, k).len() == k,
        ivf_search::padded_dists(hits, k).len() == k,
        j < hits.len() ==> ivf_search::padded_ids(hits, k)[j] == hits[j].1
            && ivf_search::padded_dists(hits, k)[j] == hits[j].0,
        j >= hits.len() ==> ivf_search::padded_ids(hits, k)[j] == -1 && ivf_search::padded_dists(
            hits,
            k,
        )[j] == 0x7f7f_ffff,
{
}

/// The lists that a search of an index of vectors looks at are its lists, each with its graph.
pub proof fn searched_vectors_are_those_of_the_index(index: IVFHNSWFlatIndex, l: int)
    requires
        index@.well_formed(),
        0 <= l < index@.flat.nlist,
    ensures
        index.listed().len() == index@.flat.nlist,
        index.listed()[l].ids@ == index@.flat.ids[l],
        index.listed()[l]@.graph == index@.graphs[l],
{
}

/// The lists that a search of an index of codes looks at are its lists, each with its graph.
pub proof fn searched_codes_are_those_of_the_index(index: IVFHNSWSQIndex, l: int)
    requires
        index@.well_formed(),
        0 <= l < index@.nlist,
    ensures
        index.listed().len() == index@.nlist,
        index.listed()[l].ids@ == index@.ids[l],
        index.listed()[l]@.graph == index@.graphs[l],
{
}

/// The lists that a search of lists that were read looks at are these lists, each with its graph.
pub proof fn searched_lists_are_those_that_were_read(
    flat: Seq<GraphList>,
    coded: Seq<SqGraphList>,
    l: int,
)
    ensures
        ivfhnswflat_io::listed(flat).len() == flat.len(),
        0 <= l < flat.len() ==> ivfhnswflat_io::listed(flat)[l]@.ids == flat[l].ids@
            && ivfhnswflat_io::listed(flat)[l]@.graph == Some(flat[l].graph@),
        ivfhnswsq_read::listed(coded).len() == coded.len(),
        0 <= l < coded.len() ==> ivfhnswsq_read::listed(coded)[l]@.ids == coded[l].ids@
            && ivfhnswsq_read::listed(coded)[l]@.graph == Some(coded[l].graph@),
{
}

} // verus!
