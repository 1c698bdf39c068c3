//! Searches over several lists at once: through the graph of each list, or row by row.
use vstd::prelude::*;

use crate::hnsw;
use crate::hnsw::{GraphModel, HnswGraph};
use crate::hnsw_layer;
use crate::row_id_filter;
use crate::row_id_filter::RowIdFilter;
use crate::topk;
use crate::topk::{Hit, TopKHeap};

verus! {

/// A list that can be searched: the ids of its rows, and the graph over them if there is one.
pub struct HnswSearchList<'a> {
    pub ids: &'a Vec<i64>,
    pub graph: Option<&'a HnswGraph>,
}

/// What a list that can be searched holds.
pub struct ListModel {
    pub ids: Seq<i64>,
    pub graph: Option<GraphModel>,
}

impl<'a> View for HnswSearchList<'a> {
    type V = ListModel;

    open spec fn view(&self) -> ListModel {
        ListModel {
            ids: self.ids@,
            graph: match self.graph {
                Some(g) => Some(g@),
                None => None,
            },
        }
    }
}

impl ListModel {
    /// The graph has a node for each row.
    pub open spec fn well_formed(self) -> bool {
        self.graph matches Some(g) ==> g.well_formed() && g.levels.len() == self.ids.len()
    }
}

pub open spec fn all_well_formed(lists: Seq<HnswSearchList>) -> bool {
    forall|i: int| 0 <= i < lists.len() ==> (#[trigger] lists[i])@.well_formed()
}

/// How many of the ids pass the filter.
pub open spec fn matching<T: RowIdFilter>(ids: Seq<i64>, filter: &T) -> nat
    decreases ids.len(),
{
    if ids.len() == 0 {
        0
    } else {
        matching(ids.drop_last(), filter) + (if filter.admits(ids.last()) {
            1nat
        } else {
            0nat
        })
    }
}

/// How many ids of all the lists pass the filter.
pub open spec fn all_matching<T: RowIdFilter>(lists: Seq<&[i64]>, filter: &T) -> nat
    decreases lists.len(),
{
    if lists.len() == 0 {
        0
    } else {
        all_matching(lists.drop_last(), filter) + matching(lists.last()@, filter)
    }
}

proof fn lemma_matching_prefix<T: RowIdFilter>(ids: Seq<i64>, filter: &T, k: int)
    requires
        0 <= k <= ids.len(),
    ensures
        matching(ids.take(k), filter) <= matching(ids, filter),
    decreases ids.len() - k,
{
    if k == ids.len() {
        assert(ids.take(k) =~= ids);
    } else {
        lemma_matching_prefix(ids, filter, k + 1);
        assert(ids.take(k + 1).drop_last() =~= ids.take(k));
    }
}

proof fn lemma_all_matching_prefix<T: RowIdFilter>(lists: Seq<&[i64]>, filter: &T, k: int)
    requires
        0 <= k <= lists.len(),
    ensures
        all_matching(lists.take(k), filter) <= all_matching(lists, filter),
    decreases lists.len() - k,
{
    if k == lists.len() {
        assert(lists.take(k) =~= lists);
    } else {
        lemma_all_matching_prefix(lists, filter, k + 1);
        assert(lists.take(k + 1).drop_last() =~= lists.take(k));
    }
}

/// Tells whether at most `limit` ids pass the filter. It stops asking the filter as soon as there
/// is one too many.
pub fn has_at_most_matching_ids<T: RowIdFilter>(
    list_ids: &[&[i64]],
    filter: &T,
    limit: usize,
) -> (r: bool)
    ensures
        r == (all_matching(list_ids@, filter) <= limit),
{
    let mut remaining: usize = limit;
    assert(list_ids@.take(0) =~= Seq::<&[i64]>::empty());
    for i in 0..list_ids.len()
        invariant
            remaining <= limit,
            limit - remaining == all_matching(list_ids@.take(i as int), filter),
    {
        let ids: &[i64] = list_ids[i];
        let ghost before = limit - remaining;
        assert(ids@.take(0) =~= Seq::<i64>::empty());
        assert(list_ids@.take(i + 1).drop_last() =~= list_ids@.take(i as int));
        for j in 0..ids.len()
            invariant
                i < list_ids@.len(),
                ids@ == list_ids@[i as int]@,
                remaining <= limit,
                before == all_matching(list_ids@.take(i as int), filter),
                list_ids@.take(i + 1).drop_last() == list_ids@.take(i as int),
                limit - remaining == before + matching(ids@.take(j as int), filter),
        {
            assert(ids@.take(j + 1).drop_last() =~= ids@.take(j as int));
            if filter.contains(ids[j]) {
                if remaining == 0 {
                    proof {
                        lemma_matching_prefix(ids@, filter, j + 1);
                        lemma_all_matching_prefix(list_ids@, filter, i + 1);
                    }
                    return false;
                }
                remaining = remaining - 1;
            }
        }
        assert(ids@.take(ids@.len() as int) =~= ids@);
    }
    assert(list_ids@.take(list_ids@.len() as int) =~= list_ids@);
    true
}

/// The rows that pass the filter, each with its distance, in their order.
pub open spec fn admitted_rows<T: RowIdFilter>(
    ids: Seq<i64>,
    filter: Option<&T>,
    dist: spec_fn(usize) -> u32,
) -> Seq<Hit>
    decreases ids.len(),
{
    if ids.len() == 0 {
        Seq::empty()
    } else {
        let front = admitted_rows(ids.drop_last(), filter, dist);
        if row_id_filter::passes(filter, ids.last()) {
            front.push((dist((ids.len() - 1) as usize), ids.last()))
        } else {
            front
        }
    }
}

/// Of the rows that a graph search has found, those that pass the filter.
pub open spec fn admitted_found<T: RowIdFilter>(
    ids: Seq<i64>,
    filter: Option<&T>,
    found: Seq<(usize, u32)>,
) -> Seq<Hit>
    decreases found.len(),
{
    if found.len() == 0 {
        Seq::empty()
    } else {
        let front = admitted_found(ids, filter, found.drop_last());
        let id = ids[found.last().0 as int];
        if row_id_filter::passes(filter, id) {
            front.push((found.last().1, id))
        } else {
            front
        }
    }
}

pub proof fn lemma_unique_of_push(data: Seq<Hit>, k: usize, hits: Seq<Hit>, hit: Hit)
    ensures
        topk::unique_of(data, k, hits.push(hit)) == topk::unique_after(
            topk::unique_of(data, k, hits),
            k,
            hit,
        ),
{
    assert(hits.push(hit).drop_last() =~= hits);
}

/// Offers every row that passes the filter.
pub(crate) fn scan_list<T: RowIdFilter, F: Fn(usize) -> u32>(
    ids: &Vec<i64>,
    filter: Option<&T>,
    distance: &F,
    heap: &mut TopKHeap,
    Ghost(dist): Ghost<spec_fn(usize) -> u32>,
)
    requires
        hnsw_layer::agrees(*distance, dist, ids@.len()),
        old(heap).well_formed(),
    ensures
        final(heap).well_formed(),
        final(heap).k == old(heap).k,
        final(heap)@ == topk::unique_of(
            old(heap)@,
            old(heap).k,
            admitted_rows(ids@, filter, dist),
        ),
{
    let ghost start = heap@;
    let ghost k = heap.k;
    assert(ids@.take(0) =~= Seq::<i64>::empty());
    for i in 0..ids.len()
        invariant
            hnsw_layer::agrees(*distance, dist, ids@.len()),
            heap.well_formed(),
            heap.k == k,
            k == old(heap).k,
            start == old(heap)@,
            heap@ == topk::unique_of(start, k, admitted_rows(ids@.take(i as int), filter, dist)),
    {
        let id: i64 = ids[i];
        assert(ids@.take(i + 1).drop_last() =~= ids@.take(i as int));
        if row_id_filter::row_passes(filter, id) {
            let here: u32 = distance(i);
            proof {
                lemma_unique_of_push(
                    start,
                    k,
                    admitted_rows(ids@.take(i as int), filter, dist),
                    (here, id),
                );
            }
            heap.push(here, id);
        }
    }
    assert(ids@.take(ids@.len() as int) =~= ids@);
}

/// Offers the rows that a graph search has found and that pass the filter.
fn offer_found<T: RowIdFilter>(
    ids: &Vec<i64>,
    filter: Option<&T>,
    found: &Vec<(usize, u32)>,
    heap: &mut TopKHeap,
)
    requires
        forall|i: int| 0 <= i < found@.len() ==> (#[trigger] found@[i]).0 < ids@.len(),
        old(heap).well_formed(),
    ensures
        final(heap).well_formed(),
        final(heap).k == old(heap).k,
        final(heap)@ == topk::unique_of(
            old(heap)@,
            old(heap).k,
            admitted_found(ids@, filter, found@),
        ),
{
    let ghost start = heap@;
    let ghost k = heap.k;
    assert(found@.take(0) =~= Seq::<(usize, u32)>::empty());
    for i in 0..found.len()
        invariant
            forall|i: int| 0 <= i < found@.len() ==> (#[trigger] found@[i]).0 < ids@.len(),
            heap.well_formed(),
            heap.k == k,
            k == old(heap).k,
            start == old(heap)@,
            heap@ == topk::unique_of(start, k, admitted_found(ids@, filter, found@.take(i as int))),
    {
        let (local, dist) = found[i];
        let id: i64 = ids[local];
        assert(found@.take(i + 1).drop_last() =~= found@.take(i as int));
        if row_id_filter::row_passes(filter, id) {
            proof {
                lemma_unique_of_push(
                    start,
                    k,
                    admitted_found(ids@, filter, found@.take(i as int)),
                    (dist, id),
                );
            }
            heap.push(dist, id);
        }
    }
    assert(found@.take(found@.len() as int) =~= found@);
}

/// Distances by list and row.
pub open spec fn of_list(dist: spec_fn(usize, usize) -> u32, list: usize) -> spec_fn(usize) -> u32 {
    |row: usize| dist(list, row)
}

/// The function gives the distances `dist` of every row of every list.
pub open spec fn rows_agree<F: Fn(usize, usize) -> u32>(
    f: F,
    dist: spec_fn(usize, usize) -> u32,
    lists: Seq<HnswSearchList>,
) -> bool {
    &&& forall|l: usize, row: usize|
        l < lists.len() && row < lists[l as int].ids@.len() ==> #[trigger] call_requires(
            f,
            (l, row),
        )
    &&& forall|l: usize, row: usize, r: u32|
        l < lists.len() && row < lists[l as int].ids@.len() && #[trigger] call_ensures(
            f,
            (l, row),
            r,
        ) ==> r == dist(l, row)
}

/// What one list does to the kept rows: its rows are offered one by one, or those that its graph
/// leads to.
pub open spec fn list_searched<T: RowIdFilter>(
    list: ListModel,
    k: usize,
    width: usize,
    force: bool,
    filter: Option<&T>,
    graph_dist: spec_fn(usize) -> u32,
    scan_dist: spec_fn(usize) -> u32,
    before: Seq<Hit>,
    after: Seq<Hit>,
) -> bool {
    match list.graph {
        Some(g) => if force {
            after == topk::unique_of(before, k, admitted_rows(list.ids, filter, scan_dist))
        } else {
            exists|found: Seq<(usize, u32)>|
                #[trigger] hnsw::search_found(g, graph_dist, width, width, found) && after
                    == topk::unique_of(before, k, admitted_found(list.ids, filter, found))
        },
        None => after == topk::unique_of(before, k, admitted_rows(list.ids, filter, scan_dist)),
    }
}

/// The lists at `picks` are searched one after the other; `states` are the kept rows before the
/// first and after each.
pub open spec fn lists_searched<T: RowIdFilter>(
    lists: Seq<HnswSearchList>,
    picks: Seq<usize>,
    k: usize,
    width: usize,
    force: bool,
    filter: Option<&T>,
    graph_dist: spec_fn(usize, usize) -> u32,
    scan_dist: spec_fn(usize, usize) -> u32,
    states: Seq<Seq<Hit>>,
) -> bool {
    &&& states.len() == picks.len() + 1
    &&& states[0] == Seq::<Hit>::empty()
    &&& forall|i: int|
        0 <= i < picks.len() ==> #[trigger] pick_searched(
            lists,
            picks,
            k,
            width,
            force,
            filter,
            graph_dist,
            scan_dist,
            states,
            i,
        )
}

pub open spec fn pick_searched<T: RowIdFilter>(
    lists: Seq<HnswSearchList>,
    picks: Seq<usize>,
    k: usize,
    width: usize,
    force: bool,
    filter: Option<&T>,
    graph_dist: spec_fn(usize, usize) -> u32,
    scan_dist: spec_fn(usize, usize) -> u32,
    states: Seq<Seq<Hit>>,
    i: int,
) -> bool {
    list_searched(
        lists[picks[i] as int]@,
        k,
        width,
        force,
        filter,
        of_list(graph_dist, picks[i]),
        of_list(scan_dist, picks[i]),
        states[i],
        states[i + 1],
    )
}

/// The kept rows after the first `n` of the lists at `picks` have been scanned once more; with
/// `stop_when_full` a list is left out as soon as there is no room.
pub open spec fn backfilled<T: RowIdFilter>(
    lists: Seq<HnswSearchList>,
    picks: Seq<usize>,
    n: nat,
    k: usize,
    filter: Option<&T>,
    scan_dist: spec_fn(usize, usize) -> u32,
    stop_when_full: bool,
    start: Seq<Hit>,
) -> Seq<Hit>
    decreases n,
{
    if n == 0 {
        start
    } else {
        let before = backfilled(
            lists,
            picks,
            (n - 1) as nat,
            k,
            filter,
            scan_dist,
            stop_when_full,
            start,
        );
        if stop_when_full && before.len() >= k {
            before
        } else {
            topk::unique_of(
                before,
                k,
                admitted_rows(
                    lists[picks[n - 1] as int]@.ids,
                    filter,
                    of_list(scan_dist, picks[n - 1]),
                ),
            )
        }
    }
}

/// The ids of the lists at `picks`.
pub open spec fn picked_ids(lists: Seq<HnswSearchList>, picks: Seq<usize>) -> Seq<Seq<i64>> {
    Seq::new(picks.len(), |i: int| lists[picks[i] as int].ids@)
}

/// How many ids of all the lists pass the filter.
pub open spec fn count_matching<T: RowIdFilter>(lists: Seq<Seq<i64>>, filter: &T) -> nat
    decreases lists.len(),
{
    if lists.len() == 0 {
        0
    } else {
        count_matching(lists.drop_last(), filter) + matching(lists.last(), filter)
    }
}

/// Few rows pass the filter, so that it is best to look at each of them.
pub open spec fn few_match<T: RowIdFilter>(
    lists: Seq<HnswSearchList>,
    picks: Seq<usize>,
    filter: Option<&T>,
    width: usize,
) -> bool {
    match filter {
        Some(f) => count_matching(picked_ids(lists, picks), f) <= width,
        None => false,
    }
}

pub open spec fn width_of(k: usize, ef_search: usize) -> usize {
    if ef_search < k {
        k
    } else {
        ef_search
    }
}

/// The rows that a search over the lists at `picks` gives: where few rows pass the filter every
/// row is looked at, else the graphs are searched; and where a filter leaves fewer than `k` of
/// what the graphs lead to, the lists are scanned after all.
pub open spec fn search_outcome<T: RowIdFilter>(
    lists: Seq<HnswSearchList>,
    picks: Seq<usize>,
    k: usize,
    ef_search: usize,
    filter: Option<&T>,
    graph_dist: spec_fn(usize, usize) -> u32,
    scan_dist: spec_fn(usize, usize) -> u32,
    stop_when_full: bool,
    result: Seq<Hit>,
) -> bool {
    let width = width_of(k, ef_search);
    let force = few_match(lists, picks, filter, width);
    exists|states: Seq<Seq<Hit>>|
        #[trigger] lists_searched(
            lists,
            picks,
            k,
            width,
            force,
            filter,
            graph_dist,
            scan_dist,
            states,
        ) && ({
            let kept = states.last();
            let end = if filter is Some && kept.len() < k && !force {
                backfilled(
                    lists,
                    picks,
                    picks.len(),
                    k,
                    filter,
                    scan_dist,
                    stop_when_full,
                    kept,
                )
            } else {
                kept
            };
            result == topk::sorted_hits(end, topk::by_total())
        })
}

proof fn lemma_counts_agree<T: RowIdFilter>(
    slices: Seq<&[i64]>,
    lists: Seq<Seq<i64>>,
    filter: &T,
)
    requires
        slices.len() == lists.len(),
        forall|i: int| 0 <= i < lists.len() ==> (#[trigger] slices[i])@ == lists[i],
    ensures
        all_matching(slices, filter) == count_matching(lists, filter),
    decreases lists.len(),
{
    if lists.len() > 0 {
        let a = slices.drop_last();
        let b = lists.drop_last();
        assert forall|i: int| 0 <= i < b.len() implies (#[trigger] a[i])@ == b[i] by {
            assert(slices[i]@ == lists[i]);
        }
        lemma_counts_agree(a, b, filter);
        assert(slices[lists.len() - 1]@ == lists[lists.len() - 1]);
    }
}

/// Searches the lists at `picks` for the `k` closest rows.
#[verifier::rlimit(60)]
pub(crate) fn search_picked_lists<
    T: RowIdFilter,
    F: Fn(usize, usize) -> u32,
    S: Fn(usize, usize) -> u32,
>(
    lists: &Vec<HnswSearchList>,
    picks: &Vec<usize>,
    k: usize,
    ef_search: usize,
    filter: Option<&T>,
    graph_distance: &F,
    scan_distance: &S,
    stop_when_full: bool,
    Ghost(graph_dist): Ghost<spec_fn(usize, usize) -> u32>,
    Ghost(scan_dist): Ghost<spec_fn(usize, usize) -> u32>,
) -> (r: Vec<Hit>)
    requires
        all_well_formed(lists@),
        forall|i: int| 0 <= i < picks@.len() ==> #[trigger] picks@[i] < lists@.len(),
        rows_agree(*graph_distance, graph_dist, lists@),
        rows_agree(*scan_distance, scan_dist, lists@),
    ensures
        search_outcome(
            lists@,
            picks@,
            k,
            ef_search,
            filter,
            graph_dist,
            scan_dist,
            stop_when_full,
            r@,
        ),
{
    let mut heap: TopKHeap = TopKHeap::new(k);
    let width: usize = if ef_search < k {
        k
    } else {
        ef_search
    };
    let force: bool = match filter {
        Some(f) => {
            let mut slices: Vec<&[i64]> = Vec::new();
            for i in 0..picks.len()
                invariant
                    forall|i: int| 0 <= i < picks@.len() ==> #[trigger] picks@[i] < lists@.len(),
                    slices@.len() == i,
                    forall|j: int|
                        0 <= j < i ==> (#[trigger] slices@[j])@ == lists@[picks@[j] as int].ids@,
            {
                slices.push(lists[picks[i]].ids.as_slice());
            }
            proof {
                lemma_counts_agree(slices@, picked_ids(lists@, picks@), f);
            }
            has_at_most_matching_ids(slices.as_slice(), f, width)
        },
        None => false,
    };
    assert(width == width_of(k, ef_search));
    assert(force == few_match(lists@, picks@, filter, width_of(k, ef_search)));
    let ghost mut states: Seq<Seq<Hit>> = seq![heap@];
    for i in 0..picks.len()
        invariant
            all_well_formed(lists@),
            forall|i: int| 0 <= i < picks@.len() ==> #[trigger] picks@[i] < lists@.len(),
            rows_agree(*graph_distance, graph_dist, lists@),
            rows_agree(*scan_distance, scan_dist, lists@),
            heap.well_formed(),
            heap.k == k,
            states.len() == i + 1,
            states[0] == Seq::<Hit>::empty(),
            states[i as int] == heap@,
            forall|j: int|
                0 <= j < i ==> #[trigger] pick_searched(
                    lists@,
                    picks@,
                    k,
                    width,
                    force,
                    filter,
                    graph_dist,
                    scan_dist,
                    states,
                    j,
                ),
    {
        let at: usize = picks[i];
        let ghost before = heap@;
        let list: &HnswSearchList = &lists[at];
        let n: usize = list.ids.len();
        let ghost gd = of_list(graph_dist, at);
        let ghost sd = of_list(scan_dist, at);
        let scan = |row: usize| -> (r: u32)
            requires
                row < n,
            ensures
                r == scan_dist(at, row),
            { scan_distance(at, row) };
        match list.graph {
            Some(graph) if !force => {
                let via_graph = |row: usize| -> (r: u32)
                    requires
                        row < n,
                    ensures
                        r == graph_dist(at, row),
                    { graph_distance(at, row) };
                assert(list@.well_formed());
                let found: Vec<(usize, u32)> = graph.search_agreeing(
                    width,
                    width,
                    &via_graph,
                    Ghost(gd),
                );
                proof {
                    hnsw::found_rows_are_nodes(graph@, gd, width, width, found@);
                }
                offer_found(list.ids, filter, &found, &mut heap);
                assert(hnsw::search_found(graph@, gd, width, width, found@));
            },
            _ => {
                scan_list(list.ids, filter, &scan, &mut heap, Ghost(sd));
            },
        }
        proof {
            let longer = states.push(heap@);
            assert(list_searched(list@, k, width, force, filter, gd, sd, before, heap@));
            assert forall|j: int| 0 <= j < i + 1 implies #[trigger] pick_searched(
                lists@,
                picks@,
                k,
                width,
                force,
                filter,
                graph_dist,
                scan_dist,
                longer,
                j,
            ) by {
                if j < i {
                    assert(pick_searched(
                        lists@,
                        picks@,
                        k,
                        width,
                        force,
                        filter,
                        graph_dist,
                        scan_dist,
                        states,
                        j,
                    ));
                }
            }
            states = longer;
        }
    }
    let ghost kept = heap@;
    assert(lists_searched(
        lists@,
        picks@,
        k,
        width_of(k, ef_search),
        few_match(lists@, picks@, filter, width_of(k, ef_search)),
        filter,
        graph_dist,
        scan_dist,
        states,
    ));
    assert(states.last() == kept);
    if filter.is_some() && heap.len() < k && !force {
        for i in 0..picks.len()
            invariant
                forall|i: int| 0 <= i < picks@.len() ==> #[trigger] picks@[i] < lists@.len(),
                rows_agree(*scan_distance, scan_dist, lists@),
                heap.well_formed(),
                heap.k == k,
                heap@ == backfilled(
                    lists@,
                    picks@,
                    i as nat,
                    k,
                    filter,
                    scan_dist,
                    stop_when_full,
                    kept,
                ),
        {
            let at: usize = picks[i];
            if !stop_when_full || heap.len() < k {
                let n: usize = lists[at].ids.len();
                let scan = |row: usize| -> (r: u32)
                    requires
                        row < n,
                    ensures
                        r == scan_dist(at, row),
                    { scan_distance(at, row) };
                scan_list(
                    lists[at].ids,
                    filter,
                    &scan,
                    &mut heap,
                    Ghost(of_list(scan_dist, at)),
                );
            }
        }
    }
    let ghost end = heap@;
    let r: Vec<Hit> = heap.into_sorted();
    proof {
        let again = filter is Some && kept.len() < k && !force;
        assert(end == if again {
            backfilled(
                lists@,
                picks@,
                picks@.len(),
                k,
                filter,
                scan_dist,
                stop_when_full,
                states.last(),
            )
        } else {
            states.last()
        });
    }
    r
}

} // verus!
