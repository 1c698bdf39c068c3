//! Walks over one level of a graph: greedy descent, best-first search, and the choice of
//! neighbours.
use vstd::prelude::*;

use crate::float_bits;

verus! {

/// A node with its distance.
#[derive(Debug, Clone, Copy, PartialEq, Eq, Structural)]
pub struct ScoredNode {
    pub id: usize,
    pub dist: u32,
}

/// The distances that a function gives.
pub open spec fn distances<F: Fn(usize) -> u32>(f: F) -> spec_fn(usize) -> u32 {
    |a: usize| choose|r: u32| call_ensures(f, (a,), r)
}

/// The function gives the distances `dist` of `n` nodes.
pub open spec fn agrees<F: Fn(usize) -> u32>(f: F, dist: spec_fn(usize) -> u32, n: nat) -> bool {
    &&& forall|a: usize| a < n ==> #[trigger] call_requires(f, (a,))
    &&& forall|a: usize, r: u32| a < n && #[trigger] call_ensures(f, (a,), r) ==> r == dist(a)
}

/// The function gives one distance for each of `n` nodes, always the same.
pub open spec fn gives_distances<F: Fn(usize) -> u32>(f: F, n: nat) -> bool {
    agrees(f, distances(f), n)
}

/// The distances between two nodes that a function gives.
pub open spec fn pair_distances<F: Fn(usize, usize) -> u32>(f: F) -> spec_fn(usize, usize) -> u32 {
    |a: usize, b: usize| choose|r: u32| call_ensures(f, (a, b), r)
}

/// The function gives the distances `pair` between `n` nodes.
pub open spec fn pair_agrees<F: Fn(usize, usize) -> u32>(
    f: F,
    pair: spec_fn(usize, usize) -> u32,
    n: nat,
) -> bool {
    &&& forall|a: usize, b: usize| a < n && b < n ==> #[trigger] call_requires(f, (a, b))
    &&& forall|a: usize, b: usize, r: u32|
        a < n && b < n && #[trigger] call_ensures(f, (a, b), r) ==> r == pair(a, b)
}

/// The function gives one distance for each pair of `n` nodes, always the same.
pub open spec fn gives_pair_distances<F: Fn(usize, usize) -> u32>(f: F, n: nat) -> bool {
    pair_agrees(f, pair_distances(f), n)
}

/// The neighbours of a node on a level; none where the node does not reach the level.
pub open spec fn neighbors_of(adj: Seq<Seq<Seq<usize>>>, node: int, level: int) -> Seq<usize> {
    if 0 <= node < adj.len() && 0 <= level < adj[node].len() {
        adj[node][level]
    } else {
        Seq::empty()
    }
}

/// Every neighbour is a node.
pub open spec fn in_range(adj: Seq<Seq<Seq<usize>>>) -> bool {
    forall|i: int, l: int, j: int|
        0 <= i < adj.len() && 0 <= l < adj[i].len() && 0 <= j < adj[i][l].len()
            ==> #[trigger] adj[i][l][j] < adj.len()
}

/// How neighbour lists are stored.
pub open spec fn adjacency_of(v: Seq<Vec<Vec<usize>>>) -> Seq<Seq<Seq<usize>>> {
    Seq::new(v.len(), |i: int| Seq::new(v[i]@.len(), |l: int| v[i]@[l]@))
}

/// Goes through `list` and keeps the first of the closest nodes, if one is closer than `cur`.
pub open spec fn closest(list: Seq<usize>, dist: spec_fn(usize) -> u32, cur: ScoredNode) -> ScoredNode
    decreases list.len(),
{
    if list.len() == 0 {
        cur
    } else {
        let best = closest(list.drop_last(), dist, cur);
        let x = list.last();
        if float_bits::lt(dist(x), best.dist) {
            ScoredNode { id: x, dist: dist(x) }
        } else {
            best
        }
    }
}

pub proof fn lemma_closest(list: Seq<usize>, dist: spec_fn(usize) -> u32, cur: ScoredNode)
    ensures
        ({
            let best = closest(list, dist, cur);
            &&& best == cur || (float_bits::lt(best.dist, cur.dist) && best.dist == dist(best.id)
                && list.contains(best.id))
            &&& forall|j: int|
                0 <= j < list.len() ==> !float_bits::lt(#[trigger] dist(list[j]), best.dist)
        }),
    decreases list.len(),
{
    if list.len() > 0 {
        let front = list.drop_last();
        lemma_closest(front, dist, cur);
        let best = closest(list, dist, cur);
        assert forall|j: int| 0 <= j < list.len() implies !float_bits::lt(
            #[trigger] dist(list[j]),
            best.dist,
        ) by {
            if j < front.len() {
                assert(front[j] == list[j]);
                assert(!float_bits::lt(dist(front[j]), closest(front, dist, cur).dist));
            }
        }
        if best != closest(front, dist, cur) {
            assert(list[list.len() - 1] == best.id);
        } else if best != cur {
            let j = choose|j: int| 0 <= j < front.len() && front[j] == best.id;
            assert(list[j] == best.id);
        }
    }
}

/// Where the greedy descent on `level` ends that starts at `cur`: as long as a neighbour is closer
/// it moves on to the closest one.
pub open spec fn descend(
    adj: Seq<Seq<Seq<usize>>>,
    dist: spec_fn(usize) -> u32,
    cur: ScoredNode,
    level: int,
) -> ScoredNode
    decreases float_bits::value_key(cur.dist) + 0x8000_0000,
{
    let best = closest(neighbors_of(adj, cur.id as int, level), dist, cur);
    if best.id == cur.id {
        cur
    } else {
        proof {
            lemma_closest(neighbors_of(adj, cur.id as int, level), dist, cur);
        }
        descend(adj, dist, best, level)
    }
}

/// The descent ends at a node none of whose neighbours is closer, and never farther off than it
/// started. Unless it stays where it is, it ends at a neighbour of some node on this level.
pub proof fn descent_ends_at_local_minimum(
    adj: Seq<Seq<Seq<usize>>>,
    dist: spec_fn(usize) -> u32,
    cur: ScoredNode,
    level: int,
)
    requires
        cur.dist == dist(cur.id),
    ensures
        ({
            let end = descend(adj, dist, cur, level);
            &&& end.dist == dist(end.id)
            &&& end == cur || float_bits::lt(end.dist, cur.dist)
            &&& forall|j: int|
                0 <= j < neighbors_of(adj, end.id as int, level).len() ==> !float_bits::lt(
                    #[trigger] dist(neighbors_of(adj, end.id as int, level)[j]),
                    end.dist,
                )
            &&& end == cur || exists|u: int|
                #[trigger] neighbors_of(adj, u, level).contains(end.id)
        }),
    decreases float_bits::value_key(cur.dist) + 0x8000_0000,
{
    let list = neighbors_of(adj, cur.id as int, level);
    let best = closest(list, dist, cur);
    lemma_closest(list, dist, cur);
    if best.id != cur.id {
        descent_ends_at_local_minimum(adj, dist, best, level);
        assert(neighbors_of(adj, cur.id as int, level).contains(best.id));
    }
}

/// A walk from `from` to `to` along the edges of `level`.
pub open spec fn is_path(
    adj: Seq<Seq<Seq<usize>>>,
    level: int,
    path: Seq<usize>,
    from: usize,
    to: usize,
) -> bool {
    &&& path.len() > 0
    &&& path[0] == from
    &&& path.last() == to
    &&& forall|i: int|
        0 <= i < path.len() - 1 ==> #[trigger] neighbors_of(adj, path[i] as int, level).contains(
            path[i + 1],
        )
}

pub open spec fn reachable(
    adj: Seq<Seq<Seq<usize>>>,
    level: int,
    from: usize,
    to: usize,
) -> bool {
    exists|path: Seq<usize>| is_path(adj, level, path, from, to)
}

proof fn lemma_reach_self(adj: Seq<Seq<Seq<usize>>>, level: int, from: usize)
    ensures
        reachable(adj, level, from, from),
{
    assert(is_path(adj, level, seq![from], from, from));
}

proof fn lemma_reach_step(
    adj: Seq<Seq<Seq<usize>>>,
    level: int,
    from: usize,
    mid: usize,
    to: usize,
)
    requires
        reachable(adj, level, from, mid),
        neighbors_of(adj, mid as int, level).contains(to),
    ensures
        reachable(adj, level, from, to),
{
    let path = choose|path: Seq<usize>| is_path(adj, level, path, from, mid);
    let longer = path.push(to);
    assert forall|i: int| 0 <= i < longer.len() - 1 implies #[trigger] neighbors_of(
        adj,
        longer[i] as int,
        level,
    ).contains(longer[i + 1]) by {
        if i < path.len() - 1 {
            assert(longer[i] == path[i] && longer[i + 1] == path[i + 1]);
            assert(neighbors_of(adj, path[i] as int, level).contains(path[i + 1]));
        } else {
            assert(longer[i] == mid);
        }
    }
    assert(is_path(adj, level, longer, from, to));
}

pub open spec fn has_id(list: Seq<ScoredNode>, id: usize) -> bool {
    exists|i: int| 0 <= i < list.len() && #[trigger] list[i].id == id
}

pub open spec fn distinct_ids(list: Seq<ScoredNode>) -> bool {
    forall|i: int, j: int|
        0 <= i < j < list.len() ==> #[trigger] list[i].id != #[trigger] list[j].id
}

pub open spec fn ascending(list: Seq<ScoredNode>) -> bool {
    forall|i: int, j: int|
        0 <= i <= j < list.len() ==> float_bits::total_key(#[trigger] list[i].dist)
            <= float_bits::total_key(#[trigger] list[j].dist)
}

pub open spec fn descending(list: Seq<ScoredNode>) -> bool {
    forall|i: int, j: int|
        0 <= i <= j < list.len() ==> float_bits::total_key(#[trigger] list[i].dist)
            >= float_bits::total_key(#[trigger] list[j].dist)
}

pub open spec fn scored_right(list: Seq<ScoredNode>, dist: spec_fn(usize) -> u32) -> bool {
    forall|i: int| 0 <= i < list.len() ==> (#[trigger] list[i]).dist == dist(list[i].id)
}

/// None of the first `n` nodes has a NaN for its distance.
pub open spec fn nan_free(dist: spec_fn(usize) -> u32, n: nat) -> bool {
    forall|v: usize| v < n ==> !float_bits::is_nan(#[trigger] dist(v))
}

/// Node `v` is among the results, or they are complete and it is not closer than the last of them.
pub open spec fn accounted(
    results: Seq<ScoredNode>,
    dist: spec_fn(usize) -> u32,
    n: nat,
    ef: nat,
    v: usize,
) -> bool {
    has_id(results, v) || (results.len() == ef && (nan_free(dist, n) ==> !float_bits::lt(
        dist(v),
        results.last().dist,
    )))
}

/// What a best-first search for `ef` nodes finds on a level from `entry` on: at most `ef` different
/// nodes, closest first, each of them reachable; and nothing closer was left out next to them: the
/// entry and every neighbour of a found node is found too, or is not closer than all that is found.
pub open spec fn layer_found(
    adj: Seq<Seq<Seq<usize>>>,
    dist: spec_fn(usize) -> u32,
    entry: usize,
    ef: nat,
    level: int,
    results: Seq<ScoredNode>,
) -> bool {
    &&& 1 <= results.len() <= ef
    &&& ascending(results)
    &&& distinct_ids(results)
    &&& scored_right(results, dist)
    &&& forall|i: int|
        0 <= i < results.len() ==> (#[trigger] results[i]).id < adj.len() && reachable(
            adj,
            level,
            entry,
            results[i].id,
        )
    &&& accounted(results, dist, adj.len(), ef, entry)
    &&& forall|i: int, j: int|
        0 <= i < results.len() && 0 <= j < neighbors_of(adj, results[i].id as int, level).len()
            ==> accounted(
            results,
            dist,
            adj.len(),
            ef,
            #[trigger] neighbors_of(adj, results[i].id as int, level)[j],
        )
}

proof fn lemma_closed_set_holds_paths(
    adj: Seq<Seq<Seq<usize>>>,
    level: int,
    results: Seq<ScoredNode>,
    path: Seq<usize>,
    from: usize,
    to: usize,
)
    requires
        has_id(results, from),
        forall|i: int, j: int|
            0 <= i < results.len() && 0 <= j < neighbors_of(adj, results[i].id as int, level).len()
                ==> has_id(results, #[trigger] neighbors_of(adj, results[i].id as int, level)[j]),
        is_path(adj, level, path, from, to),
    ensures
        has_id(results, to),
    decreases path.len(),
{
    if path.len() > 1 {
        let shorter = path.drop_last();
        let mid = shorter.last();
        assert forall|i: int| 0 <= i < shorter.len() - 1 implies #[trigger] neighbors_of(
            adj,
            shorter[i] as int,
            level,
        ).contains(shorter[i + 1]) by {
            assert(neighbors_of(adj, path[i] as int, level).contains(path[i + 1]));
        }
        lemma_closed_set_holds_paths(adj, level, results, shorter, from, mid);
        let k = path.len() - 2;
        assert(neighbors_of(adj, path[k] as int, level).contains(path[k + 1]));
        let list = neighbors_of(adj, mid as int, level);
        let j = choose|j: int| 0 <= j < list.len() && list[j] == to;
        let i = choose|i: int| 0 <= i < results.len() && #[trigger] results[i].id == mid;
        assert(has_id(results, neighbors_of(adj, results[i].id as int, level)[j]));
    }
}

/// A search that finds fewer nodes than it was asked for has found every node that can be reached.
pub proof fn short_search_is_complete(
    adj: Seq<Seq<Seq<usize>>>,
    dist: spec_fn(usize) -> u32,
    entry: usize,
    ef: nat,
    level: int,
    results: Seq<ScoredNode>,
    v: usize,
)
    requires
        layer_found(adj, dist, entry, ef, level, results),
        results.len() < ef,
        reachable(adj, level, entry, v),
    ensures
        has_id(results, v),
{
    let path = choose|path: Seq<usize>| is_path(adj, level, path, entry, v);
    assert forall|i: int, j: int|
        0 <= i < results.len() && 0 <= j < neighbors_of(adj, results[i].id as int, level).len() implies has_id(
        results,
        #[trigger] neighbors_of(adj, results[i].id as int, level)[j],
    ) by {
        assert(accounted(
            results,
            dist,
            adj.len(),
            ef,
            neighbors_of(adj, results[i].id as int, level)[j],
        ));
    }
    lemma_closed_set_holds_paths(adj, level, results, path, entry, v);
}

proof fn lemma_has_id_insert(list: Seq<ScoredNode>, pos: int, x: ScoredNode, id: usize)
    requires
        0 <= pos <= list.len(),
    ensures
        has_id(list.insert(pos, x), id) <==> (has_id(list, id) || id == x.id),
{
    let longer = list.insert(pos, x);
    if has_id(list, id) {
        let i = choose|i: int| 0 <= i < list.len() && #[trigger] list[i].id == id;
        if i < pos {
            assert(longer[i].id == id);
        } else {
            assert(longer[i + 1].id == id);
        }
    }
    if id == x.id {
        assert(longer[pos].id == id);
    }
    if has_id(longer, id) {
        let i = choose|i: int| 0 <= i < longer.len() && #[trigger] longer[i].id == id;
        if i < pos {
            assert(list[i].id == id);
        } else if i > pos {
            assert(list[i - 1].id == id);
        }
    }
}

proof fn lemma_has_id_pop(list: Seq<ScoredNode>, id: usize)
    requires
        list.len() > 0,
    ensures
        has_id(list, id) ==> has_id(list.drop_last(), id) || id == list.last().id,
        has_id(list.drop_last(), id) ==> has_id(list, id),
{
    if has_id(list, id) {
        let i = choose|i: int| 0 <= i < list.len() && #[trigger] list[i].id == id;
        if i < list.len() - 1 {
            assert(list.drop_last()[i].id == id);
        }
    }
    if has_id(list.drop_last(), id) {
        let i = choose|i: int|
            0 <= i < list.drop_last().len() && #[trigger] list.drop_last()[i].id == id;
        assert(list[i].id == id);
    }
}

/// Inserts into a list with the closest node first, behind the nodes that are as close.
fn insert_ascending(list: &mut Vec<ScoredNode>, x: ScoredNode) -> (pos: usize)
    requires
        ascending(old(list)@),
    ensures
        pos <= old(list)@.len(),
        final(list)@ == old(list)@.insert(pos as int, x),
        ascending(final(list)@),
{
    let mut lo: usize = 0;
    let mut hi: usize = list.len();
    while lo < hi
        invariant
            lo <= hi <= list@.len(),
            ascending(list@),
            list@ == old(list)@,
            forall|i: int|
                0 <= i < lo ==> float_bits::total_key(#[trigger] list@[i].dist)
                    <= float_bits::total_key(x.dist),
            forall|i: int|
                hi <= i < list@.len() ==> float_bits::total_key(x.dist) < float_bits::total_key(
                    #[trigger] list@[i].dist,
                ),
        decreases hi - lo,
    {
        let mid: usize = lo + (hi - lo) / 2;
        if float_bits::total_less_than(x.dist, list[mid].dist) {
            hi = mid;
        } else {
            lo = mid + 1;
        }
    }
    list.insert(lo, x);
    lo
}

/// Inserts into a list with the closest node last.
fn insert_descending(list: &mut Vec<ScoredNode>, x: ScoredNode) -> (pos: usize)
    requires
        descending(old(list)@),
    ensures
        pos <= old(list)@.len(),
        final(list)@ == old(list)@.insert(pos as int, x),
        descending(final(list)@),
{
    let mut lo: usize = 0;
    let mut hi: usize = list.len();
    while lo < hi
        invariant
            lo <= hi <= list@.len(),
            descending(list@),
            list@ == old(list)@,
            forall|i: int|
                0 <= i < lo ==> float_bits::total_key(#[trigger] list@[i].dist)
                    >= float_bits::total_key(x.dist),
            forall|i: int|
                hi <= i < list@.len() ==> float_bits::total_key(x.dist) > float_bits::total_key(
                    #[trigger] list@[i].dist,
                ),
        decreases hi - lo,
    {
        let mid: usize = lo + (hi - lo) / 2;
        if float_bits::total_less_than(list[mid].dist, x.dist) {
            hi = mid;
        } else {
            lo = mid + 1;
        }
    }
    list.insert(lo, x);
    lo
}

/// The stored neighbours of a node on a level.
pub fn neighbors_at<'a>(neighbors: &'a Vec<Vec<Vec<usize>>>, node: usize, level: usize) -> (r: Option<
    &'a Vec<usize>,
>)
    ensures
        match r {
            Some(list) => list@ == neighbors_of(adjacency_of(neighbors@), node as int, level as int),
            None => neighbors_of(adjacency_of(neighbors@), node as int, level as int).len() == 0,
        },
{
    if node < neighbors.len() && level < neighbors[node].len() {
        Some(&neighbors[node][level])
    } else {
        None
    }
}

/// Follows the closest neighbours on `level` until none is closer.
pub(crate) fn greedy_search<F: Fn(usize) -> u32>(
    neighbors: &Vec<Vec<Vec<usize>>>,
    start: ScoredNode,
    level: usize,
    distance: &F,
    Ghost(dist): Ghost<spec_fn(usize) -> u32>,
) -> (r: ScoredNode)
    requires
        in_range(adjacency_of(neighbors@)),
        agrees(*distance, dist, neighbors@.len()),
    ensures
        r == descend(
            adjacency_of(neighbors@),
            dist,
            start,
            level as int,
        ),
{
    let ghost adj = adjacency_of(neighbors@);
    let mut current: ScoredNode = start;
    loop
        invariant
            adj == adjacency_of(neighbors@),
            in_range(adj),
            agrees(*distance, dist, neighbors@.len()),
            descend(adj, dist, start, level as int) == descend(adj, dist, current, level as int),
        decreases float_bits::value_key(current.dist) + 0x8000_0000,
    {
        let ghost list = neighbors_of(adj, current.id as int, level as int);
        let mut best: ScoredNode = current;
        proof {
            lemma_closest(list, dist, current);
            assert(list.take(0) =~= Seq::<usize>::empty());
            assert(list.take(list.len() as int) =~= list);
        }
        if let Some(stored) = neighbors_at(neighbors, current.id, level) {
            for j in 0..stored.len()
                invariant
                    adj == adjacency_of(neighbors@),
                            in_range(adj),
                    agrees(*distance, dist, neighbors@.len()),
                    list == neighbors_of(adj, current.id as int, level as int),
                    stored@ == list,
                    best == closest(list.take(j as int), dist, current),
            {
                let neighbor: usize = stored[j];
                proof {
                    assert(list.take(j + 1).drop_last() =~= list.take(j as int));
                    assert(adj[current.id as int][level as int][j as int] == neighbor);
                }
                let dist_here: u32 = distance(neighbor);
                if float_bits::less_than(dist_here, best.dist) {
                    best = ScoredNode { id: neighbor, dist: dist_here };
                }
            }
        }
        if best.id == current.id {
            return current;
        }
        current = best;
    }
}

/// How many marks differ from `mark`.
spec fn unmarked(visited: Seq<usize>, mark: usize) -> nat
    decreases visited.len(),
{
    if visited.len() == 0 {
        0
    } else {
        unmarked(visited.drop_last(), mark) + (if visited.last() == mark {
            0nat
        } else {
            1nat
        })
    }
}

proof fn lemma_unmarked_update(visited: Seq<usize>, mark: usize, i: int)
    requires
        0 <= i < visited.len(),
        visited[i] != mark,
    ensures
        unmarked(visited, mark) == unmarked(visited.update(i, mark), mark) + 1,
    decreases visited.len(),
{
    let next = visited.update(i, mark);
    if i == visited.len() - 1 {
        assert(next.drop_last() =~= visited.drop_last());
    } else {
        lemma_unmarked_update(visited.drop_last(), mark, i);
        assert(next.drop_last() =~= visited.drop_last().update(i, mark));
    }
}

/// What holds all through a best-first search. `expanded` are the nodes whose neighbours have all
/// been looked at, `open` the node whose neighbours are being looked at.
spec fn search_state(
    adj: Seq<Seq<Seq<usize>>>,
    dist: spec_fn(usize) -> u32,
    entry: usize,
    ef: nat,
    level: int,
    visited: Seq<usize>,
    mark: usize,
    results: Seq<ScoredNode>,
    candidates: Seq<ScoredNode>,
    expanded: Set<usize>,
    open: Option<usize>,
) -> bool {
    &&& visited.len() == adj.len()
    &&& entry < adj.len()
    &&& visited[entry as int] == mark
    &&& 1 <= results.len() <= ef
    &&& ascending(results)
    &&& distinct_ids(results)
    &&& scored_right(results, dist)
    &&& descending(candidates)
    &&& scored_right(candidates, dist)
    &&& forall|i: int|
        0 <= i < results.len() ==> (#[trigger] results[i]).id < adj.len()
            && visited[results[i].id as int] == mark
    &&& forall|i: int|
        0 <= i < candidates.len() ==> (#[trigger] candidates[i]).id < adj.len()
            && visited[candidates[i].id as int] == mark
    &&& forall|v: usize|
        v < adj.len() && #[trigger] visited[v as int] == mark ==> reachable(adj, level, entry, v)
            && accounted(results, dist, adj.len(), ef, v)
    &&& forall|i: int|
        0 <= i < results.len() ==> expanded.contains((#[trigger] results[i]).id) || has_id(
            candidates,
            results[i].id,
        ) || open == Some(results[i].id)
    &&& forall|u: usize, j: int|
        expanded.contains(u) && 0 <= j < neighbors_of(adj, u as int, level).len()
            ==> visited[#[trigger] neighbors_of(adj, u as int, level)[j] as int] == mark
}

proof fn lemma_accept(
    adj: Seq<Seq<Seq<usize>>>,
    dist: spec_fn(usize) -> u32,
    entry: usize,
    ef: nat,
    level: int,
    visited: Seq<usize>,
    mark: usize,
    results: Seq<ScoredNode>,
    candidates: Seq<ScoredNode>,
    expanded: Set<usize>,
    open: usize,
    neighbor: usize,
    pos: int,
    cpos: int,
)
    requires
        in_range(adj),
        search_state(adj, dist, entry, ef, level, visited, mark, results, candidates, expanded, Some(open)),
        neighbor < adj.len(),
        visited[neighbor as int] != mark,
        reachable(adj, level, entry, neighbor),
        0 <= pos <= results.len(),
        0 <= cpos <= candidates.len(),
        ascending(results.insert(pos, ScoredNode { id: neighbor, dist: dist(neighbor) })),
        descending(candidates.insert(cpos, ScoredNode { id: neighbor, dist: dist(neighbor) })),
        results.len() < ef || float_bits::lt(dist(neighbor), results.last().dist),
    ensures
        ({
            let x = ScoredNode { id: neighbor, dist: dist(neighbor) };
            let longer = results.insert(pos, x);
            let kept = if longer.len() > ef {
                longer.drop_last()
            } else {
                longer
            };
            search_state(
                adj,
                dist,
                entry,
                ef,
                level,
                visited.update(neighbor as int, mark),
                mark,
                kept,
                candidates.insert(cpos, x),
                expanded,
                Some(open),
            )
        }),
{
    let x = ScoredNode { id: neighbor, dist: dist(neighbor) };
    let longer = results.insert(pos, x);
    let kept = if longer.len() > ef {
        longer.drop_last()
    } else {
        longer
    };
    let vis = visited.update(neighbor as int, mark);
    let cand = candidates.insert(cpos, x);
    assert(distinct_ids(longer)) by {
        assert forall|i: int, j: int| 0 <= i < j < longer.len() implies #[trigger] longer[i].id
            != #[trigger] longer[j].id by {
            let a = if i < pos {
                i
            } else {
                i - 1
            };
            let b = if j < pos {
                j
            } else {
                j - 1
            };
            if i == pos {
                assert(longer[j] == results[b]);
            } else if j == pos {
                assert(longer[i] == results[a]);
            } else {
                assert(longer[i] == results[a] && longer[j] == results[b]);
            }
        }
    }
    assert forall|i: int| 0 <= i < longer.len() implies (#[trigger] longer[i]).id < adj.len()
        && vis[longer[i].id as int] == mark && longer[i].dist == dist(longer[i].id) by {
        if i < pos {
            assert(longer[i] == results[i]);
        } else if i > pos {
            assert(longer[i] == results[i - 1]);
        }
    }
    assert forall|i: int| 0 <= i < cand.len() implies (#[trigger] cand[i]).id < adj.len()
        && vis[cand[i].id as int] == mark && cand[i].dist == dist(cand[i].id) by {
        if i < cpos {
            assert(cand[i] == candidates[i]);
        } else if i > cpos {
            assert(cand[i] == candidates[i - 1]);
        }
    }
    assert forall|v: usize| v < adj.len() && #[trigger] vis[v as int] == mark implies reachable(
        adj,
        level,
        entry,
        v,
    ) && accounted(kept, dist, adj.len(), ef, v) by {
        lemma_has_id_insert(results, pos, x, v);
        if longer.len() > ef {
            lemma_has_id_pop(longer, v);
            if nan_free(dist, adj.len()) {
                // The last of the kept nodes is not farther off than the last one before.
                let last = kept.last();
                assert(last == longer[longer.len() - 2]);
                assert(float_bits::total_key(last.dist) <= float_bits::total_key(longer.last().dist));
                if pos == results.len() {
                    assert(longer.last() == x);
                    assert(longer[longer.len() - 2] == results.last());
                    assert(float_bits::total_key(results.last().dist) <= float_bits::total_key(x.dist));
                    assert(!float_bits::lt(x.dist, results.last().dist));
                    assert(false);
                }
                assert(longer.last() == results.last());
                assert(!float_bits::is_nan(dist(last.id)));
                assert(last.dist == dist(last.id));
                assert(results.last().dist == dist(results.last().id));
                assert(!float_bits::is_nan(dist(results.last().id)));
                if v != neighbor {
                    assert(visited[v as int] == mark);
                    assert(!float_bits::is_nan(dist(v)));
                    if !has_id(kept, v) {
                        if has_id(results, v) {
                            assert(v == results.last().id);
                        }
                        assert(!float_bits::lt(dist(v), results.last().dist));
                        assert(!float_bits::lt(dist(v), last.dist));
                    }
                } else {
                    assert(kept[pos] == x);
                    assert(has_id(kept, v));
                }
            }
        } else if v != neighbor {
            assert(visited[v as int] == mark);
        }
    }
    assert forall|i: int| 0 <= i < kept.len() implies expanded.contains((#[trigger] kept[i]).id)
        || has_id(cand, kept[i].id) || open == kept[i].id by {
        assert(kept[i] == longer[i]);
        lemma_has_id_insert(candidates, cpos, x, kept[i].id);
        if i < pos {
            assert(longer[i] == results[i]);
        } else if i > pos {
            assert(longer[i] == results[i - 1]);
        }
    }
    assert forall|u: usize, j: int|
        expanded.contains(u) && 0 <= j < neighbors_of(adj, u as int, level).len() implies vis[
        #[trigger] neighbors_of(adj, u as int, level)[j] as int] == mark by {
        let w = neighbors_of(adj, u as int, level)[j];
        assert(adj[u as int][level][j] == w);
        assert(visited[w as int] == mark);
    }
    assert(ascending(kept));
    assert(distinct_ids(kept));
    assert(scored_right(kept, dist));
}

proof fn lemma_reject(
    adj: Seq<Seq<Seq<usize>>>,
    dist: spec_fn(usize) -> u32,
    entry: usize,
    ef: nat,
    level: int,
    visited: Seq<usize>,
    mark: usize,
    results: Seq<ScoredNode>,
    candidates: Seq<ScoredNode>,
    expanded: Set<usize>,
    open: usize,
    neighbor: usize,
)
    requires
        in_range(adj),
        search_state(adj, dist, entry, ef, level, visited, mark, results, candidates, expanded, Some(open)),
        neighbor < adj.len(),
        visited[neighbor as int] != mark,
        reachable(adj, level, entry, neighbor),
        results.len() >= ef,
        !float_bits::lt(dist(neighbor), results.last().dist),
    ensures
        search_state(
            adj,
            dist,
            entry,
            ef,
            level,
            visited.update(neighbor as int, mark),
            mark,
            results,
            candidates,
            expanded,
            Some(open),
        ),
{
    let vis = visited.update(neighbor as int, mark);
    assert forall|u: usize, j: int|
        expanded.contains(u) && 0 <= j < neighbors_of(adj, u as int, level).len() implies vis[
        #[trigger] neighbors_of(adj, u as int, level)[j] as int] == mark by {
        let w = neighbors_of(adj, u as int, level)[j];
        assert(adj[u as int][level][j] == w);
        assert(visited[w as int] == mark);
    }
    assert forall|v: usize| v < adj.len() && #[trigger] vis[v as int] == mark implies reachable(
        adj,
        level,
        entry,
        v,
    ) && accounted(results, dist, adj.len(), ef, v) by {
        if v != neighbor {
            assert(visited[v as int] == mark);
        }
    }
}

/// Once every found node has been expanded the search has found what it is to find.
proof fn lemma_all_expanded(
    adj: Seq<Seq<Seq<usize>>>,
    dist: spec_fn(usize) -> u32,
    entry: usize,
    ef: nat,
    level: int,
    visited: Seq<usize>,
    mark: usize,
    results: Seq<ScoredNode>,
    candidates: Seq<ScoredNode>,
    expanded: Set<usize>,
)
    requires
        in_range(adj),
        search_state(adj, dist, entry, ef, level, visited, mark, results, candidates, expanded, None),
        (results.len() < ef || nan_free(dist, adj.len())) ==> forall|i: int|
            0 <= i < results.len() ==> expanded.contains((#[trigger] results[i]).id),
    ensures
        layer_found(adj, dist, entry, ef, level, results),
{
    assert forall|i: int| 0 <= i < results.len() implies (#[trigger] results[i]).id < adj.len()
        && reachable(adj, level, entry, results[i].id) by {
        assert(visited[results[i].id as int] == mark);
    }
    assert forall|i: int, j: int|
        0 <= i < results.len() && 0 <= j < neighbors_of(
            adj,
            results[i].id as int,
            level,
        ).len() implies accounted(
        results,
        dist,
        adj.len(),
        ef,
        #[trigger] neighbors_of(adj, results[i].id as int, level)[j],
    ) by {
        let u = results[i].id;
        let v = neighbors_of(adj, u as int, level)[j];
        assert(adj[u as int][level][j] == v);
        if results.len() < ef || nan_free(dist, adj.len()) {
            assert(expanded.contains(u));
            assert(visited[v as int] == mark);
        }
    }
}

/// The best candidate is farther off than everything found, which is complete: no found node can be
/// waiting among the candidates.
proof fn lemma_search_stops(
    adj: Seq<Seq<Seq<usize>>>,
    dist: spec_fn(usize) -> u32,
    entry: usize,
    ef: nat,
    level: int,
    visited: Seq<usize>,
    mark: usize,
    results: Seq<ScoredNode>,
    candidates: Seq<ScoredNode>,
    expanded: Set<usize>,
)
    requires
        in_range(adj),
        search_state(adj, dist, entry, ef, level, visited, mark, results, candidates, expanded, None),
        candidates.len() > 0,
        results.len() >= ef,
        float_bits::lt(results.last().dist, candidates.last().dist),
    ensures
        layer_found(adj, dist, entry, ef, level, results),
{
    if nan_free(dist, adj.len()) {
        assert forall|i: int| 0 <= i < results.len() implies expanded.contains(
            (#[trigger] results[i]).id,
        ) by {
            if has_id(candidates, results[i].id) {
                let k = choose|k: int|
                    0 <= k < candidates.len() && #[trigger] candidates[k].id == results[i].id;
                assert(candidates[k].dist == dist(results[i].id));
                assert(results[i].dist == dist(results[i].id));
                assert(!float_bits::is_nan(dist(results[i].id)));
                assert(float_bits::total_key(candidates[k].dist) >= float_bits::total_key(
                    candidates[candidates.len() - 1].dist,
                ));
                assert(float_bits::total_key(results[i].dist) <= float_bits::total_key(
                    results[results.len() - 1].dist,
                ));
                assert(false);
            }
        }
    }
    lemma_all_expanded(adj, dist, entry, ef, level, visited, mark, results, candidates, expanded);
}

/// Looks at every neighbour of `current` on `level`.
#[verifier::rlimit(40)]
fn expand<F: Fn(usize) -> u32>(
    neighbors: &Vec<Vec<Vec<usize>>>,
    current: usize,
    entry: usize,
    ef: usize,
    level: usize,
    visited: &mut Vec<usize>,
    visit_mark: usize,
    results: &mut Vec<ScoredNode>,
    candidates: &mut Vec<ScoredNode>,
    distance: &F,
    Ghost(dist): Ghost<spec_fn(usize) -> u32>,
    Ghost(expanded): Ghost<Set<usize>>,
)
    requires
        in_range(adjacency_of(neighbors@)),
        agrees(*distance, dist, neighbors@.len()),
        current < neighbors@.len(),
        old(visited)@.len() == neighbors@.len(),
        old(visited)@[current as int] == visit_mark,
        search_state(
            adjacency_of(neighbors@),
            dist,
            entry,
            ef as nat,
            level as int,
            old(visited)@,
            visit_mark,
            old(results)@,
            old(candidates)@,
            expanded,
            Some(current),
        ),
    ensures
        search_state(
            adjacency_of(neighbors@),
            dist,
            entry,
            ef as nat,
            level as int,
            final(visited)@,
            visit_mark,
            final(results)@,
            final(candidates)@,
            expanded.insert(current),
            None,
        ),
        2 * unmarked(final(visited)@, visit_mark) + final(candidates)@.len() <= 2 * unmarked(
            old(visited)@,
            visit_mark,
        ) + old(candidates)@.len(),
        final(visited)@.len() == old(visited)@.len(),
        forall|i: int|
            0 <= i < old(visited)@.len() ==> #[trigger] final(visited)@[i] == old(visited)@[i]
                || final(visited)@[i] == visit_mark,
{
    let ghost adj = adjacency_of(neighbors@);
    let ghost list = neighbors_of(adj, current as int, level as int);
    if let Some(stored) = neighbors_at(neighbors, current, level) {
        let mut j: usize = 0;
        while j < stored.len()
            invariant
                j <= stored@.len(),
                adj == adjacency_of(neighbors@),
                    in_range(adj),
                agrees(*distance, dist, neighbors@.len()),
                list == neighbors_of(adj, current as int, level as int),
                stored@ == list,
                current < adj.len(),
                visited@[current as int] == visit_mark,
                old(visited)@.len() == visited@.len(),
                forall|i: int|
                    0 <= i < old(visited)@.len() ==> #[trigger] visited@[i] == old(visited)@[i]
                        || visited@[i] == visit_mark,
                search_state(
                    adj,
                    dist,
                    entry,
                    ef as nat,
                    level as int,
                    visited@,
                    visit_mark,
                    results@,
                    candidates@,
                    expanded,
                    Some(current),
                ),
                forall|i: int| 0 <= i < j ==> visited@[#[trigger] list[i] as int] == visit_mark,
                2 * unmarked(visited@, visit_mark) + candidates@.len() <= 2 * unmarked(
                    old(visited)@,
                    visit_mark,
                ) + old(candidates)@.len(),
            decreases stored@.len() - j,
        {
            let neighbor: usize = stored[j];
            assert(adj[current as int][level as int][j as int] == neighbor);
            if visited[neighbor] != visit_mark {
                let ghost before = visited@;
                proof {
                    assert(list[j as int] == neighbor);
                    assert(reachable(adj, level as int, entry, current));
                    assert(list.contains(neighbor));
                    lemma_reach_step(adj, level as int, entry, current, neighbor);
                    lemma_unmarked_update(before, visit_mark, neighbor as int);
                }
                visited.set(neighbor, visit_mark);
                let here: u32 = distance(neighbor);
                let worst: u32 = results[results.len() - 1].dist;
                if results.len() < ef || float_bits::less_than(here, worst) {
                    let x: ScoredNode = ScoredNode { id: neighbor, dist: here };
                    let ghost cand = candidates@;
                    let ghost res = results@;
                    let cpos: usize = insert_descending(candidates, x);
                    let pos: usize = insert_ascending(results, x);
                    if results.len() > ef {
                        results.pop();
                    }
                    proof {
                        lemma_accept(
                            adj,
                            dist,
                            entry,
                            ef as nat,
                            level as int,
                            before,
                            visit_mark,
                            res,
                            cand,
                            expanded,
                            current,
                            neighbor,
                            pos as int,
                            cpos as int,
                        );
                    }
                } else {
                    proof {
                        lemma_reject(
                            adj,
                            dist,
                            entry,
                            ef as nat,
                            level as int,
                            before,
                            visit_mark,
                            results@,
                            candidates@,
                            expanded,
                            current,
                            neighbor,
                        );
                    }
                }
            }
            j = j + 1;
        }
    }
    assert forall|u: usize, j: int|
        expanded.insert(current).contains(u) && 0 <= j < neighbors_of(
            adj,
            u as int,
            level as int,
        ).len() implies visited@[#[trigger] neighbors_of(adj, u as int, level as int)[j] as int]
        == visit_mark by {
        if u == current {
            assert(list[j] == neighbors_of(adj, u as int, level as int)[j]);
        } else {
            assert(expanded.contains(u));
        }
    }
}

/// Searches `level` from `entry` on for the `ef` closest nodes. `visited` must not hold
/// `visit_mark` yet; the nodes that are looked at get it.
#[verifier::rlimit(40)]
pub(crate) fn search_layer<F: Fn(usize) -> u32>(
    neighbors: &Vec<Vec<Vec<usize>>>,
    entry: usize,
    ef: usize,
    level: usize,
    visited: &mut Vec<usize>,
    visit_mark: usize,
    distance: &F,
    Ghost(dist): Ghost<spec_fn(usize) -> u32>,
) -> (r: Vec<ScoredNode>)
    requires
        in_range(adjacency_of(neighbors@)),
        agrees(*distance, dist, neighbors@.len()),
        entry < neighbors@.len(),
        ef >= 1,
        old(visited)@.len() == neighbors@.len(),
        forall|i: int| 0 <= i < old(visited)@.len() ==> #[trigger] old(visited)@[i] != visit_mark,
    ensures
        layer_found(
            adjacency_of(neighbors@),
            dist,
            entry,
            ef as nat,
            level as int,
            r@,
        ),
        final(visited)@.len() == old(visited)@.len(),
        forall|i: int|
            0 <= i < old(visited)@.len() ==> #[trigger] final(visited)@[i] == old(visited)@[i]
                || final(visited)@[i] == visit_mark,
{
    let ghost adj = adjacency_of(neighbors@);
    let ghost mut expanded: Set<usize> = Set::empty();
    let entry_dist: u32 = distance(entry);
    visited.set(entry, visit_mark);

    let first: ScoredNode = ScoredNode { id: entry, dist: entry_dist };
    let mut candidates: Vec<ScoredNode> = Vec::new();
    candidates.push(first);
    let mut results: Vec<ScoredNode> = Vec::new();
    results.push(first);
    proof {
        lemma_reach_self(adj, level as int, entry);
        assert(results@[0].id == entry);
        assert(candidates@[0].id == entry);
        assert(has_id(results@, entry));
        assert(has_id(candidates@, entry));
    }
    loop
        invariant_except_break
            search_state(
                adj,
                dist,
                entry,
                ef as nat,
                level as int,
                visited@,
                visit_mark,
                results@,
                candidates@,
                expanded,
                None,
            ),
        invariant
            adj == adjacency_of(neighbors@),
            in_range(adj),
            ef >= 1,
            agrees(*distance, dist, neighbors@.len()),
            old(visited)@.len() == visited@.len(),
            neighbors@.len() == visited@.len(),
            forall|i: int|
                0 <= i < old(visited)@.len() ==> #[trigger] visited@[i] == old(visited)@[i]
                    || visited@[i] == visit_mark,
        ensures
            layer_found(adj, dist, entry, ef as nat, level as int, results@),
        decreases 2 * unmarked(visited@, visit_mark) + candidates@.len(),
    {
        let ghost all = candidates@;
        let current: ScoredNode = match candidates.pop() {
            Some(node) => node,
            None => {
                proof {
                    lemma_all_expanded(
                        adj,
                        dist,
                        entry,
                        ef as nat,
                        level as int,
                        visited@,
                        visit_mark,
                        results@,
                        candidates@,
                        expanded,
                    );
                }
                break;
            },
        };
        assert(candidates@ =~= all.drop_last());
        assert(current == all[all.len() - 1]);
        let worst: u32 = results[results.len() - 1].dist;
        if float_bits::less_than(worst, current.dist) && results.len() >= ef {
            proof {
                lemma_search_stops(
                    adj,
                    dist,
                    entry,
                    ef as nat,
                    level as int,
                    visited@,
                    visit_mark,
                    results@,
                    all,
                    expanded,
                );
            }
            break;
        }
        proof {
            assert forall|i: int| 0 <= i < results@.len() implies expanded.contains(
                (#[trigger] results@[i]).id,
            ) || has_id(candidates@, results@[i].id) || current.id == results@[i].id by {
                lemma_has_id_pop(all, results@[i].id);
            }
        }
        expand(
            neighbors,
            current.id,
            entry,
            ef,
            level,
            visited,
            visit_mark,
            &mut results,
            &mut candidates,
            distance,
            Ghost(dist),
            Ghost(expanded),
        );
        proof {
            expanded = expanded.insert(current.id);
        }
    }
    results
}

} // verus!
