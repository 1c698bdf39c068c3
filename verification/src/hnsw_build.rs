//! The growth of a graph, one node at a time.
use vstd::prelude::*;

use crate::float_bits;
use crate::hnsw;
use crate::hnsw::{GraphModel, HnswBuildParams};
use crate::hnsw_layer;
use crate::hnsw_layer::ScoredNode;
use crate::hnsw_link;

verus! {

/// One step of the SplitMix64 generator.
pub open spec fn mixed(x: u64) -> u64 {
    let a = x.wrapping_add(0x9E37_79B9_7F4A_7C15);
    let b = (a ^ (a >> 30)).wrapping_mul(0xBF58_476D_1CE4_E5B9);
    let c = (b ^ (b >> 27)).wrapping_mul(0x94D0_49BB_1331_11EB);
    c ^ (c >> 31)
}

/// Goes up one level for each value in a row that stays under `threshold`.
pub open spec fn level_from(x: u64, level: usize, threshold: u64, max_level: usize) -> usize
    decreases max_level - level,
{
    if level + 1 < max_level && x < threshold {
        level_from(mixed(x), (level + 1) as usize, threshold, max_level)
    } else {
        level
    }
}

/// The level of a node: it depends on the number of the node alone, and is zero for the first one.
pub open spec fn level_of(node: usize, m: usize, max_level: usize) -> usize {
    if node == 0 || max_level <= 1 {
        0
    } else {
        let divisor = if m < 2 {
            2u64
        } else {
            m as u64
        };
        let quotient = u64::MAX / divisor;
        let threshold = if quotient < 1 {
            1u64
        } else {
            quotient
        };
        level_from(mixed((node as u64 + 0x9E37_79B9_7F4A_7C15) as u64), 0, threshold, max_level)
    }
}

proof fn lemma_level_from(x: u64, level: usize, threshold: u64, max_level: usize)
    requires
        level < max_level,
    ensures
        level <= level_from(x, level, threshold, max_level) < max_level,
    decreases max_level - level,
{
    if level + 1 < max_level && x < threshold {
        lemma_level_from(mixed(x), (level + 1) as usize, threshold, max_level);
    }
}

/// No node is on a level that the parameters do not allow.
pub proof fn level_is_below_maximum(node: usize, m: usize, max_level: usize)
    requires
        max_level >= 1,
    ensures
        level_of(node, m, max_level) < max_level,
{
    if node != 0 && max_level > 1 {
        let divisor = if m < 2 {
            2u64
        } else {
            m as u64
        };
        let quotient = u64::MAX / divisor;
        let threshold = if quotient < 1 {
            1u64
        } else {
            quotient
        };
        lemma_level_from(
            mixed((node as u64 + 0x9E37_79B9_7F4A_7C15) as u64),
            0,
            threshold,
            max_level,
        );
    }
}

/// One step of the SplitMix64 generator.
pub fn splitmix64(x: u64) -> (r: u64)
    ensures
        r == mixed(x),
{
    let a: u64 = x.wrapping_add(0x9E37_79B9_7F4A_7C15);
    let b: u64 = (a ^ (a >> 30)).wrapping_mul(0xBF58_476D_1CE4_E5B9);
    let c: u64 = (b ^ (b >> 27)).wrapping_mul(0x94D0_49BB_1331_11EB);
    c ^ (c >> 31)
}

/// The level of a node.
pub fn random_level(node: usize, m: usize, max_level: usize) -> (r: usize)
    requires
        node + 0x9E37_79B9_7F4A_7C15 <= u64::MAX,
    ensures
        r == level_of(node, m, max_level),
{
    if node == 0 || max_level <= 1 {
        return 0;
    }
    let divisor: u64 = if m < 2 {
        2
    } else {
        m as u64
    };
    let quotient: u64 = u64::MAX / divisor;
    let threshold: u64 = if quotient < 1 {
        1
    } else {
        quotient
    };
    let mut x: u64 = splitmix64(node as u64 + 0x9E37_79B9_7F4A_7C15);
    let mut level: usize = 0;
    let ghost start = x;
    while level + 1 < max_level && x < threshold
        invariant
            level < max_level,
            level_from(start, 0, threshold, max_level) == level_from(
                x,
                level,
                threshold,
                max_level,
            ),
        decreases max_level - level,
    {
        level = level + 1;
        x = splitmix64(x);
    }
    level
}

/// A mark that no node carries yet; when the marks are used up, all of them are taken away.
pub fn advance_visit_mark(visited: &mut Vec<usize>, visit_mark: usize) -> (r: usize)
    requires
        forall|i: int| 0 <= i < old(visited)@.len() ==> #[trigger] old(visited)@[i] <= visit_mark,
    ensures
        final(visited)@.len() == old(visited)@.len(),
        forall|i: int| 0 <= i < final(visited)@.len() ==> #[trigger] final(visited)@[i] < r,
        visit_mark < usize::MAX ==> r == visit_mark + 1 && final(visited)@ == old(visited)@,
        visit_mark == usize::MAX ==> r == 1 && forall|i: int|
            0 <= i < final(visited)@.len() ==> #[trigger] final(visited)@[i] == 0,
{
    if visit_mark < usize::MAX {
        return visit_mark + 1;
    }
    let n: usize = visited.len();
    for i in 0..n
        invariant
            visited@.len() == n,
            n == old(visited)@.len(),
            forall|k: int| 0 <= k < i ==> #[trigger] visited@[k] == 0,
    {
        visited.set(i, 0);
    }
    1
}

/// No list names a node twice, nor its own node, nor more nodes than the parameters allow.
pub open spec fn tidy(adj: Seq<Seq<Seq<usize>>>, params: HnswBuildParams) -> bool {
    forall|i: int, l: int|
        0 <= i < adj.len() && 0 <= l < adj[i].len() ==> tidy_list(#[trigger] adj[i][l], i, l, params)
}

pub open spec fn tidy_list(list: Seq<usize>, node: int, level: int, params: HnswBuildParams) -> bool {
    &&& list.no_duplicates()
    &&& list.len() <= params.degree_limit(level)
    &&& forall|j: int| 0 <= j < list.len() ==> #[trigger] list[j] != node
}

/// What holds of the lists at every step of the growth.
pub open spec fn growing(
    levels: Seq<usize>,
    adj: Seq<Seq<Seq<usize>>>,
    params: HnswBuildParams,
) -> bool {
    &&& hnsw::links_ok(levels, adj)
    &&& tidy(adj, params)
}

/// No list below `level` names `node`.
pub open spec fn unnamed_below(adj: Seq<Seq<Seq<usize>>>, node: usize, level: int) -> bool {
    forall|i: int, l: int, j: int|
        0 <= i < adj.len() && 0 <= l < adj[i].len() && l < level && 0 <= j < adj[i][l].len()
            ==> #[trigger] adj[i][l][j] != node
}

pub proof fn lemma_links_in_range(levels: Seq<usize>, adj: Seq<Seq<Seq<usize>>>)
    requires
        hnsw::links_ok(levels, adj),
    ensures
        hnsw_layer::in_range(adj),
{
    assert forall|i: int, l: int, j: int|
        0 <= i < adj.len() && 0 <= l < adj[i].len() && 0 <= j < adj[i][l].len() implies
        #[trigger] adj[i][l][j] < adj.len() by {
        assert(hnsw::node_ok(levels, adj[i], i));
        assert(hnsw::list_ok(levels, adj[i][l], l));
    }
}

/// What can be reached on a level from a node that reaches it, reaches it too; and a node that no
/// list of this level names is not met.
pub proof fn lemma_reached(
    levels: Seq<usize>,
    adj: Seq<Seq<Seq<usize>>>,
    level: int,
    from: usize,
    to: usize,
    node: usize,
)
    requires
        hnsw::links_ok(levels, adj),
        from < adj.len(),
        levels[from as int] >= level >= 0,
        hnsw_layer::reachable(adj, level, from, to),
        from != node,
        unnamed_below(adj, node, level + 1),
    ensures
        to < adj.len(),
        levels[to as int] >= level,
        to != node,
{
    let path = choose|path: Seq<usize>| hnsw_layer::is_path(adj, level, path, from, to);
    if path.len() > 1 {
        let k = path.len() - 2;
        let u = path[k] as int;
        assert(hnsw_layer::neighbors_of(adj, u, level).contains(path[k + 1]));
        let list = adj[u][level];
        let j = choose|j: int| 0 <= j < list.len() && list[j] == to;
        assert(hnsw::node_ok(levels, adj[u], u));
        assert(hnsw::list_ok(levels, adj[u][level], level));
        assert(adj[u][level][j] == to);
    }
}

/// To link two nodes keeps what holds during the growth, touches one level only, and leaves
/// neither of the two without a neighbour.
proof fn lemma_linked(
    levels: Seq<usize>,
    adj: Seq<Seq<Seq<usize>>>,
    params: HnswBuildParams,
    a: usize,
    b: usize,
    level: int,
    pair: spec_fn(usize, usize) -> u32,
)
    requires
        growing(levels, adj, params),
        a < adj.len(),
        b < adj.len(),
        a != b,
        0 <= level <= levels[a as int],
        level <= levels[b as int],
        params.m >= 1,
        params.m * 2 <= usize::MAX,
    ensures
        ({
            let next = hnsw_link::linked(adj, a, b, level, params.degree_limit(level), pair);
            &&& growing(levels, next, params)
            &&& next[a as int][level].len() > 0
            &&& next[b as int][level].len() > 0
            &&& forall|i: int, l: int|
                0 <= i < adj.len() && 0 <= l < adj[i].len() && adj[i][l].len() > 0
                    ==> (#[trigger] next[i][l]).len() > 0
            &&& forall|i: int, l: int|
                0 <= i < adj.len() && 0 <= l < adj[i].len() && l != level ==> #[trigger] next[i][l]
                    == adj[i][l]
        }),
{
    let max = params.degree_limit(level);
    let mine = adj[a as int][level];
    let wider = hnsw_link::with_member(mine, b);
    assert(hnsw::node_ok(levels, adj[a as int], a as int));
    assert(hnsw::node_ok(levels, adj[b as int], b as int));
    assert(hnsw::list_ok(levels, mine, level));
    assert(hnsw::list_ok(levels, adj[b as int][level], level));
    assert(tidy_list(mine, a as int, level, params));
    assert(tidy_list(adj[b as int][level], b as int, level, params));
    assert(wider.len() > 0) by {
        if mine.contains(b) {
            let q = choose|q: int| 0 <= q < mine.len() && mine[q] == b;
        }
    }
    assert(wider.no_duplicates());
    let one = hnsw_link::with_list(adj, a as int, level, wider);
    let theirs = adj[b as int][level];
    assert(one[b as int][level] == theirs);
    let from_b = hnsw_link::distances_from(pair, b);
    let from_a = hnsw_link::distances_from(pair, a);
    let back = theirs.push(a);
    let two = if !theirs.contains(a) {
        hnsw_link::with_list(one, b as int, level, hnsw_link::pruned(back, from_b, max))
    } else {
        one
    };
    let next = hnsw_link::with_list(two, a as int, level, hnsw_link::pruned(wider, from_a, max));
    assert(two[a as int][level] == wider);
    assert(next == hnsw_link::linked(adj, a, b, level, max, pair));
    assert(mine.len() <= max && theirs.len() <= max);
    assert(wider.len() <= usize::MAX && back.len() <= usize::MAX) by {
        lemma_room(levels, adj, a as int, b as int, level, params);
    }
    hnsw_link::lemma_pruned_members(wider, from_a, max);
    hnsw_link::lemma_pruned_members(back, from_b, max);
    let new_a = next[a as int][level];
    let new_b = next[b as int][level];
    assert(new_a == hnsw_link::pruned(wider, from_a, max));
    assert forall|j: int| 0 <= j < new_a.len() implies hnsw::edge_ok(levels, #[trigger] new_a[j], level)
        && new_a[j] != a by {
        assert(wider.contains(new_a[j]));
        let q = choose|q: int| 0 <= q < wider.len() && wider[q] == new_a[j];
        if q < mine.len() {
            assert(hnsw::edge_ok(levels, mine[q], level));
            assert(mine[q] != a);
        }
    }
    if theirs.contains(a) {
        assert(new_b == theirs);
        let q = choose|q: int| 0 <= q < theirs.len() && theirs[q] == a;
    } else {
        assert(new_b == hnsw_link::pruned(back, from_b, max));
        assert(back.no_duplicates());
        assert forall|j: int| 0 <= j < new_b.len() implies hnsw::edge_ok(
            levels,
            #[trigger] new_b[j],
            level,
        ) && new_b[j] != b by {
            assert(back.contains(new_b[j]));
            let q = choose|q: int| 0 <= q < back.len() && back[q] == new_b[j];
            if q < theirs.len() {
                assert(hnsw::edge_ok(levels, theirs[q], level));
                assert(theirs[q] != b);
            }
        }
    }
    assert(tidy_list(new_a, a as int, level, params));
    assert(tidy_list(new_b, b as int, level, params));
    assert forall|i: int| 0 <= i < levels.len() implies hnsw::node_ok(levels, #[trigger] next[i], i) by {
        assert(hnsw::node_ok(levels, adj[i], i));
        assert forall|l: int| 0 <= l < next[i].len() implies hnsw::list_ok(
            levels,
            #[trigger] next[i][l],
            l,
        ) by {
            assert(hnsw::list_ok(levels, adj[i][l], l));
        }
    }
    assert forall|i: int, l: int| 0 <= i < next.len() && 0 <= l < next[i].len() implies tidy_list(
        #[trigger] next[i][l],
        i,
        l,
        params,
    ) by {
        assert(tidy_list(adj[i][l], i, l, params));
    }
}

/// A list without repetitions over the nodes of a graph has room for one more.
proof fn lemma_room(
    levels: Seq<usize>,
    adj: Seq<Seq<Seq<usize>>>,
    a: int,
    b: int,
    level: int,
    params: HnswBuildParams,
)
    requires
        params.m * 2 <= usize::MAX,
        0 <= a < adj.len(),
        0 <= b < adj.len(),
        0 <= level < adj[a].len(),
        0 <= level < adj[b].len(),
        tidy(adj, params),
    ensures
        adj[a][level].len() < usize::MAX,
        adj[b][level].len() < usize::MAX,
{
    assert(tidy_list(adj[a][level], a, level, params));
    assert(tidy_list(adj[b][level], b, level, params));
    assert(usize::MAX % 2 == 1);
}

/// `node` linked to the first `k` of the chosen nodes.
pub open spec fn linked_all(
    adj: Seq<Seq<Seq<usize>>>,
    node: usize,
    chosen: Seq<ScoredNode>,
    k: nat,
    level: int,
    max: int,
    pair: spec_fn(usize, usize) -> u32,
) -> Seq<Seq<Seq<usize>>>
    decreases k,
{
    if k == 0 {
        adj
    } else {
        hnsw_link::linked(
            linked_all(adj, node, chosen, (k - 1) as nat, level, max, pair),
            node,
            chosen[k - 1].id,
            level,
            max,
            pair,
        )
    }
}

pub proof fn lemma_linked_all(
    levels: Seq<usize>,
    adj: Seq<Seq<Seq<usize>>>,
    params: HnswBuildParams,
    node: usize,
    chosen: Seq<ScoredNode>,
    k: nat,
    level: int,
    pair: spec_fn(usize, usize) -> u32,
)
    requires
        growing(levels, adj, params),
        node < adj.len(),
        0 <= level <= levels[node as int],
        params.m >= 1,
        params.m * 2 <= usize::MAX,
        k <= chosen.len(),
        forall|i: int|
            0 <= i < chosen.len() ==> (#[trigger] chosen[i]).id < adj.len()
                && levels[chosen[i].id as int] >= level && chosen[i].id != node,
    ensures
        ({
            let next = linked_all(adj, node, chosen, k, level, params.degree_limit(level), pair);
            &&& growing(levels, next, params)
            &&& k > 0 ==> next[node as int][level].len() > 0
            &&& forall|i: int| 0 <= i < k ==> next[(#[trigger] chosen[i]).id as int][level].len() > 0
            &&& forall|i: int, l: int|
                0 <= i < adj.len() && 0 <= l < adj[i].len() && adj[i][l].len() > 0
                    ==> (#[trigger] next[i][l]).len() > 0
            &&& forall|i: int, l: int|
                0 <= i < adj.len() && 0 <= l < adj[i].len() && l != level ==> #[trigger] next[i][l]
                    == adj[i][l]
        }),
    decreases k,
{
    if k > 0 {
        let before = linked_all(
            adj,
            node,
            chosen,
            (k - 1) as nat,
            level,
            params.degree_limit(level),
            pair,
        );
        lemma_linked_all(levels, adj, params, node, chosen, (k - 1) as nat, level, pair);
        lemma_linked(levels, before, params, node, chosen[k - 1].id, level, pair);
        let next = linked_all(adj, node, chosen, k, level, params.degree_limit(level), pair);
        assert forall|i: int, l: int|
            0 <= i < adj.len() && 0 <= l < adj[i].len() && l != level implies #[trigger] next[i][l]
            == adj[i][l] by {
            assert(hnsw::node_ok(levels, adj[i], i) && hnsw::node_ok(levels, before[i], i));
            assert(before[i][l] == adj[i][l]);
        }
        assert forall|i: int, l: int|
            0 <= i < adj.len() && 0 <= l < adj[i].len() && adj[i][l].len() > 0 implies (
        #[trigger] next[i][l]).len() > 0 by {
            assert(hnsw::node_ok(levels, adj[i], i) && hnsw::node_ok(levels, before[i], i));
            assert(before[i][l].len() > 0);
        }
        assert forall|i: int| 0 <= i < k implies next[(#[trigger] chosen[i]).id as int][level].len()
            > 0 by {
            if i < k - 1 {
                let v = chosen[i].id as int;
                assert(hnsw::node_ok(levels, before[v], v));
                assert(before[v][level].len() > 0);
            }
        }
    }
}

/// The first of the closest nodes of a list.
pub open spec fn nearest(list: Seq<usize>, dist: spec_fn(usize) -> u32) -> usize
    decreases list.len(),
{
    if list.len() <= 1 {
        list[0]
    } else {
        let best = nearest(list.drop_last(), dist);
        if float_bits::total_key(dist(list.last())) < float_bits::total_key(dist(best)) {
            list.last()
        } else {
            best
        }
    }
}

pub proof fn lemma_nearest(list: Seq<usize>, dist: spec_fn(usize) -> u32)
    requires
        list.len() > 0,
    ensures
        list.contains(nearest(list, dist)),
    decreases list.len(),
{
    if list.len() > 1 {
        lemma_nearest(list.drop_last(), dist);
        let best = nearest(list.drop_last(), dist);
        let q = choose|q: int| 0 <= q < list.drop_last().len() && list.drop_last()[q] == best;
        assert(list[q] == best);
        assert(list[list.len() - 1] == list.last());
    } else {
        assert(list[0] == nearest(list, dist));
    }
}

/// On one level `node` is linked to the neighbours selected from what a search from `ep` finds;
/// `ep_next` is the entry for the level below.
pub open spec fn layer_linked(
    adj: Seq<Seq<Seq<usize>>>,
    node: usize,
    ep: usize,
    level: int,
    params: HnswBuildParams,
    pair: spec_fn(usize, usize) -> u32,
    next: Seq<Seq<Seq<usize>>>,
    ep_next: usize,
) -> bool {
    exists|found: Seq<ScoredNode>|
        #[trigger] hnsw_layer::layer_found(
            adj,
            hnsw_link::distances_from(pair, node),
            ep,
            params.ef_construction as nat,
            level,
            found,
        ) && ({
            let max = params.degree_limit(level);
            let chosen = hnsw_link::selected(found, max, pair);
            next == linked_all(adj, node, chosen, chosen.len(), level, max, pair) && ep_next == (
            if next[node as int][level].len() == 0 {
                ep
            } else {
                nearest(next[node as int][level], hnsw_link::distances_from(pair, node))
            })
        })
}

/// `node` is linked on every level from `level` down.
pub open spec fn layers_linked(
    adj: Seq<Seq<Seq<usize>>>,
    node: usize,
    ep: usize,
    level: int,
    params: HnswBuildParams,
    pair: spec_fn(usize, usize) -> u32,
    end: Seq<Seq<Seq<usize>>>,
) -> bool
    decreases level + 1,
{
    if level < 0 {
        end == adj
    } else {
        exists|next: Seq<Seq<Seq<usize>>>, ep_next: usize|
            #[trigger] layer_linked(adj, node, ep, level, params, pair, next, ep_next)
                && layers_linked(next, node, ep_next, level - 1, params, pair, end)
    }
}

/// Where the greedy descent from `ep` arrives that goes through the levels from `level` down to
/// `bottom`.
pub open spec fn descended(
    adj: Seq<Seq<Seq<usize>>>,
    dist: spec_fn(usize) -> u32,
    ep: ScoredNode,
    level: int,
    bottom: int,
) -> ScoredNode
    decreases level - bottom + 1,
{
    if level < bottom {
        ep
    } else {
        descended(adj, dist, hnsw_layer::descend(adj, dist, ep, level), level - 1, bottom)
    }
}

/// Goes down through the levels from `top` to `bottom`.
pub(crate) fn descend_levels<F: Fn(usize) -> u32>(
    neighbors: &Vec<Vec<Vec<usize>>>,
    start: ScoredNode,
    top: usize,
    bottom: usize,
    distance: &F,
    Ghost(dist): Ghost<spec_fn(usize) -> u32>,
    Ghost(levels): Ghost<Seq<usize>>,
) -> (r: ScoredNode)
    requires
        hnsw::links_ok(levels, hnsw_layer::adjacency_of(neighbors@)),
        hnsw_layer::agrees(*distance, dist, neighbors@.len()),
        bottom >= 1,
        start.id < neighbors@.len(),
        start.dist == dist(start.id),
        levels[start.id as int] >= top,
    ensures
        r == descended(
            hnsw_layer::adjacency_of(neighbors@),
            dist,
            start,
            top as int,
            bottom as int,
        ),
        r.id < neighbors@.len(),
        r.dist == dist(r.id),
        levels[r.id as int] >= (if top < bottom {
            top as int
        } else {
            bottom as int
        }),
        r.id == start.id || exists|u: int, l: int|
            l >= bottom && #[trigger] hnsw_layer::neighbors_of(
                hnsw_layer::adjacency_of(neighbors@),
                u,
                l,
            ).contains(r.id),
{
    let ghost adj = hnsw_layer::adjacency_of(neighbors@);
    let mut level: usize = top;
    let mut ep: ScoredNode = start;
    proof {
        lemma_links_in_range(levels, adj);
    }
    while level >= bottom
        invariant
            adj == hnsw_layer::adjacency_of(neighbors@),
            hnsw::links_ok(levels, adj),
            hnsw_layer::in_range(adj),
            hnsw_layer::agrees(*distance, dist, neighbors@.len()),
            bottom >= 1,
            bottom <= top ==> level + 1 >= bottom,
            bottom > top ==> level == top,
            level <= top,
            ep.id < neighbors@.len(),
            ep.dist == dist(ep.id),
            levels[ep.id as int] >= level,
            bottom <= top && level < bottom ==> levels[ep.id as int] >= bottom,
            ep.id == start.id || exists|u: int, l: int|
                l >= bottom && #[trigger] hnsw_layer::neighbors_of(adj, u, l).contains(ep.id),
            descended(adj, dist, start, top as int, bottom as int) == descended(
                adj,
                dist,
                ep,
                level as int,
                bottom as int,
            ),
        decreases level,
    {
        let ghost before = ep;
        ep = hnsw_layer::greedy_search(neighbors, ep, level, distance, Ghost(dist));
        proof {
            hnsw_layer::descent_ends_at_local_minimum(adj, dist, before, level as int);
            if ep != before {
                let u = choose|u: int|
                    #[trigger] hnsw_layer::neighbors_of(adj, u, level as int).contains(ep.id);
                let list = hnsw_layer::neighbors_of(adj, u, level as int);
                let j = choose|j: int| 0 <= j < list.len() && list[j] == ep.id;
                assert(hnsw::node_ok(levels, adj[u], u));
                assert(hnsw::list_ok(levels, adj[u][level as int], level as int));
                assert(hnsw::edge_ok(levels, adj[u][level as int][j], level as int));
            }
        }
        level = level - 1;
    }
    ep
}

/// The first of the closest nodes of a list that is not empty.
fn nearest_of<F: Fn(usize) -> u32>(
    list: &Vec<usize>,
    n: usize,
    distance: &F,
    Ghost(dist): Ghost<spec_fn(usize) -> u32>,
) -> (r: usize)
    requires
        list@.len() > 0,
        forall|i: int| 0 <= i < list@.len() ==> #[trigger] list@[i] < n,
        hnsw_layer::agrees(*distance, dist, n as nat),
    ensures
        r == nearest(list@, dist),
{
    let mut best: usize = list[0];
    let mut best_dist: u32 = distance(best);
    let mut i: usize = 1;
    assert(list@.take(1)[0] == list@[0]);
    while i < list.len()
        invariant
            1 <= i <= list@.len(),
            forall|i: int| 0 <= i < list@.len() ==> #[trigger] list@[i] < n,
            hnsw_layer::agrees(*distance, dist, n as nat),
            best == nearest(list@.take(i as int), dist),
            best_dist == dist(best),
        decreases list@.len() - i,
    {
        let id: usize = list[i];
        let here: u32 = distance(id);
        assert(list@.take(i + 1).drop_last() =~= list@.take(i as int));
        if float_bits::total_less_than(here, best_dist) {
            best = id;
            best_dist = here;
        }
        i = i + 1;
    }
    assert(list@.take(list@.len() as int) =~= list@);
    best
}

/// Links `node` on every level from `top` down, entering the first of them at `entry`.
#[verifier::rlimit(60)]
pub(crate) fn link_layers<F: Fn(usize, usize) -> u32>(
    neighbors: &mut Vec<Vec<Vec<usize>>>,
    node: usize,
    entry: usize,
    top: usize,
    params: HnswBuildParams,
    visited: &mut Vec<usize>,
    visit_mark: usize,
    distance: &F,
    Ghost(pair): Ghost<spec_fn(usize, usize) -> u32>,
    Ghost(levels): Ghost<Seq<usize>>,
)
    requires
        old(visited)@.len() == old(neighbors)@.len(),
        forall|i: int| 0 <= i < old(visited)@.len() ==> #[trigger] old(visited)@[i] < visit_mark,
        growing(levels, hnsw_layer::adjacency_of(old(neighbors)@), params),
        node < old(neighbors)@.len(),
        entry < old(neighbors)@.len(),
        entry != node,
        top <= levels[node as int],
        top <= levels[entry as int],
        unnamed_below(hnsw_layer::adjacency_of(old(neighbors)@), node, top + 1),
        hnsw_layer::pair_agrees(*distance, pair, old(neighbors)@.len()),
        params.m >= 1,
        params.m * 2 <= usize::MAX,
        params.ef_construction >= 1,
        forall|i: int|
            0 <= i < old(neighbors)@.len() && i != node && old(neighbors)@.len() > 2
                ==> (#[trigger] hnsw_layer::adjacency_of(old(neighbors)@)[i])[0].len() > 0,
    ensures
        growing(levels, hnsw_layer::adjacency_of(final(neighbors)@), params),
        layers_linked(
            hnsw_layer::adjacency_of(old(neighbors)@),
            node,
            entry,
            top as int,
            params,
            pair,
            hnsw_layer::adjacency_of(final(neighbors)@),
        ),
        final(neighbors)@.len() == old(neighbors)@.len(),
        forall|i: int|
            0 <= i < final(neighbors)@.len() ==> (#[trigger] hnsw_layer::adjacency_of(
                final(neighbors)@,
            )[i])[0].len() > 0,
    decreases top,
{
    let n: usize = neighbors.len();
    let ghost adj = hnsw_layer::adjacency_of(neighbors@);
    let ghost dist = hnsw_link::distances_from(pair, node);
    let from_node = |x: usize| -> (r: u32)
        requires
            x < n,
        ensures
            r == pair(node, x),
        { distance(node, x) };
    proof {
        lemma_links_in_range(levels, adj);
    }
    let found: Vec<ScoredNode> = hnsw_layer::search_layer(
        &*neighbors,
        entry,
        params.ef_construction,
        top,
        visited,
        visit_mark,
        &from_node,
        Ghost(dist),
    );
    let max: usize = if top == 0 {
        params.m * 2
    } else {
        params.m
    };
    proof {
        assert forall|i: int| 0 <= i < found@.len() implies (#[trigger] found@[i]).id < adj.len()
            && levels[found@[i].id as int] >= top && found@[i].id != node by {
            lemma_reached(levels, adj, top as int, entry, found@[i].id, node);
        }
    }
    let chosen: Vec<ScoredNode> = hnsw_link::select_neighbors(
        &found,
        max,
        n,
        distance,
        Ghost(pair),
    );
    proof {
        assert(found@.len() == found.len());
        hnsw_link::selection_fills_up(found@, max as int, pair);
        assert forall|i: int| 0 <= i < chosen@.len() implies (#[trigger] chosen@[i]).id < adj.len()
            && levels[chosen@[i].id as int] >= top && chosen@[i].id != node by {
            assert(found@.contains(chosen@[i]));
            let q = choose|q: int| 0 <= q < found@.len() && found@[q] == chosen@[i];
            assert(found@[q].id < adj.len());
        }
        assert(hnsw::node_ok(levels, adj[node as int], node as int));
    }
    let mut k: usize = 0;
    while k < chosen.len()
        invariant
            k <= chosen@.len(),
            n == neighbors@.len(),
            n == adj.len(),
            node < n,
            growing(levels, adj, params),
            params.m >= 1,
            params.m * 2 <= usize::MAX,
            max == params.degree_limit(top as int),
            top <= levels[node as int],
            hnsw_layer::pair_agrees(*distance, pair, n as nat),
            forall|i: int|
                0 <= i < chosen@.len() ==> (#[trigger] chosen@[i]).id < adj.len()
                    && levels[chosen@[i].id as int] >= top && chosen@[i].id != node,
            hnsw_layer::adjacency_of(neighbors@) == linked_all(
                adj,
                node,
                chosen@,
                k as nat,
                top as int,
                max as int,
                pair,
            ),
        decreases chosen@.len() - k,
    {
        proof {
            lemma_linked_all(levels, adj, params, node, chosen@, k as nat, top as int, pair);
            let now = hnsw_layer::adjacency_of(neighbors@);
            lemma_links_in_range(levels, now);
            assert(hnsw::node_ok(levels, now[node as int], node as int));
            assert(now[node as int].len() == neighbors@[node as int]@.len());
            assert(chosen@[k as int].id != node);
        }
        hnsw_link::connect(neighbors, node, chosen[k].id, top, max, distance, Ghost(pair));
        k = k + 1;
    }
    let ghost next = hnsw_layer::adjacency_of(neighbors@);
    proof {
        lemma_linked_all(levels, adj, params, node, chosen@, chosen@.len(), top as int, pair);
        lemma_links_in_range(levels, next);
        assert(hnsw::node_ok(levels, next[node as int], node as int));
        assert(next[node as int].len() == neighbors@[node as int]@.len());
    }
    let mut ep_next: usize = entry;
    if neighbors[node][top].len() > 0 {
        assert forall|i: int| 0 <= i < neighbors@[node as int]@[top as int]@.len() implies
            #[trigger] neighbors@[node as int]@[top as int]@[i] < n by {
            assert(next[node as int][top as int][i] < next.len());
        }
        ep_next = nearest_of(&neighbors[node][top], n, &from_node, Ghost(dist));
        proof {
            lemma_nearest(next[node as int][top as int], dist);
            let list = next[node as int][top as int];
            let q = choose|q: int| 0 <= q < list.len() && list[q] == ep_next;
            assert(hnsw::list_ok(levels, next[node as int][top as int], top as int));
            assert(hnsw::edge_ok(levels, list[q], top as int));
            assert(tidy_list(next[node as int][top as int], node as int, top as int, params));
            assert(list[q] != node);
        }
    }
    assert(layer_linked(adj, node, entry, top as int, params, pair, next, ep_next)) by {
        assert(hnsw_layer::layer_found(
            adj,
            hnsw_link::distances_from(pair, node),
            entry,
            params.ef_construction as nat,
            top as int,
            found@,
        ));
    }
    if top > 0 {
        let next_mark: usize = advance_visit_mark(visited, visit_mark);
        proof {
            assert forall|i: int, l: int, j: int|
                0 <= i < next.len() && 0 <= l < next[i].len() && l < top && 0 <= j
                    < next[i][l].len() implies #[trigger] next[i][l][j] != node by {
                assert(hnsw::node_ok(levels, adj[i], i) && hnsw::node_ok(levels, next[i], i));
                assert(next[i][l] == adj[i][l]);
                assert(adj[i][l][j] != node);
            }
            assert forall|i: int| 0 <= i < n && i != node && n > 2 implies (#[trigger] next[i])[0].len() > 0 by {
                assert(hnsw::node_ok(levels, adj[i], i));
                assert(adj[i][0].len() > 0);
                assert(next[i][0].len() > 0);
            }
        }
        link_layers(
            neighbors,
            node,
            ep_next,
            top - 1,
            params,
            visited,
            next_mark,
            distance,
            Ghost(pair),
            Ghost(levels),
        );
    } else {
        assert(layers_linked(next, node, ep_next, -1, params, pair, next));
        proof {
            assert forall|i: int| 0 <= i < n implies (#[trigger] next[i])[0].len() > 0 by {
                assert(hnsw::node_ok(levels, adj[i], i));
                if i != node && n > 2 {
                    assert(adj[i][0].len() > 0);
                    assert(next[i][0].len() > 0);
                } else if i != node {
                    assert(chosen@[0].id == i);
                    assert(next[chosen@[0].id as int][0].len() > 0);
                }
            }
        }
    }
}

/// The lists of a graph after a node on `level` has come without neighbours.
pub open spec fn with_new_node(adj: Seq<Seq<Seq<usize>>>, level: usize) -> Seq<Seq<Seq<usize>>> {
    adj.push(Seq::new((level + 1) as nat, |l: int| Seq::<usize>::empty()))
}

/// `after` is `before` with `node` added: on its level, linked on every level that it shares with
/// the others, and made the entry point where it is above all of them.
#[verifier::opaque]
pub open spec fn inserted(
    before: GraphModel,
    after: GraphModel,
    node: usize,
    pair: spec_fn(usize, usize) -> u32,
) -> bool {
    let level = level_of(node, before.params.m, before.params.max_level);
    let adj = with_new_node(before.adjacency, level);
    let top = before.max_observed_level;
    let dist = hnsw_link::distances_from(pair, node);
    let start = ScoredNode { id: before.entry_point, dist: pair(node, before.entry_point) };
    &&& after.d == before.d
    &&& after.metric == before.metric
    &&& after.vectors == before.vectors
    &&& after.params == before.params
    &&& after.levels == before.levels.push(level)
    &&& if node == 0 {
        &&& after.adjacency == adj
        &&& after.entry_point == 0
        &&& after.max_observed_level == level
    } else {
        &&& layers_linked(
            adj,
            node,
            descended(adj, dist, start, top as int, level + 1).id,
            if level < top {
                level as int
            } else {
                top as int
            },
            before.params,
            pair,
            after.adjacency,
        )
        &&& after.entry_point == (if level > top {
            node
        } else {
            before.entry_point
        })
        &&& after.max_observed_level == (if level > top {
            level
        } else {
            top
        })
    }
}

/// A graph that has grown by its first `n` nodes, starting from nothing.
pub open spec fn grown(
    start: GraphModel,
    end: GraphModel,
    n: nat,
    pair: spec_fn(usize, usize) -> u32,
) -> bool {
    exists|steps: Seq<GraphModel>| #[trigger] grown_by(start, end, n, pair, steps)
}

/// The graphs in `steps` lead from `start` to `end`, each with one node more than the last.
pub open spec fn grown_by(
    start: GraphModel,
    end: GraphModel,
    n: nat,
    pair: spec_fn(usize, usize) -> u32,
    steps: Seq<GraphModel>,
) -> bool {
    &&& steps.len() == n + 1
    &&& steps[0] == start
    &&& steps.last() == end
    &&& forall|i: int| 0 <= i < n ==> #[trigger] next_step(steps, i, pair)
}

/// The graph behind the `i`-th one in `steps` has the `i`-th node more.
pub open spec fn next_step(
    steps: Seq<GraphModel>,
    i: int,
    pair: spec_fn(usize, usize) -> u32,
) -> bool {
    inserted(steps[i], steps[i + 1], i as usize, pair)
}

/// What holds of a graph at every step of its growth.
#[verifier::opaque]
pub open spec fn growth_state(g: GraphModel) -> bool {
    &&& growing(g.levels, g.adjacency, g.params)
    &&& g.entry_ok()
    &&& g.params == g.params.spec_sanitized()
    &&& forall|i: int|
        0 <= i < g.levels.len() ==> #[trigger] g.levels[i] == level_of(
            i as usize,
            g.params.m,
            g.params.max_level,
        )
    &&& g.levels.len() >= 2 ==> forall|i: int|
        0 <= i < g.levels.len() ==> (#[trigger] g.adjacency[i])[0].len() > 0
}

/// A node that comes without neighbours keeps what holds during the growth.
pub proof fn lemma_new_node(
    levels: Seq<usize>,
    adj: Seq<Seq<Seq<usize>>>,
    params: HnswBuildParams,
    level: usize,
)
    requires
        growing(levels, adj, params),
    ensures
        growing(levels.push(level), with_new_node(adj, level), params),
{
    let more = levels.push(level);
    let next = with_new_node(adj, level);
    assert forall|i: int| 0 <= i < more.len() implies hnsw::node_ok(more, #[trigger] next[i], i) by {
        if i < levels.len() {
            assert(next[i] == adj[i]);
            assert(hnsw::node_ok(levels, adj[i], i));
            assert forall|l: int| 0 <= l < next[i].len() implies hnsw::list_ok(
                more,
                #[trigger] next[i][l],
                l,
            ) by {
                assert(hnsw::list_ok(levels, adj[i][l], l));
                assert forall|j: int| 0 <= j < next[i][l].len() implies hnsw::edge_ok(
                    more,
                    #[trigger] next[i][l][j],
                    l,
                ) by {
                    assert(hnsw::edge_ok(levels, adj[i][l][j], l));
                }
            }
        } else {
            assert forall|l: int| 0 <= l < next[i].len() implies hnsw::list_ok(
                more,
                #[trigger] next[i][l],
                l,
            ) by {
                assert(next[i][l].len() == 0);
            }
        }
    }
    assert forall|i: int, l: int| 0 <= i < next.len() && 0 <= l < next[i].len() implies tidy_list(
        #[trigger] next[i][l],
        i,
        l,
        params,
    ) by {
        if i < levels.len() {
            assert(tidy_list(adj[i][l], i, l, params));
        } else {
            assert(next[i][l].len() == 0);
        }
    }
}

/// No list of the old nodes names the new one.
pub proof fn lemma_new_node_unnamed(
    levels: Seq<usize>,
    adj: Seq<Seq<Seq<usize>>>,
    level: usize,
    node: usize,
    below: int,
)
    requires
        hnsw::links_ok(levels, adj),
        node == levels.len(),
    ensures
        unnamed_below(with_new_node(adj, level), node, below),
{
    let next = with_new_node(adj, level);
    lemma_links_in_range(levels, adj);
    assert forall|i: int, l: int, j: int|
        0 <= i < next.len() && 0 <= l < next[i].len() && l < below && 0 <= j < next[i][l].len() implies
        #[trigger] next[i][l][j] != node by {
        if i < levels.len() {
            assert(next[i] == adj[i]);
            assert(adj[i][l][j] < adj.len());
        } else {
            assert(next[i][l].len() == 0);
        }
    }
}

} // verus!
