//! How a graph grows, told by its nodes and their neighbours.
use vstd::prelude::*;

use crate::distance::MetricType;
use crate::float_bits;
use crate::graph_law;
use crate::hnsw;
use crate::hnsw::{GraphModel, HnswBuildParams};
use crate::hnsw_build;
use crate::hnsw_layer;
use crate::hnsw_layer::ScoredNode;
use crate::hnsw_link;
use crate::list_graphs;

verus! {

/// One of the nodes is closer to the candidate than the candidate is to the node that selects.
pub open spec fn is_shadowed(
    nodes: Seq<ScoredNode>,
    candidate: ScoredNode,
    pair: spec_fn(usize, usize) -> u32,
) -> bool {
    exists|j: int|
        0 <= j < nodes.len() && float_bits::lt(
            pair(candidate.id, (#[trigger] nodes[j]).id),
            candidate.dist,
        )
}

/// The first `m` of the selected nodes shadow none of each other, as they came; the others are
/// shadowed by them and only fill up. A candidate that is not among the first `m` is shadowed by
/// them, or they are as many as are wanted and it is not closer than any of them.
pub open spec fn is_spread(
    selected: Seq<ScoredNode>,
    candidates: Seq<ScoredNode>,
    max: int,
    pair: spec_fn(usize, usize) -> u32,
    m: int,
) -> bool {
    &&& 0 <= m <= selected.len()
    &&& forall|i: int| 0 <= i < m ==> !is_shadowed(selected.take(i), #[trigger] selected[i], pair)
    &&& forall|i: int|
        m <= i < selected.len() ==> is_shadowed(selected.take(m), #[trigger] selected[i], pair)
    &&& hnsw_layer::ascending(selected.take(m))
    &&& forall|c: int|
        0 <= c < candidates.len() ==> selected.take(m).contains(#[trigger] candidates[c])
            || is_shadowed(selected.take(m), candidates[c], pair) || (m == max && forall|i: int|
            0 <= i < m ==> float_bits::total_key((#[trigger] selected[i]).dist)
                <= float_bits::total_key(candidates[c].dist))
}

proof fn lemma_shadowed_longer(
    nodes: Seq<ScoredNode>,
    more: Seq<ScoredNode>,
    candidate: ScoredNode,
    pair: spec_fn(usize, usize) -> u32,
)
    requires
        nodes.len() <= more.len(),
        forall|i: int| 0 <= i < nodes.len() ==> #[trigger] nodes[i] == more[i],
        is_shadowed(nodes, candidate, pair),
    ensures
        is_shadowed(more, candidate, pair),
{
    let j = choose|j: int|
        0 <= j < nodes.len() && float_bits::lt(
            pair(candidate.id, (#[trigger] nodes[j]).id),
            candidate.dist,
        );
    assert(more[j] == nodes[j]);
}

// The candidates up to `i` have been gone through.
spec fn gone_through(
    candidates: Seq<ScoredNode>,
    i: int,
    chosen: Seq<ScoredNode>,
    aside: Seq<ScoredNode>,
    pair: spec_fn(usize, usize) -> u32,
) -> bool {
    &&& forall|k: int| 0 <= k < chosen.len() ==> !is_shadowed(chosen.take(k), #[trigger] chosen[k], pair)
    &&& forall|k: int| 0 <= k < aside.len() ==> is_shadowed(chosen, #[trigger] aside[k], pair)
    &&& hnsw_layer::ascending(chosen)
    &&& forall|k: int| 0 <= k < chosen.len() ==> candidates.take(i).contains(#[trigger] chosen[k])
    &&& forall|k: int|
        0 <= k < i ==> chosen.contains(#[trigger] candidates[k]) || is_shadowed(
            chosen,
            candidates[k],
            pair,
        )
}

spec fn is_through(
    candidates: Seq<ScoredNode>,
    upto: int,
    parted: (Seq<ScoredNode>, Seq<ScoredNode>),
    max: int,
    pair: spec_fn(usize, usize) -> u32,
) -> bool {
    &&& 0 <= upto <= candidates.len()
    &&& gone_through(candidates, upto, parted.0, parted.1, pair)
    &&& upto == candidates.len() || parted.0.len() >= max
    &&& parted.0.len() <= max
}

proof fn lemma_spread(
    candidates: Seq<ScoredNode>,
    i: int,
    chosen: Seq<ScoredNode>,
    aside: Seq<ScoredNode>,
    max: int,
    pair: spec_fn(usize, usize) -> u32,
)
    requires
        0 <= i <= candidates.len(),
        hnsw_layer::ascending(candidates),
        gone_through(candidates, i, chosen, aside, pair),
        chosen.len() <= max,
    ensures
        exists|upto: int| #[trigger]
            is_through(
                candidates,
                upto,
                hnsw_link::choose_spread(candidates, i, chosen, aside, max, pair),
                max,
                pair,
            ),
    decreases candidates.len() - i,
{
    if i < candidates.len() && chosen.len() < max {
        let x = candidates[i];
        let longer = candidates.take(i + 1);
        assert(longer[i] == x);
        assert(is_shadowed(chosen, x, pair) == hnsw_link::shadowed(chosen, x, pair));
        assert forall|v: ScoredNode| #[trigger] candidates.take(i).contains(v) implies longer.contains(
            v,
        ) by {
            let q = choose|q: int| 0 <= q < i && candidates.take(i)[q] == v;
            assert(longer[q] == v);
        }
        if hnsw_link::shadowed(chosen, x, pair) {
            assert forall|k: int| 0 <= k < i + 1 implies chosen.contains(#[trigger] candidates[k])
                || is_shadowed(chosen, candidates[k], pair) by {}
            lemma_spread(candidates, i + 1, chosen, aside.push(x), max, pair);
            assert(hnsw_link::choose_spread(candidates, i, chosen, aside, max, pair)
                == hnsw_link::choose_spread(candidates, i + 1, chosen, aside.push(x), max, pair));
        } else {
            let next = chosen.push(x);
            assert forall|k: int| 0 <= k < next.len() implies !is_shadowed(
                next.take(k),
                #[trigger] next[k],
                pair,
            ) by {
                if k < chosen.len() {
                    assert(next.take(k) =~= chosen.take(k));
                    assert(!is_shadowed(chosen.take(k), chosen[k], pair));
                } else {
                    assert(next.take(k) =~= chosen);
                }
            }
            assert forall|k: int| 0 <= k < aside.len() implies is_shadowed(
                next,
                #[trigger] aside[k],
                pair,
            ) by {
                lemma_shadowed_longer(chosen, next, aside[k], pair);
            }
            assert forall|a: int, b: int| 0 <= a <= b < next.len() implies float_bits::total_key(
                #[trigger] next[a].dist,
            ) <= float_bits::total_key(#[trigger] next[b].dist) by {
                if b < chosen.len() {
                    assert(chosen[a].dist == next[a].dist && chosen[b].dist == next[b].dist);
                } else if a < chosen.len() {
                    assert(candidates.take(i).contains(chosen[a]));
                    let q = choose|q: int| 0 <= q < i && candidates.take(i)[q] == chosen[a];
                    assert(float_bits::total_key(candidates[q].dist) <= float_bits::total_key(
                        candidates[i].dist,
                    ));
                }
            }
            assert forall|k: int| 0 <= k < i + 1 implies next.contains(#[trigger] candidates[k])
                || is_shadowed(next, candidates[k], pair) by {
                if k < i {
                    if chosen.contains(candidates[k]) {
                        let q = choose|q: int| 0 <= q < chosen.len() && chosen[q] == candidates[k];
                        assert(next[q] == candidates[k]);
                    } else {
                        lemma_shadowed_longer(chosen, next, candidates[k], pair);
                    }
                } else {
                    assert(next[chosen.len() as int] == candidates[k]);
                }
            }
            assert forall|k: int| 0 <= k < next.len() implies longer.contains(#[trigger] next[k]) by {
                if k < chosen.len() {
                    assert(candidates.take(i).contains(chosen[k]));
                }
            }
            lemma_spread(candidates, i + 1, next, aside, max, pair);
            assert(hnsw_link::choose_spread(candidates, i, chosen, aside, max, pair)
                == hnsw_link::choose_spread(candidates, i + 1, next, aside, max, pair));
        }
    } else {
        assert(hnsw_link::choose_spread(candidates, i, chosen, aside, max, pair) == (chosen, aside));
        assert(is_through(candidates, i, (chosen, aside), max, pair));
    }
}

proof fn lemma_filled(aside: Seq<ScoredNode>, i: int, chosen: Seq<ScoredNode>, max: int)
    requires
        0 <= i <= aside.len(),
    ensures
        ({
            let c = hnsw_link::fill_up(aside, i, chosen, max);
            &&& chosen.len() <= c.len()
            &&& forall|k: int| 0 <= k < chosen.len() ==> #[trigger] c[k] == chosen[k]
            &&& forall|k: int| chosen.len() <= k < c.len() ==> aside.contains(#[trigger] c[k])
        }),
    decreases aside.len() - i,
{
    if i < aside.len() && chosen.len() < max {
        if hnsw_layer::has_id(chosen, aside[i].id) {
            lemma_filled(aside, i + 1, chosen, max);
        } else {
            let next = chosen.push(aside[i]);
            lemma_filled(aside, i + 1, next, max);
            let c = hnsw_link::fill_up(aside, i, chosen, max);
            assert forall|k: int| 0 <= k < chosen.len() implies #[trigger] c[k] == chosen[k] by {
                assert(next[k] == chosen[k]);
            }
            assert(c[chosen.len() as int] == next[chosen.len() as int]);
        }
    }
}

/// The neighbours that a node selects are spread: closest first, one is passed over as long as a
/// closer one shadows it, and only where room is left are those that were passed over taken. There
/// are as many as there is room for, each once, and all are candidates.
pub proof fn selections_are_spread(
    candidates: Seq<ScoredNode>,
    max: int,
    pair: spec_fn(usize, usize) -> u32,
)
    requires
        hnsw_layer::distinct_ids(candidates),
        candidates.len() <= usize::MAX,
        0 <= max,
    ensures
        exists|m: int| #[trigger]
            is_spread(hnsw_link::selected(candidates, max, pair), candidates, max, pair, m),
        hnsw_link::selected(candidates, max, pair).len() == (if candidates.len() <= max {
            candidates.len() as int
        } else {
            max
        }),
        hnsw_layer::distinct_ids(hnsw_link::selected(candidates, max, pair)),
        forall|k: int|
            0 <= k < hnsw_link::selected(candidates, max, pair).len() ==> candidates.contains(
                #[trigger] hnsw_link::selected(candidates, max, pair)[k],
            ),
{
    hnsw_link::selection_fills_up(candidates, max, pair);
    let ranked = hnsw_link::ranked(candidates);
    hnsw_link::lemma_ranked(candidates);
    let none = Seq::<ScoredNode>::empty();
    let s = hnsw_link::selected(candidates, max, pair);
    lemma_spread(ranked, 0, none, none, max, pair);
    let (c, a) = hnsw_link::choose_spread(ranked, 0, none, none, max, pair);
    let upto = choose|upto: int| #[trigger] is_through(ranked, upto, (c, a), max, pair);
    lemma_filled(a, 0, c, max);
    let m = c.len() as int;
    assert(s.take(m) =~= c);
    assert forall|i: int| 0 <= i < m implies !is_shadowed(s.take(i), #[trigger] s[i], pair) by {
        assert(s.take(i) =~= c.take(i));
        assert(!is_shadowed(c.take(i), c[i], pair));
    }
    assert forall|i: int| m <= i < s.len() implies is_shadowed(s.take(m), #[trigger] s[i], pair) by {
        let q = choose|q: int| 0 <= q < a.len() && a[q] == s[i];
        assert(is_shadowed(c, a[q], pair));
    }
    assert forall|x: int| 0 <= x < candidates.len() implies s.take(m).contains(
        #[trigger] candidates[x],
    ) || is_shadowed(s.take(m), candidates[x], pair) || (m == max && forall|i: int|
        0 <= i < m ==> float_bits::total_key((#[trigger] s[i]).dist) <= float_bits::total_key(
            candidates[x].dist,
        )) by {
        assert(ranked.contains(candidates[x]));
        let q = choose|q: int| 0 <= q < ranked.len() && ranked[q] == candidates[x];
        if q < upto {
            assert(c.contains(ranked[q]) || is_shadowed(c, ranked[q], pair));
        } else {
            assert forall|i: int| 0 <= i < m implies float_bits::total_key((#[trigger] s[i]).dist)
                <= float_bits::total_key(candidates[x].dist) by {
                assert(ranked.take(upto).contains(c[i]));
                let z = choose|z: int| 0 <= z < upto && ranked.take(upto)[z] == c[i];
                assert(float_bits::total_key(ranked[z].dist) <= float_bits::total_key(
                    ranked[q].dist,
                ));
            }
        }
    }
    assert(is_spread(s, candidates, max, pair, m));
}

/// A list that is cut down keeps the closest nodes, closest first, and as many as there is room
/// for.
pub proof fn the_closest_neighbours_are_kept(ids: Seq<usize>, dist: spec_fn(usize) -> u32, max: int)
    requires
        ids.len() <= usize::MAX,
        0 <= max,
    ensures
        ({
            let kept = hnsw_link::pruned(ids, dist, max);
            &&& kept.len() == (if ids.len() <= max {
                ids.len() as int
            } else {
                max
            })
            &&& forall|i: int| 0 <= i < kept.len() ==> ids.contains(#[trigger] kept[i])
            &&& forall|i: int, j: int|
                0 <= i < j < kept.len() ==> float_bits::total_key(dist(#[trigger] kept[i]))
                    <= float_bits::total_key(dist(#[trigger] kept[j]))
            &&& forall|v: usize, i: int|
                ids.contains(v) && !#[trigger] kept.contains(v) && 0 <= i < kept.len()
                    ==> float_bits::total_key(dist(#[trigger] kept[i])) <= float_bits::total_key(
                    dist(v),
                )
            &&& ids.len() <= max ==> forall|v: usize| ids.contains(v) ==> #[trigger] kept.contains(v)
            &&& ids.no_duplicates() ==> kept.no_duplicates()
        }),
{
    let kept = hnsw_link::pruned(ids, dist, max);
    let list = hnsw_link::scored(ids, dist);
    let ranked = hnsw_link::ranked(list);
    hnsw_link::lemma_ranked(list);
    hnsw_link::lemma_pruned_members(ids, dist, max);
    assert forall|i: int| 0 <= i < ranked.len() implies (#[trigger] ranked[i]).dist == dist(
        ranked[i].id,
    ) by {
        assert(list.contains(ranked[i]));
        let q = choose|q: int| 0 <= q < list.len() && list[q] == ranked[i];
        assert(list[q].dist == dist(ids[q]));
    }
    assert forall|i: int| 0 <= i < kept.len() implies #[trigger] kept[i] == ranked[i].id by {}
    assert forall|i: int, j: int| 0 <= i < j < kept.len() implies float_bits::total_key(
        dist(#[trigger] kept[i]),
    ) <= float_bits::total_key(dist(#[trigger] kept[j])) by {
        assert(float_bits::total_key(ranked[i].dist) <= float_bits::total_key(ranked[j].dist));
    }
    assert forall|v: usize| #[trigger] ids.contains(v) implies exists|q: int|
        0 <= q < ranked.len() && (#[trigger] ranked[q]).id == v by {
        let z = choose|z: int| 0 <= z < ids.len() && ids[z] == v;
        assert(list[z].id == v);
        assert(ranked.contains(list[z]));
        let q = choose|q: int| 0 <= q < ranked.len() && ranked[q] == list[z];
        assert(ranked[q].id == v);
    }
    assert forall|v: usize, i: int|
        ids.contains(v) && !#[trigger] kept.contains(v) && 0 <= i
            < kept.len() implies float_bits::total_key(dist(#[trigger] kept[i]))
        <= float_bits::total_key(dist(v)) by {
        let q = choose|q: int| 0 <= q < ranked.len() && (#[trigger] ranked[q]).id == v;
        if q < kept.len() {
            assert(kept[q] == v);
        }
        assert(float_bits::total_key(ranked[i].dist) <= float_bits::total_key(ranked[q].dist));
    }
    if ids.len() <= max {
        assert forall|v: usize| ids.contains(v) implies #[trigger] kept.contains(v) by {
            let q = choose|q: int| 0 <= q < ranked.len() && (#[trigger] ranked[q]).id == v;
            assert(kept[q] == v);
        }
    }
}

/// Two nodes that are linked on a level: no other list changes; each has the other for a neighbour,
/// or its list is full and the other is not closer than any that it holds.
pub proof fn linked_nodes_know_each_other(
    adj: Seq<Seq<Seq<usize>>>,
    a: usize,
    b: usize,
    level: int,
    max: int,
    pair: spec_fn(usize, usize) -> u32,
)
    requires
        a < adj.len(),
        b < adj.len(),
        a != b,
        0 <= level < adj[a as int].len(),
        level < adj[b as int].len(),
        adj[a as int][level].len() < usize::MAX,
        adj[b as int][level].len() < usize::MAX,
        adj[b as int][level].len() <= max,
        0 <= max,
    ensures
        ({
            let next = hnsw_link::linked(adj, a, b, level, max, pair);
            &&& next.len() == adj.len()
            &&& forall|i: int, l: int|
                0 <= i < adj.len() && 0 <= l < adj[i].len() && (l != level || (i != a && i != b))
                    ==> #[trigger] next[i][l] == adj[i][l]
            &&& forall|i: int| 0 <= i < adj.len() ==> (#[trigger] next[i]).len() == adj[i].len()
            &&& knows(next[a as int][level], a, b, max, pair)
            &&& knows(next[b as int][level], b, a, max, pair)
            &&& only_adds(adj[a as int][level], next[a as int][level], b, max)
            &&& only_adds(adj[b as int][level], next[b as int][level], a, max)
        }),
{
    let mine = adj[a as int][level];
    let theirs = adj[b as int][level];
    let wider = hnsw_link::with_member(mine, b);
    let from_a = hnsw_link::distances_from(pair, a);
    let from_b = hnsw_link::distances_from(pair, b);
    the_closest_neighbours_are_kept(wider, from_a, max);
    the_closest_neighbours_are_kept(theirs.push(a), from_b, max);
    let next = hnsw_link::linked(adj, a, b, level, max, pair);
    let new_a = next[a as int][level];
    let new_b = next[b as int][level];
    assert(new_a == hnsw_link::pruned(wider, from_a, max));
    assert(wider.contains(b)) by {
        if !mine.contains(b) {
            assert(wider[mine.len() as int] == b);
        }
    }
    assert(theirs.push(a)[theirs.len() as int] == a);
    assert(theirs.push(a).contains(a));
    assert forall|v: usize| #[trigger] theirs.contains(v) implies theirs.push(a).contains(v) by {
        let q = choose|q: int| 0 <= q < theirs.len() && theirs[q] == v;
        assert(theirs.push(a)[q] == v);
    }
    assert forall|v: usize| #[trigger] theirs.push(a).contains(v) implies theirs.contains(v) || v
        == a by {
        let q = choose|q: int| 0 <= q < theirs.push(a).len() && theirs.push(a)[q] == v;
        if q < theirs.len() {
            assert(theirs[q] == v);
        }
    }
    assert forall|v: usize| #[trigger] mine.contains(v) implies wider.contains(v) by {
        let q = choose|q: int| 0 <= q < mine.len() && mine[q] == v;
        assert(wider[q] == v);
    }
    assert forall|v: usize| #[trigger] wider.contains(v) implies mine.contains(v) || v == b by {
        let q = choose|q: int| 0 <= q < wider.len() && wider[q] == v;
        if q < mine.len() {
            assert(mine[q] == v);
        }
    }
    if theirs.contains(a) {
        assert(new_b == theirs);
    } else {
        assert(new_b == hnsw_link::pruned(theirs.push(a), from_b, max));
        assert forall|i: int| 0 <= i < new_b.len() implies theirs.push(a).contains(
            #[trigger] new_b[i],
        ) by {}
    }
    assert forall|v: usize| #[trigger] new_b.contains(v) implies theirs.contains(v) || v == a by {
        let q = choose|q: int| 0 <= q < new_b.len() && new_b[q] == v;
        if !theirs.contains(a) {
            assert(theirs.push(a).contains(new_b[q]));
        }
    }
    assert forall|v: usize| #[trigger] new_a.contains(v) implies mine.contains(v) || v == b by {
        let q = choose|q: int| 0 <= q < new_a.len() && new_a[q] == v;
        assert(wider.contains(new_a[q]));
    }
    assert(knows(new_a, a, b, max, pair));
    assert(knows(new_b, b, a, max, pair)) by {
        if !new_b.contains(a) {
            assert(new_b.len() == max);
            assert forall|i: int| 0 <= i < new_b.len() implies float_bits::total_key(
                pair(b, #[trigger] new_b[i]),
            ) <= float_bits::total_key(pair(b, a)) by {
                assert(from_b(new_b[i]) == pair(b, new_b[i]));
            }
        }
    }
}

/// Node `b` is a neighbour of `a`, or the list of `a` is full and `b` is not closer than any in it.
pub open spec fn knows(
    list: Seq<usize>,
    a: usize,
    b: usize,
    max: int,
    pair: spec_fn(usize, usize) -> u32,
) -> bool {
    list.contains(b) || (list.len() == max && forall|i: int|
        0 <= i < list.len() ==> float_bits::total_key(pair(a, #[trigger] list[i]))
            <= float_bits::total_key(pair(a, b)))
}

/// Nothing but `b` came to the list, and something went only where the list is full.
pub open spec fn only_adds(before: Seq<usize>, after: Seq<usize>, b: usize, max: int) -> bool {
    &&& forall|v: usize| #[trigger] after.contains(v) ==> before.contains(v) || v == b
    &&& after.len() == max || forall|v: usize| before.contains(v) ==> #[trigger] after.contains(v)
}

proof fn lemma_links_one_by_one(
    levels: Seq<usize>,
    adj: Seq<Seq<Seq<usize>>>,
    params: HnswBuildParams,
    node: usize,
    chosen: Seq<ScoredNode>,
    k: nat,
    level: int,
    pair: spec_fn(usize, usize) -> u32,
)
    requires
        hnsw_build::growing(levels, adj, params),
        node < adj.len(),
        0 <= level <= levels[node as int],
        params.m >= 1,
        params.m * 2 <= usize::MAX,
        k <= chosen.len(),
        chosen.len() <= params.degree_limit(level),
        hnsw_layer::distinct_ids(chosen),
        forall|i: int|
            0 <= i < chosen.len() ==> (#[trigger] chosen[i]).id < adj.len()
                && levels[chosen[i].id as int] >= level && chosen[i].id != node,
        adj[node as int][level].len() == 0,
    ensures
        ({
            let max = params.degree_limit(level);
            let next = hnsw_build::linked_all(adj, node, chosen, k, level, max, pair);
            &&& next.len() == adj.len()
            &&& forall|i: int| 0 <= i < adj.len() ==> (#[trigger] next[i]).len() == adj[i].len()
            &&& next[node as int][level].len() == k
            &&& forall|v: usize| #[trigger]
                next[node as int][level].contains(v) <==> hnsw_layer::has_id(
                    chosen.take(k as int),
                    v,
                )
            &&& forall|i: int|
                0 <= i < k ==> knows(
                    next[(#[trigger] chosen[i]).id as int][level],
                    chosen[i].id,
                    node,
                    max,
                    pair,
                )
            &&& forall|i: int|
                0 <= i < adj.len() && i != node ==> only_adds(
                    adj[i][level],
                    #[trigger] next[i][level],
                    node,
                    max,
                ) || level >= adj[i].len()
            &&& forall|i: int|
                0 <= i < adj.len() && i != node && !hnsw_layer::has_id(
                    chosen.take(k as int),
                    i as usize,
                ) ==> (#[trigger] next[i]) == adj[i]
        }),
    decreases k,
{
    let max = params.degree_limit(level);
    let next = hnsw_build::linked_all(adj, node, chosen, k, level, max, pair);
    hnsw_build::lemma_linked_all(levels, adj, params, node, chosen, k, level, pair);
    assert(hnsw::node_ok(levels, adj[node as int], node as int));
    assert forall|i: int| 0 <= i < adj.len() implies (#[trigger] next[i]).len() == adj[i].len() by {
        assert(hnsw::node_ok(levels, adj[i], i) && hnsw::node_ok(levels, next[i], i));
    }
    if k == 0 {
        assert(chosen.take(0) =~= Seq::<ScoredNode>::empty());
    } else {
        let before = hnsw_build::linked_all(adj, node, chosen, (k - 1) as nat, level, max, pair);
        lemma_links_one_by_one(levels, adj, params, node, chosen, (k - 1) as nat, level, pair);
        hnsw_build::lemma_linked_all(
            levels,
            adj,
            params,
            node,
            chosen,
            (k - 1) as nat,
            level,
            pair,
        );
        let b = chosen[k - 1].id;
        assert(hnsw::node_ok(levels, before[b as int], b as int));
        assert(hnsw::node_ok(levels, before[node as int], node as int));
        assert(hnsw_build::tidy_list(before[b as int][level], b as int, level, params));
        assert(hnsw_build::tidy_list(before[node as int][level], node as int, level, params));
        linked_nodes_know_each_other(before, node, b, level, max, pair);
        let short = chosen.take(k - 1);
        let part = chosen.take(k as int);
        assert(part[k - 1] == chosen[k - 1]);
        let mine = before[node as int][level];
        let now = next[node as int][level];
        assert(!mine.contains(b)) by {
            if mine.contains(b) {
                assert(hnsw_layer::has_id(short, b));
                let q = choose|q: int| 0 <= q < short.len() && #[trigger] short[q].id == b;
                assert(chosen[q].id != chosen[k - 1].id);
            }
        }
        let wider = mine.push(b);
        let from = hnsw_link::distances_from(pair, node);
        the_closest_neighbours_are_kept(wider, from, max);
        assert(now == hnsw_link::pruned(wider, from, max));
        assert(now.len() == k);
        assert forall|v: usize| #[trigger] now.contains(v) <==> hnsw_layer::has_id(part, v) by {
            if now.contains(v) {
                let q = choose|q: int| 0 <= q < now.len() && now[q] == v;
                assert(wider.contains(now[q]));
                let z = choose|z: int| 0 <= z < wider.len() && wider[z] == v;
                if z < mine.len() {
                    assert(mine.contains(v)) by {
                        assert(mine[z] == v);
                    }
                    let y = choose|y: int| 0 <= y < short.len() && #[trigger] short[y].id == v;
                    assert(part[y].id == v);
                } else {
                    assert(part[k - 1].id == v);
                }
            }
            if hnsw_layer::has_id(part, v) {
                let y = choose|y: int| 0 <= y < part.len() && #[trigger] part[y].id == v;
                if y < k - 1 {
                    assert(short[y].id == v);
                    assert(mine.contains(v));
                    let z = choose|z: int| 0 <= z < mine.len() && mine[z] == v;
                    assert(wider[z] == v);
                } else {
                    assert(wider[mine.len() as int] == v);
                }
                assert(wider.contains(v));
            }
        }
        assert forall|i: int| 0 <= i < k implies knows(
            next[(#[trigger] chosen[i]).id as int][level],
            chosen[i].id,
            node,
            max,
            pair,
        ) by {
            if i < k - 1 {
                let c = chosen[i].id as int;
                assert(chosen[i].id != chosen[k - 1].id);
                assert(next[c][level] == before[c][level]);
            }
        }
        assert forall|i: int| 0 <= i < adj.len() && i != node implies only_adds(
            adj[i][level],
            #[trigger] next[i][level],
            node,
            max,
        ) || level >= adj[i].len() by {
            if level < adj[i].len() {
                assert(only_adds(adj[i][level], before[i][level], node, max));
                if i == b {
                    assert(only_adds(before[i][level], next[i][level], node, max));
                    assert(before[i] == adj[i]) by {
                        assert(!hnsw_layer::has_id(short, b)) by {
                            if hnsw_layer::has_id(short, b) {
                                let q = choose|q: int|
                                    0 <= q < short.len() && #[trigger] short[q].id == b;
                                assert(chosen[q].id != chosen[k - 1].id);
                            }
                        }
                        assert(before[b as int] == adj[b as int]);
                    }
                } else {
                    assert(next[i][level] == before[i][level]);
                }
            }
        }
        assert forall|i: int|
            0 <= i < adj.len() && i != node && !hnsw_layer::has_id(part, i as usize) implies (
        #[trigger] next[i]) == adj[i] by {
            if hnsw_layer::has_id(short, i as usize) {
                let y = choose|y: int| 0 <= y < short.len() && #[trigger] short[y].id == i as usize;
                assert(part[y].id == i as usize);
            }
            assert(before[i] == adj[i]);
            assert(i != b) by {
                if i == b {
                    assert(part[k - 1].id == i as usize);
                }
            }
            assert forall|l: int| 0 <= l < next[i].len() implies next[i][l] == before[i][l] by {}
            assert(next[i] =~= before[i]);
        }
    }
}

/// Two graphs with the same lists on a level: what is found on it in one is found in the other.
proof fn lemma_same_level(
    adj: Seq<Seq<Seq<usize>>>,
    base: Seq<Seq<Seq<usize>>>,
    dist: spec_fn(usize) -> u32,
    entry: usize,
    ef: nat,
    level: int,
    found: Seq<ScoredNode>,
)
    requires
        adj.len() == base.len(),
        forall|i: int| #[trigger]
            hnsw_layer::neighbors_of(adj, i, level) == hnsw_layer::neighbors_of(base, i, level),
        hnsw_layer::layer_found(adj, dist, entry, ef, level, found),
    ensures
        hnsw_layer::layer_found(base, dist, entry, ef, level, found),
{
    assert forall|i: int| 0 <= i < found.len() implies (#[trigger] found[i]).id < base.len()
        && hnsw_layer::reachable(base, level, entry, found[i].id) by {
        let path = choose|path: Seq<usize>|
            hnsw_layer::is_path(adj, level, path, entry, found[i].id);
        assert forall|j: int| 0 <= j < path.len() - 1 implies #[trigger] hnsw_layer::neighbors_of(
            base,
            path[j] as int,
            level,
        ).contains(path[j + 1]) by {
            assert(hnsw_layer::neighbors_of(adj, path[j] as int, level).contains(path[j + 1]));
        }
        assert(hnsw_layer::is_path(base, level, path, entry, found[i].id));
    }
    assert forall|i: int, j: int|
        0 <= i < found.len() && 0 <= j < hnsw_layer::neighbors_of(
            base,
            found[i].id as int,
            level,
        ).len() implies hnsw_layer::accounted(
        found,
        dist,
        base.len(),
        ef,
        #[trigger] hnsw_layer::neighbors_of(base, found[i].id as int, level)[j],
    ) by {
        assert(hnsw_layer::neighbors_of(adj, found[i].id as int, level)
            == hnsw_layer::neighbors_of(base, found[i].id as int, level));
        assert(hnsw_layer::accounted(
            found,
            dist,
            adj.len(),
            ef,
            hnsw_layer::neighbors_of(adj, found[i].id as int, level)[j],
        ));
    }
}

/// On level `l` the node has the neighbours that it selects from what a search as wide as graphs
/// are built with finds there, all of them and no others, and each knows of it.
pub open spec fn is_linked_on(
    base: Seq<Seq<Seq<usize>>>,
    after: Seq<Seq<Seq<usize>>>,
    node: usize,
    params: HnswBuildParams,
    pair: spec_fn(usize, usize) -> u32,
    l: int,
    entry: usize,
    found: Seq<ScoredNode>,
) -> bool {
    let max = if l == 0 {
        params.m * 2
    } else {
        params.m as int
    };
    let list = after[node as int][l];
    &&& hnsw_layer::layer_found(
        base,
        |x: usize| pair(node, x),
        entry,
        params.ef_construction as nat,
        l,
        found,
    )
    &&& list.len() == (if found.len() <= max {
        found.len() as int
    } else {
        max
    })
    &&& forall|v: usize| #[trigger]
        list.contains(v) <==> hnsw_layer::has_id(hnsw_link::selected(found, max, pair), v)
    &&& forall|v: usize| #[trigger]
        list.contains(v) ==> knows(after[v as int][l], v, node, max, pair)
}

pub open spec fn is_linked_somehow(
    base: Seq<Seq<Seq<usize>>>,
    after: Seq<Seq<Seq<usize>>>,
    node: usize,
    params: HnswBuildParams,
    pair: spec_fn(usize, usize) -> u32,
    l: int,
) -> bool {
    exists|entry: usize, found: Seq<ScoredNode>| #[trigger]
        is_linked_on(base, after, node, params, pair, l, entry, found)
}

// What holds of the lists before a level is linked.
spec fn is_ready(
    levels: Seq<usize>,
    base: Seq<Seq<Seq<usize>>>,
    adj: Seq<Seq<Seq<usize>>>,
    node: usize,
    ep: usize,
    level: int,
    params: HnswBuildParams,
) -> bool {
    &&& hnsw_build::growing(levels, adj, params)
    &&& adj.len() == base.len()
    &&& forall|i: int| 0 <= i < adj.len() ==> (#[trigger] adj[i]).len() == base[i].len()
    &&& forall|i: int, l: int|
        0 <= i < adj.len() && 0 <= l < adj[i].len() && l <= level ==> #[trigger] adj[i][l]
            == base[i][l]
    &&& node < adj.len()
    &&& level <= levels[node as int]
    &&& forall|l: int| 0 <= l <= level ==> (#[trigger] adj[node as int][l]).len() == 0
    &&& hnsw_build::unnamed_below(adj, node, level + 1)
    &&& level >= 0 ==> ep < adj.len() && ep != node && levels[ep as int] >= level
    &&& params.m >= 1
    &&& params.m * 2 <= usize::MAX
}

#[verifier::rlimit(60)]
proof fn lemma_one_layer(
    levels: Seq<usize>,
    base: Seq<Seq<Seq<usize>>>,
    adj: Seq<Seq<Seq<usize>>>,
    node: usize,
    ep: usize,
    level: int,
    params: HnswBuildParams,
    pair: spec_fn(usize, usize) -> u32,
    next: Seq<Seq<Seq<usize>>>,
    ep_next: usize,
)
    requires
        level >= 0,
        levels.len() == adj.len(),
        is_ready(levels, base, adj, node, ep, level, params),
        hnsw_build::layer_linked(adj, node, ep, level, params, pair, next, ep_next),
    ensures
        is_ready(levels, base, next, node, ep_next, level - 1, params),
        is_linked_somehow(base, next, node, params, pair, level),
        forall|i: int|
            0 <= i < adj.len() && i != node && level < adj[i].len() ==> only_adds(
                base[i][level],
                #[trigger] next[i][level],
                node,
                params.degree_limit(level),
            ),
        forall|i: int, l: int|
            0 <= i < adj.len() && 0 <= l < adj[i].len() && l != level ==> #[trigger] next[i][l]
                == adj[i][l],
{
    let dist = hnsw_link::distances_from(pair, node);
    let max = params.degree_limit(level);
    let found = choose|found: Seq<ScoredNode>|
        #[trigger] hnsw_layer::layer_found(
            adj,
            dist,
            ep,
            params.ef_construction as nat,
            level,
            found,
        ) && ({
            let chosen = hnsw_link::selected(found, max, pair);
            next == hnsw_build::linked_all(adj, node, chosen, chosen.len(), level, max, pair)
                && ep_next == (if next[node as int][level].len() == 0 {
                ep
            } else {
                hnsw_build::nearest(next[node as int][level], dist)
            })
        });
    let chosen = hnsw_link::selected(found, max, pair);
    graph_law::lemma_at_most_nodes(found, adj.len());
    assert forall|i: int| 0 <= i < found.len() implies (#[trigger] found[i]).id < adj.len()
        && levels[found[i].id as int] >= level && found[i].id != node by {
        hnsw_build::lemma_reached(levels, adj, level, ep, found[i].id, node);
    }
    hnsw_link::selection_fills_up(found, max, pair);
    assert forall|i: int| 0 <= i < chosen.len() implies (#[trigger] chosen[i]).id < adj.len()
        && levels[chosen[i].id as int] >= level && chosen[i].id != node by {
        assert(found.contains(chosen[i]));
        let q = choose|q: int| 0 <= q < found.len() && found[q] == chosen[i];
        assert(found[q].id < adj.len());
    }
    assert(hnsw::node_ok(levels, adj[node as int], node as int));
    assert(adj[node as int][level].len() == 0);
    hnsw_build::lemma_linked_all(levels, adj, params, node, chosen, chosen.len(), level, pair);
    lemma_links_one_by_one(levels, adj, params, node, chosen, chosen.len(), level, pair);
    assert(chosen.take(chosen.len() as int) =~= chosen);
    let list = next[node as int][level];
    assert forall|i: int| hnsw_layer::neighbors_of(adj, i, level) == #[trigger]
        hnsw_layer::neighbors_of(base, i, level) by {
        if 0 <= i < adj.len() && level < adj[i].len() {
            assert(adj[i][level] == base[i][level]);
        }
    }
    lemma_same_level(adj, base, dist, ep, params.ef_construction as nat, level, found);
    assert(dist =~= (|x: usize| pair(node, x)));
    assert forall|v: usize| #[trigger] list.contains(v) implies knows(
        next[v as int][level],
        v,
        node,
        max,
        pair,
    ) by {
        assert(hnsw_layer::has_id(chosen, v));
        let q = choose|q: int| 0 <= q < chosen.len() && #[trigger] chosen[q].id == v;
        assert(knows(next[chosen[q].id as int][level], chosen[q].id, node, max, pair));
    }
    assert(is_linked_on(base, next, node, params, pair, level, ep, found));
    assert forall|i: int|
        0 <= i < adj.len() && i != node && level < adj[i].len() implies only_adds(
        base[i][level],
        #[trigger] next[i][level],
        node,
        max,
    ) by {
        assert(adj[i][level] == base[i][level]);
    }
    // What holds before the next level is linked.
    assert forall|i: int, l: int|
        0 <= i < next.len() && 0 <= l < next[i].len() && l <= level - 1 implies #[trigger] next[i][l]
        == base[i][l] by {
        assert(next[i][l] == adj[i][l]);
    }
    assert forall|l: int| 0 <= l <= level - 1 implies (#[trigger] next[node as int][l]).len() == 0 by {
        assert(next[node as int][l] == adj[node as int][l]);
    }
    assert forall|i: int, l: int, j: int|
        0 <= i < next.len() && 0 <= l < next[i].len() && l < level && 0 <= j
            < next[i][l].len() implies #[trigger] next[i][l][j] != node by {
        assert(next[i][l] == adj[i][l]);
        assert(adj[i][l][j] != node);
    }
    if list.len() > 0 {
        hnsw_build::lemma_nearest(list, dist);
        assert(list.contains(ep_next));
        assert(hnsw_layer::has_id(chosen, ep_next));
        let q = choose|q: int| 0 <= q < chosen.len() && #[trigger] chosen[q].id == ep_next;
        assert(chosen[q].id != node);
    }
}

#[verifier::rlimit(60)]
proof fn lemma_all_layers(
    levels: Seq<usize>,
    base: Seq<Seq<Seq<usize>>>,
    adj: Seq<Seq<Seq<usize>>>,
    node: usize,
    ep: usize,
    level: int,
    params: HnswBuildParams,
    pair: spec_fn(usize, usize) -> u32,
    end: Seq<Seq<Seq<usize>>>,
)
    requires
        level >= -1,
        levels.len() == adj.len(),
        is_ready(levels, base, adj, node, ep, level, params),
        hnsw_build::layers_linked(adj, node, ep, level, params, pair, end),
    ensures
        end.len() == adj.len(),
        forall|i: int| 0 <= i < adj.len() ==> (#[trigger] end[i]).len() == adj[i].len(),
        forall|l: int|
            0 <= l <= level ==> #[trigger] is_linked_somehow(base, end, node, params, pair, l),
        forall|i: int, l: int|
            0 <= i < adj.len() && i != node && 0 <= l <= level && l < adj[i].len() ==> only_adds(
                base[i][l],
                #[trigger] end[i][l],
                node,
                params.degree_limit(l),
            ),
        forall|i: int, l: int|
            0 <= i < adj.len() && level < l < adj[i].len() ==> #[trigger] end[i][l] == adj[i][l],
        hnsw_build::growing(levels, end, params),
    decreases level + 1,
{
    if level >= 0 {
        let (next, ep_next) = choose|next: Seq<Seq<Seq<usize>>>, ep_next: usize|
            #[trigger] hnsw_build::layer_linked(adj, node, ep, level, params, pair, next, ep_next)
                && hnsw_build::layers_linked(next, node, ep_next, level - 1, params, pair, end);
        lemma_one_layer(levels, base, adj, node, ep, level, params, pair, next, ep_next);
        lemma_all_layers(levels, base, next, node, ep_next, level - 1, params, pair, end);
        assert forall|i: int| 0 <= i < adj.len() implies (#[trigger] end[i]).len() == adj[i].len() by {
            assert(next[i].len() == base[i].len());
        }
        assert(is_linked_somehow(base, end, node, params, pair, level)) by {
            let (entry, found) = choose|entry: usize, found: Seq<ScoredNode>| #[trigger]
                is_linked_on(base, next, node, params, pair, level, entry, found);
            assert(level < next[node as int].len()) by {
                assert(hnsw::node_ok(levels, next[node as int], node as int));
            }
            assert(end[node as int][level] == next[node as int][level]);
            assert forall|v: usize| #[trigger] end[node as int][level].contains(v) implies end[v as int][level]
                == next[v as int][level] by {
                let list = next[node as int][level];
                let q = choose|q: int| 0 <= q < list.len() && list[q] == v;
                assert(hnsw::node_ok(levels, next[node as int], node as int));
                assert(hnsw::list_ok(levels, list, level));
                assert(hnsw::edge_ok(levels, list[q], level));
                assert(hnsw::node_ok(levels, next[v as int], v as int));
            }
            assert(is_linked_on(base, end, node, params, pair, level, entry, found));
        }
        assert forall|i: int, l: int|
            0 <= i < adj.len() && i != node && 0 <= l <= level && l < adj[i].len() implies only_adds(
            base[i][l],
            #[trigger] end[i][l],
            node,
            params.degree_limit(l),
        ) by {
            if l == level {
                assert(next[i].len() == base[i].len());
                assert(end[i][l] == next[i][l]);
            }
        }
        assert forall|i: int, l: int| 0 <= i < adj.len() && level < l < adj[i].len() implies
            #[trigger] end[i][l] == adj[i][l] by {
            assert(next[i].len() == base[i].len());
            assert(end[i][l] == next[i][l]);
            assert(next[i][l] == adj[i][l]);
        }
    }
}

proof fn lemma_walk(
    levels: Seq<usize>,
    adj: Seq<Seq<Seq<usize>>>,
    dist: spec_fn(usize) -> u32,
    start: ScoredNode,
    level: int,
    bottom: int,
)
    requires
        hnsw::links_ok(levels, adj),
        start.id < adj.len(),
        start.dist == dist(start.id),
        bottom >= 0,
        levels[start.id as int] >= level,
    ensures
        ({
            let end = hnsw_build::descended(adj, dist, start, level, bottom);
            &&& end.id < adj.len()
            &&& end.dist == dist(end.id)
            &&& levels[end.id as int] >= (if level < bottom {
                level
            } else {
                bottom
            })
            &&& end.id == start.id || exists|u: int, l: int| #[trigger]
                hnsw_layer::neighbors_of(adj, u, l).contains(end.id)
        }),
    decreases level - bottom + 1,
{
    if level >= bottom {
        let next = hnsw_layer::descend(adj, dist, start, level);
        hnsw_layer::descent_ends_at_local_minimum(adj, dist, start, level);
        if next != start {
            let u = choose|u: int| #[trigger]
                hnsw_layer::neighbors_of(adj, u, level).contains(next.id);
            let list = hnsw_layer::neighbors_of(adj, u, level);
            let j = choose|j: int| 0 <= j < list.len() && list[j] == next.id;
            assert(hnsw::node_ok(levels, adj[u], u));
            assert(hnsw::list_ok(levels, adj[u][level], level));
            assert(hnsw::edge_ok(levels, adj[u][level][j], level));
        }
        lemma_walk(levels, adj, dist, next, level - 1, bottom);
        let end = hnsw_build::descended(adj, dist, start, level, bottom);
        if end.id == next.id && next.id != start.id {
            assert(exists|u: int, l: int| #[trigger]
                hnsw_layer::neighbors_of(adj, u, l).contains(end.id));
        }
        if level == bottom {
            assert(end == next);
        }
    }
}

/// What a graph of at least one node becomes when a node comes to it: on each level that they share
/// the node is linked with all that it selects from what a search on this level finds, and they know
/// of it. The lists of the other nodes change on these levels only; nothing but the new node comes
/// to them, and something goes only where a list is full.
pub open spec fn takes_in(
    before: GraphModel,
    after: GraphModel,
    node: usize,
    pair: spec_fn(usize, usize) -> u32,
) -> bool {
    let level = after.levels[node as int] as int;
    let top = before.max_observed_level as int;
    let first = if level < top {
        level
    } else {
        top
    };
    let base = before.adjacency.push(
        Seq::new((level + 1) as nat, |l: int| Seq::<usize>::empty()),
    );
    &&& after.levels.len() == node + 1
    &&& after.levels.take(node as int) == before.levels
    &&& after.adjacency.len() == node + 1
    &&& forall|l: int|
        0 <= l <= first ==> #[trigger] is_linked_somehow(
            base,
            after.adjacency,
            node,
            before.params,
            pair,
            l,
        )
    &&& forall|i: int, l: int|
        0 <= i < node && 0 <= l < before.adjacency[i].len() ==> only_adds(
            before.adjacency[i][l],
            #[trigger] after.adjacency[i][l],
            node,
            if l == 0 {
                before.params.m * 2
            } else {
                before.params.m as int
            },
        )
    &&& forall|i: int, l: int|
        0 <= i < node && first < l < before.adjacency[i].len()
            ==> #[trigger] after.adjacency[i][l] == before.adjacency[i][l]
    &&& after.entry_point == (if level > top {
        node
    } else {
        before.entry_point
    })
}

/// A node that comes to a graph of at least one node is linked with it, and the graph is one that
/// the next node can come to: every node has neighbours, none names itself, or one twice, and no
/// list is longer than it may be.
#[verifier::rlimit(60)]
pub proof fn new_nodes_are_linked(
    before: GraphModel,
    after: GraphModel,
    node: usize,
    pair: spec_fn(usize, usize) -> u32,
)
    requires
        hnsw_build::growth_state(before),
        before.params.m * 2 <= usize::MAX,
        node == before.levels.len(),
        node >= 1,
        hnsw_build::inserted(before, after, node, pair),
    ensures
        takes_in(before, after, node, pair),
        hnsw_build::growth_state(after),
        forall|i: int|
            0 <= i < after.levels.len() ==> (#[trigger] after.adjacency[i])[0].len() > 0,
{
    reveal(hnsw_build::growth_state);
    reveal(hnsw_build::inserted);
    let params = before.params;
    let level = hnsw_build::level_of(node, params.m, params.max_level);
    let top = before.max_observed_level as int;
    let base = hnsw_build::with_new_node(before.adjacency, level);
    let levels = before.levels.push(level);
    let dist = hnsw_link::distances_from(pair, node);
    let start = ScoredNode { id: before.entry_point, dist: pair(node, before.entry_point) };
    let ep = hnsw_build::descended(base, dist, start, top, level + 1).id;
    let first = if level < top {
        level as int
    } else {
        top
    };
    hnsw_build::lemma_new_node(before.levels, before.adjacency, params, level);
    hnsw_build::lemma_new_node_unnamed(before.levels, before.adjacency, level, node, first + 1);
    hnsw_build::lemma_links_in_range(before.levels, before.adjacency);
    assert(before.entry_point < node);
    assert(levels[before.entry_point as int] == before.levels[before.entry_point as int]);
    lemma_walk(levels, base, dist, start, top, level + 1);
    assert(ep != node) by {
        if ep == node {
            let (u, l) = choose|u: int, l: int| #[trigger]
                hnsw_layer::neighbors_of(base, u, l).contains(ep);
            let list = hnsw_layer::neighbors_of(base, u, l);
            let j = choose|j: int| 0 <= j < list.len() && list[j] == ep;
            if u < node {
                assert(base[u] == before.adjacency[u]);
                assert(before.adjacency[u][l][j] < before.adjacency.len());
            } else {
                assert(base[u][l].len() == 0);
            }
        }
    }
    assert forall|l: int| 0 <= l <= first implies (#[trigger] base[node as int][l]).len() == 0 by {}
    assert(is_ready(levels, base, base, node, ep, first, params));
    lemma_all_layers(levels, base, base, node, ep, first, params, pair, after.adjacency);
    assert(after.levels.take(node as int) =~= before.levels);
    assert(base =~= before.adjacency.push(
        Seq::new((level + 1) as nat, |l: int| Seq::<usize>::empty()),
    ));
    assert forall|i: int, l: int|
        0 <= i < node && 0 <= l < before.adjacency[i].len() implies only_adds(
        before.adjacency[i][l],
        #[trigger] after.adjacency[i][l],
        node,
        if l == 0 {
            params.m * 2
        } else {
            params.m as int
        },
    ) by {
        assert(base[i] == before.adjacency[i]);
        if l > first {
            assert(after.adjacency[i][l] == base[i][l]);
        } else {
            assert(only_adds(
                base[i][l],
                after.adjacency[i][l],
                node,
                params.degree_limit(l),
            ));
        }
    }
    assert forall|i: int, l: int| 0 <= i < node && first < l < before.adjacency[i].len() implies
        #[trigger] after.adjacency[i][l] == before.adjacency[i][l] by {
        assert(base[i] == before.adjacency[i]);
        assert(after.adjacency[i][l] == base[i][l]);
    }
    assert(after.levels =~= levels);
    assert(takes_in(before, after, node, pair));
    assert(is_linked_somehow(base, after.adjacency, node, params, pair, 0));
    lemma_linked_have_neighbours(base, after.adjacency, node, params, pair);
    assert forall|i: int| 0 <= i < node implies only_adds(
        before.adjacency[i][0],
        (#[trigger] after.adjacency[i])[0],
        node,
        params.m * 2,
    ) by {
        assert(hnsw::node_ok(before.levels, before.adjacency[i], i));
        assert(only_adds(before.adjacency[i][0], after.adjacency[i][0], node, params.m * 2));
    }
    lemma_none_stands_alone(before.adjacency, levels, after.adjacency, node, params);
    assert(hnsw::top_level(levels) == (if level > top {
        level as int
    } else {
        top
    })) by {
        assert(levels.drop_last() =~= before.levels);
    }
    assert forall|i: int| 0 <= i < levels.len() implies #[trigger] after.levels[i]
        == hnsw_build::level_of(i as usize, params.m, params.max_level) by {
        if i < node {
            assert(before.levels[i] == levels[i]);
        }
    }
}

proof fn lemma_linked_have_neighbours(
    base: Seq<Seq<Seq<usize>>>,
    after: Seq<Seq<Seq<usize>>>,
    node: usize,
    params: HnswBuildParams,
    pair: spec_fn(usize, usize) -> u32,
)
    requires
        params.m >= 1,
        is_linked_somehow(base, after, node, params, pair, 0),
    ensures
        after[node as int][0].len() > 0,
        forall|v: usize| #[trigger]
            after[node as int][0].contains(v) ==> after[v as int][0].len() > 0,
{
    let (entry, found) = choose|entry: usize, found: Seq<ScoredNode>| #[trigger]
        is_linked_on(base, after, node, params, pair, 0, entry, found);
    assert forall|v: usize| #[trigger] after[node as int][0].contains(v) implies after[v as int][0].len()
        > 0 by {
        assert(knows(after[v as int][0], v, node, params.m * 2, pair));
    }
}

proof fn lemma_neighbours_stay(before: Seq<usize>, after: Seq<usize>, node: usize, max: int)
    requires
        only_adds(before, after, node, max),
        before.len() > 0,
        max >= 1,
    ensures
        after.len() > 0,
{
    assert(before.contains(before[0]));
    if after.len() != max {
        assert(after.contains(before[0]));
    }
}

// With a second node there are neighbours for every node.
proof fn lemma_none_stands_alone(
    before: Seq<Seq<Seq<usize>>>,
    levels: Seq<usize>,
    adj: Seq<Seq<Seq<usize>>>,
    node: usize,
    params: HnswBuildParams,
)
    requires
        params.m >= 1,
        node >= 1,
        levels.len() == node + 1,
        before.len() == node,
        hnsw_build::growing(levels, adj, params),
        forall|i: int|
            0 <= i < node ==> only_adds(
                before[i][0],
                (#[trigger] adj[i])[0],
                node,
                params.m * 2,
            ),
        node >= 2 ==> forall|i: int| 0 <= i < node ==> (#[trigger] before[i])[0].len() > 0,
        adj[node as int][0].len() > 0,
        forall|v: usize| #[trigger]
            adj[node as int][0].contains(v) ==> adj[v as int][0].len() > 0,
    ensures
        forall|i: int| 0 <= i < levels.len() ==> (#[trigger] adj[i])[0].len() > 0,
{
    assert forall|i: int| 0 <= i < levels.len() implies (#[trigger] adj[i])[0].len() > 0 by {
        if i < node {
            if node >= 2 {
                assert(before[i][0].len() > 0);
                lemma_neighbours_stay(before[i][0], adj[i][0], node, params.m * 2);
            } else {
                let list = adj[node as int][0];
                assert(hnsw::node_ok(levels, adj[node as int], node as int));
                assert(hnsw::list_ok(levels, adj[node as int][0], 0));
                assert(hnsw::edge_ok(levels, list[0], 0));
                assert(hnsw_build::tidy_list(adj[node as int][0], node as int, 0, params));
                assert(list[0] != node as int);
                assert(list[0] == 0);
                assert(list.contains(list[0]));
            }
        }
    }
}

/// The graphs through which a graph grows, from an empty one on: a node comes at every step, and
/// from the second on each is linked with the graph that it comes to.
pub open spec fn are_growing(
    steps: Seq<GraphModel>,
    start: GraphModel,
    end: GraphModel,
    n: nat,
    pair: spec_fn(usize, usize) -> u32,
) -> bool {
    &&& steps.len() == n + 1
    &&& steps[0] == start
    &&& steps[n as int] == end
    &&& forall|i: int| 0 <= i <= n ==> (#[trigger] steps[i]).levels.len() == i
    &&& forall|i: int| 0 <= i <= n ==> (#[trigger] steps[i]).params == start.params
    &&& forall|i: int| 0 <= i <= n ==> (#[trigger] steps[i]).vectors == start.vectors
    &&& forall|i: int|
        1 <= i < n ==> takes_in(#[trigger] steps[i], steps[i + 1], i as usize, pair)
}

proof fn lemma_growing(
    steps: Seq<GraphModel>,
    start: GraphModel,
    end: GraphModel,
    n: nat,
    pair: spec_fn(usize, usize) -> u32,
    i: int,
)
    requires
        hnsw_build::grown_by(start, end, n, pair, steps),
        start.levels.len() == 0,
        start.adjacency.len() == 0,
        start.params == start.params.spec_sanitized(),
        n > 1 ==> start.params.m * 2 <= usize::MAX,
        0 <= i <= n,
        n <= usize::MAX,
    ensures
        steps[i].levels.len() == i,
        steps[i].params == start.params,
        steps[i].vectors == start.vectors,
        i >= 1 ==> hnsw_build::growth_state(steps[i]),
        i >= 2 ==> takes_in(steps[i - 1], steps[i], (i - 1) as usize, pair),
        i >= 2 ==> forall|v: int| 0 <= v < i ==> (#[trigger] steps[i].adjacency[v])[0].len() > 0,
    decreases i,
{
    if i > 0 {
        lemma_growing(steps, start, end, n, pair, i - 1);
        assert(hnsw_build::next_step(steps, i - 1, pair));
        let before = steps[i - 1];
        let after = steps[i];
        if i == 1 {
            reveal(hnsw_build::inserted);
            reveal(hnsw_build::growth_state);
            let params = start.params;
            let level = hnsw_build::level_of(0, params.m, params.max_level);
            assert(before.levels =~= Seq::<usize>::empty());
            assert(before.adjacency =~= Seq::<Seq<Seq<usize>>>::empty());
            assert(hnsw_build::growing(before.levels, before.adjacency, params));
            hnsw_build::lemma_new_node(before.levels, before.adjacency, params, level);
            assert(hnsw::top_level(after.levels) == level) by {
                assert(after.levels.drop_last() =~= Seq::<usize>::empty());
                assert(hnsw::top_level(after.levels.drop_last()) == 0);
            }
        } else {
            new_nodes_are_linked(before, after, (i - 1) as usize, pair);
            reveal(hnsw_build::inserted);
        }
    }
}

/// A graph is built by all its nodes, one after the other, and each is linked with the graph that it
/// comes to. In a graph of two nodes and more every node has neighbours.
pub proof fn every_node_is_linked(
    start: GraphModel,
    end: GraphModel,
    n: nat,
    pair: spec_fn(usize, usize) -> u32,
)
    requires
        hnsw_build::grown(start, end, n, pair),
        start.levels.len() == 0,
        start.adjacency.len() == 0,
        start.params == start.params.spec_sanitized(),
        n > 1 ==> start.params.m * 2 <= usize::MAX,
        n <= usize::MAX,
    ensures
        exists|steps: Seq<GraphModel>| #[trigger] are_growing(steps, start, end, n, pair),
        n >= 2 ==> forall|v: int| 0 <= v < n ==> (#[trigger] end.adjacency[v])[0].len() > 0,
{
    let steps = choose|steps: Seq<GraphModel>| #[trigger]
        hnsw_build::grown_by(start, end, n, pair, steps);
    assert forall|i: int| 0 <= i <= n implies (#[trigger] steps[i]).levels.len() == i
        && steps[i].params == start.params && steps[i].vectors == start.vectors by {
        lemma_growing(steps, start, end, n, pair, i);
    }
    assert forall|i: int| 1 <= i < n implies takes_in(
        #[trigger] steps[i],
        steps[i + 1],
        i as usize,
        pair,
    ) by {
        lemma_growing(steps, start, end, n, pair, i + 1);
    }
    lemma_growing(steps, start, end, n, pair, n as int);
    assert(are_growing(steps, start, end, n, pair));
}

/// Every list that has rows gets a graph: a node for each row, with the vector of the row, each
/// linked with the graph that it comes to.
pub proof fn every_list_gets_its_graph(
    vectors: Seq<u32>,
    count: nat,
    d: usize,
    metric: MetricType,
    params: HnswBuildParams,
    pair: spec_fn(usize, usize) -> u32,
    graph: Option<GraphModel>,
)
    requires
        list_graphs::list_grown(vectors, count, d, metric, params, pair, graph),
        count > 1 ==> params.m * 2 <= usize::MAX,
        count <= usize::MAX,
        count * d <= vectors.len(),
    ensures
        graph is Some <==> count > 0,
        graph matches Some(g) ==> {
            &&& g.d == d
            &&& g.levels.len() == count
            &&& g.vectors.len() == count * d
            &&& forall|i: int| 0 <= i < count * d ==> #[trigger] g.vectors[i] == vectors[i]
            &&& count >= 2 ==> forall|v: int|
                0 <= v < count ==> (#[trigger] g.adjacency[v])[0].len() > 0
            &&& exists|steps: Seq<GraphModel>, start: GraphModel|
                start.levels.len() == 0 && #[trigger] are_growing(steps, start, g, count, pair)
        },
{
    if let Some(g) = graph {
        let start = hnsw::empty_graph(
            vectors.take((count * d) as int),
            d,
            metric,
            params.spec_sanitized(),
        );
        every_node_is_linked(start, g, count, pair);
        let steps = choose|steps: Seq<GraphModel>| #[trigger]
            are_growing(steps, start, g, count, pair);
        lemma_same_width(start, g, count, pair);
        assert(g.vectors == start.vectors);
        assert(0 <= count * d) by (nonlinear_arith)
            requires
                0 <= d,
                0 <= count,
        ;
        assert(start.levels.len() == 0 && are_growing(steps, start, g, count, pair));
    }
}

proof fn lemma_same_width(
    start: GraphModel,
    end: GraphModel,
    n: nat,
    pair: spec_fn(usize, usize) -> u32,
)
    requires
        hnsw_build::grown(start, end, n, pair),
    ensures
        end.d == start.d,
        end.metric == start.metric,
{
    let steps = choose|steps: Seq<GraphModel>| #[trigger]
        hnsw_build::grown_by(start, end, n, pair, steps);
    lemma_width_so_far(steps, start, end, n, pair, n as int);
}

proof fn lemma_width_so_far(
    steps: Seq<GraphModel>,
    start: GraphModel,
    end: GraphModel,
    n: nat,
    pair: spec_fn(usize, usize) -> u32,
    i: int,
)
    requires
        hnsw_build::grown_by(start, end, n, pair, steps),
        0 <= i <= n,
    ensures
        steps[i].d == start.d,
        steps[i].metric == start.metric,
    decreases i,
{
    if i > 0 {
        lemma_width_so_far(steps, start, end, n, pair, i - 1);
        assert(hnsw_build::next_step(steps, i - 1, pair));
        reveal(hnsw_build::inserted);
    }
}

/// Numbers that are drawn one from the other, beginning with `first`.
pub open spec fn are_drawn_in_turn(draws: Seq<u64>, first: u64) -> bool {
    &&& draws.len() > 0
    &&& draws[0] == first
    &&& forall|i: int|
        0 <= i < draws.len() - 1 ==> draws[i + 1] == hnsw_build::mixed(#[trigger] draws[i])
}

proof fn lemma_levels(x: u64, level: usize, threshold: u64, max_level: usize) -> (draws: Seq<u64>)
    requires
        level < max_level,
    ensures
        ({
            let found = hnsw_build::level_from(x, level, threshold, max_level);
            &&& level <= found < max_level
            &&& draws.len() == found - level + 1
            &&& are_drawn_in_turn(draws, x)
            &&& forall|i: int| 0 <= i < found - level ==> #[trigger] draws[i] < threshold
            &&& found + 1 == max_level || draws.last() >= threshold
        }),
    decreases max_level - level,
{
    if level + 1 < max_level && x < threshold {
        let later = lemma_levels(
            hnsw_build::mixed(x),
            (level + 1) as usize,
            threshold,
            max_level,
        );
        let draws = seq![x] + later;
        assert forall|i: int| 0 <= i < draws.len() - 1 implies draws[i + 1] == hnsw_build::mixed(
            #[trigger] draws[i],
        ) by {
            if i > 0 {
                assert(draws[i] == later[i - 1]);
                assert(later[i - 1 + 1] == hnsw_build::mixed(later[i - 1]));
            }
        }
        let found = hnsw_build::level_from(x, level, threshold, max_level);
        assert forall|i: int| 0 <= i < found - level implies #[trigger] draws[i] < threshold by {
            if i > 0 {
                assert(draws[i] == later[i - 1]);
            }
        }
        draws
    } else {
        seq![x]
    }
}

/// A node goes up a level as long as what it draws is below one part in `m`, and there is a level
/// above; the first node stays on the lowest.
pub proof fn levels_follow_their_draws(node: usize, m: usize, max_level: usize)
    requires
        max_level >= 1,
        node + 0x9E37_79B9_7F4A_7C15 <= u64::MAX,
    ensures
        node == 0 ==> hnsw_build::level_of(node, m, max_level) == 0,
        hnsw_build::level_of(node, m, max_level) < max_level,
        node > 0 && m >= 2 && max_level >= 2 ==> exists|draws: Seq<u64>|
            {
                let level = hnsw_build::level_of(node, m, max_level);
                &&& #[trigger] are_drawn_in_turn(
                    draws,
                    hnsw_build::mixed((node + 0x9E37_79B9_7F4A_7C15) as u64),
                )
                &&& draws.len() == level + 1
                &&& forall|i: int|
                    0 <= i < level ==> #[trigger] draws[i] < 0xffff_ffff_ffff_ffffint / m as int
                &&& level + 1 == max_level || draws[level as int] >= 0xffff_ffff_ffff_ffffint / m as int
            },
{
    if node > 0 && max_level >= 2 {
        let first = hnsw_build::mixed((node as u64 + 0x9E37_79B9_7F4A_7C15) as u64);
        let divisor = if m < 2 {
            2u64
        } else {
            m as u64
        };
        let quotient = u64::MAX / divisor;
        assert(quotient >= 1) by (nonlinear_arith)
            requires
                quotient == 0xffff_ffff_ffff_ffffu64 / divisor,
                1 <= divisor,
        ;
        let draws = lemma_levels(first, 0, quotient, max_level);
    }
}

} // verus!
