//! What a search of a graph gives, told by the nodes that can be reached.
use vstd::prelude::*;

use crate::float_bits;
use crate::hnsw;
use crate::hnsw::GraphModel;
use crate::hnsw_build;
use crate::hnsw_layer;
use crate::hnsw_layer::ScoredNode;

verus! {

/// Node `v` is among the results.
pub open spec fn gives(r: Seq<(usize, u32)>, v: usize) -> bool {
    exists|i: int| 0 <= i < r.len() && (#[trigger] r[i]).0 == v
}

/// No result is farther off than node `v`, in the total order.
pub open spec fn none_beyond(r: Seq<(usize, u32)>, dist: spec_fn(usize) -> u32, v: usize) -> bool {
    forall|i: int|
        0 <= i < r.len() ==> float_bits::total_key((#[trigger] r[i]).1) <= float_bits::total_key(
            dist(v),
        )
}

/// Node `v` is not closer than any result.
pub open spec fn not_closer(r: Seq<(usize, u32)>, dist: spec_fn(usize) -> u32, v: usize) -> bool {
    forall|i: int| 0 <= i < r.len() ==> !float_bits::lt(dist(v), (#[trigger] r[i]).1)
}

/// The results are among the nodes that can be reached from `end` on the lowest level, and they are
/// enough: `k` of them, or every node that can be reached. With as wide a search as there are nodes
/// they are the closest of these, else nothing closer was left out next to them.
pub open spec fn searched_from(
    g: GraphModel,
    dist: spec_fn(usize) -> u32,
    k: usize,
    ef: usize,
    r: Seq<(usize, u32)>,
    end: usize,
) -> bool {
    &&& end < g.levels.len()
    &&& forall|i: int|
        0 <= i < r.len() ==> hnsw_layer::reachable(g.adjacency, 0, end, (#[trigger] r[i]).0)
    &&& r.len() <= k
    &&& forall|v: usize| #[trigger]
        hnsw_layer::reachable(g.adjacency, 0, end, v) ==> gives(r, v) || r.len() == k
    &&& forall|nodes: Seq<usize>| #[trigger]
        nodes.no_duplicates() && (forall|i: int|
            0 <= i < nodes.len() ==> hnsw_layer::reachable(g.adjacency, 0, end, #[trigger] nodes[i]))
            ==> r.len() >= k || r.len() >= nodes.len()
    &&& k >= g.levels.len() || ef >= g.levels.len() ==> forall|v: usize| #[trigger]
        hnsw_layer::reachable(g.adjacency, 0, end, v) ==> gives(r, v) || (r.len() == k
            && none_beyond(r, dist, v))
    &&& hnsw_layer::nan_free(dist, g.levels.len()) ==> gives(r, end) || (r.len() == k && not_closer(
        r,
        dist,
        end,
    ))
    &&& hnsw_layer::nan_free(dist, g.levels.len()) ==> forall|i: int, j: int|
        0 <= i < r.len() && 0 <= j < g.adjacency[r[i].0 as int][0].len() ==> {
            let next = #[trigger] g.adjacency[r[i].0 as int][0][j];
            gives(r, next) || (r.len() == k && not_closer(r, dist, next))
        }
}

/// A walk through the upper levels ends at a node that is not farther off than the one it began at,
/// and on the last of these levels it ends where no neighbour is closer.
pub proof fn walks_end_closer(
    adj: Seq<Seq<Seq<usize>>>,
    dist: spec_fn(usize) -> u32,
    start: ScoredNode,
    level: int,
    bottom: int,
)
    requires
        start.dist == dist(start.id),
    ensures
        ({
            let end = hnsw_build::descended(adj, dist, start, level, bottom);
            &&& end.dist == dist(end.id)
            &&& end.id == start.id || float_bits::lt(dist(end.id), dist(start.id))
            &&& level >= bottom ==> forall|j: int|
                0 <= j < hnsw_layer::neighbors_of(adj, end.id as int, bottom).len()
                    ==> !float_bits::lt(
                    #[trigger] dist(hnsw_layer::neighbors_of(adj, end.id as int, bottom)[j]),
                    dist(end.id),
                )
        }),
    decreases level - bottom + 1,
{
    if level >= bottom {
        let next = hnsw_layer::descend(adj, dist, start, level);
        hnsw_layer::descent_ends_at_local_minimum(adj, dist, start, level);
        walks_end_closer(adj, dist, next, level - 1, bottom);
    }
}

/// A walk through several levels goes through the upper ones first and then on from there.
pub proof fn walks_go_level_by_level(
    adj: Seq<Seq<Seq<usize>>>,
    dist: spec_fn(usize) -> u32,
    start: ScoredNode,
    level: int,
    bottom: int,
)
    requires
        level >= bottom,
    ensures
        hnsw_build::descended(adj, dist, start, level, bottom) == hnsw_layer::descend(
            adj,
            dist,
            hnsw_build::descended(adj, dist, start, level, bottom + 1),
            bottom,
        ),
    decreases level - bottom,
{
    reveal_with_fuel(hnsw_build::descended, 2);
    if level > bottom {
        walks_go_level_by_level(
            adj,
            dist,
            hnsw_layer::descend(adj, dist, start, level),
            level - 1,
            bottom,
        );
    }
}

proof fn lemma_at_most_all(found: Seq<ScoredNode>, nodes: Seq<usize>)
    requires
        nodes.no_duplicates(),
        forall|i: int| 0 <= i < nodes.len() ==> hnsw_layer::has_id(found, #[trigger] nodes[i]),
    ensures
        nodes.len() <= found.len(),
{
    let ids = Seq::new(found.len(), |i: int| found[i].id);
    nodes.unique_seq_to_set();
    vstd::seq_lib::seq_to_set_is_finite(ids);
    assert(nodes.to_set().subset_of(ids.to_set())) by {
        assert forall|v: usize| nodes.to_set().contains(v) implies ids.to_set().contains(v) by {
            let i = choose|i: int| 0 <= i < nodes.len() && nodes[i] == v;
            assert(hnsw_layer::has_id(found, nodes[i]));
            let q = choose|q: int| 0 <= q < found.len() && #[trigger] found[q].id == v;
            assert(ids[q] == v);
        }
    }
    vstd::set_lib::lemma_len_subset(nodes.to_set(), ids.to_set());
    ids.lemma_cardinality_of_set();
}

pub proof fn lemma_at_most_nodes(found: Seq<ScoredNode>, n: nat)
    requires
        hnsw_layer::distinct_ids(found),
        forall|i: int| 0 <= i < found.len() ==> (#[trigger] found[i]).id < n,
    ensures
        found.len() <= n,
{
    let ids = Seq::new(found.len(), |i: int| found[i].id as int);
    assert(ids.no_duplicates()) by {
        assert forall|i: int, j: int| 0 <= i < ids.len() && 0 <= j < ids.len() && i != j implies
            ids[i] != ids[j] by {
            if i < j {
                assert(found[i].id != found[j].id);
            } else {
                assert(found[j].id != found[i].id);
            }
        }
    }
    ids.unique_seq_to_set();
    let all = vstd::set_lib::set_int_range(0, n as int);
    vstd::set_lib::lemma_int_range(0, n as int);
    assert(ids.to_set().subset_of(all)) by {
        assert forall|v: int| ids.to_set().contains(v) implies all.contains(v) by {
            let i = choose|i: int| 0 <= i < ids.len() && ids[i] == v;
            assert(found[i].id < n);
        }
    }
    vstd::set_lib::lemma_len_subset(ids.to_set(), all);
}

/// A search of a graph begins at a node that is not farther off than the entry point, and gives
/// `k` of the nodes that can be reached from there on the lowest level, or all of them where there
/// are no more.
pub proof fn searches_give_enough(
    g: GraphModel,
    dist: spec_fn(usize) -> u32,
    k: usize,
    ef: usize,
    r: Seq<(usize, u32)>,
)
    requires
        g.well_formed(),
        hnsw::search_found(g, dist, k, ef, r),
    ensures
        g.levels.len() == 0 || k == 0 ==> r.len() == 0,
        g.levels.len() > 0 && k > 0 ==> exists|end: usize|
            {
                &&& #[trigger] searched_from(g, dist, k, ef, r, end)
                &&& end == g.entry_point || float_bits::lt(dist(end), dist(g.entry_point))
                &&& g.max_observed_level >= 1 ==> forall|j: int|
                    0 <= j < hnsw_layer::neighbors_of(g.adjacency, end as int, 1).len()
                        ==> !float_bits::lt(
                        #[trigger] dist(hnsw_layer::neighbors_of(g.adjacency, end as int, 1)[j]),
                        dist(end),
                    )
            },
{
    if g.levels.len() > 0 && k > 0 {
        let start = ScoredNode { id: g.entry_point, dist: dist(g.entry_point) };
        let ep = hnsw_build::descended(g.adjacency, dist, start, g.max_observed_level as int, 1);
        walks_end_closer(g.adjacency, dist, start, g.max_observed_level as int, 1);
        let width: nat = if ef < k {
            k as nat
        } else {
            ef as nat
        };
        let end = ep.id;
        let n = g.levels.len();
        let found = choose|found: Seq<ScoredNode>|
            #[trigger] hnsw_layer::layer_found(g.adjacency, dist, end, width, 0, found) && r
                == if found.len() <= k {
                hnsw::as_pairs(found)
            } else {
                hnsw::as_pairs(found).take(k as int)
            };
        lemma_at_most_nodes(found, n);
        assert(end < n) by {
            assert(found[0].id < g.adjacency.len());
            let path = choose|path: Seq<usize>|
                hnsw_layer::is_path(g.adjacency, 0, path, end, found[0].id);
            if path.len() > 1 {
                let i: int = 0;
                assert(hnsw_layer::neighbors_of(g.adjacency, path[i] as int, 0).contains(path[i + 1]));
            }
        }
        assert forall|i: int| 0 <= i < r.len() implies (#[trigger] r[i]) == (
            found[i].id,
            found[i].dist,
        ) by {}
        assert(r.len() == if found.len() <= k {
            found.len() as int
        } else {
            k as int
        });
        // A node that was found is given, or all that is given is at least as close.
        assert forall|v: usize| #[trigger] hnsw_layer::has_id(found, v) implies gives(r, v) || (
        r.len() == k && none_beyond(r, dist, v) && not_closer(r, dist, v)) by {
            let q = choose|q: int| 0 <= q < found.len() && #[trigger] found[q].id == v;
            if q < r.len() {
                assert(r[q].0 == v);
            } else {
                assert(found[q].dist == dist(v));
                assert forall|i: int| 0 <= i < r.len() implies float_bits::total_key(
                    (#[trigger] r[i]).1,
                ) <= float_bits::total_key(dist(v)) && !float_bits::lt(dist(v), r[i].1) by {
                    assert(float_bits::total_key(found[i].dist) <= float_bits::total_key(
                        found[q].dist,
                    ));
                }
            }
        }
        // A node that is accounted for is given, or nothing that is given is farther off.
        assert forall|v: usize|
            hnsw_layer::nan_free(dist, n) && #[trigger] hnsw_layer::accounted(
                found,
                dist,
                g.adjacency.len(),
                width,
                v,
            ) implies gives(r, v) || (r.len() == k && not_closer(r, dist, v)) by {
            if !hnsw_layer::has_id(found, v) {
                let last = found.len() - 1;
                assert forall|i: int| 0 <= i < r.len() implies !float_bits::lt(
                    dist(v),
                    (#[trigger] r[i]).1,
                ) by {
                    assert(float_bits::total_key(found[i].dist) <= float_bits::total_key(
                        found[last].dist,
                    ));
                    assert(found[i].id < n && found[last].id < n);
                    assert(!float_bits::is_nan(dist(found[i].id)));
                    assert(!float_bits::is_nan(dist(found[last].id)));
                    assert(found[i].dist == dist(found[i].id));
                    assert(found[last].dist == dist(found[last].id));
                }
            }
        }
        assert forall|i: int| 0 <= i < r.len() implies hnsw_layer::reachable(
            g.adjacency,
            0,
            end,
            (#[trigger] r[i]).0,
        ) by {
            assert(found[i].id < g.adjacency.len());
        }
        assert forall|v: usize| #[trigger]
            hnsw_layer::reachable(g.adjacency, 0, end, v) && found.len()
                < width implies hnsw_layer::has_id(found, v) by {
            hnsw_layer::short_search_is_complete(g.adjacency, dist, end, width, 0, found, v);
        }
        assert forall|nodes: Seq<usize>| #[trigger]
            nodes.no_duplicates() && (forall|i: int|
                0 <= i < nodes.len() ==> hnsw_layer::reachable(
                    g.adjacency,
                    0,
                    end,
                    #[trigger] nodes[i],
                )) implies r.len() >= k || r.len() >= nodes.len() by {
            if found.len() < width {
                assert forall|i: int| 0 <= i < nodes.len() implies hnsw_layer::has_id(
                    found,
                    #[trigger] nodes[i],
                ) by {
                    assert(hnsw_layer::reachable(g.adjacency, 0, end, nodes[i]));
                }
                lemma_at_most_all(found, nodes);
            }
        }
        if k >= n || ef >= n {
            assert forall|v: usize| #[trigger]
                hnsw_layer::reachable(g.adjacency, 0, end, v) implies gives(r, v) || (r.len() == k
                && none_beyond(r, dist, v)) by {
                if found.len() < width {
                    assert(hnsw_layer::has_id(found, v));
                } else {
                    lemma_all_found(g, found, end, v);
                    assert(hnsw_layer::has_id(found, v));
                }
            }
        }
        if hnsw_layer::nan_free(dist, n) {
            assert(hnsw_layer::accounted(found, dist, g.adjacency.len(), width, end));
            assert forall|i: int, j: int|
                0 <= i < r.len() && 0 <= j < g.adjacency[r[i].0 as int][0].len() implies {
                let next = #[trigger] g.adjacency[r[i].0 as int][0][j];
                gives(r, next) || (r.len() == k && not_closer(r, dist, next))
            } by {
                assert(found[i].id < g.adjacency.len());
                assert(r[i].0 == found[i].id);
                assert(hnsw::node_ok(g.levels, g.adjacency[found[i].id as int], found[i].id as int));
                let list = hnsw_layer::neighbors_of(g.adjacency, found[i].id as int, 0);
                assert(hnsw_layer::accounted(found, dist, g.adjacency.len(), width, list[j]));
            }
        }
        assert(searched_from(g, dist, k, ef, r, end));
    }
}

/// As many different nodes as there are: every node is among them.
proof fn lemma_all_found(g: GraphModel, found: Seq<ScoredNode>, end: usize, v: usize)
    requires
        g.well_formed(),
        hnsw_layer::distinct_ids(found),
        forall|i: int| 0 <= i < found.len() ==> (#[trigger] found[i]).id < g.levels.len(),
        found.len() == g.levels.len(),
        end < g.levels.len(),
        hnsw_layer::reachable(g.adjacency, 0, end, v),
    ensures
        hnsw_layer::has_id(found, v),
{
    let n = g.levels.len();
    let path = choose|path: Seq<usize>| hnsw_layer::is_path(g.adjacency, 0, path, end, v);
    assert(v < n) by {
        if path.len() > 1 {
            let i = path.len() - 2;
            assert(hnsw_layer::neighbors_of(g.adjacency, path[i] as int, 0).contains(path[i + 1]));
            let list = hnsw_layer::neighbors_of(g.adjacency, path[i] as int, 0);
            let j = choose|j: int| 0 <= j < list.len() && list[j] == v;
            assert(hnsw::node_ok(g.levels, g.adjacency[path[i] as int], path[i] as int));
            assert(hnsw::list_ok(g.levels, g.adjacency[path[i] as int][0], 0));
            assert(hnsw::edge_ok(g.levels, list[j], 0));
        }
    }
    if !hnsw_layer::has_id(found, v) {
        let more = found.push(ScoredNode { id: v, dist: 0 });
        assert forall|i: int, j: int| 0 <= i < j < more.len() implies #[trigger] more[i].id
            != #[trigger] more[j].id by {
            if j < found.len() {
                assert(found[i].id != found[j].id);
            } else {
                assert(found[i].id != v);
            }
        }
        assert forall|i: int| 0 <= i < more.len() implies (#[trigger] more[i]).id < n by {
            if i < found.len() {
                assert(found[i].id < n);
            }
        }
        lemma_at_most_nodes(more, n);
    }
}

} // verus!
