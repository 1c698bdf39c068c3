//! Giving the nodes of a graph other numbers.
use vstd::prelude::*;

use crate::distance::MetricType;
use crate::error::IndexError;
use crate::hnsw;
use crate::hnsw::{GraphModel, HnswBuildParams, HnswGraph};
use crate::hnsw_layer;
use crate::sort;

verus! {

/// The last place where `order` names `old`; zero where it does not.
pub open spec fn last_place(order: Seq<usize>, old: usize) -> usize
    decreases order.len(),
{
    if order.len() == 0 {
        0
    } else if order.last() == old {
        (order.len() - 1) as usize
    } else {
        last_place(order.drop_last(), old)
    }
}

/// For each old number the new one.
pub open spec fn inverse(order: Seq<usize>) -> Seq<usize> {
    Seq::new(order.len(), |old: int| last_place(order, old as usize))
}

/// `order` names each of its positions once.
pub open spec fn is_permutation(order: Seq<usize>) -> bool {
    &&& order.no_duplicates()
    &&& forall|i: int| 0 <= i < order.len() ==> #[trigger] order[i] < order.len()
    &&& forall|v: usize| v < order.len() ==> #[trigger] order.contains(v)
}

proof fn lemma_last_place(order: Seq<usize>, old: usize)
    requires
        order.len() <= usize::MAX,
    ensures
        order.contains(old) ==> last_place(order, old) < order.len() && order[last_place(
            order,
            old,
        ) as int] == old,
    decreases order.len(),
{
    if order.len() > 0 && order.last() != old {
        lemma_last_place(order.drop_last(), old);
        if order.contains(old) {
            let i = choose|i: int| 0 <= i < order.len() && order[i] == old;
            assert(order.drop_last()[i] == old);
        }
    }
}

/// Renumbering there and back gives the number itself.
pub proof fn inverse_undoes_order(order: Seq<usize>, i: int)
    requires
        is_permutation(order),
        order.len() <= usize::MAX,
        0 <= i < order.len(),
    ensures
        inverse(order)[order[i] as int] == i,
        inverse(order)[i] < order.len(),
        order[inverse(order)[i] as int] == i,
{
    lemma_last_place(order, order[i]);
    assert(order.contains(order[i]));
    lemma_last_place(order, i as usize);
    assert(order.contains(i as usize));
}

/// For each old number the new one.
pub fn old_to_new_order(order: &Vec<usize>) -> (r: Vec<usize>)
    requires
        forall|i: int| 0 <= i < order@.len() ==> #[trigger] order@[i] < order@.len(),
    ensures
        r@ == inverse(order@),
{
    let n: usize = order.len();
    let mut r: Vec<usize> = vec![0; n];
    assert(order@.take(0) =~= Seq::<usize>::empty());
    for i in 0..n
        invariant
            n == order@.len(),
            r@.len() == n,
            forall|i: int| 0 <= i < n ==> #[trigger] order@[i] < n,
            forall|old: int|
                0 <= old < n ==> #[trigger] r@[old] == last_place(
                    order@.take(i as int),
                    old as usize,
                ),
    {
        r.set(order[i], i);
        assert(order@.take(i + 1).drop_last() =~= order@.take(i as int));
    }
    assert(order@.take(n as int) =~= order@);
    assert(r@ =~= inverse(order@));
    r
}

/// The neighbours under their new numbers.
pub open spec fn renamed(list: Seq<usize>, names: Seq<usize>) -> Seq<usize> {
    Seq::new(list.len(), |j: int| names[list[j] as int])
}

pub open spec fn renamed_lists(lists: Seq<Seq<usize>>, names: Seq<usize>) -> Seq<Seq<usize>> {
    Seq::new(lists.len(), |l: int| renamed(lists[l], names))
}

/// The lists of all nodes in their new order, with the new numbers.
pub open spec fn renumbered(
    adj: Seq<Seq<Seq<usize>>>,
    order: Seq<usize>,
    names: Seq<usize>,
) -> Seq<Seq<Seq<usize>>> {
    Seq::new(order.len(), |i: int| renamed_lists(adj[order[i] as int], names))
}

/// The graph with its nodes in another order, over the given vectors.
pub open spec fn reordered(
    g: GraphModel,
    order: Seq<usize>,
    vectors: Seq<u32>,
    d: usize,
    metric: MetricType,
    params: HnswBuildParams,
) -> GraphModel {
    GraphModel {
        d,
        metric,
        vectors,
        levels: sort::picked(g.levels, order),
        adjacency: renumbered(g.adjacency, order, inverse(order)),
        entry_point: inverse(order)[g.entry_point as int],
        max_observed_level: g.max_observed_level,
        params: params.spec_sanitized(),
    }
}

proof fn lemma_top_level_kept(levels: Seq<usize>, order: Seq<usize>)
    requires
        is_permutation(order),
        order.len() == levels.len(),
        levels.len() <= usize::MAX,
    ensures
        hnsw::top_level(sort::picked(levels, order)) == hnsw::top_level(levels),
{
    let other = sort::picked(levels, order);
    hnsw::lemma_top_level(levels);
    hnsw::lemma_top_level(other);
    if levels.len() > 0 {
        let i = choose|i: int|
            0 <= i < levels.len() && #[trigger] levels[i] == hnsw::top_level(levels);
        assert(order.contains(i as usize));
        let k = choose|k: int| 0 <= k < order.len() && order[k] == i as usize;
        assert(other[k] == levels[i]);
        let j = choose|j: int|
            0 <= j < other.len() && #[trigger] other[j] == hnsw::top_level(other);
        assert(order[j] < levels.len());
        assert(levels[order[j] as int] == other[j]);
    }
}

/// Node `i` has its level under its new number, and its `j`-th edge on level `l` leads to the node
/// that it led to.
pub open spec fn edge_kept(
    g: GraphModel,
    h: GraphModel,
    order: Seq<usize>,
    i: int,
    l: int,
    j: int,
) -> bool {
    let at = inverse(order)[i] as int;
    h.levels[at] == g.levels[i] && order[h.adjacency[at][l][j] as int] == g.adjacency[i][l][j]
}

/// A graph whose nodes are put into another order is still a graph: each node has its level, its
/// edges lead to the nodes that they led to, and it is accepted.
pub proof fn reordering_keeps_the_graph(
    g: GraphModel,
    order: Seq<usize>,
    vectors: Seq<u32>,
    d: usize,
    metric: MetricType,
    params: HnswBuildParams,
)
    requires
        g.well_formed(),
        is_permutation(order),
        order.len() == g.levels.len(),
        0 < order.len() <= usize::MAX,
        vectors.len() == order.len() * d,
        vectors.len() <= usize::MAX,
    ensures
        reordered(g, order, vectors, d, metric, params).well_formed(),
        forall|i: int, l: int, j: int|
            0 <= i < order.len() && 0 <= l < g.adjacency[i].len() && 0 <= j
                < g.adjacency[i][l].len() ==> #[trigger] edge_kept(
                g,
                reordered(g, order, vectors, d, metric, params),
                order,
                i,
                l,
                j,
            ),
        forall|e: IndexError|
            !#[trigger] hnsw::parts_refused(
                vectors.len(),
                order.len() as usize,
                d,
                reordered(g, order, vectors, d, metric, params).levels,
                reordered(g, order, vectors, d, metric, params).adjacency,
                reordered(g, order, vectors, d, metric, params).entry_point,
                g.max_observed_level,
                e,
            ),
{
    let h = reordered(g, order, vectors, d, metric, params);
    lemma_top_level_kept(g.levels, order);
    inverse_undoes_order(order, g.entry_point as int);
    assert forall|i: int| 0 <= i < h.levels.len() implies hnsw::node_ok(
        h.levels,
        #[trigger] h.adjacency[i],
        i,
    ) by {
        let o = order[i] as int;
        assert(order[i] < order.len());
        assert(hnsw::node_ok(g.levels, g.adjacency[o], o));
        assert forall|l: int| 0 <= l < h.adjacency[i].len() implies hnsw::list_ok(
            h.levels,
            #[trigger] h.adjacency[i][l],
            l,
        ) by {
            assert(hnsw::list_ok(g.levels, g.adjacency[o][l], l));
            assert forall|j: int| 0 <= j < h.adjacency[i][l].len() implies hnsw::edge_ok(
                h.levels,
                #[trigger] h.adjacency[i][l][j],
                l,
            ) by {
                assert(hnsw::edge_ok(g.levels, g.adjacency[o][l][j], l));
                inverse_undoes_order(order, g.adjacency[o][l][j] as int);
            }
        }
    }
    assert(hnsw::links_ok(h.levels, h.adjacency));
    assert forall|i: int, l: int, j: int|
        0 <= i < order.len() && 0 <= l < g.adjacency[i].len() && 0 <= j
            < g.adjacency[i][l].len() implies #[trigger] edge_kept(g, h, order, i, l, j) by {
        inverse_undoes_order(order, i);
        assert(hnsw::node_ok(g.levels, g.adjacency[i], i));
        assert(hnsw::list_ok(g.levels, g.adjacency[i][l], l));
        assert(hnsw::edge_ok(g.levels, g.adjacency[i][l][j], l));
        inverse_undoes_order(order, g.adjacency[i][l][j] as int);
    }
    assert forall|e: IndexError|
        !#[trigger] hnsw::parts_refused(
            vectors.len(),
            order.len() as usize,
            d,
            h.levels,
            h.adjacency,
            h.entry_point,
            g.max_observed_level,
            e,
        ) by {
        assert forall|node: int| !#[trigger] hnsw::first_bad_node(h.levels, h.adjacency, node, e) by {
            if 0 <= node < h.levels.len() {
                assert(hnsw::node_ok(h.levels, h.adjacency[node], node));
                assert forall|l: int, j: int|
                    !#[trigger] hnsw::first_bad_edge(
                        h.levels,
                        h.adjacency[node],
                        node,
                        l,
                        j,
                        e,
                    ) by {
                    if 0 <= l < h.adjacency[node].len() && 0 <= j < h.adjacency[node][l].len() {
                        assert(hnsw::list_ok(h.levels, h.adjacency[node][l], l));
                        assert(hnsw::edge_ok(h.levels, h.adjacency[node][l][j], l));
                    }
                }
            }
        }
    }
}

/// The neighbours under their new numbers.
fn rename(list: &Vec<usize>, names: &Vec<usize>) -> (r: Vec<usize>)
    requires
        forall|j: int| 0 <= j < list@.len() ==> #[trigger] list@[j] < names@.len(),
    ensures
        r@ == renamed(list@, names@),
{
    let mut r: Vec<usize> = Vec::new();
    for j in 0..list.len()
        invariant
            forall|j: int| 0 <= j < list@.len() ==> #[trigger] list@[j] < names@.len(),
            r@ == renamed(list@, names@).take(j as int),
    {
        r.push(names[list[j]]);
        assert(r@ =~= renamed(list@, names@).take(j + 1));
    }
    assert(r@ =~= renamed(list@, names@));
    r
}

/// Puts the nodes of a graph into another order, over the given vectors.
pub fn reorder_graph(
    graph: &HnswGraph,
    order: &Vec<usize>,
    vectors: Vec<u32>,
    d: usize,
    metric: MetricType,
    hnsw_params: HnswBuildParams,
) -> (r: Result<HnswGraph, IndexError>)
    requires
        graph@.well_formed(),
        is_permutation(order@),
        order@.len() == graph@.levels.len(),
        order@.len() > 0,
        vectors@.len() == order@.len() * d,
    ensures
        r matches Ok(g) && g@ == reordered(graph@, order@, vectors@, d, metric, hnsw_params),
{
    let ghost g = graph@;
    let names: Vec<usize> = old_to_new_order(order);
    let old_levels: &[usize] = graph.levels();
    let old_lists: &Vec<Vec<Vec<usize>>> = graph.neighbors();
    let n: usize = order.len();
    let mut levels: Vec<usize> = Vec::new();
    let mut neighbors: Vec<Vec<Vec<usize>>> = Vec::new();
    for i in 0..n
        invariant
            n == order@.len(),
            g == graph@,
            g.well_formed(),
            is_permutation(order@),
            n == g.levels.len(),
            names@ == inverse(order@),
            old_levels@ == g.levels,
            hnsw_layer::adjacency_of(old_lists@) == g.adjacency,
            levels@ == sort::picked(g.levels, order@).take(i as int),
            neighbors@.len() == i,
            forall|k: int|
                0 <= k < i ==> hnsw_layer::adjacency_of(neighbors@)[k] == renamed_lists(
                    g.adjacency[#[trigger] order@[k] as int],
                    names@,
                ),
    {
        let old: usize = order[i];
        assert(hnsw::node_ok(g.levels, g.adjacency[old as int], old as int));
        levels.push(old_levels[old]);
        assert(levels@ =~= sort::picked(g.levels, order@).take(i + 1));
        let lists: &Vec<Vec<usize>> = &old_lists[old];
        let mut renumbered_lists: Vec<Vec<usize>> = Vec::new();
        let ghost here = g.adjacency[old as int];
        for l in 0..lists.len()
            invariant
                here.len() == lists@.len(),
                forall|l: int| 0 <= l < here.len() ==> (#[trigger] lists@[l])@ == here[l],
                hnsw::node_ok(g.levels, here, old as int),
                names@.len() == g.levels.len(),
                renumbered_lists@.len() == l,
                forall|k: int|
                    0 <= k < l ==> (#[trigger] renumbered_lists@[k])@ == renamed(here[k], names@),
        {
            assert(lists@[l as int]@ == here[l as int]);
            assert(hnsw::list_ok(g.levels, here[l as int], l as int));
            assert forall|j: int| 0 <= j < lists@[l as int]@.len() implies
                #[trigger] lists@[l as int]@[j] < names@.len() by {
                assert(hnsw::edge_ok(g.levels, here[l as int][j], l as int));
            }
            renumbered_lists.push(rename(&lists[l], &names));
        }
        let ghost before = neighbors@;
        neighbors.push(renumbered_lists);
        proof {
            assert forall|k: int| 0 <= k < i + 1 implies hnsw_layer::adjacency_of(neighbors@)[k]
                == renamed_lists(g.adjacency[#[trigger] order@[k] as int], names@) by {
                if k < i {
                    assert(hnsw_layer::adjacency_of(before)[k] == hnsw_layer::adjacency_of(
                        neighbors@,
                    )[k]);
                } else {
                    assert(hnsw_layer::adjacency_of(neighbors@)[k] =~= renamed_lists(
                        g.adjacency[order@[k] as int],
                        names@,
                    ));
                }
            }
        }
    }
    let entry: usize = graph.entry_point();
    proof {
        assert(levels@ =~= sort::picked(g.levels, order@));
        assert(hnsw_layer::adjacency_of(neighbors@) =~= renumbered(
            g.adjacency,
            order@,
            inverse(order@),
        ));
        assert(vectors@.len() == vectors.len());
        reordering_keeps_the_graph(g, order@, vectors@, d, metric, hnsw_params);
    }
    HnswGraph::from_parts(
        vectors,
        n,
        d,
        metric,
        levels,
        neighbors,
        names[entry],
        graph.max_observed_level(),
        hnsw_params,
    )
}

} // verus!
