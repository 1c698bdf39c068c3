//! The choice of neighbours for a node and the linking of two nodes.
use vstd::prelude::*;

use crate::float_bits;
use crate::hnsw_layer;
use crate::hnsw_layer::ScoredNode;
use crate::sort;

verus! {

/// The places of the distances in the total order.
pub open spec fn distance_keys(list: Seq<ScoredNode>) -> Seq<i128> {
    Seq::new(list.len(), |i: int| float_bits::total_key(list[i].dist) as i128)
}

/// The nodes with the closest first; nodes as close as each other stay in their order.
pub open spec fn ranked(list: Seq<ScoredNode>) -> Seq<ScoredNode> {
    sort::picked(list, sort::stable_order(distance_keys(list)))
}

/// The nodes of `ids`, each with its distance.
pub open spec fn scored(ids: Seq<usize>, dist: spec_fn(usize) -> u32) -> Seq<ScoredNode> {
    Seq::new(ids.len(), |i: int| ScoredNode { id: ids[i], dist: dist(ids[i]) })
}

pub open spec fn ids_of(list: Seq<ScoredNode>) -> Seq<usize> {
    Seq::new(list.len(), |i: int| list[i].id)
}

/// The first `max` items, or all of them.
pub open spec fn at_most<T>(list: Seq<T>, max: int) -> Seq<T> {
    if list.len() <= max {
        list
    } else {
        list.take(max)
    }
}

/// The distances of one node to the others.
pub open spec fn distances_from(pair: spec_fn(usize, usize) -> u32, node: usize) -> spec_fn(
    usize,
) -> u32 {
    |x: usize| pair(node, x)
}

/// The `max` closest of `ids`, closest first.
pub open spec fn pruned(ids: Seq<usize>, dist: spec_fn(usize) -> u32, max: int) -> Seq<usize> {
    ids_of(at_most(ranked(scored(ids, dist)), max))
}

/// Some node of `chosen` is closer to `c` than `c` is to the node that looks for neighbours.
pub open spec fn shadowed(
    chosen: Seq<ScoredNode>,
    c: ScoredNode,
    pair: spec_fn(usize, usize) -> u32,
) -> bool {
    exists|j: int|
        0 <= j < chosen.len() && float_bits::lt(pair(c.id, (#[trigger] chosen[j]).id), c.dist)
}

/// Goes through the candidates from the `i`-th on: those that no chosen node shadows are chosen,
/// the others are put aside, until `max` are chosen.
pub open spec fn choose_spread(
    candidates: Seq<ScoredNode>,
    i: int,
    chosen: Seq<ScoredNode>,
    aside: Seq<ScoredNode>,
    max: int,
    pair: spec_fn(usize, usize) -> u32,
) -> (Seq<ScoredNode>, Seq<ScoredNode>)
    decreases candidates.len() - i,
{
    if i < 0 || i >= candidates.len() || chosen.len() >= max {
        (chosen, aside)
    } else if shadowed(chosen, candidates[i], pair) {
        choose_spread(candidates, i + 1, chosen, aside.push(candidates[i]), max, pair)
    } else {
        choose_spread(candidates, i + 1, chosen.push(candidates[i]), aside, max, pair)
    }
}

/// Fills up with what was put aside, from the `i`-th on, until `max` are chosen.
pub open spec fn fill_up(
    aside: Seq<ScoredNode>,
    i: int,
    chosen: Seq<ScoredNode>,
    max: int,
) -> Seq<ScoredNode>
    decreases aside.len() - i,
{
    if i < 0 || i >= aside.len() || chosen.len() >= max {
        chosen
    } else if hnsw_layer::has_id(chosen, aside[i].id) {
        fill_up(aside, i + 1, chosen, max)
    } else {
        fill_up(aside, i + 1, chosen.push(aside[i]), max)
    }
}

/// The neighbours that a node takes from `candidates`.
pub open spec fn selected(
    candidates: Seq<ScoredNode>,
    max: int,
    pair: spec_fn(usize, usize) -> u32,
) -> Seq<ScoredNode> {
    let (chosen, aside) = choose_spread(
        ranked(candidates),
        0,
        Seq::empty(),
        Seq::empty(),
        max,
        pair,
    );
    fill_up(aside, 0, chosen, max)
}

pub proof fn lemma_ranked(list: Seq<ScoredNode>)
    requires
        list.len() <= usize::MAX,
    ensures
        ranked(list).len() == list.len(),
        hnsw_layer::ascending(ranked(list)),
        forall|i: int| 0 <= i < list.len() ==> list.contains(#[trigger] ranked(list)[i]),
        forall|i: int| 0 <= i < list.len() ==> ranked(list).contains(#[trigger] list[i]),
        hnsw_layer::distinct_ids(list) ==> hnsw_layer::distinct_ids(ranked(list)),
{
    let keys = distance_keys(list);
    let order = sort::stable_order(keys);
    sort::stable_order_facts(keys);
    let r = ranked(list);
    assert forall|i: int, j: int| 0 <= i <= j < r.len() implies float_bits::total_key(
        #[trigger] r[i].dist,
    ) <= float_bits::total_key(#[trigger] r[j].dist) by {
        assert(keys[order[i] as int] <= keys[order[j] as int]);
    }
    assert forall|i: int| 0 <= i < list.len() implies list.contains(#[trigger] r[i]) by {
        assert(list[order[i] as int] == r[i]);
    }
    assert forall|i: int| 0 <= i < list.len() implies r.contains(#[trigger] list[i]) by {
        assert(order.contains(i as usize));
        let k = choose|k: int| 0 <= k < order.len() && order[k] == i as usize;
        assert(r[k] == list[i]);
    }
    if hnsw_layer::distinct_ids(list) {
        assert forall|i: int, j: int| 0 <= i < j < r.len() implies #[trigger] r[i].id
            != #[trigger] r[j].id by {
            assert(order[i] != order[j]);
            if order[i] < order[j] {
                assert(list[order[i] as int].id != list[order[j] as int].id);
            } else {
                assert(list[order[j] as int].id != list[order[i] as int].id);
            }
        }
    }
}

/// What is chosen comes from the candidates, once each.
proof fn lemma_choose_spread(
    candidates: Seq<ScoredNode>,
    i: int,
    chosen: Seq<ScoredNode>,
    aside: Seq<ScoredNode>,
    max: int,
    pair: spec_fn(usize, usize) -> u32,
)
    requires
        0 <= i <= candidates.len(),
        hnsw_layer::distinct_ids(candidates),
        hnsw_layer::distinct_ids(chosen + aside),
        forall|k: int|
            0 <= k < (chosen + aside).len() ==> candidates.take(i).contains(
                #[trigger] (chosen + aside)[k],
            ),
        chosen.len() <= max,
        chosen.len() + aside.len() == i,
    ensures
        ({
            let (c, a) = choose_spread(candidates, i, chosen, aside, max, pair);
            &&& hnsw_layer::distinct_ids(c + a)
            &&& forall|k: int|
                0 <= k < (c + a).len() ==> candidates.contains(#[trigger] (c + a)[k])
            &&& c.len() <= max
            &&& c.len() == max || c.len() + a.len() == candidates.len()
            &&& c.len() + a.len() <= candidates.len()
            &&& chosen.len() <= c.len()
        }),
    decreases candidates.len() - i,
{
    if i >= candidates.len() || chosen.len() >= max {
        assert forall|k: int| 0 <= k < (chosen + aside).len() implies candidates.contains(
            #[trigger] (chosen + aside)[k],
        ) by {
            let x = (chosen + aside)[k];
            assert(candidates.take(i).contains(x));
            let q = choose|q: int| 0 <= q < i && candidates.take(i)[q] == x;
            assert(candidates[q] == x);
        }
    } else {
        let x = candidates[i];
        let next = if shadowed(chosen, x, pair) {
            chosen + aside.push(x)
        } else {
            chosen.push(x) + aside
        };
        let all = chosen + aside;
        assert forall|k: int| 0 <= k < all.len() implies (#[trigger] all[k]).id != x.id by {
            assert(candidates.take(i).contains(all[k]));
            let q = choose|q: int| 0 <= q < i && candidates.take(i)[q] == all[k];
            assert(candidates[q].id != candidates[i].id);
        }
        assert forall|k: int| 0 <= k < next.len() implies candidates.take(i + 1).contains(
            #[trigger] next[k],
        ) by {
            let y = next[k];
            if y == x {
                assert(candidates.take(i + 1)[i] == x);
            } else {
                let kk = if shadowed(chosen, x, pair) || k < chosen.len() {
                    k
                } else {
                    k - 1
                };
                assert(all[kk] == y);
                let q = choose|q: int| 0 <= q < i && candidates.take(i)[q] == y;
                assert(candidates.take(i + 1)[q] == y);
            }
        }
        assert forall|a: int, b: int| 0 <= a < b < next.len() implies #[trigger] next[a].id
            != #[trigger] next[b].id by {
            if shadowed(chosen, x, pair) {
                if b < all.len() {
                    assert(next[a] == all[a] && next[b] == all[b]);
                } else {
                    assert(next[a] == all[a]);
                }
            } else {
                let p = chosen.len();
                let aa = if a < p {
                    a
                } else {
                    a - 1
                };
                let bb = if b < p {
                    b
                } else {
                    b - 1
                };
                if a == p {
                    assert(next[b] == all[bb]);
                } else if b == p {
                    assert(next[a] == all[aa]);
                } else {
                    assert(next[a] == all[aa] && next[b] == all[bb]);
                }
            }
        }
        if shadowed(chosen, x, pair) {
            lemma_choose_spread(candidates, i + 1, chosen, aside.push(x), max, pair);
        } else {
            lemma_choose_spread(candidates, i + 1, chosen.push(x), aside, max, pair);
        }
    }
}

proof fn lemma_fill_up(
    aside: Seq<ScoredNode>,
    i: int,
    chosen: Seq<ScoredNode>,
    max: int,
)
    requires
        0 <= i <= aside.len(),
        hnsw_layer::distinct_ids(chosen + aside.skip(i)),
        chosen.len() <= max,
    ensures
        ({
            let c = fill_up(aside, i, chosen, max);
            &&& hnsw_layer::distinct_ids(c)
            &&& forall|k: int|
                0 <= k < c.len() ==> chosen.contains(#[trigger] c[k]) || aside.contains(c[k])
            &&& c.len() <= max
            &&& c.len() == max || c.len() == chosen.len() + aside.len() - i
            &&& c.len() <= chosen.len() + aside.len() - i
        }),
    decreases aside.len() - i,
{
    let all = chosen + aside.skip(i);
    if i >= aside.len() || chosen.len() >= max {
        assert forall|a: int, b: int| 0 <= a < b < chosen.len() implies #[trigger] chosen[a].id
            != #[trigger] chosen[b].id by {
            assert(all[a] == chosen[a] && all[b] == chosen[b]);
        }
    } else {
        let x = aside[i];
        assert(all[chosen.len() as int] == x);
        assert(!hnsw_layer::has_id(chosen, x.id)) by {
            if hnsw_layer::has_id(chosen, x.id) {
                let q = choose|q: int| 0 <= q < chosen.len() && #[trigger] chosen[q].id == x.id;
                assert(all[q].id != all[chosen.len() as int].id);
            }
        }
        assert(chosen.push(x) + aside.skip(i + 1) =~= all);
        lemma_fill_up(aside, i + 1, chosen.push(x), max);
        let c = fill_up(aside, i, chosen, max);
        assert forall|k: int| 0 <= k < c.len() implies chosen.contains(#[trigger] c[k])
            || aside.contains(c[k]) by {
            if chosen.push(x).contains(c[k]) {
                let q = choose|q: int| 0 <= q < chosen.push(x).len() && chosen.push(x)[q] == c[k];
                if q < chosen.len() {
                    assert(chosen[q] == c[k]);
                } else {
                    assert(aside[i] == c[k]);
                }
            }
        }
    }
}

/// Of candidates that are all different, as many are selected as there is room for, each of them
/// once.
pub proof fn selection_fills_up(
    candidates: Seq<ScoredNode>,
    max: int,
    pair: spec_fn(usize, usize) -> u32,
)
    requires
        hnsw_layer::distinct_ids(candidates),
        candidates.len() <= usize::MAX,
        0 <= max,
    ensures
        selected(candidates, max, pair).len() == (if candidates.len() <= max {
            candidates.len() as int
        } else {
            max
        }),
        hnsw_layer::distinct_ids(selected(candidates, max, pair)),
        forall|k: int|
            0 <= k < selected(candidates, max, pair).len() ==> candidates.contains(
                #[trigger] selected(candidates, max, pair)[k],
            ),
{
    let r = ranked(candidates);
    lemma_ranked(candidates);
    let none = Seq::<ScoredNode>::empty();
    assert(none + none =~= none);
    lemma_choose_spread(r, 0, none, none, max, pair);
    let (c, a) = choose_spread(r, 0, none, none, max, pair);
    assert(a.skip(0) =~= a);
    lemma_fill_up(a, 0, c, max);
    let s = selected(candidates, max, pair);
    assert forall|k: int| 0 <= k < s.len() implies candidates.contains(#[trigger] s[k]) by {
        let q: int = if c.contains(s[k]) {
            choose|q: int| 0 <= q < c.len() && c[q] == s[k]
        } else {
            c.len() + choose|q: int| 0 <= q < a.len() && a[q] == s[k]
        };
        assert((c + a)[q] == s[k]);
        assert(r.contains((c + a)[q]));
        let z = choose|z: int| 0 <= z < r.len() && r[z] == s[k];
        assert(candidates.contains(r[z]));
    }
}

/// Ranks nodes by their distance.
pub fn sort_by_distance(list: &Vec<ScoredNode>) -> (r: Vec<ScoredNode>)
    ensures
        r@ == ranked(list@),
{
    let mut keys: Vec<i128> = Vec::new();
    for i in 0..list.len()
        invariant
            keys@ == distance_keys(list@).take(i as int),
    {
        keys.push(total_key_value(list[i].dist));
        assert(keys@ =~= distance_keys(list@).take(i + 1));
    }
    assert(keys@ =~= distance_keys(list@));
    let order: Vec<usize> = sort::sorted_order(keys.as_slice());
    proof {
        sort::stable_order_facts(keys@);
    }
    let mut r: Vec<ScoredNode> = Vec::new();
    for i in 0..order.len()
        invariant
            order@ == sort::stable_order(keys@),
            keys@.len() == list@.len(),
            order@.len() == list@.len(),
            forall|k: int| 0 <= k < order@.len() ==> #[trigger] order@[k] < list@.len(),
            r@ == sort::picked(list@, order@).take(i as int),
    {
        r.push(list[order[i]]);
        assert(r@ =~= sort::picked(list@, order@).take(i + 1));
    }
    assert(r@ =~= ranked(list@));
    r
}

/// The place of a pattern in the total order.
fn total_key_value(bits: u32) -> (r: i128)
    ensures
        r == float_bits::total_key(bits),
{
    if bits >= 0x8000_0000 {
        0x7fff_ffff - bits as i128
    } else {
        bits as i128
    }
}

/// The kept nodes are some of the given ones, each as often as it was given or less; there are as
/// many as there is room for.
pub proof fn lemma_pruned_members(ids: Seq<usize>, dist: spec_fn(usize) -> u32, max: int)
    requires
        ids.len() <= usize::MAX,
        0 <= max,
    ensures
        pruned(ids, dist, max).len() == (if ids.len() <= max {
            ids.len() as int
        } else {
            max
        }),
        forall|i: int|
            0 <= i < pruned(ids, dist, max).len() ==> ids.contains(
                #[trigger] pruned(ids, dist, max)[i],
            ),
        ids.no_duplicates() ==> pruned(ids, dist, max).no_duplicates(),
{
    let list = scored(ids, dist);
    lemma_ranked(list);
    let r = ranked(list);
    let p = pruned(ids, dist, max);
    assert forall|i: int| 0 <= i < p.len() implies ids.contains(#[trigger] p[i]) by {
        assert(p[i] == r[i].id);
        assert(list.contains(r[i]));
        let k = choose|k: int| 0 <= k < list.len() && list[k] == r[i];
        assert(ids[k] == p[i]);
    }
    if ids.no_duplicates() {
        assert forall|i: int, j: int| 0 <= i < j < list.len() implies #[trigger] list[i].id
            != #[trigger] list[j].id by {
            assert(ids[i] != ids[j]);
        }
        assert forall|i: int, j: int| 0 <= i < p.len() && 0 <= j < p.len() && i != j implies p[i]
            != p[j] by {
            assert(p[i] == r[i].id && p[j] == r[j].id);
            if i < j {
                assert(r[i].id != r[j].id);
            } else {
                assert(r[j].id != r[i].id);
            }
        }
    }
}

/// A copy of a list.
fn copied(list: &Vec<usize>) -> (r: Vec<usize>)
    ensures
        r@ == list@,
{
    let mut r: Vec<usize> = Vec::new();
    for i in 0..list.len()
        invariant
            r@ == list@.take(i as int),
    {
        r.push(list[i]);
        assert(r@ =~= list@.take(i + 1));
    }
    assert(r@ =~= list@);
    r
}

/// Keeps the `max` closest of `ids`.
fn pruned_neighbors<F: Fn(usize, usize) -> u32>(
    node: usize,
    ids: &Vec<usize>,
    max: usize,
    n: usize,
    distance: &F,
    Ghost(pair): Ghost<spec_fn(usize, usize) -> u32>,
) -> (r: Vec<usize>)
    requires
        hnsw_layer::pair_agrees(*distance, pair, n as nat),
        node < n,
        forall|i: int| 0 <= i < ids@.len() ==> #[trigger] ids@[i] < n,
    ensures
        r@ == pruned(ids@, distances_from(pair, node), max as int),
{
    let ghost dist = distances_from(pair, node);
    let mut list: Vec<ScoredNode> = Vec::new();
    for i in 0..ids.len()
        invariant
            dist == distances_from(pair, node),
            hnsw_layer::pair_agrees(*distance, pair, n as nat),
            node < n,
            forall|i: int| 0 <= i < ids@.len() ==> #[trigger] ids@[i] < n,
            list@ == scored(ids@, dist).take(i as int),
    {
        let id: usize = ids[i];
        let here: u32 = distance(node, id);
        list.push(ScoredNode { id, dist: here });
        assert(list@ =~= scored(ids@, dist).take(i + 1));
    }
    assert(list@ =~= scored(ids@, dist));
    let sorted: Vec<ScoredNode> = sort_by_distance(&list);
    proof {
        assert(list@.len() == list.len());
        lemma_ranked(list@);
    }
    let keep: usize = if sorted.len() <= max {
        sorted.len()
    } else {
        max
    };
    let ghost kept = at_most(sorted@, max as int);
    let mut r: Vec<usize> = Vec::new();
    for i in 0..keep
        invariant
            keep <= sorted@.len(),
            kept == at_most(sorted@, max as int),
            kept.len() == keep,
            forall|k: int| 0 <= k < keep ==> #[trigger] kept[k] == sorted@[k],
            r@ == ids_of(kept).take(i as int),
    {
        r.push(sorted[i].id);
        assert(kept[i as int] == sorted@[i as int]);
        assert(r@ =~= ids_of(kept).take(i + 1));
    }
    assert(r@ =~= ids_of(kept));
    r
}

/// Selects up to `max` neighbours: first those that no closer neighbour shadows, then the others.
pub(crate) fn select_neighbors<F: Fn(usize, usize) -> u32>(
    candidates: &Vec<ScoredNode>,
    max: usize,
    n: usize,
    distance: &F,
    Ghost(pair): Ghost<spec_fn(usize, usize) -> u32>,
) -> (r: Vec<ScoredNode>)
    requires
        hnsw_layer::pair_agrees(*distance, pair, n as nat),
        forall|i: int| 0 <= i < candidates@.len() ==> (#[trigger] candidates@[i]).id < n,
    ensures
        r@ == selected(candidates@, max as int, pair),
{
    let sorted: Vec<ScoredNode> = sort_by_distance(candidates);
    proof {
        assert(candidates@.len() == candidates.len());
        lemma_ranked(candidates@);
        assert forall|i: int| 0 <= i < sorted@.len() implies (#[trigger] sorted@[i]).id < n by {
            assert(candidates@.contains(ranked(candidates@)[i]));
        }
    }
    let mut chosen: Vec<ScoredNode> = Vec::new();
    let mut aside: Vec<ScoredNode> = Vec::new();
    let ghost none = Seq::<ScoredNode>::empty();
    let ghost target = choose_spread(sorted@, 0, none, none, max as int, pair);
    let mut i: usize = 0;
    while i < sorted.len() && chosen.len() < max
        invariant
            i <= sorted@.len(),
            hnsw_layer::pair_agrees(*distance, pair, n as nat),
            forall|k: int| 0 <= k < sorted@.len() ==> (#[trigger] sorted@[k]).id < n,
            forall|k: int| 0 <= k < chosen@.len() ==> (#[trigger] chosen@[k]).id < n,
            target == choose_spread(sorted@, i as int, chosen@, aside@, max as int, pair),
        decreases sorted@.len() - i,
    {
        let c: ScoredNode = sorted[i];
        let mut is_shadowed: bool = false;
        let mut j: usize = 0;
        while j < chosen.len() && !is_shadowed
            invariant
                j <= chosen@.len(),
                    hnsw_layer::pair_agrees(*distance, pair, n as nat),
                c.id < n,
                forall|k: int| 0 <= k < chosen@.len() ==> (#[trigger] chosen@[k]).id < n,
                is_shadowed ==> shadowed(chosen@, c, pair),
                !is_shadowed ==> forall|k: int|
                    0 <= k < j ==> !float_bits::lt(pair(c.id, (#[trigger] chosen@[k]).id), c.dist),
            decreases chosen@.len() - j + (if is_shadowed {
                0int
            } else {
                1int
            }),
        {
            let other: usize = chosen[j].id;
            let between: u32 = distance(c.id, other);
            if float_bits::less_than(between, c.dist) {
                is_shadowed = true;
                assert(float_bits::lt(pair(c.id, chosen@[j as int].id), c.dist));
            }
            j = j + 1;
        }
        if is_shadowed {
            aside.push(c);
        } else {
            chosen.push(c);
        }
        i = i + 1;
    }
    let mut k: usize = 0;
    while k < aside.len() && chosen.len() < max
        invariant
            k <= aside@.len(),
            fill_up(target.1, 0, target.0, max as int) == fill_up(
                aside@,
                k as int,
                chosen@,
                max as int,
            ),
        decreases aside@.len() - k,
    {
        let c: ScoredNode = aside[k];
        let mut found: bool = false;
        for j in 0..chosen.len()
            invariant
                found == exists|q: int| 0 <= q < j && #[trigger] chosen@[q].id == c.id,
        {
            if chosen[j].id == c.id {
                found = true;
            }
        }
        assert(found == hnsw_layer::has_id(chosen@, c.id));
        if !found {
            chosen.push(c);
        }
        k = k + 1;
    }
    chosen
}

/// The graph with another list for `node` on `level`.
pub open spec fn with_list(
    adj: Seq<Seq<Seq<usize>>>,
    node: int,
    level: int,
    list: Seq<usize>,
) -> Seq<Seq<Seq<usize>>> {
    adj.update(node, adj[node].update(level, list))
}

pub open spec fn with_member(list: Seq<usize>, id: usize) -> Seq<usize> {
    if list.contains(id) {
        list
    } else {
        list.push(id)
    }
}

/// Nodes `a` and `b` linked both ways on `level`, where `b` reaches it, each list cut down to the
/// `max` closest neighbours.
pub open spec fn linked(
    adj: Seq<Seq<Seq<usize>>>,
    a: usize,
    b: usize,
    level: int,
    max: int,
    pair: spec_fn(usize, usize) -> u32,
) -> Seq<Seq<Seq<usize>>> {
    let one = with_list(adj, a as int, level, with_member(adj[a as int][level], b));
    let two = if level < one[b as int].len() && !one[b as int][level].contains(a) {
        with_list(
            one,
            b as int,
            level,
            pruned(one[b as int][level].push(a), distances_from(pair, b), max),
        )
    } else {
        one
    };
    with_list(two, a as int, level, pruned(two[a as int][level], distances_from(pair, a), max))
}

fn holds(list: &Vec<usize>, id: usize) -> (r: bool)
    ensures
        r == list@.contains(id),
{
    for i in 0..list.len()
        invariant
            forall|k: int| 0 <= k < i ==> #[trigger] list@[k] != id,
    {
        if list[i] == id {
            assert(list@[i as int] == id);
            return true;
        }
    }
    false
}

fn set_list(neighbors: &mut Vec<Vec<Vec<usize>>>, node: usize, level: usize, list: Vec<usize>)
    requires
        node < old(neighbors)@.len(),
        level < old(neighbors)@[node as int]@.len(),
    ensures
        hnsw_layer::adjacency_of(final(neighbors)@) == with_list(
            hnsw_layer::adjacency_of(old(neighbors)@),
            node as int,
            level as int,
            list@,
        ),
        final(neighbors)@.len() == old(neighbors)@.len(),
{
    neighbors[node][level] = list;
    assert(hnsw_layer::adjacency_of(neighbors@) =~~= with_list(
        hnsw_layer::adjacency_of(old(neighbors)@),
        node as int,
        level as int,
        list@,
    ));
}

/// Links `a` and `b` on `level`.
pub(crate) fn connect<F: Fn(usize, usize) -> u32>(
    neighbors: &mut Vec<Vec<Vec<usize>>>,
    a: usize,
    b: usize,
    level: usize,
    max: usize,
    distance: &F,
    Ghost(pair): Ghost<spec_fn(usize, usize) -> u32>,
)
    requires
        a < old(neighbors)@.len(),
        b < old(neighbors)@.len(),
        a != b,
        level < old(neighbors)@[a as int]@.len(),
        hnsw_layer::in_range(hnsw_layer::adjacency_of(old(neighbors)@)),
        hnsw_layer::pair_agrees(*distance, pair, old(neighbors)@.len()),
    ensures
        hnsw_layer::adjacency_of(final(neighbors)@) == linked(
            hnsw_layer::adjacency_of(old(neighbors)@),
            a,
            b,
            level as int,
            max as int,
            pair,
        ),
        final(neighbors)@.len() == old(neighbors)@.len(),
{
    let n: usize = neighbors.len();
    let ghost adj = hnsw_layer::adjacency_of(neighbors@);
    let mut list: Vec<usize> = copied(&neighbors[a][level]);
    assert(list@ == adj[a as int][level as int]);
    if !holds(&list, b) {
        list.push(b);
    }
    assert(list@ == with_member(adj[a as int][level as int], b));
    assert forall|i: int| 0 <= i < list@.len() implies #[trigger] list@[i] < n by {
        if i < adj[a as int][level as int].len() {
            assert(adj[a as int][level as int][i] < adj.len());
        }
    }
    set_list(neighbors, a, level, list);
    let ghost one = hnsw_layer::adjacency_of(neighbors@);
    assert forall|i: int| 0 <= i < one[a as int][level as int].len() implies
        #[trigger] one[a as int][level as int][i] < n by {
        assert(one[a as int][level as int] == list@);
    }
    if level < neighbors[b].len() && !holds(&neighbors[b][level], a) {
        let mut back: Vec<usize> = copied(&neighbors[b][level]);
        back.push(a);
        assert forall|i: int| 0 <= i < back@.len() implies #[trigger] back@[i] < n by {
            if i < back@.len() - 1 {
                assert(one[b as int] == adj[b as int]);
                assert(adj[b as int][level as int][i] < adj.len());
            }
        }
        let kept: Vec<usize> = pruned_neighbors(b, &back, max, n, distance, Ghost(pair));
        set_list(neighbors, b, level, kept);
    }
    let ghost two = hnsw_layer::adjacency_of(neighbors@);
    assert(two[a as int] == one[a as int]);
    assert(neighbors@[a as int]@.len() == two[a as int].len());
    assert(adj[a as int].len() == old(neighbors)@[a as int]@.len());
    let mine: Vec<usize> = copied(&neighbors[a][level]);
    assert(mine@ == two[a as int][level as int]);
    assert forall|i: int| 0 <= i < mine@.len() implies #[trigger] mine@[i] < n by {
        assert(one[a as int][level as int][i] < n);
    }
    let kept: Vec<usize> = pruned_neighbors(a, &mine, max, n, distance, Ghost(pair));
    set_list(neighbors, a, level, kept);
}

} // verus!
