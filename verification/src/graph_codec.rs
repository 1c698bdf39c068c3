//! The stored form of a graph: a fixed header, then variable-length integers for the number of
//! nodes, the entry point, the greatest level, the level of each node, and the neighbour lists in
//! ascending order, each neighbour as its distance from the one before.
use vstd::prelude::*;

use crate::distance::MetricType;
use crate::error::IndexError;
use crate::hnsw;
use crate::hnsw::{GraphModel, HnswBuildParams, HnswGraph};
use crate::hnsw_build;
use crate::hnsw_layer;
use crate::list_graphs;
use crate::little_endian;
use crate::sort;
use crate::varint;
use crate::wire;

verus! {

pub const HNSW_GRAPH_MAGIC: u32 = 0x48574752;

pub const HNSW_GRAPH_VERSION: u32 = 1;

pub const HNSW_GRAPH_FLAG_DELTA_VARINT: u32 = 1;

pub open spec fn list_keys(list: Seq<usize>) -> Seq<i128> {
    Seq::new(list.len(), |i: int| list[i] as i128)
}

/// A list in ascending order.
pub open spec fn sorted_list(list: Seq<usize>) -> Seq<usize> {
    sort::picked(list, sort::stable_order(list_keys(list)))
}

/// The neighbour before the one at `i`; the first one counts from zero.
pub open spec fn before(list: Seq<usize>, i: int) -> usize {
    if i == 0 {
        0
    } else {
        list[i - 1]
    }
}

/// The members of an ascending list, each as its step from the one before.
pub open spec fn step_parts(list: Seq<usize>) -> Seq<Seq<u8>> {
    Seq::new(list.len(), |i: int| varint::varint_bytes((list[i] - before(list, i)) as nat))
}

pub open spec fn list_bytes(list: Seq<usize>) -> Seq<u8> {
    varint::varint_bytes(list.len()) + wire::concat(step_parts(sorted_list(list)))
}

/// The lists of one node.
pub open spec fn node_parts(lists: Seq<Seq<usize>>) -> Seq<Seq<u8>> {
    Seq::new(lists.len(), |l: int| list_bytes(lists[l]))
}

/// The nodes of a graph, each as its lists.
pub open spec fn adjacency_parts(adj: Seq<Seq<Seq<usize>>>) -> Seq<Seq<u8>> {
    Seq::new(adj.len(), |i: int| wire::concat(node_parts(adj[i])))
}

pub open spec fn level_parts(levels: Seq<usize>) -> Seq<Seq<u8>> {
    Seq::new(levels.len(), |i: int| varint::varint_bytes(levels[i] as nat))
}

pub open spec fn header_bytes() -> Seq<u8> {
    little_endian::u32_bytes(HNSW_GRAPH_MAGIC) + little_endian::u32_bytes(HNSW_GRAPH_VERSION)
        + little_endian::u32_bytes(HNSW_GRAPH_FLAG_DELTA_VARINT)
}

pub open spec fn counts_bytes(g: GraphModel) -> Seq<u8> {
    varint::varint_bytes(g.levels.len()) + varint::varint_bytes(g.entry_point as nat)
        + varint::varint_bytes(g.max_observed_level as nat)
}

/// The stored form of a graph.
pub open spec fn graph_bytes(g: GraphModel) -> Seq<u8> {
    header_bytes() + counts_bytes(g) + wire::concat(level_parts(g.levels)) + wire::concat(
        adjacency_parts(g.adjacency),
    )
}

/// Every number that is stored of the graph fits into 32 bits.
pub open spec fn graph_fits(g: GraphModel) -> bool {
    &&& g.levels.len() <= u32::MAX
    &&& forall|i: int| 0 <= i < g.levels.len() ==> #[trigger] g.levels[i] <= u32::MAX
    &&& forall|i: int, l: int|
        0 <= i < g.adjacency.len() && 0 <= l < g.adjacency[i].len() ==> (
        #[trigger] g.adjacency[i][l]).len() <= u32::MAX
}

pub proof fn lemma_sorted_list(list: Seq<usize>)
    requires
        list.len() <= usize::MAX,
    ensures
        sorted_list(list).len() == list.len(),
        forall|i: int, j: int|
            0 <= i <= j < list.len() ==> sorted_list(list)[i] <= sorted_list(list)[j],
        forall|i: int| 0 <= i < list.len() ==> list.contains(#[trigger] sorted_list(list)[i]),
        forall|i: int| 0 <= i < list.len() ==> sorted_list(list).contains(#[trigger] list[i]),
{
    let keys = list_keys(list);
    let order = sort::stable_order(keys);
    sort::stable_order_facts(keys);
    let r = sorted_list(list);
    assert forall|i: int, j: int| 0 <= i <= j < r.len() implies r[i] <= r[j] by {
        assert(keys[order[i] as int] <= keys[order[j] as int]);
    }
    assert forall|i: int| 0 <= i < list.len() implies list.contains(#[trigger] r[i]) by {
        assert(list[order[i] as int] == r[i]);
    }
    assert forall|i: int| 0 <= i < list.len() implies r.contains(#[trigger] list[i]) by {
        assert(order.contains(i as usize));
        let k = choose|k: int| 0 <= k < order.len() && order[k] == i as usize;
        assert(r[k] == list[i]);
    }
}

/// A list with its members in ascending order.
fn sort_list(list: &Vec<usize>) -> (r: Vec<usize>)
    ensures
        r@ == sorted_list(list@),
{
    let mut keys: Vec<i128> = Vec::new();
    for i in 0..list.len()
        invariant
            keys@ == list_keys(list@).take(i as int),
    {
        keys.push(list[i] as i128);
        assert(keys@ =~= list_keys(list@).take(i + 1));
    }
    assert(keys@ =~= list_keys(list@));
    let order: Vec<usize> = sort::sorted_order(keys.as_slice());
    proof {
        sort::stable_order_facts(keys@);
    }
    let mut r: Vec<usize> = Vec::new();
    for i in 0..order.len()
        invariant
            order@.len() == list@.len(),
            forall|k: int| 0 <= k < order@.len() ==> #[trigger] order@[k] < list@.len(),
            r@ == sort::picked(list@, order@).take(i as int),
    {
        r.push(list[order[i]]);
        assert(r@ =~= sort::picked(list@, order@).take(i + 1));
    }
    assert(r@ =~= sorted_list(list@));
    r
}

/// A number that is to be stored in 32 bits.
pub fn checked_u32_value(value: usize) -> (r: Result<u32, IndexError>)
    ensures
        match r {
            Ok(v) => v == value,
            Err(e) => value > u32::MAX && e == IndexError::ValueExceedsU32 { value },
        },
{
    if value > u32::MAX as usize {
        return Err(IndexError::ValueExceedsU32 { value });
    }
    Ok(value as u32)
}

pub fn write_u32_fixed(buf: &mut Vec<u8>, value: u32)
    ensures
        final(buf)@ == old(buf)@ + little_endian::u32_bytes(value),
{
    little_endian::write_u32_le(buf, value);
}

/// Appends a number that must fit into 32 bits.
pub fn write_u32_varint(buf: &mut Vec<u8>, value: usize) -> (r: Result<(), IndexError>)
    ensures
        match r {
            Ok(_) => value <= u32::MAX && final(buf)@ == old(buf)@ + varint::varint_bytes(
                value as nat,
            ),
            Err(e) => value > u32::MAX && final(buf)@ == old(buf)@ && e
                == IndexError::ValueExceedsU32 { value },
        },
{
    match checked_u32_value(value) {
        Ok(v) => {
            varint::write_u64_varint(buf, v as u64);
            Ok(())
        },
        Err(e) => Err(e),
    }
}

/// The first list that is too long, from node to node and from level to level.
pub open spec fn is_first_long(adj: Seq<Seq<Seq<usize>>>, i: int, l: int) -> bool {
    &&& 0 <= i < adj.len()
    &&& 0 <= l < adj[i].len()
    &&& adj[i][l].len() > u32::MAX
    &&& forall|k: int, m: int|
        0 <= k < adj.len() && 0 <= m < adj[k].len() && (k < i || k == i && m < l) ==> (
        #[trigger] adj[k][m]).len() <= u32::MAX
}

/// The first number of the stored form that does not fit into 32 bits.
pub open spec fn graph_exceeds(g: GraphModel, e: IndexError) -> bool {
    if g.levels.len() > u32::MAX {
        e == IndexError::ValueExceedsU32 { value: g.levels.len() as usize }
    } else if g.max_observed_level > u32::MAX {
        e == IndexError::ValueExceedsU32 { value: g.max_observed_level }
    } else {
        exists|i: int, l: int| #[trigger]
            is_first_long(g.adjacency, i, l) && e == IndexError::ValueExceedsU32 {
                value: g.adjacency[i][l].len() as usize,
            }
    }
}

/// Appends one list.
fn write_list(buf: &mut Vec<u8>, list: &Vec<usize>, n: usize) -> (r: Result<(), IndexError>)
    requires
        n <= u32::MAX,
        forall|j: int| 0 <= j < list@.len() ==> #[trigger] list@[j] < n,
    ensures
        match r {
            Ok(_) => list@.len() <= u32::MAX && final(buf)@ == old(buf)@ + list_bytes(list@),
            Err(e) => list@.len() > u32::MAX && e == IndexError::ValueExceedsU32 {
                value: list@.len() as usize,
            },
        },
{
    let ghost start = buf@;
    match write_u32_varint(buf, list.len()) {
        Ok(_) => {},
        Err(e) => {
            return Err(e);
        },
    }
    let sorted: Vec<usize> = sort_list(list);
    let ghost head = buf@;
    proof {
        lemma_sorted_list(list@);
        wire::lemma_concat_none(step_parts(sorted@));
        assert(head + Seq::<u8>::empty() =~= head);
        assert forall|i: int| 0 <= i < sorted@.len() implies #[trigger] sorted@[i] < n by {
            assert(list@.contains(sorted_list(list@)[i]));
            let q = choose|q: int| 0 <= q < list@.len() && list@[q] == sorted@[i];
            assert(list@[q] < n);
        }
    }
    let mut previous: usize = 0;
    for i in 0..sorted.len()
        invariant
            n <= u32::MAX,
            forall|i: int, j: int| 0 <= i <= j < sorted@.len() ==> sorted@[i] <= sorted@[j],
            forall|i: int| 0 <= i < sorted@.len() ==> #[trigger] sorted@[i] < n,
            previous == before(sorted@, i as int),
            buf@ == head + wire::concat(step_parts(sorted@).take(i as int)),
    {
        let neighbor: usize = sorted[i];
        assert(previous <= neighbor) by {
            if i > 0 {
                assert(sorted@[i - 1] <= sorted@[i as int]);
            }
        }
        match write_u32_varint(buf, neighbor - previous) {
            Ok(_) => {},
            Err(e) => {
                assert(false);
                return Err(e);
            },
        }
        proof {
            wire::lemma_concat_next(step_parts(sorted@), i as int);
            assert(buf@ =~= head + wire::concat(step_parts(sorted@).take(i + 1)));
        }
        previous = neighbor;
    }
    proof {
        wire::lemma_concat_all(step_parts(sorted@));
        assert(buf@ =~= start + list_bytes(list@));
    }
    Ok(())
}

/// Appends the lists of one node.
fn write_node(buf: &mut Vec<u8>, lists: &Vec<Vec<usize>>, n: usize) -> (r: Result<(), IndexError>)
    requires
        n <= u32::MAX,
        forall|l: int, j: int|
            0 <= l < lists@.len() && 0 <= j < lists@[l]@.len() ==> #[trigger] lists@[l]@[j] < n,
    ensures
        ({
            let adj = Seq::new(lists@.len(), |l: int| lists@[l]@);
            match r {
                Ok(_) => final(buf)@ == old(buf)@ + wire::concat(node_parts(adj)) && forall|l: int|
                    0 <= l < adj.len() ==> (#[trigger] adj[l]).len() <= u32::MAX,
                Err(e) => exists|l: int|
                    {
                        &&& 0 <= l < adj.len()
                        &&& (#[trigger] adj[l]).len() > u32::MAX
                        &&& forall|m: int| 0 <= m < l ==> (#[trigger] adj[m]).len() <= u32::MAX
                        &&& e == IndexError::ValueExceedsU32 { value: adj[l].len() as usize }
                    },
            }
        }),
{
    let ghost adj = Seq::new(lists@.len(), |l: int| lists@[l]@);
    let ghost start = buf@;
    proof {
        wire::lemma_concat_none(node_parts(adj));
        assert(start + Seq::<u8>::empty() =~= start);
    }
    for l in 0..lists.len()
        invariant
            n <= u32::MAX,
            adj == Seq::new(lists@.len(), |l: int| lists@[l]@),
            forall|l: int, j: int|
                0 <= l < lists@.len() && 0 <= j < lists@[l]@.len() ==> #[trigger] lists@[l]@[j] < n,
            forall|k: int| 0 <= k < l ==> (#[trigger] adj[k]).len() <= u32::MAX,
            buf@ == start + wire::concat(node_parts(adj).take(l as int)),
    {
        match write_list(buf, &lists[l], n) {
            Ok(_) => {},
            Err(e) => {
                assert(adj[l as int].len() > u32::MAX);
                return Err(e);
            },
        }
        proof {
            wire::lemma_concat_next(node_parts(adj), l as int);
            assert(adj[l as int] == lists@[l as int]@);
            assert(buf@ =~= start + wire::concat(node_parts(adj).take(l + 1)));
        }
    }
    proof {
        wire::lemma_concat_all(node_parts(adj));
    }
    Ok(())
}

/// The stored form of a graph; nothing at all without a graph.
pub fn encode_graph(graph: Option<&HnswGraph>) -> (r: Result<Vec<u8>, IndexError>)
    requires
        graph matches Some(g) ==> g@.well_formed(),
    ensures
        match graph {
            None => r matches Ok(bytes) && bytes@.len() == 0,
            Some(g) => match r {
                Ok(bytes) => graph_fits(g@) && bytes@ == graph_bytes(g@),
                Err(e) => !graph_fits(g@) && graph_exceeds(g@, e),
            },
        },
{
    let mut buf: Vec<u8> = Vec::new();
    let stored: &HnswGraph = match graph {
        Some(g) => g,
        None => {
            return Ok(buf);
        },
    };
    let ghost g = stored@;
    write_u32_fixed(&mut buf, HNSW_GRAPH_MAGIC);
    write_u32_fixed(&mut buf, HNSW_GRAPH_VERSION);
    write_u32_fixed(&mut buf, HNSW_GRAPH_FLAG_DELTA_VARINT);
    assert(buf@ =~= header_bytes());
    let n: usize = stored.len();
    match write_u32_varint(&mut buf, n) {
        Ok(_) => {},
        Err(e) => {
            return Err(e);
        },
    }
    match write_u32_varint(&mut buf, stored.entry_point()) {
        Ok(_) => {},
        Err(e) => {
            assert(false);
            return Err(e);
        },
    }
    match write_u32_varint(&mut buf, stored.max_observed_level()) {
        Ok(_) => {},
        Err(e) => {
            assert(g.levels[g.entry_point as int] > u32::MAX);
            return Err(e);
        },
    }
    assert(buf@ =~= header_bytes() + counts_bytes(g));
    let ghost head = buf@;
    let levels: &Vec<usize> = stored.levels();
    proof {
        wire::lemma_concat_none(level_parts(levels@));
        assert(head + Seq::<u8>::empty() =~= head);
    }
    for i in 0..levels.len()
        invariant
            graph == Some(stored),
            stored@ == g,
            levels@ == g.levels,
            g.well_formed(),
            g.max_observed_level <= u32::MAX,
            forall|k: int| 0 <= k < i ==> #[trigger] g.levels[k] <= u32::MAX,
            buf@ == head + wire::concat(level_parts(levels@).take(i as int)),
    {
        match write_u32_varint(&mut buf, levels[i]) {
            Ok(_) => {},
            Err(e) => {
                proof {
                    hnsw::lemma_top_level(g.levels);
                    assert(g.levels[i as int] <= g.max_observed_level);
                }
                return Err(e);
            },
        }
        proof {
            wire::lemma_concat_next(level_parts(levels@), i as int);
            assert(buf@ =~= head + wire::concat(level_parts(levels@).take(i + 1)));
        }
    }
    proof {
        wire::lemma_concat_all(level_parts(levels@));
    }
    let ghost body = buf@;
    let neighbors: &Vec<Vec<Vec<usize>>> = stored.neighbors();
    let ghost adj = g.adjacency;
    proof {
        hnsw_build::lemma_links_in_range(g.levels, adj);
        wire::lemma_concat_none(adjacency_parts(adj));
        assert(body + Seq::<u8>::empty() =~= body);
    }
    for i in 0..neighbors.len()
        invariant
            graph == Some(stored),
            stored@ == g,
            n <= u32::MAX,
            g.levels.len() == n,
            g.max_observed_level <= u32::MAX,
            n == adj.len(),
            adj == hnsw_layer::adjacency_of(neighbors@),
            adj == g.adjacency,
            hnsw_layer::in_range(adj),
            forall|k: int, l: int|
                0 <= k < i && 0 <= l < adj[k].len() ==> (#[trigger] adj[k][l]).len() <= u32::MAX,
            buf@ == body + wire::concat(adjacency_parts(adj).take(i as int)),
    {
        proof {
            assert forall|l: int, j: int|
                0 <= l < neighbors@[i as int]@.len() && 0 <= j
                    < neighbors@[i as int]@[l]@.len() implies #[trigger] neighbors@[i as int]@[l]@[j]
                < n by {
                assert(adj[i as int][l][j] < adj.len());
            }
        }
        match write_node(&mut buf, &neighbors[i], n) {
            Ok(_) => {},
            Err(e) => {
                proof {
                    let lists = Seq::new(
                        neighbors@[i as int]@.len(),
                        |l: int| neighbors@[i as int]@[l]@,
                    );
                    let l = choose|l: int|
                        {
                            &&& 0 <= l < lists.len()
                            &&& (#[trigger] lists[l]).len() > u32::MAX
                            &&& forall|m: int|
                                0 <= m < l ==> (#[trigger] lists[m]).len() <= u32::MAX
                            &&& e == IndexError::ValueExceedsU32 { value: lists[l].len() as usize }
                        };
                    assert(adj[i as int] =~= lists);
                    assert(adj[i as int][l].len() > u32::MAX);
                    assert(is_first_long(adj, i as int, l));
                }
                return Err(e);
            },
        }
        proof {
            let lists = Seq::new(neighbors@[i as int]@.len(), |l: int| neighbors@[i as int]@[l]@);
            assert(adj[i as int] == lists);
            wire::lemma_concat_next(adjacency_parts(adj), i as int);
            assert(buf@ =~= body + wire::concat(adjacency_parts(adj).take(i + 1)));
        }
    }
    proof {
        wire::lemma_concat_all(adjacency_parts(adj));
        assert(buf@ =~= graph_bytes(g));
    }
    Ok(buf)
}

/// A fixed 32-bit number at `pos` and the position behind it.
pub open spec fn fixed_at(s: Seq<u8>, pos: nat) -> Result<(u32, nat), IndexError> {
    if pos + 4 > s.len() {
        Err(IndexError::GraphTruncated)
    } else {
        Ok((little_endian::u32_at(s, pos as int), pos + 4))
    }
}

/// A variable-length number of at most 32 bits at `pos` and the position behind it.
pub open spec fn number_at(s: Seq<u8>, pos: nat) -> Result<(usize, nat), IndexError> {
    match varint::varint_at(s, pos) {
        Err(e) => Err(e),
        Ok((v, next)) => if v > u32::MAX {
            Err(IndexError::GraphNumberTooLarge { number: v })
        } else {
            Ok((v as usize, next))
        },
    }
}

/// Reads levels from `pos` on until there are `count`, `got` being those before.
pub open spec fn parse_levels(
    s: Seq<u8>,
    pos: nat,
    got: Seq<usize>,
    count: nat,
    max_level: usize,
) -> Result<(Seq<usize>, nat), IndexError>
    decreases count - got.len(),
{
    if got.len() >= count {
        Ok((got, pos))
    } else {
        match number_at(s, pos) {
            Err(e) => Err(e),
            Ok((level, next)) => if level >= max_level {
                Err(
                    IndexError::GraphNodeLevel {
                        node: got.len() as usize,
                        level,
                        max_level,
                    },
                )
            } else {
                parse_levels(s, next, got.push(level), count, max_level)
            },
        }
    }
}

/// Reads neighbours from `pos` on until there are `degree`, `got` being those before.
pub open spec fn parse_list(s: Seq<u8>, pos: nat, got: Seq<usize>, degree: nat) -> Result<
    (Seq<usize>, nat),
    IndexError,
>
    decreases degree - got.len(),
{
    if got.len() >= degree {
        Ok((got, pos))
    } else {
        match number_at(s, pos) {
            Err(e) => Err(e),
            Ok((step, next)) => {
                let neighbor = before(got, got.len() as int) + step;
                if neighbor > u32::MAX {
                    Err(IndexError::GraphNeighborTooLarge { number: neighbor as u64 })
                } else {
                    parse_list(s, next, got.push(neighbor as usize), degree)
                }
            },
        }
    }
}

/// How many neighbours a stored list may hold: twice `m` on the lowest level, as far as that can
/// be counted.
pub open spec fn stored_limit(m: usize, level: int) -> usize {
    if level != 0 {
        m
    } else if m * 2 > usize::MAX {
        usize::MAX
    } else {
        (m * 2) as usize
    }
}

/// Reads the lists of `node` from `pos` on until there is one for each level, `got` being those
/// before.
pub open spec fn parse_node(
    s: Seq<u8>,
    pos: nat,
    got: Seq<Seq<usize>>,
    node: usize,
    level: usize,
    m: usize,
) -> Result<(Seq<Seq<usize>>, nat), IndexError>
    decreases level + 1 - got.len(),
{
    if got.len() > level {
        Ok((got, pos))
    } else {
        match number_at(s, pos) {
            Err(e) => Err(e),
            Ok((degree, next)) => {
                let max_degree = stored_limit(m, got.len() as int);
                if degree > max_degree {
                    Err(
                        IndexError::GraphDegree {
                            node,
                            degree,
                            level: got.len() as usize,
                            max_degree,
                        },
                    )
                } else {
                    match parse_list(s, next, Seq::empty(), degree as nat) {
                        Err(e) => Err(e),
                        Ok((list, end)) => parse_node(s, end, got.push(list), node, level, m),
                    }
                }
            },
        }
    }
}

/// Reads the lists of all nodes from `pos` on, `got` being those of the nodes before.
pub open spec fn parse_adjacency(
    s: Seq<u8>,
    pos: nat,
    got: Seq<Seq<Seq<usize>>>,
    levels: Seq<usize>,
    m: usize,
) -> Result<(Seq<Seq<Seq<usize>>>, nat), IndexError>
    decreases levels.len() - got.len(),
{
    if got.len() >= levels.len() {
        Ok((got, pos))
    } else {
        match parse_node(s, pos, Seq::empty(), got.len() as usize, levels[got.len() as int], m) {
            Err(e) => Err(e),
            Ok((lists, next)) => parse_adjacency(s, next, got.push(lists), levels, m),
        }
    }
}

/// What the stored form of a graph says.
#[verifier::ext_equal]
pub struct StoredGraph {
    pub levels: Seq<usize>,
    pub adjacency: Seq<Seq<Seq<usize>>>,
    pub entry_point: usize,
    pub max_observed_level: usize,
}

/// The header of a stored graph: its magic number, its version and its flags.
pub open spec fn parse_header(s: Seq<u8>) -> Result<nat, IndexError> {
    match fixed_at(s, 0) {
        Err(e) => Err(e),
        Ok((magic, p1)) => if magic != HNSW_GRAPH_MAGIC {
            Err(IndexError::GraphMagic { magic })
        } else {
            match fixed_at(s, p1) {
                Err(e) => Err(e),
                Ok((version, p2)) => if version != HNSW_GRAPH_VERSION {
                    Err(IndexError::GraphVersion { version })
                } else {
                    match fixed_at(s, p2) {
                        Err(e) => Err(e),
                        Ok((flags, p3)) => if flags >= 2 {
                            Err(IndexError::GraphUnknownFlags { flags: (flags - flags % 2) as u32 })
                        } else if flags != HNSW_GRAPH_FLAG_DELTA_VARINT {
                            Err(IndexError::GraphMissingFlags)
                        } else {
                            Ok(p3)
                        },
                    }
                },
            }
        },
    }
}

/// The first of the levels from `node` on that is not below `max_level`, where bytes hold a count,
/// an entry point, a greatest level and the levels as fixed numbers.
pub open spec fn plain_level_fault(s: Seq<u8>, node: nat, count: usize, max_level: usize) -> Option<
    IndexError,
>
    decreases count - node,
{
    if node >= count {
        None
    } else {
        match fixed_at(s, 12 + 4 * node) {
            Err(_) => None,
            Ok((level, _)) => if level >= max_level {
                Some(
                    IndexError::GraphNodeLevel {
                        node: node as usize,
                        level: level as usize,
                        max_level,
                    },
                )
            } else {
                plain_level_fault(s, node + 1, count, max_level)
            },
        }
    }
}

/// The first number of neighbours above its limit from `pos` on, where each list is such a number
/// and as many neighbours as fixed numbers. The list at `pos` is that of `node` on level `at`.
pub open spec fn plain_degree_fault(
    s: Seq<u8>,
    pos: nat,
    node: nat,
    at: nat,
    count: usize,
    m: usize,
) -> Option<IndexError>
    decreases s.len() - pos,
{
    if node >= count {
        None
    } else {
        match (fixed_at(s, 12 + 4 * node), fixed_at(s, pos)) {
            (Ok((level, _)), Ok((degree, next))) => {
                let max_degree = stored_limit(m, at as int);
                if degree > max_degree {
                    Some(
                        IndexError::GraphDegree {
                            node: node as usize,
                            degree: degree as usize,
                            level: at as usize,
                            max_degree,
                        },
                    )
                } else if next + 4 * degree > s.len() {
                    None
                } else if at < level {
                    plain_degree_fault(s, (next + 4 * degree) as nat, node, at + 1, count, m)
                } else {
                    plain_degree_fault(s, (next + 4 * degree) as nat, node + 1, 0, count, m)
                }
            },
            _ => None,
        }
    }
}

/// What is wrong with bytes that start with another number than the magic one: read as fixed
/// numbers from the count on, a level or a number of neighbours above its limit, or otherwise the
/// number that they start with.
pub open spec fn plain_fault(s: Seq<u8>, magic: u32, count: usize, params: HnswBuildParams) -> IndexError {
    if magic != count {
        IndexError::GraphMagic { magic }
    } else {
        match plain_level_fault(s, 0, count, params.max_level) {
            Some(e) => e,
            None => match plain_degree_fault(s, (12 + 4 * count) as nat, 0, 0, count, params.m) {
                Some(e) => e,
                None => IndexError::GraphMagic { magic },
            },
        }
    }
}

/// Why the bytes do not start with the header of a graph of `count` nodes.
pub open spec fn header_fault(s: Seq<u8>, e: IndexError, count: usize, params: HnswBuildParams) -> IndexError {
    match e {
        IndexError::GraphMagic { magic } => plain_fault(s, magic, count, params),
        _ => e,
    }
}

/// What the stored form of a graph of `count` nodes says, or why it says nothing.
pub open spec fn parse_graph(s: Seq<u8>, count: usize, params: HnswBuildParams) -> Result<
    StoredGraph,
    IndexError,
> {
    match parse_header(s) {
        Err(e) => Err(header_fault(s, e, count, params)),
        Ok(p0) => match number_at(s, p0) {
            Err(e) => Err(e),
            Ok((stored, p1)) => if stored != count {
                Err(IndexError::GraphCount { stored, count })
            } else {
                match number_at(s, p1) {
                    Err(e) => Err(e),
                    Ok((entry_point, p2)) => match number_at(s, p2) {
                        Err(e) => Err(e),
                        Ok((max_observed_level, p3)) => match parse_levels(
                            s,
                            p3,
                            Seq::empty(),
                            count as nat,
                            params.max_level,
                        ) {
                            Err(e) => Err(e),
                            Ok((levels, p4)) => match parse_adjacency(
                                s,
                                p4,
                                Seq::empty(),
                                levels,
                                params.m,
                            ) {
                                Err(e) => Err(e),
                                Ok((adjacency, p5)) => if p5 != s.len() {
                                    Err(IndexError::GraphTrailingBytes)
                                } else {
                                    Ok(
                                        StoredGraph {
                                            levels,
                                            adjacency,
                                            entry_point,
                                            max_observed_level,
                                        },
                                    )
                                },
                            },
                        },
                    },
                }
            },
        },
    }
}

/// Reads a fixed 32-bit number.
pub fn read_u32_fixed(bytes: &[u8], pos: &mut usize) -> (r: Result<u32, IndexError>)
    ensures
        *old(pos) <= bytes@.len() ==> *final(pos) <= bytes@.len(),
        match r {
            Ok(v) => fixed_at(bytes@, *old(pos) as nat) == Ok::<(u32, nat), IndexError>(
                (v, *final(pos) as nat),
            ),
            Err(e) => fixed_at(bytes@, *old(pos) as nat) == Err::<(u32, nat), IndexError>(e)
                && *final(pos) == *old(pos),
        },
{
    if bytes.len() < *pos || bytes.len() - *pos < 4 {
        return Err(IndexError::GraphTruncated);
    }
    let v: u32 = little_endian::read_u32_le(bytes, *pos);
    *pos = *pos + 4;
    Ok(v)
}

/// Reads a variable-length number of at most 32 bits.
pub fn read_u32_varint(bytes: &[u8], pos: &mut usize) -> (r: Result<usize, IndexError>)
    ensures
        *old(pos) <= bytes@.len() ==> *final(pos) <= bytes@.len(),
        match r {
            Ok(v) => v <= u32::MAX && number_at(bytes@, *old(pos) as nat) == Ok::<
                (usize, nat),
                IndexError,
            >((v, *final(pos) as nat)),
            Err(e) => number_at(bytes@, *old(pos) as nat) == Err::<(usize, nat), IndexError>(e)
                && *final(pos) == (match varint::varint_at(bytes@, *old(pos) as nat) {
                Ok((_, next)) => next,
                Err(e) => varint::stopped_at(bytes@, *old(pos) as nat, e),
            }),
        },
{
    match varint::read_u64_varint(bytes, pos) {
        Ok(v) => {
            if v > u32::MAX as u64 {
                return Err(IndexError::GraphNumberTooLarge { number: v });
            }
            Ok(v as usize)
        },
        Err(e) => Err(e),
    }
}

fn read_levels(bytes: &[u8], pos: &mut usize, count: usize, max_level: usize) -> (r: Result<
    Vec<usize>,
    IndexError,
>)
    requires
        *old(pos) <= bytes@.len(),
    ensures
        *final(pos) <= bytes@.len(),
        match r {
            Ok(levels) => levels@.len() == count && parse_levels(
                bytes@,
                *old(pos) as nat,
                Seq::empty(),
                count as nat,
                max_level,
            ) == Ok::<(Seq<usize>, nat), IndexError>((levels@, *final(pos) as nat)),
            Err(e) => parse_levels(
                bytes@,
                *old(pos) as nat,
                Seq::empty(),
                count as nat,
                max_level,
            ) == Err::<(Seq<usize>, nat), IndexError>(e),
        },
{
    let ghost start = *pos as nat;
    let mut levels: Vec<usize> = Vec::new();
    for node in 0..count
        invariant
            *pos <= bytes@.len(),
            start == *old(pos),
            levels@.len() == node,
            parse_levels(bytes@, start, Seq::empty(), count as nat, max_level) == parse_levels(
                bytes@,
                *pos as nat,
                levels@,
                count as nat,
                max_level,
            ),
    {
        let level: usize = match read_u32_varint(bytes, pos) {
            Ok(v) => v,
            Err(e) => {
                return Err(e);
            },
        };
        if level >= max_level {
            return Err(IndexError::GraphNodeLevel { node, level, max_level });
        }
        levels.push(level);
    }
    Ok(levels)
}

fn read_list(bytes: &[u8], pos: &mut usize, degree: usize) -> (r: Result<Vec<usize>, IndexError>)
    requires
        *old(pos) <= bytes@.len(),
    ensures
        *final(pos) <= bytes@.len(),
        match r {
            Ok(list) => parse_list(bytes@, *old(pos) as nat, Seq::empty(), degree as nat) == Ok::<
                (Seq<usize>, nat),
                IndexError,
            >((list@, *final(pos) as nat)),
            Err(e) => parse_list(bytes@, *old(pos) as nat, Seq::empty(), degree as nat) == Err::<
                (Seq<usize>, nat),
                IndexError,
            >(e),
        },
{
    let ghost start = *pos as nat;
    let mut list: Vec<usize> = Vec::new();
    let mut previous: usize = 0;
    for i in 0..degree
        invariant
            *pos <= bytes@.len(),
            start == *old(pos),
            list@.len() == i,
            previous == before(list@, i as int),
            previous <= u32::MAX,
            parse_list(bytes@, start, Seq::empty(), degree as nat) == parse_list(
                bytes@,
                *pos as nat,
                list@,
                degree as nat,
            ),
    {
        let step: usize = match read_u32_varint(bytes, pos) {
            Ok(v) => v,
            Err(e) => {
                return Err(e);
            },
        };
        let neighbor: u64 = previous as u64 + step as u64;
        if neighbor > u32::MAX as u64 {
            return Err(IndexError::GraphNeighborTooLarge { number: neighbor });
        }
        list.push(neighbor as usize);
        previous = neighbor as usize;
    }
    Ok(list)
}

pub open spec fn lists_of(v: Seq<Vec<usize>>) -> Seq<Seq<usize>> {
    Seq::new(v.len(), |l: int| v[l]@)
}

fn read_node(bytes: &[u8], pos: &mut usize, node: usize, level: usize, m: usize) -> (r: Result<
    Vec<Vec<usize>>,
    IndexError,
>)
    requires
        *old(pos) <= bytes@.len(),
    ensures
        *final(pos) <= bytes@.len(),
        match r {
            Ok(lists) => parse_node(
                bytes@,
                *old(pos) as nat,
                Seq::empty(),
                node,
                level,
                m,
            ) == Ok::<(Seq<Seq<usize>>, nat), IndexError>(
                (lists_of(lists@), *final(pos) as nat),
            ),
            Err(e) => parse_node(
                bytes@,
                *old(pos) as nat,
                Seq::empty(),
                node,
                level,
                m,
            ) == Err::<(Seq<Seq<usize>>, nat), IndexError>(e),
        },
{
    let ghost start = *pos as nat;
    let mut lists: Vec<Vec<usize>> = Vec::new();
    assert(lists_of(lists@) =~= Seq::<Seq<usize>>::empty());
    while lists.len() <= level
        invariant
            *pos <= bytes@.len(),
            start == *old(pos),
            lists@.len() <= level + 1,
            parse_node(bytes@, start, Seq::empty(), node, level, m) == parse_node(
                bytes@,
                *pos as nat,
                lists_of(lists@),
                node,
                level,
                m,
            ),
        decreases level + 1 - lists@.len(),
    {
        let at: usize = lists.len();
        let degree: usize = match read_u32_varint(bytes, pos) {
            Ok(v) => v,
            Err(e) => {
                return Err(e);
            },
        };
        let max_degree: usize = if at != 0 {
            m
        } else {
            match m.checked_mul(2) {
                Some(v) => v,
                None => usize::MAX,
            }
        };
        assert(max_degree == stored_limit(m, at as int));
        if degree > max_degree {
            return Err(IndexError::GraphDegree { node, degree, level: at, max_degree });
        }
        let list: Vec<usize> = match read_list(bytes, pos, degree) {
            Ok(list) => list,
            Err(e) => {
                return Err(e);
            },
        };
        let ghost got = lists_of(lists@);
        lists.push(list);
        assert(lists_of(lists@) =~= got.push(list@));
    }
    Ok(lists)
}

fn read_adjacency(bytes: &[u8], pos: &mut usize, levels: &Vec<usize>, m: usize) -> (r: Result<
    Vec<Vec<Vec<usize>>>,
    IndexError,
>)
    requires
        *old(pos) <= bytes@.len(),
    ensures
        *final(pos) <= bytes@.len(),
        match r {
            Ok(neighbors) => parse_adjacency(
                bytes@,
                *old(pos) as nat,
                Seq::empty(),
                levels@,
                m,
            ) == Ok::<(Seq<Seq<Seq<usize>>>, nat), IndexError>(
                (hnsw_layer::adjacency_of(neighbors@), *final(pos) as nat),
            ),
            Err(e) => parse_adjacency(bytes@, *old(pos) as nat, Seq::empty(), levels@, m)
                == Err::<(Seq<Seq<Seq<usize>>>, nat), IndexError>(e),
        },
{
    let ghost start = *pos as nat;
    let mut neighbors: Vec<Vec<Vec<usize>>> = Vec::new();
    assert(hnsw_layer::adjacency_of(neighbors@) =~= Seq::<Seq<Seq<usize>>>::empty());
    for node in 0..levels.len()
        invariant
            *pos <= bytes@.len(),
            start == *old(pos),
            neighbors@.len() == node,
            parse_adjacency(bytes@, start, Seq::empty(), levels@, m) == parse_adjacency(
                bytes@,
                *pos as nat,
                hnsw_layer::adjacency_of(neighbors@),
                levels@,
                m,
            ),
    {
        let ghost got = hnsw_layer::adjacency_of(neighbors@);
        let lists: Vec<Vec<usize>> = match read_node(bytes, pos, node, levels[node], m) {
            Ok(lists) => lists,
            Err(e) => {
                return Err(e);
            },
        };
        neighbors.push(lists);
        assert(hnsw_layer::adjacency_of(neighbors@) =~= got.push(lists_of(lists@)));
    }
    Ok(neighbors)
}

fn read_header(bytes: &[u8], pos: &mut usize) -> (r: Result<(), IndexError>)
    requires
        *old(pos) == 0,
    ensures
        *final(pos) <= bytes@.len(),
        match r {
            Ok(_) => parse_header(bytes@) == Ok::<nat, IndexError>(*final(pos) as nat),
            Err(e) => parse_header(bytes@) == Err::<nat, IndexError>(e),
        },
{
    let magic: u32 = match read_u32_fixed(bytes, pos) {
        Ok(v) => v,
        Err(e) => {
            return Err(e);
        },
    };
    if magic != HNSW_GRAPH_MAGIC {
        return Err(IndexError::GraphMagic { magic });
    }
    let version: u32 = match read_u32_fixed(bytes, pos) {
        Ok(v) => v,
        Err(e) => {
            return Err(e);
        },
    };
    if version != HNSW_GRAPH_VERSION {
        return Err(IndexError::GraphVersion { version });
    }
    let flags: u32 = match read_u32_fixed(bytes, pos) {
        Ok(v) => v,
        Err(e) => {
            return Err(e);
        },
    };
    if flags >= 2 {
        return Err(IndexError::GraphUnknownFlags { flags: flags - flags % 2 });
    }
    if flags != HNSW_GRAPH_FLAG_DELTA_VARINT {
        return Err(IndexError::GraphMissingFlags);
    }
    Ok(())
}

/// Finds a level above its limit in bytes without a header.
fn find_plain_level(bytes: &[u8], count: usize, max_level: usize) -> (r: Option<IndexError>)
    ensures
        r == plain_level_fault(bytes@, 0, count, max_level),
{
    let mut pos: usize = 12;
    for node in 0..count
        invariant
            pos == 12 + 4 * node,
            pos <= bytes@.len() || node == 0,
            plain_level_fault(bytes@, 0, count, max_level) == plain_level_fault(
                bytes@,
                node as nat,
                count,
                max_level,
            ),
    {
        match read_u32_fixed(bytes, &mut pos) {
            Ok(level) => {
                if level as usize >= max_level {
                    return Some(
                        IndexError::GraphNodeLevel { node, level: level as usize, max_level },
                    );
                }
            },
            Err(_) => {
                return None;
            },
        }
    }
    None
}

/// Finds a number of neighbours above its limit in bytes without a header.
fn find_plain_degree(bytes: &[u8], count: usize, m: usize) -> (r: Option<IndexError>)
    ensures
        r == plain_degree_fault(bytes@, (12 + 4 * count) as nat, 0, 0, count, m),
{
    if bytes.len() < 12 || count > (bytes.len() - 12) / 4 {
        return None;
    }
    let mut pos: usize = 12 + 4 * count;
    let mut node: usize = 0;
    let mut at: usize = 0;
    while node < count
        invariant
            bytes@.len() == bytes.len(),
            12 + 4 * count <= bytes@.len(),
            12 + 4 * count <= pos <= bytes@.len(),
            node <= count,
            at <= pos,
            plain_degree_fault(bytes@, (12 + 4 * count) as nat, 0, 0, count, m)
                == plain_degree_fault(bytes@, pos as nat, node as nat, at as nat, count, m),
        decreases bytes@.len() - pos,
    {
        let level: usize = little_endian::read_u32_le(bytes, 12 + 4 * node) as usize;
        let degree: usize = match read_u32_fixed(bytes, &mut pos) {
            Ok(v) => v as usize,
            Err(_) => {
                return None;
            },
        };
        let max_degree: usize = if at != 0 {
            m
        } else {
            match m.checked_mul(2) {
                Some(v) => v,
                None => usize::MAX,
            }
        };
        assert(max_degree == stored_limit(m, at as int));
        if degree > max_degree {
            return Some(IndexError::GraphDegree { node, degree, level: at, max_degree });
        }
        if degree > (bytes.len() - pos) / 4 {
            return None;
        }
        pos = pos + 4 * degree;
        if at < level {
            at = at + 1;
        } else {
            node = node + 1;
            at = 0;
        }
    }
    None
}

/// What is wrong with bytes that do not start with the magic number.
fn find_plain_fault(bytes: &[u8], magic: u32, count: usize, params: HnswBuildParams) -> (r:
    IndexError)
    ensures
        r == plain_fault(bytes@, magic, count, params),
{
    if magic as usize != count {
        return IndexError::GraphMagic { magic };
    }
    match find_plain_level(bytes, count, params.max_level) {
        Some(e) => {
            return e;
        },
        None => {},
    }
    match find_plain_degree(bytes, count, params.m) {
        Some(e) => e,
        None => IndexError::GraphMagic { magic },
    }
}

/// What becomes of bytes that are read as a graph on the given vectors: none for no bytes at all.
pub open spec fn graph_decoded(
    bytes: Seq<u8>,
    vectors: Seq<u32>,
    count: usize,
    d: usize,
    metric: MetricType,
    params: HnswBuildParams,
    r: Result<Option<GraphModel>, IndexError>,
) -> bool {
    if bytes.len() == 0 {
        r == Ok::<Option<GraphModel>, IndexError>(None)
    } else {
        match parse_graph(bytes, count, params) {
            Err(e) => r == Err::<Option<GraphModel>, IndexError>(e),
            Ok(stored) => match r {
                Ok(Some(g)) => g == GraphModel {
                    d,
                    metric,
                    vectors,
                    levels: stored.levels,
                    adjacency: stored.adjacency,
                    entry_point: if count > 0 {
                        stored.entry_point
                    } else {
                        0
                    },
                    max_observed_level: if count > 0 {
                        stored.max_observed_level
                    } else {
                        0
                    },
                    params: params.spec_sanitized(),
                } && g.levels.len() == count,
                Ok(None) => false,
                Err(e) => hnsw::parts_refused(
                    vectors.len(),
                    count,
                    d,
                    stored.levels,
                    stored.adjacency,
                    stored.entry_point,
                    stored.max_observed_level,
                    e,
                ),
            },
        }
    }
}

/// The graph that the bytes stand for, on the given vectors; none for no bytes at all.
pub fn decode_graph(
    bytes: &[u8],
    vectors: Vec<u32>,
    count: usize,
    d: usize,
    metric: MetricType,
    params: HnswBuildParams,
) -> (r: Result<Option<HnswGraph>, IndexError>)
    ensures
        graph_decoded(
            bytes@,
            vectors@,
            count,
            d,
            metric,
            params,
            (match r {
                Ok(g) => Ok(list_graphs::graph_view(g)),
                Err(e) => Err(e),
            }),
        ),
        r matches Ok(Some(g)) ==> g@.well_formed(),
{
    if bytes.len() == 0 {
        return Ok(None);
    }
    let mut pos: usize = 0;
    match read_header(bytes, &mut pos) {
        Ok(_) => {},
        Err(IndexError::GraphMagic { magic }) => {
            return Err(find_plain_fault(bytes, magic, count, params));
        },
        Err(e) => {
            return Err(e);
        },
    }
    let stored_count: usize = match read_u32_varint(bytes, &mut pos) {
        Ok(v) => v,
        Err(e) => {
            return Err(e);
        },
    };
    if stored_count != count {
        return Err(IndexError::GraphCount { stored: stored_count, count });
    }
    let entry_point: usize = match read_u32_varint(bytes, &mut pos) {
        Ok(v) => v,
        Err(e) => {
            return Err(e);
        },
    };
    let max_observed_level: usize = match read_u32_varint(bytes, &mut pos) {
        Ok(v) => v,
        Err(e) => {
            return Err(e);
        },
    };
    let levels: Vec<usize> = match read_levels(bytes, &mut pos, count, params.max_level) {
        Ok(levels) => levels,
        Err(e) => {
            return Err(e);
        },
    };
    let neighbors: Vec<Vec<Vec<usize>>> = match read_adjacency(
        bytes,
        &mut pos,
        &levels,
        params.m,
    ) {
        Ok(neighbors) => neighbors,
        Err(e) => {
            return Err(e);
        },
    };
    if pos != bytes.len() {
        return Err(IndexError::GraphTrailingBytes);
    }
    match HnswGraph::from_parts(
        vectors,
        count,
        d,
        metric,
        levels,
        neighbors,
        entry_point,
        max_observed_level,
        params,
    ) {
        Ok(g) => Ok(Some(g)),
        Err(e) => Err(e),
    }
}

/// Every list in ascending order.
pub open spec fn sorted_adjacency(adj: Seq<Seq<Seq<usize>>>) -> Seq<Seq<Seq<usize>>> {
    Seq::new(adj.len(), |i: int| Seq::new(adj[i].len(), |l: int| sorted_list(adj[i][l])))
}

/// The stored form keeps to what a reader with these parameters accepts.
pub open spec fn within_limits(g: GraphModel, params: HnswBuildParams) -> bool {
    &&& forall|i: int| 0 <= i < g.levels.len() ==> #[trigger] g.levels[i] < params.max_level
    &&& forall|i: int, l: int|
        0 <= i < g.adjacency.len() && 0 <= l < g.adjacency[i].len() ==> (
        #[trigger] g.adjacency[i][l]).len() <= stored_limit(params.m, l)
}

proof fn lemma_number_found(s: Seq<u8>, pos: int, v: nat)
    requires
        wire::occurs(s, pos, varint::varint_bytes(v)),
        v <= u32::MAX,
    ensures
        number_at(s, pos as nat) == Ok::<(usize, nat), IndexError>(
            (v as usize, (pos + varint::varint_bytes(v).len()) as nat),
        ),
{
    varint::lemma_varint_found(s, pos as nat, v as u64);
}

proof fn lemma_parse_levels(s: Seq<u8>, pos: int, levels: Seq<usize>, k: int, max_level: usize)
    requires
        wire::occurs(s, pos, wire::concat(level_parts(levels))),
        0 <= k <= levels.len(),
        forall|i: int|
            0 <= i < levels.len() ==> #[trigger] levels[i] < max_level && levels[i] <= u32::MAX,
    ensures
        parse_levels(
            s,
            (pos + wire::concat(level_parts(levels).take(k)).len()) as nat,
            levels.take(k),
            levels.len(),
            max_level,
        ) == Ok::<(Seq<usize>, nat), IndexError>(
            (levels, (pos + wire::concat(level_parts(levels)).len()) as nat),
        ),
    decreases levels.len() - k,
{
    let parts = level_parts(levels);
    if k == levels.len() {
        wire::lemma_concat_all(parts);
        assert(levels.take(k) =~= levels);
    } else {
        wire::lemma_concat_part(s, pos, parts, k);
        wire::lemma_concat_next(parts, k);
        lemma_number_found(s, pos + wire::concat(parts.take(k)).len(), levels[k] as nat);
        assert(levels.take(k).push(levels[k]) =~= levels.take(k + 1));
        lemma_parse_levels(s, pos, levels, k + 1, max_level);
    }
}

proof fn lemma_parse_list(s: Seq<u8>, pos: int, list: Seq<usize>, k: int)
    requires
        wire::occurs(s, pos, wire::concat(step_parts(list))),
        0 <= k <= list.len(),
        forall|i: int, j: int| 0 <= i <= j < list.len() ==> list[i] <= list[j],
        forall|i: int| 0 <= i < list.len() ==> #[trigger] list[i] <= u32::MAX,
    ensures
        parse_list(
            s,
            (pos + wire::concat(step_parts(list).take(k)).len()) as nat,
            list.take(k),
            list.len(),
        ) == Ok::<(Seq<usize>, nat), IndexError>(
            (list, (pos + wire::concat(step_parts(list)).len()) as nat),
        ),
    decreases list.len() - k,
{
    let parts = step_parts(list);
    if k == list.len() {
        wire::lemma_concat_all(parts);
        assert(list.take(k) =~= list);
    } else {
        wire::lemma_concat_part(s, pos, parts, k);
        wire::lemma_concat_next(parts, k);
        if k > 0 {
            assert(list[k - 1] <= list[k]);
        }
        let step = (list[k] - before(list, k)) as nat;
        lemma_number_found(s, pos + wire::concat(parts.take(k)).len(), step);
        assert(before(list.take(k), k) == before(list, k));
        assert(list.take(k).push(list[k]) =~= list.take(k + 1));
        lemma_parse_list(s, pos, list, k + 1);
    }
}

proof fn lemma_parse_node(
    s: Seq<u8>,
    pos: int,
    lists: Seq<Seq<usize>>,
    k: int,
    node: usize,
    level: usize,
    m: usize,
    n: nat,
)
    requires
        wire::occurs(s, pos, wire::concat(node_parts(lists))),
        0 <= k <= lists.len(),
        lists.len() == level + 1,
        n <= u32::MAX,
        forall|l: int|
            0 <= l < lists.len() ==> (#[trigger] lists[l]).len() <= stored_limit(m, l)
                && lists[l].len() <= u32::MAX,
        forall|l: int, j: int|
            0 <= l < lists.len() && 0 <= j < lists[l].len() ==> #[trigger] lists[l][j] < n,
    ensures
        ({
            let sorted = Seq::new(lists.len(), |l: int| sorted_list(lists[l]));
            parse_node(
                s,
                (pos + wire::concat(node_parts(lists).take(k)).len()) as nat,
                sorted.take(k),
                node,
                level,
                m,
            ) == Ok::<(Seq<Seq<usize>>, nat), IndexError>(
                (sorted, (pos + wire::concat(node_parts(lists)).len()) as nat),
            )
        }),
    decreases lists.len() - k,
{
    let parts = node_parts(lists);
    let sorted = Seq::new(lists.len(), |l: int| sorted_list(lists[l]));
    if k == lists.len() {
        wire::lemma_concat_all(parts);
        assert(sorted.take(k) =~= sorted);
    } else {
        let list = lists[k];
        let order = sorted_list(list);
        let at = pos + wire::concat(parts.take(k)).len();
        wire::lemma_concat_part(s, pos, parts, k);
        wire::lemma_concat_next(parts, k);
        let head = varint::varint_bytes(list.len());
        wire::lemma_occurs_split(s, at, head, wire::concat(step_parts(order)));
        lemma_number_found(s, at, list.len());
        lemma_sorted_list(list);
        assert forall|i: int| 0 <= i < order.len() implies #[trigger] order[i] <= u32::MAX by {
            assert(list.contains(order[i]));
            let q = choose|q: int| 0 <= q < list.len() && list[q] == order[i];
            assert(lists[k][q] < n);
        }
        wire::lemma_concat_none(step_parts(order));
        assert(order.take(0) =~= Seq::<usize>::empty());
        lemma_parse_list(s, at + head.len(), order, 0);
        assert(sorted.take(k).push(order) =~= sorted.take(k + 1));
        lemma_parse_node(s, pos, lists, k + 1, node, level, m, n);
    }
}

proof fn lemma_parse_adjacency(
    s: Seq<u8>,
    pos: int,
    g: GraphModel,
    params: HnswBuildParams,
    k: int,
)
    requires
        wire::occurs(s, pos, wire::concat(adjacency_parts(g.adjacency))),
        g.well_formed(),
        graph_fits(g),
        within_limits(g, params),
        0 <= k <= g.adjacency.len(),
    ensures
        parse_adjacency(
            s,
            (pos + wire::concat(adjacency_parts(g.adjacency).take(k)).len()) as nat,
            sorted_adjacency(g.adjacency).take(k),
            g.levels,
            params.m,
        ) == Ok::<(Seq<Seq<Seq<usize>>>, nat), IndexError>(
            (
                sorted_adjacency(g.adjacency),
                (pos + wire::concat(adjacency_parts(g.adjacency)).len()) as nat,
            ),
        ),
    decreases g.adjacency.len() - k,
{
    let adj = g.adjacency;
    let parts = adjacency_parts(adj);
    let sorted = sorted_adjacency(adj);
    if k == adj.len() {
        wire::lemma_concat_all(parts);
        assert(sorted.take(k) =~= sorted);
    } else {
        let lists = adj[k];
        let at = pos + wire::concat(parts.take(k)).len();
        wire::lemma_concat_part(s, pos, parts, k);
        wire::lemma_concat_next(parts, k);
        assert(hnsw::node_ok(g.levels, adj[k], k));
        hnsw_build::lemma_links_in_range(g.levels, adj);
        assert forall|l: int| 0 <= l < lists.len() implies (#[trigger] lists[l]).len()
            <= stored_limit(params.m, l) && lists[l].len() <= u32::MAX by {
            assert(adj[k][l].len() <= stored_limit(params.m, l));
        }
        assert forall|l: int, j: int| 0 <= l < lists.len() && 0 <= j < lists[l].len() implies
            #[trigger] lists[l][j] < adj.len() by {
            assert(adj[k][l][j] < adj.len());
        }
        wire::lemma_concat_none(node_parts(lists));
        let order = Seq::new(lists.len(), |l: int| sorted_list(lists[l]));
        assert(order.take(0) =~= Seq::<Seq<usize>>::empty());
        lemma_parse_node(s, at, lists, 0, k as usize, g.levels[k], params.m, adj.len());
        assert(sorted[k] == order);
        assert(sorted.take(k).push(order) =~= sorted.take(k + 1));
        lemma_parse_adjacency(s, pos, g, params, k + 1);
    }
}

proof fn lemma_sorted_links(g: GraphModel)
    requires
        g.well_formed(),
        graph_fits(g),
    ensures
        hnsw::links_ok(g.levels, sorted_adjacency(g.adjacency)),
{
    let sorted = sorted_adjacency(g.adjacency);
    assert forall|i: int| 0 <= i < g.levels.len() implies hnsw::node_ok(
        g.levels,
        #[trigger] sorted[i],
        i,
    ) by {
        assert(hnsw::node_ok(g.levels, g.adjacency[i], i));
        assert forall|l: int| 0 <= l < sorted[i].len() implies hnsw::list_ok(
            g.levels,
            #[trigger] sorted[i][l],
            l,
        ) by {
            let list = g.adjacency[i][l];
            assert(hnsw::list_ok(g.levels, list, l));
            assert(g.adjacency[i][l].len() <= u32::MAX);
            lemma_sorted_list(list);
            assert forall|j: int| 0 <= j < sorted[i][l].len() implies hnsw::edge_ok(
                g.levels,
                #[trigger] sorted[i][l][j],
                l,
            ) by {
                assert(list.contains(sorted_list(list)[j]));
                let q = choose|q: int| 0 <= q < list.len() && list[q] == sorted_list(list)[j];
                assert(hnsw::edge_ok(g.levels, list[q], l));
            }
        }
    }
}

proof fn lemma_sorted_accepted(g: GraphModel)
    requires
        g.well_formed(),
        graph_fits(g),
        g.vectors.len() <= usize::MAX,
    ensures
        hnsw::links_ok(g.levels, sorted_adjacency(g.adjacency)),
        forall|e: IndexError|
            !#[trigger] hnsw::parts_refused(
                g.vectors.len(),
                g.levels.len() as usize,
                g.d,
                g.levels,
                sorted_adjacency(g.adjacency),
                g.entry_point,
                g.max_observed_level,
                e,
            ),
{
    let sorted = sorted_adjacency(g.adjacency);
    lemma_sorted_links(g);
    assert forall|e: IndexError|
        !#[trigger] hnsw::parts_refused(
            g.vectors.len(),
            g.levels.len() as usize,
            g.d,
            g.levels,
            sorted,
            g.entry_point,
            g.max_observed_level,
            e,
        ) by {
        if exists|node: int| #[trigger] hnsw::first_bad_node(g.levels, sorted, node, e) {
            let node = choose|node: int| #[trigger] hnsw::first_bad_node(g.levels, sorted, node, e);
            assert(hnsw::node_ok(g.levels, sorted[node], node));
            if exists|l: int, j: int|
                #[trigger] hnsw::first_bad_edge(g.levels, sorted[node], node, l, j, e) {
                let (l, j) = choose|l: int, j: int|
                    #[trigger] hnsw::first_bad_edge(g.levels, sorted[node], node, l, j, e);
                assert(hnsw::list_ok(g.levels, sorted[node][l], l));
                assert(hnsw::edge_ok(g.levels, sorted[node][l][j], l));
            }
        }
    }
}

proof fn lemma_header_found(s: Seq<u8>)
    requires
        wire::occurs(s, 0, header_bytes()),
    ensures
        header_bytes().len() == 12,
        parse_header(s) == Ok::<nat, IndexError>(12),
{
    let h1 = little_endian::u32_bytes(HNSW_GRAPH_MAGIC);
    let h2 = little_endian::u32_bytes(HNSW_GRAPH_VERSION);
    let h3 = little_endian::u32_bytes(HNSW_GRAPH_FLAG_DELTA_VARINT);
    little_endian::lemma_le_bytes_len(HNSW_GRAPH_MAGIC as nat, 4);
    little_endian::lemma_le_bytes_len(HNSW_GRAPH_VERSION as nat, 4);
    little_endian::lemma_le_bytes_len(HNSW_GRAPH_FLAG_DELTA_VARINT as nat, 4);
    wire::lemma_occurs_split(s, 0, h1 + h2, h3);
    wire::lemma_occurs_split(s, 0, h1, h2);
    little_endian::read_back_u32(s, 0, HNSW_GRAPH_MAGIC);
    little_endian::read_back_u32(s, 4, HNSW_GRAPH_VERSION);
    little_endian::read_back_u32(s, 8, HNSW_GRAPH_FLAG_DELTA_VARINT);
}

proof fn lemma_counts_found(s: Seq<u8>, g: GraphModel)
    requires
        wire::occurs(s, 12, counts_bytes(g)),
        g.levels.len() <= u32::MAX,
        g.entry_point <= u32::MAX,
        g.max_observed_level <= u32::MAX,
    ensures
        ({
            let p1 = 12 + varint::varint_bytes(g.levels.len()).len();
            let p2 = p1 + varint::varint_bytes(g.entry_point as nat).len();
            let p3 = 12 + counts_bytes(g).len();
            &&& number_at(s, 12) == Ok::<(usize, nat), IndexError>((g.levels.len() as usize, p1))
            &&& number_at(s, p1) == Ok::<(usize, nat), IndexError>((g.entry_point, p2))
            &&& number_at(s, p2) == Ok::<(usize, nat), IndexError>((g.max_observed_level, p3))
        }),
{
    let v1 = varint::varint_bytes(g.levels.len());
    let v2 = varint::varint_bytes(g.entry_point as nat);
    let v3 = varint::varint_bytes(g.max_observed_level as nat);
    wire::lemma_occurs_split(s, 12, v1 + v2, v3);
    wire::lemma_occurs_split(s, 12, v1, v2);
    lemma_number_found(s, 12, g.levels.len());
    lemma_number_found(s, 12int + v1.len(), g.entry_point as nat);
    lemma_number_found(s, 12int + v1.len() + v2.len(), g.max_observed_level as nat);
}

proof fn lemma_parse_assembled(
    s: Seq<u8>,
    count: usize,
    params: HnswBuildParams,
    p1: nat,
    p2: nat,
    p3: nat,
    p4: nat,
    stored: StoredGraph,
)
    requires
        parse_header(s) == Ok::<nat, IndexError>(12),
        number_at(s, 12) == Ok::<(usize, nat), IndexError>((count, p1)),
        number_at(s, p1) == Ok::<(usize, nat), IndexError>((stored.entry_point, p2)),
        number_at(s, p2) == Ok::<(usize, nat), IndexError>((stored.max_observed_level, p3)),
        parse_levels(s, p3, Seq::empty(), count as nat, params.max_level) == Ok::<
            (Seq<usize>, nat),
            IndexError,
        >((stored.levels, p4)),
        parse_adjacency(s, p4, Seq::empty(), stored.levels, params.m) == Ok::<
            (Seq<Seq<Seq<usize>>>, nat),
            IndexError,
        >((stored.adjacency, s.len())),
    ensures
        parse_graph(s, count, params) == Ok::<StoredGraph, IndexError>(stored),
{
}

proof fn lemma_pieces_found(g: GraphModel, params: HnswBuildParams)
    requires
        g.well_formed(),
        graph_fits(g),
        within_limits(g, params),
    ensures
        ({
            let s = graph_bytes(g);
            let p3 = 12 + counts_bytes(g).len();
            let p4 = p3 + wire::concat(level_parts(g.levels)).len();
            &&& s.len() > 0
            &&& wire::occurs(s, 12, counts_bytes(g))
            &&& parse_header(s) == Ok::<nat, IndexError>(12)
            &&& parse_levels(s, p3, Seq::empty(), g.levels.len(), params.max_level) == Ok::<
                (Seq<usize>, nat),
                IndexError,
            >((g.levels, p4))
            &&& parse_adjacency(s, p4, Seq::empty(), g.levels, params.m) == Ok::<
                (Seq<Seq<Seq<usize>>>, nat),
                IndexError,
            >((sorted_adjacency(g.adjacency), s.len()))
        }),
{
    let s = graph_bytes(g);
    let levels = wire::concat(level_parts(g.levels));
    let body = wire::concat(adjacency_parts(g.adjacency));
    wire::lemma_occurs_whole(s);
    wire::lemma_occurs_split(s, 0, header_bytes() + counts_bytes(g) + levels, body);
    wire::lemma_occurs_split(s, 0, header_bytes() + counts_bytes(g), levels);
    wire::lemma_occurs_split(s, 0, header_bytes(), counts_bytes(g));
    lemma_header_found(s);
    let p3 = 12 + counts_bytes(g).len();
    wire::lemma_concat_none(level_parts(g.levels));
    assert(g.levels.take(0) =~= Seq::<usize>::empty());
    lemma_parse_levels(s, p3 as int, g.levels, 0, params.max_level);
    let p4 = p3 + levels.len();
    wire::lemma_concat_none(adjacency_parts(g.adjacency));
    assert(sorted_adjacency(g.adjacency).take(0) =~= Seq::<Seq<Seq<usize>>>::empty());
    lemma_parse_adjacency(s, p4 as int, g, params, 0);
}

proof fn lemma_graph_found(g: GraphModel, params: HnswBuildParams)
    requires
        g.well_formed(),
        graph_fits(g),
        within_limits(g, params),
    ensures
        graph_bytes(g).len() > 0,
        parse_graph(graph_bytes(g), g.levels.len() as usize, params) == Ok::<
            StoredGraph,
            IndexError,
        >(
            StoredGraph {
                levels: g.levels,
                adjacency: sorted_adjacency(g.adjacency),
                entry_point: g.entry_point,
                max_observed_level: g.max_observed_level,
            },
        ),
{
    let p1 = (12 + varint::varint_bytes(g.levels.len()).len()) as nat;
    lemma_pieces_found(g, params);
    lemma_counts_found(graph_bytes(g), g);
    lemma_parse_assembled(
        graph_bytes(g),
        g.levels.len() as usize,
        params,
        p1,
        p1 + varint::varint_bytes(g.entry_point as nat).len(),
        12 + counts_bytes(g).len(),
        12 + counts_bytes(g).len() + wire::concat(level_parts(g.levels)).len(),
        StoredGraph {
            levels: g.levels,
            adjacency: sorted_adjacency(g.adjacency),
            entry_point: g.entry_point,
            max_observed_level: g.max_observed_level,
        },
    );
}

/// A stored graph reads back as it was, but for the order of its neighbour lists; and what is read
/// back is accepted as a graph.
pub proof fn graph_round_trip(g: GraphModel, params: HnswBuildParams)
    requires
        g.well_formed(),
        graph_fits(g),
        within_limits(g, params),
        g.vectors.len() <= usize::MAX,
    ensures
        graph_bytes(g).len() > 0,
        parse_graph(graph_bytes(g), g.levels.len() as usize, params) == Ok::<
            StoredGraph,
            IndexError,
        >(
            StoredGraph {
                levels: g.levels,
                adjacency: sorted_adjacency(g.adjacency),
                entry_point: g.entry_point,
                max_observed_level: g.max_observed_level,
            },
        ),
        hnsw::links_ok(g.levels, sorted_adjacency(g.adjacency)),
        forall|e: IndexError|
            !#[trigger] hnsw::parts_refused(
                g.vectors.len(),
                g.levels.len() as usize,
                g.d,
                g.levels,
                sorted_adjacency(g.adjacency),
                g.entry_point,
                g.max_observed_level,
                e,
            ),
{
    lemma_graph_found(g, params);
    lemma_sorted_accepted(g);
}

/// A graph that was built keeps to the limits that a reader with the same parameters sets.
pub proof fn built_graphs_keep_to_the_limits(g: GraphModel)
    requires
        hnsw_build::growth_state(g),
        g.levels.len() > 1 ==> g.params.m * 2 <= usize::MAX,
    ensures
        within_limits(g, g.params),
{
    reveal(hnsw_build::growth_state);
    assert forall|i: int| 0 <= i < g.levels.len() implies #[trigger] g.levels[i]
        < g.params.max_level by {
        hnsw_build::level_is_below_maximum(i as usize, g.params.m, g.params.max_level);
    }
    assert forall|i: int, l: int|
        0 <= i < g.adjacency.len() && 0 <= l < g.adjacency[i].len() implies (
    #[trigger] g.adjacency[i][l]).len() <= stored_limit(g.params.m, l) by {
        assert(hnsw_build::tidy_list(g.adjacency[i][l], i, l, g.params));
        if g.levels.len() <= 1 && g.adjacency[i][l].len() > 0 {
            assert(hnsw::node_ok(g.levels, g.adjacency[i], i));
            assert(hnsw::list_ok(g.levels, g.adjacency[i][l], l));
            assert(hnsw::edge_ok(g.levels, g.adjacency[i][l][0], l));
        }
    }
}

/// A graph that was built and stored is read back: on its own vectors it is decoded as it was, with
/// every neighbour list in ascending order.
pub proof fn built_graphs_read_back(g: GraphModel, r: Result<Option<GraphModel>, IndexError>)
    requires
        g.well_formed(),
        hnsw_build::growth_state(g),
        g.levels.len() > 1 ==> g.params.m * 2 <= usize::MAX,
        graph_fits(g),
        g.vectors.len() <= usize::MAX,
        graph_decoded(
            graph_bytes(g),
            g.vectors,
            g.levels.len() as usize,
            g.d,
            g.metric,
            g.params,
            r,
        ),
    ensures
        r == Ok::<Option<GraphModel>, IndexError>(
            Some(GraphModel { adjacency: sorted_adjacency(g.adjacency), ..g }),
        ),
{
    built_graphs_keep_to_the_limits(g);
    graph_round_trip(g, g.params);
    reveal(hnsw_build::growth_state);
}

} // verus!
