//! Which indexes can be written to files, told by their sizes, and how their rows are stored.
use vstd::prelude::*;

use crate::clustering_law;
use crate::error::IndexError;
use crate::float_bits;
use crate::graph_codec;
use crate::hnsw;
use crate::hnsw::GraphModel;
use crate::index_io_util;
use crate::ivf_lists;
use crate::ivfflat::FlatModel;
use crate::ivfflat_io;
use crate::ivfhnswflat::HnswFlatModel;
use crate::ivfhnswflat_io;
use crate::ivfhnswsq::HnswSqModel;
use crate::ivfhnswsq_io;
use crate::ivfrq::RqModel;
use crate::ivfrq_io;
use crate::list_table;
use crate::little_endian;
use crate::row_law;
use crate::sort;
use crate::varint;
use crate::wire;

verus! {

/// A number is stored in at most ten bytes, and in at least one.
pub proof fn numbers_take_few_bytes(v: nat)
    requires
        v <= u64::MAX,
    ensures
        1 <= varint::varint_bytes(v).len() <= 10,
{
    lemma_varint_len(v, 10);
}

proof fn lemma_varint_len(v: nat, room: nat)
    requires
        1 <= room <= 10,
        room == 10 ==> v <= 0xffff_ffff_ffff_ffff,
        room == 9 ==> v < 0x200_0000_0000_0000,
        room == 8 ==> v < 0x4_0000_0000_0000,
        room == 7 ==> v < 0x800_0000_0000,
        room == 6 ==> v < 0x10_0000_0000,
        room == 5 ==> v < 0x2000_0000,
        room == 4 ==> v < 0x40_0000,
        room == 3 ==> v < 0x8000,
        room == 2 ==> v < 0x100,
        room == 1 ==> v < 0x2,
    ensures
        1 <= varint::varint_bytes(v).len() <= room,
    decreases room,
{
    if v >= 0x80 {
        lemma_varint_len(v / 0x80, (room - 1) as nat);
    }
}

/// Where list `i` begins in a file whose lists begin at `start`: behind the lists before it.
pub open spec fn place_of(payloads: Seq<Seq<u8>>, start: int, i: int) -> int {
    start + wire::concat(payloads.take(i)).len()
}

/// An index of vectors is well shaped where it has dimensions and lists, as many centroids as lists
/// and no more than a gibi of their values, and a vector for each id.
pub proof fn well_shaped_vectors_are_accepted(m: FlatModel)
    ensures
        ivfflat_io::shape_ok(m) <==> {
            &&& m.d >= 1
            &&& m.nlist >= 1
            &&& m.ids.len() == m.nlist
            &&& m.vectors.len() == m.nlist
            &&& m.nlist * m.d <= 1_073_741_824
            &&& m.centroids.len() == m.nlist * m.d
            &&& forall|i: int|
                0 <= i < m.nlist ==> m.vectors[i].len() == (#[trigger] m.ids[i]).len() * m.d
        },
{
}

/// An index of vectors fits into a file where its numbers fit into their places: no list has more
/// than 2,147,483,647 ids or bytes of ids, and every list begins before the end of what an offset
/// can say.
pub proof fn vectors_fit_where_their_numbers_do(m: FlatModel, start: int)
    ensures
        ivfflat_io::fits(m, start) <==> {
            &&& m.d <= 2_147_483_647
            &&& m.nlist <= 2_147_483_647
            &&& ivf_lists::total_rows(m.ids) <= 9_223_372_036_854_775_807
            &&& forall|i: int|
                0 <= i < m.nlist ==> (#[trigger] m.ids[i]).len() <= 2_147_483_647 && (
                m.ids[i].len() > 0 ==> ivfflat_io::id_section(m, i).len() <= 2_147_483_647)
            &&& forall|i: int|
                0 <= i < m.nlist ==> #[trigger] place_of(
                    ivfflat_io::payloads(m),
                    start + 64 + 4 * (m.nlist * m.d) + 16 * m.nlist,
                    i,
                ) <= 9_223_372_036_854_775_807
        },
{
    let at = start + 64 + 4 * (m.nlist * m.d) + 16 * m.nlist;
    let parts = ivfflat_io::payloads(m);
    assert forall|i: int| #[trigger] place_of(parts, at, i) == list_table::list_offset(
        parts,
        ivfflat_io::data_start(m, start),
        i,
    ) by {}
    if ivfflat_io::fits(m, start) {
        assert forall|i: int|
            0 <= i < m.nlist implies (#[trigger] m.ids[i]).len() <= 2_147_483_647 && (m.ids[i].len()
            > 0 ==> ivfflat_io::id_section(m, i).len() <= 2_147_483_647) by {
            assert(ivfflat_io::list_fits(m, i));
        }
        assert forall|i: int| 0 <= i < m.nlist implies #[trigger] place_of(parts, at, i)
            <= 9_223_372_036_854_775_807 by {
            assert(list_table::list_offset(parts, ivfflat_io::data_start(m, start), i)
                <= i64::MAX);
        }
    }
    if !ivfflat_io::fits(m, start) {
        if forall|i: int| 0 <= i < m.nlist ==> #[trigger] ivfflat_io::list_fits(m, i) {
            if !list_table::offsets_fit(parts, ivfflat_io::data_start(m, start)) {
                let i = choose|i: int|
                    0 <= i < parts.len() && #[trigger] list_table::list_offset(
                        parts,
                        ivfflat_io::data_start(m, start),
                        i,
                    ) > i64::MAX;
                assert(place_of(parts, at, i) > i64::MAX);
            }
        } else {
            let i = choose|i: int| 0 <= i < m.nlist && !#[trigger] ivfflat_io::list_fits(m, i);
            assert(m.ids[i].len() > 2_147_483_647 || ivfflat_io::id_section(m, i).len()
                > 2_147_483_647);
        }
    }
}

/// An index of vectors with graphs is well shaped where it is one of vectors, and each list that is
/// not empty has a graph with a node for each of its vectors and the same values.
pub proof fn well_shaped_graphs_are_accepted(m: HnswFlatModel)
    ensures
        ivfhnswflat_io::shape_ok(m) <==> {
            &&& ivfflat_io::shape_ok(m.flat)
            &&& m.graphs.len() == m.flat.nlist
            &&& forall|i: int|
                0 <= i < m.flat.nlist ==> match #[trigger] m.graphs[i] {
                    Some(g) => g.levels.len() == m.flat.ids[i].len()
                        && float_bits::same_values(g.vectors, m.flat.vectors[i]),
                    None => m.flat.ids[i].len() == 0,
                }
        },
{
    if ivfhnswflat_io::shape_ok(m) {
        assert forall|i: int|
            0 <= i < m.flat.nlist implies m.flat.vectors[i].len() == (#[trigger] m.flat.ids[i]).len()
            * m.flat.d by {
            assert(ivfhnswflat_io::list_ok(m, i));
        }
        assert forall|i: int| 0 <= i < m.flat.nlist implies match #[trigger] m.graphs[i] {
            Some(g) => g.levels.len() == m.flat.ids[i].len() && float_bits::same_values(
                g.vectors,
                m.flat.vectors[i],
            ),
            None => m.flat.ids[i].len() == 0,
        } by {
            assert(ivfhnswflat_io::list_ok(m, i));
        }
    }
    if ivfflat_io::shape_ok(m.flat) && m.graphs.len() == m.flat.nlist && (forall|i: int|
        0 <= i < m.flat.nlist ==> match #[trigger] m.graphs[i] {
            Some(g) => g.levels.len() == m.flat.ids[i].len() && float_bits::same_values(
                g.vectors,
                m.flat.vectors[i],
            ),
            None => m.flat.ids[i].len() == 0,
        }) {
        assert forall|i: int| 0 <= i < m.flat.nlist implies #[trigger] ivfhnswflat_io::list_ok(
            m,
            i,
        ) by {
            assert(m.flat.vectors[i].len() == m.flat.ids[i].len() * m.flat.d);
            assert(match m.graphs[i] {
                Some(g) => g.levels.len() == m.flat.ids[i].len() && float_bits::same_values(
                    g.vectors,
                    m.flat.vectors[i],
                ),
                None => m.flat.ids[i].len() == 0,
            });
        }
    }
}

/// A graph can be stored where its numbers are no more than 4,294,967,295.
pub proof fn graphs_fit_where_their_numbers_do(g: GraphModel)
    ensures
        graph_codec::graph_fits(g) <==> {
            &&& g.levels.len() <= 4_294_967_295
            &&& forall|i: int| 0 <= i < g.levels.len() ==> #[trigger] g.levels[i] <= 4_294_967_295
            &&& forall|i: int, l: int|
                0 <= i < g.adjacency.len() && 0 <= l < g.adjacency[i].len() ==> (
                #[trigger] g.adjacency[i][l]).len() <= 4_294_967_295
        },
{
}

/// A list of vectors with a graph fits where its numbers do.
pub proof fn graph_lists_fit_where_their_numbers_do(m: HnswFlatModel, i: int)
    requires
        m.flat.ids[i].len() <= 2_147_483_647,
        ivfhnswflat_io::graph_section(m, i).len() <= 2_147_483_647,
        m.graphs[i] matches Some(g) ==> graph_codec::graph_fits(g),
    ensures
        ivfhnswflat_io::list_fits(m, i),
{
}

/// A list of codes with a graph fits where its numbers do.
pub proof fn code_lists_fit_where_their_numbers_do(
    m: HnswSqModel,
    dec: ivfhnswsq_io::Decoding,
    i: int,
)
    requires
        m.ids[i].len() <= 2_147_483_647,
        m.ids[i].len() > 0 ==> {
            &&& ivfhnswsq_io::id_section(m, i).len() <= 2_147_483_647
            &&& ivfhnswsq_io::graph_section(m, dec, i).len() <= 2_147_483_647
            &&& ivfhnswsq_io::payload(m, dec, i).len() <= 9_223_372_036_854_775_807
            &&& graph_codec::graph_fits(ivfhnswsq_io::sorted_graph(m, dec, i))
        },
    ensures
        ivfhnswsq_io::list_fits(m, dec, i),
{
}

/// An index of one-bit codes is well shaped where it has dimensions and lists, as many centroids as
/// lists, and a code of a bit for each dimension and factors for each id.
pub proof fn well_shaped_bits_are_accepted(m: RqModel)
    ensures
        ivfrq_io::shape_ok(m) <==> {
            &&& m.d >= 1
            &&& m.nlist >= 1
            &&& m.ids.len() == m.nlist
            &&& m.codes.len() == m.nlist
            &&& m.factors.len() == m.nlist
            &&& m.nlist * m.d <= 1_073_741_824
            &&& m.centroids.len() == m.nlist * m.d
            &&& forall|i: int|
                0 <= i < m.nlist ==> m.codes[i].len() == (#[trigger] m.ids[i]).len() * ((m.d + 7)
                    / 8) && m.factors[i].len() == m.ids[i].len()
        },
{
    if ivfrq_io::shape_ok(m) {
        assert forall|i: int|
            0 <= i < m.nlist implies m.codes[i].len() == (#[trigger] m.ids[i]).len() * ((m.d + 7)
            / 8) && m.factors[i].len() == m.ids[i].len() by {
            assert(ivfrq_io::list_ok(m, i));
        }
    }
    if m.ids.len() == m.nlist && (forall|i: int|
        0 <= i < m.nlist ==> m.codes[i].len() == (#[trigger] m.ids[i]).len() * ((m.d + 7) / 8)
            && m.factors[i].len() == m.ids[i].len()) {
        assert forall|i: int| 0 <= i < m.nlist implies #[trigger] ivfrq_io::list_ok(m, i) by {
            assert(m.codes[i].len() == m.ids[i].len() * ((m.d + 7) / 8));
        }
    }
}

/// A list of one-bit codes fits where its numbers do.
pub proof fn bit_lists_fit_where_their_numbers_do(m: RqModel, i: int)
    requires
        m.ids[i].len() <= 2_147_483_647,
        m.ids[i].len() > 0 ==> ivfrq_io::id_section(m, i).len() <= 2_147_483_647,
    ensures
        ivfrq_io::list_fits(m, i),
{
}

/// In a stored list of one-bit codes each code and its factors stand at the place of their id.
pub proof fn stored_bits_stay_with_their_ids(m: RqModel, i: int)
    requires
        0 <= i < m.nlist,
        ivfrq_io::shape_ok(m),
        m.ids[i].len() <= usize::MAX,
    ensures
        exists|order: Seq<usize>|
            {
                &&& #[trigger] row_law::is_order_of_ids(m.ids[i], order)
                &&& forall|p: int|
                    0 <= p < m.ids[i].len() ==> #[trigger] ivf_lists::sorted_ids(m.ids[i])[p]
                        == m.ids[i][order[p] as int]
                &&& clustering_law::holds_rows(
                    ivfrq_io::sorted_codes(m, i),
                    m.codes[i],
                    ((m.d + 7) / 8) as nat,
                    order,
                )
                &&& ivfrq_io::sorted_factors(m, i).len() == m.ids[i].len()
                &&& forall|p: int|
                    0 <= p < m.ids[i].len() ==> #[trigger] ivfrq_io::sorted_factors(m, i)[p]
                        == m.factors[i][order[p] as int]
            },
{
    assert(ivfrq_io::list_ok(m, i));
    let ids = m.ids[i];
    let keys = ivf_lists::id_keys(ids);
    let order = ivf_lists::id_order(ids);
    sort::stable_order_facts(keys);
    ivf_lists::lemma_sorted_ids(ids);
    assert forall|p: int, q: int| 0 <= p < q < order.len() implies ids[#[trigger] order[p] as int]
        < ids[#[trigger] order[q] as int] || (ids[order[p] as int] == ids[order[q] as int]
        && order[p] < order[q]) by {
        assert(keys[order[p] as int] <= keys[order[q] as int]);
    }
    clustering_law::gathered_rows_are_kept(
        m.codes[i],
        ((m.d + 7) / 8) as nat,
        order,
        ids.len(),
    );
    assert(row_law::is_order_of_ids(ids, order));
}

/// Queries are accepted where there are some, of as many values as the index has dimensions, and
/// where results and lists are asked for.
pub proof fn queries_are_checked(queries_len: nat, nq: usize, d: usize, k: usize, nprobe: usize)
    ensures
        index_io_util::search_refused(queries_len, nq, d, k, nprobe) is None <==> nq > 0 && k > 0
            && nprobe > 0 && queries_len == nq * d && nq * d <= usize::MAX,
        queries_len <= usize::MAX ==> (index_io_util::query_refused(
            queries_len as usize,
            d,
            k,
            nprobe,
        ) is None <==> queries_len == d && k > 0 && nprobe > 0),
{
}

/// The parts of a graph are put together wherever they fit: a vector of `d` values, a level and
/// lists for each node, edges only to nodes that are on their level, and an entry point on the
/// highest level that any node is on.
pub proof fn fitting_parts_are_accepted(
    vectors_len: nat,
    n: usize,
    d: usize,
    levels: Seq<usize>,
    adjacency: Seq<Seq<Seq<usize>>>,
    entry_point: usize,
    max_observed_level: usize,
    e: IndexError,
)
    requires
        vectors_len == n * d,
        vectors_len <= usize::MAX,
        levels.len() == n,
        adjacency.len() == n,
        forall|i: int|
            0 <= i < n ==> (#[trigger] adjacency[i]).len() == levels[i] + 1,
        forall|i: int, l: int, j: int|
            0 <= i < n && 0 <= l < adjacency[i].len() && 0 <= j < adjacency[i][l].len() ==> (
            #[trigger] adjacency[i][l][j]) < n && levels[adjacency[i][l][j] as int] >= l,
        n > 0 ==> entry_point < n && levels[entry_point as int] == max_observed_level,
        n > 0 ==> forall|i: int| 0 <= i < n ==> #[trigger] levels[i] <= max_observed_level,
    ensures
        !hnsw::parts_refused(
            vectors_len,
            n,
            d,
            levels,
            adjacency,
            entry_point,
            max_observed_level,
            e,
        ),
{
    if n > 0 {
        hnsw::lemma_top_level(levels);
        assert(max_observed_level == hnsw::top_level(levels)) by {
            assert(levels[entry_point as int] <= hnsw::top_level(levels));
        }
        assert forall|node: int| !#[trigger] hnsw::first_bad_node(levels, adjacency, node, e) by {
            if hnsw::first_bad_node(levels, adjacency, node, e) {
                let lists = adjacency[node];
                assert(lists.len() == levels[node] + 1);
                let (l, j) = choose|l: int, j: int| #[trigger]
                    hnsw::first_bad_edge(levels, lists, node, l, j, e);
                assert(adjacency[node][l][j] < n);
                assert(hnsw::edge_ok(levels, lists[l][j], l));
            }
        }
    }
}

/// A graph that was put together, read or built has a vector of `d` values and a list on each of
/// its levels for every node, edges only to nodes that are on their level, and an entry point on
/// the highest level that any node is on.
pub proof fn graphs_hold_together(g: GraphModel)
    requires
        g.well_formed(),
    ensures
        g.vectors.len() == g.levels.len() * g.d,
        g.adjacency.len() == g.levels.len(),
        forall|i: int|
            0 <= i < g.levels.len() ==> (#[trigger] g.adjacency[i]).len() == g.levels[i] + 1,
        forall|i: int, l: int, j: int|
            0 <= i < g.levels.len() && 0 <= l < g.adjacency[i].len() && 0 <= j
                < g.adjacency[i][l].len() ==> (#[trigger] g.adjacency[i][l][j]) < g.levels.len()
                && g.levels[g.adjacency[i][l][j] as int] >= l,
        g.levels.len() > 0 ==> g.entry_point < g.levels.len() && forall|i: int|
            0 <= i < g.levels.len() ==> #[trigger] g.levels[i] <= g.levels[g.entry_point as int],
        g.levels.len() > 0 ==> g.max_observed_level == g.levels[g.entry_point as int],
{
    hnsw::lemma_top_level(g.levels);
    assert forall|i: int| 0 <= i < g.levels.len() implies (#[trigger] g.adjacency[i]).len()
        == g.levels[i] + 1 by {
        assert(hnsw::node_ok(g.levels, g.adjacency[i], i));
    }
    assert forall|i: int, l: int, j: int|
        0 <= i < g.levels.len() && 0 <= l < g.adjacency[i].len() && 0 <= j
            < g.adjacency[i][l].len() implies (#[trigger] g.adjacency[i][l][j]) < g.levels.len()
        && g.levels[g.adjacency[i][l][j] as int] >= l by {
        assert(hnsw::node_ok(g.levels, g.adjacency[i], i));
        assert(hnsw::list_ok(g.levels, g.adjacency[i][l], l));
        assert(hnsw::edge_ok(g.levels, g.adjacency[i][l][j], l));
    }
}

/// Numbers are stored lowest byte first, negative ones as what is left of the power of two behind
/// the greatest.
pub proof fn numbers_are_stored_lowest_byte_first(a: u32, b: u64, c: i32, d: i64)
    ensures
        ({
            let s = little_endian::u32_bytes(a);
            &&& s.len() == 4
            &&& s[0] + 0x100 * s[1] + 0x1_0000 * s[2] + 0x100_0000 * s[3] == a
        }),
        ({
            let s = little_endian::i32_bytes(c);
            &&& s.len() == 4
            &&& s[0] + 0x100 * s[1] + 0x1_0000 * s[2] + 0x100_0000 * s[3] == (if c < 0 {
                0x1_0000_0000 + c
            } else {
                c as int
            })
        }),
        ({
            let s = little_endian::u64_bytes(b);
            &&& s.len() == 8
            &&& s[0] + 0x100 * s[1] + 0x1_0000 * s[2] + 0x100_0000 * s[3] + 0x1_0000_0000 * s[4]
                + 0x100_0000_0000 * s[5] + 0x1_0000_0000_0000 * s[6] + 0x100_0000_0000_0000 * s[7]
                == b
        }),
        ({
            let s = little_endian::i64_bytes(d);
            &&& s.len() == 8
            &&& s[0] + 0x100 * s[1] + 0x1_0000 * s[2] + 0x100_0000 * s[3] + 0x1_0000_0000 * s[4]
                + 0x100_0000_0000 * s[5] + 0x1_0000_0000_0000 * s[6] + 0x100_0000_0000_0000 * s[7]
                == (if d < 0 {
                0x1_0000_0000_0000_0000 + d
            } else {
                d as int
            })
        }),
{
    lemma_four_bytes(a as nat);
    lemma_four_bytes(little_endian::i32_digits(c));
    lemma_eight_bytes(b as nat);
    lemma_eight_bytes(little_endian::i64_digits(d));
}

proof fn lemma_four_bytes(v: nat)
    requires
        v < 0x1_0000_0000,
    ensures
        ({
            let s = little_endian::le_bytes(v, 4);
            &&& s.len() == 4
            &&& s[0] + 0x100 * s[1] + 0x1_0000 * s[2] + 0x100_0000 * s[3] == v
        }),
{
    reveal_with_fuel(little_endian::le_bytes, 5);
}

proof fn lemma_eight_bytes(v: nat)
    requires
        v < 0x1_0000_0000_0000_0000,
    ensures
        ({
            let s = little_endian::le_bytes(v, 8);
            &&& s.len() == 8
            &&& s[0] + 0x100 * s[1] + 0x1_0000 * s[2] + 0x100_0000 * s[3] + 0x1_0000_0000 * s[4]
                + 0x100_0000_0000 * s[5] + 0x1_0000_0000_0000 * s[6] + 0x100_0000_0000_0000 * s[7]
                == v
        }),
{
    reveal_with_fuel(little_endian::le_bytes, 9);
}

/// The number that bytes hold seven bits of each, the lowest first.
pub open spec fn by_seven_bits(s: Seq<u8>) -> int
    decreases s.len(),
{
    if s.len() == 0 {
        0
    } else {
        s[0] % 128 + 128 * by_seven_bits(s.drop_first())
    }
}

/// A number of variable length holds seven bits in each byte, the lowest first, and every byte but
/// the last says that another one follows. No byte could be left out.
pub proof fn short_numbers_hold_seven_bits_a_byte(v: nat)
    ensures
        ({
            let s = varint::varint_bytes(v);
            &&& s.len() >= 1
            &&& by_seven_bits(s) == v
            &&& forall|i: int| 0 <= i < s.len() ==> (#[trigger] s[i] >= 128 <==> i < s.len() - 1)
            &&& s.len() > 1 ==> s[s.len() - 1] != 0
        }),
    decreases v,
{
    let s = varint::varint_bytes(v);
    if v < 128 {
        assert(s.drop_first() =~= Seq::<u8>::empty());
        assert(by_seven_bits(s.drop_first()) == 0);
    } else {
        let rest = varint::varint_bytes(v / 128);
        short_numbers_hold_seven_bits_a_byte(v / 128);
        assert(s.drop_first() =~= rest);
        assert forall|i: int| 0 <= i < s.len() implies (#[trigger] s[i] >= 128 <==> i < s.len()
            - 1) by {
            if i > 0 {
                assert(s[i] == rest[i - 1]);
            }
        }
        assert(s[s.len() - 1] == rest[rest.len() - 1]);
    }
}

} // verus!
