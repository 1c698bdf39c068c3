//! What is read of a file that is searched without being held in memory, told by its lists.
use vstd::prelude::*;

use crate::graph_lists::GraphTable;
use crate::index;
use crate::ivfhnswsq_io;
use crate::ivfhnswsq_read;
use crate::ivfhnswsq_read::{IVFHNSWSQIndexReader, ListPayloadMeta, SqGraphList};
use crate::read_plan;
use crate::read_plan::RangeModel;
use crate::sort;

verus! {

/// The bytes of list `id` are read in full, as the table gives them, in one of the ranges.
pub open spec fn is_read(ranges: Seq<RangeModel>, t: GraphTable, id: usize, at: int, place: int) -> bool {
    let range = ranges[at];
    let meta = range.metas[place];
    &&& 0 <= at < ranges.len()
    &&& 0 <= place < range.metas.len()
    &&& meta.list_id == id
    &&& meta.offset == t.offsets[id as int]
    &&& meta.count == t.counts[id as int] as usize
    &&& meta.payload_len == t.tails[id as int] as usize
    &&& range.start <= meta.offset
    &&& meta.offset + meta.payload_len <= range.end
}

spec fn is_as_stored(meta: ListPayloadMeta, t: GraphTable, id: usize) -> bool {
    &&& meta.list_id == id
    &&& meta.offset == t.offsets[id as int]
    &&& meta.count == t.counts[id as int] as usize
    &&& meta.payload_len == t.tails[id as int] as usize
}

proof fn lemma_metas(
    t: GraphTable,
    nlist: usize,
    list_ids: Seq<usize>,
    got: Seq<ListPayloadMeta>,
    metas: Seq<ListPayloadMeta>,
)
    requires
        ivfhnswsq_read::metas_of(t, nlist, list_ids, got) == Ok::<
            Seq<ListPayloadMeta>,
            crate::error::IndexError,
        >(metas),
    ensures
        metas.len() <= got.len() + list_ids.len(),
        forall|m: ListPayloadMeta| #[trigger] got.contains(m) ==> metas.contains(m),
        forall|k: int|
            0 <= k < list_ids.len() ==> (#[trigger] list_ids[k]) < nlist && (t.counts[list_ids[k] as int]
                != 0 ==> exists|m: ListPayloadMeta|
                metas.contains(m) && #[trigger] is_as_stored(m, t, list_ids[k])),
        forall|m: ListPayloadMeta| #[trigger]
            metas.contains(m) ==> got.contains(m) || (list_ids.contains(m.list_id)
                && t.counts[m.list_id as int] != 0),
    decreases list_ids.len(),
{
    if list_ids.len() > 0 {
        let id = list_ids[0];
        let rest = list_ids.drop_first();
        let found = ivfhnswsq_read::payload_meta(t, nlist, id);
        let more = match found {
            Ok(Some(m)) => got.push(m),
            _ => got,
        };
        lemma_metas(t, nlist, rest, more, metas);
        assert forall|m: ListPayloadMeta| #[trigger] got.contains(m) implies metas.contains(m) by {
            let q = choose|q: int| 0 <= q < got.len() && got[q] == m;
            assert(more[q] == m);
            assert(more.contains(m));
        }
        assert forall|k: int| 0 <= k < list_ids.len() implies (#[trigger] list_ids[k]) < nlist && (
        t.counts[list_ids[k] as int] != 0 ==> exists|m: ListPayloadMeta|
            metas.contains(m) && #[trigger] is_as_stored(m, t, list_ids[k])) by {
            if k > 0 {
                assert(rest[k - 1] == list_ids[k]);
            } else if t.counts[id as int] != 0 {
                let m = found->Ok_0->Some_0;
                assert(more[got.len() as int] == m);
                assert(more.contains(m));
                assert(is_as_stored(m, t, id));
            }
        }
        assert forall|m: ListPayloadMeta| #[trigger] metas.contains(m) implies got.contains(m) || (
        list_ids.contains(m.list_id) && t.counts[m.list_id as int] != 0) by {
            if more.contains(m) {
                let q = choose|q: int| 0 <= q < more.len() && more[q] == m;
                if q < got.len() {
                    assert(got[q] == m);
                } else {
                    assert(m.list_id == id);
                    assert(list_ids.contains(id));
                }
            } else {
                let q = choose|q: int| 0 <= q < rest.len() && rest[q] == m.list_id;
                assert(list_ids[q + 1] == m.list_id);
            }
        }
    }
}

proof fn lemma_in_some_range(ranges: Seq<RangeModel>, m: ListPayloadMeta) -> (found: (int, int))
    requires
        read_plan::all_metas(ranges).contains(m),
    ensures
        0 <= found.0 < ranges.len(),
        0 <= found.1 < ranges[found.0].metas.len(),
        ranges[found.0].metas[found.1] == m,
    decreases ranges.len(),
{
    let all = read_plan::all_metas(ranges);
    let q = choose|q: int| 0 <= q < all.len() && all[q] == m;
    let front = ranges.drop_last();
    let before = read_plan::all_metas(front);
    if q < before.len() {
        assert(before[q] == m);
        let found = lemma_in_some_range(front, m);
        assert(ranges[found.0] == front[found.0]);
        found
    } else {
        (ranges.len() - 1, q - before.len())
    }
}

proof fn lemma_in_all(ranges: Seq<RangeModel>, at: int, place: int)
    requires
        0 <= at < ranges.len(),
        0 <= place < ranges[at].metas.len(),
    ensures
        read_plan::all_metas(ranges).contains(ranges[at].metas[place]),
    decreases ranges.len(),
{
    let all = read_plan::all_metas(ranges);
    let front = ranges.drop_last();
    let before = read_plan::all_metas(front);
    let m = ranges[at].metas[place];
    if at < front.len() {
        lemma_in_all(front, at, place);
        assert(front[at] == ranges[at]);
        let q = choose|q: int| 0 <= q < before.len() && before[q] == m;
        assert(all[q] == m);
    } else {
        assert(all[before.len() + place] == m);
    }
}

/// Of the lists that are asked for, every one that has rows is read, in full and where the table
/// says that it is; nothing is read for a list that was not asked for.
pub proof fn every_list_asked_for_is_read(
    t: GraphTable,
    nlist: usize,
    list_ids: Seq<usize>,
    ranges: Seq<RangeModel>,
)
    requires
        list_ids.len() <= usize::MAX,
        ivfhnswsq_read::read_ranges(t, nlist, list_ids) == Ok::<
            Seq<RangeModel>,
            crate::error::IndexError,
        >(ranges),
    ensures
        forall|k: int| 0 <= k < list_ids.len() ==> (#[trigger] list_ids[k]) < nlist,
        forall|k: int|
            0 <= k < list_ids.len() && t.counts[(#[trigger] list_ids[k]) as int] != 0 ==> exists|
                at: int,
                place: int,
            | #[trigger] is_read(ranges, t, list_ids[k], at, place),
        forall|at: int, place: int|
            0 <= at < ranges.len() && 0 <= place < ranges[at].metas.len() ==> list_ids.contains(
                (#[trigger] ranges[at].metas[place]).list_id,
            ),
{
    let metas = ivfhnswsq_read::metas_of(t, nlist, list_ids, Seq::empty())->Ok_0;
    lemma_metas(t, nlist, list_ids, Seq::empty(), metas);
    let planned = read_plan::by_offset(metas);
    read_plan::plan_covers_every_list(planned);
    let keys = read_plan::offset_keys(metas);
    let order = sort::stable_order(keys);
    sort::stable_order_facts(keys);
    assert forall|k: int|
        0 <= k < list_ids.len() && t.counts[(#[trigger] list_ids[k]) as int] != 0 implies exists|
        at: int,
        place: int,
    | #[trigger] is_read(ranges, t, list_ids[k], at, place) by {
        let m = choose|m: ListPayloadMeta|
            metas.contains(m) && #[trigger] is_as_stored(m, t, list_ids[k]);
        let q = choose|q: int| 0 <= q < metas.len() && metas[q] == m;
        assert(order.contains(q as usize));
        let z = choose|z: int| 0 <= z < order.len() && order[z] == q as usize;
        assert(planned[z] == m);
        assert(planned.contains(m));
        let (at, place) = lemma_in_some_range(ranges, m);
        assert(read_plan::range_ok(ranges[at]));
        assert(ranges[at].metas[place] == m);
        assert(is_read(ranges, t, list_ids[k], at, place));
    }
    assert forall|at: int, place: int|
        0 <= at < ranges.len() && 0 <= place < ranges[at].metas.len() implies list_ids.contains(
        (#[trigger] ranges[at].metas[place]).list_id,
    ) by {
        lemma_in_all(ranges, at, place);
        let m = ranges[at].metas[place];
        let z = choose|z: int| 0 <= z < planned.len() && planned[z] == m;
        assert(metas[order[z] as int] == m);
        assert(metas.contains(m));
    }
}

/// A list that is read together with others is what it is read alone: from its own bytes. All lists
/// of the range are read, behind those that were there before.
pub proof fn lists_read_together_are_as_read_alone(
    before: Seq<(usize, SqGraphList)>,
    after: Seq<(usize, SqGraphList)>,
    range: RangeModel,
    file: Seq<u8>,
    reader: IVFHNSWSQIndexReader,
    dec: ivfhnswsq_io::Decoding,
)
    requires
        read_plan::range_ok(range),
        range.end <= file.len(),
        ivfhnswsq_read::range_read(
            before,
            after,
            range,
            file.subrange(range.start as int, range.end as int),
            reader,
            dec,
            range.metas.len() as int,
        ),
    ensures
        after.len() == before.len() + range.metas.len(),
        forall|i: int| 0 <= i < before.len() ==> #[trigger] after[i] == before[i],
        forall|j: int|
            0 <= j < range.metas.len() ==> {
                let meta = #[trigger] range.metas[j];
                let got = after[before.len() + j];
                &&& got.0 == meta.list_id
                &&& ivfhnswsq_read::list_read(
                    file.subrange(meta.offset as int, meta.offset + meta.payload_len),
                    meta,
                    reader.d,
                    reader.metric,
                    reader.hnsw_params,
                    dec,
                    Ok(got.1),
                )
            },
{
    let payload = file.subrange(range.start as int, range.end as int);
    assert forall|i: int| 0 <= i < before.len() implies #[trigger] after[i] == before[i] by {
        assert(after.take(before.len() as int)[i] == before[i]);
    }
    assert forall|j: int| 0 <= j < range.metas.len() implies {
        let meta = #[trigger] range.metas[j];
        let got = after[before.len() + j];
        &&& got.0 == meta.list_id
        &&& ivfhnswsq_read::list_read(
            file.subrange(meta.offset as int, meta.offset + meta.payload_len),
            meta,
            reader.d,
            reader.metric,
            reader.hnsw_params,
            dec,
            Ok(got.1),
        )
    } by {
        let meta = range.metas[j];
        assert(ivfhnswsq_read::list_taken(before.len(), after, range, payload, reader, dec, j));
        assert(ivfhnswsq_read::part_of_range(range, payload, j) =~= file.subrange(
            meta.offset as int,
            meta.offset + meta.payload_len,
        ));
    }
}

/// Rows are accepted if and only if there are some, as many values as they take and an id for each.
pub proof fn well_shaped_rows_are_accepted(ids_len: usize, len: usize, n: usize, dimension: usize)
    ensures
        index::vectors_fault(len, n, dimension) is None <==> n > 0 && len == n * dimension,
        index::rows_fault(ids_len, len, n, dimension) is None <==> n > 0 && len == n * dimension
            && ids_len == n,
{
}

} // verus!
