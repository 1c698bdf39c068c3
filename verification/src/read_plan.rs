//! Which bytes of a file are read together: lists that stand close to each other are read at once.
use vstd::prelude::*;

use crate::error::IndexError;
use crate::ivfhnswsq_read::ListPayloadMeta;
use crate::sort;

verus! {

/// Lists that are farther apart are read separately.
pub const MAX_COALESCED_READ_GAP_BYTES: u64 = 0x10_0000;

/// Where a list ends.
pub open spec fn end_of(meta: ListPayloadMeta) -> int {
    meta.offset + meta.payload_len
}

/// Whether one more list is read together with those before it: it must not be too far off, and
/// what is read may be at most twice as much as is wanted.
pub open spec fn coalesces(
    gap: u64,
    range_start: u64,
    next_range_end: u64,
    current_payload_bytes: usize,
    next_payload_bytes: usize,
) -> bool {
    let wanted = current_payload_bytes + next_payload_bytes;
    &&& gap <= MAX_COALESCED_READ_GAP_BYTES
    &&& wanted <= usize::MAX
    &&& range_start <= next_range_end
    &&& next_range_end - range_start <= if wanted * 2 > usize::MAX {
        usize::MAX as int
    } else {
        wanted * 2
    }
}

pub fn should_coalesce_gap(
    gap: u64,
    range_start: u64,
    next_range_end: u64,
    current_payload_bytes: usize,
    next_payload_bytes: usize,
) -> (r: bool)
    ensures
        r == coalesces(
            gap,
            range_start,
            next_range_end,
            current_payload_bytes,
            next_payload_bytes,
        ),
{
    if gap > MAX_COALESCED_READ_GAP_BYTES {
        return false;
    }
    let wanted: usize = match current_payload_bytes.checked_add(next_payload_bytes) {
        Some(v) => v,
        None => {
            return false;
        },
    };
    if next_range_end < range_start {
        return false;
    }
    let twice: usize = match wanted.checked_mul(2) {
        Some(v) => v,
        None => usize::MAX,
    };
    next_range_end - range_start <= twice as u64
}

impl ListPayloadMeta {
    /// Where the list ends.
    pub fn end_offset(self) -> (r: Result<u64, IndexError>)
        ensures
            match r {
                Ok(v) => v == end_of(self),
                Err(e) => end_of(self) > u64::MAX && e == IndexError::PayloadEndOverflow,
            },
    {
        match self.offset.checked_add(self.payload_len as u64) {
            Some(v) => Ok(v),
            None => Err(IndexError::PayloadEndOverflow),
        }
    }
}

/// Bytes that are read at once, and the lists that stand in them.
pub struct ReadRange {
    pub start: u64,
    pub end: u64,
    pub payload_bytes: usize,
    pub metas: Vec<ListPayloadMeta>,
}

#[verifier::ext_equal]
pub struct RangeModel {
    pub start: u64,
    pub end: u64,
    pub payload_bytes: usize,
    pub metas: Seq<ListPayloadMeta>,
}

impl View for ReadRange {
    type V = RangeModel;

    open spec fn view(&self) -> RangeModel {
        RangeModel {
            start: self.start,
            end: self.end,
            payload_bytes: self.payload_bytes,
            metas: self.metas@,
        }
    }
}

pub open spec fn range_views(ranges: Seq<ReadRange>) -> Seq<RangeModel> {
    Seq::new(ranges.len(), |i: int| ranges[i]@)
}

/// One list by itself.
pub open spec fn alone(meta: ListPayloadMeta) -> RangeModel {
    RangeModel {
        start: meta.offset,
        end: end_of(meta) as u64,
        payload_bytes: meta.payload_len,
        metas: seq![meta],
    }
}

/// The range with one more list.
pub open spec fn joined(range: RangeModel, meta: ListPayloadMeta) -> RangeModel {
    RangeModel {
        start: range.start,
        end: end_of(meta) as u64,
        payload_bytes: (range.payload_bytes + meta.payload_len) as usize,
        metas: range.metas.push(meta),
    }
}

/// The ranges for lists in the order of their offsets; `done` and `range` are those before.
pub open spec fn plan_from(
    metas: Seq<ListPayloadMeta>,
    done: Seq<RangeModel>,
    range: RangeModel,
) -> Result<Seq<RangeModel>, IndexError>
    decreases metas.len(),
{
    if metas.len() == 0 {
        Ok(done.push(range))
    } else {
        let meta = metas[0];
        if end_of(meta) > u64::MAX {
            Err(IndexError::PayloadEndOverflow)
        } else if meta.offset < range.end {
            Err(IndexError::PayloadsOverlap)
        } else if coalesces(
            (meta.offset - range.end) as u64,
            range.start,
            end_of(meta) as u64,
            range.payload_bytes,
            meta.payload_len,
        ) {
            plan_from(metas.drop_first(), done, joined(range, meta))
        } else {
            plan_from(metas.drop_first(), done.push(range), alone(meta))
        }
    }
}

/// The ranges for lists in the order of their offsets.
pub open spec fn plan(metas: Seq<ListPayloadMeta>) -> Result<Seq<RangeModel>, IndexError> {
    if metas.len() == 0 {
        Ok(Seq::empty())
    } else if end_of(metas[0]) > u64::MAX {
        Err(IndexError::PayloadEndOverflow)
    } else {
        plan_from(metas.drop_first(), Seq::empty(), alone(metas[0]))
    }
}

pub open spec fn offset_keys(metas: Seq<ListPayloadMeta>) -> Seq<i128> {
    Seq::new(metas.len(), |i: int| metas[i].offset as i128)
}

/// The lists in the order of their offsets.
pub open spec fn by_offset(metas: Seq<ListPayloadMeta>) -> Seq<ListPayloadMeta> {
    sort::picked(metas, sort::stable_order(offset_keys(metas)))
}

fn sort_by_offset(metas: &Vec<ListPayloadMeta>) -> (r: Vec<ListPayloadMeta>)
    ensures
        r@ == by_offset(metas@),
{
    let mut keys: Vec<i128> = Vec::new();
    for i in 0..metas.len()
        invariant
            keys@ == offset_keys(metas@).take(i as int),
    {
        keys.push(metas[i].offset as i128);
        assert(keys@ =~= offset_keys(metas@).take(i + 1));
    }
    assert(keys@ =~= offset_keys(metas@));
    let order: Vec<usize> = sort::sorted_order(keys.as_slice());
    proof {
        assert(keys@.len() == keys.len());
        sort::stable_order_facts(keys@);
    }
    let mut r: Vec<ListPayloadMeta> = Vec::new();
    for i in 0..order.len()
        invariant
            forall|i: int| 0 <= i < order@.len() ==> #[trigger] order@[i] < metas@.len(),
            r@ == sort::picked(metas@, order@).take(i as int),
    {
        r.push(metas[order[i]]);
        assert(r@ =~= sort::picked(metas@, order@).take(i + 1));
    }
    assert(r@ =~= sort::picked(metas@, order@));
    r
}

/// Plans which bytes are read together.
pub fn plan_reads(metas: &Vec<ListPayloadMeta>) -> (r: Result<Vec<ReadRange>, IndexError>)
    ensures
        match r {
            Ok(ranges) => plan(by_offset(metas@)) == Ok::<Seq<RangeModel>, IndexError>(
                range_views(ranges@),
            ),
            Err(e) => plan(by_offset(metas@)) == Err::<Seq<RangeModel>, IndexError>(e),
        },
{
    let sorted: Vec<ListPayloadMeta> = sort_by_offset(metas);
    let mut done: Vec<ReadRange> = Vec::new();
    if sorted.len() == 0 {
        assert(range_views(done@) =~= Seq::<RangeModel>::empty());
        return Ok(done);
    }
    let first: ListPayloadMeta = sorted[0];
    let first_end: u64 = match first.end_offset() {
        Ok(v) => v,
        Err(e) => {
            return Err(e);
        },
    };
    let mut metas_here: Vec<ListPayloadMeta> = Vec::new();
    metas_here.push(first);
    let mut range = ReadRange {
        start: first.offset,
        end: first_end,
        payload_bytes: first.payload_len,
        metas: metas_here,
    };
    proof {
        assert(range@ =~= alone(first));
        assert(range_views(done@) =~= Seq::<RangeModel>::empty());
        assert(sorted@.skip(1) =~= sorted@.drop_first());
    }
    for i in 1..sorted.len()
        invariant
            sorted@ == by_offset(metas@),
            sorted@.len() > 0,
            plan(sorted@) == plan_from(sorted@.skip(i as int), range_views(done@), range@),
    {
        let meta: ListPayloadMeta = sorted[i];
        let ghost rest = sorted@.skip(i as int);
        assert(rest[0] == meta);
        assert(rest.drop_first() =~= sorted@.skip(i + 1));
        let end: u64 = match meta.end_offset() {
            Ok(v) => v,
            Err(e) => {
                return Err(e);
            },
        };
        if meta.offset < range.end {
            return Err(IndexError::PayloadsOverlap);
        }
        if should_coalesce_gap(
            meta.offset - range.end,
            range.start,
            end,
            range.payload_bytes,
            meta.payload_len,
        ) {
            let ghost before = range@;
            range.end = end;
            range.payload_bytes = range.payload_bytes + meta.payload_len;
            range.metas.push(meta);
            assert(range@ =~= joined(before, meta));
        } else {
            let mut own: Vec<ListPayloadMeta> = Vec::new();
            own.push(meta);
            let next = ReadRange {
                start: meta.offset,
                end,
                payload_bytes: meta.payload_len,
                metas: own,
            };
            assert(next@ =~= alone(meta));
            let ghost before = range_views(done@);
            let ghost closed = range@;
            done.push(range);
            assert(range_views(done@) =~= before.push(closed));
            range = next;
        }
    }
    let ghost before = range_views(done@);
    let ghost closed = range@;
    done.push(range);
    proof {
        assert(range_views(done@) =~= before.push(closed));
        assert(sorted@.skip(sorted@.len() as int) =~= Seq::<ListPayloadMeta>::empty());
    }
    Ok(done)
}

/// How many bytes a range holds.
pub fn range_len(range: &ReadRange) -> (r: Result<usize, IndexError>)
    requires
        range@.start <= range@.end,
    ensures
        match r {
            Ok(len) => len == range@.end - range@.start,
            Err(e) => range@.end - range@.start > usize::MAX && e == IndexError::ReadRangeTooLarge,
        },
{
    let len: u64 = range.end - range.start;
    if len > usize::MAX as u64 {
        return Err(IndexError::ReadRangeTooLarge);
    }
    Ok(len as usize)
}

/// How many bytes the lists have together.
pub open spec fn wanted(metas: Seq<ListPayloadMeta>) -> int
    decreases metas.len(),
{
    if metas.len() == 0 {
        0
    } else {
        wanted(metas.drop_last()) + metas.last().payload_len
    }
}

/// Every list of a range stands in it, and what is read is at most twice what is wanted.
pub open spec fn range_ok(range: RangeModel) -> bool {
    &&& range.start <= range.end
    &&& range.metas.len() > 0
    &&& range.payload_bytes == wanted(range.metas)
    &&& range.end - range.start <= 2 * wanted(range.metas)
    &&& forall|i: int|
        0 <= i < range.metas.len() ==> range.start <= (#[trigger] range.metas[i]).offset && end_of(
            range.metas[i],
        ) <= range.end
}

pub open spec fn all_metas(ranges: Seq<RangeModel>) -> Seq<ListPayloadMeta>
    decreases ranges.len(),
{
    if ranges.len() == 0 {
        Seq::empty()
    } else {
        all_metas(ranges.drop_last()) + ranges.last().metas
    }
}

/// Ranges that do not overlap, from the front of the file to its back.
pub open spec fn ranges_apart(ranges: Seq<RangeModel>) -> bool {
    forall|i: int, j: int|
        0 <= i < j < ranges.len() ==> (#[trigger] ranges[i]).end <= (#[trigger] ranges[j]).start
}

proof fn lemma_alone_ok(meta: ListPayloadMeta)
    requires
        end_of(meta) <= u64::MAX,
    ensures
        range_ok(alone(meta)),
{
    let r = alone(meta);
    assert(r.metas.drop_last() =~= Seq::<ListPayloadMeta>::empty());
    reveal_with_fuel(wanted, 2);
}

proof fn lemma_plan_from(metas: Seq<ListPayloadMeta>, done: Seq<RangeModel>, range: RangeModel)
    requires
        range_ok(range),
        forall|i: int| 0 <= i < done.len() ==> range_ok(#[trigger] done[i]),
        ranges_apart(done.push(range)),
    ensures
        plan_from(metas, done, range) matches Ok(ranges) ==> {
            &&& forall|i: int| 0 <= i < ranges.len() ==> range_ok(#[trigger] ranges[i])
            &&& ranges_apart(ranges)
            &&& all_metas(ranges) == all_metas(done.push(range)) + metas
        },
    decreases metas.len(),
{
    let now = done.push(range);
    assert(now.drop_last() =~= done);
    if metas.len() == 0 {
        assert(all_metas(now) + metas =~= all_metas(now));
    } else {
        let meta = metas[0];
        if end_of(meta) <= u64::MAX && meta.offset >= range.end {
            if coalesces(
                (meta.offset - range.end) as u64,
                range.start,
                end_of(meta) as u64,
                range.payload_bytes,
                meta.payload_len,
            ) {
                let more = joined(range, meta);
                assert(more.metas.drop_last() =~= range.metas);
                assert forall|i: int| 0 <= i < more.metas.len() implies more.start <= (
                #[trigger] more.metas[i]).offset && end_of(more.metas[i]) <= more.end by {
                    if i < range.metas.len() {
                        assert(more.metas[i] == range.metas[i]);
                    }
                }
                assert(range_ok(more));
                let next = done.push(more);
                assert(next.drop_last() =~= done);
                assert forall|i: int, j: int| 0 <= i < j < next.len() implies (
                #[trigger] next[i]).end <= (#[trigger] next[j]).start by {
                    assert(now[i].end <= now[j].start);
                }
                lemma_plan_from(metas.drop_first(), done, more);
                assert(all_metas(next) + metas.drop_first() =~= all_metas(now) + metas);
            } else {
                let other = alone(meta);
                lemma_alone_ok(meta);
                let next = now.push(other);
                assert(next.drop_last() =~= now);
                assert forall|i: int, j: int| 0 <= i < j < next.len() implies (
                #[trigger] next[i]).end <= (#[trigger] next[j]).start by {
                    if j < now.len() {
                        assert(now[i].end <= now[j].start);
                    } else if i < now.len() - 1 {
                        assert(now[i].end <= now[now.len() - 1].start);
                        assert(range_ok(done[i]));
                    }
                }
                assert forall|i: int| 0 <= i < now.len() implies range_ok(#[trigger] now[i]) by {
                    if i < done.len() {
                        assert(now[i] == done[i]);
                    }
                }
                lemma_plan_from(metas.drop_first(), now, other);
                assert(all_metas(next) + metas.drop_first() =~= all_metas(now) + metas);
            }
        }
    }
}

/// A plan names every list once, in the order of the offsets; the ranges do not overlap, every
/// list stands in its range, and no range is more than twice as long as its lists.
pub proof fn plan_covers_every_list(metas: Seq<ListPayloadMeta>)
    ensures
        plan(metas) matches Ok(ranges) ==> {
            &&& all_metas(ranges) == metas
            &&& forall|i: int| 0 <= i < ranges.len() ==> range_ok(#[trigger] ranges[i])
            &&& ranges_apart(ranges)
        },
{
    if metas.len() == 0 {
        assert(all_metas(Seq::<RangeModel>::empty()) =~= metas);
    } else if end_of(metas[0]) <= u64::MAX {
        let first = alone(metas[0]);
        lemma_alone_ok(metas[0]);
        let none = Seq::<RangeModel>::empty();
        lemma_plan_from(metas.drop_first(), none, first);
        assert(none.push(first).drop_last() =~= none);
        reveal_with_fuel(all_metas, 2);
        assert(all_metas(none.push(first)) + metas.drop_first() =~= metas);
    }
}

/// Where a list is among those that were asked for; behind all of them where it is not.
pub open spec fn request_place(requested: Seq<usize>, id: usize) -> int
    decreases requested.len(),
{
    if requested.len() == 0 {
        usize::MAX as int
    } else if requested.drop_last().contains(id) {
        request_place(requested.drop_last(), id)
    } else if requested.last() == id {
        requested.len() - 1
    } else {
        usize::MAX as int
    }
}

pub open spec fn request_keys(requested: Seq<usize>, ids: Seq<usize>) -> Seq<i128> {
    Seq::new(ids.len(), |i: int| request_place(requested, ids[i]) as i128)
}

fn place_in_request(requested: &Vec<usize>, id: usize) -> (r: usize)
    ensures
        r == request_place(requested@, id),
{
    let mut found: usize = usize::MAX;
    let mut seen: bool = false;
    assert(requested@.take(0) =~= Seq::<usize>::empty());
    for i in 0..requested.len()
        invariant
            seen == requested@.take(i as int).contains(id),
            found == request_place(requested@.take(i as int), id),
    {
        let ghost now = requested@.take(i + 1);
        assert(now.drop_last() =~= requested@.take(i as int));
        if !seen && requested[i] == id {
            found = i;
            seen = true;
            assert(now[i as int] == id);
        } else {
            proof {
                if requested@.take(i as int).contains(id) {
                    let k = choose|k: int|
                        0 <= k < i && requested@.take(i as int)[k] == id;
                    assert(now[k] == id);
                }
                if now.contains(id) {
                    let k = choose|k: int| 0 <= k < now.len() && now[k] == id;
                    if k < i {
                        assert(requested@.take(i as int)[k] == id);
                    }
                }
            }
        }
    }
    assert(requested@.take(requested@.len() as int) =~= requested@);
    found
}

/// The order in which lists that were read are handed out: that in which they were asked for.
pub fn request_order(requested: &Vec<usize>, ids: &Vec<usize>) -> (r: Vec<usize>)
    ensures
        r@ == sort::stable_order(request_keys(requested@, ids@)),
        r@.len() == ids@.len(),
        r@.no_duplicates(),
        forall|i: int| 0 <= i < r@.len() ==> #[trigger] r@[i] < ids@.len(),
{
    let mut keys: Vec<i128> = Vec::new();
    for i in 0..ids.len()
        invariant
            keys@ == request_keys(requested@, ids@).take(i as int),
    {
        keys.push(place_in_request(requested, ids[i]) as i128);
        assert(keys@ =~= request_keys(requested@, ids@).take(i + 1));
    }
    assert(keys@ =~= request_keys(requested@, ids@));
    proof {
        assert(keys@.len() == keys.len());
        sort::stable_order_facts(keys@);
    }
    sort::sorted_order(keys.as_slice())
}

} // verus!
