//! Collections that keep the closest rows.
use vstd::prelude::*;

use crate::float_bits;
use crate::sort;

verus! {

/// A row with its distance in front.
pub type Hit = (u32, i64);

/// The place of a distance on the real line.
pub open spec fn by_value() -> spec_fn(u32) -> int {
    |bits: u32| float_bits::value_key(bits)
}

/// The place of a distance in the total order.
pub open spec fn by_total() -> spec_fn(u32) -> int {
    |bits: u32| float_bits::total_key(bits)
}

/// Where the last of the farthest rows is.
pub open spec fn last_worst(data: Seq<Hit>, key: spec_fn(u32) -> int) -> int
    decreases data.len(),
{
    if data.len() <= 1 {
        0
    } else {
        let w = last_worst(data.drop_last(), key);
        if key(data.last().0) >= key(data[w].0) {
            data.len() - 1
        } else {
            w
        }
    }
}

pub open spec fn hit_keys(data: Seq<Hit>, key: spec_fn(u32) -> int) -> Seq<i128> {
    Seq::new(data.len(), |i: int| key(data[i].0) as i128)
}

/// The rows with the closest first; rows as close as each other stay in their order.
pub open spec fn sorted_hits(data: Seq<Hit>, key: spec_fn(u32) -> int) -> Seq<Hit> {
    sort::picked(data, sort::stable_order(hit_keys(data, key)))
}

/// Where the row with this id is, counted from the front; the length where there is none.
pub open spec fn position_of(data: Seq<Hit>, id: i64) -> int
    decreases data.len(),
{
    if data.len() == 0 {
        0
    } else if data[0].1 == id {
        0
    } else {
        1 + position_of(data.drop_first(), id)
    }
}

/// The kept rows after one more has come: as long as there is room it is kept, then it takes the
/// place of the farthest one if it is closer.
pub open spec fn kept_after(data: Seq<Hit>, k: usize, hit: Hit) -> Seq<Hit> {
    if k == 0 {
        data
    } else if data.len() < k {
        data.push(hit)
    } else {
        let w = last_worst(data, by_value());
        if float_bits::lt(hit.0, data[w].0) {
            data.update(w, hit)
        } else {
            data
        }
    }
}

/// The same with at most one row for each id: a row that is kept already only comes closer.
pub open spec fn unique_after(data: Seq<Hit>, k: usize, hit: Hit) -> Seq<Hit> {
    let at = position_of(data, hit.1);
    if k == 0 {
        data
    } else if at < data.len() {
        if float_bits::lt(hit.0, data[at].0) {
            data.update(at, hit)
        } else {
            data
        }
    } else if data.len() < k {
        data.push(hit)
    } else {
        let w = last_worst(data, by_total());
        if float_bits::lt(hit.0, data[w].0) {
            data.update(w, hit)
        } else {
            data
        }
    }
}

/// The kept rows after all of `hits` have come one by one.
pub open spec fn kept_of(data: Seq<Hit>, k: usize, hits: Seq<Hit>) -> Seq<Hit>
    decreases hits.len(),
{
    if hits.len() == 0 {
        data
    } else {
        kept_after(kept_of(data, k, hits.drop_last()), k, hits.last())
    }
}

/// The same with at most one row for each id.
pub open spec fn unique_of(data: Seq<Hit>, k: usize, hits: Seq<Hit>) -> Seq<Hit>
    decreases hits.len(),
{
    if hits.len() == 0 {
        data
    } else {
        unique_after(unique_of(data, k, hits.drop_last()), k, hits.last())
    }
}

/// A row at this distance could be kept: there is room, or it is closer than the farthest one.
pub open spec fn considered(data: Seq<Hit>, k: usize, dist: u32) -> bool {
    k > 0 && (data.len() < k || float_bits::lt(dist, data[last_worst(data, by_total())].0))
}

pub open spec fn no_nan(hits: Seq<Hit>) -> bool {
    forall|i: int| 0 <= i < hits.len() ==> !float_bits::is_nan((#[trigger] hits[i]).0)
}

/// No more rows are kept than have come, and no NaN where none has come.
pub proof fn lemma_kept(k: usize, hits: Seq<Hit>)
    ensures
        kept_of(Seq::empty(), k, hits).len() <= k,
        kept_of(Seq::empty(), k, hits).len() <= hits.len(),
        no_nan(hits) ==> no_nan(kept_of(Seq::empty(), k, hits)),
    decreases hits.len(),
{
    if hits.len() > 0 {
        let front = hits.drop_last();
        lemma_kept(k, front);
        let before = kept_of(Seq::empty(), k, front);
        if before.len() > 0 {
            lemma_last_worst(before, by_value());
        }
        if no_nan(hits) {
            assert forall|i: int| 0 <= i < front.len() implies !float_bits::is_nan(
                (#[trigger] front[i]).0,
            ) by {
                assert(front[i] == hits[i]);
            }
            assert(!float_bits::is_nan(hits[hits.len() - 1].0));
        }
    }
}

pub proof fn lemma_last_worst(data: Seq<Hit>, key: spec_fn(u32) -> int)
    requires
        data.len() > 0,
    ensures
        0 <= last_worst(data, key) < data.len(),
        forall|i: int|
            0 <= i < data.len() ==> key((#[trigger] data[i]).0) <= key(
                data[last_worst(data, key)].0,
            ),
    decreases data.len(),
{
    if data.len() > 1 {
        let front = data.drop_last();
        lemma_last_worst(front, key);
        assert forall|i: int| 0 <= i < data.len() implies key((#[trigger] data[i]).0) <= key(
            data[last_worst(data, key)].0,
        ) by {
            if i < front.len() {
                assert(front[i] == data[i]);
            }
        }
    }
}

pub proof fn lemma_position(data: Seq<Hit>, id: i64)
    ensures
        0 <= position_of(data, id) <= data.len(),
        position_of(data, id) < data.len() ==> data[position_of(data, id)].1 == id,
        forall|i: int| 0 <= i < position_of(data, id) ==> (#[trigger] data[i]).1 != id,
    decreases data.len(),
{
    if data.len() > 0 && data[0].1 != id {
        lemma_position(data.drop_first(), id);
        let at = position_of(data, id);
        assert forall|i: int| 0 <= i < at implies (#[trigger] data[i]).1 != id by {
            if i > 0 {
                assert(data.drop_first()[i - 1] == data[i]);
            }
        }
    }
}

/// Every row that has come is kept, or `k` rows are kept that are all at least as close.
pub open spec fn none_closer_missed(kept: Seq<Hit>, k: usize, hits: Seq<Hit>) -> bool {
    forall|i: int|
        0 <= i < hits.len() ==> kept.contains(#[trigger] hits[i]) || (kept.len() == k && forall|
            j: int,
        |
            0 <= j < kept.len() ==> !float_bits::lt(hits[i].0, (#[trigger] kept[j]).0))
}

/// The `k` closest rows are kept: as many as there is room for, only rows that have come, and none
/// that has come and is closer was left out.
pub proof fn closest_rows_are_kept(k: usize, hits: Seq<Hit>)
    requires
        no_nan(hits),
    ensures
        kept_of(Seq::empty(), k, hits).len() == (if hits.len() < k {
            hits.len() as int
        } else {
            k as int
        }),
        forall|j: int|
            0 <= j < kept_of(Seq::empty(), k, hits).len() ==> hits.contains(
                #[trigger] kept_of(Seq::empty(), k, hits)[j],
            ),
        none_closer_missed(kept_of(Seq::empty(), k, hits), k, hits),
    decreases hits.len(),
{
    let kept = kept_of(Seq::empty(), k, hits);
    if hits.len() > 0 {
        let front = hits.drop_last();
        let x = hits.last();
        let old_kept = kept_of(Seq::empty(), k, front);
        assert forall|i: int| 0 <= i < front.len() implies !float_bits::is_nan(
            (#[trigger] front[i]).0,
        ) by {
            assert(front[i] == hits[i]);
        }
        closest_rows_are_kept(k, front);
        assert forall|j: int| 0 <= j < old_kept.len() implies hits.contains(
            #[trigger] old_kept[j],
        ) && !float_bits::is_nan(old_kept[j].0) by {
            assert(front.contains(old_kept[j]));
            let q = choose|q: int| 0 <= q < front.len() && front[q] == old_kept[j];
            assert(hits[q] == old_kept[j]);
        }
        assert(hits[hits.len() - 1] == x);
        if k > 0 {
            if old_kept.len() < k {
                assert(kept == old_kept.push(x));
                assert(kept[kept.len() - 1] == x);
                assert forall|i: int| 0 <= i < hits.len() implies kept.contains(
                    #[trigger] hits[i],
                ) by {
                    if i < front.len() {
                        assert(front[i] == hits[i]);
                        let q = choose|q: int| 0 <= q < old_kept.len() && old_kept[q] == hits[i];
                        assert(kept[q] == hits[i]);
                    }
                }
            } else {
                let w = last_worst(old_kept, by_value());
                lemma_last_worst(old_kept, by_value());
                assert(by_value()(old_kept[w].0) == float_bits::value_key(old_kept[w].0));
                assert forall|j: int| 0 <= j < old_kept.len() implies float_bits::value_key(
                    (#[trigger] old_kept[j]).0,
                ) <= float_bits::value_key(old_kept[w].0) by {
                    assert(by_value()(old_kept[j].0) <= by_value()(old_kept[w].0));
                }
                if float_bits::lt(x.0, old_kept[w].0) {
                    assert(kept == old_kept.update(w, x));
                    assert(kept[w] == x);
                }
                assert forall|j: int| 0 <= j < kept.len() implies float_bits::value_key(
                    (#[trigger] kept[j]).0,
                ) <= float_bits::value_key(old_kept[w].0) by {
                    if j != w {
                        assert(kept[j] == old_kept[j]);
                    }
                }
                assert forall|i: int| 0 <= i < hits.len() implies kept.contains(
                    #[trigger] hits[i],
                ) || (kept.len() == k && forall|j: int|
                    0 <= j < kept.len() ==> !float_bits::lt(hits[i].0, (#[trigger] kept[j]).0)) by {
                    if i < front.len() {
                        assert(front[i] == hits[i]);
                        if old_kept.contains(hits[i]) {
                            let q = choose|q: int|
                                0 <= q < old_kept.len() && old_kept[q] == hits[i];
                            if q != w {
                                assert(kept[q] == hits[i]);
                            } else if kept == old_kept {
                                assert(kept[q] == hits[i]);
                            }
                        } else {
                            assert(!float_bits::lt(hits[i].0, old_kept[w].0));
                        }
                    }
                }
                assert forall|j: int| 0 <= j < kept.len() implies hits.contains(
                    #[trigger] kept[j],
                ) by {
                    if kept[j] != x {
                        assert(kept[j] == old_kept[j]);
                    }
                }
            }
        }
    }
}

/// Every row that has come is kept under its id and not farther off, or `k` rows are kept that are
/// all at least as close.
pub open spec fn no_closer_id_missed(kept: Seq<Hit>, k: usize, hits: Seq<Hit>) -> bool {
    forall|i: int|
        0 <= i < hits.len() ==> #[trigger] kept_under_id(kept, hits[i]) || (kept.len() == k
            && forall|j: int|
            0 <= j < kept.len() ==> !float_bits::lt(hits[i].0, (#[trigger] kept[j]).0))
}

pub open spec fn kept_under_id(kept: Seq<Hit>, hit: Hit) -> bool {
    exists|j: int|
        0 <= j < kept.len() && (#[trigger] kept[j]).1 == hit.1 && !float_bits::lt(hit.0, kept[j].0)
}

pub open spec fn unique_ids(kept: Seq<Hit>) -> bool {
    forall|i: int, j: int|
        0 <= i < j < kept.len() ==> (#[trigger] kept[i]).1 != (#[trigger] kept[j]).1
}

/// With one row for each id the closest ids are kept, each with its least distance.
pub proof fn closest_ids_are_kept(k: usize, hits: Seq<Hit>)
    requires
        no_nan(hits),
    ensures
        unique_of(Seq::empty(), k, hits).len() <= k,
        unique_ids(unique_of(Seq::empty(), k, hits)),
        forall|j: int|
            0 <= j < unique_of(Seq::empty(), k, hits).len() ==> hits.contains(
                #[trigger] unique_of(Seq::empty(), k, hits)[j],
            ),
        no_closer_id_missed(unique_of(Seq::empty(), k, hits), k, hits),
    decreases hits.len(),
{
    let kept = unique_of(Seq::empty(), k, hits);
    if hits.len() > 0 {
        let front = hits.drop_last();
        let x = hits.last();
        let before = unique_of(Seq::empty(), k, front);
        assert forall|i: int| 0 <= i < front.len() implies !float_bits::is_nan(
            (#[trigger] front[i]).0,
        ) by {
            assert(front[i] == hits[i]);
        }
        closest_ids_are_kept(k, front);
        assert forall|j: int| 0 <= j < before.len() implies hits.contains(#[trigger] before[j])
            && !float_bits::is_nan(before[j].0) by {
            assert(front.contains(before[j]));
            let q = choose|q: int| 0 <= q < front.len() && front[q] == before[j];
            assert(hits[q] == before[j]);
        }
        assert(hits[hits.len() - 1] == x);
        lemma_position(before, x.1);
        let at = position_of(before, x.1);
        if k > 0 {
            let w = if at < before.len() {
                at
            } else {
                last_worst(before, by_total())
            };
            if at >= before.len() && before.len() >= k {
                lemma_last_worst(before, by_total());
                assert forall|j: int| 0 <= j < before.len() implies float_bits::value_key(
                    (#[trigger] before[j]).0,
                ) <= float_bits::value_key(before[w].0) by {
                    assert(by_total()(before[j].0) <= by_total()(before[w].0));
                }
            }
            if at >= before.len() && before.len() < k {
                assert(kept == before.push(x));
                assert(kept[before.len() as int] == x);
            } else if float_bits::lt(x.0, before[w].0) {
                assert(kept == before.update(w, x));
                assert(kept[w] == x);
            } else {
                assert(kept == before);
            }
            assert forall|j: int| 0 <= j < kept.len() implies hits.contains(#[trigger] kept[j]) by {
                if kept[j] != x {
                    assert(kept[j] == before[j]);
                }
            }
            assert forall|i: int, j: int| 0 <= i < j < kept.len() implies (#[trigger] kept[i]).1
                != (#[trigger] kept[j]).1 by {
                if j < before.len() {
                    assert(before[i].1 != before[j].1);
                }
                if kept != before {
                    if at < before.len() {
                        assert(before[at].1 == x.1);
                    } else if j < before.len() {
                        assert(before[i].1 != x.1 && before[j].1 != x.1);
                    } else {
                        assert(before[i].1 != x.1);
                    }
                }
            }
            assert forall|i: int| 0 <= i < hits.len() implies #[trigger] kept_under_id(
                kept,
                hits[i],
            ) || (kept.len() == k && forall|j: int|
                0 <= j < kept.len() ==> !float_bits::lt(hits[i].0, (#[trigger] kept[j]).0)) by {
                let h = hits[i];
                if i < front.len() {
                    assert(front[i] == h);
                    assert(kept_under_id(before, front[i]) || (before.len() == k && forall|j: int|
                        0 <= j < before.len() ==> !float_bits::lt(front[i].0, (#[trigger] before[j]).0)));
                    if kept_under_id(before, h) {
                        let q = choose|q: int|
                            0 <= q < before.len() && (#[trigger] before[q]).1 == h.1
                                && !float_bits::lt(h.0, before[q].0);
                        if kept.len() > before.len() || q != w || kept == before {
                            assert(kept[q] == before[q]);
                        } else if at < before.len() {
                            assert(kept[q] == x);
                        } else {
                            // The farthest row has left; what is kept is at least as close.
                            assert forall|j: int| 0 <= j < kept.len() implies !float_bits::lt(
                                h.0,
                                (#[trigger] kept[j]).0,
                            ) by {
                                if j != w {
                                    assert(kept[j] == before[j]);
                                }
                            }
                        }
                    } else {
                        assert forall|j: int| 0 <= j < kept.len() implies !float_bits::lt(
                            h.0,
                            (#[trigger] kept[j]).0,
                        ) by {
                            if kept[j] == x && kept != before {
                                assert(!float_bits::lt(h.0, before[w].0));
                            } else {
                                assert(kept[j] == before[j]);
                            }
                        }
                    }
                } else {
                    assert(h == x);
                    if at < before.len() {
                        assert(kept[at].1 == x.1);
                    } else if before.len() < k {
                        assert(kept[before.len() as int].1 == x.1);
                    } else if float_bits::lt(x.0, before[w].0) {
                        assert(kept[w].1 == x.1);
                    } else {
                        assert forall|j: int| 0 <= j < kept.len() implies !float_bits::lt(
                            h.0,
                            (#[trigger] kept[j]).0,
                        ) by {
                            assert(kept[j] == before[j]);
                        }
                    }
                }
            }
        }
    }
}

/// The place of a distance on the real line.
fn value_key_of(bits: u32) -> (r: i128)
    ensures
        r == float_bits::value_key(bits),
{
    if bits >= 0x8000_0000 {
        0x8000_0000 - bits as i128
    } else {
        bits as i128
    }
}

/// The place of a distance in the total order.
fn total_key_of(bits: u32) -> (r: i128)
    ensures
        r == float_bits::total_key(bits),
{
    if bits >= 0x8000_0000 {
        0x7fff_ffff - bits as i128
    } else {
        bits as i128
    }
}

/// The rows in the order of their keys.
fn sort_hits(
    data: &Vec<Hit>,
    keys: &Vec<i128>,
    Ghost(key): Ghost<spec_fn(u32) -> int>,
) -> (r: Vec<Hit>)
    requires
        keys@ == hit_keys(data@, key),
    ensures
        r@ == sorted_hits(data@, key),
{
    let order: Vec<usize> = sort::sorted_order(keys.as_slice());
    proof {
        assert(keys@.len() == keys.len());
        sort::stable_order_facts(keys@);
    }
    let mut r: Vec<Hit> = Vec::new();
    for i in 0..order.len()
        invariant
            order@ == sort::stable_order(keys@),
            order@.len() == data@.len(),
            forall|k: int| 0 <= k < order@.len() ==> #[trigger] order@[k] < data@.len(),
            r@ == sort::picked(data@, order@).take(i as int),
    {
        r.push(data[order[i]]);
        assert(r@ =~= sort::picked(data@, order@).take(i + 1));
    }
    assert(r@ =~= sorted_hits(data@, key));
    r
}

/// Keeps the `k` closest of the rows that come.
pub struct ReaderTopKHeap {
    pub k: usize,
    pub data: Vec<Hit>,
}

impl View for ReaderTopKHeap {
    type V = Seq<Hit>;

    open spec fn view(&self) -> Seq<Hit> {
        self.data@
    }
}

impl ReaderTopKHeap {
    pub open spec fn well_formed(self) -> bool {
        self.data@.len() <= self.k
    }

    pub fn new(k: usize) -> (r: Self)
        ensures
            r.k == k,
            r@ == Seq::<Hit>::empty(),
            r.well_formed(),
    {
        ReaderTopKHeap { k, data: Vec::new() }
    }

    /// Offers a row. Where the heap is full its rows are compared, and a NaN cannot be.
    pub fn push(&mut self, dist: u32, id: i64)
        requires
            old(self).well_formed(),
            old(self)@.len() == old(self).k && old(self).k > 1 ==> no_nan(old(self)@),
        ensures
            final(self).k == old(self).k,
            final(self)@ == kept_after(old(self)@, old(self).k, (dist, id)),
            final(self).well_formed(),
    {
        if self.k == 0 {
            return ;
        }
        if self.data.len() < self.k {
            self.data.push((dist, id));
            return ;
        }
        let mut worst: usize = 0;
        let mut i: usize = 1;
        assert(self.data@.take(1).len() == 1);
        while i < self.data.len()
            invariant
                1 <= i <= self.data@.len(),
                worst < i,
                worst == last_worst(self.data@.take(i as int), by_value()),
                self.data@ == old(self).data@,
                self.k == old(self).k,
            decreases self.data@.len() - i,
        {
            proof {
                assert(self.data@.take(i + 1).drop_last() =~= self.data@.take(i as int));
                assert(by_value()(self.data@[i as int].0) == float_bits::value_key(
                    self.data@[i as int].0,
                ));
                assert(by_value()(self.data@[worst as int].0) == float_bits::value_key(
                    self.data@[worst as int].0,
                ));
            }
            if value_key_of(self.data[i].0) >= value_key_of(self.data[worst].0) {
                worst = i;
            }
            i = i + 1;
        }
        assert(self.data@.take(self.data@.len() as int) =~= self.data@);
        if float_bits::less_than(dist, self.data[worst].0) {
            self.data.set(worst, (dist, id));
        }
    }

    /// The kept rows, closest first.
    pub fn into_sorted(self) -> (r: Vec<Hit>)
        requires
            self.well_formed(),
            self@.len() > 1 ==> no_nan(self@),
        ensures
            r@ == sorted_hits(self@, by_value()),
    {
        let mut keys: Vec<i128> = Vec::new();
        for i in 0..self.data.len()
            invariant
                keys@ == hit_keys(self.data@, by_value()).take(i as int),
        {
            keys.push(value_key_of(self.data[i].0));
            proof {
                assert(by_value()(self.data@[i as int].0) == float_bits::value_key(
                    self.data@[i as int].0,
                ));
                assert(keys@ =~= hit_keys(self.data@, by_value()).take(i + 1));
            }
        }
        assert(keys@ =~= hit_keys(self.data@, by_value()));
        sort_hits(&self.data, &keys, Ghost(by_value()))
    }
}

/// Keeps the `k` closest of the rows that come, with one row for each id.
pub struct TopKHeap {
    pub k: usize,
    pub data: Vec<Hit>,
}

impl View for TopKHeap {
    type V = Seq<Hit>;

    open spec fn view(&self) -> Seq<Hit> {
        self.data@
    }
}

impl TopKHeap {
    pub open spec fn well_formed(self) -> bool {
        self.data@.len() <= self.k
    }

    pub fn new(k: usize) -> (r: Self)
        ensures
            r.k == k,
            r@ == Seq::<Hit>::empty(),
            r.well_formed(),
    {
        TopKHeap { k, data: Vec::new() }
    }

    pub fn len(&self) -> (r: usize)
        ensures
            r == self@.len(),
    {
        self.data.len()
    }

    /// Where the row with this id is.
    fn find(&self, id: i64) -> (r: usize)
        ensures
            r == position_of(self@, id),
    {
        let mut i: usize = 0;
        assert(self.data@.skip(0) =~= self.data@);
        while i < self.data.len()
            invariant
                i <= self.data@.len(),
                position_of(self.data@, id) == i + position_of(self.data@.skip(i as int), id),
            decreases self.data@.len() - i,
        {
            assert(self.data@.skip(i as int).drop_first() =~= self.data@.skip(i + 1));
            if self.data[i].1 == id {
                return i;
            }
            i = i + 1;
        }
        assert(self.data@.skip(self.data@.len() as int).len() == 0);
        i
    }

    /// Offers a row.
    pub fn push(&mut self, dist: u32, id: i64)
        requires
            old(self).well_formed(),
        ensures
            final(self).k == old(self).k,
            final(self)@ == unique_after(old(self)@, old(self).k, (dist, id)),
            final(self).well_formed(),
    {
        if self.k == 0 {
            return ;
        }
        let at: usize = self.find(id);
        proof {
            lemma_position(self@, id);
        }
        if at < self.data.len() {
            if float_bits::less_than(dist, self.data[at].0) {
                self.data.set(at, (dist, id));
            }
            return ;
        }
        if self.data.len() < self.k {
            self.data.push((dist, id));
            return ;
        }
        let mut worst: usize = 0;
        let mut i: usize = 1;
        assert(self.data@.take(1).len() == 1);
        while i < self.data.len()
            invariant
                1 <= i <= self.data@.len(),
                worst < i,
                worst == last_worst(self.data@.take(i as int), by_total()),
                self.data@ == old(self).data@,
                self.k == old(self).k,
            decreases self.data@.len() - i,
        {
            proof {
                assert(self.data@.take(i + 1).drop_last() =~= self.data@.take(i as int));
                assert(by_total()(self.data@[i as int].0) == float_bits::total_key(
                    self.data@[i as int].0,
                ));
                assert(by_total()(self.data@[worst as int].0) == float_bits::total_key(
                    self.data@[worst as int].0,
                ));
            }
            if total_key_of(self.data[i].0) >= total_key_of(self.data[worst].0) {
                worst = i;
            }
            i = i + 1;
        }
        assert(self.data@.take(self.data@.len() as int) =~= self.data@);
        if float_bits::less_than(dist, self.data[worst].0) {
            self.data.set(worst, (dist, id));
        }
    }

    /// Tells whether a row at this distance could be kept.
    pub fn should_consider(&self, dist: u32) -> (r: bool)
        requires
            self.well_formed(),
        ensures
            r == considered(self@, self.k, dist),
    {
        if self.k == 0 {
            return false;
        }
        if self.data.len() < self.k {
            return true;
        }
        let mut worst: usize = 0;
        let mut i: usize = 1;
        assert(self.data@.take(1).len() == 1);
        while i < self.data.len()
            invariant
                1 <= i <= self.data@.len(),
                worst < i,
                worst == last_worst(self.data@.take(i as int), by_total()),
            decreases self.data@.len() - i,
        {
            let ghost seen = self.data@.take(i + 1);
            assert(seen.drop_last() =~= self.data@.take(i as int));
            assert(by_total()(self.data@[i as int].0) == float_bits::total_key(
                self.data@[i as int].0,
            ));
            assert(by_total()(self.data@[worst as int].0) == float_bits::total_key(
                self.data@[worst as int].0,
            ));
            assert(self.data@.take(i as int)[worst as int] == self.data@[worst as int]);
            if !float_bits::total_less_than(self.data[i].0, self.data[worst].0) {
                worst = i;
            }
            i = i + 1;
        }
        assert(self.data@.take(self.data@.len() as int) =~= self.data@);
        float_bits::less_than(dist, self.data[worst].0)
    }

    /// The kept rows, closest first.
    pub fn into_sorted(self) -> (r: Vec<Hit>)
        ensures
            r@ == sorted_hits(self@, by_total()),
    {
        let mut keys: Vec<i128> = Vec::new();
        for i in 0..self.data.len()
            invariant
                keys@ == hit_keys(self.data@, by_total()).take(i as int),
        {
            keys.push(total_key_of(self.data[i].0));
            proof {
                assert(by_total()(self.data@[i as int].0) == float_bits::total_key(
                    self.data@[i as int].0,
                ));
                assert(keys@ =~= hit_keys(self.data@, by_total()).take(i + 1));
            }
        }
        assert(keys@ =~= hit_keys(self.data@, by_total()));
        sort_hits(&self.data, &keys, Ghost(by_total()))
    }
}

/// Sorting changes the order of the kept rows, nothing else: each of them is there, and none is
/// closer than one before it.
pub proof fn sorted_hits_facts(data: Seq<Hit>, key: spec_fn(u32) -> int)
    requires
        data.len() <= usize::MAX,
        forall|b: u32| -0x1_0000_0000 <= #[trigger] key(b) <= 0x1_0000_0000,
    ensures
        sorted_hits(data, key).len() == data.len(),
        forall|i: int, j: int|
            0 <= i <= j < data.len() ==> key((#[trigger] sorted_hits(data, key)[i]).0) <= key(
                (#[trigger] sorted_hits(data, key)[j]).0,
            ),
        forall|i: int| 0 <= i < data.len() ==> data.contains(#[trigger] sorted_hits(data, key)[i]),
        forall|i: int| 0 <= i < data.len() ==> sorted_hits(data, key).contains(#[trigger] data[i]),
{
    let keys = hit_keys(data, key);
    let order = sort::stable_order(keys);
    sort::stable_order_facts(keys);
    let r = sorted_hits(data, key);
    assert forall|i: int, j: int| 0 <= i <= j < r.len() implies key((#[trigger] r[i]).0) <= key(
        (#[trigger] r[j]).0,
    ) by {
        assert(keys[order[i] as int] <= keys[order[j] as int]);
    }
    assert forall|i: int| 0 <= i < data.len() implies data.contains(#[trigger] r[i]) by {
        assert(data[order[i] as int] == r[i]);
    }
    assert forall|i: int| 0 <= i < data.len() implies r.contains(#[trigger] data[i]) by {
        assert(order.contains(i as usize));
        let k = choose|k: int| 0 <= k < order.len() && order[k] == i as usize;
        assert(r[k] == data[i]);
    }
}

proof fn lemma_nothing_new(kept: Seq<Hit>, k: usize, hits: Seq<Hit>)
    requires
        unique_ids(kept),
        forall|i: int| 0 <= i < hits.len() ==> #[trigger] kept_under_id(kept, hits[i]),
    ensures
        unique_of(kept, k, hits) == kept,
    decreases hits.len(),
{
    if hits.len() > 0 {
        let front = hits.drop_last();
        assert forall|i: int| 0 <= i < front.len() implies #[trigger] kept_under_id(
            kept,
            front[i],
        ) by {
            assert(kept_under_id(kept, hits[i]));
        }
        lemma_nothing_new(kept, k, front);
        let x = hits.last();
        assert(kept_under_id(kept, hits[hits.len() - 1]));
        let j = choose|j: int|
            0 <= j < kept.len() && (#[trigger] kept[j]).1 == x.1 && !float_bits::lt(x.0, kept[j].0);
        lemma_position(kept, x.1);
    }
}

/// As long as there is room, offering the same rows again changes nothing.
pub proof fn offering_again_changes_nothing(k: usize, hits: Seq<Hit>)
    requires
        no_nan(hits),
        unique_of(Seq::empty(), k, hits).len() < k,
    ensures
        unique_of(unique_of(Seq::empty(), k, hits), k, hits) == unique_of(Seq::empty(), k, hits),
{
    let kept = unique_of(Seq::empty(), k, hits);
    closest_ids_are_kept(k, hits);
    assert forall|i: int| 0 <= i < hits.len() implies #[trigger] kept_under_id(kept, hits[i]) by {}
    lemma_nothing_new(kept, k, hits);
}

pub proof fn lemma_unique_after_no_nan(data: Seq<Hit>, k: usize, hit: Hit)
    requires
        no_nan(data),
        !float_bits::is_nan(hit.0),
    ensures
        no_nan(unique_after(data, k, hit)),
        data.len() <= k ==> unique_after(data, k, hit).len() <= k,
{
    let after = unique_after(data, k, hit);
    lemma_position(data, hit.1);
    if data.len() > 0 {
        lemma_last_worst(data, by_total());
    }
    assert forall|i: int| 0 <= i < after.len() implies !float_bits::is_nan(
        (#[trigger] after[i]).0,
    ) by {
        if i < data.len() {
            assert(!float_bits::is_nan(data[i].0));
        }
    }
}

/// A row that is not considered, even at a distance that is not above its own, would have changed
/// nothing.
pub proof fn what_is_not_considered_changes_nothing(
    data: Seq<Hit>,
    k: usize,
    bound: u32,
    dist: u32,
    id: i64,
)
    requires
        no_nan(data),
        data.len() <= k,
        !float_bits::is_nan(bound),
        !float_bits::is_nan(dist),
        !float_bits::lt(dist, bound),
        !considered(data, k, bound),
    ensures
        unique_after(data, k, (dist, id)) == data,
{
    if k > 0 {
        lemma_last_worst(data, by_total());
        lemma_position(data, id);
        let w = last_worst(data, by_total());
        let at = position_of(data, id);
        assert(!float_bits::is_nan(data[w].0));
        if at < data.len() {
            assert(!float_bits::is_nan(data[at].0));
            assert(by_total()(data[at].0) <= by_total()(data[w].0));
            assert(by_total()(data[at].0) == float_bits::total_key(data[at].0));
            assert(by_total()(data[w].0) == float_bits::total_key(data[w].0));
        }
    }
}

} // verus!
