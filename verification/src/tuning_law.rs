//! What settings are chosen, how memory is shared out and how lists are read, told by what the
//! choice is good for.
use vstd::prelude::*;

use crate::autotune;
use crate::autotune::{
    DiskAnnBuildDistance, DiskAnnBuildPreset, DiskAnnRawVectorEncoding, DiskAnnStorageLayout,
    RecallCandidate, TuningObjective,
};
use crate::float_bits;
use crate::index::IndexType;
use crate::ivfhnswsq_read::ListPayloadMeta;
use crate::read_options::{
    ReadPlan, SeekReadCapabilities, StorageProfile, VectorIndexReaderOptions,
};
use crate::read_plan;
use crate::read_plan::RangeModel;
use crate::sort;

verus! {

/// The candidate is good enough: its recall is not below the wanted one, and its rows and its build
/// are within the limits.
pub open spec fn is_good_enough<T>(
    candidate: RecallCandidate<T>,
    objective: TuningObjective,
) -> bool {
    &&& objective.target_recall matches Some(target) ==> float_bits::lt(
        target,
        candidate.measured_recall,
    ) || float_bits::eq(target, candidate.measured_recall)
    &&& objective.max_bytes_per_vector matches Some(limit) ==> candidate.bytes_per_vector <= limit
    &&& objective.max_build_seconds matches Some(limit) ==> float_bits::double_le(
        candidate.build_seconds,
        limit,
    )
}

/// The candidate that is chosen is good enough and has the shortest rows of those that are; of
/// these the fastest build, of these the best recall, and of these it is the first.
pub proof fn the_smallest_candidate_is_chosen<T>(
    candidates: Seq<RecallCandidate<T>>,
    objective: TuningObjective,
    at: int,
    i: int,
)
    requires
        autotune::is_choice(candidates, objective, at),
        0 <= i < candidates.len(),
        is_good_enough(candidates[i], objective),
    ensures
        is_good_enough(candidates[at], objective),
        ({
            let best = candidates[at];
            let other = candidates[i];
            let best_time = float_bits::double_total_key(best.build_seconds);
            let other_time = float_bits::double_total_key(other.build_seconds);
            &&& best.bytes_per_vector <= other.bytes_per_vector
            &&& best.bytes_per_vector == other.bytes_per_vector ==> best_time <= other_time
            &&& best.bytes_per_vector == other.bytes_per_vector && best_time == other_time
                ==> float_bits::total_key(best.measured_recall) >= float_bits::total_key(
                other.measured_recall,
            )
            &&& best.bytes_per_vector == other.bytes_per_vector && best_time == other_time
                && float_bits::total_key(best.measured_recall) == float_bits::total_key(
                other.measured_recall,
            ) ==> at <= i
        }),
{
    assert(autotune::meets(candidates[i], objective));
}

/// A candidate is considered where it is good enough, and only there.
pub proof fn good_candidates_are_considered<T>(
    candidate: RecallCandidate<T>,
    objective: TuningObjective,
)
    ensures
        autotune::meets(candidate, objective) <==> is_good_enough(candidate, objective),
{
}

/// Of the powers of two that leave sixty-four vectors for each list, and of one, none is nearer to
/// the square root of the number of vectors than the number of lists. (Of two numbers the greater
/// is the nearer one to the root where their sum is less than twice the root, and the smaller one
/// where it is more.)
pub proof fn lists_are_nearest_to_the_root(vector_count: nat, other: nat)
    requires
        vector_count >= 1,
        autotune::is_power_of_two(other),
        other == 1 || 64 * other <= vector_count,
    ensures
        autotune::is_power_of_two(autotune::lists_for(vector_count)),
        autotune::lists_for(vector_count) == 1 || 64 * autotune::lists_for(vector_count)
            <= vector_count,
        ({
            let chosen = autotune::lists_for(vector_count);
            &&& other > chosen ==> 4 * vector_count <= (chosen + other) * (chosen + other)
            &&& other < chosen ==> 4 * vector_count >= (chosen + other) * (chosen + other)
        }),
{
    autotune::lists_keep_training_density(vector_count);
    autotune::chosen_power_is_nearest(vector_count, other);
    let cap = if vector_count / 64 >= 1 {
        vector_count / 64
    } else {
        1
    };
    autotune::lemma_floor_power(cap);
    let top = autotune::floor_power_of_two_of(cap);
    let near = autotune::nearest_root_power(vector_count);
    autotune::lemma_powers_apart(other, top);
    autotune::chosen_power_is_nearest(vector_count, top);
    if near > top {
        assert(other <= top);
        if other < top {
            assert((top + other) * (top + other) <= (near + top) * (near + top))
                by (nonlinear_arith)
                requires
                    0 <= other < top < near,
            ;
            assert(4 * vector_count >= (near + top) * (near + top));
        }
    }
}

/// All vectors are trained with, or 65,536 of them, or sixty-four for each list, whichever of the
/// two is more.
pub proof fn training_counts_are_bounded(vector_count: int, nlist: int)
    requires
        vector_count >= 1,
        nlist >= 1,
    ensures
        ({
            let count = autotune::training_count(vector_count, nlist);
            &&& 1 <= count <= vector_count
            &&& count < vector_count ==> count >= 65_536 && count >= 64 * nlist && (count == 65_536
                || count == 64 * nlist)
            &&& vector_count <= 65_536 || vector_count <= 64 * nlist ==> count == vector_count
        }),
{
}

/// The lists that are looked into without a filter are enough: all of them, or at least eight, a
/// sixteenth of all, and so many that lists of average length hold four rows for each result. One
/// fewer would not be enough.
pub proof fn no_fewer_probes_would_do(nlist: int, vector_count: int, top_k: int)
    requires
        nlist >= 1,
        vector_count >= 1,
        top_k >= 1,
    ensures
        ({
            let probes = autotune::probes_for(nlist, vector_count, top_k, None);
            let average = if vector_count % nlist == 0 {
                vector_count / nlist
            } else {
                vector_count / nlist + 1
            };
            &&& 1 <= probes <= nlist
            &&& probes < nlist ==> probes >= 8 && 16 * probes >= nlist && average * probes >= 4
                * top_k
            &&& probes > 8 ==> 16 * (probes - 1) < nlist || average * (probes - 1) < 4 * top_k
            &&& probes < 8 ==> probes == nlist
        }),
{
    autotune::probes_scale(nlist, vector_count, top_k, 0);
    let probes = autotune::probes_for(nlist, vector_count, top_k, None);
    let average = autotune::div_up(vector_count, nlist);
    autotune::lemma_div_up(vector_count, nlist);
    autotune::lemma_div_up(nlist, 16);
    autotune::lemma_div_up(4 * top_k, average);
    let by_rows = autotune::div_up(4 * top_k, average);
    if probes > 8 && average * (probes - 1) >= 4 * top_k && 16 * (probes - 1) >= nlist {
        let sixteenth = autotune::div_up(nlist, 16);
        assert(sixteenth <= probes - 1);
        vstd::arithmetic::div_mod::lemma_fundamental_div_mod(4 * top_k, average);
        let whole = 4 * top_k / average;
        let part = 4 * top_k % average;
        assert(by_rows <= probes - 1) by (nonlinear_arith)
            requires
                average >= 1,
                average * (probes - 1) >= 4 * top_k,
                4 * top_k == average * whole + part,
                0 <= part < average,
                by_rows == whole + (if part == 0 {
                    0int
                } else {
                    1int
                }),
        ;
    }
}

/// With a filter that `matching` of the vectors pass, as many more lists are looked into as rows
/// are passed over: no fewer than would hold as many rows that pass, one fewer would not do, and
/// never more than all.
pub proof fn filters_widen_the_search(nlist: int, vector_count: int, top_k: int, matching: usize)
    requires
        nlist >= 1,
        vector_count >= 1,
        top_k >= 1,
    ensures
        ({
            let plain = autotune::probes_for(nlist, vector_count, top_k, None);
            let probes = autotune::probes_for(nlist, vector_count, top_k, Some(matching));
            &&& 1 <= probes <= nlist
            &&& matching == 0 ==> probes == 1
            &&& matching > 0 && probes < nlist ==> probes * matching >= plain * vector_count
            &&& matching > 0 && probes > 1 ==> (probes - 1) * matching < plain * vector_count
        }),
{
    autotune::probes_scale(nlist, vector_count, top_k, matching);
    let plain = autotune::probes_for(nlist, vector_count, top_k, None);
    let probes = autotune::probes_for(nlist, vector_count, top_k, Some(matching));
    if matching > 0 {
        let rows = plain * vector_count;
        assert(rows >= 1) by (nonlinear_arith)
            requires
                rows == plain * vector_count,
                plain >= 1,
                vector_count >= 1,
        ;
        let m = matching as int;
        autotune::lemma_div_up(rows, m);
        let wanted = autotune::div_up(rows, m);
        vstd::arithmetic::div_mod::lemma_fundamental_div_mod(rows, m);
        let whole = rows / m;
        let part = rows % m;
        assert((wanted - 1) * m < rows) by (nonlinear_arith)
            requires
                m >= 1,
                rows >= 1,
                rows == m * whole + part,
                0 <= part < m,
                wanted == whole + (if part == 0 {
                    0int
                } else {
                    1int
                }),
        ;
        assert(probes <= wanted);
        assert((probes - 1) * m <= (wanted - 1) * m) by (nonlinear_arith)
            requires
                probes <= wanted,
                m >= 1,
        ;
        if probes < nlist {
            assert(probes == wanted);
            assert(probes * m == m * wanted) by (nonlinear_arith)
                requires
                    probes == wanted,
            ;
        }
    }
}

/// The type of index that is recommended: up to a hundred thousand vectors are kept as they are;
/// beyond, rows of no more than thirty-two bytes call for product quantization, remote storage for
/// rotation codes, a recall of at least 0.95 for a graph, and anything else for scalar codes.
pub proof fn recommendations_follow_the_objective(vector_count: usize, objective: TuningObjective)
    ensures
        ({
            let chosen = autotune::recommended_type(vector_count, objective);
            let tight = objective.max_bytes_per_vector matches Some(bytes) && bytes <= 32;
            let remote = objective.storage_profile == StorageProfile::RemoteStorage
                || objective.storage_profile == StorageProfile::ObjectStore;
            let precise = objective.target_recall matches Some(target) && (float_bits::lt(
                0x3f73_3333,
                target,
            ) || float_bits::eq(0x3f73_3333, target));
            &&& chosen == IndexType::IvfFlat <==> vector_count <= 100_000
            &&& chosen == IndexType::IvfPq <==> vector_count > 100_000 && tight
            &&& chosen == IndexType::IvfRq <==> vector_count > 100_000 && !tight && remote
            &&& chosen == IndexType::DiskAnn <==> vector_count > 100_000 && !tight && !remote
                && precise
            &&& chosen == IndexType::IvfSq <==> vector_count > 100_000 && !tight && !remote
                && !precise
        }),
{
}

/// A window has no page more than it is wished to have, and a beam no range fewer than it may.
pub proof fn windows_are_as_wished(plan: ReadPlan, capabilities: SeekReadCapabilities)
    ensures
        ({
            let after = plan.spec_with_capabilities(capabilities);
            let own = if capabilities.preferred_window_bytes > 0 {
                capabilities.preferred_window_bytes as int
            } else {
                plan.window_bytes as int
            };
            let wished = if own >= capabilities.preferred_alignment_bytes {
                own
            } else {
                capabilities.preferred_alignment_bytes as int
            };
            let limit = capabilities.max_ranges_per_pread;
            &&& after.window_bytes >= wished || after.window_bytes == 1_048_576
            &&& after.window_bytes < wished + 4096 || after.window_bytes == 4096
            &&& limit == 0 || plan.graph_beam_width <= limit && plan.graph_beam_width > 0
                ==> after.graph_beam_width == plan.graph_beam_width
            &&& limit > 0 && plan.graph_beam_width >= limit ==> after.graph_beam_width == limit
            &&& limit == 0 || plan.filtered_graph_beam_width <= limit
                && plan.filtered_graph_beam_width > 0 ==> after.filtered_graph_beam_width
                == plan.filtered_graph_beam_width
            &&& limit > 0 && plan.filtered_graph_beam_width >= limit
                ==> after.filtered_graph_beam_width == limit
        }),
{
}

pub open spec fn least_of(a: int, b: int) -> int {
    if a < b {
        a
    } else {
        b
    }
}

/// How the memory of a reader is shared out: what is resident comes off first. Of the rest the
/// neighbour lists are preloaded with at most half, up to the cap of the storage. Then the cache of
/// neighbour lists may have half, the cache of vectors what is left, and what neither of them can
/// use goes to the neighbour lists. Budgets that were given are kept as they are.
pub proof fn memory_is_shared_in_order(
    options: VectorIndexReaderOptions,
    resident: usize,
    adjacency: usize,
    vectors: usize,
)
    ensures
        ({
            let r = options.resolved(resident as int, adjacency as int, vectors as int);
            let profile = options.storage_profile;
            let remote = profile == StorageProfile::RemoteStorage || profile
                == StorageProfile::ObjectStore;
            let free = if resident >= options.memory_budget_bytes {
                0
            } else {
                options.memory_budget_bytes - resident
            };
            let preload_cap: int = if profile == StorageProfile::RemoteStorage {
                33_554_432
            } else if profile == StorageProfile::ObjectStore {
                67_108_864
            } else {
                16_777_216
            };
            let cache_cap: int = if remote {
                usize::MAX as int
            } else {
                67_108_864
            };
            let rest = free - r.adjacency_preload_bytes;
            let lists = least_of(adjacency - r.adjacency_preload_bytes, cache_cap);
            let rows = least_of(vectors as int, cache_cap);
            &&& r.storage_profile == profile
            &&& options.cache_overrides matches Some(given) ==> {
                &&& r.adjacency_preload_bytes == given.adjacency_preload_bytes
                &&& r.adjacency_cache_bytes == given.adjacency_cache_bytes
                &&& r.max_resident_bytes == given.max_resident_bytes
                &&& r.raw_vector_cache_bytes == given.raw_vector_cache_bytes
            }
            &&& options.cache_overrides is None ==> {
                &&& r.max_resident_bytes == options.memory_budget_bytes
                &&& r.adjacency_preload_bytes == least_of(
                    least_of(free / 2, preload_cap),
                    adjacency as int,
                )
                &&& r.raw_vector_cache_bytes == least_of(rows, rest - least_of(rest / 2, lists))
                &&& r.adjacency_cache_bytes == least_of(lists, rest - r.raw_vector_cache_bytes)
            }
        }),
{
}

/// The lists stand one behind the other, and no list ends beyond what can be addressed.
pub open spec fn stand_apart(metas: Seq<ListPayloadMeta>) -> bool {
    &&& forall|i: int|
        0 <= i < metas.len() ==> (#[trigger] metas[i]).offset + metas[i].payload_len <= u64::MAX
    &&& forall|i: int|
        0 <= i < metas.len() - 1 ==> (#[trigger] metas[i]).offset + metas[i].payload_len <= metas[i
            + 1].offset
}

proof fn lemma_plan_from_succeeds(
    metas: Seq<ListPayloadMeta>,
    done: Seq<RangeModel>,
    range: RangeModel,
)
    requires
        stand_apart(metas),
        metas.len() > 0 ==> range.end <= metas[0].offset,
    ensures
        read_plan::plan_from(metas, done, range) is Ok,
    decreases metas.len(),
{
    if metas.len() > 0 {
        let meta = metas[0];
        let rest = metas.drop_first();
        assert forall|i: int| 0 <= i < rest.len() implies (#[trigger] rest[i]).offset
            + rest[i].payload_len <= u64::MAX by {
            assert(rest[i] == metas[i + 1]);
        }
        assert forall|i: int| 0 <= i < rest.len() - 1 implies (#[trigger] rest[i]).offset
            + rest[i].payload_len <= rest[i + 1].offset by {
            assert(rest[i] == metas[i + 1]);
            assert(rest[i + 1] == metas[i + 2]);
        }
        assert(meta.offset + meta.payload_len <= u64::MAX);
        if rest.len() > 0 {
            let i: int = 0;
            assert(metas[i].offset + metas[i].payload_len <= metas[i + 1].offset);
        }
        lemma_plan_from_succeeds(rest, done, read_plan::joined(range, meta));
        lemma_plan_from_succeeds(rest, done.push(range), read_plan::alone(meta));
    }
}

/// Lists that stand apart are planned.
pub proof fn lists_that_stand_apart_are_planned(metas: Seq<ListPayloadMeta>)
    requires
        stand_apart(metas),
    ensures
        read_plan::plan(metas) is Ok,
{
    if metas.len() > 0 {
        let rest = metas.drop_first();
        assert(metas[0].offset + metas[0].payload_len <= u64::MAX);
        assert forall|i: int| 0 <= i < rest.len() implies (#[trigger] rest[i]).offset
            + rest[i].payload_len <= u64::MAX by {
            assert(rest[i] == metas[i + 1]);
        }
        assert forall|i: int| 0 <= i < rest.len() - 1 implies (#[trigger] rest[i]).offset
            + rest[i].payload_len <= rest[i + 1].offset by {
            assert(rest[i] == metas[i + 1]);
            assert(rest[i + 1] == metas[i + 2]);
        }
        if rest.len() > 0 {
            let i: int = 0;
            assert(metas[i].offset + metas[i].payload_len <= metas[i + 1].offset);
        }
        lemma_plan_from_succeeds(rest, Seq::empty(), read_plan::alone(metas[0]));
    }
}

/// The next list cannot be read with the range: the gap is longer than a mebibyte, or more than
/// half of what would be read is not wanted.
pub open spec fn is_too_far(range: RangeModel, meta: ListPayloadMeta) -> bool {
    ||| meta.offset - range.end > 1_048_576
    ||| meta.offset + meta.payload_len - range.start > 2 * (range.payload_bytes + meta.payload_len)
    ||| meta.offset + meta.payload_len - range.start > usize::MAX
    ||| range.payload_bytes + meta.payload_len > usize::MAX
}

pub open spec fn is_parted(ranges: Seq<RangeModel>, i: int) -> bool {
    &&& ranges[i + 1].metas.len() > 0
    &&& is_too_far(ranges[i], ranges[i + 1].metas[0])
}

proof fn lemma_parted(metas: Seq<ListPayloadMeta>, done: Seq<RangeModel>, range: RangeModel)
    requires
        range.metas.len() > 0,
        forall|i: int|
            0 <= i < done.push(range).len() - 1 ==> #[trigger] is_parted(done.push(range), i),
        range.start <= range.end,
    ensures
        read_plan::plan_from(metas, done, range) matches Ok(ranges) ==> forall|i: int|
            0 <= i < ranges.len() - 1 ==> #[trigger] is_parted(ranges, i),
    decreases metas.len(),
{
    if metas.len() > 0 {
        let meta = metas[0];
        let now = done.push(range);
        if meta.offset + meta.payload_len <= u64::MAX && meta.offset >= range.end {
            let longer = read_plan::joined(range, meta);
            let next = done.push(longer);
            assert forall|i: int| 0 <= i < next.len() - 1 implies #[trigger] is_parted(next, i) by {
                assert(is_parted(now, i));
                assert(next[i] == now[i]);
                if i + 1 < done.len() {
                    assert(next[i + 1] == now[i + 1]);
                } else {
                    assert(next[i + 1].metas[0] == now[i + 1].metas[0]);
                }
            }
            lemma_parted(metas.drop_first(), done, longer);
            let one = read_plan::alone(meta);
            let other = now.push(one);
            if !read_plan::coalesces(
                (meta.offset - range.end) as u64,
                range.start,
                (meta.offset + meta.payload_len) as u64,
                range.payload_bytes,
                meta.payload_len,
            ) {
                assert forall|i: int| 0 <= i < other.len() - 1 implies #[trigger] is_parted(
                    other,
                    i,
                ) by {
                    if i < now.len() - 1 {
                        assert(is_parted(now, i));
                        assert(other[i] == now[i] && other[i + 1] == now[i + 1]);
                    } else {
                        assert(other[i] == range && other[i + 1] == one);
                    }
                }
                lemma_parted(metas.drop_first(), now, one);
            }
        }
    }
}

/// Lists that stand near each other are read at once: where one range ends and the next begins, it
/// would not have paid to go on.
pub proof fn near_lists_are_read_at_once(metas: Seq<ListPayloadMeta>)
    ensures
        read_plan::plan(metas) matches Ok(ranges) ==> forall|i: int|
            0 <= i < ranges.len() - 1 ==> #[trigger] is_parted(ranges, i),
{
    if metas.len() > 0 && metas[0].offset + metas[0].payload_len <= u64::MAX {
        lemma_parted(metas.drop_first(), Seq::empty(), read_plan::alone(metas[0]));
    }
}

/// The place of a list in a request is the first at which it is named.
pub proof fn places_in_requests_are_the_first(requested: Seq<usize>, id: usize)
    requires
        requested.len() <= usize::MAX,
    ensures
        ({
            let place = read_plan::request_place(requested, id);
            &&& requested.contains(id) ==> 0 <= place < requested.len() && requested[place] == id
            &&& requested.contains(id) ==> forall|i: int|
                0 <= i < place ==> #[trigger] requested[i] != id
            &&& !requested.contains(id) ==> place == usize::MAX
        }),
    decreases requested.len(),
{
    if requested.len() > 0 {
        let front = requested.drop_last();
        places_in_requests_are_the_first(front, id);
        let last = requested.len() - 1;
        if front.contains(id) {
            let i = choose|i: int| 0 <= i < front.len() && front[i] == id;
            assert(requested[i] == id);
            assert forall|j: int|
                0 <= j < read_plan::request_place(requested, id) implies #[trigger] requested[j]
                != id by {
                assert(front[j] == requested[j]);
            }
        } else {
            assert forall|j: int| 0 <= j < last implies #[trigger] requested[j] != id by {
                assert(front[j] == requested[j]);
            }
            if requested[last] == id {
                assert(requested.contains(id));
            } else {
                assert(!requested.contains(id)) by {
                    if requested.contains(id) {
                        let j = choose|j: int| 0 <= j < requested.len() && requested[j] == id;
                    }
                }
            }
        }
    }
}

/// The lists that were read are given back in the order in which they were asked for, each of them
/// once, and those that were not asked for behind the others.
pub proof fn lists_come_as_they_were_asked_for(requested: Seq<usize>, ids: Seq<usize>)
    requires
        requested.len() <= usize::MAX,
        requested.no_duplicates(),
        ids.len() <= usize::MAX,
    ensures
        ({
            let order = sort::stable_order(read_plan::request_keys(requested, ids));
            &&& order.len() == ids.len()
            &&& order.no_duplicates()
            &&& forall|i: int| 0 <= i < ids.len() ==> #[trigger] order[i] < ids.len()
            &&& forall|i: int, j: int, a: int, b: int|
                0 <= i < j < ids.len() && 0 <= a < requested.len() && 0 <= b < requested.len()
                    && #[trigger] requested[a] == ids[#[trigger] order[i] as int]
                    && #[trigger] requested[b] == ids[#[trigger] order[j] as int] ==> a <= b
            &&& forall|i: int, j: int|
                0 <= i < j < ids.len() && requested.contains(ids[#[trigger] order[j] as int])
                    ==> requested.contains(ids[#[trigger] order[i] as int])
        }),
{
    let keys = read_plan::request_keys(requested, ids);
    let order = sort::stable_order(keys);
    sort::stable_order_facts(keys);
    assert forall|i: int, j: int, a: int, b: int|
        0 <= i < j < ids.len() && 0 <= a < requested.len() && 0 <= b < requested.len()
            && #[trigger] requested[a] == ids[#[trigger] order[i] as int]
            && #[trigger] requested[b] == ids[#[trigger] order[j] as int] implies a <= b by {
        places_in_requests_are_the_first(requested, requested[a]);
        places_in_requests_are_the_first(requested, requested[b]);
        assert(requested.contains(requested[a]) && requested.contains(requested[b]));
        assert(keys[order[i] as int] <= keys[order[j] as int]);
    }
    assert forall|i: int, j: int|
        0 <= i < j < ids.len() && requested.contains(
            ids[#[trigger] order[j] as int],
        ) implies requested.contains(ids[#[trigger] order[i] as int]) by {
        places_in_requests_are_the_first(requested, ids[order[i] as int]);
        places_in_requests_are_the_first(requested, ids[order[j] as int]);
        assert(keys[order[i] as int] <= keys[order[j] as int]);
    }
}

/// The lists of `planned` are those of `metas`, all of them and each once, at the positions that
/// `order` gives.
pub open spec fn are_all_of(
    planned: Seq<ListPayloadMeta>,
    metas: Seq<ListPayloadMeta>,
    order: Seq<usize>,
) -> bool {
    &&& planned.len() == metas.len()
    &&& order.len() == metas.len()
    &&& order.no_duplicates()
    &&& forall|i: int|
        0 <= i < planned.len() ==> (#[trigger] order[i]) < metas.len() && planned[i]
            == metas[order[i] as int]
}

/// The lists are planned in the order of their offsets: all of them, each once.
pub proof fn lists_are_planned_by_their_offsets(metas: Seq<ListPayloadMeta>)
    requires
        metas.len() <= usize::MAX,
    ensures
        ({
            let planned = read_plan::by_offset(metas);
            &&& exists|order: Seq<usize>| #[trigger] are_all_of(planned, metas, order)
            &&& forall|i: int, j: int|
                0 <= i <= j < planned.len() ==> (#[trigger] planned[i]).offset
                    <= (#[trigger] planned[j]).offset
        }),
{
    let keys = read_plan::offset_keys(metas);
    let order = sort::stable_order(keys);
    sort::stable_order_facts(keys);
    let planned = read_plan::by_offset(metas);
    assert(are_all_of(planned, metas, order));
    assert forall|i: int, j: int| 0 <= i <= j < planned.len() implies (#[trigger] planned[i]).offset
        <= (#[trigger] planned[j]).offset by {
        assert(keys[order[i] as int] <= keys[order[j] as int]);
    }
}

/// From the fast preset to that of high recall graphs have more edges and are built with wider
/// searches, each wider than the edges that it looks for; only high recall keeps and compares full
/// values.
pub proof fn presets_trade_time_for_recall()
    ensures
        ({
            let fast = autotune::preset_values(DiskAnnBuildPreset::FastBuild);
            let balanced = autotune::preset_values(DiskAnnBuildPreset::Balanced);
            let high = autotune::preset_values(DiskAnnBuildPreset::HighRecall);
            &&& 0 < fast.0 < balanced.0 < high.0
            &&& fast.0 < fast.1 && balanced.0 < balanced.1 && high.0 < high.1
            &&& fast.1 < balanced.1 < high.1
            &&& float_bits::lt(0x3f80_0000, fast.2)
            &&& !float_bits::lt(balanced.2, fast.2) && !float_bits::lt(high.2, balanced.2)
            &&& high.3 == DiskAnnRawVectorEncoding::F32
            &&& high.4 == DiskAnnBuildDistance::FullPrecision
            &&& fast.3 == DiskAnnRawVectorEncoding::F16 && balanced.3
                == DiskAnnRawVectorEncoding::F16
            &&& fast.4 == DiskAnnBuildDistance::ProductQuantized && balanced.4
                == DiskAnnBuildDistance::ProductQuantized
        }),
{
}

/// A row lies with its edges if and only if the storage is near and both fit into a page of 4096
/// bytes: two or four bytes for each value, and four for each edge.
pub proof fn rows_lie_with_their_edges(
    preset: DiskAnnBuildPreset,
    profile: StorageProfile,
    dimension: int,
)
    requires
        dimension >= 0,
    ensures
        ({
            let values = autotune::preset_values(preset);
            let width: int = if values.3 == DiskAnnRawVectorEncoding::F32 {
                4
            } else {
                2
            };
            let near = profile == StorageProfile::Memory || profile == StorageProfile::LocalStorage;
            autotune::layout_for(profile, autotune::record_bytes(preset, dimension))
                == DiskAnnStorageLayout::Interleaved <==> near && width * dimension + 4 * values.0
                <= 4096
        }),
{
    let values = autotune::preset_values(preset);
    let width: int = if values.3 == DiskAnnRawVectorEncoding::F32 {
        4
    } else {
        2
    };
    assert(dimension * width == width * dimension) by (nonlinear_arith);
}

} // verus!
