//! Settings that are worked out from the size of the data.
use crate::error::IndexError;
use crate::float_bits;
use crate::index::IndexType;
use crate::read_options;
use crate::read_options::StorageProfile;
use vstd::prelude::*;

verus! {

pub const MIN_IVF_TRAINING_VECTORS: usize = 65_536;

pub const IVF_TRAINING_VECTORS_PER_LIST: usize = 64;

pub const DEFAULT_IVF_LIST_FRACTION: usize = 16;

pub const DEFAULT_IVF_MIN_NPROBE: usize = 8;

pub const DEFAULT_IVF_CANDIDATES_PER_RESULT: usize = 4;

/// A setting that is worked out or given.
#[derive(Debug, Clone, Copy, PartialEq, Eq)]
pub enum AutoValue<T> {
    Auto,
    Explicit(T),
}

impl<T> Default for AutoValue<T> {
    fn default() -> (r: Self)
        ensures
            r is Auto,
    {
        AutoValue::Auto
    }
}

impl<T: Copy> AutoValue<T> {
    /// The value that was given, if one was.
    pub fn explicit(self) -> (r: Option<T>)
        ensures
            self matches AutoValue::Explicit(value) ==> r == Some(value),
            self is Auto ==> r is None,
    {
        match self {
            AutoValue::Auto => None,
            AutoValue::Explicit(value) => Some(value),
        }
    }
}

/// What a choice of settings has to meet. The recall is a bit pattern of single precision, the
/// time one of double precision.
#[derive(Debug, Clone, Copy, PartialEq, Eq, Structural)]
pub struct TuningObjective {
    pub target_recall: Option<u32>,
    pub max_bytes_per_vector: Option<usize>,
    pub max_build_seconds: Option<u64>,
    pub storage_profile: StorageProfile,
}

impl Default for TuningObjective {
    fn default() -> (r: Self)
        ensures
            r.target_recall is None,
            r.max_bytes_per_vector is None,
            r.max_build_seconds is None,
            r.storage_profile == StorageProfile::Auto,
    {
        TuningObjective {
            target_recall: None,
            max_bytes_per_vector: None,
            max_build_seconds: None,
            storage_profile: StorageProfile::Auto,
        }
    }
}

/// A choice of settings with what was measured of it.
#[derive(Debug, Clone, Copy)]
pub struct RecallCandidate<T> {
    pub value: T,
    pub measured_recall: u32,
    pub bytes_per_vector: usize,
    pub build_seconds: u64,
}

/// The candidate meets every target that there is.
pub open spec fn meets<T>(candidate: RecallCandidate<T>, objective: TuningObjective) -> bool {
    &&& objective.target_recall matches Some(target) ==> !float_bits::is_nan(target)
        && !float_bits::is_nan(candidate.measured_recall) && float_bits::value_key(
        candidate.measured_recall,
    ) >= float_bits::value_key(target)
    &&& objective.max_bytes_per_vector matches Some(limit) ==> candidate.bytes_per_vector <= limit
    &&& objective.max_build_seconds matches Some(limit) ==> float_bits::double_le(
        candidate.build_seconds,
        limit,
    )
}

/// The first is better than the second: smaller, or as small and faster to build, or as fast and
/// with the higher recall.
pub open spec fn better<T>(a: RecallCandidate<T>, b: RecallCandidate<T>) -> bool {
    let a_time = float_bits::double_total_key(a.build_seconds);
    let b_time = float_bits::double_total_key(b.build_seconds);
    ||| a.bytes_per_vector < b.bytes_per_vector
    ||| a.bytes_per_vector == b.bytes_per_vector && a_time < b_time
    ||| a.bytes_per_vector == b.bytes_per_vector && a_time == b_time && float_bits::total_key(
        a.measured_recall,
    ) > float_bits::total_key(b.measured_recall)
}

/// The place of the choice: the first of those that meet the objective and that none of them is
/// better than.
pub open spec fn is_choice<T>(
    candidates: Seq<RecallCandidate<T>>,
    objective: TuningObjective,
    at: int,
) -> bool {
    &&& 0 <= at < candidates.len()
    &&& meets(candidates[at], objective)
    &&& forall|i: int|
        0 <= i < candidates.len() && meets(#[trigger] candidates[i], objective) ==> !better(
            candidates[i],
            candidates[at],
        ) && (i < at ==> better(candidates[at], candidates[i]))
}

fn check_meets<T: Copy>(candidate: &RecallCandidate<T>, objective: TuningObjective) -> (r: bool)
    ensures
        r == meets(*candidate, objective),
{
    let recall_met: bool = match objective.target_recall {
        Some(target) => !float_bits::check_nan(target) && !float_bits::check_nan(
            candidate.measured_recall,
        ) && !float_bits::less_than(candidate.measured_recall, target),
        None => true,
    };
    let size_met: bool = match objective.max_bytes_per_vector {
        Some(limit) => candidate.bytes_per_vector <= limit,
        None => true,
    };
    let time_met: bool = match objective.max_build_seconds {
        Some(limit) => float_bits::double_at_most(candidate.build_seconds, limit),
        None => true,
    };
    recall_met && size_met && time_met
}

fn check_better<T: Copy>(a: &RecallCandidate<T>, b: &RecallCandidate<T>) -> (r: bool)
    ensures
        r == better(*a, *b),
{
    if a.bytes_per_vector != b.bytes_per_vector {
        return a.bytes_per_vector < b.bytes_per_vector;
    }
    if float_bits::double_total_less_than(a.build_seconds, b.build_seconds) {
        return true;
    }
    if float_bits::double_total_less_than(b.build_seconds, a.build_seconds) {
        return false;
    }
    float_bits::total_less_than(b.measured_recall, a.measured_recall)
}

/// Picks the best candidate that meets the objective. There is none where none meets it.
pub fn select_calibrated_candidate<T: Copy>(
    candidates: &[RecallCandidate<T>],
    objective: TuningObjective,
) -> (r: Option<RecallCandidate<T>>)
    ensures
        r is None <==> forall|i: int|
            0 <= i < candidates@.len() ==> !meets(#[trigger] candidates@[i], objective),
        r matches Some(choice) ==> exists|at: int|
            is_choice(candidates@, objective, at) && #[trigger] candidates@[at] == choice,
{
    let mut best: Option<usize> = None;
    for i in 0..candidates.len()
        invariant
            best is None ==> forall|k: int|
                0 <= k < i ==> !meets(#[trigger] candidates@[k], objective),
            best matches Some(at) ==> at < i && is_choice(
                candidates@.subrange(0, i as int),
                objective,
                at as int,
            ),
    {
        let ghost before = candidates@.subrange(0, i as int);
        let ghost after = candidates@.subrange(0, i + 1);
        let candidate = candidates[i];
        assert(forall|k: int| 0 <= k < i ==> before[k] == #[trigger] after[k]);
        assert(after[i as int] == candidate);
        if check_meets(&candidate, objective) {
            match best {
                Some(at) => {
                    let leader = candidates[at];
                    if check_better(&candidate, &leader) {
                        best = Some(i);
                        assert forall|k: int|
                            0 <= k < after.len() && meets(#[trigger] after[k], objective)
                            implies !better(after[k], after[i as int]) && (k < i ==> better(
                            after[i as int],
                            after[k],
                        )) by {
                            if k < i {
                                assert(before[k] == after[k]);
                                assert(!better(before[k], before[at as int]));
                            }
                        }
                    } else {
                        assert(after[at as int] == leader);
                    }
                },
                None => {
                    best = Some(i);
                    assert forall|k: int| 0 <= k < i implies !meets(#[trigger] after[k], objective) by {
                        assert(after[k] == candidates@[k]);
                    }
                },
            }
        }
    }
    assert(candidates@.subrange(0, candidates@.len() as int) =~= candidates@);
    match best {
        Some(at) => {
            assert(candidates@[at as int] == candidates@[at as int]);
            assert(meets(candidates@[at as int], objective));
            Some(candidates[at])
        },
        None => None,
    }
}

/// The largest power of two that is not greater than the number, and one for zero.
pub open spec fn floor_power_of_two_of(value: nat) -> nat
    decreases value,
{
    if value <= 1 {
        1
    } else {
        2 * floor_power_of_two_of(value / 2)
    }
}

/// The largest power of two whose square is not greater than the number, and one for zero.
pub open spec fn root_power(value: nat) -> nat
    decreases value,
{
    if value < 4 {
        1
    } else {
        2 * root_power(value / 4)
    }
}

/// The power of two that is nearest to the square root of the number, the lower of two that are as
/// near.
pub open spec fn nearest_root_power(value: nat) -> nat {
    let lower = root_power(value);
    if 4 * value <= 9 * (lower * lower) {
        lower
    } else {
        2 * lower
    }
}

/// The number of lists for this many vectors.
pub open spec fn lists_for(vector_count: nat) -> nat {
    let cap = floor_power_of_two_of(
        if vector_count / 64 >= 1 {
            vector_count / 64
        } else {
            1
        },
    );
    if nearest_root_power(vector_count) <= cap {
        nearest_root_power(vector_count)
    } else {
        cap
    }
}

pub open spec fn is_power_of_two(value: nat) -> bool
    decreases value,
{
    value == 1 || (value > 1 && value % 2 == 0 && is_power_of_two(value / 2))
}

pub proof fn lemma_floor_power(value: nat)
    ensures
        is_power_of_two(floor_power_of_two_of(value)),
        value >= 1 ==> floor_power_of_two_of(value) <= value < 2 * floor_power_of_two_of(value),
    decreases value,
{
    if value > 1 {
        lemma_floor_power(value / 2);
        let half = floor_power_of_two_of(value / 2);
        assert((2 * half) / 2 == half);
    }
}

proof fn lemma_root_power(value: nat)
    ensures
        is_power_of_two(root_power(value)),
        value >= 1 ==> root_power(value) * root_power(value) <= value,
        value < 4 * (root_power(value) * root_power(value)),
    decreases value,
{
    if value >= 4 {
        lemma_root_power(value / 4);
        let half = root_power(value / 4);
        assert((2 * half) / 2 == half);
        assert((2 * half) * (2 * half) == 4 * (half * half)) by (nonlinear_arith);
    }
}

/// A power of two is at most this one or at least twice as much.
pub proof fn lemma_powers_apart(a: nat, b: nat)
    requires
        is_power_of_two(a),
        is_power_of_two(b),
    ensures
        a <= b || a >= 2 * b,
    decreases a,
{
    if a > 1 && b > 1 {
        lemma_powers_apart(a / 2, b / 2);
    }
}

/// A power of two doubled is one again.
proof fn lemma_power_doubled(a: nat)
    requires
        is_power_of_two(a),
    ensures
        is_power_of_two(2 * a),
{
    assert((2 * a) / 2 == a);
}

/// No power of two is nearer to the square root of the number of vectors than the one that is
/// chosen. (Of two numbers the greater is the nearer one to the root where their sum is less than
/// twice the root, and the smaller one where it is more.)
pub proof fn chosen_power_is_nearest(value: nat, other: nat)
    requires
        value >= 1,
        is_power_of_two(other),
    ensures
        is_power_of_two(nearest_root_power(value)),
        ({
            let chosen = nearest_root_power(value);
            &&& other > chosen ==> 4 * value <= (chosen + other) * (chosen + other)
            &&& other < chosen ==> 4 * value >= (chosen + other) * (chosen + other)
        }),
{
    lemma_root_power(value);
    let lower = root_power(value);
    let chosen = nearest_root_power(value);
    lemma_power_doubled(lower);
    lemma_powers_apart(other, chosen);
    lemma_powers_apart(chosen, other);
    if other > chosen {
        assert(chosen + other >= 3 * chosen);
        assert((chosen + other) * (chosen + other) >= 9 * (chosen * chosen)) by (nonlinear_arith)
            requires
                chosen + other >= 3 * chosen,
                chosen >= 0,
        ;
        if chosen == 2 * lower {
            assert((2 * lower) * (2 * lower) == 4 * (lower * lower)) by (nonlinear_arith);
        }
    }
    if other < chosen {
        assert(2 * (chosen + other) <= 3 * chosen);
        assert(4 * ((chosen + other) * (chosen + other)) <= 9 * (chosen * chosen))
            by (nonlinear_arith)
            requires
                2 * (chosen + other) <= 3 * chosen,
                chosen + other >= 0,
        ;
        if chosen == 2 * lower {
            assert((2 * lower) * (2 * lower) == 4 * (lower * lower)) by (nonlinear_arith);
        }
    }
}

/// The number of lists is a power of two, every list has at least sixty-four vectors to be trained
/// with where there are that many at all, and a tiny corpus gets one list.
pub proof fn lists_keep_training_density(vector_count: nat)
    requires
        vector_count >= 1,
    ensures
        is_power_of_two(lists_for(vector_count)),
        vector_count >= 64 ==> 64 * lists_for(vector_count) <= vector_count,
        vector_count < 128 ==> lists_for(vector_count) == 1,
{
    chosen_power_is_nearest(vector_count, 1);
    let cap = if vector_count / 64 >= 1 {
        vector_count / 64
    } else {
        1
    };
    lemma_floor_power(cap);
    if vector_count < 128 {
        assert(cap == 1);
        lemma_power_at_least_one(nearest_root_power(vector_count));
    }
}

proof fn lemma_power_at_least_one(a: nat)
    requires
        is_power_of_two(a),
    ensures
        a >= 1,
{
}

/// The largest power of two that is not greater than the number.
fn floor_power_of_two(value: usize) -> (r: usize)
    ensures
        r == floor_power_of_two_of(value as nat),
{
    let mut power: usize = 1;
    let mut rest: usize = value;
    while rest > 1
        invariant
            power * floor_power_of_two_of(rest as nat) == floor_power_of_two_of(value as nat),
            value >= 1 ==> power * rest <= value,
            value == 0 ==> rest == 0,
            power >= 1,
        decreases rest,
    {
        proof {
            let half = (rest / 2) as nat;
            let f = floor_power_of_two_of(half);
            assert(power * (2 * f) == (power * 2) * f) by (nonlinear_arith);
            assert((power * 2) * (rest / 2) <= power * rest) by (nonlinear_arith)
                requires
                    2 * (rest / 2) <= rest,
            ;
            assert(power * 2 <= power * rest) by (nonlinear_arith)
                requires
                    rest >= 2,
            ;
        }
        power = power * 2;
        rest = rest / 2;
    }
    assert(power * floor_power_of_two_of(rest as nat) == power) by (nonlinear_arith)
        requires
            floor_power_of_two_of(rest as nat) == 1,
    ;
    power
}

/// Chooses the power of two that is nearest to the square root of the number of vectors, as long as
/// every list keeps enough vectors to be trained with.
pub fn infer_ivf_nlist(vector_count: usize) -> (r: Result<usize, IndexError>)
    ensures
        r == (if vector_count == 0 {
            Err(IndexError::VectorCountZero)
        } else {
            Ok(lists_for(vector_count as nat) as usize)
        }),
{
    if vector_count == 0 {
        return Err(IndexError::VectorCountZero);
    }
    let value: u128 = vector_count as u128;
    let mut lower: u128 = 1;
    let mut rest: u128 = value;
    assert(lower * lower * rest == rest) by (nonlinear_arith)
        requires
            lower == 1,
    ;
    while rest >= 4
        invariant
            1 <= value <= u64::MAX,
            1 <= lower,
            rest >= 1,
            lower * lower * rest <= value,
            lower * root_power(rest as nat) == root_power(value as nat),
        decreases rest,
    {
        proof {
            let q = root_power((rest / 4) as nat);
            assert(lower * (2 * q) == (lower * 2) * q) by (nonlinear_arith);
            assert((lower * 2) * (lower * 2) * (rest / 4) <= lower * lower * rest)
                by (nonlinear_arith)
                requires
                    4 * (rest / 4) <= rest,
            ;
            assert(lower <= value) by (nonlinear_arith)
                requires
                    1 <= lower,
                    1 <= rest,
                    lower * lower * rest <= value,
            ;
        }
        lower = lower * 2;
        rest = rest / 4;
    }
    proof {
        assert(lower * root_power(rest as nat) == lower) by (nonlinear_arith)
            requires
                root_power(rest as nat) == 1,
        ;
        lemma_root_power(value as nat);
        assert(lower * lower <= value);
        assert(lower <= value) by (nonlinear_arith)
            requires
                lower * lower <= value,
                1 <= lower,
        ;
        chosen_power_is_nearest(value as nat, 1);
    }
    let nearest: u128 = if 4 * value <= 9 * (lower * lower) {
        lower
    } else {
        2 * lower
    };
    assert(nearest == nearest_root_power(value as nat));
    let training: usize = vector_count / IVF_TRAINING_VECTORS_PER_LIST;
    let cap: usize = floor_power_of_two(
        if training >= 1 {
            training
        } else {
            1
        },
    );
    if nearest <= cap as u128 {
        Ok(nearest as usize)
    } else {
        Ok(cap)
    }
}

/// The number of vectors to train with: sixty-four for each list, but at least as many as are
/// always taken, and no more than there are.
pub open spec fn training_count(vector_count: int, nlist: int) -> int {
    read_options::smaller(
        vector_count,
        read_options::larger(MIN_IVF_TRAINING_VECTORS as int, 64 * nlist),
    )
}

pub fn default_training_vector_count(vector_count: usize, nlist: usize) -> (r: Result<
    usize,
    IndexError,
>)
    ensures
        r == (if vector_count == 0 {
            Err(IndexError::VectorCountZero)
        } else if nlist == 0 {
            Err(IndexError::NlistZero)
        } else if 64 * nlist > usize::MAX {
            Err(IndexError::TrainingCountOverflow)
        } else {
            Ok(training_count(vector_count as int, nlist as int) as usize)
        }),
{
    if vector_count == 0 {
        return Err(IndexError::VectorCountZero);
    }
    if nlist == 0 {
        return Err(IndexError::NlistZero);
    }
    match nlist.checked_mul(IVF_TRAINING_VECTORS_PER_LIST) {
        Some(per_list) => {
            let wanted: usize = if MIN_IVF_TRAINING_VECTORS >= per_list {
                MIN_IVF_TRAINING_VECTORS
            } else {
                per_list
            };
            Ok(
                if vector_count <= wanted {
                    vector_count
                } else {
                    wanted
                },
            )
        },
        None => Err(IndexError::TrainingCountOverflow),
    }
}

/// The quotient, rounded up.
pub open spec fn div_up(a: int, b: int) -> int {
    (a + b - 1) / b
}

/// The number of lists to look into without a filter: eight, or a sixteenth of all, or as many as
/// hold four rows for each result, whichever is most, and no more than there are.
pub open spec fn plain_probes(nlist: int, vector_count: int, top_k: int) -> int {
    let by_rows = div_up(4 * top_k, div_up(vector_count, nlist));
    let wanted = read_options::larger(
        read_options::larger(DEFAULT_IVF_MIN_NPROBE as int, div_up(nlist, 16)),
        by_rows,
    );
    read_options::smaller(wanted, nlist)
}

/// The number of lists to look into: with a filter, as many times more as rows are left out, and
/// one where the filter leaves none.
pub open spec fn probes_for(
    nlist: int,
    vector_count: int,
    top_k: int,
    matching_count: Option<usize>,
) -> int {
    let plain = plain_probes(nlist, vector_count, top_k);
    match matching_count {
        None => plain,
        Some(count) => if count == 0 {
            1
        } else {
            read_options::larger(
                read_options::smaller(div_up(plain * vector_count, count as int), nlist),
                1,
            )
        },
    }
}

pub proof fn lemma_div_up(a: int, b: int)
    requires
        a >= 0,
        b >= 1,
    ensures
        div_up(a, b) >= 0,
        a >= 1 ==> div_up(a, b) >= 1,
        div_up(a, b) <= a,
        b * div_up(a, b) >= a,
        div_up(a, b) == a / b + (if a % b == 0 {
            0int
        } else {
            1int
        }),
{
    let q = (a + b - 1) / b;
    let r = (a + b - 1) % b;
    vstd::arithmetic::div_mod::lemma_fundamental_div_mod(a + b - 1, b);
    vstd::arithmetic::div_mod::lemma_fundamental_div_mod(a, b);
    assert(q >= 0) by (nonlinear_arith)
        requires
            b >= 1,
            a + b - 1 >= 0,
            a + b - 1 == b * q + r,
            0 <= r < b,
    ;
    assert(b * q >= a);
    assert(a >= 1 ==> q >= 1) by (nonlinear_arith)
        requires
            b * q >= a,
            b >= 1,
    ;
    assert(q <= a) by (nonlinear_arith)
        requires
            b >= 1,
            a >= 0,
            a + b - 1 == b * q + r,
            0 <= r,
    ;
    let p = a / b;
    let s = a % b;
    if s == 0 {
        assert(q == p) by (nonlinear_arith)
            requires
                b >= 1,
                a == b * p,
                a + b - 1 == b * q + r,
                0 <= r < b,
        ;
    } else {
        assert(q == p + 1) by (nonlinear_arith)
            requires
                b >= 1,
                a == b * p + s,
                0 < s < b,
                a + b - 1 == b * q + r,
                0 <= r < b,
        ;
    }
}

fn divide_up(a: usize, b: usize) -> (r: usize)
    requires
        b >= 1,
    ensures
        r == div_up(a as int, b as int),
{
    proof {
        lemma_div_up(a as int, b as int);
    }
    let q: usize = a / b;
    if a % b == 0 {
        q
    } else {
        q + 1
    }
}

/// Works out how many lists a search should look into.
pub fn infer_ivf_nprobe(
    nlist: usize,
    vector_count: usize,
    top_k: usize,
    matching_count: Option<usize>,
) -> (r: Result<usize, IndexError>)
    ensures
        r == (if nlist == 0 {
            Err(IndexError::NlistZero)
        } else if vector_count == 0 {
            Err(IndexError::VectorCountZero)
        } else if top_k == 0 {
            Err(IndexError::TopKZero)
        } else if 4 * top_k > usize::MAX {
            Err(IndexError::CandidateCountOverflow)
        } else {
            Ok(
                probes_for(
                    nlist as int,
                    vector_count as int,
                    top_k as int,
                    matching_count,
                ) as usize,
            )
        }),
{
    if nlist == 0 {
        return Err(IndexError::NlistZero);
    }
    if vector_count == 0 {
        return Err(IndexError::VectorCountZero);
    }
    if top_k == 0 {
        return Err(IndexError::TopKZero);
    }
    let candidate_rows: usize = match top_k.checked_mul(DEFAULT_IVF_CANDIDATES_PER_RESULT) {
        Some(rows) => rows,
        None => {
            return Err(IndexError::CandidateCountOverflow);
        },
    };
    proof {
        lemma_div_up(vector_count as int, nlist as int);
    }
    let average: usize = divide_up(vector_count, nlist);
    let by_rows: usize = divide_up(candidate_rows, average);
    let by_fraction: usize = divide_up(nlist, DEFAULT_IVF_LIST_FRACTION);
    let mut nprobe: usize = DEFAULT_IVF_MIN_NPROBE;
    if by_fraction > nprobe {
        nprobe = by_fraction;
    }
    if by_rows > nprobe {
        nprobe = by_rows;
    }
    if nprobe > nlist {
        nprobe = nlist;
    }
    assert(nprobe == plain_probes(nlist as int, vector_count as int, top_k as int));
    match matching_count {
        None => Ok(nprobe),
        Some(count) => {
            if count == 0 {
                return Ok(1);
            }
            assert(nprobe * vector_count <= u64::MAX * u64::MAX) by (nonlinear_arith)
                requires
                    nprobe <= u64::MAX,
                    vector_count <= u64::MAX,
            ;
            let product: u128 = nprobe as u128 * vector_count as u128;
            proof {
                lemma_div_up(product as int, count as int);
            }
            let quotient: u128 = product / count as u128;
            let widened: u128 = if product % count as u128 == 0 {
                quotient
            } else {
                quotient + 1
            };
            assert(widened == div_up(product as int, count as int));
            if widened >= nlist as u128 {
                Ok(nlist)
            } else if widened == 0 {
                Ok(1)
            } else {
                Ok(widened as usize)
            }
        },
    }
}

/// The lists that are looked into are at least one and no more than there are. Without a filter
/// they are at least a sixteenth of all, and, unless they are all, an average list times their
/// number holds four rows for each result. A filter that some rows pass never makes them fewer.
pub proof fn probes_scale(nlist: int, vector_count: int, top_k: int, matching_count: usize)
    requires
        nlist >= 1,
        vector_count >= 1,
        top_k >= 1,
    ensures
        1 <= probes_for(nlist, vector_count, top_k, None) <= nlist,
        1 <= probes_for(nlist, vector_count, top_k, Some(matching_count)) <= nlist,
        16 * probes_for(nlist, vector_count, top_k, None) >= nlist,
        probes_for(nlist, vector_count, top_k, None) == nlist || div_up(vector_count, nlist)
            * probes_for(nlist, vector_count, top_k, None) >= 4 * top_k,
        1 <= matching_count <= vector_count ==> probes_for(
            nlist,
            vector_count,
            top_k,
            Some(matching_count),
        ) >= probes_for(nlist, vector_count, top_k, None),
{
    let plain = plain_probes(nlist, vector_count, top_k);
    let average = div_up(vector_count, nlist);
    lemma_div_up(vector_count, nlist);
    lemma_div_up(nlist, 16);
    lemma_div_up(4 * top_k, average);
    let by_rows = div_up(4 * top_k, average);
    if plain < nlist {
        assert(average * plain >= average * by_rows) by (nonlinear_arith)
            requires
                plain >= by_rows,
                average >= 1,
        ;
    }
    if matching_count >= 1 {
        assert(plain * vector_count >= 1) by (nonlinear_arith)
            requires
                plain >= 1,
                vector_count >= 1,
        ;
        lemma_div_up(plain * vector_count, matching_count as int);
        let widened = div_up(plain * vector_count, matching_count as int);
        if matching_count <= vector_count {
            assert(widened >= plain) by (nonlinear_arith)
                requires
                    matching_count * widened >= plain * vector_count,
                    matching_count <= vector_count,
                    matching_count >= 1,
                    plain >= 1,
            ;
        }
    }
}

/// The width of a graph search for this many results: twice as many, and at least a hundred.
pub fn infer_diskann_l_search(top_k: usize) -> (r: Result<usize, IndexError>)
    ensures
        r == (if top_k == 0 {
            Err(IndexError::TopKZero)
        } else {
            Ok(
                read_options::larger(
                    read_options::smaller(2 * top_k, usize::MAX as int),
                    100,
                ) as usize,
            )
        }),
{
    if top_k == 0 {
        return Err(IndexError::TopKZero);
    }
    let doubled: usize = if top_k > usize::MAX / 2 {
        usize::MAX
    } else {
        top_k * 2
    };
    Ok(
        if doubled >= 100 {
            doubled
        } else {
            100
        },
    )
}

/// The dimension, rounded up to whole words of sixty-four bits.
pub open spec fn padded(dimension: int) -> int {
    div_up(dimension, 64) * 64
}

/// The bytes of a row: its codes and its factors, of which there are more where codes have more
/// than one bit.
pub open spec fn rq_row_bytes(dimension: int, bits: int) -> int {
    padded(dimension) * bits / 8 + (if bits == 1 {
        8int
    } else {
        20int
    })
}

/// The most bits, of at most eight and at most `bits`, with which a row fits.
pub open spec fn most_bits(dimension: int, max_bytes: int, bits: int) -> Option<int>
    decreases bits,
{
    if bits <= 0 {
        None
    } else if rq_row_bytes(dimension, bits) <= max_bytes {
        Some(bits)
    } else {
        most_bits(dimension, max_bytes, bits - 1)
    }
}

/// The row with the most bits cannot be counted in bytes.
pub open spec fn rq_row_overflows(dimension: int) -> bool {
    padded(dimension) * 8 > usize::MAX || padded(dimension) + 20 > usize::MAX
}

/// The most bits of which the codes of a row can be, so that it fits into a number of bytes.
pub fn infer_rq_bits(dimension: usize, max_bytes_per_vector: usize) -> (r: Result<
    usize,
    IndexError,
>)
    ensures
        r == (if dimension == 0 {
            Err(IndexError::DimensionZero)
        } else if rq_row_overflows(dimension as int) {
            Err(IndexError::RowBytesOverflow)
        } else {
            match most_bits(dimension as int, max_bytes_per_vector as int, 8) {
                Some(bits) => Ok(bits as usize),
                None => Err(IndexError::RowBudget { max_bytes: max_bytes_per_vector }),
            }
        }),
{
    if dimension == 0 {
        return Err(IndexError::DimensionZero);
    }
    proof {
        lemma_div_up(dimension as int, 64);
    }
    let words: usize = divide_up(dimension, 64);
    let padded_dimension: usize = match words.checked_mul(64) {
        Some(value) => value,
        None => {
            return Err(IndexError::RowBytesOverflow);
        },
    };
    let whole: usize = match padded_dimension.checked_mul(8) {
        Some(value) => value,
        None => {
            return Err(IndexError::RowBytesOverflow);
        },
    };
    if whole / 8 > usize::MAX - 20 {
        return Err(IndexError::RowBytesOverflow);
    }
    let mut bits: usize = 8;
    while bits > 0
        invariant
            bits <= 8,
            padded_dimension == padded(dimension as int),
            padded_dimension * 8 <= usize::MAX,
            padded_dimension + 20 <= usize::MAX,
            !rq_row_overflows(dimension as int),
            dimension > 0,
            most_bits(dimension as int, max_bytes_per_vector as int, 8) == most_bits(
                dimension as int,
                max_bytes_per_vector as int,
                bits as int,
            ),
        decreases bits,
    {
        assert(padded_dimension * bits <= padded_dimension * 8) by (nonlinear_arith)
            requires
                bits <= 8,
        ;
        let factor_bytes: usize = if bits == 1 {
            8
        } else {
            20
        };
        let row: usize = padded_dimension * bits / 8 + factor_bytes;
        if row <= max_bytes_per_vector {
            return Ok(bits);
        }
        bits = bits - 1;
    }
    Err(IndexError::RowBudget { max_bytes: max_bytes_per_vector })
}

/// The bits that are chosen are the most with which a row fits: more of them do not, and where none
/// is chosen, no row of one to eight bits fits.
pub proof fn chosen_bits_are_the_most(dimension: int, max_bytes: int, bits: int)
    requires
        1 <= bits <= 8,
    ensures
        most_bits(dimension, max_bytes, 8) matches Some(chosen) ==> 1 <= chosen <= 8
            && rq_row_bytes(dimension, chosen) <= max_bytes && (bits > chosen ==> rq_row_bytes(
            dimension,
            bits,
        ) > max_bytes),
        most_bits(dimension, max_bytes, 8) is None ==> rq_row_bytes(dimension, bits) > max_bytes,
{
    lemma_most_bits(dimension, max_bytes, 8, bits);
}

proof fn lemma_most_bits(dimension: int, max_bytes: int, from: int, bits: int)
    requires
        0 <= from <= 8,
        1 <= bits <= from || from == 0 || bits > from,
    ensures
        most_bits(dimension, max_bytes, from) matches Some(chosen) ==> 1 <= chosen <= from
            && rq_row_bytes(dimension, chosen) <= max_bytes && (chosen < bits <= from
            ==> rq_row_bytes(dimension, bits) > max_bytes),
        most_bits(dimension, max_bytes, from) is None && 1 <= bits <= from ==> rq_row_bytes(
            dimension,
            bits,
        ) > max_bytes,
    decreases from,
{
    if from > 0 {
        lemma_most_bits(dimension, max_bytes, from - 1, bits);
    }
}

#[derive(Debug, Clone, Copy, PartialEq, Eq, Structural)]
pub enum DiskAnnBuildPreset {
    FastBuild,
    Balanced,
    HighRecall,
}

/// How the rows and the edges of a graph lie in its file.
#[derive(Debug, Clone, Copy, PartialEq, Eq, Structural)]
pub enum DiskAnnStorageLayout {
    Compact,
    Interleaved,
}

/// How the values of the vectors are stored.
#[derive(Debug, Clone, Copy, PartialEq, Eq, Structural)]
pub enum DiskAnnRawVectorEncoding {
    F32,
    F16,
}

impl DiskAnnRawVectorEncoding {
    pub open spec fn spec_element_size(self) -> usize {
        match self {
            DiskAnnRawVectorEncoding::F32 => 4,
            DiskAnnRawVectorEncoding::F16 => 2,
        }
    }

    /// The bytes of one value.
    pub fn element_size(self) -> (r: usize)
        ensures
            r == self.spec_element_size(),
    {
        match self {
            DiskAnnRawVectorEncoding::F32 => 4,
            DiskAnnRawVectorEncoding::F16 => 2,
        }
    }
}

/// The distances by which a graph is built.
#[derive(Debug, Clone, Copy, PartialEq, Eq, Structural)]
pub enum DiskAnnBuildDistance {
    FullPrecision,
    ProductQuantized,
}

/// How a graph is built. `alpha` is a bit pattern of single precision.
#[derive(Debug, Clone, Copy, PartialEq, Eq, Structural)]
pub struct DiskAnnBuildParams {
    pub max_degree: usize,
    pub build_search_list_size: usize,
    pub alpha: u32,
    pub seed: u64,
    pub memory_budget_bytes: usize,
    pub storage_layout: DiskAnnStorageLayout,
    pub raw_vector_encoding: DiskAnnRawVectorEncoding,
    pub build_distance: DiskAnnBuildDistance,
}

/// The pattern of 1.15.
pub const ALPHA_FAST: u32 = 0x3f93_3333;

/// The pattern of 1.2.
pub const ALPHA_WIDE: u32 = 0x3f99_999a;

/// The settings that a preset fixes, in the order in which a graph is described: degree, width of
/// the search, alpha, values and distances.
pub open spec fn preset_values(preset: DiskAnnBuildPreset) -> (
    usize,
    usize,
    u32,
    DiskAnnRawVectorEncoding,
    DiskAnnBuildDistance,
) {
    match preset {
        DiskAnnBuildPreset::FastBuild => (
            48,
            64,
            ALPHA_FAST,
            DiskAnnRawVectorEncoding::F16,
            DiskAnnBuildDistance::ProductQuantized,
        ),
        DiskAnnBuildPreset::Balanced => (
            64,
            100,
            ALPHA_WIDE,
            DiskAnnRawVectorEncoding::F16,
            DiskAnnBuildDistance::ProductQuantized,
        ),
        DiskAnnBuildPreset::HighRecall => (
            96,
            200,
            ALPHA_WIDE,
            DiskAnnRawVectorEncoding::F32,
            DiskAnnBuildDistance::FullPrecision,
        ),
    }
}

/// The bytes of a row with its edges.
pub open spec fn record_bytes(preset: DiskAnnBuildPreset, dimension: int) -> int {
    dimension * preset_values(preset).3.spec_element_size() + preset_values(preset).0 * 4
}

/// Rows lie with their edges where the storage is near and such a record fits into a page.
pub open spec fn layout_for(profile: StorageProfile, record: int) -> DiskAnnStorageLayout {
    if (profile == StorageProfile::Memory || profile == StorageProfile::LocalStorage) && record
        <= 4096 {
        DiskAnnStorageLayout::Interleaved
    } else {
        DiskAnnStorageLayout::Compact
    }
}

pub fn diskann_build_preset(
    preset: DiskAnnBuildPreset,
    dimension: usize,
    storage_profile: StorageProfile,
    memory_budget_bytes: usize,
    seed: u64,
) -> (r: Result<DiskAnnBuildParams, IndexError>)
    ensures
        r == (if dimension == 0 {
            Err(IndexError::DimensionZero)
        } else if memory_budget_bytes == 0 {
            Err(IndexError::MemoryBudgetZero)
        } else if record_bytes(preset, dimension as int) > usize::MAX {
            Err(IndexError::RowBytesOverflow)
        } else {
            Ok(
                DiskAnnBuildParams {
                    max_degree: preset_values(preset).0,
                    build_search_list_size: preset_values(preset).1,
                    alpha: preset_values(preset).2,
                    seed,
                    memory_budget_bytes,
                    storage_layout: layout_for(
                        storage_profile,
                        record_bytes(preset, dimension as int),
                    ),
                    raw_vector_encoding: preset_values(preset).3,
                    build_distance: preset_values(preset).4,
                },
            )
        }),
{
    if dimension == 0 {
        return Err(IndexError::DimensionZero);
    }
    if memory_budget_bytes == 0 {
        return Err(IndexError::MemoryBudgetZero);
    }
    let (max_degree, build_search_list_size, alpha, raw_vector_encoding, build_distance): (
        usize,
        usize,
        u32,
        DiskAnnRawVectorEncoding,
        DiskAnnBuildDistance,
    ) = match preset {
        DiskAnnBuildPreset::FastBuild => (
            48,
            64,
            ALPHA_FAST,
            DiskAnnRawVectorEncoding::F16,
            DiskAnnBuildDistance::ProductQuantized,
        ),
        DiskAnnBuildPreset::Balanced => (
            64,
            100,
            ALPHA_WIDE,
            DiskAnnRawVectorEncoding::F16,
            DiskAnnBuildDistance::ProductQuantized,
        ),
        DiskAnnBuildPreset::HighRecall => (
            96,
            200,
            ALPHA_WIDE,
            DiskAnnRawVectorEncoding::F32,
            DiskAnnBuildDistance::FullPrecision,
        ),
    };
    let record: usize = match dimension.checked_mul(raw_vector_encoding.element_size()) {
        Some(values) => match values.checked_add(max_degree * 4) {
            Some(bytes) => bytes,
            None => {
                return Err(IndexError::RowBytesOverflow);
            },
        },
        None => {
            return Err(IndexError::RowBytesOverflow);
        },
    };
    let storage_layout = match storage_profile {
        StorageProfile::Memory | StorageProfile::LocalStorage => if record <= 4096 {
            DiskAnnStorageLayout::Interleaved
        } else {
            DiskAnnStorageLayout::Compact
        },
        StorageProfile::Auto | StorageProfile::RemoteStorage | StorageProfile::ObjectStore =>
            DiskAnnStorageLayout::Compact,
    };
    Ok(
        DiskAnnBuildParams {
            max_degree,
            build_search_list_size,
            alpha,
            seed,
            memory_budget_bytes,
            storage_layout,
            raw_vector_encoding,
            build_distance,
        },
    )
}

/// An index that suits, and why.
#[derive(Debug, Clone, Copy, PartialEq, Eq)]
pub struct IndexRecommendation {
    pub index_type: IndexType,
    pub reason: &'static str,
}

/// The pattern of 0.95.
pub const HIGH_RECALL: u32 = 0x3f73_3333;

/// The recall that is aimed at is at least 0.95.
pub open spec fn wants_high_recall(target_recall: Option<u32>) -> bool {
    match target_recall {
        Some(target) => !float_bits::is_nan(target) && float_bits::value_key(target)
            >= float_bits::value_key(HIGH_RECALL),
        None => false,
    }
}

/// The kind of index that suits.
pub open spec fn recommended_type(vector_count: usize, objective: TuningObjective) -> IndexType {
    if vector_count <= 100_000 {
        IndexType::IvfFlat
    } else if objective.max_bytes_per_vector matches Some(bytes) && bytes <= 32 {
        IndexType::IvfPq
    } else if read_options::is_remote(objective.storage_profile) {
        IndexType::IvfRq
    } else if wants_high_recall(objective.target_recall) {
        IndexType::DiskAnn
    } else {
        IndexType::IvfSq
    }
}

/// Why a kind of index suits.
pub open spec fn reason_for(index_type: IndexType) -> Seq<char> {
    match index_type {
        IndexType::IvfFlat => "small corpus favors exact values and simple construction"@,
        IndexType::IvfPq => "strict row-size budget favors product quantization"@,
        IndexType::IvfRq => "remote storage favors a compact one-round IVF scan"@,
        IndexType::DiskAnn => "high recall on memory or local storage favors graph traversal"@,
        _ => "balanced default favors one-byte scalar codes and one-round reads"@,
    }
}

/// Recommends a kind of index. It is for the caller to take it or not.
pub fn recommend_index(vector_count: usize, dimension: usize, objective: TuningObjective) -> (r:
    Result<IndexRecommendation, IndexError>)
    ensures
        vector_count == 0 ==> r == Err::<IndexRecommendation, IndexError>(
            IndexError::VectorCountZero,
        ),
        vector_count > 0 && dimension == 0 ==> r == Err::<IndexRecommendation, IndexError>(
            IndexError::DimensionZero,
        ),
        vector_count > 0 && dimension > 0 ==> (r matches Ok(found) && found.index_type
            == recommended_type(vector_count, objective) && found.reason@ == reason_for(
            found.index_type,
        )),
{
    if vector_count == 0 {
        return Err(IndexError::VectorCountZero);
    }
    if dimension == 0 {
        return Err(IndexError::DimensionZero);
    }
    if vector_count <= 100_000 {
        return Ok(
            IndexRecommendation {
                index_type: IndexType::IvfFlat,
                reason: "small corpus favors exact values and simple construction",
            },
        );
    }
    let strict: bool = match objective.max_bytes_per_vector {
        Some(bytes) => bytes <= 32,
        None => false,
    };
    if strict {
        return Ok(
            IndexRecommendation {
                index_type: IndexType::IvfPq,
                reason: "strict row-size budget favors product quantization",
            },
        );
    }
    let remote: bool = match objective.storage_profile {
        StorageProfile::RemoteStorage | StorageProfile::ObjectStore => true,
        _ => false,
    };
    if remote {
        return Ok(
            IndexRecommendation {
                index_type: IndexType::IvfRq,
                reason: "remote storage favors a compact one-round IVF scan",
            },
        );
    }
    let high_recall: bool = match objective.target_recall {
        Some(target) => !float_bits::check_nan(target) && !float_bits::less_than(
            target,
            HIGH_RECALL,
        ),
        None => false,
    };
    if high_recall {
        return Ok(
            IndexRecommendation {
                index_type: IndexType::DiskAnn,
                reason: "high recall on memory or local storage favors graph traversal",
            },
        );
    }
    Ok(
        IndexRecommendation {
            index_type: IndexType::IvfSq,
            reason: "balanced default favors one-byte scalar codes and one-round reads",
        },
    )
}

} // verus!
