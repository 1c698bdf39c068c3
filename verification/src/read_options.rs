//! How a reader plans its reads and shares out its memory.
use vstd::prelude::*;

verus! {

/// What the index files lie on.
#[derive(Debug, Clone, Copy, PartialEq, Eq, Structural)]
pub enum StorageProfile {
    Auto,
    Memory,
    LocalStorage,
    RemoteStorage,
    ObjectStore,
}

impl Default for StorageProfile {
    fn default() -> (r: Self)
        ensures
            r == StorageProfile::Auto,
    {
        StorageProfile::Auto
    }
}

/// How much is read at once.
#[derive(Debug, Clone, Copy, PartialEq, Eq, Structural)]
pub struct ReadPlan {
    pub window_bytes: usize,
    pub graph_beam_width: usize,
    pub filtered_graph_beam_width: usize,
}

/// What the storage says of itself. A zero says nothing.
#[derive(Debug, Clone, Copy, PartialEq, Eq, Structural)]
pub struct SeekReadCapabilities {
    pub preferred_alignment_bytes: usize,
    pub preferred_window_bytes: usize,
    pub max_ranges_per_pread: usize,
}

/// The length of a page of a graph file.
pub const PAGE_BYTES: usize = 4096;

/// The longest window that is read at once.
pub const MAX_WINDOW_BYTES: usize = 1_048_576;

impl StorageProfile {
    pub open spec fn spec_code(self) -> u32 {
        match self {
            StorageProfile::Auto => 0,
            StorageProfile::Memory => 1,
            StorageProfile::LocalStorage => 2,
            StorageProfile::RemoteStorage => 3,
            StorageProfile::ObjectStore => 4,
        }
    }

    /// The number by which the profile is known outside.
    pub fn code(self) -> (r: u32)
        ensures
            r == self.spec_code(),
    {
        match self {
            StorageProfile::Auto => 0,
            StorageProfile::Memory => 1,
            StorageProfile::LocalStorage => 2,
            StorageProfile::RemoteStorage => 3,
            StorageProfile::ObjectStore => 4,
        }
    }

    pub open spec fn spec_read_plan(self) -> ReadPlan {
        match self {
            StorageProfile::Memory => ReadPlan {
                window_bytes: 4096,
                graph_beam_width: 16,
                filtered_graph_beam_width: 4,
            },
            StorageProfile::RemoteStorage => ReadPlan {
                window_bytes: 32768,
                graph_beam_width: 16,
                filtered_graph_beam_width: 4,
            },
            StorageProfile::ObjectStore => ReadPlan {
                window_bytes: 65536,
                graph_beam_width: 16,
                filtered_graph_beam_width: 4,
            },
            _ => ReadPlan {
                window_bytes: 16384,
                graph_beam_width: 4,
                filtered_graph_beam_width: 4,
            },
        }
    }

    /// What a reader does that knows nothing but the profile.
    pub fn read_plan(self) -> (r: ReadPlan)
        ensures
            r == self.spec_read_plan(),
    {
        match self {
            StorageProfile::Auto | StorageProfile::LocalStorage => ReadPlan {
                window_bytes: 16384,
                graph_beam_width: 4,
                filtered_graph_beam_width: 4,
            },
            StorageProfile::Memory => ReadPlan {
                window_bytes: 4096,
                graph_beam_width: 16,
                filtered_graph_beam_width: 4,
            },
            StorageProfile::RemoteStorage => ReadPlan {
                window_bytes: 32768,
                graph_beam_width: 16,
                filtered_graph_beam_width: 4,
            },
            StorageProfile::ObjectStore => ReadPlan {
                window_bytes: 65536,
                graph_beam_width: 16,
                filtered_graph_beam_width: 4,
            },
        }
    }
}

/// Storage that is reached over a network.
pub open spec fn is_remote(profile: StorageProfile) -> bool {
    profile == StorageProfile::RemoteStorage || profile == StorageProfile::ObjectStore
}

pub open spec fn smaller(a: int, b: int) -> int {
    if a <= b {
        a
    } else {
        b
    }
}

pub open spec fn larger(a: int, b: int) -> int {
    if a >= b {
        a
    } else {
        b
    }
}

/// The least number of whole pages, in bytes, that is at least this long.
pub open spec fn whole_pages(bytes: int) -> int {
    (bytes + PAGE_BYTES - 1) / (PAGE_BYTES as int) * PAGE_BYTES
}

/// The window that the storage asks for: its own, where it has one, and never shorter than its
/// alignment.
pub open spec fn wished_window(plan: ReadPlan, capabilities: SeekReadCapabilities) -> int {
    let own = if capabilities.preferred_window_bytes > 0 {
        larger(capabilities.preferred_window_bytes as int, 1)
    } else {
        plan.window_bytes as int
    };
    larger(own, capabilities.preferred_alignment_bytes as int)
}

/// The beam, as wide as the storage takes ranges in one read.
pub open spec fn capped_beam(width: usize, capabilities: SeekReadCapabilities) -> int {
    if capabilities.max_ranges_per_pread > 0 {
        larger(smaller(width as int, capabilities.max_ranges_per_pread as int), 1)
    } else {
        width as int
    }
}


fn min_of(a: usize, b: usize) -> (r: usize)
    ensures
        r == smaller(a as int, b as int),
{
    if a <= b {
        a
    } else {
        b
    }
}

fn max_of(a: usize, b: usize) -> (r: usize)
    ensures
        r == larger(a as int, b as int),
{
    if a >= b {
        a
    } else {
        b
    }
}

fn minus(a: usize, b: usize) -> (r: usize)
    ensures
        r == larger(a - b, 0),
{
    if a >= b {
        a - b
    } else {
        0
    }
}

impl ReadPlan {
    /// The plan for storage with these capabilities: whole pages, at least one of them, and no
    /// window longer than the longest.
    pub open spec fn spec_with_capabilities(self, capabilities: SeekReadCapabilities) -> ReadPlan {
        ReadPlan {
            window_bytes: smaller(
                whole_pages(larger(wished_window(self, capabilities), PAGE_BYTES as int)),
                MAX_WINDOW_BYTES as int,
            ) as usize,
            graph_beam_width: capped_beam(self.graph_beam_width, capabilities) as usize,
            filtered_graph_beam_width: capped_beam(
                self.filtered_graph_beam_width,
                capabilities,
            ) as usize,
        }
    }

    pub fn with_capabilities(self, capabilities: SeekReadCapabilities) -> (r: ReadPlan)
        ensures
            r == self.spec_with_capabilities(capabilities),
    {
        let alignment: usize = capabilities.preferred_alignment_bytes;
        let mut window: usize = self.window_bytes;
        if alignment > 0 {
            window = max_of(window, alignment);
        }
        if capabilities.preferred_window_bytes > 0 {
            window = max_of(capabilities.preferred_window_bytes, max_of(alignment, 1));
        }
        let ghost wished = window as int;
        window = min_of(max_of(window, PAGE_BYTES), MAX_WINDOW_BYTES);
        window = (window + (PAGE_BYTES - 1)) / PAGE_BYTES * PAGE_BYTES;
        window = min_of(window, MAX_WINDOW_BYTES);
        let mut beam: usize = self.graph_beam_width;
        let mut filtered: usize = self.filtered_graph_beam_width;
        if capabilities.max_ranges_per_pread > 0 {
            beam = max_of(min_of(beam, capabilities.max_ranges_per_pread), 1);
            filtered = max_of(min_of(filtered, capabilities.max_ranges_per_pread), 1);
        }
        assert(wished == wished_window(self, capabilities));
        ReadPlan {
            window_bytes: window,
            graph_beam_width: beam,
            filtered_graph_beam_width: filtered,
        }
    }

    /// Whatever the storage says of itself, a window is one or more whole pages and never longer
    /// than the longest, and a beam that the storage limits has at least one range.
    pub proof fn windows_hold_whole_pages(self, capabilities: SeekReadCapabilities)
        ensures
            ({
                let plan = self.spec_with_capabilities(capabilities);
                &&& PAGE_BYTES <= plan.window_bytes <= MAX_WINDOW_BYTES
                &&& plan.window_bytes as int % PAGE_BYTES as int == 0
                &&& capabilities.max_ranges_per_pread > 0 ==> 1 <= plan.graph_beam_width
                    <= capabilities.max_ranges_per_pread
                &&& capabilities.max_ranges_per_pread > 0 ==> 1 <= plan.filtered_graph_beam_width
                    <= capabilities.max_ranges_per_pread
            }),
    {
    }
}

/// How the memory of a reader is shared out.
#[derive(Debug, Clone, Copy, PartialEq, Eq, Structural)]
pub struct ResolvedVectorIndexReaderOptions {
    pub storage_profile: StorageProfile,
    pub adjacency_preload_bytes: usize,
    pub adjacency_cache_bytes: usize,
    pub max_resident_bytes: usize,
    pub raw_vector_cache_bytes: usize,
}

#[derive(Debug, Clone, Copy, PartialEq, Eq, Structural)]
pub struct VectorIndexReaderOptions {
    pub storage_profile: StorageProfile,
    pub memory_budget_bytes: usize,
    pub cache_overrides: Option<ResolvedVectorIndexReaderOptions>,
}

/// Four gibibytes, or all that can be addressed where that is less.
pub open spec fn default_budget() -> int {
    smaller(0x1_0000_0000, usize::MAX as int)
}

impl Default for VectorIndexReaderOptions {
    fn default() -> (r: Self)
        ensures
            r.storage_profile == StorageProfile::Auto,
            r.memory_budget_bytes == default_budget(),
            r.cache_overrides is None,
    {
        let budget: usize = if usize::MAX as u64 >= 0x1_0000_0000 {
            0x1_0000_0000u64 as usize
        } else {
            usize::MAX
        };
        VectorIndexReaderOptions {
            storage_profile: StorageProfile::Auto,
            memory_budget_bytes: budget,
            cache_overrides: None,
        }
    }
}

/// The most that is read of a graph before the first search.
pub open spec fn preload_cap(profile: StorageProfile) -> int {
    match profile {
        StorageProfile::RemoteStorage => 33_554_432,
        StorageProfile::ObjectStore => 67_108_864,
        _ => 16_777_216,
    }
}

/// The most that one cache may hold.
pub open spec fn cache_cap(profile: StorageProfile) -> int {
    if is_remote(profile) {
        usize::MAX as int
    } else {
        67_108_864
    }
}

/// The share of the memory that is preloaded: at most half of what is free, at most the cap, and no
/// more than there is to preload.
pub open spec fn preload_share(profile: StorageProfile, available: int, section: int) -> int {
    smaller(smaller(available / 2, preload_cap(profile)), section)
}

/// The most that a cache can use: its cap, or all that it could hold.
pub open spec fn cache_demand(profile: StorageProfile, section: int) -> int {
    smaller(cache_cap(profile), section)
}

/// The two caches, adjacency first: each gets what it can use of half of the memory, and what one
/// leaves over the other may have.
pub open spec fn cache_shares(memory: int, adjacency: int, vectors: int) -> (int, int) {
    let first = smaller(memory / 2, adjacency);
    let second = smaller(memory - first, vectors);
    let more = smaller(memory - first - second, adjacency - first);
    (first + more, second)
}

/// Shares memory out among two caches with the same cap.
fn share_caches(memory: usize, cap: usize, adjacency: usize, vectors: usize) -> (r: (usize, usize))
    ensures
        (r.0 as int, r.1 as int) == cache_shares(
            memory as int,
            smaller(cap as int, adjacency as int),
            smaller(cap as int, vectors as int),
        ),
{
    let mut adjacency_cache: usize = min_of(min_of(memory / 2, cap), adjacency);
    let mut vector_cache: usize = min_of(min_of(memory - adjacency_cache, cap), vectors);
    let mut unassigned: usize = memory - adjacency_cache - vector_cache;
    let adjacency_extra: usize = min_of(
        min_of(unassigned, cap - adjacency_cache),
        adjacency - adjacency_cache,
    );
    adjacency_cache = adjacency_cache + adjacency_extra;
    unassigned = unassigned - adjacency_extra;
    let vector_extra: usize = min_of(
        min_of(unassigned, cap - vector_cache),
        vectors - vector_cache,
    );
    vector_cache = vector_cache + vector_extra;
    (adjacency_cache, vector_cache)
}

impl VectorIndexReaderOptions {
    pub fn new(storage_profile: StorageProfile, memory_budget_bytes: usize) -> (r: Self)
        ensures
            r.storage_profile == storage_profile,
            r.memory_budget_bytes == memory_budget_bytes,
            r.cache_overrides is None,
    {
        VectorIndexReaderOptions { storage_profile, memory_budget_bytes, cache_overrides: None }
    }

    /// How the memory is shared out among what is resident anyway, the preloaded part of the graph
    /// and the two caches.
    pub open spec fn resolved(self, resident: int, adjacency: int, vectors: int) ->
        ResolvedVectorIndexReaderOptions {
        match self.cache_overrides {
            Some(overrides) => ResolvedVectorIndexReaderOptions {
                storage_profile: self.storage_profile,
                ..overrides
            },
            None => {
                let available = larger(self.memory_budget_bytes - resident, 0);
                let preload = preload_share(self.storage_profile, available, adjacency);
                let shares = cache_shares(
                    available - preload,
                    cache_demand(self.storage_profile, adjacency - preload),
                    cache_demand(self.storage_profile, vectors),
                );
                ResolvedVectorIndexReaderOptions {
                    storage_profile: self.storage_profile,
                    adjacency_preload_bytes: preload as usize,
                    adjacency_cache_bytes: shares.0 as usize,
                    max_resident_bytes: self.memory_budget_bytes,
                    raw_vector_cache_bytes: shares.1 as usize,
                }
            },
        }
    }

    pub fn resolve_cache_budgets(
        self,
        resident_steady_bytes: usize,
        adjacency_section_bytes: usize,
        raw_vector_section_bytes: usize,
    ) -> (r: ResolvedVectorIndexReaderOptions)
        ensures
            r == self.resolved(
                resident_steady_bytes as int,
                adjacency_section_bytes as int,
                raw_vector_section_bytes as int,
            ),
    {
        match self.cache_overrides {
            Some(overrides) => {
                let mut resolved = overrides;
                resolved.storage_profile = self.storage_profile;
                return resolved;
            },
            None => {},
        }
        let available: usize = minus(self.memory_budget_bytes, resident_steady_bytes);
        let preload_limit: usize = match self.storage_profile {
            StorageProfile::Auto | StorageProfile::Memory | StorageProfile::LocalStorage =>
                16_777_216,
            StorageProfile::RemoteStorage => 33_554_432,
            StorageProfile::ObjectStore => 67_108_864,
        };
        let preload: usize = min_of(
            min_of(available / 2, preload_limit),
            adjacency_section_bytes,
        );
        let after_preload: usize = available - preload;
        let cap: usize = match self.storage_profile {
            StorageProfile::RemoteStorage | StorageProfile::ObjectStore => usize::MAX,
            StorageProfile::Auto | StorageProfile::Memory | StorageProfile::LocalStorage =>
                67_108_864,
        };
        let cold: usize = adjacency_section_bytes - preload;
        let (adjacency_cache, vector_cache) = share_caches(
            after_preload,
            cap,
            cold,
            raw_vector_section_bytes,
        );
        ResolvedVectorIndexReaderOptions {
            storage_profile: self.storage_profile,
            adjacency_preload_bytes: preload,
            adjacency_cache_bytes: adjacency_cache,
            max_resident_bytes: self.memory_budget_bytes,
            raw_vector_cache_bytes: vector_cache,
        }
    }

    pub fn uses_automatic_cache_budgets(self) -> (r: bool)
        ensures
            r == (self.cache_overrides is None),
    {
        self.cache_overrides.is_none()
    }

    pub fn with_cache_budgets(
        storage_profile: StorageProfile,
        adjacency_preload_bytes: usize,
        adjacency_cache_bytes: usize,
        max_resident_bytes: usize,
        raw_vector_cache_bytes: usize,
    ) -> (r: Self)
        ensures
            r == (VectorIndexReaderOptions {
                storage_profile,
                memory_budget_bytes: max_resident_bytes,
                cache_overrides: Some(
                    ResolvedVectorIndexReaderOptions {
                        storage_profile,
                        adjacency_preload_bytes,
                        adjacency_cache_bytes,
                        max_resident_bytes,
                        raw_vector_cache_bytes,
                    },
                ),
            }),
    {
        VectorIndexReaderOptions {
            storage_profile,
            memory_budget_bytes: max_resident_bytes,
            cache_overrides: Some(
                ResolvedVectorIndexReaderOptions {
                    storage_profile,
                    adjacency_preload_bytes,
                    adjacency_cache_bytes,
                    max_resident_bytes,
                    raw_vector_cache_bytes,
                },
            ),
        }
    }

    /// What is shared out fits: with what is resident anyway it stays within the budget, unless
    /// that alone goes beyond it, and then nothing is shared out. No part is longer than what it is
    /// a part of, and no cache longer than its cap.
    pub proof fn budgets_fit(self, resident: usize, adjacency: usize, vectors: usize)
        requires
            self.cache_overrides is None,
        ensures
            ({
                let r = self.resolved(resident as int, adjacency as int, vectors as int);
                let shared = r.adjacency_preload_bytes + r.adjacency_cache_bytes
                    + r.raw_vector_cache_bytes;
                &&& resident <= self.memory_budget_bytes ==> resident + shared
                    <= r.max_resident_bytes
                &&& resident >= self.memory_budget_bytes ==> shared == 0
                &&& r.adjacency_preload_bytes + r.adjacency_cache_bytes <= adjacency
                &&& r.raw_vector_cache_bytes <= vectors
                &&& r.adjacency_cache_bytes <= cache_cap(self.storage_profile)
                &&& r.raw_vector_cache_bytes <= cache_cap(self.storage_profile)
            }),
    {
    }

    /// No memory lies idle that a cache could use: unless the budget is used up, each cache holds
    /// all that it can.
    pub proof fn budgets_leave_nothing_idle(self, resident: usize, adjacency: usize, vectors: usize)
        requires
            self.cache_overrides is None,
            resident <= self.memory_budget_bytes,
        ensures
            ({
                let r = self.resolved(resident as int, adjacency as int, vectors as int);
                let shared = r.adjacency_preload_bytes + r.adjacency_cache_bytes
                    + r.raw_vector_cache_bytes;
                ||| resident + shared == r.max_resident_bytes
                ||| r.adjacency_cache_bytes == cache_demand(
                    self.storage_profile,
                    adjacency - r.adjacency_preload_bytes,
                ) && r.raw_vector_cache_bytes == cache_demand(
                    self.storage_profile,
                    vectors as int,
                )
            }),
    {
    }
}

} // verus!
