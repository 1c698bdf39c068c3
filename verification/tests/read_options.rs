use paimon_vindex_core::read_options::{
    SeekReadCapabilities, StorageProfile, VectorIndexReaderOptions,
};

#[test]
fn storage_profiles_have_stable_codes_and_distinct_read_plans() {
    assert_eq!(StorageProfile::Auto.code(), 0);
    assert_eq!(StorageProfile::Memory.code(), 1);
    assert_eq!(StorageProfile::LocalStorage.code(), 2);
    assert_eq!(StorageProfile::RemoteStorage.code(), 3);
    assert_eq!(StorageProfile::ObjectStore.code(), 4);

    let options = VectorIndexReaderOptions::default();
    assert_eq!(options.storage_profile, StorageProfile::Auto);
    assert_eq!(options.memory_budget_bytes, 4 * 1024 * 1024 * 1024);

    let resolved = options.resolve_cache_budgets(1024, 16 * 1024 * 1024, 8 * 1024 * 1024);
    assert!(resolved.adjacency_preload_bytes > 0);
    assert_eq!(
        resolved.adjacency_preload_bytes + resolved.adjacency_cache_bytes,
        16 * 1024 * 1024
    );
    assert!(resolved.raw_vector_cache_bytes > 0);
    assert!(
        1024 + resolved.adjacency_preload_bytes
            + resolved.adjacency_cache_bytes
            + resolved.raw_vector_cache_bytes
            <= options.memory_budget_bytes
    );

    let memory = StorageProfile::Memory.read_plan();
    let local = StorageProfile::LocalStorage.read_plan();
    let remote = StorageProfile::RemoteStorage.read_plan();
    let object_store = StorageProfile::ObjectStore.read_plan();
    assert_eq!(
        (
            memory.window_bytes,
            memory.graph_beam_width,
            memory.filtered_graph_beam_width
        ),
        (4096, 16, 4)
    );
    assert_eq!(
        (
            local.window_bytes,
            local.graph_beam_width,
            local.filtered_graph_beam_width
        ),
        (16 * 1024, 4, 4)
    );
    assert_eq!(
        (
            remote.window_bytes,
            remote.graph_beam_width,
            remote.filtered_graph_beam_width
        ),
        (32 * 1024, 16, 4)
    );
    assert_eq!(
        (
            object_store.window_bytes,
            object_store.graph_beam_width,
            object_store.filtered_graph_beam_width
        ),
        (64 * 1024, 16, 4)
    );
}

#[test]
fn remote_cache_budgets_use_available_memory_beyond_the_local_cache_caps() {
    let mib: usize = 1024 * 1024;
    let resolved = VectorIndexReaderOptions::new(StorageProfile::RemoteStorage, 4 * 1024 * mib)
        .resolve_cache_budgets(256 * mib, 512 * mib, 2 * 1024 * mib);

    assert_eq!(resolved.adjacency_preload_bytes, 32 * mib);
    assert_eq!(
        resolved.adjacency_cache_bytes,
        512 * mib - resolved.adjacency_preload_bytes
    );
    assert_eq!(resolved.raw_vector_cache_bytes, 2 * 1024 * mib);
    assert!(
        256 * mib
            + resolved.adjacency_preload_bytes
            + resolved.adjacency_cache_bytes
            + resolved.raw_vector_cache_bytes
            <= resolved.max_resident_bytes
    );
}

#[test]
fn capability_windows_are_bounded_and_keep_complete_diskann_pages() {
    let plan = StorageProfile::LocalStorage
        .read_plan()
        .with_capabilities(SeekReadCapabilities {
            preferred_alignment_bytes: 6_000,
            preferred_window_bytes: 10_000,
            max_ranges_per_pread: 2,
        });
    assert_eq!(plan.window_bytes, 12 * 1024);
    assert_eq!(plan.graph_beam_width, 2);
    assert_eq!(plan.filtered_graph_beam_width, 2);

    let bounded = StorageProfile::RemoteStorage
        .read_plan()
        .with_capabilities(SeekReadCapabilities {
            preferred_alignment_bytes: usize::MAX,
            preferred_window_bytes: usize::MAX,
            max_ranges_per_pread: 0,
        });
    assert_eq!(bounded.window_bytes, 1024 * 1024);
}

#[test]
fn budgets_that_were_given_are_kept_with_the_profile() {
    let mut options =
        VectorIndexReaderOptions::with_cache_budgets(StorageProfile::Memory, 1, 2, 3, 4);
    assert!(!options.uses_automatic_cache_budgets());
    options.storage_profile = StorageProfile::ObjectStore;
    let resolved = options.resolve_cache_budgets(0, 0, 0);
    assert_eq!(resolved.storage_profile, StorageProfile::ObjectStore);
    assert_eq!(resolved.adjacency_preload_bytes, 1);
    assert_eq!(resolved.adjacency_cache_bytes, 2);
    assert_eq!(resolved.max_resident_bytes, 3);
    assert_eq!(resolved.raw_vector_cache_bytes, 4);
    assert!(VectorIndexReaderOptions::default().uses_automatic_cache_budgets());
}

#[test]
fn nothing_is_shared_out_where_nothing_is_left() {
    let resolved = VectorIndexReaderOptions::new(StorageProfile::LocalStorage, 100)
        .resolve_cache_budgets(100, 1000, 1000);
    assert_eq!(resolved.adjacency_preload_bytes, 0);
    assert_eq!(resolved.adjacency_cache_bytes, 0);
    assert_eq!(resolved.raw_vector_cache_bytes, 0);
}

#[test]
fn what_one_cache_leaves_over_the_other_gets() {
    let resolved = VectorIndexReaderOptions::new(StorageProfile::LocalStorage, 1000)
        .resolve_cache_budgets(0, 2000, 10);
    // Half is preloaded, a quarter cached, ten are the vectors', and the rest goes to the graph.
    assert_eq!(resolved.adjacency_preload_bytes, 500);
    assert_eq!(resolved.adjacency_cache_bytes, 490);
    assert_eq!(resolved.raw_vector_cache_bytes, 10);
    let mib: usize = 1024 * 1024;
    let capped = VectorIndexReaderOptions::new(StorageProfile::LocalStorage, 1024 * mib)
        .resolve_cache_budgets(0, 512 * mib, 512 * mib);
    assert_eq!(capped.adjacency_preload_bytes, 16 * mib);
    assert_eq!(capped.adjacency_cache_bytes, 64 * mib);
    assert_eq!(capped.raw_vector_cache_bytes, 64 * mib);
}

#[test]
fn storage_that_says_nothing_keeps_the_plan() {
    let plan = StorageProfile::ObjectStore.read_plan();
    let same = plan.with_capabilities(SeekReadCapabilities {
        preferred_alignment_bytes: 0,
        preferred_window_bytes: 0,
        max_ranges_per_pread: 0,
    });
    assert_eq!(plan, same);
    let narrow = plan.with_capabilities(SeekReadCapabilities {
        preferred_alignment_bytes: 100_000,
        preferred_window_bytes: 0,
        max_ranges_per_pread: 1,
    });
    assert_eq!(narrow.window_bytes, 102_400);
    assert_eq!(narrow.graph_beam_width, 1);
}
