use metal_merkle::gpu::metal::buffer_pool::{Buffer, BufferPool};
use metal_merkle::gpu::metal::coalesced_plan::chunk_ranges;
use metal_merkle::gpu::metal::merkle_chunked::{ChunkAction, ChunkStage};
use metal_merkle::gpu::metal::merkle_coalesced::{
    get_chunk_size, get_chunk_size_log2, get_coalesced_height_threshold,
    get_last_chunk_dispatch_count, get_last_level_dispatch_count, get_staging_buffer_switches,
    is_double_buffer_enabled, reset_chunk_dispatch_count, reset_level_dispatch_count,
    reset_staging_buffer_switches, set_chunk_size_log2, set_coalesced_height_threshold,
    set_double_buffer_enabled, ChunkSizeGuard, CoalescedSettings, CoalescedThresholdGuard,
    DispatchCounters, DoubleBufferGuard,
};
use metal_merkle::gpu::metal::merkle_tree::MerkleTree;
use metal_merkle::gpu::metal::pipeline::{create_pso, Kernel};
use metal_merkle::gpu::metal::plan::{Grid, TreeUniforms};
use metal_merkle::gpu::metal::runtime::MetalRuntime;
use metal_merkle::gpu::metal::utils::{CoalescedUniforms, HashOut};
use metal_merkle::launch::MTLSize;

fn runtime() -> MetalRuntime {
    let request = MetalRuntime::persistent_request();
    let pso = |kernel: Kernel| create_pso(kernel, 32, 1024);
    MetalRuntime {
        pool: BufferPool::new(),
        pso_poseidon_hash_leaves: pso(Kernel::HashLeaves),
        pso_poseidon_hash_tree_level: pso(Kernel::HashTreeLevel),
        pso_poseidon_hash_leaves_linear: pso(Kernel::HashLeavesLinear),
        pso_poseidon_hash_tree_level_linear: pso(Kernel::HashTreeLevelLinear),
        pso_poseidon_hash_caps_linear: pso(Kernel::HashCapsLinear),
        pso_poseidon_hash_leaves_threadgroup: pso(Kernel::HashLeavesThreadgroup),
        pso_poseidon_hash_tree_level_threadgroup: pso(Kernel::HashTreeLevelThreadgroup),
        pso_poseidon_hash_leaves_linear_threadgroup: pso(Kernel::HashLeavesLinearThreadgroup),
        pso_poseidon_hash_leaves_and_level1_linear_threadgroup: pso(
            Kernel::HashLeavesAndLevel1LinearThreadgroup,
        ),
        pso_poseidon_hash_tree_level_linear_threadgroup: pso(
            Kernel::HashTreeLevelLinearThreadgroup,
        ),
        pso_poseidon_hash_caps_linear_threadgroup: pso(Kernel::HashCapsLinearThreadgroup),
        pso_poseidon_hash_leaves_coalesced: pso(Kernel::HashLeavesCoalesced),
        pso_poseidon_hash_tree_level_coalesced: pso(Kernel::HashTreeLevelCoalesced),
        pso_poseidon_hash_caps_coalesced: pso(Kernel::HashCapsCoalesced),
        pso_poseidon_hash_tree_level_coalesced_instrumented: pso(
            Kernel::HashTreeLevelCoalescedInstrumented,
        ),
        persistent_buffers: MetalRuntime::new_persistent_buffers(
            Buffer { address: 1, length: request.digests_size },
            Buffer { address: 2, length: request.caps_size },
        ),
        init_time: 0,
    }
}

/// A tree with `caps` cap entries.
fn tree(caps: usize) -> MerkleTree {
    MerkleTree::new_from_fields(vec![], 0, vec![], vec![HashOut::default(); caps])
}

fn coalesced(uniforms: TreeUniforms) -> CoalescedUniforms {
    match uniforms {
        TreeUniforms::Coalesced(u) => u,
        _ => panic!("coalesced kernels take coalesced parameters"),
    }
}

#[test]
fn settings_start_at_their_defaults() {
    let settings = CoalescedSettings::default();
    assert_eq!(get_chunk_size_log2(&settings), 18);
    assert_eq!(get_chunk_size(&settings), 262144);
    assert!(is_double_buffer_enabled(&settings));
    assert_eq!(get_coalesced_height_threshold(&settings), 21);
}

#[test]
fn settings_can_be_set() {
    let mut settings = CoalescedSettings::default();
    set_chunk_size_log2(&mut settings, 10);
    assert_eq!(get_chunk_size(&settings), 1024);
    set_chunk_size_log2(&mut settings, 24);
    assert_eq!(get_chunk_size(&settings), 1 << 24);
    set_double_buffer_enabled(&mut settings, false);
    assert!(!is_double_buffer_enabled(&settings));
    set_coalesced_height_threshold(&mut settings, 13);
    assert_eq!(get_coalesced_height_threshold(&settings), 13);
}

#[test]
fn guards_restore_the_settings() {
    let mut settings = CoalescedSettings::default();
    let before = settings;
    let threshold = CoalescedThresholdGuard::new(&mut settings, 15);
    let chunk = ChunkSizeGuard::new(&mut settings, 12);
    let double = DoubleBufferGuard::new(&mut settings, false);
    assert_eq!(get_coalesced_height_threshold(&settings), 15);
    assert_eq!(get_chunk_size_log2(&settings), 12);
    assert!(!is_double_buffer_enabled(&settings));
    double.restore(&mut settings);
    chunk.restore(&mut settings);
    threshold.restore(&mut settings);
    assert_eq!(settings, before);
}

#[test]
fn counters_can_be_reset() {
    let mut counters = DispatchCounters {
        chunk_dispatches: 1,
        level_dispatches: 2,
        staging_buffer_switches: 3,
    };
    assert_eq!(get_last_chunk_dispatch_count(&counters), 1);
    assert_eq!(get_last_level_dispatch_count(&counters), 2);
    assert_eq!(get_staging_buffer_switches(&counters), 3);
    reset_level_dispatch_count(&mut counters);
    assert_eq!(get_last_level_dispatch_count(&counters), 0);
    assert_eq!(get_last_chunk_dispatch_count(&counters), 1);
    reset_chunk_dispatch_count(&mut counters);
    reset_staging_buffer_switches(&mut counters);
    assert_eq!(counters, DispatchCounters::default());
}

#[test]
fn chunks_make_up_the_whole() {
    assert_eq!(chunk_ranges(10, 4), vec![(0, 4), (4, 4), (8, 2)]);
    assert_eq!(chunk_ranges(8, 4), vec![(0, 4), (4, 4)]);
    assert_eq!(chunk_ranges(3, 4), vec![(0, 3)]);
    assert_eq!(chunk_ranges(0, 4), vec![]);
}

#[test]
fn leaves_are_chunked_by_subtrees() {
    let runtime = runtime();
    let mut settings = CoalescedSettings::default();
    set_chunk_size_log2(&mut settings, 10);
    let mut counters = DispatchCounters::default();
    // 16 subtrees of 256 leaves, four of them to a chunk.
    let launches = runtime.dispatch_leaves_double_buffered(
        &settings,
        &mut counters,
        8,
        511,
        256,
        16,
        64,
    );
    assert_eq!(launches.len(), 4);
    assert_eq!(get_staging_buffer_switches(&counters), 3);
    for (k, launch) in launches.iter().enumerate() {
        let u = coalesced(launch.uniforms);
        assert_eq!(u.dispatch_offset, 4 * k as u32);
        assert_eq!(u.nodes_per_dispatch, 1024);
        assert_eq!(u.leaf_count, 4096);
        assert_eq!(u.subtree_count, 16);
        assert_eq!(launch.grid, Grid::Threads(MTLSize { width: 256, height: 4, depth: 1 }));
    }
    // A chunk that holds all subtrees: one launch, no switch.
    let mut counters = DispatchCounters::default();
    let launches =
        runtime.dispatch_leaves_double_buffered(&settings, &mut counters, 8, 63, 32, 16, 64);
    assert_eq!(launches.len(), 1);
    assert_eq!(get_staging_buffer_switches(&counters), 0);
    assert_eq!(launches[0], runtime.dispatch_leaves_chunked(8, 63, 32, 16, 64));
    // Subtrees larger than a chunk: one launch each.
    let launches =
        runtime.dispatch_leaves_double_buffered(&settings, &mut counters, 8, 8191, 4096, 3, 64);
    assert_eq!(launches.len(), 3);
    assert_eq!(get_staging_buffer_switches(&counters), 2);
}

#[test]
fn levels_are_chunked_by_nodes() {
    let runtime = runtime();
    let mut settings = CoalescedSettings::default();
    set_chunk_size_log2(&mut settings, 10);
    let mut counters = DispatchCounters::default();
    let chunks = MetalRuntime::level_chunks(&settings, 1, 8192);
    assert_eq!(chunks, vec![(0, 1024), (1024, 1024), (2048, 1024), (3072, 1024)]);
    let threads = vec![64; 4];
    let launches = runtime.dispatch_level_chunked(
        &settings,
        &mut counters,
        1,
        16383,
        8192,
        2,
        &threads,
    );
    assert_eq!(launches.len(), 4);
    assert_eq!(get_last_level_dispatch_count(&counters), 4);
    for (k, launch) in launches.iter().enumerate() {
        let u = coalesced(launch.uniforms);
        assert_eq!(u.level, 1);
        assert_eq!(u.dispatch_offset, 1024 * k as u32);
        assert_eq!(u.nodes_per_subtree, 4096);
        assert_eq!(u.nodes_per_dispatch, 2048);
        assert_eq!(launch.threadgroup_memory, Some(2976 + 64 * 64));
    }
    let launches =
        runtime.dispatch_level_chunked(&settings, &mut counters, 6, 16383, 8192, 2, &vec![32]);
    assert_eq!(launches.len(), 1);
    assert_eq!(get_last_level_dispatch_count(&counters), 5);
}

#[test]
fn instrumented_level_counts_accesses() {
    let runtime = runtime();
    let level = runtime.run_instrumented_level(2, 511, 256, 4, 32);
    assert_eq!(level.counter_buffer_size, 256);
    assert_eq!(level.launch.kernel, Kernel::HashTreeLevelCoalescedInstrumented);
    let u = coalesced(level.launch.uniforms);
    assert_eq!(u.enable_counters, 1);
    assert_eq!(u.nodes_per_subtree, 64);
    assert_eq!(u.nodes_per_dispatch, 256);
    assert_eq!(level.launch.threadgroup_memory, Some(2976 + 32 * 64 + 32 * 4));
}

#[test]
fn small_tree_is_built_as_a_whole() {
    let mut counters = DispatchCounters::default();
    let leaves = vec![vec![1u64]; 16];
    let mut build =
        MetalRuntime::new_merkle_tree_chunked_with_root_merge(&mut counters, &leaves, 1, 4);
    assert_eq!(build.stage, ChunkStage::Whole);
    assert!(matches!(build.next(), ChunkAction::Whole { leaf_count: 16, cap_height: 1 }));
    assert_eq!(get_last_chunk_dispatch_count(&counters), 1);
    build.on_whole(tree(2));
    assert!(matches!(build.next(), ChunkAction::Done));
    assert_eq!(build.into_tree().unwrap().cap.len(), 2);
}

#[test]
fn large_tree_is_built_chunk_by_chunk() {
    let mut counters = DispatchCounters::default();
    let leaves = vec![vec![1u64]; 32];
    let mut build =
        MetalRuntime::new_merkle_tree_chunked_with_root_merge(&mut counters, &leaves, 3, 3);
    assert_eq!(build.num_chunks, 4);
    for k in 0..4usize {
        match build.next() {
            ChunkAction::Chunk { start, end, on_device } => {
                assert_eq!((start, end), (8 * k, 8 * k + 8));
                assert!(!on_device);
            }
            _ => panic!("chunks come first"),
        }
        build.on_chunk(&mut counters, &vec![HashOut { elements: [k as u64, 1, 2, 3] }]);
        assert_eq!(get_last_chunk_dispatch_count(&counters), k + 1);
    }
    match build.next() {
        ChunkAction::Upper { leaves, cap_height, on_device } => {
            assert_eq!(leaves.len(), 4);
            assert_eq!(leaves[3], vec![3, 1, 2, 3]);
            // No more than the height of the tree over the roots.
            assert_eq!(cap_height, 2);
            assert!(!on_device);
        }
        _ => panic!("the tree over the roots comes next"),
    }
    build.on_upper(4);
    assert!(matches!(build.next(), ChunkAction::Final { leaf_count: 32, cap_height: 3 }));
    assert!(build.on_final(tree(8)));
    assert!(matches!(build.next(), ChunkAction::Done));
}

#[test]
fn every_chunk_size_ends_in_the_same_tree() {
    let leaves = vec![vec![1u64]; 64];
    for cap_height in [0usize, 2, 6] {
        for chunk_log2 in 0..8 {
            let mut counters = DispatchCounters::default();
            let mut build = MetalRuntime::new_merkle_tree_chunked_with_root_merge(
                &mut counters,
                &leaves,
                cap_height,
                chunk_log2,
            );
            let mut steps = 0;
            let mut trees = Vec::new();
            loop {
                match build.next() {
                    ChunkAction::Whole { leaf_count, cap_height } => {
                        trees.push((leaf_count, cap_height));
                        build.on_whole(tree(1 << cap_height));
                    }
                    ChunkAction::Chunk { .. } => {
                        build.on_chunk(&mut counters, &vec![HashOut::default()]);
                    }
                    ChunkAction::Upper { cap_height, .. } => build.on_upper(1 << cap_height),
                    ChunkAction::Final { leaf_count, cap_height } => {
                        trees.push((leaf_count, cap_height));
                        assert!(build.on_final(tree(1 << cap_height)));
                    }
                    ChunkAction::Done => break,
                }
                steps += 1;
            }
            assert_eq!(trees, vec![(64, cap_height)]);
            assert_eq!(steps, if chunk_log2 >= 6 { 1 } else { (64 >> chunk_log2) + 2 });
        }
    }
}

#[test]
fn incompatible_caps_are_noticed() {
    let mut counters = DispatchCounters::default();
    let leaves = vec![vec![1u64]; 4];
    let mut build =
        MetalRuntime::new_merkle_tree_chunked_with_root_merge(&mut counters, &leaves, 0, 1);
    for _ in 0..2 {
        build.on_chunk(&mut counters, &vec![HashOut::default()]);
    }
    build.on_upper(2);
    assert!(!build.on_final(tree(1)));
}

#[test]
fn chunk_size_is_that_of_the_settings() {
    let mut settings = CoalescedSettings::default();
    set_chunk_size_log2(&mut settings, 13);
    let mut counters = DispatchCounters::default();
    let leaves = vec![vec![1u64]; 1 << 17];
    let mut build =
        MetalRuntime::new_merkle_tree_chunked(&settings, &mut counters, &leaves, 4);
    assert_eq!(build.num_chunks, 16);
    match build.next() {
        ChunkAction::Chunk { start, end, on_device } => {
            assert_eq!((start, end, on_device), (0, 8192, true));
        }
        _ => panic!("chunks come first"),
    }
    for _ in 0..16 {
        build.on_chunk(&mut counters, &vec![HashOut::default()]);
    }
    match build.next() {
        ChunkAction::Upper { cap_height, on_device, .. } => {
            assert_eq!((cap_height, on_device), (4, true));
        }
        _ => panic!("the tree over the roots comes next"),
    }
}
