use metal_merkle::gpu::metal::allocation::Allocation;
use metal_merkle::gpu::metal::buffer_pool::{Buffer, BufferPool};
use metal_merkle::gpu::metal::coalesced_plan::{coalesced_tuning_counts, CoalescedSizes};
use metal_merkle::gpu::metal::merkle_chunked::ChunkAction;
use metal_merkle::gpu::metal::merkle_coalesced::{
    set_chunk_size_log2, CoalescedSettings, DispatchCounters,
};
use metal_merkle::gpu::metal::merkle_job::{CommandStatus, MerkleGpuJob};
use metal_merkle::gpu::metal::merkle_linear_threadgroup::{
    get_large_tree_count, reset_large_tree_counter, LargeTreeCounter,
};
use metal_merkle::gpu::metal::merkle_tree::{self, MerkleTree, Route};
use metal_merkle::gpu::metal::pipeline::{create_pso, Kernel, ShaderLibrary};
use metal_merkle::gpu::metal::plan::{
    tg_flags_from_env, tuning_counts, DigestLayout, Grid, GroupSizes, Launch, MemoryPolicy, Phase,
    Recipe, TgFlags, TreeShape, TreeUniforms, UniformKind,
};
use metal_merkle::gpu::metal::runtime::MetalRuntime as GpuRuntime;
use metal_merkle::gpu::metal::utils::{get_node_hash_index_in_digests, HashOut};
use metal_merkle::gpu::metal::work::TreeWork;
use metal_merkle::hash::metal::gpu_thread::{
    dispatch_merkle_coalesced, dispatch_merkle_linear_threadgroup, plan_job, route_merkle_tree,
    JobSizes, MerkleRoute,
};
use metal_merkle::hash::metal::runtime::MetalRuntime as HashRuntime;
use metal_merkle::launch::MTLSize;

fn gpu_runtime() -> GpuRuntime {
    let request = GpuRuntime::persistent_request();
    let digests = Buffer { address: 16384, length: request.digests_size };
    let caps = Buffer { address: 32768, length: request.caps_size };
    GpuRuntime {
        pool: BufferPool::new(),
        pso_poseidon_hash_leaves: create_pso(Kernel::HashLeaves, 32, 1024),
        pso_poseidon_hash_tree_level: create_pso(Kernel::HashTreeLevel, 32, 1024),
        pso_poseidon_hash_leaves_linear: create_pso(Kernel::HashLeavesLinear, 32, 1024),
        pso_poseidon_hash_tree_level_linear: create_pso(Kernel::HashTreeLevelLinear, 32, 1024),
        pso_poseidon_hash_caps_linear: create_pso(Kernel::HashCapsLinear, 32, 1024),
        pso_poseidon_hash_leaves_threadgroup: create_pso(Kernel::HashLeavesThreadgroup, 32, 1024),
        pso_poseidon_hash_tree_level_threadgroup: create_pso(
            Kernel::HashTreeLevelThreadgroup,
            32,
            1024,
        ),
        pso_poseidon_hash_leaves_linear_threadgroup: create_pso(
            Kernel::HashLeavesLinearThreadgroup,
            32,
            1024,
        ),
        pso_poseidon_hash_leaves_and_level1_linear_threadgroup: create_pso(
            Kernel::HashLeavesAndLevel1LinearThreadgroup,
            32,
            1024,
        ),
        pso_poseidon_hash_tree_level_linear_threadgroup: create_pso(
            Kernel::HashTreeLevelLinearThreadgroup,
            32,
            1024,
        ),
        pso_poseidon_hash_caps_linear_threadgroup: create_pso(
            Kernel::HashCapsLinearThreadgroup,
            32,
            1024,
        ),
        pso_poseidon_hash_leaves_coalesced: create_pso(Kernel::HashLeavesCoalesced, 32, 1024),
        pso_poseidon_hash_tree_level_coalesced: create_pso(
            Kernel::HashTreeLevelCoalesced,
            32,
            1024,
        ),
        pso_poseidon_hash_caps_coalesced: create_pso(Kernel::HashCapsCoalesced, 32, 1024),
        pso_poseidon_hash_tree_level_coalesced_instrumented: create_pso(
            Kernel::HashTreeLevelCoalescedInstrumented,
            32,
            1024,
        ),
        persistent_buffers: GpuRuntime::new_persistent_buffers(digests, caps),
        init_time: 123,
    }
}

fn hash_runtime() -> HashRuntime {
    HashRuntime {
        pool: BufferPool::new(),
        pso_poseidon_hash_leaves_linear_threadgroup: create_pso(
            Kernel::HashLeavesLinearThreadgroup,
            32,
            1024,
        ),
        pso_poseidon_hash_tree_level_linear_threadgroup: create_pso(
            Kernel::HashTreeLevelLinearThreadgroup,
            32,
            1024,
        ),
        pso_poseidon_hash_caps_linear_threadgroup: create_pso(
            Kernel::HashCapsLinearThreadgroup,
            32,
            1024,
        ),
        pso_poseidon_hash_leaves_coalesced: create_pso(Kernel::HashLeavesCoalesced, 32, 1024),
        pso_poseidon_hash_tree_level_coalesced: create_pso(
            Kernel::HashTreeLevelCoalesced,
            32,
            1024,
        ),
        pso_poseidon_hash_caps_coalesced: create_pso(Kernel::HashCapsCoalesced, 32, 1024),
        pso_poseidon_hash_tree_level_coalesced_instrumented: create_pso(
            Kernel::HashTreeLevelCoalescedInstrumented,
            32,
            1024,
        ),
        init_time: 456,
    }
}

fn sizes() -> GroupSizes {
    GroupSizes { leaves: 256, level: 128, caps: 64 }
}

fn leaf_hash(i: usize) -> u64 {
    (i as u64).wrapping_mul(0x9e37_79b9_7f4a_7c15) | 1
}

fn node_hash(left: u64, right: u64) -> u64 {
    (left.rotate_left(7) ^ right.wrapping_mul(0xff51_afd7_ed55_8ccd)).wrapping_add(13) | 1
}

/// The threads of a launch, as positions in its grid.
fn grid_of(launch: &Launch) -> (u64, u64) {
    match launch.grid {
        Grid::Groups(g) => (g.width * launch.threads_per_group.width, g.height),
        Grid::Threads(t) => (t.width, t.height),
    }
}

/// Where a kernel stores a node.
fn kernel_slot(digests_len: usize, leaves_len: usize, level: usize, position: usize) -> usize {
    if level == 0 {
        digests_len - leaves_len + position
    } else {
        digests_len + (leaves_len >> level) + position - 2 * leaves_len
    }
}

/// Runs the launches of a tree, with a stand-in for the hash function.
fn simulate(work: &TreeWork) -> (Vec<u64>, Vec<u64>) {
    simulate_launches(&work.shape, &work.launches)
}

fn simulate_launches(shape: &TreeShape, launches: &[Launch]) -> (Vec<u64>, Vec<u64>) {
    let mut digests = vec![0u64; shape.total_digests];
    let mut caps = vec![0u64; shape.num_caps];
    let top = shape.num_layers - 1;
    for launch in launches {
        let (columns, rows) = grid_of(launch);
        match launch.uniforms {
            TreeUniforms::Linear(u) => {
                let leaves_len = u.subtree_leaves_len as usize;
                let digests_len = u.subtree_digests_len as usize;
                let fused = launch.kernel == Kernel::HashLeavesAndLevel1LinearThreadgroup;
                for y in 0..rows {
                    for x in 0..columns {
                        let gid = match launch.phase {
                            Phase::Caps => x as usize,
                            _ => (y * u.grid_width as u64 + x) as usize,
                        };
                        match launch.phase {
                            Phase::Leaves => {
                                let per_thread = if fused { 2 } else { 1 };
                                for leaf in gid * per_thread..(gid + 1) * per_thread {
                                    if leaf < u.leaf_count as usize {
                                        let base = leaf / leaves_len * digests_len;
                                        let slot = kernel_slot(
                                            digests_len,
                                            leaves_len,
                                            0,
                                            leaf % leaves_len,
                                        );
                                        digests[base + slot] = leaf_hash(leaf);
                                    }
                                }
                                if fused && 2 * gid < u.leaf_count as usize {
                                    let nodes = leaves_len / 2;
                                    let base = gid / nodes * digests_len;
                                    let slot =
                                        kernel_slot(digests_len, leaves_len, 1, gid % nodes);
                                    digests[base + slot] =
                                        node_hash(leaf_hash(2 * gid), leaf_hash(2 * gid + 1));
                                }
                            }
                            Phase::Level => {
                                let level = u.level as usize;
                                let nodes = leaves_len >> level;
                                if gid < nodes * u.subtree_count as usize {
                                    let base = gid / nodes * digests_len;
                                    let p = gid % nodes;
                                    let child =
                                        kernel_slot(digests_len, leaves_len, level - 1, 2 * p);
                                    let slot = kernel_slot(digests_len, leaves_len, level, p);
                                    digests[base + slot] = node_hash(
                                        digests[base + child],
                                        digests[base + child + 1],
                                    );
                                }
                            }
                            Phase::Caps => {
                                if gid < u.subtree_count as usize {
                                    let slot = kernel_slot(digests_len, leaves_len, top, 0);
                                    let base = gid * digests_len;
                                    caps[gid] =
                                        node_hash(digests[base + slot], digests[base + slot + 1]);
                                }
                            }
                        }
                    }
                }
            }
            TreeUniforms::Coalesced(u) => {
                let leaves_len = u.subtree_leaves_len as usize;
                let digests_len = u.subtree_digests_len as usize;
                for y in 0..rows as usize {
                    for x in 0..columns as usize {
                        match launch.phase {
                            Phase::Leaves => {
                                let subtree = y + u.dispatch_offset as usize;
                                let slot = kernel_slot(digests_len, leaves_len, 0, x);
                                digests[subtree * digests_len + slot] =
                                    leaf_hash(subtree * leaves_len + x);
                            }
                            Phase::Level => {
                                let level = u.level as usize;
                                let p = x + u.dispatch_offset as usize;
                                let base = y * digests_len;
                                let child =
                                    kernel_slot(digests_len, leaves_len, level - 1, 2 * p);
                                let slot = kernel_slot(digests_len, leaves_len, level, p);
                                digests[base + slot] =
                                    node_hash(digests[base + child], digests[base + child + 1]);
                            }
                            Phase::Caps => {
                                let slot = kernel_slot(digests_len, leaves_len, top, 0);
                                let base = x * digests_len;
                                caps[x] =
                                    node_hash(digests[base + slot], digests[base + slot + 1]);
                            }
                        }
                    }
                }
            }
            TreeUniforms::Recursive(u) => {
                let layers = u.num_layers as usize;
                let tree_length = u.tree_length as usize;
                for y in 0..rows {
                    for x in 0..columns {
                        let gid = (y * u.grid_width as u64 + x) as usize;
                        let level = u.level as usize;
                        if gid < (u.leaf_count as usize) >> level {
                            let i =
                                get_node_hash_index_in_digests(layers, tree_length, level, gid);
                            digests[i] = if level == 0 {
                                leaf_hash(gid)
                            } else {
                                let c = get_node_hash_index_in_digests(
                                    layers,
                                    tree_length,
                                    level - 1,
                                    2 * gid,
                                );
                                node_hash(digests[c], digests[c + 1])
                            };
                        }
                    }
                }
            }
        }
    }
    (digests, caps)
}

/// All levels of a tree, leaves first.
fn reference_levels(tree_height: usize) -> Vec<Vec<u64>> {
    let mut levels = vec![(0..1usize << tree_height).map(leaf_hash).collect::<Vec<u64>>()];
    for _ in 0..tree_height {
        let below = levels.last().unwrap();
        let level: Vec<u64> = below.chunks(2).map(|c| node_hash(c[0], c[1])).collect();
        levels.push(level);
    }
    levels
}

fn digest(v: u64) -> HashOut {
    HashOut { elements: [v, 0, 0, 0] }
}

fn digests(values: &[u64]) -> Vec<HashOut> {
    values.iter().map(|&v| digest(v)).collect()
}

/// A buffer for a request.
fn buffer_of(allocation: Allocation, address: usize) -> Buffer {
    match allocation {
        Allocation::Pooled(buffer) => buffer,
        Allocation::Create { size } => Buffer { address, length: size },
    }
}

fn check_recursive(result: &[HashOut], tree_height: usize, cap_height: usize, tree_length: usize) {
    let levels = reference_levels(tree_height);
    let layers = tree_height - cap_height;
    for level in 0..layers {
        for (index, &value) in levels[level].iter().enumerate() {
            let place = get_node_hash_index_in_digests(layers, tree_length, level, index);
            assert_eq!(result[place], digest(value));
        }
    }
}

#[test]
fn linear_tree_has_the_digests_of_the_tree() {
    for (tree_height, cap_height) in [(6, 2), (5, 4), (9, 0)] {
        let mut runtime = gpu_runtime();
        let work = runtime.hash_merkle_tree_linear_buf_ho(tree_height, 3, cap_height, &sizes());
        let (raw, caps) = simulate(&work);
        let shape = work.shape;
        assert_eq!(shape.total_digests, (2 << tree_height) - (1 << cap_height));
        let d = buffer_of(work.digests, 1);
        let c = buffer_of(work.caps.unwrap(), 2);
        let (result, cap) = runtime.finish_linear(&shape, &digests(&raw), digests(&caps), d, c);
        assert_eq!(result.len(), 2 * ((1 << tree_height) - (1 << cap_height)));
        check_recursive(
            &result,
            tree_height,
            cap_height,
            2 * ((1 << (tree_height - cap_height)) - 1),
        );
        assert_eq!(cap, digests(&reference_levels(tree_height)[tree_height - cap_height]));
        // Both buffers went back to the pool.
        assert!(runtime.pool.stats().2 > 0);
    }
}

#[test]
fn linear_threadgroup_tree_has_the_digests_of_the_tree() {
    let flags = TgFlags { constants: true, child_cache: true };
    for (tree_height, cap_height) in [(6, 2), (5, 4), (9, 0)] {
        let mut runtime = gpu_runtime();
        let work = runtime.hash_merkle_tree_linear_threadgroup_buf_ho(
            tree_height,
            3,
            cap_height,
            &flags,
            &sizes(),
        );
        let fused = tree_height - cap_height > 1;
        assert_eq!(
            work.launches[0].kernel,
            if fused {
                Kernel::HashLeavesAndLevel1LinearThreadgroup
            } else {
                Kernel::HashLeavesLinearThreadgroup
            }
        );
        assert_eq!(work.launches[0].flags, Some(3));
        assert_eq!(work.launches[0].threadgroup_memory, Some(2976));
        let (raw, caps) = simulate(&work);
        let shape = work.shape;
        let d = buffer_of(work.digests, 1);
        let c = buffer_of(work.caps.unwrap(), 2);
        let (result, cap) = runtime.finish_linear(&shape, &digests(&raw), digests(&caps), d, c);
        check_recursive(
            &result,
            tree_height,
            cap_height,
            2 * ((1 << (tree_height - cap_height)) - 1),
        );
        assert_eq!(cap, digests(&reference_levels(tree_height)[tree_height - cap_height]));
    }
}

#[test]
fn submitted_tree_is_converted_when_it_is_finished() {
    let mut runtime = gpu_runtime();
    let flags = TgFlags { constants: true, child_cache: false };
    let work = runtime.submit_merkle_tree_linear_threadgroup(7, 3, 2, &flags, &sizes());
    assert_eq!(work.clear_digests, Some((63 * 4 * 32 + 255) / 256 * 256));
    assert_eq!(work.clear_caps, Some(256));
    let (raw, caps) = simulate(&work);
    let shape = work.shape;
    let d = buffer_of(work.digests, 1);
    let c = buffer_of(work.caps.unwrap(), 2);
    let freed = (d.length, c.length);
    let job = GpuRuntime::submitted_job(&shape, d, c);
    assert_eq!(job.tree_height(), 7);
    assert_eq!(job.cap_height(), 2);
    assert_eq!(job.freed_bytes(), freed);
    assert!(!job.is_complete(CommandStatus::Scheduled));
    assert!(!job.is_complete(CommandStatus::Error));
    assert!(job.is_complete(CommandStatus::Completed));
    let result = job.finish(digests(&raw), digests(&caps));
    // No place is kept for the root of a subtree.
    assert_eq!(result.digests.len(), 62 * 4);
    check_recursive(&result.digests, 7, 2, 62);
    assert_eq!(result.caps.unwrap(), digests(&reference_levels(7)[5]));
}

#[test]
fn submitted_tree_is_the_tree_that_is_waited_for() {
    let flags = TgFlags { constants: true, child_cache: true };
    for (tree_height, cap_height) in [(7, 2), (5, 4), (6, 0), (4, 1)] {
        let mut runtime = gpu_runtime();
        let submitted = runtime.submit_merkle_tree_linear_threadgroup(
            tree_height,
            3,
            cap_height,
            &flags,
            &sizes(),
        );
        let (raw, caps) = simulate(&submitted);
        let job = GpuRuntime::submitted_job(
            &submitted.shape,
            buffer_of(submitted.digests, 1),
            buffer_of(submitted.caps.unwrap(), 2),
        );
        let later = job.finish(digests(&raw), digests(&caps));
        let waited = runtime.hash_merkle_tree_linear_threadgroup_buf_ho(
            tree_height,
            3,
            cap_height,
            &flags,
            &sizes(),
        );
        let (raw, caps) = simulate(&waited);
        let d = buffer_of(waited.digests, 3);
        let c = buffer_of(waited.caps.unwrap(), 4);
        let (result, cap) =
            runtime.finish_linear(&waited.shape, &digests(&raw), digests(&caps), d, c);
        assert_eq!(later.digests, result);
        assert_eq!(later.caps.unwrap(), cap);
    }
}

#[test]
fn job_of_a_tree_that_is_its_cap_has_no_digests() {
    let raw: Vec<HashOut> = (0..4).map(|i| digest(i as u64 + 1)).collect();
    let job = MerkleGpuJob::new(Buffer { address: 1, length: 4096 }, None, 4, 4, 2, 2, true);
    assert!(job.finish(raw, vec![]).digests.is_empty());
}

#[test]
fn job_in_the_recursive_layout_is_not_converted() {
    let raw: Vec<HashOut> = (0..6).map(|i| digest(i as u64 + 1)).collect();
    let buffer = Buffer { address: 1, length: 4096 };
    let job = MerkleGpuJob::new(buffer, None, 6, 1, 2, 0, false);
    assert_eq!(job.freed_bytes(), (4096, 0));
    let result = job.finish(raw.clone(), vec![]);
    assert_eq!(result.digests, raw);
    assert!(result.caps.is_none());
}

#[test]
fn threadgroup_tree_has_the_digests_of_the_tree() {
    let mut runtime = gpu_runtime();
    let (tree_height, cap_height) = (7, 2);
    let work = runtime.hash_merkle_tree_threadgroup_buf_ho(tree_height, 3, cap_height, &sizes());
    assert!(work.caps.is_none());
    assert_eq!(work.launches.len(), 5);
    assert_eq!(work.launches[0].threadgroup_memory, Some(2976));
    assert_eq!(work.launches[1].threadgroup_memory, Some(2976 + 128 * 64));
    let (raw, _) = simulate(&work);
    let result = digests(&raw);
    assert_eq!(result.len(), 2 * (128 - 4));
    check_recursive(&result, tree_height, cap_height, 62);
    let pairs = GpuRuntime::cap_children(&result, tree_height, cap_height);
    let cap: Vec<HashOut> = pairs
        .iter()
        .map(|(l, r)| digest(node_hash(l.elements[0], r.elements[0])))
        .collect();
    assert_eq!(cap, digests(&reference_levels(tree_height)[5]));
}

#[test]
fn coalesced_tree_has_the_digests_of_the_tree() {
    let mut runtime = gpu_runtime();
    let (tree_height, cap_height) = (8usize, 3usize);
    let sizes = CoalescedSizes { leaves: 32, levels: vec![32, 16, 8, 8], caps: 8 };
    let work = runtime.hash_merkle_tree_coalesced_buf_ho(tree_height, 3, cap_height, &sizes);
    assert_eq!(work.launches.len(), 6);
    assert_eq!(
        work.launches[0].grid,
        Grid::Threads(MTLSize { width: 32, height: 8, depth: 1 })
    );
    assert_eq!(
        work.launches[2].grid,
        Grid::Threads(MTLSize { width: 8, height: 8, depth: 1 })
    );
    assert_eq!(work.launches[2].threadgroup_memory, Some(2976 + 16 * 64));
    let (raw, caps) = simulate(&work);
    let shape = work.shape;
    let d = buffer_of(work.digests, 1);
    let c = buffer_of(work.caps.unwrap(), 2);
    let (result, cap) = runtime.finish_single_pass(&shape, &digests(&raw), digests(&caps), d, c);
    assert_eq!(result.len(), 62 * 8);
    check_recursive(&result, tree_height, cap_height, 62);
    assert_eq!(cap, digests(&reference_levels(tree_height)[5]));
}

/// Builds a tree on the device that its route gives, with the checks of a built tree.
fn test_merkle_at_height(tree_height: usize, cap_height: usize, route: MerkleRoute) {
    let leaf_count = 1usize << tree_height;
    let leaf_size = 8;
    assert_eq!(route_merkle_tree(true, tree_height, cap_height), route);
    let mut runtime = hash_runtime();
    let leaves_buffer = Buffer { address: 1, length: leaf_count * leaf_size * 8 };
    let (job, sizes) = match route {
        MerkleRoute::LinearThreadgroup => (
            dispatch_merkle_linear_threadgroup(leaves_buffer, tree_height, leaf_size, cap_height),
            JobSizes::Linear(sizes()),
        ),
        _ => {
            let shape = TreeShape::new(DigestLayout::Rootless, tree_height, cap_height);
            let counts = coalesced_tuning_counts(&shape);
            let levels = counts.levels.iter().map(|&n| n.clamp(1, 256)).collect();
            (
                dispatch_merkle_coalesced(leaves_buffer, tree_height, leaf_size, cap_height),
                JobSizes::Coalesced(CoalescedSizes { leaves: 256, levels, caps: 16 }),
            )
        }
    };
    let work = plan_job(&mut runtime, &job, &sizes);
    let (digests, caps) = simulate(&work);

    assert_eq!(caps.len(), 1 << cap_height);
    let subtree_leaves = leaf_count >> cap_height;
    let expected_digests = 2 * (subtree_leaves - 1) * (1 << cap_height);
    assert_eq!(digests.len(), expected_digests);
    assert_eq!(digests.iter().filter(|d| **d == 0).count(), 0);
    assert_eq!(caps.iter().filter(|d| **d == 0).count(), 0);
}

#[test]
fn test_coalesced_height_21_cap_4() {
    test_merkle_at_height(21, 4, MerkleRoute::Coalesced);
}

#[test]
fn test_coalesced_height_22_cap_4() {
    test_merkle_at_height(22, 4, MerkleRoute::Coalesced);
}

#[test]
fn test_coalesced_height_21_cap_1() {
    test_merkle_at_height(21, 1, MerkleRoute::Coalesced);
}

#[test]
fn test_linear_height_20_cap_4() {
    test_merkle_at_height(20, 4, MerkleRoute::LinearThreadgroup);
}

#[test]
fn rootless_trees_have_the_digests_of_the_tree() {
    let (tree_height, cap_height) = (9usize, 3usize);
    let layers = tree_height - cap_height;
    let n = 1usize << layers;
    let levels = reference_levels(tree_height);
    for coalesced in [false, true] {
        let mut runtime = hash_runtime();
        let work = if coalesced {
            let sizes = CoalescedSizes { leaves: 32, levels: vec![32; layers - 1], caps: 8 };
            runtime.hash_merkle_tree_coalesced_buf_ho(tree_height, 5, cap_height, &sizes)
        } else {
            runtime.hash_merkle_tree_linear_threadgroup_buf_ho(
                tree_height,
                5,
                cap_height,
                &sizes(),
            )
        };
        let (raw, caps) = simulate(&work);
        assert_eq!(caps, levels[layers]);
        for level in 0..layers {
            for (index, &value) in levels[level].iter().enumerate() {
                let width = n >> level;
                let place = index / width * 2 * (n - 1) + width - 2 + index % width;
                assert_eq!(raw[place], value);
            }
        }
        let shape = work.shape;
        let d = buffer_of(work.digests, 1);
        let c = buffer_of(work.caps.unwrap(), 2);
        let (result, cap) = runtime.finish(&shape, digests(&raw), digests(&caps), d, c);
        assert_eq!(result, digests(&raw));
        assert_eq!(cap, digests(&caps));
        // The next tree of the same shape reuses both buffers and clears neither.
        let again = runtime.hash_merkle_tree_linear_threadgroup_buf_ho(
            tree_height,
            5,
            cap_height,
            &sizes(),
        );
        assert!(again.digests.from_pool());
        assert_eq!(again.clear_digests, None);
        assert_eq!(again.clear_caps, None);
    }
}

#[test]
fn chunked_launches_compute_the_same_digests() {
    let runtime = gpu_runtime();
    let mut settings = CoalescedSettings::default();
    set_chunk_size_log2(&mut settings, 10);
    let mut counters = DispatchCounters::default();
    let shape = TreeShape::new(DigestLayout::Heap, 14, 2);
    let n = shape.subtree_leaves_len;
    let mut launches = runtime.dispatch_leaves_double_buffered(
        &settings,
        &mut counters,
        5,
        shape.subtree_digests_len,
        n,
        shape.num_caps,
        64,
    );
    assert_eq!(launches.len(), 4);
    for level in 1..shape.num_layers {
        let chunks = GpuRuntime::level_chunks(&settings, level, n);
        launches.extend(runtime.dispatch_level_chunked(
            &settings,
            &mut counters,
            level,
            shape.subtree_digests_len,
            n,
            shape.num_caps,
            &vec![64; chunks.len()],
        ));
    }
    let (raw, _) = simulate_launches(&shape, &launches);
    let levels = reference_levels(14);
    for level in 0..shape.num_layers {
        for (index, &value) in levels[level].iter().enumerate() {
            let width = n >> level;
            let place = index / width * (2 * n - 1) + width - 1 + index % width;
            assert_eq!(raw[place], value);
        }
    }
}

#[test]
fn chunk_roots_are_nodes_of_the_whole() {
    let mut runtime = gpu_runtime();
    // The nodes of level 6 of a tree of 2^9 leaves are the cap entries at height 3.
    let work = runtime.hash_merkle_tree_linear_buf_ho(9, 3, 3, &sizes());
    let (_, caps) = simulate(&work);
    let levels = reference_levels(9);
    assert_eq!(caps, levels[6]);
    for (chunk, &root) in caps.iter().enumerate() {
        let mut nodes: Vec<u64> = (0..64).map(|i| leaf_hash(64 * chunk + i)).collect();
        while nodes.len() > 1 {
            nodes = nodes.chunks(2).map(|c| node_hash(c[0], c[1])).collect();
        }
        assert_eq!(nodes[0], root);
    }
}

/// The digest of a leaf; four elements are a digest themselves.
fn hash_or_noop(leaf: &[u64]) -> HashOut {
    if leaf.len() == 4 {
        HashOut { elements: [leaf[0], leaf[1], leaf[2], leaf[3]] }
    } else {
        digest(leaf.iter().fold(17, |acc, &x| node_hash(acc, x)))
    }
}

/// A tree that the processor builds, and all levels of it.
fn processor_tree(leaves: &[Vec<u64>], cap_height: usize) -> (MerkleTree, Vec<Vec<HashOut>>) {
    let height = leaves.len().trailing_zeros() as usize;
    let mut levels = vec![leaves.iter().map(|l| hash_or_noop(l)).collect::<Vec<HashOut>>()];
    for _ in 0..height {
        let below = levels.last().unwrap();
        let level = below
            .chunks(2)
            .map(|c| digest(node_hash(c[0].elements[0], c[1].elements[0])))
            .collect();
        levels.push(level);
    }
    let layers = height - cap_height;
    let tree_length = 2 * ((1 << layers) - 1);
    let mut digests = vec![HashOut::default(); tree_length << cap_height];
    for level in 0..layers {
        for (i, &d) in levels[level].iter().enumerate() {
            digests[get_node_hash_index_in_digests(layers, tree_length, level, i)] = d;
        }
    }
    let cap = levels[layers].clone();
    let words = leaves.concat();
    (MerkleTree::new_from_fields(words, leaves[0].len(), digests, cap), levels)
}

#[test]
fn chunked_build_gives_the_tree_of_the_processor() {
    let height = 6usize;
    let leaves: Vec<Vec<u64>> = (0..1u64 << height).map(|i| vec![i, 3 * i, 5]).collect();
    for cap_height in [0usize, 2, 5, 6] {
        let (expected, levels) = processor_tree(&leaves, cap_height);
        for chunk_log2 in 0..8usize {
            let mut counters = DispatchCounters::default();
            let mut build = GpuRuntime::new_merkle_tree_chunked_with_root_merge(
                &mut counters,
                &leaves,
                cap_height,
                chunk_log2,
            );
            loop {
                match build.next() {
                    ChunkAction::Whole { leaf_count, cap_height } => {
                        build.on_whole(processor_tree(&leaves[..leaf_count], cap_height).0);
                    }
                    ChunkAction::Chunk { start, end, .. } => {
                        let chunk = processor_tree(&leaves[start..end], 0).0;
                        build.on_chunk(&mut counters, &chunk.cap);
                    }
                    ChunkAction::Upper { leaves: roots, cap_height: upper_cap, .. } => {
                        assert_eq!(build.roots, levels[chunk_log2]);
                        let (upper, upper_levels) = processor_tree(&roots, upper_cap);
                        for (k, level) in upper_levels.iter().enumerate() {
                            assert_eq!(level, &levels[chunk_log2 + k]);
                        }
                        if upper_cap == cap_height {
                            assert_eq!(upper.cap, expected.cap);
                        }
                        build.on_upper(upper.cap.len());
                    }
                    ChunkAction::Final { leaf_count, cap_height } => {
                        let whole = processor_tree(&leaves[..leaf_count], cap_height).0;
                        assert!(build.on_final(whole));
                    }
                    ChunkAction::Done => break,
                }
            }
            let tree = build.into_tree().unwrap();
            assert_eq!(tree.leaves, expected.leaves);
            assert_eq!(tree.leaf_length, 3);
            assert_eq!(tree.digests, expected.digests);
            assert_eq!(tree.digests.len(), (2 * 64 - 1) - (2 * (1 << cap_height) - 1));
            assert_eq!(tree.cap, expected.cap);
        }
    }
}

#[test]
fn parameters_as_words() {
    let mut runtime = hash_runtime();
    let work = runtime.hash_merkle_tree_linear_threadgroup_buf_ho(14, 135, 4, &sizes());
    assert_eq!(work.launches[9].uniforms.words(), vec![9, 2046, 1024, 135, 16384, 16, 128]);
    let sizes = CoalescedSizes { leaves: 32, levels: vec![32; 9], caps: 8 };
    let work = runtime.hash_merkle_tree_coalesced_buf_ho(14, 135, 4, &sizes);
    assert_eq!(
        work.launches[0].uniforms.words(),
        vec![0, 2046, 1024, 135, 16384, 16, 1024, 16384, 0, 0]
    );
    assert_eq!(
        work.launches[2].uniforms.words(),
        vec![2, 2046, 1024, 0, 0, 16, 256, 4096, 0, 0]
    );
}

#[test]
fn cap_launch_reuses_the_last_parameters() {
    let mut runtime = hash_runtime();
    let work = runtime.hash_merkle_tree_linear_threadgroup_buf_ho(14, 135, 4, &sizes());
    assert_eq!(work.launches.len(), 11);
    let last_level = work.launches[9];
    let caps = work.launches[10];
    assert_eq!(last_level.phase, Phase::Level);
    assert_eq!(caps.phase, Phase::Caps);
    assert_eq!(caps.uniforms, last_level.uniforms);
    match caps.uniforms {
        TreeUniforms::Linear(u) => {
            assert_eq!(u.level, 9);
            assert_eq!(u.subtree_digests_len, 2046);
            assert_eq!(u.subtree_leaves_len, 1024);
            assert_eq!(u.leaf_size, 135);
            assert_eq!(u.leaf_count, 16384);
            assert_eq!(u.subtree_count, 16);
            assert_eq!(u.grid_width, 128);
        }
        _ => panic!("linear kernels take linear parameters"),
    }
    // No more threads than cap entries.
    assert_eq!(caps.grid, Grid::Groups(MTLSize { width: 1, height: 1, depth: 1 }));
    assert_eq!(caps.threads_per_group, MTLSize { width: 16, height: 1, depth: 1 });
    assert_eq!(caps.phase.uniforms_index(), 2);
    assert_eq!(caps.phase.flags_index(), 3);
    assert_eq!(last_level.phase.uniforms_index(), 1);
    assert_eq!(last_level.phase.flags_index(), 2);
}

#[test]
fn single_kernel_runs() {
    let mut runtime = gpu_runtime();
    let run = runtime.poseidon_hash_leaves_linear_only(&vec![1; 40], 4, 32);
    assert_eq!(run.output, Allocation::Create { size: 4096 });
    assert_eq!(run.input_offset, None);
    assert_eq!(run.result_offset, 0);
    assert_eq!(run.result_len, 10);
    assert_eq!(run.launch.kernel, Kernel::HashLeavesLinear);
    match run.launch.uniforms {
        TreeUniforms::Linear(u) => {
            assert_eq!(
                (u.level, u.subtree_digests_len, u.subtree_leaves_len, u.leaf_size, u.leaf_count),
                (0, 10, 10, 4, 10)
            );
            assert_eq!((u.subtree_count, u.grid_width), (1, 32));
        }
        _ => panic!("linear kernels take linear parameters"),
    }
    let run = runtime.poseidon_hash_tree_level_linear_only(&vec![1; 80], 10, 8);
    assert_eq!(run.output, Allocation::Create { size: 4096 });
    assert_eq!(run.input_offset, Some(19 * 32));
    assert_eq!(run.result_offset, 9 * 32);
    assert_eq!(run.result_len, 10);
    // The children and their parents are where the kernel puts the lowest two levels.
    for k in 0..20 {
        assert_eq!(kernel_slot(39, 20, 0, k), run.input_offset.unwrap() / 32 + k);
    }
    for k in 0..10 {
        assert_eq!(kernel_slot(39, 20, 1, k), run.result_offset / 32 + k);
    }
    match run.launch.uniforms {
        TreeUniforms::Linear(u) => {
            assert_eq!(
                (u.level, u.subtree_digests_len, u.subtree_leaves_len, u.leaf_size, u.leaf_count),
                (1, 39, 20, 8, 20)
            );
            assert_eq!((u.subtree_count, u.grid_width), (1, 16));
        }
        _ => panic!("linear kernels take linear parameters"),
    }
}

#[test]
fn routes_by_height() {
    let tree = |height: usize| vec![vec![7u64]; 1 << height];
    for (height, cap, linear, threadgroup, recursive) in [
        (3, 1, Route::Cpu, Route::Cpu, Route::Cpu),
        (12, 4, Route::Cpu, Route::Cpu, Route::Cpu),
        (13, 13, Route::Cpu, Route::Cpu, Route::Cpu),
        (13, 4, Route::Device, Route::Device, Route::Device),
        (20, 4, Route::Device, Route::Device, Route::Device),
        (21, 4, Route::Recursive, Route::Cpu, Route::Device),
    ] {
        let leaves = tree(height);
        let r = GpuRuntime::new_merkle_tree_linear(&leaves, cap);
        assert_eq!(r.route, linear);
        assert_eq!(r.tree_height, height);
        assert_eq!(r.leaf_length, 1);
        assert_eq!(r.leaves.is_some(), linear == Route::Device);
        if let Some(words) = r.leaves {
            assert_eq!(words.len(), 1 << height);
        }
        let mut counter = LargeTreeCounter { count: 0 };
        assert_eq!(
            GpuRuntime::new_merkle_tree_linear_threadgroup(&mut counter, &leaves, cap).route,
            threadgroup
        );
        assert_eq!(
            GpuRuntime::new_merkle_tree_coalesced(&mut counter, &leaves, cap).route,
            threadgroup
        );
        assert_eq!(counter.count, if height >= 21 { 2 } else { 0 });
        assert_eq!(GpuRuntime::new_merkle_tree_threadgroup(&leaves, cap).route, recursive);
    }
    for (height, cap, poseidon, route) in [
        (12, 4, true, MerkleRoute::Cpu),
        (13, 4, true, MerkleRoute::LinearThreadgroup),
        (13, 4, false, MerkleRoute::Cpu),
        (16, 16, true, MerkleRoute::Cpu),
        (20, 4, true, MerkleRoute::LinearThreadgroup),
        (21, 4, true, MerkleRoute::Coalesced),
        (25, 4, true, MerkleRoute::Coalesced),
    ] {
        assert_eq!(route_merkle_tree(poseidon, height, cap), route);
    }
}

#[test]
fn leaves_one_after_another() {
    let leaves = vec![vec![1, 2, 3], vec![4, 5, 6]];
    assert_eq!(merkle_tree::concat(&leaves), vec![1, 2, 3, 4, 5, 6]);
    let tree = MerkleTree::new_from_fields(merkle_tree::concat(&leaves), 3, vec![], vec![]);
    assert_eq!(tree.get(0), vec![1, 2, 3]);
    assert_eq!(tree.get(1), vec![4, 5, 6]);
    assert_eq!(merkle_tree::concat(&vec![vec![1], vec![], vec![2, 3]]), vec![1, 2, 3]);
}

#[test]
fn flags_from_the_environment() {
    assert_eq!(tg_flags_from_env(None, None).word(), 1);
    assert_eq!(tg_flags_from_env(Some("0"), None).word(), 0);
    assert_eq!(tg_flags_from_env(Some("0"), Some("1")).word(), 2);
    assert_eq!(tg_flags_from_env(Some("1"), Some("yes")).word(), 3);
    assert_eq!(tg_flags_from_env(Some(""), Some("0")).word(), 1);
    assert_eq!(tg_flags_from_env(Some("00"), Some("")).word(), 3);
}

#[test]
fn tuned_thread_counts() {
    let shape = TreeShape::new(DigestLayout::Heap, 10, 3);
    let mut recipe = Recipe {
        leaves: Kernel::HashLeavesLinear,
        fused: false,
        level: Kernel::HashTreeLevelLinear,
        caps: None,
        memory: MemoryPolicy::Unset,
        uniforms: UniformKind::Linear,
    };
    let counts = tuning_counts(&shape, &recipe);
    assert_eq!((counts.leaves, counts.level, counts.caps), (1024, 1024, 8));
    recipe.fused = true;
    assert_eq!(tuning_counts(&shape, &recipe).leaves, 512);
    let coalesced = coalesced_tuning_counts(&shape);
    assert_eq!(coalesced.leaves, 128);
    assert_eq!(coalesced.levels, vec![64, 32, 16, 8, 4, 2]);
    assert_eq!(coalesced.caps, 8);
}

#[test]
fn shapes_of_trees() {
    let heap = TreeShape::new(DigestLayout::Heap, 10, 3);
    assert_eq!(heap.leaf_count, 1024);
    assert_eq!(heap.num_caps, 8);
    assert_eq!(heap.num_layers, 7);
    assert_eq!(heap.subtree_leaves_len, 128);
    assert_eq!(heap.subtree_digests_len, 255);
    assert_eq!(heap.total_digests, 2 * 1024 - 8);
    let rootless = TreeShape::new(DigestLayout::Rootless, 10, 3);
    assert_eq!(rootless.subtree_digests_len, 254);
    assert_eq!(rootless.total_digests, (2 * 1024 - 1) - (2 * 8 - 1));
}

#[test]
fn large_trees_are_counted() {
    let mut counter = LargeTreeCounter { count: 3 };
    assert_eq!(get_large_tree_count(&counter), 3);
    reset_large_tree_counter(&mut counter);
    assert_eq!(get_large_tree_count(&counter), 0);
    let large = vec![vec![7u64]; 1 << 21];
    GpuRuntime::new_merkle_tree_linear_threadgroup(&mut counter, &large, 4);
    assert_eq!(get_large_tree_count(&counter), 1);
    GpuRuntime::new_merkle_tree_coalesced(&mut counter, &large, 0);
    assert_eq!(get_large_tree_count(&counter), 2);
    GpuRuntime::new_merkle_tree_coalesced(&mut counter, &vec![vec![7u64]; 1 << 12], 0);
    assert_eq!(get_large_tree_count(&counter), 2);
    counter.count = usize::MAX;
    GpuRuntime::new_merkle_tree_linear_threadgroup(&mut counter, &large, 21);
    assert_eq!(get_large_tree_count(&counter), 0);
    reset_large_tree_counter(&mut counter);
    assert_eq!(get_large_tree_count(&counter), 0);
}

#[test]
fn pipelines_run_their_kernels() {
    let r = gpu_runtime();
    let names = [
        (r.get_poseidon_hash_leaves_pipeline_state(), "poseidon_hash_leaves"),
        (r.get_poseidon_hash_tree_level_pipeline_state(), "poseidon_hash_tree_level"),
        (r.get_poseidon_hash_leaves_linear_pipeline_state(), "poseidon_hash_leaves_linear"),
        (
            r.get_poseidon_hash_tree_level_linear_pipeline_state(),
            "poseidon_hash_tree_level_linear",
        ),
        (r.get_poseidon_hash_caps_linear_pipeline_state(), "poseidon_hash_caps_linear"),
        (
            r.get_poseidon_hash_leaves_threadgroup_pipeline_state(),
            "poseidon_hash_leaves_threadgroup",
        ),
        (
            r.get_poseidon_hash_tree_level_threadgroup_pipeline_state(),
            "poseidon_hash_tree_level_threadgroup",
        ),
        (
            r.get_poseidon_hash_leaves_linear_threadgroup_pipeline_state(),
            "poseidon_hash_leaves_linear_threadgroup",
        ),
        (
            r.get_poseidon_hash_leaves_and_level1_linear_threadgroup_pipeline_state(),
            "poseidon_hash_leaves_and_level1_linear_threadgroup",
        ),
        (
            r.get_poseidon_hash_tree_level_linear_threadgroup_pipeline_state(),
            "poseidon_hash_tree_level_linear_threadgroup",
        ),
        (
            r.get_poseidon_hash_caps_linear_threadgroup_pipeline_state(),
            "poseidon_hash_caps_linear_threadgroup",
        ),
        (
            r.get_poseidon_hash_leaves_coalesced_pipeline_state(),
            "poseidon_hash_leaves_coalesced",
        ),
        (
            r.get_poseidon_hash_tree_level_coalesced_pipeline_state(),
            "poseidon_hash_tree_level_coalesced",
        ),
        (r.get_poseidon_hash_caps_coalesced_pipeline_state(), "poseidon_hash_caps_coalesced"),
        (
            r.get_poseidon_hash_tree_level_coalesced_instrumented_pipeline_state(),
            "poseidon_hash_tree_level_coalesced_instrumented",
        ),
    ];
    for (pso, name) in names {
        assert_eq!(pso.kernel.function_name(), name);
        assert_eq!(pso.thread_execution_width, 32);
        assert_eq!(pso.max_total_threads_per_threadgroup, 1024);
    }
    assert_eq!(Kernel::HashLeaves.library(), ShaderLibrary::Base);
    assert_eq!(Kernel::HashCapsCoalesced.library(), ShaderLibrary::Coalesced);
    assert_eq!(ShaderLibrary::Base.file_stem(), "poseidon_merkle_hasher");
    assert_eq!(
        Kernel::HashCapsLinearThreadgroup.library().file_stem(),
        "poseidon_merkle_hasher_linear_threadgroup"
    );
    assert_eq!(r.warm_up(), 123);
    assert_eq!(hash_runtime().warm_up(), 456);
    assert!(r.persistent_buffers_fit(1 << 22));
    assert!(!r.persistent_buffers_fit((1 << 22) + 1));
    assert_eq!(r.get_persistent_buffer_addresses(), (16384, 32768));
    assert_eq!(r.get_persistent_buffers().max_degree_log2(), 22);
}
