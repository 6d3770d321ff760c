use metal_merkle::gpu::metal::buffer_pool::{Buffer, BufferPool};
use metal_merkle::gpu::metal::allocation::Allocation;
use metal_merkle::gpu::metal::coalesced_plan::{coalesced_tuning_counts, CoalescedSizes};
use metal_merkle::gpu::metal::pipeline::{create_pso, Kernel};
use metal_merkle::gpu::metal::plan::{DigestLayout, Grid, GroupSizes, Phase, TreeShape};
use metal_merkle::gpu::metal::utils::HashOut;
use metal_merkle::hash::metal::gpu_thread::{
    dispatch_merkle_coalesced, dispatch_merkle_linear_threadgroup, plan_job, route_merkle_tree,
    JobSizes, MerkleRoute,
};
use metal_merkle::hash::metal::runtime::MetalRuntime;

fn runtime() -> MetalRuntime {
    MetalRuntime {
        pool: BufferPool::new(),
        pso_poseidon_hash_leaves_linear_threadgroup: create_pso(
            Kernel::HashLeavesLinearThreadgroup,
            32,
            1024,
        ),
        pso_poseidon_hash_tree_level_linear_threadgroup: create_pso(
            Kernel::HashTreeLevelLinearThreadgroup,
            32,
            1024,
        ),
        pso_poseidon_hash_caps_linear_threadgroup: create_pso(
            Kernel::HashCapsLinearThreadgroup,
            32,
            1024,
        ),
        pso_poseidon_hash_leaves_coalesced: create_pso(Kernel::HashLeavesCoalesced, 32, 1024),
        pso_poseidon_hash_tree_level_coalesced: create_pso(
            Kernel::HashTreeLevelCoalesced,
            32,
            1024,
        ),
        pso_poseidon_hash_caps_coalesced: create_pso(Kernel::HashCapsCoalesced, 32, 1024),
        pso_poseidon_hash_tree_level_coalesced_instrumented: create_pso(
            Kernel::HashTreeLevelCoalescedInstrumented,
            32,
            1024,
        ),
        init_time: 0,
    }
}

fn buffer_of(allocation: Allocation, address: usize) -> Buffer {
    match allocation {
        Allocation::Pooled(buffer) => buffer,
        Allocation::Create { size } => Buffer { address, length: size },
    }
}

/// Plans the same tree `iterations` times and checks each plan; from the second one on the buffers
/// come from the pool.
fn bench_merkle(
    tree_height: usize,
    leaf_size: usize,
    cap_height: usize,
    iterations: usize,
    route: MerkleRoute,
) {
    let num_leaves = 1usize << tree_height;
    assert_eq!(route_merkle_tree(true, tree_height, cap_height), route);
    let mut runtime = runtime();
    for iteration in 0..iterations {
        let leaves_buffer = Buffer { address: 1, length: num_leaves * leaf_size * 8 };
        let (job, sizes) = match route {
            MerkleRoute::LinearThreadgroup => (
                dispatch_merkle_linear_threadgroup(
                    leaves_buffer,
                    tree_height,
                    leaf_size,
                    cap_height,
                ),
                JobSizes::Linear(GroupSizes { leaves: 256, level: 256, caps: 32 }),
            ),
            _ => {
                let shape = TreeShape::new(DigestLayout::Rootless, tree_height, cap_height);
                let levels = vec![256; coalesced_tuning_counts(&shape).levels.len()];
                (
                    dispatch_merkle_coalesced(leaves_buffer, tree_height, leaf_size, cap_height),
                    JobSizes::Coalesced(CoalescedSizes { leaves: 256, levels, caps: 32 }),
                )
            }
        };
        let work = plan_job(&mut runtime, &job, &sizes);
        let shape = work.shape;
        assert_eq!(shape.leaf_count, num_leaves);
        assert_eq!(shape.num_caps, 1 << cap_height);
        assert_eq!(shape.total_digests, 2 * (num_leaves - (1 << cap_height)));
        // One launch for the leaves, one for each inner level, one for the cap.
        assert_eq!(work.launches.len(), tree_height - cap_height + 1);
        for (level, launch) in work.launches.iter().enumerate() {
            let threads = match launch.grid {
                Grid::Groups(g) => g.width * g.height * launch.threads_per_group.width,
                Grid::Threads(t) => t.width * t.height,
            };
            let nodes = match launch.phase {
                Phase::Caps => 1 << cap_height,
                _ => num_leaves >> level,
            };
            assert!(threads >= nodes as u64);
        }
        let pooled = 2 * iteration;
        assert_eq!(work.digests.from_pool(), iteration > 0);
        assert_eq!(work.clear_digests.is_none(), iteration > 0);
        assert_eq!(runtime.pool.stats().0, pooled);
        let d = buffer_of(work.digests, 1);
        let c = buffer_of(work.caps.unwrap(), 2);
        assert!(d.length >= shape.total_digests * 32);
        assert!(c.length >= shape.num_caps * 32);
        runtime.return_tracked_buffer(d);
        runtime.return_tracked_buffer(c);
    }
}

/// Height 20 (1M leaves)
#[test]
fn bench_merkle_height_20() {
    bench_merkle(20, 135, 4, 3, MerkleRoute::LinearThreadgroup);
}

/// Height 21 (2M leaves)
#[test]
fn bench_merkle_height_21() {
    bench_merkle(21, 135, 4, 3, MerkleRoute::Coalesced);
}

/// Height 22 (4M leaves)
#[test]
fn bench_merkle_height_22() {
    bench_merkle(22, 135, 4, 2, MerkleRoute::Coalesced);
}

/// The trees of a proof for a circuit of degree `2^degree_bits`, at rate 1/8 with caps of height 4.
fn bench_degree(degree_bits: usize) {
    let iterations = if degree_bits <= 17 { 3 } else { 2 };
    let tree_height = degree_bits + 3;
    let route = if tree_height <= 20 {
        MerkleRoute::LinearThreadgroup
    } else {
        MerkleRoute::Coalesced
    };
    bench_merkle(tree_height, 135, 4, iterations, route);
    // FRI folds the first tree by 2^4 until trees are too small for the device.
    let mut height = tree_height;
    while height >= 4 + 4 {
        height -= 4;
        let route = route_merkle_tree(true, height, 4);
        assert_eq!(route == MerkleRoute::Cpu, height < 13 || height == 4);
    }
}

#[test]
fn fast_d13() {
    bench_degree(13);
}

#[test]
fn fast_d14() {
    bench_degree(14);
}

#[test]
fn fast_d15() {
    bench_degree(15);
}

#[test]
fn fast_d16() {
    bench_degree(16);
}

#[test]
fn fast_d17() {
    bench_degree(17);
}

#[test]
fn full_d13() {
    bench_degree(13);
}

#[test]
fn full_d14() {
    bench_degree(14);
}

#[test]
fn full_d15() {
    bench_degree(15);
}

#[test]
fn full_d16() {
    bench_degree(16);
}

#[test]
fn full_d17() {
    bench_degree(17);
}

#[test]
fn full_d18() {
    bench_degree(18);
}

#[test]
fn full_d19() {
    bench_degree(19);
}

#[test]
fn full_d20() {
    bench_degree(20);
}

#[test]
fn digests_default_to_zero() {
    assert_eq!(HashOut::default().elements, [0; 4]);
}
