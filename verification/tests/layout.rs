use metal_merkle::bits;
use metal_merkle::gpu::metal::utils::{
    convert_linear_to_recursive, get_node_hash_index_in_digests, get_size_for_count,
    AccessCounters, HashOut, MAX_GRID_DIM,
};
use metal_merkle::hash::metal::utils::{
    CoalescedUniforms, LinearUniforms, POSEIDON_CONST_SIZE, POSEIDON_MDS_SIZE, POSEIDON_RC_SIZE,
};
use metal_merkle::launch::{group_count, MTLSize};

fn digest(v: u64) -> HashOut {
    HashOut { elements: [v, v + 1, v + 2, v + 3] }
}

#[test]
fn test_coalesced_uniforms_size() {
    assert_eq!(std::mem::size_of::<CoalescedUniforms>(), 40);
}

#[test]
fn test_linear_uniforms_size() {
    assert_eq!(std::mem::size_of::<LinearUniforms>(), 28);
}

#[test]
fn access_counters_start_at_zero() {
    assert_eq!(std::mem::size_of::<AccessCounters>(), 8);
    assert_eq!(
        AccessCounters::default(),
        AccessCounters { total_accesses: 0, sequential_accesses: 0 }
    );
}

#[test]
fn constant_sizes() {
    assert_eq!(POSEIDON_RC_SIZE, 360 * 8);
    assert_eq!(POSEIDON_MDS_SIZE, 12 * 8);
    assert_eq!(POSEIDON_CONST_SIZE, POSEIDON_RC_SIZE + POSEIDON_MDS_SIZE);
}

#[test]
fn grids_cover_their_count() {
    assert_eq!(get_size_for_count(0), MTLSize { width: 0, height: 1, depth: 1 });
    assert_eq!(get_size_for_count(1), MTLSize { width: 1, height: 1, depth: 1 });
    assert_eq!(get_size_for_count(32768), MTLSize { width: 32768, height: 1, depth: 1 });
    assert_eq!(get_size_for_count(32769), MTLSize { width: 32768, height: 2, depth: 1 });
    assert_eq!(get_size_for_count(65536), MTLSize { width: 32768, height: 2, depth: 1 });
    assert_eq!(get_size_for_count(65537), MTLSize { width: 32768, height: 3, depth: 1 });
    for count in (1..200_000).step_by(777) {
        let s = get_size_for_count(count);
        assert!(s.width * s.height >= count as u64);
        assert!(s.width <= MAX_GRID_DIM as u64);
        assert!(s.width * (s.height - 1) < count as u64);
    }
}

#[test]
fn groups_cover_their_threads() {
    assert_eq!(group_count(0, 32), 0);
    assert_eq!(group_count(1, 32), 1);
    assert_eq!(group_count(32, 32), 1);
    assert_eq!(group_count(33, 32), 2);
}

#[test]
fn indices_of_a_subtree_of_three_layers() {
    // Leaves come in sibling pairs at every fourth place, their parents in between.
    let leaves: Vec<usize> =
        (0..8).map(|i| get_node_hash_index_in_digests(3, 14, 0, i)).collect();
    assert_eq!(leaves, vec![0, 1, 4, 5, 8, 9, 12, 13]);
    let parents: Vec<usize> =
        (0..4).map(|i| get_node_hash_index_in_digests(3, 14, 1, i)).collect();
    assert_eq!(parents, vec![2, 3, 10, 11]);
    let top: Vec<usize> = (0..2).map(|i| get_node_hash_index_in_digests(3, 14, 2, i)).collect();
    assert_eq!(top, vec![6, 7]);
    // The second subtree follows the first.
    assert_eq!(get_node_hash_index_in_digests(3, 14, 0, 8), 14);
    assert_eq!(get_node_hash_index_in_digests(3, 14, 2, 3), 21);
}

#[test]
fn every_place_holds_one_node() {
    for layers in 1..8usize {
        let slots = 2 * ((1 << layers) - 1);
        for caps in [1usize, 2, 4] {
            let mut seen = vec![0; slots * caps];
            for level in 0..layers {
                for index in 0..(caps << (layers - level)) {
                    let i = get_node_hash_index_in_digests(layers, slots, level, index);
                    seen[i] += 1;
                }
            }
            assert!(seen.iter().all(|&n| n == 1));
        }
    }
}

#[test]
fn conversion_moves_every_node() {
    let layers = 4usize;
    let caps = 4usize;
    let n = 1usize << layers;
    let slots = 2 * (n - 1);
    let linear: Vec<HashOut> =
        (0..(2 * n - 1) * caps).map(|i| digest(100 + 10 * i as u64)).collect();
    for tree_length in [slots, slots + 1] {
        let result = convert_linear_to_recursive(&linear, layers, tree_length, caps);
        assert_eq!(result.len(), tree_length * caps);
        for t in 0..caps {
            for level in 0..layers {
                let width = n >> level;
                for position in 0..width {
                    let place = get_node_hash_index_in_digests(
                        layers,
                        tree_length,
                        level,
                        t * width + position,
                    );
                    let source = t * (2 * n - 1) + width - 1 + position;
                    assert_eq!(result[place], linear[source]);
                }
            }
            for place in slots..tree_length {
                assert_eq!(result[t * tree_length + place], HashOut::default());
            }
        }
    }
}

#[test]
fn conversion_of_missing_digests_leaves_zero() {
    let linear: Vec<HashOut> = (0..5).map(|i| digest(10 * (i as u64 + 1))).collect();
    // The last two of the four leaves are missing.
    let result = convert_linear_to_recursive(&linear, 2, 6, 1);
    assert_eq!(result[0], linear[3]);
    assert_eq!(result[1], linear[4]);
    assert_eq!(result[2], linear[1]);
    assert_eq!(result[3], linear[2]);
    assert_eq!(result[4], HashOut::default());
    assert_eq!(result[5], HashOut::default());
}

#[test]
fn conversion_of_overlapping_subtrees_keeps_the_last() {
    // Two subtrees of two places each, one place apart.
    let linear: Vec<HashOut> = (0..6).map(|i| digest(10 * (i as u64 + 1))).collect();
    let result = convert_linear_to_recursive(&linear, 1, 1, 2);
    assert_eq!(result, vec![linear[1], linear[4]]);
}

#[test]
fn conversion_of_single_leaves() {
    let linear: Vec<HashOut> = (0..3).map(|i| digest(10 * (i as u64 + 1))).collect();
    assert_eq!(convert_linear_to_recursive(&linear, 0, 1, 3), linear);
    assert_eq!(convert_linear_to_recursive(&linear, 0, 0, 3), vec![]);
}

#[test]
fn bits_of_numbers() {
    assert_eq!(bits::trailing_zeros(1), 0);
    assert_eq!(bits::trailing_zeros(24), 3);
    assert!(bits::is_power_of_two(1));
    assert!(bits::is_power_of_two(4096));
    assert!(!bits::is_power_of_two(0));
    assert!(!bits::is_power_of_two(12));
    assert_eq!(bits::log2_strict(1 << 20), 20);
    assert_eq!(bits::next_power_of_two(0), 1);
    assert_eq!(bits::next_power_of_two(5), 8);
    assert_eq!(bits::next_power_of_two(8), 8);
    assert_eq!(bits::reverse_bits(0b0011, 4), 0b1100);
    assert_eq!(bits::reverse_bits(0b1_0011, 4), 0b1100);
    assert_eq!(bits::reverse_bits(5, 0), 0);
    for i in 0..64 {
        assert_eq!(bits::reverse_bits(bits::reverse_bits(i, 6), 6), i);
    }
}
