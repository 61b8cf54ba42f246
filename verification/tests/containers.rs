//! Roots, branches and multiproofs of whole containers.

use ethereum_hashing::hash32_concat;
use tree_hash::multiproof::{
    calculate_multi_merkle_root, get_helper_indices, validate_indices, verify_merkle_multiproof,
};
use tree_hash::spine::{level_size, level_start};
use tree_hash::tree::{binary_tree, tree_root};
use tree_hash::{
    field_index_for_gindex, generate_multiproof, is_valid_merkle_branch,
    progressive_container_depth, progressive_container_gindex, progressive_container_proof,
    progressive_container_root, progressive_root, BalancedFieldRoots, Error, Hash256,
    BYTES_PER_CHUNK,
};

/// A hasher that takes one chunk after another and keeps only what it needs for the root: the roots
/// of the finished levels, and the finished subtrees of the level being filled.
struct ProgressiveMerkleHasher {
    levels: Vec<[u8; 32]>,
    pending: Vec<(usize, [u8; 32])>,
    filled: usize,
}

impl ProgressiveMerkleHasher {
    fn new() -> Self {
        ProgressiveMerkleHasher { levels: Vec::new(), pending: Vec::new(), filled: 0 }
    }

    fn write(&mut self, chunk: &[u8]) {
        let mut bytes = [0u8; 32];
        bytes.copy_from_slice(chunk);
        self.push(0, bytes);
        self.filled += 1;
        if self.filled == 1 << (2 * self.levels.len()) {
            self.close_level();
        }
    }

    /// Add a finished subtree, joining it with the one before while both are equally high.
    fn push(&mut self, height: usize, node: [u8; 32]) {
        let mut height = height;
        let mut node = node;
        while let Some((top, left)) = self.pending.last().copied() {
            if top != height {
                break;
            }
            self.pending.pop();
            node = hash32_concat(&left, &node);
            height += 1;
        }
        self.pending.push((height, node));
    }

    fn close_level(&mut self) {
        let (_, root) = self.pending.pop().expect("the level holds a chunk");
        assert!(self.pending.is_empty());
        self.levels.push(root);
        self.filled = 0;
    }

    fn finish(mut self) -> Hash256 {
        let depth = 2 * self.levels.len();
        let mut zeros = vec![[0u8; 32]];
        for height in 0..depth {
            zeros.push(hash32_concat(&zeros[height], &zeros[height]));
        }
        if self.filled > 0 {
            while let Some((height, _)) = self.pending.last().copied() {
                if height == depth {
                    break;
                }
                self.push(height, zeros[height]);
            }
            self.close_level();
        }
        let mut root = [0u8; 32];
        for level in self.levels.iter().rev() {
            root = hash32_concat(level, &root);
        }
        Hash256::from(root)
    }
}

/// Distinct, non-zero field roots so a misordered branch cannot pass by accident.
fn field_roots(n: usize) -> Vec<Hash256> {
    (0..n)
        .map(|i| {
            let mut bytes = [0u8; 32];
            bytes[0..8].copy_from_slice(&((i as u64) + 1).to_le_bytes());
            Hash256::from(bytes)
        })
        .collect()
}

fn active_fields(n: usize) -> [u8; BYTES_PER_CHUNK] {
    let mut bytes = [0u8; BYTES_PER_CHUNK];
    for i in 0..n {
        bytes[i / 8] |= 1 << (i % 8);
    }
    bytes
}

/// The library rebuilds the tree that a streaming hasher never holds. If the two ever disagreed,
/// proofs would verify against a root that the hasher never produces.
#[test]
fn root_agrees_with_the_streaming_hasher() {
    for n in 1..=130 {
        let roots = field_roots(n);

        let mut hasher = ProgressiveMerkleHasher::new();
        for root in &roots {
            hasher.write(root.as_slice());
        }
        let streamed = hasher.finish();

        assert_eq!(
            progressive_root(&roots),
            streamed,
            "rebuilt tree disagrees with the hasher for {n} fields"
        );
    }
}

/// If one index is an ancestor of another, the descendant's leaf is never hashed into the root, so
/// any value would pass for it.
#[test]
fn overlapping_indices_are_rejected() {
    let leaf = Hash256::repeat_byte(1);
    let garbage = Hash256::repeat_byte(0xff);

    // ancestor / descendant
    assert_eq!(
        calculate_multi_merkle_root(&[leaf, garbage], &[], &[2, 5]),
        Err(Error::OverlappingIndices { ancestor: 2, descendant: 5 })
    );
    // the root itself as an index
    assert_eq!(
        calculate_multi_merkle_root(&[leaf, garbage], &[], &[1, 4]),
        Err(Error::OverlappingIndices { ancestor: 1, descendant: 4 })
    );
    // duplicates
    assert_eq!(
        calculate_multi_merkle_root(&[garbage, leaf], &[], &[4, 4]),
        Err(Error::DuplicateIndex { gindex: 4 })
    );
    // index 0 addresses no node
    assert_eq!(
        calculate_multi_merkle_root(&[garbage, leaf], &[], &[0, 4]),
        Err(Error::ZeroIndex)
    );
}

/// The ceiling must follow the target's pointer width, not a constant derived from `u64`.
/// With 32 bits the shift runs out at level 16, with 64 bits at level 32.
#[test]
fn level_size_stops_at_the_target_width() {
    let last = (usize::BITS / 2) as usize;
    assert!(level_size(last - 1).is_some(), "level {} should fit", last - 1);
    assert_eq!(level_size(last), None, "level {last} should not fit");
    assert_eq!(level_size(usize::MAX), None);
}

/// Index 0 is looked for before anything else, wherever it stands.
#[test]
fn a_zero_index_is_rejected_in_any_position() {
    for indices in [vec![0, 4], vec![4, 0], vec![4, 0, 8], vec![4, 8, 0], vec![0]] {
        assert_eq!(validate_indices(&indices), Err(Error::ZeroIndex), "{indices:?}");
    }

    let leaf = Hash256::repeat_byte(1);
    assert_eq!(
        calculate_multi_merkle_root(&[leaf, leaf], &[], &[4, 0]),
        Err(Error::ZeroIndex)
    );
    assert_eq!(
        generate_multiproof(&BalancedFieldRoots::new(vec![leaf]), &[4, 0]),
        Err(Error::ZeroIndex)
    );
}

/// Indices at mixed depths that do not overlap must still be accepted.
#[test]
fn mixed_depth_indices_are_accepted() {
    assert_eq!(validate_indices(&[2, 6]), Ok(()));
    assert_eq!(validate_indices(&[4, 6]), Ok(()));
}

/// The deepest level that fits both a `usize` field index and a `u64` gindex is reachable from both
/// directions, and the level past it refused by both. On a 64 bit host that is level 20 (the `u64`
/// gindex runs out first); on a 32 bit one it is level 15.
#[test]
fn the_top_level_round_trips() {
    let mut level = 0;
    while level_start(level + 1)
        .and_then(progressive_container_gindex)
        .is_some()
    {
        level += 1;
    }
    let first = level_start(level).expect("the top level has a start");
    let last = level_start(level + 1)
        .map(|next| next - 1)
        .unwrap_or_else(|| first + level_size(level).unwrap() - 1);
    for field in [first, last] {
        let gindex = progressive_container_gindex(field).expect("top level fits");
        assert_eq!(field_index_for_gindex(gindex), Some(field), "level {level}");
        assert_eq!(progressive_container_depth(field), Some(3 * level + 2));
    }
    // The level above is refused from both directions, and depth agrees with gindex there too.
    if let Some(next) = level_start(level + 1) {
        assert_eq!(progressive_container_gindex(next), None);
        assert_eq!(progressive_container_depth(next), None);
    }
    assert!(level >= 15, "at least level 15 must fit on every supported target");
}

/// Inactive positions must hold zero roots.
#[test]
fn a_non_zero_root_at_an_inactive_field_is_rejected() {
    let mut roots = field_roots(6);
    let mut active = active_fields(6);
    active[0] &= !(1 << 2);

    // Zero at the inactive position is the canonical state and is accepted.
    roots[2] = Hash256::zero();
    assert!(progressive_container_root(&roots, active).is_ok());
    assert!(progressive_container_proof(&roots, active, 3).is_ok());

    roots[2] = Hash256::repeat_byte(0xaa);
    assert_eq!(
        progressive_container_root(&roots, active),
        Err(Error::InactiveFieldNotZero { index: 2 })
    );
    assert_eq!(
        progressive_container_proof(&roots, active, 3),
        Err(Error::InactiveFieldNotZero { index: 2 })
    );
}

/// `calculate_multi_merkle_root` returns `Ok` for a tampered leaf, since tampering is never
/// structurally invalid. `verify_merkle_multiproof` compares the root.
#[test]
fn verify_merkle_multiproof_compares_the_root() {
    let roots = field_roots(8);
    let balanced = BalancedFieldRoots::new(roots.clone());
    let root = tree_root(&binary_tree(&roots, 8));
    let indices = [8 + 1, 8 + 6];
    let proof = generate_multiproof(&balanced, &indices).unwrap();

    assert!(verify_merkle_multiproof(
        &[roots[1], roots[6]],
        &proof,
        &indices,
        root
    ));

    // A tampered leaf still yields `Ok` from the calculator, and `false` from the verifier.
    let tampered = [roots[2], roots[6]];
    assert!(calculate_multi_merkle_root(&tampered, &proof, &indices).is_ok());
    assert!(!verify_merkle_multiproof(&tampered, &proof, &indices, root));

    // Malformed input is `false`, not a panic.
    assert!(!verify_merkle_multiproof(
        &[roots[1]],
        &proof,
        &indices,
        root
    ));
    assert!(!verify_merkle_multiproof(
        &[roots[1], roots[6]],
        &proof[1..],
        &indices,
        root
    ));
}

/// Sibling indices at the same depth do not overlap.
#[test]
fn sibling_indices_are_still_accepted() {
    let roots = field_roots(16);
    let tree = binary_tree(&roots, 16);
    let root = *tree.last().unwrap().first().unwrap();
    let indices = [16 + 2, 16 + 8, 16 + 9];

    let proof = generate_multiproof(&BalancedFieldRoots::new(roots.clone()), &indices).unwrap();
    assert_eq!(proof.len(), get_helper_indices(&indices).len());
    assert_eq!(
        calculate_multi_merkle_root(&[roots[2], roots[8], roots[9]], &proof, &indices).unwrap(),
        root
    );
}

/// Gindex 3 is the `active_fields` leaf, not field 0.
#[test]
fn the_active_fields_leaf_is_not_a_field() {
    assert_eq!(field_index_for_gindex(3), None);
    assert_eq!(field_index_for_gindex(2), None);
    // and the real fields still invert
    assert_eq!(field_index_for_gindex(367), Some(20));
    assert_eq!(field_index_for_gindex(2947), Some(24));
}

/// Out of range indices are simply refused.
#[test]
fn out_of_range_indices_do_not_panic_or_hang() {
    assert_eq!(progressive_container_gindex(usize::MAX), None);
    assert_eq!(progressive_container_depth(usize::MAX), None);
    assert_eq!(field_index_for_gindex(u64::MAX), None);
    assert_eq!(field_index_for_gindex(1u64 << 62), None);

    // the boundary either resolves or refuses, but never wraps
    for i in [357_913_941usize, 1 << 40, usize::MAX / 2] {
        let _ = progressive_container_gindex(i);
        let _ = progressive_container_depth(i);
    }
}

#[test]
fn levels_start_where_the_spine_says() {
    assert_eq!(level_start(0), Some(0));
    assert_eq!(level_start(1), Some(1));
    assert_eq!(level_start(2), Some(5));
    assert_eq!(level_start(3), Some(21));
    assert_eq!(level_start(4), Some(85));
}

#[test]
fn gindices_match_the_gloas_beacon_state() {
    // Fields of the 46 field Gloas `BeaconState`.
    assert_eq!(progressive_container_gindex(20), Some(367));
    assert_eq!(progressive_container_gindex(23), Some(2946));
    assert_eq!(progressive_container_gindex(24), Some(2947));

    // The depths are ragged.
    assert_eq!(progressive_container_depth(20), Some(8));
    assert_eq!(progressive_container_depth(23), Some(11));
    assert_eq!(progressive_container_depth(24), Some(11));
}

#[test]
fn gindex_depth_agrees_with_branch_length() {
    for i in 0..200 {
        assert_eq!(
            progressive_container_gindex(i).unwrap().ilog2() as usize,
            progressive_container_depth(i).unwrap(),
            "field {i}"
        );
    }
}

#[test]
fn every_field_proves_against_the_root() {
    let roots = field_roots(46);
    let active = active_fields(46);
    let root = progressive_container_root(&roots, active).unwrap();

    for i in 0..roots.len() {
        let branch = progressive_container_proof(&roots, active, i).unwrap();
        assert_eq!(branch.len(), progressive_container_depth(i).unwrap(), "field {i}");
        assert!(
            is_valid_merkle_branch(roots[i], &branch, progressive_container_gindex(i).unwrap(), root),
            "field {i} failed to verify"
        );
    }
}

#[test]
fn proofs_hold_across_container_sizes() {
    for n in 1..=100 {
        let roots = field_roots(n);
        let active = active_fields(n);
        let root = progressive_container_root(&roots, active).unwrap();

        for i in 0..n {
            let branch = progressive_container_proof(&roots, active, i).unwrap();
            assert!(
                is_valid_merkle_branch(roots[i], &branch, progressive_container_gindex(i).unwrap(), root),
                "container of {n} fields, field {i}"
            );
        }
    }
}

#[test]
fn a_tampered_leaf_is_rejected() {
    let roots = field_roots(46);
    let active = active_fields(46);
    let root = progressive_container_root(&roots, active).unwrap();

    let branch = progressive_container_proof(&roots, active, 24).unwrap();
    let gindex = progressive_container_gindex(24).unwrap();

    assert!(is_valid_merkle_branch(roots[24], &branch, gindex, root));
    assert!(!is_valid_merkle_branch(roots[23], &branch, gindex, root));
}

#[test]
fn a_tampered_branch_is_rejected() {
    let roots = field_roots(46);
    let active = active_fields(46);
    let root = progressive_container_root(&roots, active).unwrap();
    let gindex = progressive_container_gindex(24).unwrap();

    let mut branch = progressive_container_proof(&roots, active, 24).unwrap();
    branch[0] = Hash256::zero();
    assert!(!is_valid_merkle_branch(roots[24], &branch, gindex, root));

    // Swapping two siblings keeps the length but breaks the path.
    let mut branch = progressive_container_proof(&roots, active, 24).unwrap();
    branch.swap(0, 1);
    assert!(!is_valid_merkle_branch(roots[24], &branch, gindex, root));
}

#[test]
fn a_branch_from_the_wrong_field_is_rejected() {
    let roots = field_roots(46);
    let active = active_fields(46);
    let root = progressive_container_root(&roots, active).unwrap();

    // Field 23 and 24 are siblings at the same depth, so this is not caught by length alone.
    let branch = progressive_container_proof(&roots, active, 23).unwrap();
    assert!(!is_valid_merkle_branch(
        roots[24],
        &branch,
        progressive_container_gindex(24).unwrap(),
        root
    ));
}

#[test]
fn active_fields_are_bound_to_the_root() {
    let roots = field_roots(46);

    // Two containers differing only by trailing zero leaves inside one spine level have the same
    // spine, so a mask that does not match the field count is refused.
    assert_eq!(
        progressive_container_proof(&roots, active_fields(45), 24),
        Err(Error::NonCanonicalActiveFields { highest_set: Some(44), fields: 46 })
    );
    assert_eq!(
        progressive_container_root(&roots, active_fields(45)),
        Err(Error::NonCanonicalActiveFields { highest_set: Some(44), fields: 46 })
    );
    // An over-long mask is refused from the other side too.
    assert!(progressive_container_root(&roots, active_fields(47)).is_err());
    // The matching mask is accepted.
    assert!(progressive_container_root(&roots, active_fields(46)).is_ok());
}

#[test]
fn gindex_inversion_round_trips() {
    for i in 0..200 {
        let gindex = progressive_container_gindex(i).unwrap();
        assert_eq!(field_index_for_gindex(gindex), Some(i), "field {i}");
    }
    // Fields of the Gloas beacon state.
    assert_eq!(field_index_for_gindex(367), Some(20));
    assert_eq!(field_index_for_gindex(2946), Some(23));
    assert_eq!(field_index_for_gindex(2947), Some(24));
    assert_eq!(field_index_for_gindex(0), None);
    assert_eq!(field_index_for_gindex(1), None);
}

/// Generation and verification agree.
#[test]
fn generated_multiproofs_verify() {
    let roots = field_roots(16);
    let tree = binary_tree(&roots, 16);
    let root = *tree.last().unwrap().first().unwrap();

    // Three fields of one container.
    let indices = [16 + 2, 16 + 8, 16 + 9];
    let picked = [roots[2], roots[8], roots[9]];

    let proof = generate_multiproof(&BalancedFieldRoots::new(roots.clone()), &indices).unwrap();
    assert_eq!(
        calculate_multi_merkle_root(&picked, &proof, &indices).unwrap(),
        root
    );
}

#[test]
fn generated_multiproofs_verify_across_subsets() {
    let roots = field_roots(16);
    let tree = binary_tree(&roots, 16);
    let root = *tree.last().unwrap().first().unwrap();

    for mask in 1u32..(1 << 8) {
        let picked: Vec<usize> = (0..8).filter(|i| mask & (1 << i) != 0).collect();
        let indices: Vec<u64> = picked.iter().map(|i| 16 + *i as u64).collect();
        let values: Vec<Hash256> = picked.iter().map(|i| roots[*i]).collect();

        let proof = generate_multiproof(&BalancedFieldRoots::new(roots.clone()), &indices).unwrap();
        assert_eq!(
            calculate_multi_merkle_root(&values, &proof, &indices).unwrap(),
            root,
            "subset {mask:08b}"
        );
    }
}

/// Read the node at `gindex` out of a bottom up binary tree.
fn node_at(tree: &[Vec<Hash256>], gindex: u64) -> Hash256 {
    let depth = gindex.ilog2() as usize;
    let total = tree.len() - 1;
    tree[total - depth][(gindex - (1 << depth)) as usize]
}

/// A balanced 16 leaf container.
fn fixture() -> (Vec<Hash256>, Vec<Vec<Hash256>>, Hash256) {
    let leaves = field_roots(16);
    let tree = binary_tree(&leaves, 16);
    let root = *tree.last().unwrap().first().unwrap();
    (leaves, tree, root)
}

#[test]
fn a_single_index_recomputes_the_root() {
    let (leaves, tree, root) = fixture();
    let index = 16 + 5;

    let helpers = get_helper_indices(&[index]);
    let proof: Vec<Hash256> = helpers.iter().map(|g| node_at(&tree, *g)).collect();

    assert_eq!(
        calculate_multi_merkle_root(&[leaves[5]], &proof, &[index]).unwrap(),
        root
    );
}

/// Three fields of one container proven together.
#[test]
fn three_indices_recompute_the_root() {
    let (leaves, tree, root) = fixture();
    let indices = [16 + 2, 16 + 8, 16 + 9];
    let picked = [leaves[2], leaves[8], leaves[9]];

    let helpers = get_helper_indices(&indices);
    let proof: Vec<Hash256> = helpers.iter().map(|g| node_at(&tree, *g)).collect();

    assert_eq!(
        calculate_multi_merkle_root(&picked, &proof, &indices).unwrap(),
        root
    );
}

/// Sibling leaves share a parent, so the shared node must not be sent twice.
#[test]
fn sibling_indices_do_not_duplicate_helpers() {
    let (leaves, tree, root) = fixture();
    let indices = [16 + 8, 16 + 9];

    let helpers = get_helper_indices(&indices);
    assert!(!helpers.contains(&(16 + 8)));
    assert!(!helpers.contains(&(16 + 9)));

    let proof: Vec<Hash256> = helpers.iter().map(|g| node_at(&tree, *g)).collect();
    assert_eq!(
        calculate_multi_merkle_root(&[leaves[8], leaves[9]], &proof, &indices).unwrap(),
        root
    );
}

#[test]
fn every_index_subset_recomputes_the_root() {
    let (leaves, tree, root) = fixture();

    // Exhaustive over all non-empty subsets of a 4 leaf prefix, plus a wider sweep.
    for mask in 1u32..(1 << 8) {
        let picked: Vec<usize> = (0..8).filter(|i| mask & (1 << i) != 0).collect();
        let indices: Vec<u64> = picked.iter().map(|i| 16 + *i as u64).collect();
        let values: Vec<Hash256> = picked.iter().map(|i| leaves[*i]).collect();

        let helpers = get_helper_indices(&indices);
        let proof: Vec<Hash256> = helpers.iter().map(|g| node_at(&tree, *g)).collect();

        assert_eq!(
            calculate_multi_merkle_root(&values, &proof, &indices).unwrap(),
            root,
            "subset {mask:08b}"
        );
    }
}

#[test]
fn a_tampered_leaf_does_not_reach_the_root() {
    let (leaves, tree, root) = fixture();
    let indices = [16 + 2, 16 + 8];

    let helpers = get_helper_indices(&indices);
    let proof: Vec<Hash256> = helpers.iter().map(|g| node_at(&tree, *g)).collect();

    let wrong = calculate_multi_merkle_root(&[leaves[3], leaves[8]], &proof, &indices)
        .unwrap();
    assert_ne!(wrong, root);
}

#[test]
fn mismatched_lengths_are_rejected() {
    let (leaves, tree, _) = fixture();
    let indices = [16 + 2, 16 + 8];
    let helpers = get_helper_indices(&indices);
    let proof: Vec<Hash256> = helpers.iter().map(|g| node_at(&tree, *g)).collect();

    assert_eq!(
        calculate_multi_merkle_root(&[leaves[2]], &proof, &indices),
        Err(Error::LeafCountMismatch { leaves: 1, indices: 2 })
    );
    assert_eq!(
        calculate_multi_merkle_root(&[leaves[2], leaves[8]], &proof[1..], &indices),
        Err(Error::ProofCountMismatch {
            proof: proof.len() - 1,
            expected: proof.len()
        })
    );
}

#[test]
fn out_of_bounds_fields_are_rejected() {
    let roots = field_roots(46);
    let active = active_fields(46);

    assert_eq!(
        progressive_container_proof(&roots, active, 46),
        Err(Error::FieldIndexOutOfBounds { index: 46, len: 46 })
    );
    assert_eq!(
        progressive_container_proof(&[], active, 0),
        Err(Error::NoFields)
    );
}
