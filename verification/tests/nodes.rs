//! Exact values: nodes, roots, branches, helper indices and error messages.

use tree_hash::multiproof::{calculate_multi_merkle_root, get_helper_indices, validate_indices};
use tree_hash::spine::{level_gindex, level_size, level_start, locate};
use tree_hash::tree::{binary_tree, tree_root};
use tree_hash::{
    field_index_for_gindex, generate_multiproof, is_valid_merkle_branch, mix_in_active_fields,
    progressive_container_depth, progressive_container_gindex, progressive_container_proof,
    progressive_container_root, progressive_root, BalancedFieldRoots, Error, Hash256,
    BYTES_PER_CHUNK,
};

fn numbered(i: u64) -> Hash256 {
    let mut bytes = [0u8; 32];
    bytes[0..8].copy_from_slice(&(i + 1).to_le_bytes());
    Hash256::from(bytes)
}

fn numbered_roots(n: u64) -> Vec<Hash256> {
    (0..n).map(numbered).collect()
}

fn mask(n: usize) -> [u8; BYTES_PER_CHUNK] {
    let mut bytes = [0u8; BYTES_PER_CHUNK];
    for i in 0..n {
        bytes[i / 8] |= 1 << (i % 8);
    }
    bytes
}

fn hex(node: Hash256) -> String {
    node.as_slice().iter().map(|byte| format!("{byte:02x}")).collect()
}

#[test]
fn nodes_hold_their_bytes() {
    assert_eq!(Hash256::zero(), Hash256([0u8; 32]));
    assert_eq!(Hash256::repeat_byte(0xab), Hash256([0xab; 32]));
    assert_eq!(Hash256::from([7u8; 32]).as_slice(), &[7u8; 32]);
    assert_ne!(numbered(0), numbered(1));
    let mut bytes = [0u8; 32];
    bytes[31] = 1;
    assert_ne!(Hash256::from(bytes), Hash256::zero());
}

#[test]
fn the_parent_of_two_nodes_is_their_digest() {
    assert_eq!(
        hex(mix_in_active_fields(&Hash256::zero(), [0u8; 32])),
        "f5a5fd42d16a20302798ef6ed309979b43003d2320d9f0e8ea9831a92759fb4b"
    );
    assert_eq!(
        hex(mix_in_active_fields(&numbered(0), numbered(1).0)),
        "ff55c97976a840b4ced964ed49e3794594ba3f675238b5fd25d282b60f70a194"
    );
    assert_ne!(
        mix_in_active_fields(&numbered(1), numbered(0).0),
        mix_in_active_fields(&numbered(0), numbered(1).0)
    );
}

#[test]
fn progressive_roots_have_their_exact_values() {
    for (n, expected) in [
        (0, "0000000000000000000000000000000000000000000000000000000000000000"),
        (1, "16abab341fb7f370e27e4dadcf81766dd0dfd0ae64469477bb2cf6614938b2af"),
        (2, "95c4815a148264385a99b2fb3126bf07af792f9620b68c3ad410ecebf5c15f23"),
        (6, "0ee194183021e2f63bf09a95985c734a2f764ce68900b40fcf452e354a2110a9"),
        (46, "c63dfdfcd3e8bf60817761d934e8a7ab46258217f4d3b9eb1576a13832c12b44"),
    ] {
        assert_eq!(hex(progressive_root(&numbered_roots(n))), expected, "{n} fields");
    }
}

#[test]
fn container_roots_have_their_exact_values() {
    for (n, expected) in [
        (0, "f5a5fd42d16a20302798ef6ed309979b43003d2320d9f0e8ea9831a92759fb4b"),
        (1, "905efb51c2764c2c7a4efb0548e372569df06db82115c3b1896c186632f3fe5b"),
        (2, "7b2da961649d679744b7a9f823e4a4d2b5ec166f568e4483678bce1f9ef5ccd9"),
        (6, "5b3a785823a6af49e9add04543130b578f8ad774048632aec9d765f0eb949eab"),
        (46, "07ba7830c6f90593d2367a4ec23d4a5412d6aad721b7787800d6959c7a2ac34f"),
    ] {
        let root = progressive_container_root(&numbered_roots(n), mask(n as usize)).unwrap();
        assert_eq!(hex(root), expected, "{n} fields");
    }
}

#[test]
fn a_branch_lists_the_siblings_leaf_first() {
    // One field: the rest of the spine is empty.
    let roots = numbered_roots(1);
    assert_eq!(
        progressive_container_proof(&roots, mask(1), 0).unwrap(),
        vec![Hash256::zero(), Hash256::from(mask(1))]
    );

    // Field 2 of three: its sibling, the sibling of their parent, the empty rest of the spine, the
    // first level and the mask.
    let roots = numbered_roots(3);
    let zeros = mix_in_active_fields(&Hash256::zero(), [0u8; 32]);
    assert_eq!(
        progressive_container_proof(&roots, mask(3), 2).unwrap(),
        vec![roots[1], zeros, Hash256::zero(), roots[0], Hash256::from(mask(3))]
    );
}

#[test]
fn binary_trees_are_padded_or_cut_to_size() {
    let roots = numbered_roots(3);
    let tree = binary_tree(&roots, 4);
    assert_eq!(tree.len(), 3);
    assert_eq!(tree[0], vec![roots[0], roots[1], roots[2], Hash256::zero()]);
    assert_eq!(
        hex(tree_root(&tree)),
        "66c419026fee8793be7fd0011b9db46b98a79f9c9b640e25317865c358f442db"
    );

    // Leaves past the size are left out.
    assert_eq!(binary_tree(&roots, 1), vec![vec![roots[0]]]);
    assert_eq!(tree_root(&binary_tree(&roots, 1)), roots[0]);
    // A tree without leaves has one empty row.
    let empty: Vec<Vec<Hash256>> = vec![vec![]];
    assert_eq!(binary_tree(&roots, 0), empty);
}

#[test]
fn levels_and_offsets_are_located() {
    assert_eq!(level_size(0), Some(1));
    assert_eq!(level_size(3), Some(64));
    assert_eq!(level_start(5), Some(341));
    // The last start that fits is that of the first level whose size does not.
    let half = (usize::BITS / 2) as usize;
    assert_eq!(level_size(half), None);
    assert_eq!(level_start(half), Some(usize::MAX / 3));
    assert_eq!(level_start(half + 1), None);
    assert_eq!(level_start(usize::MAX), None);
    assert_eq!(locate(usize::MAX / 3 - 1), Some((half - 1, (1 << (2 * (half - 1))) - 1)));
    assert_eq!(locate(usize::MAX / 3), None);
    assert_eq!(locate(0), Some((0, 0)));
    assert_eq!(locate(1), Some((1, 0)));
    assert_eq!(locate(4), Some((1, 3)));
    assert_eq!(locate(5), Some((2, 0)));
    assert_eq!(locate(24), Some((3, 3)));
    assert_eq!(locate(usize::MAX), None);
    assert_eq!(level_gindex(0), Some(2));
    assert_eq!(level_gindex(1), Some(6));
    assert_eq!(level_gindex(2), Some(14));
    assert_eq!(level_gindex(3), Some(30));
    assert_eq!(level_gindex(61), Some((1u64 << 63) - 2));
    assert_eq!(level_gindex(62), None);
    assert_eq!(level_gindex(usize::MAX), None);
}

#[test]
fn the_first_fields_have_their_gindices() {
    assert_eq!(progressive_container_gindex(0), Some(4));
    assert_eq!(progressive_container_gindex(1), Some(40));
    assert_eq!(progressive_container_gindex(4), Some(43));
    assert_eq!(progressive_container_gindex(5), Some(352));
    assert_eq!(progressive_container_depth(0), Some(2));
    assert_eq!(progressive_container_depth(1), Some(5));
    assert_eq!(progressive_container_depth(5), Some(8));
    // Between the fields lie the nodes above them.
    assert_eq!(field_index_for_gindex(4), Some(0));
    assert_eq!(field_index_for_gindex(5), None);
    assert_eq!(field_index_for_gindex(20), None);
    assert_eq!(field_index_for_gindex(39), None);
    assert_eq!(field_index_for_gindex(40), Some(1));
    assert_eq!(field_index_for_gindex(43), Some(4));
    assert_eq!(field_index_for_gindex(44), None);
}

#[test]
fn helpers_are_the_missing_siblings_deepest_first() {
    assert_eq!(get_helper_indices(&[18, 24, 25]), vec![19, 13, 8, 7, 5]);
    assert_eq!(get_helper_indices(&[4]), vec![5, 3]);
    assert_eq!(get_helper_indices(&[2, 6]), vec![7]);
    assert_eq!(get_helper_indices(&[2, 3]), Vec::<u64>::new());
    assert_eq!(get_helper_indices(&[1]), Vec::<u64>::new());
    assert_eq!(get_helper_indices(&[]), Vec::<u64>::new());
    // An index set that is not valid has helpers too.
    assert_eq!(get_helper_indices(&[2, 5]), vec![4, 3]);
    assert_eq!(get_helper_indices(&[0]), Vec::<u64>::new());
    // The deepest indices.
    let helpers = get_helper_indices(&[u64::MAX]);
    assert_eq!(helpers.len(), 63);
    assert_eq!(helpers[0], u64::MAX - 1);
    assert_eq!(helpers[62], 2);
}

#[test]
fn the_smallest_offending_index_is_reported() {
    assert_eq!(validate_indices(&[]), Ok(()));
    assert_eq!(validate_indices(&[1]), Ok(()));
    assert_eq!(
        validate_indices(&[9, 8, 9, 4, 8]),
        Err(Error::DuplicateIndex { gindex: 8 })
    );
    // Of two ancestors the nearest is reported, and of two descendants the smallest.
    assert_eq!(
        validate_indices(&[20, 17, 4, 2]),
        Err(Error::OverlappingIndices { ancestor: 2, descendant: 4 })
    );
    assert_eq!(
        validate_indices(&[17, 8, 2]),
        Err(Error::OverlappingIndices { ancestor: 2, descendant: 8 })
    );
    assert_eq!(
        validate_indices(&[35, 17, 3]),
        Err(Error::OverlappingIndices { ancestor: 17, descendant: 35 })
    );
}

#[test]
fn multiproofs_of_a_leaf_and_of_the_root() {
    let leaf = numbered(4);
    // The root proves itself.
    assert_eq!(calculate_multi_merkle_root(&[leaf], &[], &[1]), Ok(leaf));
    // Two siblings need no helper.
    assert_eq!(
        calculate_multi_merkle_root(&[numbered(1), numbered(0)], &[], &[3, 2]),
        Ok(mix_in_active_fields(&numbered(0), numbered(1).0))
    );
    // Without any index there is no way to the root.
    assert_eq!(calculate_multi_merkle_root(&[], &[], &[]), Err(Error::IncompleteProof));
}

#[test]
fn a_multiproof_beyond_the_tree_is_refused() {
    let two = BalancedFieldRoots::new(numbered_roots(2));
    assert_eq!(
        generate_multiproof(&two, &[8]),
        Err(Error::GindexOutOfTree { gindex: 9 })
    );
    assert_eq!(generate_multiproof(&two, &[2]), Ok(vec![numbered(1)]));
    assert_eq!(generate_multiproof(&two, &[]), Ok(vec![]));
    // Siblings are not each other's helpers, but they must be in the tree as well.
    assert_eq!(
        generate_multiproof(&two, &[4, 5]),
        Err(Error::GindexOutOfTree { gindex: 4 })
    );
    assert_eq!(
        generate_multiproof(&two, &[2, 7, 6]),
        Err(Error::GindexOutOfTree { gindex: 7 })
    );
    assert_eq!(generate_multiproof(&two, &[3, 2]), Ok(vec![]));
    assert_eq!(generate_multiproof(&two, &[1]), Ok(vec![]));
    let one = BalancedFieldRoots::new(numbered_roots(1));
    assert_eq!(
        generate_multiproof(&one, &[2, 3]),
        Err(Error::GindexOutOfTree { gindex: 2 })
    );
    assert_eq!(
        generate_multiproof(&BalancedFieldRoots::new(vec![]), &[0]),
        Err(Error::NoFields)
    );
    assert_eq!(
        generate_multiproof(&two, &[2, 4]),
        Err(Error::OverlappingIndices { ancestor: 2, descendant: 4 })
    );
}

#[test]
fn balanced_roots_hand_out_what_they_wrap() {
    let roots = numbered_roots(3);
    let balanced = BalancedFieldRoots::new(roots.clone());
    assert_eq!(balanced.as_slice(), roots.as_slice());
    assert_eq!(balanced.len(), 3);
    assert_eq!(balanced[1], roots[1]);
    assert_eq!(balanced.clone(), balanced);
    assert_eq!(balanced.into_inner(), roots);
}

#[test]
fn branches_of_the_wrong_length_are_rejected() {
    let leaf = numbered(0);
    let root = mix_in_active_fields(&leaf, numbered(1).0);
    assert!(is_valid_merkle_branch(leaf, &[numbered(1)], 2, root));
    assert!(is_valid_merkle_branch(numbered(1), &[leaf], 3, root));
    assert!(!is_valid_merkle_branch(leaf, &[numbered(1)], 3, root));
    assert!(!is_valid_merkle_branch(leaf, &[], 2, root));
    assert!(!is_valid_merkle_branch(leaf, &[numbered(1)], 4, root));
    // The root proves itself, and index 0 addresses no node.
    assert!(is_valid_merkle_branch(root, &[], 1, root));
    assert!(!is_valid_merkle_branch(leaf, &[], 1, root));
    assert!(!is_valid_merkle_branch(root, &[], 0, root));
}

#[test]
fn empty_masks_describe_only_empty_containers() {
    assert!(progressive_container_root(&[], mask(0)).is_ok());
    assert_eq!(
        progressive_container_root(&[], mask(1)),
        Err(Error::NonCanonicalActiveFields { highest_set: Some(0), fields: 0 })
    );
    assert_eq!(
        progressive_container_root(&numbered_roots(1), mask(0)),
        Err(Error::NonCanonicalActiveFields { highest_set: None, fields: 1 })
    );
    // A mask declares at most 256 fields.
    assert!(progressive_container_root(&numbered_roots(256), mask(256)).is_ok());
    assert_eq!(
        progressive_container_root(&numbered_roots(257), mask(256)),
        Err(Error::NonCanonicalActiveFields { highest_set: Some(255), fields: 257 })
    );
}

#[test]
fn errors_say_what_is_wrong() {
    let messages = [
        (
            Error::FieldIndexOutOfBounds { index: 46, len: 45 },
            "field index 46 out of bounds for 45 fields",
        ),
        (Error::NoFields, "no field roots supplied"),
        (Error::LeafCountMismatch { leaves: 1, indices: 20 }, "1 leaves for 20 indices"),
        (
            Error::ProofCountMismatch { proof: 0, expected: 10 },
            "proof has 0 nodes, expected 10",
        ),
        (Error::IncompleteProof, "proof did not reach the root"),
        (
            Error::GindexOutOfTree { gindex: u64::MAX },
            "gindex 18446744073709551615 is outside the tree",
        ),
        (
            Error::NonCanonicalActiveFields { highest_set: Some(44), fields: 46 },
            "active_fields highest set bit Some(44) does not match 46 fields",
        ),
        (
            Error::NonCanonicalActiveFields { highest_set: None, fields: 1 },
            "active_fields highest set bit None does not match 1 fields",
        ),
        (
            Error::InactiveFieldNotZero { index: 7 },
            "field 7 is inactive but its root is not zero",
        ),
        (Error::ZeroIndex, "index 0 addresses no node"),
        (Error::DuplicateIndex { gindex: 9 }, "index 9 appears twice"),
        (
            Error::OverlappingIndices { ancestor: 2, descendant: 5 },
            "index 2 is an ancestor of 5",
        ),
    ];
    for (error, expected) in messages {
        assert_eq!(error.message(), expected);
    }
}
