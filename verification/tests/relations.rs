//! What holds between the operations, on concrete values.

use tree_hash::multiproof::{
    calculate_multi_merkle_root, get_helper_indices, verify_merkle_multiproof,
};
use tree_hash::tree::{binary_tree, tree_root};
use tree_hash::{
    field_index_for_gindex, is_valid_merkle_branch, mix_in_active_fields,
    progressive_container_depth, progressive_container_gindex, progressive_container_root,
    progressive_root, BalancedFieldRoots, ContainerFields, Error, FieldRoots, Hash256,
    TreeHashFields, BYTES_PER_CHUNK,
};

/// A progressive container of seven fields, the third of which is inactive.
struct Progressive {
    roots: Vec<Hash256>,
}

impl TreeHashFields for Progressive {
    const ACTIVE_FIELDS: [u8; BYTES_PER_CHUNK] = [
        0b0111_1011, 0, 0, 0, 0, 0, 0, 0, 0, 0, 0, 0, 0, 0, 0, 0, 0, 0, 0, 0, 0, 0, 0, 0, 0, 0, 0,
        0, 0, 0, 0, 0,
    ];

    fn field_roots(&self) -> FieldRoots {
        self.roots.clone()
    }
}

/// A balanced container of five fields.
struct Balanced {
    roots: Vec<Hash256>,
}

impl ContainerFields for Balanced {
    fn field_roots(&self) -> BalancedFieldRoots {
        BalancedFieldRoots::new(self.roots.clone())
    }
}

fn bytes(from: u8, count: u8) -> Vec<Hash256> {
    (from..from + count).map(Hash256::repeat_byte).collect()
}

fn progressive() -> Progressive {
    let mut roots = bytes(1, 7);
    roots[2] = Hash256::zero();
    Progressive { roots }
}

fn balanced() -> Balanced {
    Balanced { roots: bytes(1, 5) }
}

#[test]
fn a_container_proves_its_own_fields() {
    let container = progressive();
    let root = container.container_root().unwrap();
    assert_eq!(
        progressive_container_root(&container.roots, Progressive::ACTIVE_FIELDS),
        Ok(root)
    );
    for index in 0..7 {
        let gindex = progressive_container_gindex(index).unwrap();
        let (leaf, branch) = container.prove_field(index).unwrap();
        assert_eq!(leaf, container.roots[index]);
        assert_eq!(branch.len(), progressive_container_depth(index).unwrap());
        assert!(is_valid_merkle_branch(leaf, &branch, gindex, root));
        assert_eq!(container.prove_gindex(gindex), Ok((leaf, branch)));
    }
}

#[test]
fn a_container_refuses_fields_that_it_does_not_have() {
    let container = progressive();
    assert_eq!(
        container.prove_field(7),
        Err(Error::FieldIndexOutOfBounds { index: 7, len: 7 })
    );
    assert_eq!(
        container.prove_gindex(progressive_container_gindex(7).unwrap()),
        Err(Error::FieldIndexOutOfBounds { index: 7, len: 7 })
    );
    assert_eq!(container.prove_gindex(3), Err(Error::GindexOutOfTree { gindex: 3 }));
    assert_eq!(container.prove_gindex(0), Err(Error::GindexOutOfTree { gindex: 0 }));

    // Without fields there is no field at index 0 either.
    let empty = Progressive { roots: vec![] };
    assert_eq!(
        empty.prove_field(0),
        Err(Error::FieldIndexOutOfBounds { index: 0, len: 0 })
    );

    let mut wrong = progressive();
    wrong.roots[2] = Hash256::repeat_byte(9);
    assert_eq!(wrong.container_root(), Err(Error::InactiveFieldNotZero { index: 2 }));
    assert_eq!(wrong.prove_field(0), Err(Error::InactiveFieldNotZero { index: 2 }));
    wrong.roots.pop();
    assert_eq!(
        wrong.prove_field(0),
        Err(Error::NonCanonicalActiveFields { highest_set: Some(6), fields: 6 })
    );
}

#[test]
fn a_balanced_container_proves_its_fields_together() {
    let container = balanced();
    let root = tree_root(&binary_tree(&container.roots, 8));
    // The field at `index` is the node at `8 + index`, and padding leaves are zero.
    let indices = [8 + 1, 8 + 4, 8 + 7];
    let leaves = [container.roots[1], container.roots[4], Hash256::zero()];
    let nodes = container.prove_fields(&indices).unwrap();
    assert!(verify_merkle_multiproof(&leaves, &nodes, &indices, root));

    // Interior nodes are proved in the same way.
    let inner = mix_in_active_fields(&container.roots[2], container.roots[3].0);
    let indices = [5, 8 + 4];
    let nodes = container.prove_fields(&indices).unwrap();
    assert!(verify_merkle_multiproof(
        &[inner, container.roots[4]],
        &nodes,
        &indices,
        root
    ));
    assert_eq!(
        container.prove_fields(&[16]),
        Err(Error::GindexOutOfTree { gindex: 17 })
    );
}

#[test]
fn a_changed_leaf_or_node_changes_the_root() {
    let container = balanced();
    let root = tree_root(&binary_tree(&container.roots, 8));
    let indices = [8, 8 + 3];
    let leaves = [container.roots[0], container.roots[3]];
    let nodes = container.prove_fields(&indices).unwrap();
    assert!(verify_merkle_multiproof(&leaves, &nodes, &indices, root));
    for i in 0..leaves.len() {
        let mut changed = leaves;
        changed[i] = Hash256::repeat_byte(0xee);
        assert!(!verify_merkle_multiproof(&changed, &nodes, &indices, root));
    }
    for i in 0..nodes.len() {
        let mut changed = nodes.clone();
        changed[i] = Hash256::repeat_byte(0xee);
        assert!(!verify_merkle_multiproof(&leaves, &changed, &indices, root));
    }
    // The order of the indices does not matter, as long as the leaves follow it.
    assert!(verify_merkle_multiproof(
        &[leaves[1], leaves[0]],
        &nodes,
        &[indices[1], indices[0]],
        root
    ));
    assert!(!verify_merkle_multiproof(&[leaves[1], leaves[0]], &nodes, &indices, root));
}

#[test]
fn every_node_of_a_branch_binds_the_root() {
    let container = progressive();
    let root = container.container_root().unwrap();
    let gindex = progressive_container_gindex(5).unwrap();
    let (leaf, branch) = container.prove_field(5).unwrap();
    for i in 0..branch.len() {
        let mut changed = branch.clone();
        changed[i] = Hash256::repeat_byte(0xee);
        assert!(!is_valid_merkle_branch(leaf, &changed, gindex, root));
    }
}

#[test]
fn an_interior_node_has_a_proof_of_its_own() {
    let container = progressive();
    let root = container.container_root().unwrap();
    let gindex = progressive_container_gindex(1).unwrap();
    let (leaf, branch) = container.prove_field(1).unwrap();
    let above = mix_in_active_fields(&leaf, branch[0].0);
    assert!(is_valid_merkle_branch(above, &branch[1..], gindex / 2, root));
    assert!(!is_valid_merkle_branch(above, &branch[1..], gindex, root));
}

#[test]
fn trailing_zero_fields_do_not_show_in_the_spine() {
    // Fields 5 to 20 share a level.
    let six = bytes(1, 6);
    let mut nine = six.clone();
    nine.extend([Hash256::zero(); 3]);
    assert_eq!(progressive_root(&six), progressive_root(&nine));
    // One more field than the level holds starts another.
    let five = bytes(1, 5);
    let mut padded = five.clone();
    padded.push(Hash256::zero());
    assert_ne!(progressive_root(&five), progressive_root(&padded));

    // The mask tells them apart.
    let mut short = [0u8; BYTES_PER_CHUNK];
    short[0] = 0b0011_1111;
    let mut long = short;
    long[1] = 0b0000_0001;
    assert_ne!(
        progressive_container_root(&six, short).unwrap(),
        progressive_container_root(&nine, long).unwrap()
    );
    assert!(progressive_container_root(&nine, short).is_err());
}

#[test]
fn a_container_root_depends_on_every_field() {
    let container = progressive();
    let root = container.container_root().unwrap();
    for index in [0, 1, 3, 4, 5, 6] {
        let mut changed = progressive();
        changed.roots[index] = Hash256::repeat_byte(0xee);
        assert_ne!(changed.container_root().unwrap(), root, "field {index}");
    }
}

#[test]
fn different_fields_have_different_gindices() {
    let mut seen = std::collections::BTreeSet::new();
    for index in 0..400 {
        let gindex = progressive_container_gindex(index).unwrap();
        assert!(seen.insert(gindex));
        // All of them lie under the root's left child.
        assert_eq!(gindex >> (gindex.ilog2() - 1), 2);
    }
    // Every other index below them addresses no field.
    for gindex in 0..2000 {
        assert_eq!(field_index_for_gindex(gindex).is_some(), seen.contains(&gindex));
    }
}

#[test]
fn a_leaf_below_another_index_is_refused() {
    let below = Hash256::repeat_byte(1);
    let above = Hash256::repeat_byte(2);
    let helpers = get_helper_indices(&[2, 5]);
    let nodes = vec![Hash256::zero(); helpers.len()];
    assert_eq!(
        calculate_multi_merkle_root(&[above, below], &nodes, &[2, 5]),
        Err(Error::OverlappingIndices { ancestor: 2, descendant: 5 })
    );
    let root = mix_in_active_fields(&above, [0u8; 32]);
    assert!(!verify_merkle_multiproof(&[above, below], &nodes, &[2, 5], root));
    assert!(verify_merkle_multiproof(&[above], &[Hash256::zero()], &[2], root));
}

#[test]
fn a_branch_stays_when_its_own_field_changes() {
    let container = progressive();
    for index in [0, 1, 3, 4, 5, 6] {
        let mut changed = progressive();
        changed.roots[index] = Hash256::repeat_byte(0xee);
        let (_, branch) = container.prove_field(index).unwrap();
        let (leaf, same) = changed.prove_field(index).unwrap();
        assert_eq!(leaf, Hash256::repeat_byte(0xee));
        assert_eq!(same, branch, "field {index}");
    }
}

#[test]
fn gindices_grow_and_no_field_lies_above_another() {
    for later in 1..100 {
        let below = progressive_container_gindex(later).unwrap();
        for index in 0..later {
            let gindex = progressive_container_gindex(index).unwrap();
            assert!(gindex < below);
            let steps = below.ilog2() - gindex.ilog2();
            assert!(steps == 0 || below >> steps != gindex);
        }
    }
}

#[test]
fn indices_may_be_listed_in_any_order() {
    let container = balanced();
    let root = tree_root(&binary_tree(&container.roots, 8));
    let nodes = container.prove_fields(&[5, 8, 12]).unwrap();
    let inner = mix_in_active_fields(&container.roots[2], container.roots[3].0);
    let listed = [(5, inner), (8, container.roots[0]), (12, container.roots[4])];
    for order in [[0, 1, 2], [0, 2, 1], [1, 0, 2], [1, 2, 0], [2, 0, 1], [2, 1, 0]] {
        let indices: Vec<u64> = order.iter().map(|i| listed[*i].0).collect();
        let leaves: Vec<Hash256> = order.iter().map(|i| listed[*i].1).collect();
        assert_eq!(get_helper_indices(&indices), get_helper_indices(&[5, 8, 12]));
        assert_eq!(container.prove_fields(&indices), Ok(nodes.clone()));
        assert!(verify_merkle_multiproof(&leaves, &nodes, &indices, root));
    }
}

/// Whether the root can be recomputed from the nodes at these indices.
fn reaches_the_root(known: &[u64]) -> bool {
    let mut all = std::collections::BTreeSet::from_iter(known.iter().copied());
    for gindex in (1..64).rev() {
        if all.contains(&(2 * gindex)) && all.contains(&(2 * gindex + 1)) {
            all.insert(gindex);
        }
    }
    all.contains(&1)
}

#[test]
fn every_helper_is_needed() {
    let indices = [18, 24, 25];
    let helpers = get_helper_indices(&indices);
    let known: Vec<u64> = indices.iter().chain(helpers.iter()).copied().collect();
    assert!(reaches_the_root(&known));
    for helper in &helpers {
        let rest: Vec<u64> = known.iter().copied().filter(|gindex| gindex != helper).collect();
        assert!(!reaches_the_root(&rest), "helper {helper}");
    }
}
