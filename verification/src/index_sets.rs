//! What multiproofs of a set of indices mean: which sets are accepted, which nodes they need, and
//! which proofs hold.

use crate::branch;
use crate::closed_forms;
use crate::error::Error;
use crate::hash;
use crate::laws;
use crate::multiproof;
use crate::spine;
use vstd::arithmetic::power2::*;
use vstd::prelude::*;

verus! {

// Which sets are accepted.

/// Whether every index addresses a node, and none is reached from another by halving it any number
/// of times.
pub open spec fn keep_clear(indices: Seq<u64>) -> bool {
    &&& forall|i: int| 0 <= i < indices.len() ==> #[trigger] indices[i] != 0
    &&& forall|i: int, j: int, steps: nat|
        #![trigger indices[i], indices[j], pow2(steps)]
        0 <= i < indices.len() && 0 <= j < indices.len() && i != j ==> indices[j] as nat / pow2(steps)
            != indices[i]
}

/// The valid index sets are exactly those whose indices keep clear of each other: nothing else is
/// asked of them.
pub proof fn sets_that_keep_clear_are_valid(indices: Seq<u64>)
    ensures
        multiproof::is_valid(indices) <==> {
            &&& forall|i: int| 0 <= i < indices.len() ==> #[trigger] indices[i] != 0
            &&& forall|i: int, j: int, steps: nat|
                #![trigger indices[i], indices[j], pow2(steps)]
                0 <= i < indices.len() && 0 <= j < indices.len() && i != j ==> indices[j] as nat
                    / pow2(steps) != indices[i]
        },
        multiproof::is_valid(indices) <==> keep_clear(indices),
{
    lemma2_to64();
    if multiproof::is_valid(indices) {
        assert forall|i: int| 0 <= i < indices.len() implies #[trigger] indices[i] != 0 by {
            assert(indices.contains(indices[i]));
        }
        assert forall|i: int, j: int, steps: nat|
            #![trigger indices[i], indices[j], pow2(steps)]
            0 <= i < indices.len() && 0 <= j < indices.len() && i != j implies indices[j] as nat
            / pow2(steps) != indices[i] by {
            if indices[j] as nat / pow2(steps) == indices[i] {
                assert(indices[i] != 0);
                assert(closed_forms::halves_to(indices[j] as nat, indices[i] as nat, 0));
                closed_forms::paths_lead_upwards_by_halving(indices[i] as nat, indices[j] as nat);
                assert(multiproof::is_ancestor(indices[i] as nat, indices[j] as nat));
                assert(multiproof::has_ancestor(indices, indices[j]));
            }
        }
    }
    if keep_clear(indices) {
        assert(!indices.contains(0));
        assert forall|i: int, j: int| 0 <= i < j < indices.len() implies indices[i]
            != indices[j] by {
            assert(indices[j] as nat / pow2(0) == indices[j]);
        }
        assert forall|j: int| 0 <= j < indices.len() implies !multiproof::has_ancestor(
            indices,
            #[trigger] indices[j],
        ) by {
            if multiproof::has_ancestor(indices, indices[j]) {
                let i = choose|i: int|
                    0 <= i < indices.len() && multiproof::is_ancestor(
                        #[trigger] indices[i] as nat,
                        indices[j] as nat,
                    );
                multiproof::lemma_ancestor_smaller(indices[i] as nat, indices[j] as nat);
                closed_forms::paths_lead_upwards_by_halving(indices[i] as nat, indices[j] as nat);
                let steps = choose|steps: nat|
                    steps >= 1 && indices[j] as nat / #[trigger] pow2(steps) == indices[i] as nat;
                assert(indices[j] as nat / pow2(steps) != indices[i]);
            }
        }
    }
}

/// Distinct nodes of one row of a tree form a valid set.
pub proof fn distinct_indices_of_one_depth_are_valid(indices: Seq<u64>, depth: nat)
    requires
        forall|i: int|
            0 <= i < indices.len() ==> pow2(depth) <= #[trigger] indices[i] < pow2(depth + 1),
        forall|i: int, j: int| 0 <= i < j < indices.len() ==> indices[i] != indices[j],
    ensures
        multiproof::is_valid(indices),
{
    lemma_pow2_pos(depth);
    assert forall|j: int| 0 <= j < indices.len() implies !multiproof::has_ancestor(
        indices,
        #[trigger] indices[j],
    ) by {
        if multiproof::has_ancestor(indices, indices[j]) {
            let i = choose|i: int|
                0 <= i < indices.len() && multiproof::is_ancestor(
                    #[trigger] indices[i] as nat,
                    indices[j] as nat,
                );
            closed_forms::lemma_ancestor_halves(indices[i] as nat, indices[j] as nat);
            spine::lemma_gindex_depth_unique(indices[i] as nat, depth);
            spine::lemma_gindex_depth_unique(indices[j] as nat, depth);
        }
    }
}

/// Distinct fields of a progressive container form a valid set.
pub proof fn distinct_fields_form_a_valid_set(fields: Seq<nat>, indices: Seq<u64>)
    requires
        fields.len() == indices.len(),
        forall|i: int|
            0 <= i < indices.len() ==> #[trigger] indices[i] == spine::container_gindex(fields[i]),
        forall|i: int, j: int| 0 <= i < j < fields.len() ==> fields[i] != fields[j],
    ensures
        multiproof::is_valid(indices),
{
    assert forall|i: int, j: int| 0 <= i < indices.len() && 0 <= j < indices.len() && i != j implies
        #[trigger] indices[i] != #[trigger] indices[j] && !multiproof::is_ancestor(
        indices[i] as nat,
        indices[j] as nat,
    ) by {
        assert(fields[i] != fields[j]);
        if fields[i] < fields[j] {
            laws::later_fields_have_larger_gindices(fields[i], fields[j]);
        } else {
            laws::later_fields_have_larger_gindices(fields[j], fields[i]);
        }
    }
    assert forall|i: int| 0 <= i < indices.len() implies #[trigger] indices[i] != 0 by {
        spine::lemma_container_gindex(fields[i]);
    }
    assert forall|j: int| 0 <= j < indices.len() implies !multiproof::has_ancestor(
        indices,
        #[trigger] indices[j],
    ) by {
        if multiproof::has_ancestor(indices, indices[j]) {
            let i = choose|i: int|
                0 <= i < indices.len() && multiproof::is_ancestor(
                    #[trigger] indices[i] as nat,
                    indices[j] as nat,
                );
            multiproof::lemma_ancestor_smaller(indices[i] as nat, indices[j] as nat);
        }
    }
}

// Why a set is refused.

/// Whether some index occurs a second time further on.
pub open spec fn repeats(indices: Seq<u64>, gindex: u64) -> bool {
    exists|i: int, j: int|
        0 <= i < j < indices.len() && #[trigger] indices[i] == gindex && #[trigger] indices[j]
            == gindex
}

/// Whether both are indices of the set, and the first is reached from the second by halving.
pub open spec fn overlap(indices: Seq<u64>, ancestor: u64, descendant: u64) -> bool {
    &&& indices.contains(ancestor)
    &&& indices.contains(descendant)
    &&& closed_forms::halves_to(descendant as nat, ancestor as nat, 1)
}

/// What is wrong with an index set: it holds zero; or else some index repeats, and the smallest such
/// is reported; or else two overlap, and the smallest descendant is reported with its nearest
/// ancestor in the set.
pub open spec fn is_fault(indices: Seq<u64>, error: Error) -> bool {
    match error {
        Error::ZeroIndex => indices.contains(0),
        Error::DuplicateIndex { gindex } => {
            &&& !indices.contains(0)
            &&& repeats(indices, gindex)
            &&& forall|other: u64| #[trigger] repeats(indices, other) ==> gindex <= other
        },
        Error::OverlappingIndices { ancestor, descendant } => {
            &&& !indices.contains(0)
            &&& forall|other: u64| !#[trigger] repeats(indices, other)
            &&& overlap(indices, ancestor, descendant)
            &&& forall|above: u64, below: u64| #[trigger]
                overlap(indices, above, below) ==> descendant < below || (descendant == below
                    && above <= ancestor)
        },
        _ => false,
    }
}

proof fn lemma_overlap(indices: Seq<u64>, ancestor: u64, descendant: u64)
    ensures
        overlap(indices, ancestor, descendant) <==> indices.contains(ancestor) && indices.contains(
            descendant,
        ) && multiproof::is_ancestor(ancestor as nat, descendant as nat),
{
    if ancestor > 0 {
        closed_forms::paths_lead_upwards_by_halving(ancestor as nat, descendant as nat);
    } else if multiproof::is_ancestor(0, descendant as nat) {
        multiproof::lemma_ancestor_smaller(0, descendant as nat);
    }
}

/// A set that is refused is refused for what is wrong with it, and only sets that do not keep clear
/// are.
pub proof fn a_refused_set_is_at_fault(indices: Seq<u64>, error: Error)
    ensures
        multiproof::is_invalid(indices, error) ==> match error {
            Error::ZeroIndex => indices.contains(0),
            Error::DuplicateIndex { gindex } => {
                &&& !indices.contains(0)
                &&& exists|i: int, j: int|
                    0 <= i < j < indices.len() && #[trigger] indices[i] == gindex
                        && #[trigger] indices[j] == gindex
                &&& forall|i: int, j: int|
                    0 <= i < j < indices.len() && indices[i] == indices[j] ==> gindex <= indices[i]
            },
            Error::OverlappingIndices { ancestor, descendant } => {
                &&& !indices.contains(0)
                &&& forall|i: int, j: int|
                    0 <= i < j < indices.len() ==> indices[i] != indices[j]
                &&& indices.contains(ancestor)
                &&& indices.contains(descendant)
                &&& multiproof::is_ancestor(ancestor as nat, descendant as nat)
                &&& forall|i: int, j: int|
                    0 <= i < indices.len() && 0 <= j < indices.len()
                        && #[trigger] multiproof::is_ancestor(
                        indices[i] as nat,
                        indices[j] as nat,
                    ) ==> descendant < indices[j] || (descendant == indices[j] && indices[i]
                        <= ancestor)
            },
            _ => false,
        },
        multiproof::is_invalid(indices, error) ==> !multiproof::is_valid(indices),
        multiproof::is_invalid(indices, error) <==> is_fault(indices, error),
        multiproof::is_invalid(indices, error) ==> !keep_clear(indices),
{
    sets_that_keep_clear_are_valid(indices);
    assert forall|gindex: u64| #[trigger] repeats(indices, gindex) == multiproof::occurs_twice(
        indices,
        gindex,
    ) by {}
    assert forall|above: u64, below: u64| #[trigger]
        overlap(indices, above, below) <==> indices.contains(above) && indices.contains(below)
            && multiproof::is_ancestor(above as nat, below as nat) by {
        lemma_overlap(indices, above, below);
    }
    assert(multiproof::all_distinct(indices) <==> forall|other: u64|
        !#[trigger] repeats(indices, other)) by {
        if forall|other: u64| !#[trigger] repeats(indices, other) {
            assert forall|i: int, j: int| 0 <= i < j < indices.len() implies indices[i]
                != indices[j] by {
                assert(!repeats(indices, indices[i]));
            }
        }
    }
    match error {
        Error::DuplicateIndex { gindex } => {
            if multiproof::is_invalid(indices, error) {
                assert forall|other: u64| #[trigger] repeats(indices, other) implies gindex
                    <= other by {
                    assert(multiproof::occurs_twice(indices, other));
                }
                assert(repeats(indices, gindex));
                assert forall|i: int, j: int|
                    0 <= i < j < indices.len() && indices[i] == indices[j] implies gindex
                    <= indices[i] by {
                    assert(repeats(indices, indices[i]));
                }
            }
            if is_fault(indices, error) {
                assert forall|other: u64| #[trigger]
                    multiproof::occurs_twice(indices, other) implies gindex <= other by {
                    assert(repeats(indices, other));
                }
            }
        },
        Error::OverlappingIndices { ancestor, descendant } => {
            assert(overlap(indices, ancestor, descendant) <==> indices.contains(ancestor)
                && indices.contains(descendant) && multiproof::is_ancestor(
                ancestor as nat,
                descendant as nat,
            ));
            if multiproof::is_invalid(indices, error) {
                assert forall|above: u64, below: u64| #[trigger]
                    overlap(indices, above, below) implies descendant < below || (descendant
                    == below && above <= ancestor) by {
                    let i = indices.index_of(above);
                    assert(multiproof::is_ancestor(indices[i] as nat, below as nat));
                    assert(multiproof::has_ancestor(indices, below));
                }
                assert forall|i: int, j: int|
                    0 <= i < indices.len() && 0 <= j < indices.len()
                        && #[trigger] multiproof::is_ancestor(
                        indices[i] as nat,
                        indices[j] as nat,
                    ) implies descendant < indices[j] || (descendant == indices[j] && indices[i]
                    <= ancestor) by {
                    assert(indices.contains(indices[i]) && indices.contains(indices[j]));
                    assert(overlap(indices, indices[i], indices[j]));
                }
                let j = indices.index_of(descendant);
                let i = indices.index_of(ancestor);
                assert(multiproof::is_ancestor(indices[i] as nat, indices[j] as nat));
                assert(multiproof::has_ancestor(indices, indices[j]));
            }
            if is_fault(indices, error) {
                assert forall|other: u64|
                    indices.contains(other) && #[trigger] multiproof::is_ancestor(
                        other as nat,
                        descendant as nat,
                    ) implies other <= ancestor by {
                    assert(overlap(indices, other, descendant));
                }
                assert forall|other: u64|
                    indices.contains(other) && #[trigger] multiproof::has_ancestor(
                        indices,
                        other,
                    ) implies descendant <= other by {
                    let i = choose|i: int|
                        0 <= i < indices.len() && multiproof::is_ancestor(
                            #[trigger] indices[i] as nat,
                            other as nat,
                        );
                    assert(indices.contains(indices[i]));
                    assert(overlap(indices, indices[i], other));
                }
            }
        },
        _ => {},
    }
}

/// No set is refused for two different reasons.
pub proof fn a_set_has_one_fault(indices: Seq<u64>, error: Error, other: Error)
    requires
        multiproof::is_invalid(indices, error),
        multiproof::is_invalid(indices, other),
    ensures
        error == other,
{
    a_refused_set_is_at_fault(indices, error);
    a_refused_set_is_at_fault(indices, other);
}

// Which nodes are needed.

/// Whether `gindex` is reached from one of the indices by halving it any number of times.
pub open spec fn is_passed(indices: Seq<u64>, gindex: nat) -> bool {
    exists|i: int|
        0 <= i < indices.len() && closed_forms::halves_to(#[trigger] indices[i] as nat, gindex, 0)
}

/// A node is covered by an index set where its index is reached by halving one of them.
pub proof fn covered_nodes_are_reached_by_halving(indices: Seq<u64>, gindex: nat)
    requires
        gindex > 0,
    ensures
        multiproof::is_covered(indices, gindex) <==> exists|i: int, steps: nat|
            #![trigger indices[i], pow2(steps)]
            0 <= i < indices.len() && indices[i] as nat / pow2(steps) == gindex,
{
    lemma_passed(indices, gindex);
    if is_passed(indices, gindex) {
        let i = choose|i: int|
            0 <= i < indices.len() && closed_forms::halves_to(
                #[trigger] indices[i] as nat,
                gindex,
                0,
            );
        let steps = choose|steps: nat|
            steps >= 0 && indices[i] as nat / #[trigger] pow2(steps) == gindex;
        assert(indices[i] as nat / pow2(steps) == gindex);
    }
    if exists|i: int, steps: nat|
        #![trigger indices[i], pow2(steps)]
        0 <= i < indices.len() && indices[i] as nat / pow2(steps) == gindex {
        let (i, steps) = choose|i: int, steps: nat|
            #![trigger indices[i], pow2(steps)]
            0 <= i < indices.len() && indices[i] as nat / pow2(steps) == gindex;
        assert(closed_forms::halves_to(indices[i] as nat, gindex, 0));
    }
}

proof fn lemma_passed(indices: Seq<u64>, gindex: nat)
    requires
        gindex > 0,
    ensures
        multiproof::is_covered(indices, gindex) <==> is_passed(indices, gindex),
{
    if multiproof::is_covered(indices, gindex) {
        let i = choose|i: int|
            0 <= i < indices.len() && multiproof::on_path(gindex, #[trigger] indices[i] as nat);
        closed_forms::paths_lead_upwards_by_halving(gindex, indices[i] as nat);
    }
    if is_passed(indices, gindex) {
        let i = choose|i: int|
            0 <= i < indices.len() && closed_forms::halves_to(
                #[trigger] indices[i] as nat,
                gindex,
                0,
            );
        closed_forms::paths_lead_upwards_by_halving(gindex, indices[i] as nat);
        assert(multiproof::on_path(gindex, indices[i] as nat));
    }
}

/// The helpers of any index set are the other children of the nodes that its paths pass: those that
/// no path passes itself. They are listed once each, from the largest down.
pub proof fn helpers_are_the_other_children(indices: Seq<u64>, gindex: u64)
    ensures
        multiproof::helper_list(indices).contains(gindex) <==> gindex > 1 && multiproof::is_covered(
            indices,
            (if gindex % 2 == 0 {
                gindex + 1
            } else {
                gindex - 1
            }) as nat,
        ) && !multiproof::is_covered(indices, gindex as nat),
        multiproof::helper_list(indices).contains(gindex) <==> gindex > 1 && is_passed(
            indices,
            (if gindex % 2 == 0 {
                gindex + 1
            } else {
                gindex - 1
            }) as nat,
        ) && !is_passed(indices, gindex as nat),
        forall|i: int, j: int|
            0 <= i < j < multiproof::helper_list(indices).len()
                ==> multiproof::helper_list(indices)[i] > multiproof::helper_list(indices)[j],
{
    multiproof::lemma_helper_list(indices);
    if gindex > 1 {
        lemma_passed(indices, gindex as nat);
        lemma_passed(indices, branch::sibling(gindex as nat));
    }
}

// Which proofs hold.

/// Whether `tree` gives every node of a tree that holds the leaves at the indices and the proof
/// nodes at the helpers, and hashes each pair of children into their parent on the way up from every
/// index.
pub open spec fn fits_together(
    indices: Seq<u64>,
    leaves: Seq<Seq<u8>>,
    nodes: Seq<Seq<u8>>,
    tree: spec_fn(nat) -> Seq<u8>,
) -> bool {
    &&& forall|i: int|
        0 <= i < indices.len() ==> tree(#[trigger] indices[i] as nat) == leaves[i]
    &&& forall|i: int|
        0 <= i < multiproof::helper_list(indices).len() ==> tree(
            #[trigger] multiproof::helper_list(indices)[i] as nat,
        ) == nodes[i]
    &&& forall|i: int, steps: nat|
        #![trigger indices[i], pow2(steps)]
        0 <= i < indices.len() && steps > 0 && indices[i] as nat / pow2(steps) > 0 ==> tree(
            indices[i] as nat / pow2(steps),
        ) == hash::hash32_concat_of(
            tree(2 * (indices[i] as nat / pow2(steps))),
            tree(2 * (indices[i] as nat / pow2(steps)) + 1),
        )
}

/// Leaves, proof nodes and indices go together where there is a leaf for each index and a proof node
/// for each helper, and the indices keep clear of each other.
pub proof fn a_proof_is_well_formed_where_the_counts_agree(
    indices: Seq<u64>,
    leaves: Seq<Seq<u8>>,
    nodes: Seq<Seq<u8>>,
)
    ensures
        multiproof::is_well_formed(indices, leaves, nodes) <==> indices.len() > 0 && leaves.len()
            == indices.len() && keep_clear(indices) && nodes.len() == multiproof::helper_list(
            indices,
        ).len(),
{
    sets_that_keep_clear_are_valid(indices);
}

proof fn lemma_fitting_nodes(
    indices: Seq<u64>,
    leaves: Seq<Seq<u8>>,
    nodes: Seq<Seq<u8>>,
    tree: spec_fn(nat) -> Seq<u8>,
    gindex: nat,
)
    requires
        multiproof::is_well_formed(indices, leaves, nodes),
        fits_together(indices, leaves, nodes, tree),
        0 < gindex <= u64::MAX,
        multiproof::is_covered(indices, gindex) || multiproof::is_helper(indices, gindex),
    ensures
        tree(gindex) == multiproof::derived(
            multiproof::given(indices, leaves, multiproof::helper_list(indices), nodes),
            gindex,
        ),
    decreases u64::MAX - gindex,
{
    let helpers = multiproof::helper_list(indices);
    let start = multiproof::given(indices, leaves, helpers, nodes);
    let key = gindex as u64;
    multiproof::lemma_helper_list(indices);
    if indices.contains(key) {
        let i = indices.index_of(key);
        assert(tree(indices[i] as nat) == leaves[i]);
    } else if helpers.contains(key) {
        let i = helpers.index_of(key);
        assert(tree(helpers[i] as nat) == nodes[i]);
    } else {
        assert(!start.contains_key(key));
        let near = multiproof::lemma_covered_child(indices, gindex);
        let far = branch::sibling(near);
        multiproof::lemma_sibling_fits(near as u64);
        lemma_fitting_nodes(indices, leaves, nodes, tree, near);
        lemma_fitting_nodes(indices, leaves, nodes, tree, far);
        let i = choose|i: int|
            0 <= i < indices.len() && multiproof::on_path(gindex, #[trigger] indices[i] as nat);
        assert(indices.contains(indices[i]));
        closed_forms::paths_lead_upwards_by_halving(gindex, indices[i] as nat);
        let steps = choose|steps: nat|
            steps >= 1 && indices[i] as nat / #[trigger] pow2(steps) == gindex;
        assert(tree(indices[i] as nat / pow2(steps)) == hash::hash32_concat_of(
            tree(2 * (indices[i] as nat / pow2(steps))),
            tree(2 * (indices[i] as nat / pow2(steps)) + 1),
        ));
    }
}

/// The root that is recomputed is the root of every tree that fits.
pub proof fn a_recomputed_root_is_that_of_any_fitting_tree(
    indices: Seq<u64>,
    leaves: Seq<Seq<u8>>,
    nodes: Seq<Seq<u8>>,
    tree: spec_fn(nat) -> Seq<u8>,
)
    requires
        multiproof::is_well_formed(indices, leaves, nodes),
        fits_together(indices, leaves, nodes, tree),
    ensures
        multiproof::multi_root(indices, leaves, nodes) == tree(1),
{
    assert(indices.contains(indices[0]));
    multiproof::lemma_root_covered(indices);
    lemma_fitting_nodes(indices, leaves, nodes, tree, 1);
}

/// Whether some tree that fits has this root.
pub open spec fn some_tree_fits(
    indices: Seq<u64>,
    leaves: Seq<Seq<u8>>,
    nodes: Seq<Seq<u8>>,
    root: Seq<u8>,
) -> bool {
    exists|tree: spec_fn(nat) -> Seq<u8>| #[trigger]
        fits_together(indices, leaves, nodes, tree) && tree(1) == root
}

proof fn lemma_recomputed_tree_fits(
    indices: Seq<u64>,
    leaves: Seq<Seq<u8>>,
    nodes: Seq<Seq<u8>>,
)
    requires
        multiproof::is_well_formed(indices, leaves, nodes),
    ensures
        some_tree_fits(indices, leaves, nodes, multiproof::multi_root(indices, leaves, nodes)),
{
    let helpers = multiproof::helper_list(indices);
    let start = multiproof::given(indices, leaves, helpers, nodes);
    let tree = |gindex: nat| multiproof::derived(start, gindex);
    multiproof::lemma_helper_list(indices);
    assert forall|i: int| 0 <= i < indices.len() implies tree(#[trigger] indices[i] as nat)
        == leaves[i] by {
        assert(indices.contains(indices[i]));
        assert(start.contains_key(indices[i]));
        assert(indices.index_of(indices[i]) == i);
    }
    assert forall|i: int| 0 <= i < helpers.len() implies tree(#[trigger] helpers[i] as nat)
        == nodes[i] by {
        assert(helpers.contains(helpers[i]));
        assert(start.contains_key(helpers[i]));
        assert(helpers.index_of(helpers[i]) == i);
        if indices.contains(helpers[i]) {
            multiproof::lemma_index_covered(indices, indices.index_of(helpers[i]));
        }
    }
    assert forall|i: int, steps: nat|
        #![trigger indices[i], pow2(steps)]
        0 <= i < indices.len() && steps > 0 && indices[i] as nat / pow2(steps) > 0 implies tree(
        indices[i] as nat / pow2(steps),
    ) == hash::hash32_concat_of(
        tree(2 * (indices[i] as nat / pow2(steps))),
        tree(2 * (indices[i] as nat / pow2(steps)) + 1),
    ) by {
        let above = indices[i] as nat / pow2(steps);
        assert(closed_forms::halves_to(indices[i] as nat, above, 1));
        closed_forms::paths_lead_upwards_by_halving(above, indices[i] as nat);
        multiproof::lemma_ancestor_smaller(above, indices[i] as nat);
        assert(multiproof::on_path(above, indices[i] as nat));
        if indices.contains(above as u64) {
            let j = indices.index_of(above as u64);
            assert(multiproof::is_ancestor(indices[j] as nat, indices[i] as nat));
            assert(multiproof::has_ancestor(indices, indices[i]));
        }
        assert(multiproof::is_covered(indices, above));
        assert(!start.contains_key(above as u64));
    }
    assert(fits_together(indices, leaves, nodes, tree));
}

/// A multiproof is accepted exactly where it is well formed and some tree fits that has the root.
pub proof fn a_multiproof_is_accepted_where_a_tree_fits(
    indices: Seq<u64>,
    leaves: Seq<Seq<u8>>,
    nodes: Seq<Seq<u8>>,
    root: Seq<u8>,
)
    ensures
        multiproof::proves_all(indices, leaves, nodes, root) <==> indices.len() > 0 && leaves.len()
            == indices.len() && keep_clear(indices) && nodes.len() == multiproof::helper_list(
            indices,
        ).len() && some_tree_fits(indices, leaves, nodes, root),
{
    a_proof_is_well_formed_where_the_counts_agree(indices, leaves, nodes);
    if multiproof::is_well_formed(indices, leaves, nodes) {
        lemma_recomputed_tree_fits(indices, leaves, nodes);
        if some_tree_fits(indices, leaves, nodes, root) {
            let tree = choose|tree: spec_fn(nat) -> Seq<u8>| #[trigger]
                fits_together(indices, leaves, nodes, tree) && tree(1) == root;
            a_recomputed_root_is_that_of_any_fitting_tree(indices, leaves, nodes, tree);
        }
    }
}

} // verus!
