//! What holds of the results: when an operation succeeds, what its result can be used for, and what
//! it reports where it does not succeed.

use crate::active;
use crate::balanced;
use crate::branch;
use crate::closed_forms;
use crate::container;
use crate::error::Error;
use crate::fields;
use crate::hash;
use crate::hash::Hash256;
use crate::index_sets;
use crate::laws;
use crate::multiproof;
use crate::spine;
use crate::tree;
use vstd::arithmetic::div_mod::*;
use vstd::arithmetic::power::*;
use vstd::arithmetic::power2::*;
use vstd::prelude::*;

verus! {

// Checking a branch.

/// A branch is accepted at index 1 where it is empty and the leaf is the root, and at a larger index
/// where it is accepted one step up: at half the index, for the digest of the leaf and its first
/// sibling, the one at the even index coming first. Nothing is accepted at index 0.
pub proof fn a_branch_is_checked_one_step_at_a_time(
    leaf: Seq<u8>,
    siblings: Seq<Seq<u8>>,
    gindex: nat,
    root: Seq<u8>,
)
    ensures
        branch::proves(leaf, siblings, gindex, root) <==> if gindex <= 1 {
            gindex == 1 && siblings.len() == 0 && leaf == root
        } else {
            siblings.len() > 0 && branch::proves(
                if gindex % 2 == 0 {
                    hash::hash32_concat_of(leaf, siblings[0])
                } else {
                    hash::hash32_concat_of(siblings[0], leaf)
                },
                siblings.drop_first(),
                gindex / 2,
                root,
            )
        },
{
    lemma2_to64();
    if gindex > 1 && siblings.len() > 0 {
        let rest = siblings.drop_first();
        assert(siblings.skip(1) =~= rest);
        assert(gindex / pow2(0) == gindex);
        assert(branch::climb(leaf, siblings, gindex, 0) == leaf);
        assert(branch::climb(leaf, siblings, gindex, 1) == branch::join(leaf, siblings[0], gindex));
        laws::lemma_climb_on(leaf, siblings, gindex, 1, rest.len());
    }
}

/// A branch with as many siblings as its index is deep leads to exactly one root.
pub proof fn a_branch_leads_to_one_root(leaf: Seq<u8>, siblings: Seq<Seq<u8>>, gindex: nat)
    requires
        pow2(siblings.len()) <= gindex < pow2(siblings.len() + 1),
    ensures
        exists|root: Seq<u8>| branch::proves(leaf, siblings, gindex, root),
        forall|root: Seq<u8>, other: Seq<u8>|
            branch::proves(leaf, siblings, gindex, root) && branch::proves(
                leaf,
                siblings,
                gindex,
                other,
            ) ==> root == other,
    decreases siblings.len(),
{
    lemma2_to64();
    lemma_pow2_pos(siblings.len());
    spine::lemma_gindex_depth_unique(gindex, siblings.len());
    assert(branch::proves(
        leaf,
        siblings,
        gindex,
        branch::climb(leaf, siblings, gindex, siblings.len()),
    ));
}

/// The siblings on the way from the node at `gindex` of a tree up to its root.
pub open spec fn siblings_in_tree(leaves: Seq<Seq<u8>>, depth: nat, gindex: nat) -> Seq<Seq<u8>>
    decreases gindex,
{
    if gindex <= 1 {
        Seq::empty()
    } else {
        seq![
            tree::node_of(
                leaves,
                depth,
                if gindex % 2 == 0 {
                    gindex + 1
                } else {
                    (gindex - 1) as nat
                },
            ),
        ] + siblings_in_tree(leaves, depth, gindex / 2)
    }
}

/// Every node of a binary tree is accepted, at its index under the root of the tree, with the
/// siblings on its way up.
pub proof fn every_node_of_a_tree_is_proved_by_its_siblings(
    leaves: Seq<Seq<u8>>,
    depth: nat,
    gindex: nat,
)
    requires
        0 < gindex < pow2(depth + 1),
    ensures
        branch::proves(
            tree::node_of(leaves, depth, gindex),
            siblings_in_tree(leaves, depth, gindex),
            gindex,
            tree::root_of(leaves, depth),
        ),
    decreases gindex,
{
    let siblings = siblings_in_tree(leaves, depth, gindex);
    closed_forms::a_tree_hashes_its_leaves_into_its_root(leaves, depth, gindex);
    a_branch_is_checked_one_step_at_a_time(
        tree::node_of(leaves, depth, gindex),
        siblings,
        gindex,
        tree::root_of(leaves, depth),
    );
    if gindex > 1 {
        lemma_pow2_unfold(depth + 1);
        every_node_of_a_tree_is_proved_by_its_siblings(leaves, depth, gindex / 2);
        closed_forms::a_tree_hashes_its_leaves_into_its_root(leaves, depth, gindex / 2);
        assert(siblings.drop_first() =~= siblings_in_tree(leaves, depth, gindex / 2));
    }
}

// The root of a container.

/// Whether some branch puts `node` at `gindex` under `root`.
pub open spec fn sits_under(node: Seq<u8>, gindex: nat, root: Seq<u8>) -> bool {
    exists|siblings: Seq<Seq<u8>>| branch::proves(node, siblings, gindex, root)
}

/// The siblings of the spine node at `level`, with the mask as the last.
spec fn above_spine(roots: Seq<Seq<u8>>, mask: Seq<u8>, level: nat) -> Seq<Seq<u8>> {
    container::spine_path(roots, level) + seq![mask]
}

proof fn lemma_spine_node_proves(roots: Seq<Seq<u8>>, mask: Seq<u8>, level: nat)
    requires
        level == 0 || spine::level_first((level - 1) as nat) < roots.len(),
    ensures
        branch::proves(
            container::spine_root(roots, level),
            above_spine(roots, mask, level),
            spine::spine_gindex(level),
            hash::hash32_concat_of(container::spine_root(roots, 0), mask),
        ),
    decreases level,
{
    let siblings = above_spine(roots, mask, level);
    let root = hash::hash32_concat_of(container::spine_root(roots, 0), mask);
    spine::lemma_spine_gindex(level);
    a_branch_is_checked_one_step_at_a_time(
        container::spine_root(roots, level),
        siblings,
        spine::spine_gindex(level),
        root,
    );
    if level == 0 {
        a_branch_is_checked_one_step_at_a_time(root, siblings.drop_first(), 1, root);
    } else {
        let above = (level - 1) as nat;
        if above > 0 {
            spine::lemma_level_ordered((above - 1) as nat, above);
        }
        lemma_spine_node_proves(roots, mask, above);
        assert(siblings[0] == container::level_root(roots, above));
        assert(siblings.drop_first() =~= above_spine(roots, mask, above));
    }
}

/// Under the progressive root of any field roots, joined with any mask on its right: each field sits
/// at its generalized index; zeros sit at the indices that follow in the level of the last field;
/// zero sits at the end of the spine; and the mask sits at index 3.
pub proof fn what_a_progressive_root_holds(roots: Seq<Seq<u8>>, mask: Seq<u8>, index: nat, last: nat)
    ensures
        ({
            let root = hash::hash32_concat_of(container::spine_root(roots, 0), mask);
            &&& index < roots.len() ==> branch::proves(
                roots[index as int],
                container::container_branch(roots, mask, index),
                spine::container_gindex(index),
                root,
            )
            &&& index >= roots.len() && (pow(4, spine::level_of(index)) - 1) / 3 < roots.len()
                ==> sits_under(closed_forms::zero_bytes(), spine::container_gindex(index), root)
            &&& (pow(4, last) - 1) / 3 >= roots.len() && (last == 0 || (pow(4, (last - 1) as nat) - 1)
                / 3 < roots.len()) ==> sits_under(
                closed_forms::zero_bytes(),
                (3 * pow2(last) - 1) as nat,
                root,
            )
            &&& sits_under(mask, 3, root)
        }),
{
    let root = hash::hash32_concat_of(container::spine_root(roots, 0), mask);
    let level = spine::level_of(index);
    closed_forms::the_zero_node_is_all_zero_bytes();
    closed_forms::levels_grow_by_a_factor_of_four(level);
    closed_forms::levels_grow_by_a_factor_of_four(last);
    assert(container::container_root(roots, mask) == root);
    spine::lemma_level_of(index);
    if index < roots.len() {
        laws::every_field_proves_against_the_root(roots, mask, index);
    } else if spine::level_first(level) < roots.len() {
        laws::every_leaf_proves_against_the_root(roots, mask, index);
    }
    if last > 0 {
        closed_forms::levels_grow_by_a_factor_of_four((last - 1) as nat);
    }
    if spine::level_first(last) >= roots.len() && (last == 0 || spine::level_first(
        (last - 1) as nat,
    ) < roots.len()) {
        lemma_spine_node_proves(roots, mask, last);
        spine::lemma_spine_gindex(last);
        assert(container::spine_root(roots, last) == hash::zero_node());
    }
    let beside = seq![container::spine_root(roots, 0)];
    a_branch_is_checked_one_step_at_a_time(mask, beside, 3, root);
    a_branch_is_checked_one_step_at_a_time(root, beside.drop_first(), 1, root);
    assert(branch::proves(mask, beside, 3, root));
}

/// A root is returned exactly where the mask fits the field roots, and otherwise what does not fit
/// is reported.
pub proof fn a_root_is_returned_where_the_mask_fits(
    roots: Seq<Seq<u8>>,
    mask: Seq<u8>,
    outcome: Result<Hash256, Error>,
)
    requires
        mask.len() == 32,
        container::is_container_root(roots, mask, outcome),
    ensures
        outcome is Ok <==> active::describes(mask, roots),
        outcome matches Err(error) ==> active::mismatch(mask, roots, error),
        outcome is Ok <==> closed_forms::fits_mask(mask, roots),
        outcome matches Err(error) ==> closed_forms::is_misfit(mask, roots, error),
{
    closed_forms::a_mask_describes_the_roots_that_fit_it(mask, roots);
    match outcome {
        Ok(_) => {},
        Err(error) => {
            closed_forms::a_mismatch_says_what_does_not_fit(mask, roots, error);
        },
    }
}

/// The root that is returned is the digest of the progressive root followed by the mask. The branch
/// of every field proves that field against it.
pub proof fn a_returned_root_holds_the_mask_and_every_field(
    roots: Seq<Seq<u8>>,
    mask: Seq<u8>,
    root: Hash256,
    index: nat,
)
    requires
        mask.len() == 32,
        container::is_container_root(roots, mask, Ok(root)),
    ensures
        root@ == hash::hash32_concat_of(
            container::spine_root(container::addressable(roots), 0),
            mask,
        ),
        sits_under(mask, 3, root@),
        index < roots.len() ==> branch::proves(
            roots[index as int],
            container::container_branch(roots, mask, index),
            spine::container_gindex(index),
            root@,
        ),
{
    a_root_is_returned_where_the_mask_fits(roots, mask, Ok(root));
    container::lemma_addressable(roots);
    what_a_progressive_root_holds(roots, mask, index, 0);
}

/// Two containers for which the same root is returned have the same mask and the same fields, unless
/// the hash collides where the masks are mixed in or on the way up from some field.
pub proof fn a_returned_root_belongs_to_one_container(
    roots: Seq<Seq<u8>>,
    mask: Seq<u8>,
    root: Hash256,
    other_roots: Seq<Seq<u8>>,
    other_mask: Seq<u8>,
    other_root: Hash256,
)
    requires
        container::is_container_root(roots, mask, Ok(root)),
        container::is_container_root(other_roots, other_mask, Ok(other_root)),
        root@ == other_root@,
    ensures
        (mask == other_mask && roots == other_roots) || branch::collide(
            (container::spine_root(roots, 0), mask),
            (container::spine_root(other_roots, 0), other_mask),
        ) || exists|index: nat|
            index < roots.len() && #[trigger] laws::collides_above_field(
                roots,
                mask,
                other_roots,
                other_mask,
                index,
            ),
{
    laws::a_container_root_binds_the_fields(roots, mask, other_roots, other_mask);
}

// The branch of a field.

/// Why a branch is refused: there are no fields; or there is no such field; or the mask does not fit.
pub open spec fn is_branch_refusal(
    roots: Seq<Seq<u8>>,
    mask: Seq<u8>,
    index: nat,
    error: Error,
) -> bool {
    if roots.len() == 0 {
        error == Error::NoFields
    } else if index >= roots.len() {
        error matches Error::FieldIndexOutOfBounds { index: asked, len } && asked == index && len
            == roots.len()
    } else {
        closed_forms::is_misfit(mask, roots, error)
    }
}

/// Every field of every container that its mask fits gets a branch, and nothing else does.
pub proof fn every_field_of_a_fitting_container_gets_a_branch(
    roots: Seq<Seq<u8>>,
    mask: Seq<u8>,
    index: nat,
    outcome: Result<Vec<Hash256>, Error>,
)
    requires
        mask.len() == 32,
        roots.len() <= usize::MAX,
        index <= usize::MAX,
        container::is_container_proof(roots, mask, index, outcome),
    ensures
        outcome is Ok <==> index < roots.len() && active::describes(mask, roots),
        outcome matches Err(error) ==> match error {
            Error::NoFields => roots.len() == 0,
            Error::FieldIndexOutOfBounds { index: asked, len } => asked == index && len
                == roots.len() && 0 < len <= index,
            _ => index < roots.len() && active::mismatch(mask, roots, error),
        },
        outcome is Ok <==> index < roots.len() && closed_forms::fits_mask(mask, roots),
        outcome matches Err(error) ==> is_branch_refusal(roots, mask, index, error),
{
    closed_forms::a_mask_describes_the_roots_that_fit_it(mask, roots);
    match outcome {
        Ok(_) => {},
        Err(error) => {
            closed_forms::a_mismatch_says_what_does_not_fit(mask, roots, error);
        },
    }
}

/// The branch that is returned for a field proves it against the root that is returned for the
/// container.
pub proof fn a_returned_branch_leads_to_the_returned_root(
    roots: Seq<Seq<u8>>,
    mask: Seq<u8>,
    index: nat,
    nodes: Vec<Hash256>,
    root: Hash256,
)
    requires
        container::is_container_proof(roots, mask, index, Ok(nodes)),
        container::is_container_root(roots, mask, Ok(root)),
    ensures
        branch::proves(
            roots[index as int],
            hash::contents(nodes@),
            spine::container_gindex(index),
            root@,
        ),
{
    laws::every_field_proves_against_the_root(roots, mask, index);
}

/// Every field of every container that its mask fits is proved, with its own root and a branch that
/// leads to the root that is returned for the container.
pub proof fn every_field_of_a_fitting_container_is_proved(
    roots: Seq<Hash256>,
    mask: Seq<u8>,
    index: nat,
    outcome: Result<(Hash256, Vec<Hash256>), Error>,
    root: Result<Hash256, Error>,
)
    requires
        mask.len() == 32,
        roots.len() <= usize::MAX,
        index <= usize::MAX,
        fields::is_field_proof(roots, mask, index, outcome),
        container::is_container_root(hash::contents(roots), mask, root),
    ensures
        outcome is Ok <==> index < roots.len() && active::describes(mask, hash::contents(roots)),
        outcome is Ok <==> index < roots.len() && closed_forms::fits_mask(
            mask,
            hash::contents(roots),
        ),
        outcome matches Ok((leaf, nodes)) ==> leaf == roots[index as int] && root is Ok
            && branch::proves(
            leaf@,
            hash::contents(nodes@),
            spine::container_gindex(index),
            root->Ok_0@,
        ),
        outcome matches Err(error) ==> if index >= roots.len() {
            error matches Error::FieldIndexOutOfBounds { index: asked, len } && asked == index
                && len == roots.len()
        } else {
            closed_forms::is_misfit(mask, hash::contents(roots), error)
        },
{
    let contents = hash::contents(roots);
    a_root_is_returned_where_the_mask_fits(contents, mask, root);
    match outcome {
        Ok((leaf, nodes)) => {
            every_field_of_a_fitting_container_gets_a_branch(contents, mask, index, Ok(nodes));
            a_returned_branch_leads_to_the_returned_root(
                contents,
                mask,
                index,
                nodes,
                root->Ok_0,
            );
        },
        Err(error) => {
            if index < roots.len() {
                every_field_of_a_fitting_container_gets_a_branch(
                    contents,
                    mask,
                    index,
                    Err(error),
                );
            }
        },
    }
}

// Multiproofs over a balanced container.

/// Whether `depth` is that of the smallest binary tree with room for `fields` leaves.
pub open spec fn just_holds(depth: nat, fields: nat) -> bool {
    fields <= pow2(depth) && (depth == 0 || pow2((depth - 1) as nat) < fields)
}

/// Whether every index lies in a tree of the given depth.
pub open spec fn all_within(gindices: Seq<u64>, depth: nat) -> bool {
    forall|i: int| 0 <= i < gindices.len() ==> 0 < #[trigger] gindices[i] < pow2(depth + 1)
}

proof fn lemma_all_within(gindices: Seq<u64>, depth: nat, fields: nat)
    requires
        just_holds(depth, fields),
    ensures
        balanced::balanced_depth(fields) == depth,
        balanced::indices_in_tree(fields, gindices) <==> all_within(gindices, depth),
{
    closed_forms::a_balanced_tree_is_as_shallow_as_can_be(fields, depth);
    assert forall|i: int| 0 <= i < gindices.len() implies tree::in_tree(
        depth,
        #[trigger] gindices[i] as nat,
    ) == (0 < gindices[i] < pow2(depth + 1)) by {
        closed_forms::a_tree_has_nodes_up_to_its_depth(depth, gindices[i] as nat);
    }
}

/// Why a multiproof is refused: there are no fields; or the indices are at fault; or a generalized
/// index lies past the tree. The deepest helper is looked at first, and then the indices in order.
pub open spec fn is_multiproof_refusal(
    fields: nat,
    gindices: Seq<u64>,
    depth: nat,
    error: Error,
) -> bool {
    let helpers = multiproof::helper_list(gindices);
    if fields == 0 {
        error == Error::NoFields
    } else if !index_sets::keep_clear(gindices) {
        index_sets::is_fault(gindices, error)
    } else if helpers.len() > 0 && helpers[0] >= pow2(depth + 1) {
        error == (Error::GindexOutOfTree { gindex: helpers[0] })
    } else {
        exists|i: int|
            0 <= i < gindices.len() && #[trigger] gindices[i] >= pow2(depth + 1) && error == (
            Error::GindexOutOfTree { gindex: gindices[i] }) && all_within(gindices.take(i), depth)
    }
}

/// A multiproof is built for every set of nodes of the tree that keep clear of each other, and for
/// nothing else.
pub proof fn a_multiproof_is_built_for_any_nodes_that_keep_clear(
    roots: Seq<Seq<u8>>,
    gindices: Seq<u64>,
    depth: nat,
    outcome: Result<Vec<Hash256>, Error>,
)
    requires
        roots.len() <= usize::MAX / 2 + 1,
        just_holds(depth, roots.len()),
        balanced::is_multiproof(roots, gindices, outcome),
    ensures
        outcome is Ok <==> roots.len() > 0 && multiproof::is_valid(gindices) && forall|i: int|
            0 <= i < gindices.len() ==> 0 < #[trigger] gindices[i] < pow2(depth + 1),
        outcome matches Err(error) ==> match error {
            Error::NoFields => roots.len() == 0,
            Error::GindexOutOfTree { gindex } => {
                &&& roots.len() > 0
                &&& multiproof::is_valid(gindices)
                &&& gindex >= pow2(depth + 1)
                &&& gindices.contains(gindex) || multiproof::helper_list(gindices)[0] == gindex
            },
            _ => roots.len() > 0 && multiproof::is_invalid(gindices, error),
        },
        outcome is Ok <==> roots.len() > 0 && index_sets::keep_clear(gindices) && all_within(
            gindices,
            depth,
        ),
        outcome matches Err(error) ==> is_multiproof_refusal(roots.len(), gindices, depth, error),
{
    let helpers = multiproof::helper_list(gindices);
    lemma_all_within(gindices, depth, roots.len());
    index_sets::sets_that_keep_clear_are_valid(gindices);
    multiproof::lemma_helper_list(gindices);
    if helpers.len() > 0 {
        assert(helpers.contains(helpers[0]));
        closed_forms::a_tree_has_nodes_up_to_its_depth(depth, helpers[0] as nat);
    }
    if multiproof::is_valid(gindices) && all_within(gindices, depth) {
        if gindices.len() > 0 {
            laws::generated_multiproofs_verify(roots, gindices, laws::nodes_at(roots, gindices));
        } else if helpers.len() > 0 {
            assert(multiproof::is_helper(gindices, helpers[0] as nat));
        }
    }
    match outcome {
        Ok(_) => {},
        Err(error) => {
            index_sets::a_refused_set_is_at_fault(gindices, error);
            if roots.len() > 0 && multiproof::is_valid(gindices) && balanced::helpers_in_tree(
                roots.len(),
                gindices,
            ) {
                let gindex = error->GindexOutOfTree_gindex;
                let i = choose|i: int|
                    0 <= i < gindices.len() && #[trigger] gindices[i] == gindex && !tree::in_tree(
                        depth,
                        gindex as nat,
                    ) && balanced::indices_in_tree(roots.len(), gindices.take(i));
                assert(gindices.contains(gindices[i]));
                lemma_all_within(gindices.take(i), depth, roots.len());
                closed_forms::a_tree_has_nodes_up_to_its_depth(depth, gindex as nat);
            }
        },
    }
}

/// The multiproof that is returned is accepted, with the tree's own nodes at the indices, against
/// the root of the tree. Its nodes are those of the tree at the helpers, in their order.
pub proof fn a_returned_multiproof_is_accepted(
    roots: Seq<Seq<u8>>,
    gindices: Seq<u64>,
    depth: nat,
    nodes: Vec<Hash256>,
    leaves: Seq<Seq<u8>>,
)
    requires
        just_holds(depth, roots.len()),
        balanced::is_multiproof(roots, gindices, Ok(nodes)),
        leaves.len() == gindices.len(),
        forall|i: int|
            0 <= i < gindices.len() ==> leaves[i] == tree::node_of(
                roots,
                depth,
                #[trigger] gindices[i] as nat,
            ),
    ensures
        gindices.len() > 0 ==> multiproof::proves_all(
            gindices,
            leaves,
            hash::contents(nodes@),
            tree::root_of(roots, depth),
        ),
        nodes@.len() == multiproof::helper_list(gindices).len(),
        forall|i: int|
            0 <= i < nodes@.len() ==> (#[trigger] nodes@[i])@ == tree::node_of(
                roots,
                depth,
                multiproof::helper_list(gindices)[i] as nat,
            ),
{
    lemma_all_within(gindices, depth, roots.len());
    if gindices.len() > 0 {
        laws::generated_multiproofs_verify(roots, gindices, leaves);
    }
    assert(hash::contents(nodes@).len() == nodes@.len());
    assert forall|i: int| 0 <= i < nodes@.len() implies (#[trigger] nodes@[i])@ == tree::node_of(
        roots,
        depth,
        multiproof::helper_list(gindices)[i] as nat,
    ) by {
        assert(hash::contents(nodes@)[i] == nodes@[i]@);
    }
}

/// Any distinct fields of a balanced container of any size are proved together: a multiproof is
/// returned for them, and it is accepted with their roots against the root of the container.
pub proof fn any_fields_of_a_balanced_container_are_proved(
    roots: Seq<Seq<u8>>,
    fields: Seq<nat>,
    gindices: Seq<u64>,
    depth: nat,
    outcome: Result<Vec<Hash256>, Error>,
)
    requires
        roots.len() <= usize::MAX / 2 + 1,
        just_holds(depth, roots.len()),
        fields.len() > 0,
        fields.len() == gindices.len(),
        forall|i: int|
            0 <= i < fields.len() ==> #[trigger] fields[i] < roots.len() && gindices[i] == pow2(depth)
                + fields[i],
        forall|i: int, j: int| 0 <= i < j < fields.len() ==> fields[i] != fields[j],
        balanced::is_multiproof(roots, gindices, outcome),
    ensures
        outcome matches Ok(nodes) && multiproof::proves_all(
            gindices,
            fields.map_values(|field: nat| roots[field as int]),
            hash::contents(nodes@),
            tree::root_of(roots, depth),
        ),
{
    let leaves = fields.map_values(|field: nat| roots[field as int]);
    lemma_pow2_unfold(depth + 1);
    lemma_pow2_pos(depth);
    assert(fields[0] < roots.len());
    assert forall|i: int| 0 <= i < gindices.len() implies pow2(depth) <= #[trigger] gindices[i]
        < pow2(depth + 1) by {
        assert(fields[i] < roots.len());
    }
    assert forall|i: int, j: int| 0 <= i < j < gindices.len() implies gindices[i]
        != gindices[j] by {
        assert(fields[i] != fields[j]);
    }
    index_sets::distinct_indices_of_one_depth_are_valid(gindices, depth);
    index_sets::sets_that_keep_clear_are_valid(gindices);
    a_multiproof_is_built_for_any_nodes_that_keep_clear(roots, gindices, depth, outcome);
    assert forall|i: int| 0 <= i < gindices.len() implies leaves[i] == tree::node_of(
        roots,
        depth,
        #[trigger] gindices[i] as nat,
    ) by {
        assert(fields[i] < roots.len());
        closed_forms::a_tree_hashes_its_leaves_into_its_root(roots, depth, gindices[i] as nat);
    }
    a_returned_multiproof_is_accepted(roots, gindices, depth, outcome->Ok_0, leaves);
}

// One index.

/// The siblings on the way up from an index.
spec fn sibling_indices(index: u64) -> Seq<u64> {
    Seq::new(
        spine::gindex_depth(index as nat),
        |step: int| branch::sibling(index as nat / pow2(step as nat)) as u64,
    )
}

proof fn lemma_above(index: u64, step: nat)
    requires
        index > 0,
        step <= spine::gindex_depth(index as nat),
    ensures
        0 < index as nat / pow2(step) <= u64::MAX,
        step < spine::gindex_depth(index as nat) ==> index as nat / pow2(step) > 1,
        spine::gindex_depth(index as nat / pow2(step)) == spine::gindex_depth(index as nat) - step,
{
    laws::lemma_depth_above(index as nat, step);
    lemma_pow2_pos(step);
    lemma_div_is_ordered_by_denominator(index as int, 1, pow2(step) as int);
}

proof fn lemma_single_helpers(index: u64)
    requires
        index > 0,
    ensures
        multiproof::helper_list(seq![index]) == sibling_indices(index),
{
    let indices = seq![index];
    let listed = sibling_indices(index);
    let depth = spine::gindex_depth(index as nat);
    multiproof::lemma_helper_list(indices);
    assert(indices[0] == index);
    assert forall|gindex: nat| gindex > 0 implies (#[trigger] multiproof::is_covered(indices, gindex)
        <==> multiproof::on_path(gindex, index as nat)) by {
        if multiproof::on_path(gindex, index as nat) {
            assert(multiproof::on_path(gindex, indices[0] as nat));
        }
    }
    assert forall|i: int, j: int| 0 <= i < j < listed.len() implies listed[i] > listed[j] by {
        let near = index as nat / pow2(i as nat);
        let far = index as nat / pow2(j as nat);
        lemma_above(index, i as nat);
        lemma_above(index, j as nat);
        multiproof::lemma_sibling_fits(near as u64);
        multiproof::lemma_sibling_fits(far as u64);
        lemma_pow2_adds(i as nat, (j - i) as nat);
        lemma_pow2_pos(i as nat);
        lemma_pow2_unfold((j - i) as nat);
        lemma_pow2_pos((j - i) as nat);
        lemma_pow2_pos((j - i - 1) as nat);
        lemma_div_denominator(index as int, pow2(i as nat) as int, pow2((j - i) as nat) as int);
        lemma_div_is_ordered_by_denominator(near as int, 2, pow2((j - i) as nat) as int);
        assert(far <= near / 2);
    }
    assert forall|gindex: u64| listed.contains(gindex) <==> multiproof::helper_list(
        indices,
    ).contains(gindex) by {
        if listed.contains(gindex) {
            let step = listed.index_of(gindex);
            let node = index as nat / pow2(step as nat);
            lemma_above(index, step as nat);
            multiproof::lemma_sibling_fits(node as u64);
            assert(branch::sibling(gindex as nat) == node);
            assert(closed_forms::halves_to(index as nat, node, 0));
            closed_forms::paths_lead_upwards_by_halving(node, index as nat);
            assert(multiproof::is_covered(indices, node));
            if multiproof::on_path(gindex as nat, index as nat) {
                lemma_same_depth_on_path(index, gindex as nat, node);
            }
            assert(!multiproof::is_covered(indices, gindex as nat));
            assert(multiproof::is_helper(indices, gindex as nat));
        }
        if multiproof::helper_list(indices).contains(gindex) {
            assert(multiproof::is_helper(indices, gindex as nat));
            let node = branch::sibling(gindex as nat);
            multiproof::lemma_sibling_fits(gindex);
            assert(multiproof::is_covered(indices, node));
            closed_forms::paths_lead_upwards_by_halving(node, index as nat);
            let step = (spine::gindex_depth(index as nat) - spine::gindex_depth(node)) as nat;
            lemma_step_of(index, node);
            assert(listed[step as int] == gindex);
        }
    }
    multiproof::lemma_descending_unique(listed, multiproof::helper_list(indices));
}

/// A node on a path lies as many steps up as it is less deep.
proof fn lemma_step_of(index: u64, node: nat)
    requires
        index > 0,
        node > 1,
        multiproof::on_path(node, index as nat),
    ensures
        ({
            let step = spine::gindex_depth(index as nat) - spine::gindex_depth(node);
            &&& 0 <= step < spine::gindex_depth(index as nat)
            &&& node == index as nat / pow2(step as nat)
        }),
{
    lemma2_to64();
    if node != index {
        closed_forms::lemma_ancestor_halves(node, index as nat);
    } else {
        assert(index as nat / 1 == index);
    }
}

proof fn lemma_same_depth_on_path(index: u64, a: nat, b: nat)
    requires
        index > 0,
        a > 1,
        b > 1,
        a / 2 == b / 2,
        multiproof::on_path(a, index as nat),
        multiproof::on_path(b, index as nat),
    ensures
        a == b,
{
    lemma_step_of(index, a);
    lemma_step_of(index, b);
}

/// A multiproof of a single index is a branch: the same nodes, in the same order, are accepted by
/// both verifiers for the same roots.
pub proof fn a_multiproof_of_one_index_is_a_branch(
    leaf: Seq<u8>,
    nodes: Seq<Seq<u8>>,
    index: u64,
    root: Seq<u8>,
)
    ensures
        multiproof::proves_all(seq![index], seq![leaf], nodes, root) <==> branch::proves(
            leaf,
            nodes,
            index as nat,
            root,
        ),
{
    let indices = seq![index];
    let leaves = seq![leaf];
    index_sets::sets_that_keep_clear_are_valid(indices);
    assert(indices[0] == index);
    if index > 0 {
        lemma_single_helpers(index);
        assert(index_sets::keep_clear(indices));
        if nodes.len() == spine::gindex_depth(index as nat) {
            index_sets::a_multiproof_is_accepted_where_a_tree_fits(
                indices,
                leaves,
                nodes,
                multiproof::multi_root(indices, leaves, nodes),
            );
            let tree = choose|tree: spec_fn(nat) -> Seq<u8>| #[trigger]
                index_sets::fits_together(indices, leaves, nodes, tree) && tree(1)
                    == multiproof::multi_root(indices, leaves, nodes);
            lemma_climb_fitting_tree(leaf, nodes, index, tree, nodes.len());
            lemma_above(index, nodes.len());
            assert(index as nat / pow2(nodes.len()) == 1);
        }
    }
}

proof fn lemma_climb_fitting_tree(
    leaf: Seq<u8>,
    nodes: Seq<Seq<u8>>,
    index: u64,
    tree: spec_fn(nat) -> Seq<u8>,
    steps: nat,
)
    requires
        index > 0,
        steps <= nodes.len(),
        nodes.len() == spine::gindex_depth(index as nat),
        multiproof::helper_list(seq![index]) == sibling_indices(index),
        index_sets::fits_together(seq![index], seq![leaf], nodes, tree),
    ensures
        branch::climb(leaf, nodes, index as nat, steps) == tree(index as nat / pow2(steps)),
    decreases steps,
{
    let indices = seq![index];
    assert(indices[0] == index);
    if steps == 0 {
        lemma2_to64();
        assert(index as nat / 1 == index);
        assert(tree(indices[0] as nat) == leaf);
    } else {
        let before = (steps - 1) as nat;
        let node = index as nat / pow2(before);
        lemma_climb_fitting_tree(leaf, nodes, index, tree, before);
        lemma_above(index, before);
        lemma_above(index, steps);
        branch::lemma_halve(index as nat, before);
        multiproof::lemma_sibling_fits(node as u64);
        assert(multiproof::helper_list(indices)[before as int] == branch::sibling(node) as u64);
        assert(tree(multiproof::helper_list(indices)[before as int] as nat)
            == nodes[before as int]);
        assert(tree(indices[0] as nat / pow2(steps)) == hash::hash32_concat_of(
            tree(2 * (indices[0] as nat / pow2(steps))),
            tree(2 * (indices[0] as nat / pow2(steps)) + 1),
        ));
        assert(node == 2 * (node / 2) || node == 2 * (node / 2) + 1);
    }
}

} // verus!
