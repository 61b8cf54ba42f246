//! What holds between the operations: proofs that are built are accepted, and what is accepted is
//! bound to the root.

use crate::active;
use crate::balanced;
use crate::branch;
use crate::closed_forms;
use crate::container;
use crate::hash;
use crate::multiproof;
use crate::spine;
use crate::tree;
use vstd::arithmetic::div_mod::*;
use vstd::arithmetic::mul::*;
use vstd::arithmetic::power2::*;
use vstd::prelude::*;

verus! {

// A field's branch leads to the container root.

/// While climbing the level's subtree, the index of the node has the parity of its position there.
proof fn lemma_subtree_parity(index: nat, height: nat)
    requires
        height <= 2 * spine::level_of(index),
    ensures
        spine::container_gindex(index) / pow2(height) == 2 * spine::spine_gindex(
            spine::level_of(index),
        ) * pow2((2 * spine::level_of(index) - height) as nat) + spine::offset_of(index) / pow2(
            height,
        ),
        height < 2 * spine::level_of(index) ==> (spine::container_gindex(index) / pow2(height)) % 2
            == (spine::offset_of(index) / pow2(height)) % 2,
{
    let level = spine::level_of(index);
    let offset = spine::offset_of(index) as int;
    let rest = (2 * level - height) as nat;
    let node = 2 * spine::spine_gindex(level) as int;
    let low = pow2(height) as int;
    let high = pow2(rest) as int;
    lemma_pow2_pos(height);
    lemma_pow2_adds(height, rest);
    assert(node * (low * high) == low * (node * high)) by (nonlinear_arith);
    lemma_divide_sum(node * high, offset, low);
    if height < 2 * level {
        lemma_pow2_unfold(rest);
        let half = pow2((rest - 1) as nat) as int;
        assert(node * (2 * half) == 2 * (node * half)) by (nonlinear_arith);
    }
}

proof fn lemma_divide_sum(q: int, r: int, d: int)
    requires
        d > 0,
    ensures
        (d * q + r) / d == q + r / d,
{
    lemma_hoist_over_denominator(r, q, d as nat);
    assert(q * d == d * q) by (nonlinear_arith);
}

/// Joining a tree node with its sibling gives their parent in the tree.
proof fn lemma_join(leaves: Seq<Seq<u8>>, height: nat, position: nat, gindex: nat)
    requires
        gindex % 2 == position % 2,
    ensures
        branch::join(
            tree::tree_node(leaves, height, position),
            tree::tree_node(leaves, height, branch::sibling(position)),
            gindex,
        ) == tree::tree_node(leaves, height + 1, position / 2),
{
}

/// The parts of a field's branch.
proof fn lemma_branch_parts(roots: Seq<Seq<u8>>, mask: Seq<u8>, index: nat)
    ensures
        ({
            let level = spine::level_of(index);
            let siblings = container::container_branch(roots, mask, index);
            &&& siblings.len() == 3 * level + 2
            &&& forall|height: nat|
                height < 2 * level ==> #[trigger] siblings[height as int] == tree::tree_node(
                    container::level_leaves(roots, level),
                    height,
                    branch::sibling(spine::offset_of(index) / pow2(height)),
                )
            &&& siblings[2 * level as int] == container::spine_root(roots, level + 1)
            &&& forall|lower: nat|
                lower < level ==> siblings[3 * level - lower] == #[trigger] container::level_root(
                    roots,
                    lower,
                )
            &&& siblings[(3 * level + 1) as int] == mask
        }),
{
}

/// The leaf at `index` of the spine: a field, or zero past the last.
pub open spec fn leaf_of(roots: Seq<Seq<u8>>, index: nat) -> Seq<u8> {
    if index < roots.len() {
        roots[index as int]
    } else {
        hash::zero_node()
    }
}

proof fn lemma_climb_subtree(roots: Seq<Seq<u8>>, mask: Seq<u8>, index: nat, height: nat)
    requires
        spine::level_first(spine::level_of(index)) < roots.len(),
        height <= 2 * spine::level_of(index),
    ensures
        branch::climb(
            leaf_of(roots, index),
            container::container_branch(roots, mask, index),
            spine::container_gindex(index),
            height,
        ) == tree::tree_node(
            container::level_leaves(roots, spine::level_of(index)),
            height,
            spine::offset_of(index) / pow2(height),
        ),
    decreases height,
{
    let level = spine::level_of(index);
    let offset = spine::offset_of(index);
    let leaves = container::level_leaves(roots, level);
    if height == 0 {
        spine::lemma_level_of(index);
        spine::lemma_level(level);
        lemma2_to64();
        spine::lemma_level_ordered(level, level + 1);
        if index < roots.len() {
            assert(leaves[offset as int] == roots[index as int]);
        } else {
            assert(leaves.len() <= offset);
        }
        assert(offset / 1 == offset);
    } else {
        let below = (height - 1) as nat;
        lemma_branch_parts(roots, mask, index);
        lemma_climb_subtree(roots, mask, index, below);
        lemma_subtree_parity(index, below);
        branch::lemma_halve(offset, below);
        lemma_join(
            leaves,
            below,
            offset / pow2(below),
            spine::container_gindex(index) / pow2(below),
        );
    }
}

proof fn lemma_climb_spine(roots: Seq<Seq<u8>>, mask: Seq<u8>, index: nat, step: nat)
    requires
        spine::level_first(spine::level_of(index)) < roots.len(),
        step <= spine::level_of(index),
    ensures
        spine::container_gindex(index) / pow2(2 * spine::level_of(index) + 1 + step)
            == spine::spine_gindex((spine::level_of(index) - step) as nat),
        branch::climb(
            leaf_of(roots, index),
            container::container_branch(roots, mask, index),
            spine::container_gindex(index),
            2 * spine::level_of(index) + 1 + step,
        ) == container::spine_root(roots, (spine::level_of(index) - step) as nat),
    decreases step,
{
    let level = spine::level_of(index);
    let gindex = spine::container_gindex(index);
    let here = (level - step) as nat;
    let siblings = container::container_branch(roots, mask, index);
    lemma_branch_parts(roots, mask, index);
    spine::lemma_level_of(index);
    spine::lemma_level_ordered(here, level);
    if step == 0 {
        let below = 2 * level;
        let node = gindex / pow2(below);
        assert(spine::offset_of(index) / pow2(below) == 0) by {
            lemma_basic_div(spine::offset_of(index) as int, pow2(below) as int);
        }
        assert(node == 2 * spine::spine_gindex(level)) by {
            lemma_subtree_parity(index, below);
            lemma2_to64();
            assert((2 * level - below) as nat == 0);
            assert(2 * spine::spine_gindex(level) * 1 == 2 * spine::spine_gindex(level));
        }
        branch::lemma_halve(gindex, below);
        lemma_climb_subtree(roots, mask, index, below);
    } else {
        let before = (step - 1) as nat;
        lemma_climb_spine(roots, mask, index, before);
        branch::lemma_halve(gindex, 2 * level + 1 + before);
        assert(siblings[3 * level - here] == container::level_root(roots, here));
        assert(3 * level - here == 2 * level + 1 + before);
        assert(2 * level + 1 + step == (2 * level + 1 + before) + 1);
    }
}

/// The branch of any leaf of a level that holds a field is accepted, at its generalized index,
/// against the container's root: a field, or zero where the level is padded.
pub proof fn every_leaf_proves_against_the_root(roots: Seq<Seq<u8>>, mask: Seq<u8>, index: nat)
    requires
        spine::level_first(spine::level_of(index)) < roots.len(),
    ensures
        branch::proves(
            leaf_of(roots, index),
            container::container_branch(roots, mask, index),
            spine::container_gindex(index),
            container::container_root(roots, mask),
        ),
{
    let level = spine::level_of(index);
    lemma_branch_parts(roots, mask, index);
    lemma_climb_spine(roots, mask, index, level);
    spine::lemma_container_gindex(index);
    spine::lemma_first_leaf(level);
}

/// The branch built for any field of any container is accepted, at the field's generalized index,
/// against the container's root.
pub proof fn every_field_proves_against_the_root(
    roots: Seq<Seq<u8>>,
    mask: Seq<u8>,
    index: nat,
)
    requires
        index < roots.len(),
    ensures
        branch::proves(
            roots[index as int],
            container::container_branch(roots, mask, index),
            spine::container_gindex(index),
            container::container_root(roots, mask),
        ),
{
    spine::lemma_level_of(index);
    every_leaf_proves_against_the_root(roots, mask, index);
}

/// A field's branch holds as many nodes as its generalized index is deep.
pub proof fn a_branch_is_as_long_as_its_field_is_deep(
    roots: Seq<Seq<u8>>,
    mask: Seq<u8>,
    index: nat,
)
    ensures
        container::container_branch(roots, mask, index).len() == spine::gindex_depth(
            spine::container_gindex(index),
        ),
{
    lemma_branch_parts(roots, mask, index);
    spine::lemma_container_gindex(index);
}

// A field's branch does not depend on the field itself.

/// A tree node that is not above a leaf does not depend on that leaf.
proof fn lemma_node_beside_leaf(
    leaves: Seq<Seq<u8>>,
    leaf_index: nat,
    leaf: Seq<u8>,
    height: nat,
    index: nat,
)
    requires
        leaf_index < leaves.len(),
        leaf_index / pow2(height) != index,
    ensures
        tree::tree_node(leaves.update(leaf_index as int, leaf), height, index) == tree::tree_node(
            leaves,
            height,
            index,
        ),
    decreases height,
{
    if height == 0 {
        lemma2_to64();
        assert(leaf_index / 1 == leaf_index);
    } else {
        let below = (height - 1) as nat;
        branch::lemma_halve(leaf_index, below);
        lemma_node_beside_leaf(leaves, leaf_index, leaf, below, 2 * index);
        lemma_node_beside_leaf(leaves, leaf_index, leaf, below, 2 * index + 1);
    }
}

/// The levels that do not hold a field do not depend on it.
proof fn lemma_level_beside_field(roots: Seq<Seq<u8>>, index: nat, leaf: Seq<u8>, level: nat)
    requires
        index < roots.len(),
        level != spine::level_of(index),
    ensures
        container::level_root(roots.update(index as int, leaf), level) == container::level_root(
            roots,
            level,
        ),
{
    let own = spine::level_of(index);
    spine::lemma_level_of(index);
    if level < own {
        spine::lemma_level_ordered(level, own);
    } else {
        spine::lemma_level_ordered(own, level);
    }
    spine::lemma_level(level);
    assert(container::level_leaves(roots.update(index as int, leaf), level)
        =~= container::level_leaves(roots, level));
}

proof fn lemma_spine_past_field(roots: Seq<Seq<u8>>, index: nat, leaf: Seq<u8>, level: nat)
    requires
        index < roots.len(),
        level > spine::level_of(index),
    ensures
        container::spine_root(roots.update(index as int, leaf), level) == container::spine_root(
            roots,
            level,
        ),
    decreases roots.len() - level,
{
    if spine::level_first(level) < roots.len() {
        spine::lemma_width_exceeds(level);
        lemma_level_beside_field(roots, index, leaf, level);
        lemma_spine_past_field(roots, index, leaf, level + 1);
    }
}

/// The branch of a field is made of the other fields and the mask: it stays the same whatever the
/// field's own root is.
pub proof fn a_branch_does_not_depend_on_its_leaf(
    roots: Seq<Seq<u8>>,
    mask: Seq<u8>,
    index: nat,
    leaf: Seq<u8>,
)
    requires
        index < roots.len(),
    ensures
        container::container_branch(roots.update(index as int, leaf), mask, index)
            == container::container_branch(roots, mask, index),
{
    let level = spine::level_of(index);
    let offset = spine::offset_of(index);
    let changed = roots.update(index as int, leaf);
    let leaves = container::level_leaves(roots, level);
    spine::lemma_level_of(index);
    spine::lemma_level(level);
    assert(container::level_leaves(changed, level) =~= leaves.update(offset as int, leaf));
    assert forall|height: int| 0 <= height < 2 * level implies #[trigger] tree::tree_node(
        container::level_leaves(changed, level),
        height as nat,
        branch::sibling(offset / pow2(height as nat)),
    ) == tree::tree_node(leaves, height as nat, branch::sibling(offset / pow2(height as nat))) by {
        lemma_pow2_pos(height as nat);
        lemma_node_beside_leaf(
            leaves,
            offset,
            leaf,
            height as nat,
            branch::sibling(offset / pow2(height as nat)),
        );
    }
    assert(container::subtree_path(container::level_leaves(changed, level), 2 * level, offset)
        =~= container::subtree_path(leaves, 2 * level, offset));
    lemma_spine_past_field(roots, index, leaf, level + 1);
    assert forall|lower: nat| lower < level implies #[trigger] container::level_root(changed, lower)
        == container::level_root(roots, lower) by {
        lemma_level_beside_field(roots, index, leaf, lower);
    }
    assert(container::spine_path(changed, level) =~= container::spine_path(roots, level));
}

// A branch proves the nodes that it passes.

pub(crate) proof fn lemma_climb_on(
    leaf: Seq<u8>,
    siblings: Seq<Seq<u8>>,
    gindex: nat,
    steps: nat,
    more: nat,
)
    requires
        steps + more <= siblings.len(),
    ensures
        branch::climb(
            branch::climb(leaf, siblings, gindex, steps),
            siblings.skip(steps as int),
            gindex / pow2(steps),
            more,
        ) == branch::climb(leaf, siblings, gindex, steps + more),
    decreases more,
{
    let node = branch::climb(leaf, siblings, gindex, steps);
    let rest = siblings.skip(steps as int);
    let above = gindex / pow2(steps);
    lemma_pow2_pos(steps);
    if more > 0 {
        let before = (more - 1) as nat;
        lemma_climb_on(leaf, siblings, gindex, steps, before);
        lemma_pow2_adds(steps, before);
        lemma_pow2_pos(before);
        lemma_div_denominator(gindex as int, pow2(steps) as int, pow2(before) as int);
        assert(above / pow2(before) == gindex / pow2(steps + before));
        assert(rest[before as int] == siblings[(steps + before) as int]);
        assert(branch::climb(node, rest, above, more) == branch::climb(
            leaf,
            siblings,
            gindex,
            (steps + before) + 1,
        ));
    }
}

pub(crate) proof fn lemma_depth_above(gindex: nat, steps: nat)
    requires
        gindex > 0,
        steps <= spine::gindex_depth(gindex),
    ensures
        gindex / pow2(steps) > 0,
        spine::gindex_depth(gindex / pow2(steps)) == spine::gindex_depth(gindex) - steps,
    decreases steps,
{
    if steps == 0 {
        lemma2_to64();
        assert(gindex / 1 == gindex);
    } else {
        lemma_depth_above(gindex, (steps - 1) as nat);
        branch::lemma_halve(gindex, (steps - 1) as nat);
    }
}

/// A branch also proves every node that it passes on the way up, at that node's own generalized
/// index: which position is proved depends on the index alone.
pub proof fn an_interior_node_is_proved_at_its_own_gindex(
    leaf: Seq<u8>,
    siblings: Seq<Seq<u8>>,
    gindex: nat,
    root: Seq<u8>,
    steps: nat,
)
    requires
        branch::proves(leaf, siblings, gindex, root),
        steps <= siblings.len(),
    ensures
        branch::proves(
            branch::climb(leaf, siblings, gindex, steps),
            siblings.skip(steps as int),
            gindex / pow2(steps),
            root,
        ),
{
    lemma_climb_on(leaf, siblings, gindex, steps, (siblings.len() - steps) as nat);
    lemma_depth_above(gindex, steps);
}

// Where fields lie with respect to each other.

/// The first leaf of a later level lies past everything below the leaves of an earlier one.
proof fn lemma_levels_apart(level: nat, later: nat)
    requires
        level < later,
    ensures
        (2 * spine::spine_gindex(level) * spine::level_width(level) + spine::level_width(level))
            * pow2((3 * (later - level)) as nat) <= 2 * spine::spine_gindex(later)
            * spine::level_width(later),
{
    let gap = (later - level) as nat;
    let one = pow2(level) as int;
    let width = spine::level_width(level) as int;
    let step = pow2(gap) as int;
    spine::lemma_spine_gindex(level);
    spine::lemma_spine_gindex(later);
    lemma_pow2_adds(level, gap);
    lemma_pow2_adds(gap, gap);
    lemma_pow2_adds(2 * gap, gap);
    lemma_pow2_adds(2 * level, 2 * gap);
    lemma_pow2_pos(level);
    lemma_pow2_pos(2 * level);
    lemma2_to64();
    spine::lemma_pow2_ordered(1, gap);
    assert(2 * level + 2 * gap == 2 * later);
    assert(spine::level_width(later) == width * (step * step));
    assert(pow2(3 * gap) == (step * step) * step);
    assert((2 * (3 * one - 1) * width + width) * ((step * step) * step) <= 2 * (3 * (one * step)
        - 1) * (width * (step * step))) by (nonlinear_arith)
        requires
            one >= 1,
            width >= 1,
            step >= 2,
    {
        let square = width * (step * step);
        assert((2 * (3 * one - 1) * width + width) * ((step * step) * step) == (6 * one * step
            - step) * square);
        assert(2 * (3 * (one * step) - 1) * square == (6 * one * step - 2) * square);
        assert((6 * one * step - step) * square <= (6 * one * step - 2) * square);
    }
}

/// Generalized indices grow with the field index, and no field lies above another, so the fields of
/// a container are proved independently of each other.
pub proof fn later_fields_have_larger_gindices(index: nat, later: nat)
    requires
        index < later,
    ensures
        spine::container_gindex(index) < spine::container_gindex(later),
        !multiproof::is_ancestor(spine::container_gindex(index), spine::container_gindex(later)),
        !multiproof::is_ancestor(spine::container_gindex(later), spine::container_gindex(index)),
{
    let a = spine::container_gindex(index);
    let b = spine::container_gindex(later);
    let level = spine::level_of(index);
    let last = spine::level_of(later);
    spine::lemma_level_of(index);
    spine::lemma_level_of(later);
    spine::lemma_container_gindex(index);
    spine::lemma_container_gindex(later);
    if last < level {
        spine::lemma_level_ordered(last, level);
    }
    if level < last {
        let scale = pow2((3 * (last - level)) as nat);
        lemma_levels_apart(level, last);
        lemma_pow2_pos((3 * (last - level)) as nat);
        assert((a + 1) * scale <= b) by {
            lemma_mul_inequality(
                (a + 1) as int,
                (2 * spine::spine_gindex(level) * spine::level_width(level) + spine::level_width(
                    level,
                )) as int,
                scale as int,
            );
        }
        assert(a + 1 <= (a + 1) * scale) by (nonlinear_arith)
            requires
                scale > 0,
        ;
        if multiproof::is_ancestor(a, b) {
            closed_forms::lemma_ancestor_halves(a, b);
            lemma_fundamental_div_mod(b as int, scale as int);
            assert(b < (a + 1) * scale) by (nonlinear_arith)
                requires
                    b == scale * (b as int / scale as int) + b as int % scale as int,
                    b as int / scale as int == a,
                    b as int % (scale as int) < scale,
            ;
        }
    } else if multiproof::is_ancestor(a, b) {
        closed_forms::lemma_ancestor_halves(a, b);
    }
    if multiproof::is_ancestor(b, a) {
        closed_forms::lemma_ancestor_halves(b, a);
    }
}

// What a branch proves is bound to the root.

proof fn lemma_climbs_agree(
    leaf: Seq<u8>,
    siblings: Seq<Seq<u8>>,
    other_leaf: Seq<u8>,
    other_siblings: Seq<Seq<u8>>,
    gindex: nat,
    steps: nat,
)
    requires
        steps <= siblings.len(),
        steps <= other_siblings.len(),
        branch::climb(leaf, siblings, gindex, steps) == branch::climb(
            other_leaf,
            other_siblings,
            gindex,
            steps,
        ),
        forall|step: nat|
            step < steps ==> !#[trigger] branch::collide(
                branch::joined_at(leaf, siblings, gindex, step),
                branch::joined_at(other_leaf, other_siblings, gindex, step),
            ),
    ensures
        leaf == other_leaf,
        forall|step: int| 0 <= step < steps ==> siblings[step] == other_siblings[step],
    decreases steps,
{
    if steps > 0 {
        let before = (steps - 1) as nat;
        assert(!branch::collide(
            branch::joined_at(leaf, siblings, gindex, before),
            branch::joined_at(other_leaf, other_siblings, gindex, before),
        ));
        lemma_climbs_agree(leaf, siblings, other_leaf, other_siblings, gindex, before);
    }
}

/// Two branches that are accepted at the same generalized index under the same root prove the same
/// leaf and are the same branch, unless the hash collides at one of the steps. So a tampered leaf
/// or branch is rejected wherever the hash does not collide.
pub proof fn a_branch_binds_its_leaf(
    leaf: Seq<u8>,
    siblings: Seq<Seq<u8>>,
    other_leaf: Seq<u8>,
    other_siblings: Seq<Seq<u8>>,
    gindex: nat,
    root: Seq<u8>,
)
    requires
        branch::proves(leaf, siblings, gindex, root),
        branch::proves(other_leaf, other_siblings, gindex, root),
    ensures
        (leaf == other_leaf && siblings == other_siblings) || exists|step: nat|
            step < spine::gindex_depth(gindex) && #[trigger] branch::collide(
                branch::joined_at(leaf, siblings, gindex, step),
                branch::joined_at(other_leaf, other_siblings, gindex, step),
            ),
{
    if !(exists|step: nat|
        step < spine::gindex_depth(gindex) && #[trigger] branch::collide(
            branch::joined_at(leaf, siblings, gindex, step),
            branch::joined_at(other_leaf, other_siblings, gindex, step),
        )) {
        lemma_climbs_agree(
            leaf,
            siblings,
            other_leaf,
            other_siblings,
            gindex,
            siblings.len(),
        );
        assert(siblings =~= other_siblings);
    }
}

/// Whatever is accepted as a field of a container, at the field's generalized index under the
/// container's root, is that field, unless the hash collides on the way up.
pub proof fn an_accepted_field_is_genuine(
    roots: Seq<Seq<u8>>,
    mask: Seq<u8>,
    index: nat,
    leaf: Seq<u8>,
    siblings: Seq<Seq<u8>>,
)
    requires
        index < roots.len(),
        branch::proves(
            leaf,
            siblings,
            spine::container_gindex(index),
            container::container_root(roots, mask),
        ),
    ensures
        leaf == roots[index as int] || exists|step: nat|
            step < spine::gindex_depth(spine::container_gindex(index))
                && #[trigger] branch::collide(
                branch::joined_at(leaf, siblings, spine::container_gindex(index), step),
                branch::joined_at(
                    roots[index as int],
                    container::container_branch(roots, mask, index),
                    spine::container_gindex(index),
                    step,
                ),
            ),
{
    every_field_proves_against_the_root(roots, mask, index);
    a_branch_binds_its_leaf(
        leaf,
        siblings,
        roots[index as int],
        container::container_branch(roots, mask, index),
        spine::container_gindex(index),
        container::container_root(roots, mask),
    );
}

/// Whether the hash collides on the way up from the field at `index`, between two containers.
pub open spec fn collides_above_field(
    roots: Seq<Seq<u8>>,
    mask: Seq<u8>,
    other_roots: Seq<Seq<u8>>,
    other_mask: Seq<u8>,
    index: nat,
) -> bool {
    exists|step: nat|
        step < spine::gindex_depth(spine::container_gindex(index)) && #[trigger] branch::collide(
            branch::joined_at(
                roots[index as int],
                container::container_branch(roots, mask, index),
                spine::container_gindex(index),
                step,
            ),
            branch::joined_at(
                other_roots[index as int],
                container::container_branch(other_roots, other_mask, index),
                spine::container_gindex(index),
                step,
            ),
        )
}

/// A container's root commits to its `active_fields`, to how many fields it has and to each of
/// them: two containers with the same root are the same, unless the hash collides where
/// `active_fields` are mixed in or on the way up from some field.
pub proof fn a_container_root_binds_the_fields(
    roots: Seq<Seq<u8>>,
    mask: Seq<u8>,
    other_roots: Seq<Seq<u8>>,
    other_mask: Seq<u8>,
)
    requires
        active::describes(mask, roots),
        active::describes(other_mask, other_roots),
        container::container_root(roots, mask) == container::container_root(
            other_roots,
            other_mask,
        ),
    ensures
        (mask == other_mask && roots == other_roots) || branch::collide(
            (container::spine_root(roots, 0), mask),
            (container::spine_root(other_roots, 0), other_mask),
        ) || exists|index: nat|
            index < roots.len() && #[trigger] collides_above_field(
                roots,
                mask,
                other_roots,
                other_mask,
                index,
            ),
{
    if !branch::collide(
        (container::spine_root(roots, 0), mask),
        (container::spine_root(other_roots, 0), other_mask),
    ) && !(exists|index: nat|
        index < roots.len() && #[trigger] collides_above_field(
            roots,
            mask,
            other_roots,
            other_mask,
            index,
        )) {
        assert(mask == other_mask);
        active::active_fields_pin_the_field_count(mask, roots, other_roots);
        assert forall|index: int| 0 <= index < roots.len() implies roots[index]
            == other_roots[index] by {
            let field = index as nat;
            every_field_proves_against_the_root(roots, mask, field);
            every_field_proves_against_the_root(other_roots, mask, field);
            a_branch_binds_its_leaf(
                roots[index],
                container::container_branch(roots, mask, field),
                other_roots[index],
                container::container_branch(other_roots, mask, field),
                spine::container_gindex(field),
                container::container_root(roots, mask),
            );
            assert(!collides_above_field(roots, mask, other_roots, mask, field));
        }
        assert(roots =~= other_roots);
    }
}

// Trailing zero fields.

/// `roots`, followed by `count` zero fields.
pub open spec fn with_zero_fields(roots: Seq<Seq<u8>>, count: nat) -> Seq<Seq<u8>> {
    roots + Seq::new(count, |i: int| hash::zero_node())
}

proof fn lemma_zero_leaves(leaves: Seq<Seq<u8>>, count: nat, height: nat, index: nat)
    ensures
        tree::tree_node(with_zero_fields(leaves, count), height, index) == tree::tree_node(
            leaves,
            height,
            index,
        ),
    decreases height,
{
    if height > 0 {
        lemma_zero_leaves(leaves, count, (height - 1) as nat, 2 * index);
        lemma_zero_leaves(leaves, count, (height - 1) as nat, 2 * index + 1);
    }
}

proof fn lemma_zero_fields_in_spine(roots: Seq<Seq<u8>>, count: nat, last: nat, level: nat)
    requires
        roots.len() > 0,
        spine::level_holds(last, (roots.len() - 1) as nat),
        spine::level_holds(last, (roots.len() + count - 1) as nat),
        level <= last + 1,
    ensures
        container::spine_root(with_zero_fields(roots, count), level) == container::spine_root(
            roots,
            level,
        ),
    decreases last + 1 - level,
{
    let padded = with_zero_fields(roots, count);
    if level <= last {
        let leaves = container::level_leaves(roots, level);
        spine::lemma_level_ordered(level, last);
        lemma_zero_fields_in_spine(roots, count, last, level + 1);
        if level < last {
            spine::lemma_level_ordered(level + 1, last);
            assert(container::level_leaves(padded, level) =~= leaves);
        } else {
            assert(container::level_leaves(padded, level) =~= with_zero_fields(leaves, count));
            lemma_zero_leaves(leaves, count, 2 * level, 0);
        }
    }
}

/// Zero fields at the end of the last level do not show in the root of the spine, which is why the
/// number of fields is pinned by `active_fields`.
pub proof fn trailing_zero_fields_keep_the_spine_root(roots: Seq<Seq<u8>>, count: nat)
    requires
        roots.len() > 0,
        spine::level_of((roots.len() - 1) as nat) == spine::level_of(
            (roots.len() + count - 1) as nat,
        ),
    ensures
        container::spine_root(with_zero_fields(roots, count), 0) == container::spine_root(roots, 0),
{
    spine::lemma_level_of((roots.len() - 1) as nat);
    spine::lemma_level_of((roots.len() + count - 1) as nat);
    lemma_zero_fields_in_spine(
        roots,
        count,
        spine::level_of((roots.len() - 1) as nat),
        0,
    );
}

// A multiproof that is built leads to the root.

/// In a tree, a node below the leaves is the parent of the two nodes below it.
proof fn lemma_node_of_parent(roots: Seq<Seq<u8>>, depth: nat, gindex: nat)
    requires
        gindex > 0,
        tree::in_tree(depth, 2 * gindex),
    ensures
        tree::node_of(roots, depth, gindex) == hash::parent(
            tree::node_of(roots, depth, 2 * gindex),
            tree::node_of(roots, depth, 2 * gindex + 1),
        ),
{
    let below = spine::gindex_depth(gindex);
    spine::lemma_gindex_depth(gindex);
    lemma_pow2_unfold(below + 1);
    assert((2 * gindex) / 2 == gindex);
    assert((2 * gindex + 1) / 2 == gindex);
    let height = (depth - below) as nat;
    let index = (gindex - pow2(below)) as nat;
    assert(tree::node_of(roots, depth, 2 * gindex) == tree::tree_node(
        roots,
        (height - 1) as nat,
        2 * index,
    ));
    assert(tree::node_of(roots, depth, 2 * gindex + 1) == tree::tree_node(
        roots,
        (height - 1) as nat,
        2 * index + 1,
    ));
}

/// A tree that has the nodes at all indices has every node on their paths, and every helper node.
proof fn lemma_needed_in_tree(indices: Seq<u64>, depth: nat, gindex: nat)
    requires
        forall|i: int|
            0 <= i < indices.len() ==> tree::in_tree(depth, #[trigger] indices[i] as nat),
        gindex > 0,
        multiproof::is_covered(indices, gindex) || multiproof::is_helper(indices, gindex),
    ensures
        tree::in_tree(depth, gindex),
    decreases
        if multiproof::is_covered(indices, gindex) {
            0int
        } else {
            1int
        },
{
    if multiproof::is_covered(indices, gindex) {
        let i = choose|i: int|
            0 <= i < indices.len() && multiproof::on_path(gindex, #[trigger] indices[i] as nat);
        if gindex != indices[i] {
            multiproof::lemma_ancestor_smaller(gindex, indices[i] as nat);
        }
        balanced::lemma_in_tree_below(depth, indices[i] as nat, gindex);
    } else {
        let near = branch::sibling(gindex);
        lemma_needed_in_tree(indices, depth, near);
        assert(near / 2 == gindex / 2);
    }
}

/// Where the tree's own nodes are given at the indices and the helpers, every node on a path is
/// derived as the tree has it.
proof fn lemma_derived_in_tree(
    roots: Seq<Seq<u8>>,
    depth: nat,
    indices: Seq<u64>,
    nodes: Map<u64, Seq<u8>>,
    gindex: nat,
)
    requires
        forall|i: int|
            0 <= i < indices.len() ==> tree::in_tree(depth, #[trigger] indices[i] as nat),
        forall|key: u64| #[trigger]
            nodes.contains_key(key) <==> indices.contains(key) || multiproof::is_helper(
                indices,
                key as nat,
            ),
        forall|key: u64| #[trigger]
            nodes.contains_key(key) ==> nodes[key] == tree::node_of(roots, depth, key as nat),
        0 < gindex <= u64::MAX,
        multiproof::is_covered(indices, gindex) || multiproof::is_helper(indices, gindex),
    ensures
        multiproof::derived(nodes, gindex) == tree::node_of(roots, depth, gindex),
    decreases u64::MAX - gindex,
{
    if !nodes.contains_key(gindex as u64) {
        let near = multiproof::lemma_covered_child(indices, gindex);
        let far = branch::sibling(near);
        multiproof::lemma_sibling_fits(near as u64);
        lemma_derived_in_tree(roots, depth, indices, nodes, near);
        lemma_derived_in_tree(roots, depth, indices, nodes, far);
        lemma_needed_in_tree(indices, depth, near);
        lemma_needed_in_tree(indices, depth, far);
        lemma_node_of_parent(roots, depth, gindex);
    }
}

/// For any valid set of nodes of a balanced tree a multiproof is built, as long as the tree can be
/// padded, and it is accepted with those nodes against the root of the tree.
pub proof fn generated_multiproofs_verify(
    roots: Seq<Seq<u8>>,
    indices: Seq<u64>,
    leaves: Seq<Seq<u8>>,
)
    requires
        indices.len() > 0,
        multiproof::is_valid(indices),
        leaves.len() == indices.len(),
        balanced::indices_in_tree(roots.len(), indices),
        forall|i: int|
            0 <= i < indices.len() ==> leaves[i] == tree::node_of(
                roots,
                balanced::balanced_depth(roots.len()),
                #[trigger] indices[i] as nat,
            ),
    ensures
        balanced::can_be_padded(roots.len()) ==> balanced::helpers_in_tree(roots.len(), indices),
        multiproof::proves_all(
            indices,
            leaves,
            balanced::helper_nodes(roots, indices),
            tree::root_of(roots, balanced::balanced_depth(roots.len())),
        ),
{
    let depth = balanced::balanced_depth(roots.len());
    let helpers = multiproof::helper_list(indices);
    let nodes = balanced::helper_nodes(roots, indices);
    let start = multiproof::given(indices, leaves, helpers, nodes);
    multiproof::lemma_helper_list(indices);
    if helpers.len() > 0 {
        assert(helpers.contains(helpers[0]));
        lemma_needed_in_tree(indices, depth, helpers[0] as nat);
    }
    assert(indices.contains(indices[0]));
    multiproof::lemma_root_covered(indices);
    lemma_derived_in_tree(roots, depth, indices, start, 1);
    lemma2_to64();
}

/// The field at `index` of a balanced container is the node at `2^depth + index` of its tree.
pub proof fn a_field_is_a_leaf_of_the_balanced_tree(roots: Seq<Seq<u8>>, index: nat)
    requires
        index < roots.len(),
    ensures
        ({
            let depth = balanced::balanced_depth(roots.len());
            let gindex = pow2(depth) + index;
            &&& tree::in_tree(depth, gindex)
            &&& tree::node_of(roots, depth, gindex) == roots[index as int]
        }),
{
    let depth = balanced::balanced_depth(roots.len());
    balanced::lemma_balanced_depth(roots.len());
    lemma_pow2_unfold(depth + 1);
    lemma_pow2_pos(depth);
    spine::lemma_gindex_depth_unique(pow2(depth) + index, depth);
}

// What a multiproof proves is bound to the root.

proof fn lemma_below_given(
    nodes: Map<u64, Seq<u8>>,
    above: u64,
    below: u64,
    value: Seq<u8>,
    gindex: nat,
)
    requires
        nodes.contains_key(above),
        multiproof::is_ancestor(above as nat, below as nat),
        gindex > 0,
        !multiproof::is_ancestor(above as nat, gindex),
    ensures
        multiproof::derived(nodes.insert(below, value), gindex) == multiproof::derived(
            nodes,
            gindex,
        ),
    decreases 0x2_0000_0000_0000_0000 - gindex,
{
    if gindex <= u64::MAX && !nodes.contains_key(gindex as u64) {
        assert((2 * gindex) / 2 == gindex);
        assert((2 * gindex + 1) / 2 == gindex);
        lemma_below_given(nodes, above, below, value, 2 * gindex);
        lemma_below_given(nodes, above, below, value, 2 * gindex + 1);
    }
}

/// A node below another that is given is never hashed into the root, so any value would pass for
/// it. This is why index sets with an ancestor and its descendant are refused.
pub proof fn a_node_below_a_given_node_is_never_hashed(
    nodes: Map<u64, Seq<u8>>,
    above: u64,
    below: u64,
    value: Seq<u8>,
)
    requires
        nodes.contains_key(above),
        multiproof::is_ancestor(above as nat, below as nat),
    ensures
        multiproof::derived(nodes.insert(below, value), 1) == multiproof::derived(nodes, 1),
{
    lemma_below_given(nodes, above, below, value, 1);
}

/// The parent of a node on a path, or of a helper, is on a path and is not given.
pub(crate) proof fn lemma_needed_parent(indices: Seq<u64>, gindex: nat)
    requires
        multiproof::is_valid(indices),
        1 < gindex <= u64::MAX,
        multiproof::is_covered(indices, gindex) || multiproof::is_helper(indices, gindex),
    ensures
        multiproof::is_covered(indices, gindex / 2),
        !indices.contains((gindex / 2) as u64),
    decreases
        if multiproof::is_covered(indices, gindex) {
            0int
        } else {
            1int
        },
{
    if multiproof::is_covered(indices, gindex) {
        let i = choose|i: int|
            0 <= i < indices.len() && multiproof::on_path(gindex, #[trigger] indices[i] as nat);
        let index = indices[i] as nat;
        if gindex != index {
            multiproof::lemma_ancestor_transitive(gindex / 2, gindex, index);
        }
        assert(multiproof::is_ancestor(gindex / 2, index));
        assert(multiproof::on_path(gindex / 2, indices[i] as nat));
        if indices.contains((gindex / 2) as u64) {
            let above = indices.index_of((gindex / 2) as u64);
            assert(multiproof::is_ancestor(indices[above] as nat, indices[i] as nat));
            assert(multiproof::has_ancestor(indices, indices[i]));
        }
    } else {
        let near = branch::sibling(gindex);
        multiproof::lemma_sibling_fits(gindex as u64);
        assert(near > 1);
        lemma_needed_parent(indices, near);
    }
}

/// Whether the verifier hashes the two nodes below `gindex`: it is on a path, and not given.
pub open spec fn is_hashed(indices: Seq<u64>, gindex: nat) -> bool {
    multiproof::is_covered(indices, gindex) && !indices.contains(gindex as u64)
}

proof fn lemma_derivations_agree(
    indices: Seq<u64>,
    nodes: Map<u64, Seq<u8>>,
    other_nodes: Map<u64, Seq<u8>>,
    gindex: nat,
)
    requires
        multiproof::is_valid(indices),
        forall|key: u64| #[trigger]
            nodes.contains_key(key) <==> indices.contains(key) || multiproof::is_helper(
                indices,
                key as nat,
            ),
        forall|key: u64| #[trigger]
            other_nodes.contains_key(key) <==> indices.contains(key) || multiproof::is_helper(
                indices,
                key as nat,
            ),
        multiproof::derived(nodes, 1) == multiproof::derived(other_nodes, 1),
        forall|above: nat|
            0 < above <= u64::MAX && is_hashed(indices, above) ==> !#[trigger] branch::collide(
                multiproof::children(nodes, above),
                multiproof::children(other_nodes, above),
            ),
        0 < gindex <= u64::MAX,
        multiproof::is_covered(indices, gindex) || multiproof::is_helper(indices, gindex),
    ensures
        multiproof::derived(nodes, gindex) == multiproof::derived(other_nodes, gindex),
    decreases gindex,
{
    if gindex > 1 {
        let above = gindex / 2;
        lemma_needed_parent(indices, gindex);
        lemma_derivations_agree(indices, nodes, other_nodes, above);
        assert(!nodes.contains_key(above as u64));
        assert(!other_nodes.contains_key(above as u64));
        assert(!branch::collide(
            multiproof::children(nodes, above),
            multiproof::children(other_nodes, above),
        ));
        assert(gindex == 2 * above || gindex == 2 * above + 1);
    }
}

/// Two multiproofs that are accepted for the same indices under the same root prove the same leaves
/// and hold the same nodes, unless the hash collides at one of the nodes that the verifier hashes.
/// So wherever the hash does not collide a tampered leaf is rejected, and none is left unverified.
pub proof fn a_multiproof_binds_its_leaves(
    indices: Seq<u64>,
    leaves: Seq<Seq<u8>>,
    nodes: Seq<Seq<u8>>,
    other_leaves: Seq<Seq<u8>>,
    other_nodes: Seq<Seq<u8>>,
    root: Seq<u8>,
)
    requires
        multiproof::proves_all(indices, leaves, nodes, root),
        multiproof::proves_all(indices, other_leaves, other_nodes, root),
    ensures
        ({
            let helpers = multiproof::helper_list(indices);
            let start = multiproof::given(indices, leaves, helpers, nodes);
            let other_start = multiproof::given(indices, other_leaves, helpers, other_nodes);
            (leaves == other_leaves && nodes == other_nodes) || exists|gindex: nat|
                0 < gindex <= u64::MAX && is_hashed(indices, gindex) && #[trigger] branch::collide(
                    multiproof::children(start, gindex),
                    multiproof::children(other_start, gindex),
                )
        }),
{
    let helpers = multiproof::helper_list(indices);
    let start = multiproof::given(indices, leaves, helpers, nodes);
    let other_start = multiproof::given(indices, other_leaves, helpers, other_nodes);
    if !(exists|gindex: nat|
        0 < gindex <= u64::MAX && is_hashed(indices, gindex) && #[trigger] branch::collide(
            multiproof::children(start, gindex),
            multiproof::children(other_start, gindex),
        )) {
        multiproof::lemma_helper_list(indices);
        assert forall|i: int| 0 <= i < indices.len() implies leaves[i] == other_leaves[i] by {
            assert(indices.contains(indices[i]));
            assert(start.contains_key(indices[i]));
            multiproof::lemma_index_covered(indices, i);
            lemma_derivations_agree(indices, start, other_start, indices[i] as nat);
            assert(indices.index_of(indices[i]) == i);
        }
        assert forall|i: int| 0 <= i < helpers.len() implies nodes[i] == other_nodes[i] by {
            assert(helpers.contains(helpers[i]));
            assert(start.contains_key(helpers[i]));
            lemma_derivations_agree(indices, start, other_start, helpers[i] as nat);
            assert(helpers.index_of(helpers[i]) == i);
            if indices.contains(helpers[i]) {
                multiproof::lemma_index_covered(indices, indices.index_of(helpers[i]));
            }
        }
        assert(leaves =~= other_leaves);
        assert(nodes =~= other_nodes);
    }
}

/// The nodes of the balanced tree over `roots` at `indices`.
pub open spec fn nodes_at(roots: Seq<Seq<u8>>, indices: Seq<u64>) -> Seq<Seq<u8>> {
    indices.map_values(
        |gindex: u64|
            tree::node_of(roots, balanced::balanced_depth(roots.len()), gindex as nat),
    )
}

/// Whatever leaves are accepted at indices of a balanced tree, under its root, are the nodes of the
/// tree there, unless the hash collides at one of the nodes that the verifier hashes.
pub proof fn accepted_leaves_are_genuine(
    roots: Seq<Seq<u8>>,
    indices: Seq<u64>,
    leaves: Seq<Seq<u8>>,
    nodes: Seq<Seq<u8>>,
)
    requires
        balanced::indices_in_tree(roots.len(), indices),
        multiproof::proves_all(
            indices,
            leaves,
            nodes,
            tree::root_of(roots, balanced::balanced_depth(roots.len())),
        ),
    ensures
        ({
            let helpers = multiproof::helper_list(indices);
            let start = multiproof::given(indices, leaves, helpers, nodes);
            let genuine = multiproof::given(
                indices,
                nodes_at(roots, indices),
                helpers,
                balanced::helper_nodes(roots, indices),
            );
            leaves == nodes_at(roots, indices) || exists|gindex: nat|
                0 < gindex <= u64::MAX && is_hashed(indices, gindex) && #[trigger] branch::collide(
                    multiproof::children(start, gindex),
                    multiproof::children(genuine, gindex),
                )
        }),
{
    generated_multiproofs_verify(roots, indices, nodes_at(roots, indices));
    a_multiproof_binds_its_leaves(
        indices,
        leaves,
        nodes,
        nodes_at(roots, indices),
        balanced::helper_nodes(roots, indices),
        tree::root_of(roots, balanced::balanced_depth(roots.len())),
    );
}

// The helpers are what is needed, and no more.

/// A node above one that lies on a path is on that path.
pub(crate) proof fn lemma_covered_above(indices: Seq<u64>, above: nat, gindex: nat)
    requires
        multiproof::is_covered(indices, gindex),
        multiproof::on_path(above, gindex),
    ensures
        multiproof::is_covered(indices, above),
        multiproof::is_valid(indices) && above <= u64::MAX && indices.contains(above as u64)
            ==> above == gindex && indices.contains(gindex as u64),
{
    let i = choose|i: int|
        0 <= i < indices.len() && multiproof::on_path(gindex, #[trigger] indices[i] as nat);
    let index = indices[i] as nat;
    if above != gindex && gindex != index {
        multiproof::lemma_ancestor_transitive(above, gindex, index);
    }
    assert(multiproof::on_path(above, indices[i] as nat));
    if above != index && above <= u64::MAX && indices.contains(above as u64) {
        let j = indices.index_of(above as u64);
        assert(multiproof::is_ancestor(indices[j] as nat, indices[i] as nat));
        assert(multiproof::has_ancestor(indices, indices[i]));
    }
    if above == index && gindex != above {
        multiproof::lemma_ancestor_smaller(above, gindex);
        multiproof::lemma_ancestor_smaller(gindex, index);
    }
}

proof fn lemma_needed_derivable(indices: Seq<u64>, gindex: nat)
    requires
        0 < gindex <= u64::MAX,
        multiproof::is_covered(indices, gindex) || multiproof::is_helper(indices, gindex),
    ensures
        multiproof::derivable(multiproof::given_indices(indices), gindex),
    decreases u64::MAX - gindex,
{
    if !multiproof::given_indices(indices).contains(gindex as u64) {
        let near = multiproof::lemma_covered_child(indices, gindex);
        let far = branch::sibling(near);
        multiproof::lemma_sibling_fits(near as u64);
        lemma_needed_derivable(indices, near);
        lemma_needed_derivable(indices, far);
    }
}

/// Where no node is known at an index or below it, it cannot be derived.
proof fn lemma_nothing_known(known: Set<u64>, gindex: nat)
    requires
        gindex > 0,
        forall|key: u64| #[trigger]
            known.contains(key) ==> !multiproof::on_path(gindex, key as nat),
    ensures
        !multiproof::derivable(known, gindex),
    decreases 0x2_0000_0000_0000_0000 - gindex,
{
    if gindex <= u64::MAX {
        let child = 2 * gindex;
        assert(child / 2 == gindex);
        assert forall|key: u64| #[trigger] known.contains(key) implies !multiproof::on_path(
            child,
            key as nat,
        ) by {
            if multiproof::is_ancestor(child, key as nat) {
                multiproof::lemma_ancestor_transitive(gindex, child, key as nat);
            }
        }
        lemma_nothing_known(known, child);
    }
}

/// Without some helper, no node above it can be derived.
proof fn lemma_helper_needed(indices: Seq<u64>, helper: u64, gindex: nat)
    requires
        multiproof::is_valid(indices),
        multiproof::is_helper(indices, helper as nat),
        gindex > 0,
        multiproof::on_path(gindex, helper as nat),
    ensures
        !multiproof::derivable(multiproof::given_indices(indices).remove(helper), gindex),
    decreases helper - gindex,
{
    let known = multiproof::given_indices(indices).remove(helper);
    lemma_needed_parent(indices, helper as nat);
    if gindex == helper {
        assert forall|key: u64| #[trigger] known.contains(key) implies !multiproof::on_path(
            gindex,
            key as nat,
        ) by {
            if multiproof::on_path(gindex, key as nat) {
                if indices.contains(key) {
                    multiproof::lemma_index_covered(indices, indices.index_of(key));
                    lemma_covered_above(indices, gindex, key as nat);
                } else {
                    lemma_needed_parent(indices, key as nat);
                    lemma_covered_above(indices, gindex, (key / 2) as nat);
                }
            }
        }
        lemma_nothing_known(known, gindex);
    } else {
        multiproof::lemma_ancestor_smaller(gindex, helper as nat);
        lemma_covered_above(indices, gindex, (helper / 2) as nat);
        let child = multiproof::lemma_child_on_path(gindex, helper as nat);
        if child != helper {
            multiproof::lemma_ancestor_smaller(child, helper as nat);
        }
        lemma_helper_needed(indices, helper, child);
        assert(child == 2 * gindex || child == 2 * gindex + 1);
    }
}

/// The helpers make the root derivable, and none of them can be left out.
pub proof fn no_helper_can_be_left_out(indices: Seq<u64>, helper: u64)
    requires
        multiproof::is_valid(indices),
        multiproof::is_helper(indices, helper as nat),
    ensures
        multiproof::derivable(multiproof::given_indices(indices), 1),
        !multiproof::derivable(multiproof::given_indices(indices).remove(helper), 1),
{
    let i = choose|i: int|
        0 <= i < indices.len() && multiproof::on_path(
            branch::sibling(helper as nat),
            #[trigger] indices[i] as nat,
        );
    assert(indices.contains(indices[0]));
    multiproof::lemma_root_covered(indices);
    lemma_needed_derivable(indices, 1);
    multiproof::lemma_root_on_path(helper as nat);
    lemma_helper_needed(indices, helper, 1);
}

// The order in which indices are listed.

/// Whether `order` lists each of the first `count` positions once; `back` is its inverse.
pub open spec fn is_reordering(order: Seq<int>, back: Seq<int>, count: nat) -> bool {
    &&& order.len() == count
    &&& back.len() == count
    &&& forall|i: int|
        0 <= i < count ==> 0 <= #[trigger] order[i] < count && back[order[i]] == i
    &&& forall|i: int| 0 <= i < count ==> 0 <= #[trigger] back[i] < count && order[back[i]] == i
}

/// `items`, listed in the given order.
pub open spec fn reordered<A>(items: Seq<A>, order: Seq<int>) -> Seq<A> {
    Seq::new(order.len(), |i: int| items[order[i]])
}

pub(crate) proof fn lemma_reordered_members(indices: Seq<u64>, order: Seq<int>, back: Seq<int>)
    requires
        is_reordering(order, back, indices.len()),
    ensures
        forall|gindex: u64| #[trigger]
            reordered(indices, order).contains(gindex) <==> indices.contains(gindex),
        forall|gindex: nat| #[trigger]
            multiproof::is_covered(reordered(indices, order), gindex) <==> multiproof::is_covered(
                indices,
                gindex,
            ),
        multiproof::is_valid(indices) ==> multiproof::is_valid(reordered(indices, order)),
{
    let other = reordered(indices, order);
    assert forall|gindex: u64| #[trigger] other.contains(gindex) <==> indices.contains(gindex) by {
        if other.contains(gindex) {
            assert(indices[order[other.index_of(gindex)]] == gindex);
        }
        if indices.contains(gindex) {
            assert(other[back[indices.index_of(gindex)]] == gindex);
        }
    }
    assert forall|gindex: nat| #[trigger]
        multiproof::is_covered(other, gindex) <==> multiproof::is_covered(indices, gindex) by {
        if multiproof::is_covered(other, gindex) {
            let i = choose|i: int|
                0 <= i < other.len() && multiproof::on_path(gindex, #[trigger] other[i] as nat);
            assert(multiproof::on_path(gindex, indices[order[i]] as nat));
        }
        if multiproof::is_covered(indices, gindex) {
            let i = choose|i: int|
                0 <= i < indices.len() && multiproof::on_path(gindex, #[trigger] indices[i] as nat);
            assert(multiproof::on_path(gindex, other[back[i]] as nat));
        }
    }
    if multiproof::is_valid(indices) {
        assert forall|i: int, j: int| 0 <= i < j < other.len() implies other[i] != other[j] by {
            assert(order[i] != order[j]);
            assert(indices[order[i]] != indices[order[j]]);
        }
        assert forall|i: int| 0 <= i < other.len() implies !multiproof::has_ancestor(
            other,
            #[trigger] other[i],
        ) by {
            if multiproof::has_ancestor(other, other[i]) {
                let j = choose|j: int|
                    0 <= j < other.len() && multiproof::is_ancestor(
                        #[trigger] other[j] as nat,
                        other[i] as nat,
                    );
                assert(multiproof::is_ancestor(indices[order[j]] as nat, other[i] as nat));
                assert(multiproof::has_ancestor(indices, indices[order[i]]));
            }
        }
    }
}

/// The order in which indices are listed never matters: the same sets are valid, the same helpers
/// are needed, and the same proofs are accepted, as long as the leaves are listed in that order too.
pub proof fn listing_order_does_not_matter(
    indices: Seq<u64>,
    leaves: Seq<Seq<u8>>,
    nodes: Seq<Seq<u8>>,
    root: Seq<u8>,
    order: Seq<int>,
    back: Seq<int>,
)
    requires
        is_reordering(order, back, indices.len()),
        leaves.len() == indices.len(),
    ensures
        multiproof::is_valid(reordered(indices, order)) == multiproof::is_valid(indices),
        multiproof::helper_list(reordered(indices, order)) == multiproof::helper_list(indices),
        multiproof::proves_all(reordered(indices, order), reordered(leaves, order), nodes, root)
            == multiproof::proves_all(indices, leaves, nodes, root),
{
    let other = reordered(indices, order);
    let other_leaves = reordered(leaves, order);
    let helpers = multiproof::helper_list(indices);
    lemma_reordered_members(indices, order, back);
    lemma_reordered_members(other, back, order);
    assert(reordered(other, back) =~= indices);
    multiproof::lemma_helper_list(indices);
    multiproof::lemma_helper_list(other);
    assert forall|gindex: u64|
        multiproof::helper_list(other).contains(gindex) <==> helpers.contains(gindex) by {
        assert(multiproof::is_helper(other, gindex as nat) == multiproof::is_helper(
            indices,
            gindex as nat,
        ));
    }
    multiproof::lemma_descending_unique(multiproof::helper_list(other), helpers);
    if multiproof::is_valid(indices) {
        let start = multiproof::given(indices, leaves, helpers, nodes);
        let other_start = multiproof::given(other, other_leaves, helpers, nodes);
        assert forall|gindex: u64| start.contains_key(gindex) implies start[gindex]
            == other_start[gindex] by {
            if indices.contains(gindex) {
                let i = other.index_of(gindex);
                assert(other[i] == gindex);
                assert(indices[order[i]] == gindex);
                assert(indices.index_of(gindex) == order[i]);
            }
        }
        assert(start =~= other_start);
    }
}

} // verus!
