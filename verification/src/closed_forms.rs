//! What the definitions come to, in terms of numbers, bytes and digests alone.

use crate::active;
use crate::balanced;
use crate::container;
use crate::error;
use crate::error::Error;
use crate::hash;
use crate::hash::Hash256;
use crate::multiproof;
use crate::spine;
use crate::tree;
use vstd::arithmetic::div_mod::*;
use vstd::arithmetic::power::*;
use vstd::arithmetic::power2::*;
use vstd::prelude::*;

verus! {

// Nodes.

/// Thirty-two zero bytes.
pub open spec fn zero_bytes() -> Seq<u8> {
    seq![
        0u8, 0, 0, 0, 0, 0, 0, 0, 0, 0, 0, 0, 0, 0, 0, 0, 0, 0, 0, 0, 0, 0, 0, 0, 0, 0, 0, 0, 0, 0,
        0, 0,
    ]
}

/// An absent leaf is thirty-two zero bytes.
pub proof fn the_zero_node_is_all_zero_bytes()
    ensures
        hash::zero_node().len() == 32,
        forall|i: int| 0 <= i < 32 ==> #[trigger] hash::zero_node()[i] == 0,
        hash::zero_node() == zero_bytes(),
{
    assert(hash::zero_node() =~= zero_bytes());
}

/// A parent is the digest of its left child followed by its right child.
pub proof fn a_parent_is_the_digest_of_its_children(left: Seq<u8>, right: Seq<u8>)
    ensures
        hash::parent(left, right) == hash::hash32_concat_of(left, right),
{
}

/// The contents of a list of nodes are the bytes of each, in order.
pub proof fn contents_are_the_bytes_of_each_node(nodes: Seq<Hash256>)
    ensures
        hash::contents(nodes).len() == nodes.len(),
        forall|i: int| 0 <= i < nodes.len() ==> #[trigger] hash::contents(nodes)[i] == nodes[i]@,
{
}

// Generalized indices.

/// The depth of an index is its base two logarithm, rounded down.
pub proof fn a_depth_is_a_binary_logarithm(gindex: nat, depth: nat)
    requires
        gindex > 0,
    ensures
        spine::gindex_depth(gindex) == depth <==> pow2(depth) <= gindex < pow2(depth + 1),
{
    spine::lemma_gindex_depth(gindex);
    if pow2(depth) <= gindex < pow2(depth + 1) {
        spine::lemma_gindex_depth_unique(gindex, depth);
    }
}

/// The node at `gindex` is reached from the one at `index` by halving the index, any number of times
/// from `least` on.
pub open spec fn halves_to(index: nat, gindex: nat, least: nat) -> bool {
    gindex > 0 && exists|steps: nat| steps >= least && index / #[trigger] pow2(steps) == gindex
}

/// An ancestor is reached by halving the index once for each step up.
pub(crate) proof fn lemma_ancestor_halves(ancestor: nat, gindex: nat)
    requires
        multiproof::is_ancestor(ancestor, gindex),
    ensures
        spine::gindex_depth(ancestor) < spine::gindex_depth(gindex),
        ancestor == gindex / pow2(
            (spine::gindex_depth(gindex) - spine::gindex_depth(ancestor)) as nat,
        ),
    decreases gindex,
{
    lemma2_to64();
    if ancestor != gindex / 2 {
        lemma_ancestor_halves(ancestor, gindex / 2);
        let steps = (spine::gindex_depth(gindex / 2) - spine::gindex_depth(ancestor)) as nat;
        lemma_pow2_pos(steps);
        lemma_pow2_unfold(steps + 1);
        lemma_div_denominator(gindex as int, 2, pow2(steps) as int);
    }
}

proof fn lemma_halves_to_ancestor(gindex: nat, steps: nat)
    requires
        steps > 0,
        gindex / pow2(steps) > 0,
    ensures
        multiproof::is_ancestor(gindex / pow2(steps), gindex),
    decreases steps,
{
    lemma2_to64();
    if steps > 1 {
        let rest = (steps - 1) as nat;
        lemma_pow2_pos(rest);
        lemma_pow2_unfold(steps);
        lemma_div_denominator(gindex as int, 2, pow2(rest) as int);
        lemma_halves_to_ancestor(gindex / 2, rest);
        lemma_pow2_pos(steps);
        if gindex <= 1 {
            lemma_basic_div(gindex as int, pow2(steps) as int);
        }
    }
}

/// One node lies above another where its index is reached by halving the other's at least once, and
/// on its path where it is reached by halving it any number of times.
pub proof fn paths_lead_upwards_by_halving(gindex: nat, index: nat)
    requires
        gindex > 0,
    ensures
        multiproof::is_ancestor(gindex, index) <==> exists|steps: nat|
            steps >= 1 && index / #[trigger] pow2(steps) == gindex,
        multiproof::on_path(gindex, index) <==> exists|steps: nat|
            index / #[trigger] pow2(steps) == gindex,
        multiproof::is_ancestor(gindex, index) <==> halves_to(index, gindex, 1),
        multiproof::on_path(gindex, index) <==> halves_to(index, gindex, 0),
{
    lemma2_to64();
    assert(index / pow2(0) == index);
    if multiproof::is_ancestor(gindex, index) {
        lemma_ancestor_halves(gindex, index);
        let steps = (spine::gindex_depth(index) - spine::gindex_depth(gindex)) as nat;
        assert(index / pow2(steps) == gindex);
    }
    if halves_to(index, gindex, 1) {
        let steps = choose|steps: nat| steps >= 1 && index / #[trigger] pow2(steps) == gindex;
        lemma_halves_to_ancestor(index, steps);
    }
    if halves_to(index, gindex, 0) && gindex != index {
        let steps = choose|steps: nat| steps >= 0 && index / #[trigger] pow2(steps) == gindex;
        lemma_halves_to_ancestor(index, steps);
    }
}

// Levels of the spine.

/// Level `k` holds `4^k` fields and starts at field `(4^k - 1) / 3`.
pub proof fn levels_grow_by_a_factor_of_four(level: nat)
    ensures
        spine::level_width(level) == pow(4, level),
        3 * spine::level_first(level) + 1 == pow(4, level),
        spine::level_first(level) == (pow(4, level) - 1) / 3,
    decreases level,
{
    reveal(pow);
    spine::lemma_level(level);
    if level > 0 {
        levels_grow_by_a_factor_of_four((level - 1) as nat);
        spine::lemma_level((level - 1) as nat);
    } else {
        lemma2_to64();
    }
}

/// The field at position `offset` of level `k` is field `(4^k - 1) / 3 + offset`, and its
/// generalized index is `(6 * 2^k - 2) * 4^k + offset`, at depth `3 * k + 2`.
pub proof fn a_field_has_its_place_in_its_level(level: nat, offset: nat)
    requires
        offset < pow(4, level),
    ensures
        ({
            let index = ((pow(4, level) - 1) / 3 + offset) as nat;
            &&& spine::level_of(index) == level
            &&& spine::offset_of(index) == offset
            &&& spine::container_gindex(index) == (6 * pow2(level) - 2) * pow(4, level) + offset
            &&& spine::gindex_depth(spine::container_gindex(index)) == 3 * level + 2
        }),
{
    let index = ((pow(4, level) - 1) / 3 + offset) as nat;
    levels_grow_by_a_factor_of_four(level);
    spine::lemma_level(level);
    spine::lemma_level_of_unique(index, level);
    spine::lemma_container_gindex(index);
    spine::lemma_spine_gindex(level);
}

/// Every field has a place in some level.
pub proof fn every_field_has_a_level(index: nat)
    ensures
        spine::offset_of(index) < pow(4, spine::level_of(index)),
        index == (pow(4, spine::level_of(index)) - 1) / 3 + spine::offset_of(index),
{
    levels_grow_by_a_factor_of_four(spine::level_of(index));
    spine::lemma_level_of(index);
}

/// The level of a field can be counted with a `usize` for the first third of all indices.
pub proof fn a_third_of_all_indices_can_be_held(index: nat)
    ensures
        spine::level_fits(index) <==> index < usize::MAX / 3,
{
    let level = spine::level_of(index);
    let half = (usize::BITS / 2) as nat;
    spine::lemma_level_of(index);
    spine::lemma_width_fits(level);
    spine::lemma_first_fits(half);
    if level < half {
        spine::lemma_level_ordered(level, half);
    } else {
        spine::lemma_level_ordered(half, level);
    }
}

/// The generalized indices that fit in 64 bits are those of the first twenty-one levels, which hold
/// `(4^21 - 1) / 3` fields.
pub proof fn twenty_one_levels_have_gindices_in_64_bits(index: nat)
    ensures
        spine::container_gindex(index) <= u64::MAX <==> index < 1_466_015_503_701,
{
    let level = spine::level_of(index);
    spine::lemma_container_gindex(index);
    spine::lemma_level_of(index);
    spine::lemma_level(21);
    lemma2_to64_rest();
    if level <= 20 {
        spine::lemma_level_ordered(level, 21);
    } else {
        spine::lemma_level_ordered(21, level);
    }
}

/// The binary subtrees of the progressive tree hang at `4 * 2^k - 2` within it, and its spine nodes
/// at `3 * 2^k - 1` in the container.
pub proof fn subtrees_hang_off_the_spine(level: nat)
    ensures
        spine::subtree_gindex(level) == 4 * pow2(level) - 2,
        spine::spine_gindex(level) == 3 * pow2(level) - 1,
{
    spine::lemma_spine_gindex(level);
    lemma_pow2_unfold(level + 1);
    lemma_pow2_unfold(level + 2);
}

/// All field roots count towards the progressive root, as long as there are no more than a third of
/// what a `usize` can count.
pub proof fn a_third_of_all_roots_are_addressable(roots: Seq<Seq<u8>>)
    ensures
        roots.len() <= usize::MAX / 3 ==> container::addressable(roots) == roots,
        roots.len() > usize::MAX / 3 ==> container::addressable(roots) == roots.take(
            usize::MAX as int / 3,
        ),
{
    spine::lemma_first_fits((usize::BITS / 2) as nat);
    if roots.len() <= usize::MAX / 3 {
        assert(container::addressable(roots) =~= roots);
    }
}

// Binary trees.

/// The rows of a tree are its leaves, padded with zero nodes to a power of two, and above each row
/// the digests of its pairs, up to a single root.
pub proof fn a_tree_pairs_up_its_rows(rows: Seq<Vec<Hash256>>, leaves: Seq<Seq<u8>>, depth: nat)
    requires
        tree::is_tree(rows, leaves, depth),
    ensures
        rows.len() == depth + 1,
        forall|height: int|
            0 <= height <= depth ==> (#[trigger] rows[height])@.len() == pow2(
                (depth - height) as nat,
            ),
        forall|i: int|
            0 <= i < rows[0]@.len() ==> (#[trigger] rows[0]@[i])@ == (if i < leaves.len() {
                leaves[i]
            } else {
                zero_bytes()
            }),
        forall|height: int, i: int|
            0 < height <= depth && 0 <= i < rows[height]@.len() ==> (#[trigger] rows[height]@[i])@
                == hash::hash32_concat_of(
                rows[height - 1]@[2 * i]@,
                rows[height - 1]@[2 * i + 1]@,
            ),
        rows[depth as int]@.len() == 1,
        rows[depth as int]@[0]@ == tree::root_of(leaves, depth),
{
    lemma2_to64();
    the_zero_node_is_all_zero_bytes();
    assert(rows[depth as int]@.len() == pow2((depth - depth) as nat));
    assert forall|height: int, i: int|
        0 < height <= depth && 0 <= i < rows[height]@.len() implies (#[trigger] rows[height]@[i])@
        == hash::hash32_concat_of(rows[height - 1]@[2 * i]@, rows[height - 1]@[2 * i + 1]@) by {
        lemma_pow2_unfold((depth - (height - 1)) as nat);
        assert(rows[height]@.len() == pow2((depth - height) as nat));
        assert(rows[height - 1]@.len() == pow2((depth - (height - 1)) as nat));
        assert(rows[height - 1]@[2 * i]@ == tree::tree_node(
            leaves,
            (height - 1) as nat,
            (2 * i) as nat,
        ));
        assert(rows[height - 1]@[2 * i + 1]@ == tree::tree_node(
            leaves,
            (height - 1) as nat,
            (2 * i + 1) as nat,
        ));
        assert(tree::tree_node(leaves, height as nat, i as nat) == hash::parent(
            tree::tree_node(leaves, (height - 1) as nat, (2 * i) as nat),
            tree::tree_node(leaves, (height - 1) as nat, (2 * i + 1) as nat),
        ));
    }
}

/// A tree of depth `d` has nodes at the indices from 1 to `2^(d + 1) - 1`.
pub proof fn a_tree_has_nodes_up_to_its_depth(depth: nat, gindex: nat)
    ensures
        tree::in_tree(depth, gindex) <==> 0 < gindex < pow2(depth + 1),
{
    if gindex > 0 {
        let own = spine::gindex_depth(gindex);
        spine::lemma_gindex_depth(gindex);
        if own <= depth {
            spine::lemma_pow2_ordered(own + 1, depth + 1);
        } else {
            spine::lemma_pow2_ordered(depth + 1, own);
        }
    }
}

/// The leaves of a tree of depth `d` lie from index `2^d` on, padded with zero nodes, and every node
/// above them is the digest of the two below it, up to the root at index 1.
pub proof fn a_tree_hashes_its_leaves_into_its_root(leaves: Seq<Seq<u8>>, depth: nat, gindex: nat)
    requires
        0 < gindex < pow2(depth + 1),
    ensures
        gindex < pow2(depth) ==> tree::node_of(leaves, depth, gindex) == hash::hash32_concat_of(
            tree::node_of(leaves, depth, 2 * gindex),
            tree::node_of(leaves, depth, 2 * gindex + 1),
        ),
        gindex >= pow2(depth) ==> tree::node_of(leaves, depth, gindex) == (if gindex - pow2(depth)
            < leaves.len() {
            leaves[gindex - pow2(depth)]
        } else {
            zero_bytes()
        }),
        tree::node_of(leaves, depth, 1) == tree::root_of(leaves, depth),
{
    let below = spine::gindex_depth(gindex);
    lemma2_to64();
    the_zero_node_is_all_zero_bytes();
    spine::lemma_gindex_depth(gindex);
    if gindex < pow2(depth) {
        if below >= depth {
            spine::lemma_pow2_ordered(depth, below);
        }
        lemma_pow2_unfold(below + 1);
        assert((2 * gindex) / 2 == gindex);
        assert((2 * gindex + 1) / 2 == gindex);
        let height = (depth - below) as nat;
        let position = (gindex - pow2(below)) as nat;
        assert(tree::node_of(leaves, depth, 2 * gindex) == tree::tree_node(
            leaves,
            (height - 1) as nat,
            2 * position,
        ));
        assert(tree::node_of(leaves, depth, 2 * gindex + 1) == tree::tree_node(
            leaves,
            (height - 1) as nat,
            2 * position + 1,
        ));
    } else {
        spine::lemma_gindex_depth_unique(gindex, depth);
    }
}

/// The balanced tree over `n` leaves has the least depth `d` for which `n <= 2^d`.
pub proof fn a_balanced_tree_is_as_shallow_as_can_be(fields: nat, depth: nat)
    ensures
        balanced::balanced_depth(fields) == depth <==> (fields <= pow2(depth) && (depth == 0
            || pow2((depth - 1) as nat) < fields)),
{
    let own = balanced::balanced_depth(fields);
    balanced::lemma_balanced_depth(fields);
    lemma2_to64();
    if fields <= pow2(depth) && (depth == 0 || pow2((depth - 1) as nat) < fields) {
        if own < depth {
            spine::lemma_pow2_ordered(own, (depth - 1) as nat);
        } else if depth < own {
            spine::lemma_pow2_ordered(depth, (own - 1) as nat);
        }
    }
}

// Bitmasks.

/// Whether bit `i` is set, counting from the least significant bit of the first byte on.
pub open spec fn has_bit(mask: Seq<u8>, i: int) -> bool {
    (mask[i / 8] as nat / pow2((i % 8) as nat)) % 2 == 1
}

/// Whether a mask of thirty-two bytes declares exactly `fields` fields: it marks the last of them,
/// and none past it.
pub open spec fn declares(mask: Seq<u8>, fields: nat) -> bool {
    &&& fields <= 256
    &&& fields > 0 ==> has_bit(mask, fields - 1)
    &&& forall|i: int| fields <= i < 256 ==> !#[trigger] has_bit(mask, i)
}

/// Whether the field at `i` is not marked, and yet not zero.
pub open spec fn is_stray(mask: Seq<u8>, roots: Seq<Seq<u8>>, i: int) -> bool {
    !has_bit(mask, i) && roots[i] != zero_bytes()
}

/// Whether a mask of thirty-two bytes fits these field roots.
pub open spec fn fits_mask(mask: Seq<u8>, roots: Seq<Seq<u8>>) -> bool {
    &&& declares(mask, roots.len())
    &&& forall|i: int| 0 <= i < roots.len() ==> !#[trigger] is_stray(mask, roots, i)
}

/// A bit is read off its byte by dividing.
pub proof fn a_bit_is_a_digit_of_its_byte(mask: Seq<u8>, i: int)
    requires
        0 <= i,
    ensures
        active::bit_is_set(mask, i) <==> (mask[i / 8] as nat / pow2((i % 8) as nat)) % 2 == 1,
        active::bit_is_set(mask, i) <==> has_bit(mask, i),
{
    let byte = mask[i / 8];
    let bit = (i % 8) as u8;
    lemma2_to64();
    assert(byte & (1u8 << 0u8) != 0 <==> (byte / 1) % 2 == 1) by (bit_vector);
    assert(byte & (1u8 << 1u8) != 0 <==> (byte / 2) % 2 == 1) by (bit_vector);
    assert(byte & (1u8 << 2u8) != 0 <==> (byte / 4) % 2 == 1) by (bit_vector);
    assert(byte & (1u8 << 3u8) != 0 <==> (byte / 8) % 2 == 1) by (bit_vector);
    assert(byte & (1u8 << 4u8) != 0 <==> (byte / 16) % 2 == 1) by (bit_vector);
    assert(byte & (1u8 << 5u8) != 0 <==> (byte / 32) % 2 == 1) by (bit_vector);
    assert(byte & (1u8 << 6u8) != 0 <==> (byte / 64) % 2 == 1) by (bit_vector);
    assert(byte & (1u8 << 7u8) != 0 <==> (byte / 128) % 2 == 1) by (bit_vector);
    assert(bit == 0 || bit == 1 || bit == 2 || bit == 3 || bit == 4 || bit == 5 || bit == 6 || bit
        == 7);
}

proof fn lemma_bits(mask: Seq<u8>)
    ensures
        forall|i: int| 0 <= i ==> #[trigger] has_bit(mask, i) == active::bit_is_set(mask, i),
        forall|i: int| 0 <= i ==> #[trigger] active::bit_is_set(mask, i) == has_bit(mask, i),
{
    assert forall|i: int| 0 <= i implies #[trigger] has_bit(mask, i) == active::bit_is_set(
        mask,
        i,
    ) by {
        a_bit_is_a_digit_of_its_byte(mask, i);
    }
    assert forall|i: int| 0 <= i implies #[trigger] active::bit_is_set(mask, i) == has_bit(
        mask,
        i,
    ) by {
        a_bit_is_a_digit_of_its_byte(mask, i);
    }
}

proof fn lemma_declares(mask: Seq<u8>, fields: nat)
    requires
        mask.len() == 32,
    ensures
        active::is_canonical(mask, fields) <==> declares(mask, fields),
{
    active::lemma_highest_bit(mask, 256);
    assert forall|i: int| 0 <= i < 256 implies active::bit_is_set(mask, i) == #[trigger] has_bit(
        mask,
        i,
    ) by {
        a_bit_is_a_digit_of_its_byte(mask, i);
    }
    if declares(mask, fields) {
        match active::highest_bit(mask) {
            Some(highest) => {
                assert(has_bit(mask, highest as int));
            },
            None => {},
        }
    }
    if active::is_canonical(mask, fields) {
        assert forall|i: int| fields <= i < 256 implies !#[trigger] has_bit(mask, i) by {
            a_bit_is_a_digit_of_its_byte(mask, i);
        }
    }
}

proof fn lemma_stray(mask: Seq<u8>, roots: Seq<Seq<u8>>, i: int)
    requires
        0 <= i,
    ensures
        active::is_inactive_not_zero(mask, roots, i) <==> is_stray(mask, roots, i),
{
    a_bit_is_a_digit_of_its_byte(mask, i);
    the_zero_node_is_all_zero_bytes();
}

/// A mask describes exactly the field roots whose number it declares and whose unmarked fields are
/// zero.
pub proof fn a_mask_describes_the_roots_that_fit_it(mask: Seq<u8>, roots: Seq<Seq<u8>>)
    requires
        mask.len() == 32,
    ensures
        active::describes(mask, roots) <==> {
            &&& roots.len() <= 256
            &&& roots.len() > 0 ==> active::bit_is_set(mask, roots.len() - 1)
            &&& forall|i: int| roots.len() <= i < 256 ==> !#[trigger] active::bit_is_set(mask, i)
            &&& forall|i: int|
                0 <= i < roots.len() ==> #[trigger] active::bit_is_set(mask, i) || roots[i]
                    == hash::zero_node()
        },
        active::describes(mask, roots) <==> fits_mask(mask, roots),
{
    lemma_bits(mask);
    the_zero_node_is_all_zero_bytes();
    lemma_declares(mask, roots.len());
    assert forall|i: int| 0 <= i < roots.len() implies active::is_inactive_not_zero(mask, roots, i)
        == #[trigger] is_stray(mask, roots, i) by {
        lemma_stray(mask, roots, i);
    }
    if active::describes(mask, roots) {
        assert forall|i: int| 0 <= i < roots.len() implies !#[trigger] is_stray(mask, roots, i) by {
            assert(!active::is_inactive_not_zero(mask, roots, i));
        }
        assert forall|i: int| 0 <= i < roots.len() implies #[trigger] active::bit_is_set(mask, i)
            || roots[i] == hash::zero_node() by {
            assert(!is_stray(mask, roots, i));
        }
        assert forall|i: int| roots.len() <= i < 256 implies !#[trigger] active::bit_is_set(
            mask,
            i,
        ) by {
            assert(!has_bit(mask, i));
        }
    }
    if {
        &&& roots.len() <= 256
        &&& roots.len() > 0 ==> active::bit_is_set(mask, roots.len() - 1)
        &&& forall|i: int| roots.len() <= i < 256 ==> !#[trigger] active::bit_is_set(mask, i)
        &&& forall|i: int|
            0 <= i < roots.len() ==> #[trigger] active::bit_is_set(mask, i) || roots[i]
                == hash::zero_node()
    } {
        assert forall|i: int| roots.len() <= i < 256 implies !#[trigger] has_bit(mask, i) by {
            assert(!active::bit_is_set(mask, i));
        }
        assert forall|i: int| 0 <= i < roots.len() implies !#[trigger] is_stray(mask, roots, i) by {
            assert(active::bit_is_set(mask, i) || roots[i] == hash::zero_node());
        }
        assert(fits_mask(mask, roots));
    }
    if fits_mask(mask, roots) {
        assert forall|i: int| 0 <= i < roots.len() implies !active::is_inactive_not_zero(
            mask,
            roots,
            i,
        ) by {
            assert(!is_stray(mask, roots, i));
        }
    }
}

/// What is wrong with a mask: either it declares another number of fields, and then its highest bit
/// is reported with the number of fields; or it does not, and the first unmarked field that is not
/// zero is reported.
pub open spec fn is_misfit(mask: Seq<u8>, roots: Seq<Seq<u8>>, error: Error) -> bool {
    match error {
        Error::NonCanonicalActiveFields { highest_set, fields } => {
            &&& !declares(mask, roots.len())
            &&& fields == roots.len()
            &&& match highest_set {
                Some(highest) => declares(mask, (highest + 1) as nat),
                None => declares(mask, 0),
            }
        },
        Error::InactiveFieldNotZero { index } => {
            &&& declares(mask, roots.len())
            &&& index < roots.len()
            &&& is_stray(mask, roots, index as int)
            &&& forall|earlier: int|
                0 <= earlier < index ==> !#[trigger] is_stray(mask, roots, earlier)
        },
        _ => false,
    }
}

/// A mask that does not fit is refused for what is wrong with it.
pub proof fn a_mismatch_says_what_does_not_fit(mask: Seq<u8>, roots: Seq<Seq<u8>>, error: Error)
    requires
        mask.len() == 32,
    ensures
        active::mismatch(mask, roots, error) ==> !active::describes(mask, roots),
        active::mismatch(mask, roots, error) ==> match error {
            Error::NonCanonicalActiveFields { highest_set, fields } => {
                &&& fields == roots.len()
                &&& match highest_set {
                    Some(highest) => {
                        &&& highest < 256
                        &&& highest + 1 != roots.len()
                        &&& active::bit_is_set(mask, highest as int)
                        &&& forall|i: int|
                            highest < i < 256 ==> !#[trigger] active::bit_is_set(mask, i)
                    },
                    None => {
                        &&& roots.len() > 0
                        &&& forall|i: int| 0 <= i < 256 ==> !#[trigger] active::bit_is_set(mask, i)
                    },
                }
            },
            Error::InactiveFieldNotZero { index } => {
                &&& index < roots.len() <= 256
                &&& active::bit_is_set(mask, roots.len() - 1)
                &&& !active::bit_is_set(mask, index as int)
                &&& roots[index as int] != hash::zero_node()
                &&& forall|i: int|
                    0 <= i < index ==> #[trigger] active::bit_is_set(mask, i) || roots[i]
                        == hash::zero_node()
            },
            _ => false,
        },
        active::mismatch(mask, roots, error) <==> is_misfit(mask, roots, error),
        active::mismatch(mask, roots, error) ==> !fits_mask(mask, roots),
{
    lemma_declares(mask, roots.len());
    lemma_bits(mask);
    the_zero_node_is_all_zero_bytes();
    a_mask_describes_the_roots_that_fit_it(mask, roots);
    match error {
        Error::NonCanonicalActiveFields { highest_set, fields } => {
            match highest_set {
                Some(highest) => {
                    lemma_declares(mask, (highest + 1) as nat);
                    if declares(mask, (highest + 1) as nat) {
                        assert(has_bit(mask, (highest + 1) as nat - 1));
                        assert(active::bit_is_set(mask, highest as int));
                        assert forall|i: int| highest < i < 256 implies !#[trigger]
                            active::bit_is_set(mask, i) by {
                            assert(!has_bit(mask, i));
                        }
                    }
                },
                None => {
                    lemma_declares(mask, 0);
                    if declares(mask, 0) {
                        assert forall|i: int| 0 <= i < 256 implies !#[trigger] active::bit_is_set(
                            mask,
                            i,
                        ) by {
                            assert(!has_bit(mask, i));
                        }
                    }
                },
            }
        },
        Error::InactiveFieldNotZero { index } => {
            lemma_stray(mask, roots, index as int);
            assert forall|i: int| 0 <= i < roots.len() implies active::is_inactive_not_zero(
                mask,
                roots,
                i,
            ) == #[trigger] is_stray(mask, roots, i) by {
                lemma_stray(mask, roots, i);
            }
            if active::mismatch(mask, roots, error) {
                assert forall|earlier: int| 0 <= earlier < index implies !#[trigger] is_stray(
                    mask,
                    roots,
                    earlier,
                ) by {
                    assert(!active::is_inactive_not_zero(mask, roots, earlier));
                }
                assert forall|i: int| 0 <= i < index implies #[trigger] active::bit_is_set(mask, i)
                    || roots[i] == hash::zero_node() by {
                    assert(!is_stray(mask, roots, i));
                }
            }
            if is_misfit(mask, roots, error) {
                assert forall|earlier: int|
                    0 <= earlier < index implies !active::is_inactive_not_zero(
                    mask,
                    roots,
                    earlier,
                ) by {
                    assert(!is_stray(mask, roots, earlier));
                }
            }
        },
        _ => {},
    }
}

// Messages.

/// The number that decimal digits spell.
pub open spec fn number_of(digits: Seq<char>) -> int
    decreases digits.len(),
{
    if digits.len() == 0 {
        0
    } else {
        10 * number_of(digits.drop_last()) + (digits.last() as int - '0' as int)
    }
}

/// A number is written with the digits that spell it, the first of which is not a zero unless it is
/// the only one.
pub proof fn a_number_is_written_with_the_digits_that_spell_it(n: nat)
    ensures
        number_of(error::decimal(n)) == n,
        error::decimal(n).len() > 0,
        error::decimal(n).len() > 1 <==> n >= 10,
        error::decimal(n).len() > 1 ==> error::decimal(n)[0] != '0',
        forall|i: int|
            0 <= i < error::decimal(n).len() ==> '0' <= #[trigger] error::decimal(n)[i] <= '9',
    decreases n,
{
    let digits = error::decimal(n);
    if n < 10 {
        assert(number_of(digits.drop_last()) == 0);
        assert(digits.last() as int == 48 + n);
    } else {
        a_number_is_written_with_the_digits_that_spell_it(n / 10);
        assert(digits.drop_last() =~= error::decimal(n / 10));
        assert(digits[0] == error::decimal(n / 10)[0]);
        assert(digits.last() as int == 48 + n % 10);
        if n / 10 < 10 {
            assert(error::decimal(n / 10)[0] as int == 48 + n / 10);
        }
    }
}

/// How an error reads, with each number that it carries in its place.
pub proof fn an_error_reads_with_its_numbers_in_place(a: usize, b: usize, x: u64, y: u64)
    ensures
        error::message_text(Error::FieldIndexOutOfBounds { index: a, len: b }) == "field index "@
            + error::decimal(a as nat) + " out of bounds for "@ + error::decimal(b as nat)
            + " fields"@,
        error::message_text(Error::NoFields) == "no field roots supplied"@,
        error::message_text(Error::LeafCountMismatch { leaves: a, indices: b }) == error::decimal(
            a as nat,
        ) + " leaves for "@ + error::decimal(b as nat) + " indices"@,
        error::message_text(Error::ProofCountMismatch { proof: a, expected: b }) == "proof has "@
            + error::decimal(a as nat) + " nodes, expected "@ + error::decimal(b as nat),
        error::message_text(Error::IncompleteProof) == "proof did not reach the root"@,
        error::message_text(Error::GindexOutOfTree { gindex: x }) == "gindex "@ + error::decimal(
            x as nat,
        ) + " is outside the tree"@,
        error::message_text(Error::NonCanonicalActiveFields { highest_set: Some(a), fields: b })
            == "active_fields highest set bit "@ + ("Some("@ + error::decimal(a as nat) + ")"@)
            + " does not match "@ + error::decimal(b as nat) + " fields"@,
        error::message_text(Error::NonCanonicalActiveFields { highest_set: None, fields: b })
            == "active_fields highest set bit "@ + "None"@ + " does not match "@ + error::decimal(
            b as nat,
        ) + " fields"@,
        error::message_text(Error::InactiveFieldNotZero { index: a }) == "field "@ + error::decimal(
            a as nat,
        ) + " is inactive but its root is not zero"@,
        error::message_text(Error::ZeroIndex) == "index 0 addresses no node"@,
        error::message_text(Error::DuplicateIndex { gindex: x }) == "index "@ + error::decimal(
            x as nat,
        ) + " appears twice"@,
        error::message_text(Error::OverlappingIndices { ancestor: x, descendant: y }) == "index "@
            + error::decimal(x as nat) + " is an ancestor of "@ + error::decimal(y as nat),
{
}

} // verus!
