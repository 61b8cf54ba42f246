//! The shape of the progressive spine: which level holds a field, and where the field sits.

use vstd::arithmetic::power2::*;
use vstd::prelude::*;

verus! {

/// The number of leaves in the binary subtree at `level`: `4^level`.
pub open spec fn level_width(level: nat) -> nat {
    pow2(2 * level)
}

/// The index of the first field held by `level`: the number of fields in the levels before it.
pub open spec fn level_first(level: nat) -> nat
    decreases level,
{
    if level == 0 {
        0
    } else {
        level_first((level - 1) as nat) + level_width((level - 1) as nat)
    }
}

/// Whether `level` is the one that holds the field at `index`.
pub open spec fn level_holds(level: nat, index: nat) -> bool {
    level_first(level) <= index < level_first(level + 1)
}

/// The level that holds the field at `index`.
pub open spec fn level_of(index: nat) -> nat {
    choose|level: nat| level_holds(level, index)
}

/// The position of the field at `index` within its level.
pub open spec fn offset_of(index: nat) -> nat {
    (index - level_first(level_of(index))) as nat
}

/// The generalized index of the spine node at `level`, against the container's root: the root's
/// left child, then one step to the right for each level.
pub open spec fn spine_gindex(level: nat) -> nat
    decreases level,
{
    if level == 0 {
        2
    } else {
        2 * spine_gindex((level - 1) as nat) + 1
    }
}

/// The generalized index of the field at `index`, against the container's root: the left child of
/// its level's spine node, and from there `2 * level` steps down to its leaf.
pub open spec fn container_gindex(index: nat) -> nat {
    let level = level_of(index);
    2 * spine_gindex(level) * level_width(level) + offset_of(index)
}

/// The generalized index of the binary subtree at `level`, within the progressive tree alone.
pub open spec fn subtree_gindex(level: nat) -> nat {
    (pow2(level + 2) - 2) as nat
}

/// The generalized index of the first leaf of `level`, within the progressive tree alone.
pub open spec fn first_leaf_gindex(level: nat) -> nat {
    subtree_gindex(level) * level_width(level)
}

/// The depth of a generalized index: the number of steps from it up to the root.
pub open spec fn gindex_depth(gindex: nat) -> nat
    decreases gindex,
{
    if gindex <= 1 {
        0
    } else {
        1 + gindex_depth(gindex / 2)
    }
}

/// Whether every leaf of the field's level can be counted with a `usize`.
pub open spec fn level_fits(index: nat) -> bool {
    level_width(level_of(index)) <= usize::MAX
}

// Powers of two.

pub(crate) proof fn lemma_pow2_ordered(a: nat, b: nat)
    requires
        a <= b,
    ensures
        pow2(a) <= pow2(b),
{
    if a < b {
        lemma_pow2_strictly_increases(a, b);
    }
}

pub(crate) proof fn lemma_usize_range()
    ensures
        usize::BITS == 32 || usize::BITS == 64,
        usize::MAX + 1 == pow2(usize::BITS as nat),
{
    lemma2_to64();
    lemma2_to64_rest();
}

pub(crate) proof fn lemma_u64_range()
    ensures
        u64::MAX + 1 == pow2(64),
{
    lemma2_to64();
    lemma2_to64_rest();
}

/// `gindex` lies between the power of two at its depth and the next one.
pub proof fn lemma_gindex_depth(gindex: nat)
    requires
        gindex > 0,
    ensures
        pow2(gindex_depth(gindex)) <= gindex < pow2(gindex_depth(gindex) + 1),
    decreases gindex,
{
    lemma2_to64();
    if gindex > 1 {
        lemma_gindex_depth(gindex / 2);
        lemma_pow2_unfold(gindex_depth(gindex));
        lemma_pow2_unfold(gindex_depth(gindex) + 1);
    }
}

/// The depth of a generalized index is the only power of two bracket that it fits in.
pub proof fn lemma_gindex_depth_unique(gindex: nat, depth: nat)
    requires
        pow2(depth) <= gindex < pow2(depth + 1),
    ensures
        gindex_depth(gindex) == depth,
{
    lemma_pow2_pos(depth);
    lemma_gindex_depth(gindex);
    let found = gindex_depth(gindex);
    if found < depth {
        lemma_pow2_ordered(found + 1, depth);
    } else if depth < found {
        lemma_pow2_ordered(depth + 1, found);
    }
}

pub(crate) proof fn lemma_gindex_depth_of_pow2(depth: nat)
    ensures
        gindex_depth(pow2(depth)) == depth,
{
    lemma_pow2_unfold(depth + 1);
    lemma_pow2_pos(depth);
    lemma_gindex_depth_unique(pow2(depth), depth);
}

// Levels.

/// Each level is four times as wide as the one before it, and starts right after it.
pub proof fn lemma_level(level: nat)
    ensures
        level_width(level) > 0,
        level_width(level + 1) == 4 * level_width(level),
        level_first(level + 1) == level_first(level) + level_width(level),
        3 * level_first(level) + 1 == level_width(level),
    decreases level,
{
    lemma_pow2_pos(2 * level);
    lemma_pow2_unfold(2 * (level + 1));
    lemma_pow2_unfold((2 * (level + 1) - 1) as nat);
    if level == 0 {
        lemma2_to64();
    } else {
        lemma_level((level - 1) as nat);
    }
}

pub(crate) proof fn lemma_level_ordered(a: nat, b: nat)
    requires
        a <= b,
    ensures
        level_first(a) <= level_first(b),
        level_width(a) <= level_width(b),
        a < b ==> level_first(a + 1) <= level_first(b),
    decreases b,
{
    lemma_pow2_ordered(2 * a, 2 * b);
    lemma_level(a);
    if a < b {
        lemma_level((b - 1) as nat);
        lemma_level_ordered(a, (b - 1) as nat);
    }
}

/// Levels start at or past their own number, and are wider than it. So a `usize` can always count
/// one level past those that fit.
pub proof fn lemma_width_exceeds(level: nat)
    ensures
        level <= level_first(level),
        level < level_width(level),
    decreases level,
{
    lemma_level(level);
    if level > 0 {
        lemma_level((level - 1) as nat);
        lemma_width_exceeds((level - 1) as nat);
    }
}

/// Where the size of a level fits, so do the indices of all its fields.
pub(crate) proof fn lemma_last_index_fits(level: nat)
    requires
        level_width(level) <= usize::MAX,
    ensures
        level_first(level + 1) <= usize::MAX,
        2 * level < usize::BITS,
{
    lemma_usize_range();
    lemma_level(level);
    lemma_level(level + 1);
    if 2 * level >= usize::BITS {
        lemma_pow2_ordered(usize::BITS as nat, 2 * level);
    }
    lemma_pow2_ordered(2 * (level + 1), usize::BITS as nat);
}

/// The levels whose size fits are those before half the number of bits.
pub(crate) proof fn lemma_width_fits(level: nat)
    ensures
        level_width(level) <= usize::MAX <==> level < usize::BITS / 2,
{
    lemma_usize_range();
    if level < usize::BITS / 2 {
        lemma_pow2_strictly_increases(2 * level, usize::BITS as nat);
    } else {
        lemma_pow2_ordered(usize::BITS as nat, 2 * level);
    }
}

/// The levels whose first index fits are those up to half the number of bits. The last of them is
/// too wide to count, and starts at a third of `usize::MAX`.
pub(crate) proof fn lemma_first_fits(level: nat)
    ensures
        level_first(level) <= usize::MAX <==> level <= usize::BITS / 2,
        level == usize::BITS / 2 ==> level_first(level) == usize::MAX / 3,
{
    let half = (usize::BITS / 2) as nat;
    lemma_usize_range();
    lemma_level(half);
    if level <= half {
        lemma_level_ordered(level, half);
    } else {
        lemma_level_ordered(half, level);
    }
}

/// No field index is held by two levels.
pub proof fn lemma_level_of_unique(index: nat, level: nat)
    requires
        level_holds(level, index),
    ensures
        level_of(index) == level,
{
    let found = level_of(index);
    assert(level_holds(found, index));
    if found < level {
        lemma_level_ordered(found, level);
    } else if level < found {
        lemma_level_ordered(level, found);
    }
}

proof fn lemma_some_level_holds(index: nat, level: nat)
    requires
        level_first(level) <= index,
    ensures
        exists|found: nat| level_holds(found, index),
    decreases index - level_first(level),
{
    lemma_level(level);
    if index < level_first(level + 1) {
        assert(level_holds(level, index));
    } else {
        lemma_some_level_holds(index, level + 1);
    }
}

/// Every field index is held by some level.
pub proof fn lemma_level_of(index: nat)
    ensures
        level_holds(level_of(index), index),
        level_first(level_of(index)) + offset_of(index) == index,
        offset_of(index) < level_width(level_of(index)),
{
    lemma_some_level_holds(index, 0);
    lemma_level(level_of(index));
}

// Generalized indices.

/// The leaves of `level` have generalized indices from `2^(3 * level + 2) - 2^(2 * level + 1)` on
/// within the progressive tree, and all of them lie at depth `3 * level + 1` there.
pub(crate) proof fn lemma_first_leaf(level: nat)
    ensures
        first_leaf_gindex(level) == pow2(3 * level + 2) - pow2(2 * level + 1),
        2 * spine_gindex(level) * level_width(level) == first_leaf_gindex(level) + pow2(
            3 * level + 1,
        ),
        pow2(3 * level + 2) == 2 * pow2(3 * level + 1),
        pow2(2 * level + 1) == 2 * level_width(level),
        pow2(3 * level + 1) <= first_leaf_gindex(level),
        first_leaf_gindex(level) + level_width(level) <= pow2(3 * level + 2),
{
    lemma_spine_gindex(level);
    let one = pow2(level);
    let width = level_width(level) as int;
    lemma_pow2_adds(level, 2 * level);
    lemma_pow2_unfold(3 * level + 2);
    lemma_pow2_unfold(3 * level + 1);
    lemma_pow2_unfold(2 * level + 1);
    lemma_pow2_unfold(level + 2);
    lemma_pow2_unfold(level + 1);
    lemma_pow2_pos(level);
    lemma_pow2_pos(2 * level);
    lemma_pow2_ordered(2 * level + 1, 3 * level + 1);
    assert(one * width == pow2(3 * level));
    assert(subtree_gindex(level) == 4 * one - 2);
    assert((4 * one - 2) * width == 4 * (one * width) - 2 * width) by (nonlinear_arith);
    assert(2 * (3 * one - 1) * width == 6 * (one * width) - 2 * width) by (nonlinear_arith);
}

pub(crate) proof fn lemma_spine_gindex(level: nat)
    ensures
        spine_gindex(level) == 3 * pow2(level) - 1,
        spine_gindex(level) >= 2,
    decreases level,
{
    if level == 0 {
        lemma2_to64();
    } else {
        lemma_spine_gindex((level - 1) as nat);
        lemma_pow2_unfold(level);
    }
}

/// The generalized index of a field is its index within the progressive tree, with the leading one
/// bit counted again one place higher, and lies at depth `3 * level + 2`.
pub proof fn lemma_container_gindex(index: nat)
    ensures
        container_gindex(index) == first_leaf_gindex(level_of(index)) + offset_of(index) + pow2(
            3 * level_of(index) + 1,
        ),
        pow2(3 * level_of(index) + 1) <= first_leaf_gindex(level_of(index)) + offset_of(index)
            < pow2(3 * level_of(index) + 2),
        gindex_depth(container_gindex(index)) == 3 * level_of(index) + 2,
        container_gindex(index) <= u64::MAX <==> level_of(index) <= 20,
{
    let level = level_of(index);
    lemma_level_of(index);
    lemma_first_leaf(level);
    lemma_pow2_unfold(3 * level + 3);
    lemma_gindex_depth_unique(container_gindex(index), 3 * level + 2);
    lemma_u64_range();
    if level <= 20 {
        lemma_pow2_ordered(3 * level + 3, 64);
    } else {
        lemma_pow2_ordered(64, 3 * level + 2);
    }
}

/// The levels occupy disjoint ranges of generalized indices, in order.
proof fn lemma_first_leaf_ordered(a: nat, b: nat)
    requires
        a <= b,
    ensures
        first_leaf_gindex(a) <= first_leaf_gindex(b),
        level_width(a) <= level_width(b),
        first_leaf_gindex(a) + level_width(a) <= first_leaf_gindex(b) + level_width(b),
        a < b ==> first_leaf_gindex(a) + level_width(a) <= first_leaf_gindex(b),
{
    lemma_level_ordered(a, b);
    if a < b {
        lemma_first_leaf(a);
        lemma_first_leaf(b);
        lemma_pow2_ordered(3 * a + 2, 3 * b + 1);
    }
}

/// The bit just below the leading one tells the two halves of a depth apart.
proof fn lemma_second_bit(gindex: u64, shift: u64)
    requires
        shift < 63,
        pow2((shift + 1) as nat) <= gindex < pow2((shift + 2) as nat),
    ensures
        ((gindex >> shift) & 1 == 1) == (gindex >= pow2((shift + 1) as nat) + pow2(shift as nat)),
{
    let half = pow2(shift as nat);
    lemma_pow2_pos(shift as nat);
    lemma_pow2_unfold((shift + 1) as nat);
    lemma_pow2_unfold((shift + 2) as nat);
    vstd::bits::lemma_u64_shr_is_div(gindex, shift);
    let high = gindex >> shift;
    assert(high == gindex as nat / half);
    if gindex >= 3 * half {
        assert(gindex as nat / half == 3) by (nonlinear_arith)
            requires
                3 * half <= gindex < 4 * half,
                half > 0,
        ;
    } else {
        assert(gindex as nat / half == 2) by (nonlinear_arith)
            requires
                2 * half <= gindex < 3 * half,
                half > 0,
        ;
    }
    assert(3u64 & 1 == 1) by (bit_vector);
    assert(2u64 & 1 == 0) by (bit_vector);
}

/// Different fields of a container have different generalized indices, so a field can be found again
/// from its generalized index.
pub proof fn container_gindex_is_injective(a: nat, b: nat)
    requires
        container_gindex(a) == container_gindex(b),
    ensures
        a == b,
{
    lemma_container_gindex(a);
    lemma_container_gindex(b);
    lemma_level_of(a);
    lemma_level_of(b);
}

/// Every field lies under the root's left child: the right one is `active_fields`.
pub proof fn every_field_lies_left_of_active_fields(index: nat)
    ensures
        container_gindex(index) / pow2((gindex_depth(container_gindex(index)) - 1) as nat) == 2,
{
    let half = pow2(3 * level_of(index) + 1) as int;
    let gindex = container_gindex(index) as int;
    lemma_container_gindex(index);
    lemma_first_leaf(level_of(index));
    lemma_pow2_pos(3 * level_of(index) + 1);
    assert(gindex / half == 2) by (nonlinear_arith)
        requires
            0 < half,
            2 * half <= gindex < 3 * half,
    ;
}

// Executable functions.

/// The number of leaves in the binary subtree at `level`, or `None` once that no longer fits.
///
/// The ceiling is whatever `usize` can hold on the target: level 31 is the last that fits in 64
/// bits, and level 15 the last that fits in 32.
pub fn level_size(level: usize) -> (r: Option<usize>)
    ensures
        match r {
            Some(size) => size == level_width(level as nat),
            None => level_width(level as nat) > usize::MAX,
        },
{
    proof {
        lemma_usize_range();
    }
    if level < (usize::BITS / 2) as usize {
        proof {
            lemma_pow2_strictly_increases(2 * level as nat, usize::BITS as nat);
            vstd::bits::lemma_usize_shl_is_mul(1, (2 * level) as usize);
        }
        Some(1usize << (2 * level))
    } else {
        proof {
            lemma_pow2_ordered(usize::BITS as nat, 2 * level as nat);
        }
        None
    }
}

/// The index of the first field held by `level`, or `None` once that no longer fits a `usize`.
///
/// Levels hold `1, 4, 16, 64, ...` fields, so the first index of level `k` is `(4^k - 1) / 3`.
pub fn level_start(level: usize) -> (r: Option<usize>)
    ensures
        match r {
            Some(start) => start == level_first(level as nat),
            None => level_first(level as nat) > usize::MAX,
        },
{
    proof {
        lemma_level(level as nat);
        lemma_width_fits(level as nat);
        lemma_first_fits(level as nat);
    }
    match level_size(level) {
        Some(size) => Some((size - 1) / 3),
        // One level past those whose size fits, `4^k` is one more than the largest `usize`.
        None if level == (usize::BITS / 2) as usize => Some(usize::MAX / 3),
        None => None,
    }
}

/// The level holding `field_index`, and the offset of the field within that level.
///
/// Returns `None` for an index that no progressive container can hold.
pub fn locate(field_index: usize) -> (r: Option<(usize, usize)>)
    ensures
        match r {
            Some((level, offset)) => level_fits(field_index as nat) && level == level_of(
                field_index as nat,
            ) && offset == offset_of(field_index as nat),
            None => !level_fits(field_index as nat),
        },
{
    let mut level: usize = 0;
    proof {
        lemma_level(0);
    }
    loop
        invariant
            level_first(level as nat) <= field_index,
        ensures
            level_first(level as nat) <= field_index < level_first((level + 1) as nat),
        decreases field_index - level_first(level as nat),
    {
        proof {
            lemma_level(level as nat);
            lemma_first_fits(level as nat);
        }
        match level_start(level + 1) {
            // The next level starts at or below this index, so keep walking up the spine.
            Some(next) if next <= field_index => {
                level += 1;
            },
            // Either the next level starts past this index, or at an index past any `usize`. Both
            // mean that the index belongs to this one, if it fits.
            _ => {
                break;
            },
        }
    }
    let start: usize = level_start(level)?;
    let offset: usize = field_index - start;
    proof {
        lemma_level(level as nat);
        lemma_level_of_unique(field_index as nat, level as nat);
    }
    if offset >= level_size(level)? {
        return None;
    }
    Some((level, offset))
}

/// The generalized index of the left (binary subtree) child at `level`, within the progressive
/// tree alone, before `active_fields` is mixed in.
///
/// The spine puts these at `2, 6, 14, 30, ...`, which is `2^(k + 2) - 2`.
pub fn level_gindex(level: usize) -> (r: Option<u64>)
    ensures
        match r {
            Some(gindex) => gindex == subtree_gindex(level as nat) && pow2((level + 2) as nat)
                <= u64::MAX,
            None => pow2((level + 2) as nat) > u64::MAX,
        },
{
    proof {
        lemma_u64_range();
    }
    if level < 62 {
        proof {
            lemma_pow2_strictly_increases((level + 2) as nat, 64);
            lemma2_to64();
            lemma_pow2_ordered(2, (level + 2) as nat);
            vstd::bits::lemma_u64_shl_is_mul(1, (level + 2) as u64);
        }
        Some((1u64 << (level + 2)) - 2)
    } else {
        proof {
            lemma_pow2_ordered(64, (level + 2) as nat);
        }
        None
    }
}

/// The depth of a generalized index, which is its base two logarithm rounded down.
pub(crate) fn depth_of(gindex: u64) -> (r: u32)
    requires
        gindex > 0,
    ensures
        r == gindex_depth(gindex as nat),
        r < 64,
{
    let mut rest: u64 = gindex;
    let mut depth: u32 = 0;
    proof {
        lemma_gindex_depth(gindex as nat);
        lemma_u64_range();
        if gindex_depth(gindex as nat) >= 64 {
            lemma_pow2_ordered(64, gindex_depth(gindex as nat));
        }
    }
    while rest > 1
        invariant
            gindex_depth(gindex as nat) == depth + gindex_depth(rest as nat),
            gindex_depth(gindex as nat) < 64,
        decreases rest,
    {
        rest = rest / 2;
        depth += 1;
    }
    depth
}

/// The generalized index of `field_index` in a progressive container.
///
/// This is the index against the container's own root, so it already accounts for the
/// `active_fields` mix in. Unlike in a fixed depth container, two fields of the same container
/// generally sit at different depths.
///
/// Returns `None` for an index that no progressive container can hold.
pub fn progressive_container_gindex(field_index: usize) -> (r: Option<u64>)
    ensures
        match r {
            Some(gindex) => gindex == container_gindex(field_index as nat) && level_fits(
                field_index as nat,
            ),
            None => container_gindex(field_index as nat) > u64::MAX || !level_fits(
                field_index as nat,
            ),
        },
{
    let (level, offset) = locate(field_index)?;
    proof {
        lemma_container_gindex(field_index as nat);
        lemma_level_of(field_index as nat);
        lemma_first_leaf(level as nat);
        lemma_u64_range();
        if level > 20 {
            lemma_pow2_ordered(64, (3 * level + 1) as nat);
        } else {
            lemma_pow2_ordered((level + 2) as nat, 63);
            lemma_pow2_ordered((3 * level + 3) as nat, 63);
            lemma2_to64_rest();
        }
    }

    // Position within the progressive tree, whose root is the left child of the final root.
    let within: u64 = level_gindex(level)?.checked_mul(level_size(level)? as u64)?.checked_add(
        offset as u64,
    )?;

    // Graft that subtree under the left child of the final root. Stripping the leading one bit and
    // re-attaching it below the root's left child is the same as adding it back one place higher.
    let depth: u32 = depth_of(within);
    proof {
        lemma_gindex_depth_unique(within as nat, (3 * level + 1) as nat);
        vstd::bits::lemma_u64_shl_is_mul(1, depth as u64);
    }
    within.checked_add(1u64 << depth)
}

/// The depth of `field_index`, which is the number of nodes in its branch.
///
/// Returns `None` for an index that no progressive container can hold.
pub fn progressive_container_depth(field_index: usize) -> (r: Option<usize>)
    ensures
        match r {
            Some(depth) => depth == 3 * level_of(field_index as nat) + 2 && depth == gindex_depth(
                container_gindex(field_index as nat),
            ) && container_gindex(field_index as nat) <= u64::MAX && level_fits(field_index as nat),
            None => container_gindex(field_index as nat) > u64::MAX || !level_fits(
                field_index as nat,
            ),
        },
{
    // `2 * level` within the binary subtree, one for the spine sibling at this level, `level` more
    // walking back up the spine, and one for `active_fields`, which is `3 * level + 2`. It is read
    // off the gindex so that the two can never disagree about which indices fit.
    proof {
        lemma_container_gindex(field_index as nat);
    }
    Some(depth_of(progressive_container_gindex(field_index)?) as usize)
}

/// The field index that a generalized index refers to, inverting [`progressive_container_gindex`].
///
/// Returns `None` for a generalized index at which no progressive container has a field.
pub fn field_index_for_gindex(gindex: u64) -> (r: Option<usize>)
    ensures
        match r {
            Some(index) => container_gindex(index as nat) == gindex && level_fits(index as nat)
                && forall|other: nat| #[trigger] container_gindex(other) == gindex ==> other == index,
            None => forall|index: nat| #[trigger]
                container_gindex(index) == gindex ==> !level_fits(index),
        },
{
    proof {
        assert forall|index: nat| #[trigger] container_gindex(index) == gindex implies {
            let level = level_of(index);
            &&& gindex_depth(gindex as nat) == 3 * level + 2
            &&& gindex == first_leaf_gindex(level) + offset_of(index) + pow2(3 * level + 1)
            &&& first_leaf_gindex(level) + offset_of(index) < 2 * pow2(3 * level + 1)
        } by {
            lemma_container_gindex(index);
            lemma_first_leaf(level_of(index));
        }
    }
    if gindex < 2 {
        return None;
    }
    let top: u32 = depth_of(gindex);
    let half: u64 = 1u64 << (top - 1);
    proof {
        lemma_gindex_depth(gindex as nat);
        lemma_pow2_unfold(top as nat);
        lemma_pow2_unfold((top + 1) as nat);
        lemma_u64_range();
        lemma_pow2_strictly_increases((top - 1) as nat, 64);
        vstd::bits::lemma_u64_shl_is_mul(1, (top - 1) as u64);
        lemma_second_bit(gindex, (top - 1) as u64);
    }

    // The container hangs off the root's left child, so for any real field the bit just below the
    // leading one is clear. When it is set the gindex addresses the `active_fields` side of the mix
    // in; gindex 3 is that leaf.
    if (gindex >> (top - 1)) & 1 == 1 {
        return None;
    }

    // Undo the graft under the root's left child.
    let within: u64 = gindex - half;

    let mut level: usize = 0;
    loop
        invariant
            within == gindex - pow2((top - 1) as nat),
            pow2((top - 1) as nat) <= within < 2 * pow2((top - 1) as nat),
            2 <= gindex,
            1 <= top,
            level > 0 ==> level_width((level - 1) as nat) <= usize::MAX,
            forall|index: nat| #[trigger]
                container_gindex(index) == gindex ==> within == first_leaf_gindex(level_of(index))
                    + offset_of(index),
            level > 0 ==> first_leaf_gindex((level - 1) as nat) + level_width((level - 1) as nat)
                <= within,
        decreases gindex - level,
    {
        proof {
            assert forall|index: nat| #[trigger] container_gindex(index) == gindex implies level
                <= level_of(index) && first_leaf_gindex(level as nat) <= within && level_width(
                level as nat,
            ) <= level_width(level_of(index)) by {
                lemma_level_of(index);
                if level > level_of(index) {
                    lemma_first_leaf_ordered(level_of(index), (level - 1) as nat);
                } else {
                    lemma_first_leaf_ordered(level as nat, level_of(index));
                }
            }
            lemma_first_leaf(level as nat);
            lemma_u64_range();
            if level > 0 {
                lemma_width_exceeds((level - 1) as nat);
            }
            if level > 20 {
                lemma_pow2_ordered(64, (3 * level + 1) as nat);
            } else {
                lemma_pow2_ordered((level + 2) as nat, 63);
                lemma_pow2_ordered((3 * level + 3) as nat, 63);
                lemma2_to64_rest();
            }
        }
        let size: usize = level_size(level)?;
        let base: u64 = level_gindex(level)?.checked_mul(size as u64)?;
        if within < base {
            return None;
        }
        if within < base.checked_add(size as u64)? {
            proof {
                lemma_level(level as nat);
            }
            let start: usize = level_start(level)?;
            let offset: u64 = within - base;
            proof {
                let index = level_first(level as nat) + offset as nat;
                lemma_level(level as nat);
                lemma_last_index_fits(level as nat);
                lemma_level_of_unique(index, level as nat);
                lemma_container_gindex(index);
                lemma_pow2_unfold(top as nat);
                lemma_gindex_depth_unique(within as nat, (top - 1) as nat);
                lemma_gindex_depth_unique(within as nat, (3 * level + 1) as nat);
                assert forall|other: nat| #[trigger] container_gindex(other) == gindex implies other
                    == index by {
                    container_gindex_is_injective(other, index);
                }
            }
            return Some(start + offset as usize);
        }
        level += 1;
    }
}

} // verus!
