//! Roots and branches of progressive containers.

use crate::active;
use crate::active::check_active_fields;
use crate::branch;
use crate::error::Error;
use crate::hash;
use crate::hash::{hash_pair, mix_in_active_fields, Hash256, BYTES_PER_CHUNK};
use crate::spine;
use crate::spine::{level_size, level_start, locate};
use crate::tree;
use crate::tree::{binary_tree, tree_root};
use vstd::arithmetic::div_mod::*;
use vstd::arithmetic::power2::*;
use vstd::prelude::*;

verus! {

/// The smaller of two numbers.
pub open spec fn smaller(a: nat, b: nat) -> nat {
    if a <= b {
        a
    } else {
        b
    }
}

/// The field roots held by `level`.
pub open spec fn level_leaves(roots: Seq<Seq<u8>>, level: nat) -> Seq<Seq<u8>> {
    roots.subrange(
        smaller(spine::level_first(level), roots.len()) as int,
        smaller(spine::level_first(level + 1), roots.len()) as int,
    )
}

/// The root of the binary subtree at `level`, padded with zero leaves to the level's width.
pub open spec fn level_root(roots: Seq<Seq<u8>>, level: nat) -> Seq<u8> {
    tree::root_of(level_leaves(roots, level), 2 * level)
}

/// The spine node at `level`: the level's binary subtree on the left, and the rest of the spine on
/// the right. Past the last field the spine is zero.
pub open spec fn spine_root(roots: Seq<Seq<u8>>, level: nat) -> Seq<u8>
    decreases roots.len() - level,
{
    if spine::level_first(level) >= roots.len() {
        hash::zero_node()
    } else {
        proof {
            spine::lemma_width_exceeds(level);
        }
        hash::parent(level_root(roots, level), spine_root(roots, level + 1))
    }
}

/// The root of a container: the spine's, joined with the packed `active_fields`.
pub open spec fn container_root(roots: Seq<Seq<u8>>, mask: Seq<u8>) -> Seq<u8> {
    hash::parent(spine_root(roots, 0), mask)
}

/// The field roots that lie in levels whose size fits a `usize`.
pub open spec fn addressable(roots: Seq<Seq<u8>>) -> Seq<Seq<u8>> {
    roots.take(smaller(spine::level_first((usize::BITS / 2) as nat), roots.len()) as int)
}

/// The siblings of the leaf at `index` and of its ancestors, in a tree of the given depth.
pub open spec fn subtree_path(leaves: Seq<Seq<u8>>, depth: nat, index: nat) -> Seq<Seq<u8>> {
    Seq::new(
        depth,
        |height: int| tree::tree_node(leaves, height as nat, branch::sibling(index / pow2(height as nat))),
    )
}

/// The siblings of the spine nodes from `level` up to the first: the binary subtrees before it.
pub open spec fn spine_path(roots: Seq<Seq<u8>>, level: nat) -> Seq<Seq<u8>> {
    Seq::new(level, |step: int| level_root(roots, (level - 1 - step) as nat))
}

/// The branch of the field at `index`, leaf first: up its level's subtree, the rest of the spine,
/// the earlier levels, and `active_fields`.
pub open spec fn container_branch(roots: Seq<Seq<u8>>, mask: Seq<u8>, index: nat) -> Seq<
    Seq<u8>,
> {
    let level = spine::level_of(index);
    subtree_path(level_leaves(roots, level), 2 * level, spine::offset_of(index)) + seq![
        spine_root(roots, level + 1),
    ] + spine_path(roots, level) + seq![mask]
}

/// What [`progressive_container_root`] returns: the root, where `active_fields` describes the
/// field roots, and otherwise why it does not.
pub open spec fn is_container_root(
    roots: Seq<Seq<u8>>,
    mask: Seq<u8>,
    outcome: Result<Hash256, Error>,
) -> bool {
    match outcome {
        Ok(root) => active::describes(mask, roots) && root@ == container_root(roots, mask),
        Err(error) => active::mismatch(mask, roots, error),
    }
}

/// What [`progressive_container_proof`] returns: the branch, where there is such a field and
/// `active_fields` describes the field roots, and otherwise the first of these that fails.
pub open spec fn is_container_proof(
    roots: Seq<Seq<u8>>,
    mask: Seq<u8>,
    index: nat,
    outcome: Result<Vec<Hash256>, Error>,
) -> bool {
    match outcome {
        Ok(nodes) => index < roots.len() && active::describes(mask, roots) && hash::contents(
            nodes@,
        ) == container_branch(roots, mask, index),
        Err(error) => if roots.len() == 0 {
            error == Error::NoFields
        } else if index >= roots.len() {
            error == (Error::FieldIndexOutOfBounds {
                index: index as usize,
                len: roots.len() as usize,
            })
        } else {
            active::mismatch(mask, roots, error)
        },
    }
}

/// Whether `trees` are the binary subtrees of the first levels of `roots`.
pub open spec fn are_level_trees(trees: Seq<Vec<Vec<Hash256>>>, roots: Seq<Seq<u8>>) -> bool {
    forall|level: int|
        0 <= level < trees.len() ==> tree::is_tree(
            (#[trigger] trees[level])@,
            level_leaves(roots, level as nat),
            2 * level as nat,
        )
}

/// The root of the spine from `level` downwards, over the binary subtree roots.
pub open spec fn rest_of(levels: Seq<Seq<u8>>, level: nat) -> Seq<u8>
    decreases levels.len() - level,
{
    if level >= levels.len() {
        hash::zero_node()
    } else {
        hash::parent(levels[level as int], rest_of(levels, level + 1))
    }
}

/// The binary subtree for each level covered by `field_roots`, bottom up per level.
pub(crate) fn level_trees(field_roots: &[Hash256]) -> (r: Vec<Vec<Vec<Hash256>>>)
    ensures
        are_level_trees(r@, hash::contents(field_roots@)),
        field_roots@.len() <= spine::level_first(r@.len()) || spine::level_width(r@.len())
            > usize::MAX,
        r@.len() > 0 ==> spine::level_first((r@.len() - 1) as nat) < field_roots@.len()
            && spine::level_width((r@.len() - 1) as nat) <= usize::MAX,
{
    let ghost roots = hash::contents(field_roots@);
    let count: usize = field_roots.len();
    let mut trees: Vec<Vec<Vec<Hash256>>> = Vec::new();
    loop
        invariant
            count == field_roots@.len(),
            roots == hash::contents(field_roots@),
            are_level_trees(trees@, roots),
            trees@.len() > 0 ==> spine::level_first((trees@.len() - 1) as nat) < roots.len()
                && spine::level_width((trees@.len() - 1) as nat) <= usize::MAX,
        ensures
            are_level_trees(trees@, roots),
            roots.len() <= spine::level_first(trees@.len()) || spine::level_width(trees@.len())
                > usize::MAX,
            trees@.len() > 0 ==> spine::level_first((trees@.len() - 1) as nat) < roots.len()
                && spine::level_width((trees@.len() - 1) as nat) <= usize::MAX,
        decreases roots.len() - trees@.len(),
    {
        let level: usize = trees.len();
        let ghost before = trees@;
        match (level_start(level), level_size(level)) {
            (Some(start), Some(size)) => {
                if start >= count {
                    break;
                }
                proof {
                    spine::lemma_level(level as nat);
                    spine::lemma_width_exceeds(level as nat);
                    spine::lemma_last_index_fits(level as nat);
                    spine::lemma_gindex_depth_of_pow2(2 * level as nat);
                }
                let end: usize = if start + size <= count {
                    start + size
                } else {
                    count
                };
                let leaves = vstd::slice::slice_subrange(field_roots, start, end);
                assert(hash::contents(leaves@) =~= level_leaves(roots, level as nat));
                trees.push(binary_tree(leaves, size));
                assert(trees@ =~= before.push(trees@.last()));
            },
            _ => {
                break;
            },
        }
    }
    trees
}

/// The root of each of `trees`.
fn tree_roots(trees: &[Vec<Vec<Hash256>>]) -> (r: Vec<Hash256>)
    requires
        forall|level: int|
            0 <= level < trees@.len() ==> (#[trigger] trees@[level])@.len() > 0
                && trees@[level]@.last()@.len() > 0,
    ensures
        r@.len() == trees@.len(),
        forall|level: int|
            0 <= level < r@.len() ==> #[trigger] r@[level] == trees@[level]@.last()@[0],
{
    let mut levels: Vec<Hash256> = Vec::new();
    while levels.len() < trees.len()
        invariant
            forall|level: int|
                0 <= level < trees@.len() ==> (#[trigger] trees@[level])@.len() > 0
                    && trees@[level]@.last()@.len() > 0,
            levels@.len() <= trees@.len(),
            forall|level: int|
                0 <= level < levels@.len() ==> #[trigger] levels@[level]
                    == trees@[level]@.last()@[0],
        decreases trees@.len() - levels@.len(),
    {
        levels.push(tree_root(trees[levels.len()].as_slice()));
    }
    levels
}

/// Every level's tree has a root, and it is the level's root.
proof fn lemma_level_trees(trees: Seq<Vec<Vec<Hash256>>>, roots: Seq<Seq<u8>>)
    requires
        are_level_trees(trees, roots),
    ensures
        forall|level: int|
            0 <= level < trees.len() ==> (#[trigger] trees[level])@.len() > 0
                && trees[level]@.last()@.len() > 0 && trees[level]@.last()@[0]@ == level_root(
                roots,
                level as nat,
            ),
{
    lemma2_to64();
    assert forall|level: int| 0 <= level < trees.len() implies (#[trigger] trees[level])@.len() > 0
        && trees[level]@.last()@.len() > 0 && trees[level]@.last()@[0]@ == level_root(
        roots,
        level as nat,
    ) by {
        let rows = trees[level]@;
        assert(rows.last() == rows[2 * level]);
        assert(rows[2 * level]@[0]@ == tree::tree_node(
            level_leaves(roots, level as nat),
            (2 * level) as nat,
            0,
        ));
    }
}

/// Whether `levels` are the binary subtree roots of all the levels that hold a field.
pub open spec fn are_level_roots(levels: Seq<Seq<u8>>, roots: Seq<Seq<u8>>) -> bool {
    &&& levels.len() > 0 ==> spine::level_first((levels.len() - 1) as nat) < roots.len()
    &&& roots.len() <= spine::level_first(levels.len())
    &&& forall|level: int|
        0 <= level < levels.len() ==> #[trigger] levels[level] == level_root(roots, level as nat)
}

proof fn lemma_rest_of(levels: Seq<Seq<u8>>, roots: Seq<Seq<u8>>, level: nat)
    requires
        are_level_roots(levels, roots),
        level <= levels.len(),
    ensures
        rest_of(levels, level) == spine_root(roots, level),
    decreases levels.len() - level,
{
    if level < levels.len() {
        spine::lemma_level_ordered(level, (levels.len() - 1) as nat);
        lemma_rest_of(levels, roots, level + 1);
    }
}

/// The levels that were built hold exactly the addressable field roots.
proof fn lemma_level_count(count: nat, roots: Seq<Seq<u8>>)
    requires
        count > 0 ==> spine::level_first((count - 1) as nat) < roots.len() && spine::level_width(
            (count - 1) as nat,
        ) <= usize::MAX,
        roots.len() <= spine::level_first(count) || spine::level_width(count) > usize::MAX,
    ensures
        count > 0 ==> spine::level_first((count - 1) as nat) < addressable(roots).len(),
        addressable(roots).len() <= spine::level_first(count),
        forall|level: nat|
            level < count ==> #[trigger] level_root(addressable(roots), level) == level_root(
                roots,
                level,
            ),
{
    let half = (usize::BITS / 2) as nat;
    let kept = addressable(roots);
    spine::lemma_usize_range();
    spine::lemma_width_fits(count);
    if count > 0 {
        spine::lemma_width_fits((count - 1) as nat);
        spine::lemma_level((count - 1) as nat);
    }
    spine::lemma_level_ordered(count, half);
    assert forall|level: nat| level < count implies #[trigger] level_root(kept, level)
        == level_root(roots, level) by {
        spine::lemma_level_ordered(level + 1, count);
        spine::lemma_level_ordered(level, count);
        assert(level_leaves(kept, level) =~= level_leaves(roots, level));
    }
}

/// The binary subtree root for each level covered by `field_roots`.
pub(crate) fn level_roots(field_roots: &[Hash256]) -> (r: Vec<Hash256>)
    ensures
        are_level_roots(
            hash::contents(r@),
            addressable(hash::contents(field_roots@)),
        ),
{
    let trees = level_trees(field_roots);
    proof {
        lemma_level_trees(trees@, hash::contents(field_roots@));
        lemma_level_count(trees@.len(), hash::contents(field_roots@));
    }
    tree_roots(trees.as_slice())
}

/// The root of the spine from `level` downwards, which is the sibling hanging off the right of
/// each level. Levels past the end of the container are empty, and hash to zero.
pub(crate) fn rest_root(level_roots: &[Hash256], level: usize) -> (r: Hash256)
    ensures
        r@ == rest_of(hash::contents(level_roots@), level as nat),
    decreases level_roots@.len() - level,
{
    if level >= level_roots.len() {
        return Hash256::zero();
    }
    let below = rest_root(level_roots, level + 1);
    hash_pair(&level_roots[level], &below)
}

/// The `merkleize_progressive` root of `field_roots`, before `active_fields` is mixed in.
///
/// Only field roots in levels whose size fits a `usize` count, which is far more of them than fit
/// in memory.
pub fn progressive_root(field_roots: &[Hash256]) -> (r: Hash256)
    ensures
        r@ == spine_root(addressable(hash::contents(field_roots@)), 0),
{
    let levels = level_roots(field_roots);
    proof {
        lemma_rest_of(
            hash::contents(levels@),
            addressable(hash::contents(field_roots@)),
            0,
        );
    }
    rest_root(levels.as_slice(), 0)
}

/// Field roots that all lie in the first sixteen levels are addressable on every target.
pub proof fn lemma_addressable(roots: Seq<Seq<u8>>)
    requires
        roots.len() <= 0x5555_5555,
    ensures
        addressable(roots) == roots,
{
    spine::lemma_usize_range();
    spine::lemma_level(16);
    lemma2_to64();
    spine::lemma_level_ordered(16, (usize::BITS / 2) as nat);
    assert(addressable(roots) =~= roots);
}

/// The full container root, with `active_fields` mixed in.
pub fn progressive_container_root(
    field_roots: &[Hash256],
    active_fields: [u8; BYTES_PER_CHUNK],
) -> (r: Result<Hash256, Error>)
    ensures
        is_container_root(hash::contents(field_roots@), active_fields@, r),
{
    match check_active_fields(&active_fields, field_roots) {
        Ok(()) => {
            proof {
                lemma_addressable(hash::contents(field_roots@));
            }
            Ok(mix_in_active_fields(&progressive_root(field_roots), active_fields))
        },
        Err(error) => Err(error),
    }
}

/// Build the merkle branch proving `field_roots[field_index]` against the container root.
///
/// The branch is ordered leaf first, so it pairs with
/// [`is_valid_merkle_branch`](crate::branch::is_valid_merkle_branch) and with the generalized index
/// from [`progressive_container_gindex`](crate::spine::progressive_container_gindex).
pub fn progressive_container_proof(
    field_roots: &[Hash256],
    active_fields: [u8; BYTES_PER_CHUNK],
    field_index: usize,
) -> (r: Result<Vec<Hash256>, Error>)
    ensures
        is_container_proof(
            hash::contents(field_roots@),
            active_fields@,
            field_index as nat,
            r,
        ),
{
    if field_roots.len() == 0 {
        return Err(Error::NoFields);
    }
    if field_index >= field_roots.len() {
        return Err(Error::FieldIndexOutOfBounds { index: field_index, len: field_roots.len() });
    }
    match check_active_fields(&active_fields, field_roots) {
        Ok(()) => {},
        Err(error) => {
            return Err(error);
        },
    }
    let ghost roots = hash::contents(field_roots@);

    // Every level's subtree is built once; the field's own level is read back out of the same set.
    let trees = level_trees(field_roots);
    proof {
        lemma_level_trees(trees@, roots);
        lemma_level_count(trees@.len(), roots);
        lemma_addressable(roots);
    }
    let levels = tree_roots(trees.as_slice());
    proof {
        lemma_covered(field_index as nat, roots.len(), trees@.len());
    }
    let (level, offset) = match locate(field_index) {
        Some(found) => found,
        None => {
            return Err(
                Error::FieldIndexOutOfBounds { index: field_index, len: field_roots.len() },
            );
        },
    };
    let rows = &trees[level];
    let ghost leaves = level_leaves(roots, level as nat);
    let ghost path = subtree_path(leaves, 2 * level as nat, offset as nat);

    let mut branch: Vec<Hash256> = Vec::new();

    // Sibling path up the binary subtree holding the field.
    let mut index: usize = offset;
    proof {
        lemma2_to64();
        spine::lemma_level_of(field_index as nat);
    }
    while branch.len() < rows.len() - 1
        invariant
            tree::is_tree(rows@, leaves, 2 * level as nat),
            branch@.len() <= rows@.len() - 1,
            path == subtree_path(leaves, 2 * level as nat, offset as nat),
            offset < pow2(2 * level as nat),
            index == offset as nat / pow2(branch@.len()),
            hash::contents(branch@) == path.take(branch@.len() as int),
        decreases rows@.len() - branch@.len(),
    {
        let height: usize = branch.len();
        let row = &rows[height];
        proof {
            branch::lemma_halve(offset as nat, height as nat);
            lemma_sibling_in_row(offset as nat, 2 * level as nat, height as nat);
            assert(index ^ 1 == (if index % 2 == 0 {
                (index + 1) as usize
            } else {
                (index - 1) as usize
            })) by (bit_vector);
            assert(row@[branch::sibling(index as nat) as int]@ == tree::tree_node(
                leaves,
                height as nat,
                branch::sibling(index as nat),
            ));
        }
        branch.push(row[index ^ 1]);
        index = index / 2;
        assert(hash::contents(branch@) =~= path.take(branch@.len() as int));
    }
    assert(hash::contents(branch@) =~= path);

    // The rest of the spine hangs off the right of this level.
    let rest = rest_root(levels.as_slice(), level + 1);
    proof {
        lemma_rest_of(hash::contents(levels@), roots, (level + 1) as nat);
    }
    branch.push(rest);
    let ghost start = path + seq![spine_root(roots, (level + 1) as nat)];
    assert(hash::contents(branch@) =~= start);

    // Walking back up the spine, each ancestor's sibling is that level's binary subtree.
    let mut lower: usize = level;
    let ghost up = spine_path(roots, level as nat);
    assert(up.take(0) =~= Seq::<Seq<u8>>::empty());
    assert(start + up.take(0) =~= start);
    while lower > 0
        invariant
            lower <= level < levels@.len(),
            are_level_roots(hash::contents(levels@), roots),
            up == spine_path(roots, level as nat),
            hash::contents(branch@) == start + up.take(level - lower),
        decreases lower,
    {
        lower -= 1;
        assert(hash::contents(levels@)[lower as int] == level_root(roots, lower as nat));
        let ghost before = branch@;
        branch.push(levels[lower]);
        proof {
            let step = level - lower - 1;
            assert(up[step] == level_root(roots, lower as nat));
            assert(up.take(step + 1) =~= up.take(step).push(up[step]));
            assert(hash::contents(branch@) =~= hash::contents(before).push(up[step]));
        }
        assert(hash::contents(branch@) =~= start + up.take(level - lower));
    }
    assert(up.take(level as int) =~= up);

    // Finally the mixed in `active_fields`.
    branch.push(Hash256::from(active_fields));
    assert(hash::contents(branch@) =~= container_branch(roots, active_fields@, field_index as nat));

    Ok(branch)
}

/// A field's level is among the levels that hold a field.
proof fn lemma_covered(index: nat, fields: nat, count: nat)
    requires
        index < fields <= spine::level_first(count),
    ensures
        spine::level_of(index) < count,
        spine::level_width(spine::level_of(index)) <= spine::level_width((count - 1) as nat),
{
    spine::lemma_level_of(index);
    if spine::level_of(index) >= count {
        spine::lemma_level_ordered(count, spine::level_of(index));
    }
    spine::lemma_level_ordered(spine::level_of(index), (count - 1) as nat);
}

/// Below the root, the sibling of an ancestor of a leaf lies in the same row.
proof fn lemma_sibling_in_row(index: nat, depth: nat, height: nat)
    requires
        index < pow2(depth),
        height < depth,
    ensures
        branch::sibling(index / pow2(height)) < pow2((depth - height) as nat),
{
    let rest = (depth - height) as nat;
    lemma_pow2_adds(height, rest);
    lemma_pow2_pos(height);
    lemma_pow2_unfold(rest);
    lemma_multiply_divide_lt(index as int, pow2(height) as int, pow2(rest) as int);
}

} // verus!
