//! Multiproofs over the field roots of balanced containers.

use crate::error::Error;
use crate::hash;
use crate::hash::Hash256;
use crate::multiproof;
use crate::multiproof::{get_helper_indices, validate_indices};
use crate::spine;
use crate::spine::depth_of;
use crate::tree;
use crate::tree::{binary_tree, node_at};
use vstd::arithmetic::power2::*;
use vstd::prelude::*;

verus! {

/// The field roots of a container, in chunk order.
pub type FieldRoots = Vec<Hash256>;

/// The field roots of a **balanced** container, which is what [`generate_multiproof`] accepts.
///
/// This is a distinct type from [`FieldRoots`] on purpose. A progressive container's roots
/// merkleize into the progressive spine, not a balanced tree, so handing them to the balanced
/// multiproof builder would produce a proof against a root that the container never has. Building
/// one by hand with [`BalancedFieldRoots::new`] is a deliberate statement that the roots form a
/// balanced tree.
#[derive(Clone, Debug, PartialEq, Eq)]
pub struct BalancedFieldRoots(FieldRoots);

impl View for BalancedFieldRoots {
    type V = Seq<Hash256>;

    closed spec fn view(&self) -> Seq<Hash256> {
        self.0@
    }
}

impl BalancedFieldRoots {
    /// Wrap roots that are known to merkleize as a balanced tree padded to a power of two.
    pub fn new(roots: FieldRoots) -> (r: BalancedFieldRoots)
        ensures
            r@ == roots@,
    {
        BalancedFieldRoots(roots)
    }

    /// The roots in chunk order.
    pub fn as_slice(&self) -> (r: &[Hash256])
        ensures
            r@ == self@,
    {
        self.0.as_slice()
    }

    /// Unwrap the roots.
    pub fn into_inner(self) -> (r: FieldRoots)
        ensures
            r@ == self@,
    {
        self.0
    }
}

impl core::ops::Deref for BalancedFieldRoots {
    type Target = [Hash256];

    fn deref(&self) -> (r: &[Hash256])
        ensures
            r@ == self@,
    {
        self.0.as_slice()
    }
}

/// The depth of the balanced tree over `fields` leaves: how often their number is halved, rounding
/// up, until one is left.
pub open spec fn balanced_depth(fields: nat) -> nat
    decreases fields,
{
    if fields <= 1 {
        0
    } else {
        1 + balanced_depth((fields + 1) / 2)
    }
}

/// The proof node for each helper index, out of the balanced tree over `roots`.
pub open spec fn helper_nodes(roots: Seq<Seq<u8>>, gindices: Seq<u64>) -> Seq<Seq<u8>> {
    multiproof::helper_list(gindices).map_values(
        |gindex: u64| tree::node_of(roots, balanced_depth(roots.len()), gindex as nat),
    )
}

/// Whether `fields` leaves can be padded to a power of two that a `usize` can count. More of them do
/// not fit in memory.
pub open spec fn can_be_padded(fields: nat) -> bool {
    fields <= usize::MAX / 2 + 1
}

/// Whether the balanced tree over `fields` leaves can be built and has all the nodes that a
/// multiproof needs. The helpers are in descending order, so this is so where it has the first.
pub open spec fn helpers_in_tree(fields: nat, gindices: Seq<u64>) -> bool {
    let helpers = multiproof::helper_list(gindices);
    helpers.len() == 0 || (can_be_padded(fields) && tree::in_tree(
        balanced_depth(fields),
        helpers[0] as nat,
    ))
}

/// Whether the balanced tree over `fields` leaves has a node at each of the indices.
pub open spec fn indices_in_tree(fields: nat, gindices: Seq<u64>) -> bool {
    forall|i: int|
        0 <= i < gindices.len() ==> tree::in_tree(
            balanced_depth(fields),
            #[trigger] gindices[i] as nat,
        )
}

/// Whether `gindex` is the first of the indices at which the balanced tree over `fields` leaves has
/// no node.
pub open spec fn is_first_outside(fields: nat, gindices: Seq<u64>, gindex: u64) -> bool {
    exists|i: int|
        0 <= i < gindices.len() && #[trigger] gindices[i] == gindex && !tree::in_tree(
            balanced_depth(fields),
            gindex as nat,
        ) && indices_in_tree(fields, gindices.take(i))
}

/// What [`generate_multiproof`] returns: the helper nodes, where there are field roots, the indices
/// are valid, and the tree has all the helpers and all the indices; and otherwise the first of these
/// that fails. The deepest helper stands for the helpers, and of the indices the first that is
/// outside the tree is reported.
pub open spec fn is_multiproof(
    roots: Seq<Seq<u8>>,
    gindices: Seq<u64>,
    outcome: Result<Vec<Hash256>, Error>,
) -> bool {
    match outcome {
        Ok(nodes) => roots.len() > 0 && multiproof::is_valid(gindices) && helpers_in_tree(
            roots.len(),
            gindices,
        ) && indices_in_tree(roots.len(), gindices) && hash::contents(nodes@) == helper_nodes(
            roots,
            gindices,
        ),
        Err(error) => if roots.len() == 0 {
            error == Error::NoFields
        } else if !multiproof::is_valid(gindices) {
            multiproof::is_invalid(gindices, error)
        } else if !helpers_in_tree(roots.len(), gindices) {
            error == (Error::GindexOutOfTree { gindex: multiproof::helper_list(gindices)[0] })
        } else {
            error matches Error::GindexOutOfTree { gindex } && is_first_outside(
                roots.len(),
                gindices,
                gindex,
            )
        },
    }
}

/// The balanced tree is the smallest that has room for all leaves.
pub proof fn lemma_balanced_depth(fields: nat)
    ensures
        fields <= pow2(balanced_depth(fields)),
        fields > 1 ==> balanced_depth(fields) > 0 && pow2((balanced_depth(fields) - 1) as nat)
            < fields,
    decreases fields,
{
    lemma2_to64();
    if fields > 1 {
        lemma_balanced_depth((fields + 1) / 2);
        lemma_pow2_unfold(balanced_depth(fields));
        if balanced_depth(fields) > 1 {
            lemma_pow2_unfold((balanced_depth(fields) - 1) as nat);
        }
    }
}

/// The tree can be padded where its depth is less than the number of bits.
proof fn lemma_can_be_padded(fields: nat)
    requires
        fields <= usize::MAX,
    ensures
        can_be_padded(fields) <==> balanced_depth(fields) < usize::BITS,
        balanced_depth(fields) <= usize::BITS,
{
    let depth = balanced_depth(fields);
    spine::lemma_usize_range();
    lemma_balanced_depth(fields);
    lemma_pow2_unfold(usize::BITS as nat);
    lemma2_to64();
    if depth > usize::BITS {
        spine::lemma_pow2_ordered(usize::BITS as nat, (depth - 1) as nat);
    } else if depth == usize::BITS {
        assert(pow2((depth - 1) as nat) == usize::MAX / 2 + 1);
    } else {
        spine::lemma_pow2_ordered(depth, (usize::BITS - 1) as nat);
    }
}

/// The depth of the balanced tree over `fields` leaves.
fn depth_over(fields: usize) -> (r: u32)
    ensures
        r == balanced_depth(fields as nat),
        r <= usize::BITS,
        r < usize::BITS <==> can_be_padded(fields as nat),
{
    let mut rest: usize = fields;
    let mut depth: u32 = 0;
    proof {
        lemma_can_be_padded(fields as nat);
    }
    while rest > 1
        invariant
            depth + balanced_depth(rest as nat) == balanced_depth(fields as nat),
            balanced_depth(fields as nat) <= usize::BITS,
        decreases rest,
    {
        assert((rest as nat + 1) / 2 == rest / 2 + rest % 2);
        rest = rest / 2 + rest % 2;
        depth += 1;
    }
    depth
}

/// Build a multiproof over a balanced container's field roots.
///
/// The generating counterpart to
/// [`calculate_multi_merkle_root`](crate::multiproof::calculate_multi_merkle_root) and
/// [`verify_merkle_multiproof`](crate::multiproof::verify_merkle_multiproof).
///
/// Refuses a generalized index that falls outside the tree, be it a helper or one of `gindices`.
///
/// Takes [`BalancedFieldRoots`] rather than a bare slice so that a progressive container's roots,
/// which do not merkleize as a balanced tree, cannot be passed here by mistake.
pub fn generate_multiproof(field_roots: &BalancedFieldRoots, gindices: &[u64]) -> (r: Result<
    Vec<Hash256>,
    Error,
>)
    ensures
        is_multiproof(hash::contents(field_roots@), gindices@, r),
{
    let roots = field_roots.as_slice();
    if roots.len() == 0 {
        return Err(Error::NoFields);
    }
    match validate_indices(gindices) {
        Ok(()) => {},
        Err(error) => {
            return Err(error);
        },
    }
    let depth: u32 = depth_over(roots.len());
    let ghost contents = hash::contents(roots@);
    proof {
        spine::lemma_usize_range();
        spine::lemma_gindex_depth_of_pow2(depth as nat);
        lemma_pow2_pos(depth as nat);
        if depth < usize::BITS {
            lemma_pow2_strictly_increases(depth as nat, usize::BITS as nat);
            vstd::bits::lemma_usize_shl_is_mul(1, depth as usize);
        }
    }
    // Where the padded leaves cannot be counted there is nothing to read helpers from.
    let size: usize = if depth < usize::BITS {
        1usize << depth
    } else {
        0
    };
    let tree = binary_tree(roots, size);

    let helpers = get_helper_indices(gindices);
    let ghost expected = helper_nodes(contents, gindices@);
    let mut nodes: Vec<Hash256> = Vec::new();
    while nodes.len() < helpers.len()
        invariant
            nodes@.len() <= helpers@.len(),
            helpers@ == multiproof::helper_list(gindices@),
            multiproof::descending(helpers@),
            forall|gindex: u64| #[trigger]
                helpers@.contains(gindex) <==> multiproof::is_helper(gindices@, gindex as nat),
            roots@ == field_roots@,
            contents == hash::contents(roots@),
            contents.len() > 0,
            multiproof::is_valid(gindices@),
            depth == balanced_depth(contents.len()),
            size > 0 ==> tree::is_tree(tree@, contents, depth as nat),
            size == 0 ==> tree@.len() == 1,
            size > 0 <==> can_be_padded(contents.len()),
            expected == helper_nodes(contents, gindices@),
            nodes@.len() > 0 ==> size > 0 && tree::in_tree(depth as nat, helpers@[0] as nat),
            hash::contents(nodes@) == expected.take(nodes@.len() as int),
        decreases helpers@.len() - nodes@.len(),
    {
        let gindex: u64 = helpers[nodes.len()];
        proof {
            assert(helpers@.contains(gindex));
            if size > 0 {
                tree::lemma_row_node(tree@, contents, depth as nat, gindex as nat);
            }
            if nodes@.len() > 0 {
                lemma_in_tree_below(depth as nat, helpers@[0] as nat, gindex as nat);
            }
        }
        match node_at(tree.as_slice(), gindex) {
            Some(node) => {
                nodes.push(node);
                assert(hash::contents(nodes@) =~= expected.take(nodes@.len() as int));
            },
            None => {
                return Err(Error::GindexOutOfTree { gindex });
            },
        }
    }
    assert(expected.take(nodes@.len() as int) =~= expected);

    // Two siblings need no helper beside them, so the tree may have every helper and still not reach
    // down to the indices.
    let mut i: usize = 0;
    while i < gindices.len()
        invariant
            i <= gindices@.len(),
            roots@ == field_roots@,
            contents == hash::contents(roots@),
            contents.len() > 0,
            multiproof::is_valid(gindices@),
            depth == balanced_depth(contents.len()),
            helpers_in_tree(contents.len(), gindices@),
            indices_in_tree(contents.len(), gindices@.take(i as int)),
        decreases gindices@.len() - i,
    {
        let gindex: u64 = gindices[i];
        assert(gindices@.contains(gindex));
        if depth_of(gindex) > depth {
            assert(gindices@[i as int] == gindex);
            return Err(Error::GindexOutOfTree { gindex });
        }
        i += 1;
        assert(gindices@.take(i as int) =~= gindices@.take(i - 1).push(gindex));
    }
    assert(gindices@.take(i as int) =~= gindices@);
    Ok(nodes)
}

/// A tree that has a node at some index has one at every smaller index but zero.
pub(crate) proof fn lemma_in_tree_below(depth: nat, gindex: nat, smaller: nat)
    requires
        tree::in_tree(depth, gindex),
        0 < smaller <= gindex,
    ensures
        tree::in_tree(depth, smaller),
{
    spine::lemma_gindex_depth(gindex);
    spine::lemma_gindex_depth(smaller);
    if spine::gindex_depth(smaller) > depth {
        spine::lemma_pow2_ordered(spine::gindex_depth(gindex) + 1, spine::gindex_depth(smaller));
    }
}

} // verus!
