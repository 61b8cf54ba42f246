//! Merkle branches: the siblings from a node up to the root.

use crate::hash;
use crate::hash::{hash_pair, Hash256};
use crate::spine;
use crate::spine::depth_of;
use vstd::arithmetic::div_mod::*;
use vstd::arithmetic::power2::*;
use vstd::prelude::*;

verus! {

/// The index of a node's sibling.
pub open spec fn sibling(index: nat) -> nat {
    if index % 2 == 0 {
        index + 1
    } else {
        (index - 1) as nat
    }
}

/// The parent of the node at `gindex` and its sibling: an even index is a left child.
pub open spec fn join(node: Seq<u8>, sibling: Seq<u8>, gindex: nat) -> Seq<u8> {
    if gindex % 2 == 0 {
        hash::parent(node, sibling)
    } else {
        hash::parent(sibling, node)
    }
}

/// The node reached from `leaf` at `gindex` after joining it with the first `steps` siblings of
/// `branch`. Each step halves the index.
pub open spec fn climb(leaf: Seq<u8>, branch: Seq<Seq<u8>>, gindex: nat, steps: nat) -> Seq<u8>
    decreases steps,
{
    if steps == 0 {
        leaf
    } else {
        let before = (steps - 1) as nat;
        join(climb(leaf, branch, gindex, before), branch[before as int], gindex / pow2(before))
    }
}

/// The root that `branch` leads to from `leaf` at `gindex`.
pub open spec fn branch_root(leaf: Seq<u8>, branch: Seq<Seq<u8>>, gindex: nat) -> Seq<u8> {
    climb(leaf, branch, gindex, branch.len())
}

/// Whether `branch` puts `leaf` at `gindex` under `root`.
pub open spec fn proves(leaf: Seq<u8>, branch: Seq<Seq<u8>>, gindex: nat, root: Seq<u8>) -> bool {
    &&& gindex > 0
    &&& branch.len() == spine::gindex_depth(gindex)
    &&& branch_root(leaf, branch, gindex) == root
}

/// The two children that are joined at a step of the climb, left and right.
pub open spec fn joined_at(
    leaf: Seq<u8>,
    branch: Seq<Seq<u8>>,
    gindex: nat,
    step: nat,
) -> (Seq<u8>, Seq<u8>) {
    let node = climb(leaf, branch, gindex, step);
    if (gindex / pow2(step)) % 2 == 0 {
        (node, branch[step as int])
    } else {
        (branch[step as int], node)
    }
}

/// Whether two different pairs of children have the same parent.
pub open spec fn collide(a: (Seq<u8>, Seq<u8>), b: (Seq<u8>, Seq<u8>)) -> bool {
    a != b && hash::parent(a.0, a.1) == hash::parent(b.0, b.1)
}

pub(crate) proof fn lemma_halve(n: nat, steps: nat)
    ensures
        (n / pow2(steps)) / 2 == n / pow2(steps + 1),
{
    lemma_pow2_pos(steps);
    lemma_pow2_unfold(steps + 1);
    lemma_div_denominator(n as int, pow2(steps) as int, 2);
}

/// Verify that `branch` proves that `leaf` sits at `gindex` under `root`.
///
/// The bits of `gindex` above its leading one describe the path, so this handles the ragged depths
/// that a progressive container produces without being told the depth separately.
///
/// # The caller owns the gindex
///
/// A proof of an interior node is a perfectly valid proof *at that node's gindex*. This function
/// answers only "does this branch put this leaf at this index", so the index must come from the
/// verifier's own configuration and never from the prover or from the proof being checked. Taking
/// it from the proof would let a prover choose which position it is proving, which is no proof at
/// all.
pub fn is_valid_merkle_branch(
    leaf: Hash256,
    branch: &[Hash256],
    gindex: u64,
    root: Hash256,
) -> (r: bool)
    ensures
        r == proves(leaf@, hash::contents(branch@), gindex as nat, root@),
{
    if gindex == 0 {
        return false;
    }
    if branch.len() != depth_of(gindex) as usize {
        return false;
    }
    let ghost siblings = hash::contents(branch@);

    let mut value: Hash256 = leaf;
    let mut index: u64 = gindex;
    let mut step: usize = 0;
    proof {
        lemma2_to64();
    }
    while step < branch.len()
        invariant
            step <= branch@.len(),
            siblings == hash::contents(branch@),
            value@ == climb(leaf@, siblings, gindex as nat, step as nat),
            index == gindex as nat / pow2(step as nat),
        decreases branch@.len() - step,
    {
        let sibling = &branch[step];
        proof {
            lemma_halve(gindex as nat, step as nat);
        }
        value = if index % 2 == 0 {
            hash_pair(&value, sibling)
        } else {
            hash_pair(sibling, &value)
        };
        index = index / 2;
        step += 1;
    }

    value == root
}

} // verus!
