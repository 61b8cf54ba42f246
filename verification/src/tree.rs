//! Binary trees, built bottom up and padded with zero leaves.

use crate::hash;
use crate::hash::{hash_pair, Hash256};
use crate::spine;
use crate::spine::depth_of;
use vstd::arithmetic::power2::*;
use vstd::prelude::*;

verus! {

/// The node at position `index` of the row `height` rows above the leaves. Row zero holds the
/// leaves, followed by zero nodes without end; every other node is the parent of the two below it.
pub open spec fn tree_node(leaves: Seq<Seq<u8>>, height: nat, index: nat) -> Seq<u8>
    decreases height,
{
    if height == 0 {
        if index < leaves.len() {
            leaves[index as int]
        } else {
            hash::zero_node()
        }
    } else {
        hash::parent(
            tree_node(leaves, (height - 1) as nat, 2 * index),
            tree_node(leaves, (height - 1) as nat, 2 * index + 1),
        )
    }
}

/// The root of the tree of the given depth over `leaves`.
pub open spec fn root_of(leaves: Seq<Seq<u8>>, depth: nat) -> Seq<u8> {
    tree_node(leaves, depth, 0)
}

/// The node at generalized index `gindex` of the tree of the given depth over `leaves`.
pub open spec fn node_of(leaves: Seq<Seq<u8>>, depth: nat, gindex: nat) -> Seq<u8> {
    let below = spine::gindex_depth(gindex);
    tree_node(leaves, (depth - below) as nat, (gindex - pow2(below)) as nat)
}

/// Whether the tree of the given depth has a node at generalized index `gindex`.
pub open spec fn in_tree(depth: nat, gindex: nat) -> bool {
    gindex > 0 && spine::gindex_depth(gindex) <= depth
}

/// Whether `rows` holds, bottom up, the rows of the tree of the given depth over `leaves`.
pub open spec fn is_tree(rows: Seq<Vec<Hash256>>, leaves: Seq<Seq<u8>>, depth: nat) -> bool {
    &&& rows.len() == depth + 1
    &&& forall|height: int|
        0 <= height <= depth ==> (#[trigger] rows[height])@.len() == pow2((depth - height) as nat)
    &&& forall|height: int, index: int|
        0 <= height <= depth && 0 <= index < rows[height]@.len()
            ==> (#[trigger] rows[height]@[index])@ == tree_node(
            leaves,
            height as nat,
            index as nat,
        )
}

/// What bottom up `rows` hold at generalized index `gindex`, if they reach that far.
pub open spec fn row_node(rows: Seq<Vec<Hash256>>, gindex: nat) -> Option<Hash256> {
    let below = spine::gindex_depth(gindex);
    let index = gindex - pow2(below);
    if below < rows.len() && index < rows[rows.len() - 1 - below]@.len() {
        Some(rows[rows.len() - 1 - below]@[index])
    } else {
        None
    }
}

/// Build a binary merkle tree over `leaves`, zero padding up to `size`.
///
/// Returns the tree bottom up: the first row is the padded leaves and the last is the root. Leaves
/// past `size` are left out.
pub fn binary_tree(leaves: &[Hash256], size: usize) -> (r: Vec<Vec<Hash256>>)
    requires
        size == 0 || size == pow2(spine::gindex_depth(size as nat)),
    ensures
        size == 0 ==> r@.len() == 1 && r@[0]@.len() == 0,
        size > 0 ==> is_tree(
            r@,
            hash::contents(leaves@),
            spine::gindex_depth(size as nat),
        ),
{
    let ghost contents = hash::contents(leaves@);
    let ghost depth = spine::gindex_depth(size as nat);
    let mut layer: Vec<Hash256> = Vec::new();
    while layer.len() < size
        invariant
            layer@.len() <= size,
            contents == hash::contents(leaves@),
            forall|i: int|
                0 <= i < layer@.len() ==> (#[trigger] layer@[i])@ == tree_node(
                    contents,
                    0,
                    i as nat,
                ),
        decreases size - layer@.len(),
    {
        let i: usize = layer.len();
        if i < leaves.len() {
            layer.push(leaves[i]);
        } else {
            layer.push(Hash256::zero());
        }
    }

    let mut last: usize = layer.len();
    let mut tree: Vec<Vec<Hash256>> = Vec::new();
    tree.push(layer);
    proof {
        lemma2_to64();
    }
    while last > 1
        invariant
            size == 0 ==> last == 0 && tree@.len() == 1 && tree@[0]@.len() == 0,
            size > 0 ==> tree@.len() <= depth + 1,
            size > 0 ==> last == pow2((depth + 1 - tree@.len()) as nat),
            tree@.len() > 0,
            tree@.last()@.len() == last,
            forall|height: int|
                #![trigger tree@[height]]
                size > 0 && 0 <= height < tree@.len() ==> tree@[height]@.len() == pow2(
                    (depth - height) as nat,
                ),
            forall|height: int, index: int|
                0 <= height < tree@.len() && 0 <= index < tree@[height]@.len()
                    ==> (#[trigger] tree@[height]@[index])@ == tree_node(
                    contents,
                    height as nat,
                    index as nat,
                ),
        decreases last,
    {
        let ghost height = tree@.len();
        let ghost before = tree@;
        proof {
            if height > depth {
                lemma2_to64();
            }
            lemma_pow2_unfold((depth + 1 - height) as nat);
        }
        let mut next: Vec<Hash256> = Vec::new();
        let below = &tree[tree.len() - 1];
        let half: usize = last / 2;
        while next.len() < half
            invariant
                next@.len() <= half,
                2 * half == last,
                below@.len() == last,
                height > 0,
                forall|index: int|
                    0 <= index < below@.len() ==> (#[trigger] below@[index])@ == tree_node(
                        contents,
                        (height - 1) as nat,
                        index as nat,
                    ),
                forall|index: int|
                    0 <= index < next@.len() ==> (#[trigger] next@[index])@ == tree_node(
                        contents,
                        height,
                        index as nat,
                    ),
            decreases half - next@.len(),
        {
            let i: usize = next.len();
            next.push(hash_pair(&below[2 * i], &below[2 * i + 1]));
        }
        last = half;
        tree.push(next);
        assert(tree@ =~= before.push(tree@.last()));
    }
    proof {
        lemma2_to64();
        if size > 0 && tree@.len() <= depth {
            spine::lemma_pow2_ordered(1, (depth + 1 - tree@.len()) as nat);
        }
    }
    tree
}

/// The root of a bottom up binary tree, which is the first node of its last row.
pub fn tree_root(tree: &[Vec<Hash256>]) -> (r: Hash256)
    requires
        tree@.len() > 0,
        tree@.last()@.len() > 0,
    ensures
        r == tree@.last()@[0],
{
    tree[tree.len() - 1][0]
}

/// Read the node at `gindex` from a bottom up binary tree.
pub(crate) fn node_at(tree: &[Vec<Hash256>], gindex: u64) -> (r: Option<Hash256>)
    requires
        gindex > 0,
    ensures
        r == row_node(tree@, gindex as nat),
{
    let below: usize = depth_of(gindex) as usize;
    if below >= tree.len() {
        return None;
    }
    proof {
        spine::lemma_gindex_depth(gindex as nat);
        lemma2_to64();
        lemma2_to64_rest();
        spine::lemma_pow2_ordered(below as nat, 63);
        vstd::bits::lemma_u64_shl_is_mul(1, below as u64);
    }
    let row = &tree[tree.len() - 1 - below];
    let index: u64 = gindex - (1u64 << below);
    if index < row.len() as u64 {
        Some(row[index as usize])
    } else {
        None
    }
}

/// In a tree over `leaves`, the rows hold a node at exactly the generalized indices of the tree.
pub(crate) proof fn lemma_row_node(
    rows: Seq<Vec<Hash256>>,
    leaves: Seq<Seq<u8>>,
    depth: nat,
    gindex: nat,
)
    requires
        gindex > 0,
        is_tree(rows, leaves, depth),
    ensures
        match row_node(rows, gindex) {
            Some(node) => in_tree(depth, gindex) && node@ == node_of(leaves, depth, gindex),
            None => !in_tree(depth, gindex),
        },
{
    spine::lemma_gindex_depth(gindex);
    let below = spine::gindex_depth(gindex);
    lemma_pow2_unfold(below + 1);
    if below <= depth {
        assert(rows[depth - below]@.len() == pow2(below));
    }
}

} // verus!
