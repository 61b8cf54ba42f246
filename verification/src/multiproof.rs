//! Multiproofs: several nodes of one tree, proved together.
//!
//! Verifiers should call [`verify_merkle_multiproof`], which compares against the expected root.
//! [`calculate_multi_merkle_root`] only recomputes a root, and a tampered leaf is never structurally
//! invalid, so an `Ok` from it says nothing about whether the leaves are genuine.

use crate::branch;
use crate::error::Error;
use crate::hash;
use crate::hash::{hash_pair, Hash256};
use crate::ordered::ascending;
use std::collections::{BTreeMap, BTreeSet};
use vstd::prelude::*;

verus! {

broadcast use {vstd::std_specs::btree::group_btree_axioms, vstd::laws_cmp::group_laws_cmp};

/// Whether the node at `ancestor` lies strictly above the node at `gindex`.
pub open spec fn is_ancestor(ancestor: nat, gindex: nat) -> bool
    decreases gindex,
{
    gindex > 1 && (ancestor == gindex / 2 || is_ancestor(ancestor, gindex / 2))
}

/// Whether `gindex` lies on the path from the node at `index` up to the root.
pub open spec fn on_path(gindex: nat, index: nat) -> bool {
    gindex == index || is_ancestor(gindex, index)
}

/// Whether `gindex` lies on the path of one of `indices`.
pub open spec fn is_covered(indices: Seq<u64>, gindex: nat) -> bool {
    exists|i: int| 0 <= i < indices.len() && on_path(gindex, #[trigger] indices[i] as nat)
}

/// Whether a verifier must be given the node at `gindex` to recompute the root from `indices`: it
/// is the sibling of a node on one of their paths, and on none of their paths itself.
pub open spec fn is_helper(indices: Seq<u64>, gindex: nat) -> bool {
    gindex > 1 && is_covered(indices, branch::sibling(gindex)) && !is_covered(indices, gindex)
}

/// The helper indices below `bound`, in descending order.
pub open spec fn helpers_below(indices: Seq<u64>, bound: nat) -> Seq<u64>
    decreases bound,
{
    if bound == 0 {
        Seq::empty()
    } else {
        let rest = helpers_below(indices, (bound - 1) as nat);
        if is_helper(indices, (bound - 1) as nat) {
            seq![(bound - 1) as u64] + rest
        } else {
            rest
        }
    }
}

/// The helper indices, in descending order.
pub open spec fn helper_list(indices: Seq<u64>) -> Seq<u64> {
    helpers_below(indices, 0x1_0000_0000_0000_0000)
}

/// Whether every index of a set occurs once.
pub open spec fn all_distinct(indices: Seq<u64>) -> bool {
    forall|i: int, j: int| 0 <= i < j < indices.len() ==> indices[i] != indices[j]
}

/// Whether `gindex` occurs more than once.
pub open spec fn occurs_twice(indices: Seq<u64>, gindex: u64) -> bool {
    exists|i: int, j: int|
        0 <= i < j < indices.len() && #[trigger] indices[i] == gindex && #[trigger] indices[j]
            == gindex
}

/// Whether some other index lies strictly above the node at `gindex`.
pub open spec fn has_ancestor(indices: Seq<u64>, gindex: u64) -> bool {
    exists|i: int|
        0 <= i < indices.len() && is_ancestor(#[trigger] indices[i] as nat, gindex as nat)
}

/// Whether no index lies strictly above another.
pub open spec fn none_overlap(indices: Seq<u64>) -> bool {
    forall|i: int| 0 <= i < indices.len() ==> !has_ancestor(indices, #[trigger] indices[i])
}

/// Whether every leaf of an index set is hashed into the root: each index addresses a node, none
/// occurs twice, and none lies above another.
pub open spec fn is_valid(indices: Seq<u64>) -> bool {
    &&& !indices.contains(0)
    &&& all_distinct(indices)
    &&& none_overlap(indices)
}

/// Whether `error` says why an index set is not valid. An index of zero is looked for first, then
/// duplicates and then overlaps. Of several duplicates or overlapped indices the smallest is
/// reported, and of several ancestors the nearest.
pub open spec fn is_invalid(indices: Seq<u64>, error: Error) -> bool {
    match error {
        Error::ZeroIndex => indices.contains(0),
        Error::DuplicateIndex { gindex } => {
            &&& !indices.contains(0)
            &&& occurs_twice(indices, gindex)
            &&& forall|other: u64| #[trigger] occurs_twice(indices, other) ==> gindex <= other
        },
        Error::OverlappingIndices { ancestor, descendant } => {
            &&& !indices.contains(0)
            &&& all_distinct(indices)
            &&& indices.contains(ancestor)
            &&& indices.contains(descendant)
            &&& is_ancestor(ancestor as nat, descendant as nat)
            &&& forall|other: u64|
                indices.contains(other) && #[trigger] is_ancestor(
                    other as nat,
                    descendant as nat,
                ) ==> other <= ancestor
            &&& forall|other: u64|
                indices.contains(other) && #[trigger] has_ancestor(indices, other) ==> descendant
                    <= other
        },
        _ => false,
    }
}

/// The nodes that a verifier is given: a leaf for each index, and a proof node for each helper.
pub open spec fn given(
    indices: Seq<u64>,
    leaves: Seq<Seq<u8>>,
    helpers: Seq<u64>,
    nodes: Seq<Seq<u8>>,
) -> Map<u64, Seq<u8>> {
    Map::new(
        |gindex: u64| indices.contains(gindex) || helpers.contains(gindex),
        |gindex: u64|
            if indices.contains(gindex) {
                leaves[indices.index_of(gindex)]
            } else {
                nodes[helpers.index_of(gindex)]
            },
    )
}

/// The node at `gindex`, where some nodes are given: that one itself if it is given, and otherwise
/// the parent of the two below it.
pub open spec fn derived(nodes: Map<u64, Seq<u8>>, gindex: nat) -> Seq<u8>
    decreases 0x2_0000_0000_0000_0000 - gindex,
{
    if gindex == 0 || gindex > u64::MAX {
        hash::zero_node()
    } else if nodes.contains_key(gindex as u64) {
        nodes[gindex as u64]
    } else {
        hash::parent(derived(nodes, 2 * gindex), derived(nodes, 2 * gindex + 1))
    }
}

/// The nodes at the two children of `gindex`, where some nodes are given.
pub open spec fn children(nodes: Map<u64, Seq<u8>>, gindex: nat) -> (Seq<u8>, Seq<u8>) {
    (derived(nodes, 2 * gindex), derived(nodes, 2 * gindex + 1))
}

/// The indices that a verifier is given nodes for.
pub open spec fn given_indices(indices: Seq<u64>) -> Set<u64> {
    Set::new(|gindex: u64| indices.contains(gindex) || is_helper(indices, gindex as nat))
}

/// Whether the node at `gindex` can be recomputed where the nodes at `known` indices are given.
pub open spec fn derivable(known: Set<u64>, gindex: nat) -> bool
    decreases 0x2_0000_0000_0000_0000 - gindex,
{
    if gindex == 0 || gindex > u64::MAX {
        false
    } else {
        known.contains(gindex as u64) || (derivable(known, 2 * gindex) && derivable(
            known,
            2 * gindex + 1,
        ))
    }
}

/// The root that `leaves` at `indices` and the proof `nodes` lead to.
pub open spec fn multi_root(
    indices: Seq<u64>,
    leaves: Seq<Seq<u8>>,
    nodes: Seq<Seq<u8>>,
) -> Seq<u8> {
    derived(given(indices, leaves, helper_list(indices), nodes), 1)
}

/// Whether the leaves, proof nodes and indices fit together.
pub open spec fn is_well_formed(
    indices: Seq<u64>,
    leaves: Seq<Seq<u8>>,
    nodes: Seq<Seq<u8>>,
) -> bool {
    &&& indices.len() > 0
    &&& leaves.len() == indices.len()
    &&& is_valid(indices)
    &&& nodes.len() == helper_list(indices).len()
}

/// Whether the proof `nodes` place `leaves` at `indices` under `root`.
pub open spec fn proves_all(
    indices: Seq<u64>,
    leaves: Seq<Seq<u8>>,
    nodes: Seq<Seq<u8>>,
    root: Seq<u8>,
) -> bool {
    is_well_formed(indices, leaves, nodes) && multi_root(indices, leaves, nodes) == root
}

// Paths.

/// The indices on the path from `index` up to, but excluding, the root.
pub open spec fn path_of(index: nat) -> Seq<nat>
    decreases index,
{
    if index <= 1 {
        Seq::empty()
    } else {
        seq![index] + path_of(index / 2)
    }
}

/// The siblings of the indices on the path from `index` up to the root.
pub open spec fn branch_of(index: nat) -> Seq<nat>
    decreases index,
{
    if index <= 1 {
        Seq::empty()
    } else {
        seq![branch::sibling(index)] + branch_of(index / 2)
    }
}

/// The numbers in a sequence.
pub open spec fn numbers(indices: Seq<u64>) -> Seq<nat> {
    indices.map_values(|index: u64| index as nat)
}

proof fn lemma_path_of(index: nat, gindex: nat)
    ensures
        path_of(index).contains(gindex) <==> gindex > 1 && on_path(gindex, index),
    decreases index,
{
    if index > 1 {
        let rest = path_of(index / 2);
        lemma_path_of(index / 2, gindex);
        assert(path_of(index)[0] == index);
        if rest.contains(gindex) {
            let i = rest.index_of(gindex);
            assert(path_of(index)[i + 1] == gindex);
        }
    }
}

proof fn lemma_branch_of(index: nat, gindex: nat)
    ensures
        branch_of(index).contains(gindex) <==> gindex > 1 && on_path(
            branch::sibling(gindex),
            index,
        ),
    decreases index,
{
    if index > 1 {
        let rest = branch_of(index / 2);
        let other = branch::sibling(index);
        lemma_branch_of(index / 2, gindex);
        assert(branch_of(index).contains(gindex) <==> gindex == other || rest.contains(gindex)) by {
            assert(branch_of(index)[0] == other);
            if rest.contains(gindex) {
                let i = rest.index_of(gindex);
                assert(branch_of(index)[i + 1] == gindex);
            }
        }
        assert(gindex == other <==> branch::sibling(gindex) == index);
        assert(on_path(branch::sibling(gindex), index) <==> branch::sibling(gindex) == index
            || on_path(branch::sibling(gindex), index / 2));
    }
}

/// The sibling of `index`.
fn sibling(index: u64) -> (r: u64)
    ensures
        r == branch::sibling(index as nat),
{
    assert(index ^ 1 == (if index % 2 == 0 {
        (index + 1) as u64
    } else {
        (index - 1) as u64
    })) by (bit_vector);
    index ^ 1
}

/// The generalized indices of the siblings on the path from `index` up to the root.
fn branch_indices(index: u64) -> (r: Vec<u64>)
    ensures
        numbers(r@) == branch_of(index as nat),
{
    let mut out: Vec<u64> = Vec::new();
    let mut rest: u64 = index;
    assert(numbers(out@) + branch_of(rest as nat) =~= branch_of(index as nat));
    while rest > 1
        invariant
            numbers(out@) + branch_of(rest as nat) == branch_of(index as nat),
        decreases rest,
    {
        let ghost before = out@;
        out.push(sibling(rest));
        assert(numbers(out@) + branch_of((rest / 2) as nat) =~= numbers(before) + branch_of(
            rest as nat,
        ));
        rest = rest / 2;
    }
    assert(numbers(out@) =~= numbers(out@) + branch_of(rest as nat));
    out
}

/// The generalized indices on the path from `index` up to, but excluding, the root.
fn path_indices(index: u64) -> (r: Vec<u64>)
    ensures
        numbers(r@) == path_of(index as nat),
{
    let mut out: Vec<u64> = Vec::new();
    let mut rest: u64 = index;
    assert(numbers(out@) + path_of(rest as nat) =~= path_of(index as nat));
    while rest > 1
        invariant
            numbers(out@) + path_of(rest as nat) == path_of(index as nat),
        decreases rest,
    {
        let ghost before = out@;
        out.push(rest);
        assert(numbers(out@) + path_of((rest / 2) as nat) =~= numbers(before) + path_of(
            rest as nat,
        ));
        rest = rest / 2;
    }
    assert(numbers(out@) =~= numbers(out@) + path_of(rest as nat));
    out
}

// Helper indices.

/// Whether a sequence is strictly descending.
pub open spec fn descending(indices: Seq<u64>) -> bool {
    forall|i: int, j: int| 0 <= i < j < indices.len() ==> indices[i] > indices[j]
}

proof fn lemma_helpers_below(indices: Seq<u64>, bound: nat)
    requires
        bound <= 0x1_0000_0000_0000_0000,
    ensures
        descending(helpers_below(indices, bound)),
        forall|gindex: u64| #[trigger]
            helpers_below(indices, bound).contains(gindex) <==> gindex < bound && is_helper(
                indices,
                gindex as nat,
            ),
    decreases bound,
{
    if bound > 0 {
        let rest = helpers_below(indices, (bound - 1) as nat);
        let list = helpers_below(indices, bound);
        lemma_helpers_below(indices, (bound - 1) as nat);
        if is_helper(indices, (bound - 1) as nat) {
            assert forall|i: int, j: int| 0 <= i < j < list.len() implies list[i] > list[j] by {
                assert(rest.contains(rest[j - 1]));
                if i > 0 {
                    assert(list[i] == rest[i - 1]);
                }
            }
            assert forall|gindex: u64| #[trigger] list.contains(gindex) <==> gindex < bound
                && is_helper(indices, gindex as nat) by {
                assert(list[0] == bound - 1);
                if rest.contains(gindex) {
                    let i = rest.index_of(gindex);
                    assert(list[i + 1] == gindex);
                }
            }
        }
    }
}

/// The helper list is strictly descending, and holds exactly the helper indices.
pub proof fn lemma_helper_list(indices: Seq<u64>)
    ensures
        descending(helper_list(indices)),
        forall|gindex: u64| #[trigger]
            helper_list(indices).contains(gindex) <==> is_helper(indices, gindex as nat),
{
    lemma_helpers_below(indices, 0x1_0000_0000_0000_0000);
}

/// Strictly descending sequences with the same members are equal.
pub(crate) proof fn lemma_descending_unique(a: Seq<u64>, b: Seq<u64>)
    requires
        descending(a),
        descending(b),
        forall|gindex: u64| a.contains(gindex) <==> b.contains(gindex),
    ensures
        a == b,
    decreases a.len(),
{
    if a.len() == 0 {
        if b.len() > 0 {
            assert(b.contains(b[0]));
        }
        assert(a =~= b);
    } else {
        assert(a.contains(a[0]));
        assert(b.contains(a[0]));
        assert(b.contains(b[0]));
        assert(a.contains(b[0]));
        let i = b.index_of(a[0]);
        let j = a.index_of(b[0]);
        assert(a[0] == b[0]);
        let c = a.drop_first();
        let d = b.drop_first();
        assert forall|gindex: u64| c.contains(gindex) <==> d.contains(gindex) by {
            if c.contains(gindex) {
                let k = c.index_of(gindex);
                assert(a[k + 1] == gindex);
                assert(a.contains(gindex) && b.contains(gindex));
                let m = b.index_of(gindex);
                assert(d[m - 1] == gindex);
            }
            if d.contains(gindex) {
                let k = d.index_of(gindex);
                assert(b[k + 1] == gindex);
                assert(a.contains(gindex) && b.contains(gindex));
                let m = a.index_of(gindex);
                assert(c[m - 1] == gindex);
            }
        }
        lemma_descending_unique(c, d);
        assert(a =~= seq![a[0]] + c);
        assert(b =~= seq![b[0]] + d);
    }
}

/// Put all of `members` into `set`.
fn insert_all(set: &mut BTreeSet<u64>, members: &Vec<u64>)
    ensures
        forall|member: u64| #[trigger]
            final(set)@.contains(member) <==> old(set)@.contains(member) || members@.contains(
                member,
            ),
{
    let mut i: usize = 0;
    while i < members.len()
        invariant
            i <= members@.len(),
            forall|member: u64| #[trigger]
                set@.contains(member) <==> old(set)@.contains(member) || members@.take(
                    i as int,
                ).contains(member),
        decreases members@.len() - i,
    {
        let ghost seen = members@.take(i as int);
        set.insert(members[i]);
        i += 1;
        proof {
            let now = members@.take(i as int);
            assert(now =~= seen.push(members@[i - 1]));
            assert forall|member: u64| #[trigger] now.contains(member) <==> seen.contains(member)
                || member == members@[i - 1] by {
                if seen.contains(member) {
                    assert(now[seen.index_of(member)] == member);
                }
                assert(now[i - 1] == members@[i - 1]);
            }
        }
    }
    assert(members@.take(i as int) =~= members@);
}

/// The generalized indices whose roots a verifier must be given to recompute the root from
/// `indices`, ordered deepest first.
///
/// These are every sibling along every path, minus the nodes that the proof can already derive.
pub fn get_helper_indices(indices: &[u64]) -> (r: Vec<u64>)
    ensures
        r@ == helper_list(indices@),
        descending(r@),
        forall|gindex: u64| #[trigger]
            r@.contains(gindex) <==> is_helper(indices@, gindex as nat),
{
    let mut helpers: BTreeSet<u64> = BTreeSet::new();
    let mut known: BTreeSet<u64> = BTreeSet::new();

    let mut i: usize = 0;
    while i < indices.len()
        invariant
            i <= indices@.len(),
            forall|gindex: u64| #[trigger]
                helpers@.contains(gindex) <==> gindex > 1 && is_covered(
                    indices@.take(i as int),
                    branch::sibling(gindex as nat),
                ),
            forall|gindex: u64|
                gindex > 1 ==> (#[trigger] known@.contains(gindex) <==> is_covered(
                    indices@.take(i as int),
                    gindex as nat,
                )),
        decreases indices@.len() - i,
    {
        let index: u64 = indices[i];
        let siblings = branch_indices(index);
        let path = path_indices(index);
        insert_all(&mut helpers, &siblings);
        insert_all(&mut known, &path);
        known.insert(index);
        proof {
            assert forall|gindex: u64| #[trigger] siblings@.contains(gindex) <==> gindex > 1
                && on_path(branch::sibling(gindex as nat), index as nat) by {
                lemma_numbers_contain(siblings@, gindex);
                lemma_branch_of(index as nat, gindex as nat);
            }
            assert forall|gindex: u64| #[trigger] path@.contains(gindex) <==> gindex > 1
                && on_path(gindex as nat, index as nat) by {
                lemma_numbers_contain(path@, gindex);
                lemma_path_of(index as nat, gindex as nat);
            }
            assert forall|gindex: nat| #[trigger]
                is_covered(indices@.take(i + 1), gindex) <==> is_covered(
                    indices@.take(i as int),
                    gindex,
                ) || on_path(gindex, index as nat) by {
                lemma_covered_push(indices@, i as int, gindex);
            }
        }
        i += 1;
    }
    assert(indices@.take(i as int) =~= indices@);

    let sorted = ascending(&helpers);
    // Deepest first, so the ascending order is read from its end.
    let mut out: Vec<u64> = Vec::new();
    let mut left: usize = sorted.len();
    while left > 0
        invariant
            left <= sorted@.len(),
            forall|i: int, j: int| 0 <= i < j < sorted@.len() ==> sorted@[i] < sorted@[j],
            descending(out@),
            forall|gindex: u64| #[trigger]
                out@.contains(gindex) <==> sorted@.skip(left as int).contains(gindex)
                    && !known@.contains(gindex),
        decreases left,
    {
        let ghost before = out@;
        let ghost seen = sorted@.skip(left as int);
        left -= 1;
        let gindex: u64 = sorted[left];
        if !known.contains(&gindex) {
            out.push(gindex);
        }
        proof {
            let now = sorted@.skip(left as int);
            assert(now =~= seq![gindex] + seen);
            assert(now[0] == gindex);
            assert forall|other: u64| #[trigger] now.contains(other) <==> seen.contains(other)
                || other == gindex by {
                if seen.contains(other) {
                    assert(now[seen.index_of(other) + 1] == other);
                }
            }
            assert forall|i: int| 0 <= i < before.len() implies before[i] > gindex by {
                assert(before.contains(before[i]));
                assert(seen.contains(before[i]));
            }
            if !known@.contains(gindex) {
                assert forall|other: u64| #[trigger] out@.contains(other) <==> before.contains(
                    other,
                ) || other == gindex by {
                    if before.contains(other) {
                        assert(out@[before.index_of(other)] == other);
                    }
                    assert(out@[before.len() as int] == gindex);
                }
            }
        }
    }
    proof {
        assert(sorted@.skip(0) =~= sorted@);
        lemma_helper_list(indices@);
        lemma_descending_unique(out@, helper_list(indices@));
    }
    out
}

proof fn lemma_numbers_contain(indices: Seq<u64>, gindex: u64)
    ensures
        numbers(indices).contains(gindex as nat) <==> indices.contains(gindex),
{
    if indices.contains(gindex) {
        assert(numbers(indices)[indices.index_of(gindex)] == gindex);
    }
    if numbers(indices).contains(gindex as nat) {
        let i = numbers(indices).index_of(gindex as nat);
        assert(indices[i] == gindex);
    }
}

proof fn lemma_covered_push(indices: Seq<u64>, count: int, gindex: nat)
    requires
        0 <= count < indices.len(),
    ensures
        is_covered(indices.take(count + 1), gindex) <==> is_covered(indices.take(count), gindex)
            || on_path(gindex, indices[count] as nat),
{
    let before = indices.take(count);
    let now = indices.take(count + 1);
    if is_covered(before, gindex) {
        let i = choose|i: int| 0 <= i < before.len() && on_path(gindex, #[trigger] before[i] as nat);
        assert(on_path(gindex, now[i] as nat));
    }
    if on_path(gindex, indices[count] as nat) {
        assert(on_path(gindex, now[count] as nat));
    }
    if is_covered(now, gindex) {
        let i = choose|i: int| 0 <= i < now.len() && on_path(gindex, #[trigger] now[i] as nat);
        if i < count {
            assert(on_path(gindex, before[i] as nat));
        }
    }
}

// Validity.

/// An ancestor addresses a node, and has a smaller index.
pub(crate) proof fn lemma_ancestor_smaller(ancestor: nat, gindex: nat)
    requires
        is_ancestor(ancestor, gindex),
    ensures
        0 < ancestor < gindex,
    decreases gindex,
{
    if ancestor != gindex / 2 {
        lemma_ancestor_smaller(ancestor, gindex / 2);
    }
}

/// An ancestor of an ancestor is an ancestor.
pub(crate) proof fn lemma_ancestor_transitive(top: nat, middle: nat, gindex: nat)
    requires
        is_ancestor(top, middle),
        is_ancestor(middle, gindex),
    ensures
        is_ancestor(top, gindex),
    decreases gindex,
{
    if middle != gindex / 2 {
        lemma_ancestor_transitive(top, middle, gindex / 2);
    }
}

/// Reject index sets that would leave a leaf unverified.
///
/// The multiproof algorithm combines a node with its sibling and stops once a parent is already
/// known. If one index is an ancestor of another, the descendant's leaf is never hashed into the
/// root, so **any** value passes for it. A runtime that takes indices from configuration or
/// untrusted data cannot rely on their shape, so it is checked here.
///
/// Linearithmic rather than pairwise: duplicates fall out of an ordered set, and an ancestor is
/// found by walking each index up its own path, which is at most 64 steps, against the set.
pub fn validate_indices(indices: &[u64]) -> (r: Result<(), Error>)
    ensures
        match r {
            Ok(()) => is_valid(indices@),
            Err(error) => is_invalid(indices@, error) && !is_valid(indices@),
        },
{
    let mut i: usize = 0;
    while i < indices.len()
        invariant
            i <= indices@.len(),
            forall|j: int| 0 <= j < i ==> indices@[j] != 0,
        decreases indices@.len() - i,
    {
        if indices[i] == 0 {
            assert(indices@[i as int] == 0);
            return Err(Error::ZeroIndex);
        }
        i += 1;
    }

    let mut seen: BTreeSet<u64> = BTreeSet::new();
    let mut duplicate: Option<u64> = None;
    let mut i: usize = 0;
    while i < indices.len()
        invariant
            i <= indices@.len(),
            forall|gindex: u64| #[trigger]
                seen@.contains(gindex) <==> indices@.take(i as int).contains(gindex),
            match duplicate {
                Some(least) => occurs_twice(indices@.take(i as int), least) && forall|other: u64| #[trigger]
                    occurs_twice(indices@.take(i as int), other) ==> least <= other,
                None => forall|other: u64| !#[trigger] occurs_twice(indices@.take(i as int), other),
            },
        decreases indices@.len() - i,
    {
        let index: u64 = indices[i];
        let fresh: bool = seen.insert(index);
        if !fresh {
            duplicate = match duplicate {
                Some(least) if least <= index => Some(least),
                _ => Some(index),
            };
        }
        proof {
            lemma_occurs_push(indices@, i as int);
        }
        i += 1;
    }
    assert(indices@.take(i as int) =~= indices@);
    if let Some(gindex) = duplicate {
        assert(!all_distinct(indices@));
        return Err(Error::DuplicateIndex { gindex });
    }
    proof {
        assert forall|i: int, j: int| 0 <= i < j < indices@.len() implies indices@[i]
            != indices@[j] by {
            assert(!occurs_twice(indices@, indices@[i]));
        }
    }

    let sorted = ascending(&seen);
    let mut k: usize = 0;
    while k < sorted.len()
        invariant
            k <= sorted@.len(),
            !indices@.contains(0),
            all_distinct(indices@),
            forall|i: int, j: int| 0 <= i < j < sorted@.len() ==> sorted@[i] < sorted@[j],
            forall|gindex: u64| #[trigger] seen@.contains(gindex) <==> indices@.contains(gindex),
            forall|gindex: u64| sorted@.contains(gindex) <==> #[trigger] seen@.contains(gindex),
            forall|j: int| 0 <= j < k ==> !has_ancestor(indices@, #[trigger] sorted@[j]),
        decreases sorted@.len() - k,
    {
        let index: u64 = sorted[k];
        // Every strict ancestor of `index` is on its path to the root, so the path is walked
        // instead of comparing against every other index.
        let mut ancestor: u64 = index / 2;
        while ancestor > 0
            invariant
                k < sorted@.len(),
                index == sorted@[k as int],
                !indices@.contains(0),
                all_distinct(indices@),
                forall|i: int, j: int| 0 <= i < j < sorted@.len() ==> sorted@[i] < sorted@[j],
                forall|gindex: u64| #[trigger]
                    seen@.contains(gindex) <==> indices@.contains(gindex),
                forall|gindex: u64| sorted@.contains(gindex) <==> #[trigger] seen@.contains(gindex),
                forall|j: int| 0 <= j < k ==> !has_ancestor(indices@, #[trigger] sorted@[j]),
                ancestor > 0 ==> is_ancestor(ancestor as nat, index as nat),
                forall|other: u64| #[trigger]
                    is_ancestor(other as nat, index as nat) && indices@.contains(other) ==> other
                        == ancestor || is_ancestor(other as nat, ancestor as nat),
            decreases ancestor,
        {
            if seen.contains(&ancestor) {
                proof {
                    assert(indices@.contains(index)) by {
                        assert(sorted@.contains(index));
                        assert(seen@.contains(index));
                    }
                    let at = indices@.index_of(ancestor);
                    assert(is_ancestor(indices@[at] as nat, index as nat));
                    assert(has_ancestor(indices@, index));
                    assert(!none_overlap(indices@)) by {
                        let own = indices@.index_of(index);
                        assert(has_ancestor(indices@, indices@[own]));
                    }
                    assert forall|other: u64|
                        indices@.contains(other) && #[trigger] is_ancestor(
                            other as nat,
                            index as nat,
                        ) implies other <= ancestor by {
                        if other != ancestor {
                            lemma_ancestor_smaller(other as nat, ancestor as nat);
                        }
                    }
                    assert forall|other: u64|
                        indices@.contains(other) && #[trigger] has_ancestor(
                            indices@,
                            other,
                        ) implies index <= other by {
                        assert(seen@.contains(other));
                        let j = sorted@.index_of(other);
                        if j < k {
                            assert(!has_ancestor(indices@, sorted@[j]));
                        }
                    }
                }
                return Err(Error::OverlappingIndices { ancestor, descendant: index });
            }
            proof {
                if ancestor > 1 {
                    lemma_ancestor_transitive((ancestor / 2) as nat, ancestor as nat, index as nat);
                }
            }
            ancestor = ancestor / 2;
        }
        proof {
            if has_ancestor(indices@, index) {
                let i = choose|i: int|
                    0 <= i < indices@.len() && is_ancestor(
                        #[trigger] indices@[i] as nat,
                        index as nat,
                    );
                let other = indices@[i];
                assert(indices@.contains(other));
                assert(other == 0 || is_ancestor(other as nat, 0));
            }
        }
        k += 1;
    }
    proof {
        assert forall|i: int| 0 <= i < indices@.len() implies !has_ancestor(
            indices@,
            #[trigger] indices@[i],
        ) by {
            assert(seen@.contains(indices@[i]));
            let j = sorted@.index_of(indices@[i]);
            assert(!has_ancestor(indices@, sorted@[j]));
        }
    }
    Ok(())
}

/// What one more index adds to the indices seen, and to those that occur twice.
proof fn lemma_occurs_push(indices: Seq<u64>, count: int)
    requires
        0 <= count < indices.len(),
    ensures
        forall|gindex: u64| #[trigger]
            indices.take(count + 1).contains(gindex) <==> indices.take(count).contains(gindex)
                || gindex == indices[count],
        forall|gindex: u64| #[trigger]
            occurs_twice(indices.take(count + 1), gindex) <==> occurs_twice(
                indices.take(count),
                gindex,
            ) || (gindex == indices[count] && indices.take(count).contains(gindex)),
{
    let before = indices.take(count);
    let now = indices.take(count + 1);
    assert(now[count] == indices[count]);
    assert forall|gindex: u64| #[trigger] now.contains(gindex) <==> before.contains(gindex)
        || gindex == indices[count] by {
        if before.contains(gindex) {
            assert(now[before.index_of(gindex)] == gindex);
        }
        if now.contains(gindex) && gindex != indices[count] {
            assert(before[now.index_of(gindex)] == gindex);
        }
    }
    assert forall|gindex: u64| #[trigger] occurs_twice(now, gindex) <==> occurs_twice(before, gindex)
        || (gindex == indices[count] && before.contains(gindex)) by {
        if occurs_twice(before, gindex) {
            let (i, j) = choose|i: int, j: int|
                0 <= i < j < before.len() && #[trigger] before[i] == gindex && #[trigger] before[j]
                    == gindex;
            assert(now[i] == gindex && now[j] == gindex);
        }
        if gindex == indices[count] && before.contains(gindex) {
            let i = before.index_of(gindex);
            assert(now[i] == gindex && now[count] == gindex);
        }
        if occurs_twice(now, gindex) {
            let (i, j) = choose|i: int, j: int|
                0 <= i < j < now.len() && #[trigger] now[i] == gindex && #[trigger] now[j]
                    == gindex;
            assert(before[i] == gindex);
            if j < count {
                assert(before[j] == gindex);
            }
        }
    }
}

// Recomputing the root.

/// The sum of the entries from position `from` on.
spec fn sum_from(keys: Seq<u64>, from: int) -> nat
    decreases keys.len() - from,
{
    if from >= keys.len() || from < 0 {
        0
    } else {
        keys[from] as nat + sum_from(keys, from + 1)
    }
}

proof fn lemma_sum_push(keys: Seq<u64>, from: int, key: u64)
    requires
        0 <= from <= keys.len(),
    ensures
        sum_from(keys.push(key), from) == sum_from(keys, from) + key,
    decreases keys.len() - from,
{
    if from < keys.len() {
        lemma_sum_push(keys, from + 1, key);
    } else {
        assert(sum_from(keys.push(key), from + 1) == 0);
    }
}

/// Whether a node with its sibling always comes with their parent.
spec fn is_closed(objects: Map<u64, Hash256>) -> bool {
    forall|gindex: u64|
        gindex > 1 && #[trigger] objects.contains_key(gindex) && objects.contains_key(
            branch::sibling(gindex as nat) as u64,
        ) ==> objects.contains_key(gindex / 2)
}

/// The sibling of an index, as a machine integer.
pub(crate) proof fn lemma_sibling_fits(gindex: u64)
    ensures
        branch::sibling(gindex as nat) <= u64::MAX,
        branch::sibling(branch::sibling(gindex as nat)) == gindex,
        branch::sibling(gindex as nat) / 2 == gindex / 2,
{
}

/// Once every pair has been combined, all nodes on the paths are there.
proof fn lemma_covered_present(indices: Seq<u64>, objects: Map<u64, Hash256>, gindex: u64)
    requires
        is_closed(objects),
        forall|index: u64| indices.contains(index) ==> #[trigger] objects.contains_key(index),
        forall|helper: u64| #[trigger]
            is_helper(indices, helper as nat) ==> objects.contains_key(helper),
        gindex > 0,
        is_covered(indices, gindex as nat),
    ensures
        objects.contains_key(gindex),
    decreases u64::MAX - gindex,
{
    if !indices.contains(gindex) {
        let child = lemma_covered_child(indices, gindex as nat);
        let near = child as u64;
        lemma_sibling_fits(near);
        let far = branch::sibling(child) as u64;
        lemma_covered_present(indices, objects, near);
        if is_covered(indices, far as nat) {
            lemma_covered_present(indices, objects, far);
        } else {
            assert(is_helper(indices, far as nat));
        }
        assert(objects.contains_key(near));
    }
}

/// A node on a path that is not itself an index has a child on that path.
pub(crate) proof fn lemma_covered_child(indices: Seq<u64>, gindex: nat) -> (child: nat)
    requires
        gindex > 0,
        is_covered(indices, gindex),
        gindex <= u64::MAX ==> !indices.contains(gindex as u64),
    ensures
        child / 2 == gindex,
        gindex < child <= u64::MAX,
        is_covered(indices, child),
{
    let i = choose|i: int|
        0 <= i < indices.len() && on_path(gindex, #[trigger] indices[i] as nat);
    let index = indices[i];
    assert(indices.contains(index));
    let child = lemma_child_on_path(gindex, index as nat);
    assert(on_path(child, indices[i] as nat));
    if child != index {
        lemma_ancestor_smaller(child, index as nat);
    }
    child
}

/// A node below another is that one's child, or below its child.
pub(crate) proof fn lemma_child_on_path(gindex: nat, index: nat) -> (child: nat)
    requires
        is_ancestor(gindex, index),
        gindex > 0,
    ensures
        child / 2 == gindex,
        gindex < child,
        on_path(child, index),
    decreases index,
{
    if gindex == index / 2 {
        index
    } else {
        let child = lemma_child_on_path(gindex, index / 2);
        child
    }
}

/// Recompute the root from `leaves` at `indices`, given the proof `nodes` named by
/// [`get_helper_indices`] in the same order.
///
/// This is the prover side and the building block. An `Ok` here does **not** mean that the leaves
/// are genuine, only that the proof has the right shape; a tampered leaf simply produces a
/// different root. Verifiers must compare the result against a root they already trust, which is
/// what [`verify_merkle_multiproof`] does.
pub fn calculate_multi_merkle_root(
    leaves: &[Hash256],
    nodes: &[Hash256],
    indices: &[u64],
) -> (r: Result<Hash256, Error>)
    ensures
        match r {
            Ok(root) => is_well_formed(
                indices@,
                hash::contents(leaves@),
                hash::contents(nodes@),
            ) && root@ == multi_root(
                indices@,
                hash::contents(leaves@),
                hash::contents(nodes@),
            ),
            Err(error) => if leaves@.len() != indices@.len() {
                error == (Error::LeafCountMismatch {
                    leaves: leaves@.len() as usize,
                    indices: indices@.len() as usize,
                })
            } else if !is_valid(indices@) {
                is_invalid(indices@, error)
            } else if nodes@.len() != helper_list(indices@).len() {
                error == (Error::ProofCountMismatch {
                    proof: nodes@.len() as usize,
                    expected: helper_list(indices@).len() as usize,
                })
            } else {
                indices@.len() == 0 && error == Error::IncompleteProof
            },
        },
{
    if leaves.len() != indices.len() {
        return Err(
            Error::LeafCountMismatch { leaves: leaves.len(), indices: indices.len() },
        );
    }
    match validate_indices(indices) {
        Ok(()) => {},
        Err(error) => {
            return Err(error);
        },
    }
    let helpers = get_helper_indices(indices);
    if nodes.len() != helpers.len() {
        return Err(Error::ProofCountMismatch { proof: nodes.len(), expected: helpers.len() });
    }
    let ghost start = given(
        indices@,
        hash::contents(leaves@),
        helpers@,
        hash::contents(nodes@),
    );

    let mut objects: BTreeMap<u64, Hash256> = BTreeMap::new();
    let mut keys: Vec<u64> = Vec::new();
    let mut i: usize = 0;
    while i < indices.len()
        invariant
            i <= indices@.len(),
            indices@.len() == leaves@.len(),
            all_distinct(indices@),
            keys@ == indices@.take(i as int),
            forall|gindex: u64| #[trigger]
                objects@.contains_key(gindex) <==> keys@.contains(gindex),
            forall|j: int|
                0 <= j < i ==> objects@[#[trigger] indices@[j]] == leaves@[j],
        decreases indices@.len() - i,
    {
        let ghost before = keys@;
        objects.insert(indices[i], leaves[i]);
        keys.push(indices[i]);
        proof {
            assert(keys@ =~= indices@.take(i + 1));
            lemma_contains_push(before, indices@[i as int]);
        }
        i += 1;
    }
    assert(keys@ =~= indices@);
    let mut i: usize = 0;
    while i < helpers.len()
        invariant
            i <= helpers@.len(),
            helpers@.len() == nodes@.len(),
            descending(helpers@),
            forall|gindex: u64| #[trigger]
                helpers@.contains(gindex) <==> is_helper(indices@, gindex as nat),
            keys@ == indices@ + helpers@.take(i as int),
            forall|gindex: u64| #[trigger]
                objects@.contains_key(gindex) <==> keys@.contains(gindex),
            forall|j: int|
                0 <= j < indices@.len() ==> objects@[#[trigger] indices@[j]] == leaves@[j],
            forall|j: int| 0 <= j < i ==> objects@[#[trigger] helpers@[j]] == nodes@[j],
        decreases helpers@.len() - i,
    {
        let ghost before = keys@;
        proof {
            assert(helpers@.contains(helpers@[i as int]));
            assert forall|j: int| 0 <= j < indices@.len() implies indices@[j]
                != helpers@[i as int] by {
                lemma_index_covered(indices@, j);
            }
        }
        objects.insert(helpers[i], nodes[i]);
        keys.push(helpers[i]);
        proof {
            assert(keys@ =~= indices@ + helpers@.take(i + 1));
            lemma_contains_push(before, helpers@[i as int]);
        }
        i += 1;
    }
    assert(keys@ =~= indices@ + helpers@);
    proof {
        lemma_helper_list(indices@);
        lemma_given(indices@, leaves@, helpers@, nodes@, objects@);
        if helpers@.len() > 0 {
            assert(helpers@.contains(helpers@[0]));
        }
    }

    // Combine every pair whose parent is not yet known.
    let mut pos: usize = 0;
    while pos < keys.len()
        invariant
            pos <= keys@.len(),
            !keys@.contains(0),
            indices@.len() == 0 ==> keys@.len() == 0,
            forall|gindex: u64| #[trigger]
                objects@.contains_key(gindex) <==> keys@.contains(gindex),
            forall|gindex: u64| #[trigger]
                start.contains_key(gindex) ==> objects@.contains_key(gindex),
            forall|gindex: u64| #[trigger]
                objects@.contains_key(gindex) ==> objects@[gindex]@ == derived(
                    start,
                    gindex as nat,
                ),
            forall|a: int, b: int|
                0 <= a < pos && 0 <= b < pos && keys@[a] > 1 && #[trigger] keys@[b]
                    == branch::sibling(#[trigger] keys@[a] as nat) ==> objects@.contains_key(
                    keys@[a] / 2,
                ),
        decreases sum_from(keys@, pos as int),
    {
        let key: u64 = keys[pos];
        let ghost before = keys@;
        let other: u64 = sibling(key);
        let above: u64 = key / 2;
        proof {
            assert(keys@.contains(key));
            lemma_sibling_fits(key);
        }
        if key > 1 && objects.contains_key(&other) && !objects.contains_key(&above) {
            let left: u64 = 2 * above;
            let right: u64 = 2 * above + 1;
            let joined = match (objects.get(&left), objects.get(&right)) {
                (Some(l), Some(r)) => hash_pair(l, r),
                _ => Hash256::zero(),
            };
            objects.insert(above, joined);
            keys.push(above);
            proof {
                lemma_contains_push(before, above);
                lemma_sum_push(before, pos + 1, above);
            }
        }
        pos += 1;
    }

    proof {
        assert(is_closed(objects@)) by {
            assert forall|gindex: u64|
                gindex > 1 && #[trigger] objects@.contains_key(gindex) && objects@.contains_key(
                    branch::sibling(gindex as nat) as u64,
                ) implies objects@.contains_key(gindex / 2) by {
                lemma_sibling_fits(gindex);
                let a = keys@.index_of(gindex);
                let b = keys@.index_of(branch::sibling(gindex as nat) as u64);
                assert(keys@[b] == branch::sibling(keys@[a] as nat));
            }
        }
        if indices@.len() > 0 {
            assert forall|index: u64| indices@.contains(index) implies #[trigger] objects@.contains_key(
                index,
            ) by {
                assert(start.contains_key(index));
            }
            assert forall|helper: u64| #[trigger] is_helper(
                indices@,
                helper as nat,
            ) implies objects@.contains_key(helper) by {
                assert(start.contains_key(helper));
            }
            lemma_root_covered(indices@);
            lemma_covered_present(indices@, objects@, 1);
        }
    }
    match objects.get(&1) {
        Some(root) => Ok(*root),
        None => Err(Error::IncompleteProof),
    }
}

proof fn lemma_contains_push(keys: Seq<u64>, key: u64)
    ensures
        forall|gindex: u64| #[trigger]
            keys.push(key).contains(gindex) <==> keys.contains(gindex) || gindex == key,
{
    assert forall|gindex: u64| #[trigger] keys.push(key).contains(gindex) <==> keys.contains(gindex)
        || gindex == key by {
        if keys.contains(gindex) {
            assert(keys.push(key)[keys.index_of(gindex)] == gindex);
        }
        assert(keys.push(key)[keys.len() as int] == key);
    }
}

pub(crate) proof fn lemma_index_covered(indices: Seq<u64>, i: int)
    requires
        0 <= i < indices.len(),
    ensures
        is_covered(indices, indices[i] as nat),
{
    assert(on_path(indices[i] as nat, indices[i] as nat));
}

/// The root lies on every path.
pub(crate) proof fn lemma_root_covered(indices: Seq<u64>)
    requires
        indices.len() > 0,
        indices[0] > 0,
    ensures
        is_covered(indices, 1),
{
    lemma_root_on_path(indices[0] as nat);
    assert(on_path(1, indices[0] as nat));
}

pub(crate) proof fn lemma_root_on_path(index: nat)
    requires
        index > 0,
    ensures
        on_path(1, index),
    decreases index,
{
    if index > 1 {
        lemma_root_on_path(index / 2);
    }
}

/// A map filled from the indices and helpers holds what is given.
proof fn lemma_given(
    indices: Seq<u64>,
    leaves: Seq<Hash256>,
    helpers: Seq<u64>,
    nodes: Seq<Hash256>,
    objects: Map<u64, Hash256>,
)
    requires
        indices.len() == leaves.len(),
        helpers.len() == nodes.len(),
        !indices.contains(0),
        !helpers.contains(0),
        forall|gindex: u64| #[trigger]
            objects.contains_key(gindex) <==> (indices + helpers).contains(gindex),
        forall|j: int| 0 <= j < indices.len() ==> objects[#[trigger] indices[j]] == leaves[j],
        forall|j: int| 0 <= j < helpers.len() ==> objects[#[trigger] helpers[j]] == nodes[j],
    ensures
        !(indices + helpers).contains(0),
        ({
            let start = given(
                indices,
                hash::contents(leaves),
                helpers,
                hash::contents(nodes),
            );
            &&& forall|gindex: u64| #[trigger]
                start.contains_key(gindex) <==> objects.contains_key(gindex)
            &&& forall|gindex: u64| #[trigger]
                objects.contains_key(gindex) ==> objects[gindex]@ == derived(start, gindex as nat)
        }),
{
    let start = given(indices, hash::contents(leaves), helpers, hash::contents(nodes));
    let keys = indices + helpers;
    assert forall|gindex: u64| #[trigger] keys.contains(gindex) <==> indices.contains(gindex)
        || helpers.contains(gindex) by {
        if indices.contains(gindex) {
            assert(keys[indices.index_of(gindex)] == gindex);
        }
        if helpers.contains(gindex) {
            assert(keys[indices.len() + helpers.index_of(gindex)] == gindex);
        }
        if keys.contains(gindex) {
            let i = keys.index_of(gindex);
            if i < indices.len() {
                assert(indices[i] == gindex);
            } else {
                assert(helpers[i - indices.len()] == gindex);
            }
        }
    }
    assert forall|gindex: u64| #[trigger] objects.contains_key(gindex) implies objects[gindex]@
        == derived(start, gindex as nat) by {
        assert(start.contains_key(gindex));
        if indices.contains(gindex) {
            let i = indices.index_of(gindex);
            assert(objects[indices[i]] == leaves[i]);
        } else {
            let i = helpers.index_of(gindex);
            assert(objects[helpers[i]] == nodes[i]);
        }
    }
}

/// Verify that the proof `nodes` place `leaves` at `indices` under `root`.
///
/// The verifier side of [`calculate_multi_merkle_root`]: the recomputed root is compared to the
/// expected one here, so the caller cannot mistake a well formed proof of the wrong values for a
/// valid one. As with [`is_valid_merkle_branch`](crate::branch::is_valid_merkle_branch), the
/// indices must come from the verifier's own configuration, never from the prover.
pub fn verify_merkle_multiproof(
    leaves: &[Hash256],
    nodes: &[Hash256],
    indices: &[u64],
    root: Hash256,
) -> (r: bool)
    ensures
        r == proves_all(
            indices@,
            hash::contents(leaves@),
            hash::contents(nodes@),
            root@,
        ),
{
    match calculate_multi_merkle_root(leaves, nodes, indices) {
        Ok(found) => found == root,
        Err(_) => false,
    }
}

} // verus!
