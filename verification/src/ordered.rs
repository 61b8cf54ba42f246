//! Reading an ordered set in order.

use std::collections::BTreeSet;
use vstd::prelude::*;
use vstd::std_specs::cmp::OrdSpec;
use vstd::std_specs::iter::IteratorSpec;

verus! {

broadcast use {vstd::std_specs::btree::group_btree_axioms, vstd::laws_cmp::group_laws_cmp};

/// The members of `set`, in ascending order.
pub(crate) fn ascending(set: &BTreeSet<u64>) -> (r: Vec<u64>)
    ensures
        forall|i: int, j: int| 0 <= i < j < r@.len() ==> r@[i] < r@[j],
        forall|member: u64| r@.contains(member) <==> set@.contains(member),
{
    let mut out: Vec<u64> = Vec::new();
    let members = set.iter();
    let ghost all = members.remaining();
    assert(vstd::laws_cmp::obeys_cmp::<u64>());
    assert(vstd::laws_cmp::obeys_cmp::<&u64>());
    assert(all.unref().to_set() == set@);
    for member in it: members
        invariant
            it.seq() == all,
            out@ =~= all.unref().take(it.index()),
    {
        out.push(*member);
    }
    proof {
        assert(out@ =~= all.unref());
        assert forall|i: int, j: int| 0 <= i < j < out@.len() implies out@[i] < out@[j] by {
            assert(vstd::std_specs::btree::increasing_seq(all));
            assert(<&u64>::cmp_spec(&all[i], &all[j]) is Less);
        }
        assert forall|member: u64| out@.contains(member) == set@.contains(member) by {
            assert(out@.to_set().contains(member) == out@.contains(member));
        }
    }
    out
}

} // verus!
