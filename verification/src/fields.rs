//! Containers that hand out their field roots, so that proofs can be built over them.

use crate::balanced;
use crate::balanced::{generate_multiproof, BalancedFieldRoots, FieldRoots};
use crate::branch;
use crate::container;
use crate::container::{progressive_container_proof, progressive_container_root};
use crate::error::Error;
use crate::hash;
use crate::hash::{Hash256, BYTES_PER_CHUNK};
use crate::laws;
use crate::spine;
use crate::spine::field_index_for_gindex;
use vstd::prelude::*;

verus! {

/// A **balanced** container that can hand out its field roots.
///
/// For ordinary containers only. Progressive containers have [`TreeHashFields`] instead: their
/// field roots merkleize into the progressive spine, so feeding them to [`generate_multiproof`],
/// which builds a balanced tree, would yield a proof against a root that the container never
/// produces. The two traits return different types, [`BalancedFieldRoots`] here and plain
/// [`FieldRoots`] there, and `generate_multiproof` accepts only the former, so that mistake is a
/// type error rather than a wrong root at runtime.
pub trait ContainerFields {
    /// The container's field roots in chunk order.
    fn field_roots(&self) -> BalancedFieldRoots;

    /// Build a balanced multiproof over this container's fields.
    fn prove_fields(&self, gindices: &[u64]) -> (r: Result<Vec<Hash256>, Error>)
        ensures
            exists|roots: BalancedFieldRoots|
                call_ensures(Self::field_roots, (self,), roots) && #[trigger] balanced::is_multiproof(
                    hash::contents(roots@),
                    gindices@,
                    r,
                ),
    {
        let roots = self.field_roots();
        generate_multiproof(&roots, gindices)
    }
}

/// What [`prove_field_of`] returns: the field's root and its branch, which is accepted
/// against the container's root, where there is such a field and `active_fields` describes the
/// field roots, and otherwise the first of these that fails.
pub open spec fn is_field_proof(
    roots: Seq<Hash256>,
    mask: Seq<u8>,
    index: nat,
    outcome: Result<(Hash256, Vec<Hash256>), Error>,
) -> bool {
    match outcome {
        Ok((leaf, nodes)) => index < roots.len() && leaf == roots[index as int]
            && container::is_container_proof(hash::contents(roots), mask, index, Ok(nodes))
            && branch::proves(
            leaf@,
            hash::contents(nodes@),
            spine::container_gindex(index),
            container::container_root(hash::contents(roots), mask),
        ),
        Err(error) => if index >= roots.len() {
            error == (Error::FieldIndexOutOfBounds {
                index: index as usize,
                len: roots.len() as usize,
            })
        } else {
            container::is_container_proof(hash::contents(roots), mask, index, Err(error))
        },
    }
}

/// Prove the field at `field_index` of the container with these field roots, returning its root and
/// the branch to the container root.
pub fn prove_field_of(
    field_roots: &[Hash256],
    active_fields: [u8; BYTES_PER_CHUNK],
    field_index: usize,
) -> (r: Result<(Hash256, Vec<Hash256>), Error>)
    ensures
        is_field_proof(field_roots@, active_fields@, field_index as nat, r),
{
    if field_index >= field_roots.len() {
        return Err(Error::FieldIndexOutOfBounds { index: field_index, len: field_roots.len() });
    }
    let leaf: Hash256 = field_roots[field_index];
    match progressive_container_proof(field_roots, active_fields, field_index) {
        Ok(nodes) => {
            proof {
                laws::every_field_proves_against_the_root(
                    hash::contents(field_roots@),
                    active_fields@,
                    field_index as nat,
                );
            }
            Ok((leaf, nodes))
        },
        Err(error) => Err(error),
    }
}

/// A progressive container that can hand out its field roots, so proofs can be built over it.
pub trait TreeHashFields {
    /// The packed `active_fields` bitmask mixed into the container root.
    const ACTIVE_FIELDS: [u8; BYTES_PER_CHUNK];

    /// The container's field roots in chunk order, with a zero root for every inactive field so
    /// that positions, and therefore generalized indices, stay stable across forks.
    fn field_roots(&self) -> FieldRoots;

    /// The container root.
    fn container_root(&self) -> (r: Result<Hash256, Error>)
        ensures
            exists|roots: FieldRoots|
                call_ensures(Self::field_roots, (self,), roots)
                    && #[trigger] container::is_container_root(
                    hash::contents(roots@),
                    Self::ACTIVE_FIELDS@,
                    r,
                ),
    {
        let roots = self.field_roots();
        progressive_container_root(roots.as_slice(), Self::ACTIVE_FIELDS)
    }

    /// Prove the field at the generalized index `gindex`, returning its root and the branch to the
    /// container root.
    fn prove_gindex(&self, gindex: u64) -> (r: Result<(Hash256, Vec<Hash256>), Error>)
        ensures
            forall|index: nat| #[trigger]
                spine::container_gindex(index) == gindex && spine::level_fits(index)
                    ==> exists|roots: FieldRoots|
                    call_ensures(Self::field_roots, (self,), roots) && #[trigger] is_field_proof(
                        roots@,
                        Self::ACTIVE_FIELDS@,
                        index,
                        r,
                    ),
            (forall|index: nat| #[trigger]
                spine::container_gindex(index) == gindex ==> !spine::level_fits(index)) ==> r
                == Err::<(Hash256, Vec<Hash256>), Error>(Error::GindexOutOfTree { gindex }),
    {
        match field_index_for_gindex(gindex) {
            Some(field_index) => {
                self.prove_field(field_index)
            },
            None => Err(Error::GindexOutOfTree { gindex }),
        }
    }

    /// Prove the field at `field_index`, returning its root and the branch to the container root.
    ///
    /// Verify with [`is_valid_merkle_branch`](crate::branch::is_valid_merkle_branch) against
    /// [`progressive_container_gindex(field_index)`](crate::spine::progressive_container_gindex).
    fn prove_field(&self, field_index: usize) -> (r: Result<(Hash256, Vec<Hash256>), Error>)
        ensures
            exists|roots: FieldRoots|
                call_ensures(Self::field_roots, (self,), roots) && #[trigger] is_field_proof(
                    roots@,
                    Self::ACTIVE_FIELDS@,
                    field_index as nat,
                    r,
                ),
    {
        let roots = self.field_roots();
        prove_field_of(roots.as_slice(), Self::ACTIVE_FIELDS, field_index)
    }
}

} // verus!
