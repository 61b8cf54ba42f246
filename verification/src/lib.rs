//! Merkle proofs over the field roots of containers.
//!
//! A streaming hasher keeps only the state that it needs for the root, so it cannot answer "give me
//! the branch for field `n`". This library builds the tree from a container's field roots and reads
//! sibling paths out of it, and it verifies such paths against a root.
//!
//! # Tree shape
//!
//! A progressive container merkleizes its field roots progressively and then mixes in
//! `active_fields`. The progressive tree is a right leaning spine whose left child at level `k` is
//! an ordinary binary tree over `4^k` leaves:
//!
//! ```text
//!                        root
//!                         /\
//!                        /  \
//!        container_root /    \ active_fields
//!                      /\
//!      level 0 (1)    /  \
//!                        /\
//!      level 1 (4)      /  \
//!                          /\
//!      level 2 (16)       /  \
//!                            /\
//!      level 3 (64)         /  \
//!                              0
//! ```
//!
//! Two consequences that a fixed depth scheme does not have: field depth grows with field index, so
//! branches from one container have different lengths, and the generalized index of a field is not
//! `2^ceil(log2(nfields)) + i`.
//!
//! A balanced container is an ordinary binary tree, padded with zero leaves to a power of two. Its
//! fields are proved together, by multiproofs.
//!
//! # What is proved
//!
//! The model of a node is the sequence of its bytes, and that of the hash is
//! [`hash::hash32_concat_of`], of which nothing is known but that it is a function. Roots, branches
//! and multiproofs are defined over these in [`tree`], [`spine`], [`container`], [`branch`] and
//! [`multiproof`], and every function says which of them it returns. [`laws`] relates them: what is
//! built is accepted, and what is accepted is bound to the root unless the hash collides.
//! [`closed_forms`] says what the definitions come to in numbers, bytes and digests, [`index_sets`]
//! which sets of indices and which multiproofs are accepted, and [`outcomes`] when each operation
//! succeeds, what its result can be used for, and what it reports otherwise.

pub mod active;
pub mod balanced;
pub mod branch;
pub mod closed_forms;
pub mod container;
pub mod error;
pub mod fields;
pub mod hash;
pub mod index_sets;
pub mod laws;
pub mod multiproof;
mod ordered;
pub mod outcomes;
pub mod spine;
pub mod tree;

pub use crate::balanced::{generate_multiproof, BalancedFieldRoots, FieldRoots};
pub use crate::branch::is_valid_merkle_branch;
pub use crate::container::{
    progressive_container_proof, progressive_container_root, progressive_root,
};
pub use crate::error::Error;
pub use crate::fields::{ContainerFields, TreeHashFields};
pub use crate::hash::{mix_in_active_fields, Hash256, BYTES_PER_CHUNK};
pub use crate::spine::{
    field_index_for_gindex, progressive_container_depth, progressive_container_gindex,
};
