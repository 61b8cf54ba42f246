//! Thirty-two byte tree nodes, and the hash that joins two of them into their parent.

use ethereum_hashing::hash32_concat;
use vstd::prelude::*;

verus! {

/// The number of bytes in one chunk, which is the size of every tree node.
pub const BYTES_PER_CHUNK: usize = 32;

/// A tree node. Its view is the sequence of its bytes.
#[derive(Clone, Copy, Debug, Eq)]
pub struct Hash256(pub [u8; BYTES_PER_CHUNK]);

impl View for Hash256 {
    type V = Seq<u8>;

    open spec fn view(&self) -> Seq<u8> {
        self.0@
    }
}

/// The node that stands for an absent leaf or an absent subtree: all bytes are zero.
pub open spec fn zero_node() -> Seq<u8> {
    Seq::new(BYTES_PER_CHUNK as nat, |i: int| 0u8)
}

/// What `ethereum_hashing::hash32_concat` returns for two byte strings: the SHA-256 digest of the
/// first followed by the second.
pub uninterp spec fn hash32_concat_of(h1: Seq<u8>, h2: Seq<u8>) -> Seq<u8>;

/// The parent of two nodes.
pub open spec fn parent(left: Seq<u8>, right: Seq<u8>) -> Seq<u8> {
    hash32_concat_of(left, right)
}

/// The contents of a sequence of nodes.
pub open spec fn contents(nodes: Seq<Hash256>) -> Seq<Seq<u8>> {
    nodes.map_values(|node: Hash256| node@)
}

impl Hash256 {
    /// The all-zero node.
    pub fn zero() -> (r: Hash256)
        ensures
            r@ == zero_node(),
    {
        let r = Hash256([0u8; BYTES_PER_CHUNK]);
        assert(r@ =~= zero_node());
        r
    }

    /// The node whose bytes all equal `byte`.
    pub fn repeat_byte(byte: u8) -> (r: Hash256)
        ensures
            r@ == Seq::new(BYTES_PER_CHUNK as nat, |i: int| byte),
    {
        let r = Hash256([byte; BYTES_PER_CHUNK]);
        assert(r@ =~= Seq::new(BYTES_PER_CHUNK as nat, |i: int| byte));
        r
    }

    /// The bytes of the node.
    pub fn as_slice(&self) -> (r: &[u8])
        ensures
            r@ == self@,
    {
        self.0.as_slice()
    }
}

impl From<[u8; BYTES_PER_CHUNK]> for Hash256 {
    fn from(bytes: [u8; BYTES_PER_CHUNK]) -> (r: Hash256) {
        Hash256(bytes)
    }
}

impl vstd::std_specs::convert::FromSpecImpl<[u8; BYTES_PER_CHUNK]> for Hash256 {
    open spec fn obeys_from_spec() -> bool {
        true
    }

    open spec fn from_spec(bytes: [u8; BYTES_PER_CHUNK]) -> Hash256 {
        Hash256(bytes)
    }
}

impl PartialEq for Hash256 {
    fn eq(&self, other: &Hash256) -> (r: bool) {
        let mut i: usize = 0;
        while i < BYTES_PER_CHUNK
            invariant
                i <= BYTES_PER_CHUNK,
                forall|j: int| 0 <= j < i ==> self@[j] == other@[j],
            decreases BYTES_PER_CHUNK - i,
        {
            if self.0[i] != other.0[i] {
                return false;
            }
            i += 1;
        }
        assert(self@ =~= other@);
        true
    }
}

impl vstd::std_specs::cmp::PartialEqSpecImpl for Hash256 {
    open spec fn obeys_eq_spec() -> bool {
        true
    }

    open spec fn eq_spec(&self, other: &Hash256) -> bool {
        self@ == other@
    }
}

/// A node is determined by its bytes, so what is said of the bytes pins the node.
pub proof fn a_node_is_its_bytes(a: Hash256, b: Hash256)
    requires
        a@ == b@,
    ensures
        a == b,
{
    assert(a.0 =~= b.0) by {
        assert forall|i: int| 0 <= i < BYTES_PER_CHUNK implies a.0[i] == b.0[i] by {
            assert(a@[i] == b@[i]);
        }
    }
}

/// Nodes compare equal exactly where they are the same.
pub proof fn nodes_compare_by_their_bytes(a: Hash256, b: Hash256)
    ensures
        vstd::std_specs::cmp::PartialEqSpec::eq_spec(&a, &b) <==> a == b,
{
    if a@ == b@ {
        a_node_is_its_bytes(a, b);
    }
}

/// The parent of `left` and `right`, which is `ethereum_hashing::hash32_concat` of their bytes.
/// The digest itself is only named: it depends on the two nodes alone, and nothing more is claimed
/// of it.
#[verifier::external_body]
pub(crate) fn hash_pair(left: &Hash256, right: &Hash256) -> (r: Hash256)
    ensures
        r@ == hash32_concat_of(left@, right@),
{
    Hash256(hash32_concat(&left.0, &right.0))
}

/// The root of a container: its field tree's root, joined with its packed `active_fields`.
pub fn mix_in_active_fields(root: &Hash256, active_fields: [u8; BYTES_PER_CHUNK]) -> (r: Hash256)
    ensures
        r@ == parent(root@, active_fields@),
{
    hash_pair(root, &Hash256(active_fields))
}

} // verus!
