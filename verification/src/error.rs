//! Why a proof could not be built or checked.

use vstd::prelude::*;
use vstd::string::*;

verus! {

/// Errors returned when building a proof.
#[derive(Clone, Debug, PartialEq, Eq)]
pub enum Error {
    /// The requested field index is not present in the supplied field roots.
    FieldIndexOutOfBounds { index: usize, len: usize },
    /// No field roots were supplied, so there is nothing to prove.
    NoFields,
    /// A multiproof was given a different number of leaves and indices.
    LeafCountMismatch { leaves: usize, indices: usize },
    /// A multiproof carried a different number of nodes than its indices require.
    ProofCountMismatch { proof: usize, expected: usize },
    /// A multiproof did not contain enough nodes to reach the root.
    IncompleteProof,
    /// A generalized index falls outside the tree built from the supplied field roots.
    GindexOutOfTree { gindex: u64 },
    /// `active_fields` does not describe exactly the supplied field roots. Two containers whose
    /// roots differ only by trailing zero leaves inside one spine level would otherwise share a
    /// root, so the bitmask has to pin the field count.
    NonCanonicalActiveFields { highest_set: Option<usize>, fields: usize },
    /// A field that `active_fields` marks inactive carried a non-zero root. Inactive fields hash
    /// as zero, so anything else is not a state any container can produce.
    InactiveFieldNotZero { index: usize },
    /// A multiproof index set contained 0, which addresses no node.
    ZeroIndex,
    /// A multiproof index set contained the same index twice.
    DuplicateIndex { gindex: u64 },
    /// A multiproof index set contained a node and one of its descendants. The descendant's leaf
    /// would never be hashed into the root, so any value would pass for it.
    OverlappingIndices { ancestor: u64, descendant: u64 },
}

/// The character for one decimal digit.
pub open spec fn digit(d: nat) -> char {
    (48 + d) as char
}

/// The decimal digits of a number, without leading zeros.
pub open spec fn decimal(n: nat) -> Seq<char>
    decreases n,
{
    if n < 10 {
        seq![digit(n)]
    } else {
        decimal(n / 10).push(digit(n % 10))
    }
}

/// How an optional number is written: `None`, or `Some(..)` around its digits.
pub open spec fn optional_decimal(n: Option<usize>) -> Seq<char> {
    match n {
        Some(value) => "Some("@ + decimal(value as nat) + ")"@,
        None => "None"@,
    }
}

/// The text that describes an error to a person.
pub open spec fn message_text(error: Error) -> Seq<char> {
    match error {
        Error::FieldIndexOutOfBounds { index, len } => "field index "@ + decimal(index as nat)
            + " out of bounds for "@ + decimal(len as nat) + " fields"@,
        Error::NoFields => "no field roots supplied"@,
        Error::LeafCountMismatch { leaves, indices } => decimal(leaves as nat) + " leaves for "@
            + decimal(indices as nat) + " indices"@,
        Error::ProofCountMismatch { proof: nodes, expected } => "proof has "@ + decimal(
            nodes as nat,
        ) + " nodes, expected "@ + decimal(expected as nat),
        Error::IncompleteProof => "proof did not reach the root"@,
        Error::GindexOutOfTree { gindex } => "gindex "@ + decimal(gindex as nat)
            + " is outside the tree"@,
        Error::NonCanonicalActiveFields { highest_set, fields } =>
            "active_fields highest set bit "@ + optional_decimal(highest_set)
            + " does not match "@ + decimal(fields as nat) + " fields"@,
        Error::InactiveFieldNotZero { index } => "field "@ + decimal(index as nat)
            + " is inactive but its root is not zero"@,
        Error::ZeroIndex => "index 0 addresses no node"@,
        Error::DuplicateIndex { gindex } => "index "@ + decimal(gindex as nat) + " appears twice"@,
        Error::OverlappingIndices { ancestor, descendant } => "index "@ + decimal(ancestor as nat)
            + " is an ancestor of "@ + decimal(descendant as nat),
    }
}

fn digit_text(d: u64) -> (r: &'static str)
    requires
        d < 10,
    ensures
        r@ == seq![digit(d as nat)],
{
    proof {
        reveal_strlit("0");
        reveal_strlit("1");
        reveal_strlit("2");
        reveal_strlit("3");
        reveal_strlit("4");
        reveal_strlit("5");
        reveal_strlit("6");
        reveal_strlit("7");
        reveal_strlit("8");
        reveal_strlit("9");
    }
    match d {
        0 => "0",
        1 => "1",
        2 => "2",
        3 => "3",
        4 => "4",
        5 => "5",
        6 => "6",
        7 => "7",
        8 => "8",
        _ => "9",
    }
}

fn push_decimal(out: &mut String, n: u64)
    ensures
        final(out)@ == old(out)@ + decimal(n as nat),
    decreases n,
{
    if n >= 10 {
        push_decimal(out, n / 10);
    }
    out.append(digit_text(n % 10));
    assert(out@ =~= old(out)@ + decimal(n as nat));
}

impl Error {
    /// The text that describes this error to a person.
    pub fn message(&self) -> (r: String)
        ensures
            r@ == message_text(*self),
    {
        let mut out = String::new();
        match self {
            Error::FieldIndexOutOfBounds { index, len } => {
                out.append("field index ");
                push_decimal(&mut out, *index as u64);
                out.append(" out of bounds for ");
                push_decimal(&mut out, *len as u64);
                out.append(" fields");
            },
            Error::NoFields => {
                out.append("no field roots supplied");
            },
            Error::LeafCountMismatch { leaves, indices } => {
                push_decimal(&mut out, *leaves as u64);
                out.append(" leaves for ");
                push_decimal(&mut out, *indices as u64);
                out.append(" indices");
            },
            Error::ProofCountMismatch { proof: nodes, expected } => {
                out.append("proof has ");
                push_decimal(&mut out, *nodes as u64);
                out.append(" nodes, expected ");
                push_decimal(&mut out, *expected as u64);
            },
            Error::IncompleteProof => {
                out.append("proof did not reach the root");
            },
            Error::GindexOutOfTree { gindex } => {
                out.append("gindex ");
                push_decimal(&mut out, *gindex);
                out.append(" is outside the tree");
            },
            Error::NonCanonicalActiveFields { highest_set, fields } => {
                out.append("active_fields highest set bit ");
                match highest_set {
                    Some(bit) => {
                        out.append("Some(");
                        push_decimal(&mut out, *bit as u64);
                        out.append(")");
                    },
                    None => {
                        out.append("None");
                    },
                }
                out.append(" does not match ");
                push_decimal(&mut out, *fields as u64);
                out.append(" fields");
            },
            Error::InactiveFieldNotZero { index } => {
                out.append("field ");
                push_decimal(&mut out, *index as u64);
                out.append(" is inactive but its root is not zero");
            },
            Error::ZeroIndex => {
                out.append("index 0 addresses no node");
            },
            Error::DuplicateIndex { gindex } => {
                out.append("index ");
                push_decimal(&mut out, *gindex);
                out.append(" appears twice");
            },
            Error::OverlappingIndices { ancestor, descendant } => {
                out.append("index ");
                push_decimal(&mut out, *ancestor);
                out.append(" is an ancestor of ");
                push_decimal(&mut out, *descendant);
            },
        }
        assert(out@ =~= message_text(*self));
        out
    }
}

} // verus!
