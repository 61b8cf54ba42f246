//! The `active_fields` bitmask of a progressive container.

use crate::error::Error;
use crate::hash;
use crate::hash::{Hash256, BYTES_PER_CHUNK};
use vstd::prelude::*;

verus! {

/// Whether bit `index` of a packed bitmask is set. Bits are numbered from the least significant of
/// the first byte on.
pub open spec fn bit_is_set(mask: Seq<u8>, index: int) -> bool {
    mask[index / 8] & (1u8 << ((index % 8) as u8)) != 0
}

/// The highest set bit among the first `count` bits of a packed bitmask, if any of them is set.
pub open spec fn highest_bit_below(mask: Seq<u8>, count: nat) -> Option<nat>
    decreases count,
{
    if count == 0 {
        None
    } else if bit_is_set(mask, count - 1) {
        Some((count - 1) as nat)
    } else {
        highest_bit_below(mask, (count - 1) as nat)
    }
}

/// The highest set bit of a packed bitmask, if any bit is set.
pub open spec fn highest_bit(mask: Seq<u8>) -> Option<nat> {
    highest_bit_below(mask, 8 * mask.len())
}

/// The index of the last of `fields` fields, if there are any.
pub open spec fn last_index(fields: nat) -> Option<nat> {
    if fields == 0 {
        None
    } else {
        Some((fields - 1) as nat)
    }
}

/// A bit position as a number.
pub open spec fn position(bit: Option<usize>) -> Option<nat> {
    match bit {
        Some(index) => Some(index as nat),
        None => None,
    }
}

/// Whether the bitmask declares exactly `fields` fields: its highest set bit is the last field.
pub open spec fn is_canonical(mask: Seq<u8>, fields: nat) -> bool {
    highest_bit(mask) == last_index(fields)
}

/// Whether the field at `index` is marked inactive and carries a root other than zero.
pub open spec fn is_inactive_not_zero(mask: Seq<u8>, roots: Seq<Seq<u8>>, index: int) -> bool {
    !bit_is_set(mask, index) && roots[index] != hash::zero_node()
}

/// Whether the bitmask describes exactly these field roots: it is canonical, and every inactive
/// field hashes as zero.
pub open spec fn describes(mask: Seq<u8>, roots: Seq<Seq<u8>>) -> bool {
    &&& is_canonical(mask, roots.len())
    &&& forall|index: int| 0 <= index < roots.len() ==> !is_inactive_not_zero(mask, roots, index)
}

/// Whether `error` says why the bitmask does not describe these field roots. The field count is
/// looked at first, and then the fields in order.
pub open spec fn mismatch(mask: Seq<u8>, roots: Seq<Seq<u8>>, error: Error) -> bool {
    match error {
        Error::NonCanonicalActiveFields { highest_set, fields } => {
            &&& !is_canonical(mask, roots.len())
            &&& position(highest_set) == highest_bit(mask)
            &&& fields == roots.len()
        },
        Error::InactiveFieldNotZero { index } => {
            &&& is_canonical(mask, roots.len())
            &&& index < roots.len()
            &&& is_inactive_not_zero(mask, roots, index as int)
            &&& forall|earlier: int|
                0 <= earlier < index ==> !is_inactive_not_zero(mask, roots, earlier)
        },
        _ => false,
    }
}

/// The position of the highest set bit in `active_fields`, if any.
pub(crate) fn highest_active_bit(active_fields: &[u8; BYTES_PER_CHUNK]) -> (r: Option<usize>)
    ensures
        position(r) == highest_bit(active_fields@),
{
    let mut index: usize = BYTES_PER_CHUNK;
    while index > 0
        invariant
            index <= BYTES_PER_CHUNK,
            highest_bit(active_fields@) == highest_bit_below(active_fields@, 8 * index as nat),
        decreases index,
    {
        index -= 1;
        let byte: u8 = active_fields[index];
        proof {
            lemma_highest_in_byte(active_fields@, index as nat);
        }
        if byte != 0 {
            return Some(index * 8 + (7 - byte.leading_zeros() as usize));
        }
    }
    None
}

proof fn lemma_highest_in_byte(mask: Seq<u8>, index: nat)
    requires
        index < mask.len(),
        mask.len() <= 32,
    ensures
        mask[index as int] == 0 ==> highest_bit_below(mask, 8 * (index + 1)) == highest_bit_below(
            mask,
            8 * index,
        ),
        mask[index as int] != 0 ==> highest_bit_below(mask, 8 * (index + 1)) == Some(
            (8 * index + 7 - mask[index as int].leading_zeros()) as nat,
        ),
{
    let byte = mask[index as int];
    vstd::std_specs::bits::axiom_u8_leading_zeros(byte);
    lemma_bit_of_byte(mask, index, 0);
    lemma_bit_of_byte(mask, index, 1);
    lemma_bit_of_byte(mask, index, 2);
    lemma_bit_of_byte(mask, index, 3);
    lemma_bit_of_byte(mask, index, 4);
    lemma_bit_of_byte(mask, index, 5);
    lemma_bit_of_byte(mask, index, 6);
    lemma_bit_of_byte(mask, index, 7);
    reveal_with_fuel(highest_bit_below, 9);
}

proof fn lemma_bit_of_byte(mask: Seq<u8>, index: nat, bit: u8)
    requires
        bit < 8,
    ensures
        bit_is_set(mask, 8 * index + bit) == ((mask[index as int] >> bit) & 1u8 != 0),
{
    let byte = mask[index as int];
    assert((8 * index + bit) / 8 == index);
    assert((8 * index + bit) % 8 == bit);
    assert((byte & (1u8 << bit) != 0) == ((byte >> bit) & 1u8 != 0)) by (bit_vector)
        requires
            bit < 8,
    ;
}

/// Check that `active_fields` describes exactly `field_roots`.
///
/// The canonical form requires the bitmask's highest set bit to sit at the last field, and every
/// inactive field to hash as zero. Without the first, two containers differing solely by trailing
/// zero leaves within a spine level would produce the same root, and the root would not commit to
/// how many fields were declared; without the second, a caller could pass a state that no container
/// produces.
pub(crate) fn check_active_fields(
    active_fields: &[u8; BYTES_PER_CHUNK],
    field_roots: &[Hash256],
) -> (r: Result<(), Error>)
    ensures
        match r {
            Ok(()) => describes(active_fields@, hash::contents(field_roots@)),
            Err(error) => mismatch(active_fields@, hash::contents(field_roots@), error),
        },
        r is Ok ==> field_roots@.len() <= 8 * BYTES_PER_CHUNK,
{
    let len: usize = field_roots.len();
    let highest_set = highest_active_bit(active_fields);
    let expected = len.checked_sub(1);
    proof {
        lemma_highest_bit(active_fields@, 256);
    }
    let canonical: bool = match (highest_set, expected) {
        (Some(highest), Some(last)) => highest == last,
        (None, None) => true,
        _ => false,
    };
    if !canonical {
        return Err(Error::NonCanonicalActiveFields { highest_set, fields: len });
    }
    let mut index: usize = 0;
    while index < len
        invariant
            len == field_roots@.len(),
            len <= 256,
            index <= len,
            is_canonical(active_fields@, len as nat),
            forall|earlier: int|
                0 <= earlier < index ==> !is_inactive_not_zero(
                    active_fields@,
                    hash::contents(field_roots@),
                    earlier,
                ),
        decreases len - index,
    {
        let active: bool = active_fields[index / 8] & (1u8 << ((index % 8) as u8)) != 0;
        if !active && field_roots[index] != Hash256::zero() {
            return Err(Error::InactiveFieldNotZero { index });
        }
        index += 1;
    }
    Ok(())
}

/// The highest set bit is set, no bit above it is, and it lies among the bits looked at.
pub proof fn lemma_highest_bit(mask: Seq<u8>, count: nat)
    requires
        count <= 256,
    ensures
        match highest_bit_below(mask, count) {
            Some(highest) => highest < count && bit_is_set(mask, highest as int) && forall|bit: int|
                highest < bit < count ==> !bit_is_set(mask, bit),
            None => forall|bit: int| 0 <= bit < count ==> !bit_is_set(mask, bit),
        },
    decreases count,
{
    if count > 0 {
        lemma_highest_bit(mask, (count - 1) as nat);
    }
}

/// A bitmask pins the number of fields: all containers that it describes have equally many.
pub proof fn active_fields_pin_the_field_count(mask: Seq<u8>, a: Seq<Seq<u8>>, b: Seq<Seq<u8>>)
    requires
        describes(mask, a),
        describes(mask, b),
    ensures
        a.len() == b.len(),
{
}

} // verus!
