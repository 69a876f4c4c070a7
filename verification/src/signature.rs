use vstd::prelude::*;

verus! {

/// The number of distinct component kinds a signature can tell apart.
pub const MAX_COMPONENT_TYPES: usize = 32;

/// The mask that owns bit `bit` of a signature.
pub open spec fn bit_mask(bit: int) -> u32 {
    1u32 << (bit as u32)
}

/// `signature` holds every bit that `required` holds.
pub open spec fn satisfies(signature: u32, required: u32) -> bool {
    signature & required == required
}

/// Bit `bit` of `signature` is set.
pub open spec fn has_bit(signature: u32, bit: int) -> bool {
    satisfies(signature, bit_mask(bit))
}

/// Computes the mask that owns bit `bit`.
pub fn mask_for_bit(bit: usize) -> (mask: u32)
    requires
        bit < MAX_COMPONENT_TYPES,
    ensures
        mask == bit_mask(bit as int),
{
    1u32 << (bit as u32)
}

/// Tests whether `signature` holds every bit of `required`.
pub fn signature_satisfies(signature: u32, required: u32) -> (r: bool)
    ensures
        r == satisfies(signature, required),
{
    (signature & required) == required
}

/// The empty signature holds no bit.
pub proof fn lemma_empty_signature(bit: int)
    requires
        0 <= bit < 32,
    ensures
        !has_bit(0u32, bit),
        bit_mask(bit) != 0,
{
    let k = bit as u32;
    assert(0u32 & (1u32 << k) != (1u32 << k) && (1u32 << k) != 0) by (bit_vector)
        requires
            k < 32,
    ;
}

/// Every signature satisfies the empty requirement.
pub proof fn lemma_satisfies_empty(signature: u32)
    ensures
        satisfies(signature, 0u32),
{
    assert(signature & 0u32 == 0u32) by (bit_vector);
}

/// Or-ing a mask into a signature sets that one bit and keeps all others.
pub proof fn lemma_set_bit(signature: u32, bit: int, other: int)
    requires
        0 <= bit < 32,
        0 <= other < 32,
    ensures
        has_bit(signature | bit_mask(bit), other) == (other == bit || has_bit(signature, other)),
{
    let k = bit as u32;
    let j = other as u32;
    assert(((signature | (1u32 << k)) & (1u32 << j) == (1u32 << j)) == (j == k || signature & (1u32
        << j) == (1u32 << j))) by (bit_vector)
        requires
            k < 32,
            j < 32,
    ;
}

/// And-ing the complement of a mask into a signature clears that one bit and
/// keeps all others.
pub proof fn lemma_clear_bit(signature: u32, bit: int, other: int)
    requires
        0 <= bit < 32,
        0 <= other < 32,
    ensures
        has_bit(signature & !bit_mask(bit), other) == (other != bit && has_bit(signature, other)),
{
    let k = bit as u32;
    let j = other as u32;
    assert(((signature & !(1u32 << k)) & (1u32 << j) == (1u32 << j)) == (j != k && signature & (
    1u32 << j) == (1u32 << j))) by (bit_vector)
        requires
            k < 32,
            j < 32,
    ;
}

/// A requirement built by or-ing two requirements is met exactly when both are.
pub proof fn lemma_satisfies_union(signature: u32, a: u32, b: u32)
    ensures
        satisfies(signature, a | b) == (satisfies(signature, a) && satisfies(signature, b)),
{
    assert((signature & (a | b) == (a | b)) == (signature & a == a && signature & b == b))
        by (bit_vector);
}

/// The masks of two different bits differ.
pub proof fn lemma_masks_distinct(a: int, b: int)
    requires
        0 <= a < 32,
        0 <= b < 32,
        a != b,
    ensures
        bit_mask(a) != bit_mask(b),
{
    let k = a as u32;
    let j = b as u32;
    assert((1u32 << k) != (1u32 << j)) by (bit_vector)
        requires
            k < 32,
            j < 32,
            k != j,
    ;
}

} // verus!
