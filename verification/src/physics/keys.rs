//! Keys identifying bodies and contact pairs from one step to the next.

use vstd::prelude::*;

use crate::ecs::entity::Entity;

verus! {

/// Key of an entity's body: bit 63 set, the low 31 bits of the generation
/// in bits 32..63 and the slot in the low 32 bits.
pub open spec fn spec_entity_key(slot: u32, generation: u32) -> u64 {
    (0x8000_0000_0000_0000u64 | (((generation & 0x7fff_ffffu32) as u64) << 32u64)) | (slot as u64)
}

/// Key of an entity's body.
pub fn entity_key(entity: Entity) -> (r: u64)
    ensures
        r == spec_entity_key(entity.slot(), entity.gen()),
{
    let generation = entity.generation();
    let slot = entity.id();
    (0x8000_0000_0000_0000u64 | (((generation & 0x7fff_ffffu32) as u64) << 32u64)) | (slot as u64)
}

/// Key of an unordered pair: the larger key in the high half, the smaller
/// in the low half.
pub open spec fn spec_pair_key(a: u64, b: u64) -> u128 {
    let (lo, hi) = if a < b { (a, b) } else { (b, a) };
    ((hi as u128) << 64u128) | (lo as u128)
}

/// Key of an unordered pair.
pub fn pair_key(a: u64, b: u64) -> (r: u128)
    ensures
        r == spec_pair_key(a, b),
{
    let (lo, hi) = if a < b { (a, b) } else { (b, a) };
    ((hi as u128) << 64u128) | (lo as u128)
}

/// `x * y` modulo 2^64.
pub open spec fn mul64(x: u64, y: u64) -> u64 {
    ((x as nat * y as nat) % 0x1_0000_0000_0000_0000nat) as u64
}

/// Hash of a pair key for the warm-start table.
pub open spec fn spec_hash_pair(key: u128) -> u64 {
    let h = (key as u64) ^ mul64((key >> 64u128) as u64, 0x9E37_79B9_7F4A_7C15u64);
    let h2 = mul64(h ^ (h >> 32u64), 0xD6E8_FEB8_6659_FD93u64);
    h2 ^ (h2 >> 32u64)
}

/// Hash of a pair key for the warm-start table.
pub fn hash_pair(key: u128) -> (r: u64)
    ensures
        r == spec_hash_pair(key),
{
    let h = (key as u64) ^ ((key >> 64u128) as u64).wrapping_mul(0x9E37_79B9_7F4A_7C15u64);
    let h = (h ^ (h >> 32u64)).wrapping_mul(0xD6E8_FEB8_6659_FD93u64);
    h ^ (h >> 32u64)
}

/// Hash of a body key for the sleep table.
pub open spec fn spec_hash_key(key: u64) -> u64 {
    let h = mul64(key, 0xD6E8_FEB8_6659_FD93u64);
    h ^ (h >> 32u64)
}

/// Hash of a body key for the sleep table.
pub fn hash_key(key: u64) -> (r: u64)
    ensures
        r == spec_hash_key(key),
{
    let h = key.wrapping_mul(0xD6E8_FEB8_6659_FD93u64);
    h ^ (h >> 32u64)
}

/// A pair key names the same pair whichever body comes first.
pub proof fn lemma_pair_key_symmetric(a: u64, b: u64)
    ensures
        spec_pair_key(a, b) == spec_pair_key(b, a),
{
}

/// A body key has bit 63 set, which tile keys never have, and keeps the
/// entity's slot in its low half.
pub proof fn lemma_entity_key_tagged(slot: u32, generation: u32)
    ensures
        spec_entity_key(slot, generation) & 0x8000_0000_0000_0000u64 != 0,
        spec_entity_key(slot, generation) & 0xffff_ffffu64 == slot,
{
    assert(((0x8000_0000_0000_0000u64 | (((generation & 0x7fff_ffffu32) as u64) << 32u64)) | (slot as u64)) & 0x8000_0000_0000_0000u64 != 0) by (bit_vector);
    assert(((0x8000_0000_0000_0000u64 | (((generation & 0x7fff_ffffu32) as u64) << 32u64)) | (slot as u64)) & 0xffff_ffffu64 == slot) by (bit_vector);
}

} // verus!
