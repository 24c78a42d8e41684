use vstd::prelude::*;

verus! {

/// The hash yields 24 significant bits; dividing by this scale maps it into [0, 1).
pub const HASH_SCALE: u32 = 0x0100_0000;

/// The integer mixing function behind the per-particle pseudo-random numbers.
pub open spec fn hash24_spec(i: u32) -> u32 {
    let x1 = vstd::wrapping::u32_specs::wrapping_mul(i, 2654435761u32);
    let x2 = x1 ^ (x1 >> 16u32);
    let x3 = vstd::wrapping::u32_specs::wrapping_mul(x2, 2246822519u32);
    let x4 = x3 ^ (x3 >> 13u32);
    x4 & 0x00ff_ffffu32
}

/// Deterministic integer hash of a particle index, reduced to 24 bits.
/// `hash24(i) / HASH_SCALE` is the value in [0, 1) that seeds every procedural shape.
pub fn hash24(i: u32) -> (r: u32)
    ensures
        r == hash24_spec(i),
        r < HASH_SCALE,
{
    let mut x = i.wrapping_mul(2654435761u32);
    x ^= x >> 16u32;
    x = x.wrapping_mul(2246822519u32);
    x ^= x >> 13u32;
    let r = x & 0x00ff_ffffu32;
    assert(x & 0x00ff_ffffu32 < 0x0100_0000u32) by (bit_vector);
    r
}

/// Multiplication modulo 2^32.
pub open spec fn mul32(x: u32, k: u32) -> u32 {
    (((x as u64) * (k as u64)) % 0x1_0000_0000) as u32
}

/// The 32-bit mix of a particle index before the low 24 bits are kept: multiply by an odd
/// constant, xor-shift right by 16, multiply by a second odd constant, xor-shift right by 13.
pub open spec fn mix32(i: u32) -> u32 {
    let a = mul32(i, 2654435761u32);
    let b = a ^ (a >> 16u32);
    let c = mul32(b, 2246822519u32);
    c ^ (c >> 13u32)
}

/// The inverse of `mix32`, undoing its four steps in reverse order.
pub open spec fn unmix32(y: u32) -> u32 {
    let c = y ^ (y >> 13u32) ^ (y >> 26u32);
    let b = mul32(c, 3066638151u32);
    let a = b ^ (b >> 16u32);
    mul32(a, 244002641u32)
}

/// The hash of `i` is the low 24 bits of the 32-bit mix of `i` itself.
pub proof fn lemma_hash24_is_low_bits_of_mix(i: u32)
    ensures
        hash24_spec(i) == mix32(i) & 0x00ff_ffffu32,
{
}

/// Every step of the mix can be undone, so distinct particle indices never share a 32-bit
/// mix value.
pub proof fn lemma_mix32_invertible(i: u32)
    ensures
        unmix32(mix32(i)) == i,
{
    let a = mul32(i, 2654435761u32);
    let b = a ^ (a >> 16u32);
    let c = mul32(b, 2246822519u32);
    let y = c ^ (c >> 13u32);
    assert(y ^ (y >> 13u32) ^ (y >> 26u32) == c) by (bit_vector)
        requires
            y == c ^ (c >> 13u32),
    ;
    assert(mul32(c, 3066638151u32) == b) by (bit_vector)
        requires
            c == (((b as u64) * (2246822519u32 as u64)) % 0x1_0000_0000) as u32,
    ;
    assert(b ^ (b >> 16u32) == a) by (bit_vector)
        requires
            b == a ^ (a >> 16u32),
    ;
    assert(mul32(a, 244002641u32) == i) by (bit_vector)
        requires
            a == (((i as u64) * (2654435761u32 as u64)) % 0x1_0000_0000) as u32,
    ;
}

/// Distinct indices have distinct 32-bit mixes.
pub proof fn lemma_mix32_injective(i: u32, j: u32)
    ensures
        i != j ==> mix32(i) != mix32(j),
{
    lemma_mix32_invertible(i);
    lemma_mix32_invertible(j);
}

/// Reference values of the hash for the first particle indices; neighbouring indices get
/// unrelated values.
pub proof fn lemma_hash24_reference_values()
    ensures
        hash24_spec(0) == 0,
        hash24_spec(1) == 11021880,
        hash24_spec(2) == 14885305,
        hash24_spec(3) == 10343418,
        hash24_spec(4) == 11954726,
        hash24_spec(5) == 5062593,
        hash24_spec(6) == 12065725,
        hash24_spec(7) == 13470432,
{
    assert(hash24_spec(0) == 0) by (bit_vector);
    assert(hash24_spec(1) == 11021880) by (bit_vector);
    assert(hash24_spec(2) == 14885305) by (bit_vector);
    assert(hash24_spec(3) == 10343418) by (bit_vector);
    assert(hash24_spec(4) == 11954726) by (bit_vector);
    assert(hash24_spec(5) == 5062593) by (bit_vector);
    assert(hash24_spec(6) == 12065725) by (bit_vector);
    assert(hash24_spec(7) == 13470432) by (bit_vector);
}

} // verus!
