use vstd::prelude::*;
use vstd::wrapping::u32_specs::{wrapping_add, wrapping_mul};

verus! {

/// The state transition of the generator: a multiply and an add, both modulo 2^32.
pub open spec fn pcg_state(input: u32) -> u32 {
    wrapping_add(wrapping_mul(input, 747796405u32), 2891336453u32)
}

/// The output permutation applied to a state: a shift chosen by the top four bits.
pub open spec fn pcg_word(state: u32) -> u32 {
    wrapping_mul((state >> ((state >> 28u32) + 4u32) as u32) ^ state, 277803737u32)
}

/// The PCG hash of `input`.
pub open spec fn pcg_hash(input: u32) -> u32 {
    (pcg_word(pcg_state(input)) >> 22u32) ^ pcg_word(pcg_state(input))
}

/// Hashes a 32-bit value with the PCG output permutation.
pub fn hash(input: u32) -> (r: u32)
    ensures
        r == pcg_hash(input),
{
    let state: u32 = input.wrapping_mul(747796405u32).wrapping_add(2891336453u32);
    let top: u32 = state >> 28u32;
    assert(top < 16) by (bit_vector)
        requires
            top == state >> 28u32,
    ;
    let shift: u32 = top + 4u32;
    let word: u32 = ((state >> shift) ^ state).wrapping_mul(277803737u32);
    (word >> 22u32) ^ word
}

/// Distinct inputs hash to distinct outputs: each step of the hash is invertible.
pub proof fn lemma_hash_injective(a: u32, b: u32)
    ensures
        pcg_hash(a) == pcg_hash(b) ==> a == b,
{
    let (sa, sb) = (pcg_state(a), pcg_state(b));
    let (wa, wb) = (pcg_word(sa), pcg_word(sb));
    assert((wa >> 22u32) ^ wa == (wb >> 22u32) ^ wb ==> wa == wb) by (bit_vector);
    let (xa, xb) = ((sa >> ((sa >> 28u32) + 4u32) as u32) ^ sa, (sb >> ((sb >> 28u32) + 4u32) as u32) ^ sb);
    assert(wa == wrapping_mul(xa, 277803737u32) && wb == wrapping_mul(xb, 277803737u32));
    assert((xa * 277803737u32) as u32 == (xb * 277803737u32) as u32 ==> xa == xb) by (bit_vector);
    assert(wrapping_mul(xa, 277803737u32) == (xa * 277803737u32) as u32) by (bit_vector);
    assert(wrapping_mul(xb, 277803737u32) == (xb * 277803737u32) as u32) by (bit_vector);
    assert(((sa >> ((sa >> 28u32) + 4u32) as u32) ^ sa) == ((sb >> ((sb >> 28u32) + 4u32) as u32) ^ sb) ==> sa == sb)
        by (bit_vector);
    assert(wrapping_add(wrapping_mul(a, 747796405u32), 2891336453u32) == ((a * 747796405u32) as u32 + 2891336453u32) as u32) by (bit_vector);
    assert(wrapping_add(wrapping_mul(b, 747796405u32), 2891336453u32) == ((b * 747796405u32) as u32 + 2891336453u32) as u32) by (bit_vector);
    assert(((a * 747796405u32) as u32 + 2891336453u32) as u32 == ((b * 747796405u32) as u32 + 2891336453u32) as u32 ==> a == b)
        by (bit_vector);
}

/// Advances `seed` to its hash and returns the new value.
pub fn random_u32(seed: &mut u32) -> (r: u32)
    ensures
        r == pcg_hash(*old(seed)),
        *final(seed) == r,
{
    *seed = hash(*seed);
    *seed
}

} // verus!
