//! The SplitMix64 mixing function that drives the seeded random policy.
use vstd::prelude::*;

verus! {

/// SplitMix64's finalizer applied to `value` advanced by the golden-ratio increment; all
/// additions and multiplications wrap modulo 2^64.
pub open spec fn spec_splitmix64(value: u64) -> u64 {
    let v = vstd::wrapping::u64_specs::wrapping_add(value, 0x9e37_79b9_7f4a_7c15u64);
    let z1 = vstd::wrapping::u64_specs::wrapping_mul(v ^ (v >> 30u64), 0xbf58_476d_1ce4_e5b9u64);
    let z2 = vstd::wrapping::u64_specs::wrapping_mul(z1 ^ (z1 >> 27u64), 0x94d0_49bb_1331_11ebu64);
    z2 ^ (z2 >> 31u64)
}

pub fn splitmix64(value: u64) -> (r: u64)
    ensures
        r == spec_splitmix64(value),
{
    let v = value.wrapping_add(0x9e37_79b9_7f4a_7c15);
    let mut z = v;
    z = (z ^ (z >> 30)).wrapping_mul(0xbf58_476d_1ce4_e5b9);
    z = (z ^ (z >> 27)).wrapping_mul(0x94d0_49bb_1331_11eb);
    z ^ (z >> 31)
}

/// The position that the random policy picks among `len` eligible hashes.
pub open spec fn mixed_index(seed: u64, block_number: u64, counter: u64, len: nat) -> int {
    ((spec_splitmix64(seed ^ block_number ^ counter) as usize) as int) % (len as int)
}

pub fn mixed_position(seed: u64, block_number: u64, counter: u64, len: usize) -> (r: usize)
    requires
        len > 0,
    ensures
        r == mixed_index(seed, block_number, counter, len as nat),
        r < len,
{
    let mixed = splitmix64(seed ^ block_number ^ counter);
    (mixed as usize) % len
}

/// 2^64, the modulus of 64-bit arithmetic.
pub open spec fn two_pow_64() -> int {
    0x1_0000_0000_0000_0000int
}

/// SplitMix64 as published, in plain integer arithmetic: add the golden-ratio increment,
/// then xor-shift right by 30, multiply, xor-shift right by 27, multiply, xor-shift right by
/// 31, every sum and product taken modulo 2^64.
pub open spec fn splitmix64_reference(x: u64) -> u64 {
    let v = ((x + 0x9e37_79b9_7f4a_7c15int) % two_pow_64()) as u64;
    let z1 = (((v ^ (v >> 30u64)) * 0xbf58_476d_1ce4_e5b9int) % two_pow_64()) as u64;
    let z2 = (((z1 ^ (z1 >> 27u64)) * 0x94d0_49bb_1331_11ebint) % two_pow_64()) as u64;
    z2 ^ (z2 >> 31u64)
}

/// The mixing function is SplitMix64.
pub proof fn lemma_splitmix64_is_reference(x: u64)
    ensures
        spec_splitmix64(x) == splitmix64_reference(x),
{
    let g = 0x9e37_79b9_7f4a_7c15int;
    if x + g > u64::MAX {
        assert((x + g) % two_pow_64() == x + g - two_pow_64());
    } else {
        assert((x + g) % two_pow_64() == x + g);
    }
}

/// The random policy's position among `len` hashes is SplitMix64 of the seed, the block
/// number and the proposal's selection counter combined by xor, modulo `len`: the three
/// inputs enter only through their xor, so the selection counter moves the pick exactly as
/// the seed does, and each selection within a block draws from a fresh mix.
#[verifier::spinoff_prover]
pub proof fn lemma_random_position(seed: u64, block_number: u64, counter: u64, len: nat)
    requires
        len > 0,
    ensures
        mixed_index(seed, block_number, counter, len)
            == ((splitmix64_reference(seed ^ block_number ^ counter) as usize) as int) % (len as int),
        mixed_index(seed, block_number, counter, len) == mixed_index(seed ^ counter, block_number, 0, len),
        mixed_index(seed, block_number, counter, len) == mixed_index(seed ^ block_number ^ counter, 0, 0, len),
        0 <= mixed_index(seed, block_number, counter, len) < len,
{
    lemma_splitmix64_is_reference(seed ^ block_number ^ counter);
    assert(seed ^ block_number ^ counter == (seed ^ counter) ^ block_number ^ 0u64) by (bit_vector);
    assert(seed ^ block_number ^ counter == (seed ^ block_number ^ counter) ^ 0u64 ^ 0u64) by (bit_vector);
}

/// SplitMix64 of 43 and of 42, step by step.
#[verifier::spinoff_prover]
proof fn lemma_splitmix64_of_42_and_43()
    ensures
        spec_splitmix64(43) == 0xba69_ec90_eb4f_ef88u64,
        spec_splitmix64(42) == 0xbdd7_3226_2feb_6e95u64,
{
    lemma_splitmix64_is_reference(43);
    lemma_splitmix64_is_reference(42);
    let m = two_pow_64();
    assert(((43 + 0x9e37_79b9_7f4a_7c15int) % m) as u64 == 0x9e37_79b9_7f4a_7c40u64);
    assert(0x9e37_79b9_7f4a_7c40u64 ^ (0x9e37_79b9_7f4a_7c40u64 >> 30u64) == 0x9e37_79bb_0797_9aa5u64) by (bit_vector);
    assert(((0x9e37_79bb_0797_9aa5u64 * 0xbf58_476d_1ce4_e5b9int) % m) as u64 == 0x608b_3923_e0d8_5a3du64);
    assert(0x608b_3923_e0d8_5a3du64 ^ (0x608b_3923_e0d8_5a3du64 >> 27u64) == 0x608b_392f_f1bf_7e41u64) by (bit_vector);
    assert(((0x608b_392f_f1bf_7e41u64 * 0x94d0_49bb_1331_11ebint) % m) as u64 == 0xba69_ec91_9f9c_36abu64);
    assert(0xba69_ec91_9f9c_36abu64 ^ (0xba69_ec91_9f9c_36abu64 >> 31u64) == 0xba69_ec90_eb4f_ef88u64) by (bit_vector);
    assert(((42 + 0x9e37_79b9_7f4a_7c15int) % m) as u64 == 0x9e37_79b9_7f4a_7c3fu64);
    assert(0x9e37_79b9_7f4a_7c3fu64 ^ (0x9e37_79b9_7f4a_7c3fu64 >> 30u64) == 0x9e37_79bb_0797_9adau64) by (bit_vector);
    assert(((0x9e37_79bb_0797_9adau64 * 0xbf58_476d_1ce4_e5b9int) % m) as u64 == 0xfdd2_02ba_dc3b_e98au64);
    assert(0xfdd2_02ba_dc3b_e98au64 ^ (0xfdd2_02ba_dc3b_e98au64 >> 27u64) == 0xfdd2_02a5_667b_bed1u64) by (bit_vector);
    assert(((0xfdd2_02a5_667b_bed1u64 * 0x94d0_49bb_1331_11ebint) % m) as u64 == 0xbdd7_3227_5445_0adbu64);
    assert(0xbdd7_3227_5445_0adbu64 ^ (0xbdd7_3227_5445_0adbu64 >> 31u64) == 0xbdd7_3226_2feb_6e95u64) by (bit_vector);
}

/// With seed 42 in block 1, two eligible hashes are picked in turn as the selection counter
/// advances: position 0 at counter 0, position 1 at counter 1.
#[verifier::spinoff_prover]
pub proof fn lemma_counter_advances_the_pick()
    ensures
        mixed_index(42, 1, 0, 2) == 0,
        mixed_index(42, 1, 1, 2) == 1,
{
    assert(42u64 ^ 1u64 ^ 0u64 == 43u64) by (bit_vector);
    assert(42u64 ^ 1u64 ^ 1u64 == 42u64) by (bit_vector);
    lemma_splitmix64_of_42_and_43();
    assert((0xba69_ec90_eb4f_ef88u64 as usize) % 2 == 0) by (bit_vector);
    assert((0xbdd7_3226_2feb_6e95u64 as usize) % 2 == 1) by (bit_vector);
}

} // verus!
