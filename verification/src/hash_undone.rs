//! The 64-bit xxHash, taken back step by step: from the hash of an input and the input
//! itself to the values with which hashing starts. As every step can be taken back, this
//! tells what the hash of every input is.

use vstd::prelude::*;
use crate::bytes;
use crate::hash;
use crate::hash::rotated;

verus! {

/// The state before the last step.
#[verifier::opaque]
pub open spec fn avalanche_undone(hash: u64) -> u64 {
    let third = (hash ^ (hash >> 32)).wrapping_mul(0xE9E9_F4C4_1D6D_F849);
    let second = (third ^ (third >> 29) ^ (third >> 58)).wrapping_mul(0x0BA7_9078_168D_4BAF);
    second ^ (second >> 33)
}

/// The state before a single byte was taken.
#[verifier::opaque]
pub open spec fn byte_undone(state: u64, byte: u64) -> u64 {
    rotated(state.wrapping_mul(0x0887_4934_32BA_DB37), 53) ^ byte.wrapping_mul(
        0x27D4_EB2F_1656_67C5,
    )
}

/// The state before a lane of four bytes was taken.
#[verifier::opaque]
pub open spec fn half_lane_undone(state: u64, lane: u64) -> u64 {
    rotated(
        state.wrapping_sub(0x1656_67B1_9E37_79F9).wrapping_mul(0x0BA7_9078_168D_4BAF),
        41,
    ) ^ lane.wrapping_mul(0x9E37_79B1_85EB_CA87)
}

/// What a lane of eight bytes, or an accumulator, adds to the state.
#[verifier::opaque]
pub open spec fn spread(lane: u64) -> u64 {
    rotated(lane.wrapping_mul(0xC2B2_AE3D_27D4_EB4F), 31).wrapping_mul(0x9E37_79B1_85EB_CA87)
}

/// The state before a lane of eight bytes was taken.
#[verifier::opaque]
pub open spec fn lane_undone(state: u64, lane: u64) -> u64 {
    rotated(
        state.wrapping_sub(0x85EB_CA77_C2B2_AE63).wrapping_mul(0x0887_4934_32BA_DB37),
        37,
    ) ^ spread(lane)
}

/// The state before an accumulator was merged into it.
#[verifier::opaque]
pub open spec fn merge_undone(state: u64, accumulator: u64) -> u64 {
    state.wrapping_sub(0x85EB_CA77_C2B2_AE63).wrapping_mul(0x0887_4934_32BA_DB37) ^ spread(
        accumulator,
    )
}

/// The accumulator before a lane of eight bytes was taken.
#[verifier::opaque]
pub open spec fn accumulator_undone(accumulator: u64, lane: u64) -> u64 {
    rotated(accumulator.wrapping_mul(0x0887_4934_32BA_DB37), 33).wrapping_sub(
        lane.wrapping_mul(0xC2B2_AE3D_27D4_EB4F),
    )
}

/// The state behind the stripes, got from the one behind the first `at` bytes: the
/// single bytes at the end of the input are taken back, then four together, if there
/// are as many, and then eight at a time.
pub open spec fn tail_undone(state: u64, input: Seq<u8>, at: int) -> u64
    decreases at + 8,
{
    let rest = input.len() % 8;
    let whole = input.len() - rest;
    if at <= 0 || at <= input.len() - input.len() % 32 {
        state
    } else if at <= whole {
        tail_undone(lane_undone(state, bytes::field(input, at - 8, 8) as u64), input, at - 8)
    } else if at == whole + 4 && rest >= 4 {
        tail_undone(half_lane_undone(state, bytes::field(input, at - 4, 4) as u64), input, at - 4)
    } else {
        tail_undone(byte_undone(state, input[at - 1] as u64), input, at - 1)
    }
}

/// What an accumulator was before the first `stripes` stripes of 32 bytes, of each of
/// which it takes the lane at `index`.
pub open spec fn stripes_undone(accumulator: u64, input: Seq<u8>, index: int, stripes: nat) -> u64
    decreases stripes,
{
    if stripes == 0 {
        accumulator
    } else {
        stripes_undone(
            accumulator_undone(
                accumulator,
                bytes::field(input, 32 * (stripes - 1) + 8 * index, 8) as u64,
            ),
            input,
            index,
            (stripes - 1) as nat,
        )
    }
}

/// A product can be taken back by the factor's inverse.
proof fn lemma_factor_undone(value: u64, factor: u64, inverse: u64, carry: nat)
    requires
        factor as nat * inverse as nat == carry * 0x1_0000_0000_0000_0000 + 1,
    ensures
        value.wrapping_mul(factor).wrapping_mul(inverse) == value,
{
    hash::lemma_product_undone(value as nat, factor as nat, inverse as nat, carry);
}

proof fn lemma_first_prime_undone(value: u64)
    ensures
        value.wrapping_mul(0x9E37_79B1_85EB_CA87).wrapping_mul(0x0887_4934_32BA_DB37) == value,
{
    lemma_factor_undone(value, 0x9E37_79B1_85EB_CA87, 0x0887_4934_32BA_DB37, 0x0545_584C_CD1F_A67A);
}

proof fn lemma_second_prime_undone(value: u64)
    ensures
        value.wrapping_mul(0xC2B2_AE3D_27D4_EB4F).wrapping_mul(0x0BA7_9078_168D_4BAF) == value,
{
    lemma_factor_undone(value, 0xC2B2_AE3D_27D4_EB4F, 0x0BA7_9078_168D_4BAF, 0x08DD_1DEC_2186_0607);
}

proof fn lemma_third_prime_undone(value: u64)
    ensures
        value.wrapping_mul(0x1656_67B1_9E37_79F9).wrapping_mul(0xE9E9_F4C4_1D6D_F849) == value,
{
    lemma_factor_undone(value, 0x1656_67B1_9E37_79F9, 0xE9E9_F4C4_1D6D_F849, 0x1469_0E60_8137_8F7F);
}

/// Rotations and mixtures of bits can be taken back.
proof fn lemma_bits_undone(value: u64, other: u64)
    by (bit_vector)
    ensures
        rotated(rotated(value, 11), 53) == value,
        rotated(rotated(value, 23), 41) == value,
        rotated(rotated(value, 27), 37) == value,
        rotated(rotated(value, 31), 33) == value,
        (value ^ other) ^ other == value,
        (value ^ (value >> 33)) ^ ((value ^ (value >> 33)) >> 33) == value,
        (value ^ (value >> 32)) ^ ((value ^ (value >> 32)) >> 32) == value,
        (value ^ (value >> 29)) ^ ((value ^ (value >> 29)) >> 29) ^ ((value ^ (value >> 29)) >> 58)
            == value,
{
}

/// A sum can be taken back.
proof fn lemma_sum_undone(value: u64, addend: u64)
    ensures
        value.wrapping_add(addend).wrapping_sub(addend) == value,
{
}

#[verifier::spinoff_prover]
#[verifier::rlimit(40)]
proof fn lemma_avalanche_undone(state: u64)
    ensures
        avalanche_undone(hash::avalanche(state)) == state,
{
    reveal(avalanche_undone);
    let mixed = state ^ (state >> 33);
    let first = mixed.wrapping_mul(0xC2B2_AE3D_27D4_EB4F);
    let folded = first ^ (first >> 29);
    let second = folded.wrapping_mul(0x1656_67B1_9E37_79F9);
    lemma_bits_undone(state, 0);
    lemma_second_prime_undone(mixed);
    lemma_bits_undone(first, 0);
    lemma_third_prime_undone(folded);
    lemma_bits_undone(second, 0);
}

proof fn lemma_spread(lane: u64)
    ensures
        hash::accumulated(0, lane) == spread(lane),
{
    reveal(spread);
    let product = lane.wrapping_mul(0xC2B2_AE3D_27D4_EB4F);
    assert(0u64.wrapping_add(product) == product);
}

proof fn lemma_lane_undone(state: u64, lane: u64)
    ensures
        lane_undone(
            rotated(state ^ hash::accumulated(0, lane), 27).wrapping_mul(
                hash::XXH64_PRIME_1,
            ).wrapping_add(hash::XXH64_PRIME_4),
            lane,
        ) == state,
{
    reveal(lane_undone);
    lemma_spread(lane);
    let mixed = state ^ spread(lane);
    let turned = rotated(mixed, 27);
    lemma_bits_undone(mixed, 0);
    lemma_first_prime_undone(turned);
    lemma_sum_undone(turned.wrapping_mul(0x9E37_79B1_85EB_CA87), 0x85EB_CA77_C2B2_AE63);
    lemma_bits_undone(state, spread(lane));
}

proof fn lemma_half_lane_undone(state: u64, lane: u64)
    ensures
        half_lane_undone(
            rotated(state ^ lane.wrapping_mul(hash::XXH64_PRIME_1), 23).wrapping_mul(
                hash::XXH64_PRIME_2,
            ).wrapping_add(hash::XXH64_PRIME_3),
            lane,
        ) == state,
{
    reveal(half_lane_undone);
    let product = lane.wrapping_mul(0x9E37_79B1_85EB_CA87);
    let mixed = state ^ product;
    let turned = rotated(mixed, 23);
    lemma_bits_undone(mixed, 0);
    lemma_second_prime_undone(turned);
    lemma_sum_undone(turned.wrapping_mul(0xC2B2_AE3D_27D4_EB4F), 0x1656_67B1_9E37_79F9);
    lemma_bits_undone(state, product);
}

proof fn lemma_byte_undone(state: u64, byte: u64)
    ensures
        byte_undone(
            rotated(state ^ byte.wrapping_mul(hash::XXH64_PRIME_5), 11).wrapping_mul(
                hash::XXH64_PRIME_1,
            ),
            byte,
        ) == state,
{
    reveal(byte_undone);
    let product = byte.wrapping_mul(0x27D4_EB2F_1656_67C5);
    let mixed = state ^ product;
    let turned = rotated(mixed, 11);
    lemma_bits_undone(mixed, 0);
    lemma_first_prime_undone(turned);
    lemma_bits_undone(state, product);
}

proof fn lemma_merge_undone(state: u64, accumulator: u64)
    ensures
        merge_undone(hash::merged(state, accumulator), accumulator) == state,
{
    reveal(merge_undone);
    lemma_spread(accumulator);
    let mixed = state ^ spread(accumulator);
    lemma_first_prime_undone(mixed);
    lemma_sum_undone(mixed.wrapping_mul(0x9E37_79B1_85EB_CA87), 0x85EB_CA77_C2B2_AE63);
    lemma_bits_undone(state, spread(accumulator));
}

proof fn lemma_accumulator_undone(accumulator: u64, lane: u64)
    ensures
        accumulator_undone(hash::accumulated(accumulator, lane), lane) == accumulator,
{
    reveal(accumulator_undone);
    let product = lane.wrapping_mul(0xC2B2_AE3D_27D4_EB4F);
    let sum = accumulator.wrapping_add(product);
    let turned = rotated(sum, 31);
    lemma_bits_undone(sum, 0);
    lemma_first_prime_undone(turned);
    lemma_sum_undone(accumulator, product);
}

/// Taking back the stripes leads to the value with which an accumulator starts.
proof fn lemma_stripes_undone(input: Seq<u8>, index: int, stripes: nat)
    requires
        0 <= index < 4,
        32 * stripes <= input.len(),
    ensures
        stripes_undone(
            hash::accumulator_after(input, index, stripes),
            input,
            index,
            stripes,
        ) == hash::initial_accumulator(index),
    decreases stripes,
{
    if stripes > 0 {
        let last = (stripes - 1) as nat;
        lemma_stripes_undone(input, index, last);
        lemma_accumulator_undone(
            hash::accumulator_after(input, index, last),
            hash::lane_at(input, 32 * last + 8 * index),
        );
    }
}

/// A position in front of a lane.
spec fn is_boundary(length: int, at: int) -> bool {
    let rest = length % 8;
    let whole = length - rest;
    &&& length - length % 32 <= at <= length
    &&& at <= whole ==> at % 8 == 0
    &&& at > whole && rest >= 4 ==> at >= whole + 4
}

/// The state behind the input, which is taken back to the one at a position in front.
#[verifier::spinoff_prover]
#[verifier::rlimit(40)]
proof fn lemma_tail_undone(state: u64, input: Seq<u8>, at: int) -> (end: u64)
    requires
        is_boundary(input.len() as int, at),
    ensures
        hash::hash_from(state, input, at) == hash::avalanche(end),
        tail_undone(end, input, input.len() as int) == tail_undone(state, input, at),
    decreases input.len() - at,
{
    let length = input.len() as int;
    if at + 8 <= length {
        let lane = hash::lane_at(input, at);
        let next = rotated(state ^ hash::accumulated(0, lane), 27).wrapping_mul(
            hash::XXH64_PRIME_1,
        ).wrapping_add(hash::XXH64_PRIME_4);
        lemma_lane_undone(state, lane);
        let end = lemma_tail_undone(next, input, at + 8);
        assert(tail_undone(next, input, at + 8) == tail_undone(
            lane_undone(next, lane),
            input,
            at,
        ));
        end
    } else if at + 4 <= length {
        let lane = bytes::field(input, at, 4) as u64;
        let next = rotated(state ^ lane.wrapping_mul(hash::XXH64_PRIME_1), 23).wrapping_mul(
            hash::XXH64_PRIME_2,
        ).wrapping_add(hash::XXH64_PRIME_3);
        lemma_half_lane_undone(state, lane);
        let end = lemma_tail_undone(next, input, at + 4);
        assert(tail_undone(next, input, at + 4) == tail_undone(
            half_lane_undone(next, lane),
            input,
            at,
        ));
        end
    } else if at < length {
        let lane = input[at] as u64;
        let next = rotated(state ^ lane.wrapping_mul(hash::XXH64_PRIME_5), 11).wrapping_mul(
            hash::XXH64_PRIME_1,
        );
        lemma_byte_undone(state, lane);
        let end = lemma_tail_undone(next, input, at + 1);
        assert(tail_undone(next, input, at + 1) == tail_undone(byte_undone(next, lane), input, at));
        end
    } else {
        state
    }
}

/// The hash of an input of less than 32 bytes, taken back over the input, leads to a
/// constant and the length.
#[verifier::spinoff_prover]
#[verifier::rlimit(40)]
pub proof fn law_short_hash_can_be_taken_back(input: Seq<u8>)
    requires
        input.len() < 32,
    ensures
        tail_undone(avalanche_undone(hash::xxhash64(input)), input, input.len() as int)
            == 0x27D4_EB2F_1656_67C5 + input.len(),
{
    reveal(hash::xxhash64);
    let start = hash::state_after_stripes(input).wrapping_add(input.len() as u64);
    let end = lemma_tail_undone(start, input, 0);
    lemma_avalanche_undone(end);
}

/// The values with which the accumulators start.
proof fn lemma_initial_accumulators()
    ensures
        hash::initial_accumulator(0) == 0x60EA_27EE_ADC0_B5D6,
        hash::initial_accumulator(1) == 0xC2B2_AE3D_27D4_EB4F,
        hash::initial_accumulator(2) == 0,
        hash::initial_accumulator(3) == 0x61C8_864E_7A14_3579,
{
}

/// The sum of the rotated accumulators.
#[verifier::opaque]
spec fn rotated_sum(a: u64, b: u64, c: u64, d: u64) -> u64 {
    rotated(a, 1).wrapping_add(rotated(b, 7)).wrapping_add(rotated(c, 12)).wrapping_add(
        rotated(d, 18),
    )
}

/// The state once the accumulators were merged.
#[verifier::opaque]
spec fn all_merged(a: u64, b: u64, c: u64, d: u64) -> u64 {
    hash::merged(
        hash::merged(hash::merged(hash::merged(rotated_sum(a, b, c, d), a), b), c),
        d,
    )
}

/// The merged accumulators are taken back.
#[verifier::spinoff_prover]
#[verifier::rlimit(40)]
proof fn lemma_all_merged_undone(a: u64, b: u64, c: u64, d: u64)
    ensures
        merge_undone(
            merge_undone(merge_undone(merge_undone(all_merged(a, b, c, d), d), c), b),
            a,
        ) == rotated_sum(a, b, c, d),
{
    reveal(all_merged);
    let sum = rotated_sum(a, b, c, d);
    let first = hash::merged(sum, a);
    let second = hash::merged(first, b);
    let third = hash::merged(second, c);
    lemma_merge_undone(sum, a);
    lemma_merge_undone(first, b);
    lemma_merge_undone(second, c);
    lemma_merge_undone(third, d);
}

/// The state behind the stripes of an input of 32 bytes or more.
proof fn lemma_state_after_stripes(input: Seq<u8>)
    requires
        input.len() >= 32,
    ensures
        hash::state_after_stripes(input) == all_merged(
            hash::accumulator_after(input, 0, input.len() / 32),
            hash::accumulator_after(input, 1, input.len() / 32),
            hash::accumulator_after(input, 2, input.len() / 32),
            hash::accumulator_after(input, 3, input.len() / 32),
        ),
{
    reveal(all_merged);
    reveal(rotated_sum);
}

/// What follows the stripes is taken back.
#[verifier::spinoff_prover]
#[verifier::rlimit(40)]
proof fn lemma_behind_stripes_undone(state: u64, input: Seq<u8>)
    ensures
        tail_undone(
            avalanche_undone(hash::hash_from(state, input, 32 * (input.len() / 32) as int)),
            input,
            input.len() as int,
        ) == state,
{
    let at = 32 * (input.len() / 32) as int;
    let end = lemma_tail_undone(state, input, at);
    lemma_avalanche_undone(end);
    assert(tail_undone(state, input, at) == state);
}

/// The state behind the stripes and the length.
#[verifier::opaque]
spec fn start_of_tail(input: Seq<u8>) -> u64 {
    hash::state_after_stripes(input).wrapping_add(input.len() as u64)
}

proof fn lemma_start_of_tail(input: Seq<u8>)
    ensures
        hash::xxhash64(input) == hash::hash_from(
            start_of_tail(input),
            input,
            32 * (input.len() / 32) as int,
        ),
{
    reveal(hash::xxhash64);
    reveal(start_of_tail);
}

/// The hash leads back to the state behind the stripes.
#[verifier::spinoff_prover]
#[verifier::rlimit(40)]
proof fn lemma_hash_undone(input: Seq<u8>)
    ensures
        tail_undone(
            avalanche_undone(hash::xxhash64(input)),
            input,
            input.len() as int,
        ) == hash::state_after_stripes(input).wrapping_add(input.len() as u64),
{
    lemma_start_of_tail(input);
    lemma_behind_stripes_undone(start_of_tail(input), input);
    assert(start_of_tail(input) == hash::state_after_stripes(input).wrapping_add(
        input.len() as u64,
    )) by {
        reveal(start_of_tail);
    }
}

/// The hash of an input of 32 bytes or more, taken back over what lies behind the whole
/// stripes, leads to the length and a mixture of four accumulators. This, taken back by
/// the accumulators in turn, leads to their rotated sum; and every one of them, taken
/// back over its lanes of the stripes, leads to a constant.
#[verifier::spinoff_prover]
#[verifier::rlimit(40)]
pub proof fn law_long_hash_can_be_taken_back(input: Seq<u8>) -> (accumulators: (u64, u64, u64, u64))
    requires
        32 <= input.len() <= u64::MAX,
    ensures
        ({
            let (a, b, c, d) = accumulators;
            let stripes = input.len() / 32;
            let behind = tail_undone(
                avalanche_undone(hash::xxhash64(input)),
                input,
                input.len() as int,
            ).wrapping_sub(input.len() as u64);
            &&& merge_undone(merge_undone(merge_undone(merge_undone(behind, d), c), b), a)
                == rotated(a, 1).wrapping_add(rotated(b, 7)).wrapping_add(
                rotated(c, 12),
            ).wrapping_add(rotated(d, 18))
            &&& stripes_undone(a, input, 0, stripes) == 0x60EA_27EE_ADC0_B5D6
            &&& stripes_undone(b, input, 1, stripes) == 0xC2B2_AE3D_27D4_EB4F
            &&& stripes_undone(c, input, 2, stripes) == 0
            &&& stripes_undone(d, input, 3, stripes) == 0x61C8_864E_7A14_3579
        }),
{
    let stripes = input.len() / 32;
    let a = hash::accumulator_after(input, 0, stripes);
    let b = hash::accumulator_after(input, 1, stripes);
    let c = hash::accumulator_after(input, 2, stripes);
    let d = hash::accumulator_after(input, 3, stripes);
    lemma_initial_accumulators();
    lemma_stripes_undone(input, 0, stripes);
    lemma_stripes_undone(input, 1, stripes);
    lemma_stripes_undone(input, 2, stripes);
    lemma_stripes_undone(input, 3, stripes);
    lemma_state_after_stripes(input);
    lemma_all_merged_undone(a, b, c, d);
    lemma_hash_undone(input);
    lemma_sum_undone(hash::state_after_stripes(input), input.len() as u64);
    reveal(rotated_sum);
    (a, b, c, d)
}

} // verus!
