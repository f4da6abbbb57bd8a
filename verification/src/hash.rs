//! The 64-bit xxHash with seed zero, which places names in a directory.

use vstd::prelude::*;
use crate::bytes;

verus! {

pub const XXH64_PRIME_1: u64 = 0x9E37_79B1_85EB_CA87;

pub const XXH64_PRIME_2: u64 = 0xC2B2_AE3D_27D4_EB4F;

pub const XXH64_PRIME_3: u64 = 0x1656_67B1_9E37_79F9;

pub const XXH64_PRIME_4: u64 = 0x85EB_CA77_C2B2_AE63;

pub const XXH64_PRIME_5: u64 = 0x27D4_EB2F_1656_67C5;

/// `value` with its bits rotated to the left.
pub open spec fn rotated(value: u64, amount: u32) -> u64 {
    (value << amount) | (value >> (64 - amount) as u32)
}

/// An accumulator after another lane of eight bytes.
pub open spec fn accumulated(accumulator: u64, lane: u64) -> u64 {
    rotated(accumulator.wrapping_add(lane.wrapping_mul(XXH64_PRIME_2)), 31).wrapping_mul(
        XXH64_PRIME_1,
    )
}

/// The state after an accumulator was merged into it.
pub open spec fn merged(state: u64, accumulator: u64) -> u64 {
    (state ^ accumulated(0, accumulator)).wrapping_mul(XXH64_PRIME_1).wrapping_add(XXH64_PRIME_4)
}

/// The eight bytes at `offset`, as a number.
pub open spec fn lane_at(input: Seq<u8>, offset: int) -> u64 {
    bytes::field(input, offset, 8) as u64
}

/// The value with which one of the four accumulators starts.
pub open spec fn initial_accumulator(index: int) -> u64 {
    if index == 0 {
        XXH64_PRIME_1.wrapping_add(XXH64_PRIME_2)
    } else if index == 1 {
        XXH64_PRIME_2
    } else if index == 2 {
        0
    } else {
        0u64.wrapping_sub(XXH64_PRIME_1)
    }
}

/// One of the four accumulators after `stripes` stripes of 32 bytes.
pub open spec fn accumulator_after(input: Seq<u8>, index: int, stripes: nat) -> u64
    decreases stripes,
{
    if stripes == 0 {
        initial_accumulator(index)
    } else {
        accumulated(
            accumulator_after(input, index, (stripes - 1) as nat),
            lane_at(input, 32 * (stripes - 1) + 8 * index),
        )
    }
}

/// The state after all whole stripes.
pub open spec fn state_after_stripes(input: Seq<u8>) -> u64 {
    if input.len() < 32 {
        XXH64_PRIME_5
    } else {
        let stripes = input.len() / 32;
        let a = accumulator_after(input, 0, stripes);
        let b = accumulator_after(input, 1, stripes);
        let c = accumulator_after(input, 2, stripes);
        let d = accumulator_after(input, 3, stripes);
        let start = rotated(a, 1).wrapping_add(rotated(b, 7)).wrapping_add(
            rotated(c, 12),
        ).wrapping_add(rotated(d, 18));
        merged(merged(merged(merged(start, a), b), c), d)
    }
}

/// The last step, in which every bit comes to influence every other.
pub open spec fn avalanche(state: u64) -> u64 {
    let first = (state ^ (state >> 33)).wrapping_mul(XXH64_PRIME_2);
    let second = (first ^ (first >> 29)).wrapping_mul(XXH64_PRIME_3);
    second ^ (second >> 32)
}

/// The hash, where the state covers the input up to `at`: eight bytes at a time,
/// then four, then single ones.
pub open spec fn hash_from(state: u64, input: Seq<u8>, at: int) -> u64
    decreases input.len() - at,
{
    if at + 8 <= input.len() {
        hash_from(
            rotated(state ^ accumulated(0, lane_at(input, at)), 27).wrapping_mul(
                XXH64_PRIME_1,
            ).wrapping_add(XXH64_PRIME_4),
            input,
            at + 8,
        )
    } else if at + 4 <= input.len() {
        hash_from(
            rotated(
                state ^ (bytes::field(input, at, 4) as u64).wrapping_mul(XXH64_PRIME_1),
                23,
            ).wrapping_mul(XXH64_PRIME_2).wrapping_add(XXH64_PRIME_3),
            input,
            at + 4,
        )
    } else if at < input.len() {
        hash_from(
            rotated(state ^ (input[at] as u64).wrapping_mul(XXH64_PRIME_5), 11).wrapping_mul(
                XXH64_PRIME_1,
            ),
            input,
            at + 1,
        )
    } else {
        avalanche(state)
    }
}

/// The hash of `input`.
#[verifier::opaque]
pub open spec fn xxhash64(input: Seq<u8>) -> u64 {
    hash_from(
        state_after_stripes(input).wrapping_add(input.len() as u64),
        input,
        32 * (input.len() / 32) as int,
    )
}

fn rotate_left_64(value: u64, rotation_amount: u32) -> (result: u64)
    requires
        0 < rotation_amount < 64,
    ensures
        result == rotated(value, rotation_amount),
{
    (value << rotation_amount) | (value >> (64 - rotation_amount))
}

fn xxh64_round(accumulator: u64, lane_value: u64) -> (result: u64)
    ensures
        result == accumulated(accumulator, lane_value),
{
    rotate_left_64(accumulator.wrapping_add(lane_value.wrapping_mul(XXH64_PRIME_2)), 31).wrapping_mul(
        XXH64_PRIME_1,
    )
}

fn xxh64_merge_accumulator(hash_state: u64, accumulator: u64) -> (result: u64)
    ensures
        result == merged(hash_state, accumulator),
{
    (hash_state ^ xxh64_round(0, accumulator)).wrapping_mul(XXH64_PRIME_1).wrapping_add(
        XXH64_PRIME_4,
    )
}

/// The 64-bit xxHash of `input_bytes` with seed zero.
pub fn xxhash64_with_seed_zero(input_bytes: &[u8]) -> (hash: u64)
    ensures
        hash == xxhash64(input_bytes@),
{
    let length: usize = input_bytes.len();
    let mut cursor: usize = 0;
    let mut state: u64 = XXH64_PRIME_5;
    let ghost input = input_bytes@;
    proof {
        reveal(xxhash64);
        bytes::lemma_byte_capacities();
    }
    if length >= 32 {
        let mut accumulator_0: u64 = XXH64_PRIME_1.wrapping_add(XXH64_PRIME_2);
        let mut accumulator_1: u64 = XXH64_PRIME_2;
        let mut accumulator_2: u64 = 0;
        let mut accumulator_3: u64 = 0u64.wrapping_sub(XXH64_PRIME_1);
        let mut stripe: usize = 0;
        let stripes: usize = length / 32;
        while stripe < stripes
            invariant
                stripe <= stripes,
                length == input_bytes@.len(),
                input == input_bytes@,
                stripes == length / 32,
                cursor == 32 * stripe,
                accumulator_0 == accumulator_after(input, 0, stripe as nat),
                accumulator_1 == accumulator_after(input, 1, stripe as nat),
                accumulator_2 == accumulator_after(input, 2, stripe as nat),
                accumulator_3 == accumulator_after(input, 3, stripe as nat),
            decreases stripes - stripe,
        {
            proof {
                bytes::lemma_byte_capacities();
            }
            accumulator_0 = xxh64_round(accumulator_0, bytes::read_le(input_bytes, cursor, 8));
            accumulator_1 = xxh64_round(
                accumulator_1,
                bytes::read_le(input_bytes, cursor + 8, 8),
            );
            accumulator_2 = xxh64_round(
                accumulator_2,
                bytes::read_le(input_bytes, cursor + 16, 8),
            );
            accumulator_3 = xxh64_round(
                accumulator_3,
                bytes::read_le(input_bytes, cursor + 24, 8),
            );
            cursor = cursor + 32;
            stripe = stripe + 1;
        }
        state = rotate_left_64(accumulator_0, 1).wrapping_add(
            rotate_left_64(accumulator_1, 7),
        ).wrapping_add(rotate_left_64(accumulator_2, 12)).wrapping_add(
            rotate_left_64(accumulator_3, 18),
        );
        state = xxh64_merge_accumulator(state, accumulator_0);
        state = xxh64_merge_accumulator(state, accumulator_1);
        state = xxh64_merge_accumulator(state, accumulator_2);
        state = xxh64_merge_accumulator(state, accumulator_3);
    }
    state = state.wrapping_add(length as u64);
    assert(xxhash64(input) == hash_from(state, input, cursor as int));
    while length - cursor >= 8
        invariant
            cursor <= length,
            length == input_bytes@.len(),
            input == input_bytes@,
            xxhash64(input) == hash_from(state, input, cursor as int),
        decreases length - cursor,
    {
        proof {
            bytes::lemma_byte_capacities();
        }
        let lane: u64 = bytes::read_le(input_bytes, cursor, 8);
        state = rotate_left_64(state ^ xxh64_round(0, lane), 27).wrapping_mul(
            XXH64_PRIME_1,
        ).wrapping_add(XXH64_PRIME_4);
        cursor = cursor + 8;
    }
    if length - cursor >= 4 {
        let lane: u64 = bytes::read_le(input_bytes, cursor, 4);
        state = rotate_left_64(state ^ lane.wrapping_mul(XXH64_PRIME_1), 23).wrapping_mul(
            XXH64_PRIME_2,
        ).wrapping_add(XXH64_PRIME_3);
        cursor = cursor + 4;
    }
    while cursor < length
        invariant
            cursor <= length,
            length - cursor < 4,
            length == input_bytes@.len(),
            input == input_bytes@,
            xxhash64(input) == hash_from(state, input, cursor as int),
        decreases length - cursor,
    {
        let lane: u64 = input_bytes[cursor] as u64;
        state = rotate_left_64(state ^ lane.wrapping_mul(XXH64_PRIME_5), 11).wrapping_mul(
            XXH64_PRIME_1,
        );
        cursor = cursor + 1;
    }
    state = (state ^ (state >> 33)).wrapping_mul(XXH64_PRIME_2);
    state = (state ^ (state >> 29)).wrapping_mul(XXH64_PRIME_3);
    state ^ (state >> 32)
}

/// Multiplication by a number that has an inverse tells all numbers apart.
proof fn lemma_product_tells_apart(left: u64, right: u64, factor: u64, inverse: u64, carry: nat)
    requires
        factor as nat * inverse as nat == carry * 0x1_0000_0000_0000_0000 + 1,
        left.wrapping_mul(factor) == right.wrapping_mul(factor),
    ensures
        left == right,
{
    lemma_product_undone(left as nat, factor as nat, inverse as nat, carry);
    lemma_product_undone(right as nat, factor as nat, inverse as nat, carry);
}

pub proof fn lemma_product_undone(value: nat, factor: nat, inverse: nat, carry: nat)
    requires
        value < 0x1_0000_0000_0000_0000,
        factor * inverse == carry * 0x1_0000_0000_0000_0000 + 1,
    ensures
        (((value * factor) % 0x1_0000_0000_0000_0000) * inverse) % 0x1_0000_0000_0000_0000
            == value,
{
    let range: int = 0x1_0000_0000_0000_0000;
    vstd::arithmetic::div_mod::lemma_mul_mod_noop_left(
        (value * factor) as int,
        inverse as int,
        range,
    );
    assert((value * factor) * inverse == value * (factor * inverse)) by (nonlinear_arith);
    assert(value * (factor * inverse) == range * (value * carry) + value) by (nonlinear_arith)
        requires
            factor * inverse == carry * 0x1_0000_0000_0000_0000 + 1,
            range == 0x1_0000_0000_0000_0000,
    ;
    vstd::arithmetic::div_mod::lemma_mod_multiples_vanish(
        (value * carry) as int,
        value as int,
        range,
    );
    vstd::arithmetic::div_mod::lemma_small_mod(value, range as nat);
}

/// Multiplication by each of the primes tells all numbers apart.
proof fn lemma_primes_tell_apart(left: u64, right: u64)
    requires
        left != right,
    ensures
        left.wrapping_mul(XXH64_PRIME_1) != right.wrapping_mul(XXH64_PRIME_1),
        left.wrapping_mul(XXH64_PRIME_2) != right.wrapping_mul(XXH64_PRIME_2),
        left.wrapping_mul(XXH64_PRIME_3) != right.wrapping_mul(XXH64_PRIME_3),
        left.wrapping_mul(XXH64_PRIME_5) != right.wrapping_mul(XXH64_PRIME_5),
{
    if left.wrapping_mul(XXH64_PRIME_1) == right.wrapping_mul(XXH64_PRIME_1) {
        lemma_product_tells_apart(left, right, XXH64_PRIME_1, 0x0887_4934_32BA_DB37, 0x0545_584C_CD1F_A67A);
    }
    if left.wrapping_mul(XXH64_PRIME_2) == right.wrapping_mul(XXH64_PRIME_2) {
        lemma_product_tells_apart(left, right, XXH64_PRIME_2, 0x0BA7_9078_168D_4BAF, 0x08DD_1DEC_2186_0607);
    }
    if left.wrapping_mul(XXH64_PRIME_3) == right.wrapping_mul(XXH64_PRIME_3) {
        lemma_product_tells_apart(left, right, XXH64_PRIME_3, 0xE9E9_F4C4_1D6D_F849, 0x1469_0E60_8137_8F7F);
    }
    if left.wrapping_mul(XXH64_PRIME_5) == right.wrapping_mul(XXH64_PRIME_5) {
        lemma_product_tells_apart(left, right, XXH64_PRIME_5, 0xC592_C09F_DFBA_7F0D, 0x1EBD_AE61_ED7C_1B77);
    }
}

/// Rotating the bits and mixing the upper ones into the lower ones tell all numbers
/// apart, and so does an exclusive or with a number.
proof fn lemma_bits_tell_apart(left: u64, right: u64, other: u64)
    by (bit_vector)
    requires
        left != right,
    ensures
        rotated(left, 11) != rotated(right, 11),
        rotated(left, 23) != rotated(right, 23),
        rotated(left, 27) != rotated(right, 27),
        rotated(left, 31) != rotated(right, 31),
        left ^ other != right ^ other,
        other ^ left != other ^ right,
        left ^ (left >> 29) != right ^ (right >> 29),
        left ^ (left >> 32) != right ^ (right >> 32),
        left ^ (left >> 33) != right ^ (right >> 33),
{
}

/// An accumulator tells the lanes apart that it takes, and what it was before.
#[verifier::spinoff_prover]
#[verifier::rlimit(40)]
proof fn lemma_accumulated_tells_apart(left: u64, right: u64, lane: u64, other_lane: u64)
    ensures
        left != right ==> accumulated(left, lane) != accumulated(right, lane),
        lane != other_lane ==> accumulated(left, lane) != accumulated(left, other_lane),
{
    if left != right {
        let product = lane.wrapping_mul(XXH64_PRIME_2);
        let first = left.wrapping_add(product);
        let second = right.wrapping_add(product);
        assert(first != second);
        lemma_bits_tell_apart(first, second, 0);
        lemma_primes_tell_apart(rotated(first, 31), rotated(second, 31));
    }
    if lane != other_lane {
        lemma_primes_tell_apart(lane, other_lane);
        let first = left.wrapping_add(lane.wrapping_mul(XXH64_PRIME_2));
        let second = left.wrapping_add(other_lane.wrapping_mul(XXH64_PRIME_2));
        assert(first != second);
        lemma_bits_tell_apart(first, second, 0);
        lemma_primes_tell_apart(rotated(first, 31), rotated(second, 31));
    }
}

/// The last step tells all states apart.
#[verifier::spinoff_prover]
#[verifier::rlimit(40)]
proof fn lemma_avalanche_tells_apart(left: u64, right: u64)
    requires
        left != right,
    ensures
        avalanche(left) != avalanche(right),
{
    lemma_bits_tell_apart(left, right, 0);
    let first = left ^ (left >> 33);
    let other_first = right ^ (right >> 33);
    lemma_primes_tell_apart(first, other_first);
    let second = first.wrapping_mul(XXH64_PRIME_2);
    let other_second = other_first.wrapping_mul(XXH64_PRIME_2);
    lemma_bits_tell_apart(second, other_second, 0);
    let third = second ^ (second >> 29);
    let other_third = other_second ^ (other_second >> 29);
    lemma_primes_tell_apart(third, other_third);
    lemma_bits_tell_apart(
        third.wrapping_mul(XXH64_PRIME_3),
        other_third.wrapping_mul(XXH64_PRIME_3),
        0,
    );
}

/// One step over a lane tells apart what was mixed into the state.
#[verifier::spinoff_prover]
#[verifier::rlimit(40)]
proof fn lemma_step_tells_apart(left: u64, right: u64)
    requires
        left != right,
    ensures
        rotated(left, 27).wrapping_mul(XXH64_PRIME_1).wrapping_add(XXH64_PRIME_4) != rotated(
            right,
            27,
        ).wrapping_mul(XXH64_PRIME_1).wrapping_add(XXH64_PRIME_4),
        rotated(left, 23).wrapping_mul(XXH64_PRIME_2).wrapping_add(XXH64_PRIME_3) != rotated(
            right,
            23,
        ).wrapping_mul(XXH64_PRIME_2).wrapping_add(XXH64_PRIME_3),
        rotated(left, 11).wrapping_mul(XXH64_PRIME_1) != rotated(right, 11).wrapping_mul(
            XXH64_PRIME_1,
        ),
{
    lemma_bits_tell_apart(left, right, 0);
    lemma_primes_tell_apart(rotated(left, 27), rotated(right, 27));
    lemma_primes_tell_apart(rotated(left, 23), rotated(right, 23));
    lemma_primes_tell_apart(rotated(left, 11), rotated(right, 11));
}

/// Where the rest of the inputs is the same, different states end in different
/// hashes.
#[verifier::spinoff_prover]
#[verifier::rlimit(40)]
proof fn lemma_states_stay_apart(left: u64, right: u64, input: Seq<u8>, other: Seq<u8>, at: int)
    requires
        left != right,
        0 <= at <= input.len(),
        other.len() == input.len(),
        input.skip(at) == other.skip(at),
    ensures
        hash_from(left, input, at) != hash_from(right, other, at),
    decreases input.len() - at,
{
    assert forall|i: int| at <= i < input.len() implies input[i] == other[i] by {
        assert(input.skip(at)[i - at] == other.skip(at)[i - at]);
    }
    if at + 8 <= input.len() {
        assert(input.subrange(at, at + 8) =~= other.subrange(at, at + 8));
        let mixed = accumulated(0, lane_at(input, at));
        lemma_bits_tell_apart(left, right, mixed);
        lemma_step_tells_apart(left ^ mixed, right ^ mixed);
        assert(input.skip(at + 8) =~= other.skip(at + 8));
        lemma_states_stay_apart(
            rotated(left ^ mixed, 27).wrapping_mul(XXH64_PRIME_1).wrapping_add(XXH64_PRIME_4),
            rotated(right ^ mixed, 27).wrapping_mul(XXH64_PRIME_1).wrapping_add(XXH64_PRIME_4),
            input,
            other,
            at + 8,
        );
    } else if at + 4 <= input.len() {
        assert(input.subrange(at, at + 4) =~= other.subrange(at, at + 4));
        let mixed = (bytes::field(input, at, 4) as u64).wrapping_mul(XXH64_PRIME_1);
        lemma_bits_tell_apart(left, right, mixed);
        lemma_step_tells_apart(left ^ mixed, right ^ mixed);
        assert(input.skip(at + 4) =~= other.skip(at + 4));
        lemma_states_stay_apart(
            rotated(left ^ mixed, 23).wrapping_mul(XXH64_PRIME_2).wrapping_add(XXH64_PRIME_3),
            rotated(right ^ mixed, 23).wrapping_mul(XXH64_PRIME_2).wrapping_add(XXH64_PRIME_3),
            input,
            other,
            at + 4,
        );
    } else if at < input.len() {
        let mixed = (input[at] as u64).wrapping_mul(XXH64_PRIME_5);
        lemma_bits_tell_apart(left, right, mixed);
        lemma_step_tells_apart(left ^ mixed, right ^ mixed);
        assert(input.skip(at + 1) =~= other.skip(at + 1));
        lemma_states_stay_apart(
            rotated(left ^ mixed, 11).wrapping_mul(XXH64_PRIME_1),
            rotated(right ^ mixed, 11).wrapping_mul(XXH64_PRIME_1),
            input,
            other,
            at + 1,
        );
    } else {
        lemma_avalanche_tells_apart(left, right);
    }
}

/// Two inputs of one length that are the same but for the bytes `from .. to`, and
/// are not the same there.
pub open spec fn differ_within(left: Seq<u8>, right: Seq<u8>, from: int, to: int) -> bool {
    &&& left.len() == right.len()
    &&& left != right
    &&& forall|i: int| 0 <= i < left.len() && !(from <= i < to) ==> left[i] == right[i]
}

/// The bytes `from .. to` are taken together, where the bytes from `at` on are left:
/// eight at a time, then four, then single ones.
pub open spec fn is_lane(length: int, at: int, from: int, to: int) -> bool {
    let whole = length - (length - at) % 8;
    let rest = if length - whole >= 4 {
        whole + 4
    } else {
        whole
    };
    ||| at <= from && from + 8 <= whole && (from - at) % 8 == 0 && to == from + 8
    ||| from == whole && to == whole + 4 && to <= length
    ||| rest <= from < length && to == from + 1
}

/// Bytes that denote the same number are the same.
proof fn lemma_fields_tell_apart(left: Seq<u8>, right: Seq<u8>, from: int, width: nat)
    requires
        0 <= from,
        from + width <= left.len(),
        differ_within(left, right, from, from + width),
        width == 8 || width == 4,
    ensures
        bytes::field(left, from, width as int) != bytes::field(right, from, width as int),
        bytes::field(left, from, width as int) <= u64::MAX,
        bytes::field(right, from, width as int) <= u64::MAX,
{
    let first = left.subrange(from, from + width);
    let second = right.subrange(from, from + width);
    bytes::lemma_byte_capacities();
    bytes::lemma_le_value_bound(first);
    bytes::lemma_le_value_bound(second);
    bytes::lemma_le_bytes_of_value(first);
    bytes::lemma_le_bytes_of_value(second);
    if first == second {
        assert forall|i: int| 0 <= i < left.len() implies left[i] == right[i] by {
            if from <= i < from + width {
                assert(first[i - from] == second[i - from]);
            }
        }
        assert(left =~= right);
    }
}

/// The state once the next lane was taken.
#[verifier::opaque]
spec fn next_state(state: u64, input: Seq<u8>, at: int) -> u64 {
    if at + 8 <= input.len() {
        rotated(state ^ accumulated(0, lane_at(input, at)), 27).wrapping_mul(
            XXH64_PRIME_1,
        ).wrapping_add(XXH64_PRIME_4)
    } else if at + 4 <= input.len() {
        rotated(
            state ^ (bytes::field(input, at, 4) as u64).wrapping_mul(XXH64_PRIME_1),
            23,
        ).wrapping_mul(XXH64_PRIME_2).wrapping_add(XXH64_PRIME_3)
    } else {
        rotated(state ^ (input[at] as u64).wrapping_mul(XXH64_PRIME_5), 11).wrapping_mul(
            XXH64_PRIME_1,
        )
    }
}

/// How many bytes are taken next.
spec fn next_width(input: Seq<u8>, at: int) -> int {
    if at + 8 <= input.len() {
        8
    } else if at + 4 <= input.len() {
        4
    } else {
        1
    }
}

#[verifier::spinoff_prover]
#[verifier::rlimit(40)]
proof fn lemma_next_state(state: u64, input: Seq<u8>, at: int)
    requires
        0 <= at < input.len(),
    ensures
        hash_from(state, input, at) == hash_from(
            next_state(state, input, at),
            input,
            at + next_width(input, at),
        ),
{
    reveal(next_state);
}

/// Where the next lane is different, the next states are.
#[verifier::spinoff_prover]
#[verifier::rlimit(40)]
proof fn lemma_next_lane_matters(state: u64, left: Seq<u8>, right: Seq<u8>, at: int)
    requires
        0 <= at < left.len(),
        differ_within(left, right, at, at + next_width(left, at)),
    ensures
        next_state(state, left, at) != next_state(state, right, at),
{
    reveal(next_state);
    if at + 8 <= left.len() {
        let lane = accumulated(0, lane_at(left, at));
        let other_lane = accumulated(0, lane_at(right, at));
        lemma_fields_tell_apart(left, right, at, 8);
        lemma_accumulated_tells_apart(0, 0, lane_at(left, at), lane_at(right, at));
        lemma_bits_tell_apart(lane, other_lane, state);
        lemma_step_tells_apart(state ^ lane, state ^ other_lane);
    } else if at + 4 <= left.len() {
        let lane = bytes::field(left, at, 4) as u64;
        let other_lane = bytes::field(right, at, 4) as u64;
        lemma_fields_tell_apart(left, right, at, 4);
        lemma_primes_tell_apart(lane, other_lane);
        lemma_bits_tell_apart(
            lane.wrapping_mul(XXH64_PRIME_1),
            other_lane.wrapping_mul(XXH64_PRIME_1),
            state,
        );
        lemma_step_tells_apart(
            state ^ lane.wrapping_mul(XXH64_PRIME_1),
            state ^ other_lane.wrapping_mul(XXH64_PRIME_1),
        );
    } else {
        let lane = left[at] as u64;
        let other_lane = right[at] as u64;
        assert(lane != other_lane) by {
            if lane == other_lane {
                assert(left =~= right);
            }
        }
        lemma_primes_tell_apart(lane, other_lane);
        lemma_bits_tell_apart(
            lane.wrapping_mul(XXH64_PRIME_5),
            other_lane.wrapping_mul(XXH64_PRIME_5),
            state,
        );
        lemma_step_tells_apart(
            state ^ lane.wrapping_mul(XXH64_PRIME_5),
            state ^ other_lane.wrapping_mul(XXH64_PRIME_5),
        );
    }
}

/// Where the next lane is the same, the next states are.
#[verifier::spinoff_prover]
#[verifier::rlimit(40)]
proof fn lemma_same_next_lane(state: u64, left: Seq<u8>, right: Seq<u8>, at: int)
    requires
        0 <= at < left.len(),
        left.len() == right.len(),
        forall|i: int| at <= i < at + next_width(left, at) ==> left[i] == right[i],
    ensures
        next_state(state, left, at) == next_state(state, right, at),
{
    reveal(next_state);
    let width = next_width(left, at);
    assert(left.subrange(at, at + width) =~= right.subrange(at, at + width));
}

/// The lane that is different is the next one, or lies behind it.
proof fn lemma_lane_is_ahead(length: int, at: int, from: int, to: int, width: int)
    requires
        0 <= at <= length,
        is_lane(length, at, from, to),
        width == if at + 8 <= length {
            8int
        } else if at + 4 <= length {
            4
        } else {
            1
        },
    ensures
        at < length,
        from == at ==> to == at + width,
        from != at ==> from >= at + width && is_lane(length, at + width, from, to),
{
}

/// Where a lane ahead is different, the hashes are.
#[verifier::spinoff_prover]
#[verifier::rlimit(40)]
proof fn lemma_lane_ahead_matters(
    state: u64,
    left: Seq<u8>,
    right: Seq<u8>,
    at: int,
    from: int,
    to: int,
)
    requires
        0 <= at <= left.len(),
        differ_within(left, right, from, to),
        is_lane(left.len() as int, at, from, to),
    ensures
        hash_from(state, left, at) != hash_from(state, right, at),
    decreases left.len() - at,
{
    let width = next_width(left, at);
    lemma_lane_is_ahead(left.len() as int, at, from, to, width);
    lemma_next_state(state, left, at);
    lemma_next_state(state, right, at);
    if from == at {
        lemma_next_lane_matters(state, left, right, at);
        assert(left.skip(at + width) =~= right.skip(at + width));
        lemma_states_stay_apart(
            next_state(state, left, at),
            next_state(state, right, at),
            left,
            right,
            at + width,
        );
    } else {
        lemma_same_next_lane(state, left, right, at);
        lemma_lane_ahead_matters(next_state(state, left, at), left, right, at + width, from, to);
    }
}

/// The accumulators depend on the stripes alone.
#[verifier::spinoff_prover]
#[verifier::rlimit(40)]
proof fn lemma_same_accumulator(left: Seq<u8>, right: Seq<u8>, index: int, stripes: nat)
    requires
        left.len() == right.len(),
        0 <= index < 4,
        32 * stripes <= left.len(),
        forall|i: int|
            0 <= i < 32 * stripes && (i / 8) % 4 == index ==> left[i] == right[i],
    ensures
        accumulator_after(left, index, stripes) == accumulator_after(right, index, stripes),
    decreases stripes,
{
    if stripes > 0 {
        let last = stripes - 1;
        let at = 32 * last + 8 * index;
        lemma_same_accumulator(left, right, index, last as nat);
        assert(lane_at(left, at) == lane_at(right, at)) by {
            assert forall|i: int| at <= i < at + 8 implies left[i] == right[i] by {
                assert(i / 8 == 4 * last + index);
                assert((4 * last + index) % 4 == index);
            }
            assert(left.subrange(at, at + 8) =~= right.subrange(at, at + 8));
        }
    }
}

/// The state after the stripes depends on the stripes alone.
#[verifier::spinoff_prover]
#[verifier::rlimit(40)]
proof fn lemma_same_stripes(left: Seq<u8>, right: Seq<u8>)
    requires
        left.len() == right.len(),
        forall|i: int| 0 <= i < 32 * (left.len() / 32) ==> left[i] == right[i],
    ensures
        state_after_stripes(left) == state_after_stripes(right),
{
    let stripes = left.len() / 32;
    lemma_same_accumulator(left, right, 0, stripes);
    lemma_same_accumulator(left, right, 1, stripes);
    lemma_same_accumulator(left, right, 2, stripes);
    lemma_same_accumulator(left, right, 3, stripes);
}

/// Every part of the input behind the last whole stripe of 32 bytes matters: inputs
/// that differ in one lane only, of eight bytes, of four or of one, have different
/// hashes.
#[verifier::spinoff_prover]
#[verifier::rlimit(40)]
pub proof fn law_every_lane_matters(left: Seq<u8>, right: Seq<u8>, from: int, to: int)
    requires
        differ_within(left, right, from, to),
        is_lane(left.len() as int, 32 * (left.len() / 32) as int, from, to),
    ensures
        xxhash64(left) != xxhash64(right),
{
    reveal(xxhash64);
    let at = 32 * (left.len() / 32) as int;
    assert(from >= at);
    lemma_same_stripes(left, right);
    lemma_lane_ahead_matters(
        state_after_stripes(left).wrapping_add(left.len() as u64),
        left,
        right,
        at,
        from,
        to,
    );
}

/// Every byte of a short input matters, and of a longer one every byte behind the
/// last whole stripe of 32 bytes: inputs of one length that differ in one byte only
/// have different hashes.
#[verifier::spinoff_prover]
#[verifier::rlimit(40)]
pub proof fn law_every_byte_matters(left: Seq<u8>, right: Seq<u8>, position: int)
    requires
        left.len() == right.len(),
        32 * (left.len() / 32) <= position < left.len(),
        left[position] != right[position],
        forall|i: int| 0 <= i < left.len() && i != position ==> left[i] == right[i],
    ensures
        xxhash64(left) != xxhash64(right),
{
    let length = left.len() as int;
    let at = 32 * (length / 32);
    let whole = length - (length - at) % 8;
    if position < whole {
        let from = position - (position - at) % 8;
        law_every_lane_matters(left, right, from, from + 8);
    } else if length - whole >= 4 && position < whole + 4 {
        law_every_lane_matters(left, right, whole, whole + 4);
    } else {
        law_every_lane_matters(left, right, position, position + 1);
    }
}

/// An accumulator that was different stays so, and one that takes a different lane
/// becomes so.
#[verifier::spinoff_prover]
#[verifier::rlimit(40)]
proof fn lemma_stripe_matters(
    left: Seq<u8>,
    right: Seq<u8>,
    stripe: nat,
    index: int,
    stripes: nat,
)
    requires
        0 <= index < 4,
        stripe < stripes,
        32 * stripes <= left.len(),
        differ_within(left, right, 32 * stripe + 8 * index, 32 * stripe + 8 * index + 8),
    ensures
        accumulator_after(left, index, stripes) != accumulator_after(right, index, stripes),
    decreases stripes,
{
    let last = (stripes - 1) as nat;
    let at = 32 * last + 8 * index;
    let before = accumulator_after(left, index, last);
    let other_before = accumulator_after(right, index, last);
    let lane = lane_at(left, at);
    let other_lane = lane_at(right, at);
    if stripe < last {
        lemma_stripe_matters(left, right, stripe, index, last);
        assert(left.subrange(at, at + 8) =~= right.subrange(at, at + 8));
        lemma_accumulated_tells_apart(before, other_before, lane, 0);
    } else {
        assert forall|i: int| 0 <= i < 32 * last && (i / 8) % 4 == index implies left[i]
            == right[i] by {
            assert(i < at);
        }
        lemma_same_accumulator(left, right, index, last);
        lemma_fields_tell_apart(left, right, at, 8);
        lemma_accumulated_tells_apart(before, 0, lane, other_lane);
    }
}

/// Every byte of the stripes matters to the accumulators: inputs of one length that
/// differ in one lane of a stripe only leave one of the four accumulators different,
/// and the others the same.
#[verifier::spinoff_prover]
#[verifier::rlimit(40)]
pub proof fn law_every_stripe_matters(
    left: Seq<u8>,
    right: Seq<u8>,
    stripe: nat,
    index: int,
    stripes: nat,
)
    requires
        0 <= index < 4,
        stripe < stripes,
        32 * stripes <= left.len(),
        differ_within(left, right, 32 * stripe + 8 * index, 32 * stripe + 8 * index + 8),
    ensures
        accumulator_after(left, index, stripes) != accumulator_after(right, index, stripes),
        forall|other: int|
            0 <= other < 4 && other != index ==> #[trigger] accumulator_after(left, other, stripes)
                == accumulator_after(right, other, stripes),
{
    lemma_stripe_matters(left, right, stripe, index, stripes);
    assert forall|other: int| 0 <= other < 4 && other != index implies #[trigger] accumulator_after(
        left,
        other,
        stripes,
    ) == accumulator_after(right, other, stripes) by {
        assert forall|i: int| 0 <= i < 32 * stripes && (i / 8) % 4 == other implies left[i]
            == right[i] by {
            assert(!(32 * stripe + 8 * index <= i < 32 * stripe + 8 * index + 8));
        }
        lemma_same_accumulator(left, right, other, stripes);
    }
}

} // verus!
