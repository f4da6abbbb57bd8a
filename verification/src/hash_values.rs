//! Hashes of some inputs that take every way through the 64-bit xxHash: single bytes,
//! lanes of four and of eight bytes, and whole stripes.

use vstd::prelude::*;
use crate::bytes;
use crate::hash;

verus! {

/// The first byte of a field, and the rest.
proof fn lemma_field_step(input: Seq<u8>, at: int, count: int)
    requires
        0 <= at,
        0 < count,
        at + count <= input.len(),
    ensures
        bytes::field(input, at, count) == input[at] + 256 * bytes::field(
            input,
            at + 1,
            count - 1,
        ),
{
    assert(input.subrange(at, at + count).drop_first() =~= input.subrange(at + 1, at + count));
}

/// A lane of four bytes.
proof fn lemma_half_lane(input: Seq<u8>, at: int, value: u64)
    requires
        0 <= at,
        at + 4 <= input.len(),
        value == input[at] + 0x100 * input[at + 1] + 0x1_0000 * input[at + 2] + 0x100_0000
            * input[at + 3],
    ensures
        bytes::field(input, at, 4) == value,
{
    lemma_field_step(input, at, 4);
    lemma_field_step(input, at + 1, 3);
    lemma_field_step(input, at + 2, 2);
    lemma_field_step(input, at + 3, 1);
    assert(input.subrange(at + 4, at + 4).len() == 0);
}

/// A lane of eight bytes.
proof fn lemma_lane(input: Seq<u8>, at: int, value: u64)
    requires
        0 <= at,
        at + 8 <= input.len(),
        value == input[at] + 0x100 * input[at + 1] + 0x1_0000 * input[at + 2] + 0x100_0000
            * input[at + 3] + 0x1_0000_0000 * input[at + 4] + 0x100_0000_0000 * input[at + 5]
            + 0x1_0000_0000_0000 * input[at + 6] + 0x100_0000_0000_0000 * input[at + 7],
    ensures
        lane(input, at) == value,
{
    lemma_field_step(input, at, 8);
    lemma_field_step(input, at + 1, 7);
    lemma_field_step(input, at + 2, 6);
    lemma_field_step(input, at + 3, 5);
    lemma_field_step(input, at + 4, 4);
    lemma_field_step(input, at + 5, 3);
    lemma_field_step(input, at + 6, 2);
    lemma_field_step(input, at + 7, 1);
    assert(input.subrange(at + 8, at + 8).len() == 0);
    reveal(lane);
}

/// The lane at `at`.
#[verifier::opaque]
spec fn lane(input: Seq<u8>, at: int) -> u64 {
    hash::lane_at(input, at)
}

/// The accumulator after another lane.
#[verifier::opaque]
spec fn accumulated(accumulator: u64, lane: u64) -> u64 {
    hash::accumulated(accumulator, lane)
}

/// The state after an accumulator was merged into it.
#[verifier::opaque]
spec fn merged(state: u64, accumulator: u64) -> u64 {
    hash::merged(state, accumulator)
}

/// One of the accumulators after some stripes.
#[verifier::opaque]
spec fn accumulator(input: Seq<u8>, index: int, stripes: nat) -> u64 {
    hash::accumulator_after(input, index, stripes)
}

/// The state after the stripes.
#[verifier::opaque]
spec fn start(input: Seq<u8>) -> u64 {
    hash::state_after_stripes(input)
}

/// The hash, where the state covers the input up to `at`.
#[verifier::opaque]
spec fn continued(state: u64, input: Seq<u8>, at: int) -> u64 {
    hash::hash_from(state, input, at)
}

proof fn lemma_accumulated(
    before: u64,
    lane: u64,
    product: u64,
    sum: u64,
    turned: u64,
    after: u64,
)
    requires
        lane.wrapping_mul(0xC2B2_AE3D_27D4_EB4F) == product,
        before.wrapping_add(product) == sum,
        hash::rotated(sum, 31) == turned,
        turned.wrapping_mul(0x9E37_79B1_85EB_CA87) == after,
    ensures
        accumulated(before, lane) == after,
{
    reveal(accumulated);
}

proof fn lemma_initial_accumulators(input: Seq<u8>)
    ensures
        accumulator(input, 0, 0) == 0x60EA_27EE_ADC0_B5D6,
        accumulator(input, 1, 0) == 0xC2B2_AE3D_27D4_EB4F,
        accumulator(input, 2, 0) == 0,
        accumulator(input, 3, 0) == 0x61C8_864E_7A14_3579,
{
    reveal(accumulator);
}

proof fn lemma_next_accumulator(
    input: Seq<u8>,
    index: int,
    stripes: nat,
    before: u64,
    lane_value: u64,
    after: u64,
)
    requires
        accumulator(input, index, stripes) == before,
        lane(input, 32 * stripes + 8 * index) == lane_value,
        accumulated(before, lane_value) == after,
    ensures
        accumulator(input, index, stripes + 1) == after,
{
    reveal(accumulator);
    reveal(accumulated);
    reveal(lane);
}

proof fn lemma_merged(
    state: u64,
    accumulator_value: u64,
    mixed: u64,
    joined: u64,
    product: u64,
    after: u64,
)
    requires
        accumulated(0, accumulator_value) == mixed,
        state ^ mixed == joined,
        joined.wrapping_mul(0x9E37_79B1_85EB_CA87) == product,
        product.wrapping_add(0x85EB_CA77_C2B2_AE63) == after,
    ensures
        merged(state, accumulator_value) == after,
{
    reveal(accumulated);
    reveal(merged);
}

proof fn lemma_stripes(
    input: Seq<u8>,
    stripes: nat,
    values: [u64; 4],
    turned: [u64; 4],
    sum: u64,
    states: [u64; 4],
)
    requires
        input.len() >= 32,
        input.len() / 32 == stripes,
        accumulator(input, 0, stripes) == values[0],
        accumulator(input, 1, stripes) == values[1],
        accumulator(input, 2, stripes) == values[2],
        accumulator(input, 3, stripes) == values[3],
        hash::rotated(values[0], 1) == turned[0],
        hash::rotated(values[1], 7) == turned[1],
        hash::rotated(values[2], 12) == turned[2],
        hash::rotated(values[3], 18) == turned[3],
        turned[0].wrapping_add(turned[1]).wrapping_add(turned[2]).wrapping_add(turned[3]) == sum,
        merged(sum, values[0]) == states[0],
        merged(states[0], values[1]) == states[1],
        merged(states[1], values[2]) == states[2],
        merged(states[2], values[3]) == states[3],
    ensures
        start(input) == states[3],
{
    reveal(accumulator);
    reveal(merged);
    reveal(start);
}

proof fn lemma_no_stripe(input: Seq<u8>)
    requires
        input.len() < 32,
    ensures
        start(input) == 0x27D4_EB2F_1656_67C5,
{
    reveal(start);
}

proof fn lemma_start(input: Seq<u8>, at: int, before: u64, state: u64)
    requires
        start(input) == before,
        at == 32 * (input.len() / 32),
        input.len() <= u64::MAX,
        before.wrapping_add(input.len() as u64) == state,
    ensures
        hash::xxhash64(input) == continued(state, input, at),
{
    reveal(hash::xxhash64);
    reveal(start);
    reveal(continued);
}

proof fn lemma_lane_taken(
    input: Seq<u8>,
    at: int,
    state: u64,
    lane_value: u64,
    mixed: u64,
    joined: u64,
    turned: u64,
    product: u64,
    after: u64,
)
    requires
        at + 8 <= input.len(),
        lane(input, at) == lane_value,
        accumulated(0, lane_value) == mixed,
        state ^ mixed == joined,
        hash::rotated(joined, 27) == turned,
        turned.wrapping_mul(0x9E37_79B1_85EB_CA87) == product,
        product.wrapping_add(0x85EB_CA77_C2B2_AE63) == after,
    ensures
        continued(state, input, at) == continued(after, input, at + 8),
{
    reveal(lane);
    reveal(accumulated);
    reveal(continued);
}

proof fn lemma_half_lane_taken(
    input: Seq<u8>,
    at: int,
    state: u64,
    lane_value: u64,
    mixed: u64,
    joined: u64,
    turned: u64,
    product: u64,
    after: u64,
)
    requires
        at + 4 <= input.len() < at + 8,
        bytes::field(input, at, 4) == lane_value,
        lane_value.wrapping_mul(0x9E37_79B1_85EB_CA87) == mixed,
        state ^ mixed == joined,
        hash::rotated(joined, 23) == turned,
        turned.wrapping_mul(0xC2B2_AE3D_27D4_EB4F) == product,
        product.wrapping_add(0x1656_67B1_9E37_79F9) == after,
    ensures
        continued(state, input, at) == continued(after, input, at + 4),
{
    reveal(continued);
}

proof fn lemma_byte_taken(
    input: Seq<u8>,
    at: int,
    state: u64,
    mixed: u64,
    joined: u64,
    turned: u64,
    after: u64,
)
    requires
        0 <= at < input.len() < at + 4,
        (input[at] as u64).wrapping_mul(0x27D4_EB2F_1656_67C5) == mixed,
        state ^ mixed == joined,
        hash::rotated(joined, 11) == turned,
        turned.wrapping_mul(0x9E37_79B1_85EB_CA87) == after,
    ensures
        continued(state, input, at) == continued(after, input, at + 1),
{
    reveal(continued);
}

proof fn lemma_end(
    input: Seq<u8>,
    state: u64,
    first: u64,
    second: u64,
    third: u64,
    fourth: u64,
    last: u64,
)
    requires
        state ^ (state >> 33) == first,
        first.wrapping_mul(0xC2B2_AE3D_27D4_EB4F) == second,
        second ^ (second >> 29) == third,
        third.wrapping_mul(0x1656_67B1_9E37_79F9) == fourth,
        fourth ^ (fourth >> 32) == last,
    ensures
        continued(state, input, input.len() as int) == last,
{
    reveal(continued);
}

/// The bit operations on the way to a hash.
proof fn lemma_bits_of_one_byte()
    by (bit_vector)
    ensures
        0x27D4_EB2F_1656_67C6u64 ^ 0x17AD_1CD7_76BD_51A5u64 == 0x3079_F7F8_60EB_3663u64,
        hash::rotated(0x3079_F7F8_60EB_3663u64, 11) == 0xCFBF_C307_59B3_1983u64,
        0xB865_97E4_19D4_D215u64 ^ (0xB865_97E4_19D4_D215u64 >> 33) == 0xB865_97E4_45E6_19E7u64,
        0xD785_8A26_7015_0B49u64 ^ (0xD785_8A26_7015_0B49u64 >> 29) == 0xD785_8A20_CC39_5A7Au64,
        0xD24E_C4F1_7BC2_AAAAu64 ^ (0xD24E_C4F1_7BC2_AAAAu64 >> 32) == 0xD24E_C4F1_A98C_6E5Bu64,
{
}

/// The published hash of "a".
pub proof fn known_hash_of_one_byte(input: Seq<u8>)
    requires
        input == seq![
            97u8,
        ],
    ensures
        hash::xxhash64(input) == 0xD24E_C4F1_A98C_6E5B,
{
    lemma_bits_of_one_byte();
    lemma_no_stripe(input);
    lemma_start(input, 0, 0x27D4_EB2F_1656_67C5, 0x27D4_EB2F_1656_67C6);
    lemma_byte_taken(input, 0, 0x27D4_EB2F_1656_67C6, 0x17AD_1CD7_76BD_51A5, 0x3079_F7F8_60EB_3663, 0xCFBF_C307_59B3_1983, 0xB865_97E4_19D4_D215);
    lemma_end(input, 0xB865_97E4_19D4_D215, 0xB865_97E4_45E6_19E7, 0xD785_8A26_7015_0B49, 0xD785_8A20_CC39_5A7A, 0xD24E_C4F1_7BC2_AAAA, 0xD24E_C4F1_A98C_6E5B);
}

/// The bit operations on the way to a hash.
proof fn lemma_bits_of_four_bytes()
    by (bit_vector)
    ensures
        0x27D4_EB2F_1656_67C9u64 ^ 0x2364_1E39_910E_6227u64 == 0x04B0_F516_8758_05EEu64,
        hash::rotated(0x04B0_F516_8758_05EEu64, 23) == 0x8B43_AC02_F702_587Au64,
        0x81BB_1FD8_DA30_C59Fu64 ^ (0x81BB_1FD8_DA30_C59Fu64 >> 33) == 0x81BB_1FD8_9AED_4A73u64,
        0x4B10_044F_CECD_8A7Du64 ^ (0x4B10_044F_CECD_8A7Du64 >> 29) == 0x4B10_044D_964D_A803u64,
        0x4158_72F5_D896_D5EBu64 ^ (0x4158_72F5_D896_D5EBu64 >> 32) == 0x4158_72F5_99CE_A71Eu64,
{
}

/// The published hash of "asdf".
pub proof fn known_hash_of_four_bytes(input: Seq<u8>)
    requires
        input == seq![
            97u8, 115, 100, 102,
        ],
    ensures
        hash::xxhash64(input) == 0x4158_72F5_99CE_A71E,
{
    lemma_bits_of_four_bytes();
    lemma_no_stripe(input);
    lemma_start(input, 0, 0x27D4_EB2F_1656_67C5, 0x27D4_EB2F_1656_67C9);
    lemma_half_lane(input, 0, 0x0000_0000_6664_7361);
    lemma_half_lane_taken(input, 0, 0x27D4_EB2F_1656_67C9, 0x0000_0000_6664_7361, 0x2364_1E39_910E_6227, 0x04B0_F516_8758_05EE, 0x8B43_AC02_F702_587A, 0x6B64_B827_3BF9_4BA6, 0x81BB_1FD8_DA30_C59F);
    lemma_end(input, 0x81BB_1FD8_DA30_C59F, 0x81BB_1FD8_9AED_4A73, 0x4B10_044F_CECD_8A7D, 0x4B10_044D_964D_A803, 0x4158_72F5_D896_D5EB, 0x4158_72F5_99CE_A71E);
}

/// The bit operations on the way to a hash.
proof fn lemma_bits_of_seven_bytes()
    by (bit_vector)
    ensures
        0x27D4_EB2F_1656_67CCu64 ^ 0x3789_E757_778C_B3F4u64 == 0x105D_0C78_61DA_D438u64,
        hash::rotated(0x105D_0C78_61DA_D438u64, 23) == 0x3C30_ED6A_1C08_2E86u64,
        0x7C42_B2F6_B86A_D753u64 ^ 0xB700_C993_D016_F0B9u64 == 0xCB42_7B65_687C_27EAu64,
        hash::rotated(0xCB42_7B65_687C_27EAu64, 11) == 0x13DB_2B43_E13F_565Au64,
        0x29FE_4BC2_C927_8D76u64 ^ 0xBCD0_BAF7_F27A_35BAu64 == 0x952E_F135_3B5D_B8CCu64,
        hash::rotated(0x952E_F135_3B5D_B8CCu64, 11) == 0x7789_A9DA_EDC6_64A9u64,
        0x6D2E_2355_232F_6F1Fu64 ^ 0xE4A5_A627_08D0_9D7Fu64 == 0x898B_8572_2BFF_F260u64,
        hash::rotated(0x898B_8572_2BFF_F260u64, 11) == 0x5C2B_915F_FF93_044Cu64,
        0x5498_4B06_35AF_3C14u64 ^ (0x5498_4B06_35AF_3C14u64 >> 33) == 0x5498_4B06_1FE3_1997u64,
        0x254B_821B_819E_8299u64 ^ (0x254B_821B_819E_8299u64 >> 29) == 0x254B_821A_ABC2_9245u64,
        0x7C3C_08E9_0A35_E21Du64 ^ (0x7C3C_08E9_0A35_E21Du64 >> 32) == 0x7C3C_08E9_7609_EAF4u64,
{
}

/// The hash of "letters".
pub proof fn known_hash_of_seven_bytes(input: Seq<u8>)
    requires
        input == seq![
            108u8, 101, 116, 116, 101, 114, 115,
        ],
    ensures
        hash::xxhash64(input) == 0x7C3C_08E9_7609_EAF4,
{
    lemma_bits_of_seven_bytes();
    lemma_no_stripe(input);
    lemma_start(input, 0, 0x27D4_EB2F_1656_67C5, 0x27D4_EB2F_1656_67CC);
    lemma_half_lane(input, 0, 0x0000_0000_7474_656C);
    lemma_half_lane_taken(input, 0, 0x27D4_EB2F_1656_67CC, 0x0000_0000_7474_656C, 0x3789_E757_778C_B3F4, 0x105D_0C78_61DA_D438, 0x3C30_ED6A_1C08_2E86, 0x65EC_4B45_1A33_5D5A, 0x7C42_B2F6_B86A_D753);
    lemma_byte_taken(input, 4, 0x7C42_B2F6_B86A_D753, 0xB700_C993_D016_F0B9, 0xCB42_7B65_687C_27EA, 0x13DB_2B43_E13F_565A, 0x29FE_4BC2_C927_8D76);
    lemma_byte_taken(input, 5, 0x29FE_4BC2_C927_8D76, 0xBCD0_BAF7_F27A_35BA, 0x952E_F135_3B5D_B8CC, 0x7789_A9DA_EDC6_64A9, 0x6D2E_2355_232F_6F1F);
    lemma_byte_taken(input, 6, 0x6D2E_2355_232F_6F1F, 0xE4A5_A627_08D0_9D7F, 0x898B_8572_2BFF_F260, 0x5C2B_915F_FF93_044C, 0x5498_4B06_35AF_3C14);
    lemma_end(input, 0x5498_4B06_35AF_3C14, 0x5498_4B06_1FE3_1997, 0x254B_821B_819E_8299, 0x254B_821A_ABC2_9245, 0x7C3C_08E9_0A35_E21D, 0x7C3C_08E9_7609_EAF4);
}

/// The bit operations on the way to a hash.
proof fn lemma_bits_of_two_lanes()
    by (bit_vector)
    ensures
        hash::rotated(0xB35C_B999_EB64_3DD0u64, 31) == 0xF5B2_1EE8_59AE_5CCCu64,
        0x27D4_EB2F_1656_67D5u64 ^ 0x7672_219C_0B6F_E794u64 == 0x51A6_CAB3_1D39_8041u64,
        hash::rotated(0x51A6_CAB3_1D39_8041u64, 27) == 0x98E9_CC02_0A8D_3655u64,
        hash::rotated(0xB1BA_308D_85E7_1048u64, 31) == 0xC2F3_8824_58DD_1846u64,
        0x261E_C67E_C910_6736u64 ^ 0x2FC2_C840_F801_08EAu64 == 0x09DC_0E3E_3111_6FDCu64,
        hash::rotated(0x09DC_0E3E_3111_6FDCu64, 27) == 0xF188_8B7E_E04E_E071u64,
        0xEFE5_F182_061F_33FAu64 ^ (0xEFE5_F182_061F_33FAu64 >> 33) == 0xEFE5_F182_71ED_CB3Bu64,
        0xC6DB_5FC7_BBCC_E035u64 ^ (0xC6DB_5FC7_BBCC_E035u64 >> 29) == 0xC6DB_5FC1_8D16_1E08u64,
        0x5C5B_90C3_126C_FDC8u64 ^ (0x5C5B_90C3_126C_FDC8u64 >> 32) == 0x5C5B_90C3_4E37_6D0Bu64,
{
}

/// The hash of "0123456789abcdef".
pub proof fn known_hash_of_two_lanes(input: Seq<u8>)
    requires
        input == seq![
            48u8, 49, 50, 51, 52, 53, 54, 55, 56, 57, 97, 98, 99, 100, 101, 102,
        ],
    ensures
        hash::xxhash64(input) == 0x5C5B_90C3_4E37_6D0B,
{
    lemma_bits_of_two_lanes();
    lemma_no_stripe(input);
    lemma_start(input, 0, 0x27D4_EB2F_1656_67C5, 0x27D4_EB2F_1656_67D5);
    lemma_lane(input, 0, 0x3736_3534_3332_3130);
    lemma_accumulated(0x0000_0000_0000_0000, 0x3736_3534_3332_3130, 0xB35C_B999_EB64_3DD0, 0xB35C_B999_EB64_3DD0, 0xF5B2_1EE8_59AE_5CCC, 0x7672_219C_0B6F_E794);
    lemma_lane_taken(input, 0, 0x27D4_EB2F_1656_67D5, 0x3736_3534_3332_3130, 0x7672_219C_0B6F_E794, 0x51A6_CAB3_1D39_8041, 0x98E9_CC02_0A8D_3655, 0xA032_FC07_065D_B8D3, 0x261E_C67E_C910_6736);
    lemma_lane(input, 8, 0x6665_6463_6261_3938);
    lemma_accumulated(0x0000_0000_0000_0000, 0x6665_6463_6261_3938, 0xB1BA_308D_85E7_1048, 0xB1BA_308D_85E7_1048, 0xC2F3_8824_58DD_1846, 0x2FC2_C840_F801_08EA);
    lemma_lane_taken(input, 8, 0x261E_C67E_C910_6736, 0x6665_6463_6261_3938, 0x2FC2_C840_F801_08EA, 0x09DC_0E3E_3111_6FDC, 0xF188_8B7E_E04E_E071, 0x69FA_270A_436C_8597, 0xEFE5_F182_061F_33FA);
    lemma_end(input, 0xEFE5_F182_061F_33FA, 0xEFE5_F182_71ED_CB3B, 0xC6DB_5FC7_BBCC_E035, 0xC6DB_5FC1_8D16_1E08, 0x5C5B_90C3_126C_FDC8, 0x5C5B_90C3_4E37_6D0B);
}

/// The bit operations on the way to a hash.
proof fn lemma_bits_of_one_stripe()
    by (bit_vector)
    ensures
        hash::rotated(0xB146_9C00_60F7_3A83u64, 31) == 0x307B_9D41_D8A3_4E00u64,
        hash::rotated(0xEE91_0131_6458_81D6u64, 31) == 0xB22C_40EB_7748_8098u64,
        hash::rotated(0x930F_3F3C_AD29_06E0u64, 31) == 0x5694_8370_4987_9F9Eu64,
        hash::rotated(0x5022_3B35_F707_8C68u64, 31) == 0xFB83_C634_2811_1D9Au64,
        hash::rotated(0x670B_8618_B3AA_2200u64, 1) == 0xCE17_0C31_6754_4400u64,
        hash::rotated(0xFC3F_F3C0_203B_C028u64, 7) == 0x1FF9_E010_1DE0_147Eu64,
        hash::rotated(0x9677_E9E6_6681_D852u64, 12) == 0x7E9E_6668_1D85_2967u64,
        hash::rotated(0xDA7D_9AAF_D0C0_2036u64, 18) == 0x6ABF_4300_80DB_69F6u64,
        hash::rotated(0x4720_DC9E_C6B6_7E00u64, 31) == 0x635B_3F00_2390_6E4Fu64,
        0xD76E_95AA_2394_EBDBu64 ^ 0x9C67_9FA6_05B9_81A9u64 == 0x4B09_0A0C_262D_6A72u64,
        hash::rotated(0xE329_5B2A_04F5_0458u64, 31) == 0x027A_822C_7194_AD95u64,
        0xD9CE_CBCF_AB49_C481u64 ^ 0x9DFA_A9BD_F726_1B93u64 == 0x4434_6272_5C6F_DF12u64,
        hash::rotated(0x8A1E_A138_758D_074Eu64, 31) == 0x3AC6_83A7_450F_509Cu64,
        0x6EE1_A8BE_E73B_84E1u64 ^ 0xFA33_3B7F_8BE2_9A44u64 == 0x94D2_93C1_6CD9_1EA5u64,
        hash::rotated(0x4160_A5C2_AF93_82AAu64, 31) == 0x57C9_C155_20B0_52E1u64,
        0x96B7_3AAB_55D7_0966u64 ^ 0xCE7F_632B_57EC_3EA7u64 == 0x58C8_5980_023B_37C1u64,
        hash::rotated(0x836D_C77F_BDB4_4EE3u64, 31) == 0xDEDA_2771_C1B6_E3BFu64,
        0xB89F_9480_1D16_5F69u64 ^ 0x285D_251B_C27B_CFB9u64 == 0x90C2_B19B_DF6D_90D0u64,
        hash::rotated(0x90C2_B19B_DF6D_90D0u64, 27) == 0xDEFB_6C86_8486_158Cu64,
        hash::rotated(0x1945_C3E0_9E4C_7567u64, 31) == 0x4F26_3AB3_8CA2_E1F0u64,
        0x0C71_8C0C_F5EC_8337u64 ^ 0xF656_017E_C77C_8590u64 == 0xFA27_8D72_3290_06A7u64,
        hash::rotated(0xFA27_8D72_3290_06A7u64, 27) == 0x9194_8035_3FD1_3C6Bu64,
        hash::rotated(0x2BF9_C81C_04CC_8654u64, 31) == 0x0266_432A_15FC_E40Eu64,
        0xDDA5_0D58_90EE_F8D0u64 ^ 0xD8A1_7DD9_C329_4F62u64 == 0x0504_7081_53C7_B7B2u64,
        hash::rotated(0x0504_7081_53C7_B7B2u64, 27) == 0x0A9E_3DBD_9028_2384u64,
        0xE2E4_0EBE_A20F_90FFu64 ^ 0xA4F3_0F67_BDE5_B135u64 == 0x4617_01D9_1FEA_21CAu64,
        hash::rotated(0x4617_01D9_1FEA_21CAu64, 23) == 0xEC8F_F510_E523_0B80u64,
        0x2BCA_5F85_8596_8679u64 ^ 0xCDD3_37DD_6C73_C71Cu64 == 0xE619_6858_E9E5_4165u64,
        hash::rotated(0xE619_6858_E9E5_4165u64, 11) == 0xCB42_C74F_2A0B_2F30u64,
        0x1658_49E4_4031_C250u64 ^ 0xD3A3_2941_8ED7_0C1Du64 == 0xC5FB_60A5_CEE6_CE4Du64,
        hash::rotated(0xC5FB_60A5_CEE6_CE4Du64, 11) == 0xDB05_2E77_3672_6E2Fu64,
        0x9669_659C_916E_30C9u64 ^ 0x006D_5746_ED30_3DA1u64 == 0x9604_32DA_7C5E_0D68u64,
        hash::rotated(0x9604_32DA_7C5E_0D68u64, 11) == 0x2196_D3E2_F06B_44B0u64,
        0x7166_E938_EA54_18D0u64 ^ (0x7166_E938_EA54_18D0u64 >> 33) == 0x7166_E938_D2E7_6C4Cu64,
        0xB3A1_8164_C8C4_2F74u64 ^ (0xB3A1_8164_C8C4_2F74u64 >> 29) == 0xB3A1_8161_55C8_2452u64,
        0x02A2_E854_7274_15C2u64 ^ (0x02A2_E854_7274_15C2u64 >> 32) == 0x02A2_E854_70D6_FD96u64,
{
}

/// The published hash of a text of 63 characters.
pub proof fn known_hash_of_one_stripe(input: Seq<u8>)
    requires
        input == seq![
            67u8, 97, 108, 108, 32, 109, 101, 32, 73, 115, 104, 109, 97, 101, 108,
            46, 32, 83, 111, 109, 101, 32, 121, 101, 97, 114, 115, 32, 97, 103, 111,
            45, 45, 110, 101, 118, 101, 114, 32, 109, 105, 110, 100, 32, 104, 111,
            119, 32, 108, 111, 110, 103, 32, 112, 114, 101, 99, 105, 115, 101, 108,
            121, 45,
        ],
    ensures
        hash::xxhash64(input) == 0x02A2_E854_70D6_FD96,
{
    lemma_bits_of_one_stripe();
    lemma_initial_accumulators(input);
    lemma_lane(input, 0, 0x2065_6D20_6C6C_6143);
    lemma_accumulated(0x60EA_27EE_ADC0_B5D6, 0x2065_6D20_6C6C_6143, 0x505C_7411_B336_84AD, 0xB146_9C00_60F7_3A83, 0x307B_9D41_D8A3_4E00, 0x670B_8618_B3AA_2200);
    lemma_next_accumulator(input, 0, 0, 0x60EA_27EE_ADC0_B5D6, 0x2065_6D20_6C6C_6143, 0x670B_8618_B3AA_2200);
    lemma_lane(input, 8, 0x2E6C_6561_6D68_7349);
    lemma_accumulated(0xC2B2_AE3D_27D4_EB4F, 0x2E6C_6561_6D68_7349, 0x2BDE_52F4_3C83_9687, 0xEE91_0131_6458_81D6, 0xB22C_40EB_7748_8098, 0xFC3F_F3C0_203B_C028);
    lemma_next_accumulator(input, 1, 0, 0xC2B2_AE3D_27D4_EB4F, 0x2E6C_6561_6D68_7349, 0xFC3F_F3C0_203B_C028);
    lemma_lane(input, 16, 0x6579_2065_6D6F_5320);
    lemma_accumulated(0x0000_0000_0000_0000, 0x6579_2065_6D6F_5320, 0x930F_3F3C_AD29_06E0, 0x930F_3F3C_AD29_06E0, 0x5694_8370_4987_9F9E, 0x9677_E9E6_6681_D852);
    lemma_next_accumulator(input, 2, 0, 0x0000_0000_0000_0000, 0x6579_2065_6D6F_5320, 0x9677_E9E6_6681_D852);
    lemma_lane(input, 24, 0x2D6F_6761_2073_7261);
    lemma_accumulated(0x61C8_864E_7A14_3579, 0x2D6F_6761_2073_7261, 0xEE59_B4E7_7CF3_56EF, 0x5022_3B35_F707_8C68, 0xFB83_C634_2811_1D9A, 0xDA7D_9AAF_D0C0_2036);
    lemma_next_accumulator(input, 3, 0, 0x61C8_864E_7A14_3579, 0x2D6F_6761_2073_7261, 0xDA7D_9AAF_D0C0_2036);
    lemma_accumulated(0x0000_0000_0000_0000, 0x670B_8618_B3AA_2200, 0x4720_DC9E_C6B6_7E00, 0x4720_DC9E_C6B6_7E00, 0x635B_3F00_2390_6E4F, 0x9C67_9FA6_05B9_81A9);
    lemma_merged(0xD76E_95AA_2394_EBDB, 0x670B_8618_B3AA_2200, 0x9C67_9FA6_05B9_81A9, 0x4B09_0A0C_262D_6A72, 0x53E3_0157_E897_161E, 0xD9CE_CBCF_AB49_C481);
    lemma_accumulated(0x0000_0000_0000_0000, 0xFC3F_F3C0_203B_C028, 0xE329_5B2A_04F5_0458, 0xE329_5B2A_04F5_0458, 0x027A_822C_7194_AD95, 0x9DFA_A9BD_F726_1B93);
    lemma_merged(0xD9CE_CBCF_AB49_C481, 0xFC3F_F3C0_203B_C028, 0x9DFA_A9BD_F726_1B93, 0x4434_6272_5C6F_DF12, 0xE8F5_DE47_2488_D67E, 0x6EE1_A8BE_E73B_84E1);
    lemma_accumulated(0x0000_0000_0000_0000, 0x9677_E9E6_6681_D852, 0x8A1E_A138_758D_074E, 0x8A1E_A138_758D_074E, 0x3AC6_83A7_450F_509C, 0xFA33_3B7F_8BE2_9A44);
    lemma_merged(0x6EE1_A8BE_E73B_84E1, 0x9677_E9E6_6681_D852, 0xFA33_3B7F_8BE2_9A44, 0x94D2_93C1_6CD9_1EA5, 0x10CB_7033_9324_5B03, 0x96B7_3AAB_55D7_0966);
    lemma_accumulated(0x0000_0000_0000_0000, 0xDA7D_9AAF_D0C0_2036, 0x4160_A5C2_AF93_82AA, 0x4160_A5C2_AF93_82AA, 0x57C9_C155_20B0_52E1, 0xCE7F_632B_57EC_3EA7);
    lemma_merged(0x96B7_3AAB_55D7_0966, 0xDA7D_9AAF_D0C0_2036, 0xCE7F_632B_57EC_3EA7, 0x58C8_5980_023B_37C1, 0x32B3_CA08_5A63_B0C7, 0xB89F_9480_1D16_5F2A);
    lemma_stripes(
        input,
        1,
        [0x670B_8618_B3AA_2200, 0xFC3F_F3C0_203B_C028, 0x9677_E9E6_6681_D852, 0xDA7D_9AAF_D0C0_2036],
        [0xCE17_0C31_6754_4400, 0x1FF9_E010_1DE0_147E, 0x7E9E_6668_1D85_2967, 0x6ABF_4300_80DB_69F6],
        0xD76E_95AA_2394_EBDB,
        [0xD9CE_CBCF_AB49_C481, 0x6EE1_A8BE_E73B_84E1, 0x96B7_3AAB_55D7_0966, 0xB89F_9480_1D16_5F2A],
    );
    lemma_start(input, 32, 0xB89F_9480_1D16_5F2A, 0xB89F_9480_1D16_5F69);
    lemma_lane(input, 32, 0x6D20_7265_7665_6E2D);
    lemma_accumulated(0x0000_0000_0000_0000, 0x6D20_7265_7665_6E2D, 0x836D_C77F_BDB4_4EE3, 0x836D_C77F_BDB4_4EE3, 0xDEDA_2771_C1B6_E3BF, 0x285D_251B_C27B_CFB9);
    lemma_lane_taken(input, 32, 0xB89F_9480_1D16_5F69, 0x6D20_7265_7665_6E2D, 0x285D_251B_C27B_CFB9, 0x90C2_B19B_DF6D_90D0, 0xDEFB_6C86_8486_158C, 0x8685_C195_3339_D4D4, 0x0C71_8C0C_F5EC_8337);
    lemma_lane(input, 40, 0x2077_6F68_2064_6E69);
    lemma_accumulated(0x0000_0000_0000_0000, 0x2077_6F68_2064_6E69, 0x1945_C3E0_9E4C_7567, 0x1945_C3E0_9E4C_7567, 0x4F26_3AB3_8CA2_E1F0, 0xF656_017E_C77C_8590);
    lemma_lane_taken(input, 40, 0x0C71_8C0C_F5EC_8337, 0x2077_6F68_2064_6E69, 0xF656_017E_C77C_8590, 0xFA27_8D72_3290_06A7, 0x9194_8035_3FD1_3C6B, 0x57B9_42E0_CE3C_4A6D, 0xDDA5_0D58_90EE_F8D0);
    lemma_lane(input, 48, 0x6572_7020_676E_6F6C);
    lemma_accumulated(0x0000_0000_0000_0000, 0x6572_7020_676E_6F6C, 0x2BF9_C81C_04CC_8654, 0x2BF9_C81C_04CC_8654, 0x0266_432A_15FC_E40E, 0xD8A1_7DD9_C329_4F62);
    lemma_lane_taken(input, 48, 0xDDA5_0D58_90EE_F8D0, 0x6572_7020_676E_6F6C, 0xD8A1_7DD9_C329_4F62, 0x0504_7081_53C7_B7B2, 0x0A9E_3DBD_9028_2384, 0x5CF8_4446_DF5C_E29C, 0xE2E4_0EBE_A20F_90FF);
    lemma_half_lane(input, 56, 0x0000_0000_6573_6963);
    lemma_half_lane_taken(input, 56, 0xE2E4_0EBE_A20F_90FF, 0x0000_0000_6573_6963, 0xA4F3_0F67_BDE5_B135, 0x4617_01D9_1FEA_21CA, 0xEC8F_F510_E523_0B80, 0x1573_F7D3_E75F_0C80, 0x2BCA_5F85_8596_8679);
    lemma_byte_taken(input, 60, 0x2BCA_5F85_8596_8679, 0xCDD3_37DD_6C73_C71C, 0xE619_6858_E9E5_4165, 0xCB42_C74F_2A0B_2F30, 0x1658_49E4_4031_C250);
    lemma_byte_taken(input, 61, 0x1658_49E4_4031_C250, 0xD3A3_2941_8ED7_0C1D, 0xC5FB_60A5_CEE6_CE4D, 0xDB05_2E77_3672_6E2F, 0x9669_659C_916E_30C9);
    lemma_byte_taken(input, 62, 0x9669_659C_916E_30C9, 0x006D_5746_ED30_3DA1, 0x9604_32DA_7C5E_0D68, 0x2196_D3E2_F06B_44B0, 0x7166_E938_EA54_18D0);
    lemma_end(input, 0x7166_E938_EA54_18D0, 0x7166_E938_D2E7_6C4C, 0xB3A1_8164_C8C4_2F74, 0xB3A1_8161_55C8_2452, 0x02A2_E854_7274_15C2, 0x02A2_E854_70D6_FD96);
}

/// The bit operations on the way to a hash.
proof fn lemma_bits_of_three_stripes()
    by (bit_vector)
    ensures
        hash::rotated(0x9C50_6BBE_464A_04D6u64, 31) == 0x2325_026B_4E28_35DFu64,
        hash::rotated(0xBCC2_05AE_78D8_0CC7u64, 31) == 0x3C6C_0663_DE61_02D7u64,
        hash::rotated(0xB8B8_6B13_097C_F3F0u64, 31) == 0x84BE_79F8_5C5C_3589u64,
        hash::rotated(0xD92A_0503_3C0A_FBE1u64, 31) == 0x9E05_7DF0_EC95_0281u64,
        hash::rotated(0x2ABF_CDAD_BADB_F779u64, 31) == 0xDD6D_FBBC_955F_E6D6u64,
        hash::rotated(0xB886_F149_52AD_90B9u64, 31) == 0xA956_C85C_DC43_78A4u64,
        hash::rotated(0x7E83_79A1_B405_930Fu64, 31) == 0xDA02_C987_BF41_BCD0u64,
        hash::rotated(0x0C4A_9D3D_4BD7_2C4Fu64, 31) == 0xA5EB_9627_8625_4E9Eu64,
        hash::rotated(0x156D_2119_E281_799Au64, 31) == 0xF140_BCCD_0AB6_908Cu64,
        hash::rotated(0x33CA_1045_6C23_BBB4u64, 31) == 0xB611_DDDA_19E5_0822u64,
        hash::rotated(0x9DD9_FFE0_EAE2_3960u64, 31) == 0x7571_1CB0_4EEC_FFF0u64,
        hash::rotated(0xF941_09C8_F484_7B7Au64, 31) == 0x7A42_3DBD_7CA0_84E4u64,
        hash::rotated(0x4D87_2610_20D8_B1D4u64, 1) == 0x9B0E_4C20_41B1_63A8u64,
        hash::rotated(0xF6A4_8A6C_8168_1DEEu64, 7) == 0x5245_3640_B40E_F77Bu64,
        hash::rotated(0xD188_38B7_423E_5790u64, 12) == 0x838B_7423_E579_0D18u64,
        hash::rotated(0x2B1E_854B_D2CD_FC3Cu64, 18) == 0x152F_4B37_F0F0_AC7Au64,
        hash::rotated(0x60EA_3B2F_9DAC_7C6Cu64, 31) == 0xCED6_3E36_3075_1D97u64,
        0x860E_41BC_CC2A_14B5u64 ^ 0xCC63_B918_93B8_C0A1u64 == 0x4A6D_F8A4_5F92_D414u64,
        hash::rotated(0x170D_3EC4_8DB2_B672u64, 31) == 0x46D9_5B39_0B86_9F62u64,
        0x93B4_B65B_16D4_4CEFu64 ^ 0x926C_2851_86B7_60AEu64 == 0x01D8_9E0A_9063_2C41u64,
        hash::rotated(0xC272_D2A4_1EDE_3570u64, 31) == 0x0F6F_1AB8_6139_6952u64,
        0x5104_DAF0_8C95_4EAAu64 ^ 0xB888_3B0F_DAA7_3E3Eu64 == 0xE98C_E1FF_5632_7094u64,
        hash::rotated(0x58ED_9337_29CB_EA84u64, 31) == 0x94E5_F542_2C76_C99Bu64,
        0xEE98_9140_3FFC_D46Fu64 ^ 0x5B5B_BBEE_C601_9EBDu64 == 0xB5C3_2AAE_F9FD_4AD2u64,
        hash::rotated(0x2B53_2F64_3E3F_2CA0u64, 31) == 0x1F1F_9650_15A9_97B2u64,
        0xB5A1_6E94_3D14_D790u64 ^ 0x833B_77E2_F887_72DEu64 == 0x369A_1976_C593_A54Eu64,
        hash::rotated(0x369A_1976_C593_A54Eu64, 27) == 0xB62C_9D2A_71B4_D0CBu64,
        0x58D0_CA62_8725_F770u64 ^ 0x9DEE_4154_66C1_A5D8u64 == 0xC53E_8B36_E1E4_52A8u64,
        hash::rotated(0xC53E_8B36_E1E4_52A8u64, 23) == 0x9B70_F229_5462_9F45u64,
        0xBE4C_D449_98FE_F744u64 ^ 0xCDD3_37DD_6C73_C71Cu64 == 0x739F_E394_F48D_3058u64,
        hash::rotated(0x739F_E394_F48D_3058u64, 11) == 0xFF1C_A7A4_6982_C39Cu64,
        0x8383_E87A_6E82_3F44u64 ^ 0xF5A8_230C_82CA_2EE1u64 == 0x762B_CB76_EC48_11A5u64,
        hash::rotated(0x762B_CB76_EC48_11A5u64, 11) == 0x5E5B_B762_408D_2BB1u64,
        0x8014_B36A_7F66_B457u64 ^ 0x1D7D_0E3B_9920_96A6u64 == 0x9D69_BD51_E646_22F1u64,
        hash::rotated(0x9D69_BD51_E646_22F1u64, 11) == 0x4DEA_8F32_3117_8CEBu64,
        0x15A3_EC83_EB55_BDEDu64 ^ (0x15A3_EC83_EB55_BDEDu64 >> 33) == 0x15A3_EC83_E184_4BACu64,
        0xB9D1_E5C8_E7BA_3E14u64 ^ (0xB9D1_E5C8_E7BA_3E14u64 >> 29) == 0xB9D1_E5CD_2935_1053u64,
        0x666C_C5E3_E529_1BBBu64 ^ (0x666C_C5E3_E529_1BBBu64 >> 32) == 0x666C_C5E3_8345_DE58u64,
{
}

/// The hash of the bytes from 0 up to 110.
pub proof fn known_hash_of_three_stripes(input: Seq<u8>)
    requires
        input == Seq::new(111, |i: int| i as u8),
    ensures
        hash::xxhash64(input) == 0x666C_C5E3_8345_DE58,
{
    lemma_bits_of_three_stripes();
    lemma_initial_accumulators(input);
    lemma_lane(input, 0, 0x0706_0504_0302_0100);
    lemma_accumulated(0x60EA_27EE_ADC0_B5D6, 0x0706_0504_0302_0100, 0x3B66_43CF_9889_4F00, 0x9C50_6BBE_464A_04D6, 0x2325_026B_4E28_35DF, 0xF4B5_3B57_406B_5E99);
    lemma_next_accumulator(input, 0, 0, 0x60EA_27EE_ADC0_B5D6, 0x0706_0504_0302_0100, 0xF4B5_3B57_406B_5E99);
    lemma_lane(input, 8, 0x0F0E_0D0C_0B0A_0908);
    lemma_accumulated(0xC2B2_AE3D_27D4_EB4F, 0x0F0E_0D0C_0B0A_0908, 0xFA0F_5771_5103_2178, 0xBCC2_05AE_78D8_0CC7, 0x3C6C_0663_DE61_02D7, 0xC3D3_4B51_1FC3_2561);
    lemma_next_accumulator(input, 1, 0, 0xC2B2_AE3D_27D4_EB4F, 0x0F0E_0D0C_0B0A_0908, 0xC3D3_4B51_1FC3_2561);
    lemma_lane(input, 16, 0x1716_1514_1312_1110);
    lemma_accumulated(0x0000_0000_0000_0000, 0x1716_1514_1312_1110, 0xB8B8_6B13_097C_F3F0, 0xB8B8_6B13_097C_F3F0, 0x84BE_79F8_5C5C_3589, 0xCB26_C007_C8A1_553F);
    lemma_next_accumulator(input, 2, 0, 0x0000_0000_0000_0000, 0x1716_1514_1312_1110, 0xCB26_C007_C8A1_553F);
    lemma_lane(input, 24, 0x1F1E_1D1C_1B1A_1918);
    lemma_accumulated(0x61C8_864E_7A14_3579, 0x1F1E_1D1C_1B1A_1918, 0x7761_7EB4_C1F6_C668, 0xD92A_0503_3C0A_FBE1, 0x9E05_7DF0_EC95_0281, 0x9A44_D001_A7F9_1C07);
    lemma_next_accumulator(input, 3, 0, 0x61C8_864E_7A14_3579, 0x1F1E_1D1C_1B1A_1918, 0x9A44_D001_A7F9_1C07);
    lemma_lane(input, 32, 0x2726_2524_2322_2120);
    lemma_accumulated(0xF4B5_3B57_406B_5E99, 0x2726_2524_2322_2120, 0x360A_9256_7A70_98E0, 0x2ABF_CDAD_BADB_F779, 0xDD6D_FBBC_955F_E6D6, 0xE4BE_403C_8629_96DA);
    lemma_next_accumulator(input, 0, 1, 0xF4B5_3B57_406B_5E99, 0x2726_2524_2322_2120, 0xE4BE_403C_8629_96DA);
    lemma_lane(input, 40, 0x2F2E_2D2C_2B2A_2928);
    lemma_accumulated(0xC3D3_4B51_1FC3_2561, 0x2F2E_2D2C_2B2A_2928, 0xF4B3_A5F8_32EA_6B58, 0xB886_F149_52AD_90B9, 0xA956_C85C_DC43_78A4, 0x4472_1BC6_5752_067C);
    lemma_next_accumulator(input, 1, 1, 0xC3D3_4B51_1FC3_2561, 0x2F2E_2D2C_2B2A_2928, 0x4472_1BC6_5752_067C);
    lemma_lane(input, 48, 0x3736_3534_3332_3130);
    lemma_accumulated(0xCB26_C007_C8A1_553F, 0x3736_3534_3332_3130, 0xB35C_B999_EB64_3DD0, 0x7E83_79A1_B405_930F, 0xDA02_C987_BF41_BCD0, 0xEFD8_F7C0_1D96_B1B0);
    lemma_next_accumulator(input, 2, 1, 0xCB26_C007_C8A1_553F, 0x3736_3534_3332_3130, 0xEFD8_F7C0_1D96_B1B0);
    lemma_lane(input, 56, 0x3F3E_3D3C_3B3A_3938);
    lemma_accumulated(0x9A44_D001_A7F9_1C07, 0x3F3E_3D3C_3B3A_3938, 0x7205_CD3B_A3DE_1048, 0x0C4A_9D3D_4BD7_2C4F, 0xA5EB_9627_8625_4E9E, 0x8C96_EE06_6EBF_2152);
    lemma_next_accumulator(input, 3, 1, 0x9A44_D001_A7F9_1C07, 0x3F3E_3D3C_3B3A_3938, 0x8C96_EE06_6EBF_2152);
    lemma_lane(input, 64, 0x4746_4544_4342_4140);
    lemma_accumulated(0xE4BE_403C_8629_96DA, 0x4746_4544_4342_4140, 0x30AE_E0DD_5C57_E2C0, 0x156D_2119_E281_799A, 0xF140_BCCD_0AB6_908C, 0x4D87_2610_20D8_B1D4);
    lemma_next_accumulator(input, 0, 2, 0xE4BE_403C_8629_96DA, 0x4746_4544_4342_4140, 0x4D87_2610_20D8_B1D4);
    lemma_lane(input, 72, 0x4F4E_4D4C_4B4A_4948);
    lemma_accumulated(0x4472_1BC6_5752_067C, 0x4F4E_4D4C_4B4A_4948, 0xEF57_F47F_14D1_B538, 0x33CA_1045_6C23_BBB4, 0xB611_DDDA_19E5_0822, 0xF6A4_8A6C_8168_1DEE);
    lemma_next_accumulator(input, 1, 2, 0x4472_1BC6_5752_067C, 0x4F4E_4D4C_4B4A_4948, 0xF6A4_8A6C_8168_1DEE);
    lemma_lane(input, 80, 0x5756_5554_5352_5150);
    lemma_accumulated(0xEFD8_F7C0_1D96_B1B0, 0x5756_5554_5352_5150, 0xAE01_0820_CD4B_87B0, 0x9DD9_FFE0_EAE2_3960, 0x7571_1CB0_4EEC_FFF0, 0xD188_38B7_423E_5790);
    lemma_next_accumulator(input, 2, 2, 0xEFD8_F7C0_1D96_B1B0, 0x5756_5554_5352_5150, 0xD188_38B7_423E_5790);
    lemma_lane(input, 88, 0x5F5E_5D5C_5B5A_5958);
    lemma_accumulated(0x8C96_EE06_6EBF_2152, 0x5F5E_5D5C_5B5A_5958, 0x6CAA_1BC2_85C5_5A28, 0xF941_09C8_F484_7B7A, 0x7A42_3DBD_7CA0_84E4, 0x2B1E_854B_D2CD_FC3C);
    lemma_next_accumulator(input, 3, 2, 0x8C96_EE06_6EBF_2152, 0x5F5E_5D5C_5B5A_5958, 0x2B1E_854B_D2CD_FC3C);
    lemma_accumulated(0x0000_0000_0000_0000, 0x4D87_2610_20D8_B1D4, 0x60EA_3B2F_9DAC_7C6C, 0x60EA_3B2F_9DAC_7C6C, 0xCED6_3E36_3075_1D97, 0xCC63_B918_93B8_C0A1);
    lemma_merged(0x860E_41BC_CC2A_14B5, 0x4D87_2610_20D8_B1D4, 0xCC63_B918_93B8_C0A1, 0x4A6D_F8A4_5F92_D414, 0x0DC8_EBE3_5421_9E8C, 0x93B4_B65B_16D4_4CEF);
    lemma_accumulated(0x0000_0000_0000_0000, 0xF6A4_8A6C_8168_1DEE, 0x170D_3EC4_8DB2_B672, 0x170D_3EC4_8DB2_B672, 0x46D9_5B39_0B86_9F62, 0x926C_2851_86B7_60AE);
    lemma_merged(0x93B4_B65B_16D4_4CEF, 0xF6A4_8A6C_8168_1DEE, 0x926C_2851_86B7_60AE, 0x01D8_9E0A_9063_2C41, 0xCB19_1078_C9E2_A047, 0x5104_DAF0_8C95_4EAA);
    lemma_accumulated(0x0000_0000_0000_0000, 0xD188_38B7_423E_5790, 0xC272_D2A4_1EDE_3570, 0xC272_D2A4_1EDE_3570, 0x0F6F_1AB8_6139_6952, 0xB888_3B0F_DAA7_3E3E);
    lemma_merged(0x5104_DAF0_8C95_4EAA, 0xD188_38B7_423E_5790, 0xB888_3B0F_DAA7_3E3E, 0xE98C_E1FF_5632_7094, 0x68AC_C6C8_7D4A_260C, 0xEE98_9140_3FFC_D46F);
    lemma_accumulated(0x0000_0000_0000_0000, 0x2B1E_854B_D2CD_FC3C, 0x58ED_9337_29CB_EA84, 0x58ED_9337_29CB_EA84, 0x94E5_F542_2C76_C99B, 0x5B5B_BBEE_C601_9EBD);
    lemma_merged(0xEE98_9140_3FFC_D46F, 0x2B1E_854B_D2CD_FC3C, 0x5B5B_BBEE_C601_9EBD, 0xB5C3_2AAE_F9FD_4AD2, 0x2FB5_A41C_7A62_28BE, 0xB5A1_6E94_3D14_D721);
    lemma_stripes(
        input,
        3,
        [0x4D87_2610_20D8_B1D4, 0xF6A4_8A6C_8168_1DEE, 0xD188_38B7_423E_5790, 0x2B1E_854B_D2CD_FC3C],
        [0x9B0E_4C20_41B1_63A8, 0x5245_3640_B40E_F77B, 0x838B_7423_E579_0D18, 0x152F_4B37_F0F0_AC7A],
        0x860E_41BC_CC2A_14B5,
        [0x93B4_B65B_16D4_4CEF, 0x5104_DAF0_8C95_4EAA, 0xEE98_9140_3FFC_D46F, 0xB5A1_6E94_3D14_D721],
    );
    lemma_start(input, 96, 0xB5A1_6E94_3D14_D721, 0xB5A1_6E94_3D14_D790);
    lemma_lane(input, 96, 0x6766_6564_6362_6160);
    lemma_accumulated(0x0000_0000_0000_0000, 0x6766_6564_6362_6160, 0x2B53_2F64_3E3F_2CA0, 0x2B53_2F64_3E3F_2CA0, 0x1F1F_9650_15A9_97B2, 0x833B_77E2_F887_72DE);
    lemma_lane_taken(input, 96, 0xB5A1_6E94_3D14_D790, 0x6766_6564_6362_6160, 0x833B_77E2_F887_72DE, 0x369A_1976_C593_A54E, 0xB62C_9D2A_71B4_D0CB, 0xD2E4_FFEA_C473_490D, 0x58D0_CA62_8725_F770);
    lemma_half_lane(input, 104, 0x0000_0000_6B6A_6968);
    lemma_half_lane_taken(input, 104, 0x58D0_CA62_8725_F770, 0x0000_0000_6B6A_6968, 0x9DEE_4154_66C1_A5D8, 0xC53E_8B36_E1E4_52A8, 0x9B70_F229_5462_9F45, 0xA7F6_6C97_FAC7_7D4B, 0xBE4C_D449_98FE_F744);
    lemma_byte_taken(input, 108, 0xBE4C_D449_98FE_F744, 0xCDD3_37DD_6C73_C71C, 0x739F_E394_F48D_3058, 0xFF1C_A7A4_6982_C39C, 0x8383_E87A_6E82_3F44);
    lemma_byte_taken(input, 109, 0x8383_E87A_6E82_3F44, 0xF5A8_230C_82CA_2EE1, 0x762B_CB76_EC48_11A5, 0x5E5B_B762_408D_2BB1, 0x8014_B36A_7F66_B457);
    lemma_byte_taken(input, 110, 0x8014_B36A_7F66_B457, 0x1D7D_0E3B_9920_96A6, 0x9D69_BD51_E646_22F1, 0x4DEA_8F32_3117_8CEB, 0x15A3_EC83_EB55_BDED);
    lemma_end(input, 0x15A3_EC83_EB55_BDED, 0x15A3_EC83_E184_4BAC, 0xB9D1_E5C8_E7BA_3E14, 0xB9D1_E5CD_2935_1053, 0x666C_C5E3_E529_1BBB, 0x666C_C5E3_8345_DE58);
}

} // verus!
