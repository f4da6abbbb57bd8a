//! CRC32C (Castagnoli) checksums.
//!
//! Metadata blocks embed the checksum of their contents in their first four
//! bytes; the checksums of data blocks live in the checksum tree.

use vstd::prelude::*;
use crate::bytes;

verus! {

/// The Castagnoli polynomial `0x1EDC6F41` with its bits reversed, for a
/// register that shifts towards the least significant bit.
pub const CASTAGNOLI_POLYNOMIAL_REVERSED: u32 = 0x82F6_3B78;

/// One step of the feedback register: the lowest bit falls off and, if it was
/// set, the polynomial is folded back in.
pub open spec fn crc_bit_step(register: u32) -> u32 {
    if register & 1 != 0 {
        (register >> 1) ^ CASTAGNOLI_POLYNOMIAL_REVERSED
    } else {
        register >> 1
    }
}

/// `count` steps of the feedback register.
pub open spec fn crc_bit_steps(register: u32, count: nat) -> u32
    decreases count,
{
    if count == 0 {
        register
    } else {
        crc_bit_steps(crc_bit_step(register), (count - 1) as nat)
    }
}

/// The register after `data`, one byte (eight steps) at a time.
pub open spec fn crc_register(initial: u32, data: Seq<u8>) -> u32
    decreases data.len(),
{
    if data.len() == 0 {
        initial
    } else {
        crc_bit_steps(crc_register(initial, data.drop_last()) ^ (data.last() as u32), 8)
    }
}

/// The CRC32C of `data`: the register starts with all ones and is inverted at
/// the end.
#[verifier::opaque]
pub open spec fn crc32c(data: Seq<u8>) -> u32 {
    crc_register(0xFFFF_FFFF, data) ^ 0xFFFF_FFFF
}

spec fn crc_eight_steps(register: u32) -> u32 {
    crc_bit_step(
        crc_bit_step(
            crc_bit_step(
                crc_bit_step(crc_bit_step(crc_bit_step(crc_bit_step(crc_bit_step(register))))),
            ),
        ),
    )
}

proof fn lemma_eight_steps(register: u32)
    ensures
        crc_bit_steps(register, 8) == crc_eight_steps(register),
{
    reveal_with_fuel(crc_bit_steps, 9);
}

/// A byte can be folded in by one table lookup: only the lowest eight bits of
/// the register feed back within eight steps.
proof fn lemma_table_step(register: u32)
    ensures
        crc_bit_steps(register, 8) == (register >> 8) ^ crc_bit_steps(register & 0xFF, 8),
{
    lemma_eight_steps(register);
    lemma_eight_steps(register & 0xFF);
    assert(crc_eight_steps(register) == (register >> 8) ^ crc_eight_steps(register & 0xFF))
        by (bit_vector);
}

proof fn lemma_eight_steps_injective(left: u32, right: u32)
    requires
        crc_bit_steps(left, 8) == crc_bit_steps(right, 8),
    ensures
        left == right,
{
    lemma_steps_injective(left, right, 8);
}

proof fn lemma_steps_injective(left: u32, right: u32, count: nat)
    requires
        crc_bit_steps(left, count) == crc_bit_steps(right, count),
    ensures
        left == right,
    decreases count,
{
    if count > 0 {
        lemma_steps_injective(crc_bit_step(left), crc_bit_step(right), (count - 1) as nat);
        assert(crc_bit_step(left) == crc_bit_step(right) ==> left == right) by (bit_vector);
    }
}

proof fn lemma_register_differs(left: Seq<u8>, right: Seq<u8>, position: int)
    requires
        left.len() == right.len(),
        0 <= position < left.len(),
        left[position] != right[position],
        forall|i: int| 0 <= i < left.len() && i != position ==> left[i] == right[i],
    ensures
        crc_register(0xFFFF_FFFF, left) != crc_register(0xFFFF_FFFF, right),
    decreases left.len(),
{
    let before_left = crc_register(0xFFFF_FFFF, left.drop_last());
    let before_right = crc_register(0xFFFF_FFFF, right.drop_last());
    let last_left = left.last() as u32;
    let last_right = right.last() as u32;
    if position == left.len() - 1 {
        assert(left.drop_last() =~= right.drop_last());
        assert(before_left ^ last_left == before_left ^ last_right ==> last_left == last_right)
            by (bit_vector);
    } else {
        lemma_register_differs(left.drop_last(), right.drop_last(), position);
        assert(before_left ^ last_left == before_right ^ last_left ==> before_left == before_right)
            by (bit_vector);
    }
    if crc_register(0xFFFF_FFFF, left) == crc_register(0xFFFF_FFFF, right) {
        lemma_eight_steps_injective(before_left ^ last_left, before_right ^ last_right);
    }
}

/// Two byte strings that differ in exactly one byte have different checksums:
/// no corruption of a single byte, and so no bit flip, goes unnoticed.
pub proof fn law_single_byte_change_is_detected(left: Seq<u8>, right: Seq<u8>, position: int)
    requires
        left.len() == right.len(),
        0 <= position < left.len(),
        left[position] != right[position],
        forall|i: int| 0 <= i < left.len() && i != position ==> left[i] == right[i],
    ensures
        crc32c(left) != crc32c(right),
{
    reveal(crc32c);
    lemma_register_differs(left, right, position);
    let register_left = crc_register(0xFFFF_FFFF, left);
    let register_right = crc_register(0xFFFF_FFFF, right);
    assert(register_left ^ 0xFFFF_FFFF == register_right ^ 0xFFFF_FFFF ==> register_left
        == register_right) by (bit_vector);
}

/// One step of the feedback register taken back: only a step that let a one out sets
/// the highest bit.
pub open spec fn crc_bit_undone(register: u32) -> u32 {
    if register >= 0x8000_0000 {
        ((register ^ 0x82F6_3B78) << 1) | 1
    } else {
        register << 1
    }
}

/// Eight steps of the feedback register taken back.
pub open spec fn crc_byte_undone(register: u32) -> u32 {
    crc_bit_undone(
        crc_bit_undone(
            crc_bit_undone(
                crc_bit_undone(
                    crc_bit_undone(
                        crc_bit_undone(crc_bit_undone(crc_bit_undone(register))),
                    ),
                ),
            ),
        ),
    )
}

/// The checksum of no data is zero. From the checksum of some data, the checksum of
/// the data without the last byte is got by taking the register back over that byte.
pub proof fn law_last_byte_can_be_taken_back(data: Seq<u8>, last: u8)
    ensures
        crc32c(Seq::empty()) == 0,
        crc_byte_undone(!crc32c(data.push(last))) == !crc32c(data) ^ (last as u32),
{
    reveal(crc32c);
    assert(data.push(last).drop_last() =~= data);
    let before = crc_register(0xFFFF_FFFF, data);
    let after = crc_register(0xFFFF_FFFF, data.push(last));
    let fed = before ^ (last as u32);
    lemma_eight_steps(fed);
    assert(0xFFFF_FFFFu32 ^ 0xFFFF_FFFF == 0) by (bit_vector);
    assert(!(before ^ 0xFFFF_FFFF) == before) by (bit_vector);
    assert(!(after ^ 0xFFFF_FFFF) == after) by (bit_vector);
    assert(forall|register: u32| crc_bit_undone(#[trigger] crc_bit_step(register)) == register)
        by (bit_vector);
}

/// Data with the same checksum has the same checksum with the same bytes behind it,
/// and data with different checksums has different ones.
pub proof fn law_checksum_can_be_continued(left: Seq<u8>, right: Seq<u8>, behind: Seq<u8>)
    ensures
        crc32c(left) == crc32c(right) <==> crc32c(left + behind) == crc32c(right + behind),
    decreases behind.len(),
{
    if behind.len() == 0 {
        assert(left + behind =~= left);
        assert(right + behind =~= right);
    } else {
        let most = behind.drop_last();
        let last = behind.last();
        law_checksum_can_be_continued(left, right, most);
        assert(left + behind =~= (left + most).push(last));
        assert(right + behind =~= (right + most).push(last));
        lemma_checksums_with_byte(left + most, right + most, last);
    }
}

proof fn lemma_checksums_with_byte(left: Seq<u8>, right: Seq<u8>, last: u8)
    ensures
        crc32c(left) == crc32c(right) <==> crc32c(left.push(last)) == crc32c(right.push(last)),
{
    reveal(crc32c);
    assert(left.push(last).drop_last() =~= left);
    assert(right.push(last).drop_last() =~= right);
    let a = crc_register(0xFFFF_FFFF, left);
    let b = crc_register(0xFFFF_FFFF, right);
    let byte = last as u32;
    if crc_bit_steps(a ^ byte, 8) == crc_bit_steps(b ^ byte, 8) {
        lemma_eight_steps_injective(a ^ byte, b ^ byte);
    }
    assert(a ^ byte == b ^ byte ==> a == b) by (bit_vector);
    let c = crc_bit_steps(a ^ byte, 8);
    let d = crc_bit_steps(b ^ byte, 8);
    assert(c ^ 0xFFFF_FFFF == d ^ 0xFFFF_FFFF ==> c == d) by (bit_vector);
    assert(a ^ 0xFFFF_FFFF == b ^ 0xFFFF_FFFF ==> a == b) by (bit_vector);
}

/// The table that maps a byte to the register after that byte.
pub fn build_crc32c_lookup_table() -> (table: [u32; 256])
    ensures
        forall|i: int| 0 <= i < 256 ==> table@[i] == crc_bit_steps(i as u32, 8),
{
    let mut table: [u32; 256] = [0u32;256];
    let mut index: usize = 0;
    while index < 256
        invariant
            index <= 256,
            forall|i: int| 0 <= i < index ==> table@[i] == crc_bit_steps(i as u32, 8),
        decreases 256 - index,
    {
        let mut remainder: u32 = index as u32;
        let mut bit: usize = 0;
        while bit < 8
            invariant
                bit <= 8,
                crc_bit_steps(remainder, (8 - bit) as nat) == crc_bit_steps(index as u32, 8),
            decreases 8 - bit,
        {
            if remainder & 1 != 0 {
                remainder = (remainder >> 1) ^ CASTAGNOLI_POLYNOMIAL_REVERSED;
            } else {
                remainder = remainder >> 1;
            }
            bit = bit + 1;
        }
        table[index] = remainder;
        index = index + 1;
    }
    table
}

/// The CRC32C checksum of `data`.
pub fn compute_crc32c(data: &[u8]) -> (checksum: u32)
    ensures
        checksum == crc32c(data@),
{
    proof {
        reveal(crc32c);
    }
    let table = build_crc32c_lookup_table();
    let mut accumulator: u32 = 0xFFFF_FFFF;
    let mut index: usize = 0;
    assert(data@.take(0) =~= Seq::empty());
    while index < data.len()
        invariant
            index <= data@.len(),
            accumulator == crc_register(0xFFFF_FFFF, data@.take(index as int)),
            forall|i: int| 0 <= i < 256 ==> table@[i] == crc_bit_steps(i as u32, 8),
        decreases data@.len() - index,
    {
        let mixed: u32 = accumulator ^ (data[index] as u32);
        let entry: u32 = mixed & 0xFF;
        assert(mixed & 0xFF < 256) by (bit_vector);
        proof {
            lemma_table_step(mixed);
            assert(data@.take(index + 1).drop_last() =~= data@.take(index as int));
        }
        accumulator = (mixed >> 8) ^ table[entry as usize];
        proof {
            let byte = data@[index as int];
            let before = crc_register(0xFFFF_FFFF, data@.take(index as int));
            assert(mixed == before ^ (byte as u32));
        }
        index = index + 1;
    }
    assert(data@.take(data@.len() as int) =~= data@);
    accumulator ^ 0xFFFF_FFFF
}

/// Whether `data` has the checksum `expected_checksum`.
pub fn verify_crc32c(data: &[u8], expected_checksum: u32) -> (matches: bool)
    ensures
        matches == (crc32c(data@) == expected_checksum),
{
    compute_crc32c(data) == expected_checksum
}

/// Write the checksum of `data_after_header` into the first four bytes of
/// `destination_buffer`, least significant byte first.
pub fn write_checksum_into_buffer_header(data_after_header: &[u8], destination_buffer: &mut [u8])
    requires
        old(destination_buffer)@.len() >= 4,
    ensures
        final(destination_buffer)@ == bytes::le_bytes(crc32c(data_after_header@) as nat, 4)
            + old(destination_buffer)@.skip(4),
{
    let checksum: u32 = compute_crc32c(data_after_header);
    let mut encoded: Vec<u8> = Vec::new();
    bytes::append_le(&mut encoded, checksum as u64, 4);
    proof {
        bytes::lemma_le_bytes_len(checksum as nat, 4);
        assert(encoded@ =~= bytes::le_bytes(checksum as nat, 4));
    }
    let mut index: usize = 0;
    while index < 4
        invariant
            index <= 4,
            encoded@ == bytes::le_bytes(checksum as nat, 4),
            encoded@.len() == 4,
            destination_buffer@.len() == old(destination_buffer)@.len(),
            destination_buffer@.len() >= 4,
            forall|i: int| 0 <= i < index ==> destination_buffer@[i] == encoded@[i],
            forall|i: int|
                index <= i < destination_buffer@.len() ==> destination_buffer@[i] == old(
                    destination_buffer,
                )@[i],
        decreases 4 - index,
    {
        destination_buffer[index] = encoded[index];
        index = index + 1;
    }
    assert(destination_buffer@ =~= encoded@ + old(destination_buffer)@.skip(4));
}

} // verus!
