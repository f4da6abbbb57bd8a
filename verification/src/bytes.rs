//! Little-endian integer encoding, and small helpers on byte buffers.

use vstd::prelude::*;

verus! {

/// `256` to the power `count`: the number of values that `count` bytes can hold.
pub open spec fn byte_capacity(count: nat) -> nat
    decreases count,
{
    if count == 0 {
        1
    } else {
        256 * byte_capacity((count - 1) as nat)
    }
}

/// The `count` lowest bytes of `value`, least significant byte first.
pub open spec fn le_bytes(value: nat, count: nat) -> Seq<u8>
    decreases count,
{
    if count == 0 {
        Seq::empty()
    } else {
        seq![(value % 256) as u8] + le_bytes(value / 256, (count - 1) as nat)
    }
}

/// The number that `source` denotes, read least significant byte first.
pub open spec fn le_value(source: Seq<u8>) -> nat
    decreases source.len(),
{
    if source.len() == 0 {
        0
    } else {
        source[0] as nat + 256 * le_value(source.drop_first())
    }
}

pub broadcast proof fn lemma_le_bytes_len(value: nat, count: nat)
    ensures
        #[trigger] le_bytes(value, count).len() == count,
    decreases count,
{
    if count > 0 {
        lemma_le_bytes_len(value / 256, (count - 1) as nat);
    }
}

/// Decoding an encoded number gives the number back.
pub proof fn lemma_le_round_trip(value: nat, count: nat)
    requires
        value < byte_capacity(count),
    ensures
        le_value(le_bytes(value, count)) == value,
    decreases count,
{
    if count > 0 {
        let rest = le_bytes(value / 256, (count - 1) as nat);
        lemma_le_round_trip(value / 256, (count - 1) as nat);
        assert(le_bytes(value, count).drop_first() =~= rest);
    }
}

pub proof fn lemma_le_value_bound(source: Seq<u8>)
    ensures
        le_value(source) < byte_capacity(source.len()),
    decreases source.len(),
{
    if source.len() > 0 {
        lemma_le_value_bound(source.drop_first());
    }
}

/// Encoding a decoded byte string gives the byte string back.
pub proof fn lemma_le_bytes_of_value(source: Seq<u8>)
    ensures
        le_bytes(le_value(source), source.len()) == source,
    decreases source.len(),
{
    if source.len() > 0 {
        let rest = source.drop_first();
        lemma_le_bytes_of_value(rest);
        assert(le_value(source) % 256 == source[0]);
        assert(le_value(source) / 256 == le_value(rest));
        assert(le_bytes(le_value(source), source.len()) =~= seq![source[0]] + rest);
        assert(seq![source[0]] + rest =~= source);
    } else {
        assert(source =~= Seq::empty());
    }
}

pub proof fn lemma_byte_capacities()
    ensures
        byte_capacity(2) == 0x1_0000,
        byte_capacity(4) == 0x1_0000_0000,
        byte_capacity(8) == 0x1_0000_0000_0000_0000,
{
    reveal_with_fuel(byte_capacity, 9);
}

/// Append the `count` lowest bytes of `value` to `output`.
pub fn append_le(output: &mut Vec<u8>, value: u64, count: usize)
    requires
        count <= 8,
    ensures
        final(output)@ == old(output)@ + le_bytes(value as nat, count as nat),
{
    let mut rest: u64 = value;
    let mut written: usize = 0;
    assert(output@ + le_bytes(rest as nat, count as nat) =~= old(output)@ + le_bytes(
        value as nat,
        count as nat,
    ));
    while written < count
        invariant
            written <= count <= 8,
            output@ + le_bytes(rest as nat, (count - written) as nat) == old(output)@ + le_bytes(
                value as nat,
                count as nat,
            ),
        decreases count - written,
    {
        let ghost before = output@;
        output.push((rest % 256) as u8);
        assert(before + le_bytes(rest as nat, (count - written) as nat) =~= output@ + le_bytes(
            (rest / 256) as nat,
            (count - written - 1) as nat,
        ));
        rest = rest / 256;
        written = written + 1;
    }
    assert(output@ + le_bytes(rest as nat, 0) =~= output@);
}

/// Decode the `count` bytes of `source` that start at `offset`.
pub fn read_le(source: &[u8], offset: usize, count: usize) -> (value: u64)
    requires
        count <= 8,
        offset + count <= source@.len(),
    ensures
        value as nat == field(source@, offset as int, count as int),
        value < byte_capacity(count as nat),
{
    let mut value: u64 = 0;
    let mut remaining: usize = count;
    let available: usize = source.len();
    proof {
        lemma_byte_capacities();
        assert(source@.subrange(offset + count, offset + count) =~= Seq::empty());
    }
    while remaining > 0
        invariant
            remaining <= count <= 8,
            offset + count <= available,
            available == source@.len(),
            value as nat == le_value(source@.subrange(offset + remaining, offset + count)),
        decreases remaining,
    {
        let ghost tail = source@.subrange(offset + remaining, offset + count);
        let ghost longer = source@.subrange(offset + remaining - 1, offset + count);
        proof {
            assert(longer.drop_first() =~= tail);
            lemma_le_value_bound(longer);
            lemma_capacity_monotonic(longer.len(), 8);
            lemma_byte_capacities();
        }
        remaining = remaining - 1;
        let position: usize = offset + remaining;
        value = source[position] as u64 + 256 * value;
    }
    proof {
        lemma_le_value_bound(source@.subrange(offset as int, offset + count));
    }
    value
}

pub proof fn lemma_capacity_monotonic(lower: nat, upper: nat)
    requires
        lower <= upper,
    ensures
        byte_capacity(lower) <= byte_capacity(upper),
    decreases upper,
{
    if lower < upper {
        lemma_capacity_monotonic(lower, (upper - 1) as nat);
    }
}

/// Append a copy of `source` to `output`.
pub fn append_slice(output: &mut Vec<u8>, source: &[u8])
    ensures
        final(output)@ == old(output)@ + source@,
{
    output.extend_from_slice(source);
    assert(output@ =~= old(output)@ + source@);
}

/// The number that the `count` bytes of `source` at `offset` denote.
pub open spec fn field(source: Seq<u8>, offset: int, count: int) -> nat {
    le_value(source.subrange(offset, offset + count))
}

/// A field that was written as the encoding of `value` reads as `value`.
pub proof fn lemma_field(source: Seq<u8>, offset: int, count: int, value: nat)
    requires
        0 <= offset,
        0 <= count,
        offset + count <= source.len(),
        source.subrange(offset, offset + count) == le_bytes(value, count as nat),
        value < byte_capacity(count as nat),
    ensures
        field(source, offset, count) == value,
{
    lemma_le_round_trip(value, count as nat);
}

/// Two adjacent parts make up the whole.
pub proof fn lemma_adjacent(source: Seq<u8>, middle: int, end: int)
    requires
        0 <= middle <= end <= source.len(),
    ensures
        source.subrange(0, middle) + source.subrange(middle, end) == source.subrange(0, end),
{
    assert(source.subrange(0, middle) + source.subrange(middle, end) =~= source.subrange(0, end));
}

/// `count` zero bytes.
pub open spec fn zeros(count: nat) -> Seq<u8> {
    Seq::new(count, |i: int| 0u8)
}

/// A buffer of `count` zero bytes.
pub fn zeroed_buffer(count: usize) -> (buffer: Vec<u8>)
    ensures
        buffer@ == zeros(count as nat),
{
    let buffer = vec![0u8; count];
    assert(buffer@ =~= zeros(count as nat));
    buffer
}

/// Whether two byte strings are equal.
pub fn bytes_equal(left: &[u8], right: &[u8]) -> (equal: bool)
    ensures
        equal == (left@ == right@),
{
    if left.len() != right.len() {
        return false;
    }
    let mut index: usize = 0;
    while index < left.len()
        invariant
            left@.len() == right@.len(),
            index <= left@.len(),
            forall|i: int| 0 <= i < index ==> left@[i] == right@[i],
        decreases left@.len() - index,
    {
        if left[index] != right[index] {
            return false;
        }
        index = index + 1;
    }
    assert(left@ =~= right@);
    true
}

/// The first `N` bytes of `source`.
pub fn to_array<const N: usize>(source: &[u8]) -> (result: [u8; N])
    requires
        source@.len() >= N,
    ensures
        result@ == source@.take(N as int),
{
    let mut result: [u8; N] = [0u8;N];
    let mut index: usize = 0;
    while index < N
        invariant
            index <= N,
            source@.len() >= N,
            forall|i: int| 0 <= i < index ==> result@[i] == source@[i],
        decreases N - index,
    {
        result[index] = source[index];
        index = index + 1;
    }
    assert(result@ =~= source@.take(N as int));
    result
}

/// Numbers with the same encoding are equal.
pub proof fn lemma_le_bytes_injective(left: nat, right: nat, count: nat)
    requires
        left < byte_capacity(count),
        right < byte_capacity(count),
        le_bytes(left, count) == le_bytes(right, count),
    ensures
        left == right,
{
    lemma_le_round_trip(left, count);
    lemma_le_round_trip(right, count);
}

} // verus!
