//! Big-endian fields and byte-string primitives.

use vstd::prelude::*;

verus! {

/// The number that two bytes in network order stand for.
pub open spec fn be16_spec(high: u8, low: u8) -> int {
    high * 256 + low
}

/// The two bytes of `value` modulo 65536 in network order.
pub open spec fn be16_bytes(value: int) -> Seq<u8> {
    seq![((value / 256) % 256) as u8, (value % 256) as u8]
}

/// The four bytes of `value` modulo 2^32 in network order.
pub open spec fn be32_bytes(value: int) -> Seq<u8> {
    seq![
        ((value / 0x100_0000) % 256) as u8,
        ((value / 0x1_0000) % 256) as u8,
        ((value / 256) % 256) as u8,
        (value % 256) as u8,
    ]
}

/// The number that four bytes in network order stand for.
pub open spec fn be32_spec(bytes: Seq<u8>) -> int {
    bytes[0] * 0x100_0000 + bytes[1] * 0x1_0000 + bytes[2] * 256 + bytes[3]
}

/// `count` zero bytes.
pub open spec fn zeros(count: int) -> Seq<u8> {
    Seq::new(count as nat, |i: int| 0u8)
}

/// Reads a 16-bit field in network order.
pub fn be16(high: u8, low: u8) -> (value: u16)
    ensures
        value == be16_spec(high, low),
        value / 256 == high,
        value % 256 == low,
{
    high as u16 * 256 + low as u16
}

/// Reads the 32-bit field in network order that starts at `at`.
pub fn be32_at(bytes: &[u8], at: usize) -> (value: u32)
    requires
        at + 4 <= bytes@.len(),
    ensures
        value == be32_spec(bytes@.subrange(at as int, at + 4)),
        value / 0x1_0000 == bytes@[at as int] * 256 + bytes@[at + 1],
        value % 0x1_0000 == bytes@[at + 2] * 256 + bytes@[at + 3],
{
    bytes[at] as u32 * 0x100_0000 + bytes[at + 1] as u32 * 0x1_0000 + bytes[at + 2] as u32 * 256
        + bytes[at + 3] as u32
}

/// Appends a 16-bit field in network order.
pub fn push_be16(out: &mut Vec<u8>, value: u16)
    ensures
        final(out)@ == old(out)@ + be16_bytes(value as int),
{
    out.push((value / 256) as u8);
    out.push((value % 256) as u8);
    assert(out@ =~= old(out)@ + be16_bytes(value as int));
}

/// Appends a 32-bit field in network order.
pub fn push_be32(out: &mut Vec<u8>, value: u32)
    ensures
        final(out)@ == old(out)@ + be32_bytes(value as int),
{
    out.push((value / 0x100_0000) as u8);
    out.push(((value / 0x1_0000) % 256) as u8);
    out.push(((value / 256) % 256) as u8);
    out.push((value % 256) as u8);
    assert(out@ =~= old(out)@ + be32_bytes(value as int));
}

/// Appends a byte string.
pub fn push_bytes(out: &mut Vec<u8>, bytes: &[u8])
    ensures
        final(out)@ == old(out)@ + bytes@,
{
    out.extend_from_slice(bytes);
    assert(out@ =~= old(out)@ + bytes@);
}

/// Copies a byte string over another of the same length.
pub fn copy_bytes(target: &mut [u8], source: &[u8])
    requires
        old(target)@.len() == source@.len(),
    ensures
        final(target)@ == source@,
{
    let mut i: usize = 0;
    while i < source.len()
        invariant
            i <= source@.len(),
            target@.len() == source@.len(),
            target@.take(i as int) =~= source@.take(i as int),
        decreases source@.len() - i,
    {
        target[i] = source[i];
        i += 1;
    }
    assert(target@ =~= source@) by {
        assert(target@.take(i as int) =~= target@);
        assert(source@.take(i as int) =~= source@);
    }
}

/// Compares two byte strings.
pub fn same_bytes(left: &[u8], right: &[u8]) -> (same: bool)
    ensures
        same == (left@ == right@),
{
    if left.len() != right.len() {
        return false;
    }
    let mut i: usize = 0;
    while i < left.len()
        invariant
            i <= left@.len(),
            left@.len() == right@.len(),
            left@.take(i as int) =~= right@.take(i as int),
        decreases left@.len() - i,
    {
        if left[i] != right[i] {
            return false;
        }
        i += 1;
    }
    assert(left@.take(i as int) =~= left@);
    assert(right@.take(i as int) =~= right@);
    true
}

/// Copies the six bytes that start at `at`.
pub fn array6_at(bytes: &[u8], at: usize) -> (array: [u8; 6])
    requires
        at + 6 <= bytes@.len(),
    ensures
        array@ == bytes@.subrange(at as int, at + 6),
{
    let array = [
        bytes[at],
        bytes[at + 1],
        bytes[at + 2],
        bytes[at + 3],
        bytes[at + 4],
        bytes[at + 5],
    ];
    assert(array@ =~= bytes@.subrange(at as int, at + 6));
    array
}

/// Copies the sixteen bytes that start at `at`.
pub fn array16_at(bytes: &[u8], at: usize) -> (array: [u8; 16])
    requires
        at + 16 <= bytes@.len(),
    ensures
        array@ == bytes@.subrange(at as int, at + 16),
{
    let array = [
        bytes[at],
        bytes[at + 1],
        bytes[at + 2],
        bytes[at + 3],
        bytes[at + 4],
        bytes[at + 5],
        bytes[at + 6],
        bytes[at + 7],
        bytes[at + 8],
        bytes[at + 9],
        bytes[at + 10],
        bytes[at + 11],
        bytes[at + 12],
        bytes[at + 13],
        bytes[at + 14],
        bytes[at + 15],
    ];
    assert(array@ =~= bytes@.subrange(at as int, at + 16));
    array
}

/// Writing a 16-bit field and reading it back gives the value.
pub proof fn be16_round_trip(value: int)
    requires
        0 <= value < 0x1_0000,
    ensures
        be16_spec(be16_bytes(value)[0], be16_bytes(value)[1]) == value,
{
}

/// Writing a 32-bit field and reading it back gives the value.
pub proof fn be32_round_trip(value: int)
    requires
        0 <= value < 0x1_0000_0000,
    ensures
        be32_spec(be32_bytes(value)) == value,
{
}

/// The bytes of a 16-bit field: the high one first.
pub proof fn be16_fields(value: int)
    requires
        0 <= value < 0x1_0000,
    ensures
        be16_bytes(value).len() == 2,
        be16_bytes(value)[0] * 256 + be16_bytes(value)[1] == value,
{
}

/// The bytes of a 32-bit field: those of its high half, then those of its low half.
pub proof fn be32_fields(value: int)
    requires
        0 <= value < 0x1_0000_0000,
    ensures
        be32_bytes(value).len() == 4,
        be32_bytes(value)[0] * 256 + be32_bytes(value)[1] == value / 0x1_0000,
        be32_bytes(value)[2] * 256 + be32_bytes(value)[3] == value % 0x1_0000,
{
}

} // verus!
