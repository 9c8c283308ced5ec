//! Little-endian integers and decimal text in byte strings.

use vstd::prelude::*;

verus! {

/// The unsigned 16-bit integer stored at `at`, low byte first.
pub open spec fn le16_at(bytes: Seq<u8>, at: int) -> u16 {
    (bytes[at] + 256 * bytes[at + 1]) as u16
}

/// The unsigned 32-bit integer stored at `at`, low byte first.
pub open spec fn le32_at(bytes: Seq<u8>, at: int) -> u32 {
    (bytes[at] + 0x100 * bytes[at + 1] + 0x1_0000 * bytes[at + 2] + 0x100_0000 * bytes[at
        + 3]) as u32
}

/// The unsigned 64-bit integer stored at `at`, low byte first.
pub open spec fn le64_at(bytes: Seq<u8>, at: int) -> u64 {
    (le32_at(bytes, at) + 0x1_0000_0000 * le32_at(bytes, at + 4)) as u64
}

/// The two bytes of `value`, low byte first.
pub open spec fn le16(value: u16) -> Seq<u8> {
    seq![(value % 256) as u8, (value / 256) as u8]
}

/// The four bytes of `value`, low byte first.
pub open spec fn le32(value: u32) -> Seq<u8> {
    seq![
        (value % 0x100) as u8,
        (value / 0x100 % 0x100) as u8,
        (value / 0x1_0000 % 0x100) as u8,
        (value / 0x100_0000) as u8,
    ]
}

/// The eight bytes of `value`, low byte first.
pub open spec fn le64(value: u64) -> Seq<u8> {
    le32((value % 0x1_0000_0000) as u32) + le32((value / 0x1_0000_0000) as u32)
}

/// The four bytes of a signed value in two's complement, low byte first.
pub open spec fn le32_signed(value: i32) -> Seq<u8> {
    le32(value as u32)
}

/// Reading back a written 16-bit integer gives the integer.
pub proof fn law_le16_round_trip(value: u16)
    ensures
        le16(value).len() == 2,
        le16_at(le16(value), 0) == value,
{
}

/// Reading back a written 32-bit integer gives the integer, signed or not.
pub proof fn law_le32_round_trip(value: u32, signed: i32)
    ensures
        le32(value).len() == 4,
        le32_at(le32(value), 0) == value,
        le32_at(le32_signed(signed), 0) as i32 == signed,
{
    lemma_le32(value);
    lemma_le32(signed as u32);
    assert((signed as u32) as i32 == signed) by (bit_vector);
}

proof fn lemma_le32(value: u32)
    ensures
        le32_at(le32(value), 0) == value,
{
    let b = le32(value);
    assert(b[0] == value % 0x100);
    assert(b[1] == value / 0x100 % 0x100);
    assert(b[2] == value / 0x1_0000 % 0x100);
    assert(b[3] == value / 0x100_0000);
    assert(value % 0x100 + 0x100 * (value / 0x100 % 0x100) + 0x1_0000 * (value / 0x1_0000 % 0x100)
        + 0x100_0000 * (value / 0x100_0000) == value) by (bit_vector);
}

/// The four bytes of a number that was read are those that were read.
pub proof fn lemma_le32_at_bytes(s: Seq<u8>, at: int, b: int)
    requires
        0 <= b < 4,
    ensures
        le32(le32_at(s, at))[b] == s[at + b],
{
    let (b0, b1, b2, b3) = (s[at], s[at + 1], s[at + 2], s[at + 3]);
    let v = b0 as u32 + 0x100 * b1 as u32 + 0x1_0000 * b2 as u32 + 0x100_0000 * b3 as u32;
    assert(v % 0x100 == b0 && v / 0x100 % 0x100 == b1 && v / 0x1_0000 % 0x100 == b2 && v
        / 0x100_0000 == b3);
    assert(v == le32_at(s, at));
}

pub fn read_u16(bytes: &[u8], at: usize) -> (value: u16)
    requires
        at + 2 <= bytes@.len(),
    ensures
        value == le16_at(bytes@, at as int),
{
    bytes[at] as u16 + 256 * (bytes[at + 1] as u16)
}

pub fn read_u32(bytes: &[u8], at: usize) -> (value: u32)
    requires
        at + 4 <= bytes@.len(),
    ensures
        value == le32_at(bytes@, at as int),
{
    bytes[at] as u32 + 0x100 * (bytes[at + 1] as u32) + 0x1_0000 * (bytes[at + 2] as u32)
        + 0x100_0000 * (bytes[at + 3] as u32)
}

pub fn read_i32(bytes: &[u8], at: usize) -> (value: i32)
    requires
        at + 4 <= bytes@.len(),
    ensures
        value == le32_at(bytes@, at as int) as i32,
{
    read_u32(bytes, at) as i32
}

pub fn read_u64(bytes: &[u8], at: usize) -> (value: u64)
    requires
        at + 8 <= bytes@.len(),
    ensures
        value == le64_at(bytes@, at as int),
{
    assert(at + 8 <= bytes.len());
    let low: u32 = read_u32(bytes, at);
    let high: u32 = read_u32(bytes, at + 4);
    low as u64 + 0x1_0000_0000 * (high as u64)
}

pub fn push_u16(out: &mut Vec<u8>, value: u16)
    ensures
        final(out)@ == old(out)@ + le16(value),
{
    out.push((value % 256) as u8);
    out.push((value / 256) as u8);
    proof {
        assert(out@ =~= old(out)@ + le16(value));
    }
}

pub fn push_u32(out: &mut Vec<u8>, value: u32)
    ensures
        final(out)@ == old(out)@ + le32(value),
{
    out.push((value % 0x100) as u8);
    out.push((value / 0x100 % 0x100) as u8);
    out.push((value / 0x1_0000 % 0x100) as u8);
    out.push((value / 0x100_0000) as u8);
    proof {
        assert(out@ =~= old(out)@ + le32(value));
    }
}

pub fn push_u64(out: &mut Vec<u8>, value: u64)
    ensures
        final(out)@ == old(out)@ + le64(value),
{
    push_u32(out, (value % 0x1_0000_0000) as u32);
    push_u32(out, (value / 0x1_0000_0000) as u32);
    proof {
        assert(out@ =~= old(out)@ + le64(value));
    }
}

pub fn push_i32(out: &mut Vec<u8>, value: i32)
    ensures
        final(out)@ == old(out)@ + le32_signed(value),
{
    push_u32(out, value as u32);
}

/// Appends the bytes of `tail`.
pub fn push_bytes(out: &mut Vec<u8>, tail: &[u8])
    ensures
        final(out)@ == old(out)@ + tail@,
{
    out.extend_from_slice(tail);
    proof {
        assert(out@ =~= old(out)@ + tail@);
    }
}

/// The decimal digits of `value`, without leading zeros.
pub open spec fn decimal(value: nat) -> Seq<u8>
    decreases value,
{
    if value < 10 {
        seq![(0x30 + value) as u8]
    } else {
        decimal(value / 10).push((0x30 + value % 10) as u8)
    }
}

pub fn push_decimal(out: &mut Vec<u8>, value: u64)
    ensures
        final(out)@ == old(out)@ + decimal(value as nat),
    decreases value,
{
    if value < 10 {
        out.push((0x30 + value) as u8);
        proof {
            assert(out@ =~= old(out)@ + decimal(value as nat));
        }
    } else {
        push_decimal(out, value / 10);
        out.push((0x30 + value % 10) as u8);
        proof {
            assert(out@ =~= old(out)@ + decimal(value as nat));
        }
    }
}

/// Whether two byte strings hold the same bytes.
pub fn same_bytes(a: &[u8], b: &[u8]) -> (r: bool)
    ensures
        r == (a@ == b@),
{
    if a.len() != b.len() {
        return false;
    }
    let mut i: usize = 0;
    while i < a.len()
        invariant
            i <= a@.len(),
            a@.len() == b@.len(),
            forall|j: int| 0 <= j < i ==> a@[j] == b@[j],
        decreases a@.len() - i,
    {
        if a[i] != b[i] {
            return false;
        }
        i += 1;
    }
    proof {
        assert(a@ =~= b@);
    }
    true
}

} // verus!
