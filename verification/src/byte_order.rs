//! Numbers as bytes, least or most significant byte first.

use vstd::prelude::*;

verus! {

/// The number held by the first four bytes, least significant byte first.
pub open spec fn le4(s: Seq<u8>) -> nat {
    (s[0] + 0x100 * s[1] + 0x1_0000 * s[2] + 0x100_0000 * s[3]) as nat
}

/// The number held by the first eight bytes, least significant byte first.
pub open spec fn le8(s: Seq<u8>) -> nat {
    le4(s) + 0x1_0000_0000 * le4(s.skip(4))
}

/// The number held by the first sixteen bytes, least significant byte first.
pub open spec fn le16(s: Seq<u8>) -> nat {
    le8(s) + 0x1_0000_0000_0000_0000 * le8(s.skip(8))
}

/// The two bytes of `n`, most significant byte first.
pub open spec fn be2_bytes(n: nat) -> Seq<u8> {
    seq![((n / 0x100) % 0x100) as u8, (n % 0x100) as u8]
}

/// The four bytes of `n`, most significant byte first.
pub open spec fn be4_bytes(n: nat) -> Seq<u8> {
    be2_bytes(n / 0x1_0000) + be2_bytes(n % 0x1_0000)
}

/// The number held by the first two bytes, most significant byte first.
pub open spec fn be2(s: Seq<u8>) -> nat {
    (0x100 * s[0] + s[1]) as nat
}

/// The number held by the first four bytes, most significant byte first.
pub open spec fn be4(s: Seq<u8>) -> nat {
    0x1_0000 * be2(s) + be2(s.skip(2))
}

/// The four bytes of `n`, least significant byte first.
pub open spec fn le4_bytes(n: nat) -> Seq<u8> {
    seq![
        (n % 0x100) as u8,
        ((n / 0x100) % 0x100) as u8,
        ((n / 0x1_0000) % 0x100) as u8,
        ((n / 0x100_0000) % 0x100) as u8,
    ]
}

/// The eight bytes of `n`, least significant byte first.
pub open spec fn le8_bytes(n: nat) -> Seq<u8> {
    le4_bytes(n % 0x1_0000_0000) + le4_bytes(n / 0x1_0000_0000)
}

/// Two's complement reading of a sixteen bit pattern.
pub open spec fn signed16(n: nat) -> int {
    if n < 0x8000 {
        n as int
    } else {
        n - 0x1_0000
    }
}

/// Two's complement reading of a thirty-two bit pattern.
pub open spec fn signed32(n: nat) -> int {
    if n < 0x8000_0000 {
        n as int
    } else {
        n - 0x1_0000_0000
    }
}

/// Two's complement reading of a sixty-four bit pattern.
pub open spec fn signed64(n: nat) -> int {
    if n < 0x8000_0000_0000_0000 {
        n as int
    } else {
        n - 0x1_0000_0000_0000_0000
    }
}

/// Two's complement reading of a one hundred and twenty-eight bit pattern.
pub open spec fn signed128(n: nat) -> int {
    if n < 0x8000_0000_0000_0000_0000_0000_0000_0000 {
        n as int
    } else {
        n - 0x1_0000_0000_0000_0000_0000_0000_0000_0000
    }
}

/// Two's complement pattern of a sixteen bit number.
pub open spec fn unsigned16(v: int) -> nat {
    if v < 0 {
        (v + 0x1_0000) as nat
    } else {
        v as nat
    }
}

/// Two's complement pattern of a thirty-two bit number.
pub open spec fn unsigned32(v: int) -> nat {
    if v < 0 {
        (v + 0x1_0000_0000) as nat
    } else {
        v as nat
    }
}

/// Two's complement pattern of a sixty-four bit number.
pub open spec fn unsigned64(v: int) -> nat {
    if v < 0 {
        (v + 0x1_0000_0000_0000_0000) as nat
    } else {
        v as nat
    }
}

/// Four bytes written least significant first read back as the number they came from.
pub proof fn lemma_le4_round_trip(n: nat)
    requires
        n < 0x1_0000_0000,
    ensures
        le4_bytes(n).len() == 4,
        le4(le4_bytes(n)) == n,
{
}

/// Eight bytes written least significant first read back as the number they came from.
pub proof fn lemma_le8_round_trip(n: nat)
    requires
        n < 0x1_0000_0000_0000_0000,
    ensures
        le8_bytes(n).len() == 8,
        le8(le8_bytes(n)) == n,
{
    let lo = n % 0x1_0000_0000;
    let hi = n / 0x1_0000_0000;
    lemma_le4_round_trip(lo);
    lemma_le4_round_trip(hi);
    assert(le8_bytes(n).skip(4) =~= le4_bytes(hi));
    assert(le4(le8_bytes(n)) == le4(le4_bytes(lo)));
}

/// Two bytes written most significant first read back as the number they came from.
pub proof fn lemma_be2_round_trip(n: nat)
    requires
        n < 0x1_0000,
    ensures
        be2_bytes(n).len() == 2,
        be2(be2_bytes(n)) == n,
{
}

/// Four bytes written most significant first read back as the number they came from.
pub proof fn lemma_be4_round_trip(n: nat)
    requires
        n < 0x1_0000_0000,
    ensures
        be4_bytes(n).len() == 4,
        be4(be4_bytes(n)) == n,
{
    lemma_be2_round_trip(n / 0x1_0000);
    lemma_be2_round_trip(n % 0x1_0000);
    assert(be4_bytes(n).skip(2) =~= be2_bytes(n % 0x1_0000));
    assert(be2(be4_bytes(n)) == be2(be2_bytes(n / 0x1_0000)));
}

/// The number held by four bytes stays within thirty-two bits.
pub proof fn lemma_le4_bound(s: Seq<u8>)
    ensures
        le4(s) < 0x1_0000_0000,
{
}

/// Reads four bytes, least significant byte first.
pub(crate) fn read_u32_le(bytes: &[u8], at: usize) -> (value: u32)
    requires
        at + 4 <= bytes.len(),
    ensures
        value == le4(bytes@.skip(at as int)),
{
    let b0: u32 = bytes[at] as u32;
    let b1: u32 = bytes[at + 1] as u32;
    let b2: u32 = bytes[at + 2] as u32;
    let b3: u32 = bytes[at + 3] as u32;
    b0 + 0x100 * b1 + 0x1_0000 * b2 + 0x100_0000 * b3
}

/// Reads eight bytes, least significant byte first.
pub(crate) fn read_u64_le(bytes: &[u8], at: usize) -> (value: u64)
    requires
        at + 8 <= bytes.len(),
    ensures
        value == le8(bytes@.skip(at as int)),
{
    let lo: u64 = read_u32_le(bytes, at) as u64;
    let hi: u64 = read_u32_le(bytes, at + 4) as u64;
    assert(bytes@.skip(at as int).skip(4) =~= bytes@.skip(at + 4));
    lo + 0x1_0000_0000 * hi
}

/// Reads sixteen bytes, least significant byte first.
pub(crate) fn read_u128_le(bytes: &[u8], at: usize) -> (value: u128)
    requires
        at + 16 <= bytes.len(),
    ensures
        value == le16(bytes@.skip(at as int)),
{
    let lo: u128 = read_u64_le(bytes, at) as u128;
    let hi: u128 = read_u64_le(bytes, at + 8) as u128;
    assert(bytes@.skip(at as int).skip(8) =~= bytes@.skip(at + 8));
    lo + 0x1_0000_0000_0000_0000 * hi
}

/// The signed number of a pattern of sixteen bits.
pub(crate) fn to_i16(pattern: u16) -> (value: i16)
    ensures
        value == signed16(pattern as nat),
{
    if pattern < 0x8000 {
        pattern as i16
    } else {
        -((0xffff - pattern) as i16) - 1
    }
}

/// The signed number of a pattern of thirty-two bits.
pub(crate) fn to_i32(pattern: u32) -> (value: i32)
    ensures
        value == signed32(pattern as nat),
{
    if pattern < 0x8000_0000 {
        pattern as i32
    } else {
        -((0xffff_ffff - pattern) as i32) - 1
    }
}

/// The signed number of a pattern of sixty-four bits.
pub(crate) fn to_i64(pattern: u64) -> (value: i64)
    ensures
        value == signed64(pattern as nat),
{
    if pattern < 0x8000_0000_0000_0000 {
        pattern as i64
    } else {
        -((0xffff_ffff_ffff_ffff - pattern) as i64) - 1
    }
}

/// The signed number of a pattern of one hundred and twenty-eight bits.
pub(crate) fn to_i128(pattern: u128) -> (value: i128)
    ensures
        value == signed128(pattern as nat),
{
    if pattern < 0x8000_0000_0000_0000_0000_0000_0000_0000 {
        pattern as i128
    } else {
        -((0xffff_ffff_ffff_ffff_ffff_ffff_ffff_ffff - pattern) as i128) - 1
    }
}

/// The pattern of a signed number of sixteen bits.
pub(crate) fn from_i16(value: i16) -> (pattern: u16)
    ensures
        pattern == unsigned16(value as int),
{
    if value < 0 {
        0xffff - (-(value + 1)) as u16
    } else {
        value as u16
    }
}

/// The pattern of a signed number of thirty-two bits.
pub(crate) fn from_i32(value: i32) -> (pattern: u32)
    ensures
        pattern == unsigned32(value as int),
{
    if value < 0 {
        0xffff_ffff - (-(value + 1)) as u32
    } else {
        value as u32
    }
}

/// The pattern of a signed number of sixty-four bits.
pub(crate) fn from_i64(value: i64) -> (pattern: u64)
    ensures
        pattern == unsigned64(value as int),
{
    if value < 0 {
        0xffff_ffff_ffff_ffff - (-(value + 1)) as u64
    } else {
        value as u64
    }
}

/// Appends the four bytes of `value`, least significant first.
pub(crate) fn push_u32_le(out: &mut Vec<u8>, value: u32)
    ensures
        final(out)@ == old(out)@ + le4_bytes(value as nat),
{
    out.push((value % 0x100) as u8);
    out.push(((value / 0x100) % 0x100) as u8);
    out.push(((value / 0x1_0000) % 0x100) as u8);
    out.push(((value / 0x100_0000) % 0x100) as u8);
    assert(out@ =~= old(out)@ + le4_bytes(value as nat));
}

/// Appends the eight bytes of `value`, least significant first.
pub(crate) fn push_i64_le(out: &mut Vec<u8>, value: i64)
    ensures
        final(out)@ == old(out)@ + le8_bytes(unsigned64(value as int)),
{
    let pattern: u64 = from_i64(value);
    push_u32_le(out, (pattern % 0x1_0000_0000) as u32);
    push_u32_le(out, (pattern / 0x1_0000_0000) as u32);
    assert(out@ =~= old(out)@ + le8_bytes(unsigned64(value as int)));
}

/// Sixteen bytes written least significant first read back as the number they came from.
pub proof fn lemma_le16_round_trip(n: nat)
    requires
        n < 0x1_0000_0000_0000_0000_0000_0000_0000_0000,
    ensures
        ({
            let bytes = le8_bytes(n % 0x1_0000_0000_0000_0000) + le8_bytes(
                n / 0x1_0000_0000_0000_0000,
            );
            bytes.len() == 16 && le16(bytes) == n
        }),
{
    let lo = n % 0x1_0000_0000_0000_0000;
    let hi = n / 0x1_0000_0000_0000_0000;
    lemma_le8_round_trip(lo);
    lemma_le8_round_trip(hi);
    let low = le8_bytes(lo);
    let bytes = low + le8_bytes(hi);
    assert(bytes.skip(8) =~= le8_bytes(hi));
    assert(le4(bytes) == le4(low));
    assert(bytes.skip(4)[0] == low.skip(4)[0]);
    assert(bytes.skip(4)[1] == low.skip(4)[1]);
    assert(bytes.skip(4)[2] == low.skip(4)[2]);
    assert(bytes.skip(4)[3] == low.skip(4)[3]);
    assert(le4(bytes.skip(4)) == le4(low.skip(4)));
}

/// Numbers are read least significant byte first: the first byte counts once, and each one behind
/// it two hundred and fifty-six times what the one before it counts.
pub proof fn law_least_significant_byte_first(s: Seq<u8>)
    requires
        s.len() >= 16,
    ensures
        le4(s) % 0x100 == s[0],
        (le4(s) / 0x100) % 0x100 == s[1],
        (le4(s) / 0x1_0000) % 0x100 == s[2],
        le4(s) / 0x100_0000 == s[3],
        le8(s) % 0x1_0000_0000 == le4(s),
        le8(s) / 0x1_0000_0000 == le4(s.subrange(4, 8)),
        le16(s) % 0x1_0000_0000_0000_0000 == le8(s),
        le16(s) / 0x1_0000_0000_0000_0000 == le8(s.subrange(8, 16)),
{
    lemma_le4_bound(s);
    lemma_le4_bound(s.skip(4));
    lemma_le4_bound(s.skip(8));
    lemma_le4_bound(s.skip(8).skip(4));
    assert(le4(s.skip(4)) == le4(s.subrange(4, 8)));
    assert(s.skip(8).skip(4) =~= s.skip(12));
    assert(s.subrange(8, 16).skip(4) =~= s.subrange(12, 16));
    assert(le4(s.skip(12)) == le4(s.subrange(12, 16)));
    assert(le4(s.skip(8)) == le4(s.subrange(8, 16)));
    assert(le8(s.skip(8)) == le8(s.subrange(8, 16)));
}

/// Numbers of messages are read and written most significant byte first.
pub proof fn law_most_significant_byte_first(s: Seq<u8>, n: nat)
    requires
        s.len() >= 4,
        n < 0x1_0000_0000,
    ensures
        be2(s) / 0x100 == s[0],
        be2(s) % 0x100 == s[1],
        be4(s) / 0x1_0000 == be2(s),
        be4(s) % 0x1_0000 == be2(s.subrange(2, 4)),
        be4_bytes(n).len() == 4,
        be4_bytes(n)[0] == n / 0x100_0000,
        be4_bytes(n)[1] == (n / 0x1_0000) % 0x100,
        be4_bytes(n)[2] == (n / 0x100) % 0x100,
        be4_bytes(n)[3] == n % 0x100,
        n < 0x1_0000 ==> be2_bytes(n)[0] == n / 0x100 && be2_bytes(n)[1] == n % 0x100,
{
    assert(be2(s.skip(2)) == be2(s.subrange(2, 4)));
}

/// The upper half of the numbers of a size stands for the negative ones: a number and the integer
/// it stands for differ by a multiple of all numbers of that size, and reading undoes writing.
pub proof fn law_negative_numbers(n: nat, v: int)
    ensures
        n < 0x1_0000 ==> -0x8000 <= signed16(n) < 0x8000 && (n - signed16(n) == 0 || n - signed16(n)
            == 0x1_0000),
        n < 0x1_0000_0000 ==> -0x8000_0000 <= signed32(n) < 0x8000_0000 && (n - signed32(n) == 0
            || n - signed32(n) == 0x1_0000_0000),
        n < 0x1_0000_0000_0000_0000 ==> -0x8000_0000_0000_0000 <= signed64(n)
            < 0x8000_0000_0000_0000 && (n - signed64(n) == 0 || n - signed64(n)
            == 0x1_0000_0000_0000_0000),
        n < 0x1_0000_0000_0000_0000_0000_0000_0000_0000 ==> i128::MIN <= signed128(n) <= i128::MAX
            && (n - signed128(n) == 0 || n - signed128(n)
            == 0x1_0000_0000_0000_0000_0000_0000_0000_0000),
        -0x8000 <= v < 0x8000 ==> signed16(unsigned16(v)) == v,
        -0x8000_0000 <= v < 0x8000_0000 ==> signed32(unsigned32(v)) == v,
        -0x8000_0000_0000_0000 <= v < 0x8000_0000_0000_0000 ==> signed64(unsigned64(v)) == v,
{
}

} // verus!
