//! Integers as little-endian bytes.

use vstd::prelude::*;

verus! {

/// The bytes of `x`, lowest first.
pub open spec fn le32(x: u32) -> Seq<u8> {
    seq![
        (x & 0xff) as u8,
        ((x >> 8) & 0xff) as u8,
        ((x >> 16) & 0xff) as u8,
        ((x >> 24) & 0xff) as u8,
    ]
}

/// The number whose bytes, lowest first, are `s`.
pub open spec fn from_le32(s: Seq<u8>) -> u32 {
    (s[0] as u32) | (s[1] as u32) << 8 | (s[2] as u32) << 16 | (s[3] as u32) << 24
}

/// The bytes of `x`, lowest first.
pub open spec fn le64(x: u64) -> Seq<u8> {
    le32((x & 0xffff_ffff) as u32) + le32((x >> 32) as u32)
}

/// The number whose bytes, lowest first, are `s`.
pub open spec fn from_le64(s: Seq<u8>) -> u64 {
    (from_le32(s.take(4)) as u64) | (from_le32(s.skip(4)) as u64) << 32
}

/// A 32-bit number and its bytes determine each other.
pub proof fn le32_reads_back()
    ensures
        forall|x: u32| (#[trigger] le32(x)).len() == 4 && from_le32(le32(x)) == x,
        forall|s: Seq<u8>| s.len() == 4 ==> le32(#[trigger] from_le32(s)) == s,
{
    assert forall|x: u32| (#[trigger] le32(x)).len() == 4 && from_le32(le32(x)) == x by {
        assert((((x & 0xff) as u8) as u32) | ((((x >> 8) & 0xff) as u8) as u32) << 8 | ((((x >> 16)
            & 0xff) as u8) as u32) << 16 | ((((x >> 24) & 0xff) as u8) as u32) << 24 == x)
            by (bit_vector);
    }
    assert forall|s: Seq<u8>| s.len() == 4 implies le32(#[trigger] from_le32(s)) == s by {
        let (a, b, c, d) = (s[0], s[1], s[2], s[3]);
        let x = from_le32(s);
        assert(x == (a as u32) | (b as u32) << 8 | (c as u32) << 16 | (d as u32) << 24 ==> (x
            & 0xff) as u8 == a && ((x >> 8) & 0xff) as u8 == b && ((x >> 16) & 0xff) as u8 == c && ((
        x >> 24) & 0xff) as u8 == d) by (bit_vector);
        assert(le32(x) =~= s);
    }
}

/// A 64-bit number and its bytes determine each other.
pub proof fn le64_reads_back()
    ensures
        forall|x: u64| (#[trigger] le64(x)).len() == 8 && from_le64(le64(x)) == x,
        forall|s: Seq<u8>| s.len() == 8 ==> le64(#[trigger] from_le64(s)) == s,
{
    le32_reads_back();
    assert forall|x: u64| (#[trigger] le64(x)).len() == 8 && from_le64(le64(x)) == x by {
        let (low, high) = ((x & 0xffff_ffff) as u32, (x >> 32) as u32);
        assert(le64(x).take(4) =~= le32(low));
        assert(le64(x).skip(4) =~= le32(high));
        assert((((x & 0xffff_ffff) as u32) as u64) | (((x >> 32) as u32) as u64) << 32 == x)
            by (bit_vector);
    }
    assert forall|s: Seq<u8>| s.len() == 8 implies le64(#[trigger] from_le64(s)) == s by {
        let (low, high) = (from_le32(s.take(4)), from_le32(s.skip(4)));
        let x = from_le64(s);
        assert(x == (low as u64) | (high as u64) << 32 ==> (x & 0xffff_ffff) as u32 == low && (x
            >> 32) as u32 == high) by (bit_vector);
        assert(le64(x) =~= s);
    }
}

/// Each byte of a 32-bit number counts 256 times as much as the one before it.
pub proof fn le32_is_positional(x: u32)
    ensures
        le32(x).len() == 4,
        x == le32(x)[0] + 0x100 * le32(x)[1] + 0x1_0000 * le32(x)[2] + 0x100_0000 * le32(x)[3],
{
    assert((x & 0xff) == x % 256) by (bit_vector);
    assert(((x >> 8) & 0xff) == (x / 256) % 256) by (bit_vector);
    assert(((x >> 16) & 0xff) == (x / 65536) % 256) by (bit_vector);
    assert(((x >> 24) & 0xff) == x / 16777216) by (bit_vector);
}

/// Four bytes read as the number in which each counts 256 times as much as the one
/// before it.
pub proof fn from_le32_is_positional(s: Seq<u8>)
    requires
        s.len() == 4,
    ensures
        from_le32(s) == s[0] + 0x100 * s[1] + 0x1_0000 * s[2] + 0x100_0000 * s[3],
{
    le32_reads_back();
    assert(le32(from_le32(s)) == s);
    le32_is_positional(from_le32(s));
}

/// The first four bytes of a 64-bit number are its low half, the others its high half.
pub proof fn le64_is_positional(x: u64)
    ensures
        le64(x).len() == 8,
        exists|low: u32, high: u32|
            x == low + 0x1_0000_0000 * high && #[trigger] le32(low) == le64(x).take(4)
                && #[trigger] le32(high) == le64(x).skip(4),
{
    le32_reads_back();
    let (low, high) = ((x & 0xffff_ffff) as u32, (x >> 32) as u32);
    assert(le64(x).take(4) =~= le32(low));
    assert(le64(x).skip(4) =~= le32(high));
    assert((x & 0xffff_ffff) == x % 0x1_0000_0000 && x >> 32 == x / 0x1_0000_0000)
        by (bit_vector);
    assert(x == low + 0x1_0000_0000 * high);
}

/// Eight bytes read as the number whose low half the first four are.
pub proof fn from_le64_is_positional(s: Seq<u8>)
    requires
        s.len() == 8,
    ensures
        from_le64(s) == from_le32(s.take(4)) + 0x1_0000_0000 * from_le32(s.skip(4)),
{
    let (low, high) = (from_le32(s.take(4)), from_le32(s.skip(4)));
    assert(((low as u64) | (high as u64) << 32) == low as u64 + 0x1_0000_0000 * (high as u64))
        by (bit_vector);
}

/// The bytes of `x`, lowest first.
pub fn le32_bytes(x: u32) -> (bytes: Vec<u8>)
    ensures
        bytes@ == le32(x),
        bytes@.len() == 4,
{
    let bytes = vec![
        (x & 0xff) as u8,
        ((x >> 8) & 0xff) as u8,
        ((x >> 16) & 0xff) as u8,
        ((x >> 24) & 0xff) as u8,
    ];
    assert(bytes@ =~= le32(x));
    bytes
}

/// The number whose bytes, lowest first, are `s`.
pub fn read_le32(s: &[u8]) -> (x: u32)
    requires
        s@.len() == 4,
    ensures
        x == from_le32(s@),
{
    (s[0] as u32) | (s[1] as u32) << 8 | (s[2] as u32) << 16 | (s[3] as u32) << 24
}

/// The bytes of `x`, lowest first.
pub fn le64_bytes(x: u64) -> (bytes: Vec<u8>)
    ensures
        bytes@ == le64(x),
        bytes@.len() == 8,
{
    let mut bytes = le32_bytes((x & 0xffff_ffff) as u32);
    let high = le32_bytes((x >> 32) as u32);
    bytes.extend_from_slice(high.as_slice());
    assert(bytes@ =~= le64(x));
    bytes
}

/// The number whose bytes, lowest first, are `s`.
pub fn read_le64(s: &[u8]) -> (x: u64)
    requires
        s@.len() == 8,
    ensures
        x == from_le64(s@),
{
    let low = read_le32(vstd::slice::slice_subrange(s, 0, 4));
    let high = read_le32(vstd::slice::slice_subrange(s, 4, 8));
    assert(s@.subrange(0, 4) =~= s@.take(4));
    assert(s@.subrange(4, 8) =~= s@.skip(4));
    (low as u64) | (high as u64) << 32
}

} // verus!
