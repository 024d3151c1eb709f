//! CRC32C, the checksum of every record.
//!
//! The checksum is a remainder of polynomial division. A register of 32 bits takes in
//! the bytes one by one, lowest bit first; it begins with all bits set, and the
//! checksum is its complement at the end.

use vstd::prelude::*;

verus! {

/// The register after one bit was shifted out: the (reflected) Castagnoli polynomial
/// is subtracted if the bit was set.
pub open spec fn bit_step(r: u32) -> u32 {
    if r & 1 == 1 {
        (r >> 1) ^ 0x82F6_3B78
    } else {
        r >> 1
    }
}

/// The register after it took in `byte`.
pub open spec fn byte_step(r: u32, byte: u8) -> u32 {
    bit_step(
        bit_step(
            bit_step(bit_step(bit_step(bit_step(bit_step(bit_step(r ^ (byte as u32))))))),
        ),
    )
}

/// The register after it took in `data`.
pub open spec fn register(r: u32, data: Seq<u8>) -> u32
    decreases data.len(),
{
    if data.len() == 0 {
        r
    } else {
        byte_step(register(r, data.drop_last()), data.last())
    }
}

/// The CRC32C of `data`.
pub open spec fn crc32c_of(data: Seq<u8>) -> u32 {
    !register(0xFFFF_FFFF, data)
}

/// The checksum `crc` carried on over `data`.
pub open spec fn crc32c_appended(crc: u32, data: Seq<u8>) -> u32 {
    !register(!crc, data)
}

/// Taking in some bytes and then others is taking in both.
proof fn register_joins(r: u32, a: Seq<u8>, b: Seq<u8>)
    ensures
        register(r, a + b) == register(register(r, a), b),
    decreases b.len(),
{
    if b.len() == 0 {
        assert(a + b =~= a);
    } else {
        assert((a + b).drop_last() =~= a + b.drop_last());
        register_joins(r, a, b.drop_last());
    }
}

/// Carrying on the checksum of some bytes gives the checksum of those bytes followed
/// by the others.
pub proof fn checksum_streams(before: Seq<u8>, data: Seq<u8>)
    ensures
        crc32c_appended(crc32c_of(before), data) == crc32c_of(before + data),
{
    let r = register(0xFFFF_FFFF, before);
    assert(!(!r) == r) by (bit_vector);
    register_joins(0xFFFF_FFFF, before, data);
}

/// No bytes have the checksum zero, and each byte that follows is taken in by itself: its
/// eight bits go through the register, lowest first, and for each one that comes out set
/// the polynomial is subtracted.
pub proof fn the_checksum_takes_in_byte_by_byte(data: Seq<u8>, byte: u8, r: u32)
    ensures
        crc32c_of(Seq::empty()) == 0,
        crc32c_of(data.push(byte)) == !byte_step(!crc32c_of(data), byte),
        crc32c_appended(r, seq![byte]) == !byte_step(!r, byte),
        bit_step(r) == (r >> 1) || bit_step(r) == (r >> 1) ^ 0x82F6_3B78,
        bit_step(r) == (r >> 1) <==> r % 2 == 0,
{
    let state = register(0xFFFF_FFFF, data);
    assert(!(!state) == state && !0xFFFF_FFFFu32 == 0) by (bit_vector);
    assert(data.push(byte).drop_last() =~= data);
    assert(seq![byte].drop_last() =~= Seq::<u8>::empty());
    assert(register(!r, Seq::empty()) == !r);
    assert(r & 1 == r % 2 && (r >> 1) ^ 0x82F6_3B78 != r >> 1) by (bit_vector);
}

/// Different registers stay different whatever byte they take in, and different bytes
/// lead a register to different places.
proof fn bytes_tell_apart(r: u32, s: u32, x: u8, y: u8)
    ensures
        r != s ==> byte_step(r, x) != byte_step(s, x),
        x != y ==> byte_step(r, x) != byte_step(r, y),
{
    bits_tell_apart();
    assert(r != s ==> r ^ (x as u32) != s ^ (x as u32)) by (bit_vector);
    assert(x != y ==> r ^ (x as u32) != r ^ (y as u32)) by (bit_vector);
}

/// Different registers stay different when a bit is shifted out.
proof fn bits_tell_apart()
    ensures
        forall|r: u32, s: u32| r != s ==> #[trigger] bit_step(r) != #[trigger] bit_step(s),
{
    assert forall|r: u32, s: u32| r != s implies #[trigger] bit_step(r)
        != #[trigger] bit_step(s) by {
        assert(r != s ==> (if r & 1 == 1 {
            (r >> 1) ^ 0x82F6_3B78
        } else {
            r >> 1
        }) != (if s & 1 == 1 {
            (s >> 1) ^ 0x82F6_3B78
        } else {
            s >> 1
        })) by (bit_vector);
    }
}

/// Different registers stay different whatever bytes they take in.
proof fn registers_stay_apart(r: u32, s: u32, data: Seq<u8>)
    requires
        r != s,
    ensures
        register(r, data) != register(s, data),
    decreases data.len(),
{
    if data.len() > 0 {
        registers_stay_apart(r, s, data.drop_last());
        bytes_tell_apart(
            register(r, data.drop_last()),
            register(s, data.drop_last()),
            data.last(),
            data.last(),
        );
    }
}

/// A byte that is changed changes the checksum.
pub proof fn changed_byte_is_noticed(data: Seq<u8>, i: int, byte: u8)
    requires
        0 <= i < data.len(),
        byte != data[i],
    ensures
        crc32c_of(data.update(i, byte)) != crc32c_of(data),
{
    let start = 0xFFFF_FFFFu32;
    let (head, tail) = (data.take(i), data.skip(i + 1));
    let r = register(start, head);
    bytes_tell_apart(r, r, data[i], byte);
    let (good, bad) = (data.take(i + 1), data.update(i, byte).take(i + 1));
    assert(good.drop_last() =~= head);
    assert(bad.drop_last() =~= head);
    assert(data =~= good + tail);
    assert(data.update(i, byte) =~= bad + tail);
    register_joins(start, good, tail);
    register_joins(start, bad, tail);
    registers_stay_apart(register(start, good), register(start, bad), tail);
    let (x, y) = (register(start, data), register(start, data.update(i, byte)));
    assert(x != y ==> !x != !y) by (bit_vector);
}

/// The checksum of the digits from one to nine is the published check value.
pub proof fn check_value()
    ensures
        crc32c_of(seq![0x31u8, 0x32, 0x33, 0x34, 0x35, 0x36, 0x37, 0x38, 0x39]) == 0xE306_9283,
{
    let digits = seq![0x31u8, 0x32, 0x33, 0x34, 0x35, 0x36, 0x37, 0x38, 0x39];
    assert(byte_step(0xFFFFFFFFu32, 49) == 0x6F0A661Cu32) by (bit_vector);
    assert(byte_step(0x6F0A661Cu32, 50) == 0x8CAA3B9Fu32) by (bit_vector);
    assert(byte_step(0x8CAA3B9Fu32, 51) == 0xEF84D04Du32) by (bit_vector);
    assert(byte_step(0xEF84D04Du32, 52) == 0x09C50B11u32) by (bit_vector);
    assert(byte_step(0x09C50B11u32, 53) == 0xE72EDCCAu32) by (bit_vector);
    assert(byte_step(0xE72EDCCAu32, 54) == 0xBECA8E79u32) by (bit_vector);
    assert(byte_step(0xBECA8E79u32, 55) == 0xEDBD6815u32) by (bit_vector);
    assert(byte_step(0xEDBD6815u32, 56) == 0x9F787F65u32) by (bit_vector);
    assert(byte_step(0x9F787F65u32, 57) == 0x1CF96D7Cu32) by (bit_vector);
    assert(register(0xFFFF_FFFF, digits.take(0)) == 0xFFFF_FFFF);
    assert(digits.take(1).drop_last() =~= digits.take(0));
    assert(register(0xFFFF_FFFF, digits.take(1)) == 0x6F0A661C);
    assert(digits.take(2).drop_last() =~= digits.take(1));
    assert(register(0xFFFF_FFFF, digits.take(2)) == 0x8CAA3B9F);
    assert(digits.take(3).drop_last() =~= digits.take(2));
    assert(register(0xFFFF_FFFF, digits.take(3)) == 0xEF84D04D);
    assert(digits.take(4).drop_last() =~= digits.take(3));
    assert(register(0xFFFF_FFFF, digits.take(4)) == 0x09C50B11);
    assert(digits.take(5).drop_last() =~= digits.take(4));
    assert(register(0xFFFF_FFFF, digits.take(5)) == 0xE72EDCCA);
    assert(digits.take(6).drop_last() =~= digits.take(5));
    assert(register(0xFFFF_FFFF, digits.take(6)) == 0xBECA8E79);
    assert(digits.take(7).drop_last() =~= digits.take(6));
    assert(register(0xFFFF_FFFF, digits.take(7)) == 0xEDBD6815);
    assert(digits.take(8).drop_last() =~= digits.take(7));
    assert(register(0xFFFF_FFFF, digits.take(8)) == 0x9F787F65);
    assert(digits.take(9).drop_last() =~= digits.take(8));
    assert(register(0xFFFF_FFFF, digits.take(9)) == 0x1CF96D7C);
    assert(digits.take(9) =~= digits);
    assert(!0x1CF96D7Cu32 == 0xE306_9283) by (bit_vector);
}

/// The checksum of an empty record's length field is not zero.
pub proof fn zeros_do_not_check()
    ensures
        crc32c_of(seq![0u8, 0, 0, 0]) != 0,
{
    let zeros = seq![0u8, 0, 0, 0];
    assert(byte_step(0xFFFFFFFFu32, 0) == 0xAD82ACAEu32) by (bit_vector);
    assert(byte_step(0xAD82ACAEu32, 0) == 0x0E9E882Du32) by (bit_vector);
    assert(byte_step(0x0E9E882Du32, 0) == 0x9F9B5C85u32) by (bit_vector);
    assert(byte_step(0x9F9B5C85u32, 0) == 0xB798B438u32) by (bit_vector);
    assert(register(0xFFFF_FFFF, zeros.take(0)) == 0xFFFF_FFFF);
    assert(zeros.take(1).drop_last() =~= zeros.take(0));
    assert(register(0xFFFF_FFFF, zeros.take(1)) == 0xAD82ACAE);
    assert(zeros.take(2).drop_last() =~= zeros.take(1));
    assert(register(0xFFFF_FFFF, zeros.take(2)) == 0x0E9E882D);
    assert(zeros.take(3).drop_last() =~= zeros.take(2));
    assert(register(0xFFFF_FFFF, zeros.take(3)) == 0x9F9B5C85);
    assert(zeros.take(4).drop_last() =~= zeros.take(3));
    assert(register(0xFFFF_FFFF, zeros.take(4)) == 0xB798B438);
    assert(zeros.take(4) =~= zeros);
    assert(!0xB798B438u32 != 0) by (bit_vector);
}

/// Calls `crc32c::crc32c`. It returns the CRC32C of `data`, as defined above.
#[verifier::external_body]
pub(crate) fn checksum(data: &[u8]) -> (crc: u32)
    ensures
        crc == crc32c_of(data@),
{
    crc32c::crc32c(data)
}

/// Calls `crc32c::crc32c_append`. It returns the checksum `crc` carried on over
/// `data`, as defined above.
#[verifier::external_body]
pub(crate) fn checksum_append(crc: u32, data: &[u8]) -> (appended: u32)
    ensures
        appended == crc32c_appended(crc, data@),
{
    crc32c::crc32c_append(crc, data)
}

} // verus!
