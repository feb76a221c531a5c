//! Byte orders, and the integers that bytes encode in each of them.
use byteorder::ByteOrder;
use core::fmt::Debug;
use vstd::arithmetic::power;
use vstd::prelude::*;

verus! {

/// The integer that `s` encodes, least significant byte first.
pub open spec fn uint_le(s: Seq<u8>) -> nat
    decreases s.len(),
{
    if s.len() == 0 {
        0
    } else {
        s.first() as nat + 256 * uint_le(s.drop_first())
    }
}

/// The integer that `s` encodes, most significant byte first.
pub open spec fn uint_be(s: Seq<u8>) -> nat
    decreases s.len(),
{
    if s.len() == 0 {
        0
    } else {
        256 * uint_be(s.drop_last()) + s.last() as nat
    }
}

/// The integer that `s` encodes in the given byte order.
pub open spec fn uint(big_endian: bool, s: Seq<u8>) -> nat {
    if big_endian {
        uint_be(s)
    } else {
        uint_le(s)
    }
}

/// The `len` low bytes of `n`, least significant byte first.
pub open spec fn bytes_le(n: nat, len: nat) -> Seq<u8>
    decreases len,
{
    if len == 0 {
        Seq::empty()
    } else {
        seq![(n % 256) as u8] + bytes_le(n / 256, (len - 1) as nat)
    }
}

/// The `len` low bytes of `n`, most significant byte first.
pub open spec fn bytes_be(n: nat, len: nat) -> Seq<u8>
    decreases len,
{
    if len == 0 {
        Seq::empty()
    } else {
        bytes_be(n / 256, (len - 1) as nat).push((n % 256) as u8)
    }
}

/// The `len` low bytes of `n` in the given byte order.
pub open spec fn uint_bytes(big_endian: bool, n: nat, len: nat) -> Seq<u8> {
    if big_endian {
        bytes_be(n, len)
    } else {
        bytes_le(n, len)
    }
}

/// `len` bytes encode an integer below `256` to the power of `len`.
pub proof fn law_uint_bound(big_endian: bool, s: Seq<u8>)
    ensures
        uint(big_endian, s) < power::pow(256, s.len()),
    decreases s.len(),
{
    reveal(power::pow);
    if s.len() > 0 {
        if big_endian {
            law_uint_bound(big_endian, s.drop_last());
        } else {
            law_uint_bound(big_endian, s.drop_first());
        }
    }
}

/// `uint_bytes` makes as many bytes as it is asked for.
pub proof fn law_uint_bytes_len(big_endian: bool, n: nat, len: nat)
    ensures
        uint_bytes(big_endian, n, len).len() == len,
    decreases len,
{
    if len > 0 {
        law_uint_bytes_len(big_endian, n / 256, (len - 1) as nat);
    }
}

/// Decoding the bytes of an integer that fits into them gives that integer
/// back.
pub proof fn law_decode_encoded(big_endian: bool, n: nat, len: nat)
    requires
        n < power::pow(256, len),
    ensures
        uint(big_endian, uint_bytes(big_endian, n, len)) == n,
    decreases len,
{
    reveal(power::pow);
    if len > 0 {
        let rest = uint_bytes(big_endian, n / 256, (len - 1) as nat);
        law_decode_encoded(big_endian, n / 256, (len - 1) as nat);
        if big_endian {
            assert(rest.push((n % 256) as u8).drop_last() == rest);
        } else {
            assert((seq![(n % 256) as u8] + rest).drop_first() == rest);
        }
    }
}

/// Encoding the integer that some bytes encode gives those bytes back.
pub proof fn law_encode_decoded(big_endian: bool, s: Seq<u8>)
    ensures
        uint_bytes(big_endian, uint(big_endian, s), s.len()) == s,
    decreases s.len(),
{
    if s.len() > 0 {
        if big_endian {
            law_encode_decoded(big_endian, s.drop_last());
            assert(s.drop_last().push(s.last()) == s);
        } else {
            law_encode_decoded(big_endian, s.drop_first());
            assert(seq![s.first()] + s.drop_first() == s);
        }
    }
}

/// Bytes encode the same integer in one byte order as their reverse does in the
/// other.
pub proof fn law_byte_orders_mirror(s: Seq<u8>)
    ensures
        uint_be(s) == uint_le(s.reverse()),
    decreases s.len(),
{
    if s.len() > 0 {
        law_byte_orders_mirror(s.drop_last());
        assert(s.reverse().drop_first() == s.drop_last().reverse());
    }
}

/// Reading at the start of a buffer that an integer was written to gives that
/// integer back.
pub proof fn law_read_written(big_endian: bool, buf: Seq<u8>, n: nat, len: nat)
    requires
        n < power::pow(256, len),
        len <= buf.len(),
    ensures
        uint(
            big_endian,
            (uint_bytes(big_endian, n, len) + buf.skip(len as int)).take(len as int),
        ) == n,
{
    law_uint_bytes_len(big_endian, n, len);
    law_decode_encoded(big_endian, n, len);
    let bytes = uint_bytes(big_endian, n, len);
    assert((bytes + buf.skip(len as int)).take(len as int) == bytes);
}

/// A trait describing the endianity of some buffer.
///
/// All methods are static. You shouldn't instantiate concrete objects that
/// implement this trait, it is just used as compile-time phantom data.
pub trait Endianity: Debug + Clone + Copy + PartialEq + Eq {
    /// Whether the most significant byte comes first.
    spec fn is_big_endian() -> bool;

    /// Read an unsigned 16 bit integer from the start of `buf`.
    fn read_u16(buf: &[u8]) -> (n: u16)
        requires
            buf@.len() >= 2,
        ensures
            n == uint(Self::is_big_endian(), buf@.take(2)),
    ;

    /// Read an unsigned 32 bit integer from the start of `buf`.
    fn read_u32(buf: &[u8]) -> (n: u32)
        requires
            buf@.len() >= 4,
        ensures
            n == uint(Self::is_big_endian(), buf@.take(4)),
    ;

    /// Read an unsigned 64 bit integer from the start of `buf`.
    fn read_u64(buf: &[u8]) -> (n: u64)
        requires
            buf@.len() >= 8,
        ensures
            n == uint(Self::is_big_endian(), buf@.take(8)),
    ;

    /// Read an unsigned integer of `nbytes` bytes from the start of `buf`.
    fn read_uint(buf: &[u8], nbytes: usize) -> (n: u64)
        requires
            1 <= nbytes <= 8,
            nbytes <= buf@.len(),
        ensures
            n == uint(Self::is_big_endian(), buf@.take(nbytes as int)),
    ;

    /// Write an unsigned 16 bit integer to the start of `buf`.
    fn write_u16(buf: &mut [u8], n: u16)
        requires
            old(buf)@.len() >= 2,
        ensures
            final(buf)@ == uint_bytes(Self::is_big_endian(), n as nat, 2) + old(buf)@.skip(2),
    ;

    /// Write an unsigned 32 bit integer to the start of `buf`.
    fn write_u32(buf: &mut [u8], n: u32)
        requires
            old(buf)@.len() >= 4,
        ensures
            final(buf)@ == uint_bytes(Self::is_big_endian(), n as nat, 4) + old(buf)@.skip(4),
    ;

    /// Write an unsigned 64 bit integer to the start of `buf`.
    fn write_u64(buf: &mut [u8], n: u64)
        requires
            old(buf)@.len() >= 8,
        ensures
            final(buf)@ == uint_bytes(Self::is_big_endian(), n as nat, 8) + old(buf)@.skip(8),
    ;

    /// Write an unsigned integer to the first `nbytes` bytes of `buf`.
    fn write_uint(buf: &mut [u8], n: u64, nbytes: usize)
        requires
            1 <= nbytes <= 8,
            nbytes <= old(buf)@.len(),
            n < power::pow(256, nbytes as nat),
        ensures
            final(buf)@ == uint_bytes(Self::is_big_endian(), n as nat, nbytes as nat) + old(
                buf,
            )@.skip(nbytes as int),
    ;
}

/// Little endian byte order.
#[derive(Debug, Clone, Copy, PartialEq, Eq)]
pub struct LittleEndian;

/// Big endian byte order.
#[derive(Debug, Clone, Copy, PartialEq, Eq)]
pub struct BigEndian;

/// Calls `byteorder::LittleEndian::read_u16`, trusted to return the integer that the
/// first 2 bytes of `buf` encode, least significant byte first. It panics on a
/// shorter `buf`.
#[verifier::external_body]
fn le_read_u16(buf: &[u8]) -> (n: u16)
    requires
        buf@.len() >= 2,
    ensures
        n == uint_le(buf@.take(2)),
{
    byteorder::LittleEndian::read_u16(buf)
}

/// Calls `byteorder::LittleEndian::read_u32`, trusted to return the integer that the
/// first 4 bytes of `buf` encode, least significant byte first. It panics on a
/// shorter `buf`.
#[verifier::external_body]
fn le_read_u32(buf: &[u8]) -> (n: u32)
    requires
        buf@.len() >= 4,
    ensures
        n == uint_le(buf@.take(4)),
{
    byteorder::LittleEndian::read_u32(buf)
}

/// Calls `byteorder::LittleEndian::read_u64`, trusted to return the integer that the
/// first 8 bytes of `buf` encode, least significant byte first. It panics on a
/// shorter `buf`.
#[verifier::external_body]
fn le_read_u64(buf: &[u8]) -> (n: u64)
    requires
        buf@.len() >= 8,
    ensures
        n == uint_le(buf@.take(8)),
{
    byteorder::LittleEndian::read_u64(buf)
}

/// Calls `byteorder::LittleEndian::read_uint`, trusted to return the integer that the
/// first `nbytes` bytes of `buf` encode, least significant byte first. It panics
/// unless `nbytes` is from 1 to 8 and `buf` has that many bytes.
#[verifier::external_body]
fn le_read_uint(buf: &[u8], nbytes: usize) -> (n: u64)
    requires
        1 <= nbytes <= 8,
        nbytes <= buf@.len(),
    ensures
        n == uint_le(buf@.take(nbytes as int)),
{
    byteorder::LittleEndian::read_uint(buf, nbytes)
}

/// Calls `byteorder::LittleEndian::write_u16`, trusted to put the 2 bytes of `n`,
/// least significant byte first, over the first 2 bytes of `buf`, and to leave
/// the others as they are. It panics on a shorter `buf`.
#[verifier::external_body]
fn le_write_u16(buf: &mut [u8], n: u16)
    requires
        old(buf)@.len() >= 2,
    ensures
        final(buf)@ == bytes_le(n as nat, 2) + old(buf)@.skip(2),
{
    byteorder::LittleEndian::write_u16(buf, n)
}

/// Calls `byteorder::LittleEndian::write_u32`, trusted to put the 4 bytes of `n`,
/// least significant byte first, over the first 4 bytes of `buf`, and to leave
/// the others as they are. It panics on a shorter `buf`.
#[verifier::external_body]
fn le_write_u32(buf: &mut [u8], n: u32)
    requires
        old(buf)@.len() >= 4,
    ensures
        final(buf)@ == bytes_le(n as nat, 4) + old(buf)@.skip(4),
{
    byteorder::LittleEndian::write_u32(buf, n)
}

/// Calls `byteorder::LittleEndian::write_u64`, trusted to put the 8 bytes of `n`,
/// least significant byte first, over the first 8 bytes of `buf`, and to leave
/// the others as they are. It panics on a shorter `buf`.
#[verifier::external_body]
fn le_write_u64(buf: &mut [u8], n: u64)
    requires
        old(buf)@.len() >= 8,
    ensures
        final(buf)@ == bytes_le(n as nat, 8) + old(buf)@.skip(8),
{
    byteorder::LittleEndian::write_u64(buf, n)
}

/// Calls `byteorder::LittleEndian::write_uint`, trusted to put the `nbytes` low bytes
/// of `n`, least significant byte first, over the first `nbytes` bytes of `buf`,
/// and to leave the others as they are. It panics unless `nbytes` is from 1 to 8,
/// `n` fits into that many bytes, and `buf` has them.
#[verifier::external_body]
fn le_write_uint(buf: &mut [u8], n: u64, nbytes: usize)
    requires
        1 <= nbytes <= 8,
        nbytes <= old(buf)@.len(),
        n < power::pow(256, nbytes as nat),
    ensures
        final(buf)@ == bytes_le(n as nat, nbytes as nat) + old(buf)@.skip(nbytes as int),
{
    byteorder::LittleEndian::write_uint(buf, n, nbytes)
}

impl Endianity for LittleEndian {
    open spec fn is_big_endian() -> bool {
        false
    }

    fn read_u16(buf: &[u8]) -> (n: u16) {
        le_read_u16(buf)
    }

    fn read_u32(buf: &[u8]) -> (n: u32) {
        le_read_u32(buf)
    }

    fn read_u64(buf: &[u8]) -> (n: u64) {
        le_read_u64(buf)
    }

    fn read_uint(buf: &[u8], nbytes: usize) -> (n: u64) {
        le_read_uint(buf, nbytes)
    }

    fn write_u16(buf: &mut [u8], n: u16) {
        le_write_u16(buf, n)
    }

    fn write_u32(buf: &mut [u8], n: u32) {
        le_write_u32(buf, n)
    }

    fn write_u64(buf: &mut [u8], n: u64) {
        le_write_u64(buf, n)
    }

    fn write_uint(buf: &mut [u8], n: u64, nbytes: usize) {
        le_write_uint(buf, n, nbytes)
    }
}

/// Calls `byteorder::BigEndian::read_u16`, trusted to return the integer that the
/// first 2 bytes of `buf` encode, most significant byte first. It panics on a
/// shorter `buf`.
#[verifier::external_body]
fn be_read_u16(buf: &[u8]) -> (n: u16)
    requires
        buf@.len() >= 2,
    ensures
        n == uint_be(buf@.take(2)),
{
    byteorder::BigEndian::read_u16(buf)
}

/// Calls `byteorder::BigEndian::read_u32`, trusted to return the integer that the
/// first 4 bytes of `buf` encode, most significant byte first. It panics on a
/// shorter `buf`.
#[verifier::external_body]
fn be_read_u32(buf: &[u8]) -> (n: u32)
    requires
        buf@.len() >= 4,
    ensures
        n == uint_be(buf@.take(4)),
{
    byteorder::BigEndian::read_u32(buf)
}

/// Calls `byteorder::BigEndian::read_u64`, trusted to return the integer that the
/// first 8 bytes of `buf` encode, most significant byte first. It panics on a
/// shorter `buf`.
#[verifier::external_body]
fn be_read_u64(buf: &[u8]) -> (n: u64)
    requires
        buf@.len() >= 8,
    ensures
        n == uint_be(buf@.take(8)),
{
    byteorder::BigEndian::read_u64(buf)
}

/// Calls `byteorder::BigEndian::read_uint`, trusted to return the integer that the
/// first `nbytes` bytes of `buf` encode, most significant byte first. It panics
/// unless `nbytes` is from 1 to 8 and `buf` has that many bytes.
#[verifier::external_body]
fn be_read_uint(buf: &[u8], nbytes: usize) -> (n: u64)
    requires
        1 <= nbytes <= 8,
        nbytes <= buf@.len(),
    ensures
        n == uint_be(buf@.take(nbytes as int)),
{
    byteorder::BigEndian::read_uint(buf, nbytes)
}

/// Calls `byteorder::BigEndian::write_u16`, trusted to put the 2 bytes of `n`,
/// most significant byte first, over the first 2 bytes of `buf`, and to leave
/// the others as they are. It panics on a shorter `buf`.
#[verifier::external_body]
fn be_write_u16(buf: &mut [u8], n: u16)
    requires
        old(buf)@.len() >= 2,
    ensures
        final(buf)@ == bytes_be(n as nat, 2) + old(buf)@.skip(2),
{
    byteorder::BigEndian::write_u16(buf, n)
}

/// Calls `byteorder::BigEndian::write_u32`, trusted to put the 4 bytes of `n`,
/// most significant byte first, over the first 4 bytes of `buf`, and to leave
/// the others as they are. It panics on a shorter `buf`.
#[verifier::external_body]
fn be_write_u32(buf: &mut [u8], n: u32)
    requires
        old(buf)@.len() >= 4,
    ensures
        final(buf)@ == bytes_be(n as nat, 4) + old(buf)@.skip(4),
{
    byteorder::BigEndian::write_u32(buf, n)
}

/// Calls `byteorder::BigEndian::write_u64`, trusted to put the 8 bytes of `n`,
/// most significant byte first, over the first 8 bytes of `buf`, and to leave
/// the others as they are. It panics on a shorter `buf`.
#[verifier::external_body]
fn be_write_u64(buf: &mut [u8], n: u64)
    requires
        old(buf)@.len() >= 8,
    ensures
        final(buf)@ == bytes_be(n as nat, 8) + old(buf)@.skip(8),
{
    byteorder::BigEndian::write_u64(buf, n)
}

/// Calls `byteorder::BigEndian::write_uint`, trusted to put the `nbytes` low bytes
/// of `n`, most significant byte first, over the first `nbytes` bytes of `buf`,
/// and to leave the others as they are. It panics unless `nbytes` is from 1 to 8,
/// `n` fits into that many bytes, and `buf` has them.
#[verifier::external_body]
fn be_write_uint(buf: &mut [u8], n: u64, nbytes: usize)
    requires
        1 <= nbytes <= 8,
        nbytes <= old(buf)@.len(),
        n < power::pow(256, nbytes as nat),
    ensures
        final(buf)@ == bytes_be(n as nat, nbytes as nat) + old(buf)@.skip(nbytes as int),
{
    byteorder::BigEndian::write_uint(buf, n, nbytes)
}

impl Endianity for BigEndian {
    open spec fn is_big_endian() -> bool {
        true
    }

    fn read_u16(buf: &[u8]) -> (n: u16) {
        be_read_u16(buf)
    }

    fn read_u32(buf: &[u8]) -> (n: u32) {
        be_read_u32(buf)
    }

    fn read_u64(buf: &[u8]) -> (n: u64) {
        be_read_u64(buf)
    }

    fn read_uint(buf: &[u8], nbytes: usize) -> (n: u64) {
        be_read_uint(buf, nbytes)
    }

    fn write_u16(buf: &mut [u8], n: u16) {
        be_write_u16(buf, n)
    }

    fn write_u32(buf: &mut [u8], n: u32) {
        be_write_u32(buf, n)
    }

    fn write_u64(buf: &mut [u8], n: u64) {
        be_write_u64(buf, n)
    }

    fn write_uint(buf: &mut [u8], n: u64, nbytes: usize) {
        be_write_uint(buf, n, nbytes)
    }
}

} // verus!
