//! LEB128, the variable length encoding of integers.
use crate::error;
use crate::error::{Error, Outcome, ParseResult};
use vstd::arithmetic::power;
use vstd::arithmetic::power2;
use vstd::prelude::*;

verus! {

/// The number of bytes, at the start of `s`, of a LEB128 encoded integer: all
/// bytes up to the first that is below `0x80`. `None` if there is no such byte.
pub open spec fn leb_len(s: Seq<u8>) -> Option<nat>
    decreases s.len(),
{
    if s.len() == 0 {
        None
    } else if s.first() < 0x80 {
        Some(1)
    } else {
        match leb_len(s.drop_first()) {
            Some(n) => Some(n + 1),
            None => None,
        }
    }
}

/// The number whose groups of seven bits are the low bits of the bytes of `s`,
/// least significant group first.
pub open spec fn leb_groups(s: Seq<u8>) -> nat
    decreases s.len(),
{
    if s.len() == 0 {
        0
    } else {
        (s.first() % 0x80) as nat + 0x80 * leb_groups(s.drop_first())
    }
}

/// The number that the groups of `s` are in two's complement.
pub open spec fn leb_signed_groups(s: Seq<u8>) -> int {
    if s.last() % 0x80 >= 0x40 {
        leb_groups(s) - power2::pow2(7 * s.len())
    } else {
        leb_groups(s) as int
    }
}

/// The most bytes that an encoded integer may take up.
pub const MAX_LEB_LEN: usize = 10;

/// Parsing an unsigned LEB128 encoded integer.
pub open spec fn unsigned_leb(s: Seq<u8>) -> Outcome<u64> {
    match leb_len(s) {
        None => Err(Error::UnexpectedEof),
        Some(n) => {
            let value = leb_groups(s.take(n as int));
            if n <= MAX_LEB_LEN && value <= u64::MAX {
                Ok((value as u64, n))
            } else {
                Err(Error::BadUnsignedLeb128)
            }
        },
    }
}

/// Parsing a signed LEB128 encoded integer.
pub open spec fn signed_leb(s: Seq<u8>) -> Outcome<i64> {
    match leb_len(s) {
        None => Err(Error::UnexpectedEof),
        Some(n) => {
            let value = leb_signed_groups(s.take(n as int));
            if n <= MAX_LEB_LEN && i64::MIN <= value <= i64::MAX {
                Ok((value as i64, n))
            } else {
                Err(Error::BadSignedLeb128)
            }
        },
    }
}

/// An encoded integer lies within the bytes that it is read from, and is at
/// least one byte long.
pub proof fn law_leb_len_bound(s: Seq<u8>)
    ensures
        leb_len(s) matches Some(n) ==> 1 <= n <= s.len(),
    decreases s.len(),
{
    if s.len() > 0 {
        law_leb_len_bound(s.drop_first());
    }
}

/// What an encoded integer is depends on no byte after it.
pub proof fn law_leb_prefix(s: Seq<u8>, t: Seq<u8>)
    requires
        leb_len(s) is Some,
    ensures
        leb_len(s.take(leb_len(s)->Some_0 as int) + t) == leb_len(s),
        unsigned_leb(s.take(leb_len(s)->Some_0 as int) + t) == unsigned_leb(s),
        signed_leb(s.take(leb_len(s)->Some_0 as int) + t) == signed_leb(s),
    decreases s.len(),
{
    law_leb_len_bound(s);
    let n = leb_len(s)->Some_0;
    let other = s.take(n as int) + t;
    assert(other.first() == s.first());
    if s.first() >= 0x80 {
        law_leb_prefix(s.drop_first(), t);
        assert(other.drop_first() == s.drop_first().take(n - 1) + t);
    }
    assert(other.take(n as int) == s.take(n as int));
}

/// The shortest unsigned LEB128 encoding of `value`.
pub open spec fn unsigned_leb_bytes(value: nat) -> Seq<u8>
    decreases value,
{
    if value < 0x80 {
        seq![value as u8]
    } else {
        seq![(0x80 + value % 0x80) as u8] + unsigned_leb_bytes(value / 0x80)
    }
}

/// The shortest signed LEB128 encoding of `value`.
pub open spec fn signed_leb_bytes(value: int) -> Seq<u8>
    decreases if value < 0 {
        -value
    } else {
        value
    },
{
    if -0x40 <= value < 0x40 {
        seq![(value % 0x80) as u8]
    } else {
        seq![(0x80 + value % 0x80) as u8] + signed_leb_bytes(value / 0x80)
    }
}

proof fn lemma_unsigned_leb_bytes(value: nat, len: nat, t: Seq<u8>)
    requires
        value < power::pow(0x80, len),
        len >= 1,
    ensures
        unsigned_leb_bytes(value).len() <= len,
        leb_len(unsigned_leb_bytes(value) + t) == Some(unsigned_leb_bytes(value).len()),
        leb_groups(unsigned_leb_bytes(value)) == value,
    decreases len,
{
    let bytes = unsigned_leb_bytes(value);
    reveal(power::pow);
    if value < 0x80 {
        assert(leb_groups(bytes.drop_first()) == 0);
    } else {
        let rest = unsigned_leb_bytes(value / 0x80);
        if len == 1 {
            assert(power::pow(0x80, 0) == 1);
        }
        lemma_unsigned_leb_bytes(value / 0x80, (len - 1) as nat, t);
        assert(bytes.drop_first() == rest);
        assert((bytes + t).drop_first() == rest + t);
    }
}

/// Parsing the shortest unsigned encoding of an integer, whatever comes after it,
/// gives that integer back.
pub proof fn law_parse_unsigned_leb_bytes(value: u64, t: Seq<u8>)
    ensures
        unsigned_leb(unsigned_leb_bytes(value as nat) + t) == Ok::<(u64, nat), Error>(
            (value, unsigned_leb_bytes(value as nat).len()),
        ),
{
    assert(power::pow(0x80, 10) > u64::MAX) by {
        reveal_with_fuel(power::pow, 11);
    }
    lemma_unsigned_leb_bytes(value as nat, 10, t);
    let bytes = unsigned_leb_bytes(value as nat);
    assert((bytes + t).take(bytes.len() as int) == bytes);
}

proof fn lemma_signed_groups(s: Seq<u8>)
    requires
        s.len() >= 2,
    ensures
        leb_signed_groups(s) == s.first() % 0x80 + 0x80 * leb_signed_groups(s.drop_first()),
{
    let rest = s.drop_first();
    power2::lemma_pow2_adds(7, 7 * rest.len());
    power2::lemma2_to64();
    assert(7 * s.len() == 7 + 7 * rest.len());
}

proof fn lemma_signed_leb_bytes(value: int, len: nat, t: Seq<u8>)
    requires
        -0x40 * power::pow(0x80, len) <= value < 0x40 * power::pow(0x80, len),
    ensures
        1 <= signed_leb_bytes(value).len() <= len + 1,
        leb_len(signed_leb_bytes(value) + t) == Some(signed_leb_bytes(value).len()),
        leb_signed_groups(signed_leb_bytes(value)) == value,
    decreases len,
{
    let bytes = signed_leb_bytes(value);
    reveal(power::pow);
    if -0x40 <= value < 0x40 {
        power2::lemma2_to64();
        assert(leb_groups(bytes.drop_first()) == 0);
    } else {
        let rest = signed_leb_bytes(value / 0x80);
        if len == 0 {
            assert(power::pow(0x80, 0) == 1);
        }
        lemma_signed_leb_bytes(value / 0x80, (len - 1) as nat, t);
        assert(bytes.drop_first() == rest);
        assert((bytes + t).drop_first() == rest + t);
        lemma_signed_groups(bytes);
    }
}

/// Parsing the shortest signed encoding of an integer, whatever comes after it,
/// gives that integer back.
pub proof fn law_parse_signed_leb_bytes(value: i64, t: Seq<u8>)
    ensures
        signed_leb(signed_leb_bytes(value as int) + t) == Ok::<(i64, nat), Error>(
            (value, signed_leb_bytes(value as int).len()),
        ),
{
    assert(0x40 * power::pow(0x80, 9) > i64::MAX) by {
        reveal_with_fuel(power::pow, 10);
    }
    lemma_signed_leb_bytes(value as int, 9, t);
    let bytes = signed_leb_bytes(value as int);
    assert((bytes + t).take(bytes.len() as int) == bytes);
}

/// Whether `bytes` are an unsigned LEB128 encoding of `value`: each byte holds
/// seven bits, least significant group first, and all but the last have their
/// high bit set. Groups of zeros may pad the value.
pub open spec fn is_unsigned_leb(bytes: Seq<u8>, value: nat) -> bool
    decreases bytes.len(),
{
    if bytes.len() == 0 {
        false
    } else if bytes.len() == 1 {
        bytes[0] < 0x80 && value == bytes[0]
    } else {
        &&& bytes[0] >= 0x80
        &&& value % 0x80 == bytes[0] - 0x80
        &&& is_unsigned_leb(bytes.skip(1), value / 0x80)
    }
}

/// Whether `bytes` are a signed LEB128 encoding of `value`: as an unsigned one,
/// but that the last group is in two's complement.
pub open spec fn is_signed_leb(bytes: Seq<u8>, value: int) -> bool
    decreases bytes.len(),
{
    if bytes.len() == 0 {
        false
    } else if bytes.len() == 1 {
        ||| bytes[0] < 0x40 && value == bytes[0]
        ||| 0x40 <= bytes[0] < 0x80 && value == bytes[0] - 0x80
    } else {
        &&& bytes[0] >= 0x80
        &&& value % 0x80 == bytes[0] - 0x80
        &&& is_signed_leb(bytes.skip(1), value / 0x80)
    }
}

/// Whether `bytes` are an unsigned LEB128 encoding of `value` that can be parsed:
/// one of at most ten bytes.
pub open spec fn is_u64_leb(bytes: Seq<u8>, value: u64) -> bool {
    is_unsigned_leb(bytes, value as nat) && bytes.len() <= 10
}

proof fn lemma_is_unsigned_leb(bytes: Seq<u8>, value: nat, t: Seq<u8>)
    requires
        is_unsigned_leb(bytes, value),
    ensures
        leb_len(bytes + t) == Some(bytes.len()),
        leb_groups(bytes) == value,
    decreases bytes.len(),
{
    assert((bytes + t).first() == bytes[0]);
    assert(bytes.drop_first() == bytes.skip(1));
    if bytes.len() == 1 {
        assert(leb_groups(bytes.drop_first()) == 0);
    } else {
        lemma_is_unsigned_leb(bytes.skip(1), value / 0x80, t);
        assert((bytes + t).drop_first() == bytes.skip(1) + t);
    }
}

proof fn lemma_is_signed_leb(bytes: Seq<u8>, value: int, t: Seq<u8>)
    requires
        is_signed_leb(bytes, value),
    ensures
        leb_len(bytes + t) == Some(bytes.len()),
        leb_signed_groups(bytes) == value,
    decreases bytes.len(),
{
    assert((bytes + t).first() == bytes[0]);
    assert(bytes.drop_first() == bytes.skip(1));
    if bytes.len() == 1 {
        power2::lemma2_to64();
        assert(leb_groups(bytes.drop_first()) == 0);
    } else {
        lemma_is_signed_leb(bytes.skip(1), value / 0x80, t);
        assert((bytes + t).drop_first() == bytes.skip(1) + t);
        lemma_signed_groups(bytes);
    }
}

/// Parsing an unsigned encoding of a value, padded or not and whatever comes after
/// it, gives that value and takes the encoding's bytes, if the value fits into 64
/// bits and the encoding has at most ten bytes. Otherwise it is an error.
pub proof fn law_parse_unsigned_leb(bytes: Seq<u8>, value: nat, t: Seq<u8>)
    requires
        is_unsigned_leb(bytes, value),
    ensures
        value <= u64::MAX && bytes.len() <= 10 ==> unsigned_leb(bytes + t) == Ok::<
            (u64, nat),
            Error,
        >((value as u64, bytes.len())),
        value > u64::MAX || bytes.len() > 10 ==> unsigned_leb(bytes + t) == Err::<
            (u64, nat),
            Error,
        >(Error::BadUnsignedLeb128),
{
    lemma_is_unsigned_leb(bytes, value, t);
    assert((bytes + t).take(bytes.len() as int) == bytes);
}

/// Parsing a signed encoding of a value, padded or not and whatever comes after
/// it, gives that value and takes the encoding's bytes, if the value fits into 64
/// bits and the encoding has at most ten bytes. Otherwise it is an error.
pub proof fn law_parse_signed_leb(bytes: Seq<u8>, value: int, t: Seq<u8>)
    requires
        is_signed_leb(bytes, value),
    ensures
        i64::MIN <= value <= i64::MAX && bytes.len() <= 10 ==> signed_leb(bytes + t) == Ok::<
            (i64, nat),
            Error,
        >((value as i64, bytes.len())),
        !(i64::MIN <= value <= i64::MAX) || bytes.len() > 10 ==> signed_leb(bytes + t) == Err::<
            (i64, nat),
            Error,
        >(Error::BadSignedLeb128),
{
    lemma_is_signed_leb(bytes, value, t);
    assert((bytes + t).take(bytes.len() as int) == bytes);
}

proof fn lemma_groups_are_leb(s: Seq<u8>)
    requires
        leb_len(s) is Some,
    ensures
        is_unsigned_leb(s.take(leb_len(s)->Some_0 as int), leb_groups(s.take(leb_len(s)->Some_0 as int))),
        is_signed_leb(
            s.take(leb_len(s)->Some_0 as int),
            leb_signed_groups(s.take(leb_len(s)->Some_0 as int)),
        ),
    decreases s.len(),
{
    law_leb_len_bound(s);
    let bytes = s.take(leb_len(s)->Some_0 as int);
    assert(bytes.drop_first() == bytes.skip(1));
    if s.first() < 0x80 {
        power2::lemma2_to64();
        assert(leb_groups(bytes.drop_first()) == 0);
    } else {
        let rest = s.drop_first();
        lemma_groups_are_leb(rest);
        law_leb_len_bound(rest);
        assert(bytes.skip(1) == rest.take(leb_len(rest)->Some_0 as int));
        lemma_signed_groups(bytes);
    }
}

/// What is parsed is what the bytes that were taken encode.
pub proof fn law_parsed_leb_is_encoded(s: Seq<u8>)
    ensures
        unsigned_leb(s) matches Ok((value, n)) ==> n <= s.len() && is_u64_leb(
            s.take(n as int),
            value,
        ),
        signed_leb(s) matches Ok((value, n)) ==> n <= s.len() && n <= 10 && is_signed_leb(
            s.take(n as int),
            value as int,
        ),
{
    law_leb_len_bound(s);
    if leb_len(s) is Some {
        lemma_groups_are_leb(s);
    }
}

/// Parsing hits the end of input just where every byte says that another follows.
pub proof fn law_leb_hits_end(s: Seq<u8>)
    ensures
        unsigned_leb(s) == Err::<(u64, nat), Error>(Error::UnexpectedEof) <==> forall|i: int|
            0 <= i < s.len() ==> s[i] >= 0x80,
        signed_leb(s) == Err::<(i64, nat), Error>(Error::UnexpectedEof) <==> forall|i: int|
            0 <= i < s.len() ==> s[i] >= 0x80,
    decreases s.len(),
{
    if s.len() > 0 {
        let rest = s.drop_first();
        law_leb_hits_end(rest);
        if s.first() >= 0x80 {
            if leb_len(rest) is Some {
                let i = choose|i: int| 0 <= i < rest.len() && rest[i] < 0x80;
                assert(s[i + 1] < 0x80);
            } else {
                assert forall|i: int| 0 <= i < s.len() implies s[i] >= 0x80 by {
                    if i > 0 {
                        assert(rest[i - 1] >= 0x80);
                    }
                }
            }
        }
    }
}

/// The reasons why reading a LEB128 encoded integer fails.
#[derive(Debug, Clone, Copy, PartialEq, Eq, Structural)]
pub enum LebError {
    /// Reading a byte failed, because there was none if `eof` is set.
    Io { eof: bool },
    /// The integer is larger than can be represented.
    Overflow,
}

/// Calls `leb128::read::unsigned` on a slice. It is trusted to read up to the
/// first byte below `0x80` and to return what those bytes encode; to fail for
/// want of a byte if there is no such byte; and to report an overflow if there is
/// one, but the integer does not fit into 64 bits or takes up more than ten bytes.
#[verifier::external_body]
fn leb128_read_unsigned(input: &[u8]) -> (res: Result<(&[u8], u64), LebError>)
    ensures
        match res {
            Ok((rest, value)) => leb_len(input@) matches Some(n) && n <= MAX_LEB_LEN && value
                == leb_groups(input@.take(n as int)) && rest@ == input@.skip(n as int),
            Err(LebError::Io { eof }) => eof && leb_len(input@) is None,
            Err(LebError::Overflow) => leb_len(input@) matches Some(n) && (n > MAX_LEB_LEN
                || leb_groups(input@.take(n as int)) > u64::MAX),
        },
{
    let mut rest = input;
    match leb128::read::unsigned(&mut rest) {
        Ok(value) => Ok((rest, value)),
        Err(leb128::read::Error::IoError(e)) => {
            Err(LebError::Io { eof: e.kind() == std::io::ErrorKind::UnexpectedEof })
        },
        Err(leb128::read::Error::Overflow) => Err(LebError::Overflow),
    }
}

/// Calls `leb128::read::signed` on a slice. It is trusted to read up to the
/// first byte below `0x80` and to return what those bytes encode; to fail for
/// want of a byte if there is no such byte; and to report an overflow if there is
/// one, but the integer does not fit into 64 bits or takes up more than ten bytes.
#[verifier::external_body]
fn leb128_read_signed(input: &[u8]) -> (res: Result<(&[u8], i64), LebError>)
    ensures
        match res {
            Ok((rest, value)) => leb_len(input@) matches Some(n) && n <= MAX_LEB_LEN && value
                == leb_signed_groups(input@.take(n as int)) && rest@ == input@.skip(n as int),
            Err(LebError::Io { eof }) => eof && leb_len(input@) is None,
            Err(LebError::Overflow) => leb_len(input@) matches Some(n) && (n > MAX_LEB_LEN || !(
            i64::MIN <= leb_signed_groups(input@.take(n as int)) <= i64::MAX)),
        },
{
    let mut rest = input;
    match leb128::read::signed(&mut rest) {
        Ok(value) => Ok((rest, value)),
        Err(leb128::read::Error::IoError(e)) => {
            Err(LebError::Io { eof: e.kind() == std::io::ErrorKind::UnexpectedEof })
        },
        Err(leb128::read::Error::Overflow) => Err(LebError::Overflow),
    }
}

/// Parse an unsigned LEB128 encoded integer.
pub fn parse_unsigned_leb(input: &[u8]) -> (res: ParseResult<(&[u8], u64)>)
    ensures
        error::agrees(res, input@, unsigned_leb(input@)),
{
    proof {
        law_leb_len_bound(input@);
    }
    match leb128_read_unsigned(input) {
        Ok((rest, value)) => Ok((rest, value)),
        Err(LebError::Io { eof: true }) => Err(Error::UnexpectedEof),
        Err(_) => Err(Error::BadUnsignedLeb128),
    }
}

/// Parse a signed LEB128 encoded integer.
pub fn parse_signed_leb(input: &[u8]) -> (res: ParseResult<(&[u8], i64)>)
    ensures
        error::agrees(res, input@, signed_leb(input@)),
{
    proof {
        law_leb_len_bound(input@);
    }
    match leb128_read_signed(input) {
        Ok((rest, value)) => Ok((rest, value)),
        Err(LebError::Io { eof: true }) => Err(Error::UnexpectedEof),
        Err(_) => Err(Error::BadSignedLeb128),
    }
}

} // verus!
