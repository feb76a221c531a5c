//! Buffers with a byte order, and the parsing of plain integers and runs of
//! bytes.
use crate::endianity;
use crate::endianity::Endianity;
use crate::error;
use crate::error::{Error, Outcome, ParseResult};
use crate::leb;
use core::marker::PhantomData;
use core::ops::{Deref, RangeFrom, RangeTo};
use vstd::prelude::*;
use vstd::slice::slice_subrange;

verus! {

broadcast use vstd::seq_lib::lemma_seq_skip_of_skip;

/// Declares `core::ops::RangeFrom`, with its field.
#[verifier::external_type_specification]
#[verifier::reject_recursive_types(Idx)]
pub struct ExRangeFrom<Idx>(RangeFrom<Idx>);

/// Declares `core::ops::RangeTo`, with its field.
#[verifier::external_type_specification]
#[verifier::reject_recursive_types(Idx)]
pub struct ExRangeTo<Idx>(RangeTo<Idx>);

/// A `&[u8]` slice with compile-time endianity metadata.
#[derive(Debug, PartialEq, Eq)]
pub struct EndianBuf<'input, Endian>(pub &'input [u8], pub PhantomData<Endian>) where
    Endian: Endianity,
;

impl<'input, Endian> View for EndianBuf<'input, Endian> where Endian: Endianity {
    type V = Seq<u8>;

    open spec fn view(&self) -> Seq<u8> {
        self.0@
    }
}

impl<'input, Endian> Clone for EndianBuf<'input, Endian> where Endian: Endianity {
    fn clone(&self) -> (res: Self)
        ensures
            res == *self,
    {
        *self
    }
}

impl<'input, Endian> Copy for EndianBuf<'input, Endian> where Endian: Endianity {

}

impl<'input, Endian> Deref for EndianBuf<'input, Endian> where Endian: Endianity {
    type Target = [u8];

    fn deref(&self) -> (res: &[u8])
        ensures
            res@ == self@,
    {
        self.0
    }
}

impl<'input, Endian> EndianBuf<'input, Endian> where Endian: Endianity {
    /// Wrap the given bytes.
    pub fn new(buf: &'input [u8]) -> (res: EndianBuf<'input, Endian>)
        ensures
            res@ == buf@,
    {
        EndianBuf(buf, PhantomData)
    }

    /// The part of this buffer from `idx.start` on.
    pub fn range_from(&self, idx: RangeFrom<usize>) -> (res: EndianBuf<'input, Endian>)
        requires
            idx.start <= self@.len(),
        ensures
            res@ == self@.skip(idx.start as int),
    {
        EndianBuf(slice_subrange(self.0, idx.start, self.0.len()), self.1)
    }

    /// The part of this buffer before `idx.end`.
    pub fn range_to(&self, idx: RangeTo<usize>) -> (res: EndianBuf<'input, Endian>)
        requires
            idx.end <= self@.len(),
        ensures
            res@ == self@.take(idx.end as int),
    {
        EndianBuf(slice_subrange(self.0, 0, idx.end), self.1)
    }

    /// The bytes of this buffer.
    pub fn into(self) -> (res: &'input [u8])
        ensures
            res@ == self@,
    {
        self.0
    }
}

/// Parsing one byte.
pub open spec fn u8_at(s: Seq<u8>) -> Outcome<u8> {
    if s.len() < 1 {
        Err(Error::UnexpectedEof)
    } else {
        Ok((s[0], 1))
    }
}

/// Parsing an unsigned 16 bit integer.
pub open spec fn u16_at(big_endian: bool, s: Seq<u8>) -> Outcome<u16> {
    if s.len() < 2 {
        Err(Error::UnexpectedEof)
    } else {
        Ok((endianity::uint(big_endian, s.take(2)) as u16, 2))
    }
}

/// Parsing an unsigned 32 bit integer.
pub open spec fn u32_at(big_endian: bool, s: Seq<u8>) -> Outcome<u32> {
    if s.len() < 4 {
        Err(Error::UnexpectedEof)
    } else {
        Ok((endianity::uint(big_endian, s.take(4)) as u32, 4))
    }
}

/// Parsing an unsigned 64 bit integer.
pub open spec fn u64_at(big_endian: bool, s: Seq<u8>) -> Outcome<u64> {
    if s.len() < 8 {
        Err(Error::UnexpectedEof)
    } else {
        Ok((endianity::uint(big_endian, s.take(8)) as u64, 8))
    }
}

/// Parsing an unsigned 32 bit integer into 64 bits.
pub open spec fn u32_as_u64_at(big_endian: bool, s: Seq<u8>) -> Outcome<u64> {
    match u32_at(big_endian, s) {
        Ok((value, n)) => Ok((value as u64, n)),
        Err(e) => Err(e),
    }
}

/// Parse one byte.
pub fn parse_u8(input: &[u8]) -> (res: ParseResult<(&[u8], u8)>)
    ensures
        error::agrees(res, input@, u8_at(input@)),
{
    if input.len() == 0 {
        Err(Error::UnexpectedEof)
    } else {
        Ok((slice_subrange(input, 1, input.len()), input[0]))
    }
}

/// Parse an unsigned 16 bit integer.
pub fn parse_u16<'input, Endian>(input: EndianBuf<'input, Endian>) -> (res: ParseResult<
    (EndianBuf<'input, Endian>, u16),
>) where Endian: Endianity
    ensures
        error::agrees(res, input@, u16_at(Endian::is_big_endian(), input@)),
{
    if input.len() < 2 {
        Err(Error::UnexpectedEof)
    } else {
        Ok((input.range_from(2..), Endian::read_u16(input.0)))
    }
}

/// Parse an unsigned 32 bit integer.
pub fn parse_u32<'input, Endian>(input: EndianBuf<'input, Endian>) -> (res: ParseResult<
    (EndianBuf<'input, Endian>, u32),
>) where Endian: Endianity
    ensures
        error::agrees(res, input@, u32_at(Endian::is_big_endian(), input@)),
{
    if input.len() < 4 {
        Err(Error::UnexpectedEof)
    } else {
        Ok((input.range_from(4..), Endian::read_u32(input.0)))
    }
}

/// Parse an unsigned 64 bit integer.
pub fn parse_u64<'input, Endian>(input: EndianBuf<'input, Endian>) -> (res: ParseResult<
    (EndianBuf<'input, Endian>, u64),
>) where Endian: Endianity
    ensures
        error::agrees(res, input@, u64_at(Endian::is_big_endian(), input@)),
{
    if input.len() < 8 {
        Err(Error::UnexpectedEof)
    } else {
        Ok((input.range_from(8..), Endian::read_u64(input.0)))
    }
}

/// Parse an unsigned 32 bit integer into 64 bits.
pub fn parse_u32_as_u64<'input, Endian>(input: EndianBuf<'input, Endian>) -> (res: ParseResult<
    (EndianBuf<'input, Endian>, u64),
>) where Endian: Endianity
    ensures
        error::agrees(res, input@, u32_as_u64_at(Endian::is_big_endian(), input@)),
{
    if input.len() < 4 {
        Err(Error::UnexpectedEof)
    } else {
        Ok((input.range_from(4..), Endian::read_u32(input.0) as u64))
    }
}

/// Parsing a run of `len` bytes.
pub open spec fn bytes_at(len: nat, s: Seq<u8>) -> Outcome<Seq<u8>> {
    if s.len() < len {
        Err(Error::UnexpectedEof)
    } else {
        Ok((s.take(len as int), len))
    }
}

/// Parsing a run of `len` bytes that comes after the first `skipped` bytes.
pub open spec fn bytes_after(skipped: nat, len: nat, s: Seq<u8>) -> Outcome<Seq<u8>> {
    match bytes_at(len, s.skip(skipped as int)) {
        Ok((value, n)) => Ok((value, skipped + n)),
        Err(e) => Err(e),
    }
}

/// Parsing a run of bytes whose length comes first, in one byte.
pub open spec fn u8_block_at(s: Seq<u8>) -> Outcome<Seq<u8>> {
    match u8_at(s) {
        Ok((len, n)) => bytes_after(n, len as nat, s),
        Err(e) => Err(e),
    }
}

/// Parsing a run of bytes whose length comes first, in 16 bits.
pub open spec fn u16_block_at(big_endian: bool, s: Seq<u8>) -> Outcome<Seq<u8>> {
    match u16_at(big_endian, s) {
        Ok((len, n)) => bytes_after(n, len as nat, s),
        Err(e) => Err(e),
    }
}

/// Parsing a run of bytes whose length comes first, in 32 bits.
pub open spec fn u32_block_at(big_endian: bool, s: Seq<u8>) -> Outcome<Seq<u8>> {
    match u32_at(big_endian, s) {
        Ok((len, n)) => bytes_after(n, len as nat, s),
        Err(e) => Err(e),
    }
}

/// Parsing a run of bytes whose length comes first, in unsigned LEB128.
pub open spec fn leb_block_at(s: Seq<u8>) -> Outcome<Seq<u8>> {
    match leb::unsigned_leb(s) {
        Ok((len, n)) => bytes_after(n, len as nat, s),
        Err(e) => Err(e),
    }
}

/// The first `n` bytes of `s` are read the same, whatever comes after them.
pub(crate) proof fn lemma_joined_prefix(s: Seq<u8>, n: int, t: Seq<u8>)
    requires
        0 <= n <= s.len(),
    ensures
        forall|k: int| 0 <= k <= n ==> #[trigger] (s.take(n) + t).take(k) == s.take(k),
        forall|skipped: int, len: int|
            0 <= skipped && 0 <= len && skipped + len <= n ==> #[trigger] (s.take(n) + t).skip(
                skipped,
            ).take(len) == s.skip(skipped).take(len),
{
    let joined = s.take(n) + t;
    assert forall|k: int| 0 <= k <= n implies #[trigger] joined.take(k) == s.take(k) by {
        assert(joined.take(k) =~= s.take(k));
    }
    assert forall|skipped: int, len: int|
        0 <= skipped && 0 <= len && skipped + len <= n implies #[trigger] joined.skip(
        skipped,
    ).take(len) == s.skip(skipped).take(len) by {
        assert(joined.skip(skipped).take(len) =~= s.skip(skipped).take(len));
    }
}

/// Take a slice of size `bytes` from the input.
pub fn take(bytes: usize, input: &[u8]) -> (res: ParseResult<(&[u8], &[u8])>)
    ensures
        error::agrees_view(res, input@, bytes_at(bytes as nat, input@)),
{
    if input.len() < bytes {
        Err(Error::UnexpectedEof)
    } else {
        Ok((slice_subrange(input, bytes, input.len()), slice_subrange(input, 0, bytes)))
    }
}

/// Parse a run of bytes whose length comes first, in one byte.
pub fn length_u8_value(input: &[u8]) -> (res: ParseResult<(&[u8], &[u8])>)
    ensures
        error::agrees_view(res, input@, u8_block_at(input@)),
{
    let (rest, len) = parse_u8(input)?;
    take(len as usize, rest)
}

/// Parse a run of bytes whose length comes first, in 16 bits.
pub fn length_u16_value<'input, Endian>(input: EndianBuf<'input, Endian>) -> (res: ParseResult<
    (EndianBuf<'input, Endian>, &'input [u8]),
>) where Endian: Endianity
    ensures
        error::agrees_view(res, input@, u16_block_at(Endian::is_big_endian(), input@)),
{
    let (rest, len) = parse_u16(input)?;
    let (rest, value) = take(len as usize, rest.into())?;
    Ok((EndianBuf::new(rest), value))
}

/// Parse a run of bytes whose length comes first, in 32 bits.
pub fn length_u32_value<'input, Endian>(input: EndianBuf<'input, Endian>) -> (res: ParseResult<
    (EndianBuf<'input, Endian>, &'input [u8]),
>) where Endian: Endianity
    ensures
        error::agrees_view(res, input@, u32_block_at(Endian::is_big_endian(), input@)),
{
    let (rest, len) = parse_u32(input)?;
    let (rest, value) = take(len as usize, rest.into())?;
    Ok((EndianBuf::new(rest), value))
}

/// Parse a run of bytes whose length comes first, in unsigned LEB128.
pub fn length_leb_value(input: &[u8]) -> (res: ParseResult<(&[u8], &[u8])>)
    ensures
        error::agrees_view(res, input@, leb_block_at(input@)),
{
    let (rest, len) = leb::parse_unsigned_leb(input)?;
    if len > rest.len() as u64 {
        Err(Error::UnexpectedEof)
    } else {
        take(len as usize, rest)
    }
}

} // verus!
