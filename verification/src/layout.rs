//! How integers, runs of bytes and headers are laid out in bytes, and that parsing
//! what is laid out so gives it back.
use crate::attribute::AttributeInput;
use crate::endianity;
use crate::endianity::Endianity;
use crate::error;
use crate::error::{Error, Outcome, ParseResult};
use crate::info;
use crate::leb;
use crate::reader;
use crate::reader::EndianBuf;
use crate::unit;
use crate::unit::{
    DebugTypesOffset, Format, FormatInput, TypeUnitHeaderView, UnitHeaderView, UnitOffset,
};
use vstd::arithmetic::power;
use vstd::prelude::*;

verus! {

broadcast use {vstd::seq_lib::lemma_seq_skip_of_skip, vstd::seq_lib::lemma_seq_skip_nothing};

/// A parser's result that agrees with an outcome splits the input into what the
/// value takes up and what is left, and is that outcome's value or error.
pub proof fn law_agrees<R: View<V = Seq<u8>>, T>(
    res: ParseResult<(R, T)>,
    input: Seq<u8>,
    outcome: Outcome<T>,
)
    requires
        error::agrees(res, input, outcome),
    ensures
        res is Ok <==> outcome is Ok,
        res is Ok ==> {
            &&& res->Ok_0.1 == outcome->Ok_0.0
            &&& input.take(outcome->Ok_0.1 as int) + res->Ok_0.0@ == input
            &&& outcome->Ok_0.1 + res->Ok_0.0@.len() == input.len()
        },
        res is Err ==> res->Err_0 == outcome->Err_0,
{
}

/// As `law_agrees`, for a value that is compared by its view.
pub proof fn law_agrees_view<R: View<V = Seq<u8>>, T: View>(
    res: ParseResult<(R, T)>,
    input: Seq<u8>,
    outcome: Outcome<T::V>,
)
    requires
        error::agrees_view(res, input, outcome),
    ensures
        res is Ok <==> outcome is Ok,
        res is Ok ==> {
            &&& res->Ok_0.1@ == outcome->Ok_0.0
            &&& input.take(outcome->Ok_0.1 as int) + res->Ok_0.0@ == input
            &&& outcome->Ok_0.1 + res->Ok_0.0@.len() == input.len()
        },
        res is Err ==> res->Err_0 == outcome->Err_0,
{
}

proof fn lemma_uint_bounds(big_endian: bool, s: Seq<u8>)
    ensures
        s.len() == 2 ==> endianity::uint(big_endian, s) < 0x1_0000,
        s.len() == 4 ==> endianity::uint(big_endian, s) < 0x1_0000_0000,
        s.len() == 8 ==> endianity::uint(big_endian, s) < 0x1_0000_0000_0000_0000,
{
    endianity::law_uint_bound(big_endian, s);
    reveal_with_fuel(power::pow, 9);
}

/// An integer of one, two, four or eight bytes is the one that those bytes encode.
/// With fewer bytes, parsing one hits the end of input.
pub proof fn law_parse_integers(big_endian: bool, s: Seq<u8>)
    ensures
        s.len() < 1 ==> reader::u8_at(s) == Err::<(u8, nat), Error>(Error::UnexpectedEof),
        s.len() >= 1 ==> reader::u8_at(s) == Ok::<(u8, nat), Error>((s[0], 1)),
        s.len() < 2 ==> reader::u16_at(big_endian, s) == Err::<(u16, nat), Error>(
            Error::UnexpectedEof,
        ),
        s.len() >= 2 ==> (reader::u16_at(big_endian, s) matches Ok((value, n)) && n == 2
            && endianity::uint(big_endian, s.take(2)) == value),
        s.len() < 4 ==> reader::u32_at(big_endian, s) == Err::<(u32, nat), Error>(
            Error::UnexpectedEof,
        ),
        s.len() >= 4 ==> (reader::u32_at(big_endian, s) matches Ok((value, n)) && n == 4
            && endianity::uint(big_endian, s.take(4)) == value),
        s.len() < 4 ==> reader::u32_as_u64_at(big_endian, s) == Err::<(u64, nat), Error>(
            Error::UnexpectedEof,
        ),
        s.len() >= 4 ==> (reader::u32_as_u64_at(big_endian, s) matches Ok((value, n)) && n == 4
            && endianity::uint(big_endian, s.take(4)) == value),
        s.len() < 8 ==> reader::u64_at(big_endian, s) == Err::<(u64, nat), Error>(
            Error::UnexpectedEof,
        ),
        s.len() >= 8 ==> (reader::u64_at(big_endian, s) matches Ok((value, n)) && n == 8
            && endianity::uint(big_endian, s.take(8)) == value),
{
    lemma_uint_bounds(big_endian, s.take(2));
    lemma_uint_bounds(big_endian, s.take(4));
    lemma_uint_bounds(big_endian, s.take(8));
}

/// Parsing an offset gives the integer that four bytes in 32-bit DWARF, and eight
/// in 64-bit DWARF, encode.
pub proof fn law_parse_offset(big_endian: bool, format: Format, s: Seq<u8>)
    ensures
        ({
            let width: nat = if format == Format::Dwarf32 {
                4
            } else {
                8
            };
            &&& s.len() < width ==> unit::offset_at(big_endian, format, s) == Err::<
                (u64, nat),
                Error,
            >(Error::UnexpectedEof)
            &&& s.len() >= width ==> (unit::offset_at(big_endian, format, s) matches Ok((value, n))
                && n == width && endianity::uint(big_endian, s.take(width as int)) == value)
        }),
{
    law_parse_integers(big_endian, s);
}

/// A run of bytes is parsed just if there are as many as it has, and is those.
pub proof fn law_parse_bytes(run: Seq<u8>, len: nat, t: Seq<u8>)
    ensures
        reader::bytes_at(run.len(), run + t) == Ok::<(Seq<u8>, nat), Error>((run, run.len())),
        len > t.len() ==> reader::bytes_at(len, t) == Err::<(Seq<u8>, nat), Error>(
            Error::UnexpectedEof,
        ),
{
    assert((run + t).take(run.len() as int) == run);
}

/// A run of bytes after its own length, in one, two or four bytes or in LEB128, is
/// parsed as that run, whatever comes after it.
pub proof fn law_parse_blocks(big_endian: bool, len_bytes: Seq<u8>, run: Seq<u8>, t: Seq<u8>)
    ensures
        len_bytes.len() == 1 && len_bytes[0] == run.len() ==> reader::u8_block_at(
            len_bytes + run + t,
        ) == Ok::<(Seq<u8>, nat), Error>((run, 1 + run.len())),
        len_bytes.len() == 2 && endianity::uint(big_endian, len_bytes) == run.len()
            ==> reader::u16_block_at(big_endian, len_bytes + run + t) == Ok::<
            (Seq<u8>, nat),
            Error,
        >((run, 2 + run.len())),
        len_bytes.len() == 4 && endianity::uint(big_endian, len_bytes) == run.len()
            ==> reader::u32_block_at(big_endian, len_bytes + run + t) == Ok::<
            (Seq<u8>, nat),
            Error,
        >((run, 4 + run.len())),
        run.len() <= u64::MAX && leb::is_u64_leb(len_bytes, run.len() as u64)
            ==> reader::leb_block_at(len_bytes + run + t) == Ok::<(Seq<u8>, nat), Error>(
            (run, len_bytes.len() + run.len()),
        ),
{
    let s = len_bytes + run + t;
    let k = len_bytes.len() as int;
    assert(s.take(k) == len_bytes);
    assert(s.skip(k) == run + t);
    assert((run + t).take(run.len() as int) == run);
    law_parse_integers(big_endian, s);
    if run.len() <= u64::MAX && leb::is_u64_leb(len_bytes, run.len() as u64) {
        leb::law_parse_unsigned_leb(len_bytes, run.len(), run + t);
        assert(len_bytes + (run + t) == s);
    }
}

/// A run of bytes after its own length is not parsed if the length is cut off or
/// bad, or if there are fewer bytes than it says.
pub proof fn law_blocks_cut_off(big_endian: bool, len_bytes: Seq<u8>, s: Seq<u8>, len: nat)
    requires
        s.len() < len,
    ensures
        len_bytes.len() < 1 ==> reader::u8_block_at(len_bytes) == Err::<(Seq<u8>, nat), Error>(
            Error::UnexpectedEof,
        ),
        len_bytes.len() == 1 && len_bytes[0] == len ==> reader::u8_block_at(len_bytes + s) == Err::<
            (Seq<u8>, nat),
            Error,
        >(Error::UnexpectedEof),
        len_bytes.len() < 2 ==> reader::u16_block_at(big_endian, len_bytes) == Err::<
            (Seq<u8>, nat),
            Error,
        >(Error::UnexpectedEof),
        len_bytes.len() == 2 && endianity::uint(big_endian, len_bytes) == len
            ==> reader::u16_block_at(big_endian, len_bytes + s) == Err::<(Seq<u8>, nat), Error>(
            Error::UnexpectedEof,
        ),
        len_bytes.len() < 4 ==> reader::u32_block_at(big_endian, len_bytes) == Err::<
            (Seq<u8>, nat),
            Error,
        >(Error::UnexpectedEof),
        len_bytes.len() == 4 && endianity::uint(big_endian, len_bytes) == len
            ==> reader::u32_block_at(big_endian, len_bytes + s) == Err::<(Seq<u8>, nat), Error>(
            Error::UnexpectedEof,
        ),
        len <= u64::MAX && leb::is_u64_leb(len_bytes, len as u64) ==> reader::leb_block_at(
            len_bytes + s,
        ) == Err::<(Seq<u8>, nat), Error>(Error::UnexpectedEof),
        leb::unsigned_leb(len_bytes) matches Err(e) ==> reader::leb_block_at(len_bytes) == Err::<
            (Seq<u8>, nat),
            Error,
        >(e),
{
    let joined = len_bytes + s;
    let k = len_bytes.len() as int;
    assert(joined.take(k) == len_bytes);
    assert(joined.skip(k) == s);
    law_parse_integers(big_endian, joined);
    law_parse_integers(big_endian, len_bytes);
    if len <= u64::MAX && leb::is_u64_leb(len_bytes, len as u64) {
        leb::law_parse_unsigned_leb(len_bytes, len, s);
    }
}

/// The views of buffers, and of the inputs that hold one, are their bytes.
pub proof fn law_buffer_views<Endian: Endianity>(
    buf: EndianBuf<Endian>,
    input: FormatInput<Endian>,
    attribute_input: AttributeInput<Endian>,
)
    ensures
        buf@ == buf.0@,
        input@ == input.0@,
        attribute_input@ == attribute_input.0@,
{
}

/// The integer that the bytes of `s` from `start` up to `end` encode.
pub open spec fn field(big_endian: bool, s: Seq<u8>, start: int, end: int) -> nat {
    endianity::uint(big_endian, s.subrange(start, end))
}

/// A unit's length is the integer in its first four bytes, in 32-bit DWARF. If it
/// is `0xffffffff`, it is the one in the next eight bytes, in 64-bit DWARF. Others
/// from `0xfffffff0` on are reserved.
pub proof fn law_parse_unit_length(big_endian: bool, s: Seq<u8>)
    ensures
        ({
            let initial = field(big_endian, s, 0, 4);
            let outcome = unit::unit_length_at(big_endian, s);
            &&& s.len() < 4 ==> outcome == Err::<((u64, Format), nat), Error>(Error::UnexpectedEof)
            &&& s.len() >= 4 && initial < 0xffff_fff0 ==> outcome == Ok::<
                ((u64, Format), nat),
                Error,
            >(((initial as u64, Format::Dwarf32), 4))
            &&& s.len() >= 4 && 0xffff_fff0 <= initial < 0xffff_ffff ==> outcome == Err::<
                ((u64, Format), nat),
                Error,
            >(Error::UnknownReservedLength)
            &&& 4 <= s.len() < 12 && initial == 0xffff_ffff ==> outcome == Err::<
                ((u64, Format), nat),
                Error,
            >(Error::UnexpectedEof)
            &&& s.len() >= 12 && initial == 0xffff_ffff ==> outcome == Ok::<
                ((u64, Format), nat),
                Error,
            >(((field(big_endian, s, 4, 12) as u64, Format::Dwarf64), 12))
        }),
{
    law_parse_integers(big_endian, s);
    if s.len() >= 4 {
        law_parse_integers(big_endian, s.skip(4));
        assert(s.take(4) == s.subrange(0, 4));
        lemma_uint_bounds(big_endian, s.take(4));
    }
    if s.len() >= 12 {
        assert(s.skip(4).take(8) == s.subrange(4, 12));
        lemma_uint_bounds(big_endian, s.subrange(4, 12));
    }
}

/// A unit's version is the integer in two bytes. It is two, three or four.
pub proof fn law_parse_version(big_endian: bool, s: Seq<u8>)
    ensures
        ({
            let version = field(big_endian, s, 0, 2);
            let outcome = unit::version_at(big_endian, s);
            &&& s.len() < 2 ==> outcome == Err::<(u16, nat), Error>(Error::UnexpectedEof)
            &&& s.len() >= 2 && (version == 2 || version == 3 || version == 4) ==> outcome == Ok::<
                (u16, nat),
                Error,
            >((version as u16, 2))
            &&& s.len() >= 2 && (version < 2 || version > 4) ==> outcome == Err::<
                (u16, nat),
                Error,
            >(Error::UnknownVersion)
        }),
{
    law_parse_integers(big_endian, s);
    if s.len() >= 2 {
        assert(s.take(2) == s.subrange(0, 2));
    }
}

/// Whether `bytes` are a unit with the given header, from its length up to the end
/// of its entries.
pub open spec fn is_unit(big_endian: bool, bytes: Seq<u8>, header: UnitHeaderView) -> bool {
    &&& 2 <= header.version <= 4
    &&& match header.format {
        Format::Dwarf32 => {
            &&& bytes.len() == 11 + header.entries.len()
            &&& bytes.len() == 4 + header.unit_length
            &&& header.unit_length < 0xffff_fff0
            &&& field(big_endian, bytes, 0, 4) == header.unit_length
            &&& field(big_endian, bytes, 4, 6) == header.version
            &&& field(big_endian, bytes, 6, 10) == header.debug_abbrev_offset.0
            &&& bytes[10] == header.address_size
            &&& bytes.skip(11) == header.entries
        },
        Format::Dwarf64 => {
            &&& bytes.len() == 23 + header.entries.len()
            &&& bytes.len() == 12 + header.unit_length
            &&& field(big_endian, bytes, 0, 4) == 0xffff_ffff
            &&& field(big_endian, bytes, 4, 12) == header.unit_length
            &&& field(big_endian, bytes, 12, 14) == header.version
            &&& field(big_endian, bytes, 14, 22) == header.debug_abbrev_offset.0
            &&& bytes[22] == header.address_size
            &&& bytes.skip(23) == header.entries
        },
    }
}

/// The number of bytes of a unit's header.
pub open spec fn header_len(format: Format) -> nat {
    match format {
        Format::Dwarf32 => 11,
        Format::Dwarf64 => 23,
    }
}

/// The number of bytes of a unit.
pub open spec fn unit_len(header: UnitHeaderView) -> nat {
    match header.format {
        Format::Dwarf32 => 4 + header.unit_length as nat,
        Format::Dwarf64 => 12 + header.unit_length as nat,
    }
}

/// Parsing a unit, whatever comes after it, gives its header and stops before its
/// entries.
pub proof fn law_parse_unit(big_endian: bool, bytes: Seq<u8>, header: UnitHeaderView, t: Seq<u8>)
    requires
        is_unit(big_endian, bytes, header),
    ensures
        unit::unit_header_at(big_endian, bytes + t) == Ok::<(UnitHeaderView, nat), Error>(
            (header, header_len(header.format)),
        ),
{
    let s = bytes + t;
    law_parse_unit_length(big_endian, s);
    assert(s.subrange(0, 4) == bytes.subrange(0, 4));
    match header.format {
        Format::Dwarf32 => {
            law_parse_version(big_endian, s.skip(4));
            law_parse_offset(big_endian, Format::Dwarf32, s.skip(6));
            law_parse_integers(big_endian, s.skip(10));
            assert(s.skip(4).subrange(0, 2) == bytes.subrange(4, 6));
            assert(s.skip(6).take(4) == bytes.subrange(6, 10));
            assert(s.skip(11).take(header.entries.len() as int) == header.entries);
        },
        Format::Dwarf64 => {
            law_parse_version(big_endian, s.skip(12));
            law_parse_offset(big_endian, Format::Dwarf64, s.skip(14));
            law_parse_integers(big_endian, s.skip(22));
            assert(s.subrange(4, 12) == bytes.subrange(4, 12));
            assert(s.skip(12).subrange(0, 2) == bytes.subrange(12, 14));
            assert(s.skip(14).take(8) == bytes.subrange(14, 22));
            assert(s.skip(23).take(header.entries.len() as int) == header.entries);
        },
    }
}

/// A header that is parsed is that of the unit that the input starts with.
pub proof fn law_parsed_unit_is_laid_out(big_endian: bool, s: Seq<u8>)
    ensures
        unit::unit_header_at(big_endian, s) matches Ok((header, n)) ==> {
            &&& n == header_len(header.format)
            &&& unit_len(header) <= s.len()
            &&& header.total_length() == unit_len(header)
            &&& is_unit(big_endian, s.take(unit_len(header) as int), header)
        },
{
    if let Ok((header, _)) = unit::unit_header_at(big_endian, s) {
        law_parse_unit_length(big_endian, s);
        lemma_uint_bounds(big_endian, s.subrange(0, 4));
        let bytes = s.take(unit_len(header) as int);
        match header.format {
            Format::Dwarf32 => {
                law_parse_version(big_endian, s.skip(4));
                law_parse_offset(big_endian, Format::Dwarf32, s.skip(6));
                law_parse_integers(big_endian, s.skip(10));
                assert(bytes.subrange(0, 4) == s.subrange(0, 4));
                assert(s.skip(4).subrange(0, 2) == bytes.subrange(4, 6));
                assert(s.skip(6).take(4) == bytes.subrange(6, 10));
                assert(s.skip(11).take(header.entries.len() as int) == bytes.skip(11));
            },
            Format::Dwarf64 => {
                law_parse_version(big_endian, s.skip(12));
                law_parse_offset(big_endian, Format::Dwarf64, s.skip(14));
                law_parse_integers(big_endian, s.skip(22));
                lemma_uint_bounds(big_endian, s.subrange(4, 12));
                assert(bytes.subrange(0, 4) == s.subrange(0, 4));
                assert(bytes.subrange(4, 12) == s.subrange(4, 12));
                assert(s.skip(12).subrange(0, 2) == bytes.subrange(12, 14));
                assert(s.skip(14).take(8) == bytes.subrange(14, 22));
                assert(s.skip(23).take(header.entries.len() as int) == bytes.skip(23));
            },
        }
    }
}

/// Why a unit's header is not parsed: the first of its fields that is cut off or
/// that has no meaning, or a length that ends the unit within its header or after
/// the input.
pub proof fn law_bad_units(big_endian: bool, s: Seq<u8>)
    ensures
        ({
            let initial = field(big_endian, s, 0, 4);
            let outcome = unit::unit_header_at(big_endian, s);
            let cut_off = Err::<(UnitHeaderView, nat), Error>(Error::UnexpectedEof);
            let bad_version = Err::<(UnitHeaderView, nat), Error>(Error::UnknownVersion);
            let too_short = Err::<(UnitHeaderView, nat), Error>(Error::UnitHeaderLengthTooShort);
            &&& s.len() < 4 ==> outcome == cut_off
            &&& s.len() >= 4 && 0xffff_fff0 <= initial < 0xffff_ffff ==> outcome == Err::<
                (UnitHeaderView, nat),
                Error,
            >(Error::UnknownReservedLength)
            &&& s.len() >= 4 && initial < 0xffff_fff0 ==> {
                let version = field(big_endian, s, 4, 6);
                &&& s.len() < 6 ==> outcome == cut_off
                &&& s.len() >= 6 && !(2 <= version <= 4) ==> outcome == bad_version
                &&& 6 <= s.len() < 11 && 2 <= version <= 4 ==> outcome == cut_off
                &&& s.len() >= 11 && 2 <= version <= 4 && initial < 7 ==> outcome == too_short
                &&& s.len() >= 11 && 2 <= version <= 4 && 4 + initial > s.len() && initial >= 7
                    ==> outcome == cut_off
                &&& s.len() >= 11 && 2 <= version <= 4 && 7 <= initial && 4 + initial <= s.len()
                    ==> outcome is Ok
            }
            &&& s.len() >= 4 && initial == 0xffff_ffff ==> {
                let length = field(big_endian, s, 4, 12);
                let version = field(big_endian, s, 12, 14);
                &&& s.len() < 14 ==> outcome == cut_off
                &&& s.len() >= 14 && !(2 <= version <= 4) ==> outcome == bad_version
                &&& 14 <= s.len() < 23 && 2 <= version <= 4 ==> outcome == cut_off
                &&& s.len() >= 23 && 2 <= version <= 4 && length < 11 ==> outcome == too_short
                &&& s.len() >= 23 && 2 <= version <= 4 && 12 + length > s.len() && length >= 11
                    ==> outcome == cut_off
                &&& s.len() >= 23 && 2 <= version <= 4 && 11 <= length && 12 + length <= s.len()
                    ==> outcome is Ok
            }
        }),
{
    law_parse_unit_length(big_endian, s);
    if s.len() >= 4 {
        let initial = field(big_endian, s, 0, 4);
        lemma_uint_bounds(big_endian, s.subrange(0, 4));
        if initial < 0xffff_fff0 {
            law_parse_version(big_endian, s.skip(4));
            if s.len() >= 6 {
                assert(s.skip(4).subrange(0, 2) == s.subrange(4, 6));
                law_parse_offset(big_endian, Format::Dwarf32, s.skip(6));
                if s.len() >= 10 {
                    law_parse_integers(big_endian, s.skip(10));
                }
            }
        } else if initial == 0xffff_ffff && s.len() >= 12 {
            lemma_uint_bounds(big_endian, s.subrange(4, 12));
            law_parse_version(big_endian, s.skip(12));
            if s.len() >= 14 {
                assert(s.skip(12).subrange(0, 2) == s.subrange(12, 14));
                law_parse_offset(big_endian, Format::Dwarf64, s.skip(14));
                if s.len() >= 22 {
                    law_parse_integers(big_endian, s.skip(22));
                }
            }
        }
    }
}

/// Offsets are counted from the start of the unit: those of its entries start
/// after its header, and the byte at one of them is the byte of the unit at that
/// offset.
pub proof fn law_unit_offsets(
    big_endian: bool,
    bytes: Seq<u8>,
    header: UnitHeaderView,
    offset: UnitOffset,
)
    requires
        is_unit(big_endian, bytes, header),
    ensures
        header.is_entries_offset(offset) <==> header_len(header.format) <= offset.0 < bytes.len(),
        header.is_entries_offset(offset) ==> {
            &&& header.entries[header.entries_index(offset)] == bytes[offset.0 as int]
            &&& header.entries.skip(header.entries_index(offset)) == bytes.skip(offset.0 as int)
            &&& header.entries.take(header.entries_index(offset)) == bytes.subrange(
                header_len(header.format) as int,
                offset.0 as int,
            )
        },
{
}

/// Which offsets are those of entries, in any header: the entries start 11 bytes
/// into a unit in 32-bit DWARF, and 23 bytes into one in 64-bit DWARF.
pub proof fn law_entries_offsets(header: UnitHeaderView, offset: UnitOffset)
    ensures
        header.is_entries_offset(offset) <==> header_len(header.format) <= offset.0 < header_len(
            header.format,
        ) + header.entries.len(),
        header.entries_index(offset) == offset.0 - header_len(header.format),
        header.total_length() == unit_len(header),
        header.format.header_size() == header_len(header.format),
        header.format.length_size() == if header.format == Format::Dwarf32 {
            4nat
        } else {
            12
        },
{
}

/// Iterating over a section that starts with a unit gives that unit's header, and
/// goes on after the unit.
pub proof fn law_first_unit(big_endian: bool, bytes: Seq<u8>, header: UnitHeaderView, t: Seq<u8>)
    requires
        is_unit(big_endian, bytes, header),
    ensures
        info::first_unit(big_endian, bytes + t) == Ok::<UnitHeaderView, Error>(header),
        info::after_first_unit(big_endian, bytes + t) == t,
        info::all_units(big_endian, bytes + t) == seq![Ok::<UnitHeaderView, Error>(header)]
            + info::all_units(big_endian, t),
{
    law_parse_unit(big_endian, bytes, header, t);
    assert((bytes + t).skip(bytes.len() as int) == t);
}

/// Iterating over a section whose first header cannot be parsed gives the reason,
/// and then nothing is left.
pub proof fn law_bad_first_unit(big_endian: bool, s: Seq<u8>)
    requires
        unit::unit_header_at(big_endian, s) is Err,
    ensures
        info::first_unit(big_endian, s) == Err::<UnitHeaderView, Error>(
            unit::unit_header_at(big_endian, s)->Err_0,
        ),
        info::after_first_unit(big_endian, s) == Seq::<u8>::empty(),
{
}

/// A type unit's header is that of a unit, with a signature and an offset. They
/// come before its entries, and take up 12 bytes in 32-bit DWARF and 16 bytes in
/// 64-bit DWARF.
pub proof fn law_type_unit_entries(
    header: UnitHeaderView,
    type_signature: u64,
    type_offset: DebugTypesOffset,
)
    ensures
        ({
            let res = unit::type_unit_header(header, type_signature, type_offset);
            let size: int = if header.format == Format::Dwarf32 {
                12
            } else {
                16
            };
            &&& res.type_signature == type_signature
            &&& res.type_offset == type_offset
            &&& res.header == (UnitHeaderView { entries: header.entries.skip(size), ..header })
            &&& header.format.type_header_size() == size
            &&& header.format.offset_size() == size - 8
        }),
{
}

/// Whether `bytes` are a type unit with the given header: a unit whose type
/// signature, of eight bytes, and type offset, of four or eight bytes, come before
/// its entries.
pub open spec fn is_type_unit(big_endian: bool, bytes: Seq<u8>, header: TypeUnitHeaderView) -> bool {
    let start = header_len(header.header.format) as int;
    let width: int = if header.header.format == Format::Dwarf32 {
        4
    } else {
        8
    };
    &&& bytes.len() == start + 8 + width + header.header.entries.len()
    &&& is_unit(big_endian, bytes, (UnitHeaderView { entries: bytes.skip(start), ..header.header }))
    &&& field(big_endian, bytes, start, start + 8) == header.type_signature
    &&& field(big_endian, bytes, start + 8, start + 8 + width) == header.type_offset.0
    &&& bytes.skip(start + 8 + width) == header.header.entries
}

/// Parsing a type unit, whatever comes after it, gives its header and stops before
/// its entries.
pub proof fn law_parse_type_unit(
    big_endian: bool,
    bytes: Seq<u8>,
    header: TypeUnitHeaderView,
    t: Seq<u8>,
)
    requires
        is_type_unit(big_endian, bytes, header),
    ensures
        unit::type_unit_header_at(big_endian, bytes + t) == Ok::<(TypeUnitHeaderView, nat), Error>(
            (header, (bytes.len() - header.header.entries.len()) as nat),
        ),
{
    let s = bytes + t;
    let format = header.header.format;
    let start = header_len(format) as int;
    let width: int = if format == Format::Dwarf32 {
        4
    } else {
        8
    };
    let common = UnitHeaderView { entries: bytes.skip(start), ..header.header };
    law_parse_unit(big_endian, bytes, common, t);
    law_parse_integers(big_endian, s.skip(start));
    law_parse_offset(big_endian, format, s.skip(start + 8));
    assert(s.skip(start).take(8) == bytes.subrange(start, start + 8));
    assert(s.skip(start + 8).take(width) == bytes.subrange(start + 8, start + 8 + width));
    assert(common.entries.skip(8 + width) == header.header.entries);
}

/// A type unit's header that is parsed is that of the type unit that the input
/// starts with, where the unit does not end within its header.
pub proof fn law_parsed_type_unit_is_laid_out(big_endian: bool, s: Seq<u8>)
    requires
        !unit::is_cut_type_unit(big_endian, s),
    ensures
        unit::type_unit_header_at(big_endian, s) matches Ok((header, n)) ==> {
            &&& unit_len(header.header) <= s.len()
            &&& is_type_unit(big_endian, s.take(unit_len(header.header) as int), header)
            &&& n + header.header.entries.len() == unit_len(header.header)
        },
{
    law_parsed_unit_is_laid_out(big_endian, s);
    if let Ok((header, _)) = unit::type_unit_header_at(big_endian, s) {
        let format = header.header.format;
        let start = header_len(format) as int;
        let width: int = if format == Format::Dwarf32 {
            4
        } else {
            8
        };
        let bytes = s.take(unit_len(header.header) as int);
        let common = unit::unit_header_at(big_endian, s)->Ok_0.0;
        law_parse_integers(big_endian, s.skip(start));
        law_parse_offset(big_endian, format, s.skip(start + 8));
        assert(s.skip(start).take(8) == bytes.subrange(start, start + 8));
        assert(s.skip(start + 8).take(width) == bytes.subrange(start + 8, start + 8 + width));
        assert(common.entries == bytes.skip(start));
        assert(common == (UnitHeaderView { entries: bytes.skip(start), ..header.header }));
    }
}

/// Why a type unit's header is not parsed: for the same reasons as that of another
/// unit, or because its type signature or type offset is cut off.
pub proof fn law_bad_type_units(big_endian: bool, s: Seq<u8>)
    ensures
        match unit::unit_header_at(big_endian, s) {
            Err(e) => unit::type_unit_header_at(big_endian, s) == Err::<
                (TypeUnitHeaderView, nat),
                Error,
            >(e),
            Ok((header, _)) => {
                let end: int = if header.format == Format::Dwarf32 {
                    23
                } else {
                    39
                };
                &&& s.len() >= end ==> unit::type_unit_header_at(big_endian, s) is Ok
                &&& s.len() < end ==> unit::type_unit_header_at(big_endian, s) == Err::<
                    (TypeUnitHeaderView, nat),
                    Error,
                >(Error::UnexpectedEof)
            },
        },
{
    law_parsed_unit_is_laid_out(big_endian, s);
}

} // verus!
