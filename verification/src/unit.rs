//! The headers of compilation units and type units.
use crate::endianity::Endianity;
use crate::error;
use crate::error::{Error, Outcome, ParseResult};
use crate::reader;
use crate::reader::EndianBuf;
use core::ops::{Deref, Range, RangeFrom, RangeTo};
use vstd::prelude::*;
use vstd::slice::slice_subrange;

verus! {

broadcast use vstd::seq_lib::lemma_seq_skip_of_skip;

/// An offset into the `.debug_types` section.
#[derive(Debug, Clone, Copy, PartialEq, Eq, Structural)]
pub struct DebugTypesOffset(pub u64);

/// An offset into the `.debug_str` section.
#[derive(Debug, Clone, Copy, PartialEq, Eq, Structural)]
pub struct DebugStrOffset(pub u64);

/// An offset into the `.debug_abbrev` section.
#[derive(Debug, Clone, Copy, PartialEq, Eq, Structural)]
pub struct DebugAbbrevOffset(pub u64);

/// An offset into the `.debug_info` section.
#[derive(Debug, Clone, Copy, PartialEq, Eq, Structural)]
pub struct DebugInfoOffset(pub u64);

/// An offset into the `.debug_line` section.
#[derive(Debug, Clone, Copy, PartialEq, Eq, Structural)]
pub struct DebugLineOffset(pub u64);

/// An offset into the `.debug_loc` section.
#[derive(Debug, Clone, Copy, PartialEq, Eq, Structural)]
pub struct DebugLocOffset(pub u64);

/// An offset into the `.debug_macinfo` section.
#[derive(Debug, Clone, Copy, PartialEq, Eq, Structural)]
pub struct DebugMacinfoOffset(pub u64);

/// An offset into the current compilation or type unit.
#[derive(Debug, Clone, Copy, PartialEq, Eq, PartialOrd, Ord, Structural)]
pub struct UnitOffset(pub u64);

/// Whether the format of a compilation unit is 32- or 64-bit.
#[derive(Debug, Clone, Copy, PartialEq, Eq, Structural)]
pub enum Format {
    /// 64-bit DWARF
    Dwarf64,
    /// 32-bit DWARF
    Dwarf32,
}

impl Format {
    /// The number of bytes of an offset in this format.
    pub open spec fn offset_size(self) -> nat {
        match self {
            Format::Dwarf32 => 4,
            Format::Dwarf64 => 8,
        }
    }

    /// The number of bytes that a unit's length takes up in this format.
    pub open spec fn length_size(self) -> nat {
        match self {
            Format::Dwarf32 => 4,
            Format::Dwarf64 => 12,
        }
    }

    /// The number of bytes of a compilation unit's header in this format: the
    /// unit's length, the version, the offset of the abbreviations and the
    /// address size.
    pub open spec fn header_size(self) -> nat {
        self.length_size() + 2 + self.offset_size() + 1
    }

    /// The number of bytes by which a type unit's header is longer than that of
    /// a compilation unit: the type's signature and its offset.
    pub open spec fn type_header_size(self) -> nat {
        8 + self.offset_size()
    }
}

/// The input to parsing various compilation unit header information.
#[derive(Debug, Clone, Copy)]
pub struct FormatInput<'input, Endian>(pub EndianBuf<'input, Endian>, pub Format) where
    Endian: Endianity,
;

impl<'input, Endian> View for FormatInput<'input, Endian> where Endian: Endianity {
    type V = Seq<u8>;

    open spec fn view(&self) -> Seq<u8> {
        self.0@
    }
}

impl<'input, Endian> Deref for FormatInput<'input, Endian> where Endian: Endianity {
    type Target = EndianBuf<'input, Endian>;

    fn deref(&self) -> (res: &EndianBuf<'input, Endian>)
        ensures
            *res == self.0,
    {
        &self.0
    }
}

impl<'input, Endian> FormatInput<'input, Endian> where Endian: Endianity {
    /// The same format, with other bytes.
    pub fn merge(&self, rest: EndianBuf<'input, Endian>) -> (res: FormatInput<'input, Endian>)
        ensures
            res.0 == rest,
            res.1 == self.1,
    {
        FormatInput(rest, self.1)
    }

    /// The bytes of this input.
    pub fn into(self) -> (res: &'input [u8])
        ensures
            res@ == self@,
    {
        self.0.into()
    }
}

/// The first unit length that 32-bit DWARF reserves.
pub const MAX_DWARF_32_UNIT_LENGTH: u64 = 0xfffffff0;

/// The unit length that stands for 64-bit DWARF: the actual length follows.
pub const DWARF_64_INITIAL_UNIT_LENGTH: u64 = 0xffffffff;

/// Parsing a unit's length, and with it the format.
pub open spec fn unit_length_at(big_endian: bool, s: Seq<u8>) -> Outcome<(u64, Format)> {
    match reader::u32_as_u64_at(big_endian, s) {
        Ok((value, n)) => if value < MAX_DWARF_32_UNIT_LENGTH {
            Ok(((value, Format::Dwarf32), n))
        } else if value == DWARF_64_INITIAL_UNIT_LENGTH {
            match reader::u64_at(big_endian, s.skip(n as int)) {
                Ok((value, m)) => Ok(((value, Format::Dwarf64), n + m)),
                Err(e) => Err(e),
            }
        } else {
            Err(Error::UnknownReservedLength)
        },
        Err(e) => Err(e),
    }
}

/// Parsing a unit's DWARF version, from 2 to 4.
pub open spec fn version_at(big_endian: bool, s: Seq<u8>) -> Outcome<u16> {
    match reader::u16_at(big_endian, s) {
        Ok((value, n)) => if 2 <= value <= 4 {
            Ok((value, n))
        } else {
            Err(Error::UnknownVersion)
        },
        Err(e) => Err(e),
    }
}

/// Parsing an offset, as wide as the format says.
pub open spec fn offset_at(big_endian: bool, format: Format, s: Seq<u8>) -> Outcome<u64> {
    match format {
        Format::Dwarf32 => reader::u32_as_u64_at(big_endian, s),
        Format::Dwarf64 => reader::u64_at(big_endian, s),
    }
}

/// Parse the compilation unit header's length.
pub fn parse_unit_length<'input, Endian>(input: EndianBuf<'input, Endian>) -> (res: ParseResult<
    (EndianBuf<'input, Endian>, (u64, Format)),
>) where Endian: Endianity
    ensures
        error::agrees(res, input@, unit_length_at(Endian::is_big_endian(), input@)),
{
    let (rest, val) = reader::parse_u32_as_u64(input)?;
    if val < MAX_DWARF_32_UNIT_LENGTH {
        Ok((rest, (val, Format::Dwarf32)))
    } else if val == DWARF_64_INITIAL_UNIT_LENGTH {
        let (rest, val) = reader::parse_u64(rest)?;
        Ok((rest, (val, Format::Dwarf64)))
    } else {
        Err(Error::UnknownReservedLength)
    }
}

/// Parse the DWARF version from the compilation unit header.
pub fn parse_version<'input, Endian>(input: EndianBuf<'input, Endian>) -> (res: ParseResult<
    (EndianBuf<'input, Endian>, u16),
>) where Endian: Endianity
    ensures
        error::agrees(res, input@, version_at(Endian::is_big_endian(), input@)),
{
    let (rest, val) = reader::parse_u16(input)?;

    // DWARF 1 was very different, and is obsolete, so isn't supported by this
    // reader.
    if 2 <= val && val <= 4 {
        Ok((rest, val))
    } else {
        Err(Error::UnknownVersion)
    }
}

/// Parse an offset, as wide as the format says.
pub(crate) fn parse_offset<'input, Endian>(
    format: Format,
    input: EndianBuf<'input, Endian>,
) -> (res: ParseResult<(EndianBuf<'input, Endian>, u64)>) where Endian: Endianity
    ensures
        error::agrees(res, input@, offset_at(Endian::is_big_endian(), format, input@)),
{
    match format {
        Format::Dwarf32 => reader::parse_u32_as_u64(input),
        Format::Dwarf64 => reader::parse_u64(input),
    }
}

/// Parse the `debug_abbrev_offset` in the compilation unit header.
pub fn parse_debug_abbrev_offset<'input, Endian>(input: FormatInput<'input, Endian>) -> (res:
    ParseResult<(FormatInput<'input, Endian>, DebugAbbrevOffset)>) where Endian: Endianity
    ensures
        match offset_at(Endian::is_big_endian(), input.1, input@) {
            Ok((offset, n)) => res matches Ok((rest, value)) && rest@ == input@.skip(n as int)
                && rest.1 == input.1 && value.0 == offset,
            Err(e) => res == Err::<(FormatInput<'input, Endian>, DebugAbbrevOffset), Error>(e),
        },
{
    let (rest, offset) = parse_offset(input.1, input.0)?;
    Ok((input.merge(rest), DebugAbbrevOffset(offset)))
}

/// Parse the size of addresses (in bytes) on the target architecture.
pub fn parse_address_size(input: &[u8]) -> (res: ParseResult<(&[u8], u8)>)
    ensures
        error::agrees(res, input@, reader::u8_at(input@)),
{
    reader::parse_u8(input)
}

/// What a unit header says.
#[verifier::ext_equal]
pub struct UnitHeaderView {
    pub unit_length: u64,
    pub version: u16,
    pub debug_abbrev_offset: DebugAbbrevOffset,
    pub address_size: u8,
    pub format: Format,
    /// The bytes of the unit's entries.
    pub entries: Seq<u8>,
}

impl UnitHeaderView {
    /// The number of bytes of the unit, its length included.
    pub open spec fn total_length(self) -> nat {
        self.format.length_size() + self.unit_length as nat
    }

    /// Whether `offset`, counted from the start of the unit, is that of a byte
    /// of the unit's entries.
    pub open spec fn is_entries_offset(self, offset: UnitOffset) -> bool {
        self.format.header_size() <= offset.0 < self.format.header_size() + self.entries.len()
    }

    /// Where among the entries the byte at `offset` is.
    pub open spec fn entries_index(self, offset: UnitOffset) -> int {
        offset.0 - self.format.header_size()
    }
}

/// The header of a compilation unit's debugging information.
#[derive(Debug, Clone, Copy, PartialEq, Eq)]
pub struct UnitHeader<'input, Endian> where Endian: Endianity {
    unit_length: u64,
    version: u16,
    debug_abbrev_offset: DebugAbbrevOffset,
    address_size: u8,
    format: Format,
    entries_buf: EndianBuf<'input, Endian>,
}

impl<'input, Endian> View for UnitHeader<'input, Endian> where Endian: Endianity {
    type V = UnitHeaderView;

    closed spec fn view(&self) -> UnitHeaderView {
        UnitHeaderView {
            unit_length: self.unit_length,
            version: self.version,
            debug_abbrev_offset: self.debug_abbrev_offset,
            address_size: self.address_size,
            format: self.format,
            entries: self.entries_buf@,
        }
    }
}

/// Static methods.
impl<'input, Endian> UnitHeader<'input, Endian> where Endian: Endianity {
    /// Construct a new `UnitHeader`.
    pub fn new(
        unit_length: u64,
        version: u16,
        debug_abbrev_offset: DebugAbbrevOffset,
        address_size: u8,
        format: Format,
        entries_buf: &'input [u8],
    ) -> (res: UnitHeader<'input, Endian>)
        ensures
            res@ == (UnitHeaderView {
                unit_length,
                version,
                debug_abbrev_offset,
                address_size,
                format,
                entries: entries_buf@,
            }),
    {
        UnitHeader {
            unit_length,
            version,
            debug_abbrev_offset,
            address_size,
            format,
            entries_buf: EndianBuf::new(entries_buf),
        }
    }

    /// Return the serialized size of the `unit_length` attribute for the given
    /// DWARF format.
    pub fn size_of_unit_length(format: Format) -> (size: usize)
        ensures
            size == format.length_size(),
    {
        match format {
            Format::Dwarf32 => 4,
            Format::Dwarf64 => 12,
        }
    }

    /// Return the serialized size of the compilation unit header for the given
    /// DWARF format.
    pub fn size_of_header(format: Format) -> (size: usize)
        ensures
            size == format.header_size(),
    {
        let unit_length_size: usize = Self::size_of_unit_length(format);
        let version_size: usize = 2;
        let debug_abbrev_offset_size: usize = match format {
            Format::Dwarf32 => 4,
            Format::Dwarf64 => 8,
        };
        let address_size_size: usize = 1;

        unit_length_size + version_size + debug_abbrev_offset_size + address_size_size
    }
}

/// Instance methods.
impl<'input, Endian> UnitHeader<'input, Endian> where Endian: Endianity {
    /// Get the length of the debugging info for this compilation unit, not
    /// including the byte length of the encoded length itself.
    pub fn unit_length(&self) -> (res: u64)
        ensures
            res == self@.unit_length,
    {
        self.unit_length
    }

    /// Get the length of the debugging info for this compilation unit,
    /// including the byte length of the encoded length itself.
    pub fn length_including_self(&self) -> (res: u64)
        requires
            self@.total_length() <= u64::MAX,
        ensures
            res == self@.total_length(),
    {
        match self.format {
            // Length of the 32-bit header plus the unit length.
            Format::Dwarf32 => 4 + self.unit_length,
            // Length of the 4 byte 0xffffffff value to enable 64-bit mode plus
            // the actual 64-bit length.
            Format::Dwarf64 => 4 + 8 + self.unit_length,
        }
    }

    /// Get the DWARF version of the debugging info for this compilation unit.
    pub fn version(&self) -> (res: u16)
        ensures
            res == self@.version,
    {
        self.version
    }

    /// The offset into the `.debug_abbrev` section for this compilation unit's
    /// debugging information entries' abbreviations.
    pub fn debug_abbrev_offset(&self) -> (res: DebugAbbrevOffset)
        ensures
            res == self@.debug_abbrev_offset,
    {
        self.debug_abbrev_offset
    }

    /// The size of addresses (in bytes) in this compilation unit.
    pub fn address_size(&self) -> (res: u8)
        ensures
            res == self@.address_size,
    {
        self.address_size
    }

    /// Whether this compilation unit is encoded in 64- or 32-bit DWARF.
    pub fn format(&self) -> (res: Format)
        ensures
            res == self@.format,
    {
        self.format
    }

    /// The bytes of this unit's entries.
    pub(crate) fn entries_bytes(&self) -> (res: &'input [u8])
        ensures
            res@ == self@.entries,
    {
        self.entries_buf.into()
    }

    /// Whether `offset`, counted from the start of the unit, is that of a byte
    /// of the unit's entries.
    pub fn is_valid_offset(&self, offset: UnitOffset) -> (res: bool)
        ensures
            res == self@.is_entries_offset(offset),
    {
        let size_of_header: u64 = Self::size_of_header(self.format) as u64;
        if !(offset.0 >= size_of_header) {
            return false;
        }
        let relative_to_entries_buf: u64 = offset.0 - size_of_header;
        relative_to_entries_buf < self.entries_buf.len() as u64
    }

    /// Get the underlying bytes for the supplied range.
    pub fn range(&self, idx: Range<UnitOffset>) -> (res: &'input [u8])
        requires
            self@.is_entries_offset(idx.start),
            self@.is_entries_offset(idx.end),
            idx.start.0 <= idx.end.0,
        ensures
            res@ == self@.entries.subrange(
                self@.entries_index(idx.start),
                self@.entries_index(idx.end),
            ),
    {
        assert(self.entries_buf.0.len() <= usize::MAX);
        let size_of_header: u64 = Self::size_of_header(self.format) as u64;
        let start: usize = (idx.start.0 - size_of_header) as usize;
        let end: usize = (idx.end.0 - size_of_header) as usize;
        slice_subrange(self.entries_buf.0, start, end)
    }

    /// Get the underlying bytes for the supplied range.
    pub fn range_from(&self, idx: RangeFrom<UnitOffset>) -> (res: &'input [u8])
        requires
            self@.is_entries_offset(idx.start),
        ensures
            res@ == self@.entries.skip(self@.entries_index(idx.start)),
    {
        let start: usize = (idx.start.0 - Self::size_of_header(self.format) as u64) as usize;
        slice_subrange(self.entries_buf.0, start, self.entries_buf.0.len())
    }

    /// Get the underlying bytes for the supplied range.
    pub fn range_to(&self, idx: RangeTo<UnitOffset>) -> (res: &'input [u8])
        requires
            self@.is_entries_offset(idx.end),
        ensures
            res@ == self@.entries.take(self@.entries_index(idx.end)),
    {
        assert(self.entries_buf.0.len() <= usize::MAX);
        let end: usize = (idx.end.0 - Self::size_of_header(self.format) as u64) as usize;
        slice_subrange(self.entries_buf.0, 0, end)
    }
}

/// Parsing a compilation unit header. What is left afterwards starts with the
/// unit's entries.
pub open spec fn unit_header_at(big_endian: bool, s: Seq<u8>) -> Outcome<UnitHeaderView> {
    match unit_length_at(big_endian, s) {
        Ok(((unit_length, format), n)) => match version_at(big_endian, s.skip(n as int)) {
            Ok((version, m)) => match offset_at(big_endian, format, s.skip((n + m) as int)) {
                Ok((offset, k)) => match reader::u8_at(s.skip((n + m + k) as int)) {
                    Ok((address_size, j)) => {
                        let rest = s.skip((n + m + k + j) as int);
                        let end = unit_length + format.length_size() - format.header_size();
                        if end < 0 {
                            Err(Error::UnitHeaderLengthTooShort)
                        } else if end > rest.len() {
                            Err(Error::UnexpectedEof)
                        } else {
                            let header = UnitHeaderView {
                                unit_length,
                                version,
                                debug_abbrev_offset: DebugAbbrevOffset(offset),
                                address_size,
                                format,
                                entries: rest.take(end),
                            };
                            Ok((header, n + m + k + j))
                        }
                    },
                    Err(e) => Err(e),
                },
                Err(e) => Err(e),
            },
            Err(e) => Err(e),
        },
        Err(e) => Err(e),
    }
}

/// Parse a compilation unit header.
///
/// A unit length with which the end of the unit is past all that an integer can
/// hold is past the end of the input too.
pub fn parse_unit_header<'input, Endian>(input: EndianBuf<'input, Endian>) -> (res: ParseResult<
    (EndianBuf<'input, Endian>, UnitHeader<'input, Endian>),
>) where Endian: Endianity
    ensures
        error::agrees_view(res, input@, unit_header_at(Endian::is_big_endian(), input@)),
        res matches Ok((_, header)) ==> header@.total_length() <= u64::MAX,
{
    proof {
        law_unit_extent(Endian::is_big_endian(), input@);
    }
    assert(input.0.len() <= usize::MAX);
    let (rest, (unit_length, format)) = parse_unit_length(input)?;
    let (rest, version) = parse_version(rest)?;
    let (rest, offset) = parse_debug_abbrev_offset(FormatInput(rest, format))?;
    let (rest, address_size) = parse_address_size(rest.into())?;

    let size_of_unit_length: u64 = UnitHeader::<Endian>::size_of_unit_length(format) as u64;
    let size_of_header: u64 = UnitHeader::<Endian>::size_of_header(format) as u64;

    if unit_length < size_of_header - size_of_unit_length {
        return Err(Error::UnitHeaderLengthTooShort);
    }
    let end: u64 = unit_length - (size_of_header - size_of_unit_length);
    if end > rest.len() as u64 {
        return Err(Error::UnexpectedEof);
    }
    let entries_buf = slice_subrange(rest, 0, end as usize);
    Ok(
        (
            EndianBuf::new(rest),
            UnitHeader::new(unit_length, version, offset, address_size, format, entries_buf),
        ),
    )
}

/// A unit header that can be parsed takes up as many bytes as its format says,
/// its version is one that is supported, its entries follow it, and the unit,
/// which ends with them, lies within the section.
pub proof fn law_unit_extent(big_endian: bool, s: Seq<u8>)
    ensures
        unit_header_at(big_endian, s) matches Ok((header, n)) ==> {
            &&& n == header.format.header_size()
            &&& 2 <= header.version <= 4
            &&& header.total_length() == n + header.entries.len()
            &&& header.total_length() <= s.len()
            &&& header.entries == s.subrange(n as int, header.total_length() as int)
        },
{
    if let Ok((header, n)) = unit_header_at(big_endian, s) {
        assert(s.skip(n as int).take(header.total_length() - n) == s.subrange(
            n as int,
            header.total_length() as int,
        ));
    }
}

/// A unit's entries are those before an offset and then those from it on; and
/// those from one offset to another are what the two leave between them.
pub proof fn law_ranges_join(unit: UnitHeaderView, start: UnitOffset, end: UnitOffset)
    requires
        unit.is_entries_offset(start),
        unit.is_entries_offset(end),
        start.0 <= end.0,
    ensures
        unit.entries.take(unit.entries_index(start)) + unit.entries.skip(unit.entries_index(start))
            == unit.entries,
        unit.entries.take(unit.entries_index(start)) + unit.entries.subrange(
            unit.entries_index(start),
            unit.entries_index(end),
        ) == unit.entries.take(unit.entries_index(end)),
{
}

/// What a unit's header says depends on no byte after the unit.
pub proof fn law_unit_prefix(big_endian: bool, s: Seq<u8>, t: Seq<u8>)
    requires
        unit_header_at(big_endian, s) is Ok,
    ensures
        unit_header_at(
            big_endian,
            s.take(unit_header_at(big_endian, s)->Ok_0.0.total_length() as int) + t,
        ) == unit_header_at(big_endian, s),
{
    law_unit_extent(big_endian, s);
    let (header, size) = unit_header_at(big_endian, s)->Ok_0;
    let total = header.total_length() as int;
    let other = s.take(total) + t;
    reader::lemma_joined_prefix(s, total, t);
    assert(other[size - 1] == s[size - 1]);
}

/// What a type unit header says.
#[verifier::ext_equal]
pub struct TypeUnitHeaderView {
    /// What the part that is common to all units says, with the entries of the
    /// type unit.
    pub header: UnitHeaderView,
    pub type_signature: u64,
    pub type_offset: DebugTypesOffset,
}

/// The header of a type unit's debugging information.
#[derive(Debug, Clone, Copy, PartialEq, Eq)]
pub struct TypeUnitHeader<'input, Endian> where Endian: Endianity {
    header: UnitHeader<'input, Endian>,
    type_signature: u64,
    type_offset: DebugTypesOffset,
}

impl<'input, Endian> View for TypeUnitHeader<'input, Endian> where Endian: Endianity {
    type V = TypeUnitHeaderView;

    closed spec fn view(&self) -> TypeUnitHeaderView {
        TypeUnitHeaderView {
            header: self.header@,
            type_signature: self.type_signature,
            type_offset: self.type_offset,
        }
    }
}

/// What the header of a type unit says, given the part that is common to all
/// units, in which the entries start right after that part.
pub open spec fn type_unit_header(
    header: UnitHeaderView,
    type_signature: u64,
    type_offset: DebugTypesOffset,
) -> TypeUnitHeaderView {
    TypeUnitHeaderView {
        header: UnitHeaderView {
            entries: header.entries.skip(header.format.type_header_size() as int),
            ..header
        },
        type_signature,
        type_offset,
    }
}

impl<'input, Endian> TypeUnitHeader<'input, Endian> where Endian: Endianity {
    /// Construct a new `TypeUnitHeader`.
    pub fn new(
        header: UnitHeader<'input, Endian>,
        type_signature: u64,
        type_offset: DebugTypesOffset,
    ) -> (res: TypeUnitHeader<'input, Endian>)
        requires
            header@.entries.len() >= header@.format.type_header_size(),
        ensures
            res@ == type_unit_header(header@, type_signature, type_offset),
    {
        let mut header = header;
        // First, fix up the header's entries_buf. Currently it points
        // right after end of the header, but since this is a type
        // unit header, there are two more fields before entries
        // begin. The type_signature is always 64 bits regardless of
        // format, the type_offset is 32 or 64 bits depending on the
        // format.
        let additional_header_size: usize = 8 + (match header.format {
            Format::Dwarf32 => 4,
            Format::Dwarf64 => 8,
        });
        header.entries_buf = header.entries_buf.range_from(additional_header_size..);

        TypeUnitHeader { header, type_signature, type_offset }
    }

    /// Get the length of the debugging info for this compilation unit.
    pub fn unit_length(&self) -> (res: u64)
        ensures
            res == self@.header.unit_length,
    {
        self.header.unit_length
    }

    /// Get the DWARF version of the debugging info for this compilation unit.
    pub fn version(&self) -> (res: u16)
        ensures
            res == self@.header.version,
    {
        self.header.version
    }

    /// The offset into the `.debug_abbrev` section for this compilation unit's
    /// debugging information entries.
    pub fn debug_abbrev_offset(&self) -> (res: DebugAbbrevOffset)
        ensures
            res == self@.header.debug_abbrev_offset,
    {
        self.header.debug_abbrev_offset
    }

    /// The size of addresses (in bytes) in this compilation unit.
    pub fn address_size(&self) -> (res: u8)
        ensures
            res == self@.header.address_size,
    {
        self.header.address_size
    }

    /// Get the unique type signature for this type unit.
    pub fn type_signature(&self) -> (res: u64)
        ensures
            res == self@.type_signature,
    {
        self.type_signature
    }

    /// Get the offset within this type unit where the type is defined.
    pub fn type_offset(&self) -> (res: DebugTypesOffset)
        ensures
            res == self@.type_offset,
    {
        self.type_offset
    }
}

/// Parse a type unit header's unique type signature. Callers should handle
/// unique-ness checking.
pub fn parse_type_signature<'input, Endian>(input: EndianBuf<'input, Endian>) -> (res: ParseResult<
    (EndianBuf<'input, Endian>, u64),
>) where Endian: Endianity
    ensures
        error::agrees(res, input@, reader::u64_at(Endian::is_big_endian(), input@)),
{
    reader::parse_u64(input)
}

/// Parse a type unit header's type offset.
pub fn parse_type_offset<'input, Endian>(input: FormatInput<'input, Endian>) -> (res: ParseResult<
    (FormatInput<'input, Endian>, DebugTypesOffset),
>) where Endian: Endianity
    ensures
        match offset_at(Endian::is_big_endian(), input.1, input@) {
            Ok((offset, n)) => res matches Ok((rest, value)) && rest@ == input@.skip(n as int)
                && rest.1 == input.1 && value.0 == offset,
            Err(e) => res == Err::<(FormatInput<'input, Endian>, DebugTypesOffset), Error>(e),
        },
{
    let (rest, offset) = parse_offset(input.1, input.0)?;
    Ok((input.merge(rest), DebugTypesOffset(offset)))
}

/// Parsing a type unit header. What is left afterwards starts with the unit's
/// entries.
pub open spec fn type_unit_header_at(big_endian: bool, s: Seq<u8>) -> Outcome<TypeUnitHeaderView> {
    match unit_header_at(big_endian, s) {
        Ok((header, n)) => match reader::u64_at(big_endian, s.skip(n as int)) {
            Ok((signature, m)) => match offset_at(
                big_endian,
                header.format,
                s.skip((n + m) as int),
            ) {
                Ok((offset, k)) => Ok(
                    (type_unit_header(header, signature, DebugTypesOffset(offset)), n + m + k),
                ),
                Err(e) => Err(e),
            },
            Err(e) => Err(e),
        },
        Err(e) => Err(e),
    }
}

/// Whether a unit that claims to be a type unit ends before its header does,
/// though the input goes on.
pub open spec fn is_cut_type_unit(big_endian: bool, s: Seq<u8>) -> bool {
    unit_header_at(big_endian, s) matches Ok((header, n)) && header.entries.len()
        < header.format.type_header_size() <= s.len() - n
}

/// A type unit's entries follow its header, which takes up as many bytes as its
/// format says, and reach up to the end of the unit.
pub proof fn law_type_unit_extent(big_endian: bool, s: Seq<u8>)
    requires
        !is_cut_type_unit(big_endian, s),
    ensures
        type_unit_header_at(big_endian, s) matches Ok((unit, n)) ==> {
            &&& n == unit.header.format.header_size() + unit.header.format.type_header_size()
            &&& unit.header.total_length() == n + unit.header.entries.len()
            &&& unit.header.total_length() <= s.len()
            &&& unit.header.entries == s.subrange(n as int, unit.header.total_length() as int)
        },
{
    law_unit_extent(big_endian, s);
    if let Ok((unit, n)) = type_unit_header_at(big_endian, s) {
        assert(unit.header.entries == s.subrange(n as int, unit.header.total_length() as int));
    }
}

/// Parse a type unit header.
pub fn parse_type_unit_header<'input, Endian>(input: EndianBuf<'input, Endian>) -> (res:
    ParseResult<(EndianBuf<'input, Endian>, TypeUnitHeader<'input, Endian>)>) where
    Endian: Endianity,

    requires
        !is_cut_type_unit(Endian::is_big_endian(), input@),
    ensures
        error::agrees_view(res, input@, type_unit_header_at(Endian::is_big_endian(), input@)),
{
    let (rest, header) = parse_unit_header(input)?;
    let (rest, signature) = parse_type_signature(rest)?;
    let (rest, offset) = parse_type_offset(FormatInput(rest, header.format()))?;
    Ok((rest.0, TypeUnitHeader::new(header, signature, offset)))
}

} // verus!
