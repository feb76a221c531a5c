//! The attributes of entries.
use crate::abbrev;
use crate::abbrev::AttributeSpecification;
use crate::constants;
use crate::constants::{DwAt, DwForm};
use crate::endianity::Endianity;
use crate::error;
use crate::error::{Error, Outcome, ParseResult};
use crate::leb;
use crate::reader;
use crate::reader::EndianBuf;
use crate::unit;
use crate::unit::{
    DebugInfoOffset, DebugStrOffset, DebugTypesOffset, Format, UnitHeader, UnitHeaderView, UnitOffset,
};
use core::ops::{Deref, RangeFrom};
use vstd::prelude::*;

verus! {

broadcast use {vstd::seq_lib::lemma_seq_skip_of_skip, vstd::seq_lib::lemma_seq_skip_nothing};

/// The value of an attribute in a `DebuggingInformationEntry`.
#[derive(Clone, Copy, Debug, PartialEq, Eq)]
pub enum AttributeValue<'input> {
    /// A slice that is `UnitHeader::address_size` bytes long.
    Addr(&'input [u8]),
    /// A slice of an arbitrary number of bytes.
    Block(&'input [u8]),
    /// A one, two, four, or eight byte constant data value. How to interpret
    /// the bytes depends on context.
    ///
    /// From section 7 of the standard: "Depending on context, it may be a
    /// signed integer, an unsigned integer, a floating-point constant, or
    /// anything else."
    Data(&'input [u8]),
    /// A signed integer constant.
    Sdata(i64),
    /// An unsigned integer constant.
    Udata(u64),
    /// "The information bytes contain a DWARF expression (see Section 2.5) or
    /// location description (see Section 2.6)."
    Exprloc(&'input [u8]),
    /// A boolean typically used to describe the presence or absence of another
    /// attribute.
    Flag(bool),
    /// An offset into another section. Which section this is an offset into
    /// depends on context.
    SecOffset(u64),
    /// An offset into the current compilation unit.
    UnitRef(UnitOffset),
    /// An offset into the current `.debug_info` section, but possibly a
    /// different compilation unit from the current one.
    DebugInfoRef(DebugInfoOffset),
    /// An offset into the `.debug_types` section.
    DebugTypesRef(DebugTypesOffset),
    /// An offset into the `.debug_str` section.
    DebugStrRef(DebugStrOffset),
    /// A null terminated C string, including the final null byte. Not
    /// guaranteed to be UTF-8 or anything like that.
    String(&'input [u8]),
}

/// The value of an attribute, with the bytes that it refers to.
#[verifier::ext_equal]
pub enum AttributeValueView {
    Addr(Seq<u8>),
    Block(Seq<u8>),
    Data(Seq<u8>),
    Sdata(i64),
    Udata(u64),
    Exprloc(Seq<u8>),
    Flag(bool),
    SecOffset(u64),
    UnitRef(UnitOffset),
    DebugInfoRef(DebugInfoOffset),
    DebugTypesRef(DebugTypesOffset),
    DebugStrRef(DebugStrOffset),
    String(Seq<u8>),
}

impl<'input> View for AttributeValue<'input> {
    type V = AttributeValueView;

    open spec fn view(&self) -> AttributeValueView {
        match *self {
            AttributeValue::Addr(bytes) => AttributeValueView::Addr(bytes@),
            AttributeValue::Block(bytes) => AttributeValueView::Block(bytes@),
            AttributeValue::Data(bytes) => AttributeValueView::Data(bytes@),
            AttributeValue::Sdata(data) => AttributeValueView::Sdata(data),
            AttributeValue::Udata(data) => AttributeValueView::Udata(data),
            AttributeValue::Exprloc(bytes) => AttributeValueView::Exprloc(bytes@),
            AttributeValue::Flag(present) => AttributeValueView::Flag(present),
            AttributeValue::SecOffset(offset) => AttributeValueView::SecOffset(offset),
            AttributeValue::UnitRef(offset) => AttributeValueView::UnitRef(offset),
            AttributeValue::DebugInfoRef(offset) => AttributeValueView::DebugInfoRef(offset),
            AttributeValue::DebugTypesRef(offset) => AttributeValueView::DebugTypesRef(offset),
            AttributeValue::DebugStrRef(offset) => AttributeValueView::DebugStrRef(offset),
            AttributeValue::String(bytes) => AttributeValueView::String(bytes@),
        }
    }
}

/// An attribute in a `DebuggingInformationEntry`, consisting of a name and
/// associated value.
#[derive(Clone, Copy, Debug, PartialEq, Eq)]
pub struct Attribute<'input> {
    pub name: DwAt,
    pub value: AttributeValue<'input>,
}

/// An attribute, with the bytes that its value refers to.
#[verifier::ext_equal]
pub struct AttributeView {
    pub name: DwAt,
    pub value: AttributeValueView,
}

impl<'input> View for Attribute<'input> {
    type V = AttributeView;

    open spec fn view(&self) -> AttributeView {
        AttributeView { name: self.name, value: self.value@ }
    }
}

impl<'input> Attribute<'input> {
    /// Get this attribute's name.
    pub fn name(&self) -> (res: DwAt)
        ensures
            res == self.name,
    {
        self.name
    }

    /// Get this attribute's value.
    pub fn value(&self) -> (res: AttributeValue<'input>)
        ensures
            res == self.value,
    {
        self.value
    }
}

/// The input to parsing an attribute.
#[derive(Clone, Copy, Debug)]
pub struct AttributeInput<'input, 'unit, Endian>(
    pub EndianBuf<'input, Endian>,
    pub &'unit UnitHeader<'input, Endian>,
    pub AttributeSpecification,
) where 'input: 'unit, Endian: Endianity + 'unit;

impl<'input, 'unit, Endian> View for AttributeInput<'input, 'unit, Endian> where Endian: Endianity {
    type V = Seq<u8>;

    open spec fn view(&self) -> Seq<u8> {
        self.0@
    }
}

impl<'input, 'unit, Endian> Deref for AttributeInput<'input, 'unit, Endian> where
    Endian: Endianity,
 {
    type Target = [u8];

    fn deref(&self) -> (res: &[u8])
        ensures
            res@ == self@,
    {
        self.0.0
    }
}

impl<'input, 'unit, Endian> AttributeInput<'input, 'unit, Endian> where Endian: Endianity {
    /// The same unit and specification, with other bytes.
    pub fn merge(&self, rest: &'input [u8]) -> (res: AttributeInput<'input, 'unit, Endian>)
        ensures
            res@ == rest@,
            res.1 == self.1,
            res.2 == self.2,
    {
        AttributeInput(EndianBuf::new(rest), self.1, self.2)
    }

    /// The same unit and specification, with the bytes from `range.start` on.
    pub fn range_from(&self, range: RangeFrom<usize>) -> (res: AttributeInput<
        'input,
        'unit,
        Endian,
    >)
        requires
            range.start <= self@.len(),
        ensures
            res@ == self@.skip(range.start as int),
            res.1 == self.1,
            res.2 == self.2,
    {
        AttributeInput(self.0.range_from(range), self.1, self.2)
    }

    /// The bytes of this input.
    pub fn into(self) -> (res: &'input [u8])
        ensures
            res@ == self@,
    {
        self.0.into()
    }
}

/// What the unit of an attribute says of how its value is encoded.
pub struct Encoding {
    pub big_endian: bool,
    pub address_size: u8,
    pub format: Format,
}

/// The encoding of the attributes in the given unit.
pub open spec fn unit_encoding(big_endian: bool, unit: UnitHeaderView) -> Encoding {
    Encoding { big_endian, address_size: unit.address_size, format: unit.format }
}

/// Parsing a null terminated string, which includes the null byte.
pub open spec fn string_at(s: Seq<u8>) -> Outcome<Seq<u8>> {
    match s.index_of_first(0u8) {
        Some(idx) => Ok((s.take(idx + 1), (idx + 1) as nat)),
        None => Err(Error::UnexpectedEof),
    }
}

/// Parsing the value of an attribute of the given form, which is not
/// `DW_FORM_indirect`.
pub open spec fn direct_value_at(
    encoding: Encoding,
    form: DwForm,
    s: Seq<u8>,
) -> Outcome<AttributeValueView> {
    let big_endian = encoding.big_endian;
    match form.0 {
        constants::DW_FORM_addr => error::mapped(
            reader::bytes_at(encoding.address_size as nat, s),
            |addr: Seq<u8>| AttributeValueView::Addr(addr),
        ),
        constants::DW_FORM_block1 => error::mapped(
            reader::u8_block_at(s),
            |block: Seq<u8>| AttributeValueView::Block(block),
        ),
        constants::DW_FORM_block2 => error::mapped(
            reader::u16_block_at(big_endian, s),
            |block: Seq<u8>| AttributeValueView::Block(block),
        ),
        constants::DW_FORM_block4 => error::mapped(
            reader::u32_block_at(big_endian, s),
            |block: Seq<u8>| AttributeValueView::Block(block),
        ),
        constants::DW_FORM_block => error::mapped(
            reader::leb_block_at(s),
            |block: Seq<u8>| AttributeValueView::Block(block),
        ),
        constants::DW_FORM_data1 => error::mapped(
            reader::bytes_at(1, s),
            |data: Seq<u8>| AttributeValueView::Data(data),
        ),
        constants::DW_FORM_data2 => error::mapped(
            reader::bytes_at(2, s),
            |data: Seq<u8>| AttributeValueView::Data(data),
        ),
        constants::DW_FORM_data4 => error::mapped(
            reader::bytes_at(4, s),
            |data: Seq<u8>| AttributeValueView::Data(data),
        ),
        constants::DW_FORM_data8 => error::mapped(
            reader::bytes_at(8, s),
            |data: Seq<u8>| AttributeValueView::Data(data),
        ),
        constants::DW_FORM_udata => error::mapped(
            leb::unsigned_leb(s),
            |data: u64| AttributeValueView::Udata(data),
        ),
        constants::DW_FORM_sdata => error::mapped(
            leb::signed_leb(s),
            |data: i64| AttributeValueView::Sdata(data),
        ),
        constants::DW_FORM_exprloc => error::mapped(
            reader::leb_block_at(s),
            |block: Seq<u8>| AttributeValueView::Exprloc(block),
        ),
        constants::DW_FORM_flag => error::mapped(
            reader::u8_at(s),
            |present: u8| AttributeValueView::Flag(present != 0),
        ),
        // A flag that is present by its mere form takes up no bytes.
        constants::DW_FORM_flag_present => Ok((AttributeValueView::Flag(true), 0)),
        constants::DW_FORM_sec_offset => error::mapped(
            unit::offset_at(big_endian, encoding.format, s),
            |offset: u64| AttributeValueView::SecOffset(offset),
        ),
        constants::DW_FORM_ref1 => error::mapped(
            reader::u8_at(s),
            |offset: u8| AttributeValueView::UnitRef(UnitOffset(offset as u64)),
        ),
        constants::DW_FORM_ref2 => error::mapped(
            reader::u16_at(big_endian, s),
            |offset: u16| AttributeValueView::UnitRef(UnitOffset(offset as u64)),
        ),
        constants::DW_FORM_ref4 => error::mapped(
            reader::u32_at(big_endian, s),
            |offset: u32| AttributeValueView::UnitRef(UnitOffset(offset as u64)),
        ),
        constants::DW_FORM_ref8 => error::mapped(
            reader::u64_at(big_endian, s),
            |offset: u64| AttributeValueView::UnitRef(UnitOffset(offset)),
        ),
        constants::DW_FORM_ref_udata => error::mapped(
            leb::unsigned_leb(s),
            |offset: u64| AttributeValueView::UnitRef(UnitOffset(offset)),
        ),
        constants::DW_FORM_ref_addr => error::mapped(
            unit::offset_at(big_endian, encoding.format, s),
            |offset: u64| AttributeValueView::DebugInfoRef(DebugInfoOffset(offset)),
        ),
        constants::DW_FORM_ref_sig8 => error::mapped(
            reader::u64_at(big_endian, s),
            |offset: u64| AttributeValueView::DebugTypesRef(DebugTypesOffset(offset)),
        ),
        constants::DW_FORM_string => error::mapped(
            string_at(s),
            |string: Seq<u8>| AttributeValueView::String(string),
        ),
        constants::DW_FORM_strp => error::mapped(
            unit::offset_at(big_endian, encoding.format, s),
            |offset: u64| AttributeValueView::DebugStrRef(DebugStrOffset(offset)),
        ),
        _ => Err(Error::UnknownForm),
    }
}

/// Parsing the value of an attribute of the given form. With
/// `DW_FORM_indirect` the actual form comes first.
pub open spec fn value_at(encoding: Encoding, form: DwForm, s: Seq<u8>) -> Outcome<
    AttributeValueView,
>
    decreases s.len(),
{
    if form.0 == constants::DW_FORM_indirect {
        match abbrev::attribute_form_at(s) {
            Ok((dynamic_form, n)) => {
                proof {
                    leb::law_leb_len_bound(s);
                }
                match value_at(encoding, dynamic_form, s.skip(n as int)) {
                    Ok((value, m)) => Ok((value, n + m)),
                    Err(e) => Err(e),
                }
            },
            Err(e) => Err(e),
        }
    } else {
        direct_value_at(encoding, form, s)
    }
}

/// Parsing the attribute that `attr` describes.
pub open spec fn attribute_at(
    encoding: Encoding,
    attr: AttributeSpecification,
    s: Seq<u8>,
) -> Outcome<AttributeView> {
    match value_at(encoding, attr.form, s) {
        Ok((value, n)) => Ok((AttributeView { name: attr.name, value }, n)),
        Err(e) => Err(e),
    }
}

/// An attribute's value lies within the bytes that it is read from.
pub proof fn law_value_bound(encoding: Encoding, form: DwForm, s: Seq<u8>)
    ensures
        value_at(encoding, form, s) matches Ok((_, n)) ==> n <= s.len(),
    decreases s.len(),
{
    leb::law_leb_len_bound(s);
    s.index_of_first_ensures(0u8);
    if form.0 == constants::DW_FORM_indirect {
        if let Ok((dynamic_form, n)) = abbrev::attribute_form_at(s) {
            law_value_bound(encoding, dynamic_form, s.skip(n as int));
        }
    }
}

/// What a value must look like: an address has as many bytes as addresses have in
/// the unit, a constant has one, two, four or eight, and a string ends with its
/// only null byte.
pub open spec fn is_well_shaped(encoding: Encoding, value: AttributeValueView) -> bool {
    match value {
        AttributeValueView::Addr(bytes) => bytes.len() == encoding.address_size,
        AttributeValueView::Data(bytes) => bytes.len() == 1 || bytes.len() == 2 || bytes.len() == 4
            || bytes.len() == 8,
        AttributeValueView::String(bytes) => bytes.len() > 0 && forall|i: int|
            0 <= i < bytes.len() ==> (bytes[i] == 0 <==> i == bytes.len() - 1),
        _ => true,
    }
}

/// A value that is parsed looks as it must.
pub proof fn law_value_shape(encoding: Encoding, form: DwForm, s: Seq<u8>)
    ensures
        value_at(encoding, form, s) matches Ok((value, _)) ==> is_well_shaped(encoding, value),
    decreases s.len(),
{
    s.index_of_first_ensures(0u8);
    if form.0 == constants::DW_FORM_indirect {
        leb::law_leb_len_bound(s);
        if let Ok((dynamic_form, n)) = abbrev::attribute_form_at(s) {
            law_value_shape(encoding, dynamic_form, s.skip(n as int));
        }
    }
}

/// What an attribute's value is depends on no byte after it.
pub proof fn law_value_prefix(encoding: Encoding, form: DwForm, s: Seq<u8>, t: Seq<u8>)
    requires
        value_at(encoding, form, s) is Ok,
    ensures
        value_at(encoding, form, s.take(value_at(encoding, form, s)->Ok_0.1 as int) + t)
            == value_at(encoding, form, s),
    decreases s.len(),
{
    let n = value_at(encoding, form, s)->Ok_0.1;
    let other = s.take(n as int) + t;
    law_value_bound(encoding, form, s);
    leb::law_leb_len_bound(s);
    if form.0 == constants::DW_FORM_indirect {
        let (dynamic_form, m) = abbrev::attribute_form_at(s)->Ok_0;
        let rest = s.skip(m as int);
        law_value_bound(encoding, dynamic_form, rest);
        law_value_prefix(encoding, dynamic_form, rest, t);
        leb::law_leb_prefix(s, other.skip(m as int));
        assert(s.take(m as int) + other.skip(m as int) == other);
        assert(rest.take(n - m) + t == other.skip(m as int));
    } else {
        lemma_direct_value_prefix(encoding, form, s, t);
    }
}

proof fn lemma_direct_value_prefix(encoding: Encoding, form: DwForm, s: Seq<u8>, t: Seq<u8>)
    requires
        direct_value_at(encoding, form, s) is Ok,
    ensures
        direct_value_at(
            encoding,
            form,
            s.take(direct_value_at(encoding, form, s)->Ok_0.1 as int) + t,
        ) == direct_value_at(encoding, form, s),
{
    let n = direct_value_at(encoding, form, s)->Ok_0.1;
    let other = s.take(n as int) + t;
    leb::law_leb_len_bound(s);
    s.index_of_first_ensures(0u8);
    assert(n <= s.len());
    reader::lemma_joined_prefix(s, n as int, t);
    if let Some(m) = leb::leb_len(s) {
        if m <= n {
            leb::law_leb_prefix(s, other.skip(m as int));
            assert(s.take(m as int) + other.skip(m as int) == other);
        }
    }
    if form.0 == constants::DW_FORM_string {
        other.index_of_first_ensures(0u8);
        assert(other[n - 1] == 0u8);
        assert(other.contains(0u8));
        let i = s.index_of_first(0u8)->Some_0;
        let j = other.index_of_first(0u8)->Some_0;
        assert(s[j] == other[j]);
        assert(other[i] == s[i]);
        assert(i == j);
    }
}

/// The size of an attribute, where its form says what it is, is the number of
/// bytes that parsing the attribute takes: with at least that many bytes it
/// succeeds, and with fewer it hits the end of input.
pub proof fn law_size_is_parsed(encoding: Encoding, form: DwForm, s: Seq<u8>)
    ensures
        abbrev::form_size(form, encoding.address_size, encoding.format) matches Some(size) ==> {
            &&& size <= s.len() ==> (value_at(encoding, form, s) matches Ok((_, n)) && n == size)
            &&& size > s.len() ==> value_at(encoding, form, s) == Err::<
                (AttributeValueView, nat),
                Error,
            >(Error::UnexpectedEof)
        },
{
}

/// Parse a null terminated string, which includes the null byte.
fn parse_string(input: &[u8]) -> (res: ParseResult<(&[u8], &[u8])>)
    ensures
        error::agrees_view(res, input@, string_at(input@)),
{
    proof {
        input@.index_of_first_ensures(0u8);
    }
    let mut idx: usize = 0;
    while idx < input.len()
        invariant
            idx <= input@.len(),
            forall|i: int| 0 <= i < idx ==> input@[i] != 0,
        decreases input@.len() - idx,
    {
        if input[idx] == 0 {
            assert(input@.index_of_first(0u8) == Some(idx as int)) by {
                input@.index_of_first_ensures(0u8);
                assert(input@.contains(input@[idx as int]));
            }
            return reader::take(idx + 1, input);
        }
        idx += 1;
    }
    Err(Error::UnexpectedEof)
}

/// Parse the value of an attribute of the given form, which is not
/// `DW_FORM_indirect`.
fn parse_direct_value<'input, 'unit, Endian>(
    input: AttributeInput<'input, 'unit, Endian>,
    form: DwForm,
) -> (res: ParseResult<(&'input [u8], AttributeValue<'input>)>) where Endian: Endianity
    ensures
        error::agrees_view(
            res,
            input@,
            direct_value_at(unit_encoding(Endian::is_big_endian(), input.1@), form, input@),
        ),
{
    let bytes: &'input [u8] = input.into();
    match form.0 {
        constants::DW_FORM_addr => {
            let (rest, addr) = reader::take(input.1.address_size() as usize, bytes)?;
            Ok((rest, AttributeValue::Addr(addr)))
        },
        constants::DW_FORM_block1 => {
            let (rest, block) = reader::length_u8_value(bytes)?;
            Ok((rest, AttributeValue::Block(block)))
        },
        constants::DW_FORM_block2 => {
            let (rest, block) = reader::length_u16_value(input.0)?;
            Ok((rest.into(), AttributeValue::Block(block)))
        },
        constants::DW_FORM_block4 => {
            let (rest, block) = reader::length_u32_value(input.0)?;
            Ok((rest.into(), AttributeValue::Block(block)))
        },
        constants::DW_FORM_block => {
            let (rest, block) = reader::length_leb_value(bytes)?;
            Ok((rest, AttributeValue::Block(block)))
        },
        constants::DW_FORM_data1 => {
            let (rest, data) = reader::take(1, bytes)?;
            Ok((rest, AttributeValue::Data(data)))
        },
        constants::DW_FORM_data2 => {
            let (rest, data) = reader::take(2, bytes)?;
            Ok((rest, AttributeValue::Data(data)))
        },
        constants::DW_FORM_data4 => {
            let (rest, data) = reader::take(4, bytes)?;
            Ok((rest, AttributeValue::Data(data)))
        },
        constants::DW_FORM_data8 => {
            let (rest, data) = reader::take(8, bytes)?;
            Ok((rest, AttributeValue::Data(data)))
        },
        constants::DW_FORM_udata => {
            let (rest, data) = leb::parse_unsigned_leb(bytes)?;
            Ok((rest, AttributeValue::Udata(data)))
        },
        constants::DW_FORM_sdata => {
            let (rest, data) = leb::parse_signed_leb(bytes)?;
            Ok((rest, AttributeValue::Sdata(data)))
        },
        constants::DW_FORM_exprloc => {
            let (rest, block) = reader::length_leb_value(bytes)?;
            Ok((rest, AttributeValue::Exprloc(block)))
        },
        constants::DW_FORM_flag => {
            let (rest, present) = reader::parse_u8(bytes)?;
            Ok((rest, AttributeValue::Flag(present != 0)))
        },
        constants::DW_FORM_flag_present => {
            // FlagPresent is this weird compile time always true thing that
            // isn't actually present in the serialized DIEs, only in the
            // abbreviation.
            Ok((bytes, AttributeValue::Flag(true)))
        },
        constants::DW_FORM_sec_offset => {
            let (rest, offset) = unit::parse_offset(input.1.format(), input.0)?;
            Ok((rest.into(), AttributeValue::SecOffset(offset)))
        },
        constants::DW_FORM_ref1 => {
            let (rest, reference) = reader::parse_u8(bytes)?;
            Ok((rest, AttributeValue::UnitRef(UnitOffset(reference as u64))))
        },
        constants::DW_FORM_ref2 => {
            let (rest, reference) = reader::parse_u16(input.0)?;
            Ok((rest.into(), AttributeValue::UnitRef(UnitOffset(reference as u64))))
        },
        constants::DW_FORM_ref4 => {
            let (rest, reference) = reader::parse_u32(input.0)?;
            Ok((rest.into(), AttributeValue::UnitRef(UnitOffset(reference as u64))))
        },
        constants::DW_FORM_ref8 => {
            let (rest, reference) = reader::parse_u64(input.0)?;
            Ok((rest.into(), AttributeValue::UnitRef(UnitOffset(reference))))
        },
        constants::DW_FORM_ref_udata => {
            let (rest, reference) = leb::parse_unsigned_leb(bytes)?;
            Ok((rest, AttributeValue::UnitRef(UnitOffset(reference))))
        },
        constants::DW_FORM_ref_addr => {
            let (rest, offset) = unit::parse_offset(input.1.format(), input.0)?;
            Ok((rest.into(), AttributeValue::DebugInfoRef(DebugInfoOffset(offset))))
        },
        constants::DW_FORM_ref_sig8 => {
            let (rest, offset) = reader::parse_u64(input.0)?;
            Ok((rest.into(), AttributeValue::DebugTypesRef(DebugTypesOffset(offset))))
        },
        constants::DW_FORM_string => {
            let (rest, string) = parse_string(bytes)?;
            Ok((rest, AttributeValue::String(string)))
        },
        constants::DW_FORM_strp => {
            let (rest, offset) = unit::parse_offset(input.1.format(), input.0)?;
            Ok((rest.into(), AttributeValue::DebugStrRef(DebugStrOffset(offset))))
        },
        _ => Err(Error::UnknownForm),
    }
}

/// Parse the attribute that `input` describes.
pub fn parse_attribute<'input, 'unit, Endian>(
    input: AttributeInput<'input, 'unit, Endian>,
) -> (res: ParseResult<(AttributeInput<'input, 'unit, Endian>, Attribute<'input>)>) where
    Endian: Endianity,

    ensures
        error::agrees_view(
            res,
            input@,
            attribute_at(unit_encoding(Endian::is_big_endian(), input.1@), input.2, input@),
        ),
        res matches Ok((rest, _)) ==> rest.1 == input.1 && rest.2 == input.2,
{
    let ghost encoding = unit_encoding(Endian::is_big_endian(), input.1@);
    let mut rest = input;
    let mut form: DwForm = input.2.form;
    let ghost mut consumed: nat = 0;
    while form.0 == constants::DW_FORM_indirect
        invariant
            encoding == unit_encoding(Endian::is_big_endian(), input.1@),
            rest.1 == input.1,
            rest.2 == input.2,
            consumed <= input@.len(),
            rest@ == input@.skip(consumed as int),
            value_at(encoding, input.2.form, input@) == match value_at(encoding, form, rest@) {
                Ok((value, n)) => Ok((value, consumed + n)),
                Err(e) => Err(e),
            },
        decreases rest@.len(),
    {
        let (after, dynamic_form) = abbrev::parse_attribute_form(rest.into())?;
        proof {
            leb::law_leb_len_bound(rest@);
            consumed = consumed + abbrev::attribute_form_at(rest@)->Ok_0.1;
        }
        form = dynamic_form;
        rest = rest.merge(after);
    }
    let (after, value) = parse_direct_value(rest, form)?;
    Ok((rest.merge(after), Attribute { name: input.2.name, value }))
}

} // verus!
