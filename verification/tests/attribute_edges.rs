use gimli::attribute::parse_attribute;
use gimli::constants;
use gimli::constants::{DwAt, DwForm};
use gimli::reader::{
    length_leb_value, length_u16_value, length_u32_value, length_u8_value, parse_u8, take,
};
use gimli::{
    AttributeInput, AttributeSpecification, AttributeValue, BigEndian, DebugAbbrevOffset,
    DebugInfoOffset, DebugTypesOffset, EndianBuf, Endianity, Error, Format, LittleEndian,
    UnitHeader, UnitOffset,
};

/// The value of the given form, and how many bytes are left after it.
fn value<Endian: Endianity>(
    form: u64,
    format: Format,
    buf: &[u8],
) -> Result<(AttributeValue<'_>, usize), Error> {
    let unit = UnitHeader::<Endian>::new(7, 4, DebugAbbrevOffset(0), 4, format, &[]);
    let spec = AttributeSpecification::new(DwAt(constants::DW_AT_name), DwForm(form));
    let (rest, attr) = parse_attribute(AttributeInput(EndianBuf::new(buf), &unit, spec))?;
    assert_eq!(attr.name(), DwAt(constants::DW_AT_name));
    Ok((attr.value(), rest.len()))
}

#[test]
fn values_are_parsed_in_the_byte_order_of_the_unit() {
    let buf = [0x00, 0x00, 0x00, 0x02, 0xaa, 0xbb, 0xcc, 0xdd];
    assert_eq!(
        value::<BigEndian>(constants::DW_FORM_ref2, Format::Dwarf32, &buf[2..]),
        Ok((AttributeValue::UnitRef(UnitOffset(2)), 4))
    );
    assert_eq!(
        value::<BigEndian>(constants::DW_FORM_ref4, Format::Dwarf32, &buf),
        Ok((AttributeValue::UnitRef(UnitOffset(2)), 4))
    );
    assert_eq!(
        value::<BigEndian>(constants::DW_FORM_ref8, Format::Dwarf32, &buf),
        Ok((AttributeValue::UnitRef(UnitOffset(0x2aabbccdd)), 0))
    );
    assert_eq!(
        value::<BigEndian>(constants::DW_FORM_block4, Format::Dwarf32, &buf),
        Ok((AttributeValue::Block(&[0xaa, 0xbb]), 2))
    );
    assert_eq!(
        value::<BigEndian>(constants::DW_FORM_block2, Format::Dwarf32, &buf[2..]),
        Ok((AttributeValue::Block(&[0xaa, 0xbb]), 2))
    );
    assert_eq!(
        value::<BigEndian>(constants::DW_FORM_ref_addr, Format::Dwarf64, &buf),
        Ok((AttributeValue::DebugInfoRef(DebugInfoOffset(0x2aabbccdd)), 0))
    );
}

#[test]
fn a_signature_has_eight_bytes_in_both_formats() {
    let buf = [0x01, 0x02, 0x03, 0x04, 0x05, 0x06, 0x07, 0x08, 0x99];
    for format in [Format::Dwarf32, Format::Dwarf64] {
        assert_eq!(
            value::<LittleEndian>(constants::DW_FORM_ref_sig8, format, &buf),
            Ok((AttributeValue::DebugTypesRef(DebugTypesOffset(0x0807060504030201)), 1))
        );
    }
}

#[test]
fn unknown_forms_are_errors() {
    assert_eq!(value::<LittleEndian>(0x00, Format::Dwarf32, &[0x01]), Err(Error::UnknownForm));
    assert_eq!(value::<LittleEndian>(0xffff, Format::Dwarf32, &[0x01]), Err(Error::UnknownForm));
}

#[test]
fn indirect_forms_can_be_nested() {
    let form = constants::DW_FORM_indirect;
    let buf = [0x16, 0x16, 0x0b, 0x2a, 0xaa];
    assert_eq!(
        value::<LittleEndian>(form, Format::Dwarf32, &buf),
        Ok((AttributeValue::Data(&[0x2a]), 1))
    );
    assert_eq!(
        value::<LittleEndian>(form, Format::Dwarf32, &buf[..2]),
        Err(Error::UnexpectedEof)
    );
    // The actual form is unknown.
    assert_eq!(
        value::<LittleEndian>(form, Format::Dwarf32, &[0x16, 0x7f, 0x00]),
        Err(Error::UnknownForm)
    );
}

#[test]
fn a_string_needs_its_null_byte() {
    let form = constants::DW_FORM_string;
    assert_eq!(
        value::<LittleEndian>(form, Format::Dwarf32, b"foo\0bar\0"),
        Ok((AttributeValue::String(b"foo\0"), 4))
    );
    assert_eq!(
        value::<LittleEndian>(form, Format::Dwarf32, b"\0"),
        Ok((AttributeValue::String(b"\0"), 0))
    );
    assert_eq!(
        value::<LittleEndian>(form, Format::Dwarf32, b"foo"),
        Err(Error::UnexpectedEof)
    );
    assert_eq!(value::<LittleEndian>(form, Format::Dwarf32, b""), Err(Error::UnexpectedEof));
}

#[test]
fn bad_integers_are_errors() {
    let buf = [0xff, 0xff, 0xff, 0xff, 0xff, 0xff, 0xff, 0xff, 0xff, 0x02];
    assert_eq!(
        value::<LittleEndian>(constants::DW_FORM_udata, Format::Dwarf32, &buf),
        Err(Error::BadUnsignedLeb128)
    );
    assert_eq!(
        value::<LittleEndian>(constants::DW_FORM_sdata, Format::Dwarf32, &buf),
        Err(Error::BadSignedLeb128)
    );
}

#[test]
fn a_value_is_as_long_as_its_form_says() {
    let buf = [0x01; 8];
    for format in [Format::Dwarf32, Format::Dwarf64] {
        let unit = UnitHeader::<LittleEndian>::new(7, 4, DebugAbbrevOffset(0), 4, format, &[]);
        for form in 0..0x30 {
            let spec = AttributeSpecification::new(DwAt(constants::DW_AT_name), DwForm(form));
            if let Some(size) = spec.size(&unit) {
                let (_, left) = value::<LittleEndian>(form, format, &buf).unwrap();
                assert_eq!(buf.len() - left, size);
                if size > 0 {
                    assert_eq!(
                        value::<LittleEndian>(form, format, &buf[..size - 1]),
                        Err(Error::UnexpectedEof)
                    );
                }
            }
        }
    }
}

#[test]
fn a_value_does_not_depend_on_what_follows() {
    let form = constants::DW_FORM_exprloc;
    assert_eq!(
        value::<LittleEndian>(form, Format::Dwarf32, &[0x02, 0x99, 0x98]),
        Ok((AttributeValue::Exprloc(&[0x99, 0x98]), 0))
    );
    assert_eq!(
        value::<LittleEndian>(form, Format::Dwarf32, &[0x02, 0x99, 0x98, 0x00, 0x01]),
        Ok((AttributeValue::Exprloc(&[0x99, 0x98]), 2))
    );
}

#[test]
fn runs_of_bytes_are_cut_off() {
    let buf = [0x02, 0x00, 0x00, 0x00, 0xaa, 0xbb];
    assert_eq!(parse_u8(&buf), Ok((&buf[1..], 2)));
    assert_eq!(parse_u8(&[]), Err(Error::UnexpectedEof));
    assert_eq!(take(2, &buf), Ok((&buf[2..], &buf[..2])));
    assert_eq!(take(0, &buf), Ok((&buf[..], &[][..])));
    assert_eq!(take(7, &buf), Err(Error::UnexpectedEof));
    assert_eq!(length_u8_value(&buf), Ok((&buf[3..], &buf[1..3])));
    assert_eq!(length_leb_value(&buf), Ok((&buf[3..], &buf[1..3])));
    assert_eq!(
        length_u16_value(EndianBuf::<LittleEndian>::new(&buf)),
        Ok((EndianBuf::new(&buf[4..]), &buf[2..4]))
    );
    assert_eq!(
        length_u32_value(EndianBuf::<LittleEndian>::new(&buf)),
        Ok((EndianBuf::new(&[]), &buf[4..]))
    );
    assert_eq!(length_u8_value(&buf[..2]), Err(Error::UnexpectedEof));
    assert_eq!(length_leb_value(&[0xff, 0x01, 0x00]), Err(Error::UnexpectedEof));
    assert_eq!(
        length_u32_value(EndianBuf::<LittleEndian>::new(&buf[..5])),
        Err(Error::UnexpectedEof)
    );
}
