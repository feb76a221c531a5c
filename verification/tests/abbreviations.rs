use gimli::abbrev::{
    parse_abbreviation, parse_abbreviation_code, parse_abbreviation_has_children,
    parse_abbreviation_tag, parse_abbreviations, parse_attribute_form, parse_attribute_name,
    parse_attribute_specification, parse_attribute_specifications, parse_null_abbreviation,
    parse_null_attribute_specification,
};
use gimli::constants;
use gimli::constants::{DwAt, DwChildren, DwForm, DwTag};
use gimli::{
    Abbreviation, Abbreviations, AttributeSpecification, DebugAbbrev, DebugAbbrevOffset, Error,
    Format, LittleEndian, UnitHeader,
};

fn name_attribute() -> AttributeSpecification {
    AttributeSpecification::new(DwAt(constants::DW_AT_name), DwForm(constants::DW_FORM_string))
}

fn subprogram(code: u64) -> Abbreviation {
    Abbreviation::new(
        code,
        DwTag(constants::DW_TAG_subprogram),
        DwChildren(constants::DW_CHILDREN_yes),
        vec![name_attribute()],
    )
}

#[test]
fn an_abbreviation_gives_back_its_parts() {
    let abbrev = subprogram(7);
    assert_eq!(abbrev.code(), 7);
    assert_eq!(abbrev.tag(), DwTag(constants::DW_TAG_subprogram));
    assert!(abbrev.has_children());
    assert_eq!(abbrev.attributes(), &[name_attribute()]);
    assert_eq!(abbrev.attributes()[0].name(), DwAt(constants::DW_AT_name));
    assert_eq!(abbrev.attributes()[0].form(), DwForm(constants::DW_FORM_string));
    assert_eq!(abbrev.clone(), abbrev);

    let abbrev = Abbreviation::new(
        8,
        DwTag(constants::DW_TAG_subprogram),
        DwChildren(constants::DW_CHILDREN_no),
        vec![],
    );
    assert!(!abbrev.has_children());
}

#[test]
fn an_abbreviation_code_is_not_zero() {
    assert_eq!(parse_abbreviation_code(&[0x01, 0x02]), Ok((&[0x02][..], 1)));
    assert_eq!(parse_abbreviation_code(&[0x00]), Err(Error::AbbreviationCodeZero));
    assert_eq!(parse_abbreviation_code(&[]), Err(Error::UnexpectedEof));
}

#[test]
fn an_abbreviation_tag_is_not_zero() {
    assert_eq!(parse_abbreviation_tag(&[0x2e]), Ok((&[][..], DwTag(0x2e))));
    assert_eq!(parse_abbreviation_tag(&[0x00]), Err(Error::AbbreviationCodeZero));
}

#[test]
fn an_abbreviation_has_children_or_not() {
    assert_eq!(
        parse_abbreviation_has_children(&[0x01]),
        Ok((&[][..], DwChildren(constants::DW_CHILDREN_yes)))
    );
    assert_eq!(
        parse_abbreviation_has_children(&[0x00]),
        Ok((&[][..], DwChildren(constants::DW_CHILDREN_no)))
    );
    assert_eq!(parse_abbreviation_has_children(&[0x02]), Err(Error::BadHasChildren));
    assert_eq!(parse_abbreviation_has_children(&[]), Err(Error::UnexpectedEof));
}

#[test]
fn attribute_names_and_forms_are_parsed() {
    assert_eq!(parse_attribute_name(&[0x03, 0x08]), Ok((&[0x08][..], DwAt(3))));
    assert_eq!(parse_attribute_form(&[0x87, 0x02]), Ok((&[][..], DwForm(263))));
    assert_eq!(
        parse_attribute_specification(&[0x03, 0x08, 0xaa]),
        Ok((&[0xaa][..], name_attribute()))
    );
    assert_eq!(parse_attribute_specification(&[0x03]), Err(Error::UnexpectedEof));
}

#[test]
fn null_records_are_zero() {
    assert_eq!(parse_null_attribute_specification(&[0x00, 0x00, 0x01]), Ok((&[0x01][..], ())));
    assert_eq!(parse_null_attribute_specification(&[0x01, 0x00]), Err(Error::ExpectedZero));
    assert_eq!(parse_null_attribute_specification(&[0x00, 0x01]), Err(Error::ExpectedZero));
    assert_eq!(parse_null_attribute_specification(&[0x00]), Err(Error::UnexpectedEof));
    assert_eq!(parse_null_abbreviation(&[0x00, 0x01]), Ok((&[0x01][..], ())));
    assert_eq!(parse_null_abbreviation(&[0x01]), Err(Error::ExpectedZero));
}

#[test]
fn attribute_specifications_end_with_a_null_one() {
    let buf = [0x03, 0x08, 0x11, 0x01, 0x00, 0x00, 0xaa];
    let (rest, attrs) = parse_attribute_specifications(&buf).unwrap();
    assert_eq!(rest, &[0xaa]);
    assert_eq!(
        attrs,
        [
            name_attribute(),
            AttributeSpecification::new(
                DwAt(constants::DW_AT_low_pc),
                DwForm(constants::DW_FORM_addr)
            ),
        ]
    );

    // A name that is zero with a form that is not does not end them.
    let (rest, attrs) = parse_attribute_specifications(&[0x00, 0x08, 0x00, 0x00]).unwrap();
    assert_eq!(rest, &[]);
    assert_eq!(attrs, [AttributeSpecification::new(DwAt(0), DwForm(8))]);

    assert_eq!(parse_attribute_specifications(&[0x03, 0x08]), Err(Error::UnexpectedEof));
}

#[test]
fn an_abbreviation_is_parsed() {
    let buf = [0x07, 0x2e, 0x01, 0x03, 0x08, 0x00, 0x00, 0xaa];
    assert_eq!(parse_abbreviation(&buf), Ok((&buf[7..], subprogram(7))));
    assert_eq!(parse_abbreviation(&buf[..6]), Err(Error::UnexpectedEof));
    assert_eq!(parse_abbreviation(&[0x00]), Err(Error::AbbreviationCodeZero));
}

#[test]
fn a_code_can_be_inserted_once() {
    let mut abbrevs = Abbreviations::empty();
    assert!(abbrevs.get(7).is_none());
    assert_eq!(abbrevs.insert(subprogram(7)), Ok(()));
    assert_eq!(abbrevs.get(7), Some(&subprogram(7)));
    assert!(abbrevs.get(8).is_none());

    let other = Abbreviation::new(7, DwTag(1), DwChildren(constants::DW_CHILDREN_no), vec![]);
    assert_eq!(abbrevs.insert(other), Err(()));
    assert_eq!(abbrevs.get(7), Some(&subprogram(7)));

    assert_eq!(abbrevs.insert(subprogram(8)), Ok(()));
    assert_eq!(abbrevs.clone().get(8), Some(&subprogram(8)));
    assert!(Abbreviations::default().get(7).is_none());
}

#[test]
fn abbreviations_stand_under_their_codes() {
    let buf = [
        0x07, 0x2e, 0x01, 0x03, 0x08, 0x00, 0x00, // The first.
        0x01, 0x2e, 0x00, 0x00, 0x00, // The second.
        0x00, 0xaa,
    ];
    let (rest, abbrevs) = parse_abbreviations(&buf).unwrap();
    assert_eq!(rest, &[0xaa]);
    assert_eq!(abbrevs.get(7), Some(&subprogram(7)));
    assert_eq!(abbrevs.get(1).map(|abbrev| abbrev.code()), Some(1));
    assert!(abbrevs.get(0).is_none());
    assert!(abbrevs.get(2).is_none());
}

#[test]
fn abbreviation_codes_are_unique() {
    let buf = [
        0x07, 0x2e, 0x01, 0x03, 0x08, 0x00, 0x00, // The first.
        0x07, 0x2e, 0x00, 0x00, 0x00, // The second.
        0x00,
    ];
    assert!(matches!(parse_abbreviations(&buf), Err(Error::DuplicateAbbreviationCode)));
    assert!(matches!(parse_abbreviations(&buf[..7]), Err(Error::UnexpectedEof)));
    assert!(matches!(parse_abbreviations(&[]), Err(Error::UnexpectedEof)));
}

#[test]
fn a_unit_reads_the_abbreviations_at_its_offset() {
    let section = [0xaa, 0xaa, 0x07, 0x2e, 0x01, 0x03, 0x08, 0x00, 0x00, 0x00];
    let debug_abbrev = DebugAbbrev::<LittleEndian>::new(&section);

    let unit = UnitHeader::new(7, 4, DebugAbbrevOffset(2), 4, Format::Dwarf32, &[]);
    let abbrevs = unit.abbreviations(debug_abbrev).unwrap();
    assert_eq!(abbrevs.get(7), Some(&subprogram(7)));

    let unit = UnitHeader::new(7, 4, DebugAbbrevOffset(10), 4, Format::Dwarf32, &[]);
    assert!(matches!(unit.abbreviations(debug_abbrev), Err(Error::UnexpectedEof)));
}

#[test]
fn a_form_says_how_large_an_attribute_is() {
    let size = |form: u64, format: Format| {
        let unit = UnitHeader::<LittleEndian>::new(7, 4, DebugAbbrevOffset(0), 3, format, &[]);
        AttributeSpecification::new(DwAt(constants::DW_AT_name), DwForm(form)).size(&unit)
    };

    for (form, expected) in [
        (constants::DW_FORM_addr, Some(3)),
        (constants::DW_FORM_flag_present, Some(0)),
        (constants::DW_FORM_flag, Some(1)),
        (constants::DW_FORM_data1, Some(1)),
        (constants::DW_FORM_ref1, Some(1)),
        (constants::DW_FORM_data2, Some(2)),
        (constants::DW_FORM_ref2, Some(2)),
        (constants::DW_FORM_data4, Some(4)),
        (constants::DW_FORM_ref4, Some(4)),
        (constants::DW_FORM_data8, Some(8)),
        (constants::DW_FORM_ref8, Some(8)),
        (constants::DW_FORM_ref_sig8, Some(8)),
        (constants::DW_FORM_block, None),
        (constants::DW_FORM_block1, None),
        (constants::DW_FORM_block2, None),
        (constants::DW_FORM_block4, None),
        (constants::DW_FORM_exprloc, None),
        (constants::DW_FORM_ref_udata, None),
        (constants::DW_FORM_string, None),
        (constants::DW_FORM_sdata, None),
        (constants::DW_FORM_udata, None),
        (constants::DW_FORM_indirect, None),
        (0xffff, None),
    ] {
        assert_eq!(size(form, Format::Dwarf32), expected);
        assert_eq!(size(form, Format::Dwarf64), expected);
    }
    for form in
        [constants::DW_FORM_sec_offset, constants::DW_FORM_ref_addr, constants::DW_FORM_strp]
    {
        assert_eq!(size(form, Format::Dwarf32), Some(4));
        assert_eq!(size(form, Format::Dwarf64), Some(8));
    }
}
