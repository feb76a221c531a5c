use gimli::unit::{
    parse_address_size, parse_debug_abbrev_offset, parse_type_offset, parse_type_signature,
    parse_type_unit_header, parse_unit_header, parse_unit_length, parse_version,
};
use gimli::{
    BigEndian, DebugAbbrevOffset, DebugInfo, DebugTypesOffset, EndianBuf, Error, Format,
    FormatInput, LittleEndian, TypeUnitHeader, UnitHeader, UnitOffset,
};

#[test]
fn test_units() {
    let buf = [
        // First compilation unit.

        // Enable 64-bit DWARF.
        0xff, 0xff, 0xff, 0xff,
        // Unit length = 43
        0x2b, 0x00, 0x00, 0x00, 0x00, 0x00, 0x00, 0x00,
        // Version 4
        0x04, 0x00,
        // debug_abbrev_offset
        0x08, 0x07, 0x06, 0x05, 0x04, 0x03, 0x02, 0x01,
        // address size
        0x08,

        // Placeholder data for first compilation unit's DIEs.
        0x01, 0x02, 0x03, 0x04, 0x05, 0x06, 0x07, 0x08,
        0x01, 0x02, 0x03, 0x04, 0x05, 0x06, 0x07, 0x08,
        0x01, 0x02, 0x03, 0x04, 0x05, 0x06, 0x07, 0x08,
        0x01, 0x02, 0x03, 0x04, 0x05, 0x06, 0x07, 0x08,

        // Second compilation unit

        // 32-bit unit length = 39
        0x27, 0x00, 0x00, 0x00,
        // Version 4
        0x04, 0x00,
        // debug_abbrev_offset
        0x05, 0x06, 0x07, 0x08,
        // Address size
        0x04,

        // Placeholder data for second compilation unit's DIEs.
        0x01, 0x02, 0x03, 0x04, 0x05, 0x06, 0x07, 0x08,
        0x01, 0x02, 0x03, 0x04, 0x05, 0x06, 0x07, 0x08,
        0x01, 0x02, 0x03, 0x04, 0x05, 0x06, 0x07, 0x08,
        0x01, 0x02, 0x03, 0x04, 0x05, 0x06, 0x07, 0x08
    ];

    let debug_info = DebugInfo::<LittleEndian>::new(&buf);
    let mut units = debug_info.units();

    match units.next() {
        Some(Ok(header)) => {
            let expected = UnitHeader::<LittleEndian>::new(
                0x000000000000002b,
                4,
                DebugAbbrevOffset(0x0102030405060708),
                8,
                Format::Dwarf64,
                &buf[23..23 + 32],
            );
            assert_eq!(header, expected);
        }
        otherwise => panic!("Unexpected result: {:?}", otherwise),
    }

    match units.next() {
        Some(Ok(header)) => {
            let expected = UnitHeader::new(
                0x00000027,
                4,
                DebugAbbrevOffset(0x08070605),
                4,
                Format::Dwarf32,
                &buf[buf.len() - 32..],
            );
            assert_eq!(header, expected);
        }
        otherwise => panic!("Unexpected result: {:?}", otherwise),
    }

    assert!(units.next().is_none());
}

#[test]
fn test_parse_unit_length_32_ok() {
    let buf = [0x12, 0x34, 0x56, 0x78];

    match parse_unit_length(EndianBuf::<LittleEndian>::new(&buf)) {
        Ok((rest, (length, format))) => {
            assert_eq!(rest.len(), 0);
            assert_eq!(format, Format::Dwarf32);
            assert_eq!(0x78563412, length);
        }
        otherwise => panic!("Unexpected result: {:?}", otherwise),
    }
}

#[test]
fn test_parse_unit_length_64_ok() {
    let buf = [
        // Dwarf_64_INITIAL_UNIT_LENGTH
        0xff, 0xff, 0xff, 0xff,
        // Actual length
        0x12, 0x34, 0x56, 0x78, 0x9a, 0xbc, 0xde, 0xff
    ];

    match parse_unit_length(EndianBuf::<LittleEndian>::new(&buf)) {
        Ok((rest, (length, format))) => {
            assert_eq!(rest.len(), 0);
            assert_eq!(format, Format::Dwarf64);
            assert_eq!(0xffdebc9a78563412, length);
        }
        otherwise => panic!("Unexpected result: {:?}", otherwise),
    }
}

#[test]
fn test_parse_unit_length_unknown_reserved_value() {
    let buf = [0xfe, 0xff, 0xff, 0xff];

    match parse_unit_length(EndianBuf::<LittleEndian>::new(&buf)) {
        Err(Error::UnknownReservedLength) => assert!(true),
        otherwise => panic!("Unexpected result: {:?}", otherwise),
    };
}

#[test]
fn test_parse_unit_length_incomplete() {
    let buf = [0xff, 0xff, 0xff]; // Need at least 4 bytes.

    match parse_unit_length(EndianBuf::<LittleEndian>::new(&buf)) {
        Err(Error::UnexpectedEof) => assert!(true),
        otherwise => panic!("Unexpected result: {:?}", otherwise),
    };
}

#[test]
fn test_parse_unit_length_64_incomplete() {
    let buf = [
        // DWARF_64_INITIAL_UNIT_LENGTH
        0xff, 0xff, 0xff, 0xff,
        // Actual length is not long enough.
        0x12, 0x34, 0x56, 0x78
    ];

    match parse_unit_length(EndianBuf::<LittleEndian>::new(&buf)) {
        Err(Error::UnexpectedEof) => assert!(true),
        otherwise => panic!("Unexpected result: {:?}", otherwise),
    };
}

#[test]
fn test_unit_version_ok() {
    // Version 4 and two extra bytes
    let buf = [0x04, 0x00, 0xff, 0xff];

    match parse_version(EndianBuf::<LittleEndian>::new(&buf)) {
        Ok((rest, val)) => {
            assert_eq!(val, 4);
            assert_eq!(rest, EndianBuf::new(&[0xff, 0xff]));
        }
        otherwise => panic!("Unexpected result: {:?}", otherwise),
    };
}

#[test]
fn test_unit_version_unknown_version() {
    let buf = [0xab, 0xcd];

    match parse_version(EndianBuf::<LittleEndian>::new(&buf)) {
        Err(Error::UnknownVersion) => assert!(true),
        otherwise => panic!("Unexpected result: {:?}", otherwise),
    };

    let buf = [0x1, 0x0];

    match parse_version(EndianBuf::<LittleEndian>::new(&buf)) {
        Err(Error::UnknownVersion) => assert!(true),
        otherwise => panic!("Unexpected result: {:?}", otherwise),
    };
}

#[test]
fn test_unit_version_incomplete() {
    let buf = [0x04];

    match parse_version(EndianBuf::<LittleEndian>::new(&buf)) {
        Err(Error::UnexpectedEof) => assert!(true),
        otherwise => panic!("Unexpected result: {:?}", otherwise),
    };
}

#[test]
fn test_parse_debug_abbrev_offset_32() {
    let buf = [0x01, 0x02, 0x03, 0x04];

    match parse_debug_abbrev_offset(FormatInput(EndianBuf::<LittleEndian>::new(&buf), Format::Dwarf32)) {
        Ok((_, val)) => assert_eq!(val, DebugAbbrevOffset(0x04030201)),
        otherwise => panic!("Unexpected result: {:?}", otherwise),
    };
}

#[test]
fn test_parse_debug_abbrev_offset_32_incomplete() {
    let buf = [0x01, 0x02];

    match parse_debug_abbrev_offset(FormatInput(EndianBuf::<LittleEndian>::new(&buf), Format::Dwarf32)) {
        Err(Error::UnexpectedEof) => assert!(true),
        otherwise => panic!("Unexpected result: {:?}", otherwise),
    };
}

#[test]
fn test_parse_debug_abbrev_offset_64() {
    let buf = [0x01, 0x02, 0x03, 0x04, 0x05, 0x06, 0x07, 0x08];

    match parse_debug_abbrev_offset(FormatInput(EndianBuf::<LittleEndian>::new(&buf), Format::Dwarf64)) {
        Ok((_, val)) => assert_eq!(val, DebugAbbrevOffset(0x0807060504030201)),
        otherwise => panic!("Unexpected result: {:?}", otherwise),
    };
}

#[test]
fn test_parse_debug_abbrev_offset_64_incomplete() {
    let buf = [0x01, 0x02];

    match parse_debug_abbrev_offset(FormatInput(EndianBuf::<LittleEndian>::new(&buf), Format::Dwarf64)) {
        Err(Error::UnexpectedEof) => assert!(true),
        otherwise => panic!("Unexpected result: {:?}", otherwise),
    };
}

#[test]
fn test_parse_address_size_ok() {
    let buf = [0x04];

    match parse_address_size(&buf) {
        Ok((_, val)) => assert_eq!(val, 4),
        otherwise => panic!("Unexpected result: {:?}", otherwise),
    };
}

#[test]
fn test_parse_unit_header_32_ok() {
    let buf = [
        // 32-bit unit length
        0x07, 0x00, 0x00, 0x00,
        // Version 4
        0x04, 0x00,
        // Debug_abbrev_offset
        0x05, 0x06, 0x07, 0x08,
        // Address size
        0x04
    ];

    match parse_unit_header(EndianBuf::<LittleEndian>::new(&buf)) {
        Ok((_, header)) => {
            assert_eq!(
                header,
                UnitHeader::new(7, 4, DebugAbbrevOffset(0x08070605), 4, Format::Dwarf32, &[])
            )
        }
        otherwise => panic!("Unexpected result: {:?}", otherwise),
    }
}

#[test]
fn test_parse_unit_header_64_ok() {
    let buf = [
        // Enable 64-bit
        0xff, 0xff, 0xff, 0xff,
        // Unit length = 11
        0x0b, 0x00, 0x00, 0x00, 0x00, 0x00, 0x00, 0x00,
        // Version 4
        0x04, 0x00,
        // debug_abbrev_offset
        0x08, 0x07, 0x06, 0x05, 0x04, 0x03, 0x02, 0x01,
        // Address size
        0x08
    ];

    match parse_unit_header(EndianBuf::<LittleEndian>::new(&buf)) {
        Ok((_, header)) => {
            let expected = UnitHeader::new(
                11,
                4,
                DebugAbbrevOffset(0x0102030405060708),
                8,
                Format::Dwarf64,
                &[],
            );
            assert_eq!(header, expected)
        }
        otherwise => panic!("Unexpected result: {:?}", otherwise),
    }
}

#[test]
fn test_parse_type_signature_ok() {
    let buf = [0x01, 0x02, 0x03, 0x04, 0x05, 0x06, 0x07, 0x08];

    match parse_type_signature(EndianBuf::<LittleEndian>::new(&buf)) {
        Ok((_, val)) => assert_eq!(val, 0x0807060504030201),
        otherwise => panic!("Unexpected result: {:?}", otherwise),
    }
}

#[test]
fn test_parse_type_signature_incomplete() {
    let buf = [0x01, 0x02, 0x03, 0x04, 0x05, 0x06, 0x07];

    match parse_type_signature(EndianBuf::<LittleEndian>::new(&buf)) {
        Err(Error::UnexpectedEof) => assert!(true),
        otherwise => panic!("Unexpected result: {:?}", otherwise),
    }
}

#[test]
fn test_parse_type_offset_32_ok() {
    let buf = [0x12, 0x34, 0x56, 0x78, 0x00];

    match parse_type_offset(FormatInput(EndianBuf::<LittleEndian>::new(&buf), Format::Dwarf32)) {
        Ok((rest, offset)) => {
            assert_eq!(rest.0.len(), 1);
            assert_eq!(rest.1, Format::Dwarf32);
            assert_eq!(DebugTypesOffset(0x78563412), offset);
        }
        otherwise => panic!("Unexpected result: {:?}", otherwise),
    }
}

#[test]
fn test_parse_type_offset_64_ok() {
    let buf = [0x12, 0x34, 0x56, 0x78, 0x9a, 0xbc, 0xde, 0xff, 0x00];

    match parse_type_offset(FormatInput(EndianBuf::<LittleEndian>::new(&buf), Format::Dwarf64)) {
        Ok((rest, offset)) => {
            assert_eq!(rest.0.len(), 1);
            assert_eq!(rest.1, Format::Dwarf64);
            assert_eq!(DebugTypesOffset(0xffdebc9a78563412), offset);
        }
        otherwise => panic!("Unexpected result: {:?}", otherwise),
    }
}

#[test]
fn test_parse_type_offset_incomplete() {
    // Need at least 4 bytes.
    let buf = [0xff, 0xff, 0xff];

    match parse_type_offset(FormatInput(EndianBuf::<LittleEndian>::new(&buf), Format::Dwarf32)) {
        Err(Error::UnexpectedEof) => assert!(true),
        otherwise => panic!("Unexpected result: {:?}", otherwise),
    };
}

#[test]
fn test_parse_type_unit_header_64_ok() {
    let buf = [
        // Enable 64-bit unit length mode.
        0xff, 0xff, 0xff, 0xff,
        // The actual unit length (27).
        0x1b, 0x00, 0x00, 0x00, 0x00, 0x00, 0x00, 0x00,
        // Version 4
        0x04, 0x00,
        // debug_abbrev_offset
        0x01, 0x02, 0x03, 0x04, 0x05, 0x06, 0x07, 0x08,
        // Address size
        0x08,
        // Type signature
        0xef, 0xbe, 0xad, 0xde, 0xef, 0xbe, 0xad, 0xde,
        // type offset
        0x12, 0x34, 0x56, 0x78, 0x12, 0x34, 0x56, 0x78
    ];

    let result = parse_type_unit_header(EndianBuf::<LittleEndian>::new(&buf));

    match result {
        Ok((_, header)) => {
            assert_eq!(
                header,
                TypeUnitHeader::new(
                    UnitHeader::new(
                        27,
                        4,
                        DebugAbbrevOffset(0x0807060504030201),
                        8,
                        Format::Dwarf64,
                        &buf[buf.len() - 16..],
                    ),
                    0xdeadbeefdeadbeef,
                    DebugTypesOffset(0x7856341278563412),
                )
            )
        }
        otherwise => panic!("Unexpected result: {:?}", otherwise),
    }
}

#[test]
fn a_section_ends_with_a_unit_that_cannot_be_parsed() {
    let buf = [
        // A unit without entries.
        0x07, 0x00, 0x00, 0x00, 0x04, 0x00, 0x05, 0x06, 0x07, 0x08, 0x04,
        // A unit of an unknown version.
        0x07, 0x00, 0x00, 0x00, 0x05, 0x00, 0x05, 0x06, 0x07, 0x08, 0x04,
        // A unit without entries.
        0x07, 0x00, 0x00, 0x00, 0x04, 0x00, 0x05, 0x06, 0x07, 0x08, 0x04,
    ];

    let mut units = DebugInfo::<LittleEndian>::new(&buf).units();
    assert!(matches!(units.next(), Some(Ok(_))));
    assert!(matches!(units.next(), Some(Err(Error::UnknownVersion))));
    assert!(units.next().is_none());
    assert!(units.next().is_none());
}

#[test]
fn an_empty_section_has_no_units() {
    assert!(DebugInfo::<LittleEndian>::new(&[]).units().next().is_none());
}

#[test]
fn units_fill_a_section() {
    let buf = [
        // A unit with three bytes of entries.
        0x0a, 0x00, 0x00, 0x00, 0x04, 0x00, 0x05, 0x06, 0x07, 0x08, 0x04, 0x01, 0x02, 0x03,
        // A unit without entries.
        0x07, 0x00, 0x00, 0x00, 0x02, 0x00, 0x05, 0x06, 0x07, 0x08, 0x08,
        // A unit in 64-bit DWARF with one byte of entries.
        0xff, 0xff, 0xff, 0xff, 0x0c, 0x00, 0x00, 0x00, 0x00, 0x00, 0x00, 0x00, 0x03, 0x00, 0x05,
        0x06, 0x07, 0x08, 0x09, 0x0a, 0x0b, 0x0c, 0x08, 0x01,
    ];

    let mut total = 0;
    let mut count = 0;
    let mut units = DebugInfo::<LittleEndian>::new(&buf).units();
    while let Some(header) = units.next() {
        total += header.unwrap().length_including_self();
        count += 1;
    }
    assert_eq!(count, 3);
    assert_eq!(total, buf.len() as u64);

    // The units of a part are the same without what follows.
    let mut part = DebugInfo::<LittleEndian>::new(&buf[..14]).units();
    let mut whole = DebugInfo::<LittleEndian>::new(&buf).units();
    assert_eq!(part.next(), whole.next());
    assert!(part.next().is_none());
}

#[test]
fn the_units_of_joined_sections_follow_each_other() {
    let first = [
        // A unit with one byte of entries.
        0x08, 0x00, 0x00, 0x00, 0x04, 0x00, 0x05, 0x06, 0x07, 0x08, 0x04, 0x01,
    ];
    let second = [
        // A unit without entries.
        0x07, 0x00, 0x00, 0x00, 0x02, 0x00, 0x05, 0x06, 0x07, 0x08, 0x08,
        // A unit of a reserved length.
        0xf0, 0xff, 0xff, 0xff,
    ];
    let joined = [&first[..], &second[..]].concat();

    let mut units = DebugInfo::<LittleEndian>::new(&joined).units();
    for section in [&first[..], &second[..]] {
        let mut expected = DebugInfo::<LittleEndian>::new(section).units();
        while let Some(header) = expected.next() {
            assert_eq!(units.next(), Some(header));
        }
    }
    assert!(units.next().is_none());
}

#[test]
fn a_unit_header_gives_back_its_parts() {
    let unit = UnitHeader::<LittleEndian>::new(
        0x1234,
        3,
        DebugAbbrevOffset(0x56),
        8,
        Format::Dwarf64,
        &[0xaa],
    );
    assert_eq!(unit.unit_length(), 0x1234);
    assert_eq!(unit.length_including_self(), 0x1234 + 12);
    assert_eq!(unit.version(), 3);
    assert_eq!(unit.debug_abbrev_offset(), DebugAbbrevOffset(0x56));
    assert_eq!(unit.address_size(), 8);
    assert_eq!(unit.format(), Format::Dwarf64);

    let unit = UnitHeader::<LittleEndian>::new(
        0x1234,
        3,
        DebugAbbrevOffset(0x56),
        8,
        Format::Dwarf32,
        &[0xaa],
    );
    assert_eq!(unit.length_including_self(), 0x1234 + 4);
}

#[test]
fn the_format_says_how_large_a_header_is() {
    assert_eq!(UnitHeader::<LittleEndian>::size_of_unit_length(Format::Dwarf32), 4);
    assert_eq!(UnitHeader::<LittleEndian>::size_of_unit_length(Format::Dwarf64), 12);
    assert_eq!(UnitHeader::<LittleEndian>::size_of_header(Format::Dwarf32), 11);
    assert_eq!(UnitHeader::<LittleEndian>::size_of_header(Format::Dwarf64), 23);
}

#[test]
fn a_unit_is_at_least_as_long_as_its_header() {
    let buf = [0x06, 0x00, 0x00, 0x00, 0x04, 0x00, 0x05, 0x06, 0x07, 0x08, 0x04];
    assert!(matches!(
        parse_unit_header(EndianBuf::<LittleEndian>::new(&buf)),
        Err(Error::UnitHeaderLengthTooShort)
    ));
}

#[test]
fn a_unit_lies_within_its_section() {
    let buf = [0x08, 0x00, 0x00, 0x00, 0x04, 0x00, 0x05, 0x06, 0x07, 0x08, 0x04];
    assert!(matches!(
        parse_unit_header(EndianBuf::<LittleEndian>::new(&buf)),
        Err(Error::UnexpectedEof)
    ));

    // The largest length that there is.
    let buf = [
        0xff, 0xff, 0xff, 0xff, 0xff, 0xff, 0xff, 0xff, 0xff, 0xff, 0xff, 0xff, 0x04, 0x00, 0x05,
        0x06, 0x07, 0x08, 0x09, 0x0a, 0x0b, 0x0c, 0x04,
    ];
    assert!(matches!(
        parse_unit_header(EndianBuf::<LittleEndian>::new(&buf)),
        Err(Error::UnexpectedEof)
    ));
}

#[test]
fn a_header_is_parsed_in_the_byte_order_of_the_buffer() {
    let buf = [0x00, 0x00, 0x00, 0x09, 0x00, 0x02, 0x05, 0x06, 0x07, 0x08, 0x04, 0xaa, 0xbb, 0xcc];
    let (rest, header) = parse_unit_header(EndianBuf::<BigEndian>::new(&buf)).unwrap();
    assert_eq!(rest, EndianBuf::new(&buf[11..]));
    assert_eq!(
        header,
        UnitHeader::new(
            9,
            2,
            DebugAbbrevOffset(0x05060708),
            4,
            Format::Dwarf32,
            &buf[11..13],
        )
    );
}

#[test]
fn the_lengths_from_fffffff0_on_are_reserved() {
    let buf = [0xef, 0xff, 0xff, 0xff];
    assert_eq!(
        parse_unit_length(EndianBuf::<LittleEndian>::new(&buf)),
        Ok((EndianBuf::new(&[]), (0xffffffef, Format::Dwarf32)))
    );
    let buf = [0xf0, 0xff, 0xff, 0xff];
    assert_eq!(
        parse_unit_length(EndianBuf::<LittleEndian>::new(&buf)),
        Err(Error::UnknownReservedLength)
    );
}

#[test]
fn ranges_are_counted_from_the_start_of_the_unit() {
    let entries = [0x10, 0x11, 0x12, 0x13];
    let unit = UnitHeader::<LittleEndian>::new(
        11,
        4,
        DebugAbbrevOffset(0),
        4,
        Format::Dwarf32,
        &entries,
    );

    assert!(!unit.is_valid_offset(UnitOffset(0)));
    assert!(!unit.is_valid_offset(UnitOffset(10)));
    assert!(unit.is_valid_offset(UnitOffset(11)));
    assert!(unit.is_valid_offset(UnitOffset(14)));
    assert!(!unit.is_valid_offset(UnitOffset(15)));
    assert!(!unit.is_valid_offset(UnitOffset(u64::MAX)));

    assert_eq!(unit.range(UnitOffset(12)..UnitOffset(14)), &[0x11, 0x12]);
    assert_eq!(unit.range(UnitOffset(12)..UnitOffset(12)), &[]);
    assert_eq!(unit.range_from(UnitOffset(11)..), &entries[..]);
    assert_eq!(unit.range_from(UnitOffset(13)..), &[0x12, 0x13]);
    assert_eq!(unit.range_to(..UnitOffset(13)), &[0x10, 0x11]);
    assert_eq!(
        [unit.range_to(..UnitOffset(13)), unit.range_from(UnitOffset(13)..)].concat(),
        &entries
    );

    let unit = UnitHeader::<LittleEndian>::new(
        15,
        4,
        DebugAbbrevOffset(0),
        4,
        Format::Dwarf64,
        &entries,
    );
    assert!(!unit.is_valid_offset(UnitOffset(22)));
    assert_eq!(unit.range_from(UnitOffset(23)..), &entries[..]);
}

#[test]
fn a_type_unit_header_gives_back_its_parts() {
    let buf = [
        // 32-bit unit length = 21
        0x15, 0x00, 0x00, 0x00,
        // Version 4
        0x04, 0x00,
        // debug_abbrev_offset
        0x05, 0x06, 0x07, 0x08,
        // Address size
        0x04,
        // Type signature
        0x01, 0x02, 0x03, 0x04, 0x05, 0x06, 0x07, 0x08,
        // Type offset
        0x12, 0x34, 0x56, 0x78,
        // Entries
        0xaa, 0xbb,
        // What follows the unit
        0xcc,
    ];

    let (rest, header) = parse_type_unit_header(EndianBuf::<LittleEndian>::new(&buf)).unwrap();
    assert_eq!(rest, EndianBuf::new(&buf[23..]));
    assert_eq!(header.unit_length(), 21);
    assert_eq!(header.version(), 4);
    assert_eq!(header.debug_abbrev_offset(), DebugAbbrevOffset(0x08070605));
    assert_eq!(header.address_size(), 4);
    assert_eq!(header.type_signature(), 0x0807060504030201);
    assert_eq!(header.type_offset(), DebugTypesOffset(0x78563412));

    assert_eq!(
        parse_type_unit_header(EndianBuf::<LittleEndian>::new(&[])),
        Err(Error::UnexpectedEof)
    );
}
