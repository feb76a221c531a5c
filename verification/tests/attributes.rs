use gimli::attribute::parse_attribute;
use gimli::constants;
use gimli::constants::{DwAt, DwChildren, DwForm, DwTag};
use gimli::{
    Abbreviation, Attribute, AttributeInput, AttributeSpecification, AttributeValue,
    DebugAbbrevOffset, DebugInfoOffset, DebugStrOffset, DebugTypesOffset,
    DebuggingInformationEntry, EndianBuf, Format, LittleEndian, UnitHeader, UnitOffset,
};

#[test]
fn test_parse_attribute_addr() {
    let buf = [0x01, 0x02, 0x03, 0x04, 0x05, 0x06, 0x07, 0x08];

    let unit = UnitHeader::<LittleEndian>::new(
        7,
        4,
        DebugAbbrevOffset(0x08070605),
        4,
        Format::Dwarf32,
        &[],
    );

    let spec = AttributeSpecification {
        name: DwAt(constants::DW_AT_low_pc),
        form: DwForm(constants::DW_FORM_addr),
    };

    let input = AttributeInput(EndianBuf::new(&buf), &unit, spec);

    match parse_attribute(input) {
        Ok((rest, attr)) => {
            assert_eq!(
                attr,
                Attribute {
                    name: DwAt(constants::DW_AT_low_pc),
                    value: AttributeValue::Addr(&buf[..4]),
                }
            );
            assert_eq!(rest.0, EndianBuf::new(&buf[4..]));
        }
        otherwise => {
            println!("Unexpected parse result = {:#?}", otherwise);
            assert!(false);
        }
    };
}

#[test]
fn test_parse_attribute_block1() {
    // Length of data (3), three bytes of data, two bytes of left over input.
    let buf = [0x03, 0x09, 0x09, 0x09, 0x00, 0x00];

    let unit = UnitHeader::<LittleEndian>::new(
        7,
        4,
        DebugAbbrevOffset(0x08070605),
        4,
        Format::Dwarf32,
        &[],
    );

    let spec = AttributeSpecification {
        name: DwAt(constants::DW_AT_name),
        form: DwForm(constants::DW_FORM_block1),
    };

    let input = AttributeInput(EndianBuf::new(&buf), &unit, spec);

    match parse_attribute(input) {
        Ok((rest, attr)) => {
            assert_eq!(
                attr,
                Attribute {
                    name: DwAt(constants::DW_AT_name),
                    value: AttributeValue::Block(&buf[1..4]),
                }
            );
            assert_eq!(rest.0, EndianBuf::new(&buf[4..]));
        }
        otherwise => {
            println!("Unexpected parse result = {:#?}", otherwise);
            assert!(false);
        }
    };
}

#[test]
fn test_parse_attribute_block2() {
    // Two byte length of data (2), two bytes of data, two bytes of left over input.
    let buf = [0x02, 0x00, 0x09, 0x09, 0x00, 0x00];

    let unit = UnitHeader::<LittleEndian>::new(
        7,
        4,
        DebugAbbrevOffset(0x08070605),
        4,
        Format::Dwarf32,
        &[],
    );

    let spec = AttributeSpecification {
        name: DwAt(constants::DW_AT_name),
        form: DwForm(constants::DW_FORM_block2),
    };

    let input = AttributeInput(EndianBuf::new(&buf), &unit, spec);

    match parse_attribute(input) {
        Ok((rest, attr)) => {
            assert_eq!(
                attr,
                Attribute {
                    name: DwAt(constants::DW_AT_name),
                    value: AttributeValue::Block(&buf[2..4]),
                }
            );
            assert_eq!(rest.0, EndianBuf::new(&buf[4..]));
        }
        otherwise => {
            println!("Unexpected parse result = {:#?}", otherwise);
            assert!(false);
        }
    };
}

#[test]
fn test_parse_attribute_block4() {
    // Four byte length of data (2), two bytes of data, no left over input.
    let buf = [0x02, 0x00, 0x00, 0x00, 0x99, 0x99];

    let unit = UnitHeader::<LittleEndian>::new(
        7,
        4,
        DebugAbbrevOffset(0x08070605),
        4,
        Format::Dwarf32,
        &[],
    );

    let spec = AttributeSpecification {
        name: DwAt(constants::DW_AT_name),
        form: DwForm(constants::DW_FORM_block4),
    };

    let input = AttributeInput(EndianBuf::new(&buf), &unit, spec);

    match parse_attribute(input) {
        Ok((rest, attr)) => {
            assert_eq!(
                attr,
                Attribute {
                    name: DwAt(constants::DW_AT_name),
                    value: AttributeValue::Block(&buf[4..]),
                }
            );
            assert_eq!(rest.0, EndianBuf::new(&buf[..0]));
        }
        otherwise => {
            println!("Unexpected parse result = {:#?}", otherwise);
            assert!(false);
        }
    };
}

#[test]
fn test_parse_attribute_block() {
    // LEB length of data (2, one byte), two bytes of data, no left over input.
    let buf = [0x02, 0x99, 0x99];

    let unit = UnitHeader::<LittleEndian>::new(
        7,
        4,
        DebugAbbrevOffset(0x08070605),
        4,
        Format::Dwarf32,
        &[],
    );

    let spec = AttributeSpecification {
        name: DwAt(constants::DW_AT_name),
        form: DwForm(constants::DW_FORM_block),
    };

    let input = AttributeInput(EndianBuf::new(&buf), &unit, spec);

    match parse_attribute(input) {
        Ok((rest, attr)) => {
            assert_eq!(
                attr,
                Attribute {
                    name: DwAt(constants::DW_AT_name),
                    value: AttributeValue::Block(&buf[1..]),
                }
            );
            assert_eq!(rest.0, EndianBuf::new(&buf[..0]));
        }
        otherwise => {
            println!("Unexpected parse result = {:#?}", otherwise);
            assert!(false);
        }
    };
}

#[test]
fn test_parse_attribute_data1() {
    let buf = [0x03];

    let unit = UnitHeader::<LittleEndian>::new(
        7,
        4,
        DebugAbbrevOffset(0x08070605),
        4,
        Format::Dwarf32,
        &[],
    );

    let spec = AttributeSpecification {
        name: DwAt(constants::DW_AT_name),
        form: DwForm(constants::DW_FORM_data1),
    };

    let input = AttributeInput(EndianBuf::new(&buf), &unit, spec);

    match parse_attribute(input) {
        Ok((_, attr)) => {
            assert_eq!(
                attr,
                Attribute {
                    name: DwAt(constants::DW_AT_name),
                    value: AttributeValue::Data(&buf[..]),
                }
            );
        }
        otherwise => {
            println!("Unexpected parse result = {:#?}", otherwise);
            assert!(false);
        }
    };
}

#[test]
fn test_parse_attribute_data2() {
    let buf = [0x02, 0x01, 0x0];

    let unit = UnitHeader::<LittleEndian>::new(
        7,
        4,
        DebugAbbrevOffset(0x08070605),
        4,
        Format::Dwarf32,
        &[],
    );

    let spec = AttributeSpecification {
        name: DwAt(constants::DW_AT_name),
        form: DwForm(constants::DW_FORM_data2),
    };

    let input = AttributeInput(EndianBuf::new(&buf), &unit, spec);

    match parse_attribute(input) {
        Ok((rest, attr)) => {
            assert_eq!(
                attr,
                Attribute {
                    name: DwAt(constants::DW_AT_name),
                    value: AttributeValue::Data(&buf[..2]),
                }
            );
            assert_eq!(rest.0, EndianBuf::new(&buf[2..]));
        }
        otherwise => {
            println!("Unexpected parse result = {:#?}", otherwise);
            assert!(false);
        }
    };
}

#[test]
fn test_parse_attribute_data4() {
    let buf = [0x01, 0x02, 0x03, 0x04, 0x99, 0x99];

    let unit = UnitHeader::<LittleEndian>::new(
        7,
        4,
        DebugAbbrevOffset(0x08070605),
        4,
        Format::Dwarf32,
        &[],
    );

    let spec = AttributeSpecification {
        name: DwAt(constants::DW_AT_name),
        form: DwForm(constants::DW_FORM_data4),
    };

    let input = AttributeInput(EndianBuf::new(&buf), &unit, spec);

    match parse_attribute(input) {
        Ok((rest, attr)) => {
            assert_eq!(
                attr,
                Attribute {
                    name: DwAt(constants::DW_AT_name),
                    value: AttributeValue::Data(&buf[..4]),
                }
            );
            assert_eq!(rest.0, EndianBuf::new(&buf[4..]));
        }
        otherwise => {
            println!("Unexpected parse result = {:#?}", otherwise);
            assert!(false);
        }
    };
}

#[test]
fn test_parse_attribute_data8() {
    let buf = [0x01, 0x02, 0x03, 0x04, 0x05, 0x06, 0x07, 0x08, 0x99, 0x99];

    let unit = UnitHeader::<LittleEndian>::new(
        7,
        8,
        DebugAbbrevOffset(0x08070605),
        8,
        Format::Dwarf32,
        &[],
    );

    let spec = AttributeSpecification {
        name: DwAt(constants::DW_AT_name),
        form: DwForm(constants::DW_FORM_data8),
    };

    let input = AttributeInput(EndianBuf::new(&buf), &unit, spec);

    match parse_attribute(input) {
        Ok((rest, attr)) => {
            assert_eq!(
                attr,
                Attribute {
                    name: DwAt(constants::DW_AT_name),
                    value: AttributeValue::Data(&buf[..8]),
                }
            );
            assert_eq!(rest.0, EndianBuf::new(&buf[8..]));
        }
        otherwise => {
            println!("Unexpected parse result = {:#?}", otherwise);
            assert!(false);
        }
    };
}

#[test]
fn test_parse_attribute_udata() {
    let mut buf = [0, 0, 0, 0, 0, 0, 0, 0, 0, 0];

    let bytes_written = {
        let mut writable = &mut buf[..];
        leb128::write::unsigned(&mut writable, 4097).expect("should write ok")
    };

    let unit = UnitHeader::<LittleEndian>::new(
        7,
        8,
        DebugAbbrevOffset(0x08070605),
        8,
        Format::Dwarf32,
        &[],
    );

    let spec = AttributeSpecification {
        name: DwAt(constants::DW_AT_name),
        form: DwForm(constants::DW_FORM_udata),
    };

    let input = AttributeInput(EndianBuf::new(&buf), &unit, spec);

    match parse_attribute(input) {
        Ok((rest, attr)) => {
            assert_eq!(
                attr,
                Attribute {
                    name: DwAt(constants::DW_AT_name),
                    value: AttributeValue::Udata(4097),
                }
            );
            assert_eq!(rest.0, EndianBuf::new(&buf[bytes_written..]));
        }
        otherwise => {
            println!("Unexpected parse result = {:#?}", otherwise);
            assert!(false);
        }
    };
}

#[test]
fn test_parse_attribute_sdata() {
    let mut buf = [0, 0, 0, 0, 0, 0, 0, 0, 0, 0];

    let bytes_written = {
        let mut writable = &mut buf[..];
        leb128::write::signed(&mut writable, -4097).expect("should write ok")
    };

    let unit = UnitHeader::<LittleEndian>::new(
        7,
        8,
        DebugAbbrevOffset(0x08070605),
        8,
        Format::Dwarf32,
        &[],
    );

    let spec = AttributeSpecification {
        name: DwAt(constants::DW_AT_name),
        form: DwForm(constants::DW_FORM_sdata),
    };

    let input = AttributeInput(EndianBuf::new(&buf), &unit, spec);

    match parse_attribute(input) {
        Ok((rest, attr)) => {
            assert_eq!(
                attr,
                Attribute {
                    name: DwAt(constants::DW_AT_name),
                    value: AttributeValue::Sdata(-4097),
                }
            );
            assert_eq!(rest.0, EndianBuf::new(&buf[bytes_written..]));
        }
        otherwise => {
            println!("Unexpected parse result = {:#?}", otherwise);
            assert!(false);
        }
    };
}

#[test]
fn test_parse_attribute_exprloc() {
    // LEB length of data (2, one byte), two bytes of data, one byte left over input.
    let buf = [0x02, 0x99, 0x99, 0x11];

    let unit = UnitHeader::<LittleEndian>::new(
        7,
        4,
        DebugAbbrevOffset(0x08070605),
        4,
        Format::Dwarf32,
        &[],
    );

    let spec = AttributeSpecification {
        name: DwAt(constants::DW_AT_name),
        form: DwForm(constants::DW_FORM_exprloc),
    };

    let input = AttributeInput(EndianBuf::new(&buf), &unit, spec);

    match parse_attribute(input) {
        Ok((rest, attr)) => {
            assert_eq!(
                attr,
                Attribute {
                    name: DwAt(constants::DW_AT_name),
                    value: AttributeValue::Exprloc(&buf[1..3]),
                }
            );
            assert_eq!(rest.0, EndianBuf::new(&buf[3..]));
        }
        otherwise => {
            println!("Unexpected parse result = {:#?}", otherwise);
            assert!(false);
        }
    };
}

#[test]
fn test_parse_attribute_flag_true() {
    let buf = [0x42];

    let unit = UnitHeader::<LittleEndian>::new(
        7,
        4,
        DebugAbbrevOffset(0x08070605),
        4,
        Format::Dwarf32,
        &[],
    );

    let spec = AttributeSpecification {
        name: DwAt(constants::DW_AT_name),
        form: DwForm(constants::DW_FORM_flag),
    };

    let input = AttributeInput(EndianBuf::new(&buf), &unit, spec);

    match parse_attribute(input) {
        Ok((_, attr)) => {
            assert_eq!(
                attr,
                Attribute {
                    name: DwAt(constants::DW_AT_name),
                    value: AttributeValue::Flag(true),
                }
            );
        }
        otherwise => {
            println!("Unexpected parse result = {:#?}", otherwise);
            assert!(false);
        }
    };
}

#[test]
fn test_parse_attribute_flag_false() {
    let buf = [0x00];

    let unit = UnitHeader::<LittleEndian>::new(
        7,
        4,
        DebugAbbrevOffset(0x08070605),
        4,
        Format::Dwarf32,
        &[],
    );

    let spec = AttributeSpecification {
        name: DwAt(constants::DW_AT_name),
        form: DwForm(constants::DW_FORM_flag),
    };

    let input = AttributeInput(EndianBuf::new(&buf), &unit, spec);

    match parse_attribute(input) {
        Ok((_, attr)) => {
            assert_eq!(
                attr,
                Attribute {
                    name: DwAt(constants::DW_AT_name),
                    value: AttributeValue::Flag(false),
                }
            );
        }
        otherwise => {
            println!("Unexpected parse result = {:#?}", otherwise);
            assert!(false);
        }
    };
}

#[test]
fn test_parse_attribute_flag_present() {
    let buf = [0x01, 0x02, 0x03, 0x04];

    let unit = UnitHeader::<LittleEndian>::new(
        7,
        4,
        DebugAbbrevOffset(0x08070605),
        4,
        Format::Dwarf32,
        &[],
    );

    let spec = AttributeSpecification {
        name: DwAt(constants::DW_AT_name),
        form: DwForm(constants::DW_FORM_flag_present),
    };

    let input = AttributeInput(EndianBuf::new(&buf), &unit, spec);

    match parse_attribute(input) {
        Ok((rest, attr)) => {
            assert_eq!(
                attr,
                Attribute {
                    name: DwAt(constants::DW_AT_name),
                    value: AttributeValue::Flag(true),
                }
            );
            // DW_FORM_flag_present does not consume any bytes of the input
            // stream.
            assert_eq!(rest.0, EndianBuf::new(&buf[..]));
        }
        otherwise => {
            println!("Unexpected parse result = {:#?}", otherwise);
            assert!(false);
        }
    };
}

#[test]
fn test_parse_attribute_sec_offset_32() {
    let buf = [0x01, 0x02, 0x03, 0x04, 0x05, 0x06, 0x07, 0x08, 0x09, 0x10];

    let unit = UnitHeader::<LittleEndian>::new(
        7,
        4,
        DebugAbbrevOffset(0x08070605),
        4,
        Format::Dwarf32,
        &[],
    );

    let spec = AttributeSpecification {
        name: DwAt(constants::DW_AT_name),
        form: DwForm(constants::DW_FORM_sec_offset),
    };

    let input = AttributeInput(EndianBuf::new(&buf), &unit, spec);

    match parse_attribute(input) {
        Ok((rest, attr)) => {
            assert_eq!(
                attr,
                Attribute {
                    name: DwAt(constants::DW_AT_name),
                    value: AttributeValue::SecOffset(0x04030201),
                }
            );
            assert_eq!(rest.0, EndianBuf::new(&buf[4..]));
        }
        otherwise => {
            println!("Unexpected parse result = {:#?}", otherwise);
            assert!(false);
        }
    };
}

#[test]
fn test_parse_attribute_sec_offset_64() {
    let buf = [0x01, 0x02, 0x03, 0x04, 0x05, 0x06, 0x07, 0x08, 0x09, 0x10];

    let unit = UnitHeader::<LittleEndian>::new(
        7,
        4,
        DebugAbbrevOffset(0x08070605),
        4,
        Format::Dwarf64,
        &[],
    );

    let spec = AttributeSpecification {
        name: DwAt(constants::DW_AT_name),
        form: DwForm(constants::DW_FORM_sec_offset),
    };

    let input = AttributeInput(EndianBuf::new(&buf), &unit, spec);

    match parse_attribute(input) {
        Ok((rest, attr)) => {
            assert_eq!(
                attr,
                Attribute {
                    name: DwAt(constants::DW_AT_name),
                    value: AttributeValue::SecOffset(0x0807060504030201),
                }
            );
            assert_eq!(rest.0, EndianBuf::new(&buf[8..]));
        }
        otherwise => {
            println!("Unexpected parse result = {:#?}", otherwise);
            assert!(false);
        }
    };
}

#[test]
fn test_parse_attribute_ref1() {
    let buf = [0x03];

    let unit = UnitHeader::<LittleEndian>::new(
        7,
        4,
        DebugAbbrevOffset(0x08070605),
        4,
        Format::Dwarf32,
        &[],
    );

    let spec = AttributeSpecification {
        name: DwAt(constants::DW_AT_name),
        form: DwForm(constants::DW_FORM_ref1),
    };

    let input = AttributeInput(EndianBuf::new(&buf), &unit, spec);

    match parse_attribute(input) {
        Ok((_, attr)) => {
            assert_eq!(
                attr,
                Attribute {
                    name: DwAt(constants::DW_AT_name),
                    value: AttributeValue::UnitRef(UnitOffset(3)),
                }
            );
        }
        otherwise => {
            println!("Unexpected parse result = {:#?}", otherwise);
            assert!(false);
        }
    };
}

#[test]
fn test_parse_attribute_ref2() {
    let buf = [0x02, 0x01, 0x0];

    let unit = UnitHeader::<LittleEndian>::new(
        7,
        4,
        DebugAbbrevOffset(0x08070605),
        4,
        Format::Dwarf32,
        &[],
    );

    let spec = AttributeSpecification {
        name: DwAt(constants::DW_AT_name),
        form: DwForm(constants::DW_FORM_ref2),
    };

    let input = AttributeInput(EndianBuf::new(&buf), &unit, spec);

    match parse_attribute(input) {
        Ok((rest, attr)) => {
            assert_eq!(
                attr,
                Attribute {
                    name: DwAt(constants::DW_AT_name),
                    value: AttributeValue::UnitRef(UnitOffset(258)),
                }
            );
            assert_eq!(rest.0, EndianBuf::new(&buf[2..]));
        }
        otherwise => {
            println!("Unexpected parse result = {:#?}", otherwise);
            assert!(false);
        }
    };
}

#[test]
fn test_parse_attribute_ref4() {
    let buf = [0x01, 0x02, 0x03, 0x04, 0x99, 0x99];

    let unit = UnitHeader::<LittleEndian>::new(
        7,
        4,
        DebugAbbrevOffset(0x08070605),
        4,
        Format::Dwarf32,
        &[],
    );

    let spec = AttributeSpecification {
        name: DwAt(constants::DW_AT_name),
        form: DwForm(constants::DW_FORM_ref4),
    };

    let input = AttributeInput(EndianBuf::new(&buf), &unit, spec);

    match parse_attribute(input) {
        Ok((rest, attr)) => {
            assert_eq!(
                attr,
                Attribute {
                    name: DwAt(constants::DW_AT_name),
                    value: AttributeValue::UnitRef(UnitOffset(67305985)),
                }
            );
            assert_eq!(rest.0, EndianBuf::new(&buf[4..]));
        }
        otherwise => {
            println!("Unexpected parse result = {:#?}", otherwise);
            assert!(false);
        }
    };
}

#[test]
fn test_parse_attribute_ref8() {
    let buf = [0x01, 0x02, 0x03, 0x04, 0x05, 0x06, 0x07, 0x08, 0x99, 0x99];

    let unit = UnitHeader::<LittleEndian>::new(
        7,
        8,
        DebugAbbrevOffset(0x08070605),
        8,
        Format::Dwarf32,
        &[],
    );

    let spec = AttributeSpecification {
        name: DwAt(constants::DW_AT_name),
        form: DwForm(constants::DW_FORM_ref8),
    };

    let input = AttributeInput(EndianBuf::new(&buf), &unit, spec);

    match parse_attribute(input) {
        Ok((rest, attr)) => {
            assert_eq!(
                attr,
                Attribute {
                    name: DwAt(constants::DW_AT_name),
                    value: AttributeValue::UnitRef(UnitOffset(578437695752307201)),
                }
            );
            assert_eq!(rest.0, EndianBuf::new(&buf[8..]));
        }
        otherwise => {
            println!("Unexpected parse result = {:#?}", otherwise);
            assert!(false);
        }
    };
}

#[test]
fn test_parse_attribute_refudata() {
    let mut buf = [0, 0, 0, 0, 0, 0, 0, 0, 0, 0];

    let bytes_written = {
        let mut writable = &mut buf[..];
        leb128::write::unsigned(&mut writable, 4097).expect("should write ok")
    };

    let unit = UnitHeader::<LittleEndian>::new(
        7,
        8,
        DebugAbbrevOffset(0x08070605),
        8,
        Format::Dwarf32,
        &[],
    );

    let spec = AttributeSpecification {
        name: DwAt(constants::DW_AT_name),
        form: DwForm(constants::DW_FORM_ref_udata),
    };

    let input = AttributeInput(EndianBuf::new(&buf), &unit, spec);

    match parse_attribute(input) {
        Ok((rest, attr)) => {
            assert_eq!(
                attr,
                Attribute {
                    name: DwAt(constants::DW_AT_name),
                    value: AttributeValue::UnitRef(UnitOffset(4097)),
                }
            );
            assert_eq!(rest.0, EndianBuf::new(&buf[bytes_written..]));
        }
        otherwise => {
            println!("Unexpected parse result = {:#?}", otherwise);
            assert!(false);
        }
    };
}

#[test]
fn test_parse_attribute_refaddr_32() {
    let buf = [0x01, 0x02, 0x03, 0x04, 0x05, 0x06, 0x07, 0x08, 0x99, 0x99];

    let unit = UnitHeader::<LittleEndian>::new(
        7,
        8,
        DebugAbbrevOffset(0x08070605),
        8,
        Format::Dwarf32,
        &[],
    );

    let spec = AttributeSpecification {
        name: DwAt(constants::DW_AT_name),
        form: DwForm(constants::DW_FORM_ref_addr),
    };

    let input = AttributeInput(EndianBuf::new(&buf), &unit, spec);

    match parse_attribute(input) {
        Ok((rest, attr)) => {
            assert_eq!(
                attr,
                Attribute {
                    name: DwAt(constants::DW_AT_name),
                    value: AttributeValue::DebugInfoRef(DebugInfoOffset(67305985)),
                }
            );
            assert_eq!(rest.0, EndianBuf::new(&buf[4..]));
        }
        otherwise => {
            println!("Unexpected parse result = {:#?}", otherwise);
            assert!(false);
        }
    };
}

#[test]
fn test_parse_attribute_refaddr_64() {
    let buf = [0x01, 0x02, 0x03, 0x04, 0x05, 0x06, 0x07, 0x08, 0x99, 0x99];

    let unit = UnitHeader::<LittleEndian>::new(
        7,
        8,
        DebugAbbrevOffset(0x08070605),
        8,
        Format::Dwarf64,
        &[],
    );

    let spec = AttributeSpecification {
        name: DwAt(constants::DW_AT_name),
        form: DwForm(constants::DW_FORM_ref_addr),
    };

    let input = AttributeInput(EndianBuf::new(&buf), &unit, spec);

    match parse_attribute(input) {
        Ok((rest, attr)) => {
            assert_eq!(
                attr,
                Attribute {
                    name: DwAt(constants::DW_AT_name),
                    value: AttributeValue::DebugInfoRef(DebugInfoOffset(578437695752307201)),
                }
            );
            assert_eq!(rest.0, EndianBuf::new(&buf[8..]));
        }
        otherwise => {
            println!("Unexpected parse result = {:#?}", otherwise);
            assert!(false);
        }
    };
}

#[test]
fn test_parse_attribute_refsig8() {
    let buf = [0x01, 0x02, 0x03, 0x04, 0x05, 0x06, 0x07, 0x08, 0x99, 0x99];

    let unit = UnitHeader::<LittleEndian>::new(
        7,
        8,
        DebugAbbrevOffset(0x08070605),
        8,
        Format::Dwarf64,
        &[],
    );

    let spec = AttributeSpecification {
        name: DwAt(constants::DW_AT_name),
        form: DwForm(constants::DW_FORM_ref_sig8),
    };

    let input = AttributeInput(EndianBuf::new(&buf), &unit, spec);

    match parse_attribute(input) {
        Ok((rest, attr)) => {
            assert_eq!(
                attr,
                Attribute {
                    name: DwAt(constants::DW_AT_name),
                    value: AttributeValue::DebugTypesRef(DebugTypesOffset(578437695752307201)),
                }
            );
            assert_eq!(rest.0, EndianBuf::new(&buf[8..]));
        }
        otherwise => {
            println!("Unexpected parse result = {:#?}", otherwise);
            assert!(false);
        }
    };
}

#[test]
fn test_parse_attribute_string() {
    let buf = [0x01, 0x02, 0x03, 0x04, 0x05, 0x0, 0x99, 0x99];

    let unit = UnitHeader::<LittleEndian>::new(
        7,
        8,
        DebugAbbrevOffset(0x08070605),
        8,
        Format::Dwarf64,
        &[],
    );

    let spec = AttributeSpecification {
        name: DwAt(constants::DW_AT_name),
        form: DwForm(constants::DW_FORM_string),
    };

    let input = AttributeInput(EndianBuf::new(&buf), &unit, spec);

    match parse_attribute(input) {
        Ok((rest, attr)) => {
            assert_eq!(
                attr,
                Attribute {
                    name: DwAt(constants::DW_AT_name),
                    value: AttributeValue::String(&buf[..6]),
                }
            );
            assert_eq!(rest.0, EndianBuf::new(&buf[6..]));
        }
        otherwise => {
            println!("Unexpected parse result = {:#?}", otherwise);
            assert!(false);
        }
    };
}

#[test]
fn test_parse_attribute_strp_32() {
    let buf = [0x01, 0x02, 0x03, 0x04, 0x05, 0x06, 0x07, 0x08, 0x99, 0x99];

    let unit = UnitHeader::<LittleEndian>::new(
        7,
        8,
        DebugAbbrevOffset(0x08070605),
        8,
        Format::Dwarf32,
        &[],
    );

    let spec = AttributeSpecification {
        name: DwAt(constants::DW_AT_name),
        form: DwForm(constants::DW_FORM_strp),
    };

    let input = AttributeInput(EndianBuf::new(&buf), &unit, spec);

    match parse_attribute(input) {
        Ok((rest, attr)) => {
            assert_eq!(
                attr,
                Attribute {
                    name: DwAt(constants::DW_AT_name),
                    value: AttributeValue::DebugStrRef(DebugStrOffset(67305985)),
                }
            );
            assert_eq!(rest.0, EndianBuf::new(&buf[4..]));
        }
        otherwise => {
            println!("Unexpected parse result = {:#?}", otherwise);
            assert!(false);
        }
    };
}

#[test]
fn test_parse_attribute_strp_64() {
    let buf = [0x01, 0x02, 0x03, 0x04, 0x05, 0x06, 0x07, 0x08, 0x99, 0x99];

    let unit = UnitHeader::<LittleEndian>::new(
        7,
        8,
        DebugAbbrevOffset(0x08070605),
        8,
        Format::Dwarf64,
        &[],
    );

    let spec = AttributeSpecification {
        name: DwAt(constants::DW_AT_name),
        form: DwForm(constants::DW_FORM_strp),
    };

    let input = AttributeInput(EndianBuf::new(&buf), &unit, spec);

    match parse_attribute(input) {
        Ok((rest, attr)) => {
            assert_eq!(
                attr,
                Attribute {
                    name: DwAt(constants::DW_AT_name),
                    value: AttributeValue::DebugStrRef(DebugStrOffset(578437695752307201)),
                }
            );
            assert_eq!(rest.0, EndianBuf::new(&buf[8..]));
        }
        otherwise => {
            println!("Unexpected parse result = {:#?}", otherwise);
            assert!(false);
        }
    };
}

#[test]
fn test_parse_attribute_indirect() {
    let mut buf = [0; 100];

    let bytes_written = {
        let mut writable = &mut buf[..];
        leb128::write::unsigned(&mut writable, constants::DW_FORM_udata)
            .expect("should write udata") +
        leb128::write::unsigned(&mut writable, 9999999).expect("should write value")
    };

    let unit = UnitHeader::<LittleEndian>::new(
        7,
        8,
        DebugAbbrevOffset(0x08070605),
        8,
        Format::Dwarf64,
        &[],
    );

    let spec = AttributeSpecification {
        name: DwAt(constants::DW_AT_name),
        form: DwForm(constants::DW_FORM_indirect),
    };

    let input = AttributeInput(EndianBuf::new(&buf), &unit, spec);

    match parse_attribute(input) {
        Ok((rest, attr)) => {
            assert_eq!(
                attr,
                Attribute {
                    name: DwAt(constants::DW_AT_name),
                    value: AttributeValue::Udata(9999999),
                }
            );
            assert_eq!(rest.0, EndianBuf::new(&buf[bytes_written..]));
        }
        otherwise => {
            println!("Unexpected parse result = {:#?}", otherwise);
            assert!(false);
        }
    };
}

#[test]
fn test_attrs_iter() {
    let unit = UnitHeader::<LittleEndian>::new(
        7,
        4,
        DebugAbbrevOffset(0x08070605),
        4,
        Format::Dwarf32,
        &[],
    );

    let abbrev = Abbreviation::new(
        42,
        DwTag(constants::DW_TAG_subprogram),
        DwChildren(constants::DW_CHILDREN_yes),
        vec![
            AttributeSpecification {
                name: DwAt(constants::DW_AT_name),
                form: DwForm(constants::DW_FORM_string),
            },
            AttributeSpecification {
                name: DwAt(constants::DW_AT_low_pc),
                form: DwForm(constants::DW_FORM_addr),
            },
            AttributeSpecification {
                name: DwAt(constants::DW_AT_high_pc),
                form: DwForm(constants::DW_FORM_addr),
            },
        ],
    );

    // "foo", 42, 1337, 4 dangling bytes of 0xaa where children would be
    let buf = [
        0x66, 0x6f, 0x6f, 0x00, 0x2a, 0x00, 0x00, 0x00, 0x39, 0x05, 0x00, 0x00, 0xaa, 0xaa, 0xaa,
        0xaa,
    ];

    let entry = DebuggingInformationEntry {
        attrs_slice: &buf,
        code: 1,
        abbrev: &abbrev,
        unit: &unit,
    };

    let mut attrs = entry.attrs();

    match attrs.next() {
        Some(Ok(attr)) => {
            assert_eq!(
                attr,
                Attribute {
                    name: DwAt(constants::DW_AT_name),
                    value: AttributeValue::String(b"foo\0"),
                }
            );
        }
        otherwise => {
            println!("Unexpected parse result = {:#?}", otherwise);
            assert!(false);
        }
    }

    assert!(attrs.after_attrs().is_none());

    match attrs.next() {
        Some(Ok(attr)) => {
            assert_eq!(
                attr,
                Attribute {
                    name: DwAt(constants::DW_AT_low_pc),
                    value: AttributeValue::Addr(&[0x2a, 0x00, 0x00, 0x00]),
                }
            );
        }
        otherwise => {
            println!("Unexpected parse result = {:#?}", otherwise);
            assert!(false);
        }
    }

    assert!(attrs.after_attrs().is_none());

    match attrs.next() {
        Some(Ok(attr)) => {
            assert_eq!(
                attr,
                Attribute {
                    name: DwAt(constants::DW_AT_high_pc),
                    value: AttributeValue::Addr(&[0x39, 0x05, 0x00, 0x00]),
                }
            );
        }
        otherwise => {
            println!("Unexpected parse result = {:#?}", otherwise);
            assert!(false);
        }
    }

    assert!(attrs.after_attrs().is_none());

    assert!(attrs.next().is_none());
    assert!(attrs.after_attrs().is_some());
    assert_eq!(attrs.after_attrs().expect("should have after_attrs"), &buf[buf.len() - 4..])
}
