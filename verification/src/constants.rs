//! Constants of the DWARF format.
#![allow(non_upper_case_globals)]
use vstd::prelude::*;

verus! {

/// The tag of an entry, one of the `DW_TAG_*` values.
#[derive(Debug, Clone, Copy, PartialEq, Eq, Structural)]
pub struct DwTag(pub u64);

/// Whether an entry has children, one of the `DW_CHILDREN_*` values.
#[derive(Debug, Clone, Copy, PartialEq, Eq, Structural)]
pub struct DwChildren(pub u8);

/// The name of an attribute, one of the `DW_AT_*` values.
#[derive(Debug, Clone, Copy, PartialEq, Eq, Structural)]
pub struct DwAt(pub u64);

/// The form of an attribute's value, one of the `DW_FORM_*` values.
#[derive(Debug, Clone, Copy, PartialEq, Eq, Structural)]
pub struct DwForm(pub u64);

pub const DW_TAG_subprogram: u64 = 0x2e;

pub const DW_CHILDREN_no: u8 = 0x00;

pub const DW_CHILDREN_yes: u8 = 0x01;

pub const DW_AT_sibling: u64 = 0x01;

pub const DW_AT_name: u64 = 0x03;

pub const DW_AT_low_pc: u64 = 0x11;

pub const DW_AT_high_pc: u64 = 0x12;

pub const DW_FORM_addr: u64 = 0x01;

pub const DW_FORM_block2: u64 = 0x03;

pub const DW_FORM_block4: u64 = 0x04;

pub const DW_FORM_data2: u64 = 0x05;

pub const DW_FORM_data4: u64 = 0x06;

pub const DW_FORM_data8: u64 = 0x07;

pub const DW_FORM_string: u64 = 0x08;

pub const DW_FORM_block: u64 = 0x09;

pub const DW_FORM_block1: u64 = 0x0a;

pub const DW_FORM_data1: u64 = 0x0b;

pub const DW_FORM_flag: u64 = 0x0c;

pub const DW_FORM_sdata: u64 = 0x0d;

pub const DW_FORM_strp: u64 = 0x0e;

pub const DW_FORM_udata: u64 = 0x0f;

pub const DW_FORM_ref_addr: u64 = 0x10;

pub const DW_FORM_ref1: u64 = 0x11;

pub const DW_FORM_ref2: u64 = 0x12;

pub const DW_FORM_ref4: u64 = 0x13;

pub const DW_FORM_ref8: u64 = 0x14;

pub const DW_FORM_ref_udata: u64 = 0x15;

pub const DW_FORM_indirect: u64 = 0x16;

pub const DW_FORM_sec_offset: u64 = 0x17;

pub const DW_FORM_exprloc: u64 = 0x18;

pub const DW_FORM_flag_present: u64 = 0x19;

pub const DW_FORM_ref_sig8: u64 = 0x20;

/// The codes that the format gives to tags, attributes, forms, and to whether
/// there are children.
pub proof fn law_codes()
    ensures
        DW_TAG_subprogram == 0x2e,
        DW_CHILDREN_no == 0x00,
        DW_CHILDREN_yes == 0x01,
        DW_AT_sibling == 0x01,
        DW_AT_name == 0x03,
        DW_AT_low_pc == 0x11,
        DW_AT_high_pc == 0x12,
        DW_FORM_addr == 0x01,
        DW_FORM_block2 == 0x03,
        DW_FORM_block4 == 0x04,
        DW_FORM_data2 == 0x05,
        DW_FORM_data4 == 0x06,
        DW_FORM_data8 == 0x07,
        DW_FORM_string == 0x08,
        DW_FORM_block == 0x09,
        DW_FORM_block1 == 0x0a,
        DW_FORM_data1 == 0x0b,
        DW_FORM_flag == 0x0c,
        DW_FORM_sdata == 0x0d,
        DW_FORM_strp == 0x0e,
        DW_FORM_udata == 0x0f,
        DW_FORM_ref_addr == 0x10,
        DW_FORM_ref1 == 0x11,
        DW_FORM_ref2 == 0x12,
        DW_FORM_ref4 == 0x13,
        DW_FORM_ref8 == 0x14,
        DW_FORM_ref_udata == 0x15,
        DW_FORM_indirect == 0x16,
        DW_FORM_sec_offset == 0x17,
        DW_FORM_exprloc == 0x18,
        DW_FORM_flag_present == 0x19,
        DW_FORM_ref_sig8 == 0x20,
{
}

} // verus!
