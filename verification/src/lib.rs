//! Parsing of DWARF debugging information.
//!
//! Start from `DebugInfo::units`, which gives the headers of a `.debug_info`
//! section's units. `UnitHeader::abbreviations` reads what describes a unit's
//! entries from the `.debug_abbrev` section, and `UnitHeader::entries` moves
//! through them.
pub mod abbrev;
pub mod abbrev_layout;
pub mod attribute;
pub mod constants;
pub mod cursor;
pub mod endianity;
pub mod entry;
pub mod entry_layout;
pub mod error;
pub mod info;
pub mod layout;
pub mod leb;
pub mod reader;
pub mod tree;
pub mod unit;
pub mod value_layout;

pub use abbrev::{Abbreviation, Abbreviations, AttributeSpecification, DebugAbbrev};
pub use attribute::{Attribute, AttributeInput, AttributeValue};
pub use cursor::EntriesCursor;
pub use endianity::{BigEndian, Endianity, LittleEndian};
pub use entry::{AttrsIter, DebuggingInformationEntry};
pub use error::{Error, ParseResult};
pub use info::{DebugInfo, UnitHeadersIter};
pub use reader::EndianBuf;
pub use unit::{
    DebugAbbrevOffset, DebugInfoOffset, DebugLineOffset, DebugLocOffset, DebugMacinfoOffset,
    DebugStrOffset, DebugTypesOffset, Format, FormatInput, TypeUnitHeader, UnitHeader, UnitOffset,
};
