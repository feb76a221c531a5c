//! The ways in which parsing can fail.
use vstd::prelude::*;

verus! {

/// An error that occurred when parsing.
#[derive(Debug, Clone, Copy, PartialEq, Eq, Structural)]
pub enum Error {
    /// An error parsing an unsigned LEB128 value.
    BadUnsignedLeb128,
    /// An error parsing a signed LEB128 value.
    BadSignedLeb128,
    /// An abbreviation declared that its code is zero, but zero is reserved for
    /// null records.
    AbbreviationCodeZero,
    /// Found an unknown `DW_TAG_*` type.
    UnknownTag,
    /// The abbreviation's has-children byte was not one of
    /// `DW_CHILDREN_{yes,no}`.
    BadHasChildren,
    /// Found an unknown `DW_FORM_*` type.
    UnknownForm,
    /// Expected a zero, found something else.
    ExpectedZero,
    /// Found an abbreviation code that has already been used.
    DuplicateAbbreviationCode,
    /// Found an unknown reserved length value.
    UnknownReservedLength,
    /// Found an unknown DWARF version.
    UnknownVersion,
    /// The unit header's claimed length is too short to even hold the header
    /// itself.
    UnitHeaderLengthTooShort,
    /// Found a record with an unknown abbreviation code.
    UnknownAbbreviation,
    /// Hit the end of input before it was expected.
    UnexpectedEof,
}

impl Error {
    /// The text that describes this error.
    pub open spec fn text(self) -> Seq<char> {
        match self {
            Error::BadUnsignedLeb128 => "An error parsing an unsigned LEB128 value"@,
            Error::BadSignedLeb128 => "An error parsing a signed LEB128 value"@,
            Error::AbbreviationCodeZero => "An abbreviation declared that its code is zero,\n                 but zero is reserved for null records"@,
            Error::UnknownTag => "Found an unknown `DW_TAG_*` type"@,
            Error::BadHasChildren => "The abbreviation's has-children byte was not one of\n                 `DW_CHILDREN_{yes,no}`"@,
            Error::UnknownForm => "Found an unknown `DW_FORM_*` type"@,
            Error::ExpectedZero => "Expected a zero, found something else"@,
            Error::DuplicateAbbreviationCode => "Found an abbreviation code that has already been used"@,
            Error::UnknownReservedLength => "Found an unknown reserved length value"@,
            Error::UnknownVersion => "Found an unknown DWARF version"@,
            Error::UnitHeaderLengthTooShort => "The unit header's claimed length is too short to even hold\n                 the header itself"@,
            Error::UnknownAbbreviation => "Found a record with an unknown abbreviation code"@,
            Error::UnexpectedEof => "Hit the end of input before it was expected"@,
        }
    }

    /// Describe this error in words.
    pub fn description(&self) -> (text: &'static str)
        ensures
            text@ == self.text(),
    {
        match *self {
            Error::BadUnsignedLeb128 => "An error parsing an unsigned LEB128 value",
            Error::BadSignedLeb128 => "An error parsing a signed LEB128 value",
            Error::AbbreviationCodeZero => "An abbreviation declared that its code is zero,\n                 but zero is reserved for null records",
            Error::UnknownTag => "Found an unknown `DW_TAG_*` type",
            Error::BadHasChildren => "The abbreviation's has-children byte was not one of\n                 `DW_CHILDREN_{yes,no}`",
            Error::UnknownForm => "Found an unknown `DW_FORM_*` type",
            Error::ExpectedZero => "Expected a zero, found something else",
            Error::DuplicateAbbreviationCode => "Found an abbreviation code that has already been used",
            Error::UnknownReservedLength => "Found an unknown reserved length value",
            Error::UnknownVersion => "Found an unknown DWARF version",
            Error::UnitHeaderLengthTooShort => "The unit header's claimed length is too short to even hold\n                 the header itself",
            Error::UnknownAbbreviation => "Found a record with an unknown abbreviation code",
            Error::UnexpectedEof => "Hit the end of input before it was expected",
        }
    }
}

/// The result of a parse.
pub type ParseResult<T> = Result<T, Error>;

/// What parsing some bytes comes to: a value and the number of bytes that it
/// takes up at their start, or the reason why there is none.
pub type Outcome<T> = Result<(T, nat), Error>;

/// The same outcome, with another value made from the one that was parsed.
pub open spec fn mapped<T, U>(outcome: Outcome<T>, f: spec_fn(T) -> U) -> Outcome<U> {
    match outcome {
        Ok((value, n)) => Ok((f(value), n)),
        Err(e) => Err(e),
    }
}

/// Whether `res`, a pair of the input that is left and a value, is what
/// parsing `input` comes to.
pub open spec fn agrees<R: View<V = Seq<u8>>, T>(
    res: ParseResult<(R, T)>,
    input: Seq<u8>,
    outcome: Outcome<T>,
) -> bool {
    match outcome {
        Ok((value, n)) => {
            &&& n <= input.len()
            &&& res is Ok
            &&& res->Ok_0.0@ == input.skip(n as int)
            &&& res->Ok_0.1 == value
        },
        Err(e) => res == Err::<(R, T), Error>(e),
    }
}

/// As `agrees`, for a value that is compared by its view.
pub open spec fn agrees_view<R: View<V = Seq<u8>>, T: View>(
    res: ParseResult<(R, T)>,
    input: Seq<u8>,
    outcome: Outcome<T::V>,
) -> bool {
    match outcome {
        Ok((value, n)) => {
            &&& n <= input.len()
            &&& res is Ok
            &&& res->Ok_0.0@ == input.skip(n as int)
            &&& res->Ok_0.1@ == value
        },
        Err(e) => res == Err::<(R, T), Error>(e),
    }
}

} // verus!
