//! Abbreviations, which describe the shapes of entries.
use crate::constants;
use crate::constants::{DwAt, DwChildren, DwForm, DwTag};
use crate::endianity::Endianity;
use crate::error;
use crate::error::{Error, Outcome, ParseResult};
use crate::leb;
use crate::reader;
use crate::reader::EndianBuf;
use crate::unit::{Format, UnitHeader};
use std::collections::HashMap;
use vstd::prelude::*;
use vstd::slice::slice_subrange;

verus! {

broadcast use {vstd::seq_lib::lemma_seq_skip_of_skip, vstd::seq_lib::lemma_seq_skip_nothing};

/// The description of an attribute in an abbreviated type. It is a pair of name
/// and form.
#[derive(Debug, Clone, Copy, PartialEq, Eq, Structural)]
pub struct AttributeSpecification {
    pub name: DwAt,
    pub form: DwForm,
}

/// The number of bytes of an attribute of the given form in a unit with the
/// given address size and format, if the form says so. A variably sized
/// attribute, or one of an unknown form, has none.
pub open spec fn form_size(form: DwForm, address_size: u8, format: Format) -> Option<nat> {
    match form.0 {
        constants::DW_FORM_addr => Some(address_size as nat),
        // The value of a flag that is present by its mere form takes up no bytes.
        constants::DW_FORM_flag_present => Some(0),
        constants::DW_FORM_flag | constants::DW_FORM_data1 | constants::DW_FORM_ref1 => Some(1),
        constants::DW_FORM_data2 | constants::DW_FORM_ref2 => Some(2),
        constants::DW_FORM_data4 | constants::DW_FORM_ref4 => Some(4),
        constants::DW_FORM_data8 | constants::DW_FORM_ref8 | constants::DW_FORM_ref_sig8 => Some(8),
        constants::DW_FORM_sec_offset | constants::DW_FORM_ref_addr
        | constants::DW_FORM_strp => Some(format.offset_size()),
        _ => None,
    }
}

impl AttributeSpecification {
    /// Construct a new `AttributeSpecification` from the given name and form.
    pub fn new(name: DwAt, form: DwForm) -> (res: AttributeSpecification)
        ensures
            res.name == name,
            res.form == form,
    {
        AttributeSpecification { name, form }
    }

    /// Get the attribute's name.
    pub fn name(&self) -> (res: DwAt)
        ensures
            res == self.name,
    {
        self.name
    }

    /// Get the attribute's form.
    pub fn form(&self) -> (res: DwForm)
        ensures
            res == self.form,
    {
        self.form
    }

    /// Return the size of the attribute, in bytes.
    ///
    /// Note that because some attributes are variably sized, the size cannot
    /// always be known without parsing, in which case we return `None`.
    pub fn size<'me, 'input, 'unit, Endian>(
        &'me self,
        header: &'unit UnitHeader<'input, Endian>,
    ) -> (res: Option<usize>) where Endian: Endianity
        ensures
            match form_size(self.form, header@.address_size, header@.format) {
                Some(size) => res matches Some(n) && n == size,
                None => res is None,
            },
    {
        match self.form.0 {
            constants::DW_FORM_addr => Some(header.address_size() as usize),
            constants::DW_FORM_flag_present => Some(0),
            constants::DW_FORM_flag | constants::DW_FORM_data1 | constants::DW_FORM_ref1 => Some(1),
            constants::DW_FORM_data2 | constants::DW_FORM_ref2 => Some(2),
            constants::DW_FORM_data4 | constants::DW_FORM_ref4 => Some(4),
            constants::DW_FORM_data8 | constants::DW_FORM_ref8
            | constants::DW_FORM_ref_sig8 => Some(8),
            constants::DW_FORM_sec_offset | constants::DW_FORM_ref_addr
            | constants::DW_FORM_strp => match header.format() {
                Format::Dwarf32 => Some(4),
                Format::Dwarf64 => Some(8),
            },
            // Blocks, strings and LEB128 integers are variably sized, and we
            // don't know the size of unknown forms.
            _ => None,
        }
    }
}

/// Parsing an abbreviation's code, which is not zero.
pub open spec fn abbreviation_code_at(s: Seq<u8>) -> Outcome<u64> {
    match leb::unsigned_leb(s) {
        Ok((code, n)) => if code == 0 {
            Err(Error::AbbreviationCodeZero)
        } else {
            Ok((code, n))
        },
        Err(e) => Err(e),
    }
}

/// Parsing an abbreviation's tag, which is not zero.
pub open spec fn abbreviation_tag_at(s: Seq<u8>) -> Outcome<DwTag> {
    match leb::unsigned_leb(s) {
        Ok((tag, n)) => if tag == 0 {
            Err(Error::AbbreviationCodeZero)
        } else {
            Ok((DwTag(tag), n))
        },
        Err(e) => Err(e),
    }
}

/// Parsing an abbreviation's "does the type have children?" byte.
pub open spec fn abbreviation_has_children_at(s: Seq<u8>) -> Outcome<DwChildren> {
    match reader::u8_at(s) {
        Ok((value, n)) => if value == constants::DW_CHILDREN_no || value
            == constants::DW_CHILDREN_yes {
            Ok((DwChildren(value), n))
        } else {
            Err(Error::BadHasChildren)
        },
        Err(e) => Err(e),
    }
}

/// Parsing an attribute's name.
pub open spec fn attribute_name_at(s: Seq<u8>) -> Outcome<DwAt> {
    match leb::unsigned_leb(s) {
        Ok((name, n)) => Ok((DwAt(name), n)),
        Err(e) => Err(e),
    }
}

/// Parsing an attribute's form.
pub open spec fn attribute_form_at(s: Seq<u8>) -> Outcome<DwForm> {
    match leb::unsigned_leb(s) {
        Ok((form, n)) => Ok((DwForm(form), n)),
        Err(e) => Err(e),
    }
}

/// Parse an abbreviation's code.
pub fn parse_abbreviation_code(input: &[u8]) -> (res: ParseResult<(&[u8], u64)>)
    ensures
        error::agrees(res, input@, abbreviation_code_at(input@)),
{
    let (rest, code) = leb::parse_unsigned_leb(input)?;
    if code == 0 {
        Err(Error::AbbreviationCodeZero)
    } else {
        Ok((rest, code))
    }
}

/// Parse an abbreviation's tag.
pub fn parse_abbreviation_tag(input: &[u8]) -> (res: ParseResult<(&[u8], DwTag)>)
    ensures
        error::agrees(res, input@, abbreviation_tag_at(input@)),
{
    let (rest, val) = leb::parse_unsigned_leb(input)?;
    if val == 0 {
        Err(Error::AbbreviationCodeZero)
    } else {
        Ok((rest, DwTag(val)))
    }
}

/// Parse an abbreviation's "does the type have children?" byte.
pub fn parse_abbreviation_has_children(input: &[u8]) -> (res: ParseResult<(&[u8], DwChildren)>)
    ensures
        error::agrees(res, input@, abbreviation_has_children_at(input@)),
{
    let (rest, val) = reader::parse_u8(input)?;
    if val == constants::DW_CHILDREN_no || val == constants::DW_CHILDREN_yes {
        Ok((rest, DwChildren(val)))
    } else {
        Err(Error::BadHasChildren)
    }
}

/// Parse an attribute's name.
pub fn parse_attribute_name(input: &[u8]) -> (res: ParseResult<(&[u8], DwAt)>)
    ensures
        error::agrees(res, input@, attribute_name_at(input@)),
{
    let (rest, val) = leb::parse_unsigned_leb(input)?;
    Ok((rest, DwAt(val)))
}

/// Parse an attribute's form.
pub fn parse_attribute_form(input: &[u8]) -> (res: ParseResult<(&[u8], DwForm)>)
    ensures
        error::agrees(res, input@, attribute_form_at(input@)),
{
    let (rest, val) = leb::parse_unsigned_leb(input)?;
    Ok((rest, DwForm(val)))
}

/// Parsing an attribute specification: a name and a form.
pub open spec fn attribute_specification_at(s: Seq<u8>) -> Outcome<AttributeSpecification> {
    match attribute_name_at(s) {
        Ok((name, n)) => match attribute_form_at(s.skip(n as int)) {
            Ok((form, m)) => Ok((AttributeSpecification { name, form }, n + m)),
            Err(e) => Err(e),
        },
        Err(e) => Err(e),
    }
}

/// Parsing the null attribute specification: a name and a form that are both
/// zero.
pub open spec fn null_attribute_specification_at(s: Seq<u8>) -> Outcome<()> {
    match leb::unsigned_leb(s) {
        Ok((name, n)) => if name != 0 {
            Err(Error::ExpectedZero)
        } else {
            match leb::unsigned_leb(s.skip(n as int)) {
                Ok((form, m)) => if form != 0 {
                    Err(Error::ExpectedZero)
                } else {
                    Ok(((), n + m))
                },
                Err(e) => Err(e),
            }
        },
        Err(e) => Err(e),
    }
}

/// Parsing a series of attribute specifications up to and including the first
/// null attribute specification.
pub open spec fn attribute_specifications_at(s: Seq<u8>) -> Outcome<Seq<AttributeSpecification>>
    decreases s.len(),
{
    match null_attribute_specification_at(s) {
        Ok((_, n)) => Ok((Seq::empty(), n)),
        Err(_) => match attribute_specification_at(s) {
            Ok((attr, n)) => {
                proof {
                    leb::law_leb_len_bound(s);
                    leb::law_leb_len_bound(s.skip(attribute_name_at(s)->Ok_0.1 as int));
                }
                match attribute_specifications_at(s.skip(n as int)) {
                    Ok((attrs, m)) => Ok((seq![attr] + attrs, n + m)),
                    Err(e) => Err(e),
                }
            },
            Err(e) => Err(e),
        },
    }
}

/// Parse a non-null attribute specification.
pub fn parse_attribute_specification(input: &[u8]) -> (res: ParseResult<
    (&[u8], AttributeSpecification),
>)
    ensures
        error::agrees(res, input@, attribute_specification_at(input@)),
{
    let (rest, name) = parse_attribute_name(input)?;
    let (rest, form) = parse_attribute_form(rest)?;
    let attr = AttributeSpecification::new(name, form);
    Ok((rest, attr))
}

/// Parse the null attribute specification.
pub fn parse_null_attribute_specification(input: &[u8]) -> (res: ParseResult<(&[u8], ())>)
    ensures
        error::agrees(res, input@, null_attribute_specification_at(input@)),
{
    let (rest, name) = leb::parse_unsigned_leb(input)?;
    if name != 0 {
        return Err(Error::ExpectedZero);
    }
    let (rest, form) = leb::parse_unsigned_leb(rest)?;
    if form != 0 {
        return Err(Error::ExpectedZero);
    }
    Ok((rest, ()))
}

/// Parse a series of attribute specifications, terminated by a null attribute
/// specification.
pub fn parse_attribute_specifications(input: &[u8]) -> (res: ParseResult<
    (&[u8], Vec<AttributeSpecification>),
>)
    ensures
        error::agrees_view(res, input@, attribute_specifications_at(input@)),
{
    let mut rest = input;
    let mut attrs: Vec<AttributeSpecification> = Vec::new();
    let ghost mut consumed: nat = 0;
    loop
        invariant
            consumed <= input@.len(),
            rest@ == input@.skip(consumed as int),
            attribute_specifications_at(input@) == match attribute_specifications_at(rest@) {
                Ok((more, n)) => Ok((attrs@ + more, consumed + n)),
                Err(e) => Err(e),
            },
        decreases rest@.len(),
    {
        if let Ok((after, _)) = parse_null_attribute_specification(rest) {
            assert(attrs@ + Seq::<AttributeSpecification>::empty() == attrs@);
            return Ok((after, attrs));
        }
        let (after, attr) = parse_attribute_specification(rest)?;
        proof {
            leb::law_leb_len_bound(rest@);
            let n = attribute_specification_at(rest@)->Ok_0.1;
            consumed = consumed + n;
            if let Ok((more, _)) = attribute_specifications_at(after@) {
                assert(attrs@ + (seq![attr] + more) == attrs@.push(attr) + more);
            }
        }
        attrs.push(attr);
        rest = after;
    }
}

/// What an abbreviation says.
#[verifier::ext_equal]
pub struct AbbreviationView {
    pub code: u64,
    pub tag: DwTag,
    pub has_children: DwChildren,
    pub attributes: Seq<AttributeSpecification>,
}

/// An abbreviation describes the shape of a `DebuggingInformationEntry`'s type:
/// its code, tag type, whether it has children, and its set of attributes.
#[derive(Debug, PartialEq, Eq)]
pub struct Abbreviation {
    code: u64,
    tag: DwTag,
    has_children: DwChildren,
    attributes: Vec<AttributeSpecification>,
}

impl View for Abbreviation {
    type V = AbbreviationView;

    closed spec fn view(&self) -> AbbreviationView {
        AbbreviationView {
            code: self.code,
            tag: self.tag,
            has_children: self.has_children,
            attributes: self.attributes@,
        }
    }
}

impl Clone for Abbreviation {
    fn clone(&self) -> (res: Abbreviation)
        ensures
            res@ == self@,
    {
        proof {
            use_type_invariant(self);
        }
        let attributes = self.attributes.clone();
        assert(attributes@ =~= self.attributes@);
        Abbreviation { code: self.code, tag: self.tag, has_children: self.has_children, attributes }
    }
}

impl Abbreviation {
    /// Zero is the code of null records only.
    #[verifier::type_invariant]
    spec fn has_code(self) -> bool {
        self.code != 0
    }

    /// Construct a new `Abbreviation`.
    pub fn new(
        code: u64,
        tag: DwTag,
        has_children: DwChildren,
        attributes: Vec<AttributeSpecification>,
    ) -> (res: Abbreviation)
        requires
            code != 0,
        ensures
            res@ == (AbbreviationView { code, tag, has_children, attributes: attributes@ }),
    {
        Abbreviation { code, tag, has_children, attributes }
    }

    /// Get this abbreviation's code.
    pub fn code(&self) -> (res: u64)
        ensures
            res == self@.code,
            res != 0,
    {
        proof {
            use_type_invariant(self);
        }
        self.code
    }

    /// Get this abbreviation's tag.
    pub fn tag(&self) -> (res: DwTag)
        ensures
            res == self@.tag,
    {
        self.tag
    }

    /// Return true if this abbreviation's type has children, false otherwise.
    pub fn has_children(&self) -> (res: bool)
        ensures
            res == (self@.has_children.0 == constants::DW_CHILDREN_yes),
    {
        self.has_children.0 == constants::DW_CHILDREN_yes
    }

    /// Get this abbreviation's attributes.
    pub fn attributes(&self) -> (res: &[AttributeSpecification])
        ensures
            res@ == self@.attributes,
    {
        self.attributes.as_slice()
    }
}

/// Parsing an abbreviation: its code, its tag, whether it has children, and its
/// attributes.
pub open spec fn abbreviation_at(s: Seq<u8>) -> Outcome<AbbreviationView> {
    match abbreviation_code_at(s) {
        Ok((code, n)) => match abbreviation_tag_at(s.skip(n as int)) {
            Ok((tag, m)) => match abbreviation_has_children_at(s.skip((n + m) as int)) {
                Ok((has_children, k)) => match attribute_specifications_at(
                    s.skip((n + m + k) as int),
                ) {
                    Ok((attributes, j)) => Ok(
                        (AbbreviationView { code, tag, has_children, attributes }, n + m + k + j),
                    ),
                    Err(e) => Err(e),
                },
                Err(e) => Err(e),
            },
            Err(e) => Err(e),
        },
        Err(e) => Err(e),
    }
}

/// Parsing a null abbreviation: a code that is zero.
pub open spec fn null_abbreviation_at(s: Seq<u8>) -> Outcome<()> {
    match leb::unsigned_leb(s) {
        Ok((code, n)) => if code == 0 {
            Ok(((), n))
        } else {
            Err(Error::ExpectedZero)
        },
        Err(e) => Err(e),
    }
}

/// A series of attribute specifications lies within the bytes that it is read
/// from.
pub proof fn law_attribute_specifications_bound(s: Seq<u8>)
    ensures
        attribute_specifications_at(s) matches Ok((_, n)) ==> n <= s.len(),
    decreases s.len(),
{
    leb::law_leb_len_bound(s);
    if let Ok((_, n)) = leb::unsigned_leb(s) {
        leb::law_leb_len_bound(s.skip(n as int));
        if let Ok((_, m)) = attribute_specification_at(s) {
            law_attribute_specifications_bound(s.skip(m as int));
        }
    }
}

/// An abbreviation lies within the bytes that it is read from, is at least one
/// byte long, and has a code that is not zero.
pub proof fn law_abbreviation_bound(s: Seq<u8>)
    ensures
        abbreviation_at(s) matches Ok((abbrev, n)) ==> 1 <= n <= s.len() && abbrev.code != 0,
{
    leb::law_leb_len_bound(s);
    if let Ok((_, n)) = abbreviation_code_at(s) {
        leb::law_leb_len_bound(s.skip(n as int));
        if let Ok((_, m)) = abbreviation_tag_at(s.skip(n as int)) {
            law_attribute_specifications_bound(s.skip((n + m + 1) as int));
        }
    }
}

/// Parsing a series of abbreviations up to and including the first null
/// abbreviation, when those in `known` came before. No code may come twice.
pub open spec fn more_abbreviations_at(
    known: Map<u64, AbbreviationView>,
    s: Seq<u8>,
) -> Outcome<Map<u64, AbbreviationView>>
    decreases s.len(),
{
    match null_abbreviation_at(s) {
        Ok((_, n)) => Ok((known, n)),
        Err(_) => match abbreviation_at(s) {
            Ok((abbrev, n)) => if known.contains_key(abbrev.code) {
                Err(Error::DuplicateAbbreviationCode)
            } else {
                proof {
                    law_abbreviation_bound(s);
                }
                match more_abbreviations_at(
                    known.insert(abbrev.code, abbrev),
                    s.skip(n as int),
                ) {
                    Ok((abbrevs, m)) => Ok((abbrevs, n + m)),
                    Err(e) => Err(e),
                }
            },
            Err(e) => Err(e),
        },
    }
}

/// Parsing a series of abbreviations, by their codes, up to and including the
/// first null abbreviation.
pub open spec fn abbreviations_at(s: Seq<u8>) -> Outcome<Map<u64, AbbreviationView>> {
    more_abbreviations_at(Map::empty(), s)
}

/// A series of abbreviations lies within the bytes that it is read from. Those
/// that came before are kept, and every abbreviation stands under its own code,
/// which is not zero.
pub proof fn law_abbreviations_by_code(known: Map<u64, AbbreviationView>, s: Seq<u8>)
    requires
        forall|code: u64| #[trigger]
            known.contains_key(code) ==> known[code].code == code && code != 0,
    ensures
        more_abbreviations_at(known, s) matches Ok((abbrevs, n)) ==> {
            &&& 1 <= n <= s.len()
            &&& forall|code: u64| #[trigger]
                known.contains_key(code) ==> abbrevs.contains_key(code) && abbrevs[code]
                    == known[code]
            &&& forall|code: u64| #[trigger]
                abbrevs.contains_key(code) ==> abbrevs[code].code == code && code != 0
        },
    decreases s.len(),
{
    leb::law_leb_len_bound(s);
    if null_abbreviation_at(s) is Err {
        if let Ok((abbrev, n)) = abbreviation_at(s) {
            law_abbreviation_bound(s);
            if !known.contains_key(abbrev.code) {
                let more = known.insert(abbrev.code, abbrev);
                law_abbreviations_by_code(more, s.skip(n as int));
                assert forall|code: u64| #[trigger] known.contains_key(code) implies {
                    more.contains_key(code) && more[code] == known[code]
                } by {}
            }
        }
    }
}

/// Parse a non-null abbreviation.
pub fn parse_abbreviation(input: &[u8]) -> (res: ParseResult<(&[u8], Abbreviation)>)
    ensures
        error::agrees_view(res, input@, abbreviation_at(input@)),
{
    let (rest, code) = parse_abbreviation_code(input)?;
    let (rest, tag) = parse_abbreviation_tag(rest)?;
    let (rest, has_children) = parse_abbreviation_has_children(rest)?;
    let (rest, attributes) = parse_attribute_specifications(rest)?;
    let abbrev = Abbreviation::new(code, tag, has_children, attributes);
    Ok((rest, abbrev))
}

/// Parse a null abbreviation.
pub fn parse_null_abbreviation(input: &[u8]) -> (res: ParseResult<(&[u8], ())>)
    ensures
        error::agrees(res, input@, null_abbreviation_at(input@)),
{
    let (rest, name) = leb::parse_unsigned_leb(input)?;
    if name == 0 {
        Ok((rest, ()))
    } else {
        Err(Error::ExpectedZero)
    }
}

/// A set of type abbreviations.
///
/// Construct an `Abbreviations` instance with the `UnitHeader::abbreviations`
/// method.
#[derive(Debug)]
pub struct Abbreviations {
    abbrevs: HashMap<u64, Abbreviation>,
}

impl View for Abbreviations {
    type V = Map<u64, AbbreviationView>;

    /// The abbreviations by their codes.
    closed spec fn view(&self) -> Map<u64, AbbreviationView> {
        self.abbrevs@.map_values(|abbrev: Abbreviation| abbrev@)
    }
}

impl Clone for Abbreviations {
    fn clone(&self) -> (res: Abbreviations)
        ensures
            res@ == self@,
    {
        proof {
            use_type_invariant(self);
        }
        broadcast use vstd::std_specs::hash::group_hash_axioms;

        Abbreviations { abbrevs: self.abbrevs.clone() }
    }
}

impl Default for Abbreviations {
    fn default() -> (res: Abbreviations)
        ensures
            res@ == Map::<u64, AbbreviationView>::empty(),
    {
        Abbreviations::empty()
    }
}

impl Abbreviations {
    /// Every abbreviation stands under its own code, which is not zero.
    #[verifier::type_invariant]
    spec fn keyed_by_code(self) -> bool {
        forall|code: u64| #[trigger]
            self.abbrevs@.contains_key(code) ==> self.abbrevs@[code]@.code == code && code != 0
    }

    /// Construct a new, empty set of abbreviations.
    pub fn empty() -> (res: Abbreviations)
        ensures
            res@ == Map::<u64, AbbreviationView>::empty(),
    {
        broadcast use vstd::std_specs::hash::group_hash_axioms;

        let res = Abbreviations { abbrevs: HashMap::new() };
        assert(res@ =~= Map::<u64, AbbreviationView>::empty());
        res
    }

    /// Insert an abbreviation into the set.
    ///
    /// Returns `Ok` if it is the first abbreviation in the set with its code,
    /// `Err` if the code is a duplicate and there already exists an
    /// abbreviation in the set with the given abbreviation's code.
    pub fn insert(&mut self, abbrev: Abbreviation) -> (res: Result<(), ()>)
        ensures
            res is Err <==> old(self)@.contains_key(abbrev@.code),
            res is Err ==> final(self)@ == old(self)@,
            res is Ok ==> final(self)@ == old(self)@.insert(abbrev@.code, abbrev@),
    {
        proof {
            use_type_invariant(&*self);
            use_type_invariant(&abbrev);
        }
        broadcast use vstd::std_specs::hash::group_hash_axioms;

        let code: u64 = abbrev.code;
        if self.abbrevs.contains_key(&code) {
            return Err(());
        }
        let mut abbrevs: HashMap<u64, Abbreviation> = HashMap::new();
        std::mem::swap(&mut abbrevs, &mut self.abbrevs);
        abbrevs.insert(code, abbrev);
        self.abbrevs = abbrevs;
        assert(self@ =~= old(self)@.insert(abbrev@.code, abbrev@));
        Ok(())
    }

    /// Get the abbreviation associated with the given code.
    pub fn get(&self, code: u64) -> (res: Option<&Abbreviation>)
        ensures
            match res {
                Some(abbrev) => self@.contains_key(code) && self@[code] == abbrev@ && abbrev@.code
                    == code && code != 0,
                None => !self@.contains_key(code),
            },
    {
        proof {
            use_type_invariant(self);
        }
        broadcast use vstd::std_specs::hash::group_hash_axioms;

        self.abbrevs.get(&code)
    }
}

/// Parse a series of abbreviations, terminated by a null abbreviation.
#[verifier::spinoff_prover]
#[verifier::rlimit(40)]
pub fn parse_abbreviations(input: &[u8]) -> (res: ParseResult<(&[u8], Abbreviations)>)
    ensures
        error::agrees_view(res, input@, abbreviations_at(input@)),
{
    let mut rest = input;
    let mut abbrevs = Abbreviations::empty();
    let ghost mut consumed: nat = 0;
    loop
        invariant
            consumed <= input@.len(),
            rest@ == input@.skip(consumed as int),
            abbreviations_at(input@) == match more_abbreviations_at(abbrevs@, rest@) {
                Ok((all, n)) => Ok((all, consumed + n)),
                Err(e) => Err(e),
            },
        decreases rest@.len(),
    {
        if let Ok((after, _)) = parse_null_abbreviation(rest) {
            return Ok((after, abbrevs));
        }
        let (after, abbrev) = parse_abbreviation(rest)?;
        proof {
            law_abbreviation_bound(rest@);
            consumed = consumed + abbreviation_at(rest@)->Ok_0.1;
        }
        if let Err(_) = abbrevs.insert(abbrev) {
            return Err(Error::DuplicateAbbreviationCode);
        }
        rest = after;
    }
}

/// The `DebugAbbrev` struct represents the abbreviations describing
/// `DebuggingInformationEntry`s' attribute names and forms found in the
/// `.debug_abbrev` section.
#[derive(Debug, Clone, Copy)]
pub struct DebugAbbrev<'input, Endian> where Endian: Endianity {
    debug_abbrev_section: EndianBuf<'input, Endian>,
}

impl<'input, Endian> View for DebugAbbrev<'input, Endian> where Endian: Endianity {
    type V = Seq<u8>;

    closed spec fn view(&self) -> Seq<u8> {
        self.debug_abbrev_section@
    }
}

impl<'input, Endian> DebugAbbrev<'input, Endian> where Endian: Endianity {
    /// Construct a new `DebugAbbrev` instance from the data in the `.debug_abbrev`
    /// section.
    ///
    /// It is the caller's responsibility to read the `.debug_abbrev` section and
    /// present it as a `&[u8]` slice. That means using some ELF loader on
    /// Linux, a Mach-O loader on OSX, etc.
    pub fn new(debug_abbrev_section: &'input [u8]) -> (res: DebugAbbrev<'input, Endian>)
        ensures
            res@ == debug_abbrev_section@,
    {
        DebugAbbrev { debug_abbrev_section: EndianBuf::new(debug_abbrev_section) }
    }
}

impl<'input, Endian> UnitHeader<'input, Endian> where Endian: Endianity {
    /// Parse the abbreviations at this unit's offset within the given
    /// `.debug_abbrev` section.
    pub fn abbreviations<'abbrev>(&self, debug_abbrev: DebugAbbrev<'abbrev, Endian>) -> (res:
        ParseResult<Abbreviations>)
        requires
            self@.debug_abbrev_offset.0 <= debug_abbrev@.len(),
        ensures
            match abbreviations_at(debug_abbrev@.skip(self@.debug_abbrev_offset.0 as int)) {
                Ok((abbrevs, _)) => res matches Ok(value) && value@ == abbrevs,
                Err(e) => res == Err::<Abbreviations, Error>(e),
            },
    {
        let section: &[u8] = debug_abbrev.debug_abbrev_section.0;
        assert(section.len() <= usize::MAX);
        let offset: usize = self.debug_abbrev_offset().0 as usize;
        let (_, abbrevs) = parse_abbreviations(slice_subrange(section, offset, section.len()))?;
        Ok(abbrevs)
    }
}

} // verus!
