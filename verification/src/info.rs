//! The `.debug_info` section and its units.
use crate::endianity::Endianity;
use crate::error::{Error, ParseResult};
use crate::reader::EndianBuf;
use crate::unit;
use crate::unit::{UnitHeader, UnitHeaderView};
use vstd::prelude::*;

verus! {

/// The `DebugInfo` struct represents the DWARF debugging information found in
/// the `.debug_info` section.
#[derive(Debug, Clone, Copy)]
pub struct DebugInfo<'input, Endian> where Endian: Endianity {
    debug_info_section: EndianBuf<'input, Endian>,
}

impl<'input, Endian> View for DebugInfo<'input, Endian> where Endian: Endianity {
    type V = Seq<u8>;

    closed spec fn view(&self) -> Seq<u8> {
        self.debug_info_section@
    }
}

impl<'input, Endian> DebugInfo<'input, Endian> where Endian: Endianity {
    /// Construct a new `DebugInfo` instance from the data in the `.debug_info`
    /// section.
    ///
    /// It is the caller's responsibility to read the `.debug_info` section and
    /// present it as a `&[u8]` slice. That means using some ELF loader on
    /// Linux, a Mach-O loader on OSX, etc.
    pub fn new(debug_info_section: &'input [u8]) -> (res: DebugInfo<'input, Endian>)
        ensures
            res@ == debug_info_section@,
    {
        DebugInfo { debug_info_section: EndianBuf::new(debug_info_section) }
    }

    /// Iterate the compilation- and partial-units in this `.debug_info` section.
    pub fn units(&self) -> (res: UnitHeadersIter<'input, Endian>)
        ensures
            res@ == self@,
    {
        UnitHeadersIter { input: self.debug_info_section }
    }
}

/// An iterator over the compilation-, type-, and partial-units of a section.
///
/// See the documentation on `DebugInfo::units` for more detail.
#[derive(Debug)]
pub struct UnitHeadersIter<'input, Endian> where Endian: Endianity {
    input: EndianBuf<'input, Endian>,
}

impl<'input, Endian> View for UnitHeadersIter<'input, Endian> where Endian: Endianity {
    type V = Seq<u8>;

    /// The part of the section that is still to be parsed.
    closed spec fn view(&self) -> Seq<u8> {
        self.input@
    }
}

/// What is left of a section after its first unit: what follows that unit, or
/// nothing if its header cannot be parsed.
pub open spec fn after_first_unit(big_endian: bool, s: Seq<u8>) -> Seq<u8> {
    match unit::unit_header_at(big_endian, s) {
        Ok((header, _)) => s.skip(header.total_length() as int),
        Err(_) => Seq::empty(),
    }
}

/// The header of a section's first unit.
pub open spec fn first_unit(big_endian: bool, s: Seq<u8>) -> Result<UnitHeaderView, Error> {
    match unit::unit_header_at(big_endian, s) {
        Ok((header, _)) => Ok(header),
        Err(e) => Err(e),
    }
}

/// The headers of a section's units, in order. A header that cannot be parsed
/// ends them.
pub open spec fn all_units(big_endian: bool, s: Seq<u8>) -> Seq<Result<UnitHeaderView, Error>>
    decreases s.len(),
{
    if s.len() == 0 {
        Seq::empty()
    } else {
        proof {
            unit::law_unit_extent(big_endian, s);
        }
        seq![first_unit(big_endian, s)] + all_units(big_endian, after_first_unit(big_endian, s))
    }
}

/// Whether all of the given headers can be parsed.
pub open spec fn are_parsed(units: Seq<Result<UnitHeaderView, Error>>) -> bool {
    forall|i: int| 0 <= i < units.len() ==> units[i] is Ok
}

proof fn lemma_first_of_joined_sections(big_endian: bool, s: Seq<u8>, t: Seq<u8>)
    requires
        first_unit(big_endian, s) is Ok,
    ensures
        s.len() > 0,
        first_unit(big_endian, s + t) == first_unit(big_endian, s),
        after_first_unit(big_endian, s).len() < s.len(),
        after_first_unit(big_endian, s + t) == after_first_unit(big_endian, s) + t,
{
    unit::law_unit_extent(big_endian, s);
    let total = unit::unit_header_at(big_endian, s)->Ok_0.0.total_length() as int;
    let rest = after_first_unit(big_endian, s);
    unit::law_unit_prefix(big_endian, s, rest + t);
    assert(s.take(total) + (rest + t) == s + t);
    assert((s + t).skip(total) == rest + t);
}

proof fn lemma_joined_units(
    first: Result<UnitHeaderView, Error>,
    rest: Seq<Result<UnitHeaderView, Error>>,
    more: Seq<Result<UnitHeaderView, Error>>,
)
    ensures
        are_parsed(seq![first] + rest) ==> first is Ok && are_parsed(rest),
        seq![first] + rest + more == seq![first] + (rest + more),
{
    if are_parsed(seq![first] + rest) {
        assert((seq![first] + rest)[0] is Ok);
        assert forall|i: int| 0 <= i < rest.len() implies rest[i] is Ok by {
            assert((seq![first] + rest)[i + 1] is Ok);
        }
    }
}

/// The units of two sections, one after the other, are those of the one and then
/// those of the other, if all headers in the first can be parsed.
pub proof fn law_units_of_joined_sections(big_endian: bool, s: Seq<u8>, t: Seq<u8>)
    requires
        are_parsed(all_units(big_endian, s)),
    ensures
        all_units(big_endian, s + t) == all_units(big_endian, s) + all_units(big_endian, t),
    decreases s.len(),
{
    let more = all_units(big_endian, t);
    if s.len() == 0 {
        assert(s + t == t);
        assert(all_units(big_endian, s) + more == more);
    } else {
        let rest = after_first_unit(big_endian, s);
        lemma_joined_units(first_unit(big_endian, s), all_units(big_endian, rest), more);
        lemma_first_of_joined_sections(big_endian, s, t);
        law_units_of_joined_sections(big_endian, rest, t);
    }
}

/// What is left of a section after `count` of its units have been parsed.
pub open spec fn after_units(big_endian: bool, s: Seq<u8>, count: nat) -> Seq<u8>
    decreases count,
{
    if count == 0 || s.len() == 0 {
        s
    } else {
        after_units(big_endian, after_first_unit(big_endian, s), (count - 1) as nat)
    }
}

/// The number of bytes of the given units, up to the first whose header cannot
/// be parsed.
pub open spec fn units_length(units: Seq<Result<UnitHeaderView, Error>>) -> nat
    decreases units.len(),
{
    if units.len() == 0 {
        0
    } else {
        match units.first() {
            Ok(header) => header.total_length() + units_length(units.drop_first()),
            Err(_) => 0,
        }
    }
}

/// Iterating over a section's units gives the header of each of them, one after
/// the other, and then comes to an end for good.
pub proof fn law_units_in_order(big_endian: bool, s: Seq<u8>, count: nat)
    ensures
        after_units(big_endian, s, count).len() > 0 <==> count < all_units(big_endian, s).len(),
        count < all_units(big_endian, s).len() ==> all_units(big_endian, s)[count as int]
            == first_unit(big_endian, after_units(big_endian, s, count)),
        after_units(big_endian, s, count + 1) == if after_units(big_endian, s, count).len() > 0 {
            after_first_unit(big_endian, after_units(big_endian, s, count))
        } else {
            after_units(big_endian, s, count)
        },
    decreases count,
{
    reveal_with_fuel(after_units, 2);
    if s.len() > 0 && count > 0 {
        law_units_in_order(big_endian, after_first_unit(big_endian, s), (count - 1) as nat);
    }
}

/// Only the last unit of a section may have a header that cannot be parsed.
pub proof fn law_bad_unit_is_last(big_endian: bool, s: Seq<u8>, i: int)
    requires
        0 <= i < all_units(big_endian, s).len() - 1,
    ensures
        all_units(big_endian, s)[i] is Ok,
    decreases i,
{
    unit::law_unit_extent(big_endian, s);
    let rest = after_first_unit(big_endian, s);
    if i == 0 {
        assert(all_units(big_endian, Seq::empty()).len() == 0);
    } else {
        law_bad_unit_is_last(big_endian, rest, i - 1);
    }
}

/// The units of a section follow each other without a gap, and make up the whole
/// section if all of their headers can be parsed.
pub proof fn law_units_fill_section(big_endian: bool, s: Seq<u8>, count: nat)
    requires
        count <= all_units(big_endian, s).len(),
        are_parsed(all_units(big_endian, s).take(count as int)),
    ensures
        after_units(big_endian, s, count) == s.skip(
            units_length(all_units(big_endian, s).take(count as int)) as int,
        ),
        units_length(all_units(big_endian, s).take(count as int)) <= s.len(),
        count == all_units(big_endian, s).len() ==> units_length(all_units(big_endian, s))
            == s.len(),
    decreases count,
{
    let units = all_units(big_endian, s);
    if count == 0 {
        assert(units.take(0) == Seq::<Result<UnitHeaderView, Error>>::empty());
        assert(s.skip(0) == s);
    } else {
        let rest = after_first_unit(big_endian, s);
        let rest_units = all_units(big_endian, rest);
        unit::law_unit_extent(big_endian, s);
        let first = first_unit(big_endian, s);
        assert(units.take(count as int) == seq![first] + rest_units.take(count - 1));
        lemma_joined_units(first, rest_units.take(count - 1), Seq::empty());
        law_units_fill_section(big_endian, rest, (count - 1) as nat);
        assert(units.take(count as int).drop_first() == rest_units.take(count - 1));
    }
    if count == units.len() {
        assert(units.take(count as int) == units);
        law_units_in_order(big_endian, s, count);
    }
}

impl<'input, Endian> UnitHeadersIter<'input, Endian> where Endian: Endianity {
    /// Parse the header of the next unit and move on to the unit after it. After
    /// a header that cannot be parsed there is no next unit.
    pub fn next(&mut self) -> (res: Option<ParseResult<UnitHeader<'input, Endian>>>)
        ensures
            old(self)@.len() == 0 ==> res is None && final(self)@ == old(self)@,
            old(self)@.len() > 0 ==> {
                &&& res matches Some(header) && match first_unit(
                    Endian::is_big_endian(),
                    old(self)@,
                ) {
                    Ok(expected) => header is Ok && header->Ok_0@ == expected
                        && expected.total_length() <= u64::MAX,
                    Err(e) => header == Err::<UnitHeader<'input, Endian>, Error>(e),
                }
                &&& final(self)@ == after_first_unit(Endian::is_big_endian(), old(self)@)
            },
    {
        if self.input.is_empty() {
            return None;
        }
        proof {
            unit::law_unit_extent(Endian::is_big_endian(), self.input@);
        }
        match unit::parse_unit_header(self.input) {
            Ok((_, header)) => {
                assert(self.input.0.len() <= usize::MAX);
                let unit_len: usize = header.length_including_self() as usize;
                self.input = self.input.range_from(unit_len..);
                Some(Ok(header))
            },
            Err(e) => {
                self.input = self.input.range_to(..0);
                Some(Err(e))
            },
        }
    }
}

} // verus!
