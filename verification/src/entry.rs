//! Entries, and iterating over their attributes.
use crate::abbrev::{Abbreviation, AbbreviationView, AttributeSpecification};
use crate::attribute;
use crate::attribute::{Attribute, AttributeInput, AttributeView, Encoding};
use crate::constants;
use crate::endianity::Endianity;
use crate::error::{Error, ParseResult};
use crate::reader::EndianBuf;
use crate::unit::{UnitHeader, UnitHeaderView};
use vstd::prelude::*;
use vstd::slice::slice_subrange;

verus! {

broadcast use {vstd::seq_lib::lemma_seq_skip_of_skip, vstd::seq_lib::lemma_seq_skip_nothing};

/// The attributes that `attrs` describe and `s` holds, in order. One that cannot
/// be parsed ends them.
pub open spec fn all_attributes(
    encoding: Encoding,
    attrs: Seq<AttributeSpecification>,
    s: Seq<u8>,
) -> Seq<Result<AttributeView, Error>>
    decreases attrs.len(),
{
    if attrs.len() == 0 {
        Seq::empty()
    } else {
        match attribute::attribute_at(encoding, attrs.first(), s) {
            Ok((attr, n)) => seq![Ok(attr)] + all_attributes(
                encoding,
                attrs.drop_first(),
                s.skip(n as int),
            ),
            Err(e) => seq![Err(e)],
        }
    }
}

/// As many attributes are parsed as there are specifications, each under the name
/// that its specification gives, unless one cannot be parsed. That one is the
/// last.
pub proof fn law_attributes_match(
    encoding: Encoding,
    attrs: Seq<AttributeSpecification>,
    s: Seq<u8>,
    i: int,
)
    requires
        0 <= i < all_attributes(encoding, attrs, s).len(),
    ensures
        all_attributes(encoding, attrs, s).len() <= attrs.len(),
        match all_attributes(encoding, attrs, s)[i] {
            Ok(attr) => attr.name == attrs[i].name && (i + 1 == all_attributes(
                encoding,
                attrs,
                s,
            ).len() ==> i + 1 == attrs.len()),
            Err(_) => i + 1 == all_attributes(encoding, attrs, s).len(),
        },
    decreases attrs.len(),
{
    if let Ok((_, n)) = attribute::attribute_at(encoding, attrs.first(), s) {
        let rest = all_attributes(encoding, attrs.drop_first(), s.skip(n as int));
        if i > 0 {
            assert(all_attributes(encoding, attrs, s)[i] == rest[i - 1]);
            law_attributes_match(encoding, attrs.drop_first(), s.skip(n as int), i - 1);
        } else if rest.len() > 0 {
            law_attributes_match(encoding, attrs.drop_first(), s.skip(n as int), 0);
        }
    }
}

/// What is left of `s` after the attributes that `attrs` describe. It starts
/// with the first attribute that cannot be parsed, if there is one.
pub open spec fn after_attributes(
    encoding: Encoding,
    attrs: Seq<AttributeSpecification>,
    s: Seq<u8>,
) -> Seq<u8>
    decreases attrs.len(),
{
    if attrs.len() == 0 {
        s
    } else {
        match attribute::attribute_at(encoding, attrs.first(), s) {
            Ok((_, n)) => after_attributes(encoding, attrs.drop_first(), s.skip(n as int)),
            Err(_) => s,
        }
    }
}

/// What an entry says.
#[verifier::ext_equal]
pub struct EntryView {
    /// The bytes from the entry's attributes on.
    pub attrs: Seq<u8>,
    pub code: u64,
    pub abbrev: AbbreviationView,
    pub unit: UnitHeaderView,
}

impl EntryView {
    /// How the entry's attributes are encoded.
    pub open spec fn encoding(self, big_endian: bool) -> Encoding {
        attribute::unit_encoding(big_endian, self.unit)
    }

    /// What is left after the entry's attributes: its children, or what follows
    /// the entry.
    pub open spec fn after_attrs(self, big_endian: bool) -> Seq<u8> {
        after_attributes(self.encoding(big_endian), self.abbrev.attributes, self.attrs)
    }

    /// Whether the entry has children.
    pub open spec fn has_children(self) -> bool {
        self.abbrev.has_children.0 == constants::DW_CHILDREN_yes
    }
}

/// A Debugging Information Entry (DIE).
///
/// DIEs have a set of attributes and optionally have children DIEs as well.
#[derive(Clone, Copy, Debug)]
pub struct DebuggingInformationEntry<'input, 'abbrev, 'unit, Endian> where
    'input: 'unit,
    Endian: Endianity + 'unit,
 {
    /// The bytes from this entry's attributes on.
    pub attrs_slice: &'input [u8],
    pub code: u64,
    pub abbrev: &'abbrev Abbreviation,
    pub unit: &'unit UnitHeader<'input, Endian>,
}

impl<'input, 'abbrev, 'unit, Endian> View for DebuggingInformationEntry<
    'input,
    'abbrev,
    'unit,
    Endian,
> where Endian: Endianity {
    type V = EntryView;

    open spec fn view(&self) -> EntryView {
        EntryView {
            attrs: self.attrs_slice@,
            code: self.code,
            abbrev: self.abbrev@,
            unit: self.unit@,
        }
    }
}

impl<'input, 'abbrev, 'unit, Endian> DebuggingInformationEntry<
    'input,
    'abbrev,
    'unit,
    Endian,
> where Endian: Endianity {
    /// Get this entry's code.
    pub fn code(&self) -> (res: u64)
        ensures
            res == self@.code,
    {
        self.code
    }

    /// Iterate over this entry's set of attributes.
    pub fn attrs<'me>(&'me self) -> (res: AttrsIter<'input, 'abbrev, 'me, 'unit, Endian>)
        ensures
            res@ == (AttrsIterView {
                encoding: self@.encoding(Endian::is_big_endian()),
                attributes: self@.abbrev.attributes,
                input: self@.attrs,
                after_attrs: None,
            }),
    {
        AttrsIter {
            input: self.attrs_slice,
            attributes: self.abbrev.attributes(),
            entry: self,
            after_attrs: None,
        }
    }
}

/// The state of an iteration over an entry's attributes.
#[verifier::ext_equal]
pub struct AttrsIterView {
    pub encoding: Encoding,
    /// The specifications of the attributes that are still to be parsed.
    pub attributes: Seq<AttributeSpecification>,
    /// The bytes that are still to be parsed.
    pub input: Seq<u8>,
    /// What comes after the attributes, once it is known.
    pub after_attrs: Option<Seq<u8>>,
}

/// An iterator over a particular entry's attributes.
///
/// See the documentation for `DebuggingInformationEntry::attrs()` for details.
#[derive(Clone, Copy, Debug)]
pub struct AttrsIter<'input, 'abbrev, 'entry, 'unit, Endian> where
    'input: 'entry + 'unit,
    'abbrev: 'entry,
    'unit: 'entry,
    Endian: Endianity + 'entry + 'unit,
 {
    input: &'input [u8],
    attributes: &'abbrev [AttributeSpecification],
    entry: &'entry DebuggingInformationEntry<'input, 'abbrev, 'unit, Endian>,
    after_attrs: Option<&'input [u8]>,
}

impl<'input, 'abbrev, 'entry, 'unit, Endian> View for AttrsIter<
    'input,
    'abbrev,
    'entry,
    'unit,
    Endian,
> where Endian: Endianity {
    type V = AttrsIterView;

    closed spec fn view(&self) -> AttrsIterView {
        AttrsIterView {
            encoding: self.entry@.encoding(Endian::is_big_endian()),
            attributes: self.attributes@,
            input: self.input@,
            after_attrs: match self.after_attrs {
                Some(bytes) => Some(bytes@),
                None => None,
            },
        }
    }
}

/// The state of an iteration after one step.
pub open spec fn attrs_step(iter: AttrsIterView) -> AttrsIterView {
    if iter.attributes.len() == 0 {
        AttrsIterView { after_attrs: Some(iter.input), ..iter }
    } else {
        match attribute::attribute_at(iter.encoding, iter.attributes.first(), iter.input) {
            Ok((_, n)) => AttrsIterView {
                attributes: iter.attributes.drop_first(),
                input: iter.input.skip(n as int),
                ..iter
            },
            Err(_) => AttrsIterView { attributes: Seq::empty(), ..iter },
        }
    }
}

/// The state of an iteration after `count` steps.
pub open spec fn attrs_steps(iter: AttrsIterView, count: nat) -> AttrsIterView
    decreases count,
{
    if count == 0 {
        iter
    } else {
        attrs_steps(attrs_step(iter), (count - 1) as nat)
    }
}

/// What the next step of an iteration gives.
pub open spec fn attrs_next(iter: AttrsIterView) -> Option<Result<AttributeView, Error>> {
    if iter.attributes.len() == 0 {
        None
    } else {
        match attribute::attribute_at(iter.encoding, iter.attributes.first(), iter.input) {
            Ok((attr, _)) => Some(Ok(attr)),
            Err(e) => Some(Err(e)),
        }
    }
}

impl<'input, 'abbrev, 'entry, 'unit, Endian> AttrsIter<
    'input,
    'abbrev,
    'entry,
    'unit,
    Endian,
> where Endian: Endianity {
    /// Parse the next attribute. After one that cannot be parsed there is none.
    pub fn next(&mut self) -> (res: Option<ParseResult<Attribute<'input>>>)
        ensures
            final(self)@ == attrs_step(old(self)@),
            match attrs_next(old(self)@) {
                Some(Ok(expected)) => res matches Some(Ok(attr)) && attr@ == expected,
                Some(Err(e)) => res == Some(Err::<Attribute<'input>, Error>(e)),
                None => res is None,
            },
    {
        if self.attributes.len() == 0 {
            // Now that we have parsed all of the attributes, we know where
            // either (1) this entry's children start, if the abbreviation says
            // this entry has children; or (2) where this entry's siblings
            // begin.
            self.after_attrs = Some(self.input);
            return None;
        }
        let attr: AttributeSpecification = self.attributes[0];
        self.attributes = slice_subrange(self.attributes, 1, self.attributes.len());
        match attribute::parse_attribute(
            AttributeInput(EndianBuf::new(self.input), self.entry.unit, attr),
        ) {
            Ok((rest, attr)) => {
                self.input = rest.into();
                Some(Ok(attr))
            },
            Err(e) => {
                self.attributes = slice_subrange(self.attributes, 0, 0);
                Some(Err(e))
            },
        }
    }

    /// The bytes that come after the entry's attributes, once all of them have
    /// been iterated over.
    pub fn after_attrs(&self) -> (res: Option<&'input [u8]>)
        ensures
            match self@.after_attrs {
                Some(bytes) => res matches Some(after) && after@ == bytes,
                None => res is None,
            },
    {
        self.after_attrs
    }
}

/// Iterating gives all attributes, in order, and then comes to an end for good.
/// From then on what comes after the attributes is known.
pub proof fn law_iterates_all_attributes(iter: AttrsIterView, count: nat)
    ensures
        ({
            let all = all_attributes(iter.encoding, iter.attributes, iter.input);
            &&& count < all.len() ==> attrs_next(attrs_steps(iter, count)) == Some(
                all[count as int],
            )
            &&& count >= all.len() ==> attrs_next(attrs_steps(iter, count)) is None
            &&& count > all.len() ==> attrs_steps(iter, count).after_attrs == Some(
                after_attributes(iter.encoding, iter.attributes, iter.input),
            )
            &&& count <= all.len() ==> attrs_steps(iter, count).after_attrs == iter.after_attrs
        }),
    decreases count,
{
    if count > 0 {
        let all = all_attributes(iter.encoding, iter.attributes, iter.input);
        let after = attrs_step(iter);
        law_iterates_all_attributes(after, (count - 1) as nat);
        if all.len() > 0 {
            assert(all.drop_first() == all_attributes(
                after.encoding,
                after.attributes,
                after.input,
            ));
        }
    }
}

} // verus!
