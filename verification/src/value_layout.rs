//! How the values of attributes are laid out in bytes, and that parsing what is
//! laid out so gives it back.
use crate::abbrev;
use crate::abbrev::AttributeSpecification;
use crate::abbrev_layout;
use crate::attribute;
use crate::attribute::{Attribute, AttributeValue, AttributeValueView, AttributeView, Encoding};
use crate::constants::DwForm;
use crate::endianity;
use crate::entry;
use crate::error::{Error, Outcome};
use crate::layout;
use crate::leb;
use crate::reader;
use crate::unit;
use crate::unit::{Format, UnitHeaderView};
use vstd::prelude::*;

verus! {

/// A value's view is that value, with its bytes.
pub proof fn law_value_view(value: AttributeValue)
    ensures
        match value {
            AttributeValue::Addr(bytes) => value@ == AttributeValueView::Addr(bytes@),
            AttributeValue::Block(bytes) => value@ == AttributeValueView::Block(bytes@),
            AttributeValue::Data(bytes) => value@ == AttributeValueView::Data(bytes@),
            AttributeValue::Sdata(data) => value@ == AttributeValueView::Sdata(data),
            AttributeValue::Udata(data) => value@ == AttributeValueView::Udata(data),
            AttributeValue::Exprloc(bytes) => value@ == AttributeValueView::Exprloc(bytes@),
            AttributeValue::Flag(present) => value@ == AttributeValueView::Flag(present),
            AttributeValue::SecOffset(offset) => value@ == AttributeValueView::SecOffset(offset),
            AttributeValue::UnitRef(offset) => value@ == AttributeValueView::UnitRef(offset),
            AttributeValue::DebugInfoRef(offset) => value@ == AttributeValueView::DebugInfoRef(
                offset,
            ),
            AttributeValue::DebugTypesRef(offset) => value@ == AttributeValueView::DebugTypesRef(
                offset,
            ),
            AttributeValue::DebugStrRef(offset) => value@ == AttributeValueView::DebugStrRef(
                offset,
            ),
            AttributeValue::String(bytes) => value@ == AttributeValueView::String(bytes@),
        },
{
}

/// An attribute's view is its name and the view of its value.
pub proof fn law_attribute_view(attr: Attribute)
    ensures
        attr@.name == attr.name,
        attr@.value == attr.value@,
{
}

/// How the values in a unit are encoded is what the unit's header says, and the
/// byte order.
pub proof fn law_unit_encoding(big_endian: bool, unit: UnitHeaderView)
    ensures
        attribute::unit_encoding(big_endian, unit).big_endian == big_endian,
        attribute::unit_encoding(big_endian, unit).address_size == unit.address_size,
        attribute::unit_encoding(big_endian, unit).format == unit.format,
{
}

/// Whether `bytes` are an integer of `width` bytes.
pub open spec fn is_uint(big_endian: bool, bytes: Seq<u8>, width: nat, value: u64) -> bool {
    bytes.len() == width && endianity::uint(big_endian, bytes) == value
}

/// The number of bytes of an offset.
pub open spec fn offset_width(format: Format) -> nat {
    match format {
        Format::Dwarf32 => 4,
        Format::Dwarf64 => 8,
    }
}

/// Whether `bytes` are the length of `run`, in `width` bytes, and then `run`.
pub open spec fn is_block(big_endian: bool, bytes: Seq<u8>, width: nat, run: Seq<u8>) -> bool {
    &&& bytes.len() == width + run.len()
    &&& endianity::uint(big_endian, bytes.take(width as int)) == run.len()
    &&& bytes.skip(width as int) == run
}

/// Whether `bytes` are the length of `run`, in LEB128, and then `run`.
pub open spec fn is_leb_block(bytes: Seq<u8>, run: Seq<u8>) -> bool {
    &&& run.len() <= bytes.len()
    &&& run.len() <= u64::MAX
    &&& leb::is_u64_leb(bytes.take(bytes.len() - run.len()), run.len() as u64)
    &&& bytes.skip(bytes.len() - run.len()) == run
}

/// Whether `bytes` are a value of the form with the given code, which is not that
/// of an indirect one.
pub open spec fn is_direct_value(
    encoding: Encoding,
    form: u64,
    bytes: Seq<u8>,
    value: AttributeValueView,
) -> bool {
    let big_endian = encoding.big_endian;
    let width = offset_width(encoding.format);
    match value {
        AttributeValueView::Addr(run) => {
            form == 0x01 && bytes == run && run.len() == encoding.address_size
        },
        AttributeValueView::Block(run) => {
            ||| form == 0x0a && bytes.len() == 1 + run.len() && bytes[0] == run.len() && bytes.skip(1)
                == run
            ||| form == 0x03 && is_block(big_endian, bytes, 2, run)
            ||| form == 0x04 && is_block(big_endian, bytes, 4, run)
            ||| form == 0x09 && is_leb_block(bytes, run)
        },
        AttributeValueView::Data(run) => bytes == run && {
            ||| form == 0x0b && run.len() == 1
            ||| form == 0x05 && run.len() == 2
            ||| form == 0x06 && run.len() == 4
            ||| form == 0x07 && run.len() == 8
        },
        AttributeValueView::Sdata(data) => {
            form == 0x0d && leb::is_signed_leb(bytes, data as int) && bytes.len() <= 10
        },
        AttributeValueView::Udata(data) => form == 0x0f && leb::is_u64_leb(bytes, data),
        AttributeValueView::Exprloc(run) => form == 0x18 && is_leb_block(bytes, run),
        AttributeValueView::Flag(present) => {
            ||| form == 0x0c && bytes.len() == 1 && (present <==> bytes[0] != 0)
            ||| form == 0x19 && bytes.len() == 0 && present
        },
        AttributeValueView::SecOffset(offset) => {
            form == 0x17 && is_uint(big_endian, bytes, width, offset)
        },
        AttributeValueView::UnitRef(offset) => {
            ||| form == 0x11 && bytes.len() == 1 && bytes[0] == offset.0
            ||| form == 0x12 && is_uint(big_endian, bytes, 2, offset.0)
            ||| form == 0x13 && is_uint(big_endian, bytes, 4, offset.0)
            ||| form == 0x14 && is_uint(big_endian, bytes, 8, offset.0)
            ||| form == 0x15 && leb::is_u64_leb(bytes, offset.0)
        },
        AttributeValueView::DebugInfoRef(offset) => {
            form == 0x10 && is_uint(big_endian, bytes, width, offset.0)
        },
        AttributeValueView::DebugTypesRef(offset) => {
            form == 0x20 && is_uint(big_endian, bytes, 8, offset.0)
        },
        AttributeValueView::DebugStrRef(offset) => {
            form == 0x0e && is_uint(big_endian, bytes, width, offset.0)
        },
        AttributeValueView::String(run) => form == 0x08 && bytes == run && run.len() > 0 && forall|
            i: int,
        |
            0 <= i < run.len() ==> (run[i] == 0 <==> i == run.len() - 1),
    }
}

/// Whether `bytes` are a value of the form with the given code. If that is the
/// code of an indirect form, the code of the actual form comes first, in LEB128.
pub open spec fn is_value(
    encoding: Encoding,
    form: u64,
    bytes: Seq<u8>,
    value: AttributeValueView,
) -> bool
    decreases bytes.len(),
{
    if form == 0x16 {
        exists|m: int, actual: u64|
            0 < m <= bytes.len() && #[trigger] leb::is_u64_leb(bytes.take(m), actual) && is_value(
                encoding,
                actual,
                bytes.skip(m),
                value,
            )
    } else {
        is_direct_value(encoding, form, bytes, value)
    }
}

/// Whether the code is that of a form which is known and not indirect.
pub open spec fn is_known_form(form: u64) -> bool {
    0x01 <= form <= 0x19 && form != 0x02 && form != 0x16 || form == 0x20
}

proof fn lemma_parse_direct_value(
    encoding: Encoding,
    form: DwForm,
    bytes: Seq<u8>,
    value: AttributeValueView,
    t: Seq<u8>,
)
    requires
        is_direct_value(encoding, form.0, bytes, value),
        form.0 != 0x16,
    ensures
        attribute::direct_value_at(encoding, form, bytes + t) == Ok::<
            (AttributeValueView, nat),
            Error,
        >((value, bytes.len())),
{
    let s = bytes + t;
    let big_endian = encoding.big_endian;
    let n = bytes.len() as int;
    assert(s.take(n) == bytes);
    layout::law_parse_integers(big_endian, s);
    layout::law_parse_offset(big_endian, encoding.format, s);
    match value {
        AttributeValueView::Block(run) | AttributeValueView::Exprloc(run) => {
            let k = n - run.len();
            let len_bytes = bytes.take(k);
            layout::law_parse_blocks(big_endian, len_bytes, run, t);
            assert(bytes.skip(k) == run);
            assert(len_bytes + run + t == s);
            if form.0 == 0x0a {
                assert(len_bytes[0] == bytes[0]);
            }
        },
        AttributeValueView::Sdata(data) => {
            leb::law_parse_signed_leb(bytes, data as int, t);
        },
        AttributeValueView::Udata(data) => {
            leb::law_parse_unsigned_leb(bytes, data as nat, t);
        },
        AttributeValueView::UnitRef(offset) => {
            if form.0 == 0x15 {
                leb::law_parse_unsigned_leb(bytes, offset.0 as nat, t);
            }
        },
        AttributeValueView::String(run) => {
            s.index_of_first_ensures(0u8);
            assert(s[n - 1] == 0u8);
            assert(s.contains(0u8));
            let i = s.index_of_first(0u8)->Some_0;
            assert(i == n - 1) by {
                if i < n - 1 {
                    assert(run[i] == s[i]);
                }
            }
        },
        _ => {},
    }
}

/// Parsing a value of any form, whatever comes after it, gives that value and
/// takes its bytes.
pub proof fn law_parse_value(
    encoding: Encoding,
    form: DwForm,
    bytes: Seq<u8>,
    value: AttributeValueView,
    t: Seq<u8>,
)
    requires
        is_value(encoding, form.0, bytes, value),
    ensures
        attribute::value_at(encoding, form, bytes + t) == Ok::<(AttributeValueView, nat), Error>(
            (value, bytes.len()),
        ),
    decreases bytes.len(),
{
    if form.0 == 0x16 {
        let (m, actual) = choose|m: int, actual: u64|
            0 < m <= bytes.len() && #[trigger] leb::is_u64_leb(bytes.take(m), actual) && is_value(
                encoding,
                actual,
                bytes.skip(m),
                value,
            );
        law_parse_value(encoding, DwForm(actual), bytes.skip(m), value, t);
        abbrev_layout::law_parse_codes(bytes.take(m), actual, bytes.skip(m) + t);
        assert(bytes.take(m) + (bytes.skip(m) + t) == bytes + t);
        assert((bytes + t).skip(m) == bytes.skip(m) + t);
    } else {
        lemma_parse_direct_value(encoding, form, bytes, value, t);
    }
}

proof fn lemma_parsed_blocks(big_endian: bool, s: Seq<u8>)
    ensures
        reader::u8_block_at(s) matches Ok((run, n)) ==> n <= s.len() && n == 1 + run.len() && s[0]
            == run.len() && s.take(n as int).skip(1) == run,
        reader::u16_block_at(big_endian, s) matches Ok((run, n)) ==> n <= s.len() && is_block(
            big_endian,
            s.take(n as int),
            2,
            run,
        ),
        reader::u32_block_at(big_endian, s) matches Ok((run, n)) ==> n <= s.len() && is_block(
            big_endian,
            s.take(n as int),
            4,
            run,
        ),
        reader::leb_block_at(s) matches Ok((run, n)) ==> n <= s.len() && is_leb_block(
            s.take(n as int),
            run,
        ),
{
    layout::law_parse_integers(big_endian, s);
    leb::law_parsed_leb_is_encoded(s);
    if let Ok((run, n)) = reader::u8_block_at(s) {
        assert(s.take(n as int).skip(1) == run);
    }
    if let Ok((run, n)) = reader::u16_block_at(big_endian, s) {
        assert(s.take(n as int).skip(2) == run);
        assert(s.take(n as int).take(2) == s.take(2));
    }
    if let Ok((run, n)) = reader::u32_block_at(big_endian, s) {
        assert(s.take(n as int).skip(4) == run);
        assert(s.take(n as int).take(4) == s.take(4));
    }
    if let Ok((run, n)) = reader::leb_block_at(s) {
        let k = n - run.len();
        assert(s.take(n as int).skip(k) == run);
        assert(s.take(n as int).take(k) == s.take(k));
    }
}

proof fn lemma_parsed_direct_value(encoding: Encoding, form: DwForm, s: Seq<u8>)
    requires
        form.0 != 0x16,
    ensures
        attribute::direct_value_at(encoding, form, s) matches Ok((value, n)) ==> n <= s.len()
            && is_direct_value(encoding, form.0, s.take(n as int), value),
{
    if let Ok((value, n)) = attribute::direct_value_at(encoding, form, s) {
        let big_endian = encoding.big_endian;
        layout::law_parse_integers(big_endian, s);
        layout::law_parse_offset(big_endian, encoding.format, s);
        leb::law_parsed_leb_is_encoded(s);
        lemma_parsed_blocks(big_endian, s);
        match value {
            AttributeValueView::String(run) => {
                s.index_of_first_ensures(0u8);
                assert forall|i: int| 0 <= i < run.len() implies (run[i] == 0 <==> i == run.len()
                    - 1) by {
                    assert(run[i] == s[i]);
                }
            },
            AttributeValueView::Block(run) => {
                if form.0 == 0x0a {
                    assert(s.take(n as int)[0] == s[0]);
                }
            },
            _ => {},
        }
    }
}

/// A value that is parsed is the one that the input starts with.
pub proof fn law_parsed_value_is_laid_out(encoding: Encoding, form: DwForm, s: Seq<u8>)
    ensures
        attribute::value_at(encoding, form, s) matches Ok((value, n)) ==> n <= s.len() && is_value(
            encoding,
            form.0,
            s.take(n as int),
            value,
        ),
    decreases s.len(),
{
    if form.0 == 0x16 {
        leb::law_leb_len_bound(s);
        leb::law_parsed_leb_is_encoded(s);
        if let Ok((actual, m)) = abbrev::attribute_form_at(s) {
            let rest = s.skip(m as int);
            law_parsed_value_is_laid_out(encoding, actual, rest);
            if let Ok((value, n)) = attribute::value_at(encoding, form, s) {
                let bytes = s.take(n as int);
                assert(bytes.take(m as int) == s.take(m as int));
                assert(bytes.skip(m as int) == rest.take(n - m));
                assert(leb::is_u64_leb(bytes.take(m as int), actual.0));
            }
        }
    } else {
        lemma_parsed_direct_value(encoding, form, s);
    }
}

/// Whether an outcome is the given error.
pub open spec fn fails(outcome: Outcome<AttributeValueView>, e: Error) -> bool {
    outcome == Err::<(AttributeValueView, nat), Error>(e)
}

/// Why a value is not parsed. One of an unknown form never is. One whose form
/// tells its size is cut off, and so is a string without a null byte. An integer
/// in LEB128, and a block, is not parsed for the reason why a plain one is not.
pub proof fn law_bad_values(encoding: Encoding, form: DwForm, s: Seq<u8>)
    ensures
        ({
            let outcome = attribute::value_at(encoding, form, s);
            let code = form.0;
            let size = abbrev_layout::size_of_form(code, encoding.address_size, encoding.format);
            let blocks = encoding.big_endian;
            &&& !is_known_form(code) && code != 0x16 ==> fails(outcome, Error::UnknownForm)
            &&& size is Some && size->Some_0 > s.len() ==> fails(outcome, Error::UnexpectedEof)
            &&& size is Some && size->Some_0 <= s.len() ==> outcome is Ok
            &&& code == 0x08 && s.contains(0u8) ==> outcome is Ok
            &&& code == 0x08 && !s.contains(0u8) ==> fails(outcome, Error::UnexpectedEof)
            &&& code == 0x0f || code == 0x15 ==> match leb::unsigned_leb(s) {
                Ok(_) => outcome is Ok,
                Err(e) => fails(outcome, e),
            }
            &&& code == 0x0d ==> match leb::signed_leb(s) {
                Ok(_) => outcome is Ok,
                Err(e) => fails(outcome, e),
            }
            &&& code == 0x09 || code == 0x18 ==> match reader::leb_block_at(s) {
                Ok(_) => outcome is Ok,
                Err(e) => fails(outcome, e),
            }
            &&& code == 0x0a ==> match reader::u8_block_at(s) {
                Ok(_) => outcome is Ok,
                Err(e) => fails(outcome, e),
            }
            &&& code == 0x03 ==> match reader::u16_block_at(blocks, s) {
                Ok(_) => outcome is Ok,
                Err(e) => fails(outcome, e),
            }
            &&& code == 0x04 ==> match reader::u32_block_at(blocks, s) {
                Ok(_) => outcome is Ok,
                Err(e) => fails(outcome, e),
            }
            &&& code == 0x16 ==> (leb::unsigned_leb(s) matches Err(e) ==> fails(outcome, e))
        }),
{
    layout::law_parse_integers(encoding.big_endian, s);
    layout::law_parse_offset(encoding.big_endian, encoding.format, s);
    s.index_of_first_ensures(0u8);
}

/// A value of an indirect form is not parsed for the reason why one of the actual
/// form is not.
pub proof fn law_bad_indirect_value(
    encoding: Encoding,
    form_bytes: Seq<u8>,
    actual: u64,
    s: Seq<u8>,
)
    requires
        leb::is_u64_leb(form_bytes, actual),
    ensures
        attribute::value_at(encoding, DwForm(actual), s) matches Err(e) ==> fails(
            attribute::value_at(encoding, DwForm(0x16), form_bytes + s),
            e,
        ),
{
    abbrev_layout::law_parse_codes(form_bytes, actual, s);
    assert((form_bytes + s).skip(form_bytes.len() as int) == s);
}

/// An attribute is the value of its form under the name that its specification
/// gives. It is not parsed for the reason why the value is not.
pub proof fn law_parse_attribute(encoding: Encoding, attr: AttributeSpecification, s: Seq<u8>)
    ensures
        match attribute::value_at(encoding, attr.form, s) {
            Ok((value, n)) => attribute::attribute_at(encoding, attr, s) == Ok::<
                (AttributeView, nat),
                Error,
            >((AttributeView { name: attr.name, value }, n)),
            Err(e) => attribute::attribute_at(encoding, attr, s) == Err::<
                (AttributeView, nat),
                Error,
            >(e),
        },
{
}

/// Whether `bytes` are the given values, one after the other, of the attributes
/// that `attrs` describe.
pub open spec fn are_values(
    encoding: Encoding,
    attrs: Seq<AttributeSpecification>,
    bytes: Seq<u8>,
    values: Seq<AttributeValueView>,
) -> bool
    decreases attrs.len(),
{
    &&& attrs.len() == values.len()
    &&& if attrs.len() == 0 {
        bytes.len() == 0
    } else {
        exists|m: int|
            0 <= m <= bytes.len() && #[trigger] is_value(
                encoding,
                attrs.first().form.0,
                bytes.take(m),
                values.first(),
            ) && are_values(encoding, attrs.drop_first(), bytes.skip(m), values.drop_first())
    }
}

/// The attributes with the given values, under the names that `attrs` give.
pub open spec fn named_values(
    attrs: Seq<AttributeSpecification>,
    values: Seq<AttributeValueView>,
) -> Seq<Result<AttributeView, Error>> {
    Seq::new(
        values.len(),
        |i: int| Ok::<AttributeView, Error>(AttributeView { name: attrs[i].name, value: values[i] }),
    )
}

/// Parsing the attributes that `attrs` describe, whatever comes after them, gives
/// them back in order, and stops after them. If more attributes are described,
/// parsing goes on with those.
pub proof fn law_parse_attributes(
    encoding: Encoding,
    attrs: Seq<AttributeSpecification>,
    bytes: Seq<u8>,
    values: Seq<AttributeValueView>,
    more: Seq<AttributeSpecification>,
    t: Seq<u8>,
)
    requires
        are_values(encoding, attrs, bytes, values),
    ensures
        entry::all_attributes(encoding, attrs + more, bytes + t) == named_values(attrs, values)
            + entry::all_attributes(encoding, more, t),
        entry::after_attributes(encoding, attrs + more, bytes + t) == entry::after_attributes(
            encoding,
            more,
            t,
        ),
        entry::after_attributes(encoding, Seq::empty(), t) == t,
        entry::all_attributes(encoding, Seq::empty(), t) == Seq::<
            Result<AttributeView, Error>,
        >::empty(),
    decreases attrs.len(),
{
    let tail = entry::all_attributes(encoding, more, t);
    if attrs.len() == 0 {
        assert(attrs + more == more);
        assert(bytes + t == t);
        assert(named_values(attrs, values) + tail == tail);
    } else {
        let m = choose|m: int|
            0 <= m <= bytes.len() && #[trigger] is_value(
                encoding,
                attrs.first().form.0,
                bytes.take(m),
                values.first(),
            ) && are_values(encoding, attrs.drop_first(), bytes.skip(m), values.drop_first());
        let rest = bytes.skip(m) + t;
        law_parse_value(encoding, attrs.first().form, bytes.take(m), values.first(), rest);
        assert(bytes.take(m) + rest == bytes + t);
        assert((bytes + t).skip(m) == rest);
        assert((attrs + more).first() == attrs.first());
        assert((attrs + more).drop_first() == attrs.drop_first() + more);
        law_parse_attributes(
            encoding,
            attrs.drop_first(),
            bytes.skip(m),
            values.drop_first(),
            more,
            t,
        );
        let rest_named = named_values(attrs.drop_first(), values.drop_first());
        let first = AttributeView { name: attrs.first().name, value: values.first() };
        assert(named_values(attrs, values) =~= seq![Ok::<AttributeView, Error>(first)]
            + rest_named);
        assert(seq![Ok::<AttributeView, Error>(first)] + rest_named + tail == seq![
            Ok::<AttributeView, Error>(first),
        ] + (rest_named + tail));
    }
}

/// An attribute that cannot be parsed is the last one that is given, as an error,
/// and parsing stops before it.
pub proof fn law_bad_attribute_stops(
    encoding: Encoding,
    attrs: Seq<AttributeSpecification>,
    s: Seq<u8>,
)
    requires
        attrs.len() > 0,
    ensures
        attribute::value_at(encoding, attrs.first().form, s) matches Err(e) ==> {
            &&& entry::all_attributes(encoding, attrs, s) == seq![Err::<AttributeView, Error>(e)]
            &&& entry::after_attributes(encoding, attrs, s) == s
        },
{
}

} // verus!
