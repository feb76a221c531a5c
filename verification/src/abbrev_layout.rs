//! How abbreviations are laid out in bytes, and that parsing what is laid out so
//! gives it back.
use crate::abbrev;
use crate::abbrev::{AbbreviationView, AttributeSpecification};
use crate::constants::{DwAt, DwChildren, DwForm, DwTag};
use crate::error::Error;
use crate::leb;
use crate::unit::Format;
use vstd::prelude::*;

verus! {

/// An abbreviation's code and tag, and an attribute's name and form, are what
/// their LEB128 encodings stand for. A code or tag of zero is an error, and a null
/// abbreviation is zero.
pub proof fn law_parse_codes(bytes: Seq<u8>, value: u64, t: Seq<u8>)
    requires
        leb::is_u64_leb(bytes, value),
    ensures
        abbrev::attribute_name_at(bytes + t) == Ok::<(DwAt, nat), Error>(
            (DwAt(value), bytes.len()),
        ),
        abbrev::attribute_form_at(bytes + t) == Ok::<(DwForm, nat), Error>(
            (DwForm(value), bytes.len()),
        ),
        value != 0 ==> abbrev::abbreviation_code_at(bytes + t) == Ok::<(u64, nat), Error>(
            (value, bytes.len()),
        ),
        value == 0 ==> abbrev::abbreviation_code_at(bytes + t) == Err::<(u64, nat), Error>(
            Error::AbbreviationCodeZero,
        ),
        value != 0 ==> abbrev::abbreviation_tag_at(bytes + t) == Ok::<(DwTag, nat), Error>(
            (DwTag(value), bytes.len()),
        ),
        value == 0 ==> abbrev::abbreviation_tag_at(bytes + t) == Err::<(DwTag, nat), Error>(
            Error::AbbreviationCodeZero,
        ),
        value == 0 ==> abbrev::null_abbreviation_at(bytes + t) == Ok::<((), nat), Error>(
            ((), bytes.len()),
        ),
        value != 0 ==> abbrev::null_abbreviation_at(bytes + t) == Err::<((), nat), Error>(
            Error::ExpectedZero,
        ),
{
    leb::law_parse_unsigned_leb(bytes, value as nat, t);
}

/// Where no LEB128 integer can be parsed, no code, tag, name or form can be, for
/// the same reason.
pub proof fn law_bad_codes(s: Seq<u8>)
    ensures
        leb::unsigned_leb(s) matches Err(e) ==> {
            &&& abbrev::attribute_name_at(s) == Err::<(DwAt, nat), Error>(e)
            &&& abbrev::attribute_form_at(s) == Err::<(DwForm, nat), Error>(e)
            &&& abbrev::abbreviation_code_at(s) == Err::<(u64, nat), Error>(e)
            &&& abbrev::abbreviation_tag_at(s) == Err::<(DwTag, nat), Error>(e)
            &&& abbrev::null_abbreviation_at(s) == Err::<((), nat), Error>(e)
            &&& abbrev::attribute_specification_at(s) == Err::<(AttributeSpecification, nat), Error>(
                e,
            )
            &&& abbrev::null_attribute_specification_at(s) == Err::<((), nat), Error>(e)
        },
{
}

/// Whether an abbreviation has children is one byte, which is zero or one.
pub proof fn law_parse_has_children(s: Seq<u8>)
    ensures
        s.len() == 0 ==> abbrev::abbreviation_has_children_at(s) == Err::<(DwChildren, nat), Error>(
            Error::UnexpectedEof,
        ),
        s.len() > 0 && s[0] <= 1 ==> abbrev::abbreviation_has_children_at(s) == Ok::<
            (DwChildren, nat),
            Error,
        >((DwChildren(s[0]), 1)),
        s.len() > 0 && s[0] > 1 ==> abbrev::abbreviation_has_children_at(s) == Err::<
            (DwChildren, nat),
            Error,
        >(Error::BadHasChildren),
{
}

/// Parsing a name and a form, whatever comes after them, gives them back. They
/// are the null attribute specification just if both are zero.
pub proof fn law_parse_attribute_specification(
    name_bytes: Seq<u8>,
    name: u64,
    form_bytes: Seq<u8>,
    form: u64,
    t: Seq<u8>,
)
    requires
        leb::is_u64_leb(name_bytes, name),
        leb::is_u64_leb(form_bytes, form),
    ensures
        abbrev::attribute_specification_at(name_bytes + form_bytes + t) == Ok::<
            (AttributeSpecification, nat),
            Error,
        >(
            (
                AttributeSpecification { name: DwAt(name), form: DwForm(form) },
                name_bytes.len() + form_bytes.len(),
            ),
        ),
        name == 0 && form == 0 ==> abbrev::null_attribute_specification_at(
            name_bytes + form_bytes + t,
        ) == Ok::<((), nat), Error>(((), name_bytes.len() + form_bytes.len())),
        name != 0 || form != 0 ==> abbrev::null_attribute_specification_at(
            name_bytes + form_bytes + t,
        ) == Err::<((), nat), Error>(Error::ExpectedZero),
{
    let s = name_bytes + form_bytes + t;
    leb::law_parse_unsigned_leb(name_bytes, name as nat, form_bytes + t);
    leb::law_parse_unsigned_leb(form_bytes, form as nat, t);
    assert(s == name_bytes + (form_bytes + t));
    assert(s.skip(name_bytes.len() as int) == form_bytes + t);
}

/// Where no form can be parsed after a name, no attribute specification can be,
/// for the same reason. It is not the null one either: for the same reason if the
/// name is zero, and because the name is not zero otherwise.
pub proof fn law_bad_attribute_specification(name_bytes: Seq<u8>, name: u64, s: Seq<u8>)
    requires
        leb::is_u64_leb(name_bytes, name),
        leb::unsigned_leb(s) is Err,
    ensures
        abbrev::attribute_specification_at(name_bytes + s) == Err::<
            (AttributeSpecification, nat),
            Error,
        >(leb::unsigned_leb(s)->Err_0),
        abbrev::null_attribute_specification_at(name_bytes + s) == Err::<((), nat), Error>(
            if name == 0 {
                leb::unsigned_leb(s)->Err_0
            } else {
                Error::ExpectedZero
            },
        ),
{
    leb::law_parse_unsigned_leb(name_bytes, name as nat, s);
    assert((name_bytes + s).skip(name_bytes.len() as int) == s);
}

/// Whether `bytes` are two LEB128 integers, one after the other.
#[verifier::opaque]
pub open spec fn is_pair(bytes: Seq<u8>, first: u64, second: u64) -> bool {
    exists|m: int|
        0 <= m <= bytes.len() && #[trigger] leb::is_u64_leb(bytes.take(m), first)
            && leb::is_u64_leb(bytes.skip(m), second)
}

/// Whether `bytes` are the given attribute specifications, none of which is null,
/// and then the null one.
pub open spec fn is_attribute_list(bytes: Seq<u8>, attrs: Seq<AttributeSpecification>) -> bool
    decreases attrs.len(),
{
    if attrs.len() == 0 {
        is_pair(bytes, 0, 0)
    } else {
        let attr = attrs.first();
        &&& attr.name.0 != 0 || attr.form.0 != 0
        &&& exists|k: int|
            0 <= k <= bytes.len() && #[trigger] is_pair(bytes.take(k), attr.name.0, attr.form.0)
                && is_attribute_list(bytes.skip(k), attrs.drop_first())
    }
}

proof fn lemma_parse_pair(bytes: Seq<u8>, first: u64, second: u64, t: Seq<u8>)
    requires
        is_pair(bytes, first, second),
    ensures
        bytes.len() > 0,
        abbrev::attribute_specification_at(bytes + t) == Ok::<(AttributeSpecification, nat), Error>(
            (AttributeSpecification { name: DwAt(first), form: DwForm(second) }, bytes.len()),
        ),
        first == 0 && second == 0 ==> abbrev::null_attribute_specification_at(bytes + t) == Ok::<
            ((), nat),
            Error,
        >(((), bytes.len())),
        first != 0 || second != 0 ==> abbrev::null_attribute_specification_at(bytes + t) is Err,
{
    reveal(is_pair);
    let m = choose|m: int|
        0 <= m <= bytes.len() && #[trigger] leb::is_u64_leb(bytes.take(m), first)
            && leb::is_u64_leb(bytes.skip(m), second);
    law_parse_attribute_specification(bytes.take(m), first, bytes.skip(m), second, t);
    assert(bytes.take(m) + bytes.skip(m) == bytes);
}

/// Parsing a list of attribute specifications, whatever comes after its end, gives
/// them back in order.
pub proof fn law_parse_attribute_list(
    bytes: Seq<u8>,
    attrs: Seq<AttributeSpecification>,
    t: Seq<u8>,
)
    requires
        is_attribute_list(bytes, attrs),
    ensures
        abbrev::attribute_specifications_at(bytes + t) == Ok::<
            (Seq<AttributeSpecification>, nat),
            Error,
        >((attrs, bytes.len())),
    decreases attrs.len(),
{
    if attrs.len() == 0 {
        lemma_parse_pair(bytes, 0, 0, t);
        assert(attrs == Seq::<AttributeSpecification>::empty());
    } else {
        let attr = attrs.first();
        let k = choose|k: int|
            0 <= k <= bytes.len() && #[trigger] is_pair(bytes.take(k), attr.name.0, attr.form.0)
                && is_attribute_list(bytes.skip(k), attrs.drop_first());
        lemma_parse_pair(bytes.take(k), attr.name.0, attr.form.0, bytes.skip(k) + t);
        assert(bytes.take(k) + (bytes.skip(k) + t) == bytes + t);
        law_parse_attribute_list(bytes.skip(k), attrs.drop_first(), t);
        assert((bytes + t).skip(k) == bytes.skip(k) + t);
        assert(seq![attr] + attrs.drop_first() == attrs);
    }
}

proof fn lemma_parsed_pair(s: Seq<u8>)
    ensures
        abbrev::attribute_specification_at(s) matches Ok((attr, n)) ==> {
            &&& 1 <= n <= s.len()
            &&& is_pair(s.take(n as int), attr.name.0, attr.form.0)
        },
        abbrev::null_attribute_specification_at(s) matches Ok((_, n)) ==> {
            &&& 1 <= n <= s.len()
            &&& is_pair(s.take(n as int), 0, 0)
        },
        abbrev::null_attribute_specification_at(s) is Err ==> (
        abbrev::attribute_specification_at(s) matches Ok((attr, _)) ==> attr.name.0 != 0
            || attr.form.0 != 0),
{
    reveal(is_pair);
    if let Ok((attr, n)) = abbrev::attribute_specification_at(s) {
        let m = leb::unsigned_leb(s)->Ok_0.1 as int;
        leb::law_parsed_leb_is_encoded(s);
        leb::law_leb_len_bound(s);
        leb::law_parsed_leb_is_encoded(s.skip(m));
        let bytes = s.take(n as int);
        assert(bytes.take(m) == s.take(m));
        assert(bytes.skip(m) == s.skip(m).take(n - m));
        assert(leb::is_u64_leb(bytes.take(m), attr.name.0));
    }
}

/// A list of attribute specifications that is parsed is the one that the input
/// starts with.
pub proof fn law_parsed_attribute_list_is_laid_out(s: Seq<u8>)
    ensures
        abbrev::attribute_specifications_at(s) matches Ok((attrs, n)) ==> {
            &&& n <= s.len()
            &&& is_attribute_list(s.take(n as int), attrs)
        },
    decreases s.len(),
{
    lemma_parsed_pair(s);
    if abbrev::null_attribute_specification_at(s) is Err {
        if let Ok((attr, k)) = abbrev::attribute_specification_at(s) {
            let rest = s.skip(k as int);
            law_parsed_attribute_list_is_laid_out(rest);
            if let Ok((attrs, n)) = abbrev::attribute_specifications_at(s) {
                let bytes = s.take(n as int);
                let rest_attrs = abbrev::attribute_specifications_at(rest)->Ok_0.0;
                assert(attrs == seq![attr] + rest_attrs);
                assert(attrs.first() == attr);
                assert(attrs.drop_first() == rest_attrs);
                assert(bytes.take(k as int) == s.take(k as int));
                assert(bytes.skip(k as int) == rest.take(n - k));
                assert(is_pair(
                    bytes.take(k as int),
                    attrs.first().name.0,
                    attrs.first().form.0,
                ) && is_attribute_list(bytes.skip(k as int), attrs.drop_first()));
            }
        }
    }
}

/// A list of attribute specifications in which one cannot be parsed, and which has
/// not ended before that one, cannot be parsed for the same reason.
pub proof fn law_bad_attribute_list(first: Seq<u8>, name: u64, form: u64, s: Seq<u8>)
    ensures
        abbrev::attribute_specification_at(s) matches Err(e)
            ==> abbrev::attribute_specifications_at(s) == Err::<
            (Seq<AttributeSpecification>, nat),
            Error,
        >(e),
        is_pair(first, name, form) && (name != 0 || form != 0) ==> (
        abbrev::attribute_specifications_at(s) matches Err(e)
            ==> abbrev::attribute_specifications_at(first + s) == Err::<
            (Seq<AttributeSpecification>, nat),
            Error,
        >(e)),
{
    lemma_parsed_pair(s);
    if is_pair(first, name, form) {
        lemma_parse_pair(first, name, form, s);
        assert((first + s).skip(first.len() as int) == s);
    }
}

/// Whether `bytes` are an abbreviation: its code and its tag, which are not zero,
/// a byte that says whether it has children, and its attributes.
#[verifier::opaque]
pub open spec fn is_abbreviation(bytes: Seq<u8>, abbrev: AbbreviationView) -> bool {
    &&& abbrev.code != 0
    &&& abbrev.tag.0 != 0
    &&& abbrev.has_children.0 <= 1
    &&& exists|k: int|
        0 <= k < bytes.len() && #[trigger] is_pair(bytes.take(k), abbrev.code, abbrev.tag.0)
            && bytes[k] == abbrev.has_children.0 && is_attribute_list(
            bytes.skip(k + 1),
            abbrev.attributes,
        )
}

proof fn lemma_parse_abbreviation_parts(
    code_bytes: Seq<u8>,
    tag_bytes: Seq<u8>,
    rest: Seq<u8>,
    list_bytes: Seq<u8>,
    abbrev: AbbreviationView,
    t: Seq<u8>,
)
    requires
        abbrev.code != 0,
        abbrev.tag.0 != 0,
        abbrev.has_children.0 <= 1,
        leb::is_u64_leb(code_bytes, abbrev.code),
        leb::is_u64_leb(tag_bytes, abbrev.tag.0),
        rest.len() > 0,
        rest[0] == abbrev.has_children.0,
        rest.skip(1) == list_bytes + t,
        is_attribute_list(list_bytes, abbrev.attributes),
    ensures
        abbrev::abbreviation_at(code_bytes + (tag_bytes + rest)) == Ok::<
            (AbbreviationView, nat),
            Error,
        >((abbrev, code_bytes.len() + tag_bytes.len() + 1 + list_bytes.len())),
        abbrev::null_abbreviation_at(code_bytes + (tag_bytes + rest)) is Err,
{
    let s = code_bytes + (tag_bytes + rest);
    law_parse_codes(code_bytes, abbrev.code, tag_bytes + rest);
    law_parse_codes(tag_bytes, abbrev.tag.0, rest);
    law_parse_has_children(rest);
    law_parse_attribute_list(list_bytes, abbrev.attributes, t);
    let m = code_bytes.len() as int;
    let k = m + tag_bytes.len();
    assert(s.skip(m) == tag_bytes + rest);
    assert(s.skip(k) == rest);
    assert(s.skip(k + 1) == rest.skip(1));
}

/// Parsing an abbreviation, whatever comes after it, gives it back.
pub proof fn law_parse_abbreviation(bytes: Seq<u8>, abbrev: AbbreviationView, t: Seq<u8>)
    requires
        is_abbreviation(bytes, abbrev),
    ensures
        abbrev::abbreviation_at(bytes + t) == Ok::<(AbbreviationView, nat), Error>(
            (abbrev, bytes.len()),
        ),
        abbrev::null_abbreviation_at(bytes + t) is Err,
{
    reveal(is_pair);
    reveal(is_abbreviation);
    let k = choose|k: int|
        0 <= k < bytes.len() && #[trigger] is_pair(bytes.take(k), abbrev.code, abbrev.tag.0)
            && bytes[k] == abbrev.has_children.0 && is_attribute_list(
            bytes.skip(k + 1),
            abbrev.attributes,
        );
    let codes = bytes.take(k);
    let m = choose|m: int|
        0 <= m <= codes.len() && #[trigger] leb::is_u64_leb(codes.take(m), abbrev.code)
            && leb::is_u64_leb(codes.skip(m), abbrev.tag.0);
    let rest = bytes.skip(k) + t;
    assert(rest.skip(1) == bytes.skip(k + 1) + t);
    assert(codes.take(m) + (codes.skip(m) + rest) == bytes + t);
    lemma_parse_abbreviation_parts(
        codes.take(m),
        codes.skip(m),
        rest,
        bytes.skip(k + 1),
        abbrev,
        t,
    );
}

/// An abbreviation that is parsed is the one that the input starts with.
pub proof fn law_parsed_abbreviation_is_laid_out(s: Seq<u8>)
    ensures
        abbrev::abbreviation_at(s) matches Ok((abbrev, n)) ==> {
            &&& n <= s.len()
            &&& is_abbreviation(s.take(n as int), abbrev)
        },
{
    reveal(is_pair);
    reveal(is_abbreviation);
    if let Ok((abbrev, n)) = abbrev::abbreviation_at(s) {
        abbrev::law_abbreviation_bound(s);
        let m = leb::unsigned_leb(s)->Ok_0.1 as int;
        leb::law_parsed_leb_is_encoded(s);
        let k = m + leb::unsigned_leb(s.skip(m))->Ok_0.1;
        leb::law_parsed_leb_is_encoded(s.skip(m));
        law_parse_has_children(s.skip(k));
        law_parsed_attribute_list_is_laid_out(s.skip(k + 1));
        let bytes = s.take(n as int);
        let codes = bytes.take(k);
        assert(codes.take(m) == s.take(m));
        assert(codes.skip(m) == s.skip(m).take(k - m));
        assert(leb::is_u64_leb(codes.take(m), abbrev.code));
        assert(is_pair(codes, abbrev.code, abbrev.tag.0));
        assert(bytes.skip(k + 1) == s.skip(k + 1).take(n - k - 1));
    }
}

/// Why an abbreviation is not parsed: the reason why the first of its parts that
/// is bad is not.
pub proof fn law_bad_abbreviation(
    code_bytes: Seq<u8>,
    code: u64,
    tag_bytes: Seq<u8>,
    tag: u64,
    s: Seq<u8>,
)
    ensures
        abbrev::abbreviation_code_at(s) matches Err(e) ==> abbrev::abbreviation_at(s) == Err::<
            (AbbreviationView, nat),
            Error,
        >(e),
        leb::is_u64_leb(code_bytes, code) && code != 0 ==> (abbrev::abbreviation_tag_at(
            s,
        ) matches Err(e) ==> abbrev::abbreviation_at(code_bytes + s) == Err::<
            (AbbreviationView, nat),
            Error,
        >(e)),
        leb::is_u64_leb(code_bytes, code) && code != 0 && leb::is_u64_leb(tag_bytes, tag) && tag != 0
            ==> {
            &&& abbrev::abbreviation_has_children_at(s) matches Err(e) ==> abbrev::abbreviation_at(
                code_bytes + tag_bytes + s,
            ) == Err::<(AbbreviationView, nat), Error>(e)
            &&& s.len() > 0 && s[0] <= 1 ==> (abbrev::attribute_specifications_at(
                s.skip(1),
            ) matches Err(e) ==> abbrev::abbreviation_at(code_bytes + tag_bytes + s) == Err::<
                (AbbreviationView, nat),
                Error,
            >(e))
        },
{
    if leb::is_u64_leb(code_bytes, code) && code != 0 {
        law_parse_codes(code_bytes, code, s);
        assert((code_bytes + s).skip(code_bytes.len() as int) == s);
        if leb::is_u64_leb(tag_bytes, tag) && tag != 0 {
            let joined = code_bytes + tag_bytes + s;
            law_parse_codes(code_bytes, code, tag_bytes + s);
            law_parse_codes(tag_bytes, tag, s);
            law_parse_has_children(s);
            assert(joined == code_bytes + (tag_bytes + s));
            assert(joined.skip(code_bytes.len() as int) == tag_bytes + s);
            assert(joined.skip((code_bytes.len() + tag_bytes.len()) as int) == s);
            if s.len() > 0 {
                assert(joined.skip((code_bytes.len() + tag_bytes.len() + 1) as int) == s.skip(1));
            }
        }
    }
}

/// Whether `bytes` are the given abbreviations and then a null one.
#[verifier::opaque]
pub open spec fn is_abbreviation_list(bytes: Seq<u8>, abbrevs: Seq<AbbreviationView>) -> bool
    decreases abbrevs.len(),
{
    if abbrevs.len() == 0 {
        leb::is_u64_leb(bytes, 0)
    } else {
        exists|k: int|
            0 <= k <= bytes.len() && #[trigger] is_abbreviation(bytes.take(k), abbrevs.first())
                && is_abbreviation_list(bytes.skip(k), abbrevs.drop_first())
    }
}

/// Whether no two of the given abbreviations have the same code.
pub open spec fn have_unique_codes(abbrevs: Seq<AbbreviationView>) -> bool {
    forall|i: int, j: int|
        0 <= i < j < abbrevs.len() ==> (#[trigger] abbrevs[i]).code != (#[trigger] abbrevs[j]).code
}

/// Whether a set of abbreviations holds the given ones under their codes, and
/// besides them only those in `known`.
pub open spec fn holds_just(
    set: Map<u64, AbbreviationView>,
    known: Map<u64, AbbreviationView>,
    abbrevs: Seq<AbbreviationView>,
) -> bool {
    &&& forall|i: int|
        0 <= i < abbrevs.len() ==> set.contains_key((#[trigger] abbrevs[i]).code)
            && set[abbrevs[i].code] == abbrevs[i]
    &&& forall|code: u64| #[trigger]
        set.contains_key(code) ==> (known.contains_key(code) && set[code] == known[code]) || exists|
            i: int,
        |
            0 <= i < abbrevs.len() && (#[trigger] abbrevs[i]).code == code
    &&& forall|code: u64| #[trigger]
        known.contains_key(code) ==> set.contains_key(code) && set[code] == known[code]
}

/// Whether the given abbreviations have codes of their own, which are not in
/// `known`.
spec fn are_fresh(known: Map<u64, AbbreviationView>, abbrevs: Seq<AbbreviationView>) -> bool {
    &&& have_unique_codes(abbrevs)
    &&& forall|i: int|
        0 <= i < abbrevs.len() ==> !known.contains_key((#[trigger] abbrevs[i]).code)
}

proof fn lemma_are_fresh(known: Map<u64, AbbreviationView>, abbrevs: Seq<AbbreviationView>)
    requires
        abbrevs.len() > 0,
    ensures
        are_fresh(known, abbrevs) <==> !known.contains_key(abbrevs.first().code) && are_fresh(
            known.insert(abbrevs.first().code, abbrevs.first()),
            abbrevs.drop_first(),
        ),
{
    let first = abbrevs.first();
    let rest = abbrevs.drop_first();
    let more = known.insert(first.code, first);
    if are_fresh(known, abbrevs) {
        assert(abbrevs[0] == first);
        assert forall|i: int, j: int| 0 <= i < j < rest.len() implies (#[trigger] rest[i]).code != (
        #[trigger] rest[j]).code by {
            assert(abbrevs[i + 1].code != abbrevs[j + 1].code);
        }
        assert forall|i: int| 0 <= i < rest.len() implies !more.contains_key(
            (#[trigger] rest[i]).code,
        ) by {
            assert(abbrevs[0].code != abbrevs[i + 1].code);
        }
    }
    if !known.contains_key(first.code) && are_fresh(more, rest) {
        assert forall|i: int, j: int| 0 <= i < j < abbrevs.len() implies (
        #[trigger] abbrevs[i]).code != (#[trigger] abbrevs[j]).code by {
            assert(rest[j - 1] == abbrevs[j]);
            if i > 0 {
                assert(rest[i - 1] == abbrevs[i]);
            }
        }
        assert forall|i: int| 0 <= i < abbrevs.len() implies !known.contains_key(
            (#[trigger] abbrevs[i]).code,
        ) by {
            if i > 0 {
                assert(rest[i - 1] == abbrevs[i]);
            }
        }
    }
}

proof fn lemma_holds_just(
    set: Map<u64, AbbreviationView>,
    known: Map<u64, AbbreviationView>,
    abbrevs: Seq<AbbreviationView>,
)
    requires
        abbrevs.len() > 0,
        !known.contains_key(abbrevs.first().code),
        holds_just(
            set,
            known.insert(abbrevs.first().code, abbrevs.first()),
            abbrevs.drop_first(),
        ),
    ensures
        holds_just(set, known, abbrevs),
{
    let first = abbrevs.first();
    let rest = abbrevs.drop_first();
    let more = known.insert(first.code, first);
    assert(more.contains_key(first.code));
    assert forall|i: int| 0 <= i < abbrevs.len() implies set.contains_key(
        (#[trigger] abbrevs[i]).code,
    ) && set[abbrevs[i].code] == abbrevs[i] by {
        if i > 0 {
            assert(rest[i - 1] == abbrevs[i]);
        }
    }
    assert forall|code: u64| #[trigger] set.contains_key(code) implies (known.contains_key(code)
        && set[code] == known[code]) || exists|i: int|
        0 <= i < abbrevs.len() && (#[trigger] abbrevs[i]).code == code by {
        if known.contains_key(code) {
            assert(more.contains_key(code));
        } else if code == first.code {
            assert(abbrevs[0].code == code);
        } else {
            let i = choose|i: int| 0 <= i < rest.len() && (#[trigger] rest[i]).code == code;
            assert(abbrevs[i + 1].code == code);
        }
    }
    assert forall|code: u64| #[trigger] known.contains_key(code) implies set.contains_key(code)
        && set[code] == known[code] by {
        assert(more.contains_key(code));
    }
}

proof fn lemma_abbreviations_step(
    known: Map<u64, AbbreviationView>,
    first: Seq<u8>,
    abbrev: AbbreviationView,
    s: Seq<u8>,
)
    requires
        is_abbreviation(first, abbrev),
    ensures
        abbrev::more_abbreviations_at(known, first + s) == if known.contains_key(abbrev.code) {
            Err(Error::DuplicateAbbreviationCode)
        } else {
            match abbrev::more_abbreviations_at(known.insert(abbrev.code, abbrev), s) {
                Ok((set, n)) => Ok((set, first.len() + n)),
                Err(e) => Err(e),
            }
        },
{
    law_parse_abbreviation(first, abbrev, s);
    assert((first + s).skip(first.len() as int) == s);
}

proof fn lemma_parse_more_abbreviations(
    known: Map<u64, AbbreviationView>,
    bytes: Seq<u8>,
    abbrevs: Seq<AbbreviationView>,
    t: Seq<u8>,
)
    requires
        is_abbreviation_list(bytes, abbrevs),
    ensures
        are_fresh(known, abbrevs) ==> (abbrev::more_abbreviations_at(known, bytes + t) matches Ok(
            (set, n),
        ) && n == bytes.len() && holds_just(set, known, abbrevs)),
        !are_fresh(known, abbrevs) ==> abbrev::more_abbreviations_at(known, bytes + t) == Err::<
            (Map<u64, AbbreviationView>, nat),
            Error,
        >(Error::DuplicateAbbreviationCode),
    decreases abbrevs.len(),
{
    reveal(is_abbreviation_list);
    let s = bytes + t;
    if abbrevs.len() == 0 {
        law_parse_codes(bytes, 0, t);
    } else {
        let first = abbrevs.first();
        let rest = abbrevs.drop_first();
        let k = choose|k: int|
            0 <= k <= bytes.len() && #[trigger] is_abbreviation(bytes.take(k), first)
                && is_abbreviation_list(bytes.skip(k), rest);
        lemma_abbreviations_step(known, bytes.take(k), first, bytes.skip(k) + t);
        assert(bytes.take(k) + (bytes.skip(k) + t) == s);
        lemma_are_fresh(known, abbrevs);
        if !known.contains_key(first.code) {
            let more = known.insert(first.code, first);
            lemma_parse_more_abbreviations(more, bytes.skip(k), rest, t);
            if are_fresh(more, rest) {
                lemma_holds_just(abbrev::more_abbreviations_at(known, s)->Ok_0.0, known, abbrevs);
            }
        }
    }
}

/// Parsing a list of abbreviations, whatever comes after its end, gives a set that
/// holds each of them under its code and nothing else. If two of them have the
/// same code, it is an error.
pub proof fn law_parse_abbreviations(
    bytes: Seq<u8>,
    abbrevs: Seq<AbbreviationView>,
    t: Seq<u8>,
)
    requires
        is_abbreviation_list(bytes, abbrevs),
    ensures
        have_unique_codes(abbrevs) ==> (abbrev::abbreviations_at(bytes + t) matches Ok((set, n))
            && n == bytes.len() && holds_just(set, Map::empty(), abbrevs)),
        !have_unique_codes(abbrevs) ==> abbrev::abbreviations_at(bytes + t) == Err::<
            (Map<u64, AbbreviationView>, nat),
            Error,
        >(Error::DuplicateAbbreviationCode),
{
    lemma_parse_more_abbreviations(Map::empty(), bytes, abbrevs, t);
}

proof fn lemma_prepend_abbreviation(
    first: Seq<u8>,
    abbrev: AbbreviationView,
    bytes: Seq<u8>,
    abbrevs: Seq<AbbreviationView>,
)
    requires
        is_abbreviation(first, abbrev),
        is_abbreviation_list(bytes, abbrevs),
    ensures
        is_abbreviation_list(first + bytes, seq![abbrev] + abbrevs),
{
    reveal(is_abbreviation_list);
    let joined = first + bytes;
    let k = first.len() as int;
    assert(joined.take(k) == first);
    assert(joined.skip(k) == bytes);
    assert((seq![abbrev] + abbrevs).first() == abbrev);
    assert((seq![abbrev] + abbrevs).drop_first() == abbrevs);
    assert(is_abbreviation(joined.take(k), (seq![abbrev] + abbrevs).first()));
}

proof fn lemma_parsed_no_abbreviation(known: Map<u64, AbbreviationView>, s: Seq<u8>)
    requires
        abbrev::null_abbreviation_at(s) is Ok || abbrev::abbreviation_at(s) is Err,
    ensures
        abbrev::more_abbreviations_at(known, s) matches Ok((_, n)) ==> n <= s.len()
            && is_abbreviation_list(s.take(n as int), Seq::empty()),
{
    reveal(is_abbreviation_list);
    leb::law_parsed_leb_is_encoded(s);
}

proof fn lemma_parsed_one_abbreviation(
    known: Map<u64, AbbreviationView>,
    s: Seq<u8>,
    abbrev: AbbreviationView,
    k: int,
    abbrevs: Seq<AbbreviationView>,
)
    requires
        0 <= k <= s.len(),
        is_abbreviation(s.take(k), abbrev),
        abbrev::more_abbreviations_at(
            known.insert(abbrev.code, abbrev),
            s.skip(k),
        ) matches Ok((_, m)) ==> m <= s.len() - k && is_abbreviation_list(
            s.skip(k).take(m as int),
            abbrevs,
        ),
    ensures
        abbrev::more_abbreviations_at(known, s) matches Ok((_, n)) ==> n <= s.len()
            && is_abbreviation_list(s.take(n as int), seq![abbrev] + abbrevs),
{
    let first = s.take(k);
    let rest = s.skip(k);
    let more = known.insert(abbrev.code, abbrev);
    assert(first + rest == s);
    lemma_abbreviations_step(known, first, abbrev, rest);
    if let Ok((_, m)) = abbrev::more_abbreviations_at(more, rest) {
        lemma_prepend_abbreviation(first, abbrev, rest.take(m as int), abbrevs);
        assert(first + rest.take(m as int) == s.take((k + m) as int));
    }
}

proof fn lemma_parsed_more_abbreviations(known: Map<u64, AbbreviationView>, s: Seq<u8>) -> (abbrevs:
    Seq<AbbreviationView>)
    ensures
        abbrev::more_abbreviations_at(known, s) matches Ok((_, n)) ==> n <= s.len()
            && is_abbreviation_list(s.take(n as int), abbrevs),
    decreases s.len(),
{
    let outcome = abbrev::abbreviation_at(s);
    if abbrev::null_abbreviation_at(s) is Ok || outcome is Err {
        lemma_parsed_no_abbreviation(known, s);
        Seq::empty()
    } else {
        let (abbrev, k) = outcome->Ok_0;
        law_parsed_abbreviation_is_laid_out(s);
        abbrev::law_abbreviation_bound(s);
        let more = known.insert(abbrev.code, abbrev);
        let abbrevs = lemma_parsed_more_abbreviations(more, s.skip(k as int));
        lemma_parsed_one_abbreviation(known, s, abbrev, k as int, abbrevs);
        seq![abbrev] + abbrevs
    }
}

/// A set of abbreviations that is parsed holds those of the list that the input
/// starts with, no two of which have the same code.
pub proof fn law_parsed_abbreviations_are_laid_out(s: Seq<u8>)
    ensures
        abbrev::abbreviations_at(s) matches Ok((set, n)) ==> n <= s.len() && exists|
            abbrevs: Seq<AbbreviationView>,
        | #[trigger]
            is_abbreviation_list(s.take(n as int), abbrevs) && have_unique_codes(abbrevs)
                && holds_just(set, Map::empty(), abbrevs),
{
    let abbrevs = lemma_parsed_more_abbreviations(Map::empty(), s);
    if let Ok((_, n)) = abbrev::abbreviations_at(s) {
        law_parse_abbreviations(s.take(n as int), abbrevs, s.skip(n as int));
        assert(s.take(n as int) + s.skip(n as int) == s);
    }
}

/// A list of abbreviations in which one cannot be parsed, and which has not ended
/// before that one, cannot be parsed for the same reason.
pub proof fn law_bad_abbreviations(
    known: Map<u64, AbbreviationView>,
    first: Seq<u8>,
    abbrev: AbbreviationView,
    s: Seq<u8>,
)
    ensures
        abbrev::null_abbreviation_at(s) is Err ==> (abbrev::abbreviation_at(s) matches Err(e)
            ==> abbrev::more_abbreviations_at(known, s) == Err::<
            (Map<u64, AbbreviationView>, nat),
            Error,
        >(e)),
        is_abbreviation(first, abbrev) && !known.contains_key(abbrev.code) ==> (
        abbrev::more_abbreviations_at(known.insert(abbrev.code, abbrev), s) matches Err(e)
            ==> abbrev::more_abbreviations_at(known, first + s) == Err::<
            (Map<u64, AbbreviationView>, nat),
            Error,
        >(e)),
        abbrev::abbreviations_at(s) == abbrev::more_abbreviations_at(Map::empty(), s),
{
    if is_abbreviation(first, abbrev) {
        lemma_abbreviations_step(known, first, abbrev, s);
    }
}

/// The number of bytes of an attribute of each form, in a unit with the given
/// address size and format. Forms of which that is not said do not tell.
pub open spec fn size_of_form(form: u64, address_size: u8, format: Format) -> Option<nat> {
    if form == 0x01 {
        Some(address_size as nat)
    } else if form == 0x19 {
        Some(0)
    } else if form == 0x0b || form == 0x0c || form == 0x11 {
        Some(1)
    } else if form == 0x05 || form == 0x12 {
        Some(2)
    } else if form == 0x06 || form == 0x13 {
        Some(4)
    } else if form == 0x07 || form == 0x14 || form == 0x20 {
        Some(8)
    } else if form == 0x0e || form == 0x10 || form == 0x17 {
        if format == Format::Dwarf32 {
            Some(4)
        } else {
            Some(8)
        }
    } else {
        None
    }
}

/// Which forms tell the size of an attribute, and which size.
pub proof fn law_form_sizes(form: DwForm, address_size: u8, format: Format)
    ensures
        abbrev::form_size(form, address_size, format) == size_of_form(form.0, address_size, format),
{
}

} // verus!
