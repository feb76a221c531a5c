//! How entries are laid out in bytes, and that a cursor finds what is laid out so.
use crate::attribute::{AttributeValueView, Encoding};
use crate::cursor;
use crate::cursor::CursorView;
use crate::endianity::Endianity;
use crate::entry;
use crate::entry::{DebuggingInformationEntry, EntryView};
use crate::error::Error;
use crate::leb;
use crate::tree;
use crate::tree::Place;
use crate::value_layout;
use vstd::prelude::*;

verus! {

/// An entry's view is what its fields are.
pub proof fn law_entry_view<Endian: Endianity>(current: DebuggingInformationEntry<Endian>)
    ensures
        current@.attrs == current.attrs_slice@,
        current@.code == current.code,
        current@.abbrev == current.abbrev@,
        current@.unit == current.unit@,
{
}

/// An entry's values are encoded as its unit's header and the byte order say, what
/// comes after them follows from that, and its abbreviation says whether it has
/// children.
pub proof fn law_entry_says(current: EntryView, big_endian: bool)
    ensures
        current.encoding(big_endian) == (Encoding {
            big_endian,
            address_size: current.unit.address_size,
            format: current.unit.format,
        }),
        current.after_attrs(big_endian) == entry::after_attributes(
            (Encoding {
                big_endian,
                address_size: current.unit.address_size,
                format: current.unit.format,
            }),
            current.abbrev.attributes,
            current.attrs,
        ),
        current.has_children() <==> current.abbrev.has_children.0 == 1,
{
}

/// How the values of the entries that a cursor goes through are encoded.
pub open spec fn encoding_of(at: CursorView) -> Encoding {
    Encoding {
        big_endian: at.big_endian,
        address_size: at.unit.address_size,
        format: at.unit.format,
    }
}

/// Whether the abbreviation with the given code says that entries have children.
pub open spec fn says_children(at: CursorView, code: u64) -> bool {
    at.abbreviations[code].has_children.0 == 1
}

/// The current entry is the one whose code comes first, in LEB128, and its
/// attributes are what follows the whole code. Zero stands for no entry, and a
/// code without an abbreviation is an error.
pub proof fn law_current_entry(at: CursorView, code_bytes: Seq<u8>, code: u64, t: Seq<u8>)
    requires
        leb::is_u64_leb(code_bytes, code),
        at.input == code_bytes + t,
    ensures
        code == 0 ==> at.entry() is None,
        code != 0 && at.abbreviations.contains_key(code) ==> at.entry() == Some(
            Ok::<EntryView, Error>(
                EntryView { attrs: t, code, abbrev: at.abbreviations[code], unit: at.unit },
            ),
        ),
        code != 0 && !at.abbreviations.contains_key(code) ==> at.entry() == Some(
            Err::<EntryView, Error>(Error::UnknownAbbreviation),
        ),
{
    leb::law_parse_unsigned_leb(code_bytes, code as nat, t);
    assert(at.input.skip(code_bytes.len() as int) == t);
}

/// At the end of the input there is no entry. Where no code can be parsed, the
/// current entry is an error for the same reason.
pub proof fn law_no_current_entry(at: CursorView)
    ensures
        at.input.len() == 0 ==> at.entry() is None,
        at.input.len() > 0 ==> (leb::unsigned_leb(at.input) matches Err(e) ==> at.entry() == Some(
            Err::<EntryView, Error>(e),
        )),
{
}

/// As many null bytes as `count` says.
pub open spec fn nulls(count: nat) -> Seq<u8> {
    Seq::new(count, |i: int| 0u8)
}

proof fn lemma_null_run(count: nat, t: Seq<u8>)
    requires
        t.len() > 0 ==> t[0] != 0,
    ensures
        cursor::null_run(nulls(count) + t) == count,
        cursor::past_nulls(nulls(count) + t) == t,
    decreases count,
{
    let s = nulls(count) + t;
    if count > 0 {
        lemma_null_run((count - 1) as nat, t);
        assert(s.drop_first() == nulls((count - 1) as nat) + t);
    } else {
        assert(s == t);
    }
    assert(s.skip(count as int) == t);
}

/// What follows an entry's code is its attributes, in the encoding that the unit
/// says, and then what is after them. It is one level deeper just if the entry's
/// abbreviation says that it has children.
pub proof fn law_after_entry(at: CursorView, code_bytes: Seq<u8>, code: u64, t: Seq<u8>)
    requires
        leb::is_u64_leb(code_bytes, code),
        at.input == code_bytes + t,
        code != 0,
        at.abbreviations.contains_key(code),
    ensures
        at.has_entry(),
        at.after_attrs() == entry::after_attributes(
            encoding_of(at),
            at.abbreviations[code].attributes,
            t,
        ),
        at.child_depth() == if says_children(at, code) {
            1int
        } else {
            0
        },
{
    law_current_entry(at, code_bytes, code, t);
}

/// An entry whose attributes can all be parsed is followed by what comes after
/// their values.
pub proof fn law_after_values(
    at: CursorView,
    code_bytes: Seq<u8>,
    code: u64,
    attr_bytes: Seq<u8>,
    values: Seq<AttributeValueView>,
    t: Seq<u8>,
)
    requires
        leb::is_u64_leb(code_bytes, code),
        at.input == code_bytes + attr_bytes + t,
        code != 0,
        at.abbreviations.contains_key(code),
        value_layout::are_values(
            encoding_of(at),
            at.abbreviations[code].attributes,
            attr_bytes,
            values,
        ),
    ensures
        at.has_entry(),
        at.after_attrs() == t,
        at.child_depth() == if says_children(at, code) {
            1int
        } else {
            0
        },
{
    let attrs = at.abbreviations[code].attributes;
    assert(at.input == code_bytes + (attr_bytes + t));
    law_after_entry(at, code_bytes, code, attr_bytes + t);
    value_layout::law_parse_attributes(
        encoding_of(at),
        attrs,
        attr_bytes,
        values,
        Seq::empty(),
        t,
    );
    assert(attrs + Seq::empty() == attrs);
}

/// Moving on in depth first order goes over the null bytes that follow an entry,
/// each of which ends a list of children and so leads one level up. Without an
/// entry, the cursor stays where it is.
pub proof fn law_next_dfs(at: CursorView, count: nat, t: Seq<u8>)
    requires
        t.len() > 0 ==> t[0] != 0,
    ensures
        at.has_entry() && at.after_attrs() == nulls(count) + t ==> {
            &&& at.next_dfs() == at.at(t)
            &&& at.dfs_delta() == if t.len() > 0 {
                Some(at.child_depth() - count)
            } else {
                None
            }
        },
        !at.has_entry() ==> at.next_dfs() == at && at.dfs_delta() is None,
{
    lemma_null_run(count, t);
}

/// The next sibling of an entry is the first place, in depth first order after
/// the entry, that is not deeper than it, unless that place is less deep. If there
/// is no such place, the cursor is exhausted.
pub proof fn law_next_sibling_is_first_not_deeper(at: CursorView, i: int)
    requires
        0 < i <= tree::dfs_places(at, 0).len(),
        forall|j: int| 0 < j < i ==> (#[trigger] tree::dfs_places(at, 0)[j]).depth > 0,
        i < tree::dfs_places(at, 0).len() ==> tree::dfs_places(at, 0)[i].depth <= 0,
    ensures
        at.next_sibling() == at.at(
            if i < tree::dfs_places(at, 0).len() && tree::dfs_places(at, 0)[i].depth == 0 {
                tree::dfs_places(at, 0)[i].input
            } else {
                Seq::empty()
            },
        ),
{
    lemma_scan_places(at, 0, i);
}

proof fn lemma_scan_places(at: CursorView, depth: int, i: int)
    requires
        0 < i <= tree::dfs_places(at, depth).len(),
        forall|j: int| 0 < j < i ==> (#[trigger] tree::dfs_places(at, depth)[j]).depth > 0,
        i < tree::dfs_places(at, depth).len() ==> tree::dfs_places(at, depth)[i].depth <= 0,
    ensures
        at.scan_for_sibling(depth) == at.at(
            if i < tree::dfs_places(at, depth).len() && tree::dfs_places(at, depth)[i].depth == 0 {
                tree::dfs_places(at, depth)[i].input
            } else {
                Seq::empty()
            },
        ),
    decreases at.input.len(),
{
    cursor::law_dfs_progress(at);
    if let Some(delta) = at.dfs_delta() {
        let places = tree::dfs_places(at, depth);
        let next = at.next_dfs();
        let rest = tree::dfs_places(next, depth + delta);
        assert(places == seq![places[0]] + rest);
        assert(rest[0] == (Place { input: next.input, depth: depth + delta }));
        assert(places[1] == rest[0]);
        assert(next.at(next.input) == next);
        if i > 1 {
            assert(places[1].depth > 0);
            assert forall|j: int| 0 < j < i - 1 implies (#[trigger] rest[j]).depth > 0 by {
                assert(places[j + 1].depth > 0);
            }
            lemma_scan_places(next, depth + delta, i - 1);
            if i < places.len() {
                assert(places[i] == rest[i - 1]);
            }
        }
    }
}

/// A list of siblings, with everything below them.
pub enum Siblings {
    /// The end of the list.
    End,
    /// An entry, and the siblings after it.
    Entry {
        code: u64,
        code_bytes: Seq<u8>,
        values: Seq<AttributeValueView>,
        attr_bytes: Seq<u8>,
        /// The entry's children, if its abbreviation says that it has any.
        below: Box<Siblings>,
        next: Box<Siblings>,
    },
}

/// The bytes of a list of siblings: each entry's code and the values of its
/// attributes, and then, if its abbreviation says that it has children, their
/// list. A null byte ends a list.
pub open spec fn list_bytes(at: CursorView, list: Siblings) -> Seq<u8>
    decreases list,
{
    match list {
        Siblings::End => seq![0u8],
        Siblings::Entry { code, code_bytes, attr_bytes, below, next, .. } => {
            let children = if says_children(at, code) {
                list_bytes(at, *below)
            } else {
                Seq::empty()
            };
            code_bytes + attr_bytes + (children + list_bytes(at, *next))
        },
    }
}

/// The bytes of the list of an entry's children, if there is one.
pub open spec fn children_bytes(at: CursorView, code: u64, below: Siblings) -> Seq<u8> {
    if says_children(at, code) {
        list_bytes(at, below)
    } else {
        Seq::empty()
    }
}

/// Whether every entry of a list and below it has a known code, and the values
/// that its abbreviation describes.
pub open spec fn is_list(at: CursorView, list: Siblings) -> bool
    decreases list,
{
    match list {
        Siblings::End => true,
        Siblings::Entry { code, code_bytes, values, attr_bytes, below, next } => {
            &&& code != 0
            &&& leb::is_u64_leb(code_bytes, code)
            &&& at.abbreviations.contains_key(code)
            &&& value_layout::are_values(
                encoding_of(at),
                at.abbreviations[code].attributes,
                attr_bytes,
                values,
            )
            &&& is_list(at, *below)
            &&& is_list(at, *next)
        },
    }
}

/// The entry that a list starts with can be parsed, and is followed by its children,
/// if it has any, and its siblings.
proof fn lemma_list_entry(at: CursorView, list: Siblings, t: Seq<u8>)
    requires
        is_list(at, list),
        list is Entry,
    ensures
        ({
            let here = at.at(list_bytes(at, list) + t);
            let code = list->code;
            &&& here.has_entry()
            &&& here.after_attrs() == children_bytes(at, code, *list->below) + (list_bytes(
                at,
                *list->next,
            ) + t)
            &&& here.child_depth() == if says_children(at, code) {
                1int
            } else {
                0
            }
            &&& here.input.len() > 0
            &&& here.input[0] != 0
        }),
{
    let here = at.at(list_bytes(at, list) + t);
    let code = list->code;
    let children = children_bytes(at, code, *list->below);
    let siblings = list_bytes(at, *list->next);
    let rest = children + (siblings + t);
    assert(list->code_bytes + list->attr_bytes + (children + siblings) + t == list->code_bytes
        + list->attr_bytes + rest);
    law_after_values(here, list->code_bytes, code, list->attr_bytes, list->values, rest);
    tree::law_entry_is_not_null(here);
}

/// A list of siblings, whatever comes after its end, is followed by just that;
/// and an entry, with everything below it, is followed by the siblings after it.
pub proof fn law_after_list(at: CursorView, list: Siblings, t: Seq<u8>)
    requires
        is_list(at, list),
    ensures
        tree::after_siblings(at.at(list_bytes(at, list) + t)) == Some(t),
        list is Entry ==> tree::after_tree(at.at(list_bytes(at, list) + t)) == Some(
            list_bytes(at, *list->next) + t,
        ),
    decreases list,
{
    let here = at.at(list_bytes(at, list) + t);
    match list {
        Siblings::End => {
            assert(here.input.drop_first() == t);
        },
        Siblings::Entry { code, below, next, .. } => {
            let rest = list_bytes(at, *next) + t;
            lemma_list_entry(at, list, t);
            law_after_list(at, *below, rest);
            law_after_list(at, *next, t);
            assert(here.at(here.after_attrs()) == at.at(here.after_attrs()));
            if !says_children(at, code) {
                assert(Seq::<u8>::empty() + rest == rest);
            }
            assert(tree::after_tree(here) == Some(rest));
            tree::law_tree_bound(here);
            assert(here.at(rest) == at.at(rest));
        },
    }
}

/// From an entry, a cursor moves to the entry's next sibling, over everything
/// below the entry. From the last entry of a list, it moves to the end.
pub proof fn law_next_sibling_in_list(at: CursorView, list: Siblings, t: Seq<u8>)
    requires
        is_list(at, list),
        list is Entry,
    ensures
        at.at(list_bytes(at, list) + t).next_sibling() == at.at(
            if *list->next is Entry {
                list_bytes(at, *list->next) + t
            } else {
                Seq::empty()
            },
        ),
{
    let here = at.at(list_bytes(at, list) + t);
    let next = *list->next;
    let rest = list_bytes(at, next) + t;
    law_after_list(at, list, t);
    tree::law_next_sibling_skips_tree(here);
    if next is Entry {
        lemma_list_entry(at, next, t);
    } else {
        assert(rest[0] == 0);
    }
    assert(here.at(rest) == at.at(rest));
    assert(here.at(Seq::empty()) == at.at(Seq::empty()));
}

/// From an entry that has children, moving on in depth first order comes to the
/// first of them, one level down. From one that has none, it comes to the next
/// sibling, on the same level.
pub proof fn law_next_dfs_in_list(at: CursorView, list: Siblings, t: Seq<u8>)
    requires
        is_list(at, list),
        list is Entry,
    ensures
        ({
            let here = at.at(list_bytes(at, list) + t);
            let rest = list_bytes(at, *list->next) + t;
            let with_list = says_children(at, list->code);
            &&& with_list && *list->below is Entry ==> {
                &&& here.next_dfs() == at.at(list_bytes(at, *list->below) + rest)
                &&& here.dfs_delta() == Some(1int)
            }
            &&& (!with_list || *list->below is End) && *list->next is Entry ==> {
                &&& here.next_dfs() == at.at(rest)
                &&& here.dfs_delta() == Some(0int)
            }
        }),
{
    let here = at.at(list_bytes(at, list) + t);
    let rest = list_bytes(at, *list->next) + t;
    let with_list = says_children(at, list->code);
    lemma_list_entry(at, list, t);
    if with_list && *list->below is Entry {
        let inner = list_bytes(at, *list->below) + rest;
        lemma_list_entry(at, *list->below, rest);
        assert(nulls(0) + inner == inner);
        law_next_dfs(here, 0, inner);
        assert(here.at(inner) == at.at(inner));
    } else if *list->next is Entry {
        lemma_list_entry(at, *list->next, t);
        let count: nat = if with_list {
            1
        } else {
            0
        };
        assert(nulls(count) + rest == children_bytes(at, list->code, *list->below) + rest);
        law_next_dfs(here, count, rest);
        assert(here.at(rest) == at.at(rest));
    }
}

/// The places of the entries of a list and of everything below them, parents
/// before their children and siblings in order, if `t` comes after the list.
pub open spec fn list_places(at: CursorView, list: Siblings, t: Seq<u8>, depth: int) -> Seq<Place>
    decreases list,
{
    match list {
        Siblings::End => Seq::empty(),
        Siblings::Entry { code, below, next, .. } => {
            let rest = list_bytes(at, *next) + t;
            let inner = if says_children(at, code) {
                list_places(at, *below, rest, depth + 1)
            } else {
                Seq::empty()
            };
            seq![Place { input: list_bytes(at, list) + t, depth }] + inner + list_places(
                at,
                *next,
                t,
                depth,
            )
        },
    }
}

proof fn lemma_list_places(at: CursorView, list: Siblings, t: Seq<u8>, depth: int)
    requires
        is_list(at, list),
    ensures
        tree::sibling_places(at.at(list_bytes(at, list) + t), depth) == list_places(
            at,
            list,
            t,
            depth,
        ),
        list is Entry ==> tree::tree_places(at.at(list_bytes(at, list) + t), depth) + list_places(
            at,
            *list->next,
            t,
            depth,
        ) == list_places(at, list, t, depth),
    decreases list,
{
    let here = at.at(list_bytes(at, list) + t);
    match list {
        Siblings::End => {},
        Siblings::Entry { code, below, next, .. } => {
            let rest = list_bytes(at, *next) + t;
            let inner = list_places(at, *below, rest, depth + 1);
            let after = list_places(at, *next, t, depth);
            let place = seq![Place { input: here.input, depth }];
            lemma_list_entry(at, list, t);
            law_after_list(at, list, t);
            tree::law_tree_bound(here);
            lemma_list_places(at, *below, rest, depth + 1);
            lemma_list_places(at, *next, t, depth);
            assert(here.at(here.after_attrs()) == at.at(here.after_attrs()));
            assert(here.at(rest) == at.at(rest));
            if says_children(at, code) {
                assert(tree::tree_places(here, depth) == place + inner);
            } else {
                assert(tree::tree_places(here, depth) == place);
                assert(place + Seq::<Place>::empty() == place);
            }
            assert(tree::sibling_places(here, depth) == tree::tree_places(here, depth) + after);
        },
    }
}

/// Moving on in depth first order from the last entry of a list that nothing but
/// null bytes follows comes to every entry below it, each once, parents before
/// their children and siblings in order; and the deltas add up to how deep each
/// of them is. If more follows, it comes to those first.
pub proof fn law_dfs_visits_list(at: CursorView, list: Siblings, t: Seq<u8>, depth: int)
    requires
        is_list(at, list),
        list is Entry,
        *list->next is End,
    ensures
        list_places(at, list, t, depth).is_prefix_of(
            tree::dfs_places(at.at(list_bytes(at, list) + t), depth),
        ),
        cursor::past_nulls(t).len() == 0 ==> tree::dfs_places(
            at.at(list_bytes(at, list) + t),
            depth,
        ) == list_places(at, list, t, depth),
{
    let here = at.at(list_bytes(at, list) + t);
    law_after_list(at, list, t);
    lemma_list_places(at, list, t, depth);
    tree::law_dfs_visits_tree(here, depth);
    let rest = list_bytes(at, *list->next) + t;
    assert(list_places(at, *list->next, t, depth) == Seq::<Place>::empty());
    assert(tree::tree_places(here, depth) + Seq::<Place>::empty() == tree::tree_places(
        here,
        depth,
    ));
    assert(rest.drop_first() == t);
    assert(cursor::past_nulls(rest) == cursor::past_nulls(t)) by {
        cursor::law_null_run(t);
        assert(rest.skip(1) == t);
        assert(rest.skip(1 + cursor::null_run(t) as int) == t.skip(cursor::null_run(t) as int));
    }
}

} // verus!
