//! Moving through the tree of entries of a unit.
use crate::abbrev::{AbbreviationView, Abbreviations, AttributeSpecification};
use crate::attribute;
use crate::attribute::Encoding;
use crate::endianity::Endianity;
use crate::entry;
use crate::entry::{DebuggingInformationEntry, EntryView};
use crate::error::{Error, ParseResult};
use crate::leb;
use crate::unit::{UnitHeader, UnitHeaderView};
use vstd::prelude::*;
use vstd::slice::slice_subrange;

verus! {

broadcast use {vstd::seq_lib::lemma_seq_skip_of_skip, vstd::seq_lib::lemma_seq_skip_nothing};

/// Where a cursor is.
#[verifier::ext_equal]
pub struct CursorView {
    /// The bytes of the unit's entries from the current one on.
    pub input: Seq<u8>,
    pub unit: UnitHeaderView,
    pub abbreviations: Map<u64, AbbreviationView>,
    pub big_endian: bool,
}

impl CursorView {
    /// The same cursor elsewhere.
    pub open spec fn at(self, input: Seq<u8>) -> CursorView {
        CursorView { input, ..self }
    }

    /// The entry that the cursor is pointing to. There is none at the end of the
    /// input and at a null entry.
    pub open spec fn entry(self) -> Option<Result<EntryView, Error>> {
        if self.input.len() == 0 {
            None
        } else {
            match leb::unsigned_leb(self.input) {
                Err(e) => Some(Err(e)),
                Ok((code, n)) => if code == 0 {
                    None
                } else if self.abbreviations.contains_key(code) {
                    Some(
                        Ok(
                            EntryView {
                                attrs: self.input.skip(n as int),
                                code,
                                abbrev: self.abbreviations[code],
                                unit: self.unit,
                            },
                        ),
                    )
                } else {
                    Some(Err(Error::UnknownAbbreviation))
                },
            }
        }
    }

    /// Whether the cursor is pointing to an entry that can be parsed.
    pub open spec fn has_entry(self) -> bool {
        self.entry() matches Some(Ok(_))
    }

    /// What is left after the current entry's attributes.
    pub open spec fn after_attrs(self) -> Seq<u8> {
        self.entry()->Some_0->Ok_0.after_attrs(self.big_endian)
    }

    /// By how much the current entry's children are deeper than what follows its
    /// attributes would be without them: by one if it has children.
    pub open spec fn child_depth(self) -> int {
        if self.entry()->Some_0->Ok_0.has_children() {
            1
        } else {
            0
        }
    }

    /// The cursor at the next entry in depth first order, which is past all null
    /// entries that follow the current entry's attributes.
    pub open spec fn next_dfs(self) -> CursorView {
        if self.has_entry() {
            self.at(past_nulls(self.after_attrs()))
        } else {
            self
        }
    }

    /// By how much the next entry in depth first order, if there is one, is
    /// deeper than the current one.
    pub open spec fn dfs_delta(self) -> Option<int> {
        if self.has_entry() && self.next_dfs().input.len() > 0 {
            Some(self.child_depth() - null_run(self.after_attrs()))
        } else {
            None
        }
    }

    /// The cursor at the first entry in depth first order, after the current one,
    /// that is not deeper than the entry which the current one is `depth` below;
    /// at the end if that entry is less deep, or if there is none.
    pub open spec fn scan_for_sibling(self, depth: int) -> CursorView
        decreases self.input.len(),
    {
        match self.dfs_delta() {
            Some(delta) => if depth + delta == 0 {
                self.next_dfs()
            } else if depth + delta < 0 {
                self.at(Seq::empty())
            } else {
                proof {
                    law_dfs_progress(self);
                }
                self.next_dfs().scan_for_sibling(depth + delta)
            },
            None => self.at(Seq::empty()),
        }
    }

    /// The cursor at the current entry's next sibling, or at the end if there is
    /// none.
    pub open spec fn next_sibling(self) -> CursorView {
        self.scan_for_sibling(0)
    }
}

/// The number of null bytes that `s` starts with.
pub open spec fn null_run(s: Seq<u8>) -> nat
    decreases s.len(),
{
    if s.len() > 0 && s.first() == 0 {
        1 + null_run(s.drop_first())
    } else {
        0
    }
}

/// What is left of `s` after the null bytes that it starts with.
pub open spec fn past_nulls(s: Seq<u8>) -> Seq<u8> {
    s.skip(null_run(s) as int)
}

/// There are no more null bytes at the start of `s` than bytes, and what is left
/// after them does not start with another.
pub proof fn law_null_run(s: Seq<u8>)
    ensures
        null_run(s) <= s.len(),
        past_nulls(s).len() > 0 ==> past_nulls(s).first() != 0,
    decreases s.len(),
{
    if s.len() > 0 && s.first() == 0 {
        law_null_run(s.drop_first());
        assert(past_nulls(s) == past_nulls(s.drop_first()));
    }
}

/// What is left after an entry's attributes is not longer than what the
/// attributes are read from.
pub proof fn law_after_attributes_bound(
    encoding: Encoding,
    attrs: Seq<AttributeSpecification>,
    s: Seq<u8>,
)
    ensures
        entry::after_attributes(encoding, attrs, s).len() <= s.len(),
    decreases attrs.len(),
{
    if attrs.len() > 0 {
        attribute::law_value_bound(encoding, attrs.first().form, s);
        if let Ok((_, n)) = attribute::attribute_at(encoding, attrs.first(), s) {
            law_after_attributes_bound(encoding, attrs.drop_first(), s.skip(n as int));
        }
    }
}

/// From an entry, moving on in depth first order leaves less input, which is
/// empty or starts with a byte that is not null; and the next entry is at most
/// one level deeper.
pub proof fn law_dfs_progress(cursor: CursorView)
    ensures
        cursor.has_entry() ==> {
            &&& cursor.next_dfs().input.len() <= cursor.after_attrs().len() < cursor.input.len()
            &&& cursor.next_dfs().input.len() > 0 ==> cursor.next_dfs().input.first() != 0
        },
        cursor.dfs_delta() matches Some(delta) ==> {
            &&& cursor.has_entry()
            &&& -cursor.input.len() < delta <= 1
        },
{
    if cursor.has_entry() {
        let entry = cursor.entry()->Some_0->Ok_0;
        leb::law_leb_len_bound(cursor.input);
        law_after_attributes_bound(
            entry.encoding(cursor.big_endian),
            entry.abbrev.attributes,
            entry.attrs,
        );
        law_null_run(cursor.after_attrs());
    }
}

/// A cursor into the Debugging Information Entries tree for a compilation unit.
///
/// The `EntriesCursor` can traverse the DIE tree in either DFS order, or skip
/// to the next sibling of the entry the cursor is currently pointing to.
#[derive(Debug)]
pub struct EntriesCursor<'input, 'abbrev, 'unit, Endian> where
    'input: 'unit,
    Endian: Endianity + 'unit,
 {
    input: &'input [u8],
    unit: &'unit UnitHeader<'input, Endian>,
    abbreviations: &'abbrev Abbreviations,
    cached_current: Option<DebuggingInformationEntry<'input, 'abbrev, 'unit, Endian>>,
}

impl<'input, 'abbrev, 'unit, Endian> View for EntriesCursor<'input, 'abbrev, 'unit, Endian> where
    Endian: Endianity,
 {
    type V = CursorView;

    closed spec fn view(&self) -> CursorView {
        CursorView {
            input: self.input@,
            unit: self.unit@,
            abbreviations: self.abbreviations@,
            big_endian: Endian::is_big_endian(),
        }
    }
}

impl<'input, 'abbrev, 'unit, Endian> Clone for EntriesCursor<'input, 'abbrev, 'unit, Endian> where
    Endian: Endianity,
 {
    fn clone(&self) -> (res: Self)
        ensures
            res@ == self@,
    {
        proof {
            use_type_invariant(self);
        }
        EntriesCursor {
            input: self.input,
            unit: self.unit,
            abbreviations: self.abbreviations,
            cached_current: self.cached_current,
        }
    }
}

impl<'input, Endian> UnitHeader<'input, Endian> where Endian: Endianity {
    /// Navigate this compilation unit's `DebuggingInformationEntry`s.
    pub fn entries<'me, 'abbrev>(&'me self, abbreviations: &'abbrev Abbreviations) -> (res:
        EntriesCursor<'input, 'abbrev, 'me, Endian>)
        ensures
            res@ == (CursorView {
                input: self@.entries,
                unit: self@,
                abbreviations: abbreviations@,
                big_endian: Endian::is_big_endian(),
            }),
    {
        EntriesCursor {
            input: self.entries_bytes(),
            unit: self,
            abbreviations,
            cached_current: None,
        }
    }
}

/// The bytes that come after the entry's attributes.
fn bytes_after_attrs<'input, 'abbrev, 'unit, Endian>(
    current: &DebuggingInformationEntry<'input, 'abbrev, 'unit, Endian>,
) -> (res: &'input [u8]) where Endian: Endianity
    ensures
        res@ == current@.after_attrs(Endian::is_big_endian()),
{
    let mut attrs = current.attrs();
    loop
        invariant_except_break
            entry::after_attributes(attrs@.encoding, attrs@.attributes, attrs@.input)
                == current@.after_attrs(Endian::is_big_endian()),
        ensures
            attrs@.after_attrs == Some(current@.after_attrs(Endian::is_big_endian())),
        decreases attrs@.attributes.len(),
    {
        if attrs.next().is_none() {
            break;
        }
    }
    attrs.after_attrs().unwrap()
}

impl<'input, 'abbrev, 'unit, Endian> EntriesCursor<'input, 'abbrev, 'unit, Endian> where
    Endian: Endianity,
 {
    /// A cached entry is the one that the cursor is pointing to.
    #[verifier::type_invariant]
    spec fn cache_is_current(self) -> bool {
        self.cached_current matches Some(entry) ==> self@.entry() == Some(
            Ok::<EntryView, Error>(entry@),
        )
    }

    /// Get the entry that the cursor is currently pointing to.
    pub fn current<'me>(&'me mut self) -> (res: Option<
        ParseResult<DebuggingInformationEntry<'input, 'abbrev, 'unit, Endian>>,
    >)
        ensures
            final(self)@ == old(self)@,
            match old(self)@.entry() {
                Some(Ok(expected)) => res matches Some(Ok(entry)) && entry@ == expected,
                Some(Err(e)) => res matches Some(Err(f)) && f == e,
                None => res is None,
            },
    {
        proof {
            use_type_invariant(&*self);
        }
        // First, check for a cached result.
        if let Some(cached) = self.cached_current {
            return Some(Ok(cached));
        }
        if self.input.len() == 0 {
            return None;
        }
        match leb::parse_unsigned_leb(self.input) {
            Err(e) => Some(Err(e)),
            Ok((rest, code)) => {
                // Null abbreviation is the lack of an entry.
                if code == 0 {
                    return None;
                }
                match self.abbreviations.get(code) {
                    Some(abbrev) => {
                        let entry = DebuggingInformationEntry {
                            attrs_slice: rest,
                            code,
                            abbrev,
                            unit: self.unit,
                        };
                        self.cached_current = Some(entry);
                        Some(Ok(entry))
                    },
                    None => Some(Err(Error::UnknownAbbreviation)),
                }
            },
        }
    }

    /// Move the cursor to `input`.
    fn move_to(&mut self, input: &'input [u8])
        ensures
            final(self)@ == old(self)@.at(input@),
    {
        self.cached_current = None;
        self.input = input;
    }

    /// Move the cursor to the end, where there is no entry.
    fn exhaust(&mut self)
        ensures
            final(self)@ == old(self)@.at(Seq::empty()),
    {
        let empty: &'input [u8] = slice_subrange(self.input, 0, 0);
        self.move_to(empty);
        assert(self@.input =~= Seq::empty());
    }

    /// Move the cursor to the next entry in depth first order, and return by how
    /// much it is deeper. If there is no next entry, return `None`.
    fn advance(&mut self) -> (res: Option<i128>)
        ensures
            final(self)@ == old(self)@.next_dfs(),
            match old(self)@.dfs_delta() {
                Some(delta) => res matches Some(d) && d == delta,
                None => res is None,
            },
    {
        match self.current() {
            Some(Ok(current)) => {
                let after_attrs: &'input [u8] = bytes_after_attrs(&current);
                assert(after_attrs.len() <= usize::MAX);
                let mut input: &'input [u8] = after_attrs;
                let has_children: i128 = if current.abbrev.has_children() {
                    1
                } else {
                    0
                };
                let mut delta_depth: i128 = has_children;

                // Keep eating null entries that mark the end of an entry's
                // children.
                let ghost mut nulls: nat = 0;
                while input.len() > 0 && input[0] == 0
                    invariant
                        after_attrs@.len() <= usize::MAX,
                        nulls <= after_attrs@.len(),
                        input@ == after_attrs@.skip(nulls as int),
                        null_run(after_attrs@) == nulls + null_run(input@),
                        0 <= has_children <= 1,
                        delta_depth == has_children - nulls,
                    decreases input@.len(),
                {
                    delta_depth -= 1;
                    proof {
                        nulls = nulls + 1;
                        assert(input@.drop_first() =~= input@.skip(1));
                    }
                    input = slice_subrange(input, 1, input.len());
                }
                self.move_to(input);
                if input.len() > 0 {
                    Some(delta_depth)
                } else {
                    None
                }
            },
            _ => None,
        }
    }

    /// Move the cursor to the next DIE in the tree in DFS order.
    ///
    /// Upon successful movement of the cursor, return the delta traversal
    /// depth:
    ///
    ///   * If we moved down into the previous current entry's children, we get
    ///     `Some(1)`.
    ///
    ///   * If we moved to the previous current entry's sibling, we get
    ///     `Some(0)`.
    ///
    ///   * If the previous entry does not have any siblings and we move up to
    ///     its parent's next sibling, then we get `Some(-1)`. Note that if the
    ///     parent doesn't have a next sibling, then it could go up to the
    ///     parent's parent's next sibling and return `Some(-2)`, etc.
    ///
    /// If there is no next entry, then `None` is returned.
    ///
    /// The delta fits unless the input has more than `isize::MAX` bytes, which no
    /// slice has.
    pub fn next_dfs(&mut self) -> (res: Option<isize>)
        ensures
            final(self)@ == old(self)@.next_dfs(),
            match old(self)@.dfs_delta() {
                Some(delta) => res matches Some(d) && d == delta as isize,
                None => res is None,
            },
    {
        proof {
            law_dfs_progress(self@);
        }
        match self.advance() {
            Some(delta_depth) => Some(#[verifier::truncate] (delta_depth as isize)),
            None => None,
        }
    }

    /// Move the cursor to the next sibling DIE of the current one.
    ///
    /// Returns `Some` when the cursor has been moved to the next sibling, `None`
    /// when there is no next sibling.
    ///
    /// After returning `None`, the cursor is exhausted.
    ///
    /// The next sibling is found by going over everything below the current
    /// entry. A `DW_AT_sibling` attribute is not believed, wherever it points.
    pub fn next_sibling(&mut self) -> (res: Option<()>)
        ensures
            final(self)@ == old(self)@.next_sibling(),
            res is Some <==> final(self)@.input.len() > 0,
    {
        let ghost start = self@;
        // Do a DFS until we get to the next sibling.

        assert(self.input.len() <= usize::MAX);
        let mut depth: i128 = 0;
        loop
            invariant
                start == old(self)@,
                0 <= depth,
                depth + self@.input.len() <= start.input.len() <= usize::MAX,
                self@.scan_for_sibling(depth as int) == start.next_sibling(),
                start.at(Seq::empty()) == self@.at(Seq::empty()),
            decreases self@.input.len(),
        {
            proof {
                law_dfs_progress(self@);
            }
            match self.advance() {
                Some(delta_depth) => {
                    depth += delta_depth;
                    if depth == 0 {
                        // We found the next sibling.
                        return Some(());
                    }
                    if depth < 0 {
                        // We moved up to the original entry's parent's (or
                        // parent's parent's, etc ...) siblings.
                        self.exhaust();
                        return None;
                    }
                },
                None => {
                    // No sibling found.
                    self.exhaust();
                    return None;
                },
            }
        }
    }
}

} // verus!
