//! The tree that a unit's entries form, and what moving a cursor through it
//! comes to.
//!
//! An entry that has children is followed by them, and they are followed by a
//! null byte.
use crate::cursor;
use crate::cursor::CursorView;
use crate::leb;
use vstd::prelude::*;

verus! {

broadcast use {vstd::seq_lib::lemma_seq_skip_of_skip, vstd::seq_lib::lemma_seq_skip_nothing};

/// What is left after the entry that the cursor is pointing to and everything
/// below it. `None` if that is not all there.
pub open spec fn after_tree(at: CursorView) -> Option<Seq<u8>>
    decreases at.input.len(), 1nat,
{
    if at.has_entry() {
        proof {
            cursor::law_dfs_progress(at);
        }
        if at.child_depth() == 1 {
            after_siblings(at.at(at.after_attrs()))
        } else {
            Some(at.after_attrs())
        }
    } else {
        None
    }
}

/// What is left after a list of siblings, everything below them, and the null
/// byte that ends the list. `None` if that is not all there.
pub open spec fn after_siblings(at: CursorView) -> Option<Seq<u8>>
    decreases at.input.len(), 2nat,
{
    if at.input.len() == 0 {
        None
    } else if at.input.first() == 0 {
        Some(at.input.drop_first())
    } else {
        match after_tree(at) {
            Some(rest) => if rest.len() < at.input.len() {
                after_siblings(at.at(rest))
            } else {
                None
            },
            None => None,
        }
    }
}

/// An entry with everything below it takes up at least one byte.
pub proof fn law_tree_bound(at: CursorView)
    ensures
        after_tree(at) matches Some(rest) ==> rest.len() < at.input.len(),
    decreases at.input.len(), 1nat,
{
    if at.has_entry() {
        cursor::law_dfs_progress(at);
        if at.child_depth() == 1 {
            law_siblings_bound(at.at(at.after_attrs()));
        }
    }
}

/// A list of siblings, with the null byte that ends it, takes up at least one
/// byte.
pub proof fn law_siblings_bound(at: CursorView)
    ensures
        after_siblings(at) matches Some(rest) ==> rest.len() < at.input.len(),
    decreases at.input.len(), 2nat,
{
    if at.input.len() > 0 && at.input.first() != 0 {
        law_tree_bound(at);
        if let Some(rest) = after_tree(at) {
            law_siblings_bound(at.at(rest));
        }
    }
}

/// An entry's place in the tree: the bytes from it on, and how deep it is.
#[verifier::ext_equal]
pub struct Place {
    pub input: Seq<u8>,
    pub depth: int,
}

/// The places of an entry at the given depth and of everything below it, parents
/// before their children, and siblings in order.
pub open spec fn tree_places(at: CursorView, depth: int) -> Seq<Place>
    decreases at.input.len(), 1nat,
{
    if at.has_entry() {
        proof {
            cursor::law_dfs_progress(at);
        }
        let place = Place { input: at.input, depth };
        if at.child_depth() == 1 {
            seq![place] + sibling_places(at.at(at.after_attrs()), depth + 1)
        } else {
            seq![place]
        }
    } else {
        Seq::empty()
    }
}

/// The places of a list of siblings at the given depth and of everything below
/// them.
pub open spec fn sibling_places(at: CursorView, depth: int) -> Seq<Place>
    decreases at.input.len(), 2nat,
{
    if at.input.len() == 0 || at.input.first() == 0 {
        Seq::empty()
    } else {
        match after_tree(at) {
            Some(rest) => if rest.len() < at.input.len() {
                tree_places(at, depth) + sibling_places(at.at(rest), depth)
            } else {
                Seq::empty()
            },
            None => Seq::empty(),
        }
    }
}

/// The places that a cursor comes to when it moves on in depth first order until
/// there is no next entry, with the depths that the deltas add up to.
pub open spec fn dfs_places(at: CursorView, depth: int) -> Seq<Place>
    decreases at.input.len(),
{
    let place = Place { input: at.input, depth };
    match at.dfs_delta() {
        Some(delta) => {
            proof {
                cursor::law_dfs_progress(at);
            }
            seq![place] + dfs_places(at.next_dfs(), depth + delta)
        },
        None => seq![place],
    }
}

/// The places from the next entry in `at` on, which may be after null bytes that
/// each end a list of siblings.
spec fn dfs_places_past_nulls(at: CursorView, depth: int) -> Seq<Place> {
    let rest = cursor::past_nulls(at.input);
    if rest.len() > 0 {
        dfs_places(at.at(rest), depth - cursor::null_run(at.input))
    } else {
        Seq::empty()
    }
}

proof fn lemma_skip_null(s: Seq<u8>)
    requires
        s.len() > 0,
        s.first() == 0,
    ensures
        cursor::past_nulls(s) == cursor::past_nulls(s.drop_first()),
        cursor::null_run(s) == 1 + cursor::null_run(s.drop_first()),
{
    cursor::law_null_run(s.drop_first());
    assert(s.drop_first() == s.skip(1));
}

proof fn lemma_entry_is_not_null(at: CursorView)
    requires
        at.has_entry(),
    ensures
        at.input.first() != 0,
{
    if at.input.first() == 0 {
        let start = at.input.take(1);
        assert(leb::leb_groups(start.drop_first()) == 0);
    }
}

/// No entry starts with a null byte.
pub proof fn law_entry_is_not_null(at: CursorView)
    requires
        at.has_entry(),
    ensures
        at.input.len() > 0,
        at.input.first() != 0,
{
    lemma_entry_is_not_null(at);
}

proof fn lemma_dfs_places_from_entry(at: CursorView, depth: int)
    requires
        at.has_entry(),
    ensures
        dfs_places_past_nulls(at, depth) == seq![Place { input: at.input, depth }]
            + dfs_places_past_nulls(at.at(at.after_attrs()), depth + at.child_depth()),
{
    cursor::law_dfs_progress(at);
    lemma_entry_is_not_null(at);
    assert(at.at(at.input) == at);
    let after = at.at(at.after_attrs());
    assert(after.at(cursor::past_nulls(after.input)) == at.next_dfs());
    if at.next_dfs().input.len() == 0 {
        assert(seq![Place { input: at.input, depth }] + Seq::<Place>::empty()
            == seq![Place { input: at.input, depth }]);
    }
}

proof fn lemma_dfs_places_tree(at: CursorView, depth: int)
    requires
        after_tree(at) is Some,
    ensures
        dfs_places_past_nulls(at, depth) == tree_places(at, depth) + dfs_places_past_nulls(
            at.at(after_tree(at)->Some_0),
            depth,
        ),
    decreases at.input.len(), 1nat,
{
    let rest = after_tree(at)->Some_0;
    let place = seq![Place { input: at.input, depth }];
    cursor::law_dfs_progress(at);
    lemma_dfs_places_from_entry(at, depth);
    if at.child_depth() == 1 {
        let children = at.at(at.after_attrs());
        lemma_dfs_places_siblings(children, depth + 1);
        assert(children.at(rest) == at.at(rest));
        assert(place + (sibling_places(children, depth + 1) + dfs_places_past_nulls(
            at.at(rest),
            depth,
        )) == (place + sibling_places(children, depth + 1)) + dfs_places_past_nulls(
            at.at(rest),
            depth,
        ));
    }
}

proof fn lemma_dfs_places_siblings(at: CursorView, depth: int)
    requires
        after_siblings(at) is Some,
    ensures
        dfs_places_past_nulls(at, depth) == sibling_places(at, depth) + dfs_places_past_nulls(
            at.at(after_siblings(at)->Some_0),
            depth - 1,
        ),
    decreases at.input.len(), 2nat,
{
    let end = after_siblings(at)->Some_0;
    let tail = dfs_places_past_nulls(at.at(end), depth - 1);
    if at.input.first() == 0 {
        lemma_skip_null(at.input);
        assert(Seq::<Place>::empty() + tail == tail);
    } else {
        let rest = after_tree(at)->Some_0;
        lemma_dfs_places_tree(at, depth);
        lemma_dfs_places_siblings(at.at(rest), depth);
        assert(at.at(rest).at(end) == at.at(end));
        assert(tree_places(at, depth) + (sibling_places(at.at(rest), depth) + tail) == (
        tree_places(at, depth) + sibling_places(at.at(rest), depth)) + tail);
    }
}

/// Moving on in depth first order from an entry comes to every entry of its tree
/// before any other, each once, parents before their children and siblings in
/// order; and the deltas add up to how deep each of them is. If nothing but null
/// bytes is left after the tree, it comes to no other entry.
pub proof fn law_dfs_visits_tree(at: CursorView, depth: int)
    requires
        after_tree(at) is Some,
    ensures
        tree_places(at, depth).is_prefix_of(dfs_places(at, depth)),
        cursor::past_nulls(after_tree(at)->Some_0).len() == 0 ==> dfs_places(at, depth)
            == tree_places(at, depth),
{
    let rest = after_tree(at)->Some_0;
    lemma_entry_is_not_null(at);
    lemma_dfs_places_tree(at, depth);
    assert(at.at(at.input) == at);
    assert(tree_places(at, depth) + Seq::<Place>::empty() == tree_places(at, depth));
}

/// What the delta says of the entry that moving on in depth first order comes to.
/// It is one just if the current entry has children and their list is not empty,
/// and then that entry is the first child, which follows the attributes. If it is
/// zero, that entry is the next sibling. If it is negative, there is no next
/// sibling.
pub proof fn law_dfs_delta(at: CursorView)
    requires
        at.dfs_delta() is Some,
    ensures
        at.dfs_delta() == Some(1int) <==> at.child_depth() == 1 && at.after_attrs().first() != 0,
        at.dfs_delta() == Some(1int) ==> at.next_dfs() == at.at(at.after_attrs()),
        at.dfs_delta() == Some(0int) ==> at.next_sibling() == at.next_dfs(),
        at.dfs_delta()->Some_0 < 0 ==> at.next_sibling() == at.at(Seq::empty()),
{
    cursor::law_dfs_progress(at);
    cursor::law_null_run(at.after_attrs());
}

/// What a cursor finds when it looks for the entry's next sibling, from the next
/// entry in `at` on.
spec fn scan_past_nulls(at: CursorView, depth: int) -> Seq<u8> {
    let rest = cursor::past_nulls(at.input);
    let depth = depth - cursor::null_run(at.input);
    if rest.len() == 0 || depth < 0 {
        Seq::empty()
    } else if depth == 0 {
        rest
    } else {
        at.at(rest).scan_for_sibling(depth).input
    }
}

proof fn lemma_scan_from_entry(at: CursorView, depth: int)
    requires
        at.has_entry(),
    ensures
        at.scan_for_sibling(depth).input == scan_past_nulls(
            at.at(at.after_attrs()),
            depth + at.child_depth(),
        ),
        at.scan_for_sibling(depth) == at.at(at.scan_for_sibling(depth).input),
    decreases at.input.len(),
{
    cursor::law_dfs_progress(at);
    let after = at.at(at.after_attrs());
    assert(after.at(cursor::past_nulls(after.input)) == at.next_dfs());
    if let Some(delta) = at.dfs_delta() {
        if depth + delta > 0 {
            if at.next_dfs().has_entry() {
                lemma_scan_from_entry(at.next_dfs(), depth + delta);
            }
        }
    }
}

proof fn lemma_scan_tree(at: CursorView, depth: int)
    requires
        after_tree(at) is Some,
        depth >= 1,
    ensures
        scan_past_nulls(at, depth) == scan_past_nulls(at.at(after_tree(at)->Some_0), depth),
    decreases at.input.len(), 1nat,
{
    cursor::law_dfs_progress(at);
    lemma_entry_is_not_null(at);
    lemma_scan_from_entry(at, depth);
    assert(at.at(at.input) == at);
    if at.child_depth() == 1 {
        lemma_scan_siblings(at.at(at.after_attrs()), depth + 1);
    }
}

proof fn lemma_scan_siblings(at: CursorView, depth: int)
    requires
        after_siblings(at) is Some,
        depth >= 1,
    ensures
        scan_past_nulls(at, depth) == scan_past_nulls(
            at.at(after_siblings(at)->Some_0),
            depth - 1,
        ),
    decreases at.input.len(), 2nat,
{
    let end = after_siblings(at)->Some_0;
    if at.input.first() == 0 {
        lemma_skip_null(at.input);
    } else {
        let rest = after_tree(at)->Some_0;
        lemma_scan_tree(at, depth);
        lemma_scan_siblings(at.at(rest), depth);
        assert(at.at(rest).at(end) == at.at(end));
    }
}

/// The next sibling of an entry is what follows everything below the entry. There
/// is none where the input or, with a null byte, the list of siblings ends there.
pub proof fn law_next_sibling_skips_tree(at: CursorView)
    requires
        after_tree(at) is Some,
    ensures
        at.next_sibling() == at.at(
            {
                let rest = after_tree(at)->Some_0;
                if rest.len() > 0 && rest.first() != 0 {
                    rest
                } else {
                    Seq::empty()
                }
            },
        ),
{
    let rest = after_tree(at)->Some_0;
    cursor::law_dfs_progress(at);
    lemma_scan_from_entry(at, 0);
    if at.child_depth() == 1 {
        lemma_scan_siblings(at.at(at.after_attrs()), 1);
    }
    cursor::law_null_run(rest);
}

/// The inputs from each entry of a list of siblings on, in order.
pub open spec fn sibling_starts(at: CursorView) -> Seq<Seq<u8>>
    decreases at.input.len(),
{
    if at.input.len() == 0 || at.input.first() == 0 {
        Seq::empty()
    } else {
        match after_tree(at) {
            Some(rest) => if rest.len() < at.input.len() {
                seq![at.input] + sibling_starts(at.at(rest))
            } else {
                Seq::empty()
            },
            None => Seq::empty(),
        }
    }
}

/// From each entry of a list of siblings, a cursor moves to the next one, and
/// from the last one it moves to the end.
pub proof fn law_next_sibling_walks_list(at: CursorView, i: int)
    requires
        after_siblings(at) is Some,
        0 <= i < sibling_starts(at).len(),
    ensures
        at.at(sibling_starts(at)[i]).next_sibling() == at.at(
            if i + 1 < sibling_starts(at).len() {
                sibling_starts(at)[i + 1]
            } else {
                Seq::empty()
            },
        ),
    decreases i,
{
    let rest = after_tree(at)->Some_0;
    let rest_starts = sibling_starts(at.at(rest));
    if i == 0 {
        assert(at.at(at.input) == at);
        law_next_sibling_skips_tree(at);
        law_siblings_bound(at.at(rest));
        if rest.first() != 0 {
            law_tree_bound(at.at(rest));
        }
    } else {
        assert(sibling_starts(at)[i] == rest_starts[i - 1]);
        assert(at.at(rest).at(rest_starts[i - 1]) == at.at(rest_starts[i - 1]));
        law_next_sibling_walks_list(at.at(rest), i - 1);
        if i < rest_starts.len() {
            assert(sibling_starts(at)[i + 1] == rest_starts[i]);
        }
    }
}

/// A cursor that looks for an entry's next sibling moves on, and where it ends up
/// there is no null byte.
pub proof fn law_next_sibling_progress(at: CursorView)
    requires
        at.has_entry(),
    ensures
        at.next_sibling().input.len() > 0 ==> at.next_sibling().input.first() != 0,
        at.next_sibling().input.len() < at.input.len(),
{
    lemma_scan_progress(at, 0);
}

proof fn lemma_scan_progress(at: CursorView, depth: int)
    requires
        at.has_entry(),
    ensures
        at.scan_for_sibling(depth).input.len() < at.input.len(),
        at.scan_for_sibling(depth).input.len() > 0 ==> at.scan_for_sibling(depth).input.first()
            != 0,
    decreases at.input.len(),
{
    cursor::law_dfs_progress(at);
    if let Some(delta) = at.dfs_delta() {
        if depth + delta > 0 && at.next_dfs().has_entry() {
            lemma_scan_progress(at.next_dfs(), depth + delta);
        }
    }
}

/// An exhausted cursor points to no entry and stays where it is.
pub proof fn law_exhausted_stays(at: CursorView)
    requires
        at.input.len() == 0,
    ensures
        at.entry() is None,
        at.dfs_delta() is None,
        at.next_dfs() == at,
        at.next_sibling() == at,
{
}

} // verus!
