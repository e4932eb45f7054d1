//! History entries read `old → new`; this takes them apart again.

use vstd::prelude::*;
use vstd::slice::slice_subrange;
use vstd::string::*;

use crate::text;

verus! {

/// The arrow between the two sides of a change.
pub open spec fn arrow() -> char {
    '\u{2192}'
}

/// A change from `before` to `after`, as the history shows it.
pub open spec fn change(before: Seq<char>, after: Seq<char>) -> Seq<char> {
    before + " \u{2192} "@ + after
}

/// What stands before and after the first arrow, without white space around it.
pub open spec fn change_sides(summary: Seq<char>) -> Option<(Seq<char>, Seq<char>)> {
    let n = text::first_index(summary, arrow());
    if 0 <= n < summary.len() {
        Some((text::trim(summary.take(n)), text::trim(summary.skip(n + 1))))
    } else {
        None
    }
}

/// The entry for a change from `before` to `after`.
pub fn change_summary(before: &str, after: &str) -> (r: String)
    ensures
        r@ == change(before@, after@),
{
    before.to_owned().concat(" \u{2192} ").concat(after)
}

/// `before → after` gives `(before, after)`; a text without an arrow gives nothing.
pub fn split_change_summary(summary: &str) -> (r: Option<(String, String)>)
    ensures
        match r {
            Some(p) => change_sides(summary@) == Some((p.0@, p.1@)),
            None => change_sides(summary@) is None,
        },
{
    let s: Vec<char> = text::to_chars(summary);
    let n: usize = text::find_char(&s, '\u{2192}');
    if n == s.len() {
        return None;
    }
    let before: &[char] = slice_subrange(&s, 0, n);
    let after: &[char] = slice_subrange(&s, n + 1, s.len());
    proof {
        assert(before@ =~= summary@.take(n as int));
        assert(after@ =~= summary@.skip(n + 1));
    }
    Some((text::to_text(text::trim_chars(before)), text::to_text(text::trim_chars(after))))
}

/// A change whose old side holds no arrow comes apart into its two sides.
pub proof fn law_change_comes_apart(before: Seq<char>, after: Seq<char>)
    requires
        !before.contains(arrow()),
    ensures
        change_sides(change(before, after)) == Some((text::trim(before), text::trim(after))),
{
    let s = change(before, after);
    let n = before.len() as int;
    reveal_strlit(" \u{2192} ");
    assert(s.len() == n + 3 + after.len());
    assert forall|i: int| 0 <= i < n + 1 implies #[trigger] s[i] != arrow() by {
        if i < n {
            assert(s[i] == before[i]);
        } else {
            assert(s[i] == ' ');
        }
    }
    text::lemma_first_index_is(s, arrow(), n + 1);
    assert(s.take(n + 1) =~= before + seq![' ']);
    assert(s.skip(n + 2) =~= seq![' '] + after);
    text::law_trim_ignores_blanks_around(seq![], before, seq![' ']);
    text::law_trim_ignores_blanks_around(seq![' '], after, seq![]);
    assert(Seq::<char>::empty() + before + seq![' '] =~= before + seq![' ']);
    assert(seq![' '] + after + Seq::<char>::empty() =~= seq![' '] + after);
}

/// An entry comes apart at its first arrow, whatever white space stands around it, and an entry
/// without an arrow does not.
pub proof fn law_entries_come_apart_at_the_first_arrow(before: Seq<char>, after: Seq<char>)
    requires
        !before.contains('\u{2192}'),
    ensures
        change_sides(before + seq!['\u{2192}'] + after) == Some(
            (text::trim(before), text::trim(after)),
        ),
        change_sides(before) is None,
        change(before, after) == before + seq![' ', '\u{2192}', ' '] + after,
{
    let s = before + seq!['\u{2192}'] + after;
    let n = before.len() as int;
    reveal_strlit(" \u{2192} ");
    assert(" \u{2192} "@ =~= seq![' ', '\u{2192}', ' ']);
    assert forall|i: int| 0 <= i < n implies #[trigger] before[i] != '\u{2192}' by {
        assert(before.contains(before[i]));
    }
    assert forall|i: int| 0 <= i < n implies #[trigger] s[i] != '\u{2192}' by {
        assert(s[i] == before[i]);
    }
    assert(s[n] == '\u{2192}');
    text::lemma_first_index_is(s, '\u{2192}', n);
    text::lemma_first_index_is(before, '\u{2192}', n);
    assert(s.take(n) =~= before);
    assert(s.skip(n + 1) =~= after);
}

} // verus!
