//! Searching by words: every word of a query has to stand in a text, whatever the letter case.

use vstd::prelude::*;
use vstd::string::*;

use crate::text;

verus! {

/// Every word of `query` stands in `s`, both in lower case.
pub open spec fn found(s: Seq<char>, query: Seq<char>) -> bool {
    forall|i: int|
        0 <= i < text::words(query).len() ==> text::contains(
            text::unicode_lowercase(s),
            text::unicode_lowercase(#[trigger] text::words(query)[i]),
        )
}

/// Every word of `query` stands in `s`, both with ASCII letters in lower case.
pub open spec fn ascii_found(s: Seq<char>, query: Seq<char>) -> bool {
    forall|i: int|
        0 <= i < text::words(query).len() ==> text::contains(
            text::ascii_lower_text(s),
            text::ascii_lower_text(#[trigger] text::words(query)[i]),
        )
}

/// Every word of a filter that is in lower case as a whole stands in `s` in lower case.
pub open spec fn filter_found(s: Seq<char>, filter: Seq<char>) -> bool {
    let words = text::words(text::unicode_lowercase(text::trim(filter)));
    forall|i: int|
        0 <= i < words.len() ==> text::contains(text::unicode_lowercase(s), #[trigger] words[i])
}

/// Whether all these words stand in `s`, letter for letter.
pub fn all_words_in(s: &str, words: &[String]) -> (r: bool)
    ensures
        r == forall|i: int|
            0 <= i < words@.len() ==> text::contains(s@, (#[trigger] words@[i])@),
{
    let hay: Vec<char> = text::to_chars(s);
    let mut i: usize = 0;
    while i < words.len()
        invariant
            i <= words.len(),
            hay@ == s@,
            forall|j: int| 0 <= j < i ==> text::contains(s@, (#[trigger] words@[j])@),
        decreases words.len() - i,
    {
        if !text::contains_chars(&hay, &text::to_chars(words[i].as_str())) {
            assert(!text::contains(s@, words@[i as int]@));
            return false;
        }
        i += 1;
    }
    true
}

/// The words of `query`, each in lower case.
fn lowered_words(query: &str) -> (r: Vec<String>)
    ensures
        r@.len() == text::words(query@).len(),
        forall|i: int|
            0 <= i < r@.len() ==> (#[trigger] r@[i])@ == text::unicode_lowercase(
                text::words(query@)[i],
            ),
        text::all_ascii(query@) ==> forall|i: int|
            0 <= i < r@.len() ==> (#[trigger] r@[i])@ == text::ascii_lower_text(
                text::words(query@)[i],
            ),
{
    let words: Vec<Vec<char>> = text::split_words(&text::to_chars(query));
    let ghost all = text::words(query@);
    let mut r: Vec<String> = Vec::new();
    let mut i: usize = 0;
    assert(text::char_texts(words@).len() == words@.len());
    while i < words.len()
        invariant
            i <= words.len(),
            all == text::words(query@),
            text::char_texts(words@) == all,
            all.len() == words@.len(),
            r@.len() == i,
            forall|j: int|
                0 <= j < i ==> (#[trigger] r@[j])@ == text::unicode_lowercase(all[j]),
            text::all_ascii(query@) ==> forall|j: int|
                0 <= j < i ==> (#[trigger] r@[j])@ == text::ascii_lower_text(all[j]),
        decreases words.len() - i,
    {
        let word: String = text::to_text(&words[i]);
        assert(all[i as int] == words@[i as int]@);
        proof {
            if text::all_ascii(query@) {
                text::lemma_words_ascii(query@);
            }
        }
        r.push(text::lowercase(word.as_str()));
        i += 1;
    }
    r
}

/// Whether every word of `query` stands in `s`, whatever the letter case. On ASCII texts only the
/// case of ASCII letters is left out of account.
pub fn words_found(s: &str, query: &str) -> (r: bool)
    ensures
        r == found(s@, query@),
        text::all_ascii(s@) && text::all_ascii(query@) ==> r == ascii_found(s@, query@),
{
    let words: Vec<String> = lowered_words(query);
    let lower: String = text::lowercase(s);
    let r: bool = all_words_in(lower.as_str(), &words);
    proof {
        let all = text::words(query@);
        if r {
            assert forall|i: int| 0 <= i < all.len() implies text::contains(
                lower@,
                text::unicode_lowercase(#[trigger] all[i]),
            ) by {
                assert(text::contains(lower@, words@[i]@));
            }
            if text::all_ascii(s@) && text::all_ascii(query@) {
                assert forall|i: int| 0 <= i < all.len() implies text::contains(
                    lower@,
                    text::ascii_lower_text(#[trigger] all[i]),
                ) by {
                    assert(text::contains(lower@, words@[i]@));
                }
            }
        } else {
            let i = choose|i: int|
                0 <= i < words@.len() && !text::contains(lower@, (#[trigger] words@[i])@);
            assert(words@[i]@ == text::unicode_lowercase(all[i]));
        }
    }
    r
}

/// Whether every word of a filter stands in a text, both of them in lower case already.
pub fn lowered_filter_matches(lower: &str, lower_filter: &str) -> (r: bool)
    ensures
        r == forall|i: int|
            0 <= i < text::words(lower_filter@).len() ==> text::contains(
                lower@,
                #[trigger] text::words(lower_filter@)[i],
            ),
{
    let words: Vec<Vec<char>> = text::split_words(&text::to_chars(lower_filter));
    let hay: Vec<char> = text::to_chars(lower);
    let ghost all = text::words(lower_filter@);
    assert(text::char_texts(words@).len() == words@.len());
    let mut i: usize = 0;
    while i < words.len()
        invariant
            i <= words.len(),
            text::char_texts(words@) == all,
            all.len() == words@.len(),
            all == text::words(lower_filter@),
            hay@ == lower@,
            forall|j: int| 0 <= j < i ==> text::contains(hay@, #[trigger] all[j]),
        decreases words.len() - i,
    {
        assert(all[i as int] == words@[i as int]@);
        if !text::contains_chars(&hay, &words[i]) {
            return false;
        }
        i += 1;
    }
    true
}

/// Whether every word of `filter` stands in `s`, whatever the letter case.
pub fn filter_matches(s: &str, filter: &str) -> (r: bool)
    ensures
        r == filter_found(s@, filter@),
{
    let lower: String = text::lowercase(s);
    let lower_filter: String = text::lowercase(text::trim_text(filter).as_str());
    lowered_filter_matches(lower.as_str(), lower_filter.as_str())
}

/// A query without words finds everything.
pub proof fn law_empty_query_finds_all(s: Seq<char>, query: Seq<char>)
    requires
        text::blank(query),
    ensures
        found(s, query),
{
    text::lemma_blank_has_no_words(query);
}

/// More words find less: what a query finds, it finds also without its last word.
pub proof fn law_more_words_find_less(s: Seq<char>, query: Seq<char>, word: Seq<char>)
    requires
        found(s, query + seq![' '] + word),
    ensures
        found(s, query),
{
    let longer = query + seq![' '] + word;
    text::lemma_words_prefix(query, word);
    assert forall|i: int| 0 <= i < text::words(query).len() implies text::contains(
        text::unicode_lowercase(s),
        text::unicode_lowercase(#[trigger] text::words(query)[i]),
    ) by {
        assert(text::words(longer)[i] == text::words(query)[i]);
    }
}

/// A query of one word finds the texts that hold it, whatever the letter case.
pub proof fn law_word_finds_texts_that_hold_it(s: Seq<char>, word: Seq<char>)
    requires
        word.len() > 0,
        forall|i: int| 0 <= i < word.len() ==> !text::white_space(#[trigger] word[i]),
    ensures
        found(s, word) <==> text::contains(
            text::unicode_lowercase(s),
            text::unicode_lowercase(word),
        ),
        ascii_found(s, word) <==> text::contains(
            text::ascii_lower_text(s),
            text::ascii_lower_text(word),
        ),
{
    text::law_word_is_one_word(word);
    assert(text::words(word)[0] == word);
}

/// A query of several words finds what each of them finds, in any order.
pub proof fn law_words_find_together(s: Seq<char>, a: Seq<char>, c: char, b: Seq<char>)
    requires
        text::white_space(c),
    ensures
        found(s, a + seq![c] + b) <==> found(s, a) && found(s, b),
        found(s, a + seq![c] + b) <==> found(s, b + seq![c] + a),
        ascii_found(s, a + seq![c] + b) <==> ascii_found(s, a) && ascii_found(s, b),
{
    lemma_found_together(s, a, c, b);
    lemma_found_together(s, b, c, a);
    let both = a + seq![c] + b;
    text::law_white_space_parts_words(a, c, b);
    let wa = text::words(a);
    let wb = text::words(b);
    let all = text::words(both);
    if ascii_found(s, both) {
        assert forall|i: int| 0 <= i < wa.len() implies text::contains(
            text::ascii_lower_text(s),
            text::ascii_lower_text(#[trigger] wa[i]),
        ) by {
            assert(all[i] == wa[i]);
        }
        assert forall|i: int| 0 <= i < wb.len() implies text::contains(
            text::ascii_lower_text(s),
            text::ascii_lower_text(#[trigger] wb[i]),
        ) by {
            assert(all[wa.len() + i] == wb[i]);
        }
    }
    if ascii_found(s, a) && ascii_found(s, b) {
        assert forall|i: int| 0 <= i < all.len() implies text::contains(
            text::ascii_lower_text(s),
            text::ascii_lower_text(#[trigger] all[i]),
        ) by {
            if i < wa.len() {
                assert(all[i] == wa[i]);
            } else {
                assert(all[i] == wb[i - wa.len()]);
            }
        }
    }
}

proof fn lemma_found_together(s: Seq<char>, a: Seq<char>, c: char, b: Seq<char>)
    requires
        text::white_space(c),
    ensures
        found(s, a + seq![c] + b) <==> found(s, a) && found(s, b),
{
    let both = a + seq![c] + b;
    text::law_white_space_parts_words(a, c, b);
    let wa = text::words(a);
    let wb = text::words(b);
    let all = text::words(both);
    if found(s, both) {
        assert forall|i: int| 0 <= i < wa.len() implies text::contains(
            text::unicode_lowercase(s),
            text::unicode_lowercase(#[trigger] wa[i]),
        ) by {
            assert(all[i] == wa[i]);
        }
        assert forall|i: int| 0 <= i < wb.len() implies text::contains(
            text::unicode_lowercase(s),
            text::unicode_lowercase(#[trigger] wb[i]),
        ) by {
            assert(all[wa.len() + i] == wb[i]);
        }
    }
    if found(s, a) && found(s, b) {
        assert forall|i: int| 0 <= i < all.len() implies text::contains(
            text::unicode_lowercase(s),
            text::unicode_lowercase(#[trigger] all[i]),
        ) by {
            if i < wa.len() {
                assert(all[i] == wa[i]);
            } else {
                assert(all[i] == wb[i - wa.len()]);
            }
        }
    }
}

/// A filter that is one word in lower case finds the texts that hold it, and a filter that is two
/// others side by side finds what both of them find.
pub proof fn law_filters_find_together(
    s: Seq<char>,
    filter: Seq<char>,
    f: Seq<char>,
    g: Seq<char>,
    c: char,
)
    requires
        text::white_space(c),
    ensures
        ({
            let lower = text::unicode_lowercase(text::trim(filter));
            lower.len() > 0 && (forall|i: int|
                0 <= i < lower.len() ==> !text::white_space(#[trigger] lower[i])) ==> filter_found(
                s,
                filter,
            ) == text::contains(text::unicode_lowercase(s), lower)
        }),
        text::unicode_lowercase(text::trim(filter)) == text::unicode_lowercase(text::trim(f))
            + seq![c] + text::unicode_lowercase(text::trim(g)) ==> filter_found(s, filter) == (
        filter_found(s, f) && filter_found(s, g)),
        text::blank(text::unicode_lowercase(text::trim(filter))) ==> filter_found(s, filter),
{
    let lower = text::unicode_lowercase(text::trim(filter));
    if lower.len() > 0 && (forall|i: int|
        0 <= i < lower.len() ==> !text::white_space(#[trigger] lower[i])) {
        text::law_word_is_one_word(lower);
        assert(text::words(lower)[0] == lower);
    }
    if text::blank(lower) {
        text::lemma_blank_has_no_words(lower);
    }
    let a = text::unicode_lowercase(text::trim(f));
    let b = text::unicode_lowercase(text::trim(g));
    if lower == a + seq![c] + b {
        text::law_white_space_parts_words(a, c, b);
        let wa = text::words(a);
        let wb = text::words(b);
        let all = text::words(lower);
        let hay = text::unicode_lowercase(s);
        if filter_found(s, filter) {
            assert forall|i: int| 0 <= i < wa.len() implies text::contains(
                hay,
                #[trigger] wa[i],
            ) by {
                assert(all[i] == wa[i]);
            }
            assert forall|i: int| 0 <= i < wb.len() implies text::contains(
                hay,
                #[trigger] wb[i],
            ) by {
                assert(all[wa.len() + i] == wb[i]);
            }
        }
        if filter_found(s, f) && filter_found(s, g) {
            assert forall|i: int| 0 <= i < all.len() implies text::contains(
                hay,
                #[trigger] all[i],
            ) by {
                if i < wa.len() {
                    assert(all[i] == wa[i]);
                } else {
                    assert(all[i] == wb[i - wa.len()]);
                }
            }
        }
    }
}

} // verus!
