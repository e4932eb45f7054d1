//! Presets: lines `Setting [Option]` or `Setting = Option` that are matched loosely against the
//! settings of a dump and select options there.

use vstd::prelude::*;
use vstd::slice::slice_subrange;
use vstd::string::*;

use crate::change_format;
use crate::nvram;
use crate::nvram::{option_pretty, BiosSetting, LoadedNvram, SettingView};
use crate::text;

verus! {

// ---------------------------------------------------------------------------
// Canonical texts
// ---------------------------------------------------------------------------

/// A letter or digit in lower case; a space for any other character.
pub open spec fn canonical_char(c: char) -> char {
    if text::alphanumeric(c) {
        text::ascii_lower(c)
    } else {
        ' '
    }
}

/// `s` with `canonical_char` for each character.
pub open spec fn canonical_chars(s: Seq<char>) -> Seq<char> {
    Seq::new(s.len(), |i: int| canonical_char(s[i]))
}

/// The letters and digits of `s` in lower case, with one space for what stands between them.
pub open spec fn canonical(s: Seq<char>) -> Seq<char> {
    text::join(text::words(canonical_chars(s)), " "@)
}

/// The letters and digits of `s` in lower case.
pub open spec fn compact(s: Seq<char>) -> Seq<char>
    decreases s.len(),
{
    if s.len() == 0 {
        seq![]
    } else if text::alphanumeric(s.last()) {
        compact(s.drop_last()).push(text::ascii_lower(s.last()))
    } else {
        compact(s.drop_last())
    }
}

/// The letters and digits of `s` as they stand.
pub open spec fn letters(s: Seq<char>) -> Seq<char>
    decreases s.len(),
{
    if s.len() == 0 {
        seq![]
    } else if text::alphanumeric(s.last()) {
        letters(s.drop_last()).push(s.last())
    } else {
        letters(s.drop_last())
    }
}

/// A word without the ending of a plural.
pub open spec fn singular(t: Seq<char>) -> Seq<char> {
    if t.len() > 4 && "es"@.is_suffix_of(t) {
        t.take(t.len() - 2)
    } else if t.len() > 3 && t.last() == 's' {
        t.take(t.len() - 1)
    } else {
        t
    }
}

/// The letters and digits of `s` in lower case, with one space for what stands between them.
fn canonical_text(s: &[char]) -> (r: Vec<char>)
    ensures
        r@ == canonical(s@),
{
    let mut mapped: Vec<char> = Vec::new();
    let mut i: usize = 0;
    while i < s.len()
        invariant
            i <= s.len(),
            mapped@ == canonical_chars(s@).take(i as int),
        decreases s.len() - i,
    {
        if text::is_alphanumeric(s[i]) {
            mapped.push(text::to_ascii_lower(s[i]));
        } else {
            mapped.push(' ');
        }
        i += 1;
    }
    assert(mapped@ =~= canonical_chars(s@));
    text::join_chars(&text::split_words(&mapped), &text::to_chars(" "))
}

/// The letters and digits of `s` in lower case.
fn canonical_compact(s: &[char]) -> (r: Vec<char>)
    ensures
        r@ == compact(s@),
{
    let mut r: Vec<char> = Vec::new();
    let mut i: usize = 0;
    while i < s.len()
        invariant
            i <= s.len(),
            r@ == compact(s@.take(i as int)),
        decreases s.len() - i,
    {
        if text::is_alphanumeric(s[i]) {
            r.push(text::to_ascii_lower(s[i]));
        }
        proof {
            assert(s@.take(i + 1).drop_last() =~= s@.take(i as int));
        }
        i += 1;
    }
    assert(s@.take(s@.len() as int) =~= s@);
    r
}

/// The letters and digits of `s` as they stand.
fn letters_of(s: &[char]) -> (r: Vec<char>)
    ensures
        r@ == letters(s@),
{
    let mut r: Vec<char> = Vec::new();
    let mut i: usize = 0;
    while i < s.len()
        invariant
            i <= s.len(),
            r@ == letters(s@.take(i as int)),
        decreases s.len() - i,
    {
        if text::is_alphanumeric(s[i]) {
            r.push(s[i]);
        }
        proof {
            assert(s@.take(i + 1).drop_last() =~= s@.take(i as int));
        }
        i += 1;
    }
    assert(s@.take(s@.len() as int) =~= s@);
    r
}

/// A word without the ending of a plural.
fn singularize_token<'a>(t: &'a [char]) -> (r: &'a [char])
    ensures
        r@ == singular(t@),
{
    if t.len() > 4 && text::ends_with(t, &text::to_chars("es")) {
        let r: &[char] = slice_subrange(t, 0, t.len() - 2);
        assert(r@ =~= t@.take(t@.len() - 2));
        return r;
    }
    if t.len() > 3 && t[t.len() - 1] == 's' {
        let r: &[char] = slice_subrange(t, 0, t.len() - 1);
        assert(r@ =~= t@.take(t@.len() - 1));
        return r;
    }
    t
}

// ---------------------------------------------------------------------------
// Matching of names
// ---------------------------------------------------------------------------

/// One of the two texts holds the other, and `a` is not empty.
pub open spec fn overlap(a: Seq<char>, b: Seq<char>) -> bool {
    a.len() > 0 && (text::contains(b, a) || text::contains(a, b))
}

/// The names are alike letter by letter: equal, or one part of the other, also without plural
/// endings.
pub open spec fn names_alike(name: Seq<char>, question: Seq<char>) -> bool {
    ||| canonical(name) == canonical(question)
    ||| compact(name) == compact(question)
    ||| overlap(compact(name), compact(question))
    ||| overlap(singular(compact(name)), singular(compact(question)))
}

/// A name in lower case, of reasonable length, is part of a question in lower case.
pub open spec fn lowered_alike(lower_name: Seq<char>, lower_question: Seq<char>) -> bool {
    &&& 4 <= letters(lower_name).len() <= 48
    &&& text::contains(letters(lower_question), letters(lower_name))
}

/// The name of a preset stands for the setting with this question.
pub open spec fn name_matches(name: Seq<char>, question: Seq<char>) -> bool {
    names_alike(name, question) || lowered_alike(
        text::unicode_lowercase(name),
        text::unicode_lowercase(question),
    )
}

/// Whether one of the two texts holds the other, and `a` is not empty.
fn overlaps(a: &[char], b: &[char]) -> (r: bool)
    ensures
        r == overlap(a@, b@),
{
    a.len() > 0 && (text::contains_chars(b, a) || text::contains_chars(a, b))
}

/// Whether the two names are alike letter by letter.
fn alike(name: &[char], question: &[char]) -> (r: bool)
    ensures
        r == names_alike(name@, question@),
{
    if text::chars_eq(&canonical_text(name), &canonical_text(question)) {
        return true;
    }
    let a: Vec<char> = canonical_compact(name);
    let b: Vec<char> = canonical_compact(question);
    text::chars_eq(&a, &b) || overlaps(&a, &b) || overlaps(
        singularize_token(&a),
        singularize_token(&b),
    )
}

/// Whether a name stands for a question, given both in lower case as well.
pub fn names_match_lowered(
    name: &str,
    question: &str,
    lower_name: &str,
    lower_question: &str,
) -> (r: bool)
    ensures
        r == (names_alike(name@, question@) || lowered_alike(lower_name@, lower_question@)),
{
    if alike(&text::to_chars(name), &text::to_chars(question)) {
        return true;
    }
    let p: Vec<char> = letters_of(&text::to_chars(lower_name));
    let q: Vec<char> = letters_of(&text::to_chars(lower_question));
    4 <= p.len() && p.len() <= 48 && text::contains_chars(&q, &p)
}

/// Whether the name of a preset stands for the setting with this question. On ASCII texts the
/// comparison letter by letter decides.
pub fn setting_name_matches(preset_name: &str, setup_question: &str) -> (r: bool)
    ensures
        r == name_matches(preset_name@, setup_question@),
        text::all_ascii(preset_name@) && text::all_ascii(setup_question@) ==> r == names_alike(
            preset_name@,
            setup_question@,
        ),
        text::all_ascii(preset_name@) && text::all_ascii(setup_question@) && compact(
            preset_name@,
        ).len() > 0 ==> r == one_holds_the_other(compact(preset_name@), compact(setup_question@)),
{
    let lower_name: String = text::lowercase(preset_name);
    let lower_question: String = text::lowercase(setup_question);
    proof {
        if text::all_ascii(preset_name@) && text::all_ascii(setup_question@) {
            lemma_compact_lower(preset_name@);
            lemma_compact_lower(setup_question@);
            law_when_names_match(preset_name@, setup_question@);
        }
    }
    names_match_lowered(
        preset_name,
        setup_question,
        lower_name.as_str(),
        lower_question.as_str(),
    )
}

/// The letters and digits of a text in lower case are `compact`.
proof fn lemma_compact_lower(s: Seq<char>)
    ensures
        letters(text::ascii_lower_text(s)) == compact(s),
    decreases s.len(),
{
    if s.len() > 0 {
        lemma_compact_lower(s.drop_last());
        let t = text::ascii_lower_text(s);
        assert(t.drop_last() =~= text::ascii_lower_text(s.drop_last()));
        assert(t.last() == text::ascii_lower(s.last()));
    }
}

/// Every name stands for itself.
pub proof fn law_name_matches_itself(s: Seq<char>)
    ensures
        name_matches(s, s),
{
}

/// Names with the same letters and digits stand for each other, whatever their case and whatever
/// stands in between.
pub proof fn law_only_letters_and_digits_matter(name: Seq<char>, question: Seq<char>)
    requires
        compact(name) == compact(question),
    ensures
        name_matches(name, question),
        name_matches(question, name),
{
}

/// A part of a name stands for it, if it has a letter or a digit.
pub proof fn law_part_of_a_name_matches(before: Seq<char>, part: Seq<char>, after: Seq<char>)
    requires
        compact(part).len() > 0,
    ensures
        name_matches(part, before + part + after),
{
    let whole = before + part + after;
    lemma_compact_join(before + part, after);
    lemma_compact_join(before, part);
    let c = compact(whole);
    let n = compact(before).len() as int;
    assert(c.subrange(n, n + compact(part).len()) =~= compact(part));
    assert(text::occurs_at(c, compact(part), n));
}

/// Without its ending a plural is the word: `s` goes, and `es` if enough is left in front of it.
pub proof fn law_plural_endings_come_off(w: Seq<char>)
    ensures
        w.len() >= 3 ==> singular(w + seq!['e', 's']) == w,
        w.len() >= 3 && w.last() != 'e' ==> singular(w + seq!['s']) == w,
        w.len() == 3 ==> singular(w + seq!['s']) == w,
        w.len() <= 3 ==> singular(w) == w,
        w.len() > 0 && w.last() != 's' ==> singular(w) == w,
{
    reveal_strlit("es");
    let a = w + seq!['e', 's'];
    if w.len() >= 3 {
        assert(a.skip(a.len() - 2) =~= "es"@);
        assert(a.take(a.len() - 2) =~= w);
    }
    let b = w + seq!['s'];
    if w.len() >= 3 {
        assert(b.take(b.len() - 1) =~= w);
        if "es"@.is_suffix_of(b) {
            assert(b[b.len() - 2] == "es"@[0]);
            assert(b[b.len() - 2] == w.last());
        }
    }
    if w.len() > 0 && "es"@.is_suffix_of(w) {
        assert(w.last() == "es"@[1]);
    }
}

/// One of the two texts stands in the other, also without plural endings.
pub open spec fn one_holds_the_other(a: Seq<char>, b: Seq<char>) -> bool {
    ||| text::contains(b, a)
    ||| text::contains(a, b)
    ||| text::contains(singular(b), singular(a))
    ||| text::contains(singular(a), singular(b))
}

/// Of a word with a letter something is left without the ending of a plural.
proof fn lemma_singular_keeps_a_letter(a: Seq<char>)
    ensures
        singular(a).len() > 0 <==> a.len() > 0,
{
}

/// When a name stands for a question: if the letters and digits of one, in lower case, stand one
/// behind the other in those of the other, with or without the plural endings, and the name has
/// any. Beyond that a name of four to 48 letters and digits has to stand in the question when both
/// are lowered as Unicode texts.
pub proof fn law_when_names_match(name: Seq<char>, question: Seq<char>)
    ensures
        name_matches(name, question) <==> {
            let a = compact(name);
            let b = compact(question);
            let lower_a = letters(text::unicode_lowercase(name));
            let lower_b = letters(text::unicode_lowercase(question));
            ||| a.len() == 0 && b.len() == 0
            ||| a.len() > 0 && one_holds_the_other(a, b)
            ||| 4 <= lower_a.len() <= 48 && text::contains(lower_b, lower_a)
        },
{
    let a = compact(name);
    let b = compact(question);
    lemma_singular_keeps_a_letter(a);
    if canonical(name) == canonical(question) {
        law_canonical_keeps_letters_and_digits(name);
        law_canonical_keeps_letters_and_digits(question);
    }
    if a == b {
        assert(b.subrange(0, a.len() as int) =~= a);
        assert(text::occurs_at(b, a, 0));
    }
    if a.len() == 0 && b.len() == 0 {
        assert(a =~= b);
    }
}

/// What does not match: a name stands for no question if neither of the two holds the letters and
/// digits of the other one behind the other, with or without plural endings. Lowering changes
/// nothing but the case of the letters from `A` to `Z` in texts that are all ASCII.
pub proof fn law_names_that_hold_nothing_of_each_other(name: Seq<char>, question: Seq<char>)
    requires
        text::unicode_lowercase(name) == text::ascii_lower_text(name),
        text::unicode_lowercase(question) == text::ascii_lower_text(question),
        compact(question).len() > 0,
        forall|x: Seq<char>, y: Seq<char>|
            #![trigger x + compact(name) + y]
            compact(question) != x + compact(name) + y,
        forall|x: Seq<char>, y: Seq<char>|
            #![trigger x + compact(question) + y]
            compact(name) != x + compact(question) + y,
        forall|x: Seq<char>, y: Seq<char>|
            #![trigger x + singular(compact(name)) + y]
            singular(compact(question)) != x + singular(compact(name)) + y,
        forall|x: Seq<char>, y: Seq<char>|
            #![trigger x + singular(compact(question)) + y]
            singular(compact(name)) != x + singular(compact(question)) + y,
    ensures
        !name_matches(name, question),
{
    let a = compact(name);
    let b = compact(question);
    law_when_names_match(name, question);
    lemma_compact_lower(name);
    lemma_compact_lower(question);
    text::law_contained_texts(b, a);
    text::law_contained_texts(a, b);
    text::law_contained_texts(singular(b), singular(a));
    text::law_contained_texts(singular(a), singular(b));
}

/// Canonical texts hold the letters and digits that the texts hold: names with the same canonical
/// text have the same letters and digits.
pub proof fn law_canonical_keeps_letters_and_digits(s: Seq<char>)
    ensures
        compact(canonical(s)) == compact(s),
{
    lemma_compact_words(canonical_chars(s));
    lemma_compact_canonical_chars(s);
}

proof fn lemma_compact_canonical_chars(s: Seq<char>)
    ensures
        compact(canonical_chars(s)) == compact(s),
    decreases s.len(),
{
    if s.len() > 0 {
        lemma_compact_canonical_chars(s.drop_last());
        let t = canonical_chars(s);
        assert(t.drop_last() =~= canonical_chars(s.drop_last()));
        assert(t.last() == canonical_char(s.last()));
    }
}

/// Taking a text apart into words and joining them keeps the letters and digits.
proof fn lemma_compact_words(t: Seq<char>)
    ensures
        compact(text::join(text::words(t), " "@)) == compact(t),
    decreases t.len(),
{
    reveal_strlit(" ");
    if t.len() > 0 {
        let c = t.last();
        let before = text::words(t.drop_last());
        lemma_compact_words(t.drop_last());
        if text::white_space(c) {
            assert(!text::alphanumeric(c));
        } else if t.len() == 1 || text::white_space(t[t.len() - 2]) {
            let after = before.push(seq![c]);
            assert(after.drop_last() =~= before);
            lemma_compact_join(text::join(before, " "@) + " "@, seq![c]);
            lemma_compact_join(text::join(before, " "@), " "@);
            lemma_compact_char(c);
            lemma_compact_char(' ');
            assert(" "@ =~= seq![' ']);
        } else {
            text::lemma_words_nonempty(t.drop_last());
            let w = before.last();
            let after = before.drop_last().push(w.push(c));
            assert(after.drop_last() =~= before.drop_last());
            let front = text::join(before.drop_last(), " "@) + " "@;
            if before.len() > 1 {
                assert(text::join(before, " "@) =~= front + w);
                assert(text::join(after, " "@) =~= text::join(before, " "@) + seq![c]);
            } else {
                assert(text::join(after, " "@) =~= text::join(before, " "@) + seq![c]);
            }
            lemma_compact_join(text::join(before, " "@), seq![c]);
            lemma_compact_char(c);
        }
    }
}

proof fn lemma_compact_char(c: char)
    ensures
        compact(seq![c]) == (if text::alphanumeric(c) {
            seq![text::ascii_lower(c)]
        } else {
            seq![]
        }),
{
    assert(seq![c].drop_last() =~= seq![]);
    assert(compact(seq![c].drop_last()) =~= seq![]);
}

/// `compact` works on each part of a text by itself.
pub proof fn lemma_compact_join(a: Seq<char>, b: Seq<char>)
    ensures
        compact(a + b) == compact(a) + compact(b),
    decreases b.len(),
{
    if b.len() == 0 {
        assert(a + b =~= a);
        assert(compact(a) + compact(b) =~= compact(a));
    } else {
        lemma_compact_join(a, b.drop_last());
        assert((a + b).drop_last() =~= a + b.drop_last());
        assert((a + b).last() == b.last());
        assert(compact(a + b) =~= compact(a) + compact(b));
    }
}

// ---------------------------------------------------------------------------
// Matching of options
// ---------------------------------------------------------------------------

/// One of the two texts starts with the other, and `a` is not empty.
pub open spec fn prefixes(a: Seq<char>, b: Seq<char>) -> bool {
    a.len() > 0 && (a.is_prefix_of(b) || b.is_prefix_of(a))
}

/// The words are alike: equal, or one the start of the other, also without plural endings.
pub open spec fn words_alike(word: Seq<char>, option: Seq<char>) -> bool {
    ||| canonical(word) == canonical(option)
    ||| compact(word) == compact(option)
    ||| prefixes(compact(word), compact(option))
    ||| prefixes(singular(compact(word)), singular(compact(option)))
}

/// What a word is taken for besides itself.
pub open spec fn synonyms(word: Seq<char>) -> Seq<Seq<char>> {
    if word == "disable"@ || word == "disabled"@ {
        seq!["Disable"@, "Disabled"@]
    } else if word == "enable"@ || word == "enabled"@ {
        seq!["Enable"@, "Enabled"@]
    } else if word == "on"@ {
        seq!["On"@, "Enabled"@, "Enable"@]
    } else if word == "off"@ {
        seq!["Off"@, "Disabled"@, "Disable"@]
    } else if word == "auto"@ {
        seq!["Auto"@]
    } else {
        seq![]
    }
}

/// The word of a preset stands for this option, itself or by a synonym.
pub open spec fn option_matches(word: Seq<char>, option: Seq<char>) -> bool {
    words_alike(word, option) || exists|i: int|
        0 <= i < synonyms(compact(word)).len() && words_alike(
            #[trigger] synonyms(compact(word))[i],
            option,
        )
}

/// An option without the bracketed number in front.
pub open spec fn option_label(option: Seq<char>) -> Seq<char> {
    let shown = nvram::pretty(option);
    let close = text::first_index(shown, ']');
    if close < shown.len() {
        text::trim(shown.skip(close + 1))
    } else {
        text::trim(shown)
    }
}

/// Whether one of the two texts starts with the other, and `a` is not empty.
fn starts_alike(a: &[char], b: &[char]) -> (r: bool)
    ensures
        r == prefixes(a@, b@),
{
    a.len() > 0 && (text::starts_with(b, a) || text::starts_with(a, b))
}

/// Whether two words are alike.
fn option_value_matches_single(preset_option: &[char], option_text: &[char]) -> (r: bool)
    ensures
        r == words_alike(preset_option@, option_text@),
{
    if text::chars_eq(&canonical_text(preset_option), &canonical_text(option_text)) {
        return true;
    }
    let a: Vec<char> = canonical_compact(preset_option);
    let b: Vec<char> = canonical_compact(option_text);
    text::chars_eq(&a, &b) || starts_alike(&a, &b) || starts_alike(
        singularize_token(&a),
        singularize_token(&b),
    )
}

/// The texts that string slices hold.
spec fn str_texts(v: Seq<&'static str>) -> Seq<Seq<char>> {
    Seq::new(v.len(), |i: int| v[i]@)
}

/// What a word is taken for besides itself (`disable` for `Disabled`).
fn preset_option_synonym_strings(word: &str) -> (r: Vec<&'static str>)
    ensures
        str_texts(r@) == synonyms(word@),
{
    let mut r: Vec<&'static str> = Vec::new();
    if text::text_eq(word, "disable") || text::text_eq(word, "disabled") {
        r.push("Disable");
        r.push("Disabled");
    } else if text::text_eq(word, "enable") || text::text_eq(word, "enabled") {
        r.push("Enable");
        r.push("Enabled");
    } else if text::text_eq(word, "on") {
        r.push("On");
        r.push("Enabled");
        r.push("Enable");
    } else if text::text_eq(word, "off") {
        r.push("Off");
        r.push("Disabled");
        r.push("Disable");
    } else if text::text_eq(word, "auto") {
        r.push("Auto");
    }
    assert(str_texts(r@) =~= synonyms(word@));
    r
}

/// Whether the word of a preset stands for this option.
pub fn option_value_matches(preset_option: &str, option_text: &str) -> (r: bool)
    ensures
        r == option_matches(preset_option@, option_text@),
{
    let word: Vec<char> = text::to_chars(preset_option);
    let option: Vec<char> = text::to_chars(option_text);
    if option_value_matches_single(&word, &option) {
        return true;
    }
    let key: String = text::to_text(&canonical_compact(&word));
    let others: Vec<&'static str> = preset_option_synonym_strings(key.as_str());
    let ghost all = synonyms(compact(preset_option@));
    let mut i: usize = 0;
    while i < others.len()
        invariant
            i <= others.len(),
            option@ == option_text@,
            all == synonyms(compact(preset_option@)),
            str_texts(others@) == all,
            all.len() == others@.len(),
            !words_alike(preset_option@, option_text@),
            forall|j: int| 0 <= j < i ==> !words_alike(#[trigger] all[j], option_text@),
        decreases others.len() - i,
    {
        if option_value_matches_single(&text::to_chars(others[i]), &option) {
            assert(words_alike(all[i as int], option_text@));
            return true;
        }
        assert(all[i as int] == others@[i as int]@);
        i += 1;
    }
    false
}

/// An option without the bracketed number in front.
fn option_label_only(opt: &str) -> (r: String)
    ensures
        r@ == option_label(opt@),
{
    let shown: String = option_pretty(opt);
    let s: Vec<char> = text::to_chars(shown.as_str());
    let close: usize = text::find_char(&s, ']');
    if close < s.len() {
        let rest: &[char] = slice_subrange(&s, close + 1, s.len());
        assert(rest@ =~= s@.skip(close + 1));
        return text::to_text(text::trim_chars(rest));
    }
    text::to_text(text::trim_chars(&s))
}

/// Every option stands for itself.
pub proof fn law_option_matches_itself(s: Seq<char>)
    ensures
        option_matches(s, s),
{
}

/// Letter case and punctuation do not matter to options.
pub proof fn law_only_letters_and_digits_matter_in_options(word: Seq<char>, option: Seq<char>)
    requires
        compact(word) == compact(option),
    ensures
        option_matches(word, option),
        option_matches(option, word),
{
}

/// `disable` and `disabled`, `enable` and `enabled` are the same words, `on` stands for `Enabled`,
/// and `off` for `Disabled`, in any letter case.
pub proof fn law_common_words_are_synonyms(word: Seq<char>, option: Seq<char>)
    ensures
        compact(word) == "disable"@ && compact(option) == "disabled"@ ==> option_matches(word, option),
        compact(word) == "disabled"@ && compact(option) == "disable"@ ==> option_matches(word, option),
        compact(word) == "enable"@ && compact(option) == "enabled"@ ==> option_matches(word, option),
        compact(word) == "enabled"@ && compact(option) == "enable"@ ==> option_matches(word, option),
        compact(word) == "on"@ && compact(option) == "enabled"@ ==> option_matches(word, option),
        compact(word) == "off"@ && compact(option) == "disabled"@ ==> option_matches(word, option),
{
    reveal_strlit("disable");
    reveal_strlit("disabled");
    reveal_strlit("enable");
    reveal_strlit("enabled");
    reveal_strlit("on");
    reveal_strlit("off");
    assert("disable"@.is_prefix_of("disabled"@)) by {
        assert("disabled"@.take(7) =~= "disable"@);
    }
    assert("enable"@.is_prefix_of("enabled"@)) by {
        assert("enabled"@.take(6) =~= "enable"@);
    }
    if compact(word) == "on"@ && compact(option) == "enabled"@ {
        reveal_strlit("Enabled");
        lemma_compact_is("Enabled"@, "enabled"@);
        assert(synonyms(compact(word))[1] == "Enabled"@);
        assert(words_alike(synonyms(compact(word))[1], option));
    }
    if compact(word) == "off"@ && compact(option) == "disabled"@ {
        reveal_strlit("Disabled");
        lemma_compact_is("Disabled"@, "disabled"@);
        assert("off"@.len() == 3 && "on"@.len() == 2);
        assert(synonyms(compact(word))[1] == "Disabled"@);
        assert(words_alike(synonyms(compact(word))[1], option));
    }
}

/// The texts start alike: equal, or one the start of the other, also without plural endings.
pub open spec fn one_starts_the_other(a: Seq<char>, b: Seq<char>) -> bool {
    ||| a == b
    ||| a.len() > 0 && (a.is_prefix_of(b) || b.is_prefix_of(a))
    ||| a.len() > 0 && (singular(a).is_prefix_of(singular(b)) || singular(b).is_prefix_of(
        singular(a),
    ))
}

/// Words are alike if and only if their letters and digits start alike.
proof fn lemma_words_alike(word: Seq<char>, option: Seq<char>)
    ensures
        words_alike(word, option) <==> one_starts_the_other(compact(word), compact(option)),
{
    lemma_singular_keeps_a_letter(compact(word));
    if canonical(word) == canonical(option) {
        law_canonical_keeps_letters_and_digits(word);
        law_canonical_keeps_letters_and_digits(option);
    }
}

/// The words that stand for others, in the letter case of the options.
proof fn lemma_common_words()
    ensures
        compact("Disable"@) == "disable"@,
        compact("Disabled"@) == "disabled"@,
        compact("Enable"@) == "enable"@,
        compact("Enabled"@) == "enabled"@,
        compact("On"@) == "on"@,
        compact("Off"@) == "off"@,
        compact("Auto"@) == "auto"@,
        "disable"@.len() == 7,
        "disabled"@.len() == 8,
        "enable"@.len() == 6,
        "enabled"@.len() == 7,
        "on"@.len() == 2,
        "off"@.len() == 3,
        "auto"@.len() == 4,
        "enabled"@[0] != "disable"@[0],
{
    reveal_strlit("Disable");
    reveal_strlit("Disabled");
    reveal_strlit("Enable");
    reveal_strlit("Enabled");
    reveal_strlit("On");
    reveal_strlit("Off");
    reveal_strlit("Auto");
    reveal_strlit("disable");
    reveal_strlit("disabled");
    reveal_strlit("enable");
    reveal_strlit("enabled");
    reveal_strlit("on");
    reveal_strlit("off");
    reveal_strlit("auto");
    lemma_compact_is("Disable"@, "disable"@);
    lemma_compact_is("Disabled"@, "disabled"@);
    lemma_compact_is("Enable"@, "enable"@);
    lemma_compact_is("Enabled"@, "enabled"@);
    lemma_compact_is("On"@, "on"@);
    lemma_compact_is("Off"@, "off"@);
    lemma_compact_is("Auto"@, "auto"@);
}

/// When a word stands for an option: if their letters and digits, in lower case, start alike, or if
/// the word is `on`, `enable` or `enabled` and the option starts like one of the latter two, or
/// `off`, `disable` or `disabled` and the option starts like one of the latter two.
pub proof fn law_when_options_match(word: Seq<char>, option: Seq<char>)
    ensures
        option_matches(word, option) <==> {
            let a = compact(word);
            let b = compact(option);
            ||| one_starts_the_other(a, b)
            ||| (a == "on"@ || a == "enable"@ || a == "enabled"@) && (one_starts_the_other(
                "enable"@,
                b,
            ) || one_starts_the_other("enabled"@, b))
            ||| (a == "off"@ || a == "disable"@ || a == "disabled"@) && (one_starts_the_other(
                "disable"@,
                b,
            ) || one_starts_the_other("disabled"@, b))
        },
{
    let a = compact(word);
    let b = compact(option);
    let others = synonyms(a);
    lemma_common_words();
    lemma_words_alike(word, option);
    lemma_words_alike("Disable"@, option);
    lemma_words_alike("Disabled"@, option);
    lemma_words_alike("Enable"@, option);
    lemma_words_alike("Enabled"@, option);
    lemma_words_alike("On"@, option);
    lemma_words_alike("Off"@, option);
    lemma_words_alike("Auto"@, option);
    if a == "disable"@ || a == "disabled"@ {
        assert(others[0] == "Disable"@ && others[1] == "Disabled"@ && others.len() == 2);
    } else if a == "enable"@ || a == "enabled"@ {
        assert(others[0] == "Enable"@ && others[1] == "Enabled"@ && others.len() == 2);
    } else if a == "on"@ {
        assert(others[0] == "On"@ && others[1] == "Enabled"@ && others[2] == "Enable"@
            && others.len() == 3);
    } else if a == "off"@ {
        assert(others[0] == "Off"@ && others[1] == "Disabled"@ && others[2] == "Disable"@
            && others.len() == 3);
    } else if a == "auto"@ {
        assert(others[0] == "Auto"@ && others.len() == 1);
    }
}

/// What does not match: a word other than `on`, `off`, `enable(d)` and `disable(d)` stands for no
/// option of which it is not the start and which is not its start, with or without plural endings.
pub proof fn law_other_words_stand_for_themselves(word: Seq<char>, option: Seq<char>)
    requires
        compact(word) != "on"@,
        compact(word) != "off"@,
        compact(word) != "enable"@,
        compact(word) != "enabled"@,
        compact(word) != "disable"@,
        compact(word) != "disabled"@,
        !compact(word).is_prefix_of(compact(option)),
        !compact(option).is_prefix_of(compact(word)),
        !singular(compact(word)).is_prefix_of(singular(compact(option))),
        !singular(compact(option)).is_prefix_of(singular(compact(word))),
    ensures
        !option_matches(word, option),
{
    law_when_options_match(word, option);
    let a = compact(word);
    assert(a.is_prefix_of(a)) by {
        assert(a.take(a.len() as int) =~= a);
    }
}

/// `auto` stands neither for `Disabled` nor for `Enabled`, in any letter case.
pub proof fn law_auto_is_neither_on_nor_off(word: Seq<char>, option: Seq<char>)
    requires
        compact(word) == "auto"@,
        compact(option) == "disabled"@ || compact(option) == "enabled"@ || compact(option)
            == "disable"@ || compact(option) == "enable"@,
    ensures
        !option_matches(word, option),
        !option_matches(option, word),
{
    lemma_common_words();
    law_when_options_match(word, option);
    law_when_options_match(option, word);
    reveal_strlit("auto");
    reveal_strlit("enable");
    reveal_strlit("enabled");
    reveal_strlit("disable");
    reveal_strlit("disabled");
    reveal_strlit("es");
    assert("auto"@[0] == 'a' && "enable"@[0] == 'e' && "enabled"@[0] == 'e' && "disable"@[0] == 'd'
        && "disabled"@[0] == 'd');
    law_plural_endings_come_off("auto"@);
    law_plural_endings_come_off("enable"@);
    law_plural_endings_come_off("enabled"@);
    law_plural_endings_come_off("disable"@);
    law_plural_endings_come_off("disabled"@);
}

/// What an option is called: behind a bracketed number its label is the text that follows, which is
/// shown behind one space; an option without brackets is its own label.
pub proof fn law_labels_stand_behind_the_number(number: Seq<char>, label: Seq<char>)
    requires
        !number.contains(']'),
    ensures
        ({
            let option = seq!['['] + number + seq![']'] + label;
            &&& option_label(option) == text::trim(label)
            &&& label.len() > 0 ==> nvram::pretty(option) == seq!['['] + number + seq![']', ' ']
                + text::trim_start(label)
            &&& label.len() == 0 ==> nvram::pretty(option) == option
        }),
        !label.contains(']') ==> option_label(label) == text::trim(label) && nvram::pretty(label)
            == label,
        label.len() > 0 && label[0] != '[' ==> nvram::pretty(label) == label,
{
    let option = seq!['['] + number + seq![']'] + label;
    let n = (number.len() + 1) as int;
    let none = Seq::<char>::empty();
    assert(option[0] == '[');
    assert(option[n] == ']');
    assert forall|i: int| 0 <= i < n implies #[trigger] option[i] != ']' by {
        if i > 0 {
            assert(option[i] == number[i - 1]);
        }
    }
    text::lemma_first_index_is(option, ']', n);
    assert(option.skip(n + 1) =~= label);
    assert(option.take(n + 1) =~= seq!['['] + number + seq![']']);
    if label.len() > 0 {
        let short = text::trim_start(label);
        let shown = nvram::pretty(option);
        assert(shown =~= seq!['['] + number + seq![']', ' '] + short);
        assert(shown[n] == ']');
        assert forall|i: int| 0 <= i < n implies #[trigger] shown[i] != ']' by {
            assert(shown[i] == option[i]);
        }
        text::lemma_first_index_is(shown, ']', n);
        assert(shown.skip(n + 1) =~= seq![' '] + short + none);
        text::law_trim_ignores_blanks_around(seq![' '], short, none);
        text::lemma_leading_space(label);
        let lead = label.take(text::leading_space(label));
        assert(label =~= lead + short + none);
        text::law_trim_ignores_blanks_around(lead, short, none);
    }
    if !label.contains(']') {
        assert(forall|i: int| 0 <= i < label.len() ==> #[trigger] label[i] != ']');
        text::lemma_first_index_is(label, ']', label.len() as int);
    }
}

/// The compact text of letters and digits has as many characters.
proof fn lemma_compact_is(s: Seq<char>, t: Seq<char>)
    requires
        s.len() == t.len(),
        forall|i: int|
            0 <= i < s.len() ==> text::alphanumeric(#[trigger] s[i]) && text::ascii_lower(s[i])
                == t[i],
    ensures
        compact(s) == t,
    decreases s.len(),
{
    if s.len() > 0 {
        lemma_compact_is(s.drop_last(), t.drop_last());
        assert(t.drop_last().push(t.last()) =~= t);
    } else {
        assert(t =~= seq![]);
    }
}

// ---------------------------------------------------------------------------
// Settings of the same name
// ---------------------------------------------------------------------------

/// The position of the first text that meets `p`, or the number of texts if none does.
pub open spec fn first_where(s: Seq<Seq<char>>, p: spec_fn(Seq<char>) -> bool) -> int
    decreases s.len(),
{
    if s.len() == 0 || p(s[0]) {
        0
    } else {
        1 + first_where(s.drop_first(), p)
    }
}

/// `first_where` is the first position that meets `p`.
pub proof fn lemma_first_where(s: Seq<Seq<char>>, p: spec_fn(Seq<char>) -> bool)
    ensures
        0 <= first_where(s, p) <= s.len(),
        forall|i: int| 0 <= i < first_where(s, p) ==> !p(#[trigger] s[i]),
        first_where(s, p) < s.len() ==> p(s[first_where(s, p)]),
    decreases s.len(),
{
    if s.len() > 0 && !p(s[0]) {
        let t = s.drop_first();
        lemma_first_where(t, p);
        assert forall|i: int| 0 <= i < first_where(s, p) implies !p(#[trigger] s[i]) by {
            if i > 0 {
                assert(t[i - 1] == s[i]);
            }
        }
    }
}

/// A position that meets `p` (or the end) with none before it is `first_where`.
proof fn lemma_first_where_is(s: Seq<Seq<char>>, p: spec_fn(Seq<char>) -> bool, n: int)
    requires
        0 <= n <= s.len(),
        forall|i: int| 0 <= i < n ==> !p(#[trigger] s[i]),
        n < s.len() ==> p(s[n]),
    ensures
        first_where(s, p) == n,
{
    lemma_first_where(s, p);
    let m = first_where(s, p);
    if m < n {
        assert(!p(s[m]));
    }
    if n < m {
        assert(!p(s[n]));
    }
}

/// `option` is what `chosen` is in another list: the same for display, the same label, or a match.
pub open spec fn same_choice(chosen: Seq<char>, option: Seq<char>) -> bool {
    ||| nvram::pretty(option) == nvram::pretty(chosen)
    ||| option_label(option) == option_label(chosen)
    ||| option_matches(nvram::pretty(chosen), nvram::pretty(option))
    ||| option_matches(option_label(chosen), option_label(option))
}

/// The option that a setting named `key` takes when option `sel` of `source` is chosen.
pub open spec fn sync_target(
    s: SettingView,
    key: Seq<char>,
    sel: int,
    source: Seq<Seq<char>>,
) -> Option<int> {
    if text::trim(s.setup_question) != text::trim(key) || s.options.len() == 0 {
        None
    } else if s.options == source {
        Some(sel)
    } else {
        let k = first_where(s.options, |o: Seq<char>| same_choice(source[sel], o));
        if k < s.options.len() {
            Some(k)
        } else {
            None
        }
    }
}

/// The option that has to be selected in a setting named `key`, if it is not selected yet.
pub open spec fn sync_change(
    s: SettingView,
    key: Seq<char>,
    sel: int,
    source: Seq<Seq<char>>,
) -> Option<int> {
    match sync_target(s, key, sel, source) {
        Some(t) if s.active_option != Some(t) => Some(t),
        _ => None,
    }
}

/// The settings to change, with the option that each of them takes.
pub open spec fn sync_plan(
    settings: Seq<SettingView>,
    key: Seq<char>,
    sel: int,
    source: Seq<Seq<char>>,
) -> Seq<(int, int)>
    decreases settings.len(),
{
    if settings.len() == 0 {
        seq![]
    } else {
        let before = sync_plan(settings.drop_last(), key, sel, source);
        match sync_change(settings.last(), key, sel, source) {
            Some(t) => before.push((settings.len() - 1, t)),
            None => before,
        }
    }
}

/// Positions and options as numbers.
pub open spec fn plan_view(v: Seq<(usize, usize)>) -> Seq<(int, int)> {
    Seq::new(v.len(), |i: int| (v[i].0 as int, v[i].1 as int))
}

/// Where in `options` the choice `chosen` of another list stands, or their number.
fn find_same_choice(options: &[String], chosen: &str) -> (r: usize)
    ensures
        r == first_where(text::texts(options@), |o: Seq<char>| same_choice(chosen@, o)),
        r <= options@.len(),
{
    let chosen_pretty: String = option_pretty(chosen);
    let chosen_label: String = option_label_only(chosen);
    let ghost p = |o: Seq<char>| same_choice(chosen@, o);
    let ghost all = text::texts(options@);
    let mut k: usize = 0;
    while k < options.len()
        invariant_except_break
            forall|j: int| 0 <= j < k ==> !p(#[trigger] all[j]),
        invariant
            k <= options.len(),
            all == text::texts(options@),
            p == (|o: Seq<char>| same_choice(chosen@, o)),
            chosen_pretty@ == nvram::pretty(chosen@),
            chosen_label@ == option_label(chosen@),
        ensures
            forall|j: int| 0 <= j < k ==> !p(#[trigger] all[j]),
            k < options.len() ==> p(all[k as int]),
        decreases options.len() - k,
    {
        let full: String = option_pretty(options[k].as_str());
        let label: String = option_label_only(options[k].as_str());
        assert(all[k as int] == options@[k as int]@);
        if text::text_eq(full.as_str(), chosen_pretty.as_str()) || text::text_eq(
            label.as_str(),
            chosen_label.as_str(),
        ) || option_value_matches(chosen_pretty.as_str(), full.as_str()) || option_value_matches(
            chosen_label.as_str(),
            label.as_str(),
        ) {
            break;
        }
        k += 1;
    }
    proof {
        lemma_first_where_is(all, p, k as int);
    }
    k
}

/// The option that has to be selected in `s`, if it is not selected yet.
fn find_sync_change(s: &BiosSetting, key: &str, sel: usize, source: &[String]) -> (r: Option<usize>)
    requires
        sel < source@.len(),
    ensures
        nvram::optional_index(r) == sync_change(s@, key@, sel as int, text::texts(source@)),
{
    let question: String = text::trim_text(s.setup_question.as_str());
    let name: String = text::trim_text(key);
    if !text::text_eq(question.as_str(), name.as_str()) {
        return None;
    }
    if s.options.len() == 0 {
        return None;
    }
    let t: usize = if text::strings_eq(&s.options, source) {
        sel
    } else {
        let k: usize = find_same_choice(&s.options, source[sel].as_str());
        assert(text::texts(source@)[sel as int] == source@[sel as int]@);
        if k >= s.options.len() {
            return None;
        }
        k
    };
    match s.active_option {
        Some(a) => {
            if a == t {
                None
            } else {
                Some(t)
            }
        },
        None => Some(t),
    }
}

/// Which settings of the name `setup_key` have to change when option `new_sel` of `source_opts`
/// is chosen, and to which option: a dump can list a name more than once.
pub fn duplicate_name_option_sync_plan(
    data: &LoadedNvram,
    setup_key: &str,
    new_sel: usize,
    source_opts: &[String],
) -> (r: Vec<(usize, usize)>)
    ensures
        plan_view(r@) == (if new_sel < source_opts@.len() {
            sync_plan(data@.settings, setup_key@, new_sel as int, text::texts(source_opts@))
        } else {
            seq![]
        }),
{
    let mut r: Vec<(usize, usize)> = Vec::new();
    if new_sel >= source_opts.len() {
        assert(plan_view(r@) =~= seq![]);
        return r;
    }
    let ghost source = text::texts(source_opts@);
    let ghost all = data@.settings;
    let mut j: usize = 0;
    assert(plan_view(r@) =~= seq![]);
    while j < data.settings.len()
        invariant
            j <= data.settings.len(),
            new_sel < source_opts@.len(),
            source == text::texts(source_opts@),
            all == data@.settings,
            plan_view(r@) == sync_plan(all.take(j as int), setup_key@, new_sel as int, source),
        decreases data.settings.len() - j,
    {
        let ghost old_r = r@;
        let change: Option<usize> = find_sync_change(
            &data.settings[j],
            setup_key,
            new_sel,
            source_opts,
        );
        proof {
            assert(all.take(j + 1).drop_last() =~= all.take(j as int));
            assert(all.take(j + 1).last() == data.settings@[j as int]@);
        }
        if let Some(t) = change {
            r.push((j, t));
            assert(plan_view(r@) =~= plan_view(old_r).push((j as int, t as int)));
        }
        j += 1;
    }
    assert(all.take(all.len() as int) =~= all);
    r
}

/// `s` with another option selected.
pub open spec fn with_choice(s: SettingView, t: int) -> SettingView {
    SettingView { active_option: Some(t), ..s }
}

/// The settings with the options of a plan selected.
pub open spec fn with_choices(settings: Seq<SettingView>, plan: Seq<(int, int)>) -> Seq<SettingView>
    decreases plan.len(),
{
    if plan.len() == 0 {
        settings
    } else {
        let before = with_choices(settings, plan.drop_last());
        let (j, t) = plan.last();
        before.update(j, with_choice(before[j], t))
    }
}

/// A plan names settings in order, each at most once, that bear the name and do not have the
/// option yet, and options that they have.
pub proof fn law_plan_is_sound(
    settings: Seq<SettingView>,
    key: Seq<char>,
    sel: int,
    source: Seq<Seq<char>>,
)
    requires
        0 <= sel < source.len(),
    ensures
        ({
            let plan = sync_plan(settings, key, sel, source);
            &&& forall|i: int|
                0 <= i < plan.len() ==> {
                    let (j, t) = #[trigger] plan[i];
                    &&& 0 <= j < settings.len()
                    &&& 0 <= t < settings[j].options.len()
                    &&& text::trim(settings[j].setup_question) == text::trim(key)
                    &&& settings[j].active_option != Some(t)
                }
            &&& forall|i: int, k: int|
                0 <= i < k < plan.len() ==> (#[trigger] plan[i]).0 < (#[trigger] plan[k]).0
        }),
    decreases settings.len(),
{
    if settings.len() > 0 {
        let rest = settings.drop_last();
        law_plan_is_sound(rest, key, sel, source);
        let s = settings.last();
        lemma_first_where(s.options, |o: Seq<char>| same_choice(source[sel], o));
        let plan = sync_plan(settings, key, sel, source);
        let before = sync_plan(rest, key, sel, source);
        assert forall|i: int| 0 <= i < plan.len() implies ({
            let (j, t) = #[trigger] plan[i];
            &&& 0 <= j < settings.len()
            &&& 0 <= t < settings[j].options.len()
            &&& text::trim(settings[j].setup_question) == text::trim(key)
            &&& settings[j].active_option != Some(t)
        }) by {
            if i < before.len() {
                assert(plan[i] == before[i]);
                assert(settings[before[i].0] == rest[before[i].0]);
            }
        }
        assert forall|i: int, k: int| 0 <= i < k < plan.len() implies (#[trigger] plan[i]).0 < (
        #[trigger] plan[k]).0 by {
            assert(plan[i] == before[i]);
            if k < before.len() {
                assert(plan[k] == before[k]);
            }
        }
    }
}

/// What a plan does to each setting.
proof fn lemma_plan_applied(
    settings: Seq<SettingView>,
    key: Seq<char>,
    sel: int,
    source: Seq<Seq<char>>,
)
    requires
        0 <= sel < source.len(),
    ensures
        ({
            let after = with_choices(settings, sync_plan(settings, key, sel, source));
            &&& after.len() == settings.len()
            &&& forall|j: int|
                0 <= j < settings.len() ==> #[trigger] after[j] == (match sync_change(
                    settings[j],
                    key,
                    sel,
                    source,
                ) {
                    Some(t) => with_choice(settings[j], t),
                    None => settings[j],
                })
        }),
    decreases settings.len(),
{
    if settings.len() > 0 {
        let rest = settings.drop_last();
        let before = sync_plan(rest, key, sel, source);
        lemma_plan_applied(rest, key, sel, source);
        law_plan_is_sound(rest, key, sel, source);
        lemma_choices_prefix(settings, before);
        let plan = sync_plan(settings, key, sel, source);
        if sync_change(settings.last(), key, sel, source) is Some {
            assert(plan.drop_last() =~= before);
        }
        let after = with_choices(settings, plan);
        assert forall|j: int| 0 <= j < settings.len() implies #[trigger] after[j] == (
        match sync_change(settings[j], key, sel, source) {
            Some(t) => with_choice(settings[j], t),
            None => settings[j],
        }) by {
            if j < rest.len() {
                assert(with_choices(settings, before)[j] == with_choices(rest, before)[j]);
                assert(rest[j] == settings[j]);
            }
        }
    }
}

/// A plan that speaks of the first settings only leaves the last one as it is.
proof fn lemma_choices_prefix(settings: Seq<SettingView>, plan: Seq<(int, int)>)
    requires
        settings.len() > 0,
        forall|i: int| 0 <= i < plan.len() ==> 0 <= (#[trigger] plan[i]).0 < settings.len() - 1,
    ensures
        with_choices(settings, plan) == with_choices(settings.drop_last(), plan).push(
            settings.last(),
        ),
        with_choices(settings.drop_last(), plan).len() == settings.len() - 1,
    decreases plan.len(),
{
    if plan.len() == 0 {
        assert(settings.drop_last().push(settings.last()) =~= settings);
    } else {
        assert forall|i: int| 0 <= i < plan.drop_last().len() implies 0 <= (
        #[trigger] plan.drop_last()[i]).0 < settings.len() - 1 by {
            assert(plan.drop_last()[i] == plan[i]);
        }
        lemma_choices_prefix(settings, plan.drop_last());
        assert(plan.last() == plan[plan.len() - 1]);
        assert(with_choices(settings, plan) =~= with_choices(settings.drop_last(), plan).push(
            settings.last(),
        ));
    }
}

/// Once a plan is carried out, nothing is left to do: the settings of the name are in step.
pub proof fn law_plan_settles(
    settings: Seq<SettingView>,
    key: Seq<char>,
    sel: int,
    source: Seq<Seq<char>>,
)
    requires
        0 <= sel < source.len(),
    ensures
        sync_plan(
            with_choices(settings, sync_plan(settings, key, sel, source)),
            key,
            sel,
            source,
        ).len() == 0,
{
    let after = with_choices(settings, sync_plan(settings, key, sel, source));
    lemma_plan_applied(settings, key, sel, source);
    assert forall|j: int| 0 <= j < after.len() implies sync_change(
        #[trigger] after[j],
        key,
        sel,
        source,
    ) is None by {}
    lemma_nothing_planned(after, key, sel, source);
}

proof fn lemma_nothing_planned(
    settings: Seq<SettingView>,
    key: Seq<char>,
    sel: int,
    source: Seq<Seq<char>>,
)
    requires
        forall|j: int|
            0 <= j < settings.len() ==> sync_change(
                #[trigger] settings[j],
                key,
                sel,
                source,
            ) is None,
    ensures
        sync_plan(settings, key, sel, source).len() == 0,
    decreases settings.len(),
{
    if settings.len() > 0 {
        assert forall|j: int| 0 <= j < settings.drop_last().len() implies sync_change(
            #[trigger] settings.drop_last()[j],
            key,
            sel,
            source,
        ) is None by {
            assert(settings.drop_last()[j] == settings[j]);
        }
        lemma_nothing_planned(settings.drop_last(), key, sel, source);
        assert(settings.last() == settings[settings.len() - 1]);
    }
}

/// The setting whose option is chosen has it once the plan is carried out.
pub proof fn law_plan_selects_the_choice(
    settings: Seq<SettingView>,
    i: int,
    key: Seq<char>,
    sel: int,
)
    requires
        0 <= i < settings.len(),
        0 <= sel < settings[i].options.len(),
        text::trim(key) == text::trim(settings[i].setup_question),
    ensures
        with_choices(settings, sync_plan(settings, key, sel, settings[i].options))[i]
            == with_choice(settings[i], sel),
{
    lemma_plan_applied(settings, key, sel, settings[i].options);
}

// ---------------------------------------------------------------------------
// Preset lines
// ---------------------------------------------------------------------------

/// The plain character that a character of pasted text stands for.
pub open spec fn normalized_char(c: char) -> char {
    if c == '\u{feff}' || c == '\u{a0}' || c == '\u{202f}' {
        ' '
    } else if c == '\u{ff1d}' {
        '='
    } else if c == '\u{ff1a}' {
        ':'
    } else {
        c
    }
}

/// `s` with plain characters.
pub open spec fn normalized(s: Seq<char>) -> Seq<char> {
    Seq::new(s.len(), |i: int| normalized_char(s[i]))
}

/// The option that a text names, with or without square brackets around it.
pub open spec fn target_text(raw: Seq<char>) -> Seq<char> {
    let t = text::trim(raw);
    if t.len() >= 2 && t[0] == '[' && t.last() == ']' {
        text::trim(t.subrange(1, t.len() - 1))
    } else {
        t
    }
}

/// The position of the first `=`, or else of the first `:`, or the length.
pub open spec fn separator(t: Seq<char>) -> int {
    if text::first_index(t, '=') < t.len() {
        text::first_index(t, '=')
    } else {
        text::first_index(t, ':')
    }
}

/// `(name, option)` of a line, if neither is empty.
pub open spec fn both(name: Seq<char>, option: Seq<char>) -> Option<(Seq<char>, Seq<char>)> {
    if name.len() > 0 && option.len() > 0 {
        Some((name, option))
    } else {
        None
    }
}

/// What `name = option` or `name: option` names.
pub open spec fn separated(t: Seq<char>) -> Option<(Seq<char>, Seq<char>)> {
    let n = separator(t);
    if n < t.len() {
        both(text::trim(t.take(n)), target_text(t.skip(n + 1)))
    } else {
        None
    }
}

/// What `name [option]` names.
pub open spec fn bracketed(t: Seq<char>) -> Option<(Seq<char>, Seq<char>)> {
    let n = text::last_index(t, '[');
    if t.len() > 0 && t.last() == ']' && n >= 0 {
        both(text::trim(t.take(n)), text::trim(t.subrange(n + 1, t.len() - 1)))
    } else {
        None
    }
}

/// The line is a comment.
pub open spec fn is_remark(t: Seq<char>) -> bool {
    (t.len() > 0 && t[0] == '#') || (t.len() > 1 && t[0] == '/' && t[1] == '/')
}

/// The setting and the option that a line names, if it is a preset.
pub open spec fn parsed_line(line: Seq<char>) -> Option<(Seq<char>, Seq<char>)> {
    let t = text::trim(normalized(line));
    if t.len() == 0 || is_remark(t) {
        None
    } else if separated(t) is Some {
        separated(t)
    } else {
        bracketed(t)
    }
}

/// The presets among these lines, each with the number of its line, counted from one.
pub open spec fn numbered_presets(lines: Seq<Seq<char>>) -> Seq<(int, Seq<char>, Seq<char>)>
    decreases lines.len(),
{
    if lines.len() == 0 {
        seq![]
    } else {
        let before = numbered_presets(lines.drop_last());
        match parsed_line(lines.last()) {
            Some(p) => before.push((lines.len() as int, p.0, p.1)),
            None => before,
        }
    }
}

/// The presets in a text.
pub open spec fn parsed_input(input: Seq<char>) -> Seq<(int, Seq<char>, Seq<char>)> {
    numbered_presets(text::lines(text::strip_leading(input, '\u{feff}')))
}

/// Presets as numbers and texts.
pub open spec fn preset_views(v: Seq<(usize, String, String)>) -> Seq<(int, Seq<char>, Seq<char>)> {
    Seq::new(v.len(), |i: int| (v[i].0 as int, v[i].1@, v[i].2@))
}

/// `line` with plain characters.
fn normalize_preset_line(line: &str) -> (r: Vec<char>)
    ensures
        r@ == normalized(line@),
{
    let s: Vec<char> = text::to_chars(line);
    let mut r: Vec<char> = Vec::new();
    let mut i: usize = 0;
    while i < s.len()
        invariant
            i <= s.len(),
            s@ == line@,
            r@ == normalized(line@).take(i as int),
        decreases s.len() - i,
    {
        let c: char = s[i];
        if c == '\u{feff}' || c == '\u{a0}' || c == '\u{202f}' {
            r.push(' ');
        } else if c == '\u{ff1d}' {
            r.push('=');
        } else if c == '\u{ff1a}' {
            r.push(':');
        } else {
            r.push(c);
        }
        i += 1;
    }
    assert(r@ =~= normalized(line@));
    r
}

/// The option that a text names, with or without square brackets around it.
fn parse_preset_target<'a>(raw: &'a [char]) -> (r: &'a [char])
    ensures
        r@ == target_text(raw@),
{
    let t: &[char] = text::trim_chars(raw);
    if t.len() >= 2 && t[0] == '[' && t[t.len() - 1] == ']' {
        text::trim_chars(slice_subrange(t, 1, t.len() - 1))
    } else {
        t
    }
}

/// The setting and the option that a line names, if it is a preset.
pub fn parse_preset_line(line: &str) -> (r: Option<(String, String)>)
    ensures
        match r {
            Some(p) => parsed_line(line@) == Some((p.0@, p.1@)),
            None => parsed_line(line@) is None,
        },
{
    let chars: Vec<char> = normalize_preset_line(line);
    let t: &[char] = text::trim_chars(&chars);
    if t.len() == 0 || t[0] == '#' || (t.len() > 1 && t[0] == '/' && t[1] == '/') {
        return None;
    }
    let eq: usize = text::find_char(t, '=');
    let n: usize = if eq < t.len() {
        eq
    } else {
        text::find_char(t, ':')
    };
    if n < t.len() {
        let left: &[char] = slice_subrange(t, 0, n);
        let right: &[char] = slice_subrange(t, n + 1, t.len());
        proof {
            assert(left@ =~= t@.take(n as int));
            assert(right@ =~= t@.skip(n + 1));
        }
        let setting: &[char] = text::trim_chars(left);
        let target: &[char] = parse_preset_target(right);
        if setting.len() > 0 && target.len() > 0 {
            return Some((text::to_text(setting), text::to_text(target)));
        }
    }
    if t[t.len() - 1] == ']' {
        if let Some(n) = text::rfind_char(t, '[') {
            let left: &[char] = slice_subrange(t, 0, n);
            proof {
                text::lemma_last_index(t@, '[');
                assert(left@ =~= t@.take(n as int));
            }
            let right: &[char] = slice_subrange(t, n + 1, t.len() - 1);
            let setting: &[char] = text::trim_chars(left);
            let target: &[char] = text::trim_chars(right);
            if setting.len() > 0 && target.len() > 0 {
                return Some((text::to_text(setting), text::to_text(target)));
            }
        }
    }
    None
}

/// The presets in a text: number of the line, setting, option.
pub fn parse_preset_input_lines(input: &str) -> (r: Vec<(usize, String, String)>)
    ensures
        preset_views(r@) == parsed_input(input@),
{
    let chars: Vec<char> = text::to_chars(input);
    let lines: Vec<String> = text::split_lines(text::strip_leading_chars(&chars, '\u{feff}'));
    let ghost all = text::texts(lines@);
    let mut r: Vec<(usize, String, String)> = Vec::new();
    let mut i: usize = 0;
    assert(preset_views(r@) =~= seq![]);
    while i < lines.len()
        invariant
            i <= lines.len(),
            all == text::texts(lines@),
            preset_views(r@) == numbered_presets(all.take(i as int)),
        decreases lines.len() - i,
    {
        let ghost old_r = r@;
        proof {
            assert(all.take(i + 1).drop_last() =~= all.take(i as int));
            assert(all.take(i + 1).last() == lines@[i as int]@);
        }
        if let Some(p) = parse_preset_line(lines[i].as_str()) {
            r.push((i + 1, p.0, p.1));
            assert(preset_views(r@) =~= preset_views(old_r).push((i + 1, p.0@, p.1@)));
        }
        i += 1;
    }
    assert(all.take(all.len() as int) =~= all);
    r
}

/// `s` can name a setting or an option in a preset line: it is not empty, neither starts nor ends
/// in white space, and holds plain characters.
pub open spec fn nameable(s: Seq<char>) -> bool {
    &&& s.len() > 0
    &&& !text::white_space(s[0])
    &&& !text::white_space(s.last())
    &&& forall|i: int| 0 <= i < s.len() ==> normalized_char(#[trigger] s[i]) == s[i]
}

/// A line that is plain and neither starts nor ends in white space is read as it is.
proof fn lemma_plain_line(t: Seq<char>)
    requires
        nameable(t),
    ensures
        text::trim(normalized(t)) == t,
{
    assert(normalized(t) =~= t);
    text::lemma_trimmed(t);
}

/// `name = option` names `name` and `option`, unless the name holds an equals sign or starts like
/// a comment, or the option is in square brackets.
pub proof fn law_equals_form(name: Seq<char>, option: Seq<char>)
    requires
        nameable(name),
        nameable(option),
        !name.contains('='),
        !is_remark(name),
        !(option[0] == '[' && option.last() == ']'),
    ensures
        parsed_line(name + " = "@ + option) == Some((name, option)),
{
    reveal_strlit(" = ");
    let t = name + " = "@ + option;
    let n = name.len() as int;
    assert(t.len() == n + 3 + option.len());
    assert(t[0] == name[0]);
    assert(t.last() == option.last());
    assert forall|i: int| 0 <= i < t.len() implies normalized_char(#[trigger] t[i]) == t[i] by {
        if i < n {
            assert(t[i] == name[i]);
        } else if i >= n + 3 {
            assert(t[i] == option[i - n - 3]);
        }
    }
    lemma_plain_line(t);
    assert forall|i: int| 0 <= i < n + 1 implies #[trigger] t[i] != '=' by {
        if i < n {
            assert(t[i] == name[i]);
        }
    }
    text::lemma_first_index_is(t, '=', n + 1);
    let sp = seq![' '];
    let none = Seq::<char>::empty();
    assert(t.take(n + 1) =~= none + name + sp);
    assert(t.skip(n + 2) =~= sp + option + none);
    text::law_trim_ignores_blanks_around(none, name, sp);
    text::law_trim_ignores_blanks_around(sp, option, none);
    text::lemma_trimmed(name);
    text::lemma_trimmed(option);
    if is_remark(t) {
        assert(t[1] == '/');
        if n > 1 {
            assert(t[1] == name[1]);
        }
    }
}

/// `name [option]` names `name` and `option`, unless it reads as two sides of an equals sign or a
/// colon, the option holds an opening bracket, or the name starts like a comment.
pub proof fn law_bracket_form(name: Seq<char>, option: Seq<char>)
    requires
        nameable(name),
        nameable(option),
        separated(name + " ["@ + option + "]"@) is None,
        !option.contains('['),
        !is_remark(name),
    ensures
        parsed_line(name + " ["@ + option + "]"@) == Some((name, option)),
{
    reveal_strlit(" [");
    reveal_strlit("]");
    let t = name + " ["@ + option + "]"@;
    let n = name.len() as int;
    let m = option.len() as int;
    assert(t.len() == n + m + 3);
    assert(t[0] == name[0]);
    assert(t.last() == ']');
    assert forall|i: int| 0 <= i < t.len() implies normalized_char(#[trigger] t[i]) == t[i] && (i > n
        + 1 ==> t[i] != '[') by {
        if i < n {
            assert(t[i] == name[i]);
        } else if n + 2 <= i < n + 2 + m {
            assert(t[i] == option[i - n - 2]);
        }
    }
    lemma_plain_line(t);
    assert(t[n + 1] == '[');
    text::lemma_last_index_is(t, '[', n + 1);
    let sp = seq![' '];
    let none = Seq::<char>::empty();
    assert(t.take(n + 1) =~= none + name + sp);
    assert(t.subrange(n + 2, t.len() - 1) =~= option);
    text::law_trim_ignores_blanks_around(none, name, sp);
    text::lemma_trimmed(name);
    text::lemma_trimmed(option);
    if is_remark(t) {
        assert(t[1] == '/');
        if n > 1 {
            assert(t[1] == name[1]);
        }
    }
}

/// `s` holds nothing but white space, counting a byte order mark as such.
pub open spec fn gap(s: Seq<char>) -> bool {
    forall|i: int| 0 <= i < s.len() ==> text::white_space(normalized_char(#[trigger] s[i]))
}

proof fn lemma_normalized_join(a: Seq<char>, b: Seq<char>)
    ensures
        normalized(a + b) == normalized(a) + normalized(b),
{
    assert(normalized(a + b) =~= normalized(a) + normalized(b));
}

proof fn lemma_normalized_gap(s: Seq<char>)
    requires
        gap(s),
    ensures
        text::blank(normalized(s)),
        forall|i: int| 0 <= i < s.len() ==> text::white_space(#[trigger] normalized(s)[i]),
{
    assert forall|i: int| 0 <= i < s.len() implies text::white_space(
        #[trigger] normalized(s)[i],
    ) by {
        assert(text::white_space(normalized_char(s[i])));
    }
}

/// A text that starts with a name, a gap and a separator does not start like a comment unless the
/// name does.
proof fn lemma_no_remark(name: Seq<char>, rest: Seq<char>)
    requires
        name.len() > 0,
        !is_remark(name),
        name.len() > 1 || rest.len() == 0 || rest[0] != '/',
    ensures
        !is_remark(name + rest),
{
    let t = name + rest;
    assert(t[0] == name[0]);
    if t.len() > 1 {
        if name.len() > 1 {
            assert(t[1] == name[1]);
        } else {
            assert(t[1] == rest[0]);
        }
    }
}

/// What a plain line with a separator names.
proof fn lemma_separated(
    name: Seq<char>,
    b: Seq<char>,
    sep: char,
    c: Seq<char>,
    target: Seq<char>,
)
    requires
        nameable(name),
        text::blank(b),
        text::blank(c),
        target.len() > 0,
        !text::white_space(target[0]),
        !text::white_space(target.last()),
        sep == '=' && !name.contains('=') || sep == ':' && !name.contains('=') && !name.contains(':')
            && !target.contains('='),
        !is_remark(name),
    ensures
        ({
            let t = name + b + seq![sep] + c + target;
            &&& !is_remark(t)
            &&& t.len() > 0
            &&& text::trim(t) == t
            &&& separated(t) == both(name, target_text(target))
        }),
{
    let t = name + b + seq![sep] + c + target;
    let n = (name.len() + b.len()) as int;
    let none = Seq::<char>::empty();
    assert(t[0] == name[0]);
    assert(t.last() == target.last());
    text::lemma_trimmed(t);
    let rest = b + seq![sep] + c + target;
    assert(t =~= name + rest);
    assert(rest[0] != '/') by {
        if b.len() > 0 {
            assert(rest[0] == b[0]);
        } else {
            assert(rest[0] == sep);
        }
    }
    lemma_no_remark(name, rest);
    assert(t[n] == sep);
    assert forall|i: int| 0 <= i < n implies #[trigger] t[i] != '=' && (sep == ':' ==> t[i] != ':') by {
        if i < name.len() {
            assert(t[i] == name[i]);
        } else {
            assert(t[i] == b[i - name.len()]);
        }
    }
    if sep == ':' {
        assert forall|i: int| 0 <= i < t.len() implies #[trigger] t[i] != '=' by {
            if i > n {
                if i <= n + c.len() {
                    assert(t[i] == c[i - n - 1]);
                } else {
                    assert(t[i] == target[i - n - 1 - c.len()]);
                }
            }
        }
        text::lemma_first_index_is(t, '=', t.len() as int);
    }
    text::lemma_first_index_is(t, sep, n);
    assert(t.take(n) =~= none + name + b);
    assert(t.skip(n + 1) =~= c + target + none);
    text::law_trim_ignores_blanks_around(none, name, b);
    text::law_trim_ignores_blanks_around(c, target, none);
    text::lemma_trimmed(name);
    text::lemma_trimmed(target);
}

/// The two forms with a separator: a name, an equals sign or a colon (or one in full width) and an
/// option, with or without square brackets around the option and with any white space around each
/// part, name exactly the name and the option. The name holds no equals sign and does not start
/// like a comment; where a colon separates, the name holds no colon and the option no equals sign.
#[verifier::spinoff_prover]
pub proof fn law_separated_forms(
    a: Seq<char>,
    name: Seq<char>,
    b: Seq<char>,
    sep: char,
    c: Seq<char>,
    option: Seq<char>,
    d: Seq<char>,
)
    requires
        gap(a),
        gap(b),
        gap(c),
        gap(d),
        nameable(name),
        nameable(option),
        !is_remark(name),
        !name.contains('='),
        sep == '=' || sep == '\u{ff1d}' || ((sep == ':' || sep == '\u{ff1a}') && !name.contains(':')
            && !option.contains('=')),
    ensures
        !(option[0] == '[' && option.last() == ']') ==> parsed_line(
            a + (name + b + seq![sep] + c + option) + d,
        ) == Some((name, option)),
        parsed_line(a + (name + b + seq![sep] + c + (seq!['['] + option + seq![']'])) + d) == Some(
            (name, option),
        ),
{
    let boxed = seq!['['] + option + seq![']'];
    let plain_sep = normalized_char(sep);
    lemma_normalized_gap(a);
    lemma_normalized_gap(b);
    lemma_normalized_gap(c);
    lemma_normalized_gap(d);
    assert(normalized(name) =~= name);
    assert(normalized(option) =~= option);
    assert(normalized(seq![sep]) =~= seq![plain_sep]);
    assert forall|i: int| 0 <= i < boxed.len() implies normalized_char(#[trigger] boxed[i])
        == boxed[i] by {
        if 0 < i <= option.len() {
            assert(boxed[i] == option[i - 1]);
        }
    }
    assert(normalized(boxed) =~= boxed);
    if plain_sep == ':' {
        assert forall|i: int| 0 <= i < boxed.len() implies #[trigger] boxed[i] != '=' by {
            if 0 < i <= option.len() {
                assert(boxed[i] == option[i - 1]);
            }
        }
    }
    assert(boxed.subrange(1, boxed.len() - 1) =~= option);
    assert(boxed.last() == ']');
    text::lemma_trimmed(boxed);
    text::lemma_trimmed(option);
    assert(target_text(boxed) == option);
    lemma_form_is_read(a, name, b, sep, c, boxed, d);
    if !(option[0] == '[' && option.last() == ']') {
        assert(target_text(option) == option);
        lemma_form_is_read(a, name, b, sep, c, option, d);
    }
}

/// A line with a separator is read without the white space around its parts.
proof fn lemma_form_is_read(
    a: Seq<char>,
    name: Seq<char>,
    b: Seq<char>,
    sep: char,
    c: Seq<char>,
    target: Seq<char>,
    d: Seq<char>,
)
    requires
        gap(a),
        gap(b),
        gap(c),
        gap(d),
        nameable(name),
        nameable(target),
        !is_remark(name),
        !name.contains('='),
        sep == '=' || sep == '\u{ff1d}' || ((sep == ':' || sep == '\u{ff1a}') && !name.contains(':')
            && !target.contains('=')),
        target_text(target).len() > 0,
    ensures
        parsed_line(a + (name + b + seq![sep] + c + target) + d) == Some(
            (name, target_text(target)),
        ),
{
    let core = name + b + seq![sep] + c + target;
    let plain_sep = normalized_char(sep);
    lemma_normalized_gap(a);
    lemma_normalized_gap(b);
    lemma_normalized_gap(c);
    lemma_normalized_gap(d);
    assert(normalized(name) =~= name);
    assert(normalized(target) =~= target);
    assert(normalized(seq![sep]) =~= seq![plain_sep]);
    lemma_normalized_join(a + core, d);
    lemma_normalized_join(a, core);
    lemma_normalized_join(name + b + seq![sep] + c, target);
    lemma_normalized_join(name + b + seq![sep], c);
    lemma_normalized_join(name + b, seq![sep]);
    lemma_normalized_join(name, b);
    let t = name + normalized(b) + seq![plain_sep] + normalized(c) + target;
    lemma_separated(name, normalized(b), plain_sep, normalized(c), target);
    assert(normalized(core) == t);
    text::law_trim_ignores_blanks_around(normalized(a), t, normalized(d));
}

/// `name: option` names `name` and `option`, also if the name has several words.
#[verifier::spinoff_prover]
pub proof fn law_colon_form(name: Seq<char>, option: Seq<char>)
    requires
        nameable(name),
        nameable(option),
        !name.contains('='),
        !name.contains(':'),
        !option.contains('='),
        !is_remark(name),
        !(option[0] == '[' && option.last() == ']'),
    ensures
        parsed_line(name + ": "@ + option) == Some((name, option)),
        parsed_line(name + " : "@ + option) == Some((name, option)),
        parsed_line(name + ":"@ + option) == Some((name, option)),
{
    reveal_strlit(": ");
    reveal_strlit(" : ");
    reveal_strlit(":");
    let none = Seq::<char>::empty();
    let sp = seq![' '];
    law_separated_forms(none, name, none, ':', sp, option, none);
    law_separated_forms(none, name, sp, ':', sp, option, none);
    law_separated_forms(none, name, none, ':', none, option, none);
    assert(name + ": "@ + option =~= none + (name + none + seq![':'] + sp + option) + none);
    assert(name + " : "@ + option =~= none + (name + sp + seq![':'] + sp + option) + none);
    assert(name + ":"@ + option =~= none + (name + none + seq![':'] + none + option) + none);
}

/// `name [option]` names `name` and `option`, with any white space around each part, if neither
/// holds an equals sign or a colon, the option holds no opening bracket and the name does not start
/// like a comment.
#[verifier::spinoff_prover]
pub proof fn law_bracket_lines(
    a: Seq<char>,
    name: Seq<char>,
    b: Seq<char>,
    c: Seq<char>,
    option: Seq<char>,
    d: Seq<char>,
    e: Seq<char>,
)
    requires
        gap(a),
        gap(b),
        gap(c),
        gap(d),
        gap(e),
        nameable(name),
        nameable(option),
        !is_remark(name),
        !name.contains('=') && !name.contains(':'),
        !option.contains('=') && !option.contains(':') && !option.contains('['),
    ensures
        parsed_line(a + (name + b + seq!['['] + c + option + d + seq![']']) + e) == Some(
            (name, option),
        ),
{
    let core = name + b + seq!['['] + c + option + d + seq![']'];
    lemma_normalized_gap(a);
    lemma_normalized_gap(b);
    lemma_normalized_gap(c);
    lemma_normalized_gap(d);
    lemma_normalized_gap(e);
    lemma_normalized_brackets(name, b, c, option, d);
    lemma_normalized_join(a + core, e);
    lemma_normalized_join(a, core);
    lemma_bracketed(name, normalized(b), normalized(c), option, normalized(d));
    text::law_trim_ignores_blanks_around(normalized(a), normalized(core), normalized(e));
}

/// A line in the bracket form with plain characters.
proof fn lemma_normalized_brackets(
    name: Seq<char>,
    b: Seq<char>,
    c: Seq<char>,
    option: Seq<char>,
    d: Seq<char>,
)
    requires
        nameable(name),
        nameable(option),
    ensures
        normalized(name + b + seq!['['] + c + option + d + seq![']']) == name + normalized(b) + seq![
            '[',
        ] + normalized(c) + option + normalized(d) + seq![']'],
{
    assert(normalized(name) =~= name);
    assert(normalized(option) =~= option);
    assert(normalized(seq!['[']) =~= seq!['[']);
    assert(normalized(seq![']']) =~= seq![']']);
    lemma_normalized_join(name + b + seq!['['] + c + option + d, seq![']']);
    lemma_normalized_join(name + b + seq!['['] + c + option, d);
    lemma_normalized_join(name + b + seq!['['] + c, option);
    lemma_normalized_join(name + b + seq!['['], c);
    lemma_normalized_join(name + b, seq!['[']);
    lemma_normalized_join(name, b);
}

/// What a plain line in the bracket form names.
proof fn lemma_bracketed(
    name: Seq<char>,
    b: Seq<char>,
    c: Seq<char>,
    option: Seq<char>,
    d: Seq<char>,
)
    requires
        text::blank(b),
        text::blank(c),
        text::blank(d),
        nameable(name),
        nameable(option),
        !is_remark(name),
        !name.contains('=') && !name.contains(':'),
        !option.contains('=') && !option.contains(':') && !option.contains('['),
    ensures
        ({
            let t = name + b + seq!['['] + c + option + d + seq![']'];
            &&& !is_remark(t)
            &&& t.len() > 0
            &&& text::trim(t) == t
            &&& separated(t) is None
            &&& bracketed(t) == Some((name, option))
        }),
{
    let t = name + b + seq!['['] + c + option + d + seq![']'];
    let n = (name.len() + b.len()) as int;
    let none = Seq::<char>::empty();
    assert(t[0] == name[0]);
    assert(t.last() == ']');
    text::lemma_trimmed(t);
    let rest = b + seq!['['] + c + option + d + seq![']'];
    assert(t =~= name + rest);
    assert(rest[0] != '/') by {
        if b.len() > 0 {
            assert(rest[0] == b[0]);
        } else {
            assert(rest[0] == '[');
        }
    }
    lemma_no_remark(name, rest);
    let inner = c + option + d;
    assert(t =~= name + b + seq!['['] + inner + seq![']']);
    assert forall|i: int| 0 <= i < inner.len() implies #[trigger] inner[i] != '=' && inner[i] != ':'
        && inner[i] != '[' by {
        if i < c.len() {
            assert(inner[i] == c[i]);
        } else if i < c.len() + option.len() {
            assert(inner[i] == option[i - c.len()]);
        } else {
            assert(inner[i] == d[i - c.len() - option.len()]);
        }
    }
    assert(t[n] == '[');
    assert forall|i: int| 0 <= i < t.len() implies #[trigger] t[i] != '=' && t[i] != ':' && (i > n
        ==> t[i] != '[') by {
        if i < name.len() {
            assert(t[i] == name[i]);
        } else if i < n {
            assert(t[i] == b[i - name.len()]);
        } else if n < i < t.len() - 1 {
            assert(t[i] == inner[i - n - 1]);
        }
    }
    text::lemma_first_index_is(t, '=', t.len() as int);
    text::lemma_first_index_is(t, ':', t.len() as int);
    text::lemma_last_index_is(t, '[', n);
    assert(t.take(n) =~= none + name + b);
    assert(t.subrange(n + 1, t.len() - 1) =~= c + option + d);
    text::law_trim_ignores_blanks_around(none, name, b);
    text::law_trim_ignores_blanks_around(c, option, d);
    text::lemma_trimmed(name);
    text::lemma_trimmed(option);
}

/// Lines that are no presets: those with nothing on them, comments, and those without an equals
/// sign, a colon or a closing bracket at the end.
pub proof fn law_other_lines_are_no_presets(a: Seq<char>, s: Seq<char>)
    requires
        gap(a),
    ensures
        parsed_line(a) is None,
        parsed_line(a + (seq!['#'] + s)) is None,
        parsed_line(a + (seq!['/', '/'] + s)) is None,
        nameable(s) && !s.contains('=') && !s.contains(':') && s.last() != ']' ==> parsed_line(s)
            is None,
{
    lemma_normalized_gap(a);
    let blank = normalized(a);
    text::lemma_trim(blank);
    if text::trim(blank).len() > 0 {
        let t = text::trim(blank);
        assert(t[0] == blank[text::leading_space(blank)]);
    }
    lemma_remark_is_read(a, seq!['#'] + s);
    lemma_remark_is_read(a, seq!['/', '/'] + s);
    if nameable(s) && !s.contains('=') && !s.contains(':') && s.last() != ']' {
        lemma_plain_line(s);
        assert(forall|i: int| 0 <= i < s.len() ==> #[trigger] s[i] != '=' && s[i] != ':');
        text::lemma_first_index_is(s, '=', s.len() as int);
        text::lemma_first_index_is(s, ':', s.len() as int);
    }
}

/// A comment behind a gap is a comment.
proof fn lemma_remark_is_read(a: Seq<char>, r: Seq<char>)
    requires
        gap(a),
        is_remark(r),
    ensures
        parsed_line(a + r) is None,
{
    let none = Seq::<char>::empty();
    lemma_normalized_join(a, r);
    lemma_normalized_gap(a);
    let m = normalized(r);
    assert(m[0] == r[0]);
    if r.len() > 1 {
        assert(m[1] == normalized_char(r[1]));
    }
    text::law_trim_ignores_blanks_around(normalized(a), m, none);
    assert(normalized(a) + m + none =~= normalized(a) + m);
    text::lemma_trim(m);
    let t = text::trim(m);
    let n = text::leading_space(m);
    if n > 0 {
        assert(text::white_space(m[0]));
    }
    if r[0] == '#' {
        if t.len() > 0 {
            assert(t[0] == m[0]);
        }
    } else {
        if t.len() > 1 {
            assert(t[0] == m[0] && t[1] == m[1]);
        } else {
            assert(t.len() == 1 ==> text::white_space(m[1]));
        }
    }
}

/// What a preset names stands on its line: the name at the start, the option behind it, with an
/// equals sign, a colon or a bracket on the line; and both are trimmed and not empty.
pub proof fn law_presets_name_what_stands_there(line: Seq<char>)
    ensures
        parsed_line(line) matches Some((name, option)) ==> {
            let t = text::trim(normalized(line));
            &&& name.len() > 0
            &&& option.len() > 0
            &&& text::trim(name) == name
            &&& text::trim(option) == option
            &&& name.is_prefix_of(t)
            &&& text::contains(t.skip(name.len() as int), option)
            &&& t.contains('=') || t.contains(':') || t.last() == ']'
            &&& t[0] != '#'
            &&& !seq!['/', '/'].is_prefix_of(t)
        },
{
    let t = text::trim(normalized(line));
    if let Some((name, option)) = parsed_line(line) {
        text::law_trim_is_idempotent(normalized(line));
        if seq!['/', '/'].is_prefix_of(t) {
            assert(t[0] == seq!['/', '/'][0] && t[1] == seq!['/', '/'][1]);
        }
        if separated(t) is Some {
            lemma_separated_stands_there(t, name, option);
        } else {
            lemma_bracketed_stands_there(t, name, option);
        }
    }
}

/// What a line with a separator names stands on it.
proof fn lemma_separated_stands_there(t: Seq<char>, name: Seq<char>, option: Seq<char>)
    requires
        text::trim(t) == t,
        separated(t) == Some((name, option)),
    ensures
        text::trim(name) == name,
        text::trim(option) == option,
        name.is_prefix_of(t),
        text::contains(t.skip(name.len() as int), option),
        t.contains('=') || t.contains(':'),
{
    text::lemma_first_index(t, '=');
    text::lemma_first_index(t, ':');
    let n = separator(t);
    assert(t[n] == '=' || t[n] == ':');
    lemma_front_is_prefix(t, n);
    let raw = t.skip(n + 1);
    let inner = text::trim(raw);
    text::law_trim_is_idempotent(raw);
    lemma_trim_inside(raw, 0, raw.len() as int);
    assert(raw.subrange(0, raw.len() as int) =~= raw);
    if inner.len() >= 2 && inner[0] == '[' && inner.last() == ']' {
        text::law_trim_is_idempotent(inner.subrange(1, inner.len() - 1));
        lemma_trim_inside(inner, 1, inner.len() - 1);
        lemma_contains_chain(raw, inner, option);
    }
    let rest = t.skip(name.len() as int);
    assert(rest.subrange(n + 1 - name.len(), rest.len() as int) =~= raw);
    assert(text::occurs_at(rest, raw, n + 1 - name.len()));
    lemma_contains_chain(rest, raw, option);
}

/// What a line in the bracket form names stands on it.
proof fn lemma_bracketed_stands_there(t: Seq<char>, name: Seq<char>, option: Seq<char>)
    requires
        text::trim(t) == t,
        bracketed(t) == Some((name, option)),
    ensures
        text::trim(name) == name,
        text::trim(option) == option,
        name.is_prefix_of(t),
        text::contains(t.skip(name.len() as int), option),
        t.last() == ']',
{
    text::lemma_last_index(t, '[');
    let n = text::last_index(t, '[');
    lemma_front_is_prefix(t, n);
    let raw = t.subrange(n + 1, t.len() - 1);
    text::law_trim_is_idempotent(raw);
    let rest = t.skip(name.len() as int);
    lemma_trim_inside(raw, 0, raw.len() as int);
    assert(raw.subrange(0, raw.len() as int) =~= raw);
    assert(rest.subrange(n + 1 - name.len(), rest.len() - 1) =~= raw);
    assert(text::occurs_at(rest, raw, n + 1 - name.len()));
    lemma_contains_chain(rest, raw, option);
}

/// What is trimmed off the front of a trimmed text is its start.
proof fn lemma_front_is_prefix(t: Seq<char>, n: int)
    requires
        0 <= n <= t.len(),
        text::trim(t) == t,
        text::trim(t.take(n)).len() > 0,
    ensures
        text::trim(t.take(n)).is_prefix_of(t),
        text::trim(t.take(n)).len() <= n,
        text::trim(text::trim(t.take(n))) == text::trim(t.take(n)),
{
    let front = t.take(n);
    text::law_trim_is_idempotent(front);
    text::lemma_trim(front);
    text::lemma_trim(t);
    let name = text::trim(front);
    assert(!text::white_space(t[0]));
    assert(text::leading_space(front) == 0) by {
        if text::leading_space(front) > 0 {
            assert(text::white_space(front[0]));
        }
    }
    assert(name =~= t.take(name.len() as int));
}

/// A trimmed part of a text stands in it.
proof fn lemma_trim_inside(s: Seq<char>, from: int, to: int)
    requires
        0 <= from <= to <= s.len(),
    ensures
        text::contains(s, text::trim(s.subrange(from, to))),
{
    let raw = s.subrange(from, to);
    text::lemma_trim(raw);
    let t = text::trim(raw);
    let k = text::leading_space(raw);
    assert(s.subrange(from + k, from + k + t.len()) =~= t);
    assert(text::occurs_at(s, t, from + k));
}

/// What stands in a part stands in the whole.
proof fn lemma_contains_chain(whole: Seq<char>, part: Seq<char>, piece: Seq<char>)
    requires
        text::contains(whole, part),
        text::contains(part, piece),
    ensures
        text::contains(whole, piece),
{
    let i = choose|i: int| text::occurs_at(whole, part, i);
    let k = choose|k: int| text::occurs_at(part, piece, k);
    assert(whole.subrange(i + k, i + k + piece.len()) =~= piece) by {
        assert forall|m: int| 0 <= m < piece.len() implies whole.subrange(
            i + k,
            i + k + piece.len(),
        )[m] == piece[m] by {
            assert(part.subrange(k, k + piece.len())[m] == part[k + m]);
            assert(whole.subrange(i, i + part.len())[k + m] == whole[i + k + m]);
        }
    }
    assert(text::occurs_at(whole, piece, i + k));
}

/// No preset is passed over: every line that names a setting and an option is among the presets.
pub proof fn law_no_preset_is_passed_over(
    lines: Seq<Seq<char>>,
    n: int,
    name: Seq<char>,
    option: Seq<char>,
)
    requires
        1 <= n <= lines.len(),
        parsed_line(lines[n - 1]) == Some((name, option)),
    ensures
        numbered_presets(lines).contains((n, name, option)),
    decreases lines.len(),
{
    let rest = lines.drop_last();
    let found = numbered_presets(lines);
    if n == lines.len() {
        assert(found.last() == (n, name, option));
    } else {
        assert(rest[n - 1] == lines[n - 1]);
        law_no_preset_is_passed_over(rest, n, name, option);
        let before = numbered_presets(rest);
        let i = choose|i: int| 0 <= i < before.len() && before[i] == (n, name, option);
        assert(found[i] == before[i]);
    }
}

/// Presets come in the order of their lines, at most one per line, each with the number of the
/// line that it stands on.
pub proof fn law_presets_keep_their_lines(lines: Seq<Seq<char>>)
    ensures
        ({
            let found = numbered_presets(lines);
            &&& forall|i: int|
                0 <= i < found.len() ==> {
                    let (n, name, option) = #[trigger] found[i];
                    1 <= n <= lines.len() && parsed_line(lines[n - 1]) == Some((name, option))
                }
            &&& forall|i: int, k: int|
                0 <= i < k < found.len() ==> (#[trigger] found[i]).0 < (#[trigger] found[k]).0
        }),
    decreases lines.len(),
{
    if lines.len() > 0 {
        let rest = lines.drop_last();
        law_presets_keep_their_lines(rest);
        let before = numbered_presets(rest);
        let found = numbered_presets(lines);
        assert forall|i: int| 0 <= i < found.len() implies ({
            let (n, name, option) = #[trigger] found[i];
            1 <= n <= lines.len() && parsed_line(lines[n - 1]) == Some((name, option))
        }) by {
            if i < before.len() {
                assert(found[i] == before[i]);
                assert(rest[before[i].0 - 1] == lines[before[i].0 - 1]);
            }
        }
        assert forall|i: int, k: int| 0 <= i < k < found.len() implies (#[trigger] found[i]).0 < (
        #[trigger] found[k]).0 by {
            assert(found[i] == before[i]);
            if k < before.len() {
                assert(found[k] == before[k]);
            }
        }
    }
}

// ---------------------------------------------------------------------------
// Applying presets
// ---------------------------------------------------------------------------

/// What applying presets did.
pub struct PresetApplyOutcome {
    pub applied: usize,
    pub unchanged: usize,
    pub errors: Vec<String>,
    /// Question, token, offset and summary of each change, for the history.
    pub logs: Vec<(String, String, String, String)>,
}

/// A row of the history: question, token, offset and summary.
#[verifier::ext_equal]
pub struct LogRow {
    pub question: Seq<char>,
    pub token: Seq<char>,
    pub offset: Seq<char>,
    pub summary: Seq<char>,
}

/// How far presets have been applied.
#[verifier::ext_equal]
pub struct Applied {
    pub settings: Seq<SettingView>,
    pub applied: nat,
    pub unchanged: nat,
    pub errors: Seq<Seq<char>>,
    pub logs: Seq<LogRow>,
}

/// Rows as texts.
pub open spec fn log_rows(v: Seq<(String, String, String, String)>) -> Seq<LogRow> {
    Seq::new(
        v.len(),
        |i: int|
            LogRow {
                question: v[i].0@,
                token: v[i].1@,
                offset: v[i].2@,
                summary: v[i].3@,
            },
    )
}

/// No preset has been applied yet.
pub open spec fn unapplied(settings: Seq<SettingView>) -> Applied {
    Applied { settings, applied: 0, unchanged: 0, errors: seq![], logs: seq![] }
}

/// The option of `s` that `target` names, or the number of options.
pub open spec fn named_option(s: SettingView, target: Seq<char>) -> int {
    first_where(
        s.options,
        |o: Seq<char>|
            option_matches(target, nvram::pretty(o)) || option_matches(target, option_label(o)),
    )
}

/// The active option of `s` for display.
pub open spec fn shown_choice(s: SettingView) -> Seq<char> {
    match s.active_option {
        Some(i) if 0 <= i < s.options.len() => nvram::pretty(s.options[i]),
        _ => "(unset)"@,
    }
}

/// Where a setting stands, for messages.
pub open spec fn place(s: SettingView) -> Seq<char> {
    "'"@ + text::trim(s.setup_question) + "' (token "@ + text::trim(s.token) + " / offset "@
        + text::trim(s.offset) + ")"@
}

/// The start of a message about a line.
pub open spec fn line_head(line: int) -> Seq<char> {
    "Line "@ + text::decimal(line as nat) + ": "@
}

/// The message for a preset that names no setting.
pub open spec fn not_found(line: int, name: Seq<char>) -> Seq<char> {
    line_head(line) + "setting not found: "@ + name
}

/// The message for a setting without options.
pub open spec fn not_selectable(line: int, s: SettingView) -> Seq<char> {
    line_head(line) + place(s) + " does not have selectable options."@
}

/// The message for an option that a setting does not have.
pub open spec fn option_not_found(line: int, target: Seq<char>, s: SettingView) -> Seq<char> {
    line_head(line) + "option '"@ + target + "' not found for "@ + place(s) + "."@
}

/// The row for a change of `s`.
pub open spec fn log_row(s: SettingView, summary: Seq<char>) -> LogRow {
    LogRow { question: s.setup_question, token: s.token, offset: s.offset, summary }
}

/// A preset is applied to one setting.
pub open spec fn apply_at(st: Applied, line: int, target: Seq<char>, i: int) -> Applied {
    let s = st.settings[i];
    let k = named_option(s, target);
    if s.options.len() == 0 {
        Applied { errors: st.errors.push(not_selectable(line, s)), ..st }
    } else if k >= s.options.len() {
        Applied { errors: st.errors.push(option_not_found(line, target, s)), ..st }
    } else if s.active_option == Some(k) {
        let shown = nvram::pretty(s.options[k]);
        Applied {
            unchanged: st.unchanged + 1,
            logs: st.logs.push(
                log_row(s, change_format::change(shown, shown) + " (preset)"@),
            ),
            ..st
        }
    } else {
        Applied {
            settings: st.settings.update(i, with_choice(s, k)),
            applied: st.applied + 1,
            logs: st.logs.push(
                log_row(s, change_format::change(shown_choice(s), nvram::pretty(s.options[k]))),
            ),
            ..st
        }
    }
}

/// A preset is applied to these settings, in order.
pub open spec fn apply_each(st: Applied, line: int, target: Seq<char>, found: Seq<int>) -> Applied
    decreases found.len(),
{
    if found.len() == 0 {
        st
    } else {
        apply_at(apply_each(st, line, target, found.drop_last()), line, target, found.last())
    }
}

/// The positions of the settings that `name` stands for.
pub open spec fn named_settings(settings: Seq<SettingView>, name: Seq<char>) -> Seq<int>
    decreases settings.len(),
{
    if settings.len() == 0 {
        seq![]
    } else {
        let before = named_settings(settings.drop_last(), name);
        if name_matches(name, text::trim(settings.last().setup_question)) {
            before.push(settings.len() - 1)
        } else {
            before
        }
    }
}

/// A preset is applied to every setting that its name stands for.
pub open spec fn apply_preset(st: Applied, preset: (int, Seq<char>, Seq<char>)) -> Applied {
    let found = named_settings(st.settings, preset.1);
    if found.len() == 0 {
        Applied { errors: st.errors.push(not_found(preset.0, preset.1)), ..st }
    } else {
        apply_each(st, preset.0, preset.2, found)
    }
}

/// Presets are applied in order.
pub open spec fn apply_all(st: Applied, presets: Seq<(int, Seq<char>, Seq<char>)>) -> Applied
    decreases presets.len(),
{
    if presets.len() == 0 {
        st
    } else {
        apply_preset(apply_all(st, presets.drop_last()), presets.last())
    }
}

/// The settings and the outcome so far.
pub open spec fn outcome_view(settings: Seq<BiosSetting>, o: PresetApplyOutcome) -> Applied {
    Applied {
        settings: nvram::setting_views(settings),
        applied: o.applied as nat,
        unchanged: o.unchanged as nat,
        errors: text::texts(o.errors@),
        logs: log_rows(o.logs@),
    }
}

/// A name and a question, both ASCII, of which neither holds the letters and digits of the other
/// one behind the other, with or without plural endings.
pub open spec fn clearly_apart(name: Seq<char>, question: Seq<char>) -> bool {
    &&& text::all_ascii(name)
    &&& text::all_ascii(question)
    &&& compact(name).len() > 0
    &&& !one_holds_the_other(compact(name), compact(question))
}

/// The positions of the settings that `name` stands for.
fn find_named_settings(settings: &[BiosSetting], name: &str) -> (r: Vec<usize>)
    ensures
        r@.map_values(|i: usize| i as int) == named_settings(
            nvram::setting_views(settings@),
            name@,
        ),
        forall|j: int| 0 <= j < r@.len() ==> #[trigger] r@[j] < settings@.len(),
        forall|i: int|
            0 <= i < settings@.len() && clearly_apart(
                name@,
                text::trim((#[trigger] settings@[i]).setup_question@),
            ) ==> !name_matches(name@, text::trim(settings@[i].setup_question@)),
{
    let mut r: Vec<usize> = Vec::new();
    let ghost all = nvram::setting_views(settings@);
    let mut i: usize = 0;
    assert(r@.map_values(|i: usize| i as int) =~= seq![]);
    while i < settings.len()
        invariant
            i <= settings.len(),
            all == nvram::setting_views(settings@),
            r@.map_values(|i: usize| i as int) == named_settings(all.take(i as int), name@),
            forall|j: int| 0 <= j < r@.len() ==> #[trigger] r@[j] < i,
            forall|j: int|
                0 <= j < i && clearly_apart(
                    name@,
                    text::trim((#[trigger] settings@[j]).setup_question@),
                ) ==> !name_matches(name@, text::trim(settings@[j].setup_question@)),
        decreases settings.len() - i,
    {
        let ghost old_r = r@;
        let question: String = text::trim_text(settings[i].setup_question.as_str());
        proof {
            assert(all.take(i + 1).drop_last() =~= all.take(i as int));
            assert(all.take(i + 1).last() == settings@[i as int]@);
        }
        if setting_name_matches(name, question.as_str()) {
            r.push(i);
            assert(r@.map_values(|i: usize| i as int) =~= old_r.map_values(
                |i: usize| i as int,
            ).push(i as int));
        }
        i += 1;
    }
    assert(all.take(all.len() as int) =~= all);
    r
}

/// The option of `s` that `target` names, or the number of options.
fn find_named_option(s: &BiosSetting, target: &str) -> (r: usize)
    ensures
        r == named_option(s@, target@),
        r <= s.options@.len(),
{
    let ghost p = |o: Seq<char>|
        option_matches(target@, nvram::pretty(o)) || option_matches(target@, option_label(o));
    let ghost all = text::texts(s.options@);
    let mut k: usize = 0;
    while k < s.options.len()
        invariant_except_break
            forall|j: int| 0 <= j < k ==> !p(#[trigger] all[j]),
        invariant
            k <= s.options.len(),
            all == text::texts(s.options@),
            p == (|o: Seq<char>|
                option_matches(target@, nvram::pretty(o)) || option_matches(
                    target@,
                    option_label(o),
                )),
        ensures
            forall|j: int| 0 <= j < k ==> !p(#[trigger] all[j]),
            k < s.options.len() ==> p(all[k as int]),
        decreases s.options.len() - k,
    {
        let full: String = option_pretty(s.options[k].as_str());
        let label: String = option_label_only(s.options[k].as_str());
        assert(all[k as int] == s.options@[k as int]@);
        if option_value_matches(target, full.as_str()) || option_value_matches(
            target,
            label.as_str(),
        ) {
            break;
        }
        k += 1;
    }
    proof {
        lemma_first_where_is(all, p, k as int);
    }
    k
}

/// The active option of `s` for display.
pub fn show_choice(s: &BiosSetting) -> (r: String)
    ensures
        r@ == shown_choice(s@),
{
    if let Some(i) = s.active_option {
        if i < s.options.len() {
            return option_pretty(s.options[i].as_str());
        }
    }
    "(unset)".to_owned()
}

/// Where a setting stands, for messages.
fn place_text(s: &BiosSetting) -> (r: String)
    ensures
        r@ == place(s@),
{
    let question: String = text::trim_text(s.setup_question.as_str());
    let token: String = text::trim_text(s.token.as_str());
    let offset: String = text::trim_text(s.offset.as_str());
    "'".to_owned().concat(question.as_str()).concat("' (token ").concat(token.as_str()).concat(
        " / offset ",
    ).concat(offset.as_str()).concat(")")
}

/// The start of a message about a line.
fn line_head_text(line: usize) -> (r: String)
    ensures
        r@ == line_head(line as int),
{
    let number: String = text::to_text(&text::numeral_chars(line as u64, 10));
    "Line ".to_owned().concat(number.as_str()).concat(": ")
}

/// Adds a row to the history of `out`.
fn push_log(out: &mut PresetApplyOutcome, s: &BiosSetting, summary: String)
    ensures
        log_rows(final(out).logs@) == log_rows(old(out).logs@).push(log_row(s@, summary@)),
        final(out).applied == old(out).applied,
        final(out).unchanged == old(out).unchanged,
        final(out).errors == old(out).errors,
        final(out).logs@.len() == old(out).logs@.len() + 1,
{
    out.logs.push((s.setup_question.clone(), s.token.clone(), s.offset.clone(), summary));
    assert(log_rows(out.logs@) =~= log_rows(old(out).logs@).push(log_row(s@, summary@)));
}

/// Adds an error to `out`.
fn push_error(out: &mut PresetApplyOutcome, message: String)
    ensures
        text::texts(final(out).errors@) == text::texts(old(out).errors@).push(message@),
        final(out).applied == old(out).applied,
        final(out).unchanged == old(out).unchanged,
        final(out).logs == old(out).logs,
{
    out.errors.push(message);
    assert(text::texts(out.errors@) =~= text::texts(old(out).errors@).push(message@));
}

/// Applies a preset to one setting.
fn apply_to_setting(
    settings: &mut [BiosSetting],
    out: &mut PresetApplyOutcome,
    line: usize,
    target: &str,
    i: usize,
)
    requires
        i < old(settings)@.len(),
        old(out).applied + old(out).unchanged == old(out).logs@.len(),
    ensures
        outcome_view(final(settings)@, *final(out)) == apply_at(
            outcome_view(old(settings)@, *old(out)),
            line as int,
            target@,
            i as int,
        ),
        final(settings)@.len() == old(settings)@.len(),
        final(out).applied + final(out).unchanged == final(out).logs@.len(),
{
    let ghost before = outcome_view(settings@, *out);
    let ghost s0 = settings@[i as int]@;
    assert(before.settings[i as int] == s0);
    if settings[i].options.len() == 0 {
        let message: String = line_head_text(line).concat(place_text(&settings[i]).as_str()).concat(
            " does not have selectable options.",
        );
        push_error(out, message);
        assert(outcome_view(settings@, *out) =~= apply_at(before, line as int, target@, i as int));
        return;
    }
    let k: usize = find_named_option(&settings[i], target);
    if k >= settings[i].options.len() {
        let message: String = line_head_text(line).concat("option '").concat(target).concat(
            "' not found for ",
        ).concat(place_text(&settings[i]).as_str()).concat(".");
        push_error(out, message);
        assert(outcome_view(settings@, *out) =~= apply_at(before, line as int, target@, i as int));
        return;
    }
    let shown: String = option_pretty(settings[i].options[k].as_str());
    assert(text::texts(settings@[i as int].options@)[k as int]
        == settings@[i as int].options@[k as int]@);
    let already: bool = match settings[i].active_option {
        Some(a) => a == k,
        None => false,
    };
    if already {
        let summary: String = change_format::change_summary(shown.as_str(), shown.as_str()).concat(
            " (preset)",
        );
        push_log(out, &settings[i], summary);
        assert(out.logs.len() == out.logs@.len());
        out.unchanged = out.unchanged + 1;
        assert(outcome_view(settings@, *out) =~= apply_at(before, line as int, target@, i as int));
        return;
    }
    let old_shown: String = show_choice(&settings[i]);
    push_log(
        out,
        &settings[i],
        change_format::change_summary(old_shown.as_str(), shown.as_str()),
    );
    assert(out.logs.len() == out.logs@.len());
    out.applied = out.applied + 1;
    settings[i].active_option = Some(k);
    proof {
        assert(settings@[i as int]@ =~= with_choice(s0, k as int));
        assert(nvram::setting_views(settings@) =~= before.settings.update(
            i as int,
            with_choice(s0, k as int),
        ));
        assert(outcome_view(settings@, *out) =~= apply_at(before, line as int, target@, i as int));
    }
}

/// Applies a preset to every setting that its name stands for.
fn apply_one_preset(
    settings: &mut [BiosSetting],
    out: &mut PresetApplyOutcome,
    line: usize,
    name: &str,
    target: &str,
)
    requires
        old(out).applied + old(out).unchanged == old(out).logs@.len(),
    ensures
        outcome_view(final(settings)@, *final(out)) == apply_preset(
            outcome_view(old(settings)@, *old(out)),
            (line as int, name@, target@),
        ),
        final(settings)@.len() == old(settings)@.len(),
        final(out).applied + final(out).unchanged == final(out).logs@.len(),
        forall|i: int|
            0 <= i < old(settings)@.len() && clearly_apart(
                name@,
                text::trim((#[trigger] old(settings)@[i]).setup_question@),
            ) ==> !name_matches(name@, text::trim(old(settings)@[i].setup_question@)),
{
    let ghost before = outcome_view(settings@, *out);
    let found: Vec<usize> = find_named_settings(settings, name);
    let ghost all = found@.map_values(|i: usize| i as int);
    if found.len() == 0 {
        let message: String = line_head_text(line).concat("setting not found: ").concat(name);
        push_error(out, message);
        assert(outcome_view(settings@, *out) =~= apply_preset(
            before,
            (line as int, name@, target@),
        ));
        return;
    }
    let mut j: usize = 0;
    while j < found.len()
        invariant
            j <= found.len(),
            all == found@.map_values(|i: usize| i as int),
            settings@.len() == old(settings)@.len(),
            forall|m: int| 0 <= m < found@.len() ==> #[trigger] found@[m] < settings@.len(),
            out.applied + out.unchanged == out.logs@.len(),
            outcome_view(settings@, *out) == apply_each(
                before,
                line as int,
                target@,
                all.take(j as int),
            ),
        decreases found.len() - j,
    {
        proof {
            assert(all.take(j + 1).drop_last() =~= all.take(j as int));
            assert(all.take(j + 1).last() == found@[j as int]);
        }
        apply_to_setting(settings, out, line, target, found[j]);
        j += 1;
    }
    assert(all.take(all.len() as int) =~= all);
}

/// Applies presets to the settings, in order, and says what came of each.
pub fn apply_presets_to_settings(
    settings: &mut [BiosSetting],
    parsed: &[(usize, String, String)],
) -> (r: PresetApplyOutcome)
    ensures
        outcome_view(final(settings)@, r) == apply_all(
            unapplied(nvram::setting_views(old(settings)@)),
            preset_views(parsed@),
        ),
        final(settings)@.len() == old(settings)@.len(),
        forall|i: int|
            0 <= i < old(settings)@.len() && (forall|j: int|
                0 <= j < parsed@.len() ==> clearly_apart(
                    (#[trigger] parsed@[j]).1@,
                    text::trim(old(settings)@[i].setup_question@),
                )) ==> (#[trigger] final(settings)@[i])@ == old(settings)@[i]@,
{
    let mut out: PresetApplyOutcome = PresetApplyOutcome {
        applied: 0,
        unchanged: 0,
        errors: Vec::new(),
        logs: Vec::new(),
    };
    let ghost before = unapplied(nvram::setting_views(settings@));
    let ghost all = preset_views(parsed@);
    assert(outcome_view(settings@, out) =~= before);
    let mut i: usize = 0;
    while i < parsed.len()
        invariant
            i <= parsed.len(),
            all == preset_views(parsed@),
            settings@.len() == old(settings)@.len(),
            out.applied + out.unchanged == out.logs@.len(),
            outcome_view(settings@, out) == apply_all(before, all.take(i as int)),
            before == unapplied(nvram::setting_views(old(settings)@)),
            forall|m: int, j: int|
                0 <= m < old(settings)@.len() && 0 <= j < i && clearly_apart(
                    (#[trigger] parsed@[j]).1@,
                    text::trim((#[trigger] old(settings)@[m]).setup_question@),
                ) ==> !name_matches(
                    parsed@[j].1@,
                    text::trim(old(settings)@[m].setup_question@),
                ),
        decreases parsed.len() - i,
    {
        let ghost now = settings@;
        proof {
            law_presets_only_select_options(before, all.take(i as int));
            assert(all.take(i + 1).drop_last() =~= all.take(i as int));
            assert(all.take(i + 1).last() == (
                parsed@[i as int].0 as int,
                parsed@[i as int].1@,
                parsed@[i as int].2@,
            ));
        }
        apply_one_preset(
            settings,
            &mut out,
            parsed[i].0,
            parsed[i].1.as_str(),
            parsed[i].2.as_str(),
        );
        proof {
            assert forall|m: int, j: int|
                0 <= m < old(settings)@.len() && 0 <= j < i + 1 && clearly_apart(
                    (#[trigger] parsed@[j]).1@,
                    text::trim((#[trigger] old(settings)@[m]).setup_question@),
                ) implies !name_matches(
                parsed@[j].1@,
                text::trim(old(settings)@[m].setup_question@),
            ) by {
                assert(before.settings[m] == old(settings)@[m]@);
                assert(nvram::setting_views(now)[m] == now[m]@);
                assert(now[m].setup_question@ == old(settings)@[m].setup_question@);
            }
        }
        i += 1;
    }
    assert(all.take(all.len() as int) =~= all);
    proof {
        assert forall|m: int|
            0 <= m < old(settings)@.len() && (forall|j: int|
                0 <= j < parsed@.len() ==> clearly_apart(
                    (#[trigger] parsed@[j]).1@,
                    text::trim(old(settings)@[m].setup_question@),
                )) implies (#[trigger] settings@[m])@ == old(settings)@[m]@ by {
            let s = before.settings[m];
            assert(s == old(settings)@[m]@);
            assert forall|j: int| 0 <= j < all.len() implies !name_matches(
                (#[trigger] all[j]).1,
                text::trim(s.setup_question),
            ) by {
                assert(clearly_apart(parsed@[j].1@, text::trim(old(settings)@[m].setup_question@)));
            }
            lemma_nothing_selected(s, all);
            law_last_preset_decides(before, all, m);
            assert(nvram::setting_views(settings@)[m] == settings@[m]@);
        }
    }
    out
}

// ---------------------------------------------------------------------------
// Laws of applying presets
// ---------------------------------------------------------------------------

/// `after` is `before` but for the active option, which is one of its options if it is another.
pub open spec fn reselected(before: SettingView, after: SettingView) -> bool {
    &&& after == (SettingView { active_option: after.active_option, ..before })
    &&& after.active_option == before.active_option || {
        &&& after.active_option is Some
        &&& 0 <= after.active_option->0 < before.options.len()
    }
}

/// The settings of `after` are those of `before`, reselected.
pub open spec fn all_reselected(before: Seq<SettingView>, after: Seq<SettingView>) -> bool {
    &&& after.len() == before.len()
    &&& forall|i: int| 0 <= i < before.len() ==> reselected(before[i], #[trigger] after[i])
}

/// `target` needs no change of `s`: it names no option of `s`, or the active one.
pub open spec fn settled(s: SettingView, target: Seq<char>) -> bool {
    ||| s.options.len() == 0
    ||| named_option(s, target) >= s.options.len()
    ||| s.active_option == Some(named_option(s, target))
}

/// The positions of named settings are positions.
proof fn lemma_named_settings(settings: Seq<SettingView>, name: Seq<char>)
    ensures
        forall|j: int|
            0 <= j < named_settings(settings, name).len() ==> 0 <= #[trigger] named_settings(
                settings,
                name,
            )[j] < settings.len(),
    decreases settings.len(),
{
    if settings.len() > 0 {
        lemma_named_settings(settings.drop_last(), name);
        let before = named_settings(settings.drop_last(), name);
        let all = named_settings(settings, name);
        assert forall|j: int| 0 <= j < all.len() implies 0 <= #[trigger] all[j]
            < settings.len() by {
            if j < before.len() {
                assert(all[j] == before[j]);
            }
        }
    }
}

/// Two settings differ in nothing but the active option.
spec fn same_but_choice(a: SettingView, b: SettingView) -> bool {
    b == (SettingView { active_option: b.active_option, ..a })
}

/// The settings differ in nothing but the active options.
spec fn same_but_selection(a: Seq<SettingView>, b: Seq<SettingView>) -> bool {
    &&& a.len() == b.len()
    &&& forall|i: int| 0 <= i < a.len() ==> same_but_choice(a[i], #[trigger] b[i])
}

proof fn lemma_reselected_are_same(a: Seq<SettingView>, b: Seq<SettingView>)
    requires
        all_reselected(a, b),
    ensures
        same_but_selection(a, b),
{
    assert forall|i: int| 0 <= i < a.len() implies same_but_choice(a[i], #[trigger] b[i]) by {
        assert(reselected(a[i], b[i]));
    }
}

/// Which settings a name stands for depends on the questions only.
proof fn lemma_same_names(a: Seq<SettingView>, b: Seq<SettingView>, name: Seq<char>)
    requires
        same_but_selection(a, b),
    ensures
        named_settings(a, name) == named_settings(b, name),
    decreases a.len(),
{
    if a.len() > 0 {
        assert forall|i: int| 0 <= i < a.drop_last().len() implies same_but_choice(
            a.drop_last()[i],
            #[trigger] b.drop_last()[i],
        ) by {
            assert(b.drop_last()[i] == b[i]);
        }
        lemma_same_names(a.drop_last(), b.drop_last(), name);
        assert(same_but_choice(a.last(), b[b.len() - 1]));
    }
}

proof fn lemma_apply_at(st: Applied, line: int, target: Seq<char>, i: int)
    requires
        0 <= i < st.settings.len(),
    ensures
        all_reselected(st.settings, apply_at(st, line, target, i).settings),
        settled(apply_at(st, line, target, i).settings[i], target),
        forall|j: int|
            0 <= j < st.settings.len() && settled(#[trigger] st.settings[j], target) ==> settled(
                apply_at(st, line, target, i).settings[j],
                target,
            ),
        apply_at(st, line, target, i).applied + apply_at(st, line, target, i).unchanged
            + st.logs.len() == apply_at(st, line, target, i).logs.len() + st.applied
            + st.unchanged,
        apply_at(st, line, target, i).errors.len() + apply_at(st, line, target, i).logs.len()
            == st.errors.len() + st.logs.len() + 1,
{
    let s = st.settings[i];
    lemma_first_where(
        s.options,
        |o: Seq<char>|
            option_matches(target, nvram::pretty(o)) || option_matches(target, option_label(o)),
    );
}

proof fn lemma_apply_each(st: Applied, line: int, target: Seq<char>, found: Seq<int>)
    requires
        forall|j: int| 0 <= j < found.len() ==> 0 <= #[trigger] found[j] < st.settings.len(),
    ensures
        all_reselected(st.settings, apply_each(st, line, target, found).settings),
        forall|j: int|
            0 <= j < found.len() ==> settled(
                apply_each(st, line, target, found).settings[#[trigger] found[j]],
                target,
            ),
        apply_each(st, line, target, found).applied + apply_each(st, line, target, found).unchanged
            + st.logs.len() == apply_each(st, line, target, found).logs.len() + st.applied
            + st.unchanged,
        apply_each(st, line, target, found).errors.len() + apply_each(
            st,
            line,
            target,
            found,
        ).logs.len() == st.errors.len() + st.logs.len() + found.len(),
    decreases found.len(),
{
    if found.len() > 0 {
        let rest = found.drop_last();
        assert forall|j: int| 0 <= j < rest.len() implies 0 <= #[trigger] rest[j]
            < st.settings.len() by {
            assert(rest[j] == found[j]);
        }
        lemma_apply_each(st, line, target, rest);
        let mid = apply_each(st, line, target, rest);
        assert(found.last() == found[found.len() - 1]);
        lemma_apply_at(mid, line, target, found.last());
        let after = apply_at(mid, line, target, found.last());
        assert forall|i: int| 0 <= i < st.settings.len() implies reselected(
            st.settings[i],
            #[trigger] after.settings[i],
        ) by {
            assert(reselected(st.settings[i], mid.settings[i]));
            assert(reselected(mid.settings[i], after.settings[i]));
        }
        assert forall|j: int| 0 <= j < found.len() implies settled(
            after.settings[#[trigger] found[j]],
            target,
        ) by {
            if j < rest.len() {
                assert(rest[j] == found[j]);
                assert(settled(mid.settings[rest[j]], target));
            }
        }
    }
}

/// A preset that needs no change makes none.
proof fn lemma_settled_stay(st: Applied, line: int, target: Seq<char>, found: Seq<int>)
    requires
        forall|j: int| 0 <= j < found.len() ==> settled(st.settings[#[trigger] found[j]], target),
    ensures
        apply_each(st, line, target, found).settings == st.settings,
        apply_each(st, line, target, found).applied == st.applied,
    decreases found.len(),
{
    if found.len() > 0 {
        let rest = found.drop_last();
        assert forall|j: int| 0 <= j < rest.len() implies settled(
            st.settings[#[trigger] rest[j]],
            target,
        ) by {
            assert(rest[j] == found[j]);
        }
        lemma_settled_stay(st, line, target, rest);
        assert(settled(st.settings[found[found.len() - 1]], target));
    }
}

/// Applying presets changes nothing but which options are active, and every option it activates
/// exists.
pub proof fn law_presets_only_select_options(
    st: Applied,
    presets: Seq<(int, Seq<char>, Seq<char>)>,
)
    ensures
        all_reselected(st.settings, apply_all(st, presets).settings),
    decreases presets.len(),
{
    if presets.len() > 0 {
        let mid = apply_all(st, presets.drop_last());
        law_presets_only_select_options(st, presets.drop_last());
        let p = presets.last();
        let after = apply_preset(mid, p);
        lemma_named_settings(mid.settings, p.1);
        lemma_apply_each(mid, p.0, p.2, named_settings(mid.settings, p.1));
        assert forall|i: int| 0 <= i < st.settings.len() implies reselected(
            st.settings[i],
            #[trigger] after.settings[i],
        ) by {
            assert(reselected(st.settings[i], mid.settings[i]));
            assert(reselected(mid.settings[i], after.settings[i]));
        }
    }
}

/// How many answers these presets get: one for each setting that a preset names, and one if it names
/// none.
pub open spec fn answers(
    settings: Seq<SettingView>,
    presets: Seq<(int, Seq<char>, Seq<char>)>,
) -> nat
    decreases presets.len(),
{
    if presets.len() == 0 {
        0
    } else {
        let named = named_settings(settings, presets.last().1).len();
        answers(settings, presets.drop_last()) + if named == 0 {
            1
        } else {
            named
        }
    }
}

/// Every setting that a preset selects an option of is counted once and has its row in the history,
/// and every preset is answered, by a row or an error, once for each setting that it names and once
/// if it names none.
pub proof fn law_presets_are_accounted_for(
    settings: Seq<SettingView>,
    presets: Seq<(int, Seq<char>, Seq<char>)>,
)
    ensures
        ({
            let after = apply_all(unapplied(settings), presets);
            &&& after.applied + after.unchanged == after.logs.len()
            &&& after.errors.len() + after.logs.len() == answers(settings, presets)
        }),
    decreases presets.len(),
{
    if presets.len() > 0 {
        law_presets_are_accounted_for(settings, presets.drop_last());
        law_presets_only_select_options(unapplied(settings), presets.drop_last());
        let mid = apply_all(unapplied(settings), presets.drop_last());
        let p = presets.last();
        lemma_reselected_are_same(settings, mid.settings);
        lemma_same_names(settings, mid.settings, p.1);
        lemma_named_settings(mid.settings, p.1);
        lemma_apply_each(mid, p.0, p.2, named_settings(mid.settings, p.1));
    }
}

/// A preset that has been applied changes nothing when it is applied again.
pub proof fn law_preset_twice_is_once(
    settings: Seq<SettingView>,
    preset: (int, Seq<char>, Seq<char>),
)
    ensures
        ({
            let once = apply_preset(unapplied(settings), preset).settings;
            let again = apply_preset(unapplied(once), preset);
            again.settings == once && again.applied == 0
        }),
{
    let found = named_settings(settings, preset.1);
    let once = apply_preset(unapplied(settings), preset).settings;
    lemma_named_settings(settings, preset.1);
    lemma_apply_each(unapplied(settings), preset.0, preset.2, found);
    lemma_reselected_are_same(settings, once);
    lemma_same_names(settings, once, preset.1);
    lemma_settled_stay(unapplied(once), preset.0, preset.2, found);
}

/// The option that a preset selects in `s`, if its name stands for `s` and its target names an
/// option of `s`.
pub open spec fn selected_by(s: SettingView, preset: (int, Seq<char>, Seq<char>)) -> Option<int> {
    if name_matches(preset.1, text::trim(s.setup_question)) && named_option(s, preset.2)
        < s.options.len() {
        Some(named_option(s, preset.2))
    } else {
        None
    }
}

/// The option that the last of these presets to select one selects in `s`.
pub open spec fn selected_last(
    s: SettingView,
    presets: Seq<(int, Seq<char>, Seq<char>)>,
) -> Option<int>
    decreases presets.len(),
{
    if presets.len() == 0 {
        None
    } else if selected_by(s, presets.last()) is Some {
        selected_by(s, presets.last())
    } else {
        selected_last(s, presets.drop_last())
    }
}

/// `s` with the option `k` selected, if there is one to select.
pub open spec fn with_selected(s: SettingView, k: Option<int>) -> SettingView {
    match k {
        Some(t) => with_choice(s, t),
        None => s,
    }
}

/// A name stands for the settings whose question it matches.
proof fn lemma_named_exactly(settings: Seq<SettingView>, name: Seq<char>, i: int)
    requires
        0 <= i < settings.len(),
    ensures
        named_settings(settings, name).contains(i) == name_matches(
            name,
            text::trim(settings[i].setup_question),
        ),
    decreases settings.len(),
{
    let rest = settings.drop_last();
    let before = named_settings(rest, name);
    let all = named_settings(settings, name);
    let last = settings.len() - 1;
    lemma_named_settings(rest, name);
    if i < last {
        lemma_named_exactly(rest, name, i);
        if before.contains(i) {
            let j = choose|j: int| 0 <= j < before.len() && before[j] == i;
            assert(all[j] == i);
        }
        if all.contains(i) {
            let j = choose|j: int| 0 <= j < all.len() && all[j] == i;
            assert(before[j] == i);
        }
    } else {
        if name_matches(name, text::trim(settings.last().setup_question)) {
            assert(all[all.len() - 1] == i);
        } else if before.contains(i) {
            let j = choose|j: int| 0 <= j < before.len() && before[j] == i;
            assert(0 <= before[j] < rest.len());
        }
    }
}

/// `s` with the option that `target` names selected, if there is one.
spec fn chosen(s: SettingView, target: Seq<char>) -> SettingView {
    if named_option(s, target) < s.options.len() {
        with_choice(s, named_option(s, target))
    } else {
        s
    }
}

proof fn lemma_apply_at_chooses(st: Applied, line: int, target: Seq<char>, i: int)
    requires
        0 <= i < st.settings.len(),
    ensures
        apply_at(st, line, target, i).settings == st.settings.update(
            i,
            chosen(st.settings[i], target),
        ),
        chosen(chosen(st.settings[i], target), target) == chosen(st.settings[i], target),
{
    let s = st.settings[i];
    lemma_first_where(
        s.options,
        |o: Seq<char>|
            option_matches(target, nvram::pretty(o)) || option_matches(target, option_label(o)),
    );
    if s.active_option == Some(named_option(s, target)) {
        assert(with_choice(s, named_option(s, target)) =~= s);
    }
    assert(apply_at(st, line, target, i).settings =~= st.settings.update(i, chosen(s, target)));
}

proof fn lemma_apply_each_chooses(
    st: Applied,
    line: int,
    target: Seq<char>,
    found: Seq<int>,
    i: int,
)
    requires
        0 <= i < st.settings.len(),
        forall|j: int| 0 <= j < found.len() ==> 0 <= #[trigger] found[j] < st.settings.len(),
    ensures
        apply_each(st, line, target, found).settings.len() == st.settings.len(),
        apply_each(st, line, target, found).settings[i] == if found.contains(i) {
            chosen(st.settings[i], target)
        } else {
            st.settings[i]
        },
    decreases found.len(),
{
    if found.len() > 0 {
        let rest = found.drop_last();
        let last = found.last();
        assert forall|j: int| 0 <= j < rest.len() implies 0 <= #[trigger] rest[j]
            < st.settings.len() by {
            assert(rest[j] == found[j]);
        }
        lemma_apply_each_chooses(st, line, target, rest, i);
        let mid = apply_each(st, line, target, rest);
        assert(last == found[found.len() - 1]);
        lemma_apply_at_chooses(mid, line, target, last);
        lemma_apply_at_chooses(st, line, target, i);
        if rest.contains(i) {
            let j = choose|j: int| 0 <= j < rest.len() && rest[j] == i;
            assert(found[j] == i);
        }
        if found.contains(i) && i != last {
            let j = choose|j: int| 0 <= j < found.len() && found[j] == i;
            assert(rest[j] == i);
        }
    }
}

/// Presets act on each setting alone: the last one that selects an option of it decides, and a
/// setting in which none selects an option stays as it is.
pub proof fn law_last_preset_decides(
    st: Applied,
    presets: Seq<(int, Seq<char>, Seq<char>)>,
    i: int,
)
    requires
        0 <= i < st.settings.len(),
    ensures
        apply_all(st, presets).settings.len() == st.settings.len(),
        apply_all(st, presets).settings[i] == with_selected(
            st.settings[i],
            selected_last(st.settings[i], presets),
        ),
    decreases presets.len(),
{
    if presets.len() > 0 {
        let rest = presets.drop_last();
        let p = presets.last();
        law_last_preset_decides(st, rest, i);
        let mid = apply_all(st, rest);
        let found = named_settings(mid.settings, p.1);
        lemma_named_settings(mid.settings, p.1);
        lemma_named_exactly(mid.settings, p.1, i);
        lemma_apply_each_chooses(mid, p.0, p.2, found, i);
    }
}

/// A target names the first option that it stands for, by its number and label or by its label
/// alone, and no option if it stands for none.
pub proof fn law_first_matching_option_is_named(s: SettingView, target: Seq<char>)
    ensures
        ({
            let k = named_option(s, target);
            &&& 0 <= k <= s.options.len()
            &&& k < s.options.len() ==> option_matches(target, nvram::pretty(s.options[k]))
                || option_matches(target, option_label(s.options[k]))
            &&& forall|j: int|
                0 <= j < k ==> !option_matches(target, nvram::pretty(#[trigger] s.options[j]))
                    && !option_matches(target, option_label(s.options[j]))
        }),
{
    lemma_first_where(
        s.options,
        |o: Seq<char>|
            option_matches(target, nvram::pretty(o)) || option_matches(target, option_label(o)),
    );
}

/// `target` and the text have nothing to do with each other: neither starts with the other, with or
/// without plural endings.
pub open spec fn unlike(target: Seq<char>, option: Seq<char>) -> bool {
    !one_starts_the_other(compact(target), compact(option)) && compact(option).len() > 0
}

/// A target that is the label of an option selects it, if it is not the start of an earlier one or
/// the other way round. The words that stand for others are left out: those for on and off may
/// select an earlier option.
pub proof fn law_label_selects_its_option(s: SettingView, target: Seq<char>, k: int)
    requires
        0 <= k < s.options.len(),
        compact(option_label(s.options[k])) == compact(target),
        compact(target) != "on"@,
        compact(target) != "off"@,
        compact(target) != "enable"@,
        compact(target) != "enabled"@,
        compact(target) != "disable"@,
        compact(target) != "disabled"@,
        forall|j: int|
            0 <= j < k ==> unlike(target, option_label(#[trigger] s.options[j])) && unlike(
                target,
                nvram::pretty(s.options[j]),
            ),
    ensures
        named_option(s, target) == k,
{
    let p = |o: Seq<char>|
        option_matches(target, nvram::pretty(o)) || option_matches(target, option_label(o));
    law_only_letters_and_digits_matter_in_options(target, option_label(s.options[k]));
    assert forall|j: int| 0 <= j < k implies !p(#[trigger] s.options[j]) by {
        law_when_options_match(target, nvram::pretty(s.options[j]));
        law_when_options_match(target, option_label(s.options[j]));
    }
    lemma_first_where_is(s.options, p, k);
}

/// A preset whose name is the question of one setting and has nothing to do with the other ones, and
/// whose option is the label of one of its options, selects that option and leaves the other
/// settings as they are.
pub proof fn law_preset_selects_what_it_says(
    settings: Seq<SettingView>,
    line: int,
    i: int,
    k: int,
    target: Seq<char>,
)
    requires
        0 <= i < settings.len(),
        0 <= k < settings[i].options.len(),
        compact(option_label(settings[i].options[k])) == compact(target),
        forall|j: int|
            0 <= j < k ==> unlike(target, option_label(#[trigger] settings[i].options[j])) && unlike(
                target,
                nvram::pretty(settings[i].options[j]),
            ),
        compact(target) != "on"@,
        compact(target) != "off"@,
        compact(target) != "enable"@,
        compact(target) != "enabled"@,
        compact(target) != "disable"@,
        compact(target) != "disabled"@,
        forall|j: int|
            0 <= j < settings.len() && j != i ==> !name_matches(
                text::trim(settings[i].setup_question),
                text::trim((#[trigger] settings[j]).setup_question),
            ),
    ensures
        apply_all(
            unapplied(settings),
            seq![(line, text::trim(settings[i].setup_question), target)],
        ).settings == settings.update(
            i,
            SettingView { active_option: Some(k), ..settings[i] },
        ),
{
    let name = text::trim(settings[i].setup_question);
    let presets = seq![(line, name, target)];
    let after = apply_all(unapplied(settings), presets).settings;
    let s = settings[i];
    law_label_selects_its_option(s, target, k);
    law_name_matches_itself(name);
    assert(presets.drop_last().len() == 0);
    law_last_preset_decides(unapplied(settings), presets, i);
    assert forall|j: int| 0 <= j < settings.len() implies #[trigger] after[j] == settings.update(
        i,
        SettingView { active_option: Some(k), ..s },
    )[j] by {
        law_last_preset_decides(unapplied(settings), presets, j);
        assert(selected_last(settings[j], presets.drop_last()) is None);
    }
    assert(after =~= settings.update(i, SettingView { active_option: Some(k), ..s }));
}

/// What comes of a preset on a single setting that it names: an error that says where, if the
/// setting has no options or not the one that is asked for; else the option is active, and the row
/// in the history says from what to what.
pub proof fn law_outcome_for_one_setting(s: SettingView, line: int, name: Seq<char>, target: Seq<char>)
    requires
        line >= 0,
    ensures
        ({
            let after = apply_all(unapplied(seq![s]), seq![(line, name, target)]);
            let k = named_option(s, target);
            let head = "Line "@ + text::decimal(line as nat) + ": "@;
            let at = "'"@ + text::trim(s.setup_question) + "' (token "@ + text::trim(s.token)
                + " / offset "@ + text::trim(s.offset) + ")"@;
            &&& after.applied + after.unchanged + after.errors.len() == 1
            &&& !name_matches(name, text::trim(s.setup_question)) ==> after.settings == seq![s]
                && after.errors == seq![head + "setting not found: "@ + name] && after.logs.len()
                == 0
            &&& name_matches(name, text::trim(s.setup_question)) ==> {
                &&& s.options.len() == 0 ==> after.settings == seq![s] && after.errors == seq![
                    head + at + " does not have selectable options."@,
                ]
                &&& s.options.len() > 0 && k >= s.options.len() ==> after.settings == seq![s]
                    && after.errors == seq![
                    head + "option '"@ + target + "' not found for "@ + at + "."@,
                ]
                &&& k < s.options.len() ==> {
                    &&& after.settings.len() == 1 && after.settings[0].active_option == Some(k)
                    &&& after.logs.len() == 1
                    &&& after.logs[0].question == s.setup_question
                    &&& after.logs[0].token == s.token
                    &&& after.logs[0].offset == s.offset
                    &&& after.applied == (if s.active_option == Some(k) {
                        0nat
                    } else {
                        1nat
                    })
                    &&& s.active_option != Some(k) ==> after.logs[0].summary
                        == change_format::change(shown_choice(s), nvram::pretty(s.options[k]))
                    &&& s.active_option == Some(k) ==> after.logs[0].summary
                        == change_format::change(
                        nvram::pretty(s.options[k]),
                        nvram::pretty(s.options[k]),
                    ) + " (preset)"@
                }
            }
        }),
{
    let presets = seq![(line, name, target)];
    let st = unapplied(seq![s]);
    let after = apply_all(st, presets);
    assert(presets.drop_last().len() == 0);
    assert(apply_all(st, presets.drop_last()) == st);
    assert(presets.last() == (line, name, target));
    let settings = seq![s];
    assert(settings.drop_last().len() == 0);
    assert(named_settings(settings.drop_last(), name) =~= seq![]);
    assert(settings.last() == s);
    law_first_matching_option_is_named(s, target);
    let found = named_settings(settings, name);
    if name_matches(name, text::trim(s.setup_question)) {
        assert(found =~= seq![0int]);
        assert(found.drop_last().len() == 0);
        assert(apply_each(st, line, target, found.drop_last()) == st);
        assert(after == apply_at(st, line, target, 0));
        assert(st.settings[0] == s);
    } else {
        assert(found.len() == 0);
    }
}

/// Presets that name other settings select nothing.
proof fn lemma_nothing_selected(s: SettingView, presets: Seq<(int, Seq<char>, Seq<char>)>)
    requires
        forall|j: int|
            0 <= j < presets.len() ==> !name_matches(
                (#[trigger] presets[j]).1,
                text::trim(s.setup_question),
            ),
    ensures
        selected_last(s, presets) is None,
    decreases presets.len(),
{
    if presets.len() > 0 {
        let rest = presets.drop_last();
        assert(presets.last() == presets[presets.len() - 1]);
        assert forall|j: int| 0 <= j < rest.len() implies !name_matches(
            (#[trigger] rest[j]).1,
            text::trim(s.setup_question),
        ) by {
            assert(rest[j] == presets[j]);
        }
        lemma_nothing_selected(s, rest);
    }
}

/// Which option presets select in a setting does not depend on the one that is active.
proof fn lemma_selected_whatever_is_active(
    s: SettingView,
    k: Option<int>,
    presets: Seq<(int, Seq<char>, Seq<char>)>,
)
    ensures
        selected_last(with_selected(s, k), presets) == selected_last(s, presets),
    decreases presets.len(),
{
    if presets.len() > 0 {
        lemma_selected_whatever_is_active(s, k, presets.drop_last());
    }
}

proof fn lemma_each_alike(
    a: Applied,
    b: Applied,
    line: int,
    target: Seq<char>,
    found: Seq<int>,
)
    requires
        same_but_selection(a.settings, b.settings),
        a.errors == b.errors,
        forall|j: int| 0 <= j < found.len() ==> 0 <= #[trigger] found[j] < a.settings.len(),
    ensures
        apply_each(a, line, target, found).errors == apply_each(b, line, target, found).errors,
        same_but_selection(
            apply_each(a, line, target, found).settings,
            apply_each(b, line, target, found).settings,
        ),
        apply_each(a, line, target, found).settings.len() == a.settings.len(),
    decreases found.len(),
{
    if found.len() > 0 {
        let rest = found.drop_last();
        let last = found.last();
        assert forall|j: int| 0 <= j < rest.len() implies 0 <= #[trigger] rest[j]
            < a.settings.len() by {
            assert(rest[j] == found[j]);
        }
        lemma_each_alike(a, b, line, target, rest);
        assert(last == found[found.len() - 1]);
        let x = apply_each(a, line, target, rest);
        let y = apply_each(b, line, target, rest);
        lemma_apply_at_chooses(x, line, target, last);
        lemma_apply_at_chooses(y, line, target, last);
        assert(same_but_choice(x.settings[last], y.settings[last]));
        let u = apply_at(x, line, target, last);
        let w = apply_at(y, line, target, last);
        assert forall|i: int| 0 <= i < u.settings.len() implies same_but_choice(
            u.settings[i],
            #[trigger] w.settings[i],
        ) by {
            assert(same_but_choice(x.settings[i], y.settings[i]));
        }
    }
}

/// Which errors presets give does not depend on which options are active.
proof fn lemma_errors_alike(a: Applied, b: Applied, presets: Seq<(int, Seq<char>, Seq<char>)>)
    requires
        same_but_selection(a.settings, b.settings),
        a.errors == b.errors,
    ensures
        apply_all(a, presets).errors == apply_all(b, presets).errors,
        same_but_selection(apply_all(a, presets).settings, apply_all(b, presets).settings),
    decreases presets.len(),
{
    if presets.len() > 0 {
        let rest = presets.drop_last();
        let p = presets.last();
        lemma_errors_alike(a, b, rest);
        let x = apply_all(a, rest);
        let y = apply_all(b, rest);
        lemma_same_names(x.settings, y.settings, p.1);
        lemma_named_settings(x.settings, p.1);
        lemma_each_alike(x, y, p.0, p.2, named_settings(x.settings, p.1));
    }
}

/// A list of presets that has been applied changes nothing when it is applied again, and gives the
/// same errors.
pub proof fn law_presets_twice_are_once(
    settings: Seq<SettingView>,
    presets: Seq<(int, Seq<char>, Seq<char>)>,
)
    ensures
        ({
            let once = apply_all(unapplied(settings), presets);
            let again = apply_all(unapplied(once.settings), presets);
            again.settings == once.settings && again.errors == once.errors
        }),
{
    let once = apply_all(unapplied(settings), presets).settings;
    let again = apply_all(unapplied(once), presets).settings;
    law_presets_only_select_options(unapplied(settings), presets);
    lemma_reselected_are_same(settings, once);
    lemma_errors_alike(unapplied(settings), unapplied(once), presets);
    law_presets_only_select_options(unapplied(once), presets);
    assert forall|i: int| 0 <= i < once.len() implies #[trigger] again[i] == once[i] by {
        let s = settings[i];
        let k = selected_last(s, presets);
        law_last_preset_decides(unapplied(settings), presets, i);
        law_last_preset_decides(unapplied(once), presets, i);
        lemma_selected_whatever_is_active(s, k, presets);
        assert(with_selected(with_selected(s, k), k) =~= with_selected(s, k));
    }
    assert(again =~= once);
}

/// Applying two lists of presets joined is applying the one and then the other: the settings, the
/// counts, the errors and the history are the same.
pub proof fn law_joined_presets_apply_in_turn(
    st: Applied,
    first: Seq<(int, Seq<char>, Seq<char>)>,
    second: Seq<(int, Seq<char>, Seq<char>)>,
)
    ensures
        apply_all(st, first + second) == apply_all(apply_all(st, first), second),
    decreases second.len(),
{
    if second.len() == 0 {
        assert(first + second =~= first);
    } else {
        law_joined_presets_apply_in_turn(st, first, second.drop_last());
        assert((first + second).drop_last() =~= first + second.drop_last());
        assert((first + second).last() == second.last());
    }
}

/// What was done in one call, and then in another that started from the settings it left.
pub open spec fn summed(first: Applied, second: Applied) -> Applied {
    Applied {
        settings: second.settings,
        applied: first.applied + second.applied,
        unchanged: first.unchanged + second.unchanged,
        errors: first.errors + second.errors,
        logs: first.logs + second.logs,
    }
}

proof fn lemma_each_summed(
    st: Applied,
    x: Applied,
    line: int,
    target: Seq<char>,
    found: Seq<int>,
)
    ensures
        apply_each(summed(st, x), line, target, found) == summed(
            st,
            apply_each(x, line, target, found),
        ),
    decreases found.len(),
{
    if found.len() > 0 {
        let rest = found.drop_last();
        lemma_each_summed(st, x, line, target, rest);
        let y = apply_each(x, line, target, rest);
        assert(apply_at(summed(st, y), line, target, found.last()) =~= summed(
            st,
            apply_at(y, line, target, found.last()),
        ));
    }
}

proof fn lemma_all_summed(
    st: Applied,
    x: Applied,
    presets: Seq<(int, Seq<char>, Seq<char>)>,
)
    ensures
        apply_all(summed(st, x), presets) == summed(st, apply_all(x, presets)),
    decreases presets.len(),
{
    if presets.len() > 0 {
        let rest = presets.drop_last();
        let p = presets.last();
        lemma_all_summed(st, x, rest);
        let y = apply_all(x, rest);
        lemma_each_summed(st, y, p.0, p.2, named_settings(y.settings, p.1));
        assert(apply_preset(summed(st, y), p) =~= summed(st, apply_preset(y, p)));
    }
}

/// Two lists of presets that are applied in two calls do what one call with both does: the settings
/// are the same, and the counts, the errors and the rows of the history of the two add up.
pub proof fn law_two_calls_are_one(
    settings: Seq<SettingView>,
    first: Seq<(int, Seq<char>, Seq<char>)>,
    second: Seq<(int, Seq<char>, Seq<char>)>,
)
    ensures
        ({
            let before = apply_all(unapplied(settings), first);
            let after = apply_all(unapplied(before.settings), second);
            apply_all(unapplied(settings), first + second) == summed(before, after)
        }),
{
    let mid = apply_all(unapplied(settings), first);
    law_joined_presets_apply_in_turn(unapplied(settings), first, second);
    assert(summed(mid, unapplied(mid.settings)) =~= mid);
    lemma_all_summed(mid, unapplied(mid.settings), second);
}

/// Carrying out a plan changes nothing but which options are active, and every option it activates
/// exists.
pub proof fn law_plan_only_selects_options(
    settings: Seq<SettingView>,
    key: Seq<char>,
    sel: int,
    source: Seq<Seq<char>>,
)
    requires
        0 <= sel < source.len(),
    ensures
        all_reselected(
            settings,
            with_choices(settings, sync_plan(settings, key, sel, source)),
        ),
{
    lemma_plan_applied(settings, key, sel, source);
    let after = with_choices(settings, sync_plan(settings, key, sel, source));
    assert forall|i: int| 0 <= i < settings.len() implies reselected(
        settings[i],
        #[trigger] after[i],
    ) by {
        let s = settings[i];
        lemma_first_where(s.options, |o: Seq<char>| same_choice(source[sel], o));
    }
}

/// Where a choice goes: a setting of another name, or one without options, stays as it is; one with
/// the same options takes the same position; any other takes its first option that is the same choice
/// (the same text, the same label, or a match), and stays as it is if it has none.
pub proof fn law_choice_goes_to_settings_of_the_same_name(
    settings: Seq<SettingView>,
    key: Seq<char>,
    sel: int,
    source: Seq<Seq<char>>,
    j: int,
)
    requires
        0 <= sel < source.len(),
        0 <= j < settings.len(),
    ensures
        ({
            let s = settings[j];
            let after = with_choices(settings, sync_plan(settings, key, sel, source));
            &&& after.len() == settings.len()
            &&& text::trim(s.setup_question) != text::trim(key) || s.options.len() == 0 ==> after[j]
                == s
            &&& text::trim(s.setup_question) == text::trim(key) && s.options == source ==> after[j]
                == (SettingView { active_option: Some(sel), ..s })
            &&& text::trim(s.setup_question) == text::trim(key) && s.options != source ==> {
                &&& forall|t: int|
                    0 <= t < s.options.len() && same_choice(source[sel], #[trigger] s.options[t])
                        && (forall|u: int|
                        0 <= u < t ==> !same_choice(source[sel], #[trigger] s.options[u]))
                        ==> after[j] == (SettingView { active_option: Some(t), ..s })
                &&& (forall|t: int|
                    0 <= t < s.options.len() ==> !same_choice(
                        source[sel],
                        #[trigger] s.options[t],
                    )) ==> after[j] == s
            }
        }),
{
    let s = settings[j];
    let p = |o: Seq<char>| same_choice(source[sel], o);
    lemma_plan_applied(settings, key, sel, source);
    lemma_first_where(s.options, p);
    let after = with_choices(settings, sync_plan(settings, key, sel, source));
    if s.active_option == Some(sel) {
        assert((SettingView { active_option: Some(sel), ..s }) =~= s);
    }
    assert forall|t: int|
        text::trim(s.setup_question) == text::trim(key) && s.options != source && 0 <= t
            < s.options.len() && same_choice(source[sel], #[trigger] s.options[t]) && (forall|
            u: int,
        |
            0 <= u < t ==> !same_choice(source[sel], #[trigger] s.options[u])) implies after[j] == (
    SettingView { active_option: Some(t), ..s }) by {
        lemma_first_where_is(s.options, p, t);
        if s.active_option == Some(t) {
            assert((SettingView { active_option: Some(t), ..s }) =~= s);
        }
    }
    if forall|t: int|
        0 <= t < s.options.len() ==> !same_choice(source[sel], #[trigger] s.options[t]) {
        lemma_first_where_is(s.options, p, s.options.len() as int);
    }
}

/// When two options are the same choice: the same for display, the same label, or one the start of
/// the other, letter case and punctuation aside.
pub proof fn law_same_choices(chosen: Seq<char>, option: Seq<char>)
    ensures
        compact(option_label(option)) == compact(option_label(chosen)) ==> same_choice(
            chosen,
            option,
        ),
        same_choice(chosen, option) ==> nvram::pretty(option) == nvram::pretty(chosen)
            || option_label(option) == option_label(chosen) || option_matches(
            nvram::pretty(chosen),
            nvram::pretty(option),
        ) || option_matches(option_label(chosen), option_label(option)),
        option_matches(nvram::pretty(chosen), nvram::pretty(option)) ==> same_choice(chosen, option),
        same_choice(chosen, chosen),
{
    if compact(option_label(option)) == compact(option_label(chosen)) {
        law_only_letters_and_digits_matter_in_options(option_label(chosen), option_label(option));
    }
}

/// Which characters stand for plain ones in preset lines: a byte order mark and the two no-break
/// spaces for a space, the equals sign and the colon in full width for the plain ones.
pub proof fn law_plain_characters(c: char)
    ensures
        c == '\u{feff}' || c == '\u{a0}' || c == '\u{202f}' ==> normalized_char(c) == ' ',
        c == '\u{ff1d}' ==> normalized_char(c) == '=',
        c == '\u{ff1a}' ==> normalized_char(c) == ':',
        normalized_char(c) != c ==> c == '\u{feff}' || c == '\u{a0}' || c == '\u{202f}' || c
            == '\u{ff1d}' || c == '\u{ff1a}',
{
}

/// A byte order mark in front of preset lines does not matter, and what stands on the lines is
/// numbered from one on.
pub proof fn law_preset_input_is_read_by_lines(input: Seq<char>)
    ensures
        parsed_input(seq!['\u{feff}'] + input) == parsed_input(input),
        input.len() == 0 || input[0] != '\u{feff}' ==> parsed_input(input) == numbered_presets(
            text::lines(input),
        ),
{
    assert((seq!['\u{feff}'] + input).drop_first() =~= input);
}

/// Of each part of a text the letters and digits are kept, and of each character itself if it is one
/// and nothing otherwise.
pub proof fn law_letters_and_digits_are_kept(a: Seq<char>, b: Seq<char>, c: char)
    ensures
        letters(a + b) == letters(a) + letters(b),
        compact(a + b) == compact(a) + compact(b),
        letters(seq![c]) == (if text::alphanumeric(c) {
            seq![c]
        } else {
            seq![]
        }),
        compact(seq![c]) == letters(text::ascii_lower_text(seq![c])),
    decreases b.len(),
{
    lemma_compact_join(a, b);
    lemma_compact_lower(seq![c]);
    assert(seq![c].drop_last() =~= seq![]);
    assert(letters(seq![c].drop_last()) =~= seq![]);
    assert(letters(seq![c]) =~= (if text::alphanumeric(c) {
        seq![c]
    } else {
        seq![]
    }));
    if b.len() == 0 {
        assert(a + b =~= a);
        assert(letters(a) + letters(b) =~= letters(a));
    } else {
        law_letters_and_digits_are_kept(a, b.drop_last(), c);
        assert((a + b).drop_last() =~= a + b.drop_last());
        assert((a + b).last() == b.last());
        assert(letters(a + b) =~= letters(a) + letters(b));
    }
}

} // verus!
