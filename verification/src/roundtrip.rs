//! What a written dump reads back as.

use vstd::prelude::*;

use crate::codec;
use crate::grammar;
use crate::layout;
use crate::nvram;
use crate::nvram::{ReadState, SettingView};
use crate::stars;
use crate::text;

verus! {

// ---------------------------------------------------------------------------
// Plain text
// ---------------------------------------------------------------------------

/// `s` holds no comment and no line feed.
pub open spec fn plain(s: Seq<char>) -> bool {
    &&& forall|i: int| 0 <= i < s.len() ==> #[trigger] s[i] != '\n'
    &&& forall|i: int| 0 <= i < s.len() - 1 ==> !(#[trigger] s[i] == '/' && s[i + 1] == '/')
}

/// A value that can stand on a line: plain, without white space around it.
pub open spec fn writable_value(v: Seq<char>) -> bool {
    plain(v) && text::trim(v) == v
}

/// No line holds a line feed.
pub open spec fn single_lines(lines: Seq<Seq<char>>) -> bool {
    forall|i: int| 0 <= i < lines.len() ==> !(#[trigger] lines[i]).contains('\n')
}

pub proof fn lemma_plain_part(s: Seq<char>, a: int, b: int)
    requires
        plain(s),
        0 <= a <= b <= s.len(),
    ensures
        plain(s.subrange(a, b)),
{
    let t = s.subrange(a, b);
    assert forall|i: int| 0 <= i < t.len() implies #[trigger] t[i] != '\n' by {
        assert(t[i] == s[a + i]);
    }
    assert forall|i: int| 0 <= i < t.len() - 1 implies !(#[trigger] t[i] == '/' && t[i + 1]
        == '/') by {
        assert(t[i] == s[a + i]);
        assert(t[i + 1] == s[a + i + 1]);
    }
}

pub proof fn lemma_plain_join(a: Seq<char>, b: Seq<char>)
    requires
        plain(a),
        plain(b),
        a.len() > 0 && b.len() > 0 ==> a.last() != '/' || b[0] != '/',
    ensures
        plain(a + b),
{
    let t = a + b;
    assert forall|i: int| 0 <= i < t.len() implies #[trigger] t[i] != '\n' by {
        if i < a.len() {
            assert(t[i] == a[i]);
        } else {
            assert(t[i] == b[i - a.len()]);
        }
    }
    assert forall|i: int| 0 <= i < t.len() - 1 implies !(#[trigger] t[i] == '/' && t[i + 1]
        == '/') by {
        if i + 1 < a.len() {
            assert(t[i] == a[i]);
            assert(t[i + 1] == a[i + 1]);
        } else if i >= a.len() {
            assert(t[i] == b[i - a.len()]);
            assert(t[i + 1] == b[i - a.len() + 1]);
        }
    }
}

// ---------------------------------------------------------------------------
// Statements
// ---------------------------------------------------------------------------

/// The text in front of a comment is plain, and it is a part of the line.
pub proof fn lemma_strip_comment(s: Seq<char>)
    requires
        !s.contains('\n'),
    ensures
        plain(grammar::strip_comment(s)),
        grammar::strip_comment(s).len() <= s.len(),
        grammar::strip_comment(s) == s.take(grammar::strip_comment(s).len() as int),
    decreases s.len(),
{
    let r = grammar::strip_comment(s);
    if s.len() == 0 || grammar::is_comment_tail(s) {
        assert(s.take(0) =~= r);
    } else {
        let t = s.drop_first();
        assert(!t.contains('\n')) by {
            if t.contains('\n') {
                let i = choose|i: int| 0 <= i < t.len() && t[i] == '\n';
                assert(s[i + 1] == '\n');
            }
        }
        lemma_strip_comment(t);
        let u = grammar::strip_comment(t);
        assert(s.contains(s[0]));
        if u.len() > 0 && s[0] == '/' && u[0] == '/' {
            assert(u[0] == t.take(u.len() as int)[0]);
            assert(s[1] == '/');
            assert(text::trim_start(s) == s);
        }
        let one = seq![s[0]];
        assert(plain(one)) by {
            assert(one.len() == 1);
        }
        lemma_plain_join(one, u);
        assert(r =~= s.take(r.len() as int)) by {
            assert forall|i: int| 0 <= i < r.len() implies #[trigger] r[i] == s[i] by {
                if i > 0 {
                    assert(u[i - 1] == t.take(u.len() as int)[i - 1]);
                }
            }
        }
    }
}

/// A plain text that ends in no white space stands as it is in front of what follows it, unless a
/// comment starts where they meet.
pub proof fn lemma_strip_behind(p: Seq<char>, x: Seq<char>)
    requires
        plain(p),
        p.len() > 0,
        !text::white_space(p.last()),
        x.len() > 0 ==> !(p.last() == '/' && x[0] == '/'),
    ensures
        grammar::strip_comment(p + x) == p + grammar::strip_comment(x),
    decreases p.len(),
{
    let all = p + x;
    text::lemma_leading_space(p);
    let n = text::leading_space(p);
    if n == p.len() {
        assert(text::white_space(p[p.len() - 1]));
    }
    assert forall|i: int| 0 <= i < n implies text::white_space(#[trigger] all[i]) by {
        assert(all[i] == p[i]);
    }
    assert(all[n] == p[n]);
    text::lemma_leading_space_is(all, n);
    let u = all.skip(n);
    assert(u[0] == p[n]);
    if grammar::is_comment(u) {
        assert(u[1] == '/');
        if n + 1 < p.len() {
            assert(u[1] == p[n + 1]);
            assert(p[n] == '/' && p[n + 1] == '/');
        } else {
            assert(u[1] == x[0]);
        }
    }
    let t = p.drop_first();
    let rest = grammar::strip_comment(x);
    assert(all.drop_first() =~= t + x);
    if t.len() > 0 {
        lemma_plain_part(p, 1, p.len() as int);
        assert(t =~= p.subrange(1, p.len() as int));
        assert(t.last() == p.last());
        lemma_strip_behind(t, x);
        assert(seq![p[0]] + (t + rest) =~= p + rest);
    } else {
        assert(t + x =~= x);
        assert(seq![p[0]] + rest =~= p + rest);
    }
}

/// What stands in front of a comment ends in no white space, and what it leaves out is white space
/// and the comment.
pub proof fn lemma_comment_tail(s: Seq<char>)
    requires
        !s.contains('\n'),
    ensures
        ({
            let r = grammar::strip_comment(s);
            &&& r.len() <= s.len()
            &&& r.len() > 0 ==> !text::white_space(r.last())
            &&& grammar::is_comment_tail(s.skip(r.len() as int))
            &&& 0 < r.len() < s.len() ==> !(r.last() == '/' && s[r.len() as int] == '/')
        }),
    decreases s.len(),
{
    let r = grammar::strip_comment(s);
    if s.len() == 0 || grammar::is_comment_tail(s) {
        assert(s.skip(0) =~= s);
    } else {
        let t = s.drop_first();
        let u = grammar::strip_comment(t);
        assert(!t.contains('\n')) by {
            if t.contains('\n') {
                let i = choose|i: int| 0 <= i < t.len() && t[i] == '\n';
                assert(s[i + 1] == '\n');
            }
        }
        lemma_comment_tail(t);
        assert(r.len() == 1 + u.len());
        assert(s.skip(r.len() as int) =~= t.skip(u.len() as int));
        if u.len() > 0 {
            assert(r.last() == u.last());
        } else {
            assert(t.skip(0) =~= t);
            assert(r.last() == s[0]);
            if s.len() > 1 && s[0] == '/' && s[1] == '/' {
                assert(text::trim_start(s) == s);
            }
        }
    }
}

/// The statement on a line is plain and trimmed.
pub proof fn lemma_statement(line: Seq<char>)
    requires
        !line.contains('\n'),
    ensures
        plain(grammar::statement(line)),
        text::trim(grammar::statement(line)) == grammar::statement(line),
        grammar::statement(line).len() > 0 ==> !text::white_space(grammar::statement(line)[0]),
{
    lemma_strip_comment(line);
    let s = grammar::strip_comment(line);
    text::lemma_trim(s);
    let a = text::leading_space(s);
    lemma_plain_part(s, a, a + text::trim(s).len());
    text::law_trim_is_idempotent(s);
}

/// The statement `s` up to its equals sign.
pub open spec fn header_of(s: Seq<char>) -> Seq<char> {
    s.take(text::first_index(s, '=') + 1)
}

/// A text behind the header of a key is what follows the key.
proof fn lemma_header(s: Seq<char>, word: Seq<char>, x: Seq<char>)
    requires
        grammar::after_key(s, word) is Some,
        !word.contains('='),
    ensures
        grammar::after_key(header_of(s) + x, word) == Some(x),
        header_of(s).len() <= s.len(),
        header_of(s) == s.take(header_of(s).len() as int),
        header_of(s).len() > word.len(),
        header_of(s).last() == '=',
{
    let rest = s.skip(word.len() as int);
    text::lemma_leading_space(rest);
    let n = text::leading_space(rest);
    let p = word.len() + n;
    assert(text::trim_start(rest)[0] == s[p]);
    assert forall|i: int| 0 <= i < p implies #[trigger] s[i] != '=' by {
        if i < word.len() {
            assert(grammar::fold(s[i]) == word[i]);
            assert(word.contains(word[i]));
        } else {
            assert(rest[i - word.len()] == s[i]);
        }
    }
    text::lemma_first_index_is(s, '=', p);
    let h = header_of(s);
    assert(h == s.take(p + 1));
    let t = h + x;
    assert forall|i: int| 0 <= i < word.len() implies grammar::fold(#[trigger] t[i]) == word[i] by {
        assert(t[i] == s[i]);
        assert(grammar::fold(s[i]) == word[i]);
    }
    let u = t.skip(word.len() as int);
    assert forall|i: int| 0 <= i < n implies text::white_space(#[trigger] u[i]) by {
        assert(u[i] == rest[i]);
    }
    assert(u[n] == s[p]);
    text::lemma_leading_space_is(u, n);
    assert(u.skip(n).drop_first() =~= x);
}

/// A statement that is about options is told so by its header.
pub proof fn lemma_options_header(s: Seq<char>, x: Seq<char>)
    requires
        grammar::kind_of(s) is Options,
    ensures
        grammar::kind_of(header_of(s) + x) == grammar::Kind::Options(
            grammar::value_after(x),
        ),
        0 < header_of(s).len() <= s.len(),
        header_of(s) == s.take(header_of(s).len() as int),
        header_of(s).last() == '=',
{
    reveal_strlit("setup");
    reveal_strlit("help");
    reveal_strlit("token");
    reveal_strlit("offset");
    reveal_strlit("width");
    reveal_strlit("bios");
    reveal_strlit("options");
    assert(!"options"@.contains('='));
    lemma_header(s, "options"@, x);
    let t = header_of(s) + x;
    assert(grammar::fold(t[0]) == 'o' && grammar::fold(t[1]) == 'p');
}

/// A statement that is about a value is told so by its header.
pub proof fn lemma_value_header(s: Seq<char>, x: Seq<char>)
    requires
        grammar::kind_of(s) is Value,
    ensures
        grammar::kind_of(header_of(s) + x) == grammar::Kind::Value(grammar::value_after(x)),
        0 < header_of(s).len() <= s.len(),
        header_of(s) == s.take(header_of(s).len() as int),
        header_of(s).last() == '=',
{
    reveal_strlit("setup");
    reveal_strlit("help");
    reveal_strlit("token");
    reveal_strlit("offset");
    reveal_strlit("width");
    reveal_strlit("bios");
    reveal_strlit("options");
    reveal_strlit("value");
    assert(!"value"@.contains('='));
    lemma_header(s, "value"@, x);
    let t = header_of(s) + x;
    assert(grammar::fold(t[0]) == 'v');
}

/// A statement that starts with a bracket or a star and is a bracket line is told so.
pub proof fn lemma_bracket_kind(s: Seq<char>)
    requires
        grammar::is_bracket(s),
    ensures
        grammar::kind_of(s) is Bracket,
{
    reveal_strlit("setup");
    reveal_strlit("help");
    reveal_strlit("token");
    reveal_strlit("offset");
    reveal_strlit("width");
    reveal_strlit("bios");
    reveal_strlit("options");
    reveal_strlit("value");
    assert(s[0] == '*' || s[0] == '[');
    assert(grammar::fold(s[0]) == s[0]);
}

/// On one line, what follows an equals sign is all of the rest.
pub proof fn lemma_value_after(x: Seq<char>)
    requires
        !x.contains('\n'),
    ensures
        grammar::value_after(x) == text::trim(x),
{
    text::lemma_leading_space(x);
    let t = text::trim_start(x);
    assert forall|i: int| 0 <= i < t.len() implies #[trigger] t[i] != '\n' by {
        assert(t[i] == x[text::leading_space(x) + i]);
        assert(x.contains(t[i]));
    }
    text::lemma_first_index_is(t, '\n', t.len() as int);
    assert(t.take(t.len() as int) =~= t);
    assert(text::trim_start(t) == t) by {
        if t.len() > 0 {
            assert(t[0] == x[text::leading_space(x)]);
        }
    }
}

/// A text of white space on one line is plain.
proof fn lemma_blank_is_plain(a: Seq<char>)
    requires
        text::blank(a),
        !a.contains('\n'),
    ensures
        plain(a),
{
    assert forall|i: int| 0 <= i < a.len() implies #[trigger] a[i] != '\n' by {
        assert(a.contains(a[i]));
    }
    assert forall|i: int| 0 <= i < a.len() - 1 implies !(#[trigger] a[i] == '/' && a[i + 1]
        == '/') by {
        assert(text::white_space(a[i]));
    }
}

/// The statement on a line is what stands on it, without the white space around it and without the
/// comment behind it.
pub proof fn law_statement_on_a_line(a: Seq<char>, s: Seq<char>, b: Seq<char>, comment: Seq<char>)
    requires
        text::blank(a) && !a.contains('\n'),
        text::blank(b) && !b.contains('\n'),
        !comment.contains('\n'),
        plain(s),
        text::trim(s) == s,
    ensures
        grammar::statement(a + s + b) == s,
        s.len() == 0 || b.len() > 0 || s.last() != '/' ==> grammar::statement(
            a + s + (b + seq!['/', '/'] + comment),
        ) == s,
{
    let none = Seq::<char>::empty();
    let remark = seq!['/', '/'] + comment;
    assert(!remark.contains('\n')) by {
        if remark.contains('\n') {
            let i = choose|i: int| 0 <= i < remark.len() && remark[i] == '\n';
            assert(comment[i - 2] == '\n');
        }
    }
    assert(b + seq!['/', '/'] + comment =~= b + remark);
    text::lemma_leading_space_is(b, b.len() as int);
    lemma_blank_then(b, remark);
    if s.len() == 0 {
        assert(s =~= none);
        let ab = a + b;
        assert(a + s + b =~= ab);
        assert forall|i: int| 0 <= i < ab.len() implies text::white_space(#[trigger] ab[i]) by {
            if i < a.len() {
                assert(ab[i] == a[i]);
            } else {
                assert(ab[i] == b[i - a.len()]);
            }
        }
        text::lemma_leading_space_is(ab, ab.len() as int);
        assert(grammar::strip_comment(ab) =~= none);
        lemma_blank_then(ab, remark);
        assert(a + s + (b + remark) =~= ab + remark);
        assert(grammar::strip_comment(ab + remark) =~= none);
        text::lemma_trimmed(none);
    } else {
        text::lemma_trim(s);
        let p = a + s;
        assert(p.last() == s.last());
        lemma_blank_is_plain(a);
        if a.len() > 0 {
            assert(text::white_space(a[a.len() - 1]));
        }
        lemma_plain_join(a, s);
        assert(grammar::strip_comment(b) =~= none);
        if b.len() > 0 {
            assert(text::white_space(b[0]));
            assert((b + remark)[0] == b[0]);
        } else {
            assert((b + remark)[0] == remark[0]);
        }
        lemma_strip_behind(p, b);
        text::law_trim_ignores_blanks_around(a, s, none);
        assert(p + none =~= a + s + none);
        if b.len() > 0 || s.last() != '/' {
            assert(grammar::strip_comment(b + remark) =~= none);
            lemma_strip_behind(p, b + remark);
        }
    }
}

/// A comment behind white space is a comment behind white space.
proof fn lemma_blank_then(b: Seq<char>, remark: Seq<char>)
    requires
        text::blank(b),
        grammar::is_comment(remark),
    ensures
        grammar::is_comment_tail(b + remark),
{
    let t = b + remark;
    let n = b.len() as int;
    assert forall|i: int| 0 <= i < n implies text::white_space(#[trigger] t[i]) by {
        assert(t[i] == b[i]);
    }
    assert(t[n] == remark[0]);
    text::lemma_leading_space_is(t, n);
    assert(t.skip(n) =~= remark);
}

/// `w` is the word `word`, in any letter case.
pub open spec fn in_any_case(w: Seq<char>, word: Seq<char>) -> bool {
    text::ascii_lower_text(w) == word
}

/// Lower case letters are what letters in any case fold to.
proof fn lemma_folds(w: Seq<char>, word: Seq<char>)
    requires
        in_any_case(w, word),
        forall|i: int| 0 <= i < word.len() ==> 'a' <= #[trigger] word[i] && word[i] <= 'z',
    ensures
        w.len() == word.len(),
        forall|i: int| 0 <= i < w.len() ==> grammar::fold(#[trigger] w[i]) == word[i],
{
    let t = text::ascii_lower_text(w);
    assert forall|i: int| 0 <= i < w.len() implies grammar::fold(#[trigger] w[i]) == word[i] by {
        assert(t[i] == text::ascii_lower(w[i]));
        assert('a' <= word[i] && word[i] <= 'z');
    }
}

/// Where letter case does not matter, upper case letters stand for the lower case ones, as do the
/// long s and the Kelvin sign, and every other character for itself.
pub proof fn law_letter_case_of_keys(c: char)
    ensures
        'A' <= c && c <= 'Z' ==> grammar::fold(c) as int - 'a' as int == c as int - 'A' as int,
        c == '\u{17f}' ==> grammar::fold(c) == 's',
        c == '\u{212a}' ==> grammar::fold(c) == 'k',
        grammar::fold(c) != c ==> 'A' <= c && c <= 'Z' || c == '\u{17f}' || c == '\u{212a}',
{
}

/// A key in front of an equals sign is told by its word, in any letter case and with any white space
/// in between.
proof fn lemma_key_is_told(w: Seq<char>, word: Seq<char>, g: Seq<char>, x: Seq<char>)
    requires
        w.len() == word.len(),
        forall|i: int| 0 <= i < w.len() ==> grammar::fold(#[trigger] w[i]) == word[i],
        text::blank(g),
    ensures
        grammar::after_key(w + g + seq!['='] + x, word) == Some(x),
{
    let s = w + g + seq!['='] + x;
    assert forall|i: int| 0 <= i < word.len() implies grammar::fold(#[trigger] s[i]) == word[i] by {
        assert(s[i] == w[i]);
        assert(grammar::fold(w[i]) == word[i]);
    }
    let rest = s.skip(word.len() as int);
    assert(rest =~= g + seq!['='] + x);
    let n = g.len() as int;
    assert forall|i: int| 0 <= i < n implies text::white_space(#[trigger] rest[i]) by {
        assert(rest[i] == g[i]);
    }
    assert(rest[n] == '=');
    text::lemma_leading_space_is(rest, n);
    assert(rest.skip(n).drop_first() =~= x);
}

/// A statement has a key if and only if it is the word, white space, an equals sign, and the rest.
pub proof fn law_keys_stand_in_front_of_equals_signs(s: Seq<char>, word: Seq<char>, x: Seq<char>)
    ensures
        grammar::after_key(s, word) == Some(x) <==> exists|w: Seq<char>, g: Seq<char>|
            s == #[trigger] (w + g + seq!['='] + x) && text::blank(g) && w.len() == word.len() && (
            forall|i: int| 0 <= i < w.len() ==> grammar::fold(#[trigger] w[i]) == word[i]),
{
    if exists|w: Seq<char>, g: Seq<char>|
        s == #[trigger] (w + g + seq!['='] + x) && text::blank(g) && w.len() == word.len() && (
        forall|i: int| 0 <= i < w.len() ==> grammar::fold(#[trigger] w[i]) == word[i]) {
        let (w, g) = choose|w: Seq<char>, g: Seq<char>|
            s == #[trigger] (w + g + seq!['='] + x) && text::blank(g) && w.len() == word.len() && (
            forall|i: int| 0 <= i < w.len() ==> grammar::fold(#[trigger] w[i]) == word[i]);
        lemma_key_is_told(w, word, g, x);
    }
    if grammar::after_key(s, word) == Some(x) {
        let n = word.len() as int;
        let w = s.take(n);
        let rest = s.skip(n);
        text::lemma_leading_space(rest);
        let k = text::leading_space(rest);
        let g = rest.take(k);
        assert forall|i: int| 0 <= i < w.len() implies grammar::fold(#[trigger] w[i]) == word[i] by {
            assert(grammar::fold(s[i]) == word[i]);
        }
        assert forall|i: int| 0 <= i < g.len() implies text::white_space(#[trigger] g[i]) by {
            assert(g[i] == rest[i]);
        }
        assert(rest.skip(k)[0] == rest[k]);
        assert(s =~= w + g + seq!['='] + x) by {
            assert(x == rest.skip(k).drop_first());
        }
    }
}

/// What `Token = x` and the other lines with a one-word key say, in any letter case.
pub proof fn law_key_lines(w: Seq<char>, g: Seq<char>, x: Seq<char>)
    requires
        text::blank(g),
        !x.contains('\n'),
    ensures
        ({
            let kind = grammar::kind_of(w + g + seq!['='] + x);
            &&& in_any_case(w, "token"@) ==> kind == grammar::Kind::Token(text::trim(x))
            &&& in_any_case(w, "offset"@) ==> kind == grammar::Kind::Offset(text::trim(x))
            &&& in_any_case(w, "width"@) ==> kind == grammar::Kind::Width(text::trim(x))
            &&& in_any_case(w, "options"@) ==> kind == grammar::Kind::Options(text::trim(x))
            &&& in_any_case(w, "value"@) ==> kind == grammar::Kind::Value(text::trim(x))
        }),
{
    reveal_strlit("setup");
    reveal_strlit("help");
    reveal_strlit("token");
    reveal_strlit("offset");
    reveal_strlit("width");
    reveal_strlit("bios");
    reveal_strlit("options");
    reveal_strlit("value");
    let s = w + g + seq!['='] + x;
    lemma_value_after(x);
    if w.len() > 0 {
        assert(s[0] == w[0]);
    }
    if w.len() > 1 {
        assert(s[1] == w[1]);
    }
    if in_any_case(w, "token"@) {
        lemma_folds(w, "token"@);
        lemma_key_is_told(w, "token"@, g, x);
        assert(grammar::fold(s[0]) == 't');
    }
    if in_any_case(w, "offset"@) {
        lemma_folds(w, "offset"@);
        lemma_key_is_told(w, "offset"@, g, x);
        assert(grammar::fold(s[0]) == 'o');
    }
    if in_any_case(w, "width"@) {
        lemma_folds(w, "width"@);
        lemma_key_is_told(w, "width"@, g, x);
        assert(grammar::fold(s[0]) == 'w');
    }
    if in_any_case(w, "options"@) {
        lemma_folds(w, "options"@);
        lemma_key_is_told(w, "options"@, g, x);
        assert(grammar::fold(s[0]) == 'o' && grammar::fold(s[1]) == 'p');
    }
    if in_any_case(w, "value"@) {
        lemma_folds(w, "value"@);
        lemma_key_is_told(w, "value"@, g, x);
        assert(grammar::fold(s[0]) == 'v');
    }
}

/// A key of two words is told by both.
proof fn lemma_two_word_key_is_told(
    first: Seq<char>,
    one: Seq<char>,
    h: Seq<char>,
    second: Seq<char>,
    two: Seq<char>,
    g: Seq<char>,
    x: Seq<char>,
)
    requires
        first.len() == one.len(),
        second.len() == two.len() > 0,
        forall|i: int| 0 <= i < first.len() ==> grammar::fold(#[trigger] first[i]) == one[i],
        forall|i: int| 0 <= i < second.len() ==> grammar::fold(#[trigger] second[i]) == two[i],
        'a' <= two[0] && two[0] <= 'z',
        h.len() > 0,
        text::blank(h),
        text::blank(g),
    ensures
        grammar::after_two_word_key(first + h + (second + g + seq!['='] + x), one, two) == Some(x),
{
    let tail = second + g + seq!['='] + x;
    let s = first + h + tail;
    assert forall|i: int| 0 <= i < one.len() implies grammar::fold(#[trigger] s[i]) == one[i] by {
        assert(s[i] == first[i]);
        assert(grammar::fold(first[i]) == one[i]);
    }
    let t = s.skip(one.len() as int);
    assert(t =~= h + tail);
    let n = h.len() as int;
    assert forall|i: int| 0 <= i < n implies text::white_space(#[trigger] t[i]) by {
        assert(t[i] == h[i]);
    }
    assert(t[n] == second[0]);
    assert(grammar::fold(second[0]) == two[0]);
    text::lemma_leading_space_is(t, n);
    assert(t.skip(n) =~= tail);
    lemma_key_is_told(second, two, g, x);
}

/// What `Setup Question = x` and the other lines with a two-word key say, in any letter case.
pub proof fn law_two_word_key_lines(
    first: Seq<char>,
    h: Seq<char>,
    second: Seq<char>,
    g: Seq<char>,
    x: Seq<char>,
)
    requires
        h.len() > 0,
        text::blank(h),
        text::blank(g),
        !x.contains('\n'),
    ensures
        ({
            let kind = grammar::kind_of(first + h + (second + g + seq!['='] + x));
            &&& in_any_case(first, "setup"@) && in_any_case(second, "question"@) ==> kind
                == grammar::Kind::Setup(text::trim(x))
            &&& in_any_case(first, "help"@) && in_any_case(second, "string"@) ==> kind
                == grammar::Kind::Help(text::trim(x))
            &&& in_any_case(first, "bios"@) && in_any_case(second, "default"@) ==> kind
                == grammar::Kind::BiosDefault(text::trim(x))
        }),
{
    reveal_strlit("setup");
    reveal_strlit("question");
    reveal_strlit("help");
    reveal_strlit("string");
    reveal_strlit("token");
    reveal_strlit("offset");
    reveal_strlit("width");
    reveal_strlit("bios");
    reveal_strlit("default");
    reveal_strlit("options");
    reveal_strlit("value");
    let s = first + h + (second + g + seq!['='] + x);
    lemma_value_after(x);
    if first.len() > 0 {
        assert(s[0] == first[0]);
    }
    if in_any_case(first, "setup"@) && in_any_case(second, "question"@) {
        lemma_folds(first, "setup"@);
        lemma_folds(second, "question"@);
        lemma_two_word_key_is_told(first, "setup"@, h, second, "question"@, g, x);
    }
    if in_any_case(first, "help"@) && in_any_case(second, "string"@) {
        lemma_folds(first, "help"@);
        lemma_folds(second, "string"@);
        lemma_two_word_key_is_told(first, "help"@, h, second, "string"@, g, x);
        assert(grammar::fold(s[0]) == 'h');
    }
    if in_any_case(first, "bios"@) && in_any_case(second, "default"@) {
        lemma_folds(first, "bios"@);
        lemma_folds(second, "default"@);
        lemma_two_word_key_is_told(first, "bios"@, h, second, "default"@, g, x);
        assert(grammar::fold(s[0]) == 'b');
    }
}

/// Without an equals sign there is no key.
proof fn lemma_key_needs_equals(s: Seq<char>, word: Seq<char>)
    ensures
        grammar::after_key(s, word) is Some ==> s.contains('='),
{
    if let Some(x) = grammar::after_key(s, word) {
        let t = s.skip(word.len() as int);
        text::lemma_leading_space(t);
        let k = text::leading_space(t);
        assert(text::trim_start(t)[0] == t[k]);
        assert(t[k] == s[word.len() + k]);
    }
}

proof fn lemma_two_word_key_needs_equals(s: Seq<char>, one: Seq<char>, two: Seq<char>)
    ensures
        grammar::after_two_word_key(s, one, two) is Some ==> s.contains('='),
{
    if grammar::after_two_word_key(s, one, two) is Some {
        let t = s.skip(one.len() as int);
        text::lemma_leading_space(t);
        let k = text::leading_space(t);
        let u = text::trim_start(t);
        lemma_key_needs_equals(u, two);
        let i = choose|i: int| 0 <= i < u.len() && u[i] == '=';
        assert(u[i] == s[one.len() + k + i]);
    }
}

/// What other statements say: one that starts with something in square brackets, with or without a
/// star in front, continues a list of options, and one without an equals sign that does not is
/// nothing that a dump is known to say.
pub proof fn law_other_statements(s: Seq<char>, inner: Seq<char>, rest: Seq<char>)
    ensures
        s.len() == 0 ==> grammar::kind_of(s) == grammar::Kind::Blank,
        s.len() > 0 && !s.contains('=') && s[0] != '[' && s[0] != '*' ==> grammar::kind_of(s)
            == grammar::Kind::Other,
        !inner.contains(']') && !inner.contains('\n') ==> grammar::kind_of(
            seq!['['] + inner + seq![']'] + rest,
        ) == grammar::Kind::Bracket && grammar::kind_of(
            seq!['*', '['] + inner + seq![']'] + rest,
        ) == grammar::Kind::Bracket,
{
    if s.len() > 0 && !s.contains('=') && s[0] != '[' && s[0] != '*' {
        lemma_key_needs_equals(s, "token"@);
        lemma_key_needs_equals(s, "offset"@);
        lemma_key_needs_equals(s, "width"@);
        lemma_key_needs_equals(s, "options"@);
        lemma_key_needs_equals(s, "value"@);
        lemma_two_word_key_needs_equals(s, "setup"@, "question"@);
        lemma_two_word_key_needs_equals(s, "help"@, "string"@);
        lemma_two_word_key_needs_equals(s, "bios"@, "default"@);
    }
    if !inner.contains(']') && !inner.contains('\n') {
        let t = seq!['['] + inner + seq![']'] + rest;
        let u = seq!['*', '['] + inner + seq![']'] + rest;
        let n = (inner.len() + 1) as int;
        assert(t[n] == ']');
        assert forall|i: int| 0 <= i < n implies #[trigger] t[i] != ']' && t[i] != '\n' by {
            if i > 0 {
                assert(t[i] == inner[i - 1]);
            }
        }
        text::lemma_first_index_is(t, ']', n);
        assert(!t.take(n).contains('\n')) by {
            if t.take(n).contains('\n') {
                let i = choose|i: int| 0 <= i < n && t.take(n)[i] == '\n';
                assert(t[i] == '\n');
            }
        }
        assert(t[0] == '[');
        assert(u[0] == '*');
        assert(u.drop_first() =~= t);
        lemma_bracket_kind(t);
        lemma_bracket_kind(u);
    }
}

/// What a statement says is told by its key alone.
pub proof fn law_kinds_are_told_by_keys(s: Seq<char>)
    ensures
        match grammar::kind_of(s) {
            grammar::Kind::Blank => s.len() == 0,
            grammar::Kind::Setup(v) => grammar::after_two_word_key(
                s,
                "setup"@,
                "question"@,
            ) is Some,
            grammar::Kind::Help(v) => grammar::after_two_word_key(s, "help"@, "string"@) is Some,
            grammar::Kind::Token(v) => grammar::after_key(s, "token"@) is Some,
            grammar::Kind::Offset(v) => grammar::after_key(s, "offset"@) is Some,
            grammar::Kind::Width(v) => grammar::after_key(s, "width"@) is Some,
            grammar::Kind::BiosDefault(v) => grammar::after_two_word_key(
                s,
                "bios"@,
                "default"@,
            ) is Some,
            grammar::Kind::Options(v) => grammar::after_key(s, "options"@) is Some,
            grammar::Kind::Value(v) => grammar::after_key(s, "value"@) is Some,
            grammar::Kind::Bracket => s[0] == '[' || s[0] == '*' && s[1] == '[',
            grammar::Kind::Other => true,
        },
{
}

// ---------------------------------------------------------------------------
// What is read from lines
// ---------------------------------------------------------------------------

/// What one more line of a dump adds: a `Setup Question` ends the block before it and starts a
/// setting of which nothing else is known; any other line says one thing of the setting whose block
/// it stands in, and nothing if it stands in none.
pub proof fn law_each_line_says_one_thing(lines: Seq<Seq<char>>, line: Seq<char>)
    ensures
        ({
            let before = nvram::read_lines(lines);
            let after = nvram::read_lines(lines.push(line));
            let kind = grammar::kind_of(grammar::statement(line));
            match kind {
                grammar::Kind::Setup(q) => {
                    &&& after.done == nvram::listed_settings(lines)
                    &&& after.current matches Some(t) && {
                        &&& t.setup_question == q
                        &&& t.help_string.len() == 0 && t.token.len() == 0 && t.offset.len() == 0
                        &&& t.width.len() == 0 && t.options.len() == 0 && t.content.len() == 0
                        &&& t.bios_default is None && t.active_option is None && t.value is None
                    }
                },
                _ => {
                    &&& after.done == before.done
                    &&& after.current is Some <==> before.current is Some
                    &&& before.current matches Some(s) ==> {
                        let t = after.current->0;
                        &&& t.setup_question == s.setup_question
                        &&& t.help_string == (match kind {
                            grammar::Kind::Help(v) => v,
                            _ => s.help_string,
                        })
                        &&& t.token == (match kind {
                            grammar::Kind::Token(v) => v,
                            _ => s.token,
                        })
                        &&& t.offset == (match kind {
                            grammar::Kind::Offset(v) => v,
                            _ => s.offset,
                        })
                        &&& t.width == (match kind {
                            grammar::Kind::Width(v) => v,
                            _ => s.width,
                        })
                        &&& t.bios_default == (match kind {
                            grammar::Kind::BiosDefault(v) => Some(v),
                            _ => s.bios_default,
                        })
                        &&& t.value == (match kind {
                            grammar::Kind::Value(v) => Some(v),
                            _ => s.value,
                        })
                        &&& t.content == (match kind {
                            grammar::Kind::Other => s.content.push(grammar::statement(line)),
                            _ => s.content,
                        })
                        &&& !(kind is Options) && !(kind is Bracket) ==> t.options == s.options
                            && t.active_option == s.active_option
                        &&& kind matches grammar::Kind::Options(v) ==> options_added(
                            s,
                            grammar::options_on(v),
                            t,
                        )
                        &&& kind is Bracket ==> options_added(
                            s,
                            grammar::options_on(grammar::statement(line)),
                            t,
                        )
                    }
                },
            }
        }),
{
    let all = lines.push(line);
    assert(all.drop_last() =~= lines);
    assert(all.last() == line);
    if let Some(s) = nvram::read_lines(lines).current {
        match grammar::kind_of(grammar::statement(line)) {
            grammar::Kind::Options(v) => {
                lemma_options_added(s, grammar::options_on(v));
            },
            grammar::Kind::Bracket => {
                lemma_options_added(s, grammar::options_on(grammar::statement(line)));
            },
            _ => {},
        }
    }
}

/// `t` has the options of `s` and the options `found` behind them; the last one with a star is the
/// active one, or else the one that was.
pub open spec fn options_added(s: SettingView, found: Seq<grammar::Choice>, t: SettingView) -> bool {
    &&& t.options.len() == s.options.len() + found.len()
    &&& forall|i: int| 0 <= i < s.options.len() ==> #[trigger] t.options[i] == s.options[i]
    &&& forall|i: int|
        0 <= i < found.len() ==> t.options[s.options.len() + i] == (#[trigger] found[i]).label
    &&& (forall|i: int| 0 <= i < found.len() ==> !(#[trigger] found[i]).star) ==> t.active_option
        == s.active_option
    &&& forall|i: int|
        0 <= i < found.len() && (#[trigger] found[i]).star && (forall|j: int|
            i < j < found.len() ==> !(#[trigger] found[j]).star) ==> t.active_option == Some(
            s.options.len() + i,
        )
}

proof fn lemma_options_added(s: SettingView, found: Seq<grammar::Choice>)
    ensures
        options_added(s, found, nvram::add_options(s, found)),
        ({
            let t = nvram::add_options(s, found);
            &&& t.setup_question == s.setup_question && t.help_string == s.help_string
            &&& t.token == s.token && t.offset == s.offset && t.width == s.width
            &&& t.bios_default == s.bios_default && t.value == s.value && t.content == s.content
        }),
    decreases found.len(),
{
    if found.len() > 0 {
        let front = found.drop_last();
        let last = found.last();
        lemma_options_added(s, front);
        let m = nvram::add_options(s, front);
        let t = nvram::add_options(s, found);
        assert(last == found[found.len() - 1]);
        assert(t.options == m.options.push(last.label));
        assert forall|i: int| 0 <= i < found.len() implies t.options[s.options.len() + i] == (
        #[trigger] found[i]).label by {
            if i < front.len() {
                assert(front[i] == found[i]);
            }
        }
        assert forall|i: int|
            0 <= i < found.len() && (#[trigger] found[i]).star && (forall|j: int|
                i < j < found.len() ==> !(#[trigger] found[j]).star) implies t.active_option
            == Some(s.options.len() + i) by {
            if i < front.len() {
                assert(front[i] == found[i]);
                assert forall|j: int| i < j < front.len() implies !(#[trigger] front[j]).star by {
                    assert(front[j] == found[j]);
                }
            }
        }
        if forall|i: int| 0 <= i < found.len() ==> !(#[trigger] found[i]).star {
            assert forall|i: int| 0 <= i < front.len() implies !(#[trigger] front[i]).star by {
                assert(front[i] == found[i]);
            }
        }
    }
}

/// At the end of its block a single option that is not marked is the value of the setting; any other
/// setting stays as it is.
pub proof fn law_single_unmarked_option_is_a_value(s: SettingView)
    ensures
        ({
            let t = nvram::finish(s);
            &&& s.options.len() != 1 || s.active_option is Some ==> t == s
            &&& s.options.len() == 1 && s.active_option is None ==> t.value == Some(s.options[0])
                && t.options.len() == 0 && t == (SettingView {
                value: t.value,
                options: t.options,
                ..s
            })
        }),
{
}

/// Each block of a dump is read by itself: behind the lines of a dump, lines that start a new block
/// list the settings that they list alone.
pub proof fn law_blocks_are_read_alone(a: Seq<Seq<char>>, b: Seq<Seq<char>>)
    requires
        b.len() > 0,
        layout::kind_at(b, 0) is Setup,
    ensures
        nvram::listed_settings(a + b) == nvram::listed_settings(a) + nvram::listed_settings(b),
{
    lemma_read_behind(a, b);
    let st = nvram::read_lines(b);
    let all = nvram::read_lines(a + b);
    let front = nvram::listed_settings(a);
    match st.current {
        Some(s) => {
            assert((front + st.done).push(nvram::finish(s)) =~= front + st.done.push(
                nvram::finish(s),
            ));
        },
        None => {},
    }
}

proof fn lemma_read_behind(a: Seq<Seq<char>>, b: Seq<Seq<char>>)
    requires
        b.len() > 0,
        layout::kind_at(b, 0) is Setup,
    ensures
        nvram::read_lines(a + b).done == nvram::listed_settings(a) + nvram::read_lines(b).done,
        nvram::read_lines(a + b).current == nvram::read_lines(b).current,
        nvram::read_lines(b).current is Some,
    decreases b.len(),
{
    let front = nvram::listed_settings(a);
    let rest = b.drop_last();
    assert((a + b).drop_last() =~= a + rest);
    assert((a + b).last() == b.last());
    if b.len() == 1 {
        assert(a + rest =~= a);
        assert(rest =~= seq![]);
        assert(b.last() == b[0]);
        assert(nvram::read_lines(rest).done =~= seq![]);
        assert(front + nvram::read_lines(b).done =~= front);
    } else {
        assert(rest[0] == b[0]);
        lemma_read_behind(a, rest);
        let st = nvram::read_lines(rest);
        assert((front + st.done).push(nvram::finish(st.current->0)) =~= front + st.done.push(
            nvram::finish(st.current->0),
        ));
    }
}

/// What a block with these lines is read as, if the setting has a list of options: each line gives
/// its own part, and the option with the star is the active one.
pub proof fn law_block_with_options_is_read(
    lines: Seq<Seq<char>>,
    question: Seq<char>,
    help: Seq<char>,
    token: Seq<char>,
    offset: Seq<char>,
    width: Seq<char>,
    default: Seq<char>,
    cs: Seq<grammar::Choice>,
    gap: Seq<char>,
    k: int,
)
    requires
        lines.len() == 7,
        layout::kind_at(lines, 0) == grammar::Kind::Setup(question),
        layout::kind_at(lines, 1) == grammar::Kind::Help(help),
        layout::kind_at(lines, 2) == grammar::Kind::Token(token),
        layout::kind_at(lines, 3) == grammar::Kind::Offset(offset),
        layout::kind_at(lines, 4) == grammar::Kind::Width(width),
        layout::kind_at(lines, 5) == grammar::Kind::BiosDefault(default),
        layout::kind_at(lines, 6) == grammar::Kind::Options(stars::list_of(cs, gap)),
        stars::all_numbered(cs),
        text::blank(gap),
        0 <= k < cs.len(),
        forall|i: int| 0 <= i < cs.len() ==> (#[trigger] cs[i]).star == (i == k),
    ensures
        nvram::listed_settings(lines) == seq![
            SettingView {
                setup_question: question,
                help_string: help,
                token,
                offset,
                width,
                bios_default: Some(default),
                options: cs.map_values(|c: grammar::Choice| c.label),
                active_option: Some(k),
                value: None,
                content: seq![],
            },
        ],
{
    lemma_block_read(lines, 6);
    stars::law_list_of_options_is_read(cs, gap);
    let s = nvram::read_lines(lines.take(6)).current->0;
    lemma_options_added(s, cs);
    assert(lines.take(7) =~= lines);
    assert(lines.take(7).drop_last() =~= lines.take(6));
    assert(lines.take(7).last() == lines[6]);
    let t = nvram::add_options(s, cs);
    assert(cs[k].star);
    assert(t.options =~= cs.map_values(|c: grammar::Choice| c.label)) by {
        assert forall|i: int| 0 <= i < cs.len() implies t.options[i] == cs[i].label by {
            assert(t.options[s.options.len() + i] == cs[i].label);
        }
    }
    assert(t.content =~= seq![]);
    assert(nvram::listed_settings(lines) =~= seq![t]);
}

/// What a block with these lines is read as, if the setting has a value.
pub proof fn law_block_with_a_value_is_read(
    lines: Seq<Seq<char>>,
    question: Seq<char>,
    help: Seq<char>,
    token: Seq<char>,
    offset: Seq<char>,
    width: Seq<char>,
    default: Seq<char>,
    value: Seq<char>,
)
    requires
        lines.len() == 7,
        layout::kind_at(lines, 0) == grammar::Kind::Setup(question),
        layout::kind_at(lines, 1) == grammar::Kind::Help(help),
        layout::kind_at(lines, 2) == grammar::Kind::Token(token),
        layout::kind_at(lines, 3) == grammar::Kind::Offset(offset),
        layout::kind_at(lines, 4) == grammar::Kind::Width(width),
        layout::kind_at(lines, 5) == grammar::Kind::BiosDefault(default),
        layout::kind_at(lines, 6) == grammar::Kind::Value(value),
    ensures
        nvram::listed_settings(lines) == seq![
            SettingView {
                setup_question: question,
                help_string: help,
                token,
                offset,
                width,
                bios_default: Some(default),
                options: seq![],
                active_option: None,
                value: Some(value),
                content: seq![],
            },
        ],
{
    lemma_block_read(lines, 6);
    let s = nvram::read_lines(lines.take(6)).current->0;
    assert(lines.take(7) =~= lines);
    assert(lines.take(7).drop_last() =~= lines.take(6));
    assert(lines.take(7).last() == lines[6]);
    let t = SettingView { value: Some(value), ..s };
    assert(t.content =~= seq![]);
    assert(t.options =~= seq![]);
    assert(nvram::listed_settings(lines) =~= seq![t]);
}

/// The lines of a block in front of its options or its value.
proof fn lemma_block_read(lines: Seq<Seq<char>>, n: int)
    requires
        0 < n <= 6 <= lines.len(),
        layout::kind_at(lines, 0) is Setup,
        layout::kind_at(lines, 1) is Help,
        layout::kind_at(lines, 2) is Token,
        layout::kind_at(lines, 3) is Offset,
        layout::kind_at(lines, 4) is Width,
        layout::kind_at(lines, 5) is BiosDefault,
    ensures
        ({
            let st = nvram::read_lines(lines.take(n));
            &&& st.done.len() == 0
            &&& st.current matches Some(s) && {
                &&& s.setup_question == layout::kind_at(lines, 0)->Setup_0
                &&& n > 1 ==> s.help_string == layout::kind_at(lines, 1)->Help_0
                &&& n > 2 ==> s.token == layout::kind_at(lines, 2)->Token_0
                &&& n > 3 ==> s.offset == layout::kind_at(lines, 3)->Offset_0
                &&& n > 4 ==> s.width == layout::kind_at(lines, 4)->Width_0
                &&& n > 5 ==> s.bios_default == Some(layout::kind_at(lines, 5)->BiosDefault_0)
                &&& s.options.len() == 0 && s.content.len() == 0
                &&& s.active_option is None && s.value is None
            }
        }),
    decreases n,
{
    let front = lines.take(n);
    assert(front.drop_last() =~= lines.take(n - 1));
    assert(front.last() == lines[n - 1]);
    if n > 1 {
        lemma_block_read(lines, n - 1);
    } else {
        assert(lines.take(0) =~= seq![]);
    }
}

/// `t` is a part of `s`.
pub open spec fn is_part(t: Seq<char>, s: Seq<char>) -> bool {
    exists|a: int, b: int| 0 <= a <= b <= s.len() && t == #[trigger] s.subrange(a, b)
}

proof fn lemma_part(s: Seq<char>, a: int, b: int)
    requires
        0 <= a <= b <= s.len(),
    ensures
        is_part(s.subrange(a, b), s),
{
}

proof fn lemma_part_of_part(t: Seq<char>, u: Seq<char>, s: Seq<char>)
    requires
        is_part(t, u),
        is_part(u, s),
    ensures
        is_part(t, s),
{
    let (a, b) = choose|a: int, b: int| 0 <= a <= b <= s.len() && u == #[trigger] s.subrange(a, b);
    let (c, d) = choose|c: int, d: int| 0 <= c <= d <= u.len() && t == #[trigger] u.subrange(c, d);
    assert(t =~= s.subrange(a + c, a + d));
}

/// `t` is a trimmed part of `s`.
pub open spec fn is_trimmed_part(t: Seq<char>, s: Seq<char>) -> bool {
    is_part(t, s) && text::trim(t) == t
}

proof fn lemma_trim_is_part(s: Seq<char>)
    ensures
        is_trimmed_part(text::trim(s), s),
{
    text::lemma_trim(s);
    text::law_trim_is_idempotent(s);
    let a = text::leading_space(s);
    lemma_part(s, a, a + text::trim(s).len());
}

/// The labels of the options in a text are trimmed parts of it.
proof fn lemma_options_in_labels(s: Seq<char>)
    ensures
        forall|k: int|
            0 <= k < grammar::options_in(s).len() ==> is_trimmed_part(
                (#[trigger] grammar::options_in(s)[k]).label,
                s,
            ),
    decreases s.len(),
{
    let n = text::first_index(s, '[');
    text::lemma_first_index(s, '[');
    if n < s.len() {
        let rest = s.skip(n);
        let t = rest.drop_first();
        let all = grammar::options_in(s);
        let more = grammar::options_in(t);
        lemma_options_in_labels(t);
        assert(t =~= s.subrange(n + 1, s.len() as int));
        lemma_part(s, n + 1, s.len() as int);
        lemma_label_is_part(rest);
        assert(rest =~= s.subrange(n, s.len() as int));
        lemma_part(s, n, s.len() as int);
        lemma_part_of_part(grammar::label_at(rest), rest, s);
        assert forall|k: int| 0 <= k < all.len() implies is_trimmed_part(
            (#[trigger] all[k]).label,
            s,
        ) by {
            if grammar::starts_option(rest) {
                if k > 0 {
                    assert(all[k] == more[k - 1]);
                    lemma_part_of_part(more[k - 1].label, t, s);
                }
            } else {
                assert(all[k] == more[k]);
                lemma_part_of_part(more[k].label, t, s);
            }
        }
    }
}

proof fn lemma_label_is_part(s: Seq<char>)
    requires
        s.len() > 0,
    ensures
        is_trimmed_part(grammar::label_at(s), s),
{
    let n = 1 + text::first_index(s.drop_first(), '[');
    text::lemma_first_index(s.drop_first(), '[');
    let u = s.take(n);
    stars::lemma_strip_stars(u);
    let w = if grammar::starts_option(s.skip(n)) {
        grammar::strip_stars(u)
    } else {
        u
    };
    assert(w =~= s.subrange(0, w.len() as int));
    lemma_part(s, 0, w.len() as int);
    lemma_trim_is_part(w);
    lemma_part_of_part(text::trim(w), w, s);
}

/// The labels of the options on a line are trimmed parts of it.
proof fn lemma_options_on_labels(s: Seq<char>)
    ensures
        forall|k: int|
            0 <= k < grammar::options_on(s).len() ==> is_trimmed_part(
                (#[trigger] grammar::options_on(s)[k]).label,
                s,
            ),
{
    let t = text::trim(s);
    lemma_trim_is_part(s);
    lemma_options_in_labels(t);
    let free = text::strip_leading(t, '*');
    text::lemma_strip_leading(t, '*');
    let j = t.len() - free.len();
    assert(free =~= t.subrange(j, t.len() as int));
    lemma_part(t, j, t.len() as int);
    lemma_trim_is_part(free);
    lemma_part_of_part(text::trim(free), free, t);
    let found = grammar::options_on(s);
    assert forall|k: int| 0 <= k < found.len() implies is_trimmed_part(
        (#[trigger] found[k]).label,
        s,
    ) by {
        if grammar::options_in(t).len() > 0 {
            assert(found[k] == grammar::options_in(t)[k]);
        }
        lemma_part_of_part(found[k].label, t, s);
    }
}

/// `t` is a trimmed part of what some line of the dump states.
pub open spec fn stated(t: Seq<char>, lines: Seq<Seq<char>>) -> bool {
    exists|i: int|
        0 <= i < lines.len() && is_trimmed_part(t, #[trigger] grammar::statement(lines[i]))
}

/// What the reader makes of lines: labels and values that lines state, and an active option that is
/// one of the options.
pub open spec fn sound(c: SettingView, lines: Seq<Seq<char>>) -> bool {
    &&& forall|k: int| 0 <= k < c.options.len() ==> stated(#[trigger] c.options[k], lines)
    &&& c.value matches Some(v) ==> stated(v, lines)
    &&& c.active_option matches Some(k) ==> 0 <= k < c.options.len()
}

/// What lines without line feeds state can stand on a line.
pub proof fn lemma_stated_plain(t: Seq<char>, lines: Seq<Seq<char>>)
    requires
        single_lines(lines),
        stated(t, lines),
    ensures
        writable_value(t),
{
    let i = choose|i: int|
        0 <= i < lines.len() && is_trimmed_part(t, #[trigger] grammar::statement(lines[i]));
    assert(!lines[i].contains('\n'));
    lemma_statement(lines[i]);
    let s = grammar::statement(lines[i]);
    let (a, b) = choose|a: int, b: int| 0 <= a <= b <= s.len() && t == #[trigger] s.subrange(a, b);
    lemma_plain_part(s, a, b);
}

proof fn lemma_add_options_sound(
    c: SettingView,
    found: Seq<grammar::Choice>,
    lines: Seq<Seq<char>>,
)
    requires
        sound(c, lines),
        forall|k: int| 0 <= k < found.len() ==> stated((#[trigger] found[k]).label, lines),
    ensures
        sound(nvram::add_options(c, found), lines),
    decreases found.len(),
{
    if found.len() > 0 {
        let f = found.drop_last();
        assert forall|k: int| 0 <= k < f.len() implies stated((#[trigger] f[k]).label, lines) by {
            assert(f[k] == found[k]);
        }
        lemma_add_options_sound(c, f, lines);
        let before = nvram::add_options(c, f);
        let after = nvram::add_options(c, found);
        let last = found[found.len() - 1];
        assert(after.options == before.options.push(last.label));
        assert forall|k: int| 0 <= k < after.options.len() implies stated(
            #[trigger] after.options[k],
            lines,
        ) by {
            if k < before.options.len() {
                assert(after.options[k] == before.options[k]);
            }
        }
    }
}

/// What follows a key is a rest of the statement.
proof fn lemma_after_key(s: Seq<char>, word: Seq<char>)
    requires
        grammar::after_key(s, word) is Some,
    ensures
        is_trimmed_part(grammar::value_after(grammar::after_key(s, word)->0), s),
{
    let rest = s.skip(word.len() as int);
    text::lemma_leading_space(rest);
    let x = grammar::after_key(s, word)->0;
    let a = word.len() + text::leading_space(rest) + 1;
    assert(x =~= s.subrange(a, s.len() as int));
    lemma_part(s, a, s.len() as int);
    text::lemma_leading_space(x);
    let t = text::trim_start(x);
    text::lemma_first_index(t, '\n');
    let n = text::first_index(t, '\n');
    let b = text::leading_space(x);
    assert(t.take(n) =~= x.subrange(b, b + n));
    lemma_part(x, b, b + n);
    lemma_trim_is_part(t.take(n));
    lemma_part_of_part(text::trim(t.take(n)), t.take(n), x);
    lemma_part_of_part(text::trim(t.take(n)), x, s);
}

/// A line of a block, other than the one that starts it, keeps a setting sound.
proof fn lemma_with_line_sound(c: SettingView, lines: Seq<Seq<char>>, i: int)
    requires
        sound(c, lines),
        0 <= i < lines.len(),
    ensures
        sound(
            nvram::with_line(c, layout::kind_at(lines, i), grammar::statement(lines[i])),
            lines,
        ),
{
    let s = grammar::statement(lines[i]);
    match grammar::kind_of(s) {
        grammar::Kind::Options(v) => {
            lemma_after_key(s, "options"@);
            lemma_options_on_labels(v);
            let found = grammar::options_on(v);
            assert forall|k: int| 0 <= k < found.len() implies stated(
                (#[trigger] found[k]).label,
                lines,
            ) by {
                lemma_part_of_part(found[k].label, v, s);
            }
            lemma_add_options_sound(c, found, lines);
        },
        grammar::Kind::Value(v) => {
            lemma_after_key(s, "value"@);
        },
        grammar::Kind::Bracket => {
            lemma_options_on_labels(s);
            lemma_add_options_sound(c, grammar::options_on(s), lines);
        },
        _ => {},
    }
}

// ---------------------------------------------------------------------------
// Blocks and settings
// ---------------------------------------------------------------------------

/// The reader before line `i`.
pub open spec fn reader_at(lines: Seq<Seq<char>>, i: int) -> ReadState {
    nvram::read_lines(lines.take(i))
}

/// What the rest of a block from line `i` on makes of the setting `c`.
pub open spec fn rest_of_block(lines: Seq<Seq<char>>, i: int, c: SettingView) -> SettingView
    decreases lines.len() - i,
{
    if i < 0 || i >= lines.len() || layout::kind_at(lines, i) is Setup {
        c
    } else {
        rest_of_block(
            lines,
            i + 1,
            nvram::with_line(c, layout::kind_at(lines, i), grammar::statement(lines[i])),
        )
    }
}

/// What the block that starts at line `i` states, as far as line by line reading goes.
pub open spec fn block_at(lines: Seq<Seq<char>>, i: int) -> SettingView {
    rest_of_block(lines, i + 1, nvram::new_setting(layout::kind_at(lines, i)->Setup_0))
}

proof fn lemma_reader_step(lines: Seq<Seq<char>>, i: int)
    requires
        0 <= i < lines.len(),
    ensures
        reader_at(lines, i + 1) == nvram::read_line(reader_at(lines, i), lines[i]),
{
    assert(lines.take(i + 1).drop_last() =~= lines.take(i));
}

/// Everything that is read is sound.
proof fn lemma_reader_sound(lines: Seq<Seq<char>>, i: int)
    requires
        0 <= i <= lines.len(),
    ensures
        reader_at(lines, i).current matches Some(c) ==> sound(c, lines),
        forall|n: int|
            0 <= n < reader_at(lines, i).done.len() ==> sound(
                #[trigger] reader_at(lines, i).done[n],
                lines,
            ),
    decreases i,
{
    if i == 0 {
        assert(lines.take(0) =~= seq![]);
    } else {
        lemma_reader_sound(lines, i - 1);
        lemma_reader_step(lines, i - 1);
        let before = reader_at(lines, i - 1);
        match layout::kind_at(lines, i - 1) {
            grammar::Kind::Setup(_) => {
                if before.current is Some {
                    lemma_finish_sound(before.current->0, lines);
                }
            },
            _ => {
                if before.current is Some {
                    lemma_with_line_sound(before.current->0, lines, i - 1);
                }
            },
        }
    }
}

proof fn lemma_finish_sound(c: SettingView, lines: Seq<Seq<char>>)
    requires
        sound(c, lines),
    ensures
        sound(nvram::finish(c), lines),
{
    if c.options.len() == 1 {
        assert(stated(c.options[0], lines));
    }
}

/// Every setting that a dump lists is sound.
pub proof fn lemma_listed_sound(lines: Seq<Seq<char>>, n: int)
    requires
        0 <= n < nvram::listed_settings(lines).len(),
    ensures
        sound(nvram::listed_settings(lines)[n], lines),
{
    let len = lines.len() as int;
    assert(lines.take(len) =~= lines);
    lemma_reader_sound(lines, len);
    let rd = reader_at(lines, len);
    if n < rd.done.len() {
        assert(nvram::listed_settings(lines)[n] == rd.done[n]);
    } else {
        lemma_finish_sound(rd.current->0, lines);
    }
}

/// The settings read so far are the first ones that the dump lists, and the one being read becomes
/// the next.
proof fn lemma_listed(lines: Seq<Seq<char>>, i: int)
    requires
        0 <= i <= lines.len(),
    ensures
        ({
            let rd = reader_at(lines, i);
            let all = nvram::listed_settings(lines);
            let n = rd.done.len() as int;
            &&& n <= all.len()
            &&& rd.done == all.take(n)
            &&& rd.current is Some ==> n < all.len() && all[n] == nvram::finish(
                rest_of_block(lines, i, rd.current->0),
            )
        }),
    decreases lines.len() - i,
{
    let rd = reader_at(lines, i);
    let all = nvram::listed_settings(lines);
    let n = rd.done.len() as int;
    if i == lines.len() {
        assert(lines.take(i) =~= lines);
        assert(rd.done =~= all.take(n));
    } else {
        lemma_reader_step(lines, i);
        lemma_listed(lines, i + 1);
        let next = reader_at(lines, i + 1);
        match layout::kind_at(lines, i) {
            grammar::Kind::Setup(_) => {
                assert(next.done == nvram::finished(rd));
                assert(rd.done =~= all.take(n)) by {
                    assert forall|k: int| 0 <= k < n implies rd.done[k] == all[k] by {
                        assert(next.done[k] == all.take(next.done.len() as int)[k]);
                    }
                }
                if rd.current is Some {
                    assert(next.done[n] == all.take(next.done.len() as int)[n]);
                }
            },
            _ => {},
        }
    }
}

// ---------------------------------------------------------------------------
// What written lines say
// ---------------------------------------------------------------------------

/// The options that line `i` lists, if it starts or continues a list of options.
pub open spec fn options_at(lines: Seq<Seq<char>>, i: int) -> Seq<grammar::Choice> {
    match layout::kind_at(lines, i) {
        grammar::Kind::Options(v) => grammar::options_on(v),
        _ => grammar::options_on(grammar::statement(lines[i])),
    }
}

/// Line `i` is one option as it stands, with a star of its own.
pub open spec fn own_star_at(lines: Seq<Seq<char>>, i: int) -> bool {
    match layout::kind_at(lines, i) {
        grammar::Kind::Options(v) => stars::has_own_star(v),
        _ => stars::has_own_star(grammar::statement(lines[i])),
    }
}

/// A written line states what was written: in a list of options the same options, of which the one
/// that is to be active is marked and no other is, and on the line of a value that value. Only where
/// an option has a star of its own is it named otherwise, without that star.
pub proof fn law_written_lines_state_what_was_written(
    lines: Seq<Seq<char>>,
    settings: Seq<SettingView>,
    i: int,
    n: int,
)
    requires
        0 <= i < lines.len(),
        !lines[i].contains('\n'),
        nvram::writer_at(lines, settings, i).index == Some(n),
    ensures
        ({
            let written = nvram::patched_lines(lines, settings);
            let wr = nvram::writer_at(lines, settings, i);
            let s = settings[n];
            let k = wr.passed;
            match layout::kind_at(lines, i) {
                grammar::Kind::Options(_) => s.options.len() > 0 && !own_star_at(lines, i) ==> {
                    &&& layout::kind_at(written, i) is Options
                    &&& options_at(written, i) == stars::rechosen(
                        options_at(lines, i),
                        k,
                        s.active_option,
                    )
                },
                grammar::Kind::Bracket => wr.listing && s.options.len() > 0 && !own_star_at(
                    lines,
                    i,
                ) ==> {
                    &&& layout::kind_at(written, i) is Bracket
                    &&& options_at(written, i) == stars::rechosen(
                        options_at(lines, i),
                        k,
                        s.active_option,
                    )
                },
                grammar::Kind::Value(_) => s.value matches Some(v) ==> plain(v)
                    ==> layout::kind_at(written, i) == grammar::Kind::Value(text::trim(v)),
                _ => true,
            }
        }),
{
    let line = lines[i];
    let wr = nvram::writer_at(lines, settings, i);
    let s = settings[n];
    let k = wr.passed;
    match layout::kind_at(lines, i) {
        grammar::Kind::Options(v) => {
            if s.options.len() > 0 {
                let r = grammar::restarred_options(v, k, s.active_option);
                layout::lemma_options_line(line, k, s.active_option);
                layout::lemma_key_text(line);
                lemma_options_text_trimmed(line);
                stars::law_moved_star_marks_the_active_option_of_a_line(v, k, s.active_option);
                text::law_trim_is_idempotent(r);
            }
        },
        grammar::Kind::Bracket => {
            if wr.listing && s.options.len() > 0 {
                layout::lemma_bracket_line(line, k, s.active_option);
                lemma_statement(line);
                stars::law_moved_star_marks_the_active_option_of_a_line(
                    grammar::statement(line),
                    k,
                    s.active_option,
                );
            }
        },
        grammar::Kind::Value(_) => {
            if let Some(v) = s.value {
                if plain(v) {
                    layout::lemma_value_line(line, v);
                }
            }
        },
        _ => {},
    }
}

proof fn lemma_options_text_trimmed(line: Seq<char>)
    requires
        grammar::kind_of(grammar::statement(line)) is Options,
    ensures
        text::trim(grammar::kind_of(grammar::statement(line))->Options_0) == grammar::kind_of(
            grammar::statement(line),
        )->Options_0,
{
    lemma_after_key(grammar::statement(line), "options"@);
}

// ---------------------------------------------------------------------------
// Regular dumps
// ---------------------------------------------------------------------------

/// `s` is `original` with another option selected or another value.
pub open spec fn only_edited(s: SettingView, original: SettingView) -> bool {
    &&& s == (SettingView { active_option: s.active_option, value: s.value, ..original })
    &&& s.active_option == original.active_option || {
        &&& s.active_option is Some
        &&& 0 <= s.active_option->0 < s.options.len()
    }
}

/// The value of setting `n` stands on a line of its own, and no single option stands for it.
pub open spec fn value_has_line(lines: Seq<Seq<char>>, n: int) -> bool {
    forall|i: int|
        0 <= i < lines.len() && #[trigger] layout::kind_at(lines, i) is Setup && reader_at(
            lines,
            i + 1,
        ).done.len() == n ==> block_at(lines, i).value is Some && nvram::finish(
            block_at(lines, i),
        ) == block_at(lines, i)
}

/// Setting `n` has the value that the dump lists for it.
pub open spec fn value_kept(lines: Seq<Seq<char>>, settings: Seq<SettingView>, n: int) -> bool {
    settings[n].value == nvram::listed_settings(lines)[n].value
}

/// `settings` are the settings of the dump, some with another option selected, and some, whose
/// value stands on a line of its own, with another value.
pub open spec fn edits(lines: Seq<Seq<char>>, settings: Seq<SettingView>) -> bool {
    &&& settings.len() == nvram::listed_settings(lines).len()
    &&& forall|n: int|
        0 <= n < settings.len() ==> only_edited(
            #[trigger] settings[n],
            nvram::listed_settings(lines)[n],
        )
    &&& forall|n: int|
        0 <= n < settings.len() && !value_kept(lines, settings, n) ==> {
            &&& value_has_line(lines, n)
            &&& (#[trigger] settings[n]).value is Some
            &&& writable_value(settings[n].value->0)
        }
}

/// The line of a value is written for the setting in whose block it stands, or for one with the same
/// value. A line that is not written may stand in front of what identifies its block, if the value
/// was not changed.
pub open spec fn values_reach_their_settings(
    lines: Seq<Seq<char>>,
    settings: Seq<SettingView>,
) -> bool {
    forall|i: int|
        0 <= i < lines.len() && #[trigger] layout::kind_at(lines, i) is Value && reader_at(
            lines,
            i,
        ).current is Some ==> {
            let n = reader_at(lines, i).done.len() as int;
            match nvram::writer_at(lines, settings, i).index {
                Some(m) => settings[m].value == settings[n].value || (settings[m].value is None
                    && value_kept(lines, settings, n)),
                None => value_kept(lines, settings, n),
            }
        }
}

/// The options of setting `n` are left alone: its selection was not changed, and no list of options
/// in its block is written.
pub open spec fn options_left_alone(
    lines: Seq<Seq<char>>,
    settings: Seq<SettingView>,
    n: int,
) -> bool {
    &&& settings[n].active_option == nvram::listed_settings(lines)[n].active_option
    &&& forall|i: int|
        0 <= i < lines.len() && #[trigger] layout::kind_at(lines, i) is Options && reader_at(
            lines,
            i,
        ).current is Some && reader_at(lines, i).done.len() == n ==> (nvram::writer_at(
            lines,
            settings,
            i,
        ).index matches Some(m) ==> settings[m].options.len() == 0)
}

/// A line of options that are not left alone is written for the setting in whose block it stands, or
/// for one with the same selection, and no option has a star of its own.
pub open spec fn options_reach_their_settings(
    lines: Seq<Seq<char>>,
    settings: Seq<SettingView>,
) -> bool {
    forall|i: int|
        0 <= i < lines.len() && (#[trigger] layout::kind_at(lines, i) is Options || layout::kind_at(
            lines,
            i,
        ) is Bracket) && reader_at(lines, i).current is Some && !options_left_alone(
            lines,
            settings,
            reader_at(lines, i).done.len() as int,
        ) ==> {
            let n = reader_at(lines, i).done.len() as int;
            let wr = nvram::writer_at(lines, settings, i);
            &&& !own_star_at(lines, i)
            &&& layout::kind_at(lines, i) is Bracket ==> wr.listing
            &&& wr.index matches Some(m) && settings[m].options.len() > 0
                && settings[m].active_option == settings[n].active_option
        }
}

/// A dump is laid out regularly, as far as it is written to.
pub open spec fn regular(lines: Seq<Seq<char>>, settings: Seq<SettingView>) -> bool {
    values_reach_their_settings(lines, settings) && options_reach_their_settings(lines, settings)
}

// ---------------------------------------------------------------------------
// The round trip
// ---------------------------------------------------------------------------

/// The active option `active`, if it is one of the first `k`.
spec fn among(active: Option<int>, k: int) -> Option<int> {
    match active {
        Some(j) if 0 <= j < k => Some(j),
        _ => None,
    }
}

/// `d` has the value that `c`, which is being read, has, or the one of `s` in its place.
spec fn value_in_step(c: SettingView, d: SettingView, s: SettingView, kept: bool) -> bool {
    if kept {
        (d.value is Some) == (c.value is Some) && (d.value == c.value || d.value == s.value)
    } else {
        d.value == if c.value is Some {
            s.value
        } else {
            None
        }
    }
}

/// `d` has the active option that `c`, which is being read, has if its options are left alone, and
/// the one of `s` otherwise, as far as it has been read. The writer counts with the reader.
spec fn options_in_step(
    c: SettingView,
    d: SettingView,
    s: SettingView,
    left: bool,
    wr: nvram::WriteState,
) -> bool {
    &&& wr.passed == c.options.len()
    &&& if left {
        d.active_option == c.active_option && !wr.listing
    } else {
        d.active_option == among(s.active_option, c.options.len() as int)
    }
}

/// Before line `i`, the reader of the written dump is where the reader of the dump is.
spec fn in_step(lines: Seq<Seq<char>>, settings: Seq<SettingView>, i: int) -> bool {
    let at = reader_at(lines, i);
    let rd = reader_at(nvram::patched_lines(lines, settings), i);
    let n = at.done.len() as int;
    &&& rd.done == settings.take(n)
    &&& match at.current {
        Some(c) => {
            let d = rd.current->0;
            let raw = rest_of_block(lines, i, c);
            let kept = value_kept(lines, settings, n);
            &&& n < settings.len()
            &&& rd.current is Some
            &&& d == (SettingView { active_option: d.active_option, value: d.value, ..c })
            &&& !kept ==> raw.value is Some && nvram::finish(raw) == raw
            &&& value_in_step(c, d, settings[n], kept)
            &&& options_in_step(
                c,
                d,
                settings[n],
                options_left_alone(lines, settings, n),
                nvram::writer_at(lines, settings, i),
            )
        },
        None => rd.current is None,
    }
}

/// A setting whose block is over is the edited one.
proof fn lemma_finish_in_step(
    c: SettingView,
    d: SettingView,
    s: SettingView,
    kept: bool,
    left: bool,
)
    requires
        d == (SettingView { active_option: d.active_option, value: d.value, ..c }),
        only_edited(s, nvram::finish(c)),
        c.active_option matches Some(k) ==> 0 <= k < c.options.len(),
        kept == (s.value == nvram::finish(c).value),
        !kept ==> c.value is Some && nvram::finish(c) == c,
        value_in_step(c, d, s, kept),
        left ==> s.active_option == nvram::finish(c).active_option && d.active_option
            == c.active_option,
        !left ==> d.active_option == among(s.active_option, c.options.len() as int),
    ensures
        nvram::finish(d) == s,
{
    if c.options.len() == 1 && c.active_option is None {
        assert(nvram::finish(c).options.len() == 0);
        assert(s.active_option is None);
        assert(d.active_option is None);
        assert(nvram::finish(d) =~= s);
    } else {
        assert(d.active_option == s.active_option);
        assert(d.value == s.value);
        assert(nvram::finish(d) =~= s);
    }
}

/// Where a block is over, the reader of the written dump has read the edited settings so far.
proof fn lemma_block_over(lines: Seq<Seq<char>>, settings: Seq<SettingView>, i: int)
    requires
        edits(lines, settings),
        0 <= i <= lines.len(),
        in_step(lines, settings, i),
        i < lines.len() ==> layout::kind_at(lines, i) is Setup,
    ensures
        nvram::finished(reader_at(nvram::patched_lines(lines, settings), i)) == settings.take(
            nvram::finished(reader_at(lines, i)).len() as int,
        ),
        nvram::finished(reader_at(lines, i)).len() <= settings.len(),
{
    let at = reader_at(lines, i);
    let rd = reader_at(nvram::patched_lines(lines, settings), i);
    let n = at.done.len() as int;
    lemma_reader_sound(lines, i);
    lemma_listed(lines, i);
    if at.current is Some {
        let c = at.current->0;
        assert(rest_of_block(lines, i, c) == c);
        assert(only_edited(settings[n], nvram::listed_settings(lines)[n]));
        lemma_finish_in_step(
            c,
            rd.current->0,
            settings[n],
            value_kept(lines, settings, n),
            options_left_alone(lines, settings, n),
        );
        assert(nvram::finished(rd) =~= settings.take(n + 1));
    }
}

/// Options that are read with the star moved are the same, with another one active.
proof fn lemma_add_rechosen(
    c: SettingView,
    d: SettingView,
    found: Seq<grammar::Choice>,
    active: Option<int>,
)
    requires
        d == (SettingView { active_option: d.active_option, value: d.value, ..c }),
        d.active_option == among(active, c.options.len() as int),
    ensures
        ({
            let e = nvram::add_options(c, found);
            &&& nvram::add_options(
                d,
                stars::rechosen(found, c.options.len() as int, active),
            ) == (SettingView {
                active_option: among(active, e.options.len() as int),
                value: d.value,
                ..e
            })
            &&& e.options.len() == c.options.len() + found.len()
            &&& e.value == c.value
        }),
    decreases found.len(),
{
    let k = c.options.len() as int;
    let chosen = stars::rechosen(found, k, active);
    if found.len() > 0 {
        lemma_add_rechosen(c, d, found.drop_last(), active);
        assert(chosen.drop_last() =~= stars::rechosen(found.drop_last(), k, active));
        assert(chosen.last() == (grammar::Choice {
            star: active == Some(k + found.len() - 1),
            label: found.last().label,
        }));
        let e = nvram::add_options(c, found);
        let f = nvram::add_options(d, chosen);
        assert(f =~= (SettingView {
            active_option: among(active, e.options.len() as int),
            value: d.value,
            ..e
        }));
    }
}

/// Options are read in the same way whatever the value is.
proof fn lemma_add_options_value(
    c: SettingView,
    v: Option<Seq<char>>,
    found: Seq<grammar::Choice>,
)
    ensures
        nvram::add_options(SettingView { value: v, ..c }, found) == (SettingView {
            value: v,
            ..nvram::add_options(c, found)
        }),
        nvram::add_options(c, found).value == c.value,
        nvram::add_options(c, found).options.len() == c.options.len() + found.len(),
    decreases found.len(),
{
    if found.len() > 0 {
        lemma_add_options_value(c, v, found.drop_last());
    }
}

/// The writer knows a block only where the reader is in one.
proof fn lemma_writer_in_block(lines: Seq<Seq<char>>, settings: Seq<SettingView>, i: int)
    requires
        0 <= i <= lines.len(),
    ensures
        reader_at(lines, i).current is None ==> {
            let wr = nvram::writer_at(lines, settings, i);
            wr.question is None && wr.index is None
        },
    decreases i,
{
    if i > 0 {
        lemma_writer_in_block(lines, settings, i - 1);
        lemma_reader_step(lines, i - 1);
    }
}

/// The line that starts a block keeps the readers in step.
proof fn lemma_step_setup(lines: Seq<Seq<char>>, settings: Seq<SettingView>, i: int)
    requires
        edits(lines, settings),
        0 <= i < lines.len(),
        in_step(lines, settings, i),
        layout::kind_at(lines, i) is Setup,
    ensures
        in_step(lines, settings, i + 1),
{
    let written = nvram::patched_lines(lines, settings);
    lemma_block_over(lines, settings, i);
    lemma_reader_step(lines, i);
    lemma_reader_step(written, i);
    lemma_listed(lines, i + 1);
    assert(written[i] == lines[i]);
    let n = reader_at(lines, i + 1).done.len() as int;
    if !value_kept(lines, settings, n) {
        assert(settings[n].value is Some);
        assert(value_has_line(lines, n));
        assert(layout::kind_at(lines, i) is Setup);
    }
}

/// The line of a value keeps the readers in step.
proof fn lemma_step_value(lines: Seq<Seq<char>>, settings: Seq<SettingView>, i: int)
    requires
        single_lines(lines),
        edits(lines, settings),
        values_reach_their_settings(lines, settings),
        0 <= i < lines.len(),
        in_step(lines, settings, i),
        reader_at(lines, i).current is Some,
        layout::kind_at(lines, i) is Value,
    ensures
        in_step(lines, settings, i + 1),
{
    let written = nvram::patched_lines(lines, settings);
    lemma_reader_step(lines, i);
    lemma_reader_step(written, i);
    let n = reader_at(lines, i).done.len() as int;
    let wr = nvram::writer_at(lines, settings, i);
    assert(!lines[i].contains('\n'));
    layout::lemma_writer_valid(lines, settings, i);
    if let Some(m) = wr.index {
        law_written_lines_state_what_was_written(lines, settings, i, m);
        if settings[m].value is Some {
            lemma_edited_value(lines, settings, m);
        } else {
            assert(written[i] == lines[i]);
        }
    } else {
        assert(written[i] == lines[i]);
    }
    if !value_kept(lines, settings, n) {
        assert(settings[n].value is Some);
    }
}

/// The values of edited settings can stand on lines.
pub proof fn lemma_edited_value(lines: Seq<Seq<char>>, settings: Seq<SettingView>, n: int)
    requires
        single_lines(lines),
        edits(lines, settings),
        0 <= n < settings.len(),
    ensures
        settings[n].value matches Some(v) ==> writable_value(v),
{
    lemma_listed_sound(lines, n);
    let s = settings[n];
    if value_kept(lines, settings, n) {
        if let Some(v) = s.value {
            lemma_stated_plain(v, lines);
        }
    }
}

/// A line of options that are left alone keeps the readers in step.
proof fn lemma_step_left_alone(lines: Seq<Seq<char>>, settings: Seq<SettingView>, i: int)
    requires
        0 <= i < lines.len(),
        in_step(lines, settings, i),
        reader_at(lines, i).current is Some,
        options_left_alone(lines, settings, reader_at(lines, i).done.len() as int),
        layout::kind_at(lines, i) is Options || layout::kind_at(lines, i) is Bracket,
    ensures
        in_step(lines, settings, i + 1),
{
    let written = nvram::patched_lines(lines, settings);
    lemma_reader_step(lines, i);
    lemma_reader_step(written, i);
    assert(written[i] == lines[i]);
    let c = reader_at(lines, i).current->0;
    let d = reader_at(written, i).current->0;
    assert(d == (SettingView { value: d.value, ..c }));
    lemma_add_options_value(c, d.value, options_at(lines, i));
}

/// A line of options that are written keeps the readers in step.
proof fn lemma_step_options(lines: Seq<Seq<char>>, settings: Seq<SettingView>, i: int)
    requires
        single_lines(lines),
        options_reach_their_settings(lines, settings),
        0 <= i < lines.len(),
        in_step(lines, settings, i),
        reader_at(lines, i).current is Some,
        !options_left_alone(lines, settings, reader_at(lines, i).done.len() as int),
        layout::kind_at(lines, i) is Options || layout::kind_at(lines, i) is Bracket,
    ensures
        in_step(lines, settings, i + 1),
{
    let written = nvram::patched_lines(lines, settings);
    lemma_reader_step(lines, i);
    lemma_reader_step(written, i);
    assert(!lines[i].contains('\n'));
    let n = reader_at(lines, i).done.len() as int;
    let s = settings[n];
    let wr = nvram::writer_at(lines, settings, i);
    let c = reader_at(lines, i).current->0;
    let d = reader_at(written, i).current->0;
    let m = wr.index->0;
    assert(wr.index == Some(m));
    assert(settings[m].active_option == s.active_option);
    law_written_lines_state_what_was_written(lines, settings, i, m);
    lemma_add_rechosen(c, d, options_at(lines, i), s.active_option);
    let e = nvram::add_options(c, options_at(lines, i));
    assert(reader_at(lines, i + 1).current == Some(e));
    assert(reader_at(written, i + 1).current == Some(
        SettingView {
            active_option: among(s.active_option, e.options.len() as int),
            value: d.value,
            ..e
        },
    ));
}

/// Any other line keeps the readers in step.
proof fn lemma_step_other(lines: Seq<Seq<char>>, settings: Seq<SettingView>, i: int)
    requires
        0 <= i < lines.len(),
        in_step(lines, settings, i),
        !(layout::kind_at(lines, i) is Setup),
        reader_at(lines, i).current is Some ==> !(layout::kind_at(lines, i) is Options)
            && !(layout::kind_at(lines, i) is Bracket) && !(layout::kind_at(lines, i) is Value),
    ensures
        in_step(lines, settings, i + 1),
{
    let written = nvram::patched_lines(lines, settings);
    lemma_reader_step(lines, i);
    lemma_reader_step(written, i);
    lemma_writer_in_block(lines, settings, i);
    assert(written[i] == lines[i]);
}

/// The reader of a written regular dump stays in step with the reader of the dump.
proof fn lemma_in_step(lines: Seq<Seq<char>>, settings: Seq<SettingView>, i: int)
    requires
        single_lines(lines),
        regular(lines, settings),
        edits(lines, settings),
        0 <= i <= lines.len(),
    ensures
        in_step(lines, settings, i),
    decreases i,
{
    if i == 0 {
        let written = nvram::patched_lines(lines, settings);
        assert(lines.take(0) =~= seq![]);
        assert(written.take(0) =~= seq![]);
        assert(settings.take(0) =~= seq![]);
    } else {
        lemma_in_step(lines, settings, i - 1);
        let at = reader_at(lines, i - 1);
        let kind = layout::kind_at(lines, i - 1);
        if kind is Setup {
            lemma_step_setup(lines, settings, i - 1);
        } else if at.current is None {
            lemma_step_other(lines, settings, i - 1);
        } else if kind is Value {
            lemma_step_value(lines, settings, i - 1);
        } else if kind is Options || kind is Bracket {
            if options_left_alone(lines, settings, at.done.len() as int) {
                lemma_step_left_alone(lines, settings, i - 1);
            } else {
                lemma_step_options(lines, settings, i - 1);
            }
        } else {
            lemma_step_other(lines, settings, i - 1);
        }
    }
}

/// Settings that were edited and written into a regular dump are the settings that the written dump
/// lists: another choice of the active options and other values are read back as they were made,
/// and everything else is read back as it was.
pub proof fn law_edited_settings_read_back(lines: Seq<Seq<char>>, settings: Seq<SettingView>)
    requires
        single_lines(lines),
        regular(lines, settings),
        edits(lines, settings),
    ensures
        nvram::listed_settings(nvram::patched_lines(lines, settings)) == settings,
{
    let written = nvram::patched_lines(lines, settings);
    let n = lines.len() as int;
    lemma_in_step(lines, settings, n);
    lemma_block_over(lines, settings, n);
    assert(lines.take(n) =~= lines);
    assert(written.take(n) =~= written);
    assert(settings.take(settings.len() as int) =~= settings);
}

// ---------------------------------------------------------------------------
// Dumps with identified blocks
// ---------------------------------------------------------------------------

/// Every setting of the dump states a question, a token and an offset, and no two state the same
/// three.
pub open spec fn keys_are_distinct(lines: Seq<Seq<char>>) -> bool {
    let all = nvram::listed_settings(lines);
    &&& forall|n: int|
        0 <= n < all.len() ==> text::trim((#[trigger] all[n]).setup_question).len() > 0
            && text::trim(all[n].token).len() > 0 && text::trim(all[n].offset).len() > 0
    &&& forall|n: int, m: int|
        0 <= n < m < all.len() ==> text::trim((#[trigger] all[n]).setup_question) != text::trim(
            (#[trigger] all[m]).setup_question,
        ) || text::trim(all[n].token) != text::trim(all[m].token) || text::trim(all[n].offset)
            != text::trim(all[m].offset)
}

/// In front of line `i` its block has stated its token and its offset.
pub open spec fn identified_at(lines: Seq<Seq<char>>, i: int) -> bool {
    let c = reader_at(lines, i).current->0;
    let s = nvram::listed_settings(lines)[reader_at(lines, i).done.len() as int];
    c.token == s.token && c.offset == s.offset
}

/// In each block the token stands in front of the offset, both stand in front of the options, and
/// the value stands behind both or in front of the offset.
pub open spec fn keys_stand_in_front(lines: Seq<Seq<char>>) -> bool {
    &&& forall|i: int|
        0 <= i < lines.len() && #[trigger] layout::kind_at(lines, i) is Offset && reader_at(
            lines,
            i,
        ).current is Some ==> (reader_at(lines, i).current->0).token
            == nvram::listed_settings(lines)[reader_at(lines, i).done.len() as int].token
    &&& forall|i: int|
        0 <= i < lines.len() && (#[trigger] layout::kind_at(lines, i) is Options || layout::kind_at(
            lines,
            i,
        ) is Bracket) && reader_at(lines, i).current is Some ==> identified_at(lines, i)
    &&& forall|i: int|
        0 <= i < lines.len() && #[trigger] layout::kind_at(lines, i) is Value && reader_at(
            lines,
            i,
        ).current is Some ==> identified_at(lines, i) || (reader_at(
            lines,
            i,
        ).current->0).offset.len() == 0
}

/// Line `j` starts a list of options in the block that line `i` stands in.
pub open spec fn starts_list_of(lines: Seq<Seq<char>>, j: int, i: int) -> bool {
    &&& 0 <= j < i
    &&& layout::kind_at(lines, j) is Options
    &&& reader_at(lines, j).current is Some
    &&& reader_at(lines, j).done.len() == reader_at(lines, i).done.len()
}

/// A line that continues a list of options has one that starts a list in front of it in its block,
/// and no option has a star of its own.
pub open spec fn lists_are_started(lines: Seq<Seq<char>>) -> bool {
    &&& forall|i: int|
        0 <= i < lines.len() && #[trigger] layout::kind_at(lines, i) is Bracket && reader_at(
            lines,
            i,
        ).current is Some ==> exists|j: int| #[trigger] starts_list_of(lines, j, i)
    &&& forall|i: int|
        0 <= i < lines.len() && (#[trigger] layout::kind_at(lines, i) is Options || layout::kind_at(
            lines,
            i,
        ) is Bracket) ==> !own_star_at(lines, i)
}

/// The value lines of settings whose value was changed stand behind the token and the offset.
pub open spec fn changed_values_are_identified(
    lines: Seq<Seq<char>>,
    settings: Seq<SettingView>,
) -> bool {
    forall|i: int|
        0 <= i < lines.len() && #[trigger] layout::kind_at(lines, i) is Value && reader_at(
            lines,
            i,
        ).current is Some && !value_kept(
            lines,
            settings,
            reader_at(lines, i).done.len() as int,
        ) ==> identified_at(lines, i)
}

/// What the rest of a block makes of a setting keeps its question.
proof fn lemma_question_stays(lines: Seq<Seq<char>>, i: int, c: SettingView)
    requires
        0 <= i <= lines.len(),
    ensures
        rest_of_block(lines, i, c).setup_question == c.setup_question,
    decreases lines.len() - i,
{
    if i < lines.len() && !(layout::kind_at(lines, i) is Setup) {
        let d = nvram::with_line(c, layout::kind_at(lines, i), grammar::statement(lines[i]));
        lemma_add_options_value(c, c.value, options_at(lines, i));
        lemma_add_options_keys(c, options_at(lines, i));
        lemma_question_stays(lines, i + 1, d);
    }
}

proof fn lemma_add_options_keys(c: SettingView, found: Seq<grammar::Choice>)
    ensures
        ({
            let d = nvram::add_options(c, found);
            &&& d.setup_question == c.setup_question
            &&& d.token == c.token
            &&& d.offset == c.offset
        }),
    decreases found.len(),
{
    if found.len() > 0 {
        lemma_add_options_keys(c, found.drop_last());
    }
}

proof fn lemma_value_after_trimmed(x: Seq<char>)
    ensures
        text::trim(grammar::value_after(x)) == grammar::value_after(x),
{
    let t = text::trim_start(x);
    text::law_trim_is_idempotent(t.take(text::first_index(t, '\n')));
}

/// What the writer knows of the block in which the reader reads `c`, and which becomes `s`.
spec fn writer_knows(
    wr: nvram::WriteState,
    c: SettingView,
    s: SettingView,
    settings: Seq<SettingView>,
) -> bool {
    &&& text::trim(c.setup_question) == c.setup_question
    &&& text::trim(c.token) == c.token
    &&& text::trim(c.offset) == c.offset
    &&& wr.question == Some(c.setup_question)
    &&& c.token.len() > 0 ==> wr.token == Some(c.token)
    &&& c.offset.len() == 0 ==> wr.index is None
    &&& c.offset.len() > 0 ==> wr.index == nvram::last_with_key(
        settings,
        (c.setup_question, s.token, c.offset),
    )
}

proof fn lemma_writer_knows(lines: Seq<Seq<char>>, settings: Seq<SettingView>, i: int)
    requires
        keys_are_distinct(lines),
        keys_stand_in_front(lines),
        0 <= i <= lines.len(),
    ensures
        reader_at(lines, i).current matches Some(c) ==> writer_knows(
            nvram::writer_at(lines, settings, i),
            c,
            nvram::listed_settings(lines)[reader_at(lines, i).done.len() as int],
            settings,
        ),
    decreases i,
{
    if i == 0 {
        assert(lines.take(0) =~= seq![]);
    } else {
        let j = i - 1;
        lemma_writer_knows(lines, settings, j);
        lemma_reader_step(lines, j);
        lemma_listed(lines, j);
        let at = reader_at(lines, j);
        let st = grammar::statement(lines[j]);
        let wr = nvram::writer_at(lines, settings, j);
        match layout::kind_at(lines, j) {
            grammar::Kind::Setup(q) => {
                lemma_value_after_trimmed(
                    grammar::after_two_word_key(st, "setup"@, "question"@)->0,
                );
                text::lemma_trimmed(Seq::<char>::empty());
            },
            grammar::Kind::Token(v) => {
                lemma_value_after_trimmed(grammar::after_key(st, "token"@)->0);
            },
            grammar::Kind::Offset(v) => {
                lemma_value_after_trimmed(grammar::after_key(st, "offset"@)->0);
                if let Some(c) = at.current {
                    let s = nvram::listed_settings(lines)[at.done.len() as int];
                    assert(nvram::key_of(s) is Some);
                    assert(c.token == s.token);
                    if c.token.len() == 0 {
                        text::lemma_trimmed(c.token);
                    }
                    let key = (c.setup_question, c.token, v);
                    nvram::lemma_last_with_key(settings, key);
                }
            },
            _ => {
                if let Some(c) = at.current {
                    lemma_add_options_keys(c, options_at(lines, j));
                }
            },
        }
    }
}

/// Behind its token and its offset a block is written for its own setting.
proof fn lemma_identified(lines: Seq<Seq<char>>, settings: Seq<SettingView>, i: int)
    requires
        edits(lines, settings),
        keys_are_distinct(lines),
        keys_stand_in_front(lines),
        0 <= i <= lines.len(),
        reader_at(lines, i).current is Some,
        identified_at(lines, i),
    ensures
        nvram::writer_at(lines, settings, i).index == Some(
            reader_at(lines, i).done.len() as int,
        ),
{
    let n = reader_at(lines, i).done.len() as int;
    let c = reader_at(lines, i).current->0;
    let all = nvram::listed_settings(lines);
    lemma_listed(lines, i);
    lemma_writer_knows(lines, settings, i);
    lemma_question_stays(lines, i, c);
    let s = all[n];
    assert(s.setup_question == c.setup_question);
    assert(nvram::key_of(s) is Some);
    if c.offset.len() == 0 {
        text::lemma_trimmed(c.offset);
    }
    let key = (c.setup_question, s.token, c.offset);
    assert(nvram::key_of(s) == Some(key));
    nvram::lemma_last_with_key(settings, key);
    assert(only_edited(settings[n], all[n]));
    assert(nvram::key_of(settings[n]) == Some(key));
    let m = nvram::last_with_key(settings, key)->0;
    assert(only_edited(settings[m], all[m]));
    assert(nvram::key_of(all[m]) == Some(key));
    if m < n {
        assert(nvram::key_of(all[m]) != nvram::key_of(all[n]));
    }
    if n < m {
        assert(nvram::key_of(all[n]) != nvram::key_of(all[m]));
    }
}

/// Within a block the writer remembers that a list of options was written.
proof fn lemma_list_goes_on(lines: Seq<Seq<char>>, settings: Seq<SettingView>, j: int, i: int)
    requires
        0 <= j < i <= lines.len(),
        nvram::writer_at(lines, settings, j + 1).listing,
        reader_at(lines, j).current is Some,
        reader_at(lines, j).done.len() == reader_at(lines, i).done.len(),
        !(layout::kind_at(lines, j) is Setup),
    ensures
        nvram::writer_at(lines, settings, i).listing,
        reader_at(lines, i).current is Some,
    decreases i,
{
    lemma_reader_step(lines, i - 1);
    if i - 1 > j {
        lemma_done_grows(lines, j, i - 1);
        lemma_done_grows(lines, i - 1, i);
        lemma_list_goes_on(lines, settings, j, i - 1);
    }
}

proof fn lemma_done_grows(lines: Seq<Seq<char>>, i: int, j: int)
    requires
        0 <= i <= j <= lines.len(),
    ensures
        reader_at(lines, i).done.len() <= reader_at(lines, j).done.len(),
    decreases j - i,
{
    if i < j {
        lemma_done_grows(lines, i, j - 1);
        lemma_reader_step(lines, j - 1);
    }
}

/// In a list of options that was started the writer writes on.
proof fn lemma_list_is_written(lines: Seq<Seq<char>>, settings: Seq<SettingView>, i: int)
    requires
        edits(lines, settings),
        keys_are_distinct(lines),
        keys_stand_in_front(lines),
        lists_are_started(lines),
        0 <= i < lines.len(),
        reader_at(lines, i).current is Some,
        layout::kind_at(lines, i) is Bracket,
        settings[reader_at(lines, i).done.len() as int].options.len() > 0,
    ensures
        nvram::writer_at(lines, settings, i).listing,
{
    let j = choose|j: int| #[trigger] starts_list_of(lines, j, i);
    lemma_identified(lines, settings, j);
    lemma_list_goes_on(lines, settings, j, i);
}

/// A dump is regular whatever is selected in it if its settings have different keys, which stand in
/// front of what is written, and if each list of options starts with a line of its own.
pub proof fn law_identified_dump_is_regular(lines: Seq<Seq<char>>, settings: Seq<SettingView>)
    requires
        edits(lines, settings),
        keys_are_distinct(lines),
        keys_stand_in_front(lines),
        lists_are_started(lines),
        changed_values_are_identified(lines, settings),
    ensures
        regular(lines, settings),
{
    let all = nvram::listed_settings(lines);
    assert forall|i: int|
        0 <= i < lines.len() && #[trigger] layout::kind_at(lines, i) is Value && reader_at(
            lines,
            i,
        ).current is Some implies {
        let n = reader_at(lines, i).done.len() as int;
        match nvram::writer_at(lines, settings, i).index {
            Some(m) => settings[m].value == settings[n].value || (settings[m].value is None
                && value_kept(lines, settings, n)),
            None => value_kept(lines, settings, n),
        }
    } by {
        if identified_at(lines, i) {
            lemma_identified(lines, settings, i);
        } else {
            lemma_writer_knows(lines, settings, i);
        }
    }
    assert forall|i: int|
        0 <= i < lines.len() && (#[trigger] layout::kind_at(lines, i) is Options || layout::kind_at(
            lines,
            i,
        ) is Bracket) && reader_at(lines, i).current is Some && !options_left_alone(
            lines,
            settings,
            reader_at(lines, i).done.len() as int,
        ) implies {
        let n = reader_at(lines, i).done.len() as int;
        let wr = nvram::writer_at(lines, settings, i);
        &&& !own_star_at(lines, i)
        &&& layout::kind_at(lines, i) is Bracket ==> wr.listing
        &&& wr.index matches Some(m) && settings[m].options.len() > 0
            && settings[m].active_option == settings[n].active_option
    } by {
        let n = reader_at(lines, i).done.len() as int;
        lemma_listed(lines, i);
        if settings[n].options.len() == 0 {
            lemma_no_options_left_alone(lines, settings, n);
        } else {
            lemma_identified(lines, settings, i);
            if layout::kind_at(lines, i) is Bracket {
                lemma_list_is_written(lines, settings, i);
            }
        }
    }
}

/// Where a setting has no options, nothing of its options is written.
proof fn lemma_no_options_left_alone(
    lines: Seq<Seq<char>>,
    settings: Seq<SettingView>,
    n: int,
)
    requires
        edits(lines, settings),
        keys_are_distinct(lines),
        keys_stand_in_front(lines),
        0 <= n < settings.len(),
        settings[n].options.len() == 0,
    ensures
        options_left_alone(lines, settings, n),
{
    assert(only_edited(settings[n], nvram::listed_settings(lines)[n]));
    assert forall|i: int|
        0 <= i < lines.len() && #[trigger] layout::kind_at(lines, i) is Options && reader_at(
            lines,
            i,
        ).current is Some && reader_at(lines, i).done.len() == n implies (nvram::writer_at(
        lines,
        settings,
        i,
    ).index matches Some(m) ==> settings[m].options.len() == 0) by {
        lemma_identified(lines, settings, i);
    }
}

// ---------------------------------------------------------------------------
// Dumps that are not edited
// ---------------------------------------------------------------------------

/// The options text of line `i`, if it starts or continues a list of options.
pub open spec fn options_text_at(lines: Seq<Seq<char>>, i: int) -> Seq<char> {
    match layout::kind_at(lines, i) {
        grammar::Kind::Options(v) => v,
        _ => grammar::statement(lines[i]),
    }
}

/// In every list of options the active option is marked, with one star, and no other is.
pub open spec fn stars_mark_active_options(lines: Seq<Seq<char>>) -> bool {
    forall|i: int|
        0 <= i < lines.len() && (#[trigger] layout::kind_at(lines, i) is Options || layout::kind_at(
            lines,
            i,
        ) is Bracket) && reader_at(lines, i).current is Some ==> layout::marked_as(
            options_text_at(lines, i),
            (reader_at(lines, i).current->0).options.len() as int,
            nvram::listed_settings(lines)[reader_at(lines, i).done.len() as int].active_option,
        )
}

/// Every line of a value in a block states the value of the setting.
pub open spec fn blocks_have_one_value(lines: Seq<Seq<char>>) -> bool {
    forall|i: int|
        0 <= i < lines.len() && reader_at(lines, i).current is Some ==> (#[trigger] layout::kind_at(
            lines,
            i,
        ) matches grammar::Kind::Value(v) ==> nvram::listed_settings(lines)[reader_at(
            lines,
            i,
        ).done.len() as int].value == Some(v))
}

/// Writing the settings that a regular dump lists into that dump changes no character of it, if the
/// active options are marked with one star each and no block states two values.
pub proof fn law_unedited_dump_stays(lines: Seq<Seq<char>>)
    requires
        single_lines(lines),
        regular(lines, nvram::listed_settings(lines)),
        stars_mark_active_options(lines),
        blocks_have_one_value(lines),
    ensures
        nvram::patched_lines(lines, nvram::listed_settings(lines)) == lines,
{
    let settings = nvram::listed_settings(lines);
    let written = nvram::patched_lines(lines, settings);
    assert forall|i: int| 0 <= i < lines.len() implies #[trigger] written[i] == lines[i] by {
        lemma_unedited_line_stays(lines, settings, i);
    }
    assert(written =~= lines);
}

proof fn lemma_unedited_line_stays(lines: Seq<Seq<char>>, settings: Seq<SettingView>, i: int)
    requires
        settings == nvram::listed_settings(lines),
        single_lines(lines),
        regular(lines, settings),
        stars_mark_active_options(lines),
        blocks_have_one_value(lines),
        0 <= i < lines.len(),
    ensures
        nvram::patched_lines(lines, settings)[i] == lines[i],
{
    let line = lines[i];
    let at = reader_at(lines, i);
    let n = at.done.len() as int;
    let wr = nvram::writer_at(lines, settings, i);
    assert(edits(lines, settings));
    lemma_in_step(lines, settings, i);
    lemma_writer_in_block(lines, settings, i);
    assert(!line.contains('\n'));
    if at.current is Some && wr.index is Some {
        let m = wr.index->0;
        match layout::kind_at(lines, i) {
            grammar::Kind::Options(v) => {
                if settings[m].options.len() > 0 {
                    assert(!options_left_alone(lines, settings, n));
                    layout::lemma_key_text(line);
                    lemma_options_text_trimmed(line);
                    layout::law_marked_options_stay(v, wr.passed, settings[m].active_option);
                    layout::lemma_same_body(line, nvram::key_end(line));
                }
            },
            grammar::Kind::Bracket => {
                if wr.listing && settings[m].options.len() > 0 {
                    let s = grammar::statement(line);
                    assert(!options_left_alone(lines, settings, n));
                    layout::lemma_bracket_line(line, wr.passed, settings[m].active_option);
                    lemma_statement(line);
                    layout::law_marked_options_stay(s, wr.passed, settings[m].active_option);
                    layout::lemma_same_body(line, 0);
                }
            },
            grammar::Kind::Value(v) => {
                layout::law_same_value_changes_nothing(line);
            },
            _ => {},
        }
    }
}

// ---------------------------------------------------------------------------
// Files
// ---------------------------------------------------------------------------

/// `s` can stand on one line of a dump file.
pub open spec fn fits_file(s: Seq<char>) -> bool {
    codec::representable(s) && !s.contains('\n')
}

proof fn lemma_fits_part(s: Seq<char>, a: int, b: int)
    requires
        fits_file(s),
        0 <= a <= b <= s.len(),
    ensures
        fits_file(s.subrange(a, b)),
{
    let t = s.subrange(a, b);
    assert forall|i: int| 0 <= i < t.len() implies codec::windows_1252_byte(#[trigger] t[i]) is Some by {
        assert(t[i] == s[a + i]);
    }
    if t.contains('\n') {
        let i = choose|i: int| 0 <= i < t.len() && t[i] == '\n';
        assert(s[a + i] == '\n');
    }
}

proof fn lemma_fits_join(a: Seq<char>, b: Seq<char>)
    requires
        fits_file(a),
        fits_file(b),
    ensures
        fits_file(a + b),
{
    let t = a + b;
    assert forall|i: int| 0 <= i < t.len() implies codec::windows_1252_byte(#[trigger] t[i]) is Some by {
        if i < a.len() {
            assert(t[i] == a[i]);
        } else {
            assert(t[i] == b[i - a.len()]);
        }
    }
    if t.contains('\n') {
        let i = choose|i: int| 0 <= i < t.len() && t[i] == '\n';
        if i < a.len() {
            assert(a[i] == '\n');
        } else {
            assert(b[i - a.len()] == '\n');
        }
    }
}

proof fn lemma_fits_restarred(s: Seq<char>, k: int, active: Option<int>)
    requires
        fits_file(s),
    ensures
        fits_file(grammar::restarred(s, k, active)),
    decreases s.len(),
{
    let n = text::first_index(s, '[');
    text::lemma_first_index(s, '[');
    if n < s.len() {
        let rest = s.skip(n);
        let t = rest.drop_first();
        let one = seq!['['];
        let front = s.take(n);
        assert(t =~= s.subrange(n + 1, s.len() as int));
        lemma_fits_part(s, n + 1, s.len() as int);
        assert(front =~= s.subrange(0, n));
        lemma_fits_part(s, 0, n);
        assert(fits_file(one));
        if grammar::starts_option(rest) {
            let h = grammar::strip_stars(front);
            let star = grammar::star_for(k, active);
            stars::lemma_strip_stars(front);
            assert(h =~= front.subrange(0, h.len() as int));
            lemma_fits_part(front, 0, h.len() as int);
            assert(fits_file(star));
            lemma_fits_restarred(t, k + 1, active);
            lemma_fits_join(h, star);
            lemma_fits_join(h + star, one);
            lemma_fits_join(h + star + one, grammar::restarred(t, k + 1, active));
        } else {
            lemma_fits_restarred(t, k, active);
            lemma_fits_join(front, one);
            lemma_fits_join(front + one, grammar::restarred(t, k, active));
        }
    }
}

proof fn lemma_fits_restarred_options(s: Seq<char>, k: int, active: Option<int>)
    requires
        fits_file(s),
    ensures
        fits_file(grammar::restarred_options(s, k, active)),
{
    let b = grammar::bare(s);
    let n = s.len() - b.len();
    let gap = grammar::starless(s.take(n));
    let star = grammar::star_for(k, active);
    lemma_fits_restarred(s, k, active);
    stars::lemma_bare(s);
    stars::lemma_starless_blank(s.take(n));
    assert(b =~= s.subrange(n, s.len() as int));
    lemma_fits_part(s, n, s.len() as int);
    assert(fits_file(star));
    assert(fits_file(gap)) by {
        assert forall|i: int| 0 <= i < gap.len() implies s.contains(#[trigger] gap[i]) by {
            assert(s.take(n).contains(gap[i]));
            let j = choose|j: int| 0 <= j < s.take(n).len() && s.take(n)[j] == gap[i];
            assert(s[j] == gap[i]);
        }
        assert forall|i: int| 0 <= i < gap.len() implies codec::windows_1252_byte(
            #[trigger] gap[i],
        ) is Some by {
            let j = choose|j: int| 0 <= j < s.len() && s[j] == gap[i];
            assert(codec::windows_1252_byte(s[j]) is Some);
        }
        if gap.contains('\n') {
            let i = choose|i: int| 0 <= i < gap.len() && gap[i] == '\n';
            assert(s.contains(gap[i]));
        }
    }
    lemma_fits_join(star, gap);
    lemma_fits_join(star + gap, b);
}

proof fn lemma_fits_with_body(line: Seq<char>, from: int, body: Seq<char>)
    requires
        fits_file(line),
        fits_file(body),
        0 <= from <= grammar::strip_comment(line).len(),
    ensures
        fits_file(nvram::with_body(line, from, body)),
        fits_file(nvram::body_of(line, from)),
{
    let p = nvram::body_start(line, from);
    let s = grammar::strip_comment(line);
    let z = nvram::tail_of(line);
    nvram::lemma_strip_comment_prefix(line);
    text::lemma_leading_space(s.skip(from));
    assert(line.take(p) =~= line.subrange(0, p));
    lemma_fits_part(line, 0, p);
    assert(nvram::body_of(line, from) =~= line.subrange(p, s.len() as int));
    lemma_fits_part(line, p, s.len() as int);
    assert(z =~= line.subrange(s.len() as int, line.len() as int));
    lemma_fits_part(line, s.len() as int, line.len() as int);
    lemma_fits_join(line.take(p), body);
    lemma_fits_join(line.take(p) + body, z);
}

proof fn lemma_fits_written_line(
    st: nvram::WriteState,
    line: Seq<char>,
    settings: Seq<SettingView>,
)
    requires
        fits_file(line),
        st.index matches Some(n) ==> (settings[n].value matches Some(v) ==> fits_file(v)),
    ensures
        fits_file(nvram::written_line(st, line, settings)),
{
    let none = Seq::<char>::empty();
    assert(fits_file(none));
    match (grammar::kind_of(grammar::statement(line)), st.index) {
        (grammar::Kind::Options(_), Some(n)) if settings[n].options.len() > 0 => {
            let q = nvram::key_end(line);
            let b = nvram::body_of(line, q);
            nvram::lemma_key_end(line);
            lemma_fits_with_body(line, q, none);
            lemma_fits_restarred_options(b, st.passed, settings[n].active_option);
            lemma_fits_with_body(
                line,
                q,
                grammar::restarred_options(b, st.passed, settings[n].active_option),
            );
        },
        (grammar::Kind::Bracket, Some(n)) if st.listing && settings[n].options.len() > 0 => {
            let b = nvram::body_of(line, 0);
            let k = st.passed;
            lemma_fits_with_body(line, 0, none);
            lemma_fits_restarred_options(b, k, settings[n].active_option);
            lemma_fits_with_body(
                line,
                0,
                grammar::restarred_options(b, k, settings[n].active_option),
            );
        },
        (grammar::Kind::Value(_), Some(n)) if settings[n].value is Some => {
            let v = settings[n].value->0;
            let gap = nvram::value_gap(v, nvram::tail_of(line));
            assert(fits_file(gap));
            lemma_fits_join(v, gap);
            nvram::lemma_key_end(line);
            lemma_fits_with_body(line, nvram::key_end(line), v + gap);
        },
        _ => {},
    }
}

/// What lines of a dump file state can stand on a line of a dump file.
proof fn lemma_stated_fits(t: Seq<char>, lines: Seq<Seq<char>>)
    requires
        forall|i: int| 0 <= i < lines.len() ==> fits_file(#[trigger] lines[i]),
        stated(t, lines),
    ensures
        fits_file(t),
{
    let i = choose|i: int|
        0 <= i < lines.len() && is_trimmed_part(t, #[trigger] grammar::statement(lines[i]));
    let line = lines[i];
    assert(fits_file(line));
    nvram::lemma_strip_comment_prefix(line);
    let s = grammar::strip_comment(line);
    assert(s =~= line.subrange(0, s.len() as int));
    lemma_part(line, 0, s.len() as int);
    lemma_trim_is_part(s);
    lemma_part_of_part(grammar::statement(line), s, line);
    lemma_part_of_part(t, grammar::statement(line), line);
    let (a, b) = choose|a: int, b: int|
        0 <= a <= b <= line.len() && t == #[trigger] line.subrange(a, b);
    lemma_fits_part(line, a, b);
}

/// A written dump can stand in a file if the dump and the values can.
proof fn lemma_fits_patched(lines: Seq<Seq<char>>, settings: Seq<SettingView>)
    requires
        forall|i: int| 0 <= i < lines.len() ==> fits_file(#[trigger] lines[i]),
        forall|n: int|
            0 <= n < settings.len() ==> ((#[trigger] settings[n]).value matches Some(v)
                ==> fits_file(v)),
    ensures
        forall|i: int|
            0 <= i < lines.len() ==> fits_file(
                #[trigger] nvram::patched_lines(lines, settings)[i],
            ),
{
    let written = nvram::patched_lines(lines, settings);
    assert forall|i: int| 0 <= i < lines.len() implies fits_file(#[trigger] written[i]) by {
        let st = nvram::writer_at(lines, settings, i);
        layout::lemma_writer_valid(lines, settings, i);
        assert(fits_file(lines[i]));
        if let Some(n) = st.index {
            assert(settings[n].value matches Some(v) ==> fits_file(v));
        }
        lemma_fits_written_line(st, lines[i], settings);
    }
}

/// The values of edited settings can stand in a file if the dump and the changed values can.
proof fn lemma_fits_edited(lines: Seq<Seq<char>>, settings: Seq<SettingView>)
    requires
        forall|i: int| 0 <= i < lines.len() ==> fits_file(#[trigger] lines[i]),
        edits(lines, settings),
        forall|n: int|
            0 <= n < settings.len() && !value_kept(lines, settings, n) ==> fits_file(
                (#[trigger] settings[n]).value->0,
            ),
    ensures
        forall|n: int|
            0 <= n < settings.len() ==> ((#[trigger] settings[n]).value matches Some(v)
                ==> fits_file(v)),
{
    assert forall|n: int| 0 <= n < settings.len() implies ((#[trigger] settings[n]).value matches Some(
        v,
    ) ==> fits_file(v)) by {
        lemma_listed_sound(lines, n);
        if value_kept(lines, settings, n) {
            if let Some(v) = settings[n].value {
                lemma_stated_fits(v, lines);
            }
        }
    }
}

/// The lines of a dump that fits a file are the lines of the file it is saved to.
proof fn lemma_saved_lines(lines: Seq<Seq<char>>)
    requires
        forall|i: int| 0 <= i < lines.len() ==> fits_file(#[trigger] lines[i]),
        !codec::has_byte_order_mark(codec::encoded_lines(lines)),
    ensures
        text::lines(codec::file_text(codec::encoded_lines(lines))) == lines,
{
    assert forall|i: int| 0 <= i < lines.len() implies codec::representable(
        #[trigger] lines[i],
    ) by {
        assert(fits_file(lines[i]));
    }
    assert forall|i: int| 0 <= i < lines.len() implies !(#[trigger] lines[i]).contains('\n') by {
        assert(fits_file(lines[i]));
    }
    codec::law_written_lines_read_back(lines);
}

/// Saving the same settings again into the file they were saved to gives the same bytes. The values
/// must be without comments and line feeds, everything has to be Windows-1252, and the bytes must
/// not start like a byte order mark; of the options nothing is asked.
pub proof fn law_saving_twice_is_saving_once(
    lines: Seq<Seq<char>>,
    settings: Seq<SettingView>,
)
    requires
        forall|i: int| 0 <= i < lines.len() ==> fits_file(#[trigger] lines[i]),
        forall|n: int|
            0 <= n < settings.len() ==> ((#[trigger] settings[n]).value matches Some(v)
                ==> plain(v) && fits_file(v)),
        !codec::has_byte_order_mark(codec::encoded_lines(nvram::patched_lines(lines, settings))),
    ensures
        ({
            let saved = codec::encoded_lines(nvram::patched_lines(lines, settings));
            codec::encoded_lines(
                nvram::patched_lines(text::lines(codec::file_text(saved)), settings),
            ) == saved
        }),
{
    let written = nvram::patched_lines(lines, settings);
    assert(single_lines(lines)) by {
        assert forall|i: int| 0 <= i < lines.len() implies !(#[trigger] lines[i]).contains('\n') by {
            assert(fits_file(lines[i]));
        }
    }
    lemma_fits_patched(lines, settings);
    lemma_saved_lines(written);
    layout::law_writing_twice_is_writing_once(lines, settings);
}

/// A regular dump with edited settings that is saved to a file and loaded again lists the edited
/// settings, and its lines are the ones that were written. The lines and the changed values have to
/// be Windows-1252, and the bytes must not start like a byte order mark.
pub proof fn law_saved_file_loads_edited_settings(
    lines: Seq<Seq<char>>,
    settings: Seq<SettingView>,
    path: Option<Seq<Seq<char>>>,
)
    requires
        regular(lines, settings),
        edits(lines, settings),
        forall|i: int| 0 <= i < lines.len() ==> fits_file(#[trigger] lines[i]),
        forall|n: int|
            0 <= n < settings.len() && !value_kept(lines, settings, n) ==> fits_file(
                (#[trigger] settings[n]).value->0,
            ),
        !codec::has_byte_order_mark(codec::encoded_lines(nvram::patched_lines(lines, settings))),
    ensures
        nvram::read_text(
            codec::file_text(codec::encoded_lines(nvram::patched_lines(lines, settings))),
            path,
        ) == (nvram::NvramView {
            settings,
            original_lines: nvram::patched_lines(lines, settings),
            path,
        }),
{
    let written = nvram::patched_lines(lines, settings);
    lemma_fits_edited(lines, settings);
    lemma_fits_patched(lines, settings);
    lemma_saved_lines(written);
    assert(single_lines(lines)) by {
        assert forall|i: int| 0 <= i < lines.len() implies !(#[trigger] lines[i]).contains('\n') by {
            assert(fits_file(lines[i]));
        }
    }
    law_edited_settings_read_back(lines, settings);
}

/// The lines of a file without a byte order mark can stand in a file again.
pub proof fn law_loaded_lines_fit_a_file(bytes: Seq<u8>)
    requires
        !codec::has_byte_order_mark(bytes),
    ensures
        forall|i: int|
            0 <= i < text::lines(codec::file_text(bytes)).len() ==> fits_file(
                #[trigger] text::lines(codec::file_text(bytes))[i],
            ),
{
    let s = codec::windows_1252_text(bytes);
    assert(codec::representable(s)) by {
        assert forall|i: int| 0 <= i < s.len() implies codec::windows_1252_byte(
            #[trigger] s[i],
        ) is Some by {
            codec::law_bytes_and_characters_correspond(bytes[i], s[i]);
        }
    }
    lemma_lines_fit(s);
}

proof fn lemma_lines_fit(s: Seq<char>)
    requires
        codec::representable(s),
    ensures
        forall|i: int| 0 <= i < text::lines(s).len() ==> fits_file(#[trigger] text::lines(s)[i]),
    decreases s.len(),
{
    if s.len() > 0 {
        text::lemma_first_index(s, '\n');
        let n = text::first_index(s, '\n');
        let all = text::lines(s);
        let first = s.take(n);
        assert(fits_file(first)) by {
            assert forall|i: int| 0 <= i < first.len() implies codec::windows_1252_byte(
                #[trigger] first[i],
            ) is Some by {
                assert(first[i] == s[i]);
            }
            if first.contains('\n') {
                let i = choose|i: int| 0 <= i < first.len() && first[i] == '\n';
                assert(s[i] == '\n');
            }
        }
        if n < s.len() {
            let rest = s.skip(n + 1);
            assert forall|i: int| 0 <= i < rest.len() implies codec::windows_1252_byte(
                #[trigger] rest[i],
            ) is Some by {
                assert(rest[i] == s[n + 1 + i]);
            }
            lemma_lines_fit(rest);
            let line = text::strip_cr(first);
            assert(fits_file(line)) by {
                if first.len() > 0 {
                    assert(first.drop_last() =~= first.subrange(0, first.len() - 1));
                    lemma_fits_part(first, 0, first.len() - 1);
                }
            }
            assert forall|i: int| 0 <= i < all.len() implies fits_file(#[trigger] all[i]) by {
                if i > 0 {
                    assert(all[i] == text::lines(rest)[i - 1]);
                }
            }
        } else {
            assert(first =~= s);
        }
    }
}

/// A dump that was loaded from a file, edited, saved and loaded again lists the edited settings. The
/// file must not start with a byte order mark, and the dump has to be regular; the values that were
/// changed have to be Windows-1252 and to stand on lines of their own.
pub proof fn law_loaded_dump_keeps_edits_in_a_file(
    bytes: Seq<u8>,
    settings: Seq<SettingView>,
    path: Option<Seq<Seq<char>>>,
)
    requires
        !codec::has_byte_order_mark(bytes),
        regular(text::lines(codec::file_text(bytes)), settings),
        edits(text::lines(codec::file_text(bytes)), settings),
        forall|n: int|
            0 <= n < settings.len() && !value_kept(
                text::lines(codec::file_text(bytes)),
                settings,
                n,
            ) ==> fits_file((#[trigger] settings[n]).value->0),
    ensures
        ({
            let lines = text::lines(codec::file_text(bytes));
            let saved = codec::encoded_lines(nvram::patched_lines(lines, settings));
            nvram::read_text(codec::file_text(saved), path) == (nvram::NvramView {
                settings,
                original_lines: nvram::patched_lines(lines, settings),
                path,
            })
        }),
{
    let lines = text::lines(codec::file_text(bytes));
    let written = nvram::patched_lines(lines, settings);
    law_loaded_lines_fit_a_file(bytes);
    lemma_no_mark(bytes, written);
    law_saved_file_loads_edited_settings(lines, settings, path);
}

/// A file without a byte order mark, in which the settings have different keys that stand in front
/// of their options and in which each list of options starts with a line of its own, keeps every
/// selection and every changed value: saved and loaded again it lists the edited settings.
pub proof fn law_identified_file_keeps_edits(
    bytes: Seq<u8>,
    settings: Seq<SettingView>,
    path: Option<Seq<Seq<char>>>,
)
    requires
        !codec::has_byte_order_mark(bytes),
        keys_are_distinct(text::lines(codec::file_text(bytes))),
        keys_stand_in_front(text::lines(codec::file_text(bytes))),
        lists_are_started(text::lines(codec::file_text(bytes))),
        edits(text::lines(codec::file_text(bytes)), settings),
        changed_values_are_identified(text::lines(codec::file_text(bytes)), settings),
        forall|n: int|
            0 <= n < settings.len() && !value_kept(
                text::lines(codec::file_text(bytes)),
                settings,
                n,
            ) ==> fits_file((#[trigger] settings[n]).value->0),
    ensures
        ({
            let lines = text::lines(codec::file_text(bytes));
            let saved = codec::encoded_lines(nvram::patched_lines(lines, settings));
            nvram::read_text(codec::file_text(saved), path).settings == settings
        }),
{
    law_identified_dump_is_regular(text::lines(codec::file_text(bytes)), settings);
    law_loaded_dump_keeps_edits_in_a_file(bytes, settings, path);
}

/// A dump whose first line is that of a file without a byte order mark is saved without one.
proof fn lemma_no_mark(bytes: Seq<u8>, written: Seq<Seq<char>>)
    requires
        !codec::has_byte_order_mark(bytes),
        written.len() > 0 ==> text::lines(codec::file_text(bytes)).len() > 0 && written[0]
            == text::lines(codec::file_text(bytes))[0],
    ensures
        !codec::has_byte_order_mark(codec::encoded_lines(written)),
{
    let saved = codec::encoded_lines(written);
    if written.len() > 0 {
        let s = codec::windows_1252_text(bytes);
        let line = written[0];
        text::lemma_first_index(s, '\n');
        assert(s.len() > 0);
        assert(line.len() <= s.len());
        assert forall|i: int| 0 <= i < line.len() implies #[trigger] line[i]
            == codec::windows_1252_char(bytes[i]) by {
            assert(line[i] == s[i]);
        }
        lemma_encoded_front(bytes, line);
        lemma_first_line_encoded(written);
        let head = codec::encoded_text(line) + seq![0x0du8, 0x0au8];
        assert(saved[0] == head[0]);
        assert(saved[1] == head[1]);
        if line.len() >= 3 {
            assert(saved[2] == head[2]);
            assert(head[0] == bytes[0] && head[1] == bytes[1] && head[2] == bytes[2]);
        } else if line.len() == 2 {
            assert(saved[2] == head[2]);
            assert(head[0] == bytes[0] && head[1] == bytes[1] && head[2] == 0x0d);
        } else if line.len() == 1 {
            assert(head[1] == 0x0d);
        } else {
            assert(head[0] == 0x0d);
        }
    }
}

proof fn lemma_encoded_front(bytes: Seq<u8>, line: Seq<char>)
    requires
        line.len() <= bytes.len(),
        forall|i: int|
            0 <= i < line.len() ==> #[trigger] line[i] == codec::windows_1252_char(bytes[i]),
    ensures
        codec::encoded_text(line) == bytes.take(line.len() as int),
    decreases line.len(),
{
    if line.len() == 0 {
        assert(bytes.take(0) =~= codec::encoded_text(line));
    } else {
        let t = line.drop_last();
        let n = line.len() - 1;
        assert forall|i: int| 0 <= i < t.len() implies #[trigger] t[i] == codec::windows_1252_char(
            bytes[i],
        ) by {
            assert(t[i] == line[i]);
        }
        lemma_encoded_front(bytes, t);
        codec::law_bytes_and_characters_correspond(bytes[n], line[n]);
        assert(codec::encoded_char(line[n]) =~= seq![bytes[n]]);
        assert(bytes.take(n) + seq![bytes[n]] =~= bytes.take(n + 1));
    }
}

proof fn lemma_first_line_encoded(ls: Seq<Seq<char>>)
    requires
        ls.len() > 0,
    ensures
        ({
            let head = codec::encoded_text(ls[0]) + seq![0x0du8, 0x0au8];
            let all = codec::encoded_lines(ls);
            &&& head.len() <= all.len()
            &&& forall|i: int| 0 <= i < head.len() ==> #[trigger] all[i] == head[i]
        }),
    decreases ls.len(),
{
    let head = codec::encoded_text(ls[0]) + seq![0x0du8, 0x0au8];
    let before = ls.drop_last();
    if before.len() == 0 {
        assert(codec::encoded_lines(before) =~= seq![]);
        assert(codec::encoded_lines(ls) =~= head);
    } else {
        lemma_first_line_encoded(before);
        assert(before[0] == ls[0]);
        let all = codec::encoded_lines(ls);
        assert forall|i: int| 0 <= i < head.len() implies #[trigger] all[i] == head[i] by {
            assert(all[i] == codec::encoded_lines(before)[i]);
        }
    }
}

/// Settings without options and without a value change no line of a dump.
pub proof fn law_nothing_to_write_changes_nothing(
    lines: Seq<Seq<char>>,
    settings: Seq<SettingView>,
)
    requires
        forall|n: int|
            0 <= n < settings.len() ==> (#[trigger] settings[n]).options.len() == 0
                && settings[n].value is None,
    ensures
        nvram::patched_lines(lines, settings) == lines,
{
    let written = nvram::patched_lines(lines, settings);
    assert forall|i: int| 0 <= i < lines.len() implies #[trigger] written[i] == lines[i] by {
        lemma_nothing_passed(lines, settings, i);
    }
    assert(written =~= lines);
}

proof fn lemma_nothing_passed(lines: Seq<Seq<char>>, settings: Seq<SettingView>, i: int)
    requires
        forall|n: int|
            0 <= n < settings.len() ==> (#[trigger] settings[n]).options.len() == 0
                && settings[n].value is None,
        0 <= i <= lines.len(),
    ensures
        ({
            let wr = nvram::writer_at(lines, settings, i);
            wr.index matches Some(n) ==> settings[n].options.len() == 0 && settings[n].value is None
        }),
    decreases i,
{
    layout::lemma_writer_valid(lines, settings, i);
    if i > 0 {
        lemma_nothing_passed(lines, settings, i - 1);
    }
    let wr = nvram::writer_at(lines, settings, i);
    if let Some(n) = wr.index {
        assert(settings[n].options.len() == 0);
    }
}

} // verus!
