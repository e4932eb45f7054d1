//! The line grammar of AMI setup dumps: comments, `Key = value` lines and option lines.

use vstd::prelude::*;
use vstd::slice::slice_subrange;

use crate::nvram;
use crate::text;

verus! {

// ---------------------------------------------------------------------------
// Comments
// ---------------------------------------------------------------------------

/// `s` is one comment: two slashes, then anything up to the end of the line.
pub open spec fn is_comment(s: Seq<char>) -> bool {
    s.len() >= 2 && s[0] == '/' && s[1] == '/' && !s.contains('\n')
}

/// `s` is white space, with or without a comment behind it.
pub open spec fn is_comment_tail(s: Seq<char>) -> bool {
    text::trim_start(s).len() == 0 || is_comment(text::trim_start(s))
}

/// `s` up to its comment, without the white space in front of that comment.
pub open spec fn strip_comment(s: Seq<char>) -> Seq<char>
    decreases s.len(),
{
    if s.len() == 0 || is_comment_tail(s) {
        seq![]
    } else {
        seq![s[0]] + strip_comment(s.drop_first())
    }
}

/// The statement on a line: the line without its comment and without white space around it.
pub open spec fn statement(line: Seq<char>) -> Seq<char> {
    text::trim(strip_comment(line))
}

fn is_comment_chars(s: &[char]) -> (r: bool)
    ensures
        r == is_comment(s@),
{
    if s.len() < 2 || s[0] != '/' || s[1] != '/' {
        return false;
    }
    let n: usize = text::find_char(s, '\n');
    proof {
        text::lemma_first_index(s@, '\n');
        if n < s@.len() {
            assert(s@.contains(s@[n as int]));
        }
    }
    n == s.len()
}

/// `s` up to its comment, without the white space in front of that comment.
pub fn strip_comment_chars<'a>(s: &'a [char]) -> (r: &'a [char])
    ensures
        r@ == strip_comment(s@),
{
    let mut m: usize = 0;
    proof {
        assert(s@.skip(0) =~= s@);
        assert(s@.take(0) + strip_comment(s@) =~= strip_comment(s@));
    }
    while m < s.len()
        invariant
            m <= s.len(),
            strip_comment(s@) == s@.take(m as int) + strip_comment(s@.skip(m as int)),
        decreases s.len() - m,
    {
        let rest: &[char] = slice_subrange(s, m, s.len());
        assert(rest@ =~= s@.skip(m as int));
        let tail: &[char] = text::trim_start_chars(rest);
        if tail.len() == 0 || is_comment_chars(tail) {
            assert(strip_comment(s@) =~= s@.take(m as int));
            return slice_subrange(s, 0, m);
        }
        proof {
            assert(rest@.drop_first() =~= s@.skip(m + 1));
            assert(s@.take(m as int) + (seq![rest@[0]] + strip_comment(s@.skip(m + 1))) =~= s@.take(
                m + 1,
            ) + strip_comment(s@.skip(m + 1)));
        }
        m += 1;
    }
    proof {
        assert(strip_comment(s@) =~= s@);
    }
    s
}

/// The statement on a line.
pub fn statement_chars<'a>(line: &'a [char]) -> (r: &'a [char])
    ensures
        r@ == statement(line@),
{
    text::trim_chars(strip_comment_chars(line))
}

// ---------------------------------------------------------------------------
// Keys
// ---------------------------------------------------------------------------

/// The lower case letter that `c` stands for where case does not matter. Besides the upper case
/// letters these are the long s and the Kelvin sign.
pub open spec fn fold(c: char) -> char {
    if 'A' <= c && c <= 'Z' {
        (c as u8 + 32) as char
    } else if c == '\u{17f}' {
        's'
    } else if c == '\u{212a}' {
        'k'
    } else {
        c
    }
}

/// What follows `word` (in lower case) at the start of `s`, whatever the case of `s`.
pub open spec fn after_word(s: Seq<char>, word: Seq<char>) -> Option<Seq<char>> {
    if word.len() <= s.len() && (forall|i: int|
        0 <= i < word.len() ==> fold(#[trigger] s[i]) == word[i]) {
        Some(s.skip(word.len() as int))
    } else {
        None
    }
}

/// What follows the equals sign that `s` starts with, white space in front of it aside.
pub open spec fn after_equals(s: Seq<char>) -> Option<Seq<char>> {
    let t = text::trim_start(s);
    if t.len() > 0 && t[0] == '=' {
        Some(t.drop_first())
    } else {
        None
    }
}

/// What follows `word =` at the start of `s`.
pub open spec fn after_key(s: Seq<char>, word: Seq<char>) -> Option<Seq<char>> {
    match after_word(s, word) {
        Some(t) => after_equals(t),
        None => None,
    }
}

/// What follows `first second =` at the start of `s`.
pub open spec fn after_two_word_key(s: Seq<char>, first: Seq<char>, second: Seq<char>) -> Option<
    Seq<char>,
> {
    match after_word(s, first) {
        Some(t) => if t.len() > 0 && text::white_space(t[0]) {
            after_key(text::trim_start(t), second)
        } else {
            None
        },
        None => None,
    }
}

/// The value that follows an equals sign: the rest of the line, without white space around it.
pub open spec fn value_after(s: Seq<char>) -> Seq<char> {
    let t = text::trim_start(s);
    text::trim(t.take(text::first_index(t, '\n')))
}

fn fold_char(c: char) -> (r: char)
    ensures
        r == fold(c),
{
    if 'A' <= c && c <= 'Z' {
        (c as u8 + 32) as char
    } else if c == '\u{17f}' {
        's'
    } else if c == '\u{212a}' {
        'k'
    } else {
        c
    }
}

fn skip_word<'a>(s: &'a [char], word: &str) -> (r: Option<&'a [char]>)
    ensures
        match r {
            Some(t) => after_word(s@, word@) == Some(t@),
            None => after_word(s@, word@) is None,
        },
{
    let w: Vec<char> = text::to_chars(word);
    if w.len() > s.len() {
        return None;
    }
    let mut i: usize = 0;
    while i < w.len()
        invariant
            i <= w.len() <= s.len(),
            w@ == word@,
            forall|j: int| 0 <= j < i ==> fold(#[trigger] s@[j]) == w@[j],
        decreases w.len() - i,
    {
        if fold_char(s[i]) != w[i] {
            assert(fold(s@[i as int]) != word@[i as int]);
            return None;
        }
        i += 1;
    }
    Some(slice_subrange(s, w.len(), s.len()))
}

fn skip_equals<'a>(s: &'a [char]) -> (r: Option<&'a [char]>)
    ensures
        match r {
            Some(t) => after_equals(s@) == Some(t@),
            None => after_equals(s@) is None,
        },
{
    let t: &[char] = text::trim_start_chars(s);
    if t.len() > 0 && t[0] == '=' {
        assert(t@.subrange(1, t@.len() as int) =~= t@.drop_first());
        Some(slice_subrange(t, 1, t.len()))
    } else {
        None
    }
}

fn skip_key<'a>(s: &'a [char], word: &str) -> (r: Option<&'a [char]>)
    ensures
        match r {
            Some(t) => after_key(s@, word@) == Some(t@),
            None => after_key(s@, word@) is None,
        },
{
    match skip_word(s, word) {
        Some(t) => skip_equals(t),
        None => None,
    }
}

fn skip_two_word_key<'a>(s: &'a [char], first: &str, second: &str) -> (r: Option<&'a [char]>)
    ensures
        match r {
            Some(t) => after_two_word_key(s@, first@, second@) == Some(t@),
            None => after_two_word_key(s@, first@, second@) is None,
        },
{
    match skip_word(s, first) {
        Some(t) => {
            if t.len() > 0 && text::is_white_space(t[0]) {
                skip_key(text::trim_start_chars(t), second)
            } else {
                None
            }
        },
        None => None,
    }
}

fn value_text(s: &[char]) -> (r: String)
    ensures
        r@ == value_after(s@),
{
    let t: &[char] = text::trim_start_chars(s);
    let n: usize = text::find_char(t, '\n');
    text::to_text(text::trim_chars(slice_subrange(t, 0, n)))
}

// ---------------------------------------------------------------------------
// Line kinds
// ---------------------------------------------------------------------------

/// What the statement on a line says.
pub enum Kind {
    /// Nothing.
    Blank,
    /// `Setup Question = ...`, which starts the block of a setting.
    Setup(Seq<char>),
    /// `Help String = ...`
    Help(Seq<char>),
    /// `Token = ...`
    Token(Seq<char>),
    /// `Offset = ...`
    Offset(Seq<char>),
    /// `Width = ...`
    Width(Seq<char>),
    /// `BIOS Default = ...`
    BiosDefault(Seq<char>),
    /// `Options = ...`
    Options(Seq<char>),
    /// `Value = ...`
    Value(Seq<char>),
    /// A line that continues a list of options.
    Bracket,
    /// Anything else.
    Other,
}

/// `s` starts with a bracketed number or word, with or without a star in front of it.
pub open spec fn is_bracket(s: Seq<char>) -> bool {
    let t = if s.len() > 0 && s[0] == '*' {
        s.drop_first()
    } else {
        s
    };
    let close = text::first_index(t, ']');
    t.len() > 0 && t[0] == '[' && 0 <= close < t.len() && !t.take(close).contains('\n')
}

/// What the statement `s` says.
pub open spec fn kind_of(s: Seq<char>) -> Kind {
    if s.len() == 0 {
        Kind::Blank
    } else if after_two_word_key(s, "setup"@, "question"@) is Some {
        Kind::Setup(value_after(after_two_word_key(s, "setup"@, "question"@)->0))
    } else if after_two_word_key(s, "help"@, "string"@) is Some {
        Kind::Help(value_after(after_two_word_key(s, "help"@, "string"@)->0))
    } else if after_key(s, "token"@) is Some {
        Kind::Token(value_after(after_key(s, "token"@)->0))
    } else if after_key(s, "offset"@) is Some {
        Kind::Offset(value_after(after_key(s, "offset"@)->0))
    } else if after_key(s, "width"@) is Some {
        Kind::Width(value_after(after_key(s, "width"@)->0))
    } else if after_two_word_key(s, "bios"@, "default"@) is Some {
        Kind::BiosDefault(value_after(after_two_word_key(s, "bios"@, "default"@)->0))
    } else if after_key(s, "options"@) is Some {
        Kind::Options(value_after(after_key(s, "options"@)->0))
    } else if after_key(s, "value"@) is Some {
        Kind::Value(value_after(after_key(s, "value"@)->0))
    } else if is_bracket(s) {
        Kind::Bracket
    } else {
        Kind::Other
    }
}

/// What the statement on a line says, with the texts it holds.
pub enum LineKind {
    Blank,
    Setup(String),
    Help(String),
    Token(String),
    Offset(String),
    Width(String),
    BiosDefault(String),
    Options(String),
    Value(String),
    Bracket,
    Other,
}

impl View for LineKind {
    type V = Kind;

    open spec fn view(&self) -> Kind {
        match self {
            LineKind::Blank => Kind::Blank,
            LineKind::Setup(v) => Kind::Setup(v@),
            LineKind::Help(v) => Kind::Help(v@),
            LineKind::Token(v) => Kind::Token(v@),
            LineKind::Offset(v) => Kind::Offset(v@),
            LineKind::Width(v) => Kind::Width(v@),
            LineKind::BiosDefault(v) => Kind::BiosDefault(v@),
            LineKind::Options(v) => Kind::Options(v@),
            LineKind::Value(v) => Kind::Value(v@),
            LineKind::Bracket => Kind::Bracket,
            LineKind::Other => Kind::Other,
        }
    }
}

/// Whether the statement `s` continues a list of options.
pub fn is_bracket_chars(s: &[char]) -> (r: bool)
    ensures
        r == is_bracket(s@),
{
    let t: &[char] = if s.len() > 0 && s[0] == '*' {
        assert(s@.subrange(1, s@.len() as int) =~= s@.drop_first());
        slice_subrange(s, 1, s.len())
    } else {
        s
    };
    let close: usize = text::find_char(t, ']');
    if t.len() == 0 || t[0] != '[' || close == t.len() {
        return false;
    }
    let inner: &[char] = slice_subrange(t, 0, close);
    let n: usize = text::find_char(inner, '\n');
    proof {
        text::lemma_first_index(inner@, '\n');
        if n < inner@.len() {
            assert(inner@.contains(inner@[n as int]));
        }
    }
    n == inner.len()
}

/// What the statement `s` says.
pub fn classify(s: &[char]) -> (r: LineKind)
    ensures
        r@ == kind_of(s@),
{
    if s.len() == 0 {
        return LineKind::Blank;
    }
    if let Some(t) = skip_two_word_key(s, "setup", "question") {
        return LineKind::Setup(value_text(t));
    }
    if let Some(t) = skip_two_word_key(s, "help", "string") {
        return LineKind::Help(value_text(t));
    }
    if let Some(t) = skip_key(s, "token") {
        return LineKind::Token(value_text(t));
    }
    if let Some(t) = skip_key(s, "offset") {
        return LineKind::Offset(value_text(t));
    }
    if let Some(t) = skip_key(s, "width") {
        return LineKind::Width(value_text(t));
    }
    if let Some(t) = skip_two_word_key(s, "bios", "default") {
        return LineKind::BiosDefault(value_text(t));
    }
    if let Some(t) = skip_key(s, "options") {
        return LineKind::Options(value_text(t));
    }
    if let Some(t) = skip_key(s, "value") {
        return LineKind::Value(value_text(t));
    }
    if is_bracket_chars(s) {
        return LineKind::Bracket;
    }
    LineKind::Other
}

// ---------------------------------------------------------------------------
// Option lists
// ---------------------------------------------------------------------------

/// `c` is a hexadecimal digit.
pub open spec fn is_hex(c: char) -> bool {
    ('0' <= c && c <= '9') || ('a' <= c && c <= 'f') || ('A' <= c && c <= 'F')
}

/// The number of hexadecimal digits that `s` starts with.
pub open spec fn hex_run(s: Seq<char>) -> int
    decreases s.len(),
{
    if s.len() > 0 && is_hex(s[0]) {
        1 + hex_run(s.drop_first())
    } else {
        0
    }
}

/// `s` starts with a hexadecimal number in brackets.
pub open spec fn starts_option(s: Seq<char>) -> bool {
    let h = hex_run(s.drop_first());
    s.len() > 0 && s[0] == '[' && h > 0 && 1 + h < s.len() && s[1 + h] == ']'
}

/// An option of a setting: whether it is marked with a star as the active one, and its text.
pub struct Choice {
    pub star: bool,
    pub label: Seq<char>,
}

/// `s` without the stars it ends in.
pub open spec fn strip_stars(s: Seq<char>) -> Seq<char>
    decreases s.len(),
{
    if s.len() > 0 && s.last() == '*' {
        strip_stars(s.drop_last())
    } else {
        s
    }
}

/// The text of the option that `s` starts with: up to the next opening bracket, without the stars
/// that mark the option behind it.
pub open spec fn label_at(s: Seq<char>) -> Seq<char> {
    let n = 1 + text::first_index(s.drop_first(), '[');
    if starts_option(s.skip(n)) {
        text::trim(strip_stars(s.take(n)))
    } else {
        text::trim(s.take(n))
    }
}

/// The options that stand in `s` one behind the other; text between them that is none is passed
/// over. A star directly in front of its bracket marks an option.
pub open spec fn options_in(s: Seq<char>) -> Seq<Choice>
    decreases s.len(),
{
    let n = text::first_index(s, '[');
    if 0 <= n < s.len() {
        let rest = s.skip(n);
        if starts_option(rest) {
            seq![Choice { star: n > 0 && s[n - 1] == '*', label: label_at(rest) }] + options_in(
                rest.drop_first(),
            )
        } else {
            options_in(rest.drop_first())
        }
    } else {
        seq![]
    }
}

/// The options on a line. A line without a bracketed number is one option as it stands.
pub open spec fn options_on(line: Seq<char>) -> Seq<Choice> {
    let s = text::trim(line);
    let label = text::trim(text::strip_leading(s, '*'));
    if options_in(s).len() > 0 {
        options_in(s)
    } else if label.len() > 0 {
        seq![Choice { star: s[0] == '*', label }]
    } else {
        seq![]
    }
}

fn is_hex_char(c: char) -> (r: bool)
    ensures
        r == is_hex(c),
{
    ('0' <= c && c <= '9') || ('a' <= c && c <= 'f') || ('A' <= c && c <= 'F')
}

/// `hex_run` counts exactly the digits in front.
pub proof fn lemma_hex_run(s: Seq<char>)
    ensures
        0 <= hex_run(s) <= s.len(),
        forall|i: int| 0 <= i < hex_run(s) ==> is_hex(#[trigger] s[i]),
        hex_run(s) < s.len() ==> !is_hex(s[hex_run(s)]),
    decreases s.len(),
{
    if s.len() > 0 && is_hex(s[0]) {
        let t = s.drop_first();
        lemma_hex_run(t);
        assert forall|i: int| 0 <= i < hex_run(s) implies is_hex(#[trigger] s[i]) by {
            if i > 0 {
                assert(t[i - 1] == s[i]);
            }
        }
    }
}

/// A run of digits with something else (or nothing) behind it is `hex_run`.
pub proof fn lemma_hex_run_is(s: Seq<char>, n: int)
    requires
        0 <= n <= s.len(),
        forall|i: int| 0 <= i < n ==> is_hex(#[trigger] s[i]),
        n < s.len() ==> !is_hex(s[n]),
    ensures
        hex_run(s) == n,
{
    lemma_hex_run(s);
    let m = hex_run(s);
    if m < n {
        assert(is_hex(s[m]));
    }
    if n < m {
        assert(is_hex(s[n]));
    }
}

fn starts_option_chars(s: &[char]) -> (r: bool)
    ensures
        r == starts_option(s@),
{
    if s.len() == 0 || s[0] != '[' {
        return false;
    }
    let mut h: usize = 0;
    while h + 1 < s.len() && is_hex_char(s[h + 1])
        invariant
            h < s.len(),
            forall|i: int| 0 <= i < h ==> is_hex(#[trigger] s@.drop_first()[i]),
        decreases s.len() - h,
    {
        assert(s@.drop_first()[h as int] == s@[h + 1]);
        h += 1;
    }
    proof {
        if h + 1 < s@.len() {
            assert(s@.drop_first()[h as int] == s@[h + 1]);
        }
        lemma_hex_run_is(s@.drop_first(), h as int);
    }
    h > 0 && h + 1 < s.len() && s[h + 1] == ']'
}

/// An option of a setting: whether it is marked as the active one, and its text.
pub struct OptionChoice {
    pub star: bool,
    pub label: String,
}

impl View for OptionChoice {
    type V = Choice;

    open spec fn view(&self) -> Choice {
        Choice { star: self.star, label: self.label@ }
    }
}

/// The options that a vector holds.
pub open spec fn choices(v: Seq<OptionChoice>) -> Seq<Choice> {
    Seq::new(v.len(), |i: int| v[i]@)
}

/// `s` without the stars it ends in.
fn strip_stars_chars<'a>(s: &'a [char]) -> (r: &'a [char])
    ensures
        r@ == strip_stars(s@),
{
    let mut n: usize = s.len();
    proof {
        assert(s@.take(s@.len() as int) =~= s@);
    }
    while n > 0 && s[n - 1] == '*'
        invariant
            n <= s.len(),
            strip_stars(s@) == strip_stars(s@.take(n as int)),
        decreases n,
    {
        proof {
            assert(s@.take(n as int).drop_last() =~= s@.take(n - 1));
        }
        n -= 1;
    }
    slice_subrange(s, 0, n)
}

/// The text of the option that `s` starts with.
fn label_chars<'a>(s: &'a [char]) -> (r: &'a [char])
    requires
        s@.len() > 0,
    ensures
        r@ == label_at(s@),
{
    let rest: &[char] = slice_subrange(s, 1, s.len());
    assert(rest@ =~= s@.drop_first());
    let n: usize = 1 + text::find_char(rest, '[');
    let body: &[char] = slice_subrange(s, 0, n);
    let next: &[char] = slice_subrange(s, n, s.len());
    proof {
        assert(body@ =~= s@.take(n as int));
        assert(next@ =~= s@.skip(n as int));
    }
    if starts_option_chars(next) {
        text::trim_chars(strip_stars_chars(body))
    } else {
        text::trim_chars(body)
    }
}

fn options_in_chars(s: &[char]) -> (r: Vec<OptionChoice>)
    ensures
        choices(r@) == options_in(s@),
{
    let mut r: Vec<OptionChoice> = Vec::new();
    let mut i: usize = 0;
    proof {
        assert(s@.skip(0) =~= s@);
        assert(choices(r@) + options_in(s@) =~= options_in(s@));
    }
    while i < s.len()
        invariant
            i <= s.len(),
            choices(r@) + options_in(s@.skip(i as int)) == options_in(s@),
        decreases s.len() - i,
    {
        let t: &[char] = slice_subrange(s, i, s.len());
        let ghost old_r = choices(r@);
        assert(t@ =~= s@.skip(i as int));
        let n: usize = text::find_char(t, '[');
        if n == t.len() {
            proof {
                assert(choices(r@) =~= options_in(s@));
            }
            return r;
        }
        let rest: &[char] = slice_subrange(t, n, t.len());
        proof {
            assert(rest@ =~= t@.skip(n as int));
            assert(rest@.drop_first() =~= s@.skip(i + n + 1));
        }
        if starts_option_chars(rest) {
            let star: bool = n > 0 && t[n - 1] == '*';
            let label: String = text::to_text(label_chars(rest));
            r.push(OptionChoice { star, label });
            proof {
                let option = Choice { star, label: label@ };
                assert(choices(r@) =~= old_r.push(option));
                assert(choices(r@) + options_in(s@.skip(i + n + 1)) =~= old_r + (seq![option]
                    + options_in(s@.skip(i + n + 1))));
            }
        }
        i = i + n + 1;
    }
    proof {
        assert(s@.skip(s@.len() as int).len() == 0);
        assert(choices(r@) =~= options_in(s@));
    }
    r
}

/// The options on a line.
pub fn parse_options(line: &[char]) -> (r: Vec<OptionChoice>)
    ensures
        choices(r@) == options_on(line@),
{
    let s: &[char] = text::trim_chars(line);
    let mut r: Vec<OptionChoice> = options_in_chars(s);
    proof {
        assert(choices(r@).len() == r@.len());
    }
    if r.len() > 0 {
        return r;
    }
    let label: &[char] = text::trim_chars(text::strip_leading_chars(s, '*'));
    if label.len() > 0 {
        proof {
            if s@.len() == 0 {
                assert(text::strip_leading(s@, '*') == s@);
                assert(text::trim_start(s@) == s@);
                assert(text::trim_end(s@) == s@);
            }
        }
        r.push(OptionChoice { star: s[0] == '*', label: text::to_text(label) });
        assert(choices(r@) =~= options_on(line@));
    } else {
        assert(choices(r@) =~= seq![]);
    }
    r
}

// ---------------------------------------------------------------------------
// Moving stars
// ---------------------------------------------------------------------------

/// A star if option `k` is the active one.
pub open spec fn star_for(k: int, active: Option<int>) -> Seq<char> {
    if active == Some(k) {
        seq!['*']
    } else {
        seq![]
    }
}

/// `s` with a star in front of the active one of its options, which are counted from `k` on, and
/// of no other. Everything else stays.
pub open spec fn restarred(s: Seq<char>, k: int, active: Option<int>) -> Seq<char>
    decreases s.len(),
{
    let n = text::first_index(s, '[');
    if 0 <= n < s.len() {
        let rest = s.skip(n);
        if starts_option(rest) {
            strip_stars(s.take(n)) + star_for(k, active) + seq!['['] + restarred(
                rest.drop_first(),
                k + 1,
                active,
            )
        } else {
            s.take(n) + seq!['['] + restarred(rest.drop_first(), k, active)
        }
    } else {
        s
    }
}

/// `s` without its stars.
pub open spec fn starless(s: Seq<char>) -> Seq<char>
    decreases s.len(),
{
    if s.len() == 0 {
        seq![]
    } else if s.last() == '*' {
        starless(s.drop_last())
    } else {
        starless(s.drop_last()).push(s.last())
    }
}

/// `s` without the stars and the white space it starts with.
pub open spec fn bare(s: Seq<char>) -> Seq<char>
    decreases s.len(),
{
    if s.len() > 0 && (s[0] == '*' || text::white_space(s[0])) {
        bare(s.drop_first())
    } else {
        s
    }
}

/// The options text `s` of a line with the star moved. Where the line is one option as it stands,
/// all stars that it starts with are taken away, and the star of the active option stands in front
/// of all of it. Stars with nothing behind them stay as they are.
pub open spec fn restarred_options(s: Seq<char>, k: int, active: Option<int>) -> Seq<char> {
    if options_in(s).len() > 0 {
        restarred(s, k, active)
    } else if bare(s).len() > 0 {
        star_for(k, active) + starless(s.take(s.len() - bare(s).len())) + bare(s)
    } else {
        s
    }
}

/// Appends a star if option `k` is the active one.
fn push_star_for(r: &mut Vec<char>, k: u128, active: Option<usize>)
    ensures
        final(r)@ == old(r)@ + star_for(
            k as int,
            nvram::optional_index(active),
        ),
{
    if let Some(a) = active {
        if a as u128 == k {
            r.push('*');
        }
    }
    assert(r@ =~= old(r)@ + star_for(
        k as int,
        nvram::optional_index(active),
    ));
}

/// `s` with a star in front of the active one of its options, and of no other.
fn restar_chars(s: &[char], k: u128, active: Option<usize>) -> (r: Vec<char>)
    requires
        k + s@.len() <= u128::MAX,
    ensures
        r@ == restarred(
            s@,
            k as int,
            nvram::optional_index(active),
        ),
{
    let ghost wanted: Option<int> = nvram::optional_index(active);
    let mut r: Vec<char> = Vec::new();
    let mut i: usize = 0;
    let mut j: u128 = k;
    proof {
        assert(s@.skip(0) =~= s@);
        assert(r@ + restarred(s@, k as int, wanted) =~= restarred(s@, k as int, wanted));
    }
    while i < s.len()
        invariant
            i <= s.len(),
            k <= j <= k + i,
            k + s@.len() <= u128::MAX,
            wanted == nvram::optional_index(active),
            r@ + restarred(s@.skip(i as int), j as int, wanted) == restarred(
                s@,
                k as int,
                wanted,
            ),
        decreases s.len() - i,
    {
        let t: &[char] = slice_subrange(s, i, s.len());
        let ghost before = r@;
        assert(t@ =~= s@.skip(i as int));
        let n: usize = text::find_char(t, '[');
        if n == t.len() {
            text::append_chars(&mut r, t);
            return r;
        }
        let rest: &[char] = slice_subrange(t, n, t.len());
        let front: &[char] = slice_subrange(t, 0, n);
        proof {
            assert(rest@ =~= t@.skip(n as int));
            assert(front@ =~= t@.take(n as int));
            assert(rest@.drop_first() =~= s@.skip(i + n + 1));
        }
        if starts_option_chars(rest) {
            text::append_chars(&mut r, strip_stars_chars(front));
            push_star_for(&mut r, j, active);
            r.push('[');
            proof {
                let tail = restarred(s@.skip(i + n + 1), j + 1, wanted);
                assert(r@ + tail =~= before + (strip_stars(t@.take(n as int)) + star_for(
                    j as int,
                    wanted,
                ) + seq!['['] + tail));
            }
            j += 1;
        } else {
            text::append_chars(&mut r, front);
            r.push('[');
            proof {
                let tail = restarred(s@.skip(i + n + 1), j as int, wanted);
                assert(r@ + tail =~= before + (t@.take(n as int) + seq!['['] + tail));
            }
        }
        i = i + n + 1;
    }
    proof {
        assert(s@.skip(s@.len() as int).len() == 0);
        assert(r@ + restarred(s@.skip(s@.len() as int), j as int, wanted) =~= r@);
    }
    r
}

/// The options text `s` of a line with the star moved.
pub fn restar_options(s: &[char], k: u128, active: Option<usize>) -> (r: Vec<char>)
    requires
        k + s@.len() <= u128::MAX,
    ensures
        r@ == restarred_options(
            s@,
            k as int,
            nvram::optional_index(active),
        ),
{
    let found: Vec<OptionChoice> = options_in_chars(s);
    assert(choices(found@).len() == found@.len());
    if found.len() > 0 {
        return restar_chars(s, k, active);
    }
    let mut r: Vec<char> = Vec::new();
    push_star_for(&mut r, k, active);
    let ghost star = r@;
    let mut n: usize = 0;
    proof {
        assert(s@.skip(0) =~= s@);
        assert(s@.take(0) =~= seq![]);
        assert(star + starless(s@.take(0)) =~= star);
    }
    while n < s.len() && (s[n] == '*' || text::is_white_space(s[n]))
        invariant
            n <= s.len(),
            bare(s@) == bare(s@.skip(n as int)),
            r@ == star + starless(s@.take(n as int)),
        decreases s.len() - n,
    {
        proof {
            assert(s@.skip(n as int).drop_first() =~= s@.skip(n + 1));
            assert(s@.take(n + 1).drop_last() =~= s@.take(n as int));
        }
        if s[n] != '*' {
            r.push(s[n]);
            assert(r@ =~= star + starless(s@.take(n + 1)));
        }
        n += 1;
    }
    assert(bare(s@) == s@.skip(n as int));
    if n == s.len() {
        return text::clone_chars(s);
    }
    text::append_chars(&mut r, slice_subrange(s, n, s.len()));
    assert(s@.subrange(n as int, s@.len() as int) =~= s@.skip(n as int));
    r
}

} // verus!
