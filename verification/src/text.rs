//! Text as sequences of characters: the specification of the string operations
//! that the dump format and the preset language are written in, and verified
//! implementations of them on character slices.

use vstd::arithmetic::power::pow;
use vstd::prelude::*;
use vstd::slice::slice_subrange;
use vstd::string::*;

verus! {

// ---------------------------------------------------------------------------
// Characters
// ---------------------------------------------------------------------------

/// The characters with the Unicode property `White_Space`.
pub open spec fn white_space(c: char) -> bool {
    ||| '\u{9}' <= c && c <= '\u{d}'
    ||| c == ' '
    ||| c == '\u{85}'
    ||| c == '\u{a0}'
    ||| c == '\u{1680}'
    ||| '\u{2000}' <= c && c <= '\u{200a}'
    ||| c == '\u{2028}'
    ||| c == '\u{2029}'
    ||| c == '\u{202f}'
    ||| c == '\u{205f}'
    ||| c == '\u{3000}'
}

/// Whether `c` is white space.
pub fn is_white_space(c: char) -> (r: bool)
    ensures
        r == white_space(c),
{
    ('\u{9}' <= c && c <= '\u{d}') || c == ' ' || c == '\u{85}' || c == '\u{a0}' || c == '\u{1680}'
        || ('\u{2000}' <= c && c <= '\u{200a}') || c == '\u{2028}' || c == '\u{2029}' || c
        == '\u{202f}' || c == '\u{205f}' || c == '\u{3000}'
}

/// `String::push` appends one character.
pub assume_specification[ String::push ](s: &mut String, c: char)
    ensures
        final(s)@ == old(s)@.push(c),
;

// ---------------------------------------------------------------------------
// Letter case
// ---------------------------------------------------------------------------

/// `c` is an ASCII character.
pub open spec fn ascii(c: char) -> bool {
    c <= '\u{7f}'
}

/// `c` is an ASCII letter or an ASCII digit.
pub open spec fn alphanumeric(c: char) -> bool {
    ||| '0' <= c && c <= '9'
    ||| 'a' <= c && c <= 'z'
    ||| 'A' <= c && c <= 'Z'
}

/// `c` in lower case, if it is an ASCII letter.
pub open spec fn ascii_lower(c: char) -> char {
    if 'A' <= c && c <= 'Z' {
        (c as u8 + 32) as char
    } else {
        c
    }
}

/// `s` with its ASCII letters in lower case.
pub open spec fn ascii_lower_text(s: Seq<char>) -> Seq<char> {
    Seq::new(s.len(), |i: int| ascii_lower(s[i]))
}

/// Every character of `s` is an ASCII character.
pub open spec fn all_ascii(s: Seq<char>) -> bool {
    forall|i: int| 0 <= i < s.len() ==> ascii(#[trigger] s[i])
}

/// The lower case of a text after Unicode's case mapping.
pub uninterp spec fn unicode_lowercase(s: Seq<char>) -> Seq<char>;

/// Calls `str::to_lowercase`, whose result depends on the text alone. It lowers ASCII letters
/// as ASCII does and leaves other ASCII characters as they are; beyond ASCII nothing is said of
/// the mapping.
#[verifier::external_body]
pub(crate) fn lowercase(s: &str) -> (r: String)
    ensures
        r@ == unicode_lowercase(s@),
        all_ascii(s@) ==> r@ == ascii_lower_text(s@),
{
    s.to_lowercase()
}

/// Whether `c` is an ASCII letter or an ASCII digit.
pub fn is_alphanumeric(c: char) -> (r: bool)
    ensures
        r == alphanumeric(c),
{
    ('0' <= c && c <= '9') || ('a' <= c && c <= 'z') || ('A' <= c && c <= 'Z')
}

/// `c` in lower case, if it is an ASCII letter.
pub fn to_ascii_lower(c: char) -> (r: char)
    ensures
        r == ascii_lower(c),
{
    if 'A' <= c && c <= 'Z' {
        (c as u8 + 32) as char
    } else {
        c
    }
}

// ---------------------------------------------------------------------------
// Strings and character vectors
// ---------------------------------------------------------------------------

/// The characters of `s`, in order.
pub fn to_chars(s: &str) -> (r: Vec<char>)
    ensures
        r@ == s@,
{
    let mut r: Vec<char> = Vec::new();
    for c in it: s.chars()
        invariant
            r@ == it.seq().take(it.index() as int),
            it.seq() == s@,
    {
        r.push(c);
    }
    r
}

/// The string made of the characters of `s`.
pub fn to_text(s: &[char]) -> (r: String)
    ensures
        r@ == s@,
{
    let mut r: String = String::new();
    let mut i: usize = 0;
    while i < s.len()
        invariant
            i <= s.len(),
            r@ == s@.take(i as int),
        decreases s.len() - i,
    {
        r.push(s[i]);
        i += 1;
    }
    r
}

/// The texts that a vector of strings holds.
pub open spec fn texts(v: Seq<String>) -> Seq<Seq<char>> {
    Seq::new(v.len(), |i: int| v[i]@)
}

/// A copy of `v`.
pub fn clone_strings(v: &[String]) -> (r: Vec<String>)
    ensures
        texts(r@) == texts(v@),
{
    let mut r: Vec<String> = Vec::new();
    let mut i: usize = 0;
    while i < v.len()
        invariant
            i <= v.len(),
            texts(r@) == texts(v@).take(i as int),
        decreases v.len() - i,
    {
        let ghost old_r = r@;
        r.push(v[i].clone());
        proof {
            assert(texts(r@) =~= texts(old_r).push(v@[i as int]@));
            assert(texts(r@) =~= texts(v@).take(i + 1));
        }
        i += 1;
    }
    r
}

/// A copy of a slice of characters.
pub fn clone_chars(s: &[char]) -> (r: Vec<char>)
    ensures
        r@ == s@,
{
    let mut r: Vec<char> = Vec::new();
    append_chars(&mut r, s);
    r
}

/// Appends the characters of `s` to `r`.
pub fn append_chars(r: &mut Vec<char>, s: &[char])
    ensures
        final(r)@ == old(r)@ + s@,
{
    let mut i: usize = 0;
    while i < s.len()
        invariant
            i <= s.len(),
            r@ == old(r)@ + s@.take(i as int),
        decreases s.len() - i,
    {
        r.push(s[i]);
        i += 1;
    }
}

/// Whether `a` and `b` hold the same characters.
pub fn chars_eq(a: &[char], b: &[char]) -> (r: bool)
    ensures
        r == (a@ == b@),
{
    if a.len() != b.len() {
        return false;
    }
    let mut i: usize = 0;
    while i < a.len()
        invariant
            i <= a.len(),
            a.len() == b.len(),
            forall|j: int| 0 <= j < i ==> a@[j] == b@[j],
        decreases a.len() - i,
    {
        if a[i] != b[i] {
            return false;
        }
        i += 1;
    }
    assert(a@ =~= b@);
    true
}

/// Whether two strings hold the same text.
pub fn text_eq(a: &str, b: &str) -> (r: bool)
    ensures
        r == (a@ == b@),
{
    chars_eq(&to_chars(a), &to_chars(b))
}

/// Whether two vectors of strings hold the same texts in the same order.
pub fn strings_eq(a: &[String], b: &[String]) -> (r: bool)
    ensures
        r == (texts(a@) == texts(b@)),
{
    if a.len() != b.len() {
        assert(texts(a@).len() != texts(b@).len());
        return false;
    }
    let mut i: usize = 0;
    while i < a.len()
        invariant
            i <= a.len(),
            a.len() == b.len(),
            forall|j: int| 0 <= j < i ==> texts(a@)[j] == texts(b@)[j],
        decreases a.len() - i,
    {
        if !text_eq(a[i].as_str(), b[i].as_str()) {
            assert(texts(a@)[i as int] != texts(b@)[i as int]);
            return false;
        }
        i += 1;
    }
    assert(texts(a@) =~= texts(b@));
    true
}

// ---------------------------------------------------------------------------
// Trimming
// ---------------------------------------------------------------------------

/// `s` without its leading white space.
pub open spec fn trim_start(s: Seq<char>) -> Seq<char>
    decreases s.len(),
{
    if s.len() > 0 && white_space(s[0]) {
        trim_start(s.drop_first())
    } else {
        s
    }
}

/// `s` without its trailing white space.
pub open spec fn trim_end(s: Seq<char>) -> Seq<char>
    decreases s.len(),
{
    if s.len() > 0 && white_space(s.last()) {
        trim_end(s.drop_last())
    } else {
        s
    }
}

/// `s` without leading and trailing white space.
pub open spec fn trim(s: Seq<char>) -> Seq<char> {
    trim_end(trim_start(s))
}

/// `s` without the run of `c` it starts with.
pub open spec fn strip_leading(s: Seq<char>, c: char) -> Seq<char>
    decreases s.len(),
{
    if s.len() > 0 && s[0] == c {
        strip_leading(s.drop_first(), c)
    } else {
        s
    }
}

/// The number of white space characters that `s` starts with.
pub open spec fn leading_space(s: Seq<char>) -> int
    decreases s.len(),
{
    if s.len() > 0 && white_space(s[0]) {
        1 + leading_space(s.drop_first())
    } else {
        0
    }
}

/// `leading_space` counts exactly the white space in front.
pub proof fn lemma_leading_space(s: Seq<char>)
    ensures
        0 <= leading_space(s) <= s.len(),
        forall|i: int| 0 <= i < leading_space(s) ==> white_space(#[trigger] s[i]),
        leading_space(s) < s.len() ==> !white_space(s[leading_space(s)]),
        trim_start(s) == s.skip(leading_space(s)),
    decreases s.len(),
{
    if s.len() > 0 && white_space(s[0]) {
        let t = s.drop_first();
        lemma_leading_space(t);
        assert forall|i: int| 0 <= i < leading_space(s) implies white_space(#[trigger] s[i]) by {
            if i > 0 {
                assert(t[i - 1] == s[i]);
            }
        }
        assert(t.skip(leading_space(t)) =~= s.skip(leading_space(s)));
    } else {
        assert(s.skip(0) =~= s);
    }
}

/// A count of leading white space with a non-blank character (or nothing) behind it is
/// `leading_space`.
pub proof fn lemma_leading_space_is(s: Seq<char>, n: int)
    requires
        0 <= n <= s.len(),
        forall|i: int| 0 <= i < n ==> white_space(#[trigger] s[i]),
        n < s.len() ==> !white_space(s[n]),
    ensures
        leading_space(s) == n,
        trim_start(s) == s.skip(n),
{
    lemma_leading_space(s);
    let m = leading_space(s);
    if m < n {
        assert(white_space(s[m]));
    }
    if n < m {
        assert(white_space(s[n]));
    }
}

/// What `trim_end` leaves is a prefix that ends in no white space, and what it drops is white
/// space.
pub proof fn lemma_trim_end(s: Seq<char>)
    ensures
        trim_end(s).len() <= s.len(),
        trim_end(s) == s.take(trim_end(s).len() as int),
        trim_end(s).len() > 0 ==> !white_space(trim_end(s).last()),
        forall|i: int| trim_end(s).len() <= i < s.len() ==> white_space(#[trigger] s[i]),
    decreases s.len(),
{
    if s.len() > 0 && white_space(s.last()) {
        let t = s.drop_last();
        lemma_trim_end(t);
        assert(t.take(trim_end(t).len() as int) =~= s.take(trim_end(t).len() as int));
        assert forall|i: int| trim_end(s).len() <= i < s.len() implies white_space(
            #[trigger] s[i],
        ) by {
            if i < t.len() {
                assert(t[i] == s[i]);
            }
        }
    } else {
        assert(s.take(s.len() as int) =~= s);
    }
}

/// A prefix that ends in no white space, with only white space behind it, is `trim_end`.
pub proof fn lemma_trim_end_is(s: Seq<char>, n: int)
    requires
        0 <= n <= s.len(),
        n > 0 ==> !white_space(s[n - 1]),
        forall|i: int| n <= i < s.len() ==> white_space(#[trigger] s[i]),
    ensures
        trim_end(s) == s.take(n),
{
    lemma_trim_end(s);
    let m = trim_end(s).len() as int;
    if m < n {
        assert(white_space(s[n - 1]));
    }
    if n < m {
        assert(trim_end(s).last() == s[m - 1]);
    }
}

/// What lies between white space on both sides, and neither starts nor ends in white space, is
/// `trim`.
pub proof fn lemma_trim_is(s: Seq<char>, i: int, j: int)
    requires
        0 <= i <= j <= s.len(),
        forall|k: int| 0 <= k < i ==> white_space(#[trigger] s[k]),
        forall|k: int| j <= k < s.len() ==> white_space(#[trigger] s[k]),
        i < j ==> !white_space(s[i]) && !white_space(s[j - 1]),
    ensures
        trim(s) == s.subrange(i, j),
{
    if i < j {
        lemma_leading_space_is(s, i);
        let t = s.skip(i);
        assert forall|k: int| j - i <= k < t.len() implies white_space(#[trigger] t[k]) by {
            assert(t[k] == s[i + k]);
        }
        lemma_trim_end_is(t, j - i);
        assert(t.take(j - i) =~= s.subrange(i, j));
    } else {
        lemma_leading_space_is(s, s.len() as int);
        assert(s.skip(s.len() as int) =~= s.subrange(i, j));
    }
}

/// `trim` takes a part of its argument that neither starts nor ends in white space, and leaves
/// out white space only.
pub proof fn lemma_trim(s: Seq<char>)
    ensures
        ({
            let a = leading_space(s);
            let t = trim(s);
            &&& 0 <= a <= a + t.len() <= s.len()
            &&& t == s.subrange(a, a + t.len())
            &&& t.len() > 0 ==> !white_space(t[0]) && !white_space(t.last())
            &&& forall|k: int| 0 <= k < a ==> white_space(#[trigger] s[k])
            &&& forall|k: int| a + t.len() <= k < s.len() ==> white_space(#[trigger] s[k])
        }),
{
    lemma_leading_space(s);
    let u = trim_start(s);
    lemma_trim_end(u);
    let a = leading_space(s);
    let t = trim(s);
    assert(t =~= s.subrange(a, a + t.len()));
    if t.len() > 0 {
        assert(t[0] == u[0]);
        assert(u[0] == s[a]);
    }
    assert forall|k: int| a + t.len() <= k < s.len() implies white_space(#[trigger] s[k]) by {
        assert(u[k - a] == s[k]);
    }
}

/// A text that neither starts nor ends in white space is trimmed.
pub proof fn lemma_trimmed(s: Seq<char>)
    requires
        s.len() > 0 ==> !white_space(s[0]) && !white_space(s.last()),
    ensures
        trim_start(s) == s,
        trim_end(s) == s,
        trim(s) == s,
{
}

/// Trimming twice is trimming once.
pub proof fn law_trim_is_idempotent(s: Seq<char>)
    ensures
        trim(trim(s)) == trim(s),
{
    lemma_trim(s);
    lemma_trimmed(trim(s));
}

/// Every character of `s` is white space.
pub open spec fn blank(s: Seq<char>) -> bool {
    forall|i: int| 0 <= i < s.len() ==> white_space(#[trigger] s[i])
}

/// Of a blank text, and of no other, nothing is left without the white space around it.
pub proof fn law_blank_texts(s: Seq<char>)
    ensures
        blank(s) <==> trim(s).len() == 0,
{
    lemma_trim(s);
    let a = leading_space(s);
    if blank(s) && trim(s).len() > 0 {
        assert(trim(s)[0] == s[a]);
    }
    if trim(s).len() == 0 {
        assert forall|i: int| 0 <= i < s.len() implies white_space(#[trigger] s[i]) by {}
    }
}

/// White space around a text does not matter to `trim`.
pub proof fn law_trim_ignores_blanks_around(a: Seq<char>, s: Seq<char>, b: Seq<char>)
    requires
        blank(a),
        blank(b),
    ensures
        trim(a + s + b) == trim(s),
{
    lemma_trim(s);
    let t = a + s + b;
    let i = a.len() + leading_space(s);
    let j = i + trim(s).len();
    assert forall|k: int| 0 <= k < i implies white_space(#[trigger] t[k]) by {
        if k < a.len() {
            assert(t[k] == a[k]);
        } else {
            assert(t[k] == s[k - a.len()]);
        }
    }
    assert forall|k: int| j <= k < t.len() implies white_space(#[trigger] t[k]) by {
        if k < a.len() + s.len() {
            assert(t[k] == s[k - a.len()]);
        } else {
            assert(t[k] == b[k - a.len() - s.len()]);
        }
    }
    if i < j {
        assert(t[i] == trim(s)[0]);
        assert(t[j - 1] == trim(s).last());
    }
    lemma_trim_is(t, i, j);
    assert(t.subrange(i, j) =~= trim(s));
}

/// `s` without its leading white space.
pub fn trim_start_chars<'a>(s: &'a [char]) -> (r: &'a [char])
    ensures
        r@ == trim_start(s@),
{
    let n: usize = count_leading_space(s);
    proof {
        lemma_leading_space(s@);
    }
    slice_subrange(s, n, s.len())
}

/// The number of white space characters that `s` starts with.
pub fn count_leading_space(s: &[char]) -> (n: usize)
    ensures
        n == leading_space(s@),
{
    let mut n: usize = 0;
    while n < s.len() && is_white_space(s[n])
        invariant
            n <= s.len(),
            forall|i: int| 0 <= i < n ==> white_space(#[trigger] s@[i]),
        decreases s.len() - n,
    {
        n += 1;
    }
    proof {
        lemma_leading_space_is(s@, n as int);
    }
    n
}

/// `s` without its trailing white space.
pub fn trim_end_chars<'a>(s: &'a [char]) -> (r: &'a [char])
    ensures
        r@ == trim_end(s@),
{
    let mut n: usize = s.len();
    while n > 0 && is_white_space(s[n - 1])
        invariant
            n <= s.len(),
            forall|i: int| n <= i < s@.len() ==> white_space(#[trigger] s@[i]),
        decreases n,
    {
        n -= 1;
    }
    proof {
        lemma_trim_end_is(s@, n as int);
    }
    slice_subrange(s, 0, n)
}

/// `s` without leading and trailing white space.
pub fn trim_chars<'a>(s: &'a [char]) -> (r: &'a [char])
    ensures
        r@ == trim(s@),
{
    trim_end_chars(trim_start_chars(s))
}

/// The text of `s` without leading and trailing white space.
pub fn trim_text(s: &str) -> (r: String)
    ensures
        r@ == trim(s@),
{
    to_text(trim_chars(&to_chars(s)))
}

/// Stripping takes characters off the front until another one stands there.
pub proof fn lemma_strip_leading(s: Seq<char>, c: char)
    ensures
        strip_leading(s, c).len() <= s.len(),
        strip_leading(s, c) == s.skip(s.len() - strip_leading(s, c).len()),
        strip_leading(s, c).len() > 0 ==> strip_leading(s, c)[0] != c,
        forall|i: int| 0 <= i < s.len() - strip_leading(s, c).len() ==> #[trigger] s[i] == c,
    decreases s.len(),
{
    if s.len() > 0 && s[0] == c {
        let t = s.drop_first();
        lemma_strip_leading(t, c);
        let r = strip_leading(t, c);
        assert(t.skip(t.len() - r.len()) =~= s.skip(s.len() - r.len()));
        assert forall|i: int| 0 <= i < s.len() - r.len() implies #[trigger] s[i] == c by {
            if i > 0 {
                assert(t[i - 1] == s[i]);
            }
        }
    } else {
        assert(s.skip(0) =~= s);
    }
}

/// `s` without the run of `c` it starts with.
pub fn strip_leading_chars<'a>(s: &'a [char], c: char) -> (r: &'a [char])
    ensures
        r@ == strip_leading(s@, c),
{
    let mut n: usize = 0;
    proof {
        assert(s@.skip(0) =~= s@);
    }
    while n < s.len() && s[n] == c
        invariant
            n <= s.len(),
            strip_leading(s@, c) == strip_leading(s@.skip(n as int), c),
        decreases s.len() - n,
    {
        proof {
            assert(s@.skip(n as int).drop_first() =~= s@.skip(n + 1));
        }
        n += 1;
    }
    slice_subrange(s, n, s.len())
}

// ---------------------------------------------------------------------------
// Searching
// ---------------------------------------------------------------------------

/// The position of the first `c` in `s`, or the length of `s` if there is none.
pub open spec fn first_index(s: Seq<char>, c: char) -> int
    decreases s.len(),
{
    if s.len() == 0 || s[0] == c {
        0
    } else {
        1 + first_index(s.drop_first(), c)
    }
}

/// The position of the last `c` in `s`, or -1 if there is none.
pub open spec fn last_index(s: Seq<char>, c: char) -> int
    decreases s.len(),
{
    if s.len() == 0 {
        -1
    } else if s.last() == c {
        s.len() - 1
    } else {
        last_index(s.drop_last(), c)
    }
}

/// `first_index` is the first position of `c`.
pub proof fn lemma_first_index(s: Seq<char>, c: char)
    ensures
        0 <= first_index(s, c) <= s.len(),
        forall|i: int| 0 <= i < first_index(s, c) ==> #[trigger] s[i] != c,
        first_index(s, c) < s.len() ==> s[first_index(s, c)] == c,
    decreases s.len(),
{
    if s.len() > 0 && s[0] != c {
        let t = s.drop_first();
        lemma_first_index(t, c);
        assert forall|i: int| 0 <= i < first_index(s, c) implies #[trigger] s[i] != c by {
            if i > 0 {
                assert(t[i - 1] == s[i]);
            }
        }
    }
}

/// A position of `c` (or the end) with no `c` before it is `first_index`.
pub proof fn lemma_first_index_is(s: Seq<char>, c: char, n: int)
    requires
        0 <= n <= s.len(),
        forall|i: int| 0 <= i < n ==> #[trigger] s[i] != c,
        n < s.len() ==> s[n] == c,
    ensures
        first_index(s, c) == n,
{
    lemma_first_index(s, c);
    let m = first_index(s, c);
    if m < n {
        assert(s[m] != c);
    }
    if n < m {
        assert(s[n] != c);
    }
}

/// `last_index` is the last position of `c`.
pub proof fn lemma_last_index(s: Seq<char>, c: char)
    ensures
        -1 <= last_index(s, c) < s.len(),
        forall|i: int| last_index(s, c) < i < s.len() ==> #[trigger] s[i] != c,
        last_index(s, c) >= 0 ==> s[last_index(s, c)] == c,
    decreases s.len(),
{
    if s.len() > 0 && s.last() != c {
        let t = s.drop_last();
        lemma_last_index(t, c);
        assert forall|i: int| last_index(s, c) < i < s.len() implies #[trigger] s[i] != c by {
            if i < t.len() {
                assert(t[i] == s[i]);
            }
        }
    }
}

/// A position of `c` (or -1) with no `c` after it is `last_index`.
pub proof fn lemma_last_index_is(s: Seq<char>, c: char, n: int)
    requires
        -1 <= n < s.len(),
        forall|i: int| n < i < s.len() ==> #[trigger] s[i] != c,
        n >= 0 ==> s[n] == c,
    ensures
        last_index(s, c) == n,
{
    lemma_last_index(s, c);
    let m = last_index(s, c);
    if m < n {
        assert(s[n] != c);
    }
    if n < m {
        assert(s[m] != c);
    }
}

/// The position of the first `c`, or the length of `s`.
pub fn find_char(s: &[char], c: char) -> (n: usize)
    ensures
        n == first_index(s@, c),
        n <= s@.len(),
{
    let mut n: usize = 0;
    while n < s.len() && s[n] != c
        invariant
            n <= s.len(),
            forall|i: int| 0 <= i < n ==> #[trigger] s@[i] != c,
        decreases s.len() - n,
    {
        n += 1;
    }
    proof {
        lemma_first_index_is(s@, c, n as int);
    }
    n
}

/// The position of the last `c`, if there is one.
pub fn rfind_char(s: &[char], c: char) -> (r: Option<usize>)
    ensures
        match r {
            Some(n) => n == last_index(s@, c) && n < s@.len(),
            None => last_index(s@, c) == -1,
        },
{
    let mut n: usize = s.len();
    while n > 0 && s[n - 1] != c
        invariant
            n <= s.len(),
            forall|i: int| n <= i < s@.len() ==> #[trigger] s@[i] != c,
        decreases n,
    {
        n -= 1;
    }
    proof {
        lemma_last_index_is(s@, c, n - 1);
    }
    if n > 0 {
        Some(n - 1)
    } else {
        None
    }
}

/// `needle` stands in `hay` at position `i`.
pub open spec fn occurs_at(hay: Seq<char>, needle: Seq<char>, i: int) -> bool {
    0 <= i && i + needle.len() <= hay.len() && hay.subrange(i, i + needle.len()) == needle
}

/// `needle` stands somewhere in `hay`; the empty text stands everywhere.
pub open spec fn contains(hay: Seq<char>, needle: Seq<char>) -> bool {
    exists|i: int| #[trigger] occurs_at(hay, needle, i)
}

/// Whether `prefix` stands at the start of `s`.
pub fn starts_with(s: &[char], prefix: &[char]) -> (r: bool)
    ensures
        r == prefix@.is_prefix_of(s@),
{
    if prefix.len() > s.len() {
        return false;
    }
    chars_eq(slice_subrange(s, 0, prefix.len()), prefix)
}

/// Whether `suffix` stands at the end of `s`.
pub fn ends_with(s: &[char], suffix: &[char]) -> (r: bool)
    ensures
        r == suffix@.is_suffix_of(s@),
{
    if suffix.len() > s.len() {
        return false;
    }
    chars_eq(slice_subrange(s, s.len() - suffix.len(), s.len()), suffix)
}

/// Whether `needle` stands somewhere in `hay`.
pub fn contains_chars(hay: &[char], needle: &[char]) -> (r: bool)
    ensures
        r == contains(hay@, needle@),
{
    if needle.len() > hay.len() {
        return false;
    }
    let last: usize = hay.len() - needle.len();
    let mut i: usize = 0;
    while i <= last
        invariant
            last == hay.len() - needle.len(),
            i <= last + 1,
            forall|j: int| 0 <= j < i ==> !occurs_at(hay@, needle@, j),
        decreases last + 1 - i,
    {
        if chars_eq(slice_subrange(hay, i, i + needle.len()), needle) {
            assert(occurs_at(hay@, needle@, i as int));
            return true;
        }
        if i == last {
            assert(forall|j: int| 0 <= j <= last ==> !occurs_at(hay@, needle@, j));
            return false;
        }
        i += 1;
    }
    false
}

// ---------------------------------------------------------------------------
// Words and lines
// ---------------------------------------------------------------------------

/// The maximal runs of characters of `s` that are not white space, in order.
pub open spec fn words(s: Seq<char>) -> Seq<Seq<char>>
    decreases s.len(),
{
    if s.len() == 0 {
        seq![]
    } else {
        let before = words(s.drop_last());
        if white_space(s.last()) {
            before
        } else if s.len() == 1 || white_space(s[s.len() - 2]) {
            before.push(seq![s.last()])
        } else {
            before.drop_last().push(before.last().push(s.last()))
        }
    }
}

/// `parts` with `sep` between each two of them.
pub open spec fn join(parts: Seq<Seq<char>>, sep: Seq<char>) -> Seq<char>
    decreases parts.len(),
{
    if parts.len() == 0 {
        seq![]
    } else if parts.len() == 1 {
        parts[0]
    } else {
        join(parts.drop_last(), sep) + sep + parts.last()
    }
}

/// The texts that vectors of characters hold.
pub open spec fn char_texts(v: Seq<Vec<char>>) -> Seq<Seq<char>> {
    Seq::new(v.len(), |i: int| v[i]@)
}

/// A text whose last character is not white space has a last word.
pub proof fn lemma_words_nonempty(s: Seq<char>)
    requires
        s.len() > 0,
        !white_space(s.last()),
    ensures
        words(s).len() > 0,
{
}

/// The words of an ASCII text are ASCII texts.
pub proof fn lemma_words_ascii(s: Seq<char>)
    requires
        all_ascii(s),
    ensures
        forall|i: int| 0 <= i < words(s).len() ==> all_ascii(#[trigger] words(s)[i]),
    decreases s.len(),
{
    if s.len() > 0 {
        let before = words(s.drop_last());
        assert(ascii(s[s.len() - 1]));
        assert(all_ascii(s.drop_last())) by {
            assert forall|i: int| 0 <= i < s.drop_last().len() implies ascii(
                #[trigger] s.drop_last()[i],
            ) by {
                assert(s.drop_last()[i] == s[i]);
            }
        }
        lemma_words_ascii(s.drop_last());
        let all = words(s);
        assert forall|i: int| 0 <= i < all.len() implies all_ascii(#[trigger] all[i]) by {
            if i < all.len() - 1 || white_space(s.last()) {
                assert(all[i] == before[i]);
            } else if s.len() == 1 || white_space(s[s.len() - 2]) {
                assert(all[i] == seq![s.last()]);
            } else {
                lemma_words_nonempty(s.drop_last());
                assert(before.last() == before[before.len() - 1]);
                assert(all[i] == before.last().push(s.last()));
            }
        }
    }
}

/// Blank texts have no words.
pub proof fn lemma_blank_has_no_words(s: Seq<char>)
    requires
        blank(s),
    ensures
        words(s).len() == 0,
    decreases s.len(),
{
    if s.len() > 0 {
        assert(white_space(s[s.len() - 1]));
        assert(blank(s.drop_last())) by {
            assert forall|i: int| 0 <= i < s.drop_last().len() implies white_space(
                #[trigger] s.drop_last()[i],
            ) by {
                assert(s.drop_last()[i] == s[i]);
            }
        }
        lemma_blank_has_no_words(s.drop_last());
    }
}

/// What follows a space does not change the words before it.
pub proof fn lemma_words_prefix(s: Seq<char>, more: Seq<char>)
    ensures
        words(s).is_prefix_of(words(s + seq![' '] + more)),
        words(s).len() + (if more.len() > 0 && !white_space(more.last()) {
            1int
        } else {
            0
        }) <= words(s + seq![' '] + more).len(),
    decreases more.len(),
{
    let t = s + seq![' '] + more;
    if more.len() == 0 {
        assert(t.drop_last() =~= s);
        assert(t.last() == ' ');
    } else {
        let rest = more.drop_last();
        lemma_words_prefix(s, rest);
        let u = s + seq![' '] + rest;
        assert(t.drop_last() =~= u);
        assert(t.last() == more.last());
        let before = words(u);
        if !white_space(more.last()) {
            if rest.len() == 0 {
                assert(t[t.len() - 2] == ' ');
            } else {
                assert(t[t.len() - 2] == rest.last());
            }
        }
    }
}

/// The words of `s`.
pub fn split_words(s: &[char]) -> (r: Vec<Vec<char>>)
    ensures
        char_texts(r@) == words(s@),
{
    let mut r: Vec<Vec<char>> = Vec::new();
    let mut i: usize = 0;
    while i < s.len()
        invariant
            i <= s.len(),
            char_texts(r@) == words(s@.take(i as int)),
        decreases s.len() - i,
    {
        let ghost before = s@.take(i as int);
        let ghost after = s@.take(i + 1);
        proof {
            assert(after.drop_last() =~= before);
        }
        if !is_white_space(s[i]) {
            if i == 0 || is_white_space(s[i - 1]) {
                let mut w: Vec<char> = Vec::new();
                w.push(s[i]);
                r.push(w);
                assert(w@ =~= seq![s@[i as int]]);
                assert(char_texts(r@) =~= words(before).push(seq![s@[i as int]]));
            } else {
                proof {
                    assert(before.last() == s@[i - 1]);
                    lemma_words_nonempty(before);
                    assert(char_texts(r@).len() == r@.len());
                }
                let ghost old_r = r@;
                let mut w: Vec<char> = r.pop().unwrap();
                w.push(s[i]);
                r.push(w);
                assert(char_texts(r@) =~= words(before).drop_last().push(
                    words(before).last().push(s@[i as int]),
                ));
            }
        }
        i += 1;
    }
    proof {
        assert(s@.take(s@.len() as int) =~= s@);
    }
    r
}

/// `parts` with `sep` between each two of them.
pub fn join_chars(parts: &Vec<Vec<char>>, sep: &[char]) -> (r: Vec<char>)
    ensures
        r@ == join(char_texts(parts@), sep@),
{
    let mut r: Vec<char> = Vec::new();
    let mut i: usize = 0;
    while i < parts.len()
        invariant
            i <= parts.len(),
            r@ == join(char_texts(parts@).take(i as int), sep@),
        decreases parts.len() - i,
    {
        if i > 0 {
            append_chars(&mut r, sep);
        }
        append_chars(&mut r, &parts[i]);
        proof {
            let all = char_texts(parts@);
            assert(all.take(i + 1).drop_last() =~= all.take(i as int));
            if i == 0 {
                assert(r@ =~= all[0]);
            }
        }
        i += 1;
    }
    proof {
        assert(char_texts(parts@).take(parts@.len() as int) =~= char_texts(parts@));
    }
    r
}

/// `parts` with `sep` between each two of them.
pub fn join_strings(parts: &[String], sep: &str) -> (r: String)
    ensures
        r@ == join(texts(parts@), sep@),
{
    let mut r: String = String::new();
    let mut i: usize = 0;
    while i < parts.len()
        invariant
            i <= parts.len(),
            r@ == join(texts(parts@).take(i as int), sep@),
        decreases parts.len() - i,
    {
        if i > 0 {
            r.append(sep);
        }
        r.append(parts[i].as_str());
        proof {
            let all = texts(parts@);
            assert(all.take(i + 1).drop_last() =~= all.take(i as int));
            if i == 0 {
                assert(r@ =~= all[0]);
            }
        }
        i += 1;
    }
    proof {
        assert(texts(parts@).take(parts@.len() as int) =~= texts(parts@));
    }
    r
}

/// `s` without one carriage return at its end.
pub open spec fn strip_cr(s: Seq<char>) -> Seq<char> {
    if s.len() > 0 && s.last() == '\r' {
        s.drop_last()
    } else {
        s
    }
}

/// The lines of `s`. A line ends in a line feed, which may follow a carriage return that
/// then belongs to the line ending; the last line need not be ended.
pub open spec fn lines(s: Seq<char>) -> Seq<Seq<char>>
    decreases s.len(),
{
    if s.len() == 0 {
        seq![]
    } else {
        let n = first_index(s, '\n');
        if 0 <= n < s.len() {
            seq![strip_cr(s.take(n))] + lines(s.skip(n + 1))
        } else {
            seq![s]
        }
    }
}

/// The lines of `s`.
pub fn split_lines(s: &[char]) -> (r: Vec<String>)
    ensures
        texts(r@) == lines(s@),
{
    let mut r: Vec<String> = Vec::new();
    let mut i: usize = 0;
    proof {
        assert(s@.skip(0) =~= s@);
        assert(texts(r@) + lines(s@) =~= lines(s@));
    }
    while i < s.len()
        invariant
            i <= s.len(),
            texts(r@) + lines(s@.skip(i as int)) == lines(s@),
        decreases s.len() - i,
    {
        let rest: &[char] = slice_subrange(s, i, s.len());
        let n: usize = find_char(rest, '\n');
        let ghost old_r = texts(r@);
        assert(rest@ =~= s@.skip(i as int));
        if n == rest.len() {
            r.push(to_text(rest));
            proof {
                assert(texts(r@) =~= old_r.push(rest@));
                assert(s@.skip(s@.len() as int).len() == 0);
                assert(texts(r@) + lines(s@.skip(s@.len() as int)) =~= old_r + seq![rest@]);
            }
            i = s.len();
        } else {
            let mut line: &[char] = slice_subrange(rest, 0, n);
            if line.len() > 0 && line[line.len() - 1] == '\r' {
                line = slice_subrange(line, 0, line.len() - 1);
            }
            r.push(to_text(line));
            proof {
                assert(line@ =~= strip_cr(rest@.take(n as int)));
                assert(texts(r@) =~= old_r.push(line@));
                assert(rest@.skip(n + 1) =~= s@.skip(i + n + 1));
                assert(texts(r@) + lines(s@.skip(i + n + 1)) =~= old_r + (seq![line@] + lines(
                    s@.skip(i + n + 1),
                )));
            }
            i = i + n + 1;
        }
    }
    proof {
        assert(s@.skip(s@.len() as int).len() == 0);
        assert(texts(r@) =~= lines(s@));
    }
    r
}

// ---------------------------------------------------------------------------
// Numbers
// ---------------------------------------------------------------------------

/// The digit for `d`, from `0` to `9` and then from `A` on.
pub open spec fn digit_char(d: nat) -> char {
    if d < 10 {
        (48 + d) as char
    } else {
        (55 + d) as char
    }
}

/// `n` written in base `base`, without leading zeros, with upper case digits.
pub open spec fn numeral(n: nat, base: nat) -> Seq<char>
    decreases n,
{
    if base < 2 || n < base {
        seq![digit_char(n)]
    } else {
        proof {
            assert(n / base < n) by (nonlinear_arith)
                requires
                    n >= base,
                    base >= 2,
            ;
        }
        numeral(n / base, base).push(digit_char(n % base))
    }
}

/// `n` in decimal.
pub open spec fn decimal(n: nat) -> Seq<char> {
    numeral(n, 10)
}

/// `n` written in base `base`.
pub fn numeral_chars(n: u64, base: u64) -> (r: Vec<char>)
    requires
        2 <= base <= 36,
    ensures
        r@ == numeral(n as nat, base as nat),
    decreases n,
{
    let d: u64 = n % base;
    let c: char = if d < 10 {
        (48 + d as u8) as char
    } else {
        (55 + d as u8) as char
    };
    if n < base {
        let mut r: Vec<char> = Vec::new();
        r.push(c);
        assert(n % base == n) by (nonlinear_arith)
            requires
                n < base,
        ;
        assert(r@ =~= seq![digit_char(n as nat)]);
        r
    } else {
        assert(n / base < n) by (nonlinear_arith)
            requires
                n >= base,
                base >= 2,
        ;
        let mut r: Vec<char> = numeral_chars(n / base, base);
        r.push(c);
        r
    }
}

/// The value of `c` as a digit, or -1 if it is none.
pub open spec fn digit_value(c: char) -> int {
    if '0' <= c && c <= '9' {
        c as int - 48
    } else if 'a' <= c && c <= 'z' {
        c as int - 87
    } else if 'A' <= c && c <= 'Z' {
        c as int - 55
    } else {
        -1
    }
}

/// Every character of `s` is a digit in base `base`.
pub open spec fn all_digits(s: Seq<char>, base: int) -> bool {
    forall|i: int| 0 <= i < s.len() ==> 0 <= digit_value(#[trigger] s[i]) < base
}

/// The number that the digits `s` write in base `base`.
pub open spec fn digits_value(s: Seq<char>, base: int) -> int
    decreases s.len(),
{
    if s.len() == 0 {
        0
    } else {
        digits_value(s.drop_last(), base) * base + digit_value(s.last())
    }
}

/// The number no greater than `max` that `s` writes in base `base`: an optional `+`, then one
/// or more digits and nothing else.
pub open spec fn parsed_number(s: Seq<char>, base: int, max: int) -> Option<int> {
    let digits = if s.len() > 0 && s[0] == '+' {
        s.drop_first()
    } else {
        s
    };
    if digits.len() > 0 && all_digits(digits, base) && digits_value(digits, base) <= max {
        Some(digits_value(digits, base))
    } else {
        None
    }
}

/// The value of `c` as a digit in base `base`.
pub fn digit_of(c: char, base: u64) -> (r: Option<u64>)
    requires
        2 <= base <= 36,
    ensures
        match r {
            Some(d) => d == digit_value(c) && d < base,
            None => !(0 <= digit_value(c) < base),
        },
{
    let d: u64 = if '0' <= c && c <= '9' {
        c as u64 - 48
    } else if 'a' <= c && c <= 'z' {
        c as u64 - 87
    } else if 'A' <= c && c <= 'Z' {
        c as u64 - 55
    } else {
        return None;
    };
    if d < base {
        Some(d)
    } else {
        None
    }
}

/// More digits never write a smaller number.
proof fn lemma_digits_value_grows(s: Seq<char>, n: int, base: int)
    requires
        base >= 2,
        all_digits(s, base),
        0 <= n <= s.len(),
    ensures
        0 <= digits_value(s.take(n), base) <= digits_value(s, base),
    decreases s.len(),
{
    if n == s.len() {
        assert(s.take(n) =~= s);
        if n > 0 {
            lemma_digits_value_grows(s.drop_last(), n - 1, base);
            assert(s.drop_last().take(n - 1) =~= s.drop_last());
            assert(digit_value(s.last()) >= 0);
            let v = digits_value(s.drop_last(), base);
            assert(v * base >= 0) by (nonlinear_arith)
                requires
                    v >= 0,
                    base >= 2,
            ;
        }
    } else {
        let t = s.drop_last();
        lemma_digits_value_grows(t, n, base);
        assert(t.take(n) =~= s.take(n));
        let v = digits_value(t, base);
        assert(digit_value(s.last()) >= 0);
        assert(v * base >= v) by (nonlinear_arith)
            requires
                v >= 0,
                base >= 2,
        ;
    }
}

/// The number no greater than `max` that `s` writes in base `base`.
pub fn parse_number(s: &[char], base: u64, max: u64) -> (r: Option<u64>)
    requires
        2 <= base <= 36,
    ensures
        match r {
            Some(v) => parsed_number(s@, base as int, max as int) == Some(v as int),
            None => parsed_number(s@, base as int, max as int) is None,
        },
{
    let digits: &[char] = if s.len() > 0 && s[0] == '+' {
        slice_subrange(s, 1, s.len())
    } else {
        s
    };
    assert(s@.len() > 0 ==> s@.subrange(1, s@.len() as int) =~= s@.drop_first());
    if digits.len() == 0 {
        return None;
    }
    let mut v: u64 = 0;
    let mut over: bool = false;
    let mut i: usize = 0;
    while i < digits.len()
        invariant
            i <= digits.len(),
            2 <= base <= 36,
            digits@ == (if s@.len() > 0 && s@[0] == '+' {
                s@.drop_first()
            } else {
                s@
            }),
            forall|j: int| 0 <= j < i ==> 0 <= digit_value(#[trigger] digits@[j]) < base,
            !over ==> v == digits_value(digits@.take(i as int), base as int),
            over ==> digits_value(digits@.take(i as int), base as int) > max,
            v <= max,
        decreases digits.len() - i,
    {
        let d: u64 = match digit_of(digits[i], base) {
            Some(d) => d,
            None => {
                assert(!all_digits(digits@, base as int));
                return None;
            },
        };
        proof {
            let t = digits@.take(i + 1);
            assert(t.drop_last() =~= digits@.take(i as int));
            assert(t.last() == digits@[i as int]);
            lemma_digits_value_grows(t, i as int, base as int);
            assert(t.take(i as int) =~= digits@.take(i as int));
        }
        if !over {
            match v.checked_mul(base) {
                Some(m) => {
                    match m.checked_add(d) {
                        Some(w) => {
                            if w <= max {
                                v = w;
                            } else {
                                over = true;
                            }
                        },
                        None => {
                            over = true;
                        },
                    }
                },
                None => {
                    over = true;
                },
            }
        }
        i += 1;
    }
    proof {
        assert(digits@.take(digits@.len() as int) =~= digits@);
    }
    if over {
        None
    } else {
        Some(v)
    }
}

// ---------------------------------------------------------------------------
// Laws of numbers
// ---------------------------------------------------------------------------

/// The digits from `0` to `9` are worth 0 to 9, the letters from `a` on, in either case, 10 and more,
/// and nothing else is a digit.
pub proof fn law_worth_of_digits(c: char)
    ensures
        '0' <= c && c <= '9' ==> digit_value(c) == c as int - '0' as int,
        'a' <= c && c <= 'z' ==> digit_value(c) == 10 + c as int - 'a' as int,
        'A' <= c && c <= 'Z' ==> digit_value(c) == 10 + c as int - 'A' as int,
        !alphanumeric(c) ==> digit_value(c) < 0,
{
}

/// In front of other digits a digit counts as often as the base to the power of their number.
pub proof fn law_first_digit_counts_most(c: char, rest: Seq<char>, base: int)
    ensures
        digits_value(seq![c] + rest, base) == digit_value(c) * pow(base, rest.len())
            + digits_value(rest, base),
    decreases rest.len(),
{
    let s = seq![c] + rest;
    reveal(pow);
    if rest.len() == 0 {
        assert(s.drop_last() =~= seq![]);
        assert(digits_value(s.drop_last(), base) == 0);
        assert(s.last() == c);
    } else {
        let t = rest.drop_last();
        law_first_digit_counts_most(c, t, base);
        assert(s.drop_last() =~= seq![c] + t);
        assert(s.last() == rest.last());
        let a = digit_value(c);
        let p = pow(base, t.len());
        let d = digits_value(t, base);
        assert(pow(base, rest.len()) == base * p);
        vstd::arithmetic::mul::lemma_mul_is_distributive_add_other_way(base, a * p, d);
        vstd::arithmetic::mul::lemma_mul_is_associative(a, p, base);
        vstd::arithmetic::mul::lemma_mul_is_commutative(p, base);
    }
}

/// A number that is written out is read back, and is written without zeros in front.
pub proof fn law_numeral_is_read_back(n: nat, base: nat)
    requires
        2 <= base <= 36,
    ensures
        numeral(n, base).len() > 0,
        all_digits(numeral(n, base), base as int),
        digits_value(numeral(n, base), base as int) == n,
        n > 0 ==> numeral(n, base)[0] != '0',
        n == 0 ==> numeral(n, base) == seq!['0'],
        forall|i: int|
            0 <= i < numeral(n, base).len() ==> !('a' <= #[trigger] numeral(n, base)[i] && numeral(
                n,
                base,
            )[i] <= 'z'),
    decreases n,
{
    let r = numeral(n, base);
    if n < base {
        assert(r =~= seq![digit_char(n)]);
        lemma_digit_char(n);
        assert(r.drop_last() =~= seq![]);
        assert(digits_value(r.drop_last(), base as int) == 0);
    } else {
        let q = n / base;
        let d = n % base;
        vstd::arithmetic::div_mod::lemma_div_decreases(n as int, base as int);
        vstd::arithmetic::div_mod::lemma_div_non_zero(n as int, base as int);
        vstd::arithmetic::div_mod::lemma_mod_bound(n as int, base as int);
        vstd::arithmetic::div_mod::lemma_fundamental_div_mod(n as int, base as int);
        vstd::arithmetic::mul::lemma_mul_is_commutative(q as int, base as int);
        law_numeral_is_read_back(q, base);
        lemma_digit_char(d);
        let t = numeral(q, base);
        assert(r == t.push(digit_char(d)));
        assert(r.drop_last() =~= t);
        assert(r.last() == digit_char(d));
        assert(r[0] == t[0]);
        assert forall|i: int| 0 <= i < r.len() implies 0 <= digit_value(#[trigger] r[i]) < base by {
            if i < t.len() {
                assert(r[i] == t[i]);
            }
        }
        assert forall|i: int| 0 <= i < r.len() implies !('a' <= #[trigger] r[i] && r[i] <= 'z') by {
            if i < t.len() {
                assert(r[i] == t[i]);
            }
        }
    }
}

proof fn lemma_digit_char(d: nat)
    requires
        d < 36,
    ensures
        digit_value(digit_char(d)) == d,
        d > 0 ==> digit_char(d) != '0',
        d == 0 ==> digit_char(d) == '0',
        !('a' <= digit_char(d) && digit_char(d) <= 'z'),
{
}

/// Digits are read as the number that they write, with or without a plus in front, if it is not too
/// great; nothing else is read as a number.
pub proof fn law_digits_are_numbers(s: Seq<char>, base: int, max: int)
    requires
        2 <= base <= 36,
    ensures
        s.len() > 0 && all_digits(s, base) ==> {
            &&& parsed_number(s, base, max) == (if digits_value(s, base) <= max {
                Some(digits_value(s, base))
            } else {
                None
            })
            &&& parsed_number(seq!['+'] + s, base, max) == parsed_number(s, base, max)
        },
        parsed_number(s, base, max) matches Some(n) ==> n <= max && exists|d: Seq<char>|
            #![trigger all_digits(d, base)]
            (s == d || s == seq!['+'] + d) && d.len() > 0 && all_digits(d, base) && digits_value(
                d,
                base,
            ) == n,
{
    let plus = seq!['+'] + s;
    assert(plus.drop_first() =~= s);
    if s.len() > 0 && all_digits(s, base) {
        assert(digit_value(s[0]) >= 0);
    }
    if parsed_number(s, base, max) is Some {
        let d = if s.len() > 0 && s[0] == '+' {
            s.drop_first()
        } else {
            s
        };
        if s[0] == '+' {
            assert(seq!['+'] + d =~= s);
        }
        assert(all_digits(d, base));
    }
}

/// A text holds another one if it is what stands before, the other one, and what stands after.
pub proof fn law_contained_texts(whole: Seq<char>, part: Seq<char>)
    ensures
        contains(whole, part) <==> exists|before: Seq<char>, after: Seq<char>|
            whole == #[trigger] (before + part + after),
{
    if contains(whole, part) {
        let i = choose|i: int| occurs_at(whole, part, i);
        assert(whole =~= whole.take(i) + part + whole.skip(i + part.len()));
    }
    if exists|before: Seq<char>, after: Seq<char>| whole == #[trigger] (before + part + after) {
        let (before, after) = choose|before: Seq<char>, after: Seq<char>|
            whole == #[trigger] (before + part + after);
        let n = before.len() as int;
        assert(whole.subrange(n, n + part.len()) =~= part);
        assert(occurs_at(whole, part, n));
    }
}

// ---------------------------------------------------------------------------
// Laws of words, parts and lines
// ---------------------------------------------------------------------------

/// A text without white space is one word.
pub proof fn law_word_is_one_word(w: Seq<char>)
    requires
        w.len() > 0,
        forall|i: int| 0 <= i < w.len() ==> !white_space(#[trigger] w[i]),
    ensures
        words(w) == seq![w],
    decreases w.len(),
{
    let t = w.drop_last();
    assert(!white_space(w[w.len() - 1]));
    if w.len() == 1 {
        assert(t.len() == 0);
        assert(words(t) =~= seq![]);
        assert(seq![w.last()] =~= w);
        assert(words(w) =~= seq![w]);
    } else {
        assert forall|i: int| 0 <= i < t.len() implies !white_space(#[trigger] t[i]) by {
            assert(t[i] == w[i]);
        }
        law_word_is_one_word(t);
        assert(!white_space(w[w.len() - 2]));
        assert(t.push(w.last()) =~= w);
        assert(words(w) =~= seq![w]);
    }
}

/// White space parts the words: what stands on both sides of it are the words of both sides.
pub proof fn law_white_space_parts_words(a: Seq<char>, c: char, b: Seq<char>)
    requires
        white_space(c),
    ensures
        words(a + seq![c] + b) == words(a) + words(b),
    decreases b.len(),
{
    let t = a + seq![c] + b;
    if b.len() == 0 {
        assert(t.drop_last() =~= a);
        assert(t.last() == c);
        assert(words(a) + words(b) =~= words(a));
    } else {
        let rest = b.drop_last();
        law_white_space_parts_words(a, c, rest);
        assert(t.drop_last() =~= a + seq![c] + rest);
        assert(t.last() == b.last());
        let before = words(rest);
        if !white_space(b.last()) {
            if rest.len() == 0 {
                assert(t[t.len() - 2] == c);
                assert(words(t) =~= words(a) + words(b));
            } else {
                assert(t[t.len() - 2] == rest.last());
                assert(b[b.len() - 2] == rest.last());
                if white_space(rest.last()) {
                    assert(words(t) =~= words(a) + words(b));
                } else {
                    lemma_words_nonempty(rest);
                    assert((words(a) + before).last() == before.last());
                    assert((words(a) + before).drop_last() =~= words(a) + before.drop_last());
                    assert(words(t) =~= words(a) + words(b));
                }
            }
        }
    }
}

/// Joining works on both ends: joined parts with the separator and more joined parts behind them are
/// all of them joined.
pub proof fn law_joined_parts_join(a: Seq<Seq<char>>, b: Seq<Seq<char>>, sep: Seq<char>)
    ensures
        a.len() > 0 && b.len() > 0 ==> join(a + b, sep) == join(a, sep) + sep + join(b, sep),
        a.len() == 1 ==> join(a, sep) == a[0],
        a.len() == 0 ==> join(a, sep).len() == 0,
    decreases b.len(),
{
    if a.len() > 0 && b.len() > 0 {
        let rest = b.drop_last();
        assert((a + b).drop_last() =~= a + rest);
        assert((a + b).last() == b.last());
        if rest.len() == 0 {
            assert(a + rest =~= a);
            assert(b.last() == b[0]);
        } else {
            law_joined_parts_join(a, rest, sep);
            assert(join(a, sep) + sep + join(rest, sep) + sep + b.last() =~= join(a, sep) + sep + (
            join(rest, sep) + sep + b.last()));
        }
    }
}

/// A line feed ends a line, with the carriage return in front of it if there is one; a text without
/// a line feed is one line, and an empty one has none.
pub proof fn law_line_feeds_end_lines(line: Seq<char>, rest: Seq<char>)
    requires
        !line.contains('\n'),
    ensures
        line.len() == 0 || line.last() != '\r' ==> lines(line + seq!['\n'] + rest) == seq![line]
            + lines(rest),
        lines(line + seq!['\r', '\n'] + rest) == seq![line] + lines(rest),
        line.len() > 0 ==> lines(line) == seq![line],
        line.len() == 0 ==> lines(line).len() == 0,
{
    let n = line.len() as int;
    let a = line + seq!['\n'] + rest;
    assert forall|i: int| 0 <= i < n implies #[trigger] line[i] != '\n' by {
        assert(line.contains(line[i]));
    }
    assert forall|i: int| 0 <= i < n implies #[trigger] a[i] != '\n' by {
        assert(a[i] == line[i]);
    }
    assert(a[n] == '\n');
    lemma_first_index_is(a, '\n', n);
    assert(a.take(n) =~= line);
    assert(a.skip(n + 1) =~= rest);
    let b = line + seq!['\r', '\n'] + rest;
    assert forall|i: int| 0 <= i < n + 1 implies #[trigger] b[i] != '\n' by {
        if i < n {
            assert(b[i] == line[i]);
        } else {
            assert(b[i] == '\r');
        }
    }
    assert(b[n + 1] == '\n');
    lemma_first_index_is(b, '\n', n + 1);
    assert(b.take(n + 1) =~= line.push('\r'));
    assert(b.take(n + 1).drop_last() =~= line);
    assert(b.skip(n + 2) =~= rest);
    lemma_first_index_is(line, '\n', n);
}

/// Lowering changes the letters from `A` to `Z` to those from `a` to `z` and nothing else.
pub proof fn law_lower_case_letters(s: Seq<char>, i: int)
    requires
        0 <= i < s.len(),
    ensures
        ascii_lower_text(s).len() == s.len(),
        'A' <= s[i] && s[i] <= 'Z' ==> ascii_lower_text(s)[i] as int - 'a' as int == s[i] as int
            - 'A' as int,
        !('A' <= s[i] && s[i] <= 'Z') ==> ascii_lower_text(s)[i] == s[i],
        ascii_lower_text(ascii_lower_text(s)) == ascii_lower_text(s),
{
    let t = ascii_lower_text(s);
    assert(t[i] == ascii_lower(s[i]));
    assert(ascii_lower_text(t) =~= t) by {
        assert forall|k: int| 0 <= k < t.len() implies #[trigger] ascii_lower_text(t)[k] == t[k] by {
            assert(t[k] == ascii_lower(s[k]));
        }
    }
}

} // verus!
