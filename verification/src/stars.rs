//! What moving the star in a list of options leaves as it is.

use vstd::prelude::*;

use crate::grammar;
use crate::roundtrip;
use crate::text;

verus! {

// ---------------------------------------------------------------------------
// Stars
// ---------------------------------------------------------------------------

/// `strip_stars` drops exactly the stars at the end.
pub proof fn lemma_strip_stars(s: Seq<char>)
    ensures
        grammar::strip_stars(s).len() <= s.len(),
        grammar::strip_stars(s) == s.take(grammar::strip_stars(s).len() as int),
        grammar::strip_stars(s).len() > 0 ==> grammar::strip_stars(s).last() != '*',
        forall|i: int| grammar::strip_stars(s).len() <= i < s.len() ==> #[trigger] s[i] == '*',
    decreases s.len(),
{
    if s.len() > 0 && s.last() == '*' {
        let t = s.drop_last();
        lemma_strip_stars(t);
        let n = grammar::strip_stars(t).len() as int;
        assert(t.take(n) =~= s.take(n));
        assert forall|i: int| n <= i < s.len() implies #[trigger] s[i] == '*' by {
            if i < t.len() {
                assert(t[i] == s[i]);
            }
        }
    } else {
        assert(s.take(s.len() as int) =~= s);
    }
}

/// A text that ends in no star, with stars behind it, is what `strip_stars` leaves.
proof fn lemma_strip_stars_is(s: Seq<char>, n: int)
    requires
        0 <= n <= s.len(),
        n > 0 ==> s[n - 1] != '*',
        forall|i: int| n <= i < s.len() ==> #[trigger] s[i] == '*',
    ensures
        grammar::strip_stars(s) == s.take(n),
{
    lemma_strip_stars(s);
    let m = grammar::strip_stars(s).len() as int;
    if m < n {
        assert(s[n - 1] == '*');
    }
    if n < m {
        assert(grammar::strip_stars(s).last() == s[m - 1]);
    }
}

/// What stays of `s` in front of its first opening bracket.
spec fn head_of(s: Seq<char>) -> Seq<char> {
    let n = text::first_index(s, '[');
    if n < s.len() && grammar::starts_option(s.skip(n)) {
        grammar::strip_stars(s.take(n))
    } else {
        s.take(n)
    }
}

/// Up to its first opening bracket a text stays, stars in front of the bracket aside.
proof fn lemma_front(s: Seq<char>, k: int, active: Option<int>)
    ensures
        ({
            let r = grammar::restarred(s, k, active);
            let n = text::first_index(s, '[');
            let b = head_of(s).len() as int;
            &&& 0 <= b <= n <= s.len()
            &&& head_of(s) == s.take(b)
            &&& forall|i: int| b <= i < n ==> #[trigger] s[i] == '*'
            &&& b <= r.len()
            &&& r.take(b) == s.take(b)
            &&& n == s.len() ==> r == s
            &&& n < s.len() ==> r.len() > b && (r[b] == '*' || r[b] == '[')
        }),
{
    let r = grammar::restarred(s, k, active);
    let n = text::first_index(s, '[');
    text::lemma_first_index(s, '[');
    let h = head_of(s);
    let b = h.len() as int;
    if n < s.len() && grammar::starts_option(s.skip(n)) {
        lemma_strip_stars(s.take(n));
        assert(s.take(n).take(b) =~= s.take(b));
        assert forall|i: int| b <= i < n implies #[trigger] s[i] == '*' by {
            assert(s.take(n)[i] == s[i]);
        }
    }
    assert(r.take(b) =~= s.take(b));
}

/// What follows an opening bracket tells in the same way whether it starts an option.
proof fn lemma_same_start(s: Seq<char>, k: int, active: Option<int>)
    ensures
        grammar::starts_option(seq!['['] + grammar::restarred(s, k, active))
            == grammar::starts_option(seq!['['] + s),
{
    let r = grammar::restarred(s, k, active);
    let x = seq!['['] + s;
    let y = seq!['['] + r;
    let n = text::first_index(s, '[');
    let b = head_of(s).len() as int;
    lemma_front(s, k, active);
    text::lemma_first_index(s, '[');
    assert(x.drop_first() =~= s);
    assert(y.drop_first() =~= r);
    if n < s.len() {
        grammar::lemma_hex_run(s);
        let h = grammar::hex_run(s);
        assert(s[b] == '*' || s[b] == '[');
        if b < h {
            assert(grammar::is_hex(s[b]));
        }
        assert forall|i: int| 0 <= i < b implies #[trigger] r[i] == s[i] by {
            assert(r.take(b)[i] == s.take(b)[i]);
        }
        assert forall|i: int| 0 <= i < h implies grammar::is_hex(#[trigger] r[i]) by {
            assert(r[i] == s[i]);
        }
        grammar::lemma_hex_run_is(r, h);
        assert(x[1 + h] == s[h]);
        assert(y[1 + h] == r[h]);
    }
}

/// The options `found` with a star on the active one, counted from `k` on, and on no other.
pub open spec fn rechosen(
    found: Seq<grammar::Choice>,
    k: int,
    active: Option<int>,
) -> Seq<grammar::Choice> {
    Seq::new(
        found.len(),
        |j: int| grammar::Choice { star: active == Some(k + j), label: found[j].label },
    )
}

/// The parts of a text with the star moved: what stands in front of its first opening bracket, and
/// what is behind that.
proof fn lemma_parts(s: Seq<char>, k: int, active: Option<int>)
    requires
        text::first_index(s, '[') < s.len(),
    ensures
        ({
            let n = text::first_index(s, '[');
            let t = s.skip(n).drop_first();
            let is_option = grammar::starts_option(s.skip(n));
            let j = if is_option {
                k + 1
            } else {
                k
            };
            let star = if is_option {
                grammar::star_for(k, active)
            } else {
                seq![]
            };
            let u = grammar::restarred(t, j, active);
            let r = grammar::restarred(s, k, active);
            let m = (head_of(s).len() + star.len()) as int;
            &&& 0 <= n
            &&& s.skip(n) == seq!['['] + t
            &&& r == head_of(s) + star + seq!['['] + u
            &&& text::first_index(r, '[') == m
            &&& r.skip(m) == seq!['['] + u
            &&& r.take(m) == head_of(s) + star
            &&& r.skip(m).drop_first() == u
            &&& grammar::starts_option(r.skip(m)) == is_option
        }),
{
    let n = text::first_index(s, '[');
    text::lemma_first_index(s, '[');
    let t = s.skip(n).drop_first();
    let is_option = grammar::starts_option(s.skip(n));
    let j = if is_option {
        k + 1
    } else {
        k
    };
    let star = if is_option {
        grammar::star_for(k, active)
    } else {
        seq![]
    };
    let u = grammar::restarred(t, j, active);
    let r = grammar::restarred(s, k, active);
    let h = head_of(s);
    let m = (h.len() + star.len()) as int;
    lemma_front(s, k, active);
    assert(s.skip(n) =~= seq!['['] + t);
    assert(r =~= h + star + seq!['['] + u);
    assert forall|i: int| 0 <= i < m implies #[trigger] r[i] != '[' by {
        if i < h.len() {
            assert(r[i] == h[i]);
            assert(h[i] == s[i]);
        } else {
            assert(r[i] == star[i - h.len()]);
        }
    }
    text::lemma_first_index_is(r, '[', m);
    assert(r.skip(m) =~= seq!['['] + u);
    assert(r.take(m) =~= h + star);
    assert(r.skip(m).drop_first() =~= u);
    lemma_same_start(t, j, active);
}

/// An opening bracket and a text, with stars at the end, without these stars.
proof fn lemma_bracket_and_stars(h: Seq<char>, stars: Seq<char>)
    requires
        h.len() > 0 ==> h.last() != '*',
        forall|i: int| 0 <= i < stars.len() ==> #[trigger] stars[i] == '*',
    ensures
        grammar::strip_stars(seq!['['] + (h + stars)) == seq!['['] + h,
{
    let s = seq!['['] + (h + stars);
    let n = 1 + h.len() as int;
    assert forall|i: int| n <= i < s.len() implies #[trigger] s[i] == '*' by {
        assert(s[i] == stars[i - n]);
    }
    if h.len() > 0 {
        assert(s[n - 1] == h.last());
    }
    lemma_strip_stars_is(s, n);
    assert(s.take(n) =~= seq!['['] + h);
}

/// The label behind an opening bracket and the text up to the next one.
proof fn lemma_label(s: Seq<char>)
    requires
        text::first_index(s, '[') < s.len(),
    ensures
        ({
            let n = text::first_index(s, '[');
            grammar::label_at(seq!['['] + s) == if grammar::starts_option(s.skip(n)) {
                text::trim(grammar::strip_stars(seq!['['] + s.take(n)))
            } else {
                text::trim(seq!['['] + s.take(n))
            }
        }),
{
    let x = seq!['['] + s;
    let n = text::first_index(s, '[');
    text::lemma_first_index(s, '[');
    assert(x.drop_first() =~= s);
    assert(x.skip(1 + n) =~= s.skip(n));
    assert(x.take(1 + n) =~= seq!['['] + s.take(n));
}

/// What follows an opening bracket gives the same label.
proof fn lemma_same_label(s: Seq<char>, k: int, active: Option<int>)
    ensures
        grammar::label_at(seq!['['] + grammar::restarred(s, k, active)) == grammar::label_at(
            seq!['['] + s,
        ),
{
    let r = grammar::restarred(s, k, active);
    let n = text::first_index(s, '[');
    text::lemma_first_index(s, '[');
    if n < s.len() {
        lemma_parts(s, k, active);
        lemma_front(s, k, active);
        let m = text::first_index(r, '[');
        text::lemma_first_index(r, '[');
        assert(m < r.len()) by {
            assert(r.skip(m).len() > 0);
        }
        lemma_label(s);
        lemma_label(r);
        let h = head_of(s);
        if grammar::starts_option(s.skip(n)) {
            lemma_strip_stars(s.take(n));
            let stars = s.subrange(h.len() as int, n);
            assert(h + stars =~= s.take(n));
            assert forall|i: int| 0 <= i < stars.len() implies #[trigger] stars[i] == '*' by {
                assert(stars[i] == s[h.len() + i]);
            }
            lemma_bracket_and_stars(h, stars);
            lemma_bracket_and_stars(h, grammar::star_for(k, active));
        } else {
            assert(r.take(m) =~= s.take(n));
        }
    }
}

/// A text with the star moved holds the same options, with the star moved.
pub proof fn law_moved_star_marks_the_active_option(s: Seq<char>, k: int, active: Option<int>)
    ensures
        grammar::options_in(grammar::restarred(s, k, active)) == rechosen(
            grammar::options_in(s),
            k,
            active,
        ),
    decreases s.len(),
{
    let r = grammar::restarred(s, k, active);
    let n = text::first_index(s, '[');
    text::lemma_first_index(s, '[');
    if n < s.len() {
        let t = s.skip(n).drop_first();
        lemma_parts(s, k, active);
        let m = text::first_index(r, '[');
        text::lemma_first_index(r, '[');
        assert(m < r.len()) by {
            assert(r.skip(m).len() > 0);
        }
        if grammar::starts_option(s.skip(n)) {
            law_moved_star_marks_the_active_option(t, k + 1, active);
            lemma_same_label(t, k + 1, active);
            lemma_strip_stars(s.take(n));
            let star = grammar::star_for(k, active);
            let marked = m > 0 && r[m - 1] == '*';
            assert(marked == (active == Some(k))) by {
                if m > 0 {
                    assert(r[m - 1] == r.take(m)[m - 1]);
                    if active != Some(k) {
                        assert(r.take(m) =~= head_of(s));
                        assert(r[m - 1] == head_of(s).last());
                    }
                }
            }
            let old_rest = grammar::options_in(t);
            let new_rest = grammar::options_in(grammar::restarred(t, k + 1, active));
            let first = grammar::Choice { star: marked, label: grammar::label_at(s.skip(n)) };
            assert(grammar::options_in(r) == seq![first] + new_rest);
            assert(grammar::options_in(r) =~= rechosen(grammar::options_in(s), k, active)) by {
                let all = rechosen(grammar::options_in(s), k, active);
                assert forall|j: int| 0 <= j < all.len() implies #[trigger] all[j] == (
                seq![first] + new_rest)[j] by {
                    if j > 0 {
                        assert(grammar::options_in(s)[j] == old_rest[j - 1]);
                        assert(new_rest[j - 1] == rechosen(old_rest, k + 1, active)[j - 1]);
                    }
                }
            }
        } else {
            law_moved_star_marks_the_active_option(t, k, active);
        }
    } else {
        assert(grammar::options_in(r) =~= rechosen(grammar::options_in(s), k, active));
    }
}

/// Where the star was moved to before does not matter.
pub proof fn law_star_moves_from_anywhere(
    s: Seq<char>,
    k: int,
    active: Option<int>,
    j: int,
    other: Option<int>,
)
    ensures
        grammar::restarred(grammar::restarred(s, k, active), j, other) == grammar::restarred(
            s,
            j,
            other,
        ),
    decreases s.len(),
{
    let r = grammar::restarred(s, k, active);
    let n = text::first_index(s, '[');
    text::lemma_first_index(s, '[');
    if n < s.len() {
        let t = s.skip(n).drop_first();
        lemma_parts(s, k, active);
        lemma_parts(s, j, other);
        let m = text::first_index(r, '[');
        text::lemma_first_index(r, '[');
        assert(m < r.len()) by {
            assert(r.skip(m).len() > 0);
        }
        lemma_parts(r, j, other);
        if grammar::starts_option(s.skip(n)) {
            law_star_moves_from_anywhere(t, k + 1, active, j + 1, other);
            lemma_strip_stars(s.take(n));
            let h = head_of(s);
            let p = r.take(m);
            assert forall|i: int| h.len() <= i < p.len() implies #[trigger] p[i] == '*' by {
                assert(p[i] == grammar::star_for(k, active)[i - h.len()]);
            }
            if h.len() > 0 {
                assert(p[h.len() - 1] == h.last());
            }
            lemma_strip_stars_is(p, h.len() as int);
            assert(p.take(h.len() as int) =~= h);
            assert(head_of(r) == h);
        } else {
            law_star_moves_from_anywhere(t, k, active, j, other);
            assert(r.take(m) =~= head_of(s));
            assert(head_of(r) == head_of(s));
        }
    }
}

/// Plain texts around a star and an opening bracket are plain together.
proof fn lemma_plain_parts(h: Seq<char>, star: Seq<char>, u: Seq<char>)
    requires
        roundtrip::plain(h),
        roundtrip::plain(u),
        star.len() == 0 || star == seq!['*'],
    ensures
        roundtrip::plain(h + star + seq!['['] + u),
{
    let one = seq!['['];
    assert(roundtrip::plain(one)) by {
        assert(one.len() == 1);
    }
    assert(roundtrip::plain(star)) by {
        assert(star.len() <= 1);
    }
    roundtrip::lemma_plain_join(h, star);
    roundtrip::lemma_plain_join(h + star, one);
    assert((h + star + one).last() == '[');
    roundtrip::lemma_plain_join(h + star + one, u);
}

/// A text with the star moved is plain if the text is.
pub proof fn lemma_restarred_plain(s: Seq<char>, k: int, active: Option<int>)
    requires
        roundtrip::plain(s),
    ensures
        roundtrip::plain(grammar::restarred(s, k, active)),
    decreases s.len(),
{
    let n = text::first_index(s, '[');
    text::lemma_first_index(s, '[');
    if n < s.len() {
        let t = s.skip(n).drop_first();
        lemma_parts(s, k, active);
        lemma_front(s, k, active);
        let h = head_of(s);
        assert(t =~= s.subrange(n + 1, s.len() as int));
        roundtrip::lemma_plain_part(s, n + 1, s.len() as int);
        assert(h =~= s.subrange(0, h.len() as int));
        roundtrip::lemma_plain_part(s, 0, h.len() as int);
        if grammar::starts_option(s.skip(n)) {
            lemma_restarred_plain(t, k + 1, active);
            lemma_plain_parts(
                h,
                grammar::star_for(k, active),
                grammar::restarred(t, k + 1, active),
            );
        } else {
            lemma_restarred_plain(t, k, active);
            lemma_plain_parts(h, seq![], grammar::restarred(t, k, active));
        }
    }
}

/// A text with the star moved ends as the text does, and starts with no white space if the text
/// does not.
pub proof fn lemma_restarred_ends(s: Seq<char>, k: int, active: Option<int>)
    ensures
        ({
            let r = grammar::restarred(s, k, active);
            &&& r.len() > 0 <==> s.len() > 0
            &&& s.len() > 0 ==> r.last() == s.last()
            &&& s.len() > 0 && !text::white_space(s[0]) ==> !text::white_space(r[0])
        }),
    decreases s.len(),
{
    let r = grammar::restarred(s, k, active);
    let n = text::first_index(s, '[');
    text::lemma_first_index(s, '[');
    if n < s.len() {
        let t = s.skip(n).drop_first();
        lemma_parts(s, k, active);
        lemma_front(s, k, active);
        let j = if grammar::starts_option(s.skip(n)) {
            k + 1
        } else {
            k
        };
        let h = head_of(s);
        lemma_restarred_ends(t, j, active);
        if t.len() > 0 {
            assert(r.last() == grammar::restarred(t, j, active).last());
            assert(t.last() == s.last());
        } else {
            assert(r.last() == '[');
            assert(s.last() == s[n]);
        }
        if h.len() > 0 {
            assert(r[0] == h[0]);
            assert(h[0] == s[0]);
        }
    }
}

/// Every character but stars stays in a text when the star moves.
proof fn lemma_restarred_keeps(s: Seq<char>, k: int, active: Option<int>, c: char)
    requires
        s.contains(c),
        c != '*',
    ensures
        grammar::restarred(s, k, active).contains(c),
    decreases s.len(),
{
    let r = grammar::restarred(s, k, active);
    let n = text::first_index(s, '[');
    text::lemma_first_index(s, '[');
    if n < s.len() {
        let t = s.skip(n).drop_first();
        lemma_parts(s, k, active);
        lemma_front(s, k, active);
        let is_option = grammar::starts_option(s.skip(n));
        let j = if is_option {
            k + 1
        } else {
            k
        };
        let u = grammar::restarred(t, j, active);
        let m = text::first_index(r, '[');
        let i = choose|i: int| 0 <= i < s.len() && s[i] == c;
        if i < n {
            if i >= head_of(s).len() {
                assert(s[i] == '*');
            }
            assert(r[i] == head_of(s)[i]);
            assert(head_of(s)[i] == s[i]);
        } else if i == n {
            assert(r[m] == r.skip(m)[0]);
            assert(r[m] == '[');
        } else {
            assert(t[i - n - 1] == c);
            lemma_restarred_keeps(t, j, active, c);
            let x = choose|x: int| 0 <= x < u.len() && u[x] == c;
            assert(r.skip(m).drop_first()[x] == c);
            assert(r[m + 1 + x] == c);
        }
    }
}

/// A line that continues a list of options does so when the star moves.
proof fn lemma_restarred_bracket(s: Seq<char>, k: int, active: Option<int>)
    requires
        roundtrip::plain(s),
        grammar::is_bracket(s),
    ensures
        grammar::is_bracket(grammar::restarred(s, k, active)),
{
    let r = grammar::restarred(s, k, active);
    let n = if s[0] == '*' {
        1int
    } else {
        0int
    };
    if s[0] == '*' {
        assert(s.drop_first()[0] == s[1]);
    }
    text::lemma_first_index_is(s, '[', n);
    lemma_parts(s, k, active);
    lemma_restarred_plain(s, k, active);
    let m = text::first_index(r, '[');
    text::lemma_first_index(r, '[');
    assert(r.skip(m)[0] == '[');
    assert(r[m] == '[');
    lemma_front(s, k, active);
    if grammar::starts_option(s.skip(n)) {
        lemma_strip_stars(s.take(n));
        if head_of(s).len() > 0 {
            assert(head_of(s).last() == s.take(n)[0]);
        }
    }
    assert(m <= 1);
    if m == 1 {
        if head_of(s).len() > 0 {
            assert(r[0] == head_of(s)[0]);
            assert(head_of(s)[0] == s[0]);
        } else {
            assert(r[0] == grammar::star_for(k, active)[0]);
        }
    }
    let t = if r[0] == '*' {
        r.drop_first()
    } else {
        r
    };
    let old = if s[0] == '*' {
        s.drop_first()
    } else {
        s
    };
    assert(t[0] == '[');
    text::lemma_first_index(old, ']');
    assert(s.contains(']')) by {
        let i = text::first_index(old, ']');
        assert(old[i] == s[i + n]);
    }
    lemma_restarred_keeps(s, k, active, ']');
    text::lemma_first_index(t, ']');
    let close = text::first_index(t, ']');
    assert(close < t.len()) by {
        let i = choose|i: int| 0 <= i < r.len() && r[i] == ']';
        assert(t[i - m] == ']');
    }
    assert(!t.take(close).contains('\n')) by {
        if t.take(close).contains('\n') {
            let i = choose|i: int| 0 <= i < t.take(close).len() && t.take(close)[i] == '\n';
            assert(t[i] == r[i + m]);
            assert(r[i + m] == '\n');
        }
    }
}

// ---------------------------------------------------------------------------
// Options on lines
// ---------------------------------------------------------------------------

/// What a line that is one option as it stands names, stars in front aside.
pub open spec fn free_label(s: Seq<char>) -> Seq<char> {
    text::trim(text::strip_leading(s, '*'))
}

/// `s` is one option as it stands, with a star of its own behind white space.
pub open spec fn has_own_star(s: Seq<char>) -> bool {
    grammar::options_in(s).len() == 0 && free_label(s).len() > 0 && free_label(s)[0] == '*'
}

/// Text without an opening bracket in front does not change the number of options.
proof fn lemma_options_behind(p: Seq<char>, x: Seq<char>)
    requires
        forall|i: int| 0 <= i < p.len() ==> #[trigger] p[i] != '[',
    ensures
        grammar::options_in(p + x).len() == grammar::options_in(x).len(),
{
    let all = p + x;
    let n = text::first_index(x, '[');
    text::lemma_first_index(x, '[');
    assert forall|i: int| 0 <= i < p.len() + n implies #[trigger] all[i] != '[' by {
        if i < p.len() {
            assert(all[i] == p[i]);
        } else {
            assert(all[i] == x[i - p.len()]);
        }
    }
    if n < x.len() {
        assert(all[p.len() + n] == x[n]);
    }
    text::lemma_first_index_is(all, '[', p.len() + n);
    assert(all.skip(p.len() + n) =~= x.skip(n));
}

/// Every character of `s` is a star or white space.
pub open spec fn marks_and_blanks(s: Seq<char>) -> bool {
    forall|i: int| 0 <= i < s.len() ==> #[trigger] s[i] == '*' || text::white_space(s[i])
}

/// `bare` takes off exactly the stars and the white space in front.
pub proof fn lemma_bare(s: Seq<char>)
    ensures
        ({
            let b = grammar::bare(s);
            let n = s.len() - b.len();
            &&& 0 <= n
            &&& b == s.skip(n)
            &&& s == s.take(n) + b
            &&& b.len() > 0 ==> b[0] != '*' && !text::white_space(b[0])
            &&& marks_and_blanks(s.take(n))
        }),
    decreases s.len(),
{
    let b = grammar::bare(s);
    let n = s.len() - b.len();
    if s.len() > 0 && (s[0] == '*' || text::white_space(s[0])) {
        let t = s.drop_first();
        lemma_bare(t);
        assert(t.skip(n - 1) =~= s.skip(n));
        assert forall|i: int| 0 <= i < s.take(n).len() implies #[trigger] s.take(n)[i] == '*'
            || text::white_space(s.take(n)[i]) by {
            if i > 0 {
                assert(t.take(n - 1)[i - 1] == s.take(n)[i]);
            }
        }
    } else {
        assert(s.skip(0) =~= s);
    }
    assert(s.take(n) + s.skip(n) =~= s);
}

/// Stars and white space in front of a text that starts with neither are what `bare` takes off.
pub proof fn lemma_bare_is(p: Seq<char>, b: Seq<char>)
    requires
        marks_and_blanks(p),
        b.len() > 0,
        b[0] != '*',
        !text::white_space(b[0]),
    ensures
        grammar::bare(p + b) == b,
    decreases p.len(),
{
    if p.len() == 0 {
        assert(p + b =~= b);
    } else {
        let t = p.drop_first();
        assert forall|i: int| 0 <= i < t.len() implies #[trigger] t[i] == '*'
            || text::white_space(t[i]) by {
            assert(t[i] == p[i + 1]);
        }
        lemma_bare_is(t, b);
        assert((p + b)[0] == p[0]);
        assert((p + b).drop_first() =~= t + b);
    }
}

/// Stars and white space without the stars are white space of the text.
pub proof fn lemma_starless_blank(s: Seq<char>)
    requires
        marks_and_blanks(s),
    ensures
        text::blank(grammar::starless(s)),
        grammar::starless(grammar::starless(s)) == grammar::starless(s),
        forall|i: int|
            0 <= i < grammar::starless(s).len() ==> s.contains(#[trigger] grammar::starless(s)[i]),
    decreases s.len(),
{
    if s.len() > 0 {
        let t = s.drop_last();
        assert forall|i: int| 0 <= i < t.len() implies #[trigger] t[i] == '*'
            || text::white_space(t[i]) by {
            assert(t[i] == s[i]);
        }
        lemma_starless_blank(t);
        let r = grammar::starless(s);
        let u = grammar::starless(t);
        assert forall|i: int| 0 <= i < r.len() implies s.contains(#[trigger] r[i]) by {
            if i < u.len() {
                assert(r[i] == u[i]);
                assert(t.contains(u[i]));
                let j = choose|j: int| 0 <= j < t.len() && t[j] == u[i];
                assert(s[j] == u[i]);
            } else {
                assert(s[s.len() - 1] == r[i]);
            }
        }
        if s.last() != '*' {
            assert(text::white_space(s[s.len() - 1]));
            assert(r.drop_last() =~= u);
            assert(r.last() == s.last());
        }
    }
}

/// A line that is one option as it stands, with its stars and white space in front taken apart.
proof fn lemma_free(s: Seq<char>, k: int, active: Option<int>)
    requires
        text::trim(s) == s,
        grammar::options_in(s).len() == 0,
        grammar::bare(s).len() > 0,
    ensures
        ({
            let b = grammar::bare(s);
            let gap = grammar::starless(s.take(s.len() - b.len()));
            let r = grammar::restarred_options(s, k, active);
            &&& s.len() > 0
            &&& text::blank(gap)
            &&& r == grammar::star_for(k, active) + gap + b
            &&& b[0] != '*'
            &&& !text::white_space(b[0])
            &&& b.last() == s.last()
            &&& !text::white_space(b.last())
            &&& text::trim(b) == b
            &&& grammar::options_in(b).len() == 0
            &&& grammar::options_in(gap + b).len() == 0
            &&& grammar::options_in(r).len() == 0
            &&& free_label(s).len() > 0
            &&& !has_own_star(s) ==> free_label(s) == b
        }),
{
    let b = grammar::bare(s);
    let p = s.take(s.len() - b.len());
    let gap = grammar::starless(p);
    let star = grammar::star_for(k, active);
    lemma_bare(s);
    lemma_starless_blank(p);
    text::lemma_trim(s);
    assert(b.last() == s.last());
    text::lemma_trimmed(b);
    assert forall|i: int| 0 <= i < p.len() implies #[trigger] p[i] != '[' by {}
    lemma_options_behind(p, b);
    assert forall|i: int| 0 <= i < gap.len() implies #[trigger] gap[i] != '[' by {
        assert(text::white_space(gap[i]));
    }
    lemma_options_behind(gap, b);
    let front = star + gap;
    assert forall|i: int| 0 <= i < front.len() implies #[trigger] front[i] != '[' by {
        if i < star.len() {
            assert(front[i] == star[i]);
        } else {
            assert(front[i] == gap[i - star.len()]);
        }
    }
    lemma_options_behind(front, b);
    lemma_free_label(s);
}

/// The label of a line that is one option as it stands.
#[verifier::spinoff_prover]
#[verifier::rlimit(30)]
pub proof fn lemma_free_label(s: Seq<char>)
    requires
        text::trim(s) == s,
        grammar::options_in(s).len() == 0,
        grammar::bare(s).len() > 0,
    ensures
        free_label(s).len() > 0,
        !has_own_star(s) ==> free_label(s) == grammar::bare(s),
{
    let b = grammar::bare(s);
    let n = s.len() - b.len();
    let free = text::strip_leading(s, '*');
    let label = free_label(s);
    lemma_bare(s);
    text::lemma_trim(s);
    text::lemma_strip_leading(s, '*');
    text::lemma_trim(free);
    let j = s.len() - free.len();
    if j > n {
        assert(s[n] == '*');
        assert(s[n] == b[0]);
    }
    let a = text::leading_space(free);
    assert(free.last() == s.last());
    if label.len() == 0 {
        assert(text::white_space(free[free.len() - 1]));
    }
    text::lemma_leading_space(free);
    let u = text::trim_start(free);
    assert(u.last() == s.last());
    assert(label == u);
    assert(label =~= s.skip(j + a));
    if label[0] != '*' {
        assert(label[0] == s[j + a]);
        if j + a < n {
            assert(s.take(n)[j + a] == s[j + a]);
        }
        if n < j + a {
            assert(s[n] == b[0]);
            if n < j {
                assert(s[n] == '*');
            } else {
                assert(free[n - j] == s[n]);
                assert(text::white_space(free[n - j]));
            }
        }
        assert(label =~= b);
    }
}

/// Between the stars that a line starts with and its option, which has none of its own, is white
/// space.
pub proof fn lemma_blanks_behind_the_mark(s: Seq<char>)
    requires
        text::trim(s) == s,
        grammar::options_in(s).len() == 0,
        grammar::bare(s).len() > 0,
        !has_own_star(s),
    ensures
        ({
            let j = s.len() - text::strip_leading(s, '*').len();
            let n = s.len() - grammar::bare(s).len();
            &&& 0 <= j <= n
            &&& text::blank(s.subrange(j, n))
        }),
{
    let b = grammar::bare(s);
    let free = text::strip_leading(s, '*');
    let j = s.len() - free.len();
    let n = s.len() - b.len();
    lemma_bare(s);
    lemma_free_label(s);
    text::lemma_strip_leading(s, '*');
    text::lemma_trim(free);
    let a = text::leading_space(free);
    assert(a + b.len() <= free.len());
    assert(free_label(s) == b);
    if j > n {
        assert(s[n] == '*');
        assert(s[n] == b[0]);
    }
    let gap = s.subrange(j, n);
    assert forall|i: int| 0 <= i < gap.len() implies text::white_space(#[trigger] gap[i]) by {
        assert(gap[i] == free[i]);
        if i >= a {
            // The label starts at `a` and is as long as what is left, so nothing is behind it.
            text::lemma_trim(s);
            assert(free.last() == s.last());
            if a + b.len() < free.len() {
                assert(text::white_space(free[free.len() - 1]));
            }
        }
    }
}

/// A line without an option of its own and with nothing but stars and white space lists no option,
/// or one that is made of stars.
proof fn lemma_only_marks(s: Seq<char>)
    requires
        text::trim(s) == s,
        grammar::bare(s).len() == 0,
    ensures
        free_label(s).len() > 0 ==> has_own_star(s),
{
    lemma_bare(s);
    let n = s.len() as int;
    assert(s.take(n) =~= s);
    assert forall|i: int| 0 <= i < s.len() implies #[trigger] s[i] != '[' by {
        assert(s.take(n)[i] == s[i]);
    }
    text::lemma_first_index_is(s, '[', n);
    assert(grammar::options_in(s).len() == 0);
    let free = text::strip_leading(s, '*');
    let label = free_label(s);
    text::lemma_strip_leading(s, '*');
    text::lemma_trim(free);
    if label.len() > 0 {
        let a = text::leading_space(free);
        let j = s.len() - free.len();
        assert(label[0] == free[a]);
        assert(free[a] == s[j + a]);
        assert(s.take(n)[j + a] == s[j + a]);
    }
}

/// An option line with the star moved lists the same options, with the star moved. Where it is one
/// option as it stands, stars that the option itself starts with are taken away.
pub proof fn law_moved_star_marks_the_active_option_of_a_line(
    s: Seq<char>,
    k: int,
    active: Option<int>,
)
    requires
        text::trim(s) == s,
    ensures
        ({
            let r = grammar::restarred_options(s, k, active);
            &&& grammar::options_on(r).len() == grammar::options_on(s).len()
            &&& !has_own_star(s) ==> grammar::options_on(r) == rechosen(
                grammar::options_on(s),
                k,
                active,
            )
            &&& grammar::options_in(s).len() == 0 && grammar::bare(s).len() > 0
                ==> grammar::options_on(r) == seq![
                grammar::Choice { star: active == Some(k), label: grammar::bare(s) },
            ]
        }),
{
    let r = grammar::restarred_options(s, k, active);
    if grammar::options_in(s).len() > 0 {
        law_moved_star_marks_the_active_option(s, k, active);
        lemma_restarred_ends(s, k, active);
        text::lemma_trim(s);
        if s.len() > 0 {
            text::lemma_trimmed(r);
        }
        assert(text::trim(r) == r);
    } else if grammar::bare(s).len() > 0 {
        let b = grammar::bare(s);
        let gap = grammar::starless(s.take(s.len() - b.len()));
        lemma_free(s, k, active);
        assert(r.last() == b.last());
        let none = Seq::<char>::empty();
        text::law_trim_ignores_blanks_around(gap, b, none);
        assert(gap + b + none =~= gap + b);
        if active == Some(k) {
            assert(r =~= seq!['*'] + (gap + b));
            text::lemma_trimmed(r);
            assert(r.drop_first() =~= gap + b);
            assert((gap + b).len() > 0 && (gap + b)[0] != '*') by {
                if gap.len() > 0 {
                    assert((gap + b)[0] == gap[0]);
                    assert(text::white_space(gap[0]));
                }
            }
            assert(text::strip_leading(gap + b, '*') == gap + b);
            assert(text::strip_leading(r, '*') == gap + b);
        } else {
            assert(r =~= gap + b);
            assert(text::trim(r) == b);
            assert(text::strip_leading(b, '*') == b);
        }
        assert(grammar::options_on(r) =~= seq![
            grammar::Choice { star: active == Some(k), label: b },
        ]);
        assert(grammar::options_on(s) =~= seq![
            grammar::Choice { star: s[0] == '*', label: free_label(s) },
        ]);
        if !has_own_star(s) {
            assert(grammar::options_on(r) =~= rechosen(grammar::options_on(s), k, active));
        }
    } else {
        assert(r == s);
        lemma_only_marks(s);
        if !has_own_star(s) {
            assert(grammar::options_on(s).len() == 0);
            assert(grammar::options_on(r) =~= rechosen(grammar::options_on(s), k, active));
        }
    }
}

/// Moving the star of an option line again changes nothing.
pub proof fn lemma_restarred_options_again(s: Seq<char>, k: int, active: Option<int>)
    requires
        text::trim(s) == s,
    ensures
        ({
            let t = text::trim_start(grammar::restarred_options(s, k, active));
            grammar::restarred_options(t, k, active) == t
        }),
{
    let r = grammar::restarred_options(s, k, active);
    text::lemma_trim(s);
    text::lemma_trimmed(s);
    if grammar::options_in(s).len() > 0 {
        law_moved_star_marks_the_active_option(s, k, active);
        law_star_moves_from_anywhere(s, k, active, k, active);
        lemma_restarred_ends(s, k, active);
        assert(text::trim_start(r) == r);
    } else if grammar::bare(s).len() > 0 {
        let b = grammar::bare(s);
        let gap = grammar::starless(s.take(s.len() - b.len()));
        lemma_free(s, k, active);
        if active == Some(k) {
            let p = seq!['*'] + gap;
            assert(r =~= p + b);
            assert(text::trim_start(r) == r);
            assert forall|i: int| 0 <= i < p.len() implies #[trigger] p[i] == '*'
                || text::white_space(p[i]) by {
                if i > 0 {
                    assert(p[i] == gap[i - 1]);
                }
            }
            lemma_bare_is(p, b);
            assert(r.take(r.len() - b.len()) =~= p);
            lemma_starless_front(gap);
            assert(grammar::restarred_options(r, k, active) =~= r);
        } else {
            assert(r =~= gap + b);
            text::lemma_leading_space_is(r, gap.len() as int);
            assert(r.skip(gap.len() as int) =~= b);
            let none = Seq::<char>::empty();
            lemma_bare_is(none, b);
            assert(none + b =~= b);
            assert(b.take(0) =~= none);
            assert(grammar::restarred_options(b, k, active) =~= b);
        }
    } else {
        assert(r == s);
    }
}

/// A star in front of white space, without its star.
pub proof fn lemma_starless_front(gap: Seq<char>)
    requires
        text::blank(gap),
    ensures
        grammar::starless(seq!['*'] + gap) == gap,
    decreases gap.len(),
{
    let s = seq!['*'] + gap;
    if gap.len() == 0 {
        assert(s.last() == '*');
        assert(s.drop_last().len() == 0);
        assert(grammar::starless(s.drop_last()) =~= gap);
    } else {
        let t = gap.drop_last();
        assert(text::white_space(gap[gap.len() - 1]));
        assert forall|i: int| 0 <= i < t.len() implies text::white_space(#[trigger] t[i]) by {
            assert(t[i] == gap[i]);
        }
        lemma_starless_front(t);
        assert(s.drop_last() =~= seq!['*'] + t);
        assert(s.last() == gap.last());
        assert(t.push(gap.last()) =~= gap);
    }
}

/// An option line with the star moved is plain and ends as it did; if it continues a list of
/// options, it does so with the star moved.
pub proof fn lemma_restarred_options_text(s: Seq<char>, k: int, active: Option<int>)
    requires
        roundtrip::plain(s),
        text::trim(s) == s,
    ensures
        ({
            let r = grammar::restarred_options(s, k, active);
            &&& roundtrip::plain(r)
            &&& r.len() > 0 <==> s.len() > 0
            &&& s.len() > 0 ==> r.last() == s.last()
            &&& grammar::is_bracket(s) ==> grammar::is_bracket(r)
        }),
{
    let r = grammar::restarred_options(s, k, active);
    text::lemma_trim(s);
    if grammar::options_in(s).len() > 0 {
        lemma_restarred_plain(s, k, active);
        lemma_restarred_ends(s, k, active);
        if grammar::is_bracket(s) {
            lemma_restarred_bracket(s, k, active);
        }
    } else if grammar::bare(s).len() > 0 {
        let b = grammar::bare(s);
        let n = s.len() - b.len();
        let gap = grammar::starless(s.take(n));
        let star = grammar::star_for(k, active);
        lemma_free(s, k, active);
        lemma_free_plain(s, star);
        assert(r.last() == b.last());
        if grammar::is_bracket(s) {
            lemma_free_bracket(s, k, active);
        }
    }
}

proof fn lemma_free_plain(s: Seq<char>, star: Seq<char>)
    requires
        roundtrip::plain(s),
        grammar::bare(s).len() > 0,
        star.len() == 0 || star == seq!['*'],
    ensures
        roundtrip::plain(
            star + grammar::starless(s.take(s.len() - grammar::bare(s).len())) + grammar::bare(s),
        ),
{
    let b = grammar::bare(s);
    let n = s.len() - b.len();
    let gap = grammar::starless(s.take(n));
    lemma_bare(s);
    lemma_starless_blank(s.take(n));
    assert(b =~= s.subrange(n, s.len() as int));
    roundtrip::lemma_plain_part(s, n, s.len() as int);
    assert(roundtrip::plain(star)) by {
        assert(star.len() <= 1);
    }
    assert(roundtrip::plain(gap)) by {
        assert forall|i: int| 0 <= i < gap.len() implies #[trigger] gap[i] != '\n' by {
            assert(s.take(n).contains(gap[i]));
            let j = choose|j: int| 0 <= j < s.take(n).len() && s.take(n)[j] == gap[i];
            assert(s[j] == gap[i]);
        }
        assert forall|i: int| 0 <= i < gap.len() - 1 implies !(#[trigger] gap[i] == '/' && gap[i
            + 1] == '/') by {
            assert(text::white_space(gap[i]));
        }
    }
    if gap.len() > 0 {
        assert(text::white_space(gap[0]));
        assert(text::white_space(gap[gap.len() - 1]));
    }
    roundtrip::lemma_plain_join(star, gap);
    if (star + gap).len() > 0 {
        if gap.len() > 0 {
            assert((star + gap).last() == gap.last());
        } else {
            assert((star + gap).last() == star.last());
        }
    }
    roundtrip::lemma_plain_join(star + gap, b);
}

proof fn lemma_free_bracket(s: Seq<char>, k: int, active: Option<int>)
    requires
        text::trim(s) == s,
        grammar::options_in(s).len() == 0,
        grammar::is_bracket(s),
    ensures
        grammar::is_bracket(grammar::restarred_options(s, k, active)),
{
    let r = grammar::restarred_options(s, k, active);
    let t = if s[0] == '*' {
        s.drop_first()
    } else {
        s
    };
    let p = if s[0] == '*' {
        seq!['*']
    } else {
        seq![]
    };
    assert(t[0] == '[');
    assert(p + t =~= s);
    lemma_bare_is(p, t);
    assert(s.take(p.len() as int) =~= p);
    lemma_starless_front(seq![]);
    assert(seq!['*'] + Seq::<char>::empty() =~= seq!['*']);
    assert(grammar::starless(p) =~= seq![]);
    if active == Some(k) {
        assert(r =~= seq!['*'] + t);
        assert(r.drop_first() =~= t);
    } else {
        assert(r =~= t);
    }
}

// ---------------------------------------------------------------------------
// Lists of options
// ---------------------------------------------------------------------------

/// `label` is a hexadecimal number in square brackets and a text behind it, without another opening
/// bracket, and ends neither in white space nor in a star.
pub open spec fn numbered(label: Seq<char>, number: Seq<char>, name: Seq<char>) -> bool {
    &&& label == seq!['['] + number + seq![']'] + name
    &&& number.len() > 0
    &&& text::all_digits(number, 16)
    &&& !name.contains('[')
    &&& name.len() > 0 ==> !text::white_space(name.last()) && name.last() != '*'
}

/// `label` has a number in front.
pub open spec fn has_number(label: Seq<char>) -> bool {
    exists|number: Seq<char>, name: Seq<char>| numbered(label, number, name)
}

/// Every option has a number in front.
pub open spec fn all_numbered(cs: Seq<grammar::Choice>) -> bool {
    forall|i: int| 0 <= i < cs.len() ==> has_number((#[trigger] cs[i]).label)
}

/// The star in front of an option that is marked.
pub open spec fn mark_of(c: grammar::Choice) -> Seq<char> {
    if c.star {
        seq!['*']
    } else {
        seq![]
    }
}

/// The options one behind the other, with `gap` between them and a star in front of those that are
/// marked.
pub open spec fn list_of(cs: Seq<grammar::Choice>, gap: Seq<char>) -> Seq<char>
    decreases cs.len(),
{
    if cs.len() == 0 {
        seq![]
    } else {
        mark_of(cs[0]) + cs[0].label + if cs.len() == 1 {
            seq![]
        } else {
            gap + list_of(cs.drop_first(), gap)
        }
    }
}

/// What a numbered option is made of.
proof fn lemma_numbered(label: Seq<char>, behind: Seq<char>)
    requires
        has_number(label),
    ensures
        label.len() >= 3,
        label[0] == '[',
        label == seq!['['] + label.drop_first(),
        forall|i: int| 1 <= i < label.len() ==> #[trigger] label[i] != '[',
        !text::white_space(label.last()),
        label.last() != '*',
        grammar::starts_option(label + behind),
{
    let (number, name) = choose|number: Seq<char>, name: Seq<char>| numbered(label, number, name);
    assert forall|i: int| 1 <= i < label.len() implies #[trigger] label[i] != '[' by {
        if i <= number.len() {
            assert(label[i] == number[i - 1]);
            assert(0 <= text::digit_value(number[i - 1]) < 16);
        } else if i > number.len() + 1 {
            assert(label[i] == name[i - number.len() - 2]);
        }
    }
    if name.len() > 0 {
        assert(label.last() == name.last());
    } else {
        assert(label.last() == ']');
    }
    assert(label =~= seq!['['] + label.drop_first());
    let s = label + behind;
    let t = s.drop_first();
    let n = number.len() as int;
    assert forall|i: int| 0 <= i < n implies grammar::is_hex(#[trigger] t[i]) by {
        assert(t[i] == number[i]);
        assert(0 <= text::digit_value(number[i]) < 16);
    }
    assert(t[n] == ']');
    grammar::lemma_hex_run_is(t, n);
    assert(s[1 + n] == ']');
}

/// What stands behind the first of several options.
spec fn behind_first(cs: Seq<grammar::Choice>, gap: Seq<char>) -> Seq<char> {
    if cs.len() == 1 {
        seq![]
    } else {
        gap + list_of(cs.drop_first(), gap)
    }
}

/// What stands between the bracket of the first option and the next option.
spec fn first_inside(cs: Seq<grammar::Choice>, gap: Seq<char>) -> Seq<char> {
    cs[0].label.drop_first() + if cs.len() == 1 {
        seq![]
    } else {
        gap
    }
}

/// The rest of a list is a list.
proof fn lemma_rest_numbered(cs: Seq<grammar::Choice>)
    requires
        cs.len() > 0,
        all_numbered(cs),
    ensures
        all_numbered(cs.drop_first()),
{
    let t = cs.drop_first();
    assert forall|i: int| 0 <= i < t.len() implies has_number((#[trigger] t[i]).label) by {
        assert(t[i] == cs[i + 1]);
    }
}

/// What stands inside the first option holds no bracket and ends in no star.
proof fn lemma_first_inside(cs: Seq<grammar::Choice>, gap: Seq<char>)
    requires
        cs.len() > 0,
        all_numbered(cs),
        text::blank(gap),
    ensures
        forall|i: int|
            0 <= i < first_inside(cs, gap).len() ==> #[trigger] first_inside(cs, gap)[i] != '[',
        first_inside(cs, gap).len() > 0,
        first_inside(cs, gap).last() != '*',
        (cs[0].label + behind_first(cs, gap)).drop_first() == first_inside(cs, gap) + list_of(
            cs.drop_first(),
            gap,
        ),
{
    let l = cs[0].label;
    let between: Seq<char> = if cs.len() == 1 {
        seq![]
    } else {
        gap
    };
    let more = first_inside(cs, gap);
    assert(more == l.drop_first() + between);
    assert(has_number(cs[0].label));
    lemma_numbered(l, seq![]);
    assert forall|i: int| 0 <= i < more.len() implies #[trigger] more[i] != '[' by {
        if i < l.len() - 1 {
            assert(more[i] == l[i + 1]);
        } else {
            assert(more[i] == between[i - (l.len() - 1)]);
        }
    }
    if between.len() > 0 {
        assert(more.last() == between.last());
        assert(text::white_space(gap[gap.len() - 1]));
    } else {
        assert(more.last() == l.last());
    }
    let rest = l + behind_first(cs, gap);
    if cs.len() == 1 {
        assert(cs.drop_first().len() == 0);
        assert(list_of(cs.drop_first(), gap) =~= seq![]);
        assert(rest.drop_first() =~= more + list_of(cs.drop_first(), gap));
    } else {
        assert(rest.drop_first() =~= more + list_of(cs.drop_first(), gap));
    }
}

/// Where the first option of a list starts.
proof fn lemma_first_listed(p: Seq<char>, cs: Seq<grammar::Choice>, gap: Seq<char>)
    requires
        cs.len() > 0,
        all_numbered(cs),
        forall|i: int| 0 <= i < p.len() ==> #[trigger] p[i] != '[',
        p.len() > 0 ==> p.last() != '*',
    ensures
        ({
            let s = p + list_of(cs, gap);
            let n = (p.len() + mark_of(cs[0]).len()) as int;
            &&& n < s.len()
            &&& text::first_index(s, '[') == n
            &&& grammar::strip_stars(s.take(n)) == p
            &&& (n > 0 && s[n - 1] == '*') == cs[0].star
            &&& s.skip(n) == cs[0].label + behind_first(cs, gap)
            &&& grammar::starts_option(s.skip(n))
        }),
{
    let s = p + list_of(cs, gap);
    let l = cs[0].label;
    let mark = mark_of(cs[0]);
    let r = behind_first(cs, gap);
    let n = (p.len() + mark.len()) as int;
    assert(has_number(cs[0].label));
    lemma_numbered(l, r);
    assert(s =~= p + mark + (l + r));
    assert(s.skip(n) =~= l + r);
    assert(s[n] == l[0]);
    assert forall|i: int| 0 <= i < n implies #[trigger] s[i] != '[' by {
        if i < p.len() {
            assert(s[i] == p[i]);
        } else {
            assert(s[i] == mark[i - p.len()]);
        }
    }
    text::lemma_first_index_is(s, '[', n);
    let front = s.take(n);
    assert(front =~= p + mark);
    if p.len() > 0 {
        assert(front[p.len() - 1] == p.last());
    }
    assert forall|i: int| p.len() <= i < front.len() implies #[trigger] front[i] == '*' by {
        assert(front[i] == mark[i - p.len()]);
    }
    lemma_strip_stars_is(front, p.len() as int);
    assert(front.take(p.len() as int) =~= p);
    if mark.len() > 0 {
        assert(s[n - 1] == mark[0]);
    } else if n > 0 {
        assert(s[n - 1] == p[n - 1]);
    }
}

/// The label of the first option of a list ends where the next one starts.
#[verifier::spinoff_prover]
proof fn lemma_first_label(cs: Seq<grammar::Choice>, gap: Seq<char>)
    requires
        cs.len() > 0,
        all_numbered(cs),
        text::blank(gap),
    ensures
        grammar::label_at(cs[0].label + behind_first(cs, gap)) == cs[0].label,
{
    let l = cs[0].label;
    let rest = l + behind_first(cs, gap);
    let t = rest.drop_first();
    let none = Seq::<char>::empty();
    let more = first_inside(cs, gap);
    assert(has_number(cs[0].label));
    lemma_numbered(l, none);
    lemma_first_inside(cs, gap);
    text::lemma_trimmed(l);
    if cs.len() == 1 {
        assert(rest =~= l);
        assert(cs.drop_first().len() == 0);
        assert(t =~= more);
        text::lemma_first_index_is(t, '[', t.len() as int);
        assert(rest.take(rest.len() as int) =~= l);
        assert(rest.skip(rest.len() as int).len() == 0);
    } else {
        let tail = cs.drop_first();
        lemma_rest_numbered(cs);
        let mark = mark_of(tail[0]);
        lemma_first_listed(none, tail, gap);
        let list = list_of(tail, gap);
        assert(none + list =~= list);
        let k = mark.len() as int;
        text::lemma_first_index(list, '[');
        let n = more.len() + k;
        assert forall|i: int| 0 <= i < n implies #[trigger] t[i] != '[' by {
            if i < more.len() {
                assert(t[i] == more[i]);
            } else {
                assert(t[i] == list[i - more.len()]);
            }
        }
        assert(t[n] == list[k]);
        text::lemma_first_index_is(t, '[', n);
        assert(rest.skip(1 + n) =~= list.skip(k));
        let front = rest.take(1 + n);
        let lg = l + gap;
        assert(front =~= lg + list.take(k)) by {
            assert(rest =~= lg + list);
        }
        let m = lg.len() as int;
        assert(front[m - 1] == lg[m - 1]);
        if gap.len() > 0 {
            assert(lg[m - 1] == gap[gap.len() - 1]);
            assert(text::white_space(gap[gap.len() - 1]));
        } else {
            assert(lg[m - 1] == l.last());
        }
        assert forall|i: int| m <= i < front.len() implies #[trigger] front[i] == '*' by {
            assert(front[i] == list[i - m]);
            assert(list[i - m] == mark[i - m]);
        }
        lemma_strip_stars_is(front, m);
        assert(front.take(m) =~= none + l + gap);
        text::law_trim_ignores_blanks_around(none, l, gap);
    }
}

proof fn lemma_list_is_read(p: Seq<char>, cs: Seq<grammar::Choice>, gap: Seq<char>)
    requires
        all_numbered(cs),
        text::blank(gap),
        forall|i: int| 0 <= i < p.len() ==> #[trigger] p[i] != '[',
        p.len() > 0 ==> p.last() != '*',
    ensures
        grammar::options_in(p + list_of(cs, gap)) == cs,
    decreases cs.len(),
{
    let s = p + list_of(cs, gap);
    if cs.len() == 0 {
        assert(s =~= p);
        text::lemma_first_index_is(s, '[', s.len() as int);
        assert(cs =~= seq![]);
    } else {
        lemma_first_listed(p, cs, gap);
        lemma_first_label(cs, gap);
        lemma_first_inside(cs, gap);
        lemma_rest_numbered(cs);
        lemma_list_is_read(first_inside(cs, gap), cs.drop_first(), gap);
        let first = grammar::Choice { star: cs[0].star, label: cs[0].label };
        assert(seq![first] + cs.drop_first() =~= cs);
    }
}

/// A list of numbered options is read as those options, each with its text, and marked if a star
/// stands in front of it.
pub proof fn law_list_of_options_is_read(cs: Seq<grammar::Choice>, gap: Seq<char>)
    requires
        all_numbered(cs),
        text::blank(gap),
        cs.len() > 0,
    ensures
        grammar::options_in(list_of(cs, gap)) == cs,
        grammar::options_on(list_of(cs, gap)) == cs,
{
    let none = Seq::<char>::empty();
    let s = list_of(cs, gap);
    assert(none + s =~= s);
    lemma_list_is_read(none, cs, gap);
    lemma_list_ends(cs, gap);
    text::lemma_trimmed(s);
}

/// A list of numbered options neither starts nor ends in white space.
proof fn lemma_list_ends(cs: Seq<grammar::Choice>, gap: Seq<char>)
    requires
        all_numbered(cs),
        cs.len() > 0,
    ensures
        list_of(cs, gap).len() > 0,
        !text::white_space(list_of(cs, gap)[0]),
        !text::white_space(list_of(cs, gap).last()),
        list_of(cs, gap)[0] == '[' || list_of(cs, gap)[0] == '*',
    decreases cs.len(),
{
    let s = list_of(cs, gap);
    let r = behind_first(cs, gap);
    assert(has_number(cs[0].label));
    lemma_numbered(cs[0].label, r);
    if cs.len() > 1 {
        lemma_rest_numbered(cs);
        lemma_list_ends(cs.drop_first(), gap);
        assert(s.last() == list_of(cs.drop_first(), gap).last());
    } else {
        assert(s.last() == cs[0].label.last());
    }
    if cs[0].star {
        assert(s[0] == '*');
    } else {
        assert(s[0] == cs[0].label[0]);
    }
}

/// A list with the star moved, from its first option on.
proof fn lemma_rechosen_rest(
    cs: Seq<grammar::Choice>,
    gap: Seq<char>,
    k: int,
    active: Option<int>,
)
    requires
        cs.len() > 0,
        has_number(cs[0].label),
    ensures
        list_of(rechosen(cs, k, active), gap) == grammar::star_for(k, active) + seq!['['] + (
        first_inside(cs, gap) + list_of(rechosen(cs.drop_first(), k + 1, active), gap)),
{
    let ds = rechosen(cs, k, active);
    let tail = cs.drop_first();
    let star = grammar::star_for(k, active);
    let l = cs[0].label;
    lemma_numbered(l, seq![]);
    let rest = rechosen(tail, k + 1, active);
    assert forall|i: int| 0 <= i < tail.len() implies #[trigger] ds.drop_first()[i] == rest[i] by {
        assert(tail[i] == cs[i + 1]);
    }
    assert(ds.drop_first() =~= rest);
    assert(mark_of(ds[0]) =~= star);
    assert(ds[0].label == l);
    let first = star + seq!['['];
    if cs.len() == 1 {
        assert(rest.len() == 0);
        assert(list_of(rest, gap) =~= seq![]);
        assert(list_of(ds, gap) =~= star + l);
        assert(first_inside(cs, gap) + list_of(rest, gap) =~= l.drop_first());
        assert(star + l =~= first + l.drop_first());
    } else {
        assert(list_of(ds, gap) =~= star + l + (gap + list_of(rest, gap)));
        assert(star + l + (gap + list_of(rest, gap)) =~= first + (l.drop_first() + gap + list_of(
            rest,
            gap,
        )));
    }
}

proof fn lemma_star_moves_in_a_list(
    p: Seq<char>,
    cs: Seq<grammar::Choice>,
    gap: Seq<char>,
    k: int,
    active: Option<int>,
)
    requires
        all_numbered(cs),
        text::blank(gap),
        forall|i: int| 0 <= i < p.len() ==> #[trigger] p[i] != '[',
        p.len() > 0 ==> p.last() != '*',
    ensures
        grammar::restarred(p + list_of(cs, gap), k, active) == p + list_of(
            rechosen(cs, k, active),
            gap,
        ),
    decreases cs.len(),
{
    let s = p + list_of(cs, gap);
    let ds = rechosen(cs, k, active);
    if cs.len() == 0 {
        assert(s =~= p);
        text::lemma_first_index_is(s, '[', s.len() as int);
        assert(p + list_of(ds, gap) =~= p);
    } else {
        lemma_first_listed(p, cs, gap);
        lemma_first_inside(cs, gap);
        lemma_rest_numbered(cs);
        assert(has_number(cs[0].label));
        lemma_numbered(cs[0].label, seq![]);
        let more = first_inside(cs, gap);
        let tail = cs.drop_first();
        lemma_star_moves_in_a_list(more, tail, gap, k + 1, active);
        lemma_rechosen_rest(cs, gap, k, active);
        let star = grammar::star_for(k, active);
        let rest = list_of(rechosen(tail, k + 1, active), gap);
        assert(p + star + seq!['['] + (more + rest) =~= p + (star + seq!['['] + (more + rest)));
    }
}

/// In a list of numbered options another choice moves the star: the written list is the list with
/// the star in front of the active option, and of no other.
pub proof fn law_star_moves_in_a_list(
    cs: Seq<grammar::Choice>,
    gap: Seq<char>,
    k: int,
    active: Option<int>,
)
    requires
        all_numbered(cs),
        text::blank(gap),
        cs.len() > 0,
    ensures
        grammar::restarred_options(list_of(cs, gap), k, active) == list_of(
            rechosen(cs, k, active),
            gap,
        ),
        forall|i: int|
            0 <= i < cs.len() ==> (#[trigger] rechosen(cs, k, active)[i]).label == cs[i].label
                && rechosen(cs, k, active)[i].star == (active == Some(k + i)),
{
    let none = Seq::<char>::empty();
    let s = list_of(cs, gap);
    law_list_of_options_is_read(cs, gap);
    lemma_star_moves_in_a_list(none, cs, gap, k, active);
    assert(none + s =~= s);
    assert(none + list_of(rechosen(cs, k, active), gap) =~= list_of(
        rechosen(cs, k, active),
        gap,
    ));
}

/// An option without a bracketed number is read as it stands, and marked if a star stands in front
/// of it.
pub proof fn law_single_option_is_read(label: Seq<char>)
    requires
        text::trim(label) == label,
        !label.contains('['),
        label.len() > 0,
        label[0] != '*',
    ensures
        grammar::options_on(label) == seq![grammar::Choice { star: false, label }],
        grammar::options_on(seq!['*'] + label) == seq![grammar::Choice { star: true, label }],
        grammar::options_on(Seq::empty()).len() == 0,
{
    let marked = seq!['*'] + label;
    let none = Seq::<char>::empty();
    text::lemma_trim(label);
    assert forall|i: int| 0 <= i < marked.len() implies #[trigger] marked[i] != '[' by {
        if i > 0 {
            assert(marked[i] == label[i - 1]);
        }
    }
    text::lemma_first_index_is(label, '[', label.len() as int);
    text::lemma_first_index_is(marked, '[', marked.len() as int);
    text::lemma_first_index_is(none, '[', 0);
    assert(marked.last() == label.last());
    text::lemma_trimmed(marked);
    text::lemma_trimmed(none);
    assert(marked.drop_first() =~= label);
    assert(text::strip_leading(label, '*') == label);
    assert(text::strip_leading(marked, '*') == label);
    assert(text::strip_leading(none, '*') == none);
}

/// An option starts with at least one hexadecimal digit in square brackets, and with nothing else.
pub proof fn law_where_options_start(s: Seq<char>)
    ensures
        grammar::starts_option(s) <==> exists|number: Seq<char>, rest: Seq<char>|
            s == #[trigger] (seq!['['] + number + seq![']'] + rest) && number.len() > 0
                && text::all_digits(number, 16),
{
    if grammar::starts_option(s) {
        let t = s.drop_first();
        let h = grammar::hex_run(t);
        grammar::lemma_hex_run(t);
        let number = t.take(h);
        let rest = s.skip(2 + h);
        assert(s =~= seq!['['] + number + seq![']'] + rest) by {
            assert forall|i: int| 0 <= i < s.len() implies s[i] == (seq!['['] + number + seq![']']
                + rest)[i] by {
                if 0 < i <= h {
                    assert(number[i - 1] == t[i - 1]);
                }
            }
        }
        assert forall|i: int| 0 <= i < number.len() implies 0 <= text::digit_value(
            #[trigger] number[i],
        ) < 16 by {
            assert(grammar::is_hex(t[i]));
        }
    }
    if exists|number: Seq<char>, rest: Seq<char>|
        s == #[trigger] (seq!['['] + number + seq![']'] + rest) && number.len() > 0
            && text::all_digits(number, 16) {
        let (number, rest) = choose|number: Seq<char>, rest: Seq<char>|
            s == #[trigger] (seq!['['] + number + seq![']'] + rest) && number.len() > 0
                && text::all_digits(number, 16);
        let none = Seq::<char>::empty();
        let label = seq!['['] + number + seq![']'] + none;
        assert(numbered(label, number, none));
        lemma_numbered(label, rest);
        assert(s =~= label + rest);
    }
}

} // verus!
