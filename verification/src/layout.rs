//! What writing settings into a dump leaves as it is.

use vstd::prelude::*;

use crate::grammar;
use crate::nvram;
use crate::nvram::SettingView;
use crate::roundtrip;
use crate::stars;
use crate::text;

verus! {

// ---------------------------------------------------------------------------
// The parts of a line
// ---------------------------------------------------------------------------

/// White space in front does not matter to what follows it.
proof fn lemma_trim_start_behind(a: Seq<char>, s: Seq<char>)
    requires
        text::blank(a),
    ensures
        text::trim_start(a + s) == text::trim_start(s),
{
    let t = a + s;
    text::lemma_leading_space(s);
    let n = a.len() + text::leading_space(s);
    assert forall|i: int| 0 <= i < n implies text::white_space(#[trigger] t[i]) by {
        if i < a.len() {
            assert(t[i] == a[i]);
        } else {
            assert(t[i] == s[i - a.len()]);
        }
    }
    if n < t.len() {
        assert(t[n] == s[text::leading_space(s)]);
    }
    text::lemma_leading_space_is(t, n);
    assert(t.skip(n) =~= s.skip(text::leading_space(s)));
}

/// `s` ends in no white space.
spec fn ends_solid(s: Seq<char>) -> bool {
    s.len() > 0 ==> !text::white_space(s.last())
}

/// No comment starts where `s` and `z` meet.
spec fn apart(s: Seq<char>, z: Seq<char>) -> bool {
    s.len() > 0 && z.len() > 0 ==> !(s.last() == '/' && z[0] == '/')
}

/// What a line made of these parts states.
proof fn lemma_joined(front: Seq<char>, gap: Seq<char>, body: Seq<char>, z: Seq<char>)
    requires
        roundtrip::plain(front),
        ends_solid(front),
        front.len() > 0 ==> front.last() != '/',
        text::blank(gap),
        roundtrip::plain(gap),
        roundtrip::plain(body),
        ends_solid(body),
        grammar::is_comment_tail(z),
        apart(body, z),
    ensures
        grammar::strip_comment(front + gap + body + z) == if body.len() == 0 {
            front
        } else {
            front + gap + body
        },
{
    let all = front + gap + body + z;
    if gap.len() > 0 {
        assert(text::white_space(gap[0]));
        assert(text::white_space(gap[gap.len() - 1]));
    }
    assert(grammar::strip_comment(z) =~= seq![]);
    if body.len() == 0 {
        let x = gap + z;
        lemma_trim_start_behind(gap, z);
        assert(grammar::strip_comment(x) =~= seq![]);
        assert(all =~= front + x);
        if front.len() > 0 {
            roundtrip::lemma_strip_behind(front, x);
            assert(front + seq![] =~= front);
        } else {
            assert(all =~= x);
            assert(grammar::strip_comment(all) =~= front);
        }
    } else {
        let p = front + gap + body;
        roundtrip::lemma_plain_join(front, gap);
        roundtrip::lemma_plain_join(front + gap, body);
        assert(p.last() == body.last());
        roundtrip::lemma_strip_behind(p, z);
        assert(p + seq![] =~= p);
    }
}

/// The parts of a line from `q` on.
proof fn lemma_parts(line: Seq<char>, q: int)
    requires
        !line.contains('\n'),
        0 <= q <= grammar::strip_comment(line).len(),
    ensures
        ({
            let p = nvram::body_start(line, q);
            let b = nvram::body_of(line, q);
            let z = nvram::tail_of(line);
            &&& q <= p <= grammar::strip_comment(line).len() <= line.len()
            &&& p + b.len() == grammar::strip_comment(line).len()
            &&& text::blank(line.subrange(q, p))
            &&& roundtrip::plain(line.subrange(q, p))
            &&& roundtrip::plain(line.take(q))
            &&& roundtrip::plain(b)
            &&& text::trim(b) == b
            &&& ends_solid(b)
            &&& apart(b, z)
            &&& grammar::is_comment_tail(z)
            &&& line.take(q) + line.subrange(q, p) == line.take(p)
            &&& line.take(p) + b == grammar::strip_comment(line)
            &&& line.take(p) + b + z == line
        }),
{
    let s = grammar::strip_comment(line);
    let p = nvram::body_start(line, q);
    let b = nvram::body_of(line, q);
    let z = nvram::tail_of(line);
    roundtrip::lemma_strip_comment(line);
    roundtrip::lemma_comment_tail(line);
    text::lemma_leading_space(s.skip(q));
    let gap = line.subrange(q, p);
    assert(gap =~= s.subrange(q, p));
    assert forall|i: int| 0 <= i < gap.len() implies text::white_space(#[trigger] gap[i]) by {
        assert(gap[i] == s.skip(q)[i]);
    }
    roundtrip::lemma_plain_part(s, q, p);
    assert(line.take(q) =~= s.subrange(0, q));
    roundtrip::lemma_plain_part(s, 0, q);
    assert(b =~= s.subrange(p, s.len() as int));
    roundtrip::lemma_plain_part(s, p, s.len() as int);
    if b.len() > 0 {
        assert(b.last() == s.last());
        assert(b[0] == s.skip(q)[p - q]);
    }
    text::lemma_trimmed(b);
    assert(line.take(q) + gap =~= line.take(p));
    assert(line.take(p) + b =~= s);
    assert(s + z =~= line);
    if z.len() > 0 {
        assert(z[0] == line[s.len() as int]);
    }
}

// ---------------------------------------------------------------------------
// Lines with a key
// ---------------------------------------------------------------------------

/// The line is about options or a value.
spec fn is_key_line(line: Seq<char>) -> bool {
    let kind = grammar::kind_of(grammar::statement(line));
    kind is Options || kind is Value
}

/// What a line states whose key is that of `line`.
proof fn lemma_key_statement(line: Seq<char>, x: Seq<char>)
    requires
        !line.contains('\n'),
        !x.contains('\n'),
        is_key_line(line),
    ensures
        ({
            let q = nvram::key_end(line);
            let h = roundtrip::header_of(grammar::statement(line));
            let y = grammar::strip_comment(x);
            &&& 0 < q <= grammar::strip_comment(line).len() <= line.len()
            &&& line[q - 1] == '='
            &&& roundtrip::plain(line.take(q))
            &&& grammar::strip_comment(line.take(q) + x) == line.take(q) + y
            &&& grammar::statement(line.take(q) + x) == h + y
            &&& nvram::key_end(line.take(q) + x) == q
        }),
{
    let q = nvram::key_end(line);
    let s = grammar::strip_comment(line);
    let st = grammar::statement(line);
    let h = roundtrip::header_of(st);
    let y = grammar::strip_comment(x);
    nvram::lemma_key_end(line);
    roundtrip::lemma_strip_comment(line);
    text::lemma_first_index(line, '=');
    lemma_parts(line, q);
    let front = line.take(q);
    assert(front.last() == '=');
    roundtrip::lemma_strip_behind(front, x);
    text::lemma_trim(s);
    let a = text::leading_space(s);
    assert(s[q - 1] == line[q - 1]);
    assert(a < q) by {
        if q <= a {
            assert(text::white_space(s[q - 1]));
        }
    }
    assert(a + st.len() > q - 1) by {
        if a + st.len() <= q - 1 {
            assert(text::white_space(s[q - 1]));
        }
    }
    assert forall|i: int| 0 <= i < q - 1 - a implies #[trigger] st[i] != '=' by {
        assert(st[i] == s[a + i]);
        assert(s[a + i] == line[a + i]);
    }
    assert(st[q - 1 - a] == s[q - 1]);
    text::lemma_first_index_is(st, '=', q - 1 - a);
    assert(h =~= line.subrange(a, q)) by {
        assert forall|i: int| 0 <= i < h.len() implies #[trigger] h[i] == line[a + i] by {
            assert(h[i] == st[i]);
            assert(st[i] == s[a + i]);
        }
    }
    let t = front + y;
    roundtrip::lemma_comment_tail(x);
    assert forall|i: int| 0 <= i < a implies text::white_space(#[trigger] t[i]) by {
        assert(t[i] == s[i]);
    }
    assert(t[a] == line[a]);
    assert(s[a] == line[a]);
    assert(!text::white_space(s[a])) by {
        assert(st[0] == s[a]);
    }
    if y.len() > 0 {
        assert(t.last() == y.last());
    } else {
        assert(t.last() == front.last());
    }
    text::lemma_trim_is(t, a, t.len() as int);
    assert(t.subrange(a, t.len() as int) =~= h + y);
    let all = front + x;
    assert forall|i: int| 0 <= i < q - 1 implies #[trigger] all[i] != '=' by {
        assert(all[i] == line[i]);
    }
    assert(all[q - 1] == line[q - 1]);
    text::lemma_first_index_is(all, '=', q - 1);
}

/// The kind of a statement with this text behind its key.
spec fn with_text(kind: grammar::Kind, x: Seq<char>) -> grammar::Kind {
    if kind is Options {
        grammar::Kind::Options(x)
    } else {
        grammar::Kind::Value(x)
    }
}

/// A line keeps its key, and so its kind, when what stands behind the key is replaced.
proof fn lemma_key_line(line: Seq<char>, body: Seq<char>, z: Seq<char>)
    requires
        !line.contains('\n'),
        is_key_line(line),
        roundtrip::plain(body),
        ends_solid(body),
        grammar::is_comment_tail(z),
        !z.contains('\n'),
        apart(body, z),
    ensures
        ({
            let q = nvram::key_end(line);
            let p = nvram::body_start(line, q);
            let out = line.take(p) + body + z;
            let kind = grammar::kind_of(grammar::statement(line));
            &&& 0 < q <= p <= grammar::strip_comment(line).len() <= line.len()
            &&& !out.contains('\n')
            &&& nvram::key_end(out) == q
            &&& grammar::strip_comment(out) == if body.len() == 0 {
                line.take(q)
            } else {
                line.take(p) + body
            }
            &&& grammar::kind_of(grammar::statement(out)) == with_text(kind, text::trim(body))
        }),
{
    let q = nvram::key_end(line);
    nvram::lemma_key_end(line);
    lemma_parts(line, q);
    let p = nvram::body_start(line, q);
    let gap = line.subrange(q, p);
    let out = line.take(p) + body + z;
    let x = gap + body + z;
    assert(!x.contains('\n')) by {
        if x.contains('\n') {
            let i = choose|i: int| 0 <= i < x.len() && x[i] == '\n';
            if i < gap.len() {
                assert(x[i] == gap[i]);
            } else if i < gap.len() + body.len() {
                assert(x[i] == body[i - gap.len()]);
            } else {
                assert(x[i] == z[i - gap.len() - body.len()]);
                assert(z.contains('\n'));
            }
        }
    }
    lemma_key_statement(line, x);
    assert(out =~= line.take(q) + x);
    assert(!out.contains('\n')) by {
        if out.contains('\n') {
            let i = choose|i: int| 0 <= i < out.len() && out[i] == '\n';
            if i < q {
                assert(out[i] == line[i]);
                assert(line.contains('\n'));
            } else {
                assert(out[i] == x[i - q]);
                assert(x.contains('\n'));
            }
        }
    }
    let none = Seq::<char>::empty();
    assert(roundtrip::plain(none));
    lemma_joined(none, gap, body, z);
    assert(none + gap + body + z =~= x);
    let y = grammar::strip_comment(x);
    assert(y =~= if body.len() == 0 {
        none
    } else {
        gap + body
    });
    assert(line.take(q) + (gap + body) =~= line.take(p) + body);
    assert(line.take(q) + none =~= line.take(q));
    assert(!y.contains('\n')) by {
        roundtrip::lemma_strip_comment(x);
    }
    roundtrip::lemma_value_after(y);
    assert(text::trim(y) == text::trim(body)) by {
        text::law_trim_ignores_blanks_around(gap, body, none);
        assert(gap + body + none =~= gap + body);
        if body.len() == 0 {
            assert(body =~= none);
        }
    }
    let st = grammar::statement(line);
    if grammar::kind_of(st) is Options {
        roundtrip::lemma_options_header(st, y);
    } else {
        roundtrip::lemma_value_header(st, y);
    }
}

/// What a line states behind its key is the text of its kind.
pub proof fn lemma_key_text(line: Seq<char>)
    requires
        !line.contains('\n'),
        grammar::kind_of(grammar::statement(line)) is Options || grammar::kind_of(
            grammar::statement(line),
        ) is Value,
    ensures
        match grammar::kind_of(grammar::statement(line)) {
            grammar::Kind::Options(v) => v == nvram::body_of(line, nvram::key_end(line)),
            grammar::Kind::Value(v) => v == nvram::body_of(line, nvram::key_end(line)),
            _ => true,
        },
{
    let q = nvram::key_end(line);
    nvram::lemma_key_end(line);
    lemma_parts(line, q);
    let b = nvram::body_of(line, q);
    let z = nvram::tail_of(line);
    lemma_tail_on_line(line);
    lemma_key_line(line, b, z);
}

proof fn lemma_tail_on_line(line: Seq<char>)
    requires
        !line.contains('\n'),
    ensures
        !nvram::tail_of(line).contains('\n'),
{
    let z = nvram::tail_of(line);
    roundtrip::lemma_strip_comment(line);
    if z.contains('\n') {
        let i = choose|i: int| 0 <= i < z.len() && z[i] == '\n';
        assert(z[i] == line[grammar::strip_comment(line).len() + i]);
        assert(line.contains(z[i]));
    }
}

// ---------------------------------------------------------------------------
// Written lines
// ---------------------------------------------------------------------------

/// A line that starts a list of options does so when the star moves, and lists the same options.
pub proof fn lemma_options_line(line: Seq<char>, k: int, active: Option<int>)
    requires
        !line.contains('\n'),
        grammar::kind_of(grammar::statement(line)) is Options,
    ensures
        ({
            let q = nvram::key_end(line);
            let out = nvram::option_line(line, q, k, active);
            let r = grammar::restarred_options(nvram::body_of(line, q), k, active);
            &&& !out.contains('\n')
            &&& grammar::kind_of(grammar::statement(out)) == grammar::Kind::Options(text::trim(r))
            &&& nvram::key_end(out) == q
            &&& nvram::option_line(out, q, k, active) == out
        }),
{
    let q = nvram::key_end(line);
    let b = nvram::body_of(line, q);
    let z = nvram::tail_of(line);
    let r = grammar::restarred_options(b, k, active);
    let out = nvram::option_line(line, q, k, active);
    nvram::lemma_key_end(line);
    lemma_parts(line, q);
    lemma_tail_on_line(line);
    stars::lemma_restarred_options_text(b, k, active);
    lemma_key_line(line, r, z);
    let p = nvram::body_start(line, q);
    if b.len() == 0 {
        assert(out =~= line);
    } else {
        stars::lemma_restarred_options_again(b, k, active);
        lemma_again(line, q, r, z);
        let t = text::trim_start(r);
        assert(nvram::option_line(out, q, k, active) == nvram::with_body(out, q, t));
    }
}

/// The parts of a line whose text from `q` on was replaced by `r`: white space in front of `r` now
/// is in front of the text.
proof fn lemma_again(line: Seq<char>, q: int, r: Seq<char>, z: Seq<char>)
    requires
        0 <= q <= nvram::body_start(line, q) <= line.len(),
        text::blank(line.subrange(q, nvram::body_start(line, q))),
        grammar::strip_comment(line.take(nvram::body_start(line, q)) + r + z) == line.take(
            nvram::body_start(line, q),
        ) + r,
    ensures
        ({
            let out = line.take(nvram::body_start(line, q)) + r + z;
            &&& nvram::body_of(out, q) == text::trim_start(r)
            &&& nvram::tail_of(out) == z
            &&& nvram::with_body(out, q, text::trim_start(r)) == out
        }),
{
    let p = nvram::body_start(line, q);
    let gap = line.subrange(q, p);
    let out = line.take(p) + r + z;
    let s = line.take(p) + r;
    let t = s.skip(q);
    text::lemma_leading_space(r);
    let a = text::leading_space(r);
    assert(t =~= gap + r);
    assert forall|i: int| 0 <= i < p - q + a implies text::white_space(#[trigger] t[i]) by {
        if i < p - q {
            assert(t[i] == gap[i]);
        } else {
            assert(t[i] == r[i - (p - q)]);
        }
    }
    if p - q + a < t.len() {
        assert(t[p - q + a] == r[a]);
    }
    text::lemma_leading_space_is(t, p - q + a);
    assert(nvram::body_start(out, q) == p + a);
    assert(s.skip(p + a) =~= r.skip(a));
    assert(out.skip(s.len() as int) =~= z);
    assert(out.take(p + a) + r.skip(a) + z =~= out);
}

/// A line that continues a list of options does so when the star moves, and lists the same options.
pub proof fn lemma_bracket_line(line: Seq<char>, k: int, active: Option<int>)
    requires
        !line.contains('\n'),
        grammar::kind_of(grammar::statement(line)) is Bracket,
    ensures
        ({
            let out = nvram::option_line(line, 0, k, active);
            let s = grammar::statement(line);
            let r = grammar::restarred_options(s, k, active);
            &&& !out.contains('\n')
            &&& s == nvram::body_of(line, 0)
            &&& grammar::kind_of(grammar::statement(out)) is Bracket
            &&& grammar::statement(out) == r
            &&& nvram::option_line(out, 0, k, active) == out
        }),
{
    let s = grammar::statement(line);
    let z = nvram::tail_of(line);
    let out = nvram::option_line(line, 0, k, active);
    lemma_parts(line, 0);
    lemma_tail_on_line(line);
    let p = nvram::body_start(line, 0);
    let gap = line.subrange(0, p);
    let b = nvram::body_of(line, 0);
    let none = Seq::<char>::empty();
    let stripped = grammar::strip_comment(line);
    assert(line.take(0) =~= none);
    assert(gap =~= line.take(p));
    text::law_trim_ignores_blanks_around(gap, b, none);
    assert(gap + b + none =~= stripped);
    assert(s == b);
    let r = grammar::restarred_options(b, k, active);
    assert(grammar::is_bracket(s));
    stars::lemma_restarred_options_text(b, k, active);
    assert(roundtrip::plain(none));
    lemma_joined(none, gap, r, z);
    assert(none + gap + r + z =~= out);
    assert(none + gap + r =~= line.take(p) + r);
    text::law_trim_ignores_blanks_around(gap, r, none);
    assert(gap + r + none =~= line.take(p) + r);
    assert(r[0] == '*' || r[0] == '[');
    text::lemma_trimmed(r);
    roundtrip::lemma_bracket_kind(r);
    assert(!out.contains('\n')) by {
        if out.contains('\n') {
            let i = choose|i: int| 0 <= i < out.len() && out[i] == '\n';
            if i < p {
                assert(line.contains(out[i]));
            } else if i < p + r.len() {
                assert(out[i] == r[i - p]);
            } else {
                assert(out[i] == z[i - p - r.len()]);
                assert(z.contains(out[i]));
            }
        }
    }
    stars::lemma_restarred_options_again(b, k, active);
    lemma_again(line, 0, r, z);
    assert(nvram::option_line(out, 0, k, active) == nvram::with_body(
        out,
        0,
        text::trim_start(r),
    ));
}

/// A comment is one with white space in front of it, too.
proof fn lemma_blank_and_tail(a: Seq<char>, tail: Seq<char>)
    requires
        text::blank(a),
        forall|i: int| 0 <= i < a.len() ==> #[trigger] a[i] != '\n',
        grammar::is_comment_tail(tail),
        !tail.contains('\n'),
    ensures
        grammar::is_comment_tail(a + tail),
        text::trim_start(a + tail) == text::trim_start(tail),
        !(a + tail).contains('\n'),
{
    let z = a + tail;
    lemma_trim_start_behind(a, tail);
    if z.contains('\n') {
        let i = choose|i: int| 0 <= i < z.len() && z[i] == '\n';
        if i < a.len() {
            assert(z[i] == a[i]);
        } else {
            assert(z[i] == tail[i - a.len()]);
            assert(tail.contains(z[i]));
        }
    }
}

/// What stands between the key of a line and its comment is white space around what it states.
proof fn lemma_field(line: Seq<char>)
    requires
        !line.contains('\n'),
        is_key_line(line),
    ensures
        ({
            let q = nvram::key_end(line);
            let p = nvram::body_start(line, q);
            let tail = nvram::tail_of(line);
            let t = tail.take(text::leading_space(tail));
            &&& nvram::field_of(line) == line.subrange(q, p) + nvram::body_of(line, q) + t
            &&& text::blank(t)
            &&& text::blank(line.subrange(q, p))
            &&& tail == t + text::trim_start(tail)
            &&& text::trim(nvram::field_of(line)) == nvram::body_of(line, q)
        }),
{
    let q = nvram::key_end(line);
    let p = nvram::body_start(line, q);
    let b = nvram::body_of(line, q);
    let tail = nvram::tail_of(line);
    let t = tail.take(text::leading_space(tail));
    nvram::lemma_key_end(line);
    lemma_parts(line, q);
    text::lemma_leading_space(tail);
    assert(tail =~= t + text::trim_start(tail));
    assert forall|i: int| 0 <= i < t.len() implies text::white_space(#[trigger] t[i]) by {
        assert(t[i] == tail[i]);
    }
    let gap = line.subrange(q, p);
    assert(line =~= line.take(q) + gap + b + t + text::trim_start(tail));
    assert(nvram::field_of(line) =~= gap + b + t);
    text::law_trim_ignores_blanks_around(gap, b, t);
}

/// The white space at the end of a value and more behind it is white space.
proof fn lemma_blanks_behind(v: Seq<char>, mid: Seq<char>)
    requires
        roundtrip::plain(v),
        text::blank(mid),
        forall|i: int| 0 <= i < mid.len() ==> #[trigger] mid[i] != '\n',
    ensures
        text::blank(v.skip(text::trim_end(v).len() as int) + mid),
        forall|i: int|
            0 <= i < (v.skip(text::trim_end(v).len() as int) + mid).len() ==> #[trigger] (v.skip(
                text::trim_end(v).len() as int,
            ) + mid)[i] != '\n',
{
    text::lemma_trim_end(v);
    let n = text::trim_end(v).len() as int;
    let rest = v.skip(n);
    let blanks = rest + mid;
    assert forall|i: int| 0 <= i < blanks.len() implies text::white_space(#[trigger] blanks[i])
        && blanks[i] != '\n' by {
        if i < rest.len() {
            assert(blanks[i] == v[n + i]);
        } else {
            assert(blanks[i] == mid[i - rest.len()]);
        }
    }
}

/// A line that was given the value `v` holds it.
proof fn lemma_field_holds(line: Seq<char>, v: Seq<char>, mid: Seq<char>)
    requires
        !line.contains('\n'),
        is_key_line(line),
        roundtrip::plain(v),
        text::blank(mid),
        forall|i: int| 0 <= i < mid.len() ==> #[trigger] mid[i] != '\n',
        v.len() > 0 && v.last() == '/' && mid.len() == 0 ==> apart(v, nvram::tail_of(line)),
    ensures
        ({
            let p = nvram::body_start(line, nvram::key_end(line));
            let out = line.take(p) + v + mid + nvram::tail_of(line);
            let kind = grammar::kind_of(grammar::statement(line));
            &&& !out.contains('\n')
            &&& grammar::kind_of(grammar::statement(out)) == with_text(kind, text::trim(v))
            &&& nvram::holds(nvram::field_of(out), v)
        }),
{
    let q = nvram::key_end(line);
    let p = nvram::body_start(line, q);
    let gap = line.subrange(q, p);
    let tail = nvram::tail_of(line);
    let t = tail.take(text::leading_space(tail));
    let c = text::trim_start(tail);
    let te = text::trim_end(v);
    let rest = v.skip(te.len() as int);
    let z = rest + mid + tail;
    let out = line.take(p) + v + mid + tail;
    nvram::lemma_key_end(line);
    lemma_parts(line, q);
    lemma_tail_on_line(line);
    lemma_field(line);
    text::lemma_trim_end(v);
    assert(te + rest =~= v);
    let blanks = rest + mid;
    lemma_blanks_behind(v, mid);
    lemma_blank_and_tail(blanks, tail);
    assert(te =~= v.subrange(0, te.len() as int));
    roundtrip::lemma_plain_part(v, 0, te.len() as int);
    assert(apart(te, z)) by {
        if blanks.len() > 0 {
            assert(z[0] == blanks[0]);
        } else {
            assert(z =~= tail);
            assert(te =~= v);
        }
    }
    lemma_key_line(line, te, z);
    assert(out =~= line.take(p) + te + z);
    let none = Seq::<char>::empty();
    text::law_trim_ignores_blanks_around(none, te, rest);
    assert(none + te + rest =~= v);
    let after = nvram::tail_of(out);
    assert(text::trim_start(after) == c) by {
        if te.len() == 0 {
            assert(out =~= line.take(q) + (gap + z));
            assert(after =~= gap + z);
            lemma_trim_start_behind(gap, z);
        } else {
            assert(after =~= z);
        }
    }
    assert(line.take(q) + gap + v + mid + t + c =~= out);
    lemma_parts_hold(line.take(q), gap, v, mid, t, c);
}

/// A line made of these parts holds the value among them.
proof fn lemma_parts_hold(
    front: Seq<char>,
    gap: Seq<char>,
    v: Seq<char>,
    mid: Seq<char>,
    t: Seq<char>,
    c: Seq<char>,
)
    requires
        text::blank(gap),
        text::blank(mid),
        text::blank(t),
        nvram::key_end(front + gap + v + mid + t + c) == front.len(),
        text::trim_start(nvram::tail_of(front + gap + v + mid + t + c)) == c,
    ensures
        nvram::holds(nvram::field_of(front + gap + v + mid + t + c), v),
{
    let out = front + gap + v + mid + t + c;
    let field = nvram::field_of(out);
    let a = gap.len() as int;
    assert(field =~= gap + v + mid + t);
    assert(field.subrange(a, a + v.len()) =~= v);
    assert(field.take(a) =~= gap);
    let back = mid + t;
    assert(field.skip(a + v.len()) =~= back);
    assert forall|i: int| 0 <= i < back.len() implies text::white_space(#[trigger] back[i]) by {
        if i < mid.len() {
            assert(back[i] == mid[i]);
        } else {
            assert(back[i] == t[i - mid.len()]);
        }
    }
    assert(nvram::holds_at(field, v, a));
}

/// A value line states the value that was written, and writing it again changes nothing.
pub proof fn lemma_value_line(line: Seq<char>, v: Seq<char>)
    requires
        !line.contains('\n'),
        grammar::kind_of(grammar::statement(line)) is Value,
        roundtrip::plain(v),
    ensures
        ({
            let out = nvram::value_line(line, v);
            &&& !out.contains('\n')
            &&& grammar::kind_of(grammar::statement(out)) == grammar::Kind::Value(text::trim(v))
            &&& nvram::holds(nvram::field_of(out), v)
            &&& nvram::value_line(out, v) == out
        }),
{
    let out = nvram::value_line(line, v);
    let q = nvram::key_end(line);
    let p = nvram::body_start(line, q);
    let tail = nvram::tail_of(line);
    let field = nvram::field_of(line);
    if nvram::holds(field, v) {
        let a = choose|a: int| #[trigger] nvram::holds_at(field, v, a);
        let front = field.take(a);
        let back = field.skip(a + v.len());
        assert(front + v + back =~= field);
        text::law_trim_ignores_blanks_around(front, v, back);
        lemma_field(line);
        lemma_key_text(line);
    } else {
        let gap = nvram::value_gap(v, tail);
        lemma_field_holds(line, v, gap);
        assert(out =~= line.take(p) + v + gap + tail);
    }
}

// ---------------------------------------------------------------------------
// What stays
// ---------------------------------------------------------------------------

/// What line `i` states.
pub open spec fn kind_at(lines: Seq<Seq<char>>, i: int) -> grammar::Kind {
    grammar::kind_of(grammar::statement(lines[i]))
}

/// Writing adds no line and takes none away, and every line other than those of options and values
/// stays as it is.
pub proof fn law_other_lines_stay(lines: Seq<Seq<char>>, settings: Seq<SettingView>)
    ensures
        nvram::patched_lines(lines, settings).len() == lines.len(),
        forall|i: int|
            0 <= i < lines.len() && !(#[trigger] kind_at(lines, i) is Options) && !(kind_at(
                lines,
                i,
            ) is Bracket) && !(kind_at(lines, i) is Value) ==> nvram::patched_lines(
                lines,
                settings,
            )[i] == lines[i],
{
}

proof fn lemma_starless_join(a: Seq<char>, b: Seq<char>)
    ensures
        grammar::starless(a + b) == grammar::starless(a) + grammar::starless(b),
    decreases b.len(),
{
    if b.len() == 0 {
        assert(a + b =~= a);
        assert(grammar::starless(a) + grammar::starless(b) =~= grammar::starless(a));
    } else {
        lemma_starless_join(a, b.drop_last());
        assert((a + b).drop_last() =~= a + b.drop_last());
        assert((a + b).last() == b.last());
        assert(grammar::starless(a + b) =~= grammar::starless(a) + grammar::starless(b));
    }
}

proof fn lemma_starless_stars(s: Seq<char>)
    requires
        forall|i: int| 0 <= i < s.len() ==> #[trigger] s[i] == '*',
    ensures
        grammar::starless(s) == Seq::<char>::empty(),
    decreases s.len(),
{
    if s.len() > 0 {
        assert(s[s.len() - 1] == '*');
        lemma_starless_stars(s.drop_last());
    }
}

proof fn lemma_starless_restarred(s: Seq<char>, k: int, active: Option<int>)
    ensures
        grammar::starless(grammar::restarred(s, k, active)) == grammar::starless(s),
    decreases s.len(),
{
    let n = text::first_index(s, '[');
    text::lemma_first_index(s, '[');
    if n < s.len() {
        let rest = s.skip(n);
        let t = rest.drop_first();
        let one = seq!['['];
        let front = s.take(n);
        assert(s =~= front + one + t);
        lemma_starless_join(front + one, t);
        lemma_starless_join(front, one);
        if grammar::starts_option(rest) {
            let h = grammar::strip_stars(front);
            let star = grammar::star_for(k, active);
            let u = grammar::restarred(t, k + 1, active);
            lemma_starless_restarred(t, k + 1, active);
            lemma_starless_join(h + star + one, u);
            lemma_starless_join(h + star, one);
            lemma_starless_join(h, star);
            lemma_starless_stars(star);
            stars::lemma_strip_stars(front);
            let dropped = front.skip(h.len() as int);
            assert forall|i: int| 0 <= i < dropped.len() implies #[trigger] dropped[i] == '*' by {
                assert(dropped[i] == front[h.len() + i]);
            }
            lemma_starless_stars(dropped);
            lemma_starless_join(h, dropped);
            assert(h + dropped =~= front);
            assert(grammar::starless(h) + Seq::<char>::empty() =~= grammar::starless(h));
        } else {
            let u = grammar::restarred(t, k, active);
            lemma_starless_restarred(t, k, active);
            lemma_starless_join(front + one, u);
        }
    }
}

proof fn lemma_starless_options(s: Seq<char>, k: int, active: Option<int>)
    ensures
        grammar::starless(grammar::restarred_options(s, k, active)) == grammar::starless(s),
{
    let b = grammar::bare(s);
    let p = s.take(s.len() - b.len());
    let gap = grammar::starless(p);
    let star = grammar::star_for(k, active);
    lemma_starless_restarred(s, k, active);
    stars::lemma_bare(s);
    stars::lemma_starless_blank(p);
    lemma_starless_join(p, b);
    lemma_starless_stars(star);
    lemma_starless_join(star + gap, b);
    lemma_starless_join(star, gap);
    assert(Seq::<char>::empty() + gap =~= gap);
}

/// Where the star of an option line moves, nothing but stars changes on the line.
pub proof fn law_only_stars_move(line: Seq<char>, from: int, k: int, active: Option<int>)
    requires
        0 <= from <= grammar::strip_comment(line).len(),
    ensures
        grammar::starless(nvram::option_line(line, from, k, active)) == grammar::starless(line),
{
    let p = nvram::body_start(line, from);
    let b = nvram::body_of(line, from);
    let z = nvram::tail_of(line);
    let r = grammar::restarred_options(b, k, active);
    nvram::lemma_strip_comment_prefix(line);
    text::lemma_leading_space(grammar::strip_comment(line).skip(from));
    assert(line.take(p) + b + z =~= line);
    lemma_starless_join(line.take(p) + b, z);
    lemma_starless_join(line.take(p), b);
    lemma_starless_join(line.take(p) + r, z);
    lemma_starless_join(line.take(p), r);
    lemma_starless_options(b, k, active);
}

/// On the lines of options writing changes nothing but stars: the options stay on their lines and
/// in their order, and so do the indent, the white space between them and the comments.
pub proof fn law_option_lines_keep_their_text(lines: Seq<Seq<char>>, settings: Seq<SettingView>)
    ensures
        forall|i: int|
            0 <= i < lines.len() && (#[trigger] kind_at(lines, i) is Options || kind_at(
                lines,
                i,
            ) is Bracket) ==> grammar::starless(nvram::patched_lines(lines, settings)[i]) == grammar::starless(
                lines[i],
            ),
{
    assert forall|i: int|
        0 <= i < lines.len() && (#[trigger] kind_at(lines, i) is Options || kind_at(
            lines,
            i,
        ) is Bracket) implies grammar::starless(nvram::patched_lines(lines, settings)[i]) == grammar::starless(
        lines[i],
    ) by {
        let st = nvram::writer_at(lines, settings, i);
        let line = lines[i];
        match (kind_at(lines, i), st.index) {
            (grammar::Kind::Options(_), Some(n)) if settings[n].options.len() > 0 => {
                nvram::lemma_key_end(line);
                law_only_stars_move(
                    line,
                    nvram::key_end(line),
                    st.passed,
                    settings[n].active_option,
                );
            },
            (grammar::Kind::Bracket, Some(n)) if st.listing && settings[n].options.len() > 0 => {
                law_only_stars_move(line, 0, st.passed, settings[n].active_option);
            },
            _ => {},
        }
    }
}

/// On the line of a value writing changes nothing but the text of the value: what stands in front
/// of it and behind it stays, and the value is written as it is. A line that holds the value already
/// stays as it is.
pub proof fn law_value_line_keeps_its_layout(line: Seq<char>, v: Seq<char>)
    requires
        grammar::kind_of(grammar::statement(line)) is Value,
    ensures
        ({
            let q = nvram::key_end(line);
            let front = line.take(nvram::body_start(line, q));
            let tail = nvram::tail_of(line);
            &&& line == front + nvram::body_of(line, q) + tail
            &&& nvram::value_line(line, v) == if nvram::holds(nvram::field_of(line), v) {
                line
            } else {
                front + (v + nvram::value_gap(v, tail)) + tail
            }
        }),
{
    nvram::lemma_key_end(line);
    nvram::lemma_strip_comment_prefix(line);
    let q = nvram::key_end(line);
    let p = nvram::body_start(line, q);
    text::lemma_leading_space(grammar::strip_comment(line).skip(q));
    assert(line.take(p) + nvram::body_of(line, q) + nvram::tail_of(line) =~= line);
}

/// What a line states, put back where it stood, leaves the line as it is.
pub proof fn lemma_same_body(line: Seq<char>, from: int)
    requires
        from == 0 || grammar::kind_of(grammar::statement(line)) is Options && from
            == nvram::key_end(line),
    ensures
        nvram::with_body(line, from, nvram::body_of(line, from)) == line,
{
    if from != 0 {
        nvram::lemma_key_end(line);
    }
    nvram::lemma_strip_comment_prefix(line);
    text::lemma_leading_space(grammar::strip_comment(line).skip(from));
    assert(nvram::with_body(line, from, nvram::body_of(line, from)) =~= line);
}

/// A value that is written to the line it was read from leaves the line as it is.
pub proof fn law_same_value_changes_nothing(line: Seq<char>)
    requires
        !line.contains('\n'),
        grammar::kind_of(grammar::statement(line)) is Value,
    ensures
        nvram::value_line(line, grammar::kind_of(grammar::statement(line))->Value_0) == line,
{
    let q = nvram::key_end(line);
    let b = nvram::body_of(line, q);
    let gap = line.subrange(q, nvram::body_start(line, q));
    let field = nvram::field_of(line);
    lemma_field(line);
    lemma_key_text(line);
    let a = gap.len() as int;
    let tail = nvram::tail_of(line);
    assert(field.subrange(a, a + b.len()) =~= b);
    assert(field.take(a) =~= gap);
    assert(field.skip(a + b.len()) =~= tail.take(text::leading_space(tail)));
    assert(nvram::holds_at(field, b, a));
}

/// Every option that is to be marked is, no other is, no star has another one beside it, and no
/// option has a star of its own.
pub open spec fn marked_as(s: Seq<char>, k: int, active: Option<int>) -> bool {
    &&& !stars::has_own_star(s)
    &&& forall|j: int|
        0 <= j < grammar::options_on(s).len() ==> (#[trigger] grammar::options_on(s)[j]).star == (
        active == Some(k + j))
    &&& forall|i: int| 0 <= i < s.len() - 1 ==> !(#[trigger] s[i] == '*' && s[i + 1] == '*')
}

proof fn lemma_one_star(s: Seq<char>)
    requires
        forall|i: int| 0 <= i < s.len() - 1 ==> !(#[trigger] s[i] == '*' && s[i + 1] == '*'),
    ensures
        s == grammar::strip_stars(s) + (if s.len() > 0 && s.last() == '*' {
            seq!['*']
        } else {
            seq![]
        }),
{
    if s.len() > 0 && s.last() == '*' {
        let t = s.drop_last();
        if t.len() > 0 {
            let i = s.len() - 2;
            assert(t.last() == s[i]);
            assert(!(s[i] == '*' && s[i + 1] == '*'));
        }
        assert(grammar::strip_stars(t) == t);
        assert(t + seq!['*'] =~= s);
    } else {
        assert(s + Seq::<char>::empty() =~= s);
    }
}

proof fn lemma_marked_stays(s: Seq<char>, k: int, active: Option<int>)
    requires
        forall|j: int|
            0 <= j < grammar::options_in(s).len() ==> (#[trigger] grammar::options_in(s)[j]).star
                == (active == Some(k + j)),
        forall|i: int| 0 <= i < s.len() - 1 ==> !(#[trigger] s[i] == '*' && s[i + 1] == '*'),
    ensures
        grammar::restarred(s, k, active) == s,
    decreases s.len(),
{
    let n = text::first_index(s, '[');
    text::lemma_first_index(s, '[');
    if n < s.len() {
        let rest = s.skip(n);
        let t = rest.drop_first();
        let front = s.take(n);
        assert forall|i: int| 0 <= i < t.len() - 1 implies !(#[trigger] t[i] == '*' && t[i + 1]
            == '*') by {
            assert(t[i] == s[n + 1 + i]);
            assert(t[i + 1] == s[n + 1 + i + 1]);
        }
        assert forall|i: int| 0 <= i < front.len() - 1 implies !(#[trigger] front[i] == '*'
            && front[i + 1] == '*') by {
            assert(front[i] == s[i]);
            assert(front[i + 1] == s[i + 1]);
        }
        let all = grammar::options_in(s);
        let more = grammar::options_in(t);
        if grammar::starts_option(rest) {
            assert(all[0].star == (active == Some(k)));
            assert forall|j: int| 0 <= j < more.len() implies (#[trigger] more[j]).star == (active
                == Some(k + 1 + j)) by {
                assert(all[j + 1] == more[j]);
            }
            lemma_marked_stays(t, k + 1, active);
            lemma_one_star(front);
            if n > 0 {
                assert(front.last() == s[n - 1]);
            }
            assert(front + seq!['['] + t =~= s);
        } else {
            lemma_marked_stays(t, k, active);
            assert(front + seq!['['] + t =~= s);
        }
    }
}

/// An option line that is marked as it has to be stays as it is.
pub proof fn law_marked_options_stay(s: Seq<char>, k: int, active: Option<int>)
    requires
        text::trim(s) == s,
        marked_as(s, k, active),
    ensures
        grammar::restarred_options(s, k, active) == s,
{
    let b = grammar::bare(s);
    if grammar::options_in(s).len() > 0 {
        let found = grammar::options_in(s);
        assert forall|j: int| 0 <= j < found.len() implies (#[trigger] found[j]).star == (active
            == Some(k + j)) by {
            assert(grammar::options_on(s)[j] == found[j]);
        }
        lemma_marked_stays(s, k, active);
    } else if b.len() > 0 {
        let found = grammar::options_on(s);
        let n = s.len() - b.len();
        stars::law_moved_star_marks_the_active_option_of_a_line(s, k, active);
        assert(found.len() == 1);
        assert(found[0].star == (active == Some(k)));
        lemma_one_mark(s);
        assert(s.take(n) + b =~= s) by {
            stars::lemma_bare(s);
        }
        assert(grammar::star_for(k, active) + grammar::starless(s.take(n)) + b =~= s);
    }
}

/// Without doubled stars and stars of its own, an option starts with one star or with none.
proof fn lemma_one_mark(s: Seq<char>)
    requires
        text::trim(s) == s,
        grammar::options_in(s).len() == 0,
        grammar::bare(s).len() > 0,
        !stars::has_own_star(s),
        forall|i: int| 0 <= i < s.len() - 1 ==> !(#[trigger] s[i] == '*' && s[i + 1] == '*'),
    ensures
        ({
            let front = s.take(s.len() - grammar::bare(s).len());
            front == (if s[0] == '*' {
                seq!['*']
            } else {
                seq![]
            }) + grammar::starless(front)
        }),
{
    let b = grammar::bare(s);
    let n = s.len() - b.len();
    let front = s.take(n);
    let free = text::strip_leading(s, '*');
    let j = s.len() - free.len();
    stars::lemma_bare(s);
    text::lemma_trim(s);
    text::lemma_strip_leading(s, '*');
    if j > 1 {
        let i = 0int;
        assert(s[i] == '*' && s[i + 1] == '*');
    }
    stars::lemma_free_label(s);
    stars::lemma_blanks_behind_the_mark(s);
    let gap = s.subrange(j, n);
    if s[0] == '*' {
        assert(j == 1) by {
            if j == 0 {
                assert(free =~= s);
            }
        }
        assert(front =~= seq!['*'] + gap);
        stars::lemma_starless_front(gap);
    } else {
        assert(j == 0) by {
            if j > 0 {
                assert(s[0] == '*');
            }
        }
        assert(front =~= gap);
        assert(gap.len() == 0) by {
            if gap.len() > 0 {
                assert(text::white_space(gap[0]));
                assert(gap[0] == s[0]);
            }
        }
        assert(grammar::starless(front) =~= seq![]);
    }
}

// ---------------------------------------------------------------------------
// Writing twice
// ---------------------------------------------------------------------------

/// The writer stays within the settings.
pub proof fn lemma_writer_valid(lines: Seq<Seq<char>>, settings: Seq<SettingView>, i: int)
    requires
        0 <= i <= lines.len(),
    ensures
        ({
            let st = nvram::writer_at(lines, settings, i);
            &&& st.index matches Some(n) ==> 0 <= n < settings.len()
        }),
    decreases i,
{
    if i > 0 {
        lemma_writer_valid(lines, settings, i - 1);
        let st = nvram::writer_at(lines, settings, i - 1);
        if let grammar::Kind::Offset(v) = kind_at(lines, i - 1) {
            if st.question is Some && st.token is Some {
                nvram::lemma_last_with_key(settings, (st.question->0, st.token->0, v));
            }
        }
    }
}

/// A written line is written again as it is, and the writer passes it as it passes the line.
proof fn lemma_line_again(st: nvram::WriteState, line: Seq<char>, settings: Seq<SettingView>)
    requires
        !line.contains('\n'),
        st.index matches Some(n) ==> (settings[n].value matches Some(v) ==> roundtrip::plain(v)),
    ensures
        ({
            let out = nvram::written_line(st, line, settings);
            &&& nvram::written_line(st, out, settings) == out
            &&& nvram::pass(st, grammar::statement(out), settings) == nvram::pass(
                st,
                grammar::statement(line),
                settings,
            )
            &&& !out.contains('\n')
        }),
{
    match (grammar::kind_of(grammar::statement(line)), st.index) {
        (grammar::Kind::Options(v), Some(n)) if settings[n].options.len() > 0 => {
            let active = settings[n].active_option;
            let k = st.passed;
            lemma_options_line(line, k, active);
            lemma_key_text(line);
            nvram::lemma_key_end(line);
            lemma_parts(line, nvram::key_end(line));
            stars::law_moved_star_marks_the_active_option_of_a_line(v, k, active);
            text::law_trim_is_idempotent(grammar::restarred_options(v, k, active));
        },
        (grammar::Kind::Bracket, Some(n)) if st.listing && settings[n].options.len() > 0 => {
            let active = settings[n].active_option;
            let k = st.passed;
            let s = grammar::statement(line);
            lemma_bracket_line(line, k, active);
            roundtrip::lemma_statement(line);
            stars::law_moved_star_marks_the_active_option_of_a_line(s, k, active);
        },
        (grammar::Kind::Value(_), Some(n)) if settings[n].value is Some => {
            lemma_value_line(line, settings[n].value->0);
        },
        _ => {},
    }
}

/// The writer goes through a written dump as it went through the dump.
proof fn lemma_same_writer(lines: Seq<Seq<char>>, settings: Seq<SettingView>, i: int)
    requires
        roundtrip::single_lines(lines),
        forall|n: int|
            0 <= n < settings.len() ==> ((#[trigger] settings[n]).value matches Some(v)
                ==> roundtrip::plain(v)),
        0 <= i <= lines.len(),
    ensures
        nvram::writer_at(nvram::patched_lines(lines, settings), settings, i) == nvram::writer_at(
            lines,
            settings,
            i,
        ),
    decreases i,
{
    if i > 0 {
        lemma_same_writer(lines, settings, i - 1);
        lemma_writer_valid(lines, settings, i - 1);
        assert(!lines[i - 1].contains('\n'));
        lemma_line_again(nvram::writer_at(lines, settings, i - 1), lines[i - 1], settings);
    }
}

/// Writing the same settings again changes nothing. The values must be without comments and line
/// feeds; of the options nothing is asked.
pub proof fn law_writing_twice_is_writing_once(
    lines: Seq<Seq<char>>,
    settings: Seq<SettingView>,
)
    requires
        roundtrip::single_lines(lines),
        forall|n: int|
            0 <= n < settings.len() ==> ((#[trigger] settings[n]).value matches Some(v)
                ==> roundtrip::plain(v)),
    ensures
        nvram::patched_lines(nvram::patched_lines(lines, settings), settings)
            == nvram::patched_lines(lines, settings),
{
    let once = nvram::patched_lines(lines, settings);
    let twice = nvram::patched_lines(once, settings);
    assert forall|i: int| 0 <= i < lines.len() implies #[trigger] twice[i] == once[i] by {
        lemma_same_writer(lines, settings, i);
        lemma_writer_valid(lines, settings, i);
        assert(!lines[i].contains('\n'));
        lemma_line_again(nvram::writer_at(lines, settings, i), lines[i], settings);
    }
    assert(twice =~= once);
}

} // verus!
