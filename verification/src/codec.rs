//! The character encoding of dump files: Windows-1252, one byte per character.

use vstd::prelude::*;

use crate::text;

verus! {

// ---------------------------------------------------------------------------
// The encoding
// ---------------------------------------------------------------------------

/// The character that the byte `b` stands for in Windows-1252.
pub open spec fn windows_1252_char(b: u8) -> char {
    match b {
        0x80u8 => '\u{20ac}',
        0x81u8 => '\u{81}',
        0x82u8 => '\u{201a}',
        0x83u8 => '\u{192}',
        0x84u8 => '\u{201e}',
        0x85u8 => '\u{2026}',
        0x86u8 => '\u{2020}',
        0x87u8 => '\u{2021}',
        0x88u8 => '\u{2c6}',
        0x89u8 => '\u{2030}',
        0x8au8 => '\u{160}',
        0x8bu8 => '\u{2039}',
        0x8cu8 => '\u{152}',
        0x8du8 => '\u{8d}',
        0x8eu8 => '\u{17d}',
        0x8fu8 => '\u{8f}',
        0x90u8 => '\u{90}',
        0x91u8 => '\u{2018}',
        0x92u8 => '\u{2019}',
        0x93u8 => '\u{201c}',
        0x94u8 => '\u{201d}',
        0x95u8 => '\u{2022}',
        0x96u8 => '\u{2013}',
        0x97u8 => '\u{2014}',
        0x98u8 => '\u{2dc}',
        0x99u8 => '\u{2122}',
        0x9au8 => '\u{161}',
        0x9bu8 => '\u{203a}',
        0x9cu8 => '\u{153}',
        0x9du8 => '\u{9d}',
        0x9eu8 => '\u{17e}',
        0x9fu8 => '\u{178}',
        _ => b as char,
    }
}

/// The byte that stands for `c` in Windows-1252, if there is one.
pub open spec fn windows_1252_byte(c: char) -> Option<u8> {
    match c {
        '\u{20ac}' => Some(0x80u8),
        '\u{81}' => Some(0x81u8),
        '\u{201a}' => Some(0x82u8),
        '\u{192}' => Some(0x83u8),
        '\u{201e}' => Some(0x84u8),
        '\u{2026}' => Some(0x85u8),
        '\u{2020}' => Some(0x86u8),
        '\u{2021}' => Some(0x87u8),
        '\u{2c6}' => Some(0x88u8),
        '\u{2030}' => Some(0x89u8),
        '\u{160}' => Some(0x8au8),
        '\u{2039}' => Some(0x8bu8),
        '\u{152}' => Some(0x8cu8),
        '\u{8d}' => Some(0x8du8),
        '\u{17d}' => Some(0x8eu8),
        '\u{8f}' => Some(0x8fu8),
        '\u{90}' => Some(0x90u8),
        '\u{2018}' => Some(0x91u8),
        '\u{2019}' => Some(0x92u8),
        '\u{201c}' => Some(0x93u8),
        '\u{201d}' => Some(0x94u8),
        '\u{2022}' => Some(0x95u8),
        '\u{2013}' => Some(0x96u8),
        '\u{2014}' => Some(0x97u8),
        '\u{2dc}' => Some(0x98u8),
        '\u{2122}' => Some(0x99u8),
        '\u{161}' => Some(0x9au8),
        '\u{203a}' => Some(0x9bu8),
        '\u{153}' => Some(0x9cu8),
        '\u{9d}' => Some(0x9du8),
        '\u{17e}' => Some(0x9eu8),
        '\u{178}' => Some(0x9fu8),
        _ => if c < '\u{80}' || ('\u{a0}' <= c && c <= '\u{ff}') {
            Some(c as u8)
        } else {
            None
        },
    }
}

/// The text that `bytes` encode in Windows-1252.
pub open spec fn windows_1252_text(bytes: Seq<u8>) -> Seq<char> {
    Seq::new(bytes.len(), |i: int| windows_1252_char(bytes[i]))
}

/// `bytes` start with the byte order mark of UTF-8, UTF-16LE or UTF-16BE.
pub open spec fn has_byte_order_mark(bytes: Seq<u8>) -> bool {
    ||| bytes.len() >= 3 && bytes[0] == 0xef && bytes[1] == 0xbb && bytes[2] == 0xbf
    ||| bytes.len() >= 2 && bytes[0] == 0xff && bytes[1] == 0xfe
    ||| bytes.len() >= 2 && bytes[0] == 0xfe && bytes[1] == 0xff
}

/// The text that `encoding_rs` reads from bytes that start with a byte order mark.
pub uninterp spec fn marked_text(bytes: Seq<u8>) -> Seq<char>;

/// The text of a dump file.
pub open spec fn file_text(bytes: Seq<u8>) -> Seq<char> {
    if has_byte_order_mark(bytes) {
        marked_text(bytes)
    } else {
        windows_1252_text(bytes)
    }
}

/// The decimal numeric character reference for `c`.
pub open spec fn character_reference(c: char) -> Seq<u8> {
    let digits = text::decimal(c as nat);
    seq![0x26u8, 0x23u8] + Seq::new(digits.len(), |i: int| digits[i] as u8) + seq![0x3bu8]
}

/// The bytes that stand for `c` in a dump file.
pub open spec fn encoded_char(c: char) -> Seq<u8> {
    match windows_1252_byte(c) {
        Some(b) => seq![b],
        None => character_reference(c),
    }
}

/// The bytes that stand for `s` in a dump file.
pub open spec fn encoded_text(s: Seq<char>) -> Seq<u8>
    decreases s.len(),
{
    if s.len() == 0 {
        seq![]
    } else {
        encoded_text(s.drop_last()) + encoded_char(s.last())
    }
}

/// A dump file with the lines `ls`, each ended by a carriage return and a line feed.
pub open spec fn encoded_lines(ls: Seq<Seq<char>>) -> Seq<u8>
    decreases ls.len(),
{
    if ls.len() == 0 {
        seq![]
    } else {
        encoded_lines(ls.drop_last()) + encoded_text(ls.last()) + seq![0x0du8, 0x0au8]
    }
}

/// `encoding_rs::Encoding::decode` of `encoding_rs::WINDOWS_1252`: bytes without a byte order
/// mark are Windows-1252, one character per byte; bytes with one are read in the encoding that
/// the mark belongs to, and the mark is not part of the text. The bound keeps the size of the
/// buffer it allocates in range.
#[verifier::external_body]
fn decode(bytes: &[u8]) -> (r: String)
    requires
        bytes@.len() <= isize::MAX / 8,
    ensures
        !has_byte_order_mark(bytes@) ==> r@ == windows_1252_text(bytes@),
        has_byte_order_mark(bytes@) ==> r@ == marked_text(bytes@),
{
    let (text, _, _) = encoding_rs::WINDOWS_1252.decode(bytes);
    text.into_owned()
}

/// `encoding_rs::Encoding::encode` of `encoding_rs::WINDOWS_1252`, on one character: its byte in
/// Windows-1252, or its decimal numeric character reference if it has none.
#[verifier::external_body]
fn encode_char(c: char) -> (r: Vec<u8>)
    ensures
        r@ == encoded_char(c),
{
    let mut buffer = [0u8; 4];
    let (bytes, _, _) = encoding_rs::WINDOWS_1252.encode(c.encode_utf8(&mut buffer));
    bytes.into_owned()
}

/// The text of a dump file.
pub fn decode_file(bytes: &[u8]) -> (r: String)
    requires
        bytes@.len() <= isize::MAX / 8,
    ensures
        r@ == file_text(bytes@),
{
    decode(bytes)
}

/// Appends the bytes that stand for `s`.
fn encode_text_into(out: &mut Vec<u8>, s: &str)
    ensures
        final(out)@ == old(out)@ + encoded_text(s@),
{
    let chars: Vec<char> = text::to_chars(s);
    let mut i: usize = 0;
    while i < chars.len()
        invariant
            i <= chars.len(),
            chars@ == s@,
            out@ == old(out)@ + encoded_text(s@.take(i as int)),
        decreases chars.len() - i,
    {
        let ghost before = out@;
        let mut bytes: Vec<u8> = encode_char(chars[i]);
        out.append(&mut bytes);
        proof {
            assert(s@.take(i + 1).drop_last() =~= s@.take(i as int));
            assert(out@ =~= old(out)@ + encoded_text(s@.take(i + 1)));
        }
        i += 1;
    }
    proof {
        assert(s@.take(s@.len() as int) =~= s@);
    }
}

/// The bytes of a dump file with the lines `ls`.
pub fn encode_lines(ls: &[String]) -> (r: Vec<u8>)
    ensures
        r@ == encoded_lines(text::texts(ls@)),
{
    let mut r: Vec<u8> = Vec::new();
    let mut i: usize = 0;
    while i < ls.len()
        invariant
            i <= ls.len(),
            r@ == encoded_lines(text::texts(ls@).take(i as int)),
        decreases ls.len() - i,
    {
        let ghost before = r@;
        encode_text_into(&mut r, ls[i].as_str());
        r.push(0x0d);
        r.push(0x0a);
        proof {
            let all = text::texts(ls@);
            assert(all.take(i + 1).drop_last() =~= all.take(i as int));
            assert(r@ =~= before + encoded_text(all[i as int]) + seq![0x0du8, 0x0au8]);
        }
        i += 1;
    }
    proof {
        assert(text::texts(ls@).take(ls@.len() as int) =~= text::texts(ls@));
    }
    r
}

// ---------------------------------------------------------------------------
// Laws
// ---------------------------------------------------------------------------

/// Every character of `s` has a byte in Windows-1252.
pub open spec fn representable(s: Seq<char>) -> bool {
    forall|i: int| 0 <= i < s.len() ==> windows_1252_byte(#[trigger] s[i]) is Some
}

/// Bytes and the characters they stand for correspond one to one: every byte is the byte of its
/// character, and every character that has a byte is the character of that byte.
pub proof fn law_bytes_and_characters_correspond(b: u8, c: char)
    ensures
        windows_1252_byte(windows_1252_char(b)) == Some(b),
        windows_1252_byte(c) is Some ==> windows_1252_char(windows_1252_byte(c)->0) == c,
{
}

/// A text of Windows-1252 characters is encoded in one byte per character and reads back as
/// itself.
pub proof fn law_encoded_text_reads_back(s: Seq<char>)
    requires
        representable(s),
    ensures
        encoded_text(s).len() == s.len(),
        windows_1252_text(encoded_text(s)) == s,
    decreases s.len(),
{
    if s.len() > 0 {
        let t = s.drop_last();
        assert forall|i: int| 0 <= i < t.len() implies windows_1252_byte(#[trigger] t[i]) is Some by {
            assert(t[i] == s[i]);
        }
        law_encoded_text_reads_back(t);
        assert(windows_1252_byte(s[s.len() - 1]) is Some);
        law_bytes_and_characters_correspond(0, s.last());
        let bytes = encoded_text(s);
        assert(bytes =~= encoded_text(t).push(windows_1252_byte(s.last())->0));
        assert forall|i: int| 0 <= i < s.len() implies #[trigger] windows_1252_text(bytes)[i]
            == s[i] by {
            if i < t.len() {
                assert(windows_1252_text(encoded_text(t))[i] == t[i]);
            }
        }
        assert(windows_1252_text(bytes) =~= s);
    }
}

/// One more line, ended by a carriage return and a line feed, is one more line.
pub proof fn lemma_lines_append(before: Seq<char>, line: Seq<char>)
    requires
        before.len() == 0 || before.last() == '\n',
        !line.contains('\n'),
    ensures
        text::lines(before + line + seq!['\r', '\n']) == text::lines(before).push(line),
    decreases before.len(),
{
    let all = before + line + seq!['\r', '\n'];
    if before.len() == 0 {
        let n = line.len() as int + 1;
        assert(all =~= line + seq!['\r', '\n']);
        assert forall|i: int| 0 <= i < n implies #[trigger] all[i] != '\n' by {
            if i < line.len() {
                assert(line.contains(line[i]));
            }
        }
        text::lemma_first_index_is(all, '\n', n);
        assert(all.take(n).drop_last() =~= line);
        assert(all.skip(n + 1).len() == 0);
        assert(text::lines(all.skip(n + 1)) =~= seq![]);
        assert(all.take(n).last() == '\r');
        assert(text::lines(all) =~= seq![line]);
    } else {
        text::lemma_first_index(before, '\n');
        let n = text::first_index(before, '\n');
        if n == before.len() {
            assert(before[before.len() - 1] != '\n');
        }
        assert forall|i: int| 0 <= i < n implies #[trigger] all[i] != '\n' by {
            assert(all[i] == before[i]);
        }
        assert(all[n] == before[n]);
        text::lemma_first_index_is(all, '\n', n);
        let rest = before.skip(n + 1);
        assert(rest.len() > 0 ==> rest.last() == before.last());
        lemma_lines_append(rest, line);
        assert(all.skip(n + 1) =~= rest + line + seq!['\r', '\n']);
        assert(all.take(n) =~= before.take(n));
        assert(text::lines(all) =~= text::lines(before).push(line));
    }
}

/// A dump file whose lines hold Windows-1252 characters and no line feed reads back as the lines
/// it was written from.
pub proof fn law_written_lines_read_back(ls: Seq<Seq<char>>)
    requires
        forall|i: int| 0 <= i < ls.len() ==> representable(#[trigger] ls[i]),
        forall|i: int| 0 <= i < ls.len() ==> !(#[trigger] ls[i]).contains('\n'),
    ensures
        text::lines(windows_1252_text(encoded_lines(ls))) == ls,
    decreases ls.len(),
{
    lemma_written_text_ends(ls);
    if ls.len() == 0 {
        assert(text::lines(windows_1252_text(encoded_lines(ls))) =~= ls);
    } else {
        let before = ls.drop_last();
        let line = ls.last();
        assert forall|i: int| 0 <= i < before.len() implies representable(#[trigger] before[i]) by {
            assert(before[i] == ls[i]);
        }
        assert forall|i: int| 0 <= i < before.len() implies !(#[trigger] before[i]).contains(
            '\n',
        ) by {
            assert(before[i] == ls[i]);
        }
        law_written_lines_read_back(before);
        lemma_written_text_ends(before);
        assert(representable(ls[ls.len() - 1]));
        law_encoded_text_reads_back(line);
        let head = encoded_lines(before);
        let body = encoded_text(line);
        assert(windows_1252_text(encoded_lines(ls)) =~= windows_1252_text(head)
            + windows_1252_text(body) + seq!['\r', '\n']) by {
            let all = encoded_lines(ls);
            assert forall|i: int| 0 <= i < all.len() implies #[trigger] windows_1252_text(all)[i]
                == (windows_1252_text(head) + windows_1252_text(body) + seq!['\r', '\n'])[i] by {
                if i < head.len() {
                    assert(windows_1252_text(head)[i] == windows_1252_char(head[i]));
                } else if i < head.len() + body.len() {
                    assert(windows_1252_text(body)[i - head.len()] == windows_1252_char(
                        body[i - head.len()],
                    ));
                }
            }
        }
        assert(!ls[ls.len() - 1].contains('\n'));
        lemma_lines_append(windows_1252_text(head), line);
        assert(before.push(line) =~= ls);
    }
}

/// A written dump is empty or ends in a line feed.
proof fn lemma_written_text_ends(ls: Seq<Seq<char>>)
    ensures
        windows_1252_text(encoded_lines(ls)).len() == 0 || windows_1252_text(
            encoded_lines(ls),
        ).last() == '\n',
{
    if ls.len() > 0 {
        assert(encoded_lines(ls).last() == 0x0a);
    }
}

/// A character that Windows-1252 lacks is written as its decimal number between `&#` and `;`.
pub proof fn law_other_characters_are_numbered(c: char)
    requires
        windows_1252_byte(c) is None,
    ensures
        ({
            let bytes = encoded_char(c);
            let digits = Seq::new((bytes.len() - 3) as nat, |i: int| bytes[i + 2] as char);
            &&& bytes.len() > 3
            &&& bytes[0] == '&' as u8 && bytes[1] == '#' as u8 && bytes.last() == ';' as u8
            &&& text::all_digits(digits, 10)
            &&& text::digits_value(digits, 10) == c as int
        }),
{
    let bytes = encoded_char(c);
    let d = text::decimal(c as nat);
    text::law_numeral_is_read_back(c as nat, 10);
    let digits = Seq::new((bytes.len() - 3) as nat, |i: int| bytes[i + 2] as char);
    assert(bytes.len() == d.len() + 3);
    assert forall|i: int| 0 <= i < d.len() implies #[trigger] digits[i] == d[i] by {
        assert(0 <= text::digit_value(d[i]) < 10);
        assert(bytes[i + 2] == d[i] as u8);
    }
    assert(digits =~= d);
}

/// Texts are encoded one behind the other, and each line ends in a carriage return and a line feed.
pub proof fn law_texts_are_encoded_in_turn(a: Seq<char>, b: Seq<char>, ls: Seq<Seq<char>>)
    ensures
        encoded_text(a + b) == encoded_text(a) + encoded_text(b),
        encoded_lines(ls.push(a)) == encoded_lines(ls) + encoded_text(a) + seq![13u8, 10u8],
    decreases b.len(),
{
    assert(ls.push(a).drop_last() =~= ls);
    assert(encoded_lines(ls.push(a)) =~= encoded_lines(ls) + encoded_text(a) + seq![13u8, 10u8]);
    if b.len() == 0 {
        assert(a + b =~= a);
        assert(encoded_text(a) + encoded_text(b) =~= encoded_text(a));
    } else {
        law_texts_are_encoded_in_turn(a, b.drop_last(), ls);
        assert((a + b).drop_last() =~= a + b.drop_last());
        assert((a + b).last() == b.last());
        assert(encoded_text(a) + (encoded_text(b.drop_last()) + encoded_char(b.last()))
            =~= encoded_text(a) + encoded_text(b.drop_last()) + encoded_char(b.last()));
    }
}

} // verus!
