use nvram_editor::codec::{decode_file, encode_lines};
use nvram_editor::text::{
    contains_chars, is_alphanumeric, is_white_space, join_strings, numeral_chars, parse_number,
    split_lines, split_words, to_ascii_lower, to_chars, to_text, trim_text,
};

fn strings(v: &[&str]) -> Vec<String> {
    v.iter().map(|s| s.to_string()).collect()
}

#[test]
fn white_space_is_unicode_white_space() {
    for c in '\0'..=char::MAX {
        assert_eq!(is_white_space(c), c.is_whitespace(), "{c:?}");
        assert_eq!(is_alphanumeric(c), c.is_ascii_alphanumeric(), "{c:?}");
        assert_eq!(to_ascii_lower(c), c.to_ascii_lowercase(), "{c:?}");
    }
}

#[test]
fn strings_and_characters_convert() {
    assert_eq!(to_chars("a€"), vec!['a', '€']);
    assert_eq!(to_text(&['x', '→', 'y']), "x→y");
}

#[test]
fn trimming_removes_white_space_at_both_ends() {
    for s in ["", " ", "a", "  a b \t", "\u{a0}x\u{2003}", "\u{feff}x"] {
        assert_eq!(trim_text(s), s.trim());
        assert_eq!(trim_text(&trim_text(s)), s.trim());
        let padded = format!(" \t{s}\u{3000}");
        assert_eq!(trim_text(&padded), s.trim());
    }
}

#[test]
fn lines_end_in_line_feeds() {
    for s in ["", "\n", "a", "a\n", "a\r\nb", "a\r", "\r\n\r\n", "a\n\nb\r\r\n"] {
        let want: Vec<String> = s.lines().map(|l| l.to_string()).collect();
        assert_eq!(split_lines(&to_chars(s)), want, "{s:?}");
    }
}

#[test]
fn words_are_split_and_joined() {
    for s in ["", "  ", "a", " ab  c\t", "x\u{2003}y"] {
        let want: Vec<Vec<char>> = s.split_whitespace().map(|w| w.chars().collect()).collect();
        assert_eq!(split_words(&to_chars(s)), want);
    }
    assert_eq!(join_strings(&strings(&["a", "b", "c"]), ", "), "a, b, c");
    assert_eq!(join_strings(&[], ", "), "");
}

#[test]
fn parts_are_found() {
    assert!(contains_chars(&to_chars("abcab"), &to_chars("cab")));
    assert!(contains_chars(&to_chars("abc"), &[]));
    assert!(!contains_chars(&to_chars("abc"), &to_chars("ac")));
    assert!(!contains_chars(&to_chars("a"), &to_chars("aa")));
}

#[test]
fn numbers_are_written_and_read() {
    assert_eq!(to_text(&numeral_chars(0, 10)), "0");
    assert_eq!(to_text(&numeral_chars(u64::MAX, 10)), "18446744073709551615");
    assert_eq!(to_text(&numeral_chars(0xBEEF, 16)), "BEEF");
    assert_eq!(parse_number(&to_chars("+12"), 10, 99), Some(12));
    assert_eq!(parse_number(&to_chars("12"), 10, 11), None);
    assert_eq!(parse_number(&to_chars("fF"), 16, 255), Some(255));
    assert_eq!(parse_number(&to_chars("+"), 10, 99), None);
    assert_eq!(parse_number(&to_chars("-1"), 10, 99), None);
    assert_eq!(parse_number(&to_chars("18446744073709551616"), 10, u64::MAX), None);
    assert_eq!(parse_number(&to_chars("0000000000000000000000001"), 10, 9), Some(1));
}

#[test]
fn files_are_windows_1252() {
    assert_eq!(decode_file(&[0x41, 0x80, 0xe4, 0x81, 0x92]), "A\u{20ac}\u{e4}\u{81}\u{2019}");
    assert_eq!(decode_file(&[]), "");
}

#[test]
fn byte_order_marks_are_obeyed() {
    assert_eq!(decode_file(&[0xef, 0xbb, 0xbf, 0xc3, 0xa4]), "\u{e4}");
    assert_eq!(decode_file(&[0xff, 0xfe, 0x41, 0x00]), "A");
    assert_eq!(decode_file(&[0xfe, 0xff, 0x00, 0x41]), "A");
}

#[test]
fn characters_outside_windows_1252_become_references() {
    assert_eq!(encode_lines(&strings(&["a\u{e4}"])), b"a\xe4\r\n".to_vec());
    assert_eq!(encode_lines(&strings(&["\u{65e5}", ""])), b"&#26085;\r\n\r\n".to_vec());
    assert_eq!(encode_lines(&strings(&["\u{20ac}"])), b"\x80\r\n".to_vec());
}

#[test]
fn every_byte_is_read_and_written_back() {
    for b in 0u8..=255 {
        if b == b'\n' {
            continue;
        }
        let text = decode_file(&[b]);
        assert_eq!(text.chars().count(), 1);
        assert_eq!(encode_lines(&[text]), vec![b, b'\r', b'\n']);
    }
}

#[test]
fn written_lines_are_read_back() {
    let lines = strings(&["Setup Question = A", "", "\u{20ac}\u{e4} // x", "ends in cr\r"]);
    let text = decode_file(&encode_lines(&lines));
    assert_eq!(split_lines(&to_chars(&text)), lines);
}
