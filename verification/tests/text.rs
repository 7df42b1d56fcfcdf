use ppm_canvas::text::{
    char_is_whitespace, chars_of, join, push_decimal, read_number, split, trim_end,
};

fn text(s: &str) -> Vec<char> {
    s.chars().collect()
}

fn texts(parts: &[&str]) -> Vec<Vec<char>> {
    parts.iter().map(|part| text(part)).collect()
}

#[test]
fn chars_of_keeps_every_character() {
    assert_eq!(chars_of("a\u{e9}\u{3000}z"), vec!['a', '\u{e9}', '\u{3000}', 'z']);
    assert!(chars_of("").is_empty());
}

#[test]
fn split_keeps_empty_pieces() {
    assert_eq!(split(&text("a b"), ' '), texts(&["a", "b"]));
    assert_eq!(split(&text(""), ' '), texts(&[""]));
    assert_eq!(split(&text(" a  b "), ' '), texts(&["", "a", "", "b", ""]));
    assert_eq!(split(&text("P3\n1 1\n"), '\n'), texts(&["P3", "1 1", ""]));
}

#[test]
fn join_puts_the_separator_between_parts() {
    let parts = texts(&["x", "a", "", "b c"]);
    assert_eq!(join(&parts, 0, ' '), text("x a  b c"));
    assert_eq!(join(&parts, 1, ' '), text("a  b c"));
    assert_eq!(join(&parts, 3, '-'), text("b c"));
    assert_eq!(join(&parts, 4, ' '), text(""));
}

#[test]
fn split_undoes_join() {
    let parts = texts(&["12", "", "7", "255"]);
    assert_eq!(split(&join(&parts, 0, ' '), ' '), parts);
}

#[test]
fn join_undoes_split() {
    for line in ["", " ", "255 127 0", " 1  2 ", "no separator"] {
        assert_eq!(join(&split(&text(line), ' '), 0, ' '), text(line));
    }
}

#[test]
fn trim_end_removes_trailing_whitespace_only() {
    let mut line = text("  a b \t\n\u{2003} ");
    trim_end(&mut line);
    assert_eq!(line, text("  a b"));
    let mut blank = text(" \n ");
    trim_end(&mut blank);
    assert!(blank.is_empty());
}

#[test]
fn whitespace_is_what_std_calls_whitespace() {
    for code in 0..=0x3100u32 {
        if let Some(c) = char::from_u32(code) {
            assert_eq!(char_is_whitespace(c), c.is_whitespace(), "U+{:04X}", code);
        }
    }
}

#[test]
fn read_number_accepts_digits_up_to_the_limit() {
    assert_eq!(read_number(&text("0"), 10), Some(0));
    assert_eq!(read_number(&text("10"), 10), Some(10));
    assert_eq!(read_number(&text("11"), 10), None);
    assert_eq!(read_number(&text("+7"), 10), Some(7));
    assert_eq!(read_number(&text("0007"), 10), Some(7));
    assert_eq!(read_number(&text("18446744073709551615"), u64::MAX), Some(u64::MAX));
    assert_eq!(read_number(&text("18446744073709551616"), u64::MAX), None);
    assert_eq!(read_number(&text("5"), 0), None);
}

#[test]
fn read_number_agrees_with_std_on_what_is_a_number() {
    for token in ["", "+", "-", "-1", "1 ", " 1", "1.0", "1e3", "0x10", "\u{661}", "12a", "+-1", "1+"] {
        assert_eq!(read_number(&text(token), u64::MAX), token.parse::<u64>().ok(), "{:?}", token);
    }
    for token in ["0", "+0", "42", "+42", "00042", "4294967295"] {
        assert_eq!(read_number(&text(token), u64::MAX), token.parse::<u64>().ok(), "{:?}", token);
    }
}

#[test]
fn push_decimal_appends_the_number() {
    let mut out = String::from("n=");
    push_decimal(&mut out, 0);
    push_decimal(&mut out, 1234567890);
    push_decimal(&mut out, u64::MAX);
    assert_eq!(out, "n=0123456789018446744073709551615");
}
