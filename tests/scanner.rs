use textscan::scanner::Scanner;

#[test]
fn expect_str_moves_position_and_column() {
    let mut s = Scanner::new("foo bar");
    assert!(s.expect_str("foo"));
    assert_eq!(s.position(), 3);
    assert_eq!(s.column(), 4);
    assert_eq!(s.line(), 1);
    s.skip_whitespace();
    assert_eq!(s.column(), 5);
    assert_eq!(s.remaining_str(), "bar");
}

#[test]
fn newline_moves_to_next_line() {
    let mut s = Scanner::new("a\nbc");
    assert_eq!(s.take_char(), Some('a'));
    assert_eq!((s.line(), s.column()), (1, 2));
    assert_eq!(s.take_char(), Some('\n'));
    assert_eq!((s.line(), s.column()), (2, 1));
    assert_eq!(s.take_char(), Some('b'));
    assert_eq!((s.line(), s.column()), (2, 2));
}

#[test]
fn expect_str_mismatch_stays_put() {
    let mut s = Scanner::new("foo");
    assert!(!s.expect_str("fox"));
    assert!(!s.expect_str("foobar"));
    assert_eq!(s.position(), 0);
    assert_eq!(s.column(), 1);
    assert!(s.expect_str(""));
    assert_eq!(s.position(), 0);
}

#[test]
fn expect_str_counts_code_points_and_newlines() {
    let mut s = Scanner::new("hé\nllo wörld");
    assert!(s.expect_str("hé\nllo w"));
    assert_eq!(s.position(), 9);
    assert_eq!(s.line(), 2);
    assert_eq!(s.column(), 6);
    s.expect_str_unchecked("ö");
    assert_eq!(s.position(), 11);
    assert_eq!(s.column(), 7);
}

#[test]
fn column_counts_code_points_not_bytes() {
    let mut s = Scanner::new("é€😀x");
    s.take_char();
    s.take_char();
    s.take_char();
    assert_eq!(s.column(), 4);
    assert_eq!(s.position(), 9);
    assert_eq!(s.peek_char(), Some('x'));
}

#[test]
fn peek_char_is_idempotent() {
    let mut s = Scanner::new("xyz");
    s.take_char();
    for _ in 0..5 {
        assert_eq!(s.peek_char(), Some('y'));
        assert_eq!(s.position(), 1);
        assert_eq!(s.column(), 2);
    }
    s.take_char();
    s.take_char();
    assert_eq!(s.peek_char(), None);
    assert_eq!(s.take_char(), None);
}

#[test]
fn take_char_yields_the_string_chars() {
    let text = "añ\n€😀 z\r\n";
    let mut s = Scanner::new(text);
    let mut got = Vec::new();
    while let Some(c) = s.take_char() {
        got.push(c);
    }
    assert_eq!(got, text.chars().collect::<Vec<char>>());
    assert_eq!(s.position(), text.len());
    assert_eq!(s.preceding_str(), text);
    assert_eq!(s.remaining_len(), 0);
}

#[test]
fn position_law_on_several_lines() {
    let text = "ab\ncd\n\nefg";
    let mut s = Scanner::new(text);
    while s.take_char().is_some() {}
    assert_eq!(s.line(), 4);
    assert_eq!(s.column(), 4);
}

#[test]
fn take_line_includes_newline() {
    let mut s = Scanner::new("one\ntwo");
    assert_eq!(s.take_line(), "one\n");
    assert_eq!((s.line(), s.column()), (2, 1));
    assert_eq!(s.take_line(), "two");
    assert_eq!((s.line(), s.column()), (2, 4));
    assert_eq!(s.take_line(), "");
}

#[test]
fn take_while_returns_matched_slice() {
    let mut s = Scanner::new("123abc");
    assert_eq!(s.take_while(|c| c.is_ascii_digit()), "123");
    assert_eq!(s.position(), 3);
    assert_eq!(s.take_while(|c| c.is_ascii_digit()), "");
    assert_eq!(s.remaining_str(), "abc");
}

#[test]
fn take_whitespace_knows_unicode_spaces() {
    let mut s = Scanner::new(" \u{3000}\t\nx");
    assert_eq!(s.take_whitespace(), " \u{3000}\t\n");
    assert_eq!((s.line(), s.column()), (2, 1));
    assert_eq!(s.peek_char(), Some('x'));
}

#[test]
fn skip_ascii_whitespace_stops_at_unicode_space() {
    let mut s = Scanner::new(" \r\n\u{3000}x");
    s.skip_ascii_whitespace();
    assert_eq!(s.position(), 3);
    assert_eq!((s.line(), s.column()), (2, 1));
    assert_eq!(s.peek_char(), Some('\u{3000}'));
}

#[test]
fn take_char_if_and_if_eq() {
    let mut s = Scanner::new("ab");
    assert_eq!(s.take_char_if(|c| c == 'b'), None);
    assert_eq!(s.take_char_if(|c| c == 'a'), Some('a'));
    assert!(!s.take_char_if_eq('a'));
    assert!(s.take_char_if_eq('b'));
    assert!(!s.take_char_if_eq('b'));
    assert_eq!(s.column(), 3);
}

#[test]
fn slice_back_from_marker() {
    let mut s = Scanner::new("let x = 1;");
    s.expect_str("let ");
    let mark = s.as_ptr();
    assert_eq!(mark, 4);
    s.take_while(|c| c.is_alphanumeric());
    assert_eq!(s.slice_back_unchecked(mark), "x");
    assert_eq!(s.preceding_str(), "let x");
    assert_eq!(s.remaining_len(), 5);
}

#[test]
fn clone_keeps_position() {
    let mut s = Scanner::new("a\nbc");
    s.take_char();
    s.take_char();
    let mut t = s.clone();
    assert_eq!((t.line(), t.column(), t.position()), (2, 1, 2));
    assert_eq!(t.take_char(), Some('b'));
    assert_eq!(s.peek_char(), Some('b'));
}
