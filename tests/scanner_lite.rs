use textscan::scanner_lite::ScannerLite;

#[test]
fn lite_next_char_yields_the_string_chars() {
    let text = "añ€😀\n";
    let mut s = ScannerLite::new(text);
    let mut got = Vec::new();
    while let Some(c) = s.next_char() {
        got.push(c);
    }
    assert_eq!(got, text.chars().collect::<Vec<char>>());
    assert!(s.is_done());
    assert_eq!(s.next_char(), None);
}

#[test]
fn lite_skip_char_uses_leading_byte() {
    let mut s = ScannerLite::new("é€😀z");
    assert!(s.skip_char());
    assert_eq!(s.remaining_len(), 8);
    assert!(s.skip_char());
    assert_eq!(s.remaining_len(), 5);
    assert!(s.skip_char());
    assert_eq!(s.remaining_str(), "z");
    assert!(s.skip_char());
    assert!(!s.skip_char());
    assert!(s.is_done());
}

#[test]
fn lite_peek_does_not_advance() {
    let s = ScannerLite::new("€x");
    assert_eq!(s.peek_char(), Some('€'));
    assert_eq!(s.peek_char(), Some('€'));
    assert_eq!(s.peek_byte(), Some(0xE2));
    assert_eq!(s.remaining_len(), 4);
    let e = ScannerLite::new("");
    assert_eq!(e.peek_char(), None);
    assert_eq!(e.peek_byte(), None);
    assert!(e.is_done());
}

#[test]
fn lite_expect_char_and_str() {
    let mut s = ScannerLite::new("fn main");
    assert!(!s.expect_char('x'));
    assert!(s.expect_char('f'));
    assert!(!s.expect_str("x"));
    assert!(s.expect_str("n "));
    assert_eq!(s.remaining_str(), "main");
    s.expect_char_unchecked('m');
    s.expect_str_unchecked("ai");
    assert_eq!(s.remaining_str(), "n");
    assert!(!s.expect_str("nn"));
}

#[test]
fn lite_next_line() {
    let mut s = ScannerLite::new("a€\nb\n\nc");
    assert_eq!(s.next_line(), "a€\n");
    assert_eq!(s.next_line(), "b\n");
    assert_eq!(s.next_line(), "\n");
    assert_eq!(s.next_line(), "c");
    assert_eq!(s.next_line(), "");
}

#[test]
fn lite_whitespace_skipping() {
    let mut s = ScannerLite::new("\t \u{2003}x");
    s.skip_ascii_whitespace();
    assert_eq!(s.remaining_str(), "\u{2003}x");
    s.skip_whitespace();
    assert_eq!(s.remaining_str(), "x");
    s.skip_whitespace();
    assert_eq!(s.remaining_str(), "x");
}

#[test]
fn lite_skip_chars_while_and_bytes() {
    let mut s = ScannerLite::new("aaab€c");
    s.skip_chars_while(|c| c == 'a');
    assert_eq!(s.remaining_str(), "b€c");
    s.skip_bytes_unchecked(4);
    assert_eq!(s.remaining_str(), "c");
}

#[test]
fn lite_whitespace_matches_std_for_every_char() {
    for v in 0..=0x10FFFFu32 {
        if let Some(c) = char::from_u32(v) {
            let text = c.to_string();
            let mut s = ScannerLite::new(&text);
            s.skip_whitespace();
            assert_eq!(s.is_done(), c.is_whitespace(), "U+{:04X}", v);
        }
    }
}
