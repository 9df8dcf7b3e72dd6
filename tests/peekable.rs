use textscan::peekable::PeekableChars;

#[test]
fn peekable_next_and_peek() {
    let mut p = PeekableChars::new("a€");
    assert_eq!(p.peek(), Some('a'));
    assert_eq!(p.peek(), Some('a'));
    assert_eq!(p.next(), Some('a'));
    assert_eq!(p.peek(), Some('€'));
    assert_eq!(p.next(), Some('€'));
    assert_eq!(p.peek(), None);
    assert_eq!(p.next(), None);
}

#[test]
fn peekable_next_if() {
    let mut p = PeekableChars::new("12x");
    assert_eq!(p.next_if(|c| c.is_ascii_digit()), Some('1'));
    assert_eq!(p.next_if(|c| c.is_ascii_digit()), Some('2'));
    assert_eq!(p.next_if(|c| c.is_ascii_digit()), None);
    assert_eq!(p.peek(), Some('x'));
    assert_eq!(p.next_if_eq('y'), None);
    assert_eq!(p.next_if_eq('x'), Some('x'));
    assert_eq!(p.next_if_eq('x'), None);
}
