use kvwire::decoder::CharRoller;

#[test]
fn test_char_roller() {
    let mut roller = CharRoller::from_string("hello\r\nworld\r\n".to_string());
    let word = roller.next_word();
    assert_eq!(word, Some("hello".to_string()));
    let word = roller.next_word();
    assert_eq!(word, Some("world".to_string()));
    let word = roller.next_word();
    assert_eq!(word, None);
}

#[test]
fn empty_text_yields_nothing() {
    let mut roller = CharRoller::from_string(String::new());
    assert_eq!(roller.next_word(), None);
    assert_eq!(roller.next_word(), None);
}

#[test]
fn last_line_needs_no_terminator() {
    let mut roller = CharRoller::from_string("a\r\nbc".to_string());
    assert_eq!(roller.next_word(), Some("a".to_string()));
    assert_eq!(roller.next_word(), Some("bc".to_string()));
    assert_eq!(roller.next_word(), None);
}

#[test]
fn carriage_returns_are_dropped_inside_tokens() {
    let mut roller = CharRoller::from_string("a\rb\r\r\nc\n".to_string());
    assert_eq!(roller.next_word(), Some("ab".to_string()));
    assert_eq!(roller.next_word(), Some("c".to_string()));
    assert_eq!(roller.next_word(), None);
}

#[test]
fn blank_line_reads_as_nothing_and_is_passed() {
    let mut roller = CharRoller::from_string("x\r\n\r\ny\r\n".to_string());
    assert_eq!(roller.next_word(), Some("x".to_string()));
    assert_eq!(roller.next_word(), None);
    assert_eq!(roller.next_word(), Some("y".to_string()));
    assert_eq!(roller.next_word(), None);
}

#[test]
fn segments_joined_by_crlf_read_back() {
    let segs = ["*2", "$4", "ECHO", "$5", "héllo"];
    let mut text = String::new();
    for s in segs.iter() {
        text.push_str(s);
        text.push_str("\r\n");
    }
    let mut roller = CharRoller::from_string(text);
    for s in segs.iter() {
        assert_eq!(roller.next_word(), Some(s.to_string()));
    }
    assert_eq!(roller.next_word(), None);
}
