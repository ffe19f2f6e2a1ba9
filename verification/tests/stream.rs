use squire::error::ErrorKind;
use squire::parse::stream::Stream;
use squire::unicode::chars_of;

#[test]
fn chars_of_gives_the_characters_in_order() {
    assert_eq!(chars_of("a\u{1D51E}b"), vec!['a', '\u{1D51E}', 'b']);
    assert_eq!(chars_of(""), vec![]);
}

#[test]
fn from_chars_reads_the_first_character_first() {
    let mut stream = Stream::from_chars(vec!['x', 'y']);
    assert_eq!(stream.position(), 0);
    assert_eq!(stream.next(), Some('x'));
    assert_eq!(stream.next(), Some('y'));
    assert_eq!(stream.next(), None);
    assert!(Stream::from_chars(vec![]).is_empty());
}

#[test]
fn peek_does_not_consume() {
    let stream = Stream::new("ab");
    assert_eq!(stream.peek(), Some('a'));
    assert_eq!(stream.peek(), Some('a'));
    assert_eq!(stream.position(), 0);
}

#[test]
fn next_consumes_in_order_and_ends() {
    let mut stream = Stream::new("ab");
    assert_eq!(stream.next(), Some('a'));
    assert_eq!(stream.position(), 1);
    assert_eq!(stream.next(), Some('b'));
    assert!(stream.is_empty());
    assert_eq!(stream.next(), None);
    assert_eq!(stream.position(), 2);
}

#[test]
fn take_while_takes_the_longest_prefix() {
    let mut stream = Stream::new("123abc");
    assert_eq!(stream.take_while(|c| c.is_ascii_digit()), Some("123".to_string()));
    assert_eq!(stream.peek(), Some('a'));
    assert_eq!(stream.position(), 3);
}

#[test]
fn take_while_gives_none_when_nothing_matches() {
    let mut stream = Stream::new("abc");
    assert_eq!(stream.take_while(|c| c.is_ascii_digit()), None);
    assert_eq!(stream.peek(), Some('a'));
    let mut empty = Stream::new("");
    assert_eq!(empty.take_while(|_| true), None);
}

#[test]
fn take_while_may_take_everything() {
    let mut stream = Stream::new("777");
    assert_eq!(stream.take_while(|c| c == '7'), Some("777".to_string()));
    assert!(stream.is_empty());
}

#[test]
fn take_prefix_consumes_only_on_match() {
    let mut stream = Stream::new("=>x");
    assert!(!stream.take_prefix("=="));
    assert_eq!(stream.position(), 0);
    assert!(stream.take_prefix("=>"));
    assert_eq!(stream.peek(), Some('x'));
    assert!(!stream.take_prefix("xy"));
    assert!(stream.take_prefix(""));
    assert_eq!(stream.peek(), Some('x'));
}

#[test]
fn take_identifier_needs_a_word_boundary() {
    let mut stream = Stream::new("ifrit");
    assert!(!stream.take_identifier("if"));
    assert_eq!(stream.position(), 0);
    let mut stream = Stream::new("if_");
    assert!(!stream.take_identifier("if"));
    let mut stream = Stream::new("if9");
    assert!(!stream.take_identifier("if"));
    let mut stream = Stream::new("if(");
    assert!(stream.take_identifier("if"));
    assert_eq!(stream.peek(), Some('('));
    let mut stream = Stream::new("if");
    assert!(stream.take_identifier("if"));
    assert!(stream.is_empty());
}

#[test]
fn put_back_requeues_in_order() {
    let mut stream = Stream::new("cd");
    stream.put_back("ab");
    assert_eq!(stream.next(), Some('a'));
    assert_eq!(stream.next(), Some('b'));
    assert_eq!(stream.next(), Some('c'));
    assert_eq!(stream.next(), Some('d'));
    assert_eq!(stream.next(), None);
}

#[test]
fn put_back_is_last_in_first_out() {
    let mut stream = Stream::new("z");
    stream.put_back("cd");
    stream.put_back("ab");
    let mut seen = String::new();
    while let Some(c) = stream.next() {
        seen.push(c);
    }
    assert_eq!(seen, "abcdz");
}

#[test]
fn put_back_restores_the_position() {
    let mut stream = Stream::new("Ivan");
    let run = stream.take_while(|c| c == 'I' || c == 'v').unwrap();
    assert_eq!(stream.position(), 2);
    stream.put_back(&run);
    assert_eq!(stream.position(), 0);
    stream.put_back("xx");
    assert_eq!(stream.position(), 0);
}

#[test]
fn strip_skips_whitespace_and_comments() {
    let mut stream = Stream::new("  \t\n# a comment\n  # another\nx # not reached");
    stream.strip_whitespace_and_comments();
    assert_eq!(stream.peek(), Some('x'));
    stream.strip_whitespace_and_comments();
    assert_eq!(stream.peek(), Some('x'));
}

#[test]
fn strip_skips_unicode_whitespace() {
    let mut stream = Stream::new("\u{A0}\u{2003}y");
    stream.strip_whitespace_and_comments();
    assert_eq!(stream.peek(), Some('y'));
}

#[test]
fn strip_stops_at_the_end_inside_a_comment() {
    let mut stream = Stream::new("# only a comment");
    stream.strip_whitespace_and_comments();
    assert!(stream.is_empty());
}

#[test]
fn error_carries_kind_and_position() {
    let mut stream = Stream::new("abc");
    stream.next();
    stream.next();
    let error = stream.error(ErrorKind::BadFrakturSuffix);
    assert_eq!(error.kind, ErrorKind::BadFrakturSuffix);
    assert_eq!(error.position, Some(2));
}
