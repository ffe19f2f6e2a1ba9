use squire::value::text::{from_fraktur, is_fraktur, to_fraktur, Text};

fn text_written(text: &str) -> String {
    let mut out = String::new();
    Text::new(text).dump(&mut out);
    out
}

#[test]
fn fraktur_capitals() {
    assert_eq!(to_fraktur('A'), Some('\u{1D504}'));
    assert_eq!(to_fraktur('B'), Some('\u{1D505}'));
    assert_eq!(to_fraktur('C'), Some('\u{212D}'));
    assert_eq!(to_fraktur('H'), Some('\u{210C}'));
    assert_eq!(to_fraktur('I'), Some('\u{2111}'));
    assert_eq!(to_fraktur('R'), Some('\u{211C}'));
    assert_eq!(to_fraktur('Y'), Some('\u{1D51C}'));
    assert_eq!(to_fraktur('Z'), Some('\u{2128}'));
}

#[test]
fn fraktur_small_letters() {
    assert_eq!(to_fraktur('a'), Some('\u{1D51E}'));
    assert_eq!(to_fraktur('m'), Some('\u{1D52A}'));
    assert_eq!(to_fraktur('z'), Some('\u{1D537}'));
}

#[test]
fn only_ascii_letters_have_a_fraktur_form() {
    assert_eq!(to_fraktur('1'), None);
    assert_eq!(to_fraktur(' '), None);
    assert_eq!(to_fraktur('\u{E9}'), None);
    assert_eq!(to_fraktur('\u{1D504}'), None);
}

#[test]
fn fraktur_round_trips_for_every_letter() {
    for letter in ('A'..='Z').chain('a'..='z') {
        let fraktur = to_fraktur(letter).unwrap();
        assert!(is_fraktur(fraktur));
        assert!(!is_fraktur(letter));
        assert_eq!(from_fraktur(fraktur), Some(letter));
    }
}

#[test]
fn gaps_in_the_fraktur_block_are_no_letters() {
    for gap in ['\u{1D506}', '\u{1D50B}', '\u{1D50C}', '\u{1D515}', '\u{1D51D}', '\u{1D538}', '\u{1D503}'] {
        assert!(!is_fraktur(gap));
        assert_eq!(from_fraktur(gap), None);
    }
    assert_eq!(from_fraktur('A'), None);
}

#[test]
fn new_and_as_str() {
    let text = Text::new("hello");
    assert_eq!(text.as_str(), "hello");
    assert!(!text.is_empty());
    assert!(Text::new("").is_empty());
    assert!(Text::default().is_empty());
    assert_eq!(Text::from_string("abc".to_string()), Text::new("abc"));
}

#[test]
fn new_fraktur_keeps_the_fraktur_letters() {
    let text = Text::new_fraktur("\u{1D525}\u{1D526}".to_string());
    assert_eq!(text.as_str(), "\u{1D525}\u{1D526}");
}

#[test]
fn char_at_counts_from_either_end() {
    let text = Text::new("a\u{E9}c");
    assert_eq!(text.char_at(0), Some('a'));
    assert_eq!(text.char_at(1), Some('\u{E9}'));
    assert_eq!(text.char_at(2), Some('c'));
    assert_eq!(text.char_at(3), None);
    assert_eq!(text.char_at(-1), Some('c'));
    assert_eq!(text.char_at(-3), Some('a'));
    assert_eq!(text.char_at(-4), None);
    assert_eq!(text.char_at(isize::MAX), None);
    assert_eq!(text.char_at(isize::MIN), None);
    assert_eq!(Text::new("").char_at(0), None);
    assert_eq!(Text::new("").char_at(-1), None);
}

#[test]
fn add_appends() {
    assert_eq!(Text::new("ab").add("cd"), Text::new("abcd"));
    assert_eq!(Text::new("").add(""), Text::new(""));
}

#[test]
fn mul_repeats() {
    assert_eq!(Text::new("ab").mul(0), Text::new(""));
    assert_eq!(Text::new("ab").mul(1), Text::new("ab"));
    assert_eq!(Text::new("ab").mul(3), Text::new("ababab"));
}

#[test]
fn clone_is_equal() {
    let text = Text::new("same");
    assert_eq!(text.clone(), text);
}

#[test]
fn dump_quotes_and_escapes() {
    assert_eq!(text_written("abc"), "\"abc\"");
    assert_eq!(text_written(""), "\"\"");
    assert_eq!(text_written("a\nb"), "\"a\\nb\"");
    assert_eq!(text_written("q\"q"), "\"q\\\"q\"");
    assert_eq!(text_written("b\\s"), "\"b\\\\s\"");
    assert_eq!(text_written("\t\r\0"), "\"\\t\\r\\0\"");
    assert_eq!(text_written("it's"), "\"it's\"");
}
