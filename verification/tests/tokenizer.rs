use squire::error::{Error, ErrorKind, NumeralParseError};
use squire::parse::stream::Stream;
use squire::parse::token::{Keyword, Literal, ParenKind, Symbol, Token, TokenKind};
use squire::parse::tokenizer::Tokenizer;
use squire::value::numeral::Numeral;
use squire::value::text::Text;

fn tokenizer_on(source: &str) -> Tokenizer {
    Tokenizer::new(Stream::new(source))
}

fn all_tokens(source: &str) -> Vec<Token> {
    let mut tokenizer = tokenizer_on(source);
    let mut tokens = Vec::new();
    while let Some(token) = tokenizer.next() {
        tokens.push(token.expect("no lexical error"));
    }
    tokens
}

fn first_error(source: &str) -> Error {
    let mut tokenizer = tokenizer_on(source);
    while let Some(token) = tokenizer.next() {
        if let Err(error) = token {
            return error;
        }
    }
    panic!("no lexical error in {:?}", source);
}

fn numeral(n: i64) -> Token {
    Token::Literal(Literal::Numeral(Numeral::new(n)))
}

fn text(s: &str) -> Token {
    Token::Literal(Literal::Text(Text::new(s)))
}

fn identifier(s: &str) -> Token {
    Token::Identifier(s.to_string())
}

#[test]
fn empty_source_has_no_tokens() {
    assert_eq!(all_tokens(""), vec![]);
    assert_eq!(all_tokens("   \n\t # nothing here"), vec![]);
}

#[test]
fn arabic_numerals() {
    assert_eq!(all_tokens("123"), vec![numeral(123)]);
    assert_eq!(all_tokens("123 "), vec![numeral(123)]);
    assert_eq!(all_tokens("1_000;"), vec![numeral(1000), Token::Symbol(Symbol::Endline)]);
    assert_eq!(all_tokens("0"), vec![numeral(0)]);
}

#[test]
fn arabic_numeral_with_suffix_is_an_error() {
    let error = first_error("123x");
    assert_eq!(error.kind, ErrorKind::BadNumeral(NumeralParseError::BadTrailingChar('x')));
    assert_eq!(error.position, Some(3));
    let error = first_error("  7\u{E9}");
    assert_eq!(error.kind, ErrorKind::BadNumeral(NumeralParseError::BadTrailingChar('\u{E9}')));
    assert_eq!(error.position, Some(3));
}

#[test]
fn arabic_numeral_too_large_is_an_error() {
    let error = first_error("9223372036854775808");
    assert_eq!(error.kind, ErrorKind::BadNumeral(NumeralParseError::Overflow));
    assert_eq!(error.position, Some(19));
}

#[test]
fn roman_numerals() {
    assert_eq!(all_tokens("XIV"), vec![numeral(14)]);
    assert_eq!(all_tokens("xiv"), vec![numeral(14)]);
    assert_eq!(all_tokens("MMXXVI + I"), vec![numeral(2026), Token::Symbol(Symbol::Plus), numeral(1)]);
    assert_eq!(all_tokens("\u{2169}\u{2164}"), vec![numeral(15)]);
}

#[test]
fn roman_run_before_a_letter_is_an_identifier() {
    assert_eq!(all_tokens("Ivan"), vec![identifier("Ivan")]);
    assert_eq!(all_tokens("mixer"), vec![identifier("mixer")]);
    assert_eq!(all_tokens("civic9"), vec![identifier("civic9")]);
}

#[test]
fn words_made_of_glyphs_are_numerals() {
    assert_eq!(all_tokens("x"), vec![numeral(10)]);
    assert_eq!(all_tokens("mix"), vec![numeral(1009)]);
    assert_eq!(all_tokens("dim"), vec![numeral(1499)]);
}

#[test]
fn roman_run_of_underscores_is_an_error() {
    let error = first_error("_ ");
    assert_eq!(error.kind, ErrorKind::BadNumeral(NumeralParseError::Empty));
    assert_eq!(error.position, Some(1));
}

#[test]
fn underscore_before_letters_is_a_bad_numeral() {
    let error = first_error("_foo");
    assert_eq!(error.kind, ErrorKind::BadNumeral(NumeralParseError::BadTrailingChar('f')));
    assert_eq!(error.position, Some(1));
}

#[test]
fn keywords_are_recognised() {
    let spellings = [
        ("form", Keyword::Class),
        ("change", Keyword::Method),
        ("matter", Keyword::Field),
        ("essence", Keyword::ClassField),
        ("recall", Keyword::ClassFn),
        ("imitate", Keyword::Constructor),
        ("journey", Keyword::Function),
        ("renowned", Keyword::Global),
        ("nigh", Keyword::Local),
        ("if", Keyword::If),
        ("alas", Keyword::Else),
        ("whence", Keyword::ComeFrom),
        ("whilst", Keyword::While),
        ("reward", Keyword::Return),
        ("attempt", Keyword::Try),
        ("retreat", Keyword::Catch),
        ("catapult", Keyword::Throw),
        ("fork", Keyword::Switch),
        ("path", Keyword::Case),
        ("challenge", Keyword::Assert),
    ];
    for (rank, (spelling, keyword)) in spellings.iter().enumerate() {
        assert_eq!(all_tokens(spelling), vec![Token::Keyword(*keyword)]);
        assert_eq!(keyword.word(), *spelling);
        assert_eq!(Keyword::at_rank(rank), *keyword);
        let longer = format!("{}s", spelling);
        assert_eq!(all_tokens(&longer), vec![identifier(&longer)]);
    }
}

#[test]
fn keyword_needs_a_word_boundary() {
    assert_eq!(all_tokens("if"), vec![Token::Keyword(Keyword::If)]);
    assert_eq!(all_tokens("ifrit"), vec![identifier("ifrit")]);
    assert_eq!(all_tokens("if_"), vec![identifier("if_")]);
    assert_eq!(
        all_tokens("if("),
        vec![Token::Keyword(Keyword::If), Token::LeftParen(ParenKind::Round)]
    );
}

#[test]
fn word_literals() {
    assert_eq!(all_tokens("yay"), vec![Token::Literal(Literal::Boolean(true))]);
    assert_eq!(all_tokens("nay"), vec![Token::Literal(Literal::Boolean(false))]);
    assert_eq!(all_tokens("ni"), vec![Token::Literal(Literal::Null)]);
    assert_eq!(all_tokens("nil"), vec![identifier("nil")]);
    assert_eq!(all_tokens("yayy"), vec![identifier("yayy")]);
}

#[test]
fn identifiers() {
    assert_eq!(all_tokens("foo bar_2"), vec![identifier("foo"), identifier("bar_2")]);
    assert_eq!(all_tokens("\u{E9}t\u{E9}"), vec![identifier("\u{E9}t\u{E9}")]);
}

#[test]
fn brackets() {
    assert_eq!(
        all_tokens("([{}])"),
        vec![
            Token::LeftParen(ParenKind::Round),
            Token::LeftParen(ParenKind::Square),
            Token::LeftParen(ParenKind::Curly),
            Token::RightParen(ParenKind::Curly),
            Token::RightParen(ParenKind::Square),
            Token::RightParen(ParenKind::Round),
        ]
    );
}

#[test]
fn symbols() {
    let cases = [
        (";", Symbol::Endline),
        (",", Symbol::Comma),
        (":", Symbol::Colon),
        (".", Symbol::Dot),
        ("=", Symbol::Equal),
        ("==", Symbol::EqualEqual),
        ("!=", Symbol::NotEqual),
        ("<", Symbol::LessThan),
        ("<=", Symbol::LessThanOrEqual),
        (">", Symbol::GreaterThan),
        (">=", Symbol::GreaterThanOrEqual),
        ("<=>", Symbol::Compare),
        ("+", Symbol::Plus),
        ("+=", Symbol::PlusEqual),
        ("-", Symbol::Hyphen),
        ("-=", Symbol::HyphenEqual),
        ("*", Symbol::Asterisk),
        ("*=", Symbol::AsteriskEqual),
        ("**", Symbol::AsteriskAsterisk),
        ("**=", Symbol::AsteriskAsteriskEqual),
        ("/", Symbol::Solidus),
        ("/=", Symbol::SolidusEqual),
        ("%", Symbol::PercentSign),
        ("%=", Symbol::PercentSignEqual),
        ("!", Symbol::Exclamation),
        ("&&", Symbol::AndAnd),
        ("||", Symbol::OrOr),
    ];
    for (source, symbol) in cases {
        assert_eq!(all_tokens(source), vec![Token::Symbol(symbol)], "{}", source);
    }
}

#[test]
fn compare_is_tried_before_less_or_equal() {
    assert_eq!(
        all_tokens("a<=>b<=p<q"),
        vec![
            identifier("a"),
            Token::Symbol(Symbol::Compare),
            identifier("b"),
            Token::Symbol(Symbol::LessThanOrEqual),
            identifier("p"),
            Token::Symbol(Symbol::LessThan),
            identifier("q"),
        ]
    );
    assert_eq!(
        all_tokens("<=="),
        vec![Token::Symbol(Symbol::LessThanOrEqual), Token::Symbol(Symbol::Equal)]
    );
}

#[test]
fn unknown_token_start() {
    let error = first_error("a ?");
    assert_eq!(error, Error { kind: ErrorKind::UnknownTokenStart('?'), position: Some(3) });
    assert_eq!(first_error("&").kind, ErrorKind::UnknownTokenStart('&'));
    assert_eq!(first_error("|x").kind, ErrorKind::UnknownTokenStart('|'));
    assert_eq!(first_error("&|").kind, ErrorKind::UnknownTokenStart('&'));
}

#[test]
fn macro_syntax_is_not_available() {
    let error = first_error("@name");
    assert_eq!(error, Error { kind: ErrorKind::UnsupportedMacro, position: Some(0) });
    let error = first_error(" $name");
    assert_eq!(error, Error { kind: ErrorKind::UnsupportedMacro, position: Some(2) });
}

#[test]
fn comments_run_to_the_end_of_the_line() {
    assert_eq!(
        all_tokens("a # b c\n e"),
        vec![identifier("a"), identifier("e")]
    );
}

#[test]
fn double_quoted_escapes() {
    assert_eq!(all_tokens("\"a\\nb\""), vec![text("a\nb")]);
    assert_eq!(all_tokens("\"\\x41\""), vec![text("A")]);
    assert_eq!(all_tokens("\"\\x7e\\x7E\""), vec![text("~~")]);
    assert_eq!(all_tokens("\"\\xe9\""), vec![text("\u{E9}")]);
    assert_eq!(all_tokens("\"\\u00e9\\u20AC\""), vec![text("\u{E9}\u{20AC}")]);
    assert_eq!(all_tokens("\"\\\\ \\\" \\' \\t \\r \\0\""), vec![text("\\ \" ' \t \r \0")]);
    assert_eq!(all_tokens("\"it's\""), vec![text("it's")]);
}

#[test]
fn line_continuation_drops_backslash_and_line_break() {
    assert_eq!(all_tokens("\"ab\\\ncd\""), vec![text("abcd")]);
    assert_eq!(all_tokens("\"ab\\\r\ncd\""), vec![text("abcd")]);
    assert_eq!(all_tokens("\"ab\ncd\""), vec![text("ab\ncd")]);
}

#[test]
fn carriage_return_alone_is_no_escape() {
    let error = first_error("\"a\\\rb\"");
    assert_eq!(error.kind, ErrorKind::UnknownEscapeCharacter('\r'));
    assert_eq!(error.position, Some(5));
}

#[test]
fn single_quoted_escapes() {
    assert_eq!(all_tokens("'\\\\'"), vec![text("\\")]);
    assert_eq!(all_tokens("'\\''"), vec![text("'")]);
    assert_eq!(all_tokens("'\\x'"), vec![text("\\x")]);
    assert_eq!(all_tokens("'a\\nb'"), vec![text("a\\nb")]);
    assert_eq!(all_tokens("'say \"hi\"'"), vec![text("say \"hi\"")]);
    assert_eq!(all_tokens("'\\(1)'"), vec![text("\\(1)")]);
}

#[test]
fn quoted_text_may_end_with_the_input() {
    assert_eq!(all_tokens("\"open"), vec![text("open")]);
    assert_eq!(all_tokens("'"), vec![text("")]);
}

#[test]
fn unterminated_escape() {
    let error = first_error("\"abc\\");
    assert_eq!(error, Error { kind: ErrorKind::UnterminatedEscapeSequence, position: Some(5) });
    let error = first_error("'abc\\");
    assert_eq!(error.kind, ErrorKind::UnterminatedEscapeSequence);
    let error = first_error("\"\\x4");
    assert_eq!(error, Error { kind: ErrorKind::UnterminatedEscapeSequence, position: Some(4) });
    let error = first_error("\"\\u00e");
    assert_eq!(error.kind, ErrorKind::UnterminatedEscapeSequence);
}

#[test]
fn invalid_hex_digit() {
    let error = first_error("\"\\x4g\"");
    assert_eq!(error, Error { kind: ErrorKind::InvalidHexDigit('g'), position: Some(5) });
    let error = first_error("\"\\uzzzz\"");
    assert_eq!(error, Error { kind: ErrorKind::InvalidHexDigit('z'), position: Some(4) });
}

#[test]
fn invalid_hex_escape() {
    let error = first_error("\"\\ud800\"");
    assert_eq!(error, Error { kind: ErrorKind::InvalidHexEscape(0xD800), position: Some(7) });
    assert_eq!(first_error("\"\\uDFFF\"").kind, ErrorKind::InvalidHexEscape(0xDFFF));
    assert_eq!(all_tokens("\"\\ud7ff\""), vec![text("\u{D7FF}")]);
    assert_eq!(all_tokens("\"\\ue000\""), vec![text("\u{E000}")]);
}

#[test]
fn unknown_escape_character() {
    let error = first_error("\"\\q\"");
    assert_eq!(error, Error { kind: ErrorKind::UnknownEscapeCharacter('q'), position: Some(3) });
    assert_eq!(first_error("\"\\f\"").kind, ErrorKind::UnknownEscapeCharacter('f'));
}

#[test]
fn interpolation_holds_the_inner_tokens() {
    let tokens = all_tokens("\"sum: \\(1+2)!\"");
    assert_eq!(
        tokens,
        vec![Token::Literal(Literal::TextInterpolation(
            vec![(Text::new("sum: "), vec![numeral(1), Token::Symbol(Symbol::Plus), numeral(2)])],
            Text::new("!"),
        ))]
    );
}

#[test]
fn interpolation_tracks_nested_brackets() {
    let tokens = all_tokens("\"\\(f(a, (b)))\\()z\" k");
    assert_eq!(
        tokens,
        vec![
            Token::Literal(Literal::TextInterpolation(
                vec![
                    (
                        Text::new(""),
                        vec![
                            identifier("f"),
                            Token::LeftParen(ParenKind::Round),
                            identifier("a"),
                            Token::Symbol(Symbol::Comma),
                            Token::LeftParen(ParenKind::Round),
                            identifier("b"),
                            Token::RightParen(ParenKind::Round),
                            Token::RightParen(ParenKind::Round),
                        ]
                    ),
                    (Text::new(""), vec![]),
                ],
                Text::new("z"),
            )),
            identifier("k"),
        ]
    );
}

#[test]
fn interpolation_may_hold_an_interpolated_text() {
    let tokens = all_tokens("\"a\\(\"b\\(c)d\")e\"");
    let inner = Token::Literal(Literal::TextInterpolation(
        vec![(Text::new("b"), vec![numeral(100)])],
        Text::new("d"),
    ));
    assert_eq!(
        tokens,
        vec![Token::Literal(Literal::TextInterpolation(
            vec![(Text::new("a"), vec![inner])],
            Text::new("e"),
        ))]
    );
}

#[test]
fn interpolation_that_does_not_close_is_an_error() {
    let error = first_error("\"a\\(1 + (2)");
    assert_eq!(error, Error { kind: ErrorKind::UnterminatedEscapeSequence, position: Some(11) });
    let error = first_error("\"\\(1 ? 2)\"");
    assert_eq!(error.kind, ErrorKind::UnknownTokenStart('?'));
}

#[test]
fn fraktur_literal_is_trimmed() {
    let source = "\u{1D525}\u{1D526} \u{1D531}\u{1D525}\u{1D522}\u{1D52F}\u{1D522}  ;";
    assert_eq!(
        all_tokens(source),
        vec![
            text("\u{1D525}\u{1D526} \u{1D531}\u{1D525}\u{1D522}\u{1D52F}\u{1D522}"),
            Token::Symbol(Symbol::Endline)
        ]
    );
}

#[test]
fn fraktur_literal_with_suffix_is_an_error() {
    let error = first_error("\u{1D525}\u{1D526} x");
    assert_eq!(error, Error { kind: ErrorKind::BadFrakturSuffix, position: Some(3) });
}

#[test]
fn undo_replays_the_last_token() {
    let mut tokenizer = tokenizer_on("a b");
    assert_eq!(tokenizer.next(), Some(Ok(identifier("a"))));
    tokenizer.undo();
    assert_eq!(tokenizer.next(), Some(Ok(identifier("a"))));
    assert_eq!(tokenizer.next(), Some(Ok(identifier("b"))));
    tokenizer.undo();
    assert_eq!(tokenizer.next(), Some(Ok(identifier("b"))));
    assert_eq!(tokenizer.next(), None);
    tokenizer.undo();
    assert_eq!(tokenizer.next(), Some(Ok(identifier("b"))));
    assert_eq!(tokenizer.next(), None);
}

#[test]
fn undo_before_any_token_replays_nothing() {
    let mut tokenizer = tokenizer_on("a");
    tokenizer.undo();
    assert_eq!(tokenizer.next(), None);
    assert_eq!(tokenizer.next(), Some(Ok(identifier("a"))));
}

#[test]
fn colon_lookahead() {
    let mut tokenizer = tokenizer_on("  # note\n : k");
    assert!(tokenizer._hack_is_next_token_colon());
    assert_eq!(tokenizer.next(), Some(Ok(Token::Symbol(Symbol::Colon))));
    assert!(!tokenizer._hack_is_next_token_colon());
    assert_eq!(tokenizer.next(), Some(Ok(identifier("k"))));
    assert!(!tokenizer._hack_is_next_token_colon());
}

#[test]
fn parts_of_the_tokenizer_can_be_called_alone() {
    let mut tokenizer = tokenizer_on("whilst 12 name 'q'");
    assert_eq!(tokenizer.next_identifier(), Some("whilst".to_string()));
    let mut tokenizer = tokenizer_on("whilst 12 name 'q'");
    assert_eq!(tokenizer.next_literal(), None);
    assert_eq!(tokenizer.parse_numeral(), None);
    assert_eq!(tokenizer.parse_text(), None);
    assert_eq!(tokenizer.next_macro_invocation(), None);
    assert_eq!(tokenizer.next_keyword(), Some(Keyword::While));
    assert_eq!(tokenizer.next_keyword(), None);
    assert!(!tokenizer._hack_is_next_token_colon());
    assert_eq!(tokenizer.parse_roman_numeral(), None);
    assert_eq!(tokenizer.parse_arabic_numeral(), Some(Ok(Numeral::new(12))));
    assert_eq!(tokenizer.next_from_stream(), Some(Ok(identifier("name"))));
    assert!(!tokenizer._hack_is_next_token_colon());
    assert_eq!(tokenizer.parse_quoted(), Ok(text("q")));
    assert_eq!(tokenizer.next_from_stream(), None);
    assert_eq!(tokenizer.parse_fraktur(), Ok(Text::new("")));
    let error = tokenizer.error(ErrorKind::MissingKey);
    assert_eq!(error, Error { kind: ErrorKind::MissingKey, position: Some(18) });
    assert_eq!(tokenizer.parse_macro_variable().unwrap_err().kind, ErrorKind::UnsupportedMacro);
}

#[test]
fn token_kinds() {
    assert_eq!(Token::Keyword(Keyword::If).kind(), TokenKind::Keyword(Keyword::If));
    assert_eq!(Token::Symbol(Symbol::Dot).kind(), TokenKind::Symbol(Symbol::Dot));
    assert_eq!(Token::LeftParen(ParenKind::Square).kind(), TokenKind::LeftParen(ParenKind::Square));
    assert_eq!(Token::RightParen(ParenKind::Curly).kind(), TokenKind::RightParen(ParenKind::Curly));
    assert_eq!(numeral(1).kind(), TokenKind::Literal);
    assert_eq!(identifier("a").kind(), TokenKind::Identifier);
}

#[test]
fn tokens_clone_deeply() {
    let tokens = all_tokens("\"a\\(\"b\\(c)d\")e\" x 7 yay");
    let copies: Vec<Token> = tokens.iter().map(|token| token.clone()).collect();
    assert_eq!(copies, tokens);
}

#[test]
fn written_numerals_read_back() {
    for n in [0i64, 1, 9, 10, 14, 1994, 1_000_000, i64::MAX] {
        let mut source = String::new();
        Numeral::new(n).dump(&mut source);
        assert_eq!(all_tokens(&source), vec![numeral(n)]);
        source.push_str(" + 1");
        assert_eq!(all_tokens(&source)[0], numeral(n));
    }
}

#[test]
fn written_texts_read_back() {
    for written in ["", "plain", "a\nb", "quote \" and \\ backslash", "\t\r\0", "it's", "\\(1)", "\u{E9}\u{1D525}"] {
        let mut source = String::new();
        Text::new(written).dump(&mut source);
        assert_eq!(all_tokens(&source), vec![text(written)], "{:?}", source);
        source.push_str("tail");
        assert_eq!(all_tokens(&source)[0], text(written));
    }
}

#[test]
fn a_small_program() {
    let tokens = all_tokens("journey f(a) { if a <= XIV { reward \"a\\nb\"; } } # done");
    assert_eq!(
        tokens,
        vec![
            Token::Keyword(Keyword::Function),
            identifier("f"),
            Token::LeftParen(ParenKind::Round),
            identifier("a"),
            Token::RightParen(ParenKind::Round),
            Token::LeftParen(ParenKind::Curly),
            Token::Keyword(Keyword::If),
            identifier("a"),
            Token::Symbol(Symbol::LessThanOrEqual),
            numeral(14),
            Token::LeftParen(ParenKind::Curly),
            Token::Keyword(Keyword::Return),
            text("a\nb"),
            Token::Symbol(Symbol::Endline),
            Token::RightParen(ParenKind::Curly),
            Token::RightParen(ParenKind::Curly),
        ]
    );
}
