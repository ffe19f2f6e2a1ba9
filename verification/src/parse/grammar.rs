//! The lexical grammar, stated over sequences of characters.
//!
//! Nothing here runs. These functions say what the stream and the tokenizer
//! compute; their contracts refer to them.

use vstd::prelude::*;
use crate::error::ErrorKind;
use crate::parse::token::{
    lemma_spelling, Keyword, Lexeme, LiteralView, ParenKind, Symbol, KEYWORD_COUNT,
};
use crate::unicode::{alphanumeric, hex_value, is_scalar_value, trimmed, white_space, word_char, word_start};
use crate::value::numeral::{arabic_numeral, is_arabic_char, is_roman_char, roman_numeral};
use crate::value::text::fraktur_letter;

verus! {

/// The length of the longest prefix of `s` whose characters all satisfy
/// `accepts`.
pub open spec fn run_length(s: Seq<char>, accepts: spec_fn(char) -> bool) -> nat
    decreases s.len(),
{
    if s.len() > 0 && accepts(s[0]) {
        1 + run_length(s.drop_first(), accepts)
    } else {
        0
    }
}

/// A run is at most as long as the sequence, every character in it is
/// accepted, and the character after it, if there is one, is not.
pub proof fn lemma_run_length_bounds(s: Seq<char>, accepts: spec_fn(char) -> bool)
    ensures
        run_length(s, accepts) <= s.len(),
        forall|i: int| 0 <= i < run_length(s, accepts) ==> accepts(#[trigger] s[i]),
        run_length(s, accepts) < s.len() ==> !accepts(s[run_length(s, accepts) as int]),
    decreases s.len(),
{
    if s.len() > 0 && accepts(s[0]) {
        let t = s.drop_first();
        lemma_run_length_bounds(t, accepts);
        assert forall|i: int| 0 <= i < run_length(s, accepts) implies accepts(#[trigger] s[i]) by {
            if i > 0 {
                assert(s[i] == t[i - 1]);
            }
        }
        if run_length(s, accepts) < s.len() {
            assert(s[run_length(s, accepts) as int] == t[run_length(t, accepts) as int]);
        }
    }
}

/// The run is the only length with the properties of
/// `lemma_run_length_bounds`.
pub proof fn lemma_run_length_unique(s: Seq<char>, accepts: spec_fn(char) -> bool, n: nat)
    requires
        n <= s.len(),
        forall|i: int| 0 <= i < n ==> accepts(#[trigger] s[i]),
        n < s.len() ==> !accepts(s[n as int]),
    ensures
        run_length(s, accepts) == n,
    decreases s.len(),
{
    if n > 0 {
        let t = s.drop_first();
        assert(accepts(s[0]));
        assert forall|i: int| 0 <= i < n - 1 implies accepts(#[trigger] t[i]) by {
            assert(t[i] == s[i + 1]);
        }
        if n - 1 < t.len() {
            assert(t[n - 1] == s[n as int]);
        }
        lemma_run_length_unique(t, accepts, (n - 1) as nat);
    }
}

/// Whether `s` begins with the characters of `word`.
pub open spec fn starts_with(s: Seq<char>, word: Seq<char>) -> bool {
    word.len() <= s.len() && s.take(word.len() as int) == word
}

/// Whether `s` begins with `word` as a whole word: the characters of `word`,
/// and then either the end of `s` or a character that cannot continue an
/// identifier.
pub open spec fn starts_with_word(s: Seq<char>, word: Seq<char>) -> bool {
    starts_with(s, word) && (s.len() > word.len() ==> !word_char(s[word.len() as int]))
}

/// `s` from its first line break on, or the empty end of `s` if it has none.
pub open spec fn skip_line(s: Seq<char>) -> Seq<char>
    decreases s.len(),
{
    if s.len() > 0 && s[0] != '\n' {
        skip_line(s.drop_first())
    } else {
        s
    }
}

/// `s` without the insignificant text at its start: white space, and
/// comments, each of which runs from a `#` to the end of its line.
pub open spec fn skip_trivia(s: Seq<char>) -> Seq<char>
    decreases s.len(),
{
    if s.len() == 0 {
        s
    } else if white_space(s[0]) {
        skip_trivia(s.drop_first())
    } else if s[0] == '#' {
        let line_end = skip_line(s.drop_first());
        if line_end.len() < s.len() {
            skip_trivia(line_end)
        } else {
            s
        }
    } else {
        s
    }
}

/// Skipping a line leaves a suffix of the input.
pub proof fn lemma_skip_line_suffix(s: Seq<char>)
    ensures
        skip_line(s).len() <= s.len(),
        skip_line(s) == s.skip(s.len() - skip_line(s).len()),
        skip_line(s).len() > 0 ==> skip_line(s)[0] == '\n',
    decreases s.len(),
{
    if s.len() > 0 && s[0] != '\n' {
        let t = s.drop_first();
        lemma_skip_line_suffix(t);
        assert(t.skip(t.len() - skip_line(t).len()) =~= s.skip(s.len() - skip_line(s).len()));
    } else {
        assert(s.skip(0) =~= s);
    }
}

/// Skipping insignificant text leaves a suffix of the input that starts with
/// neither white space nor a comment.
pub proof fn lemma_skip_trivia_suffix(s: Seq<char>)
    ensures
        skip_trivia(s).len() <= s.len(),
        skip_trivia(s) == s.skip(s.len() - skip_trivia(s).len()),
        skip_trivia(s).len() > 0 ==> !white_space(skip_trivia(s)[0]) && skip_trivia(s)[0] != '#',
        skip_trivia(skip_trivia(s)) == skip_trivia(s),
    decreases s.len(),
{
    if s.len() == 0 {
        assert(s.skip(0) =~= s);
    } else if white_space(s[0]) {
        let t = s.drop_first();
        lemma_skip_trivia_suffix(t);
        assert(t.skip(t.len() - skip_trivia(t).len()) =~= s.skip(s.len() - skip_trivia(s).len()));
    } else if s[0] == '#' {
        let t = s.drop_first();
        lemma_skip_line_suffix(t);
        let u = skip_line(t);
        lemma_skip_trivia_suffix(u);
        assert(u.skip(u.len() - skip_trivia(u).len()) =~= s.skip(s.len() - skip_trivia(s).len()));
    } else {
        assert(s.skip(0) =~= s);
    }
}

/// What scanning for one token finds.
pub enum Scan {
    /// Nothing but insignificant text is left.
    End,
    /// A token, and the input that follows it.
    Token { token: Lexeme, rest: Seq<char> },
    /// An error, and the input that was unread when it arose.
    Error { kind: ErrorKind, rest: Seq<char> },
}

/// How many keywords there are.
pub open spec fn keyword_count() -> nat {
    KEYWORD_COUNT as nat
}

/// The first keyword, among those at place `rank` or later, that `s` begins
/// with as a whole word.
pub open spec fn scan_keyword_from(s: Seq<char>, rank: nat) -> Option<Keyword>
    decreases keyword_count() - rank,
{
    if rank >= keyword_count() {
        None
    } else if starts_with_word(s, Keyword::ranked(rank).spelling()) {
        Some(Keyword::ranked(rank))
    } else {
        scan_keyword_from(s, rank + 1)
    }
}

/// The keyword that `s` begins with as a whole word, if there is one.
pub open spec fn scan_keyword(s: Seq<char>) -> Option<Keyword> {
    scan_keyword_from(s, 0)
}

/// A keyword that is found is at least one character long and no longer
/// than the input.
pub proof fn lemma_keyword_length(s: Seq<char>, rank: nat)
    ensures
        scan_keyword_from(s, rank) matches Some(keyword) ==> 0 < keyword.spelling().len()
            <= s.len(),
    decreases keyword_count() - rank,
{
    if rank < keyword_count() {
        lemma_spelling(Keyword::ranked(rank));
        lemma_keyword_length(s, rank + 1);
    }
}

/// A numeral token.
pub open spec fn numeral_token(value: int) -> Lexeme {
    Lexeme::Literal(LiteralView::Numeral(value))
}

/// A text token.
pub open spec fn text_token(text: Seq<char>) -> Lexeme {
    Lexeme::Literal(LiteralView::Text(text))
}

/// A Roman numeral at the start of `s`.
///
/// The numeral is the longest run of glyphs and underscores. If a letter or
/// number follows the run directly, the run is the start of an identifier
/// and no numeral: the result is `None`.
pub open spec fn scan_roman(s: Seq<char>) -> Option<Scan> {
    let n = run_length(s, |c: char| is_roman_char(c));
    if n == 0 || (n < s.len() && alphanumeric(s[n as int])) {
        None
    } else {
        Some(
            match roman_numeral(s.take(n as int)) {
                Ok(value) => Scan::Token { token: numeral_token(value), rest: s.skip(n as int) },
                Err(e) => Scan::Error { kind: ErrorKind::BadNumeral(e), rest: s.skip(n as int) },
            },
        )
    }
}

/// An Arabic numeral at the start of `s`.
///
/// The numeral is the longest run of digits and underscores. A letter or
/// number that follows the run directly is an error.
pub open spec fn scan_arabic(s: Seq<char>) -> Option<Scan> {
    let n = run_length(s, |c: char| is_arabic_char(c));
    if n == 0 {
        None
    } else if n < s.len() && alphanumeric(s[n as int]) {
        Some(
            Scan::Error {
                kind: ErrorKind::BadNumeral(
                    crate::error::NumeralParseError::BadTrailingChar(s[n as int]),
                ),
                rest: s.skip(n as int),
            },
        )
    } else {
        Some(
            match arabic_numeral(s.take(n as int)) {
                Ok(value) => Scan::Token { token: numeral_token(value), rest: s.skip(n as int) },
                Err(e) => Scan::Error { kind: ErrorKind::BadNumeral(e), rest: s.skip(n as int) },
            },
        )
    }
}

/// A numeral at the start of `s`: Roman if it can be, else Arabic.
pub open spec fn scan_numeral(s: Seq<char>) -> Option<Scan> {
    match scan_roman(s) {
        Some(scan) => Some(scan),
        None => scan_arabic(s),
    }
}

/// A character of a fraktur literal: a fraktur letter or white space.
pub open spec fn is_fraktur_char(c: char) -> bool {
    fraktur_letter(c) || white_space(c)
}

/// The fraktur literal at the start of `s`: the longest run of fraktur
/// letters and white space, without the white space at its ends. A letter or
/// number that follows the run directly is an error.
pub open spec fn scan_fraktur(s: Seq<char>) -> Scan {
    let n = run_length(s, |c: char| is_fraktur_char(c));
    if n < s.len() && alphanumeric(s[n as int]) {
        Scan::Error { kind: ErrorKind::BadFrakturSuffix, rest: s.skip(n as int) }
    } else {
        Scan::Token { token: text_token(trimmed(s.take(n as int))), rest: s.skip(n as int) }
    }
}

/// The character that a one-letter escape of double-quoted text stands for.
pub open spec fn simple_escape(c: char) -> Option<char> {
    if c == '\\' || c == '"' || c == '\'' {
        Some(c)
    } else if c == 'n' {
        Some('\n')
    } else if c == 't' {
        Some('\t')
    } else if c == 'r' {
        Some('\r')
    } else if c == '0' {
        Some('\0')
    } else {
        None
    }
}

/// Reads `digits` hexadecimal digits from the start of `s`, most significant
/// first, on top of the digits already read, whose number is `value`.
/// Gives the number read, or the error, and in either case the input that
/// is left.
pub open spec fn scan_hex(s: Seq<char>, digits: nat, value: nat) -> (
    Result<nat, ErrorKind>,
    Seq<char>,
)
    decreases digits,
{
    if digits == 0 {
        (Ok(value), s)
    } else if s.len() == 0 {
        (Err(ErrorKind::UnterminatedEscapeSequence), s)
    } else {
        match hex_value(s[0]) {
            Some(d) => scan_hex(s.skip(1), (digits - 1) as nat, (value * 16 + d) as nat),
            None => (Err(ErrorKind::InvalidHexDigit(s[0])), s.skip(1)),
        }
    }
}

/// The token for a quoted text that has come to its end: plain text if no
/// expression was embedded, an interpolation otherwise.
pub open spec fn quoted_token(text: Seq<char>, segments: Seq<(Seq<char>, Seq<Lexeme>)>) -> Lexeme {
    if segments.len() == 0 {
        text_token(text)
    } else {
        Lexeme::Literal(LiteralView::TextInterpolation(segments, text))
    }
}

/// A symbol that may be followed by `=`: `with` if it is, `without` if not.
pub open spec fn scan_assignable(s: Seq<char>, with: Symbol, without: Symbol) -> Scan {
    if s.len() > 0 && s[0] == '=' {
        Scan::Token { token: Lexeme::Symbol(with), rest: s.skip(1) }
    } else {
        Scan::Token { token: Lexeme::Symbol(without), rest: s }
    }
}

/// The bracket or operator that starts with `c` and goes on in `s`.
/// `<=>` is tried before `<=`, and `**` before `*`.
pub open spec fn scan_punctuation(c: char, s: Seq<char>) -> Scan {
    if c == '$' {
        Scan::Error { kind: ErrorKind::UnsupportedMacro, rest: s }
    } else if c == '(' {
        Scan::Token { token: Lexeme::LeftParen(ParenKind::Round), rest: s }
    } else if c == '[' {
        Scan::Token { token: Lexeme::LeftParen(ParenKind::Square), rest: s }
    } else if c == '{' {
        Scan::Token { token: Lexeme::LeftParen(ParenKind::Curly), rest: s }
    } else if c == ')' {
        Scan::Token { token: Lexeme::RightParen(ParenKind::Round), rest: s }
    } else if c == ']' {
        Scan::Token { token: Lexeme::RightParen(ParenKind::Square), rest: s }
    } else if c == '}' {
        Scan::Token { token: Lexeme::RightParen(ParenKind::Curly), rest: s }
    } else if c == ';' {
        Scan::Token { token: Lexeme::Symbol(Symbol::Endline), rest: s }
    } else if c == ',' {
        Scan::Token { token: Lexeme::Symbol(Symbol::Comma), rest: s }
    } else if c == ':' {
        Scan::Token { token: Lexeme::Symbol(Symbol::Colon), rest: s }
    } else if c == '.' {
        Scan::Token { token: Lexeme::Symbol(Symbol::Dot), rest: s }
    } else if c == '=' {
        scan_assignable(s, Symbol::EqualEqual, Symbol::Equal)
    } else if c == '!' {
        scan_assignable(s, Symbol::NotEqual, Symbol::Exclamation)
    } else if c == '<' {
        if starts_with(s, seq!['=', '>']) {
            Scan::Token { token: Lexeme::Symbol(Symbol::Compare), rest: s.skip(2) }
        } else {
            scan_assignable(s, Symbol::LessThanOrEqual, Symbol::LessThan)
        }
    } else if c == '>' {
        scan_assignable(s, Symbol::GreaterThanOrEqual, Symbol::GreaterThan)
    } else if c == '+' {
        scan_assignable(s, Symbol::PlusEqual, Symbol::Plus)
    } else if c == '-' {
        scan_assignable(s, Symbol::HyphenEqual, Symbol::Hyphen)
    } else if c == '*' {
        if s.len() > 0 && s[0] == '*' {
            scan_assignable(s.skip(1), Symbol::AsteriskAsteriskEqual, Symbol::AsteriskAsterisk)
        } else {
            scan_assignable(s, Symbol::AsteriskEqual, Symbol::Asterisk)
        }
    } else if c == '/' {
        scan_assignable(s, Symbol::SolidusEqual, Symbol::Solidus)
    } else if c == '%' {
        scan_assignable(s, Symbol::PercentSignEqual, Symbol::PercentSign)
    } else if c == '&' && s.len() > 0 && s[0] == '&' {
        Scan::Token { token: Lexeme::Symbol(Symbol::AndAnd), rest: s.skip(1) }
    } else if c == '|' && s.len() > 0 && s[0] == '|' {
        Scan::Token { token: Lexeme::Symbol(Symbol::OrOr), rest: s.skip(1) }
    } else {
        Scan::Error { kind: ErrorKind::UnknownTokenStart(c), rest: s }
    }
}

/// The words for the two truth values and for the null value.
pub open spec fn scan_word_literal(s: Seq<char>) -> Option<Scan> {
    if starts_with_word(s, "yay"@) {
        Some(
            Scan::Token {
                token: Lexeme::Literal(LiteralView::Boolean(true)),
                rest: s.skip("yay"@.len() as int),
            },
        )
    } else if starts_with_word(s, "nay"@) {
        Some(
            Scan::Token {
                token: Lexeme::Literal(LiteralView::Boolean(false)),
                rest: s.skip("nay"@.len() as int),
            },
        )
    } else if starts_with_word(s, "ni"@) {
        Some(Scan::Token { token: Lexeme::Literal(LiteralView::Null), rest: s.skip("ni"@.len() as int) })
    } else {
        None
    }
}

/// The identifier at the start of `s`, which begins with a letter or an
/// underscore and goes on with letters, numbers and underscores.
pub open spec fn scan_identifier(s: Seq<char>) -> Option<Scan> {
    if s.len() > 0 && word_start(s[0]) {
        let n = run_length(s, |c: char| word_char(c));
        Some(Scan::Token { token: Lexeme::Identifier(s.take(n as int)), rest: s.skip(n as int) })
    } else {
        None
    }
}

/// The body of a quoted text, from after the opening quote.
///
/// `text` is the text read since the opening quote or the last embedded
/// expression, and `segments` holds the embedded expressions read so far,
/// each with the text before it. The text ends at the quote that opened it
/// or, failing that, with the input.
///
/// Within single quotes a backslash escapes a backslash or a single quote;
/// before any other character it stands for itself. Within double quotes a
/// backslash starts a one-letter escape, a line continuation, a hexadecimal
/// escape `\xHH` or `\uHHHH`, or an embedded expression `\(...)`.
///
/// The tests on lengths before a recursive use always succeed (see
/// `lemma_quoted_leaves` among the laws); they are there to show that the
/// definition is well founded.
pub open spec fn scan_quoted(
    s: Seq<char>,
    quote: char,
    text: Seq<char>,
    segments: Seq<(Seq<char>, Seq<Lexeme>)>,
) -> Scan
    decreases s.len(), 0nat,
{
    if s.len() == 0 {
        Scan::Token { token: quoted_token(text, segments), rest: s }
    } else if s[0] == quote {
        Scan::Token { token: quoted_token(text, segments), rest: s.skip(1) }
    } else if s[0] != '\\' {
        scan_quoted(s.skip(1), quote, text.push(s[0]), segments)
    } else if s.len() == 1 {
        Scan::Error { kind: ErrorKind::UnterminatedEscapeSequence, rest: s.skip(1) }
    } else if quote == '\'' {
        if s[1] == '\\' || s[1] == '\'' {
            scan_quoted(s.skip(2), quote, text.push(s[1]), segments)
        } else {
            scan_quoted(s.skip(2), quote, text.push('\\').push(s[1]), segments)
        }
    } else {
        let c = s[1];
        let after = s.skip(2);
        if simple_escape(c) is Some {
            scan_quoted(after, quote, text.push(simple_escape(c)->0), segments)
        } else if c == '\n' {
            scan_quoted(after, quote, text, segments)
        } else if c == '\r' {
            if after.len() > 0 && after[0] == '\n' {
                scan_quoted(after.skip(1), quote, text, segments)
            } else if after.len() > 0 {
                Scan::Error { kind: ErrorKind::UnknownEscapeCharacter(c), rest: after.skip(1) }
            } else {
                Scan::Error { kind: ErrorKind::UnknownEscapeCharacter(c), rest: after }
            }
        } else if c == 'x' {
            match scan_hex(after, 2, 0) {
                (Ok(value), rest) => if rest.len() <= after.len() {
                    scan_quoted(rest, quote, text.push(value as char), segments)
                } else {
                    Scan::End
                },
                (Err(kind), rest) => Scan::Error { kind, rest },
            }
        } else if c == 'u' {
            match scan_hex(after, 4, 0) {
                (Ok(value), rest) => if !is_scalar_value(value as u32) {
                    Scan::Error { kind: ErrorKind::InvalidHexEscape(value as u32), rest }
                } else if rest.len() <= after.len() {
                    scan_quoted(rest, quote, text.push(value as char), segments)
                } else {
                    Scan::End
                },
                (Err(kind), rest) => Scan::Error { kind, rest },
            }
        } else if c == '(' {
            match scan_interpolation(after, 1, Seq::empty()) {
                (Ok(tokens), rest) => if rest.len() <= after.len() {
                    scan_quoted(rest, quote, Seq::empty(), segments.push((text, tokens)))
                } else {
                    Scan::End
                },
                (Err(kind), rest) => Scan::Error { kind, rest },
            }
        } else {
            Scan::Error { kind: ErrorKind::UnknownEscapeCharacter(c), rest: after }
        }
    }
}

/// The tokens of an embedded expression, from after its opening bracket to
/// the round bracket that closes it, which is read but is no part of the
/// expression.
///
/// `depth` counts the round brackets that are open, the opening one
/// included, and `tokens` holds the tokens read so far. The input ending
/// before the closing bracket is an error.
pub open spec fn scan_interpolation(s: Seq<char>, depth: nat, tokens: Seq<Lexeme>) -> (
    Result<Seq<Lexeme>, ErrorKind>,
    Seq<char>,
)
    decreases s.len(), 4nat,
{
    match scan_token(s) {
        Scan::End => (Err(ErrorKind::UnterminatedEscapeSequence), Seq::empty()),
        Scan::Error { kind, rest } => (Err(kind), rest),
        Scan::Token { token, rest } => if rest.len() >= s.len() {
            (Err(ErrorKind::UnterminatedEscapeSequence), rest)
        } else if token == Lexeme::LeftParen(ParenKind::Round) {
            scan_interpolation(rest, depth + 1, tokens.push(token))
        } else if token == Lexeme::RightParen(ParenKind::Round) {
            if depth <= 1 {
                (Ok(tokens), rest)
            } else {
                scan_interpolation(rest, (depth - 1) as nat, tokens.push(token))
            }
        } else {
            scan_interpolation(rest, depth, tokens.push(token))
        },
    }
}

/// The text literal at the start of `s`, in fraktur or in quotes.
pub open spec fn scan_text(s: Seq<char>) -> Option<Scan>
    decreases s.len(), 1nat,
{
    if s.len() == 0 {
        None
    } else if fraktur_letter(s[0]) {
        Some(scan_fraktur(s))
    } else if s[0] == '\'' || s[0] == '"' {
        Some(scan_quoted(s.skip(1), s[0], Seq::empty(), Seq::empty()))
    } else {
        None
    }
}

/// The literal at the start of `s`: a numeral, a text, or one of the words
/// for the truth values and for null.
pub open spec fn scan_literal(s: Seq<char>) -> Option<Scan>
    decreases s.len(), 2nat,
{
    if scan_numeral(s) is Some {
        scan_numeral(s)
    } else if scan_text(s) is Some {
        scan_text(s)
    } else {
        scan_word_literal(s)
    }
}

/// The token at the start of `s`, once white space and comments are
/// skipped.
///
/// The kinds of token are tried in a fixed order: keywords; numerals, Roman
/// before Arabic; text, in fraktur or in quotes; the words for the truth
/// values and for null; macro syntax, which is an error; identifiers;
/// brackets and operators.
pub open spec fn scan_token(s: Seq<char>) -> Scan
    decreases s.len(), 3nat,
{
    let t = skip_trivia(s);
    if t.len() == 0 || t.len() > s.len() {
        Scan::End
    } else if scan_keyword(t) is Some {
        let keyword = scan_keyword(t)->0;
        Scan::Token { token: Lexeme::Keyword(keyword), rest: t.skip(keyword.spelling().len() as int) }
    } else if scan_literal(t) is Some {
        scan_literal(t)->0
    } else if t[0] == '@' {
        Scan::Error { kind: ErrorKind::UnsupportedMacro, rest: t }
    } else if scan_identifier(t) is Some {
        scan_identifier(t)->0
    } else {
        scan_punctuation(t[0], t.skip(1))
    }
}

} // verus!
