//! The tokenizer: reads tokens from a character stream, one at a time.

use vstd::prelude::*;
use crate::error::{Error, ErrorKind, NumeralParseError};
use crate::parse::grammar::{
    is_fraktur_char, lemma_keyword_length, lemma_run_length_unique, lemma_skip_trivia_suffix,
    numeral_token, quoted_token, scan_arabic, scan_fraktur, scan_hex, scan_identifier,
    scan_interpolation, scan_keyword, scan_keyword_from, scan_numeral, scan_punctuation,
    scan_literal, scan_quoted, scan_roman, scan_text, scan_token, skip_trivia, text_token,
    Scan,
};
use crate::parse::stream::Stream;
use crate::parse::token::{
    lemma_segments_view_push, lemma_tokens_view_push, segments_view, tokens_view, Keyword,
    Lexeme, Literal, ParenKind, Symbol, Token, KEYWORD_COUNT,
};
use crate::unicode::{hex_digit, is_word_char, is_word_start, word_char};
use crate::value::numeral::{arabic_char, is_arabic_char, is_roman_char, roman_char, Numeral};
use crate::value::text::{is_fraktur, Text};

verus! {

/// Whether `c` may stand in a fraktur literal.
pub fn fraktur_char(c: char) -> (b: bool)
    ensures
        b == is_fraktur_char(c),
{
    is_fraktur(c) || c.is_whitespace()
}

/// Reads tokens from a stream of characters.
///
/// Besides the stream the tokenizer remembers the token that `next` gave
/// last, so that `undo` can make `next` give it once more.
#[derive(Debug)]
pub struct Tokenizer {
    stream: Stream,
    last: Option<Token>,
    put_back: bool,
}

impl Tokenizer {
    /// The characters that have not been read.
    pub closed spec fn remaining(&self) -> Seq<char> {
        self.stream.remaining()
    }

    /// The number of characters of the source.
    pub closed spec fn origin(&self) -> nat {
        self.stream.origin()
    }

    /// How many characters of the source lie before the next unread one.
    pub closed spec fn offset(&self) -> nat {
        self.stream.offset()
    }

    /// The token that `next` gave last.
    pub closed spec fn last_token(&self) -> Option<Lexeme> {
        match self.last {
            Some(token) => Some(token@),
            None => None,
        }
    }

    /// Whether `undo` was called since `next` last was.
    pub closed spec fn undone(&self) -> bool {
        self.put_back
    }

    /// Whether `self` differs from `before` at most in what is unread.
    pub open spec fn scans_from(&self, before: &Tokenizer) -> bool {
        &&& self.origin() == before.origin()
        &&& self.last_token() == before.last_token()
        &&& self.undone() == before.undone()
    }

    /// Whether `e` is an error of kind `kind` that arose where `self` stands.
    pub open spec fn reports(&self, e: Error, kind: ErrorKind) -> bool {
        e.kind == kind && e.position == Some(self.offset() as usize)
    }

    /// Whether `found`, with the tokenizer left as `self`, is what `scan`
    /// describes.
    pub open spec fn yields(&self, found: Option<Result<Token, Error>>, scan: Scan) -> bool {
        match scan {
            Scan::End => found is None && self.remaining().len() == 0,
            Scan::Token { token, rest } => {
                &&& found matches Some(Ok(t))
                &&& t@ == token
                &&& self.remaining() == rest
            },
            Scan::Error { kind, rest } => {
                &&& found matches Some(Err(e))
                &&& self.reports(e, kind)
                &&& self.remaining() == rest
            },
        }
    }

    /// As `yields`, for a scan that may not apply: then nothing is found, and
    /// nothing was read since `before`.
    pub open spec fn yields_if(
        &self,
        before: &Tokenizer,
        found: Option<Result<Token, Error>>,
        scan: Option<Scan>,
    ) -> bool {
        match scan {
            Some(scan) => found is Some && self.yields(found, scan),
            None => found is None && self.remaining() == before.remaining(),
        }
    }

    /// A tokenizer that reads from `stream`.
    pub fn new(stream: Stream) -> (tokenizer: Tokenizer)
        ensures
            tokenizer.remaining() == stream.remaining(),
            tokenizer.origin() == stream.origin(),
            tokenizer.offset() == stream.offset(),
            tokenizer.last_token() is None,
            !tokenizer.undone(),
    {
        Tokenizer { stream, last: None, put_back: false }
    }

    /// `kind` as an error at the place where the tokenizer stands.
    pub fn error(&self, kind: ErrorKind) -> (e: Error)
        ensures
            self.reports(e, kind),
    {
        self.stream.error(kind)
    }

    /// Skips white space and comments, and says whether a colon comes next.
    pub fn _hack_is_next_token_colon(&mut self) -> (colon: bool)
        ensures
            final(self).scans_from(old(self)),
            final(self).remaining() == skip_trivia(old(self).remaining()),
            colon == (final(self).remaining().len() > 0 && final(self).remaining()[0] == ':'),
    {
        self.stream.strip_whitespace_and_comments();
        match self.stream.peek() {
            Some(c) => c == ':',
            None => false,
        }
    }

    /// Reads a keyword, if the unread text begins with one as a whole word.
    /// The keywords are tried in the order of their declaration.
    pub fn next_keyword(&mut self) -> (found: Option<Keyword>)
        ensures
            final(self).scans_from(old(self)),
            found == scan_keyword(old(self).remaining()),
            final(self).remaining() == (match found {
                Some(keyword) => old(self).remaining().skip(keyword.spelling().len() as int),
                None => old(self).remaining(),
            }),
    {
        let mut rank: usize = 0;
        while rank < KEYWORD_COUNT
            invariant
                rank <= KEYWORD_COUNT,
                self.scans_from(old(self)),
                self.remaining() == old(self).remaining(),
                scan_keyword_from(self.remaining(), rank as nat) == scan_keyword(self.remaining()),
            decreases KEYWORD_COUNT - rank,
        {
            let keyword = Keyword::at_rank(rank);
            if self.stream.take_identifier(keyword.word()) {
                return Some(keyword);
            }
            rank += 1;
        }
        None
    }

    /// Reads an Arabic numeral, if the unread text begins with a digit or an
    /// underscore.
    ///
    /// A run of digits and underscores that no letter or number follows is
    /// read as a numeral and yields its value. A run that a letter or number
    /// follows directly is an error that names the follower.
    pub fn parse_arabic_numeral(&mut self) -> (found: Option<Result<Numeral, Error>>)
        ensures
            final(self).scans_from(old(self)),
            final(self).remaining().len() <= old(self).remaining().len(),
            match scan_arabic(old(self).remaining()) {
                None => found is None && final(self).remaining() == old(self).remaining(),
                Some(Scan::Token { token, rest }) => {
                    &&& found matches Some(Ok(n))
                    &&& numeral_token(n@) == token
                    &&& final(self).remaining() == rest
                    &&& final(self).remaining().len() < old(self).remaining().len()
                },
                Some(Scan::Error { kind, rest }) => {
                    &&& found matches Some(Err(e))
                    &&& final(self).reports(e, kind)
                    &&& final(self).remaining() == rest
                },
                Some(Scan::End) => false,
            },
    {
        let ghost input = self.remaining();
        let parsed = match self.stream.take_while(arabic_char) {
            Some(parsed) => parsed,
            None => {
                proof {
                    lemma_run_length_unique(input, |c: char| is_arabic_char(c), 0);
                }
                return None;
            },
        };
        let ghost n = (input.len() - self.remaining().len()) as nat;
        proof {
            lemma_run_length_unique(input, |c: char| is_arabic_char(c), n);
        }
        match self.stream.peek() {
            Some(chr) => {
                if chr.is_alphanumeric() {
                    return Some(
                        Err(self.error(ErrorKind::BadNumeral(NumeralParseError::BadTrailingChar(chr)))),
                    );
                }
            },
            None => {},
        }
        match Numeral::parse_arabic(parsed.as_str()) {
            Ok(numeral) => Some(Ok(numeral)),
            Err(e) => Some(Err(self.error(ErrorKind::BadNumeral(e)))),
        }
    }

    /// Reads a Roman numeral, if the unread text begins with one.
    ///
    /// A run of glyphs and underscores that no letter or number follows is
    /// read as a numeral. A run that a letter or number follows directly is
    /// the start of an identifier: it is returned to the stream, and the
    /// result is `None`.
    pub fn parse_roman_numeral(&mut self) -> (found: Option<Result<Numeral, Error>>)
        ensures
            final(self).scans_from(old(self)),
            final(self).remaining().len() <= old(self).remaining().len(),
            match scan_roman(old(self).remaining()) {
                None => found is None && final(self).remaining() == old(self).remaining(),
                Some(Scan::Token { token, rest }) => {
                    &&& found matches Some(Ok(n))
                    &&& numeral_token(n@) == token
                    &&& final(self).remaining() == rest
                    &&& final(self).remaining().len() < old(self).remaining().len()
                },
                Some(Scan::Error { kind, rest }) => {
                    &&& found matches Some(Err(e))
                    &&& final(self).reports(e, kind)
                    &&& final(self).remaining() == rest
                },
                Some(Scan::End) => false,
            },
    {
        let ghost input = self.remaining();
        let parsed = match self.stream.take_while(roman_char) {
            Some(parsed) => parsed,
            None => {
                proof {
                    lemma_run_length_unique(input, |c: char| is_roman_char(c), 0);
                }
                return None;
            },
        };
        let ghost n = (input.len() - self.remaining().len()) as nat;
        proof {
            lemma_run_length_unique(input, |c: char| is_roman_char(c), n);
        }
        match self.stream.peek() {
            Some(chr) => {
                if chr.is_alphanumeric() {
                    self.stream.put_back(parsed.as_str());
                    assert(input.take(n as int) + input.skip(n as int) =~= input);
                    return None;
                }
            },
            None => {},
        }
        match Numeral::parse_roman(parsed.as_str()) {
            Ok(numeral) => Some(Ok(numeral)),
            Err(e) => Some(Err(self.error(ErrorKind::BadNumeral(e)))),
        }
    }

    /// Reads a numeral, Roman if it can be, else Arabic.
    pub fn parse_numeral(&mut self) -> (found: Option<Result<Token, Error>>)
        ensures
            final(self).scans_from(old(self)),
            final(self).remaining().len() <= old(self).remaining().len(),
            found matches Some(Ok(_)) ==> final(self).remaining().len() < old(
                self,
            ).remaining().len(),
            final(self).yields_if(old(self), found, scan_numeral(old(self).remaining())),
    {
        let numeral = match self.parse_roman_numeral() {
            Some(numeral) => Some(numeral),
            None => self.parse_arabic_numeral(),
        };
        match numeral {
            Some(Ok(n)) => Some(Ok(Token::Literal(Literal::Numeral(n)))),
            Some(Err(e)) => Some(Err(e)),
            None => None,
        }
    }

    /// Reads a fraktur literal: the run of fraktur letters and white space
    /// that the unread text begins with. The text of the literal is that
    /// run without the white space at its ends. A letter or number directly
    /// after the run is an error.
    pub fn parse_fraktur(&mut self) -> (found: Result<Text, Error>)
        ensures
            final(self).scans_from(old(self)),
            final(self).remaining().len() <= old(self).remaining().len(),
            old(self).remaining().len() > 0 && is_fraktur_char(old(self).remaining()[0])
                ==> final(self).remaining().len() < old(self).remaining().len(),
            match scan_fraktur(old(self).remaining()) {
                Scan::Token { token, rest } => {
                    &&& found matches Ok(text)
                    &&& text_token(text@) == token
                    &&& final(self).remaining() == rest
                },
                Scan::Error { kind, rest } => {
                    &&& found matches Err(e)
                    &&& final(self).reports(e, kind)
                    &&& final(self).remaining() == rest
                },
                Scan::End => false,
            },
    {
        let ghost input = self.remaining();
        let run = self.stream.take_while(fraktur_char);
        let ghost n = (input.len() - self.remaining().len()) as nat;
        proof {
            lemma_run_length_unique(input, |c: char| is_fraktur_char(c), n);
        }
        match self.stream.peek() {
            Some(chr) => {
                if chr.is_alphanumeric() {
                    return Err(self.error(ErrorKind::BadFrakturSuffix));
                }
            },
            None => {},
        }
        match run {
            Some(fraktur) => Ok(Text::new_fraktur(String::from_str(fraktur.as_str().trim()))),
            None => {
                assert(input.take(0) =~= Seq::<char>::empty());
                Ok(Text::new_fraktur(String::new()))
            },
        }
    }

    /// Whether `undo` was called since `next` last was. While this holds,
    /// `undo` cannot be called.
    pub fn is_undone(&self) -> (undone: bool)
        ensures
            undone == self.undone(),
    {
        self.put_back
    }

    /// Makes the next call of `next` give again what the last call gave.
    /// It cannot be called twice without a call of `next` in between.
    pub fn undo(&mut self)
        requires
            !old(self).undone(),
        ensures
            final(self).undone(),
            final(self).remaining() == old(self).remaining(),
            final(self).origin() == old(self).origin(),
            final(self).last_token() == old(self).last_token(),
    {
        self.put_back = true;
    }

    /// Reads an identifier, if the unread text begins with a letter or an
    /// underscore: that character and the letters, numbers and underscores
    /// that follow it.
    pub fn next_identifier(&mut self) -> (found: Option<String>)
        ensures
            final(self).scans_from(old(self)),
            match scan_identifier(old(self).remaining()) {
                Some(Scan::Token { token, rest }) => {
                    &&& found matches Some(name)
                    &&& Lexeme::Identifier(name@) == token
                    &&& final(self).remaining() == rest
                    &&& final(self).remaining().len() < old(self).remaining().len()
                },
                _ => found is None && final(self).remaining() == old(self).remaining(),
            },
    {
        let ghost input = self.remaining();
        match self.stream.peek() {
            Some(chr) => {
                if !is_word_start(chr) {
                    return None;
                }
            },
            None => {
                return None;
            },
        }
        let found = self.stream.take_while(is_word_char);
        let ghost n = (input.len() - self.remaining().len()) as nat;
        proof {
            lemma_run_length_unique(input, |c: char| word_char(c), n);
            if n == 0 {
                assert(word_char(input[0]));
            }
        }
        found
    }

    /// Reads a macro invocation, which begins with `@`. Macros are not
    /// available, so an invocation is an error; nothing of it is read.
    pub fn next_macro_invocation(&mut self) -> (found: Option<Result<(), Error>>)
        ensures
            final(self).scans_from(old(self)),
            final(self).remaining() == old(self).remaining(),
            old(self).remaining().len() > 0 && old(self).remaining()[0] == '@' ==> {
                &&& found matches Some(Err(e))
                &&& final(self).reports(e, ErrorKind::UnsupportedMacro)
            },
            !(old(self).remaining().len() > 0 && old(self).remaining()[0] == '@') ==> found is None,
    {
        match self.stream.peek() {
            Some('@') => Some(Err(self.error(ErrorKind::UnsupportedMacro))),
            _ => None,
        }
    }

    /// Reads a macro variable, whose `$` has just been read. Macros are not
    /// available, so this is an error.
    pub fn parse_macro_variable(&mut self) -> (found: Result<Token, Error>)
        ensures
            final(self).scans_from(old(self)),
            final(self).remaining() == old(self).remaining(),
            found matches Err(e) && final(self).reports(e, ErrorKind::UnsupportedMacro),
    {
        Err(self.error(ErrorKind::UnsupportedMacro))
    }
    /// Reads `digits` hexadecimal digits, most significant first, and gives
    /// the number they write. The input ending early and a character that
    /// is no hexadecimal digit are errors.
    fn read_hex(&mut self, digits: u8) -> (found: Result<u32, Error>)
        requires
            digits <= 4,
        ensures
            final(self).scans_from(old(self)),
            final(self).remaining().len() <= old(self).remaining().len(),
            match scan_hex(old(self).remaining(), digits as nat, 0) {
                (Ok(value), rest) => {
                    &&& found == Ok::<u32, Error>(value as u32)
                    &&& value < sixteen_to(digits as nat)
                    &&& final(self).remaining() == rest
                },
                (Err(kind), rest) => {
                    &&& found matches Err(e)
                    &&& final(self).reports(e, kind)
                    &&& final(self).remaining() == rest
                },
            },
    {
        let mut value: u32 = 0;
        let mut read: u8 = 0;
        proof {
            reveal_with_fuel(sixteen_to, 5);
        }
        while read < digits
            invariant
                read <= digits <= 4,
                self.scans_from(old(self)),
                self.remaining().len() <= old(self).remaining().len(),
                value < sixteen_to(read as nat),
                sixteen_to(read as nat) <= 0x10000,
                scan_hex(self.remaining(), (digits - read) as nat, value as nat) == scan_hex(
                    old(self).remaining(),
                    digits as nat,
                    0,
                ),
            decreases digits - read,
        {
            let ghost s = self.remaining();
            proof {
                reveal_with_fuel(sixteen_to, 5);
            }
            match self.stream.next() {
                None => {
                    return Err(self.error(ErrorKind::UnterminatedEscapeSequence));
                },
                Some(chr) => {
                    assert(s.drop_first() =~= s.skip(1));
                    match hex_digit(chr) {
                        Some(digit) => {
                            value = value * 16 + digit;
                        },
                        None => {
                            return Err(self.error(ErrorKind::InvalidHexDigit(chr)));
                        },
                    }
                },
            }
            read += 1;
        }
        Ok(value)
    }

    /// The token for a quoted text: plain text if nothing was embedded in
    /// it, an interpolation otherwise.
    fn quoted(text: String, interpolations: Vec<(Text, Vec<Token>)>) -> (token: Token)
        ensures
            token@ == quoted_token(text@, segments_view(interpolations@)),
    {
        if interpolations.len() == 0 {
            Token::Literal(Literal::Text(Text::from_string(text)))
        } else {
            Token::Literal(Literal::TextInterpolation(interpolations, Text::from_string(text)))
        }
    }

    /// Reads the tokens of an expression embedded in a quoted text, whose
    /// opening `\(` has just been read, up to the round bracket that closes
    /// it. That bracket is read too but is not among the tokens returned.
    /// The input ending before it is an error.
    fn read_interpolation(&mut self) -> (found: Result<Vec<Token>, Error>)
        requires
            old(self).remaining().len() < usize::MAX,
        ensures
            final(self).scans_from(old(self)),
            final(self).remaining().len() <= old(self).remaining().len(),
            match scan_interpolation(old(self).remaining(), 1, Seq::empty()) {
                (Ok(tokens), rest) => {
                    &&& found matches Ok(inner)
                    &&& tokens_view(inner@) == tokens
                    &&& final(self).remaining() == rest
                },
                (Err(kind), rest) => {
                    &&& found matches Err(e)
                    &&& final(self).reports(e, kind)
                    &&& final(self).remaining() == rest
                },
            },
        decreases old(self).remaining().len(), 7nat,
    {
        let mut inner: Vec<Token> = Vec::new();
        let mut nesting: usize = 1;
        assert(tokens_view(inner@) =~= Seq::empty());
        loop
            invariant
                self.scans_from(old(self)),
                old(self).remaining().len() < usize::MAX,
                self.remaining().len() <= old(self).remaining().len(),
                1 <= nesting,
                nesting + self.remaining().len() <= old(self).remaining().len() + 1,
                scan_interpolation(self.remaining(), nesting as nat, tokens_view(inner@))
                    == scan_interpolation(old(self).remaining(), 1, Seq::empty()),
            decreases self.remaining().len(),
        {
            let token = match self.next_from_stream() {
                Some(Ok(token)) => token,
                Some(Err(e)) => {
                    return Err(e);
                },
                None => {
                    assert(self.remaining() =~= Seq::<char>::empty());
                    return Err(self.error(ErrorKind::UnterminatedEscapeSequence));
                },
            };
            proof {
                lemma_tokens_view_push(inner@, token);
            }
            match token {
                Token::LeftParen(ParenKind::Round) => {
                    nesting += 1;
                },
                Token::RightParen(ParenKind::Round) => {
                    nesting -= 1;
                    if nesting == 0 {
                        return Ok(inner);
                    }
                },
                _ => {},
            }
            inner.push(token);
        }
    }

    /// Reads a quoted text, whose opening quote is the next unread
    /// character. The text runs to the next unescaped occurrence of that
    /// quote or, if there is none, to the end of the input.
    ///
    /// Within single quotes `\\` and `\'` stand for a backslash and a quote,
    /// and a backslash before any other character stands for itself. Within
    /// double quotes the escapes are `\\`, `\"`, `\'`, `\n`, `\t`, `\r`,
    /// `\0`, `\xHH`, `\uHHHH`, a backslash before a line break, which drops
    /// both, and `\(`, which embeds the tokens up to the matching `)`.
    pub fn parse_quoted(&mut self) -> (found: Result<Token, Error>)
        requires
            old(self).remaining().len() > 0,
        ensures
            final(self).scans_from(old(self)),
            final(self).remaining().len() < old(self).remaining().len(),
            final(self).yields(
                Some(found),
                scan_quoted(
                    old(self).remaining().skip(1),
                    old(self).remaining()[0],
                    Seq::empty(),
                    Seq::empty(),
                ),
            ),
        decreases old(self).remaining().len(), 2nat,
    {
        let ghost start = self.remaining();
        proof {
            self.stream.lemma_remaining_fits();
        }
        let quote = match self.stream.next() {
            Some(quote) => quote,
            None => vstd::pervasive::unreached(),
        };
        assert(start.drop_first() =~= start.skip(1));
        let mut text = String::new();
        let mut interpolations: Vec<(Text, Vec<Token>)> = Vec::new();
        let ghost goal = scan_quoted(start.skip(1), quote, Seq::empty(), Seq::empty());
        assert(segments_view(interpolations@) =~= Seq::empty());
        loop
            invariant
                self.scans_from(old(self)),
                start == old(self).remaining(),
                start.len() <= usize::MAX,
                quote == start[0],
                goal == scan_quoted(start.skip(1), quote, Seq::empty(), Seq::empty()),
                self.remaining().len() < start.len(),
                scan_quoted(self.remaining(), quote, text@, segments_view(interpolations@))
                    == goal,
            decreases self.remaining().len(),
        {
            let ghost s = self.remaining();
            let chr = match self.stream.next() {
                Some(chr) => chr,
                None => {
                    return Ok(Self::quoted(text, interpolations));
                },
            };
            assert(s.drop_first() =~= s.skip(1));
            if chr == quote {
                return Ok(Self::quoted(text, interpolations));
            }
            if chr != '\\' {
                text.push(chr);
            } else {
                let escaped = match self.stream.next() {
                    Some(escaped) => escaped,
                    None => {
                        return Err(self.error(ErrorKind::UnterminatedEscapeSequence));
                    },
                };
                assert(s.skip(1).drop_first() =~= s.skip(2));
                if quote == '\'' {
                    if escaped == '\\' || escaped == '\'' {
                        text.push(escaped);
                    } else {
                        text.push('\\');
                        text.push(escaped);
                    }
                } else {
                    match escaped {
                        '\\' | '"' | '\'' => {
                            text.push(escaped);
                        },
                        'n' => {
                            text.push('\n');
                        },
                        't' => {
                            text.push('\t');
                        },
                        'r' => {
                            text.push('\r');
                        },
                        '0' => {
                            text.push('\0');
                        },
                        '\n' => {},
                        '\r' => {
                            match self.stream.next() {
                                Some('\n') => {
                                    assert(s.skip(2).drop_first() =~= s.skip(2).skip(1));
                                },
                                Some(_) => {
                                    assert(s.skip(2).drop_first() =~= s.skip(2).skip(1));
                                    return Err(
                                        self.error(ErrorKind::UnknownEscapeCharacter(escaped)),
                                    );
                                },
                                None => {
                                    return Err(
                                        self.error(ErrorKind::UnknownEscapeCharacter(escaped)),
                                    );
                                },
                            }
                        },
                        'x' => {
                            match self.read_hex(2) {
                                Ok(value) => {
                                    proof {
                                        reveal_with_fuel(sixteen_to, 3);
                                    }
                                    text.push(value as u8 as char);
                                },
                                Err(e) => {
                                    return Err(e);
                                },
                            }
                        },
                        'u' => {
                            match self.read_hex(4) {
                                Ok(value) => {
                                    proof {
                                        reveal_with_fuel(sixteen_to, 5);
                                    }
                                    match char::from_u32(value) {
                                        Some(c) => {
                                            text.push(c);
                                        },
                                        None => {
                                            return Err(
                                                self.error(ErrorKind::InvalidHexEscape(value)),
                                            );
                                        },
                                    }
                                },
                                Err(e) => {
                                    return Err(e);
                                },
                            }
                        },
                        '(' => {
                            match self.read_interpolation() {
                                Ok(inner) => {
                                    let before = Text::from_string(text);
                                    proof {
                                        lemma_segments_view_push(interpolations@, before, inner);
                                    }
                                    interpolations.push((before, inner));
                                    text = String::new();
                                },
                                Err(e) => {
                                    return Err(e);
                                },
                            }
                        },
                        _ => {
                            return Err(self.error(ErrorKind::UnknownEscapeCharacter(escaped)));
                        },
                    }
                }
            }
        }
    }

    /// Reads a text literal, if the unread text begins with a fraktur
    /// letter or with a quote.
    pub fn parse_text(&mut self) -> (found: Option<Result<Token, Error>>)
        ensures
            final(self).scans_from(old(self)),
            final(self).remaining().len() <= old(self).remaining().len(),
            found matches Some(Ok(_)) ==> final(self).remaining().len() < old(
                self,
            ).remaining().len(),
            final(self).yields_if(old(self), found, scan_text(old(self).remaining())),
        decreases old(self).remaining().len(), 3nat,
    {
        let ghost input = self.remaining();
        let peeked = match self.stream.peek() {
            Some(peeked) => peeked,
            None => {
                return None;
            },
        };
        if is_fraktur(peeked) {
            match self.parse_fraktur() {
                Ok(text) => Some(Ok(Token::Literal(Literal::Text(text)))),
                Err(e) => Some(Err(e)),
            }
        } else if peeked == '\'' || peeked == '"' {
            Some(self.parse_quoted())
        } else {
            None
        }
    }

    /// Reads a literal, if the unread text begins with one: a numeral, a
    /// text, or one of the words `yay`, `nay` and `ni`.
    pub fn next_literal(&mut self) -> (found: Option<Result<Token, Error>>)
        ensures
            final(self).scans_from(old(self)),
            final(self).remaining().len() <= old(self).remaining().len(),
            found matches Some(Ok(_)) ==> final(self).remaining().len() < old(
                self,
            ).remaining().len(),
            final(self).yields_if(old(self), found, scan_literal(old(self).remaining())),
        decreases old(self).remaining().len(), 4nat,
    {
        let ghost input = self.remaining();
        if let Some(numeral) = self.parse_numeral() {
            return Some(numeral);
        }
        if let Some(text) = self.parse_text() {
            return Some(text);
        }
        proof {
            reveal_strlit("yay");
            reveal_strlit("nay");
            reveal_strlit("ni");
        }
        if self.stream.take_identifier("yay") {
            Some(Ok(Token::Literal(Literal::Boolean(true))))
        } else if self.stream.take_identifier("nay") {
            Some(Ok(Token::Literal(Literal::Boolean(false))))
        } else if self.stream.take_identifier("ni") {
            Some(Ok(Token::Literal(Literal::Null)))
        } else {
            None
        }
    }

    /// `with` if an equals sign comes next, which is then read; `without`
    /// otherwise.
    fn if_equals(&mut self, with: Symbol, without: Symbol) -> (token: Token)
        ensures
            final(self).scans_from(old(self)),
            final(self).remaining().len() <= old(self).remaining().len(),
            final(self).yields(
                Some(Ok(token)),
                crate::parse::grammar::scan_assignable(old(self).remaining(), with, without),
            ),
    {
        let ghost s = self.remaining();
        match self.stream.peek() {
            Some('=') => {
                let _ = self.stream.next();
                assert(s.drop_first() =~= s.skip(1));
                Token::Symbol(with)
            },
            _ => Token::Symbol(without),
        }
    }

    /// The bracket or operator that begins with `first`, which has just been
    /// read. A character that begins none is an error.
    fn punctuation(&mut self, first: char) -> (found: Result<Token, Error>)
        ensures
            final(self).scans_from(old(self)),
            final(self).remaining().len() <= old(self).remaining().len(),
            final(self).yields(Some(found), scan_punctuation(first, old(self).remaining())),
    {
        let ghost s = self.remaining();
        match first {
            '$' => self.parse_macro_variable(),
            '(' => Ok(Token::LeftParen(ParenKind::Round)),
            '[' => Ok(Token::LeftParen(ParenKind::Square)),
            '{' => Ok(Token::LeftParen(ParenKind::Curly)),
            ')' => Ok(Token::RightParen(ParenKind::Round)),
            ']' => Ok(Token::RightParen(ParenKind::Square)),
            '}' => Ok(Token::RightParen(ParenKind::Curly)),
            ';' => Ok(Token::Symbol(Symbol::Endline)),
            ',' => Ok(Token::Symbol(Symbol::Comma)),
            ':' => Ok(Token::Symbol(Symbol::Colon)),
            '.' => Ok(Token::Symbol(Symbol::Dot)),
            '=' => Ok(self.if_equals(Symbol::EqualEqual, Symbol::Equal)),
            '!' => Ok(self.if_equals(Symbol::NotEqual, Symbol::Exclamation)),
            '<' => {
                proof {
                    reveal_strlit("=>");
                    assert("=>"@ =~= seq!['=', '>']);
                }
                if self.stream.take_prefix("=>") {
                    Ok(Token::Symbol(Symbol::Compare))
                } else {
                    Ok(self.if_equals(Symbol::LessThanOrEqual, Symbol::LessThan))
                }
            },
            '>' => Ok(self.if_equals(Symbol::GreaterThanOrEqual, Symbol::GreaterThan)),
            '+' => Ok(self.if_equals(Symbol::PlusEqual, Symbol::Plus)),
            '-' => Ok(self.if_equals(Symbol::HyphenEqual, Symbol::Hyphen)),
            '*' => {
                proof {
                    reveal_strlit("*");
                    assert("*"@ =~= seq!['*']);
                    if s.len() > 0 {
                        assert(s.take(1) =~= seq![s[0]]);
                        assert(seq![s[0]][0] == s[0]);
                    }
                }
                if self.stream.take_prefix("*") {
                    Ok(self.if_equals(Symbol::AsteriskAsteriskEqual, Symbol::AsteriskAsterisk))
                } else {
                    Ok(self.if_equals(Symbol::AsteriskEqual, Symbol::Asterisk))
                }
            },
            '/' => Ok(self.if_equals(Symbol::SolidusEqual, Symbol::Solidus)),
            '%' => Ok(self.if_equals(Symbol::PercentSignEqual, Symbol::PercentSign)),
            _ => {
                if first == '&' || first == '|' {
                    match self.stream.peek() {
                        Some(second) => {
                            if second == first {
                                let _ = self.stream.next();
                                assert(s.drop_first() =~= s.skip(1));
                                if first == '&' {
                                    return Ok(Token::Symbol(Symbol::AndAnd));
                                } else {
                                    return Ok(Token::Symbol(Symbol::OrOr));
                                }
                            }
                        },
                        None => {},
                    }
                }
                Err(self.error(ErrorKind::UnknownTokenStart(first)))
            },
        }
    }

    /// Reads the next token from the stream: skips white space and comments
    /// and then tries, in this order, a keyword, a literal, macro syntax, an
    /// identifier, and a bracket or operator. Gives `None` when the input is
    /// at its end.
    pub fn next_from_stream(&mut self) -> (found: Option<Result<Token, Error>>)
        ensures
            final(self).scans_from(old(self)),
            final(self).remaining().len() <= old(self).remaining().len(),
            found matches Some(Ok(_)) ==> final(self).remaining().len() < old(
                self,
            ).remaining().len(),
            final(self).yields(found, scan_token(old(self).remaining())),
        decreases old(self).remaining().len(), 5nat,
    {
        let ghost input = self.remaining();
        proof {
            lemma_skip_trivia_suffix(input);
        }
        self.stream.strip_whitespace_and_comments();
        let ghost t = self.remaining();
        if let Some(keyword) = self.next_keyword() {
            proof {
                lemma_keyword_length(t, 0);
            }
            return Some(Ok(Token::Keyword(keyword)));
        }
        if let Some(literal) = self.next_literal() {
            return Some(literal);
        }
        if let Some(invocation) = self.next_macro_invocation() {
            match invocation {
                Err(e) => {
                    return Some(Err(e));
                },
                Ok(()) => {},
            }
        }
        if let Some(identifier) = self.next_identifier() {
            return Some(Ok(Token::Identifier(identifier)));
        }
        let first = match self.stream.next() {
            Some(first) => first,
            None => {
                return None;
            },
        };
        assert(t.drop_first() =~= t.skip(1));
        Some(self.punctuation(first))
    }

    /// The next token. After `undo` this is the token that the last call
    /// gave; otherwise it is read from the stream and remembered.
    pub fn next(&mut self) -> (found: Option<Result<Token, Error>>)
        ensures
            final(self).origin() == old(self).origin(),
            !final(self).undone(),
            old(self).undone() ==> {
                &&& final(self).remaining() == old(self).remaining()
                &&& final(self).last_token() == old(self).last_token()
                &&& match old(self).last_token() {
                    Some(last) => found matches Some(Ok(token)) && token@ == last,
                    None => found is None,
                }
            },
            !old(self).undone() ==> {
                &&& final(self).yields(found, scan_token(old(self).remaining()))
                &&& final(self).remaining().len() <= old(self).remaining().len()
                &&& final(self).last_token() == (match found {
                    Some(Ok(token)) => Some(token@),
                    _ => old(self).last_token(),
                })
            },
    {
        if self.put_back {
            self.put_back = false;
            match &self.last {
                Some(token) => Some(Ok(token.clone())),
                None => None,
            }
        } else {
            match self.next_from_stream() {
                Some(Ok(token)) => {
                    self.last = Some(token.clone());
                    Some(Ok(token))
                },
                other => other,
            }
        }
    }
}

/// Sixteen to the power `n`.
pub open spec fn sixteen_to(n: nat) -> nat
    decreases n,
{
    if n == 0 {
        1
    } else {
        16 * sixteen_to((n - 1) as nat)
    }
}

} // verus!
