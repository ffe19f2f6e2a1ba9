//! What holds of the grammar as a whole.
//!
//! The tokenizer computes what `parse::grammar` describes; the functions
//! here prove properties of that description, and so of the tokenizer.

use vstd::prelude::*;
use crate::error::{ErrorKind, NumeralParseError};
use crate::parse::grammar::{
    is_fraktur_char, keyword_count, lemma_keyword_length, lemma_run_length_bounds, lemma_run_length_unique,
    lemma_skip_trivia_suffix, numeral_token, run_length, scan_arabic, scan_fraktur, scan_hex,
    scan_identifier, scan_interpolation, scan_keyword, scan_keyword_from, scan_literal,
    scan_numeral, scan_punctuation, scan_quoted, scan_roman, scan_text, scan_token,
    scan_word_literal, simple_escape, skip_trivia, starts_with, starts_with_word, text_token,
    Scan,
};
use crate::parse::token::{lemma_spelling, Keyword, Lexeme};
use crate::unicode::{alphanumeric, is_arabic_digit, word_char};
use crate::value::numeral::{
    arabic_value, decimal, decimal_digits, digit_char, has_digit, is_arabic_char,
    is_roman_char, roman_value, roman_values,
};
use crate::value::text::{escape_of, escaped, fraktur_letter, quoted};

verus! {

/// A keyword is only found where it stands as a whole word: where its
/// spelling is followed by the end of the input or by a character that
/// cannot continue an identifier.
pub proof fn law_keyword_is_whole_word(s: Seq<char>, keyword: Keyword)
    requires
        scan_keyword(s) == Some(keyword),
    ensures
        starts_with_word(s, keyword.spelling()),
{
    lemma_keyword_found(s, 0);
}

/// What `scan_keyword_from` finds stands at the start as a whole word.
proof fn lemma_keyword_found(s: Seq<char>, rank: nat)
    ensures
        scan_keyword_from(s, rank) matches Some(keyword) ==> starts_with_word(s, keyword.spelling()),
    decreases keyword_count() - rank,
{
    if rank < keyword_count() {
        lemma_keyword_found(s, rank + 1);
    }
}

/// A run of digits and underscores that holds a digit, denotes a number no
/// greater than the largest numeral, and is followed by no letter or number
/// is read as the numeral that it denotes.
pub proof fn law_arabic_run_is_numeral(s: Seq<char>, n: nat)
    requires
        n == run_length(s, |c: char| is_arabic_char(c)),
        has_digit(s.take(n as int)),
        arabic_value(s.take(n as int)) <= i64::MAX,
        n < s.len() ==> !alphanumeric(s[n as int]),
    ensures
        scan_arabic(s) == Some(
            Scan::Token {
                token: numeral_token(arabic_value(s.take(n as int)) as int),
                rest: s.skip(n as int),
            },
        ),
{
    let accepts = |c: char| is_arabic_char(c);
    let run = s.take(n as int);
    lemma_run_length_bounds(s, accepts);
    let i = choose|i: int| 0 <= i < run.len() && is_arabic_digit(#[trigger] run[i]);
    assert forall|j: int| 0 <= j < run.len() implies accepts(#[trigger] run[j]) by {
        assert(run[j] == s[j]);
    }
    lemma_run_length_unique(run, accepts, n);
}

/// A run of digits and underscores that is directly followed by a letter or
/// number is an error that names the follower.
pub proof fn law_arabic_run_with_suffix_fails(s: Seq<char>, n: nat)
    requires
        n == run_length(s, |c: char| is_arabic_char(c)),
        0 < n < s.len(),
        alphanumeric(s[n as int]),
    ensures
        scan_arabic(s) == Some(
            Scan::Error {
                kind: ErrorKind::BadNumeral(NumeralParseError::BadTrailingChar(s[n as int])),
                rest: s.skip(n as int),
            },
        ),
{
}

/// A run of glyphs and underscores that holds a glyph, denotes a number no
/// greater than the largest numeral, and is followed by no letter or number
/// is read as the numeral that it denotes.
pub proof fn law_roman_run_is_numeral(s: Seq<char>, n: nat)
    requires
        n == run_length(s, |c: char| is_roman_char(c)),
        roman_values(s.take(n as int)).len() > 0,
        roman_value(s.take(n as int)) <= i64::MAX,
        n < s.len() ==> !alphanumeric(s[n as int]),
    ensures
        scan_roman(s) == Some(
            Scan::Token {
                token: numeral_token(roman_value(s.take(n as int))),
                rest: s.skip(n as int),
            },
        ),
{
    let accepts = |c: char| is_roman_char(c);
    let run = s.take(n as int);
    lemma_run_length_bounds(s, accepts);
    assert(n > 0) by {
        if n == 0 {
            assert(run =~= Seq::<char>::empty());
        }
    }
    assert forall|j: int| 0 <= j < run.len() implies accepts(#[trigger] run[j]) by {
        assert(run[j] == s[j]);
    }
    lemma_run_length_unique(run, accepts, n);
}

/// A run of glyphs and underscores that is directly followed by a letter or
/// number is no numeral and no error: nothing of it is read, so that it can
/// be read as the start of an identifier.
pub proof fn law_roman_run_with_suffix_is_no_numeral(s: Seq<char>, n: nat)
    requires
        n == run_length(s, |c: char| is_roman_char(c)),
        n < s.len(),
        alphanumeric(s[n as int]),
    ensures
        scan_roman(s) is None,
{
}

/// A numeral in the source is never negative, so that it is among the
/// numerals that `law_numeral_round_trip` speaks of.
pub proof fn law_numeral_literal_is_not_negative(s: Seq<char>)
    ensures
        scan_numeral(s) matches Some(Scan::Token { token, rest }) ==> (token matches Lexeme::Literal(
            crate::parse::token::LiteralView::Numeral(value),
        ) && 0 <= value <= i64::MAX),
{
    let glyphs = run_length(s, |c: char| is_roman_char(c));
    if scan_roman(s) is Some && roman_values(s.take(glyphs as int)).len() > 0 {
        crate::value::numeral::lemma_roman_value_positive(s.take(glyphs as int));
    }
}

/// The digits of a number are digits, at least one, and denote the number.
pub proof fn lemma_decimal_digits(n: nat)
    ensures
        decimal_digits(n).len() >= 1,
        forall|i: int|
            0 <= i < decimal_digits(n).len() ==> is_arabic_digit(#[trigger] decimal_digits(n)[i]),
        arabic_value(decimal_digits(n)) == n,
    decreases n,
{
    let d = decimal_digits(n);
    if n < 10 {
        assert(d.drop_last() =~= Seq::<char>::empty());
        assert(d.last() == digit_char(n));
        assert(arabic_value(d.drop_last()) == 0);
    } else {
        let shorter = decimal_digits(n / 10);
        lemma_decimal_digits(n / 10);
        assert(d.drop_last() =~= shorter);
        assert(d.last() == digit_char(n % 10));
        assert forall|i: int| 0 <= i < d.len() implies is_arabic_digit(#[trigger] d[i]) by {
            if i < shorter.len() {
                assert(d[i] == shorter[i]);
            }
        }
    }
}

/// A text that does not begin with a small ASCII letter begins with no
/// keyword.
proof fn lemma_no_keyword(s: Seq<char>, rank: nat)
    requires
        s.len() > 0,
        !('a' <= s[0] && s[0] <= 'z'),
    ensures
        scan_keyword_from(s, rank) is None,
    decreases keyword_count() - rank,
{
    if rank < keyword_count() {
        let word = Keyword::ranked(rank).spelling();
        lemma_spelling(Keyword::ranked(rank));
        if starts_with(s, word) {
            assert(s.take(word.len() as int)[0] == word[0]);
            assert('a' <= word[0] && word[0] <= 'z');
        }
        lemma_no_keyword(s, rank + 1);
    }
}

/// Writing a numeral that is not negative and reading the result gives the
/// numeral back.
///
/// The digits may be followed by any text that does not go on with a
/// letter, a number or an underscore.
pub proof fn law_numeral_round_trip(n: int, rest: Seq<char>)
    requires
        0 <= n <= i64::MAX,
        rest.len() > 0 ==> !alphanumeric(rest[0]) && !is_arabic_char(rest[0]),
    ensures
        scan_token(decimal(n) + rest) == (Scan::Token { token: numeral_token(n), rest }),
{
    let digits = decimal(n);
    let s = digits + rest;
    let count = digits.len();
    lemma_decimal_digits(n as nat);
    assert(s[0] == digits[0]);
    assert(is_arabic_digit(s[0]));
    assert(skip_trivia(s) == s);
    lemma_no_keyword(s, 0);
    assert(run_length(s, |c: char| is_roman_char(c)) == 0);
    assert(scan_roman(s) is None);
    assert forall|i: int| 0 <= i < count implies is_arabic_char(#[trigger] s[i]) by {
        assert(s[i] == digits[i]);
    }
    if count < s.len() {
        assert(s[count as int] == rest[0]);
    }
    lemma_run_length_unique(s, |c: char| is_arabic_char(c), count);
    assert(s.take(count as int) =~= digits);
    assert(s.skip(count as int) =~= rest);
    assert(has_digit(digits)) by {
        assert(is_arabic_digit(digits[0]));
    }
    law_arabic_run_is_numeral(s, count);
    assert(scan_numeral(s) == scan_arabic(s));
    assert(scan_literal(s) == scan_numeral(s));
}

/// Reading the escaped form of `s`, a closing quote and `rest` as the
/// body of a double-quoted text gives the text read so far and then `s`,
/// and leaves `rest`.
proof fn lemma_scan_escaped(s: Seq<char>, rest: Seq<char>, text: Seq<char>)
    ensures
        scan_quoted(escaped(s) + seq!['"'] + rest, '"', text, Seq::empty()) == (Scan::Token {
            token: text_token(text + s),
            rest,
        }),
    decreases s.len(),
{
    let input = escaped(s) + seq!['"'] + rest;
    let none = Seq::<(Seq<char>, Seq<Lexeme>)>::empty();
    if s.len() == 0 {
        assert(input[0] == '"');
        assert(input.skip(1) =~= rest);
        assert(text + s =~= text);
    } else {
        let c = s[0];
        let tail = s.drop_first();
        let after = escaped(tail) + seq!['"'] + rest;
        lemma_scan_escaped(tail, rest, text.push(c));
        assert(text.push(c) + tail =~= text + s);
        assert(input =~= escape_of(c) + after);
        if escape_of(c).len() == 1 {
            assert(input[0] == c);
            assert(input.skip(1) =~= after);
            assert(scan_quoted(input, '"', text, none) == scan_quoted(
                after,
                '"',
                text.push(c),
                none,
            ));
        } else {
            assert(input[0] == '\\');
            assert(input.skip(2) =~= after);
            assert(simple_escape(input[1]) == Some(c));
            assert(scan_quoted(input, '"', text, none) == scan_quoted(
                after,
                '"',
                text.push(c),
                none,
            ));
        }
    }
}

/// Writing a text as a double-quoted literal and reading the result gives
/// the text back, whatever follows the literal.
pub proof fn law_text_round_trip(text: Seq<char>, rest: Seq<char>)
    ensures
        scan_token(quoted(text) + rest) == (Scan::Token { token: text_token(text), rest }),
{
    let s = quoted(text) + rest;
    let body = escaped(text) + seq!['"'] + rest;
    assert(s[0] == '"');
    assert(s.skip(1) =~= body);
    assert(skip_trivia(s) == s);
    lemma_no_keyword(s, 0);
    assert(run_length(s, |c: char| is_roman_char(c)) == 0);
    assert(run_length(s, |c: char| is_arabic_char(c)) == 0);
    assert(scan_numeral(s) is None);
    assert(!fraktur_letter(s[0]));
    lemma_scan_escaped(text, rest, Seq::empty());
    assert(Seq::<char>::empty() + text =~= text);
    assert(scan_text(s) == Some(
        scan_quoted(s.skip(1), '"', Seq::<char>::empty(), Seq::empty()),
    ));
    assert(scan_literal(s) == scan_text(s));
}

/// Whether `scan` leaves at most `limit` characters unread, and fewer if it
/// found a token.
pub open spec fn leaves(scan: Scan, limit: nat) -> bool {
    match scan {
        Scan::End => true,
        Scan::Token { token, rest } => rest.len() < limit,
        Scan::Error { kind, rest } => rest.len() <= limit,
    }
}

/// Reading hexadecimal digits leaves a part of the input.
proof fn lemma_hex_leaves(s: Seq<char>, digits: nat, value: nat)
    ensures
        scan_hex(s, digits, value).1.len() <= s.len(),
    decreases digits,
{
    if digits > 0 && s.len() > 0 {
        lemma_hex_leaves(s.skip(1), (digits - 1) as nat, (value * 16 + crate::unicode::hex_value(
            s[0],
        ).unwrap_or(0)) as nat);
    }
}

/// What is scanned that is no quoted text leaves less than it was given
/// when it finds a token, and never more.
proof fn lemma_simple_scans_leave(t: Seq<char>)
    requires
        t.len() > 0,
    ensures
        scan_numeral(t) matches Some(scan) ==> leaves(scan, t.len()),
        fraktur_letter(t[0]) ==> leaves(scan_fraktur(t), t.len()),
        scan_word_literal(t) matches Some(scan) ==> leaves(scan, t.len()),
        scan_identifier(t) matches Some(scan) ==> leaves(scan, t.len()),
        leaves(scan_punctuation(t[0], t.skip(1)), t.len()),
{
    lemma_run_length_bounds(t, |c: char| is_roman_char(c));
    lemma_run_length_bounds(t, |c: char| is_arabic_char(c));
    lemma_run_length_bounds(t, |c: char| is_fraktur_char(c));
    lemma_run_length_bounds(t, |c: char| word_char(c));
    reveal_strlit("yay");
    reveal_strlit("nay");
    reveal_strlit("ni");
}

/// The body of a quoted text is scanned to a token or an error, and what
/// is left is a part of what was given.
pub proof fn lemma_quoted_leaves(
    s: Seq<char>,
    quote: char,
    text: Seq<char>,
    segments: Seq<(Seq<char>, Seq<Lexeme>)>,
)
    ensures
        scan_quoted(s, quote, text, segments) !is End,
        match scan_quoted(s, quote, text, segments) {
            Scan::End => true,
            Scan::Token { token, rest } => rest.len() <= s.len(),
            Scan::Error { kind, rest } => rest.len() <= s.len(),
        },
    decreases s.len(), 0nat,
{
    if s.len() == 0 || s[0] == quote {
    } else if s[0] != '\\' {
        lemma_quoted_leaves(s.skip(1), quote, text.push(s[0]), segments);
    } else if s.len() == 1 {
    } else if quote == '\'' {
        if s[1] == '\\' || s[1] == '\'' {
            lemma_quoted_leaves(s.skip(2), quote, text.push(s[1]), segments);
        } else {
            lemma_quoted_leaves(s.skip(2), quote, text.push('\\').push(s[1]), segments);
        }
    } else {
        let c = s[1];
        let after = s.skip(2);
        if simple_escape(c) is Some {
            lemma_quoted_leaves(after, quote, text.push(simple_escape(c)->0), segments);
        } else if c == '\n' {
            lemma_quoted_leaves(after, quote, text, segments);
        } else if c == '\r' {
            if after.len() > 0 && after[0] == '\n' {
                lemma_quoted_leaves(after.skip(1), quote, text, segments);
            }
        } else if c == 'x' {
            lemma_hex_leaves(after, 2, 0);
            let (read, rest) = scan_hex(after, 2, 0);
            if read is Ok {
                lemma_quoted_leaves(rest, quote, text.push(read->Ok_0 as char), segments);
            }
        } else if c == 'u' {
            lemma_hex_leaves(after, 4, 0);
            let (read, rest) = scan_hex(after, 4, 0);
            if read is Ok {
                lemma_quoted_leaves(rest, quote, text.push(read->Ok_0 as char), segments);
            }
        } else if c == '(' {
            lemma_interpolation_leaves(after, 1, Seq::empty());
            let (read, rest) = scan_interpolation(after, 1, Seq::empty());
            if read is Ok {
                lemma_quoted_leaves(rest, quote, Seq::empty(), segments.push((text, read->Ok_0)));
            }
        }
    }
}

/// An embedded expression is scanned to its tokens or to an error, and what
/// is left is a part of what was given.
pub proof fn lemma_interpolation_leaves(s: Seq<char>, depth: nat, tokens: Seq<Lexeme>)
    ensures
        scan_interpolation(s, depth, tokens).1.len() <= s.len(),
    decreases s.len(), 4nat,
{
    lemma_token_leaves(s);
    match scan_token(s) {
        Scan::Token { token, rest } => {
            if token == Lexeme::LeftParen(crate::parse::token::ParenKind::Round) {
                lemma_interpolation_leaves(rest, depth + 1, tokens.push(token));
            } else if token == Lexeme::RightParen(crate::parse::token::ParenKind::Round) {
                if depth > 1 {
                    lemma_interpolation_leaves(rest, (depth - 1) as nat, tokens.push(token));
                }
            } else {
                lemma_interpolation_leaves(rest, depth, tokens.push(token));
            }
        },
        _ => {},
    }
}

/// Scanning a token leaves less than was given, and an error leaves no more
/// than was given.
///
/// With this the tests on lengths in `scan_quoted`, `scan_interpolation`
/// and `scan_token` always succeed.
pub proof fn lemma_token_leaves(s: Seq<char>)
    ensures
        leaves(scan_token(s), s.len()),
    decreases s.len(), 3nat,
{
    let t = skip_trivia(s);
    lemma_skip_trivia_suffix(s);
    if t.len() > 0 {
        lemma_keyword_length(t, 0);
        lemma_simple_scans_leave(t);
        if scan_keyword(t) is None && scan_numeral(t) is None && !fraktur_letter(t[0]) && (t[0]
            == '\'' || t[0] == '"') {
            lemma_quoted_leaves(t.skip(1), t[0], Seq::empty(), Seq::empty());
        }
    }
}

} // verus!
