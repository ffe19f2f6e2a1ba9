//! Numerals: the integers of the language, written with Arabic digits or
//! with Roman glyphs.

use vstd::prelude::*;
use crate::error::NumeralParseError;
use crate::parse::grammar::{lemma_run_length_unique, run_length};
use crate::unicode::{chars_of, is_arabic_digit};

verus! {

/// An integer value.
#[derive(Debug, Clone, Copy, PartialEq, Eq, Structural, PartialOrd, Ord, Hash)]
pub struct Numeral(pub i64);

impl View for Numeral {
    type V = int;

    open spec fn view(&self) -> int {
        self.0 as int
    }
}

/// The number that the digit `c` stands for.
pub open spec fn digit_value(c: char) -> nat {
    (c as nat - '0' as nat) as nat
}

/// The digit that stands for `d`, a number below ten.
pub open spec fn digit_char(d: nat) -> char {
    (d + '0' as nat) as char
}

/// A character of an Arabic numeral: a digit, or an underscore that groups
/// digits.
pub open spec fn is_arabic_char(c: char) -> bool {
    is_arabic_digit(c) || c == '_'
}

/// The number written by the digits among `s`, most significant first.
/// Characters that are no digits are passed over.
pub open spec fn arabic_value(s: Seq<char>) -> nat
    decreases s.len(),
{
    if s.len() == 0 {
        0
    } else if is_arabic_digit(s.last()) {
        10 * arabic_value(s.drop_last()) + digit_value(s.last())
    } else {
        arabic_value(s.drop_last())
    }
}

/// Whether some character of `s` is a digit.
pub open spec fn has_digit(s: Seq<char>) -> bool {
    exists|i: int| 0 <= i < s.len() && is_arabic_digit(#[trigger] s[i])
}

/// What a Roman glyph is worth, if `c` is one. The seven glyphs are accepted
/// as ASCII letters of either case and as the Unicode Roman numeral signs of
/// either case.
pub open spec fn roman_glyph(c: char) -> Option<nat> {
    if c == 'I' || c == 'i' || c == '\u{2160}' || c == '\u{2170}' {
        Some(1)
    } else if c == 'V' || c == 'v' || c == '\u{2164}' || c == '\u{2174}' {
        Some(5)
    } else if c == 'X' || c == 'x' || c == '\u{2169}' || c == '\u{2179}' {
        Some(10)
    } else if c == 'L' || c == 'l' || c == '\u{216C}' || c == '\u{217C}' {
        Some(50)
    } else if c == 'C' || c == 'c' || c == '\u{216D}' || c == '\u{217D}' {
        Some(100)
    } else if c == 'D' || c == 'd' || c == '\u{216E}' || c == '\u{217E}' {
        Some(500)
    } else if c == 'M' || c == 'm' || c == '\u{216F}' || c == '\u{217F}' {
        Some(1000)
    } else {
        None
    }
}

/// A character of a Roman numeral: a glyph, or an underscore that groups
/// glyphs.
pub open spec fn is_roman_char(c: char) -> bool {
    roman_glyph(c) is Some || c == '_'
}

/// What the glyphs among `s` are worth, in order. Characters that are no
/// glyphs are passed over.
pub open spec fn roman_values(s: Seq<char>) -> Seq<nat>
    decreases s.len(),
{
    if s.len() == 0 {
        Seq::empty()
    } else {
        match roman_glyph(s.last()) {
            Some(worth) => roman_values(s.drop_last()).push(worth),
            None => roman_values(s.drop_last()),
        }
    }
}

/// The number that a row of glyph values denotes: a glyph that stands before
/// a glyph of greater worth is subtracted, every other glyph is added.
pub open spec fn roman_sum(values: Seq<nat>) -> int
    decreases values.len(),
{
    if values.len() == 0 {
        0
    } else if values.len() == 1 {
        values[0] as int
    } else if values[0] < values[1] {
        roman_sum(values.drop_first()) - values[0]
    } else {
        roman_sum(values.drop_first()) + values[0]
    }
}

/// The number that the Roman numeral `s` denotes.
pub open spec fn roman_value(s: Seq<char>) -> int {
    roman_sum(roman_values(s))
}

/// The first character of `s` that `accepts` refuses.
pub open spec fn first_refused(s: Seq<char>, accepts: spec_fn(char) -> bool) -> Option<char> {
    let n = run_length(s, accepts);
    if n < s.len() {
        Some(s[n as int])
    } else {
        None
    }
}

/// What reading `s` as an Arabic numeral gives.
///
/// A character that is neither digit nor underscore is an error, and the
/// first such character is reported. Otherwise a text without a digit is an
/// error, and so is a number beyond the largest numeral.
pub open spec fn arabic_numeral(s: Seq<char>) -> Result<int, NumeralParseError> {
    match first_refused(s, |c: char| is_arabic_char(c)) {
        Some(c) => Err(NumeralParseError::BadTrailingChar(c)),
        None => if !has_digit(s) {
            Err(NumeralParseError::Empty)
        } else if arabic_value(s) > i64::MAX {
            Err(NumeralParseError::Overflow)
        } else {
            Ok(arabic_value(s) as int)
        },
    }
}

/// What reading `s` as a Roman numeral gives.
///
/// A character that is neither glyph nor underscore is an error, and the
/// first such character is reported. Otherwise a text without a glyph is an
/// error, and so is a number beyond the largest numeral.
pub open spec fn roman_numeral(s: Seq<char>) -> Result<int, NumeralParseError> {
    match first_refused(s, |c: char| is_roman_char(c)) {
        Some(c) => Err(NumeralParseError::BadTrailingChar(c)),
        None => if roman_values(s).len() == 0 {
            Err(NumeralParseError::Empty)
        } else if roman_value(s) > i64::MAX {
            Err(NumeralParseError::Overflow)
        } else {
            Ok(roman_value(s))
        },
    }
}

/// The digits that write `n` in base ten, without leading zeros.
pub open spec fn decimal_digits(n: nat) -> Seq<char>
    decreases n,
{
    if n < 10 {
        seq![digit_char(n)]
    } else {
        decimal_digits(n / 10).push(digit_char(n % 10))
    }
}

/// How `n` is written in base ten: a minus sign if it is negative, then the
/// digits of its magnitude.
pub open spec fn decimal(n: int) -> Seq<char> {
    if n < 0 {
        seq!['-'] + decimal_digits((-n) as nat)
    } else {
        decimal_digits(n as nat)
    }
}

/// Appending a glyph adds its worth, and turns the glyph before it into a
/// subtraction if that one is worth less.
pub proof fn lemma_roman_sum_push(values: Seq<nat>, worth: nat)
    ensures
        roman_sum(values.push(worth)) == roman_sum(values) + worth - (if values.len() > 0
            && values.last() < worth {
            2 * values.last()
        } else {
            0
        }),
    decreases values.len(),
{
    let longer = values.push(worth);
    if values.len() == 0 {
        assert(longer.len() == 1 && longer[0] == worth);
    } else {
        let shorter = values.drop_first();
        assert(longer.drop_first() =~= shorter.push(worth));
        assert(longer[0] == values[0]);
        lemma_roman_sum_push(shorter, worth);
        if values.len() == 1 {
            assert(longer[1] == worth);
            assert(roman_sum(shorter) == 0);
            assert(roman_sum(values) == values[0]);
        } else {
            assert(longer[1] == values[1]);
            assert(shorter.last() == values.last());
        }
    }
}

/// Whether `worth` is what one of the seven glyphs is worth.
pub open spec fn is_glyph_worth(worth: nat) -> bool {
    worth == 1 || worth == 5 || worth == 10 || worth == 50 || worth == 100 || worth == 500
        || worth == 1000
}

/// A row of glyphs denotes at least what its first glyph is worth.
pub proof fn lemma_roman_sum_positive(values: Seq<nat>)
    requires
        values.len() > 0,
        forall|i: int| 0 <= i < values.len() ==> is_glyph_worth(#[trigger] values[i]),
    ensures
        roman_sum(values) >= values[0] >= 1,
    decreases values.len(),
{
    assert(is_glyph_worth(values[0]));
    if values.len() > 1 {
        let shorter = values.drop_first();
        assert forall|i: int| 0 <= i < shorter.len() implies is_glyph_worth(
            #[trigger] shorter[i],
        ) by {
            assert(shorter[i] == values[i + 1]);
        }
        lemma_roman_sum_positive(shorter);
        assert(shorter[0] == values[1]);
        assert(is_glyph_worth(values[1]));
        assert(roman_sum(values) == if values[0] < values[1] {
            roman_sum(shorter) - values[0]
        } else {
            roman_sum(shorter) + values[0]
        });
    }
}

/// Every entry of `roman_values` is what some glyph is worth.
pub proof fn lemma_roman_values_worth(s: Seq<char>)
    ensures
        forall|i: int| 0 <= i < roman_values(s).len() ==> is_glyph_worth(
            #[trigger] roman_values(s)[i],
        ),
    decreases s.len(),
{
    if s.len() > 0 {
        let shorter = roman_values(s.drop_last());
        lemma_roman_values_worth(s.drop_last());
        assert forall|i: int| 0 <= i < roman_values(s).len() implies is_glyph_worth(
            #[trigger] roman_values(s)[i],
        ) by {
            if i < shorter.len() {
                assert(roman_values(s)[i] == shorter[i]);
            }
        }
    }
}

/// A Roman numeral with at least one glyph denotes a positive number.
pub proof fn lemma_roman_value_positive(s: Seq<char>)
    requires
        roman_values(s).len() > 0,
    ensures
        roman_value(s) >= 1,
{
    lemma_roman_values_worth(s);
    lemma_roman_sum_positive(roman_values(s));
}

/// Reading one more character of an Arabic numeral.
proof fn lemma_arabic_step(s: Seq<char>, i: int)
    requires
        0 <= i < s.len(),
    ensures
        is_arabic_digit(s[i]) ==> arabic_value(s.take(i + 1)) == 10 * arabic_value(s.take(i))
            + digit_value(s[i]),
        !is_arabic_digit(s[i]) ==> arabic_value(s.take(i + 1)) == arabic_value(s.take(i)),
        has_digit(s.take(i + 1)) == (has_digit(s.take(i)) || is_arabic_digit(s[i])),
{
    let longer = s.take(i + 1);
    let shorter = s.take(i);
    assert(longer.drop_last() =~= shorter);
    assert(longer.last() == s[i]);
    if has_digit(longer) {
        let j = choose|j: int| 0 <= j < longer.len() && is_arabic_digit(#[trigger] longer[j]);
        if j < i {
            assert(is_arabic_digit(shorter[j]));
        }
    }
    if has_digit(shorter) {
        let j = choose|j: int| 0 <= j < shorter.len() && is_arabic_digit(#[trigger] shorter[j]);
        assert(is_arabic_digit(longer[j]));
    }
    if is_arabic_digit(s[i]) {
        assert(is_arabic_digit(longer[i]));
    }
}

/// Reading one more character of a Roman numeral.
proof fn lemma_roman_step(s: Seq<char>, i: int)
    requires
        0 <= i < s.len(),
    ensures
        roman_values(s.take(i + 1)) == (match roman_glyph(s[i]) {
            Some(worth) => roman_values(s.take(i)).push(worth),
            None => roman_values(s.take(i)),
        }),
{
    assert(s.take(i + 1).drop_last() =~= s.take(i));
    assert(s.take(i + 1).last() == s[i]);
}

/// What the Roman glyph `c` is worth, if it is one.
pub fn glyph_worth(c: char) -> (worth: Option<u16>)
    ensures
        worth is Some == roman_glyph(c) is Some,
        worth matches Some(w) ==> roman_glyph(c) == Some(w as nat) && 1 <= w <= 1000,
{
    match c {
        'I' | 'i' | '\u{2160}' | '\u{2170}' => Some(1),
        'V' | 'v' | '\u{2164}' | '\u{2174}' => Some(5),
        'X' | 'x' | '\u{2169}' | '\u{2179}' => Some(10),
        'L' | 'l' | '\u{216C}' | '\u{217C}' => Some(50),
        'C' | 'c' | '\u{216D}' | '\u{217D}' => Some(100),
        'D' | 'd' | '\u{216E}' | '\u{217E}' => Some(500),
        'M' | 'm' | '\u{216F}' | '\u{217F}' => Some(1000),
        _ => None,
    }
}

/// Whether `c` may stand in an Arabic numeral.
pub fn arabic_char(c: char) -> (b: bool)
    ensures
        b == is_arabic_char(c),
{
    (c >= '0' && c <= '9') || c == '_'
}

/// Whether `c` may stand in a Roman numeral.
pub fn roman_char(c: char) -> (b: bool)
    ensures
        b == is_roman_char(c),
{
    glyph_worth(c).is_some() || c == '_'
}

impl Numeral {
    /// The numeral for `value`.
    pub fn new(value: i64) -> (n: Numeral)
        ensures
            n@ == value,
    {
        Numeral(value)
    }

    /// The integer that this numeral holds.
    pub fn value(&self) -> (value: i64)
        ensures
            value == self@,
    {
        self.0
    }

    /// Whether `chr` is a Roman glyph.
    pub fn is_roman_numeral(chr: char) -> (b: bool)
        ensures
            b == (roman_glyph(chr) is Some),
    {
        glyph_worth(chr).is_some()
    }

    /// Reads `text` as an Arabic numeral: digits, most significant first,
    /// with underscores anywhere among them.
    pub fn parse_arabic(text: &str) -> (r: Result<Numeral, NumeralParseError>)
        ensures
            match arabic_numeral(text@) {
                Ok(value) => r matches Ok(n) && n@ == value,
                Err(e) => r == Err::<Numeral, NumeralParseError>(e),
            },
    {
        let chars = chars_of(text);
        let ghost s = chars@;
        let mut i: usize = 0;
        while i < chars.len()
            invariant
                s == chars@,
                s == text@,
                i <= chars.len(),
                forall|j: int| 0 <= j < i ==> is_arabic_char(#[trigger] s[j]),
            decreases chars.len() - i,
        {
            if !arabic_char(chars[i]) {
                proof {
                    lemma_run_length_unique(s, |c: char| is_arabic_char(c), i as nat);
                }
                return Err(NumeralParseError::BadTrailingChar(chars[i]));
            }
            i += 1;
        }
        proof {
            lemma_run_length_unique(s, |c: char| is_arabic_char(c), s.len());
        }
        let mut value: i64 = 0;
        let mut seen_digit = false;
        let mut too_large = false;
        let mut k: usize = 0;
        while k < chars.len()
            invariant
                s == chars@,
                k <= chars.len(),
                forall|j: int| 0 <= j < s.len() ==> is_arabic_char(#[trigger] s[j]),
                seen_digit == has_digit(s.take(k as int)),
                0 <= value,
                !too_large ==> value == arabic_value(s.take(k as int)),
                too_large ==> arabic_value(s.take(k as int)) > i64::MAX,
            decreases chars.len() - k,
        {
            let c = chars[k];
            proof {
                lemma_arabic_step(s, k as int);
            }
            if c != '_' {
                assert(is_arabic_char(s[k as int]));
                seen_digit = true;
                if !too_large {
                    let wide: i128 = value as i128 * 10 + (c as u32 - '0' as u32) as i128;
                    if wide > i64::MAX as i128 {
                        too_large = true;
                    } else {
                        value = wide as i64;
                    }
                }
            }
            k += 1;
        }
        assert(s.take(s.len() as int) =~= s);
        if !seen_digit {
            Err(NumeralParseError::Empty)
        } else if too_large {
            Err(NumeralParseError::Overflow)
        } else {
            Ok(Numeral(value))
        }
    }

    /// Reads `text` as a Roman numeral: glyphs, with underscores anywhere
    /// among them. A glyph that stands before one of greater worth is
    /// subtracted, every other glyph is added.
    pub fn parse_roman(text: &str) -> (r: Result<Numeral, NumeralParseError>)
        ensures
            match roman_numeral(text@) {
                Ok(value) => r matches Ok(n) && n@ == value,
                Err(e) => r == Err::<Numeral, NumeralParseError>(e),
            },
    {
        let chars = chars_of(text);
        let ghost s = chars@;
        let mut i: usize = 0;
        while i < chars.len()
            invariant
                s == chars@,
                s == text@,
                i <= chars.len(),
                forall|j: int| 0 <= j < i ==> is_roman_char(#[trigger] s[j]),
            decreases chars.len() - i,
        {
            if !roman_char(chars[i]) {
                proof {
                    lemma_run_length_unique(s, |c: char| is_roman_char(c), i as nat);
                }
                return Err(NumeralParseError::BadTrailingChar(chars[i]));
            }
            i += 1;
        }
        proof {
            lemma_run_length_unique(s, |c: char| is_roman_char(c), s.len());
        }
        let mut total: i128 = 0;
        let mut before: u16 = 0;
        let mut seen_glyph = false;
        let mut k: usize = 0;
        while k < chars.len()
            invariant
                s == chars@,
                k <= chars.len(),
                seen_glyph == (roman_values(s.take(k as int)).len() > 0),
                seen_glyph ==> before == roman_values(s.take(k as int)).last(),
                before <= 1000,
                total == roman_sum(roman_values(s.take(k as int))),
                -1000 * k <= total <= 1000 * k,
            decreases chars.len() - k,
        {
            proof {
                lemma_roman_step(s, k as int);
            }
            match glyph_worth(chars[k]) {
                Some(worth) => {
                    proof {
                        lemma_roman_sum_push(roman_values(s.take(k as int)), worth as nat);
                    }
                    total = total + worth as i128;
                    if seen_glyph && before < worth {
                        total = total - 2 * (before as i128);
                    }
                    before = worth;
                    seen_glyph = true;
                },
                None => {},
            }
            k += 1;
        }
        assert(s.take(s.len() as int) =~= s);
        if !seen_glyph {
            Err(NumeralParseError::Empty)
        } else if total > i64::MAX as i128 {
            Err(NumeralParseError::Overflow)
        } else {
            proof {
                lemma_roman_value_positive(s);
            }
            Ok(Numeral(total as i64))
        }
    }
}

/// The digit that writes `d`, a number below ten.
pub fn digit_of(d: u8) -> (c: char)
    requires
        d < 10,
    ensures
        c == digit_char(d as nat),
        is_arabic_digit(c),
        digit_value(c) == d,
{
    (d + 48) as char
}

/// Writes `n` in base ten at the end of `to`.
pub fn push_decimal(to: &mut String, n: u64)
    ensures
        final(to)@ == old(to)@ + decimal_digits(n as nat),
{
    let mut digits: Vec<char> = Vec::new();
    let mut left: u64 = n;
    while left >= 10
        invariant
            decimal_digits(n as nat) == decimal_digits(left as nat) + digits@.reverse(),
        decreases left,
    {
        let ghost before = digits@;
        digits.push(digit_of((left % 10) as u8));
        assert(digits@.reverse() =~= seq![digit_char((left % 10) as nat)] + before.reverse());
        assert(decimal_digits(left as nat) == decimal_digits((left / 10) as nat).push(
            digit_char((left % 10) as nat),
        ));
        assert(decimal_digits((left / 10) as nat).push(digit_char((left % 10) as nat))
            + before.reverse() =~= decimal_digits((left / 10) as nat) + (seq![
            digit_char((left % 10) as nat),
        ] + before.reverse()));
        left = left / 10;
    }
    let ghost before = digits@;
    digits.push(digit_of(left as u8));
    assert(digits@.reverse() =~= decimal_digits(left as nat) + before.reverse());
    let ghost start = to@;
    let mut i: usize = digits.len();
    assert(start + digits@.reverse().take(0) =~= start);
    while i > 0
        invariant
            i <= digits.len(),
            to@ == start + digits@.reverse().take(digits.len() - i),
        decreases i,
    {
        i -= 1;
        to.push(digits[i]);
        assert(to@ =~= start + digits@.reverse().take(digits.len() - i));
    }
    assert(digits@.reverse().take(digits.len() as int) =~= digits@.reverse());
}

impl Numeral {
    /// Writes the numeral out at the end of `to`: in base ten, with a minus
    /// sign before it if it is negative.
    pub fn dump(&self, to: &mut String)
        ensures
            final(to)@ == old(to)@ + decimal(self@),
    {
        if self.0 < 0 {
            to.push('-');
            let magnitude: u64 = (-(self.0 as i128)) as u64;
            push_decimal(to, magnitude);
            assert(to@ =~= old(to)@ + decimal(self@));
        } else {
            push_decimal(to, self.0 as u64);
        }
    }
}

} // verus!
