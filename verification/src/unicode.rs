//! Character classes and the few string primitives the rest of the crate
//! builds on.
//!
//! The Unicode tables that decide whether a character is a letter, a number
//! or white space live in the standard library. Their answers are named here
//! (`unicode_alphabetic` and friends) and the contracts of the rest of the
//! crate speak of those names.

use vstd::prelude::*;
use vstd::std_specs::iter::IteratorSpec;

verus! {

/// Whether `c` has the Unicode property `Alphabetic`.
pub uninterp spec fn unicode_alphabetic(c: char) -> bool;

/// Whether `c` belongs to one of the Unicode number categories.
pub uninterp spec fn unicode_numeric(c: char) -> bool;

/// Whether `c`, a character beyond ASCII, has the Unicode property
/// `White_Space`.
pub uninterp spec fn unicode_whitespace(c: char) -> bool;

/// A letter or a number.
pub open spec fn alphanumeric(c: char) -> bool {
    unicode_alphabetic(c) || unicode_numeric(c)
}

/// White space: within ASCII the space and the controls from tab to carriage
/// return, beyond ASCII whatever Unicode calls white space.
pub open spec fn white_space(c: char) -> bool {
    if c <= '\x7f' {
        c == ' ' || ('\t' <= c && c <= '\r')
    } else {
        unicode_whitespace(c)
    }
}

/// A character that may continue an identifier.
pub open spec fn word_char(c: char) -> bool {
    alphanumeric(c) || c == '_'
}

/// A character that may start an identifier.
pub open spec fn word_start(c: char) -> bool {
    unicode_alphabetic(c) || c == '_'
}

/// `char::is_alphabetic` reports the Unicode property `Alphabetic`; its
/// answer is taken on trust and called `unicode_alphabetic`.
pub assume_specification[ char::is_alphabetic ](c: char) -> (b: bool)
    ensures
        b == unicode_alphabetic(c),
;

/// `char::is_alphanumeric` is documented to hold exactly when
/// `char::is_alphabetic` or `char::is_numeric` does.
pub assume_specification[ char::is_alphanumeric ](c: char) -> (b: bool)
    ensures
        b == (unicode_alphabetic(c) || unicode_numeric(c)),
;

/// `char::is_whitespace` reports the Unicode property `White_Space`. Within
/// ASCII that is the space and the five controls from tab to carriage return;
/// beyond ASCII the answer is taken on trust and called `unicode_whitespace`.
pub assume_specification[ char::is_whitespace ](c: char) -> (b: bool)
    ensures
        b == (if c <= '\x7f' {
            c == ' ' || ('\t' <= c && c <= '\r')
        } else {
            unicode_whitespace(c)
        }),
;

/// Whether `n` is the number of a Unicode scalar value: a code point that is
/// no surrogate.
pub open spec fn is_scalar_value(n: u32) -> bool {
    n <= 0xD7FF || (0xE000 <= n && n <= 0x10FFFF)
}

/// `char::from_u32` yields the character numbered `n` when `n` is a Unicode
/// scalar value and `None` otherwise.
pub assume_specification[ char::from_u32 ](n: u32) -> (r: Option<char>)
    ensures
        r == (if is_scalar_value(n) { Some(n as char) } else { None::<char> }),
;

/// `String::push` appends one character.
pub assume_specification[ String::push ](s: &mut String, c: char)
    ensures
        final(s)@ == old(s)@.push(c),
;

/// `s` without the white space at its start.
pub open spec fn without_leading_space(s: Seq<char>) -> Seq<char>
    decreases s.len(),
{
    if s.len() > 0 && white_space(s[0]) {
        without_leading_space(s.drop_first())
    } else {
        s
    }
}

/// `s` without the white space at its end.
pub open spec fn without_trailing_space(s: Seq<char>) -> Seq<char>
    decreases s.len(),
{
    if s.len() > 0 && white_space(s.last()) {
        without_trailing_space(s.drop_last())
    } else {
        s
    }
}

/// `s` without the white space at either end.
pub open spec fn trimmed(s: Seq<char>) -> Seq<char> {
    without_trailing_space(without_leading_space(s))
}

/// `str::trim` removes leading and trailing white space, where white space is
/// what `char::is_whitespace` accepts.
pub assume_specification[ str::trim ](s: &str) -> (r: &str)
    ensures
        r@ == trimmed(s@),
;

/// The value of `c` read as a hexadecimal digit, in either case.
pub open spec fn hex_value(c: char) -> Option<u32> {
    if '0' <= c && c <= '9' {
        Some((c as u32 - '0' as u32) as u32)
    } else if 'a' <= c && c <= 'f' {
        Some((c as u32 - 'a' as u32 + 10) as u32)
    } else if 'A' <= c && c <= 'F' {
        Some((c as u32 - 'A' as u32 + 10) as u32)
    } else {
        None
    }
}

/// Reads `c` as a hexadecimal digit.
pub fn hex_digit(c: char) -> (r: Option<u32>)
    ensures
        r == hex_value(c),
        r matches Some(d) ==> d < 16,
{
    if c >= '0' && c <= '9' {
        Some(c as u32 - '0' as u32)
    } else if c >= 'a' && c <= 'f' {
        Some(c as u32 - 'a' as u32 + 10)
    } else if c >= 'A' && c <= 'F' {
        Some(c as u32 - 'A' as u32 + 10)
    } else {
        None
    }
}

/// Whether `c` may continue an identifier.
pub fn is_word_char(c: char) -> (b: bool)
    ensures
        b == word_char(c),
{
    c.is_alphanumeric() || c == '_'
}

/// Whether `c` may start an identifier.
pub fn is_word_start(c: char) -> (b: bool)
    ensures
        b == word_start(c),
{
    c.is_alphabetic() || c == '_'
}

/// Whether `c` is one of the ten ASCII digits.
pub open spec fn is_arabic_digit(c: char) -> bool {
    '0' <= c && c <= '9'
}

/// The characters of `s`, in order.
pub fn chars_of(s: &str) -> (v: Vec<char>)
    ensures
        v@ == s@,
{
    broadcast use vstd::string::group_string_axioms;

    let mut it = s.chars();
    let mut v: Vec<char> = Vec::new();
    loop
        invariant
            it.obeys_prophetic_iter_laws(),
            it.decrease() is Some,
            v@ + it.remaining() == s@,
        decreases it.decrease()->0,
    {
        match it.next() {
            Some(c) => {
                v.push(c);
                assert(v@ + it.remaining() =~= s@);
            },
            None => {
                assert(v@ =~= s@);
                return v;
            },
        }
    }
}

/// Whether two strings hold the same characters.
pub fn str_equal(left: &str, right: &str) -> (equal: bool)
    ensures
        equal == (left@ == right@),
{
    let l = chars_of(left);
    let r = chars_of(right);
    if l.len() != r.len() {
        return false;
    }
    let mut i: usize = 0;
    while i < l.len()
        invariant
            i <= l.len(),
            l.len() == r.len(),
            l@ == left@,
            r@ == right@,
            forall|k: int| 0 <= k < i ==> l@[k] == r@[k],
        decreases l.len() - i,
    {
        if l[i] != r[i] {
            return false;
        }
        i += 1;
    }
    assert(l@ =~= r@);
    true
}

} // verus!
