//! Text values, and the mathematical fraktur alphabet in which a text
//! literal may be written.

use vstd::prelude::*;
use vstd::string::{StrSliceExecFns, StringExecFns};
use crate::unicode::chars_of;

verus! {

/// A text value: a sequence of characters.
#[derive(Debug, PartialEq, Eq, PartialOrd, Ord, Hash)]
pub struct Text(String);

impl View for Text {
    type V = Seq<char>;

    closed spec fn view(&self) -> Seq<char> {
        self.0@
    }
}

/// The fraktur form of the `index`-th capital letter. Five capitals lie
/// outside the block that holds the others.
pub open spec fn fraktur_upper(index: nat) -> char {
    if index == 2 {
        '\u{212D}'
    } else if index == 7 {
        '\u{210C}'
    } else if index == 8 {
        '\u{2111}'
    } else if index == 17 {
        '\u{211C}'
    } else if index == 25 {
        '\u{2128}'
    } else {
        (0x1D504 + index) as char
    }
}

/// The fraktur form of the `index`-th small letter.
pub open spec fn fraktur_lower(index: nat) -> char {
    (0x1D51E + index) as char
}

/// The fraktur form of the ASCII letter `chr`; `None` for any other
/// character.
pub open spec fn fraktur_of(chr: char) -> Option<char> {
    if 'A' <= chr && chr <= 'Z' {
        Some(fraktur_upper((chr as nat - 'A' as nat) as nat))
    } else if 'a' <= chr && chr <= 'z' {
        Some(fraktur_lower((chr as nat - 'a' as nat) as nat))
    } else {
        None
    }
}

/// The ASCII letter whose fraktur form is `chr`; `None` if `chr` is no
/// fraktur letter.
pub open spec fn ascii_of(chr: char) -> Option<char> {
    if chr == '\u{212D}' {
        Some('C')
    } else if chr == '\u{210C}' {
        Some('H')
    } else if chr == '\u{2111}' {
        Some('I')
    } else if chr == '\u{211C}' {
        Some('R')
    } else if chr == '\u{2128}' {
        Some('Z')
    } else if '\u{1D504}' <= chr && chr <= '\u{1D51C}' && chr != '\u{1D506}' && chr != '\u{1D50B}'
        && chr != '\u{1D50C}' && chr != '\u{1D515}' {
        Some((chr as nat - 0x1D504 + 'A' as nat) as char)
    } else if '\u{1D51E}' <= chr && chr <= '\u{1D537}' {
        Some((chr as nat - 0x1D51E + 'a' as nat) as char)
    } else {
        None
    }
}

/// Whether `chr` is a fraktur letter.
pub open spec fn fraktur_letter(chr: char) -> bool {
    ascii_of(chr) is Some
}

/// Whether `chr` is a letter of the mathematical fraktur alphabet.
pub fn is_fraktur(chr: char) -> (b: bool)
    ensures
        b == fraktur_letter(chr),
{
    from_fraktur(chr).is_some()
}

/// The fraktur form of an ASCII letter. The result is a fraktur letter, and
/// `from_fraktur` leads back from it to `chr`.
pub fn to_fraktur(chr: char) -> (r: Option<char>)
    ensures
        r == fraktur_of(chr),
        r matches Some(f) ==> ascii_of(f) == Some(chr),
{
    if chr >= 'A' && chr <= 'Z' {
        match chr {
            'C' => Some('\u{212D}'),
            'H' => Some('\u{210C}'),
            'I' => Some('\u{2111}'),
            'R' => Some('\u{211C}'),
            'Z' => Some('\u{2128}'),
            _ => char::from_u32(0x1D504 + (chr as u32 - 'A' as u32)),
        }
    } else if chr >= 'a' && chr <= 'z' {
        char::from_u32(0x1D51E + (chr as u32 - 'a' as u32))
    } else {
        None
    }
}

/// The ASCII letter that a fraktur letter stands for. The result is an ASCII
/// letter, and `to_fraktur` leads back from it to `chr`.
pub fn from_fraktur(chr: char) -> (r: Option<char>)
    ensures
        r == ascii_of(chr),
        r matches Some(a) ==> fraktur_of(a) == Some(chr),
{
    match chr {
        '\u{212D}' => Some('C'),
        '\u{210C}' => Some('H'),
        '\u{2111}' => Some('I'),
        '\u{211C}' => Some('R'),
        '\u{2128}' => Some('Z'),
        '\u{1D506}' | '\u{1D50B}' | '\u{1D50C}' | '\u{1D515}' => None,
        _ => if chr >= '\u{1D504}' && chr <= '\u{1D51C}' {
            char::from_u32(chr as u32 - 0x1D504 + 'A' as u32)
        } else if chr >= '\u{1D51E}' && chr <= '\u{1D537}' {
            char::from_u32(chr as u32 - 0x1D51E + 'a' as u32)
        } else {
            None
        },
    }
}

/// `s` written `count` times in a row.
pub open spec fn repeated(s: Seq<char>, count: nat) -> Seq<char>
    decreases count,
{
    if count == 0 {
        Seq::empty()
    } else {
        repeated(s, (count - 1) as nat) + s
    }
}

/// What `Text::char_at` finds at `index` in `s`: counted from the front when
/// `index` is not negative, from the back when it is.
pub open spec fn char_at_index(s: Seq<char>, index: int) -> Option<char> {
    if 0 <= index {
        if index < s.len() {
            Some(s[index])
        } else {
            None
        }
    } else if 0 <= index + s.len() {
        Some(s[index + s.len()])
    } else {
        None
    }
}

/// How the character `c` is written inside double quotes: a backslash, a
/// double quote, a line break, a tab, a carriage return and the null
/// character by their escapes, every other character as it is.
pub open spec fn escape_of(c: char) -> Seq<char> {
    if c == '\\' {
        seq!['\\', '\\']
    } else if c == '"' {
        seq!['\\', '"']
    } else if c == '\n' {
        seq!['\\', 'n']
    } else if c == '\t' {
        seq!['\\', 't']
    } else if c == '\r' {
        seq!['\\', 'r']
    } else if c == '\0' {
        seq!['\\', '0']
    } else {
        seq![c]
    }
}

/// The characters of `s`, each written as it is inside double quotes.
pub open spec fn escaped(s: Seq<char>) -> Seq<char>
    decreases s.len(),
{
    if s.len() == 0 {
        Seq::empty()
    } else {
        escape_of(s[0]) + escaped(s.drop_first())
    }
}

/// `s` as a double-quoted literal.
pub open spec fn quoted(s: Seq<char>) -> Seq<char> {
    seq!['"'] + escaped(s) + seq!['"']
}

/// Escaping goes character by character.
pub proof fn lemma_escaped_push(s: Seq<char>, c: char)
    ensures
        escaped(s.push(c)) == escaped(s) + escape_of(c),
    decreases s.len(),
{
    if s.len() == 0 {
        assert(s.push(c).drop_first() =~= Seq::<char>::empty());
        assert(escaped(s.push(c)) =~= escape_of(c) + escaped(Seq::<char>::empty()));
        assert(escaped(s) + escape_of(c) =~= escape_of(c));
        assert(escape_of(c) + escaped(Seq::<char>::empty()) =~= escape_of(c));
    } else {
        assert(s.push(c).drop_first() =~= s.drop_first().push(c));
        lemma_escaped_push(s.drop_first(), c);
        assert(escape_of(s[0]) + (escaped(s.drop_first()) + escape_of(c)) =~= (escape_of(s[0])
            + escaped(s.drop_first())) + escape_of(c));
    }
}

impl Text {
    /// Writes the text out at the end of `to`, as a double-quoted literal
    /// that reads back as this text.
    pub fn dump(&self, to: &mut String)
        ensures
            final(to)@ == old(to)@ + quoted(self@),
    {
        let chars = chars_of(self.0.as_str());
        let ghost start = to@;
        to.push('"');
        let mut i: usize = 0;
        assert(chars@.take(0) =~= Seq::<char>::empty());
        assert(to@ =~= start + seq!['"'] + escaped(chars@.take(0)));
        while i < chars.len()
            invariant
                i <= chars.len(),
                to@ == start + seq!['"'] + escaped(chars@.take(i as int)),
            decreases chars.len() - i,
        {
            let c = chars[i];
            let ghost before = to@;
            proof {
                lemma_escaped_push(chars@.take(i as int), c);
                assert(chars@.take(i as int).push(c) =~= chars@.take(i + 1));
            }
            match c {
                '\\' => {
                    to.push('\\');
                    to.push('\\');
                },
                '"' => {
                    to.push('\\');
                    to.push('"');
                },
                '\n' => {
                    to.push('\\');
                    to.push('n');
                },
                '\t' => {
                    to.push('\\');
                    to.push('t');
                },
                '\r' => {
                    to.push('\\');
                    to.push('r');
                },
                '\0' => {
                    to.push('\\');
                    to.push('0');
                },
                _ => {
                    to.push(c);
                },
            }
            assert(to@ =~= before + escape_of(c));
            assert(to@ =~= start + seq!['"'] + escaped(chars@.take(i + 1)));
            i += 1;
        }
        assert(chars@.take(chars.len() as int) =~= chars@);
        to.push('"');
        assert(to@ =~= start + quoted(self@));
    }

    /// The text with the characters of `text`.
    pub fn new(text: &str) -> (r: Text)
        ensures
            r@ == text@,
    {
        Text(String::from_str(text))
    }

    /// The text that holds `text`.
    pub fn from_string(text: String) -> (r: Text)
        ensures
            r@ == text@,
    {
        Text(text)
    }

    /// The text of a fraktur literal. The fraktur letters are kept as they
    /// are; they are not turned into ASCII letters.
    pub fn new_fraktur(text: String) -> (r: Text)
        ensures
            r@ == text@,
    {
        Text(text)
    }

    /// Whether the text has no characters.
    pub fn is_empty(&self) -> (b: bool)
        ensures
            b == (self@.len() == 0),
    {
        self.0.as_str().unicode_len() == 0
    }

    /// The characters of the text.
    pub fn as_str(&self) -> (s: &str)
        ensures
            s@ == self@,
    {
        self.0.as_str()
    }

    /// The character at `index`. A negative index counts from the end: -1 is
    /// the last character.
    pub fn char_at(&self, index: isize) -> (r: Option<char>)
        ensures
            r == char_at_index(self@, index as int),
    {
        let s = self.0.as_str();
        let len: usize = s.unicode_len();
        if 0 <= index {
            if (index as usize) < len {
                Some(s.get_char(index as usize))
            } else {
                None
            }
        } else {
            let from_front: i128 = index as i128 + len as i128;
            if 0 <= from_front {
                Some(s.get_char(from_front as usize))
            } else {
                None
            }
        }
    }

    /// This text followed by `rhs`.
    pub fn add(self, rhs: &str) -> (r: Text)
        ensures
            r@ == self@ + rhs@,
    {
        Text(self.0.concat(rhs))
    }

    /// This text `amount` times in a row.
    pub fn mul(self, amount: usize) -> (r: Text)
        ensures
            r@ == repeated(self@, amount as nat),
    {
        let mut out = String::new();
        let mut done: usize = 0;
        assert(out@ =~= repeated(self@, 0));
        while done < amount
            invariant
                done <= amount,
                out@ == repeated(self@, done as nat),
            decreases amount - done,
        {
            out.append(self.0.as_str());
            done += 1;
        }
        Text(out)
    }
}

impl Clone for Text {
    fn clone(&self) -> (r: Text)
        ensures
            r@ == self@,
    {
        Text(self.0.clone())
    }
}

impl Default for Text {
    fn default() -> (r: Text)
        ensures
            r@ == Seq::<char>::empty(),
    {
        Text(String::new())
    }
}

} // verus!
