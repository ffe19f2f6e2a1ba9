//! A character stream with one character of look-ahead and with put-back.

use vstd::prelude::*;
use crate::error::{Error, ErrorKind};
use crate::parse::grammar::{skip_trivia, starts_with, starts_with_word};
use crate::unicode::chars_of;

verus! {

/// The source text that has not been read yet, and how far into the source
/// the reading has come.
///
/// The stream owns its characters. Reading consumes them from the front;
/// `put_back` returns characters to the front.
#[derive(Debug)]
pub struct Stream {
    /// The unread characters, the next one last.
    rest: Vec<char>,
    /// The number of characters the source had.
    origin: usize,
}

impl Stream {
    /// The unread characters, the next one first.
    pub closed spec fn remaining(&self) -> Seq<char> {
        self.rest@.reverse()
    }

    /// The number of characters of the source the stream was made from.
    pub closed spec fn origin(&self) -> nat {
        self.origin as nat
    }

    /// How many characters of the source lie before the next unread one.
    /// Putting back more than was read leaves the offset at zero.
    pub open spec fn offset(&self) -> nat {
        if self.remaining().len() <= self.origin() {
            (self.origin() - self.remaining().len()) as nat
        } else {
            0
        }
    }

    /// The unread characters are no more than a `usize` can count.
    pub proof fn lemma_remaining_fits(&self)
        ensures
            self.remaining().len() <= usize::MAX,
    {
        assert(self.rest@.len() == self.rest.len());
    }

    /// A stream over the characters of `source`.
    pub fn new(source: &str) -> (stream: Stream)
        ensures
            stream.remaining() == source@,
            stream.origin() == source@.len(),
            stream.offset() == 0,
    {
        Stream::from_chars(chars_of(source))
    }

    /// A stream over `source`, the first character first.
    pub fn from_chars(source: Vec<char>) -> (stream: Stream)
        ensures
            stream.remaining() == source@,
            stream.origin() == source@.len(),
            stream.offset() == 0,
    {
        let mut rest: Vec<char> = Vec::new();
        let mut i: usize = source.len();
        while i > 0
            invariant
                i <= source.len(),
                rest@ == source@.skip(i as int).reverse(),
            decreases i,
        {
            i -= 1;
            rest.push(source[i]);
            assert(rest@ =~= source@.skip(i as int).reverse());
        }
        assert(source@.skip(0) =~= source@);
        assert(source@.reverse().reverse() =~= source@);
        Stream { rest, origin: source.len() }
    }

    /// Whether every character has been read.
    pub fn is_empty(&self) -> (b: bool)
        ensures
            b == (self.remaining().len() == 0),
    {
        self.rest.len() == 0
    }

    /// The offset of the next unread character in the source.
    pub fn position(&self) -> (p: usize)
        ensures
            p == self.offset(),
    {
        if self.rest.len() <= self.origin {
            self.origin - self.rest.len()
        } else {
            0
        }
    }

    /// `kind` as an error at the current position.
    pub fn error(&self, kind: ErrorKind) -> (e: Error)
        ensures
            e.kind == kind,
            e.position == Some(self.offset() as usize),
    {
        Error::at(kind, self.position())
    }

    /// The next character, which stays unread.
    pub fn peek(&self) -> (c: Option<char>)
        ensures
            c == (if self.remaining().len() > 0 {
                Some(self.remaining()[0])
            } else {
                None
            }),
    {
        let n: usize = self.rest.len();
        if n == 0 {
            None
        } else {
            Some(self.rest[n - 1])
        }
    }

    /// Reads the next character.
    pub fn next(&mut self) -> (c: Option<char>)
        ensures
            old(self).remaining().len() == 0 ==> c is None
                && final(self).remaining() == old(self).remaining(),
            old(self).remaining().len() > 0 ==> c == Some(old(self).remaining()[0])
                && final(self).remaining() == old(self).remaining().drop_first(),
            final(self).origin() == old(self).origin(),
    {
        let c = self.rest.pop();
        proof {
            if c is Some {
                assert(self.rest@.reverse() =~= old(self).rest@.reverse().drop_first());
            }
        }
        c
    }

    /// Reads characters for as long as `accepts` says yes, and returns them.
    /// Returns `None`, having read nothing, when the very next character is
    /// not accepted or there is none.
    ///
    /// The result is the longest run of accepted characters at the front of
    /// the stream: every character in it was accepted, and the character that
    /// follows it, if any, was refused.
    pub fn take_while(&mut self, accepts: impl Fn(char) -> bool) -> (taken: Option<String>)
        requires
            forall|c: char| call_requires(accepts, (c,)),
        ensures
            final(self).origin() == old(self).origin(),
            final(self).remaining().len() <= old(self).remaining().len(),
            ({
                let input = old(self).remaining();
                let n = input.len() - final(self).remaining().len();
                &&& final(self).remaining() == input.skip(n)
                &&& forall|i: int| 0 <= i < n ==> call_ensures(accepts, (#[trigger] input[i],), true)
                &&& n < input.len() ==> call_ensures(accepts, (input[n],), false)
                &&& n == 0 ==> taken is None
                &&& n > 0 ==> (taken matches Some(text) && text@ == input.take(n))
            }),
    {
        let ghost input = self.remaining();
        let total: usize = self.rest.len();
        assert(input.len() == total);
        let mut text = String::new();
        let mut count: usize = 0;
        assert(input.skip(0) =~= input);
        assert(text@ =~= input.take(0));
        loop
            invariant
                forall|c: char| call_requires(accepts, (c,)),
                input == old(self).remaining(),
                input.len() <= usize::MAX,
                self.origin == old(self).origin,
                count <= input.len(),
                count + self.rest.len() == input.len(),
                self.remaining() == input.skip(count as int),
                text@ == input.take(count as int),
                forall|i: int| 0 <= i < count ==> call_ensures(accepts, (#[trigger] input[i],), true),
            ensures
                self.origin == old(self).origin,
                count <= input.len(),
                count + self.rest.len() == input.len(),
                self.remaining() == input.skip(count as int),
                text@ == input.take(count as int),
                forall|i: int| 0 <= i < count ==> call_ensures(accepts, (#[trigger] input[i],), true),
                count < input.len() ==> call_ensures(accepts, (input[count as int],), false),
            decreases self.rest.len(),
        {
            let n: usize = self.rest.len();
            if n == 0 {
                break ;
            }
            let c = self.rest[n - 1];
            assert(c == input[count as int]) by {
                assert(self.remaining()[0] == input.skip(count as int)[0]);
            }
            if !accepts(c) {
                break ;
            }
            let ghost before = self.remaining();
            self.rest.pop();
            text.push(c);
            assert(self.rest@.reverse() =~= before.drop_first());
            assert(before.drop_first() =~= input.skip(count + 1));
            assert(text@ =~= input.take(count + 1));
            count += 1;
        }
        if count == 0 {
            None
        } else {
            Some(text)
        }
    }

    /// Reads the characters of `literal` if the stream starts with them, and
    /// says whether it did. Reads nothing otherwise.
    pub fn take_prefix(&mut self, literal: &str) -> (taken: bool)
        ensures
            taken == starts_with(old(self).remaining(), literal@),
            final(self).origin() == old(self).origin(),
            final(self).remaining() == (if taken {
                old(self).remaining().skip(literal@.len() as int)
            } else {
                old(self).remaining()
            }),
    {
        let word = chars_of(literal);
        if self.starts_with_chars(&word) {
            let ghost before = self.rest@;
            let keep: usize = self.rest.len() - word.len();
            self.rest.truncate(keep);
            assert(self.rest@.reverse() =~= before.reverse().skip(word.len() as int));
            true
        } else {
            false
        }
    }

    /// Reads the characters of `spelling` if the stream starts with them and
    /// they are not followed by a character that could continue an
    /// identifier. Says whether it did, and reads nothing otherwise.
    pub fn take_identifier(&mut self, spelling: &str) -> (taken: bool)
        ensures
            taken == starts_with_word(old(self).remaining(), spelling@),
            final(self).origin() == old(self).origin(),
            final(self).remaining() == (if taken {
                old(self).remaining().skip(spelling@.len() as int)
            } else {
                old(self).remaining()
            }),
    {
        let word = chars_of(spelling);
        if !self.starts_with_chars(&word) {
            return false;
        }
        let n: usize = self.rest.len();
        if n > word.len() {
            let follower = self.rest[n - 1 - word.len()];
            assert(follower == self.remaining()[word.len() as int]);
            if follower.is_alphanumeric() || follower == '_' {
                return false;
            }
        }
        let ghost before = self.rest@;
        self.rest.truncate(n - word.len());
        assert(self.rest@.reverse() =~= before.reverse().skip(word.len() as int));
        true
    }

    /// Returns `chars` to the front of the stream, so that they are read
    /// again, in order, before what was unread so far.
    pub fn put_back(&mut self, chars: &str)
        ensures
            final(self).remaining() == chars@ + old(self).remaining(),
            final(self).origin() == old(self).origin(),
    {
        let word = chars_of(chars);
        let ghost before = self.remaining();
        let mut i: usize = word.len();
        assert(word@.skip(i as int) + before =~= before);
        while i > 0
            invariant
                i <= word.len(),
                self.origin == old(self).origin,
                self.remaining() == word@.skip(i as int) + before,
            decreases i,
        {
            i -= 1;
            let ghost unread = self.remaining();
            self.rest.push(word[i]);
            assert(self.rest@.reverse() =~= seq![word[i as int]] + unread);
            assert(seq![word[i as int]] + (word@.skip(i + 1) + before) =~= word@.skip(i as int)
                + before);
        }
        assert(word@.skip(0) =~= word@);
    }

    /// Reads past white space and comments. A comment runs from a `#` to the
    /// end of its line.
    pub fn strip_whitespace_and_comments(&mut self)
        ensures
            final(self).remaining() == skip_trivia(old(self).remaining()),
            final(self).origin() == old(self).origin(),
    {
        let mut in_comment = false;
        loop
            invariant
                self.origin == old(self).origin,
                !in_comment ==> skip_trivia(self.remaining()) == skip_trivia(old(self).remaining()),
                in_comment ==> skip_trivia(crate::parse::grammar::skip_line(self.remaining()))
                    == skip_trivia(old(self).remaining()),
            ensures
                self.origin == old(self).origin,
                self.remaining() == skip_trivia(old(self).remaining()),
            decreases self.rest.len(),
        {
            let n: usize = self.rest.len();
            let ghost unread = self.remaining();
            if n == 0 {
                break ;
            }
            let c = self.rest[n - 1];
            assert(c == unread[0]);
            if in_comment {
                self.rest.pop();
                assert(self.rest@.reverse() =~= unread.drop_first());
                if c == '\n' {
                    in_comment = false;
                }
            } else if c.is_whitespace() {
                self.rest.pop();
                assert(self.rest@.reverse() =~= unread.drop_first());
            } else if c == '#' {
                self.rest.pop();
                assert(self.rest@.reverse() =~= unread.drop_first());
                proof {
                    crate::parse::grammar::lemma_skip_line_suffix(unread.drop_first());
                }
                in_comment = true;
            } else {
                break ;
            }
        }
    }

    /// Whether the unread characters begin with `word`.
    fn starts_with_chars(&self, word: &Vec<char>) -> (b: bool)
        ensures
            b == starts_with(self.remaining(), word@),
    {
        let n: usize = self.rest.len();
        if word.len() > n {
            return false;
        }
        let mut i: usize = 0;
        while i < word.len()
            invariant
                n == self.rest.len(),
                word.len() <= n,
                i <= word.len(),
                forall|j: int| 0 <= j < i ==> self.remaining()[j] == #[trigger] word@[j],
            decreases word.len() - i,
        {
            if self.rest[n - 1 - i] != word[i] {
                assert(self.remaining().take(word.len() as int)[i as int] != word@[i as int]);
                return false;
            }
            i += 1;
        }
        assert(self.remaining().take(word.len() as int) =~= word@);
        true
    }
}

} // verus!
