//! A read position over a sequence of characters, shared by both parsers.

use vstd::prelude::*;
use crate::chars::{alphanumeric_class, whitespace_class, is_alphanumeric, is_whitespace, string_of};
use crate::ParseError;

verus! {

/// The runs of characters the parsers consume.
#[derive(Clone, Copy)]
pub enum CharClass {
    Whitespace,
    Alphanumeric,
    /// Letters, digits, `-` and `_`.
    Identifier,
    /// Decimal digits and `.`.
    Numeric,
    /// Every character but the one given.
    Except(char),
}

pub open spec fn identifier_char(c: char) -> bool {
    ('a' <= c && c <= 'z') || ('A' <= c && c <= 'Z') || ('0' <= c && c <= '9') || c == '-' || c
        == '_'
}

pub open spec fn in_class(class: CharClass, c: char) -> bool {
    match class {
        CharClass::Whitespace => whitespace_class(c),
        CharClass::Alphanumeric => alphanumeric_class(c),
        CharClass::Identifier => identifier_char(c),
        CharClass::Numeric => ('0' <= c && c <= '9') || c == '.',
        CharClass::Except(x) => c != x,
    }
}

/// The end of the longest run of `class` characters in `s` from `i` on.
pub open spec fn scan(s: Seq<char>, i: int, class: CharClass) -> int
    decreases s.len() - i,
{
    if i < 0 || i >= s.len() || !in_class(class, s[i]) {
        i
    } else {
        scan(s, i + 1, class)
    }
}

/// A run ends between where it starts and the end of input, holds only
/// characters of its class, and stops before one outside it.
pub proof fn lemma_scan(s: Seq<char>, i: int, class: CharClass)
    requires
        0 <= i <= s.len(),
    ensures
        i <= scan(s, i, class) <= s.len(),
        forall|k: int| i <= k < scan(s, i, class) ==> in_class(class, #[trigger] s[k]),
        scan(s, i, class) < s.len() ==> !in_class(class, s[scan(s, i, class)]),
    decreases s.len() - i,
{
    if i < s.len() && in_class(class, s[i]) {
        lemma_scan(s, i + 1, class);
    }
}

/// Whether `s` holds `c` at `i`.
pub open spec fn char_at(s: Seq<char>, i: int, c: char) -> bool {
    0 <= i < s.len() && s[i] == c
}

/// The position after a required character `c` at `i`.
pub open spec fn expect(s: Seq<char>, i: int, c: char) -> Result<int, ParseError> {
    if i < 0 || i >= s.len() {
        Err(ParseError::UnexpectedEnd)
    } else if s[i] != c {
        Err(ParseError::UnexpectedChar)
    } else {
        Ok(i + 1)
    }
}

/// Characters and the position of the next one to read.
pub struct Cursor {
    pub input: Vec<char>,
    pub pos: usize,
}

impl Cursor {
    pub open spec fn wf(&self) -> bool {
        self.pos <= self.input.len()
    }

    /// A cursor at the start of `input`.
    pub fn new(input: Vec<char>) -> (r: Cursor)
        ensures
            r.wf(),
            r.input@ == input@,
            r.pos == 0,
    {
        Cursor { input, pos: 0 }
    }

    /// Whether all input is consumed.
    pub fn eof(&self) -> (r: bool)
        requires
            self.wf(),
        ensures
            r == (self.pos >= self.input.len()),
    {
        self.pos >= self.input.len()
    }

    /// The current character, not consumed.
    pub fn next_char(&self) -> (r: Result<char, ParseError>)
        requires
            self.wf(),
        ensures
            self.pos < self.input.len() ==> r == Ok::<char, ParseError>(self.input@[self.pos as int]),
            self.pos >= self.input.len() ==> r == Err::<char, ParseError>(ParseError::UnexpectedEnd),
    {
        if self.pos < self.input.len() {
            Ok(self.input[self.pos])
        } else {
            Err(ParseError::UnexpectedEnd)
        }
    }

    /// Whether the current character is `c`.
    pub fn at(&self, c: char) -> (r: bool)
        requires
            self.wf(),
        ensures
            r == char_at(self.input@, self.pos as int, c),
    {
        self.pos < self.input.len() && self.input[self.pos] == c
    }

    /// Consumes the current character, which must be `c`.
    pub fn expect(&mut self, c: char) -> (r: Result<(), ParseError>)
        requires
            old(self).wf(),
        ensures
            final(self).wf(),
            final(self).input@ == old(self).input@,
            match expect(old(self).input@, old(self).pos as int, c) {
                Ok(j) => r is Ok && final(self).pos == j,
                Err(e) => r == Err::<(), ParseError>(e),
            },
    {
        if self.pos >= self.input.len() {
            return Err(ParseError::UnexpectedEnd);
        }
        if self.input[self.pos] != c {
            return Err(ParseError::UnexpectedChar);
        }
        self.pos = self.pos + 1;
        Ok(())
    }

    /// Consumes the current character, whatever it is.
    pub fn consume_char(&mut self) -> (r: Result<char, ParseError>)
        requires
            old(self).wf(),
        ensures
            final(self).wf(),
            final(self).input@ == old(self).input@,
            old(self).pos < old(self).input.len() ==> r == Ok::<char, ParseError>(
                old(self).input@[old(self).pos as int],
            ) && final(self).pos == old(self).pos + 1,
            old(self).pos >= old(self).input.len() ==> r == Err::<char, ParseError>(
                ParseError::UnexpectedEnd,
            ),
    {
        if self.pos < self.input.len() {
            let c = self.input[self.pos];
            self.pos = self.pos + 1;
            Ok(c)
        } else {
            Err(ParseError::UnexpectedEnd)
        }
    }

    fn test(c: char, class: CharClass) -> (r: bool)
        ensures
            r == in_class(class, c),
    {
        match class {
            CharClass::Whitespace => is_whitespace(c),
            CharClass::Alphanumeric => is_alphanumeric(c),
            CharClass::Identifier => ('a' <= c && c <= 'z') || ('A' <= c && c <= 'Z') || ('0'
                <= c && c <= '9') || c == '-' || c == '_',
            CharClass::Numeric => ('0' <= c && c <= '9') || c == '.',
            CharClass::Except(x) => c != x,
        }
    }

    /// Consumes the longest run of `class` characters and returns it.
    pub fn consume_while(&mut self, class: CharClass) -> (r: String)
        requires
            old(self).wf(),
        ensures
            final(self).wf(),
            final(self).input@ == old(self).input@,
            final(self).pos == scan(old(self).input@, old(self).pos as int, class),
            old(self).pos <= final(self).pos,
            r@ == old(self).input@.subrange(old(self).pos as int, final(self).pos as int),
    {
        let start = self.pos;
        let mut buf: Vec<char> = Vec::new();
        proof {
            lemma_scan(self.input@, start as int, class);
        }
        while self.pos < self.input.len() && Self::test(self.input[self.pos], class)
            invariant
                self.wf(),
                self.input@ == old(self).input@,
                start == old(self).pos,
                start <= self.pos,
                scan(self.input@, self.pos as int, class) == scan(self.input@, start as int, class),
                buf@ == self.input@.subrange(start as int, self.pos as int),
            decreases self.input.len() - self.pos,
        {
            buf.push(self.input[self.pos]);
            self.pos = self.pos + 1;
            assert(buf@ =~= self.input@.subrange(start as int, self.pos as int));
        }
        string_of(&buf)
    }

    /// Consumes and discards white space.
    pub fn consume_whitespace(&mut self)
        requires
            old(self).wf(),
        ensures
            final(self).wf(),
            final(self).input@ == old(self).input@,
            final(self).pos == scan(old(self).input@, old(self).pos as int, CharClass::Whitespace),
            old(self).pos <= final(self).pos,
    {
        let _ = self.consume_while(CharClass::Whitespace);
    }
}

} // verus!
