//! The cursor: a position in the input with one character of lookahead, and
//! the lexical primitives that move it.

use vstd::prelude::*;
use vstd::utf8::encode_utf8;
use crate::offsets::{byte_len, byte_offset, lemma_byte_offset_step, slice, utf8_width};
use crate::text::{
    after_newline, collect_chars, find_char, find_unescaped, has_word, is_blank,
    lemma_find_char_unique, lemma_run_end_unique, line_end, skip_blanks, slice_end,
};

verus! {

/// A place in the input: the index of a character and its byte offset.
#[derive(Clone, Copy)]
struct Position {
    index: usize,
    offset: usize,
}

/// A position in a text that moves forward only.
pub struct Cursor<'a> {
    input: &'a str,
    chars: Vec<char>,
    at: Position,
}

impl<'a> Cursor<'a> {
    #[verifier::type_invariant]
    spec fn inv(self) -> bool {
        &&& self.chars@ == self.input@
        &&& self.at.index <= self.chars@.len()
        &&& self.at.offset == byte_offset(self.chars@, self.at.index as int)
        &&& encode_utf8(self.chars@).len() <= usize::MAX
    }

    /// The text that the cursor moves over.
    pub closed spec fn text(&self) -> Seq<char> {
        self.chars@
    }

    /// The index of the character that the cursor stands before.
    pub closed spec fn pos(&self) -> int {
        self.at.index as int
    }

    /// A cursor at the start of `input`.
    pub fn new(input: &'a str) -> (cursor: Cursor<'a>)
        ensures
            cursor.text() == input@,
            cursor.pos() == 0,
    {
        let chars = collect_chars(input);
        let total = byte_len(input);
        proof {
            assert(chars@.take(0) == Seq::<char>::empty());
            assert(encode_utf8(chars@).len() == total);
        }
        Cursor { input, chars, at: Position { index: 0, offset: 0 } }
    }

    /// The text that the cursor was made for.
    pub fn input(&self) -> (input: &'a str)
        ensures
            input@ == self.text(),
    {
        proof {
            use_type_invariant(self);
        }
        self.input
    }

    /// The character that the cursor stands before, if any.
    pub fn peek(&self) -> (r: Option<char>)
        ensures
            0 <= self.pos() <= self.text().len(),
            r == (if self.pos() < self.text().len() {
                Some(self.text()[self.pos()])
            } else {
                None
            }),
    {
        proof {
            use_type_invariant(self);
        }
        if self.at.index < self.chars.len() {
            Some(self.chars[self.at.index])
        } else {
            None
        }
    }

    /// The byte offsets of the character that the cursor stands before and of
    /// the one after it; the length of the input in bytes where there is none.
    pub fn window(&self) -> (r: (usize, usize))
        ensures
            r.0 == byte_offset(self.text(), self.pos()),
            r.1 == byte_offset(
                self.text(),
                if self.pos() < self.text().len() {
                    self.pos() + 1
                } else {
                    self.pos()
                },
            ),
    {
        proof {
            use_type_invariant(self);
        }
        if self.at.index < self.chars.len() {
            proof {
                lemma_byte_offset_step(self.chars@, self.at.index as int);
            }
            (self.at.offset, self.at.offset + utf8_width(self.chars[self.at.index]))
        } else {
            (self.at.offset, self.at.offset)
        }
    }

    /// Moves past the character that the cursor stands before and returns it
    /// with its byte offset.
    pub fn next(&mut self) -> (r: Option<(usize, char)>)
        ensures
            final(self).text() == old(self).text(),
            0 <= old(self).pos() <= old(self).text().len(),
            r == (if old(self).pos() < old(self).text().len() {
                Some(
                    (
                        byte_offset(old(self).text(), old(self).pos()) as usize,
                        old(self).text()[old(self).pos()],
                    ),
                )
            } else {
                None
            }),
            final(self).pos() == (if old(self).pos() < old(self).text().len() {
                old(self).pos() + 1
            } else {
                old(self).pos()
            }),
    {
        proof {
            use_type_invariant(&*self);
        }
        if self.at.index < self.chars.len() {
            let c = self.chars[self.at.index];
            let offset = self.at.offset;
            proof {
                lemma_byte_offset_step(self.chars@, self.at.index as int);
            }
            self.at = Position { index: self.at.index + 1, offset: offset + utf8_width(c) };
            Some((offset, c))
        } else {
            None
        }
    }

    /// Moves past the character that the cursor stands before if it is `ch`.
    pub fn eat(&mut self, ch: char) -> (eaten: bool)
        ensures
            final(self).text() == old(self).text(),
            0 <= old(self).pos() <= old(self).text().len(),
            eaten == (old(self).pos() < old(self).text().len() && old(self).text()[old(
                self,
            ).pos()] == ch),
            final(self).pos() == (if eaten {
                old(self).pos() + 1
            } else {
                old(self).pos()
            }),
    {
        match self.peek() {
            Some(c) => {
                if c == ch {
                    self.next();
                    true
                } else {
                    false
                }
            },
            None => false,
        }
    }

    /// Moves past `word` if it stands at the cursor.
    pub fn eat_word(&mut self, word: &str) -> (eaten: bool)
        ensures
            final(self).text() == old(self).text(),
            0 <= old(self).pos() <= final(self).pos() <= old(self).text().len(),
            eaten == has_word(old(self).text(), old(self).pos(), word@),
            final(self).pos() == (if eaten {
                old(self).pos() + word@.len()
            } else {
                old(self).pos()
            }),
    {
        proof {
            use_type_invariant(&*self);
        }
        let letters = collect_chars(word);
        let start = self.at.index;
        if self.chars.len() - start < letters.len() {
            return false;
        }
        let mut k: usize = 0;
        while k < letters.len()
            invariant
                k <= letters@.len(),
                letters@ == word@,
                self.text() == old(self).text(),
                self.pos() == old(self).pos(),
                start == self.pos(),
                start + letters@.len() <= self.chars.len(),
                self.chars@.subrange(start as int, start + k) == letters@.take(k as int),
            decreases letters@.len() - k,
        {
            if self.chars[start + k] != letters[k] {
                proof {
                    let there = self.chars@.subrange(start as int, start + letters@.len());
                    assert(there[k as int] != letters@[k as int]);
                }
                return false;
            }
            proof {
                assert(self.chars@.subrange(start as int, start + k + 1) == self.chars@.subrange(
                    start as int,
                    start + k,
                ).push(self.chars@[start + k]));
                assert(letters@.take(k + 1) == letters@.take(k as int).push(letters@[k as int]));
            }
            k = k + 1;
        }
        assert(letters@.take(k as int) == letters@);
        let mut n: usize = 0;
        while n < letters.len()
            invariant
                n <= letters@.len(),
                self.text() == old(self).text(),
                start == old(self).pos(),
                self.pos() == start + n,
                start + letters@.len() <= self.text().len(),
            decreases letters@.len() - n,
        {
            self.next();
            n = n + 1;
        }
        true
    }

    /// Moves past the maximal run of characters for which `predicate` returns
    /// `true`.
    pub fn skip_while<F: Fn(char) -> bool>(&mut self, predicate: F)
        requires
            forall|c: char| call_requires(predicate, (c,)),
        ensures
            final(self).text() == old(self).text(),
            0 <= old(self).pos() <= final(self).pos() <= old(self).text().len(),
            forall|k: int|
                old(self).pos() <= k < final(self).pos() ==> call_ensures(
                    predicate,
                    (#[trigger] old(self).text()[k],),
                    true,
                ),
            final(self).pos() < old(self).text().len() ==> call_ensures(
                predicate,
                (old(self).text()[final(self).pos()],),
                false,
            ),
    {
        proof {
            use_type_invariant(&*self);
        }
        loop
            invariant
                forall|c: char| call_requires(predicate, (c,)),
                self.text() == old(self).text(),
                0 <= old(self).pos() <= self.pos() <= self.text().len(),
                forall|k: int|
                    old(self).pos() <= k < self.pos() ==> call_ensures(
                        predicate,
                        (#[trigger] old(self).text()[k],),
                        true,
                    ),
            ensures
                self.pos() < old(self).text().len() ==> call_ensures(
                    predicate,
                    (old(self).text()[self.pos()],),
                    false,
                ),
            decreases self.text().len() - self.pos(),
        {
            match self.peek() {
                Some(c) => {
                    if predicate(c) {
                        self.next();
                    } else {
                        break;
                    }
                },
                None => {
                    break;
                },
            }
        }
    }

    /// Moves past a run of spaces and tabs.
    pub fn skip_whitespace(&mut self)
        ensures
            final(self).text() == old(self).text(),
            0 <= old(self).pos() <= final(self).pos() <= old(self).text().len(),
            final(self).pos() == skip_blanks(old(self).text(), old(self).pos()),
    {
        self.skip_while(is_blank);
        proof {
            lemma_run_end_unique(
                old(self).text(),
                old(self).pos(),
                self.pos(),
                |c: char| is_blank(c),
            );
        }
    }

    /// Moves past a line break, `"\n"`, `"\r\n"` or a lone `'\r'`, and says
    /// whether there was one.
    pub fn skip_newline(&mut self) -> (skipped: bool)
        ensures
            final(self).text() == old(self).text(),
            0 <= old(self).pos() <= final(self).pos() <= old(self).text().len(),
            final(self).pos() == after_newline(old(self).text(), old(self).pos()),
            skipped == (final(self).pos() > old(self).pos()),
    {
        match self.peek() {
            Some(c) => {
                if c == '\n' {
                    self.next();
                    true
                } else if c == '\r' {
                    self.next();
                    self.eat('\n');
                    true
                } else {
                    false
                }
            },
            None => false,
        }
    }

    /// Moves to the end of the line: before the next `'\n'`, or to the end of
    /// the input.
    pub fn skip_line(&mut self)
        ensures
            final(self).text() == old(self).text(),
            0 <= old(self).pos() <= final(self).pos() <= old(self).text().len(),
            final(self).pos() == line_end(old(self).text(), old(self).pos()),
    {
        let in_line = |c: char| -> (b: bool)
            ensures
                b == (c != '\n'),
            { c != '\n' };
        self.skip_while(in_line);
        proof {
            lemma_find_char_unique(old(self).text(), old(self).pos(), self.pos(), '\n');
        }
    }

    /// Where the cursor stands.
    fn mark(&self) -> (at: Position)
        ensures
            at.index == self.pos(),
            at.index <= self.text().len(),
            at.offset == byte_offset(self.text(), self.pos()),
    {
        proof {
            use_type_invariant(self);
        }
        self.at
    }

    /// The text between two places.
    fn text_between(&self, from: Position, to: Position) -> (text: &'a str)
        requires
            from.index <= to.index <= self.text().len(),
            from.offset == byte_offset(self.text(), from.index as int),
            to.offset == byte_offset(self.text(), to.index as int),
        ensures
            text@ == self.text().subrange(from.index as int, to.index as int),
    {
        proof {
            use_type_invariant(self);
        }
        slice(
            self.input,
            Ghost(from.index as int),
            Ghost(to.index as int),
            from.offset,
            to.offset,
        )
    }

    /// Takes the maximal run of characters for which `predicate` returns
    /// `true`. An empty run is no match: the result is `None`.
    pub fn take_while<F: Fn(char) -> bool>(&mut self, predicate: F) -> (r: Option<&'a str>)
        requires
            forall|c: char| call_requires(predicate, (c,)),
        ensures
            final(self).text() == old(self).text(),
            0 <= old(self).pos() <= final(self).pos() <= old(self).text().len(),
            forall|k: int|
                old(self).pos() <= k < final(self).pos() ==> call_ensures(
                    predicate,
                    (#[trigger] old(self).text()[k],),
                    true,
                ),
            final(self).pos() < old(self).text().len() ==> call_ensures(
                predicate,
                (old(self).text()[final(self).pos()],),
                false,
            ),
            match r {
                Some(text) => final(self).pos() > old(self).pos() && text@ == old(
                    self,
                ).text().subrange(old(self).pos(), final(self).pos()),
                None => final(self).pos() == old(self).pos(),
            },
    {
        let start = self.mark();
        self.skip_while(predicate);
        let end = self.mark();
        if end.index > start.index {
            Some(self.text_between(start, end))
        } else {
            None
        }
    }

    /// Takes the text up to and with the next `delim`, or the rest of the
    /// input where none follows. At the end of the input there is nothing to
    /// take: the result is `None`.
    pub fn take_until_inclusive(&mut self, delim: char) -> (r: Option<&'a str>)
        ensures
            final(self).text() == old(self).text(),
            0 <= old(self).pos() <= final(self).pos() <= old(self).text().len(),
            final(self).pos() == inclusive_end(old(self).text(), old(self).pos(), delim),
            r is Some ==> old(self).pos() < final(self).pos(),
            match r {
                Some(text) => old(self).pos() < old(self).text().len() && text@ == old(
                    self,
                ).text().subrange(old(self).pos(), final(self).pos()),
                None => old(self).pos() == old(self).text().len(),
            },
    {
        let start = self.mark();
        if self.peek().is_none() {
            return None;
        }
        let before = |c: char| -> (b: bool)
            ensures
                b == (c != delim),
            { c != delim };
        self.skip_while(before);
        proof {
            lemma_find_char_unique(old(self).text(), old(self).pos(), self.pos(), delim);
        }
        self.next();
        Some(self.text_between(start, self.mark()))
    }

    /// Takes the text up to the next `delim` that does not follow a backslash
    /// and moves past that `delim`; takes the rest of the input where none
    /// follows. A `delim` right at the cursor gives the empty text. At the end
    /// of the input there is nothing to take: the result is `None`.
    pub fn take_until_exclusive(&mut self, delim: char) -> (r: Option<&'a str>)
        ensures
            final(self).text() == old(self).text(),
            0 <= old(self).pos() <= final(self).pos() <= old(self).text().len(),
            final(self).pos() == exclusive_end(old(self).text(), old(self).pos(), delim),
            r is Some ==> old(self).pos() < final(self).pos(),
            match r {
                Some(text) => old(self).pos() < old(self).text().len() && text@ == old(
                    self,
                ).text().subrange(
                    old(self).pos(),
                    slice_end(old(self).text(), old(self).pos(), delim),
                ),
                None => old(self).pos() == old(self).text().len(),
            },
    {
        let start = self.mark();
        let first = match self.next() {
            Some((_, c)) => c,
            None => {
                return None;
            },
        };
        if first == delim {
            return Some(self.text_between(start, start));
        }
        let mut previous = first;
        let ghost s = old(self).text();
        loop
            invariant
                self.text() == s,
                s == old(self).text(),
                start.index == old(self).pos(),
                start.offset == byte_offset(s, start.index as int),
                start.index < self.pos() <= s.len(),
                s[start.index as int] != delim,
                previous == s[self.pos() - 1],
                find_unescaped(s, start.index + 1, delim) == find_unescaped(
                    s,
                    self.pos(),
                    delim,
                ),
            decreases s.len() - self.pos(),
        {
            let stop = self.mark();
            match self.next() {
                Some((_, c)) => {
                    if c == delim && previous != '\\' {
                        assert(find_unescaped(s, stop.index as int, delim) == stop.index);
                        return Some(self.text_between(start, stop));
                    }
                    assert(find_unescaped(s, stop.index as int, delim) == find_unescaped(
                        s,
                        stop.index + 1,
                        delim,
                    ));
                    previous = c;
                },
                None => {
                    assert(find_unescaped(s, stop.index as int, delim) == stop.index);
                    return Some(self.text_between(start, stop));
                },
            }
        }
    }
}

/// Where the cursor stands after `take_until_inclusive` from `i`.
pub open spec fn inclusive_end(s: Seq<char>, i: int, delim: char) -> int {
    if find_char(s, i, delim) < s.len() {
        find_char(s, i, delim) + 1
    } else {
        find_char(s, i, delim)
    }
}

/// Where the cursor stands after `take_until_exclusive` from `i`.
pub open spec fn exclusive_end(s: Seq<char>, i: int, delim: char) -> int {
    if i >= s.len() {
        i
    } else if slice_end(s, i, delim) < s.len() {
        slice_end(s, i, delim) + 1
    } else {
        slice_end(s, i, delim)
    }
}

} // verus!
