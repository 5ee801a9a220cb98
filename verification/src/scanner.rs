//! A cursor over UTF-8 text.
//!
//! The cursor holds the text and a byte offset into it that always falls
//! between two characters. Its contracts speak of the text as a sequence of
//! characters and of the cursor's position in that sequence; byte offsets
//! and positions are related by [`offset_of`] and [`chars_before`].

use crate::chars::{control_code, white_space};
use crate::text::{
    char_width, chars_before, is_boundary, lemma_boundary_is_offset, lemma_encode_injective,
    lemma_offset_is_boundary, lemma_offset_monotonic, lemma_offset_step, lemma_slice_between,
    lemma_split_at_boundary, offset_of,
};
use vstd::pervasive::runtime_assert;
use vstd::prelude::*;
use vstd::string::StringSliceAdditionalSpecFns;
use vstd::utf8::*;

verus! {

broadcast use vstd::string::group_string_axioms;

/// Number of bytes in the UTF-8 encoding of `c`.
pub fn utf8_width(c: char) -> (n: usize)
    ensures
        n == char_width(c),
        1 <= n <= 4,
{
    let u: u32 = c as u32;
    proof {
        char_is_scalar(c);
    }
    if u < 0x80 {
        1
    } else if u < 0x800 {
        2
    } else if u < 0x10000 {
        3
    } else {
        4
    }
}

/// A cursor over a text.
#[derive(Copy, Clone)]
pub struct Scanner<'s> {
    /// The text to scan.
    src: &'s str,
    /// The byte offset at which the next character starts.
    index: usize,
}

impl<'s> Scanner<'s> {
    /// The text under the cursor, as a sequence of characters.
    pub closed spec fn text(self) -> Seq<char> {
        self.src@
    }

    /// The byte offset of the cursor.
    pub closed spec fn offset(self) -> int {
        self.index as int
    }

    /// The position of the cursor: how many characters lie before it.
    pub open spec fn pos(self) -> int {
        chars_before(self.text(), self.offset())
    }

    /// The cursor stands between two characters of a text whose encoding can
    /// be addressed by `usize`.
    #[verifier::type_invariant]
    pub closed spec fn wf(self) -> bool {
        &&& is_boundary(self.src@, self.index as int)
        &&& encode_utf8(self.src@).len() <= usize::MAX
    }

    /// The character under the cursor, if there is one.
    pub open spec fn peek_spec(self) -> Option<char> {
        if 0 <= self.pos() < self.text().len() {
            Some(self.text()[self.pos()])
        } else {
            None
        }
    }

    /// What holds of every cursor: its position lies within the text, and
    /// its byte offset is the one at which the character at that position
    /// starts.
    pub proof fn lemma_position(self)
        requires
            self.wf(),
        ensures
            0 <= self.pos() <= self.text().len(),
            self.offset() == offset_of(self.text(), self.pos()),
            is_boundary(self.text(), self.offset()),
            offset_of(self.text(), self.text().len() as int) <= usize::MAX,
    {
        lemma_boundary_is_offset(self.src@, self.index as int);
        assert(self.src@.take(self.src@.len() as int) =~= self.src@);
    }

    /// Create a new cursor at the start of `src`.
    pub fn new(src: &'s str) -> (s: Self)
        ensures
            s.wf(),
            s.text() == src@,
            s.offset() == 0,
            s.pos() == 0,
    {
        let n = src.as_bytes().len();
        proof {
            encode_utf8_valid_utf8(src@);
            lemma_offset_is_boundary(src@, 0);
            assert(src@.take(0) =~= Seq::<char>::empty());
        }
        Self { src, index: 0 }
    }

    /// The current byte offset in the text.
    pub fn index(&self) -> (i: usize)
        ensures
            i == self.offset(),
            i == offset_of(self.text(), self.pos()),
            0 <= self.pos() <= self.text().len(),
    {
        proof {
            use_type_invariant(self);
            self.lemma_position();
        }
        self.index
    }

    /// The full text.
    pub fn src(&self) -> (r: &'s str)
        ensures
            r@ == self.text(),
    {
        self.src
    }

    /// The remaining text after the cursor.
    pub fn rest(&self) -> (r: &'s str)
        ensures
            r@ == self.text().skip(self.pos()),
    {
        proof {
            use_type_invariant(self);
            self.lemma_position();
            lemma_split_at_boundary(self.src@, self.index as int);
        }
        let (_, tail) = self.src.split_at(self.index);
        proof {
            lemma_encode_injective(tail@, self.src@.skip(self.pos()));
        }
        tail
    }

    /// The text before the cursor.
    pub fn eaten(&self) -> (r: &'s str)
        ensures
            r@ == self.text().take(self.pos()),
    {
        proof {
            use_type_invariant(self);
            self.lemma_position();
            lemma_split_at_boundary(self.src@, self.index as int);
        }
        let (head, _) = self.src.split_at(self.index);
        proof {
            lemma_encode_injective(head@, self.src@.take(self.pos()));
        }
        head
    }

    /// Peek at the next character without consuming it.
    pub fn peek(&self) -> (r: Option<char>)
        ensures
            r == self.peek_spec(),
    {
        proof {
            use_type_invariant(self);
            self.lemma_position();
        }
        let tail = self.rest();
        let mut it = tail.chars();
        it.next()
    }

    /// Whether the end of the text is reached.
    pub fn eof(&self) -> (r: bool)
        ensures
            r == (self.pos() == self.text().len()),
            r == (self.peek_spec() is None),
    {
        proof {
            use_type_invariant(self);
            self.lemma_position();
            lemma_offset_monotonic(self.src@, self.pos(), self.src@.len() as int);
            assert(self.src@.take(self.src@.len() as int) =~= self.src@);
        }
        self.index == self.src.len()
    }

    /// Consume the next character.
    pub fn eat(&mut self) -> (r: Option<char>)
        ensures
            r == old(self).peek_spec(),
            final(self).text() == old(self).text(),
            final(self).pos() == old(self).pos() + (if r is Some { 1int } else { 0 }),
            final(self).offset() == offset_of(final(self).text(), final(self).pos()),
    {
        proof {
            use_type_invariant(&*self);
            self.lemma_position();
        }
        let next = self.peek();
        if let Some(c) = next {
            proof {
                lemma_offset_step(self.src@, self.pos());
                lemma_offset_is_boundary(self.src@, self.pos() + 1);
            }
            self.index += utf8_width(c);
        }
        next
    }
}

impl<'s> Scanner<'s> {
    /// Consume the next character if it is the given one.
    ///
    /// Returns whether the character was consumed.
    pub fn eat_if(&mut self, c: char) -> (r: bool)
        ensures
            r == (old(self).peek_spec() == Some(c)),
            final(self).text() == old(self).text(),
            final(self).pos() == old(self).pos() + (if r { 1int } else { 0 }),
            final(self).offset() == offset_of(final(self).text(), final(self).pos()),
    {
        proof {
            use_type_invariant(&*self);
            self.lemma_position();
        }
        let matches = match self.peek() {
            Some(d) => d == c,
            None => false,
        };
        if matches {
            proof {
                lemma_offset_step(self.src@, self.pos());
                lemma_offset_is_boundary(self.src@, self.pos() + 1);
            }
            self.index += utf8_width(c);
        }
        matches
    }

    /// Consume the next character, which the caller knows to be the given
    /// one.
    pub fn eat_assert(&mut self, c: char)
        requires
            old(self).peek_spec() == Some(c),
        ensures
            final(self).text() == old(self).text(),
            final(self).pos() == old(self).pos() + 1,
            final(self).offset() == offset_of(final(self).text(), final(self).pos()),
    {
        let _ = self.eat();
    }

    /// Consume characters for as long as the condition answers other than
    /// `stop` for the next one. Returns what was consumed.
    fn eat_run<F>(&mut self, f: F, stop: bool) -> (r: &'s str) where F: Fn(char) -> bool
        requires
            forall|c: char| call_requires(f, (c,)),
        ensures
            final(self).text() == old(self).text(),
            old(self).pos() <= final(self).pos() <= old(self).text().len(),
            final(self).offset() == offset_of(final(self).text(), final(self).pos()),
            r@ == old(self).text().subrange(old(self).pos(), final(self).pos()),
            forall|k: int|
                old(self).pos() <= k < final(self).pos() ==> call_ensures(
                    f,
                    (#[trigger] old(self).text()[k],),
                    !stop,
                ),
            final(self).pos() < old(self).text().len() ==> call_ensures(
                f,
                (old(self).text()[final(self).pos()],),
                stop,
            ),
    {
        let start = self.index;
        proof {
            use_type_invariant(&*self);
            self.lemma_position();
        }
        loop
            invariant
                self.text() == old(self).text(),
                old(self).pos() <= self.pos() <= self.text().len(),
                start == old(self).offset(),
                forall|c: char| call_requires(f, (c,)),
                forall|k: int|
                    old(self).pos() <= k < self.pos() ==> call_ensures(
                        f,
                        (#[trigger] old(self).text()[k],),
                        !stop,
                    ),
            ensures
                self.text() == old(self).text(),
                old(self).pos() <= self.pos() <= self.text().len(),
                start == old(self).offset(),
                forall|k: int|
                    old(self).pos() <= k < self.pos() ==> call_ensures(
                        f,
                        (#[trigger] old(self).text()[k],),
                        !stop,
                    ),
                self.pos() < self.text().len() ==> call_ensures(
                    f,
                    (self.text()[self.pos()],),
                    stop,
                ),
            decreases self.text().len() - self.pos(),
        {
            match self.peek() {
                None => {
                    break ;
                },
                Some(c) => {
                    if f(c) == stop {
                        break ;
                    }
                    let _ = self.eat();
                },
            }
        }
        proof {
            use_type_invariant(&*self);
            self.lemma_position();
            lemma_offset_is_boundary(self.text(), old(self).pos());
            lemma_offset_is_boundary(self.text(), self.pos());
            lemma_offset_monotonic(self.text(), old(self).pos(), self.pos());
        }
        self.eaten_from(start)
    }

    /// Consume characters until the condition is true of the next one, or
    /// the text ends. Returns what was consumed.
    pub fn eat_until<F>(&mut self, f: F) -> (r: &'s str) where F: Fn(char) -> bool
        requires
            forall|c: char| call_requires(f, (c,)),
        ensures
            final(self).text() == old(self).text(),
            old(self).pos() <= final(self).pos() <= old(self).text().len(),
            final(self).offset() == offset_of(final(self).text(), final(self).pos()),
            r@ == old(self).text().subrange(old(self).pos(), final(self).pos()),
            forall|k: int|
                old(self).pos() <= k < final(self).pos() ==> call_ensures(
                    f,
                    (#[trigger] old(self).text()[k],),
                    false,
                ),
            final(self).pos() < old(self).text().len() ==> call_ensures(
                f,
                (old(self).text()[final(self).pos()],),
                true,
            ),
    {
        self.eat_run(f, true)
    }

    /// Consume characters while the condition is true of the next one.
    /// Returns what was consumed.
    pub fn eat_while<F>(&mut self, f: F) -> (r: &'s str) where F: Fn(char) -> bool
        requires
            forall|c: char| call_requires(f, (c,)),
        ensures
            final(self).text() == old(self).text(),
            old(self).pos() <= final(self).pos() <= old(self).text().len(),
            final(self).offset() == offset_of(final(self).text(), final(self).pos()),
            r@ == old(self).text().subrange(old(self).pos(), final(self).pos()),
            forall|k: int|
                old(self).pos() <= k < final(self).pos() ==> call_ensures(
                    f,
                    (#[trigger] old(self).text()[k],),
                    true,
                ),
            final(self).pos() < old(self).text().len() ==> call_ensures(
                f,
                (old(self).text()[final(self).pos()],),
                false,
            ),
    {
        self.eat_run(f, false)
    }

    /// The text from byte offset `start` up to the cursor; empty where
    /// `start` lies behind the cursor or inside a character.
    pub fn eaten_from(&self, start: usize) -> (r: &'s str)
        ensures
            r@ == slice_spec(self.text(), start as int, self.offset()),
    {
        self.get(start..self.index)
    }

    /// Slice out part of the text, by byte offsets; empty where the range
    /// is reversed, or an end of it lies outside the text or inside a
    /// character.
    pub fn get(&self, range: std::ops::Range<usize>) -> (r: &'s str)
        ensures
            r@ == slice_spec(self.text(), range.start as int, range.end as int),
    {
        let start = range.start;
        let end = range.end;
        if start <= end && self.src.is_char_boundary(start) && self.src.is_char_boundary(end) {
            proof {
                let s = self.src@;
                let j = chars_before(s, start as int);
                let k = chars_before(s, end as int);
                lemma_boundary_is_offset(s, start as int);
                lemma_boundary_is_offset(s, end as int);
                if k < j {
                    lemma_offset_monotonic(s, k, j);
                }
                lemma_slice_between(s, j, k);
                lemma_slice_between(s, 0, k);
                assert(s.subrange(0, k).take(j) =~= s.take(j));
                lemma_offset_is_boundary(s.subrange(0, k), j);
                assert(s.take(s.len() as int) =~= s);
            }
            let (head, _) = self.src.split_at(end);
            let (_, mid) = head.split_at(start);
            proof {
                let s = self.src@;
                let j = chars_before(s, start as int);
                let k = chars_before(s, end as int);
                assert(s.take(s.len() as int) =~= s);
                assert(head.spec_bytes() =~= encode_utf8(s).subrange(0, end as int));
                assert(mid.spec_bytes() =~= encode_utf8(s).subrange(start as int, end as int));
                lemma_encode_injective(mid@, s.subrange(j, k));
            }
            mid
        } else {
            proof {
                reveal_strlit("");
            }
            ""
        }
    }
}

/// The characters of `s` between byte offsets `start` and `end`, or the
/// empty text where these are not two boundaries in that order.
pub open spec fn slice_spec(s: Seq<char>, start: int, end: int) -> Seq<char> {
    if start <= end && is_boundary(s, start) && is_boundary(s, end) {
        s.subrange(chars_before(s, start), chars_before(s, end))
    } else {
        Seq::empty()
    }
}

impl<'s> Scanner<'s> {
    /// The character that starts at byte offset `index`, if any.
    fn char_at(&self, index: usize) -> (r: Option<char>)
        requires
            is_boundary(self.text(), index as int),
        ensures
            r == (if chars_before(self.text(), index as int) < self.text().len() {
                Some(self.text()[chars_before(self.text(), index as int)])
            } else {
                None
            }),
    {
        proof {
            lemma_boundary_is_offset(self.src@, index as int);
            lemma_split_at_boundary(self.src@, index as int);
        }
        let (_, tail) = self.src.split_at(index);
        proof {
            lemma_encode_injective(tail@, self.src@.skip(chars_before(self.src@, index as int)));
        }
        let mut it = tail.chars();
        it.next()
    }

    /// The byte offset at which the character before the one at `index`
    /// starts; 0 where there is none.
    fn boundary_before(&self, index: usize) -> (r: usize)
        requires
            is_boundary(self.text(), index as int),
        ensures
            r == offset_of(
                self.text(),
                if chars_before(self.text(), index as int) > 0 {
                    chars_before(self.text(), index as int) - 1
                } else {
                    0
                },
            ),
            is_boundary(self.text(), r as int),
            chars_before(self.text(), r as int) == (if chars_before(self.text(), index as int)
                > 0 {
                chars_before(self.text(), index as int) - 1
            } else {
                0
            }),
            r <= index,
    {
        let ghost s = self.src@;
        let ghost k = chars_before(s, index as int);
        proof {
            use_type_invariant(self);
            lemma_boundary_is_offset(s, index as int);
            lemma_offset_is_boundary(s, 0);
            assert(s.take(0) =~= Seq::<char>::empty());
            assert(s.take(s.len() as int) =~= s);
        }
        if index == 0 {
            return 0;
        }
        proof {
            if k == 0 {
                assert(false);
            }
            lemma_offset_step(s, k - 1);
            lemma_offset_is_boundary(s, k - 1);
        }
        let mut i: usize = index - 1;
        while !self.src.is_char_boundary(i)
            invariant
                s == self.src@,
                0 < k <= s.len(),
                index == offset_of(s, k),
                offset_of(s, k - 1) <= i < index,
                is_boundary(s, offset_of(s, k - 1)),
            decreases i,
        {
            i -= 1;
        }
        proof {
            let m = chars_before(s, i as int);
            lemma_boundary_is_offset(s, i as int);
            if m < k - 1 {
                lemma_offset_monotonic(s, m, k - 1);
            }
            if m > k - 1 {
                lemma_offset_monotonic(s, k, m);
            }
        }
        i
    }

    /// Skip the whitespace under the cursor.
    pub fn skip_ws(&mut self)
        ensures
            final(self).text() == old(self).text(),
            old(self).pos() <= final(self).pos() <= old(self).text().len(),
            final(self).offset() == offset_of(final(self).text(), final(self).pos()),
            forall|k: int|
                old(self).pos() <= k < final(self).pos() ==> white_space(
                    #[trigger] old(self).text()[k],
                ),
            final(self).pos() < old(self).text().len() ==> !white_space(
                old(self).text()[final(self).pos()],
            ),
    {
        let blank = |c: char| -> (b: bool)
            ensures
                b == white_space(c),
            { c.is_whitespace() };
        let _ = self.eat_while(blank);
    }

    /// Skip the newlines and whitespace under the cursor.
    pub fn skip_trivia(&mut self)
        ensures
            final(self).text() == old(self).text(),
            old(self).pos() <= final(self).pos() <= old(self).text().len(),
            final(self).offset() == offset_of(final(self).text(), final(self).pos()),
            forall|k: int|
                old(self).pos() <= k < final(self).pos() ==> is_trivia(
                    #[trigger] old(self).text()[k],
                ),
            final(self).pos() < old(self).text().len() ==> !is_trivia(
                old(self).text()[final(self).pos()],
            ),
    {
        let trivia = |c: char| -> (b: bool)
            ensures
                b == is_trivia(c),
            { c.is_whitespace() || is_newline(c) };
        let _ = self.eat_while(trivia);
    }

    /// Move back over the last consumed character, if there is one.
    pub fn uneat(&mut self)
        ensures
            final(self).text() == old(self).text(),
            final(self).pos() == (if old(self).pos() > 0 {
                old(self).pos() - 1
            } else {
                0
            }),
            final(self).offset() == offset_of(final(self).text(), final(self).pos()),
    {
        let last = self.last_index();
        proof {
            use_type_invariant(&*self);
        }
        self.index = last;
    }

    /// The `n`-th character before the cursor, counting from 0 for the one
    /// consumed last.
    pub fn prev(&self, n: usize) -> (r: Option<char>)
        ensures
            r == (if n < self.pos() {
                Some(self.text()[self.pos() - 1 - n])
            } else {
                None
            }),
    {
        proof {
            use_type_invariant(self);
            self.lemma_position();
        }
        let mut at: usize = self.index;
        let mut left: usize = n;
        loop
            invariant
                is_boundary(self.text(), at as int),
                0 <= left <= n,
                chars_before(self.text(), at as int) == self.pos() - (n - left),
                0 <= self.pos() <= self.text().len(),
            decreases left,
        {
            proof {
                lemma_boundary_is_offset(self.text(), at as int);
                lemma_offset_is_boundary(self.text(), 0);
                assert(self.text().take(0) =~= Seq::<char>::empty());
            }
            if at == 0 {
                return None;
            }
            at = self.boundary_before(at);
            if left == 0 {
                return self.char_at(at);
            }
            left -= 1;
        }
    }

    /// Whether the next character fulfills a condition; `default` where
    /// there is no next character.
    pub fn check_or<F>(&self, default: bool, f: F) -> (r: bool) where F: FnOnce(char) -> bool
        requires
            self.peek_spec() is Some ==> call_requires(f, (self.peek_spec()->0,)),
        ensures
            match self.peek_spec() {
                Some(c) => call_ensures(f, (c,), r),
                None => r == default,
            },
    {
        match self.peek() {
            Some(c) => f(c),
            None => default,
        }
    }

    /// The byte offset at which the last consumed character starts; 0 where
    /// nothing was consumed.
    pub fn last_index(&self) -> (i: usize)
        ensures
            i == offset_of(self.text(), if self.pos() > 0 {
                self.pos() - 1
            } else {
                0
            }),
            is_boundary(self.text(), i as int),
            chars_before(self.text(), i as int) == (if self.pos() > 0 {
                self.pos() - 1
            } else {
                0
            }),
    {
        proof {
            use_type_invariant(self);
        }
        self.boundary_before(self.index)
    }

    /// The empty span at the cursor, in byte offsets.
    pub fn here(&self) -> (r: std::ops::Range<usize>)
        ensures
            r.start == self.offset(),
            r.end == self.offset(),
    {
        let pos = self.index();
        pos..pos
    }

    /// Jump to a byte offset in the text. The offset must lie between two
    /// characters or at an end of the text; a caller that does not know
    /// this of an offset tests it with `src().is_char_boundary(index)`.
    pub fn jump(&mut self, index: usize)
        requires
            is_boundary(old(self).text(), index as int),
        ensures
            final(self).text() == old(self).text(),
            final(self).offset() == index,
            final(self).pos() == chars_before(old(self).text(), index as int),
    {
        // Make sure that the index is in bounds and on a codepoint boundary.
        runtime_assert(self.src.is_char_boundary(index));
        proof {
            use_type_invariant(&*self);
        }
        self.index = index;
    }
}

/// The characters that end a line: line feed, vertical tab, form feed,
/// carriage return, next line, line separator and paragraph separator.
pub open spec fn newline(c: char) -> bool {
    c == '\n' || c == '\x0B' || c == '\x0C' || c == '\r' || c == '\u{0085}' || c == '\u{2028}'
        || c == '\u{2029}'
}

/// Whitespace and line ends.
pub open spec fn is_trivia(c: char) -> bool {
    white_space(c) || newline(c)
}

/// The characters that no identifier holds.
pub open spec fn reserved(c: char) -> bool {
    c == '@' || c == '{' || c == '}' || c == '"' || c == '#' || c == '\'' || c == '(' || c == ')'
        || c == ',' || c == '=' || c == '%' || c == '\\' || c == '~'
}

/// The punctuation that an identifier may hold, but not start with.
pub open spec fn inner_punctuation(c: char) -> bool {
    c == ':' || c == '<' || c == '-' || c == '>' || c == '_'
}

/// The characters that may continue an identifier: all but the reserved
/// ones, control codes, whitespace and line ends.
pub open spec fn id_continue(c: char) -> bool {
    !reserved(c) && !control_code(c) && !white_space(c) && !newline(c)
}

/// The characters that may start an identifier: those that may continue one,
/// without the inner punctuation.
pub open spec fn id_start(c: char) -> bool {
    !inner_punctuation(c) && id_continue(c)
}

/// Whether this character denotes a newline.
pub fn is_newline(character: char) -> (r: bool)
    ensures
        r == newline(character),
{
    character == '\n' || character == '\x0B' || character == '\x0C' || character == '\r'
        || character == '\u{0085}' || character == '\u{2028}' || character == '\u{2029}'
}

/// Whether a character can start an identifier.
pub fn is_id_start(c: char) -> (r: bool)
    ensures
        r == id_start(c),
{
    !(c == ':' || c == '<' || c == '-' || c == '>' || c == '_') && is_id_continue(c)
}

/// Whether a character can continue an identifier.
pub fn is_id_continue(c: char) -> (r: bool)
    ensures
        r == id_continue(c),
{
    !(c == '@' || c == '{' || c == '}' || c == '"' || c == '#' || c == '\'' || c == '(' || c
        == ')' || c == ',' || c == '=' || c == '%' || c == '\\' || c == '~') && !c.is_control()
        && !c.is_whitespace() && !is_newline(c)
}

} // verus!
