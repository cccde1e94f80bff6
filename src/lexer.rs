//! Splits a pattern into tokens.
use vstd::prelude::*;
use vstd::string::StringSliceAdditionalSpecFns;
use vstd::utf8::*;

use crate::text::{
    alpha_byte, at_boundary, byte_len, continuation_byte, digit_byte, is_alpha_byte, is_digit_byte,
    lemma_boundary_after_ascii, lemma_str_valid, slice_str,
};

verus! {

broadcast use vstd::seq::group_seq_axioms;

#[derive(Debug, PartialEq, Eq, Clone, Copy, Structural)]
pub enum TokenKind {
    Literal,
    Lparen,
    Rparen,
    Type,
    Ident,
    Colon,
    Arrow,
    CaptureIndex,
    End,
}

/// The text of a token: a piece of the pattern, or nothing.
#[derive(Debug, PartialEq, Eq, Clone, Copy)]
pub enum TokenText<'source> {
    Slice(&'source str),
    Empty,
}

impl<'source> TokenText<'source> {
    pub open spec fn bytes(&self) -> Seq<u8> {
        match self {
            TokenText::Slice(s) => s.spec_bytes(),
            TokenText::Empty => Seq::empty(),
        }
    }

    pub open spec fn str_of(&self) -> &'source str {
        match self {
            TokenText::Slice(s) => *s,
            TokenText::Empty => "",
        }
    }

    /// Length in bytes.
    pub fn len(&self) -> (r: usize)
        ensures
            r == self.bytes().len(),
    {
        match self {
            TokenText::Slice(s) => byte_len(s),
            TokenText::Empty => 0,
        }
    }

    pub fn as_str(&self) -> (r: &'source str)
        ensures
            r.spec_bytes() == self.bytes(),
            r == self.str_of(),
    {
        match self {
            TokenText::Slice(s) => s,
            TokenText::Empty => {
                proof {
                    lemma_empty_str_bytes();
                }
                ""
            },
        }
    }
}

proof fn lemma_empty_str_bytes()
    ensures
        "".spec_bytes() == Seq::<u8>::empty(),
{
    reveal_strlit("");
    assert("".spec_bytes() =~= Seq::<u8>::empty());
}

#[derive(Debug, PartialEq, Eq, Clone, Copy)]
pub struct Token<'source> {
    pub kind: TokenKind,
    pub text: TokenText<'source>,
    pub start: usize,
}

/// What the lexer yields at a position: the token's kind and its byte range.
pub ghost struct SpecToken {
    pub kind: TokenKind,
    pub start: int,
    pub end: int,
}

pub enum ByteClass {
    Alpha,
    Digit,
    Continuation,
    LiteralText,
}

/// Byte `i` ends a run of literal text: `(`, `)`, `:` or `-`. A `-` that does
/// not begin `->` starts the next literal.
pub open spec fn stops_literal(b: Seq<u8>, i: int) -> bool {
    b[i] == 40 || b[i] == 41 || b[i] == 58 || b[i] == 45
}

pub open spec fn in_class(b: Seq<u8>, i: int, c: ByteClass) -> bool {
    match c {
        ByteClass::Alpha => is_alpha_byte(b[i]),
        ByteClass::Digit => is_digit_byte(b[i]),
        ByteClass::Continuation => is_continuation_byte(b[i]),
        ByteClass::LiteralText => !stops_literal(b, i),
    }
}

/// The end of the longest run of bytes of class `c` that starts at `i`.
pub open spec fn run_end(b: Seq<u8>, i: int, c: ByteClass) -> int
    decreases b.len() - i,
{
    if 0 <= i < b.len() && in_class(b, i, c) {
        run_end(b, i + 1, c)
    } else {
        i
    }
}

/// The end of a word: its first character whole, then ASCII letters.
pub open spec fn word_end(b: Seq<u8>, p: int) -> int {
    run_end(b, run_end(b, p + 1, ByteClass::Continuation), ByteClass::Alpha)
}

/// The token that starts at byte `p` of pattern `b`.
pub open spec fn lex(b: Seq<u8>, p: int) -> SpecToken {
    if p >= b.len() {
        SpecToken { kind: TokenKind::End, start: p, end: p }
    } else if b[p] == 40 {
        SpecToken { kind: TokenKind::Lparen, start: p, end: p + 1 }
    } else if b[p] == 41 {
        SpecToken { kind: TokenKind::Rparen, start: p, end: p + 1 }
    } else if b[p] == 45 && p + 1 < b.len() && b[p + 1] == 62 {
        SpecToken { kind: TokenKind::Arrow, start: p, end: p + 2 }
    } else if b[p] == 58 {
        SpecToken { kind: TokenKind::Colon, start: p, end: p + 1 }
    } else if p > 0 && b[p - 1] == 58 {
        SpecToken { kind: TokenKind::Type, start: p, end: word_end(b, p) }
    } else if p > 0 && b[p - 1] == 40 {
        if is_digit_byte(b[p]) {
            SpecToken { kind: TokenKind::CaptureIndex, start: p, end: run_end(b, p + 1, ByteClass::Digit) }
        } else {
            SpecToken { kind: TokenKind::Ident, start: p, end: word_end(b, p) }
        }
    } else {
        SpecToken { kind: TokenKind::Literal, start: p, end: run_end(b, p + 1, ByteClass::LiteralText) }
    }
}

pub proof fn lemma_run_end_bounds(b: Seq<u8>, i: int, c: ByteClass)
    requires
        0 <= i <= b.len(),
    ensures
        i <= run_end(b, i, c) <= b.len(),
    decreases b.len() - i,
{
    if i < b.len() && in_class(b, i, c) {
        lemma_run_end_bounds(b, i + 1, c);
    }
}

/// Every byte of a run belongs to its class.
pub proof fn lemma_run_in_class(b: Seq<u8>, i: int, c: ByteClass)
    requires
        0 <= i,
    ensures
        forall|j: int| i <= j < run_end(b, i, c) ==> in_class(b, j, c),
    decreases b.len() - i,
{
    if 0 <= i < b.len() && in_class(b, i, c) {
        lemma_run_in_class(b, i + 1, c);
    }
}

/// Every token but `End` starts where asked and ends further on.
pub proof fn lemma_lex_advances(b: Seq<u8>, p: int)
    requires
        0 <= p,
    ensures
        lex(b, p).start == p,
        (lex(b, p).kind == TokenKind::End) == (p >= b.len()),
        p < b.len() ==> p < lex(b, p).end <= b.len(),
        p >= b.len() ==> lex(b, p).end == p,
{
    if p < b.len() {
        lemma_run_end_bounds(b, p + 1, ByteClass::Continuation);
        lemma_run_end_bounds(b, run_end(b, p + 1, ByteClass::Continuation), ByteClass::Alpha);
        lemma_run_end_bounds(b, p + 1, ByteClass::Digit);
        lemma_run_end_bounds(b, p + 1, ByteClass::LiteralText);
    }
}

impl<'source> Token<'source> {
    /// This token is what the lexer yields at its start in pattern `b`.
    pub open spec fn lexed_from(&self, b: Seq<u8>) -> bool {
        let t = lex(b, self.start as int);
        &&& self.kind == t.kind
        &&& self.start == t.start
        &&& self.text.bytes() == b.subrange(t.start, t.end)
    }
}

#[derive(Debug)]
pub struct Lexer<'source> {
    input: &'source str,
    position: usize,
}

impl<'source> Lexer<'source> {
    pub closed spec fn source(&self) -> &'source str {
        self.input
    }

    pub closed spec fn pos(&self) -> nat {
        self.position as nat
    }

    /// The lexer stands at a character of its pattern, or at its end.
    pub closed spec fn wf(&self) -> bool {
        &&& self.input.spec_bytes().len() <= usize::MAX
        &&& self.position <= self.input.spec_bytes().len()
        &&& at_boundary(self.input.spec_bytes(), self.position as int)
    }

    pub fn new(input: &'source str) -> (r: Self)
        ensures
            r.wf(),
            r.source() == input,
            r.pos() == 0,
    {
        proof {
            lemma_str_valid(input);
            if input.spec_bytes().len() > 0 {
                crate::text::lemma_valid_first_not_continuation(input.spec_bytes());
            }
        }
        byte_len(input);
        Self { input, position: 0 }
    }

    pub fn input(&self) -> (r: &'source str)
        ensures
            r == self.source(),
    {
        self.input
    }

    fn input_slice(&self, from: usize, to: usize) -> (r: &'source str)
        requires
            from <= to <= self.input.spec_bytes().len(),
            at_boundary(self.input.spec_bytes(), from as int),
            at_boundary(self.input.spec_bytes(), to as int),
        ensures
            r.spec_bytes() == self.input.spec_bytes().subrange(from as int, to as int),
    {
        slice_str(self.input, from, to)
    }

    fn char_at(&self, position: usize) -> (r: Option<u8>)
        ensures
            position < self.input.spec_bytes().len() ==> r == Some(
                self.input.spec_bytes()[position as int],
            ),
            position >= self.input.spec_bytes().len() ==> r.is_none(),
    {
        let bytes = self.input.as_bytes();
        if position < bytes.len() {
            Some(bytes[position])
        } else {
            None
        }
    }

    fn ch(&self) -> (r: Option<u8>)
        ensures
            r == (if self.position < self.input.spec_bytes().len() {
                Some(self.input.spec_bytes()[self.position as int])
            } else {
                None
            }),
    {
        self.char_at(self.position)
    }

    fn peek_char(&self) -> (r: Option<u8>)
        requires
            self.wf(),
            self.position < self.input.spec_bytes().len(),
        ensures
            r == (if self.position + 1 < self.input.spec_bytes().len() {
                Some(self.input.spec_bytes()[self.position + 1])
            } else {
                None
            }),
    {
        self.char_at(self.position + 1)
    }

    fn if_peek(&self, ch: u8) -> (r: bool)
        requires
            self.wf(),
            self.position < self.input.spec_bytes().len(),
        ensures
            r == (self.position + 1 < self.input.spec_bytes().len()
                && self.input.spec_bytes()[self.position + 1] == ch),
    {
        match self.peek_char() {
            Some(c) => c == ch,
            None => false,
        }
    }

    fn if_previous(&self, ch: u8) -> (r: bool)
        requires
            self.position <= self.input.spec_bytes().len(),
        ensures
            r == (self.position > 0 && self.input.spec_bytes()[self.position - 1] == ch),
    {
        if self.position == 0 {
            return false;
        }
        match self.char_at(self.position - 1) {
            Some(c) => c == ch,
            None => false,
        }
    }

    fn in_class_at(&self, i: usize, class: &ByteClass) -> (r: bool)
        requires
            i < self.input.spec_bytes().len(),
        ensures
            r == in_class(self.input.spec_bytes(), i as int, *class),
    {
        let bytes = self.input.as_bytes();
        let c = bytes[i];
        match class {
            ByteClass::Alpha => alpha_byte(c),
            ByteClass::Digit => digit_byte(c),
            ByteClass::Continuation => continuation_byte(c),
            ByteClass::LiteralText => {
                let stop = c == 40 || c == 41 || c == 58 || c == 45;
                !stop
            },
        }
    }

    /// The end of the run of bytes of `class` from `from` on.
    fn read_while(&self, from: usize, class: ByteClass) -> (end: usize)
        requires
            from <= self.input.spec_bytes().len(),
        ensures
            end == run_end(self.input.spec_bytes(), from as int, class),
            from <= end <= self.input.spec_bytes().len(),
            end == self.input.spec_bytes().len() || !in_class(
                self.input.spec_bytes(),
                end as int,
                class,
            ),
            forall|i: int| from <= i < end ==> in_class(self.input.spec_bytes(), i, class),
    {
        let ghost b = self.input.spec_bytes();
        let len = byte_len(self.input);
        let mut i = from;
        while i < len && self.in_class_at(i, &class)
            invariant
                from <= i <= len,
                len == b.len(),
                b == self.input.spec_bytes(),
                run_end(b, i as int, class) == run_end(b, from as int, class),
                forall|j: int| from <= j < i ==> in_class(b, j, class),
            decreases len - i,
        {
            i = i + 1;
        }
        i
    }

    /// A word: the first character whole, then the ASCII letters after it.
    fn word(&self) -> (end: usize)
        requires
            self.wf(),
            self.position < self.input.spec_bytes().len(),
        ensures
            end == word_end(self.input.spec_bytes(), self.position as int),
            self.position < end <= self.input.spec_bytes().len(),
            at_boundary(self.input.spec_bytes(), end as int),
    {
        let ghost b = self.input.spec_bytes();
        let j = self.read_while(self.position + 1, ByteClass::Continuation);
        let e = self.read_while(j, ByteClass::Alpha);
        proof {
            lemma_str_valid(self.input);
            if e > j {
                assert(in_class(b, e - 1, ByteClass::Alpha));
                assert(is_alpha_byte(b[e - 1]));
                lemma_boundary_after_ascii(b, e - 1);
            }
        }
        e
    }

    fn type_token(&self) -> (t: Token<'source>)
        requires
            self.wf(),
            self.position < self.input.spec_bytes().len(),
        ensures
            t.kind == TokenKind::Type,
            t.start == self.position,
            t.text.bytes() == self.input.spec_bytes().subrange(
                self.position as int,
                word_end(self.input.spec_bytes(), self.position as int),
            ),
            at_boundary(self.input.spec_bytes(), word_end(self.input.spec_bytes(), self.position as int)),
            self.position < word_end(self.input.spec_bytes(), self.position as int) <= self.input.spec_bytes().len(),
    {
        let start = self.position;
        let e = self.word();
        let slice = self.input_slice(start, e);
        Token { kind: TokenKind::Type, text: TokenText::Slice(slice), start }
    }

    fn identifier_token(&self) -> (t: Token<'source>)
        requires
            self.wf(),
            self.position < self.input.spec_bytes().len(),
        ensures
            t.kind == TokenKind::Ident,
            t.start == self.position,
            t.text.bytes() == self.input.spec_bytes().subrange(
                self.position as int,
                word_end(self.input.spec_bytes(), self.position as int),
            ),
            at_boundary(self.input.spec_bytes(), word_end(self.input.spec_bytes(), self.position as int)),
            self.position < word_end(self.input.spec_bytes(), self.position as int) <= self.input.spec_bytes().len(),
    {
        let start = self.position;
        let e = self.word();
        let slice = self.input_slice(start, e);
        Token { kind: TokenKind::Ident, text: TokenText::Slice(slice), start }
    }

    fn index_token(&self) -> (t: Token<'source>)
        requires
            self.wf(),
            self.position < self.input.spec_bytes().len(),
            is_digit_byte(self.input.spec_bytes()[self.position as int]),
        ensures
            t.kind == TokenKind::CaptureIndex,
            t.start == self.position,
            t.text.bytes() == self.input.spec_bytes().subrange(
                self.position as int,
                run_end(self.input.spec_bytes(), self.position + 1, ByteClass::Digit),
            ),
            at_boundary(self.input.spec_bytes(), run_end(self.input.spec_bytes(), self.position + 1, ByteClass::Digit)),
            self.position < run_end(self.input.spec_bytes(), self.position + 1, ByteClass::Digit) <= self.input.spec_bytes().len(),
    {
        let ghost b = self.input.spec_bytes();
        let start = self.position;
        let e = self.read_while(start + 1, ByteClass::Digit);
        proof {
            lemma_str_valid(self.input);
            if e - 1 > start {
                assert(in_class(b, e - 1, ByteClass::Digit));
            }
            assert(is_digit_byte(b[e - 1]));
            lemma_boundary_after_ascii(b, e - 1);
        }
        let slice = self.input_slice(start, e);
        Token { kind: TokenKind::CaptureIndex, text: TokenText::Slice(slice), start }
    }

    fn literal(&self) -> (t: Token<'source>)
        requires
            self.wf(),
            self.position < self.input.spec_bytes().len(),
        ensures
            t.kind == TokenKind::Literal,
            t.start == self.position,
            t.text.bytes() == self.input.spec_bytes().subrange(
                self.position as int,
                run_end(self.input.spec_bytes(), self.position + 1, ByteClass::LiteralText),
            ),
            at_boundary(self.input.spec_bytes(), run_end(self.input.spec_bytes(), self.position + 1, ByteClass::LiteralText)),
            self.position < run_end(self.input.spec_bytes(), self.position + 1, ByteClass::LiteralText) <= self.input.spec_bytes().len(),
    {
        let start = self.position;
        let e = self.read_while(start + 1, ByteClass::LiteralText);
        let slice = self.input_slice(start, e);
        Token { kind: TokenKind::Literal, text: TokenText::Slice(slice), start }
    }

    /// A token of `width` ASCII bytes at the current position.
    fn char_token(&self, kind: TokenKind, width: usize) -> (t: Token<'source>)
        requires
            self.wf(),
            width == 1 || width == 2,
            self.position + width <= self.input.spec_bytes().len(),
            forall|i: int|
                self.position <= i < self.position + width ==> self.input.spec_bytes()[i] < 0x80,
        ensures
            t.kind == kind,
            t.start == self.position,
            t.text.bytes() == self.input.spec_bytes().subrange(
                self.position as int,
                self.position + width,
            ),
            at_boundary(self.input.spec_bytes(), self.position + width),
    {
        let ghost b = self.input.spec_bytes();
        proof {
            lemma_str_valid(self.input);
            lemma_boundary_after_ascii(b, self.position as int);
            if width == 2 {
                lemma_boundary_after_ascii(b, self.position + 1);
            }
        }
        let slice = self.input_slice(self.position, self.position + width);
        Token { kind, text: TokenText::Slice(slice), start: self.position }
    }

    /// Yields the token at the current position and moves past it; at the end
    /// of the pattern it yields `End` and stays there.
    pub fn next_token(&mut self) -> (t: Token<'source>)
        requires
            old(self).wf(),
        ensures
            final(self).wf(),
            final(self).source() == old(self).source(),
            final(self).pos() <= final(self).source().spec_bytes().len(),
            t.lexed_from(old(self).source().spec_bytes()),
            t.kind == TokenKind::End ==> t.text == TokenText::Empty,
            t.start == old(self).pos(),
            final(self).pos() == lex(old(self).source().spec_bytes(), old(self).pos() as int).end,
    {
        let ghost b = self.input.spec_bytes();
        let (t, end) = match self.ch() {
            Some(c) => {
                if c == 40 {
                    (self.char_token(TokenKind::Lparen, 1), self.position + 1)
                } else if c == 41 {
                    (self.char_token(TokenKind::Rparen, 1), self.position + 1)
                } else if c == 45 && self.if_peek(62) {
                    (self.char_token(TokenKind::Arrow, 2), self.position + 2)
                } else if c == 58 {
                    (self.char_token(TokenKind::Colon, 1), self.position + 1)
                } else if self.if_previous(58) {
                    let t = self.type_token();
                    (t, self.position + t.text.len())
                } else if self.if_previous(40) {
                    if digit_byte(c) {
                        let t = self.index_token();
                        (t, self.position + t.text.len())
                    } else {
                        let t = self.identifier_token();
                        (t, self.position + t.text.len())
                    }
                } else {
                    let t = self.literal();
                    (t, self.position + t.text.len())
                }
            },
            None => {
                assert(b.subrange(self.position as int, self.position as int) =~= Seq::<u8>::empty());
                (Token { kind: TokenKind::End, text: TokenText::Empty, start: self.position }, self.position)
            },
        };
        self.position = end;
        t
    }
}

} // verus!
