//! Turns a pattern into a match expression and a replacement expression.
use vstd::prelude::*;
use vstd::string::StringSliceAdditionalSpecFns;

use crate::error::{texts_view, ParseError, ParseErrorKind, SpecError};
use crate::lexer::{lemma_lex_advances, lemma_run_in_class, lex, ByteClass, Lexer, SpecToken, Token, TokenKind};
use crate::text::same_text;

verus! {

broadcast use vstd::seq::group_seq_axioms;

#[derive(Debug, PartialEq, Eq, Clone, Copy, Structural)]
pub enum CaptureType {
    /// One or more ASCII digits, as many as there are.
    Int,
    /// Exactly one ASCII digit.
    Digit,
}

/// One element of a match expression.
#[derive(Debug, PartialEq, Eq, Clone, Copy)]
pub enum AbstractMatchingExpression<'source> {
    Literal(&'source str),
    /// A capture with a name, or an unnamed one that the replacement
    /// refers to by its place among the unnamed captures.
    Capture { identifier: Option<&'source str>, identifier_type: CaptureType },
}

pub ghost enum MexItem {
    Literal(Seq<u8>),
    Capture(Option<Seq<u8>>, CaptureType),
}

impl<'source> View for AbstractMatchingExpression<'source> {
    type V = MexItem;

    open spec fn view(&self) -> MexItem {
        match self {
            AbstractMatchingExpression::Literal(s) => MexItem::Literal(s.spec_bytes()),
            AbstractMatchingExpression::Capture { identifier, identifier_type } => MexItem::Capture(
                match identifier {
                    Some(n) => Some(n.spec_bytes()),
                    None => None,
                },
                *identifier_type,
            ),
        }
    }
}

/// One element of a replacement expression.
#[derive(Debug, PartialEq, Eq, Clone, Copy)]
pub enum AbstractReplaceExpression<'source> {
    Literal(&'source str),
    /// The text of the capture of this name.
    Identifier(&'source str),
    /// The text of the n-th unnamed capture, counting from 1.
    CaptureIndex(usize),
}

pub ghost enum RexItem {
    Literal(Seq<u8>),
    Identifier(Seq<u8>),
    Index(int),
}

impl<'source> View for AbstractReplaceExpression<'source> {
    type V = RexItem;

    open spec fn view(&self) -> RexItem {
        match self {
            AbstractReplaceExpression::Literal(s) => RexItem::Literal(s.spec_bytes()),
            AbstractReplaceExpression::Identifier(s) => RexItem::Identifier(s.spec_bytes()),
            AbstractReplaceExpression::CaptureIndex(i) => RexItem::Index(*i as int),
        }
    }
}

#[derive(Debug, PartialEq, Eq)]
pub struct MatchExpression<'source> {
    pub expressions: Vec<AbstractMatchingExpression<'source>>,
}

#[derive(Debug, PartialEq, Eq)]
pub struct ReplaceExpression<'source> {
    pub expressions: Vec<AbstractReplaceExpression<'source>>,
}

#[derive(Debug, PartialEq, Eq)]
pub struct MatchAndReplaceExpression<'source> {
    pub mex: MatchExpression<'source>,
    pub rex: ReplaceExpression<'source>,
}

pub open spec fn mex_items(v: Seq<AbstractMatchingExpression>) -> Seq<MexItem> {
    v.map_values(|e: AbstractMatchingExpression| e@)
}

pub open spec fn rex_items(v: Seq<AbstractReplaceExpression>) -> Seq<RexItem> {
    v.map_values(|e: AbstractReplaceExpression| e@)
}

/// Every literal of a match program is non-empty.
pub open spec fn literals_non_empty(m: Seq<MexItem>) -> bool {
    forall|i: int|
        0 <= i < m.len() ==> match #[trigger] m[i] {
            MexItem::Literal(l) => l.len() > 0,
            _ => true,
        }
}

/// The names of the named captures, left to right.
pub open spec fn declared_names(m: Seq<MexItem>) -> Seq<Seq<u8>>
    decreases m.len(),
{
    if m.len() == 0 {
        Seq::empty()
    } else {
        let rest = declared_names(m.drop_last());
        match m.last() {
            MexItem::Capture(Some(n), _) => rest.push(n),
            _ => rest,
        }
    }
}

/// How many unnamed captures there are.
pub open spec fn ordinal_count(m: Seq<MexItem>) -> nat
    decreases m.len(),
{
    if m.len() == 0 {
        0
    } else {
        let rest = ordinal_count(m.drop_last());
        match m.last() {
            MexItem::Capture(None, _) => rest + 1,
            _ => rest,
        }
    }
}

/// Each reference of the replacement names a declared capture, or gives the
/// place of an unnamed one.
pub open spec fn references_resolve(m: Seq<MexItem>, r: Seq<RexItem>) -> bool {
    forall|i: int|
        0 <= i < r.len() ==> match #[trigger] r[i] {
            RexItem::Identifier(n) => declared_names(m).contains(n),
            RexItem::Index(k) => 1 <= k <= ordinal_count(m),
            RexItem::Literal(_) => true,
        }
}

impl<'source> MatchExpression<'source> {
    pub open spec fn items(&self) -> Seq<MexItem> {
        mex_items(self.expressions@)
    }

    pub open spec fn wf(&self) -> bool {
        literals_non_empty(self.items())
    }

    pub fn new(expressions: Vec<AbstractMatchingExpression<'source>>) -> (r: Self)
        ensures
            r.expressions == expressions,
    {
        Self { expressions }
    }

    pub fn get_expression(&self, idx: usize) -> (r: Option<AbstractMatchingExpression<'source>>)
        ensures
            idx < self.expressions@.len() ==> r == Some(self.expressions@[idx as int]),
            idx >= self.expressions@.len() ==> r.is_none(),
    {
        if idx < self.expressions.len() {
            Some(self.expressions[idx])
        } else {
            None
        }
    }
}

impl<'source> ReplaceExpression<'source> {
    pub open spec fn items(&self) -> Seq<RexItem> {
        rex_items(self.expressions@)
    }
}

impl<'source> MatchAndReplaceExpression<'source> {
    /// What parsing guarantees of a compiled pattern.
    pub open spec fn wf(&self) -> bool {
        &&& self.mex.wf()
        &&& references_resolve(self.mex.items(), self.rex.items())
    }
}

/* The grammar, over the lexer's tokens at byte positions of the pattern. */

pub open spec fn tok_text(b: Seq<u8>, t: SpecToken) -> Seq<u8> {
    b.subrange(t.start, t.end)
}

pub open spec fn expected_err(b: Seq<u8>, expected: TokenKind, t: SpecToken) -> SpecError {
    SpecError::Expected { expected, found: t.kind, text: tok_text(b, t), position: t.start }
}

pub open spec fn unsupported_err(b: Seq<u8>, t: SpecToken) -> SpecError {
    SpecError::Unsupported { kind: t.kind, text: tok_text(b, t), position: t.start }
}

/// The capture type a word names, if any: `int` or `dig`.
pub open spec fn type_named(s: Seq<u8>) -> Option<CaptureType> {
    if s == seq![105u8, 110u8, 116u8] {
        Some(CaptureType::Int)
    } else if s == seq![100u8, 105u8, 103u8] {
        Some(CaptureType::Digit)
    } else {
        None
    }
}

/// A capture whose first word starts at `q`, just after its `(`: either
/// `name:type)` or `type)`. On success, also where the capture ends.
pub open spec fn capture_spec(b: Seq<u8>, q: int) -> Result<(MexItem, int), SpecError> {
    let t2 = lex(b, q);
    let t3 = lex(b, t2.end);
    if t3.kind == TokenKind::Colon {
        let t4 = lex(b, t3.end);
        if t4.kind != TokenKind::Type {
            Err(expected_err(b, TokenKind::Type, t4))
        } else {
            match type_named(tok_text(b, t4)) {
                None => Err(unsupported_err(b, t4)),
                Some(ty) => {
                    let t5 = lex(b, t4.end);
                    if t5.kind != TokenKind::Rparen {
                        Err(expected_err(b, TokenKind::Rparen, t5))
                    } else {
                        Ok((MexItem::Capture(Some(tok_text(b, t2)), ty), t5.end))
                    }
                },
            }
        }
    } else if t3.kind == TokenKind::Rparen {
        match type_named(tok_text(b, t2)) {
            None => Err(unsupported_err(b, t2)),
            Some(ty) => Ok((MexItem::Capture(None, ty), t3.end)),
        }
    } else {
        Err(expected_err(b, TokenKind::Colon, t3))
    }
}

pub proof fn lemma_capture_advances(b: Seq<u8>, q: int)
    requires
        0 <= q,
    ensures
        capture_spec(b, q) matches Ok((_, e)) ==> q < e <= b.len(),
{
    let t2 = lex(b, q);
    lemma_lex_advances(b, q);
    lemma_lex_advances(b, t2.end);
    let t3 = lex(b, t2.end);
    lemma_lex_advances(b, t3.end);
    let t4 = lex(b, t3.end);
    lemma_lex_advances(b, t4.end);
}

pub open spec fn prepend_mex(
    acc: Seq<MexItem>,
    r: Result<(Seq<MexItem>, int), SpecError>,
) -> Result<(Seq<MexItem>, int), SpecError> {
    match r {
        Ok((s, q)) => Ok((acc + s, q)),
        Err(e) => Err(e),
    }
}

/// The match part from position `p` on, and where it ends: at the end of the
/// pattern, or just after `->`.
pub open spec fn mex_spec(b: Seq<u8>, p: int) -> Result<(Seq<MexItem>, int), SpecError>
    decreases b.len() - p,
{
    if p < 0 {
        Ok((Seq::empty(), p))
    } else {
        let t = lex(b, p);
        proof {
            lemma_lex_advances(b, p);
        }
        if t.kind == TokenKind::End {
            Ok((Seq::empty(), p))
        } else if t.kind == TokenKind::Literal {
            prepend_mex(seq![MexItem::Literal(tok_text(b, t))], mex_spec(b, t.end))
        } else if t.kind == TokenKind::Lparen {
            let t2 = lex(b, t.end);
            if t2.kind != TokenKind::Ident {
                Err(expected_err(b, TokenKind::Ident, t2))
            } else {
                proof {
                    lemma_capture_advances(b, t.end);
                }
                match capture_spec(b, t.end) {
                    Err(e) => Err(e),
                    Ok((item, q)) => prepend_mex(seq![item], mex_spec(b, q)),
                }
            }
        } else if t.kind == TokenKind::Arrow {
            let t2 = lex(b, t.end);
            if t2.kind == TokenKind::End {
                Err(
                    SpecError::Unexpected {
                        unexpected: TokenKind::End,
                        previous: TokenKind::Arrow,
                        position: t2.start,
                    },
                )
            } else {
                Ok((Seq::empty(), t.end))
            }
        } else {
            mex_spec(b, t.end)
        }
    }
}

/// The value of a run of ASCII digits.
pub open spec fn digits_value(s: Seq<u8>) -> nat
    decreases s.len(),
{
    if s.len() == 0 {
        0
    } else {
        digits_value(s.drop_last()) * 10 + (s.last() - 48) as nat
    }
}

pub open spec fn clamp_usize(v: nat) -> int {
    if v > usize::MAX {
        usize::MAX as int
    } else {
        v as int
    }
}

pub open spec fn prepend_rex(
    acc: Seq<RexItem>,
    r: Result<Seq<RexItem>, SpecError>,
) -> Result<Seq<RexItem>, SpecError> {
    match r {
        Ok(s) => Ok(acc + s),
        Err(e) => Err(e),
    }
}

/// The replacement part from position `p` on, given the names and the number
/// of unnamed captures that the match part declares.
pub open spec fn rex_spec(b: Seq<u8>, p: int, declared: Seq<Seq<u8>>, n: nat) -> Result<
    Seq<RexItem>,
    SpecError,
>
    decreases b.len() - p,
{
    if p < 0 {
        Ok(Seq::empty())
    } else {
        let t = lex(b, p);
        proof {
            lemma_lex_advances(b, p);
        }
        if t.kind == TokenKind::End {
            Ok(Seq::empty())
        } else if t.kind == TokenKind::Literal {
            prepend_rex(seq![RexItem::Literal(tok_text(b, t))], rex_spec(b, t.end, declared, n))
        } else if t.kind == TokenKind::Lparen {
            let t2 = lex(b, t.end);
            proof {
                lemma_lex_advances(b, t.end);
            }
            if t2.kind == TokenKind::Ident {
                let name = tok_text(b, t2);
                if declared.contains(name) {
                    prepend_rex(seq![RexItem::Identifier(name)], rex_spec(b, t2.end, declared, n))
                } else {
                    Err(SpecError::Undeclared { ident: name, declared, position: t2.start })
                }
            } else if t2.kind == TokenKind::CaptureIndex {
                let v = digits_value(tok_text(b, t2));
                if 1 <= v <= n {
                    prepend_rex(seq![RexItem::Index(v as int)], rex_spec(b, t2.end, declared, n))
                } else {
                    Err(
                        SpecError::OutOfBounds {
                            index: clamp_usize(v),
                            number_declared: n as int,
                            position: t2.start,
                        },
                    )
                }
            } else {
                Err(expected_err(b, TokenKind::Ident, t2))
            }
        } else {
            rex_spec(b, t.end, declared, n)
        }
    }
}

/// A whole pattern from position `p` on: the match part, then the replacement.
pub open spec fn parse_from(b: Seq<u8>, p: int) -> Result<(Seq<MexItem>, Seq<RexItem>), SpecError> {
    match mex_spec(b, p) {
        Err(e) => Err(e),
        Ok((m, q)) => match rex_spec(b, q, declared_names(m), ordinal_count(m)) {
            Err(e) => Err(e),
            Ok(r) => Ok((m, r)),
        },
    }
}


/// The capture type that `text` names.
fn type_of(text: &str) -> (r: Option<CaptureType>)
    ensures
        r == type_named(text.spec_bytes()),
{
    let t = text.as_bytes();
    if t.len() == 3 && t[0] == 105 && t[1] == 110 && t[2] == 116 {
        assert(t@ =~= seq![105u8, 110u8, 116u8]);
        Some(CaptureType::Int)
    } else if t.len() == 3 && t[0] == 100 && t[1] == 105 && t[2] == 103 {
        assert(t@ =~= seq![100u8, 105u8, 103u8]);
        assert(t@ != seq![105u8, 110u8, 116u8]);
        Some(CaptureType::Digit)
    } else {
        proof {
            if t@ == seq![105u8, 110u8, 116u8] {
                assert(t@[0] == 105);
            }
            if t@ == seq![100u8, 105u8, 103u8] {
                assert(t@[0] == 100);
            }
        }
        None
    }
}

/// The value of a run of digits, if it fits in `usize`.
fn index_value(text: &str) -> (r: Option<usize>)
    requires
        forall|i: int|
            0 <= i < text.spec_bytes().len() ==> 48 <= #[trigger] text.spec_bytes()[i] <= 57,
    ensures
        r == (if digits_value(text.spec_bytes()) <= usize::MAX {
            Some(digits_value(text.spec_bytes()) as usize)
        } else {
            None
        }),
{
    let t = text.as_bytes();
    let mut v: usize = 0;
    let mut over = false;
    let mut i: usize = 0;
    while i < t.len()
        invariant
            t@ == text.spec_bytes(),
            i <= t@.len(),
            !over ==> v == digits_value(t@.subrange(0, i as int)),
            over ==> digits_value(t@.subrange(0, i as int)) > usize::MAX,
            forall|j: int| 0 <= j < t@.len() ==> 48 <= #[trigger] t@[j] <= 57,
        decreases t@.len() - i,
    {
        let d = t[i] - 48;
        let ghost prev = digits_value(t@.subrange(0, i as int));
        assert(t@.subrange(0, i + 1).drop_last() =~= t@.subrange(0, i as int));
        assert(digits_value(t@.subrange(0, i + 1)) == prev * 10 + d as nat);
        if !over {
            let next: u128 = v as u128 * 10 + d as u128;
            if next > usize::MAX as u128 {
                over = true;
            } else {
                v = next as usize;
            }
        } else {
            assert(prev * 10 + d >= prev) by (nonlinear_arith);
        }
        i = i + 1;
    }
    assert(t@.subrange(0, i as int) =~= t@);
    if over {
        None
    } else {
        Some(v)
    }
}

pub struct Parser<'source> {
    lexer: Lexer<'source>,
    peeked: Option<Token<'source>>,
}

impl<'source> Parser<'source> {
    pub closed spec fn source(&self) -> &'source str {
        self.lexer.source()
    }

    /// Where the next token starts.
    pub closed spec fn cursor(&self) -> int {
        match self.peeked {
            Some(t) => t.start as int,
            None => self.lexer.pos() as int,
        }
    }

    pub closed spec fn wf(&self) -> bool {
        &&& self.lexer.wf()
        &&& self.lexer.pos() <= self.lexer.source().spec_bytes().len()
        &&& match self.peeked {
            Some(t) => {
                &&& t.start <= self.lexer.source().spec_bytes().len()
                &&& t.lexed_from(self.lexer.source().spec_bytes())
                &&& self.lexer.pos() == lex(self.lexer.source().spec_bytes(), t.start as int).end
            },
            None => true,
        }
    }

    proof fn lemma_cursor_bound(&self)
        requires
            self.wf(),
        ensures
            0 <= self.cursor() <= self.source().spec_bytes().len(),
    {
    }

    pub fn new(lexer: Lexer<'source>) -> (r: Self)
        requires
            lexer.wf(),
            lexer.pos() <= lexer.source().spec_bytes().len(),
        ensures
            r.wf(),
            r.source() == lexer.source(),
            r.cursor() == lexer.pos(),
    {
        Self { lexer, peeked: None }
    }

    fn token(&mut self) -> (t: Token<'source>)
        requires
            old(self).wf(),
        ensures
            final(self).wf(),
            final(self).source() == old(self).source(),
            t.lexed_from(old(self).source().spec_bytes()),
            t.start == old(self).cursor(),
            final(self).cursor() == lex(old(self).source().spec_bytes(), old(self).cursor()).end,
    {
        let p = self.peeked;
        self.peeked = None;
        match p {
            Some(t) => t,
            None => self.lexer.next_token(),
        }
    }

    fn peek_token(&mut self) -> (t: Token<'source>)
        requires
            old(self).wf(),
        ensures
            final(self).wf(),
            final(self).source() == old(self).source(),
            t.lexed_from(old(self).source().spec_bytes()),
            t.start == old(self).cursor(),
            final(self).cursor() == old(self).cursor(),
    {
        match self.peeked {
            Some(t) => t,
            None => {
                let t = self.lexer.next_token();
                self.peeked = Some(t);
                t
            },
        }
    }

    fn eat_token(&mut self)
        requires
            old(self).wf(),
        ensures
            final(self).wf(),
            final(self).source() == old(self).source(),
            final(self).cursor() == lex(old(self).source().spec_bytes(), old(self).cursor()).end,
    {
        self.token();
    }

    fn error(&self, kind: ParseErrorKind<'source>) -> (e: ParseError<'source>)
        ensures
            e.input == self.source(),
            e.kind == kind,
    {
        ParseError { input: self.lexer.input(), kind }
    }

    /// Succeeds where the next token is of kind `token_kind`; consumes nothing.
    fn expect(&mut self, token_kind: TokenKind) -> (r: Result<(), ParseError<'source>>)
        requires
            old(self).wf(),
        ensures
            final(self).wf(),
            final(self).source() == old(self).source(),
            final(self).cursor() == old(self).cursor(),
            r.is_ok() == (lex(old(self).source().spec_bytes(), old(self).cursor()).kind
                == token_kind),
            r matches Err(e) ==> e.input == old(self).source() && e.kind@ == expected_err(
                old(self).source().spec_bytes(),
                token_kind,
                lex(old(self).source().spec_bytes(), old(self).cursor()),
            ),
    {
        let t = self.peek_token();
        if t.kind == token_kind {
            return Ok(());
        }
        Err(
            self.error(
                ParseErrorKind::ExpectedToken {
                    expected: token_kind,
                    found: t.kind,
                    text: t.text.as_str(),
                    position: t.start,
                },
            ),
        )
    }

    /// Fails where the next token is of kind `token_kind`, which may not
    /// follow a token of kind `current`; consumes nothing.
    fn expect_not(&mut self, token_kind: TokenKind, current: TokenKind) -> (r: Result<
        (),
        ParseError<'source>,
    >)
        requires
            old(self).wf(),
        ensures
            final(self).wf(),
            final(self).source() == old(self).source(),
            final(self).cursor() == old(self).cursor(),
            r.is_ok() == (lex(old(self).source().spec_bytes(), old(self).cursor()).kind
                != token_kind),
            r matches Err(e) ==> e.input == old(self).source() && e.kind@ == (SpecError::Unexpected {
                unexpected: token_kind,
                previous: current,
                position: old(self).cursor(),
            }),
    {
        let t = self.peek_token();
        proof {
            lemma_lex_advances(self.source().spec_bytes(), old(self).cursor());
        }
        if t.kind == token_kind {
            return Err(
                self.error(
                    ParseErrorKind::UnexpectedToken {
                        unexpected: token_kind,
                        previous: current,
                        position: t.start,
                    },
                ),
            );
        }
        Ok(())
    }

    /// The rest of a capture, once its first word `ident` has been read.
    fn parse_capture(&mut self, ident: Token<'source>) -> (r: Result<
        AbstractMatchingExpression<'source>,
        ParseError<'source>,
    >)
        requires
            old(self).wf(),
            ident.lexed_from(old(self).source().spec_bytes()),
            old(self).cursor() == lex(old(self).source().spec_bytes(), ident.start as int).end,
        ensures
            final(self).wf(),
            final(self).source() == old(self).source(),
            match r {
                Ok(item) => capture_spec(old(self).source().spec_bytes(), ident.start as int)
                    == Ok::<(MexItem, int), SpecError>((item@, final(self).cursor())),
                Err(e) => e.input == old(self).source() && capture_spec(
                    old(self).source().spec_bytes(),
                    ident.start as int,
                ) == Err::<(MexItem, int), SpecError>(e.kind@),
            },
    {
        let ghost b = self.source().spec_bytes();
        proof {
            lemma_lex_advances(b, ident.start as int);
            lemma_lex_advances(b, self.cursor());
        }
        let next = self.peek_token();
        if next.kind == TokenKind::Colon {
            self.eat_token();
            self.expect(TokenKind::Type)?;
            let ty_tok = self.token();
            let ty = match type_of(ty_tok.text.as_str()) {
                Some(ty) => ty,
                None => {
                    return Err(self.error(ParseErrorKind::UnsupportedToken(ty_tok)));
                },
            };
            self.expect(TokenKind::Rparen)?;
            self.eat_token();
            Ok(
                AbstractMatchingExpression::Capture {
                    identifier: Some(ident.text.as_str()),
                    identifier_type: ty,
                },
            )
        } else if next.kind == TokenKind::Rparen {
            match type_of(ident.text.as_str()) {
                Some(ty) => {
                    self.eat_token();
                    Ok(AbstractMatchingExpression::Capture { identifier: None, identifier_type: ty })
                },
                None => Err(self.error(ParseErrorKind::UnsupportedToken(ident))),
            }
        } else {
            Err(
                self.error(
                    ParseErrorKind::ExpectedToken {
                        expected: TokenKind::Colon,
                        found: next.kind,
                        text: next.text.as_str(),
                        position: next.start,
                    },
                ),
            )
        }
    }

    /// The match part, up to the end of the pattern or just past `->`.
    pub fn parse_match_exp(&mut self) -> (r: Result<MatchExpression<'source>, ParseError<'source>>)
        requires
            old(self).wf(),
        ensures
            final(self).wf(),
            final(self).source() == old(self).source(),
            match r {
                Ok(m) => {
                    &&& mex_spec(old(self).source().spec_bytes(), old(self).cursor()) == Ok::<
                        (Seq<MexItem>, int),
                        SpecError,
                    >((m.items(), final(self).cursor()))
                    &&& m.wf()
                },
                Err(e) => e.input == old(self).source() && mex_spec(
                    old(self).source().spec_bytes(),
                    old(self).cursor(),
                ) == Err::<(Seq<MexItem>, int), SpecError>(e.kind@),
            },
    {
        let ghost b = self.source().spec_bytes();
        let ghost first = self.cursor();
        let mut expressions: Vec<AbstractMatchingExpression<'source>> = Vec::new();
        proof {
            self.lemma_cursor_bound();
            assert(mex_items(expressions@) =~= Seq::<MexItem>::empty());
            lemma_prepend_mex_empty(mex_spec(b, first));
        }
        loop
            invariant
                self.wf(),
                self.source() == old(self).source(),
                b == self.source().spec_bytes(),
                first == old(self).cursor(),
                0 <= self.cursor() <= b.len(),
                mex_spec(b, first) == prepend_mex(mex_items(expressions@), mex_spec(b, self.cursor())),
                literals_non_empty(mex_items(expressions@)),
            decreases b.len() - self.cursor(),
        {
            let ghost cur = self.cursor();
            let token = self.token();
            proof {
                lemma_lex_advances(b, cur);
            }
            if token.kind == TokenKind::End {
                let m = MatchExpression::new(expressions);
                proof {

                    lemma_prepend_mex_ok(mex_items(m.expressions@), Seq::empty(), cur);
                }
                return Ok(m);
            } else if token.kind == TokenKind::Literal {
                let item = AbstractMatchingExpression::Literal(token.text.as_str());
                proof {
                    lemma_prepend_mex_push(mex_items(expressions@), item@, mex_spec(b, self.cursor()));
                    assert(mex_items(expressions@.push(item)) =~= mex_items(expressions@).push(item@));
                }
                expressions.push(item);
            } else if token.kind == TokenKind::Lparen {
                self.expect(TokenKind::Ident)?;
                let ident = self.token();
                let item = self.parse_capture(ident)?;
                proof {
                    lemma_capture_advances(b, ident.start as int);
                    lemma_prepend_mex_push(mex_items(expressions@), item@, mex_spec(b, self.cursor()));
                    assert(mex_items(expressions@.push(item)) =~= mex_items(expressions@).push(item@));
                }
                expressions.push(item);
            } else if token.kind == TokenKind::Arrow {
                proof {
                    lemma_lex_advances(b, self.cursor());
                }
                self.expect_not(TokenKind::End, TokenKind::Arrow)?;
                let m = MatchExpression::new(expressions);
                proof {
                    lemma_prepend_mex_ok(mex_items(m.expressions@), Seq::empty(), self.cursor());
                }
                return Ok(m);
            }
        }
    }

    /// The replacement part, up to the end of the pattern, given the names and
    /// the number of unnamed captures that the match part declares.
    pub fn parse_replacement_exp(
        &mut self,
        declared_idents: Vec<&'source str>,
        ordinals: usize,
    ) -> (r: Result<ReplaceExpression<'source>, ParseError<'source>>)
        requires
            old(self).wf(),
        ensures
            final(self).wf(),
            final(self).source() == old(self).source(),
            match r {
                Ok(x) => rex_spec(
                    old(self).source().spec_bytes(),
                    old(self).cursor(),
                    texts_view(declared_idents@),
                    ordinals as nat,
                ) == Ok::<Seq<RexItem>, SpecError>(x.items()),
                Err(e) => e.input == old(self).source() && rex_spec(
                    old(self).source().spec_bytes(),
                    old(self).cursor(),
                    texts_view(declared_idents@),
                    ordinals as nat,
                ) == Err::<Seq<RexItem>, SpecError>(e.kind@),
            },
    {
        let ghost b = self.source().spec_bytes();
        let ghost first = self.cursor();
        let ghost d = texts_view(declared_idents@);
        let ghost n = ordinals as nat;
        let mut expressions: Vec<AbstractReplaceExpression<'source>> = Vec::new();
        proof {
            self.lemma_cursor_bound();
            assert(rex_items(expressions@) =~= Seq::<RexItem>::empty());
            lemma_prepend_rex_empty(rex_spec(b, first, d, n));
        }
        loop
            invariant
                self.wf(),
                self.source() == old(self).source(),
                b == self.source().spec_bytes(),
                first == old(self).cursor(),
                d == texts_view(declared_idents@),
                n == ordinals as nat,
                0 <= self.cursor() <= b.len(),
                rex_spec(b, first, d, n) == prepend_rex(
                    rex_items(expressions@),
                    rex_spec(b, self.cursor(), d, n),
                ),
            decreases b.len() - self.cursor(),
        {
            let ghost cur = self.cursor();
            let token = self.token();
            proof {
                lemma_lex_advances(b, cur);
            }
            if token.kind == TokenKind::End {
                let x = ReplaceExpression { expressions };
                proof {
                    assert(rex_items(x.expressions@) + Seq::<RexItem>::empty() =~= rex_items(
                        x.expressions@,
                    ));
                }
                return Ok(x);
            } else if token.kind == TokenKind::Literal {
                let item = AbstractReplaceExpression::Literal(token.text.as_str());
                proof {
                    lemma_prepend_rex_push(rex_items(expressions@), item@, rex_spec(b, self.cursor(), d, n));
                    assert(rex_items(expressions@.push(item)) =~= rex_items(expressions@).push(item@));
                }
                expressions.push(item);
            } else if token.kind == TokenKind::Lparen {
                let ghost cur2 = self.cursor();
                let next = self.token();
                proof {
                    lemma_lex_advances(b, cur2);
                }
                if next.kind == TokenKind::Ident {
                    if !declares(&declared_idents, next.text.as_str()) {
                        return Err(
                            self.error(
                                ParseErrorKind::UndeclaredIdentifier {
                                    ident: next.text.as_str(),
                                    declared: declared_idents,
                                    position: next.start,
                                },
                            ),
                        );
                    }
                    let item = AbstractReplaceExpression::Identifier(next.text.as_str());
                    proof {
                        lemma_prepend_rex_push(rex_items(expressions@), item@, rex_spec(b, self.cursor(), d, n));
                        assert(rex_items(expressions@.push(item)) =~= rex_items(expressions@).push(item@));
                    }
                    expressions.push(item);
                } else if next.kind == TokenKind::CaptureIndex {
                    proof {
                        lemma_run_in_class(b, cur2 + 1, ByteClass::Digit);
                        assert forall|i: int|
                            0 <= i < next.text.bytes().len() implies 48 <= #[trigger] next.text.bytes()[i]
                            <= 57 by {
                            if i > 0 {
                                assert(next.text.bytes()[i] == b[cur2 + i]);
                                assert(crate::lexer::in_class(b, cur2 + i, ByteClass::Digit));
                            }
                        }
                    }
                    let found = index_value(next.text.as_str());
                    let (v, in_bounds) = match found {
                        Some(v) => (v, 1 <= v && v <= ordinals),
                        None => (usize::MAX, false),
                    };
                    if !in_bounds {
                        return Err(
                            self.error(
                                ParseErrorKind::OutOfBoundsCaptureIndex {
                                    index: v,
                                    number_declared: ordinals,
                                    position: next.start,
                                },
                            ),
                        );
                    }
                    let item = AbstractReplaceExpression::CaptureIndex(v);
                    proof {
                        lemma_prepend_rex_push(rex_items(expressions@), item@, rex_spec(b, self.cursor(), d, n));
                        assert(rex_items(expressions@.push(item)) =~= rex_items(expressions@).push(item@));
                    }
                    expressions.push(item);
                } else {
                    return Err(
                        self.error(
                            ParseErrorKind::ExpectedToken {
                                expected: TokenKind::Ident,
                                found: next.kind,
                                text: next.text.as_str(),
                                position: next.start,
                            },
                        ),
                    );
                }
            }
        }
    }

    /// A whole pattern: the match part, then the replacement, whose names and
    /// indices must refer to captures of the match part.
    pub fn parse(&mut self) -> (r: Result<MatchAndReplaceExpression<'source>, ParseError<'source>>)
        requires
            old(self).wf(),
        ensures
            final(self).wf(),
            final(self).source() == old(self).source(),
            match r {
                Ok(x) => {
                    &&& parse_from(old(self).source().spec_bytes(), old(self).cursor()) == Ok::<
                        (Seq<MexItem>, Seq<RexItem>),
                        SpecError,
                    >((x.mex.items(), x.rex.items()))
                    &&& x.wf()
                },
                Err(e) => e.input == old(self).source() && parse_from(
                    old(self).source().spec_bytes(),
                    old(self).cursor(),
                ) == Err::<(Seq<MexItem>, Seq<RexItem>), SpecError>(e.kind@),
            },
    {
        let ghost b = self.source().spec_bytes();
        let mex = self.parse_match_exp()?;
        let ghost m = mex.items();
        let mut declared: Vec<&'source str> = Vec::new();
        let mut ordinals: usize = 0;
        let mut i: usize = 0;
        proof {
            assert(m.take(0) =~= Seq::<MexItem>::empty());
            assert(texts_view(declared@) =~= Seq::<Seq<u8>>::empty());
        }
        while i < mex.expressions.len()
            invariant
                m == mex.items(),
                i <= mex.expressions@.len(),
                ordinals <= i,
                texts_view(declared@) == declared_names(m.take(i as int)),
                ordinals == ordinal_count(m.take(i as int)),
            decreases mex.expressions@.len() - i,
        {
            proof {
                assert(m.take(i + 1).drop_last() =~= m.take(i as int));
                assert(m.take(i + 1).last() == mex.expressions@[i as int]@);
            }
            match mex.expressions[i] {
                AbstractMatchingExpression::Capture { identifier: Some(name), .. } => {
                    proof {
                        assert(texts_view(declared@.push(name)) =~= texts_view(declared@).push(
                            name.spec_bytes(),
                        ));
                    }
                    declared.push(name);
                },
                AbstractMatchingExpression::Capture { identifier: None, .. } => {
                    ordinals = ordinals + 1;
                },
                _ => {},
            }
            i = i + 1;
        }
        proof {
            assert(m.take(i as int) =~= m);
        }
        let ghost q = self.cursor();
        let rex = self.parse_replacement_exp(declared, ordinals)?;
        proof {
            lemma_rex_resolves(b, q, declared_names(m), ordinal_count(m));
        }
        Ok(MatchAndReplaceExpression { mex, rex })
    }
}

/// Whether `name` is among `declared`.
fn declares(declared: &Vec<&str>, name: &str) -> (r: bool)
    ensures
        r == texts_view(declared@).contains(name.spec_bytes()),
{
    let mut i: usize = 0;
    while i < declared.len()
        invariant
            i <= declared@.len(),
            forall|j: int| 0 <= j < i ==> declared@[j].spec_bytes() != name.spec_bytes(),
        decreases declared@.len() - i,
    {
        if same_text(declared[i], name) {
            assert(texts_view(declared@)[i as int] == name.spec_bytes());
            return true;
        }
        i = i + 1;
    }
    proof {
        if texts_view(declared@).contains(name.spec_bytes()) {
            let j = choose|j: int|
                0 <= j < texts_view(declared@).len() && texts_view(declared@)[j]
                    == name.spec_bytes();
            assert(declared@[j].spec_bytes() == name.spec_bytes());
        }
    }
    false
}

proof fn lemma_prepend_mex_empty(x: Result<(Seq<MexItem>, int), SpecError>)
    ensures
        prepend_mex(Seq::empty(), x) == x,
{
    if let Ok((s, q)) = x {
        assert(Seq::<MexItem>::empty() + s =~= s);
    }
}

proof fn lemma_prepend_mex_ok(acc: Seq<MexItem>, s: Seq<MexItem>, q: int)
    requires
        s.len() == 0,
    ensures
        prepend_mex(acc, Ok((s, q))) == Ok::<(Seq<MexItem>, int), SpecError>((acc, q)),
{
    assert(acc + s =~= acc);
}

proof fn lemma_prepend_mex_push(
    acc: Seq<MexItem>,
    item: MexItem,
    x: Result<(Seq<MexItem>, int), SpecError>,
)
    ensures
        prepend_mex(acc, prepend_mex(seq![item], x)) == prepend_mex(acc.push(item), x),
{
    if let Ok((s, q)) = x {
        assert(acc + (seq![item] + s) =~= acc.push(item) + s);
    }
}

proof fn lemma_prepend_rex_empty(x: Result<Seq<RexItem>, SpecError>)
    ensures
        prepend_rex(Seq::empty(), x) == x,
{
    if let Ok(s) = x {
        assert(Seq::<RexItem>::empty() + s =~= s);
    }
}

proof fn lemma_prepend_rex_push(acc: Seq<RexItem>, item: RexItem, x: Result<Seq<RexItem>, SpecError>)
    ensures
        prepend_rex(acc, prepend_rex(seq![item], x)) == prepend_rex(acc.push(item), x),
{
    if let Ok(s) = x {
        assert(acc + (seq![item] + s) =~= acc.push(item) + s);
    }
}

/// Compiles a pattern of the form `match->replacement`.
pub fn compile<'s>(pattern: &'s str) -> (r: Result<MatchAndReplaceExpression<'s>, ParseError<'s>>)
    ensures
        match r {
            Ok(x) => {
                &&& parse_from(pattern.spec_bytes(), 0) == Ok::<
                    (Seq<MexItem>, Seq<RexItem>),
                    SpecError,
                >((x.mex.items(), x.rex.items()))
                &&& x.wf()
            },
            Err(e) => e.input == pattern && parse_from(pattern.spec_bytes(), 0) == Err::<
                (Seq<MexItem>, Seq<RexItem>),
                SpecError,
            >(e.kind@),
        },
{
    let mut p = Parser::new(Lexer::new(pattern));
    p.parse()
}

/// Compiles the match part of a pattern, ignoring what follows `->`.
pub fn compile_match<'s>(pattern: &'s str) -> (r: Result<MatchExpression<'s>, ParseError<'s>>)
    ensures
        match r {
            Ok(m) => {
                &&& mex_spec(pattern.spec_bytes(), 0) matches Ok((items, _))
                &&& items == m.items()
                &&& m.wf()
            },
            Err(e) => e.input == pattern && mex_spec(pattern.spec_bytes(), 0) == Err::<
                (Seq<MexItem>, int),
                SpecError,
            >(e.kind@),
        },
{
    let mut p = Parser::new(Lexer::new(pattern));
    p.parse_match_exp()
}


/// The element is a capture named `n`.
pub open spec fn named_capture_of(item: MexItem, n: Seq<u8>) -> bool {
    match item {
        MexItem::Capture(Some(x), _) => x == n,
        _ => false,
    }
}

/// The element is an unnamed capture.
pub open spec fn unnamed_capture(item: MexItem) -> bool {
    match item {
        MexItem::Capture(None, _) => true,
        _ => false,
    }
}

/// A declared name belongs to some named capture of the program.
pub proof fn lemma_declared_name_witness(m: Seq<MexItem>, n: Seq<u8>)
    requires
        declared_names(m).contains(n),
    ensures
        exists|k: int| 0 <= k < m.len() && named_capture_of(#[trigger] m[k], n),
    decreases m.len(),
{
    let rest = m.drop_last();
    if declared_names(rest).contains(n) {
        lemma_declared_name_witness(rest, n);
        let k = choose|k: int| 0 <= k < rest.len() && named_capture_of(#[trigger] rest[k], n);
        assert(m[k] == rest[k]);
    } else {
        let j = choose|j: int| 0 <= j < declared_names(m).len() && declared_names(m)[j] == n;
        if let MexItem::Capture(Some(x), _) = m.last() {
            assert(declared_names(m) == declared_names(rest).push(x));
            if j < declared_names(rest).len() {
                assert(declared_names(rest)[j] == n);
            }
            assert(m[m.len() - 1] == m.last());
        } else {
            assert(declared_names(m) == declared_names(rest));
        }
    }
}

/// The `i`-th unnamed capture, for `1 <= i <= ordinal_count(m)`, is some
/// element of the program with `i - 1` unnamed captures before it.
pub proof fn lemma_ordinal_witness(m: Seq<MexItem>, i: int)
    requires
        1 <= i <= ordinal_count(m),
    ensures
        exists|k: int|
            0 <= k < m.len() && unnamed_capture(#[trigger] m[k])
                && ordinal_count(m.take(k)) + 1 == i,
    decreases m.len(),
{
    let rest = m.drop_last();
    if i <= ordinal_count(rest) {
        lemma_ordinal_witness(rest, i);
        let k = choose|k: int|
            0 <= k < rest.len() && unnamed_capture(#[trigger] rest[k])
                && ordinal_count(rest.take(k)) + 1 == i;
        assert(m[k] == rest[k]);
        assert(m.take(k) =~= rest.take(k));
    } else {
        let k = m.len() - 1;
        assert(m.take(k) =~= rest);
        assert(m[k] == m.last());
    }
}

/// Every reference in a parsed replacement resolves.
pub proof fn lemma_rex_resolves(b: Seq<u8>, p: int, declared: Seq<Seq<u8>>, n: nat)
    ensures
        rex_spec(b, p, declared, n) matches Ok(r) ==> forall|i: int|
            0 <= i < r.len() ==> match #[trigger] r[i] {
                RexItem::Identifier(x) => declared.contains(x),
                RexItem::Index(k) => 1 <= k <= n,
                RexItem::Literal(_) => true,
            },
    decreases b.len() - p,
{
    if p >= 0 {
        let t = lex(b, p);
        lemma_lex_advances(b, p);
        if t.kind == TokenKind::End {
        } else if t.kind == TokenKind::Literal {
            lemma_rex_resolves(b, t.end, declared, n);
        } else if t.kind == TokenKind::Lparen {
            let t2 = lex(b, t.end);
            lemma_lex_advances(b, t.end);
            lemma_rex_resolves(b, t2.end, declared, n);
        } else {
            lemma_rex_resolves(b, t.end, declared, n);
        }
    }
}

/// For every pattern that parses, every name and every index in its
/// replacement refers to a capture that its match part declares.
pub proof fn lemma_parsed_references_resolve(b: Seq<u8>)
    ensures
        parse_from(b, 0) matches Ok((m, r)) ==> references_resolve(m, r),
{
    if let Ok((m, q)) = mex_spec(b, 0) {
        lemma_rex_resolves(b, q, declared_names(m), ordinal_count(m));
    }
}

} // verus!
