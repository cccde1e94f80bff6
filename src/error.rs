//! What goes wrong when a pattern does not parse.
use vstd::prelude::*;
use vstd::string::StringSliceAdditionalSpecFns;

use crate::lexer::{Token, TokenKind};

verus! {

#[derive(Debug, PartialEq, Eq, Clone)]
pub enum ParseErrorKind<'t> {
    /// The parser needed a token of kind `expected` and found another.
    ExpectedToken { expected: TokenKind, found: TokenKind, text: &'t str, position: usize },
    /// A well-formed token that names something the language lacks, such as
    /// a capture type other than `int` and `dig`.
    UnsupportedToken(Token<'t>),
    /// A token that may not follow the one before it.
    UnexpectedToken { unexpected: TokenKind, previous: TokenKind, position: usize },
    /// The replacement names a capture that the match part never declares.
    UndeclaredIdentifier { ident: &'t str, declared: Vec<&'t str>, position: usize },
    /// The replacement refers to an unnamed capture beyond those declared;
    /// an index too large for `usize` is reported as `usize::MAX`.
    OutOfBoundsCaptureIndex { index: usize, number_declared: usize, position: usize },
}

/// The meaning of a `ParseErrorKind`, with every text as its bytes.
pub ghost enum SpecError {
    Expected { expected: TokenKind, found: TokenKind, text: Seq<u8>, position: int },
    Unsupported { kind: TokenKind, text: Seq<u8>, position: int },
    Unexpected { unexpected: TokenKind, previous: TokenKind, position: int },
    Undeclared { ident: Seq<u8>, declared: Seq<Seq<u8>>, position: int },
    OutOfBounds { index: int, number_declared: int, position: int },
}

pub open spec fn texts_view(v: Seq<&str>) -> Seq<Seq<u8>> {
    v.map_values(|s: &str| s.spec_bytes())
}

impl<'t> View for ParseErrorKind<'t> {
    type V = SpecError;

    open spec fn view(&self) -> SpecError {
        match self {
            ParseErrorKind::ExpectedToken { expected, found, text, position } => SpecError::Expected {
                expected: *expected,
                found: *found,
                text: text.spec_bytes(),
                position: *position as int,
            },
            ParseErrorKind::UnsupportedToken(t) => SpecError::Unsupported {
                kind: t.kind,
                text: t.text.bytes(),
                position: t.start as int,
            },
            ParseErrorKind::UnexpectedToken { unexpected, previous, position } => SpecError::Unexpected {
                unexpected: *unexpected,
                previous: *previous,
                position: *position as int,
            },
            ParseErrorKind::UndeclaredIdentifier { ident, declared, position } => SpecError::Undeclared {
                ident: ident.spec_bytes(),
                declared: texts_view(declared@),
                position: *position as int,
            },
            ParseErrorKind::OutOfBoundsCaptureIndex { index, number_declared, position } => SpecError::OutOfBounds {
                index: *index as int,
                number_declared: *number_declared as int,
                position: *position as int,
            },
        }
    }
}

pub open spec fn spec_position(e: SpecError) -> int {
    match e {
        SpecError::Expected { position, .. } => position,
        SpecError::Unsupported { position, .. } => position,
        SpecError::Unexpected { position, .. } => position,
        SpecError::Undeclared { position, .. } => position,
        SpecError::OutOfBounds { position, .. } => position,
    }
}

/// A failed parse: the pattern and what went wrong in it.
#[derive(Debug, PartialEq, Eq, Clone)]
pub struct ParseError<'t> {
    pub input: &'t str,
    pub kind: ParseErrorKind<'t>,
}

pub open spec fn spec_description(k: TokenKind) -> &'static str {
    match k {
        TokenKind::Literal => "literal",
        TokenKind::Type => "type keyword",
        TokenKind::Ident => "identifier",
        TokenKind::CaptureIndex => "capture index",
        TokenKind::Arrow => "pattern separator",
        TokenKind::End => "end of expression",
        _ => "special character",
    }
}

impl TokenKind {
    /// How a diagnostic names this kind of token.
    pub fn description(&self) -> (r: &'static str)
        ensures
            r == spec_description(*self),
    {
        match self {
            TokenKind::Literal => "literal",
            TokenKind::Type => "type keyword",
            TokenKind::Ident => "identifier",
            TokenKind::CaptureIndex => "capture index",
            TokenKind::Arrow => "pattern separator",
            TokenKind::End => "end of expression",
            _ => "special character",
        }
    }
}

impl<'t> ParseError<'t> {
    /// The byte offset in the pattern that the error points at.
    pub fn error_location(&self) -> (r: usize)
        ensures
            r == spec_position(self.kind@),
    {
        match &self.kind {
            ParseErrorKind::UnsupportedToken(t) => t.start,
            ParseErrorKind::ExpectedToken { position, .. } => *position,
            ParseErrorKind::UnexpectedToken { position, .. } => *position,
            ParseErrorKind::UndeclaredIdentifier { position, .. } => *position,
            ParseErrorKind::OutOfBoundsCaptureIndex { position, .. } => *position,
        }
    }
}


/// How a piece of a diagnostic is shown.
#[derive(Debug, PartialEq, Eq, Clone, Copy, Structural)]
pub enum Style {
    Plain,
    /// The pattern itself.
    Source,
    /// The marker that points at the column.
    Pointer,
    /// The column number.
    Column,
    /// What the parser wanted.
    Expected,
    /// What the parser found.
    Found,
    /// A piece of the pattern and the double quotes around it.
    Quoted,
    /// The name of a capture type.
    TypeName,
}

#[derive(Debug, PartialEq, Eq, Clone, Copy)]
pub enum Piece<'t> {
    Text(&'t str),
    Number(usize),
    /// This many spaces.
    Spaces(usize),
}

/// A piece of a diagnostic and how to show it.
#[derive(Debug, PartialEq, Eq, Clone, Copy)]
pub struct Segment<'t> {
    pub style: Style,
    pub piece: Piece<'t>,
}

pub open spec fn text_seg<'t>(style: Style, text: &'t str) -> Segment<'t> {
    Segment { style, piece: Piece::Text(text) }
}

/// The declared names, separated by commas.
pub open spec fn names_spec<'t>(names: Seq<&'t str>) -> Seq<Segment<'t>>
    decreases names.len(),
{
    if names.len() == 0 {
        Seq::empty()
    } else {
        let rest = names_spec(names.drop_last());
        let sep = if names.len() > 1 {
            seq![text_seg(Style::Plain, ", ")]
        } else {
            Seq::empty()
        };
        rest + sep + seq![text_seg(Style::Expected, names.last())]
    }
}

/// What a diagnostic says about an error of this kind. Every unsupported
/// token stands where a capture type is wanted, so the supported types
/// follow it.
pub open spec fn message_spec<'t>(kind: ParseErrorKind<'t>) -> Seq<Segment<'t>> {
    match kind {
        ParseErrorKind::ExpectedToken { expected, found, text, .. } => seq![
            text_seg(Style::Plain, "expected "),
            text_seg(Style::Expected, spec_description(expected)),
            text_seg(Style::Plain, ", but found a "),
            text_seg(Style::Found, spec_description(found)),
            text_seg(Style::Plain, ", "),
            text_seg(Style::Quoted, "\""),
            text_seg(Style::Quoted, text),
            text_seg(Style::Quoted, "\""),
        ],
        ParseErrorKind::UnsupportedToken(t) => seq![
            text_seg(Style::Plain, "unsupported token: "),
            text_seg(Style::Found, spec_description(t.kind)),
            text_seg(Style::Plain, " "),
            text_seg(Style::Quoted, "\""),
            text_seg(Style::Quoted, t.text.str_of()),
            text_seg(Style::Quoted, "\""),
            text_seg(Style::Plain, " - supported types are: "),
            text_seg(Style::TypeName, "int"),
            text_seg(Style::Plain, ", "),
            text_seg(Style::TypeName, "dig"),
        ],
        ParseErrorKind::UnexpectedToken { unexpected, previous, .. } => seq![
            text_seg(Style::Plain, "unexpected "),
            text_seg(Style::Found, spec_description(unexpected)),
            text_seg(Style::Plain, ", after a "),
            text_seg(Style::Expected, spec_description(previous)),
        ],
        ParseErrorKind::UndeclaredIdentifier { ident, declared, .. } => seq![
            text_seg(Style::Plain, "undeclared identifier "),
            text_seg(Style::Found, ident),
            text_seg(Style::Plain, "; declared: "),
        ] + names_spec(declared@),
        ParseErrorKind::OutOfBoundsCaptureIndex { index, number_declared, .. } => seq![
            text_seg(Style::Plain, "capture index "),
            Segment { style: Style::Found, piece: Piece::Number(index) },
            text_seg(Style::Plain, " is out of bounds; unnamed captures declared: "),
            Segment { style: Style::Expected, piece: Piece::Number(number_declared) },
        ],
    }
}

/// The whole diagnostic: the pattern on a line of its own, then, under the
/// column the error points at, a marker, the column and the message.
pub open spec fn diagnostic_spec<'t>(e: ParseError<'t>) -> Seq<Segment<'t>> {
    let col = spec_position(e.kind@) as usize;
    seq![
        text_seg(Style::Plain, "\n"),
        text_seg(Style::Source, e.input),
        text_seg(Style::Plain, "\n"),
        Segment { style: Style::Plain, piece: Piece::Spaces(col) },
        text_seg(Style::Pointer, "\u{21B3}"),
        text_seg(Style::Plain, " "),
        text_seg(Style::Pointer, "@col"),
        text_seg(Style::Plain, ":"),
        Segment { style: Style::Column, piece: Piece::Number(col) },
        text_seg(Style::Plain, " "),
    ] + message_spec(e.kind)
}

fn text_segment<'t>(style: Style, text: &'t str) -> (r: Segment<'t>)
    ensures
        r == text_seg(style, text),
{
    Segment { style, piece: Piece::Text(text) }
}

fn push_all<'t>(v: &mut Vec<Segment<'t>>, more: Vec<Segment<'t>>)
    ensures
        final(v)@ == old(v)@ + more@,
{
    let mut i: usize = 0;
    while i < more.len()
        invariant
            i <= more@.len(),
            v@ == old(v)@ + more@.take(i as int),
        decreases more@.len() - i,
    {
        assert(more@.take(i + 1) =~= more@.take(i as int).push(more@[i as int]));
        v.push(more[i]);
        i = i + 1;
    }
    assert(more@.take(i as int) =~= more@);
}

fn names<'t>(declared: &Vec<&'t str>) -> (r: Vec<Segment<'t>>)
    ensures
        r@ == names_spec(declared@),
{
    let mut r: Vec<Segment<'t>> = Vec::new();
    let mut i: usize = 0;
    assert(declared@.take(0) =~= Seq::<&'t str>::empty());
    while i < declared.len()
        invariant
            i <= declared@.len(),
            r@ == names_spec(declared@.take(i as int)),
        decreases declared@.len() - i,
    {
        let ghost before = r@;
        if i > 0 {
            r.push(text_segment(Style::Plain, ", "));
        }
        r.push(text_segment(Style::Expected, declared[i]));
        proof {
            let t = declared@.take(i + 1);
            assert(t.drop_last() =~= declared@.take(i as int));
            assert(t.last() == declared@[i as int]);
            if i > 0 {
                assert(r@ =~= before + seq![text_seg(Style::Plain, ", ")] + seq![
                    text_seg(Style::Expected, declared@[i as int]),
                ]);
            } else {
                assert(r@ =~= before + Seq::<Segment<'t>>::empty() + seq![
                    text_seg(Style::Expected, declared@[i as int]),
                ]);
            }
        }
        i = i + 1;
    }
    assert(declared@.take(i as int) =~= declared@);
    r
}

impl<'t> ParseErrorKind<'t> {
    /// What a diagnostic says about this error.
    pub fn message(&self) -> (r: Vec<Segment<'t>>)
        ensures
            r@ == message_spec(*self),
    {
        match self {
            ParseErrorKind::ExpectedToken { expected, found, text, .. } => {
                let r = vec![
                    text_segment(Style::Plain, "expected "),
                    text_segment(Style::Expected, expected.description()),
                    text_segment(Style::Plain, ", but found a "),
                    text_segment(Style::Found, found.description()),
                    text_segment(Style::Plain, ", "),
                    text_segment(Style::Quoted, "\""),
                    text_segment(Style::Quoted, text),
                    text_segment(Style::Quoted, "\""),
                ];
                assert(r@ =~= message_spec(*self));
                r
            },
            ParseErrorKind::UnsupportedToken(t) => {
                let r = vec![
                    text_segment(Style::Plain, "unsupported token: "),
                    text_segment(Style::Found, t.kind.description()),
                    text_segment(Style::Plain, " "),
                    text_segment(Style::Quoted, "\""),
                    text_segment(Style::Quoted, t.text.as_str()),
                    text_segment(Style::Quoted, "\""),
                    text_segment(Style::Plain, " - supported types are: "),
                    text_segment(Style::TypeName, "int"),
                    text_segment(Style::Plain, ", "),
                    text_segment(Style::TypeName, "dig"),
                ];
                assert(r@ =~= message_spec(*self));
                r
            },
            ParseErrorKind::UnexpectedToken { unexpected, previous, .. } => {
                let r = vec![
                    text_segment(Style::Plain, "unexpected "),
                    text_segment(Style::Found, unexpected.description()),
                    text_segment(Style::Plain, ", after a "),
                    text_segment(Style::Expected, previous.description()),
                ];
                assert(r@ =~= message_spec(*self));
                r
            },
            ParseErrorKind::UndeclaredIdentifier { ident, declared, .. } => {
                let mut r = vec![
                    text_segment(Style::Plain, "undeclared identifier "),
                    text_segment(Style::Found, ident),
                    text_segment(Style::Plain, "; declared: "),
                ];
                push_all(&mut r, names(declared));
                assert(r@ =~= message_spec(*self));
                r
            },
            ParseErrorKind::OutOfBoundsCaptureIndex { index, number_declared, .. } => {
                let r = vec![
                    text_segment(Style::Plain, "capture index "),
                    Segment { style: Style::Found, piece: Piece::Number(*index) },
                    text_segment(Style::Plain, " is out of bounds; unnamed captures declared: "),
                    Segment { style: Style::Expected, piece: Piece::Number(*number_declared) },
                ];
                assert(r@ =~= message_spec(*self));
                r
            },
        }
    }
}

impl<'t> ParseError<'t> {
    /// The diagnostic for this error, piece by piece.
    pub fn diagnostic(&self) -> (r: Vec<Segment<'t>>)
        ensures
            r@ == diagnostic_spec(*self),
    {
        let col = self.error_location();
        let mut r = vec![
            text_segment(Style::Plain, "\n"),
            text_segment(Style::Source, self.input),
            text_segment(Style::Plain, "\n"),
            Segment { style: Style::Plain, piece: Piece::Spaces(col) },
            text_segment(Style::Pointer, "\u{21B3}"),
            text_segment(Style::Plain, " "),
            text_segment(Style::Pointer, "@col"),
            text_segment(Style::Plain, ":"),
            Segment { style: Style::Column, piece: Piece::Number(col) },
            text_segment(Style::Plain, " "),
        ];
        push_all(&mut r, self.kind.message());
        assert(r@ =~= diagnostic_spec(*self));
        r
    }
}

} // verus!
