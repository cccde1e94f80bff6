//! A small pattern language for matching text with typed captures and
//! rewriting what was matched.
//!
//! A pattern such as `hello(n:int)->hi(n)` has a match part, which is literal
//! text and captures (`(name:int)` for a run of ASCII digits, `(name:dig)` for
//! one digit, `(int)` or `(dig)` for an unnamed capture), and a replacement
//! part, which is literal text and references to captures (`(name)`, or `(1)`
//! for the first unnamed capture).
use std::borrow::Cow;

use vstd::prelude::*;
use vstd::string::StringSliceAdditionalSpecFns;
use vstd::utf8::*;

pub mod captures;
pub mod error;
pub mod lexer;
pub mod matcher;
pub mod parser;
pub mod text;

use crate::captures::{lookup, CaptureKey, Captures};
use crate::matcher::{found, search};
use crate::parser::{
    references_resolve, rex_items, AbstractReplaceExpression, MatchAndReplaceExpression,
    MatchExpression, MexItem, RexItem,
};
use crate::text::{byte_len, lemma_str_valid, push_text, slice_str};

verus! {

broadcast use vstd::seq::group_seq_axioms;

/// The text one replacement element stands for, given the captures.
pub open spec fn piece(item: RexItem, caps: Seq<(CaptureKey, Seq<u8>)>) -> Seq<u8> {
    match item {
        RexItem::Literal(l) => l,
        RexItem::Identifier(n) => match lookup(caps, CaptureKey::Named(n)) {
            Some(v) => v,
            None => Seq::empty(),
        },
        RexItem::Index(k) => match lookup(caps, CaptureKey::Ordinal(k)) {
            Some(v) => v,
            None => Seq::empty(),
        },
    }
}

/// The replacement text: the pieces of the replacement, joined.
pub open spec fn compose(rex: Seq<RexItem>, caps: Seq<(CaptureKey, Seq<u8>)>) -> Seq<u8>
    decreases rex.len(),
{
    if rex.len() == 0 {
        Seq::empty()
    } else {
        compose(rex.drop_last(), caps) + piece(rex.last(), caps)
    }
}

/// What applying a compiled pattern to the input bytes `b` gives: nothing
/// where it does not match; else the replacement text, alone when stripping,
/// or put in place of the matched range.
pub open spec fn apply_spec(prog: Seq<MexItem>, rex: Seq<RexItem>, strip: bool, b: Seq<u8>) -> Option<
    Seq<u8>,
> {
    match found(prog, b, 0) {
        None => None,
        Some((s, e)) => {
            let rep = compose(rex, search(prog, b, 0).caps);
            if strip {
                Some(rep)
            } else {
                Some(b.subrange(0, s) + rep + b.subrange(e, b.len() as int))
            }
        },
    }
}

/// A way to match and replace on a string value.
pub trait MatchAndReplaceStrategy<'input> {
    /// The new value, or `None` where the value is to stay as it is.
    fn apply(&self, value: &'input str) -> Option<Cow<'input, str>>;
}

/// Applies a compiled pattern.
pub struct MatchAndReplacer<'source> {
    mex: MatchExpression<'source>,
    exprs: Vec<AbstractReplaceExpression<'source>>,
    /// When true, the result is the replacement alone, and what lies around
    /// the match is dropped.
    strip: bool,
}

impl<'source> MatchAndReplacer<'source> {
    #[verifier::type_invariant]
    spec fn inv(&self) -> bool {
        &&& self.mex.wf()
        &&& references_resolve(self.mex.items(), rex_items(self.exprs@))
    }

    pub closed spec fn program(&self) -> Seq<MexItem> {
        self.mex.items()
    }

    pub closed spec fn replacement(&self) -> Seq<RexItem> {
        rex_items(self.exprs@)
    }

    pub closed spec fn strips(&self) -> bool {
        self.strip
    }

    pub fn new(mrex: MatchAndReplaceExpression<'source>) -> (r: Self)
        requires
            mrex.wf(),
        ensures
            r.program() == mrex.mex.items(),
            r.replacement() == mrex.rex.items(),
            !r.strips(),
    {
        Self { mex: mrex.mex, exprs: mrex.rex.expressions, strip: false }
    }

    pub fn set_strip(&mut self, s: bool)
        ensures
            final(self).program() == old(self).program(),
            final(self).replacement() == old(self).replacement(),
            final(self).strips() == s,
    {
        proof {
            use_type_invariant(&*self);
        }
        self.strip = s;
    }

    /// Appends the text of replacement element `e`.
    fn push_piece(out: &mut String, e: AbstractReplaceExpression<'source>, captures: &Captures)
        ensures
            encode_utf8(final(out)@) == encode_utf8(old(out)@) + piece(e@, captures.entries()),
    {
        match e {
            AbstractReplaceExpression::Literal(l) => push_text(out, l),
            AbstractReplaceExpression::Identifier(i) => match captures.get(i) {
                Some(v) => push_text(out, v),
                None => {},
            },
            AbstractReplaceExpression::CaptureIndex(k) => match captures.get_ordinal(k) {
                Some(v) => push_text(out, v),
                None => {},
            },
        }
    }

    /// Matches `value` from its start and builds the new value.
    pub fn apply<'input>(&self, value: &'input str) -> (r: Option<Cow<'input, str>>)
        ensures
            match apply_spec(self.program(), self.replacement(), self.strips(), value.spec_bytes()) {
                None => r is None,
                Some(bytes) => r matches Some(c) && encode_utf8(c@) == bytes,
            },
    {
        proof {
            use_type_invariant(self);
            lemma_str_valid(value);
        }
        let ghost b = value.spec_bytes();
        let (m, captures) = self.mex.find_at_capturing(value, 0);
        let m = match m {
            None => return None,
            Some(m) => m,
        };
        let ghost caps = captures.entries();
        let ghost rex = self.replacement();
        let mut out = String::new();
        if !self.strip {
            push_text(&mut out, slice_str(value, 0, m.start));
        }
        let ghost prefix = encode_utf8(out@);
        let mut i: usize = 0;
        proof {
            assert(rex.take(0) =~= Seq::<RexItem>::empty());
            assert(prefix + Seq::<u8>::empty() =~= prefix);
        }
        while i < self.exprs.len()
            invariant
                rex == rex_items(self.exprs@),
                caps == captures.entries(),
                i <= self.exprs@.len(),
                encode_utf8(out@) == prefix + compose(rex.take(i as int), caps),
            decreases self.exprs@.len() - i,
        {
            Self::push_piece(&mut out, self.exprs[i], &captures);
            proof {
                assert(rex.take(i + 1).drop_last() =~= rex.take(i as int));
                assert(rex.take(i + 1).last() == self.exprs@[i as int]@);
                assert(prefix + compose(rex.take(i as int), caps) + piece(self.exprs@[i as int]@, caps)
                    =~= prefix + compose(rex.take(i + 1), caps));
            }
            i = i + 1;
        }
        proof {
            assert(rex.take(i as int) =~= rex);
        }
        if !self.strip {
            let len = byte_len(value);
            push_text(&mut out, slice_str(value, m.end, len));
        } else {
            assert(prefix =~= Seq::<u8>::empty());
        }
        Some(Cow::Owned(out))
    }
}

impl<'input> MatchAndReplaceStrategy<'input> for MatchAndReplacer<'input> {
    fn apply(&self, value: &'input str) -> Option<Cow<'input, str>> {
        MatchAndReplacer::apply(self, value)
    }
}


/// Every reference of the replacement finds a capture.
pub open spec fn references_found(rex: Seq<RexItem>, caps: Seq<(CaptureKey, Seq<u8>)>) -> bool {
    forall|i: int|
        0 <= i < rex.len() ==> match #[trigger] rex[i] {
            RexItem::Identifier(n) => lookup(caps, CaptureKey::Named(n)) is Some,
            RexItem::Index(k) => lookup(caps, CaptureKey::Ordinal(k)) is Some,
            RexItem::Literal(_) => true,
        }
}

/// When a compiled pattern matches, each name and each index of its
/// replacement finds the text its capture took: composing the replacement
/// never falls back on empty text.
pub proof fn lemma_references_found(prog: Seq<MexItem>, rex: Seq<RexItem>, b: Seq<u8>)
    requires
        references_resolve(prog, rex),
        found(prog, b, 0) is Some,
    ensures
        references_found(rex, search(prog, b, 0).caps),
{
    let s0 = crate::matcher::init_state(0);
    crate::matcher::lemma_run_keys(prog, b, s0);
    let f = search(prog, b, 0);
    assert forall|i: int| 0 <= i < rex.len() implies match #[trigger] rex[i] {
        RexItem::Identifier(n) => lookup(f.caps, CaptureKey::Named(n)) is Some,
        RexItem::Index(k) => lookup(f.caps, CaptureKey::Ordinal(k)) is Some,
        RexItem::Literal(_) => true,
    } by {
        match rex[i] {
            RexItem::Identifier(n) => {
                crate::parser::lemma_declared_name_witness(prog, n);
                let k = choose|k: int|
                    0 <= k < prog.len() && crate::parser::named_capture_of(#[trigger] prog[k], n);
                assert(crate::matcher::has_key(f.caps, crate::matcher::key_of(prog, k)));
                crate::captures::lemma_lookup_found(f.caps, CaptureKey::Named(n));
            },
            RexItem::Index(j) => {
                crate::parser::lemma_ordinal_witness(prog, j);
                let k = choose|k: int|
                    0 <= k < prog.len() && crate::parser::unnamed_capture(#[trigger] prog[k])
                        && crate::parser::ordinal_count(prog.take(k)) + 1 == j;
                assert(crate::matcher::has_key(f.caps, crate::matcher::key_of(prog, k)));
                crate::captures::lemma_lookup_found(f.caps, CaptureKey::Ordinal(j));
            },
            RexItem::Literal(_) => {},
        }
    }
}

/// A pattern that matches nowhere in the input leaves it as it is: applying
/// it gives nothing, in either mode.
pub proof fn lemma_no_match_no_change(prog: Seq<MexItem>, rex: Seq<RexItem>, strip: bool, b: Seq<u8>)
    requires
        found(prog, b, 0) is None,
    ensures
        apply_spec(prog, rex, strip, b) is None,
{
}

/// In place of a match, only the matched byte range changes: the bytes
/// before and after it are kept as they are.
pub proof fn lemma_substitution_keeps_outside(prog: Seq<MexItem>, rex: Seq<RexItem>, b: Seq<u8>)
    requires
        found(prog, b, 0) is Some,
    ensures
        ({
            let (s, e) = found(prog, b, 0)->0;
            let r = apply_spec(prog, rex, false, b)->0;
            let tail = b.len() - e;
            &&& r.subrange(0, s) == b.subrange(0, s)
            &&& r.subrange(r.len() - tail, r.len() as int) == b.subrange(e, b.len() as int)
        }),
{
    crate::matcher::lemma_run_bounds(prog, b, crate::matcher::init_state(0));
    let (s, e) = found(prog, b, 0)->0;
    let rep = compose(rex, search(prog, b, 0).caps);
    let r = b.subrange(0, s) + rep + b.subrange(e, b.len() as int);
    assert(r.subrange(0, s) =~= b.subrange(0, s));
    assert(r.subrange(r.len() - (b.len() - e), r.len() as int) =~= b.subrange(e, b.len() as int));
}

} // verus!
