//! Finds a match expression in a string.
use vstd::prelude::*;
use vstd::string::StringSliceAdditionalSpecFns;
use vstd::utf8::*;

use crate::captures::{CaptureKey, CaptureName, Captures};
use crate::parser::{ordinal_count, AbstractMatchingExpression, CaptureType, MatchExpression, MexItem};
use crate::text::{
    at_boundary, byte_len, digit_byte, is_digit_byte, lemma_boundary_after,
    lemma_boundary_after_ascii, lemma_str_valid, lemma_valid_first_not_continuation, slice_str,
};

verus! {

broadcast use vstd::seq::group_seq_axioms;

/// Where a match attempt stands: the scan cursor, where the match would
/// start, how many elements of the program are met, where the running
/// integer capture began, and the captures made so far.
pub ghost struct MatchState {
    pub pos: int,
    pub legit: int,
    pub state: int,
    pub cap_start: Option<int>,
    pub caps: Seq<(CaptureKey, Seq<u8>)>,
}

/// The key under which element `k` of the program records its capture.
pub open spec fn key_of(prog: Seq<MexItem>, k: int) -> CaptureKey {
    match prog[k] {
        MexItem::Capture(Some(n), _) => CaptureKey::Named(n),
        _ => CaptureKey::Ordinal(ordinal_count(prog.take(k)) + 1 as int),
    }
}

/// A fresh attempt at byte `p`, after a capture failed: the program starts
/// over, and the match start and the captures of the failed attempt are
/// dropped.
pub open spec fn restart(p: int) -> MatchState {
    MatchState { pos: p, legit: p, state: 0, cap_start: None, caps: Seq::empty() }
}

/// One move of the automaton, with element `s.state` of the program at byte
/// `s.pos` of the input.
pub open spec fn step(prog: Seq<MexItem>, b: Seq<u8>, s: MatchState) -> MatchState {
    let p = s.pos;
    match prog[s.state] {
        MexItem::Literal(l) => {
            if p + l.len() <= b.len() && b.subrange(p, p + l.len()) == l {
                MatchState { pos: p + l.len(), state: s.state + 1, ..s }
            } else {
                // The program element stays; only the scan moves on.
                MatchState { pos: p + 1, legit: p + 1, ..s }
            }
        },
        MexItem::Capture(_, CaptureType::Digit) => {
            if is_digit_byte(b[p]) {
                MatchState {
                    pos: p + 1,
                    state: s.state + 1,
                    caps: s.caps.push((key_of(prog, s.state), b.subrange(p, p + 1))),
                    ..s
                }
            } else {
                restart(p + 1)
            }
        },
        MexItem::Capture(_, CaptureType::Int) => {
            if is_digit_byte(b[p]) {
                let cs = match s.cap_start {
                    Some(c) => c,
                    None => p,
                };
                let legit = if s.cap_start is None && s.state == 0 {
                    p
                } else {
                    s.legit
                };
                if p + 1 == b.len() {
                    MatchState {
                        pos: p + 1,
                        legit,
                        state: s.state + 1,
                        cap_start: None,
                        caps: s.caps.push((key_of(prog, s.state), b.subrange(cs, p + 1))),
                    }
                } else {
                    MatchState { pos: p + 1, legit, cap_start: Some(cs), ..s }
                }
            } else if s.cap_start is Some {
                // The digits end here; the byte that ends them is not consumed.
                MatchState {
                    state: s.state + 1,
                    cap_start: None,
                    caps: s.caps.push((key_of(prog, s.state), b.subrange(s.cap_start->0, p))),
                    ..s
                }
            } else {
                restart(p + 1)
            }
        },
    }
}

/// Runs the automaton until the program is met or the input is used up.
pub open spec fn run(prog: Seq<MexItem>, b: Seq<u8>, s: MatchState) -> MatchState
    decreases b.len() - s.pos, prog.len() - s.state,
{
    if 0 <= s.state < prog.len() && 0 <= s.pos < b.len() {
        run(prog, b, step(prog, b, s))
    } else {
        s
    }
}

/// A run keeps the match start between the search start and the cursor, and
/// the cursor in the input.
pub proof fn lemma_run_bounds(prog: Seq<MexItem>, b: Seq<u8>, s: MatchState)
    requires
        0 <= s.legit <= s.pos <= b.len(),
        0 <= s.state,
    ensures
        s.legit <= run(prog, b, s).legit <= run(prog, b, s).pos <= b.len(),
        s.pos <= run(prog, b, s).pos,
    decreases b.len() - s.pos, prog.len() - s.state,
{
    if 0 <= s.state < prog.len() && 0 <= s.pos < b.len() {
        lemma_run_bounds(prog, b, step(prog, b, s));
    }
}


/// Some capture is recorded under key `k`.
pub open spec fn has_key(caps: Seq<(CaptureKey, Seq<u8>)>, k: CaptureKey) -> bool {
    exists|j: int| 0 <= j < caps.len() && (#[trigger] caps[j]).0 == k
}

/// Every capture element the automaton has passed has recorded its capture.
pub open spec fn keys_recorded(prog: Seq<MexItem>, s: MatchState) -> bool {
    forall|k: int|
        0 <= k < s.state && #[trigger] prog[k] is Capture ==> has_key(s.caps, key_of(prog, k))
}

proof fn lemma_has_key_push(caps: Seq<(CaptureKey, Seq<u8>)>, x: (CaptureKey, Seq<u8>), k: CaptureKey)
    requires
        has_key(caps, k) || x.0 == k,
    ensures
        has_key(caps.push(x), k),
{
    if x.0 == k {
        assert(caps.push(x)[caps.len() as int] == x);
    } else {
        let j = choose|j: int| 0 <= j < caps.len() && (#[trigger] caps[j]).0 == k;
        assert(caps.push(x)[j] == caps[j]);
    }
}

/// A run keeps every passed capture recorded.
pub proof fn lemma_run_keys(prog: Seq<MexItem>, b: Seq<u8>, s: MatchState)
    requires
        keys_recorded(prog, s),
        0 <= s.state,
    ensures
        keys_recorded(prog, run(prog, b, s)),
    decreases b.len() - s.pos, prog.len() - s.state,
{
    if 0 <= s.state < prog.len() && 0 <= s.pos < b.len() {
        let t = step(prog, b, s);
        assert forall|k: int| 0 <= k < t.state && #[trigger] prog[k] is Capture implies has_key(
            t.caps,
            key_of(prog, k),
        ) by {
            if t.caps != s.caps && t.state > 0 {
                let x = t.caps.last();
                assert(t.caps == s.caps.push(x));
                if k < s.state {
                    lemma_has_key_push(s.caps, x, key_of(prog, k));
                } else {
                    assert(k == s.state);
                    lemma_has_key_push(s.caps, x, key_of(prog, k));
                }
            }
        }
        lemma_run_keys(prog, b, t);
    }
}

pub open spec fn init_state(start: int) -> MatchState {
    MatchState { pos: start, legit: start, state: 0, cap_start: None, caps: Seq::empty() }
}

/// The final state of a search from byte `start`.
pub open spec fn search(prog: Seq<MexItem>, b: Seq<u8>, start: int) -> MatchState {
    run(prog, b, init_state(start))
}

/// The span of the match a search from `start` finds, if any.
pub open spec fn found(prog: Seq<MexItem>, b: Seq<u8>, start: int) -> Option<(int, int)> {
    let f = search(prog, b, start);
    if f.state == prog.len() {
        Some((f.legit, f.pos))
    } else {
        None
    }
}

/// A match: a byte range of the input it was found in.
pub struct Match<'input> {
    pub input: &'input str,
    pub start: usize,
    pub end: usize,
}

impl<'input> Match<'input> {
    pub open spec fn text(&self) -> &'input str {
        self.input
    }

    /// The range lies in the text, from one character boundary to another.
    pub open spec fn wf(&self) -> bool {
        &&& self.start <= self.end <= self.text().spec_bytes().len()
        &&& at_boundary(self.text().spec_bytes(), self.start as int)
        &&& at_boundary(self.text().spec_bytes(), self.end as int)
    }

    /// The matched text.
    pub fn as_str(&self) -> (r: &'input str)
        requires
            self.wf(),
        ensures
            r.spec_bytes() == self.text().spec_bytes().subrange(
                self.start as int,
                self.end as int,
            ),
    {
        slice_str(self.input, self.start, self.end)
    }
}

/// Whether `lit` occurs in `bytes` at `at`.
fn bytes_match(bytes: &[u8], at: usize, lit: &[u8]) -> (r: bool)
    requires
        at + lit@.len() <= bytes@.len(),
    ensures
        r == (bytes@.subrange(at as int, at + lit@.len()) == lit@),
{
    let n = bytes.len();
    let mut i: usize = 0;
    while i < lit.len()
        invariant
            n == bytes@.len(),
            at + lit@.len() <= bytes@.len(),
            i <= lit@.len(),
            forall|j: int| 0 <= j < i ==> bytes@[at + j] == lit@[j],
        decreases lit@.len() - i,
    {
        if bytes[at + i] != lit[i] {
            assert(bytes@.subrange(at as int, at + lit@.len())[i as int] != lit@[i as int]);
            return false;
        }
        i = i + 1;
    }
    assert(bytes@.subrange(at as int, at + lit@.len()) =~= lit@);
    true
}

pub open spec fn opt_int(o: Option<usize>) -> Option<int> {
    match o {
        Some(v) => Some(v as int),
        None => None,
    }
}

impl<'source> MatchExpression<'source> {
    /// The place of the unnamed capture at element `k`, counting from 1.
    fn ordinal_at(&self, k: usize) -> (r: usize)
        requires
            k < self.expressions@.len(),
        ensures
            r == ordinal_count(self.items().take(k as int)) + 1,
    {
        let ghost prog = self.items();
        let n = self.expressions.len();
        let mut count: usize = 0;
        let mut i: usize = 0;
        assert(prog.take(0) =~= Seq::<MexItem>::empty());
        while i < k
            invariant
                prog == self.items(),
                k < self.expressions@.len(),
                n == self.expressions@.len(),
                i <= k,
                count <= i,
                count == ordinal_count(prog.take(i as int)),
            decreases k - i,
        {
            assert(prog.take(i + 1).drop_last() =~= prog.take(i as int));
            assert(prog.take(i + 1).last() == self.expressions@[i as int]@);
            match self.expressions[i] {
                AbstractMatchingExpression::Capture { identifier: None, .. } => {
                    count = count + 1;
                },
                _ => {},
            }
            i = i + 1;
        }
        count + 1
    }

    /// The key under which element `k` records its capture.
    fn capture_name(&self, k: usize, identifier: Option<&'source str>) -> (r: CaptureName<'source>)
        requires
            k < self.expressions@.len(),
            self.items()[k as int] matches MexItem::Capture(id, _) && id == (match identifier {
                Some(n) => Some(n.spec_bytes()),
                None => None,
            }),
        ensures
            r@ == key_of(self.items(), k as int),
    {
        match identifier {
            Some(n) => CaptureName::Named(n),
            None => CaptureName::Ordinal(self.ordinal_at(k)),
        }
    }

    /// The leftmost-first match from byte `start` on, and what the search
    /// captured on the way.
    pub fn find_at_capturing<'input>(&self, input: &'input str, start: usize) -> (r: (
        Option<Match<'input>>,
        Captures<'source, 'input>,
    ))
        requires
            self.wf(),
            start <= input.spec_bytes().len(),
            at_boundary(input.spec_bytes(), start as int),
        ensures
            r.1.entries() == search(self.items(), input.spec_bytes(), start as int).caps,
            match r.0 {
                None => found(self.items(), input.spec_bytes(), start as int) is None,
                Some(m) => {
                    &&& found(self.items(), input.spec_bytes(), start as int) == Some(
                        (m.start as int, m.end as int),
                    )
                    &&& m.input == input
                    &&& m.wf()
                    &&& self.items().len() > 0 ==> m.end > start
                },
            },
    {
        let ghost prog = self.items();
        let ghost b = input.spec_bytes();
        let bytes = input.as_bytes();
        let len = bytes.len();
        let n = self.expressions.len();
        let mut curr_position = start;
        let mut legit_start = start;
        let mut state: usize = 0;
        let mut capture_slice_start: Option<usize> = None;
        let mut captures = Captures::new();
        proof {
            lemma_str_valid(input);
        }
        while state < n && curr_position < len
            invariant
                prog == self.items(),
                self.wf(),
                b == input.spec_bytes(),
                bytes@ == b,
                len == b.len(),
                n == prog.len(),
                n == self.expressions@.len(),
                valid_utf8(b),
                start <= legit_start <= curr_position <= len,
                state <= n,
                search(prog, b, start as int) == run(
                    prog,
                    b,
                    MatchState {
                        pos: curr_position as int,
                        legit: legit_start as int,
                        state: state as int,
                        cap_start: opt_int(capture_slice_start),
                        caps: captures.entries(),
                    },
                ),
                capture_slice_start matches Some(cs) ==> {
                    &&& start <= cs < curr_position
                    &&& state < n
                    &&& prog[state as int] matches MexItem::Capture(_, CaptureType::Int)
                    &&& forall|j: int| cs <= j < curr_position ==> is_digit_byte(#[trigger] b[j])
                },
                at_boundary(b, legit_start as int) || (state < n && legit_start == curr_position
                    && (state == 0 || prog[state as int] is Literal)),
                state == n ==> at_boundary(b, curr_position as int),
                curr_position == start ==> (state == 0 && capture_slice_start is None),
            decreases len - curr_position, n - state,
        {
            let e = self.expressions[state];
            proof {
                assert(prog[state as int] == e@);
            }
            match e {
                AbstractMatchingExpression::Literal(literal) => {
                    let lit = literal.as_bytes();
                    let ll = lit.len();
                    if ll > len - curr_position || !bytes_match(bytes, curr_position, lit) {
                        curr_position = curr_position + 1;
                        legit_start = curr_position;
                    } else {
                        proof {
                            lemma_str_valid(literal);
                            lemma_valid_first_not_continuation(lit@);
                            assert(b.subrange(curr_position as int, curr_position + ll)[0] == lit@[0]);
                            lemma_boundary_after(b, curr_position as int, ll as int);
                        }
                        state = state + 1;
                        curr_position = curr_position + ll;
                    }
                },
                AbstractMatchingExpression::Capture {
                    identifier,
                    identifier_type: CaptureType::Digit,
                } => {
                    let ch = bytes[curr_position];
                    if digit_byte(ch) {
                        proof {
                            lemma_boundary_after_ascii(b, curr_position as int);
                        }
                        let v = slice_str(input, curr_position, curr_position + 1);
                        let name = self.capture_name(state, identifier);
                        captures.put(name, v);
                        curr_position = curr_position + 1;
                        state = state + 1;
                    } else {
                        curr_position = curr_position + 1;
                        legit_start = curr_position;
                        state = 0;
                        captures = Captures::new();
                    }
                },
                AbstractMatchingExpression::Capture { identifier, identifier_type: CaptureType::Int } => {
                    let ch = bytes[curr_position];
                    if digit_byte(ch) {
                        if capture_slice_start.is_none() {
                            capture_slice_start = Some(curr_position);
                            if state == 0 {
                                legit_start = curr_position;
                            }
                        }
                        curr_position = curr_position + 1;
                        if curr_position == len {
                            let cs = match capture_slice_start {
                                Some(cs) => cs,
                                None => curr_position,
                            };
                            let v = slice_str(input, cs, curr_position);
                            let name = self.capture_name(state, identifier);
                            captures.put(name, v);
                            state = state + 1;
                            capture_slice_start = None;
                        }
                    } else {
                        match capture_slice_start {
                            Some(cs) => {
                                proof {
                                    lemma_boundary_after_ascii(b, curr_position - 1);
                                }
                                let v = slice_str(input, cs, curr_position);
                                let name = self.capture_name(state, identifier);
                                captures.put(name, v);
                                state = state + 1;
                                capture_slice_start = None;
                            },
                            None => {
                                curr_position = curr_position + 1;
                                legit_start = curr_position;
                                state = 0;
                                captures = Captures::new();
                            },
                        }
                    }
                },
            }
        }
        if state == n {
            (Some(Match { input, start: legit_start, end: curr_position }), captures)
        } else {
            (None, captures)
        }
    }

    /// The leftmost-first match from byte `start` on.
    pub fn find_at<'input>(&self, input: &'input str, start: usize) -> (r: Option<Match<'input>>)
        requires
            self.wf(),
            start <= input.spec_bytes().len(),
            at_boundary(input.spec_bytes(), start as int),
        ensures
            match r {
                None => found(self.items(), input.spec_bytes(), start as int) is None,
                Some(m) => {
                    &&& found(self.items(), input.spec_bytes(), start as int) == Some(
                        (m.start as int, m.end as int),
                    )
                    &&& m.input == input
                    &&& m.wf()
                    &&& self.items().len() > 0 ==> m.end > start
                },
            },
    {
        self.find_at_capturing(input, start).0
    }
}


/// The spans of the successive matches from byte `pos` on, each search
/// resuming where the previous match ended.
pub open spec fn matches_from(prog: Seq<MexItem>, b: Seq<u8>, pos: int) -> Seq<(int, int)>
    decreases b.len() - pos,
{
    if pos < 0 || pos >= b.len() {
        Seq::empty()
    } else {
        match found(prog, b, pos) {
            None => Seq::empty(),
            Some((s, e)) => if pos < e <= b.len() {
                seq![(s, e)] + matches_from(prog, b, e)
            } else {
                seq![(s, e)]
            },
        }
    }
}

/// The successive matches of an expression in one input.
pub struct Matches<'input, 'source> {
    input: &'input str,
    mex: MatchExpression<'source>,
    last_end: usize,
}

impl<'input, 'source> Matches<'input, 'source> {
    pub closed spec fn text(&self) -> &'input str {
        self.input
    }

    pub closed spec fn program(&self) -> Seq<MexItem> {
        self.mex.items()
    }

    /// Where the next search starts.
    pub closed spec fn cursor(&self) -> int {
        self.last_end as int
    }

    pub closed spec fn wf(&self) -> bool {
        &&& self.mex.wf()
        &&& self.last_end <= self.input.spec_bytes().len()
        &&& at_boundary(self.input.spec_bytes(), self.last_end as int)
    }

    pub fn new(mex: MatchExpression<'source>, input: &'input str) -> (r: Self)
        requires
            mex.wf(),
        ensures
            r.wf(),
            r.text() == input,
            r.program() == mex.items(),
            r.cursor() == 0,
    {
        proof {
            lemma_str_valid(input);
            if input.spec_bytes().len() > 0 {
                lemma_valid_first_not_continuation(input.spec_bytes());
            }
        }
        Self { input, mex, last_end: 0 }
    }

    /// The next match, searching from where the last one ended.
    pub fn next(&mut self) -> (r: Option<Match<'input>>)
        requires
            old(self).wf(),
        ensures
            final(self).wf(),
            final(self).text() == old(self).text(),
            final(self).program() == old(self).program(),
            ({
                let b = old(self).text().spec_bytes();
                let p = old(self).cursor();
                if p >= b.len() {
                    r is None && final(self).cursor() == p
                } else {
                    match found(old(self).program(), b, p) {
                        None => r is None && final(self).cursor() == p,
                        Some((s, e)) => r matches Some(m) && m.start == s && m.end == e
                            && m.input == old(self).text() && m.wf() && final(self).cursor() == e
                            && (old(self).program().len() > 0 ==> e > p),
                    }
                }
            }),
    {
        let len = byte_len(self.input);
        if self.last_end >= len {
            return None;
        }
        let m = match self.mex.find_at(self.input, self.last_end) {
            None => return None,
            Some(m) => m,
        };
        self.last_end = m.end;
        Some(m)
    }

    /// How many matches remain.
    pub fn count(self) -> (r: usize)
        requires
            self.wf(),
            self.program().len() > 0,
        ensures
            r == matches_from(self.program(), self.text().spec_bytes(), self.cursor()).len(),
    {
        let ghost prog = self.program();
        let ghost b = self.text().spec_bytes();
        let ghost first = self.cursor();
        let mut it = self;
        let mut count: usize = 0;
        loop
            invariant
                it.wf(),
                prog == self.program(),
                b == self.text().spec_bytes(),
                first == self.cursor(),
                it.program() == prog,
                it.text().spec_bytes() == b,
                prog.len() > 0,
                first <= it.cursor() <= b.len(),
                count <= it.cursor() - first,
                matches_from(prog, b, first).len() == count + matches_from(prog, b, it.cursor()).len(),
            decreases b.len() - it.cursor(),
        {
            let ghost cur = it.cursor();
            match it.next() {
                None => {
                    assert(matches_from(prog, b, cur) =~= Seq::<(int, int)>::empty());
                    return count;
                },
                Some(_) => {
                    count = count + 1;
                },
            }
        }
    }
}

impl<'source> MatchExpression<'source> {
    /// The successive matches of this expression in `input`.
    pub fn find_iter<'input>(self, input: &'input str) -> (r: Matches<'input, 'source>)
        requires
            self.wf(),
        ensures
            r.wf(),
            r.text() == input,
            r.program() == self.items(),
            r.cursor() == 0,
    {
        Matches::new(self, input)
    }
}

/// Whether `pattern` matches anywhere in `input`.
pub fn match_on(pattern: MatchExpression, input: &str) -> (r: bool)
    requires
        pattern.wf(),
        pattern.items().len() > 0,
    ensures
        r == (matches_from(pattern.items(), input.spec_bytes(), 0).len() > 0),
{
    Matches::new(pattern, input).count() > 0
}

} // verus!
