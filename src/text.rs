//! Byte-level facts about UTF-8 text shared by the lexer and the matcher.
use vstd::prelude::*;
use vstd::string::{StringExecFns, StringSliceAdditionalSpecFns};
use vstd::utf8::*;

verus! {

broadcast use vstd::seq::group_seq_axioms;

/// An ASCII decimal digit.
pub open spec fn is_digit_byte(c: u8) -> bool {
    48 <= c <= 57
}

/// An ASCII letter.
pub open spec fn is_alpha_byte(c: u8) -> bool {
    (65 <= c <= 90) || (97 <= c <= 122)
}

/// Index `i` starts a character of `b`, or is its end.
pub open spec fn at_boundary(b: Seq<u8>, i: int) -> bool {
    i == b.len() || (0 <= i < b.len() && !is_continuation_byte(b[i]))
}

pub fn digit_byte(c: u8) -> (r: bool)
    ensures
        r == is_digit_byte(c),
{
    48 <= c && c <= 57
}

pub fn alpha_byte(c: u8) -> (r: bool)
    ensures
        r == is_alpha_byte(c),
{
    (65 <= c && c <= 90) || (97 <= c && c <= 122)
}

pub fn continuation_byte(c: u8) -> (r: bool)
    ensures
        r == is_continuation_byte(c),
{
    0x80 <= c && c <= 0xbf
}

/// The bytes of any string form valid UTF-8.
pub proof fn lemma_str_valid(s: &str)
    ensures
        valid_utf8(s.spec_bytes()),
{
    encode_utf8_valid_utf8(s@);
}

/// On valid UTF-8, `at_boundary` is std's notion of a char boundary.
pub proof fn lemma_at_boundary_is_char_boundary(b: Seq<u8>, i: int)
    requires
        valid_utf8(b),
        at_boundary(b, i),
    ensures
        is_char_boundary(b, i),
{
    if i == b.len() {
        is_char_boundary_start_end_of_seq(b);
    } else {
        is_char_boundary_iff_not_is_continuation_byte(b, i);
    }
}

/// A valid prefix of valid UTF-8 leaves a valid remainder.
pub proof fn lemma_valid_rest(l: Seq<u8>, r: Seq<u8>)
    requires
        valid_utf8(l + r),
        valid_utf8(l),
    ensures
        valid_utf8(r),
    decreases l.len(),
{
    if l.len() == 0 {
        assert(l + r =~= r);
    } else {
        let x = l + r;
        let k = length_of_first_scalar(l);
        assert(x[0] == l[0]);
        assert(length_of_first_scalar(x) == k);
        assert(pop_first_scalar(x) =~= pop_first_scalar(l) + r);
        lemma_pop_shorter(l);
        lemma_valid_rest(pop_first_scalar(l), r);
    }
}

proof fn lemma_pop_shorter(l: Seq<u8>)
    requires
        l.len() > 0,
        valid_utf8(l),
    ensures
        pop_first_scalar(l).len() < l.len(),
{
}

/// The first byte of non-empty valid UTF-8 starts a character.
pub proof fn lemma_valid_first_not_continuation(l: Seq<u8>)
    requires
        valid_utf8(l),
        l.len() > 0,
    ensures
        !is_continuation_byte(l[0]),
{
}

/// Where valid UTF-8 `b` holds, at a boundary `p`, a run of bytes that is valid
/// UTF-8 on its own, the end of that run is a boundary too.
pub proof fn lemma_boundary_after(b: Seq<u8>, p: int, k: int)
    requires
        valid_utf8(b),
        at_boundary(b, p),
        0 <= k,
        p + k <= b.len(),
        valid_utf8(b.subrange(p, p + k)),
    ensures
        at_boundary(b, p + k),
{
    lemma_at_boundary_is_char_boundary(b, p);
    valid_utf8_split(b, p);
    let rest = b.subrange(p, b.len() as int);
    assert(rest =~= b.subrange(p, p + k) + b.subrange(p + k, b.len() as int));
    lemma_valid_rest(b.subrange(p, p + k), b.subrange(p + k, b.len() as int));
    let tail = b.subrange(p + k, b.len() as int);
    if p + k < b.len() {
        lemma_valid_first_not_continuation(tail);
        assert(tail[0] == b[p + k]);
    }
}

/// A single ASCII byte is valid UTF-8.
pub proof fn lemma_ascii_valid(b: Seq<u8>, i: int)
    requires
        0 <= i < b.len(),
        b[i] < 0x80,
    ensures
        valid_utf8(b.subrange(i, i + 1)),
{
    let s = b.subrange(i, i + 1);
    assert(pop_first_scalar(s) =~= Seq::<u8>::empty());
    reveal_with_fuel(valid_utf8, 2);
}

/// After an ASCII byte at a boundary comes another boundary.
pub proof fn lemma_boundary_after_ascii(b: Seq<u8>, i: int)
    requires
        valid_utf8(b),
        0 <= i < b.len(),
        b[i] < 0x80,
    ensures
        at_boundary(b, i),
        at_boundary(b, i + 1),
{
    lemma_ascii_valid(b, i);
    lemma_boundary_after(b, i, 1);
}

/// Length in bytes; also tells the verifier that it fits in `usize`.
pub fn byte_len(s: &str) -> (n: usize)
    ensures
        n == s.spec_bytes().len(),
{
    s.as_bytes().len()
}

/// The part of `s` between two boundaries, as a borrowed string.
pub fn slice_str<'a>(s: &'a str, from: usize, to: usize) -> (r: &'a str)
    requires
        from <= to <= s.spec_bytes().len(),
        at_boundary(s.spec_bytes(), from as int),
        at_boundary(s.spec_bytes(), to as int),
    ensures
        r.spec_bytes() == s.spec_bytes().subrange(from as int, to as int),
{
    let ghost b = s.spec_bytes();
    proof {
        lemma_str_valid(s);
        lemma_at_boundary_is_char_boundary(b, from as int);
    }
    let (_, rest) = s.split_at(from);
    proof {
        lemma_str_valid(rest);
        let rb = rest.spec_bytes();
        assert(rb =~= b.subrange(from as int, b.len() as int));
        if to < b.len() {
            assert(rb[to - from] == b[to as int]);
        }
        assert(at_boundary(rb, to - from));
        lemma_at_boundary_is_char_boundary(rb, to - from);
    }
    let (r, _) = rest.split_at(to - from);
    assert(r.spec_bytes() =~= b.subrange(from as int, to as int));
    r
}

/// Two strings with the same bytes.
pub fn same_text(a: &str, b: &str) -> (r: bool)
    ensures
        r == (a.spec_bytes() == b.spec_bytes()),
{
    let x = a.as_bytes();
    let y = b.as_bytes();
    if x.len() != y.len() {
        return false;
    }
    let mut i: usize = 0;
    while i < x.len()
        invariant
            x@ == a.spec_bytes(),
            y@ == b.spec_bytes(),
            x@.len() == y@.len(),
            i <= x@.len(),
            forall|j: int| 0 <= j < i ==> x@[j] == y@[j],
        decreases x@.len() - i,
    {
        if x[i] != y[i] {
            return false;
        }
        i = i + 1;
    }
    assert(x@ =~= y@);
    true
}

/// The UTF-8 encoding of joined text is the join of the encodings.
pub proof fn lemma_encode_concat(a: Seq<char>, c: Seq<char>)
    ensures
        encode_utf8(a + c) == encode_utf8(a) + encode_utf8(c),
    decreases a.len(),
{
    if a.len() == 0 {
        assert(a + c =~= c);
        assert(encode_utf8(a) =~= Seq::<u8>::empty());
        assert(encode_utf8(a) + encode_utf8(c) =~= encode_utf8(c));
    } else {
        assert((a + c).drop_first() =~= a.drop_first() + c);
        assert((a + c)[0] == a[0]);
        lemma_encode_concat(a.drop_first(), c);
        assert(encode_utf8(a + c) =~= encode_utf8(a) + encode_utf8(c));
    }
}

/// Appends `piece` to `out`, in bytes.
pub fn push_text(out: &mut String, piece: &str)
    ensures
        encode_utf8(final(out)@) == encode_utf8(old(out)@) + piece.spec_bytes(),
{
    out.append(piece);
    proof {
        lemma_encode_concat(old(out)@, piece@);
    }
}

} // verus!
