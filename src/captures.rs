//! The texts that one match attempt captured.
use vstd::prelude::*;
use vstd::string::StringSliceAdditionalSpecFns;

use crate::text::same_text;

verus! {

broadcast use vstd::seq::group_seq_axioms;

/// How a capture is referred to: by its name, or by its place among the
/// unnamed captures, counting from 1.
#[derive(Debug, PartialEq, Eq, Clone, Copy)]
pub enum CaptureName<'source> {
    Named(&'source str),
    Ordinal(usize),
}

pub ghost enum CaptureKey {
    Named(Seq<u8>),
    Ordinal(int),
}

impl<'source> View for CaptureName<'source> {
    type V = CaptureKey;

    open spec fn view(&self) -> CaptureKey {
        match self {
            CaptureName::Named(n) => CaptureKey::Named(n.spec_bytes()),
            CaptureName::Ordinal(i) => CaptureKey::Ordinal(*i as int),
        }
    }
}

#[derive(Debug, PartialEq, Eq)]
struct Capture<'source, 'input> {
    name: CaptureName<'source>,
    value: &'input str,
}

/// The captures of one match attempt, in the order they were made.
#[derive(Debug, PartialEq, Eq)]
pub struct Captures<'source, 'input> {
    inner: Vec<Capture<'source, 'input>>,
}

/// The text of the first capture under `k`, if any.
pub open spec fn lookup(caps: Seq<(CaptureKey, Seq<u8>)>, k: CaptureKey) -> Option<Seq<u8>>
    decreases caps.len(),
{
    if caps.len() == 0 {
        None
    } else if caps[0].0 == k {
        Some(caps[0].1)
    } else {
        lookup(caps.drop_first(), k)
    }
}


/// Where some capture has key `k`, looking `k` up finds one.
pub proof fn lemma_lookup_found(caps: Seq<(CaptureKey, Seq<u8>)>, k: CaptureKey)
    requires
        exists|j: int| 0 <= j < caps.len() && (#[trigger] caps[j]).0 == k,
    ensures
        lookup(caps, k) is Some,
    decreases caps.len(),
{
    if caps[0].0 != k {
        let j = choose|j: int| 0 <= j < caps.len() && (#[trigger] caps[j]).0 == k;
        assert(caps.drop_first()[j - 1] == caps[j]);
        lemma_lookup_found(caps.drop_first(), k);
    }
}

pub open spec fn text_bytes(r: Option<&str>) -> Option<Seq<u8>> {
    match r {
        Some(s) => Some(s.spec_bytes()),
        None => None,
    }
}

impl<'source, 'input> Captures<'source, 'input> {
    pub closed spec fn entries(&self) -> Seq<(CaptureKey, Seq<u8>)> {
        self.inner@.map_values(|c: Capture<'source, 'input>| (c.name@, c.value.spec_bytes()))
    }

    pub fn new() -> (r: Self)
        ensures
            r.entries() == Seq::<(CaptureKey, Seq<u8>)>::empty(),
    {
        let r = Self { inner: Vec::new() };
        assert(r.entries() =~= Seq::<(CaptureKey, Seq<u8>)>::empty());
        r
    }

    pub fn put(&mut self, name: CaptureName<'source>, value: &'input str)
        ensures
            final(self).entries() == old(self).entries().push((name@, value.spec_bytes())),
    {
        self.inner.push(Capture { name, value });
        assert(self.entries() =~= old(self).entries().push((name@, value.spec_bytes())));
    }

    fn find(&self, name: CaptureName<'source>) -> (r: Option<&'input str>)
        ensures
            text_bytes(r) == lookup(self.entries(), name@),
    {
        let ghost e = self.entries();
        assert(e.subrange(0, e.len() as int) =~= e);
        let mut i: usize = 0;
        while i < self.inner.len()
            invariant
                e == self.entries(),
                i <= self.inner@.len(),
                lookup(e, name@) == lookup(e.subrange(i as int, e.len() as int), name@),
            decreases self.inner@.len() - i,
        {
            let c = &self.inner[i];
            let ghost rest = e.subrange(i as int, e.len() as int);
            assert(rest[0] == e[i as int]);
            assert(rest.drop_first() =~= e.subrange(i + 1, e.len() as int));
            let hit = match (c.name, name) {
                (CaptureName::Named(a), CaptureName::Named(b)) => same_text(a, b),
                (CaptureName::Ordinal(a), CaptureName::Ordinal(b)) => a == b,
                _ => false,
            };
            if hit {
                return Some(c.value);
            }
            i = i + 1;
        }
        assert(e.subrange(i as int, e.len() as int) =~= Seq::<(CaptureKey, Seq<u8>)>::empty());
        None
    }

    /// The text captured under `name`.
    pub fn get(&self, name: &str) -> (r: Option<&'input str>)
        ensures
            text_bytes(r) == lookup(self.entries(), CaptureKey::Named(name.spec_bytes())),
    {
        self.find(CaptureName::Named(name))
    }

    /// The text of the `index`-th unnamed capture.
    pub fn get_ordinal(&self, index: usize) -> (r: Option<&'input str>)
        ensures
            text_bytes(r) == lookup(self.entries(), CaptureKey::Ordinal(index as int)),
    {
        self.find(CaptureName::Ordinal(index))
    }
}

} // verus!
