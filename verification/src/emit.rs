//! The growing projection: display bytes, their segments and the link
//! targets, and the steps that append to them.
use std::ops::Range;

use vstd::prelude::*;
use vstd::utf8::*;

use crate::display::{Marks, Segment};
use crate::text::lemma_valid_concat;

verus! {

broadcast use vstd::seq::group_seq_axioms, vstd::slice::group_slice_axioms;

/// Display bytes, segments and link targets of a projection being built.
pub struct Builder {
    pub display: Vec<u8>,
    pub segments: Vec<Segment>,
    pub links: Vec<String>,
}

/// Display bytes, segments, link targets.
pub type BV = (Seq<u8>, Seq<Segment>, Seq<String>);

impl Builder {
    pub open spec fn state(&self) -> BV {
        (self.display@, self.segments@, self.links@)
    }

    pub fn new() -> (r: Builder)
        ensures
            r.state() == (Seq::<u8>::empty(), Seq::<Segment>::empty(), Seq::<String>::empty()),
            valid_utf8(r.display@),
    {
        proof {
            assert(valid_utf8(Seq::<u8>::empty())) by {
                crate::text::lemma_ascii_valid(Seq::<u8>::empty());
            }
        }
        Builder { display: Vec::new(), segments: Vec::new(), links: Vec::new() }
    }
}

pub open spec fn rng(a: int, b: int) -> Range<usize> {
    Range { start: a as usize, end: b as usize }
}

/// `x`, saturated at `usize::MAX`.
pub open spec fn sat(x: int) -> int {
    if x > usize::MAX {
        usize::MAX as int
    } else {
        x
    }
}

pub open spec fn seg(d: Range<usize>, s: Range<usize>, m: Marks) -> Segment {
    Segment { display: d, source: s, marks: m }
}

/// Append `text`, mapped to source from `s.start` on; empty text leaves a
/// zero-width segment over all of `s`.
pub open spec fn emit(o: BV, s: Range<usize>, text: Seq<u8>, m: Marks) -> BV {
    let d0 = o.0.len() as int;
    if text.len() == 0 {
        (o.0, o.1.push(seg(rng(d0, d0), s, m)), o.2)
    } else {
        (
            o.0 + text,
            o.1.push(
                seg(rng(d0, d0 + text.len()), rng(s.start as int, sat(s.start + text.len())), m),
            ),
            o.2,
        )
    }
}

/// Append one separator byte `c` mapped to `s`.
pub open spec fn sep(o: BV, c: u8, s: Range<usize>, m: Marks) -> BV {
    let d0 = o.0.len() as int;
    (o.0.push(c), o.1.push(seg(rng(d0, d0 + 1), s, m)), o.2)
}

/// Append a zero-width segment over `s`.
pub open spec fn anchor(o: BV, s: Range<usize>, m: Marks) -> BV {
    let d0 = o.0.len() as int;
    (o.0, o.1.push(seg(rng(d0, d0), s, m)), o.2)
}

pub proof fn lemma_ascii_byte_valid(c: u8)
    requires
        c < 0x80,
    ensures
        valid_utf8(seq![c]),
{
    crate::text::lemma_ascii_valid(seq![c]);
}

pub fn emit_plain(b: &mut Builder, source: Range<usize>, text: &[u8], marks: Marks)
    requires
        valid_utf8(old(b).display@),
        valid_utf8(text@),
    ensures
        final(b).state() == emit(old(b).state(), source, text@, marks),
        valid_utf8(final(b).display@),
{
    let d0: usize = b.display.len();
    if text.len() == 0 {
        b.segments.push(Segment { display: d0..d0, source, marks });
        return ;
    }
    let ghost before = b.display@;
    let mut k: usize = 0;
    while k < text.len()
        invariant
            k <= text@.len(),
            b.display@ == before + text@.subrange(0, k as int),
            b.segments@ == old(b).segments@,
            b.links@ == old(b).links@,
            before == old(b).display@,
            d0 == before.len(),
        decreases text@.len() - k,
    {
        b.display.push(text[k]);
        k += 1;
        assert(b.display@ =~= before + text@.subrange(0, k as int));
    }
    assert(text@.subrange(0, k as int) =~= text@);
    proof {
        lemma_valid_concat(before, text@);
    }
    let d1: usize = b.display.len();
    let end: usize = source.start.saturating_add(text.len());
    b.segments.push(Segment { display: d0..d1, source: source.start..end, marks });
}

/// Append the ASCII byte `c` as its own segment over `s`.
pub fn push_sep(b: &mut Builder, c: u8, source: Range<usize>, marks: Marks)
    requires
        valid_utf8(old(b).display@),
        c < 0x80,
    ensures
        final(b).state() == sep(old(b).state(), c, source, marks),
        valid_utf8(final(b).display@),
{
    let d0: usize = b.display.len();
    proof {
        lemma_ascii_byte_valid(c);
        lemma_valid_concat(b.display@, seq![c]);
        assert(b.display@ + seq![c] =~= b.display@.push(c));
    }
    b.display.push(c);
    let d1: usize = b.display.len();
    b.segments.push(Segment { display: d0..d1, source, marks });
}

/// Append a zero-width segment over `s`.
pub fn push_anchor(b: &mut Builder, source: Range<usize>, marks: Marks)
    ensures
        final(b).state() == anchor(old(b).state(), source, marks),
        final(b).display@ == old(b).display@,
{
    let d0: usize = b.display.len();
    b.segments.push(Segment { display: d0..d0, source, marks });
}

} // verus!
