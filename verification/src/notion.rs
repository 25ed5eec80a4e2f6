//! Content of a block without its markdown chrome: the text of a heading
//! after its `#`s, the language and body of a fenced code block.
use vstd::prelude::*;
use vstd::utf8::*;

use crate::text::{
    at_boundary, blank_run, bytes_of, is_nl, lemma_after_ascii, lemma_floor_boundary, lemma_last_of_props,
    lemma_line_end, lemma_utf8_valid, last_of, line_content_end, line_content_end_idx, line_end,
    line_end_idx, owned, rfind_byte, slice_vec, substr, trim_nl_end, trim_nl_end_idx, utf8,
};

verus! {

broadcast use vstd::seq::group_seq_axioms, vstd::slice::group_slice_axioms;

/// Number of bytes equal to `c` at the start of `b[i..]`.
pub open spec fn run_of(b: Seq<u8>, c: u8, i: int) -> int
    decreases b.len() - i,
{
    if 0 <= i < b.len() && b[i] == c {
        1 + run_of(b, c, i + 1)
    } else {
        0
    }
}

pub proof fn lemma_run_of(b: Seq<u8>, c: u8, i: int)
    requires
        0 <= i <= b.len(),
    ensures
        0 <= run_of(b, c, i) <= b.len() - i,
        forall|k: int| i <= k < i + run_of(b, c, i) ==> b[k] == c,
        i + run_of(b, c, i) < b.len() ==> b[i + run_of(b, c, i)] != c,
    decreases b.len() - i,
{
    if i < b.len() && b[i] == c {
        lemma_run_of(b, c, i + 1);
    }
}

pub fn run_len(b: &[u8], c: u8, i: usize) -> (r: usize)
    requires
        i <= b@.len(),
    ensures
        r as int == run_of(b@, c, i as int),
        i + r <= b@.len(),
{
    proof {
        lemma_run_of(b@, c, i as int);
    }
    let mut k: usize = i;
    while k < b.len() && b[k] == c
        invariant
            i <= k <= b@.len(),
            run_of(b@, c, i as int) == (k - i) + run_of(b@, c, k as int),
        decreases b@.len() - k,
    {
        k += 1;
    }
    k - i
}

/// Offset of a heading's text: after its `#`s and one space.
pub open spec fn heading_body_at(b: Seq<u8>) -> int {
    let h = run_of(b, 35, 0);
    if h < b.len() && b[h] == 32 {
        h + 1
    } else {
        h
    }
}

/// `(number of '#', text)` of a heading line: the text is everything after
/// the `#`s and one following space.
pub fn strip_heading(s: &str) -> (r: (usize, &str))
    ensures
        r.0 as int == run_of(utf8(s@), 35, 0),
        utf8(r.1@) == utf8(s@).subrange(heading_body_at(utf8(s@)), utf8(s@).len() as int),
{
    let b = bytes_of(s);
    proof {
        lemma_run_of(b@, 35, 0);
    }
    let h = run_len(b, 35, 0);
    let at: usize = if h < b.len() && b[h] == 32 {
        h + 1
    } else {
        h
    };
    proof {
        lemma_utf8_valid(s@);
        if at > 0 {
            lemma_after_ascii(b@, at - 1);
        } else {
            lemma_floor_boundary(b@, 0);
        }
        assert(at_boundary(b@, b@.len() as int));
    }
    (h, substr(s, at, b.len()))
}

/// Spaces and tabs at the start of `b[i..]`.
pub open spec fn indent_of(b: Seq<u8>, i: int) -> int
    decreases b.len() - i,
{
    if 0 <= i < b.len() && (b[i] == 32 || b[i] == 9) {
        1 + indent_of(b, i + 1)
    } else {
        0
    }
}

pub proof fn lemma_indent_of(b: Seq<u8>, i: int)
    requires
        0 <= i <= b.len(),
    ensures
        0 <= indent_of(b, i) <= b.len() - i,
        forall|k: int| i <= k < i + indent_of(b, i) ==> b[k] == 32 || b[k] == 9,
        i + indent_of(b, i) < b.len() ==> !(b[i + indent_of(b, i)] == 32 || b[i + indent_of(
            b,
            i,
        )] == 9),
    decreases b.len() - i,
{
    if i < b.len() && (b[i] == 32 || b[i] == 9) {
        lemma_indent_of(b, i + 1);
    }
}

pub fn indent_len(b: &[u8], i: usize) -> (r: usize)
    requires
        i <= b@.len(),
    ensures
        r as int == indent_of(b@, i as int),
        i + r <= b@.len(),
{
    proof {
        lemma_indent_of(b@, i as int);
    }
    let mut k: usize = i;
    while k < b.len() && (b[k] == 32 || b[k] == 9)
        invariant
            i <= k <= b@.len(),
            indent_of(b@, i as int) == (k - i) + indent_of(b@, k as int),
        decreases b@.len() - k,
    {
        k += 1;
    }
    k - i
}

/// Spaces and tabs at the end of `b[a..e]`.
pub open spec fn blank_end(b: Seq<u8>, a: int, e: int) -> int
    decreases e - a,
{
    if e > a && (b[e - 1] == 32 || b[e - 1] == 9) {
        blank_end(b, a, e - 1)
    } else {
        e
    }
}

pub proof fn lemma_blank_end(b: Seq<u8>, a: int, e: int)
    requires
        0 <= a <= e <= b.len(),
    ensures
        a <= blank_end(b, a, e) <= e,
        forall|k: int| blank_end(b, a, e) <= k < e ==> (#[trigger] b[k] == 32 || b[k] == 9),
    decreases e - a,
{
    if e > a && (b[e - 1] == 32 || b[e - 1] == 9) {
        lemma_blank_end(b, a, e - 1);
    }
}

pub fn blank_end_idx(b: &[u8], a: usize, e: usize) -> (r: usize)
    requires
        a <= e <= b@.len(),
    ensures
        r as int == blank_end(b@, a as int, e as int),
        a <= r <= e,
{
    let mut j: usize = e;
    while j > a && (b[j - 1] == 32 || b[j - 1] == 9)
        invariant
            a <= j <= e <= b@.len(),
            blank_end(b@, a as int, e as int) == blank_end(b@, a as int, j as int),
        decreases j,
    {
        j -= 1;
    }
    j
}

/// The fence character run of the opening line (after its indent): its
/// byte and its length (length 0 when the block is not fenced).
pub open spec fn fence_run(b: Seq<u8>) -> (u8, int) {
    let i = indent_of(b, 0);
    if i < b.len() && (b[i] == 96 || b[i] == 126) {
        (b[i], run_of(b, b[i], i))
    } else {
        (96, 0)
    }
}

/// Byte span of the language of a fence: the rest of the opening line,
/// without surrounding spaces and tabs. Empty when the block is not fenced.
pub open spec fn fence_lang(b: Seq<u8>) -> (int, int) {
    let e0 = line_content_end(b, 0);
    let a0 = indent_of(b, 0) + fence_run(b).1;
    if fence_run(b).1 == 0 || a0 >= e0 {
        (e0, e0)
    } else {
        let a = a0 + indent_of(b.subrange(0, e0), a0);
        (a, blank_end(b, a, e0))
    }
}

pub proof fn lemma_fence_lang_bounds(b: Seq<u8>)
    ensures
        0 <= fence_lang(b).0 <= fence_lang(b).1 <= b.len(),
{
    lemma_line_end(b, 0);
    lemma_indent_of(b, 0);
    let i = indent_of(b, 0);
    if i < b.len() {
        lemma_run_of(b, b[i], i);
    }
    let e0 = line_content_end(b, 0);
    let a0 = indent_of(b, 0) + fence_run(b).1;
    if !(fence_run(b).1 == 0 || a0 >= e0) {
        lemma_indent_of(b.subrange(0, e0), a0);
        let a = a0 + indent_of(b.subrange(0, e0), a0);
        lemma_blank_end(b, a, e0);
    }
}

/// The line starting at `p` closes the fence: after its indent it holds at
/// least as many fence characters as the opening run.
pub open spec fn closes_fence(b: Seq<u8>, p: int) -> bool {
    let (c, n) = fence_run(b);
    n > 0 && run_of(b, c, p + indent_of(b, p)) >= n
}

/// Start of the body: the line after the opening one.
pub open spec fn fence_body_start(b: Seq<u8>) -> int {
    let j = line_end(b, 0);
    if j < b.len() {
        j + 1
    } else {
        b.len() as int
    }
}

/// End of the span of the last line (before a final `'\n'`).
pub open spec fn last_line_end(b: Seq<u8>) -> int {
    if b.len() > 0 && b[b.len() - 1] == 10 {
        b.len() - 1
    } else {
        b.len() as int
    }
}

/// Byte span of a code block's body. A fenced block's body runs from its
/// second line to the end of the content of its last line before the
/// closing fence; an indented block's body is all of it, without trailing
/// line ends.
pub open spec fn fence_body(b: Seq<u8>) -> (int, int) {
    if fence_run(b).1 == 0 {
        (0, trim_nl_end(b, 0, b.len() as int))
    } else {
        let s = fence_body_start(b);
        if s >= b.len() {
            (b.len() as int, b.len() as int)
        } else {
            let t = last_line_end(b);
            let p = match last_of(b, 10, s, t) {
                Some(q) => q + 1,
                None => s,
            };
            if closes_fence(b, p) {
                if p == s {
                    (s, s)
                } else if b[p - 2] == 13 && p - 2 >= s {
                    (s, p - 2)
                } else {
                    (s, p - 1)
                }
            } else {
                (s, line_content_end(b, p))
            }
        }
    }
}

proof fn lemma_boundary_before_ascii(b: Seq<u8>, i: int)
    requires
        0 <= i < b.len(),
        b[i] < 0x80,
    ensures
        at_boundary(b, i),
{
}

/// Language and body of a code block (see [`fence_lang`], [`fence_body`]).
pub fn strip_fence(s: &str) -> (r: (String, String))
    ensures
        utf8(r.0@) == utf8(s@).subrange(fence_lang(utf8(s@)).0, fence_lang(utf8(s@)).1),
        utf8(r.1@) == utf8(s@).subrange(fence_body(utf8(s@)).0, fence_body(utf8(s@)).1),
{
    let b = bytes_of(s);
    let n: usize = b.len();
    let ghost bb = b@;
    proof {
        lemma_utf8_valid(s@);
        lemma_indent_of(bb, 0);
        lemma_line_end(bb, 0);
        lemma_floor_boundary(bb, 0);
        assert(at_boundary(bb, n as int));
    }
    let e0 = line_content_end_idx(b, 0);
    let i0 = indent_len(b, 0);
    let run: usize = if i0 < n && (b[i0] == 96 || b[i0] == 126) {
        run_len(b, b[i0], i0)
    } else {
        0
    };
    proof {
        if i0 < n && (bb[i0 as int] == 96 || bb[i0 as int] == 126) {
            lemma_run_of(bb, bb[i0 as int], i0 as int);
        }
        // line ends sit before '\r', '\n' or the end
        let j = line_end(bb, 0);
        if e0 < n {
            assert(bb[e0 as int] == 10 || bb[e0 as int] == 13);
            lemma_boundary_before_ascii(bb, e0 as int);
        }
    }
    // language
    let (la, le) = if run == 0 || i0 + run >= e0 {
        (e0, e0)
    } else {
        let a0 = i0 + run;
        let pre = slice_vec(b, 0, e0);
        let w = indent_len(pre.as_slice(), a0);
        let a = a0 + w;
        let e = blank_end_idx(b, a, e0);
        proof {
            lemma_indent_of(pre@, a0 as int);
            assert(pre@ =~= bb.subrange(0, e0 as int));
            lemma_run_of(bb, bb[i0 as int], i0 as int);
            if w > 0 {
                assert(pre@[a - 1] == bb[a - 1]);
            } else {
                assert(bb[a0 - 1] == bb[i0 as int]);
            }
            assert(bb[a - 1] < 0x80);
            lemma_after_ascii(bb, a - 1);
            lemma_blank_end(bb, a as int, e0 as int);
            if e < e0 {
                lemma_boundary_before_ascii(bb, e as int);
            }
        }
        (a, e)
    };
    proof {
        assert(at_boundary(bb, la as int));
        assert(at_boundary(bb, le as int));
    }
    let lang = owned(substr(s, la, le));
    // body
    let (bs, be) = fence_body_span(b, run, i0);
    proof {
        lemma_fence_body_bounds(bb, run as int, i0 as int);
    }
    let body = owned(substr(s, bs, be));
    (lang, body)
}

proof fn lemma_fence_body_bounds(b: Seq<u8>, run: int, i0: int)
    requires
        valid_utf8(b),
        run == fence_run(b).1,
    ensures
        0 <= fence_body(b).0 <= fence_body(b).1 <= b.len(),
        at_boundary(b, fence_body(b).0),
        at_boundary(b, fence_body(b).1),
{
    lemma_floor_boundary(b, 0);
    assert(at_boundary(b, b.len() as int));
    lemma_line_end(b, 0);
    if fence_run(b).1 == 0 {
        lemma_trim_nl_end(b, 0, b.len() as int);
        let e = trim_nl_end(b, 0, b.len() as int);
        if e < b.len() {
            lemma_boundary_before_ascii(b, e);
        }
    } else {
        let s = fence_body_start(b);
        if s < b.len() {
            lemma_after_ascii(b, s - 1);
            let t = last_line_end(b);
            lemma_last_of_props(b, 10, s, t);
            let p = match last_of(b, 10, s, t) {
                Some(q) => q + 1,
                None => s,
            };
            if p > s {
                lemma_after_ascii(b, p - 1);
            }
            lemma_line_end(b, p);
            if closes_fence(b, p) {
                if p == s {
                } else if b[p - 2] == 13 && p - 2 >= s {
                    lemma_boundary_before_ascii(b, p - 2);
                } else {
                    lemma_boundary_before_ascii(b, p - 1);
                }
            } else {
                let e = line_content_end(b, p);
                if e < b.len() {
                    assert(b[e] == 10 || b[e] == 13);
                    lemma_boundary_before_ascii(b, e);
                }
            }
        }
    }
}

pub proof fn lemma_trim_nl_end(b: Seq<u8>, a: int, e: int)
    requires
        0 <= a <= e <= b.len(),
    ensures
        a <= trim_nl_end(b, a, e) <= e,
        trim_nl_end(b, a, e) < e ==> is_nl(b[trim_nl_end(b, a, e)]),
        forall|k: int| trim_nl_end(b, a, e) <= k < e ==> is_nl(#[trigger] b[k]),
    decreases e - a,
{
    if e > a && is_nl(b[e - 1]) {
        lemma_trim_nl_end(b, a, e - 1);
    }
}

fn fence_body_span(b: &[u8], run: usize, i0: usize) -> (r: (usize, usize))
    requires
        run as int == fence_run(b@).1,
        i0 as int == indent_of(b@, 0),
    ensures
        r.0 as int == fence_body(b@).0,
        r.1 as int == fence_body(b@).1,
{
    let n: usize = b.len();
    if run == 0 {
        return (0, trim_nl_end_idx(b, 0, n));
    }
    let j = line_end_idx(b, 0);
    let s: usize = if j < n {
        j + 1
    } else {
        n
    };
    if s >= n {
        return (n, n);
    }
    let t: usize = if n > 0 && b[n - 1] == 10 {
        n - 1
    } else {
        n
    };
    proof {
        lemma_last_of_props(b@, 10, s as int, t as int);
    }
    let p: usize = match rfind_byte(b, 10, s, t) {
        Some(q) => q + 1,
        None => s,
    };
    let k = p + indent_len(b, p);
    proof {
        lemma_indent_of(b@, p as int);
        lemma_line_end(b@, p as int);
    }
    let c: u8 = b[i0];
    let closes = run_len(b, c, k) >= run;
    if closes {
        if p == s {
            (s, s)
        } else if p - 2 >= s && b[p - 2] == 13 {
            (s, p - 2)
        } else {
            (s, p - 1)
        }
    } else {
        (s, line_content_end_idx(b, p))
    }
}

} // verus!
