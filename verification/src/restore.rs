//! What the parser drops and the projection puts back: trailing spaces of a
//! block, the tail of a heading, the raw body of a list item.
use std::ops::Range;

use vstd::prelude::*;
use vstd::utf8::*;

use crate::display::{no_marks, Marks, Segment};
use crate::document::BlockKind;
use crate::projection::{quote_body_at, quote_body_point};
use crate::emit::{emit, emit_plain, rng, Builder, BV};
use crate::notion::{heading_body_at, lemma_run_of, run_len, run_of};
use crate::projection::{list_marker_byte_len, list_marker_len, unescape, unescape_md_punct};
use crate::search::{last_index, lemma_last_index};
use crate::text::{
    at_boundary, blank_run, has_prefix, has_prefix_exec, is_blank_run, is_boundary,
    lemma_sub_valid, slice_vec, sub_bytes, sub_or_empty, trim_nl_end,
    trim_nl_end_idx,
};

verus! {

broadcast use vstd::seq::group_seq_axioms, vstd::slice::group_slice_axioms;

/// The segment maps into `bs..ce` of the source.
pub open spec fn seg_within(bs: int, ce: int) -> spec_fn(Segment) -> bool {
    |s: Segment| s.source.end <= ce && s.source.start >= bs
}

/// Trailing spaces and tabs of the block `bs..be` that no segment shows yet
/// become a plain segment.
pub open spec fn restore_spaces(src: Seq<u8>, bs: int, be: int, o: BV) -> BV {
    let sl = sub_or_empty(src, bs, be);
    let ce = bs + trim_nl_end(sl, 0, sl.len() as int);
    let last = match last_index(o.1, seg_within(bs, ce), o.1.len() as int) {
        Some(i) => o.1[i].source.end as int,
        None => bs,
    };
    if 0 <= last < ce <= src.len() && blank_run(src, last, ce) {
        emit(o, rng(last, ce), src.subrange(last, ce), no_marks())
    } else {
        o
    }
}

fn last_seg_within(segs: &Vec<Segment>, bs: usize, ce: usize) -> (r: Option<usize>)
    ensures
        r matches Some(i) ==> last_index(segs@, seg_within(bs as int, ce as int), segs@.len() as int)
            == Some(i as int) && i < segs@.len(),
        r is None ==> last_index(segs@, seg_within(bs as int, ce as int), segs@.len() as int)
            is None,
{
    let mut j: usize = segs.len();
    while j > 0
        invariant
            j <= segs@.len(),
            last_index(segs@, seg_within(bs as int, ce as int), segs@.len() as int) == last_index(
                segs@,
                seg_within(bs as int, ce as int),
                j as int,
            ),
        decreases j,
    {
        let s = &segs[j - 1];
        if s.source.end <= ce && s.source.start >= bs {
            return Some(j - 1);
        }
        j -= 1;
    }
    None
}

pub fn restore_trailing_spaces(src: &[u8], block: Range<usize>, b: &mut Builder)
    requires
        valid_utf8(src@),
        valid_utf8(old(b).display@),
    ensures
        final(b).state() == restore_spaces(
            src@,
            block.start as int,
            block.end as int,
            old(b).state(),
        ),
        valid_utf8(final(b).display@),
{
    let bs = block.start;
    let sl = sub_bytes(src, bs, block.end);
    let n: usize = sl.len();
    let te = trim_nl_end_idx(sl.as_slice(), 0, n);
    proof {
        if n > 0 {
            assert(bs + n <= src@.len());
        }
    }
    let ce: usize = bs + te;
    let last: usize = match last_seg_within(&b.segments, bs, ce) {
        Some(i) => b.segments[i].source.end,
        None => bs,
    };
    if last < ce && ce <= src.len() && is_blank_run(src, last, ce) {
        proof {
            // a run of spaces lies between character boundaries
            assert(src@[last as int] == 32 || src@[last as int] == 9);
            assert(src@[ce - 1] == 32 || src@[ce - 1] == 9);
            crate::text::lemma_after_ascii(src@, ce - 1);
            lemma_sub_valid(src@, last as int, ce as int);
        }
        let gap = slice_vec(src, last, ce);
        emit_plain(b, last..ce, gap.as_slice(), Marks::default());
    }
}


/// Display offset where the shown text of the block `bs..be` starts: the
/// smallest display start of the last run of segments mapping into the
/// block (scanning back from segment `j`), or `start` when there is none.
pub open spec fn shown_scan(segs: Seq<Segment>, bs: int, be: int, j: int, start: int, found: bool) -> int
    decreases j,
{
    if j <= 0 || j > segs.len() {
        start
    } else {
        let s = segs[j - 1];
        if s.source.start >= bs && s.source.end <= be {
            shown_scan(
                segs,
                bs,
                be,
                j - 1,
                if (s.display.start as int) < start {
                    s.display.start as int
                } else {
                    start
                },
                true,
            )
        } else if found {
            start
        } else {
            shown_scan(segs, bs, be, j - 1, start, false)
        }
    }
}

/// `d[from..]` when `from` is a boundary of `d`, else nothing.
pub open spec fn tail_from(d: Seq<u8>, from: int) -> Seq<u8> {
    if 0 <= from <= d.len() && at_boundary(d, from) {
        d.subrange(from, d.len() as int)
    } else {
        Seq::empty()
    }
}

/// The end of a heading that the parser dropped (closing `#`s, spaces
/// before them) and that the shown text is a prefix of, shown again.
pub open spec fn restore_suffix(src: Seq<u8>, bs: int, be: int, o: BV) -> BV {
    let sl = sub_or_empty(src, bs, be);
    let hb = heading_body_at(sl);
    let expected = sl.subrange(hb, trim_nl_end(sl, hb, sl.len() as int));
    let shown = tail_from(o.0, shown_scan(o.1, bs, be, o.1.len() as int, o.0.len() as int, false));
    if !has_prefix(expected, shown) || expected.len() == shown.len() {
        o
    } else {
        let le = trim_nl_end(sl, 0, sl.len() as int);
        let ss = bs + hb + shown.len();
        let se0 = ss + (expected.len() - shown.len());
        let se = if se0 < bs + le {
            se0
        } else {
            bs + le
        };
        if se <= ss {
            o
        } else if se <= src.len() && at_boundary(src, ss) && at_boundary(src, se) {
            emit(o, rng(ss, se), src.subrange(ss, se), no_marks())
        } else {
            o
        }
    }
}

fn shown_start(segs: &Vec<Segment>, dlen: usize, bs: usize, be: usize) -> (r: usize)
    ensures
        r as int == shown_scan(segs@, bs as int, be as int, segs@.len() as int, dlen as int, false),
        r <= dlen,
{
    let mut j: usize = segs.len();
    let mut start: usize = dlen;
    let mut found = false;
    while j > 0
        invariant
            j <= segs@.len(),
            start <= dlen,
            shown_scan(segs@, bs as int, be as int, segs@.len() as int, dlen as int, false)
                == shown_scan(segs@, bs as int, be as int, j as int, start as int, found),
        decreases j,
    {
        let s = &segs[j - 1];
        if s.source.start >= bs && s.source.end <= be {
            if s.display.start < start {
                start = s.display.start;
            }
            found = true;
        } else if found {
            return start;
        }
        j -= 1;
    }
    start
}

pub proof fn lemma_trim_nl(b: Seq<u8>, a: int, e: int)
    requires
        0 <= a <= e <= b.len(),
    ensures
        a <= trim_nl_end(b, a, e) <= e,
    decreases e - a,
{
    if e > a && crate::text::is_nl(b[e - 1]) {
        lemma_trim_nl(b, a, e - 1);
    }
}

pub fn restore_heading_suffix(src: &[u8], block: Range<usize>, b: &mut Builder)
    requires
        valid_utf8(src@),
        valid_utf8(old(b).display@),
    ensures
        final(b).state() == restore_suffix(src@, block.start as int, block.end as int, old(b).state()),
        valid_utf8(final(b).display@),
{
    let bs = block.start;
    let sl = sub_bytes(src, bs, block.end);
    let n: usize = sl.len();
    proof {
        lemma_run_of(sl@, 35, 0);
        if n > 0 {
            assert(bs + n <= src@.len());
        }
    }
    let h = run_len(sl.as_slice(), 35, 0);
    let hb: usize = if h < n && sl[h] == 32 {
        h + 1
    } else {
        h
    };
    let ee = trim_nl_end_idx(sl.as_slice(), hb, n);
    let expected = slice_vec(sl.as_slice(), hb, ee);
    let dlen: usize = b.display.len();
    let from = shown_start(&b.segments, dlen, bs, block.end);
    let shown: Vec<u8> = if is_boundary(b.display.as_slice(), from) {
        slice_vec(b.display.as_slice(), from, dlen)
    } else {
        Vec::new()
    };
    assert(shown@ == tail_from(b.display@, from as int));
    if !has_prefix_exec(expected.as_slice(), shown.as_slice()) || expected.len() == shown.len() {
        return ;
    }
    let le = trim_nl_end_idx(sl.as_slice(), 0, n);
    proof {
        lemma_trim_nl(sl@, 0, n as int);
    }
    let ss: usize = bs + hb + shown.len();
    let se0: usize = ss + (expected.len() - shown.len());
    let se: usize = if se0 < bs + le {
        se0
    } else {
        bs + le
    };
    if se <= ss {
        return ;
    }
    if se <= src.len() && is_boundary(src, ss) && is_boundary(src, se) {
        proof {
            lemma_sub_valid(src@, ss as int, se as int);
        }
        let gap = slice_vec(src, ss, se);
        emit_plain(b, ss..se, gap.as_slice(), Marks::default());
    }
}

/// The raw body of a list item's first line put back when the parser shows
/// nothing for it (escapes undone), or its trailing spaces when the shown
/// text is a prefix of it.
pub open spec fn restore_item(src: Seq<u8>, is: int, ie: int, d0: int, checked: Option<bool>, o: BV) -> BV {
    let sl = sub_or_empty(src, is, ie);
    let le = trim_nl_end(sl, 0, sl.len() as int);
    let line = sl.subrange(0, le);
    let marker = crate::emit::sat(list_marker_len(line, checked));
    if marker > le || !at_boundary(line, marker) {
        o
    } else {
        let body = line.subrange(marker, le);
        let shown = tail_from(o.0, d0);
        let visible = unescape(body, 0);
        if shown.len() == 0 && crate::text::trim_start_at(visible, 0, visible.len() as int)
            < visible.len() {
            emit(o, rng(is + marker, is + marker + body.len()), visible, no_marks())
        } else if has_prefix(body, shown) {
            let suffix = body.subrange(shown.len() as int, body.len() as int);
            if suffix.len() == 0 || !blank_run(suffix, 0, suffix.len() as int) {
                o
            } else {
                emit(
                    o,
                    rng(is + marker + shown.len(), is + marker + shown.len() + suffix.len()),
                    suffix,
                    no_marks(),
                )
            }
        } else {
            o
        }
    }
}

pub fn restore_list_item_trailing_spaces(
    src: &[u8],
    item_source: &Range<usize>,
    item_d0: usize,
    b: &mut Builder,
    checked: Option<bool>,
)
    requires
        valid_utf8(src@),
        valid_utf8(old(b).display@),
    ensures
        final(b).state() == restore_item(
            src@,
            item_source.start as int,
            item_source.end as int,
            item_d0 as int,
            checked,
            old(b).state(),
        ),
        valid_utf8(final(b).display@),
{
    let is = item_source.start;
    let sl = sub_bytes(src, is, item_source.end);
    let n: usize = sl.len();
    proof {
        if n > 0 {
            assert(is + n <= src@.len());
        }
        lemma_trim_nl(sl@, 0, n as int);
    }
    let le = trim_nl_end_idx(sl.as_slice(), 0, n);
    let line = slice_vec(sl.as_slice(), 0, le);
    let marker = list_marker_byte_len(line.as_slice(), checked);
    if marker > le || !is_boundary(line.as_slice(), marker) {
        return ;
    }
    proof {
        crate::text::lemma_boundary_zero(sl@);
        crate::notion::lemma_trim_nl_end(sl@, 0, n as int);
        lemma_sub_valid(sl@, 0, le as int);
        crate::text::lemma_boundary_zero(line@);
        lemma_sub_valid(line@, marker as int, le as int);
    }
    let body = slice_vec(line.as_slice(), marker, le);
    let dlen: usize = b.display.len();
    let shown: Vec<u8> = if is_boundary(b.display.as_slice(), item_d0) {
        slice_vec(b.display.as_slice(), item_d0, dlen)
    } else {
        Vec::new()
    };
    assert(shown@ == tail_from(b.display@, item_d0 as int));
    let visible = unescape_md_punct(body.as_slice());
    let vn: usize = visible.len();
    if shown.len() == 0 && crate::text::trim_start_idx(visible.as_slice(), 0, vn) < vn {
        emit_plain(b, (is + marker)..(is + marker + body.len()), visible.as_slice(), Marks::default());
        return ;
    }
    if has_prefix_exec(body.as_slice(), shown.as_slice()) {
        let suffix = slice_vec(body.as_slice(), shown.len(), body.len());
        let sn: usize = suffix.len();
        if sn == 0 || !is_blank_run(suffix.as_slice(), 0, sn) {
            return ;
        }
        proof {
            crate::text::lemma_ascii_valid(suffix@);
        }
        let a: usize = is + marker + shown.len();
        emit_plain(b, a..(a + sn), suffix.as_slice(), Marks::default());
    }
}

/// Where the caret sits in a block that shows nothing: after a heading's
/// `#`s, after a quote's `>` (and an alert's label line), else its start.
pub open spec fn content_at(src: Seq<u8>, kind: BlockKind, bs: int, be: int) -> int {
    let sl = sub_or_empty(src, bs, be);
    match kind {
        BlockKind::Heading(_) => {
            let tl = sl.len() - heading_body_at(sl);
            let st = if be >= tl {
                be - tl
            } else {
                0
            };
            if st < src.len() {
                st
            } else {
                src.len() as int
            }
        },
        BlockKind::Quote => quote_body_at(sl, bs, false),
        BlockKind::Alert(_) => quote_body_at(sl, bs, true),
        _ => if bs < src.len() {
            bs
        } else {
            src.len() as int
        },
    }
}

pub fn content_point(src: &[u8], kind: BlockKind, block: &Range<usize>) -> (r: Range<usize>)
    requires
        valid_utf8(src@),
    ensures
        r.start == r.end,
        r.start as int == content_at(src@, kind, block.start as int, block.end as int),
{
    let bs = block.start;
    let sl = sub_bytes(src, bs, block.end);
    let n: usize = sl.len();
    proof {
        if n > 0 {
            assert(bs + n <= src@.len());
        }
        lemma_run_of(sl@, 35, 0);
    }
    let p: usize = match kind {
        BlockKind::Heading(_) => {
            let h = run_len(sl.as_slice(), 35, 0);
            let hb: usize = if h < n && sl[h] == 32 {
                h + 1
            } else {
                h
            };
            let tl: usize = n - hb;
            let st: usize = if block.end >= tl {
                block.end - tl
            } else {
                0
            };
            if st < src.len() {
                st
            } else {
                src.len()
            }
        },
        BlockKind::Quote => quote_body_point(sl.as_slice(), bs, false),
        BlockKind::Alert(_) => quote_body_point(sl.as_slice(), bs, true),
        _ => if bs < src.len() {
            bs
        } else {
            src.len()
        },
    };
    p..p
}

} // verus!
