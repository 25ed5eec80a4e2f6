//! Semantic HTML blocks: a one-line `<h1>`…`<h6>` renders as a heading,
//! `<details>` opens a disclosure row, `</details>` is invisible chrome.
use std::ops::Range;

use vstd::prelude::*;
use vstd::utf8::*;

use crate::display::{no_marks, BlockExtra, ExtraV, Marks};
use crate::emit::{anchor, emit, emit_plain, push_anchor, rng, Builder, BV};
use crate::projection::{
    ascii_lower, collapse, details_open, heading_tag_level, html_details_open,
    html_heading_level, html_summary_range, html_summary_text, lower, lower_seq, summary_span,
    summary_text,
};
use crate::restore::{restore_spaces, restore_trailing_spaces};
use crate::text::{
    at_boundary, first_of, find_byte, has_prefix, has_prefix_exec, lemma_first_of_props,
    lemma_sub_valid, slice_vec, string_of_bytes, sub_bytes, sub_or_empty, trim_end_at,
    trim_end_idx, trim_start_at, trim_start_idx, utf8, ws_at, ws_before,
};

verus! {

broadcast use vstd::seq::group_seq_axioms, vstd::slice::group_slice_axioms;

pub open spec fn details_tag() -> Seq<u8> {
    seq![60u8, 100, 101, 116, 97, 105, 108, 115]
}

pub open spec fn details_close_tag() -> Seq<u8> {
    seq![60u8, 47, 100, 101, 116, 97, 105, 108, 115]
}

/// `</hN>` for a level `N`.
pub open spec fn heading_close(level: u8) -> Seq<u8> {
    seq![60u8, 47, 104, (48 + level) as u8, 62]
}

/// A one-line `<hN>…</hN>` (lowercased `l` of the trimmed block text `t`,
/// which starts `lead` bytes into the block at `bs`): its inner text shown.
pub open spec fn html_heading_proj(
    src: Seq<u8>,
    bs: int,
    be: int,
    lead: int,
    t: Seq<u8>,
    l: Seq<u8>,
    level: u8,
    o: BV,
) -> (BV, Option<ExtraV>) {
    let n = t.len() as int;
    match first_of(t, 62, 0, n) {
        None => (o, None),
        Some(gt) => if n < 5 || l.subrange(n - 5, n) != heading_close(level) || gt + 1 > n - 5 {
            (o, None)
        } else {
            let ia = trim_start_at(t, gt + 1, n - 5);
            let inner = t.subrange(ia, trim_end_at(t, ia, n - 5));
            let start = bs + lead + trim_start_at(t, gt + 1, n);
            let end = start + inner.len();
            let o1 = emit(
                o,
                rng(
                    start,
                    if end < src.len() {
                        end
                    } else {
                        src.len() as int
                    },
                ),
                inner,
                no_marks(),
            );
            (restore_spaces(src, bs, be, o1), Some(ExtraV::HtmlHeading(level)))
        },
    }
}

/// A `<details …>` opener: its summary shown, or an anchor inside an
/// empty `<summary></summary>`.
pub open spec fn html_details_proj(
    src_len: int,
    bs: int,
    be: int,
    lead: int,
    t: Seq<u8>,
    l: Seq<u8>,
    o: BV,
) -> (BV, Option<ExtraV>) {
    let summary = match summary_text(t, l) {
        Some(c) => c,
        None => Seq::empty(),
    };
    let o1 = if summary.len() == 0 {
        match summary_span(l) {
            Some((s, _)) => {
                let p = if bs + lead + s < src_len {
                    bs + lead + s
                } else {
                    src_len
                };
                anchor(o, rng(p, p), no_marks())
            },
            None => o,
        }
    } else {
        match summary_span(l) {
            Some((s, e)) => emit(o, rng(bs + lead + s, bs + lead + e), summary, no_marks()),
            None => emit(o, rng(bs, be), summary, no_marks()),
        }
    };
    (o1, Some(ExtraV::Details { summary, open: details_open(l) }))
}

/// `</details` followed by nothing or by `>` (after white space).
pub open spec fn details_closer(l: Seq<u8>) -> bool {
    let n = l.len() as int;
    let ra = trim_start_at(l, 9, n);
    let re = trim_end_at(l, ra, n);
    has_prefix(l, details_close_tag()) && (ra == re || l[ra] == 62)
}

/// `<details` followed by `>` or white space.
pub open spec fn details_opener(l: Seq<u8>) -> bool {
    has_prefix(l, details_tag()) && l.len() > 8 && (l[8] == 62 || l[8] == 32 || l[8] == 9 || l[8]
        == 10)
}

/// The projection of an HTML block `bs..be` that is a heading, a details
/// opener or a details closer; nothing for any other HTML.
pub open spec fn html_block(src: Seq<u8>, bs: int, be: int, o: BV) -> (BV, Option<ExtraV>) {
    let sl = sub_or_empty(src, bs, be);
    let lead = trim_start_at(sl, 0, sl.len() as int);
    let t = sl.subrange(lead, trim_end_at(sl, lead, sl.len() as int));
    let l = lower_seq(t);
    if t.len() == 0 || t[0] != 60 {
        (o, None)
    } else {
        match heading_tag_level(l) {
            Some(level) => html_heading_proj(src, bs, be, lead, t, l, level, o),
            None => if details_opener(l) {
                html_details_proj(src.len() as int, bs, be, lead, t, l, o)
            } else if details_closer(l) {
                (o, Some(ExtraV::DetailsClose))
            } else {
                (o, None)
            },
        }
    }
}

pub proof fn lemma_trim_end_at(b: Seq<u8>, a: int, e: int)
    requires
        0 <= a <= e <= b.len(),
    ensures
        a <= trim_end_at(b, a, e) <= e,
        trim_end_at(b, a, e) < e ==> ws_at(b, trim_end_at(b, a, e)) > 0 || !(trim_end_at(b, a, e)
            < b.len() && is_continuation_byte(b[trim_end_at(b, a, e)])),
    decreases e - a,
{
    if a < e && ws_before(b, e) > 0 && e - ws_before(b, e) >= a {
        lemma_trim_end_at(b, a, e - ws_before(b, e));
    }
}

/// Trimming from boundaries gives boundaries.
pub proof fn lemma_trim_boundaries(b: Seq<u8>, a: int, e: int)
    requires
        valid_utf8(b),
        0 <= a <= e <= b.len(),
        at_boundary(b, a),
        at_boundary(b, e),
    ensures
        a <= trim_start_at(b, a, e) <= e,
        at_boundary(b, trim_start_at(b, a, e)),
        trim_start_at(b, a, e) <= trim_end_at(b, trim_start_at(b, a, e), e) <= e,
        at_boundary(b, trim_end_at(b, trim_start_at(b, a, e), e)),
{
    crate::projection::lemma_trim_start(b, a, e);
    crate::projection::lemma_trim_start_boundary(b, a, e);
    let s = trim_start_at(b, a, e);
    lemma_trim_end_boundary(b, s, e);
}

pub proof fn lemma_trim_end_boundary(b: Seq<u8>, a: int, e: int)
    requires
        0 <= a <= e <= b.len(),
        at_boundary(b, e),
    ensures
        a <= trim_end_at(b, a, e) <= e,
        at_boundary(b, trim_end_at(b, a, e)),
    decreases e - a,
{
    if a < e && ws_before(b, e) > 0 && e - ws_before(b, e) >= a {
        let k = e - ws_before(b, e);
        assert(!is_continuation_byte(b[k]));
        lemma_trim_end_boundary(b, a, k);
    }
}

proof fn lemma_lower_same(t: Seq<u8>, k: int)
    requires
        0 <= k < t.len(),
        lower_seq(t)[k] < 65 || lower_seq(t)[k] > 122,
    ensures
        t[k] == lower_seq(t)[k],
{
}

fn html_heading(
    src: &[u8],
    bs: usize,
    be: usize,
    lead: usize,
    t: &Vec<u8>,
    l: &Vec<u8>,
    level: u8,
    b: &mut Builder,
) -> (r: Option<BlockExtra>)
    requires
        valid_utf8(src@),
        valid_utf8(old(b).display@),
        valid_utf8(t@),
        l@ == lower_seq(t@),
        bs + lead + t@.len() <= src@.len(),
        heading_tag_level(l@) == Some(level),
    ensures
        (final(b).state(), match r {
            Some(e) => Some(e.ev()),
            None => None,
        }) == html_heading_proj(
            src@,
            bs as int,
            be as int,
            lead as int,
            t@,
            l@,
            level,
            old(b).state(),
        ),
        valid_utf8(final(b).display@),
{
    let n: usize = t.len();
    proof {
        lemma_first_of_props(t@, 62, 0, n as int);
        crate::text::lemma_boundary_zero(t@);
    }
    let gt = match find_byte(t.as_slice(), 62, 0, n) {
        Some(g) => g,
        None => return None,
    };
    let close: [u8; 5] = [60, 47, 104, 48 + level, 62];
    assert(close@ =~= heading_close(level));
    if n < 5 {
        return None;
    }
    let tail = slice_vec(l.as_slice(), n - 5, n);
    assert(tail@.subrange(0, 5) =~= tail@);
    if !has_prefix_exec(tail.as_slice(), &close) || gt + 1 > n - 5 {
        return None;
    }
    proof {
        assert(tail@.subrange(0, 5) =~= tail@);
        assert(l@.subrange(n - 5, n as int) =~= heading_close(level));
        lemma_lower_same(t@, n - 5);
        crate::text::lemma_after_ascii(t@, gt as int);
        lemma_trim_boundaries(t@, gt + 1, n - 5);
        lemma_trim_boundaries(t@, gt + 1, n as int);
    }
    let ia = trim_start_idx(t.as_slice(), gt + 1, n - 5);
    let ie = trim_end_idx(t.as_slice(), ia, n - 5);
    proof {
        lemma_sub_valid(t@, ia as int, ie as int);
    }
    let inner = slice_vec(t.as_slice(), ia, ie);
    let ts = trim_start_idx(t.as_slice(), gt + 1, n);
    let src_len: usize = src.len();
    assert(bs + lead + ts <= src_len);
    let start: usize = bs + lead + ts;
    let cap: usize = if inner.len() < src_len - start {
        start + inner.len()
    } else {
        src_len
    };
    emit_plain(b, start..cap, inner.as_slice(), Marks::default());
    restore_trailing_spaces(src, bs..be, b);
    Some(BlockExtra::HtmlHeading(level))
}

fn html_details(
    src_len: usize,
    bs: usize,
    be: usize,
    lead: usize,
    t: &Vec<u8>,
    l: &Vec<u8>,
    b: &mut Builder,
) -> (r: Option<BlockExtra>)
    requires
        valid_utf8(old(b).display@),
        valid_utf8(t@),
        l@ == lower_seq(t@),
        bs + lead + t@.len() <= src_len,
    ensures
        (final(b).state(), match r {
            Some(e) => Some(e.ev()),
            None => None,
        }) == html_details_proj(src_len as int, bs as int, be as int, lead as int, t@, l@, old(
            b,
        ).state()),
        valid_utf8(final(b).display@),
{
    let text = html_summary_text(t.as_slice(), l.as_slice());
    let range = html_summary_range(l.as_slice());
    proof {
        crate::projection::lemma_summary_span_bounds(l@);
    }
    let summary: Vec<u8> = match text {
        Some(c) => c,
        None => {
            proof {
                crate::text::lemma_ascii_valid(Seq::<u8>::empty());
            }
            Vec::new()
        },
    };
    if summary.len() == 0 {
        match range {
            Some((s, _)) => {
                let p: usize = if bs + lead + s < src_len {
                    bs + lead + s
                } else {
                    src_len
                };
                push_anchor(b, p..p, Marks::default());
            },
            None => {},
        }
    } else {
        match range {
            Some((s, e)) => {
                emit_plain(b, (bs + lead + s)..(bs + lead + e), summary.as_slice(), Marks::default());
            },
            None => {
                emit_plain(b, bs..be, summary.as_slice(), Marks::default());
            },
        }
    }
    let open = html_details_open(l.as_slice());
    let summary_s = string_of_bytes(summary);
    Some(BlockExtra::Details { summary: summary_s, open })
}

pub fn project_html_block(src: &[u8], block: &Range<usize>, b: &mut Builder) -> (r: Option<
    BlockExtra,
>)
    requires
        valid_utf8(src@),
        valid_utf8(old(b).display@),
    ensures
        (final(b).state(), match r {
            Some(e) => Some(e.ev()),
            None => None,
        }) == html_block(src@, block.start as int, block.end as int, old(b).state()),
        valid_utf8(final(b).display@),
{
    let bs = block.start;
    let be = block.end;
    let sl = sub_bytes(src, bs, be);
    let sn: usize = sl.len();
    proof {
        if sn > 0 {
            assert(bs + sn <= src@.len());
        }
        crate::text::lemma_boundary_zero(sl@);
        lemma_trim_boundaries(sl@, 0, sn as int);
    }
    let lead = trim_start_idx(sl.as_slice(), 0, sn);
    let te = trim_end_idx(sl.as_slice(), lead, sn);
    proof {
        lemma_sub_valid(sl@, lead as int, te as int);
    }
    let t = slice_vec(sl.as_slice(), lead, te);
    let n: usize = t.len();
    let l = ascii_lower(t.as_slice());
    if n == 0 || t[0] != 60 {
        return None;
    }
    match html_heading_level(l.as_slice()) {
        Some(level) => html_heading(src, bs, be, lead, &t, &l, level, b),
        None => {
            let dtag: [u8; 8] = [60, 100, 101, 116, 97, 105, 108, 115];
            let ctag: [u8; 9] = [60, 47, 100, 101, 116, 97, 105, 108, 115];
            assert(dtag@ =~= details_tag());
            assert(ctag@ =~= details_close_tag());
            if has_prefix_exec(l.as_slice(), &dtag) && n > 8 && (l[8] == 62 || l[8] == 32 || l[8]
                == 9 || l[8] == 10) {
                return html_details(src.len(), bs, be, lead, &t, &l, b);
            }
            if has_prefix_exec(l.as_slice(), &ctag) {
                let ra = trim_start_idx(l.as_slice(), 9, n);
                let re = trim_end_idx(l.as_slice(), ra, n);
                if ra == re || l[ra] == 62 {
                    return Some(BlockExtra::DetailsClose);
                }
            }
            None
        },
    }
}

} // verus!
