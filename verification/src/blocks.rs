//! Projection of one block by its kind, and of the whole source block by
//! block: blank slots become empty paragraphs, atomic blocks a placeholder.
use std::ops::Range;

use vstd::prelude::*;
use vstd::utf8::*;

use crate::display::{no_marks, BlockExtra, ExtraV, ListItem, Marks, ProjBlock, Projection, Segment};
use crate::document::{
    paint_ranges, parse_ranges, tiles, PaintRange,
    blank_text, incomplete_heading_marker, incomplete_list_marker, sole_image, sole_image_of,
    BlockKind,
};
use crate::emit::{anchor, emit, emit_plain, push_sep, rng, seg, sep, Builder, BV};
use crate::html::{html_block, project_html_block};
use crate::inline::{closed_items, inline_walk, project_inlines, scan_init};
use crate::md::{md_parse, md_spans, GFM_FLAGS};
use crate::notion::{fence_body, fence_lang, strip_fence};
use crate::projection::{body_abs_range, body_span, code_fence_indent, dedent_code, dedented, fence_indent};
use crate::restore::{restore_heading_suffix, restore_spaces, restore_suffix, restore_trailing_spaces};
use crate::table::{project_table, table_init, table_walk};
use crate::text::{at_boundary, bytes_of, lemma_sub_valid, lemma_utf8_valid, slice_vec, substr, trim_nl_end, utf8};

verus! {

broadcast use vstd::seq::group_seq_axioms, vstd::slice::group_slice_axioms;

/// Events of the GFM parse of the block bytes `sb`.
pub open spec fn block_events(sb: Seq<u8>) -> Seq<crate::md::MdSpan> {
    md_spans(decode_utf8(sb), GFM_FLAGS)
}

/// A code block: its body without the shared indent, mapped to where the
/// body stands in the block.
pub open spec fn code_proj(src: Seq<u8>, s: int, e: int, o: BV) -> (BV, ExtraV) {
    let sb = src.subrange(s, e);
    let (la, le) = fence_lang(sb);
    let (fa, fe) = fence_body(sb);
    let body = sb.subrange(fa, fe);
    let (xa, xe) = body_span(sb, body, s);
    (
        emit(o, rng(xa, xe), dedented(body), no_marks()),
        ExtraV::Code { lang: sb.subrange(la, le), indent: fence_indent(src, s, sb) as usize },
    )
}

/// Blocks whose text the inline scan shows: lists, headings, quotes,
/// alerts, paragraphs.
pub open spec fn text_proj(src: Seq<u8>, kind: BlockKind, s: int, e: int, o: BV) -> (BV, ExtraV) {
    let sb = src.subrange(s, e);
    let ev = block_events(sb);
    match kind {
        BlockKind::List { ordered } => {
            let (o1, sv) = inline_walk(src, sb, s, o, scan_init(false), ev);
            (
                o1,
                ExtraV::List {
                    ordered,
                    items: if sv.saw_list {
                        closed_items(sv.items)
                    } else {
                        Seq::empty()
                    },
                },
            )
        },
        BlockKind::Heading(level) => {
            let (o1, _) = inline_walk(src, sb, s, o, scan_init(false), ev);
            (restore_suffix(src, s, e, restore_spaces(src, s, e, o1)), ExtraV::Heading(level))
        },
        BlockKind::Quote => {
            let (o1, _) = inline_walk(src, sb, s, o, scan_init(false), ev);
            (restore_spaces(src, s, e, o1), ExtraV::Quote)
        },
        BlockKind::Alert(k) => {
            let (o1, _) = inline_walk(src, sb, s, o, scan_init(true), ev);
            (restore_spaces(src, s, e, o1), ExtraV::Alert(k))
        },
        _ => if incomplete_list_marker(sb) || incomplete_heading_marker(sb) {
            let le = trim_nl_end(sb, 0, sb.len() as int);
            (emit(o, rng(s, s + le), sb.subrange(0, le), no_marks()), ExtraV::Text)
        } else {
            let (o1, _) = inline_walk(src, sb, s, o, scan_init(false), ev);
            (restore_spaces(src, s, e, o1), ExtraV::Text)
        },
    }
}

/// The projection of the block `s..e` of kind `kind`, laid over `o`.
#[verifier::opaque]
pub open spec fn block_proj(src: Seq<u8>, kind: BlockKind, s: int, e: int, o: BV) -> (BV, ExtraV) {
    let sb = src.subrange(s, e);
    if blank_text(sb) {
        (o, ExtraV::Text)
    } else {
        match sole_image_of(sb) {
            Some((alt, img)) => (o, ExtraV::Image { alt, src: img }),
            None => match kind {
                BlockKind::Rule => (o, ExtraV::Rule),
                BlockKind::Html | BlockKind::Raw => match html_block(src, s, e, o) {
                    (o1, Some(x)) => (o1, x),
                    (o1, None) => (emit(o1, rng(s, e), sb, no_marks()), ExtraV::Html),
                },
                BlockKind::Code => code_proj(src, s, e, o),
                BlockKind::Table => {
                    let (o1, t) = table_walk(sb, s, o, table_init(), block_events(sb));
                    (o1, ExtraV::Table { cells: t.cells, rows: t.row as usize, cols: t.cols as usize })
                },
                _ => text_proj(src, kind, s, e, o),
            },
        }
    }
}

/// Events of the parse of a block slice.
fn events_of(slice: &str) -> (r: Vec<crate::md::MdSpan>)
    ensures
        r@ == block_events(utf8(slice@)),
{
    proof {
        encode_utf8_decode_utf8(slice@);
    }
    md_parse(slice)
}

fn project_code(all: &[u8], slice: &str, s: usize, e: usize, b: &mut Builder) -> (r: BlockExtra)
    requires
        valid_utf8(all@),
        s <= e <= all@.len(),
        utf8(slice@) == all@.subrange(s as int, e as int),
        valid_utf8(old(b).display@),
    ensures
        (final(b).state(), r.ev()) == code_proj(all@, s as int, e as int, old(b).state()),
        valid_utf8(final(b).display@),
{
    let sb = bytes_of(slice);
    let (lang, body) = strip_fence(slice);
    let lb = bytes_of(lang.as_str());
    let bb = bytes_of(body.as_str());
    proof {
        crate::text::lemma_utf8_valid(body@);
        crate::notion::lemma_fence_lang_bounds(sb@);
    }
    let abs = body_abs_range(sb, bb, lb.len(), s);
    let indent = code_fence_indent(all, s, sb);
    let shown = dedent_code(bb);
    emit_plain(b, abs, shown.as_slice(), Marks::default());
    BlockExtra::Code { lang, indent }
}

fn project_text(all: &[u8], slice: &str, kind: BlockKind, s: usize, e: usize, b: &mut Builder) -> (r:
    BlockExtra)
    requires
        valid_utf8(all@),
        s <= e <= all@.len(),
        utf8(slice@) == all@.subrange(s as int, e as int),
        valid_utf8(old(b).display@),
    ensures
        (final(b).state(), r.ev()) == text_proj(all@, kind, s as int, e as int, old(b).state()),
        valid_utf8(final(b).display@),
{
    let sb = bytes_of(slice);
    let m: usize = sb.len();
    let ev = events_of(slice);
    match kind {
        BlockKind::List { ordered } => {
            let items = project_inlines(all, slice, s, false, ev, b);
            let items = match items {
                Some(v) => v,
                None => Vec::new(),
            };
            BlockExtra::List { ordered, items }
        },
        BlockKind::Heading(level) => {
            let _ = project_inlines(all, slice, s, false, ev, b);
            restore_trailing_spaces(all, s..e, b);
            restore_heading_suffix(all, s..e, b);
            BlockExtra::Heading(level)
        },
        BlockKind::Quote => {
            let _ = project_inlines(all, slice, s, false, ev, b);
            restore_trailing_spaces(all, s..e, b);
            BlockExtra::Quote
        },
        BlockKind::Alert(k) => {
            let _ = project_inlines(all, slice, s, true, ev, b);
            restore_trailing_spaces(all, s..e, b);
            BlockExtra::Alert(k)
        },
        _ => {
            if crate::document::is_incomplete_list_marker(sb)
                || crate::document::is_incomplete_heading_marker(sb) {
                let le = crate::text::trim_nl_end_idx(sb, 0, m);
                proof {
                    lemma_utf8_valid(slice@);
                    crate::text::lemma_boundary_zero(sb@);
                    crate::notion::lemma_trim_nl_end(sb@, 0, m as int);
                    lemma_sub_valid(sb@, 0, le as int);
                }
                let line = slice_vec(sb, 0, le);
                emit_plain(b, s..(s + le), line.as_slice(), Marks::default());
            } else {
                let _ = project_inlines(all, slice, s, false, ev, b);
                restore_trailing_spaces(all, s..e, b);
            }
            BlockExtra::Text
        },
    }
}

pub fn project_block(src: &str, kind: BlockKind, s: usize, e: usize, b: &mut Builder) -> (r:
    BlockExtra)
    requires
        s <= e <= utf8(src@).len(),
        at_boundary(utf8(src@), s as int),
        at_boundary(utf8(src@), e as int),
        valid_utf8(old(b).display@),
    ensures
        (final(b).state(), r.ev()) == block_proj(utf8(src@), kind, s as int, e as int, old(b).state()),
        valid_utf8(final(b).display@),
{
    let all = bytes_of(src);
    let slice = substr(src, s, e);
    let sb = bytes_of(slice);
    let m: usize = sb.len();
    proof {
        reveal(block_proj);
        lemma_utf8_valid(src@);
        lemma_utf8_valid(slice@);
    }
    if crate::text::trim_start_idx(sb, 0, m) >= m {
        return BlockExtra::Text;
    }
    match sole_image(slice) {
        Some((alt, img)) => {
            return BlockExtra::Image { alt, src: img };
        },
        None => {},
    }
    match kind {
        BlockKind::Rule => BlockExtra::Rule,
        BlockKind::Html | BlockKind::Raw => {
            match project_html_block(all, &(s..e), b) {
                Some(x) => x,
                None => {
                    emit_plain(b, s..e, sb, Marks::default());
                    BlockExtra::Html
                },
            }
        },
        BlockKind::Code => project_code(all, slice, s, e, b),
        BlockKind::Table => {
            let ev = events_of(slice);
            project_table(slice, s, ev, b)
        },
        _ => project_text(all, slice, kind, s, e, b),
    }
}


/* ---------- the whole source ---------- */

/// [`ProjBlock`] with its extra as [`ExtraV`].
pub ghost struct PBV {
    pub kind: BlockKind,
    pub source: Range<usize>,
    pub display: Range<usize>,
    pub extra: ExtraV,
}

impl ProjBlock {
    pub open spec fn pv(&self) -> PBV {
        PBV { kind: self.kind, source: self.source, display: self.display, extra: self.extra.ev() }
    }
}

pub open spec fn pvs(bs: Seq<ProjBlock>) -> Seq<PBV> {
    Seq::new(bs.len(), |i: int| bs[i].pv())
}

/// Projection built so far, blocks so far, end of the last range seen.
pub ghost struct PSt {
    pub o: BV,
    pub blocks: Seq<PBV>,
    pub prev_end: int,
}

pub open spec fn imin(a: int, b: int) -> int {
    if a < b {
        a
    } else {
        b
    }
}

pub open spec fn imax(a: int, b: int) -> int {
    if a < b {
        b
    } else {
        a
    }
}

/// The UTF-8 bytes of a no-break space, shown for blocks that display nothing.
pub open spec fn nbsp() -> Seq<u8> {
    seq![0xc2u8, 0xa0u8]
}

/// Empty paragraph `j` of the `count` that a blank range gives.
pub open spec fn one_slot(src: Seq<u8>, r: PaintRange, count: int, j: int, st: PSt) -> PSt {
    let n = src.len() as int;
    let rs = r.range.start as int;
    let re = r.range.end as int;
    let o1 = if st.blocks.len() > 0 {
        let gs = if j == 0 {
            imin(st.prev_end, n)
        } else {
            imin(rs + j, re)
        };
        let ge = imin(rs + j, re);
        sep(st.o, 10, rng(gs, imax(ge, gs)), no_marks())
    } else {
        st.o
    };
    let ss = imin(rs + j, re);
    let se = imax(
        if j + 1 == count {
            re
        } else {
            imin(rs + j + 1, re)
        },
        ss,
    );
    let d0 = o1.0.len() as int;
    let at = crate::projection::empty_insert_at(src, ss, se);
    PSt {
        o: anchor(o1, rng(at, at), no_marks()),
        blocks: st.blocks.push(
            PBV {
                kind: BlockKind::Paragraph,
                source: rng(ss, se),
                display: rng(d0, d0),
                extra: ExtraV::Text,
            },
        ),
        prev_end: st.prev_end,
    }
}

pub open spec fn slots_from(src: Seq<u8>, r: PaintRange, count: int, j: int, st: PSt) -> PSt
    decreases count - j,
{
    if j >= count {
        st
    } else {
        slots_from(src, r, count, j + 1, one_slot(src, r, count, j, st))
    }
}

/// A blank range: empty paragraphs, one per blank-line slot (a lone
/// newline between blocks gives none).
pub open spec fn blank_proj(src: Seq<u8>, r: PaintRange, last: bool, st: PSt) -> PSt {
    let s = r.range.start as int;
    let e = r.range.end as int;
    let sl = src.subrange(s, e);
    let nls = crate::projection::count_byte(sl, 10, 0, sl.len() as int);
    if r.kind == BlockKind::Raw && !(last || nls >= 2) {
        PSt { prev_end: e, ..st }
    } else {
        let count = if last {
            imax(nls, 1)
        } else {
            imax(nls - 1, 1)
        };
        PSt { prev_end: e, ..slots_from(src, r, count, 0, st) }
    }
}

/// A block with content: a separator, its projection, and a placeholder or
/// caret anchor when it shows nothing.
pub open spec fn content_proj(src: Seq<u8>, r: PaintRange, st: PSt) -> PSt {
    let n = src.len() as int;
    let s = r.range.start as int;
    let e = r.range.end as int;
    let o1 = if st.blocks.len() > 0 {
        sep(st.o, 10, rng(imin(st.prev_end, n), imin(s, n)), no_marks())
    } else {
        st.o
    };
    let d0 = o1.0.len() as int;
    let (o2, x) = block_proj(src, r.kind, s, e, o1);
    let o3 = if o2.0.len() == d0 && (x is Rule || x is Image) {
        (o2.0 + nbsp(), o2.1.push(seg(rng(d0, d0 + 2), r.range, no_marks())), o2.2)
    } else {
        o2
    };
    let o4 = if o3.0.len() == d0 {
        let p = crate::restore::content_at(src, r.kind, s, e);
        anchor(o3, rng(p, p), no_marks())
    } else {
        o3
    };
    PSt {
        o: o4,
        blocks: st.blocks.push(
            PBV { kind: r.kind, source: r.range, display: rng(d0, o4.0.len() as int), extra: x },
        ),
        prev_end: e,
    }
}

/// One paint range laid over the projection (`last`: it is the final one).
pub open spec fn range_proj(src: Seq<u8>, r: PaintRange, last: bool, st: PSt) -> PSt {
    let sl = src.subrange(r.range.start as int, r.range.end as int);
    if blank_text(sl) {
        blank_proj(src, r, last, st)
    } else {
        content_proj(src, r, st)
    }
}

pub open spec fn ranges_proj(src: Seq<u8>, rs: Seq<PaintRange>, i: int, st: PSt) -> PSt
    decreases rs.len() - i,
{
    if i < 0 || i >= rs.len() {
        st
    } else {
        ranges_proj(src, rs, i + 1, range_proj(src, rs[i], i + 1 == rs.len(), st))
    }
}

pub open spec fn proj_init() -> PSt {
    PSt {
        o: (Seq::<u8>::empty(), Seq::<Segment>::empty(), Seq::<String>::empty()),
        blocks: Seq::empty(),
        prev_end: 0,
    }
}

/// The projection of the source with characters `c`.
pub open spec fn project_of(c: Seq<char>) -> PSt {
    let src = utf8(c);
    let n = src.len() as int;
    let st = ranges_proj(src, paint_ranges(src, md_spans(c, GFM_FLAGS)), 0, proj_init());
    if st.blocks.len() == 0 {
        PSt {
            o: (st.o.0, st.o.1.push(seg(rng(0, 0), rng(0, n), no_marks())), st.o.2),
            blocks: seq![
                PBV {
                    kind: BlockKind::Paragraph,
                    source: rng(0, n),
                    display: rng(0, 0),
                    extra: ExtraV::Text,
                },
            ],
            prev_end: st.prev_end,
        }
    } else {
        st
    }
}

proof fn lemma_nbsp_valid()
    ensures
        valid_utf8(nbsp()),
{
    let b = seq![0xc2u8, 0xa0u8];
    assert(is_leading_byte_width_2(b[0]));
    assert(is_continuation_byte(b[1]));
    assert(((((0xc2u8 & 0x1f) as u32) << 6u32) | ((0xa0u8 & 0x3f) as u32)) == 0xa0u32) by (bit_vector);
    assert(codepoint_width_2(b[0], b[1]) == 0xa0);
    assert(valid_first_scalar(b));
    assert(pop_first_scalar(b) =~= Seq::<u8>::empty());
    assert(valid_utf8(pop_first_scalar(b)));
}


pub proof fn lemma_tiles_bounds(b: Seq<u8>, rs: Seq<PaintRange>, i: int)
    requires
        tiles(b, rs),
        0 <= i < rs.len(),
    ensures
        rs[i].range.start <= rs[i].range.end <= b.len(),
    decreases rs.len() - i,
{
    if i < rs.len() - 1 {
        lemma_tiles_bounds(b, rs, i + 1);
        assert(rs[i].range.end == rs[i + 1].range.start);
    }
}

fn push_slot(
    all: &[u8],
    r: &PaintRange,
    count: usize,
    j: usize,
    b: &mut Builder,
    blocks: &mut Vec<ProjBlock>,
    prev_end: usize,
)
    requires
        j < count,
        count == 1 || count <= r.range.end - r.range.start,
        r.range.start <= r.range.end <= all@.len(),
        valid_utf8(old(b).display@),
    ensures
        (PSt { o: final(b).state(), blocks: pvs(final(blocks)@), prev_end: prev_end as int })
            == one_slot(
            all@,
            *r,
            count as int,
            j as int,
            PSt { o: old(b).state(), blocks: pvs(old(blocks)@), prev_end: prev_end as int },
        ),
        valid_utf8(final(b).display@),
{
    let n: usize = all.len();
    let rs = r.range.start;
    let re = r.range.end;
    if blocks.len() > 0 {
        let gs: usize = if j == 0 {
            if prev_end < n {
                prev_end
            } else {
                n
            }
        } else if rs + j < re {
            rs + j
        } else {
            re
        };
        let ge: usize = if rs + j < re {
            rs + j
        } else {
            re
        };
        push_sep(b, 10, gs..(if ge < gs { gs } else { ge }), Marks::default());
    }
    let ss: usize = if rs + j < re {
        rs + j
    } else {
        re
    };
    let se0: usize = if j + 1 == count {
        re
    } else if rs + j + 1 < re {
        rs + j + 1
    } else {
        re
    };
    let se: usize = if se0 < ss {
        ss
    } else {
        se0
    };
    let d0: usize = b.display.len();
    let at = crate::projection::empty_insert_point(all, ss..se);
    crate::emit::push_anchor(b, at..at, Marks::default());
    let ghost before = pvs(blocks@);
    blocks.push(
        ProjBlock {
            kind: BlockKind::Paragraph,
            source: ss..se,
            display: d0..d0,
            extra: BlockExtra::Text,
        },
    );
    proof {
        assert(pvs(blocks@) =~= before.push(
            PBV { kind: BlockKind::Paragraph, source: ss..se, display: d0..d0, extra: ExtraV::Text },
        ));
    }
}

fn project_blank(
    all: &[u8],
    r: &PaintRange,
    last: bool,
    b: &mut Builder,
    blocks: &mut Vec<ProjBlock>,
    prev_end: &mut usize,
)
    requires
        r.range.start <= r.range.end <= all@.len(),
        valid_utf8(old(b).display@),
    ensures
        (PSt { o: final(b).state(), blocks: pvs(final(blocks)@), prev_end: *final(prev_end) as int })
            == blank_proj(
            all@,
            *r,
            last,
            PSt { o: old(b).state(), blocks: pvs(old(blocks)@), prev_end: *old(prev_end) as int },
        ),
        valid_utf8(final(b).display@),
{
    let rs = r.range.start;
    let re = r.range.end;
    let sl = slice_vec(all, rs, re);
    let m: usize = sl.len();
    let ghost st0 = PSt { o: b.state(), blocks: pvs(blocks@), prev_end: *prev_end as int };
    let nls = crate::projection::count_byte_exec(sl.as_slice(), 10, 0, m);
    proof {
        crate::projection::lemma_count_byte(sl@, 10, 0, m as int);
    }
    if r.kind == BlockKind::Raw && !(last || nls >= 2) {
        *prev_end = re;
        return ;
    }
    let count: usize = if last {
        if nls > 1 {
            nls
        } else {
            1
        }
    } else if nls >= 2 {
        nls - 1
    } else {
        1
    };
    let pe: usize = *prev_end;
    let mut j: usize = 0;
    while j < count
        invariant
            j <= count,
            count == 1 || count <= re - rs,
            rs <= re <= all@.len(),
            slots_from(all@, *r, count as int, j as int, PSt { o: b.state(), blocks: pvs(blocks@), prev_end: pe as int })
                == slots_from(all@, *r, count as int, 0, st0),
            pe as int == st0.prev_end,
            valid_utf8(b.display@),
            r.range.start == rs,
            r.range.end == re,
        decreases count - j,
    {
        push_slot(all, r, count, j, b, blocks, pe);
        j += 1;
    }
    *prev_end = re;
}

fn project_content(
    src: &str,
    all: &[u8],
    r: &PaintRange,
    b: &mut Builder,
    blocks: &mut Vec<ProjBlock>,
    prev_end: &mut usize,
)
    requires
        all@ == utf8(src@),
        r.range.start <= r.range.end <= all@.len(),
        at_boundary(all@, r.range.start as int),
        at_boundary(all@, r.range.end as int),
        valid_utf8(old(b).display@),
    ensures
        (PSt { o: final(b).state(), blocks: pvs(final(blocks)@), prev_end: *final(prev_end) as int })
            == content_proj(
            all@,
            *r,
            PSt { o: old(b).state(), blocks: pvs(old(blocks)@), prev_end: *old(prev_end) as int },
        ),
        valid_utf8(final(b).display@),
{
    let n: usize = all.len();
    let rs = r.range.start;
    let re = r.range.end;
    if blocks.len() > 0 {
        let a: usize = if *prev_end < n {
            *prev_end
        } else {
            n
        };
        let z: usize = if rs < n {
            rs
        } else {
            n
        };
        push_sep(b, 10, a..z, Marks::default());
    }
    let d0: usize = b.display.len();
    let extra = project_block(src, r.kind, rs, re, b);
    if b.display.len() == d0 && extra.is_atomic() {
        proof {
            lemma_nbsp_valid();
            crate::text::lemma_valid_concat(b.display@, nbsp());
        }
        let ghost before = b.display@;
        b.display.push(0xc2);
        b.display.push(0xa0);
        assert(b.display@ =~= before + nbsp());
        let d1: usize = b.display.len();
        b.segments.push(Segment { display: d0..d1, source: rs..re, marks: Marks::default() });
    }
    if b.display.len() == d0 {
        proof {
            lemma_utf8_valid(src@);
        }
        let p = crate::restore::content_point(all, r.kind, &(rs..re));
        crate::emit::push_anchor(b, p, Marks::default());
    }
    let d1: usize = b.display.len();
    let ghost before = pvs(blocks@);
    let ghost x = extra.ev();
    blocks.push(ProjBlock { kind: r.kind, source: rs..re, display: d0..d1, extra });
    *prev_end = re;
    proof {
        assert(pvs(blocks@) =~= before.push(
            PBV { kind: r.kind, source: rs..re, display: d0..d1, extra: x },
        ));
    }
}

pub fn project_range(
    src: &str,
    all: &[u8],
    r: &PaintRange,
    last: bool,
    b: &mut Builder,
    blocks: &mut Vec<ProjBlock>,
    prev_end: &mut usize,
)
    requires
        all@ == utf8(src@),
        r.range.start <= r.range.end <= all@.len(),
        at_boundary(all@, r.range.start as int),
        at_boundary(all@, r.range.end as int),
        valid_utf8(old(b).display@),
    ensures
        (PSt { o: final(b).state(), blocks: pvs(final(blocks)@), prev_end: *final(prev_end) as int })
            == range_proj(
            all@,
            *r,
            last,
            PSt { o: old(b).state(), blocks: pvs(old(blocks)@), prev_end: *old(prev_end) as int },
        ),
        valid_utf8(final(b).display@),
{
    let rs = r.range.start;
    let re = r.range.end;
    let sl = slice_vec(all, rs, re);
    let m: usize = sl.len();
    if crate::text::trim_start_idx(sl.as_slice(), 0, m) >= m {
        project_blank(all, r, last, b, blocks, prev_end);
    } else {
        project_content(src, all, r, b, blocks, prev_end);
    }
}

} // verus!
