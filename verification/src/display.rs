//! GFM `source` to visible projection. Syntax stays in the file; the caret
//! walks `display`, and segments map display offsets back to source offsets.
use std::ops::Range;

use vstd::prelude::*;
use vstd::string::*;
use vstd::utf8::*;

use crate::document::{AlertKind, BlockKind};
use crate::search::{first_index, last_index, lemma_first_index, lemma_last_index};
use crate::blocks::{lemma_tiles_bounds, project_of, pvs, ranges_proj, proj_init, PBV, PSt};
use crate::document::{parse_ranges, paint_ranges, tiles};
use crate::md::{md_spans, GFM_FLAGS};
use crate::text::{at_boundary, bytes_of, floor_boundary, lemma_boundary_iff, lemma_floor_boundary, lemma_utf8_valid, utf8};

verus! {

broadcast use vstd::seq::group_seq_axioms, vstd::slice::group_slice_axioms;

#[derive(Clone, Copy, Debug, PartialEq, Eq, Structural)]
pub struct Marks {
    pub bold: bool,
    pub italic: bool,
    pub strike: bool,
    pub code: bool,
    pub underline: bool,
    pub link: Option<u32>,
}

pub open spec fn no_marks() -> Marks {
    Marks { bold: false, italic: false, strike: false, code: false, underline: false, link: None }
}

pub open spec fn marked(m: Marks) -> bool {
    m.bold || m.italic || m.strike || m.code || m.underline || m.link is Some
}

impl Default for Marks {
    fn default() -> (r: Self)
        ensures
            r == no_marks(),
    {
        Marks { bold: false, italic: false, strike: false, code: false, underline: false, link: None }
    }
}

impl Marks {
    /// Any mark is set.
    pub fn any(self) -> (r: bool)
        ensures
            r == marked(self),
    {
        self.bold || self.italic || self.strike || self.code || self.underline || self.link.is_some()
    }
}

#[derive(Clone, Copy, Debug, PartialEq, Eq, Structural)]
pub enum Affinity {
    /// Insert stays inside the mark at a boundary (extend bold).
    Inside,
    /// Insert leaves the mark (Right at end of a run).
    Outside,
}

#[derive(Debug)]
pub struct Segment {
    pub display: Range<usize>,
    pub source: Range<usize>,
    pub marks: Marks,
}

#[derive(Debug)]
pub struct ListItem {
    pub display: Range<usize>,
    pub source: Range<usize>,
    pub indent: usize,
    pub checked: Option<bool>,
}

#[derive(Debug)]
pub struct TableCell {
    pub display: Range<usize>,
    pub source: Range<usize>,
    pub header: bool,
    pub row: usize,
    pub col: usize,
}

#[derive(Debug)]
pub enum BlockExtra {
    Text,
    Heading(u8),
    List { ordered: bool, items: Vec<ListItem> },
    Code {
        lang: String,
        /// Leading spaces of the fence in source (0 for top-level).
        indent: usize,
    },
    Quote,
    Alert(AlertKind),
    Table { cells: Vec<TableCell>, rows: usize, cols: usize },
    Rule,
    Image { alt: String, src: String },
    Html,
    /// Single-line `<h1>…</h1>` … `<h6>…</h6>` rendered as a heading.
    HtmlHeading(u8),
    /// `<details>` open tag: a disclosure row showing `summary`.
    Details { summary: String, open: bool },
    /// `</details>` close tag: zero-height chrome.
    DetailsClose,
}

/// [`BlockExtra`] with its strings as UTF-8 bytes and its vectors as sequences.
pub ghost enum ExtraV {
    Text,
    Heading(u8),
    List { ordered: bool, items: Seq<ListItem> },
    Code { lang: Seq<u8>, indent: usize },
    Quote,
    Alert(AlertKind),
    Table { cells: Seq<TableCell>, rows: usize, cols: usize },
    Rule,
    Image { alt: Seq<u8>, src: Seq<u8> },
    Html,
    HtmlHeading(u8),
    Details { summary: Seq<u8>, open: bool },
    DetailsClose,
}

impl BlockExtra {
    pub open spec fn ev(&self) -> ExtraV {
        match self {
            BlockExtra::Text => ExtraV::Text,
            BlockExtra::Heading(l) => ExtraV::Heading(*l),
            BlockExtra::List { ordered, items } => ExtraV::List { ordered: *ordered, items: items@ },
            BlockExtra::Code { lang, indent } => ExtraV::Code { lang: utf8(lang@), indent: *indent },
            BlockExtra::Quote => ExtraV::Quote,
            BlockExtra::Alert(k) => ExtraV::Alert(*k),
            BlockExtra::Table { cells, rows, cols } => ExtraV::Table {
                cells: cells@,
                rows: *rows,
                cols: *cols,
            },
            BlockExtra::Rule => ExtraV::Rule,
            BlockExtra::Image { alt, src } => ExtraV::Image { alt: utf8(alt@), src: utf8(src@) },
            BlockExtra::Html => ExtraV::Html,
            BlockExtra::HtmlHeading(l) => ExtraV::HtmlHeading(*l),
            BlockExtra::Details { summary, open } => ExtraV::Details {
                summary: utf8(summary@),
                open: *open,
            },
            BlockExtra::DetailsClose => ExtraV::DetailsClose,
        }
    }

    /// Rules and images are edited as one unit.
    pub fn is_atomic(&self) -> (r: bool)
        ensures
            r == (self is Rule || self is Image),
    {
        match self {
            BlockExtra::Rule | BlockExtra::Image { .. } => true,
            _ => false,
        }
    }
}

#[derive(Debug)]
pub struct ProjBlock {
    pub kind: BlockKind,
    pub source: Range<usize>,
    pub display: Range<usize>,
    pub extra: BlockExtra,
}

#[derive(Debug)]
pub struct Projection {
    pub display: String,
    pub segments: Vec<Segment>,
    pub blocks: Vec<ProjBlock>,
    pub links: Vec<String>,
    pub source_len: usize,
}

/* ---------- range helpers ---------- */

pub open spec fn rlen(r: Range<usize>) -> int {
    if r.start < r.end {
        r.end - r.start
    } else {
        0
    }
}

pub open spec fn rempty(r: Range<usize>) -> bool {
    !(r.start < r.end)
}

pub open spec fn imin(a: int, b: int) -> int {
    if a <= b {
        a
    } else {
        b
    }
}

pub open spec fn imax(a: int, b: int) -> int {
    if a >= b {
        a
    } else {
        b
    }
}

/* ---------- predicates over blocks and segments ---------- */

pub open spec fn bdisp_in(d: int) -> spec_fn(ProjBlock) -> bool {
    |b: ProjBlock| b.display.start <= d < b.display.end
}

pub open spec fn bdisp_at(d: int) -> spec_fn(ProjBlock) -> bool {
    |b: ProjBlock| b.display.start <= d <= b.display.end
}

pub open spec fn bsrc_in(s: int) -> spec_fn(ProjBlock) -> bool {
    |b: ProjBlock| b.source.start <= s < b.source.end
}

pub open spec fn bsrc_at(s: int) -> spec_fn(ProjBlock) -> bool {
    |b: ProjBlock| b.source.start <= s <= b.source.end
}

/// The block shown at display offset `d`: the first that strictly contains
/// it, else the last whose closed range holds it.
pub open spec fn block_ix_at_display(blocks: Seq<ProjBlock>, d: int) -> Option<int> {
    match first_index(blocks, bdisp_in(d), 0) {
        Some(i) => Some(i),
        None => last_index(blocks, bdisp_at(d), blocks.len() as int),
    }
}

/// The block holding source offset `s`, with the same tie rule.
pub open spec fn block_ix_at_source(blocks: Seq<ProjBlock>, s: int) -> Option<int> {
    match first_index(blocks, bsrc_in(s), 0) {
        Some(i) => Some(i),
        None => last_index(blocks, bsrc_at(s), blocks.len() as int),
    }
}

pub open spec fn clamp_to(d: int, n: int) -> int {
    if d <= n {
        d
    } else {
        n
    }
}

impl Projection {
    pub open spec fn dlen(&self) -> int {
        utf8(self.display@).len() as int
    }

    pub open spec fn block_ix_display(&self, d: int) -> Option<int> {
        block_ix_at_display(self.blocks@, clamp_to(d, self.dlen()))
    }

    pub open spec fn block_ix_source(&self, s: int) -> Option<int> {
        block_ix_at_source(self.blocks@, clamp_to(s, self.source_len as int))
    }

    fn display_len(&self) -> (r: usize)
        ensures
            r as int == self.dlen(),
    {
        bytes_of(self.display.as_str()).len()
    }

    pub(crate) fn block_index_at_display(&self, d: usize) -> (r: Option<usize>)
        ensures
            r matches Some(i) ==> i < self.blocks@.len(),
            match r {
                Some(i) => self.block_ix_display(d as int) == Some(i as int),
                None => self.block_ix_display(d as int) is None,
            },
    {
        let n: usize = self.display_len();
        let dc: usize = if d <= n {
            d
        } else {
            n
        };
        let ghost bs = self.blocks@;
        let mut i: usize = 0;
        while i < self.blocks.len()
            invariant
                0 <= i <= bs.len(),
                bs == self.blocks@,
                dc as int == clamp_to(d as int, self.dlen()),
                first_index(bs, bdisp_in(dc as int), 0) == first_index(bs, bdisp_in(dc as int), i as int),
            decreases bs.len() - i,
        {
            let b = &self.blocks[i];
            if b.display.start <= dc && dc < b.display.end {
                assert(bdisp_in(dc as int)(bs[i as int]));
                return Some(i);
            }
            i += 1;
        }
        let mut j: usize = self.blocks.len();
        while j > 0
            invariant
                0 <= j <= bs.len(),
                bs == self.blocks@,
                dc as int == clamp_to(d as int, self.dlen()),
                first_index(bs, bdisp_in(dc as int), 0) is None,
                dc as int == clamp_to(d as int, self.dlen()),
                last_index(bs, bdisp_at(dc as int), bs.len() as int) == last_index(
                    bs,
                    bdisp_at(dc as int),
                    j as int,
                ),
            decreases j,
        {
            let b = &self.blocks[j - 1];
            if b.display.start <= dc && dc <= b.display.end {
                assert(bdisp_at(dc as int)(bs[j - 1]));
                return Some(j - 1);
            }
            j -= 1;
        }
        None
    }

    fn block_index_at_source(&self, s: usize) -> (r: Option<usize>)
        ensures
            r matches Some(i) ==> i < self.blocks@.len(),
            match r {
                Some(i) => self.block_ix_source(s as int) == Some(i as int),
                None => self.block_ix_source(s as int) is None,
            },
    {
        let sc: usize = if s <= self.source_len {
            s
        } else {
            self.source_len
        };
        let ghost bs = self.blocks@;
        let mut i: usize = 0;
        while i < self.blocks.len()
            invariant
                0 <= i <= bs.len(),
                bs == self.blocks@,
                sc as int == clamp_to(s as int, self.source_len as int),
                first_index(bs, bsrc_in(sc as int), 0) == first_index(bs, bsrc_in(sc as int), i as int),
            decreases bs.len() - i,
        {
            let b = &self.blocks[i];
            if b.source.start <= sc && sc < b.source.end {
                assert(bsrc_in(sc as int)(bs[i as int]));
                return Some(i);
            }
            i += 1;
        }
        let mut j: usize = self.blocks.len();
        while j > 0
            invariant
                0 <= j <= bs.len(),
                bs == self.blocks@,
                sc as int == clamp_to(s as int, self.source_len as int),
                first_index(bs, bsrc_in(sc as int), 0) is None,
                sc as int == clamp_to(s as int, self.source_len as int),
                last_index(bs, bsrc_at(sc as int), bs.len() as int) == last_index(
                    bs,
                    bsrc_at(sc as int),
                    j as int,
                ),
            decreases j,
        {
            let b = &self.blocks[j - 1];
            if b.source.start <= sc && sc <= b.source.end {
                assert(bsrc_at(sc as int)(bs[j - 1]));
                return Some(j - 1);
            }
            j -= 1;
        }
        None
    }

    /// Block shown at display offset `d` (clamped to the display).
    pub fn block_at_display(&self, d: usize) -> (r: Option<&ProjBlock>)
        ensures
            match self.block_ix_display(d as int) {
                Some(i) => r == Some(&self.blocks@[i]),
                None => r is None,
            },
    {
        match self.block_index_at_display(d) {
            Some(i) => Some(&self.blocks[i]),
            None => None,
        }
    }

    /// Block holding source offset `s` (clamped to the source).
    pub fn block_at_source(&self, s: usize) -> (r: Option<&ProjBlock>)
        ensures
            match self.block_ix_source(s as int) {
                Some(i) => r == Some(&self.blocks@[i]),
                None => r is None,
            },
    {
        match self.block_index_at_source(s) {
            Some(i) => Some(&self.blocks[i]),
            None => None,
        }
    }
}


/* ---------- segment predicates and the display/source maps ---------- */

pub open spec fn seg_closed(d: int) -> spec_fn(Segment) -> bool {
    |g: Segment| g.display.start <= d <= g.display.end
}

pub open spec fn seg_in(d: int) -> spec_fn(Segment) -> bool {
    |g: Segment| g.display.start <= d < g.display.end
}

pub open spec fn seg_starts(d: int) -> spec_fn(Segment) -> bool {
    |g: Segment| g.display.start == d
}

pub open spec fn seg_link_at(d: int) -> spec_fn(Segment) -> bool {
    |g: Segment| g.display.start <= d <= g.display.end && g.marks.link is Some
}

pub open spec fn seg_ends_by(d: int) -> spec_fn(Segment) -> bool {
    |g: Segment| g.display.end <= d
}

pub open spec fn seg_starts_from(d: int) -> spec_fn(Segment) -> bool {
    |g: Segment| g.display.start >= d
}

/// Smallest display start among segments `< j` linking to `id`, seeded with `init`.
pub open spec fn span_lo(segs: Seq<Segment>, id: u32, j: int, init: int) -> int
    decreases j,
{
    if j <= 0 || j > segs.len() {
        init
    } else if segs[j - 1].marks.link == Some(id) {
        imin(span_lo(segs, id, j - 1, init), segs[j - 1].display.start as int)
    } else {
        span_lo(segs, id, j - 1, init)
    }
}

/// Largest display end among segments `< j` linking to `id`, seeded with `init`.
pub open spec fn span_hi(segs: Seq<Segment>, id: u32, j: int, init: int) -> int
    decreases j,
{
    if j <= 0 || j > segs.len() {
        init
    } else if segs[j - 1].marks.link == Some(id) {
        imax(span_hi(segs, id, j - 1, init), segs[j - 1].display.end as int)
    } else {
        span_hi(segs, id, j - 1, init)
    }
}

/// A segment whose display text starts with a newline (a block or line break).
pub open spec fn is_break(g: Segment, disp: Seq<u8>) -> bool {
    g.display.start < g.display.end <= disp.len() && at_boundary(disp, g.display.end as int)
        && disp[g.display.start as int] == 10
}

/// Display offset of source offset `src`, scanning segments from `i`.
pub open spec fn to_display_from(
    segs: Seq<Segment>,
    src: int,
    source_len: int,
    dlen: int,
    i: int,
) -> int
    decreases segs.len() - i,
{
    if i < 0 || i >= segs.len() {
        dlen
    } else {
        let g = segs[i];
        if src < g.source.start {
            g.display.start as int
        } else if src <= g.source.end {
            if rlen(g.source) == rlen(g.display) && !rempty(g.source) {
                imin(g.display.start + (src - g.source.start), g.display.end as int)
            } else if src == g.source.end {
                g.display.end as int
            } else {
                g.display.start as int
            }
        } else {
            let next_start = if i + 1 < segs.len() {
                segs[i + 1].source.start as int
            } else {
                source_len
            };
            if src < next_start {
                g.display.end as int
            } else {
                to_display_from(segs, src, source_len, dlen, i + 1)
            }
        }
    }
}

impl Projection {
    pub open spec fn to_display_spec(&self, src: int) -> int {
        if self.segments@.len() == 0 {
            0
        } else {
            to_display_from(
                self.segments@,
                clamp_to(src, self.source_len as int),
                self.source_len as int,
                self.dlen(),
                0,
            )
        }
    }

    /// Where a caret at display offset `d` lands in source, scanning from segment `i`.
    pub open spec fn to_source_from(&self, d: int, aff: Affinity, i: int) -> int
        decreases self.segments@.len() - i,
    {
        let segs = self.segments@;
        let disp = utf8(self.display@);
        if i < 0 || i >= segs.len() {
            self.source_len as int
        } else {
            let g = segs[i];
            if d < g.display.start {
                g.source.start as int
            } else if d <= g.display.end {
                if d == g.display.end {
                    let has_next = i + 1 < segs.len();
                    if has_next && segs[i + 1].display.start == d {
                        let nx = segs[i + 1];
                        if is_break(nx, disp) {
                            if rempty(g.display) {
                                g.source.start as int
                            } else {
                                g.source.end as int
                            }
                        } else if aff == Affinity::Inside && marked(g.marks) && !marked(nx.marks) {
                            g.source.end as int
                        } else if aff == Affinity::Outside && marked(g.marks) {
                            nx.source.start as int
                        } else {
                            self.to_source_from(d, aff, i + 1)
                        }
                    } else if aff == Affinity::Outside && marked(g.marks) {
                        if has_next && !is_break(segs[i + 1], disp) {
                            segs[i + 1].source.start as int
                        } else {
                            match self.block_ix_display(g.display.start as int) {
                                Some(b) => imin(
                                    self.blocks@[b].source.end as int,
                                    self.source_len as int,
                                ),
                                None => g.source.end as int,
                            }
                        }
                    } else if rempty(g.display) {
                        g.source.start as int
                    } else {
                        g.source.end as int
                    }
                } else if rlen(g.display) == rlen(g.source) && !rempty(g.display) {
                    imin(g.source.start + (d - g.display.start), g.source.end as int)
                } else if d == g.display.start {
                    g.source.start as int
                } else {
                    g.source.end as int
                }
            } else {
                self.to_source_from(d, aff, i + 1)
            }
        }
    }

    pub open spec fn to_source_spec(&self, d: int, aff: Affinity) -> int {
        if self.segments@.len() == 0 {
            0
        } else {
            self.to_source_from(clamp_to(d, self.dlen()), aff, 0)
        }
    }

    pub open spec fn opener_start_spec(&self, g: Segment) -> int {
        let prev_end = match last_index(
            self.segments@,
            seg_ends_by(g.display.start as int),
            self.segments@.len() as int,
        ) {
            Some(k) => self.segments@[k].source.end as int,
            None => g.source.start as int,
        };
        imin(prev_end, g.source.start as int)
    }

    /// Where the closing delimiters of run `g` end: the source start of the
    /// next segment, or, when no segment follows, the end of the block that
    /// holds the run (within the source).
    pub open spec fn closer_end_spec(&self, g: Segment) -> int {
        let next_start = match first_index(self.segments@, seg_starts_from(g.display.end as int), 0) {
            Some(k) => self.segments@[k].source.start as int,
            None => match self.block_ix_display(g.display.start as int) {
                Some(b) => imin(self.blocks@[b].source.end as int, self.source_len as int),
                None => g.source.end as int,
            },
        };
        imax(next_start, g.source.end as int)
    }

    /// Range widened over segments `< j` that lie in `[sd, ed]` and carry marks.
    pub open spec fn widen(&self, sd: int, ed: int, j: int, lo: int, hi: int) -> (int, int)
        decreases j,
    {
        if j <= 0 || j > self.segments@.len() {
            (lo, hi)
        } else {
            let (l, h) = self.widen(sd, ed, j - 1, lo, hi);
            let g = self.segments@[j - 1];
            if g.display.start >= sd && g.display.end <= ed && marked(g.marks) {
                (imin(l, self.opener_start_spec(g)), imax(h, self.closer_end_spec(g)))
            } else {
                (l, h)
            }
        }
    }

    pub open spec fn display_range_to_source_spec(&self, start: int, end: int, aff: Affinity) -> (
        int,
        int,
    ) {
        let sd = clamp_to(start, self.dlen());
        let ed = imax(clamp_to(end, self.dlen()), sd);
        if sd == ed {
            let s = self.to_source_spec(sd, aff);
            (s, s)
        } else {
            let (l, h) = self.widen(
                sd,
                ed,
                self.segments@.len() as int,
                self.to_source_spec(sd, Affinity::Outside),
                self.to_source_spec(ed, Affinity::Inside),
            );
            (l, imax(h, l))
        }
    }
}

fn range_len(r: &Range<usize>) -> (n: usize)
    ensures
        n as int == rlen(*r),
{
    if r.start < r.end {
        r.end - r.start
    } else {
        0
    }
}

impl Projection {
    fn find_link_seg(&self, dc: usize) -> (r: Option<usize>)
        ensures
            match r {
                Some(k) => k < self.segments@.len() && first_index(
                    self.segments@,
                    seg_link_at(dc as int),
                    0,
                ) == Some(k as int),
                None => first_index(self.segments@, seg_link_at(dc as int), 0) is None,
            },
    {
        let ghost segs = self.segments@;
        let mut i: usize = 0;
        while i < self.segments.len()
            invariant
                0 <= i <= segs.len(),
                segs == self.segments@,
                first_index(segs, seg_link_at(dc as int), 0) == first_index(
                    segs,
                    seg_link_at(dc as int),
                    i as int,
                ),
            decreases segs.len() - i,
        {
            let g = &self.segments[i];
            if g.display.start <= dc && dc <= g.display.end && g.marks.link.is_some() {
                assert(seg_link_at(dc as int)(segs[i as int]));
                return Some(i);
            }
            i += 1;
        }
        None
    }

    /// The link under display offset `d` and the display span of all its segments.
    pub fn link_at(&self, d: usize) -> (r: Option<(Range<usize>, &str)>)
        ensures
            match first_index(self.segments@, seg_link_at(clamp_to(d as int, self.dlen())), 0) {
                None => r is None,
                Some(k) => {
                    let g = self.segments@[k];
                    let id = g.marks.link->0;
                    if id < self.links@.len() {
                        r matches Some((rg, u)) && rg.start == span_lo(
                            self.segments@,
                            id,
                            self.segments@.len() as int,
                            g.display.start as int,
                        ) && rg.end == span_hi(
                            self.segments@,
                            id,
                            self.segments@.len() as int,
                            g.display.end as int,
                        ) && u@ == self.links@[id as int]@
                    } else {
                        r is None
                    }
                },
            },
    {
        let n: usize = self.display_len();
        let dc: usize = if d <= n {
            d
        } else {
            n
        };
        let ghost segs = self.segments@;
        let k: usize = match self.find_link_seg(dc) {
            Some(k) => k,
            None => {
                return None;
            },
        };
        proof {
            lemma_first_index(segs, seg_link_at(dc as int), 0);
        }
        let g = &self.segments[k];
        let id: u32 = match g.marks.link {
            Some(id) => id,
            None => {
                return None;
            },
        };
        if id as usize >= self.links.len() {
            return None;
        }
        let url: &str = self.links[id as usize].as_str();
        let mut start: usize = g.display.start;
        let mut end: usize = g.display.end;
        let mut j: usize = 0;
        while j < self.segments.len()
            invariant
                0 <= j <= segs.len(),
                segs == self.segments@,
                start as int == span_lo(segs, id, j as int, g.display.start as int),
                end as int == span_hi(segs, id, j as int, g.display.end as int),
            decreases segs.len() - j,
        {
            let s = &self.segments[j];
            if s.marks.link == Some(id) {
                if s.display.start < start {
                    start = s.display.start;
                }
                if s.display.end > end {
                    end = s.display.end;
                }
            }
            j += 1;
        }
        Some((start..end, url))
    }

    /// Marks in effect at display offset `d` for the given insert affinity.
    pub fn marks_at(&self, d: usize, affinity: Affinity) -> (r: Marks)
        ensures
            ({
                let dc = clamp_to(d as int, self.dlen());
                let segs = self.segments@;
                let hit = match affinity {
                    Affinity::Inside => last_index(segs, seg_closed(dc), segs.len() as int),
                    Affinity::Outside => match first_index(segs, seg_in(dc), 0) {
                        Some(k) => Some(k),
                        None => first_index(segs, seg_starts(dc), 0),
                    },
                };
                r == match hit {
                    Some(k) => segs[k].marks,
                    None => no_marks(),
                }
            }),
    {
        let n: usize = self.display_len();
        let dc: usize = if d <= n {
            d
        } else {
            n
        };
        let ghost segs = self.segments@;
        match affinity {
            Affinity::Inside => {
                let mut j: usize = self.segments.len();
                while j > 0
                    invariant
                        0 <= j <= segs.len(),
                        segs == self.segments@,
                        dc as int == clamp_to(d as int, self.dlen()),
                        affinity == Affinity::Inside,
                        last_index(segs, seg_closed(dc as int), segs.len() as int) == last_index(
                            segs,
                            seg_closed(dc as int),
                            j as int,
                        ),
                    decreases j,
                {
                    let g = &self.segments[j - 1];
                    if g.display.start <= dc && dc <= g.display.end {
                        assert(seg_closed(dc as int)(segs[j - 1]));
                        return g.marks;
                    }
                    j -= 1;
                }
                Marks::default()
            },
            Affinity::Outside => {
                let mut i: usize = 0;
                while i < self.segments.len()
                    invariant
                        0 <= i <= segs.len(),
                        segs == self.segments@,
                        dc as int == clamp_to(d as int, self.dlen()),
                        affinity == Affinity::Outside,
                        first_index(segs, seg_in(dc as int), 0) == first_index(
                            segs,
                            seg_in(dc as int),
                            i as int,
                        ),
                    decreases segs.len() - i,
                {
                    let g = &self.segments[i];
                    if g.display.start <= dc && dc < g.display.end {
                        assert(seg_in(dc as int)(segs[i as int]));
                        return g.marks;
                    }
                    i += 1;
                }
                let mut i: usize = 0;
                while i < self.segments.len()
                    invariant
                        0 <= i <= segs.len(),
                        segs == self.segments@,
                        dc as int == clamp_to(d as int, self.dlen()),
                        affinity == Affinity::Outside,
                        first_index(segs, seg_in(dc as int), 0) is None,
                        first_index(segs, seg_starts(dc as int), 0) == first_index(
                            segs,
                            seg_starts(dc as int),
                            i as int,
                        ),
                    decreases segs.len() - i,
                {
                    let g = &self.segments[i];
                    if g.display.start == dc {
                        assert(seg_starts(dc as int)(segs[i as int]));
                        return g.marks;
                    }
                    i += 1;
                }
                Marks::default()
            },
        }
    }

    /// Display offset of source offset `src`.
    pub fn to_display(&self, src: usize) -> (r: usize)
        ensures
            r as int == self.to_display_spec(src as int),
    {
        let sc: usize = if src <= self.source_len {
            src
        } else {
            self.source_len
        };
        if self.segments.len() == 0 {
            return 0;
        }
        let ghost segs = self.segments@;
        let mut i: usize = 0;
        while i < self.segments.len()
            invariant
                0 <= i <= segs.len(),
                segs.len() > 0,
                segs == self.segments@,
                sc as int == clamp_to(src as int, self.source_len as int),
                to_display_from(segs, sc as int, self.source_len as int, self.dlen(), 0)
                    == to_display_from(segs, sc as int, self.source_len as int, self.dlen(), i as int),
            decreases segs.len() - i,
        {
            let g = &self.segments[i];
            if sc < g.source.start {
                return g.display.start;
            }
            if sc <= g.source.end {
                if range_len(&g.source) == range_len(&g.display) && g.source.start < g.source.end {
                    let delta: usize = sc - g.source.start;
                    let at: usize = g.display.start + delta;
                    return if at <= g.display.end {
                        at
                    } else {
                        g.display.end
                    };
                }
                if sc == g.source.end {
                    return g.display.end;
                }
                return g.display.start;
            }
            let next_start: usize = if i + 1 < self.segments.len() {
                self.segments[i + 1].source.start
            } else {
                self.source_len
            };
            if sc < next_start {
                return g.display.end;
            }
            i += 1;
        }
        self.display_len()
    }

    fn seg_is_break(seg: &Segment, display: &str) -> (r: bool)
        ensures
            r == is_break(*seg, utf8(display@)),
    {
        let b = bytes_of(display);
        if seg.display.start < seg.display.end && seg.display.end <= b.len() {
            if b[seg.display.start] != 10 {
                return false;
            }
            let e: usize = seg.display.end;
            e == b.len() || !(0x80 <= b[e] && b[e] <= 0xbf)
        } else {
            false
        }
    }
}


impl Projection {
    /// Source offset for display offset `d`. At mark boundaries the affinity
    /// decides whether the caret stays inside the marked run or leaves it.
    pub fn to_source(&self, d: usize, affinity: Affinity) -> (r: usize)
        ensures
            r as int == self.to_source_spec(d as int, affinity),
    {
        let n: usize = self.display_len();
        let dc: usize = if d <= n {
            d
        } else {
            n
        };
        if self.segments.len() == 0 {
            return 0;
        }
        let ghost segs = self.segments@;
        let mut i: usize = 0;
        while i < self.segments.len()
            invariant
                0 <= i <= segs.len(),
                segs.len() > 0,
                segs == self.segments@,
                dc as int == clamp_to(d as int, self.dlen()),
                self.to_source_from(dc as int, affinity, 0) == self.to_source_from(
                    dc as int,
                    affinity,
                    i as int,
                ),
            decreases segs.len() - i,
        {
            let g = &self.segments[i];
            if dc < g.display.start {
                return g.source.start;
            }
            if dc <= g.display.end {
                if dc == g.display.end {
                    let has_next: bool = i + 1 < self.segments.len();
                    if has_next && self.segments[i + 1].display.start == dc {
                        let nx = &self.segments[i + 1];
                        if Self::seg_is_break(nx, self.display.as_str()) {
                            return if g.display.start < g.display.end {
                                g.source.end
                            } else {
                                g.source.start
                            };
                        }
                        if affinity == Affinity::Inside && g.marks.any() && !nx.marks.any() {
                            return g.source.end;
                        }
                        if affinity == Affinity::Outside && g.marks.any() {
                            return nx.source.start;
                        }
                        i += 1;
                        continue;
                    }
                    if affinity == Affinity::Outside && g.marks.any() {
                        if has_next {
                            if !Self::seg_is_break(&self.segments[i + 1], self.display.as_str()) {
                                return self.segments[i + 1].source.start;
                            }
                        }
                        match self.block_at_display(g.display.start) {
                            Some(b) => {
                                return if b.source.end <= self.source_len {
                                    b.source.end
                                } else {
                                    self.source_len
                                };
                            },
                            None => {
                                return g.source.end;
                            },
                        }
                    }
                    if !(g.display.start < g.display.end) {
                        return g.source.start;
                    }
                    return g.source.end;
                }
                if range_len(&g.display) == range_len(&g.source) && g.display.start < g.display.end {
                    let delta: usize = dc - g.display.start;
                    let at: usize = g.source.start + delta;
                    return if at <= g.source.end {
                        at
                    } else {
                        g.source.end
                    };
                }
                if dc == g.display.start {
                    return g.source.start;
                }
                return g.source.end;
            }
            i += 1;
        }
        self.source_len
    }

    fn opener_start(&self, seg: &Segment) -> (r: usize)
        ensures
            r as int == self.opener_start_spec(*seg),
    {
        let ghost segs = self.segments@;
        let mut j: usize = self.segments.len();
        let mut prev_end: usize = seg.source.start;
        while j > 0
            invariant
                0 <= j <= segs.len(),
                segs == self.segments@,
                prev_end == seg.source.start,
                last_index(segs, seg_ends_by(seg.display.start as int), segs.len() as int)
                    == last_index(segs, seg_ends_by(seg.display.start as int), j as int),
            decreases j,
        {
            let s = &self.segments[j - 1];
            if s.display.end <= seg.display.start {
                assert(seg_ends_by(seg.display.start as int)(segs[j - 1]));
                prev_end = s.source.end;
                return if prev_end <= seg.source.start {
                    prev_end
                } else {
                    seg.source.start
                };
            }
            j -= 1;
        }
        prev_end
    }

    fn closer_end(&self, seg: &Segment) -> (r: usize)
        ensures
            r as int == self.closer_end_spec(*seg),
    {
        let ghost segs = self.segments@;
        let mut i: usize = 0;
        while i < self.segments.len()
            invariant
                0 <= i <= segs.len(),
                segs == self.segments@,
                first_index(segs, seg_starts_from(seg.display.end as int), 0) == first_index(
                    segs,
                    seg_starts_from(seg.display.end as int),
                    i as int,
                ),
            decreases segs.len() - i,
        {
            let s = &self.segments[i];
            if s.display.start >= seg.display.end {
                assert(seg_starts_from(seg.display.end as int)(segs[i as int]));
                let next_start: usize = s.source.start;
                return if next_start >= seg.source.end {
                    next_start
                } else {
                    seg.source.end
                };
            }
            i += 1;
        }
        let end: usize = match self.block_index_at_display(seg.display.start) {
            Some(b) => if self.blocks[b].source.end <= self.source_len {
                self.blocks[b].source.end
            } else {
                self.source_len
            },
            None => seg.source.end,
        };
        if end >= seg.source.end {
            end
        } else {
            seg.source.end
        }
    }

    /// Source range covering a display range. Fully-selected marked runs
    /// expand to include their delimiters so deleting bold text drops `**`.
    pub fn display_range_to_source(&self, range: Range<usize>, affinity: Affinity) -> (r: Range<
        usize,
    >)
        ensures
            (r.start as int, r.end as int) == self.display_range_to_source_spec(
                range.start as int,
                range.end as int,
                affinity,
            ),
    {
        let n: usize = self.display_len();
        let start_d: usize = if range.start <= n {
            range.start
        } else {
            n
        };
        let e0: usize = if range.end <= n {
            range.end
        } else {
            n
        };
        let end_d: usize = if e0 >= start_d {
            e0
        } else {
            start_d
        };
        if start_d == end_d {
            let s: usize = self.to_source(start_d, affinity);
            return s..s;
        }
        let mut src_start: usize = self.to_source(start_d, Affinity::Outside);
        let mut src_end: usize = self.to_source(end_d, Affinity::Inside);
        let ghost lo0 = src_start as int;
        let ghost hi0 = src_end as int;
        let ghost segs = self.segments@;
        let mut j: usize = 0;
        while j < self.segments.len()
            invariant
                0 <= j <= segs.len(),
                segs == self.segments@,
                (src_start as int, src_end as int) == self.widen(
                    start_d as int,
                    end_d as int,
                    j as int,
                    lo0,
                    hi0,
                ),
            decreases segs.len() - j,
        {
            let g = &self.segments[j];
            if g.display.start >= start_d && g.display.end <= end_d && g.marks.any() {
                let o: usize = self.opener_start(g);
                let c: usize = self.closer_end(g);
                if o < src_start {
                    src_start = o;
                }
                if c > src_end {
                    src_end = c;
                }
            }
            j += 1;
        }
        if src_end < src_start {
            src_end = src_start;
        }
        src_start..src_end
    }

    /// The list block and list item under display offset `d`.
    pub fn list_item_at(&self, d: usize) -> (r: Option<(&ProjBlock, &ListItem)>)
        ensures
            match self.block_ix_display(d as int) {
                None => r is None,
                Some(b) => match self.blocks@[b].extra {
                    BlockExtra::List { items, .. } => match first_index(
                        items@,
                        item_at(d as int),
                        0,
                    ) {
                        Some(k) => r == Some((&self.blocks@[b], &items@[k])),
                        None => r is None,
                    },
                    _ => r is None,
                },
            },
    {
        let block = match self.block_at_display(d) {
            Some(b) => b,
            None => {
                return None;
            },
        };
        match &block.extra {
            BlockExtra::List { items, .. } => match find_item(items, d) {
                Some(k) => Some((block, &items[k])),
                None => None,
            },
            _ => None,
        }
    }

    /// The table block and cell under display offset `d`.
    pub fn table_cell_at(&self, d: usize) -> (r: Option<(&ProjBlock, &TableCell)>)
        ensures
            match self.block_ix_display(d as int) {
                None => r is None,
                Some(b) => match self.blocks@[b].extra {
                    BlockExtra::Table { cells, .. } => match first_index(
                        cells@,
                        cell_at(d as int),
                        0,
                    ) {
                        Some(k) => r == Some((&self.blocks@[b], &cells@[k])),
                        None => r is None,
                    },
                    _ => r is None,
                },
            },
    {
        let block = match self.block_at_display(d) {
            Some(b) => b,
            None => {
                return None;
            },
        };
        match &block.extra {
            BlockExtra::Table { cells, .. } => match find_cell(cells, d) {
                Some(k) => Some((block, &cells[k])),
                None => None,
            },
            _ => None,
        }
    }
}

pub open spec fn item_at(d: int) -> spec_fn(ListItem) -> bool {
    |it: ListItem| it.display.start <= d <= it.display.end
}

pub open spec fn cell_at(d: int) -> spec_fn(TableCell) -> bool {
    |c: TableCell| c.display.start <= d <= c.display.end
}

fn find_item(items: &Vec<ListItem>, d: usize) -> (r: Option<usize>)
    ensures
        match r {
            Some(k) => k < items@.len() && first_index(items@, item_at(d as int), 0) == Some(
                k as int,
            ),
            None => first_index(items@, item_at(d as int), 0) is None,
        },
{
    let ghost its = items@;
    let mut i: usize = 0;
    while i < items.len()
        invariant
            0 <= i <= its.len(),
            its == items@,
            first_index(its, item_at(d as int), 0) == first_index(its, item_at(d as int), i as int),
        decreases its.len() - i,
    {
        let it = &items[i];
        if d >= it.display.start && d <= it.display.end {
            assert(item_at(d as int)(its[i as int]));
            return Some(i);
        }
        i += 1;
    }
    None
}

fn find_cell(cells: &Vec<TableCell>, d: usize) -> (r: Option<usize>)
    ensures
        match r {
            Some(k) => k < cells@.len() && first_index(cells@, cell_at(d as int), 0) == Some(
                k as int,
            ),
            None => first_index(cells@, cell_at(d as int), 0) is None,
        },
{
    let ghost cs = cells@;
    let mut i: usize = 0;
    while i < cells.len()
        invariant
            0 <= i <= cs.len(),
            cs == cells@,
            first_index(cs, cell_at(d as int), 0) == first_index(cs, cell_at(d as int), i as int),
        decreases cs.len() - i,
    {
        let c = &cells[i];
        if d >= c.display.start && d <= c.display.end {
            assert(cell_at(d as int)(cs[i as int]));
            return Some(i);
        }
        i += 1;
    }
    None
}

/// Largest character boundary of `s` at or below `i` (clamped to `s.len()`).
pub fn floor_char_boundary(s: &str, i: usize) -> (r: usize)
    ensures
        r == floor_boundary(utf8(s@), i as int),
        at_boundary(utf8(s@), r as int),
        r <= utf8(s@).len(),
{
    proof {
        lemma_utf8_valid(s@);
        lemma_floor_boundary(utf8(s@), i as int);
    }
    let n: usize = bytes_of(s).len();
    let mut j: usize = if i < n { i } else { n };
    while j > 0 && !s.is_char_boundary(j)
        invariant
            j <= n == utf8(s@).len(),
            valid_utf8(utf8(s@)),
            floor_boundary(utf8(s@), i as int) == floor_boundary(utf8(s@), j as int),
        decreases j,
    {
        proof {
            lemma_boundary_iff(utf8(s@), j as int);
        }
        j -= 1;
    }
    proof {
        if j > 0 {
            lemma_boundary_iff(utf8(s@), j as int);
        }
    }
    j
}

/// The visible projection of a GFM source: display text, its segments
/// back to the source, the blocks and the link targets (see [`project_of`]).
pub fn project(src: &str) -> (r: Projection)
    ensures
        utf8(r.display@) == project_of(src@).o.0,
        r.segments@ == project_of(src@).o.1,
        r.links@ == project_of(src@).o.2,
        pvs(r.blocks@) == project_of(src@).blocks,
        r.source_len == utf8(src@).len(),
{
    let all = bytes_of(src);
    let n: usize = all.len();
    let ranges = parse_ranges(src);
    let ghost rs = ranges@;
    let mut b = crate::emit::Builder::new();
    let mut blocks: Vec<ProjBlock> = Vec::new();
    let mut prev_end: usize = 0;
    let mut i: usize = 0;
    proof {
        lemma_utf8_valid(src@);
        assert(pvs(blocks@) =~= Seq::<PBV>::empty());
    }
    while i < ranges.len()
        invariant
            rs == ranges@,
            rs == paint_ranges(utf8(src@), md_spans(src@, GFM_FLAGS)),
            tiles(all@, rs),
            all@ == utf8(src@),
            i <= rs.len(),
            ranges_proj(all@, rs, i as int, PSt { o: b.state(), blocks: pvs(blocks@), prev_end: prev_end as int })
                == ranges_proj(all@, rs, 0, proj_init()),
            valid_utf8(b.display@),
        decreases rs.len() - i,
    {
        proof {
            lemma_tiles_bounds(all@, rs, i as int);
        }
        let last = i + 1 == ranges.len();
        crate::blocks::project_range(src, all, &ranges[i], last, &mut b, &mut blocks, &mut prev_end);
        i += 1;
    }
    if blocks.len() == 0 {
        blocks.push(
            ProjBlock {
                kind: BlockKind::Paragraph,
                source: 0..n,
                display: 0..0,
                extra: BlockExtra::Text,
            },
        );
        b.segments.push(Segment { display: 0..0, source: 0..n, marks: Marks::default() });
        proof {
            assert(pvs(blocks@) =~= project_of(src@).blocks);
        }
    }
    let crate::emit::Builder { display, segments, links } = b;
    let display = crate::text::string_of_bytes(display);
    Projection { display, segments, blocks, links, source_len: n }
}


/* ---------- ordered list markers ---------- */

/// Items before `j` that share `indent` back to the first shallower one.
pub open spec fn sib_count(items: Seq<ListItem>, indent: usize, j: int) -> int
    decreases j,
{
    if j <= 0 || j > items.len() {
        0
    } else if items[j - 1].indent < indent {
        0
    } else {
        (if items[j - 1].indent == indent {
            1int
        } else {
            0int
        }) + sib_count(items, indent, j - 1)
    }
}

/// Sibling index of `ix` among items that share its indent under the same parent.
pub open spec fn sibling_index(items: Seq<ListItem>, ix: int) -> int {
    if ix < 0 || ix >= items.len() {
        0
    } else {
        sib_count(items, items[ix].indent, ix)
    }
}

proof fn lemma_sib_count(items: Seq<ListItem>, indent: usize, j: int)
    requires
        0 <= j <= items.len(),
    ensures
        0 <= sib_count(items, indent, j) <= j,
    decreases j,
{
    if j > 0 {
        lemma_sib_count(items, indent, j - 1);
    }
}

pub fn list_sibling_index(items: &[ListItem], ix: usize) -> (r: usize)
    ensures
        r as int == sibling_index(items@, ix as int),
{
    if ix >= items.len() {
        return 0;
    }
    let indent = items[ix].indent;
    let mut n: usize = 0;
    let mut j: usize = ix;
    proof {
        lemma_sib_count(items@, indent, ix as int);
    }
    while j > 0
        invariant
            j <= ix < items@.len(),
            indent == items@[ix as int].indent,
            n as int + sib_count(items@, indent, j as int) == sib_count(items@, indent, ix as int),
            n <= ix - j,
        decreases j,
    {
        proof {
            lemma_sib_count(items@, indent, j - 1);
        }
        if items[j - 1].indent < indent {
            return n;
        }
        if items[j - 1].indent == indent {
            n += 1;
        }
        j -= 1;
    }
    n
}

/// Decimal digits of `n`.
pub open spec fn dec(n: nat) -> Seq<u8>
    decreases n,
{
    if n < 10 {
        seq![(48 + n) as u8]
    } else {
        dec(n / 10) + seq![(48 + n % 10) as u8]
    }
}

/// Letters `a`..`z`, then `aa`, `ab`, …: the `ix`-th label (from 0).
pub open spec fn alpha(ix: nat) -> Seq<u8>
    decreases ix,
{
    if ix < 26 {
        seq![(97 + ix) as u8]
    } else {
        alpha((ix / 26 - 1) as nat) + seq![(97 + ix % 26) as u8]
    }
}

pub open spec fn roman_value(k: int) -> nat {
    if k == 0 {
        1000
    } else if k == 1 {
        900
    } else if k == 2 {
        500
    } else if k == 3 {
        400
    } else if k == 4 {
        100
    } else if k == 5 {
        90
    } else if k == 6 {
        50
    } else if k == 7 {
        40
    } else if k == 8 {
        10
    } else if k == 9 {
        9
    } else if k == 10 {
        5
    } else if k == 11 {
        4
    } else {
        1
    }
}

pub open spec fn roman_symbol(k: int) -> Seq<u8> {
    if k == 0 {
        seq![109u8]
    } else if k == 1 {
        seq![99u8, 109]
    } else if k == 2 {
        seq![100u8]
    } else if k == 3 {
        seq![99u8, 100]
    } else if k == 4 {
        seq![99u8]
    } else if k == 5 {
        seq![120u8, 99]
    } else if k == 6 {
        seq![108u8]
    } else if k == 7 {
        seq![120u8, 108]
    } else if k == 8 {
        seq![120u8]
    } else if k == 9 {
        seq![105u8, 120]
    } else if k == 10 {
        seq![118u8]
    } else if k == 11 {
        seq![105u8, 118]
    } else {
        seq![105u8]
    }
}

/// Lower-case roman numeral of `n`, greedy over the table from entry `k`.
pub open spec fn roman_from(n: nat, k: int) -> Seq<u8>
    decreases 13 - k, n,
{
    if k < 0 || k >= 13 {
        Seq::empty()
    } else if n >= roman_value(k) {
        roman_symbol(k) + roman_from((n - roman_value(k)) as nat, k)
    } else {
        roman_from(n, k + 1)
    }
}

pub open spec fn roman(n: nat) -> Seq<u8> {
    if n == 0 {
        seq![105u8]
    } else {
        roman_from(n, 0)
    }
}

/// Marker of an ordered item: `1.` / `a.` / `i.` cycling by indent depth.
pub open spec fn ordered_marker_of(indent: usize, sib: usize) -> Seq<u8> {
    let label = if indent % 3 == 0 {
        dec((sib + 1) as nat)
    } else if indent % 3 == 1 {
        alpha(sib as nat)
    } else {
        roman((sib + 1) as nat)
    };
    label + seq![46u8]
}

pub proof fn lemma_dec_ascii(n: nat)
    ensures
        crate::text::all_ascii(dec(n)),
    decreases n,
{
    if n >= 10 {
        lemma_dec_ascii(n / 10);
    }
}

proof fn lemma_alpha_ascii(ix: nat)
    ensures
        crate::text::all_ascii(alpha(ix)),
    decreases ix,
{
    if ix >= 26 {
        lemma_alpha_ascii((ix / 26 - 1) as nat);
    }
}

proof fn lemma_roman_ascii(n: nat, k: int)
    ensures
        crate::text::all_ascii(roman_from(n, k)),
    decreases 13 - k, n,
{
    if 0 <= k < 13 {
        if n >= roman_value(k) {
            lemma_roman_ascii((n - roman_value(k)) as nat, k);
        } else {
            lemma_roman_ascii(n, k + 1);
        }
    }
}

pub fn dec_bytes(n: usize) -> (r: Vec<u8>)
    ensures
        r@ == dec(n as nat),
    decreases n,
{
    if n < 10 {
        let mut v: Vec<u8> = Vec::new();
        v.push(48 + n as u8);
        assert(v@ =~= dec(n as nat));
        v
    } else {
        let mut v = dec_bytes(n / 10);
        v.push(48 + (n % 10) as u8);
        assert(v@ =~= dec(n as nat));
        v
    }
}

fn to_alpha(ix: usize) -> (r: Vec<u8>)
    ensures
        r@ == alpha(ix as nat),
    decreases ix,
{
    if ix < 26 {
        let mut v: Vec<u8> = Vec::new();
        v.push(97 + ix as u8);
        assert(v@ =~= alpha(ix as nat));
        v
    } else {
        let mut v = to_alpha(ix / 26 - 1);
        v.push(97 + (ix % 26) as u8);
        assert(v@ =~= alpha(ix as nat));
        v
    }
}

fn roman_entry(k: usize) -> (r: (usize, Vec<u8>))
    requires
        k < 13,
    ensures
        r.0 as nat == roman_value(k as int),
        r.1@ == roman_symbol(k as int),
{
    let (v, sym): (usize, &[u8]) = if k == 0 {
        (1000, &[109u8])
    } else if k == 1 {
        (900, &[99u8, 109])
    } else if k == 2 {
        (500, &[100u8])
    } else if k == 3 {
        (400, &[99u8, 100])
    } else if k == 4 {
        (100, &[99u8])
    } else if k == 5 {
        (90, &[120u8, 99])
    } else if k == 6 {
        (50, &[108u8])
    } else if k == 7 {
        (40, &[120u8, 108])
    } else if k == 8 {
        (10, &[120u8])
    } else if k == 9 {
        (9, &[105u8, 120])
    } else if k == 10 {
        (5, &[118u8])
    } else if k == 11 {
        (4, &[105u8, 118])
    } else {
        (1, &[105u8])
    };
    let out = crate::text::slice_vec(sym, 0, sym.len());
    assert(out@ =~= roman_symbol(k as int));
    (v, out)
}

fn to_roman(n: usize) -> (r: Vec<u8>)
    ensures
        r@ == roman(n as nat),
{
    if n == 0 {
        let mut v: Vec<u8> = Vec::new();
        v.push(105);
        assert(v@ =~= roman(0));
        return v;
    }
    let mut out: Vec<u8> = Vec::new();
    let mut m: usize = n;
    let mut k: usize = 0;
    while k < 13
        invariant
            k <= 13,
            out@ + roman_from(m as nat, k as int) == roman_from(n as nat, 0),
        decreases 13 - k,
    {
        let (val, sym) = roman_entry(k);
        while m >= val
            invariant
                k < 13,
                val as nat == roman_value(k as int),
                sym@ == roman_symbol(k as int),
                out@ + roman_from(m as nat, k as int) == roman_from(n as nat, 0),
            decreases m,
        {
            let ghost before = out@;
            let mut t: usize = 0;
            while t < sym.len()
                invariant
                    t <= sym@.len(),
                    out@ == before + sym@.subrange(0, t as int),
                decreases sym@.len() - t,
            {
                out.push(sym[t]);
                t += 1;
                assert(out@ =~= before + sym@.subrange(0, t as int));
            }
            assert(sym@.subrange(0, t as int) =~= sym@);
            assert(out@ + roman_from((m - val) as nat, k as int) =~= before + roman_from(m as nat, k as int));
            m = m - val;
        }
        k += 1;
    }
    assert(out@ + roman_from(m as nat, 13) =~= out@);
    out
}

/// Notion-style ordered marker: `1.` / `a.` / `i.` cycling by indent depth.
pub fn ordered_marker(indent: usize, sibling_ix: usize) -> (r: String)
    requires
        sibling_ix < usize::MAX,
    ensures
        utf8(r@) == ordered_marker_of(indent, sibling_ix),
{
    let mut label = if indent % 3 == 0 {
        dec_bytes(sibling_ix + 1)
    } else if indent % 3 == 1 {
        to_alpha(sibling_ix)
    } else {
        to_roman(sibling_ix + 1)
    };
    proof {
        lemma_dec_ascii((sibling_ix + 1) as nat);
        lemma_alpha_ascii(sibling_ix as nat);
        lemma_roman_ascii((sibling_ix + 1) as nat, 0);
    }
    label.push(46);
    proof {
        crate::text::lemma_ascii_valid(label@);
    }
    crate::text::string_of_bytes(label)
}


/* ---------- details sections ---------- */

/// Index of the `</details>` that closes the section open at depth `depth`
/// before block `j`.
pub open spec fn details_close_from(bs: Seq<ProjBlock>, j: int, depth: int) -> Option<int>
    decreases bs.len() - j,
{
    if j < 0 || j >= bs.len() {
        None
    } else {
        match bs[j].extra {
            BlockExtra::Details { .. } => details_close_from(bs, j + 1, depth + 1),
            BlockExtra::DetailsClose => {
                let d = if depth > 0 {
                    depth - 1
                } else {
                    0
                };
                if d == 0 {
                    Some(j)
                } else {
                    details_close_from(bs, j + 1, d)
                }
            },
            _ => details_close_from(bs, j + 1, depth),
        }
    }
}

/// Block index range owned by the `<details>` row at `ix` (`open..=close`,
/// counted by depth for nesting); nothing when `ix` is no such row or the
/// section never closes.
pub open spec fn details_range(bs: Seq<ProjBlock>, ix: int) -> Option<(int, int)> {
    if 0 <= ix < bs.len() && bs[ix].extra is Details {
        match details_close_from(bs, ix, 0) {
            Some(j) => Some((ix, j)),
            None => None,
        }
    } else {
        None
    }
}

pub fn details_block_range(p: &Projection, ix: usize) -> (r: Option<(usize, usize)>)
    ensures
        match r {
            Some((a, b)) => details_range(p.blocks@, ix as int) == Some((a as int, b as int)),
            None => details_range(p.blocks@, ix as int) is None,
        },
{
    if ix >= p.blocks.len() {
        return None;
    }
    match &p.blocks[ix].extra {
        BlockExtra::Details { .. } => {},
        _ => return None,
    }
    let mut depth: usize = 0;
    let mut j: usize = ix;
    while j < p.blocks.len()
        invariant
            ix <= j <= p.blocks@.len(),
            ix < p.blocks@.len(),
            p.blocks@[ix as int].extra is Details,
            depth <= j - ix,
            details_close_from(p.blocks@, ix as int, 0) == details_close_from(
                p.blocks@,
                j as int,
                depth as int,
            ),
        decreases p.blocks@.len() - j,
    {
        match &p.blocks[j].extra {
            BlockExtra::Details { .. } => {
                depth += 1;
            },
            BlockExtra::DetailsClose => {
                depth = if depth > 0 {
                    depth - 1
                } else {
                    0
                };
                if depth == 0 {
                    return Some((ix, j));
                }
            },
            _ => {},
        }
        j += 1;
    }
    None
}

/* ---------- table source ---------- */

pub const TABLE_CELL_BR: char = '\u{001e}';

/// Flatten CR/LF inside a table cell so the display projection can keep
/// using `\n` as a row separator and `\t` as a cell separator.
pub fn flatten_table_cell_text(s: &str) -> (r: String)
    ensures
        utf8(r@) == crate::projection::flat_cell(utf8(s@)),
{
    proof {
        lemma_utf8_valid(s@);
    }
    let v = crate::projection::flatten_cell_bytes(bytes_of(s));
    crate::text::string_of_bytes(v)
}

pub fn flatten_table_cell_display(s: &str) -> (r: String)
    ensures
        utf8(r@) == crate::projection::flat_cell(utf8(s@)),
{
    flatten_table_cell_text(s)
}

/// A cell's text as GFM source: line breaks and in-cell breaks become `<br>`.
pub fn flatten_table_cell_gfm(s: &str) -> (r: String)
    ensures
        utf8(r@) == crate::projection::gfm_cell(utf8(s@), 0),
{
    proof {
        lemma_utf8_valid(s@);
    }
    let v = crate::projection::gfm_cell_bytes(bytes_of(s));
    crate::text::string_of_bytes(v)
}

/// ` cell |` for each of `cols` cells (missing cells are empty).
pub open spec fn row_cells(cells: Seq<String>, cols: int, i: int) -> Seq<u8>
    decreases cols - i,
{
    if i < 0 || i >= cols {
        Seq::empty()
    } else {
        let c = if i < cells.len() {
            crate::projection::gfm_cell(utf8(cells[i]@), 0)
        } else {
            Seq::empty()
        };
        seq![32u8] + c + seq![32u8, 124] + row_cells(cells, cols, i + 1)
    }
}

/// ` --- |` for each of `cols` columns.
pub open spec fn rule_cells(cols: int) -> Seq<u8>
    decreases cols,
{
    if cols <= 0 {
        Seq::empty()
    } else {
        seq![32u8, 45, 45, 45, 32, 124] + rule_cells(cols - 1)
    }
}

pub open spec fn body_rows(rows: Seq<Vec<String>>, cols: int, k: int) -> Seq<u8>
    decreases rows.len() - k,
{
    if k < 0 || k >= rows.len() {
        Seq::empty()
    } else {
        seq![10u8, 124] + row_cells(rows[k]@, cols, 0) + body_rows(rows, cols, k + 1)
    }
}

pub open spec fn max_row_len(rows: Seq<Vec<String>>, k: int) -> int
    decreases k,
{
    if k <= 0 || k > rows.len() {
        0
    } else {
        let m = max_row_len(rows, k - 1);
        if rows[k - 1]@.len() > m {
            rows[k - 1]@.len() as int
        } else {
            m
        }
    }
}

/// Column count: the header, the longest row, at least one.
pub open spec fn table_cols(headers: Seq<String>, rows: Seq<Vec<String>>) -> int {
    let m = max_row_len(rows, rows.len() as int);
    let c = if (headers.len() as int) < m {
        m
    } else {
        headers.len() as int
    };
    if c < 1 {
        1
    } else {
        c
    }
}

/// A GFM table: header row, rule row, body rows.
pub open spec fn table_source(headers: Seq<String>, rows: Seq<Vec<String>>) -> Seq<u8> {
    let cols = table_cols(headers, rows);
    seq![124u8] + row_cells(headers, cols, 0) + seq![10u8, 124] + rule_cells(cols) + body_rows(
        rows,
        cols,
        0,
    )
}

fn push_all(out: &mut Vec<u8>, bytes: &[u8])
    ensures
        final(out)@ == old(out)@ + bytes@,
{
    let mut k: usize = 0;
    while k < bytes.len()
        invariant
            k <= bytes@.len(),
            out@ == old(out)@ + bytes@.subrange(0, k as int),
        decreases bytes@.len() - k,
    {
        out.push(bytes[k]);
        k += 1;
        assert(out@ =~= old(out)@ + bytes@.subrange(0, k as int));
    }
    assert(bytes@.subrange(0, k as int) =~= bytes@);
}

fn push_row_cells(out: &mut Vec<u8>, cells: &[String], cols: usize)
    requires
        valid_utf8(old(out)@),
    ensures
        final(out)@ == old(out)@ + row_cells(cells@, cols as int, 0),
        valid_utf8(final(out)@),
{
    let mut i: usize = 0;
    while i < cols
        invariant
            i <= cols,
            out@ + row_cells(cells@, cols as int, i as int) == old(out)@ + row_cells(
                cells@,
                cols as int,
                0,
            ),
            valid_utf8(out@),
        decreases cols - i,
    {
        let ghost before = out@;
        let c: Vec<u8> = if i < cells.len() {
            proof {
                lemma_utf8_valid(cells@[i as int]@);
            }
            crate::projection::gfm_cell_bytes(bytes_of(cells[i].as_str()))
        } else {
            proof {
                crate::text::lemma_ascii_valid(Seq::<u8>::empty());
            }
            Vec::new()
        };
        let sp: [u8; 1] = [32];
        let bar: [u8; 2] = [32, 124];
        push_all(out, &sp);
        push_all(out, c.as_slice());
        push_all(out, &bar);
        proof {
            crate::text::lemma_ascii_valid(sp@);
            crate::text::lemma_ascii_valid(bar@);
            crate::text::lemma_valid_concat(before, sp@);
            crate::text::lemma_valid_concat(before + sp@, c@);
            crate::text::lemma_valid_concat(before + sp@ + c@, bar@);
            assert(sp@ =~= seq![32u8]);
            assert(bar@ =~= seq![32u8, 124]);
            assert(out@ =~= before + sp@ + c@ + bar@);
            assert(out@ + row_cells(cells@, cols as int, i + 1) =~= before + row_cells(
                cells@,
                cols as int,
                i as int,
            ));
        }
        i += 1;
    }
    assert(out@ + row_cells(cells@, cols as int, cols as int) =~= out@);
}

/// Serializes a table (header cells, body rows) as GFM.
pub fn serialize_table(headers: &[String], rows: &[Vec<String>]) -> (r: String)
    ensures
        utf8(r@) == table_source(headers@, rows@),
{
    let mut m: usize = 0;
    let mut k: usize = 0;
    while k < rows.len()
        invariant
            k <= rows@.len(),
            m as int == max_row_len(rows@, k as int),
        decreases rows@.len() - k,
    {
        if rows[k].len() > m {
            m = rows[k].len();
        }
        k += 1;
    }
    let c: usize = if headers.len() < m {
        m
    } else {
        headers.len()
    };
    let cols: usize = if c < 1 {
        1
    } else {
        c
    };
    let mut out: Vec<u8> = Vec::new();
    out.push(124);
    proof {
        crate::text::lemma_ascii_valid(out@);
    }
    push_row_cells(&mut out, headers, cols);
    let nl: [u8; 2] = [10, 124];
    let rule: [u8; 6] = [32, 45, 45, 45, 32, 124];
    proof {
        crate::text::lemma_ascii_valid(nl@);
        crate::text::lemma_ascii_valid(rule@);
        assert(nl@ =~= seq![10u8, 124]);
        assert(rule@ =~= seq![32u8, 45, 45, 45, 32, 124]);
        crate::text::lemma_valid_concat(out@, nl@);
    }
    push_all(&mut out, &nl);
    let ghost head = out@;
    let mut i: usize = 0;
    while i < cols
        invariant
            i <= cols,
            out@ + rule_cells(cols - i) == head + rule_cells(cols as int),
            valid_utf8(out@),
            rule@ == seq![32u8, 45, 45, 45, 32, 124],
            valid_utf8(rule@),
        decreases cols - i,
    {
        proof {
            crate::text::lemma_valid_concat(out@, rule@);
        }
        let ghost before = out@;
        push_all(&mut out, &rule);
        assert(out@ + rule_cells(cols - (i + 1)) =~= before + rule_cells(cols - i));
        i += 1;
    }
    assert(out@ =~= head + rule_cells(cols as int));
    let ghost mid = out@;
    let mut k: usize = 0;
    while k < rows.len()
        invariant
            k <= rows@.len(),
            out@ + body_rows(rows@, cols as int, k as int) == mid + body_rows(rows@, cols as int, 0),
            valid_utf8(out@),
            nl@ == seq![10u8, 124],
            valid_utf8(nl@),
        decreases rows@.len() - k,
    {
        let ghost before = out@;
        proof {
            crate::text::lemma_valid_concat(out@, nl@);
        }
        push_all(&mut out, &nl);
        push_row_cells(&mut out, rows[k].as_slice(), cols);
        assert(out@ + body_rows(rows@, cols as int, k + 1) =~= before + body_rows(
            rows@,
            cols as int,
            k as int,
        ));
        k += 1;
    }
    assert(out@ + body_rows(rows@, cols as int, k as int) =~= out@);
    assert(out@ =~= table_source(headers@, rows@));
    crate::text::string_of_bytes(out)
}

/* ---------- wrapping ---------- */

/// Characters per wrapped line for a font size: the writing column
/// (740 px, 64 px of it padding) over a character width of 0.55 em (at
/// least 6 px), at least 8; nothing when wrapping is off.
pub open spec fn wrap_cols(font_px: u32, wrap: bool) -> Option<usize> {
    if !wrap {
        None
    } else if font_px <= 10 {
        Some(112)
    } else {
        let q: int = 13520int / (11int * font_px as int);
        Some(
            if q < 8 {
                8
            } else {
                q as usize
            },
        )
    }
}

pub fn wrap_cols_for(font_px: u32, wrap: bool) -> (r: Option<usize>)
    ensures
        r == wrap_cols(font_px, wrap),
{
    if !wrap {
        return None;
    }
    if font_px <= 10 {
        return Some(112);
    }
    let q: u64 = 13520 / (11 * font_px as u64);
    Some(
        if q < 8 {
            8
        } else {
            q as usize
        },
    )
}


impl Projection {
    proof fn lemma_widen_covers(&self, sd: int, ed: int, j: int, lo: int, hi: int)
        requires
            0 <= j <= self.segments@.len(),
        ensures
            self.widen(sd, ed, j, lo, hi).0 <= lo,
            self.widen(sd, ed, j, lo, hi).1 >= hi,
            forall|k: int|
                0 <= k < j && #[trigger] self.segments@[k].display.start >= sd
                    && self.segments@[k].display.end <= ed && marked(self.segments@[k].marks) ==> {
                    &&& self.widen(sd, ed, j, lo, hi).0 <= self.opener_start_spec(self.segments@[k])
                    &&& self.widen(sd, ed, j, lo, hi).1 >= self.closer_end_spec(self.segments@[k])
                },
        decreases j,
    {
        if j > 0 {
            self.lemma_widen_covers(sd, ed, j - 1, lo, hi);
        }
    }

    /// A display range maps to an ordered source range. An empty one is the
    /// caret's source offset; a non-empty one reaches at least from where its
    /// start maps to where its end maps, and takes in the delimiters of
    /// every marked run it fully selects, so deleting bold text also drops
    /// its `**`.
    pub proof fn lemma_source_range_covers(&self, start: int, end: int, aff: Affinity)
        ensures
            ({
                let (s, e) = self.display_range_to_source_spec(start, end, aff);
                let sd = clamp_to(start, self.dlen());
                let ed = imax(clamp_to(end, self.dlen()), sd);
                &&& s <= e
                &&& sd == ed ==> s == self.to_source_spec(sd, aff)
                &&& sd < ed ==> s <= self.to_source_spec(sd, Affinity::Outside)
                &&& sd < ed ==> e >= self.to_source_spec(ed, Affinity::Inside)
                &&& forall|k: int|
                    sd < ed && 0 <= k < self.segments@.len() && #[trigger] self.segments@[k].display.start
                        >= sd && self.segments@[k].display.end <= ed && marked(self.segments@[k].marks)
                        ==> s <= self.opener_start_spec(self.segments@[k]) && e >= self.closer_end_spec(
                        self.segments@[k],
                    )
            }),
    {
        let sd = clamp_to(start, self.dlen());
        let ed = imax(clamp_to(end, self.dlen()), sd);
        self.lemma_widen_covers(
            sd,
            ed,
            self.segments@.len() as int,
            self.to_source_spec(sd, Affinity::Outside),
            self.to_source_spec(ed, Affinity::Inside),
        );
    }
}


/* ---------- the rule row of a written table ---------- */

proof fn lemma_gfm_cell_one_line(b: Seq<u8>, i: int)
    ensures
        forall|j: int| 0 <= j < crate::projection::gfm_cell(b, i).len() ==> #[trigger] crate::projection::gfm_cell(b, i)[j] != 10,
    decreases b.len() - i,
{
    if 0 <= i < b.len() {
        lemma_gfm_cell_one_line(b, i + 1);
        let piece = if b[i] == 10 || b[i] == 30 {
            crate::projection::br_tag()
        } else if b[i] == 13 {
            Seq::<u8>::empty()
        } else {
            seq![b[i]]
        };
        let rest = crate::projection::gfm_cell(b, i + 1);
        assert(crate::projection::gfm_cell(b, i) == piece + rest);
        assert forall|j: int| 0 <= j < piece.len() + rest.len() implies #[trigger] (piece + rest)[j] != 10 by {
            if j >= piece.len() {
                assert((piece + rest)[j] == rest[j - piece.len()]);
            }
        }
    }
}

proof fn lemma_row_cells_one_line(cells: Seq<String>, cols: int, i: int)
    ensures
        forall|j: int| 0 <= j < row_cells(cells, cols, i).len() ==> #[trigger] row_cells(cells, cols, i)[j] != 10,
    decreases cols - i,
{
    if 0 <= i < cols {
        lemma_row_cells_one_line(cells, cols, i + 1);
        let c = if i < cells.len() {
            crate::projection::gfm_cell(utf8(cells[i]@), 0)
        } else {
            Seq::empty()
        };
        if i < cells.len() {
            lemma_gfm_cell_one_line(utf8(cells[i]@), 0);
        }
        let rest = row_cells(cells, cols, i + 1);
        let x = seq![32u8] + c + seq![32u8, 124] + rest;
        assert(row_cells(cells, cols, i) == x);
        assert forall|j: int| 0 <= j < x.len() implies #[trigger] x[j] != 10 by {
            if j == 0 {
            } else if j < 1 + c.len() {
                assert(x[j] == c[j - 1]);
            } else if j < 3 + c.len() {
            } else {
                assert(x[j] == rest[j - 3 - c.len()]);
            }
        }
    }
}

proof fn lemma_rule_cells_shape(cols: int)
    requires
        cols >= 0,
    ensures
        rule_cells(cols).len() == 6 * cols,
        forall|q: int| 0 <= q < cols ==> #[trigger] rule_cells(cols).subrange(6 * q, 6 * q + 6) == seq![
            32u8,
            45,
            45,
            45,
            32,
            124,
        ],
    decreases cols,
{
    if cols > 0 {
        lemma_rule_cells_shape(cols - 1);
        let u = seq![32u8, 45, 45, 45, 32, 124];
        let r = rule_cells(cols - 1);
        assert(rule_cells(cols) == u + r);
        assert forall|q: int| 0 <= q < cols implies #[trigger] rule_cells(cols).subrange(6 * q, 6 * q + 6) == u by {
            if q == 0 {
                assert((u + r).subrange(0, 6) =~= u);
            } else {
                assert((u + r).subrange(6 * q, 6 * q + 6) =~= r.subrange(6 * (q - 1), 6 * (q - 1) + 6));
            }
        }
    }
}

proof fn lemma_max_row_len(rows: Seq<Vec<String>>, k: int)
    requires
        0 <= k <= rows.len(),
    ensures
        max_row_len(rows, k) >= 0,
        forall|j: int| 0 <= j < k ==> max_row_len(rows, k) >= (#[trigger] rows[j])@.len(),
        max_row_len(rows, k) == 0 || exists|j: int| 0 <= j < k && max_row_len(rows, k) == (#[trigger] rows[j])@.len(),
    decreases k,
{
    if k > 0 {
        lemma_max_row_len(rows, k - 1);
    }
}

/// The second line of a written table is `|` and one ` --- |` per
/// column, and there are as many columns as the widest of the header row
/// and the body rows (at least one): GFM reads it as a table of that width.
pub proof fn lemma_table_rule_row(headers: Seq<String>, rows: Seq<Vec<String>>)
    ensures
        ({
            let t = table_source(headers, rows);
            let c = table_cols(headers, rows);
            &&& c >= 1 && c >= headers.len()
            &&& forall|k: int| 0 <= k < rows.len() ==> c >= (#[trigger] rows[k])@.len()
            &&& c == 1 || c == headers.len() || exists|k: int| 0 <= k < rows.len() && c == (#[trigger] rows[k])@.len()
            &&& match crate::text::first_of(t, 10, 0, t.len() as int) {
                Some(h) => {
                    &&& h + 2 + 6 * c <= t.len()
                    &&& t[h + 1] == 124
                    &&& forall|q: int| 0 <= q < c ==> #[trigger] t.subrange(h + 2 + 6 * q, h + 8 + 6 * q) == seq![
                        32u8,
                        45,
                        45,
                        45,
                        32,
                        124,
                    ]
                    &&& h + 2 + 6 * c == t.len() || t[h + 2 + 6 * c] == 10
                },
                None => false,
            }
        }),
{
    let c = table_cols(headers, rows);
    lemma_max_row_len(rows, rows.len() as int);
    let rc = row_cells(headers, c, 0);
    lemma_row_cells_one_line(headers, c, 0);
    lemma_rule_cells_shape(c);
    let rule = rule_cells(c);
    let body = body_rows(rows, c, 0);
    let t = table_source(headers, rows);
    let h: int = 1 + rc.len() as int;
    let head = seq![124u8] + rc;
    assert(t == head + seq![10u8, 124] + rule + body);
    assert(t[h] == 10);
    assert(t[h + 1] == 124);
    assert forall|j: int| 0 <= j < h implies #[trigger] t[j] != 10 by {
        if j > 0 {
            assert(t[j] == rc[j - 1]);
        }
    }
    crate::text::lemma_first_of_props(t, 10, 0, t.len() as int);
    assert(crate::text::first_of(t, 10, 0, t.len() as int) == Some(h)) by {
        match crate::text::first_of(t, 10, 0, t.len() as int) {
            Some(i) => {
                if i < h {
                    assert(t[i] != 10);
                }
            },
            None => {},
        }
    }
    assert forall|q: int| 0 <= q < c implies #[trigger] t.subrange(h + 2 + 6 * q, h + 8 + 6 * q) == seq![
        32u8,
        45,
        45,
        45,
        32,
        124,
    ] by {
        assert(t.subrange(h + 2 + 6 * q, h + 8 + 6 * q) =~= rule.subrange(6 * q, 6 * q + 6));
    }
    if body.len() > 0 {
        assert(body[0] == 10);
        assert(t[h + 2 + 6 * c] == body[0]);
    }
}
} // verus!
