//! Block model of a GFM file and small source-buffer edits.
//!
//! The document is the markdown bytes (`source`); blocks and paint ranges
//! are views over it.
use std::ops::Range;

use vstd::prelude::*;
use vstd::string::*;
use vstd::utf8::*;

use crate::display::floor_char_boundary;
use crate::md::{md_parse, md_spans, MdEvent, MdSpan, MdTag, GFM_FLAGS};
use crate::search::{first_index, lemma_first_index};
use crate::projection::{blank_line, lead_run, tail_run, word_end};
use crate::text::{
    at_boundary, first_of, floor_boundary, lemma_first_of_props, lemma_floor_boundary,
    has_prefix, lemma_line_end, lemma_sub_valid, lemma_utf8_valid, line_content_end, line_end,
    trim_end_at,
    trim_start_at, utf8,
};

verus! {

broadcast use vstd::seq::group_seq_axioms, vstd::slice::group_slice_axioms;

#[derive(Debug, Clone, Copy, PartialEq, Eq, Structural)]
pub enum AlertKind {
    Note,
    Tip,
    Important,
    Warning,
    Caution,
}

impl AlertKind {
    pub open spec fn name(self) -> Seq<char> {
        match self {
            AlertKind::Note => "NOTE"@,
            AlertKind::Tip => "TIP"@,
            AlertKind::Important => "IMPORTANT"@,
            AlertKind::Warning => "WARNING"@,
            AlertKind::Caution => "CAUTION"@,
        }
    }

    /// The label written between `[!` and `]`.
    pub fn as_str(self) -> (r: &'static str)
        ensures
            r@ == self.name(),
    {
        match self {
            AlertKind::Note => "NOTE",
            AlertKind::Tip => "TIP",
            AlertKind::Important => "IMPORTANT",
            AlertKind::Warning => "WARNING",
            AlertKind::Caution => "CAUTION",
        }
    }

    /// The kind named by `name` (trimmed, any case).
    pub fn parse(name: &str) -> (r: Option<Self>)
        ensures
            r == alert_named(utf8(name@)),
    {
        let b = crate::text::bytes_of(name);
        let n: usize = b.len();
        let a = crate::text::trim_start_idx(b, 0, n);
        let e = crate::text::trim_end_idx(b, a, n);
        let note: [u8; 4] = [78, 79, 84, 69];
        let tip: [u8; 3] = [84, 73, 80];
        let important: [u8; 9] = [73, 77, 80, 79, 82, 84, 65, 78, 84];
        let warning: [u8; 7] = [87, 65, 82, 78, 73, 78, 71];
        let caution: [u8; 7] = [67, 65, 85, 84, 73, 79, 78];
        proof {
            assert(note@ =~= crate::projection::note_word());
            assert(tip@ =~= crate::projection::tip_word());
            assert(important@ =~= crate::projection::important_word());
            assert(warning@ =~= crate::projection::warning_word());
            assert(caution@ =~= crate::projection::caution_word());
        }
        if crate::projection::upper_eq_exec_pub(b, a, e, &note) {
            Some(AlertKind::Note)
        } else if crate::projection::upper_eq_exec_pub(b, a, e, &tip) {
            Some(AlertKind::Tip)
        } else if crate::projection::upper_eq_exec_pub(b, a, e, &important) {
            Some(AlertKind::Important)
        } else if crate::projection::upper_eq_exec_pub(b, a, e, &warning) {
            Some(AlertKind::Warning)
        } else if crate::projection::upper_eq_exec_pub(b, a, e, &caution) {
            Some(AlertKind::Caution)
        } else {
            None
        }
    }
}

/// The alert kind whose label is `b` trimmed, in any case.
pub open spec fn alert_named(b: Seq<u8>) -> Option<AlertKind> {
    let a = trim_start_at(b, 0, b.len() as int);
    let e = trim_end_at(b, a, b.len() as int);
    if crate::projection::upper_eq(b, a, e, crate::projection::note_word()) {
        Some(AlertKind::Note)
    } else if crate::projection::upper_eq(b, a, e, crate::projection::tip_word()) {
        Some(AlertKind::Tip)
    } else if crate::projection::upper_eq(b, a, e, crate::projection::important_word()) {
        Some(AlertKind::Important)
    } else if crate::projection::upper_eq(b, a, e, crate::projection::warning_word()) {
        Some(AlertKind::Warning)
    } else if crate::projection::upper_eq(b, a, e, crate::projection::caution_word()) {
        Some(AlertKind::Caution)
    } else {
        None
    }
}

pub open spec fn icon_name(kind: AlertKind) -> Seq<char> {
    match kind {
        AlertKind::Note => "info"@,
        AlertKind::Tip => "lightbulb"@,
        AlertKind::Important => "star"@,
        AlertKind::Warning => "triangle-alert"@,
        AlertKind::Caution => "circle-alert"@,
    }
}

/// Icon shown for an alert kind.
pub fn alert_icon_name(kind: AlertKind) -> (r: &'static str)
    ensures
        r@ == icon_name(kind),
{
    match kind {
        AlertKind::Note => "info",
        AlertKind::Tip => "lightbulb",
        AlertKind::Important => "star",
        AlertKind::Warning => "triangle-alert",
        AlertKind::Caution => "circle-alert",
    }
}

#[derive(Debug, Clone, Copy, PartialEq, Eq, Structural)]
pub enum BlockKind {
    Paragraph,
    Heading(u8),
    List { ordered: bool },
    Code,
    Quote,
    Alert(AlertKind),
    Table,
    Rule,
    Html,
    Raw,
}


/// A GFM block's exact byte range in `source`. Paint-only: not the document.
#[derive(Debug)]
pub struct PaintRange {
    pub kind: BlockKind,
    pub range: Range<usize>,
}

pub open spec fn paint(kind: BlockKind, a: int, b: int) -> PaintRange {
    PaintRange { kind, range: Range { start: a as usize, end: b as usize } }
}

/// Block kind of a top-level start tag.
pub open spec fn kind_of_tag(t: MdTag) -> BlockKind {
    match t {
        MdTag::Paragraph => BlockKind::Paragraph,
        MdTag::Heading(l) => BlockKind::Heading(l),
        MdTag::List(o) => BlockKind::List { ordered: o },
        MdTag::CodeBlock => BlockKind::Code,
        MdTag::Quote(Some(k)) => BlockKind::Alert(k),
        MdTag::Quote(None) => BlockKind::Quote,
        MdTag::Table => BlockKind::Table,
        MdTag::HtmlBlock => BlockKind::Html,
        _ => BlockKind::Raw,
    }
}

fn kind_from_tag(t: &MdTag) -> (r: BlockKind)
    ensures
        r == kind_of_tag(*t),
{
    match t {
        MdTag::Paragraph => BlockKind::Paragraph,
        MdTag::Heading(l) => BlockKind::Heading(*l),
        MdTag::List(o) => BlockKind::List { ordered: *o },
        MdTag::CodeBlock => BlockKind::Code,
        MdTag::Quote(Some(k)) => BlockKind::Alert(*k),
        MdTag::Quote(None) => BlockKind::Quote,
        MdTag::Table => BlockKind::Table,
        MdTag::HtmlBlock => BlockKind::Html,
        _ => BlockKind::Raw,
    }
}

/// A top-level block found by the event walk: start, end, kind.
pub type Covered = (usize, usize, BlockKind);

/// Walk state over the events: nesting depth, start and kind of the open
/// top-level block, and the blocks closed so far.
pub open spec fn cover_step(st: (int, usize, BlockKind, Seq<Covered>), e: MdSpan) -> (
    int,
    usize,
    BlockKind,
    Seq<Covered>,
) {
    let (depth, start, kind, cov) = st;
    match e.event {
        MdEvent::Start(t) => if depth == 0 {
            (1, e.start, kind_of_tag(t), cov)
        } else {
            (depth + 1, start, kind, cov)
        },
        MdEvent::LinkStart(_) => if depth == 0 {
            (1, e.start, BlockKind::Raw, cov)
        } else {
            (depth + 1, start, kind, cov)
        },
        MdEvent::End(_) => {
            let d = if depth > 0 { depth - 1 } else { 0 };
            if d == 0 {
                (0, start, kind, cov.push((start, e.end, kind)))
            } else {
                (d, start, kind, cov)
            }
        },
        MdEvent::Rule => if depth == 0 {
            (depth, start, kind, cov.push((e.start, e.end, BlockKind::Rule)))
        } else {
            st
        },
        _ => st,
    }
}

pub open spec fn cover_walk(ev: Seq<MdSpan>) -> (int, usize, BlockKind, Seq<Covered>)
    decreases ev.len(),
{
    if ev.len() == 0 {
        (0, 0, BlockKind::Raw, Seq::empty())
    } else {
        cover_step(cover_walk(ev.drop_last()), ev.last())
    }
}

pub proof fn lemma_cover_walk_depth(ev: Seq<MdSpan>)
    ensures
        0 <= cover_walk(ev).0 <= ev.len(),
    decreases ev.len(),
{
    if ev.len() > 0 {
        lemma_cover_walk_depth(ev.drop_last());
    }
}

/// Top-level blocks closed by the events, in event order.
fn covered_blocks(events: &[MdSpan]) -> (r: Vec<Covered>)
    ensures
        r@ == cover_walk(events@).3,
{
    let mut cov: Vec<Covered> = Vec::new();
    let mut depth: usize = 0;
    let mut start: usize = 0;
    let mut kind = BlockKind::Raw;
    let mut i: usize = 0;
    while i < events.len()
        invariant
            i <= events@.len(),
            cover_walk(events@.take(i as int)) == (depth as int, start, kind, cov@),
        decreases events@.len() - i,
    {
        proof {
            lemma_cover_walk_depth(events@.take(i as int));
            assert(events@.take(i as int + 1).drop_last() =~= events@.take(i as int));
        }
        let e = &events[i];
        match &e.event {
            MdEvent::Start(t) => {
                if depth == 0 {
                    start = e.start;
                    kind = kind_from_tag(t);
                }
                depth += 1;
            },
            MdEvent::LinkStart(_) => {
                if depth == 0 {
                    start = e.start;
                    kind = BlockKind::Raw;
                }
                depth += 1;
            },
            MdEvent::End(_) => {
                depth = if depth > 0 { depth - 1 } else { 0 };
                if depth == 0 {
                    cov.push((start, e.end, kind));
                }
            },
            MdEvent::Rule => {
                if depth == 0 {
                    cov.push((e.start, e.end, BlockKind::Rule));
                }
            },
            _ => {},
        }
        i += 1;
    }
    proof {
        assert(events@.take(i as int) =~= events@);
    }
    cov
}

/* ---------- code split out of lists ---------- */

/// Walk state for paint ranges: as [`cover_step`], and a code block nested
/// in a top-level list closes the list's range at the fence, takes its own
/// range, and the list resumes at its next item.
pub ghost struct SplitWalk {
    pub depth: int,
    pub start: usize,
    pub kind: BlockKind,
    pub cov: Seq<Covered>,
    /// A top-level range is open from `start`.
    pub open: bool,
    /// Inside a code block split out of a list, which started at `code_start`.
    pub in_code: bool,
    pub code_start: usize,
}

pub open spec fn split_init() -> SplitWalk {
    SplitWalk {
        depth: 0,
        start: 0,
        kind: BlockKind::Raw,
        cov: Seq::empty(),
        open: false,
        in_code: false,
        code_start: 0,
    }
}

pub open spec fn split_step(w: SplitWalk, e: MdSpan) -> SplitWalk {
    let in_list = w.kind is List;
    match e.event {
        MdEvent::Start(t) => if w.depth == 0 {
            SplitWalk { depth: 1, start: e.start, kind: kind_of_tag(t), open: true, ..w }
        } else if in_list && !w.in_code && t is CodeBlock {
            SplitWalk {
                depth: w.depth + 1,
                cov: if w.open {
                    w.cov.push((w.start, e.start, w.kind))
                } else {
                    w.cov
                },
                open: false,
                in_code: true,
                code_start: e.start,
                ..w
            }
        } else if in_list && !w.in_code && !w.open && t is Item {
            SplitWalk { depth: w.depth + 1, start: e.start, open: true, ..w }
        } else {
            SplitWalk { depth: w.depth + 1, ..w }
        },
        MdEvent::LinkStart(_) => if w.depth == 0 {
            SplitWalk { depth: 1, start: e.start, kind: BlockKind::Raw, open: true, ..w }
        } else {
            SplitWalk { depth: w.depth + 1, ..w }
        },
        MdEvent::End(t) => {
            let d = if w.depth > 0 {
                w.depth - 1
            } else {
                0
            };
            if w.in_code && t is CodeBlock {
                SplitWalk {
                    depth: d,
                    cov: w.cov.push((w.code_start, e.end, BlockKind::Code)),
                    in_code: false,
                    ..w
                }
            } else if d == 0 {
                SplitWalk {
                    depth: 0,
                    cov: if w.open {
                        w.cov.push((w.start, e.end, w.kind))
                    } else {
                        w.cov
                    },
                    open: false,
                    in_code: false,
                    ..w
                }
            } else {
                SplitWalk { depth: d, ..w }
            }
        },
        MdEvent::Rule => if w.depth == 0 {
            SplitWalk { cov: w.cov.push((e.start, e.end, BlockKind::Rule)), ..w }
        } else {
            w
        },
        _ => w,
    }
}

pub open spec fn split_walk(ev: Seq<MdSpan>) -> SplitWalk
    decreases ev.len(),
{
    if ev.len() == 0 {
        split_init()
    } else {
        split_step(split_walk(ev.drop_last()), ev.last())
    }
}

pub proof fn lemma_split_walk_depth(ev: Seq<MdSpan>)
    ensures
        0 <= split_walk(ev).depth <= ev.len(),
    decreases ev.len(),
{
    if ev.len() > 0 {
        lemma_split_walk_depth(ev.drop_last());
    }
}

/// Top-level ranges closed by the events, nested list code split out.
fn split_blocks(events: &[MdSpan]) -> (r: Vec<Covered>)
    ensures
        r@ == split_walk(events@).cov,
{
    let mut cov: Vec<Covered> = Vec::new();
    let mut depth: usize = 0;
    let mut start: usize = 0;
    let mut kind = BlockKind::Raw;
    let mut open = false;
    let mut in_code = false;
    let mut code_start: usize = 0;
    let mut i: usize = 0;
    while i < events.len()
        invariant
            i <= events@.len(),
            split_walk(events@.take(i as int)) == (SplitWalk {
                depth: depth as int,
                start,
                kind,
                cov: cov@,
                open,
                in_code,
                code_start,
            }),
        decreases events@.len() - i,
    {
        proof {
            lemma_split_walk_depth(events@.take(i as int));
            assert(events@.take(i as int + 1).drop_last() =~= events@.take(i as int));
        }
        let e = &events[i];
        let in_list = matches!(kind, BlockKind::List { .. });
        match &e.event {
            MdEvent::Start(t) => {
                if depth == 0 {
                    start = e.start;
                    kind = kind_from_tag(t);
                    open = true;
                } else if in_list && !in_code && matches!(t, MdTag::CodeBlock) {
                    if open {
                        cov.push((start, e.start, kind));
                    }
                    open = false;
                    in_code = true;
                    code_start = e.start;
                } else if in_list && !in_code && !open && matches!(t, MdTag::Item) {
                    start = e.start;
                    open = true;
                }
                depth += 1;
            },
            MdEvent::LinkStart(_) => {
                if depth == 0 {
                    start = e.start;
                    kind = BlockKind::Raw;
                    open = true;
                }
                depth += 1;
            },
            MdEvent::End(t) => {
                depth = if depth > 0 {
                    depth - 1
                } else {
                    0
                };
                if in_code && matches!(t, MdTag::CodeBlock) {
                    cov.push((code_start, e.end, BlockKind::Code));
                    in_code = false;
                } else if depth == 0 {
                    if open {
                        cov.push((start, e.end, kind));
                    }
                    open = false;
                    in_code = false;
                }
            },
            MdEvent::Rule => {
                if depth == 0 {
                    cov.push((e.start, e.end, BlockKind::Rule));
                }
            },
            _ => {},
        }
        i += 1;
    }
    proof {
        assert(events@.take(i as int) =~= events@);
    }
    cov
}

/* ---------- stable sort by start ---------- */

pub open spec fn starts_after(x: Covered) -> spec_fn(Covered) -> bool {
    |y: Covered| y.0 > x.0
}

/// `x` placed after every entry whose start is not above its own.
pub open spec fn insert_by_start(s: Seq<Covered>, x: Covered) -> Seq<Covered> {
    match first_index(s, starts_after(x), 0) {
        Some(j) => s.insert(j, x),
        None => s.push(x),
    }
}

/// Stable sort by start.
pub open spec fn sort_by_start(s: Seq<Covered>) -> Seq<Covered>
    decreases s.len(),
{
    if s.len() == 0 {
        s
    } else {
        insert_by_start(sort_by_start(s.drop_last()), s.last())
    }
}

fn sort_covered(v: &Vec<Covered>) -> (r: Vec<Covered>)
    ensures
        r@ == sort_by_start(v@),
{
    let mut out: Vec<Covered> = Vec::new();
    let mut i: usize = 0;
    while i < v.len()
        invariant
            i <= v@.len(),
            out@ == sort_by_start(v@.take(i as int)),
        decreases v@.len() - i,
    {
        let x = v[i];
        let mut j: usize = 0;
        while j < out.len() && out[j].0 <= x.0
            invariant
                j <= out@.len(),
                first_index(out@, starts_after(x), 0) == first_index(out@, starts_after(x), j as int),
            decreases out@.len() - j,
        {
            j += 1;
        }
        proof {
            lemma_first_index(out@, starts_after(x), j as int);
            assert(v@.take(i as int + 1).drop_last() =~= v@.take(i as int));
            assert(v@.take(i as int + 1).last() == x);
        }
        if j < out.len() {
            out.insert(j, x);
        } else {
            out.push(x);
        }
        i += 1;
    }
    proof {
        assert(v@.take(i as int) =~= v@);
    }
    out
}

/* ---------- gap filling ---------- */

/// One covered block laid over the cursor: the gap before it becomes `Raw`.
/// Offsets off a character boundary of `b` move down to one.
pub open spec fn range_step(b: Seq<u8>, st: (int, Seq<PaintRange>), c: Covered) -> (
    int,
    Seq<PaintRange>,
) {
    let (cursor, rs) = st;
    let s0 = floor_boundary(b, c.0 as int);
    let start = if s0 < cursor { cursor } else { s0 };
    let e0 = floor_boundary(b, c.1 as int);
    let end = if e0 < start { start } else { e0 };
    let r1 = if start > cursor { rs.push(paint(BlockKind::Raw, cursor, start)) } else { rs };
    let r2 = if end > start { r1.push(paint(c.2, start, end)) } else { r1 };
    (if cursor < end { end } else { cursor }, r2)
}

pub open spec fn range_walk(b: Seq<u8>, cs: Seq<Covered>) -> (int, Seq<PaintRange>)
    decreases cs.len(),
{
    if cs.len() == 0 {
        (0, Seq::empty())
    } else {
        range_step(b, range_walk(b, cs.drop_last()), cs.last())
    }
}

/// Paint ranges of a source with bytes `b`, from the events of its parse:
/// top-level blocks (a code block inside a list split out on its own) in
/// source order, the gaps between them as `Raw`.
pub open spec fn paint_ranges(b: Seq<u8>, ev: Seq<MdSpan>) -> Seq<PaintRange> {
    if b.len() == 0 {
        seq![paint(BlockKind::Paragraph, 0, 0)]
    } else {
        let (cursor, rs) = range_walk(b, sort_by_start(split_walk(ev).cov));
        let rs2 = if cursor < b.len() {
            rs.push(paint(BlockKind::Raw, cursor, b.len() as int))
        } else {
            rs
        };
        if rs2.len() == 0 {
            seq![paint(BlockKind::Paragraph, 0, b.len() as int)]
        } else {
            rs2
        }
    }
}

/// `rs` are back to back from 0 to `cursor`, each on character boundaries.
pub open spec fn tiled_to(b: Seq<u8>, rs: Seq<PaintRange>, cursor: int) -> bool {
    &&& (rs.len() == 0 ==> cursor == 0)
    &&& (rs.len() > 0 ==> rs[0].range.start == 0 && rs.last().range.end == cursor)
    &&& forall|i: int|
        0 <= i < rs.len() ==> (#[trigger] rs[i]).range.start < rs[i].range.end && at_boundary(
            b,
            rs[i].range.end as int,
        ) && at_boundary(b, rs[i].range.start as int)
    &&& forall|i: int| 0 <= i < rs.len() - 1 ==> #[trigger] rs[i].range.end == rs[i + 1].range.start
}

/// The ranges tile the whole source: back to back from 0 to its end,
/// every end on a character boundary.
pub open spec fn tiles(b: Seq<u8>, rs: Seq<PaintRange>) -> bool {
    &&& rs.len() > 0
    &&& rs[0].range.start == 0
    &&& rs.last().range.end == b.len()
    &&& forall|i: int|
        0 <= i < rs.len() ==> (#[trigger] rs[i]).range.start <= rs[i].range.end && at_boundary(
            b,
            rs[i].range.end as int,
        ) && at_boundary(b, rs[i].range.start as int)
    &&& forall|i: int| 0 <= i < rs.len() - 1 ==> #[trigger] rs[i].range.end == rs[i + 1].range.start
}

proof fn lemma_range_walk(b: Seq<u8>, cs: Seq<Covered>)
    requires
        valid_utf8(b),
        b.len() <= usize::MAX,
    ensures
        0 <= range_walk(b, cs).0 <= b.len(),
        at_boundary(b, range_walk(b, cs).0),
        tiled_to(b, range_walk(b, cs).1, range_walk(b, cs).0),
    decreases cs.len(),
{
    if b.len() > 0 {
        lemma_boundary_zero(b);
    }
    if cs.len() > 0 {
        lemma_range_walk(b, cs.drop_last());
        let c = cs.last();
        lemma_floor_boundary(b, c.0 as int);
        lemma_floor_boundary(b, c.1 as int);
        let (cursor, rs) = range_walk(b, cs.drop_last());
        let s0 = floor_boundary(b, c.0 as int);
        let start = if s0 < cursor { cursor } else { s0 };
        let e0 = floor_boundary(b, c.1 as int);
        let end = if e0 < start { start } else { e0 };
        let r1 = if start > cursor { rs.push(paint(BlockKind::Raw, cursor, start)) } else { rs };
        let r2 = if end > start { r1.push(paint(c.2, start, end)) } else { r1 };
        assert(tiled_to(b, r1, start));
        assert(tiled_to(b, r2, end));
    } else {
        if b.len() == 0 {
            assert(at_boundary(b, 0));
        }
    }
}

proof fn lemma_boundary_zero(b: Seq<u8>)
    requires
        valid_utf8(b),
    ensures
        at_boundary(b, 0),
{
    lemma_floor_boundary(b, 0);
}

/// The paint ranges of a text cover it: they start at 0, end at its end,
/// follow one another without gap or overlap, and cut only at character
/// boundaries.
pub proof fn lemma_paint_ranges_tile(b: Seq<u8>, ev: Seq<MdSpan>)
    requires
        valid_utf8(b),
        b.len() <= usize::MAX,
    ensures
        tiles(b, paint_ranges(b, ev)),
{
    if b.len() == 0 {
        assert(at_boundary(b, 0));
    } else {
        let cs = sort_by_start(split_walk(ev).cov);
        lemma_range_walk(b, cs);
        lemma_boundary_zero(b);
        assert(at_boundary(b, b.len() as int));
        let (cursor, rs) = range_walk(b, cs);
        if cursor < b.len() {
            let rs2 = rs.push(paint(BlockKind::Raw, cursor, b.len() as int));
            assert(tiled_to(b, rs2, b.len() as int));
            assert(paint_ranges(b, ev) == rs2);
        } else {
            assert(rs.len() > 0);
            assert(paint_ranges(b, ev) == rs);
        }
    }
}

/// Paint ranges of `src` from the events of its GFM parse: every
/// top-level block in source order, the gaps between them as `Raw`.
pub fn ranges_from_events(src: &str, events: &[MdSpan]) -> (r: Vec<PaintRange>)
    ensures
        r@ == paint_ranges(utf8(src@), events@),
        tiles(utf8(src@), r@),
{
    let b = crate::text::bytes_of(src);
    let n: usize = b.len();
    proof {
        lemma_utf8_valid(src@);
        assert(utf8(src@).len() == n);
        lemma_paint_ranges_tile(utf8(src@), events@);
    }
    if n == 0 {
        let mut v: Vec<PaintRange> = Vec::new();
        v.push(PaintRange { kind: BlockKind::Paragraph, range: 0..0 });
        assert(v@ =~= paint_ranges(utf8(src@), events@));
        return v;
    }
    let cov = split_blocks(events);
    let sorted = sort_covered(&cov);
    let ghost cs = sorted@;
    let mut out: Vec<PaintRange> = Vec::new();
    let mut cursor: usize = 0;
    let mut i: usize = 0;
    while i < sorted.len()
        invariant
            i <= cs.len(),
            cs == sorted@,
            n == utf8(src@).len(),
            range_walk(utf8(src@), cs.take(i as int)) == (cursor as int, out@),
            cursor <= n,
        decreases cs.len() - i,
    {
        proof {
            assert(cs.take(i as int + 1).drop_last() =~= cs.take(i as int));
            lemma_utf8_valid(src@);
            lemma_range_walk(utf8(src@), cs.take(i as int + 1));
        }
        let c = sorted[i];
        let s0 = floor_char_boundary(src, c.0);
        let start = if s0 < cursor { cursor } else { s0 };
        let e0 = floor_char_boundary(src, c.1);
        let end = if e0 < start { start } else { e0 };
        if start > cursor {
            out.push(PaintRange { kind: BlockKind::Raw, range: cursor..start });
        }
        if end > start {
            out.push(PaintRange { kind: c.2, range: start..end });
        }
        if cursor < end {
            cursor = end;
        }
        i += 1;
    }
    proof {
        assert(cs.take(i as int) =~= cs);
    }
    if cursor < n {
        out.push(PaintRange { kind: BlockKind::Raw, range: cursor..n });
    }
    if out.len() == 0 {
        out.push(PaintRange { kind: BlockKind::Paragraph, range: 0..n });
    }
    out
}

/// Parse GFM into paint ranges that cover `0..src.len()`. Unparsed gaps
/// (blank lines, leftovers) are [`BlockKind::Raw`]; a fenced block inside a
/// list item is its own `Code` range between the list's parts.
pub fn parse_ranges(src: &str) -> (r: Vec<PaintRange>)
    ensures
        r@ == paint_ranges(utf8(src@), md_spans(src@, GFM_FLAGS)),
        tiles(utf8(src@), r@),
{
    let events = md_parse(src);
    ranges_from_events(src, events.as_slice())
}


impl PaintRange {
    /// The block's bytes: its range clamped to the source.
    pub open spec fn span(&self, n: int) -> (int, int) {
        let a = if (self.range.start as int) < n {
            self.range.start as int
        } else {
            n
        };
        let e0 = if (self.range.end as int) < n {
            self.range.end as int
        } else {
            n
        };
        (a, if e0 < a {
            a
        } else {
            e0
        })
    }

    /// `src[range]`, clamped to the source; the clamped ends must be
    /// character boundaries.
    pub fn slice<'a>(&self, src: &'a str) -> (r: &'a str)
        requires
            at_boundary(utf8(src@), self.span(utf8(src@).len() as int).0),
            at_boundary(utf8(src@), self.span(utf8(src@).len() as int).1),
        ensures
            utf8(r@) == utf8(src@).subrange(
                self.span(utf8(src@).len() as int).0,
                self.span(utf8(src@).len() as int).1,
            ),
    {
        let n: usize = crate::text::bytes_of(src).len();
        let a: usize = if self.range.start < n {
            self.range.start
        } else {
            n
        };
        let e0: usize = if self.range.end < n {
            self.range.end
        } else {
            n
        };
        let e: usize = if e0 < a {
            a
        } else {
            e0
        };
        crate::text::substr(src, a, e)
    }

    /// The block holds only white space.
    pub fn is_blank(&self, src: &str) -> (r: bool)
        requires
            at_boundary(utf8(src@), self.span(utf8(src@).len() as int).0),
            at_boundary(utf8(src@), self.span(utf8(src@).len() as int).1),
        ensures
            r == blank_text(
                utf8(src@).subrange(
                    self.span(utf8(src@).len() as int).0,
                    self.span(utf8(src@).len() as int).1,
                ),
            ),
    {
        let sl = crate::text::bytes_of(self.slice(src));
        let n: usize = sl.len();
        crate::text::trim_start_idx(sl, 0, n) >= n
    }
}

/// `b` is empty or white space only.
pub open spec fn blank_text(b: Seq<u8>) -> bool {
    trim_start_at(b, 0, b.len() as int) >= b.len()
}

/* ---------- images ---------- */

/// `![alt](src)` on one (trimmed) line: alt and the first word of the
/// destination without surrounding quotes; nothing when that is empty.
pub open spec fn image_of_line(l: Seq<u8>) -> Option<(Seq<u8>, Seq<u8>)> {
    let n = l.len() as int;
    if n < 2 || l[0] != 33 || l[1] != 91 {
        None
    } else {
        match first_of(l, 93, 2, n) {
            None => None,
            Some(c1) => if c1 + 1 >= n || l[c1 + 1] != 40 {
                None
            } else {
                match first_of(l, 41, c1 + 2, n) {
                    None => None,
                    Some(c2) => {
                        let ia = trim_start_at(l, c1 + 2, c2);
                        let ie = trim_end_at(l, ia, c2);
                        let we = if ia < ie {
                            word_end(l, ia, ie)
                        } else {
                            ie
                        };
                        let sa = ia + lead_run(l, 34, ia, we);
                        let se = we - tail_run(l, 34, sa, we);
                        if se <= sa {
                            None
                        } else {
                            Some((l.subrange(2, c1), l.subrange(sa, se)))
                        }
                    },
                }
            },
        }
    }
}

/// Line starts of the non-blank lines of `b` from `i` on.
pub open spec fn text_lines(b: Seq<u8>, i: int) -> Seq<int>
    decreases b.len() + 1 - i,
{
    if i < 0 || i >= b.len() {
        Seq::empty()
    } else {
        let j = line_end(b, i);
        proof {
            lemma_line_end(b, i);
        }
        let rest = text_lines(b, j + 1);
        if blank_line(b, i) {
            rest
        } else {
            seq![i] + rest
        }
    }
}

/// `![alt](src)` when the block is only an image (plus white space).
pub open spec fn sole_image_of(b: Seq<u8>) -> Option<(Seq<u8>, Seq<u8>)> {
    let ls = text_lines(b, 0);
    if ls.len() != 1 {
        None
    } else {
        let i = ls[0];
        let ce = line_content_end(b, i);
        let ta = trim_start_at(b, i, ce);
        image_of_line(b.subrange(ta, trim_end_at(b, ta, ce)))
    }
} 


proof fn lemma_ascii_boundary(b: Seq<u8>, i: int)
    requires
        0 <= i < b.len(),
        b[i] < 0x80,
    ensures
        at_boundary(b, i),
{
}

/// `![alt](src)` of one trimmed line.
fn parse_image_line(line: &str) -> (r: Option<(String, String)>)
    ensures
        match r {
            Some((a, s)) => image_of_line(utf8(line@)) == Some((utf8(a@), utf8(s@))),
            None => image_of_line(utf8(line@)) is None,
        },
{
    let l = crate::text::bytes_of(line);
    let n: usize = l.len();
    let ghost lb = l@;
    proof {
        lemma_utf8_valid(line@);
        crate::text::lemma_boundary_zero(lb);
    }
    if n < 2 || l[0] != 33 || l[1] != 91 {
        return None;
    }
    proof {
        lemma_first_of_props(lb, 93, 2, n as int);
    }
    let c1 = match crate::text::find_byte(l, 93, 2, n) {
        Some(c) => c,
        None => return None,
    };
    if c1 + 1 >= n || l[c1 + 1] != 40 {
        return None;
    }
    proof {
        lemma_first_of_props(lb, 41, c1 + 2, n as int);
    }
    let c2 = match crate::text::find_byte(l, 41, c1 + 2, n) {
        Some(c) => c,
        None => return None,
    };
    proof {
        crate::text::lemma_after_ascii(lb, c1 + 1);
        lemma_ascii_boundary(lb, c2 as int);
        crate::html::lemma_trim_boundaries(lb, c1 + 2, c2 as int);
    }
    let ia = crate::text::trim_start_idx(l, c1 + 2, c2);
    let ie = crate::text::trim_end_idx(l, ia, c2);
    let we: usize = if ia < ie {
        crate::projection::word_end_idx(l, ia, ie)
    } else {
        ie
    };
    proof {
        if ia < ie {
            crate::projection::lemma_word_end(lb, ia as int, ie as int);
        }
        crate::projection::lemma_lead_run(lb, 34, ia as int, we as int);
    }
    let sa = ia + crate::projection::lead_run_len(l, 34, ia, we);
    proof {
        crate::projection::lemma_tail_run(lb, 34, sa as int, we as int);
    }
    let se = we - crate::projection::tail_run_len(l, 34, sa, we);
    if se <= sa {
        return None;
    }
    proof {
        // quotes and white space are ASCII: the cuts sit on boundaries
        if sa > ia {
            crate::text::lemma_after_ascii(lb, sa - 1);
        }
        if we < ie {
            assert(crate::text::ws_at(lb, we as int) > 0);
        }
        if se < we {
            lemma_ascii_boundary(lb, se as int);
        }
        lemma_ascii_boundary(lb, c1 as int);
        crate::text::lemma_after_ascii(lb, 1);
    }
    let alt = crate::text::owned(crate::text::substr(line, 2, c1));
    let src = crate::text::owned(crate::text::substr(line, sa, se));
    Some((alt, src))
}

proof fn lemma_text_lines_unfold(b: Seq<u8>, i: int)
    requires
        0 <= i < b.len(),
    ensures
        text_lines(b, i) == if blank_line(b, i) {
            text_lines(b, line_end(b, i) + 1)
        } else {
            seq![i] + text_lines(b, line_end(b, i) + 1)
        },
{
}

/// `![alt](src)` when the block is only an image (plus white space).
pub fn sole_image(source: &str) -> (r: Option<(String, String)>)
    ensures
        match r {
            Some((a, s)) => sole_image_of(utf8(source@)) == Some((utf8(a@), utf8(s@))),
            None => sole_image_of(utf8(source@)) is None,
        },
{
    let b = crate::text::bytes_of(source);
    let n: usize = b.len();
    let ghost bb = b@;
    proof {
        lemma_utf8_valid(source@);
    }
    // the first non-blank line, and whether there is another
    let mut first: Option<usize> = None;
    let mut i: usize = 0;
    while i < n
        invariant
            i <= n == bb.len(),
            bb == b@,
            bb == utf8(source@),
            match first {
                None => text_lines(bb, 0) == text_lines(bb, i as int),
                Some(f) => text_lines(bb, 0) == seq![f as int] + text_lines(bb, i as int),
            },
            first matches Some(f) ==> f < n && (f == 0 || bb[f - 1] == 10),
            i < n ==> (i == 0 || bb[i - 1] == 10),
        decreases n - i,
    {
        let j = crate::text::line_end_idx(b, i);
        proof {
            lemma_line_end(bb, i as int);
            lemma_text_lines_unfold(bb, i as int);
        }
        if !crate::projection::is_blank_line(b, i) {
            if first.is_some() {
                proof {
                    assert(text_lines(bb, 0).len() >= 2);
                    assert(sole_image_of(bb) is None);
                }
                return None;
            }
            first = Some(i);
        }
        if j >= n {
            proof {
                assert(text_lines(bb, j + 1) =~= Seq::<int>::empty());
                assert(text_lines(bb, n as int) =~= Seq::<int>::empty());
            }
            i = n;
        } else {
            i = j + 1;
        }
    }
    let f = match first {
        Some(f) => f,
        None => return None,
    };
    assert(text_lines(bb, n as int) =~= Seq::<int>::empty());
    assert(text_lines(bb, 0) =~= seq![f as int]);
    let ce = crate::text::line_content_end_idx(b, f);
    proof {
        lemma_line_end(bb, f as int);
        if ce < n {
            assert(bb[ce as int] == 10 || bb[ce as int] == 13);
            lemma_ascii_boundary(bb, ce as int);
        } else {
            crate::text::lemma_boundary_zero(bb);
        }
        if f > 0 {
            assert(bb[f - 1] == 10);
            crate::text::lemma_after_ascii(bb, f - 1);
        } else {
            crate::text::lemma_boundary_zero(bb);
        }
        crate::html::lemma_trim_boundaries(bb, f as int, ce as int);
    }
    let ta = crate::text::trim_start_idx(b, f, ce);
    let te = crate::text::trim_end_idx(b, ta, ce);
    let line = crate::text::substr(source, ta, te);
    parse_image_line(line)
}



/* ---------- markers still waiting for their space ---------- */

/// The first line of `s`, without its line end, is a bare list marker that
/// has no space after it yet: `-`, `*`, `+`, or digits and `.` or `)`.
pub open spec fn incomplete_list_marker(s: Seq<u8>) -> bool {
    let le = crate::text::trim_nl_end(s, 0, s.len() as int);
    let t = s.subrange(0, le);
    let d = crate::projection::digit_run(t, 0);
    (t.len() == 1 && (t[0] == 45 || t[0] == 42 || t[0] == 43)) || (d > 0 && d + 1 == t.len() && (
    t[d] == 46 || t[d] == 41))
}

/// The text of `s`, without its line end, is one to six `#` and nothing else.
pub open spec fn incomplete_heading_marker(s: Seq<u8>) -> bool {
    let le = crate::text::trim_nl_end(s, 0, s.len() as int);
    1 <= le <= 6 && crate::notion::run_of(s, 35, 0) >= le
}

pub fn is_incomplete_list_marker(s: &[u8]) -> (r: bool)
    ensures
        r == incomplete_list_marker(s@),
{
    let n: usize = s.len();
    let le = crate::text::trim_nl_end_idx(s, 0, n);
    let t = crate::text::slice_vec(s, 0, le);
    if le == 1 && (t[0] == 45 || t[0] == 42 || t[0] == 43) {
        return true;
    }
    let d = crate::projection::digit_len_pub(t.as_slice(), 0);
    d > 0 && d < le && d == le - 1 && (t[d] == 46 || t[d] == 41)
}

pub fn is_incomplete_heading_marker(s: &[u8]) -> (r: bool)
    ensures
        r == incomplete_heading_marker(s@),
{
    let n: usize = s.len();
    let le = crate::text::trim_nl_end_idx(s, 0, n);
    proof {
        crate::notion::lemma_run_of(s@, 35, 0);
    }
    1 <= le && le <= 6 && crate::notion::run_len(s, 35, 0) >= le
}


/* ---------- blocks ---------- */

/// Hands out block ids: each one above every id handed out before.
pub struct BlockIds {
    pub next: u64,
}

impl BlockIds {
    pub fn new() -> (r: BlockIds)
        ensures
            r.next == 1,
    {
        BlockIds { next: 1 }
    }

    /// A fresh id; ids only grow (saturating at the top of `u64`).
    pub fn next_id(&mut self) -> (r: u64)
        ensures
            r == old(self).next,
            final(self).next == if old(self).next < u64::MAX {
                old(self).next + 1
            } else {
                u64::MAX as int
            },
    {
        let r = self.next;
        self.next = self.next.saturating_add(1);
        r
    }
}

#[derive(Debug)]
pub struct Block {
    pub id: u64,
    pub kind: BlockKind,
    pub source: String,
}

impl Block {
    pub fn paragraph(ids: &mut BlockIds, source: String) -> (r: Block)
        ensures
            r.id == old(ids).next,
            r.kind == BlockKind::Paragraph,
            r.source == source,
            final(ids).next == if old(ids).next < u64::MAX {
                old(ids).next + 1
            } else {
                u64::MAX as int
            },
    {
        let id = ids.next_id();
        Block { id, kind: BlockKind::Paragraph, source }
    }

    pub fn with_kind(ids: &mut BlockIds, kind: BlockKind, source: String) -> (r: Block)
        ensures
            r.id == old(ids).next,
            r.kind == kind,
            r.source == source,
            final(ids).next == if old(ids).next < u64::MAX {
                old(ids).next + 1
            } else {
                u64::MAX as int
            },
    {
        let id = ids.next_id();
        Block { id, kind, source }
    }

    /// The source is white space only.
    pub fn is_empty(&self) -> (r: bool)
        ensures
            r == blank_text(utf8(self.source@)),
    {
        let b = crate::text::bytes_of(self.source.as_str());
        let n: usize = b.len();
        crate::text::trim_start_idx(b, 0, n) >= n
    }
}

/* ---------- source edits ---------- */

pub open spec fn clamp_span(n: int, a: int, e: int) -> (int, int) {
    let s = if a < n {
        a
    } else {
        n
    };
    let z0 = if e < n {
        e
    } else {
        n
    };
    (s, if z0 < s {
        s
    } else {
        z0
    })
}

/// `b` with `b[a..e]` (clamped) replaced by `ins`, as `splice` makes it.
pub open spec fn spliced(b: Seq<u8>, a: int, e: int, ins: Seq<u8>) -> Seq<u8> {
    let (s, z) = clamp_span(b.len() as int, a, e);
    b.subrange(0, s) + ins + b.subrange(z, b.len() as int)
}

/// A splice is undone by splicing the removed text back over the
/// inserted one.
pub proof fn lemma_splice_undo(b: Seq<u8>, a: int, e: int, ins: Seq<u8>)
    requires
        0 <= a,
        0 <= e,
    ensures
        ({
            let (s, z) = clamp_span(b.len() as int, a, e);
            spliced(spliced(b, a, e, ins), s, s + ins.len(), b.subrange(s, z)) == b
        }),
{
    let n = b.len() as int;
    let (s, z) = clamp_span(n, a, e);
    let b1 = spliced(b, a, e, ins);
    assert(b1.len() == s + ins.len() + (n - z));
    assert(clamp_span(b1.len() as int, s, s + ins.len()) == (s, s + ins.len()));
    assert(b1.subrange(0, s) =~= b.subrange(0, s));
    assert(b1.subrange(s + ins.len(), b1.len() as int) =~= b.subrange(z, n));
    assert(b.subrange(0, s) + b.subrange(s, z) + b.subrange(z, n) =~= b);
}

/// Replace `source[range]` (clamped to the source) with `insert`.
pub fn splice(source: &str, range: Range<usize>, insert: &str) -> (r: String)
    requires
        at_boundary(
            utf8(source@),
            clamp_span(utf8(source@).len() as int, range.start as int, range.end as int).0,
        ),
        at_boundary(
            utf8(source@),
            clamp_span(utf8(source@).len() as int, range.start as int, range.end as int).1,
        ),
    ensures
        ({
            let b = utf8(source@);
            let (s, e) = clamp_span(b.len() as int, range.start as int, range.end as int);
            utf8(r@) == b.subrange(0, s) + utf8(insert@) + b.subrange(e, b.len() as int)
        }),
        utf8(r@) == spliced(utf8(source@), range.start as int, range.end as int, utf8(insert@)),
{
    let b = crate::text::bytes_of(source);
    let n: usize = b.len();
    let s: usize = if range.start < n {
        range.start
    } else {
        n
    };
    let z0: usize = if range.end < n {
        range.end
    } else {
        n
    };
    let e: usize = if z0 < s {
        s
    } else {
        z0
    };
    proof {
        crate::text::lemma_utf8_valid(source@);
        crate::text::lemma_boundary_zero(b@);
    }
    let pre = crate::text::substr(source, 0, s);
    let post = crate::text::substr(source, e, n);
    let mut out = crate::text::owned(pre);
    out.append(insert);
    out.append(post);
    proof {
        crate::text::lemma_utf8_concat(pre@, insert@);
        crate::text::lemma_utf8_concat(pre@ + insert@, post@);
    }
    out
}


/// Span of the `/` query in `b[a..e]`: the text is trimmed, starts with
/// `/` and holds no newline; the query is what follows, left-trimmed.
pub open spec fn slash_in(b: Seq<u8>, a: int, e: int) -> Option<(int, int)> {
    let ta = trim_start_at(b, a, e);
    let te = trim_end_at(b, ta, e);
    if ta >= te || b[ta] != 47 || first_of(b, 10, ta + 1, te) is Some {
        None
    } else {
        Some((trim_start_at(b, ta + 1, te), te))
    }
}

/// The text after a leading `/` (trimmed), when the block is one line that
/// starts with `/`.
pub fn slash_query(source: &str) -> (r: Option<&str>)
    ensures
        match slash_in(utf8(source@), 0, utf8(source@).len() as int) {
            Some((a, e)) => r is Some && utf8(r->0@) == utf8(source@).subrange(a, e),
            None => r is None,
        },
{
    let b = crate::text::bytes_of(source);
    let n: usize = b.len();
    proof {
        lemma_utf8_valid(source@);
        crate::text::lemma_boundary_zero(b@);
    }
    slash_span(source, b, 0, n)
}

fn slash_span<'a>(source: &'a str, b: &[u8], a: usize, e: usize) -> (r: Option<&'a str>)
    requires
        b@ == utf8(source@),
        a <= e <= b@.len(),
        at_boundary(b@, a as int),
        at_boundary(b@, e as int),
    ensures
        match slash_in(b@, a as int, e as int) {
            Some((x, y)) => r is Some && utf8(r->0@) == b@.subrange(x, y),
            None => r is None,
        },
{
    proof {
        lemma_utf8_valid(source@);
        crate::html::lemma_trim_boundaries(b@, a as int, e as int);
    }
    let ta = crate::text::trim_start_idx(b, a, e);
    let te = crate::text::trim_end_idx(b, ta, e);
    if ta >= te || b[ta] != 47 {
        return None;
    }
    proof {
        lemma_first_of_props(b@, 10, ta + 1, te as int);
    }
    if crate::text::find_byte(b, 10, ta + 1, te).is_some() {
        return None;
    }
    proof {
        crate::text::lemma_after_ascii(b@, ta as int);
        crate::html::lemma_trim_boundaries(b@, ta + 1, te as int);
    }
    let q = crate::text::trim_start_idx(b, ta + 1, te);
    Some(crate::text::substr(source, q, te))
}

/// The line holding `offset` (clamped): from after the previous `'\n'` to
/// the next one.
pub open spec fn line_around(b: Seq<u8>, o: int) -> (int, int) {
    let st = match crate::text::last_of(b, 10, 0, o) {
        Some(i) => i + 1,
        None => 0,
    };
    (st, line_end(b, o))
}

/// `/` query on the logical line containing `offset` (insert, line start).
pub fn slash_query_at(source: &str, offset: usize) -> (r: Option<&str>)
    requires
        at_boundary(
            utf8(source@),
            if offset < utf8(source@).len() {
                offset as int
            } else {
                utf8(source@).len() as int
            },
        ),
    ensures
        ({
            let b = utf8(source@);
            let o = if offset < b.len() {
                offset as int
            } else {
                b.len() as int
            };
            let (st, en) = line_around(b, o);
            match slash_in(b, st, en) {
                Some((x, y)) => r is Some && utf8(r->0@) == b.subrange(x, y),
                None => r is None,
            }
        }),
{
    let b = crate::text::bytes_of(source);
    let n: usize = b.len();
    let o: usize = if offset < n {
        offset
    } else {
        n
    };
    proof {
        lemma_utf8_valid(source@);
        crate::text::lemma_last_of_props(b@, 10, 0, o as int);
        lemma_line_end(b@, o as int);
        crate::text::lemma_boundary_zero(b@);
    }
    let st: usize = match crate::text::rfind_byte(b, 10, 0, o) {
        Some(i) => i + 1,
        None => 0,
    };
    let en = crate::text::line_end_idx(b, o);
    proof {
        if st > 0 {
            crate::text::lemma_after_ascii(b@, st - 1);
        }
    }
    slash_span(source, b, st, en)
}

/// `s` without one final `'\n'` (or `"\r\n"`).
pub open spec fn strip_one_nl(b: Seq<u8>) -> Seq<u8> {
    if b.len() > 0 && b[b.len() - 1] == 10 {
        if b.len() > 1 && b[b.len() - 2] == 13 {
            b.subrange(0, b.len() - 2)
        } else {
            b.subrange(0, b.len() - 1)
        }
    } else {
        b
    }
}

fn strip_one_trailing_newline(s: &str) -> (r: &str)
    ensures
        utf8(r@) == strip_one_nl(utf8(s@)),
{
    let b = crate::text::bytes_of(s);
    let n: usize = b.len();
    proof {
        lemma_utf8_valid(s@);
        crate::text::lemma_boundary_zero(b@);
    }
    if n > 0 && b[n - 1] == 10 {
        let k: usize = if n > 1 && b[n - 2] == 13 {
            n - 2
        } else {
            n - 1
        };
        proof {
            assert(b@[k as int] == 10 || b@[k as int] == 13);
        }
        crate::text::substr(s, 0, k)
    } else {
        proof {
            assert(b@.subrange(0, n as int) =~= b@);
        }
        crate::text::substr(s, 0, n)
    }
}

/// Join `current` onto the last line of `prev` as one nvim/hx buffer.
/// Strips a single trailing newline from `prev` so the heading lands on the
/// same line as the previous text. No extra newline is inserted.
pub fn join_line(prev: &str, current: &str) -> (r: (String, usize))
    ensures
        utf8(r.0@) == strip_one_nl(utf8(prev@)) + utf8(current@),
        r.1 == strip_one_nl(utf8(prev@)).len(),
{
    let p = strip_one_trailing_newline(prev);
    let caret: usize = crate::text::bytes_of(p).len();
    let mut out = crate::text::owned(p);
    out.append(current);
    proof {
        crate::text::lemma_utf8_concat(p@, current@);
    }
    (out, caret)
}

/// Join two block sources with backspace semantics (see [`join_line`]).
pub fn merge_blocks(prev: &str, current: &str) -> (r: String)
    ensures
        utf8(r@) == strip_one_nl(utf8(prev@)) + utf8(current@),
{
    join_line(prev, current).0
}

/// Byte offset of the join point (end of the previous source, after
/// stripping one trailing newline).
pub fn merge_caret(prev: &str, current: &str) -> (r: usize)
    ensures
        r == strip_one_nl(utf8(prev@)).len(),
{
    join_line(prev, current).1
}

/// Width of the line break that ends right before `offset`, if any.
pub open spec fn break_before(b: Seq<u8>, offset: int) -> int {
    if offset == 0 || offset > b.len() || b[offset - 1] != 10 {
        0
    } else if offset >= 2 && b[offset - 2] == 13 {
        2
    } else {
        1
    }
}

/// In-block backspace at column 0: delete the newline before `offset`.
/// `None` if `offset` is 0 or the previous character is not a newline.
pub fn join_line_at(source: &str, offset: usize) -> (r: Option<(String, usize)>)
    ensures
        ({
            let b = utf8(source@);
            let k = break_before(b, offset as int);
            if k == 0 {
                r is None
            } else {
                match r {
                    Some((out, c)) => c == offset - k && utf8(out@) == b.subrange(0, offset - k)
                        + b.subrange(offset as int, b.len() as int),
                    None => false,
                }
            }
        }),
{
    let b = crate::text::bytes_of(source);
    let n: usize = b.len();
    if offset == 0 || offset > n {
        return None;
    }
    if b[offset - 1] != 10 {
        return None;
    }
    let skip: usize = if offset >= 2 && b[offset - 2] == 13 {
        2
    } else {
        1
    };
    let caret: usize = offset - skip;
    proof {
        lemma_utf8_valid(source@);
        crate::text::lemma_after_ascii(b@, offset - 1);
        crate::text::lemma_boundary_zero(b@);
    }
    let pre = crate::text::substr(source, 0, caret);
    let post = crate::text::substr(source, offset, n);
    let mut out = crate::text::owned(pre);
    out.append(post);
    proof {
        crate::text::lemma_utf8_concat(pre@, post@);
    }
    Some((out, caret))
}

/// Index to select after removing `ix` from a list of `len` blocks:
/// the next block, or the previous one when `ix` was the last.
pub open spec fn index_after_delete(len: int, ix: int) -> Option<int> {
    if len == 0 {
        None
    } else if len == 1 {
        Some(0)
    } else {
        let i = if ix < len - 1 {
            ix
        } else {
            len - 1
        };
        if i + 1 == len {
            Some(if i > 0 {
                i - 1
            } else {
                0
            })
        } else {
            Some(i)
        }
    }
}

/// Index to select after removing `ix` from a list of `len` blocks.
/// `None` if there is nothing to remove (`len == 0`).
pub fn delete_block_index(len: usize, ix: usize) -> (r: Option<usize>)
    ensures
        match r {
            Some(i) => index_after_delete(len as int, ix as int) == Some(i as int),
            None => index_after_delete(len as int, ix as int) is None,
        },
{
    if len == 0 {
        return None;
    }
    if len == 1 {
        return Some(0);
    }
    let i: usize = if ix < len - 1 {
        ix
    } else {
        len - 1
    };
    if i + 1 == len {
        Some(if i > 0 {
            i - 1
        } else {
            0
        })
    } else {
        Some(i)
    }
}

/// After a deletion from a non-empty list, the selected index is a
/// valid index of the list that remains (or 0 when it is empty).
pub proof fn lemma_delete_index_in_range(len: int, ix: int)
    requires
        len > 0,
        ix >= 0,
    ensures
        index_after_delete(len, ix) matches Some(i) && 0 <= i && (len == 1 || i < len - 1),
{
}

/* ---------- raw spans ---------- */

pub open spec fn holds_caret(r: Range<usize>, caret: int, n: int) -> bool {
    if r.start == r.end {
        caret == r.start
    } else if caret >= n {
        r.end >= n && caret >= r.start
    } else {
        r.start <= caret < r.end
    }
}

pub open spec fn meets(r: Range<usize>, h: (int, int)) -> bool {
    r.start < h.1 && h.0 < r.end
}

fn contains_caret(range: &Range<usize>, caret: usize, src_len: usize) -> (r: bool)
    ensures
        r == holds_caret(*range, caret as int, src_len as int),
{
    if range.start == range.end {
        return caret == range.start;
    }
    if caret >= src_len {
        return range.end >= src_len && caret >= range.start;
    }
    caret >= range.start && caret < range.end
}

fn intersects(range: &Range<usize>, hot: &Range<usize>) -> (r: bool)
    ensures
        r == meets(*range, (hot.start as int, hot.end as int)),
{
    range.start < hot.end && hot.start < range.end
}

/// The range is hot: it holds the caret, or meets a non-empty selection.
pub open spec fn hot_range(r: Range<usize>, caret: int, n: int, hot: Option<(int, int)>) -> bool {
    match hot {
        Some(h) => if h.0 != h.1 {
            meets(r, h) || holds_caret(r, caret, n)
        } else {
            holds_caret(r, caret, n)
        },
        None => holds_caret(r, caret, n),
    }
}

/// One continuous raw span covering every paint range that intersects `caret`
/// or `sel` (including gaps between them).
pub open spec fn raw_span_of(
    rs: Seq<PaintRange>,
    n: int,
    caret0: int,
    sel: Option<(int, int)>,
) -> (int, int) {
    let caret = if caret0 < n {
        caret0
    } else {
        n
    };
    let hot = match sel {
        Some((a0, b0)) => {
            let lo = if a0 < b0 {
                a0
            } else {
                b0
            };
            let hi = if a0 < b0 {
                b0
            } else {
                a0
            };
            Some((if lo < n {
                lo
            } else {
                n
            }, if hi < n {
                hi
            } else {
                n
            }))
        },
        None => None,
    };
    let p = |r: PaintRange| hot_range(r.range, caret, n, hot);
    match (first_index(rs, p, 0), crate::search::last_index(rs, p, rs.len() as int)) {
        (Some(a), Some(b)) => (rs[a].range.start as int, rs[b].range.end as int),
        _ => (caret, caret),
    }
}

pub open spec fn opt_span(o: &Option<Range<usize>>) -> Option<(int, int)> {
    match o {
        Some(h) => Some((h.start as int, h.end as int)),
        None => None,
    }
}

pub fn raw_span(ranges: &[PaintRange], src_len: usize, caret: usize, sel: Option<Range<usize>>) -> (r:
    Range<usize>)
    ensures
        (r.start as int, r.end as int) == raw_span_of(
            ranges@,
            src_len as int,
            caret as int,
            opt_span(&sel),
        ),
{
    let caret: usize = if caret < src_len {
        caret
    } else {
        src_len
    };
    let hot: Option<Range<usize>> = match sel {
        Some(s) => {
            let lo = if s.start < s.end {
                s.start
            } else {
                s.end
            };
            let hi = if s.start < s.end {
                s.end
            } else {
                s.start
            };
            Some(
                (if lo < src_len {
                    lo
                } else {
                    src_len
                })..(if hi < src_len {
                    hi
                } else {
                    src_len
                }),
            )
        },
        None => None,
    };
    let ghost hv = opt_span(&hot);
    let ghost p = |r: PaintRange| hot_range(r.range, caret as int, src_len as int, hv);
    let mut first: Option<usize> = None;
    let mut last: Option<usize> = None;
    let mut i: usize = 0;
    while i < ranges.len()
        invariant
            i <= ranges@.len(),
            p == (|r: PaintRange| hot_range(r.range, caret as int, src_len as int, hv)),
            hv == opt_span(&hot),
            first is None <==> last is None,
            first matches Some(a) ==> a < i,
            last matches Some(b) ==> b < i,
            first matches Some(a) ==> first_index(ranges@, p, 0) == Some(a as int),
            first is None ==> first_index(ranges@, p, 0) == first_index(ranges@, p, i as int),
            last matches Some(b) ==> crate::search::last_index(ranges@, p, i as int) == Some(
                b as int,
            ),
            first is None ==> crate::search::last_index(ranges@, p, i as int) is None,
        decreases ranges@.len() - i,
    {
        let r = &ranges[i];
        let hit = match &hot {
            Some(h) => if h.start != h.end {
                intersects(&r.range, h) || contains_caret(&r.range, caret, src_len)
            } else {
                contains_caret(&r.range, caret, src_len)
            },
            None => contains_caret(&r.range, caret, src_len),
        };
        assert(hit == p(ranges@[i as int]));
        if hit {
            if first.is_none() {
                first = Some(i);
            }
            last = Some(i);
        }
        i += 1;
    }
    proof {
        crate::search::lemma_last_index(ranges@, p, ranges@.len() as int);
        if first is None {
            crate::search::lemma_first_index(ranges@, p, i as int);
            assert(first_index(ranges@, p, i as int) is None);
        }
    }
    match (first, last) {
        (Some(a), Some(b)) => ranges[a].range.start..ranges[b].range.end,
        _ => caret..caret,
    }
}


/* ---------- task lines ---------- */

/// End of the list marker of `b` (a task candidate) and whether its box
/// is checked: `- `, `* `, `+ ` or digits and `. ` / `) `, after an indent,
/// then `[ ]`, `[x]` or `[X]`.
pub open spec fn task_split(b: Seq<u8>) -> Option<(int, bool)> {
    let i = crate::notion::indent_of(b, 0);
    let n = b.len() as int;
    let t = b.subrange(i, n);
    let d = crate::projection::digit_run(t, 0);
    let m = if crate::projection::bullet_open(t) {
        i + 2
    } else {
        i + d + 2
    };
    if i >= n {
        None
    } else if !crate::projection::bullet_open(t) && (d == 0 || !(d + 2 <= t.len() && (t[d] == 46
        || t[d] == 41) && t[d + 1] == 32)) {
        None
    } else if m + 3 > n || b[m] != 91 || b[m + 2] != 93 {
        None
    } else if b[m + 1] == 32 {
        Some((m, false))
    } else if b[m + 1] == 120 || b[m + 1] == 88 {
        Some((m, true))
    } else {
        None
    }
}

fn task_split_exec(b: &[u8]) -> (r: Option<(usize, bool)>)
    ensures
        match r {
            Some((m, c)) => task_split(b@) == Some((m as int, c)),
            None => task_split(b@) is None,
        },
{
    let n: usize = b.len();
    let i = crate::notion::indent_len(b, 0);
    if i >= n {
        return None;
    }
    let ghost t = b@.subrange(i as int, n as int);
    let m: usize = if n - i >= 2 && (b[i] == 45 || b[i] == 42 || b[i] == 43) && b[i + 1] == 32 {
        i + 2
    } else {
        let d = crate::projection::digit_len_pub(b, i);
        proof {
            crate::projection::lemma_digit_shift_pub(b@, i as int, 0);
        }
        if d == 0 || !(n - i >= 2 && d <= n - i - 2 && (b[i + d] == 46 || b[i + d] == 41) && b[i + d
            + 1] == 32) {
            return None;
        }
        i + d + 2
    };
    if n < 3 || m > n - 3 || b[m] != 91 || b[m + 2] != 93 {
        return None;
    }
    if b[m + 1] == 32 {
        Some((m, false))
    } else if b[m + 1] == 120 || b[m + 1] == 88 {
        Some((m, true))
    } else {
        None
    }
}

proof fn lemma_task_split(b: Seq<u8>)
    ensures
        match task_split(b) {
            Some((m, c)) => 2 <= m && m + 3 <= b.len() && b[m - 1] == 32 && b[m] == 91 && b[m + 2]
                == 93,
            None => true,
        },
{
    let i = crate::notion::indent_of(b, 0);
    crate::notion::lemma_indent_of(b, 0);
    let n = b.len() as int;
    if i < n {
        let t = b.subrange(i, n);
        let d = crate::projection::digit_run(t, 0);
        crate::projection::lemma_digit_run(t, 0);
        if crate::projection::bullet_open(t) {
            assert(t[1] == b[i + 1]);
            assert(b[i + 1] == 32);
        } else if d > 0 && d + 2 <= t.len() {
            assert(t[d + 1] == b[i + d + 1]);
        }
    }
}

/// A list marker with its indent: spaces and tabs, then `- `, `* `, `+ `,
/// or digits followed by `. ` or `) `.
pub open spec fn marker_prefix(p: Seq<u8>) -> bool {
    let i = crate::notion::indent_of(p, 0);
    let t = p.subrange(i, p.len() as int);
    &&& forall|k: int| 0 <= k < i ==> #[trigger] p[k] == 32 || p[k] == 9
    &&& {
        ||| (t.len() == 2 && (t[0] == 45 || t[0] == 42 || t[0] == 43) && t[1] == 32)
        ||| (t.len() >= 3 && (forall|k: int| 0 <= k < t.len() - 2 ==> 48 <= #[trigger] t[k] <= 57)
            && (t[t.len() - 2] == 46 || t[t.len() - 2] == 41) && t[t.len() - 1] == 32)
    }
}

/// The box of a task line: `[ ]` unchecked, `[x]` or `[X]` checked.
pub open spec fn task_box(mark: u8, checked: bool) -> bool {
    if checked {
        mark == 120 || mark == 88
    } else {
        mark == 32
    }
}

proof fn lemma_digit_run_digits(b: Seq<u8>, i: int)
    requires
        0 <= i <= b.len(),
    ensures
        forall|k: int| i <= k < i + crate::projection::digit_run(b, i) ==> 48 <= #[trigger] b[k] <= 57,
        i + crate::projection::digit_run(b, i) < b.len() ==> !(48 <= b[i + crate::projection::digit_run(b, i)] <= 57),
    decreases b.len() - i,
{
    if i < b.len() && 48 <= b[i] <= 57 {
        lemma_digit_run_digits(b, i + 1);
    }
}

/// A task line is a list marker, a box and the rest: `line[..m]` is the
/// marker with its indent and `line[m..m + 3]` the box.
pub proof fn lemma_task_line_shape(line: Seq<u8>)
    ensures
        match task_split(line) {
            Some((m, c)) => {
                &&& 0 < m && m + 3 <= line.len()
                &&& marker_prefix(line.subrange(0, m))
                &&& line[m] == 91 && line[m + 2] == 93 && task_box(line[m + 1], c)
            },
            None => true,
        },
{
    lemma_task_split(line);
    match task_split(line) {
        Some((m, c)) => {
            let n = line.len() as int;
            let i = crate::notion::indent_of(line, 0);
            crate::notion::lemma_indent_of(line, 0);
            let p = line.subrange(0, m);
            let tl = line.subrange(i, n);
            let d = crate::projection::digit_run(tl, 0);
            crate::projection::lemma_digit_run(tl, 0);
            lemma_digit_run_digits(tl, 0);
            if crate::projection::bullet_open(tl) {
                assert(m == i + 2);
            } else {
                assert(m == i + d + 2);
            }
            assert(i < m);
            // The indent of the prefix is the indent of the line.
            assert forall|k: int| 0 <= k < m + 1 && k < p.len() implies #[trigger] p[k] == line[k] by {}
            crate::notion::lemma_indent_of(p, 0);
            assert(crate::notion::indent_of(p, 0) == i) by {
                lemma_indent_prefix(line, p, 0, m);
            }
            let t = p.subrange(i, m);
            assert forall|k: int| 0 <= k < t.len() implies #[trigger] t[k] == tl[k] by {}
            if !crate::projection::bullet_open(tl) {
                assert forall|k: int| 0 <= k < t.len() - 2 implies 48 <= #[trigger] t[k] <= 57 by {
                    assert(t[k] == tl[k]);
                }
            }
        },
        None => {},
    }
}

/// The indent of a prefix that reaches past the indent of the text.
proof fn lemma_indent_prefix(x: Seq<u8>, p: Seq<u8>, i: int, m: int)
    requires
        0 <= i,
        i + crate::notion::indent_of(x, i) < m,
        p == x.subrange(0, m),
        m <= x.len(),
    ensures
        crate::notion::indent_of(p, i) == crate::notion::indent_of(x, i),
    decreases x.len() - i,
{
    if 0 <= i < x.len() && (x[i] == 32 || x[i] == 9) {
        crate::notion::lemma_indent_of(x, i + 1);
        assert(p[i] == x[i]);
        lemma_indent_prefix(x, p, i + 1, m);
    } else if i < x.len() {
        assert(i < m);
        assert(p[i] == x[i]);
    }
}

/// `(prefix, checked, rest)` where rest includes the space after `]`.
pub fn split_task_line(line: &str) -> (r: Option<(String, bool, String)>)
    ensures
        match task_split(utf8(line@)) {
            Some((m, c)) => r is Some && ({
                let (p, cc, rest) = r->0;
                &&& utf8(p@) == utf8(line@).subrange(0, m)
                &&& cc == c
                &&& utf8(rest@) == utf8(line@).subrange(m + 3, utf8(line@).len() as int)
                &&& marker_prefix(utf8(p@))
                &&& utf8(line@)[m] == 91 && utf8(line@)[m + 2] == 93
                &&& task_box(utf8(line@)[m + 1], c)
                &&& utf8(line@) == utf8(p@) + seq![91u8, utf8(line@)[m + 1], 93u8] + utf8(rest@)
            }),
            None => r is None,
        },
{
    let b = crate::text::bytes_of(line);
    let n: usize = b.len();
    match task_split_exec(b) {
        None => None,
        Some((m, c)) => {
            proof {
                lemma_task_split(b@);
                lemma_utf8_valid(line@);
                crate::text::lemma_boundary_zero(b@);
                crate::text::lemma_after_ascii(b@, m + 2);
                crate::text::lemma_after_ascii(b@, m - 1);
            }
            let p = crate::text::owned(crate::text::substr(line, 0, m));
            let rest = crate::text::owned(crate::text::substr(line, m + 3, n));
            proof {
                lemma_task_line_shape(b@);
                assert(b@ =~= b@.subrange(0, m as int) + seq![91u8, b@[m + 1], 93u8] + b@.subrange(
                    m + 3,
                    n as int,
                ));
            }
            Some((p, c, rest))
        },
    }
}

/// Some line of `b` from `i` on is a task line.
pub open spec fn task_line_from(b: Seq<u8>, ls: Seq<(int, int)>) -> bool {
    exists|k: int| 0 <= k < ls.len() && #[trigger] task_split(b.subrange(ls[k].0, ls[k].1)) is Some
}

pub fn has_task_line(source: &str) -> (r: bool)
    ensures
        r == task_line_from(utf8(source@), crate::text::lines_from(utf8(source@), 0)),
{
    let b = crate::text::bytes_of(source);
    let n: usize = b.len();
    let ghost ls = crate::text::lines_from(b@, 0);
    let mut i: usize = 0;
    let ghost mut k: int = 0;
    while i < n
        invariant
            i <= n == b@.len(),
            b@ == utf8(source@),
            0 <= k <= ls.len(),
            ls == crate::text::lines_from(b@, 0),
            crate::text::lines_from(b@, i as int) == ls.subrange(k, ls.len() as int),
            forall|t: int| 0 <= t < k ==> #[trigger] task_split(b@.subrange(ls[t].0, ls[t].1)) is None,
        decreases n - i,
    {
        let ce = crate::text::line_content_end_idx(b, i);
        let j = crate::text::line_end_idx(b, i);
        proof {
            lemma_line_end(b@, i as int);
            assert(crate::text::lines_from(b@, i as int) == seq![(i as int, ce as int)]
                + crate::text::lines_from(b@, j + 1));
            assert(ls.subrange(k, ls.len() as int)[0] == (i as int, ce as int));
            assert(k < ls.len());
            assert(ls[k] == (i as int, ce as int));
        }
        let line = crate::text::slice_vec(b, i, ce);
        if task_split_exec(line.as_slice()).is_some() {
            proof {
                assert(task_split(b@.subrange(ls[k].0, ls[k].1)) is Some);
            }
            return true;
        }
        proof {
            let k0 = k;
            k = k + 1;
            let tail = crate::text::lines_from(b@, j + 1);
            assert(ls.subrange(k0, ls.len() as int) =~= seq![(i as int, ce as int)] + tail);
            assert(tail =~= ls.subrange(k0, ls.len() as int).subrange(1, ls.len() - k0));
            assert(ls.subrange(k0, ls.len() as int).subrange(1, ls.len() - k0) =~= ls.subrange(
                k,
                ls.len() as int,
            ));
            assert(line@ == b@.subrange(ls[k0].0, ls[k0].1));
        }
        if j >= n {
            i = n;
        } else {
            i = j + 1;
        }
    }
    proof {
        assert(ls.subrange(k, ls.len() as int).len() == 0);
    }
    false
}


/// Lines `k..` of `b` (spans `ls`) joined by `'\n'`, line `j` replaced by `newl`.
pub open spec fn join_lines_from(b: Seq<u8>, ls: Seq<(int, int)>, k: int, j: int, newl: Seq<u8>) -> Seq<
    u8,
>
    decreases ls.len() - k,
{
    if k < 0 || k >= ls.len() {
        Seq::empty()
    } else {
        let piece = if k == j {
            newl
        } else {
            b.subrange(ls[k].0, ls[k].1)
        };
        if k == ls.len() - 1 {
            piece
        } else {
            piece + seq![10u8] + join_lines_from(b, ls, k + 1, j, newl)
        }
    }
}

/// Task line `line` with its box flipped.
pub open spec fn flipped(line: Seq<u8>, m: int, c: bool) -> Seq<u8> {
    line.subrange(0, m) + seq![91u8, if c { 32u8 } else { 120u8 }, 93u8] + line.subrange(
        m + 3,
        line.len() as int,
    )
}

/// The source with the box of line `j` flipped (lines rejoined by `'\n'`,
/// a final `'\n'` kept); nothing when line `j` is missing or no task.
pub open spec fn toggled(b: Seq<u8>, j: int) -> Option<Seq<u8>> {
    let ls = crate::text::lines_from(b, 0);
    if j < 0 || j >= ls.len() {
        None
    } else {
        let line = b.subrange(ls[j].0, ls[j].1);
        match task_split(line) {
            None => None,
            Some((m, c)) => {
                let out = join_lines_from(b, ls, 0, j, flipped(line, m, c));
                Some(
                    if b.len() > 0 && b[b.len() - 1] == 10 {
                        out.push(10)
                    } else {
                        out
                    },
                )
            },
        }
    }
}

pub proof fn lemma_lines_from_bounds(b: Seq<u8>, i: int)
    requires
        0 <= i,
    ensures
        forall|k: int|
            0 <= k < crate::text::lines_from(b, i).len() ==> i <= (#[trigger] crate::text::lines_from(
                b,
                i,
            )[k]).0 <= crate::text::lines_from(b, i)[k].1 <= b.len(),
    decreases b.len() + 1 - i,
{
    if i < b.len() {
        lemma_line_end(b, i);
        lemma_lines_from_bounds(b, line_end(b, i) + 1);
        let rest = crate::text::lines_from(b, line_end(b, i) + 1);
        assert forall|k: int| 0 <= k < crate::text::lines_from(b, i).len() implies i <= (
        #[trigger] crate::text::lines_from(b, i)[k]).0 <= crate::text::lines_from(b, i)[k].1
            <= b.len() by {
            if k > 0 {
                assert(crate::text::lines_from(b, i)[k] == rest[k - 1]);
            }
        }
    }
}

/// Task line `line` with its box flipped, as bytes.
fn flip_box(line: &[u8], m: usize, c: bool) -> (r: Vec<u8>)
    requires
        m + 3 <= line@.len(),
    ensures
        r@ == flipped(line@, m as int, c),
{
    let n: usize = line.len();
    let mut out = crate::text::slice_vec(line, 0, m);
    out.push(91);
    out.push(
        if c {
            32
        } else {
            120
        },
    );
    out.push(93);
    crate::text::extend_from(&mut out, line, m + 3, n);
    assert(out@ =~= flipped(line@, m as int, c));
    out
}

proof fn lemma_flipped_valid(line: Seq<u8>, m: int, c: bool)
    requires
        valid_utf8(line),
        task_split(line) == Some((m, c)),
    ensures
        valid_utf8(flipped(line, m, c)),
{
    lemma_task_split(line);
    let mark = seq![91u8, if c { 32u8 } else { 120u8 }, 93u8];
    crate::text::lemma_boundary_zero(line);
    crate::text::lemma_after_ascii(line, m - 1);
    crate::text::lemma_after_ascii(line, m + 2);
    lemma_sub_valid(line, 0, m);
    lemma_sub_valid(line, m + 3, line.len() as int);
    crate::text::lemma_ascii_valid(mark);
    crate::text::lemma_valid_concat(line.subrange(0, m), mark);
    crate::text::lemma_valid_concat(line.subrange(0, m) + mark, line.subrange(m + 3, line.len() as int));
}

/// Joined lines from `k` on, in the shape the loop of `toggle_task_line` builds them.
proof fn lemma_join_step(b: Seq<u8>, ls: Seq<(int, int)>, k: int, j: int, newl: Seq<u8>)
    requires
        0 <= k < ls.len(),
    ensures
        join_lines_from(b, ls, k, j, newl) == (if k == j {
            newl
        } else {
            b.subrange(ls[k].0, ls[k].1)
        }) + (if k + 1 >= ls.len() {
            Seq::<u8>::empty()
        } else {
            seq![10u8] + join_lines_from(b, ls, k + 1, j, newl)
        }),
{
    let piece = if k == j {
        newl
    } else {
        b.subrange(ls[k].0, ls[k].1)
    };
    if k + 1 >= ls.len() {
        assert(piece + Seq::<u8>::empty() =~= piece);
    } else {
        assert(piece + seq![10u8] + join_lines_from(b, ls, k + 1, j, newl) =~= piece + (seq![10u8]
            + join_lines_from(b, ls, k + 1, j, newl)));
    }
}

/// Toggle `- [ ]` / `- [x]` on `line_index`. None if that line is not a task.
///
/// Preserves a trailing newline on `source` so splicing a list block back into
/// the document does not eat the blank-line separator before the next block
/// (`item 2\n\n## Quote` must not become `item 2\n## Quote`).
#[verifier::rlimit(60)]
pub fn toggle_task_line(source: &str, line_index: usize) -> (r: Option<String>)
    ensures
        match toggled(utf8(source@), line_index as int) {
            Some(v) => r is Some && utf8(r->0@) == v,
            None => r is None,
        },
{
    let b = crate::text::bytes_of(source);
    let n: usize = b.len();
    let ghost bb = b@;
    let ghost ls = crate::text::lines_from(bb, 0);
    let ghost j = line_index as int;
    let ghost newl: Seq<u8> = if j < ls.len() {
        let line = bb.subrange(ls[j].0, ls[j].1);
        match task_split(line) {
            Some((m, c)) => flipped(line, m, c),
            None => Seq::empty(),
        }
    } else {
        Seq::empty()
    };
    proof {
        lemma_utf8_valid(source@);
        crate::text::lemma_boundary_zero(bb);
        crate::text::lemma_ascii_valid(Seq::<u8>::empty());
        assert(Seq::<u8>::empty() + join_lines_from(bb, ls, 0, j, newl) =~= join_lines_from(
            bb,
            ls,
            0,
            j,
            newl,
        ));
    }
    let mut out: Vec<u8> = Vec::new();
    let mut i: usize = 0;
    let mut k: usize = 0;
    while i < n
        invariant
            i <= n == bb.len(),
            bb == b@,
            bb == utf8(source@),
            valid_utf8(bb),
            ls == crate::text::lines_from(bb, 0),
            0 <= k <= i,
            k <= ls.len(),
            crate::text::lines_from(bb, i as int) == ls.subrange(k as int, ls.len() as int),
            i < n ==> (i == 0 || bb[i - 1] == 10),
            j == line_index as int,
            k > line_index ==> j < ls.len() && task_split(bb.subrange(ls[j].0, ls[j].1)) is Some,
            newl == (if j < ls.len() {
                let line = bb.subrange(ls[j].0, ls[j].1);
                match task_split(line) {
                    Some((m, c)) => flipped(line, m, c),
                    None => Seq::<u8>::empty(),
                }
            } else {
                Seq::<u8>::empty()
            }),
            join_lines_from(bb, ls, 0, j, newl) == out@ + (if k == 0 || k >= ls.len() {
                join_lines_from(bb, ls, k as int, j, newl)
            } else {
                seq![10u8] + join_lines_from(bb, ls, k as int, j, newl)
            }),
            valid_utf8(out@),
        decreases n - i,
    {
        let ce = crate::text::line_content_end_idx(b, i);
        let le = crate::text::line_end_idx(b, i);
        proof {
            crate::text::lemma_lines_step(bb, ls, i as int, k as int);
            lemma_line_end(bb, i as int);
            if i > 0 {
                crate::text::lemma_after_ascii(bb, i - 1);
            }
            if ce < n {
                assert(bb[ce as int] == 10 || bb[ce as int] == 13);
            }
            lemma_sub_valid(bb, i as int, ce as int);
            lemma_join_step(bb, ls, k as int, j, newl);
        }
        if k > 0 {
            proof {
                crate::text::lemma_ascii_valid(seq![10u8]);
                crate::text::lemma_valid_concat(out@, seq![10u8]);
                assert(out@ + seq![10u8] =~= out@.push(10));
            }
            out.push(10);
        }
        let ghost mid = out@;
        let line = crate::text::slice_vec(b, i, ce);
        let piece = if k == line_index {
            match task_split_exec(line.as_slice()) {
                Some((m, c)) => {
                    proof {
                        lemma_task_split(line@);
                        lemma_flipped_valid(line@, m as int, c);
                    }
                    flip_box(line.as_slice(), m, c)
                },
                None => {
                    proof {
                        assert(line@ == bb.subrange(ls[j].0, ls[j].1));
                        assert(toggled(bb, j) is None);
                    }
                    return None;
                },
            }
        } else {
            line
        };
        proof {
            crate::text::lemma_valid_concat(mid, piece@);
        }
        crate::text::extend_from(&mut out, piece.as_slice(), 0, piece.len());
        proof {
            assert(piece@.subrange(0, piece@.len() as int) =~= piece@);
            assert(out@ == mid + piece@);
        }
        k = k + 1;
        if le >= n {
            i = n;
        } else {
            i = le + 1;
        }
    }
    if k <= line_index {
        return None;
    }
    assert(join_lines_from(bb, ls, 0, j, newl) == out@) by {
        assert(out@ + join_lines_from(bb, ls, k as int, j, newl) =~= out@);
    }
    if n > 0 && b[n - 1] == 10 {
        proof {
            crate::text::lemma_ascii_valid(seq![10u8]);
            crate::text::lemma_valid_concat(out@, seq![10u8]);
            assert(out@ + seq![10u8] =~= out@.push(10));
        }
        out.push(10);
    }
    Some(crate::text::string_of_bytes(out))
}

/* ---------- blocks of a file ---------- */

/// `s` without white space at either end.
pub open spec fn trim_bytes(s: Seq<u8>) -> Seq<u8> {
    let a = trim_start_at(s, 0, s.len() as int);
    s.subrange(a, trim_end_at(s, a, s.len() as int))
}

/// Kind and source of a parsed block, before it gets an id.
pub type Piece = (BlockKind, Seq<u8>);

/// A gap between parsed blocks: a `Raw` block of its trimmed text, unless blank.
pub open spec fn gap_blocks(g: Seq<u8>) -> Seq<Piece> {
    if blank_text(g) {
        Seq::empty()
    } else {
        seq![(BlockKind::Raw, trim_bytes(g))]
    }
}

/// One top-level block laid after the cursor: the gap before it, then the
/// block's source without trailing line breaks, unless blank.
pub open spec fn block_step(b: Seq<u8>, st: (int, Seq<Piece>), c: Covered) -> (int, Seq<Piece>) {
    let (cursor, ps) = st;
    let start = floor_boundary(b, c.0 as int);
    let e0 = floor_boundary(b, c.1 as int);
    let end = if e0 < start {
        start
    } else {
        e0
    };
    let gap = if start > cursor {
        gap_blocks(b.subrange(cursor, start))
    } else {
        Seq::empty()
    };
    let src = b.subrange(start, crate::text::trim_nl_end(b, start, end));
    let piece = if blank_text(src) {
        Seq::empty()
    } else {
        seq![(c.2, src)]
    };
    (end, ps + gap + piece)
}

pub open spec fn block_walk(b: Seq<u8>, cs: Seq<Covered>) -> (int, Seq<Piece>)
    decreases cs.len(),
{
    if cs.len() == 0 {
        (0, Seq::empty())
    } else {
        block_step(b, block_walk(b, cs.drop_last()), cs.last())
    }
}

/// The blocks of a file with bytes `b`, from the events of its parse:
/// top-level blocks in source order with the non-blank gaps between them.
pub open spec fn block_pieces(b: Seq<u8>, ev: Seq<MdSpan>) -> Seq<Piece> {
    if blank_text(b) {
        Seq::empty()
    } else {
        let (cursor, ps) = block_walk(b, sort_by_start(cover_walk(ev).3));
        if cursor < b.len() {
            ps + gap_blocks(b.subrange(cursor, b.len() as int))
        } else {
            ps
        }
    }
}

/// The id handed out `k` ids after `first` (ids saturate at the top of `u64`).
pub open spec fn id_at(first: u64, k: int) -> u64 {
    if first + k < u64::MAX {
        (first + k) as u64
    } else {
        u64::MAX
    }
}

/// `blocks` are the pieces `ps` with ids handed out in order from `first`.
pub open spec fn blocks_of(blocks: Seq<Block>, ps: Seq<Piece>, first: u64) -> bool {
    &&& blocks.len() == ps.len()
    &&& forall|k: int|
        0 <= k < ps.len() ==> {
            &&& (#[trigger] blocks[k]).kind == ps[k].0
            &&& utf8(blocks[k].source@) == ps[k].1
            &&& blocks[k].id == id_at(first, k)
        }
}

proof fn lemma_block_walk(b: Seq<u8>, cs: Seq<Covered>)
    requires
        valid_utf8(b),
    ensures
        0 <= block_walk(b, cs).0 <= b.len(),
        at_boundary(b, block_walk(b, cs).0),
    decreases cs.len(),
{
    crate::text::lemma_boundary_zero(b);
    if cs.len() > 0 {
        lemma_block_walk(b, cs.drop_last());
        let c = cs.last();
        lemma_floor_boundary(b, c.0 as int);
        lemma_floor_boundary(b, c.1 as int);
    }
}

/// `s` trimmed, as bytes; valid when `s` is.
fn trim_vec(s: &[u8]) -> (r: Vec<u8>)
    requires
        valid_utf8(s@),
    ensures
        r@ == trim_bytes(s@),
        valid_utf8(r@),
{
    let n: usize = s.len();
    let a = crate::text::trim_start_idx(s, 0, n);
    let e = crate::text::trim_end_idx(s, a, n);
    proof {
        crate::text::lemma_boundary_zero(s@);
        crate::html::lemma_trim_boundaries(s@, 0, n as int);
        lemma_sub_valid(s@, a as int, e as int);
    }
    crate::text::slice_vec(s, a, e)
}

/// Appends a block of `kind` with source `bytes` and the next id.
fn push_block(blocks: &mut Vec<Block>, ids: &mut BlockIds, kind: BlockKind, bytes: Vec<u8>)
    requires
        valid_utf8(bytes@),
    ensures
        final(blocks)@.len() == old(blocks)@.len() + 1,
        forall|k: int| 0 <= k < old(blocks)@.len() ==> #[trigger] final(blocks)@[k] == old(blocks)@[k],
        final(blocks)@.last().kind == kind,
        utf8(final(blocks)@.last().source@) == bytes@,
        final(blocks)@.last().id == old(ids).next,
        final(ids).next == if old(ids).next < u64::MAX {
            old(ids).next + 1
        } else {
            u64::MAX as int
        },
{
    let source = crate::text::string_of_bytes(bytes);
    let block = Block::with_kind(ids, kind, source);
    blocks.push(block);
}

/// Pushes the `Raw` block of a non-blank gap `b[a..e]`.
fn push_gap(blocks: &mut Vec<Block>, ids: &mut BlockIds, b: &[u8], a: usize, e: usize)
    requires
        valid_utf8(b@),
        a <= e <= b@.len(),
        at_boundary(b@, a as int),
        at_boundary(b@, e as int),
    ensures
        final(blocks)@.len() == old(blocks)@.len() + gap_blocks(b@.subrange(a as int, e as int)).len(),
        forall|k: int| 0 <= k < old(blocks)@.len() ==> #[trigger] final(blocks)@[k] == old(blocks)@[k],
        gap_blocks(b@.subrange(a as int, e as int)).len() == 1 ==> {
            &&& final(blocks)@.last().kind == gap_blocks(b@.subrange(a as int, e as int))[0].0
            &&& utf8(final(blocks)@.last().source@) == gap_blocks(b@.subrange(a as int, e as int))[0].1
            &&& final(blocks)@.last().id == old(ids).next
        },
        gap_blocks(b@.subrange(a as int, e as int)).len() == 1 ==> final(ids).next == if old(
            ids,
        ).next < u64::MAX {
            old(ids).next + 1
        } else {
            u64::MAX as int
        },
        gap_blocks(b@.subrange(a as int, e as int)).len() == 0 ==> final(ids).next == old(ids).next,
{
    let g = crate::text::slice_vec(b, a, e);
    proof {
        lemma_sub_valid(b@, a as int, e as int);
    }
    let m: usize = g.len();
    if crate::text::trim_start_idx(g.as_slice(), 0, m) >= m {
        return;
    }
    let t = trim_vec(g.as_slice());
    push_block(blocks, ids, BlockKind::Raw, t);
}

/// Blocks of `src` from the events of its GFM parse; ids come from `ids`.
pub fn blocks_from_events(src: &str, events: &[MdSpan], ids: &mut BlockIds) -> (r: Vec<Block>)
    ensures
        blocks_of(r@, block_pieces(utf8(src@), events@), old(ids).next),
        final(ids).next == id_at(old(ids).next, r@.len() as int),
{
    let b = crate::text::bytes_of(src);
    let n: usize = b.len();
    let ghost bb = b@;
    let ghost first = ids.next;
    proof {
        lemma_utf8_valid(src@);
        crate::text::lemma_boundary_zero(bb);
    }
    let mut blocks: Vec<Block> = Vec::new();
    if crate::text::trim_start_idx(b, 0, n) >= n {
        assert(blocks_of(blocks@, block_pieces(bb, events@), first));
        return blocks;
    }
    let cov = covered_blocks(events);
    let sorted = sort_covered(&cov);
    let ghost cs = sorted@;
    let ghost mut ps: Seq<Piece> = Seq::empty();
    let mut cursor: usize = 0;
    let mut i: usize = 0;
    while i < sorted.len()
        invariant
            i <= cs.len(),
            cs == sorted@,
            bb == b@,
            bb == utf8(src@),
            valid_utf8(bb),
            n == bb.len(),
            block_walk(bb, cs.take(i as int)) == (cursor as int, ps),
            cursor <= n,
            at_boundary(bb, cursor as int),
            blocks_of(blocks@, ps, first),
            ids.next == id_at(first, ps.len() as int),
        decreases cs.len() - i,
    {
        proof {
            assert(cs.take(i as int + 1).drop_last() =~= cs.take(i as int));
        }
        let c = sorted[i];
        let start = floor_char_boundary(src, c.0);
        let e0 = floor_char_boundary(src, c.1);
        let end = if e0 < start {
            start
        } else {
            e0
        };
        let ghost gap = if start > cursor {
            gap_blocks(bb.subrange(cursor as int, start as int))
        } else {
            Seq::<Piece>::empty()
        };
        if start > cursor {
            push_gap(&mut blocks, ids, b, cursor, start);
        }
        proof {
            let ps1 = ps + gap;
            assert(blocks_of(blocks@, ps1, first)) by {
                assert forall|k: int| 0 <= k < ps1.len() implies {
                    &&& (#[trigger] blocks@[k]).kind == ps1[k].0
                    &&& utf8(blocks@[k].source@) == ps1[k].1
                    &&& blocks@[k].id == id_at(first, k)
                } by {
                    if k < ps.len() {
                    } else {
                        assert(blocks@[k] == blocks@.last());
                    }
                }
            }
            ps = ps1;
        }
        let te = crate::text::trim_nl_end_idx(b, start, end);
        proof {
            crate::notion::lemma_trim_nl_end(bb, start as int, end as int);
            if te < end {
                assert(bb[te as int] == 10 || bb[te as int] == 13);
            }
            lemma_sub_valid(bb, start as int, te as int);
        }
        let sv = crate::text::slice_vec(b, start, te);
        let m: usize = sv.len();
        let ghost piece = if blank_text(sv@) {
            Seq::<Piece>::empty()
        } else {
            seq![(c.2, sv@)]
        };
        if crate::text::trim_start_idx(sv.as_slice(), 0, m) < m {
            push_block(&mut blocks, ids, c.2, sv);
        }
        proof {
            let ps1 = ps + piece;
            assert(blocks_of(blocks@, ps1, first)) by {
                assert forall|k: int| 0 <= k < ps1.len() implies {
                    &&& (#[trigger] blocks@[k]).kind == ps1[k].0
                    &&& utf8(blocks@[k].source@) == ps1[k].1
                    &&& blocks@[k].id == id_at(first, k)
                } by {
                    if k < ps.len() {
                    } else {
                        assert(blocks@[k] == blocks@.last());
                    }
                }
            }
            ps = ps1;
            assert(cs.take(i as int + 1).last() == c);
        }
        cursor = end;
        i += 1;
    }
    proof {
        assert(cs.take(i as int) =~= cs);
    }
    if cursor < n {
        let ghost gap = gap_blocks(bb.subrange(cursor as int, n as int));
        push_gap(&mut blocks, ids, b, cursor, n);
        proof {
            let ps1 = ps + gap;
            assert(blocks_of(blocks@, ps1, first)) by {
                assert forall|k: int| 0 <= k < ps1.len() implies {
                    &&& (#[trigger] blocks@[k]).kind == ps1[k].0
                    &&& utf8(blocks@[k].source@) == ps1[k].1
                    &&& blocks@[k].id == id_at(first, k)
                } by {
                    if k < ps.len() {
                    } else {
                        assert(blocks@[k] == blocks@.last());
                    }
                }
            }
            ps = ps1;
        }
    }
    assert(ps == block_pieces(bb, events@));
    blocks
}

/// Parse GFM into top-level blocks, keeping each block's source slice and
/// the non-blank text between blocks as `Raw` blocks. Ids come from `ids`.
pub fn parse_blocks(src: &str, ids: &mut BlockIds) -> (r: Vec<Block>)
    ensures
        blocks_of(r@, block_pieces(utf8(src@), md_spans(src@, GFM_FLAGS)), old(ids).next),
        final(ids).next == id_at(old(ids).next, r@.len() as int),
{
    let events = md_parse(src);
    blocks_from_events(src, events.as_slice(), ids)
}

/// `s` without trailing white space.
pub open spec fn trim_end_bytes(s: Seq<u8>) -> Seq<u8> {
    s.subrange(0, trim_end_at(s, 0, s.len() as int))
}

/// The non-empty trimmed sources of `bs[0..k]`, joined by a blank line.
pub open spec fn join_parts(bs: Seq<Block>, k: int) -> Seq<u8>
    decreases k,
{
    if k <= 0 {
        Seq::empty()
    } else {
        let acc = join_parts(bs, k - 1);
        let p = trim_end_bytes(utf8(bs[k - 1].source@));
        if p.len() == 0 {
            acc
        } else if acc.len() == 0 {
            p
        } else {
            acc + seq![10u8, 10u8] + p
        }
    }
}

/// The file text of `bs`: sources joined by blank lines, ending in one
/// line break; empty when every source is blank.
pub open spec fn serialized(bs: Seq<Block>) -> Seq<u8> {
    let j = join_parts(bs, bs.len() as int);
    if j.len() == 0 || j.last() == 10 {
        j
    } else {
        j.push(10)
    }
}

/// Join blocks into a GFM file. Empty trailing paragraphs are omitted.
pub fn serialize(blocks: &[Block]) -> (r: String)
    ensures
        utf8(r@) == serialized(blocks@),
{
    let mut out: Vec<u8> = Vec::new();
    let mut k: usize = 0;
    proof {
        crate::text::lemma_ascii_valid(Seq::<u8>::empty());
    }
    while k < blocks.len()
        invariant
            k <= blocks@.len(),
            out@ == join_parts(blocks@, k as int),
            valid_utf8(out@),
        decreases blocks@.len() - k,
    {
        let sb = crate::text::bytes_of(blocks[k].source.as_str());
        let m: usize = sb.len();
        let te = crate::text::trim_end_idx(sb, 0, m);
        proof {
            lemma_utf8_valid(blocks@[k as int].source@);
            crate::text::lemma_boundary_zero(sb@);
            crate::html::lemma_trim_end_boundary(sb@, 0, m as int);
            lemma_sub_valid(sb@, 0, te as int);
        }
        if te > 0 {
            if out.len() > 0 {
                let ghost before = out@;
                proof {
                    crate::text::lemma_ascii_valid(seq![10u8, 10u8]);
                    crate::text::lemma_valid_concat(out@, seq![10u8, 10u8]);
                }
                out.push(10);
                out.push(10);
                assert(out@ =~= before + seq![10u8, 10u8]);
            }
            let ghost mid = out@;
            proof {
                crate::text::lemma_valid_concat(mid, sb@.subrange(0, te as int));
            }
            crate::text::extend_from(&mut out, sb, 0, te);
            proof {
                assert(out@ =~= join_parts(blocks@, k + 1));
            }
        }
        k += 1;
    }
    if out.len() > 0 && out[out.len() - 1] != 10 {
        proof {
            crate::text::lemma_ascii_valid(seq![10u8]);
            crate::text::lemma_valid_concat(out@, seq![10u8]);
            assert(out@ + seq![10u8] =~= out@.push(10));
        }
        out.push(10);
    }
    crate::text::string_of_bytes(out)
}

/// The last block is a paragraph with a blank source.
pub open spec fn ends_in_blank_paragraph(bs: Seq<Block>) -> bool {
    bs.len() > 0 && bs.last().kind == BlockKind::Paragraph && blank_text(utf8(bs.last().source@))
}

/// Ensure there is a trailing empty paragraph so the user always has a place
/// to type. Not written to disk.
pub fn ensure_trailing_paragraph(blocks: &mut Vec<Block>, ids: &mut BlockIds)
    ensures
        ends_in_blank_paragraph(final(blocks)@),
        ends_in_blank_paragraph(old(blocks)@) ==> final(blocks)@ == old(blocks)@ && final(ids).next
            == old(ids).next,
        !ends_in_blank_paragraph(old(blocks)@) ==> {
            &&& final(blocks)@.len() == old(blocks)@.len() + 1
            &&& final(blocks)@.subrange(0, old(blocks)@.len() as int) == old(blocks)@
            &&& final(blocks)@.last().source@ == Seq::<char>::empty()
            &&& final(blocks)@.last().id == old(ids).next
            &&& final(ids).next == id_at(old(ids).next, 1)
        },
{
    let n = blocks.len();
    if n > 0 && blocks[n - 1].kind == BlockKind::Paragraph && blocks[n - 1].is_empty() {
        return;
    }
    let b = Block::paragraph(ids, String::new());
    proof {
        assert(utf8(b.source@) =~= Seq::<u8>::empty()) by {
            lemma_utf8_valid(b.source@);
        }
        assert(blank_text(utf8(b.source@)));
    }
    blocks.push(b);
    proof {
        assert(blocks@.subrange(0, n as int) =~= old(blocks)@);
    }
}

/// Replace `index` with the blocks parsed from `source`.
/// Returns the index of the last inserted block.
pub fn replace_block(blocks: &mut Vec<Block>, index: usize, source: String, ids: &mut BlockIds) -> (r:
    usize)
    ensures
        index >= old(blocks)@.len() ==> {
            &&& final(blocks)@.len() == old(blocks)@.len() + 1
            &&& final(blocks)@.subrange(0, old(blocks)@.len() as int) == old(blocks)@
            &&& final(blocks)@.last().kind == BlockKind::Paragraph
            &&& final(blocks)@.last().source == source
            &&& final(blocks)@.last().id == old(ids).next
            &&& final(ids).next == id_at(old(ids).next, 1)
            &&& r == old(blocks)@.len()
        },
        index < old(blocks)@.len() ==> ({
            let ps = block_pieces(utf8(source@), md_spans(source@, GFM_FLAGS));
            let n = old(blocks)@.len() as int;
            &&& final(blocks)@.subrange(0, index as int) == old(blocks)@.subrange(0, index as int)
            &&& ps.len() == 0 ==> {
                &&& final(blocks)@.len() == n
                &&& final(blocks)@.subrange(index + 1, n) == old(blocks)@.subrange(index + 1, n)
                &&& final(blocks)@[index as int].kind == BlockKind::Paragraph
                &&& final(blocks)@[index as int].source@ == Seq::<char>::empty()
                &&& final(blocks)@[index as int].id == id_at(old(ids).next, 0)
                &&& final(ids).next == id_at(old(ids).next, 1)
                &&& r == index
            }
            &&& ps.len() > 0 ==> {
                &&& final(blocks)@.len() == n - 1 + ps.len()
                &&& blocks_of(
                    final(blocks)@.subrange(index as int, index + ps.len()),
                    ps,
                    old(ids).next,
                )
                &&& final(blocks)@.subrange(index + ps.len(), final(blocks)@.len() as int)
                    == old(blocks)@.subrange(index + 1, n)
                &&& final(ids).next == id_at(old(ids).next, ps.len() as int)
                &&& r == index + ps.len() - 1
            }
        }),
{
    let n = blocks.len();
    if index >= n {
        let b = Block::paragraph(ids, source);
        blocks.push(b);
        proof {
            assert(blocks@.subrange(0, n as int) =~= old(blocks)@);
        }
        return n;
    }
    let mut parsed = parse_blocks(source.as_str(), ids);
    let ghost ps = block_pieces(utf8(source@), md_spans(source@, GFM_FLAGS));
    if parsed.len() == 0 {
        let b = Block::paragraph(ids, String::new());
        blocks.set(index, b);
        proof {
            assert(blocks@.subrange(0, index as int) =~= old(blocks)@.subrange(0, index as int));
            assert(blocks@.subrange(index + 1, n as int) =~= old(blocks)@.subrange(index + 1, n as int));
        }
        return index;
    }
    let pn = parsed.len();
    let mut tail = blocks.split_off(index + 1);
    let _ = blocks.pop();
    let ghost head = blocks@;
    let ghost mid = parsed@;
    blocks.append(&mut parsed);
    blocks.append(&mut tail);
    proof {
        assert(head =~= old(blocks)@.subrange(0, index as int));
        assert(blocks@.subrange(0, index as int) =~= old(blocks)@.subrange(0, index as int));
        assert(blocks@.subrange(index as int, index + pn) =~= mid);
        assert(blocks@.subrange(index + pn, blocks@.len() as int) =~= old(blocks)@.subrange(
            index + 1,
            n as int,
        ));
    }
    let total = blocks.len();
    assert(index + pn <= total);
    index + pn - 1
}

/* ---------- links ---------- */

/// A markdown link or autolink found in block source.
#[derive(Debug)]
pub struct FoundLink {
    pub text: String,
    pub url: String,
}

/// `[text](url ...)` starting at `i`: end of the text, the first word of the
/// trimmed destination, and the end of the link.
pub open spec fn md_link_at(b: Seq<u8>, i: int) -> Option<(int, int, int, int)> {
    let n = b.len() as int;
    if !(0 <= i < n) || b[i] != 91 {
        None
    } else {
        match first_of(b, 93, i, n) {
            None => None,
            Some(c1) => if c1 + 1 >= n || b[c1 + 1] != 40 {
                None
            } else {
                match first_of(b, 41, c1 + 1, n) {
                    None => None,
                    Some(c2) => {
                        let ia = trim_start_at(b, c1 + 2, c2);
                        let ie = trim_end_at(b, ia, c2);
                        let we = if ia < ie {
                            word_end(b, ia, ie)
                        } else {
                            ia
                        };
                        Some((c1, ia, we, c2 + 1))
                    },
                }
            },
        }
    }
}

pub open spec fn http_prefix(b: Seq<u8>, i: int) -> bool {
    has_prefix(b.subrange(i, b.len() as int), seq![104u8, 116, 116, 112, 58, 47, 47]) || has_prefix(
        b.subrange(i, b.len() as int),
        seq![104u8, 116, 116, 112, 115, 58, 47, 47],
    )
}

/// `<http...>` starting at `i`: the position of the closing `>`.
pub open spec fn autolink_at(b: Seq<u8>, i: int) -> Option<int> {
    let n = b.len() as int;
    if !(0 <= i < n) || b[i] != 60 {
        None
    } else {
        match first_of(b, 62, i + 1, n) {
            None => None,
            Some(c) => if http_prefix(b.subrange(0, c), i + 1) {
                Some(c)
            } else {
                None
            },
        }
    }
}

/// End of a bare URL starting at `k`: the first white space character or
/// one of `)`, `]`, `>`.
pub open spec fn url_end(b: Seq<u8>, k: int) -> int
    decreases b.len() - k,
{
    if k < 0 || k >= b.len() {
        b.len() as int
    } else if crate::text::ws_at(b, k) > 0 || b[k] == 41 || b[k] == 93 || b[k] == 62 {
        k
    } else if k + crate::text::lead_width(b[k]) > b.len() {
        b.len() as int
    } else {
        url_end(b, k + crate::text::lead_width(b[k]))
    }
}

pub open spec fn url_punct(x: u8) -> bool {
    x == 46 || x == 44 || x == 59 || x == 58 || x == 33 || x == 63 || x == 34 || x == 39
}

/// `e` moved back over trailing sentence punctuation, not below `a`.
pub open spec fn punct_end(b: Seq<u8>, a: int, e: int) -> int
    decreases e - a,
{
    if e > a && url_punct(b[e - 1]) {
        punct_end(b, a, e - 1)
    } else {
        e
    }
}

/// End of the bare URL at `i`, without trailing punctuation.
pub open spec fn bare_url_end(b: Seq<u8>, i: int) -> int {
    punct_end(b, i, url_end(b, i))
}

proof fn lemma_url_end(b: Seq<u8>, k: int)
    requires
        valid_utf8(b),
        at_boundary(b, k),
    ensures
        k <= url_end(b, k) <= b.len(),
        at_boundary(b, url_end(b, k)),
    decreases b.len() - k,
{
    if k < b.len() && !(crate::text::ws_at(b, k) > 0 || b[k] == 41 || b[k] == 93 || b[k] == 62) {
        crate::text::lemma_scalar_end(b, k);
        lemma_url_end(b, k + crate::text::lead_width(b[k]));
    }
}

/// A run of plain ASCII bytes from `k` to `m` lies inside the URL.
proof fn lemma_url_end_past(b: Seq<u8>, k: int, m: int)
    requires
        0 <= k <= m <= b.len(),
        forall|j: int|
            k <= j < m ==> #[trigger] b[j] < 0x80 && !crate::text::is_ascii_ws(b[j]) && b[j] != 41
                && b[j] != 93 && b[j] != 62,
    ensures
        url_end(b, k) >= m,
    decreases m - k,
{
    if k < m {
        assert(b[k] < 0x80);
        assert(crate::text::ws_at(b, k) == 0);
        assert(crate::text::lead_width(b[k]) == 1);
        lemma_url_end_past(b, k + 1, m);
    } else {
        lemma_url_end_bounds(b, k);
    }
}

/// Stripping punctuation stops at a byte that is not punctuation.
proof fn lemma_punct_end_stop(b: Seq<u8>, a: int, m: int, e: int)
    requires
        0 <= a < m <= e <= b.len(),
        !url_punct(b[m - 1]),
    ensures
        punct_end(b, a, e) >= m,
    decreases e - a,
{
    if e > m && url_punct(b[e - 1]) {
        lemma_punct_end_stop(b, a, m, e - 1);
    }
}

/// A bare URL is never empty: it keeps at least its scheme.
pub proof fn lemma_bare_url(b: Seq<u8>, i: int)
    requires
        0 <= i < b.len(),
        http_prefix(b, i),
    ensures
        i + 7 <= bare_url_end(b, i) <= b.len(),
{
    let t = b.subrange(i, b.len() as int);
    let m = if has_prefix(t, seq![104u8, 116, 116, 112, 58, 47, 47]) {
        i + 7
    } else {
        i + 8
    };
    assert forall|j: int| i <= j < m implies #[trigger] b[j] < 0x80 && !crate::text::is_ascii_ws(b[j])
        && b[j] != 41 && b[j] != 93 && b[j] != 62 by {
        assert(b[j] == t[j - i]);
        if has_prefix(t, seq![104u8, 116, 116, 112, 58, 47, 47]) {
            assert(t[j - i] == seq![104u8, 116, 116, 112, 58, 47, 47][j - i]);
        } else {
            assert(t[j - i] == seq![104u8, 116, 116, 112, 115, 58, 47, 47][j - i]);
        }
    }
    lemma_url_end_past(b, i, m);
    lemma_url_end_bounds(b, i);
    assert(b[m - 1] == t[m - 1 - i]);
    lemma_punct_end_stop(b, i, m, url_end(b, i));
    lemma_punct_end(b, i, url_end(b, i));
}

proof fn lemma_url_end_bounds(b: Seq<u8>, k: int)
    requires
        0 <= k <= b.len(),
    ensures
        k <= url_end(b, k) <= b.len(),
    decreases b.len() - k,
{
    if k < b.len() && !(crate::text::ws_at(b, k) > 0 || b[k] == 41 || b[k] == 93 || b[k] == 62) {
        let w = crate::text::lead_width(b[k]);
        if k + w <= b.len() {
            lemma_url_end_bounds(b, k + w);
        }
    }
}

proof fn lemma_punct_end(b: Seq<u8>, a: int, e: int)
    requires
        0 <= a <= e <= b.len(),
    ensures
        a <= punct_end(b, a, e) <= e,
        forall|j: int| punct_end(b, a, e) <= j < e ==> url_punct(#[trigger] b[j]),
    decreases e - a,
{
    if e > a && url_punct(b[e - 1]) {
        lemma_punct_end(b, a, e - 1);
    }
}

pub proof fn lemma_md_link_at(b: Seq<u8>, i: int)
    requires
        md_link_at(b, i) is Some,
    ensures
        ({
            let (c1, ua, ue, end) = md_link_at(b, i)->0;
            &&& 0 <= i < c1 && c1 + 2 <= ua <= ue && ue < end <= b.len()
            &&& b[c1] == 93 && b[c1 + 1] == 40 && b[end - 1] == 41
            &&& valid_utf8(b) ==> at_boundary(b, i + 1) && at_boundary(b, c1) && at_boundary(b, ua)
                && at_boundary(b, ue)
        }),
{
    let n = b.len() as int;
    lemma_first_of_props(b, 93, i, n);
    let c1 = first_of(b, 93, i, n)->0;
    lemma_first_of_props(b, 41, c1 + 1, n);
    let c2 = first_of(b, 41, c1 + 1, n)->0;
    crate::projection::lemma_trim_start(b, c1 + 2, c2);
    crate::html::lemma_trim_end_at(b, trim_start_at(b, c1 + 2, c2), c2);
    let ia = trim_start_at(b, c1 + 2, c2);
    let ie = trim_end_at(b, ia, c2);
    if ia < ie {
        crate::projection::lemma_word_end(b, ia, ie);
    }
    if valid_utf8(b) {
        crate::text::lemma_after_ascii(b, i);
        crate::text::lemma_after_ascii(b, c1 + 1);
        lemma_ascii_boundary(b, c1);
        lemma_ascii_boundary(b, c2);
        crate::html::lemma_trim_boundaries(b, c1 + 2, c2);
        if ia < ie {
            let we = word_end(b, ia, ie);
            if we < ie {
                assert(crate::text::ws_at(b, we) > 0);
            }
        }
    }
}

/// The links of `b` from `i` on, as (text, url): markdown links (not
/// images) with a destination that is not a fragment, `<http..>` autolinks,
/// and bare `http://` / `https://` URLs without trailing punctuation.
pub open spec fn links_from(b: Seq<u8>, i: int) -> Seq<(Seq<u8>, Seq<u8>)>
    decreases b.len() + 4 - i,
{
    let n = b.len() as int;
    if i < 0 || i >= n {
        Seq::empty()
    } else if b[i] == 33 && i + 1 < n && b[i + 1] == 91 && md_link_at(b, i + 1) is Some {
        proof {
            lemma_md_link_at(b, i + 1);
        }
        let (_, _, _, end) = md_link_at(b, i + 1)->0;
        links_from(b, end)
    } else if b[i] == 91 && md_link_at(b, i) is Some {
        let (c1, ua, ue, end) = md_link_at(b, i)->0;
        proof {
            lemma_md_link_at(b, i);
        }
        let found = if ue > ua && b[ua] != 35 {
            seq![(b.subrange(i + 1, c1), b.subrange(ua, ue))]
        } else {
            Seq::empty()
        };
        found + links_from(b, end)
    } else if b[i] == 60 && autolink_at(b, i) is Some {
        let c = autolink_at(b, i)->0;
        proof {
            lemma_first_of_props(b, 62, i + 1, n);
        }
        seq![(b.subrange(i + 1, c), b.subrange(i + 1, c))] + links_from(b, c + 1)
    } else if http_prefix(b, i) {
        let ue = bare_url_end(b, i);
        proof {
            lemma_bare_url(b, i);
        }
        seq![(b.subrange(i, ue), b.subrange(i, ue))] + links_from(b, ue)
    } else {
        links_from(b, i + crate::text::lead_width(b[i]))
    }
}

/// The found links are `ls`, text and url as UTF-8 bytes.
pub open spec fn links_are(r: Seq<FoundLink>, ls: Seq<(Seq<u8>, Seq<u8>)>) -> bool {
    &&& r.len() == ls.len()
    &&& forall|k: int|
        0 <= k < ls.len() ==> utf8((#[trigger] r[k]).text@) == ls[k].0 && utf8(r[k].url@) == ls[k].1
}

fn parse_md_link_at(b: &[u8], i: usize) -> (r: Option<(usize, usize, usize, usize)>)
    ensures
        match r {
            Some((c1, ua, ue, end)) => md_link_at(b@, i as int) == Some(
                (c1 as int, ua as int, ue as int, end as int),
            ),
            None => md_link_at(b@, i as int) is None,
        },
{
    let n: usize = b.len();
    if i >= n || b[i] != 91 {
        return None;
    }
    proof {
        lemma_first_of_props(b@, 93, i as int, n as int);
    }
    let c1 = match crate::text::find_byte(b, 93, i, n) {
        Some(c) => c,
        None => return None,
    };
    if c1 + 1 >= n || b[c1 + 1] != 40 {
        return None;
    }
    proof {
        lemma_first_of_props(b@, 41, c1 + 1, n as int);
    }
    let c2 = match crate::text::find_byte(b, 41, c1 + 1, n) {
        Some(c) => c,
        None => return None,
    };
    proof {
        crate::projection::lemma_trim_start(b@, c1 + 2, c2 as int);
    }
    let ia = crate::text::trim_start_idx(b, c1 + 2, c2);
    let ie = crate::text::trim_end_idx(b, ia, c2);
    let we: usize = if ia < ie {
        crate::projection::word_end_idx(b, ia, ie)
    } else {
        ia
    };
    Some((c1, ia, we, c2 + 1))
}

pub fn http_prefix_exec(b: &[u8], i: usize) -> (r: bool)
    requires
        i <= b@.len(),
    ensures
        r == http_prefix(b@, i as int),
{
    let n: usize = b.len();
    let ghost t = b@.subrange(i as int, n as int);
    let p1: [u8; 7] = [104, 116, 116, 112, 58, 47, 47];
    let p2: [u8; 8] = [104, 116, 116, 112, 115, 58, 47, 47];
    assert(p1@ =~= seq![104u8, 116, 116, 112, 58, 47, 47]);
    assert(p2@ =~= seq![104u8, 116, 116, 112, 115, 58, 47, 47]);
    let a = crate::text::starts_at(b, i, p1.as_slice());
    let c = crate::text::starts_at(b, i, p2.as_slice());
    proof {
        if a {
            assert(t.subrange(0, 7) =~= b@.subrange(i as int, i + 7));
        }
        if has_prefix(t, p1@) {
            assert(t.subrange(0, 7) =~= b@.subrange(i as int, i + 7));
        }
        if c {
            assert(t.subrange(0, 8) =~= b@.subrange(i as int, i + 8));
        }
        if has_prefix(t, p2@) {
            assert(t.subrange(0, 8) =~= b@.subrange(i as int, i + 8));
        }
    }
    a || c
}

fn parse_autolink_at(b: &[u8], i: usize) -> (r: Option<usize>)
    ensures
        match r {
            Some(c) => autolink_at(b@, i as int) == Some(c as int),
            None => autolink_at(b@, i as int) is None,
        },
{
    let n: usize = b.len();
    if i >= n || b[i] != 60 {
        return None;
    }
    proof {
        lemma_first_of_props(b@, 62, i + 1, n as int);
    }
    let c = match crate::text::find_byte(b, 62, i + 1, n) {
        Some(c) => c,
        None => return None,
    };
    let head = crate::text::slice_vec(b, 0, c);
    if http_prefix_exec(head.as_slice(), i + 1) {
        Some(c)
    } else {
        None
    }
}

fn take_bare_url(b: &[u8], i: usize) -> (r: usize)
    requires
        valid_utf8(b@),
        at_boundary(b@, i as int),
    ensures
        r as int == bare_url_end(b@, i as int),
{
    let n: usize = b.len();
    let mut k: usize = i;
    while k < n
        invariant
            i <= k <= n == b@.len(),
            valid_utf8(b@),
            at_boundary(b@, k as int),
            url_end(b@, k as int) == url_end(b@, i as int),
        ensures
            url_end(b@, k as int) == k,
        decreases n - k,
    {
        let x = b[k];
        if crate::text::ws_len_at(b, k) > 0 || x == 41 || x == 93 || x == 62 {
            break;
        }
        proof {
            crate::text::lemma_scalar_end(b@, k as int);
        }
        let w: usize = if x <= 0x7f {
            1
        } else if 0xc0 <= x && x <= 0xdf {
            2
        } else if 0xe0 <= x && x <= 0xef {
            3
        } else {
            4
        };
        k = k + w;
    }
    let mut e: usize = k;
    proof {
        lemma_punct_end(b@, i as int, k as int);
    }
    while e > i && (b[e - 1] == 46 || b[e - 1] == 44 || b[e - 1] == 59 || b[e - 1] == 58 || b[e - 1]
        == 33 || b[e - 1] == 63 || b[e - 1] == 34 || b[e - 1] == 39)
        invariant
            i <= e <= k <= b@.len(),
            punct_end(b@, i as int, k as int) == punct_end(b@, i as int, e as int),
        decreases e,
    {
        e -= 1;
    }
    e
}

/// Markdown links (not images), `<http..>` autolinks and bare URLs of `source`.
#[verifier::rlimit(30)]
pub fn extract_links(source: &str) -> (r: Vec<FoundLink>)
    ensures
        links_are(r@, links_from(utf8(source@), 0)),
{
    let b = crate::text::bytes_of(source);
    let n: usize = b.len();
    let ghost bb = b@;
    proof {
        lemma_utf8_valid(source@);
        crate::text::lemma_boundary_zero(bb);
    }
    let mut out: Vec<FoundLink> = Vec::new();
    let ghost mut acc: Seq<(Seq<u8>, Seq<u8>)> = Seq::empty();
    let mut i: usize = 0;
    while i < n
        invariant
            i <= n == bb.len(),
            bb == b@,
            bb == utf8(source@),
            valid_utf8(bb),
            at_boundary(bb, i as int),
            links_from(bb, 0) == acc + links_from(bb, i as int),
            links_are(out@, acc),
        decreases n - i,
    {
        let ghost before = out@;
        if b[i] == 33 && i + 1 < n && b[i + 1] == 91 {
            if let Some((_, _, _, end)) = parse_md_link_at(b, i + 1) {
                proof {
                    lemma_md_link_at(bb, i + 1);
                    lemma_ascii_boundary(bb, end - 1);
                    crate::text::lemma_after_ascii(bb, end - 1);
                }
                i = end;
                continue;
            }
        }
        if b[i] == 91 {
            if let Some((c1, ua, ue, end)) = parse_md_link_at(b, i) {
                proof {
                    lemma_md_link_at(bb, i as int);
                    crate::text::lemma_after_ascii(bb, end - 1);
                }
                let ghost found = if ue > ua && bb[ua as int] != 35 {
                    seq![(bb.subrange(i + 1, c1 as int), bb.subrange(ua as int, ue as int))]
                } else {
                    Seq::<(Seq<u8>, Seq<u8>)>::empty()
                };
                if ue > ua && b[ua] != 35 {
                    let text = crate::text::owned(crate::text::substr(source, i + 1, c1));
                    let url = crate::text::owned(crate::text::substr(source, ua, ue));
                    out.push(FoundLink { text, url });
                }
                proof {
                    assert(links_from(bb, i as int) == found + links_from(bb, end as int));
                    assert(acc + links_from(bb, i as int) =~= (acc + found) + links_from(bb, end as int));
                    acc = acc + found;
                    assert(links_are(out@, acc)) by {
                        assert forall|k: int| 0 <= k < acc.len() implies utf8((#[trigger] out@[k]).text@)
                            == acc[k].0 && utf8(out@[k].url@) == acc[k].1 by {
                            if k < before.len() {
                                assert(out@[k] == before[k]);
                            }
                        }
                    }
                }
                i = end;
                continue;
            }
        }
        if b[i] == 60 {
            if let Some(c) = parse_autolink_at(b, i) {
                proof {
                    lemma_first_of_props(bb, 62, i + 1, n as int);
                    crate::text::lemma_after_ascii(bb, i as int);
                    lemma_ascii_boundary(bb, c as int);
                    crate::text::lemma_after_ascii(bb, c as int);
                }
                let text = crate::text::owned(crate::text::substr(source, i + 1, c));
                let url = crate::text::owned(crate::text::substr(source, i + 1, c));
                out.push(FoundLink { text, url });
                proof {
                    let found = seq![(bb.subrange(i + 1, c as int), bb.subrange(i + 1, c as int))];
                    assert(links_from(bb, i as int) == found + links_from(bb, c + 1));
                    assert(acc + links_from(bb, i as int) =~= (acc + found) + links_from(bb, c + 1));
                    acc = acc + found;
                    assert(links_are(out@, acc)) by {
                        assert forall|k: int| 0 <= k < acc.len() implies utf8((#[trigger] out@[k]).text@)
                            == acc[k].0 && utf8(out@[k].url@) == acc[k].1 by {
                            if k < before.len() {
                                assert(out@[k] == before[k]);
                            }
                        }
                    }
                }
                i = c + 1;
                continue;
            }
        }
        if http_prefix_exec(b, i) {
            let ue = take_bare_url(b, i);
            proof {
                lemma_bare_url(bb, i as int);
                lemma_url_end(bb, i as int);
                lemma_punct_end(bb, i as int, url_end(bb, i as int));
                if ue < url_end(bb, i as int) {
                    lemma_ascii_boundary(bb, ue as int);
                }
            }
            let text = crate::text::owned(crate::text::substr(source, i, ue));
            let url = crate::text::owned(crate::text::substr(source, i, ue));
            out.push(FoundLink { text, url });
            proof {
                let found = seq![(bb.subrange(i as int, ue as int), bb.subrange(i as int, ue as int))];
                assert(links_from(bb, i as int) == found + links_from(bb, ue as int));
                assert(acc + links_from(bb, i as int) =~= (acc + found) + links_from(bb, ue as int));
                acc = acc + found;
                assert(links_are(out@, acc)) by {
                    assert forall|k: int| 0 <= k < acc.len() implies utf8((#[trigger] out@[k]).text@)
                        == acc[k].0 && utf8(out@[k].url@) == acc[k].1 by {
                        if k < before.len() {
                            assert(out@[k] == before[k]);
                        }
                    }
                }
            }
            i = ue;
            continue;
        }
        proof {
            crate::text::lemma_scalar_end(bb, i as int);
        }
        let x = b[i];
        let w: usize = if x <= 0x7f {
            1
        } else if 0xc0 <= x && x <= 0xdf {
            2
        } else if 0xe0 <= x && x <= 0xef {
            3
        } else {
            4
        };
        i = i + w;
    }
    proof {
        assert(acc + links_from(bb, i as int) =~= acc);
    }
    out
}

/// Kind of the first block that `source` parses to; a paragraph when it
/// parses to none.
pub open spec fn inferred_kind(source: Seq<char>) -> BlockKind {
    let ps = block_pieces(utf8(source), md_spans(source, GFM_FLAGS));
    if ps.len() > 0 {
        ps[0].0
    } else {
        BlockKind::Paragraph
    }
}

pub fn infer_kind(source: &str) -> (r: BlockKind)
    ensures
        r == inferred_kind(source@),
{
    let mut ids = BlockIds::new();
    let blocks = parse_blocks(source, &mut ids);
    if blocks.len() > 0 {
        blocks[0].kind
    } else {
        BlockKind::Paragraph
    }
}

/// Parsed blocks get distinct ids, increasing in document order, as long
/// as the id counter has not reached the top of `u64`.
pub proof fn lemma_block_ids_increase(blocks: Seq<Block>, ps: Seq<Piece>, first: u64)
    requires
        blocks_of(blocks, ps, first),
        first + ps.len() <= u64::MAX,
    ensures
        forall|i: int, j: int| 0 <= i < j < blocks.len() ==> blocks[i].id < blocks[j].id,
{
    assert forall|i: int, j: int| 0 <= i < j < blocks.len() implies blocks[i].id < blocks[j].id by {
        assert(blocks[i].id == id_at(first, i));
        assert(blocks[j].id == id_at(first, j));
    }
}

proof fn lemma_join_parts_end(bs: Seq<Block>, k: int)
    ensures
        join_parts(bs, k).len() > 0 ==> join_parts(bs, k).last() != 10,
    decreases k,
{
    if k > 0 {
        lemma_join_parts_end(bs, k - 1);
        let s = utf8(bs[k - 1].source@);
        let e = trim_end_at(s, 0, s.len() as int);
        crate::html::lemma_trim_end_at(s, 0, s.len() as int);
        if e > 0 {
            lemma_trim_end_last(s, e);
        }
    }
}

/// The last byte kept by `trim_end` is not white space.
proof fn lemma_trim_end_last(s: Seq<u8>, e: int)
    requires
        e == trim_end_at(s, 0, s.len() as int),
        e > 0,
    ensures
        s[e - 1] != 10,
{
    lemma_trim_end_stop(s, 0, s.len() as int);
    crate::html::lemma_trim_end_at(s, 0, s.len() as int);
    if s[e - 1] == 10 {
        assert(crate::text::is_ascii_ws(s[e - 1]));
        assert(crate::text::ws_before(s, e) == 1);
    }
}

proof fn lemma_trim_end_stop(s: Seq<u8>, a: int, e: int)
    requires
        0 <= a <= e <= s.len(),
    ensures
        trim_end_at(s, a, e) > a ==> crate::text::ws_before(s, trim_end_at(s, a, e)) == 0 || trim_end_at(
            s,
            a,
            e,
        ) - crate::text::ws_before(s, trim_end_at(s, a, e)) < a,
    decreases e - a,
{
    if a < e && crate::text::ws_before(s, e) > 0 && e - crate::text::ws_before(s, e) >= a {
        lemma_trim_end_stop(s, a, e - crate::text::ws_before(s, e));
    }
}

/// A serialized file is empty or ends in exactly one line break.
pub proof fn lemma_serialized_ends_in_newline(bs: Seq<Block>)
    ensures
        serialized(bs).len() > 0 ==> serialized(bs).last() == 10 && serialized(bs).drop_last().len()
            > 0 && serialized(bs).drop_last().last() != 10,
{
    lemma_join_parts_end(bs, bs.len() as int);
    let j = join_parts(bs, bs.len() as int);
    if j.len() > 0 {
        assert(j.push(10).drop_last() =~= j);
    }
}

/// The lines of a text that does not end in a line break end with a line
/// that runs to the end of the text and holds no line break.
proof fn lemma_lines_last(b: Seq<u8>, i: int)
    requires
        0 <= i < b.len(),
        b.last() != 10,
    ensures
        crate::text::lines_from(b, i).len() > 0,
        crate::text::lines_from(b, i).last().1 == b.len(),
        crate::text::lines_from(b, i).last().0 < b.len(),
        forall|k: int|
            crate::text::lines_from(b, i).last().0 <= k < b.len() ==> #[trigger] b[k] != 10,
    decreases b.len() - i,
{
    lemma_line_end(b, i);
    let le = line_end(b, i);
    let rest = crate::text::lines_from(b, le + 1);
    if le + 1 < b.len() {
        lemma_line_end(b, le + 1);
        lemma_lines_last(b, le + 1);
        assert(crate::text::lines_from(b, i).last() == rest.last());
    } else {
        assert(le == b.len());
        assert(rest.len() == 0);
        assert(crate::text::lines_from(b, i) =~= seq![(i, line_content_end(b, i))]);
    }
}

/// Joined lines end with the last line's last byte.
proof fn lemma_join_last(b: Seq<u8>, ls: Seq<(int, int)>, k: int, j: int, newl: Seq<u8>)
    requires
        0 <= k < ls.len(),
        ({
            let p = if ls.len() - 1 == j {
                newl
            } else {
                b.subrange(ls.last().0, ls.last().1)
            };
            p.len() > 0
        }),
    ensures
        join_lines_from(b, ls, k, j, newl).len() > 0,
        join_lines_from(b, ls, k, j, newl).last() == (if ls.len() - 1 == j {
            newl
        } else {
            b.subrange(ls.last().0, ls.last().1)
        }).last(),
    decreases ls.len() - k,
{
    if k < ls.len() - 1 {
        lemma_join_last(b, ls, k + 1, j, newl);
    }
}

/// Toggling a task box keeps whether the text ends in a line break, so a
/// list spliced back into the document keeps its blank-line separator.
pub proof fn lemma_toggle_keeps_trailing_newline(b: Seq<u8>, j: int)
    requires
        toggled(b, j) is Some,
    ensures
        (toggled(b, j)->0.len() > 0 && toggled(b, j)->0.last() == 10) == (b.len() > 0 && b.last()
            == 10),
{
    let ls = crate::text::lines_from(b, 0);
    let line = b.subrange(ls[j].0, ls[j].1);
    if b.len() > 0 && b.last() != 10 {
        lemma_lines_last(b, 0);
        lemma_lines_from_bounds(b, 0);
        let (m, c) = task_split(line)->0;
        lemma_task_split(line);
        let newl = flipped(line, m, c);
        let last = ls.last();
        let lastp = b.subrange(last.0, last.1);
        assert(lastp.len() > 0);
        if ls.len() - 1 == j {
            assert(newl.len() > 0);
            lemma_join_last(b, ls, 0, j, newl);
            if m + 3 < line.len() {
                assert(newl.last() == line.last());
                assert(line.last() == b[ls[j].1 - 1]);
            } else {
                assert(newl.last() == 93);
            }
        } else {
            lemma_join_last(b, ls, 0, j, newl);
            assert(lastp.last() == b[last.1 - 1]);
        }
    }
}

/// `p` is `b[a..e]`.
pub open spec fn slice_at(b: Seq<u8>, p: Seq<u8>, a: int, e: int) -> bool {
    0 <= a <= e <= b.len() && p == b.subrange(a, e)
}

/// `p` occurs verbatim in `b` as one slice.
pub open spec fn is_slice(b: Seq<u8>, p: Seq<u8>) -> bool {
    exists|a: int, e: int| #[trigger] slice_at(b, p, a, e)
}

/// Trimming a slice leaves a slice.
proof fn lemma_trim_slice(b: Seq<u8>, x: int, y: int)
    requires
        0 <= x <= y <= b.len(),
    ensures
        is_slice(b, trim_bytes(b.subrange(x, y))),
{
    let t = b.subrange(x, y);
    let n = t.len() as int;
    crate::projection::lemma_trim_start(t, 0, n);
    let a = trim_start_at(t, 0, n);
    crate::html::lemma_trim_end_at(t, a, n);
    let e = trim_end_at(t, a, n);
    assert(t.subrange(a, e) =~= b.subrange(x + a, x + e));
    assert(slice_at(b, trim_bytes(t), x + a, x + e));
}

proof fn lemma_block_walk_slices(b: Seq<u8>, cs: Seq<Covered>)
    requires
        valid_utf8(b),
    ensures
        forall|k: int|
            0 <= k < block_walk(b, cs).1.len() ==> is_slice(b, #[trigger] block_walk(b, cs).1[k].1),
    decreases cs.len(),
{
    if cs.len() > 0 {
        lemma_block_walk_slices(b, cs.drop_last());
        lemma_block_walk(b, cs.drop_last());
        let (cursor, ps) = block_walk(b, cs.drop_last());
        let c = cs.last();
        lemma_floor_boundary(b, c.0 as int);
        lemma_floor_boundary(b, c.1 as int);
        let start = floor_boundary(b, c.0 as int);
        let e0 = floor_boundary(b, c.1 as int);
        let end = if e0 < start {
            start
        } else {
            e0
        };
        let gap = if start > cursor {
            gap_blocks(b.subrange(cursor, start))
        } else {
            Seq::empty()
        };
        crate::notion::lemma_trim_nl_end(b, start, end);
        let te = crate::text::trim_nl_end(b, start, end);
        let src = b.subrange(start, te);
        let piece = if blank_text(src) {
            Seq::empty()
        } else {
            seq![(c.2, src)]
        };
        if start > cursor {
            lemma_trim_slice(b, cursor, start);
        }
        assert(slice_at(b, src, start, te));
        let all = ps + gap + piece;
        assert forall|k: int| 0 <= k < all.len() implies is_slice(b, #[trigger] all[k].1) by {
            if k < ps.len() {
                assert(all[k] == ps[k]);
            } else if k < ps.len() + gap.len() {
                assert(all[k] == gap[k - ps.len()]);
            } else {
                assert(all[k] == piece[k - ps.len() - gap.len()]);
            }
        }
    }
}

/// Parsed blocks keep their source as it stands in the file: each block's
/// text is one slice of the file, unchanged.
pub proof fn lemma_block_sources_are_slices(b: Seq<u8>, ev: Seq<MdSpan>)
    requires
        valid_utf8(b),
    ensures
        forall|k: int|
            0 <= k < block_pieces(b, ev).len() ==> is_slice(b, #[trigger] block_pieces(b, ev)[k].1),
{
    if !blank_text(b) {
        let cs = sort_by_start(cover_walk(ev).3);
        lemma_block_walk_slices(b, cs);
        lemma_block_walk(b, cs);
        let (cursor, ps) = block_walk(b, cs);
        if cursor < b.len() {
            lemma_trim_slice(b, cursor, b.len() as int);
            let all = block_pieces(b, ev);
            let gap = gap_blocks(b.subrange(cursor, b.len() as int));
            assert forall|k: int| 0 <= k < all.len() implies is_slice(b, #[trigger] all[k].1) by {
                if k < ps.len() {
                    assert(all[k] == ps[k]);
                } else {
                    assert(all[k] == gap[k - ps.len()]);
                }
            }
        }
    }
}

/* ---------- toggling twice ---------- */

/// The texts of the lines of `b` from `i` on, as `str::lines` yields them.
pub open spec fn texts_from(b: Seq<u8>, i: int) -> Seq<Seq<u8>> {
    let ls = crate::text::lines_from(b, i);
    Seq::new(ls.len(), |k: int| b.subrange(ls[k].0, ls[k].1))
}

/// Texts joined by `'\n'`.
pub open spec fn join_texts(l: Seq<Seq<u8>>) -> Seq<u8>
    decreases l.len(),
{
    if l.len() == 0 {
        Seq::empty()
    } else if l.len() == 1 {
        l[0]
    } else {
        l[0] + seq![10u8] + join_texts(l.drop_first())
    }
}

/// `"\n"` when `b` ends in a line break, else nothing.
pub open spec fn nl_tail(b: Seq<u8>) -> Seq<u8> {
    if b.len() > 0 && b.last() == 10 {
        seq![10u8]
    } else {
        Seq::empty()
    }
}

/// `b` holds neither `'\n'` nor `'\r'`.
pub open spec fn no_breaks(b: Seq<u8>) -> bool {
    forall|k: int| 0 <= k < b.len() ==> #[trigger] b[k] != 10 && b[k] != 13
}

proof fn lemma_join_as_texts(b: Seq<u8>, ls: Seq<(int, int)>, k: int, j: int, newl: Seq<u8>)
    requires
        0 <= k <= ls.len(),
    ensures
        join_lines_from(b, ls, k, j, newl) == join_texts(
            Seq::new(
                (ls.len() - k) as nat,
                |t: int|
                    if k + t == j {
                        newl
                    } else {
                        b.subrange(ls[k + t].0, ls[k + t].1)
                    },
            ),
        ),
    decreases ls.len() - k,
{
    let f = |t: int|
        if k + t == j {
            newl
        } else {
            b.subrange(ls[k + t].0, ls[k + t].1)
        };
    let l = Seq::new((ls.len() - k) as nat, f);
    if k < ls.len() {
        if k < ls.len() - 1 {
            lemma_join_as_texts(b, ls, k + 1, j, newl);
            let g = |t: int|
                if k + 1 + t == j {
                    newl
                } else {
                    b.subrange(ls[k + 1 + t].0, ls[k + 1 + t].1)
                };
            assert(l.drop_first() =~= Seq::new((ls.len() - k - 1) as nat, g));
        }
    } else {
        assert(l.len() == 0);
    }
}

/// One step of `texts_from`: the line at `i`, then the rest.
proof fn lemma_texts_step(b: Seq<u8>, i: int)
    requires
        0 <= i < b.len(),
    ensures
        texts_from(b, i) == seq![b.subrange(i, line_content_end(b, i))] + texts_from(
            b,
            line_end(b, i) + 1,
        ),
{
    lemma_line_end(b, i);
    let ls = crate::text::lines_from(b, i);
    let rest = crate::text::lines_from(b, line_end(b, i) + 1);
    assert(ls == seq![(i, line_content_end(b, i))] + rest);
    assert(texts_from(b, i) =~= seq![b.subrange(i, line_content_end(b, i))] + texts_from(
        b,
        line_end(b, i) + 1,
    ));
}

/// Without carriage returns, the lines of `b` joined back (with its final
/// line break) give `b` again.
proof fn lemma_rejoin(b: Seq<u8>, i: int)
    requires
        0 <= i < b.len(),
        forall|k: int| 0 <= k < b.len() ==> #[trigger] b[k] != 13,
    ensures
        join_texts(texts_from(b, i)) + nl_tail(b) == b.subrange(i, b.len() as int),
    decreases b.len() - i,
{
    let n = b.len() as int;
    lemma_line_end(b, i);
    lemma_texts_step(b, i);
    let le = line_end(b, i);
    assert(line_content_end(b, i) == le) by {
        if le < n && le > i {
            assert(b[le - 1] != 13);
        }
    }
    let rest = texts_from(b, le + 1);
    let t = texts_from(b, i);
    if le + 1 < n {
        lemma_rejoin(b, le + 1);
        lemma_line_end(b, le + 1);
        lemma_texts_step(b, le + 1);
        assert(t.drop_first() =~= rest);
        assert(join_texts(t) == b.subrange(i, le) + seq![10u8] + join_texts(rest));
        assert(join_texts(t) + nl_tail(b) =~= b.subrange(i, le) + seq![10u8] + (join_texts(rest)
            + nl_tail(b)));
        assert(b.subrange(i, n) =~= b.subrange(i, le) + seq![10u8] + b.subrange(le + 1, n));
    } else {
        assert(rest.len() == 0);
        assert(t =~= seq![b.subrange(i, le)]);
        if le == n {
            assert(b.last() != 10);
            assert(b.subrange(i, n) =~= b.subrange(i, le));
        } else {
            assert(b.subrange(i, n) =~= b.subrange(i, le) + seq![10u8]);
        }
    }
}

/// `first_of` in `p + y` past `p` is `first_of` in `y`, shifted.
proof fn lemma_first_of_shift(p: Seq<u8>, y: Seq<u8>, c: u8, a: int, e: int)
    requires
        0 <= a <= e <= y.len(),
    ensures
        first_of(p + y, c, p.len() + a, p.len() + e) == match first_of(y, c, a, e) {
            Some(q) => Some(p.len() + q),
            None => None::<int>,
        },
    decreases e - a,
{
    if a < e {
        assert((p + y)[p.len() + a] == y[a]);
        lemma_first_of_shift(p, y, c, a + 1, e);
    }
}

/// The lines of `p + y` past `p` are the lines of `y`.
proof fn lemma_texts_shift(p: Seq<u8>, y: Seq<u8>, i: int)
    requires
        0 <= i,
    ensures
        texts_from(p + y, p.len() + i) == texts_from(y, i),
    decreases y.len() + 1 - i,
{
    let v = p + y;
    if i < y.len() {
        lemma_first_of_shift(p, y, 10, i, y.len() as int);
        lemma_line_end(y, i);
        assert(line_end(v, p.len() + i) == p.len() + line_end(y, i));
        let le = line_end(y, i);
        if le < y.len() && le > i {
            assert(v[p.len() + le - 1] == y[le - 1]);
        }
        assert(line_content_end(v, p.len() + i) == p.len() + line_content_end(y, i));
        lemma_texts_step(v, p.len() + i);
        lemma_texts_step(y, i);
        lemma_texts_shift(p, y, le + 1);
        assert(v.subrange(p.len() + i, p.len() + line_content_end(y, i)) =~= y.subrange(
            i,
            line_content_end(y, i),
        ));
    } else {
        assert(texts_from(v, p.len() + i) =~= Seq::<Seq<u8>>::empty());
        assert(texts_from(y, i) =~= Seq::<Seq<u8>>::empty());
    }
}

/// The lines of texts joined by line breaks are those texts, when no text
/// holds a line break and the last one is not an empty final line.
proof fn lemma_lines_of_join(l: Seq<Seq<u8>>, tail: Seq<u8>)
    requires
        l.len() > 0,
        forall|k: int| 0 <= k < l.len() ==> no_breaks(#[trigger] l[k]),
        tail == seq![10u8] || (tail.len() == 0 && l.last().len() > 0),
    ensures
        texts_from(join_texts(l) + tail, 0) == l,
    decreases l.len(),
{
    let l0 = l[0];
    assert(no_breaks(l0));
    if l.len() == 1 {
        let v = l0 + tail;
        crate::text::lemma_first_of_props(v, 10, 0, v.len() as int);
        if tail.len() == 1 {
            assert(v[l0.len() as int] == 10);
        }
        assert(forall|k: int| 0 <= k < l0.len() ==> v[k] == l0[k]);
        lemma_line_end(v, 0);
        assert(line_end(v, 0) == l0.len());
        if l0.len() > 0 {
            assert(v[l0.len() - 1] != 13);
        }
        lemma_texts_step(v, 0);
        assert(texts_from(v, (l0.len() + 1) as int).len() == 0);
        assert(v.subrange(0, l0.len() as int) =~= l0);
        assert(texts_from(v, 0) =~= l);
    } else {
        let rest = l.drop_first();
        assert forall|k: int| 0 <= k < rest.len() implies no_breaks(#[trigger] rest[k]) by {
            assert(rest[k] == l[k + 1]);
        }
        lemma_lines_of_join(rest, tail);
        let w = join_texts(rest) + tail;
        let p = l0 + seq![10u8];
        let v = join_texts(l) + tail;
        assert(v =~= p + w);
        crate::text::lemma_first_of_props(v, 10, 0, v.len() as int);
        assert(v[l0.len() as int] == 10);
        assert(forall|k: int| 0 <= k < l0.len() ==> v[k] == l0[k]);
        lemma_line_end(v, 0);
        assert(line_end(v, 0) == l0.len());
        if l0.len() > 0 {
            assert(v[l0.len() - 1] != 13);
        }
        lemma_texts_step(v, 0);
        lemma_texts_shift(p, w, 0);
        assert(v.subrange(0, l0.len() as int) =~= l0);
        assert(texts_from(v, 0) =~= l);
    }
}


/// Two texts that agree below `m` open with the same indent, when the
/// indent ends below `m`.
proof fn lemma_indent_agree(x: Seq<u8>, y: Seq<u8>, i: int, m: int)
    requires
        0 <= i,
        i + crate::notion::indent_of(x, i) < m,
        x.len() == y.len(),
        forall|k: int| 0 <= k < m && k < x.len() ==> #[trigger] x[k] == y[k],
    ensures
        crate::notion::indent_of(y, i) == crate::notion::indent_of(x, i),
    decreases x.len() - i,
{
    if 0 <= i < x.len() && (x[i] == 32 || x[i] == 9) {
        crate::notion::lemma_indent_of(x, i + 1);
        assert(x[i] == y[i]);
        lemma_indent_agree(x, y, i + 1, m);
    } else if i < x.len() {
        assert(x[i] == y[i]);
    }
}

/// Two texts that agree below `m` open with the same digit run, when the
/// run ends below `m`.
proof fn lemma_digits_agree(x: Seq<u8>, y: Seq<u8>, i: int, m: int)
    requires
        0 <= i,
        i + crate::projection::digit_run(x, i) < m,
        x.len() == y.len(),
        forall|k: int| 0 <= k < m && k < x.len() ==> #[trigger] x[k] == y[k],
    ensures
        crate::projection::digit_run(y, i) == crate::projection::digit_run(x, i),
    decreases x.len() - i,
{
    if 0 <= i < x.len() && 48 <= x[i] <= 57 {
        crate::projection::lemma_digit_run(x, i + 1);
        assert(x[i] == y[i]);
        lemma_digits_agree(x, y, i + 1, m);
    } else if i < x.len() {
        assert(x[i] == y[i]);
    }
}

/// A flipped box is still a task box, with the other state; flipping it
/// back restores the line unless its mark was an upper-case `X`.
proof fn lemma_flip_flip(x: Seq<u8>, m: int, c: bool)
    requires
        task_split(x) == Some((m, c)),
    ensures
        task_split(flipped(x, m, c)) == Some((m, !c)),
        x[m + 1] != 88 ==> flipped(flipped(x, m, c), m, !c) == x,
        no_breaks(x) ==> no_breaks(flipped(x, m, c)),
        flipped(x, m, c).len() == x.len(),
{
    lemma_task_split(x);
    let y = flipped(x, m, c);
    let n = x.len() as int;
    assert(y.len() == n);
    assert forall|k: int| 0 <= k < n && k != m + 1 implies #[trigger] y[k] == x[k] by {
        if k < m {
        } else if k == m || k == m + 2 {
        } else {
            assert(y[k] == x.subrange(m + 3, n)[k - m - 3]);
        }
    }
    assert(y[m + 1] == if c { 32u8 } else { 120u8 });
    let i = crate::notion::indent_of(x, 0);
    crate::notion::lemma_indent_of(x, 0);
    let tx = x.subrange(i, n);
    let d = crate::projection::digit_run(tx, 0);
    crate::projection::lemma_digit_run(tx, 0);
    let bl = crate::projection::bullet_open(tx);
    if bl {
        assert(i + 2 == m);
    } else {
        assert(i + d + 2 == m);
    }
    lemma_indent_agree(x, y, 0, m + 1);
    let ty = y.subrange(i, n);
    assert forall|k: int| 0 <= k < m + 1 - i && k < tx.len() implies #[trigger] tx[k] == ty[k] by {
        assert(tx[k] == x[i + k]);
        assert(ty[k] == y[i + k]);
    }
    assert(tx[0] == ty[0] && tx[1] == ty[1]);
    if !bl {
        lemma_digits_agree(tx, ty, 0, m + 1 - i);
        assert(tx[d] == ty[d] && tx[d + 1] == ty[d + 1]);
    }
    assert(task_split(y) == Some((m, !c)));
    if x[m + 1] != 88 {
        assert(flipped(y, m, !c) =~= x);
    }
    if no_breaks(x) {
        assert forall|k: int| 0 <= k < y.len() implies #[trigger] y[k] != 10 && y[k] != 13 by {
            if k != m + 1 {
                assert(y[k] == x[k]);
            }
        }
    }
}

/// The lines of a text with no carriage return hold no line break.
proof fn lemma_texts_no_breaks(b: Seq<u8>, i: int)
    requires
        0 <= i,
        forall|k: int| 0 <= k < b.len() ==> #[trigger] b[k] != 13,
    ensures
        forall|k: int| 0 <= k < texts_from(b, i).len() ==> no_breaks(#[trigger] texts_from(b, i)[k]),
    decreases b.len() + 1 - i,
{
    if i < b.len() {
        lemma_line_end(b, i);
        lemma_texts_step(b, i);
        let le = line_end(b, i);
        crate::text::lemma_first_of_props(b, 10, i, b.len() as int);
        assert(line_content_end(b, i) == le) by {
            if le < b.len() && le > i {
                assert(b[le - 1] != 13);
            }
        }
        lemma_texts_no_breaks(b, le + 1);
        let t = texts_from(b, i);
        let rest = texts_from(b, le + 1);
        assert forall|k: int| 0 <= k < t.len() implies no_breaks(#[trigger] t[k]) by {
            if k == 0 {
                let h = b.subrange(i, le);
                assert forall|q: int| 0 <= q < h.len() implies #[trigger] h[q] != 10 && h[q] != 13 by {
                    assert(h[q] == b[i + q]);
                }
            } else {
                assert(t[k] == rest[k - 1]);
            }
        }
    }
}

/// The byte inside the box of task line `j`, if that line is a task.
pub open spec fn task_mark(b: Seq<u8>, j: int) -> Option<u8> {
    let ls = crate::text::lines_from(b, 0);
    if j < 0 || j >= ls.len() {
        None
    } else {
        let line = b.subrange(ls[j].0, ls[j].1);
        match task_split(line) {
            Some((m, _)) => Some(line[m + 1]),
            None => None,
        }
    }
}

/// Toggling the same task line twice gives the text back, for a text
/// without carriage returns whose box is `[ ]` or `[x]` (an upper-case
/// `[X]` comes back lower-case).
pub proof fn lemma_toggle_twice(b: Seq<u8>, j: int)
    requires
        forall|k: int| 0 <= k < b.len() ==> #[trigger] b[k] != 13,
        toggled(b, j) is Some,
        task_mark(b, j) != Some(88u8),
    ensures
        toggled(toggled(b, j)->0, j) == Some(b),
{
    let ls = crate::text::lines_from(b, 0);
    let l = texts_from(b, 0);
    let line = b.subrange(ls[j].0, ls[j].1);
    let (m, c) = task_split(line)->0;
    let f = flipped(line, m, c);
    let g = flipped(f, m, !c);
    lemma_texts_no_breaks(b, 0);
    assert(l[j] == line);
    lemma_flip_flip(line, m, c);
    assert(g == line);
    // The first toggle, as joined texts.
    let l1 = l.update(j, f);
    lemma_join_as_texts(b, ls, 0, j, f);
    assert(Seq::new(
        (ls.len() - 0) as nat,
        |t: int|
            if 0 + t == j {
                f
            } else {
                b.subrange(ls[0 + t].0, ls[0 + t].1)
            },
    ) =~= l1);
    let tail = nl_tail(b);
    let b1 = join_texts(l1) + tail;
    assert(toggled(b, j)->0 == b1) by {
        assert(join_texts(l1).push(10) =~= join_texts(l1) + seq![10u8]);
        assert(join_texts(l1) =~= join_texts(l1) + Seq::<u8>::empty());
    }
    // Its lines are the lines of `b` with line `j` flipped.
    assert forall|k: int| 0 <= k < l1.len() implies no_breaks(#[trigger] l1[k]) by {
        if k != j {
            assert(l1[k] == l[k]);
        }
    }
    if tail.len() == 0 {
        lemma_lines_last(b, 0);
        lemma_lines_from_bounds(b, 0);
        if j != l.len() - 1 {
            assert(l1.last() == l.last());
            assert(l.last() == b.subrange(ls.last().0, ls.last().1));
        } else {
            lemma_task_split(line);
        }
    }
    lemma_lines_of_join(l1, tail);
    lemma_toggle_keeps_trailing_newline(b, j);
    assert(nl_tail(b1) == tail);
    // The second toggle flips line `j` back.
    let ls1 = crate::text::lines_from(b1, 0);
    assert(texts_from(b1, 0) == l1);
    assert(ls1.len() == l1.len());
    assert(b1.subrange(ls1[j].0, ls1[j].1) == l1[j]);
    assert(l1[j] == f);
    lemma_join_as_texts(b1, ls1, 0, j, g);
    assert(Seq::new(
        (ls1.len() - 0) as nat,
        |t: int|
            if 0 + t == j {
                g
            } else {
                b1.subrange(ls1[0 + t].0, ls1[0 + t].1)
            },
    ) =~= l) by {
        assert forall|t: int| 0 <= t < l.len() && t != j implies #[trigger] b1.subrange(
            ls1[t].0,
            ls1[t].1,
        ) == l[t] by {
            assert(texts_from(b1, 0)[t] == l1[t]);
        }
    }
    lemma_rejoin(b, 0);
    assert(b.subrange(0, b.len() as int) == b);
    assert(toggled(b1, j)->0 == join_texts(l) + tail) by {
        assert(join_texts(l).push(10) =~= join_texts(l) + seq![10u8]);
        assert(join_texts(l) =~= join_texts(l) + Seq::<u8>::empty());
    }
}


proof fn lemma_join_parts_prefix(bs: Seq<Block>, cs: Seq<Block>, k: int)
    requires
        0 <= k <= bs.len(),
        k <= cs.len(),
        forall|i: int| 0 <= i < k ==> #[trigger] bs[i] == cs[i],
    ensures
        join_parts(bs, k) == join_parts(cs, k),
    decreases k,
{
    if k > 0 {
        lemma_join_parts_prefix(bs, cs, k - 1);
        assert(bs[k - 1] == cs[k - 1]);
    }
}

/// A block with an empty source at the end (the paragraph kept there for
/// typing) changes nothing in the file text.
pub proof fn lemma_empty_tail_not_written(bs: Seq<Block>, b: Block)
    requires
        b.source@.len() == 0,
    ensures
        serialized(bs.push(b)) == serialized(bs),
{
    let cs = bs.push(b);
    let n = bs.len() as int;
    lemma_join_parts_prefix(bs, cs, n);
    assert(cs[n] == b);
    assert(utf8(b.source@) =~= Seq::<u8>::empty());
    assert(trim_end_bytes(utf8(b.source@)).len() == 0);
    assert(join_parts(cs, n + 1) == join_parts(bs, n));
}


/// Ranges that tile a text come in order: starts and ends never go back.
proof fn lemma_tiles_ordered(b: Seq<u8>, rs: Seq<PaintRange>, i: int, j: int)
    requires
        tiles(b, rs),
        0 <= i <= j < rs.len(),
    ensures
        rs[i].range.start <= rs[j].range.start,
        rs[i].range.end <= rs[j].range.end,
    decreases j - i,
{
    if i < j {
        lemma_tiles_ordered(b, rs, i, j - 1);
        assert(rs[j - 1].range.end == rs[j].range.start);
        assert(rs[j - 1].range.start <= rs[j - 1].range.end);
        assert(rs[j].range.start <= rs[j].range.end);
    }
}

/// The raw span covers every paint range that holds the caret or meets the
/// selection, when the ranges tile the text.
pub proof fn lemma_raw_span_covers(b: Seq<u8>, rs: Seq<PaintRange>, caret0: int, sel: Option<(int, int)>)
    requires
        tiles(b, rs),
    ensures
        ({
            let n = b.len() as int;
            let caret = if caret0 < n {
                caret0
            } else {
                n
            };
            let hot = match sel {
                Some((a0, b0)) => {
                    let lo = if a0 < b0 {
                        a0
                    } else {
                        b0
                    };
                    let hi = if a0 < b0 {
                        b0
                    } else {
                        a0
                    };
                    Some((if lo < n {
                        lo
                    } else {
                        n
                    }, if hi < n {
                        hi
                    } else {
                        n
                    }))
                },
                None => None,
            };
            let (s, e) = raw_span_of(rs, n, caret0, sel);
            forall|k: int|
                0 <= k < rs.len() && hot_range(#[trigger] rs[k].range, caret, n, hot) ==> s
                    <= rs[k].range.start && rs[k].range.end <= e
        }),
{
    let n = b.len() as int;
    let caret = if caret0 < n {
        caret0
    } else {
        n
    };
    let hot = match sel {
        Some((a0, b0)) => {
            let lo = if a0 < b0 {
                a0
            } else {
                b0
            };
            let hi = if a0 < b0 {
                b0
            } else {
                a0
            };
            Some((if lo < n {
                lo
            } else {
                n
            }, if hi < n {
                hi
            } else {
                n
            }))
        },
        None => None,
    };
    let p = |r: PaintRange| hot_range(r.range, caret, n, hot);
    crate::search::lemma_first_index(rs, p, 0);
    crate::search::lemma_last_index(rs, p, rs.len() as int);
    let (s, e) = raw_span_of(rs, n, caret0, sel);
    assert forall|k: int|
        0 <= k < rs.len() && hot_range(#[trigger] rs[k].range, caret, n, hot) implies s
            <= rs[k].range.start && rs[k].range.end <= e by {
        assert(p(rs[k]));
        let a = first_index(rs, p, 0)->0;
        let z = crate::search::last_index(rs, p, rs.len() as int)->0;
        lemma_tiles_ordered(b, rs, a, k);
        lemma_tiles_ordered(b, rs, k, z);
    }
}


/// A text has a task line exactly when some line of it can be toggled.
pub proof fn lemma_task_line_iff_toggle(b: Seq<u8>)
    ensures
        task_line_from(b, crate::text::lines_from(b, 0)) <==> exists|j: int| #[trigger] toggled(b, j) is Some,
{
    let ls = crate::text::lines_from(b, 0);
    if task_line_from(b, ls) {
        let k = choose|k: int| 0 <= k < ls.len() && #[trigger] task_split(b.subrange(ls[k].0, ls[k].1)) is Some;
        assert(toggled(b, k) is Some);
    }
    if exists|j: int| #[trigger] toggled(b, j) is Some {
        let j = choose|j: int| #[trigger] toggled(b, j) is Some;
        assert(task_split(b.subrange(ls[j].0, ls[j].1)) is Some);
    }
}


/// Replacing one text by one of the same length that differs in a single
/// byte changes the joined texts in a single byte.
proof fn lemma_join_update(l: Seq<Seq<u8>>, j: int, f: Seq<u8>, q: int)
    requires
        0 <= j < l.len(),
        f.len() == l[j].len(),
        0 <= q < f.len(),
        forall|k: int| 0 <= k < f.len() && k != q ==> #[trigger] f[k] == l[j][k],
    ensures
        ({
            let a = join_texts(l);
            let z = join_texts(l.update(j, f));
            &&& z.len() == a.len()
            &&& exists|p: int|
                0 <= p < a.len() && #[trigger] a[p] == l[j][q] && z[p] == f[q] && forall|k: int|
                    0 <= k < a.len() && k != p ==> #[trigger] z[k] == a[k]
        }),
    decreases l.len(),
{
    let l1 = l.update(j, f);
    let a = join_texts(l);
    let z = join_texts(l1);
    if l.len() == 1 {
        assert(z == f);
        assert(a == l[0]);
        assert(a[q] == l[j][q] && z[q] == f[q]);
    } else if j == 0 {
        let r = join_texts(l.drop_first());
        assert(l1.drop_first() =~= l.drop_first());
        assert(a == l[0] + seq![10u8] + r);
        assert(z == f + seq![10u8] + r);
        assert(a[q] == l[j][q] && z[q] == f[q]);
        assert forall|k: int| 0 <= k < a.len() && k != q implies #[trigger] z[k] == a[k] by {
            if k < f.len() {
                assert(z[k] == f[k]);
                assert(a[k] == l[0][k]);
            } else {
                assert(z[k] == (seq![10u8] + r)[k - f.len()]);
                assert(a[k] == (seq![10u8] + r)[k - f.len()]);
            }
        }
    } else {
        let rl = l.drop_first();
        lemma_join_update(rl, j - 1, f, q);
        assert(l1.drop_first() =~= rl.update(j - 1, f));
        let ra = join_texts(rl);
        let rz = join_texts(rl.update(j - 1, f));
        let p0 = choose|p: int|
            0 <= p < ra.len() && #[trigger] ra[p] == rl[j - 1][q] && rz[p] == f[q] && forall|k: int|
                0 <= k < ra.len() && k != p ==> #[trigger] rz[k] == ra[k];
        let h = l[0] + seq![10u8];
        assert(l1[0] == l[0]);
        assert(a == h + ra);
        assert(z == h + rz);
        let p = h.len() + p0;
        assert(a[p] == ra[p0]);
        assert(z[p] == rz[p0]);
        assert(rl[j - 1] == l[j]);
        assert forall|k: int| 0 <= k < a.len() && k != p implies #[trigger] z[k] == a[k] by {
            if k >= h.len() {
                assert(z[k] == rz[k - h.len()]);
                assert(a[k] == ra[k - h.len()]);
            } else {
                assert(z[k] == h[k]);
                assert(a[k] == h[k]);
            }
        }
    }
}

/// Toggling a task box changes exactly one byte, the box mark: the text
/// keeps its length and every other byte.
pub proof fn lemma_toggle_changes_only_the_box(b: Seq<u8>, j: int)
    requires
        forall|k: int| 0 <= k < b.len() ==> #[trigger] b[k] != 13,
        toggled(b, j) is Some,
    ensures
        ({
            let t = toggled(b, j)->0;
            &&& t.len() == b.len()
            &&& exists|p: int|
                0 <= p < b.len() && (#[trigger] b[p] == 32 || b[p] == 120 || b[p] == 88) && t[p] == (
                if b[p] == 32 {
                    120u8
                } else {
                    32u8
                }) && forall|k: int| 0 <= k < b.len() && k != p ==> #[trigger] t[k] == b[k]
        }),
{
    let ls = crate::text::lines_from(b, 0);
    let l = texts_from(b, 0);
    let line = b.subrange(ls[j].0, ls[j].1);
    let (m, c) = task_split(line)->0;
    let f = flipped(line, m, c);
    lemma_task_line_shape(line);
    lemma_flip_flip(line, m, c);
    assert(l[j] == line);
    assert forall|k: int| 0 <= k < f.len() && k != m + 1 implies #[trigger] f[k] == l[j][k] by {
        if k < m {
        } else if k == m || k == m + 2 {
        } else {
            assert(f[k] == line.subrange(m + 3, line.len() as int)[k - m - 3]);
        }
    }
    lemma_join_update(l, j, f, m + 1);
    let l1 = l.update(j, f);
    lemma_join_as_texts(b, ls, 0, j, f);
    assert(Seq::new(
        (ls.len() - 0) as nat,
        |t: int|
            if 0 + t == j {
                f
            } else {
                b.subrange(ls[0 + t].0, ls[0 + t].1)
            },
    ) =~= l1);
    let tail = nl_tail(b);
    let t = toggled(b, j)->0;
    assert(t == join_texts(l1) + tail) by {
        assert(join_texts(l1).push(10) =~= join_texts(l1) + seq![10u8]);
        assert(join_texts(l1) =~= join_texts(l1) + Seq::<u8>::empty());
    }
    lemma_rejoin(b, 0);
    assert(b.subrange(0, b.len() as int) == b);
    let a = join_texts(l);
    let z = join_texts(l1);
    assert(b == a + tail);
    let p = choose|p: int|
        0 <= p < a.len() && #[trigger] a[p] == l[j][m + 1] && z[p] == f[m + 1] && forall|k: int|
            0 <= k < a.len() && k != p ==> #[trigger] z[k] == a[k];
    assert(b[p] == a[p]);
    assert(t[p] == z[p]);
    assert(f[m + 1] == if c { 32u8 } else { 120u8 });
    assert forall|k: int| 0 <= k < b.len() && k != p implies #[trigger] t[k] == b[k] by {
        if k < a.len() {
            assert(t[k] == z[k]);
            assert(b[k] == a[k]);
        } else {
            assert(t[k] == tail[k - a.len()]);
            assert(b[k] == tail[k - a.len()]);
        }
    }
}


/// `n` spaces.
pub open spec fn spaces(n: nat) -> Seq<u8> {
    Seq::new(n, |i: int| 32u8)
}

/// An ASCII letter.
pub open spec fn ascii_letter(x: u8) -> bool {
    (65 <= x && x <= 90) || (97 <= x && x <= 122)
}

proof fn lemma_skip_spaces(x: Seq<u8>, i: int, j: int, e: int)
    requires
        0 <= i <= j < e <= x.len(),
        forall|k: int| i <= k < j ==> #[trigger] x[k] == 32,
        ascii_letter(x[j]),
    ensures
        trim_start_at(x, i, e) == j,
    decreases j - i,
{
    if i < j {
        assert(crate::text::ws_at(x, i) == 1);
        lemma_skip_spaces(x, i + 1, j, e);
    } else {
        assert(crate::text::ws_at(x, j) == 0);
    }
}

proof fn lemma_skip_spaces_back(x: Seq<u8>, a: int, j: int, e: int)
    requires
        0 <= a <= j - 3,
        j <= e <= x.len(),
        forall|k: int| j <= k < e ==> #[trigger] x[k] == 32,
        ascii_letter(x[j - 1]),
        ascii_letter(x[j - 2]),
        ascii_letter(x[j - 3]),
    ensures
        trim_end_at(x, a, e) == j,
    decreases e - j,
{
    if j < e {
        assert(crate::text::ws_before(x, e) == 1);
        lemma_skip_spaces_back(x, a, j, e - 1);
    } else {
        assert(crate::text::ws_before(x, j) == 0);
    }
}

/// Trimming spaces around a word of at least three ASCII letters leaves
/// the word.
proof fn lemma_trim_padded_word(w: Seq<u8>, pre: nat, post: nat)
    requires
        w.len() >= 3,
        forall|k: int| 0 <= k < w.len() ==> ascii_letter(#[trigger] w[k]),
    ensures
        ({
            let x = spaces(pre) + w + spaces(post);
            &&& trim_start_at(x, 0, x.len() as int) == pre
            &&& trim_end_at(x, pre as int, x.len() as int) == pre + w.len()
        }),
{
    let x = spaces(pre) + w + spaces(post);
    let n = x.len() as int;
    let e: int = pre + w.len() as int;
    assert forall|k: int| 0 <= k < pre implies #[trigger] x[k] == 32 by {}
    assert forall|k: int| e <= k < n implies #[trigger] x[k] == 32 by {
        assert(x[k] == spaces(post)[k - e]);
    }
    assert(x[pre as int] == w[0]);
    lemma_skip_spaces(x, 0, pre as int, n);
    assert(x[e - 1] == w[w.len() - 1]);
    assert(x[e - 2] == w[w.len() - 2]);
    assert(x[e - 3] == w[w.len() - 3]);
    lemma_skip_spaces_back(x, pre as int, e, n);
}

/// `parse` reads back every label that `as_str` writes, upper- or
/// lower-cased, with spaces around it.
pub proof fn lemma_alert_label_round_trip(k: AlertKind, pre: nat, post: nat, lowered: bool)
    ensures
        ({
            let w = utf8(k.name());
            let body = if lowered {
                crate::projection::lower_seq(w)
            } else {
                w
            };
            alert_named(spaces(pre) + body + spaces(post)) == Some(k)
        }),
{
    let w = utf8(k.name());
    match k {
        AlertKind::Note => {
            reveal_strlit("NOTE");
            crate::text::lemma_ascii_lit("NOTE");
            assert(w =~= crate::projection::note_word());
        },
        AlertKind::Tip => {
            reveal_strlit("TIP");
            crate::text::lemma_ascii_lit("TIP");
            assert(w =~= crate::projection::tip_word());
        },
        AlertKind::Important => {
            reveal_strlit("IMPORTANT");
            crate::text::lemma_ascii_lit("IMPORTANT");
            assert(w =~= crate::projection::important_word());
        },
        AlertKind::Warning => {
            reveal_strlit("WARNING");
            crate::text::lemma_ascii_lit("WARNING");
            assert(w =~= crate::projection::warning_word());
        },
        AlertKind::Caution => {
            reveal_strlit("CAUTION");
            crate::text::lemma_ascii_lit("CAUTION");
            assert(w =~= crate::projection::caution_word());
        },
    }
    let body = if lowered {
        crate::projection::lower_seq(w)
    } else {
        w
    };
    assert forall|i: int| 0 <= i < body.len() implies ascii_letter(#[trigger] body[i]) && crate::projection::upper(
        body[i],
    ) == w[i] by {}
    lemma_trim_padded_word(body, pre, post);
    let x = spaces(pre) + body + spaces(post);
    let a = pre as int;
    assert forall|i: int| 0 <= i < body.len() implies #[trigger] x[a + i] == body[i] by {}
    assert(crate::projection::upper(x[a + 0]) == w[0]);
    assert(crate::projection::upper_eq(x, a, a + w.len(), w));
}


/* ---------- laws on what each operation is for ---------- */

/// In ranges that tile a text, an earlier range ends where a later one
/// starts or before.
proof fn lemma_tiles_apart(b: Seq<u8>, rs: Seq<PaintRange>, i: int, j: int)
    requires
        tiles(b, rs),
        0 <= i < j < rs.len(),
    ensures
        rs[i].range.end <= rs[j].range.start,
    decreases j - i,
{
    if i + 1 < j {
        lemma_tiles_apart(b, rs, i, j - 1);
        assert(rs[j - 1].range.end == rs[j].range.start);
        assert(rs[j - 1].range.start <= rs[j - 1].range.end);
    } else {
        assert(rs[i].range.end == rs[i + 1].range.start);
    }
}

/// With no selection and the caret inside the text, the raw span is the
/// one paint range that holds the caret: the range `k` with
/// `start <= caret < end`, neither the range that ends at the caret nor
/// the one after it.
pub proof fn lemma_raw_span_is_caret_range(b: Seq<u8>, rs: Seq<PaintRange>, caret: int, k: int)
    requires
        tiles(b, rs),
        0 <= caret < b.len(),
        0 <= k < rs.len(),
        rs[k].range.start <= caret < rs[k].range.end,
    ensures
        raw_span_of(rs, b.len() as int, caret, None) == (rs[k].range.start as int, rs[k].range.end as int),
{
    let n = b.len() as int;
    let p = |r: PaintRange| hot_range(r.range, caret, n, None::<(int, int)>);
    crate::search::lemma_first_index(rs, p, 0);
    crate::search::lemma_last_index(rs, p, rs.len() as int);
    assert(p(rs[k]));
    // Ranges after `k` start past the caret; ranges before it end at or
    // before the start of `k`.
    assert forall|i: int| k < i < rs.len() implies !p(#[trigger] rs[i]) by {
        lemma_tiles_apart(b, rs, k, i);
        assert(rs[i].range.start <= rs[i].range.end);
    }
    assert forall|i: int| 0 <= i < k && #[trigger] p(rs[i]) implies rs[i].range.start == rs[k].range.start by {
        lemma_tiles_apart(b, rs, i, k);
        assert(rs[i].range.start <= rs[i].range.end);
    }
    let a = first_index(rs, p, 0)->0;
    let z = crate::search::last_index(rs, p, rs.len() as int)->0;
    assert(z == k);
    assert(a <= k);
}

/// Moving back over punctuation stops after a byte that is not punctuation,
/// or at the start.
proof fn lemma_punct_end_last(b: Seq<u8>, a: int, e: int)
    requires
        0 <= a <= e <= b.len(),
    ensures
        punct_end(b, a, e) > a ==> !url_punct(b[punct_end(b, a, e) - 1]),
    decreases e - a,
{
    if e > a && url_punct(b[e - 1]) {
        lemma_punct_end_last(b, a, e - 1);
    }
}

/// A byte that starts no link: ASCII, and none of `!`, `[`, `<`, `h`.
pub open spec fn inert_byte(x: u8) -> bool {
    x < 0x80 && x != 33 && x != 91 && x != 60 && x != 104
}

/// Text of inert bytes holds no link: the links from `i` on are those from `j` on.
proof fn lemma_links_skip_inert(b: Seq<u8>, i: int, j: int)
    requires
        0 <= i <= j <= b.len(),
        forall|k: int| i <= k < j ==> inert_byte(#[trigger] b[k]),
    ensures
        links_from(b, i) == links_from(b, j),
    decreases j - i,
{
    if i < j {
        assert(inert_byte(b[i]));
        assert(!http_prefix(b, i)) by {
            let t = b.subrange(i, b.len() as int);
            if has_prefix(t, seq![104u8, 116, 116, 112, 58, 47, 47]) {
                assert(t[0] == seq![104u8, 116, 116, 112, 58, 47, 47][0]);
            }
            if has_prefix(t, seq![104u8, 116, 116, 112, 115, 58, 47, 47]) {
                assert(t[0] == seq![104u8, 116, 116, 112, 115, 58, 47, 47][0]);
            }
        }
        assert(crate::text::lead_width(b[i]) == 1);
        lemma_links_skip_inert(b, i + 1, j);
    }
}

/// A bare `http://` or `https://` URL is cut before trailing sentence
/// punctuation: where one starts at `i`, the first link found from `i` on
/// is that URL (as text and as target), a part of the text from `i` that
/// keeps at least its scheme, whose last byte is none of
/// `.` `,` `;` `:` `!` `?` `"` `'`, and after which only such bytes
/// stand before the URL's end (white space, `)`, `]`, `>` or the end of
/// the text). Where only ASCII bytes other than `!`, `[`, `<` and `h`
/// stand before `i`, it is the first link of the whole text.
pub proof fn lemma_bare_url_trailing_punct(b: Seq<u8>, i: int)
    requires
        0 <= i < b.len(),
        http_prefix(b, i),
    ensures
        links_from(b, i).len() > 0,
        ({
            let (t, u) = links_from(b, i)[0];
            let e = i + u.len();
            &&& t == u
            &&& i + 7 <= e <= b.len()
            &&& u == b.subrange(i, e)
            &&& u.last() != 46 && u.last() != 44 && u.last() != 59 && u.last() != 58
            &&& u.last() != 33 && u.last() != 63 && u.last() != 34 && u.last() != 39
            &&& forall|j: int|
                e <= j < url_end(b, i) ==> {
                    let x = #[trigger] b[j];
                    x == 46 || x == 44 || x == 59 || x == 58 || x == 33 || x == 63 || x == 34
                        || x == 39
                }
        }),
        (forall|k: int| 0 <= k < i ==> inert_byte(#[trigger] b[k])) ==> links_from(b, 0) == links_from(b, i),
{
    let t = b.subrange(i, b.len() as int);
    if has_prefix(t, seq![104u8, 116, 116, 112, 58, 47, 47]) {
        assert(t[0] == seq![104u8, 116, 116, 112, 58, 47, 47][0]);
    } else {
        assert(t[0] == seq![104u8, 116, 116, 112, 115, 58, 47, 47][0]);
    }
    assert(b[i] == 104);
    lemma_bare_url(b, i);
    let ue = bare_url_end(b, i);
    lemma_url_end_bounds(b, i);
    lemma_punct_end(b, i, url_end(b, i));
    lemma_punct_end_last(b, i, url_end(b, i));
    let u = b.subrange(i, ue);
    assert(links_from(b, i) == seq![(u, u)] + links_from(b, ue));
    assert(links_from(b, i)[0] == (u, u));
    assert(u.last() == b[ue - 1]);
    if forall|k: int| 0 <= k < i ==> inert_byte(#[trigger] b[k]) {
        lemma_links_skip_inert(b, 0, i);
    }
}


/// An event that opens and closes nothing: text, inline code, HTML, a
/// break, a task marker.
pub open spec fn inline_event(e: MdSpan) -> bool {
    !(e.event is Start || e.event is LinkStart || e.event is End || e.event is Rule)
}

/// Events that open and close nothing leave both walks where they were.
proof fn lemma_walks_skip_inline(p: Seq<MdSpan>, inner: Seq<MdSpan>)
    requires
        forall|k: int| 0 <= k < inner.len() ==> inline_event(#[trigger] inner[k]),
    ensures
        cover_walk(p + inner) == cover_walk(p),
        split_walk(p + inner) == split_walk(p),
    decreases inner.len(),
{
    if inner.len() == 0 {
        assert(p + inner =~= p);
    } else {
        let q = inner.drop_last();
        assert((p + inner).drop_last() =~= p + q);
        assert((p + inner).last() == inner.last());
        assert(inline_event(inner[inner.len() - 1]));
        lemma_walks_skip_inline(p, q);
    }
}

/// A heading keeps the level the parser reports. Where the events of a
/// text are one top-level heading over the whole text (the start tag
/// `Heading(l)` at offset 0, events that open and close nothing, an end
/// tag at the end of the text), and the text does not start with white
/// space, the text is one block of kind `Heading(l)` holding the text
/// without its trailing line breaks, and one paint range of kind
/// `Heading(l)` over the whole text.
pub proof fn lemma_heading_level_kept(b: Seq<u8>, l: u8, first: MdSpan, inner: Seq<MdSpan>, last: MdSpan)
    requires
        b.len() > 0,
        crate::text::ws_at(b, 0) == 0,
        first.event matches MdEvent::Start(t) && t == MdTag::Heading(l),
        first.start == 0,
        last.event is End,
        last.end == b.len(),
        forall|k: int| 0 <= k < inner.len() ==> inline_event(#[trigger] inner[k]),
    ensures
        ({
            let ev = seq![first] + inner + seq![last];
            &&& block_pieces(b, ev) == seq![
                (BlockKind::Heading(l), b.subrange(0, crate::text::trim_nl_end(b, 0, b.len() as int))),
            ]
            &&& paint_ranges(b, ev) == seq![paint(BlockKind::Heading(l), 0, b.len() as int)]
        }),
{
    let n = b.len() as int;
    let ev = seq![first] + inner + seq![last];
    let f = seq![first];
    lemma_walks_skip_inline(f, inner);
    assert(ev.drop_last() =~= f + inner);
    assert(ev.last() == last);
    assert(f.drop_last() =~= Seq::<MdSpan>::empty());
    assert(f.last() == first);
    // the event walk of the blocks
    assert(cover_walk(f.drop_last()) == (0int, 0usize, BlockKind::Raw, Seq::<Covered>::empty()));
    let c = cover_walk(f);
    assert(c == (1int, 0usize, BlockKind::Heading(l), Seq::<Covered>::empty()));
    let cov = cover_walk(ev).3;
    assert(cov =~= seq![(0usize, last.end, BlockKind::Heading(l))]);
    let x: Covered = (0usize, last.end, BlockKind::Heading(l));
    assert(sort_by_start(Seq::<Covered>::empty()) =~= Seq::<Covered>::empty());
    assert(cov.drop_last() =~= Seq::<Covered>::empty());
    assert(first_index(Seq::<Covered>::empty(), starts_after(x), 0) is None);
    assert(sort_by_start(cov) =~= seq![x]);
    // the event walk of the paint ranges
    assert(split_walk(f.drop_last()) == split_init());
    let w = split_walk(f);
    assert(w == SplitWalk { depth: 1, start: 0usize, kind: BlockKind::Heading(l), open: true, ..split_init() });
    assert(split_walk(ev).cov =~= seq![x]);
    // the block
    assert(seq![x].drop_last() =~= Seq::<Covered>::empty());
    assert(floor_boundary(b, 0) == 0);
    assert(floor_boundary(b, n) == n);
    crate::notion::lemma_trim_nl_end(b, 0, n);
    let te = crate::text::trim_nl_end(b, 0, n);
    assert(te > 0) by {
        if te == 0 {
            assert(crate::text::is_nl(b[0]));
        }
    }
    let src = b.subrange(0, te);
    assert(src[0] == b[0]);
    if te >= 2 {
        assert(src[1] == b[1]);
    }
    if te >= 3 {
        assert(src[2] == b[2]);
    }
    assert(crate::text::ws_at(src, 0) == 0);
    assert(trim_start_at(src, 0, te) == 0);
    assert(!blank_text(src));
    assert(trim_start_at(b, 0, n) == 0);
    assert(!blank_text(b));
    let bw = block_walk(b, seq![x]);
    assert(block_walk(b, Seq::<Covered>::empty()) == (0int, Seq::<Piece>::empty()));
    assert(bw.0 == n);
    assert(bw.1 =~= seq![(BlockKind::Heading(l), src)]);
    // the paint range
    let rw = range_walk(b, seq![x]);
    assert(range_walk(b, Seq::<Covered>::empty()) == (0int, Seq::<PaintRange>::empty()));
    assert(rw.0 == n);
    assert(rw.1 =~= seq![paint(BlockKind::Heading(l), 0, n)]);
}

} // verus!
