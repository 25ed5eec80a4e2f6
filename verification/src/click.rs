//! A click in the rendered document: where the caret and the selection go,
//! which mode the editor lands in, and what else the window must do. A
//! click does not force Insert.
use std::ops::Range;

use vstd::prelude::*;
use vstd::utf8::*;

use crate::config::EditorKind;
use crate::display::{
    clamp_to, span_hi, span_lo, cell_at, seg_link_at, Affinity, BlockExtra, ProjBlock, Projection,
};
use crate::editor::{table_sel_span, TableRect};
use crate::search::first_index;
use crate::text::{at_boundary, floor_boundary, sub_or_empty, utf8};

verus! {

/// Modes of the modal editors (and Insert, which Notion always is in).
#[derive(Clone, Copy, Debug, PartialEq, Eq, Structural)]
pub enum EditMode {
    Normal,
    Insert,
    Visual,
    VisualLine,
    Select,
}

/// What a mouse drag extends by.
#[derive(Clone, Copy, Debug, PartialEq, Eq, Structural)]
pub enum Granularity {
    Char,
    Word,
    Line,
}

/// The editor state a click reads and changes.
#[derive(Debug)]
pub struct ClickState {
    pub caret: usize,
    pub sel: Option<Range<usize>>,
    pub mode: EditMode,
    pub editor: EditorKind,
    pub visual_anchor: Option<usize>,
    pub mouse_anchor: Option<usize>,
    /// The word or line a double or triple click selected.
    pub mouse_unit: Option<Range<usize>>,
    pub granularity: Granularity,
    pub affinity: Affinity,
    /// Cell `(block, row, column)` a table selection started from.
    pub table_anchor: Option<(usize, usize, usize)>,
    pub table_sel: Option<TableRect>,
    /// Display start of the selected image or video block.
    pub media_sel: Option<usize>,
    pub link_open: bool,
    pub view_source: bool,
    pub palette_open: bool,
    pub mouse_dragging: bool,
}

/// What the window does after the click.
#[derive(Clone, Copy, Debug, PartialEq, Eq, Structural)]
pub enum ClickAction {
    /// The click is not for the document (source view, palette open).
    Ignore,
    /// Open the link under the click in the browser.
    OpenLink,
    /// The link under the click is selected: show its bubble.
    SelectLink,
    /// The image or video block starting at this display offset is
    /// selected: show its alt and path fields.
    SelectMedia(usize),
    /// Caret and selection placed: focus the document.
    Place,
}

pub open spec fn umin(a: usize, b: int) -> int {
    if a < b {
        a as int
    } else {
        b
    }
}

/// Caret and selection floored to character boundaries of the display
/// text; an empty selection is dropped.
pub open spec fn clamp_sel(s: ClickState, disp: Seq<u8>) -> ClickState {
    let n = disp.len() as int;
    ClickState {
        caret: floor_boundary(disp, umin(s.caret, n)) as usize,
        sel: match s.sel {
            Some(r) => {
                let a = floor_boundary(disp, umin(r.start, n));
                let e = floor_boundary(disp, umin(r.end, n));
                if a == e {
                    None
                } else {
                    Some(Range { start: a as usize, end: e as usize })
                }
            },
            None => None,
        },
        ..s
    }
}

/// The link under `d`: its display span.
pub open spec fn link_hit(p: Projection, d: int) -> Option<Range<usize>> {
    match first_index(p.segments@, seg_link_at(clamp_to(d, p.dlen())), 0) {
        None => None,
        Some(k) => {
            let g = p.segments@[k];
            let id = g.marks.link->0;
            if id < p.links@.len() {
                Some(
                    Range {
                        start: span_lo(p.segments@, id, p.segments@.len() as int, g.display.start as int)
                            as usize,
                        end: span_hi(p.segments@, id, p.segments@.len() as int, g.display.end as int)
                            as usize,
                    },
                )
            } else {
                None
            }
        },
    }
}

/// An image block, or an HTML block whose source is a video.
pub open spec fn media_block(b: ProjBlock, src: Seq<u8>) -> bool {
    match b.extra {
        BlockExtra::Image { .. } => true,
        BlockExtra::Html => {
            let a = b.source.start as int;
            let e = b.source.end as int;
            &&& a <= e <= src.len() && at_boundary(src, a) && at_boundary(src, e)
            &&& crate::images::video_src(sub_or_empty(src, a, e)) is Some
        },
        _ => false,
    }
}

/// Display start of the media block under `d`.
pub open spec fn media_at(p: Projection, src: Seq<u8>, d: int) -> Option<usize> {
    match p.block_ix_display(d) {
        Some(b) => if media_block(p.blocks@[b], src) {
            Some(p.blocks@[b].display.start)
        } else {
            None
        },
        None => None,
    }
}

/// A block with the source range `r`.
pub open spec fn same_source(r: Range<usize>) -> spec_fn(ProjBlock) -> bool {
    |b: ProjBlock| b.source.start == r.start && b.source.end == r.end
}

/// The table cell under `d`: block index, row, column.
pub open spec fn table_hit(p: Projection, d: int) -> Option<(usize, usize, usize)> {
    match p.block_ix_display(d) {
        Some(b) => match p.blocks@[b].extra {
            BlockExtra::Table { cells, .. } => match first_index(cells@, cell_at(d), 0) {
                Some(k) => {
                    let ix = first_index(p.blocks@, same_source(p.blocks@[b].source), 0)->0;
                    Some((ix as usize, cells@[k].row, cells@[k].col))
                },
                None => None,
            },
            _ => None,
        },
        None => None,
    }
}

/// A plain click: the caret at `d`; the modal editors leave visual and
/// select modes for Normal, Insert stays Insert.
pub open spec fn place_plain(s: ClickState, d: usize) -> ClickState {
    let leave = s.mode != EditMode::Insert && !(s.editor is Notion);
    ClickState {
        caret: d,
        mouse_anchor: Some(d),
        affinity: Affinity::Inside,
        mode: if leave {
            EditMode::Normal
        } else {
            s.mode
        },
        sel: None,
        visual_anchor: if leave {
            None
        } else {
            s.visual_anchor
        },
        mouse_dragging: true,
        ..s
    }
}

/// A shift click: extend from the visual anchor (the caret when there is
/// none) to `d`; Helix selects, Vim goes visual, Notion keeps its mode.
/// The selection runs character-wise (the Notion editor has no line-wise
/// visual mode).
pub open spec fn shift_extend(s: ClickState, n: int, d: usize) -> ClickState {
    let va = match s.visual_anchor {
        Some(a) => a,
        None => s.caret,
    };
    let da = umin(va, n);
    let dc = umin(d, n);
    let lo = if da <= dc {
        da
    } else {
        dc
    };
    let hi = if da <= dc {
        dc
    } else {
        da
    };
    ClickState {
        visual_anchor: Some(va),
        caret: d,
        mode: if s.editor is Helix {
            EditMode::Select
        } else if s.editor is Vim {
            EditMode::Visual
        } else {
            s.mode
        },
        sel: if lo == hi {
            None
        } else {
            Some(Range { start: lo as usize, end: hi as usize })
        },
        mouse_dragging: true,
        ..s
    }
}

/// After the link, media and word checks: table cells, then a plain or a
/// shift click.
pub open spec fn table_part(s: ClickState, p: Projection, d: usize, shift: bool) -> (ClickState, ClickAction) {
    let disp = utf8(p.display@);
    let n = disp.len() as int;
    match table_hit(p, d as int) {
        Some((ix, row, col)) => {
            let anchored = match s.table_anchor {
                Some((aix, _, _)) => shift && aix == ix,
                None => false,
            };
            if anchored {
                let (_, ar, ac) = s.table_anchor->0;
                let rect = TableRect { block_ix: ix, r0: ar, c0: ac, r1: row, c1: col }.normal();
                let sp = table_sel_span(p, Some(rect), d);
                (
                    clamp_sel(
                        ClickState {
                            table_sel: Some(rect),
                            caret: d,
                            sel: Some(Range { start: sp.0 as usize, end: sp.1 as usize }),
                            mouse_dragging: true,
                            ..s
                        },
                        disp,
                    ),
                    ClickAction::Place,
                )
            } else {
                let s2 = ClickState {
                    table_anchor: Some((ix, row, col)),
                    table_sel: Some(TableRect { block_ix: ix, r0: row, c0: col, r1: row, c1: col }),
                    ..s
                };
                if !shift {
                    (clamp_sel(place_plain(s2, d), disp), ClickAction::Place)
                } else {
                    (clamp_sel(shift_extend(s2, n, d), disp), ClickAction::Place)
                }
            }
        },
        None => {
            let s2 = ClickState { table_anchor: None, table_sel: None, ..s };
            if shift {
                (clamp_sel(shift_extend(s2, n, d), disp), ClickAction::Place)
            } else {
                (clamp_sel(place_plain(s2, d), disp), ClickAction::Place)
            }
        },
    }
}

/// Where a click at display offset `d` leaves the editor. `unit` is the
/// word (double click) or line (triple click) around `d`.
pub open spec fn click_of(
    s: ClickState,
    p: Projection,
    src: Seq<u8>,
    d: usize,
    shift: bool,
    cmd: bool,
    clicks: usize,
    unit: Option<Range<usize>>,
) -> (ClickState, ClickAction) {
    let disp = utf8(p.display@);
    if s.view_source || s.palette_open {
        (s, ClickAction::Ignore)
    } else {
        let s0 = ClickState { link_open: false, ..s };
        if !shift && link_hit(p, d as int) is Some && (cmd || clicks == 1) {
            if cmd {
                (s0, ClickAction::OpenLink)
            } else {
                let rg = link_hit(p, d as int)->0;
                (
                    clamp_sel(
                        ClickState { caret: rg.end, sel: Some(rg), mouse_dragging: false, ..s0 },
                        disp,
                    ),
                    ClickAction::SelectLink,
                )
            }
        } else if clicks == 1 && !shift && !cmd && media_at(p, src, d as int) is Some {
            let start = media_at(p, src, d as int)->0;
            (
                clamp_sel(
                    ClickState {
                        media_sel: Some(start),
                        caret: start,
                        sel: None,
                        mouse_dragging: false,
                        ..s0
                    },
                    disp,
                ),
                ClickAction::SelectMedia(start),
            )
        } else {
            let s1 = if clicks == 1 && !shift && !cmd {
                ClickState { media_sel: None, ..s0 }
            } else {
                s0
            };
            if clicks >= 2 && !shift && unit is Some && unit->0.start < unit->0.end {
                let r = unit->0;
                (
                    clamp_sel(
                        ClickState {
                            caret: r.end,
                            mouse_anchor: Some(r.start),
                            mouse_unit: Some(r),
                            sel: Some(r),
                            granularity: if clicks >= 3 {
                                Granularity::Line
                            } else {
                                Granularity::Word
                            },
                            affinity: Affinity::Inside,
                            mouse_dragging: true,
                            ..s1
                        },
                        disp,
                    ),
                    ClickAction::Place,
                )
            } else {
                table_part(
                    ClickState { granularity: Granularity::Char, mouse_unit: None, ..s1 },
                    p,
                    d,
                    shift,
                )
            }
        }
    }
}

/* ---------- the steps ---------- */

fn clamp_exec(s: ClickState, p: &Projection) -> (r: ClickState)
    ensures
        r == clamp_sel(s, utf8(p.display@)),
{
    let disp = p.display.as_str();
    let n: usize = crate::text::bytes_of(disp).len();
    let caret = crate::display::floor_char_boundary(disp, if s.caret < n {
        s.caret
    } else {
        n
    });
    let sel = match &s.sel {
        Some(r) => {
            let a = crate::display::floor_char_boundary(disp, if r.start < n {
                r.start
            } else {
                n
            });
            let e = crate::display::floor_char_boundary(disp, if r.end < n {
                r.end
            } else {
                n
            });
            if a == e {
                None
            } else {
                Some(a..e)
            }
        },
        None => None,
    };
    ClickState { caret, sel, ..s }
}

fn link_hit_exec(p: &Projection, d: usize) -> (r: Option<Range<usize>>)
    ensures
        r == link_hit(*p, d as int),
{
    match p.link_at(d) {
        Some((rg, _)) => Some(rg.start..rg.end),
        None => None,
    }
}

fn media_at_exec(p: &Projection, src: &str, d: usize) -> (r: Option<usize>)
    ensures
        r == media_at(*p, utf8(src@), d as int),
{
    let b = match p.block_at_display(d) {
        Some(b) => b,
        None => {
            return None;
        },
    };
    let media = match &b.extra {
        BlockExtra::Image { .. } => true,
        BlockExtra::Html => {
            let sb = crate::text::bytes_of(src);
            let a = b.source.start;
            let e = b.source.end;
            if a <= e && e <= sb.len() && crate::text::is_boundary(sb, a) && crate::text::is_boundary(
                sb,
                e,
            ) {
                let raw = crate::text::substr(src, a, e);
                crate::images::parse_video_src(raw).is_some()
            } else {
                false
            }
        },
        _ => false,
    };
    if media {
        Some(b.display.start)
    } else {
        None
    }
}

fn table_hit_exec(p: &Projection, d: usize) -> (r: Option<(usize, usize, usize)>)
    ensures
        r == table_hit(*p, d as int),
{
    let bi = p.block_index_at_display(d);
    let (block, cell) = match p.table_cell_at(d) {
        Some(x) => x,
        None => {
            return None;
        },
    };
    let ghost b = p.block_ix_display(d as int)->0;
    assert(bi == Some(b as usize));
    let ghost pr = same_source(block.source);
    proof {
        match p.blocks@[b].extra {
            BlockExtra::Table { cells, .. } => {
                let k = first_index(cells@, cell_at(d as int), 0);
                assert(k is Some);
                assert(*cell == cells@[k->0]);
            },
            _ => {},
        }
        assert(table_hit(*p, d as int) matches Some((_, rr, cc)) && rr == cell.row && cc == cell.col);
    }
    let mut ix: usize = 0;
    while ix < p.blocks.len()
        invariant
            ix <= p.blocks@.len(),
            0 <= b < p.blocks@.len(),
            *block == p.blocks@[b],
            pr == same_source(block.source),
            first_index(p.blocks@, pr, 0) == first_index(p.blocks@, pr, ix as int),
            ix <= b,
            p.block_ix_display(d as int) == Some(b),
            table_hit(*p, d as int) matches Some((_, rr, cc)) && rr == cell.row && cc == cell.col,
        decreases p.blocks@.len() - ix,
    {
        assert(pr(p.blocks@[ix as int]) == (p.blocks@[ix as int].source.start == block.source.start
            && p.blocks@[ix as int].source.end == block.source.end));
        if p.blocks[ix].source.start == block.source.start && p.blocks[ix].source.end
            == block.source.end {
            assert(first_index(p.blocks@, pr, ix as int) == Some(ix as int));
            assert(first_index(p.blocks@, same_source(p.blocks@[b].source), 0) == Some(ix as int));
            return Some((ix, cell.row, cell.col));
        }
        ix += 1;
    }
    assert(pr(p.blocks@[b]));
    None
}

fn place_plain_exec(s: ClickState, d: usize) -> (r: ClickState)
    ensures
        r == place_plain(s, d),
{
    let leave = s.mode != EditMode::Insert && s.editor.is_modal();
    let mode = if leave {
        EditMode::Normal
    } else {
        s.mode
    };
    let visual_anchor = if leave {
        None
    } else {
        s.visual_anchor
    };
    ClickState {
        caret: d,
        mouse_anchor: Some(d),
        affinity: Affinity::Inside,
        mode,
        sel: None,
        visual_anchor,
        mouse_dragging: true,
        ..s
    }
}

fn shift_extend_exec(s: ClickState, n: usize, d: usize) -> (r: ClickState)
    ensures
        r == shift_extend(s, n as int, d),
{
    let va = match s.visual_anchor {
        Some(a) => a,
        None => s.caret,
    };
    let da = if va < n {
        va
    } else {
        n
    };
    let dc = if d < n {
        d
    } else {
        n
    };
    let lo = if da <= dc {
        da
    } else {
        dc
    };
    let hi = if da <= dc {
        dc
    } else {
        da
    };
    let mode = match s.editor {
        EditorKind::Helix => EditMode::Select,
        EditorKind::Vim => EditMode::Visual,
        EditorKind::Notion => s.mode,
    };
    let sel = if lo == hi {
        None
    } else {
        Some(lo..hi)
    };
    ClickState { visual_anchor: Some(va), caret: d, mode, sel, mouse_dragging: true, ..s }
}

fn table_part_exec(s: ClickState, p: &Projection, d: usize, shift: bool) -> (r: (ClickState, ClickAction))
    ensures
        r == table_part(s, *p, d, shift),
{
    let n: usize = crate::text::bytes_of(p.display.as_str()).len();
    match table_hit_exec(p, d) {
        Some((ix, row, col)) => {
            let matched = match s.table_anchor {
                Some((aix, _, _)) => shift && aix == ix,
                None => false,
            };
            if matched {
                let (_, ar, ac) = s.table_anchor.unwrap();
                let rect = TableRect { block_ix: ix, r0: ar, c0: ac, r1: row, c1: col }.normalize();
                let sp = crate::editor::table_sel_display_range(p, Some(rect), d);
                (
                    clamp_exec(
                        ClickState {
                            table_sel: Some(rect),
                            caret: d,
                            sel: Some(sp.start..sp.end),
                            mouse_dragging: true,
                            ..s
                        },
                        p,
                    ),
                    ClickAction::Place,
                )
            } else {
                let s2 = ClickState {
                    table_anchor: Some((ix, row, col)),
                    table_sel: Some(TableRect { block_ix: ix, r0: row, c0: col, r1: row, c1: col }),
                    ..s
                };
                if !shift {
                    (clamp_exec(place_plain_exec(s2, d), p), ClickAction::Place)
                } else {
                    (clamp_exec(shift_extend_exec(s2, n, d), p), ClickAction::Place)
                }
            }
        },
        None => {
            let s2 = ClickState { table_anchor: None, table_sel: None, ..s };
            if shift {
                (clamp_exec(shift_extend_exec(s2, n, d), p), ClickAction::Place)
            } else {
                (clamp_exec(place_plain_exec(s2, d), p), ClickAction::Place)
            }
        },
    }
}

/// A click at display offset `d` with `clicks` quick clicks: the editor
/// state after it and what the window must do. `src` is the file, `unit`
/// the word (double click) or line (triple click) around `d`.
pub fn click_step(
    st: ClickState,
    p: &Projection,
    src: &str,
    d: usize,
    shift: bool,
    cmd: bool,
    clicks: usize,
    unit: Option<Range<usize>>,
) -> (r: (ClickState, ClickAction))
    ensures
        r == click_of(st, *p, utf8(src@), d, shift, cmd, clicks, unit),
{
    if st.view_source || st.palette_open {
        return (st, ClickAction::Ignore);
    }
    let s0 = ClickState { link_open: false, ..st };
    let link = if !shift && (cmd || clicks == 1) {
        link_hit_exec(p, d)
    } else {
        None
    };
    if let Some(rg) = link {
        if cmd {
            return (s0, ClickAction::OpenLink);
        }
        let sel = rg.start..rg.end;
        return (
            clamp_exec(ClickState { caret: rg.end, sel: Some(sel), mouse_dragging: false, ..s0 }, p),
            ClickAction::SelectLink,
        );
    }
    let plain = clicks == 1 && !shift && !cmd;
    if plain {
        if let Some(start) = media_at_exec(p, src, d) {
            return (
                clamp_exec(
                    ClickState {
                        media_sel: Some(start),
                        caret: start,
                        sel: None,
                        mouse_dragging: false,
                        ..s0
                    },
                    p,
                ),
                ClickAction::SelectMedia(start),
            );
        }
    }
    let s1 = if plain {
        ClickState { media_sel: None, ..s0 }
    } else {
        s0
    };
    if clicks >= 2 && !shift {
        if let Some(r) = unit {
            if r.start < r.end {
                let gran = if clicks >= 3 {
                    Granularity::Line
                } else {
                    Granularity::Word
                };
                let st2 = ClickState {
                    caret: r.end,
                    mouse_anchor: Some(r.start),
                    mouse_unit: Some(r.start..r.end),
                    sel: Some(r.start..r.end),
                    granularity: gran,
                    affinity: Affinity::Inside,
                    mouse_dragging: true,
                    ..s1
                };
                return (clamp_exec(st2, p), ClickAction::Place);
            }
        }
    }
    table_part_exec(ClickState { granularity: Granularity::Char, mouse_unit: None, ..s1 }, p, d, shift)
}

/* ---------- what a click never does ---------- */

/// A click does not force Insert: the editor ends in Insert only when it
/// was in Insert, and a click that is not ignored closes the link bubble.
pub proof fn lemma_click_never_forces_insert(
    s: ClickState,
    p: Projection,
    src: Seq<u8>,
    d: usize,
    shift: bool,
    cmd: bool,
    clicks: usize,
    unit: Option<Range<usize>>,
)
    ensures
        ({
            let (t, a) = click_of(s, p, src, d, shift, cmd, clicks, unit);
            &&& t.mode == EditMode::Insert ==> s.mode == EditMode::Insert
            &&& a != ClickAction::Ignore ==> !t.link_open
            &&& a == ClickAction::Ignore ==> t == s
        }),
{
}

} // verus!
