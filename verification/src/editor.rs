//! Window chrome text and editor helpers on plain text.
use std::ops::Range;

use vstd::prelude::*;

use vstd::utf8::*;

use crate::display::{BlockExtra, ProjBlock, Projection, TableCell};
use crate::document::BlockKind;
use crate::text::{first_match, matches_at, utf8};

verus! {

/// The file name shown for `path`, or `untitled`.
pub open spec fn shown_name(path: Seq<u8>) -> Seq<u8> {
    match crate::images::file_name_span(path) {
        Some((s, e)) => path.subrange(s, e),
        None => utf8("untitled"@),
    }
}

/// `• {name} — crabmd` for a file with unsaved changes, else `{name} — crabmd`.
pub open spec fn title_of(path: Seq<u8>, dirty: bool) -> Seq<u8> {
    if dirty {
        utf8("• "@) + shown_name(path) + utf8(" — crabmd"@)
    } else {
        shown_name(path) + utf8(" — crabmd"@)
    }
}

pub fn window_title(path: &str, dirty: bool) -> (r: String)
    ensures
        utf8(r@) == title_of(utf8(path@), dirty),
{
    let b = crate::text::bytes_of(path);
    let n: usize = b.len();
    let name: Vec<u8> = match crate::images::file_name_exec(b) {
        Some((s, e)) => {
            proof {
                crate::images::lemma_file_name_bounds(b@);
                crate::images::lemma_file_name_valid(b@);
            }
            let v = crate::text::slice_vec(b, s, e);
            assert(valid_utf8(v@));
            v
        },
        None => {
            let u = crate::text::bytes_of("untitled");
            let v = crate::text::slice_vec(u, 0, u.len());
            assert(u@.subrange(0, u@.len() as int) =~= u@);
            assert(valid_utf8(v@));
            v
        },
    };
    let dot = crate::text::bytes_of("• ");
    let tail = crate::text::bytes_of(" — crabmd");
    let mut out: Vec<u8> = Vec::new();
    if dirty {
        crate::text::extend_from(&mut out, dot, 0, dot.len());
    }
    let ghost mid = out@;
    crate::text::extend_from(&mut out, name.as_slice(), 0, name.len());
    crate::text::extend_from(&mut out, tail, 0, tail.len());
    proof {
        assert(dot@.subrange(0, dot@.len() as int) =~= dot@);
        assert(name@.subrange(0, name@.len() as int) =~= name@);
        assert(tail@.subrange(0, tail@.len() as int) =~= tail@);
        if !dirty {
            assert(mid =~= Seq::<u8>::empty());
        }
        assert(out@ =~= mid + name@ + tail@);
        crate::text::lemma_ascii_valid(Seq::<u8>::empty());
        crate::text::lemma_valid_concat(mid, name@);
        crate::text::lemma_valid_concat(mid + name@, tail@);
    }
    crate::text::string_of_bytes(out)
}

/* ---------- table selection ---------- */

/// A rectangle of table cells between two corners (in any order).
#[derive(Clone, Copy, Debug, PartialEq, Eq, Structural)]
pub struct TableRect {
    pub block_ix: usize,
    pub r0: usize,
    pub c0: usize,
    pub r1: usize,
    pub c1: usize,
}

pub open spec fn umin(a: usize, b: usize) -> usize {
    if a <= b {
        a
    } else {
        b
    }
}

pub open spec fn umax(a: usize, b: usize) -> usize {
    if a <= b {
        b
    } else {
        a
    }
}

impl TableRect {
    /// Corners ordered: `(r0, c0)` top left, `(r1, c1)` bottom right.
    pub open spec fn normal(self) -> TableRect {
        TableRect {
            block_ix: self.block_ix,
            r0: umin(self.r0, self.r1),
            c0: umin(self.c0, self.c1),
            r1: umax(self.r0, self.r1),
            c1: umax(self.c0, self.c1),
        }
    }

    pub fn normalize(self) -> (r: TableRect)
        ensures
            r == self.normal(),
    {
        TableRect {
            block_ix: self.block_ix,
            r0: if self.r0 <= self.r1 {
                self.r0
            } else {
                self.r1
            },
            c0: if self.c0 <= self.c1 {
                self.c0
            } else {
                self.c1
            },
            r1: if self.r0 <= self.r1 {
                self.r1
            } else {
                self.r0
            },
            c1: if self.c0 <= self.c1 {
                self.c1
            } else {
                self.c0
            },
        }
    }

    pub fn contains(self, row: usize, col: usize) -> (r: bool)
        ensures
            r == (self.normal().r0 <= row <= self.normal().r1 && self.normal().c0 <= col
                <= self.normal().c1),
    {
        let n = self.normalize();
        row >= n.r0 && row <= n.r1 && col >= n.c0 && col <= n.c1
    }

    /// More than one cell.
    pub fn is_multi(self) -> (r: bool)
        ensures
            r == (self.r0 != self.r1 || self.c0 != self.c1),
    {
        let n = self.normalize();
        n.r0 != n.r1 || n.c0 != n.c1
    }

    pub fn row_count(self) -> (r: usize)
        requires
            self.normal().r1 - self.normal().r0 < usize::MAX,
        ensures
            r == self.normal().r1 - self.normal().r0 + 1,
    {
        let n = self.normalize();
        n.r1 - n.r0 + 1
    }

    pub fn col_count(self) -> (r: usize)
        requires
            self.normal().c1 - self.normal().c0 < usize::MAX,
        ensures
            r == self.normal().c1 - self.normal().c0 + 1,
    {
        let n = self.normalize();
        n.c1 - n.c0 + 1
    }
}

/// Display span `(start, end)` of the cells among `cells[0..k]` inside
/// `rect`; `start` stays `usize::MAX` when none is.
pub open spec fn cells_span(cells: Seq<TableCell>, rect: TableRect, k: int) -> (int, int)
    decreases k,
{
    if k <= 0 {
        (usize::MAX as int, 0)
    } else {
        let (a, e) = cells_span(cells, rect, k - 1);
        let c = cells[k - 1];
        let n = rect.normal();
        if n.r0 <= c.row <= n.r1 && n.c0 <= c.col <= n.c1 {
            (
                if c.display.start < a {
                    c.display.start as int
                } else {
                    a
                },
                if c.display.end > e {
                    c.display.end as int
                } else {
                    e
                },
            )
        } else {
            (a, e)
        }
    }
}

/// Display range of a table cell selection: from the first to the last
/// selected cell of its table, or the caret when nothing is selected.
pub open spec fn table_sel_span(p: Projection, sel: Option<TableRect>, caret: usize) -> (int, int) {
    match sel {
        None => (caret as int, caret as int),
        Some(rect) => if rect.block_ix >= p.blocks@.len() {
            (caret as int, caret as int)
        } else {
            match p.blocks@[rect.block_ix as int].extra {
                BlockExtra::Table { cells, .. } => {
                    let (a, e) = cells_span(cells@, rect.normal(), cells@.len() as int);
                    if a == usize::MAX {
                        (caret as int, caret as int)
                    } else {
                        (a, e)
                    }
                },
                _ => (caret as int, caret as int),
            }
        },
    }
}

/// Display range covered by the table cell selection `table_sel`.
pub fn table_sel_display_range(p: &Projection, table_sel: Option<TableRect>, caret: usize) -> (r:
    Range<usize>)
    ensures
        (r.start as int, r.end as int) == table_sel_span(*p, table_sel, caret),
{
    let rect = match table_sel {
        Some(r) => r.normalize(),
        None => {
            return caret..caret;
        },
    };
    if rect.block_ix >= p.blocks.len() {
        return caret..caret;
    }
    let cells = match &p.blocks[rect.block_ix].extra {
        BlockExtra::Table { cells, .. } => cells,
        _ => {
            return caret..caret;
        },
    };
    let mut start: usize = usize::MAX;
    let mut end: usize = 0;
    let mut k: usize = 0;
    while k < cells.len()
        invariant
            k <= cells@.len(),
            rect.normal() == rect,
            (start as int, end as int) == cells_span(cells@, rect, k as int),
        decreases cells@.len() - k,
    {
        let c = &cells[k];
        if rect.contains(c.row, c.col) {
            if c.display.start < start {
                start = c.display.start;
            }
            if c.display.end > end {
                end = c.display.end;
            }
        }
        k += 1;
    }
    if start == usize::MAX {
        caret..caret
    } else {
        start..end
    }
}

/* ---------- line and column ---------- */

/// Start of the `k`-th line (from 0) at or after `i`, lines as
/// `split_inclusive('\n')` cuts them; nothing past the last line.
pub open spec fn nth_line_start(b: Seq<u8>, i: int, k: nat) -> Option<int>
    decreases b.len() - i, k,
{
    if i < 0 || i >= b.len() {
        None
    } else if k == 0 {
        Some(i)
    } else {
        proof {
            crate::text::lemma_line_end(b, i);
        }
        nth_line_start(b, crate::frontmatter::incl_end(b, i), (k - 1) as nat)
    }
}

/// `i` moved forward by up to `n` characters, not past `e`.
pub open spec fn char_advance(b: Seq<u8>, i: int, e: int, n: nat) -> int
    decreases n,
{
    if n == 0 || i >= e || i < 0 || i >= b.len() {
        i
    } else {
        char_advance(b, i + crate::text::lead_width(b[i]), e, (n - 1) as nat)
    }
}

/// Byte offset of 1-based `line:col` (0 counts as 1): the column-th
/// character of the line, or its end; the end of the source past the last line.
pub open spec fn line_col_offset(b: Seq<u8>, line: usize, col: usize) -> int {
    let l = if line < 1 {
        1
    } else {
        line
    };
    let c = if col < 1 {
        1
    } else {
        col
    };
    match nth_line_start(b, 0, (l - 1) as nat) {
        None => b.len() as int,
        Some(s) => char_advance(b, s, crate::text::line_end(b, s), (c - 1) as nat),
    }
}

pub fn source_offset_for_line_col(source: &str, line: usize, col: usize) -> (r: usize)
    ensures
        r as int == line_col_offset(utf8(source@), line, col),
{
    let b = crate::text::bytes_of(source);
    let n: usize = b.len();
    let l: usize = if line < 1 {
        1
    } else {
        line
    };
    let c: usize = if col < 1 {
        1
    } else {
        col
    };
    let mut i: usize = 0;
    let mut k: usize = l - 1;
    while k > 0
        invariant
            i <= n == b@.len(),
            b@ == utf8(source@),
            l == (if line < 1 {
                1
            } else {
                line
            }),
            nth_line_start(b@, 0, (l - 1) as nat) == nth_line_start(b@, i as int, k as nat),
            valid_utf8(b@),
            crate::text::at_boundary(b@, i as int),
        decreases k,
    {
        if i >= n {
            return n;
        }
        let le = crate::text::line_end_idx(b, i);
        proof {
            crate::text::lemma_line_end(b@, i as int);
            if le < n {
                crate::text::lemma_after_ascii(b@, le as int);
            }
        }
        i = if le < n {
            le + 1
        } else {
            n
        };
        k -= 1;
    }
    if i >= n {
        return n;
    }
    let e = crate::text::line_end_idx(b, i);
    let mut j: usize = i;
    let mut m: usize = c - 1;
    proof {
        crate::text::lemma_line_end(b@, i as int);
    }
    while m > 0 && j < e
        invariant
            i <= j <= e <= n == b@.len(),
            valid_utf8(b@),
            crate::text::at_boundary(b@, j as int),
            e == crate::text::line_end(b@, i as int),
            e < n ==> b@[e as int] == 10,
            char_advance(b@, i as int, e as int, (c - 1) as nat) == char_advance(
                b@,
                j as int,
                e as int,
                m as nat,
            ),
        decreases m,
    {
        proof {
            crate::text::lemma_scalar_end(b@, j as int);
        }
        let x = b[j];
        let w: usize = if x <= 0x7f {
            1
        } else if 0xc0 <= x && x <= 0xdf {
            2
        } else if 0xe0 <= x && x <= 0xef {
            3
        } else {
            4
        };
        proof {
            if j + w > e && e < n {
                // the line break at `e` is ASCII, so no character runs over it
                assert(!is_continuation_byte(b@[e as int]));
            }
        }
        j = j + w;
        m -= 1;
    }
    j
}

/// `raw` opens with a `<video` tag (any case, after white space).
pub open spec fn bare_video(raw: Seq<u8>) -> bool {
    crate::text::has_prefix(
        crate::projection::lower_seq(crate::frontmatter::trim_start_bytes(raw)),
        crate::images::video_open(),
    )
}

/// True when `raw` is a bare `<video …>` line (any attributes): the parser
/// often files these as inline HTML in a paragraph rather than an HTML block.
pub fn is_bare_video(raw: &str) -> (r: bool)
    ensures
        r == bare_video(utf8(raw@)),
{
    let b = crate::text::bytes_of(raw);
    let n: usize = b.len();
    let a = crate::text::trim_start_idx(b, 0, n);
    let t = crate::text::slice_vec(b, a, n);
    let low = crate::projection::ascii_lower(t.as_slice());
    let vo: [u8; 6] = [60, 118, 105, 100, 101, 111];
    assert(vo@ =~= crate::images::video_open());
    crate::text::has_prefix_exec(low.as_slice(), vo.as_slice())
}

/// Width of the leading spaces (1 each) and tabs (2 each) of `line`.
pub open spec fn indent_w(b: Seq<u8>, i: int) -> int
    decreases b.len() - i,
{
    if i < 0 || i >= b.len() {
        0
    } else if b[i] == 32 {
        1 + indent_w(b, i + 1)
    } else if b[i] == 9 {
        2 + indent_w(b, i + 1)
    } else {
        0
    }
}

proof fn lemma_indent_w(b: Seq<u8>, i: int)
    requires
        0 <= i <= b.len(),
    ensures
        0 <= indent_w(b, i) <= 2 * (b.len() - i),
    decreases b.len() - i,
{
    if i < b.len() && (b[i] == 32 || b[i] == 9) {
        lemma_indent_w(b, i + 1);
    }
}

/// Indent width of a display line, capped at the top of `usize`.
pub fn indent_width(line: &str) -> (r: usize)
    ensures
        r as int == if indent_w(utf8(line@), 0) <= usize::MAX {
            indent_w(utf8(line@), 0)
        } else {
            usize::MAX as int
        },
{
    let b = crate::text::bytes_of(line);
    let n: usize = b.len();
    let mut i: usize = 0;
    let mut w: usize = 0;
    while i < n && (b[i] == 32 || b[i] == 9)
        invariant
            i <= n == b@.len(),
            w as int == if indent_w(b@, 0) - indent_w(b@, i as int) <= usize::MAX {
                indent_w(b@, 0) - indent_w(b@, i as int)
            } else {
                usize::MAX as int
            },
            indent_w(b@, 0) >= indent_w(b@, i as int),
        decreases n - i,
    {
        let add: usize = if b[i] == 32 {
            1
        } else {
            2
        };
        proof {
            lemma_indent_w(b@, i + 1);
        }
        w = w.saturating_add(add);
        i += 1;
    }
    w
}


/* ---------- search matches ---------- */

/// Most matches counted, so a huge file and a one-letter query cannot
/// stall a frame.
pub const MATCH_CAP: usize = 2000;

/// Matches of `q` in `d` from `from` on, each search resuming after the
/// previous match, once `k` are already counted.
pub open spec fn matches_from(d: Seq<u8>, q: Seq<u8>, from: int, k: nat) -> Seq<(int, int)>
    decreases d.len() + 1 - from,
{
    if q.len() == 0 || k >= MATCH_CAP || from < 0 || from > d.len() {
        Seq::empty()
    } else {
        match first_match(d, q, from, d.len() as int) {
            None => Seq::empty(),
            Some(i) => {
                proof {
                    crate::text::lemma_first_match_props(d, q, from, d.len() as int);
                }
                seq![(i, i + q.len())] + matches_from(d, q, i + q.len(), k + 1)
            },
        }
    }
}

/// The ranges as pairs of integers.
pub open spec fn range_pairs(r: Seq<Range<usize>>) -> Seq<(int, int)> {
    r.map_values(|x: Range<usize>| (x.start as int, x.end as int))
}

/// All non-overlapping matches of `query` in the display text `display`,
/// left to right, at most [`MATCH_CAP`] of them; none for an empty query.
pub fn search_all_matches(display: &str, query: &str) -> (r: Vec<Range<usize>>)
    ensures
        range_pairs(r@) == matches_from(utf8(display@), utf8(query@), 0, 0),
{
    let d = crate::text::bytes_of(display);
    let q = crate::text::bytes_of(query);
    let n: usize = d.len();
    let ql: usize = q.len();
    let mut out: Vec<Range<usize>> = Vec::new();
    if ql == 0 {
        proof {
            assert(range_pairs(out@) =~= Seq::<(int, int)>::empty());
        }
        return out;
    }
    let mut from: usize = 0;
    loop
        invariant
            from <= n == d@.len(),
            ql == q@.len() > 0,
            out@.len() <= MATCH_CAP,
            matches_from(d@, q@, 0, 0) == range_pairs(out@) + matches_from(
                d@,
                q@,
                from as int,
                out@.len(),
            ),
        ensures
            matches_from(d@, q@, 0, 0) == range_pairs(out@),
        decreases n + 1 - from,
    {
        if out.len() >= MATCH_CAP {
            proof {
                assert(range_pairs(out@) + Seq::<(int, int)>::empty() =~= range_pairs(out@));
            }
            break;
        }
        proof {
            crate::text::lemma_first_match_props(d@, q@, from as int, n as int);
        }
        match crate::text::find_seq(d, q, from, n) {
            None => {
                proof {
                    assert(range_pairs(out@) + Seq::<(int, int)>::empty() =~= range_pairs(out@));
                }
                break;
            },
            Some(i) => {
                let ghost before = out@;
                out.push(i..i + ql);
                proof {
                    assert(range_pairs(out@) =~= range_pairs(before) + seq![(i as int, i + ql)]);
                    assert(range_pairs(before) + matches_from(d@, q@, from as int, before.len())
                        =~= range_pairs(out@) + matches_from(d@, q@, i + ql, out@.len()));
                }
                from = i + ql;
            },
        }
    }
    out
}

/// The matches found are real, left to right and apart; below the cap
/// no occurrence is left after the last one.
pub proof fn lemma_matches_are_found(d: Seq<u8>, q: Seq<u8>, from: int, k: nat)
    requires
        q.len() > 0,
        0 <= from,
    ensures
        ({
            let m = matches_from(d, q, from, k);
            &&& m.len() + k <= MATCH_CAP || m.len() == 0
            &&& forall|i: int| 0 <= i < m.len() ==> matches_at(d, #[trigger] m[i].0, q) && m[i].1 == m[i].0
                + q.len() && from <= m[i].0
            &&& forall|i: int, j: int| 0 <= i < j < m.len() ==> #[trigger] m[i].1 <= #[trigger] m[j].0
            &&& m.len() + k < MATCH_CAP ==> forall|t: int|
                #![trigger matches_at(d, t, q)]
                (if m.len() == 0 {
                    from
                } else {
                    m.last().1
                }) <= t ==> !matches_at(d, t, q)
        }),
    decreases d.len() + 1 - from,
{
    let m = matches_from(d, q, from, k);
    if k >= MATCH_CAP || from > d.len() {
        if from > d.len() {
            assert forall|t: int| from <= t implies !matches_at(d, t, q) by {}
        }
    } else {
        crate::text::lemma_first_match_props(d, q, from, d.len() as int);
        match first_match(d, q, from, d.len() as int) {
            None => {},
            Some(i) => {
                let e = i + q.len();
                lemma_matches_are_found(d, q, e, k + 1);
                let rest = matches_from(d, q, e, k + 1);
                assert(m == seq![(i, e)] + rest);
                assert forall|a: int, b: int| 0 <= a < b < m.len() implies #[trigger] m[a].1 <= #[trigger] m[b].0 by {
                    if a > 0 {
                        assert(m[a] == rest[a - 1]);
                    }
                    assert(m[b] == rest[b - 1]);
                }
                assert forall|a: int| 0 <= a < m.len() implies matches_at(d, #[trigger] m[a].0, q)
                    && m[a].1 == m[a].0 + q.len() && from <= m[a].0 by {
                    if a > 0 {
                        assert(m[a] == rest[a - 1]);
                    }
                }
                if rest.len() > 0 {
                    assert(m.last() == rest.last());
                }
            },
        }
    }
}

/// A match that starts at or after `caret`.
pub open spec fn starts_from(caret: usize) -> spec_fn(Range<usize>) -> bool {
    |r: Range<usize>| r.start >= caret
}

/// Footer counter: `(current, total)` where current (from 1) is the first
/// match at or after the caret, or the first match when none is.
pub open spec fn match_position(m: Seq<Range<usize>>, caret: usize) -> Option<(int, int)> {
    if m.len() == 0 {
        None
    } else {
        let cur = match crate::search::first_index(m, starts_from(caret), 0) {
            Some(i) => i,
            None => 0,
        };
        Some((cur + 1, m.len() as int))
    }
}

/// `(current_1_based, total)` for the footer counter; `None` without matches.
pub fn search_position(matches: &[Range<usize>], caret: usize) -> (r: Option<(usize, usize)>)
    ensures
        match match_position(matches@, caret) {
            None => r is None,
            Some((c, t)) => r == Some((c as usize, t as usize)),
        },
{
    let total = matches.len();
    if total == 0 {
        return None;
    }
    let ghost p = starts_from(caret);
    let mut i: usize = 0;
    while i < total
        invariant
            i <= total == matches@.len(),
            p == starts_from(caret),
            crate::search::first_index(matches@, p, 0) == crate::search::first_index(
                matches@,
                p,
                i as int,
            ),
        decreases total - i,
    {
        assert(p(matches@[i as int]) == (matches@[i as int].start >= caret));
        if matches[i].start >= caret {
            return Some((i + 1, total));
        }
        i += 1;
    }
    Some((1, total))
}

/* ---------- heading jumps ---------- */

/// A block whose display range holds `d`.
pub open spec fn holds_display(d: usize) -> spec_fn(ProjBlock) -> bool {
    |b: ProjBlock| b.display.start <= d && d <= b.display.end
}

pub open spec fn is_heading(k: BlockKind) -> bool {
    k is Heading
}

/// Walk forward from block `ix` until `left` headings are passed or the
/// last block is reached.
pub open spec fn heading_walk_fwd(bs: Seq<ProjBlock>, ix: int, left: int) -> int
    decreases bs.len() - ix,
{
    if left <= 0 || ix + 1 >= bs.len() {
        ix
    } else {
        heading_walk_fwd(
            bs,
            ix + 1,
            if is_heading(bs[ix + 1].kind) {
                left - 1
            } else {
                left
            },
        )
    }
}

/// Walk back from block `ix` until `left` headings are passed or the first
/// block is reached.
pub open spec fn heading_walk_back(bs: Seq<ProjBlock>, ix: int, left: int) -> int
    decreases ix,
{
    if left <= 0 || ix <= 0 {
        ix
    } else {
        heading_walk_back(
            bs,
            ix - 1,
            if is_heading(bs[ix - 1].kind) {
                left - 1
            } else {
                left
            },
        )
    }
}

/// Display offset `count` headings (at least one) after or before the block
/// holding `d`: the start of the block reached; `d` when there is none.
pub open spec fn heading_target(bs: Seq<ProjBlock>, d: usize, forward: bool, count: usize) -> int {
    let ix0 = match crate::search::first_index(bs, holds_display(d), 0) {
        Some(i) => i,
        None => 0,
    };
    let left = if count == 0 {
        1
    } else {
        count as int
    };
    let ix = if forward {
        heading_walk_fwd(bs, ix0, left)
    } else {
        heading_walk_back(bs, ix0, left)
    };
    if 0 <= ix < bs.len() {
        bs[ix].display.start as int
    } else {
        d as int
    }
}

/// `]h` / `[h`: the display offset `count` headings away from `d`.
pub fn heading_jump(p: &Projection, d: usize, forward: bool, count: usize) -> (r: usize)
    ensures
        r as int == heading_target(p.blocks@, d, forward, count),
{
    let bs = &p.blocks;
    let n = bs.len();
    let ghost pr = holds_display(d);
    let mut ix: usize = 0;
    let mut found = false;
    while ix < n
        invariant_except_break
            !found,
        invariant
            ix <= n == bs@.len(),
            pr == holds_display(d),
            crate::search::first_index(bs@, pr, 0) == crate::search::first_index(bs@, pr, ix as int),
        ensures
            ix <= n,
            found ==> ix < n && crate::search::first_index(bs@, pr, 0) == Some(ix as int),
            !found ==> crate::search::first_index(bs@, pr, 0) is None,
        decreases n - ix,
    {
        assert(pr(bs@[ix as int]) == (bs@[ix as int].display.start <= d && d <= bs@[ix as int].display.end));
        if d >= bs[ix].display.start && d <= bs[ix].display.end {
            found = true;
            break;
        }
        ix += 1;
    }
    if !found {
        ix = 0;
    }
    let mut left: usize = if count == 0 {
        1
    } else {
        count
    };
    let ghost ix0 = ix as int;
    let ghost left0 = left as int;
    if forward {
        while left > 0 && ix + 1 < n
            invariant
                ix < n || (n == 0 && ix == 0),
                n == bs@.len(),
                heading_walk_fwd(bs@, ix0, left0) == heading_walk_fwd(bs@, ix as int, left as int),
            decreases n - ix,
        {
            ix += 1;
            if matches!(bs[ix].kind, BlockKind::Heading(_)) {
                left -= 1;
            }
        }
    } else {
        while left > 0 && ix > 0
            invariant
                ix < n || (n == 0 && ix == 0),
                n == bs@.len(),
                heading_walk_back(bs@, ix0, left0) == heading_walk_back(bs@, ix as int, left as int),
            decreases ix,
        {
            ix -= 1;
            if matches!(bs[ix].kind, BlockKind::Heading(_)) {
                left -= 1;
            }
        }
    }
    if ix < n {
        bs[ix].display.start
    } else {
        d
    }
}

} // verus!
