//! Inline projection of a block from its events: text with its marks,
//! breaks, links, and the items of a list.
use std::ops::Range;

use vstd::prelude::*;
use vstd::utf8::*;

use crate::display::{no_marks, ListItem, Marks};
use crate::emit::{emit, emit_plain, push_sep, rng, sep, Builder, BV};
use crate::md::{MdEvent, MdSpan, MdTag};
use crate::projection::{alert_label, is_alert_label, list_depth_at, list_indent_at, lower_seq};
use crate::restore::{restore_item, restore_list_item_trailing_spaces};
use crate::text::{
    at_boundary, first_of, find_byte, floor_boundary, lemma_first_of_props, lemma_floor_boundary,
    lemma_sub_valid, slice_vec, sub_or_empty, trim_end_at, trim_start_at, utf8,
};

verus! {

broadcast use vstd::seq::group_seq_axioms, vstd::slice::group_slice_axioms;

/// A list item whose end has not been seen yet.
#[derive(Clone, Copy)]
pub struct OpenListItem {
    pub index: usize,
    pub d0: usize,
    pub src_start: usize,
    pub indent: usize,
    pub checked: Option<bool>,
    /// Frozen when a nested list starts so parent text does not swallow children.
    pub display_end: Option<usize>,
}

/// The scan state besides the projection itself.
pub struct InlineScan {
    pub marks: Marks,
    pub items: Vec<Option<ListItem>>,
    pub stack: Vec<OpenListItem>,
    pub saw_list: bool,
    pub skip_alert_label: bool,
    pub skip_alert_break: bool,
    pub after_item: bool,
}

pub ghost struct ScanV {
    pub marks: Marks,
    pub items: Seq<Option<ListItem>>,
    pub stack: Seq<OpenListItem>,
    pub saw_list: bool,
    pub skip_label: bool,
    pub skip_break: bool,
    pub after_item: bool,
}

impl InlineScan {
    pub open spec fn sv(&self) -> ScanV {
        ScanV {
            marks: self.marks,
            items: self.items@,
            stack: self.stack@,
            saw_list: self.saw_list,
            skip_label: self.skip_alert_label,
            skip_break: self.skip_alert_break,
            after_item: self.after_item,
        }
    }
}

/// Scan state before the first event of a block (`alert`: the block is an
/// alert, whose label the scan skips).
pub open spec fn scan_init(alert: bool) -> ScanV {
    ScanV {
        marks: no_marks(),
        items: Seq::empty(),
        stack: Seq::empty(),
        saw_list: false,
        skip_label: alert,
        skip_break: false,
        after_item: false,
    }
}

/// Start of an event's range in the block bytes `sb`, on a boundary.
pub open spec fn clip_a(sb: Seq<u8>, e: MdSpan) -> int {
    floor_boundary(sb, e.start as int)
}

/// End of an event's range in `sb`, on a boundary, not before its start.
pub open spec fn clip_z(sb: Seq<u8>, e: MdSpan) -> int {
    let z = floor_boundary(sb, e.end as int);
    if z < clip_a(sb, e) {
        clip_a(sb, e)
    } else {
        z
    }
}

/* ---------- list events ---------- */

/// First line end of an item `st..end` (its `'\n'`, else `end`).
pub open spec fn item_first_line_end(src: Seq<u8>, st: int, end: int) -> int {
    if 0 <= st <= end <= src.len() && at_boundary(src, st) && at_boundary(src, end) {
        match first_of(src, 10, st, end) {
            Some(i) => i,
            None => end,
        }
    } else {
        end
    }
}

pub open spec fn list_step(src: Seq<u8>, s_abs: int, e_abs: int, o: BV, s: ScanV, ev: MdEvent) -> (
    BV,
    ScanV,
) {
    match ev {
        MdEvent::Start(MdTag::List(_)) => {
            let stack = if s.stack.len() > 0 && s.stack.last().display_end is None {
                s.stack.update(
                    s.stack.len() - 1,
                    OpenListItem { display_end: Some(o.0.len() as usize), ..s.stack.last() },
                )
            } else {
                s.stack
            };
            (o, ScanV { saw_list: true, stack, ..s })
        },
        MdEvent::Start(MdTag::Item) => {
            let o1 = if s.after_item {
                sep(o, 10, rng(s_abs, s_abs), no_marks())
            } else {
                o
            };
            let open = OpenListItem {
                index: s.items.len() as usize,
                d0: o1.0.len() as usize,
                src_start: s_abs as usize,
                indent: list_depth_at(src, s_abs) as usize,
                checked: None,
                display_end: None,
            };
            (
                o1,
                ScanV {
                    after_item: true,
                    items: s.items.push(None),
                    stack: s.stack.push(open),
                    ..s
                },
            )
        },
        MdEvent::End(MdTag::Item) => if s.stack.len() > 0 {
            let open = s.stack.last();
            let stack = s.stack.drop_last();
            let fle = item_first_line_end(src, open.src_start as int, e_abs);
            let o1 = if open.display_end is None {
                restore_item(src, open.src_start as int, fle, open.d0 as int, open.checked, o)
            } else {
                o
            };
            let end = match open.display_end {
                Some(d) => d as int,
                None => o1.0.len() as int,
            };
            let items = if open.index < s.items.len() {
                s.items.update(
                    open.index as int,
                    Some(
                        ListItem {
                            display: rng(open.d0 as int, end),
                            source: rng(open.src_start as int, e_abs),
                            indent: open.indent,
                            checked: open.checked,
                        },
                    ),
                )
            } else {
                s.items
            };
            (o1, ScanV { stack, items, ..s })
        } else {
            (o, s)
        },
        MdEvent::Task(c) => if s.stack.len() > 0 {
            (
                o,
                ScanV {
                    stack: s.stack.update(
                        s.stack.len() - 1,
                        OpenListItem { checked: Some(c), ..s.stack.last() },
                    ),
                    ..s
                },
            )
        } else {
            (o, s)
        },
        _ => (o, s),
    }
}

pub open spec fn is_list_event(ev: MdEvent) -> bool {
    ev matches MdEvent::Start(MdTag::List(_)) || ev matches MdEvent::Start(MdTag::Item)
        || ev matches MdEvent::End(MdTag::Item) || ev is Task
}

/* ---------- marks ---------- */

pub open spec fn mark_step(s_abs: int, o: BV, s: ScanV, ev: MdEvent) -> (BV, ScanV) {
    let m = s.marks;
    match ev {
        MdEvent::Start(MdTag::Strong) => (o, ScanV { marks: Marks { bold: true, ..m }, ..s }),
        MdEvent::End(MdTag::Strong) => (o, ScanV { marks: Marks { bold: false, ..m }, ..s }),
        MdEvent::Start(MdTag::Emphasis) => (o, ScanV { marks: Marks { italic: true, ..m }, ..s }),
        MdEvent::End(MdTag::Emphasis) => (o, ScanV { marks: Marks { italic: false, ..m }, ..s }),
        MdEvent::Start(MdTag::Strikethrough) => (
            o,
            ScanV { marks: Marks { strike: true, ..m }, ..s },
        ),
        MdEvent::End(MdTag::Strikethrough) => (
            o,
            ScanV { marks: Marks { strike: false, ..m }, ..s },
        ),
        MdEvent::LinkStart(dest) => (
            (o.0, o.1, o.2.push(dest)),
            ScanV { marks: Marks { link: Some(o.2.len() as u32), ..m }, ..s },
        ),
        MdEvent::End(MdTag::Link) => (o, ScanV { marks: Marks { link: None, ..m }, ..s }),
        MdEvent::Start(MdTag::CodeBlock) => {
            let o1 = if o.0.len() > 0 && o.0.last() != 10 {
                sep(o, 10, rng(s_abs, s_abs), no_marks())
            } else {
                o
            };
            (o1, ScanV { marks: Marks { code: true, ..m }, ..s })
        },
        MdEvent::End(MdTag::CodeBlock) => (o, ScanV { marks: Marks { code: false, ..m }, ..s }),
        MdEvent::Start(MdTag::Heading(_)) => (o, ScanV { skip_label: false, ..s }),
        _ => (o, s),
    }
}

/* ---------- text ---------- */

/// `<u>`, `<u/>`, `</u>`.
pub open spec fn u_open() -> Seq<u8> {
    seq![60u8, 117, 62]
}

pub open spec fn u_open_closed() -> Seq<u8> {
    seq![60u8, 117, 47, 62]
}

pub open spec fn u_close() -> Seq<u8> {
    seq![60u8, 47, 117, 62]
}

/// Inline HTML tag, trimmed and lowercased.
pub open spec fn tag_key(t: Seq<u8>) -> Seq<u8> {
    let a = trim_start_at(t, 0, t.len() as int);
    lower_seq(t.subrange(a, trim_end_at(t, a, t.len() as int)))
}

pub open spec fn text_step(sb: Seq<u8>, a: int, z: int, bs: int, o: BV, s: ScanV, ev: MdEvent) -> (
    BV,
    ScanV,
) {
    match ev {
        MdEvent::Text(t) => if s.skip_label && alert_label(utf8(t@)) {
            (o, ScanV { skip_label: false, skip_break: true, ..s })
        } else {
            (emit(o, rng(bs + a, bs + z), sb.subrange(a, z), s.marks), ScanV { skip_label: false, ..s })
        },
        MdEvent::Code(t) => {
            let inner = if z - a >= 2 {
                rng(bs + a + 1, bs + z - 1)
            } else {
                rng(bs + a, bs + z)
            };
            (emit(o, inner, utf8(t@), Marks { code: true, ..s.marks }), s)
        },
        MdEvent::Break => if s.skip_label || s.skip_break {
            (o, ScanV { skip_break: false, ..s })
        } else {
            (sep(o, 10, rng(bs + a, bs + z), s.marks), s)
        },
        MdEvent::Html(t) => {
            let key = tag_key(utf8(t@));
            if key == u_open() || key == u_open_closed() {
                (o, ScanV { marks: Marks { underline: true, ..s.marks }, ..s })
            } else if key == u_close() {
                (o, ScanV { marks: Marks { underline: false, ..s.marks }, ..s })
            } else {
                (emit(o, rng(bs + a, bs + z), utf8(t@), no_marks()), s)
            }
        },
        _ => (o, s),
    }
}

/// One event of the block at `bs` (bytes `sb`) laid over the projection.
pub open spec fn inline_step(src: Seq<u8>, sb: Seq<u8>, bs: int, o: BV, s: ScanV, e: MdSpan) -> (
    BV,
    ScanV,
) {
    let a = clip_a(sb, e);
    let z = clip_z(sb, e);
    if is_list_event(e.event) {
        list_step(src, bs + a, bs + z, o, s, e.event)
    } else if e.event is Text || e.event is Code || e.event is Break || e.event is Html {
        text_step(sb, a, z, bs, o, s, e.event)
    } else {
        mark_step(bs + a, o, s, e.event)
    }
}

pub open spec fn inline_walk(src: Seq<u8>, sb: Seq<u8>, bs: int, o: BV, s: ScanV, ev: Seq<MdSpan>) -> (
    BV,
    ScanV,
)
    decreases ev.len(),
{
    if ev.len() == 0 {
        (o, s)
    } else {
        let (o1, s1) = inline_walk(src, sb, bs, o, s, ev.drop_last());
        inline_step(src, sb, bs, o1, s1, ev.last())
    }
}

/// The items whose end was seen, in order of their start.
pub open spec fn closed_items(items: Seq<Option<ListItem>>) -> Seq<ListItem>
    decreases items.len(),
{
    if items.len() == 0 {
        Seq::empty()
    } else {
        let rest = closed_items(items.drop_last());
        match items.last() {
            Some(it) => rest.push(it),
            None => rest,
        }
    }
}


/* ---------- the scan, executed ---------- */

fn first_line_end(src: &[u8], st: usize, end: usize) -> (r: usize)
    ensures
        r as int == item_first_line_end(src@, st as int, end as int),
{
    if st <= end && end <= src.len() && crate::text::is_boundary(src, st)
        && crate::text::is_boundary(src, end) {
        proof {
            lemma_first_of_props(src@, 10, st as int, end as int);
        }
        match find_byte(src, 10, st, end) {
            Some(i) => i,
            None => end,
        }
    } else {
        end
    }
}

fn list_event(src: &[u8], s_abs: usize, e_abs: usize, ev: &MdEvent, b: &mut Builder, sc: &mut InlineScan)
    requires
        valid_utf8(src@),
        valid_utf8(old(b).display@),
        is_list_event(*ev),
    ensures
        (final(b).state(), final(sc).sv()) == list_step(
            src@,
            s_abs as int,
            e_abs as int,
            old(b).state(),
            old(sc).sv(),
            *ev,
        ),
        valid_utf8(final(b).display@),
{
    match ev {
        MdEvent::Start(MdTag::List(_)) => {
            sc.saw_list = true;
            let n = sc.stack.len();
            if n > 0 && sc.stack[n - 1].display_end.is_none() {
                let mut top = sc.stack[n - 1];
                top.display_end = Some(b.display.len());
                sc.stack.set(n - 1, top);
            }
        },
        MdEvent::Start(MdTag::Item) => {
            if sc.after_item {
                push_sep(b, 10, s_abs..s_abs, Marks::default());
            }
            sc.after_item = true;
            let index = sc.items.len();
            sc.items.push(None);
            let indent = list_indent_at(src, s_abs);
            sc.stack.push(
                OpenListItem {
                    index,
                    d0: b.display.len(),
                    src_start: s_abs,
                    indent,
                    checked: None,
                    display_end: None,
                },
            );
        },
        MdEvent::End(MdTag::Item) => {
            if sc.stack.len() > 0 {
                let open = sc.stack.pop().unwrap();
                let fle = first_line_end(src, open.src_start, e_abs);
                if open.display_end.is_none() {
                    restore_list_item_trailing_spaces(
                        src,
                        &(open.src_start..fle),
                        open.d0,
                        b,
                        open.checked,
                    );
                }
                let end: usize = match open.display_end {
                    Some(d) => d,
                    None => b.display.len(),
                };
                if open.index < sc.items.len() {
                    sc.items.set(
                        open.index,
                        Some(
                            ListItem {
                                display: open.d0..end,
                                source: open.src_start..e_abs,
                                indent: open.indent,
                                checked: open.checked,
                            },
                        ),
                    );
                }
            }
        },
        MdEvent::Task(c) => {
            let n = sc.stack.len();
            if n > 0 {
                let mut top = sc.stack[n - 1];
                top.checked = Some(*c);
                sc.stack.set(n - 1, top);
            }
        },
        _ => {},
    }
}

fn mark_event(s_abs: usize, ev: MdEvent, b: &mut Builder, sc: &mut InlineScan)
    requires
        valid_utf8(old(b).display@),
    ensures
        (final(b).state(), final(sc).sv()) == mark_step(
            s_abs as int,
            old(b).state(),
            old(sc).sv(),
            ev,
        ),
        valid_utf8(final(b).display@),
{
    match ev {
        MdEvent::Start(MdTag::Strong) => {
            sc.marks.bold = true;
        },
        MdEvent::End(MdTag::Strong) => {
            sc.marks.bold = false;
        },
        MdEvent::Start(MdTag::Emphasis) => {
            sc.marks.italic = true;
        },
        MdEvent::End(MdTag::Emphasis) => {
            sc.marks.italic = false;
        },
        MdEvent::Start(MdTag::Strikethrough) => {
            sc.marks.strike = true;
        },
        MdEvent::End(MdTag::Strikethrough) => {
            sc.marks.strike = false;
        },
        MdEvent::LinkStart(dest) => {
            let id = b.links.len() as u32;
            b.links.push(dest);
            sc.marks.link = Some(id);
        },
        MdEvent::End(MdTag::Link) => {
            sc.marks.link = None;
        },
        MdEvent::Start(MdTag::CodeBlock) => {
            sc.marks.code = true;
            let n = b.display.len();
            if n > 0 && b.display[n - 1] != 10 {
                push_sep(b, 10, s_abs..s_abs, Marks::default());
            }
        },
        MdEvent::End(MdTag::CodeBlock) => {
            sc.marks.code = false;
        },
        MdEvent::Start(MdTag::Heading(_)) => {
            sc.skip_alert_label = false;
        },
        _ => {},
    }
}

pub fn tag_key_exec(t: &[u8]) -> (r: Vec<u8>)
    ensures
        r@ == tag_key(t@),
{
    let n: usize = t.len();
    let a = crate::text::trim_start_idx(t, 0, n);
    let e = crate::text::trim_end_idx(t, a, n);
    let mid = slice_vec(t, a, e);
    crate::projection::ascii_lower(mid.as_slice())
}

pub fn bytes_eq(x: &[u8], y: &[u8]) -> (r: bool)
    ensures
        r == (x@ == y@),
{
    if x.len() != y.len() {
        return false;
    }
    let r = crate::text::has_prefix_exec(x, y);
    proof {
        if r {
            assert(x@.subrange(0, y@.len() as int) =~= x@);
        } else {
            if x@ == y@ {
                assert(x@.subrange(0, y@.len() as int) =~= x@);
            }
        }
    }
    r
}

fn text_event(
    sb: &[u8],
    a: usize,
    z: usize,
    bs: usize,
    ev: &MdEvent,
    b: &mut Builder,
    sc: &mut InlineScan,
)
    requires
        valid_utf8(sb@),
        valid_utf8(old(b).display@),
        a <= z <= sb@.len(),
        at_boundary(sb@, a as int),
        at_boundary(sb@, z as int),
        bs + sb@.len() <= usize::MAX,
    ensures
        (final(b).state(), final(sc).sv()) == text_step(
            sb@,
            a as int,
            z as int,
            bs as int,
            old(b).state(),
            old(sc).sv(),
            *ev,
        ),
        valid_utf8(final(b).display@),
{
    match ev {
        MdEvent::Text(t) => {
            let tb = crate::text::bytes_of(t.as_str());
            if sc.skip_alert_label && is_alert_label(tb) {
                sc.skip_alert_label = false;
                sc.skip_alert_break = true;
                return ;
            }
            sc.skip_alert_label = false;
            proof {
                lemma_sub_valid(sb@, a as int, z as int);
            }
            let text = slice_vec(sb, a, z);
            emit_plain(b, (bs + a)..(bs + z), text.as_slice(), sc.marks);
        },
        MdEvent::Code(t) => {
            let tb = crate::text::bytes_of(t.as_str());
            let inner = if z - a >= 2 {
                (bs + a + 1)..(bs + z - 1)
            } else {
                (bs + a)..(bs + z)
            };
            let m = Marks { code: true, ..sc.marks };
            emit_plain(b, inner, tb, m);
        },
        MdEvent::Break => {
            if sc.skip_alert_label || sc.skip_alert_break {
                sc.skip_alert_break = false;
                return ;
            }
            push_sep(b, 10, (bs + a)..(bs + z), sc.marks);
        },
        MdEvent::Html(t) => {
            let tb = crate::text::bytes_of(t.as_str());
            let key = tag_key_exec(tb);
            let uo: [u8; 3] = [60, 117, 62];
            let uoc: [u8; 4] = [60, 117, 47, 62];
            let uc: [u8; 4] = [60, 47, 117, 62];
            assert(uo@ =~= u_open());
            assert(uoc@ =~= u_open_closed());
            assert(uc@ =~= u_close());
            if bytes_eq(key.as_slice(), &uo) || bytes_eq(key.as_slice(), &uoc) {
                sc.marks.underline = true;
            } else if bytes_eq(key.as_slice(), &uc) {
                sc.marks.underline = false;
            } else {
                emit_plain(b, (bs + a)..(bs + z), tb, Marks::default());
            }
        },
        _ => {},
    }
}

/// Clipped range of an event within the block bytes `sb`.
pub fn clip_pub(sb: &[u8], sb_str: &str, e: &MdSpan) -> (r: (usize, usize))
    requires
        sb@ == utf8(sb_str@),
    ensures
        r.0 as int == clip_a(sb@, *e),
        r.1 as int == clip_z(sb@, *e),
        r.0 <= r.1 <= sb@.len(),
        at_boundary(sb@, r.0 as int),
        at_boundary(sb@, r.1 as int),
{
    let a = crate::display::floor_char_boundary(sb_str, e.start);
    let z0 = crate::display::floor_char_boundary(sb_str, e.end);
    let z = if z0 < a {
        a
    } else {
        z0
    };
    (a, z)
}

/// Lays the events of the block at `bs` (text `block`) over the projection
/// in `b`; the items of a list, when the events hold one.
pub fn project_inlines(
    src: &[u8],
    block: &str,
    bs: usize,
    alert: bool,
    events: Vec<MdSpan>,
    b: &mut Builder,
) -> (r: Option<Vec<ListItem>>)
    requires
        valid_utf8(src@),
        valid_utf8(old(b).display@),
        bs + utf8(block@).len() <= src@.len(),
    ensures
        ({
            let (o, s) = inline_walk(
                src@,
                utf8(block@),
                bs as int,
                old(b).state(),
                scan_init(alert),
                events@,
            );
            &&& final(b).state() == o
            &&& match r {
                Some(v) => s.saw_list && v@ == closed_items(s.items),
                None => !s.saw_list,
            }
        }),
        valid_utf8(final(b).display@),
{
    let sb = crate::text::bytes_of(block);
    let ghost evs = events@;
    let n: usize = events.len();
    let mut rev = crate::search::reversed(events);
    let mut sc = InlineScan {
        marks: Marks::default(),
        items: Vec::new(),
        stack: Vec::new(),
        saw_list: false,
        skip_alert_label: alert,
        skip_alert_break: false,
        after_item: false,
    };
    let ghost o0 = b.state();
    let src_len: usize = src.len();
    let mut k: usize = 0;
    while k < n
        invariant
            n == evs.len(),
            src_len == src@.len(),
            k <= n,
            rev@.len() == n - k,
            forall|i: int| 0 <= i < rev@.len() ==> #[trigger] rev@[i] == evs[n - 1 - i],
            (b.state(), sc.sv()) == inline_walk(src@, sb@, bs as int, o0, scan_init(alert), evs.take(k as int)),
            valid_utf8(src@),
            valid_utf8(sb@),
            valid_utf8(b.display@),
            sb@ == utf8(block@),
            bs + sb@.len() <= src@.len(),
        decreases n - k,
    {
        let ghost before_rev = rev@;
        let e = rev.pop().unwrap();
        assert(e == evs[k as int]) by {
            assert(before_rev[before_rev.len() - 1] == e);
        }
        proof {
            assert(evs.take(k as int + 1).drop_last() =~= evs.take(k as int));
            assert(evs.take(k as int + 1).last() == e);
        }
        let (a, z) = clip_pub(sb, block, &e);
        let MdSpan { event, start, end } = e;
        if matches!(event, MdEvent::Start(MdTag::List(_)) | MdEvent::Start(MdTag::Item) | MdEvent::End(MdTag::Item) | MdEvent::Task(_)) {
            list_event(src, bs + a, bs + z, &event, b, &mut sc);
        } else if matches!(event, MdEvent::Text(_) | MdEvent::Code(_) | MdEvent::Break | MdEvent::Html(_)) {
            text_event(sb, a, z, bs, &event, b, &mut sc);
        } else {
            mark_event(bs + a, event, b, &mut sc);
        }
        k += 1;
    }
    proof {
        assert(evs.take(n as int) =~= evs);
    }
    if sc.saw_list {
        let mut out: Vec<ListItem> = Vec::new();
        let ghost items = sc.items@;
        let mut items_rev = crate::search::reversed(sc.items);
        let m: usize = items_rev.len();
        let mut j: usize = 0;
        while j < m
            invariant
                m == items.len(),
                j <= m,
                items_rev@.len() == m - j,
                forall|i: int| 0 <= i < items_rev@.len() ==> #[trigger] items_rev@[i] == items[m - 1 - i],
                out@ == closed_items(items.take(j as int)),
            decreases m - j,
        {
            let ghost before_rev = items_rev@;
            let it = items_rev.pop().unwrap();
            assert(it == items[j as int]) by {
                assert(before_rev[before_rev.len() - 1] == it);
            }
            proof {
                assert(items.take(j as int + 1).drop_last() =~= items.take(j as int));
            }
            match it {
                Some(x) => out.push(x),
                None => {},
            }
            j += 1;
        }
        proof {
            assert(items.take(m as int) =~= items);
        }
        Some(out)
    } else {
        None
    }
}

} // verus!
