//! Projection of a GFM table from its events: cells separated by tabs,
//! rows by newlines, in-cell breaks as the record separator byte.
use std::ops::Range;

use vstd::prelude::*;
use vstd::utf8::*;

use crate::display::{no_marks, BlockExtra, ExtraV, Marks, TableCell};
use crate::emit::{emit, emit_plain, push_sep, rng, sep, Builder, BV};
use crate::inline::{clip_a, clip_z, mark_step, tag_key};
use crate::md::{MdEvent, MdSpan, MdTag};
use crate::projection::{flat_cell, flatten_cell_bytes};
use crate::text::{at_boundary, lemma_sub_valid, slice_vec, trim_start_at, utf8};

verus! {

broadcast use vstd::seq::group_seq_axioms, vstd::slice::group_slice_axioms;

pub ghost struct TableV {
    pub cells: Seq<TableCell>,
    pub row: int,
    pub col: int,
    pub cols: int,
    pub header: bool,
    pub cell_d0: int,
    pub cell_src: Range<usize>,
    pub marks: Marks,
}

pub open spec fn table_init() -> TableV {
    TableV {
        cells: Seq::empty(),
        row: 0,
        col: 0,
        cols: 0,
        header: true,
        cell_d0: 0,
        cell_src: rng(0, 0),
        marks: no_marks(),
    }
}

pub open spec fn br_key(k: Seq<u8>) -> bool {
    k == seq![60u8, 98, 114, 62] || k == seq![60u8, 98, 114, 47, 62] || k == seq![
        60u8,
        98,
        114,
        32,
        47,
        62,
    ]
}

/// One event of the table at `bs` (bytes `sb`, event clipped to `a..z`).
pub open spec fn table_step(sb: Seq<u8>, a: int, z: int, bs: int, o: BV, t: TableV, ev: MdEvent) -> (
    BV,
    TableV,
) {
    let abs = rng(bs + a, bs + z);
    match ev {
        MdEvent::Start(MdTag::TableHead) => (o, TableV { header: true, row: 0, col: 0, ..t }),
        MdEvent::Start(MdTag::TableRow) => {
            let o1 = if t.row > 0 || t.cells.len() > 0 {
                sep(o, 10, rng(bs + a, bs + a), no_marks())
            } else {
                o
            };
            (o1, TableV { col: 0, ..t })
        },
        MdEvent::Start(MdTag::TableCell) => {
            let o1 = if t.col > 0 {
                sep(o, 9, rng(bs + a, bs + a), no_marks())
            } else {
                o
            };
            (o1, TableV { cell_d0: o1.0.len() as int, cell_src: abs, marks: no_marks(), ..t })
        },
        MdEvent::Code(c) => {
            let text = flat_cell(utf8(c@));
            if utf8(c@).len() > 0 {
                (emit(o, abs, text, Marks { code: true, ..t.marks }), t)
            } else {
                (o, t)
            }
        },
        MdEvent::Text(c) => {
            let text = flat_cell(sb.subrange(a, z));
            if trim_start_at(text, 0, text.len() as int) < text.len() || utf8(c@).len() > 0 {
                (emit(o, abs, text, t.marks), t)
            } else {
                (o, t)
            }
        },
        MdEvent::Break => (emit(o, abs, seq![30u8], no_marks()), t),
        MdEvent::Html(c) => if br_key(tag_key(utf8(c@))) {
            (emit(o, abs, seq![30u8], no_marks()), t)
        } else {
            (o, t)
        },
        MdEvent::End(MdTag::TableCell) => {
            let cell = TableCell {
                display: rng(t.cell_d0, o.0.len() as int),
                source: t.cell_src,
                header: t.header,
                row: t.row as usize,
                col: t.col as usize,
            };
            (
                o,
                TableV {
                    cells: t.cells.push(cell),
                    col: t.col + 1,
                    cols: if t.cols < t.col + 1 {
                        t.col + 1
                    } else {
                        t.cols
                    },
                    ..t
                },
            )
        },
        MdEvent::End(MdTag::TableRow) | MdEvent::End(MdTag::TableHead) => (
            o,
            TableV { row: t.row + 1, header: false, ..t },
        ),
        _ => {
            // marks, shared with inline text
            let s0 = crate::inline::ScanV {
                marks: t.marks,
                items: Seq::empty(),
                stack: Seq::empty(),
                saw_list: false,
                skip_label: false,
                skip_break: false,
                after_item: false,
            };
            if ev matches MdEvent::Start(MdTag::Strong) || ev matches MdEvent::End(MdTag::Strong)
                || ev matches MdEvent::Start(MdTag::Emphasis) || ev matches MdEvent::End(
                MdTag::Emphasis,
            ) || ev matches MdEvent::Start(MdTag::Strikethrough) || ev matches MdEvent::End(
                MdTag::Strikethrough,
            ) || ev is LinkStart || ev matches MdEvent::End(MdTag::Link) {
                let (o1, s1) = mark_step(bs + a, o, s0, ev);
                (o1, TableV { marks: s1.marks, ..t })
            } else {
                (o, t)
            }
        },
    }
}

pub open spec fn table_walk(sb: Seq<u8>, bs: int, o: BV, t: TableV, ev: Seq<MdSpan>) -> (BV, TableV)
    decreases ev.len(),
{
    if ev.len() == 0 {
        (o, t)
    } else {
        let (o1, t1) = table_walk(sb, bs, o, t, ev.drop_last());
        let e = ev.last();
        table_step(sb, clip_a(sb, e), clip_z(sb, e), bs, o1, t1, e.event)
    }
}

pub struct TableScan {
    pub cells: Vec<TableCell>,
    pub row: usize,
    pub col: usize,
    pub cols: usize,
    pub header: bool,
    pub cell_d0: usize,
    pub cell_src: Range<usize>,
    pub marks: Marks,
}

impl TableScan {
    pub open spec fn tv(&self) -> TableV {
        TableV {
            cells: self.cells@,
            row: self.row as int,
            col: self.col as int,
            cols: self.cols as int,
            header: self.header,
            cell_d0: self.cell_d0 as int,
            cell_src: self.cell_src,
            marks: self.marks,
        }
    }
}

fn table_event(
    sb: &[u8],
    a: usize,
    z: usize,
    bs: usize,
    ev: MdEvent,
    b: &mut Builder,
    t: &mut TableScan,
    k: usize,
)
    requires
        valid_utf8(sb@),
        valid_utf8(old(b).display@),
        a <= z <= sb@.len(),
        at_boundary(sb@, a as int),
        at_boundary(sb@, z as int),
        bs + sb@.len() <= usize::MAX,
        old(t).row <= k,
        old(t).col <= k,
        old(t).cols <= k,
        k < usize::MAX,
    ensures
        (final(b).state(), final(t).tv()) == table_step(
            sb@,
            a as int,
            z as int,
            bs as int,
            old(b).state(),
            old(t).tv(),
            ev,
        ),
        valid_utf8(final(b).display@),
        final(t).row <= k + 1,
        final(t).col <= k + 1,
        final(t).cols <= k + 1,
{
    let abs = (bs + a)..(bs + z);
    match ev {
        MdEvent::Start(MdTag::TableHead) => {
            t.header = true;
            t.row = 0;
            t.col = 0;
        },
        MdEvent::Start(MdTag::TableRow) => {
            if t.row > 0 || t.cells.len() > 0 {
                push_sep(b, 10, (bs + a)..(bs + a), Marks::default());
            }
            t.col = 0;
        },
        MdEvent::Start(MdTag::TableCell) => {
            if t.col > 0 {
                push_sep(b, 9, (bs + a)..(bs + a), Marks::default());
            }
            t.cell_d0 = b.display.len();
            t.cell_src = abs;
            t.marks = Marks::default();
        },
        MdEvent::Code(c) => {
            let cb = crate::text::bytes_of(c.as_str());
            if cb.len() > 0 {
                let text = flatten_cell_bytes(cb);
                emit_plain(b, abs, text.as_slice(), Marks { code: true, ..t.marks });
            }
        },
        MdEvent::Text(c) => {
            proof {
                lemma_sub_valid(sb@, a as int, z as int);
            }
            let raw = slice_vec(sb, a, z);
            let text = flatten_cell_bytes(raw.as_slice());
            let tn: usize = text.len();
            let cb = crate::text::bytes_of(c.as_str());
            if crate::text::trim_start_idx(text.as_slice(), 0, tn) < tn || cb.len() > 0 {
                emit_plain(b, abs, text.as_slice(), t.marks);
            }
        },
        MdEvent::Break => {
            let rs: [u8; 1] = [30];
            proof {
                crate::emit::lemma_ascii_byte_valid(30);
                assert(rs@ =~= seq![30u8]);
            }
            emit_plain(b, abs, &rs, Marks::default());
        },
        MdEvent::Html(c) => {
            let key = crate::inline::tag_key_exec(crate::text::bytes_of(c.as_str()));
            let k4: [u8; 4] = [60, 98, 114, 62];
            let k5: [u8; 5] = [60, 98, 114, 47, 62];
            let k6: [u8; 6] = [60, 98, 114, 32, 47, 62];
            proof {
                assert(k4@ =~= seq![60u8, 98, 114, 62]);
                assert(k5@ =~= seq![60u8, 98, 114, 47, 62]);
                assert(k6@ =~= seq![60u8, 98, 114, 32, 47, 62]);
            }
            if crate::inline::bytes_eq(key.as_slice(), &k4) || crate::inline::bytes_eq(
                key.as_slice(),
                &k5,
            ) || crate::inline::bytes_eq(key.as_slice(), &k6) {
                let rs: [u8; 1] = [30];
                proof {
                    crate::emit::lemma_ascii_byte_valid(30);
                    assert(rs@ =~= seq![30u8]);
                }
                emit_plain(b, abs, &rs, Marks::default());
            }
        },
        MdEvent::End(MdTag::TableCell) => {
            t.cells.push(
                TableCell {
                    display: t.cell_d0..b.display.len(),
                    source: t.cell_src.start..t.cell_src.end,
                    header: t.header,
                    row: t.row,
                    col: t.col,
                },
            );
            t.col = t.col + 1;
            if t.cols < t.col {
                t.cols = t.col;
            }
        },
        MdEvent::End(MdTag::TableRow) | MdEvent::End(MdTag::TableHead) => {
            t.row = t.row + 1;
            t.header = false;
        },
        MdEvent::Start(MdTag::Strong) => {
            t.marks.bold = true;
        },
        MdEvent::End(MdTag::Strong) => {
            t.marks.bold = false;
        },
        MdEvent::Start(MdTag::Emphasis) => {
            t.marks.italic = true;
        },
        MdEvent::End(MdTag::Emphasis) => {
            t.marks.italic = false;
        },
        MdEvent::Start(MdTag::Strikethrough) => {
            t.marks.strike = true;
        },
        MdEvent::End(MdTag::Strikethrough) => {
            t.marks.strike = false;
        },
        MdEvent::LinkStart(dest) => {
            let id = b.links.len() as u32;
            b.links.push(dest);
            t.marks.link = Some(id);
        },
        MdEvent::End(MdTag::Link) => {
            t.marks.link = None;
        },
        _ => {},
    }
}


/// Lays the events of the table at `bs` (text `block`) over the projection.
pub fn project_table(block: &str, bs: usize, events: Vec<MdSpan>, b: &mut Builder) -> (r:
    BlockExtra)
    requires
        valid_utf8(old(b).display@),
        bs + utf8(block@).len() <= usize::MAX,
    ensures
        ({
            let (o, t) = table_walk(utf8(block@), bs as int, old(b).state(), table_init(), events@);
            &&& final(b).state() == o
            &&& r.ev() == (ExtraV::Table { cells: t.cells, rows: t.row as usize, cols: t.cols as usize })
        }),
        valid_utf8(final(b).display@),
{
    let sb = crate::text::bytes_of(block);
    let ghost evs = events@;
    let n: usize = events.len();
    let mut rev = crate::search::reversed(events);
    let mut t = TableScan {
        cells: Vec::new(),
        row: 0,
        col: 0,
        cols: 0,
        header: true,
        cell_d0: 0,
        cell_src: 0..0,
        marks: Marks::default(),
    };
    let ghost o0 = b.state();
    let mut k: usize = 0;
    while k < n
        invariant
            n == evs.len(),
            k <= n,
            rev@.len() == n - k,
            forall|i: int| 0 <= i < rev@.len() ==> #[trigger] rev@[i] == evs[n - 1 - i],
            (b.state(), t.tv()) == table_walk(sb@, bs as int, o0, table_init(), evs.take(k as int)),
            valid_utf8(sb@),
            valid_utf8(b.display@),
            sb@ == utf8(block@),
            bs + sb@.len() <= usize::MAX,
            t.row <= k,
            t.col <= k,
            t.cols <= k,
        decreases n - k,
    {
        let ghost before_rev = rev@;
        let e = rev.pop().unwrap();
        assert(e == evs[k as int]) by {
            assert(before_rev[before_rev.len() - 1] == e);
        }
        proof {
            assert(evs.take(k as int + 1).drop_last() =~= evs.take(k as int));
            assert(evs.take(k as int + 1).last() == e);
        }
        let (a, z) = crate::inline::clip_pub(sb, block, &e);
        let MdSpan { event, start, end } = e;
        table_event(sb, a, z, bs, event, b, &mut t, k);
        k += 1;
    }
    proof {
        assert(evs.take(n as int) =~= evs);
    }
    BlockExtra::Table { cells: t.cells, rows: t.row, cols: t.cols }
}

} // verus!
