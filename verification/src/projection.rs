//! Pieces of the projection of a block: where the caret lands in an empty
//! block, which bytes of a quote, list item, code block or HTML block are
//! visible, and the restoring of what the parser drops.
use vstd::prelude::*;
use vstd::utf8::*;

use crate::notion::{
    fence_lang, indent_len, indent_of, lemma_indent_of, lemma_run_of, run_len, run_of,
};
use crate::text::{
    at_boundary, first_match, first_of, find_byte, find_seq, last_of, lemma_after_ascii,
    lemma_first_match_props, lemma_first_of_props, lemma_last_of_props, lemma_line_end,
    lemma_sub_valid, lemma_valid_concat, line_content_end, line_content_end_idx, line_end,
    line_end_idx, matches_at, rfind_byte, starts_at, ws_at,
};

verus! {

broadcast use vstd::seq::group_seq_axioms, vstd::slice::group_slice_axioms;

/* ---------- quotes ---------- */

/// Length of the `> ` (or `>`) that opens a quote line.
pub open spec fn quote_prefix(l: Seq<u8>) -> int {
    if l.len() >= 2 && l[0] == 62 && l[1] == 32 {
        2
    } else if l.len() >= 1 && l[0] == 62 {
        1
    } else {
        0
    }
}

pub fn quote_prefix_len(line: &[u8]) -> (r: usize)
    ensures
        r as int == quote_prefix(line@),
{
    if line.len() >= 2 && line[0] == 62 && line[1] == 32 {
        2
    } else if line.len() >= 1 && line[0] == 62 {
        1
    } else {
        0
    }
}

/// Offset just past an alert label line (`> [!NOTE]`): the first line,
/// with its `'\n'`, when it holds `[!` and `]`; else 0.
pub open spec fn alert_label_skip(s: Seq<u8>) -> int {
    if s.len() == 0 {
        0
    } else {
        let fe = line_content_end(s, 0);
        if first_match(s, seq![91u8, 33u8], 0, fe) is Some && first_of(s, 93, 0, fe) is Some {
            fe + if fe < s.len() && s[fe] == 10 {
                1int
            } else {
                0int
            }
        } else {
            0
        }
    }
}

/// Where quote or alert body text goes: after the label line (for an
/// alert) and the `> ` of the next line, at most the end of the block.
pub open spec fn quote_body_at(s: Seq<u8>, abs: int, skip_label: bool) -> int {
    let off = if skip_label {
        alert_label_skip(s)
    } else {
        0
    };
    let line = s.subrange(off, line_end(s, off));
    let p = abs + off + quote_prefix(line);
    if p < abs + s.len() {
        p
    } else {
        abs + s.len()
    }
}

proof fn lemma_alert_label_skip(s: Seq<u8>)
    ensures
        0 <= alert_label_skip(s) <= s.len(),
{
    if s.len() > 0 {
        lemma_line_end(s, 0);
    }
}

pub fn quote_body_point(slice: &[u8], abs_start: usize, skip_alert_label: bool) -> (r: usize)
    requires
        abs_start + slice@.len() <= usize::MAX,
    ensures
        r as int == quote_body_at(slice@, abs_start as int, skip_alert_label),
{
    let n: usize = slice.len();
    let mut offset: usize = 0;
    proof {
        lemma_alert_label_skip(slice@);
    }
    if skip_alert_label && n > 0 {
        let fe = line_content_end_idx(slice, 0);
        let pat: [u8; 2] = [91, 33];
        assert(pat@ =~= seq![91u8, 33u8]);
        if find_seq(slice, &pat, 0, fe).is_some() && find_byte(slice, 93, 0, fe).is_some() {
            offset = fe;
            if fe < n && slice[fe] == 10 {
                offset = fe + 1;
            }
        }
    }
    assert(offset as int == if skip_alert_label { alert_label_skip(slice@) } else { 0 });
    let le = line_end_idx(slice, offset);
    let mut k: usize = offset;
    let q: usize = if le - offset >= 2 && slice[offset] == 62 && slice[offset + 1] == 32 {
        2
    } else if le - offset >= 1 && slice[offset] == 62 {
        1
    } else {
        0
    };
    proof {
        let line = slice@.subrange(offset as int, le as int);
        assert(q as int == quote_prefix(line));
    }
    if offset + q < n {
        abs_start + offset + q
    } else {
        abs_start + n
    }
}

/* ---------- list items ---------- */

/// Bytes at the start of `b[a..e]` equal to `c`.
pub open spec fn lead_run(b: Seq<u8>, c: u8, a: int, e: int) -> int
    decreases e - a,
{
    if a < e && 0 <= a < b.len() && b[a] == c {
        1 + lead_run(b, c, a + 1, e)
    } else {
        0
    }
}

/// ASCII digits at the start of `b[i..]`.
pub open spec fn digit_run(b: Seq<u8>, i: int) -> int
    decreases b.len() - i,
{
    if 0 <= i < b.len() && 48 <= b[i] <= 57 {
        1 + digit_run(b, i + 1)
    } else {
        0
    }
}

pub proof fn lemma_digit_run(b: Seq<u8>, i: int)
    requires
        0 <= i <= b.len(),
    ensures
        0 <= digit_run(b, i) <= b.len() - i,
    decreases b.len() - i,
{
    if i < b.len() && 48 <= b[i] <= 57 {
        lemma_digit_run(b, i + 1);
    }
}

pub fn digit_len_pub(b: &[u8], i: usize) -> (r: usize)
    requires
        i <= b@.len(),
    ensures
        r as int == digit_run(b@, i as int),
        i + r <= b@.len(),
{
    proof {
        lemma_digit_run(b@, i as int);
    }
    let mut k: usize = i;
    while k < b.len() && 48 <= b[k] && b[k] <= 57
        invariant
            i <= k <= b@.len(),
            digit_run(b@, i as int) == (k - i) + digit_run(b@, k as int),
        decreases b@.len() - k,
    {
        k += 1;
    }
    k - i
}

/// `t` opens with a task marker and its space: `- [ ] `, `* [x] ` and so on.
pub open spec fn task_open6(t: Seq<u8>) -> bool {
    t.len() >= 6 && (t[0] == 45 || t[0] == 42) && t[1] == 32 && t[2] == 91 && (t[3] == 32 || t[3]
        == 120 || t[3] == 88) && t[4] == 93 && t[5] == 32
}

/// `t` opens with a bullet and a space.
pub open spec fn bullet_open(t: Seq<u8>) -> bool {
    t.len() >= 2 && (t[0] == 45 || t[0] == 42 || t[0] == 43) && t[1] == 32
}

/// Byte length of the list marker (with its indent) that opens `line`.
pub open spec fn list_marker_len(line: Seq<u8>, checked: Option<bool>) -> int {
    let indent = indent_of(line, 0);
    let t = line.subrange(indent, line.len() as int);
    let marker = if checked is Some {
        if task_open6(t) {
            6
        } else {
            5
        }
    } else if bullet_open(t) {
        2
    } else {
        let d = digit_run(t, 0);
        if d > 0 && d + 2 <= t.len() && (t[d] == 46 || t[d] == 41) && t[d + 1] == 32 {
            d + 2
        } else {
            0
        }
    };
    indent + marker
}

pub fn list_marker_byte_len(line: &[u8], checked: Option<bool>) -> (r: usize)
    ensures
        r as int == crate::emit::sat(list_marker_len(line@, checked)),
{
    let n: usize = line.len();
    let indent = indent_len(line, 0);
    let ghost t = line@.subrange(indent as int, n as int);
    let rest: usize = n - indent;
    let marker: usize = if checked.is_some() {
        if rest >= 6 && (line[indent] == 45 || line[indent] == 42) && line[indent + 1] == 32
            && line[indent + 2] == 91 && (line[indent + 3] == 32 || line[indent + 3] == 120
            || line[indent + 3] == 88) && line[indent + 4] == 93 && line[indent + 5] == 32 {
            6
        } else {
            5
        }
    } else if rest >= 2 && (line[indent] == 45 || line[indent] == 42 || line[indent] == 43)
        && line[indent + 1] == 32 {
        2
    } else {
        let d = digit_len_pub(line, indent);
        proof {
            assert forall|k: int| 0 <= k <= t.len() implies digit_run(t, k) == digit_run(
                line@,
                indent + k,
            ) by {
                lemma_digit_shift_pub(line@, indent as int, k);
            }
        }
        if d > 0 && rest >= 2 && d <= rest - 2 && (line[indent + d] == 46 || line[indent + d] == 41)
            && line[indent + d + 1] == 32 {
            d + 2
        } else {
            0
        }
    };
    proof {
        assert(t =~= line@.subrange(indent as int, n as int));
    }
    indent.saturating_add(marker)
}

pub proof fn lemma_digit_shift_pub(b: Seq<u8>, a: int, k: int)
    requires
        0 <= a <= b.len(),
        0 <= k <= b.len() - a,
    ensures
        digit_run(b.subrange(a, b.len() as int), k) == digit_run(b, a + k),
    decreases b.len() - a - k,
{
    if k < b.len() - a {
        lemma_digit_shift_pub(b, a, k + 1);
    }
}

/// Text with each backslash escape replaced by the escaped character; a
/// lone final backslash stays.
pub open spec fn unescape(b: Seq<u8>, i: int) -> Seq<u8>
    decreases b.len() - i,
{
    if i < 0 || i >= b.len() {
        Seq::empty()
    } else if b[i] == 92 {
        if i + 1 < b.len() {
            seq![b[i + 1]] + unescape(b, i + 2)
        } else {
            seq![92u8]
        }
    } else {
        seq![b[i]] + unescape(b, i + 1)
    }
}

proof fn lemma_unescape_len(b: Seq<u8>, i: int)
    requires
        0 <= i <= b.len(),
    ensures
        unescape(b, i).len() <= b.len() - i,
    decreases b.len() - i,
{
    if i < b.len() {
        if b[i] == 92 {
            if i + 1 < b.len() {
                lemma_unescape_len(b, i + 2);
            }
        } else {
            lemma_unescape_len(b, i + 1);
        }
    }
}

pub fn unescape_md_punct(s: &[u8]) -> (r: Vec<u8>)
    requires
        valid_utf8(s@),
    ensures
        r@ == unescape(s@, 0),
        valid_utf8(r@),
        r@.len() <= s@.len(),
{
    let n: usize = s.len();
    let mut out: Vec<u8> = Vec::new();
    let mut i: usize = 0;
    proof {
        lemma_unescape_len(s@, 0);
        assert(s@.subrange(0, n as int) =~= s@);
        assert(out@ + s@.subrange(0, n as int) =~= s@);
    }
    while i < n
        invariant
            n == s@.len(),
            i <= n,
            out@ + unescape(s@, i as int) == unescape(s@, 0),
            valid_utf8(out@ + s@.subrange(i as int, n as int)),
        decreases n - i,
    {
        let ghost before = out@;
        if s[i] == 92 {
            if i + 1 < n {
                proof {
                    let whole = before + s@.subrange(i as int, n as int);
                    let k = before.len() as int;
                    assert(whole[k] == 92u8);
                    assert(at_boundary(whole, k));
                    lemma_after_ascii(whole, k);
                    crate::text::lemma_boundary_zero(whole);
                    assert(at_boundary(whole, whole.len() as int));
                    lemma_sub_valid(whole, 0, k);
                    lemma_sub_valid(whole, k + 1, whole.len() as int);
                    assert(whole.subrange(0, k) =~= before);
                    assert(whole.subrange(k + 1, whole.len() as int) =~= s@.subrange(
                        i + 1,
                        n as int,
                    ));
                    lemma_valid_concat(before, s@.subrange(i + 1, n as int));
                    assert(before + s@.subrange(i + 1, n as int) =~= before.push(s@[i + 1])
                        + s@.subrange(i + 2, n as int));
                }
                out.push(s[i + 1]);
                i += 2;
                proof {
                    assert(out@ + unescape(s@, i as int) =~= before + unescape(s@, i - 2));
                }
            } else {
                out.push(92);
                i += 1;
                proof {
                    assert(out@ + unescape(s@, i as int) =~= before + unescape(s@, i - 1));
                    assert(out@ + s@.subrange(i as int, n as int) =~= before + s@.subrange(
                        i - 1,
                        n as int,
                    ));
                }
            }
        } else {
            out.push(s[i]);
            i += 1;
            proof {
                assert(out@ + unescape(s@, i as int) =~= before + unescape(s@, i - 1));
                assert(out@ + s@.subrange(i as int, n as int) =~= before + s@.subrange(
                    i - 1,
                    n as int,
                ));
            }
        }
    }
    proof {
        assert(out@ + s@.subrange(i as int, n as int) =~= out@);
        assert(out@ + unescape(s@, i as int) =~= out@);
    }
    out
}


/* ---------- alert labels ---------- */

/// Bytes at the end of `b[a..e]` equal to `c`.
pub open spec fn tail_run(b: Seq<u8>, c: u8, a: int, e: int) -> int
    decreases e - a,
{
    if e > a && 0 < e <= b.len() && b[e - 1] == c {
        1 + tail_run(b, c, a, e - 1)
    } else {
        0
    }
}

pub proof fn lemma_lead_run(b: Seq<u8>, c: u8, a: int, e: int)
    requires
        0 <= a <= e <= b.len(),
    ensures
        0 <= lead_run(b, c, a, e) <= e - a,
        forall|k: int| a <= k < a + lead_run(b, c, a, e) ==> #[trigger] b[k] == c,
    decreases e - a,
{
    if a < e && b[a] == c {
        lemma_lead_run(b, c, a + 1, e);
    }
}

pub proof fn lemma_tail_run(b: Seq<u8>, c: u8, a: int, e: int)
    requires
        0 <= a <= e <= b.len(),
    ensures
        0 <= tail_run(b, c, a, e) <= e - a,
        forall|k: int| e - tail_run(b, c, a, e) <= k < e ==> #[trigger] b[k] == c,
    decreases e - a,
{
    if e > a && b[e - 1] == c {
        lemma_tail_run(b, c, a, e - 1);
    }
}

pub fn lead_run_len(b: &[u8], c: u8, a: usize, e: usize) -> (r: usize)
    requires
        a <= e <= b@.len(),
    ensures
        r as int == lead_run(b@, c, a as int, e as int),
        a + r <= e,
{
    proof {
        lemma_lead_run(b@, c, a as int, e as int);
    }
    let mut k: usize = a;
    while k < e && b[k] == c
        invariant
            a <= k <= e <= b@.len(),
            lead_run(b@, c, a as int, e as int) == (k - a) + lead_run(b@, c, k as int, e as int),
        decreases e - k,
    {
        k += 1;
    }
    k - a
}

pub fn tail_run_len(b: &[u8], c: u8, a: usize, e: usize) -> (r: usize)
    requires
        a <= e <= b@.len(),
    ensures
        r as int == tail_run(b@, c, a as int, e as int),
        a + r <= e,
{
    proof {
        lemma_tail_run(b@, c, a as int, e as int);
    }
    let mut j: usize = e;
    while j > a && b[j - 1] == c
        invariant
            a <= j <= e <= b@.len(),
            tail_run(b@, c, a as int, e as int) == (e - j) + tail_run(b@, c, a as int, j as int),
        decreases j,
    {
        j -= 1;
    }
    e - j
}

pub open spec fn upper(x: u8) -> u8 {
    if 97 <= x <= 122 {
        (x - 32) as u8
    } else {
        x
    }
}

pub open spec fn lower(x: u8) -> u8 {
    if 65 <= x <= 90 {
        (x + 32) as u8
    } else {
        x
    }
}

/// `b[a..e]`, upper-cased as ASCII, is `w`.
pub open spec fn upper_eq(b: Seq<u8>, a: int, e: int, w: Seq<u8>) -> bool {
    e - a == w.len() && forall|k: int| 0 <= k < w.len() ==> upper(#[trigger] b[a + k]) == w[k]
}

pub fn upper_eq_exec_pub(b: &[u8], a: usize, e: usize, w: &[u8]) -> (r: bool)
    requires
        a <= e <= b@.len(),
    ensures
        r == upper_eq(b@, a as int, e as int, w@),
{
    if e - a != w.len() {
        return false;
    }
    let mut k: usize = 0;
    while k < w.len()
        invariant
            e - a == w@.len(),
            a <= e <= b@.len(),
            k <= w@.len(),
            forall|t: int| 0 <= t < k ==> upper(#[trigger] b@[a + t]) == w@[t],
        decreases w@.len() - k,
    {
        let x: u8 = b[a + k];
        let u: u8 = if 97 <= x && x <= 122 {
            x - 32
        } else {
            x
        };
        if u != w[k] {
            return false;
        }
        k += 1;
    }
    true
}

pub open spec fn note_word() -> Seq<u8> {
    seq![78u8, 79, 84, 69]
}

pub open spec fn tip_word() -> Seq<u8> {
    seq![84u8, 73, 80]
}

pub open spec fn important_word() -> Seq<u8> {
    seq![73u8, 77, 80, 79, 82, 84, 65, 78, 84]
}

pub open spec fn warning_word() -> Seq<u8> {
    seq![87u8, 65, 82, 78, 73, 78, 71]
}

pub open spec fn caution_word() -> Seq<u8> {
    seq![67u8, 65, 85, 84, 73, 79, 78]
}

/// The span of the alert name in `[!NAME]`: trimmed, then without leading
/// `[`s, trailing `]`s and leading `!`s.
pub open spec fn alert_name_span(t: Seq<u8>) -> (int, int) {
    let a1 = crate::text::trim_start_at(t, 0, t.len() as int);
    let e1 = crate::text::trim_end_at(t, a1, t.len() as int);
    let a2 = a1 + lead_run(t, 91, a1, e1);
    let e2 = e1 - tail_run(t, 93, a2, e1);
    (a2 + lead_run(t, 33, a2, e2), e2)
}

/// `t` is an alert label (`[!NOTE]` and the four others, any case).
pub open spec fn alert_label(t: Seq<u8>) -> bool {
    let (a, e) = alert_name_span(t);
    upper_eq(t, a, e, note_word()) || upper_eq(t, a, e, tip_word()) || upper_eq(
        t,
        a,
        e,
        important_word(),
    ) || upper_eq(t, a, e, warning_word()) || upper_eq(t, a, e, caution_word())
}

pub fn is_alert_label(t: &[u8]) -> (r: bool)
    ensures
        r == alert_label(t@),
{
    let n: usize = t.len();
    let a1 = crate::text::trim_start_idx(t, 0, n);
    let e1 = crate::text::trim_end_idx(t, a1, n);
    let a2 = a1 + lead_run_len(t, 91, a1, e1);
    let e2 = e1 - tail_run_len(t, 93, a2, e1);
    let a3 = a2 + lead_run_len(t, 33, a2, e2);
    let note: [u8; 4] = [78, 79, 84, 69];
    let tip: [u8; 3] = [84, 73, 80];
    let important: [u8; 9] = [73, 77, 80, 79, 82, 84, 65, 78, 84];
    let warning: [u8; 7] = [87, 65, 82, 78, 73, 78, 71];
    let caution: [u8; 7] = [67, 65, 85, 84, 73, 79, 78];
    proof {
        assert(note@ =~= note_word());
        assert(tip@ =~= tip_word());
        assert(important@ =~= important_word());
        assert(warning@ =~= warning_word());
        assert(caution@ =~= caution_word());
    }
    upper_eq_exec_pub(t, a3, e2, &note) || upper_eq_exec_pub(t, a3, e2, &tip) || upper_eq_exec_pub(
        t,
        a3,
        e2,
        &important,
    ) || upper_eq_exec_pub(t, a3, e2, &warning) || upper_eq_exec_pub(t, a3, e2, &caution)
}

/* ---------- list indents and empty blocks ---------- */

/// Nesting depth of a list line: its leading spaces and tabs, halved.
pub open spec fn list_depth(line: Seq<u8>) -> int {
    indent_of(line, 0) / 2
}

pub fn list_indent(line: &[u8]) -> (r: usize)
    ensures
        r as int == list_depth(line@),
{
    indent_len(line, 0) / 2
}

/// Start of the line holding `abs` (clamped to the text).
pub open spec fn line_start_of(src: Seq<u8>, abs: int) -> int {
    let a = if abs < src.len() {
        abs
    } else {
        src.len() as int
    };
    match last_of(src, 10, 0, a) {
        Some(i) => i + 1,
        None => 0,
    }
}

pub open spec fn list_depth_at(src: Seq<u8>, abs: int) -> int {
    indent_of(src, line_start_of(src, abs)) / 2
}

pub fn list_indent_at(src: &[u8], abs: usize) -> (r: usize)
    ensures
        r as int == list_depth_at(src@, abs as int),
{
    let a: usize = if abs < src.len() {
        abs
    } else {
        src.len()
    };
    proof {
        lemma_last_of_props(src@, 10, 0, a as int);
    }
    let start: usize = match rfind_byte(src, 10, 0, a) {
        Some(i) => i + 1,
        None => 0,
    };
    indent_len(src, start) / 2
}

/// Where the caret goes in an empty block over `s..e`: after its first
/// `'\n'` (at most `e`), else at `s`.
pub open spec fn empty_insert_at(src: Seq<u8>, s: int, e: int) -> int {
    if 0 <= s <= e <= src.len() && at_boundary(src, s) && at_boundary(src, e) {
        match first_of(src, 10, s, e) {
            Some(i) => if i + 1 < e {
                i + 1
            } else {
                e
            },
            None => s,
        }
    } else {
        s
    }
}

pub fn empty_insert_point(src: &[u8], range: std::ops::Range<usize>) -> (r: usize)
    ensures
        r as int == empty_insert_at(src@, range.start as int, range.end as int),
{
    let s = range.start;
    let e = range.end;
    if s <= e && e <= src.len() && crate::text::is_boundary(src, s) && crate::text::is_boundary(
        src,
        e,
    ) {
        proof {
            lemma_first_of_props(src@, 10, s as int, e as int);
        }
        match find_byte(src, 10, s, e) {
            Some(i) => if i + 1 < e {
                i + 1
            } else {
                e
            },
            None => s,
        }
    } else {
        s
    }
}

/// Source span of a code block's body within the block at `abs`: where
/// `body` first occurs; an empty body sits after the opening fence line.
pub open spec fn body_span(slice: Seq<u8>, body: Seq<u8>, abs: int) -> (int, int) {
    if body.len() == 0 {
        let (la, le) = fence_lang(slice);
        let prefix = if le - la == 0 {
            4
        } else {
            3 + (le - la) + 1
        };
        let start = if prefix < slice.len() {
            abs + prefix
        } else {
            abs + slice.len()
        };
        (start, start)
    } else {
        match first_match(slice, body, 0, slice.len() as int) {
            Some(i) => (abs + i, abs + i + body.len()),
            None => (abs, abs + slice.len()),
        }
    }
}

pub fn body_abs_range(slice: &[u8], body: &[u8], lang_len: usize, abs: usize) -> (r:
    std::ops::Range<usize>)
    requires
        abs + slice@.len() <= usize::MAX,
        lang_len == fence_lang(slice@).1 - fence_lang(slice@).0,
    ensures
        r.start as int == body_span(slice@, body@, abs as int).0,
        r.end as int == body_span(slice@, body@, abs as int).1,
{
    let n: usize = slice.len();
    if body.len() == 0 {
        let start: usize = if lang_len == 0 {
            if 4 < n {
                abs + 4
            } else {
                abs + n
            }
        } else if n >= 4 && lang_len < n - 4 {
            abs + lang_len + 4
        } else {
            abs + n
        };
        return start..start;
    }
    proof {
        lemma_first_match_props(slice@, body@, 0, n as int);
    }
    match find_seq(slice, body, 0, n) {
        Some(i) => (abs + i)..(abs + i + body.len()),
        None => abs..(abs + n),
    }
}


/* ---------- table cells ---------- */

/// Display form of a cell: line breaks become the in-cell break byte `0x1e`.
pub open spec fn flat_cell(b: Seq<u8>) -> Seq<u8> {
    Seq::new(b.len(), |k: int| if b[k] == 10 || b[k] == 13 { 30u8 } else { b[k] })
}

/// Source form of a cell: `'\n'` and `0x1e` become `<br>`, `'\r'` goes.
pub open spec fn gfm_cell(b: Seq<u8>, i: int) -> Seq<u8>
    decreases b.len() - i,
{
    if i < 0 || i >= b.len() {
        Seq::empty()
    } else {
        let piece = if b[i] == 10 || b[i] == 30 {
            br_tag()
        } else if b[i] == 13 {
            Seq::empty()
        } else {
            seq![b[i]]
        };
        piece + gfm_cell(b, i + 1)
    }
}

pub open spec fn br_tag() -> Seq<u8> {
    seq![60u8, 98, 114, 62]
}

/// Replacing the ASCII byte that starts `rest` by ASCII bytes keeps
/// `out + rest` valid UTF-8.
pub proof fn lemma_swap_ascii(out: Seq<u8>, rest: Seq<u8>, ins: Seq<u8>)
    requires
        valid_utf8(out + rest),
        rest.len() > 0,
        rest[0] < 0x80,
        crate::text::all_ascii(ins),
    ensures
        valid_utf8(out + ins + rest.drop_first()),
{
    let whole = out + rest;
    let k = out.len() as int;
    assert(whole[k] == rest[0]);
    lemma_after_ascii(whole, k);
    crate::text::lemma_boundary_zero(whole);
    lemma_sub_valid(whole, 0, k);
    lemma_sub_valid(whole, k + 1, whole.len() as int);
    assert(whole.subrange(0, k) =~= out);
    assert(whole.subrange(k + 1, whole.len() as int) =~= rest.drop_first());
    crate::text::lemma_ascii_valid(ins);
    lemma_valid_concat(out, ins);
    lemma_valid_concat(out + ins, rest.drop_first());
}

pub fn flatten_cell_bytes(s: &[u8]) -> (r: Vec<u8>)
    requires
        valid_utf8(s@),
    ensures
        r@ == flat_cell(s@),
        valid_utf8(r@),
{
    let n: usize = s.len();
    let mut out: Vec<u8> = Vec::new();
    let mut i: usize = 0;
    assert(out@ + s@.subrange(0, n as int) =~= s@);
    while i < n
        invariant
            n == s@.len(),
            i <= n,
            out@ == flat_cell(s@).subrange(0, i as int),
            valid_utf8(out@ + s@.subrange(i as int, n as int)),
        decreases n - i,
    {
        let ghost before = out@;
        let x: u8 = s[i];
        if x == 10 || x == 13 {
            proof {
                let rest = s@.subrange(i as int, n as int);
                lemma_swap_ascii(before, rest, seq![30u8]);
                assert(rest.drop_first() =~= s@.subrange(i + 1, n as int));
            }
            out.push(30);
        } else {
            out.push(x);
        }
        i += 1;
        proof {
            assert(out@ =~= flat_cell(s@).subrange(0, i as int));
            assert(out@ + s@.subrange(i as int, n as int) =~= before + seq![out@[i - 1]]
                + s@.subrange(i as int, n as int));
            if !(x == 10 || x == 13) {
                assert(out@ + s@.subrange(i as int, n as int) =~= before + s@.subrange(
                    i - 1,
                    n as int,
                ));
            }
        }
    }
    assert(out@ + s@.subrange(n as int, n as int) =~= out@);
    assert(flat_cell(s@).subrange(0, n as int) =~= flat_cell(s@));
    out
}

pub fn gfm_cell_bytes(s: &[u8]) -> (r: Vec<u8>)
    requires
        valid_utf8(s@),
    ensures
        r@ == gfm_cell(s@, 0),
        valid_utf8(r@),
{
    let n: usize = s.len();
    let mut out: Vec<u8> = Vec::new();
    let mut i: usize = 0;
    assert(out@ + s@.subrange(0, n as int) =~= s@);
    while i < n
        invariant
            n == s@.len(),
            i <= n,
            out@ + gfm_cell(s@, i as int) == gfm_cell(s@, 0),
            valid_utf8(out@ + s@.subrange(i as int, n as int)),
        decreases n - i,
    {
        let ghost before = out@;
        let ghost rest = s@.subrange(i as int, n as int);
        let x: u8 = s[i];
        assert(rest.drop_first() =~= s@.subrange(i + 1, n as int));
        if x == 10 || x == 30 {
            proof {
                lemma_swap_ascii(before, rest, br_tag());
            }
            out.push(60);
            out.push(98);
            out.push(114);
            out.push(62);
            assert(out@ =~= before + br_tag());
        } else if x == 13 {
            proof {
                lemma_swap_ascii(before, rest, Seq::empty());
                assert(before + Seq::<u8>::empty() =~= before);
            }
        } else {
            out.push(x);
            assert(before + rest =~= out@ + rest.drop_first());
        }
        i += 1;
        proof {
            assert(out@ + gfm_cell(s@, i as int) =~= before + gfm_cell(s@, i - 1));
        }
    }
    assert(out@ + gfm_cell(s@, n as int) =~= out@);
    assert(out@ + s@.subrange(n as int, n as int) =~= out@);
    out
}

/* ---------- HTML blocks ---------- */

pub open spec fn lower_seq(b: Seq<u8>) -> Seq<u8> {
    Seq::new(b.len(), |k: int| lower(b[k]))
}

pub fn ascii_lower(b: &[u8]) -> (r: Vec<u8>)
    ensures
        r@ == lower_seq(b@),
{
    let mut out: Vec<u8> = Vec::new();
    let mut i: usize = 0;
    while i < b.len()
        invariant
            i <= b@.len(),
            out@ == lower_seq(b@).subrange(0, i as int),
        decreases b@.len() - i,
    {
        let x: u8 = b[i];
        out.push(
            if 65 <= x && x <= 90 {
                x + 32
            } else {
                x
            },
        );
        i += 1;
        assert(out@ =~= lower_seq(b@).subrange(0, i as int));
    }
    assert(lower_seq(b@).subrange(0, i as int) =~= lower_seq(b@));
    out
}

/// `<h1` to `<h6` followed by `>` or white space: the level.
pub open spec fn heading_tag_level(b: Seq<u8>) -> Option<u8> {
    if b.len() >= 4 && b[0] == 60 && b[1] == 104 && 49 <= b[2] <= 54 && (b[3] == 62 || b[3] == 32
        || b[3] == 9 || b[3] == 10) {
        Some((b[2] - 48) as u8)
    } else {
        None
    }
}

pub fn html_heading_level(lower_trimmed: &[u8]) -> (r: Option<u8>)
    ensures
        r == heading_tag_level(lower_trimmed@),
{
    let b = lower_trimmed;
    if b.len() < 4 || b[0] != 60 || b[1] != 104 {
        return None;
    }
    if !(49 <= b[2] && b[2] <= 54) {
        return None;
    }
    if b[3] == 62 || b[3] == 32 || b[3] == 9 || b[3] == 10 {
        Some(b[2] - 48)
    } else {
        None
    }
}

pub open spec fn summary_open() -> Seq<u8> {
    seq![60u8, 115, 117, 109, 109, 97, 114, 121]
}

pub open spec fn summary_close() -> Seq<u8> {
    seq![60u8, 47, 115, 117, 109, 109, 97, 114, 121, 62]
}

/// Span of the inner text of the first `<summary …>…</summary>`.
pub open spec fn summary_span(l: Seq<u8>) -> Option<(int, int)> {
    match first_match(l, summary_open(), 0, l.len() as int) {
        Some(open) => match first_of(l, 62, open + 8, l.len() as int) {
            Some(gt) => match first_match(l, summary_close(), gt, l.len() as int) {
                Some(close) => Some((gt + 1, close)),
                None => None,
            },
            None => None,
        },
        None => None,
    }
}

pub proof fn lemma_summary_span_bounds(l: Seq<u8>)
    ensures
        summary_span(l) matches Some((s, e)) ==> 0 < s <= e <= l.len(),
{
    lemma_first_match_props(l, summary_open(), 0, l.len() as int);
    if let Some(open) = first_match(l, summary_open(), 0, l.len() as int) {
        lemma_first_of_props(l, 62, open + 8, l.len() as int);
        if let Some(gt) = first_of(l, 62, open + 8, l.len() as int) {
            lemma_first_match_props(l, summary_close(), gt, l.len() as int);
            if let Some(close) = first_match(l, summary_close(), gt, l.len() as int) {
                assert(l[gt] == 62);
                assert(l[close] == summary_close()[0]);
            }
        }
    }
}

pub fn html_summary_range(lower: &[u8]) -> (r: Option<(usize, usize)>)
    ensures
        r matches Some(p) ==> summary_span(lower@) == Some((p.0 as int, p.1 as int)),
        r is None ==> summary_span(lower@) is None,
{
    let n: usize = lower.len();
    let open_tag: [u8; 8] = [60, 115, 117, 109, 109, 97, 114, 121];
    let close_tag: [u8; 10] = [60, 47, 115, 117, 109, 109, 97, 114, 121, 62];
    assert(open_tag@ =~= summary_open());
    assert(close_tag@ =~= summary_close());
    proof {
        lemma_first_match_props(lower@, summary_open(), 0, n as int);
    }
    let open = match find_seq(lower, &open_tag, 0, n) {
        Some(o) => o,
        None => return None,
    };
    let after = open + 8;
    proof {
        lemma_first_of_props(lower@, 62, after as int, n as int);
    }
    let gt = match find_byte(lower, 62, after, n) {
        Some(g) => g,
        None => return None,
    };
    proof {
        lemma_first_match_props(lower@, summary_close(), gt as int, n as int);
    }
    let close = match find_seq(lower, &close_tag, gt, n) {
        Some(c) => c,
        None => return None,
    };
    Some((gt + 1, close))
}


/* ---------- white space collapsing ---------- */

/// First white space character at or after `i` that fits before `e` (or `e`).
pub open spec fn word_end(b: Seq<u8>, i: int, e: int) -> int
    decreases e - i,
{
    if i < e && !(ws_at(b, i) > 0 && i + ws_at(b, i) <= e) {
        word_end(b, i + 1, e)
    } else {
        i
    }
}

pub proof fn lemma_word_end(b: Seq<u8>, i: int, e: int)
    requires
        0 <= i <= e <= b.len(),
    ensures
        i <= word_end(b, i, e) <= e,
        word_end(b, i, e) < e ==> ws_at(b, word_end(b, i, e)) > 0,
    decreases e - i,
{
    if i < e && !(ws_at(b, i) > 0 && i + ws_at(b, i) <= e) {
        lemma_word_end(b, i + 1, e);
    }
}

pub proof fn lemma_trim_start(b: Seq<u8>, a: int, e: int)
    requires
        0 <= a <= e <= b.len(),
    ensures
        a <= crate::text::trim_start_at(b, a, e) <= e,
        crate::text::trim_start_at(b, a, e) < e ==> !(ws_at(b, crate::text::trim_start_at(b, a, e))
            > 0 && crate::text::trim_start_at(b, a, e) + ws_at(b, crate::text::trim_start_at(b, a, e))
            <= e),
    decreases e - a,
{
    if a < e && ws_at(b, a) > 0 && a + ws_at(b, a) <= e {
        lemma_trim_start(b, a + ws_at(b, a), e);
    }
}

/// The words of `b[a..e]` (split at white space) joined by single spaces.
pub open spec fn collapse(b: Seq<u8>, a: int, e: int) -> Seq<u8>
    decreases e - a,
{
    if a < 0 || a > e || e > b.len() {
        Seq::empty()
    } else {
        let s = crate::text::trim_start_at(b, a, e);
        if s >= e {
            Seq::empty()
        } else {
            let w = word_end(b, s, e);
            proof {
                lemma_trim_start(b, a, e);
                lemma_word_end(b, s + 1, e);
            }
            let rest = collapse(b, w, e);
            if rest.len() == 0 {
                b.subrange(s, w)
            } else {
                b.subrange(s, w) + seq![32u8] + rest
            }
        }
    }
}

pub open spec fn join_sp(x: Seq<u8>, y: Seq<u8>) -> Seq<u8> {
    if x.len() == 0 {
        y
    } else if y.len() == 0 {
        x
    } else {
        x + seq![32u8] + y
    }
}

/// A white space character starts a character.
proof fn lemma_ws_boundary(b: Seq<u8>, i: int)
    requires
        valid_utf8(b),
        0 <= i < b.len(),
        ws_at(b, i) > 0,
    ensures
        at_boundary(b, i),
{
}

/// After a white space character that starts at a boundary comes a boundary.
proof fn lemma_ws_step(b: Seq<u8>, i: int)
    requires
        valid_utf8(b),
        0 <= i < b.len(),
        at_boundary(b, i),
        ws_at(b, i) > 0,
    ensures
        at_boundary(b, i + ws_at(b, i)),
{
    crate::text::lemma_scalar_end(b, i);
}

pub proof fn lemma_trim_start_boundary(b: Seq<u8>, a: int, e: int)
    requires
        valid_utf8(b),
        0 <= a <= e <= b.len(),
        at_boundary(b, a),
    ensures
        at_boundary(b, crate::text::trim_start_at(b, a, e)),
    decreases e - a,
{
    if a < e && ws_at(b, a) > 0 && a + ws_at(b, a) <= e {
        lemma_ws_step(b, a);
        lemma_trim_start_boundary(b, a + ws_at(b, a), e);
    }
}

pub fn word_end_idx(b: &[u8], i: usize, e: usize) -> (r: usize)
    requires
        i <= e <= b@.len(),
    ensures
        r as int == word_end(b@, i as int, e as int),
        i <= r <= e,
{
    proof {
        lemma_word_end(b@, i as int, e as int);
    }
    let mut k: usize = i;
    while k < e
        invariant
            i <= k <= e <= b@.len(),
            word_end(b@, i as int, e as int) == word_end(b@, k as int, e as int),
        decreases e - k,
    {
        let w = crate::text::ws_len_at(b, k);
        if w > 0 && w <= e - k {
            return k;
        }
        k += 1;
    }
    k
}

pub fn collapse_ws(b: &[u8], a: usize, e: usize) -> (r: Vec<u8>)
    requires
        a <= e <= b@.len(),
        valid_utf8(b@),
        at_boundary(b@, a as int),
        at_boundary(b@, e as int),
    ensures
        r@ == collapse(b@, a as int, e as int),
        valid_utf8(r@),
{
    let mut out: Vec<u8> = Vec::new();
    let mut i: usize = a;
    proof {
        crate::text::lemma_ascii_valid(out@);
    }
    loop
        invariant
            a <= i <= e <= b@.len(),
            valid_utf8(b@),
            at_boundary(b@, i as int),
            at_boundary(b@, e as int),
            join_sp(out@, collapse(b@, i as int, e as int)) == collapse(b@, a as int, e as int),
            valid_utf8(out@),
        decreases e - i,
    {
        let s = crate::text::trim_start_idx(b, i, e);
        proof {
            lemma_trim_start(b@, i as int, e as int);
            lemma_trim_start_boundary(b@, i as int, e as int);
        }
        if s >= e {
            proof {
                assert(collapse(b@, i as int, e as int) =~= Seq::<u8>::empty());
                assert(join_sp(out@, Seq::<u8>::empty()) == out@);
            }
            return out;
        }
        let w = word_end_idx(b, s, e);
        proof {
            lemma_word_end(b@, s as int + 1, e as int);
            lemma_word_end(b@, s as int, e as int);
            if w < e {
                lemma_ws_boundary(b@, w as int);
            }
            lemma_sub_valid(b@, s as int, w as int);
        }
        let ghost before = out@;
        let ghost word = b@.subrange(s as int, w as int);
        let ghost rest = collapse(b@, w as int, e as int);
        assert(collapse(b@, i as int, e as int) == if rest.len() == 0 {
            word
        } else {
            word + seq![32u8] + rest
        });
        if out.len() > 0 {
            proof {
                crate::text::lemma_ascii_valid(seq![32u8]);
                lemma_valid_concat(before, seq![32u8]);
                assert(before + seq![32u8] =~= before.push(32));
            }
            out.push(32);
        }
        let mut k: usize = s;
        let ghost mid = out@;
        while k < w
            invariant
                s <= k <= w <= e <= b@.len(),
                out@ == mid + b@.subrange(s as int, k as int),
            decreases w - k,
        {
            out.push(b[k]);
            k += 1;
            assert(out@ =~= mid + b@.subrange(s as int, k as int));
        }
        proof {
            assert(word.len() > 0);
            if before.len() == 0 {
                assert(out@ =~= word);
            } else {
                assert(out@ =~= before + seq![32u8] + word);
            }
            lemma_valid_concat(mid, word);
            assert(join_sp(out@, rest) =~= join_sp(before, collapse(b@, i as int, e as int)));
        }
        i = w;
    }
}

/// Inner text of the first `<summary>…</summary>`, white space collapsed;
/// nothing when that is empty.
pub open spec fn summary_text(t: Seq<u8>, l: Seq<u8>) -> Option<Seq<u8>> {
    match summary_span(l) {
        Some((s, e)) => if s <= e <= t.len() && at_boundary(t, s) && at_boundary(t, e) {
            let c = collapse(t, s, e);
            if c.len() > 0 {
                Some(c)
            } else {
                None
            }
        } else {
            None
        },
        None => None,
    }
}

pub fn html_summary_text(t: &[u8], lower: &[u8]) -> (r: Option<Vec<u8>>)
    requires
        valid_utf8(t@),
    ensures
        match r {
            Some(v) => summary_text(t@, lower@) == Some(v@) && valid_utf8(v@),
            None => summary_text(t@, lower@) is None,
        },
{
    let (s, e) = match html_summary_range(lower) {
        Some(p) => p,
        None => return None,
    };
    if s <= e && e <= t.len() && crate::text::is_boundary(t, s) && crate::text::is_boundary(t, e) {
        let c = collapse_ws(t, s, e);
        if c.len() > 0 {
            Some(c)
        } else {
            None
        }
    } else {
        None
    }
}

/// The character ending at `p` splits attribute tokens.
pub open spec fn sep_before(b: Seq<u8>, p: int) -> bool {
    crate::text::ws_before(b, p) > 0 || (0 < p <= b.len() && (b[p - 1] == 47 || b[p - 1] == 61
        || b[p - 1] == 34 || b[p - 1] == 39))
}

/// The character starting at `p` splits attribute tokens.
pub open spec fn sep_at(b: Seq<u8>, p: int) -> bool {
    ws_at(b, p) > 0 || (0 <= p < b.len() && (b[p] == 47 || b[p] == 61 || b[p] == 34 || b[p]
        == 39))
}

pub open spec fn open_word() -> Seq<u8> {
    seq![111u8, 112, 101, 110]
}

/// `b[p..p+4]` is a whole `open` token of the attributes `b[a..g]`.
pub open spec fn open_token_at(b: Seq<u8>, p: int, a: int, g: int) -> bool {
    a <= p && p + 4 <= g && matches_at(b, p, open_word()) && (p == a || sep_before(b, p)) && (p + 4
        == g || sep_at(b, p + 4))
}

pub open spec fn has_open_token(l: Seq<u8>, g: int) -> bool {
    exists|p: int| #[trigger] open_token_at(l, p, 8, g)
}

/// The `<details …>` open tag (lowercased) carries a standalone `open`.
pub open spec fn details_open(l: Seq<u8>) -> bool {
    l.len() >= 8 && match first_of(l, 62, 8, l.len() as int) {
        Some(g) => has_open_token(l, g),
        None => false,
    }
}

pub fn html_details_open(lower: &[u8]) -> (r: bool)
    ensures
        r == details_open(lower@),
{
    let n: usize = lower.len();
    if n < 8 {
        return false;
    }
    proof {
        lemma_first_of_props(lower@, 62, 8, n as int);
    }
    let g = match find_byte(lower, 62, 8, n) {
        Some(g) => g,
        None => return false,
    };
    let word: [u8; 4] = [111, 112, 101, 110];
    assert(word@ =~= open_word());
    assert(first_of(lower@, 62, 8, n as int) == Some(g as int));
    if g < 12 {
        assert forall|q: int| !open_token_at(lower@, q, 8, g as int) by {}
        assert(!details_open(lower@));
        return false;
    }
    let mut p: usize = 8;
    while p <= g - 4
        invariant
            8 <= p <= g < n == lower@.len(),
            12 <= g,
            word@ == open_word(),
            first_of(lower@, 62, 8, n as int) == Some(g as int),
            forall|q: int| 8 <= q < p ==> !open_token_at(lower@, q, 8, g as int),
        decreases g - p,
    {
        if starts_at(lower, p, &word) {
            let before_ok = p == 8 || crate::text::ws_len_before(lower, p) > 0 || lower[p - 1] == 47
                || lower[p - 1] == 61 || lower[p - 1] == 34 || lower[p - 1] == 39;
            let after_ok = p + 4 == g || crate::text::ws_len_at(lower, p + 4) > 0 || lower[p + 4]
                == 47 || lower[p + 4] == 61 || lower[p + 4] == 34 || lower[p + 4] == 39;
            if before_ok && after_ok {
                assert(matches_at(lower@, p as int, open_word()));
                assert(p == 8 || sep_before(lower@, p as int));
                assert(p + 4 == g || sep_at(lower@, p + 4));
                assert(open_token_at(lower@, p as int, 8, g as int));
                assert(first_of(lower@, 62, 8, n as int) == Some(g as int));
                assert(has_open_token(lower@, g as int));
                return true;
            }
        }
        p += 1;
    }
    proof {
        assert forall|q: int| !open_token_at(lower@, q, 8, g as int) by {
            if 8 <= q < p {
            }
        }
    }
    false
}


/* ---------- code blocks ---------- */

/// The line starting at `i` is empty or white space only.
pub open spec fn blank_line(b: Seq<u8>, i: int) -> bool {
    let ce = line_content_end(b, i);
    crate::text::trim_start_at(b, i, ce) >= ce
}

/// Indent (spaces and tabs) of the first non-blank line from `i` on.
pub open spec fn first_text_indent(b: Seq<u8>, i: int) -> int
    decreases b.len() + 1 - i,
{
    if i < 0 || i >= b.len() {
        0
    } else if !blank_line(b, i) {
        indent_of(b, i)
    } else {
        let j = line_end(b, i);
        proof {
            lemma_line_end(b, i);
        }
        first_text_indent(b, j + 1)
    }
}

/// Occurrences of `c` in `b[a..e]`.
pub open spec fn count_byte(b: Seq<u8>, c: u8, a: int, e: int) -> int
    decreases e - a,
{
    if a >= e {
        0
    } else {
        (if b[a] == c {
            1int
        } else {
            0int
        }) + count_byte(b, c, a + 1, e)
    }
}

pub proof fn lemma_count_byte(b: Seq<u8>, c: u8, a: int, e: int)
    requires
        a <= e,
    ensures
        0 <= count_byte(b, c, a, e) <= e - a,
    decreases e - a,
{
    if a < e {
        lemma_count_byte(b, c, a + 1, e);
    }
}

/// Visual indent of a code block: the indent of its first non-blank line,
/// plus the columns before the block on its first line (a tab counts 2),
/// at most 12.
pub open spec fn fence_indent(src: Seq<u8>, rs: int, slice: Seq<u8>) -> int {
    let n = first_text_indent(slice, 0);
    let extra = if rs > 0 {
        let r = if rs < src.len() {
            rs
        } else {
            src.len() as int
        };
        let ls = match last_of(src, 10, 0, r) {
            Some(i) => i + 1,
            None => 0,
        };
        if at_boundary(src, r) {
            count_byte(src, 32, ls, r) + 2 * count_byte(src, 9, ls, r)
        } else {
            0
        }
    } else {
        0
    };
    if n + extra < 12 {
        n + extra
    } else {
        12
    }
}

pub fn count_byte_exec(b: &[u8], c: u8, a: usize, e: usize) -> (r: usize)
    requires
        a <= e <= b@.len(),
    ensures
        r as int == count_byte(b@, c, a as int, e as int),
{
    let mut k: usize = e;
    let mut n: usize = 0;
    proof {
        lemma_count_byte(b@, c, a as int, e as int);
    }
    while k > a
        invariant
            a <= k <= e <= b@.len(),
            n as int + count_byte(b@, c, a as int, k as int) == count_byte(b@, c, a as int, e as int),
            n <= e - k,
        decreases k,
    {
        proof {
            lemma_count_split(b@, c, a as int, k as int);
        }
        if b[k - 1] == c {
            n += 1;
        }
        k -= 1;
    }
    n
}

proof fn lemma_count_split(b: Seq<u8>, c: u8, a: int, k: int)
    requires
        a < k,
    ensures
        count_byte(b, c, a, k) == count_byte(b, c, a, k - 1) + if b[k - 1] == c {
            1int
        } else {
            0int
        },
    decreases k - a,
{
    assert(count_byte(b, c, a, k) == (if b[a] == c { 1int } else { 0int }) + count_byte(
        b,
        c,
        a + 1,
        k,
    ));
    if a < k - 1 {
        lemma_count_split(b, c, a + 1, k);
        assert(count_byte(b, c, a, k - 1) == (if b[a] == c { 1int } else { 0int }) + count_byte(
            b,
            c,
            a + 1,
            k - 1,
        ));
    } else {
        assert(count_byte(b, c, a + 1, k) == 0);
        assert(count_byte(b, c, a, k - 1) == 0);
    }
}

pub fn is_blank_line(b: &[u8], i: usize) -> (r: bool)
    requires
        i <= b@.len(),
    ensures
        r == blank_line(b@, i as int),
{
    let ce = line_content_end_idx(b, i);
    crate::text::trim_start_idx(b, i, ce) >= ce
}

fn first_text_indent_exec(b: &[u8]) -> (r: usize)
    ensures
        r as int == first_text_indent(b@, 0),
{
    let n: usize = b.len();
    let mut i: usize = 0;
    while i < n
        invariant
            i <= n == b@.len(),
            first_text_indent(b@, 0) == first_text_indent(b@, i as int),
        decreases n - i,
    {
        proof {
            lemma_line_end(b@, i as int);
        }
        if !is_blank_line(b, i) {
            return indent_len(b, i);
        }
        let j = line_end_idx(b, i);
        assert(first_text_indent(b@, i as int) == first_text_indent(b@, j + 1));
        if j >= n {
            assert(first_text_indent(b@, j + 1) == 0);
            return 0;
        }
        i = j + 1;
    }
    0
}

pub fn code_fence_indent(src: &[u8], range_start: usize, slice: &[u8]) -> (r: usize)
    ensures
        r as int == fence_indent(src@, range_start as int, slice@),
{
    let n = first_text_indent_exec(slice);
    let mut extra_spaces: usize = 0;
    let mut extra_tabs: usize = 0;
    if range_start > 0 {
        let r: usize = if range_start < src.len() {
            range_start
        } else {
            src.len()
        };
        proof {
            lemma_last_of_props(src@, 10, 0, r as int);
        }
        let ls: usize = match rfind_byte(src, 10, 0, r) {
            Some(i) => i + 1,
            None => 0,
        };
        if crate::text::is_boundary(src, r) {
            extra_spaces = count_byte_exec(src, 32, ls, r);
            extra_tabs = count_byte_exec(src, 9, ls, r);
        }
    }
    let cap = |x: usize| -> (y: usize)
        ensures
            y == if x < 12 { x } else { 12 },
        {
            if x < 12 {
                x
            } else {
                12
            }
        };
    let total = cap(n) + cap(extra_spaces) + 2 * cap(extra_tabs);
    cap(total)
}

/// Smallest indent among the non-blank lines from `i` on.
pub open spec fn min_text_indent(b: Seq<u8>, i: int) -> Option<int>
    decreases b.len() + 1 - i,
{
    if i < 0 || i >= b.len() {
        None
    } else {
        let j = line_end(b, i);
        proof {
            lemma_line_end(b, i);
        }
        let rest = min_text_indent(b, j + 1);
        if blank_line(b, i) {
            rest
        } else {
            let k = indent_of(b, i);
            match rest {
                Some(m) => Some(
                    if k < m {
                        k
                    } else {
                        m
                    },
                ),
                None => Some(k),
            }
        }
    }
}

/// Lines from `i` on with their first `k` bytes dropped (blank lines
/// emptied), joined by `'\n'`.
pub open spec fn dedent_from(b: Seq<u8>, i: int, k: int) -> Seq<u8>
    decreases b.len() + 1 - i,
{
    if i < 0 || i >= b.len() {
        Seq::empty()
    } else {
        let ce = line_content_end(b, i);
        let piece = if blank_line(b, i) {
            Seq::empty()
        } else {
            b.subrange(i + k, ce)
        };
        let j = line_end(b, i) + 1;
        proof {
            lemma_line_end(b, i);
        }
        if j < b.len() {
            piece + seq![10u8] + dedent_from(b, j, k)
        } else {
            piece
        }
    }
}

/// A code body without the indent that all its non-blank lines share.
pub open spec fn dedented(b: Seq<u8>) -> Seq<u8> {
    if first_of(b, 10, 0, b.len() as int) is None {
        b.subrange(indent_of(b, 0), b.len() as int)
    } else {
        match min_text_indent(b, 0) {
            Some(k) => if k == 0 {
                b
            } else {
                dedent_from(b, 0, k)
            },
            None => b,
        }
    }
}

proof fn lemma_trim_spaces(b: Seq<u8>, a: int, e: int)
    requires
        0 <= a <= e <= b.len(),
        forall|k: int| a <= k < e ==> (#[trigger] b[k] == 32 || b[k] == 9),
    ensures
        crate::text::trim_start_at(b, a, e) == e,
    decreases e - a,
{
    if a < e {
        assert(ws_at(b, a) == 1);
        lemma_trim_spaces(b, a + 1, e);
    }
}

/// A non-blank line has text after its indent.
proof fn lemma_text_after_indent(b: Seq<u8>, i: int)
    requires
        0 <= i < b.len(),
        !blank_line(b, i),
    ensures
        i + indent_of(b, i) < line_content_end(b, i),
{
    lemma_line_end(b, i);
    lemma_indent_of(b, i);
    let ce = line_content_end(b, i);
    if i + indent_of(b, i) >= ce {
        lemma_trim_spaces(b, i, ce);
    }
}

proof fn lemma_min_text_indent(b: Seq<u8>, i: int)
    requires
        0 <= i,
    ensures
        min_text_indent(b, i) matches Some(m) ==> m >= 0,
    decreases b.len() + 1 - i,
{
    if i < b.len() {
        lemma_line_end(b, i);
        lemma_min_text_indent(b, line_end(b, i) + 1);
        lemma_indent_of(b, i);
    }
}

pub fn dedent_code(body: &[u8]) -> (r: Vec<u8>)
    requires
        valid_utf8(body@),
    ensures
        r@ == dedented(body@),
        valid_utf8(r@),
{
    let n: usize = body.len();
    let ghost b = body@;
    proof {
        crate::text::lemma_boundary_zero(b);
        lemma_first_of_props(b, 10, 0, n as int);
    }
    if find_byte(body, 10, 0, n).is_none() {
        let k = indent_len(body, 0);
        proof {
            lemma_indent_of(b, 0);
            if k > 0 {
                lemma_after_ascii(b, k - 1);
            }
            lemma_sub_valid(b, k as int, n as int);
        }
        return crate::text::slice_vec(body, k, n);
    }
    // smallest indent of the non-blank lines
    let mut min: Option<usize> = None;
    let mut i: usize = 0;
    while i < n
        invariant
            i <= n == b.len(),
            b == body@,
            min_text_indent(b, 0) == match min {
                None => min_text_indent(b, i as int),
                Some(m) => match min_text_indent(b, i as int) {
                    Some(r) => Some(if m < r { m as int } else { r }),
                    None => Some(m as int),
                },
            },
        decreases n - i,
    {
        let j = line_end_idx(body, i);
        proof {
            lemma_line_end(b, i as int);
        }
        let ghost rest = min_text_indent(b, j + 1);
        let ghost old_min = min;
        assert(min_text_indent(b, i as int) == if blank_line(b, i as int) {
            rest
        } else {
            let kk = indent_of(b, i as int);
            match rest {
                Some(m) => Some(
                    if kk < m {
                        kk
                    } else {
                        m
                    },
                ),
                None => Some(kk),
            }
        });
        if !is_blank_line(body, i) {
            let k = indent_len(body, i);
            min = match min {
                Some(m) => Some(
                    if k < m {
                        k
                    } else {
                        m
                    },
                ),
                None => Some(k),
            };
        }
        if j >= n {
            assert(rest is None);
            i = n;
        } else {
            i = j + 1;
        }
    }
    let k: usize = match min {
        Some(m) => m,
        None => 0,
    };
    if k == 0 {
        let r = crate::text::slice_vec(body, 0, n);
        assert(r@ =~= b);
        return r;
    }
    // drop `k` bytes from every non-blank line
    let mut out: Vec<u8> = Vec::new();
    let mut i: usize = 0;
    proof {
        crate::text::lemma_ascii_valid(out@);
    }
    while i < n
        invariant
            i <= n == b.len(),
            b == body@,
            valid_utf8(b),
            0 < k,
            min_text_indent(b, 0) == Some(k as int),
            match min_text_indent(b, i as int) {
                Some(m) => k <= m,
                None => true,
            },
            out@ + dedent_from(b, i as int, k as int) == dedent_from(b, 0, k as int),
            valid_utf8(out@),
        decreases n - i,
    {
        let ce = line_content_end_idx(body, i);
        let j = line_end_idx(body, i);
        proof {
            lemma_line_end(b, i as int);
            lemma_min_text_indent(b, j + 1);
        }
        let ghost before = out@;
        let blank = is_blank_line(body, i);
        if !blank {
            proof {
                lemma_text_after_indent(b, i as int);
                lemma_indent_of(b, i as int);
                lemma_after_ascii(b, i + k - 1);
                if ce < n {
                    assert(b[ce as int] == 10 || b[ce as int] == 13);
                } else {
                    crate::text::lemma_boundary_zero(b);
                }
                lemma_sub_valid(b, i + k, ce as int);
                lemma_valid_concat(before, b.subrange(i + k, ce as int));
            }
            let mut t: usize = i + k;
            while t < ce
                invariant
                    i + k <= t <= ce <= n == b.len(),
                    b == body@,
                    out@ == before + b.subrange(i + k, t as int),
                decreases ce - t,
            {
                out.push(body[t]);
                t += 1;
                assert(out@ =~= before + b.subrange(i + k, t as int));
            }
        }
        let ghost piece = if blank {
            Seq::<u8>::empty()
        } else {
            b.subrange(i + k, ce as int)
        };
        assert(out@ =~= before + piece);
        if j < n - 1 {
            proof {
                crate::text::lemma_ascii_valid(seq![10u8]);
                lemma_valid_concat(out@, seq![10u8]);
                assert(out@ + seq![10u8] =~= out@.push(10));
            }
            out.push(10);
            proof {
                assert(dedent_from(b, i as int, k as int) == piece + seq![10u8] + dedent_from(
                    b,
                    j + 1,
                    k as int,
                ));
                assert(out@ + dedent_from(b, j + 1, k as int) =~= before + dedent_from(
                    b,
                    i as int,
                    k as int,
                ));
            }
            i = j + 1;
        } else {
            proof {
                assert(dedent_from(b, i as int, k as int) == piece);
                assert(dedent_from(b, n as int, k as int) =~= Seq::<u8>::empty());
                assert(out@ + dedent_from(b, n as int, k as int) =~= out@);
            }
            i = n;
        }
    }
    out
}

} // verus!
