//! YAML frontmatter (`---` block) for `.md` / `.mdx`.
//!
//! The leading `---` block parses into [`Prop`]s, one per key, so each
//! value can be edited as its own row. [`quote_if_needed`] serializes values
//! back; [`plain_inlines`] builds the initial inline run of a value.
use vstd::prelude::*;
use vstd::utf8::*;

use crate::document::{blank_text, trim_bytes, trim_end_bytes};
use crate::projection::{lead_run, tail_run};
use crate::text::{
    first_match, first_of, lemma_first_of_props, lemma_line_end, lemma_sub_valid, lemma_utf8_valid, line_end,
    trim_start_at, utf8,
};

verus! {

broadcast use vstd::seq::group_seq_axioms, vstd::slice::group_slice_axioms;

/// One `key: value` property of the frontmatter.
#[derive(Debug)]
pub struct Prop {
    pub key: String,
    pub value: String,
}

/// The parsed frontmatter: its properties in file order.
#[derive(Debug)]
pub struct Frontmatter {
    pub props: Vec<Prop>,
}

impl Frontmatter {
    pub fn is_empty(&self) -> (r: bool)
        ensures
            r == (self.props@.len() == 0),
    {
        self.props.len() == 0
    }
}

impl Default for Frontmatter {
    fn default() -> (r: Frontmatter)
        ensures
            r.props@.len() == 0,
    {
        Frontmatter { props: Vec::new() }
    }
}

/* ---------- byte helpers ---------- */

/// `s` without leading white space.
pub open spec fn trim_start_bytes(s: Seq<u8>) -> Seq<u8> {
    s.subrange(trim_start_at(s, 0, s.len() as int), s.len() as int)
}

/// `s.trim_matches(c)` for an ASCII `c`.
pub open spec fn strip_runs(s: Seq<u8>, c: u8) -> Seq<u8> {
    let a = lead_run(s, c, 0, s.len() as int);
    s.subrange(a, s.len() - tail_run(s, c, a, s.len() as int))
}

/// `s` without surrounding double quotes, then single quotes.
pub open spec fn unquote_runs(s: Seq<u8>) -> Seq<u8> {
    strip_runs(strip_runs(s, 34), 39)
}

/// A cut of valid UTF-8 next to ASCII bytes is valid.
pub proof fn lemma_cut_ascii(s: Seq<u8>, a: int, e: int)
    requires
        valid_utf8(s),
        0 <= a <= e <= s.len(),
        a == 0 || s[a - 1] < 0x80,
        e == s.len() || s[e] < 0x80,
    ensures
        valid_utf8(s.subrange(a, e)),
{
    crate::text::lemma_boundary_zero(s);
    if a > 0 {
        crate::text::lemma_after_ascii(s, a - 1);
    }
    lemma_sub_valid(s, a, e);
}

pub proof fn lemma_trim_valid(s: Seq<u8>)
    requires
        valid_utf8(s),
    ensures
        valid_utf8(trim_bytes(s)),
        valid_utf8(trim_end_bytes(s)),
        valid_utf8(trim_start_bytes(s)),
{
    crate::text::lemma_boundary_zero(s);
    crate::html::lemma_trim_boundaries(s, 0, s.len() as int);
    lemma_sub_valid(
        s,
        trim_start_at(s, 0, s.len() as int),
        crate::text::trim_end_at(s, trim_start_at(s, 0, s.len() as int), s.len() as int),
    );
    lemma_sub_valid(s, trim_start_at(s, 0, s.len() as int), s.len() as int);
    crate::html::lemma_trim_end_boundary(s, 0, s.len() as int);
    lemma_sub_valid(s, 0, crate::text::trim_end_at(s, 0, s.len() as int));
}

pub proof fn lemma_strip_runs(s: Seq<u8>, c: u8)
    requires
        c < 0x80,
    ensures
        valid_utf8(s) ==> valid_utf8(strip_runs(s, c)),
        strip_runs(s, c).len() <= s.len(),
{
    let n = s.len() as int;
    crate::projection::lemma_lead_run(s, c, 0, n);
    let a = lead_run(s, c, 0, n);
    crate::projection::lemma_tail_run(s, c, a, n);
    let e = n - tail_run(s, c, a, n);
    if valid_utf8(s) {
        if a > 0 {
            assert(s[a - 1] == c);
        }
        if e < n {
            assert(s[e] == c);
        }
        lemma_cut_ascii(s, a, e);
    }
}

/// Trimmed copy of `b[a..e]`.
pub fn trimmed_vec(b: &[u8], a: usize, e: usize) -> (r: Vec<u8>)
    requires
        a <= e <= b@.len(),
    ensures
        r@ == trim_bytes(b@.subrange(a as int, e as int)),
{
    let s = crate::text::slice_vec(b, a, e);
    let m: usize = s.len();
    let x = crate::text::trim_start_idx(s.as_slice(), 0, m);
    let y = crate::text::trim_end_idx(s.as_slice(), x, m);
    crate::text::slice_vec(s.as_slice(), x, y)
}

fn strip_runs_vec(s: &[u8], c: u8) -> (r: Vec<u8>)
    ensures
        r@ == strip_runs(s@, c),
{
    let n: usize = s.len();
    let a = crate::projection::lead_run_len(s, c, 0, n);
    let t = crate::projection::tail_run_len(s, c, a, n);
    crate::text::slice_vec(s, a, n - t)
}

fn unquote_runs_vec(s: &[u8]) -> (r: Vec<u8>)
    ensures
        r@ == unquote_runs(s@),
{
    let x = strip_runs_vec(s, 34);
    strip_runs_vec(x.as_slice(), 39)
}

/* ---------- the `---` block ---------- */

/// End of the line that starts at `i`, its line break included, as
/// `split_inclusive('\n')` yields it.
pub open spec fn incl_end(b: Seq<u8>, i: int) -> int {
    if line_end(b, i) < b.len() {
        line_end(b, i) + 1
    } else {
        b.len() as int
    }
}

/// The line at `i` without its line break and surrounding white space.
pub open spec fn line_text(b: Seq<u8>, i: int) -> Seq<u8> {
    trim_bytes(b.subrange(i, crate::text::trim_nl_end(b, i, incl_end(b, i))))
}

pub open spec fn is_dashes(t: Seq<u8>) -> bool {
    t == seq![45u8, 45, 45]
}

pub open spec fn is_dots(t: Seq<u8>) -> bool {
    t == seq![46u8, 46, 46]
}

/// Start of the first line from `i` on that closes the block (`---` or `...`).
pub open spec fn close_from(b: Seq<u8>, i: int) -> Option<int>
    decreases b.len() - i,
{
    if i < 0 || i >= b.len() {
        None
    } else if is_dashes(line_text(b, i)) || is_dots(line_text(b, i)) {
        Some(i)
    } else {
        proof {
            lemma_line_end(b, i);
        }
        close_from(b, incl_end(b, i))
    }
}

/// `(body_start, inner_start, inner_end)` of a leading `---` block.
pub open spec fn fm_split(b: Seq<u8>) -> Option<(int, int, int)> {
    if b.len() == 0 || !is_dashes(line_text(b, 0)) {
        None
    } else {
        let s = incl_end(b, 0);
        match close_from(b, s) {
            Some(p) => Some((incl_end(b, p), s, p)),
            None => None,
        }
    }
}

proof fn lemma_close_from(b: Seq<u8>, i: int)
    requires
        0 <= i,
    ensures
        close_from(b, i) matches Some(p) ==> i <= p < incl_end(b, p) <= b.len(),
    decreases b.len() - i,
{
    if 0 <= i < b.len() {
        lemma_line_end(b, i);
        if !(is_dashes(line_text(b, i)) || is_dots(line_text(b, i))) {
            lemma_close_from(b, incl_end(b, i));
        }
    }
}

/// Trimmed text of the line at `i`, and where the next line starts.
fn line_text_at(b: &[u8], i: usize) -> (r: (Vec<u8>, usize))
    requires
        i < b@.len(),
    ensures
        r.0@ == line_text(b@, i as int),
        r.1 as int == incl_end(b@, i as int),
        i < r.1 <= b@.len(),
{
    let n: usize = b.len();
    let le = crate::text::line_end_idx(b, i);
    let ie = if le < n {
        le + 1
    } else {
        n
    };
    let te = crate::text::trim_nl_end_idx(b, i, ie);
    (trimmed_vec(b, i, te), ie)
}

fn is_dashes_exec(t: &[u8]) -> (r: bool)
    ensures
        r == is_dashes(t@),
{
    let r = t.len() == 3 && t[0] == 45 && t[1] == 45 && t[2] == 45;
    proof {
        if r {
            assert(t@ =~= seq![45u8, 45, 45]);
        }
    }
    r
}

fn is_dots_exec(t: &[u8]) -> (r: bool)
    ensures
        r == is_dots(t@),
{
    let r = t.len() == 3 && t[0] == 46 && t[1] == 46 && t[2] == 46;
    proof {
        if r {
            assert(t@ =~= seq![46u8, 46, 46]);
        }
    }
    r
}

/// Split leading `---\n…\n---` off `src`. Returns `(body_start, inner_yaml)`.
pub fn split(src: &str) -> (r: Option<(usize, &str)>)
    ensures
        match (r, fm_split(utf8(src@))) {
            (Some((e, inner)), Some((e2, a, p))) => e == e2 && utf8(inner@) == utf8(src@).subrange(
                a,
                p,
            ),
            (None, None) => true,
            _ => false,
        },
{
    let b = crate::text::bytes_of(src);
    let n: usize = b.len();
    if n == 0 {
        return None;
    }
    let (first, s) = line_text_at(b, 0);
    if !is_dashes_exec(first.as_slice()) {
        return None;
    }
    proof {
        lemma_line_end(b@, 0);
    }
    let mut i: usize = s;
    while i < n
        invariant
            0 < s <= i <= n == b@.len(),
            b@ == utf8(src@),
            close_from(b@, s as int) == close_from(b@, i as int),
            i > 0 && b@[i - 1] == 10 || i == n,
            s < n ==> b@[s - 1] == 10,
            s == incl_end(b@, 0),
            fm_split(b@) == match close_from(b@, s as int) {
                Some(p) => Some((incl_end(b@, p), s as int, p)),
                None => None::<(int, int, int)>,
            },
        decreases n - i,
    {
        let (t, next) = line_text_at(b, i);
        if is_dashes_exec(t.as_slice()) || is_dots_exec(t.as_slice()) {
            proof {
                lemma_utf8_valid(src@);
                crate::text::lemma_after_ascii(b@, s - 1);
                crate::text::lemma_after_ascii(b@, i - 1);
            }
            return Some((next, crate::text::substr(src, s, i)));
        }
        proof {
            lemma_line_end(b@, i as int);
        }
        i = next;
    }
    None
}

/* ---------- the properties ---------- */

/// Parse state between lines: properties so far, a key waiting for a list
/// or literal, and that key's items.
pub type FmState = (Seq<(Seq<u8>, Seq<u8>)>, Option<Seq<u8>>, Seq<Seq<u8>>);

/// Items joined by `", "`.
pub open spec fn join_items(items: Seq<Seq<u8>>) -> Seq<u8>
    decreases items.len(),
{
    if items.len() == 0 {
        Seq::empty()
    } else if items.len() == 1 {
        items[0]
    } else {
        join_items(items.drop_last()) + seq![44u8, 32] + items.last()
    }
}

/// The waiting key, if any, becomes a property of its joined items.
pub open spec fn flush(st: FmState) -> FmState {
    match st.1 {
        Some(k) => (st.0.push((k, join_items(st.2))), None, Seq::empty()),
        None => st,
    }
}

/// `v` without one pair of matching outer quotes.
pub open spec fn unquote_pair(v: Seq<u8>) -> Seq<u8> {
    if v.len() >= 2 && ((v[0] == 34 && v.last() == 34) || (v[0] == 39 && v.last() == 39)) {
        v.subrange(1, v.len() - 1)
    } else {
        v
    }
}

/// A `- item` line (or a bare `-`).
pub open spec fn is_item_line(st: Seq<u8>) -> bool {
    (st.len() >= 2 && st[0] == 45 && st[1] == 32) || st == seq![45u8]
}

/// The item of an item line.
pub open spec fn item_of(st: Seq<u8>) -> Seq<u8> {
    let rest = if st.len() >= 2 && st[0] == 45 && st[1] == 32 {
        st.subrange(2, st.len() as int)
    } else {
        Seq::empty()
    };
    unquote_runs(trim_bytes(rest))
}

/// `k0` cannot be a key: empty, or holding a space without a leading quote.
pub open spec fn bad_key(k0: Seq<u8>) -> bool {
    k0.len() == 0 || (first_of(k0, 32, 0, k0.len() as int) is Some && k0[0] != 34)
}

/// `v` asks for a list or literal on the next lines.
pub open spec fn opens_block(v: Seq<u8>) -> bool {
    v.len() == 0 || v == seq![124u8] || v == seq![62u8]
}

/// One line of the block.
pub open spec fn fm_step(st: FmState, raw: Seq<u8>) -> FmState {
    let l = trim_end_bytes(raw);
    let lead = trim_start_bytes(l);
    if blank_text(l) || (lead.len() > 0 && lead[0] == 35) {
        st
    } else if is_item_line(lead) {
        if st.1 is Some {
            (st.0, st.1, st.2.push(item_of(lead)))
        } else {
            st
        }
    } else {
        match first_of(l, 58, 0, l.len() as int) {
            Some(c) => {
                let k0 = trim_bytes(l.subrange(0, c));
                let key = unquote_runs(k0);
                if bad_key(k0) || key.len() == 0 {
                    st
                } else {
                    let f = flush(st);
                    let v = unquote_pair(trim_bytes(l.subrange(c + 1, l.len() as int)));
                    if opens_block(v) {
                        (f.0, Some(key), f.2)
                    } else {
                        (f.0.push((key, v)), f.1, f.2)
                    }
                }
            },
            None => if st.1 is Some {
                if st.2.len() > 0 {
                    (st.0, st.1, st.2.update(st.2.len() - 1, st.2.last() + seq![32u8] + trim_bytes(l)))
                } else {
                    (st.0, st.1, st.2.push(trim_bytes(l)))
                }
            } else {
                st
            },
        }
    }
}

/// State after the first `k` lines (spans `ls`) of `b`.
pub open spec fn fm_walk(b: Seq<u8>, ls: Seq<(int, int)>, k: int) -> FmState
    decreases k,
{
    if k <= 0 {
        (Seq::empty(), None, Seq::empty())
    } else {
        fm_step(fm_walk(b, ls, k - 1), b.subrange(ls[k - 1].0, ls[k - 1].1))
    }
}

/// Properties of the block text `b`, as (key, value) bytes.
pub open spec fn fm_props(b: Seq<u8>) -> Seq<(Seq<u8>, Seq<u8>)> {
    let ls = crate::text::lines_from(b, 0);
    flush(fm_walk(b, ls, ls.len() as int)).0
}

/// `props` hold the (key, value) pairs `ps`.
pub open spec fn props_are(props: Seq<Prop>, ps: Seq<(Seq<u8>, Seq<u8>)>) -> bool {
    &&& props.len() == ps.len()
    &&& forall|k: int|
        0 <= k < ps.len() ==> utf8((#[trigger] props[k]).key@) == ps[k].0 && utf8(props[k].value@)
            == ps[k].1
}

/// The items held as byte vectors.
pub open spec fn items_are(items: Seq<Vec<u8>>, its: Seq<Seq<u8>>) -> bool {
    &&& items.len() == its.len()
    &&& forall|k: int| 0 <= k < its.len() ==> (#[trigger] items[k])@ == its[k] && valid_utf8(its[k])
}

pub open spec fn pending_is(p: Option<Vec<u8>>, q: Option<Seq<u8>>) -> bool {
    match (p, q) {
        (Some(x), Some(y)) => x@ == y && valid_utf8(y),
        (None, None) => true,
        _ => false,
    }
}

/// The exec state holds `st`.
pub open spec fn holds(props: Seq<Prop>, pending: Option<Vec<u8>>, items: Seq<Vec<u8>>, st: FmState) -> bool {
    props_are(props, st.0) && pending_is(pending, st.1) && items_are(items, st.2)
}

pub proof fn lemma_join_items_valid(its: Seq<Seq<u8>>)
    requires
        forall|k: int| 0 <= k < its.len() ==> valid_utf8(#[trigger] its[k]),
    ensures
        valid_utf8(join_items(its)),
    decreases its.len(),
{
    if its.len() == 0 {
        crate::text::lemma_ascii_valid(Seq::<u8>::empty());
    } else if its.len() > 1 {
        lemma_join_items_valid(its.drop_last());
        crate::text::lemma_ascii_valid(seq![44u8, 32]);
        crate::text::lemma_valid_concat(join_items(its.drop_last()), seq![44u8, 32]);
        crate::text::lemma_valid_concat(join_items(its.drop_last()) + seq![44u8, 32], its.last());
    }
}

fn join_items_vec(items: &Vec<Vec<u8>>, Ghost(its): Ghost<Seq<Seq<u8>>>) -> (r: Vec<u8>)
    requires
        items_are(items@, its),
    ensures
        r@ == join_items(its),
        valid_utf8(r@),
{
    proof {
        assert forall|k: int| 0 <= k < its.len() implies valid_utf8(#[trigger] its[k]) by {
            assert(items@[k]@ == its[k]);
        }
        lemma_join_items_valid(its);
    }
    let mut out: Vec<u8> = Vec::new();
    let mut k: usize = 0;
    while k < items.len()
        invariant
            items_are(items@, its),
            k <= its.len(),
            out@ == join_items(its.take(k as int)),
        decreases its.len() - k,
    {
        let ghost before = out@;
        if k > 0 {
            out.push(44);
            out.push(32);
        }
        crate::text::extend_from(&mut out, items[k].as_slice(), 0, items[k].len());
        proof {
            assert(its.take(k + 1).drop_last() =~= its.take(k as int));
            assert(items@[k as int]@.subrange(0, items@[k as int]@.len() as int) =~= its[k as int]);
            if k == 0 {
                assert(out@ =~= its.take(1)[0]);
            } else {
                assert(out@ =~= before + seq![44u8, 32] + its[k as int]);
            }
        }
        k += 1;
    }
    proof {
        assert(its.take(k as int) =~= its);
    }
    out
}

/// Parse state of [`parse_inner`] as exec values.
struct FmAcc {
    props: Vec<Prop>,
    pending: Option<Vec<u8>>,
    items: Vec<Vec<u8>>,
}

impl FmAcc {
    spec fn holds(&self, st: FmState) -> bool {
        holds(self.props@, self.pending, self.items@, st)
    }

    fn flush(&mut self, Ghost(st): Ghost<FmState>)
        requires
            old(self).holds(st),
        ensures
            final(self).holds(flush(st)),
    {
        match self.pending.take() {
            Some(k) => {
                let v = join_items_vec(&self.items, Ghost(st.2));
                self.items = Vec::new();
                let key = crate::text::string_of_bytes(k);
                let value = crate::text::string_of_bytes(v);
                let ghost before = self.props@;
                self.props.push(Prop { key, value });
                proof {
                    let ps = st.0.push((st.1->0, join_items(st.2)));
                    assert forall|j: int| 0 <= j < ps.len() implies utf8((#[trigger] self.props@[j]).key@)
                        == ps[j].0 && utf8(self.props@[j].value@) == ps[j].1 by {
                        if j < before.len() {
                            assert(self.props@[j] == before[j]);
                        }
                    }
                    assert(items_are(self.items@, Seq::<Seq<u8>>::empty()));
                }
            },
            None => {},
        }
    }
}

fn item_of_vec(lead: &[u8]) -> (r: Vec<u8>)
    requires
        valid_utf8(lead@),
    ensures
        r@ == item_of(lead@),
        valid_utf8(r@),
{
    let n: usize = lead.len();
    let rest = if n >= 2 && lead[0] == 45 && lead[1] == 32 {
        proof {
            lemma_cut_ascii(lead@, 2, n as int);
        }
        crate::text::slice_vec(lead, 2, n)
    } else {
        proof {
            crate::text::lemma_ascii_valid(Seq::<u8>::empty());
        }
        Vec::new()
    };
    let n2: usize = rest.len();
    let t = trimmed_vec(rest.as_slice(), 0, n2);
    proof {
        assert(rest@.subrange(0, n2 as int) =~= rest@);
        lemma_trim_valid(rest@);
        lemma_strip_runs(t@, 34);
        lemma_strip_runs(strip_runs(t@, 34), 39);
    }
    unquote_runs_vec(t.as_slice())
}

fn unquote_pair_vec(v: Vec<u8>) -> (r: Vec<u8>)
    ensures
        r@ == unquote_pair(v@),
        valid_utf8(v@) ==> valid_utf8(r@),
{
    let n: usize = v.len();
    if n >= 2 && ((v[0] == 34 && v[n - 1] == 34) || (v[0] == 39 && v[n - 1] == 39)) {
        proof {
            if valid_utf8(v@) {
                lemma_cut_ascii(v@, 1, n - 1);
            }
        }
        crate::text::slice_vec(v.as_slice(), 1, n - 1)
    } else {
        v
    }
}

impl FmAcc {
    fn step(&mut self, raw: &[u8], Ghost(st): Ghost<FmState>)
        requires
            old(self).holds(st),
            valid_utf8(raw@),
        ensures
            final(self).holds(fm_step(st, raw@)),
    {
        let n: usize = raw.len();
        let e = crate::text::trim_end_idx(raw, 0, n);
        let l = crate::text::slice_vec(raw, 0, e);
        let m: usize = l.len();
        let ls0 = crate::text::trim_start_idx(l.as_slice(), 0, m);
        proof {
            lemma_trim_valid(raw@);
            lemma_trim_valid(l@);
        }
        if ls0 >= m || l[ls0] == 35 {
            return;
        }
        let lead = crate::text::slice_vec(l.as_slice(), ls0, m);
        if (lead.len() >= 2 && lead[0] == 45 && lead[1] == 32) || (lead.len() == 1 && lead[0] == 45) {
            proof {
                if lead.len() == 1 && lead[0] == 45 {
                    assert(lead@ =~= seq![45u8]);
                }
            }
            if self.pending.is_some() {
                let item = item_of_vec(lead.as_slice());
                let ghost before = self.items@;
                self.items.push(item);
                proof {
                    let its = st.2.push(item_of(lead@));
                    assert forall|k: int| 0 <= k < its.len() implies (#[trigger] self.items@[k])@
                        == its[k] && valid_utf8(its[k]) by {
                        if k < before.len() {
                            assert(self.items@[k] == before[k]);
                        }
                    }
                }
            }
            return;
        }
        proof {
            if lead@ == seq![45u8] {
                assert(lead@.len() == 1 && lead@[0] == 45);
            }
            lemma_first_of_props(l@, 58, 0, m as int);
        }
        match crate::text::find_byte(l.as_slice(), 58, 0, m) {
            Some(c) => {
                let k0 = trimmed_vec(l.as_slice(), 0, c);
                let key = unquote_runs_vec(k0.as_slice());
                let kn: usize = k0.len();
                proof {
                    lemma_first_of_props(k0@, 32, 0, kn as int);
                }
                let bad = kn == 0 || (crate::text::find_byte(k0.as_slice(), 32, 0, kn).is_some() && k0[0] != 34);
                if bad || key.len() == 0 {
                    return;
                }
                proof {
                    lemma_cut_ascii(l@, 0, c as int);
                    lemma_cut_ascii(l@, c + 1, m as int);
                    lemma_trim_valid(l@.subrange(0, c as int));
                    lemma_trim_valid(l@.subrange(c + 1, m as int));
                    lemma_strip_runs(k0@, 34);
                    lemma_strip_runs(strip_runs(k0@, 34), 39);
                }
                self.flush(Ghost(st));
                let ghost f = flush(st);
                let v = unquote_pair_vec(trimmed_vec(l.as_slice(), c + 1, m));
                let vn: usize = v.len();
                let opens = vn == 0 || (vn == 1 && (v[0] == 124 || v[0] == 62));
                proof {
                    if vn == 1 && v[0] == 124 {
                        assert(v@ =~= seq![124u8]);
                    }
                    if vn == 1 && v[0] == 62 {
                        assert(v@ =~= seq![62u8]);
                    }
                    if v@ == seq![124u8] || v@ == seq![62u8] {
                        assert(vn == 1);
                    }
                }
                if opens {
                    self.pending = Some(key);
                } else {
                    let ghost before = self.props@;
                    let ks = crate::text::string_of_bytes(key);
                    let vs = crate::text::string_of_bytes(v);
                    self.props.push(Prop { key: ks, value: vs });
                    proof {
                        let ps = f.0.push((unquote_runs(k0@), v@));
                        assert forall|j: int| 0 <= j < ps.len() implies utf8(
                            (#[trigger] self.props@[j]).key@,
                        ) == ps[j].0 && utf8(self.props@[j].value@) == ps[j].1 by {
                            if j < before.len() {
                                assert(self.props@[j] == before[j]);
                            }
                        }
                    }
                }
            },
            None => {
                if self.pending.is_some() {
                    let t = trimmed_vec(l.as_slice(), 0, m);
                    proof {
                        assert(l@.subrange(0, m as int) =~= l@);
                    }
                    let ghost before = self.items@;
                    if self.items.len() > 0 {
                        let mut last = self.items.pop().unwrap();
                        proof {
                            assert(last@ == st.2.last()) by {
                                assert(before[before.len() - 1] == last);
                            }
                            crate::text::lemma_ascii_valid(seq![32u8]);
                            crate::text::lemma_valid_concat(last@, seq![32u8]);
                            crate::text::lemma_valid_concat(last@ + seq![32u8], t@);
                        }
                        let ghost l0 = last@;
                        last.push(32);
                        crate::text::extend_from(&mut last, t.as_slice(), 0, t.len());
                        proof {
                            assert(last@ =~= l0 + seq![32u8] + t@);
                        }
                        self.items.push(last);
                        proof {
                            let its = st.2.update(st.2.len() - 1, st.2.last() + seq![32u8] + t@);
                            assert forall|k: int| 0 <= k < its.len() implies (
                            #[trigger] self.items@[k])@ == its[k] && valid_utf8(its[k]) by {
                                if k < before.len() - 1 {
                                    assert(self.items@[k] == before[k]);
                                }
                            }
                        }
                    } else {
                        self.items.push(t);
                        proof {
                            let its = st.2.push(t@);
                            assert(self.items@[0] == t);
                        }
                    }
                }
            },
        }
    }
}

/// Properties of the text inside the `---` block.
fn parse_inner(inner: &str) -> (r: Frontmatter)
    ensures
        props_are(r.props@, fm_props(utf8(inner@))),
{
    let b = crate::text::bytes_of(inner);
    let n: usize = b.len();
    let ghost ls = crate::text::lines_from(b@, 0);
    let mut acc = FmAcc { props: Vec::new(), pending: None, items: Vec::new() };
    let mut i: usize = 0;
    let mut k: usize = 0;
    proof {
        crate::text::lemma_boundary_zero(b@);
    }
    while i < n
        invariant
            i <= n == b@.len(),
            b@ == utf8(inner@),
            valid_utf8(b@),
            ls == crate::text::lines_from(b@, 0),
            k <= i,
            k <= ls.len(),
            crate::text::lines_from(b@, i as int) == ls.subrange(k as int, ls.len() as int),
            i < n ==> (i == 0 || b@[i - 1] == 10),
            acc.holds(fm_walk(b@, ls, k as int)),
        decreases n - i,
    {
        let ce = crate::text::line_content_end_idx(b, i);
        let le = crate::text::line_end_idx(b, i);
        proof {
            crate::text::lemma_lines_step(b@, ls, i as int, k as int);
            lemma_line_end(b@, i as int);
            crate::text::lemma_boundary_zero(b@);
            if i > 0 {
                crate::text::lemma_after_ascii(b@, i - 1);
            }
            if ce < n {
                assert(b@[ce as int] == 10 || b@[ce as int] == 13);
            }
            lemma_sub_valid(b@, i as int, ce as int);
        }
        let line = crate::text::slice_vec(b, i, ce);
        acc.step(line.as_slice(), Ghost(fm_walk(b@, ls, k as int)));
        k = k + 1;
        if le >= n {
            i = n;
        } else {
            i = le + 1;
        }
    }
    proof {
        assert(ls.subrange(k as int, ls.len() as int).len() == 0);
    }
    acc.flush(Ghost(fm_walk(b@, ls, k as int)));
    Frontmatter { props: acc.props }
}

/// The frontmatter of `src` and where the body starts, when `src` opens
/// with a closed `---` block.
pub fn parse(src: &str) -> (r: Option<(Frontmatter, usize)>)
    ensures
        match (r, fm_split(utf8(src@))) {
            (Some((fm, e)), Some((e2, a, p))) => e == e2 && props_are(
                fm.props@,
                fm_props(utf8(src@).subrange(a, p)),
            ),
            (None, None) => true,
            _ => false,
        },
{
    match split(src) {
        Some((body_start, inner)) => Some((parse_inner(inner), body_start)),
        None => None,
    }
}

/* ---------- back to YAML ---------- */

/// `": "`.
pub open spec fn colon_sp() -> Seq<u8> {
    seq![58u8, 32]
}

/// One `key: value` document line for a parsed prop.
pub open spec fn prop_line(key: Seq<u8>, value: Seq<u8>) -> Seq<u8> {
    if value.len() == 0 {
        key + colon_sp()
    } else {
        key + colon_sp() + value
    }
}

/// One `key: value` document line for a parsed prop, so that parsing and
/// writing back stay symmetric.
pub fn line_for_prop(key: &str, value: &str) -> (r: String)
    ensures
        utf8(r@) == prop_line(utf8(key@), utf8(value@)),
{
    let kb = crate::text::bytes_of(key);
    let vb = crate::text::bytes_of(value);
    let mut out = crate::text::slice_vec(kb, 0, kb.len());
    out.push(58);
    out.push(32);
    if vb.len() > 0 {
        crate::text::extend_from(&mut out, vb, 0, vb.len());
    }
    proof {
        assert(kb@.subrange(0, kb@.len() as int) =~= kb@);
        assert(vb@.subrange(0, vb@.len() as int) =~= vb@);
        assert(out@ =~= prop_line(kb@, vb@));
        crate::text::lemma_ascii_valid(colon_sp());
        crate::text::lemma_valid_concat(kb@, colon_sp());
        crate::text::lemma_valid_concat(kb@ + colon_sp(), vb@);
    }
    crate::text::string_of_bytes(out)
}

/// `s[i..]` with each byte `c` replaced by `rep`.
pub open spec fn replace_from(s: Seq<u8>, i: int, c: u8, rep: Seq<u8>) -> Seq<u8>
    decreases s.len() - i,
{
    if i < 0 || i > s.len() {
        Seq::empty()
    } else {
        match first_of(s, c, i, s.len() as int) {
            None => s.subrange(i, s.len() as int),
            Some(j) => {
                proof {
                    lemma_first_of_props(s, c, i, s.len() as int);
                }
                s.subrange(i, j) + rep + replace_from(s, j + 1, c, rep)
            },
        }
    }
}

/// `s` with each line break turned into a space.
pub open spec fn fold_nl(s: Seq<u8>) -> Seq<u8> {
    replace_from(s, 0, 10, seq![32u8])
}

/// `s` with each `"` escaped as `\"`.
pub open spec fn escape_quotes(s: Seq<u8>) -> Seq<u8> {
    replace_from(s, 0, 34, seq![92u8, 34])
}

/// First bytes that YAML reads as syntax.
pub open spec fn yaml_lead(x: u8) -> bool {
    x == 35 || x == 45 || x == 63 || x == 58 || x == 42 || x == 38 || x == 33 || x == 124 || x == 62
        || x == 37 || x == 64 || x == 96 || x == 123 || x == 125 || x == 91 || x == 93 || x == 44
}

/// `v` (already on one line) would be misread by YAML unquoted.
pub open spec fn needs_quotes(v: Seq<u8>) -> bool {
    ||| first_match(v, seq![58u8, 32], 0, v.len() as int) is Some
    ||| first_match(v, seq![32u8, 35], 0, v.len() as int) is Some
    ||| (v.len() > 0 && yaml_lead(v[0]))
    ||| trim_bytes(v) != v
}

/// The YAML scalar for a property value.
pub open spec fn quoted(v0: Seq<u8>) -> Seq<u8> {
    let v = fold_nl(v0);
    if v.len() == 0 {
        v
    } else if needs_quotes(v) {
        seq![34u8] + escape_quotes(v) + seq![34u8]
    } else {
        v
    }
}

/// Replacing an ASCII byte by ASCII bytes keeps UTF-8 valid.
pub proof fn lemma_replace_valid(s: Seq<u8>, i: int, c: u8, rep: Seq<u8>)
    requires
        valid_utf8(s),
        crate::text::at_boundary(s, i),
        c < 0x80,
        valid_utf8(rep),
    ensures
        valid_utf8(replace_from(s, i, c, rep)),
    decreases s.len() - i,
{
    let n = s.len() as int;
    crate::text::lemma_boundary_zero(s);
    lemma_first_of_props(s, c, i, n);
    match first_of(s, c, i, n) {
        None => {
            lemma_sub_valid(s, i, n);
        },
        Some(j) => {
            crate::text::lemma_after_ascii(s, j);
            lemma_sub_valid(s, i, j);
            lemma_replace_valid(s, j + 1, c, rep);
            crate::text::lemma_valid_concat(s.subrange(i, j), rep);
            crate::text::lemma_valid_concat(s.subrange(i, j) + rep, replace_from(s, j + 1, c, rep));
        },
    }
}

pub fn replace_bytes(s: &[u8], c: u8, rep: &[u8]) -> (r: Vec<u8>)
    ensures
        r@ == replace_from(s@, 0, c, rep@),
{
    let n: usize = s.len();
    let mut out: Vec<u8> = Vec::new();
    let mut i: usize = 0;
    loop
        invariant
            i <= n == s@.len(),
            replace_from(s@, 0, c, rep@) == out@ + replace_from(s@, i as int, c, rep@),
        decreases n - i,
    {
        proof {
            lemma_first_of_props(s@, c, i as int, n as int);
        }
        match crate::text::find_byte(s, c, i, n) {
            None => {
                let ghost before = out@;
                crate::text::extend_from(&mut out, s, i, n);
                return out;
            },
            Some(j) => {
                let ghost before = out@;
                crate::text::extend_from(&mut out, s, i, j);
                crate::text::extend_from(&mut out, rep, 0, rep.len());
                proof {
                    assert(rep@.subrange(0, rep@.len() as int) =~= rep@);
                    assert(before + replace_from(s@, i as int, c, rep@) =~= out@ + replace_from(
                        s@,
                        j + 1,
                        c,
                        rep@,
                    ));
                }
                i = j + 1;
            },
        }
    }
}

/// The YAML scalar for `vb`, as bytes.
fn quoted_bytes(vb: &[u8]) -> (r: Vec<u8>)
    requires
        valid_utf8(vb@),
    ensures
        r@ == quoted(vb@),
        valid_utf8(r@),
{
    let sp: [u8; 1] = [32];
    let f = replace_bytes(vb, 10, sp.as_slice());
    proof {
        assert(sp@ =~= seq![32u8]);
        crate::text::lemma_boundary_zero(vb@);
        crate::text::lemma_ascii_valid(seq![32u8]);
        lemma_replace_valid(vb@, 0, 10, seq![32u8]);
    }
    let n: usize = f.len();
    if n == 0 {
        return f;
    }
    let p1: [u8; 2] = [58, 32];
    let p2: [u8; 2] = [32, 35];
    assert(p1@ =~= seq![58u8, 32]);
    assert(p2@ =~= seq![32u8, 35]);
    let x = f[0];
    let lead = x == 35 || x == 45 || x == 63 || x == 58 || x == 42 || x == 38 || x == 33 || x == 124
        || x == 62 || x == 37 || x == 64 || x == 96 || x == 123 || x == 125 || x == 91 || x == 93
        || x == 44;
    let a = crate::text::trim_start_idx(f.as_slice(), 0, n);
    let e = crate::text::trim_end_idx(f.as_slice(), a, n);
    proof {
        if a == 0 && e == n {
            assert(trim_bytes(f@) =~= f@);
        } else {
            assert(trim_bytes(f@).len() < f@.len());
        }
    }
    let needs = crate::text::find_seq(f.as_slice(), p1.as_slice(), 0, n).is_some()
        || crate::text::find_seq(f.as_slice(), p2.as_slice(), 0, n).is_some() || lead || a != 0
        || e != n;
    if !needs {
        return f;
    }
    let esc: [u8; 2] = [92, 34];
    assert(esc@ =~= seq![92u8, 34]);
    let q = replace_bytes(f.as_slice(), 34, esc.as_slice());
    let mut out: Vec<u8> = Vec::new();
    out.push(34);
    crate::text::extend_from(&mut out, q.as_slice(), 0, q.len());
    out.push(34);
    proof {
        assert(q@.subrange(0, q@.len() as int) =~= q@);
        assert(out@ =~= seq![34u8] + q@ + seq![34u8]);
        crate::text::lemma_boundary_zero(f@);
        crate::text::lemma_ascii_valid(seq![92u8, 34]);
        crate::text::lemma_ascii_valid(seq![34u8]);
        lemma_replace_valid(f@, 0, 34, seq![92u8, 34]);
        crate::text::lemma_valid_concat(seq![34u8], q@);
        crate::text::lemma_valid_concat(seq![34u8] + q@, seq![34u8]);
    }
    out
}

/// Quote a scalar when YAML would otherwise misread it.
pub fn quote_if_needed(v: &str) -> (r: String)
    ensures
        utf8(r@) == quoted(utf8(v@)),
{
    let q = quoted_bytes(crate::text::bytes_of(v));
    crate::text::string_of_bytes(q)
}

/// `untitled: `, the row written for a blank property.
pub open spec fn untitled_row() -> Seq<u8> {
    seq![117u8, 110, 116, 105, 116, 108, 101, 100, 58, 32]
}

/// One edited property row back as YAML: split on the first colon, quote
/// the value; a row without a colon becomes a bare key.
pub open spec fn row_yaml(t0: Seq<u8>) -> Seq<u8> {
    let t = trim_bytes(t0);
    if t.len() == 0 {
        untitled_row()
    } else {
        match first_of(t, 58, 0, t.len() as int) {
            Some(c) => {
                let key = trim_bytes(t.subrange(0, c));
                if key.len() == 0 {
                    t
                } else {
                    key + colon_sp() + quoted(trim_bytes(t.subrange(c + 1, t.len() as int)))
                }
            },
            None => t + colon_sp(),
        }
    }
}

fn row_yaml_bytes(tb: &[u8]) -> (r: Vec<u8>)
    requires
        valid_utf8(tb@),
    ensures
        r@ == row_yaml(tb@),
        valid_utf8(r@),
{
    let n0: usize = tb.len();
    let t = trimmed_vec(tb, 0, n0);
    proof {
        assert(tb@.subrange(0, n0 as int) =~= tb@);
        lemma_trim_valid(tb@);
        crate::text::lemma_ascii_valid(colon_sp());
    }
    let n: usize = t.len();
    if n == 0 {
        let u: Vec<u8> = vec![117, 110, 116, 105, 116, 108, 101, 100, 58, 32];
        proof {
            assert(u@ =~= untitled_row());
            crate::text::lemma_ascii_valid(untitled_row());
        }
        return u;
    }
    proof {
        lemma_first_of_props(t@, 58, 0, n as int);
    }
    match crate::text::find_byte(t.as_slice(), 58, 0, n) {
        Some(c) => {
            let key = trimmed_vec(t.as_slice(), 0, c);
            if key.len() == 0 {
                return t;
            }
            let value = trimmed_vec(t.as_slice(), c + 1, n);
            proof {
                lemma_cut_ascii(t@, 0, c as int);
                lemma_cut_ascii(t@, c + 1, n as int);
                lemma_trim_valid(t@.subrange(0, c as int));
                lemma_trim_valid(t@.subrange(c + 1, n as int));
            }
            let q = quoted_bytes(value.as_slice());
            let mut out = key;
            let ghost k = out@;
            out.push(58);
            out.push(32);
            crate::text::extend_from(&mut out, q.as_slice(), 0, q.len());
            proof {
                assert(q@.subrange(0, q@.len() as int) =~= q@);
                assert(out@ =~= k + colon_sp() + q@);
                crate::text::lemma_valid_concat(k, colon_sp());
                crate::text::lemma_valid_concat(k + colon_sp(), q@);
            }
            out
        },
        None => {
            let mut out = t;
            let ghost k = out@;
            out.push(58);
            out.push(32);
            proof {
                assert(out@ =~= k + colon_sp());
                crate::text::lemma_valid_concat(k, colon_sp());
            }
            out
        },
    }
}

/// Normalize one edited property row back to YAML.
pub fn row_to_yaml(text: &str) -> (r: String)
    ensures
        utf8(r@) == row_yaml(utf8(text@)),
{
    crate::text::string_of_bytes(row_yaml_bytes(crate::text::bytes_of(text)))
}

/// `---\n`.
pub open spec fn dashes_line() -> Seq<u8> {
    seq![45u8, 45, 45, 10]
}

/// The YAML lines of `rows[0..k]`, each ending in a line break.
pub open spec fn rows_yaml(rows: Seq<String>, k: int) -> Seq<u8>
    decreases k,
{
    if k <= 0 {
        Seq::empty()
    } else {
        rows_yaml(rows, k - 1) + row_yaml(utf8(rows[k - 1]@)) + seq![10u8]
    }
}

/// Property rows as a `---\n…\n---\n` block.
pub fn serialize_block(rows: &[String]) -> (r: String)
    ensures
        utf8(r@) == dashes_line() + rows_yaml(rows@, rows@.len() as int) + dashes_line(),
{
    let mut out: Vec<u8> = vec![45, 45, 45, 10];
    proof {
        assert(out@ =~= dashes_line() + rows_yaml(rows@, 0));
        crate::text::lemma_ascii_valid(dashes_line());
        crate::text::lemma_ascii_valid(seq![10u8]);
    }
    let mut k: usize = 0;
    while k < rows.len()
        invariant
            k <= rows@.len(),
            out@ == dashes_line() + rows_yaml(rows@, k as int),
            valid_utf8(out@),
        decreases rows@.len() - k,
    {
        let rb = crate::text::bytes_of(rows[k].as_str());
        let y = row_yaml_bytes(rb);
        let ghost before = out@;
        crate::text::extend_from(&mut out, y.as_slice(), 0, y.len());
        out.push(10);
        proof {
            assert(y@.subrange(0, y@.len() as int) =~= y@);
            assert(out@ =~= before + y@ + seq![10u8]);
            assert(out@ =~= dashes_line() + rows_yaml(rows@, k + 1));
            crate::text::lemma_ascii_valid(seq![10u8]);
            crate::text::lemma_valid_concat(before, y@);
            crate::text::lemma_valid_concat(before + y@, seq![10u8]);
        }
        k += 1;
    }
    let ghost before = out@;
    out.push(45);
    out.push(45);
    out.push(45);
    out.push(10);
    proof {
        assert(out@ =~= before + dashes_line());
        crate::text::lemma_ascii_valid(dashes_line());
        crate::text::lemma_valid_concat(before, dashes_line());
    }
    crate::text::string_of_bytes(out)
}



/// A run of text with its marks.
#[derive(Debug)]
pub struct Inline {
    pub text: String,
    pub marks: crate::display::Marks,
}

/// `value` on one line: line breaks and carriage returns become spaces.
pub open spec fn flat_value(v: Seq<u8>) -> Seq<u8> {
    replace_from(replace_from(v, 0, 10, seq![32u8]), 0, 13, seq![32u8])
}

/// Initial inline run for a parsed value: plain text, no marks.
pub fn plain_inlines(value: &str) -> (r: Vec<Inline>)
    ensures
        flat_value(utf8(value@)).len() == 0 ==> r@.len() == 0,
        flat_value(utf8(value@)).len() > 0 ==> r@.len() == 1 && utf8(r@[0].text@) == flat_value(
            utf8(value@),
        ) && r@[0].marks == crate::display::no_marks(),
{
    let vb = crate::text::bytes_of(value);
    let sp: [u8; 1] = [32];
    assert(sp@ =~= seq![32u8]);
    let a = replace_bytes(vb, 10, sp.as_slice());
    let f = replace_bytes(a.as_slice(), 13, sp.as_slice());
    proof {
        crate::text::lemma_boundary_zero(vb@);
        crate::text::lemma_ascii_valid(seq![32u8]);
        lemma_replace_valid(vb@, 0, 10, seq![32u8]);
        crate::text::lemma_boundary_zero(a@);
        lemma_replace_valid(a@, 0, 13, seq![32u8]);
    }
    let mut out: Vec<Inline> = Vec::new();
    if f.len() > 0 {
        let text = crate::text::string_of_bytes(f);
        out.push(Inline { text, marks: crate::display::Marks::default() });
    }
    out
}

/// Replacing `c` by a text without `x` leaves no `x` behind, when `x` is
/// `c` or did not occur.
pub proof fn lemma_replace_avoids(s: Seq<u8>, i: int, c: u8, rep: Seq<u8>, x: u8)
    requires
        0 <= i <= s.len(),
        x == c || forall|k: int| i <= k < s.len() ==> s[k] != x,
        forall|k: int| 0 <= k < rep.len() ==> rep[k] != x,
    ensures
        forall|k: int|
            0 <= k < replace_from(s, i, c, rep).len() ==> #[trigger] replace_from(s, i, c, rep)[k]
                != x,
    decreases s.len() - i,
{
    let n = s.len() as int;
    lemma_first_of_props(s, c, i, n);
    match first_of(s, c, i, n) {
        None => {},
        Some(j) => {
            lemma_replace_avoids(s, j + 1, c, rep, x);
            let t = replace_from(s, j + 1, c, rep);
            let whole = s.subrange(i, j) + rep + t;
            assert forall|k: int| 0 <= k < whole.len() implies #[trigger] whole[k] != x by {
                if k < j - i {
                    assert(whole[k] == s[i + k]);
                } else if k < j - i + rep.len() {
                    assert(whole[k] == rep[k - (j - i)]);
                } else {
                    assert(whole[k] == t[k - (j - i) - rep.len()]);
                }
            }
        },
    }
}

/// A YAML scalar written back is one line: it holds no line break.
pub proof fn lemma_quoted_one_line(v: Seq<u8>)
    ensures
        forall|k: int| 0 <= k < quoted(v).len() ==> #[trigger] quoted(v)[k] != 10,
{
    lemma_replace_avoids(v, 0, 10, seq![32u8], 10);
    let f = fold_nl(v);
    lemma_replace_avoids(f, 0, 34, seq![92u8, 34], 10);
    let q = seq![34u8] + escape_quotes(f) + seq![34u8];
    assert forall|k: int| 0 <= k < q.len() implies #[trigger] q[k] != 10 by {
        if k > 0 && k < q.len() - 1 {
            assert(q[k] == escape_quotes(f)[k - 1]);
        }
    }
}


/// The white space character at the start of `x` is the same when `x`
/// stands inside a longer text.
proof fn lemma_ws_at_inside(p: Seq<u8>, x: Seq<u8>, q: Seq<u8>)
    requires
        valid_utf8(x),
        x.len() > 0,
    ensures
        crate::text::ws_at(p + x + q, p.len() as int) == crate::text::ws_at(x, 0),
{
    crate::text::lemma_boundary_zero(x);
    crate::text::lemma_scalar_end(x, 0);
    let y = p + x + q;
    let o = p.len() as int;
    assert(y[o] == x[0]);
    if x.len() >= 2 {
        assert(y[o + 1] == x[1]);
    }
    if x.len() >= 3 {
        assert(y[o + 2] == x[2]);
    }
}

/// The white space character that ends `x` is the same when text stands
/// before `x`.
proof fn lemma_ws_before_after(p: Seq<u8>, x: Seq<u8>)
    requires
        valid_utf8(x),
        x.len() > 0,
    ensures
        crate::text::ws_before(p + x, (p + x).len() as int) == crate::text::ws_before(x, x.len() as int),
{
    crate::text::lemma_boundary_zero(x);
    let y = p + x;
    let o = p.len() as int;
    let n = x.len() as int;
    assert(!is_continuation_byte(x[0]));
    assert(y[o] == x[0]);
    assert(y[o + n - 1] == x[n - 1]);
    if n >= 2 {
        assert(y[o + n - 2] == x[n - 2]);
    }
    if n >= 3 {
        assert(y[o + n - 3] == x[n - 3]);
    }
}

/// A text equal to its own trim neither starts nor ends with white space.
proof fn lemma_trimmed_ends(x: Seq<u8>)
    requires
        trim_bytes(x) == x,
        x.len() > 0,
    ensures
        crate::text::ws_at(x, 0) == 0,
        crate::text::ws_before(x, x.len() as int) == 0,
{
    let n = x.len() as int;
    crate::projection::lemma_trim_start(x, 0, n);
    let a = trim_start_at(x, 0, n);
    crate::html::lemma_trim_end_at(x, a, n);
    let e = crate::text::trim_end_at(x, a, n);
    assert(trim_bytes(x).len() == e - a);
    assert(a == 0 && e == n);
    let wb = crate::text::ws_before(x, n);
    if wb > 0 {
        crate::html::lemma_trim_end_at(x, 0, n - wb);
    }
}

/// The trimmed property line: the line itself, or `key:` for an empty value.
proof fn lemma_prop_line_trim(key: Seq<u8>, value: Seq<u8>)
    requires
        valid_utf8(key),
        valid_utf8(value),
        key.len() > 0,
        trim_bytes(key) == key,
        trim_bytes(value) == value,
    ensures
        trim_bytes(prop_line(key, value)) == (if value.len() == 0 {
            key + seq![58u8]
        } else {
            prop_line(key, value)
        }),
{
    let s = prop_line(key, value);
    let n = s.len() as int;
    let kl = key.len() as int;
    lemma_trimmed_ends(key);
    lemma_ws_at_inside(Seq::empty(), key, s.subrange(kl, n));
    assert(Seq::<u8>::empty() + key + s.subrange(kl, n) =~= s);
    assert(trim_start_at(s, 0, n) == 0);
    if value.len() == 0 {
        assert(s =~= key + colon_sp());
        assert(crate::text::ws_before(s, n) == 1);
        assert(crate::text::ws_before(s, n - 1) == 0);
        assert(crate::text::trim_end_at(s, 0, n - 1) == n - 1);
        assert(crate::text::trim_end_at(s, 0, n) == crate::text::trim_end_at(s, 0, n - 1));
        assert(trim_bytes(s) =~= key + seq![58u8]);
    } else {
        lemma_trimmed_ends(value);
        lemma_ws_before_after(key + colon_sp(), value);
        assert(crate::text::trim_end_at(s, 0, n) == n);
        assert(trim_bytes(s) =~= s);
    }
}

/// A space before a trimmed value is trimmed away.
proof fn lemma_trim_space_value(value: Seq<u8>)
    requires
        valid_utf8(value),
        value.len() > 0,
        trim_bytes(value) == value,
    ensures
        trim_bytes(seq![32u8] + value) == value,
{
    let w = seq![32u8] + value;
    let wl = w.len() as int;
    lemma_trimmed_ends(value);
    assert(crate::text::ws_at(w, 0) == 1);
    lemma_ws_at_inside(seq![32u8], value, Seq::empty());
    assert(seq![32u8] + value + Seq::<u8>::empty() =~= w);
    assert(trim_start_at(w, 1, wl) == 1);
    assert(trim_start_at(w, 0, wl) == 1);
    lemma_ws_before_after(seq![32u8], value);
    assert(crate::text::trim_end_at(w, 1, wl) == wl);
    assert(w.subrange(1, wl) =~= value);
}

/// Parsing and writing back stay symmetric: the line written for a parsed
/// property (a non-empty key without a colon and without white space at
/// either end, a value without white space at either end), normalized
/// back to YAML, is the key, `": "` and the value quoted as needed.
pub proof fn lemma_prop_line_round_trip(key: Seq<u8>, value: Seq<u8>)
    requires
        valid_utf8(key),
        valid_utf8(value),
        key.len() > 0,
        trim_bytes(key) == key,
        forall|k: int| 0 <= k < key.len() ==> #[trigger] key[k] != 58,
        trim_bytes(value) == value,
    ensures
        row_yaml(prop_line(key, value)) == key + colon_sp() + quoted(value),
{
    let kl = key.len() as int;
    lemma_prop_line_trim(key, value);
    let t = trim_bytes(prop_line(key, value));
    let tl = t.len() as int;
    assert(t.len() > 0);
    lemma_first_of_props(t, 58, 0, tl);
    assert(t[kl] == 58);
    assert(forall|k: int| 0 <= k < kl ==> t[k] == key[k]);
    assert(first_of(t, 58, 0, tl) == Some(kl));
    assert(t.subrange(0, kl) =~= key);
    let w = t.subrange(kl + 1, tl);
    if value.len() == 0 {
        assert(w.len() == 0);
        assert(trim_bytes(w) =~= value);
    } else {
        assert(w =~= seq![32u8] + value);
        lemma_trim_space_value(value);
    }
}


/* ---------- a written block reads back ---------- */

/// Trimming white space from the start stops at or before a colon.
proof fn lemma_trim_start_before_colon(x: Seq<u8>, a: int, e: int, j: int)
    requires
        0 <= a <= j < e <= x.len(),
        x[j] == 58,
    ensures
        trim_start_at(x, a, e) <= j,
    decreases e - a,
{
    let w = crate::text::ws_at(x, a);
    if a < e && w > 0 && a + w <= e {
        assert(x[a] != 58);
        if w >= 2 {
            assert(x[a + 1] != 58);
        }
        if w >= 3 {
            assert(x[a + 2] != 58);
        }
        assert(j >= a + w);
        lemma_trim_start_before_colon(x, a + w, e, j);
    }
}

/// Trimming white space from the end stops after a colon.
proof fn lemma_trim_end_after_colon(x: Seq<u8>, a: int, e: int, j: int)
    requires
        0 <= a <= j < e <= x.len(),
        x[j] == 58,
    ensures
        crate::text::trim_end_at(x, a, e) > j,
    decreases e - a,
{
    let w = crate::text::ws_before(x, e);
    if a < e && w > 0 && e - w >= a {
        assert(x[e - 1] != 58);
        if w >= 2 {
            assert(x[e - 2] != 58);
        }
        if w >= 3 {
            assert(x[e - 3] != 58);
        }
        assert(j < e - w);
        lemma_trim_end_after_colon(x, a, e - w, j);
    }
}

/// A text with a colon keeps it when trimmed, so it is no `---` or `...`
/// marker.
proof fn lemma_trim_keeps_colon(x: Seq<u8>, j: int)
    requires
        0 <= j < x.len(),
        x[j] == 58,
    ensures
        !is_dashes(trim_bytes(x)),
        !is_dots(trim_bytes(x)),
{
    let n = x.len() as int;
    lemma_trim_start_before_colon(x, 0, n, j);
    let a = trim_start_at(x, 0, n);
    crate::projection::lemma_trim_start(x, 0, n);
    lemma_trim_end_after_colon(x, a, n, j);
    let e = crate::text::trim_end_at(x, a, n);
    crate::html::lemma_trim_end_at(x, a, n);
    let t = trim_bytes(x);
    assert(0 <= j - a < t.len());
    assert(t[j - a] == 58);
    if is_dashes(t) || is_dots(t) {
        assert(t.len() == 3);
        let d = seq![45u8, 45, 45];
        let o = seq![46u8, 46, 46];
        assert(d[0] == 45 && d[1] == 45 && d[2] == 45);
        assert(o[0] == 46 && o[1] == 46 && o[2] == 46);
        assert(j - a == 0 || j - a == 1 || j - a == 2);
    }
}

/// A trimmed text is a slice of the text.
proof fn lemma_trim_is_slice(x: Seq<u8>)
    ensures
        exists|a: int, e: int| 0 <= a <= e <= x.len() && trim_bytes(x) == x.subrange(a, e),
{
    let n = x.len() as int;
    crate::projection::lemma_trim_start(x, 0, n);
    let a = trim_start_at(x, 0, n);
    crate::html::lemma_trim_end_at(x, a, n);
    let e = crate::text::trim_end_at(x, a, n);
    assert(trim_bytes(x) == x.subrange(a, e));
}

/// `x` holds no line break.
pub open spec fn one_line(x: Seq<u8>) -> bool {
    forall|k: int| 0 <= k < x.len() ==> #[trigger] x[k] != 10
}

proof fn lemma_trim_one_line(x: Seq<u8>)
    requires
        one_line(x),
    ensures
        one_line(trim_bytes(x)),
{
    lemma_trim_is_slice(x);
    let (a, e) = choose|a: int, e: int| 0 <= a <= e <= x.len() && trim_bytes(x) == x.subrange(a, e);
    assert forall|k: int| 0 <= k < trim_bytes(x).len() implies #[trigger] trim_bytes(x)[k] != 10 by {
        assert(trim_bytes(x)[k] == x[a + k]);
    }
}

/// The YAML line of a one-line row is one line and holds a colon.
proof fn lemma_row_yaml_shape(t0: Seq<u8>)
    requires
        one_line(t0),
    ensures
        one_line(row_yaml(t0)),
        exists|c: int| 0 <= c < row_yaml(t0).len() && #[trigger] row_yaml(t0)[c] == 58,
{
    let t = trim_bytes(t0);
    lemma_trim_one_line(t0);
    let r = row_yaml(t0);
    if t.len() == 0 {
        assert(r[8] == 58);
    } else {
        lemma_first_of_props(t, 58, 0, t.len() as int);
        match first_of(t, 58, 0, t.len() as int) {
            Some(c) => {
                let key = trim_bytes(t.subrange(0, c));
                if key.len() == 0 {
                    assert(r[c] == 58);
                } else {
                    let sub = t.subrange(0, c);
                    assert(one_line(sub)) by {
                        assert forall|k: int| 0 <= k < sub.len() implies #[trigger] sub[k] != 10 by {
                            assert(sub[k] == t[k]);
                        }
                    }
                    lemma_trim_one_line(sub);
                    let v = trim_bytes(t.subrange(c + 1, t.len() as int));
                    lemma_quoted_one_line(v);
                    let q = quoted(v);
                    assert(r == key + colon_sp() + q);
                    assert forall|k: int| 0 <= k < r.len() implies #[trigger] r[k] != 10 by {
                        if k < key.len() {
                            assert(r[k] == key[k]);
                        } else if k >= key.len() + 2 {
                            assert(r[k] == q[k - key.len() - 2]);
                        }
                    }
                    assert(r[key.len() as int] == 58);
                }
            },
            None => {
                assert(r == t + colon_sp());
                assert(r[t.len() as int] == 58);
                assert forall|k: int| 0 <= k < r.len() implies #[trigger] r[k] != 10 by {
                    if k < t.len() {
                        assert(r[k] == t[k]);
                    }
                }
            },
        }
    }
}

/// The YAML of the first rows is the start of the YAML of more rows.
proof fn lemma_rows_yaml_prefix(rows: Seq<String>, k: int, m: int)
    requires
        0 <= k <= m <= rows.len(),
    ensures
        rows_yaml(rows, k).len() <= rows_yaml(rows, m).len(),
        rows_yaml(rows, m).subrange(0, rows_yaml(rows, k).len() as int) == rows_yaml(rows, k),
    decreases m,
{
    if k < m {
        lemma_rows_yaml_prefix(rows, k, m - 1);
        let a = rows_yaml(rows, m - 1);
        let b = rows_yaml(rows, m);
        assert(b == a + row_yaml(utf8(rows[m - 1]@)) + seq![10u8]);
        assert(b.subrange(0, rows_yaml(rows, k).len() as int) =~= a.subrange(
            0,
            rows_yaml(rows, k).len() as int,
        ));
    } else {
        assert(rows_yaml(rows, m).subrange(0, rows_yaml(rows, m).len() as int) =~= rows_yaml(rows, m));
    }
}

/// A `---` line at `p`: its text is `---` and the next line starts after it.
proof fn lemma_dashes_at(b: Seq<u8>, p: int)
    requires
        0 <= p,
        p + 4 <= b.len(),
        b[p] == 45 && b[p + 1] == 45 && b[p + 2] == 45 && b[p + 3] == 10,
    ensures
        is_dashes(line_text(b, p)),
        incl_end(b, p) == p + 4,
{
    lemma_first_of_props(b, 10, p, b.len() as int);
    lemma_line_end(b, p);
    assert(line_end(b, p) == p + 3);
    assert(crate::text::trim_nl_end(b, p, p + 3) == p + 3);
    assert(crate::text::trim_nl_end(b, p, p + 4) == p + 3);
    let x = b.subrange(p, p + 3);
    assert(x =~= seq![45u8, 45, 45]);
    assert(crate::text::ws_at(x, 0) == 0);
    assert(trim_start_at(x, 0, 3) == 0);
    assert(crate::text::ws_before(x, 3) == 0);
    assert(crate::text::trim_end_at(x, 0, 3) == 3);
    assert(trim_bytes(x) =~= x);
}

/// From the line of row `k` on, the first closing line is the last `---`.
proof fn lemma_close_after_rows(rows: Seq<String>, k: int)
    requires
        0 <= k <= rows.len(),
        forall|i: int| 0 <= i < rows.len() ==> one_line(#[trigger] utf8(rows[i]@)),
    ensures
        ({
            let y = rows_yaml(rows, rows.len() as int);
            let b = dashes_line() + y + dashes_line();
            close_from(b, (4 + rows_yaml(rows, k).len()) as int) == Some((4 + y.len()) as int)
        }),
    decreases rows.len() - k,
{
    let n = rows.len() as int;
    let y = rows_yaml(rows, n);
    let b = dashes_line() + y + dashes_line();
    let off: int = 4 + rows_yaml(rows, k).len() as int;
    if k == n {
        assert(b[off] == 45 && b[off + 1] == 45 && b[off + 2] == 45 && b[off + 3] == 10);
        lemma_dashes_at(b, off);
    } else {
        let r = row_yaml(utf8(rows[k]@));
        let rl = r.len() as int;
        lemma_row_yaml_shape(utf8(rows[k]@));
        let c = choose|c: int| 0 <= c < r.len() && #[trigger] r[c] == 58;
        lemma_rows_yaml_prefix(rows, k + 1, n);
        let o = rows_yaml(rows, k).len() as int;
        let y1 = rows_yaml(rows, k + 1);
        assert(y1 == rows_yaml(rows, k) + r + seq![10u8]);
        assert(y1.len() == o + rl + 1);
        assert forall|t: int| 0 <= t < rl implies #[trigger] b[off + t] == r[t] by {
            assert(y1[o + t] == r[t]);
            assert(y[o + t] == y1[o + t]);
            assert(b[off + t] == y[o + t]);
        }
        assert(b[off + rl] == 10) by {
            assert(y1[o + rl] == 10);
            assert(y[o + rl] == y1[o + rl]);
        }
        lemma_first_of_props(b, 10, off, b.len() as int);
        assert(line_end(b, off) == off + rl) by {
            match first_of(b, 10, off, b.len() as int) {
                Some(i) => {
                    if i < off + rl {
                        let t = i - off;
                        assert(b[off + t] == r[t]);
                        assert(off + t == i);
                    }
                },
                None => {},
            }
        }
        let ie = off + rl + 1;
        assert(incl_end(b, off) == ie);
        crate::notion::lemma_trim_nl_end(b, off, ie);
        let te = crate::text::trim_nl_end(b, off, ie);
        assert(te > off + c) by {
            if te <= off + c {
                assert(crate::text::is_nl(b[off + c]));
                assert(b[off + c] == r[c]);
            }
        }
        let x = b.subrange(off, te);
        assert(x[c] == 58) by {
            assert(x[c] == b[off + c]);
            assert(b[off + c] == r[c]);
        }
        lemma_trim_keeps_colon(x, c);
        assert(!is_dashes(line_text(b, off)) && !is_dots(line_text(b, off)));
        lemma_close_after_rows(rows, k + 1);
        assert((4 + rows_yaml(rows, k + 1).len()) as int == ie);
    }
}

/// A written block reads back: the block `serialize_block` writes for
/// one-line rows is found by `split` as the leading frontmatter, ending
/// where the text ends, with exactly the rows' YAML inside.
pub proof fn lemma_block_reads_back(rows: Seq<String>)
    requires
        forall|i: int| 0 <= i < rows.len() ==> one_line(#[trigger] utf8(rows[i]@)),
    ensures
        ({
            let y = rows_yaml(rows, rows.len() as int);
            let b = dashes_line() + y + dashes_line();
            fm_split(b) == Some((b.len() as int, 4int, (4 + y.len()) as int))
        }),
{
    let n = rows.len() as int;
    let y = rows_yaml(rows, n);
    let b = dashes_line() + y + dashes_line();
    assert(b[0] == 45 && b[1] == 45 && b[2] == 45 && b[3] == 10);
    lemma_dashes_at(b, 0);
    lemma_close_after_rows(rows, 0);
    assert(rows_yaml(rows, 0).len() == 0);
    let p: int = 4 + y.len() as int;
    assert(b[p] == 45 && b[p + 1] == 45 && b[p + 2] == 45 && b[p + 3] == 10);
    lemma_dashes_at(b, p);
}


/* ---------- quoted values ---------- */

/// `k` is a plain YAML key: one or more ASCII letters, digits or `_`.
pub open spec fn plain_key(k: Seq<u8>) -> bool {
    &&& k.len() > 0
    &&& forall|i: int|
        0 <= i < k.len() ==> {
            let x = #[trigger] k[i];
            (48 <= x <= 57) || (65 <= x <= 90) || (97 <= x <= 122) || x == 95
        }
}

/// A plain key is its own trim and its own unquoting, and holds no space.
proof fn lemma_plain_key(key: Seq<u8>)
    requires
        plain_key(key),
    ensures
        trim_bytes(key) == key,
        unquote_runs(key) == key,
        first_of(key, 32, 0, key.len() as int) is None,
        first_of(key, 58, 0, key.len() as int) is None,
{
    let n = key.len() as int;
    assert(key[0] == key[0]);
    assert(key[n - 1] == key[n - 1]);
    assert(crate::text::ws_at(key, 0) == 0);
    assert(trim_start_at(key, 0, n) == 0);
    if n >= 2 {
        assert(key[n - 2] == key[n - 2]);
    }
    if n >= 3 {
        assert(key[n - 3] == key[n - 3]);
    }
    assert(crate::text::ws_before(key, n) == 0);
    assert(crate::text::trim_end_at(key, 0, n) == n);
    assert(trim_bytes(key) =~= key);
    assert(lead_run(key, 34, 0, n) == 0);
    assert(tail_run(key, 34, 0, n) == 0);
    assert(strip_runs(key, 34) =~= key);
    assert(lead_run(key, 39, 0, n) == 0);
    assert(tail_run(key, 39, 0, n) == 0);
    assert(strip_runs(key, 39) =~= key);
    lemma_first_of_props(key, 32, 0, n);
    lemma_first_of_props(key, 58, 0, n);
}

/// The line `key: "v"` (or with single quotes), written `line`.
pub open spec fn quoted_prop_line(key: Seq<u8>, v: Seq<u8>, q: u8) -> Seq<u8> {
    key + seq![58u8, 32u8, q] + v + seq![q]
}

/// No white space ends a text whose last byte is a quote.
proof fn lemma_quote_ends(x: Seq<u8>, q: u8)
    requires
        x.len() > 0,
        q == 34 || q == 39,
        x.last() == q,
    ensures
        crate::text::ws_before(x, x.len() as int) == 0,
        crate::text::trim_end_at(x, 0, x.len() as int) == x.len(),
{
    let n = x.len() as int;
    assert(x[n - 1] == q);
    if n >= 2 {
        assert(crate::text::ws_at(x, n - 2) != 2);
    }
    if n >= 3 {
        assert(crate::text::ws_at(x, n - 3) != 3);
    }
}

/// One step of the reader on a quoted property line records the property
/// with its quotes taken off.
proof fn lemma_step_quoted(key: Seq<u8>, v: Seq<u8>, q: u8)
    requires
        plain_key(key),
        q == 34 || q == 39,
        v.len() > 0,
        v != seq![124u8],
        v != seq![62u8],
    ensures
        fm_step((Seq::empty(), None, Seq::empty()), quoted_prop_line(key, v, q)) == (
            seq![(key, v)],
            Option::<Seq<u8>>::None,
            Seq::<Seq<u8>>::empty(),
        ),
{
    let line = quoted_prop_line(key, v, q);
    let n = line.len() as int;
    let kl = key.len() as int;
    lemma_plain_key(key);
    assert(line[n - 1] == q);
    lemma_quote_ends(line, q);
    let l = trim_end_bytes(line);
    assert(l =~= line);
    assert(line[0] == key[0]);
    assert(crate::text::ws_at(l, 0) == 0);
    assert(trim_start_at(l, 0, n) == 0);
    assert(trim_start_bytes(l) =~= l);
    assert(!blank_text(l));
    assert(!is_item_line(l)) by {
        if l == seq![45u8] {
            assert(l[0] == 45);
        }
    }
    lemma_first_of_props(l, 58, 0, n);
    assert(l[kl] == 58);
    assert(forall|j: int| 0 <= j < kl ==> l[j] == key[j]);
    assert(first_of(l, 58, 0, n) == Some(kl));
    assert(l.subrange(0, kl) =~= key);
    let w = l.subrange(kl + 1, n);
    let m = w.len() as int;
    assert(w =~= seq![32u8, q] + v + seq![q]);
    assert(crate::text::ws_at(w, 1) == 0);
    assert(trim_start_at(w, 1, m) == 1);
    assert(crate::text::ws_at(w, 0) == 1);
    assert(trim_start_at(w, 0, m) == 1);
    assert(w[m - 1] == q);
    lemma_quote_ends(w, q);
    assert(crate::text::trim_end_at(w, 1, m) == m);
    let t = trim_bytes(w);
    assert(t =~= seq![q] + v + seq![q]);
    assert(t[0] == q && t.last() == q);
    assert(unquote_pair(t) =~= v);
    assert(!opens_block(v));
    assert(flush((Seq::<(Seq<u8>, Seq<u8>)>::empty(), None, Seq::<Seq<u8>>::empty())) == (
        Seq::<(Seq<u8>, Seq<u8>)>::empty(),
        Option::<Seq<u8>>::None,
        Seq::<Seq<u8>>::empty(),
    ));
    assert(Seq::<(Seq<u8>, Seq<u8>)>::empty().push((key, v)) =~= seq![(key, v)]);
}

/// A value wrapped in one pair of matching quotes, double or single, reads
/// back as the text between them: a `---` block holding the one line
/// `key: "v"` (or `key: 'v'`) is found as the leading frontmatter, and its
/// text parses to the single property `key` with the value `v`.
pub proof fn lemma_quoted_value_unwrapped(key: Seq<u8>, v: Seq<u8>, q: u8)
    requires
        plain_key(key),
        q == 34 || q == 39,
        v.len() > 0,
        v != seq![124u8],
        v != seq![62u8],
        forall|k: int| 0 <= k < v.len() ==> #[trigger] v[k] != 10,
    ensures
        ({
            let line = key + seq![58u8, 32u8, q] + v + seq![q];
            let doc = dashes_line() + line + seq![10u8] + dashes_line();
            &&& fm_split(doc) == Some((doc.len() as int, 4int, 5 + line.len() as int))
            &&& fm_props(doc.subrange(4, 5 + line.len() as int)) == seq![(key, v)]
        }),
{
    let line = quoted_prop_line(key, v, q);
    let n = line.len() as int;
    let kl = key.len() as int;
    let doc = dashes_line() + line + seq![10u8] + dashes_line();
    assert(line =~= key + seq![58u8, 32u8, q] + v + seq![q]);
    assert(forall|j: int| 0 <= j < n ==> #[trigger] line[j] != 10) by {
        assert forall|j: int| 0 <= j < n implies #[trigger] line[j] != 10 by {
            if j < kl {
                assert(line[j] == key[j]);
            } else if kl + 3 <= j < n - 1 {
                assert(line[j] == v[j - kl - 3]);
            }
        }
    }
    // the inner text: one line and its break
    let inner = line + seq![10u8];
    assert(doc.subrange(4, 5 + n) =~= inner);
    lemma_first_of_props(inner, 10, 0, n + 1);
    assert(inner[n] == 10);
    assert(forall|j: int| 0 <= j < n ==> inner[j] == line[j]);
    assert(line_end(inner, 0) == n);
    assert(inner[n - 1] == q);
    assert(crate::text::line_content_end(inner, 0) == n);
    assert(crate::text::lines_from(inner, n + 1) =~= Seq::<(int, int)>::empty());
    let ls = crate::text::lines_from(inner, 0);
    assert(ls =~= seq![(0int, n)]);
    assert(inner.subrange(0, n) =~= line);
    lemma_step_quoted(key, v, q);
    assert(fm_walk(inner, ls, 0) == (Seq::<(Seq<u8>, Seq<u8>)>::empty(), Option::<Seq<u8>>::None, Seq::<Seq<u8>>::empty()));
    assert(fm_walk(inner, ls, 1) == fm_step(fm_walk(inner, ls, 0), inner.subrange(0, n)));
    assert(fm_props(inner) == seq![(key, v)]);
    // the block around it
    assert(doc[0] == 45 && doc[1] == 45 && doc[2] == 45 && doc[3] == 10);
    lemma_dashes_at(doc, 0);
    let p = 5 + n;
    assert(doc[p] == 45 && doc[p + 1] == 45 && doc[p + 2] == 45 && doc[p + 3] == 10);
    lemma_dashes_at(doc, p);
    assert(forall|j: int| 0 <= j < n ==> #[trigger] doc[4 + j] == line[j]);
    assert(doc[4 + n] == 10);
    lemma_first_of_props(doc, 10, 4, doc.len() as int);
    assert(line_end(doc, 4) == 4 + n) by {
        match first_of(doc, 10, 4, doc.len() as int) {
            Some(i) => {
                if i < 4 + n {
                    assert(doc[4 + (i - 4)] == line[i - 4]);
                }
            },
            None => {},
        }
    }
    assert(incl_end(doc, 4) == p);
    crate::notion::lemma_trim_nl_end(doc, 4, p);
    let te = crate::text::trim_nl_end(doc, 4, p);
    assert(te > 4 + kl) by {
        if te <= 4 + kl {
            assert(crate::text::is_nl(doc[4 + kl]));
            assert(doc[4 + kl] == line[kl]);
        }
    }
    let x = doc.subrange(4, te);
    assert(x[kl] == 58) by {
        assert(x[kl] == doc[4 + kl]);
        assert(doc[4 + kl] == line[kl]);
    }
    lemma_trim_keeps_colon(x, kl);
    assert(close_from(doc, p) == Some(p));
    assert(close_from(doc, 4) == Some(p));
    assert(incl_end(doc, p) == doc.len());
}

} // verus!
