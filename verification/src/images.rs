//! Image drop/paste: unique filenames next to the markdown file, and the
//! media references (`![alt](src)`, `<video>`, `<img>`) inside blocks.
//!
//! Paths are `/`-separated strings, read the way `std::path::Path` reads
//! them on Unix: the file name is the last component that is neither `.`
//! nor `..`, and its extension is what follows its last inner dot.
use vstd::prelude::*;
use vstd::utf8::*;

use crate::projection::{lower, lower_seq};
use crate::text::{
    at_boundary, first_match, first_of, last_of, lemma_first_match_props, lemma_first_of_props,
    lemma_sub_valid, lemma_utf8_valid, trim_start_at, utf8, ws_at,
};

verus! {

broadcast use vstd::seq::group_seq_axioms, vstd::slice::group_slice_axioms;

/* ---------- file names ---------- */

/// The last component of `b[..e]` that is not empty or `.`, as a span.
pub open spec fn last_component(b: Seq<u8>, e: int) -> Option<(int, int)>
    decreases e,
{
    if e <= 0 || e > b.len() {
        None
    } else {
        let s = match last_of(b, 47, 0, e) {
            Some(j) => j + 1,
            None => 0,
        };
        proof {
            crate::text::lemma_last_of_props(b, 47, 0, e);
        }
        if s == e {
            last_component(b, e - 1)
        } else if b.subrange(s, e) == seq![46u8] {
            if s == 0 {
                None
            } else {
                last_component(b, s - 1)
            }
        } else {
            Some((s, e))
        }
    }
}

/// Span of the file name of the path `b`: its last component, unless
/// that is `..`.
pub open spec fn file_name_span(b: Seq<u8>) -> Option<(int, int)> {
    match last_component(b, b.len() as int) {
        Some((s, e)) => if b.subrange(s, e) == seq![46u8, 46] {
            None
        } else {
            Some((s, e))
        },
        None => None,
    }
}

/// Position of the dot that starts the extension of the file name
/// `b[s..e]`: its last dot, unless that dot begins the name.
pub open spec fn ext_dot(b: Seq<u8>, s: int, e: int) -> Option<int> {
    match last_of(b, 46, s, e) {
        Some(d) => if d > s {
            Some(d)
        } else {
            None
        },
        None => None,
    }
}

/// Extension of the path `b` (without the dot).
pub open spec fn path_ext(b: Seq<u8>) -> Option<Seq<u8>> {
    match file_name_span(b) {
        Some((s, e)) => match ext_dot(b, s, e) {
            Some(d) => Some(b.subrange(d + 1, e)),
            None => None,
        },
        None => None,
    }
}

/// Stem of the path `b`: its file name up to the extension's dot.
pub open spec fn path_stem(b: Seq<u8>) -> Option<Seq<u8>> {
    match file_name_span(b) {
        Some((s, e)) => match ext_dot(b, s, e) {
            Some(d) => Some(b.subrange(s, d)),
            None => Some(b.subrange(s, e)),
        },
        None => None,
    }
}

proof fn lemma_last_component(b: Seq<u8>, e: int)
    requires
        e == b.len() || (0 <= e < b.len() && b[e] == 47),
    ensures
        last_component(b, e) matches Some((s, t)) ==> 0 <= s < t <= e && (s == 0 || b[s - 1] == 47)
            && (t == b.len() || b[t] == 47),
    decreases e,
{
    if 0 < e <= b.len() {
        crate::text::lemma_last_of_props(b, 47, 0, e);
        let s = match last_of(b, 47, 0, e) {
            Some(j) => j + 1,
            None => 0,
        };
        if s == e {
            lemma_last_component(b, e - 1);
        } else if b.subrange(s, e) == seq![46u8] {
            if s > 0 {
                lemma_last_component(b, s - 1);
            }
        }
    }
}

pub proof fn lemma_file_name_bounds(b: Seq<u8>)
    ensures
        file_name_span(b) matches Some((s, e)) ==> 0 <= s < e <= b.len() && (s == 0 || b[s - 1]
            == 47) && (e == b.len() || b[e] == 47),
{
    lemma_last_component(b, b.len() as int);
}

pub proof fn lemma_file_name_valid(b: Seq<u8>)
    requires
        valid_utf8(b),
    ensures
        file_name_span(b) matches Some((s, e)) ==> valid_utf8(b.subrange(s, e)),
{
    lemma_file_name_bounds(b);
    if let Some((s, e)) = file_name_span(b) {
        crate::text::lemma_boundary_zero(b);
        if s > 0 {
            crate::text::lemma_after_ascii(b, s - 1);
        }
        lemma_sub_valid(b, s, e);
    }
}

fn last_component_exec(b: &[u8], e0: usize) -> (r: Option<(usize, usize)>)
    requires
        e0 <= b@.len(),
    ensures
        match r {
            Some((s, e)) => last_component(b@, e0 as int) == Some((s as int, e as int)) && s < e
                <= e0,
            None => last_component(b@, e0 as int) is None,
        },
{
    let mut e: usize = e0;
    loop
        invariant
            e <= e0 <= b@.len(),
            last_component(b@, e0 as int) == last_component(b@, e as int),
        decreases e,
    {
        if e == 0 {
            return None;
        }
        proof {
            crate::text::lemma_last_of_props(b@, 47, 0, e as int);
        }
        let s = match crate::text::rfind_byte(b, 47, 0, e) {
            Some(j) => j + 1,
            None => 0,
        };
        if s == e {
            e = e - 1;
        } else if e - s == 1 && b[s] == 46 {
            proof {
                assert(b@.subrange(s as int, e as int) =~= seq![46u8]);
            }
            if s == 0 {
                return None;
            }
            e = s - 1;
        } else {
            proof {
                if b@.subrange(s as int, e as int) == seq![46u8] {
                    assert(b@.subrange(s as int, e as int)[0] == b@[s as int]);
                }
                let ss = match last_of(b@, 47, 0, e as int) {
                    Some(j) => j + 1,
                    None => 0,
                };
                assert(ss == s);
                if b@.subrange(s as int, e as int) == seq![46u8] {
                    assert(seq![46u8].len() == 1);
                    assert(seq![46u8][0] == 46);
                    assert(b@.subrange(s as int, e as int).len() == e - s);
                    assert(b@.subrange(s as int, e as int)[0] == b@[s as int]);
                    assert(false);
                }
                assert(0 < e <= b@.len());
                assert(last_component(b@, e as int) == Some((s as int, e as int)));
            }
            return Some((s, e));
        }
    }
}

/// Span of the file name of `b`, as `file_name_span` gives it.
pub fn file_name_exec(b: &[u8]) -> (r: Option<(usize, usize)>)
    ensures
        match r {
            Some((s, e)) => file_name_span(b@) == Some((s as int, e as int)),
            None => file_name_span(b@) is None,
        },
{
    match last_component_exec(b, b.len()) {
        Some((s, e)) => {
            if e - s == 2 && b[s] == 46 && b[s + 1] == 46 {
                proof {
                    assert(b@.subrange(s as int, e as int) =~= seq![46u8, 46]);
                }
                None
            } else {
                proof {
                    if b@.subrange(s as int, e as int) == seq![46u8, 46] {
                        assert(seq![46u8, 46].len() == 2);
                        assert(seq![46u8, 46][0] == 46 && seq![46u8, 46][1] == 46);
                        assert(b@.subrange(s as int, e as int).len() == e - s);
                        assert(b@.subrange(s as int, e as int)[0] == b@[s as int]);
                        assert(b@.subrange(s as int, e as int)[1] == b@[s + 1]);
                        assert(false);
                    }
                }
                Some((s, e))
            }
        },
        None => None,
    }
}

fn ext_dot_exec(b: &[u8], s: usize, e: usize) -> (r: Option<usize>)
    requires
        s <= e <= b@.len(),
    ensures
        match r {
            Some(d) => ext_dot(b@, s as int, e as int) == Some(d as int),
            None => ext_dot(b@, s as int, e as int) is None,
        },
{
    proof {
        crate::text::lemma_last_of_props(b@, 46, s as int, e as int);
    }
    match crate::text::rfind_byte(b, 46, s, e) {
        Some(d) => if d > s {
            Some(d)
        } else {
            None
        },
        None => None,
    }
}

/* ---------- media extensions ---------- */

/// `e`, lower-cased as ASCII, is `w`.
fn lower_is(e: &[u8], w: &[u8]) -> (r: bool)
    ensures
        r == (lower_seq(e@) == w@),
{
    let l = crate::projection::ascii_lower(e);
    crate::inline::bytes_eq(l.as_slice(), w)
}

/// Image extensions, in any case: png, jpg, jpeg, gif, webp, svg, bmp, tif, tiff.
pub open spec fn image_ext(e: Seq<u8>) -> bool {
    let l = lower_seq(e);
    l == seq![112u8, 110, 103]
        || l == seq![106u8, 112, 103]
        || l == seq![106u8, 112, 101, 103]
        || l == seq![103u8, 105, 102]
        || l == seq![119u8, 101, 98, 112]
        || l == seq![115u8, 118, 103]
        || l == seq![98u8, 109, 112]
        || l == seq![116u8, 105, 102]
        || l == seq![116u8, 105, 102, 102]
}

/// GitHub-style video extensions, in any case: mp4, mov, webm, m4v, ogv, ogg.
pub open spec fn video_ext(e: Seq<u8>) -> bool {
    let l = lower_seq(e);
    l == seq![109u8, 112, 52]
        || l == seq![109u8, 111, 118]
        || l == seq![119u8, 101, 98, 109]
        || l == seq![109u8, 52, 118]
        || l == seq![111u8, 103, 118]
        || l == seq![111u8, 103, 103]
}

fn image_ext_exec(e: &[u8]) -> (r: bool)
    ensures
        r == image_ext(e@),
{
    let w0: [u8; 3] = [112, 110, 103];
    let w1: [u8; 3] = [106, 112, 103];
    let w2: [u8; 4] = [106, 112, 101, 103];
    let w3: [u8; 3] = [103, 105, 102];
    let w4: [u8; 4] = [119, 101, 98, 112];
    let w5: [u8; 3] = [115, 118, 103];
    let w6: [u8; 3] = [98, 109, 112];
    let w7: [u8; 3] = [116, 105, 102];
    let w8: [u8; 4] = [116, 105, 102, 102];
    proof {
        assert(w0@ =~= seq![112u8, 110, 103]);
        assert(w1@ =~= seq![106u8, 112, 103]);
        assert(w2@ =~= seq![106u8, 112, 101, 103]);
        assert(w3@ =~= seq![103u8, 105, 102]);
        assert(w4@ =~= seq![119u8, 101, 98, 112]);
        assert(w5@ =~= seq![115u8, 118, 103]);
        assert(w6@ =~= seq![98u8, 109, 112]);
        assert(w7@ =~= seq![116u8, 105, 102]);
        assert(w8@ =~= seq![116u8, 105, 102, 102]);
    }
    lower_is(e, w0.as_slice())
        || lower_is(e, w1.as_slice())
        || lower_is(e, w2.as_slice())
        || lower_is(e, w3.as_slice())
        || lower_is(e, w4.as_slice())
        || lower_is(e, w5.as_slice())
        || lower_is(e, w6.as_slice())
        || lower_is(e, w7.as_slice())
        || lower_is(e, w8.as_slice())
}

fn video_ext_exec(e: &[u8]) -> (r: bool)
    ensures
        r == video_ext(e@),
{
    let w0: [u8; 3] = [109, 112, 52];
    let w1: [u8; 3] = [109, 111, 118];
    let w2: [u8; 4] = [119, 101, 98, 109];
    let w3: [u8; 3] = [109, 52, 118];
    let w4: [u8; 3] = [111, 103, 118];
    let w5: [u8; 3] = [111, 103, 103];
    proof {
        assert(w0@ =~= seq![109u8, 112, 52]);
        assert(w1@ =~= seq![109u8, 111, 118]);
        assert(w2@ =~= seq![119u8, 101, 98, 109]);
        assert(w3@ =~= seq![109u8, 52, 118]);
        assert(w4@ =~= seq![111u8, 103, 118]);
        assert(w5@ =~= seq![111u8, 103, 103]);
    }
    lower_is(e, w0.as_slice())
        || lower_is(e, w1.as_slice())
        || lower_is(e, w2.as_slice())
        || lower_is(e, w3.as_slice())
        || lower_is(e, w4.as_slice())
        || lower_is(e, w5.as_slice())
}

/// Extension of the path `b`, as bytes.
fn path_ext_exec(b: &[u8]) -> (r: Option<Vec<u8>>)
    ensures
        match r {
            Some(x) => path_ext(b@) == Some(x@),
            None => path_ext(b@) is None,
        },
{
    match file_name_exec(b) {
        Some((s, e)) => {
            proof {
                lemma_last_component(b@, b@.len() as int);
            }
            match ext_dot_exec(b, s, e) {
                Some(d) => {
                    proof {
                        crate::text::lemma_last_of_props(b@, 46, s as int, e as int);
                    }
                    Some(crate::text::slice_vec(b, d + 1, e))
                },
                None => None,
            }
        },
        None => None,
    }
}

pub fn is_image_path(path: &str) -> (r: bool)
    ensures
        r == (path_ext(utf8(path@)) matches Some(x) && image_ext(x)),
{
    match path_ext_exec(crate::text::bytes_of(path)) {
        Some(x) => image_ext_exec(x.as_slice()),
        None => false,
    }
}

pub fn is_video_path(path: &str) -> (r: bool)
    ensures
        r == (path_ext(utf8(path@)) matches Some(x) && video_ext(x)),
{
    match path_ext_exec(crate::text::bytes_of(path)) {
        Some(x) => video_ext_exec(x.as_slice()),
        None => false,
    }
}

/// Image or video file (paste/drop peer of images).
pub fn is_media_path(path: &str) -> (r: bool)
    ensures
        r == (path_ext(utf8(path@)) matches Some(x) && (image_ext(x) || video_ext(x))),
{
    is_image_path(path) || is_video_path(path)
}

/// `src` up to its first `?` or `#`.
pub open spec fn src_base(b: Seq<u8>) -> Seq<u8> {
    let q = match first_of(b, 63, 0, b.len() as int) {
        Some(i) => i,
        None => b.len() as int,
    };
    let h = match first_of(b, 35, 0, b.len() as int) {
        Some(i) => i,
        None => b.len() as int,
    };
    b.subrange(0, if q < h { q } else { h })
}

/// True when an `![alt](src)` target is a video (extension or URL guess).
pub fn is_video_src(src: &str) -> (r: bool)
    ensures
        r == (path_ext(src_base(utf8(src@))) matches Some(x) && video_ext(x)),
{
    let b = crate::text::bytes_of(src);
    let n: usize = b.len();
    proof {
        lemma_first_of_props(b@, 63, 0, n as int);
        lemma_first_of_props(b@, 35, 0, n as int);
    }
    let q = match crate::text::find_byte(b, 63, 0, n) {
        Some(i) => i,
        None => n,
    };
    let h = match crate::text::find_byte(b, 35, 0, n) {
        Some(i) => i,
        None => n,
    };
    let base = crate::text::slice_vec(b, 0, if q < h { q } else { h });
    match path_ext_exec(base.as_slice()) {
        Some(x) => video_ext_exec(x.as_slice()),
        None => false,
    }
}

/// Remote `http(s)` media that can never resolve to a local file.
pub fn is_remote_src(src: &str) -> (r: bool)
    ensures
        r == crate::document::http_prefix(utf8(src@), 0),
{
    crate::document::http_prefix_exec(crate::text::bytes_of(src), 0)
}

/* ---------- HTML attributes ---------- */

/// First white space character, `>` or `/` at or after `k` (or the end).
pub open spec fn attr_stop(b: Seq<u8>, k: int) -> int
    decreases b.len() - k,
{
    if k < 0 || k >= b.len() {
        b.len() as int
    } else if ws_at(b, k) > 0 || b[k] == 62 || b[k] == 47 {
        k
    } else {
        attr_stop(b, k + 1)
    }
}

/// The value after an attribute name ending at `k`: `= "v"`, `= 'v'` or
/// `= v`; nothing without `=`, or when an unquoted value is empty.
pub open spec fn value_at(b: Seq<u8>, k: int) -> Option<Seq<u8>> {
    let n = b.len() as int;
    let p = trim_start_at(b, k, n);
    if !(0 <= k <= n) || p >= n || b[p] != 61 {
        None
    } else {
        let s = trim_start_at(b, p + 1, n);
        if s >= n {
            None
        } else if b[s] == 34 || b[s] == 39 {
            match first_of(b, b[s], s + 1, n) {
                Some(j) => Some(b.subrange(s + 1, j)),
                None => None,
            }
        } else {
            let v = crate::document::trim_bytes(b.subrange(s, attr_stop(b, s)));
            if v.len() == 0 {
                None
            } else {
                Some(v)
            }
        }
    }
}

/// A byte that continues an attribute name (so `data-src` is not `src`).
pub open spec fn name_char(x: u8) -> bool {
    (48 <= x <= 57) || (65 <= x <= 90) || (97 <= x <= 122) || x == 45 || x == 95
}

/// Value of attribute `name` (matched in any case) from `off` on.
pub open spec fn attr_from(b: Seq<u8>, name: Seq<u8>, off: int) -> Option<Seq<u8>>
    decreases b.len() + 1 - off,
{
    if off < 0 {
        None
    } else {
        match first_match(lower_seq(b), name, off, b.len() as int) {
            None => None,
            Some(abs) => {
                proof {
                    lemma_first_match_props(lower_seq(b), name, off, b.len() as int);
                }
                if name.len() > 0 && abs > 0 && name_char(b[abs - 1]) {
                    attr_from(b, name, abs + name.len())
                } else {
                    value_at(b, abs + name.len())
                }
            },
        }
    }
}

proof fn lemma_attr_stop(b: Seq<u8>, k: int)
    requires
        0 <= k <= b.len(),
    ensures
        k <= attr_stop(b, k) <= b.len(),
        attr_stop(b, k) < b.len() ==> ws_at(b, attr_stop(b, k)) > 0 || b[attr_stop(b, k)] == 62
            || b[attr_stop(b, k)] == 47,
    decreases b.len() - k,
{
    if k < b.len() && !(ws_at(b, k) > 0 || b[k] == 62 || b[k] == 47) {
        lemma_attr_stop(b, k + 1);
    }
}

fn attr_stop_exec(b: &[u8], k: usize) -> (r: usize)
    requires
        k <= b@.len(),
    ensures
        r as int == attr_stop(b@, k as int),
{
    let n: usize = b.len();
    let mut i: usize = k;
    while i < n
        invariant
            k <= i <= n == b@.len(),
            attr_stop(b@, k as int) == attr_stop(b@, i as int),
        decreases n - i,
    {
        if crate::text::ws_len_at(b, i) > 0 || b[i] == 62 || b[i] == 47 {
            return i;
        }
        i += 1;
    }
    i
}

/// The value after an attribute name ending at `k`, as `value_at` gives it.
fn value_exec(b: &[u8], k: usize) -> (r: Option<Vec<u8>>)
    requires
        k <= b@.len(),
        valid_utf8(b@),
    ensures
        match r {
            Some(v) => value_at(b@, k as int) == Some(v@) && valid_utf8(v@),
            None => value_at(b@, k as int) is None,
        },
{
    let n: usize = b.len();
    let p = crate::text::trim_start_idx(b, k, n);
    if p >= n || b[p] != 61 {
        return None;
    }
    let s = crate::text::trim_start_idx(b, p + 1, n);
    if s >= n {
        return None;
    }
    proof {
        crate::text::lemma_boundary_zero(b@);
        crate::text::lemma_after_ascii(b@, p as int);
        crate::projection::lemma_trim_start_boundary(b@, p + 1, n as int);
    }
    let q = b[s];
    if q == 34 || q == 39 {
        proof {
            lemma_first_of_props(b@, q, s + 1, n as int);
        }
        match crate::text::find_byte(b, q, s + 1, n) {
            Some(j) => {
                proof {
                    crate::text::lemma_after_ascii(b@, s as int);
                    lemma_sub_valid(b@, s + 1, j as int);
                }
                Some(crate::text::slice_vec(b, s + 1, j))
            },
            None => None,
        }
    } else {
        let stop = attr_stop_exec(b, s);
        proof {
            lemma_attr_stop(b@, s as int);
            lemma_sub_valid(b@, s as int, stop as int);
            crate::frontmatter::lemma_trim_valid(b@.subrange(s as int, stop as int));
        }
        let v = crate::frontmatter::trimmed_vec(b, s, stop);
        if v.len() == 0 {
            None
        } else {
            Some(v)
        }
    }
}

/// Value of attribute `name` in `b`, as `attr_from(b, name, 0)` gives it.
fn attr_exec(b: &[u8], name: &[u8]) -> (r: Option<Vec<u8>>)
    requires
        valid_utf8(b@),
    ensures
        match r {
            Some(v) => attr_from(b@, name@, 0) == Some(v@) && valid_utf8(v@),
            None => attr_from(b@, name@, 0) is None,
        },
{
    let n: usize = b.len();
    let low = crate::projection::ascii_lower(b);
    let mut off: usize = 0;
    loop
        invariant
            off <= n == b@.len(),
            low@ == lower_seq(b@),
            valid_utf8(b@),
            attr_from(b@, name@, 0) == attr_from(b@, name@, off as int),
        decreases n - off,
    {
        proof {
            lemma_first_match_props(low@, name@, off as int, n as int);
        }
        match crate::text::find_seq(low.as_slice(), name, off, n) {
            None => return None,
            Some(abs) => {
                if name.len() > 0 && abs > 0 && (b[abs - 1] == 45 || b[abs - 1] == 95 || (48 <= b[abs
                    - 1] && b[abs - 1] <= 57) || (65 <= b[abs - 1] && b[abs - 1] <= 90) || (97
                    <= b[abs - 1] && b[abs - 1] <= 122)) {
                    off = abs + name.len();
                } else {
                    return value_exec(b, abs + name.len());
                }
            },
        }
    }
}

/// `attr="v"` inside any tag in `raw`.
pub fn tag_attr_pub(raw: &str, name: &str) -> (r: Option<String>)
    ensures
        match r {
            Some(v) => attr_from(utf8(raw@), utf8(name@), 0) == Some(utf8(v@)),
            None => attr_from(utf8(raw@), utf8(name@), 0) is None,
        },
{
    match attr_exec(crate::text::bytes_of(raw), crate::text::bytes_of(name)) {
        Some(v) => Some(crate::text::string_of_bytes(v)),
        None => None,
    }
}

/// `<video`.
pub open spec fn video_open() -> Seq<u8> {
    seq![60u8, 118, 105, 100, 101, 111]
}

/// `<img`.
pub open spec fn img_open() -> Seq<u8> {
    seq![60u8, 105, 109, 103]
}

/// `src`.
pub open spec fn src_word() -> Seq<u8> {
    seq![115u8, 114, 99]
}

/// `alt`.
pub open spec fn alt_word() -> Seq<u8> {
    seq![97u8, 108, 116]
}

/// `href`.
pub open spec fn href_word() -> Seq<u8> {
    seq![104u8, 114, 101, 102]
}

/// The `src` of the first `<video` tag: the value after the first `src`
/// that follows it.
pub open spec fn video_src(b: Seq<u8>) -> Option<Seq<u8>> {
    let low = lower_seq(b);
    match first_match(low, video_open(), 0, b.len() as int) {
        None => None,
        Some(t) => match first_match(low, src_word(), t, b.len() as int) {
            None => None,
            Some(i) => value_at(b, i + 3),
        },
    }
}

/// `<video src="clip.mp4">…</video>` (or bare `<video src=…>`) -> src.
pub fn parse_video_src(raw: &str) -> (r: Option<String>)
    ensures
        match r {
            Some(v) => video_src(utf8(raw@)) == Some(utf8(v@)),
            None => video_src(utf8(raw@)) is None,
        },
{
    let b = crate::text::bytes_of(raw);
    let n: usize = b.len();
    let low = crate::projection::ascii_lower(b);
    let vo: [u8; 6] = [60, 118, 105, 100, 101, 111];
    let sw: [u8; 3] = [115, 114, 99];
    assert(vo@ =~= video_open());
    assert(sw@ =~= src_word());
    proof {
        lemma_first_match_props(low@, video_open(), 0, n as int);
    }
    let t = match crate::text::find_seq(low.as_slice(), vo.as_slice(), 0, n) {
        Some(t) => t,
        None => return None,
    };
    proof {
        lemma_first_match_props(low@, src_word(), t as int, n as int);
    }
    let i = match crate::text::find_seq(low.as_slice(), sw.as_slice(), t, n) {
        Some(i) => i,
        None => return None,
    };
    match value_exec(b, i + 3) {
        Some(v) => Some(crate::text::string_of_bytes(v)),
        None => None,
    }
}

/// The first `<img` tag of `b`, up to its `>`: the span of its text.
pub open spec fn img_tag_span(b: Seq<u8>) -> Option<(int, int)> {
    match first_match(lower_seq(b), img_open(), 0, b.len() as int) {
        None => None,
        Some(t) => Some(
            (
                t,
                match first_of(b, 62, t, b.len() as int) {
                    Some(e) => e,
                    None => b.len() as int,
                },
            ),
        ),
    }
}

/// `(src, alt)` of the first `<img` tag; alt empty when missing.
pub open spec fn img_src(b: Seq<u8>) -> Option<(Seq<u8>, Seq<u8>)> {
    match img_tag_span(b) {
        None => None,
        Some((t, e)) => {
            let tag = b.subrange(t, e);
            match attr_from(tag, src_word(), 0) {
                None => None,
                Some(s) => Some(
                    (
                        s,
                        match attr_from(tag, alt_word(), 0) {
                            Some(a) => a,
                            None => Seq::empty(),
                        },
                    ),
                ),
            }
        },
    }
}

fn img_src_exec(b: &[u8]) -> (r: Option<(Vec<u8>, Vec<u8>)>)
    requires
        valid_utf8(b@),
    ensures
        match r {
            Some((s, a)) => img_src(b@) == Some((s@, a@)) && valid_utf8(s@) && valid_utf8(a@),
            None => img_src(b@) is None,
        },
{
    let n: usize = b.len();
    let low = crate::projection::ascii_lower(b);
    let io: [u8; 4] = [60, 105, 109, 103];
    let sw: [u8; 3] = [115, 114, 99];
    let aw: [u8; 3] = [97, 108, 116];
    assert(io@ =~= img_open());
    assert(sw@ =~= src_word());
    assert(aw@ =~= alt_word());
    proof {
        lemma_first_match_props(low@, img_open(), 0, n as int);
    }
    let t = match crate::text::find_seq(low.as_slice(), io.as_slice(), 0, n) {
        Some(t) => t,
        None => return None,
    };
    proof {
        lemma_first_of_props(b@, 62, t as int, n as int);
    }
    let e = match crate::text::find_byte(b, 62, t, n) {
        Some(e) => e,
        None => n,
    };
    proof {
        // `<` and `>` are ASCII: the tag text is cut on boundaries
        crate::text::lemma_boundary_zero(b@);
        assert(low@[t as int] == 60);
        assert(b@[t as int] == 60);
        lemma_sub_valid(b@, t as int, e as int);
    }
    let tag = crate::text::slice_vec(b, t, e);
    let s = match attr_exec(tag.as_slice(), sw.as_slice()) {
        Some(s) => s,
        None => return None,
    };
    let a = match attr_exec(tag.as_slice(), aw.as_slice()) {
        Some(a) => a,
        None => {
            proof {
                crate::text::lemma_ascii_valid(Seq::<u8>::empty());
            }
            Vec::new()
        },
    };
    Some((s, a))
}

/// `<img src="pic.png" …>` (anywhere in the raw HTML) -> (src, alt).
pub fn parse_img_src(raw: &str) -> (r: Option<(String, String)>)
    ensures
        match r {
            Some((s, a)) => img_src(utf8(raw@)) == Some((utf8(s@), utf8(a@))),
            None => img_src(utf8(raw@)) is None,
        },
{
    match img_src_exec(crate::text::bytes_of(raw)) {
        Some((s, a)) => Some((crate::text::string_of_bytes(s), crate::text::string_of_bytes(a))),
        None => None,
    }
}

/// Generic `src`/`href` of an HTML block: a video's, an image's, then any
/// `src`, then any `href`.
pub open spec fn html_src(b: Seq<u8>) -> Option<Seq<u8>> {
    match video_src(b) {
        Some(v) => Some(v),
        None => match img_src(b) {
            Some((s, _)) => Some(s),
            None => match attr_from(b, src_word(), 0) {
                Some(v) => Some(v),
                None => attr_from(b, href_word(), 0),
            },
        },
    }
}

/// Generic `src`/`href` of any HTML block (video, iframe, embed, source…).
pub fn parse_html_src(raw: &str) -> (r: Option<String>)
    ensures
        match r {
            Some(v) => html_src(utf8(raw@)) == Some(utf8(v@)),
            None => html_src(utf8(raw@)) is None,
        },
{
    if let Some(v) = parse_video_src(raw) {
        return Some(v);
    }
    let b = crate::text::bytes_of(raw);
    if let Some((s, _)) = img_src_exec(b) {
        return Some(crate::text::string_of_bytes(s));
    }
    let sw: [u8; 3] = [115, 114, 99];
    let hw: [u8; 4] = [104, 114, 101, 102];
    assert(sw@ =~= src_word());
    assert(hw@ =~= href_word());
    if let Some(v) = attr_exec(b, sw.as_slice()) {
        return Some(crate::text::string_of_bytes(v));
    }
    match attr_exec(b, hw.as_slice()) {
        Some(v) => Some(crate::text::string_of_bytes(v)),
        None => None,
    }
}

/// Lower-casing ASCII letters keeps UTF-8 valid.
pub proof fn lemma_lower_valid(s: Seq<u8>)
    requires
        valid_utf8(s),
    ensures
        valid_utf8(lower_seq(s)),
    decreases s.len(),
{
    if forall|k: int| 0 <= k < s.len() ==> !(65 <= #[trigger] s[k] <= 90) {
        assert(lower_seq(s) =~= s);
    } else {
        let j = choose|k: int| 0 <= k < s.len() && 65 <= #[trigger] s[k] <= 90;
        let n = s.len() as int;
        crate::text::lemma_boundary_zero(s);
        crate::text::lemma_after_ascii(s, j);
        lemma_sub_valid(s, 0, j);
        lemma_sub_valid(s, j + 1, n);
        lemma_lower_valid(s.subrange(0, j));
        lemma_lower_valid(s.subrange(j + 1, n));
        let x = seq![lower(s[j])];
        crate::text::lemma_ascii_valid(x);
        assert(lower_seq(s) =~= lower_seq(s.subrange(0, j)) + x + lower_seq(s.subrange(j + 1, n)));
        crate::text::lemma_valid_concat(lower_seq(s.subrange(0, j)), x);
        crate::text::lemma_valid_concat(lower_seq(s.subrange(0, j)) + x, lower_seq(s.subrange(j + 1, n)));
    }
}

/// Tag name of a raw HTML block, lower-cased: after `<` and any `/`, up to
/// white space, `>` or `/`.
pub open spec fn html_tag_of(b: Seq<u8>) -> Option<Seq<u8>> {
    let n = b.len() as int;
    let t0 = trim_start_at(b, 0, n);
    if t0 >= n || b[t0] != 60 {
        None
    } else {
        let t1 = t0 + 1 + crate::projection::lead_run(b, 47, t0 + 1, n);
        let tag = lower_seq(b.subrange(t1, attr_stop(b, t1)));
        if tag.len() == 0 {
            None
        } else {
            Some(tag)
        }
    }
}

/// Best-effort tag name of a raw HTML block (`<video …>` → `video`).
pub fn html_tag(raw: &str) -> (r: Option<String>)
    ensures
        match r {
            Some(t) => html_tag_of(utf8(raw@)) == Some(utf8(t@)),
            None => html_tag_of(utf8(raw@)) is None,
        },
{
    let b = crate::text::bytes_of(raw);
    let n: usize = b.len();
    let t0 = crate::text::trim_start_idx(b, 0, n);
    if t0 >= n || b[t0] != 60 {
        return None;
    }
    let t1 = t0 + 1 + crate::projection::lead_run_len(b, 47, t0 + 1, n);
    let end = attr_stop_exec(b, t1);
    proof {
        crate::projection::lemma_lead_run(b@, 47, t0 + 1, n as int);
        lemma_attr_stop(b@, t1 as int);
        crate::text::lemma_boundary_zero(b@);
        crate::text::lemma_after_ascii(b@, t1 - 1);
        lemma_sub_valid(b@, t1 as int, end as int);
        lemma_lower_valid(b@.subrange(t1 as int, end as int));
    }
    let sl = crate::text::slice_vec(b, t1, end);
    let tag = crate::projection::ascii_lower(sl.as_slice());
    if tag.len() == 0 {
        None
    } else {
        Some(crate::text::string_of_bytes(tag))
    }
}

/* ---------- file names for dropped media ---------- */

/// `name` is one of `existing`.
pub open spec fn in_names(existing: Seq<String>, name: Seq<u8>) -> bool {
    exists|k: int| 0 <= k < existing.len() && utf8(#[trigger] existing[k]@) == name
}

fn in_names_exec(existing: &[String], name: &[u8]) -> (r: bool)
    ensures
        r == in_names(existing@, name@),
{
    let mut k: usize = 0;
    while k < existing.len()
        invariant
            k <= existing@.len(),
            forall|j: int| 0 <= j < k ==> utf8(#[trigger] existing@[j]@) != name@,
        decreases existing@.len() - k,
    {
        if crate::inline::bytes_eq(crate::text::bytes_of(existing[k].as_str()), name) {
            return true;
        }
        k += 1;
    }
    false
}

/// Stem of `preferred`, or `image` when it has no file name.
pub open spec fn stem_or_image(b: Seq<u8>) -> Seq<u8> {
    match path_stem(b) {
        Some(s) => s,
        None => seq![105u8, 109, 97, 103, 101],
    }
}

/// `.ext` of `preferred`, or nothing.
pub open spec fn dot_ext(b: Seq<u8>) -> Seq<u8> {
    match path_ext(b) {
        Some(e) => seq![46u8] + e,
        None => Seq::empty(),
    }
}

/// `stem-n.ext`.
pub open spec fn numbered(stem: Seq<u8>, n: nat, ext: Seq<u8>) -> Seq<u8> {
    stem + seq![45u8] + crate::display::dec(n) + ext
}

/// The first `n` from `k` below 10000 whose numbered name is free.
pub open spec fn first_free(existing: Seq<String>, stem: Seq<u8>, ext: Seq<u8>, k: nat) -> Option<nat>
    decreases 10000 - k,
{
    if k >= 10000 {
        None
    } else if !in_names(existing, numbered(stem, k, ext)) {
        Some(k)
    } else {
        first_free(existing, stem, ext, k + 1)
    }
}

/// `preferred` when free; else `stem-2.ext`, `stem-3.ext`, … (the first
/// free one below 10000); else `stem-dup.ext`.
pub open spec fn unique_name(existing: Seq<String>, p: Seq<u8>) -> Seq<u8> {
    if !in_names(existing, p) {
        p
    } else {
        let stem = stem_or_image(p);
        let ext = dot_ext(p);
        match first_free(existing, stem, ext, 2) {
            Some(n) => numbered(stem, n, ext),
            None => stem + seq![45u8, 100, 117, 112] + ext,
        }
    }
}

/// Stem and `.ext` of `p`, with their validity.
fn stem_and_ext(p: &[u8]) -> (r: (Vec<u8>, Vec<u8>))
    requires
        valid_utf8(p@),
    ensures
        r.0@ == stem_or_image(p@),
        r.1@ == dot_ext(p@),
        valid_utf8(r.0@),
        valid_utf8(r.1@),
{
    let n: usize = p.len();
    proof {
        crate::text::lemma_boundary_zero(p@);
        crate::text::lemma_ascii_valid(seq![46u8]);
        crate::text::lemma_ascii_valid(Seq::<u8>::empty());
        crate::text::lemma_ascii_valid(seq![105u8, 109, 97, 103, 101]);
    }
    match file_name_exec(p) {
        Some((s, e)) => {
            proof {
                lemma_last_component(p@, n as int);
                if s > 0 {
                    crate::text::lemma_after_ascii(p@, s - 1);
                }
            }
            match ext_dot_exec(p, s, e) {
                Some(d) => {
                    proof {
                        crate::text::lemma_last_of_props(p@, 46, s as int, e as int);
                        crate::text::lemma_after_ascii(p@, d as int);
                        lemma_sub_valid(p@, s as int, d as int);
                        lemma_sub_valid(p@, d + 1, e as int);
                        crate::text::lemma_valid_concat(seq![46u8], p@.subrange(d + 1, e as int));
                    }
                    let stem = crate::text::slice_vec(p, s, d);
                    let mut ext: Vec<u8> = Vec::new();
                    ext.push(46);
                    crate::text::extend_from(&mut ext, p, d + 1, e);
                    (stem, ext)
                },
                None => {
                    proof {
                        lemma_sub_valid(p@, s as int, e as int);
                    }
                    (crate::text::slice_vec(p, s, e), Vec::new())
                },
            }
        },
        None => {
            let img: Vec<u8> = vec![105, 109, 97, 103, 101];
            assert(img@ =~= seq![105u8, 109, 97, 103, 101]);
            (img, Vec::new())
        },
    }
}

/// `a + b + c + d`.
fn join4(a: &[u8], b: &[u8], c: &[u8], d: &[u8]) -> (r: Vec<u8>)
    ensures
        r@ == a@ + b@ + c@ + d@,
{
    let mut out: Vec<u8> = Vec::new();
    crate::text::extend_from(&mut out, a, 0, a.len());
    crate::text::extend_from(&mut out, b, 0, b.len());
    crate::text::extend_from(&mut out, c, 0, c.len());
    crate::text::extend_from(&mut out, d, 0, d.len());
    assert(a@.subrange(0, a@.len() as int) =~= a@);
    assert(b@.subrange(0, b@.len() as int) =~= b@);
    assert(c@.subrange(0, c@.len() as int) =~= c@);
    assert(d@.subrange(0, d@.len() as int) =~= d@);
    assert(out@ =~= a@ + b@ + c@ + d@);
    out
}

/// A name for `preferred` that is not in `existing`.
pub fn unique_filename(existing: &[String], preferred: &str) -> (r: String)
    ensures
        utf8(r@) == unique_name(existing@, utf8(preferred@)),
{
    let p = crate::text::bytes_of(preferred);
    if !in_names_exec(existing, p) {
        return crate::text::owned(preferred);
    }
    let (stem, ext) = stem_and_ext(p);
    let dash: [u8; 1] = [45];
    assert(dash@ =~= seq![45u8]);
    proof {
        crate::text::lemma_ascii_valid(seq![45u8]);
    }
    let mut k: usize = 2;
    while k < 10000
        invariant
            2 <= k <= 10000,
            stem@ == stem_or_image(p@),
            ext@ == dot_ext(p@),
            valid_utf8(stem@),
            valid_utf8(ext@),
            valid_utf8(seq![45u8]),
            dash@ == seq![45u8],
            p@ == utf8(preferred@),
            in_names(existing@, p@),
            first_free(existing@, stem@, ext@, 2) == first_free(existing@, stem@, ext@, k as nat),
        decreases 10000 - k,
    {
        let digits = crate::display::dec_bytes(k);
        let cand = join4(stem.as_slice(), dash.as_slice(), digits.as_slice(), ext.as_slice());
        if !in_names_exec(existing, cand.as_slice()) {
            proof {
                crate::display::lemma_dec_ascii(k as nat);
                crate::text::lemma_ascii_valid(digits@);
                crate::text::lemma_valid_concat(stem@, seq![45u8]);
                crate::text::lemma_valid_concat(stem@ + seq![45u8], digits@);
                crate::text::lemma_valid_concat(stem@ + seq![45u8] + digits@, ext@);
                assert(cand@ == numbered(stem@, k as nat, ext@));
                assert(first_free(existing@, stem@, ext@, k as nat) == Some(k as nat));
            }
            return crate::text::string_of_bytes(cand);
        }
        k += 1;
    }
    let dup: [u8; 4] = [45, 100, 117, 112];
    let empty: [u8; 0] = [];
    assert(dup@ =~= seq![45u8, 100, 117, 112]);
    let out = join4(stem.as_slice(), dup.as_slice(), ext.as_slice(), empty.as_slice());
    proof {
        assert(out@ =~= stem@ + seq![45u8, 100, 117, 112] + ext@);
        crate::text::lemma_ascii_valid(seq![45u8, 100, 117, 112]);
        crate::text::lemma_valid_concat(stem@, seq![45u8, 100, 117, 112]);
        crate::text::lemma_valid_concat(stem@ + seq![45u8, 100, 117, 112], ext@);
    }
    crate::text::string_of_bytes(out)
}

/// `crabmd-image-`.
pub open spec fn stamp_prefix() -> Seq<u8> {
    seq![99u8, 114, 97, 98, 109, 100, 45, 105, 109, 97, 103, 101, 45]
}

/// `crabmd-image-{stamp}.{ext}`, leading dots of `ext` dropped.
pub open spec fn stamped(stamp: Seq<u8>, ext: Seq<u8>) -> Seq<u8> {
    let d = crate::projection::lead_run(ext, 46, 0, ext.len() as int);
    stamp_prefix() + stamp + seq![46u8] + ext.subrange(d, ext.len() as int)
}

pub fn timestamped_name(stamp: &str, ext: &str) -> (r: String)
    ensures
        utf8(r@) == stamped(utf8(stamp@), utf8(ext@)),
{
    let sb = crate::text::bytes_of(stamp);
    let eb = crate::text::bytes_of(ext);
    let n: usize = eb.len();
    let d = crate::projection::lead_run_len(eb, 46, 0, n);
    let pre: [u8; 13] = [99, 114, 97, 98, 109, 100, 45, 105, 109, 97, 103, 101, 45];
    let dot: [u8; 1] = [46];
    assert(pre@ =~= stamp_prefix());
    assert(dot@ =~= seq![46u8]);
    proof {
        crate::projection::lemma_lead_run(eb@, 46, 0, n as int);
    }
    let tail = crate::text::slice_vec(eb, d, n);
    let out = join4(pre.as_slice(), sb, dot.as_slice(), tail.as_slice());
    proof {
        crate::text::lemma_boundary_zero(eb@);
        if d > 0 {
            crate::text::lemma_after_ascii(eb@, d - 1);
        }
        lemma_sub_valid(eb@, d as int, n as int);
        crate::text::lemma_ascii_valid(stamp_prefix());
        crate::text::lemma_ascii_valid(seq![46u8]);
        crate::text::lemma_valid_concat(stamp_prefix(), sb@);
        crate::text::lemma_valid_concat(stamp_prefix() + sb@, seq![46u8]);
        crate::text::lemma_valid_concat(stamp_prefix() + sb@ + seq![46u8], tail@);
    }
    crate::text::string_of_bytes(out)
}

/// `![alt](filename)`.
pub open spec fn image_line(alt: Seq<u8>, f: Seq<u8>) -> Seq<u8> {
    seq![33u8, 91] + alt + seq![93u8, 40] + f + seq![41u8]
}

pub fn gfm_image(alt: &str, filename: &str) -> (r: String)
    ensures
        utf8(r@) == image_line(utf8(alt@), utf8(filename@)),
{
    let ab = crate::text::bytes_of(alt);
    let fb = crate::text::bytes_of(filename);
    let open: [u8; 2] = [33, 91];
    let mid: [u8; 2] = [93, 40];
    assert(open@ =~= seq![33u8, 91]);
    assert(mid@ =~= seq![93u8, 40]);
    let mut out = join4(open.as_slice(), ab, mid.as_slice(), fb);
    out.push(41);
    proof {
        assert(out@ =~= image_line(ab@, fb@));
        crate::text::lemma_ascii_valid(seq![33u8, 91]);
        crate::text::lemma_ascii_valid(seq![93u8, 40]);
        crate::text::lemma_ascii_valid(seq![41u8]);
        crate::text::lemma_valid_concat(seq![33u8, 91], ab@);
        crate::text::lemma_valid_concat(seq![33u8, 91] + ab@, seq![93u8, 40]);
        crate::text::lemma_valid_concat(seq![33u8, 91] + ab@ + seq![93u8, 40], fb@);
        crate::text::lemma_valid_concat(seq![33u8, 91] + ab@ + seq![93u8, 40] + fb@, seq![41u8]);
    }
    crate::text::string_of_bytes(out)
}

/// `p` occurs in `h`.
pub open spec fn holds_word(h: Seq<u8>, p: Seq<u8>) -> bool {
    first_match(h, p, 0, h.len() as int) is Some
}

/// File extension for a MIME type or file name hint (lower-cased first):
/// jpg, gif, webp, svg, bmp, else png.
pub open spec fn mime_ext(hint: Seq<u8>) -> Seq<char> {
    let h = lower_seq(hint);
    if holds_word(h, seq![106u8, 112, 101, 103]) || holds_word(h, seq![106u8, 112, 103]) {
        "jpg"@
    } else if holds_word(h, seq![103u8, 105, 102]) {
        "gif"@
    } else if holds_word(h, seq![119u8, 101, 98, 112]) {
        "webp"@
    } else if holds_word(h, seq![115u8, 118, 103]) {
        "svg"@
    } else if holds_word(h, seq![98u8, 109, 112]) {
        "bmp"@
    } else {
        "png"@
    }
}

fn holds_word_exec(h: &[u8], p: &[u8]) -> (r: bool)
    ensures
        r == holds_word(h@, p@),
{
    crate::text::find_seq(h, p, 0, h.len()).is_some()
}

pub fn ext_from_mime_or_name(hint: &str) -> (r: &'static str)
    ensures
        r@ == mime_ext(utf8(hint@)),
{
    let h = crate::projection::ascii_lower(crate::text::bytes_of(hint));
    let jpeg: [u8; 4] = [106, 112, 101, 103];
    let jpg: [u8; 3] = [106, 112, 103];
    let gif: [u8; 3] = [103, 105, 102];
    let webp: [u8; 4] = [119, 101, 98, 112];
    let svg: [u8; 3] = [115, 118, 103];
    let bmp: [u8; 3] = [98, 109, 112];
    proof {
        assert(jpeg@ =~= seq![106u8, 112, 101, 103]);
        assert(jpg@ =~= seq![106u8, 112, 103]);
        assert(gif@ =~= seq![103u8, 105, 102]);
        assert(webp@ =~= seq![119u8, 101, 98, 112]);
        assert(svg@ =~= seq![115u8, 118, 103]);
        assert(bmp@ =~= seq![98u8, 109, 112]);
    }
    if holds_word_exec(h.as_slice(), jpeg.as_slice()) || holds_word_exec(h.as_slice(), jpg.as_slice()) {
        "jpg"
    } else if holds_word_exec(h.as_slice(), gif.as_slice()) {
        "gif"
    } else if holds_word_exec(h.as_slice(), webp.as_slice()) {
        "webp"
    } else if holds_word_exec(h.as_slice(), svg.as_slice()) {
        "svg"
    } else if holds_word_exec(h.as_slice(), bmp.as_slice()) {
        "bmp"
    } else {
        "png"
    }
}

/// The layout of a paste stamp: year, month, day, `-`, hour, minute,
/// second, in chrono's format syntax.
pub open spec fn stamp_format() -> Seq<char> {
    "%Y%m%d-%H%M%S"@
}

pub open spec fn is_digit(c: char) -> bool {
    '0' <= c && c <= '9'
}

/// What a stamp in that layout looks like for any clock reading: the year
/// (at least four digits, with a sign past 9999 or before year 0), then
/// month and day, `-`, and six digits of hour, minute and second.
pub open spec fn stamp_shape(s: Seq<char>) -> bool {
    &&& s.len() >= 15
    &&& s[s.len() - 7] == '-'
    &&& forall|k: int| s.len() - 6 <= k < s.len() ==> is_digit(#[trigger] s[k])
    &&& forall|k: int|
        0 <= k < s.len() - 7 ==> is_digit(#[trigger] s[k]) || (k == 0 && (s[k] == '+' || s[k] == '-'))
}

/// `chrono::Local::now().format(format)`, for the stamp layout only. The
/// clock and the machine's time zone decide which time it shows; chrono
/// writes the year with at least four digits (zero-padded, with a sign
/// outside 0..=9999) and every other field with two digits, so the
/// result has the stamp's shape. Which time it holds is left unsaid.
#[verifier::external_body]
fn local_time_stamp(format: &str) -> (r: String)
    requires
        format@ == stamp_format(),
    ensures
        stamp_shape(r@),
{
    chrono::Local::now().format(format).to_string()
}

/// The local time as `YYYYmmdd-HHMMSS`.
pub fn now_stamp() -> (r: String)
    ensures
        stamp_shape(r@),
{
    local_time_stamp("%Y%m%d-%H%M%S")
}

/// Name for an image pasted now with extension `ext`: the paste name of
/// the current local time stamp, whatever the clock reads.
pub fn paste_image_name(ext: &str) -> (r: String)
    ensures
        exists|st: Seq<char>| stamp_shape(st) && utf8(r@) == #[trigger] stamped(utf8(st), utf8(ext@)),
{
    let stamp = now_stamp();
    let r = timestamped_name(&stamp, ext);
    assert(utf8(r@) == stamped(utf8(stamp@), utf8(ext@)));
    r
}

/// The first free numbered name is free.
proof fn lemma_first_free(existing: Seq<String>, stem: Seq<u8>, ext: Seq<u8>, k: nat)
    ensures
        first_free(existing, stem, ext, k) matches Some(n) ==> k <= n < 10000 && !in_names(
            existing,
            numbered(stem, n, ext),
        ),
    decreases 10000 - k,
{
    if k < 10000 && in_names(existing, numbered(stem, k, ext)) {
        lemma_first_free(existing, stem, ext, k + 1);
    }
}

/// A dropped file never overwrites a neighbour: the name chosen is not
/// among the existing names, unless all of `stem-2` … `stem-9999` are
/// taken as well (then the `-dup` name is used).
pub proof fn lemma_unique_name_is_free(existing: Seq<String>, p: Seq<u8>)
    requires
        !in_names(existing, p) || first_free(existing, stem_or_image(p), dot_ext(p), 2) is Some,
    ensures
        !in_names(existing, unique_name(existing, p)),
{
    lemma_first_free(existing, stem_or_image(p), dot_ext(p), 2);
}

} // verus!
