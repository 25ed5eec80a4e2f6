//! Registering CrabMD in the OS app launcher: the decisions and file
//! contents. Installing (copying, writing, signing) happens outside the
//! library.
//!
//! Paths are `/`-separated strings; a parent is the path without its last
//! component and the separators before it (`.` segments are not folded).
use vstd::prelude::*;
use vstd::utf8::*;

use crate::text::{first_match, last_of, utf8};

verus! {

broadcast use vstd::seq::group_seq_axioms, vstd::slice::group_slice_axioms;

/// `p` occurs in `s`.
pub open spec fn holds(s: Seq<u8>, p: Seq<u8>) -> bool {
    first_match(s, p, 0, s.len() as int) is Some
}

fn holds_exec(s: &[u8], p: &[u8]) -> (r: bool)
    ensures
        r == holds(s@, p@),
{
    crate::text::find_seq(s, p, 0, s.len()).is_some()
}

/// `/target/debug/`, `/target/release/` and their Windows spellings.
pub open spec fn dev_markers() -> Seq<Seq<u8>> {
    seq![
        seq![47u8, 116, 97, 114, 103, 101, 116, 47, 100, 101, 98, 117, 103, 47],
        seq![47u8, 116, 97, 114, 103, 101, 116, 47, 114, 101, 108, 101, 97, 115, 101, 47],
        seq![92u8, 116, 97, 114, 103, 101, 116, 92, 100, 101, 98, 117, 103, 92],
        seq![92u8, 116, 97, 114, 103, 101, 116, 92, 114, 101, 108, 101, 97, 115, 101, 92],
    ]
}

/// A `cargo` build output, which dies on rebuild: never registered.
pub fn is_dev_binary(exe: &str) -> (r: bool)
    ensures
        r == exists|k: int| 0 <= k < 4 && holds(utf8(exe@), #[trigger] dev_markers()[k]),
{
    let s = crate::text::bytes_of(exe);
    let m0: [u8; 14] = [47, 116, 97, 114, 103, 101, 116, 47, 100, 101, 98, 117, 103, 47];
    let m1: [u8; 16] = [47, 116, 97, 114, 103, 101, 116, 47, 114, 101, 108, 101, 97, 115, 101, 47];
    let m2: [u8; 14] = [92, 116, 97, 114, 103, 101, 116, 92, 100, 101, 98, 117, 103, 92];
    let m3: [u8; 16] = [92, 116, 97, 114, 103, 101, 116, 92, 114, 101, 108, 101, 97, 115, 101, 92];
    proof {
        assert(m0@ =~= dev_markers()[0]);
        assert(m1@ =~= dev_markers()[1]);
        assert(m2@ =~= dev_markers()[2]);
        assert(m3@ =~= dev_markers()[3]);
    }
    let r = holds_exec(s, m0.as_slice()) || holds_exec(s, m1.as_slice()) || holds_exec(
        s,
        m2.as_slice(),
    ) || holds_exec(s, m3.as_slice());
    proof {
        if !r {
            assert forall|k: int| 0 <= k < 4 implies !holds(utf8(exe@), #[trigger] dev_markers()[k]) by {
                if k == 0 {
                } else if k == 1 {
                } else if k == 2 {
                } else {
                }
            }
        }
    }
    r
}

/// `/Cellar/crabmd/`.
pub open spec fn cellar_marker() -> Seq<u8> {
    seq![47u8, 67, 101, 108, 108, 97, 114, 47, 99, 114, 97, 98, 109, 100, 47]
}

/// `/opt/crabmd/bin/crabmd`.
pub open spec fn opt_tail() -> Seq<u8> {
    seq![47u8, 111, 112, 116, 47, 99, 114, 97, 98, 109, 100, 47, 98, 105, 110, 47, 99, 114, 97, 98, 109, 100]
}

/// `s` with every `\` written as `/`.
pub open spec fn slashed(s: Seq<u8>) -> Seq<u8> {
    Seq::new(s.len(), |i: int| if s[i] == 92 { 47u8 } else { s[i] })
}

/// The stable Homebrew path for a binary inside the Cellar: what precedes
/// `/Cellar/crabmd/`, then `/opt/crabmd/bin/crabmd`.
pub open spec fn cellar_opt(exe: Seq<u8>) -> Option<Seq<u8>> {
    let s = slashed(exe);
    match first_match(s, cellar_marker(), 0, s.len() as int) {
        Some(i) => Some(s.subrange(0, i) + opt_tail()),
        None => None,
    }
}

/// Homebrew Cellar paths vanish on upgrade; `opt/crabmd` is the stable
/// symlink. The caller uses it when it exists.
pub fn cellar_opt_path(exe: &str) -> (r: Option<String>)
    ensures
        match r {
            Some(p) => cellar_opt(utf8(exe@)) == Some(utf8(p@)),
            None => cellar_opt(utf8(exe@)) is None,
        },
{
    let b = crate::text::bytes_of(exe);
    let n: usize = b.len();
    let mut s: Vec<u8> = Vec::new();
    let mut i: usize = 0;
    while i < n
        invariant
            i <= n == b@.len(),
            s@ == slashed(b@).subrange(0, i as int),
        decreases n - i,
    {
        s.push(
            if b[i] == 92 {
                47
            } else {
                b[i]
            },
        );
        i += 1;
        assert(s@ =~= slashed(b@).subrange(0, i as int));
    }
    assert(s@ =~= slashed(b@));
    let marker: [u8; 15] = [47, 67, 101, 108, 108, 97, 114, 47, 99, 114, 97, 98, 109, 100, 47];
    let tail: [u8; 22] = [
        47,
        111,
        112,
        116,
        47,
        99,
        114,
        97,
        98,
        109,
        100,
        47,
        98,
        105,
        110,
        47,
        99,
        114,
        97,
        98,
        109,
        100,
    ];
    assert(marker@ =~= cellar_marker());
    assert(tail@ =~= opt_tail());
    match crate::text::find_seq(s.as_slice(), marker.as_slice(), 0, n) {
        Some(i) => {
            proof {
                crate::text::lemma_first_match_props(s@, cellar_marker(), 0, n as int);
                lemma_slashed_valid(b@, i as int);
                crate::text::lemma_ascii_valid(opt_tail());
                crate::text::lemma_valid_concat(s@.subrange(0, i as int), opt_tail());
            }
            let mut out = crate::text::slice_vec(s.as_slice(), 0, i);
            crate::text::extend_from(&mut out, tail.as_slice(), 0, 22);
            assert(tail@.subrange(0, 22) =~= tail@);
            Some(crate::text::string_of_bytes(out))
        },
        None => None,
    }
}

/// The prefix before a `/` of a path with `\` turned into `/` is valid.
proof fn lemma_slashed_valid(b: Seq<u8>, i: int)
    requires
        valid_utf8(b),
        0 <= i < b.len(),
        slashed(b)[i] == 47,
    ensures
        valid_utf8(slashed(b).subrange(0, i)),
{
    // Replacing `\` by `/` swaps one ASCII byte for another.
    let t = slashed(b).subrange(0, i);
    let u = b.subrange(0, i);
    crate::text::lemma_boundary_zero(b);
    assert(b[i] == 47 || b[i] == 92);
    assert(!is_continuation_byte(b[i]));
    crate::text::lemma_sub_valid(b, 0, i);
    crate::text::lemma_boundary_zero(u);
    crate::text::lemma_ascii_valid(seq![47u8]);
    crate::frontmatter::lemma_replace_valid(u, 0, 92, seq![47u8]);
    lemma_replace_is_slashed(u, 0);
    assert(slashed(u).subrange(0, u.len() as int) =~= slashed(u));
    assert(t =~= slashed(u));
}

/// `replace_from(u, k, '\', "/")` is `slashed(u)` from `k` on.
proof fn lemma_replace_is_slashed(u: Seq<u8>, k: int)
    requires
        0 <= k <= u.len(),
    ensures
        crate::frontmatter::replace_from(u, k, 92, seq![47u8]) == slashed(u).subrange(k, u.len() as int),
    decreases u.len() - k,
{
    let n = u.len() as int;
    crate::text::lemma_first_of_props(u, 92, k, n);
    match crate::text::first_of(u, 92, k, n) {
        None => {
            assert(u.subrange(k, n) =~= slashed(u).subrange(k, n));
        },
        Some(j) => {
            lemma_replace_is_slashed(u, j + 1);
            assert(u.subrange(k, j) + seq![47u8] + slashed(u).subrange(j + 1, n) =~= slashed(u).subrange(
                k,
                n,
            ));
        },
    }
}

/// Little-endian bytes of `v`.
pub open spec fn le16(v: u16) -> Seq<u8> {
    seq![(v & 0xff) as u8, (v >> 8) as u8]
}

pub open spec fn le32(v: u32) -> Seq<u8> {
    seq![(v & 0xff) as u8, ((v >> 8) & 0xff) as u8, ((v >> 16) & 0xff) as u8, (v >> 24) as u8]
}

/// A Vista ICO holding one 256×256 PNG: the 6-byte header, one 16-byte
/// directory entry (width and height 0 for 256, 32 bits per pixel, the
/// payload length as 32 bits, offset 22), then the PNG.
pub open spec fn ico_of(png: Seq<u8>) -> Seq<u8> {
    seq![0u8, 0, 1, 0, 1, 0] + seq![0u8, 0, 0, 0] + le16(1) + le16(32) + le32(png.len() as u32)
        + le32(22) + png
}

/// Vista+ ICO that embeds a PNG payload (256×256).
pub fn png_to_ico(png: &[u8]) -> (r: Vec<u8>)
    ensures
        r@ == ico_of(png@),
{
    let n: usize = png.len();
    #[verifier::truncate]
    let len: u32 = n as u32;
    let mut out: Vec<u8> = vec![0, 0, 1, 0, 1, 0, 0, 0, 0, 0, 1, 0, 32, 0];
    out.push((len & 0xff) as u8);
    out.push(((len >> 8) & 0xff) as u8);
    out.push(((len >> 16) & 0xff) as u8);
    out.push((len >> 24) as u8);
    out.push(22);
    out.push(0);
    out.push(0);
    out.push(0);
    let ghost head = out@;
    crate::text::extend_from(&mut out, png, 0, n);
    proof {
        assert(le16(1) =~= seq![1u8, 0]) by {
            assert((1u16 & 0xff) as u8 == 1u8) by (bit_vector);
            assert((1u16 >> 8) as u8 == 0u8) by (bit_vector);
        }
        assert(le16(32) =~= seq![32u8, 0]) by {
            assert((32u16 & 0xff) as u8 == 32u8) by (bit_vector);
            assert((32u16 >> 8) as u8 == 0u8) by (bit_vector);
        }
        assert(le32(22) =~= seq![22u8, 0, 0, 0]) by {
            assert((22u32 & 0xff) as u8 == 22u8) by (bit_vector);
            assert(((22u32 >> 8) & 0xff) as u8 == 0u8) by (bit_vector);
            assert(((22u32 >> 16) & 0xff) as u8 == 0u8) by (bit_vector);
            assert((22u32 >> 24) as u8 == 0u8) by (bit_vector);
        }
        assert(png@.subrange(0, n as int) =~= png@);
        assert(out@ =~= ico_of(png@));
    }
    out
}

/// `.app/Contents/MacOS/`.
pub open spec fn app_marker() -> Seq<u8> {
    seq![46u8, 97, 112, 112, 47, 67, 111, 110, 116, 101, 110, 116, 115, 47, 77, 97, 99, 79, 83, 47]
}

/// True when `exe` is inside `*.app/Contents/MacOS/`.
pub fn exe_is_inside_app(exe: &str) -> (r: bool)
    ensures
        r == holds(utf8(exe@), app_marker()),
{
    let m: [u8; 20] = [46, 97, 112, 112, 47, 67, 111, 110, 116, 101, 110, 116, 115, 47, 77, 97, 99, 79, 83, 47];
    assert(m@ =~= app_marker());
    holds_exec(crate::text::bytes_of(exe), m.as_slice())
}

/// End of the parent of the path `b[..e]`: without trailing separators,
/// its last component, and the separators before that (a root `/` stays).
pub open spec fn parent_end(b: Seq<u8>, e: int) -> Option<int> {
    let t = e - crate::projection::tail_run(b, 47, 0, e);
    if t <= 0 {
        None
    } else {
        match last_of(b, 47, 0, t) {
            None => Some(0),
            Some(j) => {
                let q = j + 1 - crate::projection::tail_run(b, 47, 0, j + 1);
                if q <= 0 {
                    Some(1)
                } else {
                    Some(q)
                }
            },
        }
    }
}

/// End of the path three parents up from `b`.
pub open spec fn root3_end(b: Seq<u8>) -> Option<int> {
    match parent_end(b, b.len() as int) {
        None => None,
        Some(p1) => match parent_end(b, p1) {
            None => None,
            Some(p2) => parent_end(b, p2),
        },
    }
}

/// A run of `c` ending at `e` stops after a byte that is not `c`.
proof fn lemma_tail_stop(b: Seq<u8>, c: u8, a: int, e: int)
    requires
        0 <= a <= e <= b.len(),
    ensures
        e - crate::projection::tail_run(b, c, a, e) > a ==> b[e - crate::projection::tail_run(
            b,
            c,
            a,
            e,
        ) - 1] != c,
    decreases e - a,
{
    if e > a && b[e - 1] == c {
        lemma_tail_stop(b, c, a, e - 1);
    }
}

proof fn lemma_parent_end(b: Seq<u8>, e: int)
    requires
        0 <= e <= b.len(),
    ensures
        parent_end(b, e) matches Some(p) ==> 0 <= p < e && (p == 0 || (b[p - 1] == 47 || b[p] == 47)),
{
    crate::projection::lemma_tail_run(b, 47, 0, e);
    lemma_tail_stop(b, 47, 0, e);
    let t = e - crate::projection::tail_run(b, 47, 0, e);
    if t > 0 {
        crate::text::lemma_last_of_props(b, 47, 0, t);
        match last_of(b, 47, 0, t) {
            None => {},
            Some(j) => {
                crate::projection::lemma_tail_run(b, 47, 0, j + 1);
                assert(j + 1 < t);
                let q = j + 1 - crate::projection::tail_run(b, 47, 0, j + 1);
                assert(b[j] == 47);
                crate::projection::lemma_tail_run(b, 47, 0, j);
                assert(crate::projection::tail_run(b, 47, 0, j + 1) >= 1);
                if q <= 0 {
                    assert(b[0] == 47);
                } else {
                    assert(b[q] == 47);
                }
            },
        }
    }
}

fn parent_end_exec(b: &[u8], e: usize) -> (r: Option<usize>)
    requires
        e <= b@.len(),
    ensures
        match r {
            Some(p) => parent_end(b@, e as int) == Some(p as int),
            None => parent_end(b@, e as int) is None,
        },
{
    proof {
        lemma_parent_end(b@, e as int);
    }
    let t = e - crate::projection::tail_run_len(b, 47, 0, e);
    if t == 0 {
        return None;
    }
    proof {
        crate::text::lemma_last_of_props(b@, 47, 0, t as int);
    }
    match crate::text::rfind_byte(b, 47, 0, t) {
        None => Some(0),
        Some(j) => {
            let q = j + 1 - crate::projection::tail_run_len(b, 47, 0, j + 1);
            if q == 0 {
                Some(1)
            } else {
                Some(q)
            }
        },
    }
}

/// `…/CrabMD.app/Contents/MacOS/crabmd` → `…/CrabMD.app`.
pub fn app_root_from_exe(exe: &str) -> (r: Option<String>)
    ensures
        match r {
            Some(p) => root3_end(utf8(exe@)) matches Some(q) && utf8(p@) == utf8(exe@).subrange(0, q),
            None => root3_end(utf8(exe@)) is None,
        },
{
    let b = crate::text::bytes_of(exe);
    let n: usize = b.len();
    let p1 = match parent_end_exec(b, n) {
        Some(p) => p,
        None => return None,
    };
    proof {
        lemma_parent_end(b@, n as int);
    }
    let p2 = match parent_end_exec(b, p1) {
        Some(p) => p,
        None => return None,
    };
    proof {
        lemma_parent_end(b@, p1 as int);
    }
    let p3 = match parent_end_exec(b, p2) {
        Some(p) => p,
        None => return None,
    };
    proof {
        lemma_parent_end(b@, p2 as int);
        crate::text::lemma_boundary_zero(b@);
        if p3 > 0 {
            if b@[p3 - 1] == 47 {
                crate::text::lemma_after_ascii(b@, p3 - 1);
            }
        }
    }
    Some(crate::text::owned(crate::text::substr(exe, 0, p3)))
}

/// The app bundle holding `exe`, when it is inside one.
pub fn bundle_from_exe(exe: &str) -> (r: Option<String>)
    ensures
        holds(utf8(exe@), app_marker()) ==> match r {
            Some(p) => root3_end(utf8(exe@)) matches Some(q) && utf8(p@) == utf8(exe@).subrange(0, q),
            None => root3_end(utf8(exe@)) is None,
        },
        !holds(utf8(exe@), app_marker()) ==> r is None,
{
    if exe_is_inside_app(exe) {
        app_root_from_exe(exe)
    } else {
        None
    }
}

/// First present candidate: exe bundle, then /Applications, then ~/Applications.
pub fn pick_bundle_in_order(candidates: &[Option<String>]) -> (r: Option<String>)
    ensures
        match r {
            Some(p) => exists|k: int|
                0 <= k < candidates@.len() && (#[trigger] candidates@[k]) == Some(p) && forall|j: int|
                    0 <= j < k ==> candidates@[j] is None,
            None => forall|k: int| 0 <= k < candidates@.len() ==> (#[trigger] candidates@[k]) is None,
        },
{
    let mut k: usize = 0;
    while k < candidates.len()
        invariant
            k <= candidates@.len(),
            forall|j: int| 0 <= j < k ==> (#[trigger] candidates@[j]) is None,
        decreases candidates@.len() - k,
    {
        match &candidates[k] {
            Some(c) => {
                let p = c.clone();
                proof {
                    assert(candidates@[k as int] == Some(p));
                }
                return Some(p);
            },
            None => {},
        }
        k += 1;
    }
    None
}

/// Bytes a POSIX shell takes as they are.
pub open spec fn shell_safe(x: u8) -> bool {
    (48 <= x <= 57) || (65 <= x <= 90) || (97 <= x <= 122) || x == 47 || x == 46 || x == 95 || x
        == 45 || x == 58 || x == 43
}

/// `s` as it is when every byte is shell-safe, else in double quotes with
/// inner `"` escaped.
pub open spec fn shell_quoted(s: Seq<u8>) -> Seq<u8> {
    if forall|i: int| 0 <= i < s.len() ==> shell_safe(#[trigger] s[i]) {
        s
    } else {
        seq![34u8] + crate::frontmatter::escape_quotes(s) + seq![34u8]
    }
}

fn shell_quoted_bytes(b: &[u8]) -> (r: Vec<u8>)
    requires
        valid_utf8(b@),
    ensures
        r@ == shell_quoted(b@),
        valid_utf8(r@),
{
    let n: usize = b.len();
    let mut i: usize = 0;
    while i < n
        invariant
            i <= n == b@.len(),
            valid_utf8(b@),
            forall|j: int| 0 <= j < i ==> shell_safe(#[trigger] b@[j]),
        decreases n - i,
    {
        let x = b[i];
        if !((48 <= x && x <= 57) || (65 <= x && x <= 90) || (97 <= x && x <= 122) || x == 47 || x
            == 46 || x == 95 || x == 45 || x == 58 || x == 43) {
            let esc: [u8; 2] = [92, 34];
            assert(esc@ =~= seq![92u8, 34]);
            let q = crate::frontmatter::replace_bytes(b, 34, esc.as_slice());
            let mut out: Vec<u8> = Vec::new();
            out.push(34);
            crate::text::extend_from(&mut out, q.as_slice(), 0, q.len());
            out.push(34);
            proof {
                assert(q@.subrange(0, q@.len() as int) =~= q@);
                assert(out@ =~= seq![34u8] + q@ + seq![34u8]);
                crate::text::lemma_boundary_zero(b@);
                crate::text::lemma_ascii_valid(seq![92u8, 34]);
                crate::text::lemma_ascii_valid(seq![34u8]);
                crate::frontmatter::lemma_replace_valid(b@, 0, 34, seq![92u8, 34]);
                crate::text::lemma_valid_concat(seq![34u8], q@);
                crate::text::lemma_valid_concat(seq![34u8] + q@, seq![34u8]);
                assert(!shell_safe(b@[i as int]));
            }
            return out;
        }
        i += 1;
    }
    crate::text::slice_vec(b, 0, n)
}

/// `s` quoted for a shell command line when it needs to be.
pub fn shell_quote(s: &str) -> (r: String)
    ensures
        utf8(r@) == shell_quoted(utf8(s@)),
{
    let b = crate::text::bytes_of(s);
    crate::text::string_of_bytes(shell_quoted_bytes(b))
}

/// The desktop entry before the command.
pub open spec fn entry_head() -> Seq<char> {
    "[Desktop Entry]\nType=Application\nName=CrabMD\nComment=A fast native markdown writer\nExec="@
}

/// The desktop entry after the command.
pub open spec fn entry_tail() -> Seq<char> {
    " %F\nIcon=crabmd\nTerminal=false\nCategories=Office;TextEditor;\nMimeType=text/markdown;text/x-markdown;\nStartupWMClass=ai.blankeos.crabmd\nStartupNotify=true\n"@
}

/// The `.desktop` launcher entry that runs `exe` on the opened files.
pub fn linux_desktop(exe: &str) -> (r: String)
    ensures
        utf8(r@) == utf8(entry_head()) + shell_quoted(utf8(exe@)) + utf8(entry_tail()),
{
    let head = crate::text::bytes_of(
        "[Desktop Entry]\nType=Application\nName=CrabMD\nComment=A fast native markdown writer\nExec=",
    );
    let tail = crate::text::bytes_of(
        " %F\nIcon=crabmd\nTerminal=false\nCategories=Office;TextEditor;\nMimeType=text/markdown;text/x-markdown;\nStartupWMClass=ai.blankeos.crabmd\nStartupNotify=true\n",
    );
    let q = shell_quoted_bytes(crate::text::bytes_of(exe));
    let mut out = crate::text::slice_vec(head, 0, head.len());
    crate::text::extend_from(&mut out, q.as_slice(), 0, q.len());
    crate::text::extend_from(&mut out, tail, 0, tail.len());
    proof {
        assert(head@.subrange(0, head@.len() as int) =~= head@);
        assert(q@.subrange(0, q@.len() as int) =~= q@);
        assert(tail@.subrange(0, tail@.len() as int) =~= tail@);
        crate::text::lemma_valid_concat(head@, q@);
        crate::text::lemma_valid_concat(head@ + q@, tail@);
    }
    crate::text::string_of_bytes(out)
}


/// `s` for a single-quoted PowerShell string: each `'` doubled.
pub open spec fn ps_quoted(s: Seq<u8>) -> Seq<u8> {
    crate::frontmatter::replace_from(s, 0, 39, seq![39u8, 39])
}

fn ps_quoted_bytes(b: &[u8]) -> (r: Vec<u8>)
    requires
        valid_utf8(b@),
    ensures
        r@ == ps_quoted(b@),
        valid_utf8(r@),
{
    let rep: [u8; 2] = [39, 39];
    assert(rep@ =~= seq![39u8, 39]);
    let r = crate::frontmatter::replace_bytes(b, 39, rep.as_slice());
    proof {
        crate::text::lemma_boundary_zero(b@);
        crate::text::lemma_ascii_valid(seq![39u8, 39]);
        crate::frontmatter::lemma_replace_valid(b@, 0, 39, seq![39u8, 39]);
    }
    r
}

/// `s` ready to stand between single quotes in a PowerShell command.
pub fn ps_single(s: &str) -> (r: String)
    ensures
        utf8(r@) == ps_quoted(utf8(s@)),
{
    crate::text::string_of_bytes(ps_quoted_bytes(crate::text::bytes_of(s)))
}

/// Appends `b` to `out`, keeping it valid UTF-8.
fn push_valid(out: &mut Vec<u8>, b: &[u8])
    requires
        valid_utf8(old(out)@),
        valid_utf8(b@),
    ensures
        final(out)@ == old(out)@ + b@,
        valid_utf8(final(out)@),
{
    let ghost start = out@;
    crate::text::extend_from(out, b, 0, b.len());
    proof {
        assert(b@.subrange(0, b@.len() as int) =~= b@);
        crate::text::lemma_valid_concat(start, b@);
    }
}

/// The script text before the shortcut's path.
pub open spec fn lnk_head() -> Seq<char> {
    "$s = (New-Object -ComObject WScript.Shell).CreateShortcut('"@
}

/// The script text between the shortcut's path and the target.
pub open spec fn lnk_target() -> Seq<char> {
    "');$s.TargetPath = '"@
}

/// The script text between the target and the working directory.
pub open spec fn lnk_work() -> Seq<char> {
    "';$s.WorkingDirectory = '"@
}

/// The script text between the working directory and the icon.
pub open spec fn lnk_icon() -> Seq<char> {
    "';$s.IconLocation = '"@
}

/// The script text after the icon.
pub open spec fn lnk_tail() -> Seq<char> {
    ",0';$s.Description = 'CrabMD';$s.Save()"@
}

/// The PowerShell script that writes the Start Menu shortcut `lnk` to
/// `exe`, started in `work`, with the icon `ico`.
pub fn windows_shortcut_script(lnk: &str, exe: &str, work: &str, ico: &str) -> (r: String)
    ensures
        utf8(r@) == utf8(lnk_head()) + ps_quoted(utf8(lnk@)) + utf8(lnk_target()) + ps_quoted(
            utf8(exe@),
        ) + utf8(lnk_work()) + ps_quoted(utf8(work@)) + utf8(lnk_icon()) + ps_quoted(utf8(ico@))
            + utf8(lnk_tail()),
{
    let head = crate::text::bytes_of("$s = (New-Object -ComObject WScript.Shell).CreateShortcut('");
    let target = crate::text::bytes_of("');$s.TargetPath = '");
    let wd = crate::text::bytes_of("';$s.WorkingDirectory = '");
    let icon = crate::text::bytes_of("';$s.IconLocation = '");
    let tail = crate::text::bytes_of(",0';$s.Description = 'CrabMD';$s.Save()");
    let ql = ps_quoted_bytes(crate::text::bytes_of(lnk));
    let qe = ps_quoted_bytes(crate::text::bytes_of(exe));
    let qw = ps_quoted_bytes(crate::text::bytes_of(work));
    let qi = ps_quoted_bytes(crate::text::bytes_of(ico));
    let mut out: Vec<u8> = Vec::new();
    proof {
        crate::text::lemma_ascii_valid(out@);
    }
    push_valid(&mut out, head);
    push_valid(&mut out, ql.as_slice());
    push_valid(&mut out, target);
    push_valid(&mut out, qe.as_slice());
    push_valid(&mut out, wd);
    push_valid(&mut out, qw.as_slice());
    push_valid(&mut out, icon);
    push_valid(&mut out, qi.as_slice());
    push_valid(&mut out, tail);
    proof {
        assert(out@ =~= utf8(lnk_head()) + ps_quoted(utf8(lnk@)) + utf8(lnk_target()) + ps_quoted(
            utf8(exe@),
        ) + utf8(lnk_work()) + ps_quoted(utf8(work@)) + utf8(lnk_icon()) + ps_quoted(utf8(ico@))
            + utf8(lnk_tail()));
    }
    crate::text::string_of_bytes(out)
}


/// The `Info.plist` text before the version.
pub open spec fn plist_head() -> Seq<char> {
    "<?xml version=\"1.0\" encoding=\"UTF-8\"?>\n<!DOCTYPE plist PUBLIC \"-//Apple//DTD PLIST 1.0//EN\" \"http://www.apple.com/DTDs/PropertyList-1.0.dtd\">\n<plist version=\"1.0\">\n<dict>\n  <key>CFBundleDevelopmentRegion</key><string>en</string>\n  <key>CFBundleDisplayName</key><string>CrabMD</string>\n  <key>CFBundleExecutable</key><string>crabmd</string>\n  <key>CFBundleIconFile</key><string>AppIcon</string>\n  <key>CFBundleIdentifier</key><string>ai.blankeos.crabmd</string>\n  <key>CFBundleInfoDictionaryVersion</key><string>6.0</string>\n  <key>CFBundleName</key><string>CrabMD</string>\n  <key>CFBundlePackageType</key><string>APPL</string>\n  <key>CFBundleShortVersionString</key><string>"@
}

/// The `Info.plist` text between the two copies of the version.
pub open spec fn plist_mid() -> Seq<char> {
    "</string>\n  <key>CFBundleVersion</key><string>"@
}

/// The `Info.plist` text after the version.
pub open spec fn plist_tail() -> Seq<char> {
    "</string>\n  <key>LSApplicationCategoryType</key><string>public.app-category.productivity</string>\n  <key>LSMinimumSystemVersion</key><string>11.0</string>\n  <key>NSHighResolutionCapable</key><true/>\n  <key>CFBundleDocumentTypes</key>\n  <array>\n    <dict>\n      <key>CFBundleTypeExtensions</key>\n      <array>\n        <string>md</string>\n        <string>markdown</string>\n        <string>mdown</string>\n        <string>mkd</string>\n      </array>\n      <key>CFBundleTypeName</key><string>Markdown document</string>\n      <key>CFBundleTypeRole</key><string>Editor</string>\n      <key>LSHandlerRank</key><string>Alternate</string>\n    </dict>\n  </array>\n</dict>\n</plist>\n"@
}

/// The `Info.plist` of the app bundle, for version `version`.
pub fn macos_plist(version: &str) -> (r: String)
    ensures
        utf8(r@) == utf8(plist_head()) + utf8(version@) + utf8(plist_mid()) + utf8(version@) + utf8(
            plist_tail(),
        ),
{
    let head = crate::text::bytes_of(
        "<?xml version=\"1.0\" encoding=\"UTF-8\"?>\n<!DOCTYPE plist PUBLIC \"-//Apple//DTD PLIST 1.0//EN\" \"http://www.apple.com/DTDs/PropertyList-1.0.dtd\">\n<plist version=\"1.0\">\n<dict>\n  <key>CFBundleDevelopmentRegion</key><string>en</string>\n  <key>CFBundleDisplayName</key><string>CrabMD</string>\n  <key>CFBundleExecutable</key><string>crabmd</string>\n  <key>CFBundleIconFile</key><string>AppIcon</string>\n  <key>CFBundleIdentifier</key><string>ai.blankeos.crabmd</string>\n  <key>CFBundleInfoDictionaryVersion</key><string>6.0</string>\n  <key>CFBundleName</key><string>CrabMD</string>\n  <key>CFBundlePackageType</key><string>APPL</string>\n  <key>CFBundleShortVersionString</key><string>",
    );
    let mid = crate::text::bytes_of("</string>\n  <key>CFBundleVersion</key><string>");
    let tail = crate::text::bytes_of(
        "</string>\n  <key>LSApplicationCategoryType</key><string>public.app-category.productivity</string>\n  <key>LSMinimumSystemVersion</key><string>11.0</string>\n  <key>NSHighResolutionCapable</key><true/>\n  <key>CFBundleDocumentTypes</key>\n  <array>\n    <dict>\n      <key>CFBundleTypeExtensions</key>\n      <array>\n        <string>md</string>\n        <string>markdown</string>\n        <string>mdown</string>\n        <string>mkd</string>\n      </array>\n      <key>CFBundleTypeName</key><string>Markdown document</string>\n      <key>CFBundleTypeRole</key><string>Editor</string>\n      <key>LSHandlerRank</key><string>Alternate</string>\n    </dict>\n  </array>\n</dict>\n</plist>\n",
    );
    let v = crate::text::bytes_of(version);
    let mut out: Vec<u8> = Vec::new();
    proof {
        crate::text::lemma_ascii_valid(out@);
    }
    push_valid(&mut out, head);
    push_valid(&mut out, v);
    push_valid(&mut out, mid);
    push_valid(&mut out, v);
    push_valid(&mut out, tail);
    crate::text::string_of_bytes(out)
}

} // verus!
