//! Byte-level text toolkit shared by the markdown, frontmatter and path
//! helpers.
//!
//! Every string is viewed through its UTF-8 bytes (`utf8(s@)`); offsets are
//! byte offsets, as in the editor buffer. Slicing happens only on character
//! boundaries, which for valid UTF-8 are exactly the positions that do not
//! hold a continuation byte.
use vstd::prelude::*;
use vstd::string::*;
use vstd::utf8::*;

verus! {

broadcast use vstd::seq::group_seq_axioms, vstd::slice::group_slice_axioms;

/// The UTF-8 encoding of a character sequence.
pub open spec fn utf8(c: Seq<char>) -> Seq<u8> {
    encode_utf8(c)
}

/// `i` is a character boundary of `b`: the end, or a byte that starts a character.
pub open spec fn at_boundary(b: Seq<u8>, i: int) -> bool {
    0 <= i <= b.len() && (i == b.len() || !is_continuation_byte(b[i]))
}

/// Width in bytes of the character whose leading byte is `x`.
pub open spec fn lead_width(x: u8) -> int {
    if x <= 0x7f {
        1
    } else if 0xc0 <= x <= 0xdf {
        2
    } else if 0xe0 <= x <= 0xef {
        3
    } else {
        4
    }
}

pub open spec fn is_ascii_byte(x: u8) -> bool {
    x < 0x80
}

pub open spec fn all_ascii(b: Seq<u8>) -> bool {
    forall|i: int| 0 <= i < b.len() ==> #[trigger] is_ascii_byte(b[i])
}

pub proof fn lemma_utf8_valid(c: Seq<char>)
    ensures
        valid_utf8(utf8(c)),
{
    encode_utf8_valid_utf8(c);
}

pub proof fn lemma_boundary_iff(b: Seq<u8>, i: int)
    requires
        valid_utf8(b),
    ensures
        is_char_boundary(b, i) == at_boundary(b, i),
{
    if 0 <= i < b.len() {
        is_char_boundary_iff_not_is_continuation_byte(b, i);
    } else if i == b.len() {
        is_char_boundary_start_end_of_seq(b);
    } else {
        reveal_with_fuel(is_char_boundary, 1);
    }
}

/// A character that starts at a boundary ends at a boundary, and its
/// trailing bytes are continuation bytes.
pub proof fn lemma_scalar_end(b: Seq<u8>, i: int)
    requires
        valid_utf8(b),
        at_boundary(b, i),
        i < b.len(),
    ensures
        i + lead_width(b[i]) <= b.len(),
        at_boundary(b, i + lead_width(b[i])),
        forall|j: int| i < j < i + lead_width(b[i]) ==> is_continuation_byte(#[trigger] b[j]),
    decreases b.len(),
{
    let n = b.len() as int;
    assert(valid_first_scalar(b));
    let l = length_of_first_scalar(b);
    let p = pop_first_scalar(b);
    assert(p =~= b.subrange(l, n));
    assert(valid_utf8(p));
    if i == 0 {
        assert(l == lead_width(b[0]));
        if l < n {
            assert(p.len() > 0);
            assert(valid_first_scalar(p));
            assert(p[0] == b[l]);
        }
    } else {
        assert(i >= l) by {
            if i < l {
                assert(is_continuation_byte(b[i]));
            }
        }
        assert(p[i - l] == b[i]);
        lemma_scalar_end(p, i - l);
        assert forall|j: int| i < j < i + lead_width(b[i]) implies is_continuation_byte(
            #[trigger] b[j],
        ) by {
            assert(b[j] == p[j - l]);
        }
        if i + lead_width(b[i]) < n {
            assert(b[i + lead_width(b[i])] == p[i - l + lead_width(b[i])]);
        }
    }
}

/// The position after an ASCII byte at a boundary is a boundary.
pub proof fn lemma_after_ascii(b: Seq<u8>, i: int)
    requires
        valid_utf8(b),
        0 <= i < b.len(),
        is_ascii_byte(b[i]),
    ensures
        at_boundary(b, i + 1),
{
    lemma_scalar_end(b, i);
}

pub proof fn lemma_ascii_valid(b: Seq<u8>)
    requires
        all_ascii(b),
    ensures
        valid_utf8(b),
{
    assert(b.subrange(0, 0) =~= Seq::<u8>::empty());
    assert(valid_utf8(Seq::<u8>::empty()));
    assert forall|i: int| 0 <= 0 <= i < b.len() <= b.len() implies #[trigger] is_leading_byte_width_1(
        b[i],
    ) by {
        assert(is_ascii_byte(b[i]));
    }
    partial_valid_utf8_extend_ascii_block(b, 0, b.len() as int);
    assert(b.subrange(0, b.len() as int) =~= b);
}

/// A slice between two boundaries of valid UTF-8 is valid UTF-8.
pub proof fn lemma_sub_valid(b: Seq<u8>, x: int, y: int)
    requires
        valid_utf8(b),
        at_boundary(b, x),
        at_boundary(b, y),
        x <= y,
    ensures
        valid_utf8(b.subrange(x, y)),
{
    lemma_boundary_iff(b, y);
    valid_utf8_split(b, y);
    let pre = b.subrange(0, y);
    assert(at_boundary(pre, x)) by {
        if x < y {
            assert(pre[x] == b[x]);
        }
    }
    lemma_boundary_iff(pre, x);
    valid_utf8_split(pre, x);
    assert(pre.subrange(x, y) =~= b.subrange(x, y));
}

/// Boundaries of a slice taken between boundaries are the boundaries of
/// the whole that fall inside it.
pub proof fn lemma_sub_boundary(b: Seq<u8>, x: int, y: int, k: int)
    requires
        0 <= x <= k <= y <= b.len(),
        at_boundary(b, k),
        at_boundary(b, y),
    ensures
        at_boundary(b.subrange(x, y), k - x),
{
    if k < y {
        assert(b.subrange(x, y)[k - x] == b[k]);
    }
}

pub proof fn lemma_utf8_concat(x: Seq<char>, y: Seq<char>)
    ensures
        utf8(x + y) == utf8(x) + utf8(y),
    decreases x.len(),
{
    if x.len() == 0 {
        assert(x + y =~= y);
        assert(utf8(x) =~= Seq::<u8>::empty());
        assert(utf8(x) + utf8(y) =~= utf8(y));
    } else {
        lemma_utf8_concat(x.drop_first(), y);
        assert((x + y).drop_first() =~= x.drop_first() + y);
        assert((x + y)[0] == x[0]);
        assert(utf8(x + y) == encode_scalar(x[0] as u32) + utf8(x.drop_first() + y));
        assert(utf8(x) == encode_scalar(x[0] as u32) + utf8(x.drop_first()));
        assert(utf8(x + y) =~= utf8(x) + utf8(y));
    }
}

/// The bytes of an ASCII literal are its characters.
pub proof fn lemma_ascii_lit(s: &str)
    requires
        is_ascii_chars(s@),
    ensures
        utf8(s@) =~= Seq::new(s@.len(), |i: int| s@[i] as u8),
        utf8(s@).len() == s@.len(),
{
    is_ascii_chars_encode_utf8(s@);
}

/// Bytes of a string slice, with their UTF-8 validity.
pub fn bytes_of(s: &str) -> (r: &[u8])
    ensures
        r@ == utf8(s@),
        valid_utf8(r@),
{
    proof {
        lemma_utf8_valid(s@);
    }
    s.as_bytes()
}

/// `s[a..b]`; both ends must be character boundaries.
pub fn substr(s: &str, a: usize, b: usize) -> (r: &str)
    requires
        a <= b,
        at_boundary(utf8(s@), a as int),
        at_boundary(utf8(s@), b as int),
    ensures
        utf8(r@) == utf8(s@).subrange(a as int, b as int),
{
    proof {
        lemma_utf8_valid(s@);
        lemma_boundary_iff(utf8(s@), b as int);
    }
    let (head, _) = s.split_at(b);
    proof {
        let hb = utf8(s@).subrange(0, b as int);
        assert(head.spec_bytes() =~= hb);
        lemma_sub_boundary(utf8(s@), 0, b as int, a as int);
        assert(hb =~= utf8(s@).subrange(0, b as int).subrange(0, b as int));
        lemma_sub_valid(utf8(s@), 0, b as int);
        lemma_boundary_iff(hb, a as int);
    }
    let (_, tail) = head.split_at(a);
    proof {
        assert(tail.spec_bytes() =~= utf8(s@).subrange(a as int, b as int));
    }
    tail
}

/// The `String` whose UTF-8 bytes are `v`.
#[verifier::external_body]
fn string_from_utf8(v: Vec<u8>) -> (r: Option<String>)
    ensures
        r is Some <==> valid_utf8(v@),
        r matches Some(s) ==> s@ == decode_utf8(v@),
{
    String::from_utf8(v).ok()
}

/// Builds a `String` from bytes known to be valid UTF-8.
pub fn string_of_bytes(v: Vec<u8>) -> (r: String)
    requires
        valid_utf8(v@),
    ensures
        utf8(r@) == v@,
{
    let ghost bytes = v@;
    match string_from_utf8(v) {
        Some(s) => {
            proof {
                decode_utf8_encode_utf8(bytes);
            }
            s
        },
        None => {
            proof {
                assert(false);
            }
            String::new()
        },
    }
}

/// An owned copy of a string slice.
pub fn owned(s: &str) -> (r: String)
    ensures
        r@ == s@,
{
    s.to_owned()
}


/* ---------- whitespace, as `char::is_whitespace` (Unicode White_Space) ---------- */

pub open spec fn is_ascii_ws(x: u8) -> bool {
    x == 9 || x == 10 || x == 11 || x == 12 || x == 13 || x == 32
}

/// Byte length of the whitespace character encoded at `i` (0 when there is none).
/// Covers U+0009..U+000D, U+0020, U+0085, U+00A0, U+1680, U+2000..U+200A,
/// U+2028, U+2029, U+202F, U+205F and U+3000.
pub open spec fn ws_at(s: Seq<u8>, i: int) -> int {
    if !(0 <= i < s.len()) {
        0
    } else if is_ascii_ws(s[i]) {
        1
    } else if i + 2 <= s.len() && s[i] == 0xc2 && (s[i + 1] == 0x85 || s[i + 1] == 0xa0) {
        2
    } else if i + 3 <= s.len() && ((s[i] == 0xe1 && s[i + 1] == 0x9a && s[i + 2] == 0x80) || (
    s[i] == 0xe2 && s[i + 1] == 0x80 && ((0x80 <= s[i + 2] <= 0x8a) || s[i + 2] == 0xa8 || s[i
        + 2] == 0xa9 || s[i + 2] == 0xaf)) || (s[i] == 0xe2 && s[i + 1] == 0x81 && s[i + 2]
        == 0x9f) || (s[i] == 0xe3 && s[i + 1] == 0x80 && s[i + 2] == 0x80)) {
        3
    } else {
        0
    }
}

/// Byte length of the whitespace character that ends at `j` (0 when there is none).
pub open spec fn ws_before(s: Seq<u8>, j: int) -> int {
    if 1 <= j <= s.len() && is_ascii_ws(s[j - 1]) {
        1
    } else if 2 <= j <= s.len() && ws_at(s, j - 2) == 2 {
        2
    } else if 3 <= j <= s.len() && ws_at(s, j - 3) == 3 {
        3
    } else {
        0
    }
}

/// Start of `s[a..b]` after leading whitespace.
pub open spec fn trim_start_at(s: Seq<u8>, a: int, b: int) -> int
    decreases b - a,
{
    if a < b && ws_at(s, a) > 0 && a + ws_at(s, a) <= b {
        trim_start_at(s, a + ws_at(s, a), b)
    } else {
        a
    }
}

/// End of `s[a..b]` before trailing whitespace.
pub open spec fn trim_end_at(s: Seq<u8>, a: int, b: int) -> int
    decreases b - a,
{
    if a < b && ws_before(s, b) > 0 && b - ws_before(s, b) >= a {
        trim_end_at(s, a, b - ws_before(s, b))
    } else {
        b
    }
}

/// Largest character boundary at or below `i`, clamped to the slice.
pub open spec fn floor_boundary(b: Seq<u8>, i: int) -> int
    decreases i,
{
    if i >= b.len() {
        b.len() as int
    } else if i <= 0 {
        0
    } else if at_boundary(b, i) {
        i
    } else {
        floor_boundary(b, i - 1)
    }
}

pub proof fn lemma_floor_boundary(b: Seq<u8>, i: int)
    requires
        valid_utf8(b),
    ensures
        0 <= floor_boundary(b, i) <= b.len(),
        floor_boundary(b, i) <= i || i < 0,
        at_boundary(b, floor_boundary(b, i)),
        at_boundary(b, i) ==> floor_boundary(b, i) == i,
    decreases i,
{
    if i >= b.len() {
    } else if i <= 0 {
        if b.len() > 0 {
            lemma_boundary_iff(b, 0);
            is_char_boundary_start_end_of_seq(b);
        }
    } else if !at_boundary(b, i) {
        lemma_floor_boundary(b, i - 1);
    }
}

/* ---------- byte searches ---------- */

/// First index in `[a, b)` holding `c`.
pub open spec fn first_of(s: Seq<u8>, c: u8, a: int, b: int) -> Option<int>
    decreases b - a,
{
    if a >= b {
        None
    } else if s[a] == c {
        Some(a)
    } else {
        first_of(s, c, a + 1, b)
    }
}

/// Last index in `[a, b)` holding `c`.
pub open spec fn last_of(s: Seq<u8>, c: u8, a: int, b: int) -> Option<int>
    decreases b - a,
{
    if a >= b {
        None
    } else if s[b - 1] == c {
        Some(b - 1)
    } else {
        last_of(s, c, a, b - 1)
    }
}

/// `p` occurs in `s` at `i`.
pub open spec fn matches_at(s: Seq<u8>, i: int, p: Seq<u8>) -> bool {
    0 <= i && i + p.len() <= s.len() && s.subrange(i, i + p.len()) == p
}

/// First occurrence of `p` starting in `[a, b]` and ending by `b`.
pub open spec fn first_match(s: Seq<u8>, p: Seq<u8>, a: int, b: int) -> Option<int>
    decreases b + 1 - a,
{
    if a + p.len() > b || a < 0 || b > s.len() {
        None
    } else if matches_at(s, a, p) {
        Some(a)
    } else {
        first_match(s, p, a + 1, b)
    }
}

pub proof fn lemma_first_of_props(s: Seq<u8>, c: u8, a: int, b: int)
    requires
        0 <= a <= b <= s.len(),
    ensures
        first_of(s, c, a, b) matches Some(i) ==> a <= i < b && s[i] == c && forall|j: int|
            a <= j < i ==> s[j] != c,
        first_of(s, c, a, b) is None ==> forall|j: int| a <= j < b ==> s[j] != c,
    decreases b - a,
{
    if a < b && s[a] != c {
        lemma_first_of_props(s, c, a + 1, b);
    }
}

pub proof fn lemma_last_of_props(s: Seq<u8>, c: u8, a: int, b: int)
    requires
        0 <= a <= b <= s.len(),
    ensures
        last_of(s, c, a, b) matches Some(i) ==> a <= i < b && s[i] == c && forall|j: int|
            i < j < b ==> s[j] != c,
        last_of(s, c, a, b) is None ==> forall|j: int| a <= j < b ==> s[j] != c,
    decreases b - a,
{
    if a < b && s[b - 1] != c {
        lemma_last_of_props(s, c, a, b - 1);
    }
}

pub proof fn lemma_first_match_props(s: Seq<u8>, p: Seq<u8>, a: int, b: int)
    requires
        0 <= a,
        b <= s.len(),
    ensures
        first_match(s, p, a, b) matches Some(i) ==> a <= i && i + p.len() <= b && matches_at(
            s,
            i,
            p,
        ) && forall|j: int| a <= j < i ==> !matches_at(s, j, p),
        first_match(s, p, a, b) is None ==> forall|j: int|
            a <= j && j + p.len() <= b ==> !matches_at(s, j, p),
    decreases b + 1 - a,
{
    if a + p.len() <= b && !matches_at(s, a, p) {
        lemma_first_match_props(s, p, a + 1, b);
    }
}

pub fn find_byte(s: &[u8], c: u8, a: usize, b: usize) -> (r: Option<usize>)
    requires
        a <= b <= s@.len(),
    ensures
        r == (match first_of(s@, c, a as int, b as int) {
            Some(i) => Some(i as usize),
            None => None::<usize>,
        }),
        r matches Some(i) ==> a <= i < b,
{
    let mut i: usize = a;
    while i < b
        invariant
            a <= i <= b <= s@.len(),
            first_of(s@, c, a as int, b as int) == first_of(s@, c, i as int, b as int),
        decreases b - i,
    {
        if s[i] == c {
            return Some(i);
        }
        i += 1;
    }
    None
}

pub fn rfind_byte(s: &[u8], c: u8, a: usize, b: usize) -> (r: Option<usize>)
    requires
        a <= b <= s@.len(),
    ensures
        r == (match last_of(s@, c, a as int, b as int) {
            Some(i) => Some(i as usize),
            None => None::<usize>,
        }),
        r matches Some(i) ==> a <= i < b,
{
    let mut j: usize = b;
    while j > a
        invariant
            a <= j <= b <= s@.len(),
            last_of(s@, c, a as int, b as int) == last_of(s@, c, a as int, j as int),
        decreases j - a,
    {
        if s[j - 1] == c {
            return Some(j - 1);
        }
        j -= 1;
    }
    None
}

pub fn starts_at(s: &[u8], i: usize, p: &[u8]) -> (r: bool)
    ensures
        r == matches_at(s@, i as int, p@),
{
    let n: usize = s.len();
    if i > n || p.len() > n - i {
        return false;
    }
    let mut k: usize = 0;
    while k < p.len()
        invariant
            n == s@.len(),
            i + p@.len() <= n,
            0 <= k <= p@.len(),
            forall|t: int| 0 <= t < k ==> s@[i + t] == p@[t],
        decreases p@.len() - k,
    {
        if s[i + k] != p[k] {
            proof {
                assert(s@.subrange(i as int, i + p@.len())[k as int] != p@[k as int]);
            }
            return false;
        }
        k += 1;
    }
    proof {
        assert(s@.subrange(i as int, i + p@.len()) =~= p@);
    }
    true
}

pub fn find_seq(s: &[u8], p: &[u8], a: usize, b: usize) -> (r: Option<usize>)
    requires
        a <= b <= s@.len(),
    ensures
        r == (match first_match(s@, p@, a as int, b as int) {
            Some(i) => Some(i as usize),
            None => None::<usize>,
        }),
{
    if p.len() > b {
        return None;
    }
    if a > b - p.len() {
        return None;
    }
    let last: usize = b - p.len();
    let mut i: usize = a;
    loop
        invariant
            a <= i <= last,
            last + p@.len() == b,
            b <= s@.len(),
            first_match(s@, p@, a as int, b as int) == first_match(s@, p@, i as int, b as int),
        decreases last - i,
    {
        if starts_at(s, i, p) {
            return Some(i);
        }
        if i == last {
            assert(first_match(s@, p@, i as int + 1, b as int) is None);
            return None;
        }
        i += 1;
    }
}

pub fn ws_len_at(s: &[u8], i: usize) -> (r: usize)
    ensures
        r as int == ws_at(s@, i as int),
{
    let n: usize = s.len();
    if i >= n {
        return 0;
    }
    let x: u8 = s[i];
    if x == 9 || x == 10 || x == 11 || x == 12 || x == 13 || x == 32 {
        1
    } else if n - i >= 2 && x == 0xc2 && (s[i + 1] == 0x85 || s[i + 1] == 0xa0) {
        2
    } else if n - i >= 3 && ((x == 0xe1 && s[i + 1] == 0x9a && s[i + 2] == 0x80) || (x == 0xe2
        && s[i + 1] == 0x80 && ((0x80 <= s[i + 2] && s[i + 2] <= 0x8a) || s[i + 2] == 0xa8 || s[i
        + 2] == 0xa9 || s[i + 2] == 0xaf)) || (x == 0xe2 && s[i + 1] == 0x81 && s[i + 2] == 0x9f)
        || (x == 0xe3 && s[i + 1] == 0x80 && s[i + 2] == 0x80)) {
        3
    } else {
        0
    }
}

pub fn ws_len_before(s: &[u8], j: usize) -> (r: usize)
    ensures
        r as int == ws_before(s@, j as int),
{
    let n: usize = s.len();
    if 1 <= j && j <= n {
        let x: u8 = s[j - 1];
        if x == 9 || x == 10 || x == 11 || x == 12 || x == 13 || x == 32 {
            return 1;
        }
    }
    if 2 <= j && j <= n && ws_len_at(s, j - 2) == 2 {
        return 2;
    }
    if 3 <= j && j <= n && ws_len_at(s, j - 3) == 3 {
        return 3;
    }
    0
}

pub fn trim_start_idx(s: &[u8], a: usize, b: usize) -> (r: usize)
    requires
        a <= b <= s@.len(),
    ensures
        r as int == trim_start_at(s@, a as int, b as int),
        a <= r <= b,
{
    let mut i: usize = a;
    while i < b
        invariant
            a <= i <= b <= s@.len(),
            trim_start_at(s@, a as int, b as int) == trim_start_at(s@, i as int, b as int),
        decreases b - i,
    {
        let w: usize = ws_len_at(s, i);
        if w == 0 || w > b - i {
            return i;
        }
        i += w;
    }
    i
}

pub fn trim_end_idx(s: &[u8], a: usize, b: usize) -> (r: usize)
    requires
        a <= b <= s@.len(),
    ensures
        r as int == trim_end_at(s@, a as int, b as int),
        a <= r <= b,
{
    let mut j: usize = b;
    while j > a
        invariant
            a <= j <= b <= s@.len(),
            trim_end_at(s@, a as int, b as int) == trim_end_at(s@, a as int, j as int),
        decreases j - a,
    {
        let w: usize = ws_len_before(s, j);
        if w == 0 || j - a < w {
            return j;
        }
        j -= w;
    }
    j
}


/* ---------- slices and line ends ---------- */

pub proof fn lemma_boundary_zero(b: Seq<u8>)
    requires
        valid_utf8(b),
    ensures
        at_boundary(b, 0),
        at_boundary(b, b.len() as int),
{
    lemma_floor_boundary(b, 0);
}

/// `s.get(a..e)` on a string with bytes `b`: the bytes when both ends are
/// boundaries in order, else nothing.
pub open spec fn sub_or_empty(b: Seq<u8>, a: int, e: int) -> Seq<u8> {
    if 0 <= a <= e <= b.len() && at_boundary(b, a) && at_boundary(b, e) {
        b.subrange(a, e)
    } else {
        Seq::empty()
    }
}

pub open spec fn is_nl(x: u8) -> bool {
    x == 10 || x == 13
}

/// End of `b[a..e]` after `trim_end_matches(['\n', '\r'])`.
pub open spec fn trim_nl_end(b: Seq<u8>, a: int, e: int) -> int
    decreases e - a,
{
    if e > a && is_nl(b[e - 1]) {
        trim_nl_end(b, a, e - 1)
    } else {
        e
    }
}

/// Every byte of `b[a..e]` is a space or a tab.
pub open spec fn blank_run(b: Seq<u8>, a: int, e: int) -> bool {
    forall|k: int| a <= k < e ==> (#[trigger] b[k] == 32 || b[k] == 9)
}

/// `p` is a prefix of `s`.
pub open spec fn has_prefix(s: Seq<u8>, p: Seq<u8>) -> bool {
    p.len() <= s.len() && s.subrange(0, p.len() as int) == p
}

pub proof fn lemma_valid_concat(a: Seq<u8>, b: Seq<u8>)
    requires
        valid_utf8(a),
        valid_utf8(b),
    ensures
        valid_utf8(a + b),
{
    valid_utf8_concat(a, b);
}

pub fn trim_nl_end_idx(b: &[u8], a: usize, e: usize) -> (r: usize)
    requires
        a <= e <= b@.len(),
    ensures
        r as int == trim_nl_end(b@, a as int, e as int),
        a <= r <= e,
{
    let mut j: usize = e;
    while j > a && (b[j - 1] == 10 || b[j - 1] == 13)
        invariant
            a <= j <= e <= b@.len(),
            trim_nl_end(b@, a as int, e as int) == trim_nl_end(b@, a as int, j as int),
        decreases j,
    {
        j -= 1;
    }
    j
}

pub fn is_blank_run(b: &[u8], a: usize, e: usize) -> (r: bool)
    requires
        a <= e <= b@.len(),
    ensures
        r == blank_run(b@, a as int, e as int),
{
    let mut k: usize = a;
    while k < e
        invariant
            a <= k <= e <= b@.len(),
            blank_run(b@, a as int, k as int),
        decreases e - k,
    {
        if b[k] != 32 && b[k] != 9 {
            return false;
        }
        k += 1;
    }
    true
}

pub fn has_prefix_exec(s: &[u8], p: &[u8]) -> (r: bool)
    ensures
        r == has_prefix(s@, p@),
{
    let r = starts_at(s, 0, p);
    proof {
        if r {
            assert(s@.subrange(0, p@.len() as int) == p@);
        }
        if has_prefix(s@, p@) {
            assert(matches_at(s@, 0, p@));
        }
    }
    r
}

/// Bytes of `b[a..e]` when both ends are boundaries in order, else empty.
pub fn sub_bytes(b: &[u8], a: usize, e: usize) -> (r: Vec<u8>)
    requires
        valid_utf8(b@),
    ensures
        r@ == sub_or_empty(b@, a as int, e as int),
        valid_utf8(r@),
{
    if a <= e && e <= b.len() && is_boundary(b, a) && is_boundary(b, e) {
        proof {
            lemma_sub_valid(b@, a as int, e as int);
        }
        slice_vec(b, a, e)
    } else {
        proof {
            assert(valid_utf8(Seq::<u8>::empty())) by {
                lemma_ascii_valid(Seq::<u8>::empty());
            }
        }
        Vec::new()
    }
}

/// `i` is a character boundary of `b`.
pub fn is_boundary(b: &[u8], i: usize) -> (r: bool)
    ensures
        r == at_boundary(b@, i as int),
{
    if i > b.len() {
        false
    } else if i == b.len() {
        true
    } else {
        !(0x80 <= b[i] && b[i] <= 0xbf)
    }
}

/// A copy of `b[a..e]`.
pub fn slice_vec(b: &[u8], a: usize, e: usize) -> (r: Vec<u8>)
    requires
        a <= e <= b@.len(),
    ensures
        r@ == b@.subrange(a as int, e as int),
{
    let mut out: Vec<u8> = Vec::new();
    let mut k: usize = a;
    while k < e
        invariant
            a <= k <= e <= b@.len(),
            out@ == b@.subrange(a as int, k as int),
        decreases e - k,
    {
        out.push(b[k]);
        k += 1;
        assert(out@ =~= b@.subrange(a as int, k as int));
    }
    out
}

/// Append `b[a..e]` to `out`.
pub fn extend_from(out: &mut Vec<u8>, b: &[u8], a: usize, e: usize)
    requires
        a <= e <= b@.len(),
    ensures
        final(out)@ == old(out)@ + b@.subrange(a as int, e as int),
{
    let ghost start = out@;
    let mut k: usize = a;
    while k < e
        invariant
            a <= k <= e <= b@.len(),
            out@ == start + b@.subrange(a as int, k as int),
        decreases e - k,
    {
        out.push(b[k]);
        k += 1;
        assert(out@ =~= start + b@.subrange(a as int, k as int));
    }
}


/* ---------- lines, as `str::lines` ---------- */

/// Index of the first `'\n'` at or after `i`, or the end.
pub open spec fn line_end(b: Seq<u8>, i: int) -> int {
    match first_of(b, 10, i, b.len() as int) {
        Some(j) => j,
        None => b.len() as int,
    }
}

/// End of the content of the line that starts at `i`: a `"\r\n"` ending
/// drops its `'\r'`; a last line keeps a lone `'\r'`.
pub open spec fn line_content_end(b: Seq<u8>, i: int) -> int {
    let j = line_end(b, i);
    if j < b.len() && j > i && b[j - 1] == 13 {
        j - 1
    } else {
        j
    }
}

/// Spans of the lines of `b` from `i` on, as `str::lines` yields them.
pub open spec fn lines_from(b: Seq<u8>, i: int) -> Seq<(int, int)>
    decreases b.len() + 1 - i,
{
    if i < 0 || i >= b.len() {
        Seq::empty()
    } else {
        let j = line_end(b, i);
        proof {
            lemma_line_end(b, i);
            assert(j >= i);
        }
        seq![(i, line_content_end(b, i))] + lines_from(b, j + 1)
    }
}

pub proof fn lemma_line_end(b: Seq<u8>, i: int)
    requires
        0 <= i <= b.len(),
    ensures
        i <= line_end(b, i) <= b.len(),
        line_end(b, i) < b.len() ==> b[line_end(b, i)] == 10,
        forall|k: int| i <= k < line_end(b, i) ==> b[k] != 10,
        i <= line_content_end(b, i) <= line_end(b, i),
{
    lemma_first_of_props(b, 10, i, b.len() as int);
}

/// One step along the lines: when the lines from `i` are the lines `k..` of
/// `ls`, line `k` starts at `i` and the lines after it are `k + 1..`.
pub proof fn lemma_lines_step(b: Seq<u8>, ls: Seq<(int, int)>, i: int, k: int)
    requires
        0 <= i < b.len(),
        0 <= k <= ls.len(),
        lines_from(b, i) == ls.subrange(k, ls.len() as int),
    ensures
        k < ls.len(),
        ls[k] == (i, line_content_end(b, i)),
        lines_from(b, line_end(b, i) + 1) == ls.subrange(k + 1, ls.len() as int),
{
    lemma_line_end(b, i);
    let tail = lines_from(b, line_end(b, i) + 1);
    assert(lines_from(b, i) == seq![(i, line_content_end(b, i))] + tail);
    assert(ls.subrange(k, ls.len() as int)[0] == (i, line_content_end(b, i)));
    assert(tail =~= ls.subrange(k, ls.len() as int).subrange(1, ls.len() - k));
    assert(ls.subrange(k, ls.len() as int).subrange(1, ls.len() - k) =~= ls.subrange(
        k + 1,
        ls.len() as int,
    ));
}

/// Index of the first `'\n'` at or after `i`, or `b.len()`.
pub fn line_end_idx(b: &[u8], i: usize) -> (r: usize)
    requires
        i <= b@.len(),
    ensures
        r as int == line_end(b@, i as int),
        i <= r <= b@.len(),
{
    proof {
        lemma_line_end(b@, i as int);
    }
    match find_byte(b, 10, i, b.len()) {
        Some(j) => j,
        None => b.len(),
    }
}

pub fn line_content_end_idx(b: &[u8], i: usize) -> (r: usize)
    requires
        i <= b@.len(),
    ensures
        r as int == line_content_end(b@, i as int),
        i <= r <= b@.len(),
{
    proof {
        lemma_line_end(b@, i as int);
    }
    let j = line_end_idx(b, i);
    if j < b.len() && j > i && b[j - 1] == 13 {
        j - 1
    } else {
        j
    }
}

} // verus!
