//! Source-buffer edits at line starts. Motions run on the file bytes;
//! paint re-parses.
use vstd::prelude::*;
use vstd::utf8::*;

use crate::text::{at_boundary, utf8};

verus! {

/// Bytes removed by a backspace at the start of the line at `o`: a blank
/// line's two line breaks, else one line break (with its `'\r'`); 0 when
/// `o` is not at a line start after a line break.
pub open spec fn join_width(b: Seq<u8>, o: int) -> int {
    if o == 0 || o > b.len() || b[o - 1] != 10 {
        0
    } else if o >= 2 && b[o - 2] == 10 {
        2
    } else if o >= 2 && b[o - 2] == 13 {
        2
    } else {
        1
    }
}

/// Backspace at column 0 of a logical line in the full buffer.
///
/// - Mid-line: `None` (ordinary character delete).
/// - At a `\n\n` separator: delete both newlines so the next line is
///   concatenated onto the previous (`hello` + `## Quota` → `hello## Quota`).
/// - Otherwise delete the single preceding newline (in-buffer join).
pub fn backspace_join_doc(source: &str, offset: usize) -> (r: Option<(String, usize)>)
    requires
        !(0 < offset <= utf8(source@).len()) || at_boundary(utf8(source@), offset as int),
    ensures
        ({
            let b = utf8(source@);
            let k = join_width(b, offset as int);
            if k == 0 {
                r is None
            } else {
                r matches Some((s, c)) && c == offset - k && utf8(s@) == b.subrange(0, offset - k)
                    + b.subrange(offset as int, b.len() as int)
            }
        }),
{
    let b = crate::text::bytes_of(source);
    let n: usize = b.len();
    if offset == 0 || offset > n {
        return None;
    }
    if b[offset - 1] != 10 {
        return None;
    }
    let caret: usize = if offset >= 2 && (b[offset - 2] == 10 || b[offset - 2] == 13) {
        offset - 2
    } else {
        offset - 1
    };
    proof {
        lemma_boundary_zero_or_ascii(b@, caret as int);
    }
    let empty = "";
    let out = crate::document::splice(source, caret..offset, empty);
    proof {
        assert(utf8(empty@) =~= Seq::<u8>::empty()) by {
            reveal_strlit("");
        }
        assert(b@.subrange(0, caret as int) + Seq::<u8>::empty() =~= b@.subrange(0, caret as int));
    }
    Some((out, caret))
}

/// Every cut before a line break (or its `'\r'`) lies on a boundary.
proof fn lemma_boundary_zero_or_ascii(b: Seq<u8>, c: int)
    requires
        valid_utf8(b),
        0 <= c < b.len(),
        b[c] == 10 || b[c] == 13,
    ensures
        at_boundary(b, c),
{
}

} // verus!
