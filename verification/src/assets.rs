//! Names of the bundled icons. The files themselves are embedded and
//! served outside the library.
use vstd::prelude::*;

use crate::text::utf8;

verus! {

/// `icons/{name}.svg`.
pub open spec fn icon_path(name: Seq<u8>) -> Seq<u8> {
    utf8("icons/"@) + name + utf8(".svg"@)
}

/// Asset path of the icon called `name`.
pub fn path(name: &str) -> (r: String)
    ensures
        utf8(r@) == icon_path(utf8(name@)),
{
    let head = crate::text::bytes_of("icons/");
    let tail = crate::text::bytes_of(".svg");
    let nb = crate::text::bytes_of(name);
    let mut out = crate::text::slice_vec(head, 0, head.len());
    crate::text::extend_from(&mut out, nb, 0, nb.len());
    crate::text::extend_from(&mut out, tail, 0, tail.len());
    proof {
        assert(head@.subrange(0, head@.len() as int) =~= head@);
        assert(nb@.subrange(0, nb@.len() as int) =~= nb@);
        assert(tail@.subrange(0, tail@.len() as int) =~= tail@);
        crate::text::lemma_valid_concat(head@, nb@);
        crate::text::lemma_valid_concat(head@ + nb@, tail@);
    }
    crate::text::string_of_bytes(out)
}

} // verus!
