//! First / last index of a sequence element satisfying a predicate.
use vstd::prelude::*;

verus! {

/// First index `k >= i` with `p(s[k])`.
pub open spec fn first_index<T>(s: Seq<T>, p: spec_fn(T) -> bool, i: int) -> Option<int>
    decreases s.len() - i,
{
    if i < 0 || i >= s.len() {
        None
    } else if p(s[i]) {
        Some(i)
    } else {
        first_index(s, p, i + 1)
    }
}

/// Last index `k < j` with `p(s[k])`.
pub open spec fn last_index<T>(s: Seq<T>, p: spec_fn(T) -> bool, j: int) -> Option<int>
    decreases j,
{
    if j <= 0 || j > s.len() {
        None
    } else if p(s[j - 1]) {
        Some(j - 1)
    } else {
        last_index(s, p, j - 1)
    }
}

pub proof fn lemma_first_index<T>(s: Seq<T>, p: spec_fn(T) -> bool, i: int)
    requires
        0 <= i <= s.len(),
    ensures
        first_index(s, p, i) matches Some(k) ==> i <= k < s.len() && p(s[k]) && forall|t: int|
            i <= t < k ==> !p(#[trigger] s[t]),
        first_index(s, p, i) is None ==> forall|t: int| i <= t < s.len() ==> !p(#[trigger] s[t]),
    decreases s.len() - i,
{
    if i < s.len() && !p(s[i]) {
        lemma_first_index(s, p, i + 1);
    }
}

pub proof fn lemma_last_index<T>(s: Seq<T>, p: spec_fn(T) -> bool, j: int)
    requires
        0 <= j <= s.len(),
    ensures
        last_index(s, p, j) matches Some(k) ==> 0 <= k < j && p(s[k]) && forall|t: int|
            k < t < j ==> !p(#[trigger] s[t]),
        last_index(s, p, j) is None ==> forall|t: int| 0 <= t < j ==> !p(#[trigger] s[t]),
    decreases j,
{
    if j > 0 && !p(s[j - 1]) {
        lemma_last_index(s, p, j - 1);
    }
}


/// The elements of `v` in reverse order (moved, not copied).
pub fn reversed<T>(v: Vec<T>) -> (r: Vec<T>)
    ensures
        r@.len() == v@.len(),
        forall|i: int| 0 <= i < v@.len() ==> #[trigger] r@[i] == v@[v@.len() - 1 - i],
{
    let ghost orig = v@;
    let mut v = v;
    let mut r: Vec<T> = Vec::new();
    while v.len() > 0
        invariant
            v@ == orig.take(v@.len() as int),
            r@.len() + v@.len() == orig.len(),
            forall|i: int| 0 <= i < r@.len() ==> #[trigger] r@[i] == orig[orig.len() - 1 - i],
        decreases v@.len(),
    {
        let ghost before = v@;
        let x = v.pop().unwrap();
        assert(x == orig[v@.len() as int]) by {
            assert(before[v@.len() as int] == x);
        }
        assert(v@ =~= orig.take(v@.len() as int));
        r.push(x);
    }
    r
}

} // verus!
