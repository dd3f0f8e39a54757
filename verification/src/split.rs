//! Locating the pieces of a text split on a separator or on whitespace.

use vstd::prelude::*;
use crate::text::{is_ws, is_whitespace, split_state, split_on, words_state, words};

verus! {

/// Whether `r` lists, in order, the bounds inside `v` of the pieces `parts`.
pub open spec fn bounds_of(v: Seq<char>, r: Seq<(usize, usize)>, parts: Seq<Seq<char>>) -> bool {
    &&& r.len() == parts.len()
    &&& forall|i: int|
        0 <= i < r.len() ==> {
            &&& (#[trigger] r[i]).0 <= r[i].1 <= v.len()
            &&& v.subrange(r[i].0 as int, r[i].1 as int) == parts[i]
        }
}

/// The bounds of the pieces of `v[lo..hi]` split on `sep`.
pub fn split_bounds(v: &Vec<char>, lo: usize, hi: usize, sep: char) -> (r: Vec<(usize, usize)>)
    requires
        lo <= hi <= v.len(),
    ensures
        bounds_of(v@, r@, split_on(v@.subrange(lo as int, hi as int), sep)),
        forall|i: int| 0 <= i < r@.len() ==> lo <= (#[trigger] r@[i]).0 && r@[i].1 <= hi,
{
    let mut r: Vec<(usize, usize)> = Vec::new();
    let mut start = lo;
    let mut i = lo;
    while i < hi
        invariant
            lo <= start <= i <= hi <= v.len(),
            bounds_of(v@, r@, split_state(v@.subrange(lo as int, i as int), sep).0),
            split_state(v@.subrange(lo as int, i as int), sep).1 == v@.subrange(
                start as int,
                i as int,
            ),
            forall|k: int| 0 <= k < r@.len() ==> lo <= (#[trigger] r@[k]).0 && r@[k].1 <= i,
        decreases hi - i,
    {
        let ghost s = v@.subrange(lo as int, i + 1);
        assert(s.drop_last() =~= v@.subrange(lo as int, i as int));
        assert(s.last() == v@[i as int]);
        if v[i] == sep {
            r.push((start, i));
            start = i + 1;
            assert(v@.subrange(start as int, i + 1) =~= Seq::<char>::empty());
        } else {
            assert(v@.subrange(start as int, i + 1) =~= v@.subrange(start as int, i as int).push(
                v@[i as int],
            ));
        }
        i += 1;
    }
    r.push((start, hi));
    r
}

/// The bounds of the whitespace-separated words of `v[lo..hi]`.
pub fn word_bounds(v: &Vec<char>, lo: usize, hi: usize) -> (r: Vec<(usize, usize)>)
    requires
        lo <= hi <= v.len(),
    ensures
        bounds_of(v@, r@, words(v@.subrange(lo as int, hi as int))),
{
    let mut r: Vec<(usize, usize)> = Vec::new();
    let mut start = lo;
    let mut i = lo;
    while i < hi
        invariant
            lo <= start <= i <= hi <= v.len(),
            bounds_of(v@, r@, words_state(v@.subrange(lo as int, i as int)).0),
            words_state(v@.subrange(lo as int, i as int)).1 == v@.subrange(
                start as int,
                i as int,
            ),
        decreases hi - i,
    {
        let ghost s = v@.subrange(lo as int, i + 1);
        assert(s.drop_last() =~= v@.subrange(lo as int, i as int));
        assert(s.last() == v@[i as int]);
        if is_whitespace(v[i]) {
            if start < i {
                r.push((start, i));
            }
            start = i + 1;
            assert(v@.subrange(start as int, i + 1) =~= Seq::<char>::empty());
        } else {
            assert(v@.subrange(start as int, i + 1) =~= v@.subrange(start as int, i as int).push(
                v@[i as int],
            ));
        }
        i += 1;
    }
    if start < hi {
        r.push((start, hi));
    }
    r
}

} // verus!
