//! Building the text of error messages.

use vstd::prelude::*;
use crate::text::{string_from_chars, decimal};

verus! {

/// Appends the characters of `s`.
pub fn push_str(out: &mut Vec<char>, s: &str)
    ensures
        final(out)@ == old(out)@ + s@,
{
    let ghost base = out@;
    for c in it: s.chars()
        invariant
            out@ == base + it.seq().take(it.index() as int),
            it.seq() == s@,
    {
        out.push(c);
        assert(out@ =~= base + it.seq().take(it.index() + 1));
    }
    assert(s@.take(s@.len() as int) =~= s@);
}

/// Appends `v[lo..hi]`.
pub fn push_range(out: &mut Vec<char>, v: &Vec<char>, lo: usize, hi: usize)
    requires
        lo <= hi <= v.len(),
    ensures
        final(out)@ == old(out)@ + v@.subrange(lo as int, hi as int),
{
    let ghost base = out@;
    let mut i = lo;
    while i < hi
        invariant
            lo <= i <= hi <= v.len(),
            out@ == base + v@.subrange(lo as int, i as int),
        decreases hi - i,
    {
        out.push(v[i]);
        i += 1;
        assert(out@ =~= base + v@.subrange(lo as int, i as int));
    }
}

/// Appends the decimal digits of `n`.
pub fn push_count(out: &mut Vec<char>, n: usize)
    ensures
        final(out)@ == old(out)@ + decimal(n as nat),
    decreases n,
{
    let ghost base = out@;
    if n >= 10 {
        push_count(out, n / 10);
    }
    out.push((((n % 10) + 48) as u8) as char);
    assert(out@ =~= base + decimal(n as nat));
}

/// `prefix`, then `v[lo..hi]`, then `suffix`.
pub fn quoted(prefix: &str, v: &Vec<char>, lo: usize, hi: usize, suffix: &str) -> (s: String)
    requires
        lo <= hi <= v.len(),
    ensures
        s@ == prefix@ + v@.subrange(lo as int, hi as int) + suffix@,
{
    let mut out: Vec<char> = Vec::new();
    push_str(&mut out, prefix);
    push_range(&mut out, v, lo, hi);
    push_str(&mut out, suffix);
    assert(out@ =~= prefix@ + v@.subrange(lo as int, hi as int) + suffix@);
    string_from_chars(&out)
}

/// `prefix`, then `c`, then `suffix`.
pub fn with_char(prefix: &str, c: char, suffix: &str) -> (s: String)
    ensures
        s@ == prefix@.push(c) + suffix@,
{
    let mut out: Vec<char> = Vec::new();
    push_str(&mut out, prefix);
    out.push(c);
    push_str(&mut out, suffix);
    assert(out@ =~= prefix@.push(c) + suffix@);
    string_from_chars(&out)
}

/// `prefix`, then the decimal form of `n`.
pub fn with_count(prefix: &str, n: usize) -> (s: String)
    ensures
        s@ == prefix@ + decimal(n as nat),
{
    let mut out: Vec<char> = Vec::new();
    push_str(&mut out, prefix);
    push_count(&mut out, n);
    string_from_chars(&out)
}

} // verus!
