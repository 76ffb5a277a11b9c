//! Small verified bridges between `String` / `&str` and `Vec<char>`.
//!
//! The editing logic works over character vectors, whose contents Verus
//! reasons about directly; these helpers move text across that boundary.

use vstd::prelude::*;
use vstd::string::*;

verus! {

/// Relies on `String::push`: appends exactly the given character.
#[verifier::external_body]
pub(crate) fn push_char(s: &mut String, c: char)
    ensures
        final(s)@ == old(s)@.push(c),
{
    s.push(c);
}

/// The characters of a string slice, in order, as a vector.
pub(crate) fn str_to_chars(s: &str) -> (v: Vec<char>)
    ensures
        v@ == s@,
{
    let n = s.unicode_len();
    let mut v: Vec<char> = Vec::new();
    let mut i: usize = 0;
    while i < n
        invariant
            n == s@.len(),
            0 <= i <= n,
            v@ == s@.take(i as int),
        decreases n - i,
    {
        let c = s.get_char(i);
        v.push(c);
        assert(v@ =~= s@.take(i as int + 1));
        i += 1;
    }
    assert(s@.take(i as int) =~= s@);
    v
}

/// A string holding exactly the given characters.
pub(crate) fn chars_to_string(v: &Vec<char>) -> (s: String)
    ensures
        s@ == v@,
{
    let mut s = String::new();
    let mut i: usize = 0;
    while i < v.len()
        invariant
            0 <= i <= v@.len(),
            s@ == v@.take(i as int),
        decreases v@.len() - i,
    {
        push_char(&mut s, v[i]);
        assert(s@ =~= v@.take(i as int + 1));
        i += 1;
    }
    assert(v@.take(i as int) =~= v@);
    s
}

/// Characters of `cur` with `ins` spliced in at position `at`.
pub(crate) fn splice_chars(cur: &Vec<char>, at: usize, ins: &Vec<char>) -> (out: Vec<char>)
    requires
        at <= cur@.len(),
    ensures
        out@ == cur@.take(at as int) + ins@ + cur@.skip(at as int),
{
    let mut out: Vec<char> = Vec::new();
    let mut j: usize = 0;
    while j < at
        invariant
            at <= cur@.len(),
            0 <= j <= at,
            out@ == cur@.take(j as int),
        decreases at - j,
    {
        out.push(cur[j]);
        assert(out@ =~= cur@.take(j as int + 1));
        j += 1;
    }
    let mut k: usize = 0;
    while k < ins.len()
        invariant
            at <= cur@.len(),
            0 <= k <= ins@.len(),
            out@ == cur@.take(at as int) + ins@.take(k as int),
        decreases ins@.len() - k,
    {
        out.push(ins[k]);
        assert(out@ =~= cur@.take(at as int) + ins@.take(k as int + 1));
        k += 1;
    }
    assert(ins@.take(ins@.len() as int) =~= ins@);
    let mut m: usize = at;
    while m < cur.len()
        invariant
            at <= m <= cur@.len(),
            out@ == cur@.take(at as int) + ins@ + cur@.subrange(at as int, m as int),
        decreases cur@.len() - m,
    {
        out.push(cur[m]);
        assert(out@ =~= cur@.take(at as int) + ins@ + cur@.subrange(at as int, m as int + 1));
        m += 1;
    }
    assert(out@ =~= cur@.take(at as int) + ins@ + cur@.skip(at as int));
    out
}

/// Characters of `cur` with the half-open range `[start, end)` removed.
pub(crate) fn remove_chars(cur: &Vec<char>, start: usize, end: usize) -> (out: Vec<char>)
    requires
        start <= end <= cur@.len(),
    ensures
        out@ == cur@.take(start as int) + cur@.skip(end as int),
{
    let mut out: Vec<char> = Vec::new();
    let mut j: usize = 0;
    while j < start
        invariant
            start <= end <= cur@.len(),
            0 <= j <= start,
            out@ == cur@.take(j as int),
        decreases start - j,
    {
        out.push(cur[j]);
        assert(out@ =~= cur@.take(j as int + 1));
        j += 1;
    }
    let mut m: usize = end;
    while m < cur.len()
        invariant
            start <= end <= m <= cur@.len(),
            out@ == cur@.take(start as int) + cur@.subrange(end as int, m as int),
        decreases cur@.len() - m,
    {
        out.push(cur[m]);
        assert(out@ =~= cur@.take(start as int) + cur@.subrange(end as int, m as int + 1));
        m += 1;
    }
    assert(out@ =~= cur@.take(start as int) + cur@.skip(end as int));
    out
}

} // verus!
