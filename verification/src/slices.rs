//! Copies of parts of a slice.

use vstd::prelude::*;

verus! {

/// Copies the values between two places.
pub fn copy_range<T: Copy>(s: &[T], from: usize, to: usize) -> (r: Vec<T>)
    requires
        from <= to <= s@.len(),
    ensures
        r@ == s@.subrange(from as int, to as int),
{
    let mut out: Vec<T> = Vec::new();
    for i in from..to
        invariant
            to <= s@.len(),
            out@ == s@.subrange(from as int, i as int),
    {
        out.push(s[i]);
        assert(out@ =~= s@.subrange(from as int, i + 1));
    }
    out
}

/// Copies all values.
pub fn copy_all<T: Copy>(s: &[T]) -> (r: Vec<T>)
    ensures
        r@ == s@,
{
    let out: Vec<T> = copy_range(s, 0, s.len());
    assert(out@ =~= s@);
    out
}

} // verus!
