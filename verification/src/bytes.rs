//! Small helpers on byte strings.

use vstd::prelude::*;

verus! {

/// Compares two byte strings.
pub fn bytes_equal(a: &[u8], b: &[u8]) -> (same: bool)
    ensures
        same == (a@ == b@),
{
    if a.len() != b.len() {
        return false;
    }
    let mut i: usize = 0;
    while i < a.len()
        invariant
            a@.len() == b@.len(),
            i <= a@.len(),
            forall|k: int| 0 <= k < i ==> a@[k] == b@[k],
        decreases a@.len() - i,
    {
        if a[i] != b[i] {
            return false;
        }
        i += 1;
    }
    assert(a@ =~= b@);
    true
}

/// Copies a byte string into a vector of its own.
pub fn copy_bytes(src: &[u8]) -> (out: Vec<u8>)
    ensures
        out@ == src@,
{
    let mut out: Vec<u8> = Vec::with_capacity(src.len());
    let mut i: usize = 0;
    while i < src.len()
        invariant
            i <= src@.len(),
            out@ == src@.subrange(0, i as int),
        decreases src@.len() - i,
    {
        out.push(src[i]);
        assert(src@.subrange(0, i + 1) == src@.subrange(0, i as int).push(src@[i as int]));
        i += 1;
    }
    assert(src@.subrange(0, src@.len() as int) == src@);
    out
}

/// Appends `src` to `dst`.
pub fn append_bytes(dst: &mut Vec<u8>, src: &[u8])
    ensures
        final(dst)@ == old(dst)@ + src@,
{
    let mut i: usize = 0;
    while i < src.len()
        invariant
            i <= src@.len(),
            dst@ == old(dst)@ + src@.subrange(0, i as int),
        decreases src@.len() - i,
    {
        dst.push(src[i]);
        assert(src@.subrange(0, i + 1) == src@.subrange(0, i as int).push(src@[i as int]));
        i += 1;
    }
    assert(src@.subrange(0, src@.len() as int) == src@);
}

} // verus!
