//! The digest oracle: SHA-256, rendered as lower-case hexadecimal text.

use vstd::prelude::*;

verus! {

/// Length of a digest in its hexadecimal rendering.
pub const DIGEST_LEN: usize = 64;

/// The characters `0`-`9` and `a`-`f`.
pub open spec fn is_hex_digit(b: u8) -> bool {
    (0x30 <= b <= 0x39) || (0x61 <= b <= 0x66)
}

/// The shape of every rendered digest: [`DIGEST_LEN`] lower-case
/// hexadecimal digits.
pub open spec fn is_digest(d: Seq<u8>) -> bool {
    &&& d.len() == DIGEST_LEN
    &&& forall|i: int| 0 <= i < d.len() ==> is_hex_digit(#[trigger] d[i])
}

/// The digest of `input`: the bytes of the text that `sha256::digest`
/// returns for it, the SHA-256 value in hexadecimal.
///
/// The function is named, not defined: nothing here says which digest an
/// input has, only that it has one.
pub uninterp spec fn sha256_hex(input: Seq<u8>) -> Seq<u8>;

/// Calls `sha256::digest` on a byte slice and hands back the bytes of the
/// string it returns.
///
/// Trusted, not proved: the result depends on the input bytes alone, and it
/// is the 32-byte SHA-256 value as `hex::encode` writes it, that is 64
/// characters out of `0123456789abcdef`.
#[verifier::external_body]
pub(crate) fn hex_digest(input: &[u8]) -> (out: Vec<u8>)
    ensures
        out@ == sha256_hex(input@),
        is_digest(out@),
{
    sha256::digest(input).into_bytes()
}

/// Tells whether `d` has the shape of a rendered digest.
pub fn check_digest(d: &[u8]) -> (ok: bool)
    ensures
        ok == is_digest(d@),
{
    if d.len() != DIGEST_LEN {
        return false;
    }
    let mut i: usize = 0;
    while i < DIGEST_LEN
        invariant
            d@.len() == DIGEST_LEN,
            i <= DIGEST_LEN,
            forall|k: int| 0 <= k < i ==> is_hex_digit(#[trigger] d@[k]),
        decreases DIGEST_LEN - i,
    {
        let b: u8 = d[i];
        if !((0x30 <= b && b <= 0x39) || (0x61 <= b && b <= 0x66)) {
            return false;
        }
        i += 1;
    }
    true
}

} // verus!
