//! Random plaintexts, for seeding chains.

use crate::config::Config;
use rand::rngs::ThreadRng;
use vstd::prelude::*;

verus! {

/// `rand::rngs::ThreadRng`, the handle to the thread-local generator of the
/// `rand` crate, carried through as an opaque value.
#[verifier::external_type_specification]
#[verifier::external_body]
pub struct ExThreadRng(ThreadRng);

/// Calls `rand::thread_rng`, which hands out the calling thread's
/// generator. Nothing is claimed of what comes back.
#[verifier::external_body]
fn thread_rng() -> ThreadRng {
    rand::thread_rng()
}

/// Calls `rand::Rng::gen_range` on the half-open range from zero to
/// `bound`.
///
/// Trusted, not proved: the number drawn lies in the range. Which number
/// it is differs from call to call. `gen_range` panics on an empty range,
/// so `bound` must not be zero.
#[verifier::external_body]
fn gen_below(rng: &mut ThreadRng, bound: usize) -> (n: usize)
    requires
        bound > 0,
    ensures
        n < bound,
{
    rand::Rng::gen_range(rng, 0..bound)
}

/// Draws a plaintext of the configured space, each symbol at random from
/// the whole alphabet.
pub fn random_pass(cfg: &Config) -> (pass: Vec<u8>)
    ensures
        cfg@.is_plaintext(pass@),
{
    proof {
        use_type_invariant(cfg);
    }
    let mut rng = thread_rng();
    let mut pass: Vec<u8> = Vec::new();
    let n: usize = cfg.plaintext_len();
    let size: usize = cfg.alphabet().len();
    let mut i: usize = 0;
    while i < n
        invariant
            i <= n,
            n == cfg@.plaintext_len,
            size == cfg@.alphabet.len(),
            size > 0,
            pass@.len() == i,
            forall|k: int| 0 <= k < i ==> cfg@.alphabet.contains(#[trigger] pass@[k]),
        decreases n - i,
    {
        let digit: usize = gen_below(&mut rng, size);
        pass.push(cfg.symbol(digit));
        i += 1;
    }
    pass
}

} // verus!
