//! The reduction function: from a digest back into the password space.

use crate::config::{Config, ConfigView, ACCUMULATOR_BYTES};
use vstd::arithmetic::div_mod::lemma_div_denominator;
use vstd::arithmetic::power::{lemma_pow0, lemma_pow_increases, lemma_pow_positive, pow};
use vstd::prelude::*;

verus! {

/// The number that `bytes` spell in base 256, most significant byte first.
pub open spec fn be_value(bytes: Seq<u8>) -> nat
    decreases bytes.len(),
{
    if bytes.len() == 0 {
        0
    } else {
        be_value(bytes.drop_last()) * 256 + bytes.last() as nat
    }
}

/// Digit `i` of `value` in the given base, counting from the least
/// significant digit.
pub open spec fn digit(value: nat, base: nat, i: nat) -> nat {
    ((value as int / pow(base as int, i)) % (base as int)) as nat
}

/// The plaintext that a digest reduces to.
///
/// The first `plaintext_len` bytes of the digest are read as one big-endian
/// number; symbol `i` of the plaintext is the alphabet symbol selected by
/// digit `i` of that number in base `alphabet.len()`.
pub open spec fn reduce(cfg: ConfigView, digest: Seq<u8>) -> Seq<u8> {
    let value = be_value(digest.subrange(0, cfg.plaintext_len as int));
    Seq::new(
        cfg.plaintext_len,
        |i: int| cfg.alphabet[digit(value, cfg.alphabet.len(), i as nat) as int],
    )
}

/// A number spelled by `n` bytes is below `256^n`.
proof fn lemma_be_value_bound(bytes: Seq<u8>)
    ensures
        be_value(bytes) < pow(256, bytes.len()),
    decreases bytes.len(),
{
    reveal(pow);
    if bytes.len() > 0 {
        lemma_be_value_bound(bytes.drop_last());
    }
}

/// Seven bytes leave room for an eighth in 64 bits.
proof fn lemma_seven_bytes_fit(n: nat)
    requires
        n <= 7,
    ensures
        pow(256, n) <= 0x100_0000_0000_0000,
{
    lemma_pow_increases(256, n, 7);
    assert(pow(256, 7) == 0x100_0000_0000_0000) by {
        reveal_with_fuel(pow, 8);
    }
}

/// Every reduction lands in the password space, whatever the digest.
pub proof fn lemma_reduce_is_plaintext(cfg: ConfigView, digest: Seq<u8>)
    requires
        cfg.valid(),
    ensures
        cfg.is_plaintext(reduce(cfg, digest)),
{
    let p = reduce(cfg, digest);
    let value = be_value(digest.subrange(0, cfg.plaintext_len as int));
    assert forall|i: int| 0 <= i < p.len() implies cfg.alphabet.contains(#[trigger] p[i]) by {
        let d = digit(value, cfg.alphabet.len(), i as nat);
        assert(0 <= d < cfg.alphabet.len());
        assert(p[i] == cfg.alphabet[d as int]);
    }
}

/// Reduces a digest to a plaintext of the configured space.
///
/// `pwd_hash` must hold at least one byte per plaintext symbol; every
/// rendered digest does.
pub fn truncate(cfg: &Config, pwd_hash: &[u8]) -> (pwd: Vec<u8>)
    requires
        pwd_hash@.len() >= cfg@.plaintext_len,
    ensures
        pwd@ == reduce(cfg@, pwd_hash@),
        cfg@.is_plaintext(pwd@),
{
    proof {
        use_type_invariant(cfg);
        lemma_reduce_is_plaintext(cfg@, pwd_hash@);
    }
    let n: usize = cfg.plaintext_len();
    let alphabet = cfg.alphabet();
    let base: u64 = alphabet.len() as u64;
    let mut hash_part: u64 = 0;
    let mut i: usize = 0;
    while i < n
        invariant
            i <= n <= ACCUMULATOR_BYTES,
            n <= pwd_hash@.len(),
            hash_part as nat == be_value(pwd_hash@.subrange(0, i as int)),
        decreases n - i,
    {
        let byte: u8 = pwd_hash[i];
        proof {
            let prefix = pwd_hash@.subrange(0, i as int);
            let longer = pwd_hash@.subrange(0, i + 1);
            lemma_be_value_bound(prefix);
            lemma_seven_bytes_fit(i as nat);
            assert(longer.drop_last() == prefix);
            assert(longer.last() == byte);
            assert((hash_part << 8) | (byte as u64) == hash_part * 256 + byte) by (bit_vector)
                requires
                    hash_part < 0x100_0000_0000_0000u64,
            ;
        }
        hash_part = (hash_part << 8) | (byte as u64);
        i += 1;
    }
    let ghost value: nat = hash_part as nat;
    proof {
        lemma_pow0(base as int);
    }
    let mut pwd: Vec<u8> = Vec::new();
    let mut i: usize = 0;
    while i < n
        invariant
            i <= n,
            n == cfg@.plaintext_len,
            alphabet@ == cfg@.alphabet,
            base == alphabet@.len(),
            base > 0,
            hash_part as int == value as int / pow(base as int, i as nat),
            pwd@.len() == i,
            forall|k: int|
                0 <= k < i ==> #[trigger] pwd@[k] == alphabet@[digit(
                    value,
                    base as nat,
                    k as nat,
                ) as int],
        decreases n - i,
    {
        proof {
            lemma_pow_positive(base as int, i as nat);
            lemma_div_denominator(value as int, pow(base as int, i as nat), base as int);
            assert(pow(base as int, (i + 1) as nat) == pow(base as int, i as nat) * base) by {
                reveal(pow);
                assert(pow(base as int, (i + 1) as nat) == base * pow(base as int, i as nat));
                assert(base * pow(base as int, i as nat) == pow(base as int, i as nat) * base)
                    by (nonlinear_arith);
            }
        }
        let d: u64 = hash_part % base;
        pwd.push(alphabet[d as usize]);
        hash_part = hash_part / base;
        i += 1;
    }
    assert(pwd@ =~= reduce(cfg@, pwd_hash@)) by {
        assert(pwd_hash@.subrange(0, n as int) == pwd_hash@.subrange(0, cfg@.plaintext_len as int));
    }
    pwd
}

} // verus!
