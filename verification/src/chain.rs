//! Chains: repeated hash-then-reduce steps from a seed plaintext.

use crate::bytes::{bytes_equal, copy_bytes};
use crate::config::{Config, ConfigView};
use crate::digest::{hex_digest, is_digest, sha256_hex};
use crate::reduce::{lemma_reduce_is_plaintext, reduce, truncate};
use vstd::prelude::*;

verus! {

/// Plaintext number `i` of the chain that starts at `seed`.
pub open spec fn plaintext_at(cfg: ConfigView, seed: Seq<u8>, i: nat) -> Seq<u8>
    decreases i,
{
    if i == 0 {
        seed
    } else {
        reduce(cfg, sha256_hex(plaintext_at(cfg, seed, (i - 1) as nat)))
    }
}

/// Digest number `i` of the chain that starts at `seed`: the hash of
/// plaintext number `i`.
pub open spec fn digest_at(cfg: ConfigView, seed: Seq<u8>, i: nat) -> Seq<u8> {
    sha256_hex(plaintext_at(cfg, seed, i))
}

/// The last digest of a chain of `length` steps. A chain of no steps has no
/// digest; its endpoint is the empty string.
pub open spec fn endpoint(cfg: ConfigView, seed: Seq<u8>, length: nat) -> Seq<u8> {
    if length == 0 {
        Seq::empty()
    } else {
        digest_at(cfg, seed, (length - 1) as nat)
    }
}

/// The first `length` plaintext and digest pairs of the chain from `seed`.
pub open spec fn chain(cfg: ConfigView, seed: Seq<u8>, length: nat) -> Seq<(Seq<u8>, Seq<u8>)> {
    Seq::new(length, |i: int| (plaintext_at(cfg, seed, i as nat), digest_at(cfg, seed, i as nat)))
}

/// What a search of `steps` chain positions, starting at plaintext `from`,
/// finds: the first plaintext met whose digest is `target`.
pub open spec fn find_from(cfg: ConfigView, target: Seq<u8>, from: Seq<u8>, steps: nat) -> Option<
    Seq<u8>,
>
    decreases steps,
{
    if steps == 0 {
        None
    } else if sha256_hex(from) == target {
        Some(from)
    } else {
        find_from(cfg, target, reduce(cfg, sha256_hex(from)), (steps - 1) as nat)
    }
}

/// The result of searching a whole chain from `start` for a pre-image of
/// `target`.
pub open spec fn find(cfg: ConfigView, target: Seq<u8>, start: Seq<u8>) -> Option<Seq<u8>> {
    find_from(cfg, target, start, cfg.chain_len)
}

/// The model of a vector of pairs of byte strings.
pub open spec fn pairs_view(pairs: Seq<(Vec<u8>, Vec<u8>)>) -> Seq<(Seq<u8>, Seq<u8>)> {
    Seq::new(pairs.len(), |i: int| (pairs[i].0@, pairs[i].1@))
}

/// The model of an optional byte string.
pub open spec fn option_view(o: Option<Vec<u8>>) -> Option<Seq<u8>> {
    match o {
        Some(v) => Some(v@),
        None => None,
    }
}

/// A chain continued from one of its own plaintexts is the rest of the
/// chain.
pub proof fn lemma_chain_shift(cfg: ConfigView, seed: Seq<u8>, i: nat, k: nat)
    ensures
        plaintext_at(cfg, plaintext_at(cfg, seed, i), k) == plaintext_at(cfg, seed, i + k),
        digest_at(cfg, plaintext_at(cfg, seed, i), k) == digest_at(cfg, seed, i + k),
    decreases k,
{
    if k > 0 {
        lemma_chain_shift(cfg, seed, i, (k - 1) as nat);
    }
}

/// Closure of the password space under a step: whatever is hashed, the
/// reduction of its digest is a plaintext of the space. So every plaintext
/// of a chain after the seed is one, and the seed's successors never leave
/// the space.
pub proof fn lemma_step_stays_in_space(cfg: ConfigView, p: Seq<u8>)
    requires
        cfg.valid(),
    ensures
        cfg.is_plaintext(reduce(cfg, sha256_hex(p))),
{
    lemma_reduce_is_plaintext(cfg, sha256_hex(p));
}

/// Every plaintext of a chain lies in the password space if the seed does.
pub proof fn lemma_chain_stays_in_space(cfg: ConfigView, seed: Seq<u8>, i: nat)
    requires
        cfg.valid(),
        cfg.is_plaintext(seed),
    ensures
        cfg.is_plaintext(plaintext_at(cfg, seed, i)),
{
    if i > 0 {
        lemma_step_stays_in_space(cfg, plaintext_at(cfg, seed, (i - 1) as nat));
    }
}

/// Replay and walk agree: the digest of the last pair of a replayed chain
/// is the endpoint that a walk of the same length returns.
pub proof fn lemma_replay_ends_at_endpoint(cfg: ConfigView, seed: Seq<u8>, length: nat)
    requires
        length >= 1,
    ensures
        chain(cfg, seed, length).last().1 == endpoint(cfg, seed, length),
{
}

/// A search finds something exactly when the target is one of the digests
/// searched, and then it returns the plaintext of the first such digest.
pub proof fn lemma_find_from_first_match(
    cfg: ConfigView,
    target: Seq<u8>,
    from: Seq<u8>,
    steps: nat,
)
    ensures
        match find_from(cfg, target, from, steps) {
            Some(p) => exists|i: nat|
                i < steps && p == plaintext_at(cfg, from, i) && #[trigger] digest_at(cfg, from, i)
                    == target && forall|j: nat|
                    j < i ==> #[trigger] digest_at(cfg, from, j) != target,
            None => forall|i: nat| i < steps ==> #[trigger] digest_at(cfg, from, i) != target,
        },
    decreases steps,
{
    if steps == 0 {
    } else if sha256_hex(from) == target {
        assert(digest_at(cfg, from, 0) == target);
    } else {
        let next = reduce(cfg, sha256_hex(from));
        assert(plaintext_at(cfg, from, 0) == from);
        assert(next == plaintext_at(cfg, from, 1));
        lemma_find_from_first_match(cfg, target, next, (steps - 1) as nat);
        assert forall|k: nat| #![auto] digest_at(cfg, next, k) == digest_at(cfg, from, k + 1)
            && plaintext_at(cfg, next, k) == plaintext_at(cfg, from, k + 1) by {
            lemma_chain_shift(cfg, from, 1, k);
        }
        match find_from(cfg, target, next, (steps - 1) as nat) {
            Some(p) => {
                let i = choose|i: nat|
                    i < steps - 1 && p == plaintext_at(cfg, next, i) && #[trigger] digest_at(
                        cfg,
                        next,
                        i,
                    ) == target && forall|j: nat|
                        j < i ==> #[trigger] digest_at(cfg, next, j) != target;
                assert(digest_at(cfg, from, i + 1) == target);
                assert forall|j: nat| j < i + 1 implies #[trigger] digest_at(cfg, from, j)
                    != target by {
                    if j > 0 {
                        assert(digest_at(cfg, next, (j - 1) as nat) != target);
                    }
                }
            },
            None => {
                assert forall|i: nat| i < steps implies #[trigger] digest_at(cfg, from, i)
                    != target by {
                    if i > 0 {
                        assert(digest_at(cfg, next, (i - 1) as nat) != target);
                    }
                }
            },
        }
    }
}

/// One step of a chain: the digest of `pwd` and the plaintext it reduces to.
pub fn step(cfg: &Config, pwd: &[u8]) -> (r: (Vec<u8>, Vec<u8>))
    ensures
        r.0@ == sha256_hex(pwd@),
        r.1@ == reduce(cfg@, sha256_hex(pwd@)),
        is_digest(r.0@),
        cfg@.is_plaintext(r.1@),
{
    proof {
        use_type_invariant(cfg);
    }
    let pwd_hash = hex_digest(pwd);
    let new_pwd = truncate(cfg, pwd_hash.as_slice());
    (pwd_hash, new_pwd)
}

/// Walks `length` steps from `seed` and returns the last digest met.
pub fn walk(cfg: &Config, seed: &[u8], length: usize) -> (last: Vec<u8>)
    ensures
        last@ == endpoint(cfg@, seed@, length as nat),
        length > 0 ==> is_digest(last@),
{
    let mut pwd: Vec<u8> = copy_bytes(seed);
    let mut pwd_hash: Vec<u8> = Vec::new();
    let mut i: usize = 0;
    while i < length
        invariant
            i <= length,
            pwd@ == plaintext_at(cfg@, seed@, i as nat),
            pwd_hash@ == endpoint(cfg@, seed@, i as nat),
            i > 0 ==> is_digest(pwd_hash@),
        decreases length - i,
    {
        let (h, p) = step(cfg, pwd.as_slice());
        pwd_hash = h;
        pwd = p;
        i += 1;
    }
    pwd_hash
}

/// A chain in replay: the pairs of a chain, handed out one at a time and
/// computed only when asked for.
///
/// A replay holds nothing but its place on the chain. Replaying the same
/// seed again gives the same pairs.
pub struct Replay<'a> {
    cfg: &'a Config,
    seed: Ghost<Seq<u8>>,
    pwd: Vec<u8>,
    position: usize,
    length: usize,
}

impl<'a> Replay<'a> {
    /// The configuration of the chain.
    pub closed spec fn config_view(&self) -> ConfigView {
        self.cfg@
    }

    /// The seed of the chain.
    pub closed spec fn seed(&self) -> Seq<u8> {
        self.seed@
    }

    /// Number of pairs handed out so far.
    pub closed spec fn position(&self) -> nat {
        self.position as nat
    }

    /// Number of pairs that the replay hands out in all.
    pub closed spec fn length(&self) -> nat {
        self.length as nat
    }

    /// A replay stands on its chain, not beyond its length.
    #[verifier::type_invariant]
    pub closed spec fn wf(&self) -> bool {
        &&& self.position <= self.length
        &&& self.pwd@ == plaintext_at(self.cfg@, self.seed@, self.position as nat)
    }

    /// Starts a replay of `length` steps at `seed`.
    pub fn new(cfg: &'a Config, seed: &[u8], length: usize) -> (replay: Replay<'a>)
        ensures
            replay.config_view() == cfg@,
            replay.seed() == seed@,
            replay.length() == length,
            replay.position() == 0,
    {
        Replay { cfg, seed: Ghost(seed@), pwd: copy_bytes(seed), position: 0, length }
    }

    /// Hands out the next plaintext of the chain with its digest, or `None`
    /// once `length` pairs were handed out.
    pub fn next_pair(&mut self) -> (pair: Option<(Vec<u8>, Vec<u8>)>)
        ensures
            final(self).config_view() == old(self).config_view(),
            final(self).seed() == old(self).seed(),
            final(self).length() == old(self).length(),
            match pair {
                Some(pd) => {
                    &&& old(self).position() < old(self).length()
                    &&& final(self).position() == old(self).position() + 1
                    &&& pd.0@ == plaintext_at(
                        old(self).config_view(),
                        old(self).seed(),
                        old(self).position(),
                    )
                    &&& pd.1@ == digest_at(
                        old(self).config_view(),
                        old(self).seed(),
                        old(self).position(),
                    )
                },
                None => {
                    &&& old(self).position() == old(self).length()
                    &&& final(self).position() == old(self).position()
                },
            },
    {
        proof {
            use_type_invariant(&*self);
        }
        if self.position == self.length {
            return None;
        }
        let (pwd_hash, new_pwd) = step(self.cfg, self.pwd.as_slice());
        let mut moved = Replay {
            cfg: self.cfg,
            seed: self.seed,
            pwd: new_pwd,
            position: self.position + 1,
            length: self.length,
        };
        core::mem::swap(self, &mut moved);
        Some((moved.pwd, pwd_hash))
    }
}

/// Replays `length` steps from `seed` and returns every plaintext met,
/// paired with its digest, in chain order.
pub fn replay(cfg: &Config, seed: &[u8], length: usize) -> (pairs: Vec<(Vec<u8>, Vec<u8>)>)
    ensures
        pairs_view(pairs@) == chain(cfg@, seed@, length as nat),
{
    let mut pairs: Vec<(Vec<u8>, Vec<u8>)> = Vec::new();
    let mut rest = Replay::new(cfg, seed, length);
    loop
        invariant
            rest.config_view() == cfg@,
            rest.seed() == seed@,
            rest.length() == length,
            rest.position() <= length,
            pairs@.len() == rest.position(),
            forall|k: int|
                0 <= k < pairs@.len() ==> (#[trigger] pairs@[k]).0@ == plaintext_at(
                    cfg@,
                    seed@,
                    k as nat,
                ) && pairs@[k].1@ == digest_at(cfg@, seed@, k as nat),
        ensures
            pairs@.len() == length,
            forall|k: int|
                0 <= k < pairs@.len() ==> (#[trigger] pairs@[k]).0@ == plaintext_at(
                    cfg@,
                    seed@,
                    k as nat,
                ) && pairs@[k].1@ == digest_at(cfg@, seed@, k as nat),
        decreases length - rest.position(),
    {
        match rest.next_pair() {
            Some(pair) => {
                pairs.push(pair);
            },
            None => {
                break ;
            },
        }
    }
    assert(pairs_view(pairs@) =~= chain(cfg@, seed@, length as nat));
    pairs
}

/// Searches the chain that starts at `start_pwd` for a plaintext whose
/// digest is `target_pwd_hash`, going at most the configured chain length.
///
/// Returns the first such plaintext of the chain, and `None` exactly when
/// none of the chain's digests is the target.
pub fn find_in_chain(cfg: &Config, target_pwd_hash: &[u8], start_pwd: &[u8]) -> (found: Option<
    Vec<u8>,
>)
    ensures
        option_view(found) == find(cfg@, target_pwd_hash@, start_pwd@),
        match found {
            Some(p) => sha256_hex(p@) == target_pwd_hash@ && exists|i: nat|
                i < cfg@.chain_len && p@ == plaintext_at(cfg@, start_pwd@, i)
                    && #[trigger] digest_at(cfg@, start_pwd@, i) == target_pwd_hash@
                    && forall|j: nat|
                    j < i ==> #[trigger] digest_at(cfg@, start_pwd@, j) != target_pwd_hash@,
            None => forall|i: nat|
                i < cfg@.chain_len ==> #[trigger] digest_at(cfg@, start_pwd@, i)
                    != target_pwd_hash@,
        },
{
    let mut rest = Replay::new(cfg, start_pwd, cfg.chain_len());
    loop
        invariant
            rest.config_view() == cfg@,
            rest.seed() == start_pwd@,
            rest.length() == cfg@.chain_len,
            rest.position() <= cfg@.chain_len,
            find(cfg@, target_pwd_hash@, start_pwd@) == find_from(
                cfg@,
                target_pwd_hash@,
                plaintext_at(cfg@, start_pwd@, rest.position()),
                (cfg@.chain_len - rest.position()) as nat,
            ),
        decreases cfg@.chain_len - rest.position(),
    {
        proof {
            lemma_find_from_first_match(cfg@, target_pwd_hash@, start_pwd@, cfg@.chain_len);
        }
        match rest.next_pair() {
            Some(pair) => {
                if bytes_equal(pair.1.as_slice(), target_pwd_hash) {
                    return Some(pair.0);
                }
            },
            None => {
                return None;
            },
        }
    }
}

} // verus!
