//! Inversion: from a digest and a chain table back to a plaintext.

use crate::bytes::bytes_equal;
use crate::chain::{
    digest_at, endpoint, find, find_from, find_in_chain, lemma_chain_shift,
    lemma_find_from_first_match, option_view, plaintext_at, step,
};
use crate::config::ConfigView;
use crate::digest::sha256_hex;
use crate::reduce::{reduce, truncate};
use crate::table::{
    chain_records, consistent, lemma_built_table_consistent, lemma_map_of_last_wins, map_of,
    ChainTable,
};
use vstd::prelude::*;

verus! {

/// What the chain stored under `digest` yields for `target`: nothing when
/// the table has no such endpoint, else the result of searching the chain
/// of the stored seed.
pub open spec fn verify_hit(
    cfg: ConfigView,
    table: Map<Seq<u8>, Seq<u8>>,
    target: Seq<u8>,
    digest: Seq<u8>,
) -> Option<Seq<u8>> {
    if table.contains_key(digest) {
        find(cfg, target, table[digest])
    } else {
        None
    }
}

/// The positional search: walk forward from `candidate` for `steps` steps;
/// at each step, if the digest met is an endpoint of the table, search the
/// stored chain for the target. The first search that succeeds gives the
/// result; an endpoint whose chain does not hold the target is passed over.
pub open spec fn positional(
    cfg: ConfigView,
    table: Map<Seq<u8>, Seq<u8>>,
    target: Seq<u8>,
    candidate: Seq<u8>,
    steps: nat,
) -> Option<Seq<u8>>
    decreases steps,
{
    if steps == 0 {
        None
    } else {
        let digest = sha256_hex(candidate);
        let found = verify_hit(cfg, table, target, digest);
        if found is Some {
            found
        } else {
            positional(cfg, table, target, reduce(cfg, digest), (steps - 1) as nat)
        }
    }
}

/// The result of inverting `target` against `table`.
///
/// A target that is itself an endpoint is looked for in the chain stored
/// under it, and the outcome of that one search is the result. Any other
/// target is treated as if it stood at each earlier position of a chain:
/// the walk starts at its reduction and takes one step fewer than a chain
/// has.
pub open spec fn invert(cfg: ConfigView, table: Map<Seq<u8>, Seq<u8>>, target: Seq<u8>) -> Option<
    Seq<u8>,
> {
    if table.contains_key(target) {
        find(cfg, target, table[target])
    } else {
        positional(cfg, table, target, reduce(cfg, target), (cfg.chain_len - 1) as nat)
    }
}

/// The positional search, said without recursion: it succeeds exactly when
/// one of the digests walked is an endpoint whose chain holds the target,
/// and it returns what the chain of the first such endpoint yields.
pub proof fn lemma_positional_first_hit(
    cfg: ConfigView,
    table: Map<Seq<u8>, Seq<u8>>,
    target: Seq<u8>,
    candidate: Seq<u8>,
    steps: nat,
)
    ensures
        match positional(cfg, table, target, candidate, steps) {
            Some(p) => exists|k: nat|
                k < steps && verify_hit(cfg, table, target, #[trigger] digest_at(cfg, candidate, k))
                    == Some(p) && forall|j: nat|
                    j < k ==> verify_hit(
                        cfg,
                        table,
                        target,
                        #[trigger] digest_at(cfg, candidate, j),
                    ) is None,
            None => forall|k: nat|
                k < steps ==> verify_hit(
                    cfg,
                    table,
                    target,
                    #[trigger] digest_at(cfg, candidate, k),
                ) is None,
        },
    decreases steps,
{
    if steps > 0 {
        let digest = sha256_hex(candidate);
        assert(digest == digest_at(cfg, candidate, 0));
        if verify_hit(cfg, table, target, digest) is None {
            let next = reduce(cfg, digest);
            assert(plaintext_at(cfg, candidate, 0) == candidate);
            assert(next == plaintext_at(cfg, candidate, 1));
            lemma_positional_first_hit(cfg, table, target, next, (steps - 1) as nat);
            assert forall|k: nat| #[trigger]
                digest_at(cfg, next, k) == digest_at(cfg, candidate, k + 1) by {
                lemma_chain_shift(cfg, candidate, 1, k);
            }
            match positional(cfg, table, target, next, (steps - 1) as nat) {
                Some(p) => {
                    let k = choose|k: nat|
                        k < steps - 1 && verify_hit(
                            cfg,
                            table,
                            target,
                            #[trigger] digest_at(cfg, next, k),
                        ) == Some(p) && forall|j: nat|
                            j < k ==> verify_hit(
                                cfg,
                                table,
                                target,
                                #[trigger] digest_at(cfg, next, j),
                            ) is None;
                    assert(digest_at(cfg, next, k) == digest_at(cfg, candidate, k + 1));
                    assert forall|j: nat| j < k + 1 implies verify_hit(
                        cfg,
                        table,
                        target,
                        #[trigger] digest_at(cfg, candidate, j),
                    ) is None by {
                        if j > 0 {
                            assert(digest_at(cfg, next, (j - 1) as nat) == digest_at(
                                cfg,
                                candidate,
                                j,
                            ));
                        }
                    }
                },
                None => {
                    assert forall|k: nat| k < steps implies verify_hit(
                        cfg,
                        table,
                        target,
                        #[trigger] digest_at(cfg, candidate, k),
                    ) is None by {
                        if k > 0 {
                            assert(digest_at(cfg, next, (k - 1) as nat) == digest_at(
                                cfg,
                                candidate,
                                k,
                            ));
                        }
                    }
                },
            }
        }
    }
}

/// A chain search returns only pre-images of its target.
pub proof fn lemma_find_sound(cfg: ConfigView, target: Seq<u8>, from: Seq<u8>, steps: nat)
    ensures
        find_from(cfg, target, from, steps) matches Some(p) ==> sha256_hex(p) == target,
    decreases steps,
{
    if steps > 0 && sha256_hex(from) != target {
        lemma_find_sound(cfg, target, reduce(cfg, sha256_hex(from)), (steps - 1) as nat);
    }
}

/// A positional search returns only pre-images of its target.
pub proof fn lemma_positional_sound(
    cfg: ConfigView,
    table: Map<Seq<u8>, Seq<u8>>,
    target: Seq<u8>,
    candidate: Seq<u8>,
    steps: nat,
)
    ensures
        positional(cfg, table, target, candidate, steps) matches Some(p) ==> sha256_hex(p)
            == target,
    decreases steps,
{
    if steps > 0 {
        let digest = sha256_hex(candidate);
        if table.contains_key(digest) {
            lemma_find_sound(cfg, target, table[digest], cfg.chain_len);
        }
        lemma_positional_sound(cfg, table, target, reduce(cfg, digest), (steps - 1) as nat);
    }
}

/// No false positives: whatever the table holds, and whichever endpoints
/// the search runs into on its way, a plaintext that inversion returns
/// hashes to the target.
pub proof fn lemma_invert_sound(cfg: ConfigView, table: Map<Seq<u8>, Seq<u8>>, target: Seq<u8>)
    ensures
        invert(cfg, table, target) matches Some(p) ==> sha256_hex(p) == target,
{
    if table.contains_key(target) {
        lemma_find_sound(cfg, target, table[target], cfg.chain_len);
    } else {
        lemma_positional_sound(
            cfg,
            table,
            target,
            reduce(cfg, target),
            (cfg.chain_len - 1) as nat,
        );
    }
}

/// Against the empty table every inversion misses.
pub proof fn lemma_empty_table_misses(cfg: ConfigView, target: Seq<u8>)
    ensures
        invert(cfg, Map::empty(), target) is None,
{
    lemma_positional_empty(cfg, target, reduce(cfg, target), (cfg.chain_len - 1) as nat);
}

proof fn lemma_positional_empty(cfg: ConfigView, target: Seq<u8>, candidate: Seq<u8>, steps: nat)
    ensures
        positional(cfg, Map::empty(), target, candidate, steps) is None,
    decreases steps,
{
    if steps > 0 {
        lemma_positional_empty(
            cfg,
            target,
            reduce(cfg, sha256_hex(candidate)),
            (steps - 1) as nat,
        );
    }
}

/// A chain that holds the target is searched with success.
pub proof fn lemma_find_complete(cfg: ConfigView, target: Seq<u8>, start: Seq<u8>, j: nat)
    requires
        j < cfg.chain_len,
        digest_at(cfg, start, j) == target,
    ensures
        find(cfg, target, start) is Some,
{
    lemma_find_from_first_match(cfg, target, start, cfg.chain_len);
}

/// In a consistent table, the chain stored under an endpoint holds that
/// endpoint, so a search of it for the endpoint succeeds.
pub proof fn lemma_consistent_endpoint_found(
    cfg: ConfigView,
    table: Map<Seq<u8>, Seq<u8>>,
    target: Seq<u8>,
)
    requires
        cfg.valid(),
        consistent(cfg, table),
        table.contains_key(target),
    ensures
        find(cfg, target, table[target]) is Some,
{
    lemma_find_complete(cfg, target, table[target], (cfg.chain_len - 1) as nat);
}

/// A positional search that starts on the chain of a stored seed, early
/// enough to reach the chain's endpoint, succeeds if that chain holds the
/// target.
proof fn lemma_positional_reaches(
    cfg: ConfigView,
    table: Map<Seq<u8>, Seq<u8>>,
    target: Seq<u8>,
    seed: Seq<u8>,
    at: nat,
    steps: nat,
)
    requires
        at < cfg.chain_len,
        at + steps >= cfg.chain_len,
        table.contains_key(endpoint(cfg, seed, cfg.chain_len)),
        table[endpoint(cfg, seed, cfg.chain_len)] == seed,
        find(cfg, target, seed) is Some,
    ensures
        positional(cfg, table, target, plaintext_at(cfg, seed, at), steps) is Some,
    decreases steps,
{
    let candidate = plaintext_at(cfg, seed, at);
    let digest = sha256_hex(candidate);
    assert(digest == digest_at(cfg, seed, at));
    if at + 1 == cfg.chain_len {
        assert(digest == endpoint(cfg, seed, cfg.chain_len));
    } else if verify_hit(cfg, table, target, digest) is None {
        assert(reduce(cfg, digest) == plaintext_at(cfg, seed, at + 1));
        lemma_positional_reaches(cfg, table, target, seed, at + 1, (steps - 1) as nat);
    }
}

/// No false negative for a covered digest.
///
/// Let `target` be the digest of plaintext number `j` of the chain of
/// `seed`, and let the table hold that chain: its endpoint, with `seed`
/// under it. Then inversion finds a plaintext, and it hashes to `target`;
/// it is plaintext number `j` itself unless another plaintext has the same
/// digest.
///
/// One case is left out, because inversion settles a target that is an
/// endpoint by the one chain stored under it: if `target` is an endpoint of
/// the table, that chain must hold it. In a consistent table it always
/// does.
pub proof fn lemma_invert_covers(
    cfg: ConfigView,
    table: Map<Seq<u8>, Seq<u8>>,
    seed: Seq<u8>,
    j: nat,
)
    requires
        cfg.valid(),
        j < cfg.chain_len,
        table.contains_key(endpoint(cfg, seed, cfg.chain_len)),
        table[endpoint(cfg, seed, cfg.chain_len)] == seed,
        table.contains_key(digest_at(cfg, seed, j)) ==> find(
            cfg,
            digest_at(cfg, seed, j),
            table[digest_at(cfg, seed, j)],
        ) is Some,
    ensures
        invert(cfg, table, digest_at(cfg, seed, j)) matches Some(p) && sha256_hex(p) == digest_at(
            cfg,
            seed,
            j,
        ),
        (forall|q: Seq<u8>| sha256_hex(q) == digest_at(cfg, seed, j) ==> q == plaintext_at(
            cfg,
            seed,
            j,
        )) ==> invert(cfg, table, digest_at(cfg, seed, j)) == Some(plaintext_at(cfg, seed, j)),
{
    let target = digest_at(cfg, seed, j);
    lemma_invert_sound(cfg, table, target);
    if !table.contains_key(target) {
        assert(j + 1 < cfg.chain_len);
        lemma_find_complete(cfg, target, seed, j);
        assert(reduce(cfg, target) == plaintext_at(cfg, seed, j + 1));
        lemma_positional_reaches(
            cfg,
            table,
            target,
            seed,
            j + 1,
            (cfg.chain_len - 1) as nat,
        );
    }
}

/// No false negative against a consistent table: every digest of a chain
/// that the table holds is inverted to a plaintext that hashes to it, and
/// to the plaintext it was made from unless another has the same digest.
pub proof fn lemma_invert_covers_consistent(
    cfg: ConfigView,
    table: Map<Seq<u8>, Seq<u8>>,
    seed: Seq<u8>,
    j: nat,
)
    requires
        cfg.valid(),
        consistent(cfg, table),
        j < cfg.chain_len,
        table.contains_key(endpoint(cfg, seed, cfg.chain_len)),
        table[endpoint(cfg, seed, cfg.chain_len)] == seed,
    ensures
        invert(cfg, table, digest_at(cfg, seed, j)) matches Some(p) && sha256_hex(p) == digest_at(
            cfg,
            seed,
            j,
        ),
        (forall|q: Seq<u8>| sha256_hex(q) == digest_at(cfg, seed, j) ==> q == plaintext_at(
            cfg,
            seed,
            j,
        )) ==> invert(cfg, table, digest_at(cfg, seed, j)) == Some(plaintext_at(cfg, seed, j)),
{
    if table.contains_key(digest_at(cfg, seed, j)) {
        lemma_consistent_endpoint_found(cfg, table, digest_at(cfg, seed, j));
    }
    lemma_invert_covers(cfg, table, seed, j);
}

/// No false negative for a table built from seeds.
///
/// Let `target` be the digest of plaintext number `j` of the chain of seed
/// number `i`, and let no later seed have a chain with the same endpoint,
/// so that the build kept the chain. Then inversion against the table built
/// from the seeds finds a plaintext, and it hashes to `target`; it is
/// plaintext number `j` itself unless another plaintext has the same digest.
pub proof fn lemma_built_table_covers(cfg: ConfigView, seeds: Seq<Seq<u8>>, i: int, j: nat)
    requires
        cfg.valid(),
        0 <= i < seeds.len(),
        j < cfg.chain_len,
        forall|k: int|
            i < k < seeds.len() ==> endpoint(cfg, #[trigger] seeds[k], cfg.chain_len) != endpoint(
                cfg,
                seeds[i],
                cfg.chain_len,
            ),
    ensures
        invert(cfg, map_of(chain_records(cfg, seeds)), digest_at(cfg, seeds[i], j)) matches Some(
            p,
        ) && sha256_hex(p) == digest_at(cfg, seeds[i], j),
        (forall|q: Seq<u8>| sha256_hex(q) == digest_at(cfg, seeds[i], j) ==> q == plaintext_at(
            cfg,
            seeds[i],
            j,
        )) ==> invert(cfg, map_of(chain_records(cfg, seeds)), digest_at(cfg, seeds[i], j)) == Some(
            plaintext_at(cfg, seeds[i], j),
        ),
{
    let recs = chain_records(cfg, seeds);
    let table = map_of(recs);
    assert forall|k: int| i < k < recs.len() implies (#[trigger] recs[k]).0 != recs[i].0 by {
        assert(recs[k].0 == endpoint(cfg, seeds[k], cfg.chain_len));
    }
    lemma_map_of_last_wins(recs, i);
    lemma_built_table_consistent(cfg, seeds);
    lemma_invert_covers_consistent(cfg, table, seeds[i], j);
}

/// Whether `digest` is one of the digests listed.
fn listed(digests: &Vec<Vec<u8>>, digest: &[u8]) -> (b: bool)
    ensures
        b == exists|k: int| 0 <= k < digests@.len() && (#[trigger] digests@[k])@ == digest@,
{
    let mut k: usize = 0;
    while k < digests.len()
        invariant
            k <= digests@.len(),
            forall|j: int| 0 <= j < k ==> (#[trigger] digests@[j])@ != digest@,
        decreases digests@.len() - k,
    {
        if bytes_equal(digests[k].as_slice(), digest) {
            return true;
        }
        k += 1;
    }
    false
}

/// Inverts `target_pwd_hash` against the table: returns a plaintext whose
/// digest is the target, or `None` when the search finds none.
///
/// The target must hold at least one byte per plaintext symbol, as every
/// rendered digest does. A miss says nothing about whether a pre-image
/// exists: a table covers only part of the password space.
///
/// The walk may run into the same endpoint more than once. The chain stored
/// under an endpoint is searched the first time only: a second search would
/// fail as the first did.
pub fn hack(target_pwd_hash: &[u8], map: &ChainTable) -> (found: Option<Vec<u8>>)
    requires
        target_pwd_hash@.len() >= map.config_view().plaintext_len,
    ensures
        option_view(found) == invert(map.config_view(), map@, target_pwd_hash@),
        found matches Some(p) ==> sha256_hex(p@) == target_pwd_hash@,
        map@ == Map::<Seq<u8>, Seq<u8>>::empty() ==> found is None,
{
    let cfg = map.config();
    proof {
        use_type_invariant(cfg);
        lemma_invert_sound(cfg@, map@, target_pwd_hash@);
        lemma_empty_table_misses(cfg@, target_pwd_hash@);
    }
    match map.get(target_pwd_hash) {
        Some(start_pwd) => {
            return find_in_chain(cfg, target_pwd_hash, start_pwd);
        },
        None => {},
    }
    let steps: usize = cfg.chain_len() - 1;
    let mut pwd: Vec<u8> = truncate(cfg, target_pwd_hash);
    let mut searched: Vec<Vec<u8>> = Vec::new();
    let mut i: usize = 0;
    while i < steps
        invariant
            i <= steps,
            cfg@ == map.config_view(),
            invert(cfg@, map@, target_pwd_hash@) == positional(
                cfg@,
                map@,
                target_pwd_hash@,
                pwd@,
                (steps - i) as nat,
            ),
            forall|k: int|
                0 <= k < searched@.len() ==> verify_hit(
                    cfg@,
                    map@,
                    target_pwd_hash@,
                    (#[trigger] searched@[k])@,
                ) is None,
        decreases steps - i,
    {
        let (pwd_hash, next) = step(cfg, pwd.as_slice());
        match map.get(pwd_hash.as_slice()) {
            Some(start_pwd) => {
                if !listed(&searched, pwd_hash.as_slice()) {
                    let found = find_in_chain(cfg, target_pwd_hash, start_pwd);
                    if found.is_some() {
                        return found;
                    }
                    searched.push(pwd_hash);
                }
            },
            None => {},
        }
        pwd = next;
        i += 1;
    }
    None
}

} // verus!
