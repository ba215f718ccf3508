//! The chain table: for every chain kept, its endpoint digest and its seed.

use crate::bytes::{bytes_equal, copy_bytes};
use crate::chain::{endpoint, pairs_view, walk};
use crate::config::{Config, ConfigView};
use crate::digest::is_digest;
use vstd::prelude::*;

verus! {

/// One stored chain: its endpoint digest, then its seed plaintext.
pub type Record = (Seq<u8>, Seq<u8>);

/// The mapping that a sequence of records stands for. Where two records
/// share an endpoint, the later one wins.
pub open spec fn map_of(recs: Seq<Record>) -> Map<Seq<u8>, Seq<u8>>
    decreases recs.len(),
{
    if recs.len() == 0 {
        Map::empty()
    } else {
        map_of(recs.drop_last()).insert(recs.last().0, recs.last().1)
    }
}

/// No endpoint occurs in two records.
pub open spec fn distinct_endpoints(recs: Seq<Record>) -> bool {
    forall|i: int, j: int|
        0 <= i < recs.len() && 0 <= j < recs.len() && i != j ==> (#[trigger] recs[i]).0
            != (#[trigger] recs[j]).0
}

/// Every record pairs a rendered digest with a plaintext of the space, and
/// no endpoint occurs twice.
pub open spec fn records_valid(cfg: ConfigView, recs: Seq<Record>) -> bool {
    &&& forall|i: int|
        0 <= i < recs.len() ==> is_digest((#[trigger] recs[i]).0) && cfg.is_plaintext(recs[i].1)
    &&& distinct_endpoints(recs)
}

/// The records that a build makes of its seeds, in seed order: each seed
/// under the endpoint of its chain.
pub open spec fn chain_records(cfg: ConfigView, seeds: Seq<Seq<u8>>) -> Seq<Record> {
    Seq::new(seeds.len(), |i: int| (endpoint(cfg, seeds[i], cfg.chain_len), seeds[i]))
}

/// Whether a record with this endpoint is among the records.
pub open spec fn has_endpoint(recs: Seq<Record>, endpoint: Seq<u8>) -> bool {
    exists|i: int| 0 <= i < recs.len() && (#[trigger] recs[i]).0 == endpoint
}

/// The records after one more is stored: it takes the place of the record
/// with its endpoint, or, if there is none, the place after the last.
pub open spec fn put(recs: Seq<Record>, rec: Record) -> Seq<Record> {
    if has_endpoint(recs, rec.0) {
        Seq::new(recs.len(), |i: int| if recs[i].0 == rec.0 { rec } else { recs[i] })
    } else {
        recs.push(rec)
    }
}

/// The records that a table holds once the given records were stored in
/// it one by one: one record for each endpoint, in the order in which the
/// endpoints first came, each with the seed that came last.
pub open spec fn stored(recs: Seq<Record>) -> Seq<Record>
    decreases recs.len(),
{
    if recs.len() == 0 {
        Seq::empty()
    } else {
        put(stored(recs.drop_last()), recs.last())
    }
}

/// The byte strings that a slice of vectors holds.
pub open spec fn seeds_of(pwds: Seq<Vec<u8>>) -> Seq<Seq<u8>> {
    Seq::new(pwds.len(), |i: int| pwds[i]@)
}

/// Every endpoint in the table is the endpoint of the chain of the seed
/// stored under it. A table built from seeds has this property; one read
/// from storage is taken on trust.
pub open spec fn consistent(cfg: ConfigView, table: Map<Seq<u8>, Seq<u8>>) -> bool {
    forall|k: Seq<u8>|
        #[trigger] table.contains_key(k) ==> endpoint(cfg, table[k], cfg.chain_len) == k
}

/// The endpoints of the mapping are the endpoints of the records.
pub proof fn lemma_map_of_keys(recs: Seq<Record>)
    ensures
        forall|k: Seq<u8>|
            #![trigger map_of(recs).contains_key(k)]
            map_of(recs).contains_key(k) <==> exists|i: int|
                0 <= i < recs.len() && (#[trigger] recs[i]).0 == k,
    decreases recs.len(),
{
    if recs.len() > 0 {
        let front = recs.drop_last();
        lemma_map_of_keys(front);
        assert forall|k: Seq<u8>|
            #![trigger map_of(recs).contains_key(k)]
            map_of(recs).contains_key(k) <==> exists|i: int|
                0 <= i < recs.len() && (#[trigger] recs[i]).0 == k by {
            if map_of(recs).contains_key(k) {
                if k == recs.last().0 {
                    assert(recs[recs.len() - 1].0 == k);
                } else {
                    assert(map_of(front).contains_key(k));
                    let i = choose|i: int| 0 <= i < front.len() && (#[trigger] front[i]).0 == k;
                    assert(recs[i] == front[i]);
                }
            }
            if exists|i: int| 0 <= i < recs.len() && (#[trigger] recs[i]).0 == k {
                let i = choose|i: int| 0 <= i < recs.len() && (#[trigger] recs[i]).0 == k;
                if i < recs.len() - 1 {
                    assert(front[i] == recs[i]);
                    assert(map_of(front).contains_key(k));
                }
            }
        }
    }
}

/// The tie-break, stated: the mapping gives each endpoint the seed of the
/// last record that carries it.
pub proof fn lemma_map_of_last_wins(recs: Seq<Record>, i: int)
    requires
        0 <= i < recs.len(),
        forall|j: int| i < j < recs.len() ==> (#[trigger] recs[j]).0 != recs[i].0,
    ensures
        map_of(recs).contains_key(recs[i].0),
        map_of(recs)[recs[i].0] == recs[i].1,
    decreases recs.len(),
{
    if i < recs.len() - 1 {
        let front = recs.drop_last();
        assert(recs[recs.len() - 1].0 != recs[i].0);
        assert(front[i] == recs[i]);
        assert forall|j: int| i < j < front.len() implies (#[trigger] front[j]).0
            != front[i].0 by {
            assert(front[j] == recs[j]);
        }
        lemma_map_of_last_wins(front, i);
    }
}

/// Adding a record adds it to the mapping.
proof fn lemma_map_of_push(recs: Seq<Record>, rec: Record)
    ensures
        map_of(recs.push(rec)) == map_of(recs).insert(rec.0, rec.1),
{
    assert(recs.push(rec).drop_last() == recs);
}

/// Storing a record keeps the endpoints distinct and inserts the record
/// into the mapping.
pub proof fn lemma_put(recs: Seq<Record>, rec: Record)
    requires
        distinct_endpoints(recs),
    ensures
        distinct_endpoints(put(recs, rec)),
        map_of(put(recs, rec)) == map_of(recs).insert(rec.0, rec.1),
{
    let next = put(recs, rec);
    if has_endpoint(recs, rec.0) {
        let at = choose|i: int| 0 <= i < recs.len() && (#[trigger] recs[i]).0 == rec.0;
        assert forall|a: int, b: int|
            0 <= a < next.len() && 0 <= b < next.len() && a != b implies (#[trigger] next[a]).0
            != (#[trigger] next[b]).0 by {
            assert(next[a].0 == recs[a].0);
            assert(next[b].0 == recs[b].0);
        }
        lemma_map_of_keys(recs);
        lemma_map_of_keys(next);
        let lhs = map_of(next);
        let rhs = map_of(recs).insert(rec.0, rec.1);
        assert forall|k: Seq<u8>| lhs.contains_key(k) <==> rhs.contains_key(k) by {
            if lhs.contains_key(k) {
                let a = choose|a: int| 0 <= a < next.len() && (#[trigger] next[a]).0 == k;
                assert(recs[a].0 == k);
            }
            if rhs.contains_key(k) {
                if k == rec.0 {
                    assert(next[at].0 == k);
                } else {
                    let a = choose|a: int| 0 <= a < recs.len() && (#[trigger] recs[a]).0 == k;
                    assert(next[a].0 == k);
                }
            }
        }
        assert forall|k: Seq<u8>| lhs.contains_key(k) implies lhs[k] == rhs[k] by {
            let a = choose|a: int| 0 <= a < next.len() && (#[trigger] next[a]).0 == k;
            lemma_map_of_last_wins(next, a);
            if k != rec.0 {
                assert(recs[a] == next[a]);
                lemma_map_of_last_wins(recs, a);
            }
        }
        assert(lhs =~= rhs);
    } else {
        lemma_map_of_push(recs, rec);
        assert forall|a: int, b: int|
            0 <= a < next.len() && 0 <= b < next.len() && a != b implies (#[trigger] next[a]).0
            != (#[trigger] next[b]).0 by {
            if a < recs.len() {
                assert(next[a] == recs[a]);
            }
            if b < recs.len() {
                assert(next[b] == recs[b]);
            }
        }
    }
}

/// Storing records one by one gives distinct endpoints, and the mapping is
/// that of the records given.
pub proof fn lemma_stored(recs: Seq<Record>)
    ensures
        distinct_endpoints(stored(recs)),
        map_of(stored(recs)) == map_of(recs),
    decreases recs.len(),
{
    if recs.len() > 0 {
        lemma_stored(recs.drop_last());
        lemma_put(stored(recs.drop_last()), recs.last());
    }
}

/// Records with distinct endpoints are stored as they are.
pub proof fn lemma_stored_distinct(recs: Seq<Record>)
    requires
        distinct_endpoints(recs),
    ensures
        stored(recs) == recs,
    decreases recs.len(),
{
    if recs.len() > 0 {
        let front = recs.drop_last();
        assert(distinct_endpoints(front)) by {
            assert forall|i: int| 0 <= i < front.len() implies front[i] == recs[i] by {}
        }
        lemma_stored_distinct(front);
        if has_endpoint(front, recs.last().0) {
            let i = choose|i: int| 0 <= i < front.len() && (#[trigger] front[i]).0 == recs.last().0;
            assert(recs[i].0 == recs[recs.len() - 1].0);
        }
        assert(front.push(recs.last()) == recs);
    }
}

/// A table built from seeds is consistent: under every endpoint lies a seed
/// whose chain ends there.
pub proof fn lemma_built_table_consistent(cfg: ConfigView, seeds: Seq<Seq<u8>>)
    ensures
        consistent(cfg, map_of(chain_records(cfg, seeds))),
    decreases seeds.len(),
{
    let recs = chain_records(cfg, seeds);
    if seeds.len() > 0 {
        lemma_built_table_consistent(cfg, seeds.drop_last());
        assert(recs.drop_last() == chain_records(cfg, seeds.drop_last()));
    }
}

/// A chain table: a mapping from endpoint digests to seed plaintexts,
/// together with the configuration its chains were built with.
///
/// The records are kept in the order in which their endpoints first came,
/// and a lookup compares the endpoint asked for with each stored one in
/// turn.
#[derive(Debug)]
pub struct ChainTable {
    cfg: Config,
    entries: Vec<(Vec<u8>, Vec<u8>)>,
}

impl View for ChainTable {
    type V = Map<Seq<u8>, Seq<u8>>;

    open spec fn view(&self) -> Map<Seq<u8>, Seq<u8>> {
        map_of(self.records())
    }
}

impl ChainTable {
    /// The stored records, in storage order.
    pub closed spec fn records(&self) -> Seq<Record> {
        pairs_view(self.entries@)
    }

    /// The configuration the table belongs to.
    pub closed spec fn config_view(&self) -> ConfigView {
        self.cfg@
    }

    /// Every table that exists at run time holds valid records under a
    /// valid configuration.
    #[verifier::type_invariant]
    pub open spec fn wf(&self) -> bool {
        &&& self.config_view().valid()
        &&& records_valid(self.config_view(), self.records())
    }

    /// The empty table for a configuration.
    pub fn new(cfg: Config) -> (table: ChainTable)
        ensures
            table.wf(),
            table.config_view() == cfg@,
            table.records() == Seq::<Record>::empty(),
            table@ == Map::<Seq<u8>, Seq<u8>>::empty(),
    {
        proof {
            use_type_invariant(&cfg);
        }
        let table = ChainTable { cfg, entries: Vec::new() };
        assert(table.records() =~= Seq::<Record>::empty());
        table
    }

    /// The configuration the table belongs to.
    pub fn config(&self) -> (cfg: &Config)
        ensures
            cfg@ == self.config_view(),
            cfg.wf(),
    {
        proof {
            use_type_invariant(self);
        }
        &self.cfg
    }

    /// Number of chains stored.
    pub fn len(&self) -> (n: usize)
        ensures
            n == self.records().len(),
    {
        self.entries.len()
    }

    /// Whether no chain is stored.
    pub fn is_empty(&self) -> (b: bool)
        ensures
            b == (self.records().len() == 0),
            b == (self@ == Map::<Seq<u8>, Seq<u8>>::empty()),
    {
        proof {
            lemma_map_of_keys(self.records());
            if self.records().len() > 0 {
                assert(self@.contains_key(self.records()[0].0));
            }
        }
        self.entries.len() == 0
    }

    /// Record number `i` in storage order: endpoint digest, then seed.
    pub fn record(&self, i: usize) -> (r: (&[u8], &[u8]))
        requires
            i < self.records().len(),
        ensures
            r.0@ == self.records()[i as int].0,
            r.1@ == self.records()[i as int].1,
    {
        (self.entries[i].0.as_slice(), self.entries[i].1.as_slice())
    }

    fn position(&self, endpoint: &[u8]) -> (at: Option<usize>)
        ensures
            match at {
                Some(i) => i < self.records().len() && self.records()[i as int].0 == endpoint@,
                None => forall|i: int|
                    0 <= i < self.records().len() ==> (#[trigger] self.records()[i]).0
                        != endpoint@,
            },
    {
        let mut i: usize = 0;
        while i < self.entries.len()
            invariant
                i <= self.entries@.len(),
                forall|k: int| 0 <= k < i ==> (#[trigger] self.records()[k]).0 != endpoint@,
            decreases self.entries@.len() - i,
        {
            if bytes_equal(self.entries[i].0.as_slice(), endpoint) {
                return Some(i);
            }
            i += 1;
        }
        None
    }

    /// Whether a chain with this endpoint is stored.
    pub fn contains_key(&self, endpoint: &[u8]) -> (b: bool)
        ensures
            b == self@.contains_key(endpoint@),
    {
        proof {
            lemma_map_of_keys(self.records());
        }
        self.position(endpoint).is_some()
    }

    /// The seed stored under an endpoint.
    pub fn get(&self, endpoint: &[u8]) -> (seed: Option<&[u8]>)
        ensures
            match seed {
                Some(s) => self@.contains_key(endpoint@) && self@[endpoint@] == s@,
                None => !self@.contains_key(endpoint@),
            },
    {
        proof {
            use_type_invariant(self);
            lemma_map_of_keys(self.records());
        }
        match self.position(endpoint) {
            Some(i) => {
                proof {
                    lemma_map_of_last_wins(self.records(), i as int);
                }
                Some(self.entries[i].1.as_slice())
            },
            None => None,
        }
    }

    /// Stores `seed` under `endpoint`. A seed already stored under that
    /// endpoint is replaced: the chain inserted last is the one kept.
    pub fn insert(&mut self, endpoint: Vec<u8>, seed: Vec<u8>)
        requires
            is_digest(endpoint@),
            old(self).config_view().is_plaintext(seed@),
        ensures
            final(self).wf(),
            final(self).config_view() == old(self).config_view(),
            final(self).records() == put(old(self).records(), (endpoint@, seed@)),
            final(self)@ == old(self)@.insert(endpoint@, seed@),
    {
        proof {
            use_type_invariant(&*self);
        }
        let ghost before = self.records();
        let at = self.position(endpoint.as_slice());
        let mut entries: Vec<(Vec<u8>, Vec<u8>)> = Vec::new();
        core::mem::swap(&mut self.entries, &mut entries);
        proof {
            lemma_put(before, (endpoint@, seed@));
        }
        match at {
            Some(i) => {
                entries.set(i, (endpoint, seed));
            },
            None => {
                entries.push((endpoint, seed));
            },
        }
        proof {
            let after = pairs_view(entries@);
            assert(after =~= put(before, (endpoint@, seed@)));
            assert(records_valid(self.config_view(), after));
        }
        self.entries = entries;
    }
}

/// Builds the table of the chains that start at the given seeds.
///
/// Each seed is walked for the configured chain length and stored under the
/// endpoint reached. Seeds are taken in order; where two chains reach the
/// same endpoint, the later seed replaces the earlier.
pub fn precalc(cfg: Config, start_pwds: &[Vec<u8>]) -> (table: ChainTable)
    requires
        forall|i: int|
            0 <= i < start_pwds@.len() ==> cfg@.is_plaintext((#[trigger] start_pwds@[i])@),
    ensures
        table.wf(),
        table.config_view() == cfg@,
        table.records() == stored(chain_records(cfg@, seeds_of(start_pwds@))),
        table@ == map_of(chain_records(cfg@, seeds_of(start_pwds@))),
        consistent(cfg@, table@),
{
    let ghost params = cfg@;
    let ghost seeds = seeds_of(start_pwds@);
    proof {
        use_type_invariant(&cfg);
        lemma_built_table_consistent(params, seeds);
    }
    let mut table = ChainTable::new(cfg);
    let mut i: usize = 0;
    while i < start_pwds.len()
        invariant
            i <= start_pwds@.len(),
            params.valid(),
            seeds == seeds_of(start_pwds@),
            table.config_view() == params,
            table.records() == stored(chain_records(params, seeds.subrange(0, i as int))),
            forall|k: int|
                0 <= k < start_pwds@.len() ==> params.is_plaintext((#[trigger] start_pwds@[k])@),
        decreases start_pwds@.len() - i,
    {
        let start_pwd: &Vec<u8> = &start_pwds[i];
        let pwd_hash = walk(table.config(), start_pwd.as_slice(), table.config().chain_len());
        let seed = copy_bytes(start_pwd.as_slice());
        proof {
            let done = chain_records(params, seeds.subrange(0, i as int));
            let more = chain_records(params, seeds.subrange(0, i + 1));
            assert(more.drop_last() =~= done);
            assert(more.last() == (pwd_hash@, seed@));
        }
        table.insert(pwd_hash, seed);
        i += 1;
    }
    proof {
        assert(seeds.subrange(0, start_pwds@.len() as int) == seeds);
        lemma_stored(chain_records(params, seeds));
        use_type_invariant(&table);
    }
    table
}

} // verus!
