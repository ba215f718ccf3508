use chaintable::chain::{replay, step, walk};
use chaintable::config::Config;
use chaintable::invert::hack;
use chaintable::persist::{read_map, write_map};
use chaintable::sample::random_pass;
use chaintable::table::{precalc, ChainTable};

const H_A: &[u8] = b"ca978112ca1bbdcafac231b39a23dc4da786eff8147c4e72b9807785afee48bb";
const H_B: &[u8] = b"3e23e8160039594a33894f6564e1b1348bbd7a0088d42c4acb73eeaed59c009d";
const H_ABCD: &[u8] = b"88d4266fd4e6338d13b845fcf289579d209c897823b9217da3e161936f031589";

fn letters(chain_len: usize) -> Config {
    Config::new(b"abcdefghijklmnopqrstuvwxyz".to_vec(), 4, chain_len).unwrap()
}

fn digest_of(cfg: &Config, pwd: &[u8]) -> Vec<u8> {
    step(cfg, pwd).0
}

#[test]
fn hack_recovers_every_plaintext_of_a_stored_chain() {
    let cfg = letters(3);
    let table = precalc(cfg.clone(), &[b"abcd".to_vec(), b"aaaa".to_vec()]);
    for pwd in [&b"abcd"[..], b"gnfb", b"dvia", b"aaaa", b"bmzp", b"krrh"] {
        assert_eq!(hack(&digest_of(&cfg, pwd), &table), Some(pwd.to_vec()));
    }
}

#[test]
fn hack_misses_what_no_chain_covers() {
    let cfg = letters(3);
    let table = precalc(cfg.clone(), &[b"abcd".to_vec(), b"aaaa".to_vec()]);
    // "qeab" and "wtnx" are where the two chains would go next
    for pwd in [&b"zzzz"[..], b"qeab", b"wtnx"] {
        assert_eq!(hack(&digest_of(&cfg, pwd), &table), None);
    }
}

#[test]
fn hack_resolves_an_endpoint_by_its_own_chain() {
    let cfg = letters(3);
    let table = precalc(cfg.clone(), &[b"abcd".to_vec()]);
    let endpoint = walk(&cfg, b"abcd", 3);
    assert!(table.contains_key(&endpoint));
    assert_eq!(hack(&endpoint, &table), Some(b"dvia".to_vec()));
}

#[test]
fn hack_against_the_empty_table_finds_nothing() {
    let cfg = Config::standard();
    let table = ChainTable::new(cfg.clone());
    assert_eq!(hack(H_ABCD, &table), None);
    assert_eq!(hack(H_A, &table), None);
    assert_eq!(hack(b"0000", &table), None);
    for _ in 0..3 {
        let target = digest_of(&cfg, &random_pass(&cfg));
        assert_eq!(hack(&target, &table), None);
    }
    let built = precalc(cfg, &[]);
    assert_eq!(hack(H_ABCD, &built), None);
}

#[test]
fn hack_passes_over_an_endpoint_whose_chain_lacks_the_target() {
    // over the alphabet "ab" with one symbol, "a" steps to "b" and "b" to
    // itself: the chains of "a" and "b" merge, and only the later is kept
    let cfg = Config::new(b"ab".to_vec(), 1, 2).unwrap();
    let table = precalc(cfg.clone(), &[b"a".to_vec(), b"b".to_vec()]);
    assert_eq!(table.get(H_B), Some(&b"b"[..]));
    // the walk from the digest of "a" runs into the endpoint, but the chain
    // kept there does not hold "a"
    assert_eq!(hack(H_A, &table), None);
    assert_eq!(hack(H_B, &table), Some(b"b".to_vec()));
    let table = precalc(cfg, &[b"b".to_vec(), b"a".to_vec()]);
    assert_eq!(hack(H_A, &table), Some(b"a".to_vec()));
    assert_eq!(hack(H_B, &table), Some(b"b".to_vec()));
}

#[test]
fn hack_misses_an_endpoint_stored_with_a_foreign_seed() {
    let cfg = letters(3);
    let mut stored = H_ABCD.to_vec();
    stored.extend_from_slice(b" zzzz\n");
    let table = read_map(cfg, &stored).unwrap();
    assert_eq!(hack(H_ABCD, &table), None);
}

#[test]
fn hack_goes_by_the_chain_length_of_the_table_it_is_given() {
    let seeds = [b"abcd".to_vec()];
    let stored = write_map(&precalc(letters(3), &seeds));
    let endpoint = walk(&letters(3), b"abcd", 3);
    // read with the chain length it was built with, the table covers the chain
    let same = read_map(letters(3), &stored).unwrap();
    assert_eq!(hack(&endpoint, &same), Some(b"dvia".to_vec()));
    assert_eq!(hack(H_ABCD, &same), Some(b"abcd".to_vec()));
    // read with a shorter one, the stored chain ends before its endpoint
    let shorter = read_map(letters(2), &stored).unwrap();
    assert_eq!(hack(&endpoint, &shorter), None);
    // read with a longer one, the walk runs into the endpoint all the same
    let longer = read_map(letters(5), &stored).unwrap();
    assert_eq!(hack(&endpoint, &longer), Some(b"dvia".to_vec()));
    assert_eq!(hack(H_ABCD, &longer), Some(b"abcd".to_vec()));
}

#[test]
fn hack_never_returns_a_plaintext_with_another_digest() {
    let cfg = letters(24);
    let seeds: Vec<Vec<u8>> = (0..40).map(|_| random_pass(&cfg)).collect();
    let table = precalc(cfg.clone(), &seeds);
    for _ in 0..40 {
        let target = digest_of(&cfg, &random_pass(&cfg));
        if let Some(found) = hack(&target, &table) {
            assert_eq!(digest_of(&cfg, &found), target);
        }
    }
}

#[test]
fn hack_finds_every_digest_of_every_kept_chain() {
    let cfg = letters(16);
    let seeds: Vec<Vec<u8>> = [&b"abcd"[..], b"aaaa", b"zzzz", b"pass", b"word", b"rust"]
        .iter()
        .map(|s| s.to_vec())
        .collect();
    let table = precalc(cfg.clone(), &seeds);
    for seed in &seeds {
        let endpoint = walk(&cfg, seed, 16);
        if table.get(&endpoint) != Some(&seed[..]) {
            continue;
        }
        for (_, digest) in replay(&cfg, seed, 16) {
            let found = hack(&digest, &table).unwrap();
            assert_eq!(digest_of(&cfg, &found), digest);
        }
    }
}

#[test]
fn hack_with_a_chain_of_one_step() {
    let cfg = letters(1);
    let table = precalc(cfg.clone(), &[b"abcd".to_vec()]);
    assert_eq!(hack(H_ABCD, &table), Some(b"abcd".to_vec()));
    assert_eq!(hack(&digest_of(&cfg, b"gnfb"), &table), None);
}

#[test]
fn hack_over_the_standard_space() {
    let cfg = Config::standard();
    let seeds: Vec<Vec<u8>> = (0..1024).map(|_| random_pass(&cfg)).collect();
    let table = precalc(cfg.clone(), &seeds);
    let target = digest_of(&cfg, b"abcd");
    assert_eq!(target, H_ABCD);
    match hack(&target, &table) {
        Some(found) => assert_eq!(found, b"abcd"),
        None => {}
    }
}
