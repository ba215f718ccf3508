use chaintable::chain::walk;
use chaintable::config::Config;
use chaintable::table::{precalc, ChainTable};

const H_A: &[u8] = b"ca978112ca1bbdcafac231b39a23dc4da786eff8147c4e72b9807785afee48bb";
const H_B: &[u8] = b"3e23e8160039594a33894f6564e1b1348bbd7a0088d42c4acb73eeaed59c009d";
const H_DVIA: &[u8] = b"cdb04ebcea71e977d2e68195c750d6d842cb8c292a2e411eadecdccd067257f6";
const H_KRRH: &[u8] = b"46c0159416ab14f6102c11d9f54369a7a7de4ca35c586328ef008e25ff959185";

fn letters(chain_len: usize) -> Config {
    Config::new(b"abcdefghijklmnopqrstuvwxyz".to_vec(), 4, chain_len).unwrap()
}

#[test]
fn new_table_is_empty() {
    let table = ChainTable::new(Config::standard());
    assert!(table.is_empty());
    assert_eq!(table.len(), 0);
    assert_eq!(table.get(H_A), None);
    assert!(!table.contains_key(H_A));
    assert_eq!(table.config().chain_len(), 1024);
}

#[test]
fn insert_then_get() {
    let mut table = ChainTable::new(Config::standard());
    table.insert(H_A.to_vec(), b"abcd".to_vec());
    table.insert(H_B.to_vec(), b"wxyz".to_vec());
    assert_eq!(table.len(), 2);
    assert!(!table.is_empty());
    assert_eq!(table.get(H_A), Some(&b"abcd"[..]));
    assert_eq!(table.get(H_B), Some(&b"wxyz"[..]));
    assert_eq!(table.get(H_DVIA), None);
    assert!(table.contains_key(H_B));
    assert_eq!(table.record(0), (H_A, &b"abcd"[..]));
    assert_eq!(table.record(1), (H_B, &b"wxyz"[..]));
}

#[test]
fn insert_replaces_the_seed_of_a_known_endpoint() {
    let mut table = ChainTable::new(Config::standard());
    table.insert(H_A.to_vec(), b"abcd".to_vec());
    table.insert(H_B.to_vec(), b"wxyz".to_vec());
    table.insert(H_A.to_vec(), b"last".to_vec());
    assert_eq!(table.len(), 2);
    assert_eq!(table.get(H_A), Some(&b"last"[..]));
    assert_eq!(table.get(H_B), Some(&b"wxyz"[..]));
}

#[test]
fn precalc_stores_each_seed_under_its_endpoint() {
    let seeds = vec![b"abcd".to_vec(), b"aaaa".to_vec()];
    let table = precalc(letters(3), &seeds);
    assert_eq!(table.len(), 2);
    assert_eq!(table.get(H_DVIA), Some(&b"abcd"[..]));
    assert_eq!(table.get(H_KRRH), Some(&b"aaaa"[..]));
    assert_eq!(table.config().chain_len(), 3);
}

#[test]
fn precalc_of_no_seeds_is_the_empty_table() {
    let table = precalc(Config::standard(), &[]);
    assert!(table.is_empty());
}

#[test]
fn precalc_keeps_the_later_of_two_colliding_seeds() {
    // over the alphabet "ab" with one symbol, the chains of "a" and of "b"
    // both end at the digest of "b" after two steps
    let cfg = Config::new(b"ab".to_vec(), 1, 2).unwrap();
    assert_eq!(walk(&cfg, b"a", 2), H_B);
    assert_eq!(walk(&cfg, b"b", 2), H_B);
    let table = precalc(cfg.clone(), &[b"a".to_vec(), b"b".to_vec()]);
    assert_eq!(table.len(), 1);
    assert_eq!(table.get(H_B), Some(&b"b"[..]));
    let table = precalc(cfg, &[b"b".to_vec(), b"a".to_vec()]);
    assert_eq!(table.len(), 1);
    assert_eq!(table.get(H_B), Some(&b"a"[..]));
}

#[test]
fn precalc_is_deterministic() {
    let seeds: Vec<Vec<u8>> =
        [&b"abcd"[..], b"aaaa", b"zzzz", b"pass", b"abcd"].iter().map(|s| s.to_vec()).collect();
    let one = precalc(letters(20), &seeds);
    let two = precalc(letters(20), &seeds);
    assert_eq!(one.len(), two.len());
    for i in 0..one.len() {
        assert_eq!(one.record(i), two.record(i));
    }
}

#[test]
fn every_endpoint_is_the_endpoint_of_its_seed() {
    let cfg = letters(20);
    let seeds: Vec<Vec<u8>> =
        [&b"abcd"[..], b"aaaa", b"zzzz", b"pass", b"word"].iter().map(|s| s.to_vec()).collect();
    let table = precalc(cfg.clone(), &seeds);
    for i in 0..table.len() {
        let (endpoint, seed) = table.record(i);
        assert_eq!(walk(&cfg, seed, 20), endpoint);
    }
    for seed in &seeds {
        assert!(table.contains_key(&walk(&cfg, seed, 20)));
    }
}
