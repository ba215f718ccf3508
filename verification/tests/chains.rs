use chaintable::chain::{find_in_chain, replay, step, walk, Replay};
use chaintable::config::Config;
use chaintable::digest::{check_digest, DIGEST_LEN};

const H_ABCD: &[u8] = b"88d4266fd4e6338d13b845fcf289579d209c897823b9217da3e161936f031589";
const H_GNFB: &[u8] = b"d5d504f536cd175db96bdfb6fd3bd9546202103b48f9a5995eb644b9cd5b20de";
const H_DVIA: &[u8] = b"cdb04ebcea71e977d2e68195c750d6d842cb8c292a2e411eadecdccd067257f6";

fn short(chain_len: usize) -> Config {
    Config::new(b"abcdefghijklmnopqrstuvwxyz".to_vec(), 4, chain_len).unwrap()
}

#[test]
fn step_hashes_then_reduces() {
    let cfg = Config::standard();
    let (digest, next) = step(&cfg, b"abcd");
    assert_eq!(digest, H_ABCD);
    assert_eq!(next, b"gnfb");
}

#[test]
fn step_renders_the_digest_in_lowercase_hex() {
    let cfg = Config::standard();
    let (digest, _) = step(&cfg, b"");
    assert_eq!(
        digest,
        b"e3b0c44298fc1c149afbf4c8996fb92427ae41e4649b934ca495991b7852b855"
    );
    assert_eq!(digest.len(), DIGEST_LEN);
    assert!(check_digest(&digest));
}

#[test]
fn check_digest_wants_sixty_four_lowercase_hex_digits() {
    assert!(check_digest(H_ABCD));
    assert!(!check_digest(&H_ABCD[..63]));
    assert!(!check_digest(b""));
    let mut upper = H_ABCD.to_vec();
    upper[2] = b'D';
    assert!(!check_digest(&upper));
    let mut other = H_ABCD.to_vec();
    other[63] = b'g';
    assert!(!check_digest(&other));
    let mut longer = H_ABCD.to_vec();
    longer.push(b'0');
    assert!(!check_digest(&longer));
}

#[test]
fn walk_returns_the_last_digest() {
    let cfg = Config::standard();
    assert_eq!(walk(&cfg, b"abcd", 1), H_ABCD);
    assert_eq!(walk(&cfg, b"abcd", 2), H_GNFB);
    assert_eq!(walk(&cfg, b"abcd", 3), H_DVIA);
}

#[test]
fn walk_of_no_steps_has_no_digest() {
    let cfg = Config::standard();
    assert_eq!(walk(&cfg, b"abcd", 0), b"");
}

#[test]
fn replay_lists_every_plaintext_with_its_digest() {
    let cfg = Config::standard();
    let pairs = replay(&cfg, b"abcd", 3);
    assert_eq!(pairs.len(), 3);
    assert_eq!(pairs[0], (b"abcd".to_vec(), H_ABCD.to_vec()));
    assert_eq!(pairs[1], (b"gnfb".to_vec(), H_GNFB.to_vec()));
    assert_eq!(pairs[2], (b"dvia".to_vec(), H_DVIA.to_vec()));
    assert!(replay(&cfg, b"abcd", 0).is_empty());
}

#[test]
fn replay_ends_where_walk_ends() {
    let cfg = Config::standard();
    for seed in [&b"abcd"[..], b"zzzz", b"aaaa", b"seed outside the space"] {
        for length in 1..40usize {
            let pairs = replay(&cfg, seed, length);
            assert_eq!(pairs.len(), length);
            assert_eq!(pairs[length - 1].1, walk(&cfg, seed, length));
        }
    }
}

#[test]
fn replay_is_restartable() {
    let cfg = Config::standard();
    let once = replay(&cfg, b"aaaa", 4);
    let again = replay(&cfg, b"aaaa", 4);
    assert_eq!(once, again);
    assert_eq!(once[1].0, b"bmzp");
    assert_eq!(once[2].0, b"krrh");
    assert_eq!(once[3].0, b"wtnx");
    assert_eq!(
        once[3].1,
        b"92ef71c6cb37b84387fa9d12cb22b7eb254bffe373250e930dd127efb2c32265"
    );
    let longer = replay(&cfg, b"aaaa", 6);
    assert_eq!(&longer[..4], &once[..]);
}

#[test]
fn find_in_chain_returns_the_plaintext_before_the_target() {
    let cfg = short(3);
    assert_eq!(find_in_chain(&cfg, H_ABCD, b"abcd"), Some(b"abcd".to_vec()));
    assert_eq!(find_in_chain(&cfg, H_GNFB, b"abcd"), Some(b"gnfb".to_vec()));
    assert_eq!(find_in_chain(&cfg, H_DVIA, b"abcd"), Some(b"dvia".to_vec()));
}

#[test]
fn find_in_chain_stops_at_the_chain_length() {
    assert_eq!(find_in_chain(&short(2), H_DVIA, b"abcd"), None);
    assert_eq!(find_in_chain(&short(1), H_GNFB, b"abcd"), None);
    assert_eq!(find_in_chain(&short(3), H_DVIA, b"abcd"), Some(b"dvia".to_vec()));
}

#[test]
fn find_in_chain_misses_a_digest_of_another_chain() {
    let cfg = short(64);
    let foreign = b"61be55a8e2f6b4e172338bddf184d6dbee29c98853e0a0485ecee7f27b9af0b4";
    let found = find_in_chain(&cfg, foreign, b"abcd");
    if let Some(p) = found {
        assert_eq!(step(&cfg, &p).0, foreign);
    }
    assert_eq!(find_in_chain(&cfg, b"not a digest", b"abcd"), None);
    assert_eq!(find_in_chain(&cfg, b"", b"abcd"), None);
}

#[test]
fn find_in_chain_returns_the_first_of_two_occurrences() {
    // over the alphabet "ab" with one symbol, "a" steps to "b" and "b" to itself
    let cfg = Config::new(b"ab".to_vec(), 1, 5).unwrap();
    let h_b = b"3e23e8160039594a33894f6564e1b1348bbd7a0088d42c4acb73eeaed59c009d";
    let h_a = b"ca978112ca1bbdcafac231b39a23dc4da786eff8147c4e72b9807785afee48bb";
    assert_eq!(find_in_chain(&cfg, h_b, b"a"), Some(b"b".to_vec()));
    assert_eq!(find_in_chain(&cfg, h_a, b"a"), Some(b"a".to_vec()));
    assert_eq!(find_in_chain(&cfg, h_a, b"b"), None);
}

#[test]
fn replay_hands_out_one_pair_at_a_time() {
    let cfg = Config::standard();
    let mut rest = Replay::new(&cfg, b"abcd", 3);
    assert_eq!(rest.next_pair(), Some((b"abcd".to_vec(), H_ABCD.to_vec())));
    assert_eq!(rest.next_pair(), Some((b"gnfb".to_vec(), H_GNFB.to_vec())));
    assert_eq!(rest.next_pair(), Some((b"dvia".to_vec(), H_DVIA.to_vec())));
    assert_eq!(rest.next_pair(), None);
    assert_eq!(rest.next_pair(), None);
}

#[test]
fn replay_of_no_steps_hands_out_nothing() {
    let cfg = Config::standard();
    let mut rest = Replay::new(&cfg, b"abcd", 0);
    assert_eq!(rest.next_pair(), None);
}

#[test]
fn replay_in_steps_agrees_with_replay_at_once() {
    let cfg = Config::standard();
    let all = replay(&cfg, b"zzzz", 25);
    let mut rest = Replay::new(&cfg, b"zzzz", 25);
    for pair in &all {
        assert_eq!(rest.next_pair().as_ref(), Some(pair));
    }
    assert_eq!(rest.next_pair(), None);
}
