use chaintable::chain::step;
use chaintable::config::Config;
use chaintable::reduce::truncate;

#[test]
fn truncate_reads_four_bytes_big_endian() {
    // 0x0000001b = 27 = 1 + 1 * 26
    let cfg = Config::standard();
    assert_eq!(truncate(&cfg, &[0, 0, 0, 27]), b"bbaa");
}

#[test]
fn truncate_of_a_rendered_digest() {
    // "8", "8", "d", "4" spell 0x38386434 = 943219764
    let cfg = Config::standard();
    let digest = b"88d4266fd4e6338d13b845fcf289579d209c897823b9217da3e161936f031589";
    assert_eq!(truncate(&cfg, digest), b"gnfb");
}

#[test]
fn truncate_ignores_what_follows_the_bytes_it_reads() {
    let cfg = Config::standard();
    assert_eq!(truncate(&cfg, b"0000"), b"whfe");
    assert_eq!(truncate(&cfg, b"0000ffff"), b"whfe");
    assert_eq!(truncate(&cfg, b"ffff"), b"ytem");
}

#[test]
fn truncate_of_the_largest_four_byte_value() {
    let cfg = Config::standard();
    assert_eq!(truncate(&cfg, &[0xff, 0xff, 0xff, 0xff]), b"vxlr");
}

#[test]
fn truncate_fills_the_whole_accumulator() {
    let cfg = Config::new(b"abcdefghijklmnopqrstuvwxyz".to_vec(), 8, 4).unwrap();
    assert_eq!(truncate(&cfg, &[0xff; 8]), b"pqmuysxm");
    assert_eq!(truncate(&cfg, &[0, 0, 0, 0, 0, 0, 0, 1, 2]), b"baaaaaaa");
    let digest = b"88d4266fd4e6338d13b845fcf289579d209c897823b9217da3e161936f031589";
    assert_eq!(truncate(&cfg, digest), b"worwfifa");
}

#[test]
fn truncate_emits_the_least_significant_digit_first() {
    // the first eight bytes spell 4051098040163251814
    let cfg = Config::new(b"0123456789".to_vec(), 8, 4).unwrap();
    let digest = b"88d4266fd4e6338d13b845fcf289579d209c897823b9217da3e161936f031589";
    assert_eq!(truncate(&cfg, digest), b"41815236");
}

#[test]
fn truncate_to_the_empty_plaintext() {
    let cfg = Config::new(b"ab".to_vec(), 0, 1).unwrap();
    assert_eq!(truncate(&cfg, b""), b"");
    assert_eq!(truncate(&cfg, b"88d4"), b"");
}

#[test]
fn truncate_with_a_single_symbol() {
    let cfg = Config::new(b"x".to_vec(), 3, 1).unwrap();
    assert_eq!(truncate(&cfg, b"88d4"), b"xxx");
}

#[test]
fn reduction_stays_in_the_password_space() {
    let cfg = Config::standard();
    let mut pwd = b"abcd".to_vec();
    for _ in 0..200 {
        let (digest, next) = step(&cfg, &pwd);
        assert!(cfg.is_plaintext(&next));
        assert_eq!(next, truncate(&cfg, &digest));
        pwd = next;
    }
    let odd = Config::new(b"!~Zz09".to_vec(), 7, 3).unwrap();
    let mut pwd = b"not in the space".to_vec();
    for _ in 0..50 {
        let (_, next) = step(&odd, &pwd);
        assert!(odd.is_plaintext(&next));
        pwd = next;
    }
}
