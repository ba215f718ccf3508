use chaintable::config::Config;
use chaintable::sample::random_pass;

#[test]
fn random_pass_is_a_plaintext_of_the_space() {
    let cfg = Config::standard();
    for _ in 0..500 {
        let pass = random_pass(&cfg);
        assert_eq!(pass.len(), 4);
        assert!(cfg.is_plaintext(&pass));
    }
}

#[test]
fn random_pass_draws_from_the_whole_alphabet() {
    let cfg = Config::new(b"xy".to_vec(), 8, 1).unwrap();
    let mut seen_x = false;
    let mut seen_y = false;
    for _ in 0..200 {
        let pass = random_pass(&cfg);
        assert!(cfg.is_plaintext(&pass));
        seen_x = seen_x || pass.contains(&b'x');
        seen_y = seen_y || pass.contains(&b'y');
    }
    assert!(seen_x && seen_y);
}

#[test]
fn random_pass_with_a_single_symbol() {
    let cfg = Config::new(b"q".to_vec(), 3, 1).unwrap();
    assert_eq!(random_pass(&cfg), b"qqq");
}

#[test]
fn random_pass_of_no_symbols() {
    let cfg = Config::new(b"ab".to_vec(), 0, 1).unwrap();
    assert_eq!(random_pass(&cfg), b"");
}
