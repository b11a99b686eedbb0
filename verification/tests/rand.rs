use stegwalk::rand::{output_from_seed, rand, RandU64};

#[test]
fn same_seed_same_stream() {
    let mut a = RandU64::new(Some(42));
    let mut b = RandU64::new(Some(42));
    for _ in 0..16 {
        assert_eq!(a.next(), b.next());
    }
}

#[test]
fn different_seeds_diverge() {
    let mut a = RandU64::new(Some(1));
    let mut b = RandU64::new(Some(2));
    let wa: Vec<u64> = (0..4).map(|_| a.next()).collect();
    let wb: Vec<u64> = (0..4).map(|_| b.next()).collect();
    assert_ne!(wa, wb);
}

#[test]
fn first_word_matches_seeded_output() {
    let mut g = RandU64::new(Some(7777));
    assert_eq!(g.next(), output_from_seed(7777));
}

#[test]
fn stream_is_not_constant() {
    let mut g = RandU64::new(Some(12345));
    let words: Vec<u64> = (0..8).map(|_| g.next()).collect();
    assert!(words.windows(2).any(|w| w[0] != w[1]));
}

#[test]
fn time_seeded_generator_runs() {
    let mut g = RandU64::new(None);
    let _ = g.next();
    let _ = rand();
}
