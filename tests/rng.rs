use dwim_path_expand::rng::RNG;
use std::collections::HashSet;

#[test]
fn default_generator_outputs() {
    let mut r = RNG::new();
    assert_eq!(r.random(), 2067748019);
    assert_eq!(r.random(), 2159771633);
    assert_eq!(r.random(), 3901238814);
}

#[test]
fn seeded_generator_outputs() {
    let mut r = RNG::new();
    r.srand(42, 54);
    assert_eq!(r.random(), 2329860096);
    assert_eq!(r.random(), 4163232578);
    assert_eq!(r.random(), 4178045044);
}

#[test]
fn random_index_values() {
    let mut r = RNG::new();
    r.srand(42, 54);
    let v: Vec<usize> = (0..5).map(|_| r.random_index(10)).collect();
    assert_eq!(v, vec![6, 8, 4, 7, 9]);
}

#[test]
fn random_index_of_one_is_zero() {
    let mut r = RNG::new();
    for _ in 0..100 {
        assert_eq!(r.random_index(1), 0);
    }
}

#[test]
fn shuffle_values() {
    let mut r = RNG::new();
    r.srand(7, 5);
    let mut l: Vec<u32> = (0..10).collect();
    r.shuffle(&mut l);
    assert_eq!(l, vec![8, 5, 9, 6, 3, 1, 7, 2, 0, 4]);
}

#[test]
fn shuffle_empty_and_single() {
    let mut r = RNG::new();
    let mut e: Vec<u32> = Vec::new();
    r.shuffle(&mut e);
    assert!(e.is_empty());
    let mut one = vec![3];
    r.shuffle(&mut one);
    assert_eq!(one, vec![3]);
}

#[test]
fn shuffle_keeps_elements() {
    let mut r = RNG::new();
    r.seed_from_current_time();
    let mut l: Vec<u32> = (0..50).collect();
    r.shuffle(&mut l);
    let mut s = l.clone();
    s.sort();
    assert_eq!(s, (0..50).collect::<Vec<u32>>());
}

#[test]
fn shuffle_reaches_every_permutation() {
    let mut seen = HashSet::new();
    for seed in 0..600u64 {
        let mut r = RNG::new();
        r.srand(seed, 5);
        let mut l = vec![1, 2, 3];
        r.shuffle(&mut l);
        seen.insert(l);
    }
    assert_eq!(seen.len(), 6);
}
