use soa_lab::measure::{
    build_random_indices, count_held_aos, count_held_aos_padded, count_held_soa, random_access_sum,
    scattered, sequential_sum, split, sum_hashmap, sum_seq, sum_u64, sum_u8, sum_vec, Card,
    CardWithNickname, N_KEYS,
};
use std::collections::HashMap;

#[test]
fn sums_of_columns() {
    let v: Vec<u64> = (0..1000).collect();
    assert_eq!(sum_seq(&v), 499_500);
    assert_eq!(sum_u64(&v), 499_500);
    assert_eq!(sum_vec(&v), 499_500);
    let b: Vec<u8> = vec![255; 1000];
    assert_eq!(sum_u8(&b), 255_000);
    assert_eq!(sum_seq(&[]), 0);
}

#[test]
fn wrapping_sums_wrap() {
    assert_eq!(sequential_sum(&[u64::MAX, 2]), 1);
    assert_eq!(random_access_sum(&[5, u64::MAX], &[1, 1, 0]), 3);
}

#[test]
fn random_indices_follow_the_generator() {
    let idx = build_random_indices(10);
    let mut state = 0xDEAD_BEEFu64;
    for &i in &idx {
        state = state.wrapping_mul(6364136223846793005).wrapping_add(1442695040888963407);
        assert_eq!(i, (state as usize) % 10);
    }
    assert_eq!(idx.len(), 10);
}

#[test]
fn scattered_hash_values() {
    assert_eq!(scattered(0), 0);
    assert_eq!(scattered(1), 89);
    assert_eq!(scattered(2), 79);
    for i in 0..1000 {
        assert!(scattered(i) < 100);
    }
}

#[test]
fn held_counts_agree_across_layouts() {
    let locs: Vec<u8> = (0..52).map(|i| (i % 5) as u8).collect();
    let cards: Vec<Card> = locs.iter().map(|&l| Card { suit: 0, rank: 0, location: l }).collect();
    let padded: Vec<CardWithNickname> = locs
        .iter()
        .map(|&l| CardWithNickname { suit: 0, rank: 0, location: l, _pad: 0, nickname: [0; 16] })
        .collect();
    for p in 0..5 {
        let n = count_held_soa(&locs, p);
        assert_eq!(count_held_aos(&cards, p), n);
        assert_eq!(count_held_aos_padded(&padded, p), n);
    }
    assert_eq!(count_held_soa(&locs, 0), 11);
}

#[test]
fn hashmap_sum_skips_absent_keys() {
    let mut m = HashMap::new();
    m.insert(0u32, 5u64);
    m.insert(7, 6);
    m.insert(N_KEYS, 1000); // outside 0..N_KEYS: not looked up
    assert_eq!(sum_hashmap(&m), 11);
}

#[test]
fn split_forty_percent_foragers() {
    assert_eq!(split(100_000), (40_000, 60_000));
    assert_eq!(split(1), (1, 0));
    assert_eq!(split(2), (1, 1));
    assert_eq!(split(5), (2, 3));
}
