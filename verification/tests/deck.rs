use soa_lab::deck::{
    card_to_string, cards_held_by, count_by_location, fisher_yates_shuffle, highest_rank_in_hand,
    new_deck, reorder_deck, row, slot_of, sort_deck_by_suit_then_rank, N_CARDS,
};
use soa_lab::lcg::Lcg;
use std::collections::HashSet;

fn deal_to(locations: &mut Vec<u8>, player: u8, n: usize) {
    for _ in 0..n {
        let s = locations.iter().position(|&l| l == 0).unwrap();
        locations[s] = player;
    }
}

#[test]
fn new_deck_has_52_unique_cards() {
    let (suits, ranks, locations) = new_deck();
    assert_eq!(suits.len(), 52);
    assert_eq!(ranks.len(), 52);
    assert_eq!(locations.len(), 52);
    assert!(locations.iter().all(|&l| l == 0));
    let mut seen = HashSet::new();
    for i in 0..52 {
        assert!(seen.insert((suits[i], ranks[i])));
    }
    assert_eq!(seen.len(), 52);
}

#[test]
fn shuffle_preserves_card_identities() {
    let (suits0, ranks0, _) = new_deck();
    let pairs_before: HashSet<(u8, u8)> =
        suits0.iter().zip(&ranks0).map(|(&s, &r)| (s, r)).collect();

    let (mut suits, mut ranks, mut locations) = new_deck();
    let mut dealt_at = vec![u32::MAX; N_CARDS];
    let mut ids: Vec<u32> = (0..52).collect();
    let mut order: Vec<usize> = (0..N_CARDS).collect();
    let mut rng = Lcg::new(42);
    fisher_yates_shuffle(&mut order, &mut rng);
    reorder_deck(&mut suits, &mut ranks, &mut locations, &mut dealt_at, &mut ids, &order);

    let after_pairs: HashSet<(u8, u8)> = suits.iter().zip(&ranks).map(|(&s, &r)| (s, r)).collect();
    assert_eq!(pairs_before, after_pairs);
}

#[test]
fn sort_does_not_break_id_lookup() {
    let (mut suits, mut ranks, mut locations) = new_deck();
    let mut dealt_at = vec![u32::MAX; N_CARDS];
    let mut ids: Vec<u32> = (0..52).collect();

    let mut order: Vec<usize> = (0..N_CARDS).collect();
    let mut rng = Lcg::new(42);
    fisher_yates_shuffle(&mut order, &mut rng);
    reorder_deck(&mut suits, &mut ranks, &mut locations, &mut dealt_at, &mut ids, &order);
    deal_to(&mut locations, 1, 5);

    let held_before = cards_held_by(&locations, &ids, 1);
    let cards_before: Vec<(u8, u8)> = held_before
        .iter()
        .map(|&id| {
            let s = slot_of(&ids, id).unwrap();
            (suits[s], ranks[s])
        })
        .collect();

    sort_deck_by_suit_then_rank(&mut suits, &mut ranks, &mut locations, &mut dealt_at, &mut ids);

    let held_after = cards_held_by(&locations, &ids, 1);
    let cards_after: Vec<(u8, u8)> = held_after
        .iter()
        .map(|&id| {
            let s = slot_of(&ids, id).unwrap();
            (suits[s], ranks[s])
        })
        .collect();

    assert_eq!(
        held_before.iter().copied().collect::<HashSet<_>>(),
        held_after.iter().copied().collect::<HashSet<_>>(),
        "id set unchanged"
    );
    assert_eq!(
        cards_before.iter().collect::<HashSet<_>>(),
        cards_after.iter().collect::<HashSet<_>>(),
        "(suit, rank) pairs unchanged"
    );
}

#[test]
fn deal_moves_cards_out_of_deck() {
    let (_suits, _ranks, mut locations) = new_deck();
    deal_to(&mut locations, 1, 5);
    let counts = count_by_location(&locations);
    assert_eq!(counts[0], 47);
    assert_eq!(counts[1], 5);
}

#[test]
fn highest_rank_in_empty_hand_is_none() {
    let (_, ranks, _) = new_deck();
    let ids: Vec<u32> = (0..52).collect();
    assert_eq!(highest_rank_in_hand(&[], &ids, &ranks), None);
}

#[test]
fn new_deck_orders_suits_then_ranks() {
    let (suits, ranks, _) = new_deck();
    assert_eq!((suits[0], ranks[0]), (0, 1));
    assert_eq!((suits[12], ranks[12]), (0, 13));
    assert_eq!((suits[13], ranks[13]), (1, 1));
    assert_eq!((suits[51], ranks[51]), (3, 13));
}

#[test]
fn sorting_a_shuffled_deck_restores_the_fresh_order() {
    let (mut suits, mut ranks, mut locations) = new_deck();
    let mut dealt_at = vec![u32::MAX; N_CARDS];
    let mut ids: Vec<u32> = (0..52).collect();
    let mut order: Vec<usize> = (0..N_CARDS).collect();
    let mut rng = Lcg::new(7);
    fisher_yates_shuffle(&mut order, &mut rng);
    reorder_deck(&mut suits, &mut ranks, &mut locations, &mut dealt_at, &mut ids, &order);
    sort_deck_by_suit_then_rank(&mut suits, &mut ranks, &mut locations, &mut dealt_at, &mut ids);
    let (fresh_suits, fresh_ranks, _) = new_deck();
    assert_eq!(suits, fresh_suits);
    assert_eq!(ranks, fresh_ranks);
    // ids travel with their cards: the fresh deck's card k had id k
    assert_eq!(ids, (0..52).collect::<Vec<u32>>());
}

#[test]
fn shuffle_is_a_permutation_of_slots() {
    let mut order: Vec<usize> = (0..N_CARDS).collect();
    let mut rng = Lcg::new(0x1234_5678);
    fisher_yates_shuffle(&mut order, &mut rng);
    let mut sorted = order.clone();
    sorted.sort();
    assert_eq!(sorted, (0..N_CARDS).collect::<Vec<usize>>());
    assert_ne!(order, (0..N_CARDS).collect::<Vec<usize>>());
}

#[test]
fn lcg_step_matches_numerical_recipes_constants() {
    let mut rng = Lcg::new(1);
    let expected = 1u64.wrapping_mul(6364136223846793005).wrapping_add(1442695040888963407);
    assert_eq!(rng.next(), expected);
    assert_eq!(rng.state, expected);
    let r = rng.next_range(10);
    assert_eq!(r, rng.state % 10);
}

#[test]
fn row_reads_one_slot_of_every_column() {
    let (suits, ranks, locations) = new_deck();
    let dealt_at = vec![7u32; N_CARDS];
    let ids: Vec<u32> = (100..152).collect();
    assert_eq!(row(&suits, &ranks, &locations, &dealt_at, &ids, 17), (1, 5, 0, 7, 117));
}

#[test]
fn slot_of_finds_first_and_misses_absent() {
    let ids = vec![5u32, 9, 5, 2];
    assert_eq!(slot_of(&ids, 5), Some(0));
    assert_eq!(slot_of(&ids, 2), Some(3));
    assert_eq!(slot_of(&ids, 8), None);
}

#[test]
fn held_cards_and_highest_rank() {
    let (_suits, ranks, mut locations) = new_deck();
    let ids: Vec<u32> = (0..52).collect();
    locations[3] = 2;
    locations[20] = 2;
    locations[40] = 3;
    assert_eq!(cards_held_by(&locations, &ids, 2), vec![3, 20]);
    // slot 3 is the 4 of spades, slot 20 the 8 of hearts
    assert_eq!(highest_rank_in_hand(&[3, 20, 99], &ids, &ranks), Some(8));
    let counts = count_by_location(&locations);
    assert_eq!(counts, [49, 0, 2, 1, 0, 0]);
}

#[test]
fn card_names() {
    assert_eq!(card_to_string(0, 1), "A♠");
    assert_eq!(card_to_string(1, 10), "10♥");
    assert_eq!(card_to_string(2, 12), "Q♦");
    assert_eq!(card_to_string(3, 7), "7♣");
}
