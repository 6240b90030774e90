use soa_lab::sim::{herd_sizes, maintain_sub, pack_column, replay_live_ids, series_range, slots, ForagePatch, Rng, World, INVALID};

#[test]
fn rng_is_splitmix64() {
    // With its state at zero, splitmix64 yields the published reference sequence.
    let mut r = Rng::new(0u64.wrapping_sub(0x9E37_79B9_7F4A_7C15));
    assert_eq!(r.next_u64(), 0xE220_A839_7B1D_CDAF);
    assert_eq!(r.next_u64(), 0x6E78_9E6A_A1B9_65F4);
    assert_eq!(r.next_u64(), 0x06C4_5D18_8009_454F);
}

#[test]
fn rng_is_seed_deterministic() {
    let mut a = Rng::new(42);
    let mut b = Rng::new(42);
    let mut c = Rng::new(43);
    let xs: Vec<u64> = (0..8).map(|_| a.next_u64()).collect();
    let ys: Vec<u64> = (0..8).map(|_| b.next_u64()).collect();
    let zs: Vec<u64> = (0..8).map(|_| c.next_u64()).collect();
    assert_eq!(xs, ys);
    assert_ne!(xs, zs);
}

#[test]
fn founders_take_fresh_ids_and_slots() {
    let mut w = World::new(10);
    let a = w.spawn_founders(3);
    let b = w.spawn_founders(2);
    assert_eq!(a, vec![0, 1, 2]);
    assert_eq!(b, vec![3, 4]);
    assert_eq!(w.n_active, 5);
    assert_eq!(&w.id_to_slot[..5], &[0, 1, 2, 3, 4]);
    assert_eq!(w.live_ids_of(), vec![0, 1, 2, 3, 4]);
}

#[test]
fn registry_lends_and_takes_back_ids() {
    let mut w = World::new(8);
    let ids = w.spawn_founders(4);
    w.register("grass", ids[..2].to_vec());
    w.register("grazer", ids[2..].to_vec());
    assert_eq!(w.sub("grazer"), &[2, 3]);
    let lent = w.take_sub("grass");
    assert_eq!(lent, vec![0, 1]);
    assert!(w.sub("grass").is_empty());
    w.put_sub("grass", lent);
    assert_eq!(w.sub("grass"), &[0, 1]);
}

fn patch(forager_slots: Vec<usize>, target_ids: Vec<u32>) -> ForagePatch {
    ForagePatch { forager_slots, target_ids }
}

#[test]
fn apply_commits_deaths_meals_and_births() {
    let mut w = World::new(10);
    let ids = w.spawn_founders(4);
    w.register("grass", ids[..2].to_vec());
    w.register("grazer", ids[2..].to_vec());

    // Grazer 2 (slot 2) eats grass 0; grass 1 starves; grazer 2 would starve but fed.
    let a = w.apply(&[patch(vec![2], vec![0])], &[], &[], &[1, 2]).unwrap();
    assert_eq!(a.dead_index, vec![0]);
    assert!(a.child_ids.is_empty());
    assert_eq!(w.live_ids_of(), vec![2, 3]);
    assert_eq!(w.sub("grass"), &[] as &[u32]);
    assert_eq!(w.sub("grazer"), &[2, 3]);
    assert_eq!(w.id_to_slot[0], INVALID);
    assert_eq!(w.id_to_slot[1], INVALID);

    // Grazer 3 fissions into two offspring of herd 7 at the tail.
    let a = w.apply(&[], &[3], &[7, 7], &[]).unwrap();
    assert_eq!(a.child_ids, vec![4, 5]);
    assert_eq!(a.parent_of_child, vec![3, 3]);
    assert_eq!(a.first_child_slot, 4);
    assert!(a.packed.is_none());
    assert_eq!(w.next_id, 6);
    assert_eq!(w.id_to_slot[4], 4);
    assert_eq!(w.id_to_slot[5], 5);
    assert_eq!(w.herd[4], 7);
    assert_eq!(w.sub("grazer"), &[2, 4, 5]);
    assert_eq!(w.live_ids_of(), vec![2, 4, 5]);
    assert_eq!(w.inspect(), vec![0, 3]);

    // The log replays to the same live set.
    let born = [0, 1, 2, 3, 4, 5];
    let dead = [1, 0, 3];
    assert_eq!(replay_live_ids(&born, &dead), w.live_ids_of());
}

#[test]
fn cleanup_compacts_on_the_interval() {
    let mut w = World::new(10);
    let ids = w.spawn_founders(4);
    w.register("all", ids.clone());
    w.apply(&[], &[], &[], &[0, 2]).unwrap();
    assert_eq!(w.n_active, 4);
    let keep = w.cleanup(30).unwrap();
    assert_eq!(keep, vec![false, true, false, true]);
    assert_eq!(w.n_active, 2);
    assert_eq!(w.gc_runs, 1);
    assert_eq!(w.id_to_slot[1], 0);
    assert_eq!(w.id_to_slot[3], 1);
    assert_eq!(w.live_ids_of(), vec![1, 3]);
    assert_eq!(w.peak_n_active, 4);
    // Nothing dead any more: the pass has nothing to do.
    assert!(w.cleanup(30).is_none());
    assert_eq!(w.n_active, 2);
}

#[test]
fn births_fill_the_tail_without_compaction_when_they_fit() {
    let mut w = World::new(6);
    let ids = w.spawn_founders(2);
    w.register("all", ids);
    let a = w.apply(&[], &[1], &[0, 0], &[0]).unwrap();
    assert!(a.packed.is_none());
    assert_eq!(a.first_child_slot, 2);
    assert_eq!(a.child_ids, vec![2, 3]);
    assert_eq!(w.live_ids_of(), vec![2, 3]);
    assert_eq!(w.sub("all"), &[2, 3]);
}

#[test]
fn pack_column_keeps_marked_rows_in_order() {
    let mut col = vec![10, 11, 12, 13, 14];
    pack_column(&mut col, &[true, false, false, true, true], 5);
    assert_eq!(&col[..3], &[10, 13, 14]);
}

#[test]
fn slots_drop_gone_ids() {
    let id_to_slot = [3, INVALID, 0, 7];
    assert_eq!(slots(&[0, 1, 2, 3], &id_to_slot), vec![3, 0, 7]);
}

#[test]
fn subscriptions_drop_the_gone_and_adopt_offspring() {
    let id_to_slot = [0, INVALID, 2, 3, 4, 5];
    let mut sub = vec![0, 1, 2];
    maintain_sub(&mut sub, &[2, 3], &[2, 2, 3, 3], &[4, 5, 6, 7], &id_to_slot, true);
    assert_eq!(sub, vec![0, 2, 4, 5]);
}

#[test]
fn replay_is_born_minus_dead_ascending() {
    assert_eq!(replay_live_ids(&[5, 1, 3, 9], &[3, 7]), vec![1, 5, 9]);
    assert!(replay_live_ids(&[], &[1]).is_empty());
}

#[test]
fn series_range_spans_the_extremes() {
    assert_eq!(series_range(&[]), None);
    assert_eq!(series_range(&[5]), Some((5, 5)));
    assert_eq!(series_range(&[3, -2, 9, 9, 0]), Some((-2, 9)));
}

#[test]
fn rng_stream_is_splitmix_from_the_seed() {
    let g: u64 = 0x9E37_79B9_7F4A_7C15;
    let mix = |mut z: u64| {
        z = (z ^ (z >> 30)).wrapping_mul(0xBF58_476D_1CE4_E5B9);
        z = (z ^ (z >> 27)).wrapping_mul(0x94D0_49BB_1331_11EB);
        z ^ (z >> 31)
    };
    let seed = 42u64;
    let mut rng = Rng::new(seed);
    for k in 1..=6u64 {
        assert_eq!(rng.next_u64(), mix(seed.wrapping_add(g.wrapping_mul(k + 1))), "draw {k}");
    }
}

#[test]
fn herd_sizes_count_members_per_herd() {
    let herd = [0u32, 2, 2, 1, 2, 0];
    assert_eq!(herd_sizes(&herd, &[0, 1, 2, 4], 3), vec![1, 0, 3]);
    assert_eq!(herd_sizes(&herd, &[], 2), vec![0, 0]);
}

#[test]
fn split_moves_flagged_members_to_a_new_herd() {
    let mut w = World::new(8);
    w.spawn_founders(4);
    let before = w.next_herd_id;
    w.split_herd(&[1, 2, 3], &[true, false, true]);
    assert_eq!(w.next_herd_id, before + 1);
    assert_eq!(&w.herd[..4], &[0, before, 0, before]);
}
