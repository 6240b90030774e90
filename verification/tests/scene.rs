use soa_lab::lcg::Lcg;
use soa_lab::scene::{iters_for, Tree, NO_PARENT};

fn has_ancestor(t: &Tree, mut node: u32, anc: u32) -> bool {
    while node != NO_PARENT {
        if node == anc {
            return true;
        }
        node = t.parent[node as usize];
    }
    false
}

#[test]
fn subtree_ranges_are_contiguous() {
    let mut rng = Lcg::new(0x2468);
    let scene = Tree::generate(10_000, &mut rng);
    for m in [0u32, 1, 50, 500, 4000] {
        let end = m + scene.subtree[m as usize];
        for j in m..end {
            assert!(has_ancestor(&scene, j, m), "{j} should be in subtree of {m}");
        }
        if (end as usize) < scene.len() {
            assert!(!has_ancestor(&scene, end, m), "{end} should not be in subtree of {m}");
        }
    }
}

#[test]
fn generated_tree_is_preorder() {
    let mut rng = Lcg::new(7);
    let t = Tree::generate(5000, &mut rng);
    assert!(t.len() >= 1 && t.len() <= 5000);
    assert_eq!(t.parent[0], NO_PARENT);
    assert_eq!(t.subtree[0] as usize, t.len());
    for i in 1..t.len() {
        assert!((t.parent[i] as usize) < i, "parent precedes child");
    }
    // A subtree's size is one plus its children's.
    let mut sum = vec![1u32; t.len()];
    for i in (1..t.len()).rev() {
        let p = t.parent[i] as usize;
        sum[p] += sum[i];
    }
    assert_eq!(sum, t.subtree);
}

#[test]
fn empty_target_still_grows_the_root() {
    let t = Tree::generate(0, &mut Lcg::new(1));
    assert_eq!(t.len(), 1);
    assert_eq!(t.subtree, vec![1]);
}

#[test]
fn contiguous_dirty_set_is_the_closest_subtree() {
    let t = Tree::generate(20_000, &mut Lcg::new(12345));
    let want = 1000u32;
    let d = t.dirty_contiguous(want);
    let best = d[0] as usize;
    assert_eq!(d, (d[0]..d[0] + t.subtree[best]).collect::<Vec<u32>>());
    let err = t.subtree[best].abs_diff(want);
    for i in 0..t.len() {
        assert!(t.subtree[i].abs_diff(want) >= err);
        if i < best {
            assert!(t.subtree[i].abs_diff(want) > err, "the first closest is taken");
        }
    }
}

#[test]
fn scattered_dirty_set_is_distinct_leaves() {
    let t = Tree::generate(20_000, &mut Lcg::new(12345));
    let d = t.dirty_scattered(100, &mut Lcg::new(5));
    assert_eq!(d.len(), 100);
    assert!(d.windows(2).all(|w| w[0] < w[1]));
    assert!(d.iter().all(|&i| t.subtree[i as usize] == 1));
}

#[test]
fn fraction_dirty_set_is_closed_and_bounded() {
    let t = Tree::generate(20_000, &mut Lcg::new(99));
    let want = t.len() / 10;
    let d = t.dirty_fraction(want, &mut Lcg::new(3));
    assert!(d.len() <= want);
    assert!(d.len() > want / 2, "the budget is mostly spent");
    assert!(d.windows(2).all(|w| w[0] < w[1]));
    let set: std::collections::HashSet<u32> = d.iter().copied().collect();
    for &m in &d {
        for q in m..m + t.subtree[m as usize] {
            assert!(set.contains(&q), "{q} under dirty {m}");
        }
    }
    assert!(t.dirty_fraction(t.len(), &mut Lcg::new(3)).len() <= t.len());
}

#[test]
fn scene_iterations_clamp() {
    assert_eq!(iters_for(1), 20_000);
    assert_eq!(iters_for(5_000), 10_000);
    assert_eq!(iters_for(10_000_000), 20);
}
