use soa_lab::chase::{build_shuffled_list, drop_list, sum_list, ListNode};

fn values(head: &ListNode) -> Vec<u64> {
    let mut v = vec![head.value];
    let mut cur = &head.next;
    while let Some(n) = cur {
        v.push(n.value);
        cur = &n.next;
    }
    v
}

#[test]
fn list_holds_every_value_once_in_shuffled_order() {
    let n = 1000;
    let head = build_shuffled_list(n);
    let v = values(&head);
    assert_eq!(v.len(), n);
    let mut sorted = v.clone();
    sorted.sort_unstable();
    assert_eq!(sorted, (0..n as u64).collect::<Vec<u64>>());
    assert_ne!(v, sorted, "the chain is scrambled");
    assert_eq!(sum_list(&head), (n as u64 * (n as u64 - 1)) / 2);
    drop_list(head);
}

#[test]
fn shuffle_is_the_seeded_fisher_yates() {
    let n = 50usize;
    let mut order: Vec<u64> = (0..n as u64).collect();
    let mut s = 0x1234_5678u64;
    for i in (1..n).rev() {
        s = s.wrapping_mul(6364136223846793005).wrapping_add(1442695040888963407);
        let j = (s % (i as u64 + 1)) as usize;
        order.swap(i, j);
    }
    assert_eq!(values(&build_shuffled_list(n)), order);
}

#[test]
fn long_lists_drop_without_recursion() {
    let head = build_shuffled_list(1_000_000);
    assert_eq!(sum_list(&head), 1_000_000u64 * 999_999 / 2);
    drop_list(head);
}

#[test]
fn single_node_list() {
    let head = build_shuffled_list(1);
    assert_eq!(values(&head), vec![0]);
    assert_eq!(sum_list(&head), 0);
}
