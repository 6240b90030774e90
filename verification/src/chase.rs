use vstd::prelude::*;
use crate::deck::{fisher_yates_shuffle, shuffle_is_rearrangement, shuffle_spec};
use crate::lcg::Lcg;
use crate::measure::seq_sum;

verus! {

/// A node of a singly linked list of values.
pub struct ListNode {
    pub value: u64,
    pub next: Option<Box<ListNode>>,
}

/// The values of the list that starts at `o`, in traversal order.
pub open spec fn chain_values(o: Option<Box<ListNode>>) -> Seq<u64>
    decreases o,
{
    match o {
        None => Seq::empty(),
        Some(b) => seq![b.value] + chain_values(b.next),
    }
}

/// The values of the list headed by `n`, in traversal order.
pub open spec fn list_values(n: ListNode) -> Seq<u64> {
    seq![n.value] + chain_values(n.next)
}

/// The sum of two sequences placed end to end.
pub proof fn lemma_seq_sum_concat(a: Seq<u64>, b: Seq<u64>)
    ensures
        seq_sum(a + b) == seq_sum(a) + seq_sum(b),
    decreases b.len(),
{
    if b.len() == 0 {
        assert(a + b =~= a);
    } else {
        assert((a + b).drop_last() =~= a + b.drop_last());
        lemma_seq_sum_concat(a, b.drop_last());
    }
}

proof fn lemma_seq_sum_nonneg(s: Seq<u64>)
    ensures
        seq_sum(s) >= 0,
    decreases s.len(),
{
    if s.len() > 0 {
        lemma_seq_sum_nonneg(s.drop_last());
    }
}

/// Walk the list from `head`, adding the values.
pub fn sum_list(head: &ListNode) -> (r: u64)
    requires
        seq_sum(list_values(*head)) <= u64::MAX,
    ensures
        r == seq_sum(list_values(*head)),
{
    let ghost whole = list_values(*head);
    proof {
        lemma_seq_sum_concat(seq![head.value], chain_values(head.next));
        assert(seq_sum(seq![head.value]) == head.value) by {
            reveal_with_fuel(seq_sum, 2);
            assert(seq![head.value].drop_last() =~= Seq::<u64>::empty());
        }
    }
    let mut total: u64 = head.value;
    let mut cur: &Option<Box<ListNode>> = &head.next;
    loop
        invariant
            whole == list_values(*head),
            total + seq_sum(chain_values(*cur)) == seq_sum(whole),
            seq_sum(whole) <= u64::MAX,
        decreases chain_values(*cur).len(),
    {
        match cur {
            Some(n) => {
                proof {
                    lemma_seq_sum_concat(seq![n.value], chain_values(n.next));
                    assert(seq_sum(seq![n.value]) == n.value) by {
                        reveal_with_fuel(seq_sum, 2);
                        assert(seq![n.value].drop_last() =~= Seq::<u64>::empty());
                    }
                    lemma_seq_sum_nonneg(chain_values(n.next));
                }
                total = total + n.value;
                cur = &n.next;
            },
            None => {
                return total;
            },
        }
    }
}

/// A list of the values `0..n` whose links follow a Fisher-Yates shuffle of them (seed
/// `0x1234_5678`): traversal visits the values, and so the nodes, in scrambled order.
pub fn build_shuffled_list(n: usize) -> (head: Box<ListNode>)
    requires
        n >= 1,
    ensures
        list_values(*head) == shuffle_spec(Seq::new(n as nat, |i: int| i as usize), 0x1234_5678).0.map_values(
            |v: usize| v as u64,
        ),
{
    let mut order: Vec<usize> = Vec::new();
    let mut i: usize = 0;
    while i < n
        invariant
            i <= n,
            order@ == Seq::new(i as nat, |k: int| k as usize),
        decreases n - i,
    {
        order.push(i);
        i += 1;
        assert(order@ =~= Seq::new(i as nat, |k: int| k as usize));
    }
    let mut rng = Lcg::new(0x1234_5678);
    proof {
        shuffle_is_rearrangement(order@, 0x1234_5678);
    }
    fisher_yates_shuffle(&mut order, &mut rng);
    let ghost target = order@.map_values(|v: usize| v as u64);
    let mut head: Option<Box<ListNode>> = None;
    let mut k: usize = order.len();
    while k > 0
        invariant
            k <= order@.len(),
            order@.len() == n,
            target == order@.map_values(|v: usize| v as u64),
            chain_values(head) == target.skip(k as int),
        decreases k,
    {
        k -= 1;
        let node = Box::new(ListNode { value: order[k] as u64, next: head });
        head = Some(node);
        assert(target.skip(k as int) =~= seq![target[k as int]] + target.skip(k + 1));
    }
    match head {
        Some(b) => {
            assert(target.skip(0) == target);
            b
        },
        None => {
            assert(target.skip(0).len() == n);
            Box::new(ListNode { value: 0, next: None })
        },
    }
}

/// Take the list apart node by node (a recursive drop of a long list would exhaust
/// the stack).
pub fn drop_list(head: Box<ListNode>) {
    let mut cur: Option<Box<ListNode>> = Some(head);
    loop
        decreases chain_values(cur).len(),
    {
        match cur {
            Some(node) => {
                let ListNode { value: _, next } = *node;
                cur = next;
            },
            None => {
                return;
            },
        }
    }
}

} // verus!
