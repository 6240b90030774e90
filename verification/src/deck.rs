use vstd::prelude::*;

use crate::lcg::{lcg_step, Lcg};

verus! {

/// The number of cards in a fresh deck.
pub const N_CARDS: usize = 52;

/// Suit of the card at slot `i` of a fresh deck (0 = spades .. 3 = clubs).
pub open spec fn fresh_suit(i: int) -> u8 {
    (i / 13) as u8
}

/// Rank of the card at slot `i` of a fresh deck (1 = ace .. 13 = king).
pub open spec fn fresh_rank(i: int) -> u8 {
    (i % 13 + 1) as u8
}

/// A fresh deck as three columns (suits, ranks, locations): suit-major, ranks ascending,
/// every card in the deck (location 0).
pub fn new_deck() -> (r: (Vec<u8>, Vec<u8>, Vec<u8>))
    ensures
        r.0@.len() == N_CARDS,
        r.1@.len() == N_CARDS,
        r.2@.len() == N_CARDS,
        forall|i: int|
            0 <= i < N_CARDS ==> r.0@[i] == fresh_suit(i) && r.1@[i] == fresh_rank(i) && r.2@[i]
                == 0,
{
    let mut suits: Vec<u8> = Vec::with_capacity(N_CARDS);
    let mut ranks: Vec<u8> = Vec::with_capacity(N_CARDS);
    let mut locations: Vec<u8> = Vec::with_capacity(N_CARDS);
    let mut s: u8 = 0;
    while s < 4
        invariant
            s <= 4,
            suits.len() == 13 * s,
            ranks.len() == 13 * s,
            locations.len() == 13 * s,
            forall|i: int|
                0 <= i < 13 * s ==> suits@[i] == fresh_suit(i) && ranks@[i] == fresh_rank(i)
                    && locations@[i] == 0,
        decreases 4 - s,
    {
        let mut r: u8 = 1;
        while r <= 13
            invariant
                s < 4,
                1 <= r <= 14,
                suits.len() == 13 * s + r - 1,
                ranks.len() == 13 * s + r - 1,
                locations.len() == 13 * s + r - 1,
                forall|i: int|
                    0 <= i < 13 * s + r - 1 ==> suits@[i] == fresh_suit(i) && ranks@[i]
                        == fresh_rank(i) && locations@[i] == 0,
            decreases 14 - r,
        {
            let ghost idx: int = 13 * s + r - 1;
            assert(idx / 13 == s && idx % 13 + 1 == r) by (nonlinear_arith)
                requires
                    idx == 13 * s + r - 1,
                    1 <= r <= 13,
                    0 <= s,
            ;
            suits.push(s);
            ranks.push(r);
            locations.push(0);
            r += 1;
        }
        s += 1;
    }
    (suits, ranks, locations)
}

/// Two distinct slots of a fresh deck hold distinct (suit, rank) pairs.
pub proof fn fresh_deck_cards_distinct(i: int, j: int)
    requires
        0 <= i < N_CARDS,
        0 <= j < N_CARDS,
        i != j,
    ensures
        fresh_suit(i) != fresh_suit(j) || fresh_rank(i) != fresh_rank(j),
{
    assert(i / 13 != j / 13 || i % 13 != j % 13) by (nonlinear_arith)
        requires
            0 <= i < 52,
            0 <= j < 52,
            i != j,
    ;
}

/// The row at slot `i`: the same index read against every column.
pub fn row(
    suits: &[u8],
    ranks: &[u8],
    locations: &[u8],
    dealt_at: &[u32],
    ids: &[u32],
    i: usize,
) -> (r: (u8, u8, u8, u32, u32))
    requires
        i < suits@.len(),
        i < ranks@.len(),
        i < locations@.len(),
        i < dealt_at@.len(),
        i < ids@.len(),
    ensures
        r == (suits@[i as int], ranks@[i as int], locations@[i as int], dealt_at@[i as int], ids@[i as int]),
{
    (suits[i], ranks[i], locations[i], dealt_at[i], ids[i])
}

/// How many entries of `s` equal `v`.
pub open spec fn count_eq(s: Seq<u8>, v: u8) -> nat
    decreases s.len(),
{
    if s.len() == 0 {
        0
    } else {
        count_eq(s.drop_last(), v) + if s.last() == v {
            1nat
        } else {
            0nat
        }
    }
}

/// Number of cards at each location 0..6 (deck, four players, discard).
pub fn count_by_location(locations: &[u8]) -> (r: [usize; 6])
    requires
        forall|i: int| 0 <= i < locations@.len() ==> locations@[i] < 6,
    ensures
        forall|l: int| 0 <= l < 6 ==> r@[l] == count_eq(locations@, l as u8),
{
    let mut counts = [0usize; 6];
    let mut i: usize = 0;
    while i < locations.len()
        invariant
            i <= locations@.len(),
            forall|k: int| 0 <= k < locations@.len() ==> locations@[k] < 6,
            forall|l: int| 0 <= l < 6 ==> counts@[l] == count_eq(locations@.take(i as int), l as u8),
            forall|l: int| 0 <= l < 6 ==> counts@[l] <= i,
        decreases locations@.len() - i,
    {
        let l = locations[i] as usize;
        assert(locations@.take(i + 1).drop_last() == locations@.take(i as int));
        counts[l] = counts[l] + 1;
        i += 1;
    }
    assert(locations@.take(locations@.len() as int) == locations@);
    counts
}

/// The first slot holding `target`, if any.
pub open spec fn first_slot(ids: Seq<u32>, target: u32) -> Option<int>
    decreases ids.len(),
{
    if ids.len() == 0 {
        None
    } else {
        match first_slot(ids.drop_last(), target) {
            Some(k) => Some(k),
            None => if ids.last() == target {
                Some(ids.len() - 1)
            } else {
                None
            },
        }
    }
}

/// `first_slot` finds the lowest slot holding the target, and only misses an absent target.
pub proof fn lemma_first_slot(ids: Seq<u32>, target: u32)
    ensures
        match first_slot(ids, target) {
            Some(k) => 0 <= k < ids.len() && ids[k] == target && forall|j: int|
                0 <= j < k ==> ids[j] != target,
            None => forall|j: int| 0 <= j < ids.len() ==> ids[j] != target,
        },
    decreases ids.len(),
{
    if ids.len() > 0 {
        let pre = ids.drop_last();
        lemma_first_slot(pre, target);
        assert(forall|j: int| 0 <= j < pre.len() ==> pre[j] == ids[j]);
    }
}

/// Linear search for the slot of a stable id.
pub fn slot_of(ids: &[u32], target: u32) -> (r: Option<usize>)
    ensures
        r == match first_slot(ids@, target) {
            Some(k) => Some(k as usize),
            None => None::<usize>,
        },
        r matches Some(k) ==> k < ids@.len() && ids@[k as int] == target && forall|j: int| 0 <= j < k ==> ids@[j] != target,
        r is None ==> forall|j: int| 0 <= j < ids@.len() ==> ids@[j] != target,
{
    proof {
        lemma_first_slot(ids@, target);
    }
    let mut i: usize = 0;
    while i < ids.len()
        invariant
            i <= ids@.len(),
            forall|j: int| 0 <= j < i ==> ids@[j] != target,
        decreases ids@.len() - i,
    {
        if ids[i] == target {
            proof {
                lemma_first_slot(ids@, target);
                match first_slot(ids@, target) {
                    Some(k) => {
                        assert(k == i);
                    },
                    None => {},
                }
            }
            return Some(i);
        }
        i += 1;
    }
    proof {
        lemma_first_slot(ids@, target);
    }
    None
}

/// The ids, in slot order, of the cards whose location is `player`.
pub open spec fn held_by(locations: Seq<u8>, ids: Seq<u32>, player: u8) -> Seq<u32>
    decreases locations.len(),
{
    if locations.len() == 0 {
        Seq::empty()
    } else {
        let n = locations.len() - 1;
        let pre = held_by(locations.drop_last(), ids, player);
        if locations[n] == player {
            pre.push(ids[n])
        } else {
            pre
        }
    }
}

/// Returns the ids (not slots) of the cards held by `player`, in slot order.
pub fn cards_held_by(locations: &[u8], ids: &[u32], player: u8) -> (r: Vec<u32>)
    requires
        forall|i: int| 0 <= i < locations@.len() && locations@[i] == player ==> i < ids@.len(),
    ensures
        r@ == held_by(locations@, ids@, player),
{
    let mut out: Vec<u32> = Vec::new();
    let mut i: usize = 0;
    while i < locations.len()
        invariant
            i <= locations@.len(),
            forall|k: int| 0 <= k < locations@.len() && locations@[k] == player ==> k < ids@.len(),
            out@ == held_by(locations@.take(i as int), ids@, player),
        decreases locations@.len() - i,
    {
        assert(locations@.take(i + 1).drop_last() == locations@.take(i as int));
        if locations[i] == player {
            out.push(ids[i]);
        }
        i += 1;
    }
    assert(locations@.take(locations@.len() as int) == locations@);
    out
}


/// `s` with the entries at `i` and `j` exchanged.
pub open spec fn swapped(s: Seq<usize>, i: int, j: int) -> Seq<usize> {
    s.update(i, s[j]).update(j, s[i])
}

/// Fisher-Yates from position `i` down to 1: at each `i` the generator steps and the
/// entry at `i` is exchanged with the one at `state % (i + 1)`. Returns the final
/// sequence and generator state.
pub open spec fn shuffle_from(s: Seq<usize>, state: u64, i: nat) -> (Seq<usize>, u64)
    decreases i,
{
    if i == 0 {
        (s, state)
    } else {
        let st = lcg_step(state);
        let j = (st % ((i + 1) as u64)) as int;
        shuffle_from(swapped(s, i as int, j), st, (i - 1) as nat)
    }
}

/// The whole Fisher-Yates shuffle of `s` driven by a generator in state `state`.
pub open spec fn shuffle_spec(s: Seq<usize>, state: u64) -> (Seq<usize>, u64) {
    if s.len() <= 1 {
        (s, state)
    } else {
        shuffle_from(s, state, (s.len() - 1) as nat)
    }
}

/// Exchanging two entries keeps the multiset of entries.
pub proof fn lemma_swapped_multiset(s: Seq<usize>, i: int, j: int)
    requires
        0 <= i < s.len(),
        0 <= j < s.len(),
    ensures
        swapped(s, i, j).to_multiset() == s.to_multiset(),
        swapped(s, i, j).len() == s.len(),
{
    broadcast use vstd::seq_lib::group_to_multiset_ensures;
    let t = s.update(i, s[j]);
    vstd::seq_lib::to_multiset_update(s, i, s[j]);
    vstd::seq_lib::to_multiset_update(t, j, s[i]);
    assert(t[j] == s[j]);
    assert(swapped(s, i, j).to_multiset() =~= s.to_multiset());
}

/// Every step of the shuffle keeps the multiset of entries.
pub proof fn lemma_shuffle_from_multiset(s: Seq<usize>, state: u64, i: nat)
    requires
        i < s.len(),
        s.len() <= usize::MAX,
    ensures
        shuffle_from(s, state, i).0.to_multiset() == s.to_multiset(),
        shuffle_from(s, state, i).0.len() == s.len(),
    decreases i,
{
    if i > 0 {
        let st = lcg_step(state);
        let j = (st % ((i + 1) as u64)) as int;
        assert(j < i + 1) by (nonlinear_arith)
            requires
                j == (st % ((i + 1) as u64)) as int,
                i + 1 <= u64::MAX,
        ;
        lemma_swapped_multiset(s, i as int, j);
        lemma_shuffle_from_multiset(swapped(s, i as int, j), st, (i - 1) as nat);
    }
}

/// A shuffle rearranges its entries and never invents or loses one.
pub proof fn shuffle_is_rearrangement(s: Seq<usize>, state: u64)
    requires
        s.len() <= usize::MAX,
    ensures
        shuffle_spec(s, state).0.to_multiset() == s.to_multiset(),
        shuffle_spec(s, state).0.len() == s.len(),
{
    if s.len() > 1 {
        lemma_shuffle_from_multiset(s, state, (s.len() - 1) as nat);
    }
}

/// Fisher-Yates shuffle of `order` in place, drawing from `rng`.
pub fn fisher_yates_shuffle(order: &mut Vec<usize>, rng: &mut Lcg)
    ensures
        (final(order)@, final(rng).state) == shuffle_spec(old(order)@, old(rng).state),
        final(order)@.to_multiset() == old(order)@.to_multiset(),
{
    let n = order.len();
    proof {
        shuffle_is_rearrangement(order@, rng.state);
    }
    if n <= 1 {
        return;
    }
    let mut i: usize = n - 1;
    while i >= 1
        invariant
            i < n,
            order@.len() == n,
            shuffle_from(order@, rng.state, i as nat) == shuffle_spec(old(order)@, old(rng).state),
        decreases i,
    {
        let ghost before = order@;
        let j = rng.next_range(i as u64 + 1) as usize;
        let a = order[i];
        let b = order[j];
        order.set(i, b);
        order.set(j, a);
        assert(order@ == swapped(before, i as int, j as int));
        i -= 1;
    }
}

/// The entries of `col` taken in the sequence of slots `order`.
pub open spec fn gather<T>(col: Seq<T>, order: Seq<usize>) -> Seq<T> {
    Seq::new(order.len(), |k: int| col[order[k] as int])
}

/// `order` is a permutation of the slots `0..n`.
pub open spec fn is_permutation(order: Seq<usize>, n: nat) -> bool {
    order.to_multiset() == Seq::new(n, |i: int| i as usize).to_multiset()
}

fn gather_column<T: Copy>(col: &Vec<T>, order: &[usize]) -> (r: Vec<T>)
    requires
        forall|k: int| 0 <= k < order@.len() ==> order@[k] < col@.len(),
    ensures
        r@ == gather(col@, order@),
{
    let mut out: Vec<T> = Vec::with_capacity(order.len());
    let mut k: usize = 0;
    while k < order.len()
        invariant
            k <= order@.len(),
            forall|q: int| 0 <= q < order@.len() ==> order@[q] < col@.len(),
            out@ == gather(col@, order@.take(k as int)),
        decreases order@.len() - k,
    {
        out.push(col[order[k]]);
        k += 1;
        assert(out@ =~= gather(col@, order@.take(k as int)));
    }
    assert(order@.take(order@.len() as int) == order@);
    out
}

/// The single writer that reorders the deck: all five columns take the slots of `order`,
/// in lockstep.
pub fn reorder_deck(
    suits: &mut Vec<u8>,
    ranks: &mut Vec<u8>,
    locations: &mut Vec<u8>,
    dealt_at: &mut Vec<u32>,
    ids: &mut Vec<u32>,
    order: &[usize],
)
    requires
        forall|k: int|
            0 <= k < order@.len() ==> order@[k] < old(suits)@.len() && order@[k] < old(
                ranks,
            )@.len() && order@[k] < old(locations)@.len() && order@[k] < old(dealt_at)@.len()
                && order@[k] < old(ids)@.len(),
    ensures
        final(suits)@ == gather(old(suits)@, order@),
        final(ranks)@ == gather(old(ranks)@, order@),
        final(locations)@ == gather(old(locations)@, order@),
        final(dealt_at)@ == gather(old(dealt_at)@, order@),
        final(ids)@ == gather(old(ids)@, order@),
{
    let new_suits = gather_column(suits, order);
    let new_ranks = gather_column(ranks, order);
    let new_locations = gather_column(locations, order);
    let new_dealt_at = gather_column(dealt_at, order);
    let new_ids = gather_column(ids, order);
    *suits = new_suits;
    *ranks = new_ranks;
    *locations = new_locations;
    *dealt_at = new_dealt_at;
    *ids = new_ids;
}

/// A permutation of `0..n` reaches every slot below `n`.
pub proof fn lemma_permutation_covers(order: Seq<usize>, n: nat, i: int)
    requires
        is_permutation(order, n),
        0 <= i < n,
        n <= usize::MAX,
    ensures
        exists|k: int| 0 <= k < order.len() && order[k] == i,
{
    broadcast use vstd::seq_lib::group_to_multiset_ensures;
    let range = Seq::new(n, |q: int| q as usize);
    assert(range[i] == i as usize);
    assert(range.contains(i as usize));
    assert(order.to_multiset().count(i as usize) > 0);
    assert(order.contains(i as usize));
}

/// Row `i` of the columns `a`, `b` sits at some slot of the columns reordered by `order`.
pub open spec fn row_kept<A, B>(a: Seq<A>, b: Seq<B>, order: Seq<usize>, i: int) -> bool {
    exists|k: int|
        0 <= k < order.len() && #[trigger] gather(a, order)[k] == a[i] && gather(b, order)[k] == b[i]
}

/// Row `k` of the columns reordered by `order` is some row of `a`, `b`.
pub open spec fn row_came_from<A, B>(a: Seq<A>, b: Seq<B>, order: Seq<usize>, k: int) -> bool {
    exists|i: int| 0 <= i < a.len() && gather(a, order)[k] == #[trigger] a[i] && gather(b, order)[k] == b[i]
}

/// Reordering every column by a permutation keeps the set of rows: each row before is
/// found at some slot after, and each row after came from some slot before.
pub proof fn reorder_keeps_rows<A, B>(a: Seq<A>, b: Seq<B>, order: Seq<usize>)
    requires
        a.len() == b.len(),
        a.len() <= usize::MAX,
        is_permutation(order, a.len()),
    ensures
        forall|i: int| 0 <= i < a.len() ==> #[trigger] row_kept(a, b, order, i),
        forall|k: int| 0 <= k < order.len() ==> #[trigger] row_came_from(a, b, order, k),
{
    broadcast use vstd::seq_lib::group_to_multiset_ensures;
    let range = Seq::new(a.len(), |q: int| q as usize);
    assert forall|i: int| 0 <= i < a.len() implies #[trigger] row_kept(a, b, order, i) by {
        lemma_permutation_covers(order, a.len(), i);
        let k = choose|k: int| 0 <= k < order.len() && order[k] == i;
        assert(gather(a, order)[k] == a[i]);
        assert(gather(b, order)[k] == b[i]);
    }
    assert forall|k: int| 0 <= k < order.len() implies #[trigger] row_came_from(a, b, order, k) by {
        assert(order.contains(order[k]));
        assert(range.to_multiset().count(order[k]) > 0);
        assert(range.contains(order[k]));
        let w = choose|w: int| 0 <= w < range.len() && range[w] == order[k];
        assert(range[w] == w as usize);
        let i = order[k] as int;
        assert(i == w);
        assert(gather(b, order)[k] == b[i]);
        assert(gather(a, order)[k] == a[i]);
    }
}

/// The sort key of the card at slot `x`: suit first, then rank.
pub open spec fn card_key(suits: Seq<u8>, ranks: Seq<u8>, x: usize) -> int {
    suits[x as int] as int * 256 + ranks[x as int] as int
}

/// Slot `x` sorts before slot `y`: smaller (suit, rank), or equal cards in slot order
/// (a stable sort keeps equal keys in their original order).
pub open spec fn card_before(suits: Seq<u8>, ranks: Seq<u8>, x: usize, y: usize) -> bool {
    card_key(suits, ranks, x) < card_key(suits, ranks, y) || (card_key(suits, ranks, x)
        == card_key(suits, ranks, y) && x < y)
}

/// `p` is the stable sort of the slots `0..suits.len()` by (suit, rank).
pub open spec fn card_sort_order(suits: Seq<u8>, ranks: Seq<u8>, p: Seq<usize>) -> bool {
    &&& p.len() == suits.len()
    &&& is_permutation(p, suits.len())
    &&& forall|a: int, b: int|
        0 <= a < b < p.len() ==> card_before(suits, ranks, #[trigger] p[a], #[trigger] p[b])
}

fn card_key_of(suits: &Vec<u8>, ranks: &Vec<u8>, x: usize) -> (r: u16)
    requires
        x < suits@.len(),
        x < ranks@.len(),
    ensures
        r == card_key(suits@, ranks@, x),
{
    suits[x] as u16 * 256 + ranks[x] as u16
}

fn card_key_gt(suits: &Vec<u8>, ranks: &Vec<u8>, x: usize, y: usize) -> (r: bool)
    requires
        x < suits@.len(),
        x < ranks@.len(),
        y < suits@.len(),
        y < ranks@.len(),
    ensures
        r == (card_key(suits@, ranks@, x) > card_key(suits@, ranks@, y)),
{
    card_key_of(suits, ranks, x) > card_key_of(suits, ranks, y)
}

/// Stable insertion sort of the slots `0..n` by (suit, rank).
fn sort_slots_by_card(suits: &Vec<u8>, ranks: &Vec<u8>) -> (r: Vec<usize>)
    requires
        suits@.len() >= 2 ==> ranks@.len() >= suits@.len(),
    ensures
        card_sort_order(suits@, ranks@, r@),
{
    let n = suits.len();
    let mut order: Vec<usize> = Vec::with_capacity(n);
    let mut k: usize = 0;
    while k < n
        invariant
            k <= n,
            n == suits@.len(),
            order@ == Seq::new(k as nat, |i: int| i as usize),
        decreases n - k,
    {
        order.push(k);
        k += 1;
        assert(order@ =~= Seq::new(k as nat, |i: int| i as usize));
    }
    let ghost range = Seq::new(n as nat, |i: int| i as usize);
    if n < 2 {
        assert(order@ == range);
        return order;
    }
    let mut i: usize = 1;
    while i < n
        invariant
            1 <= i <= n,
            n == suits@.len(),
            n <= ranks@.len(),
            order@.len() == n,
            order@.to_multiset() == range.to_multiset(),
            forall|q: int| i <= q < n ==> order@[q] == q,
            forall|q: int| 0 <= q < i ==> order@[q] < i,
            forall|a: int, b: int|
                0 <= a < b < i ==> card_before(suits@, ranks@, #[trigger] order@[a], #[trigger] order@[b]),
        decreases n - i,
    {
        let mut j: usize = i;
        while j > 0 && card_key_gt(suits, ranks, order[j - 1], order[j])
            invariant
                1 <= i < n,
                0 <= j <= i,
                n == suits@.len(),
                n <= ranks@.len(),
                order@.len() == n,
                order@.to_multiset() == range.to_multiset(),
                forall|q: int| i < q < n ==> order@[q] == q,
                order@[j as int] == i,
                forall|q: int| 0 <= q <= i && q != j ==> order@[q] < i,
                forall|a: int, b: int|
                    0 <= a < b <= i && a != j && b != j ==> card_before(
                        suits@,
                        ranks@,
                        #[trigger] order@[a],
                        #[trigger] order@[b],
                    ),
                forall|q: int| j < q <= i ==> card_before(suits@, ranks@, i, #[trigger] order@[q]),
            decreases j,
        {
            let ghost before = order@;
            let x = order[j];
            let y = order[j - 1];
            order.set(j - 1, x);
            order.set(j, y);
            proof {
                assert(order@ == swapped(before, j as int, (j - 1) as int));
                lemma_swapped_multiset(before, j as int, (j - 1) as int);
            }
            j -= 1;
        }
        proof {
            if j > 0 {
                assert(order@[j - 1] < i);
                assert(card_before(suits@, ranks@, order@[j - 1], i));
            }
            assert forall|a: int, b: int| 0 <= a < b < i + 1 implies card_before(
                suits@,
                ranks@,
                #[trigger] order@[a],
                #[trigger] order@[b],
            ) by {
                if b == j {
                    assert(order@[a] < i);
                    if a < j - 1 {
                        assert(card_before(suits@, ranks@, order@[a], order@[j - 1]));
                    }
                }
            }
        }
        i += 1;
    }
    order
}

/// Sort the deck by (suit, rank), moving all five columns together.
pub fn sort_deck_by_suit_then_rank(
    suits: &mut Vec<u8>,
    ranks: &mut Vec<u8>,
    locations: &mut Vec<u8>,
    dealt_at: &mut Vec<u32>,
    ids: &mut Vec<u32>,
)
    requires
        old(suits)@.len() >= 2 ==> old(ranks)@.len() >= old(suits)@.len(),
        old(suits)@.len() > 0 ==> old(ranks)@.len() >= old(suits)@.len() && old(locations)@.len()
            >= old(suits)@.len() && old(dealt_at)@.len() >= old(suits)@.len() && old(
            ids,
        )@.len() >= old(suits)@.len(),
    ensures
        exists|p: Seq<usize>|
            #[trigger] card_sort_order(old(suits)@, old(ranks)@, p) && final(suits)@ == gather(
                old(suits)@,
                p,
            ) && final(ranks)@ == gather(old(ranks)@, p) && final(locations)@ == gather(
                old(locations)@,
                p,
            ) && final(dealt_at)@ == gather(old(dealt_at)@, p) && final(ids)@ == gather(
                old(ids)@,
                p,
            ),
{
    let order = sort_slots_by_card(suits, ranks);
    proof {
        broadcast use vstd::seq_lib::group_to_multiset_ensures;
        let range = Seq::new(suits@.len(), |i: int| i as usize);
        assert forall|k: int| 0 <= k < order@.len() implies order@[k] < suits@.len() by {
            assert(order@.contains(order@[k]));
            assert(range.to_multiset().count(order@[k]) > 0);
            assert(range.contains(order@[k]));
        }
    }
    reorder_deck(suits, ranks, locations, dealt_at, ids, order.as_slice());
}

/// Card `x` is held by `player` exactly when some slot has that location and that id.
pub proof fn lemma_held_by_contains(locations: Seq<u8>, ids: Seq<u32>, player: u8, x: u32)
    requires
        locations.len() <= ids.len(),
    ensures
        held_by(locations, ids, player).contains(x) <==> exists|k: int|
            0 <= k < locations.len() && locations[k] == player && #[trigger] ids[k] == x,
    decreases locations.len(),
{
    if locations.len() > 0 {
        let pre = locations.drop_last();
        lemma_held_by_contains(pre, ids, player, x);
        let n = locations.len() - 1;
        let h = held_by(pre, ids, player);
        if held_by(locations, ids, player).contains(x) {
            if locations[n] == player && ids[n] == x {
            } else {
                if locations[n] == player {
                    let w = choose|w: int| 0 <= w < h.push(ids[n]).len() && h.push(ids[n])[w] == x;
                    assert(w < h.len());
                    assert(h.contains(x));
                }
                let k = choose|k: int| 0 <= k < pre.len() && pre[k] == player && #[trigger] ids[k] == x;
                assert(locations[k] == player);
            }
        }
        if exists|k: int| 0 <= k < locations.len() && locations[k] == player && #[trigger] ids[k] == x {
            let k = choose|k: int| 0 <= k < locations.len() && locations[k] == player && #[trigger] ids[k] == x;
            if k < n {
                assert(pre[k] == player);
                assert(h.contains(x));
                let w = choose|w: int| 0 <= w < h.len() && h[w] == x;
                if locations[n] == player {
                    assert(h.push(ids[n])[w] == x);
                }
            } else {
                assert(h.push(ids[n])[h.len() as int] == x);
            }
        }
    }
}

/// Reordering the deck by a permutation keeps the set of ids that each player holds:
/// ids survive a reorder even though slots do not.
pub proof fn held_ids_survive_reorder(locations: Seq<u8>, ids: Seq<u32>, order: Seq<usize>, player: u8)
    requires
        locations.len() == ids.len(),
        locations.len() <= usize::MAX,
        is_permutation(order, locations.len()),
    ensures
        forall|x: u32|
            #[trigger] held_by(gather(locations, order), gather(ids, order), player).contains(x)
                <==> held_by(locations, ids, player).contains(x),
{
    reorder_keeps_rows(locations, ids, order);
    let gl = gather(locations, order);
    let gi = gather(ids, order);
    assert forall|x: u32|
        #[trigger] held_by(gl, gi, player).contains(x) <==> held_by(locations, ids, player).contains(x) by {
        lemma_held_by_contains(gl, gi, player, x);
        lemma_held_by_contains(locations, ids, player, x);
        if held_by(gl, gi, player).contains(x) {
            let k = choose|k: int| 0 <= k < gl.len() && gl[k] == player && #[trigger] gi[k] == x;
            assert(row_came_from(locations, ids, order, k));
            let i = choose|i: int| 0 <= i < locations.len() && gl[k] == #[trigger] locations[i] && gi[k] == ids[i];
            assert(ids[i] == x);
        }
        if held_by(locations, ids, player).contains(x) {
            let i = choose|i: int| 0 <= i < locations.len() && locations[i] == player && #[trigger] ids[i] == x;
            assert(row_kept(locations, ids, order, i));
            let k = choose|k: int| 0 <= k < order.len() && #[trigger] gl[k] == locations[i] && gi[k] == ids[i];
            assert(gi[k] == x);
        }
    }
}

/// The highest rank among the hand's cards that are found in `ids` (`None` if none is).
pub open spec fn best_rank(hand: Seq<u32>, ids: Seq<u32>, ranks: Seq<u8>) -> Option<u8>
    decreases hand.len(),
{
    if hand.len() == 0 {
        None
    } else {
        let pre = best_rank(hand.drop_last(), ids, ranks);
        match first_slot(ids, hand.last()) {
            None => pre,
            Some(slot) => Some(
                match pre {
                    None => ranks[slot],
                    Some(b) => if b >= ranks[slot] {
                        b
                    } else {
                        ranks[slot]
                    },
                },
            ),
        }
    }
}

/// The best rank of a hand is its highest: `None` exactly when no card of the hand is
/// found in `ids`; otherwise a rank at least that of every found card, and the rank of
/// one of them.
pub proof fn best_rank_is_highest(hand: Seq<u32>, ids: Seq<u32>, ranks: Seq<u8>)
    ensures
        best_rank(hand, ids, ranks) is None <==> forall|h: int| 0 <= h < hand.len() ==> #[trigger] first_slot(ids, hand[h]) is None,
        best_rank(hand, ids, ranks) matches Some(b) ==> forall|h: int|
            0 <= h < hand.len() && #[trigger] first_slot(ids, hand[h]) is Some ==> b >= ranks[first_slot(ids, hand[h])->0],
        best_rank(hand, ids, ranks) matches Some(b) ==> exists|h: int|
            0 <= h < hand.len() && #[trigger] first_slot(ids, hand[h]) is Some && ranks[first_slot(ids, hand[h])->0] == b,
    decreases hand.len(),
{
    if hand.len() > 0 {
        let pre = hand.drop_last();
        best_rank_is_highest(pre, ids, ranks);
        let last = hand.len() - 1;
        assert(hand[last] == hand.last());
        assert forall|h: int| 0 <= h < pre.len() implies hand[h] == pre[h] by {}
        match best_rank(pre, ids, ranks) {
            Some(b0) => {
                let h0 = choose|h: int|
                    0 <= h < pre.len() && #[trigger] first_slot(ids, pre[h]) is Some && ranks[first_slot(ids, pre[h])->0] == b0;
                assert(hand[h0] == pre[h0]);
                assert(first_slot(ids, hand[h0]) is Some);
            },
            None => {},
        }
        if first_slot(ids, hand.last()) is Some {
            assert(first_slot(ids, hand[last]) is Some);
        }
        assert forall|h: int| 0 <= h < hand.len() && #[trigger] first_slot(ids, hand[h]) is Some implies
            best_rank(hand, ids, ranks) is Some by {
            if h < pre.len() {
                assert(first_slot(ids, pre[h]) is Some);
            }
        }
    }
}

/// The highest rank among the cards of a hand, looked up by id.
pub fn highest_rank_in_hand(hand_ids: &[u32], ids: &[u32], ranks: &[u8]) -> (r: Option<u8>)
    requires
        forall|h: int|
            0 <= h < hand_ids@.len() ==> match first_slot(ids@, #[trigger] hand_ids@[h]) {
                Some(slot) => slot < ranks@.len(),
                None => true,
            },
    ensures
        r == best_rank(hand_ids@, ids@, ranks@),
        r is None <==> forall|h: int| 0 <= h < hand_ids@.len() ==> #[trigger] first_slot(ids@, hand_ids@[h]) is None,
        r matches Some(b) ==> forall|h: int|
            0 <= h < hand_ids@.len() && #[trigger] first_slot(ids@, hand_ids@[h]) is Some ==> b >= ranks@[first_slot(
                ids@,
                hand_ids@[h],
            )->0],
        r matches Some(b) ==> exists|h: int|
            0 <= h < hand_ids@.len() && #[trigger] first_slot(ids@, hand_ids@[h]) is Some && ranks@[first_slot(
                ids@,
                hand_ids@[h],
            )->0] == b,
{
    proof {
        best_rank_is_highest(hand_ids@, ids@, ranks@);
    }
    let mut best: Option<u8> = None;
    let mut h: usize = 0;
    while h < hand_ids.len()
        invariant
            h <= hand_ids@.len(),
            forall|q: int|
                0 <= q < hand_ids@.len() ==> match first_slot(ids@, #[trigger] hand_ids@[q]) {
                    Some(slot) => slot < ranks@.len(),
                    None => true,
                },
            best == best_rank(hand_ids@.take(h as int), ids@, ranks@),
        decreases hand_ids@.len() - h,
    {
        let id = hand_ids[h];
        assert(hand_ids@.take(h + 1).drop_last() == hand_ids@.take(h as int));
        assert(hand_ids@.take(h + 1).last() == id);
        let found = slot_of(ids, id);
        assert(hand_ids@[h as int] == id);
        match found {
            Some(slot) => {
                proof {
                    lemma_first_slot(ids@, id);
                    assert(ids@.len() == ids.len());
                    match first_slot(ids@, id) {
                        Some(k) => {
                            assert(k as usize == slot);
                            assert(k == slot as int);
                        },
                        None => {},
                    }
                }
                assert(first_slot(ids@, id) == Some(slot as int));
                let rank = ranks[slot];
                best = match best {
                    None => Some(rank),
                    Some(b) => Some(if b >= rank { b } else { rank }),
                };
            },
            None => {},
        }
        h += 1;
    }
    assert(hand_ids@.take(hand_ids@.len() as int) == hand_ids@);
    best
}

/// The glyph of a suit: spades, hearts, diamonds, and clubs for anything else.
pub open spec fn suit_glyph(suit: u8) -> char {
    if suit == 0 {
        '\u{2660}'
    } else if suit == 1 {
        '\u{2665}'
    } else if suit == 2 {
        '\u{2666}'
    } else {
        '\u{2663}'
    }
}

/// The ASCII digit for `d < 10`.
pub open spec fn digit_char(d: nat) -> char {
    ((d + 48) as u8) as char
}

/// Decimal text of `n`, without leading zeros.
pub open spec fn decimal_text(n: nat) -> Seq<char>
    decreases n,
{
    if n < 10 {
        seq![digit_char(n)]
    } else {
        decimal_text(n / 10).push(digit_char(n % 10))
    }
}

/// Text of a rank: A, J, Q, K for 1, 11, 12, 13, otherwise the decimal number.
pub open spec fn rank_text(rank: u8) -> Seq<char> {
    if rank == 1 {
        seq!['A']
    } else if rank == 11 {
        seq!['J']
    } else if rank == 12 {
        seq!['Q']
    } else if rank == 13 {
        seq!['K']
    } else {
        decimal_text(rank as nat)
    }
}

fn digit_str(d: u8) -> (r: &'static str)
    requires
        d < 10,
    ensures
        r@ == seq![digit_char(d as nat)],
{
    proof {
        reveal_strlit("0");
        reveal_strlit("1");
        reveal_strlit("2");
        reveal_strlit("3");
        reveal_strlit("4");
        reveal_strlit("5");
        reveal_strlit("6");
        reveal_strlit("7");
        reveal_strlit("8");
        reveal_strlit("9");
    }
    match d {
        0 => "0",
        1 => "1",
        2 => "2",
        3 => "3",
        4 => "4",
        5 => "5",
        6 => "6",
        7 => "7",
        8 => "8",
        _ => "9",
    }
}

/// Human-readable card text: the rank, then the suit glyph.
pub fn card_to_string(suit: u8, rank: u8) -> (r: String)
    ensures
        r@ == rank_text(rank).push(suit_glyph(suit)),
{
    let mut out = String::new();
    proof {
        reveal_strlit("A");
        reveal_strlit("J");
        reveal_strlit("Q");
        reveal_strlit("K");
    }
    if rank == 1 {
        out.append("A");
    } else if rank == 11 {
        out.append("J");
    } else if rank == 12 {
        out.append("Q");
    } else if rank == 13 {
        out.append("K");
    } else {
        if rank >= 100 {
            out.append(digit_str(rank / 100));
        }
        if rank >= 10 {
            out.append(digit_str((rank / 10) % 10));
        }
        out.append(digit_str(rank % 10));
        proof {
            let n = rank as nat;
            if n >= 100 {
                assert(decimal_text(n / 100) == seq![digit_char(n / 100)]);
                assert(decimal_text(n / 10) == decimal_text(n / 100).push(digit_char((n / 10) % 10)));
            } else if n >= 10 {
                assert(decimal_text(n / 10) == seq![digit_char(n / 10)]);
            }
        }
    }
    proof {
        reveal_strlit("\u{2660}");
        reveal_strlit("\u{2665}");
        reveal_strlit("\u{2666}");
        reveal_strlit("\u{2663}");
    }
    if suit == 0 {
        out.append("\u{2660}");
    } else if suit == 1 {
        out.append("\u{2665}");
    } else if suit == 2 {
        out.append("\u{2666}");
    } else {
        out.append("\u{2663}");
    }
    out
}

} // verus!
