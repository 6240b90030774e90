use vstd::prelude::*;
use std::collections::HashMap;

verus! {

broadcast use vstd::std_specs::hash::group_hash_axioms;

/// Sum of a sequence of unsigned integers, as a mathematical integer.
pub open spec fn seq_sum(s: Seq<u64>) -> int
    decreases s.len(),
{
    if s.len() == 0 {
        0
    } else {
        seq_sum(s.drop_last()) + s.last()
    }
}

/// Sum of bytes widened to u64, as a mathematical integer.
pub open spec fn byte_sum(s: Seq<u8>) -> int
    decreases s.len(),
{
    if s.len() == 0 {
        0
    } else {
        byte_sum(s.drop_last()) + s.last()
    }
}

/// A sum of a prefix never exceeds the sum of the whole.
pub proof fn lemma_seq_sum_prefix(s: Seq<u64>, i: int)
    requires
        0 <= i <= s.len(),
    ensures
        0 <= seq_sum(s.take(i)) <= seq_sum(s),
    decreases s.len(),
{
    if s.len() > 0 {
        if i == s.len() {
            assert(s.take(i) == s);
            lemma_seq_sum_prefix(s.drop_last(), s.len() - 1);
            assert(s.drop_last().take(s.len() - 1) == s.drop_last());
        } else {
            lemma_seq_sum_prefix(s.drop_last(), i);
            assert(s.drop_last().take(i) == s.take(i));
            lemma_seq_sum_prefix(s.drop_last(), s.len() - 1);
            assert(s.drop_last().take(s.len() - 1) == s.drop_last());
        }
    } else {
        assert(s.take(i) == s);
    }
}

/// A byte sum of a prefix never exceeds the sum of the whole.
pub proof fn lemma_byte_sum_prefix(s: Seq<u8>, i: int)
    requires
        0 <= i <= s.len(),
    ensures
        0 <= byte_sum(s.take(i)) <= byte_sum(s),
    decreases s.len(),
{
    if s.len() > 0 {
        if i == s.len() {
            assert(s.take(i) == s);
            lemma_byte_sum_prefix(s.drop_last(), s.len() - 1);
            assert(s.drop_last().take(s.len() - 1) == s.drop_last());
        } else {
            lemma_byte_sum_prefix(s.drop_last(), i);
            assert(s.drop_last().take(i) == s.take(i));
            lemma_byte_sum_prefix(s.drop_last(), s.len() - 1);
            assert(s.drop_last().take(s.len() - 1) == s.drop_last());
        }
    } else {
        assert(s.take(i) == s);
    }
}

/// Sum of a u64 column; the total must fit in a u64.
pub fn sum_seq(v: &[u64]) -> (r: u64)
    requires
        seq_sum(v@) <= u64::MAX,
    ensures
        r == seq_sum(v@),
{
    let mut total: u64 = 0;
    let mut i: usize = 0;
    while i < v.len()
        invariant
            i <= v@.len(),
            seq_sum(v@) <= u64::MAX,
            total == seq_sum(v@.take(i as int)),
        decreases v@.len() - i,
    {
        assert(v@.take(i + 1).drop_last() == v@.take(i as int));
        proof {
            lemma_seq_sum_prefix(v@, i + 1);
        }
        total = total + v[i];
        i += 1;
    }
    assert(v@.take(v@.len() as int) == v@);
    total
}

/// Sum of a u8 column, each byte widened to u64.
pub fn sum_u8(v: &[u8]) -> (r: u64)
    requires
        byte_sum(v@) <= u64::MAX,
    ensures
        r == byte_sum(v@),
{
    let mut total: u64 = 0;
    let mut i: usize = 0;
    while i < v.len()
        invariant
            i <= v@.len(),
            byte_sum(v@) <= u64::MAX,
            total == byte_sum(v@.take(i as int)),
        decreases v@.len() - i,
    {
        assert(v@.take(i + 1).drop_last() == v@.take(i as int));
        proof {
            lemma_byte_sum_prefix(v@, i + 1);
        }
        total = total + v[i] as u64;
        i += 1;
    }
    assert(v@.take(v@.len() as int) == v@);
    total
}

/// Sum of a u64 column, in order (the bandwidth benchmark's kernel).
pub fn sum_u64(v: &[u64]) -> (r: u64)
    requires
        seq_sum(v@) <= u64::MAX,
    ensures
        r == seq_sum(v@),
{
    sum_seq(v)
}

/// Sum of a contiguous u64 column (the baseline the list and hash-map walks are
/// measured against).
pub fn sum_vec(v: &[u64]) -> (r: u64)
    requires
        seq_sum(v@) <= u64::MAX,
    ensures
        r == seq_sum(v@),
{
    sum_seq(v)
}

/// Wrapping sum of a sequence, in order.
pub open spec fn wrapping_sum(s: Seq<u64>) -> u64
    decreases s.len(),
{
    if s.len() == 0 {
        0
    } else {
        vstd::wrapping::u64_specs::wrapping_add(wrapping_sum(s.drop_last()), s.last())
    }
}

/// Wrapping sum of the column in order.
pub fn sequential_sum(v: &[u64]) -> (r: u64)
    ensures
        r == wrapping_sum(v@),
{
    let mut sum: u64 = 0;
    let mut i: usize = 0;
    while i < v.len()
        invariant
            i <= v@.len(),
            sum == wrapping_sum(v@.take(i as int)),
        decreases v@.len() - i,
    {
        assert(v@.take(i + 1).drop_last() == v@.take(i as int));
        sum = sum.wrapping_add(v[i]);
        i += 1;
    }
    assert(v@.take(v@.len() as int) == v@);
    sum
}

/// Wrapping sum of the column read in the order given by `indices`.
pub fn random_access_sum(v: &[u64], indices: &[usize]) -> (r: u64)
    requires
        forall|k: int| 0 <= k < indices@.len() ==> indices@[k] < v@.len(),
    ensures
        r == wrapping_sum(Seq::new(indices@.len(), |k: int| v@[indices@[k] as int])),
{
    let ghost picked = Seq::new(indices@.len(), |k: int| v@[indices@[k] as int]);
    let mut sum: u64 = 0;
    let mut i: usize = 0;
    while i < indices.len()
        invariant
            i <= indices@.len(),
            forall|k: int| 0 <= k < indices@.len() ==> indices@[k] < v@.len(),
            picked == Seq::new(indices@.len(), |k: int| v@[indices@[k] as int]),
            sum == wrapping_sum(picked.take(i as int)),
        decreases indices@.len() - i,
    {
        assert(picked.take(i + 1).drop_last() == picked.take(i as int));
        sum = sum.wrapping_add(v[indices[i]]);
        i += 1;
    }
    assert(picked.take(indices@.len() as int) == picked);
    sum
}

/// The generator states that `build_random_indices` draws, starting after `0xDEAD_BEEF`.
pub open spec fn index_state(k: nat) -> u64
    decreases k,
{
    if k == 0 {
        crate::lcg::lcg_step(0xDEAD_BEEF)
    } else {
        crate::lcg::lcg_step(index_state((k - 1) as nat))
    }
}

/// `n` pseudo-random indices below `n`, each the next generator state reduced modulo `n`.
pub fn build_random_indices(n: usize) -> (r: Vec<usize>)
    requires
        n > 0,
    ensures
        r@.len() == n,
        forall|k: int| 0 <= k < n ==> r@[k] == (index_state(k as nat) as usize) % n,
        forall|k: int| 0 <= k < n ==> r@[k] < n,
{
    let mut rng = crate::lcg::Lcg::new(0xDEAD_BEEF);
    let mut out: Vec<usize> = Vec::with_capacity(n);
    let mut k: usize = 0;
    while k < n
        invariant
            k <= n,
            out@.len() == k,
            rng.state == if k == 0 {
                0xDEAD_BEEFu64
            } else {
                index_state((k - 1) as nat)
            },
            forall|q: int| 0 <= q < k ==> out@[q] == (index_state(q as nat) as usize) % n,
            forall|q: int| 0 <= q < k ==> out@[q] < n,
        decreases n - k,
    {
        let s = rng.next();
        out.push((s as usize) % n);
        k += 1;
    }
    out
}

/// A cheap multiplicative hash of `i` into `0..100`, so that chosen sets look scattered.
pub open spec fn scattered_spec(i: usize) -> u32 {
    ((vstd::wrapping::usize_specs::wrapping_mul(i, 2_654_435_761) >> 8) as u32) % 100
}

/// Scatter `i` into `0..100` by a multiplicative hash.
pub fn scattered(i: usize) -> (r: u32)
    ensures
        r == scattered_spec(i),
        r < 100,
{
    (i.wrapping_mul(2_654_435_761) >> 8) as u32 % 100
}

/// Number of entries of `s` equal to `v`.
pub open spec fn count_u8(s: Seq<u8>, v: u8) -> nat
    decreases s.len(),
{
    if s.len() == 0 {
        0
    } else {
        count_u8(s.drop_last(), v) + if s.last() == v {
            1nat
        } else {
            0nat
        }
    }
}

/// Count the entries whose location is `player`, reading only the location column.
pub fn count_held_soa(locations: &[u8], player: u8) -> (r: usize)
    ensures
        r == count_u8(locations@, player),
{
    let mut c: usize = 0;
    let mut i: usize = 0;
    while i < locations.len()
        invariant
            i <= locations@.len(),
            c == count_u8(locations@.take(i as int), player),
            c <= i,
        decreases locations@.len() - i,
    {
        assert(locations@.take(i + 1).drop_last() == locations@.take(i as int));
        if locations[i] == player {
            c += 1;
        }
        i += 1;
    }
    assert(locations@.take(locations@.len() as int) == locations@);
    c
}

/// A card as one row (array-of-structs layout).
#[derive(Clone, Copy)]
pub struct Card {
    pub suit: u8,
    pub rank: u8,
    pub location: u8,
}

/// A card row padded with a 16-byte nickname.
#[derive(Clone, Copy)]
pub struct CardWithNickname {
    pub suit: u8,
    pub rank: u8,
    pub location: u8,
    pub _pad: u8,
    pub nickname: [u8; 16],
}

/// The location column of an array of card rows.
pub open spec fn card_locations(cards: Seq<Card>) -> Seq<u8> {
    Seq::new(cards.len(), |i: int| cards[i].location)
}

/// The location column of an array of padded card rows.
pub open spec fn padded_locations(cards: Seq<CardWithNickname>) -> Seq<u8> {
    Seq::new(cards.len(), |i: int| cards[i].location)
}

/// Count the card rows whose location is `player` (whole rows pass through the cache).
pub fn count_held_aos(cards: &[Card], player: u8) -> (r: usize)
    ensures
        r == count_u8(card_locations(cards@), player),
{
    let ghost locs = card_locations(cards@);
    let mut c: usize = 0;
    let mut i: usize = 0;
    while i < cards.len()
        invariant
            i <= cards@.len(),
            locs == card_locations(cards@),
            c == count_u8(locs.take(i as int), player),
            c <= i,
        decreases cards@.len() - i,
    {
        assert(locs.take(i + 1).drop_last() == locs.take(i as int));
        if cards[i].location == player {
            c += 1;
        }
        i += 1;
    }
    assert(locs.take(cards@.len() as int) == locs);
    c
}

/// Count the padded card rows whose location is `player`.
pub fn count_held_aos_padded(cards: &[CardWithNickname], player: u8) -> (r: usize)
    ensures
        r == count_u8(padded_locations(cards@), player),
{
    let ghost locs = padded_locations(cards@);
    let mut c: usize = 0;
    let mut i: usize = 0;
    while i < cards.len()
        invariant
            i <= cards@.len(),
            locs == padded_locations(cards@),
            c == count_u8(locs.take(i as int), player),
            c <= i,
        decreases cards@.len() - i,
    {
        assert(locs.take(i + 1).drop_last() == locs.take(i as int));
        if cards[i].location == player {
            c += 1;
        }
        i += 1;
    }
    assert(locs.take(cards@.len() as int) == locs);
    c
}

/// Number of keys the hash-map benchmark looks up: 0..N_KEYS.
pub const N_KEYS: u32 = 1_000_000;

/// The value looked up for key `k`, 0 when absent.
pub open spec fn lookup_or_zero(m: Map<u32, u64>, k: u32) -> int {
    if m.contains_key(k) {
        m[k] as int
    } else {
        0
    }
}

/// Sum of the looked-up values of the keys `0..n`.
pub open spec fn lookup_sum(m: Map<u32, u64>, n: nat) -> int
    decreases n,
{
    if n == 0 {
        0
    } else {
        lookup_sum(m, (n - 1) as nat) + lookup_or_zero(m, (n - 1) as u32)
    }
}

proof fn lemma_lookup_sum_monotone(m: Map<u32, u64>, a: nat, b: nat)
    requires
        a <= b,
    ensures
        lookup_sum(m, a) <= lookup_sum(m, b),
    decreases b,
{
    if a < b {
        lemma_lookup_sum_monotone(m, a, (b - 1) as nat);
    }
}

/// Sum the values of the keys `0..N_KEYS` through hash-map lookups (absent keys count 0).
pub fn sum_hashmap(m: &HashMap<u32, u64>) -> (r: u64)
    requires
        lookup_sum(m@, N_KEYS as nat) <= u64::MAX,
    ensures
        r == lookup_sum(m@, N_KEYS as nat),
{
    let mut s: u64 = 0;
    let mut k: u32 = 0;
    while k < N_KEYS
        invariant
            k <= N_KEYS,
            lookup_sum(m@, N_KEYS as nat) <= u64::MAX,
            s == lookup_sum(m@, k as nat),
        decreases N_KEYS - k,
    {
        proof {
            lemma_lookup_sum_monotone(m@, (k + 1) as nat, N_KEYS as nat);
        }
        let v: u64 = match m.get(&k) {
            Some(x) => *x,
            None => 0,
        };
        s = s + v;
        k += 1;
    }
    s
}

/// Split a population of `n` into 40% foragers (at least one) and the rest targets.
pub fn split(n: usize) -> (r: (usize, usize))
    requires
        n >= 1,
        n * 2 <= usize::MAX,
    ensures
        r.0 == if n * 2 / 5 >= 1 {
            n * 2 / 5
        } else {
            1
        },
        r.0 + r.1 == n,
{
    let q = n * 2 / 5;
    let nf = if q >= 1 {
        q
    } else {
        1
    };
    (nf, n - nf)
}

} // verus!
