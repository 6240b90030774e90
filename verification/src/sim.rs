use vstd::prelude::*;
use vstd::wrapping::u64_specs::{wrapping_add, wrapping_mul};
use vstd::slice::{slice_subrange, slice_to_vec};
use std::collections::HashSet;

verus! {

broadcast use vstd::std_specs::hash::group_hash_axioms;

/// The slot value of an id that has no live entity.
pub const INVALID: u32 = 0xFFFF_FFFF;

/// The splitmix64 increment (the golden-ratio constant).
pub const GOLDEN_GAMMA: u64 = 0x9E37_79B9_7F4A_7C15;

/// The splitmix64 output function applied to a state.
pub open spec fn splitmix_mix(s: u64) -> u64 {
    let z1 = wrapping_mul(s ^ (s >> 30u64), 0xBF58_476D_1CE4_E5B9);
    let z2 = wrapping_mul(z1 ^ (z1 >> 27u64), 0x94D0_49BB_1331_11EB);
    z2 ^ (z2 >> 31u64)
}

/// Deterministic splitmix64 generator.
pub struct Rng {
    state: u64,
}

impl Rng {
    /// The generator's state.
    pub closed spec fn state(&self) -> u64 {
        self.state
    }

    /// A generator seeded with `seed` (its state is `seed + GOLDEN_GAMMA`, wrapping).
    pub fn new(seed: u64) -> (r: Self)
        ensures
            r.state() == wrapping_add(seed, GOLDEN_GAMMA),
    {
        Rng { state: seed.wrapping_add(GOLDEN_GAMMA) }
    }

    /// Advance the state by `GOLDEN_GAMMA` and return the mixed new state.
    pub fn next_u64(&mut self) -> (r: u64)
        ensures
            final(self).state() == wrapping_add(old(self).state(), GOLDEN_GAMMA),
            r == splitmix_mix(final(self).state()),
    {
        self.state = self.state.wrapping_add(GOLDEN_GAMMA);
        let mut z = self.state;
        z = (z ^ (z >> 30)).wrapping_mul(0xBF58_476D_1CE4_E5B9);
        z = (z ^ (z >> 27)).wrapping_mul(0x94D0_49BB_1331_11EB);
        z ^ (z >> 31)
    }
}

/// The state of `Rng::new(seed)` after `k` draws.
pub open spec fn rng_state_after(seed: u64, k: nat) -> u64
    decreases k,
{
    if k == 0 {
        wrapping_add(seed, GOLDEN_GAMMA)
    } else {
        wrapping_add(rng_state_after(seed, (k - 1) as nat), GOLDEN_GAMMA)
    }
}

/// The stream of a seeded generator is splitmix64 from `seed`, less its first output:
/// after `k` draws the state is `seed + GOLDEN_GAMMA * (k + 1)` modulo 2^64, and the
/// `k`-th draw (`k >= 1`) returns the mix of that state.
pub proof fn rng_stream(seed: u64, k: nat)
    ensures
        rng_state_after(seed, k) as int == (seed + GOLDEN_GAMMA * (k + 1)) % 0x1_0000_0000_0000_0000,
        k >= 1 ==> splitmix_mix(rng_state_after(seed, k)) == splitmix_mix(
            ((seed + GOLDEN_GAMMA * (k + 1)) % 0x1_0000_0000_0000_0000) as u64,
        ),
    decreases k,
{
    let m: int = 0x1_0000_0000_0000_0000;
    if k == 0 {
        assert((seed + GOLDEN_GAMMA) % m == if seed + GOLDEN_GAMMA >= m { seed + GOLDEN_GAMMA - m } else { seed + GOLDEN_GAMMA });
    } else {
        rng_stream(seed, (k - 1) as nat);
        let prev = rng_state_after(seed, (k - 1) as nat) as int;
        let a = seed + GOLDEN_GAMMA * k;
        assert(GOLDEN_GAMMA * (k + 1) == GOLDEN_GAMMA * k + GOLDEN_GAMMA) by (nonlinear_arith);
        assert(prev == a % m);
        vstd::arithmetic::div_mod::lemma_add_mod_noop(a, GOLDEN_GAMMA as int, m);
        assert((GOLDEN_GAMMA as int) % m == GOLDEN_GAMMA);
        assert((prev + GOLDEN_GAMMA) % m == (a + GOLDEN_GAMMA) % m);
        assert((prev + GOLDEN_GAMMA) % m == if prev + GOLDEN_GAMMA >= m { prev + GOLDEN_GAMMA - m } else { prev + GOLDEN_GAMMA });
    }
}

/// A subscription: a named id-set. The registry keeps them in registration order.
pub struct Sub {
    pub name: &'static str,
    pub ids: Vec<u32>,
}

/// The elements of `s[..n]` whose flag in `keep` is set, in order.
pub open spec fn kept<T>(s: Seq<T>, keep: Seq<bool>, n: nat) -> Seq<T>
    decreases n,
{
    if n == 0 {
        Seq::empty()
    } else if keep[n - 1] {
        kept(s, keep, (n - 1) as nat).push(s[n - 1])
    } else {
        kept(s, keep, (n - 1) as nat)
    }
}

/// How many of `keep[..n]` are set.
pub open spec fn kept_count(keep: Seq<bool>, n: nat) -> nat
    decreases n,
{
    if n == 0 {
        0
    } else if keep[n - 1] {
        kept_count(keep, (n - 1) as nat) + 1
    } else {
        kept_count(keep, (n - 1) as nat)
    }
}

proof fn lemma_kept_len<T>(s: Seq<T>, keep: Seq<bool>, n: nat)
    ensures
        kept(s, keep, n).len() == kept_count(keep, n),
        kept_count(keep, n) <= n,
    decreases n,
{
    if n > 0 {
        lemma_kept_len(s, keep, (n - 1) as nat);
    }
}

/// Move the rows of `col[..n]` whose `keep` flag is set to the front, in order; the rows
/// from the kept count on are left as they were.
pub fn pack_column<T: Copy>(col: &mut Vec<T>, keep: &[bool], n: usize)
    requires
        n <= old(col)@.len(),
        n <= keep@.len(),
    ensures
        final(col)@ == kept(old(col)@, keep@, n as nat) + old(col)@.subrange(
            kept_count(keep@, n as nat) as int,
            old(col)@.len() as int,
        ),
{
    let ghost s = col@;
    let mut wr: usize = 0;
    let mut r: usize = 0;
    while r < n
        invariant
            r <= n,
            n <= s.len(),
            n <= keep@.len(),
            col@.len() == s.len(),
            wr == kept_count(keep@, r as nat),
            wr <= r,
            col@.subrange(0, wr as int) == kept(s, keep@, r as nat),
            col@.subrange(r as int, s.len() as int) == s.subrange(r as int, s.len() as int),
            forall|q: int| wr <= q < s.len() ==> col@[q] == s[q],
        decreases n - r,
    {
        proof {
            lemma_kept_len(s, keep@, r as nat);
        }
        if keep[r] {
            let v = col[r];
            assert(v == s[r as int]);
            col.set(wr, v);
            proof {
                assert(col@.subrange(0, wr + 1) =~= kept(s, keep@, r as nat).push(s[r as int]));
            }
            wr += 1;
        }
        r += 1;
        proof {
            assert(col@.subrange(r as int, s.len() as int) =~= s.subrange(r as int, s.len() as int));
        }
    }
    proof {
        lemma_kept_len(s, keep@, n as nat);
        assert(col@ =~= kept(s, keep@, n as nat) + s.subrange(wr as int, s.len() as int));
    }
}

/// `a` and `b` hold the same chars.
fn same_name(a: &str, b: &str) -> (r: bool)
    ensures
        r == (a@ == b@),
{
    a.to_owned() == b.to_owned()
}

/// The first registered subscription named `name`.
pub open spec fn sub_index(subs: Seq<Sub>, name: Seq<char>) -> int {
    choose|i: int|
        0 <= i < subs.len() && subs[i].name@ == name && forall|j: int| 0 <= j < i ==> subs[j].name@ != name
}

/// Some subscription is named `name`.
pub open spec fn has_sub(subs: Seq<Sub>, name: Seq<char>) -> bool {
    exists|i: int| 0 <= i < subs.len() && subs[i].name@ == name
}

fn find_sub(subs: &Vec<Sub>, name: &str) -> (r: usize)
    requires
        has_sub(subs@, name@),
    ensures
        r == sub_index(subs@, name@),
        0 <= r < subs@.len(),
        subs@[r as int].name@ == name@,
{
    let mut i: usize = 0;
    while i < subs.len()
        invariant
            i <= subs@.len(),
            has_sub(subs@, name@),
            forall|j: int| 0 <= j < i ==> subs@[j].name@ != name@,
        decreases subs@.len() - i,
    {
        if same_name(subs[i].name, name) {
            proof {
                let c = sub_index(subs@, name@);
                assert(0 <= c < subs@.len() && subs@[c].name@ == name@ && forall|j: int|
                    0 <= j < c ==> subs@[j].name@ != name@);
                if c < i {
                } else if c > i {
                    assert(subs@[i as int].name@ == name@);
                }
            }
            return i;
        }
        i += 1;
    }
    proof {
        let w = choose|q: int| 0 <= q < subs@.len() && subs@[q].name@ == name@;
        assert(subs@[w].name@ == name@);
    }
    0
}

/// The integer columns of the entity table and its arena machinery: ids, generations,
/// liveness and herd of each slot, the id-to-slot index, the live-slot list, and the
/// subscription registry. The float columns (position, velocity, energy, birth time) run
/// alongside, slot for slot, outside this type.
pub struct World {
    pub cid: Vec<u32>,
    pub generation: Vec<u32>,
    pub alive: Vec<bool>,
    pub herd: Vec<u32>,
    pub id_to_slot: Vec<u32>,
    pub live: Vec<u32>,
    pub subs: Vec<Sub>,
    pub n_live: usize,
    pub n_active: usize,
    pub next_id: u32,
    pub next_herd_id: u32,
    pub tick: usize,
    pub gc_runs: usize,
    pub peak_n_active: usize,
    pub late_ticks: usize,
}

/// The slots `i < n` flagged alive, in order.
pub open spec fn live_slots(alive: Seq<bool>, n: nat) -> Seq<u32>
    decreases n,
{
    if n == 0 {
        Seq::empty()
    } else if alive[n - 1] {
        live_slots(alive, (n - 1) as nat).push((n - 1) as u32)
    } else {
        live_slots(alive, (n - 1) as nat)
    }
}

/// Strictly increasing.
pub open spec fn ascending(s: Seq<u32>) -> bool {
    forall|i: int, j: int| 0 <= i < j < s.len() ==> s[i] < s[j]
}

proof fn lemma_ascending_bound(s: Seq<u32>, i: int)
    requires
        ascending(s),
        0 <= i < s.len(),
    ensures
        s[i] >= i,
    decreases i,
{
    if i > 0 {
        lemma_ascending_bound(s, i - 1);
    }
}

/// Strictly ascending ids below `m` number at most `m`.
proof fn lemma_ascending_len(s: Seq<u32>, m: int)
    requires
        ascending(s),
        0 <= m,
        forall|i: int| 0 <= i < s.len() ==> #[trigger] s[i] < m,
    ensures
        s.len() <= m,
{
    if s.len() > 0 {
        lemma_ascending_bound(s, s.len() - 1);
        assert(s[s.len() - 1] < m);
    }
}

impl World {
    /// The number of slots (and of ids) the table was made for.
    pub open spec fn cap(&self) -> nat {
        self.cid@.len()
    }

    /// `id` names a live entity.
    pub open spec fn is_alive_id(&self, id: u32) -> bool {
        id < self.cap() && self.id_to_slot@[id as int] != INVALID
    }

    /// The ids of the live entities.
    pub open spec fn alive_ids(&self) -> Set<u32> {
        Set::new(|id: u32| self.is_alive_id(id))
    }

    /// The index agrees with the table: a live slot's id maps back to it, and an id maps to
    /// a slot only while that slot is alive and holds it.
    pub open spec fn index_ok(&self) -> bool {
        &&& forall|i: int|
            0 <= i < self.n_active && self.alive@[i] ==> #[trigger] self.id_to_slot@[self.cid@[i] as int] == i
        &&& forall|id: int|
            0 <= id < self.cap() && self.id_to_slot@[id] != INVALID ==> {
                let s = self.id_to_slot@[id] as int;
                &&& s < self.n_active
                &&& self.alive@[s]
                &&& self.cid@[s] == id
            }
    }

    /// The table's invariant.
    pub open spec fn wf(&self) -> bool {
        &&& self.cap() < INVALID
        &&& self.generation@.len() == self.cap()
        &&& self.alive@.len() == self.cap()
        &&& self.herd@.len() == self.cap()
        &&& self.id_to_slot@.len() == self.cap()
        &&& self.live@.len() == self.cap()
        &&& self.n_active <= self.cap()
        &&& self.next_id <= self.cap()
        &&& forall|i: int| 0 <= i < self.n_active ==> #[trigger] self.cid@[i] < self.next_id
        &&& ascending(self.cid@.take(self.n_active as int))
        &&& self.index_ok()
        &&& forall|k: int, q: int|
            0 <= k < self.subs@.len() && 0 <= q < self.subs@[k].ids@.len() ==> #[trigger] self.subs@[k].ids@[q]
                < self.next_id
    }

    /// The live list holds exactly the alive slots, in order.
    pub open spec fn live_ok(&self) -> bool {
        &&& self.n_live <= self.cap()
        &&& self.live@.take(self.n_live as int) == live_slots(self.alive@, self.n_active as nat)
    }

    /// An empty table of `cap` slots.
    pub fn new(cap: usize) -> (r: Self)
        requires
            cap < INVALID,
        ensures
            r.wf(),
            r.live_ok(),
            r.cap() == cap,
            r.n_active == 0,
            r.next_id == 0,
            r.next_herd_id == 1,
            r.subs@.len() == 0,
            r.alive_ids() == Set::<u32>::empty(),
            r.n_live == 0,
            r.tick == 0,
            r.gc_runs == 0,
            r.peak_n_active == 0,
            r.late_ticks == 0,
            r.cid@ == Seq::new(cap as nat, |_i: int| 0u32),
            r.generation@ == Seq::new(cap as nat, |_i: int| 0u32),
            r.alive@ == Seq::new(cap as nat, |_i: int| false),
            r.herd@ == Seq::new(cap as nat, |_i: int| 0u32),
            r.id_to_slot@ == Seq::new(cap as nat, |_i: int| INVALID),
            r.live@ == Seq::new(cap as nat, |_i: int| 0u32),
    {
        let r = World {
            cid: vec_of(cap, 0u32),
            generation: vec_of(cap, 0u32),
            alive: vec_of(cap, false),
            herd: vec_of(cap, 0u32),
            id_to_slot: vec_of(cap, INVALID),
            live: vec_of(cap, 0u32),
            subs: Vec::new(),
            n_live: 0,
            n_active: 0,
            next_id: 0,
            next_herd_id: 1,
            tick: 0,
            gc_runs: 0,
            peak_n_active: 0,
            late_ticks: 0,
        };
        assert(r.alive_ids() =~= Set::<u32>::empty());
        assert(r.live@.take(0) =~= live_slots(r.alive@, 0));
        r
    }

    /// Register a subscription at the end of the registry.
    pub fn register(&mut self, name: &'static str, ids: Vec<u32>)
        requires
            old(self).wf(),
            forall|q: int| 0 <= q < ids@.len() ==> ids@[q] < old(self).next_id,
        ensures
            final(self).wf(),
            final(self).subs@ == old(self).subs@.push(Sub { name, ids }),
            final(self).alive_ids() == old(self).alive_ids(),
            final(self).next_id == old(self).next_id,
            *final(self) == (World { subs: final(self).subs, ..*old(self) }),
    {
        self.subs.push(Sub { name, ids });
        assert(self.alive_ids() =~= old(self).alive_ids());
    }

    /// The ids of the subscription named `name`.
    pub fn sub(&self, name: &str) -> (r: &[u32])
        requires
            has_sub(self.subs@, name@),
        ensures
            r@ == self.subs@[sub_index(self.subs@, name@)].ids@,
    {
        let i = find_sub(&self.subs, name);
        self.subs[i].ids.as_slice()
    }

    /// Move the subscription's ids out, leaving it empty; pair with `put_sub`.
    #[verifier::rlimit(40)]
    pub fn take_sub(&mut self, name: &str) -> (r: Vec<u32>)
        requires
            has_sub(old(self).subs@, name@),
        ensures
            ({
                let i = sub_index(old(self).subs@, name@);
                &&& r@ == old(self).subs@[i].ids@
                &&& final(self).subs@.len() == old(self).subs@.len()
                &&& final(self).subs@[i].name == old(self).subs@[i].name
                &&& final(self).subs@[i].ids@.len() == 0
                &&& forall|j: int| 0 <= j < old(self).subs@.len() && j != i ==> final(self).subs@[j] == old(self).subs@[j]
            }),
            final(self).cid == old(self).cid,
            final(self).alive == old(self).alive,
            final(self).id_to_slot == old(self).id_to_slot,
            final(self).n_active == old(self).n_active,
            final(self).next_id == old(self).next_id,
    {
        let i = find_sub(&self.subs, name);
        let entry = self.subs.remove(i);
        let Sub { name: nm, ids } = entry;
        self.subs.insert(i, Sub { name: nm, ids: Vec::new() });
        ids
    }

    /// Put the subscription's ids back.
    #[verifier::rlimit(40)]
    pub fn put_sub(&mut self, name: &str, ids: Vec<u32>)
        requires
            has_sub(old(self).subs@, name@),
        ensures
            ({
                let i = sub_index(old(self).subs@, name@);
                &&& final(self).subs@ == old(self).subs@.update(i, Sub { name: old(self).subs@[i].name, ids })
            }),
            final(self).cid == old(self).cid,
            final(self).alive == old(self).alive,
            final(self).id_to_slot == old(self).id_to_slot,
            final(self).n_active == old(self).n_active,
            final(self).next_id == old(self).next_id,
    {
        let i = find_sub(&self.subs, name);
        let entry = self.subs.remove(i);
        self.subs.insert(i, Sub { name: entry.name, ids });
        proof {
            assert(self.subs@ =~= old(self).subs@.update(
                sub_index(old(self).subs@, name@),
                Sub { name: old(self).subs@[sub_index(old(self).subs@, name@)].name, ids },
            ));
        }
    }
}

/// `n` copies of `v`.
fn vec_of<T: Copy>(n: usize, v: T) -> (r: Vec<T>)
    ensures
        r@ == Seq::new(n as nat, |_i: int| v),
{
    let mut r: Vec<T> = Vec::with_capacity(n);
    let mut i: usize = 0;
    while i < n
        invariant
            i <= n,
            r@ == Seq::new(i as nat, |_i: int| v),
        decreases n - i,
    {
        r.push(v);
        i += 1;
        assert(r@ =~= Seq::new(i as nat, |_i: int| v));
    }
    r
}

proof fn lemma_kept_count_mono(keep: Seq<bool>, a: nat, b: nat)
    requires
        a <= b,
    ensures
        kept_count(keep, a) <= kept_count(keep, b),
    decreases b - a,
{
    if a < b {
        lemma_kept_count_mono(keep, a, (b - 1) as nat);
    }
}

proof fn lemma_kept_index<T>(s: Seq<T>, keep: Seq<bool>, n: nat, r: nat)
    requires
        r < n,
        keep[r as int],
    ensures
        kept_count(keep, r) < kept_count(keep, n),
        kept(s, keep, n)[kept_count(keep, r) as int] == s[r as int],
    decreases n,
{
    lemma_kept_len(s, keep, (n - 1) as nat);
    if r == n - 1 {
    } else {
        lemma_kept_index(s, keep, (n - 1) as nat, r);
    }
}

proof fn lemma_kept_source<T>(s: Seq<T>, keep: Seq<bool>, n: nat, i: nat) -> (r: nat)
    requires
        i < kept_count(keep, n),
    ensures
        r < n,
        keep[r as int],
        kept_count(keep, r) == i,
        kept(s, keep, n)[i as int] == s[r as int],
    decreases n,
{
    lemma_kept_len(s, keep, (n - 1) as nat);
    if keep[n - 1] && i == kept_count(keep, (n - 1) as nat) {
        (n - 1) as nat
    } else {
        lemma_kept_source(s, keep, (n - 1) as nat, i)
    }
}

proof fn lemma_live_slots_agree(a: Seq<bool>, b: Seq<bool>, n: nat)
    requires
        n <= a.len(),
        n <= b.len(),
        forall|i: int| 0 <= i < n ==> a[i] == b[i],
    ensures
        live_slots(a, n) == live_slots(b, n),
    decreases n,
{
    if n > 0 {
        lemma_live_slots_agree(a, b, (n - 1) as nat);
    }
}

impl World {
    /// Rebuild the live list: the alive slots among the active ones, in order.
    pub fn rebuild_live(&mut self)
        requires
            old(self).wf(),
        ensures
            final(self).wf(),
            final(self).live_ok(),
            final(self).cid == old(self).cid,
            final(self).alive == old(self).alive,
            final(self).herd == old(self).herd,
            final(self).generation == old(self).generation,
            final(self).id_to_slot == old(self).id_to_slot,
            final(self).n_active == old(self).n_active,
            final(self).next_id == old(self).next_id,
            final(self).next_herd_id == old(self).next_herd_id,
            final(self).gc_runs == old(self).gc_runs,
            final(self).subs == old(self).subs,
            final(self).tick == old(self).tick,
            final(self).peak_n_active == old(self).peak_n_active,
            final(self).late_ticks == old(self).late_ticks,
    {
        let mut k: usize = 0;
        let mut i: usize = 0;
        while i < self.n_active
            invariant
                i <= self.n_active,
                self.wf(),
                k <= i,
                self.cid == old(self).cid,
                self.alive == old(self).alive,
                self.herd == old(self).herd,
                self.generation == old(self).generation,
                self.id_to_slot == old(self).id_to_slot,
                self.n_active == old(self).n_active,
                self.next_id == old(self).next_id,
                self.next_herd_id == old(self).next_herd_id,
                self.gc_runs == old(self).gc_runs,
                self.subs == old(self).subs,
                self.tick == old(self).tick,
                self.peak_n_active == old(self).peak_n_active,
                self.late_ticks == old(self).late_ticks,
                self.live@.take(k as int) == live_slots(self.alive@, i as nat),
            decreases self.n_active - i,
        {
            if self.alive[i] {
                self.live.set(k, i as u32);
                assert(self.live@.take(k + 1) =~= live_slots(self.alive@, i as nat).push(i as u32));
                k += 1;
            }
            i += 1;
        }
        self.n_live = k;
    }

    /// Mint `n` entities at the end of the table, alive, with fresh ids `next_id ..`;
    /// entity `k` sits at slot `n_active + k`. Returns the ids.
    #[verifier::spinoff_prover]
    pub fn spawn_founders(&mut self, n: usize) -> (ids: Vec<u32>)
        requires
            old(self).wf(),
            old(self).live_ok(),
            old(self).n_active + n <= old(self).cap(),
            old(self).next_id + n <= old(self).cap(),
        ensures
            final(self).wf(),
            final(self).live_ok(),
            final(self).cap() == old(self).cap(),
            ids@.len() == n,
            forall|k: int| 0 <= k < n ==> #[trigger] ids@[k] == old(self).next_id + k,
            forall|k: int| 0 <= k < n ==> #[trigger] final(self).id_to_slot@[ids@[k] as int] == old(self).n_active + k,
            final(self).n_active == old(self).n_active + n,
            final(self).next_id == old(self).next_id + n,
            forall|x: u32|
                #[trigger] final(self).is_alive_id(x) <==> old(self).is_alive_id(x) || (old(self).next_id
                    <= x < final(self).next_id),
            final(self).subs == old(self).subs,
            final(self).next_herd_id == old(self).next_herd_id,
            final(self).n_live == old(self).n_live + n,
            final(self).herd == old(self).herd,
            final(self).generation == old(self).generation,
            final(self).tick == old(self).tick,
            final(self).gc_runs == old(self).gc_runs,
            final(self).peak_n_active == old(self).peak_n_active,
            final(self).late_ticks == old(self).late_ticks,
            forall|k: int|
                0 <= k < n ==> #[trigger] final(self).cid@[old(self).n_active + k] == ids@[k] && final(self).alive@[old(self).n_active + k]
                    && final(self).live@[old(self).n_live + k] == old(self).n_active + k,
            forall|i: int|
                0 <= i < old(self).cap() && !(old(self).n_active <= i < old(self).n_active + n) ==> #[trigger] final(self).cid@[i]
                    == old(self).cid@[i] && final(self).alive@[i] == old(self).alive@[i],
            forall|id: int|
                0 <= id < old(self).cap() && !(old(self).next_id <= id < old(self).next_id + n) ==> #[trigger] final(self).id_to_slot@[id]
                    == old(self).id_to_slot@[id],
            forall|i: int|
                0 <= i < old(self).cap() && !(old(self).n_live <= i < old(self).n_live + n) ==> #[trigger] final(self).live@[i]
                    == old(self).live@[i],
    {
        let ghost w0 = *self;
        let mut ids: Vec<u32> = Vec::with_capacity(n);
        let mut k: usize = 0;
        while k < n
            invariant
                k <= n,
                self.wf(),
                self.live_ok(),
                self.n_active == w0.n_active + k,
                self.next_id == w0.next_id + k,
                w0.n_active + n <= self.cap(),
                w0.next_id + n <= self.cap(),
                self.cap() == w0.cap(),
                self.subs == w0.subs,
                self.next_herd_id == w0.next_herd_id,
                ids@.len() == k,
                forall|q: int| 0 <= q < k ==> #[trigger] ids@[q] == w0.next_id + q,
                forall|q: int| 0 <= q < k ==> #[trigger] self.id_to_slot@[ids@[q] as int] == w0.n_active + q,
                forall|x: u32|
                    #[trigger] self.is_alive_id(x) <==> w0.is_alive_id(x) || (w0.next_id <= x < self.next_id),
                self.n_live == w0.n_live + k,
                self.herd == w0.herd,
                self.generation == w0.generation,
                self.tick == w0.tick,
                self.gc_runs == w0.gc_runs,
                self.peak_n_active == w0.peak_n_active,
                self.late_ticks == w0.late_ticks,
                forall|q: int|
                    0 <= q < k ==> #[trigger] self.cid@[w0.n_active + q] == ids@[q] && self.alive@[w0.n_active + q]
                        && self.live@[w0.n_live + q] == w0.n_active + q,
                forall|i: int|
                    0 <= i < w0.cap() && !(w0.n_active <= i < w0.n_active + k) ==> #[trigger] self.cid@[i] == w0.cid@[i]
                        && self.alive@[i] == w0.alive@[i],
                forall|id: int|
                    0 <= id < w0.cap() && !(w0.next_id <= id < w0.next_id + k) ==> #[trigger] self.id_to_slot@[id]
                        == w0.id_to_slot@[id],
                forall|i: int|
                    0 <= i < w0.cap() && !(w0.n_live <= i < w0.n_live + k) ==> #[trigger] self.live@[i] == w0.live@[i],
            decreases n - k,
        {
            let ghost before = *self;
            let slot = self.n_active;
            let id = self.next_id;
            proof {
                assert(before.id_to_slot@[id as int] == INVALID) by {
                    if before.id_to_slot@[id as int] != INVALID {
                        let s = before.id_to_slot@[id as int] as int;
                        assert(before.cid@[s] < before.next_id);
                    }
                }
                assert(self.n_live <= self.n_active) by {
                    lemma_live_slots_len(self.alive@, self.n_active as nat);
                }
            }
            self.cid.set(slot, id);
            self.alive.set(slot, true);
            self.id_to_slot.set(id as usize, slot as u32);
            self.live.set(self.n_live, slot as u32);
            self.n_active = slot + 1;
            self.n_live = self.n_live + 1;
            self.next_id = id + 1;
            ids.push(id);
            k += 1;
            proof {
                lemma_live_slots_agree(before.alive@, self.alive@, slot as nat);
                assert(self.live@.take(self.n_live as int) =~= before.live@.take(before.n_live as int).push(slot as u32));
                assert(self.cid@.take(self.n_active as int) =~= before.cid@.take(slot as int).push(id));
                assert forall|q: int| 0 <= q < k implies #[trigger] self.id_to_slot@[ids@[q] as int] == w0.n_active + q by {
                    if q < k - 1 {
                        assert(ids@[q] != id);
                    }
                }
                assert forall|q: int| 0 <= q < k implies #[trigger] self.cid@[w0.n_active + q] == ids@[q] && self.alive@[w0.n_active + q]
                    && self.live@[w0.n_live + q] == w0.n_active + q by {
                    if q < k - 1 {
                        assert(before.cid@[w0.n_active + q] == ids@[q]);
                        assert(before.alive@[w0.n_active + q]);
                        assert(before.live@[w0.n_live + q] == w0.n_active + q);
                    }
                }
                assert forall|x: u32|
                    #[trigger] self.is_alive_id(x) <==> w0.is_alive_id(x) || (w0.next_id <= x < self.next_id) by {
                    if x != id {
                        assert(before.is_alive_id(x) == self.is_alive_id(x));
                    }
                }
            }
        }
        ids
    }
}

proof fn lemma_live_slots_len(alive: Seq<bool>, n: nat)
    ensures
        live_slots(alive, n).len() <= n,
    decreases n,
{
    if n > 0 {
        lemma_live_slots_len(alive, (n - 1) as nat);
    }
}

/// How many of `keep` are set.
fn count_kept(keep: &Vec<bool>) -> (m: usize)
    ensures
        m == kept_count(keep@, keep@.len() as nat),
{
    let mut m: usize = 0;
    let mut i: usize = 0;
    while i < keep.len()
        invariant
            i <= keep@.len(),
            m == kept_count(keep@, i as nat),
            m <= i,
        decreases keep@.len() - i,
    {
        proof {
            lemma_kept_len(keep@, keep@, i as nat);
        }
        if keep[i] {
            m += 1;
        }
        i += 1;
    }
    m
}

impl World {
    /// The garbage collector: pack the alive slots to the front, in order, and re-point
    /// their ids. Returns the mask of slots kept (the alive flags of the active slots) so
    /// the float columns can be packed with [`pack_column`] the same way; `None` when every
    /// active slot is alive and nothing moves.
    pub fn compact(&mut self) -> (packed: Option<Vec<bool>>)
        requires
            old(self).wf(),
        ensures
            final(self).wf(),
            final(self).cap() == old(self).cap(),
            final(self).alive_ids() == old(self).alive_ids(),
            final(self).next_id == old(self).next_id,
            final(self).subs == old(self).subs,
            final(self).next_herd_id == old(self).next_herd_id,
            final(self).n_live == old(self).n_live,
            final(self).live == old(self).live,
            final(self).tick == old(self).tick,
            final(self).peak_n_active == old(self).peak_n_active,
            final(self).late_ticks == old(self).late_ticks,
            forall|i: int| 0 <= i < final(self).n_active ==> #[trigger] final(self).alive@[i],
            match packed {
                None => *final(self) == *old(self) && forall|i: int|
                    0 <= i < old(self).n_active ==> #[trigger] old(self).alive@[i],
                Some(keep) => {
                    &&& keep@ == old(self).alive@.take(old(self).n_active as int)
                    &&& final(self).n_active == kept_count(keep@, old(self).n_active as nat)
                    &&& final(self).n_active < old(self).n_active
                    &&& final(self).cid@.take(final(self).n_active as int) == kept(old(self).cid@, keep@, old(self).n_active as nat)
                    &&& final(self).herd@.take(final(self).n_active as int) == kept(old(self).herd@, keep@, old(self).n_active as nat)
                    &&& final(self).generation@.take(final(self).n_active as int) == kept(old(self).generation@, keep@, old(self).n_active as nat)
                    &&& final(self).gc_runs == old(self).gc_runs.wrapping_add(1)
                    &&& forall|i: int| final(self).n_active <= i < old(self).n_active ==> !#[trigger] final(self).alive@[i]
                    &&& forall|i: int|
                        old(self).n_active <= i < old(self).alive@.len() ==> #[trigger] final(self).alive@[i] == old(self).alive@[i]
                    &&& forall|r: int|
                        0 <= r < final(self).n_active ==> #[trigger] final(self).id_to_slot@[final(self).cid@[r] as int] == r
                },
            },
    {
        let ghost w0 = *self;
        let n = self.n_active;
        let keep = slice_to_vec(slice_subrange(self.alive.as_slice(), 0, n));
        let m = count_kept(&keep);
        if m == n {
            proof {
                assert forall|i: int| 0 <= i < n implies #[trigger] w0.alive@[i] by {
                    if !w0.alive@[i] {
                        assert(keep@[i] == w0.alive@[i]);
                        lemma_kept_count_mono(keep@, (i + 1) as nat, n as nat);
                        lemma_kept_len(keep@, keep@, i as nat);
                        lemma_kept_count_gap(keep@, i as nat, n as nat);
                    }
                }
            }
            return None;
        }
        self.gc_runs = self.gc_runs.wrapping_add(1);
        pack_column(&mut self.cid, keep.as_slice(), n);
        pack_column(&mut self.generation, keep.as_slice(), n);
        pack_column(&mut self.alive, keep.as_slice(), n);
        pack_column(&mut self.herd, keep.as_slice(), n);
        let ghost ks = kept(w0.cid@, keep@, n as nat);
        proof {
            lemma_kept_len(w0.cid@, keep@, n as nat);
            lemma_kept_len(w0.alive@, keep@, n as nat);
            lemma_kept_len(w0.herd@, keep@, n as nat);
            lemma_kept_len(w0.generation@, keep@, n as nat);
            assert(self.cid@.take(m as int) == ks);
            assert forall|q: int| 0 <= q < m implies #[trigger] ks[q] < w0.next_id by {
                let r = lemma_kept_source(w0.cid@, keep@, n as nat, q as nat);
            }
            assert forall|i: int| 0 <= i < m implies #[trigger] self.alive@[i] by {
                let r = lemma_kept_source(w0.alive@, keep@, n as nat, i as nat);
                assert(self.alive@[i] == kept(w0.alive@, keep@, n as nat)[i]);
            }
            assert forall|i: int, j: int| 0 <= i < j < m implies ks[i] < ks[j] by {
                let ri = lemma_kept_source(w0.cid@, keep@, n as nat, i as nat);
                let rj = lemma_kept_source(w0.cid@, keep@, n as nat, j as nat);
                if rj <= ri {
                    lemma_kept_count_mono(keep@, rj, ri);
                }
                assert(w0.cid@.take(n as int)[ri as int] == w0.cid@[ri as int]);
                assert(w0.cid@.take(n as int)[rj as int] == w0.cid@[rj as int]);
            }
        }
        let ghost packed_alive = self.alive@;
        clear_flags(&mut self.alive, m, n);
        proof {
            assert forall|i: int| n <= i < w0.alive@.len() implies #[trigger] self.alive@[i] == w0.alive@[i] by {
                assert(self.alive@[i] == packed_alive[i]);
                assert(packed_alive[i] == w0.alive@.subrange(m as int, w0.alive@.len() as int)[i - m]);
            }
        }
        point_ids(&mut self.id_to_slot, &self.cid, m, Ghost(ks), Ghost(w0.next_id));
        self.n_active = m;
        proof {
            // every id that was alive is among the kept ids
            assert forall|id: int| 0 <= id < w0.cap() && w0.id_to_slot@[id] != INVALID implies exists|j: int|
                0 <= j < m && #[trigger] ks[j] == id by {
                let s = w0.id_to_slot@[id] as int;
                assert(keep@[s] == w0.alive@[s]);
                lemma_kept_index(w0.cid@, keep@, n as nat, s as nat);
                let j = kept_count(keep@, s as nat) as int;
                assert(ks[j] == id);
            }
            assert forall|i: int| 0 <= i < self.n_active && self.alive@[i] implies #[trigger] self.id_to_slot@[self.cid@[i] as int] == i by {
                assert(self.cid@[i] == ks[i]);
            }
            assert forall|id: int| 0 <= id < self.cap() && self.id_to_slot@[id] != INVALID implies ({
                let s = self.id_to_slot@[id] as int;
                &&& s < self.n_active
                &&& self.alive@[s]
                &&& self.cid@[s] == id
            }) by {
                if exists|j: int| 0 <= j < m && ks[j] == id {
                    let j = choose|j: int| 0 <= j < m && ks[j] == id;
                    assert(self.id_to_slot@[ks[j] as int] == j);
                    assert(self.cid@[j] == ks[j]);
                } else {
                    assert(self.id_to_slot@[id] == w0.id_to_slot@[id]);
                }
            }
            assert forall|x: u32| self.is_alive_id(x) == w0.is_alive_id(x) by {
                if x < w0.cap() {
                    if exists|j: int| 0 <= j < m && ks[j] == x {
                        let j = choose|j: int| 0 <= j < m && ks[j] == x;
                        assert(self.id_to_slot@[ks[j] as int] == j);
                        let r = lemma_kept_source(w0.cid@, keep@, n as nat, j as nat);
                        assert(w0.cid@[r as int] == x);
                        assert(keep@[r as int] == w0.alive@[r as int]);
                    } else {
                        assert(self.id_to_slot@[x as int] == w0.id_to_slot@[x as int]);
                    }
                }
            }
            assert(self.alive_ids() =~= w0.alive_ids());
            assert forall|i: int| 0 <= i < self.n_active implies #[trigger] self.cid@[i] < self.next_id by {
                assert(self.cid@[i] == ks[i]);
            }
            assert(self.cid@.take(self.n_active as int) == ks);
        }
        Some(keep)
    }
}

proof fn lemma_live_slots_all(alive: Seq<bool>, n: nat)
    requires
        forall|i: int| 0 <= i < n ==> #[trigger] alive[i],
        n <= u32::MAX + 1,
    ensures
        live_slots(alive, n) == Seq::new(n, |i: int| i as u32),
    decreases n,
{
    if n > 0 {
        assert(alive[n - 1]);
        lemma_live_slots_all(alive, (n - 1) as nat);
        assert(live_slots(alive, n) =~= Seq::new(n, |i: int| i as u32));
    }
}

proof fn lemma_kept_count_all(keep: Seq<bool>, n: nat)
    requires
        forall|i: int| 0 <= i < n ==> #[trigger] keep[i],
    ensures
        kept_count(keep, n) == n,
    decreases n,
{
    if n > 0 {
        assert(keep[n - 1]);
        lemma_kept_count_all(keep, (n - 1) as nat);
    }
}

proof fn lemma_kept_count_gap(keep: Seq<bool>, i: nat, n: nat)
    requires
        i < n,
        !keep[i as int],
    ensures
        kept_count(keep, n) < n,
    decreases n,
{
    lemma_kept_len(keep, keep, (n - 1) as nat);
    if i < n - 1 {
        lemma_kept_count_gap(keep, i, (n - 1) as nat);
    }
}

/// Clear `v[from..to]`.
fn clear_flags(v: &mut Vec<bool>, from: usize, to: usize)
    requires
        from <= to <= old(v)@.len(),
    ensures
        final(v)@.len() == old(v)@.len(),
        forall|q: int| 0 <= q < from ==> #[trigger] final(v)@[q] == old(v)@[q],
        forall|q: int| from <= q < to ==> !#[trigger] final(v)@[q],
        forall|q: int| to <= q < old(v)@.len() ==> #[trigger] final(v)@[q] == old(v)@[q],
{
    let mut i: usize = from;
    while i < to
        invariant
            from <= i <= to,
            to <= v@.len(),
            v@.len() == old(v)@.len(),
            forall|q: int| 0 <= q < from ==> #[trigger] v@[q] == old(v)@[q],
            forall|q: int| from <= q < i ==> !#[trigger] v@[q],
            forall|q: int| to <= q < old(v)@.len() ==> #[trigger] v@[q] == old(v)@[q],
        decreases to - i,
    {
        v.set(i, false);
        i += 1;
    }
}

/// Point each of the first `m` ids of `cid` (distinct, ascending, below `bound`) at its slot.
fn point_ids(id_to_slot: &mut Vec<u32>, cid: &Vec<u32>, m: usize, Ghost(ks): Ghost<Seq<u32>>, Ghost(bound): Ghost<u32>)
    requires
        cid@.take(m as int) == ks,
        m <= cid@.len(),
        cid@.len() < INVALID,
        ascending(ks),
        forall|q: int| 0 <= q < m ==> #[trigger] ks[q] < bound,
        bound <= old(id_to_slot)@.len(),
        old(id_to_slot)@.len() < INVALID,
    ensures
        final(id_to_slot)@.len() == old(id_to_slot)@.len(),
        forall|j: int| 0 <= j < m ==> #[trigger] final(id_to_slot)@[ks[j] as int] == j,
        forall|id: int|
            0 <= id < old(id_to_slot)@.len() && (forall|j: int| 0 <= j < m ==> ks[j] != id) ==> #[trigger] final(id_to_slot)@[id]
                == old(id_to_slot)@[id],
{
    let mut i: usize = 0;
    while i < m
        invariant
            i <= m,
            m <= cid@.len(),
            cid@.len() < INVALID,
            cid@.take(m as int) == ks,
            ascending(ks),
            forall|q: int| 0 <= q < m ==> #[trigger] ks[q] < bound,
            bound <= old(id_to_slot)@.len(),
            old(id_to_slot)@.len() < INVALID,
            id_to_slot@.len() == old(id_to_slot)@.len(),
            forall|j: int| 0 <= j < i ==> #[trigger] id_to_slot@[ks[j] as int] == j,
            forall|id: int|
                0 <= id < old(id_to_slot)@.len() && (forall|j: int| 0 <= j < i ==> ks[j] != id) ==> #[trigger] id_to_slot@[id]
                    == old(id_to_slot)@[id],
        decreases m - i,
    {
        let c = cid[i];
        assert(c == ks[i as int]);
        assert(ks[i as int] < bound);
        id_to_slot.set(c as usize, i as u32);
        i += 1;
        proof {
            assert forall|j: int| 0 <= j < i implies #[trigger] id_to_slot@[ks[j] as int] == j by {
                if j < i - 1 {
                    assert(ks[j] < ks[i - 1]);
                }
            }
        }
    }
}

/// The current slots of `ids`, skipping ids that have none.
pub open spec fn slots_of(ids: Seq<u32>, id_to_slot: Seq<u32>) -> Seq<usize>
    decreases ids.len(),
{
    if ids.len() == 0 {
        Seq::empty()
    } else if id_to_slot[ids.last() as int] != INVALID {
        slots_of(ids.drop_last(), id_to_slot).push(id_to_slot[ids.last() as int] as usize)
    } else {
        slots_of(ids.drop_last(), id_to_slot)
    }
}

/// Every id indexes `id_to_slot`.
pub open spec fn ids_below(ids: Seq<u32>, bound: nat) -> bool {
    forall|q: int| 0 <= q < ids.len() ==> #[trigger] ids[q] < bound
}

/// Resolve ids to their current slots, dropping ids that are gone.
pub fn slots(ids: &[u32], id_to_slot: &[u32]) -> (r: Vec<usize>)
    requires
        ids_below(ids@, id_to_slot@.len()),
    ensures
        r@ == slots_of(ids@, id_to_slot@),
{
    let mut out: Vec<usize> = Vec::with_capacity(ids.len());
    let mut i: usize = 0;
    while i < ids.len()
        invariant
            i <= ids@.len(),
            ids_below(ids@, id_to_slot@.len()),
            out@ == slots_of(ids@.take(i as int), id_to_slot@),
        decreases ids@.len() - i,
    {
        let id = ids[i];
        let s = id_to_slot[id as usize];
        assert(ids@.take(i + 1).drop_last() == ids@.take(i as int));
        if s != INVALID {
            out.push(s as usize);
        }
        i += 1;
    }
    assert(ids@.take(ids@.len() as int) == ids@);
    out
}

proof fn lemma_slots_of_member(ids: Seq<u32>, id_to_slot: Seq<u32>, s: usize)
    requires
        ids_below(ids, id_to_slot.len()),
    ensures
        slots_of(ids, id_to_slot).contains(s) <==> exists|q: int|
            0 <= q < ids.len() && id_to_slot[ids[q] as int] != INVALID && #[trigger] id_to_slot[ids[q] as int] as usize == s,
    decreases ids.len(),
{
    if ids.len() > 0 {
        let pre = ids.drop_last();
        assert(ids_below(pre, id_to_slot.len()));
        lemma_slots_of_member(pre, id_to_slot, s);
        let l = ids.last();
        if slots_of(ids, id_to_slot).contains(s) {
            if slots_of(pre, id_to_slot).contains(s) {
                let q = choose|q: int|
                    0 <= q < pre.len() && id_to_slot[pre[q] as int] != INVALID && #[trigger] id_to_slot[pre[q] as int] as usize == s;
                assert(ids[q] == pre[q]);
            } else {
                assert(id_to_slot[ids[ids.len() - 1] as int] as usize == s);
            }
        }
        if exists|q: int|
            0 <= q < ids.len() && id_to_slot[ids[q] as int] != INVALID && #[trigger] id_to_slot[ids[q] as int] as usize == s {
            let q = choose|q: int|
                0 <= q < ids.len() && id_to_slot[ids[q] as int] != INVALID && #[trigger] id_to_slot[ids[q] as int] as usize == s;
            if q < ids.len() - 1 {
                assert(pre[q] == ids[q]);
                assert(slots_of(pre, id_to_slot).contains(s));
                let i = choose|i: int| 0 <= i < slots_of(pre, id_to_slot).len() && slots_of(pre, id_to_slot)[i] == s;
                if id_to_slot[l as int] != INVALID {
                    assert(slots_of(ids, id_to_slot)[i] == s);
                }
            } else {
                assert(slots_of(ids, id_to_slot).last() == s);
            }
        }
    }
}

/// Set `flags[s]` for each slot listed.
fn mark_slots(flags: &mut Vec<bool>, slots: &Vec<usize>)
    requires
        forall|q: int| 0 <= q < slots@.len() ==> #[trigger] slots@[q] < old(flags)@.len(),
    ensures
        final(flags)@.len() == old(flags)@.len(),
        forall|i: int|
            0 <= i < old(flags)@.len() ==> #[trigger] final(flags)@[i] == (old(flags)@[i] || exists|j: int|
                0 <= j < slots@.len() && #[trigger] slots@[j] as int == i),
{
    let mut q: usize = 0;
    while q < slots.len()
        invariant
            q <= slots@.len(),
            forall|j: int| 0 <= j < slots@.len() ==> #[trigger] slots@[j] < old(flags)@.len(),
            flags@.len() == old(flags)@.len(),
            forall|i: int|
                0 <= i < old(flags)@.len() ==> #[trigger] flags@[i] == (old(flags)@[i] || exists|j: int|
                    0 <= j < q && #[trigger] slots@[j] as int == i),
        decreases slots@.len() - q,
    {
        let s = slots[q];
        let ghost prev = flags@;
        flags.set(s, true);
        q += 1;
        proof {
            assert forall|i: int| 0 <= i < old(flags)@.len() implies #[trigger] flags@[i] == (old(flags)@[i]
                || exists|j: int| 0 <= j < q && #[trigger] slots@[j] as int == i) by {
                if i == s as int {
                    assert(slots@[q - 1] as int == i);
                } else {
                    assert(flags@[i] == prev[i]);
                    if exists|j: int| 0 <= j < q && #[trigger] slots@[j] as int == i {
                        let j = choose|j: int| 0 <= j < q && #[trigger] slots@[j] as int == i;
                        assert(j < q - 1);
                    }
                }
            }
        }
    }
}

/// What a forage system hands `apply`: the slots of the foragers that ate and the ids of
/// what they ate.
pub struct ForagePatch {
    pub forager_slots: Vec<usize>,
    pub target_ids: Vec<u32>,
}

/// The eaten ids of all patches, in patch order.
pub open spec fn eaten_of(foraged: Seq<ForagePatch>) -> Seq<u32>
    decreases foraged.len(),
{
    if foraged.len() == 0 {
        Seq::empty()
    } else {
        eaten_of(foraged.drop_last()) + foraged.last().target_ids@
    }
}

/// Some patch names slot `s` as a forager that ate.
pub open spec fn fed_slot(foraged: Seq<ForagePatch>, s: int) -> bool {
    exists|p: int, q: int|
        0 <= p < foraged.len() && 0 <= q < foraged[p].forager_slots@.len() && #[trigger] foraged[p].forager_slots@[q] as int == s
}

/// Every forager slot is below `n`.
pub open spec fn forager_slots_below(foraged: Seq<ForagePatch>, n: nat) -> bool {
    forall|p: int, q: int|
        0 <= p < foraged.len() && 0 <= q < foraged[p].forager_slots@.len() ==> #[trigger] foraged[p].forager_slots@[q] < n
}

/// Every eaten id is below `bound`.
pub open spec fn targets_below(foraged: Seq<ForagePatch>, bound: nat) -> bool {
    forall|p: int, q: int|
        0 <= p < foraged.len() && 0 <= q < foraged[p].target_ids@.len() ==> #[trigger] foraged[p].target_ids@[q] < bound
}

proof fn lemma_eaten_of(foraged: Seq<ForagePatch>, x: u32)
    ensures
        eaten_of(foraged).contains(x) <==> exists|p: int, q: int|
            0 <= p < foraged.len() && 0 <= q < foraged[p].target_ids@.len() && #[trigger] foraged[p].target_ids@[q] == x,
    decreases foraged.len(),
{
    if foraged.len() > 0 {
        let pre = foraged.drop_last();
        lemma_eaten_of(pre, x);
        let last = foraged.last().target_ids@;
        let e = eaten_of(foraged);
        assert(e == eaten_of(pre) + last);
        if e.contains(x) {
            let i = choose|i: int| 0 <= i < e.len() && e[i] == x;
            if i < eaten_of(pre).len() {
                assert(eaten_of(pre).contains(x));
                let (p, q) = choose|p: int, q: int|
                    0 <= p < pre.len() && 0 <= q < pre[p].target_ids@.len() && #[trigger] pre[p].target_ids@[q] == x;
                assert(foraged[p] == pre[p]);
            } else {
                let q = i - eaten_of(pre).len();
                assert(foraged[foraged.len() - 1].target_ids@[q] == x);
            }
        }
        if exists|p: int, q: int|
            0 <= p < foraged.len() && 0 <= q < foraged[p].target_ids@.len() && #[trigger] foraged[p].target_ids@[q] == x {
            let (p, q) = choose|p: int, q: int|
                0 <= p < foraged.len() && 0 <= q < foraged[p].target_ids@.len() && #[trigger] foraged[p].target_ids@[q] == x;
            if p < foraged.len() - 1 {
                assert(pre[p] == foraged[p]);
                assert(eaten_of(pre).contains(x));
                let i = choose|i: int| 0 <= i < eaten_of(pre).len() && eaten_of(pre)[i] == x;
                assert(e[i] == x);
            } else {
                assert(e[eaten_of(pre).len() + q] == x);
            }
        }
    }
}

/// All eaten ids, patch after patch.
fn eaten_ids(foraged: &[ForagePatch]) -> (r: Vec<u32>)
    ensures
        r@ == eaten_of(foraged@),
{
    let mut r: Vec<u32> = Vec::new();
    let mut p: usize = 0;
    while p < foraged.len()
        invariant
            p <= foraged@.len(),
            r@ == eaten_of(foraged@.take(p as int)),
        decreases foraged@.len() - p,
    {
        let mut t = slice_to_vec(foraged[p].target_ids.as_slice());
        assert(foraged@.take(p + 1).drop_last() == foraged@.take(p as int));
        r.append(&mut t);
        p += 1;
    }
    assert(foraged@.take(foraged@.len() as int) == foraged@);
    r
}

/// Set `flags[s]` for every forager slot of every patch.
fn mark_fed(flags: &mut Vec<bool>, foraged: &[ForagePatch])
    requires
        forager_slots_below(foraged@, old(flags)@.len()),
    ensures
        final(flags)@.len() == old(flags)@.len(),
        forall|i: int| 0 <= i < old(flags)@.len() ==> #[trigger] final(flags)@[i] == (old(flags)@[i] || fed_slot(foraged@, i)),
{
    let mut p: usize = 0;
    while p < foraged.len()
        invariant
            p <= foraged@.len(),
            forager_slots_below(foraged@, old(flags)@.len()),
            flags@.len() == old(flags)@.len(),
            forall|i: int|
                0 <= i < old(flags)@.len() ==> #[trigger] flags@[i] == (old(flags)@[i] || fed_slot(foraged@.take(p as int), i)),
        decreases foraged@.len() - p,
    {
        let ghost prev = flags@;
        assert forall|q: int| 0 <= q < foraged@[p as int].forager_slots@.len() implies #[trigger] foraged@[p as int].forager_slots@[q]
            < prev.len() by {
            assert(foraged@[p as int].forager_slots@[q] < old(flags)@.len());
        }
        mark_slots(flags, &foraged[p].forager_slots);
        p += 1;
        proof {
            let fp = foraged@.take(p as int);
            let fq = foraged@.take(p - 1);
            assert forall|i: int| 0 <= i < old(flags)@.len() implies #[trigger] flags@[i] == (old(flags)@[i] || fed_slot(fp, i)) by {
                if fed_slot(fq, i) {
                    let (a, b) = choose|a: int, b: int|
                        0 <= a < fq.len() && 0 <= b < fq[a].forager_slots@.len() && #[trigger] fq[a].forager_slots@[b] as int == i;
                    assert(fp[a] == fq[a]);
                }
                if exists|j: int| 0 <= j < foraged@[p - 1].forager_slots@.len() && #[trigger] foraged@[p - 1].forager_slots@[j] as int == i {
                    let j = choose|j: int| 0 <= j < foraged@[p - 1].forager_slots@.len() && #[trigger] foraged@[p - 1].forager_slots@[j] as int == i;
                    assert(fp[p - 1].forager_slots@[j] as int == i);
                }
                if fed_slot(fp, i) {
                    let (a, b) = choose|a: int, b: int|
                        0 <= a < fp.len() && 0 <= b < fp[a].forager_slots@.len() && #[trigger] fp[a].forager_slots@[b] as int == i;
                    if a < p - 1 {
                        assert(fq[a] == fp[a]);
                    } else {
                        assert(foraged@[p - 1].forager_slots@[b] as int == i);
                    }
                }
            }
        }
    }
    assert(foraged@.take(foraged@.len() as int) == foraged@);
}

/// The ids of `sub` that still have a slot, in order.
pub open spec fn retained(sub: Seq<u32>, id_to_slot: Seq<u32>) -> Seq<u32>
    decreases sub.len(),
{
    if sub.len() == 0 {
        Seq::empty()
    } else if id_to_slot[sub.last() as int] != INVALID {
        retained(sub.drop_last(), id_to_slot).push(sub.last())
    } else {
        retained(sub.drop_last(), id_to_slot)
    }
}

/// The children among the first `n` whose parent is in `parent_ids` and was a member, in
/// order.
pub open spec fn adopted(members: Seq<u32>, parent_ids: Seq<u32>, poc: Seq<u32>, ids: Seq<u32>, n: nat) -> Seq<u32>
    decreases n,
{
    if n == 0 {
        Seq::empty()
    } else if members.contains(poc[n - 1]) && parent_ids.contains(poc[n - 1]) {
        adopted(members, parent_ids, poc, ids, (n - 1) as nat).push(ids[n - 1])
    } else {
        adopted(members, parent_ids, poc, ids, (n - 1) as nat)
    }
}

/// What a subscription becomes after a commit: its ids that are gone dropped (when anything
/// went), then the children of its member parents appended.
pub open spec fn maintained(
    sub: Seq<u32>,
    parent_ids: Seq<u32>,
    poc: Seq<u32>,
    ids: Seq<u32>,
    id_to_slot: Seq<u32>,
    gone_happened: bool,
) -> Seq<u32> {
    (if gone_happened {
        retained(sub, id_to_slot)
    } else {
        sub
    }) + adopted(sub, parent_ids, poc, ids, ids.len())
}

fn id_set(v: &[u32]) -> (r: HashSet<u32>)
    ensures
        r@ == v@.to_set(),
{
    let mut r: HashSet<u32> = HashSet::new();
    let mut i: usize = 0;
    while i < v.len()
        invariant
            i <= v@.len(),
            r@ == v@.take(i as int).to_set(),
        decreases v@.len() - i,
    {
        r.insert(v[i]);
        i += 1;
        proof {
            assert(v@.take(i as int) == v@.take(i - 1).push(v@[i - 1]));
            assert(v@.take(i as int).to_set() =~= v@.take(i - 1).to_set().insert(v@[i - 1])) by {
                broadcast use vstd::seq_lib::group_seq_properties;
            }
        }
    }
    assert(v@.take(v@.len() as int) == v@);
    r
}

/// Keep a subscription current after a commit: drop its gone ids (when anything went) and
/// adopt the children of its member parents.
pub fn maintain_sub(
    sub: &mut Vec<u32>,
    parent_ids: &[u32],
    parent_of_child: &[u32],
    ids: &[u32],
    id_to_slot: &[u32],
    gone_happened: bool,
)
    requires
        ids@.len() <= parent_of_child@.len(),
        ids_below(old(sub)@, id_to_slot@.len()),
    ensures
        final(sub)@ == maintained(old(sub)@, parent_ids@, parent_of_child@, ids@, id_to_slot@, gone_happened),
{
    let members = id_set(sub.as_slice());
    let mut parents: HashSet<u32> = HashSet::new();
    let mut q: usize = 0;
    while q < parent_ids.len()
        invariant
            q <= parent_ids@.len(),
            members@ == old(sub)@.to_set(),
            forall|x: u32|
                #[trigger] parents@.contains(x) <==> ((exists|j: int| 0 <= j < q && #[trigger] parent_ids@[j] == x)
                    && old(sub)@.contains(x)),
        decreases parent_ids@.len() - q,
    {
        let pid = parent_ids[q];
        if members.contains(&pid) {
            parents.insert(pid);
        }
        q += 1;
        proof {
            assert forall|x: u32|
                #[trigger] parents@.contains(x) <==> ((exists|j: int| 0 <= j < q && #[trigger] parent_ids@[j] == x)
                    && old(sub)@.contains(x)) by {
                if x == pid {
                    assert(parent_ids@[q - 1] == x);
                } else if exists|j: int| 0 <= j < q && #[trigger] parent_ids@[j] == x {
                    let j = choose|j: int| 0 <= j < q && #[trigger] parent_ids@[j] == x;
                    assert(j < q - 1);
                }
            }
        }
    }
    let ghost s0 = sub@;
    if gone_happened {
        let mut kept_ids: Vec<u32> = Vec::new();
        let mut i: usize = 0;
        while i < sub.len()
            invariant
                i <= sub@.len(),
                sub@ == s0,
                ids_below(s0, id_to_slot@.len()),
                kept_ids@ == retained(s0.take(i as int), id_to_slot@),
            decreases sub@.len() - i,
        {
            let id = sub[i];
            assert(s0.take(i + 1).drop_last() == s0.take(i as int));
            if id_to_slot[id as usize] != INVALID {
                kept_ids.push(id);
            }
            i += 1;
        }
        assert(s0.take(s0.len() as int) == s0);
        *sub = kept_ids;
    }
    let ghost base = sub@;
    let mut k: usize = 0;
    while k < ids.len()
        invariant
            k <= ids@.len(),
            ids@.len() <= parent_of_child@.len(),
            forall|x: u32| #[trigger] parents@.contains(x) <==> (parent_ids@.contains(x) && s0.contains(x)),
            sub@ == base + adopted(s0, parent_ids@, parent_of_child@, ids@, k as nat),
        decreases ids@.len() - k,
    {
        if parents.contains(&parent_of_child[k]) {
            sub.push(ids[k]);
        }
        k += 1;
    }
}

/// The parents of `n` children: each parent twice, in order.
pub open spec fn doubled(parent_ids: Seq<u32>) -> Seq<u32> {
    Seq::new(2 * parent_ids.len(), |k: int| parent_ids[k / 2])
}

/// Why a commit stopped: no room for the offspring even after collecting the dead.
#[derive(Clone, Copy, Debug, PartialEq, Eq, Structural)]
pub struct CapacityExceeded;

/// What `apply` committed, for the caller to mirror in the float columns and the log.
pub struct Applied {
    /// Positions in the death list of the deaths that stood.
    pub dead_index: Vec<usize>,
    /// The ids minted for the offspring, in order.
    pub child_ids: Vec<u32>,
    /// Each parent twice, in order: the parent of each offspring.
    pub parent_of_child: Vec<u32>,
    /// The slot of the first offspring; the others follow.
    pub first_child_slot: usize,
    /// The keep mask, when the table was compacted to make room.
    pub packed: Option<Vec<bool>>,
}

impl World {
    /// `ids` holds the live id in slot `s`.
    pub open spec fn slot_named_by(&self, ids: Seq<u32>, s: int) -> bool {
        exists|q: int|
            0 <= q < ids.len() && self.id_to_slot@[ids[q] as int] != INVALID && #[trigger] self.id_to_slot@[ids[q] as int] as int == s
    }

    proof fn lemma_slot_named_by(&self, ids: Seq<u32>, d: u32)
        requires
            self.wf(),
            ids_below(ids, self.cap()),
            self.is_alive_id(d),
        ensures
            self.slot_named_by(ids, self.id_to_slot@[d as int] as int) <==> ids.contains(d),
    {
        let s = self.id_to_slot@[d as int] as int;
        if self.slot_named_by(ids, s) {
            let q = choose|q: int|
                0 <= q < ids.len() && self.id_to_slot@[ids[q] as int] != INVALID && #[trigger] self.id_to_slot@[ids[q] as int] as int == s;
            assert(self.cid@[s] == ids[q]);
        }
        if ids.contains(d) {
            let q = choose|q: int| 0 <= q < ids.len() && ids[q] == d;
            assert(self.id_to_slot@[ids[q] as int] as int == s);
        }
    }

    /// A flag per active slot: whether `ids` names its entity.
    fn flag_ids(&self, ids: &[u32]) -> (f: Vec<bool>)
        requires
            self.wf(),
            ids_below(ids@, self.cap()),
        ensures
            f@.len() == self.n_active,
            forall|i: int| 0 <= i < self.n_active ==> #[trigger] f@[i] == self.slot_named_by(ids@, i),
    {
        let s = slots(ids, self.id_to_slot.as_slice());
        let mut f = vec_of(self.n_active, false);
        proof {
            assert forall|q: int| 0 <= q < s@.len() implies #[trigger] s@[q] < f@.len() by {
                lemma_slots_of_member(ids@, self.id_to_slot@, s@[q]);
                let j = choose|j: int|
                    0 <= j < ids@.len() && self.id_to_slot@[ids@[j] as int] != INVALID && #[trigger] self.id_to_slot@[ids@[j] as int] as usize == s@[q];
                assert(self.id_to_slot@[ids@[j] as int] < self.n_active);
            }
        }
        mark_slots(&mut f, &s);
        proof {
            assert forall|i: int| 0 <= i < self.n_active implies #[trigger] f@[i] == self.slot_named_by(ids@, i) by {
                lemma_slots_of_member(ids@, self.id_to_slot@, i as usize);
                if exists|j: int| 0 <= j < s@.len() && #[trigger] s@[j] as int == i {
                    let j = choose|j: int| 0 <= j < s@.len() && #[trigger] s@[j] as int == i;
                    assert(s@.contains(i as usize));
                    let q = choose|q: int|
                        0 <= q < ids@.len() && self.id_to_slot@[ids@[q] as int] != INVALID && #[trigger] self.id_to_slot@[ids@[q] as int] as usize == i as usize;
                    assert(self.id_to_slot@[ids@[q] as int] as int == i);
                }
                if self.slot_named_by(ids@, i) {
                    let q = choose|q: int|
                        0 <= q < ids@.len() && self.id_to_slot@[ids@[q] as int] != INVALID && #[trigger] self.id_to_slot@[ids@[q] as int] as int == i;
                    assert(self.id_to_slot@[ids@[q] as int] as usize == i as usize);
                    assert(s@.contains(i as usize));
                    let j = choose|j: int| 0 <= j < s@.len() && s@[j] == i as usize;
                    assert(s@[j] as int == i);
                }
            }
        }
        f
    }
}

impl World {
    /// The death of `dead[k]` stands given the slot flags: the entity is alive and its slot
    /// neither reproduced, was eaten, nor fed.
    pub open spec fn stands(&self, dead: Seq<u32>, k: int, is_repro: Seq<bool>, is_eaten: Seq<bool>, is_fed: Seq<bool>) -> bool {
        let d = dead[k];
        let s = self.id_to_slot@[d as int] as int;
        &&& self.is_alive_id(d)
        &&& !is_repro[s]
        &&& !is_eaten[s]
        &&& !is_fed[s]
    }

    fn committed_deaths(&self, dead_ids: &[u32], is_repro: &Vec<bool>, is_eaten: &Vec<bool>, is_fed: &Vec<bool>) -> (idx: Vec<usize>)
        requires
            self.wf(),
            ids_below(dead_ids@, self.cap()),
            is_repro@.len() == self.n_active,
            is_eaten@.len() == self.n_active,
            is_fed@.len() == self.n_active,
        ensures
            forall|j: int| 0 <= j < idx@.len() ==> #[trigger] idx@[j] < dead_ids@.len(),
            forall|j1: int, j2: int| 0 <= j1 < j2 < idx@.len() ==> idx@[j1] < idx@[j2],
            forall|k: int|
                0 <= k < dead_ids@.len() ==> (idx@.contains(k as usize) <==> #[trigger] self.stands(
                    dead_ids@,
                    k,
                    is_repro@,
                    is_eaten@,
                    is_fed@,
                )),
    {
        let mut idx: Vec<usize> = Vec::new();
        let mut k: usize = 0;
        while k < dead_ids.len()
            invariant
                k <= dead_ids@.len(),
                self.wf(),
                ids_below(dead_ids@, self.cap()),
                is_repro@.len() == self.n_active,
                is_eaten@.len() == self.n_active,
                is_fed@.len() == self.n_active,
                forall|j: int| 0 <= j < idx@.len() ==> #[trigger] idx@[j] < k,
                forall|j1: int, j2: int| 0 <= j1 < j2 < idx@.len() ==> idx@[j1] < idx@[j2],
                forall|q: int|
                    0 <= q < k ==> (idx@.contains(q as usize) <==> #[trigger] self.stands(
                        dead_ids@,
                        q,
                        is_repro@,
                        is_eaten@,
                        is_fed@,
                    )),
            decreases dead_ids@.len() - k,
        {
            let id = dead_ids[k];
            let raw = self.id_to_slot[id as usize];
            let ghost before = idx@;
            if raw != INVALID {
                let s = raw as usize;
                if !(is_repro[s] || is_eaten[s] || is_fed[s]) {
                    idx.push(k);
                }
            }
            k += 1;
            proof {
                assert forall|q: int| 0 <= q < k implies (idx@.contains(q as usize) <==> #[trigger] self.stands(
                    dead_ids@,
                    q,
                    is_repro@,
                    is_eaten@,
                    is_fed@,
                )) by {
                    if q < k - 1 {
                        if idx@.contains(q as usize) {
                            let j = choose|j: int| 0 <= j < idx@.len() && idx@[j] == q as usize;
                            if j < before.len() {
                                assert(before[j] == q as usize);
                            }
                        }
                        if before.contains(q as usize) {
                            let j = choose|j: int| 0 <= j < before.len() && before[j] == q as usize;
                            assert(idx@[j] == q as usize);
                        }
                    } else {
                        if self.stands(dead_ids@, q, is_repro@, is_eaten@, is_fed@) {
                            assert(idx@[idx@.len() - 1] == q as usize);
                        }
                        if idx@.contains(q as usize) {
                            let j = choose|j: int| 0 <= j < idx@.len() && idx@[j] == q as usize;
                            if j < before.len() {
                                assert(before[j] < k - 1);
                            }
                        }
                    }
                }
            }
        }
        idx
    }

    /// Take the listed ids out of the table: each live one loses its slot, its slot goes
    /// dead and the slot's generation advances (wrapping, as the release build does).
    fn remove_ids(&mut self, gone: &Vec<u32>)
        requires
            old(self).wf(),
            ids_below(gone@, old(self).cap()),
        ensures
            final(self).wf(),
            forall|x: u32| #[trigger] final(self).is_alive_id(x) <==> old(self).is_alive_id(x) && !gone@.contains(x),
            final(self).cid == old(self).cid,
            final(self).herd == old(self).herd,
            final(self).n_active == old(self).n_active,
            final(self).next_id == old(self).next_id,
            final(self).next_herd_id == old(self).next_herd_id,
            final(self).subs == old(self).subs,
            final(self).gc_runs == old(self).gc_runs,
            final(self).tick == old(self).tick,
            final(self).late_ticks == old(self).late_ticks,
            final(self).peak_n_active == old(self).peak_n_active,
            final(self).generation@.len() == old(self).generation@.len(),
            forall|i: int|
                0 <= i < old(self).n_active ==> #[trigger] final(self).generation@[i] == if old(self).alive@[i] && gone@.contains(
                    old(self).cid@[i],
                ) {
                    old(self).generation@[i].wrapping_add(1)
                } else {
                    old(self).generation@[i]
                },
            forall|i: int|
                0 <= i < old(self).n_active ==> #[trigger] final(self).alive@[i] == (old(self).alive@[i] && !gone@.contains(
                    old(self).cid@[i],
                )),
            forall|x: u32| #[trigger] final(self).is_alive_id(x) ==> final(self).id_to_slot@[x as int] == old(self).id_to_slot@[x as int],
    {
        let ghost w0 = *self;
        let mut q: usize = 0;
        while q < gone.len()
            invariant
                q <= gone@.len(),
                self.wf(),
                ids_below(gone@, w0.cap()),
                self.cap() == w0.cap(),
                self.cid == w0.cid,
                self.herd == w0.herd,
                self.n_active == w0.n_active,
                self.next_id == w0.next_id,
                self.next_herd_id == w0.next_herd_id,
                self.subs == w0.subs,
                self.gc_runs == w0.gc_runs,
                self.tick == w0.tick,
                self.late_ticks == w0.late_ticks,
                self.peak_n_active == w0.peak_n_active,
                self.generation@.len() == w0.generation@.len(),
                forall|x: u32|
                    #[trigger] self.is_alive_id(x) <==> w0.is_alive_id(x) && !gone@.take(q as int).contains(x),
                forall|i: int|
                    0 <= i < w0.n_active ==> #[trigger] self.generation@[i] == if w0.alive@[i] && gone@.take(q as int).contains(
                        w0.cid@[i],
                    ) {
                        w0.generation@[i].wrapping_add(1)
                    } else {
                        w0.generation@[i]
                    },
                forall|i: int| 0 <= i < w0.n_active && self.alive@[i] ==> #[trigger] w0.alive@[i],
                forall|i: int|
                    0 <= i < w0.n_active && w0.alive@[i] && !gone@.take(q as int).contains(w0.cid@[i]) ==> #[trigger] self.alive@[i],
                forall|i: int|
                    0 <= i < w0.n_active && gone@.take(q as int).contains(w0.cid@[i]) ==> !#[trigger] self.alive@[i],
                forall|x: u32| #[trigger] self.is_alive_id(x) ==> self.id_to_slot@[x as int] == w0.id_to_slot@[x as int],
            decreases gone@.len() - q,
        {
            let ghost before = *self;
            let id = gone[q];
            let s = self.id_to_slot[id as usize];
            if s != INVALID {
                let s = s as usize;
                self.alive.set(s, false);
                let g = self.generation[s];
                self.generation.set(s, g.wrapping_add(1));
                self.id_to_slot.set(id as usize, INVALID);
            }
            q += 1;
            proof {
                let tq = gone@.take(q as int);
                let tp = gone@.take(q - 1);
                assert(tq == tp.push(id));
                assert forall|x: u32| tq.contains(x) <==> (tp.contains(x) || x == id) by {
                    if tq.contains(x) && x != id {
                        let j = choose|j: int| 0 <= j < tq.len() && tq[j] == x;
                        assert(tp[j] == x);
                    }
                    if tp.contains(x) {
                        let j = choose|j: int| 0 <= j < tp.len() && tp[j] == x;
                        assert(tq[j] == x);
                    }
                    if x == id {
                        assert(tq[q - 1] == x);
                    }
                }
                if s != INVALID {
                    let si = s as int;
                    assert(before.cid@[si] == id);
                    assert forall|i: int| 0 <= i < self.n_active && self.alive@[i] implies #[trigger] self.id_to_slot@[self.cid@[i] as int] == i by {
                        assert(i != si);
                        assert(before.id_to_slot@[before.cid@[i] as int] == i);
                        if before.cid@[i] == id {
                            assert(before.id_to_slot@[id as int] == si);
                        }
                    }
                    assert forall|x: u32| #[trigger] self.is_alive_id(x) <==> w0.is_alive_id(x) && !tq.contains(x) by {
                        if x != id {
                            assert(self.is_alive_id(x) == before.is_alive_id(x));
                        }
                    }
                    assert forall|i: int|
                        0 <= i < w0.n_active && w0.alive@[i] && !tq.contains(w0.cid@[i]) implies #[trigger] self.alive@[i] by {
                        if i == si {
                            assert(w0.cid@[i] == id);
                        }
                    }
                    assert forall|i: int| 0 <= i < w0.n_active implies #[trigger] self.generation@[i] == if w0.alive@[i]
                        && tq.contains(w0.cid@[i]) {
                        w0.generation@[i].wrapping_add(1)
                    } else {
                        w0.generation@[i]
                    } by {
                        if i == si {
                            assert(before.alive@[i]);
                            assert(w0.alive@[i]);
                            if tp.contains(id) {
                                // the id was already taken out, so its slot could not be live
                                assert(!w0.is_alive_id(id) || tp.contains(id));
                                assert(!before.is_alive_id(id));
                                assert(false);
                            }
                        } else if w0.alive@[i] && w0.cid@[i] == id {
                            assert(w0.id_to_slot@[id as int] == i);
                            if !tp.contains(id) {
                                assert(before.alive@[i]);
                                assert(before.id_to_slot@[before.cid@[i] as int] == i);
                                assert(false);
                            }
                        }
                    }
                    assert forall|i: int| 0 <= i < w0.n_active && tq.contains(w0.cid@[i]) implies !#[trigger] self.alive@[i] by {
                        if i != si && !tp.contains(w0.cid@[i]) {
                            assert(w0.cid@[i] == id);
                            if before.alive@[i] {
                                assert(before.id_to_slot@[before.cid@[i] as int] == i);
                            }
                        }
                    }
                    assert forall|x: u32| #[trigger] self.is_alive_id(x) implies self.id_to_slot@[x as int] == w0.id_to_slot@[x as int] by {
                        if x != id {
                            assert(before.is_alive_id(x));
                        }
                    }
                } else {
                    assert forall|i: int| 0 <= i < w0.n_active && tq.contains(w0.cid@[i]) implies !#[trigger] self.alive@[i] by {
                        if !tp.contains(w0.cid@[i]) {
                            assert(w0.cid@[i] == id);
                            if before.alive@[i] {
                                assert(before.id_to_slot@[before.cid@[i] as int] == i);
                            }
                        }
                    }
                    assert forall|x: u32| #[trigger] self.is_alive_id(x) implies self.id_to_slot@[x as int] == w0.id_to_slot@[x as int] by {
                        assert(before.is_alive_id(x));
                    }
                    assert forall|x: u32| #[trigger] self.is_alive_id(x) <==> w0.is_alive_id(x) && !tq.contains(x) by {
                    }
                    assert forall|i: int| 0 <= i < w0.n_active implies #[trigger] self.generation@[i] == if w0.alive@[i]
                        && tq.contains(w0.cid@[i]) {
                        w0.generation@[i].wrapping_add(1)
                    } else {
                        w0.generation@[i]
                    } by {
                        if w0.alive@[i] && w0.cid@[i] == id && !tp.contains(id) {
                            assert(w0.id_to_slot@[id as int] == i);
                            assert(before.alive@[i]);
                            assert(before.id_to_slot@[before.cid@[i] as int] == i);
                        }
                    }
                    assert forall|i: int|
                        0 <= i < w0.n_active && w0.alive@[i] && !tq.contains(w0.cid@[i]) implies #[trigger] self.alive@[i] by {
                    }
                }
            }
        }
        assert(gone@.take(gone@.len() as int) == gone@);
        assert forall|i: int| 0 <= i < w0.n_active implies #[trigger] self.alive@[i] == (w0.alive@[i] && !gone@.contains(w0.cid@[i])) by {
        }
    }
}

impl World {
    /// Mint one offspring per entry of `born_herd` at the tail: fresh ids from `next_id`,
    /// alive, in the herd given. Returns the ids and each parent twice.
    fn insert_children(&mut self, born_herd: &[u32], parent_ids: &[u32]) -> (r: (Vec<u32>, Vec<u32>))
        requires
            old(self).wf(),
            old(self).n_active + born_herd@.len() <= old(self).cap(),
            old(self).next_id + born_herd@.len() <= old(self).cap(),
        ensures
            final(self).wf(),
            final(self).cap() == old(self).cap(),
            r.0@.len() == born_herd@.len(),
            forall|k: int| 0 <= k < born_herd@.len() ==> #[trigger] r.0@[k] == old(self).next_id + k,
            r.1@ == doubled(parent_ids@),
            final(self).n_active == old(self).n_active + born_herd@.len(),
            final(self).next_id == old(self).next_id + born_herd@.len(),
            forall|k: int| 0 <= k < born_herd@.len() ==> #[trigger] final(self).herd@[old(self).n_active + k] == born_herd@[k],
            forall|k: int| 0 <= k < born_herd@.len() ==> #[trigger] final(self).id_to_slot@[r.0@[k] as int] == old(self).n_active + k,
            forall|x: u32|
                #[trigger] final(self).is_alive_id(x) <==> old(self).is_alive_id(x) || (old(self).next_id <= x
                    < final(self).next_id),
            final(self).subs == old(self).subs,
            final(self).next_herd_id == old(self).next_herd_id,
            final(self).gc_runs == old(self).gc_runs,
            final(self).tick == old(self).tick,
            final(self).late_ticks == old(self).late_ticks,
            final(self).peak_n_active == old(self).peak_n_active,
            final(self).generation == old(self).generation,
            forall|i: int|
                0 <= i < old(self).n_active ==> #[trigger] final(self).cid@[i] == old(self).cid@[i] && final(self).herd@[i]
                    == old(self).herd@[i] && final(self).alive@[i] == old(self).alive@[i],
            forall|id: int| 0 <= id < old(self).next_id ==> #[trigger] final(self).id_to_slot@[id] == old(self).id_to_slot@[id],
    {
        let ghost w0 = *self;
        let nb = born_herd.len();
        let mut ids: Vec<u32> = Vec::new();
        let mut k: usize = 0;
        while k < nb
            invariant
                k <= nb,
                nb == born_herd@.len(),
                self.wf(),
                self.cap() == w0.cap(),
                self.n_active == w0.n_active + k,
                self.next_id == w0.next_id + k,
                w0.n_active + nb <= w0.cap(),
                w0.next_id + nb <= w0.cap(),
                self.subs == w0.subs,
                self.next_herd_id == w0.next_herd_id,
                self.gc_runs == w0.gc_runs,
                self.tick == w0.tick,
                self.late_ticks == w0.late_ticks,
                self.peak_n_active == w0.peak_n_active,
                self.generation == w0.generation,
                forall|i: int|
                    0 <= i < w0.n_active ==> #[trigger] self.cid@[i] == w0.cid@[i] && self.herd@[i] == w0.herd@[i]
                        && self.alive@[i] == w0.alive@[i],
                forall|id: int| 0 <= id < w0.next_id ==> #[trigger] self.id_to_slot@[id] == w0.id_to_slot@[id],
                ids@.len() == k,
                forall|q: int| 0 <= q < k ==> #[trigger] ids@[q] == w0.next_id + q,
                forall|q: int| 0 <= q < k ==> #[trigger] self.herd@[w0.n_active + q] == born_herd@[q],
                forall|q: int| 0 <= q < k ==> #[trigger] self.id_to_slot@[ids@[q] as int] == w0.n_active + q,
                forall|x: u32|
                    #[trigger] self.is_alive_id(x) <==> w0.is_alive_id(x) || (w0.next_id <= x < self.next_id),
            decreases nb - k,
        {
            let ghost before = *self;
            let slot = self.n_active;
            let id = self.next_id;
            proof {
                assert(before.id_to_slot@[id as int] == INVALID) by {
                    if before.id_to_slot@[id as int] != INVALID {
                        let s = before.id_to_slot@[id as int] as int;
                        assert(before.cid@[s] < before.next_id);
                    }
                }
            }
            self.cid.set(slot, id);
            self.herd.set(slot, born_herd[k]);
            self.alive.set(slot, true);
            self.id_to_slot.set(id as usize, slot as u32);
            self.n_active = slot + 1;
            self.next_id = id + 1;
            ids.push(id);
            k += 1;
            proof {
                assert(self.cid@.take(self.n_active as int) =~= before.cid@.take(slot as int).push(id));
                assert forall|q: int| 0 <= q < k implies #[trigger] self.id_to_slot@[ids@[q] as int] == w0.n_active + q by {
                    if q < k - 1 {
                        assert(ids@[q] != id);
                    }
                }
                assert forall|q: int| 0 <= q < k implies #[trigger] self.herd@[w0.n_active + q] == born_herd@[q] by {
                }
                assert forall|x: u32|
                    #[trigger] self.is_alive_id(x) <==> w0.is_alive_id(x) || (w0.next_id <= x < self.next_id) by {
                    if x != id {
                        assert(before.is_alive_id(x) == self.is_alive_id(x));
                    }
                }
            }
        }
        let mut poc: Vec<u32> = Vec::new();
        let mut j: usize = 0;
        while j < parent_ids.len()
            invariant
                j <= parent_ids@.len(),
                poc@ == doubled(parent_ids@.take(j as int)),
            decreases parent_ids@.len() - j,
        {
            let pid = parent_ids[j];
            poc.push(pid);
            poc.push(pid);
            j += 1;
            assert(poc@ =~= doubled(parent_ids@.take(j as int)));
        }
        assert(parent_ids@.take(parent_ids@.len() as int) == parent_ids@);
        (ids, poc)
    }
}

proof fn lemma_retained_within(sub: Seq<u32>, id_to_slot: Seq<u32>, bound: nat)
    requires
        ids_below(sub, bound),
    ensures
        ids_below(retained(sub, id_to_slot), bound),
    decreases sub.len(),
{
    if sub.len() > 0 {
        assert(ids_below(sub.drop_last(), bound));
        lemma_retained_within(sub.drop_last(), id_to_slot, bound);
    }
}

proof fn lemma_adopted_within(members: Seq<u32>, parent_ids: Seq<u32>, poc: Seq<u32>, ids: Seq<u32>, n: nat, bound: nat)
    requires
        ids_below(ids, bound),
        n <= ids.len(),
    ensures
        ids_below(adopted(members, parent_ids, poc, ids, n), bound),
    decreases n,
{
    if n > 0 {
        lemma_adopted_within(members, parent_ids, poc, ids, (n - 1) as nat, bound);
    }
}

impl World {
    /// Maintain every subscription the same way, knowing none of their names.
    #[verifier::spinoff_prover]
    fn maintain_subs(&mut self, parent_ids: &[u32], poc: &[u32], ids: &[u32], gone_happened: bool)
        requires
            old(self).wf(),
            ids@.len() <= poc@.len(),
            ids_below(ids@, old(self).next_id as nat),
        ensures
            final(self).wf(),
            final(self).subs@.len() == old(self).subs@.len(),
            forall|j: int|
                0 <= j < old(self).subs@.len() ==> #[trigger] final(self).subs@[j].name == old(self).subs@[j].name
                    && final(self).subs@[j].ids@ == maintained(
                    old(self).subs@[j].ids@,
                    parent_ids@,
                    poc@,
                    ids@,
                    old(self).id_to_slot@,
                    gone_happened,
                ),
            final(self).cid == old(self).cid,
            final(self).alive == old(self).alive,
            final(self).herd == old(self).herd,
            final(self).generation == old(self).generation,
            final(self).id_to_slot == old(self).id_to_slot,
            final(self).n_active == old(self).n_active,
            final(self).next_id == old(self).next_id,
            final(self).next_herd_id == old(self).next_herd_id,
            final(self).gc_runs == old(self).gc_runs,
            final(self).tick == old(self).tick,
            final(self).late_ticks == old(self).late_ticks,
            final(self).peak_n_active == old(self).peak_n_active,
    {
        let ghost w0 = *self;
        let mut rest: Vec<Sub> = Vec::new();
        std::mem::swap(&mut rest, &mut self.subs);
        let n = rest.len();
        let mut j: usize = 0;
        while j < n
            invariant
                j <= n,
                n == w0.subs@.len(),
                rest@ == w0.subs@.skip(j as int),
                self.subs@.len() == j,
                ids@.len() <= poc@.len(),
                ids_below(ids@, w0.next_id as nat),
                self.cid == w0.cid,
                self.alive == w0.alive,
                self.herd == w0.herd,
                self.generation == w0.generation,
                self.id_to_slot == w0.id_to_slot,
                self.live == w0.live,
                self.n_live == w0.n_live,
                self.n_active == w0.n_active,
                self.next_id == w0.next_id,
                self.next_herd_id == w0.next_herd_id,
                self.gc_runs == w0.gc_runs,
                self.tick == w0.tick,
                self.peak_n_active == w0.peak_n_active,
                self.late_ticks == w0.late_ticks,
                w0.wf(),
                forall|q: int|
                    0 <= q < j ==> #[trigger] self.subs@[q].name == w0.subs@[q].name && self.subs@[q].ids@ == maintained(
                        w0.subs@[q].ids@,
                        parent_ids@,
                        poc@,
                        ids@,
                        w0.id_to_slot@,
                        gone_happened,
                    ),
                forall|k: int, q: int|
                    0 <= k < self.subs@.len() && 0 <= q < self.subs@[k].ids@.len() ==> #[trigger] self.subs@[k].ids@[q]
                        < w0.next_id,
            decreases n - j,
        {
            let entry = rest.remove(0);
            let Sub { name, ids: mut sub_ids } = entry;
            proof {
                assert(entry == w0.subs@[j as int]);
                assert(ids_below(sub_ids@, w0.next_id as nat)) by {
                    assert forall|q: int| 0 <= q < sub_ids@.len() implies #[trigger] sub_ids@[q] < w0.next_id by {
                        assert(w0.subs@[j as int].ids@[q] < w0.next_id);
                    }
                }
            }
            let ghost before = sub_ids@;
            maintain_sub(&mut sub_ids, parent_ids, poc, ids, self.id_to_slot.as_slice(), gone_happened);
            proof {
                lemma_retained_within(before, w0.id_to_slot@, w0.next_id as nat);
                lemma_adopted_within(before, parent_ids@, poc@, ids@, ids@.len(), w0.next_id as nat);
                let m = maintained(before, parent_ids@, poc@, ids@, w0.id_to_slot@, gone_happened);
                assert forall|q: int| 0 <= q < m.len() implies #[trigger] m[q] < w0.next_id by {
                    let head = if gone_happened { retained(before, w0.id_to_slot@) } else { before };
                    if q < head.len() {
                        assert(m[q] == head[q]);
                    } else {
                        assert(m[q] == adopted(before, parent_ids@, poc@, ids@, ids@.len())[q - head.len()]);
                    }
                }
            }
            self.subs.push(Sub { name, ids: sub_ids });
            j += 1;
            proof {
                assert(rest@ =~= w0.subs@.skip(j as int));
            }
        }
        proof {
            assert(self.alive_ids() =~= w0.alive_ids());
        }
    }
}

/// Each subscription of `new` is the one of `old` at its position, kept current.
pub open spec fn subs_maintained(
    old: Seq<Sub>,
    new: Seq<Sub>,
    parent_ids: Seq<u32>,
    poc: Seq<u32>,
    ids: Seq<u32>,
    id_to_slot: Seq<u32>,
    gone_happened: bool,
) -> bool {
    &&& new.len() == old.len()
    &&& forall|j: int|
        0 <= j < old.len() ==> #[trigger] new[j].name == old[j].name && new[j].ids@ == maintained(
            old[j].ids@,
            parent_ids,
            poc,
            ids,
            id_to_slot,
            gone_happened,
        )
}

/// `x` left the table in a commit: its listed death stood, it reproduced, or it was eaten.
pub open spec fn removed_by(dead_ids: Seq<u32>, dead_index: Seq<usize>, parent_ids: Seq<u32>, foraged: Seq<ForagePatch>, x: u32) -> bool {
    ||| exists|j: int| 0 <= j < dead_index.len() && #[trigger] dead_ids[dead_index[j] as int] == x
    ||| parent_ids.contains(x)
    ||| eaten_of(foraged).contains(x)
}

impl World {
    /// A death listed for `d` stands: `d` is alive, did not reproduce, was not eaten, and
    /// did not feed.
    pub open spec fn death_stands(&self, d: u32, parent_ids: Seq<u32>, foraged: Seq<ForagePatch>) -> bool {
        &&& self.is_alive_id(d)
        &&& !parent_ids.contains(d)
        &&& !eaten_of(foraged).contains(d)
        &&& !fed_slot(foraged, self.id_to_slot@[d as int] as int)
    }

    /// The join, the single writer of committed state (its integer half; the caller mirrors
    /// energy, offspring floats and the log from the result). Deaths stand unless the
    /// entity reproduced, was eaten or fed; the dead, the parents and the eaten leave, the
    /// survivors staying in their slots; the offspring are minted at the tail; every
    /// subscription drops its gone ids and adopts its parents' offspring; the live list is
    /// rebuilt. The table compacts first, and fails with `Err` after that, only when the
    /// offspring do not fit at the tail; ids below the capacity leave room for every
    /// offspring the precondition admits, so neither happens (`r is Ok`, `packed is None`).
    #[verifier::spinoff_prover]
    #[verifier::rlimit(60)]
    pub fn apply(&mut self, foraged: &[ForagePatch], parent_ids: &[u32], born_herd: &[u32], dead_ids: &[u32]) -> (r: Result<
        Applied,
        CapacityExceeded,
    >)
        requires
            old(self).wf(),
            forager_slots_below(foraged@, old(self).n_active as nat),
            targets_below(foraged@, old(self).cap()),
            ids_below(parent_ids@, old(self).cap()),
            ids_below(dead_ids@, old(self).cap()),
            born_herd@.len() <= 2 * parent_ids@.len(),
            old(self).next_id + born_herd@.len() <= old(self).cap(),
        ensures
            final(self).wf(),
            final(self).subs@.len() == old(self).subs@.len(),
            final(self).cap() == old(self).cap(),
            final(self).gc_runs == old(self).gc_runs,
            final(self).tick == old(self).tick,
            final(self).next_herd_id == old(self).next_herd_id,
            final(self).late_ticks == old(self).late_ticks,
            final(self).peak_n_active == old(self).peak_n_active,
            r is Ok,
            match r {
                Ok(a) => {
                    let nb = born_herd@.len();
                    &&& final(self).live_ok()
                    &&& forall|j: int| 0 <= j < a.dead_index@.len() ==> #[trigger] a.dead_index@[j] < dead_ids@.len()
                    &&& forall|j1: int, j2: int| 0 <= j1 < j2 < a.dead_index@.len() ==> a.dead_index@[j1] < a.dead_index@[j2]
                    &&& forall|k: int|
                        0 <= k < dead_ids@.len() ==> (a.dead_index@.contains(k as usize) <==> #[trigger] old(self).death_stands(
                            dead_ids@[k],
                            parent_ids@,
                            foraged@,
                        ))
                    &&& a.child_ids@.len() == nb
                    &&& forall|k: int| 0 <= k < nb ==> #[trigger] a.child_ids@[k] == old(self).next_id + k
                    &&& a.parent_of_child@ == (if nb > 0 { doubled(parent_ids@) } else { Seq::empty() })
                    &&& final(self).next_id == old(self).next_id + nb
                    &&& forall|x: u32|
                        #[trigger] final(self).is_alive_id(x) <==> (old(self).is_alive_id(x) && !removed_by(
                            dead_ids@,
                            a.dead_index@,
                            parent_ids@,
                            foraged@,
                            x,
                        )) || (old(self).next_id <= x < final(self).next_id)
                    &&& forall|k: int|
                        0 <= k < nb ==> #[trigger] final(self).id_to_slot@[a.child_ids@[k] as int] == a.first_child_slot + k
                    &&& forall|k: int| 0 <= k < nb ==> #[trigger] final(self).herd@[a.first_child_slot + k] == born_herd@[k]
                    &&& a.packed is None
                    &&& forall|i: int|
                        0 <= i < old(self).n_active ==> #[trigger] final(self).herd@[i] == old(self).herd@[i]
                            && final(self).cid@[i] == old(self).cid@[i] && final(self).alive@[i] == (old(self).alive@[i]
                            && !removed_by(dead_ids@, a.dead_index@, parent_ids@, foraged@, old(self).cid@[i]))
                    &&& forall|x: u32|
                        old(self).is_alive_id(x) && #[trigger] final(self).is_alive_id(x) ==> final(self).id_to_slot@[x as int]
                            == old(self).id_to_slot@[x as int]
                    &&& a.first_child_slot == old(self).n_active
                    &&& final(self).n_active == old(self).n_active + nb
                    &&& forall|i: int|
                        0 <= i < old(self).n_active ==> #[trigger] final(self).generation@[i] == if old(self).alive@[i]
                            && removed_by(dead_ids@, a.dead_index@, parent_ids@, foraged@, old(self).cid@[i]) {
                            old(self).generation@[i].wrapping_add(1)
                        } else {
                            old(self).generation@[i]
                        }
                    &&& subs_maintained(
                        old(self).subs@,
                        final(self).subs@,
                        parent_ids@,
                        a.parent_of_child@,
                        a.child_ids@,
                        final(self).id_to_slot@,
                        a.dead_index@.len() + parent_ids@.len() + eaten_of(foraged@).len() > 0,
                    )
                },
                Err(_) => {
                    &&& born_herd@.len() > 0
                    &&& final(self).n_active + born_herd@.len() > final(self).cap()
                    &&& forall|i: int| 0 <= i < final(self).n_active ==> #[trigger] final(self).alive@[i]
                },
            },
    {
        let ghost w0 = *self;
        let is_repro = self.flag_ids(parent_ids);
        let eaten = eaten_ids(foraged);
        proof {
            assert forall|q: int| 0 <= q < eaten@.len() implies #[trigger] eaten@[q] < w0.cap() by {
                lemma_eaten_of(foraged@, eaten@[q]);
                assert(eaten@.contains(eaten@[q]));
            }
        }
        let is_eaten = self.flag_ids(eaten.as_slice());
        let mut is_fed = vec_of(self.n_active, false);
        mark_fed(&mut is_fed, foraged);
        let dead_index = self.committed_deaths(dead_ids, &is_repro, &is_eaten, &is_fed);
        proof {
            assert forall|k: int| 0 <= k < dead_ids@.len() implies (self.stands(dead_ids@, k, is_repro@, is_eaten@, is_fed@)
                <==> #[trigger] w0.death_stands(dead_ids@[k], parent_ids@, foraged@)) by {
                let d = dead_ids@[k];
                if w0.is_alive_id(d) {
                    w0.lemma_slot_named_by(parent_ids@, d);
                    w0.lemma_slot_named_by(eaten@, d);
                }
            }
        }
        let mut gone: Vec<u32> = Vec::new();
        let mut j: usize = 0;
        while j < dead_index.len()
            invariant
                j <= dead_index@.len(),
                forall|q: int| 0 <= q < dead_index@.len() ==> #[trigger] dead_index@[q] < dead_ids@.len(),
                gone@.len() == j,
                forall|q: int| 0 <= q < j ==> #[trigger] gone@[q] == dead_ids@[dead_index@[q] as int],
            decreases dead_index@.len() - j,
        {
            gone.push(dead_ids[dead_index[j]]);
            j += 1;
        }
        let ghost committed = gone@;
        let mut pcopy = slice_to_vec(parent_ids);
        gone.append(&mut pcopy);
        let mut ecopy = eaten.clone();
        gone.append(&mut ecopy);
        proof {
            assert(gone@ == committed + parent_ids@ + eaten@);
            assert forall|q: int| 0 <= q < gone@.len() implies #[trigger] gone@[q] < w0.cap() by {
                if q < committed.len() {
                    assert(gone@[q] == dead_ids@[dead_index@[q] as int]);
                } else if q < committed.len() + parent_ids@.len() {
                    assert(gone@[q] == parent_ids@[q - committed.len()]);
                } else {
                    assert(gone@[q] == eaten@[q - committed.len() - parent_ids@.len()]);
                }
            }
        }
        self.remove_ids(&gone);
        let ghost w1 = *self;
        let nb = born_herd.len();
        let mut packed: Option<Vec<bool>> = None;
        let mut child_ids: Vec<u32> = Vec::new();
        let mut parent_of_child: Vec<u32> = Vec::new();
        if nb > 0 {
            proof {
                let c = self.cid@.take(self.n_active as int);
                assert forall|i: int| 0 <= i < c.len() implies #[trigger] c[i] < self.next_id by {
                    assert(c[i] == self.cid@[i]);
                }
                lemma_ascending_len(c, self.next_id as int);
            }
            if nb > self.cid.len() - self.n_active {
                packed = self.compact();
            }
            if nb > self.cid.len() - self.n_active {
                return Err(CapacityExceeded);
            }
        }
        let first_child_slot = self.n_active;
        let ghost w2 = *self;
        if nb > 0 {
            let (c, p) = self.insert_children(born_herd, parent_ids);
            child_ids = c;
            parent_of_child = p;
        }
        let ghost w3 = *self;
        let gone_happened = gone.len() > 0;
        proof {
            assert(ids_below(child_ids@, self.next_id as nat)) by {
                assert forall|q: int| 0 <= q < child_ids@.len() implies #[trigger] child_ids@[q] < self.next_id by {
                }
            }
            assert(child_ids@.len() <= parent_of_child@.len());
        }
        self.maintain_subs(parent_ids, parent_of_child.as_slice(), child_ids.as_slice(), gone_happened);
        let ghost w4 = *self;
        self.rebuild_live();
        proof {
            assert(self.id_to_slot == w3.id_to_slot);
            assert forall|x: u32| gone@.contains(x) <==> removed_by(dead_ids@, dead_index@, parent_ids@, foraged@, x) by {
                if gone@.contains(x) {
                    let q = choose|q: int| 0 <= q < gone@.len() && gone@[q] == x;
                    if q < committed.len() {
                        assert(dead_ids@[dead_index@[q] as int] == x);
                    } else if q < committed.len() + parent_ids@.len() {
                        assert(parent_ids@[q - committed.len()] == x);
                    } else {
                        assert(eaten@[q - committed.len() - parent_ids@.len()] == x);
                    }
                }
                if exists|j: int| 0 <= j < dead_index@.len() && #[trigger] dead_ids@[dead_index@[j] as int] == x {
                    let j = choose|j: int| 0 <= j < dead_index@.len() && #[trigger] dead_ids@[dead_index@[j] as int] == x;
                    assert(gone@[j] == x);
                }
                if parent_ids@.contains(x) {
                    let q = choose|q: int| 0 <= q < parent_ids@.len() && parent_ids@[q] == x;
                    assert(gone@[committed.len() + q] == x);
                }
                if eaten_of(foraged@).contains(x) {
                    let q = choose|q: int| 0 <= q < eaten@.len() && eaten@[q] == x;
                    assert(gone@[committed.len() + parent_ids@.len() + q] == x);
                }
            }
            assert(w2.alive_ids() == w1.alive_ids());
            assert(w2.next_id == w0.next_id);
            assert forall|x: u32| #[trigger] self.is_alive_id(x) <==> (w0.is_alive_id(x) && !removed_by(dead_ids@, dead_index@, parent_ids@, foraged@, x)) || (w0.next_id <= x
                < self.next_id) by {
                assert(w2.alive_ids().contains(x) == w1.alive_ids().contains(x));
                assert(w2.is_alive_id(x) == w1.is_alive_id(x));
                assert(w1.is_alive_id(x) == (w0.is_alive_id(x) && !gone@.contains(x)));
                assert(self.is_alive_id(x) == w3.is_alive_id(x));
                if nb == 0 {
                    assert(w3 == w2);
                    assert(self.next_id == w0.next_id);
                } else {
                    assert(w3.is_alive_id(x) == (w2.is_alive_id(x) || (w2.next_id <= x < w3.next_id)));
                }
            }
            assert(gone_happened == (dead_index@.len() + parent_ids@.len() + eaten_of(foraged@).len() > 0));
            assert(first_child_slot == w2.n_active);
            assert forall|k: int| 0 <= k < nb implies #[trigger] self.herd@[first_child_slot + k] == born_herd@[k] by {
                assert(self.herd == w3.herd);
                assert(w3.herd@[w2.n_active + k] == born_herd@[k]);
            }
            assert(w2 == w1);
            assert(self.generation == w1.generation);
            assert forall|i: int| 0 <= i < w0.n_active implies #[trigger] self.generation@[i] == if w0.alive@[i]
                && removed_by(dead_ids@, dead_index@, parent_ids@, foraged@, w0.cid@[i]) {
                w0.generation@[i].wrapping_add(1)
            } else {
                w0.generation@[i]
            } by {
                assert(gone@.contains(w0.cid@[i]) == removed_by(dead_ids@, dead_index@, parent_ids@, foraged@, w0.cid@[i]));
            }
            assert(self.cid == w3.cid && self.herd == w3.herd && self.alive == w3.alive);
            assert forall|i: int| 0 <= i < w0.n_active implies #[trigger] self.herd@[i] == w0.herd@[i] && self.cid@[i] == w0.cid@[i]
                && self.alive@[i] == (w0.alive@[i] && !removed_by(dead_ids@, dead_index@, parent_ids@, foraged@, w0.cid@[i])) by {
                assert(gone@.contains(w0.cid@[i]) == removed_by(dead_ids@, dead_index@, parent_ids@, foraged@, w0.cid@[i]));
                if nb > 0 {
                    assert(w3.cid@[i] == w2.cid@[i] && w3.herd@[i] == w2.herd@[i] && w3.alive@[i] == w2.alive@[i]);
                }
            }
            assert forall|x: u32| w0.is_alive_id(x) && #[trigger] self.is_alive_id(x) implies self.id_to_slot@[x as int]
                == w0.id_to_slot@[x as int] by {
                let s0 = w0.id_to_slot@[x as int] as int;
                assert(w0.cid@[s0] == x);
                assert(x < w0.next_id);
                assert(w1.is_alive_id(x));
                if nb > 0 {
                    assert(w3.id_to_slot@[x as int] == w2.id_to_slot@[x as int]);
                }
            }
        }
        let res = Applied { dead_index, child_ids, parent_of_child, first_child_slot, packed };
        proof {
            assert(w3.subs == w0.subs);
            assert(self.subs == w4.subs);
            assert(self.id_to_slot == w3.id_to_slot);
            assert forall|j: int| 0 <= j < w0.subs@.len() implies #[trigger] self.subs@[j].name == w0.subs@[j].name
                && self.subs@[j].ids@ == maintained(
                w0.subs@[j].ids@,
                parent_ids@,
                res.parent_of_child@,
                res.child_ids@,
                self.id_to_slot@,
                gone_happened,
            ) by {
                assert(w4.subs@[j].name == w3.subs@[j].name);
                assert(w4.subs@[j].ids@ == maintained(
                    w3.subs@[j].ids@,
                    parent_ids@,
                    parent_of_child@,
                    child_ids@,
                    w3.id_to_slot@,
                    gone_happened,
                ));
            }
            assert(res.dead_index@ == dead_index@);
            assert forall|x: u32| #[trigger] self.is_alive_id(x) <==> (w0.is_alive_id(x) && !removed_by(
                dead_ids@,
                res.dead_index@,
                parent_ids@,
                foraged@,
                x,
            )) || (w0.next_id <= x < self.next_id) by {
            }
            assert forall|k: int|
                0 <= k < dead_ids@.len() implies (res.dead_index@.contains(k as usize) <==> #[trigger] w0.death_stands(
                    dead_ids@[k],
                    parent_ids@,
                    foraged@,
                )) by {
                assert(w0.stands(dead_ids@, k, is_repro@, is_eaten@, is_fed@) == w0.death_stands(dead_ids@[k], parent_ids@, foraged@));
            }
            assert(subs_maintained(
                w0.subs@,
                self.subs@,
                parent_ids@,
                res.parent_of_child@,
                res.child_ids@,
                self.id_to_slot@,
                res.dead_index@.len() + parent_ids@.len() + eaten_of(foraged@).len() > 0,
            ));
        }
        Ok(res)
    }
}

/// How many of `ids` still have a slot.
pub open spec fn live_count(ids: Seq<u32>, id_to_slot: Seq<u32>) -> nat
    decreases ids.len(),
{
    if ids.len() == 0 {
        0
    } else if id_to_slot[ids.last() as int] != INVALID {
        live_count(ids.drop_last(), id_to_slot) + 1
    } else {
        live_count(ids.drop_last(), id_to_slot)
    }
}

impl World {
    /// End-of-tick housekeeping: track the peak table size, and every `gc_interval` ticks
    /// compact and rebuild the live list. Returns the keep mask when rows moved.
    pub fn cleanup(&mut self, gc_interval: usize) -> (packed: Option<Vec<bool>>)
        requires
            old(self).wf(),
            old(self).live_ok(),
            gc_interval > 0,
        ensures
            final(self).wf(),
            final(self).live_ok(),
            final(self).cap() == old(self).cap(),
            final(self).alive_ids() == old(self).alive_ids(),
            final(self).next_id == old(self).next_id,
            final(self).subs == old(self).subs,
            final(self).tick == old(self).tick,
            final(self).peak_n_active == if old(self).n_active > old(self).peak_n_active {
                old(self).n_active
            } else {
                old(self).peak_n_active
            },
            old(self).tick % gc_interval != 0 ==> packed is None && final(self).n_active == old(self).n_active,
            old(self).tick % gc_interval == 0 ==> (packed is None <==> forall|i: int|
                0 <= i < old(self).n_active ==> #[trigger] old(self).alive@[i]),
            packed is None ==> final(self).n_active == old(self).n_active && final(self).cid == old(self).cid
                && final(self).herd == old(self).herd && final(self).generation == old(self).generation
                && final(self).gc_runs == old(self).gc_runs && final(self).alive == old(self).alive
                && final(self).id_to_slot == old(self).id_to_slot,
            final(self).next_herd_id == old(self).next_herd_id,
            final(self).late_ticks == old(self).late_ticks,
            old(self).tick % gc_interval != 0 ==> *final(self) == (World { peak_n_active: final(self).peak_n_active, ..*old(self) }),
            old(self).tick % gc_interval == 0 ==> {
                &&& forall|i: int| 0 <= i < final(self).n_active ==> #[trigger] final(self).alive@[i]
                &&& final(self).n_live == final(self).n_active
                &&& forall|i: int| 0 <= i < final(self).n_live ==> #[trigger] final(self).live@[i] == i
            },
            packed matches Some(keep) ==> {
                &&& forall|i: int| final(self).n_active <= i < old(self).n_active ==> !#[trigger] final(self).alive@[i]
                &&& forall|i: int|
                    old(self).n_active <= i < old(self).alive@.len() ==> #[trigger] final(self).alive@[i] == old(self).alive@[i]
                &&& forall|r: int|
                    0 <= r < final(self).n_active ==> #[trigger] final(self).id_to_slot@[final(self).cid@[r] as int] == r
                &&& keep@ == old(self).alive@.take(old(self).n_active as int)
                &&& final(self).n_active == kept_count(keep@, old(self).n_active as nat)
                &&& final(self).cid@.take(final(self).n_active as int) == kept(old(self).cid@, keep@, old(self).n_active as nat)
                &&& final(self).herd@.take(final(self).n_active as int) == kept(old(self).herd@, keep@, old(self).n_active as nat)
                &&& final(self).generation@.take(final(self).n_active as int) == kept(
                    old(self).generation@,
                    keep@,
                    old(self).n_active as nat,
                )
                &&& final(self).gc_runs == old(self).gc_runs.wrapping_add(1)
            },
    {
        if self.n_active > self.peak_n_active {
            self.peak_n_active = self.n_active;
        }
        if self.tick % gc_interval == 0 {
            let ghost before = *self;
            let packed = self.compact();
            let ghost mid = *self;
            self.rebuild_live();
            proof {
                if packed is Some && forall|i: int| 0 <= i < before.n_active ==> #[trigger] before.alive@[i] {
                    let keep = packed->0;
                    assert forall|i: int| 0 <= i < before.n_active implies #[trigger] keep@[i] by {
                        assert(keep@[i] == before.alive@[i]);
                    }
                    lemma_kept_count_all(keep@, before.n_active as nat);
                }
                assert(self.alive_ids() =~= mid.alive_ids());
                assert(mid.alive_ids() == before.alive_ids());
                assert(before.alive_ids() =~= old(self).alive_ids());
                lemma_live_slots_all(self.alive@, self.n_active as nat);
                assert(self.live@.take(self.n_live as int) == Seq::new(self.n_active as nat, |i: int| i as u32));
                assert forall|i: int| 0 <= i < self.n_live implies #[trigger] self.live@[i] == i by {
                    assert(self.live@[i] == self.live@.take(self.n_live as int)[i]);
                }
            }
            packed
        } else {
            proof {
                assert(self.alive_ids() =~= old(self).alive_ids());
            }
            None
        }
    }

    /// The live count of each subscription, in registry order.
    pub fn inspect(&self) -> (counts: Vec<usize>)
        requires
            self.wf(),
        ensures
            counts@.len() == self.subs@.len(),
            forall|j: int| 0 <= j < self.subs@.len() ==> #[trigger] counts@[j] == live_count(self.subs@[j].ids@, self.id_to_slot@),
    {
        let mut counts: Vec<usize> = Vec::new();
        let mut j: usize = 0;
        while j < self.subs.len()
            invariant
                j <= self.subs@.len(),
                self.wf(),
                counts@.len() == j,
                forall|q: int| 0 <= q < j ==> #[trigger] counts@[q] == live_count(self.subs@[q].ids@, self.id_to_slot@),
            decreases self.subs@.len() - j,
        {
            let ids = &self.subs[j].ids;
            let mut c: usize = 0;
            let mut i: usize = 0;
            while i < ids.len()
                invariant
                    i <= ids@.len(),
                    self.wf(),
                    j < self.subs@.len(),
                    *ids == self.subs@[j as int].ids,
                    c == live_count(ids@.take(i as int), self.id_to_slot@),
                    c <= i,
                decreases ids@.len() - i,
            {
                let id = ids[i];
                assert(id < self.next_id) by {
                    assert(self.subs@[j as int].ids@[i as int] < self.next_id);
                }
                assert(ids@.take(i + 1).drop_last() == ids@.take(i as int));
                if self.id_to_slot[id as usize] != INVALID {
                    c += 1;
                }
                i += 1;
            }
            assert(ids@.take(ids@.len() as int) == ids@);
            counts.push(c);
            j += 1;
        }
        counts
    }

    /// The live ids, ascending.
    pub fn live_ids_of(&self) -> (r: Vec<u32>)
        requires
            self.wf(),
        ensures
            ascending(r@),
            forall|x: u32| #[trigger] r@.contains(x) <==> self.is_alive_id(x),
    {
        let mut r: Vec<u32> = Vec::new();
        let mut i: usize = 0;
        while i < self.n_active
            invariant
                i <= self.n_active,
                self.wf(),
                r@ == kept(self.cid@, self.alive@, i as nat),
            decreases self.n_active - i,
        {
            if self.alive[i] {
                r.push(self.cid[i]);
            }
            i += 1;
        }
        proof {
            let n = self.n_active as nat;
            lemma_kept_len(self.cid@, self.alive@, n);
            assert forall|a: int, b: int| 0 <= a < b < r@.len() implies r@[a] < r@[b] by {
                let ra = lemma_kept_source(self.cid@, self.alive@, n, a as nat);
                let rb = lemma_kept_source(self.cid@, self.alive@, n, b as nat);
                if rb <= ra {
                    lemma_kept_count_mono(self.alive@, rb, ra);
                }
                assert(self.cid@.take(n as int)[ra as int] == self.cid@[ra as int]);
                assert(self.cid@.take(n as int)[rb as int] == self.cid@[rb as int]);
            }
            assert forall|x: u32| #[trigger] r@.contains(x) <==> self.is_alive_id(x) by {
                if r@.contains(x) {
                    let q = choose|q: int| 0 <= q < r@.len() && r@[q] == x;
                    let s = lemma_kept_source(self.cid@, self.alive@, n, q as nat);
                    assert(self.id_to_slot@[self.cid@[s as int] as int] == s);
                }
                if self.is_alive_id(x) {
                    let s = self.id_to_slot@[x as int] as int;
                    assert(self.alive@[s] && self.cid@[s] == x);
                    lemma_kept_index(self.cid@, self.alive@, n, s as nat);
                    assert(r@[kept_count(self.alive@, s as nat) as int] == x);
                }
            }
        }
        r
    }
}

/// `slice::sort_unstable` on u32s: the same ids, ascending.
#[verifier::external_body]
pub(crate) fn sort_ids(v: &mut Vec<u32>)
    ensures
        final(v)@.to_multiset() == old(v)@.to_multiset(),
        forall|i: int, j: int| 0 <= i <= j < final(v)@.len() ==> final(v)@[i] <= final(v)@[j],
{
    v.sort_unstable();
}

/// The smallest and the largest value of a non-empty series.
pub open spec fn series_bounds(s: Seq<i64>) -> (i64, i64)
    decreases s.len(),
{
    if s.len() <= 1 {
        (s[0], s[0])
    } else {
        let (lo, hi) = series_bounds(s.drop_last());
        (if s.last() < lo { s.last() } else { lo }, if s.last() > hi { s.last() } else { hi })
    }
}

proof fn lemma_series_bounds(s: Seq<i64>)
    requires
        s.len() > 0,
    ensures
        forall|i: int| 0 <= i < s.len() ==> series_bounds(s).0 <= #[trigger] s[i] <= series_bounds(s).1,
        exists|i: int| 0 <= i < s.len() && s[i] == series_bounds(s).0,
        exists|i: int| 0 <= i < s.len() && s[i] == series_bounds(s).1,
    decreases s.len(),
{
    if s.len() > 1 {
        let p = s.drop_last();
        lemma_series_bounds(p);
        assert forall|i: int| 0 <= i < s.len() implies series_bounds(s).0 <= #[trigger] s[i] <= series_bounds(s).1 by {
            if i < p.len() {
                assert(s[i] == p[i]);
            }
        }
        let i0 = choose|i: int| 0 <= i < p.len() && p[i] == series_bounds(p).0;
        let i1 = choose|i: int| 0 <= i < p.len() && p[i] == series_bounds(p).1;
        assert(s[i0] == p[i0]);
        assert(s[i1] == p[i1]);
        assert(s[s.len() - 1] == s.last());
    } else {
        assert(s[0] == series_bounds(s).0);
    }
}

/// The range of a population series, `(min, max)`; `None` for an empty series.
pub fn series_range(series: &[i64]) -> (r: Option<(i64, i64)>)
    ensures
        series@.len() == 0 <==> r is None,
        r matches Some(b) ==> b == series_bounds(series@),
        r matches Some(b) ==> forall|i: int| 0 <= i < series@.len() ==> b.0 <= #[trigger] series@[i] <= b.1,
{
    if series.len() == 0 {
        return None;
    }
    let mut lo = series[0];
    let mut hi = series[0];
    let mut i: usize = 1;
    while i < series.len()
        invariant
            1 <= i <= series@.len(),
            (lo, hi) == series_bounds(series@.take(i as int)),
        decreases series@.len() - i,
    {
        assert(series@.take(i + 1).drop_last() =~= series@.take(i as int));
        if series[i] < lo {
            lo = series[i];
        }
        if series[i] > hi {
            hi = series[i];
        }
        i += 1;
    }
    assert(series@.take(i as int) =~= series@);
    proof {
        lemma_series_bounds(series@);
    }
    Some((lo, hi))
}

/// How many of the first `n` listed slots belong to herd `h`.
pub open spec fn herd_count(herd: Seq<u32>, slots: Seq<usize>, n: nat, h: int) -> nat
    decreases n,
{
    if n == 0 {
        0
    } else if herd[slots[n - 1] as int] == h {
        herd_count(herd, slots, (n - 1) as nat, h) + 1
    } else {
        herd_count(herd, slots, (n - 1) as nat, h)
    }
}

proof fn lemma_herd_count_le(herd: Seq<u32>, slots: Seq<usize>, n: nat, h: int)
    ensures
        herd_count(herd, slots, n, h) <= n,
    decreases n,
{
    if n > 0 {
        lemma_herd_count_le(herd, slots, (n - 1) as nat, h);
    }
}

/// The size of each herd `0..nh` among the listed slots.
pub fn herd_sizes(herd: &[u32], slots: &[usize], nh: usize) -> (r: Vec<usize>)
    requires
        forall|q: int| 0 <= q < slots@.len() ==> #[trigger] slots@[q] < herd@.len() && herd@[slots@[q] as int] < nh,
    ensures
        r@.len() == nh,
        forall|h: int| 0 <= h < nh ==> #[trigger] r@[h] == herd_count(herd@, slots@, slots@.len() as nat, h),
{
    let mut r = vec_of(nh, 0usize);
    let mut q: usize = 0;
    while q < slots.len()
        invariant
            q <= slots@.len(),
            r@.len() == nh,
            forall|k: int| 0 <= k < slots@.len() ==> #[trigger] slots@[k] < herd@.len() && herd@[slots@[k] as int] < nh,
            forall|h: int| 0 <= h < nh ==> #[trigger] r@[h] == herd_count(herd@, slots@, q as nat, h),
        decreases slots@.len() - q,
    {
        let h = herd[slots[q]] as usize;
        proof {
            lemma_herd_count_le(herd@, slots@, q as nat, h as int);
        }
        let c = r[h];
        r.set(h, c + 1);
        q += 1;
    }
    r
}

/// Slot `i` is one of `members` whose flag in `moves` is set.
pub open spec fn moved_slot(members: Seq<usize>, moves: Seq<bool>, i: int) -> bool {
    exists|q: int| 0 <= q < members.len() && #[trigger] members[q] as int == i && moves[q]
}

impl World {
    /// Split a herd: the flagged members move to a new herd, numbered `next_herd_id`, which
    /// then advances.
    pub fn split_herd(&mut self, members: &[usize], moves: &[bool])
        requires
            old(self).wf(),
            members@.len() == moves@.len(),
            forall|q: int| 0 <= q < members@.len() ==> #[trigger] members@[q] < old(self).cap(),
            old(self).next_herd_id < u32::MAX,
        ensures
            final(self).wf(),
            final(self).herd@.len() == old(self).herd@.len(),
            forall|i: int|
                0 <= i < old(self).herd@.len() ==> #[trigger] final(self).herd@[i] == if moved_slot(members@, moves@, i) {
                    old(self).next_herd_id
                } else {
                    old(self).herd@[i]
                },
            final(self).next_herd_id == old(self).next_herd_id + 1,
            *final(self) == (World { herd: final(self).herd, next_herd_id: final(self).next_herd_id, ..*old(self) }),
    {
        let ghost w0 = *self;
        let h = self.next_herd_id;
        let mut q: usize = 0;
        while q < members.len()
            invariant
                q <= members@.len(),
                members@.len() == moves@.len(),
                forall|k: int| 0 <= k < members@.len() ==> #[trigger] members@[k] < w0.cap(),
                h == w0.next_herd_id,
                w0.wf(),
                w0.herd@.len() == w0.cap(),
                *self == (World { herd: self.herd, ..w0 }),
                self.herd@.len() == w0.herd@.len(),
                forall|i: int|
                    0 <= i < w0.herd@.len() ==> #[trigger] self.herd@[i] == if moved_slot(members@.take(q as int), moves@.take(q as int), i) {
                        h
                    } else {
                        w0.herd@[i]
                    },
            decreases members@.len() - q,
        {
            let ghost before = self.herd@;
            if moves[q] {
                self.herd.set(members[q], h);
            }
            q += 1;
            proof {
                assert forall|i: int| 0 <= i < w0.herd@.len() implies #[trigger] self.herd@[i] == if moved_slot(
                    members@.take(q as int),
                    moves@.take(q as int),
                    i,
                ) {
                    h
                } else {
                    w0.herd@[i]
                } by {
                    let mt = members@.take(q as int);
                    let vt = moves@.take(q as int);
                    let mp = members@.take(q - 1);
                    let vp = moves@.take(q - 1);
                    if moved_slot(mp, vp, i) {
                        let k = choose|k: int| 0 <= k < mp.len() && #[trigger] mp[k] as int == i && vp[k];
                        assert(mt[k] == mp[k] && vt[k] == vp[k]);
                    }
                    if moved_slot(mt, vt, i) {
                        let k = choose|k: int| 0 <= k < mt.len() && #[trigger] mt[k] as int == i && vt[k];
                        if k < q - 1 {
                            assert(mp[k] == mt[k] && vp[k] == vt[k]);
                        }
                    }
                    if moves@[q - 1] && members@[q - 1] as int == i {
                        assert(mt[q - 1] as int == i && vt[q - 1]);
                    }
                }
            }
        }
        proof {
            assert(members@.take(members@.len() as int) =~= members@);
            assert(moves@.take(moves@.len() as int) =~= moves@);
        }
        self.next_herd_id = h + 1;
    }
}

/// The ids a log says are alive: born and never dead, ascending.
pub fn replay_live_ids(born: &[u32], dead: &[u32]) -> (r: Vec<u32>)
    ensures
        ascending(r@),
        forall|x: u32| #[trigger] r@.contains(x) <==> born@.contains(x) && !dead@.contains(x),
{
    broadcast use vstd::seq_lib::group_to_multiset_ensures;

    let dead_set = id_set(dead);
    let mut cand: Vec<u32> = Vec::new();
    let mut i: usize = 0;
    while i < born.len()
        invariant
            i <= born@.len(),
            dead_set@ == dead@.to_set(),
            forall|x: u32| #[trigger] cand@.contains(x) <==> (exists|q: int| 0 <= q < i && #[trigger] born@[q] == x) && !dead@.contains(x),
        decreases born@.len() - i,
    {
        let b = born[i];
        let ghost before = cand@;
        if !dead_set.contains(&b) {
            cand.push(b);
        }
        i += 1;
        proof {
            assert forall|x: u32| #[trigger] cand@.contains(x) <==> (exists|q: int| 0 <= q < i && #[trigger] born@[q] == x) && !dead@.contains(x) by {
                if x == b {
                    assert(born@[i - 1] == x);
                    if !dead@.contains(x) {
                        assert(cand@[cand@.len() - 1] == x);
                    }
                } else {
                    if cand@.contains(x) {
                        let q = choose|q: int| 0 <= q < cand@.len() && cand@[q] == x;
                        assert(before[q] == x);
                    }
                    if before.contains(x) {
                        let q = choose|q: int| 0 <= q < before.len() && before[q] == x;
                        assert(cand@[q] == x);
                    }
                    if exists|q: int| 0 <= q < i && #[trigger] born@[q] == x {
                        let q = choose|q: int| 0 <= q < i && #[trigger] born@[q] == x;
                        assert(q < i - 1);
                    }
                }
            }
        }
    }
    let ghost c0 = cand@;
    sort_ids(&mut cand);
    proof {
        assert forall|x: u32| cand@.contains(x) == c0.contains(x) by {
            assert(cand@.to_multiset().count(x) == c0.to_multiset().count(x));
        }
    }
    let mut r: Vec<u32> = Vec::new();
    let mut k: usize = 0;
    while k < cand.len()
        invariant
            k <= cand@.len(),
            forall|a: int, b: int| 0 <= a <= b < cand@.len() ==> cand@[a] <= cand@[b],
            ascending(r@),
            r@.len() > 0 ==> k > 0 && r@.last() == cand@[k - 1],
            k > 0 ==> r@.len() > 0,
            forall|x: u32| #[trigger] r@.contains(x) <==> exists|q: int| 0 <= q < k && #[trigger] cand@[q] == x,
        decreases cand@.len() - k,
    {
        let c = cand[k];
        let ghost before = r@;
        if r.len() == 0 || r[r.len() - 1] != c {
            proof {
                if before.len() > 0 {
                    assert(before.last() <= c);
                }
            }
            r.push(c);
        }
        k += 1;
        proof {
            assert forall|x: u32| #[trigger] r@.contains(x) <==> exists|q: int| 0 <= q < k && #[trigger] cand@[q] == x by {
                if x == c {
                    assert(cand@[k - 1] == x);
                    assert(r@.last() == x);
                    assert(r@[r@.len() - 1] == x);
                } else {
                    if r@.contains(x) {
                        let q = choose|q: int| 0 <= q < r@.len() && r@[q] == x;
                        assert(before[q] == x);
                    }
                    if before.contains(x) {
                        let q = choose|q: int| 0 <= q < before.len() && before[q] == x;
                        assert(r@[q] == x);
                    }
                    if exists|q: int| 0 <= q < k && #[trigger] cand@[q] == x {
                        let q = choose|q: int| 0 <= q < k && #[trigger] cand@[q] == x;
                        assert(q < k - 1);
                    }
                }
            }
        }
    }
    proof {
        assert forall|x: u32| #[trigger] r@.contains(x) <==> born@.contains(x) && !dead@.contains(x) by {
            if exists|q: int| 0 <= q < cand@.len() && #[trigger] cand@[q] == x {
                let q = choose|q: int| 0 <= q < cand@.len() && #[trigger] cand@[q] == x;
                assert(cand@.contains(x));
                assert(c0.contains(x));
                assert(exists|p: int| 0 <= p < born@.len() && #[trigger] born@[p] == x);
            }
            if born@.contains(x) && !dead@.contains(x) {
                let p = choose|p: int| 0 <= p < born@.len() && born@[p] == x;
                assert(born@[p] == x);
                assert(c0.contains(x));
                assert(cand@.contains(x));
                let q = choose|q: int| 0 <= q < cand@.len() && cand@[q] == x;
                assert(cand@[q] == x);
            }
        }
    }
    r
}

impl World {
    /// The world is in step with a log of births and deaths: an id is live exactly when
    /// the log has it born and not dead, and the log names only ids already minted.
    pub open spec fn tracks(&self, born: Seq<u32>, dead: Seq<u32>) -> bool {
        &&& forall|x: u32| #[trigger] self.is_alive_id(x) <==> born.contains(x) && !dead.contains(x)
        &&& ids_below(born, self.next_id as nat)
        &&& ids_below(dead, self.next_id as nat)
    }
}

/// The ids of the deaths that stood, in order.
pub open spec fn committed_ids(dead_ids: Seq<u32>, dead_index: Seq<usize>) -> Seq<u32> {
    Seq::new(dead_index.len(), |j: int| dead_ids[dead_index[j] as int])
}

/// The ids `from .. from + n`.
pub open spec fn id_range(from: u32, n: nat) -> Seq<u32> {
    Seq::new(n, |k: int| (from + k) as u32)
}

proof fn lemma_ascending_same_members(a: Seq<u32>, b: Seq<u32>)
    requires
        ascending(a),
        ascending(b),
        forall|x: u32| a.contains(x) <==> b.contains(x),
    ensures
        a == b,
    decreases a.len() + b.len(),
{
    if a.len() == 0 {
        if b.len() > 0 {
            assert(b.contains(b[0]));
        }
    } else if b.len() == 0 {
        assert(a.contains(a[0]));
    } else {
        let la = a.last();
        let lb = b.last();
        assert(a.contains(la));
        assert(b.contains(lb));
        let ia = choose|i: int| 0 <= i < a.len() && a[i] == lb;
        let ib = choose|i: int| 0 <= i < b.len() && b[i] == la;
        assert(la == lb) by {
            if la < lb {
                assert(a[ia] <= la) by {
                    if ia < a.len() - 1 {
                    }
                }
            } else if lb < la {
                assert(b[ib] <= lb) by {
                    if ib < b.len() - 1 {
                    }
                }
            }
        }
        let a2 = a.drop_last();
        let b2 = b.drop_last();
        assert forall|x: u32| a2.contains(x) <==> b2.contains(x) by {
            if a2.contains(x) {
                let i = choose|i: int| 0 <= i < a2.len() && a2[i] == x;
                assert(a[i] == x && x < la);
                assert(b.contains(x));
                let j = choose|j: int| 0 <= j < b.len() && b[j] == x;
                if j == b.len() - 1 {
                    assert(false);
                }
                assert(b2[j] == x);
            }
            if b2.contains(x) {
                let i = choose|i: int| 0 <= i < b2.len() && b2[i] == x;
                assert(b[i] == x && x < lb);
                assert(a.contains(x));
                let j = choose|j: int| 0 <= j < a.len() && a[j] == x;
                if j == a.len() - 1 {
                    assert(false);
                }
                assert(a2[j] == x);
            }
        }
        lemma_ascending_same_members(a2, b2);
        assert(a =~= a2.push(la));
        assert(b =~= b2.push(lb));
    }
}

/// Replay reconstructs the world: when the world is in step with its log, the ids the
/// log replays as alive are exactly the world's live ids, in the same (ascending) order.
pub proof fn replay_reconstructs_live(w: World, born: Seq<u32>, dead: Seq<u32>, live: Seq<u32>, replayed: Seq<u32>)
    requires
        w.tracks(born, dead),
        ascending(live),
        forall|x: u32| #[trigger] live.contains(x) <==> w.is_alive_id(x),
        ascending(replayed),
        forall|x: u32| #[trigger] replayed.contains(x) <==> born.contains(x) && !dead.contains(x),
    ensures
        live == replayed,
{
    assert forall|x: u32| live.contains(x) <==> replayed.contains(x) by {
        assert(w.is_alive_id(x) <==> born.contains(x) && !dead.contains(x));
    }
    lemma_ascending_same_members(live, replayed);
}

/// Founding keeps the world in step with its log: minting `n` founders and logging their
/// ids as born.
pub proof fn founding_keeps_log_in_step(before: World, after: World, born: Seq<u32>, dead: Seq<u32>, n: nat)
    requires
        before.tracks(born, dead),
        after.next_id == before.next_id + n,
        forall|x: u32| #[trigger] after.is_alive_id(x) <==> before.is_alive_id(x) || (before.next_id <= x < after.next_id),
    ensures
        after.tracks(born + id_range(before.next_id, n), dead),
{
    let nb = born + id_range(before.next_id, n);
    assert forall|x: u32| #[trigger] after.is_alive_id(x) <==> nb.contains(x) && !dead.contains(x) by {
        if before.next_id <= x < after.next_id {
            assert(nb[born.len() + (x - before.next_id)] == x);
            if dead.contains(x) {
                let q = choose|q: int| 0 <= q < dead.len() && dead[q] == x;
                assert(dead[q] < before.next_id);
            }
        }
        if nb.contains(x) {
            let q = choose|q: int| 0 <= q < nb.len() && nb[q] == x;
            if q < born.len() {
                assert(born[q] == x);
                assert(born.contains(x));
            }
        }
        if born.contains(x) {
            let q = choose|q: int| 0 <= q < born.len() && born[q] == x;
            assert(nb[q] == x);
            assert(born[q] < before.next_id);
        }
    }
    assert forall|q: int| 0 <= q < nb.len() implies #[trigger] nb[q] < after.next_id by {
        if q < born.len() {
            assert(born[q] < before.next_id);
        }
    }
    assert forall|q: int| 0 <= q < dead.len() implies #[trigger] dead[q] < after.next_id by {
        assert(dead[q] < before.next_id);
    }
}

/// A commit keeps the world in step with its log: logging the offspring as born, and the
/// deaths that stood, the parents and the eaten as dead — as long as the patches name only
/// ids already minted.
pub proof fn commit_keeps_log_in_step(
    before: World,
    after: World,
    born: Seq<u32>,
    dead: Seq<u32>,
    foraged: Seq<ForagePatch>,
    parent_ids: Seq<u32>,
    dead_ids: Seq<u32>,
    dead_index: Seq<usize>,
    nb: nat,
)
    requires
        before.tracks(born, dead),
        ids_below(parent_ids, before.next_id as nat),
        ids_below(eaten_of(foraged), before.next_id as nat),
        ids_below(dead_ids, before.next_id as nat),
        forall|j: int| 0 <= j < dead_index.len() ==> #[trigger] dead_index[j] < dead_ids.len(),
        after.next_id == before.next_id + nb,
        forall|x: u32|
            #[trigger] after.is_alive_id(x) <==> (before.is_alive_id(x) && !removed_by(dead_ids, dead_index, parent_ids, foraged, x))
                || (before.next_id <= x < after.next_id),
    ensures
        after.tracks(
            born + id_range(before.next_id, nb),
            dead + committed_ids(dead_ids, dead_index) + parent_ids + eaten_of(foraged),
        ),
{
    let cb = id_range(before.next_id, nb);
    let nborn = born + cb;
    let ci = committed_ids(dead_ids, dead_index);
    let ndead = dead + ci + parent_ids + eaten_of(foraged);
    assert forall|x: u32| ndead.contains(x) <==> dead.contains(x) || removed_by(dead_ids, dead_index, parent_ids, foraged, x) by {
        let e = eaten_of(foraged);
        if ndead.contains(x) {
            let q = choose|q: int| 0 <= q < ndead.len() && ndead[q] == x;
            if q < dead.len() {
                assert(dead[q] == x);
            } else if q < dead.len() + ci.len() {
                assert(dead_ids[dead_index[q - dead.len()] as int] == x);
            } else if q < dead.len() + ci.len() + parent_ids.len() {
                assert(parent_ids[q - dead.len() - ci.len()] == x);
            } else {
                assert(e[q - dead.len() - ci.len() - parent_ids.len()] == x);
            }
        }
        if dead.contains(x) {
            let q = choose|q: int| 0 <= q < dead.len() && dead[q] == x;
            assert(ndead[q] == x);
        }
        if exists|j: int| 0 <= j < dead_index.len() && #[trigger] dead_ids[dead_index[j] as int] == x {
            let j = choose|j: int| 0 <= j < dead_index.len() && #[trigger] dead_ids[dead_index[j] as int] == x;
            assert(ndead[dead.len() + j] == x);
        }
        if parent_ids.contains(x) {
            let q = choose|q: int| 0 <= q < parent_ids.len() && parent_ids[q] == x;
            assert(ndead[dead.len() + ci.len() + q] == x);
        }
        if e.contains(x) {
            let q = choose|q: int| 0 <= q < e.len() && e[q] == x;
            assert(ndead[dead.len() + ci.len() + parent_ids.len() + q] == x);
        }
    }
    assert forall|q: int| 0 <= q < ndead.len() implies #[trigger] ndead[q] < after.next_id by {
        let e = eaten_of(foraged);
        if q < dead.len() {
            assert(ndead[q] == dead[q]);
        } else if q < dead.len() + ci.len() {
            assert(ndead[q] == dead_ids[dead_index[q - dead.len()] as int]);
        } else if q < dead.len() + ci.len() + parent_ids.len() {
            assert(ndead[q] == parent_ids[q - dead.len() - ci.len()]);
        } else {
            assert(ndead[q] == e[q - dead.len() - ci.len() - parent_ids.len()]);
        }
    }
    assert forall|x: u32| #[trigger] after.is_alive_id(x) <==> nborn.contains(x) && !ndead.contains(x) by {
        let removed = removed_by(dead_ids, dead_index, parent_ids, foraged, x);
        if before.next_id <= x < after.next_id {
            assert(nborn[born.len() + (x - before.next_id)] == x);
            if dead.contains(x) {
                let q = choose|q: int| 0 <= q < dead.len() && dead[q] == x;
                assert(dead[q] < before.next_id);
            }
            if removed {
                if exists|j: int| 0 <= j < dead_index.len() && #[trigger] dead_ids[dead_index[j] as int] == x {
                    let j = choose|j: int| 0 <= j < dead_index.len() && #[trigger] dead_ids[dead_index[j] as int] == x;
                    assert(dead_ids[dead_index[j] as int] < before.next_id);
                }
                if parent_ids.contains(x) {
                    let q = choose|q: int| 0 <= q < parent_ids.len() && parent_ids[q] == x;
                    assert(parent_ids[q] < before.next_id);
                }
                if eaten_of(foraged).contains(x) {
                    let q = choose|q: int| 0 <= q < eaten_of(foraged).len() && eaten_of(foraged)[q] == x;
                    assert(eaten_of(foraged)[q] < before.next_id);
                }
            }
        }
        if nborn.contains(x) {
            let q = choose|q: int| 0 <= q < nborn.len() && nborn[q] == x;
            if q < born.len() {
                assert(born[q] == x);
                assert(born.contains(x));
            }
        }
        if born.contains(x) {
            let q = choose|q: int| 0 <= q < born.len() && born[q] == x;
            assert(nborn[q] == x);
            assert(born[q] < before.next_id);
        }
    }
    assert forall|q: int| 0 <= q < nborn.len() implies #[trigger] nborn[q] < after.next_id by {
        if q < born.len() {
            assert(born[q] < before.next_id);
        }
    }
}

} // verus!
