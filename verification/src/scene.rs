use vstd::prelude::*;
use crate::lcg::{lcg_step, Lcg};

verus! {

/// The parent of the root.
pub const NO_PARENT: u32 = 0xFFFF_FFFF;

/// No node is grown deeper than this.
pub const MAX_DEPTH: u32 = 24;

/// The shape of a flat scene tree laid out in pre-order: `parent[i]` is the parent of node
/// `i` (`NO_PARENT` for the root, node 0) and `subtree[i]` counts the nodes of `i`'s
/// subtree, `i` included.
pub struct Tree {
    pub parent: Vec<u32>,
    pub subtree: Vec<u32>,
}

/// The nodes `[lo, hi)` hold complete subtrees hanging from `root`, in pre-order: each
/// node's range stays inside `[lo, hi)`, its parent is `root` or an earlier node of the
/// block, the parent of a node inside a range is the range's root or inside it, ranges
/// nest, and a node lies inside its parent's range.
pub open spec fn forest_ok(parent: Seq<u32>, subtree: Seq<u32>, lo: int, hi: int, root: u32) -> bool {
    &&& 0 <= lo <= hi <= parent.len()
    &&& hi <= subtree.len()
    &&& hi < NO_PARENT
    &&& forall|j: int| lo <= j < hi ==> 1 <= #[trigger] subtree[j] && j + subtree[j] <= hi
    &&& forall|j: int| lo <= j < hi ==> #[trigger] parent[j] == root || (lo <= parent[j] < j)
    &&& forall|m: int, j: int|
        lo <= m < j < m + subtree[m] && j < hi ==> m <= #[trigger] parent[j] && parent[j] != root
            && #[trigger] subtree[m] > 0
    &&& forall|m: int, j: int|
        lo <= m <= j < m + subtree[m] && j < hi ==> j + #[trigger] subtree[j] <= m + #[trigger] subtree[m]
    &&& forall|j: int|
        lo <= j < hi && #[trigger] parent[j] != root ==> j < parent[j] + subtree[parent[j] as int]
}

/// The nodes `[me, hi)` are the subtree of `me`, whose parent is `up`.
pub open spec fn subtree_ok(parent: Seq<u32>, subtree: Seq<u32>, me: int, hi: int, up: u32) -> bool {
    &&& 0 <= me < hi <= parent.len()
    &&& hi <= subtree.len()
    &&& parent[me] == up
    &&& subtree[me] == hi - me
    &&& up == NO_PARENT || up < me
    &&& forest_ok(parent, subtree, me + 1, hi, me as u32)
}

/// A whole tree of `n >= 1` nodes with root 0 in pre-order.
pub open spec fn tree_ok(parent: Seq<u32>, subtree: Seq<u32>) -> bool {
    &&& parent.len() == subtree.len()
    &&& parent.len() >= 1
    &&& parent.len() < NO_PARENT
    &&& subtree_ok(parent, subtree, 0, parent.len() as int, NO_PARENT)
}

/// `m` is `j` or one of its ancestors.
pub open spec fn is_ancestor(parent: Seq<u32>, m: int, j: int) -> bool
    decreases j,
{
    if j == m {
        true
    } else if 0 <= j < parent.len() && parent[j] != NO_PARENT && parent[j] < j {
        is_ancestor(parent, m, parent[j] as int)
    } else {
        false
    }
}

proof fn lemma_forest_frame(
    p0: Seq<u32>,
    s0: Seq<u32>,
    p1: Seq<u32>,
    s1: Seq<u32>,
    lo: int,
    hi: int,
    root: u32,
)
    requires
        forest_ok(p0, s0, lo, hi, root),
        hi <= p1.len(),
        hi <= s1.len(),
        forall|q: int| lo <= q < hi ==> #[trigger] p1[q] == p0[q],
        forall|q: int| lo <= q < hi ==> #[trigger] s1[q] == s0[q],
    ensures
        forest_ok(p1, s1, lo, hi, root),
{
    assert forall|j: int| lo <= j < hi implies 1 <= #[trigger] s1[j] && j + s1[j] <= hi by {
        assert(s0[j] == s1[j]);
    }
    assert forall|j: int| lo <= j < hi implies #[trigger] p1[j] == root || (lo <= p1[j] < j) by {
        assert(p0[j] == p1[j]);
    }
    assert forall|m: int, j: int|
        lo <= m < j < m + s1[m] && j < hi implies m <= #[trigger] p1[j] && p1[j] != root && #[trigger] s1[m] > 0 by {
        assert(p0[j] == p1[j]);
        assert(s0[m] == s1[m]);
    }
    assert forall|m: int, j: int|
        lo <= m <= j < m + s1[m] && j < hi implies j + #[trigger] s1[j] <= m + #[trigger] s1[m] by {
        assert(s0[m] == s1[m]);
        assert(s0[j] == s1[j]);
    }
    assert forall|j: int| lo <= j < hi && #[trigger] p1[j] != root implies j < p1[j] + s1[p1[j] as int] by {
        assert(p0[j] == p1[j]);
        assert(s0[p0[j] as int] == s1[p1[j] as int]);
    }
}

proof fn lemma_forest_grow(
    parent: Seq<u32>,
    subtree: Seq<u32>,
    lo: int,
    c: int,
    hi: int,
    root: u32,
)
    requires
        forest_ok(parent, subtree, lo, c, root),
        subtree_ok(parent, subtree, c, hi, root),
        root < lo,
    ensures
        forest_ok(parent, subtree, lo, hi, root),
{
    assert forall|m: int, j: int|
        lo <= m < j < m + subtree[m] && j < hi implies m <= #[trigger] parent[j] && parent[j] != root
            && #[trigger] subtree[m] > 0 by {
        if m < c && j >= c {
            assert(1 <= subtree[m] && m + subtree[m] <= c);
        } else if m < c {
        } else if m == c {
            assert(parent[j] == c as u32 || (c + 1 <= parent[j] < j));
        } else {
            assert(m <= parent[j] && parent[j] != c as u32 && subtree[m] > 0);
        }
    }
    assert forall|m: int, j: int|
        lo <= m <= j < m + subtree[m] && j < hi implies j + #[trigger] subtree[j] <= m + #[trigger] subtree[m] by {
        if m < c && j >= c {
            assert(m + subtree[m] <= c);
        }
    }
    assert forall|j: int| lo <= j < hi && #[trigger] parent[j] != root implies j < parent[j] + subtree[parent[j] as int] by {
        if j > c && parent[j] == c as u32 {
        }
    }
}

/// The nodes `grow` appends under `pidx` at `depth` to a tree of `len` nodes, in
/// pre-order, as their parents and subtree sizes, and the generator state after: the node
/// itself, then (while the depth allows) a fan-out `draw % 5` of children's subtrees.
pub open spec fn grow_spec(pidx: u32, depth: nat, len: nat, target: nat, state: u64) -> (Seq<u32>, Seq<u32>, u64)
    decreases MAX_DEPTH - depth, 1nat, 0nat,
{
    if depth < MAX_DEPTH {
        let s1 = lcg_step(state);
        let kids = kids_spec(len as u32, depth, (s1 % 5) as nat, len + 1, target, s1);
        (seq![pidx] + kids.0, seq![(kids.0.len() + 1) as u32] + kids.1, kids.2)
    } else {
        (seq![pidx], seq![1u32], state)
    }
}

/// The subtrees of the next `k` children of node `me` (at `depth`) appended to a tree of
/// `len` nodes, stopping once the tree holds `target` nodes.
pub open spec fn kids_spec(me: u32, depth: nat, k: nat, len: nat, target: nat, state: u64) -> (Seq<u32>, Seq<u32>, u64)
    decreases MAX_DEPTH - depth, 0nat, k,
{
    if k == 0 || len >= target || depth >= MAX_DEPTH {
        (Seq::empty(), Seq::empty(), state)
    } else {
        let c = grow_spec(me, depth + 1, len, target, state);
        let rest = kids_spec(me, depth, (k - 1) as nat, len + c.0.len(), target, c.2);
        (c.0 + rest.0, c.1 + rest.1, rest.2)
    }
}

/// Push node `me` (pre-order: itself, then each child's whole subtree) under
/// `parent_idx` and return its subtree size. Children are drawn from the generator: a
/// fan-out of 0 to 4 while the depth allows, stopping early once the tree holds `target`
/// nodes.
fn grow(
    parent_idx: u32,
    depth: u32,
    parent: &mut Vec<u32>,
    subtree: &mut Vec<u32>,
    target: usize,
    rng: &mut Lcg,
) -> (size: u32)
    requires
        old(parent)@.len() == old(subtree)@.len(),
        old(parent)@.len() < target || old(parent)@.len() == 0,
        target < NO_PARENT,
        depth <= MAX_DEPTH,
        parent_idx == NO_PARENT || parent_idx < old(parent)@.len(),
    ensures
        final(parent)@.len() == final(subtree)@.len(),
        final(parent)@.len() == old(parent)@.len() + size,
        size >= 1,
        final(parent)@.len() <= if target > 0 { target } else { 1 },
        final(parent)@.subrange(0, old(parent)@.len() as int) == old(parent)@,
        final(subtree)@.subrange(0, old(parent)@.len() as int) == old(subtree)@,
        subtree_ok(final(parent)@, final(subtree)@, old(parent)@.len() as int, final(parent)@.len() as int, parent_idx),
        (final(parent)@.skip(old(parent)@.len() as int), final(subtree)@.skip(old(parent)@.len() as int), final(rng).state)
            == grow_spec(parent_idx, depth as nat, old(parent)@.len(), target as nat, old(rng).state),
    decreases MAX_DEPTH - depth,
{
    let me = parent.len() as u32;
    parent.push(parent_idx);
    subtree.push(0);
    let mut size: u32 = 1;
    let ghost goal = grow_spec(parent_idx, depth as nat, old(parent)@.len(), target as nat, old(rng).state);
    let ghost mut kids_made: (Seq<u32>, Seq<u32>, u64) = (Seq::empty(), Seq::empty(), rng.state);
    if depth < MAX_DEPTH {
        let fan = rng.below(5);
        let ghost kids_goal = kids_spec(me, depth as nat, fan as nat, (me + 1) as nat, target as nat, rng.state);
        proof {
            assert(parent@.skip(me + 1) =~= Seq::<u32>::empty());
            assert(subtree@.skip(me + 1) =~= Seq::<u32>::empty());
        }
        let mut k: u64 = 0;
        while k < fan
            invariant
                kids_goal == ({
                    let rem = kids_spec(me, depth as nat, (fan - k) as nat, parent@.len(), target as nat, rng.state);
                    (parent@.skip(me + 1) + rem.0, subtree@.skip(me + 1) + rem.1, rem.2)
                }),
                k <= fan,
                parent@.len() == subtree@.len(),
                parent@.len() == me + size,
                me < parent@.len(),
                parent@.len() <= if target > 0 { target } else { 1 },
                target < NO_PARENT,
                depth < MAX_DEPTH,
                parent@.subrange(0, me as int) == old(parent)@,
                subtree@.subrange(0, me as int) == old(subtree)@,
                parent@[me as int] == parent_idx,
                subtree@[me as int] == 0,
                me == old(parent)@.len(),
                parent_idx == NO_PARENT || parent_idx < me,
                forest_ok(parent@, subtree@, me + 1, parent@.len() as int, me),
            ensures
                k == fan || parent@.len() >= target,
            decreases fan - k,
        {
            if parent.len() >= target {
                break;
            }
            let ghost p0 = parent@;
            let ghost s0 = subtree@;
            let ghost st0 = rng.state;
            let child = grow(me, depth + 1, parent, subtree, target, rng);
            proof {
                let cs = grow_spec(me, (depth + 1) as nat, p0.len(), target as nat, st0);
                let rest = kids_spec(me, depth as nat, (fan - k - 1) as nat, p0.len() + cs.0.len(), target as nat, cs.2);
                assert(kids_spec(me, depth as nat, (fan - k) as nat, p0.len(), target as nat, st0) == (
                    cs.0 + rest.0,
                    cs.1 + rest.1,
                    rest.2,
                ));
                assert(parent@ =~= p0 + cs.0) by {
                    assert(parent@.subrange(0, p0.len() as int) =~= p0);
                    assert(parent@ =~= parent@.subrange(0, p0.len() as int) + parent@.skip(p0.len() as int));
                }
                assert(subtree@ =~= s0 + cs.1) by {
                    assert(subtree@.subrange(0, p0.len() as int) =~= s0);
                    assert(subtree@ =~= subtree@.subrange(0, p0.len() as int) + subtree@.skip(p0.len() as int));
                }
                assert(parent@.skip(me + 1) =~= p0.skip(me + 1) + cs.0);
                assert(subtree@.skip(me + 1) =~= s0.skip(me + 1) + cs.1);
                assert(p0.skip(me + 1) + cs.0 + rest.0 =~= p0.skip(me + 1) + (cs.0 + rest.0));
                assert(s0.skip(me + 1) + cs.1 + rest.1 =~= s0.skip(me + 1) + (cs.1 + rest.1));
                let c = p0.len() as int;
                assert forall|q: int| 0 <= q < c implies #[trigger] parent@[q] == p0[q] by {
                    assert(parent@.subrange(0, c)[q] == parent@[q]);
                }
                assert forall|q: int| 0 <= q < c implies #[trigger] subtree@[q] == s0[q] by {
                    assert(subtree@.subrange(0, c)[q] == subtree@[q]);
                }
                lemma_forest_frame(p0, s0, parent@, subtree@, me + 1, c, me);
                lemma_forest_grow(parent@, subtree@, me + 1, c, parent@.len() as int, me);
                assert(parent@.subrange(0, me as int) == old(parent)@) by {
                    assert(parent@.subrange(0, me as int) =~= p0.subrange(0, me as int));
                }
                assert(subtree@.subrange(0, me as int) == old(subtree)@) by {
                    assert(subtree@.subrange(0, me as int) =~= s0.subrange(0, me as int));
                }
                assert(parent@[me as int] == p0[me as int]);
                assert(subtree@[me as int] == s0[me as int]);
            }
            size = size + child;
            k += 1;
        }
        proof {
            kids_made = kids_goal;
            assert(kids_goal == (parent@.skip(me + 1), subtree@.skip(me + 1), rng.state));
        }
    }
    let ghost sb = subtree@;
    subtree.set(me as usize, size);
    proof {
        if depth < MAX_DEPTH {
            assert(goal == (
                seq![parent_idx] + kids_made.0,
                seq![(kids_made.0.len() + 1) as u32] + kids_made.1,
                kids_made.2,
            ));
            assert(kids_made.0 == parent@.skip(me + 1));
            assert(kids_made.1 == sb.skip(me + 1));
            assert(parent@.skip(me as int) =~= seq![parent_idx] + parent@.skip(me + 1));
            assert(subtree@.skip(me as int) =~= seq![size] + sb.skip(me + 1));
        } else {
            assert(parent@.skip(me as int) =~= seq![parent_idx]);
            assert(subtree@.skip(me as int) =~= seq![1u32]);
        }
    }
    proof {
        let hi = parent@.len() as int;
        assert forall|q: int| me + 1 <= q < hi implies #[trigger] parent@[q] == parent@[q] by {}
        assert forall|q: int| me + 1 <= q < hi implies #[trigger] subtree@[q] == sb[q] by {}
        lemma_forest_frame(parent@, sb, parent@, subtree@, me + 1, hi, me);
        assert(parent@.subrange(0, me as int) =~= old(parent)@);
        assert(subtree@.subrange(0, me as int) =~= old(subtree)@) by {
            assert forall|q: int| 0 <= q < me implies subtree@[q] == sb[q] by {}
            assert(sb.subrange(0, me as int) == old(subtree)@);
        }
    }
    size
}

impl Tree {
    /// Grow a random tree of about `target` nodes (at least one, at most `target`) in
    /// pre-order: fan-out 0 to 4 per node, depth at most `MAX_DEPTH` (see `grow_spec`).
    pub fn generate(target: usize, rng: &mut Lcg) -> (t: Tree)
        requires
            target < NO_PARENT,
        ensures
            (t.parent@, t.subtree@, final(rng).state) == grow_spec(NO_PARENT, 0, 0, target as nat, old(rng).state),
            tree_ok(t.parent@, t.subtree@),
            t.parent@.len() <= if target > 0 { target } else { 1 },
    {
        let mut parent: Vec<u32> = Vec::with_capacity(target);
        let mut subtree: Vec<u32> = Vec::with_capacity(target);
        grow(NO_PARENT, 0, &mut parent, &mut subtree, target, rng);
        assert(parent@.skip(0) == parent@);
        assert(subtree@.skip(0) == subtree@);
        Tree { parent, subtree }
    }

    /// The number of nodes.
    pub fn len(&self) -> (r: usize)
        ensures
            r == self.parent@.len(),
    {
        self.parent.len()
    }
}

proof fn lemma_tree_facts(parent: Seq<u32>, subtree: Seq<u32>)
    requires
        tree_ok(parent, subtree),
    ensures
        parent[0] == NO_PARENT,
        forall|j: int| 0 <= j < parent.len() ==> 1 <= #[trigger] subtree[j] && j + subtree[j] <= parent.len(),
        forall|j: int| 1 <= j < parent.len() ==> #[trigger] parent[j] < j,
        forall|m: int, j: int|
            0 <= m < j < m + subtree[m] && j < parent.len() ==> m <= #[trigger] parent[j] && #[trigger] subtree[m] > 0,
        forall|m: int, j: int|
            0 <= m <= j < m + subtree[m] && j < parent.len() ==> j + #[trigger] subtree[j] <= m + #[trigger] subtree[m],
        forall|j: int| 1 <= j < parent.len() ==> j < #[trigger] parent[j] + subtree[parent[j] as int],
{
    let n = parent.len() as int;
    assert(forest_ok(parent, subtree, 1, n, 0));
    assert forall|j: int| 1 <= j < n implies #[trigger] parent[j] < j by {
        assert(parent[j] == 0u32 || (1 <= parent[j] < j));
    }
    assert forall|m: int, j: int| 0 <= m < j < m + subtree[m] && j < n implies m <= #[trigger] parent[j] && #[trigger] subtree[m] > 0 by {
        if m >= 1 {
            assert(m <= parent[j] && parent[j] != 0u32 && subtree[m] > 0);
        }
    }
    assert forall|m: int, j: int| 0 <= m <= j < m + subtree[m] && j < n implies j + #[trigger] subtree[j] <= m + #[trigger] subtree[m] by {
        if m == 0 {
            if j >= 1 {
                assert(1 <= subtree[j] && j + subtree[j] <= n);
            }
        }
    }
    assert forall|j: int| 1 <= j < n implies j < #[trigger] parent[j] + subtree[parent[j] as int] by {
        if parent[j] != 0u32 {
        }
    }
}

/// A node's parent comes before it: index order is a valid parent-before-child order.
pub proof fn parent_precedes_child(parent: Seq<u32>, subtree: Seq<u32>, j: int)
    requires
        tree_ok(parent, subtree),
        1 <= j < parent.len(),
    ensures
        parent[j] < j,
{
    lemma_tree_facts(parent, subtree);
}

/// A subtree is a contiguous index range: `m` is `j` or an ancestor of `j` exactly when
/// `j` lies in `[m, m + subtree[m])`.
pub proof fn subtree_is_contiguous(parent: Seq<u32>, subtree: Seq<u32>, m: int, j: int)
    requires
        tree_ok(parent, subtree),
        0 <= m < parent.len(),
        0 <= j < parent.len(),
    ensures
        is_ancestor(parent, m, j) <==> m <= j < m + subtree[m],
    decreases j,
{
    lemma_tree_facts(parent, subtree);
    if j != m {
        if j >= 1 {
            let p = parent[j] as int;
            assert(p < j);
            subtree_is_contiguous(parent, subtree, m, p);
            if is_ancestor(parent, m, j) {
                assert(is_ancestor(parent, m, p));
                assert(p + subtree[p] <= m + subtree[m]);
            }
            if m <= j && j < m + subtree[m] {
                assert(m <= p);
            }
        } else {
            assert(parent[0] == NO_PARENT);
        }
    }
}

/// `|a - b|`.
pub open spec fn gap(a: u32, b: u32) -> u32 {
    if a >= b {
        (a - b) as u32
    } else {
        (b - a) as u32
    }
}

/// `|a - b|`, as `u32::abs_diff` computes it.
fn abs_gap(a: u32, b: u32) -> (r: u32)
    ensures
        r == gap(a, b),
{
    if a >= b {
        a - b
    } else {
        b - a
    }
}

/// The indices `i` with `mask[i]` set, ascending.
fn marked(mask: &Vec<bool>) -> (r: Vec<u32>)
    requires
        mask@.len() < NO_PARENT,
    ensures
        forall|a: int, b: int| 0 <= a < b < r@.len() ==> r@[a] < r@[b],
        forall|k: int| 0 <= k < r@.len() ==> #[trigger] r@[k] < mask@.len() && mask@[r@[k] as int],
        forall|i: int| 0 <= i < mask@.len() && mask@[i] ==> r@.contains(i as u32),
{
    let mut r: Vec<u32> = Vec::new();
    let mut i: usize = 0;
    while i < mask.len()
        invariant
            i <= mask@.len(),
            mask@.len() < NO_PARENT,
            forall|a: int, b: int| 0 <= a < b < r@.len() ==> r@[a] < r@[b],
            forall|k: int| 0 <= k < r@.len() ==> #[trigger] r@[k] < i && mask@[r@[k] as int],
            forall|q: int| 0 <= q < i && mask@[q] ==> r@.contains(q as u32),
        decreases mask@.len() - i,
    {
        if mask[i] {
            let ghost before = r@;
            r.push(i as u32);
            proof {
                assert forall|q: int| 0 <= q < i + 1 && mask@[q] implies r@.contains(q as u32) by {
                    if q < i {
                        let k = choose|k: int| 0 <= k < before.len() && before[k] == q as u32;
                        assert(r@[k] == q as u32);
                    } else {
                        assert(r@[r@.len() - 1] == q as u32);
                    }
                }
            }
        }
        i += 1;
    }
    r
}

/// The leaves marked by the draws of `dirty_scattered`, and the generator state after
/// them: each of at most `left` draws picks `i = draw % n`; an unmarked leaf is marked,
/// until `count` are.
pub open spec fn scatter_draws(subtree: Seq<u32>, count: nat, mask: Seq<bool>, have: nat, left: nat, state: u64) -> (Seq<bool>, u64)
    decreases left,
{
    if have >= count || left == 0 || mask.len() == 0 {
        (mask, state)
    } else {
        let s1 = lcg_step(state);
        let i = (s1 % (mask.len() as u64)) as int;
        if subtree[i] == 1 && !mask[i] {
            scatter_draws(subtree, count, mask.update(i, true), have + 1, (left - 1) as nat, s1)
        } else {
            scatter_draws(subtree, count, mask, have, (left - 1) as nat, s1)
        }
    }
}

/// The nodes marked by the draws of `dirty_fraction`, and the generator state after
/// them: each of at most `left` draws picks a mover `m = draw % n`; when its subtree fits
/// in what is left of `want`, the whole subtree is marked, until `want` nodes are.
pub open spec fn fraction_draws(subtree: Seq<u32>, want: nat, mask: Seq<bool>, covered: nat, left: nat, state: u64) -> (Seq<bool>, u64)
    decreases left,
{
    if covered >= want || left == 0 || mask.len() == 0 {
        (mask, state)
    } else {
        let s1 = lcg_step(state);
        let m = (s1 % (mask.len() as u64)) as int;
        let sz = subtree[m] as int;
        if sz <= want - covered {
            let mask2 = Seq::new(mask.len(), |i: int| mask[i] || (m <= i < m + sz));
            fraction_draws(subtree, want, mask2, marked_count(mask2, mask.len()), (left - 1) as nat, s1)
        } else {
            fraction_draws(subtree, want, mask, covered, (left - 1) as nat, s1)
        }
    }
}

impl Tree {
    /// One subtree of about `want` nodes: the first node whose subtree size is closest to
    /// `want`, as its contiguous index range.
    pub fn dirty_contiguous(&self, want: u32) -> (r: Vec<u32>)
        requires
            tree_ok(self.parent@, self.subtree@),
        ensures
            ({
                let n = self.parent@.len() as int;
                exists|best: int|
                    0 <= best < n && (forall|i: int| 0 <= i < n ==> gap(self.subtree@[best], want) <= gap(#[trigger] self.subtree@[i], want))
                        && (forall|i: int| 0 <= i < best ==> gap(self.subtree@[best], want) < gap(#[trigger] self.subtree@[i], want))
                        && r@ == Seq::new(self.subtree@[best] as nat, |k: int| (best + k) as u32)
            }),
    {
        proof {
            lemma_tree_facts(self.parent@, self.subtree@);
        }
        let n = self.parent.len();
        let mut best: usize = 0;
        let mut best_err: u32 = abs_gap(self.subtree[0], want);
        let mut i: usize = 1;
        while i < n
            invariant
                1 <= i <= n,
                n == self.parent@.len(),
                self.subtree@.len() == n,
                best < i,
                best_err == gap(self.subtree@[best as int], want),
                forall|q: int| 0 <= q < i ==> gap(self.subtree@[best as int], want) <= gap(#[trigger] self.subtree@[q], want),
                forall|q: int| 0 <= q < best ==> gap(self.subtree@[best as int], want) < gap(#[trigger] self.subtree@[q], want),
            decreases n - i,
        {
            let err = abs_gap(self.subtree[i], want);
            if err < best_err {
                best_err = err;
                best = i;
            }
            i += 1;
        }
        let s = self.subtree[best];
        let mut r: Vec<u32> = Vec::new();
        let mut k: u32 = 0;
        while k < s
            invariant
                k <= s,
                s == self.subtree@[best as int],
                best + s <= n,
                n < NO_PARENT,
                r@ == Seq::new(k as nat, |q: int| (best + q) as u32),
            decreases s - k,
        {
            r.push(best as u32 + k);
            k += 1;
            assert(r@ =~= Seq::new(k as nat, |q: int| (best + q) as u32));
        }
        r
    }

    /// Up to `count` distinct leaves drawn at random (at most `8 n` draws), ascending:
    /// scattered single nodes, the worst locality for their number.
    pub fn dirty_scattered(&self, count: usize, rng: &mut Lcg) -> (r: Vec<u32>)
        requires
            tree_ok(self.parent@, self.subtree@),
            8 * self.parent@.len() <= usize::MAX,
        ensures
            ({
                let n = self.parent@.len();
                let (mask, state) = scatter_draws(self.subtree@, count as nat, Seq::new(n, |i: int| false), 0, 8 * n, old(rng).state);
                &&& final(rng).state == state
                &&& forall|x: u32| #[trigger] r@.contains(x) <==> x < n && mask[x as int]
            }),
            r@.len() <= count,
            forall|a: int, b: int| 0 <= a < b < r@.len() ==> r@[a] < r@[b],
            forall|k: int| 0 <= k < r@.len() ==> #[trigger] r@[k] < self.parent@.len() && self.subtree@[r@[k] as int] == 1,
    {
        let n = self.parent.len();
        let mut mask: Vec<bool> = Vec::new();
        let mut q: usize = 0;
        while q < n
            invariant
                q <= n,
                mask@.len() == q,
                forall|j: int| 0 <= j < q ==> !#[trigger] mask@[j],
            decreases n - q,
        {
            mask.push(false);
            q += 1;
        }
        let mut have: usize = 0;
        let mut attempts: usize = 0;
        proof {
            lemma_marked_none(mask@, n as nat);
            assert(mask@ =~= Seq::new(n as nat, |i: int| false));
        }
        let ghost goal = scatter_draws(self.subtree@, count as nat, mask@, 0, (8 * n) as nat, rng.state);
        while have < count && attempts < 8 * n
            invariant
                goal == scatter_draws(self.subtree@, count as nat, mask@, have as nat, (8 * n - attempts) as nat, rng.state),
                n == self.parent@.len(),
                self.subtree@.len() == n,
                8 * n <= usize::MAX,
                n >= 1,
                mask@.len() == n,
                have <= count,
                attempts <= 8 * n,
                have == marked_count(mask@, n as nat),
                forall|j: int| 0 <= j < n && #[trigger] mask@[j] ==> self.subtree@[j] == 1,
            decreases 8 * n - attempts,
        {
            attempts += 1;
            let i = rng.below(n as u64) as usize;
            if self.subtree[i] == 1 && !mask[i] {
                proof {
                    lemma_mark_one(mask@, i as int, n as nat);
                }
                mask.set(i, true);
                have += 1;
            }
        }
        proof {
            lemma_marked_count_bound(mask@, n as nat);
            lemma_tree_facts(self.parent@, self.subtree@);
            assert(goal == (mask@, rng.state));
        }
        let r = marked(&mask);
        proof {
            lemma_marked_len(mask@, r@, n as nat);
            assert forall|x: u32| #[trigger] r@.contains(x) <==> x < n && mask@[x as int] by {
                if r@.contains(x) {
                    let k = choose|k: int| 0 <= k < r@.len() && r@[k] == x;
                    assert(r@[k] < mask@.len() && mask@[r@[k] as int]);
                }
            }
        }
        r
    }
}

/// How many of `mask[..n]` are set.
pub open spec fn marked_count(mask: Seq<bool>, n: nat) -> nat
    decreases n,
{
    if n == 0 {
        0
    } else {
        marked_count(mask, (n - 1) as nat) + if mask[n - 1] {
            1nat
        } else {
            0nat
        }
    }
}

proof fn lemma_mark_one(mask: Seq<bool>, i: int, n: nat)
    requires
        0 <= i < n <= mask.len(),
        !mask[i],
    ensures
        marked_count(mask.update(i, true), n) == marked_count(mask, n) + 1,
    decreases n,
{
    if n - 1 == i {
        lemma_marked_frame(mask, mask.update(i, true), (n - 1) as nat);
    } else {
        lemma_mark_one(mask, i, (n - 1) as nat);
    }
}

proof fn lemma_marked_frame(a: Seq<bool>, b: Seq<bool>, n: nat)
    requires
        n <= a.len(),
        n <= b.len(),
        forall|j: int| 0 <= j < n ==> a[j] == b[j],
    ensures
        marked_count(a, n) == marked_count(b, n),
    decreases n,
{
    if n > 0 {
        lemma_marked_frame(a, b, (n - 1) as nat);
    }
}

proof fn lemma_marked_none(mask: Seq<bool>, n: nat)
    requires
        n <= mask.len(),
        forall|j: int| 0 <= j < n ==> !#[trigger] mask[j],
    ensures
        marked_count(mask, n) == 0,
    decreases n,
{
    if n > 0 {
        lemma_marked_none(mask, (n - 1) as nat);
    }
}

proof fn lemma_marked_count_bound(mask: Seq<bool>, n: nat)
    ensures
        marked_count(mask, n) <= n,
    decreases n,
{
    if n > 0 {
        lemma_marked_count_bound(mask, (n - 1) as nat);
    }
}

proof fn lemma_marked_len(mask: Seq<bool>, r: Seq<u32>, n: nat)
    requires
        n == mask.len(),
        n < NO_PARENT,
        forall|a: int, b: int| 0 <= a < b < r.len() ==> r[a] < r[b],
        forall|k: int| 0 <= k < r.len() ==> #[trigger] r[k] < mask.len() && mask[r[k] as int],
        forall|i: int| 0 <= i < mask.len() && mask[i] ==> r.contains(i as u32),
    ensures
        r.len() == marked_count(mask, n),
    decreases n,
{
    if n > 0 {
        let last = (n - 1) as int;
        let m2 = mask.subrange(0, last);
        if mask[last] {
            assert(r.contains(last as u32));
            let k = choose|k: int| 0 <= k < r.len() && r[k] == last as u32;
            assert(k == r.len() - 1) by {
                if k < r.len() - 1 {
                    let z = r.len() - 1;
                    assert(r[z] < mask.len());
                    assert(r[k] < r[z]);
                    assert(r[k] == last);
                    assert(false);
                }
            }
            let r2 = r.drop_last();
            assert forall|i: int| 0 <= i < m2.len() && m2[i] implies r2.contains(i as u32) by {
                assert(r.contains(i as u32));
                let q = choose|q: int| 0 <= q < r.len() && r[q] == i as u32;
                assert(q != r.len() - 1);
                assert(r2[q] == i as u32);
            }
            assert forall|q: int| 0 <= q < r2.len() implies #[trigger] r2[q] < m2.len() && m2[r2[q] as int] by {
                assert(r[q] < r[r.len() - 1]);
            }
            lemma_marked_len(m2, r2, (n - 1) as nat);
            lemma_marked_frame(mask, m2, (n - 1) as nat);
            assert(r.len() == r2.len() + 1);
            assert(marked_count(mask, n) == marked_count(mask, (n - 1) as nat) + 1);
        } else {
            assert forall|q: int| 0 <= q < r.len() implies #[trigger] r[q] < m2.len() && m2[r[q] as int] by {
                assert(r[q] != last as u32);
            }
            assert forall|i: int| 0 <= i < m2.len() && m2[i] implies r.contains(i as u32) by {
                assert(mask[i]);
            }
            lemma_marked_len(m2, r, (n - 1) as nat);
            lemma_marked_frame(mask, m2, (n - 1) as nat);
            assert(marked_count(mask, n) == marked_count(mask, (n - 1) as nat));
        }
    } else {
        if r.len() > 0 {
            assert(r[0] < mask.len());
        }
    }
}

/// `num / n`, clamped to `[lo, hi]`.
pub open spec fn clamp_div(num: int, n: int, lo: int, hi: int) -> int {
    let q = num / n;
    if q < lo {
        lo
    } else if q > hi {
        hi
    } else {
        q
    }
}

/// Benchmark repetitions for `n` nodes: `50_000_000 / n`, clamped to `[20, 20_000]`.
pub fn iters_for(n: usize) -> (r: u64)
    requires
        n > 0,
    ensures
        r == clamp_div(50_000_000, n as int, 20, 20_000),
{
    let q = 50_000_000u64 / n as u64;
    if q < 20 {
        20
    } else if q > 20_000 {
        20_000
    } else {
        q
    }
}

/// Every marked node's whole subtree is marked.
pub open spec fn subtree_closed(subtree: Seq<u32>, mask: Seq<bool>) -> bool {
    forall|j: int, q: int| 0 <= j <= q < j + subtree[j] && q < mask.len() && #[trigger] mask[j] ==> #[trigger] mask[q]
}

impl Tree {
    /// Random movers' subtrees, marked until at least `want` nodes are covered (or `16 n`
    /// draws are spent), ascending. A mover whose subtree would overshoot what is left of
    /// `want` is skipped, so the set never exceeds `want`; it is a union of whole subtrees.
    pub fn dirty_fraction(&self, want: usize, rng: &mut Lcg) -> (r: Vec<u32>)
        requires
            tree_ok(self.parent@, self.subtree@),
            16 * self.parent@.len() <= usize::MAX,
        ensures
            ({
                let n = self.parent@.len();
                let (mask, state) = fraction_draws(self.subtree@, want as nat, Seq::new(n, |i: int| false), 0, 16 * n, old(rng).state);
                &&& final(rng).state == state
                &&& forall|x: u32| #[trigger] r@.contains(x) <==> x < n && mask[x as int]
            }),
            r@.len() <= want,
            forall|a: int, b: int| 0 <= a < b < r@.len() ==> r@[a] < r@[b],
            forall|k: int| 0 <= k < r@.len() ==> #[trigger] r@[k] < self.parent@.len(),
            forall|k: int, q: int|
                0 <= k < r@.len() && #[trigger] r@[k] <= q < r@[k] + self.subtree@[r@[k] as int] ==> #[trigger] r@.contains(
                    q as u32,
                ),
    {
        proof {
            lemma_tree_facts(self.parent@, self.subtree@);
        }
        let n = self.parent.len();
        let mut mask: Vec<bool> = Vec::new();
        let mut q: usize = 0;
        while q < n
            invariant
                q <= n,
                mask@.len() == q,
                forall|j: int| 0 <= j < q ==> !#[trigger] mask@[j],
            decreases n - q,
        {
            mask.push(false);
            q += 1;
        }
        proof {
            lemma_marked_none(mask@, n as nat);
            assert(mask@ =~= Seq::new(n as nat, |i: int| false));
        }
        let mut covered: usize = 0;
        let mut attempts: usize = 0;
        let ghost goal = fraction_draws(self.subtree@, want as nat, mask@, 0, (16 * n) as nat, rng.state);
        while covered < want && attempts < 16 * n
            invariant
                goal == fraction_draws(self.subtree@, want as nat, mask@, covered as nat, (16 * n - attempts) as nat, rng.state),
                n == self.parent@.len(),
                tree_ok(self.parent@, self.subtree@),
                16 * n <= usize::MAX,
                n >= 1,
                mask@.len() == n,
                covered <= want,
                attempts <= 16 * n,
                covered == marked_count(mask@, n as nat),
                subtree_closed(self.subtree@, mask@),
            decreases 16 * n - attempts,
        {
            attempts += 1;
            let m = rng.below(n as u64) as usize;
            let s = self.subtree[m] as usize;
            proof {
                lemma_tree_facts(self.parent@, self.subtree@);
            }
            if s <= want - covered {
                let ghost mask0 = mask@;
                let ghost cov0 = covered;
                let mut slot: usize = m;
                while slot < m + s
                    invariant
                        m <= slot <= m + s,
                        m + s <= n,
                        n == self.parent@.len(),
                        mask@.len() == n,
                        mask0.len() == n,
                        s <= want - cov0,
                        cov0 == marked_count(mask0, n as nat),
                        covered == marked_count(mask@, n as nat),
                        covered <= cov0 + (slot - m),
                        forall|i: int| 0 <= i < n ==> #[trigger] mask@[i] == (mask0[i] || (m <= i < slot)),
                    decreases m + s - slot,
                {
                    if !mask[slot] {
                        proof {
                            lemma_mark_one(mask@, slot as int, n as nat);
                        }
                        mask.set(slot, true);
                        covered += 1;
                    }
                    slot += 1;
                }
                proof {
                    assert(mask@ =~= Seq::new(n as nat, |i: int| mask0[i] || (m <= i < m + s)));
                    assert forall|j: int, q: int|
                        0 <= j <= q < j + self.subtree@[j] && q < mask@.len() && #[trigger] mask@[j] implies #[trigger] mask@[q] by {
                        if mask0[j] {
                            assert(mask0[q]);
                        } else {
                            assert(m <= j < m + s);
                            assert(j + self.subtree@[j] <= m + self.subtree@[m as int]);
                        }
                    }
                }
            }
        }
        proof {
            lemma_marked_count_bound(mask@, n as nat);
            assert(goal == (mask@, rng.state));
        }
        let r = marked(&mask);
        proof {
            lemma_marked_len(mask@, r@, n as nat);
            assert forall|x: u32| #[trigger] r@.contains(x) <==> x < n && mask@[x as int] by {
                if r@.contains(x) {
                    let k = choose|k: int| 0 <= k < r@.len() && r@[k] == x;
                    assert(r@[k] < mask@.len() && mask@[r@[k] as int]);
                }
            }
            assert forall|k: int, q: int|
                0 <= k < r@.len() && #[trigger] r@[k] <= q < r@[k] + self.subtree@[r@[k] as int] implies #[trigger] r@.contains(
                    q as u32,
                ) by {
                let j = r@[k] as int;
                assert(mask@[j]);
                assert(j + self.subtree@[j] <= n);
                assert(mask@[q]);
            }
        }
        r
    }
}

} // verus!
