use vstd::prelude::*;
use vstd::arithmetic::power2::{pow2, lemma_pow2_pos, lemma_pow2_unfold, lemma_pow2_strictly_increases};
use vstd::bits::lemma_u64_shl_is_mul;
use crate::lcg::{Lcg, lcg_iter, lcg_step};

verus! {

/// An arithmetic expression in one variable `x`, as a pointer tree. Constants are held
/// as the bit pattern of their `f64`.
pub enum Expr {
    Const(u64),
    Var,
    Add(Box<Expr>, Box<Expr>),
    Sub(Box<Expr>, Box<Expr>),
    Mul(Box<Expr>, Box<Expr>),
}

/// The number of nodes of an expression.
pub open spec fn size(e: Expr) -> nat
    decreases e,
{
    match e {
        Expr::Const(_) => 1,
        Expr::Var => 1,
        Expr::Add(l, r) => size(*l) + size(*r) + 1,
        Expr::Sub(l, r) => size(*l) + size(*r) + 1,
        Expr::Mul(l, r) => size(*l) + size(*r) + 1,
    }
}

/// `e` is a full balanced binary tree whose leaves all sit at depth `depth`.
pub open spec fn is_full(e: Expr, depth: nat) -> bool
    decreases e,
{
    match e {
        Expr::Const(_) => depth == 0,
        Expr::Var => depth == 0,
        Expr::Add(l, r) => depth > 0 && is_full(*l, (depth - 1) as nat) && is_full(*r, (depth - 1) as nat),
        Expr::Sub(l, r) => depth > 0 && is_full(*l, (depth - 1) as nat) && is_full(*r, (depth - 1) as nat),
        Expr::Mul(l, r) => depth > 0 && is_full(*l, (depth - 1) as nat) && is_full(*r, (depth - 1) as nat),
    }
}

/// A full tree of depth `depth` has `2^(depth + 1) - 1` nodes.
pub proof fn full_tree_size(e: Expr, depth: nat)
    requires
        is_full(e, depth),
    ensures
        size(e) == pow2(depth + 1) - 1,
    decreases e,
{
    lemma_pow2_unfold(depth + 1);
    match e {
        Expr::Add(l, r) => {
            full_tree_size(*l, (depth - 1) as nat);
            full_tree_size(*r, (depth - 1) as nat);
        },
        Expr::Sub(l, r) => {
            full_tree_size(*l, (depth - 1) as nat);
            full_tree_size(*r, (depth - 1) as nat);
        },
        Expr::Mul(l, r) => {
            full_tree_size(*l, (depth - 1) as nat);
            full_tree_size(*r, (depth - 1) as nat);
        },
        _ => {
            vstd::arithmetic::power2::lemma2_to64();
        },
    }
}

/// The node count of a full tree of the given depth: `2^(depth + 1) - 1`.
pub fn nodes_in(depth: u32) -> (r: u64)
    requires
        depth < 63,
    ensures
        r == pow2(depth as nat + 1) - 1,
{
    let shift: u64 = (depth + 1) as u64;
    proof {
        lemma_pow2_strictly_increases(shift as nat, 64);
        assert(pow2(64) == 0x1_0000_0000_0000_0000) by {
            vstd::arithmetic::power2::lemma2_to64();
            vstd::arithmetic::power2::lemma2_to64_rest();
        }
        lemma_u64_shl_is_mul(1, shift);
        lemma_pow2_pos(shift as nat);
    }
    (1u64 << shift) - 1
}

/// The bit pattern of the `f64` nearest to `0.5 + m / 2^53` (ties to even), where `m`
/// is the top 53 bits of a generator draw: a leaf constant in `[0.5, 1.5)`. Below 1 the
/// sum is exact; from 1 on it has one bit too many and rounds.
pub open spec fn leaf_bits(draw: u64) -> u64 {
    let m = draw / 2048;
    if m < 0x10_0000_0000_0000 {
        (0x3FE0_0000_0000_0000 + m) as u64
    } else {
        let t = m - 0x10_0000_0000_0000;
        let q = t / 2;
        let mant = if t % 2 == 1 && q % 2 == 1 {
            q + 1
        } else {
            q
        };
        (0x3FF0_0000_0000_0000 + mant) as u64
    }
}

/// Draw a leaf constant (as `f64` bits) from the generator.
pub fn leaf_const(rng: &mut Lcg) -> (r: u64)
    ensures
        final(rng).state == lcg_step(old(rng).state),
        r == leaf_bits(final(rng).state),
{
    let draw = rng.next();
    let m = draw >> 11;
    assert(m == draw / 2048) by (bit_vector)
        requires
            m == draw >> 11,
    ;
    if m < 0x10_0000_0000_0000 {
        0x3FE0_0000_0000_0000 + m
    } else {
        let t = m - 0x10_0000_0000_0000;
        let q = t / 2;
        let mant = if t % 2 == 1 && q % 2 == 1 {
            q + 1
        } else {
            q
        };
        0x3FF0_0000_0000_0000 + mant
    }
}

/// The tree `gen_tree(depth, ..)` builds from generator state `state`, and the state it
/// leaves: a leaf is `x` on an even draw, else a constant from the next draw; an inner
/// node draws its left subtree, its right subtree, then its operator (`draw % 3`: add,
/// subtract, multiply).
pub open spec fn gen_spec(depth: nat, state: u64) -> (Expr, u64)
    decreases depth,
{
    if depth == 0 {
        let s1 = lcg_step(state);
        if s1 & 1 == 0 {
            (Expr::Var, s1)
        } else {
            let s2 = lcg_step(s1);
            (Expr::Const(leaf_bits(s2)), s2)
        }
    } else {
        let (l, s1) = gen_spec((depth - 1) as nat, state);
        let (r, s2) = gen_spec((depth - 1) as nat, s1);
        let s3 = lcg_step(s2);
        let op = s3 % 3;
        let e = if op == 0 {
            Expr::Add(Box::new(l), Box::new(r))
        } else if op == 1 {
            Expr::Sub(Box::new(l), Box::new(r))
        } else {
            Expr::Mul(Box::new(l), Box::new(r))
        };
        (e, s3)
    }
}

/// The trees `gen_spec` builds are full.
pub proof fn generated_tree_is_full(depth: nat, state: u64)
    ensures
        is_full(gen_spec(depth, state).0, depth),
    decreases depth,
{
    if depth > 0 {
        let s1 = gen_spec((depth - 1) as nat, state).1;
        generated_tree_is_full((depth - 1) as nat, state);
        generated_tree_is_full((depth - 1) as nat, s1);
    }
}

/// A generated tree of depth `depth` has `nodes_in(depth)` nodes, whatever the seed.
pub proof fn generated_tree_size(depth: nat, state: u64)
    ensures
        size(gen_spec(depth, state).0) == pow2(depth + 1) - 1,
{
    generated_tree_is_full(depth, state);
    full_tree_size(gen_spec(depth, state).0, depth);
}

/// A full balanced random expression tree of the given depth (`2^depth` leaves).
pub fn gen_tree(depth: u32, rng: &mut Lcg) -> (r: Expr)
    ensures
        (r, final(rng).state) == gen_spec(depth as nat, old(rng).state),
    decreases depth,
{
    if depth == 0 {
        if rng.next() & 1 == 0 {
            Expr::Var
        } else {
            Expr::Const(leaf_const(rng))
        }
    } else {
        let l = Box::new(gen_tree(depth - 1, rng));
        let r = Box::new(gen_tree(depth - 1, rng));
        let op = rng.below(3);
        if op == 0 {
            Expr::Add(l, r)
        } else if op == 1 {
            Expr::Sub(l, r)
        } else {
            Expr::Mul(l, r)
        }
    }
}

/// A path of `len` directions drawn from `state`: direction `j` is left when the state
/// after `j + 1` steps is even.
pub open spec fn path_spec(len: nat, state: u64) -> Seq<bool> {
    Seq::new(len, |j: int| lcg_iter(state, (j + 1) as nat) & 1 == 0)
}

/// One edit drawn from `state`: a path of 1 to `max_depth` directions, then a tree of
/// depth 2 to graft where it ends; with the state after it.
pub open spec fn edit_spec(max_depth: u64, state: u64) -> ((Seq<bool>, Expr), u64) {
    let s1 = lcg_step(state);
    let len = (s1 % max_depth) as nat + 1;
    let (e, s2) = gen_spec(2, lcg_iter(s1, len));
    ((path_spec(len, s1), e), s2)
}

/// The state after drawing `k` edits from `state`.
pub open spec fn edits_state(max_depth: u64, state: u64, k: nat) -> u64
    decreases k,
{
    if k == 0 {
        state
    } else {
        edit_spec(max_depth, edits_state(max_depth, state, (k - 1) as nat)).1
    }
}

/// `n` random edits: each a path of 1 to `max_depth` directions and a small tree
/// (4 leaves, 7 nodes) to graft there.
pub fn make_edits(n: usize, max_depth: u32, rng: &mut Lcg) -> (r: Vec<(Vec<bool>, Expr)>)
    requires
        max_depth > 0,
    ensures
        r@.len() == n,
        forall|k: int|
            0 <= k < n ==> (#[trigger] r@[k].0@, r@[k].1) == edit_spec(
                max_depth as u64,
                edits_state(max_depth as u64, old(rng).state, k as nat),
            ).0,
        final(rng).state == edits_state(max_depth as u64, old(rng).state, n as nat),
{
    let ghost s0 = rng.state;
    let ghost md = max_depth as u64;
    let mut r: Vec<(Vec<bool>, Expr)> = Vec::new();
    let mut i: usize = 0;
    while i < n
        invariant
            i <= n,
            max_depth > 0,
            md == max_depth as u64,
            r@.len() == i,
            rng.state == edits_state(md, s0, i as nat),
            forall|k: int| 0 <= k < i ==> (#[trigger] r@[k].0@, r@[k].1) == edit_spec(md, edits_state(md, s0, k as nat)).0,
        decreases n - i,
    {
        let ghost st = rng.state;
        let len = rng.below(max_depth as u64) as usize + 1;
        let ghost s1 = rng.state;
        let mut steps: Vec<bool> = Vec::new();
        let mut j: usize = 0;
        while j < len
            invariant
                j <= len,
                steps@.len() == j,
                rng.state == lcg_iter(s1, j as nat),
                forall|q: int| 0 <= q < j ==> #[trigger] steps@[q] == (lcg_iter(s1, (q + 1) as nat) & 1 == 0),
            decreases len - j,
        {
            let v = rng.next();
            steps.push(v & 1 == 0);
            j += 1;
        }
        let new = gen_tree(2, rng);
        proof {
            assert(steps@ =~= path_spec(len as nat, s1));
            assert(edit_spec(md, st).0 == (steps@, new));
        }
        let ghost r0 = r@;
        r.push((steps, new));
        i += 1;
        proof {
            assert forall|k: int| 0 <= k < i implies (#[trigger] r@[k].0@, r@[k].1) == edit_spec(md, edits_state(md, s0, k as nat)).0 by {
                if k < i - 1 {
                    assert(r@[k] == r0[k]);
                }
            }
        }
    }
    r
}

/// A copy of `e`.
pub fn copy_expr(e: &Expr) -> (r: Expr)
    ensures
        r == *e,
    decreases e,
{
    match e {
        Expr::Const(c) => Expr::Const(*c),
        Expr::Var => Expr::Var,
        Expr::Add(l, r) => Expr::Add(Box::new(copy_expr(l)), Box::new(copy_expr(r))),
        Expr::Sub(l, r) => Expr::Sub(Box::new(copy_expr(l)), Box::new(copy_expr(r))),
        Expr::Mul(l, r) => Expr::Mul(Box::new(copy_expr(l)), Box::new(copy_expr(r))),
    }
}

/// `e` with the subtree reached by `steps` (false = left, true = right) replaced by
/// `new`; a leaf met before the steps run out is itself replaced.
pub open spec fn graft(e: Expr, steps: Seq<bool>, new: Expr) -> Expr
    decreases steps.len(),
{
    if steps.len() == 0 {
        new
    } else {
        let rest = steps.drop_first();
        match e {
            Expr::Add(l, r) => if steps[0] {
                Expr::Add(l, Box::new(graft(*r, rest, new)))
            } else {
                Expr::Add(Box::new(graft(*l, rest, new)), r)
            },
            Expr::Sub(l, r) => if steps[0] {
                Expr::Sub(l, Box::new(graft(*r, rest, new)))
            } else {
                Expr::Sub(Box::new(graft(*l, rest, new)), r)
            },
            Expr::Mul(l, r) => if steps[0] {
                Expr::Mul(l, Box::new(graft(*r, rest, new)))
            } else {
                Expr::Mul(Box::new(graft(*l, rest, new)), r)
            },
            _ => new,
        }
    }
}

fn grafted(e: Expr, steps: &[bool], k: usize, new: &Expr) -> (r: Expr)
    requires
        k <= steps@.len(),
    ensures
        r == graft(e, steps@.skip(k as int), *new),
    decreases steps@.len() - k,
{
    if k == steps.len() {
        return copy_expr(new);
    }
    let go_right = steps[k];
    assert(steps@.skip(k as int)[0] == go_right);
    assert(steps@.skip(k as int).drop_first() == steps@.skip(k + 1));
    match e {
        Expr::Add(l, r) => if go_right {
            Expr::Add(l, Box::new(grafted(*r, steps, k + 1, new)))
        } else {
            Expr::Add(Box::new(grafted(*l, steps, k + 1, new)), r)
        },
        Expr::Sub(l, r) => if go_right {
            Expr::Sub(l, Box::new(grafted(*r, steps, k + 1, new)))
        } else {
            Expr::Sub(Box::new(grafted(*l, steps, k + 1, new)), r)
        },
        Expr::Mul(l, r) => if go_right {
            Expr::Mul(l, Box::new(grafted(*r, steps, k + 1, new)))
        } else {
            Expr::Mul(Box::new(grafted(*l, steps, k + 1, new)), r)
        },
        _ => copy_expr(new),
    }
}

/// Replace the subtree reached by `steps` (false = left, true = right) with a copy of
/// `new`; a leaf met before the steps run out is replaced.
pub fn mutate_boxed(root: &mut Expr, steps: &[bool], new: &Expr)
    ensures
        *final(root) == graft(*old(root), steps@, *new),
{
    let mut tree = Expr::Var;
    std::mem::swap(&mut tree, root);
    assert(steps@.skip(0) == steps@);
    *root = grafted(tree, steps, 0, new);
}

/// A node's kind in the arena form.
#[derive(Clone, Copy, PartialEq, Eq, Structural, Debug)]
pub enum Tag {
    Const,
    Var,
    Add,
    Sub,
    Mul,
}

/// The operator tags.
pub open spec fn inner_tag(t: Tag) -> bool {
    t == Tag::Add || t == Tag::Sub || t == Tag::Mul
}

impl Tag {
    /// Whether the node is an operator (has children).
    pub fn is_internal(self) -> (r: bool)
        ensures
            r == inner_tag(self),
    {
        match self {
            Tag::Add => true,
            Tag::Sub => true,
            Tag::Mul => true,
            _ => false,
        }
    }
}

/// One node of the arena: an operator with child indices, or a leaf (a constant's bits
/// in `val`).
#[derive(Clone, Copy, Debug)]
pub struct Node {
    pub tag: Tag,
    pub lhs: u32,
    pub rhs: u32,
    pub val: u64,
}

/// The expression in one flat vector of nodes with `u32` child indices.
pub struct Arena {
    pub nodes: Vec<Node>,
    pub root: u32,
}

/// An operator node.
pub open spec fn is_binary(e: Expr) -> bool {
    e is Add || e is Sub || e is Mul
}

/// The left operand of an operator node.
pub open spec fn left(e: Expr) -> Expr {
    match e {
        Expr::Add(l, _) => *l,
        Expr::Sub(l, _) => *l,
        Expr::Mul(l, _) => *l,
        _ => e,
    }
}

/// The right operand of an operator node.
pub open spec fn right(e: Expr) -> Expr {
    match e {
        Expr::Add(_, r) => *r,
        Expr::Sub(_, r) => *r,
        Expr::Mul(_, r) => *r,
        _ => e,
    }
}

/// The arena tag of a node of `e`'s kind.
pub open spec fn tag_of(e: Expr) -> Tag {
    match e {
        Expr::Const(_) => Tag::Const,
        Expr::Var => Tag::Var,
        Expr::Add(_, _) => Tag::Add,
        Expr::Sub(_, _) => Tag::Sub,
        Expr::Mul(_, _) => Tag::Mul,
    }
}

/// The same operator as `e` over new operands.
pub open spec fn with_kids(e: Expr, l: Expr, r: Expr) -> Expr {
    match e {
        Expr::Add(_, _) => Expr::Add(Box::new(l), Box::new(r)),
        Expr::Sub(_, _) => Expr::Sub(Box::new(l), Box::new(r)),
        Expr::Mul(_, _) => Expr::Mul(Box::new(l), Box::new(r)),
        _ => e,
    }
}

/// The arena indices that the tree `e`, read from node `i`, visits.
pub open spec fn used(nodes: Seq<Node>, i: int, e: Expr) -> Set<int>
    decreases e,
{
    match e {
        Expr::Add(l, r) => set![i] + used(nodes, nodes[i].lhs as int, *l) + used(nodes, nodes[i].rhs as int, *r),
        Expr::Sub(l, r) => set![i] + used(nodes, nodes[i].lhs as int, *l) + used(nodes, nodes[i].rhs as int, *r),
        Expr::Mul(l, r) => set![i] + used(nodes, nodes[i].lhs as int, *l) + used(nodes, nodes[i].rhs as int, *r),
        _ => set![i],
    }
}

/// The operands of node `i` read as `l` and `r` share no node, and neither reaches `i`.
pub open spec fn apart(nodes: Seq<Node>, i: int, l: Expr, r: Expr) -> bool {
    let a = used(nodes, nodes[i].lhs as int, l);
    let b = used(nodes, nodes[i].rhs as int, r);
    a.disjoint(b) && !a.contains(i) && !b.contains(i)
}

/// Node `i` of `nodes` is the root of a copy of the tree `e`: tags, constants and
/// children match, and no node is shared.
pub open spec fn tree_at(nodes: Seq<Node>, i: int, e: Expr) -> bool
    decreases e,
{
    &&& 0 <= i < nodes.len()
    &&& nodes[i].tag == tag_of(e)
    &&& match e {
        Expr::Const(c) => nodes[i].val == c,
        Expr::Var => true,
        Expr::Add(l, r) => tree_at(nodes, nodes[i].lhs as int, *l) && tree_at(nodes, nodes[i].rhs as int, *r) && apart(
            nodes,
            i,
            *l,
            *r,
        ),
        Expr::Sub(l, r) => tree_at(nodes, nodes[i].lhs as int, *l) && tree_at(nodes, nodes[i].rhs as int, *r) && apart(
            nodes,
            i,
            *l,
            *r,
        ),
        Expr::Mul(l, r) => tree_at(nodes, nodes[i].lhs as int, *l) && tree_at(nodes, nodes[i].rhs as int, *r) && apart(
            nodes,
            i,
            *l,
            *r,
        ),
    }
}

proof fn lemma_binary(nodes: Seq<Node>, i: int, e: Expr)
    requires
        is_binary(e),
    ensures
        tree_at(nodes, i, e) == (0 <= i < nodes.len() && nodes[i].tag == tag_of(e) && tree_at(
            nodes,
            nodes[i].lhs as int,
            left(e),
        ) && tree_at(nodes, nodes[i].rhs as int, right(e)) && apart(nodes, i, left(e), right(e))),
        used(nodes, i, e) == set![i] + used(nodes, nodes[i].lhs as int, left(e)) + used(
            nodes,
            nodes[i].rhs as int,
            right(e),
        ),
        inner_tag(tag_of(e)),
        with_kids(e, left(e), right(e)) == e,
        forall|l: Expr, r: Expr|
            #![trigger with_kids(e, l, r)]
            is_binary(with_kids(e, l, r)) && tag_of(with_kids(e, l, r)) == tag_of(e) && left(with_kids(e, l, r))
                == l && right(with_kids(e, l, r)) == r,
        forall|steps: Seq<bool>, nw: Expr|
            #![trigger graft(e, steps, nw)]
            steps.len() > 0 ==> graft(e, steps, nw) == if steps[0] {
                with_kids(e, left(e), graft(right(e), steps.drop_first(), nw))
            } else {
                with_kids(e, graft(left(e), steps.drop_first(), nw), right(e))
            },
{
}

proof fn lemma_leaf(e: Expr)
    requires
        !is_binary(e),
    ensures
        !inner_tag(tag_of(e)),
        forall|steps: Seq<bool>, nw: Expr| #![trigger graft(e, steps, nw)] graft(e, steps, nw) == nw,
{
}

proof fn lemma_tree_used(nodes: Seq<Node>, i: int, e: Expr)
    requires
        tree_at(nodes, i, e),
    ensures
        used(nodes, i, e).contains(i),
        forall|x: int| #[trigger] used(nodes, i, e).contains(x) ==> 0 <= x < nodes.len(),
    decreases e,
{
    if is_binary(e) {
        lemma_binary(nodes, i, e);
        lemma_tree_used(nodes, nodes[i].lhs as int, left(e));
        lemma_tree_used(nodes, nodes[i].rhs as int, right(e));
    }
}

/// A tree read from `nodes` reads the same from any `nodes2` that agrees on its nodes.
proof fn lemma_tree_frame(nodes: Seq<Node>, nodes2: Seq<Node>, i: int, e: Expr)
    requires
        tree_at(nodes, i, e),
        forall|x: int| #[trigger] used(nodes, i, e).contains(x) ==> x < nodes2.len() && nodes2[x] == nodes[x],
    ensures
        tree_at(nodes2, i, e),
        used(nodes2, i, e) == used(nodes, i, e),
    decreases e,
{
    lemma_tree_used(nodes, i, e);
    if is_binary(e) {
        lemma_binary(nodes, i, e);
        lemma_binary(nodes2, i, e);
        assert(nodes2[i] == nodes[i]);
        assert forall|x: int| #[trigger] used(nodes, nodes[i].lhs as int, left(e)).contains(x) implies x < nodes2.len()
            && nodes2[x] == nodes[x] by {
            assert(used(nodes, i, e).contains(x));
        }
        assert forall|x: int| #[trigger] used(nodes, nodes[i].rhs as int, right(e)).contains(x) implies x < nodes2.len()
            && nodes2[x] == nodes[x] by {
            assert(used(nodes, i, e).contains(x));
        }
        lemma_tree_frame(nodes, nodes2, nodes[i].lhs as int, left(e));
        lemma_tree_frame(nodes, nodes2, nodes[i].rhs as int, right(e));
        assert(used(nodes2, i, e) =~= used(nodes, i, e));
    } else {
        assert(used(nodes2, i, e) =~= used(nodes, i, e));
    }
}

/// A node is the root of at most one tree.
proof fn lemma_tree_unique(nodes: Seq<Node>, i: int, a: Expr, b: Expr)
    requires
        tree_at(nodes, i, a),
        tree_at(nodes, i, b),
    ensures
        a == b,
    decreases a,
{
    if is_binary(a) {
        lemma_binary(nodes, i, a);
        lemma_binary(nodes, i, b);
        lemma_tree_unique(nodes, nodes[i].lhs as int, left(a), left(b));
        lemma_tree_unique(nodes, nodes[i].rhs as int, right(a), right(b));
    }
}

proof fn lemma_built_binary(s1: Seq<Node>, s2: Seq<Node>, s3: Seq<Node>, n0: int, lhs: int, rhs: int, e: Expr)
    requires
        is_binary(e),
        0 <= n0 <= lhs < s1.len() <= rhs < s2.len(),
        s2.subrange(0, s1.len() as int) == s1,
        s3 == s2.push(Node { tag: tag_of(e), lhs: lhs as u32, rhs: rhs as u32, val: 0 }),
        lhs == s1.len() - 1,
        rhs == s2.len() - 1,
        lhs <= u32::MAX,
        rhs <= u32::MAX,
        tree_at(s1, lhs, left(e)),
        tree_at(s2, rhs, right(e)),
        forall|x: int| #[trigger] used(s1, lhs, left(e)).contains(x) ==> n0 <= x < s1.len(),
        forall|x: int| #[trigger] used(s2, rhs, right(e)).contains(x) ==> s1.len() <= x < s2.len(),
    ensures
        tree_at(s3, s2.len() as int, e),
        forall|x: int| #[trigger] used(s3, s2.len() as int, e).contains(x) ==> n0 <= x < s3.len(),
{
    let i = s2.len() as int;
    assert forall|x: int| #[trigger] used(s1, lhs, left(e)).contains(x) implies x < s3.len() && s3[x] == s1[x] by {
        assert(s2[x] == s2.subrange(0, s1.len() as int)[x]);
    }
    lemma_tree_frame(s1, s3, lhs, left(e));
    lemma_tree_frame(s2, s3, rhs, right(e));
    lemma_binary(s3, i, e);
    assert(used(s3, lhs, left(e)).disjoint(used(s3, rhs, right(e))));
}

/// Nodes `lo..hi` are laid out in post-order: each operator among them points at two
/// earlier nodes of the range, its left operand before its right.
pub open spec fn postorder_from(nodes: Seq<Node>, lo: int, hi: int) -> bool {
    forall|j: int|
        lo <= j < hi && inner_tag(#[trigger] nodes[j].tag) ==> lo <= nodes[j].lhs < nodes[j].rhs < j
}

proof fn lemma_postorder_join(s1: Seq<Node>, s2: Seq<Node>, s3: Seq<Node>, lo: int)
    requires
        0 <= lo < s1.len() < s2.len(),
        postorder_from(s1, lo, s1.len() as int),
        s2.subrange(0, s1.len() as int) == s1,
        postorder_from(s2, s1.len() as int, s2.len() as int),
        s3.len() == s2.len() + 1,
        s3.subrange(0, s2.len() as int) == s2,
        s3[s2.len() as int].lhs == s1.len() - 1,
        s3[s2.len() as int].rhs == s2.len() - 1,
    ensures
        postorder_from(s3, lo, s3.len() as int),
{
    assert forall|j: int| lo <= j < s3.len() && inner_tag(#[trigger] s3[j].tag) implies lo <= s3[j].lhs < s3[j].rhs < j by {
        if j < s1.len() {
            assert(s3[j] == s2[j]);
            assert(s2[j] == s1[j]);
        } else if j < s2.len() {
            assert(s3[j] == s2[j]);
        }
    }
}

/// Append the nodes of `e` to `nodes` in post-order and return the root index.
/// Children are pushed before their parent, so a parent's child indices always point
/// at already-placed nodes.
fn build_arena_into(e: &Expr, nodes: &mut Vec<Node>) -> (r: u32)
    requires
        old(nodes)@.len() + size(*e) <= u32::MAX + 1,
    ensures
        final(nodes)@.len() == old(nodes)@.len() + size(*e),
        final(nodes)@.subrange(0, old(nodes)@.len() as int) == old(nodes)@,
        r == final(nodes)@.len() - 1,
        tree_at(final(nodes)@, r as int, *e),
        forall|x: int| #[trigger] used(final(nodes)@, r as int, *e).contains(x) ==> old(nodes)@.len() <= x < final(nodes)@.len(),
        postorder_from(final(nodes)@, old(nodes)@.len() as int, final(nodes)@.len() as int),
    decreases e,
{
    let ghost s0 = nodes@;
    match e {
        Expr::Const(c) => {
            nodes.push(Node { tag: Tag::Const, lhs: 0, rhs: 0, val: *c });
        },
        Expr::Var => {
            nodes.push(Node { tag: Tag::Var, lhs: 0, rhs: 0, val: 0 });
        },
        Expr::Add(l, r) => {
            let lhs = build_arena_into(l, nodes);
            let ghost s1 = nodes@;
            let rhs = build_arena_into(r, nodes);
            let ghost s2 = nodes@;
            nodes.push(Node { tag: Tag::Add, lhs, rhs, val: 0 });
            proof {
                assert(s2.subrange(0, s1.len() as int) == s1);
                lemma_built_binary(s1, s2, nodes@, s0.len() as int, lhs as int, rhs as int, *e);
                assert(nodes@.subrange(0, s2.len() as int) =~= s2);
                lemma_postorder_join(s1, s2, nodes@, s0.len() as int);
            }
        },
        Expr::Sub(l, r) => {
            let lhs = build_arena_into(l, nodes);
            let ghost s1 = nodes@;
            let rhs = build_arena_into(r, nodes);
            let ghost s2 = nodes@;
            nodes.push(Node { tag: Tag::Sub, lhs, rhs, val: 0 });
            proof {
                assert(s2.subrange(0, s1.len() as int) == s1);
                lemma_built_binary(s1, s2, nodes@, s0.len() as int, lhs as int, rhs as int, *e);
                assert(nodes@.subrange(0, s2.len() as int) =~= s2);
                lemma_postorder_join(s1, s2, nodes@, s0.len() as int);
            }
        },
        Expr::Mul(l, r) => {
            let lhs = build_arena_into(l, nodes);
            let ghost s1 = nodes@;
            let rhs = build_arena_into(r, nodes);
            let ghost s2 = nodes@;
            nodes.push(Node { tag: Tag::Mul, lhs, rhs, val: 0 });
            proof {
                assert(s2.subrange(0, s1.len() as int) == s1);
                lemma_built_binary(s1, s2, nodes@, s0.len() as int, lhs as int, rhs as int, *e);
                assert(nodes@.subrange(0, s2.len() as int) =~= s2);
                lemma_postorder_join(s1, s2, nodes@, s0.len() as int);
            }
        },
    }
    assert(nodes@.subrange(0, s0.len() as int) =~= s0);
    (nodes.len() - 1) as u32
}

impl Arena {
    /// The root node heads a tree (with no shared nodes).
    pub open spec fn wf(&self) -> bool {
        exists|t: Expr| tree_at(self.nodes@, self.root as int, t)
    }

    /// The expression the arena holds.
    pub open spec fn tree(&self) -> Expr {
        choose|t: Expr| tree_at(self.nodes@, self.root as int, t)
    }

    /// The arena form of `e`, its nodes in post-order.
    pub fn from_expr(e: &Expr) -> (r: Arena)
        requires
            size(*e) <= u32::MAX + 1,
        ensures
            r.wf(),
            r.tree() == *e,
            r.nodes@.len() == size(*e),
            r.root == size(*e) - 1,
            postorder_from(r.nodes@, 0, r.nodes@.len() as int),
    {
        let mut nodes: Vec<Node> = Vec::new();
        let root = build_arena_into(e, &mut nodes);
        let r = Arena { nodes, root };
        proof {
            lemma_tree_unique(r.nodes@, root as int, r.tree(), *e);
        }
        r
    }
}

/// The node whose child the arena edit repoints, and which child (`true` = right): the
/// last operator node met while following `steps` from node `i`, stopping at a leaf.
/// `None` when no step can be taken from `i`.
pub open spec fn walk(nodes: Seq<Node>, i: int, steps: Seq<bool>) -> Option<(int, bool)>
    decreases steps.len(),
{
    if steps.len() == 0 || !inner_tag(nodes[i].tag) {
        None
    } else {
        let c = if steps[0] {
            nodes[i].rhs
        } else {
            nodes[i].lhs
        };
        match walk(nodes, c as int, steps.drop_first()) {
            Some(x) => Some(x),
            None => Some((i, steps[0])),
        }
    }
}

/// `nodes` with child `right` (or left) of node `p` pointed at `q`.
pub open spec fn set_child(nodes: Seq<Node>, p: int, right: bool, q: int) -> Seq<Node> {
    let n = nodes[p];
    nodes.update(
        p,
        if right {
            Node { tag: n.tag, lhs: n.lhs, rhs: q as u32, val: n.val }
        } else {
            Node { tag: n.tag, lhs: q as u32, rhs: n.rhs, val: n.val }
        },
    )
}

proof fn lemma_walk_found(nodes: Seq<Node>, i: int, t: Expr, steps: Seq<bool>)
    requires
        tree_at(nodes, i, t),
        walk(nodes, i, steps) is Some,
    ensures
        used(nodes, i, t).contains(walk(nodes, i, steps).unwrap().0),
    decreases steps.len(),
{
    lemma_tree_used(nodes, i, t);
    if !is_binary(t) {
        lemma_leaf(t);
    } else {
        lemma_binary(nodes, i, t);
        let c = if steps[0] { nodes[i].rhs } else { nodes[i].lhs };
        let sub = if steps[0] { right(t) } else { left(t) };
        if walk(nodes, c as int, steps.drop_first()) is Some {
            lemma_walk_found(nodes, c as int, sub, steps.drop_first());
        }
    }
}

/// Repointing the walked-to child at a tree `nw` held apart from `t` yields `t` with
/// the edit applied, and visits only nodes of `t` and `nw`.
proof fn lemma_graft(nodes: Seq<Node>, i: int, t: Expr, steps: Seq<bool>, q: int, nw: Expr)
    requires
        tree_at(nodes, i, t),
        tree_at(nodes, q, nw),
        used(nodes, i, t).disjoint(used(nodes, q, nw)),
        walk(nodes, i, steps) is Some,
        q <= u32::MAX,
    ensures
        tree_at(
            set_child(nodes, walk(nodes, i, steps).unwrap().0, walk(nodes, i, steps).unwrap().1, q),
            i,
            graft(t, steps, nw),
        ),
        used(
            set_child(nodes, walk(nodes, i, steps).unwrap().0, walk(nodes, i, steps).unwrap().1, q),
            i,
            graft(t, steps, nw),
        ).subset_of(used(nodes, i, t) + used(nodes, q, nw)),
    decreases steps.len(),
{
    let (p, side) = walk(nodes, i, steps).unwrap();
    let nodes2 = set_child(nodes, p, side, q);
    lemma_tree_used(nodes, i, t);
    lemma_tree_used(nodes, q, nw);
    lemma_walk_found(nodes, i, t, steps);
    if !is_binary(t) {
        lemma_leaf(t);
        return;
    }
    lemma_binary(nodes, i, t);
    lemma_binary(nodes2, i, graft(t, steps, nw));
    let rest = steps.drop_first();
    let lhs = nodes[i].lhs as int;
    let rhs = nodes[i].rhs as int;
    let (c, o, sub, other) = if steps[0] {
        (rhs, lhs, right(t), left(t))
    } else {
        (lhs, rhs, left(t), right(t))
    };
    assert(used(nodes, i, t).contains(q) == false);
    if walk(nodes, c, rest) is Some {
        lemma_walk_found(nodes, c, sub, rest);
        assert(walk(nodes, c, rest) == walk(nodes, i, steps));
    }
    // The untouched operand and the new tree keep their nodes.
    assert forall|x: int| #[trigger] used(nodes, o, other).contains(x) implies x < nodes2.len() && nodes2[x]
        == nodes[x] by {
        assert(used(nodes, i, t).contains(x));
        assert(x != p);
    }
    lemma_tree_frame(nodes, nodes2, o, other);
    assert forall|x: int| #[trigger] used(nodes, q, nw).contains(x) implies x < nodes2.len() && nodes2[x]
        == nodes[x] by {
        assert(!used(nodes, i, t).contains(x));
    }
    lemma_tree_frame(nodes, nodes2, q, nw);
    if walk(nodes, c, rest) is Some {
        // The edit lies deeper, inside the operand `sub`.
        assert(walk(nodes, c, rest) == walk(nodes, i, steps));
        assert forall|x: int| #[trigger] used(nodes, c, sub).contains(x) implies used(nodes, i, t).contains(x) by {}
        assert(used(nodes, c, sub).disjoint(used(nodes, q, nw)));
        lemma_graft(nodes, c, sub, rest, q, nw);
        lemma_walk_found(nodes, c, sub, rest);
        assert(p != i);
        assert(nodes2[i] == nodes[i]);
        let g = graft(sub, rest, nw);
        assert(used(nodes2, c, g).subset_of(used(nodes, c, sub) + used(nodes, q, nw)));
        assert(used(nodes2, c, g).disjoint(used(nodes2, o, other)));
        assert(!used(nodes2, c, g).contains(i));
        assert(used(nodes2, i, graft(t, steps, nw)) =~= set![i] + used(nodes2, lhs, if steps[0] {
            other
        } else {
            g
        }) + used(nodes2, rhs, if steps[0] {
            g
        } else {
            other
        }));
    } else {
        // Node `i` is the parent: its child is repointed at `nw`.
        assert(p == i && side == steps[0]);
        if rest.len() > 0 {
            lemma_tree_used(nodes, c, sub);
            if is_binary(sub) {
                lemma_binary(nodes, c, sub);
            } else {
                lemma_leaf(sub);
            }
        }
        assert(graft(sub, rest, nw) == nw);
        assert(nodes2[i].tag == nodes[i].tag);
        assert(used(nodes2, i, graft(t, steps, nw)) =~= set![i] + used(
            nodes2,
            if steps[0] {
                lhs
            } else {
                q
            },
            if steps[0] {
                other
            } else {
                nw
            },
        ) + used(
            nodes2,
            if steps[0] {
                q
            } else {
                rhs
            },
            if steps[0] {
                nw
            } else {
                other
            },
        ));
    }
}

proof fn lemma_walk_none(nodes: Seq<Node>, i: int, t: Expr, steps: Seq<bool>)
    requires
        tree_at(nodes, i, t),
        steps.len() > 0,
        walk(nodes, i, steps) is None,
    ensures
        forall|nw: Expr| #![trigger graft(t, steps, nw)] graft(t, steps, nw) == nw,
{
    if is_binary(t) {
        lemma_binary(nodes, i, t);
    } else {
        lemma_leaf(t);
    }
}

impl Arena {
    /// The same edit as `mutate_boxed`: the new subtree's nodes are appended (the old
    /// nodes are left orphaned), and one parent child-index is repointed.
    pub fn mutate(&mut self, steps: &[bool], new: &Expr)
        requires
            old(self).wf(),
            old(self).nodes@.len() + size(*new) <= u32::MAX + 1,
        ensures
            final(self).wf(),
            final(self).tree() == graft(old(self).tree(), steps@, *new),
            final(self).nodes@.len() == old(self).nodes@.len() + size(*new),
    {
        let ghost t = self.tree();
        let ghost s0 = self.nodes@;
        let ghost root0 = self.root as int;
        proof {
            lemma_tree_used(s0, root0, t);
        }
        let new_root = build_arena_into(new, &mut self.nodes);
        let ghost s1 = self.nodes@;
        proof {
            assert forall|x: int| #[trigger] used(s0, root0, t).contains(x) implies x < s1.len() && s1[x] == s0[x] by {
                assert(s1[x] == s1.subrange(0, s0.len() as int)[x]);
            }
            lemma_tree_frame(s0, s1, root0, t);
            assert(used(s1, root0, t).disjoint(used(s1, new_root as int, *new)));
        }
        if steps.len() == 0 {
            self.root = new_root;
            proof {
                lemma_tree_unique(self.nodes@, new_root as int, self.tree(), *new);
            }
            return;
        }
        let mut parent: u32 = u32::MAX;
        let mut side_right = false;
        let mut idx = self.root;
        let mut k: usize = 0;
        let mut done = false;
        let ghost mut sub = t;
        assert(steps@.skip(0) == steps@);
        while k < steps.len() && !done
            invariant
                k <= steps@.len(),
                steps@.len() > 0,
                self.nodes@ == s1,
                self.root as int == root0,
                s0.len() + size(*new) <= u32::MAX + 1,
                s0.len() <= s1.len(),
                tree_at(s1, idx as int, sub),
                used(s1, idx as int, sub).subset_of(used(s1, root0, t)),
                forall|x: int| #[trigger] used(s1, root0, t).contains(x) ==> x < s0.len(),
                k == 0 <==> parent == u32::MAX,
                k > 0 ==> parent < s0.len(),
                done ==> !inner_tag(s1[idx as int].tag),
                walk(s1, root0, steps@) == match walk(s1, idx as int, steps@.skip(k as int)) {
                    Some(x) => Some(x),
                    None => if k == 0 {
                        None
                    } else {
                        Some((parent as int, side_right))
                    },
                },
            decreases steps@.len() - k + if done {
                0int
            } else {
                1int
            },
        {
            let n = self.nodes[idx as usize];
            if !n.tag.is_internal() {
                done = true;
            } else {
                proof {
                    lemma_binary(s1, idx as int, sub);
                    assert(steps@.skip(k as int).drop_first() == steps@.skip(k + 1));
                    assert(steps@.skip(k as int)[0] == steps@[k as int]);
                    lemma_tree_used(s1, idx as int, sub);
                    assert(used(s1, root0, t).contains(idx as int));
                }
                parent = idx;
                side_right = steps[k];
                idx = if steps[k] {
                    n.rhs
                } else {
                    n.lhs
                };
                proof {
                    sub = if steps[k as int] {
                        right(sub)
                    } else {
                        left(sub)
                    };
                }
                k += 1;
            }
        }
        proof {
            if k == steps@.len() {
                assert(steps@.skip(k as int).len() == 0);
            }
            assert(walk(s1, idx as int, steps@.skip(k as int)) is None);
        }
        if parent == u32::MAX {
            self.root = new_root;
            proof {
                lemma_walk_none(s1, root0, t, steps@);
                lemma_tree_unique(self.nodes@, new_root as int, self.tree(), *new);
            }
        } else {
            let mut pn = self.nodes[parent as usize];
            if side_right {
                pn.rhs = new_root;
            } else {
                pn.lhs = new_root;
            }
            self.nodes.set(parent as usize, pn);
            proof {
                lemma_tree_used(s1, new_root as int, *new);
                lemma_graft(s1, root0, t, steps@, new_root as int, *new);
                assert(self.nodes@ == set_child(s1, parent as int, side_right, new_root as int));
                lemma_tree_unique(self.nodes@, root0, self.tree(), graft(t, steps@, *new));
            }
        }
    }
}

/// One instruction of the post-order stack machine.
#[derive(Clone, Copy, PartialEq, Eq, Structural, Debug)]
pub enum Op {
    Const(u64),
    Var,
    Add,
    Sub,
    Mul,
}

/// The expression linearized in post-order: both operands before their operator.
pub open spec fn postorder(e: Expr) -> Seq<Op>
    decreases e,
{
    match e {
        Expr::Const(c) => seq![Op::Const(c)],
        Expr::Var => seq![Op::Var],
        Expr::Add(l, r) => postorder(*l) + postorder(*r) + seq![Op::Add],
        Expr::Sub(l, r) => postorder(*l) + postorder(*r) + seq![Op::Sub],
        Expr::Mul(l, r) => postorder(*l) + postorder(*r) + seq![Op::Mul],
    }
}

/// Emit the subtree at node `i` (the tree `t`) in post-order.
fn compile(nodes: &[Node], i: u32, out: &mut Vec<Op>, Ghost(t): Ghost<Expr>)
    requires
        tree_at(nodes@, i as int, t),
    ensures
        final(out)@ == old(out)@ + postorder(t),
    decreases t,
{
    let n = nodes[i as usize];
    proof {
        if is_binary(t) {
            lemma_binary(nodes@, i as int, t);
        }
    }
    match n.tag {
        Tag::Const => {
            out.push(Op::Const(n.val));
        },
        Tag::Var => {
            out.push(Op::Var);
        },
        Tag::Add => {
            compile(nodes, n.lhs, out, Ghost(left(t)));
            compile(nodes, n.rhs, out, Ghost(right(t)));
            out.push(Op::Add);
        },
        Tag::Sub => {
            compile(nodes, n.lhs, out, Ghost(left(t)));
            compile(nodes, n.rhs, out, Ghost(right(t)));
            out.push(Op::Sub);
        },
        Tag::Mul => {
            compile(nodes, n.lhs, out, Ghost(left(t)));
            compile(nodes, n.rhs, out, Ghost(right(t)));
            out.push(Op::Mul);
        },
    }
    assert(out@ =~= old(out)@ + postorder(t));
}

/// The expression as a post-order instruction stream, with the arena it is compiled
/// from as the editable source.
pub struct Flat {
    pub arena: Arena,
    pub code: Vec<Op>,
}

impl Flat {
    /// Compile an arena.
    pub fn from_arena(arena: Arena) -> (r: Flat)
        requires
            arena.wf(),
        ensures
            r.arena == arena,
            r.code@ == postorder(arena.tree()),
    {
        let mut code: Vec<Op> = Vec::new();
        proof {
            let t = arena.tree();
            assert(tree_at(arena.nodes@, arena.root as int, t));
        }
        compile(arena.nodes.as_slice(), arena.root, &mut code, Ghost(arena.tree()));
        assert(code@ =~= postorder(arena.tree()));
        Flat { arena, code }
    }

    /// Edit the source arena, then re-linearize the whole expression.
    pub fn mutate(&mut self, steps: &[bool], new: &Expr)
        requires
            old(self).arena.wf(),
            old(self).arena.nodes@.len() + size(*new) <= u32::MAX + 1,
        ensures
            final(self).arena.wf(),
            final(self).arena.tree() == graft(old(self).arena.tree(), steps@, *new),
            final(self).arena.nodes@.len() == old(self).arena.nodes@.len() + size(*new),
            final(self).code@ == postorder(final(self).arena.tree()),
    {
        self.arena.mutate(steps, new);
        self.code.clear();
        proof {
            let t = self.arena.tree();
            assert(tree_at(self.arena.nodes@, self.arena.root as int, t));
        }
        compile(self.arena.nodes.as_slice(), self.arena.root, &mut self.code, Ghost(self.arena.tree()));
        assert(self.code@ =~= postorder(self.arena.tree()));
    }
}

/// The value of `e` at `x` when constants, `+`, `-` and `*` are read by the given
/// functions.
pub open spec fn value_of<V>(
    e: Expr,
    x: V,
    lit: spec_fn(u64) -> V,
    plus: spec_fn(V, V) -> V,
    minus: spec_fn(V, V) -> V,
    times: spec_fn(V, V) -> V,
) -> V
    decreases e,
{
    match e {
        Expr::Const(c) => lit(c),
        Expr::Var => x,
        Expr::Add(l, r) => plus(value_of(*l, x, lit, plus, minus, times), value_of(*r, x, lit, plus, minus, times)),
        Expr::Sub(l, r) => minus(value_of(*l, x, lit, plus, minus, times), value_of(*r, x, lit, plus, minus, times)),
        Expr::Mul(l, r) => times(value_of(*l, x, lit, plus, minus, times), value_of(*r, x, lit, plus, minus, times)),
    }
}

/// One instruction on a value stack: a leaf pushes its value; an operator pops the
/// right operand `b`, then the left `a`, and pushes `a op b`.
pub open spec fn exec_op<V>(
    op: Op,
    stack: Seq<V>,
    x: V,
    lit: spec_fn(u64) -> V,
    plus: spec_fn(V, V) -> V,
    minus: spec_fn(V, V) -> V,
    times: spec_fn(V, V) -> V,
) -> Seq<V> {
    let b = stack.last();
    let a = stack.drop_last().last();
    let rest = stack.drop_last().drop_last();
    match op {
        Op::Const(c) => stack.push(lit(c)),
        Op::Var => stack.push(x),
        Op::Add => rest.push(plus(a, b)),
        Op::Sub => rest.push(minus(a, b)),
        Op::Mul => rest.push(times(a, b)),
    }
}

/// The stack after running `code` from `stack`.
pub open spec fn run_code<V>(
    code: Seq<Op>,
    stack: Seq<V>,
    x: V,
    lit: spec_fn(u64) -> V,
    plus: spec_fn(V, V) -> V,
    minus: spec_fn(V, V) -> V,
    times: spec_fn(V, V) -> V,
) -> Seq<V>
    decreases code.len(),
{
    if code.len() == 0 {
        stack
    } else {
        run_code(code.drop_first(), exec_op(code[0], stack, x, lit, plus, minus, times), x, lit, plus, minus, times)
    }
}

proof fn lemma_run_concat<V>(
    a: Seq<Op>,
    b: Seq<Op>,
    stack: Seq<V>,
    x: V,
    lit: spec_fn(u64) -> V,
    plus: spec_fn(V, V) -> V,
    minus: spec_fn(V, V) -> V,
    times: spec_fn(V, V) -> V,
)
    ensures
        run_code(a + b, stack, x, lit, plus, minus, times) == run_code(
            b,
            run_code(a, stack, x, lit, plus, minus, times),
            x,
            lit,
            plus,
            minus,
            times,
        ),
    decreases a.len(),
{
    if a.len() == 0 {
        assert(a + b =~= b);
    } else {
        assert((a + b).drop_first() =~= a.drop_first() + b);
        assert((a + b)[0] == a[0]);
        lemma_run_concat(a.drop_first(), b, exec_op(a[0], stack, x, lit, plus, minus, times), x, lit, plus, minus, times);
    }
}

/// The pointer tree, the arena and the flat form hold the same expression, and the flat
/// form's code is that expression's post-order.
pub open spec fn forms_agree(boxed: Expr, arena: Arena, flat: Flat) -> bool {
    &&& arena.wf()
    &&& arena.tree() == boxed
    &&& flat.arena.wf()
    &&& flat.arena.tree() == boxed
    &&& flat.code@ == postorder(boxed)
}

/// The edits applied to `e` in order.
pub open spec fn graft_all(e: Expr, edits: Seq<(Seq<bool>, Expr)>) -> Expr
    decreases edits.len(),
{
    if edits.len() == 0 {
        e
    } else {
        graft(graft_all(e, edits.drop_last()), edits.last().0, edits.last().1)
    }
}

/// The three forms keep agreeing under edits: forms that agree, each taken through the
/// same edits to the tree it holds (as `mutate_boxed`, `Arena::mutate` and `Flat::mutate`
/// do), agree again, on the expression with every edit grafted in.
pub proof fn forms_agree_after_edits(
    e: Expr,
    a0: Arena,
    f0: Flat,
    edits: Seq<(Seq<bool>, Expr)>,
    boxed: Expr,
    arena: Arena,
    flat: Flat,
)
    requires
        forms_agree(e, a0, f0),
        boxed == graft_all(e, edits),
        arena.wf(),
        arena.tree() == graft_all(a0.tree(), edits),
        flat.arena.wf(),
        flat.arena.tree() == graft_all(f0.arena.tree(), edits),
        flat.code@ == postorder(flat.arena.tree()),
    ensures
        forms_agree(boxed, arena, flat),
{
}

/// Running an expression's post-order code pushes exactly its value, whatever the
/// arithmetic: the stack machine computes what the tree computes, operation for
/// operation and in the same association, so their results are identical bit for bit.
pub proof fn postorder_computes_value<V>(
    e: Expr,
    stack: Seq<V>,
    x: V,
    lit: spec_fn(u64) -> V,
    plus: spec_fn(V, V) -> V,
    minus: spec_fn(V, V) -> V,
    times: spec_fn(V, V) -> V,
)
    ensures
        run_code(postorder(e), stack, x, lit, plus, minus, times) == stack.push(value_of(e, x, lit, plus, minus, times)),
    decreases e,
{
    match e {
        Expr::Const(c) => {
            let s1 = exec_op(Op::Const(c), stack, x, lit, plus, minus, times);
            assert(postorder(e).drop_first() =~= Seq::<Op>::empty());
            assert(run_code(Seq::<Op>::empty(), s1, x, lit, plus, minus, times) == s1);
            assert(run_code(postorder(e), stack, x, lit, plus, minus, times) == s1);
        },
        Expr::Var => {
            let s1 = exec_op(Op::Var, stack, x, lit, plus, minus, times);
            assert(postorder(e).drop_first() =~= Seq::<Op>::empty());
            assert(run_code(Seq::<Op>::empty(), s1, x, lit, plus, minus, times) == s1);
        },
        _ => {
            let l = left(e);
            let r = right(e);
            let op = match e {
                Expr::Add(_, _) => Op::Add,
                Expr::Sub(_, _) => Op::Sub,
                _ => Op::Mul,
            };
            assert(postorder(e) == postorder(l) + postorder(r) + seq![op]);
            lemma_run_concat(postorder(l) + postorder(r), seq![op], stack, x, lit, plus, minus, times);
            lemma_run_concat(postorder(l), postorder(r), stack, x, lit, plus, minus, times);
            postorder_computes_value(l, stack, x, lit, plus, minus, times);
            let s1 = stack.push(value_of(l, x, lit, plus, minus, times));
            postorder_computes_value(r, s1, x, lit, plus, minus, times);
            let s2 = s1.push(value_of(r, x, lit, plus, minus, times));
            assert(s2.drop_last() =~= s1);
            assert(s1.drop_last() =~= stack);
            let s3 = exec_op(op, s2, x, lit, plus, minus, times);
            assert(seq![op].drop_first() =~= Seq::<Op>::empty());
            assert(run_code(Seq::<Op>::empty(), s3, x, lit, plus, minus, times) == s3);
            assert(run_code(seq![op], s2, x, lit, plus, minus, times) == s3);
            assert(s3 == stack.push(value_of(e, x, lit, plus, minus, times)));
        },
    }
}

} // verus!
