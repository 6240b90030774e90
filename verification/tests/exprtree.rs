use soa_lab::exprtree::{
    copy_expr, gen_tree, leaf_const, make_edits, mutate_boxed, nodes_in, Arena, Expr, Flat, Op, Tag,
};
use soa_lab::lcg::Lcg;

fn eval_boxed(e: &Expr, x: f64) -> f64 {
    match e {
        Expr::Const(c) => f64::from_bits(*c),
        Expr::Var => x,
        Expr::Add(l, r) => eval_boxed(l, x) + eval_boxed(r, x),
        Expr::Sub(l, r) => eval_boxed(l, x) - eval_boxed(r, x),
        Expr::Mul(l, r) => eval_boxed(l, x) * eval_boxed(r, x),
    }
}

fn eval_arena(a: &Arena, i: u32, x: f64) -> f64 {
    let n = a.nodes[i as usize];
    match n.tag {
        Tag::Const => f64::from_bits(n.val),
        Tag::Var => x,
        Tag::Add => eval_arena(a, n.lhs, x) + eval_arena(a, n.rhs, x),
        Tag::Sub => eval_arena(a, n.lhs, x) - eval_arena(a, n.rhs, x),
        Tag::Mul => eval_arena(a, n.lhs, x) * eval_arena(a, n.rhs, x),
    }
}

fn eval_flat(code: &[Op], x: f64, stack: &mut Vec<f64>) -> f64 {
    stack.clear();
    for op in code {
        match *op {
            Op::Const(c) => stack.push(f64::from_bits(c)),
            Op::Var => stack.push(x),
            Op::Add | Op::Sub | Op::Mul => {
                let b = stack.pop().unwrap();
                let a = stack.pop().unwrap();
                stack.push(match *op {
                    Op::Add => a + b,
                    Op::Sub => a - b,
                    _ => a * b,
                });
            }
        }
    }
    stack.pop().unwrap()
}

fn assert_all_agree(boxed: &Expr, arena: &Arena, flat: &Flat) {
    let mut stack = Vec::new();
    for k in 0..32 {
        let x = 0.5 + k as f64 / 32.0;
        let b = eval_boxed(boxed, x);
        let a = eval_arena(arena, arena.root, x);
        let f = eval_flat(&flat.code, x, &mut stack);
        assert_eq!(b.to_bits(), a.to_bits(), "boxed vs arena diverged at x={x}");
        assert_eq!(b.to_bits(), f.to_bits(), "boxed vs flat diverged at x={x}");
    }
}

fn compiled(e: &Expr) -> Vec<Op> {
    Flat::from_arena(Arena::from_expr(e)).code
}

#[test]
fn representations_agree_across_depths() {
    for depth in [0u64, 1, 2, 5, 8, 12] {
        let mut rng = Lcg::new(0xC0FFEE ^ depth);
        let boxed = gen_tree(depth as u32, &mut rng);
        let arena = Arena::from_expr(&boxed);
        let flat = Flat::from_arena(Arena::from_expr(&boxed));
        assert_eq!(arena.nodes.len() as u64, nodes_in(depth as u32));
        assert_all_agree(&boxed, &arena, &flat);
    }
}

#[test]
fn representations_agree_after_edits() {
    let mut rng = Lcg::new(0xBEEF_F00D);
    let mut boxed = gen_tree(8, &mut rng);
    let mut arena = Arena::from_expr(&boxed);
    let mut flat = Flat::from_arena(Arena::from_expr(&boxed));
    let edits = make_edits(50, 8, &mut rng);
    for (steps, new) in &edits {
        mutate_boxed(&mut boxed, steps, new);
        arena.mutate(steps, new);
        flat.mutate(steps, new);
        assert_all_agree(&boxed, &arena, &flat);
        // The same tree, instruction for instruction.
        assert_eq!(flat.code, compiled(&boxed));
    }
}

#[test]
fn edit_at_root_replaces_whole_tree() {
    let mut rng = Lcg::new(7);
    let mut arena = Arena::from_expr(&gen_tree(4, &mut rng));
    let replacement = Expr::Const(0.875f64.to_bits());
    arena.mutate(&[], &replacement);
    assert_eq!(eval_arena(&arena, arena.root, 123.0), 0.875);
    let root = arena.nodes[arena.root as usize];
    assert_eq!(root.tag, Tag::Const);
    assert_eq!(root.val, 0.875f64.to_bits());
}

#[test]
fn flat_stack_is_reusable() {
    let mut rng = Lcg::new(99);
    let flat = Flat::from_arena(Arena::from_expr(&gen_tree(6, &mut rng)));
    let mut stack = Vec::new();
    let first = eval_flat(&flat.code, 0.9, &mut stack);
    let again = eval_flat(&flat.code, 0.9, &mut stack);
    assert_eq!(first.to_bits(), again.to_bits());
}

#[test]
fn leaf_constants_match_float_arithmetic() {
    let mut a = Lcg::new(12345);
    let mut b = Lcg::new(12345);
    for _ in 0..20_000 {
        let bits = leaf_const(&mut a);
        let unit = (b.next() >> 11) as f64 / (1u64 << 53) as f64;
        assert_eq!(bits, (0.5 + unit).to_bits());
    }
    // Both sides of the rounding boundary at 1.0.
    let v = f64::from_bits(leaf_const(&mut Lcg::new(1)));
    assert!((0.5..1.5).contains(&v));
}

#[test]
fn nodes_in_counts_full_trees() {
    assert_eq!(nodes_in(0), 1);
    assert_eq!(nodes_in(3), 15);
    assert_eq!(nodes_in(20), 2_097_151);
    assert_eq!(nodes_in(62), u64::MAX >> 1);
}

#[test]
fn postorder_places_operands_before_operator() {
    let e = Expr::Sub(
        Box::new(Expr::Mul(Box::new(Expr::Var), Box::new(Expr::Const(2)))),
        Box::new(Expr::Const(7)),
    );
    assert_eq!(
        compiled(&e),
        vec![Op::Var, Op::Const(2), Op::Mul, Op::Const(7), Op::Sub]
    );
}

#[test]
fn boxed_edit_stops_at_a_leaf() {
    let e = Expr::Add(Box::new(Expr::Var), Box::new(Expr::Const(1)));
    let mut t = copy_expr(&e);
    // The left child is a leaf: the remaining steps are ignored and it is replaced.
    mutate_boxed(&mut t, &[false, true, true], &Expr::Const(9));
    assert_eq!(compiled(&t), vec![Op::Const(9), Op::Const(1), Op::Add]);
    // The arena performs the identical edit.
    let mut a = Arena::from_expr(&e);
    a.mutate(&[false, true, true], &Expr::Const(9));
    assert_eq!(Flat::from_arena(a).code, compiled(&t));
}

#[test]
fn arena_edit_appends_the_graft() {
    let mut rng = Lcg::new(5);
    let e = gen_tree(3, &mut rng);
    let mut a = Arena::from_expr(&e);
    let graft = gen_tree(1, &mut rng);
    a.mutate(&[true, false], &graft);
    assert_eq!(a.nodes.len() as u64, nodes_in(3) + nodes_in(1));
}

#[test]
fn generated_trees_are_seed_deterministic() {
    let a = gen_tree(6, &mut Lcg::new(3));
    let b = gen_tree(6, &mut Lcg::new(3));
    let c = gen_tree(6, &mut Lcg::new(4));
    assert_eq!(compiled(&a), compiled(&b));
    assert_ne!(compiled(&a), compiled(&c));
}

#[test]
fn edits_draw_a_path_then_a_small_tree() {
    let step = |s: u64| s.wrapping_mul(6364136223846793005).wrapping_add(1442695040888963407);
    let mut rng = Lcg::new(5);
    let edits = make_edits(3, 4, &mut rng);
    assert_eq!(edits.len(), 3);
    // The first edit: its length from the first draw, one direction per following draw.
    let s1 = step(5);
    let len = (s1 % 4) as usize + 1;
    assert_eq!(edits[0].0.len(), len);
    let mut s = s1;
    for d in &edits[0].0 {
        s = step(s);
        assert_eq!(*d, s & 1 == 0);
    }
    // Then a tree of depth 2, drawn from where the path left the generator.
    let mut g = Lcg::new(s);
    let expect = gen_tree(2, &mut g);
    assert_eq!(compiled(&edits[0].1), compiled(&expect));
    for (steps, _) in &edits {
        assert!((1..=4).contains(&steps.len()));
    }
    // The same seed draws the same edits.
    let again = make_edits(3, 4, &mut Lcg::new(5));
    for k in 0..3 {
        assert_eq!(again[k].0, edits[k].0);
        assert_eq!(compiled(&again[k].1), compiled(&edits[k].1));
    }
}
