use soa_lab::lcg::Lcg;
use soa_lab::sheet::{
    build_dependents, build_sheet, const_kinds, deps_of, idx, tile_lengths, Agg, ConstKind, Expr,
    Frontier, Sheet,
};
use std::collections::BTreeSet;

fn unit(rng: &mut Lcg) -> f64 {
    (rng.next() >> 11) as f64 / (1u64 << 53) as f64
}

/// The constants a generated sheet draws, in drawing order, as `f64` bits.
fn draw_consts(rows: usize, cols: usize, consumers: usize, rng: &mut Lcg) -> Vec<u64> {
    const_kinds(rows, cols, consumers)
        .into_iter()
        .map(|k| {
            let v = match k {
                ConstKind::Input => unit(rng),
                ConstKind::Scale => 0.99 + 0.02 * unit(rng),
                ConstKind::Offset => (unit(rng) - 0.5) * 0.1,
                ConstKind::Weight => 0.5 + unit(rng),
            };
            v.to_bits()
        })
        .collect()
}

fn sheet(rows: usize, cols: usize, agg: Agg, consumers: usize, seed: u64) -> Sheet {
    let mut rng = Lcg::new(seed);
    let consts = draw_consts(rows, cols, consumers, &mut rng);
    build_sheet(rows, cols, agg, consumers, &consts)
}

#[test]
fn id_order_is_topological() {
    let sheet = sheet(200, 5, Agg::Sum, 100, 1);
    let mut deps = Vec::new();
    for id in 0..sheet.len() {
        deps.clear();
        deps_of(&sheet.formula[id], &mut deps);
        for &d in &deps {
            assert!((d as usize) < id, "cell {id} reads later cell {d}");
        }
    }
}

#[test]
fn generated_sheet_has_the_documented_shape() {
    let (rows, cols, consumers) = (7, 3, 4);
    let s = sheet(rows, cols, Agg::Max, consumers, 9);
    assert_eq!(s.len(), rows * cols + cols + 1 + consumers);
    assert!(matches!(s.formula[0], Expr::Const(_)));
    assert!(matches!(s.formula[rows], Expr::Add(_, _)));
    assert!(matches!(s.formula[rows * cols], Expr::Max(0, 7)));
    assert!(matches!(s.formula[rows * cols + 2], Expr::Max(14, 7)));
    assert!(matches!(s.formula[rows * cols + cols], Expr::Max(21, 3)));
    match &s.formula[rows * cols + cols + 1] {
        Expr::Mul(l, _) => assert!(matches!(**l, Expr::Cell(24))),
        _ => panic!("a consumer weights the grand aggregate"),
    }
    // A derived cell reads its left neighbour.
    match &s.formula[rows + 3] {
        Expr::Add(m, _) => match &**m {
            Expr::Mul(c, _) => assert!(matches!(**c, Expr::Cell(3))),
            _ => panic!("scale"),
        },
        _ => panic!("derived"),
    }
}

#[test]
fn constants_follow_drawing_order() {
    let kinds = const_kinds(2, 3, 2);
    assert_eq!(
        kinds,
        vec![
            ConstKind::Input,
            ConstKind::Input,
            ConstKind::Scale,
            ConstKind::Offset,
            ConstKind::Scale,
            ConstKind::Offset,
            ConstKind::Scale,
            ConstKind::Offset,
            ConstKind::Scale,
            ConstKind::Offset,
            ConstKind::Weight,
            ConstKind::Weight,
        ]
    );
    assert_eq!(const_kinds(0, 0, 3), vec![ConstKind::Weight; 3]);
}

#[test]
fn dependents_invert_the_reads() {
    let s = sheet(6, 4, Agg::Sum, 3, 2);
    let n = s.len();
    for d in 0..n as u32 {
        let mut expect = Vec::new();
        let mut deps = Vec::new();
        for c in 0..n {
            deps.clear();
            deps_of(&s.formula[c], &mut deps);
            for &x in &deps {
                if x == d {
                    expect.push(c as u32);
                }
            }
        }
        assert_eq!(s.dependents_of(d), &expect[..], "dependents of {d}");
    }
}

#[test]
fn build_dependents_counts_every_edge() {
    let formula = vec![
        Expr::Const(0),
        Expr::Cell(0),
        Expr::Add(Box::new(Expr::Cell(0)), Box::new(Expr::Cell(1))),
        Expr::Sum(0, 3),
    ];
    let (offsets, dependents) = build_dependents(&formula, 4);
    assert_eq!(offsets, vec![0, 3, 5, 6, 6]);
    assert_eq!(dependents, vec![1, 2, 3, 2, 3, 3]);
}

fn closure(s: &Sheet, edited: &[u32]) -> Vec<u32> {
    let mut seen = BTreeSet::new();
    let mut todo: Vec<u32> = edited.to_vec();
    while let Some(x) = todo.pop() {
        if seen.insert(x) {
            todo.extend_from_slice(s.dependents_of(x));
        }
    }
    seen.into_iter().collect()
}

#[test]
fn cone_is_the_sorted_transitive_closure() {
    let s = sheet(30, 4, Agg::Sum, 20, 2);
    for edited in [vec![0u32], vec![5, 5, 17], (0..10).collect::<Vec<u32>>(), vec![121]] {
        let cone = s.cone(&edited);
        assert_eq!(cone, closure(&s, &edited));
        assert!(cone.windows(2).all(|w| w[0] < w[1]));
    }
    // An input edit reaches its row, its column totals, the grand total and the dashboard.
    let cone = s.cone(&[0]);
    assert_eq!(cone.len(), 4 + 4 + 1 + 20);
}

#[test]
fn cone_of_a_fill_down() {
    let mut s = sheet(300, 6, Agg::Sum, 500, 2);
    let edited: Vec<u32> = (0..50).collect();
    for &id in &edited {
        s.set_literal(id, (0.123 + id as f64).to_bits());
    }
    let cone = s.cone(&edited);
    assert_eq!(cone, closure(&s, &edited));
    assert_eq!(cone.len(), 50 * 6 + 6 + 1 + 500);
}

#[test]
fn frontier_takes_the_lowest_id_once() {
    let mut f = Frontier::new(10);
    assert!(f.push(7));
    assert!(f.push(2));
    assert!(!f.push(7));
    assert!(f.push(9));
    assert_eq!(f.pop(), Some(2));
    assert!(f.push(2));
    assert_eq!(f.pop(), Some(2));
    assert_eq!(f.pop(), Some(7));
    assert_eq!(f.pop(), Some(9));
    assert_eq!(f.pop(), None);
}

#[test]
fn frontier_walks_a_cone_in_id_order() {
    let s = sheet(8, 3, Agg::Max, 5, 3);
    let mut f = Frontier::new(s.len());
    f.push(4);
    let mut order = Vec::new();
    while let Some(id) = f.pop() {
        order.push(id);
        f.push_dependents(&s, id);
    }
    assert_eq!(order, s.cone(&[4]));
}

#[test]
fn tiles_cover_a_column() {
    assert_eq!(tile_lengths(10, 4), vec![4, 4, 2]);
    assert_eq!(tile_lengths(8, 4), vec![4, 4]);
    assert_eq!(tile_lengths(3, 4), vec![3]);
    assert!(tile_lengths(0, 4).is_empty());
    assert_eq!(tile_lengths(1 << 23, 1 << 22).len(), 2);
}

#[test]
fn column_major_index() {
    assert_eq!(idx(500, 0, 0), 0);
    assert_eq!(idx(500, 3, 7), 1507);
    assert_eq!(idx(16, 15, 15), 255);
}

#[test]
fn readers_come_after_what_they_read() {
    let s = sheet(40, 5, Agg::Max, 30, 9);
    for d in 0..s.len() as u32 {
        for &r in s.dependents_of(d) {
            assert!(r > d, "cell {r} reads {d} but does not come after it");
        }
    }
}
