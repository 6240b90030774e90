use soa_lab::fpfragility::{near_collinear, orient_exact};
use soa_lab::lcg::Lcg;

#[test]
fn orientation_exact_is_correct() {
    let m = 1i64 << 30;
    let a = (0, 0);
    let b = (m, m - 1);
    let c = (m + 1, m);
    assert_eq!(orient_exact(a, b, c), 1);
}

#[test]
fn orientation_signs() {
    assert_eq!(orient_exact((0, 0), (1, 0), (0, 1)), 1);
    assert_eq!(orient_exact((0, 0), (1, 0), (0, -1)), -1);
    assert_eq!(orient_exact((0, 0), (2, 2), (5, 5)), 0);
    // extreme coordinates: the products need 128 bits
    let big = i64::MAX / 2;
    assert_eq!(orient_exact((0, 0), (big, big - 1), (big + 1, big)), 1);
}

#[test]
fn near_collinear_triples_are_one_step_off_the_diagonal() {
    let mut rng = Lcg::new(99);
    for _ in 0..100 {
        let (a, b, c) = near_collinear(&mut rng);
        assert_eq!(a, (0, 0));
        assert!(b.0 >= 1 << 29 && b.0 < (1 << 29) + (1 << 30));
        let d = b.1 - b.0;
        assert!([-2, -1, 1, 2].contains(&d));
        assert_eq!(c, (b.0 + 1, b.1 + 1));
        // the exact determinant is p - q
        let expect = if b.0 > b.1 { 1 } else { -1 };
        assert_eq!(orient_exact(a, b, c), expect);
    }
}

#[test]
fn near_collinear_draws_in_order() {
    let mut rng = Lcg::new(5);
    let mut probe = Lcg::new(5);
    let s1 = probe.next();
    let s2 = probe.next();
    let (_, b, _) = near_collinear(&mut rng);
    assert_eq!(b.0, (s1 % (1 << 30)) as i64 + (1 << 29));
    let off = [-2i64, -1, 1, 2][(s2 % 4) as usize];
    assert_eq!(b.1, b.0 + off);
    assert_eq!(rng.state, s2);
}
