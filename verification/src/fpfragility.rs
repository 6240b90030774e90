use vstd::prelude::*;
use crate::lcg::{lcg_step, Lcg};

verus! {

/// The orientation determinant of `c` against the line `a -> b`, exactly.
pub open spec fn orientation_det(a: (i64, i64), b: (i64, i64), c: (i64, i64)) -> int {
    (b.0 - a.0) * (c.1 - a.1) - (b.1 - a.1) * (c.0 - a.0)
}

/// `1`, `-1` or `0` by the sign of `x`.
pub open spec fn sign_of(x: int) -> i32 {
    if x > 0 {
        1i32
    } else if x < 0 {
        -1i32
    } else {
        0i32
    }
}

/// Every coordinate difference the determinant takes fits an `i64`.
pub open spec fn differences_fit(a: (i64, i64), b: (i64, i64), c: (i64, i64)) -> bool {
    &&& i64::MIN <= b.0 - a.0 <= i64::MAX
    &&& i64::MIN <= b.1 - a.1 <= i64::MAX
    &&& i64::MIN <= c.0 - a.0 <= i64::MAX
    &&& i64::MIN <= c.1 - a.1 <= i64::MAX
}

/// Which side of the line `a -> b` the point `c` is on: `1` left, `-1` right, `0` on it.
/// Exact: the determinant is formed in 128-bit integers.
pub fn orient_exact(a: (i64, i64), b: (i64, i64), c: (i64, i64)) -> (r: i32)
    requires
        differences_fit(a, b, c),
    ensures
        r == sign_of(orientation_det(a, b, c)),
{
    let dx1 = (b.0 - a.0) as i128;
    let dy2 = (c.1 - a.1) as i128;
    let dy1 = (b.1 - a.1) as i128;
    let dx2 = (c.0 - a.0) as i128;
    proof {
        lemma_product_fits(dx1 as int, dy2 as int);
        lemma_product_fits(dy1 as int, dx2 as int);
    }
    let p1 = dx1 * dy2;
    let p2 = dy1 * dx2;
    let det = p1 - p2;
    if det > 0 {
        1
    } else if det < 0 {
        -1
    } else {
        0
    }
}

proof fn lemma_product_fits(x: int, y: int)
    requires
        -0x8000_0000_0000_0000 <= x <= 0x7fff_ffff_ffff_ffff,
        -0x8000_0000_0000_0000 <= y <= 0x7fff_ffff_ffff_ffff,
    ensures
        -0x4000_0000_0000_0000_0000_0000_0000_0000 + 0x8000_0000_0000_0000 <= x * y
            <= 0x4000_0000_0000_0000_0000_0000_0000_0000,
{
    let m: int = 0x8000_0000_0000_0000;
    if x >= 0 && y >= 0 {
        assert(x * y <= (m - 1) * (m - 1)) by (nonlinear_arith)
            requires
                0 <= x <= m - 1,
                0 <= y <= m - 1,
        ;
        assert(x * y >= 0) by (nonlinear_arith)
            requires
                0 <= x,
                0 <= y,
        ;
    } else if x < 0 && y < 0 {
        assert(x * y <= m * m) by (nonlinear_arith)
            requires
                -m <= x < 0,
                -m <= y < 0,
        ;
        assert(x * y >= 0) by (nonlinear_arith)
            requires
                x < 0,
                y < 0,
        ;
    } else if x < 0 {
        assert(x * y >= -m * (m - 1)) by (nonlinear_arith)
            requires
                -m <= x < 0,
                0 <= y <= m - 1,
        ;
        assert(x * y <= 0) by (nonlinear_arith)
            requires
                x < 0,
                0 <= y,
        ;
    } else {
        assert(x * y >= -m * (m - 1)) by (nonlinear_arith)
            requires
                0 <= x <= m - 1,
                -m <= y < 0,
        ;
        assert(x * y <= 0) by (nonlinear_arith)
            requires
                0 <= x,
                y < 0,
        ;
    }
}

/// The offset of `q` from `p`, picked by a generator draw.
pub open spec fn near_offset(draw: u64) -> i64 {
    let k = draw % 4;
    if k == 0 {
        -2i64
    } else if k == 1 {
        -1i64
    } else if k == 2 {
        1i64
    } else {
        2i64
    }
}

/// A near-collinear triple with large coordinates: `a` is the origin, `b = (p, q)` and
/// `c = (p + 1, q + 1)`, where `p` is drawn from `[2^29, 2^29 + 2^30)` and `q` is `p`
/// moved by one of -2, -1, 1, 2 (a second draw). The exact determinant is `p - q`.
pub fn near_collinear(rng: &mut Lcg) -> (r: ((i64, i64), (i64, i64), (i64, i64)))
    ensures
        ({
            let s1 = lcg_step(old(rng).state);
            let s2 = lcg_step(s1);
            let p = (s1 % 0x4000_0000) as int + 0x2000_0000;
            let q = p + near_offset(s2);
            &&& final(rng).state == s2
            &&& r.0 == (0i64, 0i64)
            &&& r.1.0 == p && r.1.1 == q
            &&& r.2.0 == p + 1 && r.2.1 == q + 1
        }),
{
    let p = (rng.next() % 0x4000_0000u64) as i64 + 0x2000_0000i64;
    let table: [i64; 4] = [-2, -1, 1, 2];
    let d = rng.next();
    let off = table[(d % 4) as usize];
    let q = p + off;
    ((0, 0), (p, q), (p + 1, q + 1))
}

} // verus!
