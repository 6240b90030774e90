use vstd::prelude::*;

verus! {

/// How many of `cells` equal `c`.
pub open spec fn count_eq(cells: Seq<u32>, c: int) -> nat
    decreases cells.len(),
{
    if cells.len() == 0 {
        0
    } else {
        count_eq(cells.drop_last(), c) + if cells.last() == c {
            1nat
        } else {
            0nat
        }
    }
}

/// How many of `cells` are below `c`.
pub open spec fn count_lt(cells: Seq<u32>, c: int) -> nat
    decreases cells.len(),
{
    if cells.len() == 0 {
        0
    } else {
        count_lt(cells.drop_last(), c) + if cells.last() < c {
            1nat
        } else {
            0nat
        }
    }
}

/// Where item `i` lands in the bucketed order: after every item of a lower cell and
/// after the earlier items of its own cell.
pub open spec fn bucket_pos(cells: Seq<u32>, i: int) -> int {
    (count_lt(cells, cells[i] as int) + count_eq(cells.take(i), cells[i] as int)) as int
}

proof fn lemma_count_lt_step(cells: Seq<u32>, c: int)
    ensures
        count_lt(cells, c + 1) == count_lt(cells, c) + count_eq(cells, c),
    decreases cells.len(),
{
    if cells.len() > 0 {
        lemma_count_lt_step(cells.drop_last(), c);
    }
}

proof fn lemma_count_bounds(cells: Seq<u32>, c: int)
    ensures
        count_eq(cells, c) <= cells.len(),
        count_lt(cells, c) <= cells.len(),
        count_lt(cells, c) + count_eq(cells, c) <= cells.len(),
    decreases cells.len(),
{
    if cells.len() > 0 {
        lemma_count_bounds(cells.drop_last(), c);
    }
}

pub(crate) proof fn lemma_count_lt_mono(cells: Seq<u32>, a: int, b: int)
    requires
        a <= b,
    ensures
        count_lt(cells, a) <= count_lt(cells, b),
    decreases cells.len(),
{
    if cells.len() > 0 {
        lemma_count_lt_mono(cells.drop_last(), a, b);
    }
}

pub(crate) proof fn lemma_count_lt_zero(cells: Seq<u32>)
    ensures
        count_lt(cells, 0) == 0,
    decreases cells.len(),
{
    if cells.len() > 0 {
        lemma_count_lt_zero(cells.drop_last());
    }
}

pub(crate) proof fn lemma_count_lt_all(cells: Seq<u32>, c: int)
    requires
        forall|i: int| 0 <= i < cells.len() ==> #[trigger] cells[i] < c,
    ensures
        count_lt(cells, c) == cells.len(),
    decreases cells.len(),
{
    if cells.len() > 0 {
        lemma_count_lt_all(cells.drop_last(), c);
    }
}

proof fn lemma_count_eq_take(cells: Seq<u32>, i: int, c: int)
    requires
        0 <= i < cells.len(),
    ensures
        count_eq(cells.take(i + 1), c) == count_eq(cells.take(i), c) + if cells[i] == c {
            1nat
        } else {
            0nat
        },
{
    assert(cells.take(i + 1).drop_last() == cells.take(i));
}

proof fn lemma_count_eq_prefix(cells: Seq<u32>, i: int, j: int, c: int)
    requires
        0 <= i <= j <= cells.len(),
    ensures
        count_eq(cells.take(i), c) <= count_eq(cells.take(j), c),
    decreases j - i,
{
    if i < j {
        lemma_count_eq_prefix(cells, i, j - 1, c);
        lemma_count_eq_take(cells, j - 1, c);
    }
}

/// An item's bucketed position lies in its cell's block: after the items of lower cells,
/// before those of higher ones.
pub(crate) proof fn lemma_bucket_pos_range(cells: Seq<u32>, i: int)
    requires
        0 <= i < cells.len(),
    ensures
        count_lt(cells, cells[i] as int) <= bucket_pos(cells, i) < count_lt(cells, cells[i] + 1),
{
    let c = cells[i] as int;
    lemma_count_lt_step(cells, c);
    lemma_count_eq_take(cells, i, c);
    lemma_count_eq_prefix(cells, i + 1, cells.len() as int, c);
    assert(cells.take(cells.len() as int) == cells);
}

/// Distinct items land in distinct positions.
pub(crate) proof fn lemma_bucket_pos_injective(cells: Seq<u32>, i: int, j: int)
    requires
        0 <= i < j < cells.len(),
    ensures
        bucket_pos(cells, i) < bucket_pos(cells, j) || bucket_pos(cells, j) < bucket_pos(cells, i),
{
    lemma_bucket_pos_range(cells, i);
    lemma_bucket_pos_range(cells, j);
    if cells[i] == cells[j] {
        let c = cells[i] as int;
        lemma_count_eq_take(cells, i, c);
        lemma_count_eq_prefix(cells, i + 1, j, c);
    } else if cells[i] < cells[j] {
        lemma_count_lt_mono(cells, cells[i] + 1, cells[j] as int);
    } else {
        lemma_count_lt_mono(cells, cells[j] + 1, cells[i] as int);
    }
}

/// Every position is some item's: the bucketed order is a permutation.
pub(crate) proof fn lemma_bucket_pos_onto(cells: Seq<u32>, k: int)
    requires
        0 <= k < cells.len(),
    ensures
        exists|e: int| 0 <= e < cells.len() && bucket_pos(cells, e) == k,
{
    let n = cells.len() as int;
    let f = |e: int| bucket_pos(cells, e);
    let x = vstd::set_lib::set_int_range(0, n);
    let y = x.map(f);
    vstd::set_lib::lemma_int_range(0, n);
    assert(vstd::relations::injective_on(f, x)) by {
        assert forall|a: int, b: int| x.contains(a) && x.contains(b) && #[trigger] f(a) == #[trigger] f(b) implies a == b by {
            if a < b {
                lemma_bucket_pos_injective(cells, a, b);
            } else if b < a {
                lemma_bucket_pos_injective(cells, b, a);
            }
        }
    }
    vstd::set_lib::lemma_map_size(x, y, f);
    assert(y.subset_of(x)) by {
        assert forall|p: int| y.contains(p) implies x.contains(p) by {
            let e = choose|e: int| x.contains(e) && f(e) == p;
            lemma_bucket_pos_range(cells, e);
            lemma_count_bounds(cells, cells[e] + 1);
        }
    }
    vstd::set_lib::lemma_subset_equality(y, x);
    assert(x.contains(k));
    assert(y.contains(k));
    let e = choose|e: int| x.contains(e) && f(e) == k;
    assert(0 <= e < n && bucket_pos(cells, e) == k);
}

/// Group the item indices by cell with a counting sort. `offsets[c]` is the number of
/// items in cells below `c` (`offsets` has `ncells + 1` entries); `items` lists the item
/// indices cell by cell, each cell's items in increasing order, so the items of cell `c`
/// are `items[offsets[c] .. offsets[c + 1]]`.
pub fn build_csr(cells: &[u32], ncells: usize) -> (r: (Vec<u32>, Vec<u32>))
    requires
        forall|i: int| 0 <= i < cells@.len() ==> #[trigger] cells@[i] < ncells,
        cells@.len() <= u32::MAX,
        ncells < usize::MAX,
    ensures
        r.0@.len() == ncells + 1,
        forall|c: int| 0 <= c <= ncells ==> #[trigger] r.0@[c] == count_lt(cells@, c),
        r.1@.len() == cells@.len(),
        forall|i: int| 0 <= i < cells@.len() ==> #[trigger] r.1@[bucket_pos(cells@, i)] == i,
        forall|i: int| 0 <= i < cells@.len() ==> 0 <= #[trigger] bucket_pos(cells@, i) < cells@.len(),
        forall|k: int| 0 <= k < cells@.len() ==> #[trigger] r.1@[k] < cells@.len(),
{
    let n = cells.len();
    let ghost cs = cells@;
    let mut offsets: Vec<u32> = Vec::new();
    let mut q: usize = 0;
    while q <= ncells
        invariant
            q <= ncells + 1,
            ncells < usize::MAX,
            offsets@.len() == q,
            forall|c: int| 0 <= c < q ==> #[trigger] offsets@[c] == 0,
        decreases ncells + 1 - q,
    {
        offsets.push(0);
        q += 1;
    }
    // histogram: offsets[c + 1] counts the items of cell c
    let mut i: usize = 0;
    while i < n
        invariant
            i <= n,
            n == cs.len(),
            cs == cells@,
            n <= u32::MAX,
            offsets@.len() == ncells + 1,
            forall|k: int| 0 <= k < n ==> #[trigger] cs[k] < ncells,
            offsets@[0] == 0,
            forall|c: int| 0 <= c < ncells ==> #[trigger] offsets@[c + 1] == count_eq(cs.take(i as int), c),
        decreases n - i,
    {
        let c = cells[i] as usize;
        proof {
            lemma_count_bounds(cs.take(i as int), c as int);
            assert forall|d: int| 0 <= d < ncells implies count_eq(cs.take(i + 1), d) == count_eq(cs.take(i as int), d)
                + if cs[i as int] == d { 1nat } else { 0nat } by {
                lemma_count_eq_take(cs, i as int, d);
            }
        }
        let v = offsets[c + 1];
        offsets.set(c + 1, v + 1);
        i += 1;
    }
    assert(cs.take(n as int) == cs);
    proof {
        lemma_count_lt_zero(cs);
    }
    // prefix sums
    let mut c: usize = 0;
    while c < ncells
        invariant
            c <= ncells,
            n == cs.len(),
            n <= u32::MAX,
            offsets@.len() == ncells + 1,
            forall|k: int| 0 <= k < n ==> #[trigger] cs[k] < ncells,
            forall|d: int| 0 <= d <= c ==> #[trigger] offsets@[d] == count_lt(cs, d),
            forall|d: int| c <= d < ncells ==> #[trigger] offsets@[d + 1] == count_eq(cs, d),
        decreases ncells - c,
    {
        proof {
            lemma_count_lt_step(cs, c as int);
            lemma_count_bounds(cs, c as int);
        }
        let a = offsets[c];
        let b = offsets[c + 1];
        offsets.set(c + 1, a + b);
        c += 1;
    }
    // scatter
    let mut items: Vec<u32> = Vec::new();
    let mut q: usize = 0;
    while q < n
        invariant
            q <= n,
            items@.len() == q,
            forall|k: int| 0 <= k < q ==> #[trigger] items@[k] == 0,
        decreases n - q,
    {
        items.push(0);
        q += 1;
    }
    let mut cursor = offsets.clone();
    proof {
        assert forall|d: int| 0 <= d <= ncells implies #[trigger] cursor@[d] == offsets@[d] by {}
        lemma_count_lt_all(cs, ncells as int);
    }
    let mut i: usize = 0;
    while i < n
        invariant
            i <= n,
            n == cs.len(),
            cs == cells@,
            n <= u32::MAX,
            offsets@.len() == ncells + 1,
            cursor@.len() == ncells + 1,
            items@.len() == n,
            forall|k: int| 0 <= k < n ==> #[trigger] cs[k] < ncells,
            forall|d: int| 0 <= d <= ncells ==> #[trigger] offsets@[d] == count_lt(cs, d),
            forall|d: int| 0 <= d < ncells ==> #[trigger] cursor@[d] == count_lt(cs, d) + count_eq(cs.take(i as int), d),
            forall|j: int| 0 <= j < i ==> #[trigger] items@[bucket_pos(cs, j)] == j,
            forall|j: int| 0 <= j < i ==> 0 <= #[trigger] bucket_pos(cs, j) < n,
            forall|k: int| 0 <= k < n ==> #[trigger] items@[k] < n,
        decreases n - i,
    {
        let c = cells[i] as usize;
        let ghost ci = c as int;
        proof {
            lemma_count_eq_prefix(cs, i + 1, n as int, ci);
            lemma_count_eq_take(cs, i as int, ci);
            assert(cs.take(n as int) == cs);
            lemma_count_lt_step(cs, ci);
            lemma_count_lt_mono(cs, ci + 1, ncells as int);
            lemma_count_lt_all(cs, ncells as int);
        }
        let pos = cursor[c];
        assert(pos == bucket_pos(cs, i as int));
        let ghost before = items@;
        items.set(pos as usize, i as u32);
        cursor.set(c, pos + 1);
        proof {
            assert forall|d: int| 0 <= d < ncells implies #[trigger] cursor@[d] == count_lt(cs, d) + count_eq(cs.take(i + 1), d) by {
                lemma_count_eq_take(cs, i as int, d);
            }
            assert forall|j: int| 0 <= j < i + 1 implies #[trigger] items@[bucket_pos(cs, j)] == j by {
                if j < i {
                    let cj = cs[j] as int;
                    if cj == ci {
                        lemma_count_eq_take(cs, j, ci);
                        lemma_count_eq_prefix(cs, j + 1, i as int, ci);
                    } else if cj < ci {
                        lemma_count_lt_step(cs, cj);
                        lemma_count_lt_mono(cs, cj + 1, ci);
                        lemma_count_eq_prefix(cs, j + 1, n as int, cj);
                        lemma_count_eq_take(cs, j, cj);
                        assert(cs.take(n as int) == cs);
                    } else {
                        lemma_count_lt_step(cs, ci);
                        lemma_count_lt_mono(cs, ci + 1, cj);
                        lemma_count_eq_prefix(cs, i + 1, n as int, ci);
                        lemma_count_eq_take(cs, i as int, ci);
                        assert(cs.take(n as int) == cs);
                        lemma_count_lt_step(cs, cj);
                        lemma_count_lt_mono(cs, cj + 1, ncells as int);
                        lemma_count_eq_prefix(cs, j + 1, n as int, cj);
                        lemma_count_eq_take(cs, j, cj);
                    }
                    assert(0 <= bucket_pos(cs, j) < n);
                    assert(bucket_pos(cs, j) != pos);
                    assert(items@[bucket_pos(cs, j)] == before[bucket_pos(cs, j)]);
                }
            }
            assert forall|j: int| 0 <= j < i + 1 implies 0 <= #[trigger] bucket_pos(cs, j) < n by {
                if j == i {
                    assert(bucket_pos(cs, j) == pos);
                }
            }
            assert forall|k: int| 0 <= k < n implies #[trigger] items@[k] < n by {
                if k != pos {
                    assert(items@[k] == before[k]);
                }
            }
        }
        i += 1;
    }
    (offsets, items)
}

/// One representative item per cell: the last item in each cell, `-1` for an empty cell.
pub fn build_rep(cells: &[usize], ncells: usize) -> (rep: Vec<i32>)
    requires
        forall|i: int| 0 <= i < cells@.len() ==> #[trigger] cells@[i] < ncells,
        cells@.len() <= i32::MAX,
    ensures
        rep@.len() == ncells,
        forall|c: int|
            0 <= c < ncells ==> (#[trigger] rep@[c] == -1 <==> forall|i: int| 0 <= i < cells@.len() ==> cells@[i] != c),
        forall|c: int|
            0 <= c < ncells && rep@[c] != -1 ==> 0 <= #[trigger] rep@[c] < cells@.len() && cells@[rep@[c] as int] == c
                && forall|i: int| rep@[c] < i < cells@.len() ==> cells@[i] != c,
{
    let mut rep: Vec<i32> = Vec::new();
    let mut q: usize = 0;
    while q < ncells
        invariant
            q <= ncells,
            rep@.len() == q,
            forall|c: int| 0 <= c < q ==> #[trigger] rep@[c] == -1,
        decreases ncells - q,
    {
        rep.push(-1);
        q += 1;
    }
    let mut f: usize = 0;
    while f < cells.len()
        invariant
            f <= cells@.len(),
            cells@.len() <= i32::MAX,
            rep@.len() == ncells,
            forall|i: int| 0 <= i < cells@.len() ==> #[trigger] cells@[i] < ncells,
            forall|c: int|
                0 <= c < ncells ==> (#[trigger] rep@[c] == -1 <==> forall|i: int| 0 <= i < f ==> cells@[i] != c),
            forall|c: int|
                0 <= c < ncells && rep@[c] != -1 ==> 0 <= #[trigger] rep@[c] < f && cells@[rep@[c] as int] == c
                    && forall|i: int| rep@[c] < i < f ==> cells@[i] != c,
        decreases cells@.len() - f,
    {
        let c = cells[f];
        rep.set(c, f as i32);
        f += 1;
        proof {
            assert forall|d: int| 0 <= d < ncells implies (#[trigger] rep@[d] == -1 <==> forall|i: int|
                0 <= i < f ==> cells@[i] != d) by {
                if d == c as int {
                    assert(cells@[f - 1] == d);
                }
            }
        }
    }
    rep
}

/// The cells of the 3 x 3 block around cell `(cx, cy)` that lie on a `gx` x `gx` grid,
/// row by row (`ny` outer, `nx` inner), as `ny * gx + nx`.
pub fn block_cells(cx: usize, cy: usize, gx: usize) -> (r: Vec<usize>)
    requires
        cx < gx,
        cy < gx,
        gx * gx <= usize::MAX,
    ensures
        r@ == block_spec(cx as int, cy as int, gx as int),
{
    let mut r: Vec<usize> = Vec::new();
    let mut dy: usize = 0;
    proof {
        assert(cy * gx + cx < gx * gx) by (nonlinear_arith)
            requires
                cx < gx,
                cy < gx,
        ;
    }
    while dy < 3
        invariant
            dy <= 3,
            cx < gx,
            cy < gx,
            gx * gx <= usize::MAX,
            r@ == block_rows(cx as int, cy as int, gx as int, dy as int),
        decreases 3 - dy,
    {
        let mut dx: usize = 0;
        let ghost base = r@;
        while dx < 3
            invariant
                dx <= 3,
                dy < 3,
                cx < gx,
                cy < gx,
                gx * gx <= usize::MAX,
                r@ == base + block_row(cx as int, cy as int, gx as int, dy as int, dx as int),
            decreases 3 - dx,
        {
            let ok_x = if dx == 0 {
                cx >= 1
            } else if dx == 1 {
                true
            } else {
                cx + 1 < gx
            };
            let ok_y = if dy == 0 {
                cy >= 1
            } else if dy == 1 {
                true
            } else {
                cy + 1 < gx
            };
            if ok_x && ok_y {
                let nx = if dx == 0 {
                    cx - 1
                } else if dx == 1 {
                    cx
                } else {
                    cx + 1
                };
                let ny = if dy == 0 {
                    cy - 1
                } else if dy == 1 {
                    cy
                } else {
                    cy + 1
                };
                proof {
                    assert(ny * gx + nx < gx * gx) by (nonlinear_arith)
                        requires
                            nx < gx,
                            ny < gx,
                    ;
                }
                r.push(ny * gx + nx);
            }
            dx += 1;
        }
        dy += 1;
    }
    r
}

/// The in-grid cells of row `cy + dy - 1` of the block, for `dx` in `0 .. k`.
pub open spec fn block_row(cx: int, cy: int, gx: int, dy: int, k: int) -> Seq<usize>
    decreases k,
{
    if k <= 0 {
        Seq::empty()
    } else {
        let nx = cx + (k - 1) - 1;
        let ny = cy + dy - 1;
        if 0 <= nx < gx && 0 <= ny < gx {
            block_row(cx, cy, gx, dy, k - 1).push((ny * gx + nx) as usize)
        } else {
            block_row(cx, cy, gx, dy, k - 1)
        }
    }
}

/// The first `k` rows of the block.
pub open spec fn block_rows(cx: int, cy: int, gx: int, k: int) -> Seq<usize>
    decreases k,
{
    if k <= 0 {
        Seq::empty()
    } else {
        block_rows(cx, cy, gx, k - 1) + block_row(cx, cy, gx, k - 1, 3)
    }
}

/// The whole block.
pub open spec fn block_spec(cx: int, cy: int, gx: int) -> Seq<usize> {
    block_rows(cx, cy, gx, 3)
}

} // verus!
