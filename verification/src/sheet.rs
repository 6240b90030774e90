use vstd::prelude::*;
use crate::binning::{
    build_csr, bucket_pos, count_lt, lemma_bucket_pos_onto, lemma_bucket_pos_range, lemma_count_lt_all,
    lemma_count_lt_mono, lemma_count_lt_zero,
};
use crate::sim::sort_ids;

verus! {

/// A cell's formula: an expression over other cells. Constants are held as the bit
/// pattern of their `f64`.
pub enum Expr {
    Const(u64),
    Cell(u32),
    Add(Box<Expr>, Box<Expr>),
    Mul(Box<Expr>, Box<Expr>),
    /// The sum of the cells `start .. start + len`.
    Sum(u32, u32),
    /// The max of the cells `start .. start + len`.
    Max(u32, u32),
}

/// The ids `start .. start + len`.
pub open spec fn id_range(start: u32, len: u32) -> Seq<u32> {
    Seq::new(len as nat, |k: int| (start + k) as u32)
}

/// The cells a formula reads, in the order it names them; an aggregate reads its whole
/// range.
pub open spec fn deps(e: Expr) -> Seq<u32>
    decreases e,
{
    match e {
        Expr::Const(_) => Seq::empty(),
        Expr::Cell(i) => seq![i],
        Expr::Add(l, r) => deps(*l) + deps(*r),
        Expr::Mul(l, r) => deps(*l) + deps(*r),
        Expr::Sum(start, len) => id_range(start, len),
        Expr::Max(start, len) => id_range(start, len),
    }
}

/// Every aggregate range ends within the u32 ids.
pub open spec fn ranges_fit(e: Expr) -> bool
    decreases e,
{
    match e {
        Expr::Const(_) => true,
        Expr::Cell(_) => true,
        Expr::Add(l, r) => ranges_fit(*l) && ranges_fit(*r),
        Expr::Mul(l, r) => ranges_fit(*l) && ranges_fit(*r),
        Expr::Sum(start, len) => start + len <= u32::MAX,
        Expr::Max(start, len) => start + len <= u32::MAX,
    }
}

/// Append the cells `e` reads to `out`.
pub fn deps_of(e: &Expr, out: &mut Vec<u32>)
    requires
        ranges_fit(*e),
    ensures
        final(out)@ == old(out)@ + deps(*e),
    decreases e,
{
    match e {
        Expr::Const(_) => {
            assert(old(out)@ + deps(*e) =~= old(out)@);
        },
        Expr::Cell(i) => {
            out.push(*i);
        },
        Expr::Add(l, r) => {
            deps_of(l, out);
            deps_of(r, out);
            assert(final(out)@ =~= old(out)@ + deps(*e));
        },
        Expr::Mul(l, r) => {
            deps_of(l, out);
            deps_of(r, out);
            assert(final(out)@ =~= old(out)@ + deps(*e));
        },
        Expr::Sum(start, len) | Expr::Max(start, len) => {
            let ghost base = out@;
            let mut i: u32 = *start;
            while i < *start + *len
                invariant
                    *start <= i <= *start + *len,
                    *start + *len <= u32::MAX,
                    out@ == base + id_range(*start, (i - *start) as u32),
                decreases *start + *len - i,
            {
                out.push(i);
                i += 1;
                assert(out@ =~= base + id_range(*start, (i - *start) as u32));
            }
        },
    }
}

/// The dependency edges of a sheet, cell by cell: the cell each edge reads.
pub open spec fn edge_deps(formula: Seq<Expr>) -> Seq<u32>
    decreases formula.len(),
{
    if formula.len() == 0 {
        Seq::empty()
    } else {
        edge_deps(formula.drop_last()) + deps(formula.last())
    }
}

/// The dependency edges of a sheet, cell by cell: the cell each edge belongs to.
pub open spec fn edge_cells(formula: Seq<Expr>) -> Seq<u32>
    decreases formula.len(),
{
    if formula.len() == 0 {
        Seq::empty()
    } else {
        edge_cells(formula.drop_last()) + Seq::new(deps(formula.last()).len(), |k: int| (formula.len() - 1) as u32)
    }
}

proof fn lemma_edges_len(formula: Seq<Expr>)
    ensures
        edge_deps(formula).len() == edge_cells(formula).len(),
    decreases formula.len(),
{
    if formula.len() > 0 {
        lemma_edges_len(formula.drop_last());
    }
}

proof fn lemma_edge_cells_below(formula: Seq<Expr>)
    ensures
        forall|e: int| 0 <= e < edge_cells(formula).len() ==> #[trigger] edge_cells(formula)[e] < formula.len(),
    decreases formula.len(),
{
    if formula.len() > 0 {
        let pre = formula.drop_last();
        lemma_edge_cells_below(pre);
        assert forall|e: int| 0 <= e < edge_cells(formula).len() implies #[trigger] edge_cells(formula)[e] < formula.len() by {
            let a = edge_cells(pre);
            if e < a.len() {
                assert(edge_cells(formula)[e] == a[e]);
            }
        }
    }
}

/// Every formula reads only cells below `n`, and its ranges fit.
pub open spec fn reads_within(formula: Seq<Expr>, n: nat) -> bool {
    &&& forall|c: int| 0 <= c < formula.len() ==> #[trigger] ranges_fit(formula[c])
    &&& forall|c: int, k: int| 0 <= c < formula.len() && 0 <= k < deps(formula[c]).len() ==> #[trigger] deps(formula[c])[k] < n
}

proof fn lemma_edge_deps_below(formula: Seq<Expr>, n: nat)
    requires
        reads_within(formula, n),
    ensures
        forall|e: int| 0 <= e < edge_deps(formula).len() ==> #[trigger] edge_deps(formula)[e] < n,
    decreases formula.len(),
{
    if formula.len() > 0 {
        let pre = formula.drop_last();
        assert(reads_within(pre, n)) by {
            assert forall|c: int, k: int| 0 <= c < pre.len() && 0 <= k < deps(pre[c]).len() implies #[trigger] deps(pre[c])[k] < n by {
                assert(pre[c] == formula[c]);
            }
            assert forall|c: int| 0 <= c < pre.len() implies #[trigger] ranges_fit(pre[c]) by {
                assert(pre[c] == formula[c]);
            }
        }
        lemma_edge_deps_below(pre, n);
        let last = formula.last();
        assert forall|e: int| 0 <= e < edge_deps(formula).len() implies #[trigger] edge_deps(formula)[e] < n by {
            let a = edge_deps(pre);
            if e >= a.len() {
                assert(edge_deps(formula)[e] == deps(formula[formula.len() - 1])[e - a.len()]);
            }
        }
    }
}

/// The reverse graph in CSR form: the cells that read cell `d` are
/// `dependents[offsets[d] .. offsets[d + 1]]`, in cell order.
pub fn build_dependents(formula: &[Expr], n: usize) -> (r: (Vec<u32>, Vec<u32>))
    requires
        reads_within(formula@, n as nat),
        formula@.len() <= u32::MAX,
        edge_deps(formula@).len() <= u32::MAX,
        n < usize::MAX,
    ensures
        r.0@.len() == n + 1,
        forall|d: int| 0 <= d <= n ==> #[trigger] r.0@[d] == count_lt(edge_deps(formula@), d),
        r.1@.len() == edge_deps(formula@).len(),
        forall|k: int| 0 <= k < r.1@.len() ==> #[trigger] r.1@[k] < formula@.len(),
        forall|e: int|
            0 <= e < edge_deps(formula@).len() ==> #[trigger] r.1@[bucket_pos(edge_deps(formula@), e)] == edge_cells(
                formula@,
            )[e],
{
    let mut dep_col: Vec<u32> = Vec::new();
    let mut cell_col: Vec<u32> = Vec::new();
    let mut c: usize = 0;
    while c < formula.len()
        invariant
            c <= formula@.len(),
            formula@.len() <= u32::MAX,
            reads_within(formula@, n as nat),
            dep_col@ == edge_deps(formula@.take(c as int)),
            cell_col@ == edge_cells(formula@.take(c as int)),
        decreases formula@.len() - c,
    {
        let before = dep_col.len();
        assert(formula@.take(c + 1).drop_last() == formula@.take(c as int));
        assert(ranges_fit(formula@[c as int]));
        deps_of(&formula[c], &mut dep_col);
        let mut k: usize = before;
        proof {
            lemma_edges_len(formula@.take(c as int));
        }
        let ghost base = cell_col@;
        while k < dep_col.len()
            invariant
                before <= k <= dep_col@.len(),
                c < formula@.len(),
                formula@.len() <= u32::MAX,
                cell_col@ == base + Seq::new((k - before) as nat, |q: int| c as u32),
            decreases dep_col@.len() - k,
        {
            cell_col.push(c as u32);
            k += 1;
            assert(cell_col@ =~= base + Seq::new((k - before) as nat, |q: int| c as u32));
        }
        c += 1;
        proof {
            assert(cell_col@ =~= edge_cells(formula@.take(c as int)));
        }
    }
    assert(formula@.take(formula@.len() as int) == formula@);
    proof {
        lemma_edge_deps_below(formula@, n as nat);
        lemma_edges_len(formula@);
    }
    let (offsets, items) = build_csr(dep_col.as_slice(), n);
    let mut dependents: Vec<u32> = Vec::new();
    let mut k: usize = 0;
    let m = items.len();
    while k < m
        invariant
            k <= m,
            m == items@.len(),
            m == cell_col@.len(),
            forall|e: int| 0 <= e < m ==> #[trigger] items@[e] < m,
            dependents@ == Seq::new(k as nat, |q: int| cell_col@[items@[q] as int]),
        decreases m - k,
    {
        dependents.push(cell_col[items[k] as usize]);
        k += 1;
        assert(dependents@ =~= Seq::new(k as nat, |q: int| cell_col@[items@[q] as int]));
    }
    proof {
        assert forall|e: int| 0 <= e < m implies #[trigger] dependents@[bucket_pos(dep_col@, e)] == cell_col@[e] by {
            assert(0 <= bucket_pos(dep_col@, e) < m);
        }
        lemma_edge_cells_below(formula@);
        assert forall|k: int| 0 <= k < m implies #[trigger] dependents@[k] < formula@.len() by {
            assert(dependents@[k] == cell_col@[items@[k] as int]);
        }
    }
    (offsets, dependents)
}

/// A sheet's formulas and its reverse dependency graph. Cells are stored in a
/// topological order when every formula reads only lower ids.
pub struct Sheet {
    pub formula: Vec<Expr>,
    pub dep_offsets: Vec<u32>,
    pub dependents: Vec<u32>,
}

/// `b` reads `a`: `b` is listed among `a`'s dependents.
pub open spec fn dep_edge(offsets: Seq<u32>, dependents: Seq<u32>, a: int, b: int) -> bool {
    exists|k: int| offsets[a] <= k < offsets[a + 1] && #[trigger] dependents[k] == b
}

/// `p` is a chain of cells starting at an edited cell, each reading the one before.
pub open spec fn is_path(offsets: Seq<u32>, dependents: Seq<u32>, edited: Seq<u32>, p: Seq<int>) -> bool {
    &&& p.len() > 0
    &&& 0 <= p[0] <= u32::MAX
    &&& edited.contains(p[0] as u32)
    &&& forall|i: int| 0 <= i < p.len() - 1 ==> #[trigger] dep_edge(offsets, dependents, p[i], p[i + 1])
}

/// Every formula reads only cells with lower ids: id order is a recompute order.
pub open spec fn reads_lower(formula: Seq<Expr>) -> bool {
    forall|c: int, k: int| 0 <= c < formula.len() && 0 <= k < deps(formula[c]).len() ==> #[trigger] deps(formula[c])[k] < c
}

impl Sheet {
    /// The reverse graph indexes the formulas' reads: cell `d`'s block starts after the
    /// reads of lower cells, and each read (in cell order) has its reader at its place in
    /// the block of the cell it reads.
    pub open spec fn indexes_reads(&self) -> bool {
        let ed = edge_deps(self.formula@);
        &&& forall|d: int| 0 <= d <= self.formula@.len() ==> #[trigger] self.dep_offsets@[d] == count_lt(ed, d)
        &&& forall|e: int| 0 <= e < ed.len() ==> #[trigger] self.dependents@[bucket_pos(ed, e)] == edge_cells(self.formula@)[e]
    }
}

impl Sheet {
    /// The dependency graph is well formed: `n + 1` nondecreasing offsets ending at the
    /// edge count, and every dependent is a cell.
    pub open spec fn graph_ok(&self) -> bool {
        let n = self.formula@.len();
        &&& n < u32::MAX
        &&& self.dep_offsets@.len() == n + 1
        &&& self.dep_offsets@[0] == 0
        &&& forall|d: int| 0 <= d < n ==> #[trigger] self.dep_offsets@[d] <= self.dep_offsets@[d + 1]
        &&& self.dep_offsets@[n as int] == self.dependents@.len()
        &&& forall|k: int| 0 <= k < self.dependents@.len() ==> #[trigger] self.dependents@[k] < n
    }

    /// `x` is `edited` or depends on it, transitively.
    pub open spec fn reaches(&self, edited: Seq<u32>, x: int) -> bool {
        exists|p: Seq<int>| #[trigger] is_path(self.dep_offsets@, self.dependents@, edited, p) && p.last() == x
    }

    /// The number of cells.
    pub fn len(&self) -> (r: usize)
        ensures
            r == self.formula@.len(),
    {
        self.formula.len()
    }

    /// The cells that read cell `id`.
    pub fn dependents_of(&self, id: u32) -> (r: &[u32])
        requires
            self.graph_ok(),
            id < self.formula@.len(),
        ensures
            r@ == self.dependents@.subrange(self.dep_offsets@[id as int] as int, self.dep_offsets@[id + 1] as int),
    {
        proof {
            lemma_offsets_mono(self, id as int, id + 1, self.formula@.len() as int);
        }
        let lo = self.dep_offsets[id as usize] as usize;
        let hi = self.dep_offsets[id as usize + 1] as usize;
        vstd::slice::slice_subrange(self.dependents.as_slice(), lo, hi)
    }

    /// Edit a cell to a literal (given by its bit pattern).
    pub fn set_literal(&mut self, id: u32, bits: u64)
        requires
            id < old(self).formula@.len(),
        ensures
            final(self).formula@ == old(self).formula@.update(id as int, Expr::Const(bits)),
            final(self).dep_offsets == old(self).dep_offsets,
            final(self).dependents == old(self).dependents,
    {
        self.formula.set(id as usize, Expr::Const(bits));
    }

    /// The cells an edit of `edited` dirties: the edited cells and everything that reads
    /// them, transitively, ascending.
    pub fn cone(&self, edited: &[u32]) -> (r: Vec<u32>)
        requires
            self.graph_ok(),
            forall|q: int| 0 <= q < edited@.len() ==> #[trigger] edited@[q] < self.formula@.len(),
        ensures
            forall|a: int, b: int| 0 <= a < b < r@.len() ==> r@[a] < r@[b],
            forall|x: u32| #[trigger] r@.contains(x) <==> self.reaches(edited@, x as int),
    {
        let n = self.formula.len();
        let mut seen: Vec<bool> = Vec::new();
        let mut q: usize = 0;
        while q < n
            invariant
                q <= n,
                seen@.len() == q,
                forall|j: int| 0 <= j < q ==> !#[trigger] seen@[j],
            decreases n - q,
        {
            seen.push(false);
            q += 1;
        }
        proof {
            lemma_count_true_none(seen@, n as nat);
        }
        let mut stack: Vec<u32> = Vec::new();
        let mut seen_count: usize = 0;
        let mut e: usize = 0;
        while e < edited.len()
            invariant
                e <= edited@.len(),
                n == self.formula@.len(),
                self.graph_ok(),
                forall|q: int| 0 <= q < edited@.len() ==> #[trigger] edited@[q] < n,
                seen@.len() == n,
                seen_count == count_true(seen@, n as nat),
                seen_count <= n,
                forall|x: int| 0 <= x < n && #[trigger] seen@[x] ==> self.reaches(edited@, x),
                forall|q: int| 0 <= q < e ==> #[trigger] seen@[edited@[q] as int],
                forall|q: int| 0 <= q < stack@.len() ==> #[trigger] stack@[q] < n,
                forall|q: int| 0 <= q < stack@.len() ==> #[trigger] seen@[stack@[q] as int],
                forall|x: int| 0 <= x < n && #[trigger] seen@[x] ==> stack@.contains(x as u32),
                stack@.len() <= seen_count,
            decreases edited@.len() - e,
        {
            let x = edited[e];
            if !seen[x as usize] {
                proof {
                    lemma_count_true_set(seen@, x as int, n as nat);
                    lemma_count_true_bound(seen@.update(x as int, true), n as nat);
                    let p = seq![x as int];
                    assert(edited@[e as int] == x);
                    assert(is_path(self.dep_offsets@, self.dependents@, edited@, p));
                    assert(self.reaches(edited@, x as int));
                }
                let ghost before = stack@;
                seen.set(x as usize, true);
                seen_count += 1;
                stack.push(x);
                proof {
                    assert forall|y: int| 0 <= y < n && #[trigger] seen@[y] implies stack@.contains(y as u32) by {
                        if y != x as int {
                            let k = choose|k: int| 0 <= k < before.len() && before[k] == y as u32;
                            assert(stack@[k] == y as u32);
                        } else {
                            assert(stack@[stack@.len() - 1] == x);
                        }
                    }
                    assert forall|q: int| 0 <= q < stack@.len() implies #[trigger] seen@[stack@[q] as int] by {
                        if q < before.len() {
                            assert(stack@[q] == before[q]);
                        }
                    }
                }
            }
            e += 1;
        }
        let mut out: Vec<u32> = Vec::new();
        proof {
            lemma_dfs_init(self, edited@, seen@, stack@);
        }
        while stack.len() > 0
            invariant
                n == self.formula@.len(),
                self.graph_ok(),
                forall|q: int| 0 <= q < edited@.len() ==> #[trigger] edited@[q] < n,
                seen@.len() == n,
                seen_count == count_true(seen@, n as nat),
                seen_count <= n,
                stack@.len() <= seen_count,
                dfs_ok(self, edited@, seen@, stack@, out@),
            decreases 2 * (n - seen_count) + stack@.len(),
        {
            let ghost st_before = stack@;
            let ghost out_before = out@;
            let id = stack.pop().unwrap();
            out.push(id);
            let ghost m0 = 2 * (n - seen_count) + stack@.len();
            proof {
                assert(st_before == stack@.push(id));
                assert(out@ == out_before.push(id));
                lemma_dfs_pop(self, edited@, seen@, st_before, stack@, out_before, id);
                lemma_offsets_mono(self, id as int, id + 1, n as int);
            }
            let lo = self.dep_offsets[id as usize] as usize;
            let hi = self.dep_offsets[id as usize + 1] as usize;
            let mut k: usize = lo;
            while k < hi
                invariant
                    lo <= k <= hi,
                    hi <= self.dependents@.len(),
                    lo == self.dep_offsets@[id as int],
                    hi == self.dep_offsets@[id + 1],
                    id < n,
                    n == self.formula@.len(),
                    self.graph_ok(),
                    seen@.len() == n,
                    seen_count == count_true(seen@, n as nat),
                    seen_count <= n,
                    stack@.len() <= seen_count,
                    2 * (n - seen_count) + stack@.len() <= m0,
                    dfs_partial(self, edited@, seen@, stack@, out@, id, k as int),
                decreases hi - k,
            {
                let dep = self.dependents[k];
                proof {
                    assert(dep < n);
                }
                if !seen[dep as usize] {
                    proof {
                        lemma_count_true_set(seen@, dep as int, n as nat);
                        lemma_count_true_bound(seen@.update(dep as int, true), n as nat);
                    }
                    let ghost s0 = seen@;
                    let ghost st0 = stack@;
                    seen.set(dep as usize, true);
                    seen_count += 1;
                    stack.push(dep);
                    proof {
                        lemma_dfs_visit(self, edited@, s0, st0, out@, id, k as int);
                    }
                } else {
                    proof {
                        lemma_dfs_skip(self, edited@, seen@, stack@, out@, id, k as int);
                    }
                }
                k += 1;
            }
            proof {
                lemma_dfs_finish(self, edited@, seen@, stack@, out@, id);
            }
        }
        proof {
            lemma_dfs_done(self, edited@, seen@, stack@, out@);
        }
        let ghost o0 = out@;
        sort_ids(&mut out);
        let mut r: Vec<u32> = Vec::new();
        let mut k: usize = 0;
        while k < out.len()
            invariant
                k <= out@.len(),
                forall|a: int, b: int| 0 <= a <= b < out@.len() ==> out@[a] <= out@[b],
                forall|a: int, b: int| 0 <= a < b < r@.len() ==> r@[a] < r@[b],
                r@.len() > 0 ==> k > 0 && r@.last() == out@[k - 1],
                k > 0 ==> r@.len() > 0,
                forall|x: u32| #[trigger] r@.contains(x) <==> exists|q: int| 0 <= q < k && #[trigger] out@[q] == x,
            decreases out@.len() - k,
        {
            let c = out[k];
            let ghost before = r@;
            if r.len() == 0 || r[r.len() - 1] != c {
                proof {
                    if before.len() > 0 {
                        assert(before.last() <= c);
                    }
                }
                r.push(c);
            }
            k += 1;
            proof {
                assert forall|x: u32| #[trigger] r@.contains(x) <==> exists|q: int| 0 <= q < k && #[trigger] out@[q] == x by {
                    if x == c {
                        assert(out@[k - 1] == x);
                        assert(r@[r@.len() - 1] == x);
                    } else {
                        if r@.contains(x) {
                            let q = choose|q: int| 0 <= q < r@.len() && r@[q] == x;
                            assert(before[q] == x);
                        }
                        if before.contains(x) {
                            let q = choose|q: int| 0 <= q < before.len() && before[q] == x;
                            assert(r@[q] == x);
                        }
                        if exists|q: int| 0 <= q < k && #[trigger] out@[q] == x {
                            let q = choose|q: int| 0 <= q < k && #[trigger] out@[q] == x;
                            assert(q < k - 1);
                        }
                    }
                }
            }
        }
        proof {
            broadcast use vstd::seq_lib::group_to_multiset_ensures;
            assert forall|x: u32| #[trigger] r@.contains(x) <==> self.reaches(edited@, x as int) by {
                assert(out@.to_multiset().count(x) == o0.to_multiset().count(x));
                if exists|q: int| 0 <= q < out@.len() && #[trigger] out@[q] == x {
                    let q = choose|q: int| 0 <= q < out@.len() && #[trigger] out@[q] == x;
                    assert(out@.contains(x));
                    assert(o0.contains(x));
                    let p = choose|p: int| 0 <= p < o0.len() && o0[p] == x;
                    assert(o0[p] == x);
                }
                if self.reaches(edited@, x as int) {
                    assert(o0.contains(x));
                    assert(out@.contains(x));
                    let q = choose|q: int| 0 <= q < out@.len() && out@[q] == x;
                    assert(out@[q] == x);
                }
            }
        }
        r
    }
}

/// Every seen cell is reached from the edited cells.
#[verifier::opaque]
pub open spec fn seen_reachable(sheet: &Sheet, edited: Seq<u32>, seen: Seq<bool>) -> bool {
    forall|x: int| 0 <= x < sheet.formula@.len() && #[trigger] seen[x] ==> sheet.reaches(edited, x)
}

proof fn lemma_seen_reachable_visit(sheet: &Sheet, edited: Seq<u32>, s0: Seq<bool>, id: u32, k: int)
    requires
        seen_reachable(sheet, edited, s0),
        s0.len() == sheet.formula@.len(),
        id < sheet.formula@.len(),
        s0[id as int],
        sheet.dep_offsets@[id as int] <= k < sheet.dep_offsets@[id + 1],
        0 <= k < sheet.dependents@.len(),
        sheet.dependents@[k] < sheet.formula@.len(),
    ensures
        seen_reachable(sheet, edited, s0.update(sheet.dependents@[k] as int, true)),
{
    reveal(seen_reachable);
    let n = sheet.formula@.len();
    let dep = sheet.dependents@[k];
    let seen = s0.update(dep as int, true);
    assert(sheet.reaches(edited, id as int));
    let p = choose|p: Seq<int>| #[trigger] is_path(sheet.dep_offsets@, sheet.dependents@, edited, p) && p.last() == id as int;
    lemma_path_extend(sheet.dep_offsets@, sheet.dependents@, edited, p, dep as int, k);
    assert forall|x: int| 0 <= x < n && #[trigger] seen[x] implies sheet.reaches(edited, x) by {
        if x == dep as int {
            assert(is_path(sheet.dep_offsets@, sheet.dependents@, edited, p.push(x)));
            assert(p.push(x).last() == x);
        } else {
            assert(s0[x]);
        }
    }
}

/// The state of the depth-first walk: every seen cell is reachable, the edited cells are
/// seen, stacked and finished cells are seen cells, every seen cell is stacked or
/// finished, and every dependent of a finished cell is seen.
#[verifier::opaque]
pub open spec fn dfs_ok(sheet: &Sheet, edited: Seq<u32>, seen: Seq<bool>, stack: Seq<u32>, out: Seq<u32>) -> bool {
    let n = sheet.formula@.len();
    &&& seen.len() == n
    &&& forall|q: int| 0 <= q < edited.len() ==> #[trigger] edited[q] < n
    &&& seen_reachable(sheet, edited, seen)
    &&& forall|q: int| 0 <= q < edited.len() ==> #[trigger] seen[edited[q] as int]
    &&& forall|q: int| 0 <= q < stack.len() ==> #[trigger] stack[q] < n && seen[stack[q] as int]
    &&& forall|q: int| 0 <= q < out.len() ==> #[trigger] out[q] < n && seen[out[q] as int]
    &&& forall|x: int| 0 <= x < n && #[trigger] seen[x] ==> stack.contains(x as u32) || out.contains(x as u32)
    &&& forall|x: int, k: int|
        #![trigger out.contains(x as u32), sheet.dependents@[k]]
        0 <= x < n && out.contains(x as u32) && sheet.dep_offsets@[x] <= k < sheet.dep_offsets@[x + 1] ==> seen[sheet.dependents@[k] as int]
}

/// The walk while the dependents of `id` (the last finished cell) are being visited: as
/// `dfs_ok`, except that only the dependents of `id` before position `k` are known seen.
#[verifier::opaque]
pub open spec fn dfs_partial(sheet: &Sheet, edited: Seq<u32>, seen: Seq<bool>, stack: Seq<u32>, out: Seq<u32>, id: u32, k: int) -> bool {
    let n = sheet.formula@.len();
    &&& seen.len() == n
    &&& forall|q: int| 0 <= q < edited.len() ==> #[trigger] edited[q] < n
    &&& out.len() > 0 && out[out.len() - 1] == id
    &&& seen_reachable(sheet, edited, seen)
    &&& forall|q: int| 0 <= q < edited.len() ==> #[trigger] seen[edited[q] as int]
    &&& forall|q: int| 0 <= q < stack.len() ==> #[trigger] stack[q] < n && seen[stack[q] as int]
    &&& forall|q: int| 0 <= q < out.len() ==> #[trigger] out[q] < n && seen[out[q] as int]
    &&& forall|x: int| 0 <= x < n && #[trigger] seen[x] ==> stack.contains(x as u32) || out.contains(x as u32)
    &&& forall|x: int, j: int|
        #![trigger out.contains(x as u32), sheet.dependents@[j]]
        0 <= x < n && out.contains(x as u32) && sheet.dep_offsets@[x] <= j < sheet.dep_offsets@[x + 1] && (x != id || j < k)
            ==> seen[sheet.dependents@[j] as int]
}

proof fn lemma_dfs_pop(sheet: &Sheet, edited: Seq<u32>, seen: Seq<bool>, stack0: Seq<u32>, stack: Seq<u32>, out0: Seq<u32>, id: u32)
    requires
        sheet.graph_ok(),
        dfs_ok(sheet, edited, seen, stack0, out0),
        stack0 == stack.push(id),
    ensures
        id < sheet.formula@.len(),
        dfs_partial(sheet, edited, seen, stack, out0.push(id), id, sheet.dep_offsets@[id as int] as int),
{
    reveal(dfs_ok);
    reveal(dfs_partial);
    let n = sheet.formula@.len();
    let out = out0.push(id);
    assert(stack0[stack0.len() - 1] == id);
    assert forall|q: int| 0 <= q < stack.len() implies #[trigger] stack[q] < n && seen[stack[q] as int] by {
        assert(stack0[q] == stack[q]);
    }
    assert forall|q: int| 0 <= q < out.len() implies #[trigger] out[q] < n && seen[out[q] as int] by {
        if q < out0.len() {
            assert(out[q] == out0[q]);
        }
    }
    assert forall|x: int| 0 <= x < n && #[trigger] seen[x] implies stack.contains(x as u32) || out.contains(x as u32) by {
        if stack0.contains(x as u32) {
            let q = choose|q: int| 0 <= q < stack0.len() && stack0[q] == x as u32;
            if q < stack.len() {
                assert(stack[q] == x as u32);
            } else {
                assert(out[out.len() - 1] == x as u32);
            }
        } else {
            let q = choose|q: int| 0 <= q < out0.len() && out0[q] == x as u32;
            assert(out[q] == x as u32);
        }
    }
    assert forall|x: int, j: int|
        #![trigger out.contains(x as u32), sheet.dependents@[j]]
        0 <= x < n && out.contains(x as u32) && sheet.dep_offsets@[x] <= j < sheet.dep_offsets@[x + 1] && (x != id || j
            < sheet.dep_offsets@[id as int]) implies seen[sheet.dependents@[j] as int] by {
        if x != id {
            let q = choose|q: int| 0 <= q < out.len() && out[q] == x as u32;
            assert(q != out.len() - 1);
            assert(out0[q] == x as u32);
            assert(out0.contains(x as u32));
        }
    }
}

#[verifier::rlimit(100)]
#[verifier::spinoff_prover]
proof fn lemma_dfs_visit(sheet: &Sheet, edited: Seq<u32>, s0: Seq<bool>, st0: Seq<u32>, out: Seq<u32>, id: u32, k: int)
    requires
        sheet.graph_ok(),
        dfs_partial(sheet, edited, s0, st0, out, id, k),
        sheet.dep_offsets@[id as int] <= k < sheet.dep_offsets@[id + 1],
        k < sheet.dependents@.len(),
        id < sheet.formula@.len(),
        !s0[sheet.dependents@[k] as int],
    ensures
        dfs_partial(
            sheet,
            edited,
            s0.update(sheet.dependents@[k] as int, true),
            st0.push(sheet.dependents@[k]),
            out,
            id,
            k + 1,
        ),
{
    reveal(dfs_partial);
    let n = sheet.formula@.len();
    let dep = sheet.dependents@[k];
    let seen = s0.update(dep as int, true);
    let stack = st0.push(dep);
    assert(out[out.len() - 1] == id);
    assert(s0[out[out.len() - 1] as int]);
    assert(s0[id as int]);
    lemma_seen_reachable_visit(sheet, edited, s0, id, k);
    assert forall|q: int| 0 <= q < stack.len() implies #[trigger] stack[q] < n && seen[stack[q] as int] by {
        if q < st0.len() {
            assert(stack[q] == st0[q]);
        }
    }
    assert forall|x: int| 0 <= x < n && #[trigger] seen[x] implies stack.contains(x as u32) || out.contains(x as u32) by {
        if x == dep as int {
            assert(stack[stack.len() - 1] == dep);
        } else {
            assert(s0[x]);
            if st0.contains(x as u32) {
                let q = choose|q: int| 0 <= q < st0.len() && st0[q] == x as u32;
                assert(stack[q] == x as u32);
            }
        }
    }
    assert forall|x: int, j: int|
        #![trigger out.contains(x as u32), sheet.dependents@[j]]
        0 <= x < n && out.contains(x as u32) && sheet.dep_offsets@[x] <= j < sheet.dep_offsets@[x + 1] && (x != id || j < k + 1)
            implies seen[sheet.dependents@[j] as int] by {
        let d = sheet.dependents@[j];
        lemma_offsets_mono(sheet, x, x + 1, n as int);
        assert(d < n);
        if x != id || j < k {
            assert(s0[d as int]);
            assert(seen[d as int]);
        } else {
            assert(j == k);
            assert(d == dep);
            assert(seen[dep as int]);
        }
    }
}

proof fn lemma_dfs_skip(sheet: &Sheet, edited: Seq<u32>, seen: Seq<bool>, stack: Seq<u32>, out: Seq<u32>, id: u32, k: int)
    requires
        dfs_partial(sheet, edited, seen, stack, out, id, k),
        0 <= k < sheet.dependents@.len(),
        sheet.dependents@[k] < seen.len(),
        seen[sheet.dependents@[k] as int],
    ensures
        dfs_partial(sheet, edited, seen, stack, out, id, k + 1),
{
    reveal(dfs_partial);
}

proof fn lemma_dfs_finish(sheet: &Sheet, edited: Seq<u32>, seen: Seq<bool>, stack: Seq<u32>, out: Seq<u32>, id: u32)
    requires
        sheet.graph_ok(),
        id < sheet.formula@.len(),
        dfs_partial(sheet, edited, seen, stack, out, id, sheet.dep_offsets@[id + 1] as int),
    ensures
        dfs_ok(sheet, edited, seen, stack, out),
{
    reveal(dfs_partial);
    reveal(dfs_ok);
}

proof fn lemma_path_extend(off: Seq<u32>, deps_: Seq<u32>, edited: Seq<u32>, p: Seq<int>, x: int, k: int)
    requires
        is_path(off, deps_, edited, p),
        off[p.last()] <= k < off[p.last() + 1],
        deps_[k] == x,
    ensures
        is_path(off, deps_, edited, p.push(x)),
{
    let q = p.push(x);
    assert(dep_edge(off, deps_, p.last(), x));
    assert forall|i: int| 0 <= i < q.len() - 1 implies #[trigger] dep_edge(off, deps_, q[i], q[i + 1]) by {
        if i < p.len() - 1 {
            assert(q[i] == p[i] && q[i + 1] == p[i + 1]);
        } else {
            assert(q[i] == p.last() && q[i + 1] == x);
        }
    }
}

proof fn lemma_dfs_init(sheet: &Sheet, edited: Seq<u32>, seen: Seq<bool>, stack: Seq<u32>)
    requires
        seen.len() == sheet.formula@.len(),
        forall|x: int| 0 <= x < sheet.formula@.len() && #[trigger] seen[x] ==> sheet.reaches(edited, x),
        forall|q: int| 0 <= q < edited.len() ==> #[trigger] seen[edited[q] as int],
        forall|q: int| 0 <= q < edited.len() ==> #[trigger] edited[q] < sheet.formula@.len(),
        forall|q: int| 0 <= q < stack.len() ==> #[trigger] stack[q] < sheet.formula@.len(),
        forall|x: int| 0 <= x < sheet.formula@.len() && #[trigger] seen[x] ==> stack.contains(x as u32),
        forall|q: int| 0 <= q < stack.len() ==> #[trigger] seen[stack[q] as int],
    ensures
        dfs_ok(sheet, edited, seen, stack, Seq::empty()),
{
    reveal(dfs_ok);
    reveal(seen_reachable);
}

proof fn lemma_dfs_done(sheet: &Sheet, edited: Seq<u32>, seen: Seq<bool>, stack: Seq<u32>, out: Seq<u32>)
    requires
        sheet.graph_ok(),
        dfs_ok(sheet, edited, seen, stack, out),
        stack.len() == 0,
    ensures
        forall|x: u32| #[trigger] out.contains(x) ==> sheet.reaches(edited, x as int),
        forall|x: u32| sheet.reaches(edited, x as int) ==> #[trigger] out.contains(x),
{
    reveal(dfs_ok);
    reveal(seen_reachable);
    let n = sheet.formula@.len();
    assert forall|x: u32| #[trigger] out.contains(x) implies sheet.reaches(edited, x as int) by {
        let q = choose|q: int| 0 <= q < out.len() && out[q] == x;
        assert(out[q] < n && seen[out[q] as int]);
    }
    assert forall|y: int| 0 <= y < n && #[trigger] seen[y] implies out.contains(y as u32) by {
        let e: Seq<u32> = Seq::empty();
        assert(stack.contains(y as u32) || out.contains(y as u32));
        assert(!stack.contains(y as u32));
    }
    assert forall|x: u32| sheet.reaches(edited, x as int) implies #[trigger] out.contains(x) by {
        let p = choose|p: Seq<int>| #[trigger] is_path(sheet.dep_offsets@, sheet.dependents@, edited, p) && p.last() == x as int;
        lemma_path_seen(sheet, edited, seen, out, p);
    }
}

proof fn lemma_path_seen(sheet: &Sheet, edited: Seq<u32>, seen: Seq<bool>, out: Seq<u32>, p: Seq<int>)
    requires
        sheet.graph_ok(),
        seen.len() == sheet.formula@.len(),
        forall|q: int| 0 <= q < edited.len() ==> #[trigger] edited[q] < sheet.formula@.len(),
        forall|q: int| 0 <= q < edited.len() ==> #[trigger] seen[edited[q] as int],
        forall|y: int| 0 <= y < sheet.formula@.len() && #[trigger] seen[y] ==> out.contains(y as u32),
        forall|x: int, k: int|
            #![trigger out.contains(x as u32), sheet.dependents@[k]]
            0 <= x < sheet.formula@.len() && out.contains(x as u32) && sheet.dep_offsets@[x] <= k < sheet.dep_offsets@[x + 1]
                ==> seen[sheet.dependents@[k] as int],
        is_path(sheet.dep_offsets@, sheet.dependents@, edited, p),
    ensures
        0 <= p.last() < sheet.formula@.len(),
        seen[p.last()],
        out.contains(p.last() as u32),
    decreases p.len(),
{
    let n = sheet.formula@.len();
    let off = sheet.dep_offsets@;
    let deps_ = sheet.dependents@;
    if p.len() == 1 {
        let q = choose|q: int| 0 <= q < edited.len() && edited[q] == p[0] as u32;
        assert(seen[edited[q] as int]);
        assert(edited[q] < n);
        assert(p.last() == p[0]);
    } else {
        let pre = p.drop_last();
        assert forall|i: int| 0 <= i < pre.len() - 1 implies #[trigger] dep_edge(off, deps_, pre[i], pre[i + 1]) by {
            assert(dep_edge(off, deps_, p[i], p[i + 1]));
        }
        lemma_path_seen(sheet, edited, seen, out, pre);
        let y = pre.last();
        let i = p.len() - 2;
        assert(dep_edge(off, deps_, p[i], p[i + 1]));
        assert(p[i] == y);
        let j = choose|j: int| off[y] <= j < off[y + 1] && #[trigger] deps_[j] == p[i + 1];
        lemma_offsets_mono(sheet, y, y + 1, n as int);
        assert(out.contains(y as u32));
        assert(seen[deps_[j] as int]);
        assert(deps_[j] < n);
        assert(p.last() == deps_[j]);
    }
}

proof fn lemma_count_true_none(v: Seq<bool>, n: nat)
    requires
        n <= v.len(),
        forall|j: int| 0 <= j < n ==> !#[trigger] v[j],
    ensures
        count_true(v, n) == 0,
    decreases n,
{
    if n > 0 {
        lemma_count_true_none(v, (n - 1) as nat);
    }
}

/// How many of `v[..n]` are set.
pub open spec fn count_true(v: Seq<bool>, n: nat) -> nat
    decreases n,
{
    if n == 0 {
        0
    } else {
        count_true(v, (n - 1) as nat) + if v[n - 1] {
            1nat
        } else {
            0nat
        }
    }
}

proof fn lemma_count_true_set(v: Seq<bool>, i: int, n: nat)
    requires
        0 <= i < n <= v.len(),
        !v[i],
    ensures
        count_true(v.update(i, true), n) == count_true(v, n) + 1,
    decreases n,
{
    if n - 1 == i {
        lemma_count_true_frame(v, v.update(i, true), (n - 1) as nat);
    } else {
        lemma_count_true_set(v, i, (n - 1) as nat);
    }
}

proof fn lemma_count_true_frame(a: Seq<bool>, b: Seq<bool>, n: nat)
    requires
        n <= a.len(),
        n <= b.len(),
        forall|j: int| 0 <= j < n ==> a[j] == b[j],
    ensures
        count_true(a, n) == count_true(b, n),
    decreases n,
{
    if n > 0 {
        lemma_count_true_frame(a, b, (n - 1) as nat);
    }
}

proof fn lemma_count_true_bound(v: Seq<bool>, n: nat)
    ensures
        count_true(v, n) <= n,
    decreases n,
{
    if n > 0 {
        lemma_count_true_bound(v, (n - 1) as nat);
    }
}

proof fn lemma_offsets_mono(sheet: &Sheet, a: int, b: int, n: int)
    requires
        sheet.graph_ok(),
        n == sheet.formula@.len(),
        0 <= a <= b <= n,
    ensures
        sheet.dep_offsets@[a] <= sheet.dep_offsets@[b] <= sheet.dependents@.len(),
    decreases n - a,
{
    if a < n {
        if b == a {
            lemma_offsets_mono(sheet, a + 1, n, n);
        } else {
            lemma_offsets_mono(sheet, a + 1, b, n);
        }
    }
}

impl Sheet {
    /// A sheet over `formula`, with its reverse dependency graph built.
    pub fn from_formulas(formula: Vec<Expr>) -> (r: Sheet)
        requires
            reads_within(formula@, formula@.len()),
            formula@.len() < u32::MAX,
            edge_deps(formula@).len() <= u32::MAX,
        ensures
            r.graph_ok(),
            r.formula@ == formula@,
            r.indexes_reads(),
    {
        let n = formula.len();
        let (dep_offsets, dependents) = build_dependents(formula.as_slice(), n);
        proof {
            let ed = edge_deps(formula@);
            lemma_count_lt_zero(ed);
            lemma_edge_deps_below(formula@, n as nat);
            lemma_count_lt_all(ed, n as int);
            assert forall|d: int| 0 <= d < n implies #[trigger] dep_offsets@[d] <= dep_offsets@[d + 1] by {
                lemma_count_lt_mono(ed, d, d + 1);
            }
        }
        Sheet { formula, dep_offsets, dependents }
    }
}

/// The aggregate a sheet's totals use.
#[derive(Clone, Copy, PartialEq, Eq, Structural, Debug)]
pub enum Agg {
    Sum,
    Max,
}

/// What a drawn constant of a generated sheet is for, in the order they are drawn: one
/// input value per row of the first column, a scale and an offset per derived cell, a
/// weight per dashboard consumer.
#[derive(Clone, Copy, PartialEq, Eq, Structural, Debug)]
pub enum ConstKind {
    Input,
    Scale,
    Offset,
    Weight,
}

/// How many constants a `rows` x `cols` sheet with `consumers` draws.
pub open spec fn const_count(rows: nat, cols: nat, consumers: nat) -> nat {
    if cols == 0 {
        consumers
    } else {
        (rows + 2 * (rows * (cols - 1)) + consumers) as nat
    }
}

/// The kind of the `k`-th drawn constant.
pub open spec fn const_kind_at(rows: nat, cols: nat, k: int) -> ConstKind {
    if cols == 0 {
        ConstKind::Weight
    } else if k < rows {
        ConstKind::Input
    } else if k < rows + 2 * (rows * (cols - 1)) {
        if (k - rows) % 2 == 0 {
            ConstKind::Scale
        } else {
            ConstKind::Offset
        }
    } else {
        ConstKind::Weight
    }
}

/// The kinds of the constants a generated sheet draws, in drawing order.
pub fn const_kinds(rows: usize, cols: usize, consumers: usize) -> (r: Vec<ConstKind>)
    requires
        const_count(rows as nat, cols as nat, consumers as nat) <= usize::MAX,
    ensures
        r@.len() == const_count(rows as nat, cols as nat, consumers as nat),
        forall|k: int| 0 <= k < r@.len() ==> #[trigger] r@[k] == const_kind_at(rows as nat, cols as nat, k),
{
    let mut r: Vec<ConstKind> = Vec::new();
    let ghost total = const_count(rows as nat, cols as nat, consumers as nat);
    let ghost grid_consts: int = if cols == 0 { 0 } else { rows + 2 * (rows * (cols - 1)) };
    let mut c: usize = 0;
    while c < cols
        invariant
            c <= cols,
            total == const_count(rows as nat, cols as nat, consumers as nat),
            total <= usize::MAX,
            r@.len() == if c == 0 { 0 } else { rows + 2 * (rows * (c - 1)) },
            forall|k: int| 0 <= k < r@.len() ==> #[trigger] r@[k] == const_kind_at(rows as nat, cols as nat, k),
        decreases cols - c,
    {
        let mut row: usize = 0;
        let ghost start = r@.len();
        proof {
            assert(rows * c <= rows * (cols - 1)) by (nonlinear_arith)
                requires
                    c <= cols - 1,
            ;
            assert(rows * (c + 1 - 1) == rows * c);
            if c > 0 {
                assert(rows * c == rows * (c - 1) + rows) by (nonlinear_arith);
            }
        }
        while row < rows
            invariant
                row <= rows,
                c < cols,
                total == const_count(rows as nat, cols as nat, consumers as nat),
                total <= usize::MAX,
                rows * c <= rows * (cols - 1),
                start == if c == 0 { 0 } else { rows + 2 * (rows * (c - 1)) },
                c > 0 ==> rows * c == rows * (c - 1) + rows,
                r@.len() == start + if c == 0 { row as int } else { 2 * row },
                forall|k: int| 0 <= k < r@.len() ==> #[trigger] r@[k] == const_kind_at(rows as nat, cols as nat, k),
            decreases rows - row,
        {
            if c == 0 {
                r.push(ConstKind::Input);
            } else {
                proof {
                    let k = r@.len() as int;
                    assert(k - rows == 2 * (rows * (c - 1)) + 2 * row);
                    assert((k - rows) % 2 == 0) by (nonlinear_arith)
                        requires
                            k - rows == 2 * (rows * (c - 1)) + 2 * row,
                    ;
                    assert((k + 1 - rows) % 2 == 1) by (nonlinear_arith)
                        requires
                            k - rows == 2 * (rows * (c - 1)) + 2 * row,
                    ;
                }
                r.push(ConstKind::Scale);
                r.push(ConstKind::Offset);
            }
            row += 1;
        }
        c += 1;
    }
    let mut j: usize = 0;
    while j < consumers
        invariant
            j <= consumers,
            total == const_count(rows as nat, cols as nat, consumers as nat),
            total <= usize::MAX,
            r@.len() == grid_consts + j,
            grid_consts == if cols == 0 { 0 } else { rows + 2 * (rows * (cols - 1)) },
            forall|k: int| 0 <= k < r@.len() ==> #[trigger] r@[k] == const_kind_at(rows as nat, cols as nat, k),
        decreases consumers - j,
    {
        r.push(ConstKind::Weight);
        j += 1;
    }
    r
}

/// The aggregate formula over `len` cells from `start`.
pub open spec fn agg_expr(agg: Agg, start: u32, len: u32) -> Expr {
    match agg {
        Agg::Sum => Expr::Sum(start, len),
        Agg::Max => Expr::Max(start, len),
    }
}

/// The formula of cell `id` of a generated sheet: a `rows` x `cols` grid stored column by
/// column (column 0 holds input constants, each later cell scales and offsets its left
/// neighbour), one aggregate per column, a grand aggregate over the column aggregates, and
/// `consumers` cells that each weight the grand aggregate. Constants are taken from
/// `consts` in drawing order.
pub open spec fn sheet_formula(rows: nat, cols: nat, agg: Agg, consts: Seq<u64>, id: int) -> Expr {
    let grid = rows * cols;
    let gc = if cols == 0 { 0 } else { rows + 2 * (rows * (cols - 1)) };
    if id < grid {
        if id < rows {
            Expr::Const(consts[id])
        } else {
            let q = rows + 2 * (id - rows);
            Expr::Add(
                Box::new(Expr::Mul(Box::new(Expr::Cell((id - rows) as u32)), Box::new(Expr::Const(consts[q])))),
                Box::new(Expr::Const(consts[q + 1])),
            )
        }
    } else if id < grid + cols {
        agg_expr(agg, ((id - grid) * rows) as u32, rows as u32)
    } else if id == grid + cols {
        agg_expr(agg, grid as u32, cols as u32)
    } else {
        Expr::Mul(Box::new(Expr::Cell((grid + cols) as u32)), Box::new(Expr::Const(consts[gc + (id - grid - cols - 1)])))
    }
}

/// The number of cells of a generated sheet.
pub open spec fn sheet_len(rows: nat, cols: nat, consumers: nat) -> nat {
    rows * cols + cols + 1 + consumers
}

/// The dependency edges among the first `i` cells of a generated sheet.
pub open spec fn sheet_edges_upto(rows: nat, cols: nat, i: int) -> int {
    let grid = rows * cols;
    let g = if i < grid { i } else { grid as int };
    let a = if i <= grid { 0 } else if i - grid < cols { i - grid } else { cols as int };
    (if g > rows { g - rows } else { 0 }) + a * rows + (if i > grid + cols { cols as int } else { 0 }) + (if i
        > grid + cols + 1 { i - grid - cols - 1 } else { 0 })
}

/// The dependency edges of a whole generated sheet.
pub open spec fn sheet_edges(rows: nat, cols: nat, consumers: nat) -> int {
    sheet_edges_upto(rows, cols, sheet_len(rows, cols, consumers) as int)
}

#[verifier::spinoff_prover]
proof fn lemma_sheet_deps(rows: nat, cols: nat, agg: Agg, consts: Seq<u64>, id: int)
    requires
        0 <= id <= u32::MAX,
        rows * cols + cols < u32::MAX,
    ensures
        deps(sheet_formula(rows, cols, agg, consts, id)).len() == sheet_edges_upto(rows, cols, id + 1) - sheet_edges_upto(
            rows,
            cols,
            id,
        ),
        forall|k: int|
            0 <= k < deps(sheet_formula(rows, cols, agg, consts, id)).len() ==> #[trigger] deps(
                sheet_formula(rows, cols, agg, consts, id),
            )[k] < id,
        ranges_fit(sheet_formula(rows, cols, agg, consts, id)),
{
    let grid = rows * cols;
    let f = sheet_formula(rows, cols, agg, consts, id);
    if id < grid {
        if id < rows {
        } else {
            assert(cols >= 1) by {
                if cols == 0 {
                    assert(rows * cols == 0) by (nonlinear_arith)
                        requires
                            cols == 0,
                    ;
                }
            }
            assert(grid >= rows) by (nonlinear_arith)
                requires
                    cols >= 1,
                    grid == rows * cols,
            ;
            reveal_with_fuel(deps, 4);
            reveal_with_fuel(ranges_fit, 4);
            assert(deps(f) =~= seq![(id - rows) as u32]);
        }
    } else if id < grid + cols {
        let a = id - grid;
        assert((a + 1) * rows == a * rows + rows) by (nonlinear_arith);
        assert(a * rows + rows <= grid) by (nonlinear_arith)
            requires
                a + 1 <= cols,
                grid == rows * cols,
        ;
        assert(a * rows >= 0) by (nonlinear_arith)
            requires
                a >= 0,
        ;
        assert forall|k: int| 0 <= k < deps(f).len() implies #[trigger] deps(f)[k] < id by {
            assert(deps(f)[k] == ((a * rows) as u32 + k) as u32);
        }
    } else if id == grid + cols {
        assert forall|k: int| 0 <= k < deps(f).len() implies #[trigger] deps(f)[k] < id by {
            assert(deps(f)[k] == (grid as u32 + k) as u32);
        }
    } else {
        reveal_with_fuel(deps, 3);
        reveal_with_fuel(ranges_fit, 3);
        assert(deps(f) =~= seq![(grid + cols) as u32]);
    }
}

proof fn lemma_sheet_edges(rows: nat, cols: nat, agg: Agg, consts: Seq<u64>, n: nat)
    requires
        n <= u32::MAX + 1,
        rows * cols + cols < u32::MAX,
    ensures
        edge_deps(Seq::new(n, |id: int| sheet_formula(rows, cols, agg, consts, id))).len() == sheet_edges_upto(rows, cols, n as int),
    decreases n,
{
    let f = Seq::new(n, |id: int| sheet_formula(rows, cols, agg, consts, id));
    if n == 0 {
    } else {
        let pre = Seq::new((n - 1) as nat, |id: int| sheet_formula(rows, cols, agg, consts, id));
        assert(f.drop_last() =~= pre);
        lemma_sheet_edges(rows, cols, agg, consts, (n - 1) as nat);
        lemma_sheet_deps(rows, cols, agg, consts, n - 1);
    }
}

/// The aggregate formula over `len` cells from `start`.
fn agg_of(agg: Agg, start: u32, len: u32) -> (e: Expr)
    ensures
        e == agg_expr(agg, start, len),
{
    match agg {
        Agg::Sum => Expr::Sum(start, len),
        Agg::Max => Expr::Max(start, len),
    }
}

/// A generated sheet (see `sheet_formula`) with its reverse dependency graph, its
/// constants taken from `consts` in drawing order (see `const_kinds`). Every cell reads
/// only lower ids, so id order is a recompute order.
pub fn build_sheet(rows: usize, cols: usize, agg: Agg, consumers: usize, consts: &[u64]) -> (r: Sheet)
    requires
        consts@.len() == const_count(rows as nat, cols as nat, consumers as nat),
        sheet_len(rows as nat, cols as nat, consumers as nat) < u32::MAX,
        sheet_edges(rows as nat, cols as nat, consumers as nat) <= u32::MAX,
    ensures
        r.graph_ok(),
        r.formula@ == Seq::new(
            sheet_len(rows as nat, cols as nat, consumers as nat),
            |id: int| sheet_formula(rows as nat, cols as nat, agg, consts@, id),
        ),
        reads_lower(r.formula@),
        r.indexes_reads(),
{
    let ghost total = sheet_len(rows as nat, cols as nat, consumers as nat);
    proof {
        assert(rows * cols <= total) by (nonlinear_arith)
            requires
                total == rows * cols + cols + 1 + consumers,
        ;
        if cols > 0 {
            assert(rows * cols == rows * (cols - 1) + rows) by (nonlinear_arith)
                requires
                    cols > 0,
            ;
        } else {
            assert(rows * cols == 0) by (nonlinear_arith)
                requires
                    cols == 0,
            ;
        }
    }
    let grid = rows * cols;
    let nconsts = consts.len();
    let mut formula: Vec<Expr> = Vec::new();
    let mut id: usize = 0;
    while id < grid
        invariant
            id <= grid,
            grid == rows * cols,
            total == grid + cols + 1 + consumers,
            total < u32::MAX,
            cols > 0 ==> grid == rows * (cols - 1) + rows,
            cols == 0 ==> grid == 0,
            consts@.len() == const_count(rows as nat, cols as nat, consumers as nat),
            nconsts == consts@.len(),
            formula@ =~= Seq::new(id as nat, |i: int| sheet_formula(rows as nat, cols as nat, agg, consts@, i)),
        decreases grid - id,
    {
        if id < rows {
            formula.push(Expr::Const(consts[id]));
        } else {
            proof {
                assert(cols > 0);
                assert(id - rows < rows * (cols - 1));
                assert(rows + 2 * (id - rows) + 1 < consts@.len());
            }
            let q = rows + 2 * (id - rows);
            let left = (id - rows) as u32;
            formula.push(
                Expr::Add(
                    Box::new(Expr::Mul(Box::new(Expr::Cell(left)), Box::new(Expr::Const(consts[q])))),
                    Box::new(Expr::Const(consts[q + 1])),
                ),
            );
        }
        id += 1;
    }
    let mut c: usize = 0;
    let mut start: usize = 0;
    while c < cols
        invariant
            c <= cols,
            grid == rows * cols,
            start == c * rows,
            total == grid + cols + 1 + consumers,
            total < u32::MAX,
            formula@ =~= Seq::new((grid + c) as nat, |i: int| sheet_formula(rows as nat, cols as nat, agg, consts@, i)),
        decreases cols - c,
    {
        proof {
            assert((c + 1) * rows == c * rows + rows) by (nonlinear_arith);
            assert((c + 1) * rows <= grid) by (nonlinear_arith)
                requires
                    c + 1 <= cols,
                    grid == rows * cols,
            ;
        }
        assert(sheet_formula(rows as nat, cols as nat, agg, consts@, (grid + c) as int) == agg_expr(agg, start as u32, rows as u32));
        formula.push(agg_of(agg, start as u32, rows as u32));
        start = start + rows;
        c += 1;
    }
    formula.push(agg_of(agg, grid as u32, cols as u32));
    let grand = (grid + cols) as u32;
    let ghost gc: int = if cols == 0 { 0 } else { rows + 2 * (rows * (cols - 1)) };
    assert(consts@.len() == gc + consumers);
    let base = consts.len() - consumers;
    let mut j: usize = 0;
    while j < consumers
        invariant
            j <= consumers,
            grid == rows * cols,
            total == grid + cols + 1 + consumers,
            total < u32::MAX,
            grand == grid + cols,
            base == gc,
            gc == if cols == 0 { 0 } else { rows + 2 * (rows * (cols - 1)) },
            consts@.len() == gc + consumers,
            nconsts == consts@.len(),
            formula@ =~= Seq::new((grid + cols + 1 + j) as nat, |i: int| sheet_formula(rows as nat, cols as nat, agg, consts@, i)),
        decreases consumers - j,
    {
        assert(sheet_formula(rows as nat, cols as nat, agg, consts@, (grid + cols + 1 + j) as int) == Expr::Mul(
            Box::new(Expr::Cell(grand)),
            Box::new(Expr::Const(consts@[base + j])),
        ));
        formula.push(Expr::Mul(Box::new(Expr::Cell(grand)), Box::new(Expr::Const(consts[base + j]))));
        j += 1;
    }
    proof {
        assert forall|i: int| 0 <= i < formula@.len() implies #[trigger] ranges_fit(formula@[i]) by {
            lemma_sheet_deps(rows as nat, cols as nat, agg, consts@, i);
        }
        assert forall|i: int, k: int| 0 <= i < formula@.len() && 0 <= k < deps(formula@[i]).len() implies #[trigger] deps(
            formula@[i],
        )[k] < i by {
            lemma_sheet_deps(rows as nat, cols as nat, agg, consts@, i);
        }
        assert(reads_within(formula@, formula@.len()));
        lemma_sheet_edges(rows as nat, cols as nat, agg, consts@, total);
        assert(formula@ =~= Seq::new(total, |i: int| sheet_formula(rows as nat, cols as nat, agg, consts@, i)));
    }
    Sheet::from_formulas(formula)
}

/// The cells waiting to be recomputed in a cutoff recompute: each at most once, taken
/// lowest id first (a topological order when every cell reads only lower ids).
pub struct Frontier {
    pub in_queue: Vec<bool>,
    /// The waiting ids, strictly decreasing, so the lowest is last.
    pub pending: Vec<u32>,
}

impl Frontier {
    /// The ids waiting.
    pub open spec fn queued(&self) -> Set<u32> {
        Set::new(|x: u32| self.pending@.contains(x))
    }

    /// A frontier over `n` cells: `pending` strictly decreasing and below `n`, and
    /// `in_queue` flags exactly the waiting ids.
    pub open spec fn wf(&self, n: nat) -> bool {
        &&& self.in_queue@.len() == n
        &&& forall|i: int, j: int| 0 <= i < j < self.pending@.len() ==> self.pending@[i] > self.pending@[j]
        &&& forall|k: int| 0 <= k < self.pending@.len() ==> self.pending@[k] < n
        &&& forall|x: u32| x < n ==> (#[trigger] self.in_queue@[x as int] <==> self.pending@.contains(x))
    }

    /// An empty frontier over `n` cells.
    pub fn new(n: usize) -> (r: Frontier)
        ensures
            r.wf(n as nat),
            r.queued() == Set::<u32>::empty(),
    {
        let mut in_queue: Vec<bool> = Vec::new();
        let mut i: usize = 0;
        while i < n
            invariant
                i <= n,
                in_queue@ == Seq::new(i as nat, |k: int| false),
            decreases n - i,
        {
            in_queue.push(false);
            i += 1;
            assert(in_queue@ =~= Seq::new(i as nat, |k: int| false));
        }
        let r = Frontier { in_queue, pending: Vec::new() };
        assert(r.queued() =~= Set::<u32>::empty());
        r
    }

    /// Queue `id` unless it is waiting already; says whether it was added.
    pub fn push(&mut self, id: u32) -> (added: bool)
        requires
            old(self).wf(old(self).in_queue@.len()),
            id < old(self).in_queue@.len(),
        ensures
            final(self).wf(old(self).in_queue@.len()),
            final(self).queued() == old(self).queued().insert(id),
            added == !old(self).queued().contains(id),
    {
        let ghost n = self.in_queue@.len();
        if self.in_queue[id as usize] {
            assert(self.pending@.contains(id));
            assert(self.queued().insert(id) =~= self.queued());
            return false;
        }
        self.in_queue.set(id as usize, true);
        let mut i: usize = 0;
        while i < self.pending.len() && self.pending[i] > id
            invariant
                i <= self.pending@.len(),
                forall|k: int| 0 <= k < i ==> self.pending@[k] > id,
            decreases self.pending@.len() - i,
        {
            i += 1;
        }
        let ghost p0 = self.pending@;
        proof {
            assert(!p0.contains(id));
            if i < p0.len() {
                assert(p0[i as int] < id);
            }
        }
        self.pending.insert(i, id);
        proof {
            let p1 = self.pending@;
            assert forall|a: int, b: int| 0 <= a < b < p1.len() implies p1[a] > p1[b] by {
                if b < i {
                } else if a < i && b == i {
                } else if a < i {
                    assert(p1[b] == p0[b - 1]);
                } else if a == i {
                    assert(p1[b] == p0[b - 1]);
                    assert(p0[b - 1] <= p0[i as int]);
                } else {
                    assert(p1[a] == p0[a - 1] && p1[b] == p0[b - 1]);
                }
            }
            assert forall|x: u32| #[trigger] p1.contains(x) <==> p0.contains(x) || x == id by {
                if p1.contains(x) {
                    let k = choose|k: int| 0 <= k < p1.len() && p1[k] == x;
                    if k < i {
                        assert(p0[k] == x);
                    } else if k > i {
                        assert(p0[k - 1] == x);
                    }
                }
                if p0.contains(x) {
                    let k = choose|k: int| 0 <= k < p0.len() && p0[k] == x;
                    if k < i {
                        assert(p1[k] == x);
                    } else {
                        assert(p1[k + 1] == x);
                    }
                }
                if x == id {
                    assert(p1[i as int] == id);
                }
            }
            assert forall|x: u32| x < n implies (#[trigger] self.in_queue@[x as int] <==> p1.contains(x)) by {
                assert(p1.contains(x) <==> p0.contains(x) || x == id);
                assert(old(self).in_queue@[x as int] <==> p0.contains(x));
            }
            assert(self.queued() =~= old(self).queued().insert(id));
        }
        true
    }

    /// Take the lowest waiting id, if any.
    pub fn pop(&mut self) -> (r: Option<u32>)
        requires
            old(self).wf(old(self).in_queue@.len()),
        ensures
            final(self).wf(old(self).in_queue@.len()),
            old(self).queued().is_empty() <==> r is None,
            r is Some ==> old(self).queued().contains(r.unwrap()) && final(self).queued() == old(self).queued().remove(
                r.unwrap(),
            ) && forall|x: u32| #[trigger] old(self).queued().contains(x) ==> r.unwrap() <= x,
    {
        let ghost n = self.in_queue@.len();
        let ghost p0 = self.pending@;
        match self.pending.pop() {
            None => {
                assert(self.queued() =~= Set::<u32>::empty());
                None
            },
            Some(id) => {
                self.in_queue.set(id as usize, false);
                proof {
                    let m = p0.len() - 1;
                    assert(p0[m] == id);
                    assert(old(self).queued().contains(id));
                    assert forall|x: u32| #[trigger] old(self).queued().contains(x) implies id <= x by {
                        let k = choose|k: int| 0 <= k < p0.len() && p0[k] == x;
                        assert(k == m || p0[k] > p0[m]);
                    }
                    let p1 = self.pending@;
                    assert forall|x: u32| #[trigger] p1.contains(x) <==> p0.contains(x) && x != id by {
                        if p0.contains(x) && x != id {
                            let k = choose|k: int| 0 <= k < p0.len() && p0[k] == x;
                            assert(p1[k] == x);
                        }
                        if p1.contains(x) {
                            let k = choose|k: int| 0 <= k < p1.len() && p1[k] == x;
                            assert(p0[k] == x && p0[k] > p0[m]);
                        }
                    }
                    assert forall|x: u32| x < n implies (#[trigger] self.in_queue@[x as int] <==> p1.contains(x)) by {
                        assert(p1.contains(x) <==> p0.contains(x) && x != id);
                        assert(old(self).in_queue@[x as int] <==> p0.contains(x));
                    }
                    assert(self.queued() =~= old(self).queued().remove(id));
                }
                Some(id)
            },
        }
    }

    /// Queue every cell that reads cell `id`.
    #[verifier::spinoff_prover]
    #[verifier::rlimit(40)]
    pub fn push_dependents(&mut self, sheet: &Sheet, id: u32)
        requires
            old(self).wf(sheet.formula@.len()),
            sheet.graph_ok(),
            id < sheet.formula@.len(),
        ensures
            final(self).wf(sheet.formula@.len()),
            final(self).queued() == old(self).queued().union(
                Set::new(|x: u32| dep_edge(sheet.dep_offsets@, sheet.dependents@, id as int, x as int)),
            ),
    {
        let deps = sheet.dependents_of(id);
        let ghost n = sheet.formula@.len();
        proof {
            let lo = sheet.dep_offsets@[id as int] as int;
            lemma_offsets_mono(sheet, id as int, id + 1, n as int);
            assert forall|j: int| 0 <= j < deps@.len() implies #[trigger] deps@[j] < n by {
                assert(deps@[j] == sheet.dependents@[lo + j]);
            }
        }
        let mut k: usize = 0;
        while k < deps.len()
            invariant
                k <= deps@.len(),
                self.wf(n),
                forall|j: int| 0 <= j < deps@.len() ==> #[trigger] deps@[j] < n,
                self.queued() == old(self).queued().union(deps@.subrange(0, k as int).to_set()),
            decreases deps@.len() - k,
        {
            self.push(deps[k]);
            k += 1;
            proof {
                assert(deps@.subrange(0, k as int) =~= deps@.subrange(0, k - 1).push(deps@[k - 1]));
                deps@.subrange(0, k - 1).lemma_push_to_set_commute(deps@[k - 1]);
            }
        }
        proof {
            assert(deps@.subrange(0, deps@.len() as int) == deps@);
            lemma_dependents_set(sheet, id);
        }
    }
}

proof fn lemma_dependents_set(sheet: &Sheet, id: u32)
    requires
        sheet.graph_ok(),
        id < sheet.formula@.len(),
    ensures
        sheet.dependents@.subrange(sheet.dep_offsets@[id as int] as int, sheet.dep_offsets@[id + 1] as int).to_set()
            == Set::new(|x: u32| dep_edge(sheet.dep_offsets@, sheet.dependents@, id as int, x as int)),
{
    let lo = sheet.dep_offsets@[id as int] as int;
    let hi = sheet.dep_offsets@[id + 1] as int;
    lemma_offsets_mono(sheet, id as int, id + 1, sheet.formula@.len() as int);
    let d = sheet.dependents@.subrange(lo, hi);
    assert forall|x: u32| d.to_set().contains(x) <==> dep_edge(sheet.dep_offsets@, sheet.dependents@, id as int, x as int) by {
        if d.contains(x) {
            let j = choose|j: int| 0 <= j < d.len() && d[j] == x;
            assert(sheet.dependents@[lo + j] == x);
        }
        if dep_edge(sheet.dep_offsets@, sheet.dependents@, id as int, x as int) {
            let kk = choose|kk: int| lo <= kk < hi && #[trigger] sheet.dependents@[kk] == x;
            assert(d[kk - lo] == x);
        }
    }
    assert(d.to_set() =~= Set::new(|x: u32| dep_edge(sheet.dep_offsets@, sheet.dependents@, id as int, x as int)));
}

/// The cell at (`row`, `col`) of a column-major grid of `rows` rows.
pub fn idx(rows: usize, col: usize, row: usize) -> (r: usize)
    requires
        col * rows + row <= usize::MAX,
    ensures
        r == col * rows + row,
{
    assert(0 <= col * rows) by (nonlinear_arith);
    col * rows + row
}

/// The sum of a sequence of lengths.
pub open spec fn total_len(s: Seq<usize>) -> int
    decreases s.len(),
{
    if s.len() == 0 {
        0
    } else {
        total_len(s.drop_last()) + s.last()
    }
}

/// The reads that stream `rows` values through a buffer of `tile`: full tiles, then
/// what is left.
pub fn tile_lengths(rows: usize, tile: usize) -> (r: Vec<usize>)
    requires
        tile > 0,
    ensures
        total_len(r@) == rows,
        forall|k: int| 0 <= k < r@.len() ==> 0 < #[trigger] r@[k] <= tile,
        forall|k: int| 0 <= k < r@.len() - 1 ==> #[trigger] r@[k] == tile,
{
    let mut r: Vec<usize> = Vec::new();
    let mut remaining = rows;
    while remaining > 0
        invariant
            tile > 0,
            remaining <= rows,
            total_len(r@) == rows - remaining,
            forall|k: int| 0 <= k < r@.len() ==> 0 < #[trigger] r@[k] <= tile,
            forall|k: int| 0 <= k < r@.len() ==> #[trigger] r@[k] == tile,
        decreases remaining,
    {
        let len = if remaining < tile {
            remaining
        } else {
            tile
        };
        let ghost r0 = r@;
        r.push(len);
        assert(r@.drop_last() =~= r0);
        remaining = remaining - len;
        if remaining > 0 {
            assert(len == tile);
        } else {
            assert(total_len(r@) == rows);
            assert forall|k: int| 0 <= k < r@.len() - 1 implies #[trigger] r@[k] == tile by {
                assert(r@[k] == r@.drop_last()[k]);
            }
            return r;
        }
    }
    r
}

proof fn lemma_edges_ordered(formula: Seq<Expr>)
    requires
        reads_lower(formula),
        formula.len() < u32::MAX,
    ensures
        edge_deps(formula).len() == edge_cells(formula).len(),
        forall|e: int| 0 <= e < edge_deps(formula).len() ==> #[trigger] edge_deps(formula)[e] < edge_cells(formula)[e],
        forall|e: int| 0 <= e < edge_cells(formula).len() ==> #[trigger] edge_cells(formula)[e] < formula.len(),
    decreases formula.len(),
{
    lemma_edges_len(formula);
    lemma_edge_cells_below(formula);
    if formula.len() > 0 {
        let pre = formula.drop_last();
        assert(reads_lower(pre)) by {
            assert forall|c: int, k: int| 0 <= c < pre.len() && 0 <= k < deps(pre[c]).len() implies #[trigger] deps(pre[c])[k] < c by {
                assert(pre[c] == formula[c]);
            }
        }
        lemma_edges_ordered(pre);
        let a = edge_deps(pre);
        let last = formula.len() - 1;
        lemma_edges_len(pre);
        let tail = Seq::new(deps(formula.last()).len(), |k: int| (formula.len() - 1) as u32);
        assert(edge_cells(formula) == edge_cells(pre) + tail);
        assert(edge_deps(formula) == a + deps(formula.last()));
        assert(edge_cells(pre).len() == a.len());
        assert forall|e: int| 0 <= e < edge_deps(formula).len() implies #[trigger] edge_deps(formula)[e] < edge_cells(formula)[e] by {
            if e >= a.len() {
                assert(edge_deps(formula)[e] == deps(formula[last])[e - a.len()]);
                assert(edge_cells(formula)[e] == tail[e - a.len()]);
                assert(formula[last] == formula.last());
                assert(deps(formula[last])[e - a.len()] < last);
            } else {
                assert(edge_deps(formula)[e] == a[e]);
                assert(edge_cells(formula)[e] == edge_cells(pre)[e]);
                assert(a[e] < edge_cells(pre)[e]);
            }
        }
    }
}

/// In a sheet whose formulas read only lower ids, every cell that reads `a` comes after
/// `a`: taking pending cells lowest id first therefore recomputes each cell after every
/// cell it reads.
pub proof fn readers_come_later(sheet: &Sheet, a: int, b: int)
    requires
        sheet.graph_ok(),
        sheet.indexes_reads(),
        reads_lower(sheet.formula@),
        0 <= a < sheet.formula@.len(),
        dep_edge(sheet.dep_offsets@, sheet.dependents@, a, b),
    ensures
        a < b,
{
    let n = sheet.formula@.len() as int;
    let ed = edge_deps(sheet.formula@);
    lemma_edges_ordered(sheet.formula@);
    lemma_count_lt_all(ed, n);
    let k = choose|k: int| sheet.dep_offsets@[a] <= k < sheet.dep_offsets@[a + 1] && #[trigger] sheet.dependents@[k] == b;
    lemma_offsets_mono(sheet, a + 1, n, n);
    lemma_bucket_pos_onto(ed, k);
    let e = choose|e: int| 0 <= e < ed.len() && bucket_pos(ed, e) == k;
    lemma_bucket_pos_range(ed, e);
    if ed[e] < a {
        lemma_count_lt_mono(ed, ed[e] + 1, a);
    } else if ed[e] > a {
        lemma_count_lt_mono(ed, a + 1, ed[e] as int);
    }
    assert(ed[e] == a);
}

} // verus!
