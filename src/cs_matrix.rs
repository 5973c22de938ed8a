use crate::scalar::{lemma_reduce_add, lemma_reduce_scalar, reduce, scalar_add, scalar_mul};
use vstd::set_lib::{lemma_int_range, lemma_len_subset, set_int_range};
use crate::storage::{CsStorage, CsVecStorage};
use vstd::prelude::*;

verus! {

/// A compressed sparse column matrix.
#[derive(Clone, Debug)]
pub struct CsMatrix {
    pub data: CsVecStorage,
}

impl CsMatrix {
    pub open spec fn nrows(&self) -> int {
        self.data.nrows as int
    }

    pub open spec fn ncols(&self) -> int {
        self.data.ncols as int
    }

    /// Number of stored entries.
    pub open spec fn nnz(&self) -> int {
        self.data.vals@.len() as int
    }

    /// First position of column `j`.
    pub open spec fn start(&self, j: int) -> int {
        self.data.p@[j] as int
    }

    /// One past the last position of column `j`.
    pub open spec fn end(&self, j: int) -> int {
        if j + 1 == self.ncols() {
            self.nnz()
        } else {
            self.data.p@[j + 1] as int
        }
    }

    /// Row of the entry stored at position `k`.
    pub open spec fn row(&self, k: int) -> int {
        self.data.i@[k] as int
    }

    /// Value of the entry stored at position `k`.
    pub open spec fn val(&self, k: int) -> int {
        self.data.vals@[k] as int
    }

    /// The column starts and row indices describe a matrix: starts begin at zero
    /// and never decrease up to the number of entries, and every row is in range.
    pub open spec fn wf(&self) -> bool {
        &&& self.data.p@.len() == self.ncols()
        &&& self.data.i@.len() == self.data.vals@.len()
        &&& self.ncols() == 0 ==> self.nnz() == 0
        &&& self.ncols() > 0 ==> self.start(0) == 0 && self.start(self.ncols() - 1) <= self.nnz()
        &&& forall|j1: int, j2: int|
            0 <= j1 <= j2 < self.ncols() ==> #[trigger] self.start(j1) <= #[trigger] self.start(j2)
        &&& forall|k: int| 0 <= k < self.nnz() ==> #[trigger] self.row(k) < self.nrows()
    }

    /// Column `j` stores an entry in row `r`.
    pub open spec fn has(&self, j: int, r: int) -> bool {
        self.has_range(r, self.start(j), self.end(j))
    }

    /// Some position in `lo .. hi` stores an entry in row `r`.
    pub open spec fn has_range(&self, r: int, lo: int, hi: int) -> bool {
        exists|k: int| lo <= k < hi && #[trigger] self.row(k) == r
    }

    /// Sum of the values stored in row `r` at positions `lo .. hi`.
    pub open spec fn sum_range(&self, r: int, lo: int, hi: int) -> int
        decreases hi - lo,
    {
        if hi <= lo {
            0
        } else {
            self.sum_range(r, lo, hi - 1) + if self.row(hi - 1) == r {
                self.val(hi - 1)
            } else {
                0
            }
        }
    }

    /// Sum of the values stored in column `j`, row `r`.
    pub open spec fn col_sum(&self, j: int, r: int) -> int {
        self.sum_range(r, self.start(j), self.end(j))
    }

    /// Positions `lo .. hi` hold entries of distinct rows.
    pub open spec fn distinct_rows(&self, lo: int, hi: int) -> bool {
        forall|k1: int, k2: int|
            lo <= k1 < hi && lo <= k2 < hi && k1 != k2 ==> #[trigger] self.row(k1) != #[trigger] self.row(k2)
    }

    /// No column stores two entries in the same row.
    pub open spec fn no_dup(&self) -> bool {
        forall|j: int| 0 <= j < self.ncols() ==> #[trigger] self.distinct_rows(self.start(j), self.end(j))
    }

    /// Number of entries among positions `0 .. n` that lie in row `r`.
    pub open spec fn count_row(&self, r: int, n: int) -> int
        decreases n,
    {
        if n <= 0 {
            0
        } else {
            self.count_row(r, n - 1) + if self.row(n - 1) == r {
                1int
            } else {
                0
            }
        }
    }

    /// Number of entries among positions `0 .. n` that lie in a row before `r`.
    pub open spec fn count_lt(&self, r: int, n: int) -> int
        decreases n,
    {
        if n <= 0 {
            0
        } else {
            self.count_lt(r, n - 1) + if self.row(n - 1) < r {
                1int
            } else {
                0
            }
        }
    }

    /// Where transposition puts the entry stored at position `k`: after the entries
    /// of all rows before its row, and after the earlier entries of its own row.
    pub open spec fn t_slot(&self, k: int) -> int {
        self.count_lt(self.row(k), self.nnz()) + self.count_row(self.row(k), k)
    }

    /// The entry stored at position `k` of `self`, in column `j`, sits transposed
    /// at `res`'s position `t_slot(k)`.
    pub open spec fn placed(&self, res: &CsMatrix, j: int, k: int) -> bool {
        &&& res.row(self.t_slot(k)) == j
        &&& res.val(self.t_slot(k)) == self.val(k)
    }

    /// Allocates a matrix of the given shape with room for `nvals` entries; every
    /// column start, row index and value is zero until the caller fills them.
    pub fn new_uninitialized_generic(nrows: usize, ncols: usize, nvals: usize) -> (r: CsMatrix)
        ensures
            r.nrows() == nrows,
            r.ncols() == ncols,
            r.nnz() == nvals,
            r.data.p@ == Seq::new(ncols as nat, |j: int| 0usize),
            r.data.i@ == Seq::new(nvals as nat, |k: int| 0usize),
            r.data.vals@ == Seq::new(nvals as nat, |k: int| 0u64),
    {
        let i: Vec<usize> = vec![0usize; nvals];
        let vals: Vec<u64> = vec![0u64; nvals];
        let p: Vec<usize> = vec![0usize; ncols];
        proof {
            assert(i@ =~= Seq::new(nvals as nat, |k: int| 0usize));
            assert(vals@ =~= Seq::new(nvals as nat, |k: int| 0u64));
            assert(p@ =~= Seq::new(ncols as nat, |j: int| 0usize));
        }
        CsMatrix { data: CsVecStorage { nrows, ncols, p, i, vals } }
    }

    /// Number of stored entries.
    pub fn nvalues(&self) -> (r: usize)
        ensures
            r == self.nnz(),
    {
        self.data.nvalues()
    }
}

impl CsMatrix {
    proof fn lemma_count_row_bounds(&self, r: int, n: int)
        requires
            0 <= n,
        ensures
            0 <= self.count_row(r, n) <= n,
        decreases n,
    {
        if n > 0 {
            self.lemma_count_row_bounds(r, n - 1);
        }
    }

    /// Later prefixes hold at least as many entries of a row.
    pub proof fn lemma_count_row_mono(&self, r: int, m: int, n: int)
        requires
            0 <= m <= n,
        ensures
            self.count_row(r, m) <= self.count_row(r, n),
        decreases n - m,
    {
        if m < n {
            self.lemma_count_row_mono(r, m, n - 1);
        }
    }

    proof fn lemma_count_lt_bounds(&self, r: int, n: int)
        requires
            0 <= n,
        ensures
            0 <= self.count_lt(r, n) <= n,
            r <= 0 ==> self.count_lt(r, n) == 0,
        decreases n,
    {
        if n > 0 {
            self.lemma_count_lt_bounds(r, n - 1);
        }
    }

    proof fn lemma_count_lt_step(&self, r: int, n: int)
        requires
            0 <= n,
        ensures
            self.count_lt(r + 1, n) == self.count_lt(r, n) + self.count_row(r, n),
        decreases n,
    {
        if n > 0 {
            self.lemma_count_lt_step(r, n - 1);
        }
    }

    proof fn lemma_count_lt_mono(&self, a: int, b: int, n: int)
        requires
            0 <= n,
            a <= b,
        ensures
            self.count_lt(a, n) <= self.count_lt(b, n),
        decreases n,
    {
        if n > 0 {
            self.lemma_count_lt_mono(a, b, n - 1);
        }
    }

    /// When every row is below `r`, all entries lie in rows before `r`.
    proof fn lemma_count_lt_all(&self, r: int, n: int)
        requires
            0 <= n <= self.data.i@.len(),
            forall|k: int| 0 <= k < n ==> #[trigger] self.row(k) < r,
        ensures
            self.count_lt(r, n) == n,
        decreases n,
    {
        if n > 0 {
            self.lemma_count_lt_all(r, n - 1);
        }
    }

    /// Transposition sends each entry to a position in range.
    pub proof fn lemma_t_slot_bound(&self, k: int)
        requires
            self.wf(),
            0 <= k < self.nnz(),
        ensures
            0 <= self.t_slot(k) < self.nnz(),
    {
        let r = self.row(k);
        self.lemma_count_lt_bounds(r, self.nnz());
        self.lemma_count_row_bounds(r, k);
        self.lemma_count_row_mono(r, k + 1, self.nnz());
        self.lemma_count_lt_step(r, self.nnz());
        self.lemma_count_lt_mono(r + 1, self.nrows(), self.nnz());
        self.lemma_count_lt_all(self.nrows(), self.nnz());
    }

    /// Transposition sends distinct entries to distinct positions.
    pub proof fn lemma_t_slot_injective(&self, k1: int, k2: int)
        requires
            self.wf(),
            0 <= k1 < k2 < self.nnz(),
        ensures
            self.t_slot(k1) != self.t_slot(k2),
    {
        let r1 = self.row(k1);
        let r2 = self.row(k2);
        self.lemma_count_row_mono(r1, k1 + 1, k2);
        self.lemma_count_row_mono(r1, k1 + 1, self.nnz());
        self.lemma_count_row_mono(r2, k2 + 1, self.nnz());
        self.lemma_count_lt_step(r1, self.nnz());
        self.lemma_count_lt_step(r2, self.nnz());
        self.lemma_count_row_bounds(r1, k1);
        self.lemma_count_row_bounds(r2, k2);
        if r1 < r2 {
            self.lemma_count_lt_mono(r1 + 1, r2, self.nnz());
        } else if r2 < r1 {
            self.lemma_count_lt_mono(r2 + 1, r1, self.nnz());
        }
    }

    /// In the transpose, the entry taken from position `k` lies in column `row(k)`.
    pub proof fn lemma_t_slot_in_column(&self, res: CsMatrix, k: int)
        requires
            self.wf(),
            self.is_transpose(res),
            0 <= k < self.nnz(),
        ensures
            res.start(self.row(k)) <= self.t_slot(k) < res.end(self.row(k)),
    {
        let r = self.row(k);
        assert(r < self.nrows());
        self.lemma_count_row_bounds(r, k);
        self.lemma_count_row_mono(r, k + 1, self.nnz());
        self.lemma_count_lt_step(r, self.nnz());
        self.lemma_count_lt_mono(r + 1, self.nrows(), self.nnz());
        self.lemma_count_lt_all(self.nrows(), self.nnz());
        if r + 1 < res.ncols() {
            assert(res.start(r + 1) == self.count_lt(r + 1, self.nnz()));
        }
    }

    /// The sum of the row counts before `r` is the number of entries in rows before `r`.
    proof fn lemma_prefix_counts(&self, counts: Seq<usize>, r: int)
        requires
            0 <= r <= counts.len(),
            forall|t: int| 0 <= t < counts.len() ==> #[trigger] counts[t] == self.count_row(t, self.nnz()),
        ensures
            prefix_sum(counts, r) == self.count_lt(r, self.nnz()),
        decreases r,
    {
        if r == 0 {
            self.lemma_count_lt_bounds(0, self.nnz());
        } else {
            self.lemma_prefix_counts(counts, r - 1);
            self.lemma_count_lt_step(r - 1, self.nnz());
        }
    }
}

impl CsMatrix {
    /// `res` is the transpose of `self`: its shape is swapped, each output column
    /// `r` starts after the entries of the rows before `r`, and the entry at each
    /// position `k` of `self` sits, row and column swapped, at `t_slot(k)`.
    pub open spec fn is_transpose(&self, res: CsMatrix) -> bool {
        &&& res.wf()
        &&& res.nrows() == self.ncols()
        &&& res.ncols() == self.nrows()
        &&& res.nnz() == self.nnz()
        &&& forall|r: int| 0 <= r < self.nrows() ==> #[trigger] res.start(r) == self.count_lt(r, self.nnz())
        &&& forall|j: int, k: int|
            0 <= j < self.ncols() && self.start(j) <= k < self.end(j) ==> #[trigger] self.placed(&res, j, k)
    }

    /// `m` is the sum of `self` and `rhs`: each column stores, once and in increasing
    /// order, every row that either operand stores there, and a row's value is the
    /// sum of the operands'.
    pub open spec fn is_sum(&self, rhs: &CsMatrix, m: CsMatrix) -> bool {
        &&& m.wf()
        &&& m.no_dup()
        &&& m.sorted()
        &&& m.nrows() == self.nrows()
        &&& m.ncols() == self.ncols()
        &&& forall|j: int, r: int|
            0 <= j < m.ncols() && 0 <= r < m.nrows() ==> (#[trigger] m.has(j, r) <==> self.has(j, r) || rhs.has(
                j,
                r,
            ))
        &&& forall|j: int, r: int|
            0 <= j < m.ncols() && 0 <= r < m.nrows() ==> #[trigger] m.col_sum(j, r) == reduce(
                self.col_sum(j, r) + rhs.col_sum(j, r),
            )
    }

    /// `m` is the product of `self` and `rhs`: column `j` stores, once and in
    /// increasing order, each row that some column of `self` named by `rhs`'s
    /// column `j` stores, and a row's value is the sum of those columns' values
    /// scaled by `rhs`'s.
    pub open spec fn is_product(&self, rhs: &CsMatrix, m: CsMatrix) -> bool {
        &&& m.wf()
        &&& m.no_dup()
        &&& m.sorted()
        &&& m.nrows() == self.nrows()
        &&& m.ncols() == rhs.ncols()
        &&& forall|j: int, r: int|
            0 <= j < m.ncols() && 0 <= r < m.nrows() ==> (#[trigger] m.has(j, r) <==> self.mul_has_range(
                rhs,
                j,
                r,
                rhs.end(j),
            ))
        &&& forall|j: int, r: int|
            0 <= j < m.ncols() && 0 <= r < m.nrows() ==> #[trigger] m.col_sum(j, r) == reduce(
                self.mul_sum_range(rhs, j, r, rhs.end(j)),
            )
    }
}

impl CsMatrix {
    /// The transpose: entry `(r, j, v)` becomes `(j, r, v)`. Each output column
    /// `r` starts after the entries of the rows before `r`, and the entries of one
    /// row keep their stored order, so that output rows ascend within a column.
    pub fn transpose(&self) -> (res: CsMatrix)
        requires
            self.wf(),
        ensures
            self.is_transpose(res),
            self.no_dup() ==> res.sorted(),
    {
        let (nrows, ncols) = self.data.shape();
        let nvals = self.nvalues();
        let mut res = CsMatrix::new_uninitialized_generic(ncols, nrows, nvals);
        let mut workspace: Vec<usize> = vec![0usize; nrows];

        // Count the entries of each row.
        let mut k: usize = 0;
        while k < nvals
            invariant
                self.wf(),
                nvals == self.nnz(),
                nrows == self.nrows(),
                0 <= k <= nvals,
                workspace@.len() == nrows,
                forall|r: int| 0 <= r < nrows ==> #[trigger] workspace@[r] == self.count_row(r, k as int),
            decreases nvals - k,
        {
            let row_id = self.data.row_index(k);
            proof {
                assert(self.row(k as int) < self.nrows());
                self.lemma_count_row_bounds(row_id as int, k as int);
            }
            let c = workspace[row_id];
            workspace.set(row_id, c + 1);
            k = k + 1;
        }
        proof {
            self.lemma_prefix_counts(workspace@, nrows as int);
            self.lemma_count_lt_bounds(nrows as int, nvals as int);
        }
        let ghost counts = workspace@;
        let _ = cumsum(&mut workspace, &mut res.data.p);
        proof {
            assert forall|r: int| 0 <= r < nrows implies #[trigger] res.start(r) == self.count_lt(r, self.nnz()) by {
                self.lemma_prefix_counts(counts, r);
            }
            assert forall|r: int| 0 <= r < nrows implies #[trigger] workspace@[r] == self.count_lt(r, self.nnz()) + self.count_row(
                r,
                if 0 < ncols { self.start(0) } else { self.nnz() },
            ) by {
                assert(workspace@[r] == res.data.p@[r]);
                assert(res.start(r) == self.count_lt(r, self.nnz()));
                assert(self.count_row(r, 0) == 0);
                if ncols > 0 {
                    assert(self.start(0) == 0);
                } else {
                    assert(self.nnz() == 0);
                }
            }
        }

        // Place each entry at the next free position of its output column.
        let mut j: usize = 0;
        while j < ncols
            invariant
                self.wf(),
                nvals == self.nnz(),
                nrows == self.nrows(),
                ncols == self.ncols(),
                0 <= j <= ncols,
                res.nrows() == ncols,
                res.ncols() == nrows,
                res.nnz() == nvals,
                res.data.p@.len() == nrows,
                res.data.i@.len() == nvals,
                forall|r: int| 0 <= r < nrows ==> #[trigger] res.start(r) == self.count_lt(r, self.nnz()),
                forall|t: int| 0 <= t < nvals ==> #[trigger] res.row(t) < ncols,
                workspace@.len() == nrows,
                forall|r: int|
                    0 <= r < nrows ==> #[trigger] workspace@[r] == self.count_lt(r, self.nnz()) + self.count_row(
                        r,
                        if j < ncols { self.start(j as int) } else { self.nnz() },
                    ),
                forall|j2: int, k2: int|
                    0 <= j2 < j && self.start(j2) <= k2 < self.end(j2) ==> #[trigger] self.placed(&res, j2, k2),
            decreases ncols - j,
        {
            let column_idx = self.data.column_range(j);
            let mut vi: usize = column_idx.start;
            proof {
                if j + 1 < ncols {
                    assert(self.start(j as int) <= self.start(j + 1));
                }
            }
            while vi < column_idx.end
                invariant
                    self.wf(),
                    nvals == self.nnz(),
                    nrows == self.nrows(),
                    ncols == self.ncols(),
                    0 <= j < ncols,
                    column_idx.start == self.start(j as int),
                    column_idx.end == self.end(j as int),
                    self.start(j as int) <= vi <= self.end(j as int) <= nvals,
                    res.nrows() == ncols,
                    res.ncols() == nrows,
                    res.nnz() == nvals,
                    res.data.p@.len() == nrows,
                    res.data.i@.len() == nvals,
                    forall|r: int| 0 <= r < nrows ==> #[trigger] res.start(r) == self.count_lt(r, self.nnz()),
                    forall|t: int| 0 <= t < nvals ==> #[trigger] res.row(t) < ncols,
                    workspace@.len() == nrows,
                    forall|r: int|
                        0 <= r < nrows ==> #[trigger] workspace@[r] == self.count_lt(r, self.nnz())
                            + self.count_row(r, vi as int),
                    forall|j2: int, k2: int|
                        0 <= j2 < j && self.start(j2) <= k2 < self.end(j2) ==> #[trigger] self.placed(&res, j2, k2),
                    forall|k2: int| self.start(j as int) <= k2 < vi ==> #[trigger] self.placed(&res, j as int, k2),
                decreases column_idx.end - vi,
            {
                let row_id = self.data.row_index(vi);
                proof {
                    assert(self.row(vi as int) < self.nrows());
                    self.lemma_t_slot_bound(vi as int);
                }
                let shift = workspace[row_id];
                let v = *self.data.get_value(vi);
                let ghost res0 = res;
                assert(shift == self.t_slot(vi as int));
                res.data.vals.set(shift, v);
                res.data.i.set(shift, j);
                workspace.set(row_id, shift + 1);
                proof {
                    assert(self.placed(&res, j as int, vi as int));
                    assert forall|r: int| 0 <= r < nrows implies #[trigger] res.start(r) == self.count_lt(r, self.nnz()) by {
                        assert(res0.start(r) == self.count_lt(r, self.nnz()));
                    }
                    assert forall|t: int| 0 <= t < nvals implies #[trigger] res.row(t) < ncols by {
                        if t != shift {
                            assert(res0.row(t) < ncols);
                        }
                    }
                    assert forall|j2: int, k2: int|
                        0 <= j2 < j && self.start(j2) <= k2 < self.end(j2) implies #[trigger] self.placed(&res, j2, k2) by {
                        assert(self.placed(&res0, j2, k2));
                        assert(self.end(j2) <= self.start(j as int)) by {
                            if j2 + 1 < j {
                                assert(self.start(j2 + 1) <= self.start(j as int));
                            }
                        }
                        self.lemma_t_slot_injective(k2, vi as int);
                        self.lemma_t_slot_bound(k2);
                    }
                    assert forall|k2: int| self.start(j as int) <= k2 < vi + 1 implies #[trigger] self.placed(&res, j as int, k2) by {
                        if k2 < vi {
                            assert(self.placed(&res0, j as int, k2));
                            self.lemma_t_slot_injective(k2, vi as int);
                            self.lemma_t_slot_bound(k2);
                        }
                    }
                }
                vi = vi + 1;
            }
            j = j + 1;
        }
        proof {
            if nrows > 0 {
                self.lemma_count_lt_bounds(0, nvals as int);
                self.lemma_count_lt_bounds(nrows - 1, nvals as int);
                assert forall|r1: int, r2: int| 0 <= r1 <= r2 < res.ncols() implies #[trigger] res.start(r1) <= #[trigger] res.start(r2) by {
                    self.lemma_count_lt_mono(r1, r2, nvals as int);
                }
            } else if nvals > 0 {
                assert(self.row(0) < self.nrows());
            }
            if self.no_dup() {
                crate::laws::lemma_transpose_sorted(*self, res);
            }
        }
        res
    }
}

/// No stamp is past `epoch`.
pub open spec fn stamps_below(ts: Seq<usize>, epoch: int) -> bool {
    forall|r: int| 0 <= r < ts.len() ==> #[trigger] ts[r] <= epoch
}

/// Positions `cs .. nz` of `rows` hold distinct rows, which are exactly the rows
/// whose stamp in `ts` is `epoch`.
pub open spec fn recorded(rows: Seq<usize>, ts: Seq<usize>, epoch: int, cs: int, nz: int) -> bool {
    &&& 0 <= cs <= nz <= rows.len()
    &&& forall|k1: int, k2: int|
        cs <= k1 < nz && cs <= k2 < nz && k1 != k2 ==> #[trigger] rows[k1] != #[trigger] rows[k2]
    &&& forall|k: int| cs <= k < nz ==> #[trigger] rows[k] < ts.len() && ts[rows[k] as int] == epoch
    &&& forall|r: int|
        0 <= r < ts.len() && #[trigger] ts[r] == epoch ==> exists|k: int| cs <= k < nz && #[trigger] rows[k] == r
}

/// A sequence of distinct values below `n` has at most `n` elements.
proof fn lemma_distinct_bound(s: Seq<usize>, n: int)
    requires
        0 <= n,
        forall|k1: int, k2: int|
            0 <= k1 < s.len() && 0 <= k2 < s.len() && k1 != k2 ==> #[trigger] s[k1] != #[trigger] s[k2],
        forall|k: int| 0 <= k < s.len() ==> #[trigger] s[k] < n,
    ensures
        s.len() <= n,
{
    let t = s.map_values(|x: usize| x as int);
    assert(t.no_duplicates()) by {
        assert forall|k1: int, k2: int| 0 <= k1 < t.len() && 0 <= k2 < t.len() && k1 != k2 implies t[k1] != t[k2] by {
            assert(s[k1] != s[k2]);
        }
    }
    t.unique_seq_to_set();
    lemma_int_range(0, n);
    assert(t.to_set().subset_of(set_int_range(0, n))) by {
        assert forall|x: int| t.to_set().contains(x) implies set_int_range(0, n).contains(x) by {
            let k = choose|k: int| 0 <= k < t.len() && t[k] == x;
            assert(s[k] < n);
        }
    }
    lemma_len_subset(t.to_set(), set_int_range(0, n));
}

impl CsMatrix {
    /// A row that no position of `lo .. hi` stores sums to zero there.
    pub proof fn lemma_sum_absent(&self, r: int, lo: int, hi: int)
        requires
            !self.has_range(r, lo, hi),
        ensures
            self.sum_range(r, lo, hi) == 0,
        decreases hi - lo,
    {
        if hi > lo {
            assert(self.row(hi - 1) != r);
            assert(!self.has_range(r, lo, hi - 1)) by {
                if self.has_range(r, lo, hi - 1) {
                    let k = choose|k: int| lo <= k < hi - 1 && #[trigger] self.row(k) == r;
                    assert(lo <= k < hi && self.row(k) == r);
                }
            }
            self.lemma_sum_absent(r, lo, hi - 1);
        }
    }

    /// Position `p` is the first position from `lo` on that stores row `r`.
    pub open spec fn first_at(&self, r: int, lo: int, p: int) -> bool {
        &&& lo <= p
        &&& self.row(p) == r
        &&& !self.has_range(r, lo, p)
    }

    /// Adds `beta` times column `j` into the dense workspace. Each row of the
    /// column not yet stamped with `timestamp` is stamped and appended to `res`'s
    /// row indices at `nz, nz + 1, ...`, in the order first met in the column, and
    /// starts from zero; a row already stamped accumulates. Rows the column does
    /// not store are left alone. Returns the next free position.
    ///
    /// Room is owed either for one new row per entry of the column, or, where
    /// positions `cs .. nz` record exactly the stamped rows, for one per matrix row.
    fn scatter(
        &self,
        j: usize,
        beta: u64,
        timestamps: &mut Vec<usize>,
        timestamp: usize,
        workspace: &mut Vec<u64>,
        nz: usize,
        res: &mut CsMatrix,
        Ghost(cs): Ghost<int>,
    ) -> (nz2: usize)
        requires
            self.wf(),
            j < self.ncols(),
            forall|k: int|
                self.start(j as int) <= k < self.end(j as int) ==> #[trigger] self.row(k) < old(timestamps)@.len()
                    && self.row(k) < old(workspace)@.len(),
            nz <= old(res).data.i@.len(),
            nz + (self.end(j as int) - self.start(j as int)) <= old(res).data.i@.len() || (recorded(
                old(res).data.i@,
                old(timestamps)@,
                timestamp as int,
                cs,
                nz as int,
            ) && cs + old(timestamps)@.len() <= old(res).data.i@.len()),
        ensures
            final(res).data.nrows == old(res).data.nrows,
            final(res).data.ncols == old(res).data.ncols,
            final(res).data.p@ == old(res).data.p@,
            final(res).data.vals@ == old(res).data.vals@,
            final(res).data.i@.len() == old(res).data.i@.len(),
            forall|k: int| 0 <= k < nz ==> #[trigger] final(res).data.i@[k] == old(res).data.i@[k],
            forall|k: int|
                nz2 <= k < old(res).data.i@.len() ==> #[trigger] final(res).data.i@[k] == old(res).data.i@[k],
            nz <= nz2 <= nz + (self.end(j as int) - self.start(j as int)),
            final(timestamps)@.len() == old(timestamps)@.len(),
            final(workspace)@.len() == old(workspace)@.len(),
            // The rows appended: distinct rows of the column that were not stamped...
            forall|k: int|
                nz <= k < nz2 ==> 0 <= #[trigger] final(res).data.i@[k] < self.nrows() && self.has(
                    j as int,
                    final(res).data.i@[k] as int,
                ) && old(timestamps)@[final(res).data.i@[k] as int] < timestamp,
            forall|k1: int, k2: int|
                nz <= k1 < nz2 && nz <= k2 < nz2 && k1 != k2 ==> #[trigger] final(res).data.i@[k1]
                    != #[trigger] final(res).data.i@[k2],
            // ... all of them...
            forall|r: int|
                0 <= r < self.nrows() && #[trigger] self.has(j as int, r) && old(timestamps)@[r] < timestamp
                    ==> exists|k: int| nz <= k < nz2 && #[trigger] final(res).data.i@[k] == r,
            // ... in the order first met.
            forall|k1: int, k2: int, p1: int, p2: int|
                nz <= k1 < k2 < nz2 && #[trigger] self.first_at(final(res).data.i@[k1] as int, self.start(j as int), p1)
                    && #[trigger] self.first_at(final(res).data.i@[k2] as int, self.start(j as int), p2) ==> p1 < p2,
            // Stamps and workspace change at the column's rows only.
            forall|r: int|
                0 <= r < old(timestamps)@.len() ==> #[trigger] final(timestamps)@[r] == if self.has(j as int, r)
                    && old(timestamps)@[r] < timestamp {
                    timestamp
                } else {
                    old(timestamps)@[r]
                },
            forall|r: int|
                0 <= r < old(workspace)@.len() ==> #[trigger] final(workspace)@[r] == if self.has(j as int, r) {
                    reduce(
                        (if old(timestamps)@[r] >= timestamp {
                            old(workspace)@[r] as int
                        } else {
                            0
                        }) + beta * self.col_sum(j as int, r),
                    ) as u64
                } else {
                    old(workspace)@[r]
                },
            // Where no stamp was past the epoch, the stamped rows are the column's rows
            // and those stamped before.
            stamps_below(old(timestamps)@, timestamp as int) ==> stamps_below(final(timestamps)@, timestamp as int),
            stamps_below(old(timestamps)@, timestamp as int) ==> forall|r: int|
                0 <= r < old(timestamps)@.len() ==> (#[trigger] final(timestamps)@[r] == timestamp <==> (
                old(timestamps)@[r] == timestamp || self.has(j as int, r))),
            stamps_below(old(timestamps)@, timestamp as int) ==> forall|r: int|
                0 <= r < self.nrows() && r < old(timestamps)@.len() && r < old(workspace)@.len()
                    && final(timestamps)@[r] == timestamp ==> #[trigger] final(workspace)@[r]
                    == reduce(
                    (if old(timestamps)@[r] == timestamp {
                        old(workspace)@[r] as int
                    } else {
                        0
                    }) + beta * self.col_sum(j as int, r),
                ),
            recorded(old(res).data.i@, old(timestamps)@, timestamp as int, cs, nz as int) ==> recorded(
                final(res).data.i@,
                final(timestamps)@,
                timestamp as int,
                cs,
                nz2 as int,
            ),
    {
        let ghost ts0 = timestamps@;
        let ghost ws0 = workspace@;
        let ghost res0 = *res;
        let ghost rec0 = recorded(res0.data.i@, ts0, timestamp as int, cs, nz as int);
        let column_idx = self.data.column_range(j);
        let ghost lo = column_idx.start as int;
        proof {
            if j + 1 < self.ncols() {
                assert(self.start(j as int) <= self.start(j + 1));
            }
        }
        let ghost nz0 = nz as int;
        let mut nz = nz;
        let mut vi: usize = column_idx.start;
        while vi < column_idx.end
            invariant
                self.wf(),
                j < self.ncols(),
                lo == self.start(j as int),
                column_idx.start == self.start(j as int),
                column_idx.end == self.end(j as int),
                self.start(j as int) <= vi <= self.end(j as int) <= self.nnz(),
                0 <= nz0 <= nz <= nz0 + (vi - lo),
                forall|k: int|
                    self.start(j as int) <= k < self.end(j as int) ==> #[trigger] self.row(k) < ts0.len() && self.row(k)
                        < ws0.len(),
                timestamps@.len() == ts0.len(),
                workspace@.len() == ws0.len(),
                res.data.nrows == res0.data.nrows,
                res.data.ncols == res0.data.ncols,
                res.data.p@ == res0.data.p@,
                res.data.vals@ == res0.data.vals@,
                res.data.i@.len() == res0.data.i@.len(),
                forall|k: int| 0 <= k < nz0 ==> #[trigger] res.data.i@[k] == res0.data.i@[k],
                forall|k: int| nz <= k < res0.data.i@.len() ==> #[trigger] res.data.i@[k] == res0.data.i@[k],
                nz <= res.data.i@.len(),
                nz + (self.end(j as int) - vi) <= res.data.i@.len() || (rec0 && cs + ts0.len()
                    <= res.data.i@.len()),
                rec0 == recorded(res0.data.i@, ts0, timestamp as int, cs, nz0),
                rec0 ==> recorded(res.data.i@, timestamps@, timestamp as int, cs, nz as int),
                forall|k: int|
                    nz0 <= k < nz ==> 0 <= #[trigger] res.data.i@[k] < self.nrows() && self.has_range(
                        res.data.i@[k] as int,
                        lo,
                        vi as int,
                    ) && ts0[res.data.i@[k] as int] < timestamp,
                forall|k1: int, k2: int|
                    nz0 <= k1 < nz && nz0 <= k2 < nz && k1 != k2 ==> #[trigger] res.data.i@[k1]
                        != #[trigger] res.data.i@[k2],
                forall|r: int|
                    0 <= r < self.nrows() && #[trigger] self.has_range(r, lo, vi as int) && ts0[r] < timestamp
                        ==> exists|k: int| nz0 <= k < nz && #[trigger] res.data.i@[k] == r,
                forall|k1: int, k2: int, p1: int, p2: int|
                    nz0 <= k1 < k2 < nz && #[trigger] self.first_at(res.data.i@[k1] as int, lo, p1)
                        && #[trigger] self.first_at(res.data.i@[k2] as int, lo, p2) ==> p1 < p2,
                forall|r: int|
                    0 <= r < ts0.len() ==> #[trigger] timestamps@[r] == if self.has_range(r, lo, vi as int) && ts0[r]
                        < timestamp {
                        timestamp
                    } else {
                        ts0[r]
                    },
                forall|r: int|
                    0 <= r < ws0.len() ==> #[trigger] workspace@[r] == if self.has_range(r, lo, vi as int) {
                        reduce(
                            (if ts0[r] >= timestamp {
                                ws0[r] as int
                            } else {
                                0
                            }) + beta * self.sum_range(r, lo, vi as int),
                        ) as u64
                    } else {
                        ws0[r]
                    },
            decreases column_idx.end - vi,
        {
            let i = self.data.row_index(vi);
            proof {
                assert(self.row(vi as int) < self.nrows());
                assert(self.row(vi as int) < ts0.len() && self.row(vi as int) < ws0.len());
            }
            let val = scalar_mul(beta, *self.data.get_value(vi));
            let ghost ts1 = timestamps@;
            let ghost ws1 = workspace@;
            let ghost rows1 = res.data.i@;
            let ghost nz1 = nz as int;
            let ghost nvi = vi + 1;
            let ghost v = self.val(vi as int);
            if timestamps[i] < timestamp {
                proof {
                    assert(!self.has_range(i as int, lo, vi as int));
                    self.lemma_sum_absent(i as int, lo, vi as int);
                    if !(nz + (self.end(j as int) - vi) <= res.data.i@.len()) {
                        let t = rows1.subrange(cs, nz1).push(i);
                        assert forall|k: int| 0 <= k < t.len() implies #[trigger] t[k] < ts0.len() by {
                            if k < t.len() - 1 {
                                assert(rows1[cs + k] < ts1.len());
                            }
                        }
                        assert forall|k1: int, k2: int|
                            0 <= k1 < t.len() && 0 <= k2 < t.len() && k1 != k2 implies #[trigger] t[k1] != #[trigger] t[k2] by {
                            if k1 < t.len() - 1 && k2 < t.len() - 1 {
                                assert(rows1[cs + k1] != rows1[cs + k2]);
                            } else if k1 < t.len() - 1 {
                                assert(ts1[rows1[cs + k1] as int] == timestamp);
                            } else {
                                assert(ts1[rows1[cs + k2] as int] == timestamp);
                            }
                        }
                        lemma_distinct_bound(t, ts0.len() as int);
                    }
                }
                let cap = res.data.i.len();
                assert(nz < cap);
                timestamps.set(i, timestamp);
                res.data.i.set(nz, i);
                nz = nz + 1;
                workspace.set(i, val);
                proof {
                    assert(beta * (0 + v) == beta * v) by (nonlinear_arith);
                    let rows2 = res.data.i@;
                    assert(rows2 == rows1.update(nz1, i));
                    assert(nz == nz1 + 1);
                    assert(nz1 < rows1.len());
                    assert(forall|k: int| 0 <= k < rows1.len() && k != nz1 ==> #[trigger] rows2[k] == rows1[k]);
                    // The new row is first met here; earlier ones were met before.
                    assert forall|k1: int, k2: int, p1: int, p2: int|
                        nz0 <= k1 < k2 < nz && #[trigger] self.first_at(rows2[k1] as int, lo, p1)
                            && #[trigger] self.first_at(rows2[k2] as int, lo, p2) implies p1 < p2 by {
                        assert(rows2[k1] == rows1[k1]);
                        if k2 == nz1 {
                            assert(rows2[k2] == i);
                            assert(self.has_range(rows1[k1] as int, lo, vi as int));
                            let q = choose|q: int| lo <= q < vi && #[trigger] self.row(q) == rows1[k1] as int;
                            if p1 >= vi {
                                assert(self.has_range(rows1[k1] as int, lo, p1));
                            }
                            if p2 < vi {
                                assert(self.has_range(i as int, lo, vi as int));
                            }
                            if p2 > vi {
                                assert(self.has_range(i as int, lo, p2));
                            }
                        } else {
                            assert(rows2[k2] == rows1[k2]);
                        }
                    }
                    assert forall|k1: int, k2: int|
                        nz0 <= k1 < nz && nz0 <= k2 < nz && k1 != k2 implies #[trigger] rows2[k1] != #[trigger] rows2[k2] by {
                        if k1 < nz1 && k2 < nz1 {
                            assert(rows1[k1] != rows1[k2]);
                        } else if k1 < nz1 {
                            assert(self.has_range(rows1[k1] as int, lo, vi as int));
                        } else if k2 < nz1 {
                            assert(self.has_range(rows1[k2] as int, lo, vi as int));
                        }
                    }
                    assert forall|r: int|
                        0 <= r < self.nrows() && #[trigger] self.has_range(r, lo, nvi) && ts0[r] < timestamp implies exists|k: int|
                            nz0 <= k < nz && #[trigger] rows2[k] == r by {
                        if r == i {
                            assert(rows2[nz1] == r);
                        } else {
                            let q = choose|q: int| lo <= q < nvi && #[trigger] self.row(q) == r;
                            assert(self.has_range(r, lo, vi as int));
                            let k = choose|k: int| nz0 <= k < nz1 && #[trigger] rows1[k] == r;
                            assert(rows2[k] == r);
                        }
                    }
                    if rec0 {
                        assert forall|r: int|
                            0 <= r < timestamps@.len() && #[trigger] timestamps@[r] == timestamp implies exists|k: int|
                                cs <= k < nz && #[trigger] rows2[k] == r by {
                            if r == i {
                                assert(rows2[nz1] == r);
                            } else {
                                assert(ts1[r] == timestamp);
                                let k = choose|k: int| cs <= k < nz1 && #[trigger] rows1[k] == r;
                                assert(rows2[k] == r);
                            }
                        }
                        assert forall|k1: int, k2: int|
                            cs <= k1 < nz && cs <= k2 < nz && k1 != k2 implies #[trigger] rows2[k1] != #[trigger] rows2[k2] by {
                            if k1 < nz1 && k2 < nz1 {
                                assert(rows1[k1] != rows1[k2]);
                            } else if k1 < nz1 {
                                assert(ts1[rows1[k1] as int] == timestamp);
                            } else if k2 < nz1 {
                                assert(ts1[rows1[k2] as int] == timestamp);
                            }
                        }
                        assert forall|k: int| cs <= k < nz implies #[trigger] rows2[k] < timestamps@.len() && timestamps@[rows2[k] as int] == timestamp by {
                            if k < nz1 {
                                assert(rows1[k] < ts1.len() && ts1[rows1[k] as int] == timestamp);
                            }
                        }
                    }
                }
            } else {
                let w = workspace[i];
                workspace.set(i, scalar_add(w, val));
                proof {
                    let base = if ts0[i as int] >= timestamp { ws0[i as int] as int } else { 0 };
                    let sum = self.sum_range(i as int, lo, vi as int);
                    if self.has_range(i as int, lo, vi as int) {
                        lemma_reduce_add(base + beta * sum, beta * v);
                    } else {
                        self.lemma_sum_absent(i as int, lo, vi as int);
                        lemma_reduce_add(ws0[i as int] as int, beta * v);
                        lemma_reduce_scalar(ws0[i as int]);
                    }
                    assert(base + beta * sum + beta * v == base + beta * (sum + v)) by (nonlinear_arith);
                    let rows2 = res.data.i@;
                    assert(rows2 == rows1);
                    if rec0 {
                        assert forall|r: int|
                            0 <= r < timestamps@.len() && #[trigger] timestamps@[r] == timestamp implies exists|k: int|
                                cs <= k < nz && #[trigger] rows2[k] == r by {
                            assert(ts1[r] == timestamp);
                        }
                    }
                    assert forall|r: int|
                        0 <= r < self.nrows() && #[trigger] self.has_range(r, lo, nvi) && ts0[r] < timestamp implies exists|k: int|
                            nz0 <= k < nz && #[trigger] rows2[k] == r by {
                        if r == i {
                            assert(self.has_range(r, lo, vi as int));
                        } else {
                            let q = choose|q: int| lo <= q < nvi && #[trigger] self.row(q) == r;
                            assert(self.has_range(r, lo, vi as int));
                        }
                    }
                }
            }
            proof {
                let rows2 = res.data.i@;
                assert forall|r: int| #![auto] r != i ==> (self.has_range(r, lo, nvi) == self.has_range(r, lo, vi as int)) by {
                    if r != i && self.has_range(r, lo, nvi) {
                        let q = choose|q: int| lo <= q < nvi && #[trigger] self.row(q) == r;
                        assert(self.has_range(r, lo, vi as int));
                    }
                    if self.has_range(r, lo, vi as int) {
                        let q = choose|q: int| lo <= q < vi && #[trigger] self.row(q) == r;
                        assert(self.has_range(r, lo, nvi));
                    }
                }
                assert(self.has_range(i as int, lo, nvi));
                assert forall|k: int| nz0 <= k < nz implies 0 <= #[trigger] rows2[k] < self.nrows() && self.has_range(
                    rows2[k] as int,
                    lo,
                    nvi,
                ) && ts0[rows2[k] as int] < timestamp by {
                    if k < nz1 {
                        assert(rows2[k] == rows1[k]);
                    }
                }
                assert forall|r: int|
                    0 <= r < ts0.len() implies #[trigger] timestamps@[r] == if self.has_range(r, lo, nvi) && ts0[r]
                        < timestamp {
                        timestamp
                    } else {
                        ts0[r]
                    } by {
                    if r != i {
                        assert(ts1[r] == timestamps@[r]);
                    }
                }
                assert forall|r: int|
                    0 <= r < ws0.len() implies #[trigger] workspace@[r] == if self.has_range(r, lo, nvi) {
                        reduce(
                            (if ts0[r] >= timestamp {
                                ws0[r] as int
                            } else {
                                0
                            }) + beta * self.sum_range(r, lo, nvi),
                        ) as u64
                    } else {
                        ws0[r]
                    } by {
                    if r != i {
                        assert(ws1[r] == workspace@[r]);
                        assert(self.sum_range(r, lo, nvi) == self.sum_range(r, lo, vi as int));
                    }
                }
            }
            vi = vi + 1;
        }
        proof {
            if stamps_below(ts0, timestamp as int) {
            assert forall|r: int|
                0 <= r < self.nrows() && r < ts0.len() && r < ws0.len() && timestamps@[r] == timestamp implies #[trigger] workspace@[r] == reduce(
                    (if ts0[r] == timestamp {
                        ws0[r] as int
                    } else {
                        0
                    }) + beta * self.col_sum(j as int, r),
                ) by {
                if !self.has(j as int, r) {
                    self.lemma_sum_absent(r, lo, vi as int);
                    lemma_reduce_scalar(ws0[r]);
                    assert(beta * 0 == 0) by (nonlinear_arith);
                }
            }
            }
        }
        nz
    }
}

/// Why an operation on two matrices was refused.
#[derive(Clone, Copy, Debug, PartialEq, Eq)]
pub enum CsError {
    /// The operands of a sum differ in shape.
    ShapeMismatch,
    /// The left factor's column count differs from the right factor's row count.
    DimensionMismatch,
}

/// Positions `lo .. hi` of `res` hold one entry for each row `r < nrows` with
/// `has(r)`, and nothing else, and that entry's value is `val(r)`.
pub open spec fn col_matches(
    res: CsMatrix,
    lo: int,
    hi: int,
    nrows: int,
    has: spec_fn(int) -> bool,
    val: spec_fn(int) -> int,
) -> bool {
    &&& res.distinct_rows(lo, hi)
    &&& forall|k: int|
        lo <= k < hi ==> 0 <= #[trigger] res.row(k) < nrows && has(res.row(k)) && res.val(k) == val(res.row(k))
    &&& forall|r: int| 0 <= r < nrows && #[trigger] has(r) ==> res.has_range(r, lo, hi)
}

/// `col_matches` reads only the positions `lo .. hi`.
pub(crate) proof fn lemma_col_matches_frame(
    res: CsMatrix,
    res2: CsMatrix,
    lo: int,
    hi: int,
    nrows: int,
    has: spec_fn(int) -> bool,
    val: spec_fn(int) -> int,
)
    requires
        col_matches(res, lo, hi, nrows, has, val),
        0 <= lo,
        hi <= res.data.i@.len(),
        hi <= res.data.vals@.len(),
        hi <= res2.data.i@.len(),
        hi <= res2.data.vals@.len(),
        forall|k: int| lo <= k < hi ==> #[trigger] res2.data.i@[k] == res.data.i@[k],
        forall|k: int| lo <= k < hi ==> #[trigger] res2.data.vals@[k] == res.data.vals@[k],
    ensures
        col_matches(res2, lo, hi, nrows, has, val),
{
    assert forall|k1: int, k2: int| lo <= k1 < hi && lo <= k2 < hi && k1 != k2 implies #[trigger] res2.row(k1)
        != #[trigger] res2.row(k2) by {
        assert(res.row(k1) != res.row(k2));
        assert(res2.data.i@[k1] == res.data.i@[k1]);
        assert(res2.data.i@[k2] == res.data.i@[k2]);
    }
    assert forall|k: int| lo <= k < hi implies 0 <= #[trigger] res2.row(k) < nrows && has(res2.row(k)) && res2.val(k)
        == val(res2.row(k)) by {
        assert(res2.data.i@[k] == res.data.i@[k]);
        assert(res2.data.vals@[k] == res.data.vals@[k]);
        assert(0 <= res.row(k) < nrows);
    }
    assert forall|r: int| 0 <= r < nrows && #[trigger] has(r) implies res2.has_range(r, lo, hi) by {
        assert(res.has_range(r, lo, hi));
        let k = choose|k: int| lo <= k < hi && #[trigger] res.row(k) == r;
        assert(res2.data.i@[k] == res.data.i@[k]);
        assert(res2.row(k) == r);
    }
}

impl CsMatrix {
    /// In a range of distinct rows, a row's sum is the value stored for it.
    pub(crate) proof fn lemma_sum_distinct(&self, r: int, lo: int, hi: int, k: int)
        requires
            self.distinct_rows(lo, hi),
            lo <= k < hi,
            self.row(k) == r,
        ensures
            self.sum_range(r, lo, hi) == self.val(k),
        decreases hi - lo,
    {
        if k < hi - 1 {
            assert(self.row(hi - 1) != r);
            self.lemma_sum_distinct(r, lo, hi - 1, k);
        } else {
            assert(!self.has_range(r, lo, hi - 1)) by {
                if self.has_range(r, lo, hi - 1) {
                    let k2 = choose|k2: int| lo <= k2 < hi - 1 && #[trigger] self.row(k2) == r;
                    assert(self.row(k2) != self.row(k));
                }
            }
            self.lemma_sum_absent(r, lo, hi - 1);
        }
    }

    /// A column that matches its target: it stores exactly the rows the target
    /// has, and each row's sum is the target's value, or zero where it has none.
    pub(crate) proof fn lemma_col_matches_sums(
        &self,
        j: int,
        has: spec_fn(int) -> bool,
        val: spec_fn(int) -> int,
        r: int,
    )
        requires
            0 <= j < self.ncols(),
            col_matches(*self, self.start(j), self.end(j), self.nrows(), has, val),
            0 <= r < self.nrows(),
        ensures
            self.has(j, r) == has(r),
            self.col_sum(j, r) == if has(r) {
                val(r)
            } else {
                0
            },
    {
        if has(r) {
            assert(self.has_range(r, self.start(j), self.end(j)));
            let k = choose|k: int| self.start(j) <= k < self.end(j) && #[trigger] self.row(k) == r;
            self.lemma_sum_distinct(r, self.start(j), self.end(j), k);
        } else {
            if self.has(j, r) {
                let k = choose|k: int| self.start(j) <= k < self.end(j) && #[trigger] self.row(k) == r;
                assert(has(self.row(k)));
            }
            self.lemma_sum_absent(r, self.start(j), self.end(j));
        }
    }

    /// Number of positions consumed once columns `0 .. j` are done.
    pub open spec fn done(&self, j: int) -> int {
        if j < self.ncols() {
            self.start(j)
        } else {
            self.nnz()
        }
    }

    proof fn lemma_done(&self, j: int)
        requires
            self.wf(),
            0 <= j < self.ncols(),
        ensures
            0 <= self.done(j) <= self.end(j) == self.done(j + 1) <= self.nnz(),
            self.done(0) == 0,
    {
        if j + 1 < self.ncols() {
            assert(self.start(j) <= self.start(j + 1));
            assert(self.start(j + 1) <= self.start(self.ncols() - 1));
        }
        assert(self.start(0) <= self.start(j));
    }
}

/// End of column `j1` while columns `0 .. j` are filled and `nz` positions used.
pub open spec fn part_end(res: CsMatrix, j1: int, j: int, nz: int) -> int {
    if j1 + 1 < j {
        res.start(j1 + 1)
    } else {
        nz
    }
}

/// Relies on `Vec::shrink_to_fit`: it releases spare capacity and keeps the elements.
#[verifier::external_body]
fn shrink_to_fit<T>(v: &mut Vec<T>)
    ensures
        final(v)@ == old(v)@,
{
    v.shrink_to_fit();
}

/// Swapping two recorded positions keeps them a record of the stamped rows.
proof fn lemma_recorded_swap(rows: Seq<usize>, ts: Seq<usize>, epoch: int, cs: int, nz: int, a: int, b: int)
    requires
        recorded(rows, ts, epoch, cs, nz),
        cs <= a < nz,
        cs <= b < nz,
    ensures
        recorded(rows.update(a, rows[b]).update(b, rows[a]), ts, epoch, cs, nz),
{
    let w = rows.update(a, rows[b]).update(b, rows[a]);
    assert forall|k: int| cs <= k < nz implies #[trigger] w[k] == rows[if k == a { b } else if k == b { a } else { k }] by {}
    assert forall|k1: int, k2: int| cs <= k1 < nz && cs <= k2 < nz && k1 != k2 implies #[trigger] w[k1] != #[trigger] w[k2] by {
        let s1 = if k1 == a { b } else if k1 == b { a } else { k1 };
        let s2 = if k2 == a { b } else if k2 == b { a } else { k2 };
        assert(w[k1] == rows[s1] && w[k2] == rows[s2]);
        assert(rows[s1] != rows[s2]);
    }
    assert forall|k: int| cs <= k < nz implies #[trigger] w[k] < ts.len() && ts[w[k] as int] == epoch by {
        let s1 = if k == a { b } else if k == b { a } else { k };
        assert(w[k] == rows[s1]);
        assert(rows[s1] < ts.len());
    }
    assert forall|r: int| 0 <= r < ts.len() && #[trigger] ts[r] == epoch implies exists|k: int| cs <= k < nz && #[trigger] w[k] == r by {
        let k = choose|k: int| cs <= k < nz && #[trigger] rows[k] == r;
        let d = if k == a { b } else if k == b { a } else { k };
        assert(w[d] == rows[k]);
    }
}

/// Sorts the recorded positions `cs .. nz` into increasing row order, by selection.
fn sort_recorded(rows: &mut Vec<usize>, cs: usize, nz: usize, Ghost(ts): Ghost<Seq<usize>>, Ghost(epoch): Ghost<int>)
    requires
        recorded(old(rows)@, ts, epoch, cs as int, nz as int),
    ensures
        final(rows)@.len() == old(rows)@.len(),
        forall|k: int| 0 <= k < final(rows)@.len() && !(cs <= k < nz) ==> #[trigger] final(rows)@[k] == old(rows)@[k],
        recorded(final(rows)@, ts, epoch, cs as int, nz as int),
        forall|k1: int, k2: int| cs <= k1 < k2 < nz ==> #[trigger] final(rows)@[k1] < #[trigger] final(rows)@[k2],
{
    let ghost r0 = rows@;
    let mut q: usize = cs;
    while q < nz
        invariant
            cs <= q <= nz <= rows@.len(),
            rows@.len() == r0.len(),
            forall|k: int| 0 <= k < rows@.len() && !(cs <= k < nz) ==> #[trigger] rows@[k] == r0[k],
            recorded(rows@, ts, epoch, cs as int, nz as int),
            forall|k1: int, k2: int| cs <= k1 < k2 < q ==> #[trigger] rows@[k1] < #[trigger] rows@[k2],
            forall|k1: int, k2: int| cs <= k1 < q <= k2 < nz ==> #[trigger] rows@[k1] < #[trigger] rows@[k2],
        decreases nz - q,
    {
        let mut m: usize = q;
        let mut t: usize = q + 1;
        while t < nz
            invariant
                cs <= q <= m < t <= nz <= rows@.len(),
                forall|u: int| q <= u < t ==> rows@[m as int] <= #[trigger] rows@[u],
            decreases nz - t,
        {
            if rows[t] < rows[m] {
                m = t;
            }
            t = t + 1;
        }
        let ghost w = rows@;
        let a = rows[q];
        let b = rows[m];
        rows.set(q, b);
        rows.set(m, a);
        proof {
            lemma_recorded_swap(w, ts, epoch, cs as int, nz as int, q as int, m as int);
            assert(rows@ == w.update(q as int, w[m as int]).update(m as int, w[q as int]));
            assert forall|k1: int, k2: int| cs <= k1 < k2 < q + 1 implies #[trigger] rows@[k1] < #[trigger] rows@[k2] by {
                if k2 < q {
                    assert(w[k1] < w[k2]);
                } else {
                    assert(w[k1] < w[m as int]);
                }
            }
            assert forall|k1: int, k2: int| cs <= k1 < q + 1 <= k2 < nz implies #[trigger] rows@[k1] < #[trigger] rows@[k2] by {
                let s2 = if k2 == m { q as int } else { k2 };
                assert(rows@[k2] == w[s2]);
                if k1 < q {
                    assert(w[k1] < w[s2]);
                } else {
                    assert(w[m as int] <= w[s2]);
                    assert(w[m as int] != w[s2]);
                }
            }
        }
        q = q + 1;
    }
}

/// Copies the accumulated value of each row recorded at positions `cs .. nz`
/// from the dense workspace into the values.
fn gather(
    res: &mut CsMatrix,
    workspace: &Vec<u64>,
    cs: usize,
    nz: usize,
    Ghost(ts): Ghost<Seq<usize>>,
    Ghost(epoch): Ghost<int>,
    Ghost(has): Ghost<spec_fn(int) -> bool>,
    Ghost(val): Ghost<spec_fn(int) -> int>,
)
    requires
        recorded(old(res).data.i@, ts, epoch, cs as int, nz as int),
        nz <= old(res).data.vals@.len(),
        workspace@.len() == ts.len(),
        forall|r: int| 0 <= r < ts.len() && ts[r] == epoch ==> #[trigger] workspace@[r] == val(r) && has(r),
        forall|r: int| 0 <= r < ts.len() && #[trigger] has(r) ==> ts[r] == epoch,
    ensures
        final(res).data.i@ == old(res).data.i@,
        final(res).data.p@ == old(res).data.p@,
        final(res).data.nrows == old(res).data.nrows,
        final(res).data.ncols == old(res).data.ncols,
        final(res).data.vals@.len() == old(res).data.vals@.len(),
        forall|k: int| 0 <= k < cs ==> #[trigger] final(res).data.vals@[k] == old(res).data.vals@[k],
        col_matches(*final(res), cs as int, nz as int, ts.len() as int, has, val),
{
    let ghost res2 = *res;
    let mut q: usize = cs;
    while q < nz
        invariant
            cs <= q <= nz <= res.data.vals@.len(),
            res.data.i@ == res2.data.i@,
            res.data.p@ == res2.data.p@,
            res.data.nrows == res2.data.nrows,
            res.data.ncols == res2.data.ncols,
            res.data.vals@.len() == res2.data.vals@.len(),
            workspace@.len() == ts.len(),
            recorded(res2.data.i@, ts, epoch, cs as int, nz as int),
            forall|k: int| 0 <= k < cs ==> #[trigger] res.data.vals@[k] == res2.data.vals@[k],
            forall|k: int| cs <= k < q ==> #[trigger] res.data.vals@[k] == workspace@[res.data.i@[k] as int],
        decreases nz - q,
    {
        let row = res.data.i[q];
        proof {
            assert(res2.data.i@[q as int] < ts.len());
        }
        let v = workspace[row];
        res.data.vals.set(q, v);
        q = q + 1;
    }
    proof {
        assert forall|k1: int, k2: int| cs <= k1 < nz && cs <= k2 < nz && k1 != k2 implies #[trigger] res.row(k1) != #[trigger] res.row(k2) by {
            assert(res2.data.i@[k1] != res2.data.i@[k2]);
        }
        assert forall|k: int| cs <= k < nz implies 0 <= #[trigger] res.row(k) < ts.len() && has(res.row(k)) && res.val(k) == val(res.row(k)) by {
            let r = res2.data.i@[k] as int;
            assert(res2.data.i@[k] < ts.len());
            assert(ts[r] == epoch);
            assert(res.data.vals@[k] == workspace@[r]);
            assert(workspace@[r] == val(r) && has(r));
        }
        assert forall|r: int| 0 <= r < ts.len() && #[trigger] has(r) implies res.has_range(r, cs as int, nz as int) by {
            assert(ts[r] == epoch);
            let k = choose|k: int| cs <= k < nz && #[trigger] res2.data.i@[k] == r;
            assert(res.row(k) == r);
        }
    }
}

impl CsMatrix {
    /// What column `j` of the sum holds: the rows that either operand stores...
    pub open spec fn add_has(&self, rhs: &CsMatrix, j: int) -> spec_fn(int) -> bool {
        |r: int| self.has(j, r) || rhs.has(j, r)
    }

    /// ... with the sum of the two operands' values.
    pub open spec fn add_val(&self, rhs: &CsMatrix, j: int) -> spec_fn(int) -> int {
        |r: int| reduce(self.col_sum(j, r) + rhs.col_sum(j, r))
    }

    /// The sum of two matrices of one shape. Each output column stores, once and in
    /// increasing order, every row that either operand stores in that column, with
    /// the sum of the operands' values there.
    pub fn add(&self, rhs: &CsMatrix) -> (res: Result<CsMatrix, CsError>)
        requires
            self.wf(),
            rhs.wf(),
            self.nnz() + rhs.nnz() <= usize::MAX,
        ensures
            res is Err <==> (self.nrows() != rhs.nrows() || self.ncols() != rhs.ncols()),
            res matches Err(e) ==> e == CsError::ShapeMismatch,
            res matches Ok(m) ==> self.is_sum(rhs, m),
    {
        let (nrows1, ncols1) = self.data.shape();
        let (nrows2, ncols2) = rhs.data.shape();
        if nrows1 != nrows2 || ncols1 != ncols2 {
            return Err(CsError::ShapeMismatch);
        }
        let cap = self.nvalues() + rhs.nvalues();
        let mut res = CsMatrix::new_uninitialized_generic(nrows1, ncols2, cap);
        let mut timestamps: Vec<usize> = vec![0usize; nrows1];
        let mut workspace: Vec<u64> = vec![0u64; nrows1];
        let mut nz: usize = 0;
        let mut j: usize = 0;
        while j < ncols2
            invariant
                self.wf(),
                rhs.wf(),
                nrows1 == self.nrows() == rhs.nrows(),
                ncols2 == self.ncols() == rhs.ncols(),
                cap == self.nnz() + rhs.nnz(),
                res.nrows() == nrows1,
                res.ncols() == ncols2,
                res.data.p@.len() == ncols2,
                res.data.i@.len() == cap,
                res.data.vals@.len() == cap,
                0 <= j <= ncols2,
                nz <= self.done(j as int) + rhs.done(j as int),
                timestamps@.len() == nrows1,
                workspace@.len() == nrows1,
                forall|r: int| 0 <= r < nrows1 ==> #[trigger] timestamps@[r] <= j,
                j > 0 ==> res.start(0) == 0,
                forall|j1: int, j2: int| 0 <= j1 <= j2 < j ==> #[trigger] res.start(j1) <= #[trigger] res.start(j2),
                forall|j1: int| 0 <= j1 < j ==> #[trigger] res.start(j1) <= nz,
                forall|k: int| 0 <= k < nz ==> #[trigger] res.row(k) < nrows1,
                forall|j1: int|
                    0 <= j1 < j ==> #[trigger] col_matches(
                        res,
                        res.start(j1),
                        part_end(res, j1, j as int, nz as int),
                        nrows1 as int,
                        self.add_has(rhs, j1),
                        self.add_val(rhs, j1),
                    ),
                forall|j1: int|
                    0 <= j1 < j ==> #[trigger] res.sorted_range(res.start(j1), part_end(res, j1, j as int, nz as int)),
            decreases ncols2 - j,
        {
            proof {
                self.lemma_done(j as int);
                rhs.lemma_done(j as int);
            }
            let ghost res0 = res;
            let ghost nz0 = nz as int;
            res.data.p.set(j, nz);
            let epoch = j + 1;
            nz = self.scatter(j, 1, &mut timestamps, epoch, &mut workspace, nz, &mut res, Ghost(nz0));
            let ghost ts1 = timestamps@;
            let ghost ws1 = workspace@;
            nz = rhs.scatter(j, 1, &mut timestamps, epoch, &mut workspace, nz, &mut res, Ghost(nz0));
            let cs = res.data.p[j];
            let ghost rs = res;
            sort_recorded(&mut res.data.i, cs, nz, Ghost(timestamps@), Ghost(epoch as int));
            let ghost res2 = res;
            proof {
                assert forall|k: int| 0 <= k < nz0 implies #[trigger] res2.data.i@[k] == rs.data.i@[k] by {}
            }
            proof {
                let has = self.add_has(rhs, j as int);
                let val = self.add_val(rhs, j as int);
                assert forall|r: int| 0 <= r < nrows1 && timestamps@[r] == epoch implies #[trigger] workspace@[r] == val(r) && has(r) by {
                    if ts1[r] == epoch {
                        lemma_reduce_add(self.col_sum(j as int, r), rhs.col_sum(j as int, r));
                    } else {
                        self.lemma_sum_absent(r, self.start(j as int), self.end(j as int));
                    }
                }
            }
            gather(
                &mut res,
                &workspace,
                cs,
                nz,
                Ghost(timestamps@),
                Ghost(epoch as int),
                Ghost(self.add_has(rhs, j as int)),
                Ghost(self.add_val(rhs, j as int)),
            );
            proof {
                let has = self.add_has(rhs, j as int);
                let val = self.add_val(rhs, j as int);
                assert(col_matches(res, nz0, nz as int, nrows1 as int, has, val));
                assert(res.start(j as int) == nz0);
                assert forall|j1: int, j2: int| 0 <= j1 <= j2 < j + 1 implies #[trigger] res.start(j1) <= #[trigger] res.start(j2) by {
                    if j2 < j {
                        assert(res0.start(j1) <= res0.start(j2));
                    } else if j1 < j {
                        assert(res0.start(j1) <= nz0);
                    }
                }
                assert forall|j1: int| 0 <= j1 < j + 1 implies #[trigger] res.start(j1) <= nz by {
                    if j1 < j {
                        assert(res0.start(j1) <= nz0);
                    }
                }
                assert forall|j1: int| 0 <= j1 < j + 1 implies #[trigger] col_matches(
                    res,
                    res.start(j1),
                    part_end(res, j1, j + 1, nz as int),
                    nrows1 as int,
                    self.add_has(rhs, j1),
                    self.add_val(rhs, j1),
                ) by {
                    if j1 < j {
                        let hi = part_end(res0, j1, j as int, nz0);
                        assert(col_matches(res0, res0.start(j1), hi, nrows1 as int, self.add_has(rhs, j1), self.add_val(rhs, j1)));
                        assert(res0.start(j1) == res.start(j1));
                        if j1 + 1 < j {
                            assert(res0.start(j1 + 1) == res.start(j1 + 1));
                            assert(res0.start(j1 + 1) <= nz0);
                        }
                        assert forall|k: int| res0.start(j1) <= k < hi implies #[trigger] res.data.i@[k] == res0.data.i@[k] by {
                            assert(res2.data.i@[k] == res0.data.i@[k]);
                        }
                        lemma_col_matches_frame(res0, res, res0.start(j1), hi, nrows1 as int, self.add_has(rhs, j1), self.add_val(rhs, j1));
                    }
                }
                assert forall|j1: int| 0 <= j1 < j + 1 implies #[trigger] res.sorted_range(res.start(j1), part_end(res, j1, j + 1, nz as int)) by {
                    if j1 < j {
                        let hi = part_end(res0, j1, j as int, nz0);
                        assert(res0.sorted_range(res0.start(j1), hi));
                        assert(res0.start(j1) == res.start(j1));
                        if j1 + 1 < j {
                            assert(res0.start(j1 + 1) == res.start(j1 + 1));
                            assert(res0.start(j1 + 1) <= nz0);
                        }
                        assert(part_end(res, j1, j + 1, nz as int) == hi);
                        assert forall|k1: int, k2: int| res.start(j1) <= k1 < k2 < hi implies #[trigger] res.row(k1) < #[trigger] res.row(k2) by {
                            assert(res0.row(k1) < res0.row(k2));
                            assert(res2.data.i@[k1] == res0.data.i@[k1]);
                            assert(res2.data.i@[k2] == res0.data.i@[k2]);
                        }
                    } else {
                        assert forall|k1: int, k2: int| nz0 <= k1 < k2 < nz implies #[trigger] res.row(k1) < #[trigger] res.row(k2) by {
                            assert(res2.data.i@[k1] < res2.data.i@[k2]);
                        }
                    }
                }
                assert forall|k: int| 0 <= k < nz implies #[trigger] res.row(k) < nrows1 by {
                    if k < nz0 {
                        assert(res0.row(k) < nrows1);
                        assert(res2.data.i@[k] == res0.data.i@[k]);
                    } else {
                        assert(res2.data.i@[k] < timestamps@.len());
                    }
                }
            }
            j = j + 1;
        }
        let ghost res3 = res;
        res.data.i.truncate(nz);
        shrink_to_fit(&mut res.data.i);
        res.data.vals.truncate(nz);
        shrink_to_fit(&mut res.data.vals);
        proof {
            if ncols2 > 0 {
                assert(res3.start(ncols2 - 1) <= nz);
                assert forall|j1: int, j2: int| 0 <= j1 <= j2 < ncols2 implies #[trigger] res.start(j1) <= #[trigger] res.start(j2) by {
                    assert(res3.start(j1) <= res3.start(j2));
                }
            }
            assert forall|j1: int| 0 <= j1 < ncols2 implies #[trigger] col_matches(res, res.start(j1), res.end(j1), nrows1 as int, self.add_has(rhs, j1), self.add_val(rhs, j1)) by {
                let hi = part_end(res3, j1, ncols2 as int, nz as int);
                assert(col_matches(res3, res3.start(j1), hi, nrows1 as int, self.add_has(rhs, j1), self.add_val(rhs, j1)));
                if j1 + 1 < ncols2 {
                    assert(res3.start(j1 + 1) <= nz);
                }
                assert(res3.start(j1) <= hi);
                lemma_col_matches_frame(res3, res, res3.start(j1), hi, nrows1 as int, self.add_has(rhs, j1), self.add_val(rhs, j1));
            }
            assert forall|j1: int, r: int| 0 <= j1 < res.ncols() && 0 <= r < res.nrows() implies (res.has(j1, r) <==> self.has(j1, r) || rhs.has(j1, r)) && res.col_sum(j1, r) == reduce(self.col_sum(j1, r) + rhs.col_sum(j1, r)) by {
                assert(col_matches(res, res.start(j1), res.end(j1), nrows1 as int, self.add_has(rhs, j1), self.add_val(rhs, j1)));
                res.lemma_col_matches_sums(j1, self.add_has(rhs, j1), self.add_val(rhs, j1), r);
                if !(self.has(j1, r) || rhs.has(j1, r)) {
                    self.lemma_sum_absent(r, self.start(j1), self.end(j1));
                    rhs.lemma_sum_absent(r, rhs.start(j1), rhs.end(j1));
                }
            }
            assert(forall|j1: int, r: int| 0 <= j1 < res.ncols() && 0 <= r < res.nrows() ==> (#[trigger] res.has(j1, r) <==> self.has(j1, r) || rhs.has(j1, r)));
            assert(forall|j1: int, r: int| 0 <= j1 < res.ncols() && 0 <= r < res.nrows() ==> #[trigger] res.col_sum(j1, r) == reduce(self.col_sum(j1, r) + rhs.col_sum(j1, r)));
            assert forall|j1: int| 0 <= j1 < res.ncols() implies #[trigger] res.distinct_rows(res.start(j1), res.end(j1)) by {
                assert(col_matches(res, res.start(j1), res.end(j1), nrows1 as int, self.add_has(rhs, j1), self.add_val(rhs, j1)));
            }
            assert forall|k: int| 0 <= k < res.nnz() implies #[trigger] res.row(k) < res.nrows() by {
                assert(res3.row(k) < nrows1);
            }
            assert(res.no_dup());
            assert forall|j1: int| 0 <= j1 < ncols2 implies #[trigger] res.sorted_range(res.start(j1), res.end(j1)) by {
                let hi = part_end(res3, j1, ncols2 as int, nz as int);
                assert(res3.sorted_range(res3.start(j1), hi));
                if j1 + 1 < ncols2 {
                    assert(res3.start(j1 + 1) <= nz);
                }
                assert forall|k1: int, k2: int| res.start(j1) <= k1 < k2 < res.end(j1) implies #[trigger] res.row(k1) < #[trigger] res.row(k2) by {
                    assert(res3.row(k1) < res3.row(k2));
                }
            }
            assert(res.sorted());
            if ncols2 == 0 {
                assert(nz == 0);
            }
            assert(res.wf());
        }
        Ok(res)
    }
}

impl CsMatrix {
    /// Some position `q` of `rhs`'s column `j` before `hi` names a column of
    /// `self` that stores row `r`.
    pub open spec fn mul_has_range(&self, rhs: &CsMatrix, j: int, r: int, hi: int) -> bool {
        exists|q: int| rhs.start(j) <= q < hi && #[trigger] self.has(rhs.row(q), r)
    }

    /// Sum, over the positions `q` of `rhs`'s column `j` before `hi`, of `rhs`'s
    /// value at `q` times `self`'s entry in row `r` of the column `q` names.
    pub open spec fn mul_sum_range(&self, rhs: &CsMatrix, j: int, r: int, hi: int) -> int
        decreases hi - rhs.start(j),
    {
        if hi <= rhs.start(j) {
            0
        } else {
            self.mul_sum_range(rhs, j, r, hi - 1) + rhs.val(hi - 1) * self.col_sum(rhs.row(hi - 1), r)
        }
    }

    /// What column `j` of the product holds: the rows reached through `rhs`'s column `j`...
    pub open spec fn mul_has(&self, rhs: &CsMatrix, j: int) -> spec_fn(int) -> bool {
        |r: int| self.mul_has_range(rhs, j, r, rhs.end(j))
    }

    /// ... with the sum of products there.
    pub open spec fn mul_val(&self, rhs: &CsMatrix, j: int) -> spec_fn(int) -> int {
        |r: int| reduce(self.mul_sum_range(rhs, j, r, rhs.end(j)))
    }

    proof fn lemma_mul_absent(&self, rhs: &CsMatrix, j: int, r: int, hi: int)
        requires
            !self.mul_has_range(rhs, j, r, hi),
        ensures
            self.mul_sum_range(rhs, j, r, hi) == 0,
        decreases hi - rhs.start(j),
    {
        if hi > rhs.start(j) {
            let c = rhs.row(hi - 1);
            assert(!self.has(c, r));
            self.lemma_sum_absent(r, self.start(c), self.end(c));
            assert(!self.mul_has_range(rhs, j, r, hi - 1)) by {
                if self.mul_has_range(rhs, j, r, hi - 1) {
                    let q = choose|q: int| rhs.start(j) <= q < hi - 1 && #[trigger] self.has(rhs.row(q), r);
                    assert(rhs.start(j) <= q < hi);
                }
            }
            self.lemma_mul_absent(rhs, j, r, hi - 1);
            assert(rhs.val(hi - 1) * 0 == 0) by (nonlinear_arith);
        }
    }

    /// The product of two matrices, column by column: output column `j` adds up
    /// the columns of `self` that `rhs`'s column `j` names, each scaled by `rhs`'s
    /// value there. Each row reached is stored once, rows in increasing order.
    pub fn mul(&self, rhs: &CsMatrix) -> (res: Result<CsMatrix, CsError>)
        requires
            self.wf(),
            rhs.wf(),
            self.nnz() + rhs.nnz() <= usize::MAX,
            self.nrows() * rhs.ncols() <= usize::MAX || self.nnz() * rhs.nnz() + self.nrows() <= usize::MAX,
        ensures
            res is Err <==> self.ncols() != rhs.nrows(),
            res matches Err(e) ==> e == CsError::DimensionMismatch,
            res matches Ok(m) ==> self.is_product(rhs, m),
    {
        let (nrows1, ncols1) = self.data.shape();
        let (nrows2, ncols2) = rhs.data.shape();
        if ncols1 != nrows2 {
            return Err(CsError::DimensionMismatch);
        }
        let cap = self.nvalues() + rhs.nvalues();
        let mut res = CsMatrix::new_uninitialized_generic(nrows1, ncols2, cap);
        let mut timestamps: Vec<usize> = vec![0usize; nrows1];
        let mut workspace: Vec<u64> = vec![0u64; nrows1];
        let mut nz: usize = 0;
        let mut j: usize = 0;
        while j < ncols2
            invariant
                self.wf(),
                rhs.wf(),
                nrows1 == self.nrows(),
                ncols1 == self.ncols() == rhs.nrows(),
                ncols2 == rhs.ncols(),
                nrows1 * ncols2 <= usize::MAX || self.nnz() * rhs.nnz() + nrows1 <= usize::MAX,
                res.nrows() == nrows1,
                res.ncols() == ncols2,
                res.data.p@.len() == ncols2,
                res.data.i@.len() == res.data.vals@.len(),
                nz <= res.data.i@.len(),
                0 <= j <= ncols2,
                nz <= j * nrows1,
                nz <= rhs.done(j as int) * self.nnz(),
                timestamps@.len() == nrows1,
                workspace@.len() == nrows1,
                forall|r: int| 0 <= r < nrows1 ==> #[trigger] timestamps@[r] <= j,
                j > 0 ==> res.start(0) == 0,
                forall|j1: int, j2: int| 0 <= j1 <= j2 < j ==> #[trigger] res.start(j1) <= #[trigger] res.start(j2),
                forall|j1: int| 0 <= j1 < j ==> #[trigger] res.start(j1) <= nz,
                forall|k: int| 0 <= k < nz ==> #[trigger] res.row(k) < nrows1,
                forall|j1: int|
                    0 <= j1 < j ==> #[trigger] col_matches(
                        res,
                        res.start(j1),
                        part_end(res, j1, j as int, nz as int),
                        nrows1 as int,
                        self.mul_has(rhs, j1),
                        self.mul_val(rhs, j1),
                    ),
                forall|j1: int|
                    0 <= j1 < j ==> #[trigger] res.sorted_range(res.start(j1), part_end(res, j1, j as int, nz as int)),
            decreases ncols2 - j,
        {
            proof {
                rhs.lemma_done(j as int);
                assert(j * nrows1 + nrows1 == (j + 1) * nrows1) by (nonlinear_arith);
                assert((j + 1) * nrows1 <= nrows1 * ncols2) by (nonlinear_arith)
                    requires j + 1 <= ncols2;
                assert(rhs.done(j as int) * self.nnz() <= rhs.nnz() * self.nnz()) by (nonlinear_arith)
                    requires rhs.done(j as int) <= rhs.nnz(), self.nnz() >= 0;
                assert(self.nnz() * rhs.nnz() == rhs.nnz() * self.nnz()) by (nonlinear_arith);
            }
            let ghost res0 = res;
            let ghost nz0 = nz as int;
            let cs = nz;
            res.data.p.set(j, nz);
            let column_idx = rhs.data.column_range(j);
            let new_size_bound = nz + nrows1;
            let ghost ri = res.data.i@;
            let ghost rv = res.data.vals@;
            res.data.i.resize(new_size_bound, 0);
            res.data.vals.resize(new_size_bound, 0);
            proof {
                assert forall|k: int| 0 <= k < nz0 implies #[trigger] res.data.i@[k] == ri[k] && res.data.vals@[k] == rv[k] by {
                    if new_size_bound <= ri.len() {
                        assert(res.data.i@ == ri.subrange(0, new_size_bound as int));
                    } else {
                        assert(res.data.i@.subrange(0, ri.len() as int) == ri);
                        assert(res.data.i@.subrange(0, ri.len() as int)[k] == res.data.i@[k]);
                    }
                    if new_size_bound <= rv.len() {
                        assert(res.data.vals@ == rv.subrange(0, new_size_bound as int));
                    } else {
                        assert(res.data.vals@.subrange(0, rv.len() as int) == rv);
                        assert(res.data.vals@.subrange(0, rv.len() as int)[k] == res.data.vals@[k]);
                    }
                }
            }
            let epoch = j + 1;
            let ghost res1 = res;
            let mut vi: usize = column_idx.start;
            while vi < column_idx.end
                invariant
                    self.wf(),
                    rhs.wf(),
                    nrows1 == self.nrows(),
                    ncols1 == self.ncols() == rhs.nrows(),
                    ncols2 == rhs.ncols(),
                    0 <= j < ncols2,
                    epoch == j + 1,
                    column_idx.start == rhs.start(j as int),
                    column_idx.end == rhs.end(j as int),
                    rhs.start(j as int) <= vi <= rhs.end(j as int) <= rhs.nnz(),
                    res.data.nrows == res1.data.nrows,
                    res.data.ncols == res1.data.ncols,
                    res.data.p@ == res1.data.p@,
                    res.data.vals@ == res1.data.vals@,
                    res.data.i@.len() == new_size_bound,
                    new_size_bound == nz0 + nrows1,
                    res1.data.i@.len() == new_size_bound,
                    forall|k: int| 0 <= k < nz0 ==> #[trigger] res.data.i@[k] == res1.data.i@[k],
                    timestamps@.len() == nrows1,
                    workspace@.len() == nrows1,
                    recorded(res.data.i@, timestamps@, epoch as int, nz0, nz as int),
                    nz <= vi * self.nnz(),
                    forall|r: int| 0 <= r < nrows1 ==> #[trigger] timestamps@[r] <= epoch,
                    forall|r: int|
                        0 <= r < nrows1 ==> (#[trigger] timestamps@[r] == epoch <==> self.mul_has_range(
                            rhs,
                            j as int,
                            r,
                            vi as int,
                        )),
                    forall|r: int|
                        0 <= r < nrows1 && timestamps@[r] == epoch ==> #[trigger] workspace@[r] == reduce(
                            self.mul_sum_range(rhs, j as int, r, vi as int),
                        ),
                decreases column_idx.end - vi,
            {
                let i = rhs.data.row_index(vi);
                proof {
                    assert(rhs.row(vi as int) < rhs.nrows());
                    self.lemma_col_bounds(i as int);
                    assert forall|k: int| self.start(i as int) <= k < self.end(i as int) implies #[trigger] self.row(k)
                        < timestamps@.len() && self.row(k) < workspace@.len() by {
                        assert(self.row(k) < self.nrows());
                    }
                }
                let beta = *rhs.data.get_value(vi);
                let ghost ts1 = timestamps@;
                let ghost ws1 = workspace@;
                let ghost nzb = nz as int;
                nz = self.scatter(i, beta, &mut timestamps, epoch, &mut workspace, nz, &mut res, Ghost(nz0));
                proof {
                    assert(nz <= nzb + self.nnz());
                    assert(vi * self.nnz() + self.nnz() == (vi + 1) * self.nnz()) by (nonlinear_arith);
                    let nvi = vi + 1;
                    assert forall|r: int| 0 <= r < nrows1 implies (#[trigger] timestamps@[r] == epoch <==> self.mul_has_range(
                        rhs,
                        j as int,
                        r,
                        nvi,
                    )) by {
                        if self.mul_has_range(rhs, j as int, r, nvi) && !self.has(i as int, r) {
                            let q = choose|q: int| rhs.start(j as int) <= q < nvi && #[trigger] self.has(rhs.row(q), r);
                            assert(self.mul_has_range(rhs, j as int, r, vi as int));
                        }
                        if self.mul_has_range(rhs, j as int, r, vi as int) {
                            let q = choose|q: int| rhs.start(j as int) <= q < vi && #[trigger] self.has(rhs.row(q), r);
                            assert(self.mul_has_range(rhs, j as int, r, nvi));
                        }
                        if self.has(i as int, r) {
                            assert(self.has(rhs.row(vi as int), r));
                            assert(self.mul_has_range(rhs, j as int, r, nvi));
                        }
                    }
                    assert forall|r: int| 0 <= r < nrows1 && timestamps@[r] == epoch implies #[trigger] workspace@[r] == reduce(
                        self.mul_sum_range(rhs, j as int, r, nvi),
                    ) by {
                        let c = self.col_sum(i as int, r);
                        if ts1[r] == epoch {
                            lemma_reduce_add(self.mul_sum_range(rhs, j as int, r, vi as int), beta * c);
                        } else {
                            self.lemma_mul_absent(rhs, j as int, r, vi as int);
                        }
                    }
                }
                vi = vi + 1;
            }
            proof {
                let has = self.mul_has(rhs, j as int);
                let val = self.mul_val(rhs, j as int);
                assert forall|r: int| 0 <= r < nrows1 && timestamps@[r] == epoch implies #[trigger] workspace@[r] == val(r) && has(r) by {
                }
                let rows = res.data.i@.subrange(nz0, nz as int);
                assert forall|k1: int, k2: int| 0 <= k1 < rows.len() && 0 <= k2 < rows.len() && k1 != k2 implies #[trigger] rows[k1] != #[trigger] rows[k2] by {
                    assert(res.data.i@[nz0 + k1] != res.data.i@[nz0 + k2]);
                }
                assert forall|k: int| 0 <= k < rows.len() implies #[trigger] rows[k] < nrows1 by {
                    assert(res.data.i@[nz0 + k] < timestamps@.len());
                }
                lemma_distinct_bound(rows, nrows1 as int);
            }
            let ghost rs = res;
            sort_recorded(&mut res.data.i, cs, nz, Ghost(timestamps@), Ghost(epoch as int));
            let ghost res2 = res;
            proof {
                assert forall|k: int| 0 <= k < nz0 implies #[trigger] res2.data.i@[k] == res1.data.i@[k] by {
                    assert(res2.data.i@[k] == rs.data.i@[k]);
                }
            }
            gather(
                &mut res,
                &workspace,
                cs,
                nz,
                Ghost(timestamps@),
                Ghost(epoch as int),
                Ghost(self.mul_has(rhs, j as int)),
                Ghost(self.mul_val(rhs, j as int)),
            );
            proof {
                assert(res.start(j as int) == nz0);
                assert forall|j1: int, j2: int| 0 <= j1 <= j2 < j + 1 implies #[trigger] res.start(j1) <= #[trigger] res.start(j2) by {
                    if j2 < j {
                        assert(res0.start(j1) <= res0.start(j2));
                    } else if j1 < j {
                        assert(res0.start(j1) <= nz0);
                    }
                }
                assert forall|j1: int| 0 <= j1 < j + 1 implies #[trigger] res.start(j1) <= nz by {
                    if j1 < j {
                        assert(res0.start(j1) <= nz0);
                    }
                }
                assert forall|j1: int| 0 <= j1 < j + 1 implies #[trigger] col_matches(
                    res,
                    res.start(j1),
                    part_end(res, j1, j + 1, nz as int),
                    nrows1 as int,
                    self.mul_has(rhs, j1),
                    self.mul_val(rhs, j1),
                ) by {
                    if j1 < j {
                        let hi = part_end(res0, j1, j as int, nz0);
                        assert(col_matches(res0, res0.start(j1), hi, nrows1 as int, self.mul_has(rhs, j1), self.mul_val(rhs, j1)));
                        assert(res0.start(j1) == res.start(j1));
                        if j1 + 1 < j {
                            assert(res0.start(j1 + 1) == res.start(j1 + 1));
                            assert(res0.start(j1 + 1) <= nz0);
                        }
                        assert forall|k: int| res0.start(j1) <= k < hi implies #[trigger] res.data.i@[k] == res0.data.i@[k] by {
                            assert(res2.data.i@[k] == res1.data.i@[k]);
                        }
                        assert forall|k: int| res0.start(j1) <= k < hi implies #[trigger] res.data.vals@[k] == res0.data.vals@[k] by {
                            assert(res2.data.vals@[k] == res1.data.vals@[k]);
                        }
                        lemma_col_matches_frame(res0, res, res0.start(j1), hi, nrows1 as int, self.mul_has(rhs, j1), self.mul_val(rhs, j1));
                    }
                }
                assert forall|j1: int| 0 <= j1 < j + 1 implies #[trigger] res.sorted_range(res.start(j1), part_end(res, j1, j + 1, nz as int)) by {
                    if j1 < j {
                        let hi = part_end(res0, j1, j as int, nz0);
                        assert(res0.sorted_range(res0.start(j1), hi));
                        assert(res0.start(j1) == res.start(j1));
                        if j1 + 1 < j {
                            assert(res0.start(j1 + 1) == res.start(j1 + 1));
                            assert(res0.start(j1 + 1) <= nz0);
                        }
                        assert(part_end(res, j1, j + 1, nz as int) == hi);
                        assert forall|k1: int, k2: int| res.start(j1) <= k1 < k2 < hi implies #[trigger] res.row(k1) < #[trigger] res.row(k2) by {
                            assert(res0.row(k1) < res0.row(k2));
                            assert(res2.data.i@[k1] == res0.data.i@[k1]);
                            assert(res2.data.i@[k2] == res0.data.i@[k2]);
                        }
                    } else {
                        assert forall|k1: int, k2: int| nz0 <= k1 < k2 < nz implies #[trigger] res.row(k1) < #[trigger] res.row(k2) by {
                            assert(res2.data.i@[k1] < res2.data.i@[k2]);
                        }
                    }
                }
                assert forall|k: int| 0 <= k < nz implies #[trigger] res.row(k) < nrows1 by {
                    if k < nz0 {
                        assert(res0.row(k) < nrows1);
                        assert(res2.data.i@[k] == res1.data.i@[k]);
                    } else {
                        assert(res2.data.i@[k] < timestamps@.len());
                    }
                }
            }
            j = j + 1;
        }
        let ghost res3 = res;
        res.data.i.truncate(nz);
        shrink_to_fit(&mut res.data.i);
        res.data.vals.truncate(nz);
        shrink_to_fit(&mut res.data.vals);
        proof {
            if ncols2 > 0 {
                assert(res3.start(ncols2 - 1) <= nz);
                assert forall|j1: int, j2: int| 0 <= j1 <= j2 < ncols2 implies #[trigger] res.start(j1) <= #[trigger] res.start(j2) by {
                    assert(res3.start(j1) <= res3.start(j2));
                }
            }
            assert forall|j1: int| 0 <= j1 < ncols2 implies #[trigger] col_matches(res, res.start(j1), res.end(j1), nrows1 as int, self.mul_has(rhs, j1), self.mul_val(rhs, j1)) by {
                let hi = part_end(res3, j1, ncols2 as int, nz as int);
                assert(col_matches(res3, res3.start(j1), hi, nrows1 as int, self.mul_has(rhs, j1), self.mul_val(rhs, j1)));
                if j1 + 1 < ncols2 {
                    assert(res3.start(j1 + 1) <= nz);
                }
                assert(res3.start(j1) <= hi);
                lemma_col_matches_frame(res3, res, res3.start(j1), hi, nrows1 as int, self.mul_has(rhs, j1), self.mul_val(rhs, j1));
            }
            assert forall|j1: int, r: int| 0 <= j1 < res.ncols() && 0 <= r < res.nrows() implies (res.has(j1, r) <==> self.mul_has_range(rhs, j1, r, rhs.end(j1))) && res.col_sum(j1, r) == reduce(self.mul_sum_range(rhs, j1, r, rhs.end(j1))) by {
                assert(col_matches(res, res.start(j1), res.end(j1), nrows1 as int, self.mul_has(rhs, j1), self.mul_val(rhs, j1)));
                res.lemma_col_matches_sums(j1, self.mul_has(rhs, j1), self.mul_val(rhs, j1), r);
                if !self.mul_has_range(rhs, j1, r, rhs.end(j1)) {
                    self.lemma_mul_absent(rhs, j1, r, rhs.end(j1));
                }
            }
            assert(forall|j1: int, r: int| 0 <= j1 < res.ncols() && 0 <= r < res.nrows() ==> (#[trigger] res.has(j1, r) <==> self.mul_has_range(rhs, j1, r, rhs.end(j1))));
            assert(forall|j1: int, r: int| 0 <= j1 < res.ncols() && 0 <= r < res.nrows() ==> #[trigger] res.col_sum(j1, r) == reduce(self.mul_sum_range(rhs, j1, r, rhs.end(j1))));
            assert forall|j1: int| 0 <= j1 < res.ncols() implies #[trigger] res.distinct_rows(res.start(j1), res.end(j1)) by {
                assert(col_matches(res, res.start(j1), res.end(j1), nrows1 as int, self.mul_has(rhs, j1), self.mul_val(rhs, j1)));
            }
            assert forall|k: int| 0 <= k < res.nnz() implies #[trigger] res.row(k) < res.nrows() by {
                assert(res3.row(k) < nrows1);
            }
            assert(res.no_dup());
            assert forall|j1: int| 0 <= j1 < ncols2 implies #[trigger] res.sorted_range(res.start(j1), res.end(j1)) by {
                let hi = part_end(res3, j1, ncols2 as int, nz as int);
                assert(res3.sorted_range(res3.start(j1), hi));
                if j1 + 1 < ncols2 {
                    assert(res3.start(j1 + 1) <= nz);
                }
                assert forall|k1: int, k2: int| res.start(j1) <= k1 < k2 < res.end(j1) implies #[trigger] res.row(k1) < #[trigger] res.row(k2) by {
                    assert(res3.row(k1) < res3.row(k2));
                }
            }
            assert(res.sorted());
            if ncols2 == 0 {
                assert(nz == 0);
            }
            assert(res.wf());
        }
        Ok(res)
    }
}

/// Sum of the first `n` elements of `s`.
pub open spec fn prefix_sum(s: Seq<usize>, n: int) -> int
    decreases n,
{
    if n <= 0 {
        0
    } else {
        prefix_sum(s, n - 1) + s[n - 1]
    }
}

proof fn lemma_prefix_sum_mono(s: Seq<usize>, m: int, n: int)
    requires
        0 <= m <= n <= s.len(),
    ensures
        prefix_sum(s, m) <= prefix_sum(s, n),
    decreases n - m,
{
    if m < n {
        lemma_prefix_sum_mono(s, m, n - 1);
    }
}

/// Turns the counts in `a` into the offsets where each bucket begins, written both
/// to `a` and to `b`, and returns the total.
fn cumsum(a: &mut Vec<usize>, b: &mut Vec<usize>) -> (total: usize)
    requires
        old(a)@.len() == old(b)@.len(),
        prefix_sum(old(a)@, old(a)@.len() as int) <= usize::MAX,
    ensures
        total == prefix_sum(old(a)@, old(a)@.len() as int),
        final(b)@.len() == old(b)@.len(),
        final(a)@ == final(b)@,
        forall|k: int| 0 <= k < final(b)@.len() ==> #[trigger] final(b)@[k] == prefix_sum(old(a)@, k),
{
    let ghost counts = a@;
    let mut sum: usize = 0;
    let n = a.len();
    let mut k: usize = 0;
    while k < n
        invariant
            n == a@.len() == b@.len() == counts.len(),
            0 <= k <= n,
            sum == prefix_sum(counts, k as int),
            prefix_sum(counts, n as int) <= usize::MAX,
            forall|t: int| 0 <= t < k ==> #[trigger] b@[t] == prefix_sum(counts, t) && a@[t] == b@[t],
            forall|t: int| k <= t < n ==> #[trigger] a@[t] == counts[t],
        decreases n - k,
    {
        proof {
            lemma_prefix_sum_mono(counts, k + 1, n as int);
        }
        b.set(k, sum);
        sum = sum + a[k];
        let v = b[k];
        a.set(k, v);
        k = k + 1;
    }
    proof {
        assert(a@ =~= b@);
    }
    sum
}

} // verus!
