use crate::cs_matrix::{col_matches, lemma_col_matches_frame, part_end, CsMatrix};
use crate::scalar::{lemma_reduce_add, reduce, scalar_add, scalar_mul};
use crate::storage::{CsStorage, CsVecStorage};
use vstd::prelude::*;

verus! {

/// A dense matrix, held as its columns.
#[derive(Clone, Debug)]
pub struct Matrix {
    pub nrows: usize,
    pub ncols: usize,
    /// Column `j` holds the entries of rows `0 .. nrows`.
    pub cols: Vec<Vec<u64>>,
}

impl View for Matrix {
    type V = Seq<Seq<u64>>;

    /// The columns.
    open spec fn view(&self) -> Seq<Seq<u64>> {
        Seq::new(self.cols@.len(), |j: int| self.cols@[j]@)
    }
}

impl Matrix {
    /// There are `ncols` columns of `nrows` entries each.
    pub open spec fn wf(&self) -> bool {
        &&& self.cols@.len() == self.ncols
        &&& forall|j: int| 0 <= j < self.ncols ==> (#[trigger] self.cols@[j])@.len() == self.nrows
    }

    /// The entry in row `r`, column `j`.
    pub open spec fn at(&self, r: int, j: int) -> u64 {
        self.cols@[j]@[r]
    }

    /// The dense form of a sparse matrix: zero everywhere but where an entry is
    /// stored; where a column stores a row twice the later entry wins.
    pub fn from_cs(m: &CsMatrix) -> (res: Matrix)
        requires
            m.wf(),
        ensures
            res.wf(),
            res.nrows == m.nrows(),
            res.ncols == m.ncols(),
            res@ == m.dense_view(),
    {
        let (nrows, ncols) = m.data.shape();
        let mut cols: Vec<Vec<u64>> = Vec::new();
        let mut j: usize = 0;
        while j < ncols
            invariant
                m.wf(),
                nrows == m.nrows(),
                ncols == m.ncols(),
                0 <= j <= ncols,
                cols@.len() == j,
                forall|j1: int| 0 <= j1 < j ==> (#[trigger] cols@[j1])@ == m.dense_col(j1),
            decreases ncols - j,
        {
            let column_idx = m.data.column_range(j);
            proof {
                m.lemma_col_bounds(j as int);
            }
            let mut col: Vec<u64> = vec![0u64; nrows];
            let mut iv: usize = column_idx.start;
            while iv < column_idx.end
                invariant
                    m.wf(),
                    nrows == m.nrows(),
                    0 <= j < ncols == m.ncols(),
                    column_idx.start == m.start(j as int),
                    column_idx.end == m.end(j as int),
                    m.start(j as int) <= iv <= m.end(j as int) <= m.nnz(),
                    col@.len() == nrows,
                    forall|r: int| 0 <= r < nrows ==> #[trigger] col@[r] == m.last_range(r, m.start(j as int), iv as int),
                decreases column_idx.end - iv,
            {
                let i = m.data.row_index(iv);
                proof {
                    assert(m.row(iv as int) < m.nrows());
                }
                let v = *m.data.get_value(iv);
                col.set(i, v);
                iv = iv + 1;
            }
            proof {
                assert(col@ =~= m.dense_col(j as int));
            }
            cols.push(col);
            j = j + 1;
        }
        let res = Matrix { nrows, ncols, cols };
        proof {
            assert(res@ =~= m.dense_view());
        }
        res
    }
}

impl CsMatrix {
    /// The value that the last entry stored for row `r` at positions `lo .. hi`
    /// holds, or zero.
    pub open spec fn last_range(&self, r: int, lo: int, hi: int) -> u64
        decreases hi - lo,
    {
        if hi <= lo {
            0
        } else if self.row(hi - 1) == r {
            self.data.vals@[hi - 1]
        } else {
            self.last_range(r, lo, hi - 1)
        }
    }

    /// Column `j` in dense form.
    pub open spec fn dense_col(&self, j: int) -> Seq<u64> {
        Seq::new(self.nrows() as nat, |r: int| self.last_range(r, self.start(j), self.end(j)))
    }

    /// The matrix in dense form, as its columns.
    pub open spec fn dense_view(&self) -> Seq<Seq<u64>> {
        Seq::new(self.ncols() as nat, |j: int| self.dense_col(j))
    }

    /// Every column lists its rows in increasing order.
    pub open spec fn sorted(&self) -> bool {
        forall|j: int| 0 <= j < self.ncols() ==> #[trigger] self.sorted_range(self.start(j), self.end(j))
    }

    /// Positions `lo .. hi` hold increasing rows.
    pub open spec fn sorted_range(&self, lo: int, hi: int) -> bool {
        forall|k1: int, k2: int| lo <= k1 < k2 < hi ==> #[trigger] self.row(k1) < #[trigger] self.row(k2)
    }

    /// The column whose positions include `k`.
    pub open spec fn col_of(&self, k: int) -> int {
        choose|j: int| 0 <= j < self.ncols() && #[trigger] self.start(j) <= k < self.end(j)
    }

    /// Every stored position belongs to a column.
    pub proof fn lemma_col_of(&self, k: int)
        requires
            self.wf(),
            0 <= k < self.nnz(),
        ensures
            0 <= self.col_of(k) < self.ncols(),
            self.start(self.col_of(k)) <= k < self.end(self.col_of(k)),
    {
        self.lemma_find_col(k, 0);
    }

    proof fn lemma_find_col(&self, k: int, j: int)
        requires
            self.wf(),
            0 <= j < self.ncols(),
            self.start(j) <= k < self.nnz(),
        ensures
            exists|j2: int| 0 <= j2 < self.ncols() && #[trigger] self.start(j2) <= k < self.end(j2),
        decreases self.ncols() - j,
    {
        if k >= self.end(j) {
            self.lemma_find_col(k, j + 1);
        }
    }

    pub proof fn lemma_col_bounds(&self, j: int)
        requires
            self.wf(),
            0 <= j < self.ncols(),
        ensures
            0 <= self.start(j) <= self.end(j) <= self.nnz(),
    {
        if j + 1 < self.ncols() {
            assert(self.start(j) <= self.start(j + 1));
            assert(self.start(j + 1) <= self.start(self.ncols() - 1));
        }
        assert(self.start(0) <= self.start(j));
    }
}

impl CsMatrix {
    /// Where a range holds distinct rows, a row's last value is its sum.
    pub proof fn lemma_last_distinct(&self, r: int, lo: int, hi: int)
        requires
            self.distinct_rows(lo, hi),
        ensures
            self.last_range(r, lo, hi) as int == self.sum_range(r, lo, hi),
        decreases hi - lo,
    {
        if hi > lo {
            if self.row(hi - 1) == r {
                self.lemma_sum_distinct(r, lo, hi, hi - 1);
            } else {
                self.lemma_last_distinct(r, lo, hi - 1);
            }
        }
    }

    /// What column `j` of the sparse form of `m` holds: the rows where `m` is not zero...
    pub open spec fn nonzero_has(m: &Matrix, j: int) -> spec_fn(int) -> bool {
        |r: int| m.at(r, j) != 0
    }

    /// ... with `m`'s entries.
    pub open spec fn nonzero_val(m: &Matrix, j: int) -> spec_fn(int) -> int {
        |r: int| m.at(r, j) as int
    }

    /// The sparse form of a dense matrix: each column stores, in increasing row
    /// order, exactly the entries that are not zero. Turned back into dense form
    /// it gives `m` again.
    pub fn from_dense(m: &Matrix) -> (res: CsMatrix)
        requires
            m.wf(),
        ensures
            res.wf(),
            res.sorted(),
            res.no_dup(),
            res.nrows() == m.nrows,
            res.ncols() == m.ncols,
            forall|j: int, r: int|
                0 <= j < m.ncols && 0 <= r < m.nrows ==> (#[trigger] res.has(j, r) <==> m.at(r, j) != 0),
            forall|j: int, r: int|
                0 <= j < m.ncols && 0 <= r < m.nrows ==> #[trigger] res.col_sum(j, r) == m.at(r, j),
            res.dense_view() == m@,
    {
        let nrows = m.nrows;
        let ncols = m.ncols;
        let mut res = CsMatrix {
            data: CsVecStorage { nrows, ncols, p: Vec::new(), i: Vec::new(), vals: Vec::new() },
        };
        let mut j: usize = 0;
        while j < ncols
            invariant
                m.wf(),
                nrows == m.nrows,
                ncols == m.ncols,
                res.nrows() == nrows,
                res.ncols() == ncols,
                0 <= j <= ncols,
                res.data.p@.len() == j,
                res.data.i@.len() == res.data.vals@.len(),
                j == 0 ==> res.data.i@.len() == 0,
                j > 0 ==> res.start(0) == 0,
                forall|j1: int, j2: int| 0 <= j1 <= j2 < j ==> #[trigger] res.start(j1) <= #[trigger] res.start(j2),
                forall|j1: int| 0 <= j1 < j ==> #[trigger] res.start(j1) <= res.data.i@.len(),
                forall|k: int| 0 <= k < res.data.i@.len() ==> #[trigger] res.row(k) < nrows,
                forall|j1: int|
                    0 <= j1 < j ==> #[trigger] col_matches(
                        res,
                        res.start(j1),
                        part_end(res, j1, j as int, res.data.i@.len() as int),
                        nrows as int,
                        CsMatrix::nonzero_has(m, j1),
                        CsMatrix::nonzero_val(m, j1),
                    ),
                forall|j1: int|
                    0 <= j1 < j ==> #[trigger] res.sorted_range(
                        res.start(j1),
                        part_end(res, j1, j as int, res.data.i@.len() as int),
                    ),
            decreases ncols - j,
        {
            let ghost res0 = res;
            let cs = res.data.i.len();
            res.data.p.push(cs);
            let column = &m.cols[j];
            proof {
                assert forall|k: int| 0 <= k < res.data.i@.len() implies #[trigger] res.row(k) < nrows by {
                    assert(res0.row(k) < nrows);
                }
                if j > 0 {
                    assert(res.start(0) == res0.start(0));
                }
            }
            let mut r: usize = 0;
            while r < nrows
                invariant
                    m.wf(),
                    nrows == m.nrows,
                    ncols == m.ncols,
                    0 <= j < ncols,
                    column@ == m.cols@[j as int]@,
                    0 <= r <= nrows,
                    res.nrows() == nrows,
                    res.ncols() == ncols,
                    res.data.p@ == res0.data.p@.push(cs),
                    res.data.i@.len() == res.data.vals@.len(),
                    cs == res0.data.i@.len(),
                    cs == res0.data.vals@.len(),
                    cs <= res.data.i@.len(),
                    j > 0 ==> res.start(0) == 0,
                    j == 0 ==> cs == 0,
                    forall|k: int| 0 <= k < cs ==> #[trigger] res.data.i@[k] == res0.data.i@[k],
                    forall|k: int| 0 <= k < cs ==> #[trigger] res.data.vals@[k] == res0.data.vals@[k],
                    forall|k: int| cs <= k < res.data.i@.len() ==> #[trigger] res.row(k) < r,
                    forall|k: int| 0 <= k < res.data.i@.len() ==> #[trigger] res.row(k) < nrows,
                    res.sorted_range(cs as int, res.data.i@.len() as int),
                    forall|k: int|
                        cs <= k < res.data.i@.len() ==> m.at(#[trigger] res.row(k), j as int) != 0 && res.val(k)
                            == m.at(res.row(k), j as int),
                    forall|r1: int|
                        0 <= r1 < r && m.at(r1, j as int) != 0 ==> #[trigger] res.has_range(
                            r1,
                            cs as int,
                            res.data.i@.len() as int,
                        ),
                decreases nrows - r,
            {
                let v = column[r];
                let ghost len0 = res.data.i@.len() as int;
                let ghost resb = res;
                if v != 0 {
                    res.data.i.push(r);
                    res.data.vals.push(v);
                    proof {
                        assert(res.row(len0) == r);
                    }
                }
                proof {
                    let len = res.data.i@.len() as int;
                    assert forall|k: int| cs <= k < len implies #[trigger] res.row(k) < r + 1 by {
                        if k < len0 {
                            assert(resb.row(k) < r);
                        }
                    }
                    assert forall|k: int| 0 <= k < len implies #[trigger] res.row(k) < nrows by {
                        if k < len0 {
                            assert(resb.row(k) < nrows);
                        }
                    }
                    assert forall|k1: int, k2: int| cs <= k1 < k2 < len implies #[trigger] res.row(k1) < #[trigger] res.row(k2) by {
                        if k2 < len0 {
                            assert(resb.row(k1) < resb.row(k2));
                        } else {
                            assert(resb.row(k1) < r);
                        }
                    }
                    assert forall|k: int| cs <= k < len implies m.at(#[trigger] res.row(k), j as int) != 0 && res.val(k) == m.at(res.row(k), j as int) by {
                        if k < len0 {
                            assert(m.at(resb.row(k), j as int) != 0 && resb.val(k) == m.at(resb.row(k), j as int));
                        } else {
                            assert(column@[r as int] == v);
                        }
                    }
                    assert forall|r1: int|
                        0 <= r1 < r + 1 && m.at(r1, j as int) != 0 implies #[trigger] res.has_range(r1, cs as int, len) by {
                        if r1 < r {
                            assert(resb.has_range(r1, cs as int, len0));
                            let k = choose|k: int| cs <= k < len0 && #[trigger] resb.row(k) == r1;
                            assert(res.row(k) == r1);
                        } else {
                            assert(res.row(len0) == r1);
                        }
                    }
                }
                r = r + 1;
            }
            proof {
                let len = res.data.i@.len() as int;
                let has = CsMatrix::nonzero_has(m, j as int);
                let val = CsMatrix::nonzero_val(m, j as int);
                assert(res.start(j as int) == cs);
                assert(res.distinct_rows(cs as int, len)) by {
                    assert forall|k1: int, k2: int| cs <= k1 < len && cs <= k2 < len && k1 != k2 implies #[trigger] res.row(k1) != #[trigger] res.row(k2) by {
                        if k1 < k2 {
                            assert(res.row(k1) < res.row(k2));
                        } else {
                            assert(res.row(k2) < res.row(k1));
                        }
                    }
                }
                assert(col_matches(res, cs as int, len, nrows as int, has, val));
                assert forall|j1: int| 0 <= j1 < j + 1 implies #[trigger] res.start(j1) <= res.data.i@.len() by {
                    if j1 < j {
                        assert(res0.start(j1) <= cs);
                    }
                }
                assert forall|j1: int, j2: int| 0 <= j1 <= j2 < j + 1 implies #[trigger] res.start(j1) <= #[trigger] res.start(j2) by {
                    if j2 < j {
                        assert(res0.start(j1) <= res0.start(j2));
                    } else if j1 < j {
                        assert(res0.start(j1) <= cs);
                    }
                }
                assert forall|j1: int| 0 <= j1 < j + 1 implies #[trigger] col_matches(
                    res,
                    res.start(j1),
                    part_end(res, j1, j + 1, len),
                    nrows as int,
                    CsMatrix::nonzero_has(m, j1),
                    CsMatrix::nonzero_val(m, j1),
                ) by {
                    if j1 < j {
                        let hi = part_end(res0, j1, j as int, cs as int);
                        assert(col_matches(res0, res0.start(j1), hi, nrows as int, CsMatrix::nonzero_has(m, j1), CsMatrix::nonzero_val(m, j1)));
                        assert(res0.start(j1) == res.start(j1));
                        if j1 + 1 < j {
                            assert(res0.start(j1 + 1) == res.start(j1 + 1));
                            assert(res0.start(j1 + 1) <= cs);
                        }
                        assert(part_end(res, j1, j + 1, len) == hi);
                        lemma_col_matches_frame(res0, res, res0.start(j1), hi, nrows as int, CsMatrix::nonzero_has(m, j1), CsMatrix::nonzero_val(m, j1));
                    }
                }
                assert forall|j1: int| 0 <= j1 < j + 1 implies #[trigger] res.sorted_range(res.start(j1), part_end(res, j1, j + 1, len)) by {
                    if j1 < j {
                        let hi = part_end(res0, j1, j as int, cs as int);
                        assert(res0.sorted_range(res0.start(j1), hi));
                        assert(res0.start(j1) == res.start(j1));
                        if j1 + 1 < j {
                            assert(res0.start(j1 + 1) == res.start(j1 + 1));
                            assert(res0.start(j1 + 1) <= cs);
                        }
                        assert(part_end(res, j1, j + 1, len) == hi);
                        assert forall|k1: int, k2: int| res.start(j1) <= k1 < k2 < hi implies #[trigger] res.row(k1) < #[trigger] res.row(k2) by {
                            assert(res0.row(k1) < res0.row(k2));
                        }
                    }
                }
            }
            j = j + 1;
        }
        proof {
            let len = res.data.i@.len() as int;
            if ncols > 0 {
                assert(res.start(ncols - 1) <= len);
            }
            assert forall|j1: int| 0 <= j1 < ncols implies #[trigger] res.distinct_rows(res.start(j1), res.end(j1)) by {
                assert(col_matches(res, res.start(j1), part_end(res, j1, ncols as int, len), nrows as int, CsMatrix::nonzero_has(m, j1), CsMatrix::nonzero_val(m, j1)));
            }
            assert forall|j1: int| 0 <= j1 < ncols implies #[trigger] res.sorted_range(res.start(j1), res.end(j1)) by {
                assert(res.sorted_range(res.start(j1), part_end(res, j1, ncols as int, len)));
            }
            assert(res.no_dup());
            assert(res.sorted());
            assert(res.wf());
            assert forall|j1: int, r: int| 0 <= j1 < ncols && 0 <= r < nrows implies (res.has(j1, r) <==> m.at(r, j1) != 0) && res.col_sum(j1, r) == m.at(r, j1) && res.last_range(r, res.start(j1), res.end(j1)) == m.at(r, j1) by {
                assert(col_matches(res, res.start(j1), part_end(res, j1, ncols as int, len), nrows as int, CsMatrix::nonzero_has(m, j1), CsMatrix::nonzero_val(m, j1)));
                res.lemma_col_matches_sums(j1, CsMatrix::nonzero_has(m, j1), CsMatrix::nonzero_val(m, j1), r);
                assert(res.distinct_rows(res.start(j1), res.end(j1)));
                res.lemma_last_distinct(r, res.start(j1), res.end(j1));
            }
            assert(forall|j1: int, r: int| 0 <= j1 < ncols && 0 <= r < nrows ==> (#[trigger] res.has(j1, r) <==> m.at(r, j1) != 0));
            assert(forall|j1: int, r: int| 0 <= j1 < ncols && 0 <= r < nrows ==> #[trigger] res.col_sum(j1, r) == m.at(r, j1));
            assert forall|j1: int| 0 <= j1 < ncols implies #[trigger] res.dense_view()[j1] == m@[j1] by {
                assert forall|r: int| 0 <= r < nrows implies #[trigger] res.dense_col(j1)[r] == m.cols@[j1]@[r] by {
                    assert(res.distinct_rows(res.start(j1), res.end(j1)));
                    assert(col_matches(res, res.start(j1), part_end(res, j1, ncols as int, len), nrows as int, CsMatrix::nonzero_has(m, j1), CsMatrix::nonzero_val(m, j1)));
                    res.lemma_col_matches_sums(j1, CsMatrix::nonzero_has(m, j1), CsMatrix::nonzero_val(m, j1), r);
                    res.lemma_last_distinct(r, res.start(j1), res.end(j1));
                }
                assert(res.dense_col(j1) =~= m.cols@[j1]@);
            }
            assert(res.dense_view() =~= m@);
        }
        res
    }
}

/// A dense column vector.
#[derive(Clone, Debug)]
pub struct Vector {
    pub data: Vec<u64>,
}

/// Row `r` of `alpha * x + beta * y`, where `x`'s entries at positions `0 .. n`
/// count: with `beta` zero, a row that `x` stores becomes `alpha` times its last
/// stored value and any other row keeps `y`'s value; otherwise the row becomes
/// `beta` times `y`'s value plus `alpha` times the sum of the row's stored values.
pub open spec fn axpy_row(y: Seq<u64>, alpha: u64, x: CsMatrix, beta: u64, n: int, r: int) -> u64 {
    if beta == 0 {
        if x.has_range(r, 0, n) {
            reduce(alpha * x.last_range(r, 0, n)) as u64
        } else {
            y[r]
        }
    } else {
        reduce(beta * y[r] + alpha * x.sum_range(r, 0, n)) as u64
    }
}

impl Vector {
    /// `self = alpha * x + beta * self` for a sparse column vector `x`. When `beta`
    /// is zero the rows that `x` does not store keep their former value rather
    /// than becoming zero.
    pub fn axpy_cs(&mut self, alpha: u64, x: &CsMatrix, beta: u64)
        requires
            x.wf(),
            x.ncols() == 1,
            x.nrows() == old(self).data@.len(),
        ensures
            final(self).data@.len() == old(self).data@.len(),
            forall|r: int|
                0 <= r < old(self).data@.len() ==> #[trigger] final(self).data@[r] == axpy_row(
                    old(self).data@,
                    alpha,
                    *x,
                    beta,
                    x.nnz(),
                    r,
                ),
    {
        let ghost y0 = self.data@;
        let n = self.data.len();
        if beta != 0 {
            let mut r: usize = 0;
            while r < n
                invariant
                    n == self.data@.len() == y0.len(),
                    0 <= r <= n,
                    forall|t: int| 0 <= t < r ==> #[trigger] self.data@[t] == reduce(beta * y0[t]),
                    forall|t: int| r <= t < n ==> #[trigger] self.data@[t] == y0[t],
                decreases n - r,
            {
                let v = self.data[r];
                self.data.set(r, scalar_mul(beta, v));
                r = r + 1;
            }
        }
        proof {
            assert forall|r: int| 0 <= r < n implies #[trigger] self.data@[r] == axpy_row(y0, alpha, *x, beta, 0, r) by {
                assert(alpha * 0 == 0) by (nonlinear_arith);
            }
        }
        let nvals = x.nvalues();
        let mut k: usize = 0;
        while k < nvals
            invariant
                x.wf(),
                x.nrows() == y0.len(),
                nvals == x.nnz(),
                0 <= k <= nvals,
                self.data@.len() == y0.len(),
                forall|r: int| 0 <= r < y0.len() ==> #[trigger] self.data@[r] == axpy_row(y0, alpha, *x, beta, k as int, r),
            decreases nvals - k,
        {
            let row = x.data.row_index_unchecked(k);
            proof {
                assert(x.row(k as int) < x.nrows());
            }
            let t = scalar_mul(alpha, *x.data.get_value_unchecked(k));
            let ghost d0 = self.data@;
            if beta == 0 {
                self.data.set(row, t);
            } else {
                let y = self.data[row];
                self.data.set(row, scalar_add(y, t));
            }
            proof {
                let kk = k as int;
                let v = x.val(kk);
                assert forall|r: int| 0 <= r < y0.len() implies #[trigger] self.data@[r] == axpy_row(y0, alpha, *x, beta, kk + 1, r) by {
                    if r != row {
                        assert(d0[r] == self.data@[r]);
                        if x.has_range(r, 0, kk + 1) {
                            let q = choose|q: int| 0 <= q < kk + 1 && #[trigger] x.row(q) == r;
                            assert(x.has_range(r, 0, kk));
                        }
                        if x.has_range(r, 0, kk) {
                            let q = choose|q: int| 0 <= q < kk && #[trigger] x.row(q) == r;
                            assert(x.has_range(r, 0, kk + 1));
                        }
                    } else {
                        assert(x.has_range(r, 0, kk + 1));
                        if beta != 0 {
                            let s0 = x.sum_range(r, 0, kk);
                            let base = beta * y0[r] + alpha * s0;
                            lemma_reduce_add(base, alpha * v);
                            assert(alpha * (s0 + v) == alpha * s0 + alpha * v) by (nonlinear_arith);
                        }
                    }
                }
            }
            k = k + 1;
        }
    }
}

} // verus!
