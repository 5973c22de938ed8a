use crate::cs_matrix::CsMatrix;
use crate::scalar::reduce;
use vstd::prelude::*;
use vstd::set_lib::{lemma_int_range, lemma_map_size, lemma_subset_equality, set_int_range};

verus! {

/// The entrywise sum of two dense matrices given as columns.
pub open spec fn dense_sum(x: Seq<Seq<u64>>, y: Seq<Seq<u64>>) -> Seq<Seq<u64>> {
    Seq::new(x.len(), |j: int| Seq::new(x[j].len(), |r: int| reduce(x[j][r] + y[j][r]) as u64))
}

/// The sum over `k < n` of `x`'s entry in row `r`, column `k`, times `y`'s entry in
/// row `k`, column `j`.
pub open spec fn dot(x: Seq<Seq<u64>>, y: Seq<Seq<u64>>, j: int, r: int, n: int) -> int
    decreases n,
{
    if n <= 0 {
        0
    } else {
        dot(x, y, j, r, n - 1) + x[n - 1][r] * y[j][n - 1]
    }
}

/// The product of two dense matrices given as columns, with `nrows` rows.
pub open spec fn dense_product(x: Seq<Seq<u64>>, y: Seq<Seq<u64>>, nrows: int) -> Seq<Seq<u64>> {
    Seq::new(y.len(), |j: int| Seq::new(nrows as nat, |r: int| reduce(dot(x, y, j, r, x.len() as int)) as u64))
}

/// In a matrix that stores no row twice in a column, a dense entry is the sum there.
proof fn lemma_dense_is_col_sum(m: CsMatrix, j: int, r: int)
    requires
        m.wf(),
        m.no_dup(),
        0 <= j < m.ncols(),
        0 <= r < m.nrows(),
    ensures
        m.dense_view()[j][r] as int == m.col_sum(j, r),
{
    assert(m.distinct_rows(m.start(j), m.end(j)));
    m.lemma_last_distinct(r, m.start(j), m.end(j));
}

/// Sparse addition agrees with dense addition: the dense form of the sum of two
/// matrices of one shape, neither storing a row twice in a column, is the sum of
/// their dense forms.
pub proof fn lemma_sum_is_dense_sum(a: CsMatrix, b: CsMatrix, s: CsMatrix)
    requires
        a.wf(),
        b.wf(),
        a.no_dup(),
        b.no_dup(),
        a.nrows() == b.nrows(),
        a.ncols() == b.ncols(),
        a.is_sum(&b, s),
    ensures
        s.dense_view() == dense_sum(a.dense_view(), b.dense_view()),
{
    let lhs = s.dense_view();
    let rhs = dense_sum(a.dense_view(), b.dense_view());
    assert forall|j: int| 0 <= j < a.ncols() implies #[trigger] lhs[j] == rhs[j] by {
        assert forall|r: int| 0 <= r < a.nrows() implies #[trigger] lhs[j][r] == rhs[j][r] by {
            lemma_dense_is_col_sum(a, j, r);
            lemma_dense_is_col_sum(b, j, r);
            lemma_dense_is_col_sum(s, j, r);
        }
        assert(lhs[j] =~= rhs[j]);
    }
    assert(lhs =~= rhs);
}

/// Sparse addition commutes, in dense form.
pub proof fn lemma_sum_commutes(a: CsMatrix, b: CsMatrix, s1: CsMatrix, s2: CsMatrix)
    requires
        a.wf(),
        b.wf(),
        a.no_dup(),
        b.no_dup(),
        a.nrows() == b.nrows(),
        a.ncols() == b.ncols(),
        a.is_sum(&b, s1),
        b.is_sum(&a, s2),
    ensures
        s1.dense_view() == s2.dense_view(),
{
    lemma_sum_is_dense_sum(a, b, s1);
    lemma_sum_is_dense_sum(b, a, s2);
    let x = dense_sum(a.dense_view(), b.dense_view());
    let y = dense_sum(b.dense_view(), a.dense_view());
    assert forall|j: int| 0 <= j < a.ncols() implies #[trigger] x[j] == y[j] by {
        assert(x[j] =~= y[j]);
    }
    assert(x =~= y);
}

/// Adding a matrix that stores nothing changes nothing, in dense form.
pub proof fn lemma_sum_with_zero(a: CsMatrix, z: CsMatrix, s: CsMatrix)
    requires
        a.wf(),
        z.wf(),
        a.no_dup(),
        z.nnz() == 0,
        a.nrows() == z.nrows(),
        a.ncols() == z.ncols(),
        a.is_sum(&z, s),
    ensures
        s.dense_view() == a.dense_view(),
{
    assert(z.no_dup()) by {
        assert forall|j: int| 0 <= j < z.ncols() implies #[trigger] z.distinct_rows(z.start(j), z.end(j)) by {
            z.lemma_col_bounds(j);
        }
    }
    lemma_sum_is_dense_sum(a, z, s);
    let x = dense_sum(a.dense_view(), z.dense_view());
    let y = a.dense_view();
    assert forall|j: int| 0 <= j < a.ncols() implies #[trigger] x[j] == y[j] by {
        assert forall|r: int| 0 <= r < a.nrows() implies #[trigger] x[j][r] == y[j][r] by {
            z.lemma_col_bounds(j);
            crate::scalar::lemma_reduce_scalar(y[j][r]);
        }
        assert(x[j] =~= y[j]);
    }
    assert(x =~= y);
}

/// The sum over `k < n` of `a`'s column `k` sum in row `r` times the sum of
/// `b`'s entries in row `k` at positions from the start of `b`'s column `j` up to `hi`.
spec fn weighted(a: CsMatrix, b: CsMatrix, j: int, r: int, hi: int, n: int) -> int
    decreases n,
{
    if n <= 0 {
        0
    } else {
        weighted(a, b, j, r, hi, n - 1) + a.col_sum(n - 1, r) * b.sum_range(n - 1, b.start(j), hi)
    }
}

proof fn lemma_weighted_empty(a: CsMatrix, b: CsMatrix, j: int, r: int, n: int)
    ensures
        weighted(a, b, j, r, b.start(j), n) == 0,
    decreases n,
{
    if n > 0 {
        lemma_weighted_empty(a, b, j, r, n - 1);
        assert(a.col_sum(n - 1, r) * 0 == 0) by (nonlinear_arith);
    }
}

/// Taking in the position `hi - 1` of row `c` adds `c`'s term, when `c < n`.
proof fn lemma_weighted_step(a: CsMatrix, b: CsMatrix, j: int, r: int, hi: int, n: int)
    requires
        hi > b.start(j),
    ensures
        weighted(a, b, j, r, hi, n) == weighted(a, b, j, r, hi - 1, n) + if 0 <= b.row(hi - 1) < n {
            a.col_sum(b.row(hi - 1), r) * b.val(hi - 1)
        } else {
            0
        },
    decreases n,
{
    if n > 0 {
        lemma_weighted_step(a, b, j, r, hi, n - 1);
        let f = a.col_sum(n - 1, r);
        let g = b.sum_range(n - 1, b.start(j), hi - 1);
        let v = b.val(hi - 1);
        if b.row(hi - 1) == n - 1 {
            assert(f * (g + v) == f * g + f * v) by (nonlinear_arith);
        }
    }
}

/// Gustavson's column sum, taken over the positions of `b`'s column, equals the
/// sum over the rows of `b`.
proof fn lemma_mul_sum_weighted(a: CsMatrix, b: CsMatrix, j: int, r: int, hi: int)
    requires
        b.wf(),
        0 <= j < b.ncols(),
        b.start(j) <= hi <= b.nnz(),
    ensures
        a.mul_sum_range(&b, j, r, hi) == weighted(a, b, j, r, hi, b.nrows()),
    decreases hi - b.start(j),
{
    if hi == b.start(j) {
        lemma_weighted_empty(a, b, j, r, b.nrows());
    } else {
        lemma_mul_sum_weighted(a, b, j, r, hi - 1);
        lemma_weighted_step(a, b, j, r, hi, b.nrows());
        assert(b.row(hi - 1) < b.nrows());
        let c = b.row(hi - 1);
        assert(b.val(hi - 1) * a.col_sum(c, r) == a.col_sum(c, r) * b.val(hi - 1)) by (nonlinear_arith);
    }
}

proof fn lemma_dot_weighted(a: CsMatrix, b: CsMatrix, j: int, r: int, n: int)
    requires
        a.wf(),
        b.wf(),
        a.no_dup(),
        b.no_dup(),
        a.ncols() == b.nrows(),
        0 <= j < b.ncols(),
        0 <= r < a.nrows(),
        0 <= n <= a.ncols(),
    ensures
        dot(a.dense_view(), b.dense_view(), j, r, n) == weighted(a, b, j, r, b.end(j), n),
    decreases n,
{
    if n > 0 {
        lemma_dot_weighted(a, b, j, r, n - 1);
        lemma_dense_is_col_sum(a, n - 1, r);
        lemma_dense_is_col_sum(b, j, n - 1);
    }
}

/// Sparse multiplication agrees with dense multiplication: the dense form of the
/// product of two compatible matrices, neither storing a row twice in a column,
/// is the product of their dense forms.
pub proof fn lemma_product_is_dense_product(a: CsMatrix, b: CsMatrix, p: CsMatrix)
    requires
        a.wf(),
        b.wf(),
        a.no_dup(),
        b.no_dup(),
        a.ncols() == b.nrows(),
        a.is_product(&b, p),
    ensures
        p.dense_view() == dense_product(a.dense_view(), b.dense_view(), a.nrows()),
{
    let lhs = p.dense_view();
    let rhs = dense_product(a.dense_view(), b.dense_view(), a.nrows());
    assert forall|j: int| 0 <= j < b.ncols() implies #[trigger] lhs[j] == rhs[j] by {
        assert forall|r: int| 0 <= r < a.nrows() implies #[trigger] lhs[j][r] == rhs[j][r] by {
            lemma_dense_is_col_sum(p, j, r);
            b.lemma_col_bounds(j);
            lemma_mul_sum_weighted(a, b, j, r, b.end(j));
            lemma_dot_weighted(a, b, j, r, a.ncols());
        }
        assert(lhs[j] =~= rhs[j]);
    }
    assert(lhs =~= rhs);
}

/// The entry at position `k` of `a`, in column `j`, transposed into `t` and
/// back into `tt`, lies in `tt`'s column `j` with its row and value.
pub open spec fn back_in_place(a: CsMatrix, t: CsMatrix, tt: CsMatrix, j: int, k: int) -> bool {
    let s = t.t_slot(a.t_slot(k));
    &&& tt.start(j) <= s < tt.end(j)
    &&& tt.row(s) == a.row(k)
    &&& tt.val(s) == a.val(k)
}

/// Transposing twice gives back the same entries: each position `k` of `a` is
/// sent, one to one, to a position of `tt` in the same column that holds the
/// same row and value.
pub proof fn lemma_transpose_involution(a: CsMatrix, t: CsMatrix, tt: CsMatrix)
    requires
        a.wf(),
        a.is_transpose(t),
        t.is_transpose(tt),
    ensures
        tt.nrows() == a.nrows(),
        tt.ncols() == a.ncols(),
        tt.nnz() == a.nnz(),
        forall|k1: int, k2: int|
            0 <= k1 < a.nnz() && 0 <= k2 < a.nnz() && k1 != k2 ==> #[trigger] t.t_slot(a.t_slot(k1))
                != #[trigger] t.t_slot(a.t_slot(k2)),
        forall|j: int, k: int|
            0 <= j < a.ncols() && a.start(j) <= k < a.end(j) ==> #[trigger] back_in_place(a, t, tt, j, k),
{
    assert forall|k1: int, k2: int|
        0 <= k1 < a.nnz() && 0 <= k2 < a.nnz() && k1 != k2 implies #[trigger] t.t_slot(a.t_slot(k1))
            != #[trigger] t.t_slot(a.t_slot(k2)) by {
        a.lemma_t_slot_bound(k1);
        a.lemma_t_slot_bound(k2);
        if k1 < k2 {
            a.lemma_t_slot_injective(k1, k2);
        } else {
            a.lemma_t_slot_injective(k2, k1);
        }
        let s1 = a.t_slot(k1);
        let s2 = a.t_slot(k2);
        if s1 < s2 {
            t.lemma_t_slot_injective(s1, s2);
        } else {
            t.lemma_t_slot_injective(s2, s1);
        }
    }
    assert forall|j: int, k: int| 0 <= j < a.ncols() && a.start(j) <= k < a.end(j) implies #[trigger] back_in_place(a, t, tt, j, k) by {
        a.lemma_col_bounds(j);
        let s1 = a.t_slot(k);
        let c = a.row(k);
        assert(a.placed(&t, j, k));
        a.lemma_t_slot_bound(k);
        a.lemma_t_slot_in_column(t, k);
        assert(c < a.nrows());
        assert(t.placed(&tt, c, s1));
        t.lemma_t_slot_in_column(tt, s1);
    }
}

/// Number of entries that are not zero among rows `0 .. n` of a dense column.
pub open spec fn count_nonzero_col(c: Seq<u64>, n: int) -> int
    decreases n,
{
    if n <= 0 {
        0
    } else {
        count_nonzero_col(c, n - 1) + if c[n - 1] != 0 {
            1int
        } else {
            0
        }
    }
}

/// Number of entries that are not zero in columns `0 .. n` of a dense matrix with
/// `nrows` rows.
pub open spec fn count_nonzero(d: Seq<Seq<u64>>, nrows: int, n: int) -> int
    decreases n,
{
    if n <= 0 {
        0
    } else {
        count_nonzero(d, nrows, n - 1) + count_nonzero_col(d[n - 1], nrows)
    }
}

/// Number of rows below `n` that positions `lo .. hi` store.
spec fn count_stored(m: CsMatrix, lo: int, hi: int, n: int) -> int
    decreases n,
{
    if n <= 0 {
        0
    } else {
        count_stored(m, lo, hi, n - 1) + if m.has_range(n - 1, lo, hi) {
            1int
        } else {
            0
        }
    }
}

proof fn lemma_count_stored_empty(m: CsMatrix, lo: int, n: int)
    ensures
        count_stored(m, lo, lo, n) == 0,
    decreases n,
{
    if n > 0 {
        lemma_count_stored_empty(m, lo, n - 1);
    }
}

/// Taking in position `hi - 1`, whose row is new and below `n`, adds one row.
proof fn lemma_count_stored_step(m: CsMatrix, lo: int, hi: int, n: int)
    requires
        lo < hi,
        !m.has_range(m.row(hi - 1), lo, hi - 1),
    ensures
        count_stored(m, lo, hi, n) == count_stored(m, lo, hi - 1, n) + if 0 <= m.row(hi - 1) < n {
            1int
        } else {
            0
        },
    decreases n,
{
    if n > 0 {
        lemma_count_stored_step(m, lo, hi, n - 1);
        let x = n - 1;
        if m.has_range(x, lo, hi) && x != m.row(hi - 1) {
            let k = choose|k: int| lo <= k < hi && #[trigger] m.row(k) == x;
            assert(m.has_range(x, lo, hi - 1));
        }
        if m.has_range(x, lo, hi - 1) {
            let k = choose|k: int| lo <= k < hi - 1 && #[trigger] m.row(k) == x;
            assert(m.has_range(x, lo, hi));
        }
        if x == m.row(hi - 1) {
            assert(m.has_range(x, lo, hi));
        }
    }
}

/// Distinct rows below `n` at positions `lo .. hi` are `hi - lo` rows.
proof fn lemma_count_stored_distinct(m: CsMatrix, lo: int, hi: int, n: int)
    requires
        lo <= hi,
        m.distinct_rows(lo, hi),
        forall|k: int| lo <= k < hi ==> 0 <= #[trigger] m.row(k) < n,
    ensures
        count_stored(m, lo, hi, n) == hi - lo,
    decreases hi - lo,
{
    if hi == lo {
        lemma_count_stored_empty(m, lo, n);
    } else {
        assert(m.distinct_rows(lo, hi - 1));
        lemma_count_stored_distinct(m, lo, hi - 1, n);
        assert(!m.has_range(m.row(hi - 1), lo, hi - 1)) by {
            if m.has_range(m.row(hi - 1), lo, hi - 1) {
                let k = choose|k: int| lo <= k < hi - 1 && #[trigger] m.row(k) == m.row(hi - 1);
                assert(m.row(k) != m.row(hi - 1));
            }
        }
        lemma_count_stored_step(m, lo, hi, n);
    }
}

/// Where a column stores distinct rows and no zero, its dense form has exactly
/// as many entries that are not zero as it stores.
proof fn lemma_count_col(m: CsMatrix, j: int, n: int)
    requires
        m.wf(),
        m.no_dup(),
        forall|k: int| 0 <= k < m.nnz() ==> #[trigger] m.val(k) != 0,
        0 <= j < m.ncols(),
        0 <= n <= m.nrows(),
    ensures
        count_nonzero_col(m.dense_col(j), n) == count_stored(m, m.start(j), m.end(j), n),
    decreases n,
{
    if n > 0 {
        lemma_count_col(m, j, n - 1);
        let r = n - 1;
        m.lemma_col_bounds(j);
        assert(m.distinct_rows(m.start(j), m.end(j)));
        m.lemma_last_distinct(r, m.start(j), m.end(j));
        if m.has_range(r, m.start(j), m.end(j)) {
            let k = choose|k: int| m.start(j) <= k < m.end(j) && #[trigger] m.row(k) == r;
            m.lemma_sum_distinct(r, m.start(j), m.end(j), k);
        } else {
            m.lemma_sum_absent(r, m.start(j), m.end(j));
        }
    }
}

proof fn lemma_count_columns(m: CsMatrix, n: int)
    requires
        m.wf(),
        m.no_dup(),
        forall|k: int| 0 <= k < m.nnz() ==> #[trigger] m.val(k) != 0,
        0 <= n <= m.ncols(),
    ensures
        count_nonzero(m.dense_view(), m.nrows(), n) == m.done(n),
    decreases n,
{
    if n == 0 {
        if m.ncols() > 0 {
            m.lemma_col_bounds(0);
        }
    } else {
        lemma_count_columns(m, n - 1);
        let j = n - 1;
        m.lemma_col_bounds(j);
        lemma_count_col(m, j, m.nrows());
        assert(m.distinct_rows(m.start(j), m.end(j)));
        assert forall|k: int| m.start(j) <= k < m.end(j) implies 0 <= #[trigger] m.row(k) < m.nrows() by {}
        lemma_count_stored_distinct(m, m.start(j), m.end(j), m.nrows());
        assert(m.dense_view()[j] == m.dense_col(j));
    }
}

/// A matrix that stores no row twice in a column and no zero stores exactly as
/// many entries as its dense form has entries that are not zero.
pub proof fn lemma_nnz_exact(m: CsMatrix)
    requires
        m.wf(),
        m.no_dup(),
        forall|k: int| 0 <= k < m.nnz() ==> #[trigger] m.val(k) != 0,
    ensures
        m.nnz() == count_nonzero(m.dense_view(), m.nrows(), m.ncols()),
{
    lemma_count_columns(m, m.ncols());
}

/// The value a column stores at a position is the column's sum for that row.
proof fn lemma_stored_value(m: CsMatrix, k: int) -> (j: int)
    requires
        m.wf(),
        m.no_dup(),
        0 <= k < m.nnz(),
    ensures
        0 <= j < m.ncols(),
        m.has(j, m.row(k)),
        m.val(k) == m.col_sum(j, m.row(k)),
{
    let j = m.col_of(k);
    m.lemma_col_of(k);
    m.lemma_sum_distinct(m.row(k), m.start(j), m.end(j), k);
    j
}

/// Where no sum of stored entries comes to zero, the sum of two matrices stores
/// exactly as many entries as the dense sum has entries that are not zero.
pub proof fn lemma_sum_nnz_exact(a: CsMatrix, b: CsMatrix, s: CsMatrix)
    requires
        a.wf(),
        b.wf(),
        a.no_dup(),
        b.no_dup(),
        a.nrows() == b.nrows(),
        a.ncols() == b.ncols(),
        a.is_sum(&b, s),
        forall|j: int, r: int|
            0 <= j < a.ncols() && 0 <= r < a.nrows() && (a.has(j, r) || b.has(j, r)) ==> reduce(
                #[trigger] a.col_sum(j, r) + #[trigger] b.col_sum(j, r),
            ) != 0,
    ensures
        s.nnz() == count_nonzero(dense_sum(a.dense_view(), b.dense_view()), a.nrows(), a.ncols()),
{
    assert forall|k: int| 0 <= k < s.nnz() implies #[trigger] s.val(k) != 0 by {
        let j = lemma_stored_value(s, k);
        let r = s.row(k);
        assert(s.has(j, r));
        assert(s.col_sum(j, r) == reduce(a.col_sum(j, r) + b.col_sum(j, r)));
    }
    lemma_nnz_exact(s);
    lemma_sum_is_dense_sum(a, b, s);
}

/// Where no column of the product sums to zero at a row it reaches, the product
/// stores exactly as many entries as the dense product has entries that are not zero.
pub proof fn lemma_product_nnz_exact(a: CsMatrix, b: CsMatrix, p: CsMatrix)
    requires
        a.wf(),
        b.wf(),
        a.no_dup(),
        b.no_dup(),
        a.ncols() == b.nrows(),
        a.is_product(&b, p),
        forall|j: int, r: int|
            0 <= j < b.ncols() && 0 <= r < a.nrows() && a.mul_has_range(&b, j, r, b.end(j)) ==> reduce(
                #[trigger] a.mul_sum_range(&b, j, r, b.end(j)),
            ) != 0,
    ensures
        p.nnz() == count_nonzero(dense_product(a.dense_view(), b.dense_view(), a.nrows()), a.nrows(), b.ncols()),
{
    assert forall|k: int| 0 <= k < p.nnz() implies #[trigger] p.val(k) != 0 by {
        let j = lemma_stored_value(p, k);
        let r = p.row(k);
        assert(p.has(j, r));
        assert(p.col_sum(j, r) == reduce(a.mul_sum_range(&b, j, r, b.end(j))));
    }
    lemma_nnz_exact(p);
    lemma_product_is_dense_product(a, b, p);
}

/// Every position of the transpose receives an entry.
proof fn lemma_t_slot_onto(a: CsMatrix, s: int) -> (k: int)
    requires
        a.wf(),
        0 <= s < a.nnz(),
    ensures
        0 <= k < a.nnz(),
        a.t_slot(k) == s,
{
    let x = set_int_range(0, a.nnz());
    let f = |k: int| a.t_slot(k);
    let y = x.map(f);
    lemma_int_range(0, a.nnz());
    assert(vstd::relations::injective_on(f, x)) by {
        assert forall|k1: int, k2: int| x.contains(k1) && x.contains(k2) && #[trigger] f(k1) == #[trigger] f(k2) implies k1 == k2 by {
            if k1 < k2 {
                a.lemma_t_slot_injective(k1, k2);
            } else if k2 < k1 {
                a.lemma_t_slot_injective(k2, k1);
            }
        }
    }
    lemma_map_size(x, y, f);
    assert(y.subset_of(x)) by {
        assert forall|v: int| y.contains(v) implies x.contains(v) by {
            let k = choose|k: int| x.contains(k) && f(k) == v;
            a.lemma_t_slot_bound(k);
        }
    }
    lemma_subset_equality(y, x);
    assert(x.contains(s));
    assert(y.contains(s));
    let k = choose|k: int| x.contains(k) && f(k) == s;
    k
}

/// The transpose of a matrix that stores no row twice in a column lists the rows
/// of each column in increasing order.
pub proof fn lemma_transpose_sorted(a: CsMatrix, t: CsMatrix)
    requires
        a.wf(),
        a.no_dup(),
        a.is_transpose(t),
    ensures
        t.sorted(),
{
    assert forall|r: int| 0 <= r < t.ncols() implies #[trigger] t.sorted_range(t.start(r), t.end(r)) by {
        assert forall|s1: int, s2: int| t.start(r) <= s1 < s2 < t.end(r) implies #[trigger] t.row(s1) < #[trigger] t.row(s2) by {
            t.lemma_col_bounds(r);
            let k1 = lemma_t_slot_onto(a, s1);
            let k2 = lemma_t_slot_onto(a, s2);
            a.lemma_t_slot_in_column(t, k1);
            a.lemma_t_slot_in_column(t, k2);
            let r1 = a.row(k1);
            let r2 = a.row(k2);
            assert(r1 < a.nrows() && r2 < a.nrows());
            // Distinct columns of the transpose do not overlap.
            if r1 < r {
                t.lemma_col_bounds(r1);
                assert(t.start(r1 + 1) <= t.start(r));
            } else if r < r1 {
                assert(t.start(r + 1) <= t.start(r1));
            }
            if r2 < r {
                assert(t.start(r2 + 1) <= t.start(r));
            } else if r < r2 {
                assert(t.start(r + 1) <= t.start(r2));
            }
            assert(r1 == r && r2 == r);
            if k2 <= k1 {
                a.lemma_count_row_mono(r, k2, k1);
            }
            assert(k1 < k2);
            a.lemma_col_of(k1);
            a.lemma_col_of(k2);
            let j1 = a.col_of(k1);
            let j2 = a.col_of(k2);
            assert(a.placed(&t, j1, k1));
            assert(a.placed(&t, j2, k2));
            if j2 < j1 {
                a.lemma_col_bounds(j2);
                if j2 + 1 < a.ncols() {
                    assert(a.start(j2 + 1) <= a.start(j1));
                }
            }
            if j1 == j2 {
                assert(a.distinct_rows(a.start(j1), a.end(j1)));
            }
        }
    }
}

/// Two ranges that store the same rows below `n` count the same rows.
proof fn lemma_count_stored_same(m1: CsMatrix, lo1: int, hi1: int, m2: CsMatrix, lo2: int, hi2: int, n: int)
    requires
        forall|r: int| 0 <= r < n ==> #[trigger] m1.has_range(r, lo1, hi1) == m2.has_range(r, lo2, hi2),
    ensures
        count_stored(m1, lo1, hi1, n) == count_stored(m2, lo2, hi2, n),
    decreases n,
{
    if n > 0 {
        lemma_count_stored_same(m1, lo1, hi1, m2, lo2, hi2, n - 1);
        assert(m1.has_range(n - 1, lo1, hi1) == m2.has_range(n - 1, lo2, hi2));
    }
}

proof fn lemma_count_stored_mono(m: CsMatrix, lo: int, hi: int, x: int, y: int)
    requires
        0 <= x < y,
        m.has_range(x, lo, hi),
    ensures
        count_stored(m, lo, hi, x) + 1 <= count_stored(m, lo, hi, y),
    decreases y - x,
{
    if y > x + 1 {
        lemma_count_stored_mono(m, lo, hi, x, y - 1);
    }
}

/// In a column of increasing rows, the rows below the row at `k` are those before `k`.
proof fn lemma_rank_sorted(m: CsMatrix, lo: int, hi: int, k: int)
    requires
        m.sorted_range(lo, hi),
        lo <= k < hi,
        forall|q: int| lo <= q < hi ==> 0 <= #[trigger] m.row(q),
    ensures
        count_stored(m, lo, hi, m.row(k)) == k - lo,
{
    let x = m.row(k);
    assert forall|r: int| 0 <= r < x implies #[trigger] m.has_range(r, lo, hi) == m.has_range(r, lo, k) by {
        if m.has_range(r, lo, hi) {
            let q = choose|q: int| lo <= q < hi && #[trigger] m.row(q) == r;
            if q >= k {
                if q > k {
                    assert(m.row(k) < m.row(q));
                }
            }
            assert(m.has_range(r, lo, k));
        }
        if m.has_range(r, lo, k) {
            let q = choose|q: int| lo <= q < k && #[trigger] m.row(q) == r;
            assert(m.has_range(r, lo, hi));
        }
    }
    lemma_count_stored_same(m, lo, hi, m, lo, k, x);
    assert(m.distinct_rows(lo, k)) by {
        assert forall|k1: int, k2: int| lo <= k1 < k && lo <= k2 < k && k1 != k2 implies #[trigger] m.row(k1) != #[trigger] m.row(k2) by {
            if k1 < k2 {
                assert(m.row(k1) < m.row(k2));
            } else {
                assert(m.row(k2) < m.row(k1));
            }
        }
    }
    assert forall|q: int| lo <= q < k implies 0 <= #[trigger] m.row(q) < x by {
        assert(m.row(q) < m.row(k));
    }
    lemma_count_stored_distinct(m, lo, k, x);
}

/// Adding a matrix that stores nothing to a matrix whose columns list distinct
/// rows in increasing order gives back the same column starts, rows and values.
pub proof fn lemma_sum_with_zero_arrays(a: CsMatrix, z: CsMatrix, s: CsMatrix)
    requires
        a.wf(),
        z.wf(),
        a.no_dup(),
        a.sorted(),
        z.nnz() == 0,
        a.nrows() == z.nrows(),
        a.ncols() == z.ncols(),
        a.is_sum(&z, s),
    ensures
        s.data.p@ == a.data.p@,
        s.data.i@ == a.data.i@,
        s.data.vals@ == a.data.vals@,
{
    let n = a.nrows();
    // Each column stores the same rows in both, hence as many of them.
    assert forall|j: int, r: int| 0 <= j < a.ncols() && 0 <= r < n implies #[trigger] s.has(j, r) == a.has(j, r) by {
        z.lemma_col_bounds(j);
    }
    assert forall|j: int| 0 <= j < a.ncols() implies #[trigger] s.end(j) - s.start(j) == a.end(j) - a.start(j) by {
        a.lemma_col_bounds(j);
        s.lemma_col_bounds(j);
        assert(a.distinct_rows(a.start(j), a.end(j)));
        assert(s.distinct_rows(s.start(j), s.end(j)));
        assert forall|k: int| a.start(j) <= k < a.end(j) implies 0 <= #[trigger] a.row(k) < n by {}
        assert forall|k: int| s.start(j) <= k < s.end(j) implies 0 <= #[trigger] s.row(k) < n by {}
        lemma_count_stored_distinct(a, a.start(j), a.end(j), n);
        lemma_count_stored_distinct(s, s.start(j), s.end(j), n);
        assert forall|r: int| 0 <= r < n implies #[trigger] s.has_range(r, s.start(j), s.end(j)) == a.has_range(r, a.start(j), a.end(j)) by {
            assert(s.has(j, r) == a.has(j, r));
        }
        lemma_count_stored_same(s, s.start(j), s.end(j), a, a.start(j), a.end(j), n);
    }
    lemma_starts_equal(a, s, a.ncols());
    if a.ncols() > 0 {
        assert(s.end(a.ncols() - 1) - s.start(a.ncols() - 1) == a.end(a.ncols() - 1) - a.start(a.ncols() - 1));
    }
    assert(s.nnz() == a.nnz());
    assert forall|j: int| 0 <= j < a.ncols() implies #[trigger] s.data.p@[j] == a.data.p@[j] by {
        assert(s.start(j) == a.start(j));
    }
    assert(s.data.p@ =~= a.data.p@);
    // Within a column the k-th smallest row is the same in both.
    assert forall|k: int| 0 <= k < a.nnz() implies #[trigger] s.data.i@[k] == a.data.i@[k] && s.data.vals@[k] == a.data.vals@[k] by {
        a.lemma_col_of(k);
        let j = a.col_of(k);
        a.lemma_col_bounds(j);
        assert(s.start(j) == a.start(j));
        assert(s.end(j) == a.end(j));
        let lo = a.start(j);
        let hi = a.end(j);
        assert(a.sorted_range(lo, hi));
        assert(s.sorted_range(lo, hi));
        assert forall|q: int| lo <= q < hi implies 0 <= #[trigger] a.row(q) by {}
        assert forall|q: int| lo <= q < hi implies 0 <= #[trigger] s.row(q) < n by {}
        lemma_rank_sorted(a, lo, hi, k);
        lemma_rank_sorted(s, lo, hi, k);
        let x = s.row(k);
        let y = a.row(k);
        assert(a.row(k) < n);
        assert forall|r: int| 0 <= r < n implies #[trigger] s.has_range(r, lo, hi) == a.has_range(r, lo, hi) by {
            assert(s.has(j, r) == a.has(j, r));
        }
        if x < y {
            lemma_count_stored_same(s, lo, hi, a, lo, hi, x);
            assert(s.has_range(x, lo, hi));
            lemma_count_stored_mono(a, lo, hi, x, y);
        } else if y < x {
            lemma_count_stored_same(s, lo, hi, a, lo, hi, y);
            assert(a.has_range(y, lo, hi));
            lemma_count_stored_mono(s, lo, hi, y, x);
        }
        assert(x == y);
        assert(s.distinct_rows(lo, hi));
        assert(a.distinct_rows(lo, hi));
        s.lemma_sum_distinct(x, lo, hi, k);
        a.lemma_sum_distinct(x, lo, hi, k);
        z.lemma_col_bounds(j);
        assert(s.col_sum(j, x) == reduce(a.col_sum(j, x) + z.col_sum(j, x)));
        crate::scalar::lemma_reduce_scalar(a.data.vals@[k]);
    }
    assert(s.data.i@ =~= a.data.i@);
    assert forall|k: int| 0 <= k < a.nnz() implies #[trigger] s.data.vals@[k] == a.data.vals@[k] by {
        assert(s.data.i@[k] == a.data.i@[k]);
    }
    assert(s.data.vals@ =~= a.data.vals@);
}

/// Where every column holds as many entries in both, the column starts agree.
proof fn lemma_starts_equal(a: CsMatrix, s: CsMatrix, n: int)
    requires
        a.wf(),
        s.wf(),
        s.ncols() == a.ncols(),
        0 <= n <= a.ncols(),
        forall|j: int| 0 <= j < a.ncols() ==> #[trigger] s.end(j) - s.start(j) == a.end(j) - a.start(j),
    ensures
        forall|j: int| 0 <= j < n ==> #[trigger] s.start(j) == a.start(j),
    decreases n,
{
    if n > 0 {
        lemma_starts_equal(a, s, n - 1);
        if n == 1 {
            assert(s.start(0) == 0 && a.start(0) == 0);
        } else {
            assert(s.start(n - 2) == a.start(n - 2));
            assert(s.end(n - 2) - s.start(n - 2) == a.end(n - 2) - a.start(n - 2));
        }
    }
}

} // verus!
