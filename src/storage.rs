use std::ops::Range;
use vstd::prelude::*;

verus! {

/// Read access to compressed-sparse-column storage.
///
/// Column `j` occupies positions `starts[j] .. ends` of the row-index and value
/// sequences, where `ends` is `starts[j + 1]`, or the number of stored values for
/// the last column.
pub trait CsStorage {
    /// The number of rows and columns.
    spec fn shape_view(&self) -> (usize, usize);

    /// The position where each column begins.
    spec fn starts_view(&self) -> Seq<usize>;

    /// The row of each stored value.
    spec fn rows_view(&self) -> Seq<usize>;

    /// The stored values.
    spec fn values_view(&self) -> Seq<u64>;

    fn shape(&self) -> (r: (usize, usize))
        ensures
            r == self.shape_view(),
    ;

    fn nvalues(&self) -> (r: usize)
        ensures
            r == self.values_view().len(),
    ;

    /// The row of the `i`-th stored value; the caller has established the bound.
    fn row_index_unchecked(&self, i: usize) -> (r: usize)
        requires
            i < self.rows_view().len(),
        ensures
            r == self.rows_view()[i as int],
    ;

    /// The `i`-th stored value; the caller has established the bound.
    fn get_value_unchecked(&self, i: usize) -> (r: &u64)
        requires
            i < self.values_view().len(),
        ensures
            *r == self.values_view()[i as int],
    ;

    fn get_value(&self, i: usize) -> (r: &u64)
        requires
            i < self.values_view().len(),
        ensures
            *r == self.values_view()[i as int],
    ;

    fn row_index(&self, i: usize) -> (r: usize)
        requires
            i < self.rows_view().len(),
        ensures
            r == self.rows_view()[i as int],
    ;

    /// The positions of column `j`.
    fn column_range(&self, j: usize) -> (r: Range<usize>)
        requires
            j < self.starts_view().len(),
        ensures
            r.start == self.starts_view()[j as int],
            r.end == (if j + 1 == self.starts_view().len() {
                self.values_view().len()
            } else {
                self.starts_view()[j + 1] as nat
            }),
    ;
}

/// Storage that may be written; it offers no more than reading for now.
pub trait CsStorageMut: CsStorage {
}

/// Compressed-sparse-column storage held in vectors.
#[derive(Clone, Debug)]
pub struct CsVecStorage {
    /// Number of rows.
    pub nrows: usize,
    /// Number of columns.
    pub ncols: usize,
    /// Where each column begins in `i` and `vals`.
    pub p: Vec<usize>,
    /// Row of each stored value.
    pub i: Vec<usize>,
    /// Stored values.
    pub vals: Vec<u64>,
}

impl CsStorage for CsVecStorage {
    open spec fn shape_view(&self) -> (usize, usize) {
        (self.nrows, self.ncols)
    }

    open spec fn starts_view(&self) -> Seq<usize> {
        self.p@
    }

    open spec fn rows_view(&self) -> Seq<usize> {
        self.i@
    }

    open spec fn values_view(&self) -> Seq<u64> {
        self.vals@
    }

    fn shape(&self) -> (r: (usize, usize)) {
        (self.nrows, self.ncols)
    }

    fn nvalues(&self) -> (r: usize) {
        self.vals.len()
    }

    fn row_index_unchecked(&self, i: usize) -> (r: usize) {
        self.i[i]
    }

    fn get_value_unchecked(&self, i: usize) -> (r: &u64) {
        &self.vals[i]
    }

    fn get_value(&self, i: usize) -> (r: &u64) {
        &self.vals[i]
    }

    fn row_index(&self, i: usize) -> (r: usize) {
        self.i[i]
    }

    fn column_range(&self, j: usize) -> (r: Range<usize>) {
        let end = if j == self.p.len() - 1 {
            self.nvalues()
        } else {
            self.p[j + 1]
        };
        self.p[j]..end
    }
}

impl CsStorageMut for CsVecStorage {
}

} // verus!
