//! A matrix of fixed dimensions with indexed access, row and column views,
//! and the three elementary row operations.
use vstd::prelude::*;
use vstd::std_specs::iter::IteratorSpec;

verus! {

/// One row of a matrix.
#[derive(Debug)]
pub struct MatrixArray<T> {
    pub entries: Vec<T>,
}

impl<T> MatrixArray<T> {
    /// The entries of the row, first to last.
    pub fn iter(&self) -> (it: std::slice::Iter<'_, T>)
        ensures
            it.remaining() == self.entries@.as_ref(),
    {
        self.entries.as_slice().iter()
    }
}

/// Returned by the two-row operations when both row indices are the same.
#[derive(Clone, Copy, Debug, PartialEq, Eq, Structural)]
pub struct IndexConflict {
    pub index: usize,
}

/// A matrix of `num_rows() x num_cols()` entries stored row by row.
/// Its dimensions are fixed when it is built and never change.
#[derive(Debug)]
pub struct Matrix<T> {
    row_major: Vec<MatrixArray<T>>,
    cols: usize,
}

/// The rows of a grid as a sequence of sequences.
pub open spec fn grid_view<T>(g: Seq<Vec<T>>) -> Seq<Seq<T>> {
    g.map_values(|r: Vec<T>| r@)
}

/// A grid with at least one row, at least one column, and rows of equal length.
pub open spec fn is_rectangular<T>(g: Seq<Seq<T>>) -> bool {
    &&& g.len() > 0
    &&& g[0].len() > 0
    &&& forall|i: int| 0 <= i < g.len() ==> #[trigger] g[i].len() == g[0].len()
}

impl<T> View for Matrix<T> {
    type V = Seq<Seq<T>>;

    closed spec fn view(&self) -> Seq<Seq<T>> {
        self.row_major@.map_values(|r: MatrixArray<T>| r.entries@)
    }
}

impl<T> Matrix<T> {
    /// The number of columns, as fixed at construction.
    pub closed spec fn cols_spec(&self) -> nat {
        self.cols as nat
    }

    /// The dimensions are positive and every row holds exactly `cols_spec()` entries.
    pub open spec fn wf(&self) -> bool {
        &&& is_rectangular(self@)
        &&& self@[0].len() == self.cols_spec()
    }

    /// The entry at row `i`, column `j`.
    pub open spec fn at(&self, i: int, j: int) -> T {
        self@[i][j]
    }

    /// Builds a matrix from its rows.
    pub fn new_row_major(row_major: Vec<Vec<T>>) -> (m: Self)
        requires
            is_rectangular(grid_view(row_major@)),
        ensures
            m.wf(),
            m@ == grid_view(row_major@),
    {
        let ghost g = grid_view(row_major@);
        let cols = row_major[0].len();
        let mut rows: Vec<MatrixArray<T>> = Vec::new();
        let mut source = row_major;
        while source.len() > 0
            invariant
                rows@.len() + source@.len() == g.len(),
                forall|k: int| 0 <= k < rows@.len() ==> #[trigger] rows@[k].entries@ == g[k],
                forall|k: int|
                    0 <= k < source@.len() ==> #[trigger] source@[k]@ == g[rows@.len() + k],
            decreases source@.len(),
        {
            let r = source.remove(0);
            rows.push(MatrixArray { entries: r });
        }
        let m = Matrix { row_major: rows, cols };
        assert(m@ =~= g);
        m
    }
}

impl<T: Copy> Matrix<T> {
    /// The number of rows.
    pub fn num_rows(&self) -> (n: usize)
        requires
            self.wf(),
        ensures
            n == self@.len(),
    {
        self.row_major.len()
    }

    /// The number of columns.
    pub fn num_cols(&self) -> (n: usize)
        requires
            self.wf(),
        ensures
            n == self@[0].len(),
    {
        self.cols
    }

    /// The entry at row `i`, column `j`.
    pub fn entry(&self, i: usize, j: usize) -> (v: T)
        requires
            self.wf(),
            i < self@.len(),
            j < self@[0].len(),
        ensures
            v == self.at(i as int, j as int),
    {
        assert(self@[i as int].len() == self@[0].len());
        self.row_major[i].entries[j]
    }

    /// Overwrites the entry at row `i`, column `j`.
    pub fn set_entry(&mut self, i: usize, j: usize, v: T)
        requires
            old(self).wf(),
            i < old(self)@.len(),
            j < old(self)@[0].len(),
        ensures
            final(self).wf(),
            final(self)@ == old(self)@.update(i as int, old(self)@[i as int].update(j as int, v)),
    {
        let ghost before = self@;
        assert(self@[i as int].len() == self@[0].len());
        self.row_major[i].entries[j] = v;
        assert(self@ =~= before.update(i as int, before[i as int].update(j as int, v)));
    }

    /// A view of row `i`.
    pub fn row(&self, i: usize) -> (r: &MatrixArray<T>)
        requires
            self.wf(),
            i < self@.len(),
        ensures
            r.entries@ == self@[i as int],
    {
        &self.row_major[i]
    }

    /// A copy of column `j`, from the first row to the last.
    pub fn col(&self, j: usize) -> (c: Vec<T>)
        requires
            self.wf(),
            j < self@[0].len(),
        ensures
            c@ == column_of(self@, j as int),
    {
        let mut c: Vec<T> = Vec::new();
        let mut i: usize = 0;
        while i < self.row_major.len()
            invariant
                self.wf(),
                j < self@[0].len(),
                i <= self@.len(),
                c@ == column_of(self@, j as int).take(i as int),
            decreases self@.len() - i,
        {
            c.push(self.entry(i, j));
            i = i + 1;
            assert(c@ =~= column_of(self@, j as int).take(i as int));
        }
        assert(c@ =~= column_of(self@, j as int));
        c
    }
}

impl<T: Copy> Matrix<T> {
    /// Exchanges rows `i` and `j`; fails, changing nothing, when `i == j`.
    pub fn ero_swap(&mut self, i: usize, j: usize) -> (r: Result<(), IndexConflict>)
        requires
            old(self).wf(),
            i < old(self)@.len(),
            j < old(self)@.len(),
        ensures
            final(self).wf(),
            r is Err <==> i == j,
            r is Err ==> r == Err::<(), IndexConflict>(IndexConflict { index: i }),
            r is Err ==> final(self)@ == old(self)@,
            r is Ok ==> final(self)@ == swapped_rows(old(self)@, i as int, j as int),
    {
        if i == j {
            return Err(IndexConflict { index: i });
        }
        let ghost g = self@;
        let n = self.cols;
        let mut k: usize = 0;
        while k < n
            invariant
                self.wf(),
                n == self@[0].len(),
                self@.len() == g.len(),
                i < g.len(),
                j < g.len(),
                i != j,
                k <= n,
                is_rectangular(g),
                g[0].len() == n,
                forall|r: int|
                    0 <= r < g.len() && r != i && r != j ==> #[trigger] self@[r] == g[r],
                self@[i as int] == g[j as int].take(k as int) + g[i as int].skip(k as int),
                self@[j as int] == g[i as int].take(k as int) + g[j as int].skip(k as int),
            decreases n - k,
        {
            assert(g[i as int].len() == g[0].len());
            assert(g[j as int].len() == g[0].len());
            let a = self.entry(i, k);
            let b = self.entry(j, k);
            self.set_entry(i, k, b);
            self.set_entry(j, k, a);
            k = k + 1;
            assert(self@[i as int] =~= g[j as int].take(k as int) + g[i as int].skip(k as int));
            assert(self@[j as int] =~= g[i as int].take(k as int) + g[j as int].skip(k as int));
        }
        assert(g[i as int].len() == g[0].len());
        assert(g[j as int].len() == g[0].len());
        assert(self@[i as int] =~= g[j as int]);
        assert(self@[j as int] =~= g[i as int]);
        assert(self@ =~= swapped_rows(g, i as int, j as int));
        Ok(())
    }

    /// Multiplies every entry of row `i` by `scale`, each product computed by `times`.
    pub fn ero_scale(&mut self, i: usize, scale: T, times: impl Fn(T, T) -> T)
        requires
            old(self).wf(),
            i < old(self)@.len(),
            forall|a: T, b: T| #[trigger] times.requires((a, b)),
        ensures
            final(self).wf(),
            final(self)@.len() == old(self)@.len(),
            forall|r: int|
                0 <= r < old(self)@.len() && r != i ==> #[trigger] final(self)@[r] == old(self)@[r],
            final(self)@[i as int].len() == old(self)@[i as int].len(),
            forall|k: int|
                0 <= k < old(self)@[i as int].len() ==> times.ensures(
                    (old(self)@[i as int][k], scale),
                    #[trigger] final(self)@[i as int][k],
                ),
    {
        let ghost g = self@;
        let n = self.cols;
        let mut k: usize = 0;
        assert(g[i as int].len() == g[0].len());
        while k < n
            invariant
                self.wf(),
                n == self@[0].len(),
                self@.len() == g.len(),
                i < g.len(),
                k <= n,
                g[i as int].len() == n,
                forall|a: T, b: T| #[trigger] times.requires((a, b)),
                forall|r: int| 0 <= r < g.len() && r != i ==> #[trigger] self@[r] == g[r],
                self@[i as int].len() == n,
                forall|c: int| k <= c < n ==> #[trigger] self@[i as int][c] == g[i as int][c],
                forall|c: int|
                    0 <= c < k ==> times.ensures((g[i as int][c], scale), #[trigger] self@[i as int][c]),
            decreases n - k,
        {
            let v = times(self.entry(i, k), scale);
            self.set_entry(i, k, v);
            k = k + 1;
        }
    }

    /// Row `i` becomes row `i` plus `scale` times row `j`, each entry computed as
    /// `mul_add(entry_i, scale, entry_j)`; fails, changing nothing, when `i == j`.
    pub fn ero(&mut self, i: usize, scale: T, j: usize, mul_add: impl Fn(T, T, T) -> T) -> (r:
        Result<(), IndexConflict>)
        requires
            old(self).wf(),
            i < old(self)@.len(),
            j < old(self)@.len(),
            forall|a: T, b: T, c: T| #[trigger] mul_add.requires((a, b, c)),
        ensures
            final(self).wf(),
            r is Err <==> i == j,
            r is Err ==> r == Err::<(), IndexConflict>(IndexConflict { index: i }),
            r is Err ==> final(self)@ == old(self)@,
            final(self)@.len() == old(self)@.len(),
            forall|q: int|
                0 <= q < old(self)@.len() && q != i ==> #[trigger] final(self)@[q] == old(self)@[q],
            final(self)@[i as int].len() == old(self)@[i as int].len(),
            r is Ok ==> forall|k: int|
                0 <= k < old(self)@[i as int].len() ==> mul_add.ensures(
                    (old(self)@[i as int][k], scale, old(self)@[j as int][k]),
                    #[trigger] final(self)@[i as int][k],
                ),
    {
        if i == j {
            return Err(IndexConflict { index: i });
        }
        let ghost g = self@;
        let n = self.cols;
        let mut k: usize = 0;
        assert(g[i as int].len() == g[0].len());
        assert(g[j as int].len() == g[0].len());
        while k < n
            invariant
                self.wf(),
                n == self@[0].len(),
                self@.len() == g.len(),
                i < g.len(),
                j < g.len(),
                i != j,
                k <= n,
                g[i as int].len() == n,
                g[j as int].len() == n,
                forall|a: T, b: T, c: T| #[trigger] mul_add.requires((a, b, c)),
                forall|r: int| 0 <= r < g.len() && r != i ==> #[trigger] self@[r] == g[r],
                self@[i as int].len() == n,
                forall|c: int| k <= c < n ==> #[trigger] self@[i as int][c] == g[i as int][c],
                forall|c: int|
                    0 <= c < k ==> mul_add.ensures(
                        (g[i as int][c], scale, g[j as int][c]),
                        #[trigger] self@[i as int][c],
                    ),
            decreases n - k,
        {
            let v = mul_add(self.entry(i, k), scale, self.entry(j, k));
            self.set_entry(i, k, v);
            k = k + 1;
        }
        Ok(())
    }
}

/// Walks one column of a matrix from the first row down, one entry per call
/// of [`MatrixColIter::next`].
pub struct MatrixColIter<'a, T> {
    matrix: &'a Matrix<T>,
    col_ix: usize,
    row_ix: usize,
}

impl<'a, T: Copy> MatrixColIter<'a, T> {
    /// The column being walked.
    pub closed spec fn column(&self) -> Seq<T> {
        column_of(self.matrix@, self.col_ix as int)
    }

    /// How many entries have been handed out so far.
    pub closed spec fn position(&self) -> nat {
        self.row_ix as nat
    }

    /// The walk is over a well-formed matrix and a column inside it.
    pub closed spec fn wf(&self) -> bool {
        &&& self.matrix.wf()
        &&& self.col_ix < self.matrix@[0].len()
        &&& self.row_ix <= self.matrix@.len()
    }

    /// The next entry of the column, or `None` once every row has been passed.
    pub fn next(&mut self) -> (r: Option<T>)
        requires
            old(self).wf(),
        ensures
            final(self).wf(),
            final(self).column() == old(self).column(),
            old(self).position() < old(self).column().len() ==> {
                &&& r == Some(old(self).column()[old(self).position() as int])
                &&& final(self).position() == old(self).position() + 1
            },
            old(self).position() >= old(self).column().len() ==> {
                &&& r is None
                &&& final(self).position() == old(self).position()
            },
    {
        if self.row_ix < self.matrix.num_rows() {
            let v = self.matrix.entry(self.row_ix, self.col_ix);
            self.row_ix = self.row_ix + 1;
            Some(v)
        } else {
            None
        }
    }
}

impl<T: Copy> Matrix<T> {
    /// A walk down column `j`, starting at the first row.
    pub fn col_iter(&self, j: usize) -> (it: MatrixColIter<'_, T>)
        requires
            self.wf(),
            j < self@[0].len(),
        ensures
            it.wf(),
            it.column() == column_of(self@, j as int),
            it.position() == 0,
    {
        MatrixColIter { matrix: self, col_ix: j, row_ix: 0 }
    }
}

/// A grid with rows `i` and `j` exchanged.
pub open spec fn swapped_rows<T>(g: Seq<Seq<T>>, i: int, j: int) -> Seq<Seq<T>> {
    g.update(i, g[j]).update(j, g[i])
}

/// Column `j` of a grid, from the first row to the last.
pub open spec fn column_of<T>(g: Seq<Seq<T>>, j: int) -> Seq<T> {
    Seq::new(g.len(), |i: int| g[i][j])
}

} // verus!
