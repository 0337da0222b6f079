//! A rectangular two-dimensional grid of 8-bit integer cells.
//!
//! The engine's grid values are stored row-major in a flat vector together
//! with their shape; all grid-reading logic is expressed over the `cell`
//! spec function.
use vstd::prelude::*;

verus! {

/// A rectangular grid of `i8` cells, stored row-major.
#[derive(Debug, PartialEq, Eq, Hash)]
pub struct Grid {
    pub rows: usize,
    pub cols: usize,
    pub data: Vec<i8>,
}

/// The mathematical value of a grid: its shape and its cells in row-major
/// order.
#[verifier::ext_equal]
pub struct GridView {
    pub rows: int,
    pub cols: int,
    pub cells: Seq<i8>,
}

impl GridView {
    /// The cell vector holds exactly `rows * cols` cells.
    pub open spec fn wf(self) -> bool {
        self.cells.len() == self.rows * self.cols && self.rows >= 0 && self.cols >= 0
    }

    /// The cell in row `i`, column `j`.
    pub open spec fn cell(self, i: int, j: int) -> i8 {
        self.cells[i * self.cols + j]
    }

    /// A coordinate pair lies inside the grid.
    pub open spec fn contains_index(self, i: int, j: int) -> bool {
        0 <= i < self.rows && 0 <= j < self.cols
    }
}

impl View for Grid {
    type V = GridView;

    open spec fn view(&self) -> GridView {
        GridView { rows: self.rows as int, cols: self.cols as int, cells: self.data@ }
    }
}

impl Grid {
    /// The backing vector holds exactly `rows * cols` cells.
    pub open spec fn wf(self) -> bool {
        self.data@.len() == self.rows * self.cols
    }

    pub open spec fn spec_rows(self) -> int {
        self.rows as int
    }

    pub open spec fn spec_cols(self) -> int {
        self.cols as int
    }

    /// The cell in row `i`, column `j`.
    pub open spec fn cell(self, i: int, j: int) -> i8 {
        self.data@[i * self.cols + j]
    }

    /// Structural equality: same shape and the same cells.
    pub open spec fn eq_spec(self, other: Grid) -> bool {
        self.rows == other.rows && self.cols == other.cols && self.data@ == other.data@
    }

    /// A coordinate pair lies inside the grid.
    pub open spec fn contains_index(self, i: int, j: int) -> bool {
        0 <= i < self.rows && 0 <= j < self.cols
    }

    pub fn nrows(&self) -> (r: usize)
        ensures
            r == self.spec_rows(),
    {
        self.rows
    }

    pub fn ncols(&self) -> (r: usize)
        ensures
            r == self.spec_cols(),
    {
        self.cols
    }

    /// Builds a grid from its shape and row-major cell vector; rejects a
    /// vector whose length does not match the shape.
    pub fn new(rows: usize, cols: usize, data: Vec<i8>) -> (r: Option<Grid>)
        ensures
            r is Some <==> rows * cols == data@.len(),
            r matches Some(g) ==> g.wf() && g.spec_rows() == rows && g.spec_cols() == cols
                && g.data@ == data@,
    {
        let len = data.len();
        match rows.checked_mul(cols) {
            Some(n) => {
                if n == len {
                    Some(Grid { rows, cols, data })
                } else {
                    None
                }
            },
            None => None,
        }
    }

    /// Builds a grid from a vector of rows; rejects ragged input.
    pub fn from_rows(rows_vec: &Vec<Vec<i8>>) -> (r: Option<Grid>)
        ensures
            r is Some <==> (forall|i: int|
                0 <= i < rows_vec@.len() ==> #[trigger] rows_vec@[i]@.len()
                    == rows_vec@[0]@.len()),
            r matches Some(g) ==> {
                &&& g.wf()
                &&& g.spec_rows() == rows_vec@.len()
                &&& g.spec_cols() == (if rows_vec@.len() == 0 { 0int } else {
                    rows_vec@[0]@.len() as int
                })
                &&& forall|i: int, j: int|
                    g.contains_index(i, j) ==> #[trigger] g.cell(i, j) == rows_vec@[i]@[j]
            },
    {
        let nr = rows_vec.len();
        if nr == 0 {
            return Some(Grid { rows: 0, cols: 0, data: Vec::new() });
        }
        let nc = rows_vec[0].len();
        let mut data: Vec<i8> = Vec::new();
        let mut i: usize = 0;
        while i < nr
            invariant
                i <= nr,
                nr == rows_vec@.len(),
                nc == rows_vec@[0]@.len(),
                data@.len() == i * nc,
                forall|p: int| 0 <= p < i ==> #[trigger] rows_vec@[p]@.len() == nc,
                forall|p: int, q: int|
                    0 <= p < i && 0 <= q < nc ==> #[trigger] data@[p * nc + q] == rows_vec@[p]@[q],
            decreases nr - i,
        {
            let row = &rows_vec[i];
            if row.len() != nc {
                return None;
            }
            let mut j: usize = 0;
            while j < nc
                invariant
                    j <= nc,
                    i < nr,
                    nr == rows_vec@.len(),
                    nc == rows_vec@[0]@.len(),
                    rows_vec@[i as int]@.len() == nc,
                    row == rows_vec@[i as int],
                    data@.len() == i * nc + j,
                    forall|p: int| 0 <= p < i ==> #[trigger] rows_vec@[p]@.len() == nc,
                    forall|p: int, q: int|
                        0 <= p < i && 0 <= q < nc ==> #[trigger] data@[p * nc + q]
                            == rows_vec@[p]@[q],
                    forall|q: int| 0 <= q < j ==> #[trigger] data@[i * nc + q]
                        == rows_vec@[i as int]@[q],
                decreases nc - j,
            {
                data.push(row[j]);
                j += 1;
                proof {
                    assert forall|p: int, q: int|
                        0 <= p < i && 0 <= q < nc implies #[trigger] data@[p * nc + q]
                            == rows_vec@[p]@[q] by {
                        lemma_row_major_in_range(p, q, i as int, nc as int);
                    }
                }
            }
            proof {
                assert((i + 1) * nc == i * nc + nc) by (nonlinear_arith);
                assert forall|p: int, q: int|
                    0 <= p < i + 1 && 0 <= q < nc implies #[trigger] data@[p * nc + q]
                        == rows_vec@[p]@[q] by {
                    lemma_row_major_in_range(p, q, i + 1, nc as int);
                }
            }
            i += 1;
        }
        let g = Grid { rows: nr, cols: nc, data };
        proof {
            assert forall|p: int, q: int| g.contains_index(p, q) implies #[trigger] g.cell(p, q)
                == rows_vec@[p]@[q] by {}
        }
        Some(g)
    }

    /// Checks that the backing vector matches the shape.
    pub fn check_wf(&self) -> (r: bool)
        ensures
            r == self.wf(),
    {
        let len = self.data.len();
        match self.rows.checked_mul(self.cols) {
            Some(n) => n == len,
            None => false,
        }
    }

    /// Reads the cell in row `i`, column `j`.
    pub fn get(&self, i: usize, j: usize) -> (r: i8)
        requires
            self.wf(),
            i < self.spec_rows(),
            j < self.spec_cols(),
        ensures
            r == self.cell(i as int, j as int),
    {
        let n = self.data.len();
        proof {
            lemma_row_major_in_range(i as int, j as int, self.rows as int, self.cols as int);
            assert(i * self.cols + j < n);
        }
        self.data[i * self.cols + j]
    }

    /// Overwrites the cell in row `i`, column `j`.
    pub fn set(&mut self, i: usize, j: usize, v: i8)
        requires
            old(self).wf(),
            i < old(self).spec_rows(),
            j < old(self).spec_cols(),
        ensures
            final(self).wf(),
            final(self).spec_rows() == old(self).spec_rows(),
            final(self).spec_cols() == old(self).spec_cols(),
            final(self).cell(i as int, j as int) == v,
            forall|p: int, q: int|
                old(self).contains_index(p, q) && !(p == i && q == j)
                    ==> #[trigger] final(self).cell(p, q) == old(self).cell(p, q),
    {
        let n = self.data.len();
        proof {
            lemma_row_major_in_range(i as int, j as int, self.rows as int, self.cols as int);
            assert(i * self.cols + j < n);
        }
        let idx = i * self.cols + j;
        self.data.set(idx, v);
        proof {
            assert forall|p: int, q: int|
                old(self).contains_index(p, q) && !(p == i && q == j)
                    implies #[trigger] final(self).cell(p, q) == old(self).cell(p, q) by {
                lemma_row_major_in_range(p, q, self.rows as int, self.cols as int);
                if p * self.cols + q == i * self.cols + j {
                    lemma_row_major_injective(p, q, i as int, j as int, self.cols as int);
                }
            }
        }
    }

    /// Compares two grids structurally.
    pub fn equals(&self, other: &Grid) -> (r: bool)
        ensures
            r == self.eq_spec(*other),
    {
        if self.rows != other.rows || self.cols != other.cols {
            return false;
        }
        if self.data.len() != other.data.len() {
            return false;
        }
        let n = self.data.len();
        let mut k: usize = 0;
        while k < n
            invariant
                k <= n,
                n == self.data@.len(),
                n == other.data@.len(),
                forall|p: int| 0 <= p < k ==> self.data@[p] == other.data@[p],
            decreases n - k,
        {
            if self.data[k] != other.data[k] {
                return false;
            }
            k += 1;
        }
        proof {
            assert(self.data@ =~= other.data@);
        }
        true
    }

    /// The sum of all cells, as a mathematical integer.
    pub open spec fn spec_sum(self) -> int {
        sum_of(self.data@)
    }

    /// Computes the cell sum exactly (an `i8` grid cannot overflow an `i128`).
    pub fn cell_sum(&self) -> (r: i128)
        ensures
            r == self.spec_sum(),
            -128 * self.data@.len() <= r <= 127 * self.data@.len(),
    {
        let n = self.data.len();
        let mut acc: i128 = 0;
        let mut k: usize = 0;
        while k < n
            invariant
                k <= n,
                n == self.data@.len(),
                acc == sum_of(self.data@.subrange(0, k as int)),
                -128 * k <= acc <= 127 * k,
            decreases n - k,
        {
            proof {
                assert(self.data@.subrange(0, k + 1) == self.data@.subrange(0, k as int).push(
                    self.data@[k as int]));
                lemma_sum_of_push(self.data@.subrange(0, k as int), self.data@[k as int]);
            }
            acc = acc + self.data[k] as i128;
            k += 1;
        }
        proof {
            assert(self.data@.subrange(0, n as int) == self.data@);
        }
        acc
    }
}

impl Clone for Grid {
    /// A clone is an independent grid with the same shape and cells.
    fn clone(&self) -> (res: Grid)
        ensures
            res.eq_spec(*self),
    {
        let res = Grid { rows: self.rows, cols: self.cols, data: self.data.clone() };
        proof {
            assert(res.data@ =~= self.data@);
        }
        res
    }
}

/// Two well-formed grid views of the same shape with equal cells at every
/// coordinate are equal.
pub proof fn lemma_grid_view_cellwise(g: GridView, h: GridView)
    requires
        g.wf(),
        h.wf(),
        g.rows == h.rows,
        g.cols == h.cols,
        forall|i: int, j: int| g.contains_index(i, j) ==> #[trigger] g.cell(i, j) == h.cell(i, j),
    ensures
        g == h,
{
    assert forall|t: int| 0 <= t < g.cells.len() implies g.cells[t] == h.cells[t] by {
        assert(g.cols > 0) by {
            if g.cols <= 0 {
                assert(g.cells.len() == g.rows * g.cols == 0) by (nonlinear_arith)
                    requires
                        g.cells.len() == g.rows * g.cols,
                        g.rows >= 0,
                        g.cols == 0,
                ;
            }
        }
        let i = t / g.cols;
        let j = t % g.cols;
        vstd::arithmetic::div_mod::lemma_fundamental_div_mod(t, g.cols);
        vstd::arithmetic::div_mod::lemma_mod_bound(t, g.cols);
        assert(i >= 0) by (nonlinear_arith)
            requires
                t >= 0,
                g.cols >= 1,
                j < g.cols,
                t == g.cols * i + j,
        ;
        assert(i < g.rows) by (nonlinear_arith)
            requires
                t < g.rows * g.cols,
                g.cols >= 1,
                0 <= j,
                t == g.cols * i + j,
        ;
        assert(g.contains_index(i, j));
        assert(g.cell(i, j) == h.cell(i, j));
        assert(t == i * g.cols + j);
    }
    assert(g.cells =~= h.cells);
    assert(g =~= h);
}

/// The sum of a sequence of cells.
pub open spec fn sum_of(s: Seq<i8>) -> int
    decreases s.len(),
{
    if s.len() == 0 {
        0
    } else {
        sum_of(s.drop_last()) + s.last()
    }
}

proof fn lemma_sum_of_push(s: Seq<i8>, v: i8)
    ensures
        sum_of(s.push(v)) == sum_of(s) + v,
{
    assert(s.push(v).drop_last() == s);
}

/// Row-major index arithmetic: an in-range coordinate pair addresses a cell
/// inside the backing vector.
pub proof fn lemma_row_major_in_range(i: int, j: int, rows: int, cols: int)
    by (nonlinear_arith)
    requires
        0 <= i < rows,
        0 <= j < cols,
    ensures
        0 <= i * cols + j < rows * cols,
{
}

/// Row-major index arithmetic: distinct in-range coordinate pairs address
/// distinct cells.
pub proof fn lemma_row_major_injective(i: int, j: int, p: int, q: int, cols: int)
    by (nonlinear_arith)
    requires
        0 <= i,
        0 <= p,
        0 <= j < cols,
        0 <= q < cols,
        i * cols + j == p * cols + q,
    ensures
        i == p && j == q,
{
}

} // verus!
