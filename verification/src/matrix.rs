//! The two-dimensional grid of group elements used during proactive
//! resharing. Cells are stored column-major; column zero holds the
//! per-vote verifying shares of the current epoch, the other columns are
//! auxiliary recovery columns. Row and column indices double as
//! evaluation points (index zero is the secret's).

use vstd::prelude::*;
use crate::curve::{el_add, el_clone, el_identity, fadd, point_log};
use crate::ids::num_to_identifier;
use crate::interpolate::{interp_eval, interpolate_and_evaluate_points};
use crate::poly::{poly_eval, PolynomialCommitment};

verus! {

pub struct Matrix {
    rows: usize,
    cols: usize,
    inner: Vec<k256::ProjectivePoint>,
}

impl Matrix {
    pub closed spec fn rows_spec(&self) -> int {
        self.rows as int
    }

    pub closed spec fn cols_spec(&self) -> int {
        self.cols as int
    }

    /// The discrete logarithm of the cell in the given column and row.
    pub closed spec fn at(&self, col: int, row: int) -> nat {
        point_log(self.inner@[col * self.rows as int + row])
    }

    pub closed spec fn well_formed(&self) -> bool {
        self.inner@.len() == self.rows as int * self.cols as int
    }

    /// A grid of the given shape, every cell the identity.
    pub fn new(rows: usize, cols: usize) -> (r: Matrix)
        requires
            rows * cols <= usize::MAX,
        ensures
            r.well_formed(),
            r.rows_spec() == rows,
            r.cols_spec() == cols,
            forall|c: int, row: int|
                0 <= c < cols && 0 <= row < rows ==> #[trigger] r.at(c, row) == 0,
    {
        let total = rows * cols;
        let mut inner: Vec<k256::ProjectivePoint> = Vec::new();
        let mut i: usize = 0;
        while i < total
            invariant
                0 <= i <= total,
                inner@.len() == i,
                forall|k: int| 0 <= k < i ==> point_log(#[trigger] inner@[k]) == 0,
            decreases total - i,
        {
            inner.push(el_identity());
            i = i + 1;
        }
        let r = Matrix { rows, cols, inner };
        proof {
            assert forall|c: int, row: int|
                0 <= c < cols && 0 <= row < rows implies #[trigger] r.at(c, row) == 0 by {
                lemma_cell_index(rows as int, cols as int, c, row);
            }
        }
        r
    }

    pub fn size(&self) -> (r: (usize, usize))
        ensures
            r.0 == self.cols_spec(),
            r.1 == self.rows_spec(),
    {
        (self.cols, self.rows)
    }

    pub fn cols(&self) -> (r: usize)
        ensures
            r == self.cols_spec(),
    {
        self.cols
    }

    pub fn rows(&self) -> (r: usize)
        ensures
            r == self.rows_spec(),
    {
        self.rows
    }

    /// A fresh all-identity grid of the same shape.
    pub fn create_empty(&self) -> (r: Matrix)
        requires
            self.well_formed(),
        ensures
            r.well_formed(),
            r.rows_spec() == self.rows_spec(),
            r.cols_spec() == self.cols_spec(),
            forall|c: int, row: int|
                0 <= c < self.cols_spec() && 0 <= row < self.rows_spec()
                    ==> #[trigger] r.at(c, row) == 0,
    {
        let cap = self.inner.len();
        proof {
            vstd::arithmetic::mul::lemma_mul_nonnegative(self.rows as int, self.cols as int);
            assert(self.rows as int * self.cols as int == cap as int);
        }
        Matrix::new(self.rows, self.cols)
    }

    /// Replaces row `row_idx` with the given elements, one per column.
    pub fn set_row(&mut self, row_idx: usize, items: &Vec<k256::ProjectivePoint>)
        requires
            old(self).well_formed(),
            row_idx < old(self).rows_spec(),
            items@.len() == old(self).cols_spec(),
        ensures
            final(self).well_formed(),
            final(self).rows_spec() == old(self).rows_spec(),
            final(self).cols_spec() == old(self).cols_spec(),
            forall|c: int|
                0 <= c < old(self).cols_spec() ==> #[trigger] final(self).at(c, row_idx as int)
                    == point_log(items@[c]),
            forall|c: int, row: int|
                0 <= c < old(self).cols_spec() && 0 <= row < old(self).rows_spec() && row
                    != row_idx ==> #[trigger] final(self).at(c, row) == old(self).at(c, row),
    {
        let mut col_idx: usize = 0;
        while col_idx < self.cols
            invariant
                0 <= col_idx <= self.cols,
                self.well_formed(),
                self.rows == old(self).rows_spec(),
                self.cols == old(self).cols_spec(),
                row_idx < self.rows,
                items@.len() == self.cols as int,
                forall|c: int|
                    0 <= c < col_idx ==> #[trigger] self.at(c, row_idx as int) == point_log(
                        items@[c],
                    ),
                forall|c: int, row: int|
                    0 <= c < self.cols && 0 <= row < self.rows && (row != row_idx || c
                        >= col_idx) ==> #[trigger] self.at(c, row) == old(self).at(c, row),
            decreases self.cols - col_idx,
        {
            proof {
                lemma_cell_index(self.rows as int, self.cols as int, col_idx as int,
                    row_idx as int);
            }
            let cap = self.inner.len();
            let pos = col_idx * self.rows + row_idx;
            let v = el_clone(&items[col_idx]);
            let ghost pre = *self;
            let ghost old_at = |c: int, row: int| pre.at(c, row);
            self.inner.set(pos, v);
            proof {
                assert forall|c: int, row: int|
                    0 <= c < self.cols && 0 <= row < self.rows && !(c == col_idx && row
                        == row_idx) implies #[trigger] self.at(c, row) == old_at(c, row) by {
                    lemma_cell_index(self.rows as int, self.cols as int, c, row);
                    lemma_cell_index_injective(self.rows as int, self.cols as int, c, row,
                        col_idx as int, row_idx as int);
                }
            }
            col_idx = col_idx + 1;
        }
    }

    /// Replaces column `col_idx` with the given elements, one per row.
    pub fn set_col(&mut self, col_idx: usize, items: &Vec<k256::ProjectivePoint>)
        requires
            old(self).well_formed(),
            col_idx < old(self).cols_spec(),
            items@.len() == old(self).rows_spec(),
        ensures
            final(self).well_formed(),
            final(self).rows_spec() == old(self).rows_spec(),
            final(self).cols_spec() == old(self).cols_spec(),
            forall|row: int|
                0 <= row < old(self).rows_spec() ==> #[trigger] final(self).at(col_idx as int, row)
                    == point_log(items@[row]),
            forall|c: int, row: int|
                0 <= c < old(self).cols_spec() && 0 <= row < old(self).rows_spec() && c != col_idx
                    ==> #[trigger] final(self).at(c, row) == old(self).at(c, row),
    {
        let mut row: usize = 0;
        while row < self.rows
            invariant
                0 <= row <= self.rows,
                self.well_formed(),
                self.rows == old(self).rows_spec(),
                self.cols == old(self).cols_spec(),
                col_idx < self.cols,
                items@.len() == self.rows as int,
                forall|r2: int|
                    0 <= r2 < row ==> #[trigger] self.at(col_idx as int, r2) == point_log(
                        items@[r2],
                    ),
                forall|c: int, r2: int|
                    0 <= c < self.cols && 0 <= r2 < self.rows && (c != col_idx || r2 >= row)
                        ==> #[trigger] self.at(c, r2) == old(self).at(c, r2),
            decreases self.rows - row,
        {
            proof {
                lemma_cell_index(self.rows as int, self.cols as int, col_idx as int, row as int);
            }
            let cap = self.inner.len();
            let pos = col_idx * self.rows + row;
            let v = el_clone(&items[row]);
            let ghost pre = *self;
            let ghost old_at = |c: int, r2: int| pre.at(c, r2);
            self.inner.set(pos, v);
            proof {
                assert forall|c: int, r2: int|
                    0 <= c < self.cols && 0 <= r2 < self.rows && !(c == col_idx && r2 == row)
                        implies #[trigger] self.at(c, r2) == old_at(c, r2) by {
                    lemma_cell_index(self.rows as int, self.cols as int, c, r2);
                    lemma_cell_index_injective(self.rows as int, self.cols as int, c, r2,
                        col_idx as int, row as int);
                }
            }
            row = row + 1;
        }
    }

    /// One cell of the grid.
    pub fn cell(&self, col_idx: usize, row_idx: usize) -> (r: k256::ProjectivePoint)
        requires
            self.well_formed(),
            col_idx < self.cols_spec(),
            row_idx < self.rows_spec(),
        ensures
            point_log(r) == self.at(col_idx as int, row_idx as int),
    {
        proof {
            lemma_cell_index(self.rows as int, self.cols as int, col_idx as int, row_idx as int);
        }
        let cap = self.inner.len();
        let pos = col_idx * self.rows + row_idx;
        el_clone(&self.inner[pos])
    }

    /// The elements of column `col_idx`, top to bottom.
    pub fn get_col(&self, col_idx: usize) -> (r: Vec<k256::ProjectivePoint>)
        requires
            self.well_formed(),
            col_idx < self.cols_spec(),
        ensures
            r@.len() == self.rows_spec(),
            forall|row: int|
                0 <= row < self.rows_spec() ==> point_log(#[trigger] r@[row]) == self.at(
                    col_idx as int,
                    row,
                ),
    {
        let mut out: Vec<k256::ProjectivePoint> = Vec::new();
        let mut row: usize = 0;
        while row < self.rows
            invariant
                0 <= row <= self.rows,
                self.well_formed(),
                col_idx < self.cols,
                out@.len() == row,
                forall|r2: int|
                    0 <= r2 < row ==> point_log(#[trigger] out@[r2]) == self.at(col_idx as int, r2),
            decreases self.rows - row,
        {
            proof {
                lemma_cell_index(self.rows as int, self.cols as int, col_idx as int, row as int);
            }
            let cap = self.inner.len();
            let pos = col_idx * self.rows + row;
            out.push(el_clone(&self.inner[pos]));
            row = row + 1;
        }
        out
    }

    /// Fills row `row_idx` with the commitment evaluated at each column's
    /// evaluation point.
    pub fn evaluate_row(&mut self, row_idx: usize, commitment: &PolynomialCommitment)
        requires
            old(self).well_formed(),
            row_idx < old(self).rows_spec(),
        ensures
            final(self).well_formed(),
            final(self).rows_spec() == old(self).rows_spec(),
            final(self).cols_spec() == old(self).cols_spec(),
            forall|c: int|
                0 <= c < old(self).cols_spec() ==> #[trigger] final(self).at(c, row_idx as int)
                    == poly_eval(commitment.logs(), c as nat),
            forall|c: int, row: int|
                0 <= c < old(self).cols_spec() && 0 <= row < old(self).rows_spec() && row
                    != row_idx ==> #[trigger] final(self).at(c, row) == old(self).at(c, row),
    {
        let mut elements: Vec<k256::ProjectivePoint> = Vec::new();
        let mut c: usize = 0;
        while c < self.cols
            invariant
                0 <= c <= self.cols,
                elements@.len() == c,
                forall|k: int|
                    0 <= k < c ==> point_log(#[trigger] elements@[k]) == poly_eval(
                        commitment.logs(),
                        k as nat,
                    ),
            decreases self.cols - c,
        {
            let x = num_to_identifier(c);
            elements.push(commitment.evaluate(&x));
            c = c + 1;
        }
        self.set_row(row_idx, &elements);
    }

    /// The filled cells of a column, as interpolation points: row index
    /// paired with the cell's logarithm.
    pub open spec fn col_points(&self, col: int, filled: Seq<usize>) -> Seq<(nat, nat)> {
        Seq::new(filled.len(), |k: int| (filled[k] as nat, self.at(col, filled[k] as int)))
    }

    /// Recovers every row of column `col_idx` that is not among the
    /// filled rows, by Lagrange interpolation across the filled rows of
    /// that column. Filled rows and the other columns stay as they are.
    pub fn interpolate_col(&mut self, col_idx: usize, filled: &Vec<usize>)
        requires
            old(self).well_formed(),
            col_idx < old(self).cols_spec(),
            filled@.len() > 0,
            forall|k: int| 0 <= k < filled@.len() ==> (#[trigger] filled@[k]) < old(self).rows_spec(),
        ensures
            final(self).well_formed(),
            final(self).rows_spec() == old(self).rows_spec(),
            final(self).cols_spec() == old(self).cols_spec(),
            forall|c: int, row: int|
                0 <= c < old(self).cols_spec() && 0 <= row < old(self).rows_spec() && c != col_idx
                    ==> #[trigger] final(self).at(c, row) == old(self).at(c, row),
            forall|k: int|
                0 <= k < filled@.len() ==> #[trigger] final(self).at(
                    col_idx as int,
                    filled@[k] as int,
                ) == old(self).at(col_idx as int, filled@[k] as int),
            forall|row: int|
                0 <= row < old(self).rows_spec() && !filled@.contains(row as usize)
                    ==> #[trigger] final(self).at(col_idx as int, row) == interp_eval(
                    old(self).col_points(col_idx as int, filled@),
                    row as nat,
                ),
    {
        let ghost pts = old(self).col_points(col_idx as int, filled@);
        let mut known: Vec<(usize, k256::ProjectivePoint)> = Vec::new();
        let mut k: usize = 0;
        while k < filled.len()
            invariant
                0 <= k <= filled@.len(),
                self.well_formed(),
                col_idx < self.cols,
                *self == *old(self),
                pts == old(self).col_points(col_idx as int, filled@),
                forall|m: int| 0 <= m < filled@.len() ==> (#[trigger] filled@[m]) < self.rows,
                known@.len() == k,
                forall|m: int| 0 <= m < k ==> (#[trigger] known@[m]).0 == filled@[m],
                forall|m: int|
                    0 <= m < k ==> point_log((#[trigger] known@[m]).1) == self.at(
                        col_idx as int,
                        filled@[m] as int,
                    ),
            decreases filled@.len() - k,
        {
            proof {
                lemma_cell_index(self.rows as int, self.cols as int, col_idx as int,
                    filled@[k as int] as int);
            }
            let cap = self.inner.len();
            let row = filled[k];
            let pos = col_idx * self.rows + row;
            known.push((row, el_clone(&self.inner[pos])));
            k = k + 1;
        }
        proof {
            assert(crate::interpolate::point_model(known@) =~= pts);
        }

        let mut targets: Vec<usize> = Vec::new();
        let mut row: usize = 0;
        while row < self.rows
            invariant
                0 <= row <= self.rows,
                *self == *old(self),
                targets@.len() == row,
                forall|m: int| 0 <= m < row ==> (#[trigger] targets@[m]) == m,
            decreases self.rows - row,
        {
            targets.push(row);
            row = row + 1;
        }

        let evaluated = interpolate_and_evaluate_points(&known, &targets);
        let ghost model = crate::interpolate::point_model(known@);

        let mut e: usize = 0;
        while e < evaluated.len()
            invariant
                0 <= e <= evaluated@.len(),
                self.well_formed(),
                self.rows == old(self).rows_spec(),
                self.cols == old(self).cols_spec(),
                col_idx < self.cols,
                model == crate::interpolate::point_model(known@),
                model == pts,
                pts == old(self).col_points(col_idx as int, filled@),
                forall|m: int| 0 <= m < filled@.len() ==> (#[trigger] filled@[m]) < self.rows,
                forall|m: int| 0 <= m < filled@.len() ==> pts[m].0 == filled@[m] as nat,
                pts.len() == filled@.len(),
                forall|m: int|
                    0 <= m < evaluated@.len() ==> point_log((#[trigger] evaluated@[m]).1)
                        == interp_eval(model, evaluated@[m].0 as nat),
                forall|m: int|
                    0 <= m < evaluated@.len() ==> !crate::interpolate::contains_key(
                        model,
                        (#[trigger] evaluated@[m]).0 as nat,
                    ),
                forall|c: int, r2: int|
                    0 <= c < self.cols && 0 <= r2 < self.rows && c != col_idx
                        ==> #[trigger] self.at(c, r2) == old(self).at(c, r2),
                forall|m: int|
                    0 <= m < filled@.len() ==> #[trigger] self.at(
                        col_idx as int,
                        filled@[m] as int,
                    ) == old(self).at(col_idx as int, filled@[m] as int),
                forall|m: int|
                    0 <= m < e && (#[trigger] evaluated@[m]).0 < self.rows ==> self.at(
                        col_idx as int,
                        evaluated@[m].0 as int,
                    ) == interp_eval(model, evaluated@[m].0 as nat),
            decreases evaluated@.len() - e,
        {
            let target = evaluated[e].0;
            let value = el_clone(&evaluated[e].1);
            if target < self.rows {
                proof {
                    lemma_cell_index(self.rows as int, self.cols as int, col_idx as int,
                        target as int);
                    // the written row is not a filled row
                    assert forall|m: int|
                        0 <= m < filled@.len() implies filled@[m] != target by {
                        if filled@[m] == target {
                            assert(pts[m].0 == target as nat);
                            assert(crate::interpolate::contains_key(model, target as nat));
                        }
                    }
                }
                let cap = self.inner.len();
                let pos = col_idx * self.rows + target;
                let ghost pre = *self;
                let ghost old_at = |c: int, r2: int| pre.at(c, r2);
                self.inner.set(pos, value);
                proof {
                    assert forall|c: int, r2: int|
                        0 <= c < self.cols && 0 <= r2 < self.rows && !(c == col_idx && r2
                            == target) implies #[trigger] self.at(c, r2) == old_at(c, r2) by {
                        lemma_cell_index(self.rows as int, self.cols as int, c, r2);
                        lemma_cell_index_injective(self.rows as int, self.cols as int, c, r2,
                            col_idx as int, target as int);
                    }
                    assert(self.at(col_idx as int, target as int) == interp_eval(
                        model,
                        target as nat,
                    ));
                }
            }
            e = e + 1;
        }
        proof {
            assert forall|row: int|
                0 <= row < old(self).rows_spec() && !filled@.contains(row as usize)
                    implies #[trigger] self.at(col_idx as int, row) == interp_eval(
                    pts,
                    row as nat,
                ) by {
                // row is among the targets and not a known key, so it was evaluated
                assert(targets@[row] == row as usize);
                assert(!crate::interpolate::contains_key(model, row as nat)) by {
                    if crate::interpolate::contains_key(model, row as nat) {
                        let j = choose|j: int| 0 <= j < model.len() && model[j].0 == row as nat;
                        assert(filled@[j] as nat == row as nat);
                        assert(filled@[j] == row as usize);
                        assert(filled@.contains(row as usize));
                    }
                }
                let m = choose|m: int|
                    0 <= m < evaluated@.len() && evaluated@[m].0 == targets@[row];
                assert(evaluated@[m].0 < self.rows);
                assert(self.at(col_idx as int, evaluated@[m].0 as int) == interp_eval(
                    model,
                    evaluated@[m].0 as nat,
                ));
            }
        }
    }

    /// Column `col_idx`, with the commitment's evaluation at each row's
    /// evaluation point added cell-wise.
    pub fn get_col_add(&self, col_idx: usize, commitment: &PolynomialCommitment) -> (r: Vec<
        k256::ProjectivePoint,
    >)
        requires
            self.well_formed(),
            col_idx < self.cols_spec(),
        ensures
            r@.len() == self.rows_spec(),
            forall|row: int|
                0 <= row < self.rows_spec() ==> point_log(#[trigger] r@[row]) == fadd(
                    self.at(col_idx as int, row),
                    poly_eval(commitment.logs(), row as nat),
                ),
    {
        let col = self.get_col(col_idx);
        let mut out: Vec<k256::ProjectivePoint> = Vec::new();
        let mut row: usize = 0;
        while row < col.len()
            invariant
                0 <= row <= col@.len(),
                col@.len() == self.rows_spec(),
                self.well_formed(),
                col_idx < self.cols,
                forall|r2: int|
                    0 <= r2 < col@.len() ==> point_log(#[trigger] col@[r2]) == self.at(
                        col_idx as int,
                        r2,
                    ),
                out@.len() == row,
                forall|r2: int|
                    0 <= r2 < row ==> point_log(#[trigger] out@[r2]) == fadd(
                        self.at(col_idx as int, r2),
                        poly_eval(commitment.logs(), r2 as nat),
                    ),
            decreases col@.len() - row,
        {
            let x = num_to_identifier(row);
            let shift = commitment.evaluate(&x);
            out.push(el_add(&col[row], &shift));
            row = row + 1;
        }
        out
    }
}

/// A cell's linear index lies inside the backing vector.
proof fn lemma_cell_index(rows: int, cols: int, c: int, row: int)
    requires
        0 <= c < cols,
        0 <= row < rows,
    ensures
        0 <= c * rows + row < rows * cols,
{
    assert(c * rows + row < rows * cols) by (nonlinear_arith)
        requires
            0 <= c < cols,
            0 <= row < rows,
    ;
    assert(0 <= c * rows) by (nonlinear_arith)
        requires
            0 <= c,
            0 <= rows,
    ;
}

/// Distinct cells have distinct linear indices.
proof fn lemma_cell_index_injective(rows: int, cols: int, c1: int, r1: int, c2: int, r2: int)
    requires
        0 <= c1 < cols,
        0 <= r1 < rows,
        0 <= c2 < cols,
        0 <= r2 < rows,
        !(c1 == c2 && r1 == r2),
    ensures
        c1 * rows + r1 != c2 * rows + r2,
{
    assert(c1 * rows + r1 != c2 * rows + r2) by (nonlinear_arith)
        requires
            0 <= c1 < cols,
            0 <= r1 < rows,
            0 <= c2 < cols,
            0 <= r2 < rows,
            !(c1 == c2 && r1 == r2),
    ;
}

} // verus!
