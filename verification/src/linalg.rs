//! A dense matrix of integer features, one row per sample.

use crate::error::{Failed, FailedError};
use vstd::prelude::*;

verus! {

/// A dense matrix of `i32` entries stored row by row. Every row has `ncols` entries.
///
/// Values that carry decimals are written here scaled by a common power of ten. Scaling
/// every value by the same positive number multiplies every Ward distance by its square and
/// leaves Ward clustering unchanged (`cluster::hierarchal::lemma_ward_clusters_scale_invariant`).
pub struct DenseMatrix {
    ncols: usize,
    rows: Vec<Vec<i32>>,
}

impl View for DenseMatrix {
    type V = Seq<Seq<i32>>;

    closed spec fn view(&self) -> Seq<Seq<i32>> {
        self.rows@.map_values(|r: Vec<i32>| r@)
    }
}

impl DenseMatrix {
    /// Every row has exactly `ncols` entries.
    #[verifier::type_invariant]
    spec fn rows_have_ncols(&self) -> bool {
        forall|i: int| 0 <= i < self.rows@.len() ==> #[trigger] self.rows@[i]@.len() == self.ncols
    }

    /// The number of columns.
    pub closed spec fn num_cols(&self) -> nat {
        self.ncols as nat
    }

    /// Builds a matrix from its rows; fails when the rows do not all have the same length.
    /// An empty list of rows gives a matrix with no rows and no columns.
    pub fn from_2d_vec(values: &Vec<Vec<i32>>) -> (r: Result<DenseMatrix, Failed>)
        ensures
            match r {
                Ok(m) => m@ == values@.map_values(|v: Vec<i32>| v@) && (values@.len() > 0
                    ==> m.num_cols() == values@[0].len()) && (values@.len() == 0
                    ==> m.num_cols() == 0),
                Err(e) => e.err == FailedError::ParametersError && exists|i: int|
                    0 <= i < values@.len() && #[trigger] values@[i].len() != values@[0].len(),
            },
    {
        let ncols: usize = if values.len() == 0 {
            0
        } else {
            values[0].len()
        };
        let mut rows: Vec<Vec<i32>> = Vec::new();
        let mut i: usize = 0;
        while i < values.len()
            invariant
                i <= values.len(),
                values.len() > 0 ==> ncols == values@[0].len(),
                rows@.len() == i,
                forall|t: int| 0 <= t < i ==> #[trigger] rows@[t]@ == values@[t]@,
                forall|t: int| 0 <= t < i ==> #[trigger] values@[t].len() == ncols,
            decreases values.len() - i,
        {
            if values[i].len() != ncols {
                return Err(
                    Failed::because(
                        FailedError::ParametersError,
                        "All rows of a matrix must have the same number of columns.",
                    ),
                );
            }
            let mut row: Vec<i32> = Vec::new();
            let mut j: usize = 0;
            while j < ncols
                invariant
                    i < values.len(),
                    j <= ncols,
                    values@[i as int].len() == ncols,
                    row@ == values@[i as int]@.take(j as int),
                decreases ncols - j,
            {
                row.push(values[i][j]);
                proof {
                    assert(values@[i as int]@.take(j + 1) == values@[i as int]@.take(j as int).push(
                        values@[i as int]@[j as int],
                    ));
                }
                j = j + 1;
            }
            proof {
                assert(values@[i as int]@.take(ncols as int) == values@[i as int]@);
            }
            rows.push(row);
            i = i + 1;
        }
        assert forall|t: int| 0 <= t < rows@.len() implies #[trigger] rows@[t]@.len() == ncols by {
            assert(rows@[t]@ == values@[t]@);
            assert(values@[t].len() == ncols);
        }
        let m = DenseMatrix { ncols, rows };
        proof {
            assert(m@ =~= values@.map_values(|v: Vec<i32>| v@));
        }
        Ok(m)
    }

    /// The number of rows and the number of columns.
    pub fn shape(&self) -> (r: (usize, usize))
        ensures
            r.0 == self@.len(),
            r.1 == self.num_cols(),
            forall|i: int| 0 <= i < self@.len() ==> #[trigger] self@[i].len() == self.num_cols(),
    {
        proof {
            use_type_invariant(self);
        }
        (self.rows.len(), self.ncols)
    }

    /// The entry at row `row` and column `col`.
    pub fn get(&self, row: usize, col: usize) -> (r: i32)
        requires
            row < self@.len(),
            col < self.num_cols(),
        ensures
            r == self@[row as int][col as int],
    {
        proof {
            use_type_invariant(self);
        }
        self.rows[row][col]
    }
}

} // verus!
