//! A dense feature matrix with an optional label per row.
use vstd::prelude::*;

verus! {

/// Why a matrix or its labels could not be built.
#[derive(Debug, Clone, Copy, PartialEq, Eq, Structural)]
pub enum DMatrixError {
    /// The data do not hold `rows * cols` values.
    Shape,
    /// The label vector does not hold one value per row.
    LengthMismatch,
}

/// A row-major matrix of fixed-point feature values, `rows * cols` of them,
/// and optionally one fixed-point label per row.
pub struct DMatrix {
    pub(crate) data: Vec<i64>,
    pub(crate) rows: u64,
    pub(crate) cols: u64,
    pub(crate) labels: Option<Vec<i64>>,
}

impl DMatrix {
    pub closed spec fn spec_data(&self) -> Seq<i64> {
        self.data@
    }

    pub closed spec fn spec_rows(&self) -> nat {
        self.rows as nat
    }

    pub closed spec fn spec_cols(&self) -> nat {
        self.cols as nat
    }

    pub closed spec fn spec_labels(&self) -> Option<Seq<i64>> {
        match self.labels {
            Some(l) => Some(l@),
            None => None,
        }
    }

    /// The shape is consistent and the labels, if any, are one per row.
    pub closed spec fn wf(&self) -> bool {
        &&& self.data@.len() == self.rows * self.cols
        &&& match self.labels {
            Some(l) => l@.len() == self.rows,
            None => true,
        }
    }

    pub proof fn lemma_wf(&self)
        requires
            self.wf(),
        ensures
            self.spec_data().len() == self.spec_rows() * self.spec_cols(),
            self.spec_labels() matches Some(l) ==> l.len() == self.spec_rows(),
    {
    }

    /// An empty matrix: no rows, no columns, no labels.
    pub fn try_new() -> (r: Result<Self, DMatrixError>)
        ensures
            r matches Ok(m) && m.wf() && m.spec_rows() == 0 && m.spec_cols() == 0
                && m.spec_data().len() == 0 && m.spec_labels() is None,
    {
        Ok(DMatrix { data: Vec::new(), rows: 0, cols: 0, labels: None })
    }

    /// A matrix of `rows` rows and `cols` columns from row-major `data`.
    pub fn try_from_data(data: &[i64], rows: u64, cols: u64) -> (r: Result<Self, DMatrixError>)
        ensures
            (data@.len() == rows as int * cols as int) <==> r is Ok,
            r is Err ==> r == Err::<Self, DMatrixError>(DMatrixError::Shape),
            r matches Ok(m) ==> m.wf() && m.spec_rows() == rows && m.spec_cols() == cols
                && m.spec_data() == data@ && m.spec_labels() is None,
    {
        proof {
            assert(rows as int * cols as int <= u64::MAX as int * u64::MAX as int) by (nonlinear_arith);
        }
        let n = rows as u128 * cols as u128;
        if data.len() as u128 != n {
            return Err(DMatrixError::Shape);
        }
        let mut v: Vec<i64> = Vec::new();
        let mut i: usize = 0;
        while i < data.len()
            invariant
                i <= data@.len(),
                v@ == data@.subrange(0, i as int),
            decreases data@.len() - i,
        {
            v.push(data[i]);
            i += 1;
            assert(v@ =~= data@.subrange(0, i as int));
        }
        assert(v@ =~= data@);
        Ok(DMatrix { data: v, rows, cols, labels: None })
    }

    /// Sets the label of every row, replacing any earlier labels; fails with
    /// `LengthMismatch`, changing nothing, unless there is one label per row.
    pub fn try_add_label(&mut self, data: &[i64]) -> (r: Result<(), DMatrixError>)
        requires
            old(self).wf(),
        ensures
            final(self).wf(),
            final(self).spec_data() == old(self).spec_data(),
            final(self).spec_rows() == old(self).spec_rows(),
            final(self).spec_cols() == old(self).spec_cols(),
            data@.len() == old(self).spec_rows() ==> r is Ok && final(self).spec_labels() == Some(
                data@,
            ),
            data@.len() != old(self).spec_rows() ==> r == Err::<(), DMatrixError>(
                DMatrixError::LengthMismatch,
            ) && final(self).spec_labels() == old(self).spec_labels(),
    {
        if data.len() as u128 != self.rows as u128 {
            return Err(DMatrixError::LengthMismatch);
        }
        let mut v: Vec<i64> = Vec::new();
        let mut i: usize = 0;
        while i < data.len()
            invariant
                i <= data@.len(),
                v@ == data@.subrange(0, i as int),
            decreases data@.len() - i,
        {
            v.push(data[i]);
            i += 1;
            assert(v@ =~= data@.subrange(0, i as int));
        }
        assert(v@ =~= data@);
        self.labels = Some(v);
        Ok(())
    }

    /// The feature values, row-major.
    pub fn values(&self) -> (r: &Vec<i64>)
        ensures
            r@ == self.spec_data(),
    {
        &self.data
    }

    /// The labels, if set.
    pub fn label_values(&self) -> (r: Option<&Vec<i64>>)
        ensures
            r is None <==> self.spec_labels() is None,
            r matches Some(l) ==> self.spec_labels() == Some(l@),
    {
        match &self.labels {
            Some(l) => Some(l),
            None => None,
        }
    }

    /// Number of rows.
    pub fn num_rows(&self) -> (r: u64)
        ensures
            r == self.spec_rows(),
    {
        self.rows
    }

    /// Number of columns.
    pub fn num_cols(&self) -> (r: u64)
        ensures
            r == self.spec_cols(),
    {
        self.cols
    }
}

} // verus!
