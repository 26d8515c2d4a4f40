//! A common interface of DataFrames and DataFrameSlices: their schema, row count,
//! status, and the values of a column over their rows.
use vstd::prelude::*;
use crate::data_frame::column::{ColType, cells_of};
use crate::data_frame::frame::{DataFrame, DfError};
use crate::data_frame::status::QueryStatus;
use crate::data_frame::access::{DataFrameSlice, typed_col_ok, typed_col_error};

verus! {

/// What DataFrames and DataFrameSlices share: a DataFrameSlice is a view of a
/// contiguous run of rows of a DataFrame, with its columns.
pub trait DataFrameTrait {
    /// The DataFrame whose rows this holds or views.
    spec fn source(&self) -> DataFrame;

    /// The first row of the source that this holds.
    spec fn first_row(&self) -> int;

    /// The row of the source after the last one this holds.
    spec fn end_row(&self) -> int;

    /// The source is well formed and the rows lie within it.
    spec fn valid(&self) -> bool;

    /// The number of rows.
    fn n_row(&self) -> (n: usize)
        requires
            self.valid(),
        ensures
            n == self.end_row() - self.first_row(),
    ;

    /// The number of columns.
    fn n_col(&self) -> (n: usize)
        requires
            self.valid(),
        ensures
            n == self.source().col_names@.len(),
    ;

    /// The names of the columns, in column order.
    fn col_names(&self) -> (r: &Vec<String>)
        requires
            self.valid(),
        ensures
            r@ == self.source().col_names@,
    ;

    /// Whether there are no rows and no columns.
    fn is_empty(&self) -> (r: bool)
        requires
            self.valid(),
        ensures
            r == (self.end_row() == self.first_row() && self.source().col_names@.len() == 0),
    ;

    /// Whether there is at least one row.
    fn has_rows(&self) -> (r: bool)
        requires
            self.valid(),
        ensures
            r == (self.end_row() > self.first_row()),
    ;

    /// The row sort and group status of the source.
    fn status(&self) -> (r: &QueryStatus)
        requires
            self.valid(),
        ensures
            *r == self.source().status,
    ;

    /// A copy of the values of a named column over the rows, read as type `T`.
    fn get<T: ColType>(&self, col_name: &str) -> (r: Result<Vec<Option<T>>, DfError>)
        requires
            self.valid(),
        ensures
            match r {
                Ok(v) => typed_col_ok(self.source(), col_name@, T::kind()) && cells_of(v@) == self.source().col_of(
                    col_name@,
                ).cells().subrange(self.first_row(), self.end_row()),
                Err(e) => !typed_col_ok(self.source(), col_name@, T::kind()) && typed_col_error(
                    self.source(),
                    col_name@,
                    T::kind(),
                    e,
                ),
            },
    ;
}

impl DataFrameTrait for DataFrame {
    open spec fn source(&self) -> DataFrame {
        *self
    }

    open spec fn first_row(&self) -> int {
        0
    }

    open spec fn end_row(&self) -> int {
        self.n_row as int
    }

    open spec fn valid(&self) -> bool {
        self.wf()
    }

    fn n_row(&self) -> (n: usize) {
        self.n_row
    }

    fn n_col(&self) -> (n: usize) {
        self.col_names.len()
    }

    fn col_names(&self) -> (r: &Vec<String>) {
        &self.col_names
    }

    fn is_empty(&self) -> (r: bool) {
        self.n_row == 0 && self.col_names.len() == 0
    }

    fn has_rows(&self) -> (r: bool) {
        self.n_row > 0
    }

    fn status(&self) -> (r: &QueryStatus) {
        &self.status
    }

    fn get<T: ColType>(&self, col_name: &str) -> (r: Result<Vec<Option<T>>, DfError>) {
        let r = DataFrame::get::<T>(self, col_name);
        proof {
            if r is Ok {
                crate::data_frame::factor::lemma_first_index(self.names(), col_name@);
                assert(self.col_of(col_name@).cells().subrange(0, self.n_row as int) =~= self.col_of(
                    col_name@,
                ).cells());
            }
        }
        r
    }
}

impl<'a> DataFrameTrait for DataFrameSlice<'a> {
    open spec fn source(&self) -> DataFrame {
        *self.data_frame
    }

    open spec fn first_row(&self) -> int {
        self.start_row_i as int
    }

    open spec fn end_row(&self) -> int {
        self.end_row_i as int
    }

    open spec fn valid(&self) -> bool {
        &&& self.data_frame.wf()
        &&& self.start_row_i <= self.end_row_i <= self.data_frame.n_row
        &&& self.n_row == self.end_row_i - self.start_row_i
    }

    fn n_row(&self) -> (n: usize) {
        self.n_row
    }

    fn n_col(&self) -> (n: usize) {
        self.data_frame.col_names.len()
    }

    fn col_names(&self) -> (r: &Vec<String>) {
        &self.data_frame.col_names
    }

    fn is_empty(&self) -> (r: bool) {
        self.n_row == 0 && self.data_frame.col_names.len() == 0
    }

    fn has_rows(&self) -> (r: bool) {
        self.n_row > 0
    }

    fn status(&self) -> (r: &QueryStatus) {
        &self.data_frame.status
    }

    fn get<T: ColType>(&self, col_name: &str) -> (r: Result<Vec<Option<T>>, DfError>) {
        let v = match self.data_frame.get_ref::<T>(col_name) {
            Ok(v) => v,
            Err(e) => {
                return Err(e);
            },
        };
        proof {
            crate::data_frame::factor::lemma_first_index(self.data_frame.names(), col_name@);
            assert(cells_of(v@).len() == self.data_frame.n_row);
        }
        let ghost src = cells_of(v@);
        let mut out: Vec<Option<T>> = Vec::new();
        let mut i: usize = self.start_row_i;
        while i < self.end_row_i
            invariant
                self.start_row_i <= i <= self.end_row_i <= v@.len(),
                src == cells_of(v@),
                cells_of(out@) == src.subrange(self.start_row_i as int, i as int),
            decreases self.end_row_i - i,
        {
            let x = T::copy_opt(&v[i]);
            proof {
                assert(src[i as int] == T::wrap(v@[i as int]));
            }
            let ghost o0 = out@;
            out.push(x);
            assert(cells_of(out@) =~= cells_of(o0).push(T::wrap(x)));
            assert(cells_of(out@) =~= src.subrange(self.start_row_i as int, i + 1));
            i = i + 1;
        }
        Ok(out)
    }
}

} // verus!
