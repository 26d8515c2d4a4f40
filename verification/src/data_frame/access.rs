//! Typed access to DataFrame columns and cells, slices of rows, and the column
//! setters of `set` and `inject` actions.
use vstd::prelude::*;
use crate::data_frame::column::{Column, ColKind, ColType, CellValue, cells_of, strings_view};
use crate::data_frame::frame::{
    DataFrame, DfError, grown, rows_compatible, max_rows, status_after_change, index_after_change,
};
use crate::data_frame::text::CellText;
use crate::data_frame::query::Query;
use crate::types::do_agg::Do;

verus! {

/// The error of asking for a column by name as a type: the column does not
/// exist, or holds another type.
pub open spec fn typed_col_error(df: DataFrame, name: Seq<char>, kind: ColKind, e: DfError) -> bool {
    if !df.has_col(name) {
        e matches DfError::ColumnNotFound(n) && n@ == name
    } else {
        df.col_of(name).kind_of() != kind && (e matches DfError::TypeMismatch(n) && n@ == name)
    }
}

/// The named column exists and holds the given kind of data.
pub open spec fn typed_col_ok(df: DataFrame, name: Seq<char>, kind: ColKind) -> bool {
    df.has_col(name) && df.col_of(name).kind_of() == kind
}

/// A DataFrameSlice is a read-only view of a contiguous run of rows of a
/// DataFrame: rows `start_row_i` up to, not including, `end_row_i`.
pub struct DataFrameSlice<'a> {
    pub data_frame: &'a DataFrame,
    pub start_row_i: usize,
    pub end_row_i: usize,
    pub n_row: usize,
}

impl<'a> DataFrameSlice<'a> {
    /// The slice is within the rows of its DataFrame.
    pub open spec fn in_bounds(self) -> bool {
        self.end_row_i <= self.data_frame.n_row
    }

    /// A slice of `n_row` rows of a DataFrame, from row `start_row_i`.
    pub fn new(data_frame: &'a DataFrame, start_row_i: usize, n_row: usize) -> (s: Self)
        requires
            start_row_i + n_row <= usize::MAX,
        ensures
            s.data_frame == data_frame,
            s.start_row_i == start_row_i,
            s.n_row == n_row,
            s.end_row_i == start_row_i + n_row,
    {
        DataFrameSlice { data_frame, start_row_i, end_row_i: start_row_i + n_row, n_row }
    }

    /// Copy the rows of the slice, all columns, into a new DataFrame.
    pub fn to_df(&self) -> (df: DataFrame)
        requires
            self.data_frame.wf(),
            self.in_bounds(),
            self.end_row_i == self.start_row_i + self.n_row,
        ensures
            df.wf(),
            df.names() == self.data_frame.names(),
            df.n_row == self.n_row,
            forall|j: int|
                0 <= j < df.columns@.len() ==> {
                    let c = #[trigger] df.columns@[j];
                    let o = self.data_frame.columns@[j];
                    &&& c.kind_of() == o.kind_of()
                    &&& c.cells() == o.cells().subrange(self.start_row_i as int, self.end_row_i as int)
                    &&& c.labels_view() == Seq::<Seq<char>>::empty()
                },
            df.status.is_default(),
            df.row_index.is_reset(),
    {
        let src = self.data_frame;
        let mut rows: Vec<usize> = Vec::new();
        let mut r: usize = self.start_row_i;
        while r < self.end_row_i
            invariant
                self.start_row_i <= r <= self.end_row_i,
                rows@.len() == r - self.start_row_i,
                forall|k: int| 0 <= k < rows@.len() ==> #[trigger] rows@[k] == self.start_row_i + k,
            decreases self.end_row_i - r,
        {
            rows.push(r);
            r = r + 1;
        }
        let mut df = DataFrame::new();
        df.n_row = self.n_row;
        let mut j: usize = 0;
        while j < src.columns.len()
            invariant
                src.wf(),
                self.data_frame == src,
                self.end_row_i <= src.n_row,
                self.end_row_i == self.start_row_i + self.n_row,
                rows@.len() == self.n_row,
                forall|k: int| 0 <= k < rows@.len() ==> #[trigger] rows@[k] == self.start_row_i + k,
                j <= src.columns@.len(),
                df.n_row == self.n_row,
                df.col_names@.len() == j,
                df.columns@.len() == j,
                forall|k: int| 0 <= k < j ==> #[trigger] df.col_names@[k] == src.col_names@[k],
                forall|k: int|
                    0 <= k < j ==> {
                        let c = #[trigger] df.columns@[k];
                        let o = src.columns@[k];
                        &&& c.kind_of() == o.kind_of()
                        &&& c.cells() == o.cells().subrange(self.start_row_i as int, self.end_row_i as int)
                        &&& c.labels_view() == Seq::<Seq<char>>::empty()
                        &&& c.wf()
                    },
                df.status.is_default(),
                df.row_index.is_reset(),
            decreases src.columns@.len() - j,
        {
            assert(src.columns@[j as int].cells().len() == src.n_row);
            assert(src.columns@[j as int].wf());
            let c = src.columns[j].select_rows(&rows);
            assert(c.cells() =~= src.columns@[j as int].cells().subrange(self.start_row_i as int, self.end_row_i as int));
            df.columns.push(c);
            df.col_names.push(src.col_names[j].clone());
            j = j + 1;
        }
        proof {
            assert(df.col_names@ =~= src.col_names@);
            assert(df.names() == src.names());
        }
        df
    }
}

impl DataFrame {
    /// A slice of `n_row` rows of the DataFrame, from row `start_row_i`.
    pub fn slice(&self, start_row_i: usize, n_row: usize) -> (s: DataFrameSlice<'_>)
        requires
            start_row_i + n_row <= usize::MAX,
        ensures
            s.data_frame == self,
            s.start_row_i == start_row_i,
            s.n_row == n_row,
            s.end_row_i == start_row_i + n_row,
    {
        DataFrameSlice::new(self, start_row_i, n_row)
    }

    /// The position of a named column that holds values of type `T`.
    fn typed_col<T: ColType>(&self, col_name: &str) -> (r: Result<usize, DfError>)
        requires
            self.wf(),
        ensures
            match r {
                Ok(j) => typed_col_ok(*self, col_name@, T::kind()) && j as int == self.col_pos(col_name@) && j
                    < self.columns@.len(),
                Err(e) => !typed_col_ok(*self, col_name@, T::kind()) && typed_col_error(*self, col_name@, T::kind(), e),
            },
    {
        match self.find_col(col_name) {
            Some(j) => {
                if self.columns[j].kind() == T::col_kind() {
                    Ok(j)
                } else {
                    Err(DfError::TypeMismatch(col_name.to_owned()))
                }
            },
            None => Err(DfError::ColumnNotFound(col_name.to_owned())),
        }
    }

    /// A reference to the values of a named column, read as type `T`.
    pub fn get_ref<T: ColType>(&self, col_name: &str) -> (r: Result<&Vec<Option<T>>, DfError>)
        requires
            self.wf(),
        ensures
            match r {
                Ok(v) => typed_col_ok(*self, col_name@, T::kind()) && cells_of(v@) == self.col_of(col_name@).cells(),
                Err(e) => !typed_col_ok(*self, col_name@, T::kind()) && typed_col_error(*self, col_name@, T::kind(), e),
            },
    {
        let j = match self.typed_col::<T>(col_name) {
            Ok(j) => j,
            Err(e) => {
                return Err(e);
            },
        };
        Ok(T::data_ref(&self.columns[j]))
    }

    /// A copy of the values of a named column, read as type `T`.
    pub fn get<T: ColType>(&self, col_name: &str) -> (r: Result<Vec<Option<T>>, DfError>)
        requires
            self.wf(),
        ensures
            match r {
                Ok(v) => typed_col_ok(*self, col_name@, T::kind()) && cells_of(v@) == self.col_of(col_name@).cells(),
                Err(e) => !typed_col_ok(*self, col_name@, T::kind()) && typed_col_error(*self, col_name@, T::kind(), e),
            },
    {
        let v = match self.get_ref::<T>(col_name) {
            Ok(v) => v,
            Err(e) => {
                return Err(e);
            },
        };
        let mut out: Vec<Option<T>> = Vec::new();
        let mut i: usize = 0;
        while i < v.len()
            invariant
                i <= v@.len(),
                out@ == v@.take(i as int),
            decreases v@.len() - i,
        {
            out.push(T::copy_opt(&v[i]));
            assert(out@ =~= v@.take(i + 1));
            i = i + 1;
        }
        assert(v@.take(v@.len() as int) =~= v@);
        Ok(out)
    }

    /// The value of one cell, by column name and row, read as type `T`.
    pub fn cell<T: ColType>(&self, col_name: &str, row_i: usize) -> (r: Result<Option<T>, DfError>)
        requires
            self.wf(),
            row_i < self.n_row,
        ensures
            match r {
                Ok(v) => typed_col_ok(*self, col_name@, T::kind()) && T::wrap(v) == self.col_of(col_name@).cells()[row_i as int],
                Err(e) => !typed_col_ok(*self, col_name@, T::kind()) && typed_col_error(*self, col_name@, T::kind(), e),
            },
    {
        let v = match self.get_ref::<T>(col_name) {
            Ok(v) => v,
            Err(e) => {
                return Err(e);
            },
        };
        proof {
            crate::data_frame::factor::lemma_first_index(self.names(), col_name@);
            assert(self.col_of(col_name@).cells().len() == self.n_row);
            assert(cells_of(v@)[row_i as int] == T::wrap(v@[row_i as int]));
        }
        Ok(T::copy_opt(&v[row_i]))
    }

    /// The text of one cell, by column name and row: its value, "NA", or for a
    /// factor "level (label)"; numeric values come back as bits.
    pub fn cell_string(&self, col_name: &str, row_i: usize) -> (r: Result<CellText, DfError>)
        requires
            self.wf(),
            row_i < self.n_row,
        ensures
            match r {
                Ok(t) => self.has_col(col_name@) && match t {
                    CellText::Num(b) => self.col_of(col_name@).cells()[row_i as int] == CellValue::Num(Some(b)),
                    CellText::Text(s) => crate::data_frame::text::cell_text_of(
                        self.col_of(col_name@).cells()[row_i as int],
                        self.col_of(col_name@).labels_view(),
                    ) == Some(s@),
                },
                Err(e) => !self.has_col(col_name@) && (e matches DfError::ColumnNotFound(n) && n@ == col_name@),
            },
    {
        match self.find_col(col_name) {
            Some(j) => {
                assert(self.columns@[j as int].cells().len() == self.n_row);
                Ok(self.columns[j].cell_string(row_i))
            },
            None => Err(DfError::ColumnNotFound(col_name.to_owned())),
        }
    }

    /// Set the value of one cell, by column name and row, as type `T`. A change
    /// to a sort or index key column resets the sort status or the index.
    pub fn set<T: ColType>(&mut self, col_name: &str, row_i: usize, value: Option<T>) -> (r: Result<(), DfError>)
        requires
            old(self).wf(),
            row_i < old(self).n_row,
        ensures
            match r {
                Ok(()) => {
                    &&& typed_col_ok(*old(self), col_name@, T::kind())
                    &&& final(self).wf()
                    &&& final(self).n_row == old(self).n_row
                    &&& final(self).col_names@ == old(self).col_names@
                    &&& final(self).columns@.len() == old(self).columns@.len()
                    &&& forall|j: int|
                        0 <= j < old(self).columns@.len() && j != old(self).col_pos(col_name@) ==> (#[trigger] final(self).columns@[j])
                            == old(self).columns@[j]
                    &&& final(self).col_of(col_name@).kind_of() == T::kind()
                    &&& final(self).col_of(col_name@).cells() == old(self).col_of(col_name@).cells().update(
                        row_i as int,
                        T::wrap(value),
                    )
                    &&& final(self).col_of(col_name@).labels_view() == old(self).col_of(col_name@).labels_view()
                    &&& final(self).col_of(col_name@).levels_of() == old(self).col_of(col_name@).levels_of()
                    &&& status_after_change(old(self).status, final(self).status, seq![col_name@])
                    &&& index_after_change(old(self).row_index, final(self).row_index, seq![col_name@])
                },
                Err(e) => !typed_col_ok(*old(self), col_name@, T::kind()) && typed_col_error(
                    *old(self),
                    col_name@,
                    T::kind(),
                    e,
                ) && *final(self) == *old(self),
            },
    {
        let j = match self.typed_col::<T>(col_name) {
            Ok(j) => j,
            Err(e) => {
                return Err(e);
            },
        };
        proof {
            T::lemma_wrap(value, value);
            assert(self.columns@[j as int].cells().len() == self.n_row);
            assert(self.col_of(col_name@) == self.columns@[j as int]);
        }
        let ghost cols0 = self.columns@;
        let mut col = self.columns.remove(j);
        col.set_cell(row_i, T::wrap_cell(value));
        self.columns.insert(j, col);
        proof {
            assert forall|k: int| 0 <= k < self.columns@.len() implies (#[trigger] self.columns@[k]).cells().len()
                == self.n_row && self.columns@[k].wf() by {
                assert(cols0[k].cells().len() == self.n_row);
                assert(cols0[k].wf());
            }
        }
        let mut changed: Vec<String> = Vec::new();
        changed.push(col_name.to_owned());
        proof {
            assert(strings_view(changed@) =~= seq![col_name@]);
        }
        let changed2: Vec<String> = crate::data_frame::factor::clone_strings(&changed);
        self.status.reset_if_changed(changed);
        self.row_index.reset_if_changed(changed2);
        Ok(())
    }
}

} // verus!
