//! Binding DataFrames side by side (cbind) and one under the other (rbind).
use vstd::prelude::*;
use crate::data_frame::column::{Column, strings_view};
use crate::data_frame::factor::all_distinct;
use crate::data_frame::frame::{DataFrame, DfError, grown, grown_col, rows_compatible, max_rows, recycle_all};
use crate::data_frame::access::DataFrameSlice;

verus! {

/// Each column of `new` is the column of `old` at the same position grown to
/// `n` rows.
pub open spec fn cols_grown(old: Seq<Column>, new: Seq<Column>, n: nat) -> bool {
    &&& new.len() == old.len()
    &&& forall|j: int| 0 <= j < old.len() ==> grown_col(old[j], #[trigger] new[j], n)
}

/// `out` holds the columns of `a` and then those of `b`, each grown to the row
/// count of `out`.
pub open spec fn bound_side_by_side(out: DataFrame, a: DataFrame, b: DataFrame) -> bool {
    &&& out.wf()
    &&& out.n_row == max_rows(a.n_row as nat, b.n_row as nat)
    &&& out.names() == a.names() + b.names()
    &&& cols_grown(a.columns@, out.columns@.subrange(0, a.columns@.len() as int), out.n_row as nat)
    &&& cols_grown(b.columns@, out.columns@.subrange(a.columns@.len() as int, out.columns@.len() as int), out.n_row as nat)
}

/// `out` holds the rows of `a` and then those of `b`, column by column.
pub open spec fn bound_one_under_other(out: DataFrame, a: DataFrame, b: DataFrame) -> bool {
    &&& out.wf()
    &&& out.n_row == a.n_row + b.n_row
    &&& out.names() == a.names()
    &&& out.columns@.len() == a.columns@.len()
    &&& forall|j: int|
        0 <= j < a.columns@.len() ==> {
            let c = #[trigger] out.columns@[j];
            &&& c.kind_of() == a.columns@[j].kind_of()
            &&& c.cells() == a.columns@[j].cells() + b.columns@[j].cells()
        }
}

/// Binding by reference gives the same data as binding by value: two results of
/// binding the same DataFrames one under the other, or two results of binding
/// them side by side, have the same names, rows, kinds and cells.
pub proof fn lemma_bind_results_agree(x: DataFrame, y: DataFrame, a: DataFrame, b: DataFrame)
    requires
        a.wf(),
        b.wf(),
        (bound_one_under_other(x, a, b) && bound_one_under_other(y, a, b)) || (bound_side_by_side(x, a, b)
            && bound_side_by_side(y, a, b)),
    ensures
        x.names() == y.names(),
        x.n_row == y.n_row,
        x.columns@.len() == y.columns@.len(),
        forall|j: int|
            0 <= j < x.columns@.len() ==> (#[trigger] x.columns@[j]).kind_of() == y.columns@[j].kind_of()
                && x.columns@[j].cells() == y.columns@[j].cells(),
{
    if bound_side_by_side(x, a, b) && bound_side_by_side(y, a, b) {
        let na = a.columns@.len() as int;
        assert(x.names().len() == a.names().len() + b.names().len());
        assert(y.names().len() == a.names().len() + b.names().len());
        assert(x.columns@.len() == na + b.columns@.len());
        assert(y.columns@.len() == na + b.columns@.len());
        assert forall|j: int| 0 <= j < x.columns@.len() implies (#[trigger] x.columns@[j]).kind_of()
            == y.columns@[j].kind_of() && x.columns@[j].cells() == y.columns@[j].cells() by {
            if j < na {
                assert(x.columns@.subrange(0, na)[j] == x.columns@[j]);
                assert(y.columns@.subrange(0, na)[j] == y.columns@[j]);
            } else {
                let k = j - na;
                assert(x.columns@.subrange(na, x.columns@.len() as int)[k] == x.columns@[j]);
                assert(y.columns@.subrange(na, y.columns@.len() as int)[k] == y.columns@[j]);
            }
        }
    }
}

/// Some column of `a` holds another kind of data than the column at the same
/// position in `b`.
pub open spec fn kinds_differ(a: DataFrame, b: DataFrame, n: Seq<char>) -> bool {
    exists|j: int|
        0 <= j < a.columns@.len() && a.names()[j] == n && (#[trigger] a.columns@[j]).kind_of() != b.columns@[j].kind_of()
}

/// Append columns under new names to a DataFrame with as many rows.
fn push_all(dst: &mut DataFrame, names: Vec<String>, cols: Vec<Column>)
    requires
        old(dst).wf(),
        names@.len() == cols@.len(),
        forall|j: int| 0 <= j < cols@.len() ==> (#[trigger] cols@[j]).cells().len() == old(dst).n_row && cols@[j].wf(),
        all_distinct(old(dst).names() + strings_view(names@)),
    ensures
        final(dst).wf(),
        final(dst).n_row == old(dst).n_row,
        final(dst).names() == old(dst).names() + strings_view(names@),
        final(dst).columns@ == old(dst).columns@ + cols@,
        final(dst).status == old(dst).status,
        final(dst).row_index == old(dst).row_index,
{
    let ghost nv = strings_view(names@);
    let ghost cv = cols@;
    let ghost all = old(dst).names() + nv;
    let mut names = names;
    let mut cols = cols;
    let mut k: usize = 0;
    let n = cols.len();
    while k < n
        invariant
            n == cv.len(),
            n == nv.len(),
            all == old(dst).names() + nv,
            all_distinct(all),
            k <= n,
            names@.len() == n - k,
            cols@ == cv.subrange(k as int, n as int),
            forall|i: int| 0 <= i < n - k ==> (#[trigger] names@[i])@ == nv[k + i],
            forall|j: int| 0 <= j < cv.len() ==> (#[trigger] cv[j]).cells().len() == old(dst).n_row && cv[j].wf(),
            dst.wf(),
            dst.n_row == old(dst).n_row,
            dst.names() == all.subrange(0, old(dst).names().len() + k),
            dst.columns@ == old(dst).columns@ + cv.subrange(0, k as int),
            dst.status == old(dst).status,
            dst.row_index == old(dst).row_index,
        decreases n - k,
    {
        let ghost names0 = names@;
        let name = names.remove(0);
        let col = cols.remove(0);
        proof {
            assert(name@ == nv[k as int]);
            assert forall|i: int| 0 <= i < n - (k + 1) implies (#[trigger] names@[i])@ == nv[k + 1 + i] by {
                assert(names@[i] == names0[i + 1]);
            }
            let m = old(dst).names().len() + k;
            assert(name@ == all[m]);
            assert(all.subrange(0, m + 1) =~= all.subrange(0, m).push(name@));
            assert(all_distinct(all.subrange(0, m + 1))) by {
                assert forall|a: int, b: int| 0 <= a < b < all.subrange(0, m + 1).len() implies #[trigger] all.subrange(0, m + 1)[a]
                    != #[trigger] all.subrange(0, m + 1)[b] by {
                    assert(all.subrange(0, m + 1)[a] == all[a]);
                    assert(all.subrange(0, m + 1)[b] == all[b]);
                }
            }
            assert(col == cv[k as int]);
        }
        dst.push_column(name, col);
        proof {
            assert(dst.columns@ =~= old(dst).columns@ + cv.subrange(0, k + 1));
            assert(cols@ =~= cv.subrange(k + 1, n as int));
        }
        k = k + 1;
    }
    proof {
        assert(all.subrange(0, all.len() as int) =~= all);
        assert(cv.subrange(0, n as int) =~= cv);
    }
}

/// Copies of the columns, in order.
fn copy_cols(cols: &Vec<Column>) -> (r: Vec<Column>)
    ensures
        r@.len() == cols@.len(),
        forall|j: int| 0 <= j < cols@.len() ==> (#[trigger] r@[j]).same_as(cols@[j]),
{
    let mut r: Vec<Column> = Vec::new();
    let mut j: usize = 0;
    while j < cols.len()
        invariant
            j <= cols@.len(),
            r@.len() == j,
            forall|i: int| 0 <= i < j ==> (#[trigger] r@[i]).same_as(cols@[i]),
        decreases cols@.len() - j,
    {
        r.push(cols[j].copy());
        j = j + 1;
    }
    r
}

/// Grow columns of `n_in` rows to `n` rows, where they differ only when `n_in`
/// is at most one.
fn grow_cols(cols: &mut Vec<Column>, n_in: usize, n: usize)
    requires
        n_in <= n,
        n_in < n ==> n_in <= 1,
        forall|j: int| 0 <= j < old(cols)@.len() ==> (#[trigger] old(cols)@[j]).cells().len() == n_in && old(cols)@[j].wf(),
    ensures
        cols_grown(old(cols)@, final(cols)@, n as nat),
        forall|j: int| 0 <= j < final(cols)@.len() ==> (#[trigger] final(cols)@[j]).cells().len() == n && final(cols)@[j].wf(),
{
    if n_in < n {
        recycle_all(cols, n_in, n);
        proof {
            assert forall|j: int| 0 <= j < cols@.len() implies (#[trigger] cols@[j]).cells().len() == n && cols@[j].wf() by {
                assert(grown_col(old(cols)@[j], cols@[j], n as nat));
                assert(old(cols)@[j].wf());
            }
        }
    } else {
        proof {
            assert forall|j: int| 0 <= j < old(cols)@.len() implies grown_col(old(cols)@[j], #[trigger] cols@[j], n as nat) by {
                assert(grown(old(cols)@[j].cells(), old(cols)@[j].kind_of(), n as nat) =~= old(cols)@[j].cells());
            }
        }
    }
}

impl DataFrame {
    /// Append all columns of `other` to this DataFrame, consuming both. A
    /// DataFrame without rows or columns gives way to the other. Row counts must
    /// match, or one side must have at most one row, which is recycled; column
    /// names must not collide. The sort status and index of `self` are kept.
    pub fn cbind(self, other: DataFrame) -> (r: DataFrame)
        requires
            self.wf(),
            other.wf(),
            !self.is_empty_frame() && !other.is_empty_frame() ==> rows_compatible(self.n_row as nat, other.n_row as nat)
                && all_distinct(self.names() + other.names()),
        ensures
            self.is_empty_frame() ==> r == other,
            !self.is_empty_frame() && other.is_empty_frame() ==> r == self,
            !self.is_empty_frame() && !other.is_empty_frame() ==> {
                &&& bound_side_by_side(r, self, other)
                &&& r.status == self.status
                &&& r.row_index == self.row_index
            },
    {
        if self.is_empty() {
            return other;
        }
        if other.is_empty() {
            return self;
        }
        let n = if self.n_row >= other.n_row {
            self.n_row
        } else {
            other.n_row
        };
        let ghost s0 = self;
        let mut s = self;
        let mut o = other;
        grow_cols(&mut s.columns, s.n_row, n);
        s.n_row = n;
        let ghost s1 = s;
        proof {
            assert(s.wf());
        }
        grow_cols(&mut o.columns, o.n_row, n);
        let names = o.col_names;
        let cols = o.columns;
        proof {
            assert(s.names() == s0.names());
        }
        push_all(&mut s, names, cols);
        proof {
            assert(s.columns@.subrange(0, s0.columns@.len() as int) =~= s1.columns@);
            assert(s.columns@.subrange(s0.columns@.len() as int, s.columns@.len() as int) =~= cols@);
        }
        s
    }

    /// A new DataFrame of copies of the columns of this one and then of `other`;
    /// both are left as they are. Row counts must match, or one side must have at
    /// most one row, which is recycled; column names must not collide.
    pub fn cbind_ref(&self, other: &DataFrame) -> (r: DataFrame)
        requires
            self.wf(),
            other.wf(),
            rows_compatible(self.n_row as nat, other.n_row as nat),
            all_distinct(self.names() + other.names()),
        ensures
            bound_side_by_side(r, *self, *other),
            r.status.is_default(),
            r.row_index.is_reset(),
    {
        let n = if self.n_row >= other.n_row {
            self.n_row
        } else {
            other.n_row
        };
        let mut a = copy_cols(&self.columns);
        let mut b = copy_cols(&other.columns);
        let ghost a0 = a@;
        let ghost b0 = b@;
        proof {
            assert forall|j: int| 0 <= j < a@.len() implies (#[trigger] a@[j]).cells().len() == self.n_row && a@[j].wf() by {
                assert(self.columns@[j].cells().len() == self.n_row);
                assert(self.columns@[j].wf());
            }
            assert forall|j: int| 0 <= j < b@.len() implies (#[trigger] b@[j]).cells().len() == other.n_row && b@[j].wf() by {
                assert(other.columns@[j].cells().len() == other.n_row);
                assert(other.columns@[j].wf());
            }
        }
        grow_cols(&mut a, self.n_row, n);
        grow_cols(&mut b, other.n_row, n);
        let mut df = DataFrame::new();
        df.n_row = n;
        proof {
            assert(df.names() =~= Seq::<Seq<char>>::empty());
            assert(Seq::<Seq<char>>::empty() + self.names() =~= self.names());
            assert(all_distinct(self.names()));
        }
        push_all(&mut df, crate::data_frame::factor::clone_strings(&self.col_names), a);
        proof {
            assert(df.names() =~= self.names());
        }
        push_all(&mut df, crate::data_frame::factor::clone_strings(&other.col_names), b);
        proof {
            assert(df.columns@.subrange(0, self.columns@.len() as int) =~= a@);
            assert(df.columns@.subrange(self.columns@.len() as int, df.columns@.len() as int) =~= b@);
            assert forall|j: int| 0 <= j < self.columns@.len() implies grown_col(self.columns@[j], #[trigger] a@[j], n as nat) by {
                assert(grown_col(a0[j], a@[j], n as nat));
            }
            assert forall|j: int| 0 <= j < other.columns@.len() implies grown_col(other.columns@[j], #[trigger] b@[j], n as nat) by {
                assert(grown_col(b0[j], b@[j], n as nat));
            }
        }
        df
    }

    /// Append copies of the columns of a DataFrameSlice (its rows only, factor
    /// columns without labels) to this DataFrame. Row counts must match, or one
    /// side must have at most one row, which is recycled; names must not collide.
    pub fn cbind_slice(self, df_src: &DataFrameSlice) -> (r: DataFrame)
        requires
            self.wf(),
            df_src.data_frame.wf(),
            df_src.in_bounds(),
            df_src.end_row_i == df_src.start_row_i + df_src.n_row,
            rows_compatible(self.n_row as nat, df_src.n_row as nat),
            all_distinct(self.names() + df_src.data_frame.names()),
        ensures
            r.wf(),
            r.n_row == max_rows(self.n_row as nat, df_src.n_row as nat),
            r.names() == self.names() + df_src.data_frame.names(),
            cols_grown(self.columns@, r.columns@.subrange(0, self.columns@.len() as int), r.n_row as nat),
            forall|j: int|
                0 <= j < df_src.data_frame.columns@.len() ==> {
                    let c = #[trigger] r.columns@[self.columns@.len() + j];
                    let o = df_src.data_frame.columns@[j];
                    &&& c.kind_of() == o.kind_of()
                    &&& c.cells() == grown(
                        o.cells().subrange(df_src.start_row_i as int, df_src.end_row_i as int),
                        o.kind_of(),
                        r.n_row as nat,
                    )
                    &&& c.labels_view() == Seq::<Seq<char>>::empty()
                },
            r.status == self.status,
            r.row_index == self.row_index,
    {
        let piece = df_src.to_df();
        let n = if self.n_row >= piece.n_row {
            self.n_row
        } else {
            piece.n_row
        };
        let ghost s0 = self;
        let mut s = self;
        grow_cols(&mut s.columns, s.n_row, n);
        s.n_row = n;
        let ghost s1 = s;
        let mut b = piece.columns;
        let ghost b0 = b@;
        proof {
            assert forall|j: int| 0 <= j < b@.len() implies (#[trigger] b@[j]).cells().len() == piece.n_row && b@[j].wf() by {
                assert(piece.columns@[j].cells().len() == piece.n_row);
                assert(piece.columns@[j].wf());
            }
        }
        grow_cols(&mut b, piece.n_row, n);
        push_all(&mut s, piece.col_names, b);
        proof {
            assert(s.columns@.subrange(0, s0.columns@.len() as int) =~= s1.columns@);
            assert forall|j: int| 0 <= j < df_src.data_frame.columns@.len() implies {
                let c = #[trigger] s.columns@[s0.columns@.len() + j];
                let o = df_src.data_frame.columns@[j];
                &&& c.kind_of() == o.kind_of()
                &&& c.cells() == grown(
                    o.cells().subrange(df_src.start_row_i as int, df_src.end_row_i as int),
                    o.kind_of(),
                    s.n_row as nat,
                )
                &&& c.labels_view() == Seq::<Seq<char>>::empty()
            } by {
                assert(s.columns@[s0.columns@.len() + j] == b@[j]);
                assert(grown_col(b0[j], b@[j], n as nat));
                assert(b0[j] == piece.columns@[j]);
            }
        }
        s
    }

    /// Append copies of the rows of `other` to every column of this DataFrame.
    /// Column names must match in order; a column of another type is refused.
    fn rbind_add_rows(&mut self, df_src: &DataFrame) -> (r: Result<(), DfError>)
        requires
            old(self).wf(),
            df_src.wf(),
            old(self).names() == df_src.names(),
            old(self).n_row + df_src.n_row <= usize::MAX,
        ensures
            r is Err <==> exists|n: Seq<char>| kinds_differ(*old(self), *df_src, n),
            r matches Err(DfError::TypeMismatch(n)) ==> kinds_differ(*old(self), *df_src, n@),
            r is Err ==> (r matches Err(DfError::TypeMismatch(_)) && *final(self) == *old(self)),
            r is Ok ==> {
                &&& bound_one_under_other(*final(self), *old(self), *df_src)
                &&& forall|j: int|
                    0 <= j < old(self).columns@.len() ==> {
                        let c = #[trigger] final(self).columns@[j];
                        &&& c.labels_view() == old(self).columns@[j].labels_view()
                        &&& c.levels_of() == old(self).columns@[j].levels_of()
                    }
                &&& final(self).status == old(self).status
                &&& final(self).row_index == old(self).row_index
            },
    {
        let m = self.columns.len();
        proof {
            assert(old(self).names().len() == df_src.names().len());
            assert(old(self).names().len() == old(self).col_names@.len());
            assert(df_src.names().len() == df_src.col_names@.len());
            assert(df_src.columns@.len() == m);
        }
        let mut j: usize = 0;
        while j < m
            invariant
                m == old(self).columns@.len(),
                m == df_src.columns@.len(),
                self.columns@.len() == m,
                old(self).wf(),
                df_src.wf(),
                old(self).names() == df_src.names(),
                *self == *old(self),
                j <= m,
                forall|i: int| 0 <= i < j ==> (#[trigger] self.columns@[i]).kind_of() == df_src.columns@[i].kind_of(),
            decreases m - j,
        {
            if self.columns[j].kind() != df_src.columns[j].kind() {
                proof {
                    assert(kinds_differ(*old(self), *df_src, old(self).names()[j as int]));
                }
                return Err(DfError::TypeMismatch(self.col_names[j].clone()));
            }
            j = j + 1;
        }
        proof {
            if exists|n: Seq<char>| kinds_differ(*old(self), *df_src, n) {
                let n = choose|n: Seq<char>| kinds_differ(*old(self), *df_src, n);
                let jj = choose|jj: int|
                    0 <= jj < old(self).columns@.len() && old(self).names()[jj] == n && (#[trigger] old(self).columns@[jj]).kind_of()
                        != df_src.columns@[jj].kind_of();
                assert(self.columns@[jj].kind_of() == df_src.columns@[jj].kind_of());
            }
        }
        let mut k: usize = 0;
        while k < m
            invariant
                m == old(self).columns@.len(),
                m == df_src.columns@.len(),
                old(self).wf(),
                df_src.wf(),
                old(self).names() == df_src.names(),
                forall|i: int| 0 <= i < m ==> (#[trigger] old(self).columns@[i]).kind_of() == df_src.columns@[i].kind_of(),
                self.columns@.len() == m,
                self.col_names == old(self).col_names,
                self.n_row == old(self).n_row,
                self.status == old(self).status,
                self.row_index == old(self).row_index,
                self.print_max_rows == old(self).print_max_rows,
                self.print_max_col_width == old(self).print_max_col_width,
                k <= m,
                forall|i: int| k <= i < m ==> #[trigger] self.columns@[i] == old(self).columns@[i],
                forall|i: int|
                    0 <= i < k ==> {
                        let c = #[trigger] self.columns@[i];
                        &&& c.kind_of() == old(self).columns@[i].kind_of()
                        &&& c.cells() == old(self).columns@[i].cells() + df_src.columns@[i].cells()
                        &&& c.labels_view() == old(self).columns@[i].labels_view()
                        &&& c.levels_of() == old(self).columns@[i].levels_of()
                        &&& c.wf() == old(self).columns@[i].wf()
                    },
            decreases m - k,
        {
            let mut col = self.columns.remove(k);
            col.extend(&df_src.columns[k]);
            self.columns.insert(k, col);
            k = k + 1;
        }
        self.n_row = self.n_row + df_src.n_row;
        proof {
            assert forall|i: int| 0 <= i < self.columns@.len() implies (#[trigger] self.columns@[i]).cells().len()
                == self.n_row && self.columns@[i].wf() by {
                assert(old(self).columns@[i].cells().len() == old(self).n_row);
                assert(df_src.columns@[i].cells().len() == df_src.n_row);
                assert(old(self).columns@[i].wf());
            }
        }
        Ok(())
    }

    /// Append all rows of `other` to this DataFrame, consuming both. Column names
    /// must match in order, and a column of another type is refused. The result
    /// is not sorted, grouped or indexed.
    pub fn rbind(self, other: DataFrame) -> (r: Result<DataFrame, DfError>)
        requires
            self.wf(),
            other.wf(),
            self.names() == other.names(),
            self.n_row + other.n_row <= usize::MAX,
        ensures
            r is Err <==> exists|n: Seq<char>| kinds_differ(self, other, n),
            r matches Err(e) ==> (e matches DfError::TypeMismatch(n) && kinds_differ(self, other, n@)),
            r matches Ok(out) ==> {
                &&& bound_one_under_other(out, self, other)
                &&& forall|j: int|
                    0 <= j < self.columns@.len() ==> (#[trigger] out.columns@[j]).labels_view()
                        == self.columns@[j].labels_view()
                &&& out.status.is_default()
                &&& out.row_index.is_reset()
            },
    {
        let mut s = self;
        match s.rbind_add_rows(&other) {
            Ok(()) => {},
            Err(e) => {
                return Err(e);
            },
        }
        s.status.reset();
        s.row_index.reset();
        Ok(s)
    }

    /// A new DataFrame with copies of the rows of this one and then of `other`;
    /// both are left as they are. Column names must match in order, and a column
    /// of another type is refused. Factor columns come without labels.
    pub fn rbind_ref(&self, other: &DataFrame) -> (r: Result<DataFrame, DfError>)
        requires
            self.wf(),
            other.wf(),
            self.names() == other.names(),
            self.n_row + other.n_row <= usize::MAX,
        ensures
            r is Err <==> exists|n: Seq<char>| kinds_differ(*self, *other, n),
            r matches Err(e) ==> (e matches DfError::TypeMismatch(n) && kinds_differ(*self, *other, n@)),
            r matches Ok(out) ==> {
                &&& bound_one_under_other(out, *self, *other)
                &&& forall|j: int| 0 <= j < self.columns@.len() ==> (#[trigger] out.columns@[j]).labels_view() == Seq::<Seq<char>>::empty()
                &&& out.status.is_default()
                &&& out.row_index.is_reset()
            },
    {
        let mut df = DataFrame::from_schema(self);
        let ghost d0 = df;
        proof {
            assert(d0.names().len() == self.names().len());
            assert(d0.columns@.len() == self.columns@.len());
            assert(other.columns@.len() == self.columns@.len());
            assert forall|n: Seq<char>| kinds_differ(d0, *self, n) implies false by {
                let jj = choose|jj: int|
                    0 <= jj < d0.columns@.len() && d0.names()[jj] == n && (#[trigger] d0.columns@[jj]).kind_of()
                        != self.columns@[jj].kind_of();
            }
        }
        match df.rbind_add_rows(self) {
            Ok(()) => {},
            Err(e) => {
                return Err(e);
            },
        }
        let ghost d1 = df;
        proof {
            assert forall|n: Seq<char>| kinds_differ(d1, *other, n) == kinds_differ(*self, *other, n) by {
                if kinds_differ(d1, *other, n) {
                    let jj = choose|jj: int|
                        0 <= jj < d1.columns@.len() && d1.names()[jj] == n && (#[trigger] d1.columns@[jj]).kind_of()
                            != other.columns@[jj].kind_of();
                    assert(self.columns@[jj].kind_of() != other.columns@[jj].kind_of());
                }
                if kinds_differ(*self, *other, n) {
                    let jj = choose|jj: int|
                        0 <= jj < self.columns@.len() && self.names()[jj] == n && (#[trigger] self.columns@[jj]).kind_of()
                            != other.columns@[jj].kind_of();
                    assert(d1.columns@[jj].kind_of() != other.columns@[jj].kind_of());
                }
            }
        }
        match df.rbind_add_rows(other) {
            Ok(()) => {},
            Err(e) => {
                return Err(e);
            },
        }
        proof {
            assert forall|j: int| 0 <= j < self.columns@.len() implies (#[trigger] df.columns@[j]).cells()
                == self.columns@[j].cells() + other.columns@[j].cells() by {
                assert(d0.columns@[j].cells().len() == 0);
                assert(d0.columns@[j].cells() + self.columns@[j].cells() =~= self.columns@[j].cells());
            }
        }
        Ok(df)
    }
}

} // verus!
