//! Column setters of `set` and `inject` actions: a new or replaced column computed
//! from existing columns row by row, from a vector, or from one value.
use vstd::prelude::*;
use crate::data_frame::column::{ColKind, ColType, CellValue, cells_of, na_cell};
use crate::data_frame::frame::{
    DataFrame, DfError, grown, grown_col, rows_compatible, max_rows, status_after_change, index_after_change,
};
use crate::data_frame::query::Query;
use crate::data_frame::access::{typed_col_ok, typed_col_error};
use crate::types::do_agg::Do;

verus! {

/// `op` can be called on row `k` of a column, where its value is present.
pub open spec fn admits_1<A: ColType, O>(op: impl Fn(A) -> O, ca: Seq<CellValue>, k: int) -> bool {
    forall|a: A| #![trigger op.requires((a,))] ca[k] == A::wrap(Some(a)) ==> op.requires((a,))
}

/// `op` can be called on row `k` of two columns, where both values are present.
pub open spec fn admits_2<A: ColType, B: ColType, O>(
    op: impl Fn(A, B) -> O,
    ca: Seq<CellValue>,
    cb: Seq<CellValue>,
    k: int,
) -> bool {
    forall|a: A, b: B|
        #![trigger op.requires((a, b,))]
        ca[k] == A::wrap(Some(a)) && cb[k] == B::wrap(Some(b)) ==> op.requires((a, b,))
}

/// `op` can be called on row `k` of three columns, where all values are present.
pub open spec fn admits_3<A: ColType, B: ColType, C: ColType, O>(
    op: impl Fn(A, B, C) -> O,
    ca: Seq<CellValue>,
    cb: Seq<CellValue>,
    cc: Seq<CellValue>,
    k: int,
) -> bool {
    forall|a: A, b: B, c: C|
        #![trigger op.requires((a, b, c,))]
        ca[k] == A::wrap(Some(a)) && cb[k] == B::wrap(Some(b)) && cc[k] == C::wrap(Some(c)) ==> op.requires((a, b, c,))
}

/// `op` can be called on row `k` of four columns, where all values are present.
pub open spec fn admits_4<A: ColType, B: ColType, C: ColType, D: ColType, O>(
    op: impl Fn(A, B, C, D) -> O,
    ca: Seq<CellValue>,
    cb: Seq<CellValue>,
    cc: Seq<CellValue>,
    cd: Seq<CellValue>,
    k: int,
) -> bool {
    forall|a: A, b: B, c: C, d: D|
        #![trigger op.requires((a, b, c, d,))]
        ca[k] == A::wrap(Some(a)) && cb[k] == B::wrap(Some(b)) && cc[k] == C::wrap(Some(c)) && cd[k] == D::wrap(
            Some(d),
        ) ==> op.requires((a, b, c, d,))
}

/// Whether a `set` action leaves row `i` as it was: the query filtered rows and
/// did not keep this one.
pub open spec fn row_left(qry: Query, i: int) -> bool {
    qry.has_been_filtered && !qry.kept_rows@[i]
}

/// What a row that a `set` action leaves holds: the existing cell of the output
/// column, or NA for a new column.
pub open spec fn row_default(df: DataFrame, out: Seq<char>, kind: ColKind, i: int) -> CellValue {
    if df.has_col(out) {
        df.col_of(out).cells()[i]
    } else {
        na_cell(kind)
    }
}

/// The shape of a DataFrame after a column named `out` of kind `kind` and of the
/// DataFrame's length was set: other columns are as they were, and a new name is
/// appended.
pub open spec fn set_shape(old: DataFrame, new: DataFrame, out: Seq<char>, kind: ColKind) -> bool {
    &&& new.wf()
    &&& new.n_row == old.n_row
    &&& new.col_of(out).kind_of() == kind
    &&& new.col_of(out).cells().len() == old.n_row
    &&& !old.has_col(out) ==> new.names() == old.names().push(out) && new.status == old.status && new.row_index
        == old.row_index
    &&& old.has_col(out) ==> new.names() == old.names() && status_after_change(old.status, new.status, seq![out])
        && index_after_change(old.row_index, new.row_index, seq![out])
    &&& forall|j: int|
        0 <= j < old.columns@.len() && old.names()[j] != out ==> grown_col(
            old.columns@[j],
            #[trigger] new.columns@[j],
            new.n_row as nat,
        )
}

/// A set action's output column holds, at each row, the row's default where the
/// query left the row, and else the computed value.
pub open spec fn set_cells_ok<O: ColType>(
    old: DataFrame,
    new: DataFrame,
    qry: Query,
    out: Seq<char>,
    vals: Seq<Option<O>>,
) -> bool {
    forall|i: int|
        0 <= i < old.n_row ==> #[trigger] new.col_of(out).cells()[i] == if row_left(qry, i) {
            row_default(old, out, O::kind(), i)
        } else {
            O::wrap(vals[i])
        }
}

/// The preconditions shared by the set actions.
pub open spec fn set_ready<O: ColType>(df: DataFrame, qry: Query, out: Seq<char>) -> bool {
    &&& df.wf()
    &&& qry.has_been_filtered ==> qry.kept_rows@.len() >= df.n_row
    &&& df.has_col(out) && df.col_of(out).kind_of() == ColKind::Factor ==> O::kind() == ColKind::Factor
}

/// The output column exists with another type while the query filtered rows (so
/// its cells would be kept).
pub open spec fn set_out_clash<O: ColType>(df: DataFrame, qry: Query, out: Seq<char>) -> bool {
    qry.has_been_filtered && df.has_col(out) && df.col_of(out).kind_of() != O::kind()
}

/// The error of a set action whose output column clashes.
pub open spec fn set_out_error<O: ColType>(df: DataFrame, qry: Query, out: Seq<char>, e: DfError) -> bool {
    set_out_clash::<O>(df, qry, out) && (e matches DfError::TypeMismatch(n) && n@ == out)
}

impl DataFrame {
    /// The cells that rows left by a set action keep: nothing when the query did
    /// not filter; else the existing output column, or NA for a new one.
    fn get_set_row_defaults<O: ColType>(&self, qry: &Query, out_name: &str) -> (r: Result<Vec<Option<O>>, DfError>)
        requires
            self.wf(),
        ensures
            !qry.has_been_filtered ==> (r matches Ok(v) && v@.len() == 0),
            qry.has_been_filtered ==> match r {
                Ok(v) => !set_out_clash::<O>(*self, *qry, out_name@) && v@.len() == self.n_row
                    && forall|i: int| 0 <= i < self.n_row ==> O::wrap(#[trigger] v@[i]) == row_default(*self, out_name@, O::kind(), i),
                Err(e) => set_out_error::<O>(*self, *qry, out_name@, e),
            },
    {
        if !qry.has_been_filtered {
            return Ok(Vec::new());
        }
        match self.find_col(out_name) {
            Some(j) => {
                if self.columns[j].kind() != O::col_kind() {
                    return Err(DfError::TypeMismatch(out_name.to_owned()));
                }
                let v = match self.get::<O>(out_name) {
                    Ok(v) => v,
                    Err(_) => {
                        return Err(DfError::TypeMismatch(out_name.to_owned()));
                    },
                };
                proof {
                    assert(self.col_of(out_name@).cells().len() == self.n_row);
                    assert forall|i: int| 0 <= i < self.n_row implies O::wrap(#[trigger] v@[i]) == row_default(
                        *self,
                        out_name@,
                        O::kind(),
                        i,
                    ) by {
                        assert(cells_of(v@)[i] == O::wrap(v@[i]));
                    }
                }
                Ok(v)
            },
            None => {
                let mut v: Vec<Option<O>> = Vec::new();
                let mut i: usize = 0;
                while i < self.n_row
                    invariant
                        i <= self.n_row,
                        v@.len() == i,
                        forall|k: int| 0 <= k < i ==> #[trigger] v@[k] == None::<O>,
                    decreases self.n_row - i,
                {
                    v.push(None);
                    i = i + 1;
                }
                proof {
                    assert forall|k: int| 0 <= k < self.n_row implies O::wrap(#[trigger] v@[k]) == row_default(
                        *self,
                        out_name@,
                        O::kind(),
                        k,
                    ) by {
                        O::lemma_wrap(None, None);
                    }
                }
                Ok(v)
            },
        }
    }

    /// Put the values of a set action into its output column, keeping the
    /// defaults at the rows the query left.
    fn finish_set<O: ColType>(&mut self, qry: &Query, out_name: &str, vals: Vec<Option<O>>, defaults: Vec<Option<O>>)
        requires
            set_ready::<O>(*old(self), *qry, out_name@),
            vals@.len() == old(self).n_row,
            qry.has_been_filtered ==> defaults@.len() == old(self).n_row && forall|i: int|
                0 <= i < old(self).n_row ==> O::wrap(#[trigger] defaults@[i]) == row_default(
                    *old(self),
                    out_name@,
                    O::kind(),
                    i,
                ),
        ensures
            set_shape(*old(self), *final(self), out_name@, O::kind()),
            set_cells_ok(*old(self), *final(self), *qry, out_name@, vals@),
    {
        let n = vals.len();
        let mut out: Vec<Option<O>> = Vec::new();
        let mut i: usize = 0;
        while i < n
            invariant
                n == vals@.len(),
                n == old(self).n_row,
                qry.has_been_filtered ==> qry.kept_rows@.len() >= n && defaults@.len() == n,
                i <= n,
                out@.len() == i,
                forall|k: int|
                    0 <= k < i ==> #[trigger] out@[k] == if row_left(*qry, k) {
                        defaults@[k]
                    } else {
                        vals@[k]
                    },
            decreases n - i,
        {
            if qry.has_been_filtered && !qry.kept_rows[i] {
                out.push(O::copy_opt(&defaults[i]));
            } else {
                out.push(O::copy_opt(&vals[i]));
            }
            i = i + 1;
        }
        let ghost d0 = *self;
        self.replace_or_add_col(out_name, out);
        proof {
            assert(max_rows(d0.n_row as nat, n as nat) == d0.n_row);
            assert(grown(cells_of(out@), O::kind(), n as nat) =~= cells_of(out@));
            assert forall|j: int| 0 <= j < d0.columns@.len() && d0.names()[j] != out_name@ implies grown_col(
                d0.columns@[j],
                #[trigger] self.columns@[j],
                self.n_row as nat,
            ) by {
                crate::data_frame::factor::lemma_first_index(d0.names(), out_name@);
            }
            assert forall|k: int| 0 <= k < d0.n_row implies #[trigger] self.col_of(out_name@).cells()[k] == if row_left(
                *qry,
                k,
            ) {
                row_default(d0, out_name@, O::kind(), k)
            } else {
                O::wrap(vals@[k])
            } by {
                assert(self.col_of(out_name@).cells()[k] == cells_of(out@)[k]);
            }
        }
    }

    /// Create or update a column from a vector of values: rows that the query
    /// filtered out keep their cells (NA for a new column).
    pub fn set_col_0<O: ColType>(&mut self, qry: &Query, out_name: &str, out_col_data: Vec<Option<O>>) -> (r: Result<
        (),
        DfError,
    >)
        requires
            set_ready::<O>(*old(self), *qry, out_name@),
            out_col_data@.len() == old(self).n_row,
        ensures
            match r {
                Ok(()) => !set_out_clash::<O>(*old(self), *qry, out_name@) && set_shape(
                    *old(self),
                    *final(self),
                    out_name@,
                    O::kind(),
                ) && set_cells_ok(*old(self), *final(self), *qry, out_name@, out_col_data@),
                Err(e) => set_out_error::<O>(*old(self), *qry, out_name@, e) && *final(self) == *old(self),
            },
    {
        let defaults = match self.get_set_row_defaults::<O>(qry, out_name) {
            Ok(d) => d,
            Err(e) => {
                return Err(e);
            },
        };
        self.finish_set(qry, out_name, out_col_data, defaults);
        Ok(())
    }

    /// Create or update a column from one column: each row holds `op` of the
    /// input value, or `na_val` where the input is NA; rows that the query
    /// filtered out keep their cells (NA for a new column).
    pub fn set_col_1<A: ColType + Copy, O: ColType + Copy>(
        &mut self,
        qry: &Query,
        a_name: &str,
        out_name: &str,
        na_val: Option<O>,
        op: impl Fn(A) -> O,
    ) -> (r: Result<(), DfError>)
        requires
            set_ready::<O>(*old(self), *qry, out_name@),
            forall|k: int| 0 <= k < old(self).n_row ==> #[trigger] admits_1(op, old(self).col_of(a_name@).cells(), k),
        ensures
            match r {
                Ok(()) => {
                    &&& !set_out_clash::<O>(*old(self), *qry, out_name@)
                    &&& typed_col_ok(*old(self), a_name@, A::kind())
                    &&& set_shape(*old(self), *final(self), out_name@, O::kind())
                    &&& exists|vals: Seq<Option<O>>|
                        #![trigger set_cells_ok(*old(self), *final(self), *qry, out_name@, vals)]
                        {
                            &&& set_cells_ok(*old(self), *final(self), *qry, out_name@, vals)
                            &&& forall|i: int, x: Option<A>|
                                #![trigger vals[i], A::wrap(x)]
                                0 <= i < old(self).n_row && A::wrap(x) == old(self).col_of(a_name@).cells()[i] ==> match x {
                                    Some(a) => vals[i] matches Some(v) && op.ensures((a,), v),
                                    None => vals[i] == na_val,
                                }
                        }
                },
                Err(e) => (set_out_error::<O>(*old(self), *qry, out_name@, e) || (!typed_col_ok(
                    *old(self),
                    a_name@,
                    A::kind(),
                ) && typed_col_error(*old(self), a_name@, A::kind(), e))) && *final(self) == *old(self),
            },
    {
        let defaults = match self.get_set_row_defaults::<O>(qry, out_name) {
            Ok(d) => d,
            Err(e) => {
                return Err(e);
            },
        };
        let a = match self.get::<A>(a_name) {
            Ok(a) => a,
            Err(e) => {
                return Err(e);
            },
        };
        proof {
            crate::data_frame::factor::lemma_first_index(self.names(), a_name@);
        }
        let n = self.n_row;
        let mut vals: Vec<Option<O>> = Vec::new();
        let mut i: usize = 0;
        while i < n
            invariant
                n == self.n_row,
                a@.len() == n,
                forall|k: int| 0 <= k < n ==> #[trigger] admits_1(op, self.col_of(a_name@).cells(), k),
                cells_of(a@) == self.col_of(a_name@).cells(),
                i <= n,
                vals@.len() == i,
                forall|k: int|
                    0 <= k < i ==> match a@[k] {
                        Some(x) => (#[trigger] vals@[k]) matches Some(v) && op.ensures((x,), v),
                        None => vals@[k] == na_val,
                    },
            decreases n - i,
        {
            let v = match a[i] {
                Some(x) => {
                    proof {
                        assert(cells_of(a@)[i as int] == A::wrap(a@[i as int]));
                        assert(admits_1(op, self.col_of(a_name@).cells(), i as int));
                    }
                    Some(op(x))
                },
                None => na_val,
            };
            vals.push(v);
            i = i + 1;
        }
        let ghost vv = vals@;
        let ghost d0 = *self;
        proof {
            assert(d0.col_of(a_name@).cells().len() == n);
            assert forall|k: int, x: Option<A>|
                #![trigger vv[k], A::wrap(x)]
                0 <= k < n && A::wrap(x) == d0.col_of(a_name@).cells()[k] implies match x {
                    Some(y) => vv[k] matches Some(v) && op.ensures((y,), v),
                    None => vv[k] == na_val,
                } by {
                assert(cells_of(a@)[k] == A::wrap(a@[k]));
                A::lemma_wrap(x, a@[k]);
            }
        }
        self.finish_set(qry, out_name, vals, defaults);
        assert(set_cells_ok(d0, *self, *qry, out_name@, vv));
        Ok(())
    }

    /// Create or update a column from 2 columns: each row holds `op` of the input
    /// values, or `na_val` where any input is NA; rows that the query filtered out
    /// keep their cells (NA for a new column).
    pub fn set_col_2<A: ColType + Copy, B: ColType + Copy, O: ColType + Copy>(
        &mut self,
        qry: &Query,
        a_name: &str,
        b_name: &str,
        out_name: &str,
        na_val: Option<O>,
        op: impl Fn(A, B) -> O,
    ) -> (r: Result<(), DfError>)
        requires
            set_ready::<O>(*old(self), *qry, out_name@),
            forall|k: int| 0 <= k < old(self).n_row ==> #[trigger] admits_2(op, old(self).col_of(a_name@).cells(), old(self).col_of(b_name@).cells(), k),
        ensures
            match r {
                Ok(()) => {
                    &&& !set_out_clash::<O>(*old(self), *qry, out_name@)
                    &&& typed_col_ok(*old(self), a_name@, A::kind())
                    &&& typed_col_ok(*old(self), b_name@, B::kind())
                    &&& set_shape(*old(self), *final(self), out_name@, O::kind())
                    &&& exists|vals: Seq<Option<O>>|
                        #![trigger set_cells_ok(*old(self), *final(self), *qry, out_name@, vals)]
                        {
                            &&& set_cells_ok(*old(self), *final(self), *qry, out_name@, vals)
                            &&& forall|i: int, xa: Option<A>, xb: Option<B>|
                                #![trigger vals[i], A::wrap(xa), B::wrap(xb)]
                                0 <= i < old(self).n_row && A::wrap(xa) == old(self).col_of(a_name@).cells()[i] && B::wrap(xb) == old(self).col_of(b_name@).cells()[i] ==> match (xa, xb) {
                                    (Some(ya), Some(yb)) => vals[i] matches Some(v) && op.ensures((ya, yb,), v),
                                    _ => vals[i] == na_val,
                                }
                        }
                },
                Err(e) => (set_out_error::<O>(*old(self), *qry, out_name@, e) || (!typed_col_ok(*old(self), a_name@, A::kind()) && typed_col_error(*old(self), a_name@, A::kind(), e)) || (!typed_col_ok(*old(self), b_name@, B::kind()) && typed_col_error(*old(self), b_name@, B::kind(), e))) && *final(self) == *old(self),
            },
    {
        let defaults = match self.get_set_row_defaults::<O>(qry, out_name) {
            Ok(d) => d,
            Err(e) => {
                return Err(e);
            },
        };
        let av = match self.get::<A>(a_name) {
            Ok(v) => v,
            Err(e) => {
                return Err(e);
            },
        };
        let bv = match self.get::<B>(b_name) {
            Ok(v) => v,
            Err(e) => {
                return Err(e);
            },
        };
        proof {
            crate::data_frame::factor::lemma_first_index(self.names(), a_name@);
            crate::data_frame::factor::lemma_first_index(self.names(), b_name@);
        }
        let n = self.n_row;
        let mut vals: Vec<Option<O>> = Vec::new();
        let mut i: usize = 0;
        while i < n
            invariant
                n == self.n_row,
                av@.len() == n,
                bv@.len() == n,
                forall|k: int| 0 <= k < n ==> #[trigger] admits_2(op, self.col_of(a_name@).cells(), self.col_of(b_name@).cells(), k),
                cells_of(av@) == self.col_of(a_name@).cells(),
                cells_of(bv@) == self.col_of(b_name@).cells(),
                i <= n,
                vals@.len() == i,
                forall|k: int|
                    0 <= k < i ==> match (av@[k], bv@[k]) {
                        (Some(ya), Some(yb)) => (#[trigger] vals@[k]) matches Some(v) && op.ensures((ya, yb,), v),
                        _ => vals@[k] == na_val,
                    },
            decreases n - i,
        {
            let v = match (av[i], bv[i]) {
                (Some(ya), Some(yb)) => {
                    proof {
                        assert(cells_of(av@)[i as int] == A::wrap(av@[i as int]));
                        assert(cells_of(bv@)[i as int] == B::wrap(bv@[i as int]));
                        assert(admits_2(op, self.col_of(a_name@).cells(), self.col_of(b_name@).cells(), i as int));
                    }
                    Some(op(ya, yb))
                },
                _ => na_val,
            };
            vals.push(v);
            i = i + 1;
        }
        let ghost vv = vals@;
        let ghost d0 = *self;
        proof {
            assert(d0.col_of(a_name@).cells().len() == n);
            assert(d0.col_of(b_name@).cells().len() == n);
            assert forall|k: int, xa: Option<A>, xb: Option<B>|
                #![trigger vv[k], A::wrap(xa), B::wrap(xb)]
                0 <= k < n && A::wrap(xa) == d0.col_of(a_name@).cells()[k] && B::wrap(xb) == d0.col_of(b_name@).cells()[k] implies match (xa, xb) {
                    (Some(ya), Some(yb)) => vv[k] matches Some(v) && op.ensures((ya, yb,), v),
                    _ => vv[k] == na_val,
                } by {
                assert(cells_of(av@)[k] == A::wrap(av@[k]));
                A::lemma_wrap(xa, av@[k]);
                assert(cells_of(bv@)[k] == B::wrap(bv@[k]));
                B::lemma_wrap(xb, bv@[k]);
            }
        }
        self.finish_set(qry, out_name, vals, defaults);
        assert(set_cells_ok(d0, *self, *qry, out_name@, vv));
        Ok(())
    }

    /// Create or update a column from 3 columns: each row holds `op` of the input
    /// values, or `na_val` where any input is NA; rows that the query filtered out
    /// keep their cells (NA for a new column).
    pub fn set_col_3<A: ColType + Copy, B: ColType + Copy, C: ColType + Copy, O: ColType + Copy>(
        &mut self,
        qry: &Query,
        a_name: &str,
        b_name: &str,
        c_name: &str,
        out_name: &str,
        na_val: Option<O>,
        op: impl Fn(A, B, C) -> O,
    ) -> (r: Result<(), DfError>)
        requires
            set_ready::<O>(*old(self), *qry, out_name@),
            forall|k: int|
                0 <= k < old(self).n_row ==> #[trigger] admits_3(op, old(self).col_of(a_name@).cells(), old(self).col_of(b_name@).cells(), old(self).col_of(c_name@).cells(), k),
        ensures
            match r {
                Ok(()) => {
                    &&& !set_out_clash::<O>(*old(self), *qry, out_name@)
                    &&& typed_col_ok(*old(self), a_name@, A::kind())
                    &&& typed_col_ok(*old(self), b_name@, B::kind())
                    &&& typed_col_ok(*old(self), c_name@, C::kind())
                    &&& set_shape(*old(self), *final(self), out_name@, O::kind())
                    &&& exists|vals: Seq<Option<O>>|
                        #![trigger set_cells_ok(*old(self), *final(self), *qry, out_name@, vals)]
                        {
                            &&& set_cells_ok(*old(self), *final(self), *qry, out_name@, vals)
                            &&& forall|i: int, xa: Option<A>, xb: Option<B>, xc: Option<C>|
                                #![trigger vals[i], A::wrap(xa), B::wrap(xb), C::wrap(xc)]
                                0 <= i < old(self).n_row && A::wrap(xa) == old(self).col_of(a_name@).cells()[i] && B::wrap(xb) == old(self).col_of(b_name@).cells()[i] && C::wrap(xc) == old(self).col_of(c_name@).cells()[i] ==> match (xa, xb, xc) {
                                    (Some(ya), Some(yb), Some(yc)) => vals[i] matches Some(v) && op.ensures((ya, yb, yc,), v),
                                    _ => vals[i] == na_val,
                                }
                        }
                },
                Err(e) => (set_out_error::<O>(*old(self), *qry, out_name@, e) || (!typed_col_ok(*old(self), a_name@, A::kind()) && typed_col_error(*old(self), a_name@, A::kind(), e)) || (!typed_col_ok(*old(self), b_name@, B::kind()) && typed_col_error(*old(self), b_name@, B::kind(), e)) || (!typed_col_ok(*old(self), c_name@, C::kind()) && typed_col_error(*old(self), c_name@, C::kind(), e))) && *final(self) == *old(self),
            },
    {
        let defaults = match self.get_set_row_defaults::<O>(qry, out_name) {
            Ok(d) => d,
            Err(e) => {
                return Err(e);
            },
        };
        let av = match self.get::<A>(a_name) {
            Ok(v) => v,
            Err(e) => {
                return Err(e);
            },
        };
        let bv = match self.get::<B>(b_name) {
            Ok(v) => v,
            Err(e) => {
                return Err(e);
            },
        };
        let cv = match self.get::<C>(c_name) {
            Ok(v) => v,
            Err(e) => {
                return Err(e);
            },
        };
        proof {
            crate::data_frame::factor::lemma_first_index(self.names(), a_name@);
            crate::data_frame::factor::lemma_first_index(self.names(), b_name@);
            crate::data_frame::factor::lemma_first_index(self.names(), c_name@);
        }
        let n = self.n_row;
        let mut vals: Vec<Option<O>> = Vec::new();
        let mut i: usize = 0;
        while i < n
            invariant
                n == self.n_row,
                av@.len() == n,
                bv@.len() == n,
                cv@.len() == n,
                forall|k: int| 0 <= k < n ==> #[trigger] admits_3(op, self.col_of(a_name@).cells(), self.col_of(b_name@).cells(), self.col_of(c_name@).cells(), k),
                cells_of(av@) == self.col_of(a_name@).cells(),
                cells_of(bv@) == self.col_of(b_name@).cells(),
                cells_of(cv@) == self.col_of(c_name@).cells(),
                i <= n,
                vals@.len() == i,
                forall|k: int|
                    0 <= k < i ==> match (av@[k], bv@[k], cv@[k]) {
                        (Some(ya), Some(yb), Some(yc)) => (#[trigger] vals@[k]) matches Some(v) && op.ensures((ya, yb, yc,), v),
                        _ => vals@[k] == na_val,
                    },
            decreases n - i,
        {
            let v = match (av[i], bv[i], cv[i]) {
                (Some(ya), Some(yb), Some(yc)) => {
                    proof {
                        assert(cells_of(av@)[i as int] == A::wrap(av@[i as int]));
                        assert(cells_of(bv@)[i as int] == B::wrap(bv@[i as int]));
                        assert(cells_of(cv@)[i as int] == C::wrap(cv@[i as int]));
                        assert(admits_3(op, self.col_of(a_name@).cells(), self.col_of(b_name@).cells(), self.col_of(c_name@).cells(), i as int));
                    }
                    Some(op(ya, yb, yc))
                },
                _ => na_val,
            };
            vals.push(v);
            i = i + 1;
        }
        let ghost vv = vals@;
        let ghost d0 = *self;
        proof {
            assert(d0.col_of(a_name@).cells().len() == n);
            assert(d0.col_of(b_name@).cells().len() == n);
            assert(d0.col_of(c_name@).cells().len() == n);
            assert forall|k: int, xa: Option<A>, xb: Option<B>, xc: Option<C>|
                #![trigger vv[k], A::wrap(xa), B::wrap(xb), C::wrap(xc)]
                0 <= k < n && A::wrap(xa) == d0.col_of(a_name@).cells()[k] && B::wrap(xb) == d0.col_of(b_name@).cells()[k] && C::wrap(xc) == d0.col_of(c_name@).cells()[k] implies match (xa, xb, xc) {
                    (Some(ya), Some(yb), Some(yc)) => vv[k] matches Some(v) && op.ensures((ya, yb, yc,), v),
                    _ => vv[k] == na_val,
                } by {
                assert(cells_of(av@)[k] == A::wrap(av@[k]));
                A::lemma_wrap(xa, av@[k]);
                assert(cells_of(bv@)[k] == B::wrap(bv@[k]));
                B::lemma_wrap(xb, bv@[k]);
                assert(cells_of(cv@)[k] == C::wrap(cv@[k]));
                C::lemma_wrap(xc, cv@[k]);
            }
        }
        self.finish_set(qry, out_name, vals, defaults);
        assert(set_cells_ok(d0, *self, *qry, out_name@, vv));
        Ok(())
    }

    /// Create or update a column from 4 columns: each row holds `op` of the input
    /// values, or `na_val` where any input is NA; rows that the query filtered out
    /// keep their cells (NA for a new column).
    pub fn set_col_4<A: ColType + Copy, B: ColType + Copy, C: ColType + Copy, D: ColType + Copy, O: ColType + Copy>(
        &mut self,
        qry: &Query,
        a_name: &str,
        b_name: &str,
        c_name: &str,
        d_name: &str,
        out_name: &str,
        na_val: Option<O>,
        op: impl Fn(A, B, C, D) -> O,
    ) -> (r: Result<(), DfError>)
        requires
            set_ready::<O>(*old(self), *qry, out_name@),
            forall|k: int|
                0 <= k < old(self).n_row ==> #[trigger] admits_4(op, old(self).col_of(a_name@).cells(), old(self).col_of(b_name@).cells(), old(self).col_of(c_name@).cells(), old(self).col_of(d_name@).cells(), k),
        ensures
            match r {
                Ok(()) => {
                    &&& !set_out_clash::<O>(*old(self), *qry, out_name@)
                    &&& typed_col_ok(*old(self), a_name@, A::kind())
                    &&& typed_col_ok(*old(self), b_name@, B::kind())
                    &&& typed_col_ok(*old(self), c_name@, C::kind())
                    &&& typed_col_ok(*old(self), d_name@, D::kind())
                    &&& set_shape(*old(self), *final(self), out_name@, O::kind())
                    &&& exists|vals: Seq<Option<O>>|
                        #![trigger set_cells_ok(*old(self), *final(self), *qry, out_name@, vals)]
                        {
                            &&& set_cells_ok(*old(self), *final(self), *qry, out_name@, vals)
                            &&& forall|i: int, xa: Option<A>, xb: Option<B>, xc: Option<C>, xd: Option<D>|
                                #![trigger vals[i], A::wrap(xa), B::wrap(xb), C::wrap(xc), D::wrap(xd)]
                                0 <= i < old(self).n_row && A::wrap(xa) == old(self).col_of(a_name@).cells()[i] && B::wrap(xb) == old(self).col_of(b_name@).cells()[i] && C::wrap(xc) == old(self).col_of(c_name@).cells()[i] && D::wrap(xd) == old(self).col_of(d_name@).cells()[i] ==> match (xa, xb, xc, xd) {
                                    (Some(ya), Some(yb), Some(yc), Some(yd)) => vals[i] matches Some(v) && op.ensures((ya, yb, yc, yd,), v),
                                    _ => vals[i] == na_val,
                                }
                        }
                },
                Err(e) => (set_out_error::<O>(*old(self), *qry, out_name@, e) || (!typed_col_ok(*old(self), a_name@, A::kind()) && typed_col_error(*old(self), a_name@, A::kind(), e)) || (!typed_col_ok(*old(self), b_name@, B::kind()) && typed_col_error(*old(self), b_name@, B::kind(), e)) || (!typed_col_ok(*old(self), c_name@, C::kind()) && typed_col_error(*old(self), c_name@, C::kind(), e)) || (!typed_col_ok(*old(self), d_name@, D::kind()) && typed_col_error(*old(self), d_name@, D::kind(), e))) && *final(self) == *old(self),
            },
    {
        let defaults = match self.get_set_row_defaults::<O>(qry, out_name) {
            Ok(d) => d,
            Err(e) => {
                return Err(e);
            },
        };
        let av = match self.get::<A>(a_name) {
            Ok(v) => v,
            Err(e) => {
                return Err(e);
            },
        };
        let bv = match self.get::<B>(b_name) {
            Ok(v) => v,
            Err(e) => {
                return Err(e);
            },
        };
        let cv = match self.get::<C>(c_name) {
            Ok(v) => v,
            Err(e) => {
                return Err(e);
            },
        };
        let dv = match self.get::<D>(d_name) {
            Ok(v) => v,
            Err(e) => {
                return Err(e);
            },
        };
        proof {
            crate::data_frame::factor::lemma_first_index(self.names(), a_name@);
            crate::data_frame::factor::lemma_first_index(self.names(), b_name@);
            crate::data_frame::factor::lemma_first_index(self.names(), c_name@);
            crate::data_frame::factor::lemma_first_index(self.names(), d_name@);
        }
        let n = self.n_row;
        let mut vals: Vec<Option<O>> = Vec::new();
        let mut i: usize = 0;
        while i < n
            invariant
                n == self.n_row,
                av@.len() == n,
                bv@.len() == n,
                cv@.len() == n,
                dv@.len() == n,
                forall|k: int| 0 <= k < n ==> #[trigger] admits_4(op, self.col_of(a_name@).cells(), self.col_of(b_name@).cells(), self.col_of(c_name@).cells(), self.col_of(d_name@).cells(), k),
                cells_of(av@) == self.col_of(a_name@).cells(),
                cells_of(bv@) == self.col_of(b_name@).cells(),
                cells_of(cv@) == self.col_of(c_name@).cells(),
                cells_of(dv@) == self.col_of(d_name@).cells(),
                i <= n,
                vals@.len() == i,
                forall|k: int|
                    0 <= k < i ==> match (av@[k], bv@[k], cv@[k], dv@[k]) {
                        (Some(ya), Some(yb), Some(yc), Some(yd)) => (#[trigger] vals@[k]) matches Some(v) && op.ensures((ya, yb, yc, yd,), v),
                        _ => vals@[k] == na_val,
                    },
            decreases n - i,
        {
            let v = match (av[i], bv[i], cv[i], dv[i]) {
                (Some(ya), Some(yb), Some(yc), Some(yd)) => {
                    proof {
                        assert(cells_of(av@)[i as int] == A::wrap(av@[i as int]));
                        assert(cells_of(bv@)[i as int] == B::wrap(bv@[i as int]));
                        assert(cells_of(cv@)[i as int] == C::wrap(cv@[i as int]));
                        assert(cells_of(dv@)[i as int] == D::wrap(dv@[i as int]));
                        assert(admits_4(op, self.col_of(a_name@).cells(), self.col_of(b_name@).cells(), self.col_of(c_name@).cells(), self.col_of(d_name@).cells(), i as int));
                    }
                    Some(op(ya, yb, yc, yd))
                },
                _ => na_val,
            };
            vals.push(v);
            i = i + 1;
        }
        let ghost vv = vals@;
        let ghost d0 = *self;
        proof {
            assert(d0.col_of(a_name@).cells().len() == n);
            assert(d0.col_of(b_name@).cells().len() == n);
            assert(d0.col_of(c_name@).cells().len() == n);
            assert(d0.col_of(d_name@).cells().len() == n);
            assert forall|k: int, xa: Option<A>, xb: Option<B>, xc: Option<C>, xd: Option<D>|
                #![trigger vv[k], A::wrap(xa), B::wrap(xb), C::wrap(xc), D::wrap(xd)]
                0 <= k < n && A::wrap(xa) == d0.col_of(a_name@).cells()[k] && B::wrap(xb) == d0.col_of(b_name@).cells()[k] && C::wrap(xc) == d0.col_of(c_name@).cells()[k] && D::wrap(xd) == d0.col_of(d_name@).cells()[k] implies match (xa, xb, xc, xd) {
                    (Some(ya), Some(yb), Some(yc), Some(yd)) => vv[k] matches Some(v) && op.ensures((ya, yb, yc, yd,), v),
                    _ => vv[k] == na_val,
                } by {
                assert(cells_of(av@)[k] == A::wrap(av@[k]));
                A::lemma_wrap(xa, av@[k]);
                assert(cells_of(bv@)[k] == B::wrap(bv@[k]));
                B::lemma_wrap(xb, bv@[k]);
                assert(cells_of(cv@)[k] == C::wrap(cv@[k]));
                C::lemma_wrap(xc, cv@[k]);
                assert(cells_of(dv@)[k] == D::wrap(dv@[k]));
                D::lemma_wrap(xd, dv@[k]);
            }
        }
        self.finish_set(qry, out_name, vals, defaults);
        assert(set_cells_ok(d0, *self, *qry, out_name@, vv));
        Ok(())
    }

    /// Create or update a column from a single value, recycled to every row (one
    /// row for a DataFrame without rows).
    pub fn inject_col_const<O: ColType>(&mut self, out_name: &str, fill_val: Option<O>)
        requires
            old(self).wf(),
            old(self).has_col(out_name@) && old(self).col_of(out_name@).kind_of() == ColKind::Factor ==> O::kind()
                == ColKind::Factor,
        ensures
            final(self).wf(),
            final(self).n_row == if old(self).n_row > 1 { old(self).n_row } else { 1 },
            final(self).col_of(out_name@).kind_of() == O::kind(),
            forall|i: int| 0 <= i < final(self).n_row ==> #[trigger] final(self).col_of(out_name@).cells()[i] == O::wrap(fill_val),
            !old(self).has_col(out_name@) ==> final(self).names() == old(self).names().push(out_name@),
            old(self).has_col(out_name@) ==> final(self).names() == old(self).names(),
    {
        let n = if self.n_row > 1 {
            self.n_row
        } else {
            1
        };
        let mut data: Vec<Option<O>> = Vec::new();
        let mut i: usize = 0;
        while i < n
            invariant
                i <= n,
                data@.len() == i,
                forall|k: int| 0 <= k < i ==> #[trigger] data@[k] == fill_val,
            decreases n - i,
        {
            data.push(O::copy_opt(&fill_val));
            i = i + 1;
        }
        let ghost d0 = *self;
        self.replace_or_add_col(out_name, data);
        proof {
            assert(max_rows(d0.n_row as nat, n as nat) == n);
            assert(grown(cells_of(data@), O::kind(), n as nat) =~= cells_of(data@));
            assert forall|k: int| 0 <= k < self.n_row implies #[trigger] self.col_of(out_name@).cells()[k] == O::wrap(
                fill_val,
            ) by {
                assert(cells_of(data@)[k] == O::wrap(data@[k]));
            }
        }
    }

    /// Create or update a column from a vector, with NA values replaced by
    /// `na_replace` when one is given.
    pub fn inject_col_vec<O: ColType + Copy>(&mut self, out_name: &str, out_col_data: Vec<Option<O>>, na_replace: Option<O>)
        requires
            old(self).wf(),
            rows_compatible(old(self).n_row as nat, out_col_data@.len()),
            old(self).has_col(out_name@) && old(self).col_of(out_name@).kind_of() == ColKind::Factor ==> O::kind()
                == ColKind::Factor,
        ensures
            final(self).wf(),
            final(self).n_row == max_rows(old(self).n_row as nat, out_col_data@.len()),
            final(self).col_of(out_name@).kind_of() == O::kind(),
            final(self).col_of(out_name@).cells() == grown(
                cells_of(
                    match na_replace {
                        Some(v) => out_col_data@.map_values(
                            |o: Option<O>|
                                Some(
                                    match o {
                                        Some(x) => x,
                                        None => v,
                                    },
                                ),
                        ),
                        None => out_col_data@,
                    },
                ),
                O::kind(),
                final(self).n_row as nat,
            ),
            !old(self).has_col(out_name@) ==> final(self).names() == old(self).names().push(out_name@),
            old(self).has_col(out_name@) ==> final(self).names() == old(self).names(),
    {
        let mut data = out_col_data;
        if let Some(v) = na_replace {
            Do::na_replace(&mut data, v);
        }
        self.replace_or_add_col(out_name, data);
    }
}

} // verus!
