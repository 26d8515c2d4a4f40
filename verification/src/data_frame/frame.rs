//! The `DataFrame`: a columnar table of named columns of equal length, with the
//! record of its current sort, group and index state.
use vstd::prelude::*;
use crate::data_frame::column::{Column, ColKind, ColType, CellValue, strings_view, na_cell, resized};
use crate::data_frame::factor::{first_index, all_distinct, lemma_first_index, lemma_first_index_push, find_label};
use crate::data_frame::status::{QueryStatus, any_in};
use crate::data_frame::index::RowIndex;

verus! {

/// Errors reported by DataFrame operations on the data they are given.
#[derive(Debug)]
pub enum DfError {
    /// A column was read or written as a type it does not hold.
    TypeMismatch(String),
    /// A factor operation was asked of a column that is not a factor.
    NotFactor(String),
    /// A named column does not exist.
    ColumnNotFound(String),
    /// A text could not be read into a column.
    Parse(crate::data_frame::deserialize::ParseError),
    /// A query filter was set after its sort.
    FilterAfterSort,
    /// A query filter was set twice.
    FilterRepeated,
    /// A query selection was set twice.
    SelectRepeated,
    /// A query sort was set twice.
    SortRepeated,
    /// A query grouping was set twice.
    GroupRepeated,
    /// A query grouping named no columns.
    GroupWithoutColumns,
    /// The grouping columns do not start the sort columns, in order.
    GroupSortMismatch,
    /// More key columns than the eight that sorts, groups, joins and indexes support.
    TooManyKeyColumns,
    /// A string column was used where only fixed-width keys are supported.
    StringKey(String),
    /// Indexed retrieval was asked of a DataFrame without a row index.
    NotIndexed,
    /// DataFrames to be bound one under the other have different column names.
    ColumnNamesDiffer,
    /// A row count or row position would not fit in a usize.
    TooManyRows,
    /// Empty columns can be added only to a DataFrame without rows.
    HasRows,
    /// A text names no column type.
    UnknownType(String),
}

/// A cell sequence grown to `new_len` rows by repeating its single value, or NA
/// when it is empty; a sequence already that long is unchanged.
pub open spec fn grown(cells: Seq<CellValue>, kind: ColKind, new_len: nat) -> Seq<CellValue> {
    if cells.len() >= new_len {
        cells
    } else {
        cells + Seq::new(
            (new_len - cells.len()) as nat,
            |i: int| if cells.len() == 0 { na_cell(kind) } else { cells[0] },
        )
    }
}

/// Row counts that can be bound side by side: equal, or one side has at most one
/// row, which is recycled.
pub open spec fn rows_compatible(m: nat, k: nat) -> bool {
    m == k || m <= 1 || k <= 1
}

/// The larger of two row counts: the row count after binding.
pub open spec fn max_rows(m: nat, k: nat) -> nat {
    if m >= k { m } else { k }
}

/// `new` is `old` grown to `new_len` rows, with the same kind and factor metadata.
pub open spec fn grown_col(old: Column, new: Column, new_len: nat) -> bool {
    &&& new.kind_of() == old.kind_of()
    &&& new.cells() == grown(old.cells(), old.kind_of(), new_len)
    &&& new.labels_view() == old.labels_view()
    &&& new.levels_of() == old.levels_of()
    &&& new.auto_label_of() == old.auto_label_of()
}

/// The status after changing the given columns: reset when a sort column changed.
pub open spec fn status_after_change(old: QueryStatus, new: QueryStatus, changed: Seq<Seq<char>>) -> bool {
    if any_in(strings_view(old.sort_cols@), changed) {
        new.is_default()
    } else {
        new == old
    }
}

/// The index after changing the given columns: reset when a key column changed.
pub open spec fn index_after_change(old: RowIndex, new: RowIndex, changed: Seq<Seq<char>>) -> bool {
    if any_in(strings_view(old.key_cols@), changed) {
        new.is_reset()
    } else {
        new == old
    }
}

/// A column grown from at most one row keeps its factor metadata and its cells grow
/// by recycling.
proof fn lemma_resized_grown(cells: Seq<CellValue>, kind: ColKind, n_in: nat, new_len: nat)
    requires
        cells.len() == n_in,
        n_in <= 1,
        n_in <= new_len,
    ensures
        resized(cells, new_len, if n_in == 0 { na_cell(kind) } else { cells[0] }) == grown(
            cells,
            kind,
            new_len,
        ),
{
    assert(resized(cells, new_len, if n_in == 0 { na_cell(kind) } else { cells[0] }) =~= grown(
        cells,
        kind,
        new_len,
    ));
}

/// Grow every column of `cols` from `n_in` rows (at most one) to `new_len` rows.
pub(crate) fn recycle_all(cols: &mut Vec<Column>, n_in: usize, new_len: usize)
    requires
        n_in <= 1,
        n_in <= new_len,
        forall|j: int| 0 <= j < old(cols).len() ==> (#[trigger] old(cols)@[j]).cells().len() == n_in,
    ensures
        final(cols).len() == old(cols).len(),
        forall|j: int|
            0 <= j < old(cols).len() ==> grown_col(
                old(cols)@[j],
                #[trigger] final(cols)@[j],
                new_len as nat,
            ),
{
    let ghost orig = cols@;
    let mut rest: Vec<Column> = Vec::new();
    std::mem::swap(cols, &mut rest);
    let n = rest.len();
    let mut i: usize = 0;
    while i < n
        invariant
            n == orig.len(),
            n_in <= 1,
            n_in <= new_len,
            i <= n,
            rest@ == orig.subrange(i as int, n as int),
            cols.len() == i,
            forall|j: int| 0 <= j < orig.len() ==> (#[trigger] orig[j]).cells().len() == n_in,
            forall|j: int| 0 <= j < i ==> grown_col(orig[j], #[trigger] cols@[j], new_len as nat),
        decreases n - i,
    {
        assert(rest@[0] == orig[i as int]);
        let mut c = rest.remove(0);
        let ghost c0 = c;
        c.recycle(n_in, new_len);
        proof {
            lemma_resized_grown(c0.cells(), c0.kind_of(), n_in as nat, new_len as nat);
        }
        cols.push(c);
        assert(rest@ =~= orig.subrange(i + 1, n as int));
        i = i + 1;
    }
}

/// A DataFrame is a columnar table: `columns[j]` holds the rows of the column named
/// `col_names[j]`, in creation order, and every column has `n_row` rows.
pub struct DataFrame {
    pub n_row: usize,
    pub col_names: Vec<String>,
    pub columns: Vec<Column>,
    pub status: QueryStatus,
    pub row_index: RowIndex,
    pub print_max_rows: usize,
    pub print_max_col_width: usize,
}

impl DataFrame {
    /// The column names as texts, in column order.
    pub open spec fn names(self) -> Seq<Seq<char>> {
        strings_view(self.col_names@)
    }

    /// A well-formed DataFrame has one column per distinct name, each with
    /// `n_row` rows and a well-formed factor lookup.
    pub open spec fn wf(self) -> bool {
        &&& self.columns@.len() == self.col_names@.len()
        &&& all_distinct(self.names())
        &&& forall|j: int|
            0 <= j < self.columns@.len() ==> (#[trigger] self.columns@[j]).cells().len() == self.n_row
                && self.columns@[j].wf()
    }

    /// The position of the column with a name, or -1.
    pub open spec fn col_pos(self, name: Seq<char>) -> int {
        first_index(self.names(), name)
    }

    /// Whether a column has the name.
    pub open spec fn has_col(self, name: Seq<char>) -> bool {
        self.col_pos(name) >= 0
    }

    /// The column with a name.
    pub open spec fn col_of(self, name: Seq<char>) -> Column {
        self.columns@[self.col_pos(name)]
    }

    /// No rows and no columns.
    pub open spec fn is_empty_frame(self) -> bool {
        self.n_row == 0 && self.col_names@.len() == 0
    }

    /// Create a new, empty DataFrame, to which you subsequently add columns.
    pub fn new() -> (df: Self)
        ensures
            df.wf(),
            df.n_row == 0,
            df.col_names@.len() == 0,
            df.columns@.len() == 0,
            df.status.is_default(),
            df.row_index.is_reset(),
            df.print_max_rows == 20,
            df.print_max_col_width == 25,
    {
        let df = DataFrame {
            n_row: 0,
            col_names: Vec::new(),
            columns: Vec::new(),
            status: QueryStatus::new(),
            row_index: RowIndex::new(),
            print_max_rows: 20,
            print_max_col_width: 25,
        };
        assert(df.names() =~= Seq::<Seq<char>>::empty());
        df
    }

    /// The number of rows.
    pub fn n_row(&self) -> (n: usize)
        ensures
            n == self.n_row,
    {
        self.n_row
    }

    /// The number of columns.
    pub fn n_col(&self) -> (n: usize)
        ensures
            n == self.col_names@.len(),
    {
        self.col_names.len()
    }

    /// The names of the columns, in column order.
    pub fn col_names(&self) -> (r: &Vec<String>)
        ensures
            r@ == self.col_names@,
    {
        &self.col_names
    }

    /// The name and type text of each column, in column order.
    pub fn col_types(&self) -> (r: Vec<(String, String)>)
        requires
            self.wf(),
        ensures
            r@.len() == self.col_names@.len(),
            forall|j: int|
                0 <= j < r@.len() ==> (#[trigger] r@[j]).0@ == self.names()[j] && r@[j].1@
                    == crate::data_frame::column::kind_type_name(self.columns@[j].kind_of()),
    {
        let mut r: Vec<(String, String)> = Vec::new();
        let mut j: usize = 0;
        while j < self.col_names.len()
            invariant
                self.wf(),
                j <= self.col_names@.len(),
                r@.len() == j,
                forall|i: int|
                    0 <= i < j ==> (#[trigger] r@[i]).0@ == self.names()[i] && r@[i].1@
                        == crate::data_frame::column::kind_type_name(self.columns@[i].kind_of()),
            decreases self.col_names@.len() - j,
        {
            let t = self.columns[j].type_text();
            r.push((self.col_names[j].clone(), t.to_owned()));
            j = j + 1;
        }
        r
    }

    /// A DataFrame is empty when it has no rows and no columns.
    pub fn is_empty(&self) -> (r: bool)
        ensures
            r == self.is_empty_frame(),
    {
        self.n_row == 0 && self.col_names.len() == 0
    }

    /// Whether the DataFrame has at least one data row.
    pub fn has_rows(&self) -> (r: bool)
        ensures
            r == (self.n_row > 0),
    {
        self.n_row > 0
    }

    /// The row sort and group status.
    pub fn status(&self) -> (r: &QueryStatus)
        ensures
            *r == self.status,
    {
        &self.status
    }

    /// The position of the column with a name, if there is one.
    pub fn find_col(&self, col_name: &str) -> (r: Option<usize>)
        ensures
            match r {
                Some(j) => j as int == self.col_pos(col_name@) && j < self.col_names@.len()
                    && self.names()[j as int] == col_name@,
                None => self.col_pos(col_name@) == -1,
            },
    {
        proof {
            lemma_first_index(self.names(), col_name@);
        }
        let name = col_name.to_owned();
        find_label(&self.col_names, &name)
    }
}


/// Pushing a name that does not occur keeps names distinct.
pub proof fn lemma_distinct_push(names: Seq<Seq<char>>, x: Seq<char>)
    requires
        all_distinct(names),
        first_index(names, x) == -1,
    ensures
        all_distinct(names.push(x)),
{
    lemma_first_index(names, x);
    assert forall|i: int, j: int| 0 <= i < j < names.push(x).len() implies #[trigger] names.push(x)[i]
        != #[trigger] names.push(x)[j] by {
        if j == names.len() {
            assert(names[i] != x);
        } else {
            assert(names[i] != names[j]);
        }
    }
}

/// Removing a name keeps names distinct.
proof fn lemma_distinct_remove(names: Seq<Seq<char>>, k: int)
    requires
        all_distinct(names),
        0 <= k < names.len(),
    ensures
        all_distinct(names.remove(k)),
{
    let r = names.remove(k);
    assert forall|i: int, j: int| 0 <= i < j < r.len() implies #[trigger] r[i] != #[trigger] r[j] by {
        let i2 = if i < k { i } else { i + 1 };
        let j2 = if j < k { j } else { j + 1 };
        assert(r[i] == names[i2]);
        assert(r[j] == names[j2]);
    }
}

impl DataFrame {
    /// Add a new column to a DataFrame. If the existing columns or the new column
    /// have zero or one rows, they are recycled to the length of the other side
    /// using NA or their single value; otherwise the row counts must match. The new
    /// column must be named differently than every existing column.
    pub fn add_col<T: ColType>(&mut self, col_name: &str, col_data: Vec<Option<T>>)
        requires
            old(self).wf(),
            !old(self).has_col(col_name@),
            rows_compatible(old(self).n_row as nat, col_data@.len()),
        ensures
            final(self).wf(),
            final(self).n_row == max_rows(old(self).n_row as nat, col_data@.len()),
            final(self).names() == old(self).names().push(col_name@),
            final(self).columns@.len() == old(self).columns@.len() + 1,
            forall|j: int|
                0 <= j < old(self).columns@.len() ==> grown_col(
                    old(self).columns@[j],
                    #[trigger] final(self).columns@[j],
                    final(self).n_row as nat,
                ),
            final(self).columns@.last().kind_of() == T::kind(),
            final(self).columns@.last().cells() == grown(
                col_data@.map_values(|x: Option<T>| T::wrap(x)),
                T::kind(),
                final(self).n_row as nat,
            ),
            final(self).columns@.last().labels_view() == Seq::<Seq<char>>::empty(),
            final(self).columns@.last().levels_of() == Seq::<(Seq<char>, u16)>::empty(),
            !final(self).columns@.last().auto_label_of(),
            final(self).status == old(self).status,
            final(self).row_index == old(self).row_index,
            final(self).print_max_rows == old(self).print_max_rows,
            final(self).print_max_col_width == old(self).print_max_col_width,
    {
        let col = T::to_col(col_data);
        self.add_column(col_name, col);
    }

    /// Add a new column, given whole, to a DataFrame, recycling as `add_col`
    /// does: the side with zero or one rows grows to the other side's length.
    pub fn add_column(&mut self, col_name: &str, col: Column)
        requires
            old(self).wf(),
            !old(self).has_col(col_name@),
            rows_compatible(old(self).n_row as nat, col.cells().len()),
            col.wf(),
        ensures
            final(self).wf(),
            final(self).n_row == max_rows(old(self).n_row as nat, col.cells().len()),
            final(self).names() == old(self).names().push(col_name@),
            final(self).columns@.len() == old(self).columns@.len() + 1,
            forall|j: int|
                0 <= j < old(self).columns@.len() ==> grown_col(
                    old(self).columns@[j],
                    #[trigger] final(self).columns@[j],
                    final(self).n_row as nat,
                ),
            grown_col(col, final(self).columns@.last(), final(self).n_row as nat),
            final(self).status == old(self).status,
            final(self).row_index == old(self).row_index,
            final(self).print_max_rows == old(self).print_max_rows,
            final(self).print_max_col_width == old(self).print_max_col_width,
    {
        let m = self.n_row;
        let k = col.len();
        let mut col = col;
        let ghost col0 = col;
        if (m == 0 && k > 0) || (m == 1 && k > 1) {
            recycle_all(&mut self.columns, m, k);
            self.n_row = k;
            assert(grown(col0.cells(), col0.kind_of(), k as nat) =~= col0.cells());
        } else if (k == 0 && m > 0) || (k == 1 && m > 1) {
            col.recycle(k, m);
            proof {
                lemma_resized_grown(col0.cells(), col0.kind_of(), k as nat, m as nat);
            }
        } else {
            assert(grown(col0.cells(), col0.kind_of(), m as nat) =~= col0.cells());
        }
        proof {
            lemma_distinct_push(self.names(), col_name@);
            assert forall|j: int| 0 <= j < self.columns@.len() implies grown_col(
                old(self).columns@[j],
                #[trigger] self.columns@[j],
                self.n_row as nat,
            ) by {
                if !((m == 0 && k > 0) || (m == 1 && k > 1)) {
                    assert(grown(old(self).columns@[j].cells(), old(self).columns@[j].kind_of(), m as nat)
                        =~= old(self).columns@[j].cells());
                }
            }
        }
        self.columns.push(col);
        self.col_names.push(col_name.to_owned());
        proof {
            assert(self.names() =~= old(self).names().push(col_name@));
            assert forall|j: int| 0 <= j < self.columns@.len() implies (#[trigger] self.columns@[j]).cells().len()
                == self.n_row && self.columns@[j].wf() by {
                if j < old(self).columns@.len() {
                    assert(grown_col(old(self).columns@[j], self.columns@[j], self.n_row as nat));
                    assert(old(self).columns@[j].wf());
                }
            }
        }
    }

    /// Remove a column from a DataFrame by name.
    pub fn drop_col(&mut self, col_name: &str)
        requires
            old(self).wf(),
            old(self).has_col(col_name@),
        ensures
            final(self).wf(),
            final(self).n_row == old(self).n_row,
            final(self).names() == old(self).names().remove(old(self).col_pos(col_name@)),
            final(self).columns@ == old(self).columns@.remove(old(self).col_pos(col_name@)),
            status_after_change(old(self).status, final(self).status, seq![col_name@]),
            index_after_change(old(self).row_index, final(self).row_index, seq![col_name@]),
            final(self).print_max_rows == old(self).print_max_rows,
            final(self).print_max_col_width == old(self).print_max_col_width,
    {
        let j = match self.find_col(col_name) {
            Some(j) => j,
            None => vstd::pervasive::unreached(),
        };
        proof {
            lemma_first_index(self.names(), col_name@);
        }
        let mut changed: Vec<String> = Vec::new();
        changed.push(col_name.to_owned());
        assert(strings_view(changed@) =~= seq![col_name@]);
        let mut changed2: Vec<String> = Vec::new();
        changed2.push(col_name.to_owned());
        assert(strings_view(changed2@) =~= seq![col_name@]);
        self.status.reset_if_changed(changed);
        self.row_index.reset_if_changed(changed2);
        let _c = self.columns.remove(j);
        let _n = self.col_names.remove(j);
        proof {
            assert(self.names() =~= old(self).names().remove(j as int));
            lemma_distinct_remove(old(self).names(), j as int);
            assert forall|i: int| 0 <= i < self.columns@.len() implies (#[trigger] self.columns@[i]).cells().len()
                == self.n_row && self.columns@[i].wf() by {
                let i2 = if i < j { i } else { i + 1 };
                assert(self.columns@[i] == old(self).columns@[i2]);
            }
        }
    }
}


/// Borrowed text slices of a vector of strings.
pub fn str_refs(v: &Vec<String>) -> (r: Vec<&str>)
    ensures
        r@.map_values(|s: &str| s@) == strings_view(v@),
        r@.len() == v@.len(),
{
    let mut r: Vec<&str> = Vec::new();
    let mut i: usize = 0;
    while i < v.len()
        invariant
            i <= v.len(),
            r@.len() == i,
            forall|j: int| 0 <= j < i ==> (#[trigger] r@[j])@ == v@[j]@,
        decreases v.len() - i,
    {
        r.push(v[i].as_str());
        i = i + 1;
    }
    assert(r@.map_values(|s: &str| s@) =~= strings_view(v@));
    r
}

/// Some sort column of `sort` is a column of `names` that is not in `kept`.
pub open spec fn touches_dropped(sort: Seq<Seq<char>>, names: Seq<Seq<char>>, kept: Seq<Seq<char>>) -> bool {
    exists|i: int|
        0 <= i < sort.len() && first_index(names, #[trigger] sort[i]) >= 0 && first_index(kept, sort[i]) < 0
}

impl DataFrame {
    /// Like `add_col`, but replace an existing column of the same name in place,
    /// keeping the column order. A factor column that is replaced keeps its labels.
    pub fn replace_or_add_col<T: ColType>(&mut self, col_name: &str, col_data: Vec<Option<T>>)
        requires
            old(self).wf(),
            rows_compatible(old(self).n_row as nat, col_data@.len()),
            old(self).has_col(col_name@) && old(self).col_of(col_name@).kind_of() == ColKind::Factor
                ==> T::kind() == ColKind::Factor,
        ensures
            final(self).wf(),
            final(self).n_row == max_rows(old(self).n_row as nat, col_data@.len()),
            !old(self).has_col(col_name@) ==> {
                &&& final(self).names() == old(self).names().push(col_name@)
                &&& final(self).columns@.len() == old(self).columns@.len() + 1
                &&& forall|j: int|
                    0 <= j < old(self).columns@.len() ==> grown_col(
                        old(self).columns@[j],
                        #[trigger] final(self).columns@[j],
                        final(self).n_row as nat,
                    )
                &&& final(self).status == old(self).status
                &&& final(self).row_index == old(self).row_index
            },
            old(self).has_col(col_name@) ==> {
                &&& final(self).names() == old(self).names()
                &&& final(self).columns@.len() == old(self).columns@.len()
                &&& forall|j: int|
                    0 <= j < old(self).columns@.len() && j != old(self).col_pos(col_name@) ==> grown_col(
                        old(self).columns@[j],
                        #[trigger] final(self).columns@[j],
                        final(self).n_row as nat,
                    )
                &&& status_after_change(old(self).status, final(self).status, seq![col_name@])
                &&& index_after_change(old(self).row_index, final(self).row_index, seq![col_name@])
            },
            final(self).col_of(col_name@).kind_of() == T::kind(),
            final(self).col_of(col_name@).cells() == grown(
                col_data@.map_values(|x: Option<T>| T::wrap(x)),
                T::kind(),
                final(self).n_row as nat,
            ),
            final(self).col_of(col_name@).labels_view() == (if old(self).has_col(col_name@)
                && old(self).col_of(col_name@).kind_of() == ColKind::Factor {
                old(self).col_of(col_name@).labels_view()
            } else {
                Seq::<Seq<char>>::empty()
            }),
            final(self).col_of(col_name@).levels_of() == (if old(self).has_col(col_name@)
                && old(self).col_of(col_name@).kind_of() == ColKind::Factor {
                crate::data_frame::factor::levels_built(
                    old(self).col_of(col_name@).labels_view(),
                    old(self).col_of(col_name@).labels_view().len(),
                )
            } else {
                Seq::<(Seq<char>, u16)>::empty()
            }),
            !final(self).col_of(col_name@).auto_label_of(),
            final(self).print_max_rows == old(self).print_max_rows,
            final(self).print_max_col_width == old(self).print_max_col_width,
    {
        match self.find_col(col_name) {
            None => {
                self.add_col(col_name, col_data);
                proof {
                    lemma_first_index_push(old(self).names(), col_name@, col_name@);
                }
            },
            Some(j) => {
                proof {
                    lemma_first_index(self.names(), col_name@);
                }
                let m = self.n_row;
                let k = col_data.len();
                let mut changed: Vec<String> = Vec::new();
                changed.push(col_name.to_owned());
                assert(strings_view(changed@) =~= seq![col_name@]);
                let mut changed2: Vec<String> = Vec::new();
                changed2.push(col_name.to_owned());
                assert(strings_view(changed2@) =~= seq![col_name@]);
                self.status.reset_if_changed(changed);
                self.row_index.reset_if_changed(changed2);
                let ghost cols0 = self.columns@;
                let old_col = self.columns.remove(j);
                let ghost rest0 = self.columns@;
                assert(rest0 =~= cols0.remove(j as int));
                assert forall|i: int| 0 <= i < rest0.len() implies (#[trigger] rest0[i]).cells().len() == m by {
                    let i2 = if i < j { i } else { i + 1 };
                    assert(rest0[i] == cols0[i2]);
                }
                let mut col = T::to_col(col_data);
                let ghost col0 = col;
                if (m == 0 && k > 0) || (m == 1 && k > 1) {
                    recycle_all(&mut self.columns, m, k);
                    self.n_row = k;
                } else if (k == 0 && m > 0) || (k == 1 && m > 1) {
                    col.recycle(k, m);
                    proof {
                        lemma_resized_grown(col0.cells(), col0.kind_of(), k as nat, m as nat);
                    }
                } else {
                    assert(grown(col0.cells(), col0.kind_of(), m as nat) =~= col0.cells());
                }
                let ghost rest1 = self.columns@;
                assert forall|i: int| 0 <= i < rest0.len() implies grown_col(
                    rest0[i],
                    #[trigger] rest1[i],
                    self.n_row as nat,
                ) by {
                    if !((m == 0 && k > 0) || (m == 1 && k > 1)) {
                        assert(grown(rest0[i].cells(), rest0[i].kind_of(), m as nat) =~= rest0[i].cells());
                    }
                }
                if old_col.kind() == ColKind::Factor {
                    let labels = old_col.get_labels();
                    let refs = str_refs(&labels);
                    col.set_labels(refs);
                }
                self.columns.insert(j, col);
                proof {
                    assert forall|i: int| 0 <= i < self.columns@.len() implies (#[trigger] self.columns@[i]).cells().len()
                        == self.n_row && self.columns@[i].wf() by {
                        if i < j {
                            assert(self.columns@[i] == rest1[i]);
                            assert(grown_col(rest0[i], rest1[i], self.n_row as nat));
                            assert(rest0[i] == cols0[i]);
                            assert(cols0[i].wf());
                        } else if i > j {
                            assert(self.columns@[i] == rest1[i - 1]);
                            assert(grown_col(rest0[i - 1], rest1[i - 1], self.n_row as nat));
                            assert(rest0[i - 1] == cols0[i]);
                            assert(cols0[i].wf());
                        }
                    }
                    assert forall|i: int|
                        0 <= i < old(self).columns@.len() && i != j implies grown_col(
                            old(self).columns@[i],
                            #[trigger] self.columns@[i],
                            self.n_row as nat,
                        ) by {
                        if i < j {
                            assert(self.columns@[i] == rest1[i]);
                            assert(rest0[i] == cols0[i]);
                        } else {
                            assert(self.columns@[i] == rest1[i - 1]);
                            assert(rest0[i - 1] == cols0[i]);
                        }
                    }
                }
            },
        }
    }

    /// Keep only the columns named in `retain_col_names`, in that order.
    pub fn retain_cols(&mut self, retain_col_names: Vec<String>)
        requires
            old(self).wf(),
            all_distinct(strings_view(retain_col_names@)),
            forall|i: int|
                0 <= i < retain_col_names@.len() ==> old(self).has_col(#[trigger] retain_col_names@[i]@),
        ensures
            final(self).wf(),
            final(self).n_row == old(self).n_row,
            final(self).names() == strings_view(retain_col_names@),
            forall|i: int|
                0 <= i < retain_col_names@.len() ==> (#[trigger] final(self).columns@[i]).same_as(
                    old(self).col_of(retain_col_names@[i]@),
                ),
            touches_dropped(
                strings_view(old(self).status.sort_cols@),
                old(self).names(),
                strings_view(retain_col_names@),
            ) ==> final(self).status.is_default(),
            !touches_dropped(
                strings_view(old(self).status.sort_cols@),
                old(self).names(),
                strings_view(retain_col_names@),
            ) ==> final(self).status == old(self).status,
            touches_dropped(
                strings_view(old(self).row_index.key_cols@),
                old(self).names(),
                strings_view(retain_col_names@),
            ) ==> final(self).row_index.is_reset(),
            !touches_dropped(
                strings_view(old(self).row_index.key_cols@),
                old(self).names(),
                strings_view(retain_col_names@),
            ) ==> final(self).row_index == old(self).row_index,
            final(self).print_max_rows == old(self).print_max_rows,
            final(self).print_max_col_width == old(self).print_max_col_width,
    {
        let ghost kept = strings_view(retain_col_names@);
        let ghost names = self.names();
        // the names of the columns that are dropped
        let mut dropped: Vec<String> = Vec::new();
        let mut j: usize = 0;
        while j < self.col_names.len()
            invariant
                j <= self.col_names@.len(),
                names == self.names(),
                kept == strings_view(retain_col_names@),
                forall|x: Seq<char>|
                    #![trigger first_index(strings_view(dropped@), x)]
                    first_index(strings_view(dropped@), x) >= 0 <==> (first_index(
                        names.subrange(0, j as int),
                        x,
                    ) >= 0 && first_index(kept, x) < 0),
            decreases self.col_names@.len() - j,
        {
            let ghost d0 = strings_view(dropped@);
            proof {
                assert(names.subrange(0, j + 1) =~= names.subrange(0, j as int).push(names[j as int]));
            }
            if !crate::data_frame::status::contains_string(&retain_col_names, &self.col_names[j]) {
                dropped.push(self.col_names[j].clone());
                proof {
                    assert(strings_view(dropped@) =~= d0.push(names[j as int]));
                    assert forall|x: Seq<char>| first_index(strings_view(dropped@), x) >= 0 <==> (first_index(
                        names.subrange(0, j + 1),
                        x,
                    ) >= 0 && first_index(kept, x) < 0) by {
                        lemma_first_index_push(d0, names[j as int], x);
                        lemma_first_index_push(names.subrange(0, j as int), names[j as int], x);
                    }
                }
            } else {
                proof {
                    assert forall|x: Seq<char>| first_index(strings_view(dropped@), x) >= 0 <==> (first_index(
                        names.subrange(0, j + 1),
                        x,
                    ) >= 0 && first_index(kept, x) < 0) by {
                        lemma_first_index_push(names.subrange(0, j as int), names[j as int], x);
                    }
                }
            }
            j = j + 1;
        }
        proof {
            assert(names.subrange(0, names.len() as int) =~= names);
            let sv = strings_view(self.status.sort_cols@);
            let dv = strings_view(dropped@);
            if touches_dropped(sv, names, kept) {
                let i = choose|i: int|
                    0 <= i < sv.len() && first_index(names, #[trigger] sv[i]) >= 0 && first_index(kept, sv[i]) < 0;
                assert(first_index(dv, sv[i]) >= 0);
            }
            if any_in(sv, dv) {
                let i = choose|i: int| 0 <= i < sv.len() && first_index(dv, #[trigger] sv[i]) >= 0;
                assert(first_index(names, sv[i]) >= 0);
            }
            let kv = strings_view(self.row_index.key_cols@);
            if touches_dropped(kv, names, kept) {
                let i = choose|i: int|
                    0 <= i < kv.len() && first_index(names, #[trigger] kv[i]) >= 0 && first_index(kept, kv[i]) < 0;
                assert(first_index(dv, kv[i]) >= 0);
            }
            if any_in(kv, dv) {
                let i = choose|i: int| 0 <= i < kv.len() && first_index(dv, #[trigger] kv[i]) >= 0;
                assert(first_index(names, kv[i]) >= 0);
            }
        }
        let dropped2 = crate::data_frame::factor::clone_strings(&dropped);
        self.status.reset_if_changed(dropped);
        self.row_index.reset_if_changed(dropped2);
        // the retained columns, in the order given
        let mut cols: Vec<Column> = Vec::new();
        let mut i: usize = 0;
        while i < retain_col_names.len()
            invariant
                self.wf(),
                self.columns@ == old(self).columns@,
                self.col_names@ == old(self).col_names@,
                self.n_row == old(self).n_row,
                i <= retain_col_names@.len(),
                cols@.len() == i,
                forall|k: int|
                    0 <= k < retain_col_names@.len() ==> old(self).has_col(#[trigger] retain_col_names@[k]@),
                forall|k: int|
                    0 <= k < i ==> (#[trigger] cols@[k]).same_as(old(self).col_of(retain_col_names@[k]@)),
            decreases retain_col_names@.len() - i,
        {
            let p = match self.find_col(retain_col_names[i].as_str()) {
                Some(p) => p,
                None => {
                    assert(old(self).has_col(retain_col_names@[i as int]@));
                    vstd::pervasive::unreached()
                },
            };
            cols.push(self.columns[p].copy());
            i = i + 1;
        }
        proof {
            assert forall|k: int| 0 <= k < cols@.len() implies (#[trigger] cols@[k]).cells().len() == self.n_row
                && cols@[k].wf() by {
                let p = old(self).col_pos(retain_col_names@[k]@);
                assert(old(self).has_col(retain_col_names@[k]@));
                lemma_first_index(old(self).names(), retain_col_names@[k]@);
                assert(old(self).columns@[p].cells().len() == self.n_row);
                assert(old(self).columns@[p].wf());
            }
        }
        self.columns = cols;
        self.col_names = retain_col_names;
    }

    /// Establish pre-defined factor labels for a factor column.
    pub fn set_labels(&mut self, col_name: &str, labels: Vec<&str>)
        requires
            old(self).wf(),
            old(self).has_col(col_name@),
            old(self).col_of(col_name@).kind_of() == ColKind::Factor,
        ensures
            final(self).wf(),
            final(self).n_row == old(self).n_row,
            final(self).col_names@ == old(self).col_names@,
            final(self).columns@.len() == old(self).columns@.len(),
            forall|j: int|
                0 <= j < old(self).columns@.len() && j != old(self).col_pos(col_name@)
                    ==> #[trigger] final(self).columns@[j] == old(self).columns@[j],
            final(self).col_of(col_name@).kind_of() == ColKind::Factor,
            final(self).col_of(col_name@).cells() == old(self).col_of(col_name@).cells(),
            final(self).col_of(col_name@).labels_view() == labels@.map_values(|s: &str| s@),
            final(self).col_of(col_name@).levels_of() == crate::data_frame::factor::levels_built(
                labels@.map_values(|s: &str| s@),
                labels@.len(),
            ),
            !final(self).col_of(col_name@).auto_label_of(),
            final(self).status == old(self).status,
            final(self).row_index == old(self).row_index,
            final(self).print_max_rows == old(self).print_max_rows,
            final(self).print_max_col_width == old(self).print_max_col_width,
    {
        let j = match self.find_col(col_name) {
            Some(j) => j,
            None => vstd::pervasive::unreached(),
        };
        let mut col = self.columns.remove(j);
        col.set_labels(labels);
        self.columns.insert(j, col);
        proof {
            assert forall|i: int| 0 <= i < self.columns@.len() implies (#[trigger] self.columns@[i]).cells().len()
                == self.n_row && self.columns@[i].wf() by {
                assert(old(self).columns@[i].cells().len() == self.n_row);
            }
            assert(self.names() == old(self).names());
        }
    }

    /// Transfer the factor labels of a column of `df_src` to the column of the same
    /// name in this DataFrame.
    pub fn copy_labels(&mut self, df_src: &Self, col_name: &str)
        requires
            old(self).wf(),
            old(self).has_col(col_name@),
            old(self).col_of(col_name@).kind_of() == ColKind::Factor,
            df_src.wf(),
            df_src.has_col(col_name@),
            df_src.col_of(col_name@).kind_of() == ColKind::Factor,
        ensures
            final(self).wf(),
            final(self).n_row == old(self).n_row,
            final(self).col_names@ == old(self).col_names@,
            final(self).columns@.len() == old(self).columns@.len(),
            forall|j: int|
                0 <= j < old(self).columns@.len() && j != old(self).col_pos(col_name@)
                    ==> #[trigger] final(self).columns@[j] == old(self).columns@[j],
            final(self).col_of(col_name@).kind_of() == ColKind::Factor,
            final(self).col_of(col_name@).cells() == old(self).col_of(col_name@).cells(),
            final(self).col_of(col_name@).labels_view() == df_src.col_of(col_name@).labels_view(),
            final(self).col_of(col_name@).levels_of() == crate::data_frame::factor::levels_built(
                df_src.col_of(col_name@).labels_view(),
                df_src.col_of(col_name@).labels_view().len(),
            ),
            !final(self).col_of(col_name@).auto_label_of(),
            final(self).status == old(self).status,
            final(self).row_index == old(self).row_index,
            final(self).print_max_rows == old(self).print_max_rows,
            final(self).print_max_col_width == old(self).print_max_col_width,
    {
        let j = match df_src.find_col(col_name) {
            Some(j) => j,
            None => vstd::pervasive::unreached(),
        };
        let labels = df_src.columns[j].get_labels();
        let refs = str_refs(&labels);
        self.set_labels(col_name, refs);
    }

    /// The ordered factor labels of a factor column.
    pub fn get_labels(&self, col_name: &str) -> (r: Result<Vec<String>, DfError>)
        requires
            self.wf(),
            self.has_col(col_name@),
        ensures
            match r {
                Ok(v) => self.col_of(col_name@).kind_of() == ColKind::Factor && strings_view(v@)
                    == self.col_of(col_name@).labels_view(),
                Err(e) => self.col_of(col_name@).kind_of() != ColKind::Factor && (e matches DfError::NotFactor(
                    n,
                ) && n@ == col_name@),
            },
    {
        let j = match self.find_col(col_name) {
            Some(j) => j,
            None => vstd::pervasive::unreached(),
        };
        if self.columns[j].kind() == ColKind::Factor {
            Ok(self.columns[j].get_labels())
        } else {
            Err(DfError::NotFactor(col_name.to_owned()))
        }
    }
}


impl DataFrame {
    /// The label-to-level lookup of a factor column.
    pub fn get_levels(&self, col_name: &str) -> (r: Result<Vec<(String, u16)>, DfError>)
        requires
            self.wf(),
            self.has_col(col_name@),
        ensures
            match r {
                Ok(v) => self.col_of(col_name@).kind_of() == ColKind::Factor
                    && crate::data_frame::column::levels_view(v@) == self.col_of(col_name@).levels_of(),
                Err(e) => self.col_of(col_name@).kind_of() != ColKind::Factor && (e matches DfError::NotFactor(
                    n,
                ) && n@ == col_name@),
            },
    {
        let j = match self.find_col(col_name) {
            Some(j) => j,
            None => vstd::pervasive::unreached(),
        };
        if self.columns[j].kind() == ColKind::Factor {
            Ok(self.columns[j].get_levels())
        } else {
            Err(DfError::NotFactor(col_name.to_owned()))
        }
    }

    /// Reserve capacity for at least `additional` more rows in every column.
    pub fn reserve(&mut self, additional: usize)
        requires
            old(self).wf(),
        ensures
            final(self).wf(),
            final(self).n_row == old(self).n_row,
            final(self).col_names@ == old(self).col_names@,
            final(self).columns@.len() == old(self).columns@.len(),
            forall|j: int|
                0 <= j < old(self).columns@.len() ==> (#[trigger] final(self).columns@[j]).same_as(
                    old(self).columns@[j],
                ),
            final(self).status == old(self).status,
            final(self).row_index == old(self).row_index,
            final(self).print_max_rows == old(self).print_max_rows,
            final(self).print_max_col_width == old(self).print_max_col_width,
    {
        let n = self.columns.len();
        let mut j: usize = 0;
        while j < n
            invariant
                n == old(self).columns@.len(),
                j <= n,
                self.columns@.len() == n,
                self.n_row == old(self).n_row,
                self.col_names@ == old(self).col_names@,
                self.status == old(self).status,
                self.row_index == old(self).row_index,
                self.print_max_rows == old(self).print_max_rows,
                self.print_max_col_width == old(self).print_max_col_width,
                forall|i: int| 0 <= i < j ==> (#[trigger] self.columns@[i]).same_as(old(self).columns@[i]),
                forall|i: int| j <= i < n ==> #[trigger] self.columns@[i] == old(self).columns@[i],
            decreases n - j,
        {
            let mut c = self.columns.remove(j);
            c.reserve(additional);
            self.columns.insert(j, c);
            j = j + 1;
        }
        proof {
            assert forall|i: int| 0 <= i < self.columns@.len() implies (#[trigger] self.columns@[i]).cells().len()
                == self.n_row && self.columns@[i].wf() by {
                assert(old(self).columns@[i].cells().len() == self.n_row);
                assert(old(self).columns@[i].wf());
            }
        }
    }

    /// Create a new DataFrame with no rows and the same column names and types as
    /// an existing one (factor columns start without labels).
    pub fn from_schema(df_src: &DataFrame) -> (df: Self)
        requires
            df_src.wf(),
        ensures
            df.wf(),
            df.n_row == 0,
            df.names() == df_src.names(),
            forall|j: int|
                0 <= j < df.columns@.len() ==> (#[trigger] df.columns@[j]).kind_of()
                    == df_src.columns@[j].kind_of() && df.columns@[j].labels_view()
                    == Seq::<Seq<char>>::empty() && df.columns@[j].levels_of() == Seq::<
                    (Seq<char>, u16),
                >::empty() && !df.columns@[j].auto_label_of(),
            df.status.is_default(),
            df.row_index.is_reset(),
    {
        let mut df = DataFrame::new();
        let mut j: usize = 0;
        while j < df_src.col_names.len()
            invariant
                df_src.wf(),
                j <= df_src.col_names@.len(),
                df.wf(),
                df.n_row == 0,
                df.names() == df_src.names().subrange(0, j as int),
                df.columns@.len() == j,
                forall|i: int|
                    0 <= i < j ==> (#[trigger] df.columns@[i]).kind_of() == df_src.columns@[i].kind_of()
                        && df.columns@[i].labels_view() == Seq::<Seq<char>>::empty()
                        && df.columns@[i].levels_of() == Seq::<(Seq<char>, u16)>::empty()
                        && !df.columns@[i].auto_label_of(),
                df.status.is_default(),
                df.row_index.is_reset(),
            decreases df_src.col_names@.len() - j,
        {
            let c = Column::empty(df_src.columns[j].kind());
            proof {
                lemma_first_index(df.names(), df_src.names()[j as int]);
                assert(df.col_pos(df_src.names()[j as int]) == -1) by {
                    if df.col_pos(df_src.names()[j as int]) >= 0 {
                        let k = df.col_pos(df_src.names()[j as int]);
                        assert(df_src.names()[k] == df_src.names()[j as int]);
                    }
                }
                assert(df_src.names().subrange(0, j + 1) =~= df_src.names().subrange(0, j as int).push(
                    df_src.names()[j as int],
                ));
                lemma_distinct_push(df.names(), df_src.names()[j as int]);
            }
            df.push_column(df_src.col_names[j].clone(), c);
            j = j + 1;
        }
        assert(df_src.names().subrange(0, df_src.names().len() as int) =~= df_src.names());
        df
    }

    /// Append a column whose rows number `n_row`, under a name not yet used.
    pub fn push_column(&mut self, name: String, col: Column)
        requires
            old(self).wf(),
            col.cells().len() == old(self).n_row,
            col.wf(),
            all_distinct(old(self).names().push(name@)),
        ensures
            final(self).wf(),
            final(self).n_row == old(self).n_row,
            final(self).names() == old(self).names().push(name@),
            final(self).columns@ == old(self).columns@.push(col),
            final(self).status == old(self).status,
            final(self).row_index == old(self).row_index,
            final(self).print_max_rows == old(self).print_max_rows,
            final(self).print_max_col_width == old(self).print_max_col_width,
    {
        self.columns.push(col);
        self.col_names.push(name);
        proof {
            assert(self.names() =~= old(self).names().push(name@));
            assert forall|j: int| 0 <= j < self.columns@.len() implies (#[trigger] self.columns@[j]).cells().len()
                == self.n_row && self.columns@[j].wf() by {
                if j < old(self).columns@.len() {
                    assert(old(self).columns@[j].wf());
                }
            }
        }
    }

    /// Create a new DataFrame from rows of this one, taken in the order given
    /// (rows may repeat). Factor columns keep their labels.
    pub fn from_rows(&self, row_i: Vec<usize>) -> (df: Self)
        requires
            self.wf(),
            forall|i: int| 0 <= i < row_i@.len() ==> row_i@[i] < self.n_row,
        ensures
            df.wf(),
            df.n_row == (if self.col_names@.len() == 0 { 0 } else { row_i@.len() }),
            df.names() == self.names(),
            forall|j: int|
                0 <= j < df.columns@.len() ==> {
                    let c = #[trigger] df.columns@[j];
                    let s = self.columns@[j];
                    &&& c.kind_of() == s.kind_of()
                    &&& c.labels_view() == s.labels_view()
                    &&& s.kind_of() == ColKind::Factor ==> c.levels_of()
                        == crate::data_frame::factor::levels_built(s.labels_view(), s.labels_view().len())
                    &&& forall|i: int|
                        0 <= i < row_i@.len() ==> c.cells()[i] == s.cells()[row_i@[i] as int]
                },
            df.status.is_default(),
            df.row_index.is_reset(),
    {
        let mut df = DataFrame::new();
        if self.col_names.len() > 0 {
            df.n_row = row_i.len();
            assert(df.wf());
        }
        let mut j: usize = 0;
        while j < self.col_names.len()
            invariant
                self.wf(),
                forall|i: int| 0 <= i < row_i@.len() ==> row_i@[i] < self.n_row,
                j <= self.col_names@.len(),
                df.wf(),
                df.n_row == (if self.col_names@.len() == 0 { 0 } else { row_i@.len() }),
                df.names() == self.names().subrange(0, j as int),
                df.columns@.len() == j,
                forall|k: int|
                    0 <= k < j ==> {
                        let c = #[trigger] df.columns@[k];
                        let s = self.columns@[k];
                        &&& c.kind_of() == s.kind_of()
                        &&& c.labels_view() == s.labels_view()
                        &&& s.kind_of() == ColKind::Factor ==> c.levels_of()
                            == crate::data_frame::factor::levels_built(s.labels_view(), s.labels_view().len())
                        &&& forall|i: int|
                            0 <= i < row_i@.len() ==> c.cells()[i] == s.cells()[row_i@[i] as int]
                    },
                df.status.is_default(),
                df.row_index.is_reset(),
            decreases self.col_names@.len() - j,
        {
            let mut c = self.columns[j].select_rows(&row_i);
            if self.columns[j].kind() == ColKind::Factor {
                let labels = self.columns[j].get_labels();
                let refs = str_refs(&labels);
                c.set_labels(refs);
            } else {
                assert(c.labels_view() =~= self.columns@[j as int].labels_view());
            }
            proof {
                lemma_first_index(df.names(), self.names()[j as int]);
                assert(df.col_pos(self.names()[j as int]) == -1) by {
                    if df.col_pos(self.names()[j as int]) >= 0 {
                        let k = df.col_pos(self.names()[j as int]);
                        assert(self.names()[k] == self.names()[j as int]);
                    }
                }
                assert(self.names().subrange(0, j + 1) =~= self.names().subrange(0, j as int).push(
                    self.names()[j as int],
                ));
                lemma_distinct_push(df.names(), self.names()[j as int]);
            }
            df.push_column(self.col_names[j].clone(), c);
            j = j + 1;
        }
        assert(self.names().subrange(0, self.names().len() as int) =~= self.names());
        df
    }
}

} // verus!
