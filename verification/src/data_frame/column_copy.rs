//! Adding empty columns to a DataFrame, and copying a column of one DataFrame
//! into another: whole, at chosen rows, at a slice's rows, or at the first row of
//! each group.
use vstd::prelude::*;
use crate::data_frame::column::{Column, ColKind, CellValue, kind_type_name, strings_view};
use crate::data_frame::frame::{DataFrame, DfError, grown, grown_col, max_rows, rows_compatible};
use crate::data_frame::factor::{first_index, lemma_first_index, all_distinct};
use crate::data_frame::access::DataFrameSlice;
use crate::data_frame::text::str_eq;
use crate::data_frame::query::Query;

verus! {

/// A name that does not occur is, once pushed, found at the end.
proof fn lemma_pushed_name_last(names: Seq<Seq<char>>, x: Seq<char>)
    requires
        first_index(names, x) == -1,
    ensures
        first_index(names.push(x), x) == names.len(),
{
    lemma_first_index(names, x);
    let s = names.push(x);
    lemma_first_index(s, x);
    assert(s[names.len() as int] == x);
    let f = first_index(s, x);
    if 0 <= f < names.len() {
        assert(s[f] == names[f]);
    }
}

/// Different column kinds have different type texts.
proof fn lemma_kind_type_name_injective(a: ColKind, b: ColKind)
    ensures
        kind_type_name(a) == kind_type_name(b) ==> a == b,
{
    reveal_strlit("i32");
    reveal_strlit("f64");
    reveal_strlit("bool");
    reveal_strlit("usize");
    reveal_strlit("u16");
    reveal_strlit("alloc::string::String");
    let x = kind_type_name(a);
    let y = kind_type_name(b);
    if x == y && a != b {
        assert(x.len() == y.len());
        assert(x[0] == y[0]);
        assert(x[1] == y[1]);
    }
}

/// The cells of a column at the given rows, in order.
pub open spec fn cells_at(cells: Seq<CellValue>, rows: Seq<usize>) -> Seq<CellValue> {
    Seq::new(rows.len(), |i: int| cells[rows[i] as int])
}

/// `out` is `df` with a new column named `name` of the given kind and cells,
/// recycled as `add_col` does: the new column and the existing ones grow to the
/// larger row count.
pub open spec fn column_added(out: DataFrame, df: DataFrame, name: Seq<char>, kind: ColKind, cells: Seq<CellValue>) -> bool {
    &&& out.wf()
    &&& out.n_row == max_rows(df.n_row as nat, cells.len())
    &&& out.names() == df.names().push(name)
    &&& out.columns@.len() == df.columns@.len() + 1
    &&& forall|j: int|
        0 <= j < df.columns@.len() ==> grown_col(#[trigger] df.columns@[j], out.columns@[j], out.n_row as nat)
    &&& out.col_of(name).kind_of() == kind
    &&& out.col_of(name).cells() == grown(cells, kind, out.n_row as nat)
    &&& out.status == df.status
    &&& out.row_index == df.row_index
}

/// Add to `df_dst` the column `col_name` of `df_src` at the given rows, with the
/// source column's factor labels when asked.
fn add_rows_of(df_src: &DataFrame, df_dst: &mut DataFrame, col_name: &str, rows: &Vec<usize>, with_labels: bool)
    requires
        df_src.wf(),
        df_src.has_col(col_name@),
        old(df_dst).wf(),
        !old(df_dst).has_col(col_name@),
        forall|i: int| 0 <= i < rows@.len() ==> #[trigger] rows@[i] < df_src.n_row,
        rows_compatible(old(df_dst).n_row as nat, rows@.len()),
    ensures
        column_added(
            *final(df_dst),
            *old(df_dst),
            col_name@,
            df_src.col_of(col_name@).kind_of(),
            cells_at(df_src.col_of(col_name@).cells(), rows@),
        ),
        final(df_dst).col_of(col_name@).labels_view() == (if with_labels {
            df_src.col_of(col_name@).labels_view()
        } else {
            Seq::<Seq<char>>::empty()
        }),
{
    let j = match df_src.find_col(col_name) {
        Some(j) => j,
        None => vstd::pervasive::unreached(),
    };
    proof {
        lemma_first_index(df_src.names(), col_name@);
        assert(df_src.columns@[j as int] == df_src.col_of(col_name@));
    }
    let col = df_src.columns[j].select_rows(rows);
    assert(col.cells() =~= cells_at(df_src.col_of(col_name@).cells(), rows@));
    proof {
        lemma_pushed_name_last(df_dst.names(), col_name@);
    }
    let ghost d0 = *df_dst;
    df_dst.add_column(col_name, col);
    assert(df_dst.col_pos(col_name@) == d0.columns@.len());
    if with_labels && df_src.columns[j].kind() == ColKind::Factor {
        let ghost d1 = *df_dst;
        df_dst.copy_labels(df_src, col_name);
        assert forall|jj: int| 0 <= jj < d0.columns@.len() implies grown_col(
            #[trigger] d0.columns@[jj],
            df_dst.columns@[jj],
            df_dst.n_row as nat,
        ) by {
            assert(df_dst.columns@[jj] == d1.columns@[jj]);
        }
        assert(df_dst.names() == d1.names());
    }
}

impl Column {
    /// The column kind that a type text names, as `type_text` gives it.
    pub fn kind_from_type_text(col_type: &str) -> (r: Option<ColKind>)
        ensures
            r matches Some(k) ==> kind_type_name(k) == col_type@,
            r is None ==> forall|k: ColKind| kind_type_name(k) != col_type@,
    {
        if str_eq(col_type, "i32") {
            Some(ColKind::Int)
        } else if str_eq(col_type, "f64") {
            Some(ColKind::Num)
        } else if str_eq(col_type, "bool") {
            Some(ColKind::Bool)
        } else if str_eq(col_type, "usize") {
            Some(ColKind::Size)
        } else if str_eq(col_type, "u16") {
            Some(ColKind::Factor)
        } else if str_eq(col_type, "alloc::string::String") {
            Some(ColKind::Str)
        } else {
            proof {
                assert forall|k: ColKind| kind_type_name(k) != col_type@ by {
                    match k {
                        ColKind::Int => {},
                        ColKind::Num => {},
                        ColKind::Bool => {},
                        ColKind::Size => {},
                        ColKind::Factor => {},
                        ColKind::Str => {},
                    }
                }
            }
            None
        }
    }
    /// Add an empty column of the type that `col_type` names (as `type_text`
    /// gives it) to a DataFrame without rows.
    pub fn add_empty_col(df_dst: &mut DataFrame, col_name: &str, col_type: &str) -> (r: Result<(), DfError>)
        requires
            old(df_dst).wf(),
            !old(df_dst).has_col(col_name@),
        ensures
            old(df_dst).n_row != 0 ==> r == Err::<(), DfError>(DfError::HasRows) && *final(df_dst) == *old(df_dst),
            old(df_dst).n_row == 0 && (forall|k: ColKind| kind_type_name(k) != col_type@) ==> (r matches Err(
                DfError::UnknownType(t),
            ) && t@ == col_type@ && *final(df_dst) == *old(df_dst)),
            forall|k: ColKind|
                old(df_dst).n_row == 0 && #[trigger] kind_type_name(k) == col_type@ ==> {
                    &&& r is Ok
                    &&& final(df_dst).wf()
                    &&& final(df_dst).n_row == 0
                    &&& final(df_dst).names() == old(df_dst).names().push(col_name@)
                    &&& final(df_dst).columns@.drop_last() == old(df_dst).columns@
                    &&& final(df_dst).col_of(col_name@).kind_of() == k
                    &&& final(df_dst).col_of(col_name@).cells().len() == 0
                    &&& final(df_dst).status == old(df_dst).status
                    &&& final(df_dst).row_index == old(df_dst).row_index
                },
    {
        if df_dst.n_row != 0 {
            return Err(DfError::HasRows);
        }
        let k = match Column::kind_from_type_text(col_type) {
            Some(k) => k,
            None => {
                return Err(DfError::UnknownType(col_type.to_owned()));
            },
        };
        proof {
            assert forall|k2: ColKind| kind_type_name(k2) == col_type@ implies k2 == k by {
                lemma_kind_type_name_injective(k2, k);
            }
            crate::data_frame::frame::lemma_distinct_push(df_dst.names(), col_name@);
            lemma_pushed_name_last(df_dst.names(), col_name@);
        }
        df_dst.push_column(col_name.to_owned(), Column::empty(k));
        assert(df_dst.columns@.drop_last() =~= old(df_dst).columns@);
        Ok(())
    }
    /// Add empty columns, named `col_names`, of the types of the same-named
    /// columns of `df_src`, to a DataFrame without rows.
    pub fn add_empty_cols(df_src: &DataFrame, df_dst: &mut DataFrame, col_names: Vec<String>) -> (r: Result<(), DfError>)
        requires
            df_src.wf(),
            old(df_dst).wf(),
            forall|i: int| 0 <= i < col_names@.len() ==> df_src.has_col(#[trigger] col_names@[i]@),
            all_distinct(old(df_dst).names() + strings_view(col_names@)),
        ensures
            old(df_dst).n_row != 0 && col_names@.len() > 0 ==> r == Err::<(), DfError>(DfError::HasRows)
                && *final(df_dst) == *old(df_dst),
            old(df_dst).n_row == 0 || col_names@.len() == 0 ==> {
                &&& r is Ok
                &&& final(df_dst).wf()
                &&& final(df_dst).n_row == old(df_dst).n_row
                &&& final(df_dst).names() == old(df_dst).names() + strings_view(col_names@)
                &&& final(df_dst).columns@.len() == old(df_dst).columns@.len() + col_names@.len()
                &&& final(df_dst).columns@.take(old(df_dst).columns@.len() as int) == old(df_dst).columns@
                &&& forall|i: int|
                    0 <= i < col_names@.len() ==> {
                        let c = #[trigger] final(df_dst).columns@[old(df_dst).columns@.len() + i];
                        &&& c.kind_of() == df_src.col_of(col_names@[i]@).kind_of()
                        &&& c.cells().len() == 0
                    }
                &&& final(df_dst).status == old(df_dst).status
                &&& final(df_dst).row_index == old(df_dst).row_index
            },
    {
        if df_dst.n_row != 0 && col_names.len() > 0 {
            return Err(DfError::HasRows);
        }
        let ghost n0 = old(df_dst).columns@.len();
        let mut i: usize = 0;
        while i < col_names.len()
            invariant
                df_src.wf(),
                forall|t: int| 0 <= t < col_names@.len() ==> df_src.has_col(#[trigger] col_names@[t]@),
                all_distinct(old(df_dst).names() + strings_view(col_names@)),
                col_names@.len() > 0 ==> old(df_dst).n_row == 0,
                n0 == old(df_dst).columns@.len(),
                i <= col_names@.len(),
                df_dst.wf(),
                df_dst.n_row == old(df_dst).n_row,
                df_dst.names() == old(df_dst).names() + strings_view(col_names@).take(i as int),
                df_dst.columns@.len() == n0 + i,
                df_dst.columns@.take(n0 as int) == old(df_dst).columns@,
                forall|t: int|
                    0 <= t < i ==> {
                        let c = #[trigger] df_dst.columns@[n0 + t];
                        &&& c.kind_of() == df_src.col_of(col_names@[t]@).kind_of()
                        &&& c.cells().len() == 0
                    },
                df_dst.status == old(df_dst).status,
                df_dst.row_index == old(df_dst).row_index,
            decreases col_names@.len() - i,
        {
            let j = match df_src.find_col(col_names[i].as_str()) {
                Some(j) => j,
                None => vstd::pervasive::unreached(),
            };
            proof {
                lemma_first_index(df_src.names(), col_names@[i as int]@);
                let all = old(df_dst).names() + strings_view(col_names@);
                let cur = df_dst.names();
                let x = col_names@[i as int]@;
                assert(all[cur.len() as int] == x);
                assert forall|a: int, b: int| 0 <= a < b < cur.push(x).len() implies #[trigger] cur.push(x)[a]
                    != #[trigger] cur.push(x)[b] by {
                    assert(cur.push(x)[a] == all[a]);
                    assert(cur.push(x)[b] == all[b]);
                }
                assert(cur.push(x) =~= old(df_dst).names() + strings_view(col_names@).take(i + 1));
            }
            let kind = df_src.columns[j].kind();
            let ghost d0 = *df_dst;
            let c = Column::empty(kind);
            let ghost cg = c;
            df_dst.push_column(col_names[i].clone(), c);
            proof {
                assert(df_dst.columns@.take(n0 as int) =~= d0.columns@.take(n0 as int));
                assert(df_dst.columns@[n0 + i] == cg);
                assert(kind == df_src.col_of(col_names@[i as int]@).kind_of());
            }
            i = i + 1;
        }
        assert(strings_view(col_names@).take(col_names@.len() as int) =~= strings_view(col_names@));
        Ok(())
    }

    /// Copy a column, all rows and its factor labels, from one DataFrame to
    /// another, recycled as `add_col` does.
    pub fn copy_col(df_src: &DataFrame, df_dst: &mut DataFrame, col_name: &str)
        requires
            df_src.wf(),
            df_src.has_col(col_name@),
            old(df_dst).wf(),
            !old(df_dst).has_col(col_name@),
            rows_compatible(old(df_dst).n_row as nat, df_src.n_row as nat),
        ensures
            column_added(
                *final(df_dst),
                *old(df_dst),
                col_name@,
                df_src.col_of(col_name@).kind_of(),
                df_src.col_of(col_name@).cells(),
            ),
            final(df_dst).col_of(col_name@).labels_view() == df_src.col_of(col_name@).labels_view(),
    {
        let mut rows: Vec<usize> = Vec::new();
        let mut i: usize = 0;
        while i < df_src.n_row
            invariant
                i <= df_src.n_row,
                rows@.len() == i,
                forall|t: int| 0 <= t < i ==> #[trigger] rows@[t] == t,
            decreases df_src.n_row - i,
        {
            rows.push(i);
            i = i + 1;
        }
        proof {
            lemma_first_index(df_src.names(), col_name@);
            assert(cells_at(df_src.col_of(col_name@).cells(), rows@) =~= df_src.col_of(col_name@).cells());
        }
        add_rows_of(df_src, df_dst, col_name, &rows, true);
    }

    /// Copy the given rows of a column, in the order given, and its factor labels,
    /// from one DataFrame to another, recycled as `add_col` does.
    pub fn copy_col_rows(df_src: &DataFrame, df_dst: &mut DataFrame, col_name: &str, row_i: &Vec<usize>)
        requires
            df_src.wf(),
            df_src.has_col(col_name@),
            old(df_dst).wf(),
            !old(df_dst).has_col(col_name@),
            forall|i: int| 0 <= i < row_i@.len() ==> #[trigger] row_i@[i] < df_src.n_row,
            rows_compatible(old(df_dst).n_row as nat, row_i@.len()),
        ensures
            column_added(
                *final(df_dst),
                *old(df_dst),
                col_name@,
                df_src.col_of(col_name@).kind_of(),
                cells_at(df_src.col_of(col_name@).cells(), row_i@),
            ),
            final(df_dst).col_of(col_name@).labels_view() == df_src.col_of(col_name@).labels_view(),
    {
        add_rows_of(df_src, df_dst, col_name, row_i, true);
    }

    /// Copy the rows of a slice, of one column, from the slice's DataFrame to
    /// another DataFrame, recycled as `add_col` does; a factor column comes
    /// without labels.
    pub fn copy_slice_rows(ds_src: &DataFrameSlice, df_dst: &mut DataFrame, col_name: &str)
        requires
            ds_src.data_frame.wf(),
            ds_src.start_row_i <= ds_src.end_row_i <= ds_src.data_frame.n_row,
            ds_src.data_frame.has_col(col_name@),
            old(df_dst).wf(),
            !old(df_dst).has_col(col_name@),
            rows_compatible(old(df_dst).n_row as nat, (ds_src.end_row_i - ds_src.start_row_i) as nat),
        ensures
            column_added(
                *final(df_dst),
                *old(df_dst),
                col_name@,
                ds_src.data_frame.col_of(col_name@).kind_of(),
                ds_src.data_frame.col_of(col_name@).cells().subrange(
                    ds_src.start_row_i as int,
                    ds_src.end_row_i as int,
                ),
            ),
            final(df_dst).col_of(col_name@).labels_view() == Seq::<Seq<char>>::empty(),
    {
        let df_src = ds_src.data_frame;
        let mut rows: Vec<usize> = Vec::new();
        let mut i: usize = ds_src.start_row_i;
        while i < ds_src.end_row_i
            invariant
                ds_src.start_row_i <= i <= ds_src.end_row_i,
                rows@.len() == i - ds_src.start_row_i,
                forall|t: int| 0 <= t < rows@.len() ==> #[trigger] rows@[t] == ds_src.start_row_i + t,
            decreases ds_src.end_row_i - i,
        {
            rows.push(i);
            i = i + 1;
        }
        proof {
            lemma_first_index(df_src.names(), col_name@);
            assert(cells_at(df_src.col_of(col_name@).cells(), rows@) =~= df_src.col_of(col_name@).cells().subrange(
                ds_src.start_row_i as int,
                ds_src.end_row_i as int,
            ));
        }
        add_rows_of(df_src, df_dst, col_name, &rows, false);
    }

    /// Copy a column from one DataFrame to another at the source rows of a
    /// query's row map, in its order, with its factor labels, recycled as
    /// `add_col` does.
    pub fn copy_col_map(df_src: &DataFrame, df_dst: &mut DataFrame, qry: &Query, col_name: &str)
        requires
            df_src.wf(),
            df_src.has_col(col_name@),
            old(df_dst).wf(),
            !old(df_dst).has_col(col_name@),
            forall|i: int| 0 <= i < qry.i_map@.len() ==> (#[trigger] qry.i_map@[i]).0 < df_src.n_row,
            rows_compatible(old(df_dst).n_row as nat, qry.i_map@.len()),
        ensures
            column_added(
                *final(df_dst),
                *old(df_dst),
                col_name@,
                df_src.col_of(col_name@).kind_of(),
                cells_at(df_src.col_of(col_name@).cells(), qry.i_map@.map_values(|e: (usize, usize, usize)| e.0)),
            ),
            final(df_dst).col_of(col_name@).labels_view() == df_src.col_of(col_name@).labels_view(),
    {
        let rows = qry.map_rows();
        assert(rows@ =~= qry.i_map@.map_values(|e: (usize, usize, usize)| e.0));
        add_rows_of(df_src, df_dst, col_name, &rows, true);
    }

    /// Add to a grouped DataFrame the value of a grouping column for each group,
    /// taken from the group's first source row, with its factor labels, recycled
    /// as `add_col` does.
    pub fn get_group_val_sorted(
        df_src: &DataFrame,
        df_dst: &mut DataFrame,
        col_name: &str,
        group_map: &Vec<Vec<(usize, usize, usize)>>,
    )
        requires
            df_src.wf(),
            df_src.has_col(col_name@),
            old(df_dst).wf(),
            !old(df_dst).has_col(col_name@),
            forall|g: int| 0 <= g < group_map@.len() ==> (#[trigger] group_map@[g])@.len() > 0 && group_map@[g]@[0].0
                < df_src.n_row,
            rows_compatible(old(df_dst).n_row as nat, group_map@.len()),
        ensures
            column_added(
                *final(df_dst),
                *old(df_dst),
                col_name@,
                df_src.col_of(col_name@).kind_of(),
                cells_at(
                    df_src.col_of(col_name@).cells(),
                    group_map@.map_values(|g: Vec<(usize, usize, usize)>| g@[0].0),
                ),
            ),
            final(df_dst).col_of(col_name@).labels_view() == df_src.col_of(col_name@).labels_view(),
    {
        let mut rows: Vec<usize> = Vec::new();
        let mut g: usize = 0;
        while g < group_map.len()
            invariant
                g <= group_map@.len(),
                rows@.len() == g,
                forall|h: int| 0 <= h < group_map@.len() ==> (#[trigger] group_map@[h])@.len() > 0 && group_map@[h]@[0].0
                    < df_src.n_row,
                forall|h: int| 0 <= h < g ==> #[trigger] rows@[h] == group_map@[h]@[0].0,
            decreases group_map@.len() - g,
        {
            rows.push(group_map[g][0].0);
            g = g + 1;
        }
        assert(rows@ =~= group_map@.map_values(|g: Vec<(usize, usize, usize)>| g@[0].0));
        add_rows_of(df_src, df_dst, col_name, &rows, true);
    }
}

} // verus!
