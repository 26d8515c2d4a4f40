//! Do queries: a caller's operation applied to each group of rows, its outputs
//! bound into one DataFrame or flattened into one vector.
use vstd::prelude::*;
use crate::data_frame::column::{CellValue, strings_view};
use crate::data_frame::frame::{DataFrame, DfError};
use crate::data_frame::query::{Query, cols_named};
use crate::data_frame::group::{
    groups_view, groups_keyed, group_query_fits, grouping_names, group_fails, group_by_groups, lemma_group_by_groups,
    fss_matches, first_rows, concat,
};
use crate::data_frame::query::selected_from;
use crate::data_frame::access::DataFrameSlice;
use crate::data_frame::bind::kinds_differ;

verus! {

/// The row counts of a sequence of DataFrames, summed.
pub open spec fn rows_total(parts: Seq<DataFrame>) -> int
    decreases parts.len(),
{
    if parts.len() == 0 {
        0
    } else {
        rows_total(parts.drop_last()) + parts.last().n_row
    }
}

/// The elements of a sequence of sequences, in order.
pub open spec fn flatten_all<T>(parts: Seq<Seq<T>>) -> Seq<T>
    decreases parts.len(),
{
    if parts.len() == 0 {
        Seq::empty()
    } else {
        flatten_all(parts.drop_last()) + parts.last()
    }
}

/// The cells of column `j` of a sequence of DataFrames, one under the other.
pub open spec fn part_cells(parts: Seq<DataFrame>, j: int) -> Seq<CellValue>
    decreases parts.len(),
{
    if parts.len() == 0 {
        Seq::empty()
    } else {
        part_cells(parts.drop_last(), j) + parts.last().columns@[j].cells()
    }
}

/// `a` is row `g` of `grp`: the same columns, each holding that row's cell.
pub open spec fn group_row(a: DataFrame, grp: DataFrame, g: int) -> bool {
    &&& a.names() == grp.names()
    &&& a.columns@.len() == grp.columns@.len()
    &&& forall|j: int| 0 <= j < a.columns@.len() ==> (#[trigger] a.columns@[j]).cells() == seq![grp.columns@[j].cells()[g]]
}

/// The bound output of a do query: one output per group, bound one under the
/// other (an empty DataFrame when there are no groups).
pub open spec fn do_df_done(
    op: impl Fn(usize, DataFrame, DataFrameSlice) -> DataFrame,
    grp: DataFrame,
    fss: DataFrame,
    gs: Seq<Seq<(usize, usize, usize)>>,
    parts: Seq<DataFrame>,
    out: DataFrame,
) -> bool {
    &&& parts.len() == gs.len()
    &&& forall|g: int| 0 <= g < gs.len() ==> #[trigger] did_group(op, g, grp, fss, gs[g], parts[g])
    &&& gs.len() == 0 ==> out.is_empty_frame()
    &&& gs.len() > 0 ==> {
        &&& out.wf()
        &&& forall|g: int| 0 <= g < gs.len() ==> (#[trigger] parts[g]).names() == parts[0].names()
        &&& out.names() == parts[0].names()
        &&& out.n_row == rows_total(parts)
        &&& forall|j: int|
            0 <= j < out.columns@.len() ==> (#[trigger] out.columns@[j]).kind_of() == parts[0].columns@[j].kind_of()
                && out.columns@[j].cells() == part_cells(parts, j)
    }
}

/// The group row and group slice handed to the operation for group `g`.
fn group_args<'a>(
    df_grp: &DataFrame,
    df_fss: &'a DataFrame,
    group_map: &Vec<Vec<(usize, usize, usize)>>,
    g: usize,
) -> (x: (DataFrame, DataFrameSlice<'a>))
    requires
        df_grp.wf(),
        df_grp.n_row == group_map@.len(),
        g < group_map@.len(),
        group_map@[g as int]@.len() > 0,
        group_map@[g as int]@[0].2 + group_map@[g as int]@.len() <= usize::MAX,
    ensures
        x.1.n_row == group_map@[g as int]@.len() && x.1.data_frame == df_fss
            && x.1.start_row_i == group_map@[g as int]@[0].2 && x.1.end_row_i == x.1.start_row_i + x.1.n_row
            && group_row(x.0, *df_grp, g as int),
{
    let mut rows: Vec<usize> = Vec::new();
    rows.push(g);
    let a = df_grp.from_rows(rows);
    let start = group_map[g][0].2;
    let n = group_map[g].len();
    let s = df_fss.slice(start, n);
    proof {
        assert(a.names().len() == a.col_names@.len());
        assert(df_grp.names().len() == df_grp.col_names@.len());
        assert(a.columns@.len() == df_grp.columns@.len());
        assert forall|j: int| 0 <= j < a.columns@.len() implies (#[trigger] a.columns@[j]).cells() == seq![
            df_grp.columns@[j].cells()[g as int],
        ] by {
            assert(a.names().len() == df_grp.names().len());
            assert(df_grp.col_names@.len() > 0);
            assert(a.n_row == 1);
            assert(a.columns@[j].cells().len() == 1);
            assert(a.columns@[j].cells()[0] == df_grp.columns@[j].cells()[rows@[0] as int]);
            assert(a.columns@[j].cells() =~= seq![df_grp.columns@[j].cells()[g as int]]);
        }
    }
    (a, s)
}

/// `part` is what the operation returned for group `g`, handed row `g` of the
/// grouping values `grp` and the slice of `fss` that holds the group's rows: it
/// starts at the group's first entry's position and has one row per entry.
pub open spec fn did_group<R>(
    op: impl Fn(usize, DataFrame, DataFrameSlice) -> R,
    g: int,
    grp: DataFrame,
    fss: DataFrame,
    group: Seq<(usize, usize, usize)>,
    part: R,
) -> bool {
    exists|a: DataFrame, s: DataFrameSlice|
        #![trigger op.ensures((g as usize, a, s), part)]
        {
            &&& op.ensures((g as usize, a, s), part)
            &&& group_row(a, grp, g)
            &&& *s.data_frame == fss
            &&& s.start_row_i == group[0].2
            &&& s.n_row == group.len()
            &&& s.end_row_i == s.start_row_i + s.n_row
        }
}

/// What the operation is handed for group `g`: row `g` of the grouping values
/// `grp`, and the slice of `fss` that starts at the group's first entry's
/// position and has one row per entry.
pub open spec fn do_args(
    g: int,
    grp: DataFrame,
    fss: DataFrame,
    group: Seq<(usize, usize, usize)>,
    a: DataFrame,
    s: DataFrameSlice,
) -> bool {
    &&& group_row(a, grp, g)
    &&& *s.data_frame == fss
    &&& s.start_row_i == group[0].2
    &&& s.n_row == group.len()
    &&& s.end_row_i == s.start_row_i + s.n_row
}

/// The operation can be called on what each group hands it.
pub open spec fn do_admits<R>(
    op: impl Fn(usize, DataFrame, DataFrameSlice) -> R,
    grp: DataFrame,
    fss: DataFrame,
    gs: Seq<Seq<(usize, usize, usize)>>,
) -> bool {
    forall|g: usize, a: DataFrame, s: DataFrameSlice|
        #![trigger op.requires((g, a, s))]
        g < gs.len() && do_args(g as int, grp, fss, gs[g as int], a, s) ==> op.requires((g, a, s))
}

/// Each group's slice fits the machine: its first position plus its length is
/// at most `usize::MAX`.
pub open spec fn groups_fit(gs: Seq<Seq<(usize, usize, usize)>>) -> bool {
    forall|h: int| 0 <= h < gs.len() ==> (#[trigger] gs[h])[0].2 + gs[h].len() <= usize::MAX
}

/// An output has the first output's column names and column kinds.
pub open spec fn part_agrees(p: DataFrame, first: DataFrame) -> bool {
    &&& p.names() == first.names()
    &&& forall|n: Seq<char>| !#[trigger] kinds_differ(first, p, n)
}

/// Why binding stops at the last of the outputs: its names differ from the
/// first's; or they agree but the rows would pass `usize::MAX`; or both hold but
/// a column's kind differs from the first's.
pub open spec fn do_df_stop(parts: Seq<DataFrame>, e: DfError) -> bool {
    let last = parts.last();
    let first = parts[0];
    ||| e is ColumnNamesDiffer && last.names() != first.names()
    ||| e is TooManyRows && last.names() == first.names() && rows_total(parts) > usize::MAX
    ||| e matches DfError::TypeMismatch(n) && last.names() == first.names() && rows_total(parts) <= usize::MAX
        && kinds_differ(first, last, n@)
}

/// A do query that fails: the outputs of the first groups, in order, of which
/// all but the last agree with the first and fit in the row count, and the last
/// stops the binding with the error.
pub open spec fn do_df_failed(
    op: impl Fn(usize, DataFrame, DataFrameSlice) -> DataFrame,
    grp: DataFrame,
    fss: DataFrame,
    gs: Seq<Seq<(usize, usize, usize)>>,
    parts: Seq<DataFrame>,
    e: DfError,
) -> bool {
    &&& 1 < parts.len() <= gs.len()
    &&& forall|h: int| 0 <= h < parts.len() ==> #[trigger] did_group(op, h, grp, fss, gs[h], parts[h])
    &&& forall|h: int| 0 < h < parts.len() - 1 ==> part_agrees(#[trigger] parts[h], parts[0])
    &&& rows_total(parts.drop_last()) <= usize::MAX
    &&& do_df_stop(parts, e)
}

/// The `i`-th entry of group `g` stands in the concatenated groups after all the
/// entries of the groups before it.
proof fn lemma_concat_at<A>(gs: Seq<Seq<A>>, g: int, i: int)
    requires
        0 <= g < gs.len(),
        0 <= i < gs[g].len(),
    ensures
        concat(gs.take(g)).len() + i < concat(gs).len(),
        concat(gs)[concat(gs.take(g)).len() + i] == gs[g][i],
    decreases gs.len(),
{
    if g == gs.len() - 1 {
        assert(gs.take(g) =~= gs.drop_last());
    } else {
        lemma_concat_at(gs.drop_last(), g, i);
        assert(gs.drop_last().take(g) =~= gs.take(g));
        assert(gs.drop_last()[g] == gs[g]);
    }
}

/// Groups whose entries number the positions of a frame in order have slices
/// that fit the machine.
proof fn lemma_groups_fit(gs: Seq<Seq<(usize, usize, usize)>>, n: int)
    requires
        forall|k: int| 0 <= k < concat(gs).len() ==> (#[trigger] concat(gs)[k]).2 == k,
        forall|g: int, i: int| 0 <= g < gs.len() && 0 <= i < gs[g].len() ==> (#[trigger] gs[g][i]).2 < n,
        forall|h: int| 0 <= h < gs.len() ==> (#[trigger] gs[h]).len() > 0,
        n <= usize::MAX,
    ensures
        groups_fit(gs),
{
    assert forall|h: int| 0 <= h < gs.len() implies (#[trigger] gs[h])[0].2 + gs[h].len() <= usize::MAX by {
        let m = gs[h].len() - 1;
        lemma_concat_at(gs, h, 0);
        lemma_concat_at(gs, h, m);
        let o: int = concat(gs.take(h)).len() as int;
        assert(concat(gs)[o + 0].2 == o + 0);
        assert(concat(gs)[o + m].2 == o + m);
        assert(gs[h][m].2 < n);
    }
}

/// Bind the operation's outputs over all groups.
fn do_df_groups(
    df_grp: &DataFrame,
    df_fss: &DataFrame,
    group_map: &Vec<Vec<(usize, usize, usize)>>,
    op: impl Fn(usize, DataFrame, DataFrameSlice) -> DataFrame,
) -> (r: Result<DataFrame, DfError>)
    requires
        df_grp.wf(),
        df_grp.n_row == group_map@.len(),
        forall|h: int| 0 <= h < group_map@.len() ==> (#[trigger] group_map@[h])@.len() > 0,
        groups_fit(groups_view(group_map@)),
        do_admits(op, *df_grp, *df_fss, groups_view(group_map@)),
        forall|g: usize, a: DataFrame, s: DataFrameSlice, out: DataFrame| #[trigger] op.ensures((g, a, s), out) ==> out.wf(),
    ensures
        r matches Ok(out) ==> exists|parts: Seq<DataFrame>|
            #![trigger do_df_done(op, *df_grp, *df_fss, groups_view(group_map@), parts, out)]
            do_df_done(op, *df_grp, *df_fss, groups_view(group_map@), parts, out),
        r matches Err(e) ==> exists|parts: Seq<DataFrame>|
            #![trigger do_df_failed(op, *df_grp, *df_fss, groups_view(group_map@), parts, e)]
            do_df_failed(op, *df_grp, *df_fss, groups_view(group_map@), parts, e),
{
    let ghost gs = groups_view(group_map@);
    if group_map.len() == 0 {
        let out = DataFrame::new();
        proof {
            let parts = Seq::<DataFrame>::empty();
            assert(do_df_done(op, *df_grp, *df_fss, gs, parts, out));
        }
        return Ok(out);
    }
    proof {
        assert(gs[0] == group_map@[0]@);
    }
    let (a0, s0) = group_args(df_grp, df_fss, group_map, 0);
    proof {
        assert(gs[0] == group_map@[0]@);
        assert(do_args(0, *df_grp, *df_fss, gs[0], a0, s0));
    }
    let first = op(0, a0, s0);
    let ghost mut parts: Seq<DataFrame> = seq![first];
    proof {
        assert(gs[0] == group_map@[0]@);
        assert(op.ensures((0usize, a0, s0), first));
        assert(did_group(op, 0, *df_grp, *df_fss, gs[0], first));
        assert(parts.drop_last() =~= Seq::<DataFrame>::empty());
        assert forall|j: int| 0 <= j < first.columns@.len() implies part_cells(parts, j) == first.columns@[j].cells() by {
            assert(part_cells(parts.drop_last(), j) == Seq::<CellValue>::empty());
            assert(part_cells(parts, j) =~= first.columns@[j].cells());
        }
        assert(rows_total(parts) == rows_total(parts.drop_last()) + first.n_row);
        assert(rows_total(parts) == first.n_row);
    }
    let mut df_do = first;
    let mut g: usize = 1;
    while g < group_map.len()
        invariant
            do_admits(op, *df_grp, *df_fss, gs),
            forall|gg: usize, a: DataFrame, s: DataFrameSlice, out: DataFrame| #[trigger] op.ensures((gg, a, s), out)
                ==> out.wf(),
            gs == groups_view(group_map@),
            forall|h: int| 0 <= h < group_map@.len() ==> (#[trigger] group_map@[h])@.len() > 0,
            df_grp.wf(),
            df_grp.n_row == group_map@.len(),
            1 <= g <= group_map@.len(),
            parts.len() == g,
            forall|h: int| 0 <= h < g ==> #[trigger] did_group(op, h, *df_grp, *df_fss, gs[h], parts[h]),
            groups_fit(gs),
            forall|h: int| 0 <= h < g ==> (#[trigger] parts[h]).names() == parts[0].names(),
            forall|h: int| 0 < h < g ==> part_agrees(#[trigger] parts[h], parts[0]),
            df_do.wf(),
            df_do.names() == parts[0].names(),
            df_do.n_row == rows_total(parts),
            parts[0].wf(),
            forall|j: int|
                0 <= j < df_do.columns@.len() ==> (#[trigger] df_do.columns@[j]).kind_of() == parts[0].columns@[j].kind_of()
                    && df_do.columns@[j].cells() == part_cells(parts, j),
        decreases group_map@.len() - g,
    {
        proof {
            assert(gs[g as int] == group_map@[g as int]@);
        }
        let (a, s) = group_args(df_grp, df_fss, group_map, g);
        proof {
            assert(gs[g as int] == group_map@[g as int]@);
            assert(do_args(g as int, *df_grp, *df_fss, gs[g as int], a, s));
        }
        let part = op(g, a, s);
        let ghost p1 = parts.push(part);
        proof {
            assert(gs[g as int] == group_map@[g as int]@);
            assert(op.ensures((g, a, s), part));
            assert(did_group(op, g as int, *df_grp, *df_fss, gs[g as int], part));
            assert(p1.drop_last() =~= parts);
            assert(rows_total(p1) == rows_total(parts) + part.n_row);
            assert(p1.last() == part);
            assert(p1[0] == parts[0]);
            assert forall|h: int| 0 <= h < p1.len() implies #[trigger] did_group(op, h, *df_grp, *df_fss, gs[h], p1[h]) by {
                if h < g {
                    assert(p1[h] == parts[h]);
                }
            }
            assert forall|h: int| 0 < h < p1.len() - 1 implies part_agrees(#[trigger] p1[h], p1[0]) by {
                assert(p1[h] == parts[h]);
            }
        }
        if !crate::data_frame::indexing::same_strings(&df_do.col_names, &part.col_names) {
            proof {
                assert(do_df_failed(op, *df_grp, *df_fss, gs, p1, DfError::ColumnNamesDiffer));
            }
            return Err(DfError::ColumnNamesDiffer);
        }
        if df_do.n_row > usize::MAX - part.n_row {
            proof {
                assert(do_df_failed(op, *df_grp, *df_fss, gs, p1, DfError::TooManyRows));
            }
            return Err(DfError::TooManyRows);
        }
        let ghost d0 = df_do;
        proof {
            assert forall|n: Seq<char>| kinds_differ(d0, part, n) <==> kinds_differ(parts[0], part, n) by {
                if kinds_differ(d0, part, n) {
                    let j = choose|j: int|
                        0 <= j < d0.columns@.len() && d0.names()[j] == n && (#[trigger] d0.columns@[j]).kind_of()
                            != part.columns@[j].kind_of();
                    assert(d0.columns@[j].kind_of() == parts[0].columns@[j].kind_of());
                    assert(kinds_differ(parts[0], part, n));
                }
                if kinds_differ(parts[0], part, n) {
                    let j = choose|j: int|
                        0 <= j < parts[0].columns@.len() && parts[0].names()[j] == n && (#[trigger] parts[0].columns@[j]).kind_of()
                            != part.columns@[j].kind_of();
                    assert(parts[0].names().len() == parts[0].col_names@.len());
                    assert(d0.names().len() == d0.col_names@.len());
                    assert(d0.columns@[j].kind_of() == parts[0].columns@[j].kind_of());
                    assert(kinds_differ(d0, part, n));
                }
            }
        }
        df_do = match df_do.rbind(part) {
            Ok(d) => d,
            Err(e) => {
                proof {
                    assert(do_df_failed(op, *df_grp, *df_fss, gs, p1, e));
                }
                return Err(e);
            },
        };
        proof {
            assert forall|j: int| 0 <= j < df_do.columns@.len() implies (#[trigger] df_do.columns@[j]).kind_of()
                == parts[0].columns@[j].kind_of() && df_do.columns@[j].cells() == part_cells(p1, j) by {
                assert(p1.drop_last() =~= parts);
                assert(df_do.columns@[j].cells() == d0.columns@[j].cells() + part.columns@[j].cells());
            }
            assert(part.names() == d0.names());
            assert forall|n: Seq<char>| !#[trigger] kinds_differ(parts[0], part, n) by {
                if kinds_differ(parts[0], part, n) {
                    assert(kinds_differ(d0, part, n));
                }
            }
            assert(part_agrees(part, parts[0]));
            assert forall|h: int| 0 < h < p1.len() implies part_agrees(#[trigger] p1[h], p1[0]) by {
                if h < g {
                    assert(p1[h] == parts[h]);
                }
            }
            assert forall|h: int| 0 <= h < p1.len() implies (#[trigger] p1[h]).names() == p1[0].names() by {
                if h < g {
                    assert(p1[h] == parts[h]);
                }
            }
            parts = p1;
        }
        g = g + 1;
    }
    assert(do_df_done(op, *df_grp, *df_fss, gs, parts, df_do));
    Ok(df_do)
}

/// Flatten the operation's outputs over all groups.
fn do_vec_groups<T>(
    df_grp: &DataFrame,
    df_fss: &DataFrame,
    group_map: &Vec<Vec<(usize, usize, usize)>>,
    op: impl Fn(usize, DataFrame, DataFrameSlice) -> Vec<T>,
) -> (out: Vec<T>)
    requires
        df_grp.wf(),
        df_grp.n_row == group_map@.len(),
        forall|h: int| 0 <= h < group_map@.len() ==> (#[trigger] group_map@[h])@.len() > 0,
        groups_fit(groups_view(group_map@)),
        do_admits(op, *df_grp, *df_fss, groups_view(group_map@)),
    ensures
        exists|parts: Seq<Vec<T>>|
            #![trigger parts.len()]
            {
                let gs = groups_view(group_map@);
                &&& parts.len() == gs.len()
                &&& forall|g: int| 0 <= g < gs.len() ==> #[trigger] did_group(op, g, *df_grp, *df_fss, gs[g], parts[g])
                &&& out@ == flatten_all(parts.map_values(|v: Vec<T>| v@))
            },
{
    let ghost gs = groups_view(group_map@);
    let mut out: Vec<T> = Vec::new();
    let ghost mut parts: Seq<Vec<T>> = Seq::empty();
    let mut g: usize = 0;
    while g < group_map.len()
        invariant
            do_admits(op, *df_grp, *df_fss, gs),
            gs == groups_view(group_map@),
            groups_fit(gs),
            forall|h: int| 0 <= h < group_map@.len() ==> (#[trigger] group_map@[h])@.len() > 0,
            df_grp.wf(),
            df_grp.n_row == group_map@.len(),
            g <= group_map@.len(),
            parts.len() == g,
            forall|h: int| 0 <= h < g ==> #[trigger] did_group(op, h, *df_grp, *df_fss, gs[h], parts[h]),
            out@ == flatten_all(parts.map_values(|v: Vec<T>| v@)),
        decreases group_map@.len() - g,
    {
        proof {
            assert(gs[g as int] == group_map@[g as int]@);
        }
        let (a, s) = group_args(df_grp, df_fss, group_map, g);
        proof {
            assert(gs[g as int] == group_map@[g as int]@);
            assert(do_args(g as int, *df_grp, *df_fss, gs[g as int], a, s));
        }
        let mut part = op(g, a, s);
        let ghost pv = part@;
        proof {
            assert(gs[g as int] == group_map@[g as int]@);
            assert(op.ensures((g, a, s), part));
            assert(did_group(op, g as int, *df_grp, *df_fss, gs[g as int], part));
        }
        let ghost parts1 = parts.push(part);
        out.append(&mut part);
        proof {
            assert(parts1.map_values(|v: Vec<T>| v@).drop_last() =~= parts.map_values(|v: Vec<T>| v@));
            assert(parts1.map_values(|v: Vec<T>| v@).last() == pv);
            parts = parts1;
        }
        g = g + 1;
    }
    out
}

impl Query {
    /// Apply `op` to each group of a group-by query (its index, its row of
    /// grouping values and a slice of its rows) and bind the DataFrames it returns
    /// one under the other; a query without groups gives an empty DataFrame. The
    /// outputs must have the same column names and types.
    pub fn execute_do_df(self, df_src: &DataFrame, op: impl Fn(usize, DataFrame, DataFrameSlice) -> DataFrame) -> (r:
        Result<DataFrame, DfError>)
        requires
            df_src.wf(),
            group_query_fits(self, *df_src),
            forall|gs: Seq<Seq<(usize, usize, usize)>>, grp: DataFrame, fss: DataFrame|
            #![trigger group_by_groups(self, *df_src, gs), selected_from(grp, *df_src, grouping_names(self), first_rows(gs)), fss_matches(fss, *df_src, strings_view(self.agg_cols@), gs)]
            group_by_groups(self, *df_src, gs) && selected_from(grp, *df_src, grouping_names(self), first_rows(gs))
                && fss_matches(fss, *df_src, strings_view(self.agg_cols@), gs) ==> do_admits(op, grp, fss, gs),
            forall|g: usize, a: DataFrame, s: DataFrameSlice, out: DataFrame| #[trigger] op.ensures((g, a, s), out)
                ==> out.wf(),
        ensures
            group_fails(self, *df_src) ==> r matches Err(DfError::StringKey(_)),
            r matches Err(e) ==> group_fails(self, *df_src) || exists|
                gs: Seq<Seq<(usize, usize, usize)>>,
                grp: DataFrame,
                fss: DataFrame,
                parts: Seq<DataFrame>,
            |
                #![trigger do_df_failed(op, grp, fss, gs, parts, e)]
                {
                    &&& group_by_groups(self, *df_src, gs)
                    &&& selected_from(grp, *df_src, grouping_names(self), first_rows(gs))
                    &&& fss_matches(fss, *df_src, strings_view(self.agg_cols@), gs)
                    &&& do_df_failed(op, grp, fss, gs, parts, e)
                },
            r matches Ok(out) ==> exists|
                gs: Seq<Seq<(usize, usize, usize)>>,
                grp: DataFrame,
                fss: DataFrame,
                parts: Seq<DataFrame>,
            |
                #![trigger do_df_done(op, grp, fss, gs, parts, out)]
                {
                    &&& group_by_groups(self, *df_src, gs)
                    &&& selected_from(grp, *df_src, grouping_names(self), first_rows(gs))
                    &&& fss_matches(fss, *df_src, strings_view(self.agg_cols@), gs)
                    &&& do_df_done(op, grp, fss, gs, parts, out)
                },
    {
        let mut q = self;
        let ghost q0 = q;
        let res = match q.execute_group_by(df_src) {
            Ok(res) => res,
            Err(e) => {
                return Err(e);
            },
        };
        let (df_grp, fss_opt, group_map) = res;
        let ghost gs = groups_view(group_map@);
        proof {
            assert forall|h: int| 0 <= h < group_map@.len() implies (#[trigger] group_map@[h])@.len() > 0 by {
                assert(gs[h] == group_map@[h]@);
            }
        }
        proof {
            lemma_group_by_groups(q0, q, *df_src, gs);
        }
        match fss_opt {
            Some(f) => {
                proof {
                    assert(fss_matches(f, *df_src, strings_view(q0.agg_cols@), gs));
                    lemma_groups_fit(gs, f.n_row as int);
                }
                let r = do_df_groups(&df_grp, &f, &group_map, op);
                proof {
                    if let Ok(out) = &r {
                        let parts = choose|parts: Seq<DataFrame>| do_df_done(op, df_grp, f, gs, parts, *out);
                        assert(do_df_done(op, df_grp, f, gs, parts, *out));
                    }
                    if let Err(e) = &r {
                        let parts = choose|parts: Seq<DataFrame>| do_df_failed(op, df_grp, f, gs, parts, *e);
                        assert(do_df_failed(op, df_grp, f, gs, parts, *e));
                    }
                }
                r
            },
            None => {
                proof {
                    assert(fss_matches(*df_src, *df_src, strings_view(q0.agg_cols@), gs));
                    lemma_groups_fit(gs, df_src.n_row as int);
                }
                let r = do_df_groups(&df_grp, df_src, &group_map, op);
                proof {
                    if let Ok(out) = &r {
                        let parts = choose|parts: Seq<DataFrame>| do_df_done(op, df_grp, *df_src, gs, parts, *out);
                        assert(do_df_done(op, df_grp, *df_src, gs, parts, *out));
                    }
                    if let Err(e) = &r {
                        let parts = choose|parts: Seq<DataFrame>| do_df_failed(op, df_grp, *df_src, gs, parts, *e);
                        assert(do_df_failed(op, df_grp, *df_src, gs, parts, *e));
                    }
                }
                r
            },
        }
    }

    /// Apply `op` to each group of a group-by query (its index, its row of
    /// grouping values and a slice of its rows) and concatenate the vectors it
    /// returns, in group order. The DataFrame is not changed.
    pub fn execute_do_vec<T>(self, df_src: &mut DataFrame, op: impl Fn(usize, DataFrame, DataFrameSlice) -> Vec<T>) -> (r:
        Result<Vec<T>, DfError>)
        requires
            old(df_src).wf(),
            group_query_fits(self, *old(df_src)),
            forall|gs: Seq<Seq<(usize, usize, usize)>>, grp: DataFrame, fss: DataFrame|
            #![trigger group_by_groups(self, *old(df_src), gs), selected_from(grp, *old(df_src), grouping_names(self), first_rows(gs)), fss_matches(fss, *old(df_src), strings_view(self.agg_cols@), gs)]
            group_by_groups(self, *old(df_src), gs) && selected_from(grp, *old(df_src), grouping_names(self), first_rows(gs))
                && fss_matches(fss, *old(df_src), strings_view(self.agg_cols@), gs) ==> do_admits(op, grp, fss, gs),
        ensures
            *final(df_src) == *old(df_src),
            r is Err <==> group_fails(self, *old(df_src)),
            r matches Err(e) ==> e matches DfError::StringKey(_),
            r matches Ok(out) ==> exists|
                gs: Seq<Seq<(usize, usize, usize)>>,
                grp: DataFrame,
                fss: DataFrame,
                parts: Seq<Vec<T>>,
            |
                #![trigger group_by_groups(self, *old(df_src), gs), selected_from(grp, *old(df_src), grouping_names(self), first_rows(gs)), fss_matches(fss, *old(df_src), strings_view(self.agg_cols@), gs), parts.len()]
                {
                    &&& group_by_groups(self, *old(df_src), gs)
                    &&& selected_from(grp, *old(df_src), grouping_names(self), first_rows(gs))
                    &&& fss_matches(fss, *old(df_src), strings_view(self.agg_cols@), gs)
                    &&& parts.len() == gs.len()
                    &&& forall|g: int| 0 <= g < gs.len() ==> #[trigger] did_group(op, g, grp, fss, gs[g], parts[g])
                    &&& out@ == flatten_all(parts.map_values(|v: Vec<T>| v@))
                },
    {
        let mut q = self;
        let ghost q0 = q;
        let res = match q.execute_group_by(df_src) {
            Ok(res) => res,
            Err(e) => {
                return Err(e);
            },
        };
        let (df_grp, fss_opt, group_map) = res;
        let ghost gs = groups_view(group_map@);
        proof {
            assert forall|h: int| 0 <= h < group_map@.len() implies (#[trigger] group_map@[h])@.len() > 0 by {
                assert(gs[h] == group_map@[h]@);
            }
            lemma_group_by_groups(q0, q, *df_src, gs);
        }
        match fss_opt {
            Some(f) => {
                proof {
                    assert(fss_matches(f, *df_src, strings_view(q0.agg_cols@), gs));
                    lemma_groups_fit(gs, f.n_row as int);
                }
                let out = do_vec_groups(&df_grp, &f, &group_map, op);
                let r: Result<Vec<T>, DfError> = Ok(out);
                proof {
                    if let Ok(out) = &r {
                        let parts = choose|parts: Seq<Vec<T>>|
                            {
                                &&& parts.len() == gs.len()
                                &&& forall|g: int| 0 <= g < gs.len() ==> #[trigger] did_group(op, g, df_grp, f, gs[g], parts[g])
                                &&& out@ == flatten_all(parts.map_values(|v: Vec<T>| v@))
                            };
                        assert(parts.len() == gs.len());
                    }
                }
                r
            },
            None => {
                proof {
                    assert(fss_matches(*df_src, *df_src, strings_view(q0.agg_cols@), gs));
                    lemma_groups_fit(gs, df_src.n_row as int);
                }
                let out = do_vec_groups(&df_grp, df_src, &group_map, op);
                let r: Result<Vec<T>, DfError> = Ok(out);
                proof {
                    if let Ok(out) = &r {
                        let parts = choose|parts: Seq<Vec<T>>|
                            {
                                &&& parts.len() == gs.len()
                                &&& forall|g: int| 0 <= g < gs.len() ==> #[trigger] did_group(op, g, df_grp, *df_src, gs[g], parts[g])
                                &&& out@ == flatten_all(parts.map_values(|v: Vec<T>| v@))
                            };
                        assert(parts.len() == gs.len());
                    }
                }
                r
            },
        }
    }
}

} // verus!
