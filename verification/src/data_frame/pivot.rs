//! Pivot queries: one column's categories become new columns, filled per group
//! with an aggregate of another column's values in that category.
use vstd::prelude::*;
use crate::data_frame::column::{Column, ColKind, ColType, CellValue, cells_of, strings_view, levels_view};
use crate::data_frame::factor::{
    first_index, level_of, find_level, first_appearance, factor_init, column_labels, enumerated_levels,
    all_distinct, lemma_first_index, lemma_first_index_push,
};
use crate::data_frame::frame::{DataFrame, DfError, grown, grown_col, max_rows};
use crate::data_frame::group::{aggregated, aggregate_groups, groups_view, op_admits};
use crate::data_frame::text::cell_label;
use crate::data_frame::query::{Query, all_cols_of, clean_names, cols_named, has_string_col, selected_from};
use crate::data_frame::status::is_prefix;
use crate::data_frame::group::{
    fss_matches, groups_keyed, grouping_names, group_query_fits, group_fails, first_rows, group_by_groups,
    lemma_group_by_groups,
};

verus! {

/// `pcol` is the factor form of the pivot column `c`: `c` itself when it is a
/// factor, else the factor of its observed categories (as `Column::factorize`
/// builds it).
pub open spec fn pivot_source(pcol: Column, c: Column) -> bool {
    if c.kind_of() == ColKind::Factor {
        pcol.same_as(c)
    } else {
        &&& pcol.kind_of() == ColKind::Factor
        &&& pcol.labels_view() == first_appearance(factor_init(c.kind_of()), column_labels(c))
        &&& pcol.levels_of() == enumerated_levels(pcol.labels_view())
        &&& pcol.cells().len() == c.cells().len()
        &&& forall|i: int|
            0 <= i < c.cells().len() ==> #[trigger] pcol.cells()[i] == CellValue::Factor(
                Some(first_index(pcol.labels_view(), cell_label(c.cells()[i])) as u16),
            )
    }
}

/// The category labels of a pivot column: its own labels when it is a factor,
/// else its observed categories in order of first appearance.
pub open spec fn pivot_labels(c: Column) -> Seq<Seq<char>> {
    if c.kind_of() == ColKind::Factor {
        c.labels_view()
    } else {
        first_appearance(factor_init(c.kind_of()), column_labels(c))
    }
}

/// `out` is `grp` with a column per category label of the pivot column `pc`
/// (in its factor form `pcol`), each holding per group the aggregate of that
/// category's fill values; the other columns are kept.
pub open spec fn pivot_filled<F: ColType, O: ColType>(
    grp: DataFrame,
    out: DataFrame,
    pcol: Column,
    pc: Column,
    fill_cells: Seq<CellValue>,
    pivot: Seq<char>,
    fill: Seq<char>,
    gs: Seq<Seq<(usize, usize, usize)>>,
    na_val: Option<O>,
    op: impl Fn(Vec<F>) -> O,
) -> bool {
    let has_fill = pivot != fill;
    &&& pivot_source(pcol, pc)
    &&& out.names() == names_with(grp.names(), pcol.labels_view())
    &&& out.wf()
    &&& out.n_row == grp.n_row
    &&& forall|j: int|
        0 <= j < pcol.labels_view().len() ==> out.has_col(#[trigger] pcol.labels_view()[j]) && pivot_column_ok(
            out.col_of(pcol.labels_view()[j]),
            pcol,
            pcol.labels_view()[j],
            fill_cells,
            has_fill,
            gs,
            na_val,
            op,
        )
    &&& forall|j: int|
        0 <= j < grp.columns@.len() && !pcol.labels_view().contains(grp.names()[j]) ==> (#[trigger] out.col_of(
            grp.names()[j],
        )).same_as(grp.col_of(grp.names()[j]))
}

/// The column names after adding, in order, a column for each label that does
/// not already name one.
pub open spec fn names_with(names: Seq<Seq<char>>, labels: Seq<Seq<char>>) -> Seq<Seq<char>>
    decreases labels.len(),
{
    if labels.len() == 0 {
        names
    } else {
        let n = names_with(names, labels.drop_last());
        if first_index(n, labels.last()) >= 0 {
            n
        } else {
            n.push(labels.last())
        }
    }
}

/// A category column named `label` would replace a factor column of `df` with
/// data of another kind.
pub open spec fn label_clash(df: DataFrame, label: Seq<char>, out_kind: ColKind) -> bool {
    df.has_col(label) && df.col_of(label).kind_of() == ColKind::Factor && out_kind != ColKind::Factor
}

/// The values that go into a category's aggregate, row by row: at the rows of
/// level `lv` the fill value (a zero value when the pivot column is its own
/// fill), elsewhere NA.
pub open spec fn pivot_masked<F: ColType>(
    m: Seq<Option<F>>,
    pcells: Seq<CellValue>,
    lv: Option<u16>,
    fill_cells: Seq<CellValue>,
    has_fill: bool,
) -> bool {
    &&& m.len() == pcells.len()
    &&& forall|i: int|
        0 <= i < pcells.len() ==> if lv is Some && #[trigger] pcells[i] == CellValue::Factor(lv) {
            if has_fill {
                F::wrap(m[i]) == fill_cells[i]
            } else {
                m[i] matches Some(z) && F::is_zero(z)
            }
        } else {
            m[i] is None
        }
}

/// `op` can be called on each group's values of each category: for any factor
/// form of the pivot column `pc` and any of its levels, the present values of
/// each group in that level's masked column.
pub open spec fn pivot_admits<F: ColType, O>(
    op: impl Fn(Vec<F>) -> O,
    pc: Column,
    fill_cells: Seq<CellValue>,
    has_fill: bool,
    gs: Seq<Seq<(usize, usize, usize)>>,
) -> bool {
    forall|pcol: Column, m: Seq<Option<F>>, lv: Option<u16>|
        #![trigger pivot_source(pcol, pc), pivot_masked(m, pcol.cells(), lv, fill_cells, has_fill)]
        pivot_source(pcol, pc) && pivot_masked(m, pcol.cells(), lv, fill_cells, has_fill) ==> op_admits(op, m, gs)
}

/// The column of category `label` holds, per group, the aggregate of the
/// category's values.
pub open spec fn pivot_column_ok<F: ColType, O: ColType>(
    out_col: Column,
    pcol: Column,
    label: Seq<char>,
    fill_cells: Seq<CellValue>,
    has_fill: bool,
    gs: Seq<Seq<(usize, usize, usize)>>,
    na_val: Option<O>,
    op: impl Fn(Vec<F>) -> O,
) -> bool {
    &&& out_col.kind_of() == O::kind()
    &&& exists|m: Seq<Option<F>>, out: Seq<Option<O>>|
        #![trigger pivot_masked(m, pcol.cells(), level_of(pcol.levels_of(), label), fill_cells, has_fill), cells_of(out)]
        {
            &&& pivot_masked(m, pcol.cells(), level_of(pcol.levels_of(), label), fill_cells, has_fill)
            &&& aggregated(m, gs, na_val, op, out)
            &&& out_col.cells() == cells_of(out)
        }
}

/// The factor form of a pivot column.
fn pivot_factor(c: &Column, name: &str, n: usize) -> (p: Column)
    requires
        c.kind_of() != ColKind::Num,
    ensures
        pivot_source(p, *c),
        p.kind_of() == ColKind::Factor,
{
    if c.kind() == ColKind::Factor {
        c.copy()
    } else {
        c.factorize(name, n)
    }
}

/// The values of one category's aggregate, row by row.
fn masked_values<F: ColType>(pdata: &Vec<Option<u16>>, lv: Option<u16>, fill: &Vec<Option<F>>, has_fill: bool) -> (m: Vec<
    Option<F>,
>)
    requires
        has_fill ==> fill@.len() == pdata@.len(),
    ensures
        pivot_masked(m@, cells_of(pdata@), lv, cells_of(fill@), has_fill),
{
    let mut m: Vec<Option<F>> = Vec::new();
    let mut i: usize = 0;
    while i < pdata.len()
        invariant
            has_fill ==> fill@.len() == pdata@.len(),
            i <= pdata@.len(),
            m@.len() == i,
            forall|k: int|
                0 <= k < i ==> if lv is Some && #[trigger] cells_of(pdata@)[k] == CellValue::Factor(lv) {
                    if has_fill {
                        F::wrap(m@[k]) == cells_of(fill@)[k]
                    } else {
                        m@[k] matches Some(z) && F::is_zero(z)
                    }
                } else {
                    m@[k] is None
                },
        decreases pdata@.len() - i,
    {
        let hit = match (lv, pdata[i]) {
            (Some(l), Some(x)) => l == x,
            _ => false,
        };
        assert(cells_of(pdata@)[i as int] == u16::wrap(pdata@[i as int]));
        if hit {
            if has_fill {
                assert(cells_of(fill@)[i as int] == F::wrap(fill@[i as int]));
                m.push(F::copy_opt(&fill[i]));
            } else {
                m.push(Some(F::zero_value()));
            }
        } else {
            m.push(None);
        }
        i = i + 1;
    }
    m
}

/// Fill a pivot table: for each category label of the pivot column (factorized
/// when it is not a factor), a column of `df_grp` with one value per group: `op`
/// of the group's fill values in that category (NA values removed; the pivot
/// column counts as its own fill), or `na_val` when there are none.
#[verifier::spinoff_prover]
pub fn pivot_fill<F: ColType, O: ColType>(
    df_grp: &mut DataFrame,
    df_fss: &DataFrame,
    group_map: &Vec<Vec<(usize, usize, usize)>>,
    pivot_col: &str,
    fill_col: &str,
    na_val: Option<O>,
    op: impl Fn(Vec<F>) -> O,
) -> (r: Result<(), DfError>)
    requires
        old(df_grp).wf(),
        df_fss.wf(),
        df_fss.has_col(pivot_col@),
        df_fss.has_col(fill_col@),
        old(df_grp).n_row == group_map@.len(),
        forall|g: int, i: int|
            0 <= g < group_map@.len() && 0 <= i < group_map@[g]@.len() ==> (#[trigger] group_map@[g]@[i]).2 < df_fss.n_row,
        pivot_admits(
            op,
            df_fss.col_of(pivot_col@),
            df_fss.col_of(fill_col@).cells(),
            pivot_col@ != fill_col@,
            groups_view(group_map@),
        ),
    ensures
        ({
            let pc = df_fss.col_of(pivot_col@);
            let has_fill = pivot_col@ != fill_col@;
            &&& pc.kind_of() == ColKind::Num ==> (r matches Err(DfError::TypeMismatch(n)) && n@ == pivot_col@)
            &&& pc.kind_of() != ColKind::Num && has_fill && df_fss.col_of(fill_col@).kind_of() != F::kind() ==> (r matches Err(
                DfError::TypeMismatch(n),
            ) && n@ == fill_col@)
            &&& pc.kind_of() != ColKind::Num && !(has_fill && df_fss.col_of(fill_col@).kind_of() != F::kind()) ==> (
            r is Err <==> exists|u: int|
                0 <= u < pivot_labels(pc).len() && #[trigger] label_clash(*old(df_grp), pivot_labels(pc)[u], O::kind()))
            &&& r matches Err(e) ==> (e matches DfError::TypeMismatch(_))
            &&& r is Err ==> *final(df_grp) == *old(df_grp)
            &&& r is Ok ==> exists|pcol: Column|
                #![trigger pivot_filled(*old(df_grp), *final(df_grp), pcol, pc, df_fss.col_of(fill_col@).cells(), pivot_col@, fill_col@, groups_view(group_map@), na_val, op)]
                pivot_filled(
                    *old(df_grp),
                    *final(df_grp),
                    pcol,
                    pc,
                    df_fss.col_of(fill_col@).cells(),
                    pivot_col@,
                    fill_col@,
                    groups_view(group_map@),
                    na_val,
                    op,
                )
        }),
{
    let pj = match df_fss.find_col(pivot_col) {
        Some(j) => j,
        None => vstd::pervasive::unreached(),
    };
    proof {
        lemma_first_index(df_fss.names(), pivot_col@);
    }
    if df_fss.columns[pj].kind() == ColKind::Num {
        return Err(DfError::TypeMismatch(pivot_col.to_owned()));
    }
    let has_fill = !crate::data_frame::text::str_eq(pivot_col, fill_col);
    let empty: Vec<Option<F>> = Vec::new();
    let fill: &Vec<Option<F>> = if has_fill {
        match df_fss.get_ref::<F>(fill_col) {
            Ok(v) => v,
            Err(_) => {
                return Err(DfError::TypeMismatch(fill_col.to_owned()));
            },
        }
    } else {
        &empty
    };
    assert(df_fss.columns@[pj as int].cells().len() == df_fss.n_row);
    proof {
        lemma_first_index(df_fss.names(), fill_col@);
        if has_fill {
            assert(df_fss.col_of(fill_col@).cells().len() == df_fss.n_row);
            assert(cells_of(fill@).len() == fill@.len());
        }
    }
    let pcol = pivot_factor(&df_fss.columns[pj], pivot_col, df_fss.n_row);
    let labels = pcol.get_labels();
    let levels = pcol.get_levels();
    let pdata = u16::data_ref(&pcol);
    // refuse a category column that would replace a factor column with other data
    assert(strings_view(labels@) == pivot_labels(df_fss.col_of(pivot_col@)));
    let mut k: usize = 0;
    while k < labels.len()
        invariant
            strings_view(labels@) == pivot_labels(df_fss.col_of(pivot_col@)),
            *df_grp == *old(df_grp),
            old(df_grp).wf(),
            df_fss.col_of(pivot_col@).kind_of() != ColKind::Num,
            has_fill == (pivot_col@ != fill_col@),
            !(has_fill && df_fss.col_of(fill_col@).kind_of() != F::kind()),
            k <= labels@.len(),
            forall|t: int|
                0 <= t < k ==> !(old(df_grp).has_col((#[trigger] labels@[t])@) && old(df_grp).col_of(labels@[t]@).kind_of()
                    == ColKind::Factor && O::kind() != ColKind::Factor),
        decreases labels@.len() - k,
    {
        match df_grp.find_col(labels[k].as_str()) {
            Some(j) => {
                proof {
                    lemma_first_index(df_grp.names(), labels@[k as int]@);
                }
                if df_grp.columns[j].kind() == ColKind::Factor && O::col_kind() != ColKind::Factor {
                    proof {
                        assert(pivot_labels(df_fss.col_of(pivot_col@))[k as int] == labels@[k as int]@);
                        assert(label_clash(*old(df_grp), pivot_labels(df_fss.col_of(pivot_col@))[k as int], O::kind()));
                    }
                    return Err(DfError::TypeMismatch(labels[k].clone()));
                }
            },
            None => {},
        }
        k = k + 1;
    }
    let ghost lv_labels = strings_view(labels@);
    let ghost d0 = *df_grp;
    let ghost fill_cells = df_fss.col_of(fill_col@).cells();
    proof {
        crate::data_frame::join_chain::lemma_names_own(d0);
    }
    assert(lv_labels.take(0) =~= Seq::<Seq<char>>::empty());
    let mut t: usize = 0;
    while t < labels.len()
        invariant
            lv_labels == strings_view(labels@),
            lv_labels == pcol.labels_view(),
            levels_view(levels@) == pcol.levels_of(),
            cells_of(pdata@) == pcol.cells(),
            pcol.cells().len() == df_fss.n_row,
            has_fill ==> cells_of(fill@) == fill_cells && fill@.len() == df_fss.n_row,
            fill_cells == df_fss.col_of(fill_col@).cells(),
            has_fill == (pivot_col@ != fill_col@),
            pivot_source(pcol, df_fss.col_of(pivot_col@)),
            pivot_admits(op, df_fss.col_of(pivot_col@), fill_cells, has_fill, groups_view(group_map@)),
            df_fss.wf(),
            forall|g: int, i: int|
                0 <= g < group_map@.len() && 0 <= i < group_map@[g]@.len() ==> (#[trigger] group_map@[g]@[i]).2 < df_fss.n_row,
            forall|u: int|
                0 <= u < labels@.len() ==> !(d0.has_col((#[trigger] labels@[u])@) && d0.col_of(labels@[u]@).kind_of()
                    == ColKind::Factor && O::kind() != ColKind::Factor),
            t <= labels@.len(),
            df_grp.wf(),
            df_grp.n_row == d0.n_row,
            d0.n_row == group_map@.len(),
            forall|u: int|
                0 <= u < labels@.len() ==> (df_grp.has_col((#[trigger] labels@[u])@) && df_grp.col_of(labels@[u]@).kind_of()
                    == ColKind::Factor ==> O::kind() == ColKind::Factor),
            forall|u: int|
                0 <= u < t ==> df_grp.has_col(#[trigger] lv_labels[u]) && pivot_column_ok(
                    df_grp.col_of(lv_labels[u]),
                    pcol,
                    lv_labels[u],
                    fill_cells,
                    has_fill,
                    groups_view(group_map@),
                    na_val,
                    op,
                ),
            forall|j: int|
                0 <= j < d0.columns@.len() && !lv_labels.contains(d0.names()[j]) ==> (#[trigger] df_grp.col_of(d0.names()[j])).same_as(
                    d0.col_of(d0.names()[j]),
                ),
            forall|j: int| 0 <= j < d0.columns@.len() ==> df_grp.has_col(#[trigger] d0.names()[j]),
            df_grp.names() == names_with(d0.names(), lv_labels.take(t as int)),
        decreases labels@.len() - t,
    {
        let lv = find_level(&levels, &labels[t]);
        let m = masked_values(pdata, lv, fill, has_fill);
        let ghost mv = m@;
        proof {
            assert(pivot_masked(mv, pcol.cells(), level_of(pcol.levels_of(), lv_labels[t as int]), fill_cells, has_fill));
            assert(op_admits(op, mv, groups_view(group_map@)));
        }
        let out = aggregate_groups(&m, group_map, O::copy_opt(&na_val), &op);
        let ghost ov = out@;
        let ghost before = *df_grp;
        proof {
            assert(lv_labels[t as int] == labels@[t as int]@);
        }
        df_grp.replace_or_add_col(labels[t].as_str(), out);
        proof {
            let lt = lv_labels[t as int];
            assert(max_rows(before.n_row as nat, ov.len()) == before.n_row);
            assert(grown(cells_of(ov), O::kind(), before.n_row as nat) =~= cells_of(ov));
            assert(df_grp.col_of(lt).cells() == cells_of(ov));
            if before.has_col(lt) {
                assert(df_grp.names() == before.names());
            } else {
                lemma_first_index_push(before.names(), lt, lt);
            }
            assert(df_grp.has_col(lt));
            assert(lv_labels.take(t + 1).drop_last() =~= lv_labels.take(t as int));
            assert(lv_labels.take(t + 1).last() == lt);
            assert(df_grp.names() == names_with(d0.names(), lv_labels.take(t + 1)));
            assert(pivot_column_ok(df_grp.col_of(lt), pcol, lt, fill_cells, has_fill, groups_view(group_map@), na_val, op));
            lemma_first_index(before.names(), lt);
            // other named columns keep their place and data
            assert forall|x: Seq<char>| before.has_col(x) && x != lt implies (#[trigger] df_grp.col_of(x)).same_as(before.col_of(x))
                && df_grp.has_col(x) by {
                lemma_first_index(before.names(), x);
                if before.has_col(lt) {
                    assert(df_grp.names() == before.names());
                } else {
                    lemma_first_index_push(before.names(), lt, x);
                }
                assert(grown_col(before.columns@[before.col_pos(x)], df_grp.columns@[before.col_pos(x)], df_grp.n_row as nat));
                assert(grown(before.col_of(x).cells(), before.col_of(x).kind_of(), df_grp.n_row as nat) =~= before.col_of(x).cells());
            }
            assert forall|u: int|
                0 <= u < t + 1 implies df_grp.has_col(#[trigger] lv_labels[u]) && pivot_column_ok(
                df_grp.col_of(lv_labels[u]),
                pcol,
                lv_labels[u],
                fill_cells,
                has_fill,
                groups_view(group_map@),
                na_val,
                op,
            ) by {
                if u < t && lv_labels[u] != lt {
                    assert(df_grp.col_of(lv_labels[u]).same_as(before.col_of(lv_labels[u])));
                }
            }
            assert forall|j: int|
                0 <= j < d0.columns@.len() && !lv_labels.contains(d0.names()[j]) implies #[trigger] df_grp.col_of(
                d0.names()[j],
            ).same_as(d0.col_of(d0.names()[j])) by {
                assert(lv_labels[t as int] == lt);
                assert(d0.names()[j] != lt);
                assert(before.has_col(d0.names()[j]));
            }
            assert forall|j: int| 0 <= j < d0.columns@.len() implies df_grp.has_col(#[trigger] d0.names()[j]) by {
                assert(before.has_col(d0.names()[j]));
                if d0.names()[j] != lt {
                    assert(df_grp.col_of(d0.names()[j]).same_as(before.col_of(d0.names()[j])));
                }
            }
            assert forall|u: int|
                0 <= u < labels@.len() implies (df_grp.has_col((#[trigger] labels@[u])@) && df_grp.col_of(labels@[u]@).kind_of()
                    == ColKind::Factor ==> O::kind() == ColKind::Factor) by {
                if labels@[u]@ != lt && before.has_col(labels@[u]@) {
                    assert(df_grp.col_of(labels@[u]@).same_as(before.col_of(labels@[u]@)));
                }
                if labels@[u]@ != lt && !before.has_col(labels@[u]@) {
                    lemma_first_index(before.names(), labels@[u]@);
                    if before.has_col(lt) {
                        assert(df_grp.names() == before.names());
                    } else {
                        lemma_first_index_push(before.names(), lt, labels@[u]@);
                    }
                }
            }
        }
        t = t + 1;
    }
    assert(lv_labels.take(labels@.len() as int) =~= lv_labels);
    assert(pivot_filled(
        *old(df_grp),
        *df_grp,
        pcol,
        df_fss.col_of(pivot_col@),
        fill_cells,
        pivot_col@,
        fill_col@,
        groups_view(group_map@),
        na_val,
        op,
    ));
    Ok(())
}

/// What a pivot query asks of its DataFrame and query: the key columns (without
/// negation marks) exist and do not repeat, the pivot and fill columns exist, and
/// the query's sort columns and filter fit the DataFrame.
pub open spec fn pivot_ready(q: Query, df: DataFrame, keys: Seq<Seq<char>>, pivot: Seq<char>, fill: Seq<char>) -> bool {
    &&& df.wf()
    &&& all_cols_of(df, clean_names(keys))
    &&& all_distinct(clean_names(keys))
    &&& df.has_col(pivot)
    &&& df.has_col(fill)
    &&& all_cols_of(df, strings_view(q.sort_cols@))
    &&& q.sort_negates@.len() == q.sort_cols@.len()
    &&& all_cols_of(df, strings_view(df.status.sort_cols@))
    &&& df.status.sort_negates@.len() == df.status.sort_cols@.len()
    &&& q.kept_rows@.len() < df.n_row ==> forall|i: int| 0 <= i < q.kept_rows@.len() ==> #[trigger] q.kept_rows@[i]
}

/// A pivot query can run when it can group by the key columns (not grouped
/// before, one to eight of them, and a sort set before starts with them), no key
/// column or sort column holds text, the pivot column is not numeric and the fill
/// column (when another) holds `F` data. It then succeeds unless a category
/// label clashes with a factor key column (`key_clash`).
pub open spec fn pivot_succeeds<F: ColType>(
    q: Query,
    df: DataFrame,
    keys: Seq<Seq<char>>,
    pivot: Seq<char>,
    fill: Seq<char>,
) -> bool {
    let clean = clean_names(keys);
    &&& !q.has_been_grouped
    &&& 0 < keys.len() <= 8
    &&& q.has_been_sorted ==> is_prefix(clean, strings_view(q.sort_cols@))
    &&& !has_string_col(df, clean)
    &&& !has_string_col(df, strings_view(q.sort_cols@))
    &&& df.col_of(pivot).kind_of() != ColKind::Num
    &&& pivot != fill ==> df.col_of(fill).kind_of() == F::kind()
}

/// A category label that is the name of a factor key column, where the category
/// columns do not hold factors: the category column would replace the key
/// column with other data.
pub open spec fn key_clash(df: DataFrame, keys: Seq<Seq<char>>, label: Seq<char>, out_kind: ColKind) -> bool {
    &&& keys.contains(label)
    &&& df.col_of(label).kind_of() == ColKind::Factor
    &&& out_kind != ColKind::Factor
}

impl Query {
    /// Execute a pivot query: group the rows by the key columns (sorting by them
    /// when the query is sorted without sort columns), then add to the grouped
    /// DataFrame one column per category of the pivot column, filled per group
    /// with `op` of the fill column's values in that category (see
    /// `pivot_fill`). The result records the query's sort and group state.
    #[verifier::spinoff_prover]
    #[verifier::rlimit(40)]
    pub fn execute_pivot<F: ColType, O: ColType>(
        self,
        df_src: &DataFrame,
        key_cols: Vec<String>,
        pivot_col: String,
        fill_col: String,
        na_val: Option<O>,
        op: impl Fn(Vec<F>) -> O,
    ) -> (r: Result<DataFrame, DfError>)
        requires
            pivot_ready(self, *df_src, strings_view(key_cols@), pivot_col@, fill_col@),
            forall|q2: Query, gs: Seq<Seq<(usize, usize, usize)>>, fss: DataFrame|
                #![trigger group_by_groups(q2, *df_src, gs), fss_matches(fss, *df_src, pivot_agg_names(pivot_col@, fill_col@), gs)]
                q2.kept_rows@ == self.kept_rows@ && grouping_names(q2) == clean_names(strings_view(key_cols@))
                    && group_by_groups(q2, *df_src, gs) && fss_matches(
                    fss,
                    *df_src,
                    pivot_agg_names(pivot_col@, fill_col@),
                    gs,
                ) ==> pivot_admits(op, fss.col_of(pivot_col@), fss.col_of(fill_col@).cells(), pivot_col@ != fill_col@, gs),
        ensures
            pivot_succeeds::<F>(self, *df_src, strings_view(key_cols@), pivot_col@, fill_col@) ==> (r is Ok || exists|
                q2: Query,
                gs: Seq<Seq<(usize, usize, usize)>>,
                fss: DataFrame,
            |
                #![trigger group_by_groups(q2, *df_src, gs), fss_matches(fss, *df_src, pivot_agg_names(pivot_col@, fill_col@), gs)]
                {
                    &&& q2.kept_rows@ == self.kept_rows@
                    &&& grouping_names(q2) == clean_names(strings_view(key_cols@))
                    &&& group_by_groups(q2, *df_src, gs)
                    &&& fss_matches(fss, *df_src, pivot_agg_names(pivot_col@, fill_col@), gs)
                    &&& exists|u: int|
                        0 <= u < pivot_labels(fss.col_of(pivot_col@)).len() && #[trigger] key_clash(
                            *df_src,
                            clean_names(strings_view(key_cols@)),
                            pivot_labels(fss.col_of(pivot_col@))[u],
                            O::kind(),
                        )
                }),
            r matches Err(e) ==> (e matches DfError::TooManyKeyColumns || e matches DfError::GroupRepeated
                || e matches DfError::GroupWithoutColumns || e matches DfError::GroupSortMismatch
                || e matches DfError::StringKey(_) || e matches DfError::TypeMismatch(_)),
            r matches Ok(out) ==> {
                &&& out.wf()
                &&& exists|gs: Seq<Seq<(usize, usize, usize)>>, fss: DataFrame, pcol: Column, q2: Query|
                    #![trigger fss_matches(fss, *df_src, pivot_agg_names(pivot_col@, fill_col@), gs), pivot_source(pcol, fss.col_of(pivot_col@)), group_by_groups(q2, *df_src, gs)]
                    {
                        &&& q2.kept_rows@ == self.kept_rows@
                        &&& grouping_names(q2) == clean_names(strings_view(key_cols@))
                        &&& group_by_groups(q2, *df_src, gs)
                        &&& groups_keyed(cols_named(*df_src, clean_names(strings_view(key_cols@))), gs)
                        &&& out.n_row == gs.len()
                        &&& out.names() == names_with(clean_names(strings_view(key_cols@)), pcol.labels_view())
                        &&& forall|j: int|
                            0 <= j < clean_names(strings_view(key_cols@)).len() && !pcol.labels_view().contains(
                                clean_names(strings_view(key_cols@))[j],
                            ) ==> (#[trigger] out.col_of(clean_names(strings_view(key_cols@))[j])).cells() == key_values(
                                *df_src,
                                clean_names(strings_view(key_cols@))[j],
                                gs,
                            )
                        &&& fss_matches(fss, *df_src, pivot_agg_names(pivot_col@, fill_col@), gs)
                        &&& pivot_source(pcol, fss.col_of(pivot_col@))
                        &&& forall|j: int|
                            0 <= j < pcol.labels_view().len() ==> out.has_col(#[trigger] pcol.labels_view()[j])
                                && pivot_column_ok(
                                out.col_of(pcol.labels_view()[j]),
                                pcol,
                                pcol.labels_view()[j],
                                fss.col_of(fill_col@).cells(),
                                pivot_col@ != fill_col@,
                                gs,
                                na_val,
                                op,
                            )
                    }
            },
    {
        let ghost keys = clean_names(strings_view(key_cols@));
        let mut q = self;
        let has_fill = pivot_col != fill_col;
        let mut agg_cols: Vec<String> = Vec::new();
        agg_cols.push(pivot_col.clone());
        if has_fill {
            agg_cols.push(fill_col.clone());
        }
        proof {
            assert(strings_view(agg_cols@) =~= pivot_agg_names(pivot_col@, fill_col@));
        }
        if q.is_sorted_query && q.sort_cols.len() == 0 {
            q.is_sorted_query = false;
            match q.set_sort_cols(df_src, crate::data_frame::factor::clone_strings(&key_cols)) {
                Ok(()) => {},
                Err(e) => {
                    return Err(e);
                },
            }
        }
        let ghost q1 = q;
        proof {
            assert(q1.sort_cols@ == self.sort_cols@ || strings_view(q1.sort_cols@) == keys);
            assert(q1.has_been_sorted == self.has_been_sorted || strings_view(q1.sort_cols@) == keys);
            assert(q1.has_been_grouped == self.has_been_grouped);
            assert(keys.subrange(0, keys.len() as int) =~= keys);
            assert(is_prefix(keys, keys));
        }
        match q.set_grouping_cols(df_src, key_cols, agg_cols) {
            Ok(()) => {},
            Err(e) => {
                return Err(e);
            },
        }
        proof {
            assert(strings_view(q.group_cols@) == keys);
            assert(grouping_names(q) == keys);
            assert(all_cols_of(*df_src, strings_view(q.agg_cols@)));
            assert(all_distinct(strings_view(q.agg_cols@)));
            assert(all_cols_of(*df_src, strings_view(q.sort_cols@)));
            assert(q.sort_negates@.len() == q.sort_cols@.len());
            assert(group_query_fits(q, *df_src));
            if pivot_succeeds::<F>(self, *df_src, strings_view(key_cols@), pivot_col@, fill_col@) {
                assert(q.sorts_match || q.sort_cols@ == q1.sort_cols@);
                assert(!has_string_col(*df_src, keys));
                assert(q.sorts_match || !has_string_col(*df_src, strings_view(q.sort_cols@)));
                assert(!group_fails(q, *df_src));
            }
        }
        let ghost qg = q;
        let res = match q.execute_group_by(df_src) {
            Ok(res) => res,
            Err(e) => {
                return Err(e);
            },
        };
        let (mut df_grp, fss_opt, group_map) = res;
        let ghost gs = groups_view(group_map@);
        let ghost grp0 = df_grp;
        proof {
            lemma_group_by_groups(qg, q, *df_src, gs);
            assert(qg.kept_rows@ == self.kept_rows@);
            assert(grouping_names(qg) == keys);
            lemma_key_values(df_grp, *df_src, keys, gs);
        }
        let ghost mut fssg: DataFrame = *df_src;
        let out = match fss_opt {
            Some(df_fss) => {
                proof {
                    fssg = df_fss;
                }
                proof {
                    lemma_pivot_fss(df_fss, *df_src, pivot_col@, fill_col@, gs);
                    assert forall|g: int, i: int|
                        0 <= g < group_map@.len() && 0 <= i < group_map@[g]@.len() implies (#[trigger] group_map@[g]@[i]).2
                            < df_fss.n_row by {
                        assert(gs[g] == group_map@[g]@);
                    }
                }
                proof {
                    if pivot_succeeds::<F>(self, *df_src, strings_view(key_cols@), pivot_col@, fill_col@) {
                        let names = pivot_agg_names(pivot_col@, fill_col@);
                        assert(names[0] == pivot_col@);
                        assert(df_fss.col_of(names[0]).kind_of() == df_src.col_of(names[0]).kind_of());
                        if pivot_col@ != fill_col@ {
                            assert(names[1] == fill_col@);
                            assert(df_fss.col_of(names[1]).kind_of() == df_src.col_of(names[1]).kind_of());
                        }
                    }
                }
                proof {
                    assert(fss_matches(df_fss, *df_src, pivot_agg_names(pivot_col@, fill_col@), gs));
                    assert(group_by_groups(qg, *df_src, gs));
                    assert(pivot_admits(op, df_fss.col_of(pivot_col@), df_fss.col_of(fill_col@).cells(), pivot_col@ != fill_col@, gs));
                }
                match pivot_fill(&mut df_grp, &df_fss, &group_map, pivot_col.as_str(), fill_col.as_str(), na_val, op) {
                    Ok(()) => {},
                    Err(e) => {
                        proof {
                            if pivot_succeeds::<F>(self, *df_src, strings_view(key_cols@), pivot_col@, fill_col@) {
                                let pls = pivot_labels(df_fss.col_of(pivot_col@));
                                let u = choose|u: int| 0 <= u < pls.len() && #[trigger] label_clash(grp0, pls[u], O::kind());
                                lemma_clash_is_key(grp0, *df_src, keys, first_rows(gs), pls[u], O::kind());
                                assert(key_clash(*df_src, keys, pls[u], O::kind()));
                                assert(group_by_groups(qg, *df_src, gs));
                                assert(fss_matches(df_fss, *df_src, pivot_agg_names(pivot_col@, fill_col@), gs));
                            }
                        }
                        return Err(e);
                    },
                }
                proof {
                    assert(fss_matches(df_fss, *df_src, pivot_agg_names(pivot_col@, fill_col@), gs));
                }
                df_grp
            },
            None => {
                proof {
                    lemma_pivot_fss(*df_src, *df_src, pivot_col@, fill_col@, gs);
                    assert forall|g: int, i: int|
                        0 <= g < group_map@.len() && 0 <= i < group_map@[g]@.len() implies (#[trigger] group_map@[g]@[i]).2
                            < df_src.n_row by {
                        assert(gs[g] == group_map@[g]@);
                    }
                }
                proof {
                    assert(fss_matches(*df_src, *df_src, pivot_agg_names(pivot_col@, fill_col@), gs));
                    assert(group_by_groups(qg, *df_src, gs));
                    assert(pivot_admits(op, df_src.col_of(pivot_col@), df_src.col_of(fill_col@).cells(), pivot_col@ != fill_col@, gs));
                }
                match pivot_fill(&mut df_grp, df_src, &group_map, pivot_col.as_str(), fill_col.as_str(), na_val, op) {
                    Ok(()) => {},
                    Err(e) => {
                        proof {
                            if pivot_succeeds::<F>(self, *df_src, strings_view(key_cols@), pivot_col@, fill_col@) {
                                let pls = pivot_labels(df_src.col_of(pivot_col@));
                                let u = choose|u: int| 0 <= u < pls.len() && #[trigger] label_clash(grp0, pls[u], O::kind());
                                lemma_clash_is_key(grp0, *df_src, keys, first_rows(gs), pls[u], O::kind());
                                assert(key_clash(*df_src, keys, pls[u], O::kind()));
                                assert(group_by_groups(qg, *df_src, gs));
                                assert(fss_matches(*df_src, *df_src, pivot_agg_names(pivot_col@, fill_col@), gs));
                            }
                        }
                        return Err(e);
                    },
                }
                df_grp
            },
        };
        let mut out = out;
        let ghost o1 = out;
        out.status.transfer_sort_group_status(&q);
        proof {
            let pc = fssg.col_of(pivot_col@);
            let fc = fssg.col_of(fill_col@).cells();
            let pcol = choose|pcol: Column| pivot_filled(grp0, o1, pcol, pc, fc, pivot_col@, fill_col@, gs, na_val, op);
            assert(pivot_filled(grp0, o1, pcol, pc, fc, pivot_col@, fill_col@, gs, na_val, op));
            assert(grp0.names() == keys);
            assert forall|j: int| 0 <= j < keys.len() && !pcol.labels_view().contains(keys[j]) implies (#[trigger] out.col_of(
                keys[j],
            )).cells() == key_values(*df_src, keys[j], gs) by {
                assert(grp0.names()[j] == keys[j]);
                assert(grp0.names().len() == grp0.col_names@.len());
                assert(j < grp0.columns@.len());
                assert(o1.col_of(grp0.names()[j]).same_as(grp0.col_of(grp0.names()[j])));
                assert(out.col_of(keys[j]) == o1.col_of(keys[j]));
            }
            assert(group_by_groups(qg, *df_src, gs));
            assert(fss_matches(fssg, *df_src, pivot_agg_names(pivot_col@, fill_col@), gs));
            assert(pivot_source(pcol, fssg.col_of(pivot_col@)));
        }
        Ok(out)
    }
}

/// A category label that clashes with a column selected from the key columns is
/// a factor key column's name.
proof fn lemma_clash_is_key(out: DataFrame, df: DataFrame, names: Seq<Seq<char>>, rows: Seq<int>, label: Seq<char>, k: ColKind)
    requires
        selected_from(out, df, names, rows),
        label_clash(out, label, k),
    ensures
        key_clash(df, names, label, k),
{
    lemma_first_index(out.names(), label);
    let p = out.col_pos(label);
    assert(out.names()[p] == label);
    assert(names[p] == label);
    assert(out.columns@[p].kind_of() == df.col_of(names[p]).kind_of());
}

/// The values of a column at the first row of each group.
pub open spec fn key_values(df: DataFrame, name: Seq<char>, gs: Seq<Seq<(usize, usize, usize)>>) -> Seq<CellValue> {
    Seq::new(gs.len(), |g: int| df.col_of(name).cells()[gs[g][0].0 as int])
}

/// A DataFrame selected at the groups' first rows holds, in each named column,
/// that column's values at the first row of each group.
proof fn lemma_key_values(grp: DataFrame, df: DataFrame, names: Seq<Seq<char>>, gs: Seq<Seq<(usize, usize, usize)>>)
    requires
        selected_from(grp, df, names, first_rows(gs)),
        all_distinct(names),
    ensures
        forall|j: int| 0 <= j < names.len() ==> (#[trigger] grp.col_of(names[j])).cells() == key_values(df, names[j], gs),
{
    assert forall|j: int| 0 <= j < names.len() implies (#[trigger] grp.col_of(names[j])).cells() == key_values(
        df,
        names[j],
        gs,
    ) by {
        crate::data_frame::group::lemma_first_index_distinct(names, j);
        assert(grp.col_of(names[j]) == grp.columns@[j]);
        assert(grp.columns@[j].cells() =~= key_values(df, names[j], gs));
    }
}

/// The columns a pivot query aggregates: the pivot column, then the fill column
/// when it is another.
pub open spec fn pivot_agg_names(pivot: Seq<char>, fill: Seq<char>) -> Seq<Seq<char>> {
    if pivot == fill {
        seq![pivot]
    } else {
        seq![pivot, fill]
    }
}

/// The DataFrame a pivot fills from has the pivot and fill columns and every
/// group entry's position.
proof fn lemma_pivot_fss(fss: DataFrame, df: DataFrame, pivot: Seq<char>, fill: Seq<char>, gs: Seq<Seq<(usize, usize, usize)>>)
    requires
        fss_matches(fss, df, pivot_agg_names(pivot, fill), gs),
    ensures
        fss.wf(),
        fss.has_col(pivot),
        fss.has_col(fill),
        forall|g: int, i: int| 0 <= g < gs.len() && 0 <= i < gs[g].len() ==> (#[trigger] gs[g][i]).2 < fss.n_row,
{
    let names = pivot_agg_names(pivot, fill);
    assert(names[0] == pivot);
    if pivot != fill {
        assert(names[1] == fill);
    }
}

} // verus!
