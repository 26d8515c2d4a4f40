//! DataFrame queries: a `Query` records the pending filter, select, sort and group
//! actions, and then executes them on a DataFrame.
use vstd::prelude::*;
use vstd::string::StrSliceExecFns;
use crate::data_frame::column::{Column, ColKind, ColType, strings_view};
use crate::data_frame::factor::{first_index, all_distinct, lemma_first_index, clone_strings};
use crate::data_frame::frame::{DataFrame, DfError};
use crate::data_frame::status::{QueryStatus, is_prefix, starts_with_strings, starts_with_bools, clone_bools};
use crate::data_frame::key::lex_le;
use crate::data_frame::rowkey::{row_key, cols_at};
use crate::data_frame::sort::{is_permutation, sort_positions, keys_view};

verus! {

/// A column name asks for a descending sort when it starts with an underscore.
pub open spec fn is_negated(s: Seq<char>) -> bool {
    s.len() > 0 && s[0] == '_'
}

/// A column name without its leading underscore, if any.
pub open spec fn without_negation(s: Seq<char>) -> Seq<char> {
    if is_negated(s) {
        s.subrange(1, s.len() as int)
    } else {
        s
    }
}

/// The sort columns of a vector of column names, descending or not.
pub open spec fn negations(names: Seq<Seq<char>>) -> Seq<bool> {
    names.map_values(|s: Seq<char>| is_negated(s))
}

/// The column names of a vector of sort column names.
pub open spec fn clean_names(names: Seq<Seq<char>>) -> Seq<Seq<char>> {
    names.map_values(|s: Seq<char>| without_negation(s))
}

/// Every name is a column of the DataFrame.
pub open spec fn all_cols_of(df: DataFrame, names: Seq<Seq<char>>) -> bool {
    forall|i: int| 0 <= i < names.len() ==> df.has_col(#[trigger] names[i])
}

/// The names of the columns of `df` that are not in `dropped`, in column order.
pub open spec fn kept_names(names: Seq<Seq<char>>, dropped: Seq<Seq<char>>) -> Seq<Seq<char>>
    decreases names.len(),
{
    if names.len() == 0 {
        Seq::empty()
    } else if first_index(dropped, names.last()) >= 0 {
        kept_names(names.drop_last(), dropped)
    } else {
        kept_names(names.drop_last(), dropped).push(names.last())
    }
}

/// Query is a metadata record of the pending query actions to be applied to a
/// DataFrame, and the row map of their execution: `i_map[r] == (src_i, flt_i,
/// fss_i)` gives, for output row `r`, its row in the source DataFrame, in the
/// filtered rows and in the filtered and sorted rows.
pub struct Query {
    // row filtering
    pub kept_rows: Vec<bool>,
    pub has_been_filtered: bool,
    pub needs_filtering: bool,
    // column selection
    pub select_cols: Vec<String>,
    pub has_been_selected: bool,
    pub needs_selecting: bool,
    // row sorting
    pub sort_cols: Vec<String>,
    pub sort_negates: Vec<bool>,
    pub is_sorted_query: bool,
    pub has_been_sorted: bool,
    pub sorts_match: bool,
    pub needs_sorting: bool,
    // row grouping
    pub group_cols: Vec<String>,
    pub has_been_grouped: bool,
    // row aggregation
    pub agg_cols: Vec<String>,
    pub has_agg_cols: bool,
    // execution state
    pub rows_are_changing: bool,
    pub i_map: Vec<(usize, usize, usize)>,
    pub row_keys: Vec<Vec<u8>>,
    pub row_key_cols: Vec<String>,
}

impl Query {
    /// The query has no pending actions.
    pub open spec fn is_fresh(self) -> bool {
        &&& self.kept_rows@.len() == 0
        &&& !self.has_been_filtered
        &&& !self.needs_filtering
        &&& self.select_cols@.len() == 0
        &&& !self.has_been_selected
        &&& !self.needs_selecting
        &&& self.sort_cols@.len() == 0
        &&& self.sort_negates@.len() == 0
        &&& !self.is_sorted_query
        &&& !self.has_been_sorted
        &&& !self.sorts_match
        &&& !self.needs_sorting
        &&& self.group_cols@.len() == 0
        &&& !self.has_been_grouped
        &&& self.agg_cols@.len() == 0
        &&& !self.has_agg_cols
        &&& !self.rows_are_changing
        &&& self.i_map@.len() == 0
        &&& self.row_keys@.len() == 0
        &&& self.row_key_cols@.len() == 0
    }

    /// The filter state of two queries is the same.
    pub open spec fn same_filter(self, other: Query) -> bool {
        &&& self.kept_rows@ == other.kept_rows@
        &&& self.has_been_filtered == other.has_been_filtered
    }

    /// The selection state of two queries is the same.
    pub open spec fn same_select(self, other: Query) -> bool {
        &&& self.select_cols@ == other.select_cols@
        &&& self.has_been_selected == other.has_been_selected
    }

    /// The sort state of two queries is the same.
    pub open spec fn same_sort(self, other: Query) -> bool {
        &&& self.sort_cols@ == other.sort_cols@
        &&& self.sort_negates@ == other.sort_negates@
        &&& self.is_sorted_query == other.is_sorted_query
        &&& self.has_been_sorted == other.has_been_sorted
        &&& self.sorts_match == other.sorts_match
    }

    /// Two queries differ at most in their kept rows.
    pub open spec fn same_but_kept_rows(self, other: Query) -> bool {
        &&& self.has_been_filtered == other.has_been_filtered
        &&& self.needs_filtering == other.needs_filtering
        &&& self.same_select(other)
        &&& self.needs_selecting == other.needs_selecting
        &&& self.same_sort(other)
        &&& self.needs_sorting == other.needs_sorting
        &&& self.same_group(other)
        &&& self.rows_are_changing == other.rows_are_changing
        &&& self.i_map@ == other.i_map@
        &&& self.row_keys@ == other.row_keys@
        &&& self.row_key_cols@ == other.row_key_cols@
    }

    /// The group state of two queries is the same.
    pub open spec fn same_group(self, other: Query) -> bool {
        &&& self.group_cols@ == other.group_cols@
        &&& self.has_been_grouped == other.has_been_grouped
        &&& self.agg_cols@ == other.agg_cols@
        &&& self.has_agg_cols == other.has_agg_cols
    }

    /// Create a new Query with no pending actions.
    pub fn new() -> (q: Self)
        ensures
            q.is_fresh(),
    {
        Query {
            kept_rows: Vec::new(),
            has_been_filtered: false,
            needs_filtering: false,
            select_cols: Vec::new(),
            has_been_selected: false,
            needs_selecting: false,
            sort_cols: Vec::new(),
            sort_negates: Vec::new(),
            is_sorted_query: false,
            has_been_sorted: false,
            sorts_match: false,
            needs_sorting: false,
            group_cols: Vec::new(),
            has_been_grouped: false,
            agg_cols: Vec::new(),
            has_agg_cols: false,
            rows_are_changing: false,
            i_map: Vec::new(),
            row_keys: Vec::new(),
            row_key_cols: Vec::new(),
        }
    }

    /// Start the query's filter: every one of the `n_row` rows is kept until a
    /// filter condition drops it. A filter must come before the sort, and only once.
    pub fn check_filter_status(&mut self, n_row: usize) -> (r: Result<(), DfError>)
        ensures
            old(self).is_sorted_query ==> r == Err::<(), DfError>(DfError::FilterAfterSort)
                && *final(self) == *old(self),
            !old(self).is_sorted_query && old(self).has_been_filtered ==> r == Err::<(), DfError>(
                DfError::FilterRepeated,
            ) && *final(self) == *old(self),
            !old(self).is_sorted_query && !old(self).has_been_filtered ==> {
                &&& r is Ok
                &&& final(self).kept_rows@ == Seq::new(n_row as nat, |i: int| true)
                &&& final(self).has_been_filtered
                &&& final(self).same_select(*old(self))
                &&& final(self).same_sort(*old(self))
                &&& final(self).same_group(*old(self))
            },
    {
        if self.is_sorted_query {
            return Err(DfError::FilterAfterSort);
        }
        if self.has_been_filtered {
            return Err(DfError::FilterRepeated);
        }
        self.kept_rows = vec![true; n_row];
        assert(self.kept_rows@ =~= Seq::new(n_row as nat, |i: int| true));
        self.has_been_filtered = true;
        Ok(())
    }

    /// Whether a column name asks for a descending sort, for each name.
    pub fn get_negation(col_names: &Vec<String>) -> (r: Vec<bool>)
        ensures
            r@ == negations(strings_view(col_names@)),
    {
        let mut r: Vec<bool> = Vec::new();
        let mut i: usize = 0;
        while i < col_names.len()
            invariant
                i <= col_names@.len(),
                r@.len() == i,
                forall|k: int| 0 <= k < i ==> r@[k] == is_negated(#[trigger] col_names@[k]@),
            decreases col_names@.len() - i,
        {
            let s = col_names[i].as_str();
            let neg = s.unicode_len() > 0 && s.get_char(0) == '_';
            r.push(neg);
            i = i + 1;
        }
        assert(r@ =~= negations(strings_view(col_names@)));
        r
    }

    /// The column names without their leading underscores.
    pub fn remove_negation(col_names: &Vec<String>) -> (r: Vec<String>)
        ensures
            strings_view(r@) == clean_names(strings_view(col_names@)),
    {
        let mut r: Vec<String> = Vec::new();
        let mut i: usize = 0;
        while i < col_names.len()
            invariant
                i <= col_names@.len(),
                r@.len() == i,
                forall|k: int| 0 <= k < i ==> (#[trigger] r@[k])@ == without_negation(col_names@[k]@),
            decreases col_names@.len() - i,
        {
            let s = col_names[i].as_str();
            let n = s.unicode_len();
            if n > 0 && s.get_char(0) == '_' {
                r.push(s.substring_char(1, n).to_owned());
            } else {
                r.push(s.to_owned());
            }
            i = i + 1;
        }
        assert(strings_view(r@) =~= clean_names(strings_view(col_names@)));
        r
    }
}


/// The positions of the kept rows, in order.
pub open spec fn kept_positions(kept: Seq<bool>) -> Seq<int>
    decreases kept.len(),
{
    if kept.len() == 0 {
        Seq::empty()
    } else if kept.last() {
        kept_positions(kept.drop_last()).push(kept.len() - 1)
    } else {
        kept_positions(kept.drop_last())
    }
}

/// The kept positions are ascending row numbers below `kept.len()`, and a row is
/// among them exactly when it is kept.
pub proof fn lemma_kept_positions(kept: Seq<bool>)
    ensures
        forall|k: int| 0 <= k < kept_positions(kept).len() ==> 0 <= #[trigger] kept_positions(kept)[k] < kept.len()
            && kept[kept_positions(kept)[k]],
        forall|a: int, b: int|
            0 <= a < b < kept_positions(kept).len() ==> #[trigger] kept_positions(kept)[a]
                < #[trigger] kept_positions(kept)[b],
        forall|i: int| 0 <= i < kept.len() && #[trigger] kept[i] ==> kept_positions(kept).contains(i),
        kept_positions(kept).len() <= kept.len(),
    decreases kept.len(),
{
    if kept.len() > 0 {
        let d = kept.drop_last();
        lemma_kept_positions(d);
        assert forall|i: int| 0 <= i < kept.len() && #[trigger] kept[i] implies kept_positions(kept).contains(i) by {
            if i < kept.len() - 1 {
                assert(d[i] == kept[i]);
                let k = choose|k: int| 0 <= k < kept_positions(d).len() && kept_positions(d)[k] == i;
                assert(kept_positions(kept)[k] == i);
            } else {
                assert(kept_positions(kept).last() == i);
            }
        }
    }
}

/// The source rows that a query keeps, in order: all `n_row` rows, or the kept
/// ones when the query filters.
pub open spec fn src_rows(kept: Seq<bool>, filtering: bool, n_row: nat) -> Seq<int> {
    if filtering {
        kept_positions(kept.take(n_row as int))
    } else {
        Seq::new(n_row, |i: int| i)
    }
}

impl Query {
    /// Set the query's selected columns, in the order given; every name must be a
    /// column of `df`. Selection can be set only once; no names leave it unset.
    pub fn set_select_cols(&mut self, df: &DataFrame, col_names: Vec<String>) -> (r: Result<(), DfError>)
        requires
            df.wf(),
        ensures
            old(self).has_been_selected ==> r == Err::<(), DfError>(DfError::SelectRepeated)
                && *final(self) == *old(self),
            !old(self).has_been_selected && col_names@.len() == 0 ==> r is Ok && *final(self) == *old(self),
            !old(self).has_been_selected && col_names@.len() > 0 && all_cols_of(*df, strings_view(col_names@))
                ==> {
                &&& r is Ok
                &&& final(self).select_cols@ == old(self).select_cols@ + col_names@
                &&& final(self).has_been_selected
                &&& final(self).same_filter(*old(self))
                &&& final(self).same_sort(*old(self))
                &&& final(self).same_group(*old(self))
            },
            !old(self).has_been_selected && !all_cols_of(*df, strings_view(col_names@)) ==> (r matches Err(
                DfError::ColumnNotFound(n),
            ) && !df.has_col(n@) && strings_view(col_names@).contains(n@)),
    {
        if self.has_been_selected {
            return Err(DfError::SelectRepeated);
        }
        if let Some(n) = missing_col(df, &col_names) {
            return Err(DfError::ColumnNotFound(n));
        }
        if col_names.len() > 0 {
            let mut i: usize = 0;
            let ghost s0 = self.select_cols@;
            while i < col_names.len()
                invariant
                    i <= col_names@.len(),
                    self.select_cols@ == s0 + col_names@.subrange(0, i as int),
                    self.same_filter(*old(self)),
                    self.same_sort(*old(self)),
                    self.same_group(*old(self)),
                    self.has_been_selected == old(self).has_been_selected,
                decreases col_names@.len() - i,
            {
                self.select_cols.push(col_names[i].clone());
                assert(col_names@.subrange(0, i + 1) =~= col_names@.subrange(0, i as int).push(col_names@[i as int]));
                i = i + 1;
            }
            assert(col_names@.subrange(0, col_names@.len() as int) =~= col_names@);
            self.has_been_selected = true;
        }
        Ok(())
    }

    /// Set the query's selected columns to all columns of `df` but the ones named;
    /// every name must be a column of `df`. Selection can be set only once.
    pub fn set_drop_cols(&mut self, df: &DataFrame, col_names: Vec<String>) -> (r: Result<(), DfError>)
        requires
            df.wf(),
        ensures
            old(self).has_been_selected ==> r == Err::<(), DfError>(DfError::SelectRepeated)
                && *final(self) == *old(self),
            !old(self).has_been_selected && col_names@.len() == 0 ==> r is Ok && *final(self) == *old(self),
            !old(self).has_been_selected && col_names@.len() > 0 && all_cols_of(*df, strings_view(col_names@))
                ==> {
                &&& r is Ok
                &&& strings_view(final(self).select_cols@) == kept_names(df.names(), strings_view(col_names@))
                &&& final(self).has_been_selected
                &&& final(self).same_filter(*old(self))
                &&& final(self).same_sort(*old(self))
                &&& final(self).same_group(*old(self))
            },
            !old(self).has_been_selected && !all_cols_of(*df, strings_view(col_names@)) ==> (r matches Err(
                DfError::ColumnNotFound(n),
            ) && !df.has_col(n@) && strings_view(col_names@).contains(n@)),
    {
        if self.has_been_selected {
            return Err(DfError::SelectRepeated);
        }
        if let Some(n) = missing_col(df, &col_names) {
            return Err(DfError::ColumnNotFound(n));
        }
        if col_names.len() > 0 {
            let ghost dv = strings_view(col_names@);
            let ghost names = df.names();
            let mut sel: Vec<String> = Vec::new();
            let mut j: usize = 0;
            while j < df.col_names.len()
                invariant
                    j <= df.col_names@.len(),
                    names == df.names(),
                    dv == strings_view(col_names@),
                    strings_view(sel@) == kept_names(names.take(j as int), dv),
                decreases df.col_names@.len() - j,
            {
                assert(names.take(j + 1).drop_last() =~= names.take(j as int));
                assert(names.take(j + 1).last() == df.col_names@[j as int]@);
                if !crate::data_frame::status::contains_string(&col_names, &df.col_names[j]) {
                    sel.push(df.col_names[j].clone());
                    assert(strings_view(sel@) =~= kept_names(names.take(j + 1), dv));
                }
                j = j + 1;
            }
            assert(names.take(names.len() as int) =~= names);
            self.select_cols = sel;
            self.has_been_selected = true;
        }
        Ok(())
    }

    /// Set the query's sort columns; a leading underscore asks for a descending
    /// sort of that column. A sort can be set only once, on at most eight columns,
    /// and is already satisfied when `df` is sorted by columns that start with them.
    pub fn set_sort_cols(&mut self, df: &DataFrame, col_names: Vec<String>) -> (r: Result<(), DfError>)
        requires
            df.wf(),
        ensures
            old(self).is_sorted_query ==> r == Err::<(), DfError>(DfError::SortRepeated)
                && *final(self) == *old(self),
            !old(self).is_sorted_query && col_names@.len() == 0 ==> {
                &&& r is Ok
                &&& final(self).is_sorted_query
                &&& final(self).sort_cols@ == old(self).sort_cols@
                &&& final(self).sort_negates@ == old(self).sort_negates@
                &&& final(self).has_been_sorted == old(self).has_been_sorted
                &&& final(self).sorts_match == old(self).sorts_match
                &&& final(self).same_filter(*old(self))
                &&& final(self).same_select(*old(self))
                &&& final(self).same_group(*old(self))
            },
            !old(self).is_sorted_query && col_names@.len() > 8 ==> r == Err::<(), DfError>(
                DfError::TooManyKeyColumns,
            ),
            !old(self).is_sorted_query && 0 < col_names@.len() <= 8 ==> {
                let neg = negations(strings_view(col_names@));
                let clean = clean_names(strings_view(col_names@));
                let matched = is_prefix(clean, strings_view(df.status.sort_cols@)) && is_prefix(
                    neg,
                    df.status.sort_negates@,
                );
                &&& (matched || all_cols_of(*df, clean)) ==> {
                    &&& r is Ok
                    &&& final(self).is_sorted_query
                    &&& final(self).has_been_sorted
                    &&& strings_view(final(self).sort_cols@) == clean
                    &&& final(self).sort_negates@ == neg
                    &&& final(self).sorts_match == matched
                    &&& final(self).same_filter(*old(self))
                    &&& final(self).same_select(*old(self))
                    &&& final(self).same_group(*old(self))
                }
                &&& !(matched || all_cols_of(*df, clean)) ==> (r matches Err(DfError::ColumnNotFound(n))
                    && !df.has_col(n@) && clean.contains(n@))
            },
    {
        if self.is_sorted_query {
            return Err(DfError::SortRepeated);
        }
        self.is_sorted_query = true;
        if col_names.len() == 0 {
            return Ok(());
        }
        if col_names.len() > 8 {
            return Err(DfError::TooManyKeyColumns);
        }
        let neg = Query::get_negation(&col_names);
        let clean = Query::remove_negation(&col_names);
        let matched = starts_with_strings(&df.status.sort_cols, clean.as_slice()) && starts_with_bools(
            &df.status.sort_negates,
            neg.as_slice(),
        );
        if !matched {
            if let Some(n) = missing_col(df, &clean) {
                return Err(DfError::ColumnNotFound(n));
            }
        }
        self.has_been_sorted = true;
        self.sort_negates = neg;
        self.sort_cols = clean;
        self.sorts_match = matched;
        Ok(())
    }

    /// Set the query's grouping columns (a leading underscore asks for a
    /// descending sort) and the columns to aggregate. A sort set on the query must
    /// start with the grouping columns; with no sort set, a DataFrame already
    /// sorted by columns that start with them keeps that sort.
    pub fn set_grouping_cols(&mut self, df: &DataFrame, group_cols: Vec<String>, agg_cols: Vec<String>) -> (r:
        Result<(), DfError>)
        requires
            df.wf(),
        ensures
            old(self).has_been_grouped ==> r == Err::<(), DfError>(DfError::GroupRepeated),
            !old(self).has_been_grouped && group_cols@.len() == 0 ==> r == Err::<(), DfError>(
                DfError::GroupWithoutColumns,
            ),
            !old(self).has_been_grouped && group_cols@.len() > 8 ==> r == Err::<(), DfError>(
                DfError::TooManyKeyColumns,
            ),
            !old(self).has_been_grouped && 0 < group_cols@.len() <= 8 ==> {
                let gneg = negations(strings_view(group_cols@));
                let gclean = clean_names(strings_view(group_cols@));
                let inherit = !old(self).has_been_sorted && df.status.is_sorted && is_prefix(
                    gclean,
                    strings_view(df.status.sort_cols@),
                ) && is_prefix(gneg, df.status.sort_negates@);
                &&& old(self).has_been_sorted && !is_prefix(gclean, strings_view(old(self).sort_cols@))
                    ==> r == Err::<(), DfError>(DfError::GroupSortMismatch)
                &&& !(old(self).has_been_sorted && !is_prefix(gclean, strings_view(old(self).sort_cols@)))
                    ==> {
                    &&& r is Ok
                    &&& strings_view(final(self).group_cols@) == gclean
                    &&& final(self).agg_cols@ == agg_cols@
                    &&& final(self).has_been_grouped
                    &&& final(self).has_agg_cols == (agg_cols@.len() > 0)
                    &&& final(self).same_filter(*old(self))
                    &&& final(self).same_select(*old(self))
                    &&& old(self).has_been_sorted ==> {
                        &&& final(self).sort_cols@ == old(self).sort_cols@
                        &&& final(self).sort_negates@ == old(self).sort_negates@
                        &&& final(self).is_sorted_query == old(self).is_sorted_query
                        &&& final(self).has_been_sorted
                        &&& final(self).sorts_match == (old(self).sorts_match || (df.status.is_sorted
                            && is_prefix(
                            strings_view(old(self).sort_cols@),
                            strings_view(df.status.sort_cols@),
                        )))
                    }
                    &&& inherit ==> {
                        &&& final(self).sort_cols@ == df.status.sort_cols@
                        &&& final(self).sort_negates@ == df.status.sort_negates@
                        &&& final(self).is_sorted_query
                        &&& final(self).has_been_sorted
                        &&& final(self).sorts_match
                    }
                    &&& !old(self).has_been_sorted && !inherit ==> final(self).same_sort(*old(self))
                }
            },
    {
        if self.has_been_grouped {
            return Err(DfError::GroupRepeated);
        }
        if group_cols.len() == 0 {
            return Err(DfError::GroupWithoutColumns);
        }
        if group_cols.len() > 8 {
            return Err(DfError::TooManyKeyColumns);
        }
        let gneg = Query::get_negation(&group_cols);
        let gclean = Query::remove_negation(&group_cols);
        if self.has_been_sorted {
            if !starts_with_strings(&self.sort_cols, gclean.as_slice()) {
                return Err(DfError::GroupSortMismatch);
            }
            if df.status.is_sorted && starts_with_strings(&df.status.sort_cols, self.sort_cols.as_slice()) {
                self.sorts_match = true;
            }
        } else {
            if df.status.is_sorted && starts_with_strings(&df.status.sort_cols, gclean.as_slice())
                && starts_with_bools(&df.status.sort_negates, gneg.as_slice()) {
                self.sort_cols = clone_strings(&df.status.sort_cols);
                self.sort_negates = clone_bools(&df.status.sort_negates);
                self.is_sorted_query = true;
                self.has_been_sorted = true;
                self.sorts_match = true;
            }
        }
        self.has_been_grouped = true;
        self.has_agg_cols = agg_cols.len() > 0;
        self.agg_cols = agg_cols;
        self.group_cols = gclean;
        Ok(())
    }

    /// Set the flags that say what execution must do: filter when some row of a
    /// non-empty DataFrame is dropped, sort when a sort is asked and not already
    /// satisfied.
    pub fn set_aggregate_status_flags(&mut self, df: &DataFrame)
        ensures
            final(self).needs_filtering == (df.n_row > 0 && exists|i: int|
                0 <= i < old(self).kept_rows@.len() && !#[trigger] old(self).kept_rows@[i]),
            final(self).needs_sorting == (df.n_row > 0 && old(self).is_sorted_query && !old(self).sorts_match),
            final(self).rows_are_changing == (final(self).needs_filtering || final(self).needs_sorting),
            final(self).same_filter(*old(self)),
            final(self).same_select(*old(self)),
            final(self).same_sort(*old(self)),
            final(self).same_group(*old(self)),
            final(self).i_map@ == old(self).i_map@,
    {
        let has_data = df.n_row > 0;
        let mut any_dropped = false;
        let mut i: usize = 0;
        while i < self.kept_rows.len()
            invariant
                i <= self.kept_rows@.len(),
                any_dropped == exists|k: int| 0 <= k < i && !#[trigger] self.kept_rows@[k],
            decreases self.kept_rows@.len() - i,
        {
            if !self.kept_rows[i] {
                any_dropped = true;
            }
            i = i + 1;
        }
        self.needs_filtering = has_data && any_dropped;
        self.needs_sorting = has_data && self.is_sorted_query && !self.sorts_match;
        self.rows_are_changing = self.needs_filtering || self.needs_sorting;
    }

    /// Establish the row map: one entry per kept source row, in source order, each
    /// numbered by its position in the kept rows.
    pub fn set_i_map(&mut self, df: &DataFrame)
        requires
            old(self).needs_filtering ==> old(self).kept_rows@.len() >= df.n_row,
        ensures
            final(self).i_map@.len() == src_rows(old(self).kept_rows@, old(self).needs_filtering, df.n_row as nat).len(),
            forall|k: int|
                0 <= k < final(self).i_map@.len() ==> (#[trigger] final(self).i_map@[k]).0 == src_rows(
                    old(self).kept_rows@,
                    old(self).needs_filtering,
                    df.n_row as nat,
                )[k] && final(self).i_map@[k].1 == k && final(self).i_map@[k].2 == k,
            final(self).same_filter(*old(self)),
            final(self).same_select(*old(self)),
            final(self).same_sort(*old(self)),
            final(self).same_group(*old(self)),
            final(self).needs_filtering == old(self).needs_filtering,
            final(self).needs_sorting == old(self).needs_sorting,
            final(self).rows_are_changing == old(self).rows_are_changing,
    {
        let n = df.n_row;
        let filt = self.needs_filtering;
        let ghost kept = self.kept_rows@;
        let mut m: Vec<(usize, usize, usize)> = Vec::new();
        let mut i: usize = 0;
        while i < n
            invariant
                i <= n,
                n == df.n_row,
                filt == old(self).needs_filtering,
                filt ==> self.kept_rows@.len() >= n,
                kept == self.kept_rows@,
                filt ==> m@.len() == kept_positions(kept.take(i as int)).len(),
                !filt ==> m@.len() == i,
                forall|k: int|
                    0 <= k < m@.len() ==> (#[trigger] m@[k]).1 == k && m@[k].2 == k && (filt ==> m@[k].0
                        == kept_positions(kept.take(i as int))[k]) && (!filt ==> m@[k].0 == k),
            decreases n - i,
        {
            proof {
                if filt {
                    assert(kept.take(i + 1).drop_last() =~= kept.take(i as int));
                }
            }
            if !filt || self.kept_rows[i] {
                let k = m.len();
                m.push((i, k, k));
            }
            i = i + 1;
        }
        self.i_map = m;
    }
}

/// The first name that is not a column of `df`, if any.
fn missing_col(df: &DataFrame, names: &Vec<String>) -> (r: Option<String>)
    requires
        df.wf(),
    ensures
        r is None <==> all_cols_of(*df, strings_view(names@)),
        r matches Some(n) ==> !df.has_col(n@) && strings_view(names@).contains(n@),
{
    let mut i: usize = 0;
    while i < names.len()
        invariant
            df.wf(),
            i <= names@.len(),
            forall|k: int| 0 <= k < i ==> df.has_col(#[trigger] strings_view(names@)[k]),
        decreases names@.len() - i,
    {
        if df.find_col(names[i].as_str()).is_none() {
            assert(strings_view(names@)[i as int] == names@[i as int]@);
            return Some(names[i].clone());
        }
        i = i + 1;
    }
    None
}


impl Query {
    /// Evaluate a filter condition on one column: a kept row stays kept when the
    /// condition holds of its cell.
    pub fn set_col_filter_1<A: ColType>(
        &mut self,
        df_src: &DataFrame,
        a_name: &str,
        op: impl Fn(Option<A>) -> bool,
    ) -> (r: Result<(), DfError>)
        requires
            df_src.wf(),
            df_src.has_col(a_name@),
            old(self).kept_rows@.len() <= df_src.n_row,
            forall|x: Option<A>| #[trigger] op.requires((x,)),
        ensures
            df_src.col_of(a_name@).kind_of() != A::kind() ==> (r matches Err(DfError::TypeMismatch(n))
                && n@ == a_name@) && *final(self) == *old(self),
            df_src.col_of(a_name@).kind_of() == A::kind() ==> {
                &&& r is Ok
                &&& final(self).kept_rows@.len() == old(self).kept_rows@.len()
                &&& forall|i: int|
                    0 <= i < old(self).kept_rows@.len() ==> (#[trigger] final(self).kept_rows@[i]
                        ==> old(self).kept_rows@[i])
                &&& forall|i: int, x: Option<A>|
                    #![trigger final(self).kept_rows@[i], A::wrap(x)]
                    0 <= i < old(self).kept_rows@.len() && old(self).kept_rows@[i] && A::wrap(x)
                        == df_src.col_of(a_name@).cells()[i] ==> op.ensures((x,), final(self).kept_rows@[i])
                &&& final(self).same_but_kept_rows(*old(self))
            },
    {
        let j = match df_src.find_col(a_name) {
            Some(j) => j,
            None => vstd::pervasive::unreached(),
        };
        if df_src.columns[j].kind() != A::col_kind() {
            return Err(DfError::TypeMismatch(a_name.to_owned()));
        }
        let a = A::data_ref(&df_src.columns[j]);
        assert(a@.len() == df_src.n_row);
        let n = self.kept_rows.len();
        let mut i: usize = 0;
        while i < n
            invariant
                n == old(self).kept_rows@.len(),
                n <= a@.len(),
                i <= n,
                self.kept_rows@.len() == n,
                forall|x: Option<A>| #[trigger] op.requires((x,)),
                a@.map_values(|x: Option<A>| A::wrap(x)) == df_src.col_of(a_name@).cells(),
                forall|k: int| i <= k < n ==> #[trigger] self.kept_rows@[k] == old(self).kept_rows@[k],
                forall|k: int| 0 <= k < i ==> (#[trigger] self.kept_rows@[k] ==> old(self).kept_rows@[k]),
                forall|k: int| 0 <= k < i && old(self).kept_rows@[k] ==> op.ensures((a@[k],), #[trigger] self.kept_rows@[k]),
                self.same_but_kept_rows(*old(self)),
            decreases n - i,
        {
            if self.kept_rows[i] {
                let v = op(A::copy_opt(&a[i]));
                self.kept_rows.set(i, v);
            }
            i = i + 1;
        }
        proof {
            assert forall|k: int, x: Option<A>|
                #![trigger self.kept_rows@[k], A::wrap(x)]
                0 <= k < n && old(self).kept_rows@[k] && A::wrap(x) == df_src.col_of(a_name@).cells()[k] implies op.ensures(
                (x,),
                self.kept_rows@[k],
            ) by {
                assert(df_src.col_of(a_name@).cells()[k] == A::wrap(a@[k]));
                A::lemma_wrap(x, a@[k]);
            }
        }
        Ok(())
    }
}


impl Query {
    /// Evaluate a filter condition on two columns: a kept row stays kept when the
    /// condition holds of its cells.
    pub fn set_col_filter_2<A: ColType, B: ColType>(
        &mut self,
        df_src: &DataFrame,
        a_name: &str,
        b_name: &str,
        op: impl Fn(Option<A>, Option<B>) -> bool,
    ) -> (r: Result<(), DfError>)
        requires
            df_src.wf(),
            df_src.has_col(a_name@),
            df_src.has_col(b_name@),
            old(self).kept_rows@.len() <= df_src.n_row,
            forall|x: Option<A>, y: Option<B>| #[trigger] op.requires((x, y)),
        ensures
            df_src.col_of(a_name@).kind_of() != A::kind() ==> (r matches Err(DfError::TypeMismatch(n))
                && n@ == a_name@) && *final(self) == *old(self),
            df_src.col_of(a_name@).kind_of() == A::kind() && df_src.col_of(b_name@).kind_of() != B::kind() ==> (
            r matches Err(DfError::TypeMismatch(n)) && n@ == b_name@) && *final(self) == *old(self),
            df_src.col_of(a_name@).kind_of() == A::kind() && df_src.col_of(b_name@).kind_of() == B::kind() ==> {
                &&& r is Ok
                &&& final(self).kept_rows@.len() == old(self).kept_rows@.len()
                &&& forall|i: int|
                    0 <= i < old(self).kept_rows@.len() ==> (#[trigger] final(self).kept_rows@[i]
                        ==> old(self).kept_rows@[i])
                &&& forall|i: int, x: Option<A>, y: Option<B>|
                    #![trigger final(self).kept_rows@[i], A::wrap(x), B::wrap(y)]
                    0 <= i < old(self).kept_rows@.len() && old(self).kept_rows@[i] && A::wrap(x)
                        == df_src.col_of(a_name@).cells()[i] && B::wrap(y) == df_src.col_of(b_name@).cells()[i]
                        ==> op.ensures((x, y), final(self).kept_rows@[i])
                &&& final(self).same_but_kept_rows(*old(self))
            },
    {
        let ja = match df_src.find_col(a_name) {
            Some(j) => j,
            None => vstd::pervasive::unreached(),
        };
        let jb = match df_src.find_col(b_name) {
            Some(j) => j,
            None => vstd::pervasive::unreached(),
        };
        if df_src.columns[ja].kind() != A::col_kind() {
            return Err(DfError::TypeMismatch(a_name.to_owned()));
        }
        if df_src.columns[jb].kind() != B::col_kind() {
            return Err(DfError::TypeMismatch(b_name.to_owned()));
        }
        let a = A::data_ref(&df_src.columns[ja]);
        let b = B::data_ref(&df_src.columns[jb]);
        assert(a@.len() == df_src.n_row);
        assert(b@.len() == df_src.n_row);
        let n = self.kept_rows.len();
        let mut i: usize = 0;
        while i < n
            invariant
                n == old(self).kept_rows@.len(),
                n <= a@.len(),
                n <= b@.len(),
                i <= n,
                self.kept_rows@.len() == n,
                forall|x: Option<A>, y: Option<B>| #[trigger] op.requires((x, y)),
                forall|k: int| i <= k < n ==> #[trigger] self.kept_rows@[k] == old(self).kept_rows@[k],
                forall|k: int| 0 <= k < i ==> (#[trigger] self.kept_rows@[k] ==> old(self).kept_rows@[k]),
                forall|k: int|
                    0 <= k < i && old(self).kept_rows@[k] ==> op.ensures((a@[k], b@[k]), #[trigger] self.kept_rows@[k]),
                self.same_but_kept_rows(*old(self)),
            decreases n - i,
        {
            if self.kept_rows[i] {
                let v = op(A::copy_opt(&a[i]), B::copy_opt(&b[i]));
                self.kept_rows.set(i, v);
            }
            i = i + 1;
        }
        proof {
            assert forall|k: int, x: Option<A>, y: Option<B>|
                #![trigger self.kept_rows@[k], A::wrap(x), B::wrap(y)]
                0 <= k < n && old(self).kept_rows@[k] && A::wrap(x) == df_src.col_of(a_name@).cells()[k] && B::wrap(y)
                    == df_src.col_of(b_name@).cells()[k] implies op.ensures((x, y), self.kept_rows@[k]) by {
                assert(df_src.col_of(a_name@).cells()[k] == A::wrap(a@[k]));
                assert(df_src.col_of(b_name@).cells()[k] == B::wrap(b@[k]));
                A::lemma_wrap(x, a@[k]);
                B::lemma_wrap(y, b@[k]);
            }
        }
        Ok(())
    }

    /// Evaluate a filter condition on three columns: a kept row stays kept when the
    /// condition holds of its cells.
    pub fn set_col_filter_3<A: ColType, B: ColType, C: ColType>(
        &mut self,
        df_src: &DataFrame,
        a_name: &str,
        b_name: &str,
        c_name: &str,
        op: impl Fn(Option<A>, Option<B>, Option<C>) -> bool,
    ) -> (r: Result<(), DfError>)
        requires
            df_src.wf(),
            df_src.has_col(a_name@),
            df_src.has_col(b_name@),
            df_src.has_col(c_name@),
            old(self).kept_rows@.len() <= df_src.n_row,
            forall|x: Option<A>, y: Option<B>, z: Option<C>| #[trigger] op.requires((x, y, z)),
        ensures
            df_src.col_of(a_name@).kind_of() != A::kind() ==> (r matches Err(DfError::TypeMismatch(n))
                && n@ == a_name@) && *final(self) == *old(self),
            df_src.col_of(a_name@).kind_of() == A::kind() && df_src.col_of(b_name@).kind_of() != B::kind() ==> (
            r matches Err(DfError::TypeMismatch(n)) && n@ == b_name@) && *final(self) == *old(self),
            df_src.col_of(a_name@).kind_of() == A::kind() && df_src.col_of(b_name@).kind_of() == B::kind()
                && df_src.col_of(c_name@).kind_of() != C::kind() ==> (r matches Err(DfError::TypeMismatch(n))
                && n@ == c_name@) && *final(self) == *old(self),
            df_src.col_of(a_name@).kind_of() == A::kind() && df_src.col_of(b_name@).kind_of() == B::kind()
                && df_src.col_of(c_name@).kind_of() == C::kind() ==> {
                &&& r is Ok
                &&& final(self).kept_rows@.len() == old(self).kept_rows@.len()
                &&& forall|i: int|
                    0 <= i < old(self).kept_rows@.len() ==> (#[trigger] final(self).kept_rows@[i]
                        ==> old(self).kept_rows@[i])
                &&& forall|i: int, x: Option<A>, y: Option<B>, z: Option<C>|
                    #![trigger final(self).kept_rows@[i], A::wrap(x), B::wrap(y), C::wrap(z)]
                    0 <= i < old(self).kept_rows@.len() && old(self).kept_rows@[i] && A::wrap(x)
                        == df_src.col_of(a_name@).cells()[i] && B::wrap(y) == df_src.col_of(b_name@).cells()[i]
                        && C::wrap(z) == df_src.col_of(c_name@).cells()[i] ==> op.ensures(
                        (x, y, z),
                        final(self).kept_rows@[i],
                    )
                &&& final(self).same_but_kept_rows(*old(self))
            },
    {
        let ja = match df_src.find_col(a_name) {
            Some(j) => j,
            None => vstd::pervasive::unreached(),
        };
        let jb = match df_src.find_col(b_name) {
            Some(j) => j,
            None => vstd::pervasive::unreached(),
        };
        let jc = match df_src.find_col(c_name) {
            Some(j) => j,
            None => vstd::pervasive::unreached(),
        };
        if df_src.columns[ja].kind() != A::col_kind() {
            return Err(DfError::TypeMismatch(a_name.to_owned()));
        }
        if df_src.columns[jb].kind() != B::col_kind() {
            return Err(DfError::TypeMismatch(b_name.to_owned()));
        }
        if df_src.columns[jc].kind() != C::col_kind() {
            return Err(DfError::TypeMismatch(c_name.to_owned()));
        }
        let a = A::data_ref(&df_src.columns[ja]);
        let b = B::data_ref(&df_src.columns[jb]);
        let c = C::data_ref(&df_src.columns[jc]);
        assert(a@.len() == df_src.n_row);
        assert(b@.len() == df_src.n_row);
        assert(c@.len() == df_src.n_row);
        let n = self.kept_rows.len();
        let mut i: usize = 0;
        while i < n
            invariant
                n == old(self).kept_rows@.len(),
                n <= a@.len(),
                n <= b@.len(),
                n <= c@.len(),
                i <= n,
                self.kept_rows@.len() == n,
                forall|x: Option<A>, y: Option<B>, z: Option<C>| #[trigger] op.requires((x, y, z)),
                forall|k: int| i <= k < n ==> #[trigger] self.kept_rows@[k] == old(self).kept_rows@[k],
                forall|k: int| 0 <= k < i ==> (#[trigger] self.kept_rows@[k] ==> old(self).kept_rows@[k]),
                forall|k: int|
                    0 <= k < i && old(self).kept_rows@[k] ==> op.ensures(
                        (a@[k], b@[k], c@[k]),
                        #[trigger] self.kept_rows@[k],
                    ),
                self.same_but_kept_rows(*old(self)),
            decreases n - i,
        {
            if self.kept_rows[i] {
                let v = op(A::copy_opt(&a[i]), B::copy_opt(&b[i]), C::copy_opt(&c[i]));
                self.kept_rows.set(i, v);
            }
            i = i + 1;
        }
        proof {
            assert forall|k: int, x: Option<A>, y: Option<B>, z: Option<C>|
                #![trigger self.kept_rows@[k], A::wrap(x), B::wrap(y), C::wrap(z)]
                0 <= k < n && old(self).kept_rows@[k] && A::wrap(x) == df_src.col_of(a_name@).cells()[k] && B::wrap(y)
                    == df_src.col_of(b_name@).cells()[k] && C::wrap(z) == df_src.col_of(c_name@).cells()[k] implies op.ensures(
                (x, y, z),
                self.kept_rows@[k],
            ) by {
                assert(df_src.col_of(a_name@).cells()[k] == A::wrap(a@[k]));
                assert(df_src.col_of(b_name@).cells()[k] == B::wrap(b@[k]));
                assert(df_src.col_of(c_name@).cells()[k] == C::wrap(c@[k]));
                A::lemma_wrap(x, a@[k]);
                B::lemma_wrap(y, b@[k]);
                C::lemma_wrap(z, c@[k]);
            }
        }
        Ok(())
    }
}


/// The columns of `df` with the given names, in order.
pub open spec fn cols_named(df: DataFrame, names: Seq<Seq<char>>) -> Seq<Column> {
    names.map_values(|n: Seq<char>| df.col_of(n))
}

/// The row map that lists the given source rows in order, numbered by position.
pub open spec fn map_of(src: Seq<int>) -> Seq<(usize, usize, usize)> {
    Seq::new(src.len(), |k: int| (src[k] as usize, k as usize, k as usize))
}

/// The source rows of a row map, in order.
pub open spec fn map_srcs(m: Seq<(usize, usize, usize)>) -> Seq<int> {
    m.map_values(|e: (usize, usize, usize)| e.0 as int)
}

/// `a` lists the entries of `b` in some order.
pub open spec fn reorders<T>(a: Seq<T>, b: Seq<T>) -> bool {
    exists|p: Seq<usize>|
        is_permutation(p, b.len()) && a.len() == b.len() && forall|k: int|
            0 <= k < a.len() ==> #[trigger] a[k] == b[p[k] as int]
}

/// The rows ascend by their keys over the named columns.
pub open spec fn rows_sorted(df: DataFrame, names: Seq<Seq<char>>, negates: Seq<bool>, rows: Seq<int>) -> bool {
    forall|a: int, b: int|
        0 <= a < b < rows.len() ==> lex_le(
            row_key(cols_named(df, names), negates, #[trigger] rows[a]),
            row_key(cols_named(df, names), negates, #[trigger] rows[b]),
        )
}

/// Some named column holds strings.
pub open spec fn has_string_col(df: DataFrame, names: Seq<Seq<char>>) -> bool {
    exists|i: int| 0 <= i < names.len() && (#[trigger] df.col_of(names[i])).kind_of() == ColKind::Str
}

/// `out` holds, for each name, the cells of that column of `df` at the given
/// source rows, in order.
pub open spec fn selected_from(out: DataFrame, df: DataFrame, names: Seq<Seq<char>>, rows: Seq<int>) -> bool {
    &&& out.wf()
    &&& out.names() == names
    &&& out.n_row == rows.len()
    &&& forall|j: int|
        0 <= j < names.len() ==> {
            let c = #[trigger] out.columns@[j];
            let s = df.col_of(names[j]);
            &&& c.kind_of() == s.kind_of()
            &&& forall|r: int| 0 <= r < rows.len() ==> c.cells()[r] == s.cells()[rows[r]]
            &&& rows.len() > 0 ==> c.labels_view() == s.labels_view()
        }
}

/// A sequence lists itself in order.
pub proof fn lemma_reorders_refl<T>(a: Seq<T>)
    requires
        a.len() <= usize::MAX,
    ensures
        reorders(a, a),
{
    let p = Seq::new(a.len(), |i: int| i as usize);
    assert forall|i: int, j: int| 0 <= i < p.len() && 0 <= j < p.len() && i != j implies p[i] != p[j] by {}
    assert(p.no_duplicates());
    assert forall|k: int| 0 <= k < a.len() implies #[trigger] a[k] == a[p[k] as int] by {
        assert(p[k] as int == k);
    }
    assert(is_permutation(p, a.len()));
}

impl Query {
    /// Sort the row map by the keys of the sort columns (descending for negated
    /// ones). Only a single sort column may hold strings. The row keys, indexed by
    /// the row map's entries before the sort, are kept for later grouping.
    pub fn sort_i_map(&mut self, df_src: &DataFrame) -> (r: Result<(), DfError>)
        requires
            df_src.wf(),
            all_cols_of(*df_src, strings_view(old(self).sort_cols@)),
            old(self).sort_negates@.len() == old(self).sort_cols@.len(),
            forall|k: int| 0 <= k < old(self).i_map@.len() ==> (#[trigger] old(self).i_map@[k]).0 < df_src.n_row,
        ensures
            old(self).sort_cols@.len() > 1 && has_string_col(*df_src, strings_view(old(self).sort_cols@)) ==> (
            r matches Err(DfError::StringKey(n)) && strings_view(old(self).sort_cols@).contains(n@)
                && df_src.col_of(n@).kind_of() == ColKind::Str),
            !(old(self).sort_cols@.len() > 1 && has_string_col(*df_src, strings_view(old(self).sort_cols@))) ==> {
                &&& r is Ok
                &&& reorders(final(self).i_map@, old(self).i_map@)
                &&& rows_sorted(
                    *df_src,
                    strings_view(old(self).sort_cols@),
                    old(self).sort_negates@,
                    map_srcs(final(self).i_map@),
                )
                &&& final(self).row_keys@.len() == old(self).i_map@.len()
                &&& forall|k: int|
                    0 <= k < old(self).i_map@.len() ==> (#[trigger] final(self).row_keys@[k])@ == row_key(
                        cols_named(*df_src, strings_view(old(self).sort_cols@)),
                        old(self).sort_negates@,
                        old(self).i_map@[k].0 as int,
                    )
            },
            final(self).same_filter(*old(self)),
            final(self).same_select(*old(self)),
            final(self).same_sort(*old(self)),
            final(self).same_group(*old(self)),
            final(self).needs_filtering == old(self).needs_filtering,
            final(self).needs_sorting == old(self).needs_sorting,
            final(self).rows_are_changing == old(self).rows_are_changing,
    {
        let ghost names = strings_view(self.sort_cols@);
        let ghost cols = cols_named(*df_src, names);
        let n_sort = self.sort_cols.len();
        // the positions of the sort columns
        let mut pos: Vec<usize> = Vec::new();
        let mut j: usize = 0;
        while j < n_sort
            invariant
                df_src.wf(),
                n_sort == self.sort_cols@.len(),
                names == strings_view(self.sort_cols@),
                all_cols_of(*df_src, names),
                j <= n_sort,
                pos@.len() == j,
                forall|i: int| 0 <= i < j ==> (#[trigger] pos@[i]) as int == df_src.col_pos(names[i]) && pos@[i]
                    < df_src.columns@.len(),
                n_sort > 1 ==> forall|i: int| 0 <= i < j ==> (#[trigger] df_src.col_of(names[i])).kind_of() != ColKind::Str,
            decreases n_sort - j,
        {
            assert(df_src.has_col(names[j as int]));
            let p = match df_src.find_col(self.sort_cols[j].as_str()) {
                Some(p) => p,
                None => vstd::pervasive::unreached(),
            };
            if n_sort > 1 && df_src.columns[p].kind() == ColKind::Str {
                return Err(DfError::StringKey(self.sort_cols[j].clone()));
            }
            pos.push(p);
            j = j + 1;
        }
        assert(cols_at(*df_src, pos@) =~= cols);
        // the keys of the rows, in row map order
        let n = self.i_map.len();
        let mut keys: Vec<Vec<u8>> = Vec::new();
        let mut k: usize = 0;
        while k < n
            invariant
                df_src.wf(),
                n == self.i_map@.len(),
                self.i_map@ == old(self).i_map@,
                self.sort_negates@ == old(self).sort_negates@,
                self.sort_negates@.len() == pos@.len(),
                forall|i: int| 0 <= i < pos@.len() ==> #[trigger] pos@[i] < df_src.columns@.len(),
                forall|i: int| 0 <= i < n ==> (#[trigger] self.i_map@[i]).0 < df_src.n_row,
                cols_at(*df_src, pos@) == cols,
                k <= n,
                keys@.len() == k,
                forall|i: int|
                    0 <= i < k ==> (#[trigger] keys@[i])@ == row_key(cols, self.sort_negates@, self.i_map@[i].0 as int),
            decreases n - k,
        {
            let key = df_src.row_key_at(&pos, &self.sort_negates, self.i_map[k].0);
            keys.push(key);
            k = k + 1;
        }
        let p = sort_positions(&keys);
        let mut m: Vec<(usize, usize, usize)> = Vec::new();
        let mut t: usize = 0;
        while t < n
            invariant
                n == self.i_map@.len(),
                self.i_map@ == old(self).i_map@,
                is_permutation(p@, n as nat),
                t <= n,
                m@.len() == t,
                forall|i: int| 0 <= i < t ==> #[trigger] m@[i] == self.i_map@[p@[i] as int],
            decreases n - t,
        {
            m.push(self.i_map[p[t]]);
            t = t + 1;
        }
        proof {
            assert(reorders(m@, old(self).i_map@));
            assert forall|a: int, b: int| 0 <= a < b < map_srcs(m@).len() implies lex_le(
                row_key(cols_named(*df_src, names), old(self).sort_negates@, #[trigger] map_srcs(m@)[a]),
                row_key(cols_named(*df_src, names), old(self).sort_negates@, #[trigger] map_srcs(m@)[b]),
            ) by {
                assert(lex_le(keys_view(keys@)[p@[a] as int], keys_view(keys@)[p@[b] as int]));
                assert(keys_view(keys@)[p@[a] as int] == keys@[p@[a] as int]@);
                assert(keys_view(keys@)[p@[b] as int] == keys@[p@[b] as int]@);
            }
        }
        self.i_map = m;
        self.row_keys = keys;
        self.row_key_cols = clone_strings(&self.sort_cols);
        Ok(())
    }

    /// Renumber the filtered-and-sorted position of each row map entry to its
    /// place in the row map.
    pub fn set_fss_i(&mut self)
        ensures
            final(self).i_map@.len() == old(self).i_map@.len(),
            forall|k: int|
                0 <= k < final(self).i_map@.len() ==> #[trigger] final(self).i_map@[k] == (
                    old(self).i_map@[k].0,
                    old(self).i_map@[k].1,
                    k as usize,
                ),
            final(self).same_filter(*old(self)),
            final(self).same_select(*old(self)),
            final(self).same_sort(*old(self)),
            final(self).same_group(*old(self)),
            final(self).needs_filtering == old(self).needs_filtering,
            final(self).needs_sorting == old(self).needs_sorting,
            final(self).rows_are_changing == old(self).rows_are_changing,
            final(self).row_keys@ == old(self).row_keys@,
    {
        let n = self.i_map.len();
        let mut k: usize = 0;
        while k < n
            invariant
                n == old(self).i_map@.len(),
                self.i_map@.len() == n,
                k <= n,
                forall|i: int|
                    0 <= i < k ==> #[trigger] self.i_map@[i] == (old(self).i_map@[i].0, old(self).i_map@[i].1, i as usize),
                forall|i: int| k <= i < n ==> #[trigger] self.i_map@[i] == old(self).i_map@[i],
                self.same_filter(*old(self)),
                self.same_select(*old(self)),
                self.same_sort(*old(self)),
                self.same_group(*old(self)),
                self.needs_filtering == old(self).needs_filtering,
                self.needs_sorting == old(self).needs_sorting,
                self.rows_are_changing == old(self).rows_are_changing,
                self.row_keys@ == old(self).row_keys@,
            decreases n - k,
        {
            let e = self.i_map[k];
            self.i_map.set(k, (e.0, e.1, k));
            k = k + 1;
        }
    }

    /// The source rows of the row map, in order.
    pub fn map_rows(&self) -> (rows: Vec<usize>)
        ensures
            rows@.len() == self.i_map@.len(),
            forall|k: int| 0 <= k < rows@.len() ==> #[trigger] rows@[k] == self.i_map@[k].0,
    {
        let mut rows: Vec<usize> = Vec::new();
        let mut k: usize = 0;
        while k < self.i_map.len()
            invariant
                k <= self.i_map@.len(),
                rows@.len() == k,
                forall|i: int| 0 <= i < k ==> #[trigger] rows@[i] == self.i_map@[i].0,
            decreases self.i_map@.len() - k,
        {
            rows.push(self.i_map[k].0);
            k = k + 1;
        }
        rows
    }
}


/// Reordering entries reorders any projection of them.
pub proof fn lemma_reorders_srcs(a: Seq<(usize, usize, usize)>, b: Seq<(usize, usize, usize)>)
    requires
        reorders(a, b),
    ensures
        reorders(map_srcs(a), map_srcs(b)),
{
    let p = choose|p: Seq<usize>|
        is_permutation(p, b.len()) && a.len() == b.len() && forall|k: int|
            0 <= k < a.len() ==> #[trigger] a[k] == b[p[k] as int];
    assert forall|k: int| 0 <= k < map_srcs(a).len() implies #[trigger] map_srcs(a)[k] == map_srcs(b)[p[k] as int] by {
        assert(a[k] == b[p[k] as int]);
    }
    assert(map_srcs(b).len() == b.len());
    assert(is_permutation(p, map_srcs(b).len()));
}

impl DataFrame {
    /// A new DataFrame holding the named columns at the given rows, in order;
    /// factor columns keep their labels when `keep_labels` holds.
    pub fn select_at(&self, names: &Vec<String>, rows: &Vec<usize>, keep_labels: bool) -> (out: DataFrame)
        requires
            self.wf(),
            all_cols_of(*self, strings_view(names@)),
            all_distinct(strings_view(names@)),
            forall|r: int| 0 <= r < rows@.len() ==> #[trigger] rows@[r] < self.n_row,
            rows@.len() > 0 ==> keep_labels,
        ensures
            selected_from(out, *self, strings_view(names@), rows@.map_values(|r: usize| r as int)),
            out.status.is_default(),
            out.row_index.is_reset(),
    {
        let ghost nv = strings_view(names@);
        let ghost rv = rows@.map_values(|r: usize| r as int);
        let mut out = DataFrame::new();
        out.n_row = rows.len();
        let mut j: usize = 0;
        while j < names.len()
            invariant
                self.wf(),
                nv == strings_view(names@),
                rv == rows@.map_values(|r: usize| r as int),
                all_cols_of(*self, nv),
                all_distinct(nv),
                forall|r: int| 0 <= r < rows@.len() ==> #[trigger] rows@[r] < self.n_row,
                rows@.len() > 0 ==> keep_labels,
                j <= names@.len(),
                out.wf(),
                out.n_row == rows@.len(),
                out.names() == nv.take(j as int),
                forall|i: int|
                    0 <= i < j ==> {
                        let c = #[trigger] out.columns@[i];
                        let s = self.col_of(nv[i]);
                        &&& c.kind_of() == s.kind_of()
                        &&& forall|r: int| 0 <= r < rv.len() ==> c.cells()[r] == s.cells()[rv[r]]
                        &&& rv.len() > 0 ==> c.labels_view() == s.labels_view()
                    },
                out.status.is_default(),
                out.row_index.is_reset(),
            decreases names@.len() - j,
        {
            assert(self.has_col(nv[j as int]));
            let p = match self.find_col(names[j].as_str()) {
                Some(p) => p,
                None => vstd::pervasive::unreached(),
            };
            proof {
                lemma_first_index(self.names(), nv[j as int]);
            }
            assert(self.columns@[p as int].cells().len() == self.n_row);
            let mut c = self.columns[p].select_rows(rows);
            if keep_labels && self.columns[p].kind() == ColKind::Factor {
                let labels = self.columns[p].get_labels();
                let refs = crate::data_frame::frame::str_refs(&labels);
                c.set_labels(refs);
            } else if self.columns[p].kind() != ColKind::Factor {
                assert(c.labels_view() =~= self.columns@[p as int].labels_view());
            }
            proof {
                assert(nv.take(j + 1) =~= nv.take(j as int).push(nv[j as int]));
                lemma_first_index(out.names(), nv[j as int]);
                assert(first_index(out.names(), nv[j as int]) == -1) by {
                    if first_index(out.names(), nv[j as int]) >= 0 {
                        let k = first_index(out.names(), nv[j as int]);
                        assert(nv[k] == nv[j as int]);
                    }
                }
                lemma_distinct_push_q(out.names(), nv[j as int]);
            }
            out.push_column(names[j].clone(), c);
            j = j + 1;
        }
        assert(nv.take(nv.len() as int) =~= nv);
        out
    }
}

/// Pushing a name that does not occur keeps names distinct.
proof fn lemma_distinct_push_q(names: Seq<Seq<char>>, x: Seq<char>)
    requires
        all_distinct(names),
        first_index(names, x) == -1,
    ensures
        all_distinct(names.push(x)),
{
    lemma_first_index(names, x);
    assert forall|i: int, j: int| 0 <= i < j < names.push(x).len() implies #[trigger] names.push(x)[i]
        != #[trigger] names.push(x)[j] by {
        if j == names.len() {
            assert(names[i] != x);
        } else {
            assert(names[i] != names[j]);
        }
    }
}

/// The rows a sort would reorder include a string column among several keys.
pub open spec fn sort_fails(q: Query, df: DataFrame, src: Seq<int>) -> bool {
    q.rows_are_changing && q.needs_sorting && src.len() > 0 && q.sort_cols@.len() > 1 && has_string_col(
        df,
        strings_view(q.sort_cols@),
    )
}

impl Query {
    /// Coordinate filtering, sorting and column selection: a new DataFrame of the
    /// selected columns at the kept rows, sorted when the query sorts.
    pub fn filter_sort_select(&mut self, df_src: &DataFrame) -> (r: Result<DataFrame, DfError>)
        requires
            df_src.wf(),
            all_cols_of(*df_src, strings_view(old(self).select_cols@)),
            all_distinct(strings_view(old(self).select_cols@)),
            old(self).needs_filtering ==> old(self).kept_rows@.len() >= df_src.n_row,
            old(self).needs_sorting ==> all_cols_of(*df_src, strings_view(old(self).sort_cols@))
                && old(self).sort_negates@.len() == old(self).sort_cols@.len(),
            old(self).rows_are_changing == (old(self).needs_filtering || old(self).needs_sorting),
        ensures
            ({
                let src = src_rows(old(self).kept_rows@, old(self).needs_filtering, df_src.n_row as nat);
                let sel = strings_view(old(self).select_cols@);
                &&& sort_fails(*old(self), *df_src, src) ==> (r matches Err(DfError::StringKey(n))
                    && df_src.col_of(n@).kind_of() == ColKind::Str)
                &&& !sort_fails(*old(self), *df_src, src) ==> (r matches Ok(out) && out.status.is_default()
                    && out.row_index.is_reset() && (old(self).rows_are_changing && !old(self).needs_sorting
                    ==> final(self).i_map@ == map_of(src)) && (old(self).rows_are_changing ==> {
                    &&& selected_from(out, *df_src, sel, map_srcs(final(self).i_map@))
                    &&& reorders(map_srcs(final(self).i_map@), src)
                    &&& old(self).needs_sorting ==> rows_sorted(
                        *df_src,
                        strings_view(old(self).sort_cols@),
                        old(self).sort_negates@,
                        map_srcs(final(self).i_map@),
                    )
                }) && (!old(self).rows_are_changing ==> selected_from(
                    out,
                    *df_src,
                    sel,
                    Seq::new(df_src.n_row as nat, |i: int| i),
                )))
            }),
            final(self).same_filter(*old(self)),
            final(self).same_select(*old(self)),
            final(self).same_sort(*old(self)),
            final(self).same_group(*old(self)),
            final(self).needs_filtering == old(self).needs_filtering,
            final(self).needs_sorting == old(self).needs_sorting,
            final(self).rows_are_changing == old(self).rows_are_changing,
    {
        let ghost src = src_rows(self.kept_rows@, self.needs_filtering, df_src.n_row as nat);
        if self.rows_are_changing {
            self.set_i_map(df_src);
            proof {
                assert(map_srcs(self.i_map@) =~= src);
                assert(self.i_map@ =~= map_of(src));
                if self.needs_filtering {
                    lemma_kept_positions(self.kept_rows@.take(df_src.n_row as int));
                }
                assert forall|k: int| 0 <= k < self.i_map@.len() implies (#[trigger] self.i_map@[k]).0 < df_src.n_row by {
                    assert(map_srcs(self.i_map@)[k] == src[k]);
                }
            }
            if self.i_map.len() > 0 && self.needs_sorting {
                let ghost m0 = self.i_map@;
                match self.sort_i_map(df_src) {
                    Ok(()) => {
                        proof {
                            lemma_reorders_srcs(self.i_map@, m0);
                        }
                    },
                    Err(e) => {
                        return Err(e);
                    },
                }
            } else {
                proof {
                    lemma_reorders_refl(src);
                    assert(src.len() == self.i_map@.len());
                }
            }
            let rows = self.map_rows();
            proof {
                assert(rows@.map_values(|r: usize| r as int) =~= map_srcs(self.i_map@));
                let pm = choose|p: Seq<usize>|
                    is_permutation(p, src.len()) && map_srcs(self.i_map@).len() == src.len() && forall|k: int|
                        0 <= k < map_srcs(self.i_map@).len() ==> #[trigger] map_srcs(self.i_map@)[k] == src[p[k] as int];
                assert forall|r: int| 0 <= r < rows@.len() implies #[trigger] rows@[r] < df_src.n_row by {
                    assert(map_srcs(self.i_map@)[r] == src[pm[r] as int]);
                    if self.needs_filtering {
                        lemma_kept_positions(self.kept_rows@.take(df_src.n_row as int));
                    }
                }
            }
            let out = df_src.select_at(&self.select_cols, &rows, rows.len() > 0);
            Ok(out)
        } else {
            let mut rows: Vec<usize> = Vec::new();
            let mut i: usize = 0;
            while i < df_src.n_row
                invariant
                    i <= df_src.n_row,
                    rows@.len() == i,
                    forall|k: int| 0 <= k < i ==> #[trigger] rows@[k] == k,
                decreases df_src.n_row - i,
            {
                rows.push(i);
                i = i + 1;
            }
            assert(rows@.map_values(|r: usize| r as int) =~= Seq::new(df_src.n_row as nat, |i: int| i));
            let out = df_src.select_at(&self.select_cols, &rows, true);
            Ok(out)
        }
    }
}


/// The sort and group status that a query's result has.
pub open spec fn transferred(s: QueryStatus, q: Query) -> bool {
    &&& s.sort_cols@ == q.sort_cols@
    &&& s.sort_negates@ == q.sort_negates@
    &&& s.is_sorted == (q.sort_cols@.len() > 0)
    &&& s.group_cols@ == (if q.group_cols@.len() == 0 { q.sort_cols@ } else { q.group_cols@ })
    &&& s.is_grouped == (s.group_cols@.len() > 0 || s.is_sorted)
    &&& s.agg_cols@ == q.agg_cols@
    &&& s.is_aggregated == (s.is_grouped && q.agg_cols@.len() > 0)
}

impl QueryStatus {
    /// Transfer the query's sorting and grouping to the status of its result.
    pub fn transfer_sort_group_status(&mut self, qry: &Query)
        ensures
            transferred(*final(self), *qry),
    {
        self.sort_cols = clone_strings(&qry.sort_cols);
        self.sort_negates = clone_bools(&qry.sort_negates);
        self.is_sorted = qry.sort_cols.len() > 0;
        self.group_cols = if qry.group_cols.len() == 0 {
            clone_strings(&qry.sort_cols)
        } else {
            clone_strings(&qry.group_cols)
        };
        self.is_grouped = self.group_cols.len() > 0 || self.is_sorted;
        self.agg_cols = clone_strings(&qry.agg_cols);
        self.is_aggregated = self.is_grouped && qry.agg_cols.len() > 0;
    }
}

/// A query filters a DataFrame with rows when one of its rows was dropped.
pub open spec fn q_filtering(q: Query, df: DataFrame) -> bool {
    df.n_row > 0 && exists|i: int| 0 <= i < q.kept_rows@.len() && !#[trigger] q.kept_rows@[i]
}

/// A query sorts a DataFrame with rows when a sort was asked that the DataFrame
/// does not already satisfy.
pub open spec fn q_sorting(q: Query, df: DataFrame) -> bool {
    df.n_row > 0 && q.is_sorted_query && !q.sorts_match
}

/// The columns a select query returns: those selected, or all.
pub open spec fn q_selected(q: Query, df: DataFrame) -> Seq<Seq<char>> {
    if q.select_cols@.len() == 0 {
        df.names()
    } else {
        strings_view(q.select_cols@)
    }
}

/// The source rows a query keeps, in order.
pub open spec fn q_src(q: Query, df: DataFrame) -> Seq<int> {
    src_rows(q.kept_rows@, q_filtering(q, df), df.n_row as nat)
}

/// The query's rows cannot be sorted: a string column among several sort keys.
pub open spec fn q_sort_fails(q: Query, df: DataFrame) -> bool {
    q_sorting(q, df) && q_src(q, df).len() > 0 && q.sort_cols@.len() > 1 && has_string_col(
        df,
        strings_view(q.sort_cols@),
    )
}

/// What a query may ask of a DataFrame: its selected and sort columns exist, no
/// column is selected twice, and a filter covers every row it drops.
pub open spec fn query_fits(q: Query, df: DataFrame) -> bool {
    &&& all_cols_of(df, strings_view(q.select_cols@))
    &&& all_distinct(strings_view(q.select_cols@))
    &&& all_cols_of(df, strings_view(q.sort_cols@))
    &&& q.sort_negates@.len() == q.sort_cols@.len()
    &&& q.kept_rows@.len() < df.n_row ==> forall|i: int| 0 <= i < q.kept_rows@.len() ==> #[trigger] q.kept_rows@[i]
}

impl Query {
    /// Return a new DataFrame by the filter, sort and select actions of the query:
    /// the selected columns (all when none were selected) at the kept rows, in
    /// source order or sorted by the sort columns. The result records the query's
    /// sort and group state.
    pub fn execute_select_query(self, df_src: &DataFrame) -> (r: Result<DataFrame, DfError>)
        requires
            df_src.wf(),
            query_fits(self, *df_src),
        ensures
            q_sort_fails(self, *df_src) ==> (r matches Err(DfError::StringKey(n)) && df_src.col_of(n@).kind_of()
                == ColKind::Str),
            !q_sort_fails(self, *df_src) ==> (r matches Ok(out) && transferred(out.status, self)
                && out.row_index.is_reset() && exists|rows: Seq<int>|
                {
                    &&& selected_from(out, *df_src, q_selected(self, *df_src), rows)
                    &&& reorders(rows, q_src(self, *df_src))
                    &&& !q_sorting(self, *df_src) ==> rows == q_src(self, *df_src)
                    &&& q_sorting(self, *df_src) ==> rows_sorted(
                        *df_src,
                        strings_view(self.sort_cols@),
                        self.sort_negates@,
                        rows,
                    )
                }),
    {
        let mut q = self;
        q.set_aggregate_status_flags(df_src);
        if q.select_cols.len() == 0 {
            q.select_cols = clone_strings(&df_src.col_names);
        }
        assert(strings_view(q.select_cols@) == q_selected(self, *df_src));
        proof {
            lemma_own_cols(*df_src);
        }
        proof {
            if q.needs_filtering {
                let i = choose|i: int| 0 <= i < self.kept_rows@.len() && !#[trigger] self.kept_rows@[i];
            }
        }
        let ghost q0 = q;
        match q.filter_sort_select(df_src) {
            Ok(mut out) => {
                proof {
                    if q0.rows_are_changing {
                        assert(selected_from(out, *df_src, q_selected(self, *df_src), map_srcs(q.i_map@)));
                        if !q0.needs_sorting {
                            let src = q_src(self, *df_src);
                            assert(src == src_rows(q0.kept_rows@, q0.needs_filtering, df_src.n_row as nat));
                            if q0.needs_filtering {
                                lemma_kept_positions(q0.kept_rows@.take(df_src.n_row as int));
                            }
                            assert forall|k: int| 0 <= k < src.len() implies 0 <= #[trigger] src[k] < df_src.n_row by {}
                            assert(map_srcs(map_of(src)) =~= src);
                        }
                    } else {
                        lemma_reorders_refl(Seq::new(df_src.n_row as nat, |i: int| i));
                        assert(q_src(self, *df_src) =~= Seq::new(df_src.n_row as nat, |i: int| i));
                        assert(selected_from(
                            out,
                            *df_src,
                            q_selected(self, *df_src),
                            Seq::new(df_src.n_row as nat, |i: int| i),
                        ));
                    }
                }
                out.status.transfer_sort_group_status(&q);
                proof {
                    assert(selected_from(out, *df_src, q_selected(self, *df_src), map_srcs(q.i_map@)) || selected_from(
                        out,
                        *df_src,
                        q_selected(self, *df_src),
                        Seq::new(df_src.n_row as nat, |i: int| i),
                    ));
                }
                Ok(out)
            },
            Err(e) => Err(e),
        }
    }
}


/// Every column name of a DataFrame names one of its columns.
pub proof fn lemma_own_cols(df: DataFrame)
    ensures
        all_cols_of(df, df.names()),
{
    assert forall|i: int| 0 <= i < df.names().len() implies df.has_col(#[trigger] df.names()[i]) by {
        lemma_first_index(df.names(), df.names()[i]);
    }
}


impl DataFrame {
    /// The positions of the named key columns. A string column may be a key only
    /// when strings are allowed and it is the single key column.
    pub fn key_positions(&self, names: &Vec<String>, strings_ok: bool) -> (r: Result<Vec<usize>, DfError>)
        requires
            self.wf(),
            all_cols_of(*self, strings_view(names@)),
        ensures
            ({
                let nv = strings_view(names@);
                let bad = has_string_col(*self, nv) && (!strings_ok || names@.len() > 1);
                &&& bad ==> (r matches Err(DfError::StringKey(n)) && self.col_of(n@).kind_of() == ColKind::Str
                    && nv.contains(n@))
                &&& !bad ==> (r matches Ok(p) && p@.len() == names@.len() && (forall|i: int|
                    0 <= i < p@.len() ==> (#[trigger] p@[i]) as int == self.col_pos(nv[i]) && p@[i]
                        < self.columns@.len()) && cols_at(*self, p@) == cols_named(*self, nv))
            }),
    {
        let ghost nv = strings_view(names@);
        let n = names.len();
        let mut pos: Vec<usize> = Vec::new();
        let mut j: usize = 0;
        while j < n
            invariant
                self.wf(),
                n == names@.len(),
                nv == strings_view(names@),
                all_cols_of(*self, nv),
                j <= n,
                pos@.len() == j,
                forall|i: int| 0 <= i < j ==> (#[trigger] pos@[i]) as int == self.col_pos(nv[i]) && pos@[i]
                    < self.columns@.len(),
                (!strings_ok || n > 1) ==> forall|i: int| 0 <= i < j ==> (#[trigger] self.col_of(nv[i])).kind_of()
                    != ColKind::Str,
            decreases n - j,
        {
            assert(self.has_col(nv[j as int]));
            let p = match self.find_col(names[j].as_str()) {
                Some(p) => p,
                None => vstd::pervasive::unreached(),
            };
            if (!strings_ok || n > 1) && self.columns[p].kind() == ColKind::Str {
                assert(nv[j as int] == names@[j as int]@);
                return Err(DfError::StringKey(names[j].clone()));
            }
            pos.push(p);
            j = j + 1;
        }
        assert(cols_at(*self, pos@) =~= cols_named(*self, nv));
        Ok(pos)
    }
}

} // verus!
