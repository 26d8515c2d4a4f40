//! Joins: merging two or more DataFrames by the values of key columns, as inner,
//! left and outer joins, by a sort-merge join (sorted output) or a hash-style join
//! (output in the order of the left rows).
use vstd::prelude::*;
use crate::data_frame::column::{Column, ColKind, CellValue, strings_view, na_cell};
use crate::data_frame::factor::{first_index, find_label, lemma_first_index};
use crate::data_frame::frame::{DataFrame, DfError};
use crate::data_frame::status::contains_string;
use crate::data_frame::factor::{all_distinct, clone_strings};
use crate::data_frame::key::{lex_le, key_lt, key_eq, lemma_lex_trichotomy, lemma_lex_transitive};
use crate::data_frame::rowkey::{row_key, cols_at};
use crate::data_frame::group::{no_negates, falses};
use crate::data_frame::query::{
    Query, all_cols_of, cols_named, map_srcs, reorders, rows_sorted, src_rows, has_string_col,
    lemma_kept_positions, lemma_reorders_refl, kept_names,
};
use crate::data_frame::join_rows::{
    join_pairs, unmatched_right, with_left, right_only, right_rows, pairs_view, keys_of, keys_sorted,
    hash_join_pairs, merge_join_pairs, pairs_in_bounds, pair_view, rows_keys_ascend,
};

verus! {

/// The supported join types. `Pending` is the initial, undefined state.
#[derive(PartialEq, Eq, Structural, Clone, Copy, Debug)]
pub enum JoinType {
    Pending,
    Left,
    Inner,
    Outer,
}

/// Why a join's configuration was refused.
#[derive(PartialEq, Eq, Structural, Clone, Copy, Debug)]
pub enum JoinError {
    /// A join needs at least two DataFrames.
    TooFewDataFrames,
    /// A join supports one to eight key columns: it was given more.
    TooManyKeyColumns,
    /// A join supports one to eight key columns: it was given none.
    NoKeyColumns,
    /// Outer joins are supported only on sorted joins.
    OuterUnsorted,
    /// A key column is missing from the DataFrame at this position (counted from 1).
    KeyColumnMissing(usize),
    /// A selected non-key column of the DataFrame at this position (counted from 1)
    /// is a key column.
    NonKeyIsKey(usize),
    /// A selected non-key column is selected from more than one DataFrame.
    NonKeyShared,
}

/// The Join record carries the metadata of a join: the number of DataFrames,
/// whether they are filtered and sorted, the join type, the key columns, and for
/// each DataFrame all its columns, its selected non-key columns and its output
/// columns.
pub struct Join {
    pub n_dfs: usize,
    pub filtered: bool,
    pub sorted: bool,
    pub join_type: JoinType,
    pub all_left: bool,
    pub all_right: bool,
    pub key_cols: Vec<String>,
    pub cols_all: Vec<Vec<String>>,
    pub cols_non_key: Vec<Vec<String>>,
    pub cols_out: Vec<Vec<String>>,
    pub n_rows_r: usize,
}

/// Some text of `b` does not occur in `a`.
pub open spec fn lacks_some(a: Seq<Seq<char>>, b: Seq<Seq<char>>) -> bool {
    exists|i: int| 0 <= i < b.len() && first_index(a, #[trigger] b[i]) < 0
}

/// Some text of `a` occurs in `b`.
pub open spec fn shares_some(a: Seq<Seq<char>>, b: Seq<Seq<char>>) -> bool {
    exists|i: int| 0 <= i < a.len() && first_index(b, #[trigger] a[i]) >= 0
}

/// The texts of a vector of string vectors.
pub open spec fn string_lists(v: Seq<Vec<String>>) -> Seq<Seq<Seq<char>>> {
    v.map_values(|x: Vec<String>| strings_view(x@))
}

/// All texts of the first `n` lists, one list after another.
pub open spec fn lists_before(v: Seq<Seq<Seq<char>>>, n: int) -> Seq<Seq<char>>
    decreases n,
{
    if n <= 0 {
        Seq::empty()
    } else {
        lists_before(v, n - 1) + v[n - 1]
    }
}

/// The first error in a join configuration, checking the DataFrames in order, or
/// none.
pub open spec fn config_error(
    n_dfs: nat,
    n_keys: nat,
    sorted: bool,
    join_type: JoinType,
    keys: Seq<Seq<char>>,
    all: Seq<Seq<Seq<char>>>,
    non_key: Seq<Seq<Seq<char>>>,
) -> Option<JoinError> {
    if n_dfs < 2 {
        Some(JoinError::TooFewDataFrames)
    } else if n_keys == 0 {
        Some(JoinError::NoKeyColumns)
    } else if n_keys > 8 {
        Some(JoinError::TooManyKeyColumns)
    } else if !sorted && join_type == JoinType::Outer {
        Some(JoinError::OuterUnsorted)
    } else {
        df_error(n_dfs, keys, all, non_key, 0)
    }
}

/// The first error among the DataFrames from position `i` on, or none.
pub open spec fn df_error(
    n_dfs: nat,
    keys: Seq<Seq<char>>,
    all: Seq<Seq<Seq<char>>>,
    non_key: Seq<Seq<Seq<char>>>,
    i: int,
) -> Option<JoinError>
    decreases n_dfs - i,
{
    if i < 0 || i >= n_dfs {
        None
    } else if lacks_some(all[i], keys) {
        Some(JoinError::KeyColumnMissing((i + 1) as usize))
    } else if shares_some(non_key[i], keys) {
        Some(JoinError::NonKeyIsKey((i + 1) as usize))
    } else if shares_some(non_key[i], lists_before(non_key, i)) {
        Some(JoinError::NonKeyShared)
    } else {
        df_error(n_dfs, keys, all, non_key, i + 1)
    }
}

impl Join {
    /// Create a new Join of two DataFrames, unfiltered, unsorted, of pending type.
    pub fn new() -> (j: Self)
        ensures
            j.n_dfs == 2,
            !j.filtered,
            !j.sorted,
            j.join_type == JoinType::Pending,
            !j.all_left,
            !j.all_right,
            j.key_cols@.len() == 0,
            j.cols_all@.len() == 0,
            j.cols_non_key@.len() == 0,
            j.cols_out@.len() == 0,
            j.n_rows_r == 0,
    {
        Join {
            n_dfs: 2,
            filtered: false,
            sorted: false,
            join_type: JoinType::Pending,
            all_left: false,
            all_right: false,
            key_cols: Vec::new(),
            cols_all: Vec::new(),
            cols_non_key: Vec::new(),
            cols_out: Vec::new(),
            n_rows_r: 0,
        }
    }

    /// Set the join type: left and outer joins keep all left rows, outer joins
    /// keep all right rows too.
    pub fn set_join_type(&mut self, join_type: JoinType)
        ensures
            final(self).join_type == join_type,
            final(self).all_left == (join_type == JoinType::Outer || join_type == JoinType::Left),
            final(self).all_right == (join_type == JoinType::Outer),
            final(self).n_dfs == old(self).n_dfs,
            final(self).filtered == old(self).filtered,
            final(self).sorted == old(self).sorted,
            final(self).key_cols@ == old(self).key_cols@,
            final(self).cols_all@ == old(self).cols_all@,
            final(self).cols_non_key@ == old(self).cols_non_key@,
            final(self).cols_out@ == old(self).cols_out@,
            final(self).n_rows_r == old(self).n_rows_r,
    {
        self.join_type = join_type;
        self.all_left = join_type == JoinType::Outer || join_type == JoinType::Left;
        self.all_right = join_type == JoinType::Outer;
    }

    /// Whether some element of `b` is missing from `a`.
    pub fn a_lacks_b_element(a: &Vec<String>, b: &Vec<String>) -> (r: bool)
        ensures
            r == lacks_some(strings_view(a@), strings_view(b@)),
    {
        let mut i: usize = 0;
        while i < b.len()
            invariant
                i <= b@.len(),
                forall|k: int| 0 <= k < i ==> first_index(strings_view(a@), #[trigger] strings_view(b@)[k]) >= 0,
            decreases b@.len() - i,
        {
            assert(strings_view(b@)[i as int] == b@[i as int]@);
            if find_label(a, &b[i]).is_none() {
                return true;
            }
            i = i + 1;
        }
        false
    }

    /// Whether some element of `a` occurs in `b`.
    pub fn has_shared_values(a: &Vec<String>, b: &Vec<String>) -> (r: bool)
        ensures
            r == shares_some(strings_view(a@), strings_view(b@)),
    {
        let mut i: usize = 0;
        while i < a.len()
            invariant
                i <= a@.len(),
                forall|k: int| 0 <= k < i ==> first_index(strings_view(b@), #[trigger] strings_view(a@)[k]) < 0,
            decreases a@.len() - i,
        {
            assert(strings_view(a@)[i as int] == a@[i as int]@);
            if find_label(b, &a[i]).is_some() {
                return true;
            }
            i = i + 1;
        }
        false
    }

    /// Check the join configuration: at least two DataFrames, one to eight key
    /// columns, no unsorted outer join; every DataFrame has every key column, and
    /// its selected non-key columns are neither key columns nor selected from an
    /// earlier DataFrame.
    pub fn check_config(&self) -> (r: Result<(), JoinError>)
        requires
            self.cols_all@.len() >= self.n_dfs,
            self.cols_non_key@.len() >= self.n_dfs,
        ensures
            ({
                let ce = config_error(
                    self.n_dfs as nat,
                    self.key_cols@.len(),
                    self.sorted,
                    self.join_type,
                    strings_view(self.key_cols@),
                    string_lists(self.cols_all@),
                    string_lists(self.cols_non_key@),
                );
                match r {
                    Ok(_) => ce is None,
                    Err(e) => ce == Some(e),
                }
            }),
    {
        let ghost keys = strings_view(self.key_cols@);
        let ghost all = string_lists(self.cols_all@);
        let ghost nk = string_lists(self.cols_non_key@);
        if self.n_dfs < 2 {
            return Err(JoinError::TooFewDataFrames);
        }
        if self.key_cols.len() == 0 {
            return Err(JoinError::NoKeyColumns);
        }
        if self.key_cols.len() > 8 {
            return Err(JoinError::TooManyKeyColumns);
        }
        if !self.sorted && self.join_type == JoinType::Outer {
            return Err(JoinError::OuterUnsorted);
        }
        let mut non_key_cols: Vec<String> = Vec::new();
        let mut i: usize = 0;
        while i < self.n_dfs
            invariant
                self.cols_all@.len() >= self.n_dfs,
                self.cols_non_key@.len() >= self.n_dfs,
                self.n_dfs >= 2,
                0 < self.key_cols@.len() <= 8,
                !(!self.sorted && self.join_type == JoinType::Outer),
                keys == strings_view(self.key_cols@),
                all == string_lists(self.cols_all@),
                nk == string_lists(self.cols_non_key@),
                i <= self.n_dfs,
                strings_view(non_key_cols@) == lists_before(nk, i as int),
                df_error(self.n_dfs as nat, keys, all, nk, 0) == df_error(self.n_dfs as nat, keys, all, nk, i as int),
            decreases self.n_dfs - i,
        {
            assert(all[i as int] == strings_view(self.cols_all@[i as int]@));
            assert(nk[i as int] == strings_view(self.cols_non_key@[i as int]@));
            if Join::a_lacks_b_element(&self.cols_all[i], &self.key_cols) {
                assert(df_error(self.n_dfs as nat, keys, all, nk, i as int) == Some(
                    JoinError::KeyColumnMissing((i + 1) as usize),
                ));
                return Err(JoinError::KeyColumnMissing(i + 1));
            }
            if Join::has_shared_values(&self.cols_non_key[i], &self.key_cols) {
                assert(df_error(self.n_dfs as nat, keys, all, nk, i as int) == Some(
                    JoinError::NonKeyIsKey((i + 1) as usize),
                ));
                return Err(JoinError::NonKeyIsKey(i + 1));
            }
            if Join::has_shared_values(&self.cols_non_key[i], &non_key_cols) {
                assert(df_error(self.n_dfs as nat, keys, all, nk, i as int) == Some(JoinError::NonKeyShared));
                return Err(JoinError::NonKeyShared);
            }
            let mut k: usize = 0;
            let ghost before = strings_view(non_key_cols@);
            while k < self.cols_non_key[i].len()
                invariant
                    i < self.cols_non_key@.len(),
                    k <= self.cols_non_key@[i as int]@.len(),
                    strings_view(non_key_cols@) == before + strings_view(self.cols_non_key@[i as int]@).take(k as int),
                decreases self.cols_non_key@[i as int]@.len() - k,
            {
                let ghost sv = strings_view(self.cols_non_key@[i as int]@);
                let ghost prev = strings_view(non_key_cols@);
                non_key_cols.push(self.cols_non_key[i][k].clone());
                assert(strings_view(non_key_cols@) =~= prev.push(sv[k as int]));
                assert(sv.take(k + 1) =~= sv.take(k as int).push(sv[k as int]));
                assert(strings_view(non_key_cols@) =~= before + sv.take(k + 1));
                k = k + 1;
            }
            assert(strings_view(self.cols_non_key@[i as int]@).take(
                self.cols_non_key@[i as int]@.len() as int,
            ) =~= strings_view(self.cols_non_key@[i as int]@));
            i = i + 1;
        }
        Ok(())
    }
}


/// The cell pushed for a column named `n` of kind `kind` when the column takes
/// its value from the left row (`in_l`) or else from the right row; NA where that
/// row is absent.
pub open spec fn pushed_cell(
    df_l: DataFrame,
    df_r: DataFrame,
    n: Seq<char>,
    in_l: bool,
    kind: ColKind,
    src_l: Option<usize>,
    src_r: Option<usize>,
) -> CellValue {
    if in_l {
        match src_l {
            Some(l) => df_l.col_of(n).cells()[l as int],
            None => na_cell(kind),
        }
    } else {
        match src_r {
            Some(r) => df_r.col_of(n).cells()[r as int],
            None => na_cell(kind),
        }
    }
}

/// Every column of `df_j` is named in `cols_l` or in `cols_r`, and the source
/// of each, where present, has that column with the same kind.
pub open spec fn push_fits(
    df_l: DataFrame,
    df_r: DataFrame,
    df_j: DataFrame,
    cols_l: Seq<Seq<char>>,
    cols_r: Seq<Seq<char>>,
    src_l: Option<usize>,
    src_r: Option<usize>,
) -> bool {
    &&& forall|j: int|
        0 <= j < df_j.columns@.len() ==> {
            let n = #[trigger] df_j.names()[j];
            &&& first_index(cols_l, n) >= 0 || first_index(cols_r, n) >= 0
            &&& first_index(cols_l, n) >= 0 && src_l is Some ==> df_l.has_col(n) && df_l.col_of(n).kind_of()
                == df_j.columns@[j].kind_of()
            &&& first_index(cols_l, n) < 0 && src_r is Some ==> df_r.has_col(n) && df_r.col_of(n).kind_of()
                == df_j.columns@[j].kind_of()
        }
    &&& src_l matches Some(l) ==> l < df_l.n_row
    &&& src_r matches Some(r) ==> r < df_r.n_row
}

impl Join {
    /// Push one row to a join's output: each column named in `cols_l` takes the
    /// cell of the left row, each other column the cell of the right row, NA where
    /// that row is absent.
    pub fn push_join_row(
        df_l: &DataFrame,
        df_r: &DataFrame,
        df_j: &mut DataFrame,
        cols_l: &Vec<String>,
        cols_r: &Vec<String>,
        src_i_l: Option<usize>,
        src_i_r: Option<usize>,
    )
        requires
            df_l.wf(),
            df_r.wf(),
            old(df_j).wf(),
            old(df_j).n_row < usize::MAX,
            push_fits(*df_l, *df_r, *old(df_j), strings_view(cols_l@), strings_view(cols_r@), src_i_l, src_i_r),
        ensures
            final(df_j).wf(),
            final(df_j).n_row == old(df_j).n_row + 1,
            final(df_j).col_names@ == old(df_j).col_names@,
            final(df_j).columns@.len() == old(df_j).columns@.len(),
            forall|j: int|
                0 <= j < old(df_j).columns@.len() ==> {
                    let c = #[trigger] final(df_j).columns@[j];
                    let o = old(df_j).columns@[j];
                    &&& c.kind_of() == o.kind_of()
                    &&& c.cells() == o.cells().push(
                        pushed_cell(
                            *df_l,
                            *df_r,
                            old(df_j).names()[j],
                            first_index(strings_view(cols_l@), old(df_j).names()[j]) >= 0,
                            o.kind_of(),
                            src_i_l,
                            src_i_r,
                        ),
                    )
                    &&& c.labels_view() == o.labels_view()
                    &&& c.levels_of() == o.levels_of()
                },
            final(df_j).status == old(df_j).status,
            final(df_j).row_index == old(df_j).row_index,
    {
        let ghost cl = strings_view(cols_l@);
        let n = df_j.columns.len();
        let mut j: usize = 0;
        while j < n
            invariant
                df_l.wf(),
                df_r.wf(),
                cl == strings_view(cols_l@),
                n == old(df_j).columns@.len(),
                old(df_j).wf(),
                push_fits(*df_l, *df_r, *old(df_j), cl, strings_view(cols_r@), src_i_l, src_i_r),
                j <= n,
                df_j.columns@.len() == n,
                df_j.col_names@ == old(df_j).col_names@,
                df_j.n_row == old(df_j).n_row,
                df_j.status == old(df_j).status,
                df_j.row_index == old(df_j).row_index,
                df_j.print_max_rows == old(df_j).print_max_rows,
                df_j.print_max_col_width == old(df_j).print_max_col_width,
                forall|k: int| j <= k < n ==> #[trigger] df_j.columns@[k] == old(df_j).columns@[k],
                forall|k: int|
                    0 <= k < j ==> {
                        let c = #[trigger] df_j.columns@[k];
                        let o = old(df_j).columns@[k];
                        &&& c.kind_of() == o.kind_of()
                        &&& c.cells() == o.cells().push(
                            pushed_cell(
                                *df_l,
                                *df_r,
                                old(df_j).names()[k],
                                first_index(cl, old(df_j).names()[k]) >= 0,
                                o.kind_of(),
                                src_i_l,
                                src_i_r,
                            ),
                        )
                        &&& c.labels_view() == o.labels_view()
                        &&& c.levels_of() == o.levels_of()
                        &&& c.wf() == o.wf()
                    },
            decreases n - j,
        {
            let ghost nm = old(df_j).names()[j as int];
            assert(nm == df_j.col_names@[j as int]@);
            let kind = df_j.columns[j].kind();
            let in_l = contains_string(cols_l, &df_j.col_names[j]);
            let cell: CellValue = if in_l {
                match src_i_l {
                    Some(l) => {
                        let p = match df_l.find_col(df_j.col_names[j].as_str()) {
                            Some(p) => p,
                            None => vstd::pervasive::unreached(),
                        };
                        assert(df_l.columns@[p as int].cells().len() == df_l.n_row);
                        df_l.columns[p].cell_at(l)
                    },
                    None => CellValue::na(kind),
                }
            } else {
                match src_i_r {
                    Some(r) => {
                        let p = match df_r.find_col(df_j.col_names[j].as_str()) {
                            Some(p) => p,
                            None => vstd::pervasive::unreached(),
                        };
                        assert(df_r.columns@[p as int].cells().len() == df_r.n_row);
                        df_r.columns[p].cell_at(r)
                    },
                    None => CellValue::na(kind),
                }
            };
            proof {
                if in_l {
                    if let Some(l) = src_i_l {
                        crate::data_frame::rowkey::lemma_cell_kind(df_l.col_of(nm), l as int);
                    }
                } else {
                    if let Some(r) = src_i_r {
                        crate::data_frame::rowkey::lemma_cell_kind(df_r.col_of(nm), r as int);
                    }
                }
            }
            let mut col = df_j.columns.remove(j);
            col.push_cell(cell);
            df_j.columns.insert(j, col);
            j = j + 1;
        }
        df_j.n_row = df_j.n_row + 1;
        proof {
            assert forall|k: int| 0 <= k < df_j.columns@.len() implies (#[trigger] df_j.columns@[k]).cells().len()
                == df_j.n_row && df_j.columns@[k].wf() by {
                assert(old(df_j).columns@[k].cells().len() == old(df_j).n_row);
                assert(old(df_j).columns@[k].wf());
            }
            assert(df_j.names() == old(df_j).names());
        }
    }
}


/// The key of a row over the columns at `pos`, all ascending.
pub open spec fn key_of_row(df: DataFrame, pos: Seq<usize>, r: int) -> Seq<u8> {
    row_key(cols_at(df, pos), no_negates(pos.len()), r)
}

/// The keys of the rows of a DataFrame over the named key columns, in the
/// order given.
pub open spec fn row_keys_of(df: DataFrame, keys: Seq<Seq<char>>, rows: Seq<int>) -> Seq<Seq<u8>> {
    rows.map_values(|r: int| row_key(cols_named(df, keys), no_negates(keys.len()), r))
}

/// The keys of the source rows of a row map, in order.
fn keys_in_order(df: &DataFrame, pos: &Vec<usize>, m: &Vec<(usize, usize, usize)>) -> (ks: Vec<Vec<u8>>)
    requires
        df.wf(),
        forall|i: int| 0 <= i < pos@.len() ==> #[trigger] pos@[i] < df.columns@.len(),
        forall|k: int| 0 <= k < m@.len() ==> (#[trigger] m@[k]).0 < df.n_row,
    ensures
        keys_of(ks@) == map_srcs(m@).map_values(|r: int| key_of_row(*df, pos@, r)),
{
    let negs = falses(pos.len());
    let mut ks: Vec<Vec<u8>> = Vec::new();
    let mut k: usize = 0;
    while k < m.len()
        invariant
            df.wf(),
            forall|i: int| 0 <= i < pos@.len() ==> #[trigger] pos@[i] < df.columns@.len(),
            forall|i: int| 0 <= i < m@.len() ==> (#[trigger] m@[i]).0 < df.n_row,
            negs@ == no_negates(pos@.len() as nat),
            k <= m@.len(),
            ks@.len() == k,
            forall|i: int| 0 <= i < k ==> (#[trigger] ks@[i])@ == key_of_row(*df, pos@, m@[i].0 as int),
        decreases m@.len() - k,
    {
        let key = df.row_key_at(pos, &negs, m[k].0);
        assert(cols_at(*df, pos@).len() == pos@.len());
        ks.push(key);
        k = k + 1;
    }
    assert(keys_of(ks@) =~= map_srcs(m@).map_values(|r: int| key_of_row(*df, pos@, r)));
    ks
}

/// Whether keys ascend.
fn keys_ascend(ks: &Vec<Vec<u8>>) -> (r: bool)
    ensures
        r == keys_sorted(keys_of(ks@)),
{
    let ghost kv = keys_of(ks@);
    let mut k: usize = 1;
    if ks.len() == 0 {
        return true;
    }
    while k < ks.len()
        invariant
            kv == keys_of(ks@),
            1 <= k <= ks@.len(),
            forall|a: int, b: int| 0 <= a < b < k ==> lex_le(#[trigger] kv[a], #[trigger] kv[b]),
        decreases ks@.len() - k,
    {
        assert(kv[k - 1] == ks@[k - 1]@);
        assert(kv[k as int] == ks@[k as int]@);
        if !(key_lt(&ks[k - 1], &ks[k]) || key_eq(&ks[k - 1], &ks[k])) {
            assert(!lex_le(kv[k - 1], kv[k as int]));
            return false;
        }
        proof {
            assert forall|a: int, b: int| 0 <= a < b < k + 1 implies lex_le(#[trigger] kv[a], #[trigger] kv[b]) by {
                if b == k && a < k - 1 {
                    assert(lex_le(kv[a], kv[k - 1]));
                    if kv[a] != kv[k - 1] && kv[k - 1] != kv[b] {
                        lemma_lex_transitive(kv[a], kv[k - 1], kv[b]);
                    }
                }
            }
        }
        k = k + 1;
    }
    true
}

/// The source rows of join output rows given as row map positions.
pub open spec fn src_pair(srcl: Seq<int>, srcr: Seq<int>, p: (Option<int>, Option<int>)) -> (Option<int>, Option<int>) {
    (
        match p.0 { Some(i) => Some(srcl[i]), None => None },
        match p.1 { Some(j) => Some(srcr[j]), None => None },
    )
}

/// The cell of a join output column named `n` of kind `kind` for an output row
/// with the given source rows: a column of the left DataFrame's output columns
/// (`from_left`) takes the left row's cell, or, for a key column of a row with no
/// left row, the right row's; the right DataFrame's columns take the right row's
/// cell; NA where that row is absent.
pub open spec fn join_cell(
    df_l: DataFrame,
    df_r: DataFrame,
    n: Seq<char>,
    from_left: bool,
    is_key: bool,
    kind: ColKind,
    p: (Option<int>, Option<int>),
) -> CellValue {
    if from_left {
        match p.0 {
            Some(l) => df_l.col_of(n).cells()[l],
            None => if is_key {
                match p.1 {
                    Some(r) => df_r.col_of(n).cells()[r],
                    None => na_cell(kind),
                }
            } else {
                na_cell(kind)
            },
        }
    } else {
        match p.1 {
            Some(r) => df_r.col_of(n).cells()[r],
            None => na_cell(kind),
        }
    }
}

/// `df_j` is the join output for the output rows `rows` (as source rows): the
/// left output columns then the right non-key columns, each cell as `join_cell`.
pub open spec fn join_frame(
    df_j: DataFrame,
    df_l: DataFrame,
    df_r: DataFrame,
    keys: Seq<Seq<char>>,
    out_l: Seq<Seq<char>>,
    nk_r: Seq<Seq<char>>,
    rows: Seq<(Option<int>, Option<int>)>,
) -> bool {
    &&& df_j.wf()
    &&& df_j.names() == out_l + nk_r
    &&& df_j.n_row == rows.len()
    &&& forall|j: int|
        0 <= j < out_l.len() ==> {
            let c = #[trigger] df_j.columns@[j];
            &&& c.kind_of() == df_l.col_of(out_l[j]).kind_of()
            &&& forall|k: int|
                0 <= k < rows.len() ==> c.cells()[k] == join_cell(
                    df_l,
                    df_r,
                    out_l[j],
                    true,
                    first_index(keys, out_l[j]) >= 0,
                    c.kind_of(),
                    rows[k],
                )
        }
    &&& forall|j: int|
        0 <= j < nk_r.len() ==> {
            let c = #[trigger] df_j.columns@[out_l.len() + j];
            &&& c.kind_of() == df_r.col_of(nk_r[j]).kind_of()
            &&& forall|k: int|
                0 <= k < rows.len() ==> c.cells()[k] == join_cell(
                    df_l,
                    df_r,
                    nk_r[j],
                    false,
                    false,
                    c.kind_of(),
                    rows[k],
                )
        }
}

/// The output rows of a join, as row map positions, are those of its join type:
/// a hash-style join gives the left join's rows exactly; a sorted join gives them
/// in order among its rows, and an outer join adds the unmatched right rows, in
/// ascending order, among them, so that the keys of all rows ascend.
pub open spec fn join_rows_ok(
    sorted: bool,
    all_left: bool,
    all_right: bool,
    kl: Seq<Seq<u8>>,
    kr: Seq<Seq<u8>>,
    rows: Seq<(Option<int>, Option<int>)>,
) -> bool {
    if sorted {
        &&& with_left(rows) == join_pairs(kl, kr, all_left)
        &&& right_only(rows) == (if all_right { right_rows(unmatched_right(kl, kr)) } else { Seq::empty() })
        &&& rows_keys_ascend(kl, kr, rows)
    } else {
        rows == join_pairs(kl, kr, all_left)
    }
}


/// A text has a first position exactly when it occurs.
proof fn lemma_index_contains(s: Seq<Seq<char>>, x: Seq<char>)
    ensures
        (first_index(s, x) >= 0) == s.contains(x),
{
    lemma_first_index(s, x);
    if first_index(s, x) >= 0 {
        assert(s[first_index(s, x)] == x);
    }
}

/// In names without repeats, a name at one position occurs at no other.
proof fn lemma_distinct_at(s: Seq<Seq<char>>, j: int, k: int)
    requires
        all_distinct(s),
        0 <= j < s.len(),
        0 <= k < s.len(),
        j != k,
    ensures
        s[j] != s[k],
{
    if j < k {
        assert(s[j] != s[k]);
    } else {
        assert(s[k] != s[j]);
    }
}

/// The cell that pushing a join row gives each output column is the join's cell.
proof fn lemma_pushed_join_cell(
    df_l: DataFrame,
    df_r: DataFrame,
    keys: Seq<Seq<char>>,
    nk_l: Seq<Seq<char>>,
    nk_r: Seq<Seq<char>>,
    j: int,
    kind: ColKind,
    src_l: Option<usize>,
    src_r: Option<usize>,
)
    requires
        all_distinct((keys + nk_l) + nk_r),
        0 <= j < keys.len() + nk_l.len() + nk_r.len(),
    ensures
        ({
            let out_l = keys + nk_l;
            let names = out_l + nk_r;
            let cols_l = if src_l is Some { out_l } else { nk_l };
            let p = (
                match src_l { Some(l) => Some(l as int), None => None },
                match src_r { Some(r) => Some(r as int), None => None },
            );
            pushed_cell(df_l, df_r, names[j], first_index(cols_l, names[j]) >= 0, kind, src_l, src_r)
                == join_cell(df_l, df_r, names[j], j < out_l.len(), first_index(keys, names[j]) >= 0, kind, p)
        }),
{
    let out_l = keys + nk_l;
    let names = out_l + nk_r;
    let x = names[j];
    let cols_l = if src_l is Some { out_l } else { nk_l };
    lemma_index_contains(cols_l, x);
    lemma_index_contains(keys, x);
    if j < keys.len() {
        assert(x == keys[j]);
        assert(keys.contains(x));
        assert(out_l[j] == x);
        assert(!nk_l.contains(x)) by {
            if nk_l.contains(x) {
                let k = choose|k: int| 0 <= k < nk_l.len() && nk_l[k] == x;
                assert(names[keys.len() + k] == x);
                lemma_distinct_at(names, j, keys.len() + k);
            }
        }
        if src_l is Some {
            assert(cols_l.contains(x));
        }
    } else if j < out_l.len() {
        assert(x == nk_l[j - keys.len()]);
        assert(nk_l.contains(x));
        assert(out_l.contains(x)) by {
            assert(out_l[j] == x);
        }
        assert(!keys.contains(x)) by {
            if keys.contains(x) {
                let k = choose|k: int| 0 <= k < keys.len() && keys[k] == x;
                assert(names[k] == x);
                lemma_distinct_at(names, j, k);
            }
        }
    } else {
        assert(x == nk_r[j - out_l.len()]);
        assert(!out_l.contains(x)) by {
            if out_l.contains(x) {
                let k = choose|k: int| 0 <= k < out_l.len() && out_l[k] == x;
                assert(names[k] == x);
                lemma_distinct_at(names, j, k);
            }
        }
        assert(!nk_l.contains(x)) by {
            if nk_l.contains(x) {
                let k = choose|k: int| 0 <= k < nk_l.len() && nk_l[k] == x;
                assert(out_l[keys.len() + k] == x);
            }
        }
        assert(!keys.contains(x)) by {
            if keys.contains(x) {
                let k = choose|k: int| 0 <= k < keys.len() && keys[k] == x;
                assert(out_l[k] == x);
            }
        }
    }
}


/// The output rows of a join as source rows, from row map positions.
pub open spec fn src_rows_of_pairs(
    srcl: Seq<int>,
    srcr: Seq<int>,
    rows: Seq<(Option<int>, Option<int>)>,
) -> Seq<(Option<int>, Option<int>)> {
    rows.map_values(|p: (Option<int>, Option<int>)| src_pair(srcl, srcr, p))
}

/// A DataFrame and its query can take part in a join on the given keys.
pub open spec fn join_side_fits(q: Query, df: DataFrame, keys: Seq<Seq<char>>) -> bool {
    &&& df.wf()
    &&& all_cols_of(df, keys)
    &&& strings_view(q.sort_cols@) == keys
    &&& q.sort_negates@ == no_negates(keys.len())
    &&& q.needs_filtering ==> q.kept_rows@.len() >= df.n_row
}

/// What joining the DataFrames at positions `li` and `ri` asks of the join record,
/// the two DataFrames and their queries. The record's `cols_all` slot at `ri` is
/// needed only when the join is not the last, to describe its output there.
pub open spec fn join_fits(
    j: Join,
    df_l: DataFrame,
    df_r: DataFrame,
    q_l: Query,
    q_r: Query,
    li: int,
    ri: int,
    is_last: bool,
) -> bool {
    let keys = strings_view(j.key_cols@);
    let nk_l = strings_view(j.cols_non_key@[li]@);
    let nk_r = strings_view(j.cols_non_key@[ri]@);
    &&& 0 <= li < ri
    &&& ri < j.cols_out@.len()
    &&& ri < j.cols_non_key@.len()
    &&& !is_last ==> ri < j.cols_all@.len()
    &&& join_side_fits(q_l, df_l, keys)
    &&& join_side_fits(q_r, df_r, keys)
    &&& strings_view(j.cols_out@[li]@) == keys + nk_l
    &&& strings_view(j.cols_out@[ri]@) == keys + nk_r
    &&& all_cols_of(df_l, keys + nk_l)
    &&& all_cols_of(df_r, keys + nk_r)
    &&& all_distinct((keys + nk_l) + nk_r)
    &&& forall|k: int| 0 <= k < keys.len() ==> (#[trigger] df_l.col_of(keys[k])).kind_of() == df_r.col_of(keys[k]).kind_of()
}

/// A new DataFrame with no rows and the named columns of two DataFrames, in order.
fn empty_join_frame(df_l: &DataFrame, names_l: &Vec<String>, df_r: &DataFrame, names_r: &Vec<String>) -> (df: DataFrame)
    requires
        df_l.wf(),
        df_r.wf(),
        all_cols_of(*df_l, strings_view(names_l@)),
        all_cols_of(*df_r, strings_view(names_r@)),
        all_distinct(strings_view(names_l@) + strings_view(names_r@)),
    ensures
        df.wf(),
        df.n_row == 0,
        df.names() == strings_view(names_l@) + strings_view(names_r@),
        forall|j: int|
            0 <= j < names_l@.len() ==> (#[trigger] df.columns@[j]).kind_of() == df_l.col_of(strings_view(names_l@)[j]).kind_of(),
        forall|j: int|
            0 <= j < names_r@.len() ==> (#[trigger] df.columns@[names_l@.len() + j]).kind_of() == df_r.col_of(
                strings_view(names_r@)[j],
            ).kind_of(),
        df.status.is_default(),
        df.row_index.is_reset(),
{
    let ghost all = strings_view(names_l@) + strings_view(names_r@);
    let mut df = DataFrame::new();
    let mut j: usize = 0;
    while j < names_l.len()
        invariant
            df_l.wf(),
            all == strings_view(names_l@) + strings_view(names_r@),
            all_distinct(all),
            all_cols_of(*df_l, strings_view(names_l@)),
            j <= names_l@.len(),
            df.wf(),
            df.n_row == 0,
            df.names() == all.take(j as int),
            forall|i: int| 0 <= i < j ==> (#[trigger] df.columns@[i]).kind_of() == df_l.col_of(strings_view(names_l@)[i]).kind_of(),
            df.status.is_default(),
            df.row_index.is_reset(),
        decreases names_l@.len() - j,
    {
        let ghost x = strings_view(names_l@)[j as int];
        assert(df_l.has_col(x));
        let p = match df_l.find_col(names_l[j].as_str()) {
            Some(p) => p,
            None => vstd::pervasive::unreached(),
        };
        let c = Column::empty(df_l.columns[p].kind());
        proof {
            assert(all[j as int] == x);
            assert(all.take(j + 1) =~= all.take(j as int).push(x));
            assert(all_distinct(all.take(j + 1))) by {
                assert forall|a: int, b: int| 0 <= a < b < all.take(j + 1).len() implies #[trigger] all.take(j + 1)[a]
                    != #[trigger] all.take(j + 1)[b] by {
                    assert(all.take(j + 1)[a] == all[a]);
                    assert(all.take(j + 1)[b] == all[b]);
                }
            }
        }
        df.push_column(names_l[j].clone(), c);
        j = j + 1;
    }
    let mut k: usize = 0;
    while k < names_r.len()
        invariant
            df_l.wf(),
            df_r.wf(),
            all == strings_view(names_l@) + strings_view(names_r@),
            all_distinct(all),
            all_cols_of(*df_r, strings_view(names_r@)),
            k <= names_r@.len(),
            df.wf(),
            df.n_row == 0,
            df.names() == all.take(names_l@.len() + k),
            df.columns@.len() == names_l@.len() + k,
            forall|i: int|
                0 <= i < names_l@.len() ==> (#[trigger] df.columns@[i]).kind_of() == df_l.col_of(strings_view(names_l@)[i]).kind_of(),
            forall|i: int|
                0 <= i < k ==> (#[trigger] df.columns@[names_l@.len() + i]).kind_of() == df_r.col_of(
                    strings_view(names_r@)[i],
                ).kind_of(),
            df.status.is_default(),
            df.row_index.is_reset(),
        decreases names_r@.len() - k,
    {
        let ghost x = strings_view(names_r@)[k as int];
        assert(df_r.has_col(x));
        let p = match df_r.find_col(names_r[k].as_str()) {
            Some(p) => p,
            None => vstd::pervasive::unreached(),
        };
        let c = Column::empty(df_r.columns[p].kind());
        proof {
            let t = names_l@.len() + k;
            assert(all[t] == x);
            assert(all.take(t + 1) =~= all.take(t).push(x));
            assert(all_distinct(all.take(t + 1))) by {
                assert forall|a: int, b: int| 0 <= a < b < all.take(t + 1).len() implies #[trigger] all.take(t + 1)[a]
                    != #[trigger] all.take(t + 1)[b] by {
                    assert(all.take(t + 1)[a] == all[a]);
                    assert(all.take(t + 1)[b] == all[b]);
                }
            }
        }
        df.push_column(names_r[k].clone(), c);
        k = k + 1;
    }
    assert(all.take(all.len() as int) =~= all);
    df
}


/// The join's record after joining the DataFrames at positions `li` and `ri`: for
/// a join that is not the last, the slots of `ri` now describe the output.
pub open spec fn join_record_after(old_j: Join, new_j: Join, ri: int, is_last: bool, names: Seq<Seq<char>>) -> bool {
    let keys = strings_view(old_j.key_cols@);
    &&& new_j.n_dfs == old_j.n_dfs
    &&& new_j.filtered == old_j.filtered
    &&& new_j.sorted == old_j.sorted
    &&& new_j.join_type == old_j.join_type
    &&& new_j.all_left == old_j.all_left
    &&& new_j.all_right == old_j.all_right
    &&& new_j.key_cols@ == old_j.key_cols@
    &&& new_j.cols_all@.len() == old_j.cols_all@.len()
    &&& new_j.cols_non_key@.len() == old_j.cols_non_key@.len()
    &&& new_j.cols_out@.len() == old_j.cols_out@.len()
    &&& forall|i: int| 0 <= i < old_j.cols_all@.len() && (i != ri || is_last) ==> #[trigger] new_j.cols_all@[i] == old_j.cols_all@[i]
    &&& forall|i: int|
        0 <= i < old_j.cols_non_key@.len() && (i != ri || is_last) ==> #[trigger] new_j.cols_non_key@[i] == old_j.cols_non_key@[i]
    &&& forall|i: int| 0 <= i < old_j.cols_out@.len() && (i != ri || is_last) ==> #[trigger] new_j.cols_out@[i] == old_j.cols_out@[i]
    &&& !is_last ==> {
        &&& strings_view(new_j.cols_all@[ri]@) == names
        &&& strings_view(new_j.cols_non_key@[ri]@) == kept_names(names, keys)
        &&& strings_view(new_j.cols_out@[ri]@) == keys + kept_names(names, keys)
    }
}

/// Reordering is transitive.
proof fn lemma_reorders_trans(a: Seq<int>, b: Seq<int>, c: Seq<int>)
    requires
        reorders(a, b),
        reorders(b, c),
    ensures
        reorders(a, c),
{
    let p = choose|p: Seq<usize>|
        crate::data_frame::sort::is_permutation(p, b.len()) && a.len() == b.len() && forall|k: int|
            0 <= k < a.len() ==> #[trigger] a[k] == b[p[k] as int];
    let q = choose|q: Seq<usize>|
        crate::data_frame::sort::is_permutation(q, c.len()) && b.len() == c.len() && forall|k: int|
            0 <= k < b.len() ==> #[trigger] b[k] == c[q[k] as int];
    let pq = Seq::new(a.len(), |k: int| q[p[k] as int]);
    assert forall|x: int, y: int| 0 <= x < pq.len() && 0 <= y < pq.len() && x != y implies pq[x] != pq[y] by {
        assert(p[x] != p[y]);
    }
    assert(pq.no_duplicates());
    assert forall|k: int| 0 <= k < pq.len() implies (#[trigger] pq[k]) < c.len() by {
        assert(p[k] < b.len());
    }
    assert forall|k: int| 0 <= k < a.len() implies #[trigger] a[k] == c[pq[k] as int] by {
        assert(a[k] == b[p[k] as int]);
        assert(b[p[k] as int] == c[q[p[k] as int] as int]);
    }
    assert(crate::data_frame::sort::is_permutation(pq, c.len()));
}

/// The source rows of a row map that reorders a query's source rows are rows of
/// the DataFrame.
proof fn lemma_srcs_bound(m: Seq<(usize, usize, usize)>, src: Seq<int>, n: int)
    requires
        reorders(map_srcs(m), src),
        forall|k: int| 0 <= k < src.len() ==> 0 <= #[trigger] src[k] < n,
    ensures
        forall|k: int| 0 <= k < m.len() ==> (#[trigger] m[k]).0 < n,
        forall|k: int| 0 <= k < map_srcs(m).len() ==> 0 <= #[trigger] map_srcs(m)[k] < n,
{
    let ms = map_srcs(m);
    let p = choose|p: Seq<usize>|
        crate::data_frame::sort::is_permutation(p, src.len()) && ms.len() == src.len() && forall|k: int|
            0 <= k < ms.len() ==> #[trigger] ms[k] == src[p[k] as int];
    assert forall|k: int| 0 <= k < m.len() implies (#[trigger] m[k]).0 < n by {
        assert(ms[k] == src[p[k] as int]);
        assert(ms[k] == m[k].0 as int);
    }
    assert forall|k: int| 0 <= k < ms.len() implies 0 <= #[trigger] ms[k] < n by {
        assert(ms[k] == src[p[k] as int]);
    }
}

/// The names that are not keys, in order.
fn non_keys(names: &Vec<String>, keys: &Vec<String>) -> (r: Vec<String>)
    ensures
        strings_view(r@) == kept_names(strings_view(names@), strings_view(keys@)),
{
    let ghost nv = strings_view(names@);
    let ghost kv = strings_view(keys@);
    let mut r: Vec<String> = Vec::new();
    let mut j: usize = 0;
    while j < names.len()
        invariant
            nv == strings_view(names@),
            kv == strings_view(keys@),
            j <= names@.len(),
            strings_view(r@) == kept_names(nv.take(j as int), kv),
        decreases names@.len() - j,
    {
        assert(nv.take(j + 1).drop_last() =~= nv.take(j as int));
        assert(nv.take(j + 1).last() == names@[j as int]@);
        if !contains_string(keys, &names[j]) {
            r.push(names[j].clone());
            assert(strings_view(r@) =~= kept_names(nv.take(j + 1), kv));
        }
        j = j + 1;
    }
    assert(nv.take(nv.len() as int) =~= nv);
    r
}

/// `df_j` is the output of joining `df_l` and `df_r` on `keys`, the left side's
/// rows taken from `src_l` and the right side's from `src_r`: each side's rows
/// are kept in order for a hash-style join and put in key order for a sorted
/// one, matched as the join type asks, and the output holds the left output
/// columns `out_l` and the right non-key columns `nk_r`.
pub open spec fn join_result(
    df_j: DataFrame,
    df_l: DataFrame,
    df_r: DataFrame,
    keys: Seq<Seq<char>>,
    out_l: Seq<Seq<char>>,
    nk_r: Seq<Seq<char>>,
    sorted: bool,
    all_left: bool,
    all_right: bool,
    src_l: Seq<int>,
    src_r: Seq<int>,
) -> bool {
    exists|srcl: Seq<int>, srcr: Seq<int>, rows: Seq<(Option<int>, Option<int>)>|
        #![trigger join_frame(df_j, df_l, df_r, keys, out_l, nk_r, src_rows_of_pairs(srcl, srcr, rows))]
        {
            &&& reorders(srcl, src_l)
            &&& reorders(srcr, src_r)
            &&& !sorted ==> srcl == src_l && srcr == src_r
            &&& sorted ==> keys_sorted(row_keys_of(df_l, keys, srcl)) && keys_sorted(row_keys_of(df_r, keys, srcr))
            &&& join_rows_ok(sorted, all_left, all_right, row_keys_of(df_l, keys, srcl), row_keys_of(df_r, keys, srcr), rows)
            &&& join_frame(df_j, df_l, df_r, keys, out_l, nk_r, src_rows_of_pairs(srcl, srcr, rows))
        }
}

/// A source row position as an integer.
pub open spec fn opt_int(o: Option<usize>) -> Option<int> {
    match o {
        Some(i) => Some(i as int),
        None => None,
    }
}

/// Pushing a join row, with the left output columns taken from the left row when
/// there is one and the key columns taken from the right row otherwise, fits the
/// output built so far.
proof fn lemma_join_push_fits(
    df_l: DataFrame,
    df_r: DataFrame,
    d0: DataFrame,
    keys: Seq<Seq<char>>,
    nk_l: Seq<Seq<char>>,
    nk_r: Seq<Seq<char>>,
    rs: Seq<(Option<int>, Option<int>)>,
    sl: Option<usize>,
    sr: Option<usize>,
)
    requires
        join_frame(d0, df_l, df_r, keys, keys + nk_l, nk_r, rs),
        all_distinct((keys + nk_l) + nk_r),
        all_cols_of(df_l, keys + nk_l),
        all_cols_of(df_r, keys + nk_r),
        forall|x: int| 0 <= x < keys.len() ==> (#[trigger] df_l.col_of(keys[x])).kind_of() == df_r.col_of(keys[x]).kind_of(),
        sl matches Some(l) ==> l < df_l.n_row,
        sr matches Some(r) ==> r < df_r.n_row,
    ensures
        push_fits(df_l, df_r, d0, if sl is Some { keys + nk_l } else { nk_l }, if sl is Some { nk_r } else { keys + nk_r }, sl, sr),
{
    let out_l = keys + nk_l;
    let names = out_l + nk_r;
    let cols_l = if sl is Some { out_l } else { nk_l };
    let cols_r = if sl is Some { nk_r } else { keys + nk_r };
    assert(d0.names().len() == d0.columns@.len());
    assert forall|j: int| 0 <= j < d0.columns@.len() implies {
        let n = #[trigger] d0.names()[j];
        &&& first_index(cols_l, n) >= 0 || first_index(cols_r, n) >= 0
        &&& first_index(cols_l, n) >= 0 && sl is Some ==> df_l.has_col(n) && df_l.col_of(n).kind_of()
            == d0.columns@[j].kind_of()
        &&& first_index(cols_l, n) < 0 && sr is Some ==> df_r.has_col(n) && df_r.col_of(n).kind_of()
            == d0.columns@[j].kind_of()
    } by {
        let n = d0.names()[j];
        assert(n == names[j]);
        lemma_index_contains(cols_l, n);
        lemma_index_contains(cols_r, n);
        if j < keys.len() {
            assert(out_l[j] == n);
            assert(keys[j] == n);
            assert((keys + nk_r)[j] == n);
            assert(df_l.has_col(out_l[j]));
            assert(df_r.has_col((keys + nk_r)[j]));
            assert(df_l.col_of(keys[j]).kind_of() == df_r.col_of(keys[j]).kind_of());
            assert(d0.columns@[j].kind_of() == df_l.col_of(out_l[j]).kind_of());
            if sl is Some {
                assert(cols_l.contains(n));
            } else {
                assert(cols_r.contains(n));
                assert(!nk_l.contains(n)) by {
                    if nk_l.contains(n) {
                        let t = choose|t: int| 0 <= t < nk_l.len() && nk_l[t] == n;
                        assert(names[keys.len() + t] == n);
                        lemma_distinct_at(names, j, keys.len() + t);
                    }
                }
            }
        } else if j < out_l.len() {
            assert(out_l[j] == n);
            assert(nk_l[j - keys.len()] == n);
            assert(df_l.has_col(out_l[j]));
            assert(cols_l.contains(n));
        } else {
            let t = j - out_l.len();
            assert(nk_r[t] == n);
            assert((keys + nk_r)[keys.len() + t] == n);
            assert(df_r.has_col((keys + nk_r)[keys.len() + t]));
            assert(d0.columns@[out_l.len() + t].kind_of() == df_r.col_of(nk_r[t]).kind_of());
            assert(cols_r.contains(n));
            assert(!cols_l.contains(n)) by {
                if cols_l.contains(n) {
                    let u = choose|u: int| 0 <= u < cols_l.len() && cols_l[u] == n;
                    if sl is Some {
                        assert(names[u] == n);
                        lemma_distinct_at(names, j, u);
                    } else {
                        assert(names[keys.len() + u] == n);
                        lemma_distinct_at(names, j, keys.len() + u);
                    }
                }
            }
        }
    }
}

/// After one more row is pushed, the output is the join's output for one more
/// output row.
proof fn lemma_join_frame_step(
    df_l: DataFrame,
    df_r: DataFrame,
    d0: DataFrame,
    d1: DataFrame,
    keys: Seq<Seq<char>>,
    nk_l: Seq<Seq<char>>,
    nk_r: Seq<Seq<char>>,
    rs: Seq<(Option<int>, Option<int>)>,
    sl: Option<usize>,
    sr: Option<usize>,
)
    requires
        join_frame(d0, df_l, df_r, keys, keys + nk_l, nk_r, rs),
        all_distinct((keys + nk_l) + nk_r),
        d1.wf(),
        d1.n_row == d0.n_row + 1,
        d1.col_names@ == d0.col_names@,
        d1.columns@.len() == d0.columns@.len(),
        forall|j: int|
            0 <= j < d0.columns@.len() ==> {
                let c = #[trigger] d1.columns@[j];
                let o = d0.columns@[j];
                &&& c.kind_of() == o.kind_of()
                &&& c.cells() == o.cells().push(
                    pushed_cell(
                        df_l,
                        df_r,
                        d0.names()[j],
                        first_index(if sl is Some { keys + nk_l } else { nk_l }, d0.names()[j]) >= 0,
                        o.kind_of(),
                        sl,
                        sr,
                    ),
                )
            },
    ensures
        join_frame(d1, df_l, df_r, keys, keys + nk_l, nk_r, rs.push((opt_int(sl), opt_int(sr)))),
{
    let out_l = keys + nk_l;
    let names = out_l + nk_r;
    let rs1 = rs.push((opt_int(sl), opt_int(sr)));
    let k = rs.len() as int;
    assert(d1.names() =~= d0.names());
    assert forall|j: int| 0 <= j < out_l.len() implies {
        let c = #[trigger] d1.columns@[j];
        &&& c.kind_of() == df_l.col_of(out_l[j]).kind_of()
        &&& forall|x: int|
            0 <= x < rs1.len() ==> c.cells()[x] == join_cell(
                df_l,
                df_r,
                out_l[j],
                true,
                first_index(keys, out_l[j]) >= 0,
                c.kind_of(),
                rs1[x],
            )
    } by {
        let c = d1.columns@[j];
        let o = d0.columns@[j];
        assert(names[j] == out_l[j]);
        lemma_pushed_join_cell(df_l, df_r, keys, nk_l, nk_r, j, o.kind_of(), sl, sr);
        assert forall|x: int| 0 <= x < rs1.len() implies c.cells()[x] == join_cell(
            df_l,
            df_r,
            out_l[j],
            true,
            first_index(keys, out_l[j]) >= 0,
            c.kind_of(),
            rs1[x],
        ) by {
            if x < k {
                assert(c.cells()[x] == o.cells()[x]);
            }
        }
    }
    assert forall|j: int| 0 <= j < nk_r.len() implies {
        let c = #[trigger] d1.columns@[out_l.len() + j];
        &&& c.kind_of() == df_r.col_of(nk_r[j]).kind_of()
        &&& forall|x: int|
            0 <= x < rs1.len() ==> c.cells()[x] == join_cell(df_l, df_r, nk_r[j], false, false, c.kind_of(), rs1[x])
    } by {
        let t = out_l.len() + j;
        let c = d1.columns@[t];
        let o = d0.columns@[t];
        assert(names[t] == nk_r[j]);
        lemma_pushed_join_cell(df_l, df_r, keys, nk_l, nk_r, t, o.kind_of(), sl, sr);
        assert forall|x: int| 0 <= x < rs1.len() implies c.cells()[x] == join_cell(
            df_l,
            df_r,
            nk_r[j],
            false,
            false,
            c.kind_of(),
            rs1[x],
        ) by {
            if x < k {
                assert(c.cells()[x] == o.cells()[x]);
            }
        }
    }
}

/// A query reset to describe a join output that is already filtered and sorted.
pub open spec fn query_after_join(old_q: Query, new_q: Query) -> bool {
    &&& new_q.sort_cols@ == old_q.sort_cols@
    &&& new_q.sort_negates@ == old_q.sort_negates@
    &&& new_q.kept_rows@.len() == 0
    &&& !new_q.has_been_filtered
    &&& !new_q.needs_filtering
    &&& new_q.sorts_match
    &&& !new_q.needs_sorting
    &&& !new_q.rows_are_changing
    &&& new_q.i_map@.len() == 0
    &&& new_q.row_keys@.len() == 0
}

/// Reset a query to describe a join output that is already filtered and sorted.
fn reset_after_join(q: &mut Query)
    ensures
        query_after_join(*old(q), *final(q)),
{
    q.kept_rows.clear();
    q.has_been_filtered = false;
    q.needs_filtering = false;
    q.sorts_match = true;
    q.needs_sorting = false;
    q.rows_are_changing = false;
    q.i_map.clear();
    q.row_keys.clear();
}

impl Join {
    /// Build a join's output from its output rows, given as positions in the two
    /// row maps: the left output columns, then the right non-key columns.
    fn build_join_output(
        df_l: &DataFrame,
        df_r: &DataFrame,
        key_cols: &Vec<String>,
        out_l_v: &Vec<String>,
        nk_l_v: &Vec<String>,
        out_r_v: &Vec<String>,
        nk_r_v: &Vec<String>,
        map_l: &Vec<(usize, usize, usize)>,
        map_r: &Vec<(usize, usize, usize)>,
        pairs: &Vec<(Option<usize>, Option<usize>)>,
    ) -> (df_j: DataFrame)
        requires
            df_l.wf(),
            df_r.wf(),
            strings_view(out_l_v@) == strings_view(key_cols@) + strings_view(nk_l_v@),
            strings_view(out_r_v@) == strings_view(key_cols@) + strings_view(nk_r_v@),
            all_distinct(strings_view(out_l_v@) + strings_view(nk_r_v@)),
            all_cols_of(*df_l, strings_view(out_l_v@)),
            all_cols_of(*df_r, strings_view(out_r_v@)),
            forall|x: int|
                0 <= x < key_cols@.len() ==> (#[trigger] df_l.col_of(strings_view(key_cols@)[x])).kind_of() == df_r.col_of(
                    strings_view(key_cols@)[x],
                ).kind_of(),
            forall|x: int| 0 <= x < map_l@.len() ==> (#[trigger] map_l@[x]).0 < df_l.n_row,
            forall|x: int| 0 <= x < map_r@.len() ==> (#[trigger] map_r@[x]).0 < df_r.n_row,
            pairs_in_bounds(pairs@, map_l@.len(), map_r@.len()),
        ensures
            join_frame(
                df_j,
                *df_l,
                *df_r,
                strings_view(key_cols@),
                strings_view(out_l_v@),
                strings_view(nk_r_v@),
                src_rows_of_pairs(map_srcs(map_l@), map_srcs(map_r@), pairs_view(pairs@)),
            ),
            df_j.status.is_default(),
    {
        let ghost keys = strings_view(key_cols@);
        let ghost nk_l = strings_view(nk_l_v@);
        let ghost nk_r = strings_view(nk_r_v@);
        let ghost out_l = strings_view(out_l_v@);
        let ghost srcl = map_srcs(map_l@);
        let ghost srcr = map_srcs(map_r@);
        let ghost rows = pairs_view(pairs@);
        proof {
            assert(all_cols_of(*df_r, nk_r)) by {
                assert forall|k: int| 0 <= k < nk_r.len() implies df_r.has_col(#[trigger] nk_r[k]) by {
                    assert((keys + nk_r)[keys.len() + k] == nk_r[k]);
                }
            }
        }
        let mut df_j = empty_join_frame(df_l, out_l_v, df_r, nk_r_v);
        assert(src_rows_of_pairs(srcl, srcr, rows.take(0)) =~= Seq::empty());
        let mut k: usize = 0;
        while k < pairs.len()
            invariant
                df_l.wf(),
                df_r.wf(),
                keys == strings_view(key_cols@),
                out_l == strings_view(out_l_v@),
                nk_l == strings_view(nk_l_v@),
                nk_r == strings_view(nk_r_v@),
                keys + nk_r == strings_view(out_r_v@),
                out_l == keys + nk_l,
                all_distinct(out_l + nk_r),
                all_cols_of(*df_l, out_l),
                all_cols_of(*df_r, keys + nk_r),
                forall|x: int| 0 <= x < keys.len() ==> (#[trigger] df_l.col_of(keys[x])).kind_of() == df_r.col_of(keys[x]).kind_of(),
                srcl == map_srcs(map_l@),
                srcr == map_srcs(map_r@),
                forall|x: int| 0 <= x < map_l@.len() ==> (#[trigger] map_l@[x]).0 < df_l.n_row,
                forall|x: int| 0 <= x < map_r@.len() ==> (#[trigger] map_r@[x]).0 < df_r.n_row,
                rows == pairs_view(pairs@),
                pairs_in_bounds(pairs@, map_l@.len(), map_r@.len()),
                k <= pairs@.len(),
                join_frame(df_j, *df_l, *df_r, keys, out_l, nk_r, src_rows_of_pairs(srcl, srcr, rows.take(k as int))),
                df_j.status.is_default(),
            decreases pairs@.len() - k,
        {
            let (pl, pr) = pairs[k];
            let sl: Option<usize> = match pl {
                Some(i) => Some(map_l[i].0),
                None => None,
            };
            let sr: Option<usize> = match pr {
                Some(j) => Some(map_r[j].0),
                None => None,
            };
            let ghost d0 = df_j;
            let ghost rs = src_rows_of_pairs(srcl, srcr, rows.take(k as int));
            proof {
                lemma_join_push_fits(*df_l, *df_r, d0, keys, nk_l, nk_r, rs, sl, sr);
            }
            if pl.is_some() {
                Join::push_join_row(df_l, df_r, &mut df_j, out_l_v, nk_r_v, sl, sr);
            } else {
                Join::push_join_row(df_l, df_r, &mut df_j, nk_l_v, out_r_v, sl, sr);
            }
            proof {
                lemma_join_frame_step(*df_l, *df_r, d0, df_j, keys, nk_l, nk_r, rs, sl, sr);
                assert(rows[k as int] == pair_view(pairs@[k as int]));
                assert(src_pair(srcl, srcr, rows[k as int]) == (opt_int(sl), opt_int(sr)));
                assert(src_rows_of_pairs(srcl, srcr, rows.take(k + 1)) =~= rs.push((opt_int(sl), opt_int(sr))));
            }
            k = k + 1;
        }
        assert(rows.take(pairs@.len() as int) =~= rows);
        df_j
    }

    /// Set the slots of position `ri` of the join record to describe a join
    /// output with the given column names.
    fn describe_output(&mut self, names: &Vec<String>, ri: usize)
        requires
            ri < old(self).cols_all@.len(),
            ri < old(self).cols_non_key@.len(),
            ri < old(self).cols_out@.len(),
        ensures
            join_record_after(*old(self), *final(self), ri as int, false, strings_view(names@)),
            final(self).n_rows_r == old(self).n_rows_r,
    {
        let all = clone_strings(names);
        let nk = non_keys(names, &self.key_cols);
        let mut out: Vec<String> = clone_strings(&self.key_cols);
        let mut t: usize = 0;
        while t < nk.len()
            invariant
                t <= nk@.len(),
                strings_view(out@) == strings_view(self.key_cols@) + strings_view(nk@).take(t as int),
            decreases nk@.len() - t,
        {
            let ghost o0 = strings_view(out@);
            out.push(nk[t].clone());
            assert(strings_view(out@) =~= o0.push(strings_view(nk@)[t as int]));
            assert(strings_view(nk@).take(t + 1) =~= strings_view(nk@).take(t as int).push(strings_view(nk@)[t as int]));
            t = t + 1;
        }
        assert(strings_view(nk@).take(nk@.len() as int) =~= strings_view(nk@));
        self.cols_all.set(ri, all);
        self.cols_non_key.set(ri, nk);
        self.cols_out.set(ri, out);
    }
}

impl Join {
    /// Join two DataFrames, the left one (at position `df_l_i`, or the output of
    /// the previous join) and the right one (at `df_r_i`): filter each by its
    /// query, sort both by the keys for a sorted join, match rows by key, and
    /// build the output from the left output columns and the right non-key
    /// columns. Unless this is the last join, the right slots of the join record
    /// and query are set to describe the output, which becomes the next left side.
    #[verifier::spinoff_prover]
    #[verifier::rlimit(60)]
    pub fn join_two_dfs(
        &mut self,
        df_l: &DataFrame,
        df_r: &DataFrame,
        qry_l: &mut Query,
        qry_r: &mut Query,
        df_l_i: usize,
        df_r_i: usize,
        is_last: bool,
    ) -> (r: Result<DataFrame, DfError>)
        requires
            join_fits(*old(self), *df_l, *df_r, *old(qry_l), *old(qry_r), df_l_i as int, df_r_i as int, is_last),
        ensures
            ({
                let keys = strings_view(old(self).key_cols@);
                let out_l = strings_view(old(self).cols_out@[df_l_i as int]@);
                let nk_r = strings_view(old(self).cols_non_key@[df_r_i as int]@);
                let src_l = src_rows(old(qry_l).kept_rows@, old(qry_l).needs_filtering, df_l.n_row as nat);
                let src_r = src_rows(old(qry_r).kept_rows@, old(qry_r).needs_filtering, df_r.n_row as nat);
                &&& (r is Err) == (has_string_col(*df_l, keys) || has_string_col(*df_r, keys))
                &&& r matches Ok(df_j) ==> {
                    &&& join_result(
                        df_j,
                        *df_l,
                        *df_r,
                        keys,
                        out_l,
                        nk_r,
                        old(self).sorted,
                        old(self).all_left,
                        old(self).all_right,
                        src_l,
                        src_r,
                    )
                    &&& df_j.wf()
                    &&& df_j.names() == out_l + nk_r
                    &&& forall|x: int|
                        0 <= x < out_l.len() ==> (#[trigger] df_j.columns@[x]).kind_of() == df_l.col_of(out_l[x]).kind_of()
                    &&& df_j.status.is_default()
                    &&& join_record_after(*old(self), *final(self), df_r_i as int, is_last, df_j.names())
                    &&& !is_last ==> query_after_join(*old(qry_r), *final(qry_r))
                }
            }),
    {
        let ghost keys = strings_view(self.key_cols@);
        let ghost nk_l = strings_view(self.cols_non_key@[df_l_i as int]@);
        let ghost nk_r = strings_view(self.cols_non_key@[df_r_i as int]@);
        let ghost out_l = keys + nk_l;
        let ghost src_l = src_rows(qry_l.kept_rows@, qry_l.needs_filtering, df_l.n_row as nat);
        let ghost src_r = src_rows(qry_r.kept_rows@, qry_r.needs_filtering, df_r.n_row as nat);
        proof {
            assert forall|k: int| 0 <= k < keys.len() implies df_l.has_col(#[trigger] keys[k]) by {
                assert((keys + nk_l)[k] == keys[k]);
            }
            assert forall|k: int| 0 <= k < keys.len() implies df_r.has_col(#[trigger] keys[k]) by {
                assert((keys + nk_r)[k] == keys[k]);
            }
            assert(all_cols_of(*df_r, nk_r)) by {
                assert forall|k: int| 0 <= k < nk_r.len() implies df_r.has_col(#[trigger] nk_r[k]) by {
                    assert((keys + nk_r)[keys.len() + k] == nk_r[k]);
                }
            }
        }
        qry_l.set_i_map(df_l);
        qry_r.set_i_map(df_r);
        let n_map_l = qry_l.i_map.len();
        let n_map_r = qry_r.i_map.len();
        proof {
            assert(map_srcs(qry_l.i_map@) =~= src_l);
            assert(map_srcs(qry_r.i_map@) =~= src_r);
            lemma_reorders_refl(src_l);
            lemma_reorders_refl(src_r);
            if qry_l.needs_filtering {
                lemma_kept_positions(qry_l.kept_rows@.take(df_l.n_row as int));
            }
            if qry_r.needs_filtering {
                lemma_kept_positions(qry_r.kept_rows@.take(df_r.n_row as int));
            }
        }
        let pos_l = match df_l.key_positions(&self.key_cols, false) {
            Ok(p) => p,
            Err(e) => {
                return Err(e);
            },
        };
        let pos_r = match df_r.key_positions(&self.key_cols, false) {
            Ok(p) => p,
            Err(e) => {
                return Err(e);
            },
        };
        proof {
            assert(!has_string_col(*df_l, keys));
            assert(!has_string_col(*df_r, keys));
        }
        // sort both sides by the keys for a sorted join
        if self.sorted {
            if df_l_i == 0 {
                let ghost m0 = qry_l.i_map@;
                match qry_l.sort_i_map(df_l) {
                    Ok(()) => {},
                    Err(e) => {
                        return Err(e);
                    },
                }
                proof {
                    crate::data_frame::query::lemma_reorders_srcs(qry_l.i_map@, m0);
                    lemma_reorders_trans(map_srcs(qry_l.i_map@), map_srcs(m0), src_l);
                }
            }
            let ghost m0 = qry_r.i_map@;
            match qry_r.sort_i_map(df_r) {
                Ok(()) => {},
                Err(e) => {
                    return Err(e);
                },
            }
            proof {
                crate::data_frame::query::lemma_reorders_srcs(qry_r.i_map@, m0);
                lemma_reorders_trans(map_srcs(qry_r.i_map@), map_srcs(m0), src_r);
            }
        }
        proof {
            lemma_srcs_bound(qry_l.i_map@, src_l, df_l.n_row as int);
            lemma_srcs_bound(qry_r.i_map@, src_r, df_r.n_row as int);
        }
        let mut kl = keys_in_order(df_l, &pos_l, &qry_l.i_map);
        let kr = keys_in_order(df_r, &pos_r, &qry_r.i_map);
        if self.sorted && df_l_i > 0 && !keys_ascend(&kl) {
            let ghost m0 = qry_l.i_map@;
            match qry_l.sort_i_map(df_l) {
                Ok(()) => {},
                Err(e) => {
                    return Err(e);
                },
            }
            proof {
                crate::data_frame::query::lemma_reorders_srcs(qry_l.i_map@, m0);
                lemma_reorders_trans(map_srcs(qry_l.i_map@), map_srcs(m0), src_l);
                lemma_srcs_bound(qry_l.i_map@, src_l, df_l.n_row as int);
            }
            kl = keys_in_order(df_l, &pos_l, &qry_l.i_map);
        }
        let ghost srcl = map_srcs(qry_l.i_map@);
        let ghost srcr = map_srcs(qry_r.i_map@);
        proof {
            assert(keys_of(kl@) =~= row_keys_of(*df_l, keys, srcl));
            assert(keys_of(kr@) =~= row_keys_of(*df_r, keys, srcr));
        }
        let pairs = if self.sorted {
            merge_join_pairs(&kl, &kr, self.all_left, self.all_right)
        } else {
            hash_join_pairs(&kl, &kr, self.all_left)
        };
        let ghost rows = pairs_view(pairs@);
        // build the output row by row
        let df_j = Join::build_join_output(
            df_l,
            df_r,
            &self.key_cols,
            &self.cols_out[df_l_i],
            &self.cols_non_key[df_l_i],
            &self.cols_out[df_r_i],
            &self.cols_non_key[df_r_i],
            &qry_l.i_map,
            &qry_r.i_map,
            &pairs,
        );
        self.n_rows_r = qry_r.i_map.len();
        if !is_last {
            self.describe_output(&df_j.col_names, df_r_i);
            reset_after_join(qry_r);
        }
        proof {
            let rs = src_rows_of_pairs(srcl, srcr, rows);
            assert(join_frame(df_j, *df_l, *df_r, keys, out_l, nk_r, rs));
            if self.sorted {
                assert(keys_sorted(row_keys_of(*df_l, keys, srcl)));
                assert(rows_keys_ascend(row_keys_of(*df_l, keys, srcl), row_keys_of(*df_r, keys, srcr), rows));
            } else {
                assert(srcl == src_l);
                assert(srcr == src_r);
            }
        }
        Ok(df_j)
    }
}

} // verus!
