//! Building a row index on key columns, and retrieving the rows that match a key.
use vstd::prelude::*;
use crate::data_frame::column::strings_view;
use crate::data_frame::frame::{DataFrame, DfError};
use crate::data_frame::index::{RowIndex, RowIndexType};
use crate::data_frame::query::{Query, all_cols_of, cols_named, has_string_col};
use crate::data_frame::rowkey::{row_key, cols_at};
use crate::data_frame::group::{no_negates, falses};
use crate::data_frame::key::{lex_lt, lex_le, key_lt, key_eq, lemma_lex_trichotomy, lemma_lex_transitive};
use crate::data_frame::join_rows::{keys_of, keys_sorted};
use crate::data_frame::access::DataFrameSlice;
use crate::data_frame::status::contains_string;

verus! {

/// The key of each row over the key columns, in row order.
pub open spec fn index_keys(df: DataFrame, keys: Seq<Seq<char>>) -> Seq<Seq<u8>> {
    Seq::new(df.n_row as nat, |r: int| row_key(cols_named(df, keys), no_negates(keys.len()), r))
}

/// The runs of equal adjacent keys: each run's key, first position and length.
pub open spec fn key_runs(ks: Seq<Seq<u8>>) -> Seq<(Seq<u8>, int, int)>
    decreases ks.len(),
{
    if ks.len() == 0 {
        Seq::empty()
    } else {
        let prev = key_runs(ks.drop_last());
        if prev.len() > 0 && prev.last().0 == ks.last() {
            prev.update(prev.len() - 1, (ks.last(), prev.last().1, prev.last().2 + 1))
        } else {
            prev.push((ks.last(), ks.len() - 1, 1))
        }
    }
}

/// The runs of a stored index, as keys and integers.
pub open spec fn runs_view(m: Seq<(Vec<u8>, (usize, usize))>) -> Seq<(Seq<u8>, int, int)> {
    m.map_values(|e: (Vec<u8>, (usize, usize))| (e.0@, e.1.0 as int, e.1.1 as int))
}

/// The position of the first run with a key, or -1.
pub open spec fn first_run(runs: Seq<(Seq<u8>, int, int)>, k: Seq<u8>) -> int
    decreases runs.len(),
{
    if runs.len() == 0 {
        -1
    } else if first_run(runs.drop_last(), k) >= 0 {
        first_run(runs.drop_last(), k)
    } else if runs.last().0 == k {
        runs.len() - 1
    } else {
        -1
    }
}

/// Equal keys are adjacent: a key that occurs twice occurs in between.
pub open spec fn keys_grouped(ks: Seq<Seq<u8>>) -> bool {
    forall|a: int, b: int, c: int|
        #![trigger ks[a], ks[b], ks[c]]
        0 <= a < b < c < ks.len() && ks[a] == ks[c] ==> ks[b] == ks[a]
}

/// The row index of a DataFrame on the key columns: sorted keys of every row when
/// the DataFrame is sorted and aggregated by them, else the runs of equal keys.
pub open spec fn index_of(df: DataFrame, keys: Seq<Seq<char>>, idx: RowIndex, sorted: bool) -> bool {
    &&& strings_view(idx.key_cols@) == keys
    &&& if sorted {
        &&& idx.index_type == RowIndexType::Sorted
        &&& keys_of(idx.grp_keys@) == index_keys(df, keys)
        &&& idx.grp_map@.len() == 0
    } else {
        &&& idx.index_type == RowIndexType::Hashed
        &&& runs_view(idx.grp_map@) == key_runs(index_keys(df, keys))
        &&& idx.grp_keys@.len() == 0
    }
}

/// The keys of every row, in row order.
fn row_keys_all(df: &DataFrame, pos: &Vec<usize>) -> (ks: Vec<Vec<u8>>)
    requires
        df.wf(),
        forall|i: int| 0 <= i < pos@.len() ==> #[trigger] pos@[i] < df.columns@.len(),
    ensures
        keys_of(ks@) == Seq::new(df.n_row as nat, |r: int| row_key(cols_at(*df, pos@), no_negates(pos@.len() as nat), r)),
{
    let negs = falses(pos.len());
    let mut ks: Vec<Vec<u8>> = Vec::new();
    let mut r: usize = 0;
    while r < df.n_row
        invariant
            df.wf(),
            forall|i: int| 0 <= i < pos@.len() ==> #[trigger] pos@[i] < df.columns@.len(),
            negs@ == no_negates(pos@.len() as nat),
            r <= df.n_row,
            ks@.len() == r,
            forall|i: int| 0 <= i < r ==> (#[trigger] ks@[i])@ == row_key(cols_at(*df, pos@), negs@, i),
        decreases df.n_row - r,
    {
        ks.push(df.row_key_at(pos, &negs, r));
        r = r + 1;
    }
    assert(keys_of(ks@) =~= Seq::new(df.n_row as nat, |r: int| row_key(cols_at(*df, pos@), no_negates(pos@.len() as nat), r)));
    ks
}

/// The runs of equal adjacent keys.
fn build_runs(ks: &Vec<Vec<u8>>) -> (m: Vec<(Vec<u8>, (usize, usize))>)
    ensures
        runs_view(m@) == key_runs(keys_of(ks@)),
{
    let ghost kv = keys_of(ks@);
    let mut m: Vec<(Vec<u8>, (usize, usize))> = Vec::new();
    let mut i: usize = 0;
    while i < ks.len()
        invariant
            kv == keys_of(ks@),
            i <= ks@.len(),
            runs_view(m@) == key_runs(kv.take(i as int)),
            forall|t: int| 0 <= t < m@.len() ==> (#[trigger] m@[t]).1.0 + m@[t].1.1 <= i,
        decreases ks@.len() - i,
    {
        let ghost prev = key_runs(kv.take(i as int));
        assert(kv.take(i + 1).drop_last() =~= kv.take(i as int));
        assert(kv.take(i + 1).last() == ks@[i as int]@);
        let n = m.len();
        let same = n > 0 && key_eq(&m[n - 1].0, &ks[i]);
        if same {
            let (k, (s, l)) = m.pop().unwrap();
            m.push((k, (s, l + 1)));
            assert(runs_view(m@) =~= prev.update(prev.len() - 1, (kv[i as int], prev.last().1, prev.last().2 + 1)));
        } else {
            m.push((ks[i].clone(), (i, 1)));
            assert(runs_view(m@) =~= prev.push((kv[i as int], i as int, 1)));
        }
        i = i + 1;
    }
    assert(kv.take(ks@.len() as int) =~= kv);
    m
}

/// The position of a key in keys in ascending order, by binary search: a
/// position found holds the key, and a key present is found.
fn search_sorted(ks: &Vec<Vec<u8>>, k: &Vec<u8>) -> (r: Option<usize>)
    ensures
        r matches Some(i) ==> i < ks@.len() && ks@[i as int]@ == k@,
        keys_sorted(keys_of(ks@)) && keys_of(ks@).contains(k@) ==> r is Some,
{
    let ghost kv = keys_of(ks@);
    let ghost sorted = keys_sorted(kv);
    let mut lo: usize = 0;
    let mut hi: usize = ks.len();
    while lo < hi
        invariant
            kv == keys_of(ks@),
            sorted == keys_sorted(kv),
            lo <= hi <= ks@.len(),
            sorted ==> forall|i: int| 0 <= i < lo ==> lex_lt(#[trigger] kv[i], k@),
            sorted ==> forall|i: int| hi <= i < ks@.len() ==> lex_lt(k@, #[trigger] kv[i]),
        decreases hi - lo,
    {
        let mid = lo + (hi - lo) / 2;
        assert(kv[mid as int] == ks@[mid as int]@);
        if key_eq(&ks[mid], k) {
            return Some(mid);
        }
        if key_lt(&ks[mid], k) {
            proof {
                if sorted {
                    assert forall|i: int| 0 <= i < mid + 1 implies lex_lt(#[trigger] kv[i], k@) by {
                        if i < mid {
                            assert(lex_le(kv[i], kv[mid as int]));
                            if kv[i] != kv[mid as int] {
                                lemma_lex_transitive(kv[i], kv[mid as int], k@);
                            }
                        }
                    }
                }
            }
            lo = mid + 1;
        } else {
            proof {
                lemma_lex_trichotomy(kv[mid as int], k@);
                if sorted {
                    assert forall|i: int| mid <= i < ks@.len() implies lex_lt(k@, #[trigger] kv[i]) by {
                        if i > mid {
                            assert(lex_le(kv[mid as int], kv[i]));
                            if kv[i] != kv[mid as int] {
                                lemma_lex_transitive(k@, kv[mid as int], kv[i]);
                            }
                        }
                    }
                }
            }
            hi = mid;
        }
    }
    proof {
        if sorted && kv.contains(k@) {
            let i = choose|i: int| 0 <= i < kv.len() && kv[i] == k@;
            lemma_lex_trichotomy(k@, k@);
            if i < lo {
                assert(lex_lt(kv[i], k@));
            } else {
                assert(lex_lt(k@, kv[i]));
            }
        }
    }
    None
}

/// The position of the first run with a key.
fn find_run(m: &Vec<(Vec<u8>, (usize, usize))>, k: &Vec<u8>) -> (r: Option<usize>)
    ensures
        match r {
            Some(t) => t as int == first_run(runs_view(m@), k@) && t < m@.len(),
            None => first_run(runs_view(m@), k@) == -1,
        },
{
    let ghost rv = runs_view(m@);
    let mut t: usize = 0;
    while t < m.len()
        invariant
            rv == runs_view(m@),
            t <= m@.len(),
            first_run(rv.take(t as int), k@) == -1,
        decreases m@.len() - t,
    {
        assert(rv.take(t + 1).drop_last() =~= rv.take(t as int));
        if key_eq(&m[t].0, k) {
            proof {
                lemma_first_run_prefix(rv, k@, t as int + 1);
            }
            return Some(t);
        }
        t = t + 1;
    }
    assert(rv.take(m@.len() as int) =~= rv);
    None
}

/// The first run of a prefix that has the key is the first run of the whole.
proof fn lemma_first_run_prefix(rv: Seq<(Seq<u8>, int, int)>, k: Seq<u8>, n: int)
    requires
        0 <= n <= rv.len(),
        first_run(rv.take(n), k) >= 0,
    ensures
        first_run(rv, k) == first_run(rv.take(n), k),
    decreases rv.len() - n,
{
    if n < rv.len() {
        assert(rv.take(n + 1).drop_last() =~= rv.take(n));
        lemma_first_run_prefix(rv, k, n + 1);
    } else {
        assert(rv.take(n) =~= rv);
    }
}

/// The rows of two column lists agree cell by cell, so their keys agree.
proof fn lemma_row_key_moved(a: Seq<crate::data_frame::column::Column>, b: Seq<crate::data_frame::column::Column>, negs: Seq<bool>, ra: int, rb: int)
    requires
        a.len() == b.len(),
        forall|j: int| 0 <= j < a.len() ==> (#[trigger] a[j]).cells()[ra] == b[j].cells()[rb],
    ensures
        row_key(a, negs, ra) == row_key(b, negs, rb),
    decreases a.len(),
{
    if a.len() > 0 {
        lemma_row_key_moved(a.drop_last(), b.drop_last(), negs, ra, rb);
        assert(a.last().cells()[ra] == b.last().cells()[rb]);
    }
}

/// The DataFrame's status says it is sorted, ascending, and aggregated by the key
/// columns.
pub open spec fn sorted_aggregated_by(df: DataFrame, keys: Seq<Seq<char>>) -> bool {
    &&& df.status.is_sorted
    &&& crate::data_frame::status::is_prefix(keys, strings_view(df.status.sort_cols@))
    &&& crate::data_frame::status::is_prefix(no_negates(keys.len()), df.status.sort_negates@)
    &&& df.status.is_aggregated
    &&& crate::data_frame::status::is_prefix(keys, strings_view(df.status.group_cols@))
}

/// The DataFrame's status says it is grouped by the key columns.
pub open spec fn grouped_by(df: DataFrame, keys: Seq<Seq<char>>) -> bool {
    df.status.is_grouped && crate::data_frame::status::is_prefix(keys, strings_view(df.status.group_cols@))
}

/// `out` holds the rows of `df` in the order `p`, with the same columns.
pub open spec fn rows_taken(out: DataFrame, df: DataFrame, p: Seq<usize>) -> bool {
    &&& out.names() == df.names()
    &&& out.n_row == p.len()
    &&& forall|j: int|
        0 <= j < out.columns@.len() ==> {
            let c = #[trigger] out.columns@[j];
            let s = df.columns@[j];
            &&& c.kind_of() == s.kind_of()
            &&& c.labels_view() == s.labels_view()
            &&& forall|i: int| 0 <= i < p.len() ==> c.cells()[i] == s.cells()[p[i] as int]
        }
}

/// The DataFrame already has a non-empty index of this type on these key
/// columns, which building an index keeps.
pub open spec fn index_kept(df: DataFrame, keys: Seq<Seq<char>>, t: RowIndexType) -> bool {
    &&& strings_view(df.row_index.key_cols@) == keys
    &&& df.row_index.index_type == t
    &&& if t == RowIndexType::Sorted { df.row_index.grp_keys@.len() > 0 } else { df.row_index.grp_map@.len() > 0 }
}

/// Whether two vectors of strings hold the same texts.
pub fn same_strings(a: &Vec<String>, b: &Vec<String>) -> (r: bool)
    ensures
        r == (strings_view(a@) == strings_view(b@)),
{
    if a.len() != b.len() {
        assert(strings_view(a@).len() != strings_view(b@).len());
        return false;
    }
    let r = crate::data_frame::status::starts_with_strings(a, b.as_slice());
    proof {
        if r {
            assert(strings_view(a@).subrange(0, strings_view(b@).len() as int) =~= strings_view(a@));
        } else {
            if strings_view(a@) == strings_view(b@) {
                assert(strings_view(a@).subrange(0, strings_view(b@).len() as int) =~= strings_view(a@));
            }
        }
    }
    r
}

impl RowIndex {
    /// Prepare a DataFrame for indexed row retrieval by a row index on one or
    /// more key columns (at most eight, not text). A DataFrame sorted and
    /// aggregated by the key columns gets the sorted keys of its rows; one grouped
    /// by them gets the runs of equal keys; any other is first sorted by the key
    /// columns (and so grouped by them) and then gets the runs. An index already
    /// built on the same key columns is kept.
    #[verifier::rlimit(30)]
    pub fn set_index(df: DataFrame, key_cols: Vec<String>) -> (r: Result<DataFrame, DfError>)
        requires
            df.wf(),
            key_cols@.len() > 0,
        ensures
            ({
                let keys = strings_view(key_cols@);
                let ok = all_cols_of(df, keys) && keys.len() <= 8 && !has_string_col(df, keys);
                &&& !all_cols_of(df, keys) ==> (r matches Err(DfError::ColumnNotFound(n)) && !df.has_col(n@) && keys.contains(n@))
                &&& all_cols_of(df, keys) && keys.len() > 8 ==> (r matches Err(DfError::TooManyKeyColumns))
                &&& all_cols_of(df, keys) && keys.len() <= 8 && has_string_col(df, keys) ==> (r matches Err(
                    DfError::StringKey(n),
                ) && keys.contains(n@))
                &&& ok ==> (r matches Ok(out) && {
                    &&& out.wf()
                    &&& sorted_aggregated_by(df, keys) ==> {
                        &&& out.columns == df.columns && out.status == df.status && out.n_row == df.n_row
                        &&& index_kept(df, keys, RowIndexType::Sorted) ==> out.row_index == df.row_index
                        &&& !index_kept(df, keys, RowIndexType::Sorted) ==> index_of(out, keys, out.row_index, true)
                    }
                    &&& !sorted_aggregated_by(df, keys) && grouped_by(df, keys) ==> {
                        &&& out.columns == df.columns && out.status == df.status && out.n_row == df.n_row
                        &&& index_kept(df, keys, RowIndexType::Hashed) ==> out.row_index == df.row_index
                        &&& !index_kept(df, keys, RowIndexType::Hashed) ==> index_of(out, keys, out.row_index, false)
                    }
                    &&& !sorted_aggregated_by(df, keys) && !grouped_by(df, keys) ==> {
                        &&& exists|p: Seq<usize>|
                            #![trigger rows_taken(out, df, p)]
                            crate::data_frame::sort::is_permutation(p, df.n_row as nat) && rows_taken(out, df, p)
                                && crate::data_frame::sort::sorted_by(index_keys(df, keys), p)
                        &&& out.status.sort_cols@ == key_cols@ && out.status.is_sorted
                        &&& out.status.group_cols@ == key_cols@ && out.status.is_grouped
                        &&& !out.status.is_aggregated
                        &&& index_of(out, keys, out.row_index, false)
                        &&& keys_sorted(index_keys(out, keys))
                    }
                })
            }),
    {
        let ghost keys = strings_view(key_cols@);
        let mut k: usize = 0;
        while k < key_cols.len()
            invariant
                keys == strings_view(key_cols@),
                k <= key_cols@.len(),
                forall|t: int| 0 <= t < k ==> df.has_col(#[trigger] keys[t]),
            decreases key_cols@.len() - k,
        {
            if df.find_col(key_cols[k].as_str()).is_none() {
                assert(keys[k as int] == key_cols@[k as int]@);
                return Err(DfError::ColumnNotFound(key_cols[k].clone()));
            }
            k = k + 1;
        }
        let n_key_cols = key_cols.len();
        if n_key_cols > 8 {
            return Err(DfError::TooManyKeyColumns);
        }
        let pos = match df.key_positions(&key_cols, false) {
            Ok(p) => p,
            Err(e) => {
                return Err(e);
            },
        };
        let negs = falses(n_key_cols);
        let is_sorted_by = df.status.is_sorted_by(key_cols.as_slice(), negs.as_slice());
        let is_grouped_by = df.status.is_grouped_by(key_cols.as_slice());
        let is_aggregated_by = df.status.is_aggregated_by(key_cols.as_slice());
        let key_cols_match = same_strings(&df.row_index.key_cols, &key_cols);
        let ks = row_keys_all(&df, &pos);
        proof {
            assert(keys_of(ks@) == index_keys(df, keys));
        }
        let ghost d0 = df;
        let mut df = df;
        if is_sorted_by && is_aggregated_by {
            if !key_cols_match || df.row_index.grp_keys.len() == 0 || df.row_index.index_type != RowIndexType::Sorted {
                df.row_index.reset();
                df.row_index.key_cols = key_cols;
                df.row_index.index_type = RowIndexType::Sorted;
                df.row_index.grp_keys = ks;
                assert(cols_named(df, keys) =~= cols_named(d0, keys));
                assert(index_keys(df, keys) =~= index_keys(d0, keys));
            }
            Ok(df)
        } else if is_grouped_by {
            if !key_cols_match || df.row_index.grp_map.len() == 0 || df.row_index.index_type != RowIndexType::Hashed {
                let m = build_runs(&ks);
                df.row_index.reset();
                df.row_index.key_cols = key_cols;
                df.row_index.index_type = RowIndexType::Hashed;
                df.row_index.grp_map = m;
                assert(cols_named(df, keys) =~= cols_named(d0, keys));
                assert(index_keys(df, keys) =~= index_keys(d0, keys));
            }
            Ok(df)
        } else {
            let p = crate::data_frame::sort::sort_positions(&ks);
            let ghost pv = p@;
            let mut out = df.from_rows(p);
            proof {
                if df.col_names@.len() == 0 {
                    assert(keys.len() > 0);
                    assert(df.has_col(keys[0]));
                    crate::data_frame::factor::lemma_first_index(df.names(), keys[0]);
                }
                assert(out.n_row == df.n_row);
                assert(rows_taken(out, df, pv));
                assert(all_cols_of(out, keys));
                assert forall|x: int| 0 <= x < keys.len() implies (#[trigger] out.col_of(keys[x])).kind_of()
                    == df.col_of(keys[x]).kind_of() by {
                    assert(df.has_col(keys[x]));
                    crate::data_frame::factor::lemma_first_index(df.names(), keys[x]);
                }
                crate::data_frame::join_chain::lemma_same_string_keys(out, df, keys);
                assert(crate::data_frame::sort::keys_view(ks@) =~= keys_of(ks@));
            }
            let pos2 = match out.key_positions(&key_cols, false) {
                Ok(p) => p,
                Err(e) => {
                    return Err(e);
                },
            };
            let ks2 = row_keys_all(&out, &pos2);
            let ghost o0 = out;
            proof {
                assert(keys_of(ks2@) =~= index_keys(o0, keys));
            }
            let m = build_runs(&ks2);
            out.status = crate::data_frame::status::QueryStatus {
                sort_cols: crate::data_frame::factor::clone_strings(&key_cols),
                sort_negates: falses(n_key_cols),
                is_sorted: true,
                group_cols: crate::data_frame::factor::clone_strings(&key_cols),
                is_grouped: true,
                agg_cols: Vec::new(),
                is_aggregated: false,
            };
            out.row_index.reset();
            out.row_index.key_cols = key_cols;
            out.row_index.index_type = RowIndexType::Hashed;
            out.row_index.grp_map = m;
            proof {
                assert(cols_named(out, keys) =~= cols_named(o0, keys));
                assert(index_keys(out, keys) =~= index_keys(o0, keys));
                assert(rows_taken(out, df, pv));
                lemma_taken_keys_sorted(out, df, keys, pv);
            }
            Ok(out)
        }
    }
}

/// Keys in ascending order are grouped: equal keys are adjacent.
pub proof fn lemma_sorted_keys_grouped(ks: Seq<Seq<u8>>)
    requires
        keys_sorted(ks),
    ensures
        keys_grouped(ks),
{
    assert forall|a: int, b: int, c: int|
        #![trigger ks[a], ks[b], ks[c]]
        0 <= a < b < c < ks.len() && ks[a] == ks[c] implies ks[b] == ks[a] by {
        assert(lex_le(ks[a], ks[b]) && lex_le(ks[b], ks[c]));
        lemma_lex_trichotomy(ks[a], ks[b]);
    }
}

/// Rows taken in an order that sorts their keys have ascending keys.
proof fn lemma_taken_keys_sorted(out: DataFrame, df: DataFrame, keys: Seq<Seq<char>>, p: Seq<usize>)
    requires
        df.wf(),
        out.wf(),
        all_cols_of(df, keys),
        rows_taken(out, df, p),
        crate::data_frame::sort::is_permutation(p, df.n_row as nat),
        crate::data_frame::sort::sorted_by(index_keys(df, keys), p),
    ensures
        keys_sorted(index_keys(out, keys)),
{
    let nn = no_negates(keys.len());
    let ko = index_keys(out, keys);
    let kd = index_keys(df, keys);
    assert forall|i: int| 0 <= i < out.n_row implies #[trigger] ko[i] == kd[p[i] as int] by {
        assert forall|j: int| 0 <= j < cols_named(out, keys).len() implies (#[trigger] cols_named(out, keys)[j]).cells()[i]
            == cols_named(df, keys)[j].cells()[p[i] as int] by {
            assert(df.has_col(keys[j]));
            crate::data_frame::factor::lemma_first_index(df.names(), keys[j]);
            let c = df.col_pos(keys[j]);
            assert(out.col_pos(keys[j]) == c);
            assert(0 <= c < out.columns@.len());
            let oc = out.columns@[c];
            assert(oc.cells()[i] == df.columns@[c].cells()[p[i] as int]);
        }
        lemma_row_key_moved(cols_named(out, keys), cols_named(df, keys), nn, i, p[i] as int);
    }
    assert forall|a: int, b: int| 0 <= a < b < ko.len() implies lex_le(#[trigger] ko[a], #[trigger] ko[b]) by {
        assert(ko[a] == kd[p[a] as int] && ko[b] == kd[p[b] as int]);
    }
}

/// No stored run reaches past the largest row position.
pub open spec fn runs_fit(m: Seq<(Vec<u8>, (usize, usize))>) -> bool {
    forall|t: int| 0 <= t < m.len() ==> (#[trigger] m[t]).1.0 + m[t].1.1 <= usize::MAX
}

/// The rows that an index lookup of key `k` finds: for sorted keys, the one
/// row with that key; for runs, the first run with that key; none otherwise.
pub open spec fn lookup_rows(idx: RowIndex, k: Seq<u8>, start: int, n: int) -> bool {
    if idx.index_type == RowIndexType::Sorted {
        if n == 1 {
            0 <= start < idx.grp_keys@.len() && idx.grp_keys@[start]@ == k
        } else {
            start == 0 && n == 0 && (keys_sorted(keys_of(idx.grp_keys@)) ==> !keys_of(idx.grp_keys@).contains(k))
        }
    } else {
        let t = first_run(runs_view(idx.grp_map@), k);
        if t >= 0 {
            start == runs_view(idx.grp_map@)[t].1 && n == runs_view(idx.grp_map@)[t].2
        } else {
            start == 0 && n == 0
        }
    }
}

impl RowIndex {
    /// The slice of rows of an indexed DataFrame whose key columns match the first
    /// row of `dk` (a DataFrame holding the key columns); an empty slice when no
    /// row matches.
    pub fn get_indexed<'a>(df: &'a DataFrame, dk: DataFrame) -> (r: Result<DataFrameSlice<'a>, DfError>)
        requires
            dk.wf(),
            dk.n_row > 0,
            runs_fit(df.row_index.grp_map@),
        ensures
            ({
                let idx = df.row_index;
                let keys = strings_view(idx.key_cols@);
                &&& idx.index_type == RowIndexType::Unindexed ==> (r matches Err(DfError::NotIndexed))
                &&& idx.index_type != RowIndexType::Unindexed && !all_cols_of(dk, keys) ==> (r matches Err(
                    DfError::ColumnNotFound(n),
                ) && !dk.has_col(n@) && keys.contains(n@))
                &&& idx.index_type != RowIndexType::Unindexed && all_cols_of(dk, keys) && has_string_col(dk, keys)
                    ==> (r matches Err(DfError::StringKey(n)) && keys.contains(n@))
                &&& idx.index_type != RowIndexType::Unindexed && all_cols_of(dk, keys) && !has_string_col(dk, keys)
                    ==> (r matches Ok(s) && s.data_frame == df && s.end_row_i == s.start_row_i + s.n_row && lookup_rows(
                    idx,
                    index_keys(dk, keys)[0],
                    s.start_row_i as int,
                    s.n_row as int,
                ))
            }),
    {
        if df.row_index.index_type == RowIndexType::Unindexed {
            return Err(DfError::NotIndexed);
        }
        let key_cols = &df.row_index.key_cols;
        let ghost keys = strings_view(key_cols@);
        let mut k: usize = 0;
        while k < key_cols.len()
            invariant
                keys == strings_view(key_cols@),
                key_cols@ == df.row_index.key_cols@,
                df.row_index.index_type != RowIndexType::Unindexed,
                k <= key_cols@.len(),
                forall|t: int| 0 <= t < k ==> dk.has_col(#[trigger] keys[t]),
            decreases key_cols@.len() - k,
        {
            if dk.find_col(key_cols[k].as_str()).is_none() {
                assert(keys[k as int] == key_cols@[k as int]@);
                assert(keys.contains(keys[k as int]));
                assert(!dk.has_col(keys[k as int]));
                assert(!all_cols_of(dk, keys));
                let n = key_cols[k].clone();
                assert(n@ == keys[k as int]);
                return Err(DfError::ColumnNotFound(n));
            }
            k = k + 1;
        }
        let pos = match dk.key_positions(key_cols, false) {
            Ok(p) => p,
            Err(e) => {
                return Err(e);
            },
        };
        let negs = falses(pos.len());
        let key = dk.row_key_at(&pos, &negs, 0);
        assert(key@ == index_keys(dk, keys)[0]);
        if df.row_index.index_type == RowIndexType::Sorted {
            let nk = df.row_index.grp_keys.len();
            match search_sorted(&df.row_index.grp_keys, &key) {
                Some(i) => {
                    assert(i < nk);
                    Ok(DataFrameSlice::new(df, i, 1))
                },
                None => Ok(DataFrameSlice::new(df, 0, 0)),
            }
        } else {
            match find_run(&df.row_index.grp_map, &key) {
                Some(t) => {
                    let (s, l) = df.row_index.grp_map[t].1;
                    Ok(DataFrameSlice::new(df, s, l))
                },
                None => Ok(DataFrameSlice::new(df, 0, 0)),
            }
        }
    }
}

impl DataFrame {
    /// Prepare a DataFrame for indexed row retrieval by a row index on one or
    /// more key columns; see `RowIndex::set_index`.
    pub fn set_index(self, key_cols: Vec<String>) -> (r: Result<DataFrame, DfError>)
        requires
            self.wf(),
            key_cols@.len() > 0,
        ensures
            ({
                let keys = strings_view(key_cols@);
                let ok = all_cols_of(self, keys) && keys.len() <= 8 && !has_string_col(self, keys);
                &&& !all_cols_of(self, keys) ==> (r matches Err(DfError::ColumnNotFound(n)) && !self.has_col(n@) && keys.contains(n@))
                &&& all_cols_of(self, keys) && keys.len() > 8 ==> (r matches Err(DfError::TooManyKeyColumns))
                &&& all_cols_of(self, keys) && keys.len() <= 8 && has_string_col(self, keys) ==> (r matches Err(
                    DfError::StringKey(n),
                ) && keys.contains(n@))
                &&& ok ==> (r matches Ok(out) && {
                    &&& out.wf()
                    &&& sorted_aggregated_by(self, keys) ==> {
                        &&& out.columns == self.columns && out.status == self.status && out.n_row == self.n_row
                        &&& index_kept(self, keys, RowIndexType::Sorted) ==> out.row_index == self.row_index
                        &&& !index_kept(self, keys, RowIndexType::Sorted) ==> index_of(out, keys, out.row_index, true)
                    }
                    &&& !sorted_aggregated_by(self, keys) && grouped_by(self, keys) ==> {
                        &&& out.columns == self.columns && out.status == self.status && out.n_row == self.n_row
                        &&& index_kept(self, keys, RowIndexType::Hashed) ==> out.row_index == self.row_index
                        &&& !index_kept(self, keys, RowIndexType::Hashed) ==> index_of(out, keys, out.row_index, false)
                    }
                    &&& !sorted_aggregated_by(self, keys) && !grouped_by(self, keys) ==> {
                        &&& exists|p: Seq<usize>|
                            #![trigger rows_taken(out, self, p)]
                            crate::data_frame::sort::is_permutation(p, self.n_row as nat) && rows_taken(out, self, p)
                                && crate::data_frame::sort::sorted_by(index_keys(self, keys), p)
                        &&& out.status.sort_cols@ == key_cols@ && out.status.is_sorted
                        &&& out.status.group_cols@ == key_cols@ && out.status.is_grouped
                        &&& !out.status.is_aggregated
                        &&& index_of(out, keys, out.row_index, false)
                        &&& keys_sorted(index_keys(out, keys))
                    }
                })
            }),
    {
        RowIndex::set_index(self, key_cols)
    }

    /// The slice of rows whose key columns match the first row of `dk`; see
    /// `RowIndex::get_indexed`.
    pub fn get_indexed(&self, dk: DataFrame) -> (r: Result<DataFrameSlice<'_>, DfError>)
        requires
            dk.wf(),
            dk.n_row > 0,
            runs_fit(self.row_index.grp_map@),
        ensures
            ({
                let idx = self.row_index;
                let keys = strings_view(idx.key_cols@);
                &&& idx.index_type == RowIndexType::Unindexed ==> (r matches Err(DfError::NotIndexed))
                &&& idx.index_type != RowIndexType::Unindexed && !all_cols_of(dk, keys) ==> (r matches Err(
                    DfError::ColumnNotFound(n),
                ) && !dk.has_col(n@) && keys.contains(n@))
                &&& idx.index_type != RowIndexType::Unindexed && all_cols_of(dk, keys) && has_string_col(dk, keys)
                    ==> (r matches Err(DfError::StringKey(n)) && keys.contains(n@))
                &&& idx.index_type != RowIndexType::Unindexed && all_cols_of(dk, keys) && !has_string_col(dk, keys)
                    ==> (r matches Ok(s) && s.data_frame == self && s.end_row_i == s.start_row_i + s.n_row && lookup_rows(
                    idx,
                    index_keys(dk, keys)[0],
                    s.start_row_i as int,
                    s.n_row as int,
                ))
            }),
    {
        RowIndex::get_indexed(self, dk)
    }
}


/// `runs` tile the positions of `ks` in order: each is a non-empty stretch of
/// equal keys that starts where the one before it ended, adjacent runs differ in
/// key, and every position lies in some run.
pub open spec fn runs_tile(ks: Seq<Seq<u8>>, runs: Seq<(Seq<u8>, int, int)>) -> bool {
    &&& runs.len() <= ks.len()
    &&& runs.len() > 0 ==> runs[0].1 == 0 && runs.last().1 + runs.last().2 == ks.len()
    &&& forall|t: int|
        0 <= t < runs.len() ==> (#[trigger] runs[t]).2 >= 1 && runs[t].1 >= 0 && runs[t].1 + runs[t].2 <= ks.len()
    &&& forall|t: int, u: int|
        #![trigger runs[t], runs[u]]
        0 <= t && u == t + 1 && u < runs.len() ==> runs[u].1 == runs[t].1 + runs[t].2 && runs[u].0 != runs[t].0
    &&& forall|t: int, r: int|
        0 <= t < runs.len() && runs[t].1 <= r < runs[t].1 + runs[t].2 ==> #[trigger] ks[r] == (#[trigger] runs[t]).0
    &&& forall|r: int| 0 <= r < ks.len() ==> #[trigger] covered(runs, r)
}

/// Position `r` lies in some run.
pub open spec fn covered(runs: Seq<(Seq<u8>, int, int)>, r: int) -> bool {
    exists|t: int| 0 <= t < runs.len() && #[trigger] in_run(runs, t, r)
}

/// Position `r` lies in run `t`.
pub open spec fn in_run(runs: Seq<(Seq<u8>, int, int)>, t: int, r: int) -> bool {
    runs[t].1 <= r < runs[t].1 + runs[t].2
}

/// The runs of a key sequence tile its positions in order.
pub proof fn lemma_key_runs_tile(ks: Seq<Seq<u8>>)
    ensures
        runs_tile(ks, key_runs(ks)),
    decreases ks.len(),
{
    if ks.len() > 0 {
        let d = ks.drop_last();
        lemma_key_runs_tile(d);
        let prev = key_runs(d);
        let runs = key_runs(ks);
        let n = ks.len() - 1;
        assert forall|r: int| 0 <= r < n implies #[trigger] d[r] == ks[r] by {}
        if prev.len() > 0 && prev.last().0 == ks.last() {
            let m = prev.len() - 1;
            assert(runs == prev.update(m, (ks.last(), prev.last().1, prev.last().2 + 1)));
            assert forall|t: int| 0 <= t < m implies #[trigger] runs[t] == prev[t] by {}
            assert forall|t: int, r: int|
                0 <= t < runs.len() && runs[t].1 <= r < runs[t].1 + runs[t].2 implies #[trigger] ks[r] == (#[trigger] runs[t]).0 by {
                if t < m {
                    assert(prev[t] == runs[t]);
                    assert(d[r] == prev[t].0);
                } else if r < n {
                    assert(prev[m].1 <= r < prev[m].1 + prev[m].2);
                    assert(d[r] == prev[m].0);
                }
            }
            assert forall|r: int| 0 <= r < ks.len() implies #[trigger] covered(runs, r) by {
                if r < n {
                    assert(covered(prev, r));
                    let t = choose|t: int| 0 <= t < prev.len() && #[trigger] in_run(prev, t, r);
                    assert(in_run(runs, t, r));
                } else {
                    assert(in_run(runs, m, r));
                }
            }
            assert forall|t: int, u: int|
                #![trigger runs[t], runs[u]]
                0 <= t && u == t + 1 && u < runs.len() implies runs[u].1 == runs[t].1 + runs[t].2 && runs[u].0 != runs[t].0 by {
                assert(prev[u].1 == prev[t].1 + prev[t].2 && prev[u].0 != prev[t].0);
            }
        } else {
            assert(runs == prev.push((ks.last(), n, 1)));
            let m = prev.len() as int;
            assert forall|t: int| 0 <= t < m implies #[trigger] runs[t] == prev[t] by {}
            assert forall|t: int, r: int|
                0 <= t < runs.len() && runs[t].1 <= r < runs[t].1 + runs[t].2 implies #[trigger] ks[r] == (#[trigger] runs[t]).0 by {
                if t < m {
                    assert(prev[t] == runs[t]);
                    assert(d[r] == prev[t].0);
                }
            }
            assert forall|r: int| 0 <= r < ks.len() implies #[trigger] covered(runs, r) by {
                if r < n {
                    assert(covered(prev, r));
                    let t = choose|t: int| 0 <= t < prev.len() && #[trigger] in_run(prev, t, r);
                    assert(runs[t] == prev[t]);
                    assert(in_run(runs, t, r));
                } else {
                    assert(in_run(runs, m, r));
                }
            }
            assert forall|t: int, u: int|
                #![trigger runs[t], runs[u]]
                0 <= t && u == t + 1 && u < runs.len() implies runs[u].1 == runs[t].1 + runs[t].2 && runs[u].0 != runs[t].0 by {
                if u < m {
                    assert(prev[u].1 == prev[t].1 + prev[t].2 && prev[u].0 != prev[t].0);
                } else {
                    assert(prev[t] == prev.last());
                }
            }
            assert(runs_tile(ks, runs));
        }
    }
}

/// The first run with a key has that key, and no run before it does; when
/// there is none, no run has the key.
pub proof fn lemma_first_run(runs: Seq<(Seq<u8>, int, int)>, k: Seq<u8>)
    ensures
        -1 <= first_run(runs, k) < runs.len(),
        first_run(runs, k) >= 0 ==> runs[first_run(runs, k)].0 == k,
        forall|u: int|
            0 <= u < runs.len() && (first_run(runs, k) == -1 || u < first_run(runs, k)) ==> (#[trigger] runs[u]).0 != k,
    decreases runs.len(),
{
    if runs.len() > 0 {
        let d = runs.drop_last();
        lemma_first_run(d, k);
        assert forall|u: int| 0 <= u < d.len() implies #[trigger] d[u] == runs[u] by {}
        let f = first_run(d, k);
        if f >= 0 {
            assert(first_run(runs, k) == f);
            assert(runs[f] == d[f]);
            assert forall|u: int| 0 <= u < runs.len() && (first_run(runs, k) == -1 || u < first_run(runs, k)) implies (#[trigger] runs[u]).0 != k by {
                assert(d[u] == runs[u]);
            }
        } else {
            assert forall|u: int| 0 <= u < runs.len() && (first_run(runs, k) == -1 || u < first_run(runs, k)) implies (#[trigger] runs[u]).0 != k by {
                if u < d.len() {
                    assert(d[u] == runs[u]);
                }
            }
        }
    }
}

/// A lookup in a run index of a DataFrame whose equal keys are adjacent finds
/// exactly the rows whose key is the sought one: every row of the slice has the
/// key, and no row outside it does.
pub proof fn lemma_run_lookup_exact(
    df: DataFrame,
    keys: Seq<Seq<char>>,
    idx: RowIndex,
    k: Seq<u8>,
    start: int,
    n: int,
)
    requires
        index_of(df, keys, idx, false),
        keys_grouped(index_keys(df, keys)),
        lookup_rows(idx, k, start, n),
    ensures
        0 <= start && 0 <= n && start + n <= df.n_row,
        forall|r: int| start <= r < start + n ==> #[trigger] index_keys(df, keys)[r] == k,
        forall|r: int| 0 <= r < df.n_row && index_keys(df, keys)[r] == k ==> start <= r < start + n,
{
    let ks = index_keys(df, keys);
    let runs = key_runs(ks);
    lemma_key_runs_tile(ks);
    lemma_first_run(runs, k);
    assert(runs_view(idx.grp_map@) == runs);
    let t = first_run(runs, k);
    if t >= 0 {
        assert(start == runs[t].1 && n == runs[t].2);
        assert(ks[start] == k);
        assert forall|r: int| 0 <= r < df.n_row && ks[r] == k implies start <= r < start + n by {
            if r >= start + n {
                let v = t + 1;
                if v >= runs.len() {
                    assert(runs.last() == runs[t]);
                }
                assert(runs[v].1 == runs[t].1 + runs[t].2 && runs[v].0 != runs[t].0);
                let b = runs[v].1;
                assert(ks[b] == runs[v].0);
                if b < r {
                    assert(ks[b] == ks[start]);
                }
            } else if r < start {
                if t == 0 {
                    assert(runs[0].1 == 0);
                }
                let v = t - 1;
                assert(runs[t].1 == runs[v].1 + runs[v].2 && runs[t].0 != runs[v].0);
                let b = start - 1;
                assert(ks[b] == runs[v].0);
                if r < b {
                    assert(ks[b] == ks[r]);
                }
            }
        }
    } else {
        assert forall|r: int| 0 <= r < df.n_row && ks[r] == k implies start <= r < start + n by {
            assert(covered(runs, r));
            let u = choose|u: int| 0 <= u < runs.len() && #[trigger] in_run(runs, u, r);
            assert(runs[u].0 == k);
        }
    }
}

/// A run index built on a DataFrame's rows lets every lookup's slice fit:
/// no run reaches past the last row.
pub proof fn lemma_index_runs_fit(df: DataFrame, keys: Seq<Seq<char>>, idx: RowIndex)
    requires
        index_of(df, keys, idx, false),
    ensures
        runs_fit(idx.grp_map@),
{
    let ks = index_keys(df, keys);
    lemma_key_runs_tile(ks);
    let runs = key_runs(ks);
    assert(runs_view(idx.grp_map@) == runs);
    assert forall|t: int| 0 <= t < idx.grp_map@.len() implies (#[trigger] idx.grp_map@[t]).1.0 + idx.grp_map@[t].1.1
        <= usize::MAX by {
        assert(runs[t].1 + runs[t].2 <= ks.len());
        assert(runs[t] == runs_view(idx.grp_map@)[t]);
    }
}

/// A lookup in a sorted-key index finds a row with the sought key; when the keys
/// ascend, it finds none only when no row has the key.
pub proof fn lemma_sorted_lookup(df: DataFrame, keys: Seq<Seq<char>>, idx: RowIndex, k: Seq<u8>, start: int, n: int)
    requires
        index_of(df, keys, idx, true),
        lookup_rows(idx, k, start, n),
    ensures
        n == 1 ==> 0 <= start < df.n_row && index_keys(df, keys)[start] == k,
        n != 1 ==> n == 0 && (keys_sorted(index_keys(df, keys)) ==> !index_keys(df, keys).contains(k)),
{
    assert(keys_of(idx.grp_keys@) == index_keys(df, keys));
    assert(index_keys(df, keys).len() == df.n_row);
    if n == 1 {
        assert(keys_of(idx.grp_keys@)[start] == idx.grp_keys@[start]@);
        assert(index_keys(df, keys)[start] == keys_of(idx.grp_keys@)[start]);
    }
}

} // verus!
