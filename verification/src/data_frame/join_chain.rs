//! Joins of two or more DataFrames, left to right: each join's output is the left
//! side of the next.
use vstd::prelude::*;
use crate::data_frame::column::strings_view;
use crate::data_frame::factor::{all_distinct, first_index};
use crate::data_frame::frame::{DataFrame, DfError};
use crate::data_frame::query::{Query, all_cols_of, src_rows, has_string_col, kept_names};
use crate::data_frame::join::{Join, join_result, join_side_fits};
use crate::data_frame::group::lemma_first_index_distinct;

verus! {

/// The non-key columns that the first `i` DataFrames of a join bring to its
/// output, in order.
pub open spec fn non_keys_before(j: Join, i: int) -> Seq<Seq<char>>
    decreases i,
{
    if i <= 0 {
        Seq::empty()
    } else {
        non_keys_before(j, i - 1) + strings_view(j.cols_non_key@[i - 1]@)
    }
}

/// The DataFrames, queries and join record agree for a join of all the
/// DataFrames: each DataFrame has the key columns, of the kinds of the first
/// one's, and its non-key columns; its query sorts by the keys, ascending; and no
/// output column name repeats.
#[verifier::opaque]
pub open spec fn join_ready(j: Join, dfs: Seq<&DataFrame>, qrys: Seq<Query>) -> bool {
    let keys = strings_view(j.key_cols@);
    let n = j.n_dfs as int;
    &&& n >= 2
    &&& dfs.len() == n
    &&& qrys.len() == n
    &&& j.cols_all@.len() == n
    &&& j.cols_non_key@.len() == n
    &&& j.cols_out@.len() == n
    &&& all_distinct(keys + non_keys_before(j, n))
    &&& forall|t: int| 0 <= t < n ==> join_side_fits(#[trigger] qrys[t], *dfs[t], keys)
    &&& forall|t: int| 0 <= t < n ==> strings_view((#[trigger] j.cols_out@[t])@) == keys + strings_view(j.cols_non_key@[t]@)
    &&& forall|t: int| 0 <= t < n ==> all_cols_of(*(#[trigger] dfs[t]), keys + strings_view(j.cols_non_key@[t]@))
    &&& forall|t: int, x: int|
        0 <= t < n && 0 <= x < keys.len() ==> (#[trigger] dfs[t].col_of(keys[x])).kind_of() == dfs[0].col_of(
            keys[x],
        ).kind_of()
}

/// The rows that the join at step `t` takes from its left side: those the first
/// query keeps of the first DataFrame, then all rows of the previous output.
pub open spec fn chain_src_l(qrys: Seq<Query>, chain: Seq<DataFrame>, t: int) -> Seq<int> {
    if t == 1 {
        src_rows(qrys[0].kept_rows@, qrys[0].needs_filtering, chain[0].n_row as nat)
    } else {
        src_rows(Seq::empty(), false, chain[t - 1].n_row as nat)
    }
}

/// `chain` holds the first DataFrame and then the outputs of the first `i - 1`
/// joins, each the join of the one before it with the next DataFrame.
#[verifier::opaque]
pub open spec fn join_chain(j: Join, dfs: Seq<&DataFrame>, qrys: Seq<Query>, chain: Seq<DataFrame>, i: int) -> bool {
    let keys = strings_view(j.key_cols@);
    &&& chain.len() == i
    &&& chain[0] == *dfs[0]
    &&& forall|t: int|
        1 <= t < i ==> join_result(
            #[trigger] chain[t],
            chain[t - 1],
            *dfs[t],
            keys,
            keys + non_keys_before(j, t),
            strings_view(j.cols_non_key@[t]@),
            j.sorted,
            j.all_left,
            j.all_right,
            chain_src_l(qrys, chain, t),
            src_rows(qrys[t].kept_rows@, qrys[t].needs_filtering, dfs[t].n_row as nat),
        )
}

/// Joining several DataFrames is a left fold of joins of two: the first output
/// is the join of the first two DataFrames, each later output the join of the
/// previous output with the next DataFrame (same join type and keys, the
/// previous output's columns on the left), and the result is the last output.
pub proof fn lemma_join_is_left_fold(j: Join, dfs: Seq<&DataFrame>, qrys: Seq<Query>, chain: Seq<DataFrame>, n: int)
    requires
        join_chain(j, dfs, qrys, chain, n),
        n >= 2,
    ensures
        chain.len() == n,
        chain[0] == *dfs[0],
        forall|t: int|
            1 <= t < n ==> join_result(
                #[trigger] chain[t],
                chain[t - 1],
                *dfs[t],
                strings_view(j.key_cols@),
                strings_view(j.key_cols@) + non_keys_before(j, t),
                strings_view(j.cols_non_key@[t]@),
                j.sorted,
                j.all_left,
                j.all_right,
                chain_src_l(qrys, chain, t),
                src_rows(qrys[t].kept_rows@, qrys[t].needs_filtering, dfs[t].n_row as nat),
            ),
{
    reveal(join_chain);
}

/// The left side of the join at step `i`: the first DataFrame, then the previous
/// output.
pub open spec fn left_side(i: int, first: DataFrame, acc: DataFrame) -> DataFrame {
    if i == 1 {
        first
    } else {
        acc
    }
}

/// The non-key columns of the first DataFrames are a prefix of those of more.
proof fn lemma_non_keys_prefix(j: Join, a: int, b: int)
    requires
        0 <= a <= b,
    ensures
        non_keys_before(j, a).len() <= non_keys_before(j, b).len(),
        non_keys_before(j, b).take(non_keys_before(j, a).len() as int) == non_keys_before(j, a),
    decreases b - a,
{
    if a < b {
        lemma_non_keys_prefix(j, a, b - 1);
        let x = non_keys_before(j, a);
        let y = non_keys_before(j, b - 1);
        assert(non_keys_before(j, b) == y + strings_view(j.cols_non_key@[b - 1]@));
        assert(non_keys_before(j, b).take(x.len() as int) =~= y.take(x.len() as int));
    } else {
        assert(non_keys_before(j, b).take(non_keys_before(j, a).len() as int) =~= non_keys_before(j, a));
    }
}

/// A prefix of names without repeats has none.
proof fn lemma_distinct_take(s: Seq<Seq<char>>, m: int)
    requires
        all_distinct(s),
        0 <= m <= s.len(),
    ensures
        all_distinct(s.take(m)),
{
    assert forall|a: int, b: int| 0 <= a < b < s.take(m).len() implies #[trigger] s.take(m)[a] != #[trigger] s.take(m)[b] by {
        assert(s.take(m)[a] == s[a]);
        assert(s.take(m)[b] == s[b]);
    }
}

/// The names from the keys and the non-key columns of the first `i` DataFrames
/// have no repeats.
proof fn lemma_distinct_upto(j: Join, keys: Seq<Seq<char>>, i: int, n: int)
    requires
        0 <= i <= n,
        all_distinct(keys + non_keys_before(j, n)),
    ensures
        all_distinct(keys + non_keys_before(j, i)),
{
    lemma_non_keys_prefix(j, i, n);
    let m: int = keys.len() as int + non_keys_before(j, i).len() as int;
    assert((keys + non_keys_before(j, n)).take(m) =~= keys + non_keys_before(j, i));
    lemma_distinct_take(keys + non_keys_before(j, n), m);
}

/// No name of the keys is kept once the keys are dropped.
proof fn lemma_kept_none(keys: Seq<Seq<char>>, m: int)
    requires
        0 <= m <= keys.len(),
    ensures
        kept_names(keys.take(m), keys) == Seq::<Seq<char>>::empty(),
    decreases m,
{
    if m > 0 {
        lemma_kept_none(keys, m - 1);
        assert(keys.take(m).drop_last() =~= keys.take(m - 1));
        crate::data_frame::factor::lemma_first_index(keys, keys[m - 1]);
        assert(keys.take(m).last() == keys[m - 1]);
        assert(first_index(keys, keys[m - 1]) >= 0);
    } else {
        assert(keys.take(m).len() == 0);
    }
}

/// Dropping the keys from the keys followed by other names leaves the others.
proof fn lemma_kept_after_keys(keys: Seq<Seq<char>>, x: Seq<Seq<char>>)
    requires
        all_distinct(keys + x),
    ensures
        kept_names(keys + x, keys) == x,
    decreases x.len(),
{
    if x.len() == 0 {
        lemma_kept_none(keys, keys.len() as int);
        assert(keys + x =~= keys.take(keys.len() as int));
    } else {
        let s = keys + x;
        assert(s.drop_last() =~= keys + x.drop_last());
        lemma_distinct_take(s, s.len() - 1);
        assert(s.take(s.len() - 1) =~= s.drop_last());
        lemma_kept_after_keys(keys, x.drop_last());
        assert(s.last() == x.last());
        crate::data_frame::factor::lemma_first_index(keys, x.last());
        if first_index(keys, x.last()) >= 0 {
            let k = first_index(keys, x.last());
            assert(s[k] == s[s.len() - 1]);
        }
        assert(x.drop_last().push(x.last()) =~= x);
    }
}

/// A well-formed DataFrame has each of its names as a column, and the column of
/// the name at a position is the column there.
pub proof fn lemma_names_own(df: DataFrame)
    requires
        df.wf(),
    ensures
        all_cols_of(df, df.names()),
        forall|k: int| 0 <= k < df.names().len() ==> df.col_of(#[trigger] df.names()[k]) == df.columns@[k],
{
    assert forall|k: int| 0 <= k < df.names().len() implies df.has_col(#[trigger] df.names()[k]) && df.col_of(
        df.names()[k],
    ) == df.columns@[k] by {
        lemma_first_index_distinct(df.names(), k);
    }
}

/// A DataFrame with all the names of a longer list has those of its prefix.
proof fn lemma_cols_prefix(df: DataFrame, s: Seq<Seq<char>>, m: int)
    requires
        all_cols_of(df, s),
        0 <= m <= s.len(),
    ensures
        all_cols_of(df, s.take(m)),
{
    assert forall|k: int| 0 <= k < s.take(m).len() implies df.has_col(#[trigger] s.take(m)[k]) by {
        assert(s.take(m)[k] == s[k]);
    }
}

/// Key columns of the same kinds have a text column in both or in neither.
pub proof fn lemma_same_string_keys(a: DataFrame, b: DataFrame, keys: Seq<Seq<char>>)
    requires
        forall|x: int| 0 <= x < keys.len() ==> (#[trigger] a.col_of(keys[x])).kind_of() == b.col_of(keys[x]).kind_of(),
    ensures
        has_string_col(a, keys) == has_string_col(b, keys),
{
    if has_string_col(a, keys) {
        let x = choose|x: int| 0 <= x < keys.len() && (#[trigger] a.col_of(keys[x])).kind_of() == crate::data_frame::column::ColKind::Str;
        assert(b.col_of(keys[x]).kind_of() == crate::data_frame::column::ColKind::Str);
    }
    if has_string_col(b, keys) {
        let x = choose|x: int| 0 <= x < keys.len() && (#[trigger] b.col_of(keys[x])).kind_of() == crate::data_frame::column::ColKind::Str;
        assert(a.col_of(keys[x]).kind_of() == crate::data_frame::column::ColKind::Str);
    }
}

/// What the loop of a chained join knows of the join record before step `t`.
#[verifier::opaque]
pub open spec fn record_at(j0: Join, j: Join, t: int) -> bool {
    let keys = strings_view(j0.key_cols@);
    let n = j0.n_dfs as int;
    &&& j.n_dfs == j0.n_dfs
    &&& j.sorted == j0.sorted
    &&& j.all_left == j0.all_left
    &&& j.all_right == j0.all_right
    &&& j.key_cols@ == j0.key_cols@
    &&& j.cols_all@.len() == n
    &&& j.cols_non_key@.len() == n
    &&& j.cols_out@.len() == n
    &&& forall|u: int| t <= u < n ==> #[trigger] j.cols_all@[u] == j0.cols_all@[u]
    &&& forall|u: int| t <= u < n ==> #[trigger] j.cols_non_key@[u] == j0.cols_non_key@[u]
    &&& forall|u: int| t <= u < n ==> #[trigger] j.cols_out@[u] == j0.cols_out@[u]
    &&& t < n ==> strings_view(j.cols_non_key@[t - 1]@) == non_keys_before(j0, t)
    &&& t < n ==> strings_view(j.cols_out@[t - 1]@) == keys + non_keys_before(j0, t)
}

/// Before step `t`, the join of the left side and the next DataFrame fits.
proof fn lemma_step_fits(
    j0: Join,
    j: Join,
    dfs: Seq<&DataFrame>,
    q0: Seq<Query>,
    left: DataFrame,
    ql: Query,
    qr: Query,
    t: int,
)
    requires
        join_ready(j0, dfs, q0),
        1 <= t < j0.n_dfs,
        record_at(j0, j, t),
        qr == q0[t],
        join_side_fits(ql, left, strings_view(j0.key_cols@)),
        all_cols_of(left, strings_view(j0.key_cols@) + non_keys_before(j0, t)),
        forall|x: int|
            0 <= x < j0.key_cols@.len() ==> (#[trigger] left.col_of(strings_view(j0.key_cols@)[x])).kind_of()
                == dfs[0].col_of(strings_view(j0.key_cols@)[x]).kind_of(),
    ensures
        crate::data_frame::join::join_fits(j, left, *dfs[t], ql, qr, t - 1, t, false),
        has_string_col(left, strings_view(j0.key_cols@)) == has_string_col(*dfs[0], strings_view(j0.key_cols@)),
        has_string_col(*dfs[t], strings_view(j0.key_cols@)) == has_string_col(*dfs[0], strings_view(j0.key_cols@)),
        j.key_cols@ == j0.key_cols@,
        j.sorted == j0.sorted,
        j.all_left == j0.all_left,
        j.all_right == j0.all_right,
        strings_view(j.cols_out@[t - 1]@) == strings_view(j0.key_cols@) + non_keys_before(j0, t),
        j.cols_non_key@[t] == j0.cols_non_key@[t],
{
    reveal(join_ready);
    reveal(record_at);
    let keys = strings_view(j0.key_cols@);
    let n = j0.n_dfs as int;
    assert(join_side_fits(q0[t], *dfs[t], keys));
    assert(strings_view(j0.cols_out@[t]@) == keys + strings_view(j0.cols_non_key@[t]@));
    assert(all_cols_of(*dfs[t], keys + strings_view(j0.cols_non_key@[t]@)));
    assert(j.cols_out@[t] == j0.cols_out@[t]);
    assert(j.cols_non_key@[t] == j0.cols_non_key@[t]);
    assert(j.cols_all@[t] == j0.cols_all@[t]);
    assert(non_keys_before(j0, t + 1) == non_keys_before(j0, t) + strings_view(j0.cols_non_key@[t]@));
    lemma_distinct_upto(j0, keys, t + 1, n);
    assert((keys + non_keys_before(j0, t)) + strings_view(j0.cols_non_key@[t]@) =~= keys + non_keys_before(j0, t + 1));
    assert forall|x: int| 0 <= x < keys.len() implies (#[trigger] dfs[t].col_of(keys[x])).kind_of() == dfs[0].col_of(
        keys[x],
    ).kind_of() by {}
    assert forall|x: int| 0 <= x < keys.len() implies (#[trigger] left.col_of(keys[x])).kind_of() == dfs[t].col_of(
        keys[x],
    ).kind_of() by {
        assert(dfs[t].col_of(keys[x]).kind_of() == dfs[0].col_of(keys[x]).kind_of());
    }
    lemma_same_string_keys(*dfs[t], *dfs[0], keys);
    lemma_same_string_keys(left, *dfs[0], keys);
}

/// After step `t`, the chain holds one more output, and the loop's facts hold
/// for the next step.
proof fn lemma_step_after(
    j0: Join,
    j: Join,
    j1: Join,
    dfs: Seq<&DataFrame>,
    q0: Seq<Query>,
    chain: Seq<DataFrame>,
    acc: DataFrame,
    left: DataFrame,
    ql: Query,
    qr: Query,
    qr1: Query,
    df_j: DataFrame,
    t: int,
    is_last: bool,
)
    requires
        join_ready(j0, dfs, q0),
        1 <= t < j0.n_dfs,
        is_last == (t == j0.n_dfs - 1),
        record_at(j0, j, t),
        qr == q0[t],
        left == left_side(t, *dfs[0], acc),
        t == 1 ==> ql == q0[0],
        t > 1 ==> ql.kept_rows@.len() == 0 && !ql.needs_filtering,
        join_chain(j0, dfs, q0, chain, t),
        t > 1 ==> chain[t - 1] == acc,
        forall|x: int|
            0 <= x < j0.key_cols@.len() ==> (#[trigger] left.col_of(strings_view(j0.key_cols@)[x])).kind_of()
                == dfs[0].col_of(strings_view(j0.key_cols@)[x]).kind_of(),
        ({
            let keys = strings_view(j0.key_cols@);
            let out_l = keys + non_keys_before(j0, t);
            let nk_r = strings_view(j0.cols_non_key@[t]@);
            &&& join_result(
                df_j,
                left,
                *dfs[t],
                keys,
                out_l,
                nk_r,
                j0.sorted,
                j0.all_left,
                j0.all_right,
                src_rows(ql.kept_rows@, ql.needs_filtering, left.n_row as nat),
                src_rows(qr.kept_rows@, qr.needs_filtering, dfs[t].n_row as nat),
            )
            &&& df_j.wf()
            &&& df_j.names() == out_l + nk_r
            &&& forall|x: int| 0 <= x < out_l.len() ==> (#[trigger] df_j.columns@[x]).kind_of() == left.col_of(out_l[x]).kind_of()
            &&& crate::data_frame::join::join_record_after(j, j1, t, is_last, df_j.names())
            &&& !is_last ==> crate::data_frame::join::query_after_join(qr, qr1)
        }),
    ensures
        join_chain(j0, dfs, q0, chain.push(df_j), t + 1),
        record_at(j0, j1, t + 1),
        df_j.names() == strings_view(j0.key_cols@) + non_keys_before(j0, t + 1),
        forall|x: int|
            0 <= x < j0.key_cols@.len() ==> (#[trigger] df_j.col_of(strings_view(j0.key_cols@)[x])).kind_of()
                == dfs[0].col_of(strings_view(j0.key_cols@)[x]).kind_of(),
        !is_last ==> join_side_fits(qr1, df_j, strings_view(j0.key_cols@)),
        !is_last ==> all_cols_of(df_j, strings_view(j0.key_cols@) + non_keys_before(j0, t + 1)),
        !is_last ==> qr1.kept_rows@.len() == 0 && !qr1.needs_filtering,
{
    reveal(join_ready);
    reveal(record_at);
    reveal(join_chain);
    let keys = strings_view(j0.key_cols@);
    let n = j0.n_dfs as int;
    let out_l = keys + non_keys_before(j0, t);
    let nk_r = strings_view(j0.cols_non_key@[t]@);
    let names = out_l + nk_r;
    assert(j.cols_non_key@[t] == j0.cols_non_key@[t]);
    assert(non_keys_before(j0, t + 1) == non_keys_before(j0, t) + nk_r);
    assert(names =~= keys + non_keys_before(j0, t + 1));
    lemma_names_own(df_j);
    let chain1 = chain.push(df_j);
    assert(chain1[t - 1] == left);
    assert(chain_src_l(q0, chain1, t) == src_rows(ql.kept_rows@, ql.needs_filtering, left.n_row as nat));
    assert forall|u: int| 1 <= u < t + 1 implies join_result(
        #[trigger] chain1[u],
        chain1[u - 1],
        *dfs[u],
        keys,
        keys + non_keys_before(j0, u),
        strings_view(j0.cols_non_key@[u]@),
        j0.sorted,
        j0.all_left,
        j0.all_right,
        chain_src_l(q0, chain1, u),
        src_rows(q0[u].kept_rows@, q0[u].needs_filtering, dfs[u].n_row as nat),
    ) by {
        if u < t {
            assert(chain1[u] == chain[u]);
            assert(chain1[u - 1] == chain[u - 1]);
            assert(chain_src_l(q0, chain1, u) == chain_src_l(q0, chain, u));
        }
    }
    assert forall|x: int| 0 <= x < keys.len() implies (#[trigger] df_j.col_of(keys[x])).kind_of() == dfs[0].col_of(
        keys[x],
    ).kind_of() by {
        assert(names[x] == keys[x]);
        assert(out_l[x] == keys[x]);
        assert(df_j.col_of(names[x]) == df_j.columns@[x]);
        assert(left.col_of(keys[x]).kind_of() == dfs[0].col_of(keys[x]).kind_of());
    }
    assert forall|u: int| t + 1 <= u < n implies #[trigger] j1.cols_all@[u] == j0.cols_all@[u] by {
        assert(j.cols_all@[u] == j0.cols_all@[u]);
    }
    assert forall|u: int| t + 1 <= u < n implies #[trigger] j1.cols_non_key@[u] == j0.cols_non_key@[u] by {
        assert(j.cols_non_key@[u] == j0.cols_non_key@[u]);
    }
    assert forall|u: int| t + 1 <= u < n implies #[trigger] j1.cols_out@[u] == j0.cols_out@[u] by {
        assert(j.cols_out@[u] == j0.cols_out@[u]);
    }
    if !is_last {
        lemma_distinct_upto(j0, keys, t + 1, n);
        lemma_kept_after_keys(keys, non_keys_before(j0, t + 1));
        lemma_cols_prefix(df_j, df_j.names(), keys.len() as int);
        assert(df_j.names().take(keys.len() as int) =~= keys);
        assert(join_side_fits(q0[t], *dfs[t], keys));
    }
}

/// Before the first join, the chain holds the first DataFrame, and the loop's
/// facts hold.
proof fn lemma_chain_start(j0: Join, dfs: Seq<&DataFrame>, q0: Seq<Query>)
    requires
        join_ready(j0, dfs, q0),
    ensures
        j0.n_dfs >= 2,
        dfs.len() == j0.n_dfs,
        q0.len() == j0.n_dfs,
        record_at(j0, j0, 1),
        join_chain(j0, dfs, q0, seq![*dfs[0]], 1),
        join_side_fits(q0[0], *dfs[0], strings_view(j0.key_cols@)),
        all_cols_of(*dfs[0], strings_view(j0.key_cols@) + non_keys_before(j0, 1)),
{
    reveal(join_ready);
    reveal(record_at);
    reveal(join_chain);
    let keys = strings_view(j0.key_cols@);
    assert(non_keys_before(j0, 0) =~= Seq::<Seq<char>>::empty());
    assert(non_keys_before(j0, 1) =~= strings_view(j0.cols_non_key@[0]@));
    assert(join_side_fits(q0[0], *dfs[0], keys));
    assert(all_cols_of(*dfs[0], keys + strings_view(j0.cols_non_key@[0]@)));
    assert(strings_view(j0.cols_out@[0]@) == keys + strings_view(j0.cols_non_key@[0]@));
}

impl Join {
    /// Merge two or more DataFrames by their key columns, left to right: the
    /// first two are joined, then each join's output with the next DataFrame.
    /// Joins on text keys are refused.
    #[verifier::spinoff_prover]
    #[verifier::rlimit(80)]
    pub fn execute_join(&mut self, dfs: Vec<&DataFrame>, qrys: Vec<Query>) -> (r: Result<DataFrame, DfError>)
        requires
            join_ready(*old(self), dfs@, qrys@),
        ensures
            ({
                let keys = strings_view(old(self).key_cols@);
                let n = old(self).n_dfs as int;
                &&& (r is Err) == has_string_col(*dfs@[0], keys)
                &&& r matches Ok(df) ==> {
                    &&& df.wf()
                    &&& df.names() == keys + non_keys_before(*old(self), n)
                    &&& exists|chain: Seq<DataFrame>|
                        #![trigger join_chain(*old(self), dfs@, qrys@, chain, n)]
                        join_chain(*old(self), dfs@, qrys@, chain, n) && chain[n - 1] == df
                }
            }),
    {
        let ghost j0 = *self;
        let ghost q0 = qrys@;
        let ghost keys = strings_view(self.key_cols@);
        let ghost n_i = j0.n_dfs as int;
        proof {
            lemma_chain_start(j0, dfs@, q0);
        }
        let mut qrys = qrys;
        let n = self.n_dfs;
        let mut q_l = qrys.remove(0);
        let mut acc = DataFrame::new();
        let ghost mut chain: Seq<DataFrame> = seq![*dfs@[0]];
        proof {
            assert(qrys@ =~= q0.subrange(1, n_i));
        }
        let mut i: usize = 1;
        while i < n
            invariant
                j0 == *old(self),
                join_ready(j0, dfs@, q0),
                keys == strings_view(j0.key_cols@),
                n == j0.n_dfs,
                n_i == n,
                q0.len() == n,
                dfs@.len() == n,
                n >= 2,
                1 <= i <= n,
                record_at(j0, *self, i as int),
                qrys@ == q0.subrange(i as int, n_i),
                i == 1 ==> q_l == q0[0],
                1 < i < n ==> q_l.kept_rows@.len() == 0 && !q_l.needs_filtering,
                i < n ==> join_side_fits(q_l, left_side(i as int, *dfs@[0], acc), keys),
                i < n ==> all_cols_of(left_side(i as int, *dfs@[0], acc), keys + non_keys_before(j0, i as int)),
                forall|x: int|
                    0 <= x < keys.len() ==> (#[trigger] (left_side(i as int, *dfs@[0], acc)).col_of(keys[x])).kind_of()
                        == dfs@[0].col_of(keys[x]).kind_of(),
                join_chain(j0, dfs@, q0, chain, i as int),
                chain.len() == i,
                i > 1 ==> chain[i - 1] == acc,
                i > 1 ==> acc.wf(),
                i > 1 ==> acc.names() == keys + non_keys_before(j0, i as int),
                i > 1 ==> !has_string_col(*dfs@[0], keys),
            decreases n - i,
        {
            let ghost left = left_side(i as int, *dfs@[0], acc);
            let ghost self0 = *self;
            let ghost ql0 = q_l;
            let mut q_r = qrys.remove(0);
            let ghost qr0 = q_r;
            let is_last = i == n - 1;
            proof {
                assert(q_r == q0[i as int]);
                assert(qrys@ =~= q0.subrange(i + 1, n_i));
                lemma_step_fits(j0, self0, dfs@, q0, left, ql0, qr0, i as int);
            }
            let res = if i == 1 {
                self.join_two_dfs(dfs[0], dfs[1], &mut q_l, &mut q_r, 0, 1, is_last)
            } else {
                self.join_two_dfs(&acc, dfs[i], &mut q_l, &mut q_r, i - 1, i, is_last)
            };
            let df_j = match res {
                Ok(d) => d,
                Err(e) => {
                    proof {
                        assert(strings_view(self0.key_cols@) == keys);
                        assert(has_string_col(left, keys) || has_string_col(*dfs@[i as int], keys));
                    }
                    return Err(e);
                },
            };
            proof {
                lemma_step_after(j0, self0, *self, dfs@, q0, chain, acc, left, ql0, qr0, q_r, df_j, i as int, is_last);
                chain = chain.push(df_j);
                assert(left_side(i + 1, *dfs@[0], df_j) == df_j);
                assert forall|x: int| 0 <= x < keys.len() implies (#[trigger] df_j.col_of(keys[x])).kind_of()
                    == dfs@[0].col_of(keys[x]).kind_of() by {}
            }
            acc = df_j;
            q_l = q_r;
            i = i + 1;
        }
        Ok(acc)
    }
}

} // verus!
