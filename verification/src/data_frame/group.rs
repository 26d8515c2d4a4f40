//! Grouping: splitting a query's row map into groups of rows with equal keys over
//! the grouping columns, and aggregating a column over each group.
use vstd::prelude::*;
use crate::data_frame::column::{Column, ColKind, ColType, strings_view, cells_of};
use crate::data_frame::frame::{DataFrame, DfError, grown_col, rows_compatible};
use crate::data_frame::key::key_eq;
use crate::data_frame::rowkey::{row_key, cols_at};
use crate::data_frame::factor::{all_distinct, clone_strings, first_index, lemma_first_index};
use crate::data_frame::query::{
    Query, all_cols_of, cols_named, map_srcs, reorders, rows_sorted, selected_from, src_rows,
    has_string_col, q_filtering, lemma_reorders_refl, lemma_kept_positions, map_of,
};

verus! {

/// The sequences of a sequence of sequences, one after another.
pub open spec fn concat<A>(gs: Seq<Seq<A>>) -> Seq<A>
    decreases gs.len(),
{
    if gs.len() == 0 {
        Seq::empty()
    } else {
        concat(gs.drop_last()) + gs.last()
    }
}

/// The sequences held by a vector of groups.
pub open spec fn groups_view(gs: Seq<Vec<(usize, usize, usize)>>) -> Seq<Seq<(usize, usize, usize)>> {
    gs.map_values(|g: Vec<(usize, usize, usize)>| g@)
}

/// Ascending order for no column.
pub open spec fn no_negates(n: nat) -> Seq<bool> {
    Seq::new(n, |i: int| false)
}

/// The group key of a row map entry: the key of its source row over the grouping
/// columns, all ascending.
pub open spec fn entry_key(cols: Seq<Column>, e: (usize, usize, usize)) -> Seq<u8> {
    row_key(cols, no_negates(cols.len()), e.0 as int)
}

/// Every group is non-empty and its entries share the key of its first entry.
pub open spec fn groups_keyed(cols: Seq<Column>, gs: Seq<Seq<(usize, usize, usize)>>) -> bool {
    forall|g: int|
        0 <= g < gs.len() ==> (#[trigger] gs[g]).len() > 0 && forall|i: int|
            0 <= i < gs[g].len() ==> entry_key(cols, #[trigger] gs[g][i]) == entry_key(cols, gs[g][0])
}

/// Neighbouring groups have different keys: each group is a maximal run.
pub open spec fn groups_are_runs(cols: Seq<Column>, gs: Seq<Seq<(usize, usize, usize)>>) -> bool {
    forall|g: int|
        0 <= g < gs.len() - 1 ==> entry_key(cols, (#[trigger] gs[g])[0]) != entry_key(cols, gs[g + 1][0])
}

/// A falses vector of length `n`.
pub fn falses(n: usize) -> (v: Vec<bool>)
    ensures
        v@ == no_negates(n as nat),
{
    let v = vec![false; n];
    assert(v@ =~= no_negates(n as nat));
    v
}

/// Split a row map into maximal runs of entries with equal keys over the columns
/// at `pos`.
pub fn split_runs(df: &DataFrame, pos: &Vec<usize>, m: &Vec<(usize, usize, usize)>) -> (gs: Vec<
    Vec<(usize, usize, usize)>,
>)
    requires
        df.wf(),
        forall|i: int| 0 <= i < pos@.len() ==> #[trigger] pos@[i] < df.columns@.len(),
        forall|k: int| 0 <= k < m@.len() ==> (#[trigger] m@[k]).0 < df.n_row,
    ensures
        concat(groups_view(gs@)) == m@,
        groups_keyed(cols_at(*df, pos@), groups_view(gs@)),
        groups_are_runs(cols_at(*df, pos@), groups_view(gs@)),
{
    let ghost cols = cols_at(*df, pos@);
    let negs = falses(pos.len());
    let n = m.len();
    let mut gs: Vec<Vec<(usize, usize, usize)>> = Vec::new();
    let mut cur: Vec<(usize, usize, usize)> = Vec::new();
    let mut cur_key: Vec<u8> = Vec::new();
    let mut k: usize = 0;
    while k < n
        invariant
            df.wf(),
            cols == cols_at(*df, pos@),
            negs@ == no_negates(pos@.len() as nat),
            forall|i: int| 0 <= i < pos@.len() ==> #[trigger] pos@[i] < df.columns@.len(),
            forall|i: int| 0 <= i < m@.len() ==> (#[trigger] m@[i]).0 < df.n_row,
            n == m@.len(),
            k <= n,
            concat(groups_view(gs@)) + cur@ == m@.take(k as int),
            groups_keyed(cols, groups_view(gs@)),
            groups_are_runs(cols, groups_view(gs@)),
            k > 0 ==> cur@.len() > 0,
            forall|i: int| 0 <= i < cur@.len() ==> entry_key(cols, #[trigger] cur@[i]) == cur_key@,
            gs@.len() > 0 && cur@.len() > 0 ==> entry_key(cols, gs@.last()@[0]) != cur_key@,
        decreases n - k,
    {
        let ghost gv = groups_view(gs@);
        let key = df.row_key_at(pos, &negs, m[k].0);
        assert(cols.len() == pos@.len());
        assert(key@ == entry_key(cols, m@[k as int]));
        if cur.len() > 0 && key_eq(&key, &cur_key) {
            cur.push(m[k]);
            assert(m@.take(k + 1) =~= m@.take(k as int).push(m@[k as int]));
            assert(concat(gv) + cur@ =~= m@.take(k + 1));
        } else {
            if cur.len() > 0 {
                let ghost cv = cur@;
                gs.push(cur);
                proof {
                    let gv2 = groups_view(gs@);
                    assert(gv2 =~= gv.push(cv));
                    assert(gv2.drop_last() =~= gv);
                    assert(concat(gv2) == concat(gv) + cv);
                    assert forall|g: int| 0 <= g < gv2.len() implies (#[trigger] gv2[g]).len() > 0 && forall|i: int|
                        0 <= i < gv2[g].len() ==> entry_key(cols, #[trigger] gv2[g][i]) == entry_key(cols, gv2[g][0]) by {
                        if g < gv.len() {
                            assert(gv2[g] == gv[g]);
                        }
                    }
                    assert forall|g: int| 0 <= g < gv2.len() - 1 implies entry_key(cols, (#[trigger] gv2[g])[0])
                        != entry_key(cols, gv2[g + 1][0]) by {
                        if g < gv.len() - 1 {
                            assert(gv2[g] == gv[g]);
                            assert(gv2[g + 1] == gv[g + 1]);
                        } else {
                            assert(gv2[g] == gv.last());
                            assert(gv2[g + 1] == cv);
                        }
                    }
                }
            }
            cur = Vec::new();
            cur.push(m[k]);
            proof {
                let gv2 = groups_view(gs@);
                assert(m@.take(k + 1) =~= m@.take(k as int).push(m@[k as int]));
                assert(concat(gv2) + cur@ =~= m@.take(k + 1));
            }
            cur_key = key;
        }
        k = k + 1;
    }
    if cur.len() > 0 {
        let ghost gv = groups_view(gs@);
        let ghost cv = cur@;
        gs.push(cur);
        proof {
            let gv2 = groups_view(gs@);
            assert(gv2 =~= gv.push(cv));
            assert(gv2.drop_last() =~= gv);
            assert forall|g: int| 0 <= g < gv2.len() implies (#[trigger] gv2[g]).len() > 0 && forall|i: int|
                0 <= i < gv2[g].len() ==> entry_key(cols, #[trigger] gv2[g][i]) == entry_key(cols, gv2[g][0]) by {
                if g < gv.len() {
                    assert(gv2[g] == gv[g]);
                }
            }
            assert forall|g: int| 0 <= g < gv2.len() - 1 implies entry_key(cols, (#[trigger] gv2[g])[0])
                != entry_key(cols, gv2[g + 1][0]) by {
                if g < gv.len() - 1 {
                    assert(gv2[g] == gv[g]);
                    assert(gv2[g + 1] == gv[g + 1]);
                } else {
                    assert(gv2[g] == gv.last());
                    assert(gv2[g + 1] == cv);
                }
            }
        }
    }
    assert(m@.take(n as int) =~= m@);
    gs
}


/// The keys in order of first appearance, each once.
pub open spec fn first_keys(ks: Seq<Seq<u8>>) -> Seq<Seq<u8>>
    decreases ks.len(),
{
    if ks.len() == 0 {
        Seq::empty()
    } else {
        let p = first_keys(ks.drop_last());
        if p.contains(ks.last()) { p } else { p.push(ks.last()) }
    }
}

/// The group keys of the entries of a row map, in order.
pub open spec fn entry_keys(cols: Seq<Column>, m: Seq<(usize, usize, usize)>) -> Seq<Seq<u8>> {
    m.map_values(|e: (usize, usize, usize)| entry_key(cols, e))
}

/// The entries of a row map whose group key is `k`, in order.
pub open spec fn with_key(cols: Seq<Column>, m: Seq<(usize, usize, usize)>, k: Seq<u8>) -> Seq<(usize, usize, usize)> {
    m.filter(|e: (usize, usize, usize)| entry_key(cols, e) == k)
}

/// Filtering a sequence in which nothing passes gives nothing.
proof fn lemma_filter_none(cols: Seq<Column>, m: Seq<(usize, usize, usize)>, k: Seq<u8>)
    requires
        forall|i: int| 0 <= i < m.len() ==> entry_key(cols, #[trigger] m[i]) != k,
    ensures
        with_key(cols, m, k) == Seq::<(usize, usize, usize)>::empty(),
    decreases m.len(),
{
    reveal(Seq::filter);
    if m.len() > 0 {
        let d = m.drop_last();
        assert forall|i: int| 0 <= i < d.len() implies entry_key(cols, #[trigger] d[i]) != k by {
            assert(d[i] == m[i]);
        }
        lemma_filter_none(cols, d, k);
        assert(entry_key(cols, m[m.len() - 1]) != k);
        let f = |e: (usize, usize, usize)| entry_key(cols, e) == k;
        assert(!f(m.last()));
        assert(m.filter(f) == d.filter(f));
    }
}

/// The entries of a key are entries of the row map.
pub proof fn lemma_with_key_member(cols: Seq<Column>, m: Seq<(usize, usize, usize)>, k: Seq<u8>, x: (usize, usize, usize))
    requires
        with_key(cols, m, k).contains(x),
    ensures
        m.contains(x),
        entry_key(cols, x) == k,
    decreases m.len(),
{
    reveal(Seq::filter);
    if m.len() > 0 {
        let d = m.drop_last();
        let f = |e: (usize, usize, usize)| entry_key(cols, e) == k;
        let w = with_key(cols, m, k);
        let j = choose|j: int| 0 <= j < w.len() && w[j] == x;
        if f(m.last()) && j == w.len() - 1 {
            assert(m[m.len() - 1] == x);
        } else {
            assert(with_key(cols, d, k)[j] == x);
            assert(with_key(cols, d, k).contains(x));
            lemma_with_key_member(cols, d, k, x);
            let i = choose|i: int| 0 <= i < d.len() && d[i] == x;
            assert(m[i] == x);
        }
    }
}

/// Extending a row map by one entry extends the entries of its key.
proof fn lemma_with_key_step(cols: Seq<Column>, m: Seq<(usize, usize, usize)>, k: int, key: Seq<u8>)
    requires
        0 <= k < m.len(),
    ensures
        with_key(cols, m.take(k + 1), key) == (if entry_key(cols, m[k]) == key {
            with_key(cols, m.take(k), key).push(m[k])
        } else {
            with_key(cols, m.take(k), key)
        }),
{
    reveal(Seq::filter);
    let t = m.take(k + 1);
    assert(t.drop_last() =~= m.take(k));
    assert(t.last() == m[k]);
    let f = |e: (usize, usize, usize)| entry_key(cols, e) == key;
    assert(t.filter(f) == (if f(t.last()) { t.drop_last().filter(f).push(t.last()) } else { t.drop_last().filter(f) }));
}

/// Collect the entries of a row map into groups of equal key over the columns at
/// `pos`: one group per key, in order of first appearance, each with its entries
/// in row map order.
pub fn bucket_by_key(df: &DataFrame, pos: &Vec<usize>, m: &Vec<(usize, usize, usize)>) -> (gs: Vec<
    Vec<(usize, usize, usize)>,
>)
    requires
        df.wf(),
        forall|i: int| 0 <= i < pos@.len() ==> #[trigger] pos@[i] < df.columns@.len(),
        forall|k: int| 0 <= k < m@.len() ==> (#[trigger] m@[k]).0 < df.n_row,
    ensures
        gs@.len() == first_keys(entry_keys(cols_at(*df, pos@), m@)).len(),
        forall|g: int|
            0 <= g < gs@.len() ==> (#[trigger] gs@[g])@ == with_key(
                cols_at(*df, pos@),
                m@,
                first_keys(entry_keys(cols_at(*df, pos@), m@))[g],
            ) && gs@[g]@.len() > 0,
{
    let ghost cols = cols_at(*df, pos@);
    let ghost ks = entry_keys(cols, m@);
    let negs = falses(pos.len());
    let n = m.len();
    let mut ukeys: Vec<Vec<u8>> = Vec::new();
    let mut gs: Vec<Vec<(usize, usize, usize)>> = Vec::new();
    let mut k: usize = 0;
    while k < n
        invariant
            df.wf(),
            cols == cols_at(*df, pos@),
            ks == entry_keys(cols, m@),
            negs@ == no_negates(pos@.len() as nat),
            forall|i: int| 0 <= i < pos@.len() ==> #[trigger] pos@[i] < df.columns@.len(),
            forall|i: int| 0 <= i < m@.len() ==> (#[trigger] m@[i]).0 < df.n_row,
            n == m@.len(),
            k <= n,
            ukeys@.len() == gs@.len(),
            ukeys@.map_values(|u: Vec<u8>| u@) == first_keys(ks.take(k as int)),
            forall|g: int|
                0 <= g < gs@.len() ==> (#[trigger] gs@[g])@ == with_key(cols, m@.take(k as int), ukeys@[g]@)
                    && gs@[g]@.len() > 0,
            forall|i: int| 0 <= i < k ==> ukeys@.map_values(|u: Vec<u8>| u@).contains(#[trigger] ks[i]),
            ukeys@.map_values(|u: Vec<u8>| u@).no_duplicates(),
        decreases n - k,
    {
        let ghost uv = ukeys@.map_values(|u: Vec<u8>| u@);
        let ghost gv = gs@;
        let key = df.row_key_at(pos, &negs, m[k].0);
        assert(cols.len() == pos@.len());
        assert(key@ == ks[k as int]);
        proof {
            assert(ks.take(k + 1).drop_last() =~= ks.take(k as int));
            assert(ks.take(k + 1).last() == ks[k as int]);
        }
        // find the group of the key
        let mut g: usize = 0;
        let mut found = false;
        while g < ukeys.len() && !found
            invariant
                g <= ukeys@.len(),
                uv == ukeys@.map_values(|u: Vec<u8>| u@),
                !found ==> forall|h: int| 0 <= h < g ==> uv[h] != key@,
                found ==> g < ukeys@.len() && uv[g as int] == key@,
            decreases ukeys@.len() - g + (if found { 0int } else { 1int }),
        {
            if key_eq(&ukeys[g], &key) {
                found = true;
            } else {
                g = g + 1;
            }
        }
        if found {
            let mut b = gs.remove(g);
            b.push(m[k]);
            gs.insert(g, b);
            proof {
                assert forall|h: int| 0 <= h < gs@.len() implies (#[trigger] gs@[h])@ == with_key(
                    cols,
                    m@.take(k + 1),
                    ukeys@[h]@,
                ) && gs@[h]@.len() > 0 by {
                    lemma_with_key_step(cols, m@, k as int, ukeys@[h]@);
                    if h != g {
                        assert(gs@[h] == gv[h]);
                        assert(uv[h] != uv[g as int]);
                    }
                }
                assert(uv.contains(ks[k as int]));
                assert forall|i: int| 0 <= i < k + 1 implies uv.contains(#[trigger] ks[i]) by {}
            }
        } else {
            proof {
                assert(!uv.contains(key@));
                assert forall|i: int| 0 <= i < m@.take(k as int).len() implies entry_key(
                    cols,
                    #[trigger] m@.take(k as int)[i],
                ) != key@ by {
                    assert(m@.take(k as int)[i] == m@[i]);
                    assert(ks[i] == entry_key(cols, m@[i]));
                    assert(uv.contains(ks[i]));
                }
                lemma_filter_none(cols, m@.take(k as int), key@);
                lemma_with_key_step(cols, m@, k as int, key@);
            }
            let mut b: Vec<(usize, usize, usize)> = Vec::new();
            b.push(m[k]);
            let ghost key_v = key@;
            gs.push(b);
            ukeys.push(key);
            proof {
                let uv2 = ukeys@.map_values(|u: Vec<u8>| u@);
                assert(uv2 =~= uv.push(key_v));
                assert(gs@[gs@.len() - 1]@ =~= with_key(cols, m@.take(k + 1), key_v));
                assert forall|h: int| 0 <= h < gs@.len() implies (#[trigger] gs@[h])@ == with_key(
                    cols,
                    m@.take(k + 1),
                    ukeys@[h]@,
                ) && gs@[h]@.len() > 0 by {
                    if h < gv.len() {
                        lemma_with_key_step(cols, m@, k as int, ukeys@[h]@);
                        assert(gs@[h] == gv[h]);
                        assert(uv2[h] == uv[h]);
                        assert(uv[h] != key_v);
                    }
                }
                assert forall|i: int| 0 <= i < k + 1 implies uv2.contains(#[trigger] ks[i]) by {
                    if i < k {
                        let j = choose|j: int| 0 <= j < uv.len() && uv[j] == ks[i];
                        assert(uv2[j] == ks[i]);
                    } else {
                        assert(uv2[uv.len() as int] == ks[i]);
                    }
                }
                assert(uv2.no_duplicates()) by {
                    assert forall|a: int, b: int| 0 <= a < uv2.len() && 0 <= b < uv2.len() && a != b implies uv2[a]
                        != uv2[b] by {
                        if a < uv.len() && b < uv.len() {
                        } else if a < uv.len() {
                            assert(uv2[a] == uv[a]);
                        } else {
                            assert(uv2[b] == uv[b]);
                        }
                    }
                }
            }
        }
        k = k + 1;
    }
    assert(ks.take(n as int) =~= ks);
    assert(m@.take(n as int) =~= m@);
    proof {
        assert forall|g: int| 0 <= g < gs@.len() implies (#[trigger] gs@[g])@ == with_key(
            cols,
            m@,
            first_keys(ks)[g],
        ) && gs@[g]@.len() > 0 by {
            assert(ukeys@.map_values(|u: Vec<u8>| u@)[g] == ukeys@[g]@);
        }
    }
    gs
}


/// The entries of `gs` with their filtered-and-sorted positions renumbered to
/// their places in the concatenation of the groups, and that concatenation.
pub fn renumber(gs: &Vec<Vec<(usize, usize, usize)>>) -> (r: (Vec<Vec<(usize, usize, usize)>>, Vec<
    (usize, usize, usize),
>))
    ensures
        r.0@.len() == gs@.len(),
        forall|g: int|
            0 <= g < gs@.len() ==> (#[trigger] r.0@[g])@.len() == gs@[g]@.len() && forall|i: int|
                0 <= i < gs@[g]@.len() ==> (#[trigger] r.0@[g]@[i]).0 == gs@[g]@[i].0 && r.0@[g]@[i].1
                    == gs@[g]@[i].1,
        concat(groups_view(r.0@)) == r.1@,
        forall|k: int| 0 <= k < r.1@.len() ==> (#[trigger] r.1@[k]).2 == k,
{
    let mut out: Vec<Vec<(usize, usize, usize)>> = Vec::new();
    let mut m: Vec<(usize, usize, usize)> = Vec::new();
    let mut g: usize = 0;
    while g < gs.len()
        invariant
            g <= gs@.len(),
            out@.len() == g,
            forall|h: int|
                0 <= h < g ==> (#[trigger] out@[h])@.len() == gs@[h]@.len() && forall|i: int|
                    0 <= i < gs@[h]@.len() ==> (#[trigger] out@[h]@[i]).0 == gs@[h]@[i].0 && out@[h]@[i].1
                        == gs@[h]@[i].1,
            concat(groups_view(out@)) == m@,
            forall|k: int| 0 <= k < m@.len() ==> (#[trigger] m@[k]).2 == k,
        decreases gs@.len() - g,
    {
        let mut b: Vec<(usize, usize, usize)> = Vec::new();
        let ghost m0 = m@;
        let mut i: usize = 0;
        while i < gs[g].len()
            invariant
                g < gs@.len(),
                i <= gs@[g as int]@.len(),
                b@.len() == i,
                m@ == m0 + b@,
                forall|j: int| 0 <= j < i ==> (#[trigger] b@[j]).0 == gs@[g as int]@[j].0 && b@[j].1 == gs@[g as int]@[j].1,
                forall|k: int| 0 <= k < m@.len() ==> (#[trigger] m@[k]).2 == k,
            decreases gs@[g as int]@.len() - i,
        {
            let e = gs[g][i];
            let k = m.len();
            b.push((e.0, e.1, k));
            m.push((e.0, e.1, k));
            i = i + 1;
        }
        let ghost ov = groups_view(out@);
        let ghost bv = b@;
        out.push(b);
        proof {
            let ov2 = groups_view(out@);
            assert(ov2 =~= ov.push(bv));
            assert(ov2.drop_last() =~= ov);
        }
        g = g + 1;
    }
    (out, m)
}

/// The present values of a column's data at the filtered-and-sorted positions of
/// a group's entries, in order: the group's values with NA removed.
pub open spec fn present_vals<A>(data: Seq<Option<A>>, grp: Seq<(usize, usize, usize)>) -> Seq<A> {
    grp.filter_map(|e: (usize, usize, usize)| data[e.2 as int])
}

/// The present values of a group, computed.
fn group_vals<A: ColType>(data: &Vec<Option<A>>, grp: &Vec<(usize, usize, usize)>) -> (vals: Vec<A>)
    requires
        forall|i: int| 0 <= i < grp@.len() ==> (#[trigger] grp@[i]).2 < data@.len(),
    ensures
        vals@ == present_vals(data@, grp@),
{
    let mut vals: Vec<A> = Vec::new();
    let mut i: usize = 0;
    while i < grp.len()
        invariant
            forall|j: int| 0 <= j < grp@.len() ==> (#[trigger] grp@[j]).2 < data@.len(),
            i <= grp@.len(),
            vals@ == present_vals(data@, grp@.take(i as int)),
        decreases grp@.len() - i,
    {
        let ghost t = grp@.take(i + 1);
        assert(t.drop_last() =~= grp@.take(i as int));
        assert(t.last() == grp@[i as int]);
        match A::copy_opt(&data[grp[i].2]) {
            Some(v) => {
                vals.push(v);
                assert(vals@ =~= present_vals(data@, grp@.take(i as int)) + seq![v]);
            },
            None => {},
        }
        i = i + 1;
    }
    assert(grp@.take(grp@.len() as int) =~= grp@);
    vals
}

/// The aggregate of each group: NA when the group has no present value (NA
/// values are removed), else `op` of the present values.
pub open spec fn aggregated<A, O>(
    data: Seq<Option<A>>,
    gs: Seq<Seq<(usize, usize, usize)>>,
    na_val: Option<O>,
    op: impl Fn(Vec<A>) -> O,
    out: Seq<Option<O>>,
) -> bool {
    &&& out.len() == gs.len()
    &&& forall|g: int|
        0 <= g < gs.len() ==> if present_vals(data, #[trigger] gs[g]).len() == 0 {
            out[g] == na_val
        } else {
            exists|v: Vec<A>, o: O| v@ == present_vals(data, gs[g]) && op.ensures((v,), o) && out[g] == Some(o)
        }
}

/// The operation accepts the present values of every group that has some.
pub open spec fn op_admits<A, O>(op: impl Fn(Vec<A>) -> O, data: Seq<Option<A>>, gs: Seq<Seq<(usize, usize, usize)>>) -> bool {
    forall|g: int, v: Vec<A>|
        0 <= g < gs.len() && v@ == present_vals(data, #[trigger] gs[g]) && v@.len() > 0 ==> #[trigger] op.requires((v,))
}

/// Aggregate a column's data over each group.
pub fn aggregate_groups<A: ColType, O: ColType>(
    data: &Vec<Option<A>>,
    gs: &Vec<Vec<(usize, usize, usize)>>,
    na_val: Option<O>,
    op: impl Fn(Vec<A>) -> O,
) -> (out: Vec<Option<O>>)
    requires
        forall|g: int, i: int|
            0 <= g < gs@.len() && 0 <= i < gs@[g]@.len() ==> (#[trigger] gs@[g]@[i]).2 < data@.len(),
        op_admits(op, data@, groups_view(gs@)),
    ensures
        aggregated(data@, groups_view(gs@), na_val, op, out@),
{
    let ghost gv = groups_view(gs@);
    let mut out: Vec<Option<O>> = Vec::new();
    let mut g: usize = 0;
    while g < gs.len()
        invariant
            gv == groups_view(gs@),
            forall|h: int, i: int|
                0 <= h < gs@.len() && 0 <= i < gs@[h]@.len() ==> (#[trigger] gs@[h]@[i]).2 < data@.len(),
            op_admits(op, data@, gv),
            g <= gs@.len(),
            out@.len() == g,
            forall|h: int|
                0 <= h < g ==> if present_vals(data@, #[trigger] gv[h]).len() == 0 {
                    out@[h] == na_val
                } else {
                    exists|v: Vec<A>, o: O| v@ == present_vals(data@, gv[h]) && op.ensures((v,), o) && out@[h] == Some(o)
                },
        decreases gs@.len() - g,
    {
        assert(gv[g as int] == gs@[g as int]@);
        let vals = group_vals(data, &gs[g]);
        if vals.len() == 0 {
            out.push(O::copy_opt(&na_val));
        } else {
            let ghost vv = vals;
            assert(op.requires((vals,)));
            let o = op(vals);
            out.push(Some(o));
            assert(vv@ == present_vals(data@, gv[g as int]) && op.ensures((vv,), o) && out@[g as int] == Some(o));
        }
        g = g + 1;
    }
    out
}


/// Every entry of a group is an entry of the concatenation of the groups.
pub proof fn lemma_concat_contains<A>(gs: Seq<Seq<A>>, g: int, i: int)
    requires
        0 <= g < gs.len(),
        0 <= i < gs[g].len(),
    ensures
        concat(gs).contains(gs[g][i]),
    decreases gs.len(),
{
    let c = concat(gs);
    let p = concat(gs.drop_last());
    if g == gs.len() - 1 {
        assert(c[p.len() + i] == gs[g][i]);
    } else {
        lemma_concat_contains(gs.drop_last(), g, i);
        assert(gs.drop_last()[g] == gs[g]);
        let k = choose|k: int| 0 <= k < p.len() && p[k] == gs[g][i];
        assert(c[k] == gs[g][i]);
    }
}

/// Every entry of the concatenation of groups is an entry of some group.
pub proof fn lemma_concat_member<A>(gs: Seq<Seq<A>>, k: int)
    requires
        0 <= k < concat(gs).len(),
    ensures
        exists|g: int, i: int| 0 <= g < gs.len() && 0 <= i < gs[g].len() && concat(gs)[k] == #[trigger] gs[g][i],
    decreases gs.len(),
{
    let p = concat(gs.drop_last());
    if k < p.len() {
        lemma_concat_member(gs.drop_last(), k);
        let (g, i) = choose|g: int, i: int|
            0 <= g < gs.drop_last().len() && 0 <= i < gs.drop_last()[g].len() && p[k] == #[trigger] gs.drop_last()[g][i];
        assert(gs[g] == gs.drop_last()[g]);
        assert(concat(gs)[k] == gs[g][i]);
    } else {
        let g = gs.len() - 1;
        assert(concat(gs)[k] == gs[g][k - p.len()]);
    }
}

/// The source row of the first entry of each group.
pub open spec fn first_rows(gs: Seq<Seq<(usize, usize, usize)>>) -> Seq<int> {
    gs.map_values(|g: Seq<(usize, usize, usize)>| g[0].0 as int)
}

/// `fss` holds the named columns of `df` at the filtered-and-sorted position of
/// every group entry: the cell at an entry's position is the cell of its source row.
pub open spec fn fss_matches(
    fss: DataFrame,
    df: DataFrame,
    names: Seq<Seq<char>>,
    gs: Seq<Seq<(usize, usize, usize)>>,
) -> bool {
    &&& fss.wf()
    &&& all_cols_of(fss, names)
    &&& forall|j: int| 0 <= j < names.len() ==> (#[trigger] fss.col_of(names[j])).kind_of() == df.col_of(names[j]).kind_of()
    &&& forall|g: int, i: int| 0 <= g < gs.len() && 0 <= i < gs[g].len() ==> (#[trigger] gs[g][i]).2 < fss.n_row
    &&& forall|j: int, g: int, i: int|
        0 <= j < names.len() && 0 <= g < gs.len() && 0 <= i < gs[g].len() ==> #[trigger] fss.col_of(
            names[j],
        ).cells()[gs[g][i].2 as int] == df.col_of(names[j]).cells()[gs[g][i].0 as int]
}

/// The columns a group-by query groups by, after it settles its sort.
pub open spec fn grouping_names(q: Query) -> Seq<Seq<char>> {
    if q.has_been_grouped { strings_view(q.group_cols@) } else { strings_view(q.sort_cols@) }
}

/// What a group-by query may ask of a DataFrame.
pub open spec fn group_query_fits(q: Query, df: DataFrame) -> bool {
    &&& q.has_been_grouped || q.has_been_sorted
    &&& all_cols_of(df, grouping_names(q))
    &&& all_distinct(grouping_names(q))
    &&& all_cols_of(df, strings_view(q.agg_cols@))
    &&& all_distinct(strings_view(q.agg_cols@))
    &&& all_cols_of(df, strings_view(q.sort_cols@))
    &&& q.sort_negates@.len() == q.sort_cols@.len()
    &&& q.kept_rows@.len() < df.n_row ==> forall|i: int| 0 <= i < q.kept_rows@.len() ==> #[trigger] q.kept_rows@[i]
}

/// The sort directions of a group-by query once it settles its sort: ascending
/// grouping columns when it asked for a sort by them, else its own.
pub open spec fn settled_sort_negates(q: Query) -> Seq<bool> {
    if q.has_been_grouped && q.is_sorted_query && !q.has_been_sorted {
        no_negates(q.group_cols@.len())
    } else {
        q.sort_negates@
    }
}

/// `gs` are the groups a group-by query forms over a DataFrame's kept rows.
/// Each group's rows share a key over the grouping columns. A sorted query's
/// groups are the maximal runs of its rows in key order (in source order when
/// no sort is needed); an unsorted query's groups are its rows by key, in order
/// of each key's first appearance, keeping the rows' order within each group.
/// Each entry's third position is its position among all groups' entries.
pub open spec fn group_by_groups(q: Query, df: DataFrame, gs: Seq<Seq<(usize, usize, usize)>>) -> bool {
    let gcols = cols_named(df, grouping_names(q));
    let src = src_rows(q.kept_rows@, q_filtering(q, df), df.n_row as nat);
    let rows = map_srcs(concat(gs));
    &&& groups_keyed(gcols, gs)
    &&& forall|k: int| 0 <= k < concat(gs).len() ==> (#[trigger] concat(gs)[k]).2 == k
    &&& q.is_sorted_query ==> {
        &&& groups_are_runs(gcols, gs)
        &&& reorders(rows, src)
        &&& df.n_row > 0 && !q.sorts_match ==> rows_sorted(df, settled_sort_names(q), settled_sort_negates(q), rows)
        &&& !(df.n_row > 0 && !q.sorts_match) ==> rows == src
    }
    &&& !q.is_sorted_query ==> {
        &&& gs.len() == first_keys(entry_keys(gcols, map_of(src))).len()
        &&& forall|g: int|
            0 <= g < gs.len() ==> map_srcs(#[trigger] gs[g]) == map_srcs(
                with_key(gcols, map_of(src), first_keys(entry_keys(gcols, map_of(src)))[g]),
            )
    }
}

/// The sort columns of a group-by query once it settles its sort: its grouping
/// columns when it asked for a sort by them, else the sort columns it has.
pub open spec fn settled_sort_names(q: Query) -> Seq<Seq<char>> {
    if q.has_been_grouped && q.is_sorted_query && !q.has_been_sorted {
        strings_view(q.group_cols@)
    } else {
        strings_view(q.sort_cols@)
    }
}

/// A group-by query fails on text keys: when it sorts rows by several columns
/// one of which holds text, or groups by a text column other than as the one
/// column of a sorted query.
pub open spec fn group_fails(q: Query, df: DataFrame) -> bool {
    let sorting = df.n_row > 0 && q.is_sorted_query && !q.sorts_match;
    let src = src_rows(q.kept_rows@, q_filtering(q, df), df.n_row as nat);
    let snames = settled_sort_names(q);
    let gnames = grouping_names(q);
    ||| sorting && src.len() > 0 && snames.len() > 1 && has_string_col(df, snames)
    ||| has_string_col(df, gnames) && (!q.is_sorted_query || gnames.len() > 1)
}

/// What `execute_group_by` ensures of the groups it returns, over the query's
/// state after the call, is that they are the groups `group_by_groups`
/// describes over its state before.
pub proof fn lemma_group_by_groups(q0: Query, q: Query, df: DataFrame, gv: Seq<Seq<(usize, usize, usize)>>)
    requires
        ({
            let gcols = cols_named(df, strings_view(q.group_cols@));
            let src = src_rows(q0.kept_rows@, q_filtering(q0, df), df.n_row as nat);
            &&& strings_view(q.group_cols@) == grouping_names(q0)
            &&& strings_view(q.sort_cols@) == settled_sort_names(q0)
            &&& q.sort_negates@ == settled_sort_negates(q0)
            &&& q.is_sorted_query == q0.is_sorted_query
            &&& concat(gv) == q.i_map@
            &&& forall|k: int| 0 <= k < q.i_map@.len() ==> (#[trigger] q.i_map@[k]).2 == k
            &&& groups_keyed(gcols, gv)
            &&& q.is_sorted_query ==> {
                &&& groups_are_runs(gcols, gv)
                &&& reorders(map_srcs(q.i_map@), src)
                &&& df.n_row > 0 && !q0.sorts_match ==> rows_sorted(
                    df,
                    strings_view(q.sort_cols@),
                    q.sort_negates@,
                    map_srcs(q.i_map@),
                )
                &&& !(df.n_row > 0 && !q0.sorts_match) ==> map_srcs(q.i_map@) == src
            }
            &&& !q.is_sorted_query ==> {
                &&& gv.len() == first_keys(entry_keys(gcols, map_of(src))).len()
                &&& forall|g: int|
                    0 <= g < gv.len() ==> map_srcs(#[trigger] gv[g]) == map_srcs(
                        with_key(gcols, map_of(src), first_keys(entry_keys(gcols, map_of(src)))[g]),
                    )
            }
        }),
    ensures
        group_by_groups(q0, df, gv),
{
    assert forall|k: int| 0 <= k < concat(gv).len() implies (#[trigger] concat(gv)[k]).2 == k by {
        assert(concat(gv)[k] == q.i_map@[k]);
    }
}

impl Query {
    /// Execute a group-by query: filter and sort the rows as asked, then split
    /// them into groups of equal keys over the grouping columns. Sorted queries
    /// group maximal runs of the sorted rows; unsorted ones group rows by key, in
    /// order of the keys' first appearance, keeping the rows' order within each
    /// group. Returns the grouping columns' values (one row per group, from its
    /// first row), the aggregation columns at the filtered-and-sorted positions
    /// (none when those are the source rows), and the groups.
    pub fn execute_group_by(&mut self, df_src: &DataFrame) -> (r: Result<
        (DataFrame, Option<DataFrame>, Vec<Vec<(usize, usize, usize)>>),
        DfError,
    >)
        requires
            df_src.wf(),
            group_query_fits(*old(self), *df_src),
        ensures
            r is Err == group_fails(*old(self), *df_src),
            r is Ok ==> strings_view(final(self).sort_cols@) == settled_sort_names(*old(self))
                && final(self).sort_negates@ == settled_sort_negates(*old(self)),
            r is Ok ==> forall|k: int| 0 <= k < final(self).i_map@.len() ==> (#[trigger] final(self).i_map@[k]).2 == k,
            r matches Err(e) ==> (e matches DfError::StringKey(n) && df_src.col_of(n@).kind_of() == ColKind::Str),
            r matches Ok(res) ==> ({
                let gs = groups_view(res.2@);
                let gnames = strings_view(final(self).group_cols@);
                let gcols = cols_named(*df_src, gnames);
                let src = src_rows(old(self).kept_rows@, q_filtering(*old(self), *df_src), df_src.n_row as nat);
                &&& gnames == grouping_names(*old(self))
                &&& concat(gs) == final(self).i_map@
                &&& groups_keyed(gcols, gs)
                &&& final(self).is_sorted_query == old(self).is_sorted_query
                &&& final(self).is_sorted_query ==> {
                    &&& groups_are_runs(gcols, gs)
                    &&& reorders(map_srcs(final(self).i_map@), src)
                    &&& df_src.n_row > 0 && !old(self).sorts_match ==> rows_sorted(
                        *df_src,
                        strings_view(final(self).sort_cols@),
                        final(self).sort_negates@,
                        map_srcs(final(self).i_map@),
                    )
                    &&& !(df_src.n_row > 0 && !old(self).sorts_match) ==> map_srcs(final(self).i_map@) == src
                }
                &&& !final(self).is_sorted_query ==> {
                    &&& gs.len() == first_keys(entry_keys(gcols, map_of(src))).len()
                    &&& forall|g: int|
                        0 <= g < gs.len() ==> map_srcs(#[trigger] gs[g]) == map_srcs(
                            with_key(gcols, map_of(src), first_keys(entry_keys(gcols, map_of(src)))[g]),
                        )
                }
                &&& selected_from(res.0, *df_src, gnames, first_rows(gs))
                &&& res.0.status.is_default()
                &&& match res.1 {
                    Some(f) => fss_matches(f, *df_src, strings_view(old(self).agg_cols@), gs),
                    None => fss_matches(*df_src, *df_src, strings_view(old(self).agg_cols@), gs),
                }
            }),
    {
        if self.has_been_grouped {
            if self.is_sorted_query && !self.has_been_sorted {
                self.sort_cols = clone_strings(&self.group_cols);
                self.sort_negates = falses(self.sort_cols.len());
                self.has_been_sorted = true;
            }
        } else {
            self.group_cols = clone_strings(&self.sort_cols);
            self.has_been_grouped = true;
        }
        self.set_aggregate_status_flags(df_src);
        let ghost src = src_rows(self.kept_rows@, self.needs_filtering, df_src.n_row as nat);
        proof {
            if self.needs_filtering {
                let i = choose|i: int| 0 <= i < old(self).kept_rows@.len() && !#[trigger] old(self).kept_rows@[i];
                lemma_kept_positions(self.kept_rows@.take(df_src.n_row as int));
            }
            assert(strings_view(self.sort_cols@) == settled_sort_names(*old(self)));
            assert(self.sort_negates@ == settled_sort_negates(*old(self)));
            assert(strings_view(self.group_cols@) == grouping_names(*old(self)));
            assert(src == src_rows(old(self).kept_rows@, q_filtering(*old(self), *df_src), df_src.n_row as nat));
        }
        let ghost q1 = *self;
        let mut fss: Option<DataFrame> = None;
        if self.rows_are_changing {
            self.select_cols = clone_strings(&self.agg_cols);
            match self.filter_sort_select(df_src) {
                Ok(f) => {
                    fss = Some(f);
                },
                Err(e) => {
                    return Err(e);
                },
            }
            let ghost m1 = self.i_map@;
            self.set_fss_i();
            assert(map_srcs(self.i_map@) =~= map_srcs(m1));
            proof {
                if !self.needs_sorting {
                    assert(self.i_map@ =~= map_of(src));
                }
            }
        } else {
            self.set_i_map(df_src);
            proof {
                assert(map_srcs(self.i_map@) =~= src);
                assert(self.i_map@ =~= map_of(src));
                lemma_reorders_refl(src);
            }
        }
        proof {
            let ms = map_srcs(self.i_map@);
            let p = choose|p: Seq<usize>|
                crate::data_frame::sort::is_permutation(p, src.len()) && ms.len() == src.len() && forall|k: int|
                    0 <= k < ms.len() ==> #[trigger] ms[k] == src[p[k] as int];
            assert forall|k: int| 0 <= k < self.i_map@.len() implies (#[trigger] self.i_map@[k]).0 < df_src.n_row by {
                assert(ms[k] == src[p[k] as int]);
                assert(ms[k] == self.i_map@[k].0);
            }
        }
        let strings_ok = self.is_sorted_query;
        let pos = match df_src.key_positions(&self.group_cols, strings_ok) {
            Ok(p) => p,
            Err(e) => {
                return Err(e);
            },
        };
        let gs: Vec<Vec<(usize, usize, usize)>>;
        let ghost m0 = self.i_map@;
        let ghost mut bv: Seq<Seq<(usize, usize, usize)>> = Seq::empty();
        if self.is_sorted_query {
            gs = split_runs(df_src, &pos, &self.i_map);
            proof {
                let gv = groups_view(gs@);
                assert forall|g: int, i: int| 0 <= g < gv.len() && 0 <= i < gv[g].len() implies (#[trigger] gv[g][i]).0
                    < df_src.n_row by {
                    lemma_concat_contains(gv, g, i);
                    let k = choose|k: int| 0 <= k < concat(gv).len() && concat(gv)[k] == gv[g][i];
                    assert(m0[k] == gv[g][i]);
                }
            }
        } else {
            let buckets = bucket_by_key(df_src, &pos, &self.i_map);
            let (gs2, m2) = renumber(&buckets);
            proof {
                bv = groups_view(buckets@);
                assert forall|g: int, i: int| 0 <= g < buckets@.len() && 0 <= i < buckets@[g]@.len() implies (
                #[trigger] buckets@[g]@[i]).0 < df_src.n_row by {
                    assert(buckets@[g]@.contains(buckets@[g]@[i]));
                    lemma_with_key_member(
                        cols_at(*df_src, pos@),
                        m0,
                        first_keys(entry_keys(cols_at(*df_src, pos@), m0))[g],
                        buckets@[g]@[i],
                    );
                }
                let gv = groups_view(gs2@);
                assert forall|g: int, i: int| 0 <= g < gv.len() && 0 <= i < gv[g].len() implies (#[trigger] gv[g][i]).0
                    < df_src.n_row by {
                    assert(gv[g][i] == gs2@[g]@[i]);
                    assert(buckets@[g]@[i].0 < df_src.n_row);
                }
                assert forall|k: int| 0 <= k < m2@.len() implies (#[trigger] m2@[k]).0 < df_src.n_row by {
                    lemma_concat_member(gv, k);
                }
            }
            self.i_map = m2;
            gs = gs2;
            proof {
                assert forall|h: int| 0 <= h < gs@.len() implies (#[trigger] gs@[h])@.len() > 0 by {
                    assert(buckets@[h]@.len() > 0);
                }
            }
            let rows = self.map_rows();
            fss = Some(df_src.select_at(&self.agg_cols, &rows, true));
        }
        proof {
            let gv = groups_view(gs@);
            assert forall|h: int, i: int| 0 <= h < gs@.len() && 0 <= i < gs@[h]@.len() implies (
            #[trigger] gs@[h]@[i]).0 < df_src.n_row by {
                assert(gv[h] == gs@[h]@);
                assert(gv[h][i].0 < df_src.n_row);
            }
            assert forall|h: int| 0 <= h < gs@.len() implies (#[trigger] gs@[h])@.len() > 0 by {
                assert(gv[h] == gs@[h]@);
            }
        }
        let mut firsts: Vec<usize> = Vec::new();
        let mut g: usize = 0;
        while g < gs.len()
            invariant
                g <= gs@.len(),
                firsts@.len() == g,
                forall|h: int, i: int|
                    0 <= h < gs@.len() && 0 <= i < gs@[h]@.len() ==> (#[trigger] gs@[h]@[i]).0 < df_src.n_row,
                forall|h: int| 0 <= h < gs@.len() ==> (#[trigger] gs@[h])@.len() > 0,
                forall|h: int| 0 <= h < g ==> #[trigger] firsts@[h] == gs@[h]@[0].0,
            decreases gs@.len() - g,
        {
            firsts.push(gs[g][0].0);
            g = g + 1;
        }
        let df_grp = df_src.select_at(&self.group_cols, &firsts, true);
        proof {
            let gv = groups_view(gs@);
            let gnames = strings_view(self.group_cols@);
            let gcols = cols_named(*df_src, gnames);
            let agg = strings_view(old(self).agg_cols@);
            assert(cols_at(*df_src, pos@) == gcols);
            assert(firsts@.map_values(|r: usize| r as int) =~= first_rows(gv));
            if !self.is_sorted_query {
                let fk = first_keys(entry_keys(gcols, m0));
                assert(m0 == map_of(src));
                assert forall|g: int| 0 <= g < gv.len() implies (#[trigger] gv[g]).len() > 0 && forall|i: int|
                    0 <= i < gv[g].len() ==> entry_key(gcols, #[trigger] gv[g][i]) == entry_key(gcols, gv[g][0]) by {
                    assert(gv[g] == gs@[g]@);
                    assert forall|i: int| 0 <= i < gv[g].len() implies entry_key(gcols, #[trigger] gv[g][i]) == fk[g] by {
                        assert(bv[g].contains(bv[g][i]));
                        lemma_with_key_member(gcols, m0, fk[g], bv[g][i]);
                        assert(gv[g][i].0 == bv[g][i].0);
                    }
                }
                assert forall|g: int| 0 <= g < gv.len() implies map_srcs(#[trigger] gv[g]) == map_srcs(
                    with_key(gcols, map_of(src), first_keys(entry_keys(gcols, map_of(src)))[g]),
                ) by {
                    assert(gv[g] == gs@[g]@);
                    assert(map_srcs(gv[g]) =~= map_srcs(bv[g]));
                }
                lemma_fss_from_select(fss.unwrap(), *df_src, agg, gv, self.i_map@);
            } else if self.rows_are_changing {
                lemma_fss_from_select(fss.unwrap(), *df_src, agg, gv, self.i_map@);
            } else {
                lemma_fss_self(*df_src, agg, gv);
            }
            assert(concat(gv) == self.i_map@);
        }
        Ok((df_grp, fss, gs))
    }
}


/// In names without repeats, each name's first position is its position.
pub proof fn lemma_first_index_distinct(s: Seq<Seq<char>>, j: int)
    requires
        all_distinct(s),
        0 <= j < s.len(),
    ensures
        first_index(s, s[j]) == j,
{
    lemma_first_index(s, s[j]);
    let k = first_index(s, s[j]);
    if k != j {
        if k < j {
            assert(s[k] != s[j]);
        }
    }
}

/// A DataFrame selected at the source rows of a row map numbered by position
/// holds, at each group entry's position, the cell of the entry's source row.
pub proof fn lemma_fss_from_select(
    f: DataFrame,
    df: DataFrame,
    names: Seq<Seq<char>>,
    gs: Seq<Seq<(usize, usize, usize)>>,
    m: Seq<(usize, usize, usize)>,
)
    requires
        selected_from(f, df, names, map_srcs(m)),
        all_distinct(names),
        concat(gs) == m,
        forall|k: int| 0 <= k < m.len() ==> (#[trigger] m[k]).2 == k,
    ensures
        fss_matches(f, df, names, gs),
{
    assert forall|j: int| 0 <= j < names.len() implies f.has_col(#[trigger] names[j]) && f.col_of(names[j])
        == f.columns@[j] by {
        lemma_first_index_distinct(names, j);
    }
    assert forall|g: int, i: int| 0 <= g < gs.len() && 0 <= i < gs[g].len() implies (#[trigger] gs[g][i]).2 < f.n_row by {
        lemma_concat_contains(gs, g, i);
        let k = choose|k: int| 0 <= k < concat(gs).len() && concat(gs)[k] == gs[g][i];
        assert(m[k] == gs[g][i]);
        assert(m[k].2 == k);
        assert(f.n_row == map_srcs(m).len());
    }
    assert forall|j: int, g: int, i: int|
        0 <= j < names.len() && 0 <= g < gs.len() && 0 <= i < gs[g].len() implies #[trigger] f.col_of(names[j]).cells()[gs[
        g][i].2 as int] == df.col_of(names[j]).cells()[gs[g][i].0 as int] by {
        lemma_concat_contains(gs, g, i);
        let k = choose|k: int| 0 <= k < concat(gs).len() && concat(gs)[k] == gs[g][i];
        assert(m[k] == gs[g][i]);
        assert(k < m.len());
        assert(m[k].2 == k);
        assert(f.n_row == map_srcs(m).len());
        assert(map_srcs(m)[k] == m[k].0 as int);
        assert(f.col_of(names[j]) == f.columns@[j]);
        let c = f.columns@[j];
        assert(forall|r: int| 0 <= r < map_srcs(m).len() ==> c.cells()[r] == df.col_of(names[j]).cells()[map_srcs(m)[r]]);
        assert(c.cells()[k] == df.col_of(names[j]).cells()[map_srcs(m)[k]]);
    }
    assert forall|j: int| 0 <= j < names.len() implies (#[trigger] f.col_of(names[j])).kind_of() == df.col_of(
        names[j],
    ).kind_of() by {
        assert(f.col_of(names[j]) == f.columns@[j]);
    }
    assert(all_cols_of(f, names));
}

/// A DataFrame holds its own cells at the positions of a row map that lists its
/// rows in order.
pub proof fn lemma_fss_self(df: DataFrame, names: Seq<Seq<char>>, gs: Seq<Seq<(usize, usize, usize)>>)
    requires
        df.wf(),
        all_cols_of(df, names),
        concat(gs) == map_of(Seq::new(df.n_row as nat, |i: int| i)),
    ensures
        fss_matches(df, df, names, gs),
{
    let m = map_of(Seq::new(df.n_row as nat, |i: int| i));
    assert forall|g: int, i: int| 0 <= g < gs.len() && 0 <= i < gs[g].len() implies (#[trigger] gs[g][i]).2 < df.n_row
        && gs[g][i].2 == gs[g][i].0 by {
        lemma_concat_contains(gs, g, i);
        let k = choose|k: int| 0 <= k < concat(gs).len() && concat(gs)[k] == gs[g][i];
        assert(m[k] == gs[g][i]);
        assert(m[k] == (k as usize, k as usize, k as usize));
        assert(k < df.n_row);
        assert(gs[g][i].2 == gs[g][i].0);
    }
}


/// Two data vectors whose cells are equal are equal.
proof fn lemma_data_unique<A: ColType>(a: Seq<Option<A>>, b: Seq<Option<A>>)
    requires
        a.map_values(|x: Option<A>| A::wrap(x)) == b.map_values(|x: Option<A>| A::wrap(x)),
    ensures
        a == b,
{
    let fa = a.map_values(|x: Option<A>| A::wrap(x));
    let fb = b.map_values(|x: Option<A>| A::wrap(x));
    assert(fa.len() == a.len());
    assert(fb.len() == b.len());
    assert forall|i: int| 0 <= i < a.len() implies a[i] == b[i] by {
        assert(a.map_values(|x: Option<A>| A::wrap(x))[i] == A::wrap(a[i]));
        assert(b.map_values(|x: Option<A>| A::wrap(x))[i] == A::wrap(b[i]));
        A::lemma_wrap(a[i], b[i]);
    }
    assert(a =~= b);
}

impl Query {
    /// Aggregate a column of `df_fss` over each group into column `out_name` of
    /// `df_grp` (one row per group): NA values are removed, a group with no value
    /// left gets `na_val`, any other gets `op` of its values.
    pub fn aggregate_column<A: ColType, O: ColType>(
        df_grp: &mut DataFrame,
        df_fss: &DataFrame,
        a_name: &str,
        out_name: &str,
        group_map: &Vec<Vec<(usize, usize, usize)>>,
        na_val: Option<O>,
        op: impl Fn(Vec<A>) -> O,
    ) -> (r: Result<(), DfError>)
        requires
            old(df_grp).wf(),
            df_fss.wf(),
            df_fss.has_col(a_name@),
            old(df_grp).n_row == group_map@.len(),
            forall|g: int, i: int|
                0 <= g < group_map@.len() && 0 <= i < group_map@[g]@.len() ==> (#[trigger] group_map@[g]@[i]).2
                    < df_fss.n_row,
            old(df_grp).has_col(out_name@) && old(df_grp).col_of(out_name@).kind_of() == ColKind::Factor
                ==> O::kind() == ColKind::Factor,
            forall|data: Seq<Option<A>>|
                #![trigger cells_of(data)]
                cells_of(data) == df_fss.col_of(a_name@).cells() ==> op_admits(
                    op,
                    data,
                    groups_view(group_map@),
                ),
        ensures
            df_fss.col_of(a_name@).kind_of() != A::kind() ==> (r matches Err(DfError::TypeMismatch(n)) && n@
                == a_name@) && *final(df_grp) == *old(df_grp),
            df_fss.col_of(a_name@).kind_of() == A::kind() ==> {
                &&& r is Ok
                &&& final(df_grp).wf()
                &&& final(df_grp).n_row == old(df_grp).n_row
                &&& old(df_grp).has_col(out_name@) ==> final(df_grp).names() == old(df_grp).names()
                &&& !old(df_grp).has_col(out_name@) ==> final(df_grp).names() == old(df_grp).names().push(out_name@)
                &&& forall|j: int|
                    0 <= j < old(df_grp).columns@.len() && j != old(df_grp).col_pos(out_name@) ==> grown_col(
                        old(df_grp).columns@[j],
                        #[trigger] final(df_grp).columns@[j],
                        final(df_grp).n_row as nat,
                    )
                &&& final(df_grp).col_of(out_name@).kind_of() == O::kind()
                &&& exists|out: Seq<Option<O>>|
                    {
                        &&& final(df_grp).col_of(out_name@).cells() == #[trigger] cells_of(out)
                        &&& forall|data: Seq<Option<A>>|
                            data.map_values(|x: Option<A>| A::wrap(x)) == df_fss.col_of(a_name@).cells()
                                ==> #[trigger] aggregated(
                                data,
                                groups_view(group_map@),
                                na_val,
                                op,
                                out,
                            )
                    }
            },
    {
        let j = match df_fss.find_col(a_name) {
            Some(j) => j,
            None => vstd::pervasive::unreached(),
        };
        if df_fss.columns[j].kind() != A::col_kind() {
            return Err(DfError::TypeMismatch(a_name.to_owned()));
        }
        let data = A::data_ref(&df_fss.columns[j]);
        assert(data@.len() == df_fss.n_row);
        proof {
            crate::data_frame::factor::lemma_first_index(df_fss.names(), a_name@);
            assert(cells_of(data@) == df_fss.col_of(a_name@).cells());
        }
        let out = aggregate_groups(data, group_map, na_val, op);
        let ghost ov = out@;
        proof {
            assert forall|d: Seq<Option<A>>|
                d.map_values(|x: Option<A>| A::wrap(x)) == df_fss.col_of(a_name@).cells() implies #[trigger] aggregated(
                d,
                groups_view(group_map@),
                na_val,
                op,
                ov,
            ) by {
                lemma_data_unique(d, data@);
            }
        }
        df_grp.replace_or_add_col(out_name, out);
        assert(df_grp.col_of(out_name@).cells() == cells_of(ov));
        Ok(())
    }
}

} // verus!
