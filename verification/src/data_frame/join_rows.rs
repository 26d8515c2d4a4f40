//! Join row matching: which left and right rows make up each output row of a
//! join, found from the rows' keys by a hash-style join or a sort-merge join.
use vstd::prelude::*;
use crate::data_frame::key::{lex_lt, lex_le, key_lt, key_eq, lemma_lex_trichotomy, lemma_lex_transitive};

verus! {

/// The right positions whose key is `k`, ascending.
pub open spec fn match_positions(kr: Seq<Seq<u8>>, k: Seq<u8>) -> Seq<int>
    decreases kr.len(),
{
    if kr.len() == 0 {
        Seq::empty()
    } else {
        let p = match_positions(kr.drop_last(), k);
        if kr.last() == k { p.push(kr.len() - 1) } else { p }
    }
}

/// The output rows of an inner join (or a left join, with `all_left`), as pairs
/// of left and right positions: each left row in order with each of its matching
/// right rows in order, or, in a left join, alone when it has none.
pub open spec fn join_pairs(kl: Seq<Seq<u8>>, kr: Seq<Seq<u8>>, all_left: bool) -> Seq<(Option<int>, Option<int>)>
    decreases kl.len(),
{
    if kl.len() == 0 {
        Seq::empty()
    } else {
        let prev = join_pairs(kl.drop_last(), kr, all_left);
        let i = kl.len() - 1;
        let ms = match_positions(kr, kl[i]);
        if ms.len() > 0 {
            prev + ms.map_values(|j: int| (Some(i), Some(j)))
        } else if all_left {
            prev.push((Some(i), None))
        } else {
            prev
        }
    }
}

/// The right positions whose key no left key equals, ascending.
pub open spec fn unmatched_right(kl: Seq<Seq<u8>>, kr: Seq<Seq<u8>>) -> Seq<int>
    decreases kr.len(),
{
    if kr.len() == 0 {
        Seq::empty()
    } else {
        let p = unmatched_right(kl, kr.drop_last());
        if kl.contains(kr.last()) { p } else { p.push(kr.len() - 1) }
    }
}

/// The positions of a pair as integers.
pub open spec fn pair_view(p: (Option<usize>, Option<usize>)) -> (Option<int>, Option<int>) {
    (
        match p.0 { Some(i) => Some(i as int), None => None },
        match p.1 { Some(j) => Some(j as int), None => None },
    )
}

/// The positions of a sequence of pairs as integers.
pub open spec fn pairs_view(v: Seq<(Option<usize>, Option<usize>)>) -> Seq<(Option<int>, Option<int>)> {
    v.map_values(|p: (Option<usize>, Option<usize>)| pair_view(p))
}

/// Every pair's positions are below the given row counts.
pub open spec fn pairs_in_bounds(v: Seq<(Option<usize>, Option<usize>)>, nl: nat, nr: nat) -> bool {
    forall|k: int|
        0 <= k < v.len() ==> ((#[trigger] v[k]).0 matches Some(i) ==> i < nl) && (v[k].1 matches Some(j) ==> j < nr)
}

/// The views of a vector of keys.
pub open spec fn keys_of(v: Seq<Vec<u8>>) -> Seq<Seq<u8>> {
    v.map_values(|k: Vec<u8>| k@)
}

/// Keys in ascending order.
pub open spec fn keys_sorted(ks: Seq<Seq<u8>>) -> bool {
    forall|a: int, b: int| 0 <= a < b < ks.len() ==> lex_le(#[trigger] ks[a], #[trigger] ks[b])
}

/// The positions `a..b`.
pub open spec fn range_seq(a: int, b: int) -> Seq<int> {
    Seq::new((b - a) as nat, |t: int| a + t)
}

/// The matching positions of a prefix grow by the next position when it matches.
proof fn lemma_match_step(kr: Seq<Seq<u8>>, k: Seq<u8>, j: int)
    requires
        0 <= j < kr.len(),
    ensures
        match_positions(kr.take(j + 1), k) == (if kr[j] == k {
            match_positions(kr.take(j), k).push(j)
        } else {
            match_positions(kr.take(j), k)
        }),
{
    assert(kr.take(j + 1).drop_last() =~= kr.take(j));
}

/// When the positions with key `k` are exactly `a..b`, they are the matching positions.
proof fn lemma_match_range(kr: Seq<Seq<u8>>, k: Seq<u8>, a: int, b: int)
    requires
        0 <= a <= b <= kr.len(),
        forall|j: int| 0 <= j < kr.len() ==> ((#[trigger] kr[j] == k) <==> (a <= j < b)),
    ensures
        match_positions(kr, k) == range_seq(a, b),
    decreases kr.len(),
{
    if kr.len() > 0 {
        let d = kr.drop_last();
        let n = kr.len() - 1;
        if b == kr.len() && a < b {
            assert forall|j: int| 0 <= j < d.len() implies ((#[trigger] d[j] == k) <==> (a <= j < b - 1)) by {
                assert(d[j] == kr[j]);
            }
            lemma_match_range(d, k, a, b - 1);
            assert(kr[n] == k);
            assert(range_seq(a, b - 1).push(n) =~= range_seq(a, b));
        } else {
            let b2 = if b > n { n } else { b };
            let a2 = if a > b2 { b2 } else { a };
            assert forall|j: int| 0 <= j < d.len() implies ((#[trigger] d[j] == k) <==> (a2 <= j < b2)) by {
                assert(d[j] == kr[j]);
            }
            lemma_match_range(d, k, a2, b2);
            assert(kr[n] != k);
            assert(range_seq(a2, b2) =~= range_seq(a, b));
        }
    }
}

/// A key with no matching position before `n` has none in the prefix.
proof fn lemma_match_none(kr: Seq<Seq<u8>>, k: Seq<u8>)
    requires
        forall|j: int| 0 <= j < kr.len() ==> #[trigger] kr[j] != k,
    ensures
        match_positions(kr, k) == Seq::<int>::empty(),
    decreases kr.len(),
{
    if kr.len() > 0 {
        let d = kr.drop_last();
        assert forall|j: int| 0 <= j < d.len() implies #[trigger] d[j] != k by {
            assert(d[j] == kr[j]);
        }
        lemma_match_none(d, k);
    }
}

/// The matching positions are ascending positions whose key matches, and every
/// position whose key matches is among them.
proof fn lemma_match_positions(kr: Seq<Seq<u8>>, k: Seq<u8>)
    ensures
        forall|t: int|
            0 <= t < match_positions(kr, k).len() ==> 0 <= #[trigger] match_positions(kr, k)[t] < kr.len()
                && kr[match_positions(kr, k)[t]] == k,
    decreases kr.len(),
{
    if kr.len() > 0 {
        let d = kr.drop_last();
        lemma_match_positions(d, k);
        let p = match_positions(d, k);
        assert forall|t: int| 0 <= t < p.len() implies 0 <= #[trigger] p[t] < kr.len() && kr[p[t]] == k by {
            assert(kr[p[t]] == d[p[t]]);
        }
    }
}

/// A key held by some position has a matching position.
proof fn lemma_match_nonempty(kr: Seq<Seq<u8>>, k: Seq<u8>, x: int)
    requires
        0 <= x < kr.len(),
        kr[x] == k,
    ensures
        match_positions(kr, k).len() > 0,
    decreases kr.len(),
{
    if x < kr.len() - 1 {
        let d = kr.drop_last();
        assert(d[x] == kr[x]);
        lemma_match_nonempty(d, k, x);
    }
}

/// The join pairs of a prefix of the left rows grow by the pairs of the next row.
proof fn lemma_join_step(kl: Seq<Seq<u8>>, kr: Seq<Seq<u8>>, all_left: bool, i: int)
    requires
        0 <= i < kl.len(),
    ensures
        join_pairs(kl.take(i + 1), kr, all_left) == ({
            let prev = join_pairs(kl.take(i), kr, all_left);
            let ms = match_positions(kr, kl[i]);
            if ms.len() > 0 {
                prev + ms.map_values(|j: int| (Some(i), Some(j)))
            } else if all_left {
                prev.push((Some(i), None))
            } else {
                prev
            }
        }),
{
    assert(kl.take(i + 1).drop_last() =~= kl.take(i));
    assert(kl.take(i + 1)[i] == kl[i]);
}

/// The unmatched positions of a prefix of the right rows grow by the next
/// position when it is unmatched.
proof fn lemma_unmatched_step(kl: Seq<Seq<u8>>, kr: Seq<Seq<u8>>, j: int)
    requires
        0 <= j < kr.len(),
    ensures
        unmatched_right(kl, kr.take(j + 1)) == (if kl.contains(kr[j]) {
            unmatched_right(kl, kr.take(j))
        } else {
            unmatched_right(kl, kr.take(j)).push(j)
        }),
{
    assert(kr.take(j + 1).drop_last() =~= kr.take(j));
}

/// The pairs of a left position and each of a sequence of right positions.
fn push_matches(out: &mut Vec<(Option<usize>, Option<usize>)>, i: usize, ms: &Vec<usize>, nl: usize, nr: usize)
    requires
        pairs_in_bounds(old(out)@, nl as nat, nr as nat),
        i < nl,
        forall|t: int| 0 <= t < ms@.len() ==> #[trigger] ms@[t] < nr,
    ensures
        pairs_in_bounds(final(out)@, nl as nat, nr as nat),
        pairs_view(final(out)@) == pairs_view(old(out)@) + ms@.map_values(|j: usize| j as int).map_values(
            |j: int| (Some(i as int), Some(j)),
        ),
{
    let ghost o0 = pairs_view(out@);
    let mut t: usize = 0;
    while t < ms.len()
        invariant
            pairs_in_bounds(out@, nl as nat, nr as nat),
            i < nl,
            forall|x: int| 0 <= x < ms@.len() ==> #[trigger] ms@[x] < nr,
            t <= ms@.len(),
            pairs_view(out@) == o0 + ms@.take(t as int).map_values(|j: usize| j as int).map_values(
                |j: int| (Some(i as int), Some(j)),
            ),
        decreases ms@.len() - t,
    {
        let ghost before = pairs_view(out@);
        out.push((Some(i), Some(ms[t])));
        proof {
            let f = |j: usize| j as int;
            let g = |j: int| (Some(i as int), Some(j));
            assert(ms@.take(t + 1) =~= ms@.take(t as int).push(ms@[t as int]));
            assert(ms@.take(t + 1).map_values(f) =~= ms@.take(t as int).map_values(f).push(ms@[t as int] as int));
            assert(ms@.take(t + 1).map_values(f).map_values(g) =~= ms@.take(t as int).map_values(f).map_values(g).push(
                (Some(i as int), Some(ms@[t as int] as int)),
            ));
            assert(pairs_view(out@) =~= before.push((Some(i as int), Some(ms@[t as int] as int))));
        }
        t = t + 1;
    }
    assert(ms@.take(ms@.len() as int) =~= ms@);
}

/// A key that is none of the given keys.
pub open spec fn none_of(ks: Seq<Vec<u8>>, k: Seq<u8>) -> bool {
    forall|g: int| 0 <= g < ks.len() ==> (#[trigger] ks[g])@ != k
}

/// The distinct keys of the right rows, each with the ascending positions that
/// hold it; any other key is held by no right row.
fn bucket_right(kr: &Vec<Vec<u8>>) -> (r: (Vec<Vec<u8>>, Vec<Vec<usize>>))
    ensures
        r.0@.len() == r.1@.len(),
        forall|g: int|
            0 <= g < r.1@.len() ==> (#[trigger] r.1@[g])@.map_values(|x: usize| x as int) == match_positions(
                keys_of(kr@),
                r.0@[g]@,
            ) && r.1@[g]@.len() > 0,
        forall|k: Seq<u8>| none_of(r.0@, k) ==> #[trigger] match_positions(keys_of(kr@), k) == Seq::<int>::empty(),
{
    let ghost krs = keys_of(kr@);
    let mut ukeys: Vec<Vec<u8>> = Vec::new();
    let mut buckets: Vec<Vec<usize>> = Vec::new();
    let mut j: usize = 0;
    while j < kr.len()
        invariant
            krs == keys_of(kr@),
            j <= kr@.len(),
            ukeys@.len() == buckets@.len(),
            forall|g: int|
                0 <= g < buckets@.len() ==> (#[trigger] buckets@[g])@.map_values(|x: usize| x as int) == match_positions(
                    krs.take(j as int),
                    ukeys@[g]@,
                ) && buckets@[g]@.len() > 0,
            forall|k: Seq<u8>| none_of(ukeys@, k) ==> #[trigger] match_positions(krs.take(j as int), k) == Seq::<int>::empty(),
            forall|a: int, b: int| 0 <= a < b < ukeys@.len() ==> (#[trigger] ukeys@[a])@ != (#[trigger] ukeys@[b])@,
        decreases kr@.len() - j,
    {
        assert(krs[j as int] == kr@[j as int]@);
        let mut g: usize = 0;
        let mut found = false;
        while g < ukeys.len() && !found
            invariant
                j < kr@.len(),
                g <= ukeys@.len(),
                !found ==> forall|h: int| 0 <= h < g ==> ukeys@[h]@ != kr@[j as int]@,
                found ==> g < ukeys@.len() && ukeys@[g as int]@ == kr@[j as int]@,
            decreases ukeys@.len() - g + (if found { 0int } else { 1int }),
        {
            if key_eq(&ukeys[g], &kr[j]) {
                found = true;
            } else {
                g = g + 1;
            }
        }
        if found {
            let ghost b0 = buckets@;
            let mut b = buckets.remove(g);
            b.push(j);
            buckets.insert(g, b);
            proof {
                assert forall|h: int| 0 <= h < buckets@.len() implies (#[trigger] buckets@[h])@.map_values(
                    |x: usize| x as int,
                ) == match_positions(krs.take(j + 1), ukeys@[h]@) && buckets@[h]@.len() > 0 by {
                    lemma_match_step(krs, ukeys@[h]@, j as int);
                    if h == g {
                        assert(buckets@[h]@.map_values(|x: usize| x as int) =~= b0[h]@.map_values(|x: usize| x as int).push(
                            j as int,
                        ));
                    } else {
                        assert(buckets@[h] == b0[h]);
                        if h < g {
                            assert(ukeys@[h]@ != ukeys@[g as int]@);
                        } else {
                            assert(ukeys@[g as int]@ != ukeys@[h]@);
                        }
                    }
                }
                assert forall|k: Seq<u8>| none_of(ukeys@, k) implies #[trigger] match_positions(krs.take(j + 1), k)
                    == Seq::<int>::empty() by {
                    lemma_match_step(krs, k, j as int);
                    assert(ukeys@[g as int]@ != k);
                }
            }
        } else {
            let ghost b0 = buckets@;
            let ghost u0 = ukeys@;
            let ghost kj = kr@[j as int]@;
            let mut b: Vec<usize> = Vec::new();
            b.push(j);
            buckets.push(b);
            ukeys.push(kr[j].clone());
            proof {
                assert(none_of(u0, kj));
                assert(match_positions(krs.take(j as int), kj) == Seq::<int>::empty());
                assert forall|h: int| 0 <= h < buckets@.len() implies (#[trigger] buckets@[h])@.map_values(
                    |x: usize| x as int,
                ) == match_positions(krs.take(j + 1), ukeys@[h]@) && buckets@[h]@.len() > 0 by {
                    lemma_match_step(krs, ukeys@[h]@, j as int);
                    if h < b0.len() {
                        assert(buckets@[h] == b0[h]);
                        assert(ukeys@[h] == u0[h]);
                        assert(u0[h]@ != kj);
                    } else {
                        assert(ukeys@[h]@ == kj);
                        assert(buckets@[h]@.map_values(|x: usize| x as int) =~= seq![j as int]);
                        assert(match_positions(krs.take(j as int), kj).push(j as int) =~= seq![j as int]);
                    }
                }
                assert forall|k: Seq<u8>| none_of(ukeys@, k) implies #[trigger] match_positions(krs.take(j + 1), k)
                    == Seq::<int>::empty() by {
                    lemma_match_step(krs, k, j as int);
                    assert(ukeys@[u0.len() as int]@ != k);
                    assert forall|h: int| 0 <= h < u0.len() implies (#[trigger] u0[h])@ != k by {
                        assert(ukeys@[h] == u0[h]);
                    }
                    assert(none_of(u0, k));
                }
                assert forall|a: int, b: int| 0 <= a < b < ukeys@.len() implies (#[trigger] ukeys@[a])@
                    != (#[trigger] ukeys@[b])@ by {
                    if b < u0.len() {
                        assert(ukeys@[a] == u0[a]);
                        assert(ukeys@[b] == u0[b]);
                    } else {
                        assert(ukeys@[a] == u0[a]);
                    }
                }
            }
        }
        j = j + 1;
    }
    assert(krs.take(kr@.len() as int) =~= krs);
    (ukeys, buckets)
}

/// Join rows by key, hash-join style: group the right positions by key, then for
/// each left row in order take the right positions of its key.
pub fn hash_join_pairs(kl: &Vec<Vec<u8>>, kr: &Vec<Vec<u8>>, all_left: bool) -> (out: Vec<(Option<usize>, Option<usize>)>)
    ensures
        pairs_view(out@) == join_pairs(keys_of(kl@), keys_of(kr@), all_left),
        pairs_in_bounds(out@, kl@.len(), kr@.len()),
{
    let ghost kls = keys_of(kl@);
    let ghost krs = keys_of(kr@);
    let (ukeys, buckets) = bucket_right(kr);
    let mut out: Vec<(Option<usize>, Option<usize>)> = Vec::new();
    let mut i: usize = 0;
    while i < kl.len()
        invariant
            kls == keys_of(kl@),
            krs == keys_of(kr@),
            i <= kl@.len(),
            ukeys@.len() == buckets@.len(),
            forall|g: int|
                0 <= g < buckets@.len() ==> (#[trigger] buckets@[g])@.map_values(|x: usize| x as int) == match_positions(
                    krs,
                    ukeys@[g]@,
                ) && buckets@[g]@.len() > 0,
            forall|k: Seq<u8>| none_of(ukeys@, k) ==> #[trigger] match_positions(krs, k) == Seq::<int>::empty(),
            pairs_view(out@) == join_pairs(kls.take(i as int), krs, all_left),
            pairs_in_bounds(out@, kl@.len(), kr@.len()),
        decreases kl@.len() - i,
    {
        proof {
            lemma_join_step(kls, krs, all_left, i as int);
        }
        assert(kls[i as int] == kl@[i as int]@);
        let mut g: usize = 0;
        let mut found = false;
        while g < ukeys.len() && !found
            invariant
                i < kl@.len(),
                g <= ukeys@.len(),
                !found ==> forall|h: int| 0 <= h < g ==> ukeys@[h]@ != kl@[i as int]@,
                found ==> g < ukeys@.len() && ukeys@[g as int]@ == kl@[i as int]@,
            decreases ukeys@.len() - g + (if found { 0int } else { 1int }),
        {
            if key_eq(&ukeys[g], &kl[i]) {
                found = true;
            } else {
                g = g + 1;
            }
        }
        if found {
            assert(match_positions(krs, kls[i as int]) == buckets@[g as int]@.map_values(|x: usize| x as int));
            assert(buckets@[g as int]@.map_values(|x: usize| x as int).len() == buckets@[g as int]@.len());
            proof {
                lemma_match_positions(krs, kls[i as int]);
                assert forall|t: int| 0 <= t < buckets@[g as int]@.len() implies #[trigger] buckets@[g as int]@[t] < kr@.len() by {
                    assert(buckets@[g as int]@.map_values(|x: usize| x as int)[t] == buckets@[g as int]@[t] as int);
                }
            }
            push_matches(&mut out, i, &buckets[g], kl.len(), kr.len());
        } else {
            assert(none_of(ukeys@, kls[i as int]));
            assert(match_positions(krs, kls[i as int]) == Seq::<int>::empty());
            if all_left {
                out.push((Some(i), None));
            }
        }
        i = i + 1;
    }
    assert(kls.take(kl@.len() as int) =~= kls);
    out
}


/// The output rows that have a left row, in order.
pub open spec fn with_left(ps: Seq<(Option<int>, Option<int>)>) -> Seq<(Option<int>, Option<int>)>
    decreases ps.len(),
{
    if ps.len() == 0 {
        Seq::empty()
    } else if ps.last().0 is Some {
        with_left(ps.drop_last()).push(ps.last())
    } else {
        with_left(ps.drop_last())
    }
}

/// The output rows that have no left row, in order.
pub open spec fn right_only(ps: Seq<(Option<int>, Option<int>)>) -> Seq<(Option<int>, Option<int>)>
    decreases ps.len(),
{
    if ps.len() == 0 {
        Seq::empty()
    } else if ps.last().0 is Some {
        right_only(ps.drop_last())
    } else {
        right_only(ps.drop_last()).push(ps.last())
    }
}

/// Output rows of right rows alone.
pub open spec fn right_rows(js: Seq<int>) -> Seq<(Option<int>, Option<int>)> {
    js.map_values(|j: int| (None::<int>, Some(j)))
}

/// Appending a row appends it to the rows of its kind.
proof fn lemma_split_push(ps: Seq<(Option<int>, Option<int>)>, x: (Option<int>, Option<int>))
    ensures
        with_left(ps.push(x)) == (if x.0 is Some { with_left(ps).push(x) } else { with_left(ps) }),
        right_only(ps.push(x)) == (if x.0 is Some { right_only(ps) } else { right_only(ps).push(x) }),
{
    assert(ps.push(x).drop_last() =~= ps);
}

/// `a <= b < c` gives `a < c`.
proof fn lemma_le_lt(a: Seq<u8>, b: Seq<u8>, c: Seq<u8>)
    requires
        lex_le(a, b),
        lex_lt(b, c),
    ensures
        lex_lt(a, c),
{
    if a != b {
        lemma_lex_transitive(a, b, c);
    }
}

/// `a < b <= c` gives `a < c`.
proof fn lemma_lt_le(a: Seq<u8>, b: Seq<u8>, c: Seq<u8>)
    requires
        lex_lt(a, b),
        lex_le(b, c),
    ensures
        lex_lt(a, c),
{
    if b != c {
        lemma_lex_transitive(a, b, c);
    }
}

/// A smaller key is a different key.
proof fn lemma_lt_ne(a: Seq<u8>, b: Seq<u8>)
    requires
        lex_lt(a, b),
    ensures
        a != b,
        b != a,
        !lex_le(b, a),
{
    lemma_lex_trichotomy(a, b);
}

/// Rows that all have a left row are their own rows with a left row.
proof fn lemma_all_with_left(ps: Seq<(Option<int>, Option<int>)>)
    requires
        right_only(ps).len() == 0,
    ensures
        with_left(ps) == ps,
    decreases ps.len(),
{
    if ps.len() > 0 {
        let d = ps.drop_last();
        if ps.last().0 is Some {
            lemma_all_with_left(d);
            assert(ps =~= d.push(ps.last()));
        }
    }
}

/// For an inner or a left join, the sort-merge join gives exactly the output rows
/// of the hash-style join: any rows that list the join's rows with a left row,
/// and have none without one, are those rows.
pub proof fn lemma_merge_rows_are_hash_rows(
    kl: Seq<Seq<u8>>,
    kr: Seq<Seq<u8>>,
    all_left: bool,
    merged: Seq<(Option<int>, Option<int>)>,
)
    requires
        with_left(merged) == join_pairs(kl, kr, all_left),
        right_only(merged) == Seq::<(Option<int>, Option<int>)>::empty(),
    ensures
        merged == join_pairs(kl, kr, all_left),
{
    lemma_all_with_left(merged);
}

/// The key of an output row: its left row's key, or its right row's key when it
/// has no left row.
pub open spec fn pair_key(kl: Seq<Seq<u8>>, kr: Seq<Seq<u8>>, p: (Option<int>, Option<int>)) -> Seq<u8> {
    match p.0 {
        Some(i) => kl[i],
        None => match p.1 {
            Some(j) => kr[j],
            None => Seq::empty(),
        },
    }
}

/// The keys of output rows, in order.
pub open spec fn pair_keys(kl: Seq<Seq<u8>>, kr: Seq<Seq<u8>>, ps: Seq<(Option<int>, Option<int>)>) -> Seq<Seq<u8>> {
    ps.map_values(|p: (Option<int>, Option<int>)| pair_key(kl, kr, p))
}

/// The output rows' keys ascend.
#[verifier::opaque]
pub open spec fn rows_keys_ascend(kl: Seq<Seq<u8>>, kr: Seq<Seq<u8>>, ps: Seq<(Option<int>, Option<int>)>) -> bool {
    keys_sorted(pair_keys(kl, kr, ps))
}

/// The output rows' keys ascend and none is above `b`.
pub open spec fn keys_bounded(kl: Seq<Seq<u8>>, kr: Seq<Seq<u8>>, ps: Seq<(Option<int>, Option<int>)>, b: Seq<u8>) -> bool {
    &&& keys_sorted(pair_keys(kl, kr, ps))
    &&& forall|k: int| 0 <= k < ps.len() ==> lex_le(#[trigger] pair_keys(kl, kr, ps)[k], b)
}

/// `a <= b <= c` gives `a <= c`.
proof fn lemma_le_trans(a: Seq<u8>, b: Seq<u8>, c: Seq<u8>)
    requires
        lex_le(a, b),
        lex_le(b, c),
    ensures
        lex_le(a, c),
{
    if a != b && b != c {
        lemma_lex_transitive(a, b, c);
    }
}

/// A bound on the output rows' keys may be raised.
proof fn lemma_raise_bound(kl: Seq<Seq<u8>>, kr: Seq<Seq<u8>>, ps: Seq<(Option<int>, Option<int>)>, b1: Seq<u8>, b2: Seq<u8>)
    requires
        keys_bounded(kl, kr, ps, b1),
        lex_le(b1, b2),
    ensures
        keys_bounded(kl, kr, ps, b2),
{
    assert forall|k: int| 0 <= k < ps.len() implies lex_le(#[trigger] pair_keys(kl, kr, ps)[k], b2) by {
        lemma_le_trans(pair_keys(kl, kr, ps)[k], b1, b2);
    }
}

/// Appending a row whose key is at least every earlier key keeps the keys
/// ascending, now bounded by that key.
proof fn lemma_push_bounded(kl: Seq<Seq<u8>>, kr: Seq<Seq<u8>>, ps: Seq<(Option<int>, Option<int>)>, x: (Option<int>, Option<int>))
    requires
        keys_bounded(kl, kr, ps, pair_key(kl, kr, x)),
    ensures
        keys_bounded(kl, kr, ps.push(x), pair_key(kl, kr, x)),
{
    let k = pair_key(kl, kr, x);
    assert(pair_keys(kl, kr, ps.push(x)) =~= pair_keys(kl, kr, ps).push(k));
    let ks = pair_keys(kl, kr, ps.push(x));
    assert forall|a: int, b: int| 0 <= a < b < ks.len() implies lex_le(#[trigger] ks[a], #[trigger] ks[b]) by {
        if b == ps.len() {
            assert(lex_le(pair_keys(kl, kr, ps)[a], k));
        } else {
            assert(lex_le(pair_keys(kl, kr, ps)[a], pair_keys(kl, kr, ps)[b]));
        }
    }
    assert forall|t: int| 0 <= t < ps.push(x).len() implies lex_le(#[trigger] ks[t], k) by {
        if t < ps.len() {
            assert(lex_le(pair_keys(kl, kr, ps)[t], k));
        }
    }
}

/// No output rows yet: any bound holds.
proof fn lemma_empty_bounded(kl: Seq<Seq<u8>>, kr: Seq<Seq<u8>>, ps: Seq<(Option<int>, Option<int>)>, b: Seq<u8>)
    requires
        ps.len() == 0,
    ensures
        keys_bounded(kl, kr, ps, b),
{
}

/// Join sorted rows by key, sort-merge style: walk the left rows in order with a
/// pointer into the right rows, which only moves forward. Left and inner joins
/// give the same rows as the hash-style join; an outer join adds each right row
/// that matches no left row, in ascending order, among them.
pub fn merge_join_pairs(kl: &Vec<Vec<u8>>, kr: &Vec<Vec<u8>>, all_left: bool, all_right: bool) -> (out: Vec<
    (Option<usize>, Option<usize>),
>)
    requires
        keys_sorted(keys_of(kl@)),
        keys_sorted(keys_of(kr@)),
    ensures
        with_left(pairs_view(out@)) == join_pairs(keys_of(kl@), keys_of(kr@), all_left),
        right_only(pairs_view(out@)) == (if all_right {
            right_rows(unmatched_right(keys_of(kl@), keys_of(kr@)))
        } else {
            Seq::empty()
        }),
        pairs_in_bounds(out@, kl@.len(), kr@.len()),
        rows_keys_ascend(keys_of(kl@), keys_of(kr@), pairs_view(out@)),
{
    let ghost kls = keys_of(kl@);
    let ghost krs = keys_of(kr@);
    let n_l = kl.len();
    let n_r = kr.len();
    let mut out: Vec<(Option<usize>, Option<usize>)> = Vec::new();
    let mut i_r: usize = 0;
    let mut run_a: usize = 0;
    let mut run_b: usize = 0;
    let mut i: usize = 0;
    while i < n_l
        invariant
            kls == keys_of(kl@),
            krs == keys_of(kr@),
            n_l == kls.len(),
            n_r == krs.len(),
            keys_sorted(kls),
            keys_sorted(krs),
            i <= n_l,
            i_r <= n_r,
            i == 0 ==> i_r == 0,
            with_left(pairs_view(out@)) == join_pairs(kls.take(i as int), krs, all_left),
            right_only(pairs_view(out@)) == (if all_right {
                right_rows(unmatched_right(kls, krs.take(i_r as int)))
            } else {
                Seq::empty()
            }),
            i > 0 ==> forall|j: int| 0 <= j < i_r ==> lex_le(#[trigger] krs[j], kls[i - 1]),
            i > 0 ==> forall|j: int| i_r <= j < n_r ==> lex_lt(kls[i - 1], #[trigger] krs[j]),
            i > 0 ==> run_a <= run_b <= n_r && match_positions(krs, kls[i - 1]) == range_seq(run_a as int, run_b as int),
            pairs_in_bounds(out@, n_l as nat, n_r as nat),
            out@.len() == 0 || (i > 0 && keys_bounded(kls, krs, pairs_view(out@), kls[i - 1])),
        decreases n_l - i,
    {
        assert(kls[i as int] == kl@[i as int]@);
        proof {
            lemma_join_step(kls, krs, all_left, i as int);
        }
        if i > 0 && key_eq(&kl[i], &kl[i - 1]) {
            // the same key as the previous left row: the same right rows match
            let mut j: usize = run_a;
            let ghost o0 = pairs_view(out@);
            let ghost w0 = with_left(o0);
            proof {
                assert(kls[i as int] == kls[i - 1]);
                if out@.len() == 0 {
                    lemma_empty_bounded(kls, krs, pairs_view(out@), kls[i as int]);
                }
            }
            while j < run_b
                invariant
                    keys_bounded(kls, krs, pairs_view(out@), kls[i as int]),
                    run_a <= j <= run_b,
                    run_b <= n_r,
                    i < n_l,
                    pairs_in_bounds(out@, n_l as nat, n_r as nat),
                    right_only(pairs_view(out@)) == right_only(o0),
                    with_left(pairs_view(out@)) == w0 + range_seq(run_a as int, j as int).map_values(
                        |x: int| (Some(i as int), Some(x)),
                    ),
                decreases run_b - j,
            {
                let ghost before = pairs_view(out@);
                out.push((Some(i), Some(j)));
                proof {
                    assert(pairs_view(out@) =~= before.push((Some(i as int), Some(j as int))));
                    lemma_push_bounded(kls, krs, before, (Some(i as int), Some(j as int)));
                    lemma_split_push(before, (Some(i as int), Some(j as int)));
                    assert(range_seq(run_a as int, j + 1).map_values(|x: int| (Some(i as int), Some(x))) =~= range_seq(
                        run_a as int,
                        j as int,
                    ).map_values(|x: int| (Some(i as int), Some(x))).push((Some(i as int), Some(j as int))));
                }
                j = j + 1;
            }
            if run_a == run_b && all_left {
                let ghost before = pairs_view(out@);
                out.push((Some(i), None));
                proof {
                    assert(pairs_view(out@) =~= before.push((Some(i as int), None)));
                    lemma_split_push(before, (Some(i as int), None));
                    lemma_push_bounded(kls, krs, before, (Some(i as int), None));
                }
            }
            proof {
                assert(range_seq(run_a as int, run_b as int).map_values(|x: int| (Some(i as int), Some(x)))
                    =~= match_positions(krs, kls[i as int]).map_values(|x: int| (Some(i as int), Some(x))));
            }
        } else {
            proof {
                if i > 0 {
                    assert(lex_le(kls[i - 1], kls[i as int]));
                    assert(kls[i - 1] != kls[i as int]);
                    assert(lex_lt(kls[i - 1], kls[i as int]));
                }
            }
            let ghost ir0 = i_r;
            proof {
                if out@.len() == 0 {
                    lemma_empty_bounded(kls, krs, pairs_view(out@), kls[i as int]);
                    if i_r < n_r {
                        lemma_empty_bounded(kls, krs, pairs_view(out@), krs[i_r as int]);
                    }
                } else {
                    lemma_raise_bound(kls, krs, pairs_view(out@), kls[i - 1], kls[i as int]);
                    if i_r < n_r {
                        lemma_raise_bound(kls, krs, pairs_view(out@), kls[i - 1], krs[i_r as int]);
                    }
                }
            }
            // right rows with smaller keys match no left row
            while i_r < n_r && key_lt(&kr[i_r], &kl[i])
                invariant
                    kls == keys_of(kl@),
                    krs == keys_of(kr@),
                    n_l == kls.len(),
                    n_r == krs.len(),
                    keys_sorted(kls),
                    keys_sorted(krs),
                    i < n_l,
                    ir0 <= i_r <= n_r,
                    i == 0 ==> ir0 == 0,
                    i > 0 ==> lex_lt(kls[i - 1], kls[i as int]),
                    i > 0 ==> forall|j: int| ir0 <= j < n_r ==> lex_lt(kls[i - 1], #[trigger] krs[j]),
                    forall|j: int| ir0 <= j < i_r ==> lex_lt(#[trigger] krs[j], kls[i as int]),
                    pairs_in_bounds(out@, n_l as nat, n_r as nat),
                    with_left(pairs_view(out@)) == join_pairs(kls.take(i as int), krs, all_left),
                    right_only(pairs_view(out@)) == (if all_right {
                        right_rows(unmatched_right(kls, krs.take(i_r as int)))
                    } else {
                        Seq::empty()
                    }),
                    keys_bounded(kls, krs, pairs_view(out@), kls[i as int]),
                    i_r < n_r ==> keys_bounded(kls, krs, pairs_view(out@), krs[i_r as int]),
                decreases n_r - i_r,
            {
                assert(krs[i_r as int] == kr@[i_r as int]@);
                proof {
                    // no left key equals this right key
                    assert forall|x: int| 0 <= x < n_l implies #[trigger] kls[x] != krs[i_r as int] by {
                        if x < i {
                            assert(lex_le(kls[x], kls[i - 1])) by {
                                if x < i - 1 {
                                    assert(lex_le(kls[x], kls[i - 1]));
                                }
                            }
                            lemma_le_lt(kls[x], kls[i - 1], krs[i_r as int]);
                            lemma_lt_ne(kls[x], krs[i_r as int]);
                        } else {
                            assert(lex_le(kls[i as int], kls[x])) by {
                                if x > i {
                                    assert(lex_le(kls[i as int], kls[x]));
                                }
                            }
                            lemma_lt_le(krs[i_r as int], kls[i as int], kls[x]);
                            lemma_lt_ne(krs[i_r as int], kls[x]);
                        }
                    }
                    assert(!kls.contains(krs[i_r as int]));
                    lemma_unmatched_step(kls, krs, i_r as int);
                }
                if all_right {
                    let ghost before = pairs_view(out@);
                    out.push((None, Some(i_r)));
                    proof {
                        assert(pairs_view(out@) =~= before.push((None, Some(i_r as int))));
                        lemma_split_push(before, (None, Some(i_r as int)));
                        assert(right_rows(unmatched_right(kls, krs.take(i_r + 1))) =~= right_rows(
                            unmatched_right(kls, krs.take(i_r as int)),
                        ).push((None, Some(i_r as int))));
                        lemma_push_bounded(kls, krs, before, (None, Some(i_r as int)));
                    }
                }
                proof {
                    assert(lex_le(krs[i_r as int], kls[i as int]));
                    lemma_raise_bound(kls, krs, pairs_view(out@), krs[i_r as int], kls[i as int]);
                    if i_r + 1 < n_r {
                        assert(lex_le(krs[i_r as int], krs[i_r + 1]));
                        lemma_raise_bound(kls, krs, pairs_view(out@), krs[i_r as int], krs[i_r + 1]);
                    }
                }
                i_r = i_r + 1;
            }
            let ghost ir1 = i_r;
            proof {
                if i_r < n_r {
                    assert(krs[i_r as int] == kr@[i_r as int]@);
                    lemma_lex_trichotomy(krs[i_r as int], kls[i as int]);
                }
            }
            if i_r < n_r && key_eq(&kr[i_r], &kl[i]) {
                // the run of right rows with this key
                run_a = i_r;
                let ghost o0 = pairs_view(out@);
                let ghost w0 = with_left(o0);
                while i_r < n_r && key_eq(&kr[i_r], &kl[i])
                    invariant
                        kls == keys_of(kl@),
                        krs == keys_of(kr@),
                        n_r == krs.len(),
                        i < n_l,
                        n_l == kls.len(),
                        run_a <= i_r <= n_r,
                        pairs_in_bounds(out@, n_l as nat, n_r as nat),
                        forall|j: int| run_a <= j < i_r ==> #[trigger] krs[j] == kls[i as int],
                        keys_bounded(kls, krs, pairs_view(out@), kls[i as int]),
                        with_left(pairs_view(out@)) == w0 + range_seq(run_a as int, i_r as int).map_values(
                            |x: int| (Some(i as int), Some(x)),
                        ),
                        right_only(pairs_view(out@)) == (if all_right {
                            right_rows(unmatched_right(kls, krs.take(i_r as int)))
                        } else {
                            Seq::empty()
                        }),
                    decreases n_r - i_r,
                {
                    assert(krs[i_r as int] == kr@[i_r as int]@);
                    let ghost before = pairs_view(out@);
                    out.push((Some(i), Some(i_r)));
                    proof {
                        assert(pairs_view(out@) =~= before.push((Some(i as int), Some(i_r as int))));
                        lemma_push_bounded(kls, krs, before, (Some(i as int), Some(i_r as int)));
                        lemma_split_push(before, (Some(i as int), Some(i_r as int)));
                        assert(range_seq(run_a as int, i_r + 1).map_values(|x: int| (Some(i as int), Some(x)))
                            =~= range_seq(run_a as int, i_r as int).map_values(|x: int| (Some(i as int), Some(x))).push(
                            (Some(i as int), Some(i_r as int)),
                        ));
                        assert(kls[i as int] == kl@[i as int]@);
                        assert(kls[i as int] == krs[i_r as int]);
                        assert(kls.contains(krs[i_r as int]));
                        lemma_unmatched_step(kls, krs, i_r as int);
                    }
                    i_r = i_r + 1;
                }
                run_b = i_r;
                proof {
                    if i_r < n_r {
                        assert(krs[i_r as int] == kr@[i_r as int]@);
                        assert(lex_le(krs[run_a as int], krs[i_r as int]));
                        assert(lex_lt(kls[i as int], krs[i_r as int]));
                    }
                    assert forall|j: int| 0 <= j < krs.len() implies ((#[trigger] krs[j] == kls[i as int]) <==> (run_a
                        <= j < run_b)) by {
                        if j < ir0 {
                            assert(lex_le(krs[j], kls[i - 1]));
                            lemma_le_lt(krs[j], kls[i - 1], kls[i as int]);
                            lemma_lt_ne(krs[j], kls[i as int]);
                        } else if j < run_a {
                            lemma_lt_ne(krs[j], kls[i as int]);
                        } else if j >= run_b {
                            if j > run_b {
                                assert(lex_le(krs[run_b as int], krs[j]));
                                lemma_lt_le(kls[i as int], krs[run_b as int], krs[j]);
                            }
                            lemma_lt_ne(kls[i as int], krs[j]);
                        }
                    }
                    lemma_match_range(krs, kls[i as int], run_a as int, run_b as int);
                    assert(with_left(pairs_view(out@)) == join_pairs(kls.take(i + 1), krs, all_left));
                }
            } else {
                run_a = i_r;
                run_b = i_r;
                proof {
                    if i_r < n_r {
                        assert(lex_lt(kls[i as int], krs[i_r as int]));
                    }
                    assert forall|j: int| 0 <= j < krs.len() implies ((#[trigger] krs[j] == kls[i as int]) <==> (run_a
                        <= j < run_b)) by {
                        if j < ir0 {
                            assert(lex_le(krs[j], kls[i - 1]));
                            lemma_le_lt(krs[j], kls[i - 1], kls[i as int]);
                            lemma_lt_ne(krs[j], kls[i as int]);
                        } else if j < run_a {
                            lemma_lt_ne(krs[j], kls[i as int]);
                        } else {
                            if j > run_a {
                                assert(lex_le(krs[run_a as int], krs[j]));
                                lemma_lt_le(kls[i as int], krs[run_a as int], krs[j]);
                            }
                            lemma_lt_ne(kls[i as int], krs[j]);
                        }
                    }
                    lemma_match_range(krs, kls[i as int], run_a as int, run_b as int);
                }
                if all_left {
                    let ghost before = pairs_view(out@);
                    out.push((Some(i), None));
                    proof {
                        assert(pairs_view(out@) =~= before.push((Some(i as int), None)));
                        lemma_split_push(before, (Some(i as int), None));
                        lemma_push_bounded(kls, krs, before, (Some(i as int), None));
                    }
                }
            }
            proof {
                assert forall|j: int| 0 <= j < i_r implies lex_le(#[trigger] krs[j], kls[i as int]) by {
                    if j < ir0 {
                        lemma_le_lt(krs[j], kls[i - 1], kls[i as int]);
                    }
                }
                assert forall|j: int| i_r <= j < n_r implies lex_lt(kls[i as int], #[trigger] krs[j]) by {
                    if j > i_r {
                        assert(lex_le(krs[i_r as int], krs[j]));
                        lemma_lt_le(kls[i as int], krs[i_r as int], krs[j]);
                    }
                }
            }
        }
        i = i + 1;
    }
    assert(kls.take(n_l as int) =~= kls);
    proof {
        if out@.len() == 0 {
            if i_r < n_r {
                lemma_empty_bounded(kls, krs, pairs_view(out@), krs[i_r as int]);
            }
        } else if i_r < n_r {
            lemma_raise_bound(kls, krs, pairs_view(out@), kls[n_l - 1], krs[i_r as int]);
        }
    }
    // the right rows left over match no left row
    while i_r < n_r
        invariant
            kls == keys_of(kl@),
            krs == keys_of(kr@),
            n_l == kls.len(),
            n_r == krs.len(),
            keys_sorted(kls),
            i_r <= n_r,
            pairs_in_bounds(out@, n_l as nat, n_r as nat),
            n_l > 0 ==> forall|j: int| i_r <= j < n_r ==> lex_lt(kls[n_l - 1], #[trigger] krs[j]),
            keys_sorted(krs),
            keys_sorted(pair_keys(kls, krs, pairs_view(out@))),
            i_r < n_r ==> keys_bounded(kls, krs, pairs_view(out@), krs[i_r as int]),
            with_left(pairs_view(out@)) == join_pairs(kls, krs, all_left),
            right_only(pairs_view(out@)) == (if all_right {
                right_rows(unmatched_right(kls, krs.take(i_r as int)))
            } else {
                Seq::empty()
            }),
        decreases n_r - i_r,
    {
        proof {
            assert forall|x: int| 0 <= x < n_l implies #[trigger] kls[x] != krs[i_r as int] by {
                assert(lex_le(kls[x], kls[n_l - 1])) by {
                    if x < n_l - 1 {
                        assert(lex_le(kls[x], kls[n_l - 1]));
                    }
                }
                lemma_le_lt(kls[x], kls[n_l - 1], krs[i_r as int]);
                lemma_lt_ne(kls[x], krs[i_r as int]);
            }
            assert(!kls.contains(krs[i_r as int]));
            lemma_unmatched_step(kls, krs, i_r as int);
        }
        if all_right {
            let ghost before = pairs_view(out@);
            out.push((None, Some(i_r)));
            proof {
                assert(pairs_view(out@) =~= before.push((None, Some(i_r as int))));
                lemma_split_push(before, (None, Some(i_r as int)));
                assert(right_rows(unmatched_right(kls, krs.take(i_r + 1))) =~= right_rows(
                    unmatched_right(kls, krs.take(i_r as int)),
                ).push((None, Some(i_r as int))));
                lemma_push_bounded(kls, krs, before, (None, Some(i_r as int)));
            }
        }
        proof {
            if i_r + 1 < n_r {
                assert(lex_le(krs[i_r as int], krs[i_r + 1]));
                lemma_raise_bound(kls, krs, pairs_view(out@), krs[i_r as int], krs[i_r + 1]);
            }
        }
        i_r = i_r + 1;
    }
    assert(kls.take(n_l as int) =~= kls);
    assert(krs.take(n_r as int) =~= krs);
    proof {
        reveal(rows_keys_ascend);
    }
    out
}

} // verus!
