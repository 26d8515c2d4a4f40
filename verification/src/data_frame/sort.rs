//! Ordering rows by their keys: a parallel sort of (key, position) pairs, and the
//! permutation of positions it yields.
use vstd::prelude::*;
use rayon::slice::ParallelSliceMut;
use crate::data_frame::key::lex_le;

verus! {

broadcast use vstd::seq_lib::group_to_multiset_ensures;

/// Sort (key, position) pairs by key with rayon's `par_sort_unstable_by_key`.
/// Trusted: the pairs come out as a rearrangement of the pairs that went in, and
/// in ascending lexicographic order of their keys (the order of `Vec<u8>`); the
/// order of pairs with equal keys is left open, as the sort is not stable.
#[verifier::external_body]
fn par_sort_pairs(v: &mut Vec<(Vec<u8>, usize)>)
    ensures
        final(v)@.to_multiset() == old(v)@.to_multiset(),
        forall|i: int, j: int| 0 <= i < j < final(v)@.len() ==> lex_le(final(v)@[i].0@, final(v)@[j].0@),
{
    v.par_sort_unstable_by_key(|p| p.0.clone());
}

/// `p` lists each of the positions `0..n` exactly once.
pub open spec fn is_permutation(p: Seq<usize>, n: nat) -> bool {
    &&& p.len() == n
    &&& p.no_duplicates()
    &&& forall|i: int| 0 <= i < p.len() ==> (#[trigger] p[i]) < n
}

/// The keys taken in the order `p` are ascending.
pub open spec fn sorted_by(keys: Seq<Seq<u8>>, p: Seq<usize>) -> bool {
    forall|i: int, j: int| 0 <= i < j < p.len() ==> lex_le(keys[p[i] as int], keys[p[j] as int])
}

/// The views of a vector of keys.
pub open spec fn keys_view(keys: Seq<Vec<u8>>) -> Seq<Seq<u8>> {
    keys.map_values(|k: Vec<u8>| k@)
}

/// The order in which to take the keys so that they ascend: a permutation of the
/// positions `0..keys.len()`.
pub fn sort_positions(keys: &Vec<Vec<u8>>) -> (p: Vec<usize>)
    ensures
        is_permutation(p@, keys@.len()),
        sorted_by(keys_view(keys@), p@),
{
    let n = keys.len();
    let mut pairs: Vec<(Vec<u8>, usize)> = Vec::new();
    let mut i: usize = 0;
    while i < n
        invariant
            n == keys@.len(),
            i <= n,
            pairs@.len() == i,
            forall|k: int| 0 <= k < i ==> (#[trigger] pairs@[k]).0@ == keys@[k]@ && pairs@[k].1 == k as usize,
        decreases n - i,
    {
        pairs.push((keys[i].clone(), i));
        i = i + 1;
    }
    let ghost before = pairs@;
    proof {
        assert(before.no_duplicates()) by {
            assert forall|a: int, b: int| 0 <= a < before.len() && 0 <= b < before.len() && a != b implies before[a]
                != before[b] by {
                assert(before[a].1 == a as usize);
                assert(before[b].1 == b as usize);
            }
        }
        before.lemma_multiset_has_no_duplicates();
    }
    par_sort_pairs(&mut pairs);
    let ghost after = pairs@;
    proof {
        assert forall|x: (Vec<u8>, usize)| after.to_multiset().contains(x) implies after.to_multiset().count(x)
            == 1 by {
            assert(before.to_multiset().contains(x));
        }
        after.lemma_multiset_has_no_duplicates_conv();
        assert(after.to_multiset().len() == before.to_multiset().len());
        assert forall|k: int| 0 <= k < n implies (#[trigger] after[k]).0@ == keys@[after[k].1 as int]@
            && after[k].1 < n && after[k] == before[after[k].1 as int] by {
            assert(after.contains(after[k]));
            assert(after.to_multiset().count(after[k]) > 0);
            assert(before.to_multiset().count(after[k]) > 0);
            assert(before.contains(after[k]));
            let m = choose|m: int| 0 <= m < before.len() && before[m] == after[k];
            assert(before[m].1 == m as usize);
        }
    }
    let mut p: Vec<usize> = Vec::new();
    let mut r: usize = 0;
    while r < n
        invariant
            n == keys@.len(),
            after.len() == n,
            pairs@ == after,
            r <= n,
            p@.len() == r,
            forall|k: int| 0 <= k < r ==> (#[trigger] p@[k]) == after[k].1,
            forall|k: int|
                0 <= k < n ==> (#[trigger] after[k]).0@ == keys@[after[k].1 as int]@ && after[k].1 < n
                    && after[k] == before[after[k].1 as int],
        decreases n - r,
    {
        p.push(pairs[r].1);
        r = r + 1;
    }
    proof {
        assert(p@.no_duplicates()) by {
            assert forall|a: int, b: int| 0 <= a < p@.len() && 0 <= b < p@.len() && a != b implies p@[a]
                != p@[b] by {
                assert(after[a] != after[b]);
                assert(after[a].0@ == keys@[after[a].1 as int]@);
            }
        }
        assert forall|a: int, b: int| 0 <= a < b < p@.len() implies lex_le(
            keys_view(keys@)[p@[a] as int],
            keys_view(keys@)[p@[b] as int],
        ) by {
            assert(lex_le(after[a].0@, after[b].0@));
        }
    }
    p
}

} // verus!
