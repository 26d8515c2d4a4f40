//! Aggregation functions over plain (not NA-able) values, for grouping queries.
use vstd::prelude::*;
use crate::types::num::{RNum, ROrd, Widen, int_values, seq_sum, sums_fit, count_true, lemma_sum_step, lemma_count_true_le};

verus! {

/// The `Agg` struct provides aggregation functions for grouping queries.
///
/// The input holds no NA values: they were removed before. Output values are
/// computed from the supplied values only, as with `na.rm = TRUE` in R.
pub struct Agg {}

impl Agg {
    /// Whether the input vector has any data.
    pub fn has_data<T>(x: Vec<T>) -> (r: bool)
        ensures
            r == (x@.len() > 0),
    {
        x.len() > 0
    }

    /// The number of elements in the input vector.
    pub fn count<T>(x: Vec<T>) -> (r: usize)
        ensures
            r == x@.len(),
    {
        x.len()
    }

    /// The number of `true` elements in the input vector.
    pub fn true_count(x: Vec<bool>) -> (r: usize)
        ensures
            r == count_true(x@),
    {
        let mut n: usize = 0;
        let mut i: usize = 0;
        while i < x.len()
            invariant
                i <= x@.len(),
                n == count_true(x@.take(i as int)),
            decreases x@.len() - i,
        {
            assert(x@.take(i + 1).drop_last() =~= x@.take(i as int));
            proof {
                lemma_count_true_le(x@.take(i as int));
            }
            if x[i] {
                n = n + 1;
            }
            i = i + 1;
        }
        assert(x@.take(x@.len() as int) =~= x@);
        n
    }

    /// The sum of the elements, in their own type; every running sum must fit in
    /// that type. See `sum_into()` to sum into a wider type.
    pub fn sum<T: RNum>(x: Vec<T>) -> (r: T)
        requires
            sums_fit::<T>(int_values(x@)),
        ensures
            r.as_int() == seq_sum(int_values(x@)),
    {
        let ghost s = int_values(x@);
        let mut acc = T::zero();
        let mut i: usize = 0;
        assert(s.take(0) =~= Seq::<int>::empty());
        while i < x.len()
            invariant
                s == int_values(x@),
                sums_fit::<T>(s),
                i <= x@.len(),
                acc.as_int() == seq_sum(s.take(i as int)),
            decreases x@.len() - i,
        {
            proof {
                lemma_sum_step(s, i as int);
                assert(T::in_range(seq_sum(s.take(i + 1))));
            }
            acc = acc.plus(x[i]);
            i = i + 1;
        }
        assert(s.take(s.len() as int) =~= s);
        acc
    }

    /// The sum of the elements in another type, into which each is converted
    /// before it is added; every running sum must fit in that type.
    pub fn sum_into<T: Widen<U>, U: RNum>(x: Vec<T>) -> (r: U)
        requires
            sums_fit::<U>(int_values(x@)),
        ensures
            r.as_int() == seq_sum(int_values(x@)),
    {
        let ghost s = int_values(x@);
        let mut acc = U::zero();
        let mut i: usize = 0;
        assert(s.take(0) =~= Seq::<int>::empty());
        while i < x.len()
            invariant
                s == int_values(x@),
                sums_fit::<U>(s),
                i <= x@.len(),
                acc.as_int() == seq_sum(s.take(i as int)),
            decreases x@.len() - i,
        {
            proof {
                lemma_sum_step(s, i as int);
                assert(U::in_range(seq_sum(s.take(i + 1))));
            }
            let v = x[i].widen();
            acc = acc.plus(v);
            i = i + 1;
        }
        assert(s.take(s.len() as int) =~= s);
        acc
    }

    /// The first element of a non-empty vector.
    pub fn first<T: Copy>(x: Vec<T>) -> (r: T)
        requires
            x@.len() > 0,
        ensures
            r == x@[0],
    {
        x[0]
    }

    /// The last element of a non-empty vector.
    pub fn last<T: Copy>(x: Vec<T>) -> (r: T)
        requires
            x@.len() > 0,
        ensures
            r == x@[x@.len() - 1],
    {
        x[x.len() - 1]
    }

    /// The least element of a non-empty vector.
    pub fn min<T: ROrd>(x: Vec<T>) -> (r: T)
        requires
            x@.len() > 0,
        ensures
            x@.contains(r),
            forall|i: int| 0 <= i < x@.len() ==> r.rank() <= (#[trigger] x@[i]).rank(),
    {
        let mut m = x[0];
        let mut i: usize = 1;
        while i < x.len()
            invariant
                1 <= i <= x@.len(),
                x@.contains(m),
                forall|k: int| 0 <= k < i ==> m.rank() <= (#[trigger] x@[k]).rank(),
            decreases x@.len() - i,
        {
            if x[i].precedes(&m) {
                m = x[i];
            }
            i = i + 1;
        }
        m
    }

    /// The greatest element of a non-empty vector.
    pub fn max<T: ROrd>(x: Vec<T>) -> (r: T)
        requires
            x@.len() > 0,
        ensures
            x@.contains(r),
            forall|i: int| 0 <= i < x@.len() ==> (#[trigger] x@[i]).rank() <= r.rank(),
    {
        let mut m = x[0];
        let mut i: usize = 1;
        while i < x.len()
            invariant
                1 <= i <= x@.len(),
                x@.contains(m),
                forall|k: int| 0 <= k < i ==> (#[trigger] x@[k]).rank() <= m.rank(),
            decreases x@.len() - i,
        {
            if m.precedes(&x[i]) {
                m = x[i];
            }
            i = i + 1;
        }
        m
    }
}

} // verus!
