//! Aggregation functions over NA-able values, for do queries: each takes a
//! column's values in a group of rows and returns a vector of NA-able values,
//! either one aggregate or one value per input element.
use vstd::prelude::*;
use crate::types::agg::Agg;
use crate::types::num::{RNum, Widen, int_values, seq_sum, sums_fit, count_true, lemma_sum_step};

verus! {

/// The values that are not NA, in order.
pub open spec fn somes<T>(s: Seq<Option<T>>) -> Seq<T>
    decreases s.len(),
{
    if s.len() == 0 {
        Seq::empty()
    } else {
        match s.last() {
            Some(v) => somes(s.drop_last()).push(v),
            None => somes(s.drop_last()),
        }
    }
}

/// Every running sum of the values that are not NA, taken at each element, is a
/// value of `U`.
pub open spec fn running_sums_fit<T: RNum, U: RNum>(s: Seq<Option<T>>) -> bool {
    forall|k: int| 0 <= k <= s.len() ==> U::in_range(#[trigger] seq_sum(int_values(somes(s.take(k)))))
}

/// The running sum at each element that is not NA, NA elsewhere.
pub open spec fn cumsum_ok<T: RNum, U: RNum>(x: Seq<Option<T>>, r: Seq<Option<U>>) -> bool {
    &&& r.len() == x.len()
    &&& forall|i: int|
        0 <= i < x.len() ==> match (#[trigger] r[i]) {
            Some(v) => x[i] is Some && v.as_int() == seq_sum(int_values(somes(x.take(i + 1)))),
            None => x[i] is None,
        }
}

/// The running sum at the last value, when that value is not NA, is the sum of
/// all values that are not NA: what `Do::sum` gives for the same values.
pub proof fn lemma_cumsum_last_is_sum<T: RNum, U: RNum>(x: Seq<Option<T>>, r: Seq<Option<U>>)
    requires
        cumsum_ok::<T, U>(x, r),
        x.len() > 0,
        x.last() is Some,
    ensures
        r.last() matches Some(v) && v.as_int() == seq_sum(int_values(somes(x))),
{
    let i = x.len() - 1;
    assert(x.take(i + 1) =~= x);
    assert(r[i] == r.last());
}

/// The `Do` struct provides aggregation functions over NA-able values, mainly for
/// do queries. They return vectors of NA-able values, to be used as columns.
pub struct Do {}

impl Do {
    /// The values that are not NA, in order.
    pub fn na_rm<T: Copy>(x: &[Option<T>]) -> (r: Vec<T>)
        ensures
            r@ == somes(x@),
    {
        let mut r: Vec<T> = Vec::new();
        let mut i: usize = 0;
        while i < x.len()
            invariant
                i <= x@.len(),
                r@ == somes(x@.take(i as int)),
            decreases x@.len() - i,
        {
            assert(x@.take(i + 1).drop_last() =~= x@.take(i as int));
            assert(x@.take(i + 1).last() == x@[i as int]);
            if let Some(v) = x[i] {
                r.push(v);
            }
            i = i + 1;
        }
        assert(x@.take(x@.len() as int) =~= x@);
        r
    }

    /// Replace each NA value with `na_replace`.
    pub fn na_replace<T: Copy>(x: &mut Vec<Option<T>>, na_replace: T)
        ensures
            final(x)@ == old(x)@.map_values(
                |o: Option<T>|
                    Some(
                        match o {
                            Some(v) => v,
                            None => na_replace,
                        },
                    ),
            ),
    {
        let mut i: usize = 0;
        while i < x.len()
            invariant
                x@.len() == old(x)@.len(),
                i <= x@.len(),
                forall|k: int|
                    0 <= k < i ==> #[trigger] x@[k] == Some(
                        match old(x)@[k] {
                            Some(v) => v,
                            None => na_replace,
                        },
                    ),
                forall|k: int| i <= k < x@.len() ==> #[trigger] x@[k] == old(x)@[k],
            decreases x@.len() - i,
        {
            if x[i].is_none() {
                x.set(i, Some(na_replace));
            }
            i = i + 1;
        }
        assert(x@ =~= old(x)@.map_values(
            |o: Option<T>|
                Some(
                    match o {
                        Some(v) => v,
                        None => na_replace,
                    },
                ),
        ));
    }

    /// Whether any value is not NA, as one value.
    pub fn has_data<T: Copy>(x: &[Option<T>]) -> (r: Vec<Option<bool>>)
        ensures
            r@ == seq![Some(somes(x@).len() > 0)],
    {
        let v = Do::na_rm(x);
        let r = vec![Some(v.len() > 0)];
        assert(r@ =~= seq![Some(somes(x@).len() > 0)]);
        r
    }

    /// The number of values that are not NA, as one value.
    pub fn count<T: Copy>(x: &[Option<T>]) -> (r: Vec<Option<usize>>)
        ensures
            r@.len() == 1,
            r@[0] matches Some(n) && n == somes(x@).len(),
    {
        let v = Do::na_rm(x);
        vec![Some(v.len())]
    }

    /// The number of `true` values among those that are not NA, as one value;
    /// NA when all are NA.
    pub fn true_count(x: &[Option<bool>]) -> (r: Vec<Option<usize>>)
        ensures
            r@.len() == 1,
            somes(x@).len() == 0 ==> r@[0] is None,
            somes(x@).len() > 0 ==> (r@[0] matches Some(n) && n == count_true(somes(x@))),
    {
        let v = Do::na_rm(x);
        if v.len() == 0 {
            return vec![None];
        }
        vec![Some(Agg::true_count(v))]
    }

    /// The sum of the values that are not NA, in their own type, as one value;
    /// NA when all are NA. Every running sum must fit in the type.
    pub fn sum<T: RNum>(x: &[Option<T>]) -> (r: Vec<Option<T>>)
        requires
            sums_fit::<T>(int_values(somes(x@))),
        ensures
            r@.len() == 1,
            somes(x@).len() == 0 ==> r@[0] is None,
            somes(x@).len() > 0 ==> (r@[0] matches Some(v) && v.as_int() == seq_sum(int_values(somes(x@)))),
    {
        let v = Do::na_rm(x);
        if v.len() == 0 {
            return vec![None];
        }
        vec![Some(Agg::sum(v))]
    }

    /// The sum of the values that are not NA in another type, as one value; NA
    /// when all are NA. Every running sum must fit in that type.
    pub fn sum_into<T: Widen<U>, U: RNum>(x: &[Option<T>]) -> (r: Vec<Option<U>>)
        requires
            sums_fit::<U>(int_values(somes(x@))),
        ensures
            r@.len() == 1,
            somes(x@).len() == 0 ==> r@[0] is None,
            somes(x@).len() > 0 ==> (r@[0] matches Some(v) && v.as_int() == seq_sum(int_values(somes(x@)))),
    {
        let v = Do::na_rm(x);
        if v.len() == 0 {
            return vec![None];
        }
        vec![Some(Agg::sum_into::<T, U>(v))]
    }

    /// The running sum of the values that are not NA, at each of them, in their
    /// own type; NA where the value is NA. Every running sum must fit in the type.
    pub fn cumsum<T: Widen<T>>(x: &[Option<T>]) -> (r: Vec<Option<T>>)
        requires
            running_sums_fit::<T, T>(x@),
        ensures
            cumsum_ok::<T, T>(x@, r@),
    {
        Do::cumsum_into::<T, T>(x)
    }

    /// The running sum of the values that are not NA, at each of them, in another
    /// type; NA where the value is NA. Every running sum must fit in that type.
    pub fn cumsum_into<T: Widen<U>, U: RNum>(x: &[Option<T>]) -> (r: Vec<Option<U>>)
        requires
            running_sums_fit::<T, U>(x@),
        ensures
            cumsum_ok::<T, U>(x@, r@),
    {
        let mut r: Vec<Option<U>> = Vec::new();
        let mut state = U::zero();
        let mut i: usize = 0;
        assert(somes(x@.take(0)) =~= Seq::<T>::empty());
        assert(int_values(somes(x@.take(0))) =~= Seq::<int>::empty());
        while i < x.len()
            invariant
                running_sums_fit::<T, U>(x@),
                i <= x@.len(),
                state.as_int() == seq_sum(int_values(somes(x@.take(i as int)))),
                cumsum_ok::<T, U>(x@.take(i as int), r@),
            decreases x@.len() - i,
        {
            let ghost s0 = somes(x@.take(i as int));
            assert(x@.take(i + 1).drop_last() =~= x@.take(i as int));
            assert(x@.take(i + 1).last() == x@[i as int]);
            assert(U::in_range(seq_sum(int_values(somes(x@.take(i + 1))))));
            let ghost r0 = r@;
            match x[i] {
                Some(v) => {
                    proof {
                        assert(somes(x@.take(i + 1)) == s0.push(v));
                        assert(int_values(s0.push(v)) =~= int_values(s0).push(v.as_int()));
                        assert(int_values(s0.push(v)).drop_last() =~= int_values(s0));
                    }
                    let w = v.widen();
                    state = state.plus(w);
                    r.push(Some(state));
                },
                None => {
                    r.push(None);
                },
            }
            proof {
                assert forall|k: int| 0 <= k < i + 1 implies match (#[trigger] r@[k]) {
                    Some(v) => x@.take(i + 1)[k] is Some && v.as_int() == seq_sum(
                        int_values(somes(x@.take(i + 1).take(k + 1))),
                    ),
                    None => x@.take(i + 1)[k] is None,
                } by {
                    assert(x@.take(i + 1).take(k + 1) =~= x@.take(k + 1));
                    if k < i {
                        assert(r@[k] == r0[k]);
                        assert(x@.take(i as int).take(k + 1) =~= x@.take(k + 1));
                    }
                }
            }
            i = i + 1;
        }
        assert(x@.take(x@.len() as int) =~= x@);
        r
    }

    /// The sums of the values at the same positions where both are not NA, NA
    /// elsewhere; as long as the shorter input. Each sum must fit in the type.
    pub fn add<T: RNum>(x: &[Option<T>], y: &[Option<T>]) -> (r: Vec<Option<T>>)
        requires
            forall|i: int|
                0 <= i < x@.len() && 0 <= i < y@.len() ==> match (#[trigger] x@[i], y@[i]) {
                    (Some(a), Some(b)) => T::in_range(a.as_int() + b.as_int()),
                    _ => true,
                },
        ensures
            r@.len() == if x@.len() <= y@.len() {
                x@.len()
            } else {
                y@.len()
            },
            forall|i: int|
                0 <= i < r@.len() ==> match (x@[i], y@[i]) {
                    (Some(a), Some(b)) => (#[trigger] r@[i]) matches Some(v) && v.as_int() == a.as_int() + b.as_int(),
                    _ => r@[i] is None,
                },
    {
        let n = if x.len() <= y.len() {
            x.len()
        } else {
            y.len()
        };
        let mut r: Vec<Option<T>> = Vec::new();
        let mut i: usize = 0;
        while i < n
            invariant
                n <= x@.len(),
                n <= y@.len(),
                n == if x@.len() <= y@.len() {
                    x@.len()
                } else {
                    y@.len()
                },
                forall|k: int|
                    0 <= k < x@.len() && 0 <= k < y@.len() ==> match (#[trigger] x@[k], y@[k]) {
                        (Some(a), Some(b)) => T::in_range(a.as_int() + b.as_int()),
                        _ => true,
                    },
                i <= n,
                r@.len() == i,
                forall|k: int|
                    0 <= k < i ==> match (x@[k], y@[k]) {
                        (Some(a), Some(b)) => (#[trigger] r@[k]) matches Some(v) && v.as_int() == a.as_int() + b.as_int(),
                        _ => r@[k] is None,
                    },
            decreases n - i,
        {
            let ghost xi = x@[i as int];
            let ghost yi = y@[i as int];
            assert(match (x@[i as int], y@[i as int]) {
                (Some(a), Some(b)) => T::in_range(a.as_int() + b.as_int()),
                _ => true,
            });
            let v = match (x[i], y[i]) {
                (Some(a), Some(b)) => Some(a.plus(b)),
                _ => None,
            };
            r.push(v);
            i = i + 1;
        }
        r
    }
}

} // verus!
