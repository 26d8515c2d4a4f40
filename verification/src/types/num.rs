//! The integer types that aggregation functions add and compare, and the sums
//! they compute.
use vstd::prelude::*;

verus! {

/// An integer primitive of R-like data: its value as a mathematical integer,
/// the range it can hold, addition within that range, and comparison.
pub trait RNum: Copy + Sized {
    /// The value as a mathematical integer.
    spec fn as_int(self) -> int;

    /// Whether the type can hold a value.
    spec fn in_range(v: int) -> bool;

    /// Zero.
    fn zero() -> (r: Self)
        ensures
            r.as_int() == 0,
    ;

    /// The sum of two values that the type can hold.
    fn plus(self, other: Self) -> (r: Self)
        requires
            Self::in_range(self.as_int() + other.as_int()),
        ensures
            r.as_int() == self.as_int() + other.as_int(),
    ;

    /// Whether `self` is below `other`.
    fn below(&self, other: &Self) -> (r: bool)
        ensures
            r == (self.as_int() < other.as_int()),
    ;

    /// Every value is in range, and two values with the same integer are equal.
    proof fn lemma_value(self, other: Self)
        ensures
            Self::in_range(self.as_int()),
            self.as_int() == other.as_int() ==> self == other,
    ;
}

/// A primitive whose values another primitive holds exactly.
pub trait Widen<U: RNum>: RNum {
    /// The same value in the wider type.
    fn widen(self) -> (r: U)
        ensures
            r.as_int() == self.as_int(),
    ;
}

impl RNum for i32 {
    open spec fn as_int(self) -> int {
        self as int
    }

    open spec fn in_range(v: int) -> bool {
        i32::MIN <= v <= i32::MAX
    }

    fn zero() -> (r: Self) {
        0
    }

    fn plus(self, other: Self) -> (r: Self) {
        self + other
    }

    fn below(&self, other: &Self) -> (r: bool) {
        *self < *other
    }

    proof fn lemma_value(self, other: Self) {
    }
}

impl RNum for i64 {
    open spec fn as_int(self) -> int {
        self as int
    }

    open spec fn in_range(v: int) -> bool {
        i64::MIN <= v <= i64::MAX
    }

    fn zero() -> (r: Self) {
        0
    }

    fn plus(self, other: Self) -> (r: Self) {
        self + other
    }

    fn below(&self, other: &Self) -> (r: bool) {
        *self < *other
    }

    proof fn lemma_value(self, other: Self) {
    }
}

impl RNum for usize {
    open spec fn as_int(self) -> int {
        self as int
    }

    open spec fn in_range(v: int) -> bool {
        0 <= v <= usize::MAX
    }

    fn zero() -> (r: Self) {
        0
    }

    fn plus(self, other: Self) -> (r: Self) {
        self + other
    }

    fn below(&self, other: &Self) -> (r: bool) {
        *self < *other
    }

    proof fn lemma_value(self, other: Self) {
    }
}

impl RNum for u64 {
    open spec fn as_int(self) -> int {
        self as int
    }

    open spec fn in_range(v: int) -> bool {
        0 <= v <= u64::MAX
    }

    fn zero() -> (r: Self) {
        0
    }

    fn plus(self, other: Self) -> (r: Self) {
        self + other
    }

    fn below(&self, other: &Self) -> (r: bool) {
        *self < *other
    }

    proof fn lemma_value(self, other: Self) {
    }
}

impl RNum for u16 {
    open spec fn as_int(self) -> int {
        self as int
    }

    open spec fn in_range(v: int) -> bool {
        0 <= v <= u16::MAX
    }

    fn zero() -> (r: Self) {
        0
    }

    fn plus(self, other: Self) -> (r: Self) {
        self + other
    }

    fn below(&self, other: &Self) -> (r: bool) {
        *self < *other
    }

    proof fn lemma_value(self, other: Self) {
    }
}

impl Widen<i64> for i32 {
    fn widen(self) -> (r: i64) {
        self as i64
    }
}

impl Widen<i64> for i64 {
    fn widen(self) -> (r: i64) {
        self
    }
}

impl Widen<u64> for usize {
    fn widen(self) -> (r: u64) {
        self as u64
    }
}

impl Widen<usize> for u16 {
    fn widen(self) -> (r: usize) {
        self as usize
    }
}

impl Widen<usize> for usize {
    fn widen(self) -> (r: usize) {
        self
    }
}

impl Widen<u64> for u64 {
    fn widen(self) -> (r: u64) {
        self
    }
}

impl Widen<u16> for u16 {
    fn widen(self) -> (r: u16) {
        self
    }
}

impl Widen<i32> for i32 {
    fn widen(self) -> (r: i32) {
        self
    }
}

/// The values of a sequence as mathematical integers.
pub open spec fn int_values<T: RNum>(s: Seq<T>) -> Seq<int> {
    s.map_values(|v: T| v.as_int())
}

/// The sum of a sequence of integers.
pub open spec fn seq_sum(s: Seq<int>) -> int
    decreases s.len(),
{
    if s.len() == 0 {
        0
    } else {
        seq_sum(s.drop_last()) + s.last()
    }
}

/// Every running sum of a sequence, from the left, is a value of `U`.
pub open spec fn sums_fit<U: RNum>(s: Seq<int>) -> bool {
    forall|k: int| 0 <= k <= s.len() ==> U::in_range(#[trigger] seq_sum(s.take(k)))
}

/// The number of `true` values in a sequence.
pub open spec fn count_true(s: Seq<bool>) -> nat
    decreases s.len(),
{
    if s.len() == 0 {
        0
    } else {
        count_true(s.drop_last()) + if s.last() {
            1nat
        } else {
            0nat
        }
    }
}

/// At most one value per element is true.
pub proof fn lemma_count_true_le(s: Seq<bool>)
    ensures
        count_true(s) <= s.len(),
    decreases s.len(),
{
    if s.len() > 0 {
        lemma_count_true_le(s.drop_last());
    }
}

/// The sum of `n` values of a sequence, one step at a time.
pub proof fn lemma_sum_step(s: Seq<int>, k: int)
    requires
        0 <= k < s.len(),
    ensures
        seq_sum(s.take(k + 1)) == seq_sum(s.take(k)) + s[k],
{
    assert(s.take(k + 1).drop_last() =~= s.take(k));
}


/// A primitive with a total order, as the rank of each value: integers rank as
/// themselves, and `false` comes before `true`.
pub trait ROrd: Copy + Sized {
    /// The value's place in the order.
    spec fn rank(self) -> int;

    /// Whether `self` comes before `other`.
    fn precedes(&self, other: &Self) -> (r: bool)
        ensures
            r == (self.rank() < other.rank()),
    ;
}

impl ROrd for i32 {
    open spec fn rank(self) -> int {
        self as int
    }

    fn precedes(&self, other: &Self) -> (r: bool) {
        *self < *other
    }
}

impl ROrd for i64 {
    open spec fn rank(self) -> int {
        self as int
    }

    fn precedes(&self, other: &Self) -> (r: bool) {
        *self < *other
    }
}

impl ROrd for usize {
    open spec fn rank(self) -> int {
        self as int
    }

    fn precedes(&self, other: &Self) -> (r: bool) {
        *self < *other
    }
}

impl ROrd for u64 {
    open spec fn rank(self) -> int {
        self as int
    }

    fn precedes(&self, other: &Self) -> (r: bool) {
        *self < *other
    }
}

impl ROrd for u16 {
    open spec fn rank(self) -> int {
        self as int
    }

    fn precedes(&self, other: &Self) -> (r: bool) {
        *self < *other
    }
}

impl ROrd for bool {
    open spec fn rank(self) -> int {
        if self { 1 } else { 0 }
    }

    fn precedes(&self, other: &Self) -> (r: bool) {
        !*self && *other
    }
}

} // verus!
