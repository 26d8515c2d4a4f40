//! The sort, group and aggregation state of a DataFrame, i.e., the result of
//! previous query operations.
use vstd::prelude::*;
use crate::data_frame::column::strings_view;
use crate::data_frame::factor::first_index;
use crate::data_frame::factor::clone_strings;

verus! {

/// Whether `p` is a prefix of `s`.
pub open spec fn is_prefix<T>(p: Seq<T>, s: Seq<T>) -> bool {
    p.len() <= s.len() && s.subrange(0, p.len() as int) == p
}

/// Whether some text of `a` occurs in `b`.
pub open spec fn any_in(a: Seq<Seq<char>>, b: Seq<Seq<char>>) -> bool {
    exists|i: int| 0 <= i < a.len() && first_index(b, #[trigger] a[i]) >= 0
}

/// Whether a vector of strings starts with another, compared by text.
pub fn starts_with_strings(s: &Vec<String>, p: &[String]) -> (r: bool)
    ensures
        r == is_prefix(strings_view(p@), strings_view(s@)),
{
    if p.len() > s.len() {
        return false;
    }
    let mut i: usize = 0;
    while i < p.len()
        invariant
            i <= p.len() <= s.len(),
            forall|j: int| 0 <= j < i ==> s@[j]@ == p@[j]@,
        decreases p.len() - i,
    {
        if s[i] != p[i] {
            assert(strings_view(s@).subrange(0, p.len() as int)[i as int] == s@[i as int]@);
            return false;
        }
        i = i + 1;
    }
    assert(strings_view(s@).subrange(0, p.len() as int) =~= strings_view(p@));
    true
}

/// Whether a vector of flags starts with another.
pub fn starts_with_bools(s: &Vec<bool>, p: &[bool]) -> (r: bool)
    ensures
        r == is_prefix(p@, s@),
{
    if p.len() > s.len() {
        return false;
    }
    let mut i: usize = 0;
    while i < p.len()
        invariant
            i <= p.len() <= s.len(),
            forall|j: int| 0 <= j < i ==> s@[j] == p@[j],
        decreases p.len() - i,
    {
        if s[i] != p[i] {
            assert(s@.subrange(0, p.len() as int)[i as int] == s@[i as int]);
            return false;
        }
        i = i + 1;
    }
    assert(s@.subrange(0, p.len() as int) =~= p@);
    true
}

/// Whether a string occurs in a vector of strings, compared by text.
pub fn contains_string(v: &Vec<String>, x: &String) -> (r: bool)
    ensures
        r == (first_index(strings_view(v@), x@) >= 0),
{
    crate::data_frame::factor::find_label(v, x).is_some()
}

/// Whether some string of `a` occurs in `b`.
pub fn any_string_in(a: &Vec<String>, b: &Vec<String>) -> (r: bool)
    ensures
        r == any_in(strings_view(a@), strings_view(b@)),
{
    let mut i: usize = 0;
    while i < a.len()
        invariant
            i <= a.len(),
            forall|j: int| 0 <= j < i ==> first_index(strings_view(b@), #[trigger] strings_view(a@)[j]) < 0,
        decreases a.len() - i,
    {
        assert(strings_view(a@)[i as int] == a@[i as int]@);
        if contains_string(b, &a[i]) {
            return true;
        }
        i = i + 1;
    }
    false
}

/// QueryStatus is a metadata record of the current sort and group state of a DataFrame.
pub struct QueryStatus {
    // row sorting
    pub sort_cols: Vec<String>,
    pub sort_negates: Vec<bool>,
    pub is_sorted: bool,
    // row grouping
    pub group_cols: Vec<String>,
    pub is_grouped: bool,
    // row aggregation
    pub agg_cols: Vec<String>,
    pub is_aggregated: bool,
}

impl QueryStatus {
    /// The status is the default one: not sorted, grouped or aggregated.
    pub open spec fn is_default(self) -> bool {
        &&& self.sort_cols@.len() == 0
        &&& self.sort_negates@.len() == 0
        &&& !self.is_sorted
        &&& self.group_cols@.len() == 0
        &&& !self.is_grouped
        &&& self.agg_cols@.len() == 0
        &&& !self.is_aggregated
    }

    /// Create a new QueryStatus instance.
    pub fn new() -> (s: Self)
        ensures
            s.is_default(),
    {
        QueryStatus {
            sort_cols: Vec::new(),
            sort_negates: Vec::new(),
            is_sorted: false,
            group_cols: Vec::new(),
            is_grouped: false,
            agg_cols: Vec::new(),
            is_aggregated: false,
        }
    }

    /// Reset the query status to the default state when row order or sort columns change.
    pub fn reset(&mut self)
        ensures
            final(self).is_default(),
    {
        self.sort_cols.clear();
        self.sort_negates.clear();
        self.is_sorted = false;
        self.group_cols.clear();
        self.is_grouped = false;
        self.agg_cols.clear();
        self.is_aggregated = false;
    }

    /// Determine if a DataFrame is currently sorted by the specified columns.
    pub fn is_sorted_by(&self, col_names: &[String], negates: &[bool]) -> (r: bool)
        ensures
            r == (self.is_sorted && is_prefix(strings_view(col_names@), strings_view(self.sort_cols@))
                && is_prefix(negates@, self.sort_negates@)),
    {
        self.is_sorted && starts_with_strings(&self.sort_cols, col_names) && starts_with_bools(
            &self.sort_negates,
            negates,
        )
    }

    /// Determine if a DataFrame is currently grouped by the specified columns.
    pub fn is_grouped_by(&self, col_names: &[String]) -> (r: bool)
        ensures
            r == (self.is_grouped && is_prefix(strings_view(col_names@), strings_view(self.group_cols@))),
    {
        self.is_grouped && starts_with_strings(&self.group_cols, col_names)
    }

    /// Determine if a DataFrame is currently grouped and aggregated by the specified
    /// grouping columns.
    pub fn is_aggregated_by(&self, col_names: &[String]) -> (r: bool)
        ensures
            r == (self.is_aggregated && is_prefix(strings_view(col_names@), strings_view(self.group_cols@))),
    {
        self.is_aggregated && starts_with_strings(&self.group_cols, col_names)
    }

    /// If the sort columns include any of the given (changed) columns, reset the
    /// status to the default state; otherwise leave it as it is.
    pub fn reset_if_changed(&mut self, col_names: Vec<String>)
        ensures
            any_in(strings_view(old(self).sort_cols@), strings_view(col_names@)) ==> final(self).is_default(),
            !any_in(strings_view(old(self).sort_cols@), strings_view(col_names@)) ==> *final(self) == *old(self),
    {
        if any_string_in(&self.sort_cols, &col_names) {
            self.reset();
        }
    }

    /// Two statuses record the same sort, group and aggregation state.
    pub open spec fn same_as(self, other: QueryStatus) -> bool {
        &&& self.sort_cols@ == other.sort_cols@
        &&& self.sort_negates@ == other.sort_negates@
        &&& self.is_sorted == other.is_sorted
        &&& self.group_cols@ == other.group_cols@
        &&& self.is_grouped == other.is_grouped
        &&& self.agg_cols@ == other.agg_cols@
        &&& self.is_aggregated == other.is_aggregated
    }

    /// A copy of the status.
    pub fn copy(&self) -> (r: QueryStatus)
        ensures
            r.same_as(*self),
    {
        QueryStatus {
            sort_cols: clone_strings(&self.sort_cols),
            sort_negates: clone_bools(&self.sort_negates),
            is_sorted: self.is_sorted,
            group_cols: clone_strings(&self.group_cols),
            is_grouped: self.is_grouped,
            agg_cols: clone_strings(&self.agg_cols),
            is_aggregated: self.is_aggregated,
        }
    }
}

/// A copy of a vector of flags.
pub fn clone_bools(v: &Vec<bool>) -> (r: Vec<bool>)
    ensures
        r@ == v@,
{
    let mut r: Vec<bool> = Vec::new();
    let mut i: usize = 0;
    while i < v.len()
        invariant
            i <= v.len(),
            r@ == v@.subrange(0, i as int),
        decreases v.len() - i,
    {
        r.push(v[i]);
        assert(v@.subrange(0, i + 1) =~= v@.subrange(0, i as int).push(v@[i as int]));
        i = i + 1;
    }
    assert(v@.subrange(0, v.len() as int) =~= v@);
    r
}

} // verus!
