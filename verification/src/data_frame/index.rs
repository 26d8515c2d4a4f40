//! DataFrame row indexes: row keys built from one or more key columns that
//! support key-based retrieval of DataFrameSlices.
use vstd::prelude::*;
use crate::data_frame::column::strings_view;
use crate::data_frame::status::{any_in, any_string_in};

verus! {

/// How a RowIndex is stored and used.
#[derive(Clone, Copy, PartialEq, Eq, Structural, Debug)]
pub enum RowIndexType {
    Unindexed,
    Sorted,
    Hashed,
}

/// A RowIndex stores the current indexing state of a DataFrame: the key columns,
/// and either the ordered unique row keys (searched by binary search when the
/// DataFrame is sorted and aggregated by the key columns) or the map from a key to
/// the contiguous run of rows that hold it.
pub struct RowIndex {
    pub key_cols: Vec<String>,
    pub index_type: RowIndexType,
    pub grp_keys: Vec<Vec<u8>>,
    pub grp_map: Vec<(Vec<u8>, (usize, usize))>,
}

impl RowIndex {
    /// The index is empty: no key columns, no keys.
    pub open spec fn is_reset(self) -> bool {
        &&& self.key_cols@.len() == 0
        &&& self.index_type == RowIndexType::Unindexed
        &&& self.grp_keys@.len() == 0
        &&& self.grp_map@.len() == 0
    }

    /// Create a new empty RowIndex.
    pub fn new() -> (r: Self)
        ensures
            r.is_reset(),
    {
        RowIndex { key_cols: Vec::new(), index_type: RowIndexType::Unindexed, grp_keys: Vec::new(), grp_map: Vec::new() }
    }

    /// Purge the stored index.
    pub fn reset(&mut self)
        ensures
            final(self).is_reset(),
    {
        self.key_cols.clear();
        self.index_type = RowIndexType::Unindexed;
        self.grp_keys.clear();
        self.grp_map.clear();
    }

    /// If the index key columns include any of the given (changed) columns, reset
    /// the index; otherwise leave it as it is.
    pub fn reset_if_changed(&mut self, col_names: Vec<String>)
        ensures
            any_in(strings_view(old(self).key_cols@), strings_view(col_names@)) ==> final(self).is_reset(),
            !any_in(strings_view(old(self).key_cols@), strings_view(col_names@)) ==> *final(self) == *old(self),
    {
        if any_string_in(&self.key_cols, &col_names) {
            self.reset();
        }
    }
}

} // verus!
