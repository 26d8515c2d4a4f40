//! Reading rows of text fields (e.g. CSV records) into a DataFrame, and the
//! header of the binary save format.
use vstd::prelude::*;
use vstd::string::StrSliceExecFns;
use vstd::string::StringSliceAdditionalSpecFns;
use crate::types::NumBits;
use crate::data_frame::column::{Column, ColKind, ColType, cells_of, strings_view};
use crate::data_frame::frame::{DataFrame, DfError};
use crate::data_frame::deserialize::{ParseError, cell_parses, factor_read_result, extend_parsed, text_parses};

verus! {

/// The texts of field `j` of every record.
pub open spec fn field_texts(records: Seq<Vec<String>>, j: int) -> Seq<Seq<char>> {
    Seq::new(records.len(), |r: int| records[r]@[j]@)
}

/// Every record has a field `j`.
pub open spec fn has_field(records: Seq<Vec<String>>, j: int) -> bool {
    forall|r: int| 0 <= r < records.len() ==> j < (#[trigger] records[r])@.len()
}

/// Column `new` is column `old` extended by reading `texts` (numeric columns take
/// the values parsed by the caller, `nums`).
pub open spec fn col_read(old: Column, new: Column, texts: Seq<Seq<char>>, nums: Seq<Option<NumBits>>) -> bool {
    &&& new.kind_of() == old.kind_of()
    &&& new.wf()
    &&& if old.kind_of() == ColKind::Num {
        new.cells() == old.cells() + cells_of(nums) && new.labels_view() == old.labels_view() && new.levels_of()
            == old.levels_of()
    } else if old.kind_of() == ColKind::Factor {
        factor_read_result(old, new, texts, Ok(()))
    } else {
        &&& new.cells().len() == old.cells().len() + texts.len()
        &&& new.cells().subrange(0, old.cells().len() as int) == old.cells()
        &&& forall|i: int| 0 <= i < texts.len() ==> cell_parses(old.kind_of(), texts[i], #[trigger] new.cells()[old.cells().len() + i])
    }
}

/// The texts read into a column all parse: for a factor, each is a label of the
/// factor or the factor adds labels as it meets them; for other non-numeric
/// kinds, each is a value of the kind (or "NA"). Numeric columns are parsed by
/// the caller.
pub open spec fn texts_readable(c: Column, texts: Seq<Seq<char>>) -> bool {
    if c.kind_of() == ColKind::Num {
        true
    } else if c.kind_of() == ColKind::Factor {
        crate::data_frame::deserialize::factor_read(c.levels_of(), c.labels_view(), c.auto_label_of(), texts) is Some
    } else {
        forall|i: int| 0 <= i < texts.len() ==> #[trigger] text_parses(c.kind_of(), texts[i])
    }
}

/// Every column has a field in every record, and its texts are readable.
pub open spec fn records_readable(df: DataFrame, records: Seq<Vec<String>>) -> bool {
    forall|j: int|
        0 <= j < df.columns@.len() ==> has_field(records, j) && texts_readable(
            #[trigger] df.columns@[j],
            field_texts(records, j),
        )
}

/// Reading texts into a factor reads one level per text.
proof fn lemma_factor_read_len(levels: Seq<(Seq<char>, u16)>, labels: Seq<Seq<char>>, auto: bool, strs: Seq<Seq<char>>)
    ensures
        crate::data_frame::deserialize::factor_read(levels, labels, auto, strs) matches Some(st) ==> st.2.len() == strs.len(),
    decreases strs.len(),
{
    if strs.len() > 0 {
        lemma_factor_read_len(levels, labels, auto, strs.drop_last());
    }
}

/// A copy of typed values.
fn copy_values<T: ColType>(v: &Vec<Option<T>>) -> (r: Vec<Option<T>>)
    ensures
        r@ == v@,
{
    let mut r: Vec<Option<T>> = Vec::new();
    let mut i: usize = 0;
    while i < v.len()
        invariant
            i <= v@.len(),
            r@ == v@.take(i as int),
        decreases v@.len() - i,
    {
        r.push(T::copy_opt(&v[i]));
        assert(r@ =~= v@.take(i + 1));
        i = i + 1;
    }
    assert(v@.take(v@.len() as int) =~= v@);
    r
}

impl DataFrame {
    /// Extend every column with one buffer of records (the fields of input rows,
    /// in column order): field `j` of each record is read into column `j`.
    /// Numeric fields are parsed by the caller and given in `nums[j]`. A record
    /// without a field for a column, or a text that does not parse, is refused.
    /// A DataFrame read into is no longer sorted, grouped or indexed.
    pub fn process_read_records(&mut self, records: &Vec<Vec<String>>, nums: &Vec<Vec<Option<NumBits>>>) -> (r: Result<
        (),
        DfError,
    >)
        requires
            old(self).wf(),
            nums@.len() == old(self).columns@.len(),
            forall|j: int|
                0 <= j < old(self).columns@.len() && (#[trigger] old(self).columns@[j]).kind_of() == ColKind::Num
                    ==> nums@[j]@.len() == records@.len(),
            old(self).n_row + records@.len() <= usize::MAX,
        ensures
            r is Ok <==> records_readable(*old(self), records@),
            r is Ok ==> {
                &&& final(self).wf()
                &&& final(self).n_row == old(self).n_row + records@.len()
                &&& final(self).col_names@ == old(self).col_names@
                &&& forall|j: int|
                    0 <= j < old(self).columns@.len() ==> has_field(records@, j) && col_read(
                        old(self).columns@[j],
                        #[trigger] final(self).columns@[j],
                        field_texts(records@, j),
                        nums@[j]@,
                    )
                &&& final(self).status.is_default()
                &&& final(self).row_index.is_reset()
            },
            r matches Err(DfError::ColumnNotFound(n)) ==> exists|j: int|
                0 <= j < old(self).columns@.len() && old(self).names()[j] == n@ && !has_field(records@, j),
            r is Err ==> (r matches Err(DfError::ColumnNotFound(_)) || r matches Err(DfError::Parse(_))),
            r matches Err(DfError::Parse(_)) ==> exists|j: int|
                0 <= j < old(self).columns@.len() && has_field(records@, j) && !texts_readable(
                    #[trigger] old(self).columns@[j],
                    field_texts(records@, j),
                ),
    {
        let m = self.columns.len();
        let ghost old_self = *self;
        let mut j: usize = 0;
        while j < m
            invariant
                m == old_self.columns@.len(),
                old_self == *old(self),
                old_self.wf(),
                nums@.len() == m,
                forall|k: int|
                    0 <= k < m && (#[trigger] old_self.columns@[k]).kind_of() == ColKind::Num ==> nums@[k]@.len() == records@.len(),
                j <= m,
                self.columns@.len() == m,
                self.col_names@ == old_self.col_names@,
                self.n_row == old_self.n_row,
                self.status == old_self.status,
                self.row_index == old_self.row_index,
                self.print_max_rows == old_self.print_max_rows,
                self.print_max_col_width == old_self.print_max_col_width,
                forall|k: int| j <= k < m ==> #[trigger] self.columns@[k] == old_self.columns@[k],
                forall|k: int| 0 <= k < j ==> #[trigger] has_field(records@, k),
                forall|k: int| 0 <= k < j ==> texts_readable(#[trigger] old_self.columns@[k], field_texts(records@, k)),
                forall|k: int|
                    0 <= k < j ==> has_field(records@, k) && col_read(
                        old_self.columns@[k],
                        #[trigger] self.columns@[k],
                        field_texts(records@, k),
                        nums@[k]@,
                    ),
            decreases m - j,
        {
            // the texts of field j
            let mut strs: Vec<&str> = Vec::new();
            let mut r: usize = 0;
            while r < records.len()
                invariant
                    j < m,
                    m == old_self.columns@.len(),
                    old_self == *old(self),
                    old_self.wf(),
                    self.col_names@ == old_self.col_names@,
                    r <= records@.len(),
                    strs@.len() == r,
                    forall|t: int| 0 <= t < r ==> j < (#[trigger] records@[t])@.len() && strs@[t]@ == records@[t]@[j as int]@,
                decreases records@.len() - r,
            {
                if j >= records[r].len() {
                    proof {
                        assert(old_self.names()[j as int] == old_self.col_names@[j as int]@);
                        assert(!has_field(records@, j as int));
                        assert(!records_readable(old_self, records@)) by {
                            if records_readable(old_self, records@) {
                                let c = old_self.columns@[j as int];
                                assert(has_field(records@, j as int));
                            }
                        }
                    }
                    return Err(DfError::ColumnNotFound(self.col_names[j].clone()));
                }
                strs.push(records[r][j].as_str());
                r = r + 1;
            }
            assert(has_field(records@, j as int));
            let ghost texts = field_texts(records@, j as int);
            assert(crate::data_frame::deserialize::strs_view(strs@) =~= texts);
            assert(old_self.columns@[j as int].wf());
            let mut col = self.columns.remove(j);
            let ghost c0 = col;
            if col.kind() == ColKind::Num {
                let x = copy_values(&nums[j]);
                extend_parsed(&mut col, x);
                assert(col.levels_of() == c0.levels_of());
            } else {
                match col.deserialize(strs) {
                    Ok(()) => {
                        proof {
                            if c0.kind_of() != ColKind::Factor {
                                assert forall|i: int| 0 <= i < texts.len() implies #[trigger] text_parses(
                                    c0.kind_of(),
                                    texts[i],
                                ) by {
                                    assert(cell_parses(c0.kind_of(), texts[i], col.cells()[c0.cells().len() + i]));
                                }
                            }
                        }
                    },
                    Err(e) => {
                        proof {
                            if c0.kind_of() != ColKind::Factor {
                                let i = choose|i: int| 0 <= i < strs@.len() && strs@[i]@ == (e->text)@;
                                assert(texts[i] == strs@[i]@);
                                assert(!text_parses(c0.kind_of(), texts[i]));
                            }
                            assert(!texts_readable(old_self.columns@[j as int], texts));
                            assert(!records_readable(old_self, records@));
                        }
                        self.columns.insert(j, col);
                        return Err(DfError::Parse(e));
                    },
                }
            }
            assert(texts_readable(c0, texts));
            assert(col_read(c0, col, texts, nums@[j as int]@));
            self.columns.insert(j, col);
            j = j + 1;
        }
        self.n_row = self.n_row + records.len();
        self.status.reset();
        self.row_index.reset();
        proof {
            assert forall|k: int| 0 <= k < m implies has_field(records@, k) && texts_readable(
                #[trigger] old_self.columns@[k],
                field_texts(records@, k),
            ) by {
                assert(has_field(records@, k));
            }
            assert forall|k: int| 0 <= k < m implies has_field(records@, k) by {
                assert(has_field(records@, k));
            }
            assert forall|k: int| 0 <= k < self.columns@.len() implies (#[trigger] self.columns@[k]).cells().len()
                == self.n_row && self.columns@[k].wf() by {
                let c0 = old_self.columns@[k];
                let c = self.columns@[k];
                assert(c0.cells().len() == old_self.n_row);
                assert(col_read(c0, c, field_texts(records@, k), nums@[k]@));
                if c0.kind_of() == ColKind::Factor {
                    lemma_factor_read_len(c0.levels_of(), c0.labels_view(), c0.auto_label_of(), field_texts(records@, k));
                }
            }
        }
        Ok(())
    }
}

/// The key that opens every saved DataFrame: the bytes of "RLIKEDF1".
pub open spec fn df_magic_key() -> Seq<u8> {
    seq![82u8, 76u8, 73u8, 75u8, 69u8, 68u8, 70u8, 49u8]
}

/// The eight little-endian bytes of a number.
pub open spec fn le_bytes8(x: u64) -> Seq<u8> {
    Seq::new(8, |k: int| ((x >> (8 * k) as u64) & 0xffu64) as u8)
}

/// The eight little-endian bytes of a number, computed.
fn le_bytes(x: u64) -> (r: Vec<u8>)
    ensures
        r@ == le_bytes8(x),
{
    let mut r: Vec<u8> = Vec::new();
    let mut k: u64 = 0;
    while k < 8
        invariant
            k <= 8,
            r@.len() == k,
            forall|i: int| 0 <= i < k ==> #[trigger] r@[i] == ((x >> (8 * i) as u64) & 0xffu64) as u8,
        decreases 8 - k,
    {
        r.push(((x >> (8 * k)) & 0xff) as u8);
        k = k + 1;
    }
    assert(r@ =~= le_bytes8(x));
    r
}

impl DataFrame {
    /// The header of a saved DataFrame: the DataFrame key, the caller's key (as
    /// UTF-8 bytes), then the numbers of rows and of columns, each as eight
    /// little-endian bytes.
    pub fn save_header(&self, magic_key: &str) -> (r: Vec<u8>)
        ensures
            r@ == df_magic_key() + magic_key.spec_bytes() + le_bytes8(self.n_row as u64) + le_bytes8(
                self.columns@.len() as u64,
            ),
    {
        let mut r: Vec<u8> = Vec::new();
        r.push(82);
        r.push(76);
        r.push(73);
        r.push(75);
        r.push(69);
        r.push(68);
        r.push(70);
        r.push(49);
        let mut key = magic_key.as_bytes_vec();
        r.append(&mut key);
        let mut a = le_bytes(self.n_row as u64);
        r.append(&mut a);
        let mut b = le_bytes(self.columns.len() as u64);
        r.append(&mut b);
        r
    }
}

} // verus!
