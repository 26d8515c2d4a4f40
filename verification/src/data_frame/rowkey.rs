//! Row keys: byte strings built from the cells of one or more key columns, whose
//! lexicographic order is the order of the rows by those columns, first column major.
use vstd::prelude::*;
use vstd::utf8::{encode_utf8, encode_utf8_decode_utf8};
use crate::data_frame::column::{Column, ColKind, CellValue};
use crate::data_frame::key::{CellKeyValue, opt_code_key, lex_lt, lemma_lex_concat, lemma_concat_eq, append_cell_key};
use crate::data_frame::frame::DataFrame;

verus! {

/// The order code of a cell of a kind that packs into a fixed-size key, or None
/// for NA and for strings.
pub open spec fn cell_code(c: CellValue) -> Option<u64> {
    match c {
        CellValue::Int(x) => x.key_code(),
        CellValue::Num(x) => x.key_code(),
        CellValue::Bool(x) => x.key_code(),
        CellValue::Size(x) => x.key_code(),
        CellValue::Factor(x) => x.key_code(),
        CellValue::Str(_) => None,
    }
}

/// The key of a string cell: 0 for NA, else 1 followed by the UTF-8 bytes, so that
/// NA sorts first and strings sort by their bytes.
pub open spec fn str_key(x: Option<String>) -> Seq<u8> {
    match x {
        None => seq![0u8],
        Some(s) => seq![1u8] + encode_utf8(s@),
    }
}

/// The text of an optional string.
pub open spec fn opt_text(x: Option<String>) -> Option<Seq<char>> {
    match x {
        Some(s) => Some(s@),
        None => None,
    }
}

/// Keys of text cells identify the texts and order them by their bytes: two keys
/// are equal exactly when the texts are (both NA, or the same text), NA comes
/// before every text, and one text's key is below another's exactly when its
/// whole UTF-8 encoding is lexicographically below the other's.
pub proof fn lemma_str_key_exact(a: Option<String>, b: Option<String>)
    ensures
        (str_key(a) == str_key(b)) == (opt_text(a) == opt_text(b)),
        lex_lt(str_key(a), str_key(b)) == match (a, b) {
            (None, Some(_)) => true,
            (Some(x), Some(y)) => lex_lt(encode_utf8(x@), encode_utf8(y@)),
            _ => false,
        },
{
    let one = seq![1u8];
    let zero = seq![0u8];
    match (a, b) {
        (Some(x), Some(y)) => {
            let ex = encode_utf8(x@);
            let ey = encode_utf8(y@);
            lemma_lex_concat(one, ex, one, ey);
            crate::data_frame::key::lemma_lex_trichotomy(one, one);
            if str_key(a) == str_key(b) {
                assert(ex =~= (one + ex).drop_first());
                assert(ey =~= (one + ey).drop_first());
                encode_utf8_decode_utf8(x@);
                encode_utf8_decode_utf8(y@);
            }
            if x@ == y@ {
                assert(str_key(a) =~= str_key(b));
            }
        },
        (None, Some(y)) => {
            assert(str_key(a) != str_key(b)) by {
                assert(str_key(a)[0] != str_key(b)[0]);
            }
        },
        (Some(x), None) => {
            assert(str_key(a) != str_key(b)) by {
                assert(str_key(a)[0] != str_key(b)[0]);
            }
        },
        (None, None) => {
            crate::data_frame::key::lemma_lex_trichotomy(zero, zero);
        },
    }
}

/// The key of one cell; `negate` reverses the order of present values (strings are
/// never reversed).
pub open spec fn cell_key(c: CellValue, negate: bool) -> Seq<u8> {
    match c {
        CellValue::Str(x) => str_key(x),
        _ => opt_code_key(cell_code(c), negate),
    }
}

/// The key of row `r` over the key columns `cols`: the cells' keys concatenated,
/// first column first; `negates[j]` reverses the order of column `j`.
pub open spec fn row_key(cols: Seq<Column>, negates: Seq<bool>, r: int) -> Seq<u8>
    decreases cols.len(),
{
    if cols.len() == 0 {
        Seq::empty()
    } else {
        row_key(cols.drop_last(), negates, r) + cell_key(cols.last().cells()[r], negates[cols.len() - 1])
    }
}

/// No key column holds strings.
pub open spec fn fixed_width_cols(cols: Seq<Column>) -> bool {
    forall|j: int| 0 <= j < cols.len() ==> (#[trigger] cols[j]).kind_of() != ColKind::Str
}

/// Rows `a` and `b` agree on the keys of the first `n` columns.
pub open spec fn keys_agree(cols: Seq<Column>, negates: Seq<bool>, a: int, b: int, n: int) -> bool {
    forall|j: int|
        0 <= j < n ==> cell_key((#[trigger] cols[j]).cells()[a], negates[j]) == cell_key(cols[j].cells()[b], negates[j])
}

/// Row `a` comes before row `b` column by column: the first column whose cell
/// keys differ puts `a` first.
pub open spec fn cols_before(cols: Seq<Column>, negates: Seq<bool>, a: int, b: int) -> bool {
    exists|j: int|
        0 <= j < cols.len() && keys_agree(cols, negates, a, b, j) && lex_lt(
            cell_key((#[trigger] cols[j]).cells()[a], negates[j]),
            cell_key(cols[j].cells()[b], negates[j]),
        )
}

/// A fixed-width cell key has nine bytes.
pub proof fn lemma_cell_key_len(c: CellValue, negate: bool)
    requires
        !(c is Str),
    ensures
        cell_key(c, negate).len() == 9,
{
}

/// Every cell of a column has the column's kind.
pub proof fn lemma_cell_kind(c: Column, r: int)
    requires
        0 <= r < c.cells().len(),
    ensures
        crate::data_frame::column::cell_kind(c.cells()[r]) == c.kind_of(),
{
}

/// The first columns of a key column sequence are its prefix.
proof fn lemma_prefix_cols(cols: Seq<Column>, negates: Seq<bool>, a: int, b: int, n: int)
    requires
        0 <= n < cols.len(),
    ensures
        keys_agree(cols.drop_last(), negates, a, b, n) == keys_agree(cols, negates, a, b, n),
{
    let p = cols.drop_last();
    if keys_agree(p, negates, a, b, n) {
        assert forall|j: int| 0 <= j < n implies cell_key((#[trigger] cols[j]).cells()[a], negates[j]) == cell_key(
            cols[j].cells()[b],
            negates[j],
        ) by {
            assert(p[j] == cols[j]);
        }
    }
    if keys_agree(cols, negates, a, b, n) {
        assert forall|j: int| 0 <= j < n implies cell_key((#[trigger] p[j]).cells()[a], negates[j]) == cell_key(
            p[j].cells()[b],
            negates[j],
        ) by {
            assert(p[j] == cols[j]);
        }
    }
}

/// Fixed-width row keys have nine bytes per column.
pub proof fn lemma_row_key_len(cols: Seq<Column>, negates: Seq<bool>, r: int)
    requires
        fixed_width_cols(cols),
        0 <= r,
        forall|j: int| 0 <= j < cols.len() ==> r < (#[trigger] cols[j]).cells().len(),
    ensures
        row_key(cols, negates, r).len() == 9 * cols.len(),
    decreases cols.len(),
{
    if cols.len() > 0 {
        let p = cols.drop_last();
        assert forall|j: int| 0 <= j < p.len() implies (#[trigger] p[j]).kind_of() != ColKind::Str && r
            < p[j].cells().len() by {
            assert(p[j] == cols[j]);
        }
        lemma_row_key_len(p, negates, r);
        let last = cols[cols.len() - 1];
        assert(last.kind_of() != ColKind::Str);
        lemma_cell_kind(last, r);
        lemma_cell_key_len(last.cells()[r], negates[cols.len() - 1]);
    }
}

/// Law: multi-column keys compare rows column by column. Two rows' keys are equal
/// exactly when every column's cell keys are, and one key is smaller exactly when
/// the first column whose cell keys differ puts that row first.
pub proof fn lemma_row_key_order(cols: Seq<Column>, negates: Seq<bool>, a: int, b: int)
    requires
        fixed_width_cols(cols),
        0 <= a,
        0 <= b,
        forall|j: int| 0 <= j < cols.len() ==> a < (#[trigger] cols[j]).cells().len() && b < cols[j].cells().len(),
    ensures
        (row_key(cols, negates, a) == row_key(cols, negates, b)) == keys_agree(cols, negates, a, b, cols.len() as int),
        lex_lt(row_key(cols, negates, a), row_key(cols, negates, b)) == cols_before(cols, negates, a, b),
    decreases cols.len(),
{
    if cols.len() == 0 {
        assert(!lex_lt(Seq::<u8>::empty(), Seq::<u8>::empty()));
    } else {
        let n = cols.len() as int;
        let p = cols.drop_last();
        assert forall|j: int| 0 <= j < p.len() implies (#[trigger] p[j]).kind_of() != ColKind::Str && a
            < p[j].cells().len() && b < p[j].cells().len() by {
            assert(p[j] == cols[j]);
        }
        lemma_row_key_order(p, negates, a, b);
        lemma_row_key_len(p, negates, a);
        lemma_row_key_len(p, negates, b);
        lemma_prefix_cols(cols, negates, a, b, n - 1);
        let ka = cell_key(cols[n - 1].cells()[a], negates[n - 1]);
        let kb = cell_key(cols[n - 1].cells()[b], negates[n - 1]);
        lemma_lex_concat(row_key(p, negates, a), ka, row_key(p, negates, b), kb);
        lemma_concat_eq(row_key(p, negates, a), ka, row_key(p, negates, b), kb);
        lemma_before_step(cols, negates, a, b);
    }
}

/// The column-by-column order over all columns: decided among the first columns,
/// or they agree and the last column decides.
proof fn lemma_before_step(cols: Seq<Column>, negates: Seq<bool>, a: int, b: int)
    requires
        cols.len() > 0,
    ensures
        cols_before(cols, negates, a, b) == (cols_before(cols.drop_last(), negates, a, b) || (keys_agree(
            cols,
            negates,
            a,
            b,
            cols.len() - 1,
        ) && lex_lt(
            cell_key(cols[cols.len() - 1].cells()[a], negates[cols.len() - 1]),
            cell_key(cols[cols.len() - 1].cells()[b], negates[cols.len() - 1]),
        ))),
        keys_agree(cols, negates, a, b, cols.len() as int) == (keys_agree(cols, negates, a, b, cols.len() - 1)
            && cell_key(cols[cols.len() - 1].cells()[a], negates[cols.len() - 1]) == cell_key(
            cols[cols.len() - 1].cells()[b],
            negates[cols.len() - 1],
        )),
{
    let n = cols.len() as int;
    let p = cols.drop_last();
    if cols_before(p, negates, a, b) {
        let j = choose|j: int|
            0 <= j < p.len() && keys_agree(p, negates, a, b, j) && lex_lt(
                cell_key((#[trigger] p[j]).cells()[a], negates[j]),
                cell_key(p[j].cells()[b], negates[j]),
            );
        lemma_prefix_cols(cols, negates, a, b, j);
        assert(p[j] == cols[j]);
        assert(cols_before(cols, negates, a, b));
    }
    if cols_before(cols, negates, a, b) {
        let j = choose|j: int|
            0 <= j < cols.len() && keys_agree(cols, negates, a, b, j) && lex_lt(
                cell_key((#[trigger] cols[j]).cells()[a], negates[j]),
                cell_key(cols[j].cells()[b], negates[j]),
            );
        if j < n - 1 {
            lemma_prefix_cols(cols, negates, a, b, j);
            assert(p[j] == cols[j]);
            assert(cols_before(p, negates, a, b));
        }
    }
    if keys_agree(cols, negates, a, b, n - 1) && lex_lt(
        cell_key(cols[n - 1].cells()[a], negates[n - 1]),
        cell_key(cols[n - 1].cells()[b], negates[n - 1]),
    ) {
        assert(cols_before(cols, negates, a, b));
    }
}

impl Column {
    /// The key of the cell at a row; `negate` reverses the order of present values.
    pub fn cell_key(&self, row: usize, negate: bool) -> (k: Vec<u8>)
        requires
            row < self.cells().len(),
        ensures
            k@ == cell_key(self.cells()[row as int], negate),
    {
        let mut k: Vec<u8> = Vec::new();
        match self {
            Column::RInteger(v) => append_cell_key(&mut k, &v[row].pack(negate)),
            Column::RNumeric(v) => append_cell_key(&mut k, &v[row].pack(negate)),
            Column::RLogical(v) => append_cell_key(&mut k, &v[row].pack(negate)),
            Column::RSize(v) => append_cell_key(&mut k, &v[row].pack(negate)),
            Column::RFactor(f) => append_cell_key(&mut k, &f.data[row].pack(negate)),
            Column::RString(v) => match &v[row] {
                None => k.push(0u8),
                Some(s) => {
                    k.push(1u8);
                    let b = s.as_str().as_bytes();
                    let mut i: usize = 0;
                    while i < b.len()
                        invariant
                            i <= b@.len(),
                            k@ == seq![1u8] + b@.subrange(0, i as int),
                        decreases b@.len() - i,
                    {
                        k.push(b[i]);
                        assert(b@.subrange(0, i + 1) =~= b@.subrange(0, i as int).push(b@[i as int]));
                        i = i + 1;
                    }
                    assert(b@.subrange(0, b@.len() as int) =~= b@);
                },
            },
        }
        assert(k@ =~= cell_key(self.cells()[row as int], negate));
        k
    }
}


/// The columns of a DataFrame at the given positions, in order.
pub open spec fn cols_at(df: DataFrame, pos: Seq<usize>) -> Seq<Column> {
    pos.map_values(|p: usize| df.columns@[p as int])
}

impl DataFrame {
    /// The key of a row over the columns at the given positions; `negates[j]`
    /// reverses the order of the `j`-th of them.
    pub fn row_key_at(&self, pos: &Vec<usize>, negates: &Vec<bool>, row: usize) -> (k: Vec<u8>)
        requires
            self.wf(),
            forall|i: int| 0 <= i < pos@.len() ==> #[trigger] pos@[i] < self.columns@.len(),
            negates@.len() >= pos@.len(),
            row < self.n_row,
        ensures
            k@ == row_key(cols_at(*self, pos@), negates@, row as int),
    {
        let mut k: Vec<u8> = Vec::new();
        let mut j: usize = 0;
        assert(cols_at(*self, pos@.take(0)) =~= Seq::<Column>::empty());
        while j < pos.len()
            invariant
                self.wf(),
                forall|i: int| 0 <= i < pos@.len() ==> #[trigger] pos@[i] < self.columns@.len(),
                negates@.len() >= pos@.len(),
                row < self.n_row,
                j <= pos@.len(),
                k@ == row_key(cols_at(*self, pos@.take(j as int)), negates@, row as int),
            decreases pos@.len() - j,
        {
            let p = pos[j];
            assert(self.columns@[p as int].cells().len() == self.n_row);
            let mut ck = self.columns[p].cell_key(row, negates[j]);
            k.append(&mut ck);
            proof {
                let c1 = cols_at(*self, pos@.take(j + 1));
                assert(c1.drop_last() =~= cols_at(*self, pos@.take(j as int)));
                assert(c1.last() == self.columns@[p as int]);
            }
            j = j + 1;
        }
        assert(pos@.take(pos@.len() as int) =~= pos@);
        k
    }
}

} // verus!
