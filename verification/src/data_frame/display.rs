//! The printed table of a DataFrame: its dimensions, a header of column names
//! with their types, a rule, and the first rows, each column fitted to a width.
//! Numeric cells get their text from the caller.
use vstd::prelude::*;
use vstd::utf8::encode_utf8;
use crate::data_frame::text::{int_text, decimal_text, cell_text_of, CellText};
use crate::data_frame::column::{Column, ColKind, CellValue, kind_type_name};
use crate::data_frame::frame::DataFrame;
use crate::data_frame::factor::clone_strings;
use crate::types::NumBits;

verus! {

/// The length of a text in UTF-8 bytes.
pub open spec fn byte_len(s: Seq<char>) -> nat {
    encode_utf8(s).len()
}

/// `n` copies of one character.
pub open spec fn repeat_char(c: char, n: nat) -> Seq<char> {
    Seq::new(n, |_i: int| c)
}

/// A text fitted to a column of width `w` (in bytes), then a space: a text longer
/// than `w` keeps its first `w - 1` characters and ends in '…'; a shorter one is
/// padded with spaces to `w` characters.
pub open spec fn fit_text(s: Seq<char>, w: nat) -> Seq<char> {
    if byte_len(s) > w {
        let p: int = w - 1;
        let k: int = if s.len() < p { s.len() as int } else { p };
        s.subrange(0, k) + "… "@
    } else {
        let pad: nat = if s.len() < w { (w - s.len()) as nat } else { 0 };
        s + repeat_char(' ', pad) + " "@
    }
}

/// The first `n` texts, each fitted to its column's width, one after another.
pub open spec fn fitted_upto(texts: Seq<Seq<char>>, ws: Seq<nat>, n: nat) -> Seq<char>
    decreases n,
{
    if n == 0 {
        Seq::empty()
    } else {
        fitted_upto(texts, ws, (n - 1) as nat) + fit_text(texts[n - 1], ws[n - 1])
    }
}

/// The rule under the header: a run of '-' as wide as each of the first `n`
/// columns, each followed by a space.
pub open spec fn dashes_upto(ws: Seq<nat>, n: nat) -> Seq<char>
    decreases n,
{
    if n == 0 {
        Seq::empty()
    } else {
        dashes_upto(ws, (n - 1) as nat) + repeat_char('-', ws[n - 1]) + " "@
    }
}

/// The greatest byte length among the first `n` texts (0 for none).
pub open spec fn max_byte_len(texts: Seq<Seq<char>>, n: nat) -> nat
    decreases n,
{
    if n == 0 {
        0
    } else {
        let m = max_byte_len(texts, (n - 1) as nat);
        let b = byte_len(texts[n - 1]);
        if b > m { b } else { m }
    }
}

/// A column's header label: its name and, in angle brackets, its type.
pub open spec fn label_text(name: Seq<char>, ty: Seq<char>) -> Seq<char> {
    name + " <"@ + ty + ">"@
}

/// The header labels of the columns.
pub open spec fn labels_of(names: Seq<Seq<char>>, types: Seq<Seq<char>>) -> Seq<Seq<char>> {
    Seq::new(names.len(), |j: int| label_text(names[j], types[j]))
}

/// A column's width: the longest of its label and its first `n_show` cells, in
/// bytes, but at most `max_width`.
pub open spec fn col_width(label: Seq<char>, cells: Seq<Seq<char>>, n_show: nat, max_width: nat) -> nat {
    let a = byte_len(label);
    let b = max_byte_len(cells, n_show);
    let m = if a > b { a } else { b };
    if m < max_width { m } else { max_width }
}

/// The widths of all columns.
pub open spec fn table_widths(
    names: Seq<Seq<char>>,
    types: Seq<Seq<char>>,
    cells: Seq<Seq<Seq<char>>>,
    n_show: nat,
    max_width: nat,
) -> Seq<nat> {
    Seq::new(names.len(), |j: int| col_width(label_text(names[j], types[j]), cells[j], n_show, max_width))
}

/// The cells of row `i`, one from each of the first `n_col` columns.
pub open spec fn row_texts(cells: Seq<Seq<Seq<char>>>, n_col: nat, i: int) -> Seq<Seq<char>> {
    Seq::new(n_col, |j: int| cells[j][i])
}

/// The first `n` rows, each fitted column by column and ended by a newline.
pub open spec fn rows_upto(cells: Seq<Seq<Seq<char>>>, ws: Seq<nat>, n_col: nat, n: nat) -> Seq<char>
    decreases n,
{
    if n == 0 {
        Seq::empty()
    } else {
        rows_upto(cells, ws, n_col, (n - 1) as nat) + fitted_upto(row_texts(cells, n_col, n - 1), ws, n_col)
            + "\n"@
    }
}

/// The number of rows shown: all of them, but at most `max_rows`.
pub open spec fn rows_shown(n_row: nat, max_rows: nat) -> nat {
    if n_row < max_rows { n_row } else { max_rows }
}

/// The printed table: a line with the dimensions, the header of labels, the
/// rule, the first rows, and a line "..." when rows were left out.
pub open spec fn table_spec(
    names: Seq<Seq<char>>,
    types: Seq<Seq<char>>,
    cells: Seq<Seq<Seq<char>>>,
    n_row: nat,
    max_rows: nat,
    max_width: nat,
) -> Seq<char> {
    let n_col = names.len();
    let n_show = rows_shown(n_row, max_rows);
    let ws = table_widths(names, types, cells, n_show, max_width);
    "\nDataFrame: "@ + decimal_text(n_row as int) + " rows × "@ + decimal_text(n_col as int) + " columns\n"@
        + fitted_upto(labels_of(names, types), ws, n_col) + "\n"@
        + dashes_upto(ws, n_col) + "\n"@
        + rows_upto(cells, ws, n_col, n_show)
        + (if n_row > max_rows { "...\n"@ } else { Seq::empty() })
}

/// A text with a character has at least one byte.
proof fn lemma_nonempty_bytes(s: Seq<char>)
    requires
        s.len() > 0,
    ensures
        byte_len(s) > 0,
{
}

/// Appends `n` copies of a one-character text.
fn append_repeat(out: &mut String, unit: &str, Ghost(c): Ghost<char>, n: usize)
    requires
        unit@ == seq![c],
    ensures
        final(out)@ == old(out)@ + repeat_char(c, n as nat),
{
    let ghost start = out@;
    let mut i: usize = 0;
    while i < n
        invariant
            i <= n,
            unit@ == seq![c],
            out@ == start + repeat_char(c, i as nat),
        decreases n - i,
    {
        out.append(unit);
        i = i + 1;
        proof {
            assert(out@ =~= start + repeat_char(c, i as nat));
        }
    }
}

/// Appends a text fitted to a column of width `w`.
fn append_fitted(out: &mut String, s: &String, w: usize)
    requires
        w >= 1,
    ensures
        final(out)@ == old(out)@ + fit_text(s@, w as nat),
{
    let ghost start = out@;
    let b = s.as_str().as_bytes().len();
    let n = s.as_str().unicode_len();
    if b > w {
        let k = if n < w - 1 { n } else { w - 1 };
        let part = s.as_str().substring_char(0, k);
        out.append(part);
        out.append("… ");
        proof {
            assert(out@ =~= start + fit_text(s@, w as nat));
        }
    } else {
        out.append(s.as_str());
        let pad: usize = if n < w { w - n } else { 0 };
        proof {
            reveal_strlit(" ");
            assert(" "@ =~= seq![' ']);
        }
        append_repeat(out, " ", Ghost(' '), pad);
        out.append(" ");
        proof {
            assert(out@ =~= start + fit_text(s@, w as nat));
        }
    }
}

/// The greatest byte length among the first `n` texts.
fn max_len_upto(texts: &Vec<String>, n: usize) -> (m: usize)
    requires
        n <= texts@.len(),
    ensures
        m == max_byte_len(texts@.map_values(|t: String| t@), n as nat),
{
    let ghost tv = texts@.map_values(|t: String| t@);
    let mut m: usize = 0;
    let mut i: usize = 0;
    while i < n
        invariant
            i <= n <= texts@.len(),
            tv == texts@.map_values(|t: String| t@),
            m == max_byte_len(tv, i as nat),
        decreases n - i,
    {
        let b = texts[i].as_str().as_bytes().len();
        proof {
            assert(tv[i as int] == texts@[i as int]@);
            assert(b == byte_len(tv[i as int]));
        }
        if b > m {
            m = b;
        }
        i = i + 1;
    }
    m
}

/// The views of a vector of texts.
pub open spec fn texts_view(v: Seq<String>) -> Seq<Seq<char>> {
    v.map_values(|t: String| t@)
}

/// The views of the cells of every column.
pub open spec fn columns_view(v: Seq<Vec<String>>) -> Seq<Seq<Seq<char>>> {
    v.map_values(|c: Vec<String>| texts_view(c@))
}

/// The printed table of columns named `names`, of types `types`, whose cells as
/// text are `cells` (one vector per column): see `table_spec`. Widths are counted
/// in bytes and at most `max_width`; at most `max_rows` of the `n_row` rows are
/// shown.
pub fn table_text(
    names: &Vec<String>,
    types: &Vec<String>,
    cells: &Vec<Vec<String>>,
    n_row: usize,
    max_rows: usize,
    max_width: usize,
) -> (s: String)
    requires
        names@.len() == types@.len(),
        names@.len() == cells@.len(),
        max_width >= 1,
        forall|j: int| 0 <= j < cells@.len() ==> #[trigger] cells@[j]@.len() >= rows_shown(n_row as nat, max_rows as nat),
    ensures
        s@ == table_spec(
            texts_view(names@),
            texts_view(types@),
            columns_view(cells@),
            n_row as nat,
            max_rows as nat,
            max_width as nat,
        ),
{
    let ghost nv = texts_view(names@);
    let ghost tv = texts_view(types@);
    let ghost cv = columns_view(cells@);
    let n_col = names.len();
    let n_show = if n_row < max_rows { n_row } else { max_rows };
    let ghost ws = table_widths(nv, tv, cv, n_show as nat, max_width as nat);
    let ghost lv = labels_of(nv, tv);
    // labels and widths
    let mut labels: Vec<String> = Vec::new();
    let mut widths: Vec<usize> = Vec::new();
    let mut j: usize = 0;
    while j < n_col
        invariant
            j <= n_col,
            n_col == names@.len(),
            names@.len() == types@.len(),
            names@.len() == cells@.len(),
            n_show == rows_shown(n_row as nat, max_rows as nat),
            max_width >= 1,
            forall|k: int| 0 <= k < cells@.len() ==> #[trigger] cells@[k]@.len() >= n_show,
            nv == texts_view(names@),
            tv == texts_view(types@),
            cv == columns_view(cells@),
            ws == table_widths(nv, tv, cv, n_show as nat, max_width as nat),
            lv == labels_of(nv, tv),
            labels@.len() == j,
            widths@.len() == j,
            forall|k: int| 0 <= k < j ==> #[trigger] labels@[k]@ == lv[k],
            forall|k: int| 0 <= k < j ==> #[trigger] widths@[k] == ws[k] && widths@[k] >= 1,
        decreases n_col - j,
    {
        let mut label = names[j].clone();
        label.append(" <");
        label.append(types[j].as_str());
        label.append(">");
        let a = label.as_str().as_bytes().len();
        let b = max_len_upto(&cells[j], n_show);
        let m = if a > b { a } else { b };
        let w = if m < max_width { m } else { max_width };
        proof {
            assert(nv[j as int] == names@[j as int]@);
            assert(tv[j as int] == types@[j as int]@);
            assert(cv[j as int] == texts_view(cells@[j as int]@));
            assert(label@ =~= lv[j as int]);
            assert(a == byte_len(label@));
            assert(b == max_byte_len(cv[j as int], n_show as nat));
            assert(w == ws[j as int]);
            reveal_strlit(" <");
            lemma_nonempty_bytes(label@);
        }
        labels.push(label);
        widths.push(w);
        j = j + 1;
    }
    let mut out = String::new();
    out.append("\nDataFrame: ");
    let t_rows = int_text(n_row as i128);
    out.append(t_rows.as_str());
    out.append(" rows × ");
    let t_cols = int_text(n_col as i128);
    out.append(t_cols.as_str());
    out.append(" columns\n");
    let ghost head = out@;
    // header labels
    let mut j: usize = 0;
    while j < n_col
        invariant
            j <= n_col,
            labels@.len() == n_col,
            widths@.len() == n_col,
            ws.len() == n_col,
            lv.len() == n_col,
            forall|k: int| 0 <= k < n_col ==> #[trigger] labels@[k]@ == lv[k],
            forall|k: int| 0 <= k < n_col ==> #[trigger] widths@[k] == ws[k] && widths@[k] >= 1,
            out@ == head + fitted_upto(lv, ws, j as nat),
        decreases n_col - j,
    {
        append_fitted(&mut out, &labels[j], widths[j]);
        j = j + 1;
    }
    out.append("\n");
    // the rule
    let ghost after_labels = out@;
    let mut j: usize = 0;
    while j < n_col
        invariant
            j <= n_col,
            widths@.len() == n_col,
            ws.len() == n_col,
            forall|k: int| 0 <= k < n_col ==> #[trigger] widths@[k] == ws[k] && widths@[k] >= 1,
            out@ == after_labels + dashes_upto(ws, j as nat),
        decreases n_col - j,
    {
        proof {
            reveal_strlit("-");
            assert("-"@ =~= seq!['-']);
        }
        append_repeat(&mut out, "-", Ghost('-'), widths[j]);
        out.append(" ");
        j = j + 1;
    }
    out.append("\n");
    // the rows
    let ghost after_rule = out@;
    let mut i: usize = 0;
    while i < n_show
        invariant
            i <= n_show,
            n_col == cells@.len(),
            widths@.len() == n_col,
            ws.len() == n_col,
            cv == columns_view(cells@),
            forall|k: int| 0 <= k < n_col ==> #[trigger] widths@[k] == ws[k] && widths@[k] >= 1,
            forall|k: int| 0 <= k < cells@.len() ==> #[trigger] cells@[k]@.len() >= n_show,
            out@ == after_rule + rows_upto(cv, ws, n_col as nat, i as nat),
        decreases n_show - i,
    {
        let ghost row_start = out@;
        let ghost rt = row_texts(cv, n_col as nat, i as int);
        let mut j: usize = 0;
        while j < n_col
            invariant
                j <= n_col,
                i < n_show,
                n_col == cells@.len(),
                widths@.len() == n_col,
                ws.len() == n_col,
                cv == columns_view(cells@),
                rt == row_texts(cv, n_col as nat, i as int),
                forall|k: int| 0 <= k < n_col ==> #[trigger] widths@[k] == ws[k] && widths@[k] >= 1,
                forall|k: int| 0 <= k < cells@.len() ==> #[trigger] cells@[k]@.len() >= n_show,
                out@ == row_start + fitted_upto(rt, ws, j as nat),
            decreases n_col - j,
        {
            proof {
                assert(cv[j as int] == texts_view(cells@[j as int]@));
                assert(rt[j as int] == cells@[j as int]@[i as int]@);
            }
            append_fitted(&mut out, &cells[j][i], widths[j]);
            j = j + 1;
        }
        out.append("\n");
        i = i + 1;
        proof {
            assert(out@ =~= after_rule + rows_upto(cv, ws, n_col as nat, i as nat));
        }
    }
    if n_row > max_rows {
        out.append("...\n");
    }
    proof {
        assert(out@ =~= table_spec(nv, tv, cv, n_row as nat, max_rows as nat, max_width as nat));
    }
    out
}

/// The type text shown in a column header: the name of the column's type without
/// the module path `alloc::string::`.
pub open spec fn shown_type_name(k: ColKind) -> Seq<char> {
    match k {
        ColKind::Str => "String"@,
        _ => kind_type_name(k),
    }
}

/// The shown type name is the type name with its module path taken off; only
/// the text type has one.
pub proof fn lemma_shown_type_name(k: ColKind)
    ensures
        kind_type_name(k) == (if k == ColKind::Str { "alloc::string::"@ } else { Seq::<char>::empty() }) + shown_type_name(k),
{
    reveal_strlit("alloc::string::String");
    reveal_strlit("alloc::string::");
    reveal_strlit("String");
    if k == ColKind::Str {
        assert(kind_type_name(k) =~= "alloc::string::"@ + "String"@);
    } else {
        assert(kind_type_name(k) =~= Seq::<char>::empty() + shown_type_name(k));
    }
}

/// The shown type names of a DataFrame's columns.
pub open spec fn shown_types(df: DataFrame) -> Seq<Seq<char>> {
    Seq::new(df.columns@.len(), |j: int| shown_type_name(df.columns@[j].kind_of()))
}

/// `t` is the printed text of a cell: for a numeric value, a text that
/// `num_text` gives for it; else the cell's text.
/// `t` is a text that `num_text` gives for the numeric value `b`.
pub open spec fn num_shown<F: Fn(NumBits) -> String>(num_text: F, b: NumBits, t: Seq<char>) -> bool {
    exists|r: String| #[trigger] num_text.ensures((b,), r) && r@ == t
}

pub open spec fn shown_cell<F: Fn(NumBits) -> String>(num_text: F, c: CellValue, labels: Seq<Seq<char>>, t: Seq<char>) -> bool {
    match c {
        CellValue::Num(Some(b)) => num_shown(num_text, b, t),
        _ => cell_text_of(c, labels) == Some(t),
    }
}

/// The printed cells of a DataFrame: for each column, the texts of its first
/// `rows_shown` cells.
pub open spec fn shown_cells(df: DataFrame, num_text: impl Fn(NumBits) -> String, cells: Seq<Seq<Seq<char>>>) -> bool {
    let n_show = rows_shown(df.n_row as nat, df.print_max_rows as nat);
    &&& cells.len() == df.columns@.len()
    &&& forall|j: int| 0 <= j < cells.len() ==> (#[trigger] cells[j]).len() == n_show
    &&& forall|j: int, i: int|
        0 <= j < cells.len() && 0 <= i < n_show ==> shown_cell(
            num_text,
            df.columns@[j].cells()[i],
            df.columns@[j].labels_view(),
            #[trigger] cells[j][i],
        )
}

/// The type shown for a column in a printed table.
fn shown_type(c: &Column) -> (s: &'static str)
    ensures
        s@ == shown_type_name(c.kind_of()),
{
    match c {
        Column::RInteger(_) => "i32",
        Column::RNumeric(_) => "f64",
        Column::RLogical(_) => "bool",
        Column::RSize(_) => "usize",
        Column::RFactor(_) => "u16",
        Column::RString(_) => "String",
    }
}

impl DataFrame {
    /// The DataFrame as printed text: the table of its column names, their shown
    /// types and the texts of its first `print_max_rows` rows, fitted to at most
    /// `print_max_col_width` bytes (see `table_spec`). A numeric value is shown
    /// as the text `num_text` gives for it.
    pub fn print_text(&self, num_text: impl Fn(NumBits) -> String) -> (s: String)
        requires
            self.wf(),
            self.print_max_col_width >= 1,
            forall|b: NumBits| #[trigger] num_text.requires((b,)),
        ensures
            exists|cells: Seq<Seq<Seq<char>>>|
                #![trigger shown_cells(*self, num_text, cells)]
                {
                    &&& shown_cells(*self, num_text, cells)
                    &&& s@ == table_spec(
                        self.names(),
                        shown_types(*self),
                        cells,
                        self.n_row as nat,
                        self.print_max_rows as nat,
                        self.print_max_col_width as nat,
                    )
                },
    {
        let n_col = self.columns.len();
        let n_show = if self.n_row < self.print_max_rows { self.n_row } else { self.print_max_rows };
        let names = clone_strings(&self.col_names);
        let mut types: Vec<String> = Vec::new();
        let mut cells: Vec<Vec<String>> = Vec::new();
        let mut j: usize = 0;
        while j < n_col
            invariant
                j <= n_col,
                n_col == self.columns@.len(),
                self.wf(),
                n_show == rows_shown(self.n_row as nat, self.print_max_rows as nat),
                forall|b: NumBits| #[trigger] num_text.requires((b,)),
                types@.len() == j,
                cells@.len() == j,
                forall|k: int| 0 <= k < j ==> #[trigger] types@[k]@ == shown_type_name(self.columns@[k].kind_of()),
                forall|k: int| 0 <= k < j ==> (#[trigger] cells@[k])@.len() == n_show,
                forall|k: int, i: int|
                    0 <= k < j && 0 <= i < n_show ==> shown_cell(
                        num_text,
                        self.columns@[k].cells()[i],
                        self.columns@[k].labels_view(),
                        #[trigger] cells@[k]@[i]@,
                    ),
            decreases n_col - j,
        {
            types.push(String::from_str(shown_type(&self.columns[j])));
            let mut col: Vec<String> = Vec::new();
            let mut i: usize = 0;
            while i < n_show
                invariant
                    i <= n_show,
                    j < n_col,
                    n_col == self.columns@.len(),
                    self.wf(),
                    n_show == rows_shown(self.n_row as nat, self.print_max_rows as nat),
                    forall|b: NumBits| #[trigger] num_text.requires((b,)),
                    col@.len() == i,
                    forall|i2: int|
                        0 <= i2 < i ==> shown_cell(
                            num_text,
                            self.columns@[j as int].cells()[i2],
                            self.columns@[j as int].labels_view(),
                            #[trigger] col@[i2]@,
                        ),
                decreases n_show - i,
            {
                assert(self.columns@[j as int].cells().len() == self.n_row);
                let ghost c = self.columns@[j as int].cells()[i as int];
                let ghost lv = self.columns@[j as int].labels_view();
                let t = match self.columns[j].cell_string(i) {
                    CellText::Text(t) => {
                        proof {
                            assert(cell_text_of(c, lv) == Some(t@));
                            assert(shown_cell(num_text, c, lv, t@));
                        }
                        t
                    },
                    CellText::Num(b) => {
                        let r = num_text(b);
                        proof {
                            assert(c == CellValue::Num(Some(b)));
                            assert(num_text.ensures((b,), r));
                            assert(num_shown(num_text, b, r@));
                            assert(shown_cell(num_text, c, lv, r@));
                        }
                        r
                    },
                };
                let ghost tv = t@;
                col.push(t);
                proof {
                    assert forall|i2: int| 0 <= i2 < i + 1 implies shown_cell(
                        num_text,
                        self.columns@[j as int].cells()[i2],
                        self.columns@[j as int].labels_view(),
                        #[trigger] col@[i2]@,
                    ) by {
                        if i2 == i {
                            assert(col@[i2]@ == tv);
                        }
                    }
                }
                i = i + 1;
            }
            cells.push(col);
            j = j + 1;
        }
        let ghost cv = columns_view(cells@);
        proof {
            assert(texts_view(names@) == self.names());
            assert(texts_view(types@) =~= shown_types(*self));
            assert forall|k: int| 0 <= k < cells@.len() implies #[trigger] cells@[k]@.len() >= n_show by {}
            assert(shown_cells(*self, num_text, cv)) by {
                assert forall|k: int, i: int| 0 <= k < cv.len() && 0 <= i < n_show implies shown_cell(
                    num_text,
                    self.columns@[k].cells()[i],
                    self.columns@[k].labels_view(),
                    #[trigger] cv[k][i],
                ) by {
                    assert(cv[k] == texts_view(cells@[k]@));
                    assert(cv[k][i] == cells@[k]@[i]@);
                }
            }
        }
        table_text(&names, &types, &cells, self.n_row, self.print_max_rows, self.print_max_col_width)
    }
}

} // verus!
