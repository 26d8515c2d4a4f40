//! Text forms of cell values: decimal integers, parsing of integers, and the text
//! of one cell as shown in output and used for factor labels.
use vstd::prelude::*;
use crate::types::NumBits;
use crate::data_frame::column::{CellValue, Column, ColKind};

verus! {

/// The decimal digit character for 0..=9.
pub open spec fn digit_char(d: int) -> char {
    (48 + d) as char
}

/// The decimal digits of a natural number, without leading zeros.
pub open spec fn digits(n: nat) -> Seq<char>
    decreases n,
{
    if n < 10 {
        seq![digit_char(n as int)]
    } else {
        digits(n / 10).push(digit_char((n % 10) as int))
    }
}

/// The decimal text of an integer, with a leading '-' when negative.
pub open spec fn decimal_text(x: int) -> Seq<char> {
    if x < 0 {
        seq!['-'] + digits((-x) as nat)
    } else {
        digits(x as nat)
    }
}

/// Append the decimal digits of a natural number.
fn append_digits(out: &mut String, m: u128)
    ensures
        final(out)@ == old(out)@ + digits(m as nat),
    decreases m,
{
    if m >= 10 {
        append_digits(out, m / 10);
    }
    let d = (m % 10) as usize;
    let all = "0123456789";
    proof {
        reveal_strlit("0123456789");
    }
    let one = all.substring_char(d, d + 1);
    proof {
        assert(one@ =~= seq![digit_char(d as int)]);
    }
    out.append(one);
}

/// The decimal text of an integer: its digits, with '-' in front when it is
/// negative.
pub(crate) fn int_text(x: i128) -> (s: String)
    ensures
        s@ == decimal_text(x as int),
{
    let mut out = String::new();
    if x < 0 {
        out.append("-");
        let m: u128 = ((-(x + 1)) as u128) + 1;
        proof {
            reveal_strlit("-");
        }
        append_digits(&mut out, m);
        proof {
            assert(out@ =~= seq!['-'] + digits((-x) as nat));
        }
    } else {
        append_digits(&mut out, x as u128);
        proof {
            assert(out@ =~= digits(x as nat));
        }
    }
    out
}

/// Whether a character is an ASCII decimal digit.
pub open spec fn is_digit(c: char) -> bool {
    '0' <= c && c <= '9'
}

/// The value of a string of decimal digits.
pub open spec fn digits_value(s: Seq<char>) -> int
    decreases s.len(),
{
    if s.len() == 0 {
        0
    } else {
        digits_value(s.drop_last()) * 10 + (s.last() as int - 48)
    }
}

/// The value of a non-empty string of decimal digits, if it is one.
pub open spec fn unsigned_value(s: Seq<char>) -> Option<int> {
    if s.len() > 0 && forall|i: int| 0 <= i < s.len() ==> is_digit(#[trigger] s[i]) {
        Some(digits_value(s))
    } else {
        None
    }
}

/// The integer a text denotes in base 10: an optional '+' (or '-' when `signed`)
/// followed by at least one decimal digit.
pub open spec fn integer_value(s: Seq<char>, signed: bool) -> Option<int> {
    if s.len() > 0 && s[0] == '+' {
        unsigned_value(s.drop_first())
    } else if s.len() > 0 && s[0] == '-' && signed {
        match unsigned_value(s.drop_first()) {
            Some(v) => Some(-v),
            None => None,
        }
    } else {
        unsigned_value(s)
    }
}

/// The i32 a text denotes, if it denotes one in range.
pub open spec fn i32_of_text(s: Seq<char>) -> Option<i32> {
    match integer_value(s, true) {
        Some(v) => if i32::MIN <= v <= i32::MAX { Some(v as i32) } else { None },
        None => None,
    }
}

/// The usize a text denotes, if it denotes one in range.
pub open spec fn usize_of_text(s: Seq<char>) -> Option<usize> {
    match integer_value(s, false) {
        Some(v) => if 0 <= v <= usize::MAX { Some(v as usize) } else { None },
        None => None,
    }
}

/// The decimal digits of a natural number are digits, and read back as it.
pub proof fn lemma_digits_read_back(n: nat)
    ensures
        digits(n).len() > 0,
        forall|i: int| 0 <= i < digits(n).len() ==> is_digit(#[trigger] digits(n)[i]),
        digits_value(digits(n)) == n,
    decreases n,
{
    if n < 10 {
        let s = digits(n);
        assert(s.drop_last() =~= Seq::<char>::empty());
        assert(s.last() == digit_char(n as int));
        assert(digit_char(n as int) as int == 48 + n);
        assert(digits_value(s) == digits_value(s.drop_last()) * 10 + (s.last() as int - 48));
    } else {
        lemma_digits_read_back(n / 10);
        let p = digits(n / 10);
        let s = digits(n);
        assert(s.drop_last() =~= p);
        assert(s.last() == digit_char((n % 10) as int));
        assert(digit_char((n % 10) as int) as int == 48 + n % 10);
        assert(digits_value(s) == digits_value(p) * 10 + (s.last() as int - 48));
        assert((n / 10) * 10 + n % 10 == n) by (nonlinear_arith);
        assert forall|i: int| 0 <= i < s.len() implies is_digit(#[trigger] s[i]) by {
            if i < p.len() {
                assert(s[i] == p[i]);
            }
        }
    }
}

/// Printing an integer and parsing the text gives the integer back: the decimal
/// text of every i32 parses as that i32, and that of every usize as that usize.
pub proof fn lemma_print_parse_round_trip(x: i32, y: usize)
    ensures
        i32_of_text(decimal_text(x as int)) == Some(x),
        usize_of_text(decimal_text(y as int)) == Some(y),
{
    if x < 0 {
        let m = (-x) as nat;
        lemma_digits_read_back(m);
        let t = decimal_text(x as int);
        assert(t.drop_first() =~= digits(m));
        assert(t[0] == '-');
    } else {
        lemma_digits_read_back(x as nat);
        let d = digits(x as nat);
        assert(d[0] != '+' && d[0] != '-') by {
            assert(is_digit(d[0]));
        }
    }
    lemma_digits_read_back(y as nat);
    let e = digits(y as nat);
    assert(e[0] != '+') by {
        assert(is_digit(e[0]));
    }
}

/// Whether two texts are equal.
pub fn str_eq(a: &str, b: &str) -> (r: bool)
    ensures
        r == (a@ == b@),
{
    let x = a.to_owned();
    let y = b.to_owned();
    x == y
}

/// Whether the characters of a text from position `start` on are all decimal
/// digits and, when they are, their value if it is at most `limit`.
fn scan_digits(s: &str, start: usize, limit: usize) -> (r: (bool, Option<usize>))
    requires
        start <= s@.len(),
    ensures
        r.0 == (forall|k: int| start <= k < s@.len() ==> is_digit(#[trigger] s@[k])),
        r.0 ==> digits_value(s@.subrange(start as int, s@.len() as int)) >= 0,
        r.0 ==> r.1 == (if digits_value(s@.subrange(start as int, s@.len() as int)) <= limit {
            Some(digits_value(s@.subrange(start as int, s@.len() as int)) as usize)
        } else {
            None::<usize>
        }),
{
    let n = s.unicode_len();
    let mut i: usize = start;
    let mut acc: usize = 0;
    let mut big = false;
    let ghost mut dv: int = 0;
    assert(s@.subrange(start as int, start as int) =~= Seq::<char>::empty());
    while i < n
        invariant
            start <= i <= n,
            n == s@.len(),
            dv == digits_value(s@.subrange(start as int, i as int)),
            dv >= 0,
            forall|k: int| start <= k < i ==> is_digit(#[trigger] s@[k]),
            !big ==> acc == dv && acc <= limit,
            big ==> dv > limit,
        decreases n - i,
    {
        let c = s.get_char(i);
        if !('0' <= c && c <= '9') {
            return (false, None);
        }
        let d = (c as u32 - 48) as usize;
        proof {
            assert(s@.subrange(start as int, i + 1).drop_last() =~= s@.subrange(start as int, i as int));
            assert(s@.subrange(start as int, i + 1).last() == c);
            dv = dv * 10 + d;
        }
        if !big {
            match acc.checked_mul(10) {
                Some(m) => match m.checked_add(d) {
                    Some(a2) => {
                        if a2 <= limit {
                            acc = a2;
                        } else {
                            big = true;
                        }
                    },
                    None => {
                        big = true;
                    },
                },
                None => {
                    big = true;
                },
            }
        }
        i = i + 1;
    }
    if big {
        (true, None)
    } else {
        (true, Some(acc))
    }
}

/// Parse an i32 from text: an optional sign followed by decimal digits whose
/// value fits in an i32.
pub(crate) fn parse_i32(s: &str) -> (r: Option<i32>)
    ensures
        r == i32_of_text(s@),
{
    let n = s.unicode_len();
    if n == 0 {
        return None;
    }
    let c0 = s.get_char(0);
    let signed = c0 == '+' || c0 == '-';
    let neg = c0 == '-';
    let start: usize = if signed { 1 } else { 0 };
    if start == n {
        return None;
    }
    let (all, v) = scan_digits(s, start, 2147483648);
    let ghost t = s@.subrange(start as int, s@.len() as int);
    proof {
        if signed {
            assert(s@.drop_first() =~= t);
        } else {
            assert(s@ =~= t);
        }
        assert(all == (forall|k: int| 0 <= k < t.len() ==> is_digit(#[trigger] t[k]))) by {
            if all {
                assert forall|k: int| 0 <= k < t.len() implies is_digit(#[trigger] t[k]) by {
                    assert(t[k] == s@[start + k]);
                }
            } else {
                let k = choose|k: int| start <= k < s@.len() && !is_digit(#[trigger] s@[k]);
                assert(t[k - start] == s@[k]);
            }
        }
    }
    if !all {
        return None;
    }
    match v {
        None => None,
        Some(m) => {
            if neg {
                Some((0 - (m as i64)) as i32)
            } else if m <= 2147483647 {
                Some(m as i32)
            } else {
                None
            }
        },
    }
}

/// Parse a usize from text: an optional '+' followed by decimal digits whose
/// value fits in a usize.
pub(crate) fn parse_usize(s: &str) -> (r: Option<usize>)
    ensures
        r == usize_of_text(s@),
{
    let n = s.unicode_len();
    if n == 0 {
        return None;
    }
    let c0 = s.get_char(0);
    let start: usize = if c0 == '+' { 1 } else { 0 };
    if start == n {
        return None;
    }
    let (all, v) = scan_digits(s, start, usize::MAX);
    let ghost t = s@.subrange(start as int, s@.len() as int);
    proof {
        if start == 1 {
            assert(s@.drop_first() =~= t);
        } else {
            assert(s@ =~= t);
        }
        assert(all == (forall|k: int| 0 <= k < t.len() ==> is_digit(#[trigger] t[k]))) by {
            if all {
                assert forall|k: int| 0 <= k < t.len() implies is_digit(#[trigger] t[k]) by {
                    assert(t[k] == s@[start + k]);
                }
            } else {
                let k = choose|k: int| start <= k < s@.len() && !is_digit(#[trigger] s@[k]);
                assert(t[k - start] == s@[k]);
            }
        }
    }
    if !all {
        return None;
    }
    v
}

/// The Unicode upper-case form of a text, as `str::to_uppercase` computes it.
pub uninterp spec fn upper_text(s: Seq<char>) -> Seq<char>;

/// Upper-case a text.
///
/// Calls `str::to_uppercase`; claims only that the result is a function of the
/// text (named `upper_text`).
#[verifier::external_body]
pub(crate) fn to_upper(s: &str) -> (r: String)
    ensures
        r@ == upper_text(s@),
{
    s.to_uppercase()
}

/// The text of one cell as shown in output and used for factor labels; numeric
/// values are left as their bits.
#[derive(Debug)]
pub enum CellText {
    Text(String),
    Num(NumBits),
}

/// The label of a cell: "NA" for NA, else the value's text. Numeric cells have
/// no label here.
pub open spec fn cell_label(c: CellValue) -> Seq<char> {
    match c {
        CellValue::Int(Some(x)) => decimal_text(x as int),
        CellValue::Bool(Some(b)) => if b { "true"@ } else { "false"@ },
        CellValue::Size(Some(x)) => decimal_text(x as int),
        CellValue::Factor(Some(x)) => decimal_text(x as int),
        CellValue::Str(Some(s)) => s@,
        _ => "NA"@,
    }
}

/// The label of a cell.
pub fn cell_label_text(c: &CellValue) -> (s: String)
    requires
        !(*c matches CellValue::Num(Some(_))),
    ensures
        s@ == cell_label(*c),
{
    match c {
        CellValue::Int(Some(x)) => int_text(*x as i128),
        CellValue::Bool(Some(b)) => if *b { "true".to_owned() } else { "false".to_owned() },
        CellValue::Size(Some(x)) => int_text(*x as i128),
        CellValue::Factor(Some(x)) => int_text(*x as i128),
        CellValue::Str(Some(s)) => s.clone(),
        _ => "NA".to_owned(),
    }
}

/// The text shown for a cell: its label, or for a factor level the level and its
/// label in brackets ("NA" when the level has none); numeric values are given as
/// bits.
pub open spec fn cell_text_of(c: CellValue, labels: Seq<Seq<char>>) -> Option<Seq<char>> {
    match c {
        CellValue::Num(Some(_)) => None,
        CellValue::Factor(Some(j)) => Some(
            decimal_text(j as int) + " ("@ + (if (j as int) < labels.len() {
                labels[j as int]
            } else {
                "NA"@
            }) + ")"@,
        ),
        _ => Some(cell_label(c)),
    }
}

impl Column {
    /// The text of the cell at a row: its value, "NA", or for a factor
    /// "level (label)"; numeric values are returned as bits for formatting by the caller.
    pub fn cell_string(&self, row_i: usize) -> (t: CellText)
        requires
            row_i < self.cells().len(),
        ensures
            match t {
                CellText::Num(b) => self.cells()[row_i as int] == CellValue::Num(Some(b)),
                CellText::Text(s) => cell_text_of(self.cells()[row_i as int], self.labels_view())
                    == Some(s@),
            },
    {
        let c = self.cell_at(row_i);
        match c {
            CellValue::Num(Some(b)) => CellText::Num(b),
            CellValue::Factor(Some(j)) => {
                let level = int_text(j as i128);
                let label = match self {
                    Column::RFactor(f) => {
                        if (j as usize) < f.labels.len() {
                            f.labels[j as usize].clone()
                        } else {
                            "NA".to_owned()
                        }
                    },
                    _ => vstd::pervasive::unreached(),
                };
                let s = level.concat(" (");
                let s = s.concat(label.as_str());
                let s = s.concat(")");
                CellText::Text(s)
            },
            _ => CellText::Text(cell_label_text(&c)),
        }
    }
}

} // verus!
