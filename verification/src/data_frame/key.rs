//! Cell and row keys: byte strings whose lexicographic order is the order of the
//! values they encode, used for sorting, grouping, joining and indexing.
use vstd::prelude::*;
use crate::types::NumBits;

verus! {

/// Lexicographic "less than" on byte strings; a proper prefix sorts first.
pub open spec fn lex_lt(a: Seq<u8>, b: Seq<u8>) -> bool
    decreases a.len(),
{
    if a.len() == 0 {
        b.len() > 0
    } else if b.len() == 0 {
        false
    } else if a[0] < b[0] {
        true
    } else if a[0] > b[0] {
        false
    } else {
        lex_lt(a.drop_first(), b.drop_first())
    }
}

/// Lexicographic "less than or equal" on byte strings.
pub open spec fn lex_le(a: Seq<u8>, b: Seq<u8>) -> bool {
    lex_lt(a, b) || a == b
}

/// The lexicographic order is irreflexive, and exactly one of `a < b`, `a == b`,
/// `b < a` holds.
pub proof fn lemma_lex_trichotomy(a: Seq<u8>, b: Seq<u8>)
    ensures
        !lex_lt(a, a),
        a == b || lex_lt(a, b) || lex_lt(b, a),
        !(lex_lt(a, b) && lex_lt(b, a)),
        lex_lt(a, b) ==> a != b,
    decreases a.len(),
{
    if a.len() > 0 && b.len() > 0 {
        lemma_lex_trichotomy(a.drop_first(), b.drop_first());
        lemma_lex_trichotomy(a.drop_first(), a.drop_first());
        if a[0] == b[0] && a.drop_first() == b.drop_first() {
            assert(a =~= seq![a[0]] + a.drop_first());
            assert(b =~= seq![b[0]] + b.drop_first());
        }
    } else if a.len() > 0 {
        lemma_lex_trichotomy(a.drop_first(), a.drop_first());
    } else if b.len() == 0 {
        assert(a =~= b);
    }
}

/// The lexicographic order is transitive.
pub proof fn lemma_lex_transitive(a: Seq<u8>, b: Seq<u8>, c: Seq<u8>)
    requires
        lex_lt(a, b),
        lex_lt(b, c),
    ensures
        lex_lt(a, c),
    decreases a.len(),
{
    if a.len() > 0 && b.len() > 0 && c.len() > 0 && a[0] == b[0] && b[0] == c[0] {
        lemma_lex_transitive(a.drop_first(), b.drop_first(), c.drop_first());
    }
}

/// Comparing concatenations of equal-length heads compares the heads first and
/// the tails only when the heads are equal.
pub proof fn lemma_lex_concat(a1: Seq<u8>, a2: Seq<u8>, b1: Seq<u8>, b2: Seq<u8>)
    requires
        a1.len() == b1.len(),
    ensures
        lex_lt(a1 + a2, b1 + b2) == (lex_lt(a1, b1) || (a1 == b1 && lex_lt(a2, b2))),
    decreases a1.len(),
{
    if a1.len() == 0 {
        assert(a1 + a2 =~= a2);
        assert(b1 + b2 =~= b2);
        assert(a1 =~= b1);
        lemma_lex_trichotomy(a1, a1);
    } else {
        assert((a1 + a2).drop_first() =~= a1.drop_first() + a2);
        assert((b1 + b2).drop_first() =~= b1.drop_first() + b2);
        lemma_lex_concat(a1.drop_first(), a2, b1.drop_first(), b2);
        if a1[0] == b1[0] && a1.drop_first() == b1.drop_first() {
            assert(a1 =~= seq![a1[0]] + a1.drop_first());
            assert(b1 =~= seq![b1[0]] + b1.drop_first());
        }
        if a1 == b1 {
            assert(a1.drop_first() =~= b1.drop_first());
        }
    }
}


/// Byte `k` (counted from the least significant byte) of a 64-bit word.
pub open spec fn byte_of(u: u64, k: u64) -> u8 {
    ((u >> (8 * k)) & 0xff) as u8
}

/// The eight bytes of a 64-bit word, most significant first.
pub open spec fn be_bytes8(u: u64) -> Seq<u8> {
    seq![
        byte_of(u, 7), byte_of(u, 6), byte_of(u, 5), byte_of(u, 4),
        byte_of(u, 3), byte_of(u, 2), byte_of(u, 1), byte_of(u, 0),
    ]
}

/// The key of an NA cell: nine zero bytes.
pub open spec fn na_key() -> Seq<u8> {
    seq![0u8, 0u8, 0u8, 0u8, 0u8, 0u8, 0u8, 0u8, 0u8]
}

/// The key of a present cell whose order code is `code`: a one byte, then the code
/// (bitwise complemented when the order is descending), most significant byte first.
pub open spec fn code_key(code: u64, negate: bool) -> Seq<u8> {
    seq![1u8] + be_bytes8(if negate { !code } else { code })
}

/// The key of a cell given its order code, or NA.
pub open spec fn opt_code_key(code: Option<u64>, negate: bool) -> Seq<u8> {
    match code {
        Some(c) => code_key(c, negate),
        None => na_key(),
    }
}

/// Where keys put two cells: NA first, then present values ascending, or
/// descending when `negate` holds.
pub open spec fn code_before(a: Option<u64>, b: Option<u64>, negate: bool) -> bool {
    match (a, b) {
        (None, Some(_)) => true,
        (Some(x), Some(y)) => if negate { y < x } else { x < y },
        _ => false,
    }
}

proof fn lemma_single_byte(x: u8, y: u8)
    ensures
        lex_lt(seq![x], seq![y]) == (x < y),
        (seq![x] == seq![y]) == (x == y),
{
    assert(seq![x].drop_first() =~= Seq::<u8>::empty());
    assert(seq![y].drop_first() =~= Seq::<u8>::empty());
    assert(!lex_lt(Seq::<u8>::empty(), Seq::<u8>::empty()));
    if x == y {
        assert(seq![x] =~= seq![y]);
    }
    if seq![x] == seq![y] {
        assert(seq![x][0] == seq![y][0]);
    }
}

proof fn lemma_be_bytes8_split(u: u64)
    ensures
        be_bytes8(u) =~= seq![byte_of(u, 7)] + (seq![byte_of(u, 6)] + (seq![byte_of(u, 5)] + (
        seq![byte_of(u, 4)] + (seq![byte_of(u, 3)] + (seq![byte_of(u, 2)] + (seq![byte_of(u, 1)]
            + seq![byte_of(u, 0)])))))),
{
}

proof fn lemma_bytes_order(u: u64, v: u64)
    ensures
        (u < v) == (byte_of(u, 7) < byte_of(v, 7) || (byte_of(u, 7) == byte_of(v, 7) && (
        byte_of(u, 6) < byte_of(v, 6) || (byte_of(u, 6) == byte_of(v, 6) && (byte_of(u, 5)
            < byte_of(v, 5) || (byte_of(u, 5) == byte_of(v, 5) && (byte_of(u, 4) < byte_of(
            v,
            4,
        ) || (byte_of(u, 4) == byte_of(v, 4) && (byte_of(u, 3) < byte_of(v, 3) || (byte_of(
            u,
            3,
        ) == byte_of(v, 3) && (byte_of(u, 2) < byte_of(v, 2) || (byte_of(u, 2) == byte_of(
            v,
            2,
        ) && (byte_of(u, 1) < byte_of(v, 1) || (byte_of(u, 1) == byte_of(v, 1) && byte_of(
            u,
            0,
        ) < byte_of(v, 0))))))))))))))),
        (u == v) == (byte_of(u, 7) == byte_of(v, 7) && byte_of(u, 6) == byte_of(v, 6)
            && byte_of(u, 5) == byte_of(v, 5) && byte_of(u, 4) == byte_of(v, 4) && byte_of(u, 3)
            == byte_of(v, 3) && byte_of(u, 2) == byte_of(v, 2) && byte_of(u, 1) == byte_of(v, 1)
            && byte_of(u, 0) == byte_of(v, 0)),
{
    assert((u < v) == ((((u >> 56u64) & 0xff) as u8) < (((v >> 56u64) & 0xff) as u8) || (
    (((u >> 56u64) & 0xff) as u8) == (((v >> 56u64) & 0xff) as u8) && ((((u >> 48u64) & 0xff)
        as u8) < (((v >> 48u64) & 0xff) as u8) || ((((u >> 48u64) & 0xff) as u8) == (((v
        >> 48u64) & 0xff) as u8) && ((((u >> 40u64) & 0xff) as u8) < (((v >> 40u64) & 0xff)
        as u8) || ((((u >> 40u64) & 0xff) as u8) == (((v >> 40u64) & 0xff) as u8) && ((((u
        >> 32u64) & 0xff) as u8) < (((v >> 32u64) & 0xff) as u8) || ((((u >> 32u64) & 0xff)
        as u8) == (((v >> 32u64) & 0xff) as u8) && ((((u >> 24u64) & 0xff) as u8) < (((v
        >> 24u64) & 0xff) as u8) || ((((u >> 24u64) & 0xff) as u8) == (((v >> 24u64) & 0xff)
        as u8) && ((((u >> 16u64) & 0xff) as u8) < (((v >> 16u64) & 0xff) as u8) || ((((u
        >> 16u64) & 0xff) as u8) == (((v >> 16u64) & 0xff) as u8) && ((((u >> 8u64) & 0xff)
        as u8) < (((v >> 8u64) & 0xff) as u8) || ((((u >> 8u64) & 0xff) as u8) == (((v
        >> 8u64) & 0xff) as u8) && (((u >> 0u64) & 0xff) as u8) < (((v >> 0u64) & 0xff)
        as u8)))))))))))))))) by (bit_vector);
    assert((u == v) == ((((u >> 56u64) & 0xff) as u8) == (((v >> 56u64) & 0xff) as u8) && (((u
        >> 48u64) & 0xff) as u8) == (((v >> 48u64) & 0xff) as u8) && (((u >> 40u64) & 0xff)
        as u8) == (((v >> 40u64) & 0xff) as u8) && (((u >> 32u64) & 0xff) as u8) == (((v
        >> 32u64) & 0xff) as u8) && (((u >> 24u64) & 0xff) as u8) == (((v >> 24u64) & 0xff)
        as u8) && (((u >> 16u64) & 0xff) as u8) == (((v >> 16u64) & 0xff) as u8) && (((u
        >> 8u64) & 0xff) as u8) == (((v >> 8u64) & 0xff) as u8) && (((u >> 0u64) & 0xff)
        as u8) == (((v >> 0u64) & 0xff) as u8))) by (bit_vector);
}

/// The big-endian bytes of two words compare as the words do.
pub proof fn lemma_be_bytes8_order(u: u64, v: u64)
    ensures
        lex_lt(be_bytes8(u), be_bytes8(v)) == (u < v),
        (be_bytes8(u) == be_bytes8(v)) == (u == v),
{
    lemma_be_bytes8_split(u);
    lemma_be_bytes8_split(v);
    lemma_bytes_order(u, v);
    let bu = |k: u64| seq![byte_of(u, k)];
    let bv = |k: u64| seq![byte_of(v, k)];
    let tu1 = bu(0);
    let tv1 = bv(0);
    let tu2 = bu(1) + tu1;
    let tv2 = bv(1) + tv1;
    let tu3 = bu(2) + tu2;
    let tv3 = bv(2) + tv2;
    let tu4 = bu(3) + tu3;
    let tv4 = bv(3) + tv3;
    let tu5 = bu(4) + tu4;
    let tv5 = bv(4) + tv4;
    let tu6 = bu(5) + tu5;
    let tv6 = bv(5) + tv5;
    let tu7 = bu(6) + tu6;
    let tv7 = bv(6) + tv6;
    let tu8 = bu(7) + tu7;
    let tv8 = bv(7) + tv7;
    assert(be_bytes8(u) == tu8);
    assert(be_bytes8(v) == tv8);
    assert forall|j: u64| j < 8 implies (#[trigger] bu(j) == bv(j)) == (byte_of(u, j) == byte_of(v, j))
        && lex_lt(bu(j), bv(j)) == (byte_of(u, j) < byte_of(v, j)) by {
        lemma_single_byte(byte_of(u, j), byte_of(v, j));
    }
    lemma_lex_concat(bu(1), tu1, bv(1), tv1);
    lemma_lex_concat(bu(2), tu2, bv(2), tv2);
    lemma_lex_concat(bu(3), tu3, bv(3), tv3);
    lemma_lex_concat(bu(4), tu4, bv(4), tv4);
    lemma_lex_concat(bu(5), tu5, bv(5), tv5);
    lemma_lex_concat(bu(6), tu6, bv(6), tv6);
    lemma_lex_concat(bu(7), tu7, bv(7), tv7);
    lemma_concat_eq(bu(1), tu1, bv(1), tv1);
    lemma_concat_eq(bu(2), tu2, bv(2), tv2);
    lemma_concat_eq(bu(3), tu3, bv(3), tv3);
    lemma_concat_eq(bu(4), tu4, bv(4), tv4);
    lemma_concat_eq(bu(5), tu5, bv(5), tv5);
    lemma_concat_eq(bu(6), tu6, bv(6), tv6);
    lemma_concat_eq(bu(7), tu7, bv(7), tv7);
}

/// Two concatenations with heads of equal length are equal exactly when heads and
/// tails are.
pub proof fn lemma_concat_eq(a1: Seq<u8>, a2: Seq<u8>, b1: Seq<u8>, b2: Seq<u8>)
    requires
        a1.len() == b1.len(),
    ensures
        (a1 + a2 == b1 + b2) == (a1 == b1 && a2 == b2),
{
    if a1 + a2 == b1 + b2 {
        assert(a1 =~= (a1 + a2).subrange(0, a1.len() as int));
        assert(b1 =~= (b1 + b2).subrange(0, b1.len() as int));
        assert(a2 =~= (a1 + a2).subrange(a1.len() as int, (a1 + a2).len() as int));
        assert(b2 =~= (b1 + b2).subrange(b1.len() as int, (b1 + b2).len() as int));
    }
}

/// Keys order cells as `code_before` says, and two keys are equal exactly when
/// the cells are.
pub proof fn lemma_code_key_order(a: Option<u64>, b: Option<u64>, negate: bool)
    ensures
        lex_lt(opt_code_key(a, negate), opt_code_key(b, negate)) == code_before(a, b, negate),
        (opt_code_key(a, negate) == opt_code_key(b, negate)) == (a == b),
{
    let one = seq![1u8];
    let zero = seq![0u8];
    let z8 = seq![0u8, 0u8, 0u8, 0u8, 0u8, 0u8, 0u8, 0u8];
    assert(na_key() =~= zero + z8);
    lemma_single_byte(0u8, 1u8);
    lemma_single_byte(1u8, 0u8);
    lemma_single_byte(0u8, 0u8);
    lemma_single_byte(1u8, 1u8);
    match (a, b) {
        (Some(x), Some(y)) => {
            let cx = if negate { !x } else { x };
            let cy = if negate { !y } else { y };
            lemma_be_bytes8_order(cx, cy);
            lemma_lex_concat(one, be_bytes8(cx), one, be_bytes8(cy));
            lemma_concat_eq(one, be_bytes8(cx), one, be_bytes8(cy));
            assert((!x < !y) == (y < x)) by (bit_vector);
            assert((!x == !y) == (x == y)) by (bit_vector);
        },
        (Some(x), None) => {
            let cx = if negate { !x } else { x };
            lemma_lex_concat(one, be_bytes8(cx), zero, z8);
            lemma_concat_eq(one, be_bytes8(cx), zero, z8);
        },
        (None, Some(y)) => {
            let cy = if negate { !y } else { y };
            lemma_lex_concat(zero, z8, one, be_bytes8(cy));
            lemma_concat_eq(zero, z8, one, be_bytes8(cy));
        },
        (None, None) => {
            lemma_lex_trichotomy(na_key(), na_key());
        },
    }
}


/// A cell key: nine bytes whose lexicographic order is the order of cell values.
/// The first byte is 0 for NA and 1 otherwise; the other eight hold the value's
/// order code, most significant byte first.
pub type CellKey = [u8; 9];

/// The cell key of an NA value.
pub const NA_CELL_KEY: CellKey = [0u8, 0u8, 0u8, 0u8, 0u8, 0u8, 0u8, 0u8, 0u8];

/// Build the cell key of a present value from its order code.
pub fn key_from_code(code: u64, negate: bool) -> (k: CellKey)
    ensures
        k@ == code_key(code, negate),
{
    let c: u64 = if negate { !code } else { code };
    let k: CellKey = [
        1u8,
        ((c >> 56u64) & 0xff) as u8,
        ((c >> 48u64) & 0xff) as u8,
        ((c >> 40u64) & 0xff) as u8,
        ((c >> 32u64) & 0xff) as u8,
        ((c >> 24u64) & 0xff) as u8,
        ((c >> 16u64) & 0xff) as u8,
        ((c >> 8u64) & 0xff) as u8,
        ((c >> 0u64) & 0xff) as u8,
    ];
    assert(k@ =~= code_key(code, negate));
    k
}

/// The NA cell key.
pub fn na_cell_key() -> (k: CellKey)
    ensures
        k@ == na_key(),
{
    let k: CellKey = [0u8, 0u8, 0u8, 0u8, 0u8, 0u8, 0u8, 0u8, 0u8];
    assert(k@ =~= na_key());
    k
}

/// Order code of an i32: the sign bit flipped, so that codes order as the integers do.
pub open spec fn i32_code(x: i32) -> u64 {
    ((x as u32) ^ 0x8000_0000u32) as u64
}

/// Order code of the bits of a floating point number: negative numbers have all
/// bits complemented and others have the sign bit set, the total order of IEEE 754.
pub open spec fn bits_code(b: u64) -> u64 {
    if (b >> 63u64) == 1 { !b } else { b | 0x8000_0000_0000_0000u64 }
}

/// Order codes of the five kinds of cell that can be keyed.
pub open spec fn bool_code(b: bool) -> u64 {
    if b { 1 } else { 0 }
}

/// Trait RowKey is implemented for the keys of whole rows: the cell keys of the
/// row's key columns, the first one the major key, concatenated.
pub trait RowKey {
    /// The bytes of the key, compared lexicographically.
    spec fn key_bytes(&self) -> Seq<u8>;
}

impl RowKey for Vec<u8> {
    open spec fn key_bytes(&self) -> Seq<u8> {
        self@
    }
}

/// Trait CellKeyValue is implemented for the cell types that can be packed into a
/// CellKey. String cells cannot.
pub trait CellKeyValue {
    /// The order code of the cell, or None for NA.
    spec fn key_code(&self) -> Option<u64>;

    /// Pack the cell into its key; `negate` reverses the order of present values.
    fn pack(&self, negate: bool) -> (k: CellKey)
        ensures
            k@ == opt_code_key(self.key_code(), negate),
    ;
}

impl CellKeyValue for Option<i32> {
    open spec fn key_code(&self) -> Option<u64> {
        match *self {
            Some(x) => Some(i32_code(x)),
            None => None,
        }
    }

    fn pack(&self, negate: bool) -> (k: CellKey) {
        match self {
            Some(x) => {
                let c: u64 = ((*x as u32) ^ 0x8000_0000u32) as u64;
                key_from_code(c, negate)
            },
            None => na_cell_key(),
        }
    }
}

impl CellKeyValue for Option<NumBits> {
    open spec fn key_code(&self) -> Option<u64> {
        match *self {
            Some(x) => Some(bits_code(x.0)),
            None => None,
        }
    }

    fn pack(&self, negate: bool) -> (k: CellKey) {
        match self {
            Some(x) => {
                let b: u64 = x.0;
                let c: u64 = if (b >> 63u64) == 1 { !b } else { b | 0x8000_0000_0000_0000u64 };
                key_from_code(c, negate)
            },
            None => na_cell_key(),
        }
    }
}

impl CellKeyValue for Option<bool> {
    open spec fn key_code(&self) -> Option<u64> {
        match *self {
            Some(x) => Some(bool_code(x)),
            None => None,
        }
    }

    fn pack(&self, negate: bool) -> (k: CellKey) {
        match self {
            Some(x) => key_from_code(if *x { 1 } else { 0 }, negate),
            None => na_cell_key(),
        }
    }
}

impl CellKeyValue for Option<u16> {
    open spec fn key_code(&self) -> Option<u64> {
        match *self {
            Some(x) => Some(x as u64),
            None => None,
        }
    }

    fn pack(&self, negate: bool) -> (k: CellKey) {
        match self {
            Some(x) => key_from_code(*x as u64, negate),
            None => na_cell_key(),
        }
    }
}

impl CellKeyValue for Option<usize> {
    open spec fn key_code(&self) -> Option<u64> {
        match *self {
            Some(x) => Some(x as u64),
            None => None,
        }
    }

    fn pack(&self, negate: bool) -> (k: CellKey) {
        match self {
            Some(x) => key_from_code(*x as u64, negate),
            None => na_cell_key(),
        }
    }
}

/// Where keys put two integer-valued cells: NA first, then values ascending, or
/// descending when `negate` holds.
pub open spec fn value_before(a: Option<int>, b: Option<int>, negate: bool) -> bool {
    match (a, b) {
        (None, Some(_)) => true,
        (Some(x), Some(y)) => if negate { y < x } else { x < y },
        _ => false,
    }
}

/// The integer value of an optional i32.
pub open spec fn opt_int_i32(a: Option<i32>) -> Option<int> {
    match a {
        Some(x) => Some(x as int),
        None => None,
    }
}

/// Packed i32 cells compare as the integers do (NA first, descending when negated),
/// and two packed cells are equal exactly when the cells are.
pub proof fn lemma_pack_order_i32(a: Option<i32>, b: Option<i32>, negate: bool)
    ensures
        lex_lt(opt_code_key(a.key_code(), negate), opt_code_key(b.key_code(), negate))
            == value_before(opt_int_i32(a), opt_int_i32(b), negate),
        (opt_code_key(a.key_code(), negate) == opt_code_key(b.key_code(), negate)) == (a == b),
{
    lemma_code_key_order(a.key_code(), b.key_code(), negate);
    if let (Some(x), Some(y)) = (a, b) {
        assert((x < y) == (((x as u32) ^ 0x8000_0000u32) < ((y as u32) ^ 0x8000_0000u32)))
            by (bit_vector);
        assert((x == y) == (((x as u32) ^ 0x8000_0000u32) == ((y as u32) ^ 0x8000_0000u32)))
            by (bit_vector);
    }
}

/// The integer value of an optional usize.
pub open spec fn opt_int_usize(a: Option<usize>) -> Option<int> {
    match a {
        Some(x) => Some(x as int),
        None => None,
    }
}

/// Packed usize cells compare as the integers do, and are equal exactly when the
/// cells are.
pub proof fn lemma_pack_order_usize(a: Option<usize>, b: Option<usize>, negate: bool)
    ensures
        lex_lt(opt_code_key(a.key_code(), negate), opt_code_key(b.key_code(), negate))
            == value_before(opt_int_usize(a), opt_int_usize(b), negate),
        (opt_code_key(a.key_code(), negate) == opt_code_key(b.key_code(), negate)) == (a == b),
{
    lemma_code_key_order(a.key_code(), b.key_code(), negate);
}

/// The integer value of an optional u16.
pub open spec fn opt_int_u16(a: Option<u16>) -> Option<int> {
    match a {
        Some(x) => Some(x as int),
        None => None,
    }
}

/// Packed factor levels compare as the integers do, and are equal exactly when the
/// cells are.
pub proof fn lemma_pack_order_u16(a: Option<u16>, b: Option<u16>, negate: bool)
    ensures
        lex_lt(opt_code_key(a.key_code(), negate), opt_code_key(b.key_code(), negate))
            == value_before(opt_int_u16(a), opt_int_u16(b), negate),
        (opt_code_key(a.key_code(), negate) == opt_code_key(b.key_code(), negate)) == (a == b),
{
    lemma_code_key_order(a.key_code(), b.key_code(), negate);
}

/// The integer value of an optional bool, false before true.
pub open spec fn opt_int_bool(a: Option<bool>) -> Option<int> {
    match a {
        Some(x) => Some(if x { 1int } else { 0int }),
        None => None,
    }
}

/// Packed logical cells put NA first, then false before true (reversed when
/// negated), and are equal exactly when the cells are.
pub proof fn lemma_pack_order_bool(a: Option<bool>, b: Option<bool>, negate: bool)
    ensures
        lex_lt(opt_code_key(a.key_code(), negate), opt_code_key(b.key_code(), negate))
            == value_before(opt_int_bool(a), opt_int_bool(b), negate),
        (opt_code_key(a.key_code(), negate) == opt_code_key(b.key_code(), negate)) == (a == b),
{
    lemma_code_key_order(a.key_code(), b.key_code(), negate);
}

/// Order codes of floating point bits order as the total order of IEEE 754.
proof fn lemma_bits_code_order(u: u64, v: u64)
    ensures
        (bits_code(u) < bits_code(v)) == f64_total_lt(u, v),
{
    assert(((if (u >> 63u64) == 1 { !u } else { u | 0x8000_0000_0000_0000u64 }) < (if (v >> 63u64) == 1 {
        !v
    } else {
        v | 0x8000_0000_0000_0000u64
    })) == (if u >= 0x8000_0000_0000_0000u64 && !(v >= 0x8000_0000_0000_0000u64) {
        true
    } else if !(u >= 0x8000_0000_0000_0000u64) && v >= 0x8000_0000_0000_0000u64 {
        false
    } else if !(u >= 0x8000_0000_0000_0000u64) {
        u < v
    } else {
        v < u
    })) by (bit_vector);
}

/// The total order of IEEE 754 on the bits of two double-precision numbers: every
/// number with the sign bit set (negative, -0 and negative NaNs) comes before every
/// number without it; among numbers without it, larger bits (larger magnitude)
/// come later; among numbers with it, larger bits (larger magnitude) come first.
/// So -inf < -2 < -1 < -0 < +0 < 1 < 2 < +inf < NaN.
pub open spec fn f64_total_lt(a: u64, b: u64) -> bool {
    let neg_a = a >= 0x8000_0000_0000_0000u64;
    let neg_b = b >= 0x8000_0000_0000_0000u64;
    if neg_a && !neg_b {
        true
    } else if !neg_a && neg_b {
        false
    } else if !neg_a {
        a < b
    } else {
        b < a
    }
}

/// Where keys put two numeric cells: NA first, then values ascending in the total
/// order of IEEE 754, or descending when `negate` holds.
pub open spec fn bits_before(a: Option<NumBits>, b: Option<NumBits>, negate: bool) -> bool {
    match (a, b) {
        (None, Some(_)) => true,
        (Some(x), Some(y)) => if negate { f64_total_lt(y.0, x.0) } else { f64_total_lt(x.0, y.0) },
        _ => false,
    }
}

/// Packed numeric cells compare as their numbers do in the total order of IEEE
/// 754 (NA first, descending when negated): for finite numbers, one key is below
/// another exactly when its number is smaller (-2.0 before -1.0 before 3.0).
/// Two packed cells are equal exactly when their bits are.
pub proof fn lemma_pack_order_bits(a: Option<NumBits>, b: Option<NumBits>, negate: bool)
    ensures
        lex_lt(opt_code_key(a.key_code(), negate), opt_code_key(b.key_code(), negate))
            == bits_before(a, b, negate),
        lex_lt(opt_code_key(a.key_code(), negate), opt_code_key(b.key_code(), negate))
            == code_before(a.key_code(), b.key_code(), negate),
        (opt_code_key(a.key_code(), negate) == opt_code_key(b.key_code(), negate)) == (a == b),
{
    lemma_code_key_order(a.key_code(), b.key_code(), negate);
    if let (Some(x), Some(y)) = (a, b) {
        let u = x.0;
        let v = y.0;
        lemma_bits_code_order(u, v);
        lemma_bits_code_order(v, u);
        assert(((if (u >> 63u64) == 1 { !u } else { u | 0x8000_0000_0000_0000u64 }) == (if (v
            >> 63u64) == 1 { !v } else { v | 0x8000_0000_0000_0000u64 })) == (u == v))
            by (bit_vector);
    }
}


/// Lexicographic "less than" of two byte strings.
pub fn key_lt(a: &Vec<u8>, b: &Vec<u8>) -> (r: bool)
    ensures
        r == lex_lt(a@, b@),
{
    let mut i: usize = 0;
    assert(a@.skip(0) =~= a@);
    assert(b@.skip(0) =~= b@);
    while i < a.len() && i < b.len()
        invariant
            i <= a.len(),
            i <= b.len(),
            lex_lt(a@, b@) == lex_lt(a@.skip(i as int), b@.skip(i as int)),
        decreases a.len() - i,
    {
        if a[i] < b[i] {
            return true;
        } else if a[i] > b[i] {
            return false;
        }
        assert(a@.skip(i as int).drop_first() =~= a@.skip(i + 1));
        assert(b@.skip(i as int).drop_first() =~= b@.skip(i + 1));
        i = i + 1;
    }
    i == a.len() && i < b.len()
}

/// Equality of two byte strings.
pub fn key_eq(a: &Vec<u8>, b: &Vec<u8>) -> (r: bool)
    ensures
        r == (a@ == b@),
{
    if a.len() != b.len() {
        return false;
    }
    let mut i: usize = 0;
    while i < a.len()
        invariant
            i <= a.len(),
            a.len() == b.len(),
            forall|j: int| 0 <= j < i ==> a@[j] == b@[j],
        decreases a.len() - i,
    {
        if a[i] != b[i] {
            return false;
        }
        i = i + 1;
    }
    assert(a@ =~= b@);
    true
}

/// Append the bytes of a cell key to a row key.
pub fn append_cell_key(row_key: &mut Vec<u8>, k: &CellKey)
    ensures
        final(row_key)@ == old(row_key)@ + k@,
{
    let mut i: usize = 0;
    while i < 9
        invariant
            i <= 9,
            row_key@ == old(row_key)@ + k@.subrange(0, i as int),
        decreases 9 - i,
    {
        row_key.push(k[i]);
        assert(k@.subrange(0, i + 1) =~= k@.subrange(0, i as int).push(k@[i as int]));
        i = i + 1;
    }
    assert(k@.subrange(0, 9) =~= k@);
}

} // verus!
