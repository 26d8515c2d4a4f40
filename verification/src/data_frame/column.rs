//! The `Column` type: one column of DataFrame data, held as a vector of one of
//! the R-like cell types, and the cell-level operations that dispatch on it.
use vstd::prelude::*;
use crate::types::NumBits;

verus! {

/// The kind of data a column holds.
#[derive(Clone, Copy, PartialEq, Eq, Structural, Debug)]
pub enum ColKind {
    Int,
    Num,
    Bool,
    Size,
    Factor,
    Str,
}

/// One cell of any column kind; `None` is NA.
#[derive(Debug)]
pub enum CellValue {
    Int(Option<i32>),
    Num(Option<NumBits>),
    Bool(Option<bool>),
    Size(Option<usize>),
    Factor(Option<u16>),
    Str(Option<String>),
}

/// The kind of a cell.
pub open spec fn cell_kind(c: CellValue) -> ColKind {
    match c {
        CellValue::Int(_) => ColKind::Int,
        CellValue::Num(_) => ColKind::Num,
        CellValue::Bool(_) => ColKind::Bool,
        CellValue::Size(_) => ColKind::Size,
        CellValue::Factor(_) => ColKind::Factor,
        CellValue::Str(_) => ColKind::Str,
    }
}

/// The NA cell of a kind.
pub open spec fn na_cell(k: ColKind) -> CellValue {
    match k {
        ColKind::Int => CellValue::Int(None),
        ColKind::Num => CellValue::Num(None),
        ColKind::Bool => CellValue::Bool(None),
        ColKind::Size => CellValue::Size(None),
        ColKind::Factor => CellValue::Factor(None),
        ColKind::Str => CellValue::Str(None),
    }
}

/// Whether a cell is NA.
pub open spec fn cell_is_na(c: CellValue) -> bool {
    c == na_cell(cell_kind(c))
}

impl CellValue {
    /// A copy of the cell.
    pub fn copy(&self) -> (r: CellValue)
        ensures
            r == *self,
    {
        match self {
            CellValue::Int(x) => CellValue::Int(*x),
            CellValue::Num(x) => CellValue::Num(*x),
            CellValue::Bool(x) => CellValue::Bool(*x),
            CellValue::Size(x) => CellValue::Size(*x),
            CellValue::Factor(x) => CellValue::Factor(*x),
            CellValue::Str(x) => CellValue::Str(x.clone()),
        }
    }

    /// The NA cell of a kind.
    pub fn na(k: ColKind) -> (r: CellValue)
        ensures
            r == na_cell(k),
    {
        match k {
            ColKind::Int => CellValue::Int(None),
            ColKind::Num => CellValue::Num(None),
            ColKind::Bool => CellValue::Bool(None),
            ColKind::Size => CellValue::Size(None),
            ColKind::Factor => CellValue::Factor(None),
            ColKind::Str => CellValue::Str(None),
        }
    }

    /// Whether the cell is NA.
    pub fn is_na(&self) -> (r: bool)
        ensures
            r == cell_is_na(*self),
    {
        match self {
            CellValue::Int(x) => x.is_none(),
            CellValue::Num(x) => x.is_none(),
            CellValue::Bool(x) => x.is_none(),
            CellValue::Size(x) => x.is_none(),
            CellValue::Factor(x) => x.is_none(),
            CellValue::Str(x) => x.is_none(),
        }
    }
}

/// `RFactorColumn` holds a categorical column: one level per row, the ordered
/// labels of the levels, and a lookup from label to level. With `auto_label`,
/// unknown labels met while reading data become new levels.
pub struct RFactorColumn {
    pub levels: Vec<(String, u16)>,
    pub labels: Vec<String>,
    pub auto_label: bool,
    pub data: Vec<Option<u16>>,
}

/// The `Column` enum: all row values of a column, one variant per data type.
pub enum Column {
    RInteger(Vec<Option<i32>>),
    RNumeric(Vec<Option<NumBits>>),
    RLogical(Vec<Option<bool>>),
    RSize(Vec<Option<usize>>),
    RFactor(RFactorColumn),
    RString(Vec<Option<String>>),
}

/// The cells of a vector of one cell type.
pub open spec fn cells_of<T: ColType>(v: Seq<Option<T>>) -> Seq<CellValue> {
    v.map_values(|x: Option<T>| T::wrap(x))
}

/// Trait ColType is implemented by the six element types a column can hold; it
/// moves data between typed vectors and columns.
pub trait ColType: Sized {
    /// The column kind that holds this type.
    spec fn kind() -> ColKind;

    /// The cell that holds a value of this type.
    spec fn wrap(x: Option<Self>) -> CellValue;

    /// The column kind that holds this type.
    fn col_kind() -> (k: ColKind)
        ensures
            k == Self::kind(),
    ;

    /// A copy of a value.
    fn copy_opt(x: &Option<Self>) -> (r: Option<Self>)
        ensures
            r == *x,
    ;

    /// Whether a value is the type's zero value.
    spec fn is_zero(x: Self) -> bool;

    /// The type's zero value (zero, false, or the empty text).
    fn zero_value() -> (r: Self)
        ensures
            Self::is_zero(r),
    ;

    /// The cell that holds a value.
    fn wrap_cell(x: Option<Self>) -> (c: CellValue)
        ensures
            c == Self::wrap(x),
    ;

    /// The value held by a cell of this kind.
    fn unwrap_cell(c: CellValue) -> (r: Option<Self>)
        requires
            cell_kind(c) == Self::kind(),
        ensures
            Self::wrap(r) == c,
    ;

    /// Wrap a vector of values into a column of the matching kind (a factor column
    /// gets no labels).
    fn to_col(v: Vec<Option<Self>>) -> (c: Column)
        ensures
            c.kind_of() == Self::kind(),
            c.cells() == v@.map_values(|x: Option<Self>| Self::wrap(x)),
            c.wf(),
            c.labels_view() == Seq::<Seq<char>>::empty(),
            c.levels_of() == Seq::<(Seq<char>, u16)>::empty(),
            !c.auto_label_of(),
    ;

    /// The vector held by a column of this kind.
    fn data_ref(c: &Column) -> (r: &Vec<Option<Self>>)
        requires
            c.kind_of() == Self::kind(),
        ensures
            r@.map_values(|x: Option<Self>| Self::wrap(x)) == c.cells(),
    ;

    /// Cells of this type have this kind, and distinct values make distinct cells.
    proof fn lemma_wrap(x: Option<Self>, y: Option<Self>)
        ensures
            cell_kind(Self::wrap(x)) == Self::kind(),
            Self::wrap(x) == Self::wrap(y) ==> x == y,
            Self::wrap(None) == na_cell(Self::kind()),
    ;
}

impl ColType for i32 {
    open spec fn kind() -> ColKind {
        ColKind::Int
    }

    open spec fn wrap(x: Option<Self>) -> CellValue {
        CellValue::Int(x)
    }

    fn col_kind() -> (k: ColKind) {
        ColKind::Int
    }

    fn copy_opt(x: &Option<Self>) -> (r: Option<Self>) {
        *x
    }

    open spec fn is_zero(x: Self) -> bool {
        x == 0
    }

    fn zero_value() -> (r: Self) {
        0
    }

    fn wrap_cell(x: Option<Self>) -> (c: CellValue) {
        CellValue::Int(x)
    }

    fn unwrap_cell(c: CellValue) -> (r: Option<Self>) {
        match c {
            CellValue::Int(x) => x,
            _ => vstd::pervasive::unreached(),
        }
    }

    fn to_col(v: Vec<Option<Self>>) -> (c: Column) {
        let c = Column::RInteger(v);
        assert(c.cells() =~= v@.map_values(|x: Option<Self>| Self::wrap(x)));
        c
    }

    fn data_ref(c: &Column) -> (r: &Vec<Option<Self>>) {
        match c {
            Column::RInteger(v) => {
                assert(c.cells() =~= v@.map_values(|x: Option<Self>| Self::wrap(x)));
                v
            },
            _ => vstd::pervasive::unreached(),
        }
    }

    proof fn lemma_wrap(x: Option<Self>, y: Option<Self>) {
    }
}

impl ColType for NumBits {
    open spec fn kind() -> ColKind {
        ColKind::Num
    }

    open spec fn wrap(x: Option<Self>) -> CellValue {
        CellValue::Num(x)
    }

    fn col_kind() -> (k: ColKind) {
        ColKind::Num
    }

    fn copy_opt(x: &Option<Self>) -> (r: Option<Self>) {
        *x
    }

    open spec fn is_zero(x: Self) -> bool {
        x == NumBits(0)
    }

    fn zero_value() -> (r: Self) {
        NumBits(0)
    }

    fn wrap_cell(x: Option<Self>) -> (c: CellValue) {
        CellValue::Num(x)
    }

    fn unwrap_cell(c: CellValue) -> (r: Option<Self>) {
        match c {
            CellValue::Num(x) => x,
            _ => vstd::pervasive::unreached(),
        }
    }

    fn to_col(v: Vec<Option<Self>>) -> (c: Column) {
        let c = Column::RNumeric(v);
        assert(c.cells() =~= v@.map_values(|x: Option<Self>| Self::wrap(x)));
        c
    }

    fn data_ref(c: &Column) -> (r: &Vec<Option<Self>>) {
        match c {
            Column::RNumeric(v) => {
                assert(c.cells() =~= v@.map_values(|x: Option<Self>| Self::wrap(x)));
                v
            },
            _ => vstd::pervasive::unreached(),
        }
    }

    proof fn lemma_wrap(x: Option<Self>, y: Option<Self>) {
    }
}

impl ColType for bool {
    open spec fn kind() -> ColKind {
        ColKind::Bool
    }

    open spec fn wrap(x: Option<Self>) -> CellValue {
        CellValue::Bool(x)
    }

    fn col_kind() -> (k: ColKind) {
        ColKind::Bool
    }

    fn copy_opt(x: &Option<Self>) -> (r: Option<Self>) {
        *x
    }

    open spec fn is_zero(x: Self) -> bool {
        !x
    }

    fn zero_value() -> (r: Self) {
        false
    }

    fn wrap_cell(x: Option<Self>) -> (c: CellValue) {
        CellValue::Bool(x)
    }

    fn unwrap_cell(c: CellValue) -> (r: Option<Self>) {
        match c {
            CellValue::Bool(x) => x,
            _ => vstd::pervasive::unreached(),
        }
    }

    fn to_col(v: Vec<Option<Self>>) -> (c: Column) {
        let c = Column::RLogical(v);
        assert(c.cells() =~= v@.map_values(|x: Option<Self>| Self::wrap(x)));
        c
    }

    fn data_ref(c: &Column) -> (r: &Vec<Option<Self>>) {
        match c {
            Column::RLogical(v) => {
                assert(c.cells() =~= v@.map_values(|x: Option<Self>| Self::wrap(x)));
                v
            },
            _ => vstd::pervasive::unreached(),
        }
    }

    proof fn lemma_wrap(x: Option<Self>, y: Option<Self>) {
    }
}

impl ColType for usize {
    open spec fn kind() -> ColKind {
        ColKind::Size
    }

    open spec fn wrap(x: Option<Self>) -> CellValue {
        CellValue::Size(x)
    }

    fn col_kind() -> (k: ColKind) {
        ColKind::Size
    }

    fn copy_opt(x: &Option<Self>) -> (r: Option<Self>) {
        *x
    }

    open spec fn is_zero(x: Self) -> bool {
        x == 0
    }

    fn zero_value() -> (r: Self) {
        0
    }

    fn wrap_cell(x: Option<Self>) -> (c: CellValue) {
        CellValue::Size(x)
    }

    fn unwrap_cell(c: CellValue) -> (r: Option<Self>) {
        match c {
            CellValue::Size(x) => x,
            _ => vstd::pervasive::unreached(),
        }
    }

    fn to_col(v: Vec<Option<Self>>) -> (c: Column) {
        let c = Column::RSize(v);
        assert(c.cells() =~= v@.map_values(|x: Option<Self>| Self::wrap(x)));
        c
    }

    fn data_ref(c: &Column) -> (r: &Vec<Option<Self>>) {
        match c {
            Column::RSize(v) => {
                assert(c.cells() =~= v@.map_values(|x: Option<Self>| Self::wrap(x)));
                v
            },
            _ => vstd::pervasive::unreached(),
        }
    }

    proof fn lemma_wrap(x: Option<Self>, y: Option<Self>) {
    }
}

impl ColType for u16 {
    open spec fn kind() -> ColKind {
        ColKind::Factor
    }

    open spec fn wrap(x: Option<Self>) -> CellValue {
        CellValue::Factor(x)
    }

    fn col_kind() -> (k: ColKind) {
        ColKind::Factor
    }

    fn copy_opt(x: &Option<Self>) -> (r: Option<Self>) {
        *x
    }

    open spec fn is_zero(x: Self) -> bool {
        x == 0
    }

    fn zero_value() -> (r: Self) {
        0
    }

    fn wrap_cell(x: Option<Self>) -> (c: CellValue) {
        CellValue::Factor(x)
    }

    fn unwrap_cell(c: CellValue) -> (r: Option<Self>) {
        match c {
            CellValue::Factor(x) => x,
            _ => vstd::pervasive::unreached(),
        }
    }

    fn to_col(v: Vec<Option<Self>>) -> (c: Column) {
        let c = Column::RFactor(
            RFactorColumn { levels: Vec::new(), labels: Vec::new(), auto_label: false, data: v },
        );
        proof {
            let f = c->RFactor_0;
            assert(strings_view(f.labels@) =~= Seq::<Seq<char>>::empty());
            assert(levels_view(f.levels@) =~= Seq::<(Seq<char>, u16)>::empty());
            assert(c.cells() =~= f.data@.map_values(|x: Option<Self>| Self::wrap(x)));
        }
        c
    }

    fn data_ref(c: &Column) -> (r: &Vec<Option<Self>>) {
        match c {
            Column::RFactor(f) => {
                assert(c.cells() =~= f.data@.map_values(|x: Option<Self>| Self::wrap(x)));
                &f.data
            },
            _ => vstd::pervasive::unreached(),
        }
    }

    proof fn lemma_wrap(x: Option<Self>, y: Option<Self>) {
    }
}

impl ColType for String {
    open spec fn kind() -> ColKind {
        ColKind::Str
    }

    open spec fn wrap(x: Option<Self>) -> CellValue {
        CellValue::Str(x)
    }

    fn col_kind() -> (k: ColKind) {
        ColKind::Str
    }

    fn copy_opt(x: &Option<Self>) -> (r: Option<Self>) {
        x.clone()
    }

    open spec fn is_zero(x: Self) -> bool {
        x@.len() == 0
    }

    fn zero_value() -> (r: Self) {
        String::new()
    }

    fn wrap_cell(x: Option<Self>) -> (c: CellValue) {
        CellValue::Str(x)
    }

    fn unwrap_cell(c: CellValue) -> (r: Option<Self>) {
        match c {
            CellValue::Str(x) => x,
            _ => vstd::pervasive::unreached(),
        }
    }

    fn to_col(v: Vec<Option<Self>>) -> (c: Column) {
        let c = Column::RString(v);
        assert(c.cells() =~= v@.map_values(|x: Option<Self>| Self::wrap(x)));
        c
    }

    fn data_ref(c: &Column) -> (r: &Vec<Option<Self>>) {
        match c {
            Column::RString(v) => {
                assert(c.cells() =~= v@.map_values(|x: Option<Self>| Self::wrap(x)));
                v
            },
            _ => vstd::pervasive::unreached(),
        }
    }

    proof fn lemma_wrap(x: Option<Self>, y: Option<Self>) {
    }
}

/// The text of a column type as recorded in a DataFrame's column types.
pub open spec fn kind_type_name(k: ColKind) -> Seq<char> {
    match k {
        ColKind::Int => "i32"@,
        ColKind::Num => "f64"@,
        ColKind::Bool => "bool"@,
        ColKind::Size => "usize"@,
        ColKind::Factor => "u16"@,
        ColKind::Str => "alloc::string::String"@,
    }
}

/// The texts of a sequence of strings.
pub open spec fn strings_view(v: Seq<String>) -> Seq<Seq<char>> {
    v.map_values(|s: String| s@)
}

/// The name-to-level lookup of a factor, as label text and level pairs.
pub open spec fn levels_view(levels: Seq<(String, u16)>) -> Seq<(Seq<char>, u16)> {
    levels.map_values(|p: (String, u16)| (p.0@, p.1))
}

/// No label occurs twice in a level lookup.
pub open spec fn levels_unique(levels: Seq<(Seq<char>, u16)>) -> bool {
    forall|i: int, j: int|
        0 <= i < j < levels.len() ==> #[trigger] levels[i].0 != #[trigger] levels[j].0
}

impl Column {
    /// The kind of data the column holds.
    pub open spec fn kind_of(self) -> ColKind {
        match self {
            Column::RInteger(_) => ColKind::Int,
            Column::RNumeric(_) => ColKind::Num,
            Column::RLogical(_) => ColKind::Bool,
            Column::RSize(_) => ColKind::Size,
            Column::RFactor(_) => ColKind::Factor,
            Column::RString(_) => ColKind::Str,
        }
    }

    /// The cells of the column, in row order.
    pub open spec fn cells(self) -> Seq<CellValue> {
        match self {
            Column::RInteger(v) => v@.map_values(|x: Option<i32>| CellValue::Int(x)),
            Column::RNumeric(v) => v@.map_values(|x: Option<NumBits>| CellValue::Num(x)),
            Column::RLogical(v) => v@.map_values(|x: Option<bool>| CellValue::Bool(x)),
            Column::RSize(v) => v@.map_values(|x: Option<usize>| CellValue::Size(x)),
            Column::RFactor(f) => f.data@.map_values(|x: Option<u16>| CellValue::Factor(x)),
            Column::RString(v) => v@.map_values(|x: Option<String>| CellValue::Str(x)),
        }
    }

    /// The factor labels of the column (empty for other kinds).
    pub open spec fn labels_view(self) -> Seq<Seq<char>> {
        match self {
            Column::RFactor(f) => strings_view(f.labels@),
            _ => Seq::empty(),
        }
    }

    /// The factor level lookup of the column (empty for other kinds).
    pub open spec fn levels_of(self) -> Seq<(Seq<char>, u16)> {
        match self {
            Column::RFactor(f) => levels_view(f.levels@),
            _ => Seq::empty(),
        }
    }

    /// Whether the column auto-labels new factor levels.
    pub open spec fn auto_label_of(self) -> bool {
        match self {
            Column::RFactor(f) => f.auto_label,
            _ => false,
        }
    }

    /// A column is well formed when its factor lookup has no label twice.
    pub open spec fn wf(self) -> bool {
        levels_unique(self.levels_of())
    }

    /// The kind of data the column holds.
    pub fn kind(&self) -> (k: ColKind)
        ensures
            k == self.kind_of(),
    {
        match self {
            Column::RInteger(_) => ColKind::Int,
            Column::RNumeric(_) => ColKind::Num,
            Column::RLogical(_) => ColKind::Bool,
            Column::RSize(_) => ColKind::Size,
            Column::RFactor(_) => ColKind::Factor,
            Column::RString(_) => ColKind::Str,
        }
    }

    /// The number of rows in the column.
    pub fn len(&self) -> (n: usize)
        ensures
            n == self.cells().len(),
    {
        match self {
            Column::RInteger(v) => v.len(),
            Column::RNumeric(v) => v.len(),
            Column::RLogical(v) => v.len(),
            Column::RSize(v) => v.len(),
            Column::RFactor(f) => f.data.len(),
            Column::RString(v) => v.len(),
        }
    }

    /// The text of the column's type.
    pub fn type_text(&self) -> (s: &'static str)
        ensures
            s@ == kind_type_name(self.kind_of()),
    {
        match self {
            Column::RInteger(_) => "i32",
            Column::RNumeric(_) => "f64",
            Column::RLogical(_) => "bool",
            Column::RSize(_) => "usize",
            Column::RFactor(_) => "u16",
            Column::RString(_) => "alloc::string::String",
        }
    }

    /// Two columns hold the same kind, cells and factor metadata.
    pub open spec fn same_as(self, other: Column) -> bool {
        &&& self.kind_of() == other.kind_of()
        &&& self.cells() == other.cells()
        &&& self.labels_view() == other.labels_view()
        &&& self.levels_of() == other.levels_of()
        &&& self.auto_label_of() == other.auto_label_of()
    }

    /// Reserve capacity for at least `additional` more rows.
    pub fn reserve(&mut self, additional: usize)
        ensures
            final(self).same_as(*old(self)),
    {
        match self {
            Column::RInteger(v) => v.reserve(additional),
            Column::RNumeric(v) => v.reserve(additional),
            Column::RLogical(v) => v.reserve(additional),
            Column::RSize(v) => v.reserve(additional),
            Column::RFactor(f) => f.data.reserve(additional),
            Column::RString(v) => v.reserve(additional),
        }
    }
}


/// Append copies of all values of `other` to `v`.
pub fn vec_extend<T: ColType>(v: &mut Vec<Option<T>>, other: &Vec<Option<T>>)
    ensures
        final(v)@ == old(v)@ + other@,
{
    let mut i: usize = 0;
    while i < other.len()
        invariant
            i <= other.len(),
            v@ == old(v)@ + other@.subrange(0, i as int),
        decreases other.len() - i,
    {
        v.push(T::copy_opt(&other[i]));
        assert(other@.subrange(0, i + 1) =~= other@.subrange(0, i as int).push(other@[i as int]));
        i = i + 1;
    }
    assert(other@.subrange(0, other.len() as int) =~= other@);
}

/// The values of `v` at the given positions, in the order given.
pub fn vec_select<T: ColType>(v: &Vec<Option<T>>, rows: &Vec<usize>) -> (r: Vec<Option<T>>)
    requires
        forall|i: int| 0 <= i < rows.len() ==> rows[i] < v.len(),
    ensures
        r.len() == rows.len(),
        forall|i: int| 0 <= i < rows.len() ==> r@[i] == v@[rows[i] as int],
{
    let mut r: Vec<Option<T>> = Vec::with_capacity(rows.len());
    let mut i: usize = 0;
    while i < rows.len()
        invariant
            i <= rows.len(),
            forall|j: int| 0 <= j < rows.len() ==> rows[j] < v.len(),
            r.len() == i,
            forall|j: int| 0 <= j < i ==> r@[j] == v@[rows[j] as int],
        decreases rows.len() - i,
    {
        r.push(T::copy_opt(&v[rows[i]]));
        i = i + 1;
    }
    r
}

/// Resize `v` to `new_len`, filling new rows with `fill`.
pub fn vec_resize<T: ColType>(v: &mut Vec<Option<T>>, new_len: usize, fill: Option<T>)
    ensures
        new_len <= old(v).len() ==> final(v)@ == old(v)@.subrange(0, new_len as int),
        new_len > old(v).len() ==> final(v)@ == old(v)@ + Seq::new(
            (new_len - old(v).len()) as nat,
            |i: int| fill,
        ),
{
    if new_len <= v.len() {
        v.truncate(new_len);
    } else {
        let ghost v0 = v@;
        while v.len() < new_len
            invariant
                v0.len() < new_len,
                v0.len() <= v.len() <= new_len,
                v@ == v0 + Seq::new((v.len() - v0.len()) as nat, |i: int| fill),
            decreases new_len - v.len(),
        {
            v.push(T::copy_opt(&fill));
        }
    }
}

/// The resize of a cell sequence to `new_len`, filling new rows with `fill`.
pub open spec fn resized(cells: Seq<CellValue>, new_len: nat, fill: CellValue) -> Seq<CellValue> {
    if new_len <= cells.len() {
        cells.subrange(0, new_len as int)
    } else {
        cells + Seq::new((new_len - cells.len()) as nat, |i: int| fill)
    }
}

proof fn lemma_resized_cells<T: ColType>(v: Seq<Option<T>>, new_len: nat, fill: Option<T>, r: Seq<Option<T>>)
    requires
        new_len <= v.len() ==> r == v.subrange(0, new_len as int),
        new_len > v.len() ==> r == v + Seq::new((new_len - v.len()) as nat, |i: int| fill),
    ensures
        cells_of(r) == resized(cells_of(v), new_len, T::wrap(fill)),
{
    assert(cells_of(r) =~= resized(cells_of(v), new_len, T::wrap(fill)));
}

impl Column {
    /// An empty column of the given kind.
    pub fn empty(kind: ColKind) -> (c: Column)
        ensures
            c.kind_of() == kind,
            c.cells() == Seq::<CellValue>::empty(),
            c.labels_view() == Seq::<Seq<char>>::empty(),
            c.levels_of() == Seq::<(Seq<char>, u16)>::empty(),
            !c.auto_label_of(),
            c.wf(),
    {
        let c = match kind {
            ColKind::Int => Column::RInteger(Vec::new()),
            ColKind::Num => Column::RNumeric(Vec::new()),
            ColKind::Bool => Column::RLogical(Vec::new()),
            ColKind::Size => Column::RSize(Vec::new()),
            ColKind::Factor => Column::RFactor(
                RFactorColumn {
                    levels: Vec::new(),
                    labels: Vec::new(),
                    auto_label: false,
                    data: Vec::new(),
                },
            ),
            ColKind::Str => Column::RString(Vec::new()),
        };
        assert(c.cells() =~= Seq::<CellValue>::empty());
        assert(c.labels_view() =~= Seq::<Seq<char>>::empty());
        assert(c.levels_of() =~= Seq::<(Seq<char>, u16)>::empty());
        c
    }

    /// Add bulk row data to a column, e.g., during rbind operations.
    pub fn extend(&mut self, other: &Column)
        requires
            old(self).kind_of() == other.kind_of(),
        ensures
            final(self).kind_of() == old(self).kind_of(),
            final(self).cells() == old(self).cells() + other.cells(),
            final(self).labels_view() == old(self).labels_view(),
            final(self).levels_of() == old(self).levels_of(),
            final(self).auto_label_of() == old(self).auto_label_of(),
    {
        match (self, other) {
            (Column::RInteger(a), Column::RInteger(b)) => vec_extend(a, b),
            (Column::RNumeric(a), Column::RNumeric(b)) => vec_extend(a, b),
            (Column::RLogical(a), Column::RLogical(b)) => vec_extend(a, b),
            (Column::RSize(a), Column::RSize(b)) => vec_extend(a, b),
            (Column::RFactor(a), Column::RFactor(b)) => vec_extend(&mut a.data, &b.data),
            (Column::RString(a), Column::RString(b)) => vec_extend(a, b),
            _ => vstd::pervasive::unreached(),
        }
    }

    /// Extend a column to `new_len` rows by recycling its single value, or NA if it
    /// is empty (`n_row_in` is its current number of rows, at most one).
    pub fn recycle(&mut self, n_row_in: usize, new_len: usize)
        requires
            n_row_in <= 1,
            n_row_in == 1 ==> old(self).cells().len() >= 1,
        ensures
            final(self).kind_of() == old(self).kind_of(),
            final(self).cells() == resized(
                old(self).cells(),
                new_len as nat,
                if n_row_in == 0 { na_cell(old(self).kind_of()) } else { old(self).cells()[0] },
            ),
            final(self).labels_view() == old(self).labels_view(),
            final(self).levels_of() == old(self).levels_of(),
            final(self).auto_label_of() == old(self).auto_label_of(),
    {
        let is_na = n_row_in == 0;
        match self {
            Column::RInteger(v) => {
                let ghost v0 = v@;
                let fill = if is_na { None } else { v[0] };
                vec_resize(v, new_len, fill);
                proof { lemma_resized_cells(v0, new_len as nat, fill, v@); }
            },
            Column::RNumeric(v) => {
                let ghost v0 = v@;
                let fill = if is_na { None } else { v[0] };
                vec_resize(v, new_len, fill);
                proof { lemma_resized_cells(v0, new_len as nat, fill, v@); }
            },
            Column::RLogical(v) => {
                let ghost v0 = v@;
                let fill = if is_na { None } else { v[0] };
                vec_resize(v, new_len, fill);
                proof { lemma_resized_cells(v0, new_len as nat, fill, v@); }
            },
            Column::RSize(v) => {
                let ghost v0 = v@;
                let fill = if is_na { None } else { v[0] };
                vec_resize(v, new_len, fill);
                proof { lemma_resized_cells(v0, new_len as nat, fill, v@); }
            },
            Column::RFactor(f) => {
                let ghost v0 = f.data@;
                let fill = if is_na { None } else { f.data[0] };
                vec_resize(&mut f.data, new_len, fill);
                proof { lemma_resized_cells(v0, new_len as nat, fill, f.data@); }
            },
            Column::RString(v) => {
                let ghost v0 = v@;
                let fill = if is_na { None } else { v[0].clone() };
                vec_resize(v, new_len, fill);
                proof { lemma_resized_cells(v0, new_len as nat, fill, v@); }
            },
        }
    }

    /// A new column of the same kind holding the cells at the given rows, in the
    /// order given (a factor column gets no labels).
    pub fn select_rows(&self, rows: &Vec<usize>) -> (c: Column)
        requires
            forall|i: int| 0 <= i < rows.len() ==> rows[i] < self.cells().len(),
        ensures
            c.kind_of() == self.kind_of(),
            c.cells().len() == rows.len(),
            forall|i: int| 0 <= i < rows.len() ==> c.cells()[i] == self.cells()[rows[i] as int],
            c.labels_view() == Seq::<Seq<char>>::empty(),
            c.wf(),
    {
        match self {
            Column::RInteger(v) => i32::to_col(vec_select(v, rows)),
            Column::RNumeric(v) => NumBits::to_col(vec_select(v, rows)),
            Column::RLogical(v) => bool::to_col(vec_select(v, rows)),
            Column::RSize(v) => usize::to_col(vec_select(v, rows)),
            Column::RFactor(f) => u16::to_col(vec_select(&f.data, rows)),
            Column::RString(v) => String::to_col(vec_select(v, rows)),
        }
    }

    /// The cell at a row.
    pub fn cell_at(&self, row_i: usize) -> (c: CellValue)
        requires
            row_i < self.cells().len(),
        ensures
            c == self.cells()[row_i as int],
    {
        match self {
            Column::RInteger(v) => CellValue::Int(v[row_i]),
            Column::RNumeric(v) => CellValue::Num(v[row_i]),
            Column::RLogical(v) => CellValue::Bool(v[row_i]),
            Column::RSize(v) => CellValue::Size(v[row_i]),
            Column::RFactor(f) => CellValue::Factor(f.data[row_i]),
            Column::RString(v) => CellValue::Str(v[row_i].clone()),
        }
    }

    /// Append one cell of the column's kind.
    pub fn push_cell(&mut self, c: CellValue)
        requires
            cell_kind(c) == old(self).kind_of(),
        ensures
            final(self).kind_of() == old(self).kind_of(),
            final(self).cells() == old(self).cells().push(c),
            final(self).labels_view() == old(self).labels_view(),
            final(self).levels_of() == old(self).levels_of(),
            final(self).auto_label_of() == old(self).auto_label_of(),
    {
        match (self, c) {
            (Column::RInteger(v), CellValue::Int(x)) => v.push(x),
            (Column::RNumeric(v), CellValue::Num(x)) => v.push(x),
            (Column::RLogical(v), CellValue::Bool(x)) => v.push(x),
            (Column::RSize(v), CellValue::Size(x)) => v.push(x),
            (Column::RFactor(f), CellValue::Factor(x)) => f.data.push(x),
            (Column::RString(v), CellValue::Str(x)) => v.push(x),
            _ => vstd::pervasive::unreached(),
        }
    }

    /// Replace the cell at a row with a cell of the column's kind.
    pub fn set_cell(&mut self, row_i: usize, c: CellValue)
        requires
            cell_kind(c) == old(self).kind_of(),
            row_i < old(self).cells().len(),
        ensures
            final(self).kind_of() == old(self).kind_of(),
            final(self).cells() == old(self).cells().update(row_i as int, c),
            final(self).labels_view() == old(self).labels_view(),
            final(self).levels_of() == old(self).levels_of(),
            final(self).auto_label_of() == old(self).auto_label_of(),
    {
        match (self, c) {
            (Column::RInteger(v), CellValue::Int(x)) => v.set(row_i, x),
            (Column::RNumeric(v), CellValue::Num(x)) => v.set(row_i, x),
            (Column::RLogical(v), CellValue::Bool(x)) => v.set(row_i, x),
            (Column::RSize(v), CellValue::Size(x)) => v.set(row_i, x),
            (Column::RFactor(f), CellValue::Factor(x)) => f.data.set(row_i, x),
            (Column::RString(v), CellValue::Str(x)) => v.set(row_i, x),
            _ => vstd::pervasive::unreached(),
        }
    }
}

} // verus!
