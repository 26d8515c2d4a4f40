//! Reading column data from text, e.g. the fields of a CSV file.
use vstd::prelude::*;
use crate::data_frame::column::{Column, ColKind, CellValue, ColType, RFactorColumn, cells_of, levels_view, levels_unique, strings_view, vec_extend};
use crate::data_frame::factor::{
    level_of, level_index, level_insert, all_distinct, enumerated_levels, lemma_level_index,
    lemma_distinct_labels_levels,
};
use crate::data_frame::text::{i32_of_text, usize_of_text, upper_text, parse_i32, parse_usize, to_upper};

verus! {

/// Why a text could not be read into a column.
#[derive(Debug)]
pub enum ParseError {
    /// The text is not a value of the column's type.
    Value { col_type: String, text: String },
    /// The text is not a label of the factor column, which does not auto-label.
    UnknownLabel(String),
}

/// The logical value a text denotes (case-insensitively T, F, TRUE, FALSE), or NA.
pub open spec fn bool_of_text(s: Seq<char>) -> Option<Option<bool>> {
    let u = upper_text(s);
    if u == "NA"@ {
        Some(None)
    } else if u == "T"@ || u == "TRUE"@ {
        Some(Some(true))
    } else if u == "F"@ || u == "FALSE"@ {
        Some(Some(false))
    } else {
        None
    }
}

/// Whether text `s` denotes cell `c` of kind `k`; "NA" denotes NA in every kind.
pub open spec fn cell_parses(k: ColKind, s: Seq<char>, c: CellValue) -> bool {
    match k {
        ColKind::Int => c == CellValue::Int(if s == "NA"@ { None } else { i32_of_text(s) })
            && (s == "NA"@ || i32_of_text(s) is Some),
        ColKind::Size => c == CellValue::Size(if s == "NA"@ { None } else { usize_of_text(s) })
            && (s == "NA"@ || usize_of_text(s) is Some),
        ColKind::Bool => bool_of_text(s) is Some && c == CellValue::Bool(bool_of_text(s).unwrap()),
        ColKind::Str => match c {
            CellValue::Str(None) => s == "NA"@,
            CellValue::Str(Some(x)) => s != "NA"@ && x@ == s,
            _ => false,
        },
        _ => false,
    }
}

/// Reading a logical cell follows the documented table, case-insensitively: a
/// text whose upper-case form is "T" or "TRUE" is read as true, "F" or "FALSE"
/// as false, "NA" as NA, and no other text is read at all.
pub proof fn lemma_logical_text_table(s: Seq<char>, c: CellValue)
    ensures
        cell_parses(ColKind::Bool, s, c) && (upper_text(s) == "T"@ || upper_text(s) == "TRUE"@) ==> c
            == CellValue::Bool(Some(true)),
        cell_parses(ColKind::Bool, s, c) && (upper_text(s) == "F"@ || upper_text(s) == "FALSE"@) ==> c
            == CellValue::Bool(Some(false)),
        cell_parses(ColKind::Bool, s, c) && upper_text(s) == "NA"@ ==> c == CellValue::Bool(None),
        text_parses(ColKind::Bool, s) == (upper_text(s) == "T"@ || upper_text(s) == "TRUE"@ || upper_text(s)
            == "F"@ || upper_text(s) == "FALSE"@ || upper_text(s) == "NA"@),
{
    reveal_strlit("NA");
    reveal_strlit("T");
    reveal_strlit("TRUE");
    reveal_strlit("F");
    reveal_strlit("FALSE");
    assert("NA"@.len() == 2 && "T"@.len() == 1 && "TRUE"@.len() == 4 && "F"@.len() == 1 && "FALSE"@.len() == 5);
    assert("T"@[0] == 'T' && "F"@[0] == 'F');
    assert("NA"@ != "T"@ && "NA"@ != "TRUE"@ && "NA"@ != "F"@ && "NA"@ != "FALSE"@);
    assert("T"@ != "F"@ && "T"@ != "FALSE"@ && "TRUE"@ != "F"@ && "TRUE"@ != "FALSE"@);
}

/// Whether text `s` denotes some value of kind `k` (or NA).
pub open spec fn text_parses(k: ColKind, s: Seq<char>) -> bool {
    match k {
        ColKind::Int => s == "NA"@ || i32_of_text(s) is Some,
        ColKind::Size => s == "NA"@ || usize_of_text(s) is Some,
        ColKind::Bool => bool_of_text(s) is Some,
        ColKind::Str => true,
        _ => false,
    }
}

/// The texts of a sequence of string slices.
pub open spec fn strs_view(v: Seq<&str>) -> Seq<Seq<char>> {
    v.map_values(|s: &str| s@)
}

/// Parse the texts for a non-factor, non-numeric kind into typed values, or
/// return the first text that does not parse.
fn parse_all<T: ColType>(strs: &Vec<&str>) -> (r: Result<Vec<Option<T>>, String>)
    requires
        T::kind() == ColKind::Int || T::kind() == ColKind::Size || T::kind() == ColKind::Bool
            || T::kind() == ColKind::Str,
    ensures
        match r {
            Ok(v) => v.len() == strs.len() && forall|i: int|
                0 <= i < strs.len() ==> cell_parses(T::kind(), strs@[i]@, #[trigger] T::wrap(v@[i])),
            Err(t) => !text_parses(T::kind(), t@) && exists|i: int|
                0 <= i < strs.len() && strs@[i]@ == t@,
        },
{
    let mut out: Vec<Option<T>> = Vec::with_capacity(strs.len());
    let mut i: usize = 0;
    while i < strs.len()
        invariant
            i <= strs.len(),
            T::kind() == ColKind::Int || T::kind() == ColKind::Size || T::kind() == ColKind::Bool
                || T::kind() == ColKind::Str,
            out.len() == i,
            forall|j: int| 0 <= j < i ==> cell_parses(T::kind(), strs@[j]@, #[trigger] T::wrap(out@[j])),
        decreases strs.len() - i,
    {
        let s: &str = strs[i];
        let na = "NA".to_owned();
        let owned = s.to_owned();
        let is_na = owned == na;
        let kind = T::col_kind();
        let cell: Option<CellValue> = match kind {
            ColKind::Int => if is_na {
                Some(CellValue::Int(None))
            } else {
                match parse_i32(s) {
                    Some(x) => Some(CellValue::Int(Some(x))),
                    None => None,
                }
            },
            ColKind::Size => if is_na {
                Some(CellValue::Size(None))
            } else {
                match parse_usize(s) {
                    Some(x) => Some(CellValue::Size(Some(x))),
                    None => None,
                }
            },
            ColKind::Bool => {
                let u = to_upper(s);
                let ghost uv = upper_text(s@);
                if u == "NA".to_owned() {
                    Some(CellValue::Bool(None))
                } else if u == "T".to_owned() || u == "TRUE".to_owned() {
                    Some(CellValue::Bool(Some(true)))
                } else if u == "F".to_owned() || u == "FALSE".to_owned() {
                    Some(CellValue::Bool(Some(false)))
                } else {
                    None
                }
            },
            _ => if is_na {
                Some(CellValue::Str(None))
            } else {
                Some(CellValue::Str(Some(owned)))
            },
        };
        match cell {
            Some(c) => {
                proof { T::lemma_wrap(None, None); }
                let x = T::unwrap_cell(c);
                out.push(x);
                assert(T::wrap(out@[i as int]) == c);
            },
            None => {
                return Err(s.to_owned());
            },
        }
        i = i + 1;
    }
    Ok(out)
}

/// Reading texts into a factor in order: NA stays NA, a known label gives its
/// level, and an unknown label becomes a new level numbered by the size of the
/// lookup when auto-labeling (else reading fails). Gives the final lookup, labels,
/// and the levels read.
pub open spec fn factor_read(
    levels: Seq<(Seq<char>, u16)>,
    labels: Seq<Seq<char>>,
    auto: bool,
    strs: Seq<Seq<char>>,
) -> Option<(Seq<(Seq<char>, u16)>, Seq<Seq<char>>, Seq<Option<u16>>)>
    decreases strs.len(),
{
    if strs.len() == 0 {
        Some((levels, labels, Seq::empty()))
    } else {
        match factor_read(levels, labels, auto, strs.drop_last()) {
            None => None,
            Some(st) => {
                let s = strs.last();
                if s == "NA"@ {
                    Some((st.0, st.1, st.2.push(None)))
                } else {
                    match level_of(st.0, s) {
                        Some(x) => Some((st.0, st.1, st.2.push(Some(x)))),
                        None => if auto {
                            let n = st.0.len() as u16;
                            Some((st.0.push((s, n)), st.1.push(s), st.2.push(Some(n))))
                        } else {
                            None
                        },
                    }
                }
            },
        }
    }
}

/// The outcome of reading texts into a factor column, as `factor_read` says: on
/// success the new lookup, labels and appended levels; on failure an unknown label
/// among the texts and the column unchanged.
pub open spec fn factor_read_result(old_col: Column, new_col: Column, strs: Seq<Seq<char>>, r: Result<(), ParseError>) -> bool {
    &&& new_col.kind_of() == ColKind::Factor
    &&& new_col.auto_label_of() == old_col.auto_label_of()
    &&& match factor_read(old_col.levels_of(), old_col.labels_view(), old_col.auto_label_of(), strs) {
        Some(st) => {
            &&& r is Ok
            &&& new_col.levels_of() == st.0
            &&& new_col.labels_view() == st.1
            &&& new_col.cells() == old_col.cells() + st.2.map_values(|x: Option<u16>| CellValue::Factor(x))
        },
        None => {
            &&& new_col.levels_of() == old_col.levels_of()
            &&& new_col.labels_view() == old_col.labels_view()
            &&& new_col.cells() == old_col.cells()
            &&& r matches Err(ParseError::UnknownLabel(t))
            &&& exists|i: int| 0 <= i < strs.len() && strs[i] == t@
        },
    }
}

proof fn lemma_factor_read_none(levels: Seq<(Seq<char>, u16)>, labels: Seq<Seq<char>>, auto: bool, strs: Seq<Seq<char>>, i: int)
    requires
        0 <= i <= strs.len(),
        factor_read(levels, labels, auto, strs.take(i)) is None,
    ensures
        factor_read(levels, labels, auto, strs) is None,
    decreases strs.len() - i,
{
    if i < strs.len() {
        assert(strs.take(i + 1).drop_last() =~= strs.take(i));
        lemma_factor_read_none(levels, labels, auto, strs, i + 1);
    } else {
        assert(strs.take(i) =~= strs);
    }
}

/// The levels read from texts: NA for "NA", else the text's level in the lookup,
/// which it has.
pub open spec fn read_levels_ok(levels: Seq<(Seq<char>, u16)>, strs: Seq<Seq<char>>, vals: Seq<Option<u16>>) -> bool {
    &&& vals.len() == strs.len()
    &&& forall|i: int|
        0 <= i < strs.len() ==> #[trigger] vals[i] == (if strs[i] == "NA"@ {
            None
        } else {
            level_of(levels, strs[i])
        }) && (strs[i] != "NA"@ ==> vals[i] is Some)
}

/// In the lookup that gives labels without repeats their positions, a label has
/// its position as level, and a text that is no label has none.
proof fn lemma_enumerated_level(labels: Seq<Seq<char>>, t: Seq<char>)
    requires
        all_distinct(labels),
    ensures
        forall|i: int| 0 <= i < labels.len() && labels[i] == t ==> level_of(enumerated_levels(labels), t) == Some(i as u16),
        level_of(enumerated_levels(labels), t) is Some ==> labels.contains(t),
{
    lemma_distinct_labels_levels(labels);
    let lv = enumerated_levels(labels);
    lemma_level_index(lv, t);
    if level_of(lv, t) is Some {
        let k = level_index(lv, t);
        assert(lv[k].0 == labels[k]);
        assert(labels[k] == t);
    }
}

/// Reading texts into a factor whose lookup gives each label its position keeps
/// that so: the labels stay without repeats, the old labels stay first with new
/// ones after them, the lookup gives each label its position, and each text is
/// read as NA ("NA") or as its label's level.
proof fn lemma_factor_read_enumerated(labels: Seq<Seq<char>>, auto: bool, strs: Seq<Seq<char>>)
    requires
        all_distinct(labels),
    ensures
        factor_read(enumerated_levels(labels), labels, auto, strs) matches Some(st) ==> {
            &&& all_distinct(st.1)
            &&& st.0 == enumerated_levels(st.1)
            &&& labels.len() <= st.1.len()
            &&& st.1.take(labels.len() as int) == labels
            &&& read_levels_ok(st.0, strs, st.2)
        },
    decreases strs.len(),
{
    if strs.len() == 0 {
        assert(labels.take(labels.len() as int) =~= labels);
    } else {
        let sp = strs.drop_last();
        lemma_factor_read_enumerated(labels, auto, sp);
        if let Some(st1) = factor_read(enumerated_levels(labels), labels, auto, sp) {
            let s = strs.last();
            let l1 = st1.1;
            lemma_enumerated_level(l1, s);
            if s == "NA"@ || level_of(st1.0, s) is Some {
                let st = factor_read(enumerated_levels(labels), labels, auto, strs).unwrap();
                assert forall|i: int| 0 <= i < strs.len() implies #[trigger] st.2[i] == (if strs[i] == "NA"@ {
                    None
                } else {
                    level_of(st.0, strs[i])
                }) && (strs[i] != "NA"@ ==> st.2[i] is Some) by {
                    if i < sp.len() {
                        assert(strs[i] == sp[i]);
                        assert(st.2[i] == st1.2[i]);
                    }
                }
            } else if auto {
                let st = factor_read(enumerated_levels(labels), labels, auto, strs).unwrap();
                let l2 = l1.push(s);
                assert(!l1.contains(s)) by {
                    if l1.contains(s) {
                        let j = choose|j: int| 0 <= j < l1.len() && l1[j] == s;
                        assert(level_of(enumerated_levels(l1), s) == Some(j as u16));
                    }
                }
                assert(st.1 == l2);
                assert(st.0 =~= enumerated_levels(l2));
                assert(all_distinct(l2)) by {
                    assert forall|a: int, b: int| 0 <= a < b < l2.len() implies #[trigger] l2[a] != #[trigger] l2[b] by {
                        if b == l1.len() {
                            assert(l1.contains(l1[a]));
                        } else {
                            assert(l1[a] != l1[b]);
                        }
                    }
                }
                assert(l2.take(labels.len() as int) =~= l1.take(labels.len() as int));
                assert forall|i: int| 0 <= i < strs.len() implies #[trigger] st.2[i] == (if strs[i] == "NA"@ {
                    None
                } else {
                    level_of(st.0, strs[i])
                }) && (strs[i] != "NA"@ ==> st.2[i] is Some) by {
                    if i < sp.len() {
                        assert(strs[i] == sp[i]);
                        assert(st.2[i] == st1.2[i]);
                        if sp[i] != "NA"@ {
                            lemma_enumerated_level(l1, sp[i]);
                            let j = choose|j: int| 0 <= j < l1.len() && l1[j] == sp[i];
                            lemma_enumerated_level(l2, sp[i]);
                            assert(l2[j] == sp[i]);
                        }
                    } else {
                        lemma_enumerated_level(l2, s);
                        assert(l2[l1.len() as int] == s);
                    }
                }
            }
        }
    }
}

/// Reading texts into a factor column whose labels do not repeat and whose
/// lookup gives each label its position: when it succeeds, the new labels are
/// the old ones followed by the new ones in order of first appearance, without
/// repeats; the lookup still gives each label its position; and the column's
/// cells are the old cells followed by NA for "NA" and the text's level for
/// every other text.
pub proof fn lemma_factor_read_keeps_positions(old_col: Column, new_col: Column, strs: Seq<Seq<char>>, r: Result<(), ParseError>)
    requires
        factor_read_result(old_col, new_col, strs, r),
        r is Ok,
        all_distinct(old_col.labels_view()),
        old_col.levels_of() == enumerated_levels(old_col.labels_view()),
    ensures
        all_distinct(new_col.labels_view()),
        new_col.levels_of() == enumerated_levels(new_col.labels_view()),
        old_col.labels_view().len() <= new_col.labels_view().len(),
        new_col.labels_view().take(old_col.labels_view().len() as int) == old_col.labels_view(),
        exists|vals: Seq<Option<u16>>|
            #![trigger read_levels_ok(new_col.levels_of(), strs, vals)]
            read_levels_ok(new_col.levels_of(), strs, vals) && new_col.cells() == old_col.cells() + vals.map_values(
                |x: Option<u16>| CellValue::Factor(x),
            ),
{
    lemma_factor_read_enumerated(old_col.labels_view(), old_col.auto_label_of(), strs);
    let st = factor_read(old_col.levels_of(), old_col.labels_view(), old_col.auto_label_of(), strs).unwrap();
    assert(read_levels_ok(new_col.levels_of(), strs, st.2));
}

/// Read a chunk of texts as factor labels and extend the column's levels; unknown
/// labels become new levels only when the column auto-labels.
pub fn deserialize_u16(f: &mut RFactorColumn, strs: Vec<&str>) -> (r: Result<(), ParseError>)
    requires
        levels_unique(levels_view(old(f).levels@)),
    ensures
        factor_read_result(Column::RFactor(*old(f)), Column::RFactor(*final(f)), strs_view(strs@), r),
        levels_unique(levels_view(final(f).levels@)),
{
    let ghost sv = strs_view(strs@);
    let ghost lv0 = levels_view(f.levels@);
    let ghost lb0 = strings_view(f.labels@);
    let auto = f.auto_label;
    let mut d: Vec<Option<u16>> = Vec::new();
    let mut i: usize = 0;
    assert(sv.take(0) =~= Seq::<Seq<char>>::empty());
    while i < strs.len()
        invariant
            i <= strs.len(),
            sv == strs_view(strs@),
            auto == f.auto_label,
            auto == old(f).auto_label,
            f.data@ == old(f).data@,
            lv0 == levels_view(old(f).levels@),
            lb0 == strings_view(old(f).labels@),
            !auto ==> f.levels@ == old(f).levels@ && f.labels@ == old(f).labels@,
            levels_unique(levels_view(f.levels@)),
            factor_read(lv0, lb0, auto, sv.take(i as int)) == Some((levels_view(f.levels@), strings_view(f.labels@), d@)),
        decreases strs.len() - i,
    {
        let s: &str = strs[i];
        let name = s.to_owned();
        assert(sv[i as int] == s@);
        assert(sv.take(i + 1).drop_last() =~= sv.take(i as int));
        assert(sv.take(i + 1).last() == s@);
        if name == "NA".to_owned() {
            d.push(None);
        } else {
            match crate::data_frame::factor::find_level(&f.levels, &name) {
                Some(x) => {
                    d.push(Some(x));
                },
                None => {
                    if auto {
                        let n = f.levels.len() as u16;
                        let ghost before = f.levels@;
                        let ghost before_labels = f.labels@;
                        proof { crate::data_frame::factor::lemma_level_index(levels_view(before), name@); }
                        f.levels.push((name.clone(), n));
                        f.labels.push(name);
                        d.push(Some(n));
                        proof {
                            assert(levels_view(f.levels@) =~= levels_view(before).push((s@, n)));
                            assert(strings_view(f.labels@) =~= strings_view(before_labels).push(s@));
                        }
                    } else {
                        proof { lemma_factor_read_none(lv0, lb0, auto, sv, i + 1); }
                        return Err(ParseError::UnknownLabel(name));
                    }
                },
            }
        }
        i = i + 1;
    }
    assert(sv.take(strs.len() as int) =~= sv);
    let ghost data0 = f.data@;
    vec_extend(&mut f.data, &d);
    assert(Column::RFactor(*f).cells() =~= Column::RFactor(*old(f)).cells() + d@.map_values(|x: Option<u16>| CellValue::Factor(x)));
    Ok(())
}

/// Append typed values to a column of their kind.
pub fn extend_parsed<T: ColType>(col: &mut Column, x: Vec<Option<T>>)
    requires
        old(col).kind_of() == T::kind(),
    ensures
        final(col).kind_of() == old(col).kind_of(),
        final(col).cells() == old(col).cells() + cells_of(x@),
        final(col).labels_view() == old(col).labels_view(),
        final(col).levels_of() == old(col).levels_of(),
        final(col).auto_label_of() == old(col).auto_label_of(),
{
    let other = T::to_col(x);
    col.extend(&other);
}

impl Column {
    /// Deserialize a chunk of texts and extend them onto a column. Numeric
    /// columns are read by the caller, who parses the numbers.
    pub fn deserialize(&mut self, strs: Vec<&str>) -> (r: Result<(), ParseError>)
        requires
            old(self).kind_of() != ColKind::Num,
            old(self).wf(),
        ensures
            final(self).kind_of() == old(self).kind_of(),
            final(self).wf(),
            old(self).kind_of() != ColKind::Factor ==> match r {
                Ok(_) => {
                    &&& final(self).cells().len() == old(self).cells().len() + strs.len()
                    &&& final(self).cells().subrange(0, old(self).cells().len() as int)
                        == old(self).cells()
                    &&& forall|i: int|
                        0 <= i < strs.len() ==> cell_parses(
                            old(self).kind_of(),
                            strs@[i]@,
                            #[trigger] final(self).cells()[old(self).cells().len() + i],
                        )
                },
                Err(e) => {
                    &&& final(self).cells() == old(self).cells()
                    &&& e matches ParseError::Value { col_type: _, text }
                    &&& !text_parses(old(self).kind_of(), text@)
                    &&& exists|i: int| 0 <= i < strs.len() && strs@[i]@ == text@
                },
            },
            old(self).kind_of() == ColKind::Factor ==> factor_read_result(
                *old(self),
                *final(self),
                strs_view(strs@),
                r,
            ),
    {
        match self.kind() {
            ColKind::Int => match parse_all::<i32>(&strs) {
                Ok(x) => {
                    extend_parsed(self, x);
                    Ok(())
                },
                Err(t) => Err(ParseError::Value { col_type: "i32".to_owned(), text: t }),
            },
            ColKind::Bool => match parse_all::<bool>(&strs) {
                Ok(x) => {
                    extend_parsed(self, x);
                    Ok(())
                },
                Err(t) => Err(ParseError::Value { col_type: "bool".to_owned(), text: t }),
            },
            ColKind::Size => match parse_all::<usize>(&strs) {
                Ok(x) => {
                    extend_parsed(self, x);
                    Ok(())
                },
                Err(t) => Err(ParseError::Value { col_type: "usize".to_owned(), text: t }),
            },
            ColKind::Str => match parse_all::<String>(&strs) {
                Ok(x) => {
                    extend_parsed(self, x);
                    Ok(())
                },
                Err(t) => Err(
                    ParseError::Value { col_type: "alloc::string::String".to_owned(), text: t },
                ),
            },
            _ => match self {
                Column::RFactor(f) => deserialize_u16(f, strs),
                _ => vstd::pervasive::unreached(),
            },
        }
    }
}

} // verus!
