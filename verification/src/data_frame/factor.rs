//! Factor (categorical) columns: labels, the label-to-level lookup, and turning
//! other columns into factors.
use vstd::prelude::*;
use crate::data_frame::column::{Column, ColKind, CellValue, RFactorColumn, levels_view, levels_unique, strings_view, vec_extend};
use crate::types::NumBits;
use crate::data_frame::text::{cell_label, cell_label_text};


verus! {

/// The position of the first entry named `name` in a level lookup, or -1.
pub open spec fn level_index(levels: Seq<(Seq<char>, u16)>, name: Seq<char>) -> int
    decreases levels.len(),
{
    if levels.len() == 0 {
        -1
    } else if levels.last().0 == name && level_index(levels.drop_last(), name) == -1 {
        levels.len() - 1
    } else {
        level_index(levels.drop_last(), name)
    }
}

/// The level of a label in a lookup, if it has one.
pub open spec fn level_of(levels: Seq<(Seq<char>, u16)>, name: Seq<char>) -> Option<u16> {
    let i = level_index(levels, name);
    if i >= 0 { Some(levels[i].1) } else { None }
}

/// The lookup after inserting `name` with level `lv`: the entry is replaced if the
/// label is present, else appended.
pub open spec fn level_insert(levels: Seq<(Seq<char>, u16)>, name: Seq<char>, lv: u16) -> Seq<(Seq<char>, u16)> {
    let i = level_index(levels, name);
    if i >= 0 { levels.update(i, (name, lv)) } else { levels.push((name, lv)) }
}

/// The lookup built by inserting the first `n` labels, each with its position as level.
pub open spec fn levels_built(labels: Seq<Seq<char>>, n: nat) -> Seq<(Seq<char>, u16)>
    decreases n,
{
    if n == 0 {
        Seq::empty()
    } else {
        level_insert(levels_built(labels, (n - 1) as nat), labels[n - 1], (n - 1) as u16)
    }
}

/// The lookup that gives each label its position as level.
pub open spec fn enumerated_levels(labels: Seq<Seq<char>>) -> Seq<(Seq<char>, u16)> {
    labels.map(|j: int, l: Seq<char>| (l, j as u16))
}

/// The position of the first occurrence of `x` in `s`, or -1.
pub open spec fn first_index(s: Seq<Seq<char>>, x: Seq<char>) -> int
    decreases s.len(),
{
    if s.len() == 0 {
        -1
    } else if first_index(s.drop_last(), x) >= 0 {
        first_index(s.drop_last(), x)
    } else if s.last() == x {
        s.len() - 1
    } else {
        -1
    }
}

/// `init` followed by the texts in order of first appearance that are not already present.
pub open spec fn first_appearance(init: Seq<Seq<char>>, texts: Seq<Seq<char>>) -> Seq<Seq<char>>
    decreases texts.len(),
{
    if texts.len() == 0 {
        init
    } else {
        let prev = first_appearance(init, texts.drop_last());
        if first_index(prev, texts.last()) >= 0 { prev } else { prev.push(texts.last()) }
    }
}

/// No text occurs twice.
pub open spec fn all_distinct(s: Seq<Seq<char>>) -> bool {
    forall|i: int, j: int| 0 <= i < j < s.len() ==> #[trigger] s[i] != #[trigger] s[j]
}

pub proof fn lemma_level_index(levels: Seq<(Seq<char>, u16)>, name: Seq<char>)
    ensures
        -1 <= level_index(levels, name) < levels.len(),
        level_index(levels, name) >= 0 ==> levels[level_index(levels, name)].0 == name,
        level_index(levels, name) >= 0 ==> forall|j: int|
            0 <= j < level_index(levels, name) ==> levels[j].0 != name,
        level_index(levels, name) == -1 ==> forall|j: int| 0 <= j < levels.len() ==> levels[j].0 != name,
    decreases levels.len(),
{
    if levels.len() > 0 {
        lemma_level_index(levels.drop_last(), name);
        assert forall|j: int| 0 <= j < levels.len() - 1 implies levels.drop_last()[j] == levels[j] by {}
    }
}

/// The lookup built from the first `n` labels, when no label repeats, gives each
/// of them its position as level.
proof fn lemma_levels_built_enumerated(labels: Seq<Seq<char>>, n: nat)
    requires
        all_distinct(labels),
        n <= labels.len(),
    ensures
        levels_built(labels, n) == enumerated_levels(labels.take(n as int)),
    decreases n,
{
    if n > 0 {
        lemma_levels_built_enumerated(labels, (n - 1) as nat);
        let prev = enumerated_levels(labels.take(n - 1));
        lemma_level_index(prev, labels[n - 1]);
        assert forall|j: int| 0 <= j < prev.len() implies prev[j].0 != labels[n - 1] by {
            assert(prev[j].0 == labels[j]);
        }
        assert(level_index(prev, labels[n - 1]) == -1);
        assert(prev.push((labels[n - 1], (n - 1) as u16)) =~= enumerated_levels(labels.take(n as int)));
    }
}

/// Labels that do not repeat, set on a factor column, each get their position as
/// level: label `i` is looked up as level `i`.
pub proof fn lemma_distinct_labels_levels(labels: Seq<Seq<char>>)
    requires
        all_distinct(labels),
    ensures
        levels_built(labels, labels.len()) == enumerated_levels(labels),
        forall|i: int| 0 <= i < labels.len() ==> level_of(levels_built(labels, labels.len()), #[trigger] labels[i]) == Some(i as u16),
{
    lemma_levels_built_enumerated(labels, labels.len());
    assert(labels.take(labels.len() as int) =~= labels);
    let lv = enumerated_levels(labels);
    assert forall|i: int| 0 <= i < labels.len() implies level_of(lv, #[trigger] labels[i]) == Some(i as u16) by {
        lemma_level_index(lv, labels[i]);
        let k = level_index(lv, labels[i]);
        assert(lv[i].0 == labels[i]);
        if k < i {
            assert(lv[k].0 == labels[k]);
        }
        assert(k >= 0);
        assert(k == i);
    }
}

proof fn lemma_level_insert_unique(levels: Seq<(Seq<char>, u16)>, name: Seq<char>, lv: u16)
    requires
        levels_unique(levels),
    ensures
        levels_unique(level_insert(levels, name, lv)),
{
    lemma_level_index(levels, name);
}

pub proof fn lemma_first_index(s: Seq<Seq<char>>, x: Seq<char>)
    ensures
        -1 <= first_index(s, x) < s.len(),
        first_index(s, x) >= 0 ==> s[first_index(s, x)] == x,
        first_index(s, x) >= 0 ==> forall|j: int| 0 <= j < first_index(s, x) ==> s[j] != x,
        first_index(s, x) == -1 ==> forall|j: int| 0 <= j < s.len() ==> s[j] != x,
    decreases s.len(),
{
    if s.len() > 0 {
        lemma_first_index(s.drop_last(), x);
        assert forall|j: int| 0 <= j < s.len() - 1 implies s.drop_last()[j] == s[j] by {}
    }
}

pub proof fn lemma_first_index_push(s: Seq<Seq<char>>, y: Seq<char>, x: Seq<char>)
    ensures
        first_index(s, x) >= 0 ==> first_index(s.push(y), x) == first_index(s, x),
        first_index(s, x) < 0 && x == y ==> first_index(s.push(y), x) == s.len(),
        first_index(s, x) < 0 && x != y ==> first_index(s.push(y), x) == -1,
{
    assert(s.push(y).drop_last() =~= s);
}

/// The position of a text in a vector of labels, or None.
pub fn find_label(labels: &Vec<String>, name: &String) -> (r: Option<usize>)
    ensures
        match r {
            Some(i) => i as int == first_index(strings_view(labels@), name@),
            None => first_index(strings_view(labels@), name@) == -1,
        },
{
    let ghost lv = strings_view(labels@);
    proof { lemma_first_index(lv, name@); }
    let mut i: usize = 0;
    while i < labels.len()
        invariant
            i <= labels.len(),
            lv == strings_view(labels@),
            -1 <= first_index(lv, name@) < lv.len(),
            first_index(lv, name@) >= 0 ==> lv[first_index(lv, name@)] == name@,
            first_index(lv, name@) >= 0 ==> forall|j: int| 0 <= j < first_index(lv, name@) ==> lv[j] != name@,
            first_index(lv, name@) == -1 ==> forall|j: int| 0 <= j < lv.len() ==> lv[j] != name@,
            forall|j: int| 0 <= j < i ==> lv[j] != name@,
        decreases labels.len() - i,
    {
        assert(lv[i as int] == labels@[i as int]@);
        if labels[i] == *name {
            return Some(i);
        }
        i = i + 1;
    }
    None
}

/// The level of a label in a level lookup.
pub fn find_level(levels: &Vec<(String, u16)>, name: &String) -> (r: Option<u16>)
    ensures
        r == level_of(levels_view(levels@), name@),
{
    let ghost lv = levels_view(levels@);
    proof { lemma_level_index(lv, name@); }
    let mut i: usize = 0;
    while i < levels.len()
        invariant
            i <= levels.len(),
            lv == levels_view(levels@),
            -1 <= level_index(lv, name@) < lv.len(),
            level_index(lv, name@) >= 0 ==> lv[level_index(lv, name@)].0 == name@,
            level_index(lv, name@) >= 0 ==> forall|j: int| 0 <= j < level_index(lv, name@) ==> lv[j].0 != name@,
            level_index(lv, name@) == -1 ==> forall|j: int| 0 <= j < lv.len() ==> lv[j].0 != name@,
            forall|j: int| 0 <= j < i ==> lv[j].0 != name@,
        decreases levels.len() - i,
    {
        assert(lv[i as int] == (levels@[i as int].0@, levels@[i as int].1));
        if levels[i].0 == *name {
            return Some(levels[i].1);
        }
        i = i + 1;
    }
    None
}

/// Insert a label with a level into a level lookup, replacing an entry with the
/// same label.
pub fn insert_level(levels: &mut Vec<(String, u16)>, name: String, lv: u16)
    ensures
        levels_view(final(levels)@) == level_insert(levels_view(old(levels)@), name@, lv),
{
    let ghost v0 = levels_view(levels@);
    proof { lemma_level_index(v0, name@); }
    let mut i: usize = 0;
    while i < levels.len()
        invariant
            i <= levels.len(),
            levels@ == old(levels)@,
            v0 == levels_view(levels@),
            -1 <= level_index(v0, name@) < v0.len(),
            level_index(v0, name@) >= 0 ==> v0[level_index(v0, name@)].0 == name@,
            level_index(v0, name@) >= 0 ==> forall|j: int| 0 <= j < level_index(v0, name@) ==> v0[j].0 != name@,
            level_index(v0, name@) == -1 ==> forall|j: int| 0 <= j < v0.len() ==> v0[j].0 != name@,
            forall|j: int| 0 <= j < i ==> v0[j].0 != name@,
        decreases levels.len() - i,
    {
        assert(v0[i as int] == (levels@[i as int].0@, levels@[i as int].1));
        if levels[i].0 == name {
            assert(level_index(v0, name@) == i);
            levels.set(i, (name, lv));
            assert(levels_view(levels@) =~= level_insert(v0, name@, lv));
            return;
        }
        i = i + 1;
    }
    levels.push((name, lv));
    assert(levels_view(levels@) =~= level_insert(v0, name@, lv));
}

/// Copies of a vector of strings.
pub fn clone_strings(v: &Vec<String>) -> (r: Vec<String>)
    ensures
        r@ == v@,
{
    let mut r: Vec<String> = Vec::new();
    let mut i: usize = 0;
    while i < v.len()
        invariant
            i <= v.len(),
            r@ == v@.subrange(0, i as int),
        decreases v.len() - i,
    {
        r.push(v[i].clone());
        assert(v@.subrange(0, i + 1) =~= v@.subrange(0, i as int).push(v@[i as int]));
        i = i + 1;
    }
    assert(v@.subrange(0, v.len() as int) =~= v@);
    r
}

/// The labels a factor starts with when made from a column of a kind: false and
/// true for logical columns, none otherwise.
pub open spec fn factor_init(k: ColKind) -> Seq<Seq<char>> {
    if k == ColKind::Bool { seq!["false"@, "true"@] } else { Seq::empty() }
}

/// The labels of the cells of a column, in row order.
pub open spec fn column_labels(c: Column) -> Seq<Seq<char>> {
    c.cells().map_values(|x: CellValue| cell_label(x))
}

/// Each of the first `data.len()` texts has a label, and its level is the label's position.
pub open spec fn levels_match(labels: Seq<Seq<char>>, texts: Seq<Seq<char>>, data: Seq<Option<u16>>) -> bool {
    &&& data.len() <= texts.len()
    &&& forall|j: int|
        0 <= j < data.len() ==> first_index(labels, texts[j]) >= 0 && #[trigger] data[j] == Some(
            first_index(labels, texts[j]) as u16,
        )
}

proof fn lemma_levels_match_known(labels: Seq<Seq<char>>, texts: Seq<Seq<char>>, data: Seq<Option<u16>>)
    requires
        levels_match(labels, texts, data),
        data.len() < texts.len(),
        first_index(labels, texts[data.len() as int]) >= 0,
    ensures
        levels_match(labels, texts, data.push(Some(first_index(labels, texts[data.len() as int]) as u16))),
{
    let d2 = data.push(Some(first_index(labels, texts[data.len() as int]) as u16));
    assert forall|j: int| 0 <= j < d2.len() implies first_index(labels, texts[j]) >= 0 && #[trigger] d2[j] == Some(
        first_index(labels, texts[j]) as u16) by {
        if j < data.len() {
            assert(d2[j] == data[j]);
        }
    }
}

proof fn lemma_levels_match_new(labels: Seq<Seq<char>>, texts: Seq<Seq<char>>, data: Seq<Option<u16>>)
    requires
        levels_match(labels, texts, data),
        data.len() < texts.len(),
        first_index(labels, texts[data.len() as int]) < 0,
    ensures
        levels_match(labels.push(texts[data.len() as int]), texts, data.push(Some(labels.len() as u16))),
{
    let t = texts[data.len() as int];
    let l2 = labels.push(t);
    let d2 = data.push(Some(labels.len() as u16));
    assert forall|j: int| 0 <= j < d2.len() implies first_index(l2, texts[j]) >= 0 && #[trigger] d2[j] == Some(
        first_index(l2, texts[j]) as u16) by {
        lemma_first_index_push(labels, t, texts[j]);
        if j < data.len() {
            assert(d2[j] == data[j]);
        }
    }
}

/// The labels a factor starts with stay first, in order, whatever texts follow.
pub proof fn lemma_first_appearance_prefix(init: Seq<Seq<char>>, texts: Seq<Seq<char>>)
    ensures
        first_appearance(init, texts).len() >= init.len(),
        first_appearance(init, texts).take(init.len() as int) == init,
    decreases texts.len(),
{
    if texts.len() == 0 {
        assert(init.take(init.len() as int) =~= init);
    } else {
        lemma_first_appearance_prefix(init, texts.drop_last());
        let prev = first_appearance(init, texts.drop_last());
        assert(prev.push(texts.last()).take(init.len() as int) =~= prev.take(init.len() as int));
    }
}

/// Factorizing a logical column always gives the labels "false" then "true"
/// first (levels 0 and 1), whatever values the column holds, so that true and
/// false cells get levels 1 and 0.
pub proof fn lemma_logical_factor_labels(texts: Seq<Seq<char>>)
    ensures
        first_appearance(factor_init(ColKind::Bool), texts).len() >= 2,
        first_appearance(factor_init(ColKind::Bool), texts)[0] == "false"@,
        first_appearance(factor_init(ColKind::Bool), texts)[1] == "true"@,
{
    lemma_first_appearance_prefix(factor_init(ColKind::Bool), texts);
    let l = first_appearance(factor_init(ColKind::Bool), texts);
    assert(l.take(2)[0] == l[0]);
    assert(l.take(2)[1] == l[1]);
}

proof fn lemma_first_appearance_step(init: Seq<Seq<char>>, texts: Seq<Seq<char>>, i: int)
    requires
        0 <= i < texts.len(),
    ensures
        first_appearance(init, texts.take(i + 1)) == (if first_index(
            first_appearance(init, texts.take(i)),
            texts[i],
        ) >= 0 {
            first_appearance(init, texts.take(i))
        } else {
            first_appearance(init, texts.take(i)).push(texts[i])
        }),
{
    assert(texts.take(i + 1).drop_last() =~= texts.take(i));
}

impl Column {
    /// Return a new factor column by turning another column into observed
    /// categories. Logical columns start with the labels false and true; other
    /// labels are the cells' texts ("NA" for NA) in order of first appearance, and
    /// each row's level is the position of its label.
    pub fn factorize(&self, col_name: &str, capacity: usize) -> (c: Column)
        requires
            self.kind_of() != ColKind::Num,
            self.kind_of() != ColKind::Factor,
        ensures
            c.kind_of() == ColKind::Factor,
            c.labels_view() == first_appearance(factor_init(self.kind_of()), column_labels(*self)),
            all_distinct(c.labels_view()),
            c.levels_of() == enumerated_levels(c.labels_view()),
            !c.auto_label_of(),
            c.wf(),
            c.cells().len() == self.cells().len(),
            forall|i: int|
                0 <= i < self.cells().len() ==> {
                    let k = first_index(c.labels_view(), cell_label(self.cells()[i]));
                    &&& k >= 0
                    &&& #[trigger] c.cells()[i] == CellValue::Factor(Some(k as u16))
                },
            self.kind_of() == ColKind::Bool ==> {
                &&& c.labels_view().len() >= 2
                &&& c.labels_view()[0] == "false"@
                &&& c.labels_view()[1] == "true"@
                &&& level_of(c.levels_of(), "false"@) == Some(0u16)
                &&& level_of(c.levels_of(), "true"@) == Some(1u16)
                &&& forall|i: int|
                    0 <= i < self.cells().len() ==> (#[trigger] self.cells()[i] matches CellValue::Bool(Some(b)) ==> c.cells()[i]
                        == CellValue::Factor(Some(if b { 1u16 } else { 0u16 })))
            },
    {
        let kind = self.kind();
        let ghost init = factor_init(kind);
        let ghost texts = column_labels(*self);
        let mut levels: Vec<(String, u16)> = Vec::new();
        let mut labels: Vec<String> = Vec::new();
        let mut data: Vec<Option<u16>> = Vec::with_capacity(capacity);
        if kind == ColKind::Bool {
            levels.push(("false".to_owned(), 0u16));
            levels.push(("true".to_owned(), 1u16));
            labels.push("false".to_owned());
            labels.push("true".to_owned());
            proof {
                reveal_strlit("false");
                reveal_strlit("true");
                assert(strings_view(labels@) =~= init);
                assert(levels_view(levels@) =~= enumerated_levels(init));
                assert(init[0].len() != init[1].len());
            }
        } else {
            assert(strings_view(labels@) =~= init);
            assert(levels_view(levels@) =~= enumerated_levels(init));
        }
        assert(texts.take(0) =~= Seq::<Seq<char>>::empty());
        let n = self.len();
        let mut i: usize = 0;
        while i < n
            invariant
                i <= n,
                n == self.cells().len(),
                texts == column_labels(*self),
                self.kind_of() != ColKind::Num,
                strings_view(labels@) == first_appearance(init, texts.take(i as int)),
                all_distinct(strings_view(labels@)),
                levels_view(levels@) == enumerated_levels(strings_view(labels@)),
                labels.len() == levels.len(),
                data.len() == i,
                levels_match(strings_view(labels@), texts, data@),
            decreases n - i,
        {
            let cell = self.cell_at(i);
            let t = cell_label_text(&cell);
            assert(t@ == texts[i as int]);
            let ghost before = strings_view(labels@);
            proof {
                lemma_first_appearance_step(init, texts, i as int);
                lemma_first_index(before, t@);
            }
            match find_label(&labels, &t) {
                Some(k) => {
                    proof { lemma_levels_match_known(before, texts, data@); }
                    data.push(Some(k as u16));
                },
                None => {
                    let lv = labels.len() as u16;
                    let ghost old_levels = levels@;
                    proof { lemma_levels_match_new(before, texts, data@); }
                    levels.push((t.clone(), lv));
                    labels.push(t);
                    data.push(Some(lv));
                    proof {
                        assert(strings_view(labels@) =~= before.push(texts[i as int]));
                        assert forall|j: int| 0 <= j < levels.len() implies #[trigger] levels_view(levels@)[j] == enumerated_levels(strings_view(labels@))[j] by {
                            if j < levels.len() - 1 {
                                assert(levels@[j] == old_levels[j]);
                                assert(levels_view(old_levels)[j] == enumerated_levels(before)[j]);
                            }
                        }
                        assert(levels_view(levels@) =~= enumerated_levels(strings_view(labels@)));
                    }
                },
            }
            i = i + 1;
        }
        assert(texts.take(n as int) =~= texts);
        let c = Column::RFactor(RFactorColumn { levels, labels, auto_label: false, data });
        proof {
            assert forall|p: int, q: int| 0 <= p < q < c.levels_of().len() implies #[trigger] c.levels_of()[p].0 != #[trigger] c.levels_of()[q].0 by {
                assert(c.levels_of()[p].0 == c.labels_view()[p]);
                assert(c.levels_of()[q].0 == c.labels_view()[q]);
            }
            assert forall|j: int| 0 <= j < self.cells().len() implies c.cells()[j] == CellValue::Factor(data@[j]) by {}
            if kind == ColKind::Bool {
                let l = c.labels_view();
                lemma_logical_factor_labels(texts);
                reveal_strlit("false");
                reveal_strlit("true");
                assert(l[0] != "true"@) by {
                    assert(l[0].len() != "true"@.len());
                }
                assert(l[1] != "false"@) by {
                    assert(l[1].len() != "false"@.len());
                }
                lemma_distinct_labels_levels(l);
                assert(level_of(c.levels_of(), l[0]) == Some(0u16));
                assert(level_of(c.levels_of(), l[1]) == Some(1u16));
                lemma_first_index(l, "false"@);
                lemma_first_index(l, "true"@);
                assert(first_index(l, "false"@) == 0);
                assert(first_index(l, "true"@) == 1);
            }
        }
        c
    }

    /// Set the labels and levels of a factor column: each label's level is its
    /// position, and auto-labeling is turned off.
    pub fn set_labels(&mut self, labels: Vec<&str>)
        requires
            old(self).kind_of() == ColKind::Factor,
        ensures
            final(self).kind_of() == ColKind::Factor,
            final(self).cells() == old(self).cells(),
            final(self).labels_view() == labels@.map_values(|s: &str| s@),
            final(self).levels_of() == levels_built(labels@.map_values(|s: &str| s@), labels.len() as nat),
            !final(self).auto_label_of(),
            final(self).wf(),
    {
        let ghost lv = labels@.map_values(|s: &str| s@);
        match self {
            Column::RFactor(f) => {
                f.levels.clear();
                f.labels.clear();
                let mut i: usize = 0;
                while i < labels.len()
                    invariant
                        i <= labels.len(),
                        lv == labels@.map_values(|s: &str| s@),
                        strings_view(f.labels@) == lv.subrange(0, i as int),
                        f.labels.len() == i,
                        levels_view(f.levels@) == levels_built(lv, i as nat),
                        levels_unique(levels_view(f.levels@)),
                        f.data@ == old(self)->RFactor_0.data@,
                    decreases labels.len() - i,
                {
                    let label = labels[i];
                    assert(lv[i as int] == label@);
                    proof { lemma_level_insert_unique(levels_view(f.levels@), label@, i as u16); }
                    insert_level(&mut f.levels, label.to_owned(), i as u16);
                    let ghost before = f.labels@;
                    f.labels.push(label.to_owned());
                    assert forall|j: int| 0 <= j < i + 1 implies #[trigger] strings_view(f.labels@)[j] == lv.subrange(0, i + 1)[j] by {
                        if j < i {
                            assert(f.labels@[j] == before[j]);
                            assert(before.map_values(|s: String| s@)[j] == lv.subrange(0, i as int)[j]);
                        }
                    }
                    assert(strings_view(f.labels@) =~= lv.subrange(0, i + 1));
                    i = i + 1;
                }
                f.auto_label = false;
                assert(lv.subrange(0, labels.len() as int) =~= lv);
            },
            _ => vstd::pervasive::unreached(),
        }
    }

    /// The ordered labels of a factor column.
    pub fn get_labels(&self) -> (r: Vec<String>)
        requires
            self.kind_of() == ColKind::Factor,
        ensures
            strings_view(r@) == self.labels_view(),
    {
        match self {
            Column::RFactor(f) => clone_strings(&f.labels),
            _ => vstd::pervasive::unreached(),
        }
    }

    /// The label-to-level lookup of a factor column.
    pub fn get_levels(&self) -> (r: Vec<(String, u16)>)
        requires
            self.kind_of() == ColKind::Factor,
        ensures
            levels_view(r@) == self.levels_of(),
    {
        match self {
            Column::RFactor(f) => {
                let mut r: Vec<(String, u16)> = Vec::new();
                let mut i: usize = 0;
                while i < f.levels.len()
                    invariant
                        i <= f.levels.len(),
                        levels_view(r@) == levels_view(f.levels@).subrange(0, i as int),
                        r.len() == i,
                    decreases f.levels.len() - i,
                {
                    let ghost before = r@;
                    r.push((f.levels[i].0.clone(), f.levels[i].1));
                    assert forall|j: int| 0 <= j < i + 1 implies #[trigger] levels_view(r@)[j] == levels_view(f.levels@).subrange(0, i + 1)[j] by {
                        if j < i {
                            assert(r@[j] == before[j]);
                            assert(levels_view(before)[j] == levels_view(f.levels@).subrange(0, i as int)[j]);
                        }
                    }
                    assert(levels_view(f.levels@)[i as int] == (f.levels@[i as int].0@, f.levels@[i as int].1));
                    assert(levels_view(r@) =~= levels_view(f.levels@).subrange(0, i + 1));
                    i = i + 1;
                }
                assert(levels_view(f.levels@).subrange(0, f.levels.len() as int) =~= levels_view(f.levels@));
                r
            },
            _ => vstd::pervasive::unreached(),
        }
    }
}


impl Column {
    /// A copy of the column: the same kind, cells and factor metadata.
    pub fn copy(&self) -> (c: Column)
        ensures
            c.same_as(*self),
    {
        match self {
            Column::RInteger(v) => {
                let mut r: Vec<Option<i32>> = Vec::new();
                vec_extend(&mut r, v);
                Column::RInteger(r)
            },
            Column::RNumeric(v) => {
                let mut r: Vec<Option<NumBits>> = Vec::new();
                vec_extend(&mut r, v);
                Column::RNumeric(r)
            },
            Column::RLogical(v) => {
                let mut r: Vec<Option<bool>> = Vec::new();
                vec_extend(&mut r, v);
                Column::RLogical(r)
            },
            Column::RSize(v) => {
                let mut r: Vec<Option<usize>> = Vec::new();
                vec_extend(&mut r, v);
                Column::RSize(r)
            },
            Column::RFactor(f) => {
                let mut r: Vec<Option<u16>> = Vec::new();
                vec_extend(&mut r, &f.data);
                let levels = self.get_levels();
                let labels = self.get_labels();
                Column::RFactor(RFactorColumn { levels, labels, auto_label: f.auto_label, data: r })
            },
            Column::RString(v) => {
                let mut r: Vec<Option<String>> = Vec::new();
                vec_extend(&mut r, v);
                Column::RString(r)
            },
        }
    }
}

} // verus!
