use vstd::prelude::*;

use crate::errors::DefinitionError;

verus! {

/// A single literal value attached to a field by a value clause. The span
/// holds the raw text of the clause verbatim; parsing ranges or figurative
/// constants is deferred to the decode-time comparator.
#[derive(Debug, PartialEq)]
pub struct FieldValue {
    /// Raw text of the value clause.
    pub value_span: String,
}

impl View for FieldValue {
    type V = Seq<char>;

    open spec fn view(&self) -> Seq<char> {
        self.value_span@
    }
}

impl FieldValue {
    /// Builds a value from the raw text of a value clause.
    pub fn new(value_span: String) -> (r: FieldValue)
        ensures
            r@ == value_span@,
    {
        FieldValue { value_span }
    }

    /// An equal-valued copy.
    pub fn duplicate(&self) -> (r: FieldValue)
        ensures
            r@ == self@,
    {
        FieldValue { value_span: self.value_span.clone() }
    }
}

/// One condition-name entry: a label together with its literal value.
#[derive(Debug, PartialEq)]
pub struct ValueEntry {
    /// The condition-name label.
    pub label: String,
    /// The literal value the condition names.
    pub value: FieldValue,
}

impl View for ValueEntry {
    type V = (Seq<char>, Seq<char>);

    open spec fn view(&self) -> (Seq<char>, Seq<char>) {
        (self.label@, self.value@)
    }
}

impl ValueEntry {
    /// Builds an entry from a label and its literal value.
    pub fn new(label: String, value: FieldValue) -> (r: ValueEntry)
        ensures
            r@ == (label@, value@),
    {
        ValueEntry { label, value }
    }

    /// An equal-valued copy.
    pub fn duplicate(&self) -> (r: ValueEntry)
        ensures
            r@ == self@,
    {
        ValueEntry { label: self.label.clone(), value: self.value.duplicate() }
    }
}

/// The value that `label` names in the ordered entry sequence `s`: the value
/// of the first entry carrying that label, or `None` when no entry does.
pub open spec fn spec_lookup(s: Seq<(Seq<char>, Seq<char>)>, label: Seq<char>) -> Option<Seq<char>>
    decreases s.len(),
{
    if s.len() == 0 {
        None
    } else if s[0].0 == label {
        Some(s[0].1)
    } else {
        spec_lookup(s.drop_first(), label)
    }
}

/// A label is found exactly when some entry carries it.
pub proof fn lemma_lookup_some_iff_exists(s: Seq<(Seq<char>, Seq<char>)>, label: Seq<char>)
    ensures
        spec_lookup(s, label) is Some <==> exists|i: int| 0 <= i < s.len() && s[i].0 == label,
    decreases s.len(),
{
    if s.len() > 0 {
        lemma_lookup_some_iff_exists(s.drop_first(), label);
        if s[0].0 == label {
        } else {
            if exists|i: int| 0 <= i < s.len() && s[i].0 == label {
                let i = choose|i: int| 0 <= i < s.len() && s[i].0 == label;
                assert(s.drop_first()[i - 1] == s[i]);
            }
            if exists|i: int| 0 <= i < s.drop_first().len() && s.drop_first()[i].0 == label {
                let i = choose|i: int|
                    0 <= i < s.drop_first().len() && s.drop_first()[i].0 == label;
                assert(s[i + 1] == s.drop_first()[i]);
            }
        }
    }
}

/// The first entry carrying a label decides what the label names.
pub proof fn lemma_lookup_first(s: Seq<(Seq<char>, Seq<char>)>, label: Seq<char>, i: int)
    requires
        0 <= i < s.len(),
        s[i].0 == label,
        forall|j: int| 0 <= j < i ==> s[j].0 != label,
    ensures
        spec_lookup(s, label) == Some(s[i].1),
    decreases s.len(),
{
    if i == 0 {
    } else {
        assert(s.drop_first()[i - 1] == s[i]);
        assert(forall|j: int| 0 <= j < i - 1 ==> s.drop_first()[j] == s[j + 1]);
        lemma_lookup_first(s.drop_first(), label, i - 1);
    }
}

/// Ordered label-to-value map merged from the level-88 condition-name
/// entries attached to one field. Lookup takes the first entry with the
/// sought label; the merge procedure keeps labels unique.
#[derive(Debug)]
pub struct FieldValueMap {
    /// The merged entries, in declaration order.
    pub entries: Vec<ValueEntry>,
}

impl View for FieldValueMap {
    type V = Seq<(Seq<char>, Seq<char>)>;

    open spec fn view(&self) -> Seq<(Seq<char>, Seq<char>)> {
        Seq::new(self.entries.len() as nat, |i: int| self.entries[i]@)
    }
}

impl FieldValueMap {
    /// An empty map.
    pub fn new() -> (r: FieldValueMap)
        ensures
            r@ =~= Seq::<(Seq<char>, Seq<char>)>::empty(),
    {
        FieldValueMap { entries: Vec::new() }
    }

    /// The value the given condition-name label names, or `None` when the
    /// map has no entry for it.
    pub fn get_value(&self, label: &String) -> (r: Option<&FieldValue>)
        ensures
            match r {
                Some(v) => spec_lookup(self@, label@) == Some(v@),
                None => spec_lookup(self@, label@) is None,
            },
    {
        let n = self.entries.len();
        let mut j: usize = 0;
        while j < n
            invariant
                n == self.entries.len(),
                0 <= j <= n,
                forall|k: int| 0 <= k < j ==> self@[k].0 != label@,
            decreases n - j,
        {
            if self.entries[j].label == *label {
                proof {
                    lemma_lookup_first(self@, label@, j as int);
                }
                return Some(&self.entries[j].value);
            }
            j += 1;
        }
        proof {
            lemma_lookup_some_iff_exists(self@, label@);
        }
        None
    }

    /// Adds one condition-name entry. Fails with `DuplicateConditionName`
    /// and leaves the map unchanged when the label is already present.
    pub fn insert_entry(&mut self, entry: ValueEntry) -> (r: Result<(), DefinitionError>)
        ensures
            match r {
                Ok(()) => spec_lookup(old(self)@, entry.label@) is None && final(self)@ == old(
                    self,
                )@.push(entry@),
                Err(e) => e == DefinitionError::DuplicateConditionName && spec_lookup(
                    old(self)@,
                    entry.label@,
                ) is Some && final(self)@ == old(self)@,
            },
    {
        if self.get_value(&entry.label).is_some() {
            return Err(DefinitionError::DuplicateConditionName);
        }
        self.entries.push(entry);
        proof {
            assert(self@ =~= old(self)@.push(entry@));
        }
        Ok(())
    }

    /// An equal-valued copy.
    pub fn duplicate(&self) -> (r: FieldValueMap)
        ensures
            r@ == self@,
    {
        let n = self.entries.len();
        let mut out: Vec<ValueEntry> = Vec::new();
        let mut j: usize = 0;
        while j < n
            invariant
                n == self.entries.len(),
                0 <= j <= n,
                out.len() == j,
                forall|k: int| 0 <= k < j ==> out[k]@ == self.entries[k]@,
            decreases n - j,
        {
            out.push(self.entries[j].duplicate());
            j += 1;
        }
        let r = FieldValueMap { entries: out };
        proof {
            assert(r@ =~= self@);
        }
        r
    }

    /// Order-independent equality: two maps are equal exactly when every
    /// label names the same value in both, including naming none.
    pub fn equals(&self, other: &FieldValueMap) -> (r: bool)
        ensures
            r == (forall|l: Seq<char>| spec_lookup(self@, l) == spec_lookup(other@, l)),
    {
        let n = self.entries.len();
        let mut j: usize = 0;
        while j < n
            invariant
                n == self.entries.len(),
                0 <= j <= n,
                forall|k: int|
                    0 <= k < j ==> spec_lookup(self@, self@[k].0) == spec_lookup(
                        other@,
                        self@[k].0,
                    ),
            decreases n - j,
        {
            let l = &self.entries[j].label;
            let mine = self.get_value(l);
            let theirs = other.get_value(l);
            match (mine, theirs) {
                (Some(a), Some(b)) => {
                    if !(a.value_span == b.value_span) {
                        return false;
                    }
                },
                (None, None) => {},
                _ => {
                    return false;
                },
            }
            j += 1;
        }
        let m = other.entries.len();
        let mut k: usize = 0;
        while k < m
            invariant
                n == self.entries.len(),
                m == other.entries.len(),
                0 <= k <= m,
                forall|q: int|
                    0 <= q < n ==> spec_lookup(self@, self@[q].0) == spec_lookup(other@, self@[q].0),
                forall|q: int|
                    0 <= q < k ==> spec_lookup(self@, other@[q].0) == spec_lookup(
                        other@,
                        other@[q].0,
                    ),
            decreases m - k,
        {
            let l = &other.entries[k].label;
            let mine = self.get_value(l);
            let theirs = other.get_value(l);
            match (mine, theirs) {
                (Some(a), Some(b)) => {
                    if !(a.value_span == b.value_span) {
                        return false;
                    }
                },
                (None, None) => {},
                _ => {
                    return false;
                },
            }
            k += 1;
        }
        proof {
            assert forall|l: Seq<char>| spec_lookup(self@, l) == spec_lookup(other@, l) by {
                lemma_lookup_some_iff_exists(self@, l);
                lemma_lookup_some_iff_exists(other@, l);
                if exists|i: int| 0 <= i < self@.len() && self@[i].0 == l {
                    let i = choose|i: int| 0 <= i < self@.len() && self@[i].0 == l;
                    assert(spec_lookup(self@, self@[i].0) == spec_lookup(other@, self@[i].0));
                } else if exists|i: int| 0 <= i < other@.len() && other@[i].0 == l {
                    let i = choose|i: int| 0 <= i < other@.len() && other@[i].0 == l;
                    assert(spec_lookup(self@, other@[i].0) == spec_lookup(other@, other@[i].0));
                }
            }
        }
        true
    }
}

/// The sequence of (label, value) views of a vector of entries.
pub open spec fn entries_view(v: Vec<ValueEntry>) -> Seq<(Seq<char>, Seq<char>)> {
    Seq::new(v.len() as nat, |i: int| v[i]@)
}

/// Merges the level-88 condition-name entries declared under one field into
/// a single map, in declaration order.
///
/// Succeeds exactly when the labels are pairwise distinct; otherwise fails
/// with `DuplicateConditionName` and no map is returned.
pub fn merge_condition_names(level_88_entries: Vec<ValueEntry>) -> (r: Result<
    FieldValueMap,
    DefinitionError,
>)
    ensures
        r is Ok <==> (forall|i: int, j: int|
            0 <= i < j < entries_view(level_88_entries).len() ==> entries_view(level_88_entries)[i].0
                != entries_view(level_88_entries)[j].0),
        r is Ok ==> r->Ok_0@ == entries_view(level_88_entries),
        r is Err ==> r->Err_0 == DefinitionError::DuplicateConditionName,
{
    let ghost all = entries_view(level_88_entries);
    let mut map = FieldValueMap::new();
    let n = level_88_entries.len();
    let mut j: usize = 0;
    while j < n
        invariant
            n == level_88_entries.len(),
            all == entries_view(level_88_entries),
            0 <= j <= n,
            map@ =~= all.take(j as int),
            forall|p: int, q: int| 0 <= p < q < j ==> all[p].0 != all[q].0,
        decreases n - j,
    {
        let entry = level_88_entries[j].duplicate();
        match map.insert_entry(entry) {
            Ok(()) => {
                proof {
                    lemma_lookup_some_iff_exists(all.take(j as int), all[j as int].0);
                    assert forall|p: int| 0 <= p < j implies all[p].0 != all[j as int].0 by {
                        assert(all.take(j as int)[p] == all[p]);
                    }
                }
            },
            Err(e) => {
                proof {
                    lemma_lookup_some_iff_exists(all.take(j as int), all[j as int].0);
                    let i = choose|i: int|
                        0 <= i < j && all.take(j as int)[i].0 == all[j as int].0;
                    assert(all[i].0 == all[j as int].0);
                }
                return Err(e);
            },
        }
        proof {
            assert(map@ =~= all.take(j as int + 1));
        }
        j += 1;
    }
    proof {
        assert(map@ =~= all);
    }
    Ok(map)
}

/// Value metadata attached to a field: either the single literal of a value
/// clause, or the map merged from level-88 condition-name entries.
#[derive(Debug)]
pub enum FieldValueEnum {
    /// A single literal value.
    FieldValue(FieldValue),
    /// A map of condition-name labels to literal values.
    FieldValueMap(FieldValueMap),
}

/// Mathematical view of `FieldValueEnum`.
pub ghost enum FieldValueEnumView {
    /// A single literal span.
    Single(Seq<char>),
    /// Ordered condition-name entries.
    Conditions(Seq<(Seq<char>, Seq<char>)>),
}

impl View for FieldValueEnum {
    type V = FieldValueEnumView;

    open spec fn view(&self) -> FieldValueEnumView {
        match self {
            FieldValueEnum::FieldValue(v) => FieldValueEnumView::Single(v@),
            FieldValueEnum::FieldValueMap(m) => FieldValueEnumView::Conditions(m@),
        }
    }
}

impl FieldValueEnum {
    /// An equal-valued copy.
    pub fn duplicate(&self) -> (r: FieldValueEnum)
        ensures
            r@ == self@,
    {
        match self {
            FieldValueEnum::FieldValue(v) => FieldValueEnum::FieldValue(v.duplicate()),
            FieldValueEnum::FieldValueMap(m) => FieldValueEnum::FieldValueMap(m.duplicate()),
        }
    }
}

/// The value metadata of a field after one more level-88 entry is merged
/// into it: a fresh one-entry map when there was no map yet (a single
/// literal is superseded by the merged map), or the map extended by the
/// entry. A label already present is a duplicate condition name.
pub open spec fn spec_merged_value(
    value: Option<FieldValueEnumView>,
    label: Seq<char>,
    span: Seq<char>,
) -> Result<Option<FieldValueEnumView>, DefinitionError> {
    match value {
        Some(FieldValueEnumView::Conditions(m)) => if spec_lookup(m, label) is Some {
            Err(DefinitionError::DuplicateConditionName)
        } else {
            Ok(Some(FieldValueEnumView::Conditions(m.push((label, span)))))
        },
        _ => Ok(Some(FieldValueEnumView::Conditions(seq![(label, span)]))),
    }
}

/// Merges one level-88 condition-name entry into the value metadata of the
/// field it follows.
pub fn merge_condition_entry(
    value: Option<FieldValueEnum>,
    label: String,
    span: String,
) -> (r: Result<Option<FieldValueEnum>, DefinitionError>)
    ensures
        (match r {
            Ok(v) => {
                let view = match v {
                    Some(ref x) => Some(x@),
                    None => None,
                };
                spec_merged_value(
                    match value {
                        Some(ref x) => Some(x@),
                        None => None,
                    },
                    label@,
                    span@,
                ) == Ok::<Option<FieldValueEnumView>, DefinitionError>(view)
            },
            Err(e) => spec_merged_value(
                match value {
                    Some(ref x) => Some(x@),
                    None => None,
                },
                label@,
                span@,
            ) == Err::<Option<FieldValueEnumView>, DefinitionError>(e),
        }),
{
    let entry = ValueEntry::new(label, FieldValue::new(span));
    match value {
        Some(FieldValueEnum::FieldValueMap(mut m)) => {
            match m.insert_entry(entry) {
                Ok(()) => Ok(Some(FieldValueEnum::FieldValueMap(m))),
                Err(e) => Err(e),
            }
        },
        _ => {
            let mut m = FieldValueMap::new();
            match m.insert_entry(entry) {
                Ok(()) => {
                    proof {
                        assert(m@ =~= seq![(entry.label@, entry.value@)]);
                    }
                    Ok(Some(FieldValueEnum::FieldValueMap(m)))
                },
                Err(e) => Err(e),
            }
        },
    }
}

} // verus!
