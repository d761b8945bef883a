use vstd::prelude::*;

use crate::data_type::DataType;
use crate::data_type::byte_length;
use crate::data_type::shape_error;
use crate::data_type::spec_byte_length;
use crate::errors::LayoutError;
use crate::field_definition::FieldDefView;
use crate::field_definition::FieldDefinition;
use crate::field_definition::children_shape_ok;
use crate::field_definition::lemma_defs_view_prefix;
use crate::field_definition::opt_value_view;
use crate::field_definition::tree_shape_ok;
use crate::field_value::FieldValueEnum;
use crate::field_value::FieldValueEnumView;

verus! {

broadcast use vstd::std_specs::vec::axiom_vec_index_decreases, vstd::seq::axiom_seq_index_decreases;

/// Largest resolved record length accepted, in bytes. A layout that would
/// grow past this fails with `RecordTooLarge`; this defends against
/// malformed repeat counts.
pub const MAX_RECORD_BYTES: u64 = 16777216;

/// One resolved field: a node of the tree with its absolute byte span. For
/// a repeating field, `byte_length` is the length of a single repetition
/// and the storage covers `occurs_count` contiguous repetitions.
#[derive(Debug)]
pub struct ResolvedField {
    /// Fully qualified path: the labels from the root down, joined by `.`.
    pub path: String,
    /// The field's own label.
    pub label: String,
    /// The field's storage format.
    pub data_type: DataType,
    /// Whether the field has children (a group).
    pub is_group: bool,
    /// First byte of the field's span, 0-based.
    pub byte_offset: u64,
    /// Bytes of one repetition of the field.
    pub byte_length: u64,
    /// Number of contiguous repetitions; 1 for a non-repeating field.
    pub occurs_count: u32,
    /// Value metadata carried over from the definition.
    pub value_option: Option<FieldValueEnum>,
}

/// Mathematical view of a resolved field.
#[verifier::ext_equal]
pub ghost struct ResolvedFieldView {
    pub path: Seq<char>,
    pub label: Seq<char>,
    pub data_type: DataType,
    pub is_group: bool,
    pub byte_offset: int,
    pub byte_length: int,
    pub occurs_count: int,
    pub value: Option<FieldValueEnumView>,
}

impl View for ResolvedField {
    type V = ResolvedFieldView;

    open spec fn view(&self) -> ResolvedFieldView {
        ResolvedFieldView {
            path: self.path@,
            label: self.label@,
            data_type: self.data_type,
            is_group: self.is_group,
            byte_offset: self.byte_offset as int,
            byte_length: self.byte_length as int,
            occurs_count: self.occurs_count as int,
            value: opt_value_view(self.value_option),
        }
    }
}

/// The views of resolved fields, in order.
pub open spec fn rf_views(v: Vec<ResolvedField>) -> Seq<ResolvedFieldView> {
    Seq::new(v.len() as nat, |i: int| v[i]@)
}

/// A resolved layout: every field of the tree with its byte span, in
/// pre-order, and the total record length in bytes. Built once per tree and
/// immutable thereafter; decoding shares it read-only.
#[derive(Debug)]
pub struct ResolvedLayout {
    /// The resolved fields, in pre-order.
    pub fields: Vec<ResolvedField>,
    /// The total record length in bytes.
    pub total_length: u64,
}

/// Mathematical view of a resolved layout.
#[verifier::ext_equal]
pub ghost struct ResolvedLayoutView {
    pub fields: Seq<ResolvedFieldView>,
    pub total_length: int,
}

impl View for ResolvedLayout {
    type V = ResolvedLayoutView;

    open spec fn view(&self) -> ResolvedLayoutView {
        ResolvedLayoutView { fields: rf_views(self.fields), total_length: self.total_length as int }
    }
}

/// Offset bookkeeping for one already-resolved sibling.
#[verifier::ext_equal]
pub ghost struct SibView {
    pub label: Seq<char>,
    pub start: int,
    pub end: int,
}

/// One already-resolved sibling: its label and byte span, used to resolve
/// redefinitions.
#[derive(Debug)]
pub struct SibEntry {
    /// The sibling's label.
    pub label: String,
    /// First byte of the sibling's span.
    pub start: u64,
    /// One past the last byte of the sibling's storage.
    pub end: u64,
}

impl View for SibEntry {
    type V = SibView;

    open spec fn view(&self) -> SibView {
        SibView { label: self.label@, start: self.start as int, end: self.end as int }
    }
}

pub open spec fn sib_views(v: Vec<SibEntry>) -> Seq<SibView> {
    Seq::new(v.len() as nat, |i: int| v[i]@)
}

/// The first already-resolved sibling with the sought label, if any.
pub open spec fn sib_lookup(s: Seq<SibView>, label: Seq<char>) -> Option<SibView>
    decreases s.len(),
{
    if s.len() == 0 {
        None
    } else if s[0].label == label {
        Some(s[0])
    } else {
        sib_lookup(s.drop_first(), label)
    }
}

proof fn lemma_sib_lookup_first(s: Seq<SibView>, label: Seq<char>, i: int)
    requires
        0 <= i < s.len(),
        s[i].label == label,
        forall|j: int| 0 <= j < i ==> s[j].label != label,
    ensures
        sib_lookup(s, label) == Some(s[i]),
    decreases s.len(),
{
    if i > 0 {
        assert(forall|j: int| 0 <= j < i - 1 ==> s.drop_first()[j] == s[j + 1]);
        assert(s.drop_first()[i - 1] == s[i]);
        lemma_sib_lookup_first(s.drop_first(), label, i - 1);
    }
}

proof fn lemma_sib_lookup_member(s: Seq<SibView>, label: Seq<char>)
    requires
        sib_lookup(s, label) is Some,
    ensures
        exists|i: int| 0 <= i < s.len() && s[i] == sib_lookup(s, label)->0,
    decreases s.len(),
{
    if s.len() > 0 && s[0].label != label {
        lemma_sib_lookup_member(s.drop_first(), label);
        let i = choose|i: int|
            0 <= i < s.drop_first().len() && s.drop_first()[i] == sib_lookup(s, label)->0;
        assert(s[i + 1] == s.drop_first()[i]);
    }
}

proof fn lemma_sib_lookup_none(s: Seq<SibView>, label: Seq<char>)
    requires
        forall|j: int| 0 <= j < s.len() ==> s[j].label != label,
    ensures
        sib_lookup(s, label) is None,
    decreases s.len(),
{
    if s.len() > 0 {
        assert(forall|j: int| 0 <= j < s.drop_first().len() ==> s.drop_first()[j] == s[j + 1]);
        lemma_sib_lookup_none(s.drop_first(), label);
    }
}

/// The number of contiguous repetitions a field declares; an absent or zero
/// repeat count counts as one repetition.
pub open spec fn occurs_int(d: FieldDefView) -> int {
    match d.occurs {
        Some(n) => if n >= 1 {
            n as int
        } else {
            1int
        },
        None => 1int,
    }
}

/// A child's fully qualified path under its parent's path.
pub open spec fn joined_path(parent: Seq<char>, label: Seq<char>) -> Seq<char> {
    parent + "."@ + label
}

/// The resolved entry of one node.
pub open spec fn rf_of(d: FieldDefView, path: Seq<char>, start: int, len: int) -> ResolvedFieldView {
    ResolvedFieldView {
        path,
        label: d.label,
        data_type: d.data_type,
        is_group: d.children.len() > 0,
        byte_offset: start,
        byte_length: len,
        occurs_count: occurs_int(d),
        value: d.value,
    }
}

/// What resolving one node yields: its entries in pre-order, the cursor
/// after it, and its own span.
#[verifier::ext_equal]
pub ghost struct LayoutStep {
    pub fields: Seq<ResolvedFieldView>,
    pub cursor: int,
    pub start: int,
    pub end: int,
}

/// What resolving a run of siblings yields: their entries, the cursor after
/// them, and the sibling spans seen so far.
#[verifier::ext_equal]
pub ghost struct ChildrenStep {
    pub fields: Seq<ResolvedFieldView>,
    pub cursor: int,
    pub sibs: Seq<SibView>,
}

/// Seals one node's resolution once its span is known. A redefining field
/// reuses its target's offset and must fit inside the target's span; the
/// cursor does not advance past it. Any other field advances the cursor to
/// its span's end, which must stay within `MAX_RECORD_BYTES`.
pub open spec fn finish_node(
    d: FieldDefView,
    path: Seq<char>,
    cursor: int,
    sibs: Seq<SibView>,
    start: int,
    end: int,
    len: int,
    child_fields: Seq<ResolvedFieldView>,
) -> Result<LayoutStep, LayoutError> {
    if d.redefines is Some {
        let t = sib_lookup(sibs, d.redefines->0)->0;
        if end > t.end {
            Err(LayoutError::RecordTooLarge)
        } else {
            Ok(
                LayoutStep {
                    fields: seq![rf_of(d, path, start, len)] + child_fields,
                    cursor,
                    start,
                    end,
                },
            )
        }
    } else {
        if end > MAX_RECORD_BYTES {
            Err(LayoutError::RecordTooLarge)
        } else {
            Ok(
                LayoutStep {
                    fields: seq![rf_of(d, path, start, len)] + child_fields,
                    cursor: end,
                    start,
                    end,
                },
            )
        }
    }
}

/// Resolves one node in a depth-first, pre-order walk. An elementary field
/// takes its byte length from its data type; a group field records its
/// offset, resolves its children from there, and spans what they consumed.
/// A field that redefines an unknown or later sibling fails with
/// `UnknownRedefinesTarget`.
pub open spec fn spec_layout_node(
    d: FieldDefView,
    path: Seq<char>,
    cursor: int,
    sibs: Seq<SibView>,
) -> Result<LayoutStep, LayoutError>
    decreases d, 1int, 0int,
{
    if d.redefines is Some && sib_lookup(sibs, d.redefines->0) is None {
        Err(LayoutError::UnknownRedefinesTarget)
    } else {
        let start = if d.redefines is Some {
            sib_lookup(sibs, d.redefines->0)->0.start
        } else {
            cursor
        };
        if d.children.len() == 0 {
            let len = spec_byte_length(d.data_type, d.char_count);
            finish_node(
                d,
                path,
                cursor,
                sibs,
                start,
                start + len * occurs_int(d),
                len,
                Seq::<ResolvedFieldView>::empty(),
            )
        } else {
            match spec_layout_children(
                d.children,
                d.children.len() as int,
                path,
                start,
                Seq::<SibView>::empty(),
            ) {
                Ok(cstep) => {
                    let len = cstep.cursor - start;
                    finish_node(
                        d,
                        path,
                        cursor,
                        sibs,
                        start,
                        start + len * occurs_int(d),
                        len,
                        cstep.fields,
                    )
                },
                Err(e) => Err(e),
            }
        }
    }
}

/// Resolves the first `n` children of a group left to right, threading the
/// cursor and the sibling spans.
pub open spec fn spec_layout_children(
    cs: Seq<FieldDefView>,
    n: int,
    parent_path: Seq<char>,
    cursor: int,
    sibs: Seq<SibView>,
) -> Result<ChildrenStep, LayoutError>
    decreases cs, 0int, n,
{
    if n <= 0 || n > cs.len() {
        Ok(ChildrenStep { fields: Seq::<ResolvedFieldView>::empty(), cursor, sibs })
    } else {
        match spec_layout_children(cs, n - 1, parent_path, cursor, sibs) {
            Ok(st) => {
                let c = cs[n - 1];
                match spec_layout_node(c, joined_path(parent_path, c.label), st.cursor, st.sibs) {
                    Ok(ns) => Ok(
                        ChildrenStep {
                            fields: st.fields + ns.fields,
                            cursor: ns.cursor,
                            sibs: st.sibs.push(
                                SibView { label: c.label, start: ns.start, end: ns.end },
                            ),
                        },
                    ),
                    Err(e) => Err(e),
                }
            },
            Err(e) => Err(e),
        }
    }
}

/// The layout of a whole tree: the root resolves at offset zero with no
/// earlier siblings, and the cursor after it is the record's total length.
pub open spec fn spec_resolve_layout(root: FieldDefView) -> Result<
    ResolvedLayoutView,
    LayoutError,
> {
    match spec_layout_node(root, root.label, 0, Seq::<SibView>::empty()) {
        Ok(ls) => Ok(ResolvedLayoutView { fields: ls.fields, total_length: ls.cursor }),
        Err(e) => Err(e),
    }
}

/// Every field's storage lies inside the first `bound` bytes.
pub open spec fn fields_within(fs: Seq<ResolvedFieldView>, bound: int) -> bool {
    forall|i: int|
        0 <= i < fs.len() ==> (0 <= #[trigger] fs[i].byte_offset && 0 <= fs[i].byte_length && 1
            <= fs[i].occurs_count && fs[i].byte_offset + fs[i].byte_length * fs[i].occurs_count
            <= bound)
}

/// Every recorded sibling span is well formed and lies below the cursor.
pub open spec fn sibs_within(sibs: Seq<SibView>, cursor: int) -> bool {
    forall|i: int|
        0 <= i < sibs.len() ==> (0 <= #[trigger] sibs[i].start && sibs[i].start <= sibs[i].end
            && sibs[i].end <= cursor)
}

/// Whether a resolved field carries no storage of its own and is skipped by
/// the decoder.
pub open spec fn skip_field(f: ResolvedFieldView) -> bool {
    f.is_group || f.data_type == DataType::GroupMarker
}

/// Per-format cap on the byte length of one decodable elementary field;
/// it keeps every decoded numeric value within a fixed-width integer.
pub open spec fn field_decodable(f: ResolvedFieldView) -> bool {
    skip_field(f) || match f.data_type {
        DataType::NumericDisplay => f.byte_length <= 18,
        DataType::ZonedDecimal => f.byte_length <= 18,
        DataType::PackedDecimal => f.byte_length <= 10,
        DataType::BinaryInteger => f.byte_length <= 8,
        _ => true,
    }
}

/// Every field of the layout is decodable.
pub open spec fn fields_decodable(fs: Seq<ResolvedFieldView>) -> bool {
    forall|i: int| 0 <= i < fs.len() ==> field_decodable(#[trigger] fs[i])
}

/// A well-formed layout: a bounded total length that covers the storage of
/// every resolved field.
pub open spec fn layout_wf(lv: ResolvedLayoutView) -> bool {
    0 <= lv.total_length <= MAX_RECORD_BYTES && fields_within(lv.fields, lv.total_length)
}

/// A successful node resolution stays within bounds: the cursor never moves
/// backwards or past the maximum, the node's span is well formed, and every
/// emitted field's storage lies below the resulting cursor.
pub proof fn lemma_layout_node_wf(
    d: FieldDefView,
    path: Seq<char>,
    cursor: int,
    sibs: Seq<SibView>,
)
    requires
        0 <= cursor <= MAX_RECORD_BYTES,
        sibs_within(sibs, cursor),
        spec_layout_node(d, path, cursor, sibs) is Ok,
    ensures
        ({
            let ls = spec_layout_node(d, path, cursor, sibs)->Ok_0;
            cursor <= ls.cursor <= MAX_RECORD_BYTES && 0 <= ls.start && ls.start <= ls.end
                && ls.end <= ls.cursor && fields_within(ls.fields, ls.cursor)
        }),
    decreases d, 1int, 0int,
{
    let ls = spec_layout_node(d, path, cursor, sibs)->Ok_0;
    let start = if d.redefines is Some {
        sib_lookup(sibs, d.redefines->0)->0.start
    } else {
        cursor
    };
    let occ = occurs_int(d);
    if d.redefines is Some {
        lemma_sib_lookup_member(sibs, d.redefines->0);
    }
    assert(0 <= start <= cursor);
    if d.children.len() == 0 {
        let len = spec_byte_length(d.data_type, d.char_count);
        assert(len >= 0);
        assert(len * occ >= 0) by (nonlinear_arith)
            requires
                len >= 0,
                occ >= 1,
        ;
        assert(fields_within(ls.fields, ls.cursor));
    } else {
        lemma_layout_children_wf(
            d.children,
            d.children.len() as int,
            path,
            start,
            Seq::<SibView>::empty(),
        );
        let cstep = spec_layout_children(
            d.children,
            d.children.len() as int,
            path,
            start,
            Seq::<SibView>::empty(),
        )->Ok_0;
        let len = cstep.cursor - start;
        assert(len >= 0);
        assert(len * occ >= len) by (nonlinear_arith)
            requires
                len >= 0,
                occ >= 1,
        ;
        assert(start + len <= ls.end);
        assert(fields_within(cstep.fields, cstep.cursor));
        assert forall|i: int| 0 <= i < ls.fields.len() implies (0 <= #[trigger] ls.fields[i].byte_offset
            && 0 <= ls.fields[i].byte_length && 1 <= ls.fields[i].occurs_count
            && ls.fields[i].byte_offset + ls.fields[i].byte_length * ls.fields[i].occurs_count
            <= ls.cursor) by {
            if i == 0 {
                assert(ls.fields[0] == rf_of(d, path, start, len));
            } else {
                assert(ls.fields[i] == cstep.fields[i - 1]);
            }
        }
    }
}

/// A successful sibling run stays within bounds and keeps the recorded
/// sibling spans below the threaded cursor.
pub proof fn lemma_layout_children_wf(
    cs: Seq<FieldDefView>,
    n: int,
    parent_path: Seq<char>,
    cursor: int,
    sibs: Seq<SibView>,
)
    requires
        0 <= cursor <= MAX_RECORD_BYTES,
        sibs_within(sibs, cursor),
        spec_layout_children(cs, n, parent_path, cursor, sibs) is Ok,
    ensures
        ({
            let st = spec_layout_children(cs, n, parent_path, cursor, sibs)->Ok_0;
            cursor <= st.cursor <= MAX_RECORD_BYTES && fields_within(st.fields, st.cursor)
                && sibs_within(st.sibs, st.cursor)
        }),
    decreases cs, 0int, n,
{
    if n <= 0 || n > cs.len() {
    } else {
        lemma_layout_children_wf(cs, n - 1, parent_path, cursor, sibs);
        let st = spec_layout_children(cs, n - 1, parent_path, cursor, sibs)->Ok_0;
        let c = cs[n - 1];
        lemma_layout_node_wf(c, joined_path(parent_path, c.label), st.cursor, st.sibs);
        let ns = spec_layout_node(c, joined_path(parent_path, c.label), st.cursor, st.sibs)->Ok_0;
        let out = spec_layout_children(cs, n, parent_path, cursor, sibs)->Ok_0;
        assert forall|i: int| 0 <= i < out.fields.len() implies (0 <= #[trigger] out.fields[i].byte_offset
            && 0 <= out.fields[i].byte_length && 1 <= out.fields[i].occurs_count
            && out.fields[i].byte_offset + out.fields[i].byte_length * out.fields[i].occurs_count
            <= out.cursor) by {
            if i < st.fields.len() {
                assert(out.fields[i] == st.fields[i]);
            } else {
                assert(out.fields[i] == ns.fields[i - st.fields.len()]);
            }
        }
        assert forall|i: int| 0 <= i < out.sibs.len() implies (0 <= #[trigger] out.sibs[i].start
            && out.sibs[i].start <= out.sibs[i].end && out.sibs[i].end <= out.cursor) by {
            if i < st.sibs.len() {
                assert(out.sibs[i] == st.sibs[i]);
            } else {
                assert(out.sibs[i] == (SibView { label: c.label, start: ns.start, end: ns.end }));
            }
        }
    }
}


/// An error among the first siblings is the error of the whole run.
proof fn lemma_children_error_persists(
    cs: Seq<FieldDefView>,
    m: int,
    n: int,
    parent_path: Seq<char>,
    cursor: int,
    sibs: Seq<SibView>,
)
    requires
        0 <= m <= n <= cs.len(),
        spec_layout_children(cs, m, parent_path, cursor, sibs) is Err,
    ensures
        spec_layout_children(cs, n, parent_path, cursor, sibs) == spec_layout_children(
            cs,
            m,
            parent_path,
            cursor,
            sibs,
        ),
    decreases n,
{
    if n > m {
        lemma_children_error_persists(cs, m, n - 1, parent_path, cursor, sibs);
    }
}

/// The first already-resolved sibling carrying the sought label.
fn sib_find<'a>(sibs: &'a Vec<SibEntry>, label: &String) -> (r: Option<&'a SibEntry>)
    ensures
        match r {
            Some(e) => sib_lookup(sib_views(*sibs), label@) == Some(e@),
            None => sib_lookup(sib_views(*sibs), label@) is None,
        },
{
    let n = sibs.len();
    let mut j: usize = 0;
    while j < n
        invariant
            n == sibs.len(),
            0 <= j <= n,
            forall|k: int| 0 <= k < j ==> sib_views(*sibs)[k].label != label@,
        decreases n - j,
    {
        if sibs[j].label == *label {
            proof {
                lemma_sib_lookup_first(sib_views(*sibs), label@, j as int);
            }
            return Some(&sibs[j]);
        }
        j += 1;
    }
    proof {
        lemma_sib_lookup_none(sib_views(*sibs), label@);
    }
    None
}

/// Resolves one node and returns its entries in pre-order together with the
/// cursor after it and its own span, mirroring `spec_layout_node`.
#[verifier::loop_isolation(false)]
fn resolve_node(
    d: &FieldDefinition,
    path: String,
    cursor: u64,
    sibs: &Vec<SibEntry>,
) -> (r: Result<(Vec<ResolvedField>, u64, u64, u64), LayoutError>)
    requires
        cursor <= MAX_RECORD_BYTES,
        sibs_within(sib_views(*sibs), cursor as int),
    ensures
        match r {
            Ok(ok) => spec_layout_node(d@, path@, cursor as int, sib_views(*sibs)) == Ok::<
                LayoutStep,
                LayoutError,
            >(
                LayoutStep {
                    fields: rf_views(ok.0),
                    cursor: ok.1 as int,
                    start: ok.2 as int,
                    end: ok.3 as int,
                },
            ),
            Err(er) => spec_layout_node(d@, path@, cursor as int, sib_views(*sibs)) == Err::<
                LayoutStep,
                LayoutError,
            >(er),
        },
    decreases *d,
{
    let ghost dv = d@;
    let ghost sv = sib_views(*sibs);
    proof {
        lemma_defs_view_prefix(d.children, d.children.len() as int);
    }
    let start: u64;
    let mut target_end: u64 = 0;
    let redefining: bool;
    match &d.redefines_option {
        Some(label) => {
            match sib_find(sibs, label) {
                Some(entry) => {
                    start = entry.start;
                    target_end = entry.end;
                    redefining = true;
                    proof {
                        lemma_sib_lookup_member(sv, dv.redefines->0);
                    }
                },
                None => {
                    return Err(LayoutError::UnknownRedefinesTarget);
                },
            }
        },
        None => {
            start = cursor;
            redefining = false;
        },
    }
    let occ: u32 = match d.occurs_option {
        Some(c) => if c >= 1 {
            c
        } else {
            1
        },
        None => 1,
    };
    proof {
        assert(occ as int == occurs_int(dv));
        assert(start as int == if dv.redefines is Some {
            sib_lookup(sv, dv.redefines->0)->0.start
        } else {
            cursor as int
        });
    }
    if d.children.len() == 0 {
        let len = byte_length(d.data_type, d.char_count_option);
        proof {
            assert(len <= 0xFFFF_FFFFu64);
            assert((len as int) * (occ as int) < 0x1_0000_0000_0000_0000) by (nonlinear_arith)
                requires
                    0 <= len as int <= 0xFFFF_FFFF,
                    0 <= occ as int <= 0xFFFF_FFFF,
            ;
        }
        let end_wide: u128 = start as u128 + (len as u128) * (occ as u128);
        let ghost end_spec: int = start as int + spec_byte_length(dv.data_type, dv.char_count)
            * occurs_int(dv);
        proof {
            assert(end_wide == end_spec);
        }
        if redefining {
            if end_wide > target_end as u128 {
                return Err(LayoutError::RecordTooLarge);
            }
        } else {
            if end_wide > MAX_RECORD_BYTES as u128 {
                return Err(LayoutError::RecordTooLarge);
            }
        }
        let end: u64 = end_wide as u64;
        let entry = ResolvedField {
            path,
            label: d.label.clone(),
            data_type: d.data_type,
            is_group: false,
            byte_offset: start,
            byte_length: len,
            occurs_count: occ,
            value_option: match &d.value_option {
                Some(v) => Some(v.duplicate()),
                None => None,
            },
        };
        let mut fs: Vec<ResolvedField> = Vec::new();
        let ghost entry_view = entry@;
        fs.push(entry);
        let c2: u64 = if redefining {
            cursor
        } else {
            end
        };
        proof {
            assert(entry_view =~= rf_of(dv, path@, start as int, len as int));
            assert(rf_views(fs) =~= seq![rf_of(dv, path@, start as int, len as int)]
                + Seq::<ResolvedFieldView>::empty());
            assert(spec_layout_node(dv, path@, cursor as int, sv) == Ok::<LayoutStep, LayoutError>(
                LayoutStep {
                    fields: rf_views(fs),
                    cursor: c2 as int,
                    start: start as int,
                    end: end as int,
                },
            ));
        }
        Ok((fs, c2, start, end))
    } else {
        let mut kids: Vec<ResolvedField> = Vec::new();
        let mut sibs2: Vec<SibEntry> = Vec::new();
        let mut cur: u64 = start;
        let n = d.children.len();
        proof {
            assert(sib_views(sibs2) =~= Seq::<SibView>::empty());
            assert(rf_views(kids) =~= Seq::<ResolvedFieldView>::empty());
        }
        let mut j: usize = 0;
        while j < n
            invariant
                n == d.children.len(),
                dv == d@,
                dv.children.len() == n,
                0 <= j <= n,
                start <= cur <= MAX_RECORD_BYTES,
                sibs_within(sib_views(sibs2), cur as int),
                spec_layout_children(dv.children, j as int, path@, start as int, Seq::empty())
                    == Ok::<ChildrenStep, LayoutError>(
                    ChildrenStep {
                        fields: rf_views(kids),
                        cursor: cur as int,
                        sibs: sib_views(sibs2),
                    },
                ),
            decreases n - j,
        {
            proof {
                lemma_defs_view_prefix(d.children, n as int);
            }
            let child = &d.children[j];
            let mut cp = path.clone();
            cp.append(".");
            cp.append(child.label.as_str());
            proof {
                assert(cp@ == joined_path(path@, dv.children[j as int].label));
            }
            let ghost pre_kids = rf_views(kids);
            let ghost pre_sibs = sib_views(sibs2);
            let ghost pre_cur = cur as int;
            match resolve_node(child, cp, cur, &sibs2) {
                Ok((mut cfs, c2, s, e)) => {
                    proof {
                        lemma_layout_node_wf(
                            dv.children[j as int],
                            joined_path(path@, dv.children[j as int].label),
                            pre_cur,
                            pre_sibs,
                        );
                    }
                    let ghost cfs_view = rf_views(cfs);
                    kids.append(&mut cfs);
                    let sib_entry = SibEntry { label: child.label.clone(), start: s, end: e };
                    let ghost sib_entry_view = sib_entry@;
                    sibs2.push(sib_entry);
                    cur = c2;
                    proof {
                        assert(rf_views(kids) =~= pre_kids + cfs_view);
                        assert(sib_views(sibs2) =~= pre_sibs.push(sib_entry_view));
                        assert(sib_entry_view == (SibView {
                            label: dv.children[j as int].label,
                            start: s as int,
                            end: e as int,
                        }));
                        assert forall|q: int| 0 <= q < sib_views(sibs2).len() implies (0
                            <= #[trigger] sib_views(sibs2)[q].start && sib_views(sibs2)[q].start
                            <= sib_views(sibs2)[q].end && sib_views(sibs2)[q].end
                            <= c2 as int) by {
                            if q < pre_sibs.len() {
                                assert(sib_views(sibs2)[q] == pre_sibs[q]);
                            } else {
                                assert(sib_views(sibs2)[q] == sib_entry_view);
                            }
                        }
                        assert(spec_layout_children(
                            dv.children,
                            j as int + 1,
                            path@,
                            start as int,
                            Seq::empty(),
                        ) == Ok::<ChildrenStep, LayoutError>(
                            ChildrenStep {
                                fields: rf_views(kids),
                                cursor: cur as int,
                                sibs: sib_views(sibs2),
                            },
                        ));
                    }
                },
                Err(er) => {
                    proof {
                        assert(spec_layout_children(
                            dv.children,
                            j as int + 1,
                            path@,
                            start as int,
                            Seq::empty(),
                        ) == Err::<ChildrenStep, LayoutError>(er));
                        lemma_children_error_persists(
                            dv.children,
                            j as int + 1,
                            n as int,
                            path@,
                            start as int,
                            Seq::empty(),
                        );
                    }
                    return Err(er);
                },
            }
            j += 1;
        }
        let glen: u64 = cur - start;
        proof {
            assert((glen as int) * (occ as int) < 0x1_0000_0000_0000_0000) by (nonlinear_arith)
                requires
                    0 <= glen as int <= 0xFFFF_FFFF,
                    0 <= occ as int <= 0xFFFF_FFFF,
            ;
        }
        let end_wide: u128 = start as u128 + (glen as u128) * (occ as u128);
        proof {
            let cstep = spec_layout_children(
                dv.children,
                n as int,
                path@,
                start as int,
                Seq::empty(),
            )->Ok_0;
            assert(cstep.cursor - start as int == glen as int);
            assert(end_wide == start as int + (cstep.cursor - start as int) * occurs_int(dv));
        }
        if redefining {
            if end_wide > target_end as u128 {
                return Err(LayoutError::RecordTooLarge);
            }
        } else {
            if end_wide > MAX_RECORD_BYTES as u128 {
                return Err(LayoutError::RecordTooLarge);
            }
        }
        let end: u64 = end_wide as u64;
        let entry = ResolvedField {
            path,
            label: d.label.clone(),
            data_type: d.data_type,
            is_group: true,
            byte_offset: start,
            byte_length: glen,
            occurs_count: occ,
            value_option: match &d.value_option {
                Some(v) => Some(v.duplicate()),
                None => None,
            },
        };
        let ghost entry_view = entry@;
        let ghost kids_view = rf_views(kids);
        let mut fs: Vec<ResolvedField> = Vec::new();
        fs.push(entry);
        fs.append(&mut kids);
        let c2: u64 = if redefining {
            cursor
        } else {
            end
        };
        proof {
            assert(entry_view =~= rf_of(dv, path@, start as int, glen as int));
            assert(rf_views(fs) =~= seq![rf_of(dv, path@, start as int, glen as int)] + kids_view);
            assert(spec_layout_node(dv, path@, cursor as int, sv) == Ok::<LayoutStep, LayoutError>(
                LayoutStep {
                    fields: rf_views(fs),
                    cursor: c2 as int,
                    start: start as int,
                    end: end as int,
                },
            ));
        }
        Ok((fs, c2, start, end))
    }
}

/// Walks the tree once, depth first and pre-order, and assigns every field
/// its absolute byte offset and byte length: an elementary field takes its
/// length from its data type, a group spans exactly its children, a
/// repeating field's storage covers all its repetitions, and a redefining
/// field reuses its target's offset without advancing the cursor.
///
/// The result equals `spec_resolve_layout` of the tree's view: the resolved
/// fields in pre-order and the total record length on success, and on
/// failure `UnknownRedefinesTarget` or `RecordTooLarge` exactly as the spec
/// defines them. A successful layout is well formed: every field's storage
/// lies inside the total record length.
pub fn resolve_layout(root: &FieldDefinition) -> (r: Result<ResolvedLayout, LayoutError>)
    ensures
        match r {
            Ok(l) => spec_resolve_layout(root@) == Ok::<ResolvedLayoutView, LayoutError>(l@)
                && layout_wf(l@),
            Err(e) => spec_resolve_layout(root@) == Err::<ResolvedLayoutView, LayoutError>(e),
        },
{
    let empty_sibs: Vec<SibEntry> = Vec::new();
    proof {
        assert(sib_views(empty_sibs) =~= Seq::<SibView>::empty());
    }
    match resolve_node(root, root.label.clone(), 0, &empty_sibs) {
        Ok((fs, c2, _start, _end)) => {
            proof {
                lemma_layout_node_wf(root@, root@.label, 0, Seq::<SibView>::empty());
            }
            let layout = ResolvedLayout { fields: fs, total_length: c2 };
            proof {
                assert(layout@ =~= (ResolvedLayoutView {
                    fields: rf_views(layout.fields),
                    total_length: c2 as int,
                }));
            }
            Ok(layout)
        },
        Err(e) => Err(e),
    }
}


/// A tree with no redefinition and no repetition anywhere.
pub open spec fn plain_tree(d: FieldDefView) -> bool
    decreases d, 1int, 0int,
{
    d.redefines is None && d.occurs is None && plain_children(d.children, d.children.len() as int)
}

/// The first `n` subtrees are plain.
pub open spec fn plain_children(cs: Seq<FieldDefView>, n: int) -> bool
    decreases cs, 0int, n,
{
    if n <= 0 || n > cs.len() {
        true
    } else {
        plain_children(cs, n - 1) && plain_tree(cs[n - 1])
    }
}

/// The storage length a plain tree declares: its own byte length when
/// elementary, the sum of its children's lengths when a group.
pub open spec fn tree_len(d: FieldDefView) -> int
    decreases d, 1int, 0int,
{
    if d.children.len() == 0 {
        spec_byte_length(d.data_type, d.char_count)
    } else {
        children_len(d.children, d.children.len() as int)
    }
}

/// The summed storage lengths of the first `n` subtrees.
pub open spec fn children_len(cs: Seq<FieldDefView>, n: int) -> int
    decreases cs, 0int, n,
{
    if n <= 0 || n > cs.len() {
        0
    } else {
        children_len(cs, n - 1) + tree_len(cs[n - 1])
    }
}

/// Law: without redefinition and repetition, a resolved node occupies
/// exactly the bytes `[cursor, cursor + tree_len)` and the cursor moves to
/// its end. Since a group's `tree_len` is the sum of its children's and
/// each child resolves at the cursor where the previous one ended, sibling
/// spans are contiguous and non-overlapping, and a group's span equals the
/// concatenation of its children's spans exactly.
pub proof fn lemma_plain_node_spans(
    d: FieldDefView,
    path: Seq<char>,
    cursor: int,
    sibs: Seq<SibView>,
)
    requires
        plain_tree(d),
        spec_layout_node(d, path, cursor, sibs) is Ok,
    ensures
        ({
            let ls = spec_layout_node(d, path, cursor, sibs)->Ok_0;
            ls.start == cursor && ls.end == cursor + tree_len(d) && ls.cursor == ls.end
                && ls.fields.len() >= 1 && ls.fields[0].byte_offset == cursor
                && ls.fields[0].byte_length == tree_len(d) && ls.fields[0].occurs_count == 1
        }),
    decreases d, 1int, 0int,
{
    let ls = spec_layout_node(d, path, cursor, sibs)->Ok_0;
    if d.children.len() == 0 {
        let len = spec_byte_length(d.data_type, d.char_count);
        assert(len * occurs_int(d) == len);
    } else {
        lemma_plain_children_spans(
            d.children,
            d.children.len() as int,
            path,
            cursor,
            Seq::<SibView>::empty(),
        );
        let cstep = spec_layout_children(
            d.children,
            d.children.len() as int,
            path,
            cursor,
            Seq::<SibView>::empty(),
        )->Ok_0;
        let len = cstep.cursor - cursor;
        assert(len * occurs_int(d) == len);
    }
}

/// Law, sibling form: without redefinition and repetition, resolving the
/// first `n` children in order advances the cursor by exactly the sum of
/// their storage lengths; each child begins where the previous one ended.
pub proof fn lemma_plain_children_spans(
    cs: Seq<FieldDefView>,
    n: int,
    parent_path: Seq<char>,
    cursor: int,
    sibs: Seq<SibView>,
)
    requires
        plain_children(cs, n),
        spec_layout_children(cs, n, parent_path, cursor, sibs) is Ok,
    ensures
        spec_layout_children(cs, n, parent_path, cursor, sibs)->Ok_0.cursor == cursor
            + children_len(cs, n),
    decreases cs, 0int, n,
{
    if n <= 0 || n > cs.len() {
    } else {
        lemma_plain_children_spans(cs, n - 1, parent_path, cursor, sibs);
        let st = spec_layout_children(cs, n - 1, parent_path, cursor, sibs)->Ok_0;
        lemma_plain_node_spans(cs[n - 1], joined_path(parent_path, cs[n - 1].label), st.cursor, st.sibs);
    }
}


/// A node whose every subtree declares an accepted shape resolves to
/// decodable fields only: each digit-bearing elementary field is short
/// enough for its decoded value to fit a fixed-width integer.
pub proof fn lemma_layout_node_decodable(
    d: FieldDefView,
    path: Seq<char>,
    cursor: int,
    sibs: Seq<SibView>,
)
    requires
        tree_shape_ok(d),
        spec_layout_node(d, path, cursor, sibs) is Ok,
    ensures
        fields_decodable(spec_layout_node(d, path, cursor, sibs)->Ok_0.fields),
    decreases d, 1int, 0int,
{
    let ls = spec_layout_node(d, path, cursor, sibs)->Ok_0;
    if d.children.len() == 0 {
        let len = spec_byte_length(d.data_type, d.char_count);
        assert(shape_error(d.data_type, d.char_count) is None);
        assert(field_decodable(rf_of(d, path, ls.start, len)));
        assert forall|i: int| 0 <= i < ls.fields.len() implies field_decodable(
            #[trigger] ls.fields[i],
        ) by {
            assert(ls.fields[i] == rf_of(d, path, ls.start, len));
        }
    } else {
        lemma_layout_children_decodable(
            d.children,
            d.children.len() as int,
            path,
            ls.start,
            Seq::<SibView>::empty(),
        );
        let cstep = spec_layout_children(
            d.children,
            d.children.len() as int,
            path,
            ls.start,
            Seq::<SibView>::empty(),
        )->Ok_0;
        assert forall|i: int| 0 <= i < ls.fields.len() implies field_decodable(
            #[trigger] ls.fields[i],
        ) by {
            if i == 0 {
                assert(ls.fields[0].is_group);
            } else {
                assert(ls.fields[i] == cstep.fields[i - 1]);
            }
        }
    }
}

/// The sibling form of `lemma_layout_node_decodable`.
pub proof fn lemma_layout_children_decodable(
    cs: Seq<FieldDefView>,
    n: int,
    parent_path: Seq<char>,
    cursor: int,
    sibs: Seq<SibView>,
)
    requires
        children_shape_ok(cs, n),
        spec_layout_children(cs, n, parent_path, cursor, sibs) is Ok,
    ensures
        fields_decodable(spec_layout_children(cs, n, parent_path, cursor, sibs)->Ok_0.fields),
    decreases cs, 0int, n,
{
    if n <= 0 || n > cs.len() {
    } else {
        lemma_layout_children_decodable(cs, n - 1, parent_path, cursor, sibs);
        let st = spec_layout_children(cs, n - 1, parent_path, cursor, sibs)->Ok_0;
        let c = cs[n - 1];
        lemma_layout_node_decodable(c, joined_path(parent_path, c.label), st.cursor, st.sibs);
        let ns = spec_layout_node(c, joined_path(parent_path, c.label), st.cursor, st.sibs)->Ok_0;
        let out = spec_layout_children(cs, n, parent_path, cursor, sibs)->Ok_0;
        assert forall|i: int| 0 <= i < out.fields.len() implies field_decodable(
            #[trigger] out.fields[i],
        ) by {
            if i < st.fields.len() {
                assert(out.fields[i] == st.fields[i]);
            } else {
                assert(out.fields[i] == ns.fields[i - st.fields.len()]);
            }
        }
    }
}

/// A layout resolved from a tree whose every node declares an accepted
/// shape — every tree `build_tree` returns — is decodable throughout.
pub proof fn lemma_resolved_layout_decodable(root: FieldDefView)
    requires
        tree_shape_ok(root),
        spec_resolve_layout(root) is Ok,
    ensures
        fields_decodable(spec_resolve_layout(root)->Ok_0.fields),
{
    lemma_layout_node_decodable(root, root.label, 0, Seq::<SibView>::empty());
}

} // verus!
