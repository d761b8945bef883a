use vstd::prelude::*;

use crate::data_type::DataType;
use crate::data_type::shape_error;
use crate::field_value::FieldValueEnum;
use crate::field_value::FieldValueEnumView;

verus! {

broadcast use vstd::std_specs::vec::axiom_vec_index_decreases;

/// One node of a field-definition tree: a copybook field with its level,
/// label and data type. A node with children is a group field whose storage
/// is the concatenation of its children's storage; a node without children
/// is elementary. The tree is built once per copybook and immutable
/// thereafter.
#[derive(Debug)]
pub struct FieldDefinition {
    /// The field's level in the copybook: the nesting indicator that comes
    /// before every field name.
    pub level: u32,
    /// The label the copybook uses to reference the field.
    pub label: String,
    /// The declared character length. Not in general the byte length: some
    /// storage formats have no one-to-one character-to-byte mapping. Absent
    /// for group fields.
    pub char_count_option: Option<u32>,
    /// The field's storage format.
    pub data_type: DataType,
    /// Value metadata declared for the field: a single literal or merged
    /// level-88 condition names. Not exhaustive; context only.
    pub value_option: Option<FieldValueEnum>,
    /// The field's direct children, in declaration order; empty for
    /// elementary fields.
    pub children: Vec<FieldDefinition>,
    /// Label of the earlier sibling whose storage this field reuses.
    pub redefines_option: Option<String>,
    /// Repeat count when the field's storage occurs several times
    /// contiguously.
    pub occurs_option: Option<u32>,
}

/// Mathematical view of a field-definition tree node.
#[verifier::ext_equal]
pub ghost struct FieldDefView {
    pub level: u32,
    pub label: Seq<char>,
    pub char_count: Option<u32>,
    pub data_type: DataType,
    pub value: Option<FieldValueEnumView>,
    pub children: Seq<FieldDefView>,
    pub redefines: Option<Seq<char>>,
    pub occurs: Option<u32>,
}

/// View of optional value metadata.
pub open spec fn opt_value_view(v: Option<FieldValueEnum>) -> Option<FieldValueEnumView> {
    match v {
        Some(x) => Some(x@),
        None => None,
    }
}

/// View of an optional label.
pub open spec fn opt_label_view(v: Option<String>) -> Option<Seq<char>> {
    match v {
        Some(x) => Some(x@),
        None => None,
    }
}

/// View of a field-definition node, with the views of its children.
pub open spec fn def_view(d: FieldDefinition) -> FieldDefView
    decreases d, 1int, 0int,
{
    FieldDefView {
        level: d.level,
        label: d.label@,
        char_count: d.char_count_option,
        data_type: d.data_type,
        value: opt_value_view(d.value_option),
        children: defs_view_prefix(d.children, d.children.len() as int),
        redefines: opt_label_view(d.redefines_option),
        occurs: d.occurs_option,
    }
}

/// Views of the first `n` nodes of a vector of definitions.
pub open spec fn defs_view_prefix(v: Vec<FieldDefinition>, n: int) -> Seq<FieldDefView>
    decreases v, 0int, n,
{
    if n <= 0 || n > v.len() {
        Seq::empty()
    } else {
        defs_view_prefix(v, n - 1).push(def_view(v[n - 1]))
    }
}

/// Views of all nodes of a vector of definitions.
pub open spec fn defs_view(v: Vec<FieldDefinition>) -> Seq<FieldDefView> {
    defs_view_prefix(v, v.len() as int)
}

/// A prefix view has one view per node, in order.
pub proof fn lemma_defs_view_prefix(v: Vec<FieldDefinition>, n: int)
    requires
        0 <= n <= v.len(),
    ensures
        defs_view_prefix(v, n).len() == n,
        forall|i: int| 0 <= i < n ==> defs_view_prefix(v, n)[i] == def_view(v[i]),
    decreases n,
{
    if n > 0 {
        lemma_defs_view_prefix(v, n - 1);
    }
}

/// Prefix views depend only on the nodes inside the prefix.
pub proof fn lemma_defs_view_congruence(v1: Vec<FieldDefinition>, v2: Vec<FieldDefinition>, n: int)
    requires
        0 <= n <= v1.len(),
        n <= v2.len(),
        forall|k: int| 0 <= k < n ==> v1[k] == v2[k],
    ensures
        defs_view_prefix(v1, n) == defs_view_prefix(v2, n),
    decreases n,
{
    if n > 0 {
        lemma_defs_view_congruence(v1, v2, n - 1);
    }
}

/// Every node of the tree declares a shape its storage format accepts.
pub open spec fn tree_shape_ok(d: FieldDefView) -> bool
    decreases d, 1int, 0int,
{
    shape_error(d.data_type, d.char_count) is None && children_shape_ok(
        d.children,
        d.children.len() as int,
    )
}

/// The first `n` subtrees declare accepted shapes.
pub open spec fn children_shape_ok(cs: Seq<FieldDefView>, n: int) -> bool
    decreases cs, 0int, n,
{
    if n <= 0 || n > cs.len() {
        true
    } else {
        children_shape_ok(cs, n - 1) && tree_shape_ok(cs[n - 1])
    }
}

/// Shape checks depend only on the subtrees inside the prefix.
pub proof fn lemma_children_shape_congruence(cs1: Seq<FieldDefView>, cs2: Seq<FieldDefView>, n: int)
    requires
        0 <= n <= cs1.len(),
        n <= cs2.len(),
        forall|k: int| 0 <= k < n ==> cs1[k] == cs2[k],
    ensures
        children_shape_ok(cs1, n) == children_shape_ok(cs2, n),
    decreases n,
{
    if n > 0 {
        lemma_children_shape_congruence(cs1, cs2, n - 1);
    }
}

impl View for FieldDefinition {
    type V = FieldDefView;

    open spec fn view(&self) -> FieldDefView {
        def_view(*self)
    }
}

impl FieldDefinition {
    /// Builds an elementary field definition with no attached value.
    pub fn new(
        level: u32,
        label: String,
        char_count_option: Option<u32>,
        data_type: DataType,
    ) -> (r: FieldDefinition)
        ensures
            r@ == (FieldDefView {
                level,
                label: label@,
                char_count: char_count_option,
                data_type,
                value: None::<FieldValueEnumView>,
                children: Seq::<FieldDefView>::empty(),
                redefines: None::<Seq<char>>,
                occurs: None::<u32>,
            }),
    {
        FieldDefinition {
            level,
            label,
            char_count_option,
            data_type,
            value_option: None,
            children: Vec::new(),
            redefines_option: None,
            occurs_option: None,
        }
    }

    /// Builds a field definition carrying value metadata.
    pub fn new_with_value(
        level: u32,
        label: String,
        char_count_option: Option<u32>,
        data_type: DataType,
        value_option: Option<FieldValueEnum>,
    ) -> (r: FieldDefinition)
        ensures
            r@ == (FieldDefView {
                level,
                label: label@,
                char_count: char_count_option,
                data_type,
                value: opt_value_view(value_option),
                children: Seq::<FieldDefView>::empty(),
                redefines: None::<Seq<char>>,
                occurs: None::<u32>,
            }),
    {
        FieldDefinition {
            level,
            label,
            char_count_option,
            data_type,
            value_option,
            children: Vec::new(),
            redefines_option: None,
            occurs_option: None,
        }
    }
}

} // verus!
