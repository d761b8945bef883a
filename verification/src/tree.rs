use vstd::prelude::*;

use crate::data_type::DataType;
use crate::data_type::MAX_DIGIT_COUNT;
use crate::data_type::shape_error;
use crate::errors::DefinitionError;
use crate::field_definition::FieldDefView;
use crate::field_definition::FieldDefinition;
use crate::field_definition::def_view;
use crate::field_definition::defs_view;
use crate::field_definition::defs_view_prefix;
use crate::field_definition::children_shape_ok;
use crate::field_definition::lemma_children_shape_congruence;
use crate::field_definition::lemma_defs_view_congruence;
use crate::field_definition::lemma_defs_view_prefix;
use crate::field_definition::opt_value_view;
use crate::field_definition::tree_shape_ok;
use crate::field_value::FieldValue;
use crate::field_value::FieldValueEnum;
use crate::field_value::FieldValueEnumView;
use crate::field_value::merge_condition_entry;
use crate::field_value::spec_lookup;
use crate::field_value::spec_merged_value;

verus! {

broadcast use vstd::std_specs::vec::axiom_vec_index_decreases, vstd::seq::axiom_seq_index_decreases;

/// The level number that marks a condition-name entry. Such an entry never
/// becomes a tree node of its own: it is merged into the value map of the
/// field it follows.
pub const CONDITION_LEVEL: u32 = 88;

/// One flat copybook token, as the external lexer hands it over: a level
/// number, a label, the declared character count, the resolved storage
/// format, and the optional value, redefinition and repetition clauses.
#[derive(Debug)]
pub struct FieldToken {
    /// The level number that comes before the field name.
    pub level: u32,
    /// The field's (or condition's) label.
    pub label: String,
    /// The declared character count; absent for group fields.
    pub char_count_option: Option<u32>,
    /// The field's storage format.
    pub data_type: DataType,
    /// Raw text of the value clause, if any.
    pub value_option: Option<String>,
    /// Label of the earlier sibling this field redefines, if any.
    pub redefines_option: Option<String>,
    /// Repeat count of the field's storage, if any.
    pub occurs_option: Option<u32>,
}

/// Mathematical view of a flat copybook token.
#[verifier::ext_equal]
pub ghost struct TokenView {
    pub level: u32,
    pub label: Seq<char>,
    pub char_count: Option<u32>,
    pub data_type: DataType,
    pub value: Option<Seq<char>>,
    pub redefines: Option<Seq<char>>,
    pub occurs: Option<u32>,
}

/// View of an optional raw text span.
pub open spec fn opt_span_view(v: Option<String>) -> Option<Seq<char>> {
    match v {
        Some(x) => Some(x@),
        None => None,
    }
}

impl View for FieldToken {
    type V = TokenView;

    open spec fn view(&self) -> TokenView {
        TokenView {
            level: self.level,
            label: self.label@,
            char_count: self.char_count_option,
            data_type: self.data_type,
            value: opt_span_view(self.value_option),
            redefines: opt_span_view(self.redefines_option),
            occurs: self.occurs_option,
        }
    }
}

impl FieldToken {
    /// Builds a token without value, redefinition or repetition clauses.
    pub fn new(
        level: u32,
        label: String,
        char_count_option: Option<u32>,
        data_type: DataType,
    ) -> (r: FieldToken)
        ensures
            r@ == (TokenView {
                level,
                label: label@,
                char_count: char_count_option,
                data_type,
                value: None::<Seq<char>>,
                redefines: None::<Seq<char>>,
                occurs: None::<u32>,
            }),
    {
        FieldToken {
            level,
            label,
            char_count_option,
            data_type,
            value_option: None,
            redefines_option: None,
            occurs_option: None,
        }
    }
}

/// The views of all tokens, in order.
pub open spec fn tokens_view(v: Vec<FieldToken>) -> Seq<TokenView> {
    Seq::new(v.len() as nat, |i: int| v[i]@)
}

/// The fresh, childless tree node a non-condition token declares.
pub open spec fn node_of_token(t: TokenView) -> FieldDefView {
    FieldDefView {
        level: t.level,
        label: t.label,
        char_count: t.char_count,
        data_type: t.data_type,
        value: match t.value {
            Some(s) => Some(FieldValueEnumView::Single(s)),
            None => None,
        },
        children: Seq::<FieldDefView>::empty(),
        redefines: t.redefines,
        occurs: t.occurs,
    }
}

/// The raw value span of a condition token; an absent span counts as empty.
pub open spec fn value_or_empty(v: Option<Seq<char>>) -> Seq<char> {
    match v {
        Some(s) => s,
        None => Seq::<char>::empty(),
    }
}

/// The definition error a token's declared shape raises, if any.
pub open spec fn spec_token_error(t: TokenView) -> Option<DefinitionError> {
    shape_error(t.data_type, t.char_count)
}

/// A parent node with one more child appended.
pub open spec fn with_child(parent: FieldDefView, child: FieldDefView) -> FieldDefView {
    FieldDefView { children: parent.children.push(child), ..parent }
}

/// A node with its value metadata replaced.
pub open spec fn with_value(d: FieldDefView, v: Option<FieldValueEnumView>) -> FieldDefView {
    FieldDefView { value: v, ..d }
}

/// Closes the innermost open node: the top of the ancestor stack becomes the
/// last child of the node below it.
pub open spec fn collapse_top(st: Seq<FieldDefView>) -> Seq<FieldDefView> {
    st.drop_last().drop_last().push(with_child(st[st.len() - 2], st.last()))
}

/// Closes open nodes while the top of the stack is at or below the incoming
/// level; those ancestors can take no further children.
pub open spec fn pop_to(st: Seq<FieldDefView>, level: u32) -> Seq<FieldDefView>
    decreases st.len(),
{
    if st.len() <= 1 {
        st
    } else if st.last().level >= level {
        pop_to(collapse_top(st), level)
    } else {
        st
    }
}

/// One step of tree building: how the open ancestor stack reacts to one
/// token. A condition token merges into the value map of the newest node;
/// any other token first closes the ancestors at or below its level, then
/// becomes a child of the remaining top of the stack.
pub open spec fn build_step(st: Seq<FieldDefView>, t: TokenView) -> Result<
    Seq<FieldDefView>,
    DefinitionError,
> {
    if t.level == CONDITION_LEVEL {
        match spec_merged_value(st.last().value, t.label, value_or_empty(t.value)) {
            Ok(v) => Ok(st.drop_last().push(with_value(st.last(), v))),
            Err(e) => Err(e),
        }
    } else if spec_token_error(t) is Some {
        Err(spec_token_error(t)->0)
    } else {
        let popped = pop_to(st, t.level);
        if popped.len() == 1 && popped[0].level >= t.level {
            Err(DefinitionError::MultipleRoots)
        } else {
            Ok(popped.push(node_of_token(t)))
        }
    }
}

/// The stack the first token establishes. A condition token or a zero level
/// cannot open a root.
pub open spec fn spec_init(t: TokenView) -> Result<Seq<FieldDefView>, DefinitionError> {
    if t.level == CONDITION_LEVEL || t.level == 0 {
        Err(DefinitionError::LevelOutOfOrder)
    } else if spec_token_error(t) is Some {
        Err(spec_token_error(t)->0)
    } else {
        Ok(seq![node_of_token(t)])
    }
}

/// The open ancestor stack after the whole token sequence, or the first
/// error encountered.
pub open spec fn spec_build_state(ts: Seq<TokenView>) -> Result<Seq<FieldDefView>, DefinitionError>
    decreases ts.len(),
{
    if ts.len() == 0 {
        Err(DefinitionError::EmptyCopybook)
    } else if ts.len() == 1 {
        spec_init(ts[0])
    } else {
        match spec_build_state(ts.drop_last()) {
            Ok(st) => build_step(st, ts.last()),
            Err(e) => Err(e),
        }
    }
}

/// Closes every still-open node; what remains is the root.
pub open spec fn collapse_full(st: Seq<FieldDefView>) -> FieldDefView
    decreases st.len(),
{
    if st.len() <= 1 {
        st[0]
    } else {
        collapse_full(collapse_top(st))
    }
}

/// The rooted tree a flat token sequence declares, or the first error
/// encountered.
pub open spec fn spec_build(ts: Seq<TokenView>) -> Result<FieldDefView, DefinitionError> {
    match spec_build_state(ts) {
        Ok(st) => Ok(collapse_full(st)),
        Err(e) => Err(e),
    }
}

/// An error in a prefix of the token sequence is the error of the whole
/// sequence: building stops at the first error.
pub proof fn lemma_error_persists(ts: Seq<TokenView>, m: int)
    requires
        1 <= m <= ts.len(),
        spec_build_state(ts.take(m)) is Err,
    ensures
        spec_build_state(ts) == spec_build_state(ts.take(m)),
    decreases ts.len(),
{
    if m < ts.len() {
        assert(ts.drop_last().take(m) =~= ts.take(m));
        lemma_error_persists(ts.drop_last(), m);
    } else {
        assert(ts.take(m) =~= ts);
    }
}

/// A successfully built stack always holds at least the root.
pub proof fn lemma_state_nonempty(ts: Seq<TokenView>)
    requires
        spec_build_state(ts) is Ok,
    ensures
        spec_build_state(ts)->Ok_0.len() >= 1,
    decreases ts.len(),
{
    if ts.len() > 1 {
        lemma_state_nonempty(ts.drop_last());
        let st = spec_build_state(ts.drop_last())->Ok_0;
        let t = ts.last();
        if t.level == CONDITION_LEVEL {
        } else {
            lemma_pop_to_nonempty(st, t.level);
        }
    }
}

/// Closing open nodes never empties the stack.
pub proof fn lemma_pop_to_nonempty(st: Seq<FieldDefView>, level: u32)
    requires
        st.len() >= 1,
    ensures
        pop_to(st, level).len() >= 1,
        pop_to(st, level).len() <= st.len(),
    decreases st.len(),
{
    if st.len() > 1 && st.last().level >= level {
        lemma_pop_to_nonempty(collapse_top(st), level);
    }
}

/// The definition error the token's shape raises, if any.
fn token_error(t: &FieldToken) -> (r: Option<DefinitionError>)
    ensures
        r == spec_token_error(t@),
{
    if matches!(t.data_type, DataType::GroupMarker) {
        None
    } else {
        match t.char_count_option {
            None => Some(DefinitionError::InvalidCharCount),
            Some(c) => {
                if c == 0 {
                    Some(DefinitionError::InvalidCharCount)
                } else if !matches!(t.data_type, DataType::Alphanumeric) && c > MAX_DIGIT_COUNT {
                    Some(DefinitionError::DigitCountTooLarge)
                } else {
                    None
                }
            },
        }
    }
}

/// The fresh, childless tree node a non-condition token declares.
fn node_of(t: &FieldToken) -> (r: FieldDefinition)
    ensures
        r@ == node_of_token(t@),
{
    let r = FieldDefinition {
        level: t.level,
        label: t.label.clone(),
        char_count_option: t.char_count_option,
        data_type: t.data_type,
        value_option: match &t.value_option {
            Some(s) => Some(FieldValueEnum::FieldValue(FieldValue::new(s.clone()))),
            None => None,
        },
        children: Vec::new(),
        redefines_option: match &t.redefines_option {
            Some(s) => Some(s.clone()),
            None => None,
        },
        occurs_option: t.occurs_option,
    };
    proof {
        assert(r@ =~= node_of_token(t@));
    }
    r
}

/// After a pop, the stack's views lose exactly the popped node's view.
proof fn lemma_view_after_pop(v_old: Vec<FieldDefinition>, v_new: Vec<FieldDefinition>)
    requires
        v_old.len() >= 1,
        v_new@ == v_old@.drop_last(),
    ensures
        defs_view(v_new) == defs_view(v_old).drop_last(),
        def_view(v_old[v_old.len() - 1]) == defs_view(v_old).last(),
        defs_view(v_old).len() == v_old.len(),
{
    let n = v_old.len() as int;
    lemma_defs_view_prefix(v_old, n);
    lemma_defs_view_congruence(v_old, v_new, n - 1);
    assert(defs_view(v_old) == defs_view_prefix(v_old, n - 1).push(def_view(v_old[n - 1])));
    assert(defs_view(v_new) =~= defs_view(v_old).drop_last());
}

/// After a push, the stack's views gain exactly the pushed node's view.
proof fn lemma_view_after_push(
    v_old: Vec<FieldDefinition>,
    v_new: Vec<FieldDefinition>,
    x: FieldDefinition,
)
    requires
        v_new@ == v_old@.push(x),
    ensures
        defs_view(v_new) == defs_view(v_old).push(def_view(x)),
{
    let n = v_old.len() as int;
    lemma_defs_view_congruence(v_new, v_old, n);
    assert(v_new[n] == x);
    assert(defs_view(v_new) == defs_view_prefix(v_new, n).push(def_view(v_new[n])));
}

/// Builds the field-definition tree that a flat, declaration-ordered token
/// sequence describes. Nesting is inferred purely from level numbers with an
/// explicit ancestor stack; condition tokens merge into the value map of the
/// field they follow.
///
/// The result equals `spec_build` of the token views: the tree on success,
/// and on failure the first error encountered — `EmptyCopybook`,
/// `LevelOutOfOrder`, `InvalidCharCount`, `DigitCountTooLarge`,
/// `DuplicateConditionName` or `MultipleRoots`, each exactly as `spec_init`,
/// `spec_token_error` and `build_step` define it.
pub fn build_tree(tokens: &Vec<FieldToken>) -> (r: Result<FieldDefinition, DefinitionError>)
    ensures
        match r {
            Ok(root) => spec_build(tokens_view(*tokens)) == Ok::<FieldDefView, DefinitionError>(
                root@,
            ),
            Err(e) => spec_build(tokens_view(*tokens)) == Err::<FieldDefView, DefinitionError>(e),
        },
{
    let ghost ts = tokens_view(*tokens);
    let n = tokens.len();
    if n == 0 {
        return Err(DefinitionError::EmptyCopybook);
    }
    let t0 = &tokens[0];
    proof {
        assert(ts.take(1) =~= seq![ts[0]]);
        assert(ts.take(1).len() == 1);
    }
    if t0.level == CONDITION_LEVEL || t0.level == 0 {
        proof {
            lemma_error_persists(ts, 1);
        }
        return Err(DefinitionError::LevelOutOfOrder);
    }
    match token_error(t0) {
        Some(e) => {
            proof {
                lemma_error_persists(ts, 1);
            }
            return Err(e);
        },
        None => {},
    }
    let mut stack: Vec<FieldDefinition> = Vec::new();
    let first = node_of(t0);
    stack.push(first);
    proof {
        lemma_defs_view_prefix(stack, 1);
        assert(stack[0] == first);
        assert(defs_view(stack) =~= seq![node_of_token(ts[0])]);
    }
    let mut i: usize = 1;
    while i < n
        invariant
            n == tokens.len(),
            ts == tokens_view(*tokens),
            ts.len() == n,
            1 <= i <= n,
            stack.len() >= 1,
            spec_build_state(ts.take(i as int)) == Ok::<Seq<FieldDefView>, DefinitionError>(
                defs_view(stack),
            ),
        decreases n - i,
    {
        let ghost pre = defs_view(stack);
        let ghost tv = ts[i as int];
        proof {
            assert(ts.take(i as int + 1).drop_last() =~= ts.take(i as int));
            assert(ts.take(i as int + 1).last() == tv);
            lemma_defs_view_prefix(stack, stack.len() as int);
        }
        let t = &tokens[i];
        if t.level == CONDITION_LEVEL {
            let ghost v_before = stack;
            let top = stack.pop().unwrap();
            proof {
                lemma_view_after_pop(v_before, stack);
            }
            let span: String = match &t.value_option {
                Some(s) => s.clone(),
                None => String::new(),
            };
            let FieldDefinition {
                level,
                label,
                char_count_option,
                data_type,
                value_option,
                children,
                redefines_option,
                occurs_option,
            } = top;
            match merge_condition_entry(value_option, t.label.clone(), span) {
                Ok(v) => {
                    let new_top = FieldDefinition {
                        level,
                        label,
                        char_count_option,
                        data_type,
                        value_option: v,
                        children,
                        redefines_option,
                        occurs_option,
                    };
                    proof {
                        assert(new_top@ =~= with_value(pre.last(), opt_value_view(
                            new_top.value_option,
                        )));
                    }
                    let ghost v_mid = stack;
                    stack.push(new_top);
                    proof {
                        lemma_view_after_push(v_mid, stack, new_top);
                        assert(build_step(pre, tv) == Ok::<Seq<FieldDefView>, DefinitionError>(
                            defs_view(stack),
                        ));
                    }
                },
                Err(e) => {
                    proof {
                        assert(build_step(pre, tv) == Err::<Seq<FieldDefView>, DefinitionError>(e));
                        lemma_error_persists(ts, i as int + 1);
                    }
                    return Err(e);
                },
            }
        } else {
            match token_error(t) {
                Some(e) => {
                    proof {
                        lemma_error_persists(ts, i as int + 1);
                    }
                    return Err(e);
                },
                None => {},
            }
            while stack.len() > 1 && stack[stack.len() - 1].level >= t.level
                invariant
                    stack.len() >= 1,
                    tv == t@,
                    pop_to(defs_view(stack), tv.level) == pop_to(pre, tv.level),
                decreases stack.len(),
            {
                proof {
                    lemma_defs_view_prefix(stack, stack.len() as int);
                }
                let ghost sv_old = defs_view(stack);
                let ghost v0 = stack;
                let child = stack.pop().unwrap();
                proof {
                    lemma_view_after_pop(v0, stack);
                }
                let ghost v1 = stack;
                let mut parent = stack.pop().unwrap();
                proof {
                    lemma_view_after_pop(v1, stack);
                }
                let ghost parent_children_old = parent.children;
                let ghost parent_old = parent;
                parent.children.push(child);
                proof {
                    lemma_defs_view_congruence(
                        parent.children,
                        parent_children_old,
                        parent_children_old.len() as int,
                    );
                    assert(parent@ =~= with_child(parent_old@, child@));
                }
                let ghost v2 = stack;
                stack.push(parent);
                proof {
                    lemma_view_after_push(v2, stack, parent);
                    assert(defs_view(stack) =~= collapse_top(sv_old));
                }
            }
            proof {
                lemma_defs_view_prefix(stack, stack.len() as int);
                assert(pop_to(defs_view(stack), tv.level) == defs_view(stack));
            }
            if stack.len() == 1 && stack[0].level >= t.level {
                proof {
                    assert(build_step(pre, tv) == Err::<Seq<FieldDefView>, DefinitionError>(
                        DefinitionError::MultipleRoots,
                    ));
                    lemma_error_persists(ts, i as int + 1);
                }
                return Err(DefinitionError::MultipleRoots);
            }
            let node = node_of(t);
            let ghost v3 = stack;
            stack.push(node);
            proof {
                lemma_view_after_push(v3, stack, node);
                assert(build_step(pre, tv) == Ok::<Seq<FieldDefView>, DefinitionError>(
                    defs_view(stack),
                ));
            }
        }
        i += 1;
    }
    proof {
        assert(ts.take(n as int) =~= ts);
    }
    let ghost final_state = defs_view(stack);
    while stack.len() > 1
        invariant
            stack.len() >= 1,
            collapse_full(defs_view(stack)) == collapse_full(final_state),
        decreases stack.len(),
    {
        let ghost sv_old = defs_view(stack);
        let ghost v0 = stack;
        let child = stack.pop().unwrap();
        proof {
            lemma_view_after_pop(v0, stack);
        }
        let ghost v1 = stack;
        let mut parent = stack.pop().unwrap();
        proof {
            lemma_view_after_pop(v1, stack);
        }
        let ghost parent_children_old = parent.children;
        let ghost parent_old = parent;
        parent.children.push(child);
        proof {
            lemma_defs_view_congruence(
                parent.children,
                parent_children_old,
                parent_children_old.len() as int,
            );
            assert(parent@ =~= with_child(parent_old@, child@));
        }
        let ghost v2 = stack;
        stack.push(parent);
        proof {
            lemma_view_after_push(v2, stack, parent);
            assert(defs_view(stack) =~= collapse_top(sv_old));
        }
    }
    let ghost v_last = stack;
    let root = stack.pop().unwrap();
    proof {
        lemma_view_after_pop(v_last, stack);
        assert(collapse_full(defs_view(v_last)) == root@);
    }
    Ok(root)
}


/// The level/label/char-count/data-type quadruple of one field declaration:
/// what survives a flatten/re-serialize round trip.
#[verifier::ext_equal]
pub ghost struct TokenQuad {
    pub level: u32,
    pub label: Seq<char>,
    pub char_count: Option<u32>,
    pub data_type: DataType,
}

/// The declaration quadruple of a token.
pub open spec fn quad_of_token(t: TokenView) -> TokenQuad {
    TokenQuad { level: t.level, label: t.label, char_count: t.char_count, data_type: t.data_type }
}

/// The declaration quadruple of a tree node.
pub open spec fn quad_of_def(d: FieldDefView) -> TokenQuad {
    TokenQuad { level: d.level, label: d.label, char_count: d.char_count, data_type: d.data_type }
}

/// Pre-order flattening of a tree: the node's own declaration, then its
/// children's flattenings in order.
pub open spec fn flatten_def(d: FieldDefView) -> Seq<TokenQuad>
    decreases d, 1int, 0int,
{
    seq![quad_of_def(d)] + flatten_children(d.children, d.children.len() as int)
}

/// Concatenated flattenings of the first `n` nodes of a sequence.
pub open spec fn flatten_children(cs: Seq<FieldDefView>, n: int) -> Seq<TokenQuad>
    decreases cs, 0int, n,
{
    if n <= 0 || n > cs.len() {
        Seq::empty()
    } else {
        flatten_children(cs, n - 1) + flatten_def(cs[n - 1])
    }
}

/// Concatenated flattenings of every node of a stack.
pub open spec fn stack_flatten(st: Seq<FieldDefView>) -> Seq<TokenQuad> {
    flatten_children(st, st.len() as int)
}

/// The declaration quadruples of the non-condition tokens, in order.
pub open spec fn non88_quads(ts: Seq<TokenView>) -> Seq<TokenQuad>
    decreases ts.len(),
{
    if ts.len() == 0 {
        Seq::empty()
    } else if ts.last().level == CONDITION_LEVEL {
        non88_quads(ts.drop_last())
    } else {
        non88_quads(ts.drop_last()) + seq![quad_of_token(ts.last())]
    }
}

/// Flattenings depend only on the nodes inside the prefix.
proof fn lemma_flatten_children_congruence(cs1: Seq<FieldDefView>, cs2: Seq<FieldDefView>, n: int)
    requires
        0 <= n <= cs1.len(),
        n <= cs2.len(),
        forall|k: int| 0 <= k < n ==> cs1[k] == cs2[k],
    ensures
        flatten_children(cs1, n) == flatten_children(cs2, n),
    decreases n,
{
    if n > 0 {
        lemma_flatten_children_congruence(cs1, cs2, n - 1);
    }
}

/// Appending a child appends the child's flattening.
proof fn lemma_flatten_with_child(parent: FieldDefView, child: FieldDefView)
    ensures
        flatten_def(with_child(parent, child)) == flatten_def(parent) + flatten_def(child),
{
    let p2 = with_child(parent, child);
    let n = parent.children.len() as int;
    assert(p2.children[n] == child);
    lemma_flatten_children_congruence(p2.children, parent.children, n);
    assert(flatten_children(p2.children, n + 1) == flatten_children(p2.children, n)
        + flatten_def(p2.children[n]));
    assert(flatten_def(p2) =~= flatten_def(parent) + flatten_def(child));
}

/// Replacing a node's value metadata leaves its flattening unchanged.
proof fn lemma_with_value_flatten(d: FieldDefView, v: Option<FieldValueEnumView>)
    ensures
        flatten_def(with_value(d, v)) == flatten_def(d),
{
    assert(quad_of_def(with_value(d, v)) == quad_of_def(d));
    assert(with_value(d, v).children == d.children);
}

/// Closing the innermost open node only regroups the flattening.
proof fn lemma_collapse_top_flatten(st: Seq<FieldDefView>)
    requires
        st.len() >= 2,
    ensures
        stack_flatten(collapse_top(st)) == stack_flatten(st),
        collapse_top(st).len() == st.len() - 1,
{
    let n = st.len() as int;
    let ct = collapse_top(st);
    assert(ct.len() == n - 1);
    assert(ct[n - 2] == with_child(st[n - 2], st[n - 1]));
    lemma_flatten_children_congruence(ct, st, n - 2);
    lemma_flatten_with_child(st[n - 2], st[n - 1]);
    assert(flatten_children(st, n) == flatten_children(st, n - 1) + flatten_def(st[n - 1]));
    assert(flatten_children(st, n - 1) == flatten_children(st, n - 2) + flatten_def(st[n - 2]));
    assert(flatten_children(ct, n - 1) == flatten_children(ct, n - 2) + flatten_def(ct[n - 2]));
    assert(stack_flatten(ct) =~= stack_flatten(st));
}

/// Closing open nodes preserves the stack's flattening.
proof fn lemma_pop_to_flatten(st: Seq<FieldDefView>, level: u32)
    requires
        st.len() >= 1,
    ensures
        stack_flatten(pop_to(st, level)) == stack_flatten(st),
    decreases st.len(),
{
    if st.len() > 1 && st.last().level >= level {
        lemma_collapse_top_flatten(st);
        lemma_pop_to_flatten(collapse_top(st), level);
    }
}

/// One build step extends the stack's flattening by exactly the incoming
/// declaration, or by nothing for a condition token.
proof fn lemma_step_flatten(st: Seq<FieldDefView>, t: TokenView, st2: Seq<FieldDefView>)
    requires
        st.len() >= 1,
        build_step(st, t) == Ok::<Seq<FieldDefView>, DefinitionError>(st2),
    ensures
        t.level == CONDITION_LEVEL ==> stack_flatten(st2) == stack_flatten(st),
        t.level != CONDITION_LEVEL ==> stack_flatten(st2) == stack_flatten(st) + seq![
            quad_of_token(t),
        ],
{
    let n = st.len() as int;
    if t.level == CONDITION_LEVEL {
        let v = spec_merged_value(st.last().value, t.label, value_or_empty(t.value))->Ok_0;
        assert(st2 == st.drop_last().push(with_value(st.last(), v)));
        assert(st2[n - 1] == with_value(st.last(), v));
        lemma_flatten_children_congruence(st2, st, n - 1);
        lemma_with_value_flatten(st.last(), v);
        assert(flatten_children(st2, n) == flatten_children(st2, n - 1) + flatten_def(st2[n - 1]));
        assert(flatten_children(st, n) == flatten_children(st, n - 1) + flatten_def(st[n - 1]));
        assert(stack_flatten(st2) =~= stack_flatten(st));
    } else {
        let popped = pop_to(st, t.level);
        lemma_pop_to_nonempty(st, t.level);
        lemma_pop_to_flatten(st, t.level);
        let k = popped.len() as int;
        assert(st2 == popped.push(node_of_token(t)));
        assert(st2[k] == node_of_token(t));
        lemma_flatten_children_congruence(st2, popped, k);
        assert(flatten_children(st2, k + 1) == flatten_children(st2, k) + flatten_def(st2[k]));
        assert(flatten_def(node_of_token(t)) =~= seq![quad_of_token(t)]);
        assert(stack_flatten(st2) =~= stack_flatten(st) + seq![quad_of_token(t)]);
    }
}

/// The stack a token prefix builds flattens to exactly the non-condition
/// declarations of that prefix.
proof fn lemma_state_flatten(ts: Seq<TokenView>)
    requires
        spec_build_state(ts) is Ok,
    ensures
        stack_flatten(spec_build_state(ts)->Ok_0) == non88_quads(ts),
    decreases ts.len(),
{
    if ts.len() == 1 {
        let t = ts[0];
        let st = spec_build_state(ts)->Ok_0;
        assert(st == seq![node_of_token(t)]);
        assert(flatten_children(st, 1) == flatten_children(st, 0) + flatten_def(st[0]));
        assert(flatten_def(node_of_token(t)) =~= seq![quad_of_token(t)]);
        assert(ts.drop_last().len() == 0);
        assert(non88_quads(ts.drop_last()) =~= Seq::<TokenQuad>::empty());
        assert(ts.last() == t);
        assert(stack_flatten(st) =~= non88_quads(ts));
    } else if ts.len() > 1 {
        let prev = spec_build_state(ts.drop_last())->Ok_0;
        lemma_state_flatten(ts.drop_last());
        lemma_state_nonempty(ts.drop_last());
        lemma_step_flatten(prev, ts.last(), spec_build_state(ts)->Ok_0);
        if ts.last().level != CONDITION_LEVEL {
            assert(stack_flatten(spec_build_state(ts)->Ok_0) =~= non88_quads(ts));
        }
    }
}

/// Closing every open node preserves the flattening; a one-node stack
/// flattens to its root's flattening.
proof fn lemma_collapse_full_flatten(st: Seq<FieldDefView>)
    requires
        st.len() >= 1,
    ensures
        flatten_def(collapse_full(st)) == stack_flatten(st),
    decreases st.len(),
{
    if st.len() == 1 {
        assert(flatten_children(st, 1) == flatten_children(st, 0) + flatten_def(st[0]));
        assert(flatten_def(collapse_full(st)) =~= stack_flatten(st));
    } else {
        lemma_collapse_top_flatten(st);
        lemma_collapse_full_flatten(collapse_top(st));
    }
}

/// Law: building a tree from a flat token sequence and flattening it again
/// reproduces the level/label/char-count/data-type sequence of the
/// declarations, in order, with condition-name entries merged away.
pub proof fn lemma_build_flatten_round_trip(ts: Seq<TokenView>)
    requires
        spec_build(ts) is Ok,
    ensures
        flatten_def(spec_build(ts)->Ok_0) == non88_quads(ts),
{
    lemma_state_nonempty(ts);
    lemma_state_flatten(ts);
    lemma_collapse_full_flatten(spec_build_state(ts)->Ok_0);
}

/// One record of the re-serialized flat form of a tree.
#[derive(Debug)]
pub struct FlatField {
    /// The field's level.
    pub level: u32,
    /// The field's label.
    pub label: String,
    /// The declared character count, if any.
    pub char_count_option: Option<u32>,
    /// The field's storage format.
    pub data_type: DataType,
}

impl View for FlatField {
    type V = TokenQuad;

    open spec fn view(&self) -> TokenQuad {
        TokenQuad {
            level: self.level,
            label: self.label@,
            char_count: self.char_count_option,
            data_type: self.data_type,
        }
    }
}

/// The views of a re-serialized flat form, in order.
pub open spec fn flat_view(v: Vec<FlatField>) -> Seq<TokenQuad> {
    Seq::new(v.len() as nat, |i: int| v[i]@)
}

/// Appends the pre-order flattening of one subtree.
fn flatten_into(d: &FieldDefinition, out: &mut Vec<FlatField>)
    ensures
        flat_view(*final(out)) == flat_view(*old(out)) + flatten_def(d@),
    decreases *d,
{
    out.push(
        FlatField {
            level: d.level,
            label: d.label.clone(),
            char_count_option: d.char_count_option,
            data_type: d.data_type,
        },
    );
    proof {
        assert(flat_view(*out) =~= flat_view(*old(out)) + seq![quad_of_def(d@)]);
    }
    let n = d.children.len();
    let mut j: usize = 0;
    while j < n
        invariant
            n == d.children.len(),
            0 <= j <= n,
            flat_view(*out) == flat_view(*old(out)) + seq![quad_of_def(d@)] + flatten_children(
                d@.children,
                j as int,
            ),
        decreases n - j,
    {
        flatten_into(&d.children[j], out);
        proof {
            lemma_defs_view_prefix(d.children, n as int);
            assert(d@.children[j as int] == def_view(d.children[j as int]));
            assert(flatten_children(d@.children, j as int + 1) == flatten_children(
                d@.children,
                j as int,
            ) + flatten_def(d@.children[j as int]));
            assert(flat_view(*out) =~= flat_view(*old(out)) + seq![quad_of_def(d@)]
                + flatten_children(d@.children, j as int + 1));
        }
        j += 1;
    }
    proof {
        lemma_defs_view_prefix(d.children, n as int);
        assert(d@.children.len() == n);
        assert(flat_view(*out) =~= flat_view(*old(out)) + flatten_def(d@));
    }
}

/// Re-serializes a field-definition tree into its flat, pre-order sequence
/// of declarations.
pub fn flatten_tree(root: &FieldDefinition) -> (r: Vec<FlatField>)
    ensures
        flat_view(r) == flatten_def(root@),
{
    let mut out: Vec<FlatField> = Vec::new();
    proof {
        assert(flat_view(out) =~= Seq::<TokenQuad>::empty());
    }
    flatten_into(root, &mut out);
    proof {
        assert(flat_view(out) =~= flatten_def(root@));
    }
    out
}


/// Appending a well-shaped child keeps a well-shaped parent well shaped.
proof fn lemma_with_child_shape(parent: FieldDefView, child: FieldDefView)
    requires
        tree_shape_ok(parent),
        tree_shape_ok(child),
    ensures
        tree_shape_ok(with_child(parent, child)),
{
    let p2 = with_child(parent, child);
    let n = parent.children.len() as int;
    lemma_children_shape_congruence(p2.children, parent.children, n);
    assert(p2.children[n] == child);
}

/// Closing open nodes keeps every stack node well shaped.
proof fn lemma_pop_to_shape(st: Seq<FieldDefView>, level: u32)
    requires
        st.len() >= 1,
        forall|i: int| 0 <= i < st.len() ==> tree_shape_ok(#[trigger] st[i]),
    ensures
        forall|i: int|
            0 <= i < pop_to(st, level).len() ==> tree_shape_ok(#[trigger] pop_to(st, level)[i]),
    decreases st.len(),
{
    if st.len() > 1 && st.last().level >= level {
        let ct = collapse_top(st);
        let n = st.len() as int;
        assert forall|i: int| 0 <= i < ct.len() implies tree_shape_ok(#[trigger] ct[i]) by {
            if i < n - 2 {
                assert(ct[i] == st[i]);
            } else {
                lemma_with_child_shape(st[n - 2], st[n - 1]);
            }
        }
        lemma_pop_to_shape(ct, level);
        assert(pop_to(st, level) == pop_to(ct, level));
        assert forall|i: int| 0 <= i < pop_to(st, level).len() implies tree_shape_ok(
            #[trigger] pop_to(st, level)[i],
        ) by {
            assert(pop_to(st, level)[i] == pop_to(ct, level)[i]);
        }
    }
}

/// Every node a token prefix builds is well shaped: each came from a token
/// whose declared shape was accepted.
proof fn lemma_stack_shape(ts: Seq<TokenView>)
    requires
        spec_build_state(ts) is Ok,
    ensures
        forall|i: int|
            0 <= i < spec_build_state(ts)->Ok_0.len() ==> tree_shape_ok(
                #[trigger] spec_build_state(ts)->Ok_0[i],
            ),
    decreases ts.len(),
{
    if ts.len() == 1 {
        let t = ts[0];
        let st = spec_build_state(ts)->Ok_0;
        assert(st == seq![node_of_token(t)]);
        assert(tree_shape_ok(node_of_token(t)));
        assert(forall|i: int| 0 <= i < st.len() ==> st[i] == node_of_token(t));
    } else if ts.len() > 1 {
        lemma_stack_shape(ts.drop_last());
        lemma_state_nonempty(ts.drop_last());
        let prev = spec_build_state(ts.drop_last())->Ok_0;
        let st = spec_build_state(ts)->Ok_0;
        let t = ts.last();
        let n = prev.len() as int;
        if t.level == CONDITION_LEVEL {
            let v = spec_merged_value(prev.last().value, t.label, value_or_empty(t.value))->Ok_0;
            assert(st == prev.drop_last().push(with_value(prev.last(), v)));
            assert(tree_shape_ok(with_value(prev.last(), v)) == tree_shape_ok(prev.last()));
            assert forall|i: int| 0 <= i < st.len() implies tree_shape_ok(#[trigger] st[i]) by {
                if i < n - 1 {
                    assert(st[i] == prev[i]);
                } else {
                    assert(st[i] == with_value(prev.last(), v));
                }
            }
        } else {
            lemma_pop_to_shape(prev, t.level);
            let popped = pop_to(prev, t.level);
            let k = popped.len() as int;
            assert(st == popped.push(node_of_token(t)));
            assert(tree_shape_ok(node_of_token(t)));
            assert forall|i: int| 0 <= i < st.len() implies tree_shape_ok(#[trigger] st[i]) by {
                if i < k {
                    assert(st[i] == popped[i]);
                } else {
                    assert(st[i] == node_of_token(t));
                }
            }
        }
    }
}

/// Closing every open node keeps the root well shaped.
proof fn lemma_collapse_full_shape(st: Seq<FieldDefView>)
    requires
        st.len() >= 1,
        forall|i: int| 0 <= i < st.len() ==> tree_shape_ok(#[trigger] st[i]),
    ensures
        tree_shape_ok(collapse_full(st)),
    decreases st.len(),
{
    if st.len() > 1 {
        let ct = collapse_top(st);
        let n = st.len() as int;
        assert forall|i: int| 0 <= i < ct.len() implies tree_shape_ok(#[trigger] ct[i]) by {
            if i < n - 2 {
                assert(ct[i] == st[i]);
            } else {
                lemma_with_child_shape(st[n - 2], st[n - 1]);
            }
        }
        lemma_collapse_full_shape(ct);
    }
}

/// A successfully built tree is well shaped in every node: layouts resolved
/// from it are decodable.
pub proof fn lemma_build_tree_shape_ok(ts: Seq<TokenView>)
    requires
        spec_build(ts) is Ok,
    ensures
        tree_shape_ok(spec_build(ts)->Ok_0),
{
    lemma_state_nonempty(ts);
    lemma_stack_shape(ts);
    lemma_collapse_full_shape(spec_build_state(ts)->Ok_0);
}


/// A flat token sequence on which tree building is owed to succeed: it is
/// nonempty; the first token opens a root (a positive level, not a
/// condition entry); every non-condition token declares an accepted shape;
/// every later non-condition token nests strictly below the root; and no
/// two condition entries of one run (consecutive condition tokens, which
/// merge into the same field) share a label.
pub open spec fn tokens_valid(ts: Seq<TokenView>) -> bool {
    &&& ts.len() > 0
    &&& ts[0].level >= 1
    &&& ts[0].level != CONDITION_LEVEL
    &&& forall|i: int|
        0 <= i < ts.len() && (#[trigger] ts[i]).level != CONDITION_LEVEL ==> spec_token_error(
            ts[i],
        ) is None
    &&& forall|i: int|
        1 <= i < ts.len() && (#[trigger] ts[i]).level != CONDITION_LEVEL ==> ts[i].level
            > ts[0].level
    &&& runs_distinct(ts)
}

/// No condition token repeats a label of its own run: each condition entry
/// differs from every condition entry immediately before it.
pub open spec fn runs_distinct(ts: Seq<TokenView>) -> bool
    decreases ts.len(),
{
    if ts.len() == 0 {
        true
    } else {
        runs_distinct(ts.drop_last()) && (ts.last().level == CONDITION_LEVEL ==> spec_lookup(
            trailing_conditions(ts.drop_last()),
            ts.last().label,
        ) is None)
    }
}

/// Each stack node sits strictly below the one under it.
pub open spec fn stack_levels_ok(st: Seq<FieldDefView>) -> bool {
    forall|i: int| 0 <= i < st.len() - 1 ==> (#[trigger] st[i].level) < st[i + 1].level
}

/// The condition entries of the trailing run: every condition token at the
/// end of the sequence, oldest first.
pub open spec fn trailing_conditions(ts: Seq<TokenView>) -> Seq<(Seq<char>, Seq<char>)>
    decreases ts.len(),
{
    if ts.len() == 0 || ts.last().level != CONDITION_LEVEL {
        Seq::empty()
    } else {
        trailing_conditions(ts.drop_last()).push(
            (ts.last().label, value_or_empty(ts.last().value)),
        )
    }
}

/// Closing open nodes keeps the stack's levels strictly nested, keeps the
/// root's level, and leaves a top strictly below the incoming level unless
/// only the root remains.
proof fn lemma_pop_to_levels(st: Seq<FieldDefView>, level: u32)
    requires
        st.len() >= 1,
        stack_levels_ok(st),
    ensures
        pop_to(st, level).len() >= 1,
        stack_levels_ok(pop_to(st, level)),
        pop_to(st, level)[0].level == st[0].level,
        pop_to(st, level).len() > 1 ==> pop_to(st, level).last().level < level,
    decreases st.len(),
{
    if st.len() > 1 && st.last().level >= level {
        let ct = collapse_top(st);
        let n = st.len() as int;
        assert(ct[0].level == st[0].level);
        assert forall|i: int| 0 <= i < ct.len() - 1 implies (#[trigger] ct[i].level) < ct[i
            + 1].level by {
            assert(ct[i] == st[i]);
            if i + 1 < n - 2 {
                assert(ct[i + 1] == st[i + 1]);
            } else {
                assert(ct[i + 1] == with_child(st[n - 2], st[n - 1]));
            }
        }
        lemma_pop_to_levels(ct, level);
    }
}

/// On a valid token sequence building cannot fail: every prefix yields an
/// open stack whose levels nest strictly, whose root keeps the first
/// token's level, and whose top carries exactly the trailing run's merged
/// condition entries.
#[verifier::rlimit(100)]
proof fn lemma_build_state_from_valid(ts: Seq<TokenView>)
    requires
        tokens_valid(ts),
    ensures
        spec_build_state(ts) is Ok,
        ({
            let st = spec_build_state(ts)->Ok_0;
            st.len() >= 1 && stack_levels_ok(st) && st[0].level == ts[0].level && (match st.last().value {
                Some(FieldValueEnumView::Conditions(m)) => m == trailing_conditions(ts),
                _ => trailing_conditions(ts).len() == 0,
            })
        }),
    decreases ts.len(),
{
    let t = ts.last();
    if ts.len() == 1 {
        assert(spec_token_error(ts[0]) is None);
        let st = spec_build_state(ts)->Ok_0;
        assert(st == seq![node_of_token(ts[0])]);
    } else {
        let prefix = ts.drop_last();
        assert(tokens_valid(prefix)) by {
            assert(prefix[0] == ts[0]);
            assert(forall|i: int| 0 <= i < prefix.len() ==> prefix[i] == #[trigger] ts[i]);
        }
        lemma_build_state_from_valid(prefix);
        let st = spec_build_state(prefix)->Ok_0;
        let n = st.len() as int;
        if t.level == CONDITION_LEVEL {
            let tc = trailing_conditions(prefix);
            match st.last().value {
                Some(FieldValueEnumView::Conditions(m)) => {
                    assert(m == tc);
                    assert(spec_lookup(m, t.label) is None);
                },
                _ => {
                    assert(tc.len() == 0);
                },
            }
            let st2 = spec_build_state(ts)->Ok_0;
            assert(st2 == st.drop_last().push(
                with_value(
                    st.last(),
                    spec_merged_value(st.last().value, t.label, value_or_empty(t.value))->Ok_0,
                ),
            ));
            assert(trailing_conditions(ts) == tc.push((t.label, value_or_empty(t.value))));
            assert forall|i: int| 0 <= i < st2.len() - 1 implies (#[trigger] st2[i].level) < st2[i
                + 1].level by {
                assert(st2[i] == st[i]);
                if i + 1 < n - 1 {
                    assert(st2[i + 1] == st[i + 1]);
                }
            }
            assert(st2[0].level == st[0].level);
        } else {
            assert(spec_token_error(t) is None);
            assert(t.level > ts[0].level);
            lemma_pop_to_levels(st, t.level);
            let popped = pop_to(st, t.level);
            assert(popped[0].level == ts[0].level);
            assert(!(popped.len() == 1 && popped[0].level >= t.level));
            let st2 = spec_build_state(ts)->Ok_0;
            assert(st2 == popped.push(node_of_token(t)));
            let k = popped.len() as int;
            assert forall|i: int| 0 <= i < st2.len() - 1 implies (#[trigger] st2[i].level) < st2[i
                + 1].level by {
                assert(st2[i] == popped[i]);
                if i + 1 < k {
                    assert(st2[i + 1] == popped[i + 1]);
                } else {
                    assert(st2[i + 1] == node_of_token(t));
                    if k > 1 {
                        assert(popped.last().level < t.level);
                    }
                }
            }
            assert(st2[0].level == ts[0].level);
            assert(trailing_conditions(ts).len() == 0);
        }
    }
}

/// Law: on every valid flat token sequence, tree building is owed to
/// succeed, and it does.
pub proof fn lemma_build_succeeds(ts: Seq<TokenView>)
    requires
        tokens_valid(ts),
    ensures
        spec_build(ts) is Ok,
{
    lemma_build_state_from_valid(ts);
}

} // verus!

